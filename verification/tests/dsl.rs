use std::sync::Arc;

use sonicfusion::dsl::lex::{lex, TokenKind};
use sonicfusion::dsl::{build_plan, DslError};
use sonicfusion::ieee::number::{Double, Single};
use sonicfusion::physical::frame::node::Extent;
use sonicfusion::physical::frame::Plan;
use sonicfusion::preview::DEFAULT_GRAPH;
use sonicfusion::RenderConfig;

fn message(graph: &str) -> String {
    build_plan(graph, &RenderConfig::default()).unwrap_err().to_string()
}

fn built(graph: &str) -> Arc<Plan> {
    match build_plan(graph, &RenderConfig::default()) {
        Ok(plan) => plan,
        Err(error) => panic!("{graph:?}: {}", error.to_string()),
    }
}

fn outline(plan: &Plan) -> String {
    let double = |value: Double| f64::from_bits(value.bits);
    let single = |value: Single| f32::from_bits(value.bits);
    match plan {
        Plan::Source(_) => "source".to_string(),
        Plan::Sine(node) => format!("sine {}", double(node.frequency_hz())),
        Plan::Square(node) => {
            format!("square {} {}", double(node.frequency_hz()), double(node.pulse_width()))
        }
        Plan::Gain(node) => format!("gain {} ({})", single(node.gain()), outline(node.input())),
        Plan::LowPass(node) => {
            format!("lpf {} ({})", double(node.cutoff_hz()), outline(node.input()))
        }
        Plan::Mix(node) => {
            let inputs = node.inputs().iter().map(|input| outline(input)).collect::<Vec<_>>();
            let gains = node.gains().iter().map(|gain| single(*gain)).collect::<Vec<_>>();
            format!("mix {gains:?} ({})", inputs.join(", "))
        }
        Plan::Limit(node) => format!("limit {} ({})", node.frames(), outline(node.input())),
    }
}

#[test]
fn rejects_invalid_graphs_with_locations() {
    let config = RenderConfig::default();
    for (graph, message) in [
        (
            "sine(440) -> $A;\nmix($A, $B) -> out",
            "line 2, column 1: undefined reference $B",
        ),
        (
            "sine(440) -> $A; sine(220) -> $A; $A -> out",
            "duplicate binding $A",
        ),
        ("sine(440) -> out; sine(220) -> out", "more than one out"),
        ("sine(440) -> gain(0.5)", "statement must end in a binding or out"),
        (
            "sine(440) -> $A; mix([$A], [0.4, 0.6]) -> out",
            "mix has 1 inputs but 2 weights",
        ),
        ("sine(440) -> lpf(100000) -> out", "cutoff_hz must be below Nyquist"),
        ("sine(440) -> out -> gain(0.5)", "out must end a statement"),
        (
            "sine(440) -> $A\nsine(220) -> out",
            "expected ';' between statements",
        ),
    ] {
        let error = build_plan(graph, &config).unwrap_err().to_string();
        assert!(error.contains(message), "{graph:?}: {error}");
    }
}

#[test]
fn every_fault_of_a_text_has_its_own_words() {
    for (graph, expected) in [
        ("sine(1) -> $1", "DSL at line 1, column 12: expected identifier after $"),
        ("$ -> out", "DSL at line 1, column 1: expected identifier after $"),
        ("sine(1e999) -> out", "DSL at line 1, column 6: number must be finite"),
        ("sine(1.2.3) -> out", "DSL at line 1, column 6: invalid number \"1.2.3\""),
        ("sine(1) -> - out", "DSL at line 1, column 12: invalid number \"-\""),
        ("sine(1) @ out", "DSL at line 1, column 9: unexpected character '@'"),
        ("é", "DSL at line 1, column 1: unexpected character 'é'"),
        ("\n\u{3000}\t# x\n  \"", "DSL at line 3, column 3: unexpected character '\"'"),
        ("sine", "DSL at line 1, column 5: expected '(' after node name"),
        ("sine(1", "DSL at line 1, column 7: expected ')' after arguments"),
        ("sine(", "DSL at line 1, column 6: expected number, $reference, or list"),
        ("sine(1,)", "DSL at line 1, column 8: expected number, $reference, or list"),
        ("mix([1", "DSL at line 1, column 7: expected ']' after list"),
        ("-> out", "DSL at line 1, column 1: expected node or $reference"),
        ("sine(1) ->", "DSL at line 1, column 11: expected node or $reference"),
        ("(1)", "DSL at line 1, column 1: expected node or $reference"),
        ("out", "DSL at line 1, column 1: out requires an input"),
        ("$x -> out", "DSL at line 1, column 1: undefined reference $x"),
        ("sine(1) -> $x -> out", "DSL at line 1, column 12: binding must end a statement"),
        ("sine(1) -> $x", "DSL at line 1, column 14: graph requires one out"),
        ("", "DSL at line 1, column 1: graph requires one out"),
        ("# nothing\n", "DSL at line 2, column 1: graph requires one out"),
        ("sine(1) -> $x; $x", "DSL at line 1, column 18: statement must end in a binding or out"),
        ("sine(1, 2) -> out", "DSL at line 1, column 1: sine expects 1 numeric argument(s)"),
        ("square(1) -> out", "DSL at line 1, column 1: square expects 2 numeric argument(s)"),
        ("sine([1]) -> out", "DSL at line 1, column 1: sine expects numeric arguments"),
        (
            "sine(1) -> square(1, 0.5) -> out",
            "DSL at line 1, column 12: square is a source and takes no input",
        ),
        (
            "sine(1) -> gain() -> out",
            "DSL at line 1, column 12: gain expects one input and one numeric argument",
        ),
        (
            "gain(1) -> out",
            "DSL at line 1, column 1: gain expects one input and one numeric argument",
        ),
        (
            "sine(1) -> $x; sine(1) -> gain($x, 1) -> out",
            "DSL at line 1, column 27: gain expects one input and one numeric argument",
        ),
        ("sine(1) -> gain(1e39) -> out", "DSL at line 1, column 12: gain factor exceeds f32 range"),
        ("mix() -> out", "DSL at line 1, column 1: mix requires at least one input"),
        (
            "sine(1) -> mix(1) -> out",
            "DSL at line 1, column 12: mix expects input references followed by an optional weight list",
        ),
        (
            "sine(1) -> mix([1], [1]) -> out",
            "DSL at line 1, column 12: mix expects input references followed by an optional weight list",
        ),
        (
            "sine(1) -> $x; $x -> mix([1, $x]) -> out",
            "DSL at line 1, column 22: mix weights must be numbers",
        ),
        (
            "sine(1) -> mix([1e39]) -> out",
            "DSL at line 1, column 12: mix weight exceeds f32 range",
        ),
        (
            "sine(1) -> mix([]) -> out",
            "DSL at line 1, column 12: mix has 1 inputs but 0 weights",
        ),
        ("noise() -> out", "DSL at line 1, column 1: unknown node \"noise\""),
        ("out(1) -> out", "DSL at line 1, column 1: unknown node \"out\""),
        (
            "sine(24000) -> out",
            "failed to construct graph: Error during planning: frequency_hz must be below Nyquist (24000 Hz for sample_rate_hz 48000)",
        ),
        (
            "square(1, 2) -> out",
            "failed to construct graph: Error during planning: pulse_width must be finite and between 0 and 1 inclusive",
        ),
        (
            "sine(1) -> lpf(0) -> out",
            "failed to construct graph: Error during planning: cutoff_hz must be greater than 0",
        ),
    ] {
        assert_eq!(message(graph), expected, "{graph:?}");
    }
    assert!(matches!(
        build_plan("?", &RenderConfig::default()),
        Err(DslError::Source { line: 1, column: 1, .. })
    ));
}

#[test]
fn graphs_are_read_as_they_are_written() {
    for (graph, expected) in [
        ("sine(440.0) -> out", "limit 48000 (sine 440)"),
        ("sine(440.0) -> out;", "limit 48000 (sine 440)"),
        (
            "# two tones\nsine(440.0) -> $high; # first\nsine(220.0) -> $low;\nmix([$high, $low], [0.4, 0.6]) -> out",
            "limit 48000 (mix [0.4, 0.6] (sine 440, sine 220))",
        ),
        (
            "sine(1)->$a;square(2,.25)->$_b2;mix($a,$_b2)->out",
            "limit 48000 (mix [1.0, 1.0] (sine 1, square 2 0.25))",
        ),
        (
            "sine(1) -> $a; sine(2) -> mix($a, [2, -3e-1]) -> out",
            "limit 48000 (mix [2.0, -0.3] (sine 2, sine 1))",
        ),
        (
            "sine(+1) -> $a; mix([$a], $a, [$a, $a]) -> lpf(10) -> gain(-0.5) -> out",
            "limit 48000 (gain -0.5 (lpf 10 (mix [1.0, 1.0, 1.0, 1.0] (sine 1, sine 1, sine 1, sine 1))))",
        ),
        ("sine(1) -> $a; lpf($a, 5) -> $b; $b -> out", "limit 48000 (lpf 5 (sine 1))"),
    ] {
        assert_eq!(outline(&built(graph)), expected, "{graph:?}");
    }
}

#[test]
fn named_inputs_are_incoming_ones() {
    assert_eq!(
        outline(&built("sine(1) -> $a; gain($a, 0.5) -> out")),
        outline(&built("sine(1) -> $a; $a -> gain(0.5) -> out"))
    );
    assert_eq!(
        outline(&built("sine(1) -> $a; lpf($a, 0.5) -> out")),
        outline(&built("sine(1) -> $a; $a -> lpf(0.5) -> out"))
    );
}

#[test]
fn the_default_graph_can_be_built() {
    let plan = built(DEFAULT_GRAPH);
    assert_eq!(outline(&plan), "limit 48000 (gain 0.5 (sine 440))");
    assert_eq!(plan.properties().extent, Extent::Bounded);
}

#[test]
fn nodes_carry_the_rate_the_capacity_and_the_decay() {
    let config = RenderConfig::builder()
        .sample_rate_hz(8)
        .frame_count(10)
        .batch_frame_capacity(4)
        .build()
        .unwrap();
    let plan = build_plan("sine(1) -> $a; square(2, 0.5) -> mix($a) -> lpf(1.25) -> out", &config)
        .ok()
        .unwrap();
    let filter = &plan.children()[0];
    let mix = match filter.as_ref() {
        Plan::LowPass(node) => {
            let exponent = -2.0 * std::f64::consts::PI * 1.25 / 8.0;
            assert_eq!(f64::from_bits(node.exponent().bits), exponent);
            node.input()
        }
        _ => panic!("expected a filter"),
    };
    match mix.as_ref() {
        Plan::Mix(node) => assert_eq!(node.batch_frame_capacity(), 4),
        _ => panic!("expected a mixer"),
    }
    match mix.children()[0].as_ref() {
        Plan::Square(node) => {
            assert_eq!(node.sample_rate_hz(), 8);
            assert_eq!(node.batch_frame_capacity(), 4);
        }
        _ => panic!("expected a square wave"),
    }
    match mix.children()[1].as_ref() {
        Plan::Sine(node) => {
            assert_eq!(node.sample_rate_hz(), 8);
            assert_eq!(node.batch_frame_capacity(), 4);
        }
        _ => panic!("expected a sine wave"),
    }
}

#[test]
fn three_ways_to_write_a_filter_are_one() {
    for call in ["gain(0.5)", "lpf(100)", "lpf(0)", "gain(1e39)"] {
        let value = &call[call.find('(').unwrap() + 1..call.len() - 1];
        let name = &call[..call.find('(').unwrap()];
        let outcomes = [
            format!("sine(1) -> {call} -> out"),
            format!("sine(1) -> $A; $A -> {call} -> out"),
            format!("sine(1) -> $A; {name}($A, {value}) -> out"),
        ]
        .map(|text| build_plan(&text, &RenderConfig::default()).ok().map(|plan| outline(&plan)));
        assert_eq!(outcomes[0], outcomes[1]);
        assert_eq!(outcomes[0], outcomes[2]);
    }
}

#[test]
fn three_ways_to_write_a_filter_are_one_however_they_are_laid_out() {
    let outcome =
        |text: &str| build_plan(text, &RenderConfig::default()).ok().map(|plan| outline(&plan));
    let sources = ["sine(1)", " square ( 2.5 ) ", "sine(440) # a note\n", "sine(-1)", "sine()"];
    for source in sources {
        for (node, value) in [("gain", "0.5"), ("lpf", "+1e2"), ("gain", "1.2.3"), ("lpf", "1e999")] {
            let chain = outcome(&format!("{source} -> {node}({value}) -> out"));
            assert_eq!(
                chain,
                outcome(&format!("{source} -> $a_1; $a_1 -> {node}({value}) -> out"))
            );
            assert_eq!(
                chain,
                outcome(&format!("{source} -> $a_1; {node}($a_1, {value}) -> out"))
            );
            assert_eq!(
                chain,
                outcome(&format!("{source}->$x;\n\t{node} ( $x,{value} ) # done\n->out;"))
            );
        }
    }
    assert!(outcome("sine(1) -> gain(0.5) -> out").is_some());
    assert!(outcome("sine(440) # a note\n -> lpf(+1e2) -> out").is_some());
    // A comment that is still open takes the rest in.
    assert!(outcome("sine(1) # -> gain(0.5) -> out").is_none());
}

#[test]
fn positions_are_counted_in_bytes() {
    let places = |text: &str| {
        let tokens = lex(text).ok().unwrap();
        tokens.iter().map(|token| token.at).collect::<Vec<_>>()
    };
    assert_eq!(places("# é\n$a"), [5, 7]);
    assert_eq!(places("# é"), [4]);
    assert_eq!(places("\u{3000}a # \u{1f600}\n(1)"), [3, 12, 13, 14, 15]);
    let problem = lex("# \u{1f600}é\n @").err().unwrap();
    assert_eq!(problem.at, 10);
    assert_eq!(
        message("# \u{1f600}é\n @"),
        "DSL at line 2, column 2: unexpected character '@'"
    );
    assert_eq!(
        message("sine(1) -> $a # é"),
        "DSL at line 1, column 18: graph requires one out"
    );
}

#[test]
fn tokens_know_where_they_start() {
    let tokens = lex("a1 -> # c\n $b ( 1.5e3 ) [ ] , ;").ok().unwrap();
    let shown = tokens
        .iter()
        .map(|token| {
            let kind = match &token.kind {
                TokenKind::Name(name) => format!("name {name}"),
                TokenKind::Ref(name) => format!("ref {name}"),
                TokenKind::Number(value) => format!("number {}", f64::from_bits(value.bits)),
                TokenKind::Arrow => "->".to_string(),
                TokenKind::OpenParen => "(".to_string(),
                TokenKind::CloseParen => ")".to_string(),
                TokenKind::OpenBracket => "[".to_string(),
                TokenKind::CloseBracket => "]".to_string(),
                TokenKind::Comma => ",".to_string(),
                TokenKind::Semicolon => ";".to_string(),
                TokenKind::End => "end".to_string(),
            };
            (kind, token.at)
        })
        .collect::<Vec<_>>();
    let expected = [
        ("name a1", 0),
        ("->", 3),
        ("ref b", 11),
        ("(", 14),
        ("number 1500", 16),
        (")", 22),
        ("[", 24),
        ("]", 26),
        (",", 28),
        (";", 30),
        ("end", 31),
    ];
    let expected =
        expected.iter().map(|(kind, at)| (kind.to_string(), *at)).collect::<Vec<_>>();
    assert_eq!(shown, expected);
}

#[test]
fn names_are_known_only_behind_their_statement() {
    assert_eq!(
        message("$b -> out; sine(1) -> $b"),
        "DSL at line 1, column 1: undefined reference $b"
    );
    assert_eq!(
        message("sine(1) -> $a;\n  gain($a, 2) -> $b; $c -> $d"),
        "DSL at line 2, column 22: undefined reference $c"
    );
}
