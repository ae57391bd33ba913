//! What holds of every text that makes a graph.
use crate::config::Settings;
use crate::dsl::construct::lemma_node_names;
use crate::dsl::graph::{
    mix_args_of, node_of, refs_of, source_graph, stage_built, stages_built, statements_built,
    statements_graph, unit_weights, weights_of, BuildFault, Building, MixArgs, Names,
};
use crate::dsl::lex::tokens_from;
use crate::dsl::parse::{statements_at, ArgModel, StageModel, Staged};
use crate::ieee::number::Double;
use crate::physical::frame::plan::Graph;
use vstd::prelude::*;
use vstd::utf8::encode_utf8;

verus! {

/// `gain($name, factor)` is `$name -> gain(factor)`, and `lpf($name, cutoff)` is
/// `$name -> lpf(cutoff)`.
pub proof fn named_input_is_an_incoming_one(
    settings: Settings,
    at: nat,
    names: Names,
    name: Seq<char>,
    value: Double,
)
    requires
        names.dom().contains(name),
    ensures
        node_of(
            settings,
            at,
            names,
            None,
            "gain"@,
            seq![ArgModel::Ref(name), ArgModel::Number(value)],
        ) == node_of(
            settings,
            at,
            names,
            Some(names[name]),
            "gain"@,
            seq![ArgModel::Number(value)],
        ),
        node_of(
            settings,
            at,
            names,
            None,
            "lpf"@,
            seq![ArgModel::Ref(name), ArgModel::Number(value)],
        ) == node_of(
            settings,
            at,
            names,
            Some(names[name]),
            "lpf"@,
            seq![ArgModel::Number(value)],
        ),
{
    lemma_node_names();
}

/// The graphs that some references name.
pub open spec fn named(names: Names, args: Seq<ArgModel>) -> Seq<Graph> {
    args.map_values(|arg: ArgModel| names[arg->Ref_0])
}

/// Whether every argument names a graph.
pub open spec fn all_named(names: Names, args: Seq<ArgModel>) -> bool {
    forall|i: int|
        0 <= i < args.len() ==> (#[trigger] args[i]) is Ref && names.dom().contains(
            args[i]->Ref_0,
        )
}

/// References alone are the inputs of a mix, in their order.
proof fn lemma_mix_args_named(at: nat, names: Names, args: Seq<ArgModel>, count: nat)
    requires
        all_named(names, args),
        count <= args.len(),
    ensures
        mix_args_of(at, names, None, args, count) == Ok::<MixArgs, BuildFault>(
            MixArgs { inputs: named(names, args.take(count as int)), gains: None },
        ),
    decreases count,
{
    if count == 0 {
        assert(named(names, args.take(0)) =~= Seq::empty());
    } else {
        lemma_mix_args_named(at, names, args, (count - 1) as nat);
        assert(args[count - 1] is Ref);
        assert(named(names, args.take(count as int)) =~= named(
            names,
            args.take(count - 1),
        ).push(names[args[count - 1]->Ref_0]));
    }
}

/// `mix($a, $b)` mixes its inputs with weights of one.
pub proof fn mix_without_weights_has_unit_weights(
    settings: Settings,
    at: nat,
    names: Names,
    args: Seq<ArgModel>,
)
    requires
        args.len() > 0,
        all_named(names, args),
    ensures
        node_of(settings, at, names, None, "mix"@, args) == Ok::<Graph, BuildFault>(
            Graph::Mix {
                inputs: named(names, args),
                gains: unit_weights(args.len()),
                batch_frame_capacity: settings.batch_frame_capacity,
            },
        ),
{
    lemma_node_names();
    lemma_mix_args_named(at, names, args, args.len());
    assert(args.take(args.len() as int) =~= args);
}

/// Whether a graph is cut off at the configured number of frames.
pub open spec fn is_limited(settings: Settings, graph: Graph) -> bool {
    graph matches Graph::Limit { input, frames } && frames == settings.frame_count
}

/// How many of the first `count` stages are `out`.
pub open spec fn outs_in_stages(stages: Seq<Staged>, count: nat) -> nat
    decreases count,
{
    if count == 0 {
        0
    } else if stages[count - 1].kind == StageModel::Out {
        outs_in_stages(stages, (count - 1) as nat) + 1
    } else {
        outs_in_stages(stages, (count - 1) as nat)
    }
}

/// How many stages of the first `count` statements are `out`.
pub open spec fn outs(statements: Seq<Seq<Staged>>, count: nat) -> nat
    decreases count,
{
    if count == 0 {
        0
    } else {
        outs(statements, (count - 1) as nat) + outs_in_stages(
            statements[count - 1],
            statements[count - 1].len(),
        )
    }
}

/// An output is limited.
spec fn output_limited(settings: Settings, building: Building) -> bool {
    building.output matches Some(graph) ==> is_limited(settings, graph)
}

/// How many outputs there are.
spec fn output_count(building: Building) -> nat {
    if building.output.is_some() {
        1
    } else {
        0
    }
}

/// Stages add one output for each `out`.
proof fn lemma_stages_outs(settings: Settings, before: Building, stages: Seq<Staged>, count: nat)
    requires
        output_limited(settings, before),
    ensures
        stages_built(settings, before, stages, count) matches Ok(after) ==> {
            &&& output_limited(settings, after)
            &&& output_count(after) == output_count(before) + outs_in_stages(stages, count)
        },
    decreases count,
{
    if count > 0 {
        lemma_stages_outs(settings, before, stages, (count - 1) as nat);
    }
}

/// Statements add one output for each `out`.
proof fn lemma_statements_outs(
    settings: Settings,
    length: nat,
    statements: Seq<Seq<Staged>>,
    count: nat,
)
    ensures
        statements_built(settings, length, statements, count) matches Ok(after) ==> {
            &&& output_limited(settings, after)
            &&& output_count(after) == outs(statements, count)
        },
    decreases count,
{
    if count > 0 {
        lemma_statements_outs(settings, length, statements, (count - 1) as nat);
        let built = statements_built(settings, length, statements, (count - 1) as nat);
        if built is Ok {
            let stages = statements[count - 1];
            lemma_stages_outs(settings, built->Ok_0, stages, stages.len());
        }
    }
}

/// A graph has exactly one `out`, and `out` cuts the signal off at the configured number
/// of frames.
pub proof fn a_graph_has_one_limited_output(
    settings: Settings,
    length: nat,
    statements: Seq<Seq<Staged>>,
)
    ensures
        statements_graph(settings, length, statements) matches Ok(graph) ==> {
            &&& is_limited(settings, graph)
            &&& outs(statements, statements.len()) == 1
        },
{
    lemma_statements_outs(settings, length, statements, statements.len());
}

/// Whatever text it was read from, a graph is cut off at the configured number of frames.
pub proof fn every_graph_is_limited(settings: Settings, source: Seq<char>)
    ensures
        source_graph(settings, source) matches Ok(graph) ==> is_limited(settings, graph),
{
    if tokens_from(source, 0) is Ok {
        let statements = statements_at(tokens_from(source, 0)->Ok_0, 0);
        if statements is Ok {
            a_graph_has_one_limited_output(
                settings,
                encode_utf8(source).len(),
                statements->Ok_0,
            );
        }
    }
}

/// Statements are evaluated in order: what the first ones give does not depend on those
/// that follow, so that a name is known only behind the statement that gives it.
pub proof fn later_statements_do_not_matter(
    settings: Settings,
    length: nat,
    one: Seq<Seq<Staged>>,
    other: Seq<Seq<Staged>>,
    count: nat,
)
    requires
        count <= one.len(),
        count <= other.len(),
        one.take(count as int) == other.take(count as int),
    ensures
        statements_built(settings, length, one, count) == statements_built(
            settings,
            length,
            other,
            count,
        ),
    decreases count,
{
    if count > 0 {
        let before = (count - 1) as nat;
        assert(one.take(before as int) =~= one.take(count as int).take(before as int));
        assert(other.take(before as int) =~= other.take(count as int).take(before as int));
        assert(one[count - 1] == one.take(count as int)[count - 1]);
        assert(other[count - 1] == other.take(count as int)[count - 1]);
        later_statements_do_not_matter(settings, length, one, other, before);
    }
}

/// Both succeed with the same, or both fail, wherever they do.
pub open spec fn same_outcome<T>(
    one: Result<T, BuildFault>,
    other: Result<T, BuildFault>,
) -> bool {
    one is Ok == other is Ok && (one is Ok ==> one->Ok_0 == other->Ok_0)
}

/// What references name does not depend on where they stand.
proof fn lemma_refs_anywhere(one: nat, other: nat, names: Names, items: Seq<ArgModel>, count: nat)
    ensures
        same_outcome(refs_of(one, names, items, count), refs_of(other, names, items, count)),
    decreases count,
{
    if count > 0 {
        lemma_refs_anywhere(one, other, names, items, (count - 1) as nat);
    }
}

/// What weights write does not depend on where they stand.
proof fn lemma_weights_anywhere(one: nat, other: nat, items: Seq<ArgModel>, count: nat)
    ensures
        same_outcome(weights_of(one, items, count), weights_of(other, items, count)),
    decreases count,
{
    if count > 0 {
        lemma_weights_anywhere(one, other, items, (count - 1) as nat);
    }
}

/// What the arguments of a mix give does not depend on where they stand.
proof fn lemma_mix_args_anywhere(
    one: nat,
    other: nat,
    names: Names,
    incoming: Option<Graph>,
    args: Seq<ArgModel>,
    count: nat,
)
    ensures
        same_outcome(
            mix_args_of(one, names, incoming, args, count),
            mix_args_of(other, names, incoming, args, count),
        ),
    decreases count,
{
    if count > 0 {
        lemma_mix_args_anywhere(one, other, names, incoming, args, (count - 1) as nat);
        if args[count - 1] is List {
            let items = args[count - 1]->List_0;
            lemma_refs_anywhere(one, other, names, items, items.len());
            lemma_weights_anywhere(one, other, items, items.len());
        }
    }
}

/// The node that a call writes does not depend on where it stands.
proof fn lemma_node_anywhere(
    settings: Settings,
    one: nat,
    other: nat,
    names: Names,
    incoming: Option<Graph>,
    name: Seq<char>,
    args: Seq<ArgModel>,
)
    ensures
        same_outcome(
            node_of(settings, one, names, incoming, name, args),
            node_of(settings, other, names, incoming, name, args),
        ),
{
    lemma_mix_args_anywhere(one, other, names, incoming, args, args.len());
}

/// What a statement of two stages gives.
proof fn lemma_two_stages(settings: Settings, before: Building, stages: Seq<Staged>)
    requires
        stages.len() == 2,
    ensures
        stages_built(settings, before, stages, 2) == match stage_built(
            settings,
            before,
            stages,
            0,
        ) {
            Err(fault) => Err(fault),
            Ok(here) => stage_built(settings, here, stages, 1),
        },
{
    reveal_with_fuel(stages_built, 3);
}

/// What a statement of three stages gives.
proof fn lemma_three_stages(settings: Settings, before: Building, stages: Seq<Staged>)
    requires
        stages.len() == 3,
    ensures
        stages_built(settings, before, stages, 3) == match stage_built(
            settings,
            before,
            stages,
            0,
        ) {
            Err(fault) => Err(fault),
            Ok(first) => match stage_built(settings, first, stages, 1) {
                Err(fault) => Err(fault),
                Ok(second) => stage_built(settings, second, stages, 2),
            },
        },
{
    reveal_with_fuel(stages_built, 4);
}

/// What a source, then a gain or a filter, and then `out` give.
pub open spec fn piped(
    settings: Settings,
    source: Seq<char>,
    source_args: Seq<ArgModel>,
    unary: Seq<char>,
    value: Double,
) -> Option<Graph> {
    match node_of(settings, 0, Map::empty(), None, source, source_args) {
        Err(_) => None,
        Ok(graph) => match node_of(
            settings,
            0,
            Map::empty(),
            Some(graph),
            unary,
            seq![ArgModel::Number(value)],
        ) {
            Err(_) => None,
            Ok(graph) => if settings.frame_count <= usize::MAX {
                Some(
                    Graph::Limit { input: Box::new(graph), frames: settings.frame_count as nat },
                )
            } else {
                None
            },
        },
    }
}

/// Whether statements give this graph, or are refused where there is none.
pub open spec fn gives(built: Result<Graph, BuildFault>, graph: Option<Graph>) -> bool {
    built is Ok == graph.is_some() && (built is Ok ==> Some(built->Ok_0) == graph)
}

/// A call as the first stage of a statement.
proof fn lemma_first_call(settings: Settings, before: Building, stages: Seq<Staged>)
    requires
        stages.len() > 0,
        stages[0].kind is Call,
        before.current.is_none(),
    ensures
        ({
            let (name, args) = (stages[0].kind->Call_0, stages[0].kind->Call_1);
            let made = node_of(settings, 0, before.names, None, name, args);
            &&& stage_built(settings, before, stages, 0) is Ok == made is Ok
            &&& made matches Ok(graph) ==> stage_built(settings, before, stages, 0) == Ok::<
                Building,
                BuildFault,
            >(Building { current: Some(graph), ..before })
        }),
{
    let (name, args) = (stages[0].kind->Call_0, stages[0].kind->Call_1);
    lemma_node_anywhere(settings, 0, stages[0].at, before.names, None, name, args);
}

/// A gain or a filter behind a signal does not look up any name.
proof fn lemma_unary_stage(
    settings: Settings,
    before: Building,
    stages: Seq<Staged>,
    index: int,
    unary: Seq<char>,
    value: Double,
)
    requires
        0 <= index < stages.len(),
        unary == "gain"@ || unary == "lpf"@,
        stages[index].kind == StageModel::Call(unary, seq![ArgModel::Number(value)]),
        before.current.is_some(),
    ensures
        ({
            let made = node_of(
                settings,
                0,
                Map::empty(),
                before.current,
                unary,
                seq![ArgModel::Number(value)],
            );
            &&& stage_built(settings, before, stages, index) is Ok == made is Ok
            &&& made matches Ok(graph) ==> stage_built(settings, before, stages, index) == Ok::<
                Building,
                BuildFault,
            >(Building { current: Some(graph), ..before })
        }),
{
    let args = seq![ArgModel::Number(value)];
    let at = stages[index].at;
    lemma_node_names();
    lemma_node_anywhere(settings, 0, at, Map::empty(), before.current, unary, args);
    assert(node_of(settings, at, before.names, before.current, unary, args) == node_of(
        settings,
        at,
        Map::empty(),
        before.current,
        unary,
        args,
    ));
}

/// `out` behind a signal, where there was none before.
proof fn lemma_out_stage(settings: Settings, before: Building, stages: Seq<Staged>, index: int)
    requires
        0 <= index == stages.len() - 1,
        stages[index].kind == StageModel::Out,
        before.current.is_some(),
        before.output.is_none(),
    ensures
        ({
            let built = stage_built(settings, before, stages, index);
            &&& built is Ok == (settings.frame_count <= usize::MAX)
            &&& built matches Ok(after) ==> after.current.is_none() && after.output == Some(
                Graph::Limit {
                    input: Box::new(before.current.unwrap()),
                    frames: settings.frame_count as nat,
                },
            )
        }),
{
}

/// `S -> F(x) -> out`
pub(crate) proof fn lemma_chain(
    settings: Settings,
    source: Seq<char>,
    source_args: Seq<ArgModel>,
    unary: Seq<char>,
    value: Double,
    stages: Seq<Staged>,
    length: nat,
)
    requires
        unary == "gain"@ || unary == "lpf"@,
        stages.len() == 3,
        stages[0].kind == StageModel::Call(source, source_args),
        stages[1].kind == StageModel::Call(unary, seq![ArgModel::Number(value)]),
        stages[2].kind == StageModel::Out,
    ensures
        gives(
            statements_graph(settings, length, seq![stages]),
            piped(settings, source, source_args, unary, value),
        ),
{
    let start = Building { names: Map::empty(), current: None, output: None };
    reveal_with_fuel(statements_built, 2);
    lemma_three_stages(settings, start, stages);
    lemma_first_call(settings, start, stages);
    let first = stage_built(settings, start, stages, 0);
    if first is Ok {
        lemma_unary_stage(settings, first->Ok_0, stages, 1, unary, value);
        let second = stage_built(settings, first->Ok_0, stages, 1);
        if second is Ok {
            lemma_out_stage(settings, second->Ok_0, stages, 2);
        }
    }
}

/// `S -> $A`
proof fn lemma_named_source(
    settings: Settings,
    source: Seq<char>,
    source_args: Seq<ArgModel>,
    name: Seq<char>,
    stages: Seq<Staged>,
)
    requires
        stages.len() == 2,
        stages[0].kind == StageModel::Call(source, source_args),
        stages[1].kind == StageModel::Ref(name),
    ensures
        ({
            let start = Building { names: Map::empty(), current: None, output: None };
            let built = stages_built(settings, start, stages, 2);
            let made = node_of(settings, 0, Map::empty(), None, source, source_args);
            &&& built is Ok == made is Ok
            &&& made matches Ok(graph) ==> built == Ok::<Building, BuildFault>(
                Building {
                    names: Map::<Seq<char>, Graph>::empty().insert(name, graph),
                    current: None,
                    output: None,
                },
            )
        }),
{
    let start = Building { names: Map::empty(), current: None, output: None };
    lemma_two_stages(settings, start, stages);
    lemma_first_call(settings, start, stages);
}

/// `S -> $A; $A -> F(x) -> out`
pub(crate) proof fn lemma_named_chain(
    settings: Settings,
    source: Seq<char>,
    source_args: Seq<ArgModel>,
    unary: Seq<char>,
    value: Double,
    name: Seq<char>,
    first: Seq<Staged>,
    second: Seq<Staged>,
    length: nat,
)
    requires
        unary == "gain"@ || unary == "lpf"@,
        first.len() == 2,
        first[0].kind == StageModel::Call(source, source_args),
        first[1].kind == StageModel::Ref(name),
        second.len() == 3,
        second[0].kind == StageModel::Ref(name),
        second[1].kind == StageModel::Call(unary, seq![ArgModel::Number(value)]),
        second[2].kind == StageModel::Out,
    ensures
        gives(
            statements_graph(settings, length, seq![first, second]),
            piped(settings, source, source_args, unary, value),
        ),
{
    reveal_with_fuel(statements_built, 3);
    lemma_named_source(settings, source, source_args, name, first);
    let start = Building { names: Map::empty(), current: None, output: None };
    let built = stages_built(settings, start, first, 2);
    if built is Ok {
        let bound = built->Ok_0;
        lemma_three_stages(settings, bound, second);
        let here = stage_built(settings, bound, second, 0);
        assert(here is Ok);
        lemma_unary_stage(settings, here->Ok_0, second, 1, unary, value);
        let next = stage_built(settings, here->Ok_0, second, 1);
        if next is Ok {
            lemma_out_stage(settings, next->Ok_0, second, 2);
        }
    }
}

/// `S -> $A; F($A, x) -> out`
pub(crate) proof fn lemma_named_argument(
    settings: Settings,
    source: Seq<char>,
    source_args: Seq<ArgModel>,
    unary: Seq<char>,
    value: Double,
    name: Seq<char>,
    first: Seq<Staged>,
    second: Seq<Staged>,
    length: nat,
)
    requires
        unary == "gain"@ || unary == "lpf"@,
        first.len() == 2,
        first[0].kind == StageModel::Call(source, source_args),
        first[1].kind == StageModel::Ref(name),
        second.len() == 2,
        second[0].kind == StageModel::Call(
            unary,
            seq![ArgModel::Ref(name), ArgModel::Number(value)],
        ),
        second[1].kind == StageModel::Out,
    ensures
        gives(
            statements_graph(settings, length, seq![first, second]),
            piped(settings, source, source_args, unary, value),
        ),
{
    reveal_with_fuel(statements_built, 3);
    lemma_named_source(settings, source, source_args, name, first);
    let start = Building { names: Map::empty(), current: None, output: None };
    let built = stages_built(settings, start, first, 2);
    if built is Ok {
        let bound = built->Ok_0;
        let at = second[0].at;
        let graph = bound.names[name];
        lemma_two_stages(settings, bound, second);
        named_input_is_an_incoming_one(settings, at, bound.names, name, value);
        let chained = Building { current: Some(graph), ..bound };
        let short = seq![
            Staged { kind: StageModel::Call(unary, seq![ArgModel::Number(value)]), at },
            second[1],
        ];
        lemma_unary_stage(settings, chained, short, 0, unary, value);
        let here = stage_built(settings, bound, second, 0);
        assert(same_outcome(here, stage_built(settings, chained, short, 0)));
        if here is Ok {
            lemma_out_stage(settings, here->Ok_0, second, 1);
        }
    }
}

} // verus!
