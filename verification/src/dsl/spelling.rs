//! What texts that are put together from others write.
use crate::config::Settings;
use crate::dsl::graph::source_graph;
use crate::dsl::laws::{
    gives, lemma_chain, lemma_named_argument, lemma_named_chain, piped, same_outcome,
};
use crate::dsl::lex::{
    in_name, in_number, is_name, is_space, lemma_ends, line_end, name_end, number_end,
    starts_number, token_at, tokens_from, Lexed, Lexeme,
};
use crate::dsl::parse::{
    arg_at, args_at, kind_at, stage_at, stages_at, statements_at, ArgModel, StageModel,
};
use crate::ieee::decimal::parsed;
use crate::ieee::number::Double;
use vstd::prelude::*;
use vstd::utf8::encode_utf8;

verus! {

/// What some tokens are, wherever they stand.
pub open spec fn kinds(tokens: Seq<Lexed>) -> Seq<Lexeme> {
    tokens.map_values(|token: Lexed| token.kind)
}

/// What the tokens of a text from its character `at` on are, the end among them; none if
/// it has a fault.
pub open spec fn written_from(text: Seq<char>, at: nat) -> Option<Seq<Lexeme>> {
    match tokens_from(text, at) {
        Ok(tokens) => Some(kinds(tokens)),
        Err(_) => None,
    }
}

/// What the tokens of a text are.
pub open spec fn written(text: Seq<char>) -> Option<Seq<Lexeme>> {
    written_from(text, 0)
}

/// One token, and then others.
pub open spec fn preceded(kind: Lexeme, rest: Option<Seq<Lexeme>>) -> Option<Seq<Lexeme>> {
    match rest {
        Some(rest) => Some(seq![kind] + rest),
        None => None,
    }
}

/// What the tokens from a place on are, by what stands there.
pub(crate) proof fn lemma_written_step(text: Seq<char>, at: nat)
    ensures
        at >= text.len() ==> written_from(text, at) == Some(seq![Lexeme::End]),
        at < text.len() ==> {
            let c = text[at as int];
            written_from(text, at) == if is_space(c) {
                written_from(text, at + 1)
            } else if c == '#' {
                written_from(text, line_end(text, at + 1))
            } else {
                match token_at(text, at) {
                    Err(_) => None,
                    Ok((kind, end)) => preceded(kind, written_from(text, end)),
                }
            }
        },
{
    if at >= text.len() {
        assert(kinds(tokens_from(text, at)->Ok_0) =~= seq![Lexeme::End]);
    } else if !is_space(text[at as int]) && text[at as int] != '#' {
        if token_at(text, at) is Ok {
            let (kind, end) = token_at(text, at)->Ok_0;
            if tokens_from(text, end) is Ok {
                let rest = tokens_from(text, end)->Ok_0;
                assert(kinds(tokens_from(text, at)->Ok_0) =~= seq![kind] + kinds(rest));
            }
        }
    }
}

/// Every comment in a text ends there, at the end of its line.
pub open spec fn closes_comments(text: Seq<char>) -> bool {
    forall|i: int|
        0 <= i < text.len() && #[trigger] text[i] == '#' ==> exists|j: int|
            i < j < text.len() && text[j] == '\n'
}

/// A character that no token goes on with.
pub open spec fn is_break(c: char) -> bool {
    !in_name(c) && !in_number(c) && c != '>'
}

/// No token goes over from one text to the other.
pub open spec fn part(one: Seq<char>, other: Seq<char>) -> bool {
    ||| other.len() == 0
    ||| is_break(other[0])
    ||| one.len() == 0
    ||| (!in_name(one.last()) && !in_number(one.last()) && one.last() != '$')
}

/// A name ends where it would end alone.
proof fn lemma_name_end_joined(one: Seq<char>, other: Seq<char>, from: nat)
    requires
        from <= one.len(),
        other.len() > 0 && in_name(other[0]) ==> one.len() > 0 && !in_name(one.last()),
        from == one.len() ==> other.len() == 0 || !in_name(other[0]),
    ensures
        name_end(one + other, from) == name_end(one, from),
        name_end(one, from) <= one.len(),
    decreases one.len() - from,
{
    let text = one + other;
    if from < one.len() {
        assert(text[from as int] == one[from as int]);
        if in_name(one[from as int]) {
            lemma_name_end_joined(one, other, from + 1);
        }
    } else if other.len() > 0 {
        assert(text[from as int] == other[0]);
    }
}

/// A number ends where it would end alone.
proof fn lemma_number_end_joined(one: Seq<char>, other: Seq<char>, from: nat)
    requires
        from <= one.len(),
        other.len() > 0 && in_number(other[0]) ==> one.len() > 0 && !in_number(one.last()),
        from == one.len() ==> other.len() == 0 || !in_number(other[0]),
    ensures
        number_end(one + other, from) == number_end(one, from),
        number_end(one, from) <= one.len(),
    decreases one.len() - from,
{
    let text = one + other;
    if from < one.len() {
        assert(text[from as int] == one[from as int]);
        if in_number(one[from as int]) {
            lemma_number_end_joined(one, other, from + 1);
        }
    } else if other.len() > 0 {
        assert(text[from as int] == other[0]);
    }
}

/// A line that ends in a text ends there in a longer text.
proof fn lemma_line_end_joined(one: Seq<char>, other: Seq<char>, from: nat)
    requires
        exists|j: int| from <= j < one.len() && one[j] == '\n',
    ensures
        line_end(one + other, from) == line_end(one, from),
        line_end(one, from) <= one.len(),
    decreases one.len() - from,
{
    let text = one + other;
    let j = choose|j: int| from <= j < one.len() && one[j] == '\n';
    assert(text[from as int] == one[from as int]);
    if one[from as int] != '\n' {
        assert(from + 1 <= j);
        lemma_line_end_joined(one, other, from + 1);
    }
}

/// A token is the same where another text follows.
proof fn lemma_token_joined(one: Seq<char>, other: Seq<char>, at: nat)
    requires
        at < one.len(),
        part(one, other),
    ensures
        token_at(one + other, at) is Ok == token_at(one, at) is Ok,
        token_at(one, at) matches Ok((kind, end)) ==> token_at(one + other, at) == token_at(one, at)
            && at < end <= one.len(),
{
    let text = one + other;
    let c = one[at as int];
    assert(text[at as int] == c);
    lemma_ends(one, at + 1);
    if at + 1 < one.len() {
        assert(text[at as int + 1] == one[at as int + 1]);
    } else if other.len() > 0 {
        assert(text[at as int + 1] == other[0]);
        assert(one.last() == c);
    }
    if c == '$' || in_name(c) {
        lemma_name_end_joined(one, other, at + 1);
        let end = name_end(one, at + 1);
        assert(text.subrange(at as int, end as int) =~= one.subrange(at as int, end as int));
        assert(text.subrange(at as int + 1, end as int) =~= one.subrange(
            at as int + 1,
            end as int,
        ));
    }
    if in_number(c) {
        lemma_number_end_joined(one, other, at + 1);
        let end = number_end(one, at + 1);
        assert(text.subrange(at as int, end as int) =~= one.subrange(at as int, end as int));
    }
}

/// The tokens of the second of two texts.
proof fn lemma_written_behind(one: Seq<char>, other: Seq<char>, at: nat)
    requires
        at <= other.len(),
    ensures
        written_from(one + other, one.len() + at) == written_from(other, at),
    decreases other.len() - at,
{
    let text = one + other;
    lemma_written_step(text, one.len() + at);
    lemma_written_step(other, at);
    if at < other.len() {
        assert(text[(one.len() + at) as int] == other[at as int]);
        lemma_ends(other, at + 1);
        lemma_ends_behind(one, other, at + 1);
        let c = other[at as int];
        if is_space(c) {
            lemma_written_behind(one, other, at + 1);
        } else if c == '#' {
            lemma_written_behind(one, other, line_end(other, at + 1));
        } else {
            lemma_token_behind(one, other, at);
            if token_at(other, at) is Ok {
                lemma_written_behind(one, other, token_at(other, at)->Ok_0.1);
            }
        }
    }
}

/// Names, numbers and lines of the second of two texts end where they end alone.
proof fn lemma_ends_behind(one: Seq<char>, other: Seq<char>, from: nat)
    requires
        from <= other.len(),
    ensures
        name_end(one + other, one.len() + from) == one.len() + name_end(other, from),
        number_end(one + other, one.len() + from) == one.len() + number_end(other, from),
        line_end(one + other, one.len() + from) == one.len() + line_end(other, from),
    decreases other.len() - from,
{
    if from < other.len() {
        assert((one + other)[(one.len() + from) as int] == other[from as int]);
        lemma_ends_behind(one, other, from + 1);
    }
}

/// A token of the second of two texts.
proof fn lemma_token_behind(one: Seq<char>, other: Seq<char>, at: nat)
    requires
        at < other.len(),
    ensures
        token_at(one + other, one.len() + at) is Ok == token_at(other, at) is Ok,
        token_at(other, at) matches Ok((kind, end)) ==> {
            &&& token_at(one + other, one.len() + at) is Ok
            &&& token_at(one + other, one.len() + at)->Ok_0 == (kind, one.len() + end)
            &&& at < end <= other.len()
        },
{
    let text = one + other;
    let there = one.len() + at;
    lemma_ends(other, at + 1);
    lemma_ends_behind(one, other, at + 1);
    assert(text[there as int] == other[at as int]);
    if at + 1 < other.len() {
        assert(text[there as int + 1] == other[at as int + 1]);
    }
    let n = one.len() as int;
    let name = name_end(other, at + 1) as int;
    let number = number_end(other, at + 1) as int;
    assert(text.subrange(n + at, n + name) =~= other.subrange(at as int, name));
    assert(text.subrange(n + at + 1, n + name) =~= other.subrange(at as int + 1, name));
    assert(text.subrange(n + at, n + number) =~= other.subrange(at as int, number));
}

/// The tokens of one text, without its end, and then those of another.
pub open spec fn joined(
    one: Option<Seq<Lexeme>>,
    other: Option<Seq<Lexeme>>,
) -> Option<Seq<Lexeme>> {
    match (one, other) {
        (Some(one), Some(other)) => Some(one.drop_last() + other),
        _ => None,
    }
}

/// The tokens of two texts from a place in the first on.
proof fn lemma_written_joined(one: Seq<char>, other: Seq<char>, at: nat)
    requires
        at <= one.len(),
        part(one, other),
        closes_comments(one),
    ensures
        written_from(one + other, at) == joined(written_from(one, at), written(other)),
        written_from(one, at) matches Some(all) ==> all.len() > 0,
    decreases one.len() - at,
{
    let text = one + other;
    lemma_written_step(text, at);
    lemma_written_step(one, at);
    if at == one.len() {
        lemma_written_behind(one, other, 0);
        if written(other).is_some() {
            let rest = written(other).unwrap();
            assert(seq![Lexeme::End].drop_last() + rest =~= rest);
        }
    } else {
        let c = one[at as int];
        assert(text[at as int] == c);
        lemma_ends(one, at + 1);
        if is_space(c) {
            lemma_written_joined(one, other, at + 1);
        } else if c == '#' {
            lemma_line_end_joined(one, other, at + 1);
            lemma_written_joined(one, other, line_end(one, at + 1));
        } else {
            lemma_token_joined(one, other, at);
            if token_at(one, at) is Ok {
                let (kind, end) = token_at(one, at)->Ok_0;
                lemma_written_joined(one, other, end);
                if written_from(one, end).is_some() && written(other).is_some() {
                    let here = written_from(one, end).unwrap();
                    let rest = written(other).unwrap();
                    assert((seq![kind] + here).drop_last() + rest =~= seq![kind] + (
                    here.drop_last() + rest));
                }
            }
        }
    }
}

/// Where no token goes over from one text to the next, and every comment of the first is
/// closed, two texts put together write the tokens of the one and then those of the other.
pub proof fn texts_write_one_after_the_other(one: Seq<char>, other: Seq<char>)
    requires
        part(one, other),
        closes_comments(one),
    ensures
        written(one + other) == joined(written(one), written(other)),
{
    lemma_written_joined(one, other, 0);
}

/// The same tokens stand before a place.
spec fn agree(one: Seq<Lexed>, other: Seq<Lexed>, count: nat) -> bool {
    &&& count <= one.len()
    &&& count <= other.len()
    &&& forall|i: int| 0 <= i < count ==> (#[trigger] one[i]).kind == other[i].kind
}

/// An argument ends behind its first token.
proof fn lemma_arg_ends(tokens: Seq<Lexed>, index: nat)
    ensures
        arg_at(tokens, index) matches Ok((arg, end)) ==> index < end,
    decreases tokens.len() - index, 0nat,
{
    if kind_at(tokens, index) == Lexeme::OpenBracket {
        lemma_args_end(tokens, index + 1);
    }
}

/// Arguments end behind their first token.
proof fn lemma_args_end(tokens: Seq<Lexed>, index: nat)
    ensures
        args_at(tokens, index) matches Ok((args, end)) ==> index < end,
    decreases tokens.len() - index, 1nat,
{
    lemma_arg_ends(tokens, index);
    if arg_at(tokens, index) is Ok {
        let end = arg_at(tokens, index)->Ok_0.1;
        if kind_at(tokens, end) == Lexeme::Comma && index < end && end < tokens.len() {
            lemma_args_end(tokens, end + 1);
        }
    }
}

/// An argument depends on its own tokens alone.
proof fn lemma_arg_agrees(one: Seq<Lexed>, other: Seq<Lexed>, index: nat, count: nat)
    requires
        agree(one, other, count),
        arg_at(one, index) is Ok,
        arg_at(one, index)->Ok_0.1 <= count,
    ensures
        arg_at(other, index) == arg_at(one, index),
    decreases one.len() - index, 0nat,
{
    lemma_arg_ends(one, index);
    assert(one[index as int].kind == other[index as int].kind);
    if kind_at(one, index) == Lexeme::OpenBracket {
        assert(index + 1 < count) by {
            lemma_args_end(one, index + 1);
        }
        assert(one[index as int + 1].kind == other[index as int + 1].kind);
        if kind_at(one, index + 1) != Lexeme::CloseBracket {
            let end = args_at(one, index + 1)->Ok_0.1;
            lemma_args_agree(one, other, index + 1, count);
            assert(one[end as int].kind == other[end as int].kind);
        }
    }
}

/// Arguments depend on their own tokens and the one behind them alone.
proof fn lemma_args_agree(one: Seq<Lexed>, other: Seq<Lexed>, index: nat, count: nat)
    requires
        agree(one, other, count),
        args_at(one, index) is Ok,
        args_at(one, index)->Ok_0.1 < count,
    ensures
        args_at(other, index) == args_at(one, index),
    decreases one.len() - index, 1nat,
{
    lemma_arg_ends(one, index);
    let end = arg_at(one, index)->Ok_0.1;
    if kind_at(one, end) == Lexeme::Comma {
        lemma_args_end(one, end + 1);
    }
    assert(end < count);
    lemma_arg_agrees(one, other, index, count);
    assert(one[end as int].kind == other[end as int].kind);
    if kind_at(one, end) == Lexeme::Comma {
        lemma_args_agree(one, other, end + 1, count);
    }
}

/// Some tokens at no particular place.
pub open spec fn placed(kinds: Seq<Lexeme>) -> Seq<Lexed> {
    kinds.map_values(|kind: Lexeme| Lexed { kind, at: 0 })
}

/// Whether some tokens, and no fewer of them, are a call of a node with these arguments.
pub open spec fn is_call(call: Seq<Lexeme>, name: Seq<char>, args: Seq<ArgModel>) -> bool {
    let tokens = placed(call.push(Lexeme::End));
    stage_at(tokens, 0) matches Ok((stage, end)) && stage.kind == StageModel::Call(name, args)
        && end == call.len()
}

/// A call is one where more tokens follow.
proof fn lemma_call_stage(
    tokens: Seq<Lexed>,
    call: Seq<Lexeme>,
    name: Seq<char>,
    args: Seq<ArgModel>,
)
    requires
        is_call(call, name, args),
        call.len() <= tokens.len(),
        kinds(tokens).take(call.len() as int) == call,
    ensures
        call.len() > 0,
        stage_at(tokens, 0) matches Ok((stage, end)) && stage.kind == StageModel::Call(name, args)
            && end == call.len(),
{
    let alone = placed(call.push(Lexeme::End));
    let n = call.len();
    assert forall|i: int| 0 <= i < n implies (#[trigger] alone[i]).kind == tokens[i].kind by {
        assert(kinds(tokens).take(n as int)[i] == call[i]);
    }
    assert(agree(alone, tokens, n));
    assert(kind_at(alone, n) == Lexeme::End);
    assert(n >= 3) by {
        lemma_args_end(alone, 2);
    }
    assert(alone[0].kind == tokens[0].kind);
    assert(alone[1].kind == tokens[1].kind);
    assert(alone[2].kind == tokens[2].kind);
    if kind_at(alone, 2) != Lexeme::CloseParen {
        lemma_args_agree(alone, tokens, 2, n);
        let end = args_at(alone, 2)->Ok_0.1;
        assert(alone[end as int].kind == tokens[end as int].kind);
    }
}

/// The tokens of `F(x) -> out`, the end among them.
pub open spec fn chain_end(unary: Seq<char>, value: Double) -> Seq<Lexeme> {
    seq![
        Lexeme::Name(unary),
        Lexeme::OpenParen,
        Lexeme::Number(value),
        Lexeme::CloseParen,
        Lexeme::Arrow,
        Lexeme::Name("out"@),
        Lexeme::End,
    ]
}

/// The tokens of `F($A, x) -> out`, the end among them.
pub open spec fn argument_end(unary: Seq<char>, name: Seq<char>, value: Double) -> Seq<Lexeme> {
    seq![
        Lexeme::Name(unary),
        Lexeme::OpenParen,
        Lexeme::Ref(name),
        Lexeme::Comma,
        Lexeme::Number(value),
        Lexeme::CloseParen,
        Lexeme::Arrow,
        Lexeme::Name("out"@),
        Lexeme::End,
    ]
}

/// The tokens of `S -> F(x) -> out`.
pub open spec fn chain(call: Seq<Lexeme>, unary: Seq<char>, value: Double) -> Seq<Lexeme> {
    call + seq![Lexeme::Arrow] + chain_end(unary, value)
}

/// The tokens of `S -> $A; $A -> F(x) -> out`.
pub open spec fn named_chain(
    call: Seq<Lexeme>,
    name: Seq<char>,
    unary: Seq<char>,
    value: Double,
) -> Seq<Lexeme> {
    call + seq![
        Lexeme::Arrow,
        Lexeme::Ref(name),
        Lexeme::Semicolon,
        Lexeme::Ref(name),
        Lexeme::Arrow,
    ] + chain_end(unary, value)
}

/// The tokens of `S -> $A; F($A, x) -> out`.
pub open spec fn named_argument(
    call: Seq<Lexeme>,
    name: Seq<char>,
    unary: Seq<char>,
    value: Double,
) -> Seq<Lexeme> {
    call + seq![Lexeme::Arrow, Lexeme::Ref(name), Lexeme::Semicolon] + argument_end(
        unary,
        name,
        value,
    )
}

/// What the token at a place behind the first tokens is.
proof fn lemma_kind_behind(tokens: Seq<Lexed>, call: Seq<Lexeme>, rest: Seq<Lexeme>)
    requires
        kinds(tokens) == call + rest,
    ensures
        tokens.len() == call.len() + rest.len(),
        kinds(tokens).take(call.len() as int) == call,
        forall|i: int|
            0 <= i < rest.len() ==> kind_at(tokens, (call.len() + i) as nat)
                == #[trigger] rest[i],
{
    assert(kinds(tokens).len() == tokens.len());
    assert(kinds(tokens).take(call.len() as int) =~= call);
    assert forall|i: int| 0 <= i < rest.len() implies kind_at(tokens, (call.len() + i) as nat)
        == #[trigger] rest[i] by {
        assert(kinds(tokens)[call.len() + i] == rest[i]);
    }
}

/// `F(x) -> out` reads as two stages.
proof fn lemma_chain_end(tokens: Seq<Lexed>, at: nat, unary: Seq<char>, value: Double)
    requires
        at + 7 == tokens.len(),
        forall|i: int|
            0 <= i < 7 ==> kind_at(tokens, (at + i) as nat) == #[trigger] chain_end(
                unary,
                value,
            )[i],
    ensures
        stages_at(tokens, at) matches Ok((stages, end)) && end == at + 6 && stages.len() == 2
            && stages[0].kind == StageModel::Call(unary, seq![ArgModel::Number(value)])
            && stages[1].kind == StageModel::Out,
        kind_at(tokens, at + 6) == Lexeme::End,
{
    let k = chain_end(unary, value);
    assert(k[0] == kind_at(tokens, at));
    assert(k[1] == kind_at(tokens, at + 1));
    assert(k[2] == kind_at(tokens, at + 2));
    assert(k[3] == kind_at(tokens, at + 3));
    assert(k[4] == kind_at(tokens, at + 4));
    assert(k[5] == kind_at(tokens, at + 5));
    assert(k[6] == kind_at(tokens, at + 6));
    assert(arg_at(tokens, at + 2) is Ok);
    assert(args_at(tokens, at + 2)->Ok_0.0 =~= seq![ArgModel::Number(value)]);
    assert(stage_at(tokens, at) is Ok);
    assert(stage_at(tokens, at + 5) is Ok);
    assert(stages_at(tokens, at + 5)->Ok_0.0.len() == 1);
    assert(stages_at(tokens, at) is Ok);
}

/// `F($A, x) -> out` reads as two stages.
proof fn lemma_argument_end(
    tokens: Seq<Lexed>,
    at: nat,
    unary: Seq<char>,
    name: Seq<char>,
    value: Double,
)
    requires
        at + 9 == tokens.len(),
        forall|i: int|
            0 <= i < 9 ==> kind_at(tokens, (at + i) as nat) == #[trigger] argument_end(
                unary,
                name,
                value,
            )[i],
    ensures
        stages_at(tokens, at) matches Ok((stages, end)) && end == at + 8 && stages.len() == 2
            && stages[0].kind == StageModel::Call(
            unary,
            seq![ArgModel::Ref(name), ArgModel::Number(value)],
        ) && stages[1].kind == StageModel::Out,
        kind_at(tokens, at + 8) == Lexeme::End,
{
    let k = argument_end(unary, name, value);
    assert(k[0] == kind_at(tokens, at));
    assert(k[1] == kind_at(tokens, at + 1));
    assert(k[2] == kind_at(tokens, at + 2));
    assert(k[3] == kind_at(tokens, at + 3));
    assert(k[4] == kind_at(tokens, at + 4));
    assert(k[5] == kind_at(tokens, at + 5));
    assert(k[6] == kind_at(tokens, at + 6));
    assert(k[7] == kind_at(tokens, at + 7));
    assert(k[8] == kind_at(tokens, at + 8));
    assert(arg_at(tokens, at + 2) is Ok);
    assert(arg_at(tokens, at + 4) is Ok);
    assert(args_at(tokens, at + 4)->Ok_0.0 =~= seq![ArgModel::Number(value)]);
    assert(args_at(tokens, at + 2)->Ok_0.0 =~= seq![
        ArgModel::Ref(name),
        ArgModel::Number(value),
    ]);
    assert(stage_at(tokens, at) is Ok);
    assert(stage_at(tokens, at + 7) is Ok);
    assert(stages_at(tokens, at + 7)->Ok_0.0.len() == 1);
    assert(stages_at(tokens, at) is Ok);
}

/// `S -> $A;` reads as a statement of two stages.
proof fn lemma_named_start(
    tokens: Seq<Lexed>,
    call: Seq<Lexeme>,
    source: Seq<char>,
    source_args: Seq<ArgModel>,
    name: Seq<char>,
)
    requires
        is_call(call, source, source_args),
        call.len() + 3 < tokens.len(),
        kinds(tokens).take(call.len() as int) == call,
        kind_at(tokens, call.len()) == Lexeme::Arrow,
        kind_at(tokens, call.len() + 1) == Lexeme::Ref(name),
        kind_at(tokens, call.len() + 2) == Lexeme::Semicolon,
    ensures
        stages_at(tokens, 0) matches Ok((stages, end)) && end == call.len() + 2 && stages.len()
            == 2 && stages[0].kind == StageModel::Call(source, source_args) && stages[1].kind
            == StageModel::Ref(name),
        kind_at(tokens, 0) != Lexeme::End,
{
    lemma_call_stage(tokens, call, source, source_args);
    assert(stage_at(tokens, call.len() + 1) is Ok);
    assert(stages_at(tokens, call.len() + 1)->Ok_0.0.len() == 1);
    assert(stages_at(tokens, 0) is Ok);
}

/// What a chain gives.
proof fn lemma_chain_text(
    settings: Settings,
    text: Seq<char>,
    call: Seq<Lexeme>,
    source: Seq<char>,
    source_args: Seq<ArgModel>,
    unary: Seq<char>,
    value: Double,
)
    requires
        unary == "gain"@ || unary == "lpf"@,
        is_call(call, source, source_args),
        written(text) == Some(chain(call, unary, value)),
    ensures
        gives(source_graph(settings, text), piped(settings, source, source_args, unary, value)),
{
    let tokens = tokens_from(text, 0)->Ok_0;
    let n = call.len();
    let rest = seq![Lexeme::Arrow] + chain_end(unary, value);
    assert(chain(call, unary, value) =~= call + rest);
    lemma_kind_behind(tokens, call, rest);
    lemma_call_stage(tokens, call, source, source_args);
    assert(rest[0] == Lexeme::Arrow);
    assert forall|i: int| 0 <= i < 7 implies kind_at(tokens, (n + 1 + i) as nat)
        == #[trigger] chain_end(unary, value)[i] by {
        assert(rest[1 + i] == chain_end(unary, value)[i]);
    }
    lemma_chain_end(tokens, n + 1, unary, value);
    let stages = stages_at(tokens, 0)->Ok_0.0;
    let tail = stages_at(tokens, n + 1)->Ok_0.0;
    let first = stage_at(tokens, 0)->Ok_0.0;
    assert(stages =~= seq![first] + tail);
    assert(stages[1] == tail[0] && stages[2] == tail[1]);
    assert(statements_at(tokens, 0)->Ok_0 =~= seq![stages]);
    lemma_chain(
        settings,
        source,
        source_args,
        unary,
        value,
        stages,
        encode_utf8(text).len(),
    );
}

/// What a chain that starts from a name gives.
proof fn lemma_named_chain_text(
    settings: Settings,
    text: Seq<char>,
    call: Seq<Lexeme>,
    source: Seq<char>,
    source_args: Seq<ArgModel>,
    name: Seq<char>,
    unary: Seq<char>,
    value: Double,
)
    requires
        unary == "gain"@ || unary == "lpf"@,
        is_call(call, source, source_args),
        written(text) == Some(named_chain(call, name, unary, value)),
    ensures
        gives(source_graph(settings, text), piped(settings, source, source_args, unary, value)),
{
    let tokens = tokens_from(text, 0)->Ok_0;
    let n = call.len();
    let rest = seq![
        Lexeme::Arrow,
        Lexeme::Ref(name),
        Lexeme::Semicolon,
        Lexeme::Ref(name),
        Lexeme::Arrow,
    ] + chain_end(unary, value);
    assert(named_chain(call, name, unary, value) =~= call + rest);
    lemma_kind_behind(tokens, call, rest);
    assert(rest[0] == Lexeme::Arrow);
    assert(rest[1] == Lexeme::Ref(name));
    assert(rest[2] == Lexeme::Semicolon);
    assert(rest[3] == Lexeme::Ref(name));
    assert(rest[4] == Lexeme::Arrow);
    lemma_named_start(tokens, call, source, source_args, name);
    assert forall|i: int| 0 <= i < 7 implies kind_at(tokens, (n + 5 + i) as nat)
        == #[trigger] chain_end(unary, value)[i] by {
        assert(rest[5 + i] == chain_end(unary, value)[i]);
    }
    lemma_chain_end(tokens, n + 5, unary, value);
    let first = stages_at(tokens, 0)->Ok_0.0;
    let second = stages_at(tokens, n + 3)->Ok_0.0;
    let tail = stages_at(tokens, n + 5)->Ok_0.0;
    let start = stage_at(tokens, n + 3)->Ok_0.0;
    assert(second =~= seq![start] + tail);
    assert(second[1] == tail[0] && second[2] == tail[1]);
    assert(statements_at(tokens, n + 3)->Ok_0 =~= seq![second]);
    assert(statements_at(tokens, 0)->Ok_0 =~= seq![first, second]);
    lemma_named_chain(
        settings,
        source,
        source_args,
        unary,
        value,
        name,
        first,
        second,
        encode_utf8(text).len(),
    );
}

/// What a call with a name as its argument gives.
proof fn lemma_named_argument_text(
    settings: Settings,
    text: Seq<char>,
    call: Seq<Lexeme>,
    source: Seq<char>,
    source_args: Seq<ArgModel>,
    name: Seq<char>,
    unary: Seq<char>,
    value: Double,
)
    requires
        unary == "gain"@ || unary == "lpf"@,
        is_call(call, source, source_args),
        written(text) == Some(named_argument(call, name, unary, value)),
    ensures
        gives(source_graph(settings, text), piped(settings, source, source_args, unary, value)),
{
    let tokens = tokens_from(text, 0)->Ok_0;
    let n = call.len();
    let rest = seq![Lexeme::Arrow, Lexeme::Ref(name), Lexeme::Semicolon] + argument_end(
        unary,
        name,
        value,
    );
    assert(named_argument(call, name, unary, value) =~= call + rest);
    lemma_kind_behind(tokens, call, rest);
    assert(rest[0] == Lexeme::Arrow);
    assert(rest[1] == Lexeme::Ref(name));
    assert(rest[2] == Lexeme::Semicolon);
    lemma_named_start(tokens, call, source, source_args, name);
    assert forall|i: int| 0 <= i < 9 implies kind_at(tokens, (n + 3 + i) as nat)
        == #[trigger] argument_end(unary, name, value)[i] by {
        assert(rest[3 + i] == argument_end(unary, name, value)[i]);
    }
    lemma_argument_end(tokens, n + 3, unary, name, value);
    let first = stages_at(tokens, 0)->Ok_0.0;
    let second = stages_at(tokens, n + 3)->Ok_0.0;
    assert(argument_end(unary, name, value)[0] == kind_at(tokens, n + 3));
    assert(statements_at(tokens, n + 3)->Ok_0 =~= seq![second]);
    assert(statements_at(tokens, 0)->Ok_0 =~= seq![first, second]);
    lemma_named_argument(
        settings,
        source,
        source_args,
        unary,
        value,
        name,
        first,
        second,
        encode_utf8(text).len(),
    );
}

/// A source, then a gain or a filter, can be written in three ways: as a chain, as a
/// chain that starts from the source's name, and with the source's name as an argument.
/// However the texts are laid out, the graph is the same, or all three are refused.
pub proof fn three_ways_to_write_a_gain_or_a_filter(
    settings: Settings,
    call: Seq<Lexeme>,
    source: Seq<char>,
    source_args: Seq<ArgModel>,
    name: Seq<char>,
    unary: Seq<char>,
    value: Double,
    one: Seq<char>,
    two: Seq<char>,
    three: Seq<char>,
)
    requires
        unary == "gain"@ || unary == "lpf"@,
        is_call(call, source, source_args),
        written(one) == Some(chain(call, unary, value)),
        written(two) == Some(named_chain(call, name, unary, value)),
        written(three) == Some(named_argument(call, name, unary, value)),
    ensures
        same_outcome(source_graph(settings, one), source_graph(settings, two)),
        same_outcome(source_graph(settings, one), source_graph(settings, three)),
        gives(source_graph(settings, one), piped(settings, source, source_args, unary, value)),
{
    lemma_chain_text(settings, one, call, source, source_args, unary, value);
    lemma_named_chain_text(settings, two, call, source, source_args, name, unary, value);
    lemma_named_argument_text(settings, three, call, source, source_args, name, unary, value);
}

/// Whether a word is written like a number; it may still be none, such as `1.2.3`.
pub open spec fn looks_like_number(word: Seq<char>) -> bool {
    &&& word.len() > 0
    &&& starts_number(word[0])
    &&& forall|i: int| 0 <= i < word.len() ==> in_number(#[trigger] word[i])
}

/// `S -> F(x) -> out`
pub open spec fn chain_text(source: Seq<char>, unary: Seq<char>, number: Seq<char>) -> Seq<char> {
    source + " -> "@ + unary + "("@ + number + ") -> out"@
}

/// `S -> $A; $A -> F(x) -> out`
pub open spec fn named_chain_text(
    source: Seq<char>,
    name: Seq<char>,
    unary: Seq<char>,
    number: Seq<char>,
) -> Seq<char> {
    source + " -> $"@ + name + "; $"@ + name + " -> "@ + unary + "("@ + number + ") -> out"@
}

/// `S -> $A; F($A, x) -> out`
pub open spec fn named_argument_text(
    source: Seq<char>,
    name: Seq<char>,
    unary: Seq<char>,
    number: Seq<char>,
) -> Seq<char> {
    source + " -> $"@ + name + "; "@ + unary + "($"@ + name + ", "@ + number + ") -> out"@
}

/// A word of name characters goes on to its end.
proof fn lemma_word_name_end(word: Seq<char>, from: nat)
    requires
        from <= word.len(),
        forall|i: int| from <= i < word.len() ==> in_name(#[trigger] word[i]),
    ensures
        name_end(word, from) == word.len(),
    decreases word.len() - from,
{
    if from < word.len() {
        lemma_word_name_end(word, from + 1);
    }
}

/// A word of number characters goes on to its end.
proof fn lemma_word_number_end(word: Seq<char>, from: nat)
    requires
        from <= word.len(),
        forall|i: int| from <= i < word.len() ==> in_number(#[trigger] word[i]),
    ensures
        number_end(word, from) == word.len(),
    decreases word.len() - from,
{
    if from < word.len() {
        lemma_word_number_end(word, from + 1);
    }
}

/// What a name writes alone.
pub(crate) proof fn lemma_written_name(name: Seq<char>)
    requires
        is_name(name),
    ensures
        written(name) == Some(seq![Lexeme::Name(name), Lexeme::End]),
        closes_comments(name),
{
    lemma_word_name_end(name, 1);
    lemma_written_step(name, 0);
    lemma_written_step(name, name.len());
    assert(name.subrange(0, name.len() as int) =~= name);
    assert(seq![Lexeme::Name(name)] + seq![Lexeme::End] =~= seq![Lexeme::Name(name), Lexeme::End]);
    assert forall|i: int| 0 <= i < name.len() implies #[trigger] name[i] != '#' by {
        assert(in_name(name[i]));
    }
}

/// What a name behind a dollar sign writes alone.
pub(crate) proof fn lemma_written_ref(name: Seq<char>)
    requires
        is_name(name),
    ensures
        written(seq!['$'] + name) == Some(seq![Lexeme::Ref(name), Lexeme::End]),
        closes_comments(seq!['$'] + name),
{
    let text = seq!['$'] + name;
    assert forall|i: int| 1 <= i < text.len() implies in_name(#[trigger] text[i]) by {
        assert(text[i] == name[i - 1]);
    }
    assert(text[1] == name[0]);
    lemma_word_name_end(text, 1);
    lemma_written_step(text, 0);
    lemma_written_step(text, text.len());
    assert(text.subrange(1, text.len() as int) =~= name);
    assert(seq![Lexeme::Ref(name)] + seq![Lexeme::End] =~= seq![Lexeme::Ref(name), Lexeme::End]);
}

/// What a number writes alone.
pub(crate) proof fn lemma_written_number(number: Seq<char>)
    requires
        looks_like_number(number),
    ensures
        written(number) == match parsed(number) {
            Some(value) => if value.finite() {
                Some(seq![Lexeme::Number(value), Lexeme::End])
            } else {
                None
            },
            None => None,
        },
        closes_comments(number),
{
    lemma_word_number_end(number, 1);
    if number.len() > 1 {
        assert(in_number(number[1]));
    }
    lemma_written_step(number, 0);
    lemma_written_step(number, number.len());
    assert(number.subrange(0, number.len() as int) =~= number);
    if parsed(number).is_some() {
        let value = parsed(number).unwrap();
        assert(seq![Lexeme::Number(value)] + seq![Lexeme::End] =~= seq![
            Lexeme::Number(value),
            Lexeme::End,
        ]);
    }
    assert forall|i: int| 0 <= i < number.len() implies #[trigger] number[i] != '#' by {
        assert(in_number(number[i]));
    }
}

/// What the texts between names and numbers write.
proof fn lemma_written_marks()
    ensures
        written(" -> "@) == Some(seq![Lexeme::Arrow, Lexeme::End]),
        written("("@) == Some(seq![Lexeme::OpenParen, Lexeme::End]),
        written("; "@) == Some(seq![Lexeme::Semicolon, Lexeme::End]),
        written(", "@) == Some(seq![Lexeme::Comma, Lexeme::End]),
        closes_comments(" -> "@),
        closes_comments("("@),
        closes_comments("; "@),
        closes_comments(", "@),
        " -> "@.len() == 4 && " -> "@[0] == ' ' && " -> "@[3] == ' ',
        "("@ == seq!['('],
        "; "@ == seq![';', ' '],
        ", "@ == seq![',', ' '],
{
    reveal_strlit(" -> ");
    reveal_strlit("(");
    reveal_strlit("; ");
    reveal_strlit(", ");
    let arrow = " -> "@;
    lemma_written_step(arrow, 0);
    lemma_written_step(arrow, 1);
    lemma_written_step(arrow, 3);
    lemma_written_step(arrow, 4);
    assert(seq![Lexeme::Arrow] + seq![Lexeme::End] =~= seq![Lexeme::Arrow, Lexeme::End]);
    lemma_written_step("("@, 0);
    lemma_written_step("("@, 1);
    assert(seq![Lexeme::OpenParen] + seq![Lexeme::End] =~= seq![Lexeme::OpenParen, Lexeme::End]);
    lemma_written_step("; "@, 0);
    lemma_written_step("; "@, 1);
    lemma_written_step("; "@, 2);
    assert(seq![Lexeme::Semicolon] + seq![Lexeme::End] =~= seq![Lexeme::Semicolon, Lexeme::End]);
    lemma_written_step(", "@, 0);
    lemma_written_step(", "@, 1);
    lemma_written_step(", "@, 2);
    assert(seq![Lexeme::Comma] + seq![Lexeme::End] =~= seq![Lexeme::Comma, Lexeme::End]);
    assert("("@ =~= seq!['(']);
    assert("; "@ =~= seq![';', ' ']);
    assert(", "@ =~= seq![',', ' ']);
}

/// What the end of all three texts writes.
proof fn lemma_written_out()
    ensures
        written(") -> out"@) == Some(
            seq![Lexeme::CloseParen, Lexeme::Arrow, Lexeme::Name("out"@), Lexeme::End],
        ),
        ") -> out"@.len() > 0 && ") -> out"@[0] == ')',
{
    reveal_strlit(") -> out");
    reveal_strlit("out");
    let text = ") -> out"@;
    lemma_written_step(text, 0);
    lemma_written_step(text, 1);
    lemma_written_step(text, 2);
    lemma_written_step(text, 4);
    lemma_written_step(text, 5);
    lemma_written_step(text, 8);
    lemma_word_name_end(text, 6);
    assert(text.subrange(5, 8) =~= "out"@);
    let end = seq![Lexeme::End];
    let out = seq![Lexeme::Name("out"@)] + end;
    let arrow = seq![Lexeme::Arrow] + out;
    assert(seq![Lexeme::CloseParen] + arrow =~= seq![
        Lexeme::CloseParen,
        Lexeme::Arrow,
        Lexeme::Name("out"@),
        Lexeme::End,
    ]);
}

/// What `x) -> out` writes.
proof fn lemma_number_out(number: Seq<char>)
    requires
        looks_like_number(number),
    ensures
        written(number + ") -> out"@) == match parsed(number) {
            Some(value) => if value.finite() {
                Some(
                    seq![
                        Lexeme::Number(value),
                        Lexeme::CloseParen,
                        Lexeme::Arrow,
                        Lexeme::Name("out"@),
                        Lexeme::End,
                    ],
                )
            } else {
                None
            },
            None => None,
        },
{
    lemma_written_number(number);
    lemma_written_out();
    texts_write_one_after_the_other(number, ") -> out"@);
    if written(number).is_some() {
        let value = parsed(number).unwrap();
        assert(seq![Lexeme::Number(value), Lexeme::End].drop_last() + seq![
            Lexeme::CloseParen,
            Lexeme::Arrow,
            Lexeme::Name("out"@),
            Lexeme::End,
        ] =~= seq![
            Lexeme::Number(value),
            Lexeme::CloseParen,
            Lexeme::Arrow,
            Lexeme::Name("out"@),
            Lexeme::End,
        ]);
    }
}

/// The number that a word writes, if it is a finite one.
pub open spec fn number_of(word: Seq<char>) -> Option<Double> {
    match parsed(word) {
        Some(value) => if value.finite() {
            Some(value)
        } else {
            None
        },
        None => None,
    }
}

/// One token, and then a text.
proof fn lemma_token_then(one: Seq<char>, kind: Lexeme, other: Seq<char>)
    requires
        part(one, other),
        closes_comments(one),
        written(one) == Some(seq![kind, Lexeme::End]),
    ensures
        written(one + other) == preceded(kind, written(other)),
{
    texts_write_one_after_the_other(one, other);
    assert(seq![kind, Lexeme::End].drop_last() =~= seq![kind]);
}

/// What `F(x) -> out` writes.
proof fn lemma_written_chain_end(unary: Seq<char>, number: Seq<char>)
    requires
        is_name(unary),
        looks_like_number(number),
    ensures
        written(unary + ("("@ + (number + ") -> out"@))) == match number_of(number) {
            Some(value) => Some(chain_end(unary, value)),
            None => None,
        },
{
    let r3 = number + ") -> out"@;
    let r2 = "("@ + r3;
    lemma_written_marks();
    lemma_number_out(number);
    lemma_token_then("("@, Lexeme::OpenParen, r3);
    lemma_written_name(unary);
    lemma_token_then(unary, Lexeme::Name(unary), r2);
    if number_of(number).is_some() {
        assert(written(unary + r2).unwrap() =~= chain_end(unary, number_of(number).unwrap()));
    }
}

/// What `F($A, x) -> out` writes.
proof fn lemma_written_argument_end(unary: Seq<char>, name: Seq<char>, number: Seq<char>)
    requires
        is_name(unary),
        is_name(name),
        looks_like_number(number),
    ensures
        written(unary + ("("@ + ((seq!['$'] + name) + (", "@ + (number + ") -> out"@)))))
            == match number_of(number) {
            Some(value) => Some(argument_end(unary, name, value)),
            None => None,
        },
{
    let dollar = seq!['$'] + name;
    let r5 = number + ") -> out"@;
    let r4 = ", "@ + r5;
    let r3 = dollar + r4;
    let r2 = "("@ + r3;
    lemma_written_marks();
    lemma_number_out(number);
    lemma_token_then(", "@, Lexeme::Comma, r5);
    lemma_written_ref(name);
    lemma_token_then(dollar, Lexeme::Ref(name), r4);
    lemma_token_then("("@, Lexeme::OpenParen, r3);
    lemma_written_name(unary);
    lemma_token_then(unary, Lexeme::Name(unary), r2);
    if number_of(number).is_some() {
        assert(written(unary + r2).unwrap() =~= argument_end(
            unary,
            name,
            number_of(number).unwrap(),
        ));
    }
}

/// A text whose comments are closed, and then one that starts with a space.
proof fn lemma_source_then(source: Seq<char>, call: Seq<Lexeme>, other: Seq<char>)
    requires
        closes_comments(source),
        written(source) == Some(call.push(Lexeme::End)),
        other.len() > 0,
        other[0] == ' ',
    ensures
        written(source + other) == match written(other) {
            Some(rest) => Some(call + rest),
            None => None,
        },
{
    texts_write_one_after_the_other(source, other);
    assert(call.push(Lexeme::End).drop_last() =~= call);
}

/// What the chain writes.
proof fn lemma_written_chain(
    source: Seq<char>,
    call: Seq<Lexeme>,
    unary: Seq<char>,
    number: Seq<char>,
)
    requires
        is_name(unary),
        closes_comments(source),
        written(source) == Some(call.push(Lexeme::End)),
        looks_like_number(number),
    ensures
        written(chain_text(source, unary, number)) == match number_of(number) {
            Some(value) => Some(chain(call, unary, value)),
            None => None,
        },
{
    let r2 = unary + ("("@ + (number + ") -> out"@));
    let r1 = " -> "@ + r2;
    lemma_written_marks();
    lemma_written_chain_end(unary, number);
    lemma_token_then(" -> "@, Lexeme::Arrow, r2);
    lemma_source_then(source, call, r1);
    assert(chain_text(source, unary, number) =~= source + r1);
    if number_of(number).is_some() {
        let value = number_of(number).unwrap();
        assert(call + written(r1).unwrap() =~= chain(call, unary, value));
    }
}

/// What the chain that starts from a name writes.
proof fn lemma_written_named_chain(
    source: Seq<char>,
    call: Seq<Lexeme>,
    name: Seq<char>,
    unary: Seq<char>,
    number: Seq<char>,
)
    requires
        is_name(unary),
        is_name(name),
        closes_comments(source),
        written(source) == Some(call.push(Lexeme::End)),
        looks_like_number(number),
    ensures
        written(named_chain_text(source, name, unary, number)) == match number_of(number) {
            Some(value) => Some(named_chain(call, name, unary, value)),
            None => None,
        },
{
    let dollar = seq!['$'] + name;
    let r6 = unary + ("("@ + (number + ") -> out"@));
    let r5 = " -> "@ + r6;
    let r4 = dollar + r5;
    let r3 = "; "@ + r4;
    let r2 = dollar + r3;
    let r1 = " -> "@ + r2;
    lemma_written_marks();
    lemma_written_chain_end(unary, number);
    lemma_written_ref(name);
    lemma_token_then(" -> "@, Lexeme::Arrow, r6);
    lemma_token_then(dollar, Lexeme::Ref(name), r5);
    lemma_token_then("; "@, Lexeme::Semicolon, r4);
    lemma_token_then(dollar, Lexeme::Ref(name), r3);
    lemma_token_then(" -> "@, Lexeme::Arrow, r2);
    lemma_source_then(source, call, r1);
    assert(named_chain_text(source, name, unary, number) =~= source + r1) by {
        lemma_marks_with_dollar();
    }
    if number_of(number).is_some() {
        let value = number_of(number).unwrap();
        assert(call + written(r1).unwrap() =~= named_chain(call, name, unary, value));
    }
}

/// What the call with a name as its argument writes.
proof fn lemma_written_named_argument(
    source: Seq<char>,
    call: Seq<Lexeme>,
    name: Seq<char>,
    unary: Seq<char>,
    number: Seq<char>,
)
    requires
        is_name(unary),
        is_name(name),
        closes_comments(source),
        written(source) == Some(call.push(Lexeme::End)),
        looks_like_number(number),
    ensures
        written(named_argument_text(source, name, unary, number)) == match number_of(number) {
            Some(value) => Some(named_argument(call, name, unary, value)),
            None => None,
        },
{
    let dollar = seq!['$'] + name;
    let r4 = unary + ("("@ + (dollar + (", "@ + (number + ") -> out"@))));
    let r3 = "; "@ + r4;
    let r2 = dollar + r3;
    let r1 = " -> "@ + r2;
    lemma_written_marks();
    lemma_written_argument_end(unary, name, number);
    lemma_written_ref(name);
    lemma_token_then("; "@, Lexeme::Semicolon, r4);
    lemma_token_then(dollar, Lexeme::Ref(name), r3);
    lemma_token_then(" -> "@, Lexeme::Arrow, r2);
    lemma_source_then(source, call, r1);
    assert(named_argument_text(source, name, unary, number) =~= source + r1) by {
        lemma_marks_with_dollar();
    }
    if number_of(number).is_some() {
        let value = number_of(number).unwrap();
        assert(call + written(r1).unwrap() =~= named_argument(call, name, unary, value));
    }
}

/// The texts before a reference end in a dollar sign.
proof fn lemma_marks_with_dollar()
    ensures
        " -> $"@ == " -> "@ + seq!['$'],
        "; $"@ == "; "@ + seq!['$'],
        "($"@ == "("@ + seq!['$'],
{
    reveal_strlit(" -> ");
    reveal_strlit(" -> $");
    reveal_strlit("; ");
    reveal_strlit("; $");
    reveal_strlit("(");
    reveal_strlit("($");
    assert(" -> $"@ =~= " -> "@ + seq!['$']);
    assert("; $"@ =~= "; "@ + seq!['$']);
    assert("($"@ =~= "("@ + seq!['$']);
}

/// Where `S` is the text of any call, `F` is `gain` or `lpf`, `x` is written like a number
/// and `A` is any name, `S -> F(x) -> out`, `S -> $A; $A -> F(x) -> out` and
/// `S -> $A; F($A, x) -> out` make the same graph, or all three are refused.
pub proof fn three_texts_make_one_graph(
    settings: Settings,
    source: Seq<char>,
    call: Seq<Lexeme>,
    node: Seq<char>,
    node_args: Seq<ArgModel>,
    name: Seq<char>,
    unary: Seq<char>,
    number: Seq<char>,
)
    requires
        closes_comments(source),
        written(source) == Some(call.push(Lexeme::End)),
        is_call(call, node, node_args),
        is_name(name),
        unary == "gain"@ || unary == "lpf"@,
        looks_like_number(number),
    ensures
        same_outcome(
            source_graph(settings, chain_text(source, unary, number)),
            source_graph(settings, named_chain_text(source, name, unary, number)),
        ),
        same_outcome(
            source_graph(settings, chain_text(source, unary, number)),
            source_graph(settings, named_argument_text(source, name, unary, number)),
        ),
        gives(
            source_graph(settings, chain_text(source, unary, number)),
            match number_of(number) {
                Some(value) => piped(settings, node, node_args, unary, value),
                None => None,
            },
        ),
{
    reveal_strlit("gain");
    reveal_strlit("lpf");
    assert(is_name(unary));
    lemma_written_chain(source, call, unary, number);
    lemma_written_named_chain(source, call, name, unary, number);
    lemma_written_named_argument(source, call, name, unary, number);
    if number_of(number).is_some() {
        three_ways_to_write_a_gain_or_a_filter(
            settings,
            call,
            node,
            node_args,
            name,
            unary,
            number_of(number).unwrap(),
            chain_text(source, unary, number),
            named_chain_text(source, name, unary, number),
            named_argument_text(source, name, unary, number),
        );
    }
}

} // verus!
