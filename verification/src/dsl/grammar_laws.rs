//! What the grammar of the graph language is: how each statement is spelled, and that
//! reading gives it back.
use crate::dsl::lex::{Lexed, Lexeme};
use crate::dsl::parse::{
    arg_at, args_at, kind_at, stage_at, stages_at, statements_at, ArgModel, StageModel, Staged,
};
use vstd::prelude::*;

verus! {

/// The tokens of an argument.
pub open spec fn arg_tokens(arg: ArgModel) -> Seq<Lexeme>
    decreases arg, 0nat,
{
    match arg {
        ArgModel::Number(value) => seq![Lexeme::Number(value)],
        ArgModel::Ref(name) => seq![Lexeme::Ref(name)],
        ArgModel::List(items) => seq![Lexeme::OpenBracket] + args_tokens(items, 0)
            + seq![Lexeme::CloseBracket],
    }
}

/// The tokens of the arguments from `from` on, with commas between them.
pub open spec fn args_tokens(args: Seq<ArgModel>, from: nat) -> Seq<Lexeme>
    decreases args, args.len() - from,
{
    if from >= args.len() {
        Seq::empty()
    } else if from + 1 == args.len() {
        arg_tokens(args[from as int])
    } else {
        arg_tokens(args[from as int]) + seq![Lexeme::Comma] + args_tokens(args, from + 1)
    }
}

/// The tokens of a stage.
pub open spec fn stage_tokens(stage: StageModel) -> Seq<Lexeme> {
    match stage {
        StageModel::Call(name, args) => seq![Lexeme::Name(name), Lexeme::OpenParen] + args_tokens(
            args,
            0,
        ) + seq![Lexeme::CloseParen],
        StageModel::Ref(name) => seq![Lexeme::Ref(name)],
        StageModel::Out => seq![Lexeme::Name("out"@)],
    }
}

/// The tokens of the stages from `from` on, with arrows between them.
pub open spec fn stages_tokens(stages: Seq<StageModel>, from: nat) -> Seq<Lexeme>
    decreases stages.len() - from,
{
    if from >= stages.len() {
        Seq::empty()
    } else if from + 1 == stages.len() {
        stage_tokens(stages[from as int])
    } else {
        stage_tokens(stages[from as int]) + seq![Lexeme::Arrow] + stages_tokens(stages, from + 1)
    }
}

/// The tokens of the statements from `from` on, with semicolons between them and, if there
/// is one, behind the last, and then the end.
pub open spec fn statements_tokens(
    statements: Seq<Seq<StageModel>>,
    from: nat,
    closed: bool,
) -> Seq<Lexeme>
    decreases statements.len() - from,
{
    if from >= statements.len() {
        seq![Lexeme::End]
    } else if from + 1 == statements.len() && !closed {
        stages_tokens(statements[from as int], 0) + seq![Lexeme::End]
    } else {
        stages_tokens(statements[from as int], 0) + seq![Lexeme::Semicolon] + statements_tokens(
            statements,
            from + 1,
            closed,
        )
    }
}

/// Whether these tokens stand at a place.
pub open spec fn stand_at(tokens: Seq<Lexed>, index: nat, kinds: Seq<Lexeme>) -> bool {
    &&& index + kinds.len() <= tokens.len()
    &&& forall|i: int| 0 <= i < kinds.len() ==> (#[trigger] tokens[index + i]).kind == kinds[i]
}

/// Tokens that stand one after the other.
proof fn lemma_stand_apart(tokens: Seq<Lexed>, index: nat, one: Seq<Lexeme>, other: Seq<Lexeme>)
    ensures
        stand_at(tokens, index, one + other) <==> stand_at(tokens, index, one) && stand_at(
            tokens,
            index + one.len(),
            other,
        ),
{
    let all = one + other;
    if stand_at(tokens, index, all) {
        assert forall|i: int| 0 <= i < one.len() implies (#[trigger] tokens[index + i]).kind
            == one[i] by {
            assert(all[i] == one[i]);
        }
        assert forall|i: int| 0 <= i < other.len() implies (#[trigger] tokens[index + one.len()
            + i]).kind == other[i] by {
            assert(all[one.len() + i] == other[i]);
            assert(tokens[index + (one.len() + i)].kind == all[one.len() + i]);
        }
    }
    if stand_at(tokens, index, one) && stand_at(tokens, index + one.len(), other) {
        assert forall|i: int| 0 <= i < all.len() implies (#[trigger] tokens[index + i]).kind
            == all[i] by {
            if i >= one.len() {
                assert(tokens[index + one.len() + (i - one.len())].kind == other[i - one.len()]);
            }
        }
    }
}

/// One token at a place.
proof fn lemma_stands(tokens: Seq<Lexed>, index: nat, kind: Lexeme)
    ensures
        stand_at(tokens, index, seq![kind]) <==> index < tokens.len()
            && tokens[index as int].kind == kind,
        stand_at(tokens, index, seq![kind]) ==> kind_at(tokens, index) == kind,
{
    if stand_at(tokens, index, seq![kind]) {
        assert(tokens[index as int + 0].kind == kind);
    }
}

/// An argument starts with its own token, and with no bracket, comma or parenthesis that
/// closes something.
proof fn lemma_arg_starts(arg: ArgModel)
    ensures
        arg_tokens(arg).len() > 0,
        arg_tokens(arg)[0] is Number || arg_tokens(arg)[0] is Ref || arg_tokens(arg)[0]
            is OpenBracket,
{
}

/// Arguments start with the first of them.
proof fn lemma_args_start(args: Seq<ArgModel>, from: nat)
    requires
        from < args.len(),
    ensures
        args_tokens(args, from).len() > 0,
        args_tokens(args, from)[0] is Number || args_tokens(args, from)[0] is Ref || args_tokens(
            args,
            from,
        )[0] is OpenBracket,
{
    lemma_arg_starts(args[from as int]);
}

/// An argument that is spelled is read.
proof fn lemma_read_arg(tokens: Seq<Lexed>, index: nat, arg: ArgModel)
    requires
        stand_at(tokens, index, arg_tokens(arg)),
    ensures
        arg_at(tokens, index) is Ok,
        arg_at(tokens, index)->Ok_0 == (arg, index + arg_tokens(arg).len()),
    decreases arg, 0nat,
{
    lemma_arg_starts(arg);
    assert(tokens[index as int + 0].kind == arg_tokens(arg)[0]);
    match arg {
        ArgModel::List(items) => {
            let open = seq![Lexeme::OpenBracket];
            let inner = args_tokens(items, 0);
            let close = seq![Lexeme::CloseBracket];
            lemma_stand_apart(tokens, index, open + inner, close);
            lemma_stand_apart(tokens, index, open, inner);
            lemma_stands(tokens, index, Lexeme::OpenBracket);
            lemma_stands(tokens, index + 1 + inner.len(), Lexeme::CloseBracket);
            if items.len() == 0 {
                assert(items =~= Seq::empty());
            } else {
                lemma_args_start(items, 0);
                assert(tokens[(index + 1) as int + 0].kind == inner[0]);
                lemma_read_args(tokens, index + 1, items, 0);
                assert(items.skip(0) =~= items);
            }
        },
        _ => {},
    }
}

/// Arguments that are spelled are read, where no comma follows.
proof fn lemma_read_args(tokens: Seq<Lexed>, index: nat, args: Seq<ArgModel>, from: nat)
    requires
        from < args.len(),
        stand_at(tokens, index, args_tokens(args, from)),
        kind_at(tokens, index + args_tokens(args, from).len()) != Lexeme::Comma,
    ensures
        args_at(tokens, index) is Ok,
        args_at(tokens, index)->Ok_0 == (
            args.skip(from as int),
            index + args_tokens(args, from).len(),
        ),
    decreases args, args.len() - from,
{
    let first = arg_tokens(args[from as int]);
    lemma_arg_starts(args[from as int]);
    if from + 1 == args.len() {
        lemma_read_arg(tokens, index, args[from as int]);
        assert(args.skip(from as int) =~= seq![args[from as int]]);
    } else {
        let comma = seq![Lexeme::Comma];
        let rest = args_tokens(args, from + 1);
        lemma_stand_apart(tokens, index, first + comma, rest);
        lemma_stand_apart(tokens, index, first, comma);
        lemma_stands(tokens, index + first.len(), Lexeme::Comma);
        lemma_read_arg(tokens, index, args[from as int]);
        lemma_read_args(tokens, index + first.len() + 1, args, from + 1);
        assert(args.skip(from as int) =~= seq![args[from as int]] + args.skip(from as int + 1));
    }
}

/// A stage that is spelled is read, where no parenthesis follows.
proof fn lemma_read_stage(tokens: Seq<Lexed>, index: nat, stage: StageModel)
    requires
        stand_at(tokens, index, stage_tokens(stage)),
        kind_at(tokens, index + stage_tokens(stage).len()) != Lexeme::OpenParen,
    ensures
        stage_tokens(stage).len() > 0,
        stage_at(tokens, index) is Ok,
        stage_at(tokens, index)->Ok_0.0.kind == stage,
        stage_at(tokens, index)->Ok_0.1 == index + stage_tokens(stage).len(),
        kind_at(tokens, index) != Lexeme::End,
{
    assert(tokens[index as int + 0].kind == stage_tokens(stage)[0]);
    match stage {
        StageModel::Call(name, args) => {
            let open = seq![Lexeme::Name(name), Lexeme::OpenParen];
            let inner = args_tokens(args, 0);
            let close = seq![Lexeme::CloseParen];
            lemma_stand_apart(tokens, index, open + inner, close);
            lemma_stand_apart(tokens, index, open, inner);
            assert(tokens[index as int + 1].kind == open[1]);
            lemma_stands(tokens, index + 2 + inner.len(), Lexeme::CloseParen);
            if args.len() == 0 {
                assert(args =~= Seq::empty());
            } else {
                lemma_args_start(args, 0);
                assert(tokens[(index + 2) as int + 0].kind == inner[0]);
                lemma_read_args(tokens, index + 2, args, 0);
                assert(args.skip(0) =~= args);
            }
        },
        _ => {},
    }
}

/// Whether these stages are of these kinds.
pub open spec fn are_stages(stages: Seq<Staged>, kinds: Seq<StageModel>) -> bool {
    &&& stages.len() == kinds.len()
    &&& forall|i: int| 0 <= i < kinds.len() ==> (#[trigger] stages[i]).kind == kinds[i]
}

/// A statement that is spelled is read, where neither an arrow nor a parenthesis follows.
proof fn lemma_read_stages(tokens: Seq<Lexed>, index: nat, stages: Seq<StageModel>, from: nat)
    requires
        from < stages.len(),
        stand_at(tokens, index, stages_tokens(stages, from)),
        kind_at(tokens, index + stages_tokens(stages, from).len()) != Lexeme::OpenParen,
        kind_at(tokens, index + stages_tokens(stages, from).len()) != Lexeme::Arrow,
    ensures
        stages_at(tokens, index) is Ok,
        are_stages(stages_at(tokens, index)->Ok_0.0, stages.skip(from as int)),
        stages_at(tokens, index)->Ok_0.1 == index + stages_tokens(stages, from).len(),
        stages_tokens(stages, from).len() > 0,
        kind_at(tokens, index) != Lexeme::End,
    decreases stages.len() - from,
{
    let stage = stages[from as int];
    let first = stage_tokens(stage);
    if from + 1 == stages.len() {
        lemma_read_stage(tokens, index, stage);
    } else {
        let arrow = seq![Lexeme::Arrow];
        let rest = stages_tokens(stages, from + 1);
        lemma_stand_apart(tokens, index, first + arrow, rest);
        lemma_stand_apart(tokens, index, first, arrow);
        lemma_stands(tokens, index + first.len(), Lexeme::Arrow);
        lemma_read_stage(tokens, index, stage);
        lemma_read_stages(tokens, index + first.len() + 1, stages, from + 1);
        let read = stages_at(tokens, index)->Ok_0.0;
        let tail = stages_at(tokens, index + first.len() + 1)->Ok_0.0;
        let kinds = stages.skip(from as int);
        assert forall|i: int| 0 <= i < kinds.len() implies (#[trigger] read[i]).kind
            == kinds[i] by {
            if i > 0 {
                assert(read[i] == tail[i - 1]);
                assert(stages.skip(from as int + 1)[i - 1] == kinds[i]);
            }
        }
    }
}

/// Whether these statements are of these kinds.
pub open spec fn are_statements(
    statements: Seq<Seq<Staged>>,
    kinds: Seq<Seq<StageModel>>,
) -> bool {
    &&& statements.len() == kinds.len()
    &&& forall|i: int| 0 <= i < kinds.len() ==> are_stages(#[trigger] statements[i], kinds[i])
}

/// Statements that are spelled are read.
proof fn lemma_read_statements(
    tokens: Seq<Lexed>,
    index: nat,
    statements: Seq<Seq<StageModel>>,
    from: nat,
    closed: bool,
)
    requires
        from <= statements.len(),
        forall|i: int| 0 <= i < statements.len() ==> (#[trigger] statements[i]).len() > 0,
        stand_at(tokens, index, statements_tokens(statements, from, closed)),
    ensures
        statements_at(tokens, index) is Ok,
        are_statements(statements_at(tokens, index)->Ok_0, statements.skip(from as int)),
    decreases statements.len() - from,
{
    if from == statements.len() {
        lemma_stands(tokens, index, Lexeme::End);
    } else {
        let stages = statements[from as int];
        let first = stages_tokens(stages, 0);
        assert(stages.len() > 0);
        if from + 1 == statements.len() && !closed {
            lemma_stand_apart(tokens, index, first, seq![Lexeme::End]);
            lemma_stands(tokens, index + first.len(), Lexeme::End);
            lemma_read_stages(tokens, index, stages, 0);
            assert(stages.skip(0) =~= stages);
            assert(statements.skip(from as int) =~= seq![stages]);
        } else {
            let mark = seq![Lexeme::Semicolon];
            let rest = statements_tokens(statements, from + 1, closed);
            lemma_stand_apart(tokens, index, first + mark, rest);
            lemma_stand_apart(tokens, index, first, mark);
            lemma_stands(tokens, index + first.len(), Lexeme::Semicolon);
            lemma_read_stages(tokens, index, stages, 0);
            assert(stages.skip(0) =~= stages);
            lemma_read_statements(tokens, index + first.len() + 1, statements, from + 1, closed);
            let read = statements_at(tokens, index)->Ok_0;
            let tail = statements_at(tokens, index + first.len() + 1)->Ok_0;
            let kinds = statements.skip(from as int);
            assert forall|i: int| 0 <= i < kinds.len() implies are_stages(
                #[trigger] read[i],
                kinds[i],
            ) by {
                if i > 0 {
                    assert(read[i] == tail[i - 1]);
                    assert(statements.skip(from as int + 1)[i - 1] == kinds[i]);
                }
            }
        }
    }
}

/// Whatever statements are spelled are read as they are: every stage of every statement,
/// every argument of every call, in their order, however many there are and however lists
/// are nested.
pub proof fn what_is_spelled_is_read(
    tokens: Seq<Lexed>,
    statements: Seq<Seq<StageModel>>,
    closed: bool,
)
    requires
        forall|i: int| 0 <= i < statements.len() ==> (#[trigger] statements[i]).len() > 0,
        stand_at(tokens, 0, statements_tokens(statements, 0, closed)),
    ensures
        statements_at(tokens, 0) is Ok,
        are_statements(statements_at(tokens, 0)->Ok_0, statements),
{
    lemma_read_statements(tokens, 0, statements, 0, closed);
    assert(statements.skip(0) =~= statements);
}

/// An argument that is read is spelled.
proof fn lemma_arg_was_spelled(tokens: Seq<Lexed>, index: nat)
    requires
        arg_at(tokens, index) is Ok,
    ensures
        ({
            let (arg, end) = arg_at(tokens, index)->Ok_0;
            stand_at(tokens, index, arg_tokens(arg)) && end == index + arg_tokens(arg).len() && end
                > index
        }),
    decreases tokens.len() - index, 0nat,
{
    let (arg, end) = arg_at(tokens, index)->Ok_0;
    match kind_at(tokens, index) {
        Lexeme::Number(value) => lemma_stands(tokens, index, Lexeme::Number(value)),
        Lexeme::Ref(name) => lemma_stands(tokens, index, Lexeme::Ref(name)),
        Lexeme::OpenBracket => {
            let items = arg->List_0;
            let open = seq![Lexeme::OpenBracket];
            let inner = args_tokens(items, 0);
            let close = seq![Lexeme::CloseBracket];
            lemma_stands(tokens, index, Lexeme::OpenBracket);
            if kind_at(tokens, index + 1) == Lexeme::CloseBracket {
                assert(inner =~= Seq::empty());
                assert(open + inner =~= open);
            } else {
                lemma_args_were_spelled(tokens, index + 1);
            }
            lemma_stands(tokens, index + 1 + inner.len(), Lexeme::CloseBracket);
            lemma_stand_apart(tokens, index, open, inner);
            lemma_stand_apart(tokens, index, open + inner, close);
        },
        _ => {},
    }
}

/// Arguments that are read are spelled.
proof fn lemma_args_were_spelled(tokens: Seq<Lexed>, index: nat)
    requires
        args_at(tokens, index) is Ok,
    ensures
        ({
            let (args, end) = args_at(tokens, index)->Ok_0;
            &&& stand_at(tokens, index, args_tokens(args, 0))
            &&& end == index + args_tokens(args, 0).len()
            &&& end > index
            &&& args.len() > 0
        }),
    decreases tokens.len() - index, 1nat,
{
    let (args, end) = args_at(tokens, index)->Ok_0;
    lemma_arg_was_spelled(tokens, index);
    let (first, stop) = arg_at(tokens, index)->Ok_0;
    if kind_at(tokens, stop) == Lexeme::Comma {
        lemma_args_were_spelled(tokens, stop + 1);
        let rest = args_at(tokens, stop + 1)->Ok_0.0;
        assert(args =~= seq![first] + rest);
        lemma_stands(tokens, stop, Lexeme::Comma);
        lemma_args_shift(args, rest, 0);
        let head = arg_tokens(first);
        let comma = seq![Lexeme::Comma];
        lemma_stand_apart(tokens, index, head, comma);
        lemma_stand_apart(tokens, index, head + comma, args_tokens(rest, 0));
    } else {
        assert(args =~= seq![first]);
    }
}

/// Arguments behind the first are spelled as they are alone.
proof fn lemma_args_shift(args: Seq<ArgModel>, rest: Seq<ArgModel>, from: nat)
    requires
        args.len() == rest.len() + 1,
        forall|i: int| 0 <= i < rest.len() ==> #[trigger] rest[i] == args[i + 1],
        from <= rest.len(),
    ensures
        args_tokens(args, from + 1) == args_tokens(rest, from),
    decreases rest.len() - from,
{
    if from < rest.len() {
        assert(rest[from as int] == args[from as int + 1]);
        lemma_args_shift(args, rest, from + 1);
    }
}

/// A stage that is read is spelled.
proof fn lemma_stage_was_spelled(tokens: Seq<Lexed>, index: nat)
    requires
        stage_at(tokens, index) is Ok,
    ensures
        ({
            let (stage, end) = stage_at(tokens, index)->Ok_0;
            &&& stand_at(tokens, index, stage_tokens(stage.kind))
            &&& end == index + stage_tokens(stage.kind).len()
            &&& end > index
        }),
{
    let (stage, end) = stage_at(tokens, index)->Ok_0;
    match kind_at(tokens, index) {
        Lexeme::Ref(name) => lemma_stands(tokens, index, Lexeme::Ref(name)),
        Lexeme::Name(name) => {
            lemma_stands(tokens, index, Lexeme::Name(name));
            if kind_at(tokens, index + 1) == Lexeme::OpenParen {
                let args = stage.kind->Call_1;
                let open = seq![Lexeme::Name(name), Lexeme::OpenParen];
                let inner = args_tokens(args, 0);
                let close = seq![Lexeme::CloseParen];
                lemma_stands(tokens, index + 1, Lexeme::OpenParen);
                lemma_stand_apart(tokens, index, seq![Lexeme::Name(name)], seq![Lexeme::OpenParen]);
                assert(seq![Lexeme::Name(name)] + seq![Lexeme::OpenParen] =~= open);
                if kind_at(tokens, index + 2) == Lexeme::CloseParen {
                    assert(inner =~= Seq::empty());
                    assert(open + inner =~= open);
                } else {
                    lemma_args_were_spelled(tokens, index + 2);
                }
                lemma_stands(tokens, index + 2 + inner.len(), Lexeme::CloseParen);
                lemma_stand_apart(tokens, index, open, inner);
                lemma_stand_apart(tokens, index, open + inner, close);
            }
        },
        _ => {},
    }
}

/// What some stages are.
pub open spec fn stage_kinds(stages: Seq<Staged>) -> Seq<StageModel> {
    stages.map_values(|stage: Staged| stage.kind)
}

/// What some statements are.
pub open spec fn statement_kinds(statements: Seq<Seq<Staged>>) -> Seq<Seq<StageModel>> {
    statements.map_values(|stages: Seq<Staged>| stage_kinds(stages))
}

/// A statement that is read is spelled.
proof fn lemma_stages_were_spelled(tokens: Seq<Lexed>, index: nat)
    requires
        stages_at(tokens, index) is Ok,
    ensures
        ({
            let (stages, end) = stages_at(tokens, index)->Ok_0;
            &&& stand_at(tokens, index, stages_tokens(stage_kinds(stages), 0))
            &&& end == index + stages_tokens(stage_kinds(stages), 0).len()
            &&& end > index
            &&& stages.len() > 0
        }),
    decreases tokens.len() - index,
{
    let (stages, end) = stages_at(tokens, index)->Ok_0;
    lemma_stage_was_spelled(tokens, index);
    let (first, stop) = stage_at(tokens, index)->Ok_0;
    let kinds = stage_kinds(stages);
    if kind_at(tokens, stop) == Lexeme::Arrow {
        lemma_stages_were_spelled(tokens, stop + 1);
        let rest = stages_at(tokens, stop + 1)->Ok_0.0;
        assert(stages =~= seq![first] + rest);
        lemma_stands(tokens, stop, Lexeme::Arrow);
        lemma_stages_shift(kinds, stage_kinds(rest), 0);
        let head = stage_tokens(first.kind);
        let arrow = seq![Lexeme::Arrow];
        lemma_stand_apart(tokens, index, head, arrow);
        lemma_stand_apart(tokens, index, head + arrow, stages_tokens(stage_kinds(rest), 0));
    } else {
        assert(stages =~= seq![first]);
    }
}

/// Stages behind the first are spelled as they are alone.
proof fn lemma_stages_shift(stages: Seq<StageModel>, rest: Seq<StageModel>, from: nat)
    requires
        stages.len() == rest.len() + 1,
        forall|i: int| 0 <= i < rest.len() ==> #[trigger] rest[i] == stages[i + 1],
        from <= rest.len(),
    ensures
        stages_tokens(stages, from + 1) == stages_tokens(rest, from),
    decreases rest.len() - from,
{
    if from < rest.len() {
        assert(rest[from as int] == stages[from as int + 1]);
        lemma_stages_shift(stages, rest, from + 1);
    }
}

/// Statements behind the first are spelled as they are alone.
proof fn lemma_statements_shift(
    statements: Seq<Seq<StageModel>>,
    rest: Seq<Seq<StageModel>>,
    from: nat,
    closed: bool,
)
    requires
        statements.len() == rest.len() + 1,
        forall|i: int| 0 <= i < rest.len() ==> #[trigger] rest[i] == statements[i + 1],
        from <= rest.len(),
    ensures
        statements_tokens(statements, from + 1, closed) == statements_tokens(rest, from, closed),
    decreases rest.len() - from,
{
    if from < rest.len() {
        assert(rest[from as int] == statements[from as int + 1]);
        lemma_statements_shift(statements, rest, from + 1, closed);
    }
}

/// Whether tokens from a place on spell statements.
spec fn spelled_at(tokens: Seq<Lexed>, index: nat, kinds: Seq<Seq<StageModel>>) -> bool {
    exists|closed: bool| stand_at(
        tokens,
        index,
        #[trigger] statements_tokens(kinds, 0, closed),
    )
}

/// Statements that are read are spelled.
proof fn lemma_statements_were_spelled(tokens: Seq<Lexed>, index: nat)
    requires
        tokens.len() > 0,
        tokens.last().kind == Lexeme::End,
        index < tokens.len(),
        forall|i: int| 0 <= i < tokens.len() - 1 ==> (#[trigger] tokens[i]).kind != Lexeme::End,
        statements_at(tokens, index) is Ok,
    ensures
        spelled_at(tokens, index, statement_kinds(statements_at(tokens, index)->Ok_0)),
    decreases tokens.len() - index,
{
    let statements = statements_at(tokens, index)->Ok_0;
    let kinds = statement_kinds(statements);
    if kind_at(tokens, index) == Lexeme::End {
        lemma_stands(tokens, index, Lexeme::End);
        assert(kinds =~= Seq::empty());
        assert(stand_at(tokens, index, statements_tokens(kinds, 0, false)));
    } else {
        lemma_stages_were_spelled(tokens, index);
        let (first, stop) = stages_at(tokens, index)->Ok_0;
        let head = stages_tokens(stage_kinds(first), 0);
        if kind_at(tokens, stop) == Lexeme::Semicolon {
            assert(stop < tokens.len());
            assert(stop != tokens.len() - 1);
            lemma_statements_were_spelled(tokens, stop + 1);
            let rest = statements_at(tokens, stop + 1)->Ok_0;
            let others = statement_kinds(rest);
            let closed = choose|closed: bool| stand_at(
                tokens,
                stop + 1,
                #[trigger] statements_tokens(others, 0, closed),
            );
            // A last statement before a semicolon is closed by it.
            let shut = if others.len() == 0 {
                true
            } else {
                closed
            };
            assert(statements =~= seq![first] + rest);
            assert(kinds =~= seq![stage_kinds(first)] + others);
            lemma_stands(tokens, stop, Lexeme::Semicolon);
            lemma_statements_shift(kinds, others, 0, shut);
            let mark = seq![Lexeme::Semicolon];
            let tail = statements_tokens(others, 0, shut);
            assert(stand_at(tokens, stop + 1, tail));
            lemma_stand_apart(tokens, index, head, mark);
            lemma_stand_apart(tokens, index, head + mark, tail);
            assert(stand_at(tokens, index, statements_tokens(kinds, 0, shut)));
        } else {
            assert(stop < tokens.len()) by {
                assert(stand_at(tokens, index, head));
                if stop == tokens.len() {
                    assert(tokens[index + (head.len() - 1)].kind == head[head.len() - 1]);
                    lemma_no_end(stage_kinds(first), 0, head.len() - 1);
                }
            }
            lemma_stands(tokens, stop, Lexeme::End);
            assert(statements =~= seq![first]);
            assert(kinds =~= seq![stage_kinds(first)]);
            lemma_stand_apart(tokens, index, head, seq![Lexeme::End]);
            assert(stand_at(tokens, index, statements_tokens(kinds, 0, false)));
        }
    }
}

/// No token of an argument is the end.
proof fn lemma_arg_no_end(arg: ArgModel, at: int)
    requires
        0 <= at < arg_tokens(arg).len(),
    ensures
        arg_tokens(arg)[at] != Lexeme::End,
    decreases arg, 0nat,
{
    if arg is List {
        let items = arg->List_0;
        let inner = args_tokens(items, 0);
        if 1 <= at < 1 + inner.len() {
            lemma_args_no_end(items, 0, at - 1);
            assert(arg_tokens(arg)[at] == inner[at - 1]);
        }
    }
}

/// No token of some arguments is the end.
proof fn lemma_args_no_end(args: Seq<ArgModel>, from: nat, at: int)
    requires
        0 <= at < args_tokens(args, from).len(),
    ensures
        args_tokens(args, from)[at] != Lexeme::End,
    decreases args, args.len() - from,
{
    if from < args.len() {
        let first = arg_tokens(args[from as int]);
        if at < first.len() {
            lemma_arg_no_end(args[from as int], at);
            assert(args_tokens(args, from)[at] == first[at]);
        } else if at > first.len() {
            lemma_args_no_end(args, from + 1, at - first.len() - 1);
            assert(args_tokens(args, from)[at] == args_tokens(args, from + 1)[at - first.len()
                - 1]);
        }
    }
}

/// No token of a statement is the end.
proof fn lemma_no_end(stages: Seq<StageModel>, from: nat, at: int)
    requires
        0 <= at < stages_tokens(stages, from).len(),
    ensures
        stages_tokens(stages, from)[at] != Lexeme::End,
    decreases stages.len() - from,
{
    if from < stages.len() {
        let stage = stages[from as int];
        let first = stage_tokens(stage);
        if at < first.len() {
            assert(stages_tokens(stages, from)[at] == first[at]);
            if stage is Call {
                let inner = args_tokens(stage->Call_1, 0);
                if 2 <= at < 2 + inner.len() {
                    lemma_args_no_end(stage->Call_1, 0, at - 2);
                    assert(first[at] == inner[at - 2]);
                }
            }
        } else if at > first.len() {
            lemma_no_end(stages, from + 1, at - first.len() - 1);
            assert(stages_tokens(stages, from)[at] == stages_tokens(stages, from + 1)[at
                - first.len() - 1]);
        }
    }
}

/// Nothing else is read: whatever is read was spelled, token by token.
pub proof fn what_is_read_was_spelled(tokens: Seq<Lexed>)
    requires
        tokens.len() > 0,
        tokens.last().kind == Lexeme::End,
        forall|i: int| 0 <= i < tokens.len() - 1 ==> (#[trigger] tokens[i]).kind != Lexeme::End,
        statements_at(tokens, 0) is Ok,
    ensures
        exists|closed: bool| stand_at(
            tokens,
            0,
            #[trigger] statements_tokens(
                statement_kinds(statements_at(tokens, 0)->Ok_0),
                0,
                closed,
            ),
        ),
{
    lemma_statements_were_spelled(tokens, 0);
}

} // verus!
