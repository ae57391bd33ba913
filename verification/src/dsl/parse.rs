//! From tokens to statements.
use crate::dsl::lex::{lexed, Fault, Lexed, Lexeme, Problem, Token, TokenKind};
use crate::ieee::number::Double;
use crate::text::same_text;
use vstd::prelude::*;

verus! {

/// An argument of a node.
#[derive(Debug)]
pub enum Arg {
    /// A number.
    Number(Double),
    /// The name of a binding.
    Ref(String),
    /// A list of arguments.
    List(Vec<Arg>),
}

/// An argument, as a value.
pub enum ArgModel {
    /// A number.
    Number(Double),
    /// The name of a binding.
    Ref(Seq<char>),
    /// A list of arguments.
    List(Seq<ArgModel>),
}

impl Arg {
    /// The argument, as a value.
    pub open spec fn model(self) -> ArgModel
        decreases self,
    {
        match self {
            Arg::Number(value) => ArgModel::Number(value),
            Arg::Ref(name) => ArgModel::Ref(name@),
            Arg::List(items) => ArgModel::List(
                Seq::new(
                    items@.len(),
                    |i: int|
                        if 0 <= i < items@.len() {
                            items[i].model()
                        } else {
                            arbitrary()
                        },
                ),
            ),
        }
    }
}

/// Some arguments, as values.
pub open spec fn arg_models(args: Seq<Arg>) -> Seq<ArgModel> {
    args.map_values(|arg: Arg| arg.model())
}

/// What a stage of a statement is.
#[derive(Debug)]
pub enum StageKind {
    /// A node with its arguments.
    Call(String, Vec<Arg>),
    /// A binding.
    Ref(String),
    /// The output.
    Out,
}

/// A stage and the place where it starts.
#[derive(Debug)]
pub struct Stage {
    /// What it is.
    pub kind: StageKind,
    /// How many bytes come before it.
    pub at: usize,
}

/// What a stage is, as a value.
pub enum StageModel {
    /// A node with its arguments.
    Call(Seq<char>, Seq<ArgModel>),
    /// A binding.
    Ref(Seq<char>),
    /// The output.
    Out,
}

/// A stage, as a value.
pub struct Staged {
    /// What it is.
    pub kind: StageModel,
    /// How many bytes come before it.
    pub at: nat,
}

impl View for Stage {
    type V = Staged;

    open spec fn view(&self) -> Staged {
        Staged {
            kind: match self.kind {
                StageKind::Call(name, args) => StageModel::Call(name@, arg_models(args@)),
                StageKind::Ref(name) => StageModel::Ref(name@),
                StageKind::Out => StageModel::Out,
            },
            at: self.at as nat,
        }
    }
}

/// A statement, as a value.
pub open spec fn staged(stages: Seq<Stage>) -> Seq<Staged> {
    stages.map_values(|stage: Stage| stage@)
}

/// Some statements, as values.
pub open spec fn statement_models(statements: Seq<Vec<Stage>>) -> Seq<Seq<Staged>> {
    statements.map_values(|stages: Vec<Stage>| staged(stages@))
}

/// The token at a place; behind the last one there is only the end.
pub open spec fn kind_at(tokens: Seq<Lexed>, index: nat) -> Lexeme {
    if index < tokens.len() {
        tokens[index as int].kind
    } else {
        Lexeme::End
    }
}

/// A message about a token.
pub open spec fn fault_at(tokens: Seq<Lexed>, index: nat, message: Seq<char>) -> Fault {
    Fault { at: tokens[index as int].at, message }
}

/// The argument that starts at a token and the token behind it: a number, a reference or
/// a list in brackets.
pub open spec fn arg_at(tokens: Seq<Lexed>, index: nat) -> Result<(ArgModel, nat), Fault>
    decreases tokens.len() - index, 0nat,
{
    match kind_at(tokens, index) {
        Lexeme::Number(value) => Ok((ArgModel::Number(value), index + 1)),
        Lexeme::Ref(name) => Ok((ArgModel::Ref(name), index + 1)),
        Lexeme::OpenBracket => if kind_at(tokens, index + 1) == Lexeme::CloseBracket {
            Ok((ArgModel::List(Seq::empty()), index + 2))
        } else {
            match args_at(tokens, index + 1) {
                Err(fault) => Err(fault),
                Ok((items, end)) => if kind_at(tokens, end) == Lexeme::CloseBracket {
                    Ok((ArgModel::List(items), end + 1))
                } else {
                    Err(fault_at(tokens, end, "expected ']' after list"@))
                },
            }
        },
        _ => Err(fault_at(tokens, index, "expected number, $reference, or list"@)),
    }
}

/// The arguments that start at a token, with commas between them, and the token behind
/// them.
pub open spec fn args_at(tokens: Seq<Lexed>, index: nat) -> Result<(Seq<ArgModel>, nat), Fault>
    decreases tokens.len() - index, 1nat,
{
    match arg_at(tokens, index) {
        Err(fault) => Err(fault),
        Ok((first, end)) => if kind_at(tokens, end) == Lexeme::Comma && index < end {
            match args_at(tokens, end + 1) {
                Err(fault) => Err(fault),
                Ok((rest, stop)) => Ok((seq![first] + rest, stop)),
            }
        } else {
            Ok((seq![first], end))
        },
    }
}

/// The stage that starts at a token and the token behind it: a reference, `out`, or a
/// node with its arguments in parentheses.
pub open spec fn stage_at(tokens: Seq<Lexed>, index: nat) -> Result<(Staged, nat), Fault> {
    let at = tokens[index as int].at;
    match kind_at(tokens, index) {
        Lexeme::Ref(name) => Ok((Staged { kind: StageModel::Ref(name), at }, index + 1)),
        Lexeme::Name(name) => if kind_at(tokens, index + 1) != Lexeme::OpenParen {
            if name == "out"@ {
                Ok((Staged { kind: StageModel::Out, at }, index + 1))
            } else {
                Err(fault_at(tokens, index + 1, "expected '(' after node name"@))
            }
        } else if kind_at(tokens, index + 2) == Lexeme::CloseParen {
            Ok((Staged { kind: StageModel::Call(name, Seq::empty()), at }, index + 3))
        } else {
            match args_at(tokens, index + 2) {
                Err(fault) => Err(fault),
                Ok((args, end)) => if kind_at(tokens, end) == Lexeme::CloseParen {
                    Ok((Staged { kind: StageModel::Call(name, args), at }, end + 1))
                } else {
                    Err(fault_at(tokens, end, "expected ')' after arguments"@))
                },
            }
        },
        _ => Err(fault_at(tokens, index, "expected node or $reference"@)),
    }
}

/// The statement that starts at a token, stages with arrows between them, and the token
/// behind it.
pub open spec fn stages_at(tokens: Seq<Lexed>, index: nat) -> Result<(Seq<Staged>, nat), Fault>
    decreases tokens.len() - index,
{
    match stage_at(tokens, index) {
        Err(fault) => Err(fault),
        Ok((first, end)) => if kind_at(tokens, end) == Lexeme::Arrow && index < end {
            match stages_at(tokens, end + 1) {
                Err(fault) => Err(fault),
                Ok((rest, stop)) => Ok((seq![first] + rest, stop)),
            }
        } else {
            Ok((seq![first], end))
        },
    }
}

/// The statements from a token on, with semicolons between them; the last one may have
/// one too.
pub open spec fn statements_at(tokens: Seq<Lexed>, index: nat) -> Result<Seq<Seq<Staged>>, Fault>
    decreases tokens.len() - index,
{
    if kind_at(tokens, index) == Lexeme::End {
        Ok(Seq::empty())
    } else {
        match stages_at(tokens, index) {
            Err(fault) => Err(fault),
            Ok((stages, end)) => if kind_at(tokens, end) == Lexeme::Semicolon && index
                < end {
                match statements_at(tokens, end + 1) {
                    Err(fault) => Err(fault),
                    Ok(rest) => Ok(seq![stages] + rest),
                }
            } else if kind_at(tokens, end) == Lexeme::End {
                Ok(seq![stages])
            } else {
                Err(fault_at(tokens, end, "expected ';' between statements"@))
            },
        }
    }
}

/// What was read before, and then the rest.
pub open spec fn with_before<T>(before: Seq<T>, rest: Result<(Seq<T>, nat), Fault>) -> Result<
    (Seq<T>, nat),
    Fault,
> {
    match rest {
        Err(fault) => Err(fault),
        Ok((items, end)) => Ok((before + items, end)),
    }
}

/// Nothing before changes nothing.
proof fn lemma_nothing_before<T>(rest: Result<(Seq<T>, nat), Fault>)
    ensures
        with_before(Seq::empty(), rest) == rest,
{
    if rest.is_ok() {
        let items = rest->Ok_0.0;
        assert(Seq::empty() + items =~= items);
    }
}

/// One more item belongs to what was read before.
proof fn lemma_one_more<T>(before: Seq<T>, item: T, rest: Result<(Seq<T>, nat), Fault>)
    ensures
        rest matches Ok((items, end)) ==> before + (seq![item] + items) == before.push(item)
            + items,
{
    if rest.is_ok() {
        let items = rest->Ok_0.0;
        assert(before + (seq![item] + items) =~= before.push(item) + items);
    }
}

/// Some statements, and then the rest.
pub open spec fn followed(
    before: Seq<Seq<Staged>>,
    rest: Result<Seq<Seq<Staged>>, Fault>,
) -> Result<Seq<Seq<Staged>>, Fault> {
    match rest {
        Err(fault) => Err(fault),
        Ok(statements) => Ok(before + statements),
    }
}

/// Walks over tokens.
pub struct Parser {
    tokens: Vec<Token>,
    index: usize,
}

impl Parser {
    /// The tokens, as values.
    pub closed spec fn tokens(self) -> Seq<Lexed> {
        lexed(self.tokens@)
    }

    /// The token that comes next.
    pub closed spec fn index(self) -> nat {
        self.index as nat
    }

    /// The last token is the end.
    #[verifier::type_invariant]
    spec fn wf(self) -> bool {
        &&& self.index < self.tokens@.len()
        &&& self.tokens@.last().kind@ == Lexeme::End
    }

    /// Starts at the first token.
    pub fn new(tokens: Vec<Token>) -> (parser: Parser)
        requires
            tokens@.len() > 0,
            tokens@.last().kind@ == Lexeme::End,
        ensures
            parser.tokens() == lexed(tokens@),
            parser.index() == 0,
    {
        Parser { tokens, index: 0 }
    }

    /// The token that comes next.
    fn kind(&self) -> (kind: &TokenKind)
        ensures
            kind@ == kind_at(self.tokens(), self.index()),
            kind@ != Lexeme::End ==> self.index() + 1 < self.tokens().len(),
            self.index() < self.tokens().len(),
    {
        proof {
            use_type_invariant(self);
        }
        &self.tokens[self.index].kind
    }

    /// Goes on behind the token that comes next.
    fn skip(&mut self)
        requires
            old(self).index() + 1 < old(self).tokens().len(),
        ensures
            final(self).tokens() == old(self).tokens(),
            final(self).index() == old(self).index() + 1,
    {
        proof {
            use_type_invariant(&*self);
        }
        let length: usize = self.tokens.len();
        if self.index < length {
            self.index = self.index + 1;
        }
    }

    /// A message about the token that comes next.
    fn problem(&self, message: &str) -> (problem: Problem)
        ensures
            problem@ == fault_at(self.tokens(), self.index(), message@),
    {
        proof {
            use_type_invariant(self);
        }
        Problem { at: self.tokens[self.index].at, message: message.to_owned() }
    }

    /// Reads an argument.
    fn arg(&mut self) -> (r: Result<Arg, Problem>)
        ensures
            final(self).tokens() == old(self).tokens(),
            r matches Ok(arg) ==> arg_at(old(self).tokens(), old(self).index()) == Ok::<
                (ArgModel, nat),
                Fault,
            >((arg.model(), final(self).index())),
            r.is_ok() ==> old(self).index() < final(self).index() < old(self).tokens().len(),
            r matches Err(problem) ==> arg_at(old(self).tokens(), old(self).index()) == Err::<
                (ArgModel, nat),
                Fault,
            >(problem@),
        decreases old(self).tokens().len() - old(self).index(), 0nat,
    {
        let ghost all = self.tokens();
        let ghost start = self.index();
        let arg: Arg = match self.kind() {
            TokenKind::Number(value) => Arg::Number(*value),
            TokenKind::Ref(name) => Arg::Ref(name.clone()),
            TokenKind::OpenBracket => {
                self.skip();
                let mut items: Vec<Arg> = Vec::new();
                let empty: bool = match self.kind() {
                    TokenKind::CloseBracket => true,
                    _ => false,
                };
                if !empty {
                    items = self.args()?;
                }
                match self.kind() {
                    TokenKind::CloseBracket => {},
                    _ => {
                        return Err(self.problem("expected ']' after list"));
                    },
                }
                self.skip();
                let list: Arg = Arg::List(items);
                proof {
                    let shown = list.model()->List_0;
                    assert(shown =~= arg_models(list->List_0@));
                    if empty {
                        assert(shown =~= Seq::empty());
                    }
                }
                return Ok(list);
            },
            _ => {
                return Err(self.problem("expected number, $reference, or list"));
            },
        };
        self.skip();
        Ok(arg)
    }

    /// Reads arguments with commas between them.
    fn args(&mut self) -> (r: Result<Vec<Arg>, Problem>)
        ensures
            final(self).tokens() == old(self).tokens(),
            r matches Ok(args) ==> args_at(old(self).tokens(), old(self).index()) == Ok::<
                (Seq<ArgModel>, nat),
                Fault,
            >((arg_models(args@), final(self).index())),
            r.is_ok() ==> old(self).index() < final(self).index() < old(self).tokens().len(),
            r matches Err(problem) ==> args_at(old(self).tokens(), old(self).index()) == Err::<
                (Seq<ArgModel>, nat),
                Fault,
            >(problem@),
        decreases old(self).tokens().len() - old(self).index(), 1nat,
    {
        let ghost all = self.tokens();
        let ghost start = self.index();
        let mut args: Vec<Arg> = Vec::new();
        proof {
            use_type_invariant(&*self);
            assert(arg_models(args@) =~= Seq::empty());
            lemma_nothing_before(args_at(all, start));
        }
        loop
            invariant
                self.tokens() == all,
                all == old(self).tokens(),
                start == old(self).index(),
                start <= self.index() < all.len(),
                args@.len() > 0 ==> start < self.index(),
                with_before(arg_models(args@), args_at(all, self.index())) == args_at(all, start),
            decreases all.len() - self.index(),
        {
            let ghost here = self.index();
            let ghost before = arg_models(args@);
            let next: Arg = match self.arg() {
                Ok(next) => next,
                Err(problem) => {
                    return Err(problem);
                },
            };
            let more: bool = match self.kind() {
                TokenKind::Comma => true,
                _ => false,
            };
            args.push(next);
            assert(arg_models(args@) =~= before.push(next.model()));
            if !more {
                assert(before + seq![next.model()] =~= arg_models(args@));
                return Ok(args);
            }
            self.skip();
            proof {
                lemma_one_more(before, next.model(), args_at(all, self.index()));
            }
        }
    }

    /// Reads a stage.
    fn stage(&mut self) -> (r: Result<Stage, Problem>)
        ensures
            final(self).tokens() == old(self).tokens(),
            r matches Ok(stage) ==> stage_at(old(self).tokens(), old(self).index()) == Ok::<
                (Staged, nat),
                Fault,
            >((stage@, final(self).index())),
            r.is_ok() ==> old(self).index() < final(self).index() < old(self).tokens().len(),
            r matches Err(problem) ==> stage_at(old(self).tokens(), old(self).index()) == Err::<
                (Staged, nat),
                Fault,
            >(problem@),
    {
        proof {
            use_type_invariant(&*self);
        }
        let at: usize = self.tokens[self.index].at;
        let name: String = match self.kind() {
            TokenKind::Ref(name) => {
                let name: String = name.clone();
                self.skip();
                return Ok(Stage { kind: StageKind::Ref(name), at });
            },
            TokenKind::Name(name) => name.clone(),
            _ => {
                return Err(self.problem("expected node or $reference"));
            },
        };
        self.skip();
        let opened: bool = match self.kind() {
            TokenKind::OpenParen => true,
            _ => false,
        };
        if !opened {
            if same_text(name.as_str(), "out") {
                return Ok(Stage { kind: StageKind::Out, at });
            }
            return Err(self.problem("expected '(' after node name"));
        }
        self.skip();
        let mut args: Vec<Arg> = Vec::new();
        let empty: bool = match self.kind() {
            TokenKind::CloseParen => true,
            _ => false,
        };
        if !empty {
            args = self.args()?;
        } else {
            assert(arg_models(args@) =~= Seq::empty());
        }
        match self.kind() {
            TokenKind::CloseParen => {},
            _ => {
                return Err(self.problem("expected ')' after arguments"));
            },
        }
        self.skip();
        Ok(Stage { kind: StageKind::Call(name, args), at })
    }

    /// Reads a statement.
    fn stages(&mut self) -> (r: Result<Vec<Stage>, Problem>)
        ensures
            final(self).tokens() == old(self).tokens(),
            r matches Ok(stages) ==> stages_at(old(self).tokens(), old(self).index()) == Ok::<
                (Seq<Staged>, nat),
                Fault,
            >((staged(stages@), final(self).index())),
            r matches Ok(stages) ==> stages@.len() > 0,
            r.is_ok() ==> old(self).index() < final(self).index() < old(self).tokens().len(),
            r matches Err(problem) ==> stages_at(old(self).tokens(), old(self).index()) == Err::<
                (Seq<Staged>, nat),
                Fault,
            >(problem@),
    {
        let ghost all = self.tokens();
        let ghost start = self.index();
        let mut stages: Vec<Stage> = Vec::new();
        proof {
            use_type_invariant(&*self);
            assert(staged(stages@) =~= Seq::empty());
            lemma_nothing_before(stages_at(all, start));
        }
        loop
            invariant
                self.tokens() == all,
                all == old(self).tokens(),
                start == old(self).index(),
                start <= self.index() < all.len(),
                stages@.len() > 0 ==> start < self.index(),
                with_before(staged(stages@), stages_at(all, self.index())) == stages_at(all, start),
            decreases all.len() - self.index(),
        {
            let ghost before = staged(stages@);
            let next: Stage = match self.stage() {
                Ok(next) => next,
                Err(problem) => {
                    return Err(problem);
                },
            };
            let more: bool = match self.kind() {
                TokenKind::Arrow => true,
                _ => false,
            };
            stages.push(next);
            assert(staged(stages@) =~= before.push(next@));
            if !more {
                assert(before + seq![next@] =~= staged(stages@));
                return Ok(stages);
            }
            self.skip();
            proof {
                lemma_one_more(before, next@, stages_at(all, self.index()));
            }
        }
    }

    /// Reads all statements from here on.
    fn statements(&mut self) -> (r: Result<Vec<Vec<Stage>>, Problem>)
        ensures
            final(self).tokens() == old(self).tokens(),
            r matches Ok(statements) ==> statements_at(old(self).tokens(), old(self).index())
                == Ok::<Seq<Seq<Staged>>, Fault>(statement_models(statements@)),
            r matches Ok(statements) ==> forall|i: int|
                0 <= i < statements@.len() ==> (#[trigger] statements@[i])@.len() > 0,
            r matches Err(problem) ==> statements_at(old(self).tokens(), old(self).index())
                == Err::<Seq<Seq<Staged>>, Fault>(problem@),
    {
        let ghost all = self.tokens();
        let ghost start = self.index();
        let mut statements: Vec<Vec<Stage>> = Vec::new();
        proof {
            use_type_invariant(&*self);
            assert(statement_models(statements@) =~= Seq::empty());
            if statements_at(all, start).is_ok() {
                let whole = statements_at(all, start)->Ok_0;
                assert(Seq::empty() + whole =~= whole);
            }
        }
        loop
            invariant
                self.tokens() == all,
                all == old(self).tokens(),
                start == old(self).index(),
                start <= self.index() < all.len(),
                forall|i: int|
                    0 <= i < statements@.len() ==> (#[trigger] statements@[i])@.len() > 0,
                followed(statement_models(statements@), statements_at(all, self.index()))
                    == statements_at(all, start),
            decreases all.len() - self.index(),
        {
            let done: bool = match self.kind() {
                TokenKind::End => true,
                _ => false,
            };
            let ghost before = statement_models(statements@);
            if done {
                assert(before + Seq::empty() =~= before);
                return Ok(statements);
            }
            let stages: Vec<Stage> = match self.stages() {
                Ok(stages) => stages,
                Err(problem) => {
                    return Err(problem);
                },
            };
            let ghost next = staged(stages@);
            statements.push(stages);
            assert(statement_models(statements@) =~= before.push(next));
            let more: bool = match self.kind() {
                TokenKind::Semicolon => true,
                TokenKind::End => false,
                _ => {
                    return Err(self.problem("expected ';' between statements"));
                },
            };
            if !more {
                assert(before + seq![next] =~= statement_models(statements@));
                return Ok(statements);
            }
            self.skip();
            proof {
                let rest = statements_at(all, self.index());
                if rest.is_ok() {
                    assert(before + (seq![next] + rest->Ok_0) =~= before.push(next) + rest->Ok_0);
                }
            }
        }
    }

    /// Reads all statements.
    pub fn parse(self) -> (r: Result<Vec<Vec<Stage>>, Problem>)
        ensures
            r matches Ok(statements) ==> statements_at(self.tokens(), self.index()) == Ok::<
                Seq<Seq<Staged>>,
                Fault,
            >(statement_models(statements@)),
            r matches Ok(statements) ==> forall|i: int|
                0 <= i < statements@.len() ==> (#[trigger] statements@[i])@.len() > 0,
            r matches Err(problem) ==> statements_at(self.tokens(), self.index()) == Err::<
                Seq<Seq<Staged>>,
                Fault,
            >(problem@),
    {
        let mut parser: Parser = self;
        parser.statements()
    }
}

} // verus!
