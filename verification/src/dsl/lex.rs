//! From text to tokens.
use crate::ieee::decimal::{is_digit, parse_double, parsed};
use crate::ieee::number::Double;
use crate::text::{
    byte_length, bytes_before, characters, count_bytes, lemma_bytes_ends, lemma_bytes_increase,
    lemma_bytes_step, text_of,
};
use vstd::prelude::*;
use vstd::utf8::encode_utf8;

verus! {

/// The `Debug` text of a character, as Rust writes it.
pub uninterp spec fn char_text(c: char) -> Seq<char>;

/// `char`'s `Debug` shows the character in single quotes, escaped where Rust escapes it; it
/// is only said to depend on the character alone.
#[verifier::external_body]
pub(crate) fn char_to_text(c: char) -> (text: String)
    ensures
        text@ == char_text(c),
{
    format!("{c:?}")
}

/// What a token is.
#[derive(Debug)]
pub enum TokenKind {
    /// The name of a node.
    Name(String),
    /// The name of a binding, without its dollar sign.
    Ref(String),
    /// A number.
    Number(Double),
    /// `->`
    Arrow,
    /// `(`
    OpenParen,
    /// `)`
    CloseParen,
    /// `[`
    OpenBracket,
    /// `]`
    CloseBracket,
    /// `,`
    Comma,
    /// `;`
    Semicolon,
    /// The end of the text.
    End,
}

/// A token and the place where it starts.
#[derive(Debug)]
pub struct Token {
    /// What it is.
    pub kind: TokenKind,
    /// How many bytes come before it.
    pub at: usize,
}

/// What a token is, as a value.
pub enum Lexeme {
    /// The name of a node.
    Name(Seq<char>),
    /// The name of a binding.
    Ref(Seq<char>),
    /// A number.
    Number(Double),
    /// `->`
    Arrow,
    /// `(`
    OpenParen,
    /// `)`
    CloseParen,
    /// `[`
    OpenBracket,
    /// `]`
    CloseBracket,
    /// `,`
    Comma,
    /// `;`
    Semicolon,
    /// The end of the text.
    End,
}

/// A token, as a value.
pub struct Lexed {
    /// What it is.
    pub kind: Lexeme,
    /// How many bytes come before it.
    pub at: nat,
}

impl View for TokenKind {
    type V = Lexeme;

    open spec fn view(&self) -> Lexeme {
        match *self {
            TokenKind::Name(name) => Lexeme::Name(name@),
            TokenKind::Ref(name) => Lexeme::Ref(name@),
            TokenKind::Number(value) => Lexeme::Number(value),
            TokenKind::Arrow => Lexeme::Arrow,
            TokenKind::OpenParen => Lexeme::OpenParen,
            TokenKind::CloseParen => Lexeme::CloseParen,
            TokenKind::OpenBracket => Lexeme::OpenBracket,
            TokenKind::CloseBracket => Lexeme::CloseBracket,
            TokenKind::Comma => Lexeme::Comma,
            TokenKind::Semicolon => Lexeme::Semicolon,
            TokenKind::End => Lexeme::End,
        }
    }
}

impl View for Token {
    type V = Lexed;

    open spec fn view(&self) -> Lexed {
        Lexed { kind: self.kind@, at: self.at as nat }
    }
}

/// Some tokens, as values.
pub open spec fn lexed(tokens: Seq<Token>) -> Seq<Lexed> {
    tokens.map_values(|token: Token| token@)
}

/// A message and the place that it is about.
pub struct Fault {
    /// How many bytes come before the place.
    pub at: nat,
    /// The message.
    pub message: Seq<char>,
}

/// Whether a character has Unicode's `White_Space` property.
pub open spec fn is_space(c: char) -> bool {
    let code = c as u32;
    ||| 0x9 <= code <= 0xd
    ||| code == 0x20
    ||| code == 0x85
    ||| code == 0xa0
    ||| code == 0x1680
    ||| 0x2000 <= code <= 0x200a
    ||| code == 0x2028
    ||| code == 0x2029
    ||| code == 0x202f
    ||| code == 0x205f
    ||| code == 0x3000
}

/// Whether a character can start a name.
pub open spec fn starts_name(c: char) -> bool {
    'a' <= c <= 'z' || 'A' <= c <= 'Z' || c == '_'
}

/// Whether a character can go on with a name.
pub open spec fn in_name(c: char) -> bool {
    starts_name(c) || is_digit(c)
}

/// Whether a character can start a number.
pub open spec fn starts_number(c: char) -> bool {
    is_digit(c) || c == '.' || c == '-' || c == '+'
}

/// Whether a character can go on with a number.
pub open spec fn in_number(c: char) -> bool {
    starts_number(c) || c == 'e' || c == 'E'
}

/// Where the name that `from` is in ends.
pub open spec fn name_end(text: Seq<char>, from: nat) -> nat
    decreases text.len() - from,
{
    if from < text.len() && in_name(text[from as int]) {
        name_end(text, from + 1)
    } else {
        from
    }
}

/// Where the number that `from` is in ends.
pub open spec fn number_end(text: Seq<char>, from: nat) -> nat
    decreases text.len() - from,
{
    if from < text.len() && in_number(text[from as int]) {
        number_end(text, from + 1)
    } else {
        from
    }
}

/// Where the line that `from` is in ends.
pub open spec fn line_end(text: Seq<char>, from: nat) -> nat
    decreases text.len() - from,
{
    if from < text.len() && text[from as int] != '\n' {
        line_end(text, from + 1)
    } else {
        from
    }
}

/// The token that starts at a place and the place behind it, or what is wrong there.
pub open spec fn token_at(text: Seq<char>, at: nat) -> Result<(Lexeme, nat), Seq<char>> {
    let c = text[at as int];
    if c == '(' {
        Ok((Lexeme::OpenParen, at + 1))
    } else if c == ')' {
        Ok((Lexeme::CloseParen, at + 1))
    } else if c == '[' {
        Ok((Lexeme::OpenBracket, at + 1))
    } else if c == ']' {
        Ok((Lexeme::CloseBracket, at + 1))
    } else if c == ',' {
        Ok((Lexeme::Comma, at + 1))
    } else if c == ';' {
        Ok((Lexeme::Semicolon, at + 1))
    } else if c == '-' && at + 1 < text.len() && text[at as int + 1] == '>' {
        Ok((Lexeme::Arrow, at + 2))
    } else if c == '$' {
        let end = name_end(text, at + 1);
        if end == at + 1 || is_digit(text[at as int + 1]) {
            Err("expected identifier after $"@)
        } else {
            Ok((Lexeme::Ref(text.subrange(at as int + 1, end as int)), end))
        }
    } else if starts_name(c) {
        let end = name_end(text, at + 1);
        Ok((Lexeme::Name(text.subrange(at as int, end as int)), end))
    } else if starts_number(c) {
        let end = number_end(text, at + 1);
        let literal = text.subrange(at as int, end as int);
        match parsed(literal) {
            None => Err("invalid number "@ + quoted(literal)),
            Some(value) => if value.finite() {
                Ok((Lexeme::Number(value), end))
            } else {
                Err("number must be finite"@)
            },
        }
    } else {
        Err("unexpected character "@ + char_text(c))
    }
}

/// A text of plain characters, as Rust's `Debug` writes it.
pub open spec fn quoted(text: Seq<char>) -> Seq<char> {
    "\""@ + text + "\""@
}

/// A token ends behind its first character.
pub(crate) proof fn lemma_ends(text: Seq<char>, from: nat)
    requires
        from <= text.len(),
    ensures
        from <= name_end(text, from) <= text.len(),
        from <= number_end(text, from) <= text.len(),
        from <= line_end(text, from) <= text.len(),
    decreases text.len() - from,
{
    if from < text.len() {
        lemma_ends(text, from + 1);
    }
}

/// The tokens of a text from its character `at` on, the end among them, or the first
/// fault. Each is found by the bytes before it. Spaces
/// separate tokens, and a `#` starts a comment that goes on to the end of its line.
pub open spec fn tokens_from(text: Seq<char>, at: nat) -> Result<Seq<Lexed>, Fault>
    decreases text.len() - at,
    via tokens_from_ends
{
    if at >= text.len() {
        Ok(seq![Lexed { kind: Lexeme::End, at: encode_utf8(text).len() }])
    } else if is_space(text[at as int]) {
        tokens_from(text, at + 1)
    } else if text[at as int] == '#' {
        tokens_from(text, line_end(text, at + 1))
    } else {
        match token_at(text, at) {
            Err(message) => Err(Fault { at: bytes_before(text, at), message }),
            Ok((kind, end)) => match tokens_from(text, end) {
                Err(fault) => Err(fault),
                Ok(rest) => Ok(seq![Lexed { kind, at: bytes_before(text, at) }] + rest),
            },
        }
    }
}

#[via_fn]
proof fn tokens_from_ends(text: Seq<char>, at: nat) {
    if at < text.len() {
        lemma_ends(text, at + 1);
    }
}

/// Some tokens, and then others.
pub open spec fn followed_by(
    tokens: Seq<Lexed>,
    rest: Result<Seq<Lexed>, Fault>,
) -> Result<Seq<Lexed>, Fault> {
    match rest {
        Ok(rest) => Ok(tokens + rest),
        Err(fault) => Err(fault),
    }
}

/// Whether a character has Unicode's `White_Space` property.
fn is_whitespace(c: char) -> (r: bool)
    ensures
        r == is_space(c),
{
    let code: u32 = c as u32;
    (0x9 <= code && code <= 0xd) || code == 0x20 || code == 0x85 || code == 0xa0 || code == 0x1680
        || (0x2000 <= code && code <= 0x200a) || code == 0x2028 || code == 0x2029 || code == 0x202f
        || code == 0x205f || code == 0x3000
}

/// Whether a character can start a name.
fn can_start_name(c: char) -> (r: bool)
    ensures
        r == starts_name(c),
{
    ('a' <= c && c <= 'z') || ('A' <= c && c <= 'Z') || c == '_'
}

/// Whether a character can start a number.
fn can_start_number(c: char) -> (r: bool)
    ensures
        r == starts_number(c),
{
    ('0' <= c && c <= '9') || c == '.' || c == '-' || c == '+'
}

/// Finds where a name ends.
fn find_name_end(chars: &Vec<char>, from: usize) -> (end: usize)
    requires
        from <= chars@.len(),
    ensures
        end == name_end(chars@, from as nat),
        from <= end <= chars@.len(),
{
    let mut end: usize = from;
    while end < chars.len() && (can_start_name(chars[end]) || ('0' <= chars[end] && chars[end]
        <= '9'))
        invariant
            from <= end <= chars@.len(),
            name_end(chars@, from as nat) == name_end(chars@, end as nat),
        decreases chars@.len() - end,
    {
        end += 1;
    }
    end
}

/// Finds where a number ends.
fn find_number_end(chars: &Vec<char>, from: usize) -> (end: usize)
    requires
        from <= chars@.len(),
    ensures
        end == number_end(chars@, from as nat),
        from <= end <= chars@.len(),
{
    let mut end: usize = from;
    while end < chars.len() && (can_start_number(chars[end]) || chars[end] == 'e' || chars[end]
        == 'E')
        invariant
            from <= end <= chars@.len(),
            number_end(chars@, from as nat) == number_end(chars@, end as nat),
        decreases chars@.len() - end,
    {
        end += 1;
    }
    end
}

/// Finds where a line ends.
fn find_line_end(chars: &Vec<char>, from: usize) -> (end: usize)
    requires
        from <= chars@.len(),
    ensures
        end == line_end(chars@, from as nat),
        from <= end <= chars@.len(),
{
    let mut end: usize = from;
    while end < chars.len() && chars[end] != '\n'
        invariant
            from <= end <= chars@.len(),
            line_end(chars@, from as nat) == line_end(chars@, end as nat),
        decreases chars@.len() - end,
    {
        end += 1;
    }
    end
}

/// Reads the token that starts at a place.
fn read_token(chars: &Vec<char>, at: usize) -> (r: Result<(TokenKind, usize), String>)
    requires
        at < chars@.len(),
    ensures
        r matches Ok((kind, end)) ==> {
            &&& token_at(chars@, at as nat) == Ok::<(Lexeme, nat), Seq<char>>(
                (kind@, end as nat),
            )
            &&& at < end <= chars@.len()
        },
        r matches Err(message) ==> token_at(chars@, at as nat) == Err::<(Lexeme, nat), Seq<char>>(
            message@,
        ),
{
    let c: char = chars[at];
    let length: usize = chars.len();
    if c == '(' {
        Ok((TokenKind::OpenParen, at + 1))
    } else if c == ')' {
        Ok((TokenKind::CloseParen, at + 1))
    } else if c == '[' {
        Ok((TokenKind::OpenBracket, at + 1))
    } else if c == ']' {
        Ok((TokenKind::CloseBracket, at + 1))
    } else if c == ',' {
        Ok((TokenKind::Comma, at + 1))
    } else if c == ';' {
        Ok((TokenKind::Semicolon, at + 1))
    } else if c == '-' && at + 1 < length && chars[at + 1] == '>' {
        Ok((TokenKind::Arrow, at + 2))
    } else if c == '$' {
        let end: usize = find_name_end(chars, at + 1);
        if end == at + 1 || ('0' <= chars[at + 1] && chars[at + 1] <= '9') {
            Err("expected identifier after $".to_owned())
        } else {
            Ok((TokenKind::Ref(text_of(chars, at + 1, end)), end))
        }
    } else if can_start_name(c) {
        let end: usize = find_name_end(chars, at + 1);
        Ok((TokenKind::Name(text_of(chars, at, end)), end))
    } else if can_start_number(c) {
        let end: usize = find_number_end(chars, at + 1);
        let literal: String = text_of(chars, at, end);
        match parse_double(literal.as_str()) {
            None => Err(
                "invalid number ".to_owned().concat(quote(literal.as_str()).as_str()),
            ),
            Some(value) => {
                if value.is_finite() {
                    Ok((TokenKind::Number(value), end))
                } else {
                    Err("number must be finite".to_owned())
                }
            },
        }
    } else {
        Err("unexpected character ".to_owned().concat(char_to_text(c).as_str()))
    }
}

/// Puts a text of plain characters in double quotes.
pub(crate) fn quote(text: &str) -> (r: String)
    ensures
        r@ == quoted(text@),
{
    "\"".to_owned().concat(text).concat("\"")
}

/// Where a text is wrong, and why.
pub struct Problem {
    /// How many bytes come before the place.
    pub at: usize,
    /// The message.
    pub message: String,
}

impl View for Problem {
    type V = Fault;

    open spec fn view(&self) -> Fault {
        Fault { at: self.at as nat, message: self.message@ }
    }
}

/// Splits a text into tokens.
pub fn lex(source: &str) -> (r: Result<Vec<Token>, Problem>)
    ensures
        r matches Ok(tokens) ==> tokens_from(source@, 0) == Ok::<Seq<Lexed>, Fault>(
            lexed(tokens@),
        ),
        r matches Err(problem) ==> tokens_from(source@, 0) == Err::<Seq<Lexed>, Fault>(problem@),
        r matches Ok(tokens) ==> tokens@.len() > 0 && tokens@.last().kind == TokenKind::End,
{
    let chars: Vec<char> = characters(source);
    let length: usize = byte_length(source);
    let mut tokens: Vec<Token> = Vec::new();
    let mut at: usize = 0;
    let mut bytes: usize = 0;
    proof {
        lemma_bytes_ends(source@);
        assert(lexed(tokens@) =~= Seq::empty());
        if tokens_from(source@, 0).is_ok() {
            let all = tokens_from(source@, 0)->Ok_0;
            assert(Seq::empty() + all =~= all);
        }
    }
    while at < chars.len()
        invariant
            chars@ == source@,
            at <= chars@.len(),
            bytes == bytes_before(source@, at as nat),
            length == encode_utf8(source@).len(),
            followed_by(lexed(tokens@), tokens_from(source@, at as nat)) == tokens_from(source@, 0),
        decreases chars@.len() - at,
    {
        let c: char = chars[at];
        let end: usize;
        if is_whitespace(c) {
            end = at + 1;
        } else if c == '#' {
            end = find_line_end(&chars, at + 1);
        } else {
            match read_token(&chars, at) {
                Err(message) => {
                    return Err(Problem { at: bytes, message });
                },
                Ok((kind, behind)) => {
                    let ghost before = lexed(tokens@);
                    let ghost rest = tokens_from(source@, behind as nat);
                    tokens.push(Token { kind, at: bytes });
                    proof {
                        assert(lexed(tokens@) =~= before.push(tokens@.last()@));
                        if rest.is_ok() {
                            assert(before + (seq![tokens@.last()@] + rest->Ok_0) =~= lexed(tokens@)
                                + rest->Ok_0);
                        }
                    }
                    end = behind;
                },
            }
        }
        bytes = count_bytes(&chars, at, end, bytes);
        at = end;
    }
    let ghost before = lexed(tokens@);
    tokens.push(Token { kind: TokenKind::End, at: length });
    assert(lexed(tokens@) =~= before + seq![Lexed { kind: Lexeme::End, at: length as nat }]);
    Ok(tokens)
}

/// Whether a word can be a name.
pub open spec fn is_name(word: Seq<char>) -> bool {
    &&& word.len() > 0
    &&& starts_name(word[0])
    &&& forall|i: int| 0 <= i < word.len() ==> in_name(#[trigger] word[i])
}

/// Whether a token is one that a text can hold: its name is a name, its number finite.
pub open spec fn is_sound(kind: Lexeme) -> bool {
    match kind {
        Lexeme::Name(name) => is_name(name),
        Lexeme::Ref(name) => is_name(name),
        Lexeme::Number(value) => value.finite(),
        _ => true,
    }
}

/// Whether a token starts at a character that is neither space nor the start of a comment.
pub open spec fn starts_token(text: Seq<char>, at: nat, index: nat) -> bool {
    &&& index < text.len()
    &&& at == bytes_before(text, index)
    &&& !is_space(text[index as int])
    &&& text[index as int] != '#'
}

/// A name holds the characters of a name alone.
proof fn lemma_name_chars(text: Seq<char>, from: nat)
    requires
        from <= text.len(),
    ensures
        from <= name_end(text, from) <= text.len(),
        forall|i: int| from <= i < name_end(text, from) ==> in_name(#[trigger] text[i]),
    decreases text.len() - from,
{
    if from < text.len() && in_name(text[from as int]) {
        lemma_name_chars(text, from + 1);
    }
}

/// A token is sound, is not the end, and ends behind its first character.
proof fn lemma_token_is_sound(text: Seq<char>, at: nat)
    requires
        at < text.len(),
    ensures
        token_at(text, at) matches Ok((kind, end)) ==> is_sound(kind) && kind != Lexeme::End && at
            < end <= text.len(),
{
    lemma_ends(text, at + 1);
    lemma_name_chars(text, at + 1);
}

/// The tokens of a text: the last one and no other is the end, which has the whole text
/// before it; each starts behind the one before, at a character that is neither space nor
/// the start of a comment; names are names, and numbers are finite.
pub proof fn tokens_follow_each_other(text: Seq<char>, at: nat)
    requires
        at <= text.len(),
    ensures
        tokens_from(text, at) matches Ok(tokens) ==> {
            &&& tokens.len() > 0
            &&& tokens.last() == (Lexed { kind: Lexeme::End, at: encode_utf8(text).len() })
            &&& forall|i: int|
                0 <= i < tokens.len() - 1 ==> {
                    &&& (#[trigger] tokens[i]).kind != Lexeme::End
                    &&& is_sound(tokens[i].kind)
                    &&& exists|index: nat| starts_token(text, tokens[i].at, index)
                }
            &&& forall|i: int|
                0 <= i < tokens.len() ==> bytes_before(text, at) <= (#[trigger] tokens[i]).at
            &&& forall|i: int, j: int| 0 <= i < j < tokens.len() ==> tokens[i].at < tokens[j].at
        },
    decreases text.len() - at,
{
    lemma_bytes_ends(text);
    if at < text.len() {
        lemma_ends(text, at + 1);
        lemma_bytes_step(text, at);
        if is_space(text[at as int]) {
            tokens_follow_each_other(text, at + 1);
        } else if text[at as int] == '#' {
            let end = line_end(text, at + 1);
            lemma_bytes_increase(text, at, end);
            tokens_follow_each_other(text, end);
        } else {
            lemma_token_is_sound(text, at);
            if token_at(text, at) is Ok {
                let (kind, end) = token_at(text, at)->Ok_0;
                lemma_bytes_increase(text, at, end);
                tokens_follow_each_other(text, end);
                if tokens_from(text, end) is Ok {
                    let rest = tokens_from(text, end)->Ok_0;
                    let first = Lexed { kind, at: bytes_before(text, at) };
                    let tokens = seq![first] + rest;
                    assert(tokens_from(text, at) == Ok::<Seq<Lexed>, Fault>(tokens));
                    assert(tokens.last() == rest.last());
                    assert(starts_token(text, first.at, at));
                    assert forall|i: int| 0 <= i < tokens.len() - 1 implies {
                        &&& (#[trigger] tokens[i]).kind != Lexeme::End
                        &&& is_sound(tokens[i].kind)
                        &&& exists|index: nat| starts_token(text, tokens[i].at, index)
                    } by {
                        if i > 0 {
                            assert(tokens[i] == rest[i - 1]);
                        }
                    }
                    assert forall|i: int| 0 <= i < tokens.len() implies bytes_before(text, at) <= (
                    #[trigger] tokens[i]).at by {
                        if i > 0 {
                            assert(tokens[i] == rest[i - 1]);
                        }
                    }
                    assert forall|i: int, j: int| 0 <= i < j < tokens.len() implies tokens[i].at
                        < tokens[j].at by {
                        assert(tokens[j] == rest[j - 1]);
                        assert(bytes_before(text, end) <= rest[j - 1].at);
                        if i > 0 {
                            assert(tokens[i] == rest[i - 1]);
                        }
                    }
                }
            }
        }
    } else {
        lemma_bytes_increase(text, at, text.len());
    }
}

} // verus!
