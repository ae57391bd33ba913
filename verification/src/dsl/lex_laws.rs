//! What single tokens look like, and what stands between them.
use crate::dsl::lex::{line_end, Lexeme};
use crate::dsl::spelling::{
    lemma_written_name, lemma_written_number, lemma_written_ref, lemma_written_step,
    looks_like_number, written,
};
use crate::ieee::decimal::parsed;
use crate::ieee::decimal_laws::{sign_text, Numeral};
use vstd::prelude::*;

verus! {

/// Whether a character is a letter of the English alphabet or an underscore.
pub open spec fn is_letter(c: char) -> bool {
    'a' <= c <= 'z' || 'A' <= c <= 'Z' || c == '_'
}

/// Whether a word is made of letters and, behind the first, of digits.
pub open spec fn is_word(word: Seq<char>) -> bool {
    &&& word.len() > 0
    &&& is_letter(word[0])
    &&& forall|i: int|
        0 <= i < word.len() ==> is_letter(#[trigger] word[i]) || '0' <= word[i] <= '9'
}

/// A word is the name of a node, and behind a dollar sign the name of a binding.
pub proof fn a_word_is_a_name(word: Seq<char>)
    requires
        is_word(word),
    ensures
        written(word) == Some(seq![Lexeme::Name(word), Lexeme::End]),
        written(seq!['$'] + word) == Some(seq![Lexeme::Ref(word), Lexeme::End]),
{
    lemma_written_name(word);
    lemma_written_ref(word);
}

/// A number in decimal is a token with the value that it is read as; it is refused where
/// that is not finite.
pub proof fn a_numeral_is_a_number(number: Numeral)
    requires
        number.wf(),
        parsed(number.text()).is_some(),
    ensures
        ({
            let value = parsed(number.text()).unwrap();
            written(number.text()) == if value.finite() {
                Some(seq![Lexeme::Number(value), Lexeme::End])
            } else {
                None
            }
        }),
{
    let text = number.text();
    let a = sign_text(number.sign).len();
    let b = a + number.whole.len();
    let c = b + number.part_text().len();
    assert forall|i: int| 0 <= i < text.len() implies crate::dsl::lex::in_number(
        #[trigger] text[i],
    ) && (i == 0 ==> crate::dsl::lex::starts_number(text[i])) by {
        if i < a {
            assert(text[i] == sign_text(number.sign)[i]);
        } else if i < b {
            assert(text[i] == number.whole[i - a]);
        } else if i < c {
            assert(text[i] == number.part_text()[i - b]);
            if i > b {
                assert(number.part_text()[i - b] == number.behind()[i - b - 1]);
            }
        } else {
            assert(text[i] == number.power_text()[i - c]);
            let (_, sign, digits) = number.power.unwrap();
            let s = sign_text(sign).len();
            if i - c > s {
                assert(number.power_text()[i - c] == digits[i - c - 1 - s]);
            } else if i > c {
                assert(number.power_text()[i - c] == sign_text(sign)[i - c - 1]);
            }
        }
    }
    assert(looks_like_number(text));
    lemma_written_number(text);
}

/// One character that is a token.
proof fn lemma_mark(c: char, kind: Lexeme)
    requires
        (c == '(' && kind == Lexeme::OpenParen) || (c == ')' && kind == Lexeme::CloseParen) || (c
            == '[' && kind == Lexeme::OpenBracket) || (c == ']' && kind == Lexeme::CloseBracket)
            || (c == ',' && kind == Lexeme::Comma) || (c == ';' && kind == Lexeme::Semicolon),
    ensures
        written(seq![c]) == Some(seq![kind, Lexeme::End]),
{
    lemma_written_step(seq![c], 0);
    lemma_written_step(seq![c], 1);
    assert(seq![kind] + seq![Lexeme::End] =~= seq![kind, Lexeme::End]);
}

/// Every mark is its own token.
pub proof fn marks_are_tokens()
    ensures
        written(seq!['(']) == Some(seq![Lexeme::OpenParen, Lexeme::End]),
        written(seq![')']) == Some(seq![Lexeme::CloseParen, Lexeme::End]),
        written(seq!['[']) == Some(seq![Lexeme::OpenBracket, Lexeme::End]),
        written(seq![']']) == Some(seq![Lexeme::CloseBracket, Lexeme::End]),
        written(seq![',']) == Some(seq![Lexeme::Comma, Lexeme::End]),
        written(seq![';']) == Some(seq![Lexeme::Semicolon, Lexeme::End]),
        written(seq!['-', '>']) == Some(seq![Lexeme::Arrow, Lexeme::End]),
{
    lemma_mark('(', Lexeme::OpenParen);
    lemma_mark(')', Lexeme::CloseParen);
    lemma_mark('[', Lexeme::OpenBracket);
    lemma_mark(']', Lexeme::CloseBracket);
    lemma_mark(',', Lexeme::Comma);
    lemma_mark(';', Lexeme::Semicolon);
    let arrow = seq!['-', '>'];
    lemma_written_step(arrow, 0);
    lemma_written_step(arrow, 2);
    assert(seq![Lexeme::Arrow] + seq![Lexeme::End] =~= seq![Lexeme::Arrow, Lexeme::End]);
}

/// Nothing, spaces, tabs and line breaks are no tokens.
pub proof fn spaces_are_no_tokens(text: Seq<char>)
    requires
        forall|i: int|
            0 <= i < text.len() ==> #[trigger] text[i] == ' ' || text[i] == '\t' || text[i] == '\n'
                || text[i] == '\r',
    ensures
        written(text) == Some(seq![Lexeme::End]),
{
    lemma_spaces(text, 0);
}

/// Spaces from a place on.
proof fn lemma_spaces(text: Seq<char>, at: nat)
    requires
        at <= text.len(),
        forall|i: int|
            0 <= i < text.len() ==> #[trigger] text[i] == ' ' || text[i] == '\t' || text[i] == '\n'
                || text[i] == '\r',
    ensures
        crate::dsl::spelling::written_from(text, at) == Some(seq![Lexeme::End]),
    decreases text.len() - at,
{
    lemma_written_step(text, at);
    if at < text.len() {
        assert(crate::dsl::lex::is_space(text[at as int]));
        lemma_spaces(text, at + 1);
    }
}

/// A comment goes on to the end of its line.
proof fn lemma_line_end(text: Seq<char>, from: nat, to: nat)
    requires
        from <= to < text.len(),
        text[to as int] == '\n',
        forall|i: int| from <= i < to ==> #[trigger] text[i] != '\n',
    ensures
        line_end(text, from) == to,
    decreases to - from,
{
    if from < to {
        lemma_line_end(text, from + 1, to);
    }
}

/// A comment, from its sign to the end of its line, is no token, whatever it says.
pub proof fn comments_are_no_tokens(comment: Seq<char>)
    requires
        forall|i: int| 0 <= i < comment.len() ==> #[trigger] comment[i] != '\n',
    ensures
        written(seq!['#'] + comment + seq!['\n']) == Some(seq![Lexeme::End]),
{
    let text = seq!['#'] + comment + seq!['\n'];
    let end = comment.len() + 1;
    assert forall|i: int| 1 <= i < end implies #[trigger] text[i] != '\n' by {
        assert(text[i] == comment[i - 1]);
    }
    lemma_line_end(text, 1, end);
    lemma_written_step(text, 0);
    lemma_written_step(text, end);
    lemma_written_step(text, end + 1);
}

} // verus!
