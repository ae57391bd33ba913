//! Text built piece by piece.
use vstd::prelude::*;
use vstd::utf8::{encode_scalar, encode_utf8};

verus! {

/// `String::push` adds one character at the end.
pub assume_specification[ String::push ](text: &mut String, c: char)
    ensures
        final(text)@ == old(text)@.push(c),
;

/// The `Debug` text of a text, as Rust writes it.
pub uninterp spec fn debug_text(text: Seq<char>) -> Seq<char>;

/// `str`'s `Debug` shows the text in double quotes, escaped where Rust escapes it; it is
/// only said to depend on the text alone.
#[verifier::external_body]
pub(crate) fn to_debug_text(text: &str) -> (r: String)
    ensures
        r@ == debug_text(text@),
{
    format!("{text:?}")
}

/// The digit for a value below ten.
pub open spec fn digit(value: nat) -> char {
    if value == 0 {
        '0'
    } else if value == 1 {
        '1'
    } else if value == 2 {
        '2'
    } else if value == 3 {
        '3'
    } else if value == 4 {
        '4'
    } else if value == 5 {
        '5'
    } else if value == 6 {
        '6'
    } else if value == 7 {
        '7'
    } else if value == 8 {
        '8'
    } else {
        '9'
    }
}

/// A number in decimal digits, without leading zeros.
pub open spec fn decimal(value: nat) -> Seq<char>
    decreases value,
{
    if value < 10 {
        seq![digit(value)]
    } else {
        decimal(value / 10).push(digit(value % 10))
    }
}

/// The digit for a value below ten.
pub fn digit_char(value: u64) -> (c: char)
    requires
        value < 10,
    ensures
        c == digit(value as nat),
{
    if value == 0 {
        '0'
    } else if value == 1 {
        '1'
    } else if value == 2 {
        '2'
    } else if value == 3 {
        '3'
    } else if value == 4 {
        '4'
    } else if value == 5 {
        '5'
    } else if value == 6 {
        '6'
    } else if value == 7 {
        '7'
    } else if value == 8 {
        '8'
    } else {
        '9'
    }
}

/// Writes a number in decimal digits.
pub fn decimal_text(value: u64) -> (text: String)
    ensures
        text@ == decimal(value as nat),
    decreases value,
{
    if value < 10 {
        let mut text: String = String::new();
        text.push(digit_char(value));
        assert(text@ =~= seq![digit(value as nat)]);
        text
    } else {
        let mut text: String = decimal_text(value / 10);
        text.push(digit_char(value % 10));
        text
    }
}

/// Whether two texts are the same.
pub fn same_text(a: &str, b: &str) -> (r: bool)
    ensures
        r == (a@ == b@),
{
    a.to_owned() == b.to_owned()
}

/// The characters of a text, in order.
pub fn characters(text: &str) -> (chars: Vec<char>)
    ensures
        chars@ == text@,
{
    let mut chars: Vec<char> = Vec::new();
    for c in iter: text.chars()
        invariant
            chars@ == text@.take(iter.index@),
            iter.seq() == text@,
    {
        chars.push(c);
    }
    chars
}

/// The text of a run of characters.
pub fn text_of(chars: &Vec<char>, from: usize, to: usize) -> (text: String)
    requires
        from <= to <= chars@.len(),
    ensures
        text@ == chars@.subrange(from as int, to as int),
{
    let mut text: String = String::new();
    let mut next: usize = from;
    assert(text@ =~= chars@.subrange(from as int, from as int));
    while next < to
        invariant
            from <= next <= to <= chars@.len(),
            text@ == chars@.subrange(from as int, next as int),
        decreases to - next,
    {
        text.push(chars[next]);
        assert(text@ =~= chars@.subrange(from as int, next + 1));
        next += 1;
    }
    text
}

/// How many bytes the characters before a place take.
pub open spec fn bytes_before(text: Seq<char>, index: nat) -> nat {
    encode_utf8(text.take(index as int)).len()
}

/// Encoding goes character by character.
proof fn lemma_encode_push(text: Seq<char>, c: char)
    ensures
        encode_utf8(text.push(c)) == encode_utf8(text) + encode_scalar(c as u32),
    decreases text.len(),
{
    if text.len() == 0 {
        assert(text.push(c).drop_first() =~= Seq::<char>::empty());
        assert(encode_utf8(Seq::<char>::empty()) =~= Seq::<u8>::empty());
        assert(encode_utf8(text) =~= Seq::<u8>::empty());
        assert(encode_utf8(text.push(c)) =~= encode_utf8(text) + encode_scalar(c as u32));
    } else {
        lemma_encode_push(text.drop_first(), c);
        assert(text.push(c).drop_first() =~= text.drop_first().push(c));
        assert(encode_utf8(text.push(c)) =~= encode_utf8(text) + encode_scalar(c as u32));
    }
}

/// A character more takes the bytes of the character more.
pub proof fn lemma_bytes_step(text: Seq<char>, index: nat)
    requires
        index < text.len(),
    ensures
        bytes_before(text, index + 1) == bytes_before(text, index) + encode_scalar(
            text[index as int] as u32,
        ).len(),
        bytes_before(text, index) < bytes_before(text, index + 1),
{
    assert(text.take(index as int + 1) =~= text.take(index as int).push(text[index as int]));
    lemma_encode_push(text.take(index as int), text[index as int]);
}

/// Later places have more bytes before them.
pub proof fn lemma_bytes_increase(text: Seq<char>, from: nat, to: nat)
    requires
        from <= to <= text.len(),
    ensures
        bytes_before(text, from) <= bytes_before(text, to),
        from < to ==> bytes_before(text, from) < bytes_before(text, to),
    decreases to - from,
{
    if from < to {
        lemma_bytes_step(text, from);
        lemma_bytes_increase(text, from + 1, to);
    }
}

/// Before the end there are all the bytes, and before the start there are none.
pub proof fn lemma_bytes_ends(text: Seq<char>)
    ensures
        bytes_before(text, 0) == 0,
        bytes_before(text, text.len()) == encode_utf8(text).len(),
{
    assert(text.take(0) =~= Seq::<char>::empty());
    assert(text.take(text.len() as int) =~= text);
}

/// How many bytes a character takes.
pub fn width(c: char) -> (bytes: usize)
    ensures
        bytes == encode_scalar(c as u32).len(),
        1 <= bytes <= 4,
{
    let code: u32 = c as u32;
    if code <= 0x7f {
        1
    } else if code <= 0x7ff {
        2
    } else if code <= 0xffff {
        3
    } else {
        4
    }
}

/// How many bytes a text takes.
pub fn byte_length(text: &str) -> (bytes: usize)
    ensures
        bytes == encode_utf8(text@).len(),
{
    text.as_bytes().len()
}

/// Counts the bytes before `to`, given those before `from`.
pub fn count_bytes(chars: &Vec<char>, from: usize, to: usize, start: usize) -> (bytes: usize)
    requires
        from <= to <= chars@.len(),
        start == bytes_before(chars@, from as nat),
        encode_utf8(chars@).len() <= usize::MAX,
    ensures
        bytes == bytes_before(chars@, to as nat),
{
    let mut bytes: usize = start;
    let mut next: usize = from;
    proof {
        lemma_bytes_ends(chars@);
    }
    while next < to
        invariant
            from <= next <= to <= chars@.len(),
            bytes == bytes_before(chars@, next as nat),
            bytes_before(chars@, chars@.len()) <= usize::MAX,
        decreases to - next,
    {
        proof {
            lemma_bytes_step(chars@, next as nat);
            lemma_bytes_increase(chars@, (next + 1) as nat, chars@.len());
        }
        bytes += width(chars[next]);
        next += 1;
    }
    bytes
}

} // verus!
