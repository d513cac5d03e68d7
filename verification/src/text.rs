//! Character-level helpers on `str` and `String`, stated over their `Seq<char>` views.

use vstd::prelude::*;
use vstd::string::{StrSliceExecFns, StringExecFns};
use vstd::utf8::{encode_utf8, valid_utf8};

verus! {

/// `String::push`: appends one character.
#[verifier::external_body]
pub(crate) fn push_char(text: &mut String, c: char)
    ensures
        final(text)@ == old(text)@.push(c),
{
    text.push(c);
}

/// Appends the characters of `tail`.
pub(crate) fn push_text(text: &mut String, tail: &str)
    ensures
        final(text)@ == old(text)@ + tail@,
{
    text.append(tail);
}

/// `std::str::from_utf8`, owned: the text whose UTF-8 encoding is `bytes`, or `None`
/// where `bytes` is not valid UTF-8.
#[verifier::external_body]
pub(crate) fn utf8_text(bytes: &[u8]) -> (text: Option<String>)
    ensures
        text is Some <==> valid_utf8(bytes@),
        text matches Some(t) ==> encode_utf8(t@) == bytes@,
{
    match std::str::from_utf8(bytes) {
        Ok(t) => Some(t.to_owned()),
        Err(_) => None,
    }
}

/// The characters of `text`, in order.
pub fn chars_of(text: &str) -> (chars: Vec<char>)
    ensures
        chars@ == text@,
{
    let mut chars: Vec<char> = Vec::new();
    let n = text.unicode_len();
    let mut i: usize = 0;
    while i < n
        invariant
            n == text@.len(),
            i <= n,
            chars@ == text@.subrange(0, i as int),
        decreases n - i,
    {
        chars.push(text.get_char(i));
        i = i + 1;
        assert(chars@ =~= text@.subrange(0, i as int));
    }
    assert(text@.subrange(0, i as int) =~= text@);
    chars
}

/// A string made of `chars`, in order.
pub fn string_of(chars: &Vec<char>) -> (text: String)
    ensures
        text@ == chars@,
{
    let mut text = String::new();
    let mut i: usize = 0;
    while i < chars.len()
        invariant
            i <= chars@.len(),
            text@ == chars@.subrange(0, i as int),
        decreases chars@.len() - i,
    {
        push_char(&mut text, chars[i]);
        i = i + 1;
        assert(text@ =~= chars@.subrange(0, i as int));
    }
    assert(chars@.subrange(0, i as int) =~= chars@);
    text
}

/// Whether `text` is exactly `literal`.
pub fn text_is(text: &str, literal: &str) -> (same: bool)
    ensures
        same == (text@ == literal@),
{
    text.to_owned() == literal.to_owned()
}

/// Whether `text` holds `c`.
pub fn text_contains(text: &str, c: char) -> (found: bool)
    ensures
        found == text@.contains(c),
{
    let chars = chars_of(text);
    let mut i: usize = 0;
    while i < chars.len()
        invariant
            chars@ == text@,
            i <= chars@.len(),
            forall|j: int| 0 <= j < i ==> chars@[j] != c,
        decreases chars@.len() - i,
    {
        if chars[i] == c {
            assert(text@[i as int] == c);
            return true;
        }
        i = i + 1;
    }
    false
}

/// The character of decimal digit `d`.
pub open spec fn digit_char(d: int) -> char {
    (d + 48) as char
}

/// The decimal digits of `n`, most significant first.
pub open spec fn decimal(n: nat) -> Seq<char>
    decreases n,
{
    if n < 10 {
        seq![digit_char(n as int)]
    } else {
        decimal(n / 10).push(digit_char((n % 10) as int))
    }
}

pub fn push_decimal(out: &mut String, n: u64)
    ensures
        final(out)@ == old(out)@ + decimal(n as nat),
    decreases n,
{
    if n < 10 {
        let d: u8 = n as u8;
        push_char(out, (d + 48) as char);
    } else {
        push_decimal(out, n / 10);
        let d: u8 = (n % 10) as u8;
        push_char(out, (d + 48) as char);
    }
}

/// `text` without `prefix`, when it starts with it.
pub open spec fn stripped(text: Seq<char>, prefix: Seq<char>) -> Option<Seq<char>> {
    if prefix.len() <= text.len() && text.subrange(0, prefix.len() as int) == prefix {
        Some(text.subrange(prefix.len() as int, text.len() as int))
    } else {
        None
    }
}

/// `str::strip_prefix`, proved against [`stripped`].
pub fn strip_prefix<'a>(text: &'a str, prefix: &str) -> (rest: Option<&'a str>)
    ensures
        match rest {
            Some(r) => stripped(text@, prefix@) == Some(r@),
            None => stripped(text@, prefix@) is None,
        },
{
    let chars = chars_of(text);
    let head = chars_of(prefix);
    if head.len() > chars.len() {
        return None;
    }
    let mut i: usize = 0;
    while i < head.len()
        invariant
            chars@ == text@,
            head@ == prefix@,
            head@.len() <= chars@.len(),
            i <= head@.len(),
            forall|j: int| 0 <= j < i ==> chars@[j] == head@[j],
        decreases head@.len() - i,
    {
        if chars[i] != head[i] {
            assert(text@.subrange(0, prefix@.len() as int)[i as int] != prefix@[i as int]);
            return None;
        }
        i = i + 1;
    }
    assert(text@.subrange(0, prefix@.len() as int) =~= prefix@);
    Some(text.substring_char(head.len(), chars.len()))
}

/// The number that decimal digits stand for, most significant first.
pub open spec fn digits_value(digits: Seq<char>) -> int
    decreases digits.len(),
{
    if digits.len() == 0 {
        0
    } else {
        digits_value(digits.drop_last()) * 10 + (digits.last() as int - '0' as int)
    }
}

/// Decimal text reads back as the number it was written for: only the digits `0` to
/// `9`, no leading zero but in `0` itself, and the value of the digits is the number.
pub proof fn law_decimal_reads_back(n: nat)
    ensures
        decimal(n).len() >= 1,
        forall|i: int| 0 <= i < decimal(n).len() ==> '0' <= #[trigger] decimal(n)[i] && decimal(n)[i] <= '9',
        decimal(n)[0] == '0' ==> n == 0,
        digits_value(decimal(n)) == n,
    decreases n,
{
    if n >= 10 {
        let q = n / 10;
        let r = n % 10;
        law_decimal_reads_back(q);
        let d = decimal(n);
        assert(d == decimal(q).push(digit_char(r as int)));
        assert(d.drop_last() =~= decimal(q));
        assert(d[0] == decimal(q)[0]);
        assert(q > 0);
        assert(digit_char(r as int) as int == r + 48);
        assert(d.last() == digit_char(r as int));
        assert(digits_value(d) == digits_value(decimal(q)) * 10 + (d.last() as int - '0' as int));
        assert(n == q * 10 + r);
    } else {
        let d = seq![digit_char(n as int)];
        assert(digit_char(n as int) as int == n + 48);
        assert(d.drop_last() =~= Seq::<char>::empty());
        assert(digits_value(d.drop_last()) == 0);
        assert(d.last() == digit_char(n as int));
        assert(digits_value(d) == 0 * 10 + (d.last() as int - '0' as int));
    }
}

} // verus!
