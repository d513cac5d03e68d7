//! Canonical UUID text: lowercase, 128 bits, hyphenated.

use vstd::prelude::*;

use crate::text::{chars_of, string_of};

verus! {

/// An ASCII hexadecimal digit, in either case.
pub open spec fn is_hex_digit(c: char) -> bool {
    ('0' <= c && c <= '9') || ('a' <= c && c <= 'f') || ('A' <= c && c <= 'F')
}

/// `c` with an ASCII capital turned into its small letter.
pub open spec fn ascii_lower(c: char) -> char {
    if 'A' <= c && c <= 'Z' {
        ((c as u32) + 32) as char
    } else {
        c
    }
}

/// Every character is a hexadecimal digit.
pub open spec fn all_hex(digits: Seq<char>) -> bool {
    forall|i: int| 0 <= i < digits.len() ==> is_hex_digit(#[trigger] digits[i])
}

/// The characters of `value` other than hyphens, in order.
pub open spec fn without_hyphens(value: Seq<char>) -> Seq<char>
    decreases value.len(),
{
    if value.len() == 0 {
        Seq::empty()
    } else if value.last() == '-' {
        without_hyphens(value.drop_last())
    } else {
        without_hyphens(value.drop_last()).push(value.last())
    }
}

/// Each character of `value`, lowercased.
pub open spec fn lowered(value: Seq<char>) -> Seq<char> {
    Seq::new(value.len(), |i: int| ascii_lower(value[i]))
}

/// The tail that the Bluetooth base UUID adds after a 32-bit value.
pub open spec fn base_tail() -> Seq<char> {
    seq!['0', '0', '0', '0', '1', '0', '0', '0', '8', '0', '0', '0', '0', '0', '8', '0', '5', 'f', '9', 'b', '3', '4', 'f', 'b']
}

/// 32 digits in the 8-4-4-4-12 layout.
pub open spec fn hyphenated(full: Seq<char>) -> Seq<char> {
    full.subrange(0, 8) + seq!['-'] + full.subrange(8, 12) + seq!['-'] + full.subrange(12, 16)
        + seq!['-'] + full.subrange(16, 20) + seq!['-'] + full.subrange(20, 32)
}

/// The canonical form of `value`, or `None` when it is no 16-, 32- or 128-bit UUID.
pub open spec fn normalized_uuid(value: Seq<char>) -> Option<Seq<char>> {
    let digits = lowered(without_hyphens(value));
    if !all_hex(digits) {
        None
    } else if digits.len() == 4 {
        Some(hyphenated(seq!['0', '0', '0', '0'] + digits + base_tail()))
    } else if digits.len() == 8 {
        Some(hyphenated(digits + base_tail()))
    } else if digits.len() == 32 {
        Some(hyphenated(digits))
    } else {
        None
    }
}

fn to_ascii_lower(c: char) -> (lower: char)
    ensures
        lower == ascii_lower(c),
{
    if 'A' <= c && c <= 'Z' {
        let code: u8 = (c as u32) as u8;
        (code + 32) as char
    } else {
        c
    }
}

fn is_hex(c: char) -> (hex: bool)
    ensures
        hex == is_hex_digit(c),
{
    ('0' <= c && c <= '9') || ('a' <= c && c <= 'f') || ('A' <= c && c <= 'F')
}

/// The lowercased characters of `value` other than hyphens.
fn uuid_digits(value: &str) -> (digits: Vec<char>)
    ensures
        digits@ == lowered(without_hyphens(value@)),
{
    let chars = chars_of(value);
    let mut digits: Vec<char> = Vec::new();
    let mut i: usize = 0;
    while i < chars.len()
        invariant
            chars@ == value@,
            i <= chars@.len(),
            digits@ == lowered(without_hyphens(chars@.subrange(0, i as int))),
        decreases chars@.len() - i,
    {
        let ghost prefix = chars@.subrange(0, i + 1);
        assert(prefix.drop_last() =~= chars@.subrange(0, i as int));
        let c = chars[i];
        if c != '-' {
            let ghost before = digits@;
            digits.push(to_ascii_lower(c));
            assert(digits@ =~= lowered(without_hyphens(prefix)));
        } else {
            assert(without_hyphens(prefix) == without_hyphens(chars@.subrange(0, i as int)));
        }
        i = i + 1;
    }
    assert(chars@.subrange(0, i as int) =~= chars@);
    digits
}

fn append_range(out: &mut Vec<char>, from: &Vec<char>, start: usize, end: usize)
    requires
        start <= end <= from@.len(),
    ensures
        final(out)@ == old(out)@ + from@.subrange(start as int, end as int),
{
    let mut i = start;
    while i < end
        invariant
            start <= i <= end,
            end <= from@.len(),
            out@ == old(out)@ + from@.subrange(start as int, i as int),
        decreases end - i,
    {
        out.push(from[i]);
        i = i + 1;
        assert(out@ =~= old(out)@ + from@.subrange(start as int, i as int));
    }
}

fn all_hex_digits(digits: &Vec<char>) -> (hex: bool)
    ensures
        hex == all_hex(digits@),
{
    let mut i: usize = 0;
    while i < digits.len()
        invariant
            i <= digits@.len(),
            forall|j: int| 0 <= j < i ==> is_hex_digit(#[trigger] digits@[j]),
        decreases digits@.len() - i,
    {
        if !is_hex(digits[i]) {
            return false;
        }
        i = i + 1;
    }
    true
}

/// Returns `value` as a lowercase 128-bit UUID with hyphens.
///
/// A 16-bit or 32-bit UUID is expanded with the Bluetooth base UUID. Hyphens in
/// the input are ignored. Returns `None` for anything else.
pub fn normalize_uuid(value: &str) -> (normalized: Option<String>)
    ensures
        match normalized {
            Some(text) => normalized_uuid(value@) == Some(text@),
            None => normalized_uuid(value@) is None,
        },
{
    let digits = uuid_digits(value);
    if !all_hex_digits(&digits) {
        return None;
    }
    let mut full: Vec<char> = Vec::new();
    if digits.len() == 4 {
        full.push('0');
        full.push('0');
        full.push('0');
        full.push('0');
        append_range(&mut full, &digits, 0, 4);
    } else if digits.len() == 8 {
        append_range(&mut full, &digits, 0, 8);
    } else if digits.len() == 32 {
        append_range(&mut full, &digits, 0, 32);
    } else {
        return None;
    }
    assert(digits@.subrange(0, digits@.len() as int) =~= digits@);
    if digits.len() != 32 {
        let tail = vec![
            '0', '0', '0', '0', '1', '0', '0', '0', '8', '0', '0', '0', '0', '0', '8', '0', '5',
            'f', '9', 'b', '3', '4', 'f', 'b',
        ];
        append_range(&mut full, &tail, 0, 24);
        assert(tail@.subrange(0, 24) =~= base_tail());
    }
    let ghost whole = full@;
    assert(digits@.len() == 4 ==> whole =~= seq!['0', '0', '0', '0'] + digits@ + base_tail());
    assert(digits@.len() == 8 ==> whole =~= digits@ + base_tail());
    Some(hyphenated_text(&full))
}

/// The text of 32 digits in the 8-4-4-4-12 layout.
pub fn hyphenated_text(full: &Vec<char>) -> (text: String)
    requires
        full@.len() == 32,
    ensures
        text@ == hyphenated(full@),
{
    let mut out: Vec<char> = Vec::new();
    append_range(&mut out, full, 0, 8);
    out.push('-');
    append_range(&mut out, full, 8, 12);
    out.push('-');
    append_range(&mut out, full, 12, 16);
    out.push('-');
    append_range(&mut out, full, 16, 20);
    out.push('-');
    append_range(&mut out, full, 20, 32);
    assert(out@ =~= hyphenated(full@));
    string_of(&out)
}

/// The characters of `value` other than hyphens.
pub fn digits_without_hyphens(value: &str) -> (digits: Vec<char>)
    ensures
        digits@ == without_hyphens(value@),
{
    let chars = chars_of(value);
    let mut digits: Vec<char> = Vec::new();
    let mut i: usize = 0;
    while i < chars.len()
        invariant
            chars@ == value@,
            i <= chars@.len(),
            digits@ == without_hyphens(chars@.subrange(0, i as int)),
        decreases chars@.len() - i,
    {
        let ghost prefix = chars@.subrange(0, i + 1);
        assert(prefix.drop_last() =~= chars@.subrange(0, i as int));
        if chars[i] != '-' {
            digits.push(chars[i]);
        }
        i = i + 1;
    }
    assert(chars@.subrange(0, i as int) =~= chars@);
    digits
}

/// A digit of canonical UUID text: `0`-`9` or `a`-`f`.
pub open spec fn is_lower_hex(c: char) -> bool {
    ('0' <= c && c <= '9') || ('a' <= c && c <= 'f')
}

proof fn lemma_without_hyphens_concat(a: Seq<char>, b: Seq<char>)
    ensures
        without_hyphens(a + b) == without_hyphens(a) + without_hyphens(b),
    decreases b.len(),
{
    if b.len() == 0 {
        assert(a + b =~= a);
        assert(without_hyphens(a) + without_hyphens(b) =~= without_hyphens(a));
    } else {
        lemma_without_hyphens_concat(a, b.drop_last());
        assert((a + b).drop_last() =~= a + b.drop_last());
        assert((a + b).last() == b.last());
        if b.last() == '-' {
        } else {
            assert(without_hyphens(a) + without_hyphens(b.drop_last()).push(b.last()) =~= (
            without_hyphens(a) + without_hyphens(b.drop_last())).push(b.last()));
        }
    }
}

proof fn lemma_without_hyphens_of_digits(a: Seq<char>)
    requires
        forall|i: int| 0 <= i < a.len() ==> is_lower_hex(#[trigger] a[i]),
    ensures
        without_hyphens(a) == a,
    decreases a.len(),
{
    if a.len() > 0 {
        lemma_without_hyphens_of_digits(a.drop_last());
        assert(is_lower_hex(a[a.len() - 1]));
        assert(a.drop_last().push(a.last()) =~= a);
    }
}

proof fn lemma_hyphenated_digits(full: Seq<char>)
    requires
        full.len() == 32,
        forall|i: int| 0 <= i < full.len() ==> is_lower_hex(#[trigger] full[i]),
    ensures
        without_hyphens(hyphenated(full)) == full,
{
    let a = full.subrange(0, 8);
    let b = full.subrange(8, 12);
    let c = full.subrange(12, 16);
    let d = full.subrange(16, 20);
    let e = full.subrange(20, 32);
    let h = seq!['-'];
    assert(without_hyphens(h) =~= Seq::<char>::empty()) by {
        assert(h.drop_last() =~= Seq::<char>::empty());
        reveal_with_fuel(without_hyphens, 2);
    }
    lemma_without_hyphens_of_digits(a);
    lemma_without_hyphens_of_digits(b);
    lemma_without_hyphens_of_digits(c);
    lemma_without_hyphens_of_digits(d);
    lemma_without_hyphens_of_digits(e);
    lemma_without_hyphens_concat(a, h);
    lemma_without_hyphens_concat(a + h, b);
    lemma_without_hyphens_concat(a + h + b, h);
    lemma_without_hyphens_concat(a + h + b + h, c);
    lemma_without_hyphens_concat(a + h + b + h + c, h);
    lemma_without_hyphens_concat(a + h + b + h + c + h, d);
    lemma_without_hyphens_concat(a + h + b + h + c + h + d, h);
    lemma_without_hyphens_concat(a + h + b + h + c + h + d + h, e);
    assert(a + b + c + d + e =~= full);
    assert(a + Seq::<char>::empty() + b + Seq::<char>::empty() + c + Seq::<char>::empty() + d
        + Seq::<char>::empty() + e =~= full);
}

/// The 32 digits that canonical text is made of, when `value` has one.
proof fn lemma_normalized_digits(value: Seq<char>) -> (full: Seq<char>)
    requires
        normalized_uuid(value) is Some,
    ensures
        full.len() == 32,
        forall|i: int| 0 <= i < full.len() ==> is_lower_hex(#[trigger] full[i]),
        normalized_uuid(value) == Some(hyphenated(full)),
        lowered(without_hyphens(value)).len() == 4 ==> full == seq!['0', '0', '0', '0'] + lowered(
            without_hyphens(value),
        ) + base_tail(),
        lowered(without_hyphens(value)).len() == 8 ==> full == lowered(without_hyphens(value))
            + base_tail(),
        lowered(without_hyphens(value)).len() == 32 ==> full == lowered(without_hyphens(value)),
{
    let digits = lowered(without_hyphens(value));
    assert forall|i: int| 0 <= i < digits.len() implies is_lower_hex(#[trigger] digits[i]) by {
        assert(is_hex_digit(digits[i]));
        let c = without_hyphens(value)[i];
        assert(digits[i] == ascii_lower(c));
    }
    let tail = base_tail();
    assert forall|i: int| 0 <= i < tail.len() implies is_lower_hex(#[trigger] tail[i]) by {
        assert(0 <= i < 24);
    }
    if digits.len() == 4 {
        let full = seq!['0', '0', '0', '0'] + digits + tail;
        assert forall|i: int| 0 <= i < full.len() implies is_lower_hex(#[trigger] full[i]) by {
            if i < 4 {
            } else if i < 8 {
                assert(full[i] == digits[i - 4]);
            } else {
                assert(full[i] == tail[i - 8]);
            }
        }
        full
    } else if digits.len() == 8 {
        let full = digits + tail;
        assert forall|i: int| 0 <= i < full.len() implies is_lower_hex(#[trigger] full[i]) by {
            if i < 8 {
                assert(full[i] == digits[i]);
            } else {
                assert(full[i] == tail[i - 8]);
            }
        }
        full
    } else {
        digits
    }
}

/// Canonical UUID text normalizes to itself: normalizing twice gives what
/// normalizing once gave.
pub proof fn law_a_normalized_uuid_normalizes_to_itself(value: Seq<char>)
    requires
        normalized_uuid(value) is Some,
    ensures
        normalized_uuid(normalized_uuid(value).unwrap()) == normalized_uuid(value),
{
    let full = lemma_normalized_digits(value);
    lemma_hyphenated_digits(full);
    let canonical = hyphenated(full);
    assert(lowered(without_hyphens(canonical)) =~= full) by {
        assert forall|i: int| 0 <= i < full.len() implies ascii_lower(#[trigger] full[i])
            == full[i] by {
            assert(is_lower_hex(full[i]));
        }
    }
    assert forall|i: int| 0 <= i < full.len() implies is_hex_digit(#[trigger] full[i]) by {
        assert(is_lower_hex(full[i]));
    }
}

/// What normalizing does with the digits of its input: text whose digits, hyphens
/// left out and lowercased, are no 4, 8 or 32 hexadecimal digits has no canonical
/// form; 32 digits keep their order, split 8-4-4-4-12; 8 digits (a 32-bit UUID) are
/// the first 8 of the result, and 4 (a 16-bit UUID) follow `0000`, with the Bluetooth
/// base UUID after them.
pub proof fn law_normalizing_keeps_the_digits(value: Seq<char>)
    ensures
        ({
            let d = lowered(without_hyphens(value));
            &&& normalized_uuid(value) is Some <==> all_hex(d) && (d.len() == 4 || d.len() == 8
                || d.len() == 32)
            &&& normalized_uuid(value) matches Some(r) ==> {
                &&& r.len() == 36
                &&& r[8] == '-' && r[13] == '-' && r[18] == '-' && r[23] == '-'
                &&& forall|i: int| 0 <= i < 36 && i != 8 && i != 13 && i != 18 && i != 23
                    ==> is_lower_hex(#[trigger] r[i])
                &&& d.len() == 32 ==> without_hyphens(r) == d
                &&& d.len() == 8 ==> r.subrange(0, 8) == d && r.subrange(8, 36) == seq![
                    '-', '0', '0', '0', '0', '-', '1', '0', '0', '0', '-', '8', '0', '0', '0', '-',
                    '0', '0', '8', '0', '5', 'f', '9', 'b', '3', '4', 'f', 'b',
                ]
                &&& d.len() == 4 ==> r.subrange(0, 4) == seq!['0', '0', '0', '0'] && r.subrange(
                    4,
                    8,
                ) == d && r.subrange(8, 36) == seq![
                    '-', '0', '0', '0', '0', '-', '1', '0', '0', '0', '-', '8', '0', '0', '0', '-',
                    '0', '0', '8', '0', '5', 'f', '9', 'b', '3', '4', 'f', 'b',
                ]
            }
        }),
{
    let d = lowered(without_hyphens(value));
    if normalized_uuid(value) is Some {
        let full = lemma_normalized_digits(value);
        let r = hyphenated(full);
        assert(r.len() == 36);
        assert forall|i: int| 0 <= i < 36 && i != 8 && i != 13 && i != 18 && i != 23 implies is_lower_hex(
            #[trigger] r[i],
        ) by {
            if i < 8 {
                assert(r[i] == full[i]);
            } else if i < 13 {
                assert(r[i] == full[i - 1]);
            } else if i < 18 {
                assert(r[i] == full[i - 2]);
            } else if i < 23 {
                assert(r[i] == full[i - 3]);
            } else {
                assert(r[i] == full[i - 4]);
            }
        }
        if d.len() == 32 {
            assert(full == d);
            lemma_hyphenated_digits(full);
        } else if d.len() == 8 {
            assert(full == d + base_tail());
            assert(r.subrange(0, 8) =~= d);
            assert(r.subrange(8, 36) =~= seq![
                '-', '0', '0', '0', '0', '-', '1', '0', '0', '0', '-', '8', '0', '0', '0', '-', '0',
                '0', '8', '0', '5', 'f', '9', 'b', '3', '4', 'f', 'b',
            ]);
        } else {
            assert(full == seq!['0', '0', '0', '0'] + d + base_tail());
            assert(r.subrange(0, 4) =~= seq!['0', '0', '0', '0']);
            assert(r.subrange(4, 8) =~= d);
            assert(r.subrange(8, 36) =~= seq![
                '-', '0', '0', '0', '0', '-', '1', '0', '0', '0', '-', '8', '0', '0', '0', '-', '0',
                '0', '8', '0', '5', 'f', '9', 'b', '3', '4', 'f', 'b',
            ]);
        }
    }
}

/// Normalized text is a full 128-bit UUID: 32 hexadecimal digits, hyphens left out,
/// whatever width the input had; and 32 hexadecimal digits always normalize.
pub proof fn law_a_normalized_uuid_has_128_bits(value: Seq<char>)
    ensures
        normalized_uuid(value) matches Some(r) ==> without_hyphens(r).len() == 32 && all_hex(
            without_hyphens(r),
        ),
        without_hyphens(value).len() == 32 && all_hex(without_hyphens(value)) ==> normalized_uuid(
            value,
        ) is Some,
{
    if normalized_uuid(value) is Some {
        let full = lemma_normalized_digits(value);
        lemma_hyphenated_digits(full);
        assert forall|i: int| 0 <= i < full.len() implies is_hex_digit(#[trigger] full[i]) by {
            assert(is_lower_hex(full[i]));
        }
    }
    let d = lowered(without_hyphens(value));
    if without_hyphens(value).len() == 32 && all_hex(without_hyphens(value)) {
        assert forall|i: int| 0 <= i < d.len() implies is_hex_digit(#[trigger] d[i]) by {
            assert(is_hex_digit(without_hyphens(value)[i]));
        }
    }
}

} // verus!
