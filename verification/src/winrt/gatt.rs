//! ATT limits, characteristic property bits, access checks and subscriber diffs.

use vstd::prelude::*;

use crate::error::{BleError, BleResult, ErrorCode};
use crate::model::{CharacteristicProperties, LinkLimits, WriteType};
use crate::text::{decimal, push_decimal, push_text};
use crate::uuid::{
    digits_without_hyphens, hyphenated, hyphenated_text, is_hex_digit, normalize_uuid,
    normalized_uuid, without_hyphens,
};
use crate::winrt::status::{hex_digits, lemma_hex_digits_len};

verus! {

/// The ATT MTU of a link before its MTU exchange.
pub const DEFAULT_ATT_MTU: u16 = 23;

/// The longest value one attribute holds.
pub const MAX_ATTRIBUTE_LENGTH: u32 = 512;

/// ATT error: reading is not permitted.
pub const ATT_READ_NOT_PERMITTED: u8 = 0x02;

/// ATT error: writing is not permitted.
pub const ATT_WRITE_NOT_PERMITTED: u8 = 0x03;

/// ATT error: the offset is past the end of the value.
pub const ATT_INVALID_OFFSET: u8 = 0x07;

/// ATT error: no such attribute.
pub const ATT_ATTRIBUTE_NOT_FOUND: u8 = 0x0A;

/// ATT error: the value length is invalid.
pub const ATT_INVALID_ATTRIBUTE_VALUE_LENGTH: u8 = 0x0D;

/// ATT error: an unlikely error.
pub const ATT_UNLIKELY_ERROR: u8 = 0x0E;

/// Characteristic property bits, the same as the ATT property bits.
pub const PROPERTY_READ: u32 = 0x02;

pub const PROPERTY_WRITE_WITHOUT_RESPONSE: u32 = 0x04;

pub const PROPERTY_WRITE: u32 = 0x08;

pub const PROPERTY_NOTIFY: u32 = 0x10;

pub const PROPERTY_INDICATE: u32 = 0x20;

fn push_hex_chars(out: &mut Vec<char>, value: u128, width: u32)
    requires
        width <= 32,
    ensures
        final(out)@ == old(out)@ + hex_digits(value as nat, width as nat),
    decreases width,
{
    if width > 0 {
        push_hex_chars(out, value / 16, width - 1);
        let d: u8 = (value % 16) as u8;
        let c = if d < 10 {
            (d + 48) as char
        } else {
            (d + 87) as char
        };
        out.push(c);
        assert(final(out)@ =~= old(out)@ + hex_digits(value as nat, width as nat));
    }
}

/// A 128-bit UUID as a lowercase string with hyphens.
pub fn uuid_from_u128(value: u128) -> (uuid: String)
    ensures
        uuid@ == hyphenated(hex_digits(value as nat, 32)),
{
    let mut digits: Vec<char> = Vec::new();
    push_hex_chars(&mut digits, value, 32);
    assert(digits@ =~= hex_digits(value as nat, 32));
    proof {
        lemma_hex_digits_len(value as nat, 32);
    }
    hyphenated_text(&digits)
}

/// The value of one hexadecimal digit.
pub open spec fn hex_value_of(c: char) -> int {
    if '0' <= c && c <= '9' {
        c as int - 48
    } else if 'a' <= c && c <= 'f' {
        c as int - 87
    } else {
        c as int - 55
    }
}

/// The number that hexadecimal `digits` write.
pub open spec fn hex_number(digits: Seq<char>) -> nat
    decreases digits.len(),
{
    if digits.len() == 0 {
        0
    } else {
        (hex_number(digits.drop_last()) * 16 + hex_value_of(digits.last())) as nat
    }
}

/// Sixteen to the power `n`.
pub open spec fn pow16(n: nat) -> nat
    decreases n,
{
    if n == 0 {
        1
    } else {
        16 * pow16((n - 1) as nat)
    }
}

proof fn lemma_hex_number_bound(digits: Seq<char>)
    requires
        forall|i: int| 0 <= i < digits.len() ==> is_hex_digit(#[trigger] digits[i]),
    ensures
        hex_number(digits) < pow16(digits.len()),
    decreases digits.len(),
{
    if digits.len() > 0 {
        let rest = digits.drop_last();
        assert forall|i: int| 0 <= i < rest.len() implies is_hex_digit(#[trigger] rest[i]) by {
            assert(rest[i] == digits[i]);
        }
        lemma_hex_number_bound(rest);
        assert(is_hex_digit(digits[digits.len() - 1]));
        assert(0 <= hex_value_of(digits.last()) < 16);
        assert(hex_number(rest) * 16 + hex_value_of(digits.last()) < pow16(rest.len()) * 16)
            by (nonlinear_arith)
            requires
                hex_number(rest) < pow16(rest.len()),
                0 <= hex_value_of(digits.last()) < 16,
        ;
    }
}

proof fn lemma_pow16_monotone(a: nat, b: nat)
    requires
        a <= b,
    ensures
        pow16(a) <= pow16(b),
    decreases b,
{
    if a < b {
        lemma_pow16_monotone(a, (b - 1) as nat);
    }
}

/// What parsing hexadecimal `digits` into 128 bits gives: `None` unless there are
/// one to 32 hexadecimal digits.
pub open spec fn parsed_u128(digits: Seq<char>) -> Option<u128> {
    if digits.len() == 0 || digits.len() > 32 || !(forall|i: int|
        0 <= i < digits.len() ==> is_hex_digit(#[trigger] digits[i])) {
        None
    } else {
        Some(hex_number(digits) as u128)
    }
}

fn parse_hex_u128(digits: &Vec<char>) -> (value: Option<u128>)
    ensures
        value == parsed_u128(digits@),
{
    if digits.len() == 0 || digits.len() > 32 {
        return None;
    }
    proof {
        assert(pow16(32) == 0x1_0000_0000_0000_0000_0000_0000_0000_0000nat) by {
            reveal_with_fuel(pow16, 33);
        }
    }
    let mut value: u128 = 0;
    let mut i: usize = 0;
    assert(digits@.subrange(0, 0) =~= Seq::<char>::empty());
    while i < digits.len()
        invariant
            0 < digits@.len() <= 32,
            i <= digits@.len(),
            forall|j: int| 0 <= j < i ==> is_hex_digit(#[trigger] digits@[j]),
            value as nat == hex_number(digits@.subrange(0, i as int)),
            pow16(32) == 0x1_0000_0000_0000_0000_0000_0000_0000_0000nat,
        decreases digits@.len() - i,
    {
        let c = digits[i];
        let d: u128 = if '0' <= c && c <= '9' {
            (c as u32 - 48) as u128
        } else if 'a' <= c && c <= 'f' {
            (c as u32 - 87) as u128
        } else if 'A' <= c && c <= 'F' {
            (c as u32 - 55) as u128
        } else {
            return None;
        };
        let ghost prefix = digits@.subrange(0, i + 1);
        assert(prefix.drop_last() =~= digits@.subrange(0, i as int));
        proof {
            assert forall|j: int| 0 <= j < prefix.len() implies is_hex_digit(#[trigger] prefix[j]) by {
                assert(prefix[j] == digits@[j]);
            }
            lemma_hex_number_bound(prefix);
            lemma_pow16_monotone(prefix.len(), 32);
        }
        value = value * 16 + d;
        i = i + 1;
    }
    assert(digits@.subrange(0, i as int) =~= digits@);
    Some(value)
}

/// The 128-bit value of a UUID string, short forms included.
pub fn uuid_to_u128(uuid: &str) -> (value: Option<u128>)
    ensures
        value == match normalized_uuid(uuid@) {
            Some(n) => parsed_u128(without_hyphens(n)),
            None => None,
        },
{
    match normalize_uuid(uuid) {
        Some(n) => {
            let digits = digits_without_hyphens(n.as_str());
            parse_hex_u128(&digits)
        },
        None => None,
    }
}

/// The largest value one ATT write or notification carries at `mtu`: the MTU minus
/// 3, at most 512.
pub open spec fn value_length_at(mtu: u16) -> u32 {
    let effective = if mtu < DEFAULT_ATT_MTU {
        DEFAULT_ATT_MTU
    } else {
        mtu
    };
    if effective - 3 > MAX_ATTRIBUTE_LENGTH {
        MAX_ATTRIBUTE_LENGTH
    } else {
        (effective - 3) as u32
    }
}

pub fn value_length(mtu: u16) -> (length: u32)
    ensures
        length == value_length_at(mtu),
{
    let effective: u32 = if mtu < DEFAULT_ATT_MTU {
        DEFAULT_ATT_MTU as u32
    } else {
        mtu as u32
    };
    if effective - 3 > MAX_ATTRIBUTE_LENGTH {
        MAX_ATTRIBUTE_LENGTH
    } else {
        effective - 3
    }
}

pub fn link_limits(mtu: u16) -> (limits: LinkLimits)
    ensures
        limits == (LinkLimits {
            write_with_response: Some(value_length_at(mtu)),
            write_without_response: Some(value_length_at(mtu)),
            notification: Some(value_length_at(mtu)),
            att_mtu: Some(
                if mtu < DEFAULT_ATT_MTU {
                    DEFAULT_ATT_MTU as u32
                } else {
                    mtu as u32
                },
            ),
        }),
{
    let length = value_length(mtu);
    let effective: u32 = if mtu < DEFAULT_ATT_MTU {
        DEFAULT_ATT_MTU as u32
    } else {
        mtu as u32
    };
    LinkLimits {
        write_with_response: Some(length),
        write_without_response: Some(length),
        notification: Some(length),
        att_mtu: Some(effective),
    }
}

/// The notification size a server reports for a subscribed client.
pub fn notification_length(max_notification_size: u16) -> (length: u32)
    ensures
        length == if max_notification_size as u32 > MAX_ATTRIBUTE_LENGTH {
            MAX_ATTRIBUTE_LENGTH
        } else {
            max_notification_size as u32
        },
{
    let size = max_notification_size as u32;
    if size > MAX_ATTRIBUTE_LENGTH {
        MAX_ATTRIBUTE_LENGTH
    } else {
        size
    }
}

pub fn properties_from_bits(bits: u32) -> (properties: CharacteristicProperties)
    ensures
        properties == (CharacteristicProperties {
            read: bits & PROPERTY_READ != 0,
            write: bits & PROPERTY_WRITE != 0,
            write_without_response: bits & PROPERTY_WRITE_WITHOUT_RESPONSE != 0,
            notify: bits & PROPERTY_NOTIFY != 0,
            indicate: bits & PROPERTY_INDICATE != 0,
        }),
{
    CharacteristicProperties {
        read: bits & PROPERTY_READ != 0,
        write: bits & PROPERTY_WRITE != 0,
        write_without_response: bits & PROPERTY_WRITE_WITHOUT_RESPONSE != 0,
        notify: bits & PROPERTY_NOTIFY != 0,
        indicate: bits & PROPERTY_INDICATE != 0,
    }
}

/// The bit of a flag: `bit` when set, else zero.
pub open spec fn flag_bit(set: bool, bit: u32) -> u32 {
    if set {
        bit
    } else {
        0
    }
}

/// The property bits of `p`.
pub open spec fn bits_of(p: CharacteristicProperties) -> u32 {
    flag_bit(p.read, PROPERTY_READ) | flag_bit(p.write, PROPERTY_WRITE) | flag_bit(
        p.write_without_response,
        PROPERTY_WRITE_WITHOUT_RESPONSE,
    ) | flag_bit(p.notify, PROPERTY_NOTIFY) | flag_bit(p.indicate, PROPERTY_INDICATE)
}

pub fn properties_to_bits(properties: &CharacteristicProperties) -> (bits: u32)
    ensures
        bits == bits_of(*properties),
{
    let read = if properties.read {
        PROPERTY_READ
    } else {
        0
    };
    let write = if properties.write {
        PROPERTY_WRITE
    } else {
        0
    };
    let command = if properties.write_without_response {
        PROPERTY_WRITE_WITHOUT_RESPONSE
    } else {
        0
    };
    let notify = if properties.notify {
        PROPERTY_NOTIFY
    } else {
        0
    };
    let indicate = if properties.indicate {
        PROPERTY_INDICATE
    } else {
        0
    };
    read | write | command | notify | indicate
}

/// Properties become bits and come back unchanged.
pub proof fn law_property_bits_round_trip(p: CharacteristicProperties)
    ensures
        ({
            let bits = bits_of(p);
            &&& (bits & PROPERTY_READ != 0) == p.read
            &&& (bits & PROPERTY_WRITE != 0) == p.write
            &&& (bits & PROPERTY_WRITE_WITHOUT_RESPONSE != 0) == p.write_without_response
            &&& (bits & PROPERTY_NOTIFY != 0) == p.notify
            &&& (bits & PROPERTY_INDICATE != 0) == p.indicate
        }),
{
    let r = flag_bit(p.read, PROPERTY_READ);
    let w = flag_bit(p.write, PROPERTY_WRITE);
    let c = flag_bit(p.write_without_response, PROPERTY_WRITE_WITHOUT_RESPONSE);
    let n = flag_bit(p.notify, PROPERTY_NOTIFY);
    let i = flag_bit(p.indicate, PROPERTY_INDICATE);
    assert({
        &&& ((r | w | c | n | i) & 2 != 0) == (r == 2)
        &&& ((r | w | c | n | i) & 8 != 0) == (w == 8)
        &&& ((r | w | c | n | i) & 4 != 0) == (c == 4)
        &&& ((r | w | c | n | i) & 16 != 0) == (n == 16)
        &&& ((r | w | c | n | i) & 32 != 0) == (i == 32)
    }) by (bit_vector)
        requires
            r == 0 || r == 2,
            w == 0 || w == 8,
            c == 0 || c == 4,
            n == 0 || n == 16,
            i == 0 || i == 32,
    ;
}

/// What a subscription enables in the client configuration descriptor.
#[derive(Clone, Copy, Debug, PartialEq, Eq, Structural)]
pub enum Mode {
    Notify,
    Indicate,
}

/// What a client does with a remote characteristic.
#[derive(Clone, Copy, Debug, PartialEq, Eq, Structural)]
pub enum Access {
    Read,
    Write(WriteType),
    Subscribe,
}

/// Whether `access` is permitted, the mode it subscribes with, and the property it
/// lacks otherwise.
pub open spec fn access_rule(p: CharacteristicProperties, access: Access) -> (bool, Option<Mode>, Seq<char>) {
    match access {
        Access::Read => (p.read, None, "read"@),
        Access::Write(WriteType::WithResponse) => (p.write, None, "write"@),
        Access::Write(WriteType::WithoutResponse) => (
            p.write_without_response,
            None,
            "writeWithoutResponse"@,
        ),
        Access::Subscribe => if p.notify {
            (true, Some(Mode::Notify), ""@)
        } else {
            (p.indicate, Some(Mode::Indicate), "notify or indicate"@)
        },
    }
}

/// Rejects with `Unsupported` when the characteristic lacks the property of `access`.
/// A subscription uses indications only when the characteristic has no notify.
pub fn check_access(properties: &CharacteristicProperties, access: Access) -> (mode: BleResult<
    Option<Mode>,
>)
    ensures
        ({
            let (permitted, chosen, lacking) = access_rule(*properties, access);
            if permitted {
                mode == Ok::<Option<Mode>, BleError>(chosen)
            } else {
                mode matches Err(e) && e.is_plain(ErrorCode::Unsupported) && e.message@
                    == "the characteristic does not have "@ + lacking
            }
        }),
{
    let (permitted, mode, lacking) = match access {
        Access::Read => (properties.read, None, "read"),
        Access::Write(WriteType::WithResponse) => (properties.write, None, "write"),
        Access::Write(WriteType::WithoutResponse) => (
            properties.write_without_response,
            None,
            "writeWithoutResponse",
        ),
        Access::Subscribe => if properties.notify {
            (true, Some(Mode::Notify), "")
        } else {
            (properties.indicate, Some(Mode::Indicate), "notify or indicate")
        },
    };
    if permitted {
        Ok(mode)
    } else {
        let mut message = "the characteristic does not have ".to_owned();
        push_text(&mut message, lacking);
        Err(BleError::with_message(ErrorCode::Unsupported, message))
    }
}

/// The most bytes a client write of `write_type` carries at `mtu`.
pub open spec fn write_limit(write_type: WriteType, mtu: u16) -> u32 {
    match write_type {
        WriteType::WithResponse => MAX_ATTRIBUTE_LENGTH,
        WriteType::WithoutResponse => value_length_at(mtu),
    }
}

/// Rejects a client write that one ATT request cannot carry. A write with response
/// longer than the link allows goes out as a long write.
pub fn check_write_length(length: usize, write_type: WriteType, mtu: u16) -> (checked: BleResult<()>)
    ensures
        length <= write_limit(write_type, mtu) ==> checked is Ok,
        length > write_limit(write_type, mtu) ==> (checked matches Err(e) && e.is_plain(
            ErrorCode::PayloadTooLarge,
        ) && e.message@ == "this write carries at most "@ + decimal(
            write_limit(write_type, mtu) as nat,
        ) + " bytes"@),
{
    let limit = match write_type {
        WriteType::WithResponse => MAX_ATTRIBUTE_LENGTH,
        WriteType::WithoutResponse => value_length(mtu),
    };
    if length > limit as usize {
        let mut message = "this write carries at most ".to_owned();
        push_decimal(&mut message, limit as u64);
        push_text(&mut message, " bytes");
        return Err(BleError::with_message(ErrorCode::PayloadTooLarge, message));
    }
    Ok(())
}

/// The part of a stored value that a read at `offset` returns, or the ATT error.
pub fn read_answer(readable: bool, value: &[u8], offset: usize) -> (answer: Result<&[u8], u8>)
    ensures
        !readable ==> answer == Err::<&[u8], u8>(ATT_READ_NOT_PERMITTED),
        readable && offset > value@.len() ==> answer == Err::<&[u8], u8>(ATT_INVALID_OFFSET),
        readable && offset <= value@.len() ==> (answer matches Ok(part) && part@
            == value@.subrange(offset as int, value@.len() as int)),
{
    if !readable {
        return Err(ATT_READ_NOT_PERMITTED);
    }
    if offset > value.len() {
        return Err(ATT_INVALID_OFFSET);
    }
    Ok(vstd::slice::slice_subrange(value, offset, value.len()))
}

/// The ATT error of a server write, or `None` when it is valid: a write is one part,
/// it starts at offset 0 and fits `max_value_length`.
pub fn write_error(
    properties: &CharacteristicProperties,
    max_value_length: u32,
    offset: usize,
    length: usize,
) -> (error: Option<u8>)
    ensures
        error == if !properties.write && !properties.write_without_response {
            Some(ATT_WRITE_NOT_PERMITTED)
        } else if offset != 0 {
            Some(ATT_INVALID_OFFSET)
        } else if length > max_value_length {
            Some(ATT_INVALID_ATTRIBUTE_VALUE_LENGTH)
        } else {
            None::<u8>
        },
{
    if !properties.write && !properties.write_without_response {
        Some(ATT_WRITE_NOT_PERMITTED)
    } else if offset != 0 {
        Some(ATT_INVALID_OFFSET)
    } else if length > max_value_length as usize {
        Some(ATT_INVALID_ATTRIBUTE_VALUE_LENGTH)
    } else {
        None
    }
}

/// A change in the subscribers of one local characteristic.
#[derive(Debug, PartialEq, Eq)]
pub enum SubscriberChange {
    Subscribed(String, u32),
    Resized(String, u32),
    Unsubscribed(String),
}

/// A subscriber change, by text.
pub enum ChangeView {
    Subscribed(Seq<char>, u32),
    Resized(Seq<char>, u32),
    Unsubscribed(Seq<char>),
}

impl View for SubscriberChange {
    type V = ChangeView;

    open spec fn view(&self) -> ChangeView {
        match self {
            SubscriberChange::Subscribed(device, length) => ChangeView::Subscribed(device@, *length),
            SubscriberChange::Resized(device, length) => ChangeView::Resized(device@, *length),
            SubscriberChange::Unsubscribed(device) => ChangeView::Unsubscribed(device@),
        }
    }
}

/// A subscriber list, by text: each remote device with its notification length, in
/// key order.
pub open spec fn subscribers_of(list: Seq<(String, u32)>) -> Seq<(Seq<char>, u32)> {
    list.map_values(|e: (String, u32)| (e.0@, e.1))
}

/// The length of the first entry for `device`.
pub open spec fn length_of(list: Seq<(Seq<char>, u32)>, device: Seq<char>) -> Option<u32>
    decreases list.len(),
{
    if list.len() == 0 {
        None
    } else if list[0].0 == device {
        Some(list[0].1)
    } else {
        length_of(list.drop_first(), device)
    }
}

/// The devices of `before` that `after` lacks, as unsubscribes, in order.
pub open spec fn gone(before: Seq<(Seq<char>, u32)>, after: Seq<(Seq<char>, u32)>) -> Seq<ChangeView>
    decreases before.len(),
{
    if before.len() == 0 {
        Seq::empty()
    } else if length_of(after, before.last().0) is None {
        gone(before.drop_last(), after).push(ChangeView::Unsubscribed(before.last().0))
    } else {
        gone(before.drop_last(), after)
    }
}

/// The devices of `after` that are new or have a new length, in order.
pub open spec fn present(before: Seq<(Seq<char>, u32)>, after: Seq<(Seq<char>, u32)>) -> Seq<ChangeView>
    decreases after.len(),
{
    if after.len() == 0 {
        Seq::empty()
    } else {
        let rest = present(before, after.drop_last());
        let (device, length) = after.last();
        match length_of(before, device) {
            None => rest.push(ChangeView::Subscribed(device, length)),
            Some(previous) => if previous != length {
                rest.push(ChangeView::Resized(device, length))
            } else {
                rest
            },
        }
    }
}

fn length_in(list: &Vec<(String, u32)>, device: &String) -> (length: Option<u32>)
    ensures
        length == length_of(subscribers_of(list@), device@),
{
    let ghost all = subscribers_of(list@);
    let mut i: usize = 0;
    assert(all.subrange(0, all.len() as int) =~= all);
    while i < list.len()
        invariant
            all == subscribers_of(list@),
            i <= list@.len(),
            length_of(all, device@) == length_of(all.subrange(i as int, all.len() as int), device@),
        decreases list@.len() - i,
    {
        let ghost rest = all.subrange(i as int, all.len() as int);
        assert(rest.drop_first() =~= all.subrange(i + 1, all.len() as int));
        if list[i].0 == *device {
            return Some(list[i].1);
        }
        i = i + 1;
    }
    None
}

/// Diffs two subscriber lists, each a remote device ID with its notification length:
/// first the unsubscribes, in the order of `before`, then the subscribes and resizes,
/// in the order of `after`.
pub fn subscriber_changes(before: &Vec<(String, u32)>, after: &Vec<(String, u32)>) -> (changes: Vec<
    SubscriberChange,
>)
    ensures
        changes@.map_values(|c: SubscriberChange| c@) == gone(
            subscribers_of(before@),
            subscribers_of(after@),
        ) + present(subscribers_of(before@), subscribers_of(after@)),
{
    let ghost b = subscribers_of(before@);
    let ghost a = subscribers_of(after@);
    let mut changes: Vec<SubscriberChange> = Vec::new();
    let mut i: usize = 0;
    assert(b.subrange(0, 0) =~= Seq::<(Seq<char>, u32)>::empty());
    assert(changes@.map_values(|c: SubscriberChange| c@) =~= Seq::<ChangeView>::empty());
    while i < before.len()
        invariant
            b == subscribers_of(before@),
            a == subscribers_of(after@),
            i <= before@.len(),
            changes@.map_values(|c: SubscriberChange| c@) == gone(b.subrange(0, i as int), a),
        decreases before@.len() - i,
    {
        let ghost prefix = b.subrange(0, i + 1);
        assert(prefix.drop_last() =~= b.subrange(0, i as int));
        assert(prefix.last() == (before@[i as int].0@, before@[i as int].1));
        let ghost old_changes = changes@;
        if length_in(after, &before[i].0).is_none() {
            changes.push(SubscriberChange::Unsubscribed(before[i].0.clone()));
            assert(changes@.map_values(|c: SubscriberChange| c@) =~= old_changes.map_values(
                |c: SubscriberChange| c@,
            ).push(ChangeView::Unsubscribed(before@[i as int].0@)));
        }
        i = i + 1;
    }
    assert(b.subrange(0, i as int) =~= b);
    let ghost gone_part = changes@.map_values(|c: SubscriberChange| c@);
    let mut j: usize = 0;
    assert(a.subrange(0, 0) =~= Seq::<(Seq<char>, u32)>::empty());
    assert(gone_part =~= gone_part + present(b, a.subrange(0, 0)));
    while j < after.len()
        invariant
            b == subscribers_of(before@),
            a == subscribers_of(after@),
            j <= after@.len(),
            changes@.map_values(|c: SubscriberChange| c@) == gone_part + present(b, a.subrange(0, j as int)),
        decreases after@.len() - j,
    {
        let ghost prefix = a.subrange(0, j + 1);
        assert(prefix.drop_last() =~= a.subrange(0, j as int));
        assert(prefix.last() == (after@[j as int].0@, after@[j as int].1));
        let ghost old_changes = changes@;
        let length = after[j].1;
        match length_in(before, &after[j].0) {
            None => {
                changes.push(SubscriberChange::Subscribed(after[j].0.clone(), length));
                assert(changes@.map_values(|c: SubscriberChange| c@) =~= old_changes.map_values(
                    |c: SubscriberChange| c@,
                ).push(ChangeView::Subscribed(after@[j as int].0@, length)));
            },
            Some(previous) => {
                if previous != length {
                    changes.push(SubscriberChange::Resized(after[j].0.clone(), length));
                    assert(changes@.map_values(|c: SubscriberChange| c@) =~= old_changes.map_values(
                        |c: SubscriberChange| c@,
                    ).push(ChangeView::Resized(after@[j as int].0@, length)));
                }
            },
        }
        j = j + 1;
    }
    assert(a.subrange(0, j as int) =~= a);
    changes
}

/// A value on a link carries the ATT MTU less its 3-byte header: 20 bytes below the
/// default MTU of 23, at most 512, and more as the MTU grows.
pub proof fn law_value_length_follows_the_mtu(mtu: u16, larger: u16)
    ensures
        mtu <= 23 ==> value_length_at(mtu) == 20,
        23 <= mtu <= 515 ==> value_length_at(mtu) == mtu - 3,
        mtu >= 515 ==> value_length_at(mtu) == 512,
        mtu <= larger ==> value_length_at(mtu) <= value_length_at(larger),
        write_limit(WriteType::WithResponse, mtu) == 512,
        write_limit(WriteType::WithoutResponse, mtu) == value_length_at(mtu),
{
}

} // verus!
