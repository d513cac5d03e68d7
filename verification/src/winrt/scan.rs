//! Scan results of the Windows backend: filters, the per-device throttle, advertising
//! data sections, and the merge of an advertisement with its scan response.

use vstd::prelude::*;

use crate::codec::{base64_fits, encode_base64, standard_base64_encoded};
use crate::error::{BleError, BleResult, ErrorCode};
use crate::text::{push_text, utf8_text};
use crate::model::{AdvertisementData, DiscoveredDevice, ManufacturerData, ServiceData};
use crate::ids::{DeviceId, ScanId};
use vstd::utf8::{decode_utf8, encode_utf8, valid_utf8};
use crate::uuid::{hyphenated, normalize_uuid, normalized_uuid};
use crate::winrt::gatt::uuid_from_u128;
use crate::winrt::status::hex_digits;

verus! {

/// At most one result per device per scan in this interval, in milliseconds.
pub const RESULT_INTERVAL_MS: u64 = 1000;

/// How long the packets of a device stay after it was last heard.
pub const SIGHTING_LIFETIME_MS: u64 = 60_000;

/// How often the packets of devices no longer heard are dropped.
pub const SWEEP_INTERVAL_MS: u64 = 10_000;

/// How many cached names stay.
pub const CACHED_NAMES: usize = 1024;

/// The Bluetooth base UUID, `00000000-0000-1000-8000-00805f9b34fb`.
pub const BASE_UUID: u128 = 0x0000_0000_0000_1000_8000_0080_5f9b_34fb;

/// Advertising data types that carry service data or solicited services.
pub const SOLICITED_16: u8 = 0x14;

pub const SOLICITED_128: u8 = 0x15;

pub const SERVICE_DATA_16: u8 = 0x16;

pub const SOLICITED_32: u8 = 0x1F;

pub const SERVICE_DATA_32: u8 = 0x20;

pub const SERVICE_DATA_128: u8 = 0x21;

/// The texts of a list of strings.
pub open spec fn texts(items: Seq<String>) -> Seq<Seq<char>> {
    items.map_values(|s: String| s@)
}

/// The service UUIDs of one scan, normalized. An empty filter matches every
/// advertisement.
#[derive(Clone, Debug, PartialEq, Eq)]
pub struct ScanFilter(pub Vec<String>);

impl Default for ScanFilter {
    /// The empty filter, which matches every advertisement.
    fn default() -> (filter: Self)
        ensures
            filter.0@.len() == 0,
    {
        ScanFilter(Vec::new())
    }
}

/// The filter of `uuids`, each normalized, or the first that is no UUID.
pub open spec fn filter_of(uuids: Seq<Seq<char>>) -> Result<Seq<Seq<char>>, Seq<char>>
    decreases uuids.len(),
{
    if uuids.len() == 0 {
        Ok(Seq::empty())
    } else {
        match filter_of(uuids.drop_last()) {
            Err(bad) => Err(bad),
            Ok(list) => match normalized_uuid(uuids.last()) {
                Some(n) => Ok(list.push(n)),
                None => Err(uuids.last()),
            },
        }
    }
}

proof fn lemma_filter_of_prefix(uuids: Seq<Seq<char>>, k: int)
    requires
        0 <= k <= uuids.len(),
        filter_of(uuids.subrange(0, k)) is Err,
    ensures
        filter_of(uuids) == filter_of(uuids.subrange(0, k)),
    decreases uuids.len() - k,
{
    if k < uuids.len() {
        assert(uuids.drop_last().subrange(0, k) =~= uuids.subrange(0, k));
        lemma_filter_of_prefix(uuids.drop_last(), k);
    } else {
        assert(uuids.subrange(0, k) =~= uuids);
    }
}

fn contains_text(list: &Vec<String>, item: &str) -> (found: bool)
    ensures
        found == texts(list@).contains(item@),
{
    let mut i: usize = 0;
    while i < list.len()
        invariant
            i <= list@.len(),
            forall|j: int| 0 <= j < i ==> texts(list@)[j] != item@,
        decreases list@.len() - i,
    {
        if crate::text::text_is(list[i].as_str(), item) {
            assert(texts(list@)[i as int] == item@);
            return true;
        }
        i = i + 1;
    }
    false
}

impl ScanFilter {
    pub fn parse(uuids: &[String]) -> (filter: BleResult<ScanFilter>)
        ensures
            match filter_of(texts(uuids@)) {
                Ok(list) => filter matches Ok(f) && texts(f.0@) == list,
                Err(bad) => filter matches Err(e) && e.is_plain(ErrorCode::InvalidArgument)
                    && e.message@ == bad + " is not a UUID"@,
            },
    {
        let ghost all = texts(uuids@);
        let mut list: Vec<String> = Vec::new();
        let mut i: usize = 0;
        assert(all.subrange(0, 0) =~= Seq::<Seq<char>>::empty());
        assert(texts(list@) =~= Seq::<Seq<char>>::empty());
        while i < uuids.len()
            invariant
                all == texts(uuids@),
                i <= uuids@.len(),
                filter_of(all.subrange(0, i as int)) == Ok::<Seq<Seq<char>>, Seq<char>>(
                    texts(list@),
                ),
            decreases uuids@.len() - i,
        {
            let ghost prefix = all.subrange(0, i + 1);
            assert(prefix.drop_last() =~= all.subrange(0, i as int));
            assert(prefix.last() == uuids@[i as int]@);
            match normalize_uuid(uuids[i].as_str()) {
                Some(n) => {
                    let ghost before = list@;
                    list.push(n);
                    assert(texts(list@) =~= texts(before).push(list@[list@.len() - 1]@));
                },
                None => {
                    proof {
                        lemma_filter_of_prefix(all, i + 1);
                    }
                    let mut message = uuids[i].clone();
                    push_text(&mut message, " is not a UUID");
                    return Err(BleError::with_message(ErrorCode::InvalidArgument, message));
                },
            }
            i = i + 1;
        }
        assert(all.subrange(0, i as int) =~= all);
        Ok(ScanFilter(list))
    }

    /// The filter is empty, or shares a UUID with `advertised`.
    pub fn matches(&self, advertised: &Vec<String>) -> (matched: bool)
        ensures
            matched == (self.0@.len() == 0 || exists|u: Seq<char>|
                texts(self.0@).contains(u) && texts(advertised@).contains(u)),
    {
        if self.0.len() == 0 {
            return true;
        }
        let mut i: usize = 0;
        while i < self.0.len()
            invariant
                i <= self.0@.len(),
                forall|j: int| 0 <= j < i ==> !texts(advertised@).contains(texts(self.0@)[j]),
            decreases self.0@.len() - i,
        {
            if contains_text(advertised, self.0[i].as_str()) {
                assert(texts(self.0@).contains(texts(self.0@)[i as int]));
                return true;
            }
            i = i + 1;
        }
        proof {
            assert forall|u: Seq<char>| !(texts(self.0@).contains(u) && texts(advertised@).contains(u)) by {
                if texts(self.0@).contains(u) {
                    let j = choose|j: int| 0 <= j < texts(self.0@).len() && texts(self.0@)[j] == u;
                    assert(!texts(advertised@).contains(texts(self.0@)[j]));
                }
            }
        }
        false
    }

    pub fn contains(&self, uuid: &str) -> (found: bool)
        ensures
            found == texts(self.0@).contains(uuid@),
    {
        contains_text(&self.0, uuid)
    }
}

/// The time from `then` to `now`, zero when `now` is earlier.
pub open spec fn since(now: u64, then: u64) -> int {
    if now >= then {
        now - then
    } else {
        0
    }
}

/// The time of the last result of `device`, if any.
pub open spec fn last_result(last: Seq<(Seq<char>, u64)>, device: Seq<char>) -> Option<u64>
    decreases last.len(),
{
    if last.len() == 0 {
        None
    } else if last.last().0 == device {
        Some(last.last().1)
    } else {
        last_result(last.drop_last(), device)
    }
}

/// One call of [`Throttle::allow`]: whether a result of `device` passed at `now`, and
/// the table it left.
pub open spec fn throttled(
    before: Seq<(Seq<char>, u64)>,
    device: Seq<char>,
    now: u64,
    allowed: bool,
    after: Seq<(Seq<char>, u64)>,
) -> bool {
    &&& allowed == match last_result(before, device) {
        Some(previous) => since(now, previous) >= RESULT_INTERVAL_MS,
        None => true,
    }
    &&& after == if allowed {
        before.push((device, now))
    } else {
        before
    }
}

/// The results that passed among the first `n` calls, in order.
pub open spec fn passed(calls: Seq<(Seq<char>, u64)>, allowed: Seq<bool>, n: int) -> Seq<(Seq<char>, u64)>
    decreases n,
{
    if n <= 0 {
        Seq::empty()
    } else if allowed[n - 1] {
        passed(calls, allowed, n - 1).push(calls[n - 1])
    } else {
        passed(calls, allowed, n - 1)
    }
}

/// Whether call `i` is the latest before call `k` whose result of `device` passed.
pub open spec fn latest_pass(
    calls: Seq<(Seq<char>, u64)>,
    allowed: Seq<bool>,
    device: Seq<char>,
    i: int,
    k: int,
) -> bool {
    &&& 0 <= i < k
    &&& allowed[i]
    &&& calls[i].0 == device
    &&& forall|j: int| i < j < k && #[trigger] allowed[j] ==> calls[j].0 != device
}

/// Lets through at most one result per device every [`RESULT_INTERVAL_MS`].
pub struct Throttle {
    last: Vec<(String, u64)>,
}

impl Default for Throttle {
    /// No device has passed yet.
    fn default() -> (throttle: Self)
        ensures
            throttle@.len() == 0,
    {
        let throttle = Throttle { last: Vec::new() };
        assert(throttle@ =~= Seq::<(Seq<char>, u64)>::empty());
        throttle
    }
}

impl View for Throttle {
    type V = Seq<(Seq<char>, u64)>;

    closed spec fn view(&self) -> Seq<(Seq<char>, u64)> {
        self.last@.map_values(|e: (String, u64)| (e.0@, e.1))
    }
}

impl Throttle {
    /// Whether a result of `device_id` may pass at `now_ms`; one that passes starts a
    /// new interval.
    pub fn allow(&mut self, device_id: &str, now_ms: u64) -> (allowed: bool)
        ensures
            allowed == match last_result(old(self)@, device_id@) {
                Some(previous) => since(now_ms, previous) >= RESULT_INTERVAL_MS,
                None => true,
            },
            allowed ==> final(self)@ == old(self)@.push((device_id@, now_ms)),
            !allowed ==> final(self)@ == old(self)@,
            throttled(old(self)@, device_id@, now_ms, allowed, final(self)@),
    {
        let ghost all = self@;
        let mut i = self.last.len();
        assert(all.subrange(0, i as int) =~= all);
        while i > 0
            invariant
                all == self@,
                all == old(self)@,
                i <= self.last@.len(),
                last_result(all, device_id@) == last_result(all.subrange(0, i as int), device_id@),
            decreases i,
        {
            let ghost part = all.subrange(0, i as int);
            assert(part.drop_last() =~= all.subrange(0, i - 1));
            assert(part.last() == (self.last@[i - 1].0@, self.last@[i - 1].1));
            if crate::text::text_is(self.last[i - 1].0.as_str(), device_id) {
                let at = self.last[i - 1].1;
                let elapsed = now_ms.saturating_sub(at);
                if elapsed < RESULT_INTERVAL_MS {
                    return false;
                }
                let ghost before = self@;
                self.last.push((device_id.to_owned(), now_ms));
                assert(self@ =~= before.push((device_id@, now_ms)));
                return true;
            }
            i = i - 1;
        }
        let ghost before = self@;
        self.last.push((device_id.to_owned(), now_ms));
        assert(self@ =~= before.push((device_id@, now_ms)));
        true
    }
}

/// One advertising data section, as far as a scan result needs it.
#[derive(Debug, PartialEq, Eq)]
pub enum Section {
    ServiceData(String, Vec<u8>),
    Solicited(Vec<String>),
    Other,
}

/// The little-endian value of `bytes`.
pub open spec fn le_value(bytes: Seq<u8>) -> nat
    decreases bytes.len(),
{
    if bytes.len() == 0 {
        0
    } else {
        (bytes[0] + 256 * le_value(bytes.drop_first())) as nat
    }
}

/// 256 to the power `n`.
pub open spec fn pow256(n: nat) -> nat
    decreases n,
{
    if n == 0 {
        1
    } else {
        256 * pow256((n - 1) as nat)
    }
}

/// The 128-bit UUID text of a 16-, 32- or 128-bit little-endian UUID.
pub open spec fn le_uuid(bytes: Seq<u8>) -> Seq<char> {
    if bytes.len() == 16 {
        hyphenated(hex_digits(le_value(bytes), 32))
    } else {
        hyphenated(hex_digits((le_value(bytes) * pow256(12) + BASE_UUID) as nat, 32))
    }
}

proof fn lemma_le_value_bound(bytes: Seq<u8>)
    ensures
        le_value(bytes) < pow256(bytes.len()),
    decreases bytes.len(),
{
    if bytes.len() > 0 {
        let rest = bytes.drop_first();
        lemma_le_value_bound(rest);
        assert(bytes[0] + 256 * le_value(rest) < 256 * pow256(rest.len())) by (nonlinear_arith)
            requires
                le_value(rest) < pow256(rest.len()),
                bytes[0] < 256,
        ;
    }
}

proof fn lemma_pow256_monotone(a: nat, b: nat)
    requires
        a <= b,
    ensures
        pow256(a) <= pow256(b),
    decreases b,
{
    if a < b {
        lemma_pow256_monotone(a, (b - 1) as nat);
    }
}

fn uuid_from_le(bytes: &[u8]) -> (uuid: String)
    requires
        bytes@.len() == 2 || bytes@.len() == 4 || bytes@.len() == 16,
    ensures
        uuid@ == le_uuid(bytes@),
{
    proof {
        reveal_with_fuel(pow256, 17);
        assert(pow256(4) == 0x1_0000_0000);
        assert(pow256(12) == 0x1_0000_0000_0000_0000_0000_0000nat);
        assert(pow256(16) == 0x1_0000_0000_0000_0000_0000_0000_0000_0000nat);
    }
    let len = bytes.len();
    let mut value: u128 = 0;
    let mut j: usize = len;
    assert(bytes@.subrange(len as int, len as int) =~= Seq::<u8>::empty());
    while j > 0
        invariant
            len == bytes@.len(),
            len <= 16,
            j <= len,
            value as nat == le_value(bytes@.subrange(j as int, len as int)),
            pow256(16) == 0x1_0000_0000_0000_0000_0000_0000_0000_0000nat,
        decreases j,
    {
        let ghost rest = bytes@.subrange(j as int, len as int);
        let ghost longer = bytes@.subrange(j - 1, len as int);
        assert(longer.drop_first() =~= rest);
        proof {
            lemma_le_value_bound(longer);
            lemma_pow256_monotone(longer.len(), 16);
        }
        value = (bytes[j - 1] as u128) + 256 * value;
        j = j - 1;
    }
    assert(bytes@.subrange(0, len as int) =~= bytes@);
    if len == 16 {
        uuid_from_u128(value)
    } else {
        proof {
            lemma_le_value_bound(bytes@);
            lemma_pow256_monotone(bytes@.len(), 4);
        }
        uuid_from_u128(value * 0x1_0000_0000_0000_0000_0000_0000 + BASE_UUID)
    }
}

/// What a section of `data_type` holds: the UUID width, and whether it lists solicited
/// services.
pub open spec fn section_kind(data_type: u8) -> Option<(nat, bool)> {
    if data_type == SERVICE_DATA_16 {
        Some((2, false))
    } else if data_type == SERVICE_DATA_32 {
        Some((4, false))
    } else if data_type == SERVICE_DATA_128 {
        Some((16, false))
    } else if data_type == SOLICITED_16 {
        Some((2, true))
    } else if data_type == SOLICITED_32 {
        Some((4, true))
    } else if data_type == SOLICITED_128 {
        Some((16, true))
    } else {
        None
    }
}

/// The UUIDs of the whole `width`-byte chunks of `bytes`, in order.
pub open spec fn chunk_uuids(bytes: Seq<u8>, width: nat, count: nat) -> Seq<Seq<char>>
    decreases count,
{
    if count == 0 {
        Seq::empty()
    } else {
        chunk_uuids(bytes, width, (count - 1) as nat).push(
            le_uuid(bytes.subrange((count - 1) * width, (count * width) as int)),
        )
    }
}

/// A section, by view.
pub enum SectionView {
    ServiceData(Seq<char>, Seq<u8>),
    Solicited(Seq<Seq<char>>),
    Other,
}

impl View for Section {
    type V = SectionView;

    open spec fn view(&self) -> SectionView {
        match self {
            Section::ServiceData(uuid, data) => SectionView::ServiceData(uuid@, data@),
            Section::Solicited(uuids) => SectionView::Solicited(texts(uuids@)),
            Section::Other => SectionView::Other,
        }
    }
}

/// What a section of `data_type` with `bytes` holds.
pub open spec fn section_of(data_type: u8, bytes: Seq<u8>) -> SectionView {
    match section_kind(data_type) {
        None => SectionView::Other,
        Some((width, true)) => SectionView::Solicited(
            chunk_uuids(bytes, width, bytes.len() / width),
        ),
        Some((width, false)) => if bytes.len() < width {
            SectionView::Other
        } else {
            SectionView::ServiceData(
                le_uuid(bytes.subrange(0, width as int)),
                bytes.subrange(width as int, bytes.len() as int),
            )
        },
    }
}

/// Reads the service data and solicited services of an advertising data section. The
/// UUIDs in a section are little-endian.
pub fn parse_section(data_type: u8, bytes: &[u8]) -> (section: Section)
    ensures
        section@ == section_of(data_type, bytes@),
{
    let (width, solicited): (usize, bool) = if data_type == SERVICE_DATA_16 {
        (2, false)
    } else if data_type == SERVICE_DATA_32 {
        (4, false)
    } else if data_type == SERVICE_DATA_128 {
        (16, false)
    } else if data_type == SOLICITED_16 {
        (2, true)
    } else if data_type == SOLICITED_32 {
        (4, true)
    } else if data_type == SOLICITED_128 {
        (16, true)
    } else {
        return Section::Other;
    };
    if solicited {
        let n = bytes.len();
        let count = n / width;
        let mut uuids: Vec<String> = Vec::new();
        let mut k: usize = 0;
        assert(texts(uuids@) =~= chunk_uuids(bytes@, width as nat, 0));
        while k < count
            invariant
                width == 2 || width == 4 || width == 16,
                n == bytes@.len(),
                count == bytes@.len() / (width as nat),
                k <= count,
                texts(uuids@) == chunk_uuids(bytes@, width as nat, k as nat),
            decreases count - k,
        {
            proof {
                assert((k + 1) * width <= count * width) by (nonlinear_arith)
                    requires
                        k < count,
                ;
                assert(count * width <= bytes@.len()) by (nonlinear_arith)
                    requires
                        count == bytes@.len() / (width as nat),
                        width > 0,
                ;
                assert(k * width + width == (k + 1) * width) by (nonlinear_arith);
                assert(k * width + width <= n);
            }
            let chunk = vstd::slice::slice_subrange(bytes, k * width, k * width + width);
            let ghost before = uuids@;
            uuids.push(uuid_from_le(chunk));
            assert(texts(uuids@) =~= texts(before).push(uuids@[uuids@.len() - 1]@));
            k = k + 1;
        }
        return Section::Solicited(uuids);
    }
    if bytes.len() < width {
        return Section::Other;
    }
    let head = vstd::slice::slice_subrange(bytes, 0, width);
    let tail = vstd::slice::slice_subrange(bytes, width, bytes.len());
    let mut data: Vec<u8> = Vec::new();
    let mut i: usize = 0;
    while i < tail.len()
        invariant
            i <= tail@.len(),
            data@ == tail@.subrange(0, i as int),
        decreases tail@.len() - i,
    {
        data.push(tail[i]);
        i = i + 1;
        assert(data@ =~= tail@.subrange(0, i as int));
    }
    assert(tail@.subrange(0, i as int) =~= tail@);
    Section::ServiceData(uuid_from_le(head), data)
}

/// Windows reports 127 when it has no signal strength.
pub fn reported_rssi(raw: i16) -> (rssi: Option<i16>)
    ensures
        rssi == if raw == 127 {
            None
        } else {
            Some(raw)
        },
{
    if raw != 127 {
        Some(raw)
    } else {
        None
    }
}

/// Service data entries, by view.
pub open spec fn data_entries(items: Seq<(String, Vec<u8>)>) -> Seq<(Seq<char>, Seq<u8>)> {
    items.map_values(|e: (String, Vec<u8>)| (e.0@, e.1@))
}

/// Manufacturer data entries, by view.
pub open spec fn company_entries(items: Seq<(u16, Vec<u8>)>) -> Seq<(u16, Seq<u8>)> {
    items.map_values(|e: (u16, Vec<u8>)| (e.0, e.1@))
}

/// What one advertising or scan response packet carries.
#[derive(Clone, Debug, PartialEq, Eq)]
pub struct Packet {
    pub scan_response: bool,
    pub local_name: Option<String>,
    pub service_uuids: Vec<String>,
    pub solicited_uuids: Vec<String>,
    pub service_data: Vec<(String, Vec<u8>)>,
    pub manufacturer_data: Vec<(u16, Vec<u8>)>,
    pub connectable: Option<bool>,
}

/// A packet, by view.
pub struct PacketView {
    pub scan_response: bool,
    pub local_name: Option<Seq<char>>,
    pub service_uuids: Seq<Seq<char>>,
    pub solicited_uuids: Seq<Seq<char>>,
    pub service_data: Seq<(Seq<char>, Seq<u8>)>,
    pub manufacturer_data: Seq<(u16, Seq<u8>)>,
    pub connectable: Option<bool>,
}

impl View for Packet {
    type V = PacketView;

    open spec fn view(&self) -> PacketView {
        PacketView {
            scan_response: self.scan_response,
            local_name: match self.local_name {
                Some(name) => Some(name@),
                None => None,
            },
            service_uuids: texts(self.service_uuids@),
            solicited_uuids: texts(self.solicited_uuids@),
            service_data: data_entries(self.service_data@),
            manufacturer_data: company_entries(self.manufacturer_data@),
            connectable: self.connectable,
        }
    }
}

impl Default for Packet {
    /// An advertisement that carries nothing.
    fn default() -> (packet: Self)
        ensures
            packet@ == (PacketView {
                scan_response: false,
                local_name: None,
                service_uuids: Seq::empty(),
                solicited_uuids: Seq::empty(),
                service_data: Seq::empty(),
                manufacturer_data: Seq::empty(),
                connectable: None,
            }),
    {
        let packet = Packet {
            scan_response: false,
            local_name: None,
            service_uuids: Vec::new(),
            solicited_uuids: Vec::new(),
            service_data: Vec::new(),
            manufacturer_data: Vec::new(),
            connectable: None,
        };
        assert(texts(packet.service_uuids@) =~= Seq::<Seq<char>>::empty());
        assert(texts(packet.solicited_uuids@) =~= Seq::<Seq<char>>::empty());
        assert(data_entries(packet.service_data@) =~= Seq::<(Seq<char>, Seq<u8>)>::empty());
        assert(company_entries(packet.manufacturer_data@) =~= Seq::<(u16, Seq<u8>)>::empty());
        packet
    }
}

impl Packet {
    /// Adds the service data or the solicited services of one section.
    pub fn add_section(&mut self, data_type: u8, bytes: &[u8])
        ensures
            match section_of(data_type, bytes@) {
                SectionView::ServiceData(uuid, data) => final(self)@ == (PacketView {
                    service_data: old(self)@.service_data.push((uuid, data)),
                    ..old(self)@
                }),
                SectionView::Solicited(uuids) => final(self)@ == (PacketView {
                    solicited_uuids: old(self)@.solicited_uuids + uuids,
                    ..old(self)@
                }),
                SectionView::Other => final(self)@ == old(self)@,
            },
    {
        match parse_section(data_type, bytes) {
            Section::ServiceData(uuid, data) => {
                let ghost entry = (uuid@, data@);
                let ghost before = self.service_data@;
                self.service_data.push((uuid, data));
                assert(data_entries(self.service_data@) =~= data_entries(before).push(entry));
            },
            Section::Solicited(uuids) => {
                let ghost added = texts(uuids@);
                let mut i: usize = 0;
                let ghost start = texts(self.solicited_uuids@);
                while i < uuids.len()
                    invariant
                        added == texts(uuids@),
                        i <= uuids@.len(),
                        texts(self.solicited_uuids@) == start + added.subrange(0, i as int),
                        self.scan_response == old(self).scan_response,
                        self.local_name == old(self).local_name,
                        self.service_uuids == old(self).service_uuids,
                        self.service_data == old(self).service_data,
                        self.manufacturer_data == old(self).manufacturer_data,
                        self.connectable == old(self).connectable,
                    decreases uuids@.len() - i,
                {
                    let ghost before = texts(self.solicited_uuids@);
                    let item = uuids[i].clone();
                    assert(item@ == added[i as int]);
                    self.solicited_uuids.push(item);
                    assert(texts(self.solicited_uuids@) =~= before.push(added[i as int]));
                    i = i + 1;
                    assert(texts(self.solicited_uuids@) =~= start + added.subrange(0, i as int));
                }
                assert(added.subrange(0, i as int) =~= added);
            },
            Section::Other => {},
        }
    }
}

/// Whether service data for `uuid` is among `entries`.
pub open spec fn has_data(entries: Seq<(Seq<char>, Seq<u8>)>, uuid: Seq<char>) -> bool {
    exists|i: int| 0 <= i < entries.len() && (#[trigger] entries[i]).0 == uuid
}

/// Whether manufacturer data of `company` is among `entries`.
pub open spec fn has_company(entries: Seq<(u16, Seq<u8>)>, company: u16) -> bool {
    exists|i: int| 0 <= i < entries.len() && (#[trigger] entries[i]).0 == company
}

/// `acc` with the items of `items` it lacks, in order.
pub open spec fn add_texts(acc: Seq<Seq<char>>, items: Seq<Seq<char>>) -> Seq<Seq<char>>
    decreases items.len(),
{
    if items.len() == 0 {
        acc
    } else {
        let prev = add_texts(acc, items.drop_last());
        if prev.contains(items.last()) {
            prev
        } else {
            prev.push(items.last())
        }
    }
}

/// `acc` with the service data of `items` for UUIDs it lacks, in order.
pub open spec fn add_data(acc: Seq<(Seq<char>, Seq<u8>)>, items: Seq<(Seq<char>, Seq<u8>)>) -> Seq<
    (Seq<char>, Seq<u8>),
>
    decreases items.len(),
{
    if items.len() == 0 {
        acc
    } else {
        let prev = add_data(acc, items.drop_last());
        if has_data(prev, items.last().0) {
            prev
        } else {
            prev.push(items.last())
        }
    }
}

/// `acc` with the manufacturer data of `items` for companies it lacks, in order.
pub open spec fn add_companies(acc: Seq<(u16, Seq<u8>)>, items: Seq<(u16, Seq<u8>)>) -> Seq<
    (u16, Seq<u8>),
>
    decreases items.len(),
{
    if items.len() == 0 {
        acc
    } else {
        let prev = add_companies(acc, items.drop_last());
        if has_company(prev, items.last().0) {
            prev
        } else {
            prev.push(items.last())
        }
    }
}

/// A device's latest advertisement merged with its latest scan response.
#[derive(Debug, PartialEq, Eq)]
pub struct Sighting {
    pub local_name: Option<String>,
    pub cached_name: Option<String>,
    pub service_uuids: Vec<String>,
    /// Every UUID a scan filter can match: services, solicited services and service data.
    pub match_uuids: Vec<String>,
    pub service_data: Vec<(String, Vec<u8>)>,
    pub manufacturer_data: Vec<(u16, Vec<u8>)>,
    pub connectable: Option<bool>,
}

/// What one device was last heard with.
pub struct Seen {
    pub advertisement: Option<Packet>,
    pub scan_response: Option<Packet>,
    pub heard: u64,
}

/// A name remembered for a device.
pub struct CachedName {
    pub name: String,
    pub heard: u64,
}

/// What a device was last heard with, by view.
pub struct SeenView {
    pub advertisement: Option<PacketView>,
    pub scan_response: Option<PacketView>,
    pub heard: u64,
}

/// The sightings, by view.
pub struct SightingsView {
    pub devices: Seq<(u64, SeenView)>,
    pub names: Seq<(u64, (Seq<char>, u64))>,
    pub swept: Option<u64>,
}

/// A sighting, by view.
pub struct SightingView {
    pub local_name: Option<Seq<char>>,
    pub cached_name: Option<Seq<char>>,
    pub service_uuids: Seq<Seq<char>>,
    pub match_uuids: Seq<Seq<char>>,
    pub service_data: Seq<(Seq<char>, Seq<u8>)>,
    pub manufacturer_data: Seq<(u16, Seq<u8>)>,
    pub connectable: Option<bool>,
}

impl View for Sighting {
    type V = SightingView;

    open spec fn view(&self) -> SightingView {
        SightingView {
            local_name: match self.local_name {
                Some(n) => Some(n@),
                None => None,
            },
            cached_name: match self.cached_name {
                Some(n) => Some(n@),
                None => None,
            },
            service_uuids: texts(self.service_uuids@),
            match_uuids: texts(self.match_uuids@),
            service_data: data_entries(self.service_data@),
            manufacturer_data: company_entries(self.manufacturer_data@),
            connectable: self.connectable,
        }
    }
}

pub open spec fn seen_view(seen: Seen) -> SeenView {
    SeenView {
        advertisement: match seen.advertisement {
            Some(p) => Some(p@),
            None => None,
        },
        scan_response: match seen.scan_response {
            Some(p) => Some(p@),
            None => None,
        },
        heard: seen.heard,
    }
}

/// The UUIDs of service data entries.
pub open spec fn data_keys(entries: Seq<(Seq<char>, Seq<u8>)>) -> Seq<Seq<char>> {
    entries.map_values(|e: (Seq<char>, Seq<u8>)| e.0)
}

/// Stored devices, by view.
pub open spec fn seen_entries(items: Seq<(u64, Seen)>) -> Seq<(u64, SeenView)> {
    items.map_values(|e: (u64, Seen)| (e.0, seen_view(e.1)))
}

/// Cached names, by view.
pub open spec fn name_entries(items: Seq<(u64, CachedName)>) -> Seq<(u64, (Seq<char>, u64))> {
    items.map_values(|e: (u64, CachedName)| (e.0, (e.1.name@, e.1.heard)))
}

/// The entry last stored for `address`.
pub open spec fn seen_at(devices: Seq<(u64, SeenView)>, address: u64) -> Option<SeenView>
    decreases devices.len(),
{
    if devices.len() == 0 {
        None
    } else if devices.last().0 == address {
        Some(devices.last().1)
    } else {
        seen_at(devices.drop_last(), address)
    }
}

/// The devices without the entries of `address`.
pub open spec fn devices_without(devices: Seq<(u64, SeenView)>, address: u64) -> Seq<(u64, SeenView)>
    decreases devices.len(),
{
    if devices.len() == 0 {
        devices
    } else if devices.last().0 == address {
        devices_without(devices.drop_last(), address)
    } else {
        devices_without(devices.drop_last(), address).push(devices.last())
    }
}

/// The devices heard within the lifetime at `now`.
pub open spec fn still_heard(devices: Seq<(u64, SeenView)>, now: u64) -> Seq<(u64, SeenView)>
    decreases devices.len(),
{
    if devices.len() == 0 {
        devices
    } else if since(now, devices.last().1.heard) < SIGHTING_LIFETIME_MS {
        still_heard(devices.drop_last(), now).push(devices.last())
    } else {
        still_heard(devices.drop_last(), now)
    }
}

/// The name last stored for `address`.
pub open spec fn name_at(names: Seq<(u64, (Seq<char>, u64))>, address: u64) -> Option<(Seq<char>, u64)>
    decreases names.len(),
{
    if names.len() == 0 {
        None
    } else if names.last().0 == address {
        Some(names.last().1)
    } else {
        name_at(names.drop_last(), address)
    }
}

/// The names without those of `address`.
pub open spec fn names_without(names: Seq<(u64, (Seq<char>, u64))>, address: u64) -> Seq<(u64, (Seq<char>, u64))>
    decreases names.len(),
{
    if names.len() == 0 {
        names
    } else if names.last().0 == address {
        names_without(names.drop_last(), address)
    } else {
        names_without(names.drop_last(), address).push(names.last())
    }
}

/// The index of the first name heard longest ago.
pub open spec fn oldest(names: Seq<(u64, (Seq<char>, u64))>) -> int
    decreases names.len(),
{
    if names.len() <= 1 {
        0
    } else {
        let k = oldest(names.drop_last());
        if names.last().1.1 < names[k].1.1 {
            names.len() - 1
        } else {
            k
        }
    }
}

/// The names with `name` for `address`, heard at `now`; past the cache size, the name
/// heard longest ago goes.
pub open spec fn remembered(names: Seq<(u64, (Seq<char>, u64))>, address: u64, name: Seq<char>, now: u64) -> Seq<(u64, (Seq<char>, u64))> {
    let stored = names_without(names, address).push((address, (name, now)));
    if stored.len() > CACHED_NAMES {
        stored.remove(oldest(stored))
    } else {
        stored
    }
}

/// The sightings after the sweep at `now`.
pub open spec fn swept_at(v: SightingsView, now: u64) -> SightingsView {
    match v.swept {
        Some(s) if since(now, s) < SWEEP_INTERVAL_MS => v,
        _ => SightingsView { swept: Some(now), devices: still_heard(v.devices, now), ..v },
    }
}

/// The packets of a device, the advertisement first.
pub open spec fn parts_of(seen: SeenView) -> Seq<PacketView> {
    (match seen.advertisement {
        Some(p) => seq![p],
        None => Seq::empty(),
    }) + (match seen.scan_response {
        Some(p) => seq![p],
        None => Seq::empty(),
    })
}

/// The first non-empty local name of the parts.
pub open spec fn first_name(parts: Seq<PacketView>) -> Option<Seq<char>>
    decreases parts.len(),
{
    if parts.len() == 0 {
        None
    } else {
        match parts[0].local_name {
            Some(n) if n.len() > 0 => Some(n),
            _ => first_name(parts.drop_first()),
        }
    }
}

/// The merged service UUIDs, service data and manufacturer data of the parts, and
/// their solicited UUIDs.
pub open spec fn merged_parts(parts: Seq<PacketView>) -> (
    Seq<Seq<char>>,
    Seq<(Seq<char>, Seq<u8>)>,
    Seq<(u16, Seq<u8>)>,
    Seq<Seq<char>>,
)
    decreases parts.len(),
{
    if parts.len() == 0 {
        (Seq::empty(), Seq::empty(), Seq::empty(), Seq::empty())
    } else {
        let (u, d, m, s) = merged_parts(parts.drop_last());
        let p = parts.last();
        (
            add_texts(u, p.service_uuids),
            add_data(d, p.service_data),
            add_companies(m, p.manufacturer_data),
            s + p.solicited_uuids,
        )
    }
}

/// The sighting of a device heard with `seen`, with its cached name.
pub open spec fn sighting_of(seen: SeenView, cached: Option<Seq<char>>) -> SightingView {
    let parts = parts_of(seen);
    let (uuids, data, companies, solicited) = merged_parts(parts);
    SightingView {
        local_name: first_name(parts),
        cached_name: cached,
        service_uuids: uuids,
        match_uuids: solicited + uuids + data_keys(data),
        service_data: data,
        manufacturer_data: companies,
        connectable: match seen.advertisement {
            Some(p) => p.connectable,
            None => None,
        },
    }
}

/// The sightings after recording `packet` of `address` at `now`, and the sighting.
pub open spec fn recorded(v: SightingsView, address: u64, packet: PacketView, now: u64) -> (
    SightingsView,
    SightingView,
) {
    let v1 = swept_at(v, now);
    let v2 = match packet.local_name {
        Some(n) if n.len() > 0 => SightingsView {
            names: remembered(v1.names, address, n, now),
            ..v1
        },
        _ => v1,
    };
    let before = match seen_at(v2.devices, address) {
        Some(s) => s,
        None => SeenView { advertisement: None, scan_response: None, heard: now },
    };
    let seen = if packet.scan_response {
        SeenView { scan_response: Some(packet), heard: now, ..before }
    } else {
        SeenView { advertisement: Some(packet), heard: now, ..before }
    };
    let v3 = SightingsView {
        devices: devices_without(v2.devices, address).push((address, seen)),
        ..v2
    };
    (
        v3,
        sighting_of(
            seen,
            match name_at(v3.names, address) {
                Some(n) => Some(n.0),
                None => None,
            },
        ),
    )
}

fn copy_bytes(bytes: &Vec<u8>) -> (copy: Vec<u8>)
    ensures
        copy@ == bytes@,
{
    let mut copy: Vec<u8> = Vec::new();
    let mut i: usize = 0;
    while i < bytes.len()
        invariant
            i <= bytes@.len(),
            copy@ == bytes@.subrange(0, i as int),
        decreases bytes@.len() - i,
    {
        copy.push(bytes[i]);
        i = i + 1;
        assert(copy@ =~= bytes@.subrange(0, i as int));
    }
    assert(bytes@.subrange(0, i as int) =~= bytes@);
    copy
}

fn add_uuid_texts(acc: &mut Vec<String>, items: &Vec<String>)
    ensures
        texts(final(acc)@) == add_texts(texts(old(acc)@), texts(items@)),
{
    let ghost start = texts(acc@);
    let ghost all = texts(items@);
    let mut i: usize = 0;
    assert(all.subrange(0, 0) =~= Seq::<Seq<char>>::empty());
    while i < items.len()
        invariant
            start == texts(old(acc)@),
            all == texts(items@),
            i <= items@.len(),
            texts(acc@) == add_texts(start, all.subrange(0, i as int)),
        decreases items@.len() - i,
    {
        let ghost prefix = all.subrange(0, i + 1);
        assert(prefix.drop_last() =~= all.subrange(0, i as int));
        assert(prefix.last() == items@[i as int]@);
        if !contains_text(acc, items[i].as_str()) {
            let ghost before = texts(acc@);
            acc.push(items[i].clone());
            assert(texts(acc@) =~= before.push(items@[i as int]@));
        }
        i = i + 1;
    }
    assert(all.subrange(0, i as int) =~= all);
}

fn has_data_exec(acc: &Vec<(String, Vec<u8>)>, uuid: &String) -> (found: bool)
    ensures
        found == has_data(data_entries(acc@), uuid@),
{
    let mut i: usize = 0;
    while i < acc.len()
        invariant
            i <= acc@.len(),
            forall|j: int| 0 <= j < i ==> data_entries(acc@)[j].0 != uuid@,
        decreases acc@.len() - i,
    {
        if acc[i].0 == *uuid {
            assert(data_entries(acc@)[i as int].0 == uuid@);
            return true;
        }
        i = i + 1;
    }
    false
}

fn add_service_data(acc: &mut Vec<(String, Vec<u8>)>, items: &Vec<(String, Vec<u8>)>)
    ensures
        data_entries(final(acc)@) == add_data(data_entries(old(acc)@), data_entries(items@)),
{
    let ghost start = data_entries(acc@);
    let ghost all = data_entries(items@);
    let mut i: usize = 0;
    assert(all.subrange(0, 0) =~= Seq::<(Seq<char>, Seq<u8>)>::empty());
    while i < items.len()
        invariant
            start == data_entries(old(acc)@),
            all == data_entries(items@),
            i <= items@.len(),
            data_entries(acc@) == add_data(start, all.subrange(0, i as int)),
        decreases items@.len() - i,
    {
        let ghost prefix = all.subrange(0, i + 1);
        assert(prefix.drop_last() =~= all.subrange(0, i as int));
        assert(prefix.last() == (items@[i as int].0@, items@[i as int].1@));
        if !has_data_exec(acc, &items[i].0) {
            let ghost before = data_entries(acc@);
            acc.push((items[i].0.clone(), copy_bytes(&items[i].1)));
            assert(data_entries(acc@) =~= before.push(prefix.last()));
        }
        i = i + 1;
    }
    assert(all.subrange(0, i as int) =~= all);
}

fn has_company_exec(acc: &Vec<(u16, Vec<u8>)>, company: u16) -> (found: bool)
    ensures
        found == has_company(company_entries(acc@), company),
{
    let mut i: usize = 0;
    while i < acc.len()
        invariant
            i <= acc@.len(),
            forall|j: int| 0 <= j < i ==> company_entries(acc@)[j].0 != company,
        decreases acc@.len() - i,
    {
        if acc[i].0 == company {
            assert(company_entries(acc@)[i as int].0 == company);
            return true;
        }
        i = i + 1;
    }
    false
}

fn add_company_data(acc: &mut Vec<(u16, Vec<u8>)>, items: &Vec<(u16, Vec<u8>)>)
    ensures
        company_entries(final(acc)@) == add_companies(company_entries(old(acc)@), company_entries(items@)),
{
    let ghost start = company_entries(acc@);
    let ghost all = company_entries(items@);
    let mut i: usize = 0;
    assert(all.subrange(0, 0) =~= Seq::<(u16, Seq<u8>)>::empty());
    while i < items.len()
        invariant
            start == company_entries(old(acc)@),
            all == company_entries(items@),
            i <= items@.len(),
            company_entries(acc@) == add_companies(start, all.subrange(0, i as int)),
        decreases items@.len() - i,
    {
        let ghost prefix = all.subrange(0, i + 1);
        assert(prefix.drop_last() =~= all.subrange(0, i as int));
        assert(prefix.last() == (items@[i as int].0, items@[i as int].1@));
        if !has_company_exec(acc, items[i].0) {
            let ghost before = company_entries(acc@);
            acc.push((items[i].0, copy_bytes(&items[i].1)));
            assert(company_entries(acc@) =~= before.push(prefix.last()));
        }
        i = i + 1;
    }
    assert(all.subrange(0, i as int) =~= all);
}

fn extend_texts(acc: &mut Vec<String>, items: &Vec<String>)
    ensures
        texts(final(acc)@) == texts(old(acc)@) + texts(items@),
{
    let ghost start = texts(acc@);
    let mut i: usize = 0;
    while i < items.len()
        invariant
            start == texts(old(acc)@),
            i <= items@.len(),
            texts(acc@) == start + texts(items@).subrange(0, i as int),
        decreases items@.len() - i,
    {
        let ghost before = texts(acc@);
        acc.push(items[i].clone());
        assert(texts(acc@) =~= before.push(texts(items@)[i as int]));
        i = i + 1;
        assert(texts(acc@) =~= start + texts(items@).subrange(0, i as int));
    }
    assert(texts(items@).subrange(0, i as int) =~= texts(items@));
}

/// The merge of one packet into the parts merged so far.
struct Merge {
    uuids: Vec<String>,
    data: Vec<(String, Vec<u8>)>,
    companies: Vec<(u16, Vec<u8>)>,
    solicited: Vec<String>,
}

impl Merge {
    spec fn model(&self) -> (Seq<Seq<char>>, Seq<(Seq<char>, Seq<u8>)>, Seq<(u16, Seq<u8>)>, Seq<Seq<char>>) {
        (
            texts(self.uuids@),
            data_entries(self.data@),
            company_entries(self.companies@),
            texts(self.solicited@),
        )
    }

    fn add(&mut self, part: &Packet)
        ensures
            final(self).model() == ({
                let (u, d, m, s) = old(self).model();
                let p = part@;
                (
                    add_texts(u, p.service_uuids),
                    add_data(d, p.service_data),
                    add_companies(m, p.manufacturer_data),
                    s + p.solicited_uuids,
                )
            }),
    {
        add_uuid_texts(&mut self.uuids, &part.service_uuids);
        add_service_data(&mut self.data, &part.service_data);
        add_company_data(&mut self.companies, &part.manufacturer_data);
        extend_texts(&mut self.solicited, &part.solicited_uuids);
    }
}

fn nonempty_name(name: &Option<String>) -> (found: Option<String>)
    ensures
        match *name {
            Some(n) if n@.len() > 0 => found matches Some(f) && f@ == n@,
            _ => found is None,
        },
{
    match name {
        Some(n) => if n.as_str().is_empty() {
            None
        } else {
            Some(n.clone())
        },
        None => None,
    }
}

/// The packets of recently heard devices and the names heard most recently.
pub struct Sightings {
    devices: Vec<(u64, Seen)>,
    names: Vec<(u64, CachedName)>,
    swept: Option<u64>,
}

impl View for Sightings {
    type V = SightingsView;

    closed spec fn view(&self) -> SightingsView {
        SightingsView {
            devices: seen_entries(self.devices@),
            names: name_entries(self.names@),
            swept: self.swept,
        }
    }
}

impl Default for Sightings {
    fn default() -> (sightings: Self)
        ensures
            sightings@.devices.len() == 0,
            sightings@.names.len() == 0,
            sightings@.swept is None,
    {
        Sightings { devices: Vec::new(), names: Vec::new(), swept: None }
    }
}

impl Sightings {
    /// Whether the packets of `address` are kept.
    pub fn knows(&self, address: u64) -> (known: bool)
        ensures
            known == (seen_at(self@.devices, address) is Some),
    {
        let ghost all = self@.devices;
        let mut i = self.devices.len();
        assert(all.subrange(0, i as int) =~= all);
        while i > 0
            invariant
                all == self@.devices,
                i <= self.devices@.len(),
                seen_at(all, address) == seen_at(all.subrange(0, i as int), address),
            decreases i,
        {
            let ghost part = all.subrange(0, i as int);
            assert(part.drop_last() =~= all.subrange(0, i - 1));
            if self.devices[i - 1].0 == address {
                return true;
            }
            i = i - 1;
        }
        false
    }

    /// How many names are cached.
    pub fn cached_names(&self) -> (count: usize)
        ensures
            count == self@.names.len(),
    {
        self.names.len()
    }

    /// Forgets the packets when no scan runs. Cached names stay.
    pub fn forget_packets(&mut self)
        ensures
            final(self)@ == (SightingsView { devices: Seq::empty(), ..old(self)@ }),
    {
        self.devices = Vec::new();
        assert(self@.devices =~= Seq::<(u64, SeenView)>::empty());
    }

    /// Forgets the packets of the devices not heard for the lifetime, at most once per
    /// sweep interval.
    fn sweep(&mut self, now_ms: u64)
        ensures
            final(self)@ == swept_at(old(self)@, now_ms),
    {
        match self.swept {
            Some(s) => if now_ms.saturating_sub(s) < SWEEP_INTERVAL_MS {
                return ;
            },
            None => {},
        }
        self.swept = Some(now_ms);
        let ghost all = self@.devices;
        let mut rest: Vec<(u64, Seen)> = Vec::new();
        std::mem::swap(&mut rest, &mut self.devices);
        let mut kept: Vec<(u64, Seen)> = Vec::new();
        let ghost mut done: int = 0;
        assert(all.subrange(0, 0) =~= Seq::<(u64, SeenView)>::empty());
        assert(seen_entries(kept@) =~= Seq::<(u64, SeenView)>::empty());
        while rest.len() > 0
            invariant
                0 <= done <= all.len(),
                done + rest@.len() == all.len(),
                seen_entries(rest@) == all.subrange(done, all.len() as int),
                seen_entries(kept@) == still_heard(all.subrange(0, done), now_ms),
            decreases rest@.len(),
        {
            let ghost prefix = all.subrange(0, done + 1);
            assert(prefix.drop_last() =~= all.subrange(0, done));
            let ghost rest_view = seen_entries(rest@);
            assert(rest_view[0] == all[done]);
            let ghost old_rest = rest@;
            let entry = rest.remove(0);
            assert(prefix.last() == (entry.0, seen_view(entry.1)));
            if now_ms.saturating_sub(entry.1.heard) < SIGHTING_LIFETIME_MS {
                let ghost before = seen_entries(kept@);
                let ghost entry_view = (entry.0, seen_view(entry.1));
                kept.push(entry);
                assert(seen_entries(kept@) =~= before.push(entry_view));
            }
            proof {
                done = done + 1;
                assert forall|j: int| 0 <= j < rest@.len() implies seen_entries(rest@)[j] == all[done + j] by {
                    assert(rest@[j] == old_rest[j + 1]);
                    assert(rest_view[j + 1] == all[done + j]);
                }
            }
            assert(seen_entries(rest@) =~= all.subrange(done, all.len() as int));
        }
        assert(all.subrange(0, done) =~= all);
        self.devices = kept;
    }

    /// Keeps the name of `address`. Past the cache size, the name heard longest ago goes.
    fn remember_name(&mut self, address: u64, name: &str, now_ms: u64)
        ensures
            final(self)@ == (SightingsView {
                names: remembered(old(self)@.names, address, name@, now_ms),
                ..old(self)@
            }),
    {
        let ghost all = self@.names;
        let mut rest: Vec<(u64, CachedName)> = Vec::new();
        std::mem::swap(&mut rest, &mut self.names);
        let mut kept: Vec<(u64, CachedName)> = Vec::new();
        let ghost mut done: int = 0;
        assert(all.subrange(0, 0) =~= Seq::<(u64, (Seq<char>, u64))>::empty());
        assert(name_entries(kept@) =~= Seq::<(u64, (Seq<char>, u64))>::empty());
        while rest.len() > 0
            invariant
                0 <= done <= all.len(),
                done + rest@.len() == all.len(),
                name_entries(rest@) == all.subrange(done, all.len() as int),
                name_entries(kept@) == names_without(all.subrange(0, done), address),
            decreases rest@.len(),
        {
            let ghost prefix = all.subrange(0, done + 1);
            assert(prefix.drop_last() =~= all.subrange(0, done));
            let ghost rest_view = name_entries(rest@);
            assert(rest_view[0] == all[done]);
            let ghost old_rest = rest@;
            let entry = rest.remove(0);
            assert(prefix.last() == (entry.0, (entry.1.name@, entry.1.heard)));
            if entry.0 != address {
                let ghost before = name_entries(kept@);
                let ghost entry_view = (entry.0, (entry.1.name@, entry.1.heard));
                kept.push(entry);
                assert(name_entries(kept@) =~= before.push(entry_view));
            }
            proof {
                done = done + 1;
                assert forall|j: int| 0 <= j < rest@.len() implies name_entries(rest@)[j] == all[done + j] by {
                    assert(rest@[j] == old_rest[j + 1]);
                    assert(rest_view[j + 1] == all[done + j]);
                }
            }
            assert(name_entries(rest@) =~= all.subrange(done, all.len() as int));
        }
        assert(all.subrange(0, done) =~= all);
        let ghost before = name_entries(kept@);
        kept.push((address, CachedName { name: name.to_owned(), heard: now_ms }));
        let ghost stored = name_entries(kept@);
        assert(stored =~= before.push((address, (name@, now_ms))));
        if kept.len() > CACHED_NAMES {
            let mut k: usize = 0;
            let mut j: usize = 1;
            while j < kept.len()
                invariant
                    stored == name_entries(kept@),
                    stored.len() > 1,
                    1 <= j <= stored.len(),
                    k as int == oldest(stored.subrange(0, j as int)),
                    k < j,
                decreases stored.len() - j,
            {
                let ghost part = stored.subrange(0, j + 1);
                assert(part.drop_last() =~= stored.subrange(0, j as int));
                assert(part[k as int] == stored[k as int]);
                if kept[j].1.heard < kept[k].1.heard {
                    k = j;
                }
                j = j + 1;
            }
            assert(stored.subrange(0, j as int) =~= stored);
            kept.remove(k);
            assert(name_entries(kept@) =~= stored.remove(k as int));
        }
        self.names = kept;
    }

    fn take_seen(&mut self, address: u64) -> (seen: Option<Seen>)
        ensures
            match seen {
                Some(s) => seen_at(old(self)@.devices, address) == Some(seen_view(s)),
                None => seen_at(old(self)@.devices, address) is None,
            },
            final(self)@ == (SightingsView {
                devices: devices_without(old(self)@.devices, address),
                ..old(self)@
            }),
    {
        let ghost all = self@.devices;
        let mut rest: Vec<(u64, Seen)> = Vec::new();
        std::mem::swap(&mut rest, &mut self.devices);
        let mut kept: Vec<(u64, Seen)> = Vec::new();
        let mut found: Option<Seen> = None;
        let ghost mut done: int = 0;
        assert(all.subrange(0, 0) =~= Seq::<(u64, SeenView)>::empty());
        assert(seen_entries(kept@) =~= Seq::<(u64, SeenView)>::empty());
        while rest.len() > 0
            invariant
                0 <= done <= all.len(),
                done + rest@.len() == all.len(),
                seen_entries(rest@) == all.subrange(done, all.len() as int),
                seen_entries(kept@) == devices_without(all.subrange(0, done), address),
                match found {
                    Some(s) => seen_at(all.subrange(0, done), address) == Some(seen_view(s)),
                    None => seen_at(all.subrange(0, done), address) is None,
                },
            decreases rest@.len(),
        {
            let ghost prefix = all.subrange(0, done + 1);
            assert(prefix.drop_last() =~= all.subrange(0, done));
            let ghost rest_view = seen_entries(rest@);
            assert(rest_view[0] == all[done]);
            let ghost old_rest = rest@;
            let entry = rest.remove(0);
            assert(prefix.last() == (entry.0, seen_view(entry.1)));
            if entry.0 != address {
                let ghost before = seen_entries(kept@);
                let ghost entry_view = (entry.0, seen_view(entry.1));
                kept.push(entry);
                assert(seen_entries(kept@) =~= before.push(entry_view));
            } else {
                found = Some(entry.1);
            }
            proof {
                done = done + 1;
                assert forall|j: int| 0 <= j < rest@.len() implies seen_entries(rest@)[j] == all[done + j] by {
                    assert(rest@[j] == old_rest[j + 1]);
                    assert(rest_view[j + 1] == all[done + j]);
                }
            }
            assert(seen_entries(rest@) =~= all.subrange(done, all.len() as int));
        }
        assert(all.subrange(0, done) =~= all);
        self.devices = kept;
        found
    }

    fn name_of(&self, address: u64) -> (name: Option<String>)
        ensures
            match name {
                Some(n) => name_at(self@.names, address) matches Some(entry) && entry.0 == n@,
                None => name_at(self@.names, address) is None,
            },
    {
        let ghost all = self@.names;
        let mut i = self.names.len();
        assert(all.subrange(0, i as int) =~= all);
        while i > 0
            invariant
                all == self@.names,
                i <= self.names@.len(),
                name_at(all, address) == name_at(all.subrange(0, i as int), address),
            decreases i,
        {
            let ghost part = all.subrange(0, i as int);
            assert(part.drop_last() =~= all.subrange(0, i - 1));
            if self.names[i - 1].0 == address {
                return Some(self.names[i - 1].1.name.clone());
            }
            i = i - 1;
        }
        None
    }

    /// Records one packet of `address` heard at `now_ms` and returns the device's merged
    /// sighting.
    pub fn record(&mut self, address: u64, packet: Packet, now_ms: u64) -> (sighting: Sighting)
        ensures
            (final(self)@, sighting@) == recorded(old(self)@, address, packet@, now_ms),
    {
        self.sweep(now_ms);
        match &packet.local_name {
            Some(name) => if !name.as_str().is_empty() {
                self.remember_name(address, name.as_str(), now_ms);
            },
            None => {},
        }
        let before = match self.take_seen(address) {
            Some(s) => s,
            None => Seen { advertisement: None, scan_response: None, heard: now_ms },
        };
        let mut seen = before;
        seen.heard = now_ms;
        if packet.scan_response {
            seen.scan_response = Some(packet);
        } else {
            seen.advertisement = Some(packet);
        }
        let mut merge = Merge {
            uuids: Vec::new(),
            data: Vec::new(),
            companies: Vec::new(),
            solicited: Vec::new(),
        };
        assert(merge.model() == merged_parts(Seq::<PacketView>::empty()));
        let ghost parts = parts_of(seen_view(seen));
        let mut local_name: Option<String> = None;
        match &seen.advertisement {
            Some(p) => {
                merge.add(p);
                local_name = nonempty_name(&p.local_name);
            },
            None => {},
        }
        match &seen.scan_response {
            Some(p) => {
                merge.add(p);
                if local_name.is_none() {
                    local_name = nonempty_name(&p.local_name);
                }
            },
            None => {},
        }
        proof {
            reveal_with_fuel(merged_parts, 3);
            reveal_with_fuel(first_name, 3);
            let adv: Seq<PacketView> = match seen_view(seen).advertisement {
                Some(p) => seq![p],
                None => Seq::empty(),
            };
            let resp: Seq<PacketView> = match seen_view(seen).scan_response {
                Some(p) => seq![p],
                None => Seq::empty(),
            };
            assert(parts =~= adv + resp);
            if adv.len() > 0 && resp.len() > 0 {
                assert(parts.drop_last() =~= adv);
                assert(parts.drop_first() =~= resp);
                assert(adv.drop_last() =~= Seq::<PacketView>::empty());
                assert(resp.drop_first() =~= Seq::<PacketView>::empty());
            } else if adv.len() > 0 {
                assert(parts =~= adv);
                assert(adv.drop_last() =~= Seq::<PacketView>::empty());
                assert(adv.drop_first() =~= Seq::<PacketView>::empty());
            } else if resp.len() > 0 {
                assert(parts =~= resp);
                assert(resp.drop_last() =~= Seq::<PacketView>::empty());
                assert(resp.drop_first() =~= Seq::<PacketView>::empty());
            } else {
                assert(parts =~= Seq::<PacketView>::empty());
            }
        }
        let cached = self.name_of(address);
        let connectable = match &seen.advertisement {
            Some(p) => p.connectable,
            None => None,
        };
        let mut match_uuids: Vec<String> = Vec::new();
        extend_texts(&mut match_uuids, &merge.solicited);
        extend_texts(&mut match_uuids, &merge.uuids);
        let mut i: usize = 0;
        let ghost base = texts(match_uuids@);
        let ghost keys = data_keys(data_entries(merge.data@));
        while i < merge.data.len()
            invariant
                keys == data_keys(data_entries(merge.data@)),
                i <= merge.data@.len(),
                texts(match_uuids@) == base + keys.subrange(0, i as int),
            decreases merge.data@.len() - i,
        {
            let ghost before = texts(match_uuids@);
            match_uuids.push(merge.data[i].0.clone());
            assert(texts(match_uuids@) =~= before.push(keys[i as int]));
            i = i + 1;
            assert(texts(match_uuids@) =~= base + keys.subrange(0, i as int));
        }
        assert(keys.subrange(0, i as int) =~= keys);
        let ghost seen_final = seen_view(seen);
        let ghost before_push = self@.devices;
        self.devices.push((address, seen));
        assert(self@.devices =~= before_push.push((address, seen_final)));
        Sighting {
            local_name,
            cached_name: cached,
            service_uuids: merge.uuids,
            match_uuids,
            service_data: merge.data,
            manufacturer_data: merge.companies,
            connectable,
        }
    }
}

/// The text of the first service data entry whose UUID is in `filter` and whose bytes
/// are non-empty UTF-8.
pub open spec fn filter_data_text(entries: Seq<(Seq<char>, Seq<u8>)>, filter: Seq<Seq<char>>) -> Option<
    Seq<char>,
>
    decreases entries.len(),
{
    if entries.len() == 0 {
        None
    } else if filter.contains(entries[0].0) && entries[0].1.len() > 0 && valid_utf8(entries[0].1) {
        Some(decode_utf8(entries[0].1))
    } else {
        filter_data_text(entries.drop_first(), filter)
    }
}

/// The advertised local name; else the UTF-8 service data of a filter UUID; else the
/// cached name.
pub open spec fn name_for(sighting: SightingView, filter: Seq<Seq<char>>) -> Option<Seq<char>> {
    match sighting.local_name {
        Some(n) => Some(n),
        None => match filter_data_text(sighting.service_data, filter) {
            Some(t) => Some(t),
            None => sighting.cached_name,
        },
    }
}

/// The advertised local name; else the UTF-8 service data of a filter UUID, which is how
/// an Android or Windows host advertises its name; else the cached name.
pub fn device_name(sighting: &Sighting, filter: &ScanFilter) -> (name: Option<String>)
    ensures
        match name {
            Some(n) => name_for(sighting@, texts(filter.0@)) == Some(n@),
            None => name_for(sighting@, texts(filter.0@)) is None,
        },
{
    match &sighting.local_name {
        Some(n) => {
            return Some(n.clone());
        },
        None => {},
    }
    let ghost all = sighting@.service_data;
    let ghost wanted = texts(filter.0@);
    let mut i: usize = 0;
    assert(all.subrange(0, all.len() as int) =~= all);
    while i < sighting.service_data.len()
        invariant
            all == data_entries(sighting.service_data@),
            wanted == texts(filter.0@),
            sighting.local_name is None,
            i <= all.len(),
            filter_data_text(all, wanted) == filter_data_text(all.subrange(i as int, all.len() as int), wanted),
        decreases all.len() - i,
    {
        let ghost part = all.subrange(i as int, all.len() as int);
        assert(part.drop_first() =~= all.subrange(i + 1, all.len() as int));
        assert(part[0] == (sighting.service_data@[i as int].0@, sighting.service_data@[i as int].1@));
        let entry = &sighting.service_data[i];
        if filter.contains(entry.0.as_str()) && entry.1.len() > 0 {
            match utf8_text(entry.1.as_slice()) {
                Some(t) => {
                    assert(wanted.contains(part[0].0));
                    proof {
                        vstd::utf8::encode_utf8_decode_utf8(t@);
                    }
                    assert(entry.1@ == part[0].1);
                    assert(valid_utf8(part[0].1));
                    assert(filter_data_text(part, wanted) == Some(decode_utf8(part[0].1)));
                    return Some(t);
                },
                None => {},
            }
        }
        i = i + 1;
    }
    match &sighting.cached_name {
        Some(n) => Some(n.clone()),
        None => None,
    }
}

/// The base64 texts of service data entries.
pub open spec fn encoded_service_data(entries: Seq<(Seq<char>, Seq<u8>)>) -> Seq<(Seq<char>, Seq<char>)> {
    entries.map_values(|e: (Seq<char>, Seq<u8>)| (e.0, standard_base64_encoded(e.1)))
}

/// The base64 texts of manufacturer data entries.
pub open spec fn encoded_manufacturer_data(entries: Seq<(u16, Seq<u8>)>) -> Seq<(u16, Seq<char>)> {
    entries.map_values(|e: (u16, Seq<u8>)| (e.0, standard_base64_encoded(e.1)))
}

/// Service data of a scan result, by view.
pub open spec fn service_data_view(items: Seq<ServiceData>) -> Seq<(Seq<char>, Seq<char>)> {
    items.map_values(|d: ServiceData| (d.service_uuid@, d.bytes_base64@))
}

/// Manufacturer data of a scan result, by view.
pub open spec fn manufacturer_data_view(items: Seq<ManufacturerData>) -> Seq<(u16, Seq<char>)> {
    items.map_values(|d: ManufacturerData| (d.company_id, d.bytes_base64@))
}

/// Every data entry of the sighting has a base64 text whose length fits in `usize`.
pub open spec fn encodable(sighting: SightingView) -> bool {
    &&& forall|i: int| 0 <= i < sighting.service_data.len() ==> base64_fits(#[trigger] sighting.service_data[i].1.len())
    &&& forall|i: int| 0 <= i < sighting.manufacturer_data.len() ==> base64_fits(#[trigger] sighting.manufacturer_data[i].1.len())
}

/// The scan result of one sighting for one scan.
pub fn discovered(
    device_id: &str,
    scan_id: &ScanId,
    sighting: &Sighting,
    filter: &ScanFilter,
    rssi: Option<i16>,
    observed_at_millis: u64,
) -> (device: DiscoveredDevice)
    requires
        encodable(sighting@),
    ensures
        device.id@ == device_id@,
        device.scan_id@ == scan_id@,
        device.rssi == rssi,
        device.observed_at_millis == observed_at_millis,
        match device.name {
            Some(n) => name_for(sighting@, texts(filter.0@)) == Some(n@),
            None => name_for(sighting@, texts(filter.0@)) is None,
        },
        texts(device.service_uuids@) == sighting@.service_uuids,
        device.advertisement matches Some(a) && {
            &&& a.local_name.is_some() == sighting@.local_name.is_some()
            &&& (a.local_name matches Some(n) ==> sighting@.local_name == Some(n@))
            &&& service_data_view(a.service_data@) == encoded_service_data(sighting@.service_data)
            &&& manufacturer_data_view(a.manufacturer_data@) == encoded_manufacturer_data(
                sighting@.manufacturer_data,
            )
            &&& a.connectable == sighting@.connectable
        },
{
    let mut service_uuids: Vec<String> = Vec::new();
    let mut i: usize = 0;
    while i < sighting.service_uuids.len()
        invariant
            i <= sighting.service_uuids@.len(),
            texts(service_uuids@) == texts(sighting.service_uuids@).subrange(0, i as int),
        decreases sighting.service_uuids@.len() - i,
    {
        let ghost before = texts(service_uuids@);
        service_uuids.push(sighting.service_uuids[i].clone());
        assert(texts(service_uuids@) =~= before.push(texts(sighting.service_uuids@)[i as int]));
        i = i + 1;
        assert(texts(service_uuids@) =~= texts(sighting.service_uuids@).subrange(0, i as int));
    }
    assert(texts(sighting.service_uuids@).subrange(0, i as int) =~= texts(sighting.service_uuids@));
    let ghost data = sighting@.service_data;
    let mut service_data: Vec<ServiceData> = Vec::new();
    let mut i: usize = 0;
    while i < sighting.service_data.len()
        invariant
            data == data_entries(sighting.service_data@),
            encodable(sighting@),
            i <= data.len(),
            service_data_view(service_data@) == encoded_service_data(data).subrange(0, i as int),
        decreases data.len() - i,
    {
        assert(data[i as int].1 == sighting.service_data@[i as int].1@);
        assert(base64_fits(sighting@.service_data[i as int].1.len()));
        let ghost before = service_data_view(service_data@);
        let entry = ServiceData {
            service_uuid: sighting.service_data[i].0.clone(),
            bytes_base64: encode_base64(sighting.service_data[i].1.as_slice()),
        };
        service_data.push(entry);
        assert(service_data_view(service_data@) =~= before.push(encoded_service_data(data)[i as int]));
        i = i + 1;
        assert(service_data_view(service_data@) =~= encoded_service_data(data).subrange(0, i as int));
    }
    assert(encoded_service_data(data).subrange(0, i as int) =~= encoded_service_data(data));
    let ghost companies = sighting@.manufacturer_data;
    let mut manufacturer_data: Vec<ManufacturerData> = Vec::new();
    let mut i: usize = 0;
    while i < sighting.manufacturer_data.len()
        invariant
            companies == company_entries(sighting.manufacturer_data@),
            encodable(sighting@),
            i <= companies.len(),
            manufacturer_data_view(manufacturer_data@) == encoded_manufacturer_data(companies).subrange(0, i as int),
        decreases companies.len() - i,
    {
        assert(companies[i as int].1 == sighting.manufacturer_data@[i as int].1@);
        assert(base64_fits(sighting@.manufacturer_data[i as int].1.len()));
        let ghost before = manufacturer_data_view(manufacturer_data@);
        let entry = ManufacturerData {
            company_id: sighting.manufacturer_data[i].0,
            bytes_base64: encode_base64(sighting.manufacturer_data[i].1.as_slice()),
        };
        manufacturer_data.push(entry);
        assert(manufacturer_data_view(manufacturer_data@) =~= before.push(encoded_manufacturer_data(companies)[i as int]));
        i = i + 1;
        assert(manufacturer_data_view(manufacturer_data@) =~= encoded_manufacturer_data(companies).subrange(0, i as int));
    }
    assert(encoded_manufacturer_data(companies).subrange(0, i as int) =~= encoded_manufacturer_data(companies));
    let local_name = match &sighting.local_name {
        Some(n) => Some(n.clone()),
        None => None,
    };
    DiscoveredDevice {
        id: DeviceId::new(device_id),
        name: device_name(sighting, filter),
        rssi,
        service_uuids,
        advertisement: Some(AdvertisementData {
            local_name,
            service_data,
            manufacturer_data,
            connectable: sighting.connectable,
        }),
        observed_at_millis,
        scan_id: scan_id.duplicate(),
    }
}

/// The throttle over any run of calls from a new one: a result of a device passes
/// exactly when no result of it has passed yet, or when at least
/// [`RESULT_INTERVAL_MS`] went by since the latest one that passed. So two results of
/// one device that pass, with none between them, are at least that far apart.
pub proof fn law_results_of_a_device_pass_once_an_interval(
    states: Seq<Seq<(Seq<char>, u64)>>,
    calls: Seq<(Seq<char>, u64)>,
    allowed: Seq<bool>,
)
    requires
        states.len() == calls.len() + 1,
        allowed.len() == calls.len(),
        states[0].len() == 0,
        forall|k: int|
            0 <= k < calls.len() ==> throttled(
                states[k],
                calls[k].0,
                calls[k].1,
                allowed[k],
                states[k + 1],
            ) && #[trigger] calls[k] == calls[k],
    ensures
        forall|k: int|
            0 <= k < calls.len() ==> (#[trigger] allowed[k] <==> forall|i: int|
                latest_pass(calls, allowed, calls[k].0, i, k) ==> since(calls[k].1, calls[i].1)
                    >= RESULT_INTERVAL_MS),
        forall|i: int, k: int|
            latest_pass(calls, allowed, calls[k].0, i, k) && k < calls.len() && #[trigger] allowed[k]
                && #[trigger] allowed[i] ==> calls[k].1 >= calls[i].1 + RESULT_INTERVAL_MS,
{
    assert forall|k: int| 0 <= k < calls.len() implies (#[trigger] allowed[k] <==> forall|i: int|
        latest_pass(calls, allowed, calls[k].0, i, k) ==> since(calls[k].1, calls[i].1)
            >= RESULT_INTERVAL_MS) by {
        lemma_throttle_states(states, calls, allowed, k);
        assert(calls[k] == calls[k]);
        lemma_latest_pass(calls, allowed, calls[k].0, k);
    }
    assert forall|i: int, k: int|
        latest_pass(calls, allowed, calls[k].0, i, k) && k < calls.len() && #[trigger] allowed[k]
            && #[trigger] allowed[i] implies calls[k].1 >= calls[i].1 + RESULT_INTERVAL_MS by {
        lemma_throttle_states(states, calls, allowed, k);
        assert(calls[k] == calls[k]);
        lemma_latest_pass(calls, allowed, calls[k].0, k);
    }
}

/// Before call `k`, the table holds the results that passed, in order.
proof fn lemma_throttle_states(
    states: Seq<Seq<(Seq<char>, u64)>>,
    calls: Seq<(Seq<char>, u64)>,
    allowed: Seq<bool>,
    k: int,
)
    requires
        states.len() == calls.len() + 1,
        allowed.len() == calls.len(),
        states[0].len() == 0,
        0 <= k <= calls.len(),
        forall|k: int|
            0 <= k < calls.len() ==> throttled(
                states[k],
                calls[k].0,
                calls[k].1,
                allowed[k],
                states[k + 1],
            ) && #[trigger] calls[k] == calls[k],
    ensures
        states[k] == passed(calls, allowed, k),
    decreases k,
{
    if k == 0 {
        assert(states[0] =~= Seq::<(Seq<char>, u64)>::empty());
    } else {
        lemma_throttle_states(states, calls, allowed, k - 1);
        assert(calls[k - 1] == calls[k - 1]);
    }
}

/// The latest result of `device` among the passed ones is that of its latest call
/// that passed.
proof fn lemma_latest_pass(
    calls: Seq<(Seq<char>, u64)>,
    allowed: Seq<bool>,
    device: Seq<char>,
    k: int,
)
    requires
        0 <= k <= calls.len(),
        allowed.len() == calls.len(),
    ensures
        match last_result(passed(calls, allowed, k), device) {
            None => forall|i: int| !latest_pass(calls, allowed, device, i, k),
            Some(t) => exists|i: int| #[trigger] latest_pass(calls, allowed, device, i, k) && calls[i].1 == t,
        },
        forall|i: int, i2: int|
            latest_pass(calls, allowed, device, i, k) && latest_pass(calls, allowed, device, i2, k)
                ==> i == i2,
    decreases k,
{
    if k > 0 {
        lemma_latest_pass(calls, allowed, device, k - 1);
        let p = passed(calls, allowed, k - 1);
        if allowed[k - 1] {
            assert(passed(calls, allowed, k).drop_last() == p);
            assert(passed(calls, allowed, k).last() == calls[k - 1]);
            if calls[k - 1].0 == device {
                assert(latest_pass(calls, allowed, device, k - 1, k));
                assert(last_result(passed(calls, allowed, k), device) == Some(calls[k - 1].1));
                assert forall|i: int| #[trigger] latest_pass(calls, allowed, device, i, k) implies i == k - 1 by {
                    if i < k - 1 {
                        assert(allowed[k - 1]);
                    }
                }
            } else {
                assert forall|i: int| #[trigger] latest_pass(calls, allowed, device, i, k) <==> latest_pass(
                    calls,
                    allowed,
                    device,
                    i,
                    k - 1,
                ) by {
                    if latest_pass(calls, allowed, device, i, k - 1) {
                        assert forall|j: int| i < j < k && #[trigger] allowed[j] implies calls[j].0 != device by {
                            if j < k - 1 {
                            }
                        }
                    }
                }
            }
        } else {
            assert forall|i: int| #[trigger] latest_pass(calls, allowed, device, i, k) <==> latest_pass(
                calls,
                allowed,
                device,
                i,
                k - 1,
            ) by {
                if latest_pass(calls, allowed, device, i, k - 1) {
                    assert forall|j: int| i < j < k && #[trigger] allowed[j] implies calls[j].0 != device by {
                        if j < k - 1 {
                        }
                    }
                }
            }
            assert(passed(calls, allowed, k) == p);
        }
        if !(allowed[k - 1] && calls[k - 1].0 == device) {
            assert(last_result(passed(calls, allowed, k), device) == last_result(p, device));
            match last_result(p, device) {
                Some(t) => {
                    let i = choose|i: int| #[trigger] latest_pass(calls, allowed, device, i, k - 1)
                        && calls[i].1 == t;
                    assert(latest_pass(calls, allowed, device, i, k));
                },
                None => {},
            }
        }
    }
}

/// Merging UUID lists keeps the first list as it was, in front, and adds each UUID of
/// the second that it lacks: a UUID is in the result exactly when it is in either list,
/// and a list without repeats stays without repeats.
pub proof fn law_merging_uuids_keeps_each_once(acc: Seq<Seq<char>>, items: Seq<Seq<char>>)
    ensures
        add_texts(acc, items).subrange(0, acc.len() as int) == acc,
        add_texts(acc, items).len() >= acc.len(),
        forall|u: Seq<char>| #[trigger] add_texts(acc, items).contains(u) <==> acc.contains(u) || items.contains(u),
        acc.no_duplicates() ==> add_texts(acc, items).no_duplicates(),
    decreases items.len(),
{
    if items.len() > 0 {
        let rest = items.drop_last();
        law_merging_uuids_keeps_each_once(acc, rest);
        let prev = add_texts(acc, rest);
        let x = items.last();
        assert(prev.push(x).subrange(0, acc.len() as int) =~= prev.subrange(0, acc.len() as int));
        assert forall|u: Seq<char>| #[trigger] add_texts(acc, items).contains(u) <==> acc.contains(u)
            || items.contains(u) by {
            if items.contains(u) && !rest.contains(u) {
                let i = choose|i: int| 0 <= i < items.len() && items[i] == u;
                if i < items.len() - 1 {
                    assert(rest[i] == u);
                }
                assert(u == x);
                if !prev.contains(x) {
                    assert(prev.push(x)[prev.len() as int] == x);
                }
            }
            if rest.contains(u) {
                let i = choose|i: int| 0 <= i < rest.len() && rest[i] == u;
                assert(items[i] == u);
            }
            if !prev.contains(x) && prev.push(x).contains(u) {
                let i = choose|i: int| 0 <= i < prev.push(x).len() && prev.push(x)[i] == u;
                if i < prev.len() {
                    assert(prev[i] == u);
                } else {
                    assert(items[items.len() - 1] == u);
                }
            }
            if prev.contains(u) && !prev.contains(x) {
                let i = choose|i: int| 0 <= i < prev.len() && prev[i] == u;
                assert(prev.push(x)[i] == u);
            }
        }
        if acc.no_duplicates() && !prev.contains(x) {
            assert forall|i: int, j: int| 0 <= i < j < prev.push(x).len() implies prev.push(x)[i]
                != prev.push(x)[j] by {
                if j == prev.len() {
                    assert(prev[i] == prev.push(x)[i]);
                }
            }
        }
    }
}

/// The local name of a device is that of its first packet with a non-empty name, and
/// there is none when no packet has one.
pub proof fn law_the_first_named_packet_names_the_device(parts: Seq<PacketView>)
    ensures
        first_name(parts) is None <==> forall|i: int| 0 <= i < parts.len()
            ==> !(#[trigger] parts[i].local_name matches Some(n) && n.len() > 0),
        first_name(parts) matches Some(n) ==> exists|i: int| 0 <= i < parts.len() && #[trigger] parts[i].local_name
            == Some(n) && n.len() > 0 && forall|j: int| 0 <= j < i ==> !(
            #[trigger] parts[j].local_name matches Some(m) && m.len() > 0),
    decreases parts.len(),
{
    if parts.len() > 0 {
        let rest = parts.drop_first();
        law_the_first_named_packet_names_the_device(rest);
        match parts[0].local_name {
            Some(n) if n.len() > 0 => {
                assert(parts[0].local_name == Some(n));
            },
            _ => {
                assert forall|i: int| 0 < i < parts.len() implies parts[i] == #[trigger] rest[i - 1] by {}
                if first_name(rest) is None {
                    assert forall|i: int| 0 <= i < parts.len() implies !(
                    #[trigger] parts[i].local_name matches Some(n) && n.len() > 0) by {
                        if i > 0 {
                            assert(parts[i] == rest[i - 1]);
                        }
                    }
                } else {
                    let n = first_name(rest)->0;
                    let i = choose|i: int| 0 <= i < rest.len() && #[trigger] rest[i].local_name
                        == Some(n) && n.len() > 0 && forall|j: int| 0 <= j < i ==> !(
                        #[trigger] rest[j].local_name matches Some(m) && m.len() > 0);
                    assert(parts[i + 1] == rest[i]);
                    assert forall|j: int| 0 <= j < i + 1 implies !(
                    #[trigger] parts[j].local_name matches Some(m) && m.len() > 0) by {
                        if j > 0 {
                            assert(parts[j] == rest[j - 1]);
                        }
                    }
                    let k = 0int;
                    assert(rest[k] == parts[k + 1]);
                }
            },
        }
    }
}

/// The little-endian value of two byte strings one after the other: the first is the
/// low part, and the second counts `256` to the length of the first times over.
pub proof fn law_little_endian_bytes(low: Seq<u8>, high: Seq<u8>)
    ensures
        le_value(low + high) == le_value(low) + pow256(low.len()) * le_value(high),
    decreases low.len(),
{
    if low.len() > 0 {
        let rest = low.drop_first();
        law_little_endian_bytes(rest, high);
        assert((low + high).drop_first() =~= rest + high);
        assert(le_value(low + high) == low[0] + 256 * le_value(rest + high));
        assert(le_value(low) == low[0] + 256 * le_value(rest));
        assert(pow256(low.len()) == 256 * pow256(rest.len()));
        let a = le_value(rest);
        let p = pow256(rest.len());
        let h = le_value(high);
        assert(256 * (a + p * h) == 256 * a + (256 * p) * h) by (nonlinear_arith);
        assert(le_value(rest + high) == a + p * h);
        assert(le_value(low + high) == low[0] + 256 * a + (256 * p) * h);
        assert(pow256(low.len()) * h == (256 * p) * h);
        assert(le_value(low + high) == le_value(low) + pow256(low.len()) * le_value(high));
    } else {
        assert(low + high =~= high);
        assert(pow256(low.len()) == 1);
        assert(le_value(low) == 0);
        assert(pow256(low.len()) * le_value(high) == le_value(high));
    }
}

/// A scan filter holds each requested UUID normalized, in the order given; it is
/// refused exactly when one of them is no UUID, and the refusal names the first such.
pub proof fn law_a_filter_normalizes_each_uuid(uuids: Seq<Seq<char>>)
    ensures
        filter_of(uuids) is Ok <==> forall|i: int| 0 <= i < uuids.len() ==> #[trigger] normalized_uuid(uuids[i]) is Some,
        filter_of(uuids) matches Ok(list) ==> list.len() == uuids.len() && forall|i: int| 0 <= i < uuids.len()
            ==> Some(#[trigger] list[i]) == normalized_uuid(uuids[i]),
        filter_of(uuids) matches Err(bad) ==> exists|i: int| 0 <= i < uuids.len() && bad == #[trigger] uuids[i]
            && normalized_uuid(uuids[i]) is None && forall|j: int| 0 <= j < i ==> #[trigger] normalized_uuid(
            uuids[j],
        ) is Some,
    decreases uuids.len(),
{
    if uuids.len() > 0 {
        let rest = uuids.drop_last();
        law_a_filter_normalizes_each_uuid(rest);
        let n = uuids.len() - 1;
        assert forall|i: int| 0 <= i < n implies #[trigger] rest[i] == uuids[i] by {}
        match filter_of(rest) {
            Err(bad) => {
                let i = choose|i: int| 0 <= i < rest.len() && bad == #[trigger] rest[i]
                    && normalized_uuid(rest[i]) is None && forall|j: int| 0 <= j < i ==> #[trigger] normalized_uuid(
                    rest[j],
                ) is Some;
                assert(uuids[i] == rest[i]);
                assert forall|j: int| 0 <= j < i implies #[trigger] normalized_uuid(uuids[j]) is Some by {
                    assert(uuids[j] == rest[j]);
                    assert(normalized_uuid(rest[j]) is Some);
                }
            },
            Ok(list) => {
                match normalized_uuid(uuids.last()) {
                    Some(m) => {
                        assert forall|i: int| 0 <= i < uuids.len() implies Some(
                            #[trigger] list.push(m)[i],
                        ) == normalized_uuid(uuids[i]) by {
                            if i < n {
                                assert(uuids[i] == rest[i]);
                            }
                        }
                        assert forall|i: int| 0 <= i < uuids.len() implies #[trigger] normalized_uuid(uuids[i]) is Some by {
                            if i < n {
                                assert(uuids[i] == rest[i]);
                                assert(normalized_uuid(rest[i]) is Some);
                            }
                        }
                    },
                    None => {
                        assert(uuids[n] == uuids.last());
                        assert forall|j: int| 0 <= j < n implies #[trigger] normalized_uuid(uuids[j]) is Some by {
                            assert(uuids[j] == rest[j]);
                            assert(normalized_uuid(rest[j]) is Some);
                        }
                    },
                }
            },
        }
    }
}

} // verus!
