//! Opaque identifiers of the Windows backend: numbered IDs per prefix, one ID per
//! remote for the life of the process, stable attribute handles per connection.

use std::collections::BTreeSet;

use vstd::prelude::*;
use vstd::string::StrSliceExecFns;

use crate::text::{chars_of, decimal, push_char, push_decimal, push_text};

verus! {

broadcast use {vstd::laws_cmp::group_laws_cmp, vstd::std_specs::btree::group_btree_axioms};

/// The counters of an allocator, by prefix.
pub type Counters = Seq<(Seq<char>, u64)>;

/// How many IDs `prefix` has had.
pub open spec fn count_of(counters: Counters, prefix: Seq<char>) -> u64
    decreases counters.len(),
{
    if counters.len() == 0 {
        0
    } else if counters.last().0 == prefix {
        counters.last().1
    } else {
        count_of(counters.drop_last(), prefix)
    }
}

/// Allocates `<prefix>-<n>` IDs. Each prefix counts from 1 and never reuses a number.
pub struct IdAllocator {
    counters: Vec<(String, u64)>,
}

impl Default for IdAllocator {
    /// No prefix has counted yet.
    fn default() -> (allocator: Self)
        ensures
            allocator@.len() == 0,
    {
        let allocator = IdAllocator { counters: Vec::new() };
        assert(allocator@ =~= Seq::<(Seq<char>, u64)>::empty());
        allocator
    }
}

impl View for IdAllocator {
    type V = Counters;

    closed spec fn view(&self) -> Counters {
        self.counters@.map_values(|e: (String, u64)| (e.0@, e.1))
    }
}

impl IdAllocator {
    fn find_counter(&self, prefix: &str) -> (index: Option<usize>)
        ensures
            match index {
                Some(k) => k < self.counters@.len() && count_of(self@, prefix@)
                    == self.counters@[k as int].1,
                None => count_of(self@, prefix@) == 0,
            },
    {
        let ghost all = self@;
        let mut i = self.counters.len();
        assert(all.subrange(0, i as int) =~= all);
        while i > 0
            invariant
                all == self@,
                i <= self.counters@.len(),
                count_of(all, prefix@) == count_of(all.subrange(0, i as int), prefix@),
            decreases i,
        {
            let ghost part = all.subrange(0, i as int);
            assert(part.drop_last() =~= all.subrange(0, i - 1));
            assert(part.last() == (self.counters@[i - 1].0@, self.counters@[i - 1].1));
            if crate::text::text_is(self.counters[i - 1].0.as_str(), prefix) {
                return Some(i - 1);
            }
            i = i - 1;
        }
        None
    }

    pub fn next(&mut self, prefix: &str) -> (id: String)
        requires
            count_of(old(self)@, prefix@) < u64::MAX,
        ensures
            id@ == prefix@ + seq!['-'] + decimal((count_of(old(self)@, prefix@) + 1) as nat),
            count_of(final(self)@, prefix@) == count_of(old(self)@, prefix@) + 1,
            forall|other: Seq<char>|
                other != prefix@ ==> count_of(final(self)@, other) == count_of(old(self)@, other),
    {
        let count = match self.find_counter(prefix) {
            Some(k) => self.counters[k].1,
            None => 0,
        };
        let next = count + 1;
        let ghost before = self@;
        self.counters.push((prefix.to_owned(), next));
        assert(self@ =~= before.push((prefix@, next)));
        assert(self@.drop_last() =~= before);
        let mut id = prefix.to_owned();
        push_char(&mut id, '-');
        push_decimal(&mut id, next);
        id
    }
}

/// The text after the first `:` of an owner ID; an owner ID without `:` is its own
/// family.
pub open spec fn family_of(owner: Seq<char>) -> Seq<char> {
    if owner.contains(':') {
        let i = choose|i: int| 0 <= i < owner.len() && owner[i] == ':' && forall|j: int|
            0 <= j < i ==> owner[j] != ':';
        owner.subrange(i + 1, owner.len() as int)
    } else {
        owner
    }
}

pub fn owner_family(owner: &str) -> (family: &str)
    ensures
        family@ == family_of(owner@),
{
    let chars = chars_of(owner);
    let mut i: usize = 0;
    while i < chars.len()
        invariant
            chars@ == owner@,
            i <= chars@.len(),
            forall|j: int| 0 <= j < i ==> chars@[j] != ':',
        decreases chars@.len() - i,
    {
        if chars[i] == ':' {
            proof {
                assert(owner@[i as int] == ':');
                assert(owner@.contains(':'));
                let k = choose|k: int| 0 <= k < owner@.len() && owner@[k] == ':' && forall|j: int|
                    0 <= j < k ==> owner@[j] != ':';
                assert(k == i) by {
                    if k < i {
                        assert(chars@[k] != ':');
                    }
                    if k > i {
                        assert(owner@[i as int] != ':');
                    }
                }
            }
            return owner.substring_char(i + 1, chars.len());
        }
        i = i + 1;
    }
    proof {
        if owner@.contains(':') {
            let k = choose|k: int| 0 <= k < owner@.len() && owner@[k] == ':';
            assert(chars@[k] != ':');
        }
    }
    owner
}

/// A key of a remote: compared and copied by its view.
pub trait RemoteKey: View + Sized {
    fn same_key(&self, other: &Self) -> (same: bool)
        ensures
            same == (self@ == other@),
    ;

    fn copy_key(&self) -> (copy: Self)
        ensures
            copy@ == self@,
    ;
}

impl RemoteKey for u64 {
    fn same_key(&self, other: &Self) -> (same: bool) {
        *self == *other
    }

    fn copy_key(&self) -> (copy: Self) {
        *self
    }
}

impl RemoteKey for String {
    fn same_key(&self, other: &Self) -> (same: bool) {
        *self == *other
    }

    fn copy_key(&self) -> (copy: Self) {
        self.clone()
    }
}

/// The ID given to `key`, if any: the first entry for it.
pub open spec fn id_given<V>(ids: Seq<(V, Seq<char>)>, key: V) -> Option<Seq<char>>
    decreases ids.len(),
{
    if ids.len() == 0 {
        None
    } else if ids[0].0 == key {
        Some(ids[0].1)
    } else {
        id_given(ids.drop_first(), key)
    }
}

/// The key that holds `id`, if any: the first entry with it.
pub open spec fn key_given<V>(ids: Seq<(V, Seq<char>)>, id: Seq<char>) -> Option<V>
    decreases ids.len(),
{
    if ids.len() == 0 {
        None
    } else if ids[0].1 == id {
        Some(ids[0].0)
    } else {
        key_given(ids.drop_first(), id)
    }
}

/// Gives each remote one opaque ID for the life of the process, so that no address
/// leaves the backend, and records the owner families that saw it.
pub struct Remotes<K: RemoteKey> {
    prefix: String,
    ids: Vec<(K, String)>,
    families: Vec<(String, String)>,
}

impl<K: RemoteKey> Remotes<K> {
    /// The IDs given so far, by key view, in the order they were given.
    pub closed spec fn given(&self) -> Seq<(K::V, Seq<char>)> {
        self.ids@.map_values(|e: (K, String)| (e.0@, e.1@))
    }

    /// The pairs of an ID and an owner family that saw it.
    pub closed spec fn seen(&self) -> Seq<(Seq<char>, Seq<char>)> {
        self.families@.map_values(|e: (String, String)| (e.0@, e.1@))
    }

    pub closed spec fn prefix(&self) -> Seq<char> {
        self.prefix@
    }

    pub fn new(prefix: &str) -> (remotes: Self)
        ensures
            remotes.given() == Seq::<(K::V, Seq<char>)>::empty(),
            remotes.seen() == Seq::<(Seq<char>, Seq<char>)>::empty(),
            remotes.prefix() == prefix@,
    {
        let remotes = Remotes { prefix: prefix.to_owned(), ids: Vec::new(), families: Vec::new() };
        assert(remotes.given() =~= Seq::<(K::V, Seq<char>)>::empty());
        assert(remotes.seen() =~= Seq::<(Seq<char>, Seq<char>)>::empty());
        remotes
    }

    fn find_key(&self, key: &K) -> (index: Option<usize>)
        ensures
            match index {
                Some(i) => i < self.ids@.len() && id_given(self.given(), key@) == Some(
                    self.ids@[i as int].1@,
                ),
                None => id_given(self.given(), key@) is None,
            },
    {
        let ghost all = self.given();
        let mut i: usize = 0;
        assert(all.subrange(0, all.len() as int) =~= all);
        while i < self.ids.len()
            invariant
                all == self.given(),
                i <= self.ids@.len(),
                id_given(all, key@) == id_given(all.subrange(i as int, all.len() as int), key@),
            decreases self.ids@.len() - i,
        {
            let ghost rest = all.subrange(i as int, all.len() as int);
            assert(rest.drop_first() =~= all.subrange(i + 1, all.len() as int));
            assert(rest[0] == (self.ids@[i as int].0@, self.ids@[i as int].1@));
            if self.ids[i].0.same_key(key) {
                return Some(i);
            }
            i = i + 1;
        }
        None
    }

    /// The ID of `key`, given now from `allocator` when `key` has none.
    pub fn id_for(&mut self, key: &K, allocator: &mut IdAllocator) -> (id: String)
        requires
            count_of(old(allocator)@, old(self).prefix()) < u64::MAX,
        ensures
            match id_given(old(self).given(), key@) {
                Some(existing) => id@ == existing && final(self).given() == old(self).given()
                    && final(allocator)@ == old(allocator)@,
                None => {
                    &&& id@ == old(self).prefix() + seq!['-'] + decimal(
                        (count_of(old(allocator)@, old(self).prefix()) + 1) as nat,
                    )
                    &&& final(self).given() == old(self).given().push((key@, id@))
                    &&& count_of(final(allocator)@, old(self).prefix()) == count_of(
                        old(allocator)@,
                        old(self).prefix(),
                    ) + 1
                },
            },
            final(self).seen() == old(self).seen(),
            final(self).prefix() == old(self).prefix(),
    {
        match self.find_key(key) {
            Some(i) => self.ids[i].1.clone(),
            None => {
                let id = allocator.next(self.prefix.as_str());
                let ghost before = self.given();
                self.ids.push((key.copy_key(), id.clone()));
                assert(self.given() =~= before.push((key@, id@)));
                id
            },
        }
    }

    /// The key that holds `id`.
    pub fn key_of(&self, id: &str) -> (key: Option<&K>)
        ensures
            match key {
                Some(k) => key_given(self.given(), id@) == Some(k@),
                None => key_given(self.given(), id@) is None,
            },
    {
        let ghost all = self.given();
        let mut i: usize = 0;
        assert(all.subrange(0, all.len() as int) =~= all);
        while i < self.ids.len()
            invariant
                all == self.given(),
                i <= self.ids@.len(),
                key_given(all, id@) == key_given(all.subrange(i as int, all.len() as int), id@),
            decreases self.ids@.len() - i,
        {
            let ghost rest = all.subrange(i as int, all.len() as int);
            assert(rest.drop_first() =~= all.subrange(i + 1, all.len() as int));
            assert(rest[0] == (self.ids@[i as int].0@, self.ids@[i as int].1@));
            if crate::text::text_is(self.ids[i].1.as_str(), id) {
                return Some(&self.ids[i].0);
            }
            i = i + 1;
        }
        None
    }

    /// Records that an owner of the family of `owner` received `id` in a scan result.
    pub fn mark_seen(&mut self, id: &str, owner: &str)
        ensures
            forall|other: Seq<char>, family: Seq<char>|
                final(self).seen().contains((other, family)) <==> (old(self).seen().contains(
                    (other, family),
                ) || (other == id@ && family == family_of(owner@))),
            final(self).given() == old(self).given(),
            final(self).prefix() == old(self).prefix(),
    {
        let family = owner_family(owner);
        let ghost before = self.seen();
        self.families.push((id.to_owned(), family.to_owned()));
        assert(self.seen() =~= before.push((id@, family@)));
        proof {
            assert forall|other: Seq<char>, f: Seq<char>|
                self.seen().contains((other, f)) <==> (before.contains((other, f)) || (other
                    == id@ && f == family_of(owner@))) by {
                if before.contains((other, f)) {
                    let k = choose|k: int| 0 <= k < before.len() && before[k] == (other, f);
                    assert(self.seen()[k] == (other, f));
                }
                if self.seen().contains((other, f)) && (other != id@ || f != family@) {
                    let k = choose|k: int| 0 <= k < self.seen().len() && self.seen()[k] == (other, f);
                    assert(before[k] == (other, f));
                }
                if other == id@ && f == family_of(owner@) {
                    assert(self.seen()[before.len() as int] == (other, f));
                }
            }
        }
    }

    /// Whether an owner of the family of `owner` received `id` in a scan result.
    pub fn seen_by_family_of(&self, id: &str, owner: &str) -> (seen: bool)
        ensures
            seen == self.seen().contains((id@, family_of(owner@))),
    {
        let family = owner_family(owner);
        let mut i: usize = 0;
        while i < self.families.len()
            invariant
                family@ == family_of(owner@),
                i <= self.families@.len(),
                forall|j: int| 0 <= j < i ==> self.seen()[j] != (id@, family@),
            decreases self.families@.len() - i,
        {
            assert(self.seen()[i as int] == (self.families@[i as int].0@, self.families@[i as int].1@));
            if crate::text::text_is(self.families[i].0.as_str(), id) && crate::text::text_is(
                self.families[i].1.as_str(),
                family,
            ) {
                return true;
            }
            i = i + 1;
        }
        false
    }
}

/// Names one attribute of a remote database: its ATT handle and its UUID.
pub type AttributeKey = (u16, String);

/// The handle of the first entry for `key`.
pub open spec fn handle_of(entries: Seq<((u16, Seq<char>), Seq<char>)>, key: (u16, Seq<char>)) -> Option<Seq<char>>
    decreases entries.len(),
{
    if entries.len() == 0 {
        None
    } else if entries[0].0 == key {
        Some(entries[0].1)
    } else {
        handle_of(entries.drop_first(), key)
    }
}

/// The attribute bound to `handle` by the last entry for it.
pub open spec fn attribute_of<T>(attributes: Seq<(Seq<char>, T)>, handle: Seq<char>) -> Option<T>
    decreases attributes.len(),
{
    if attributes.len() == 0 {
        None
    } else if attributes.last().0 == handle {
        Some(attributes.last().1)
    } else {
        attribute_of(attributes.drop_last(), handle)
    }
}

/// The service and characteristic handles of one connection. An attribute keeps its
/// handle across discoveries, keyed by its ATT handle and UUID.
pub struct HandleTable<T> {
    connection_id: String,
    services: Vec<(AttributeKey, String)>,
    characteristics: Vec<(AttributeKey, String)>,
    attributes: Vec<(String, T)>,
}

/// A handle table's entries, by text.
pub open spec fn handle_entries(entries: Seq<(AttributeKey, String)>) -> Seq<((u16, Seq<char>), Seq<char>)> {
    entries.map_values(|e: (AttributeKey, String)| ((e.0.0, e.0.1@), e.1@))
}

fn find_handle(entries: &Vec<(AttributeKey, String)>, key: &AttributeKey) -> (found: Option<String>)
    ensures
        match found {
            Some(h) => handle_of(handle_entries(entries@), (key.0, key.1@)) == Some(h@),
            None => handle_of(handle_entries(entries@), (key.0, key.1@)) is None,
        },
{
    let ghost all = handle_entries(entries@);
    let mut i: usize = 0;
    assert(all.subrange(0, all.len() as int) =~= all);
    while i < entries.len()
        invariant
            all == handle_entries(entries@),
            i <= entries@.len(),
            handle_of(all, (key.0, key.1@)) == handle_of(all.subrange(i as int, all.len() as int), (key.0, key.1@)),
        decreases entries@.len() - i,
    {
        let ghost rest = all.subrange(i as int, all.len() as int);
        assert(rest.drop_first() =~= all.subrange(i + 1, all.len() as int));
        assert(rest[0] == ((entries@[i as int].0.0, entries@[i as int].0.1@), entries@[i as int].1@));
        if entries[i].0.0 == key.0 && entries[i].0.1 == key.1 {
            return Some(entries[i].1.clone());
        }
        i = i + 1;
    }
    None
}

impl<T> HandleTable<T> {
    pub closed spec fn connection(&self) -> Seq<char> {
        self.connection_id@
    }

    pub closed spec fn service_handles(&self) -> Seq<((u16, Seq<char>), Seq<char>)> {
        handle_entries(self.services@)
    }

    pub closed spec fn characteristic_handles(&self) -> Seq<((u16, Seq<char>), Seq<char>)> {
        handle_entries(self.characteristics@)
    }

    pub closed spec fn bound(&self) -> Seq<(Seq<char>, T)> {
        self.attributes@.map_values(|e: (String, T)| (e.0@, e.1))
    }

    pub fn new(connection_id: &str) -> (table: Self)
        ensures
            table.connection() == connection_id@,
            table.service_handles().len() == 0,
            table.characteristic_handles().len() == 0,
            table.bound().len() == 0,
    {
        HandleTable {
            connection_id: connection_id.to_owned(),
            services: Vec::new(),
            characteristics: Vec::new(),
            attributes: Vec::new(),
        }
    }

    /// Forgets the attributes of the last discovery. Their handles stay reserved.
    pub fn forget_attributes(&mut self)
        ensures
            final(self).bound().len() == 0,
            final(self).connection() == old(self).connection(),
            final(self).service_handles() == old(self).service_handles(),
            final(self).characteristic_handles() == old(self).characteristic_handles(),
    {
        self.attributes = Vec::new();
    }

    fn handle_text(&self, kind: &str, next: usize) -> (text: String)
        ensures
            text@ == self.connection() + seq!['/'] + kind@ + seq!['-'] + decimal(next as nat),
    {
        let mut text = self.connection_id.clone();
        push_char(&mut text, '/');
        push_text(&mut text, kind);
        push_char(&mut text, '-');
        push_decimal(&mut text, next as u64);
        text
    }

    /// The handle of a service, kept from an earlier discovery or numbered now.
    pub fn service(&mut self, key: AttributeKey) -> (handle: String)
        requires
            old(self).service_handles().len() < usize::MAX,
        ensures
            match handle_of(old(self).service_handles(), (key.0, key.1@)) {
                Some(existing) => handle@ == existing && final(self).service_handles()
                    == old(self).service_handles(),
                None => handle@ == old(self).connection() + "/service-"@ + decimal(
                    (old(self).service_handles().len() + 1) as nat,
                ) && final(self).service_handles() == old(self).service_handles().push(
                    ((key.0, key.1@), handle@),
                ),
            },
            final(self).connection() == old(self).connection(),
            final(self).characteristic_handles() == old(self).characteristic_handles(),
            final(self).bound() == old(self).bound(),
    {
        match find_handle(&self.services, &key) {
            Some(h) => h,
            None => {
                let handle = self.handle_text("service", self.services.len() + 1);
                proof {
                    reveal_strlit("service");
                    reveal_strlit("/service-");
                    assert(self.connection() + seq!['/'] + "service"@ + seq!['-'] =~= self.connection() + "/service-"@);
                }
                let ghost before = self.service_handles();
                let ghost key_view = (key.0, key.1@);
                self.services.push((key, handle.clone()));
                assert(self.service_handles() =~= before.push((key_view, handle@)));
                handle
            },
        }
    }

    /// The handle for `key`, now bound to `attribute` from the latest discovery.
    pub fn characteristic(&mut self, key: AttributeKey, attribute: T) -> (handle: String)
        requires
            old(self).characteristic_handles().len() < usize::MAX,
        ensures
            match handle_of(old(self).characteristic_handles(), (key.0, key.1@)) {
                Some(existing) => handle@ == existing && final(self).characteristic_handles()
                    == old(self).characteristic_handles(),
                None => handle@ == old(self).connection() + "/characteristic-"@ + decimal(
                    (old(self).characteristic_handles().len() + 1) as nat,
                ) && final(self).characteristic_handles()
                    == old(self).characteristic_handles().push(((key.0, key.1@), handle@)),
            },
            final(self).bound() == old(self).bound().push((handle@, attribute)),
            final(self).connection() == old(self).connection(),
            final(self).service_handles() == old(self).service_handles(),
    {
        let handle = match find_handle(&self.characteristics, &key) {
            Some(h) => h,
            None => {
                let handle = self.handle_text("characteristic", self.characteristics.len() + 1);
                proof {
                    reveal_strlit("characteristic");
                    reveal_strlit("/characteristic-");
                    assert(self.connection() + seq!['/'] + "characteristic"@ + seq!['-'] =~= self.connection() + "/characteristic-"@);
                }
                let ghost before = self.characteristic_handles();
                let ghost key_view = (key.0, key.1@);
                self.characteristics.push((key, handle.clone()));
                assert(self.characteristic_handles() =~= before.push((key_view, handle@)));
                handle
            },
        };
        let ghost before = self.bound();
        self.attributes.push((handle.clone(), attribute));
        assert(self.bound() =~= before.push((handle@, attribute)));
        handle
    }

    /// The attribute that `handle` is bound to by the latest discovery.
    pub fn get(&self, handle: &str) -> (attribute: Option<&T>)
        ensures
            match attribute {
                Some(a) => attribute_of(self.bound(), handle@) == Some(*a),
                None => attribute_of(self.bound(), handle@) is None,
            },
    {
        let ghost all = self.bound();
        let mut i = self.attributes.len();
        assert(all.subrange(0, i as int) =~= all);
        while i > 0
            invariant
                all == self.bound(),
                i <= self.attributes@.len(),
                attribute_of(all, handle@) == attribute_of(all.subrange(0, i as int), handle@),
            decreases i,
        {
            let ghost part = all.subrange(0, i as int);
            assert(part.drop_last() =~= all.subrange(0, i - 1));
            assert(part.last() == (self.attributes@[i - 1].0@, self.attributes@[i - 1].1));
            if crate::text::text_is(self.attributes[i - 1].0.as_str(), handle) {
                return Some(&self.attributes[i - 1].1);
            }
            i = i - 1;
        }
        None
    }
}

/// The service objects of discoveries that can close: those of the latest
/// discovery, and of one that `in_use` names, stay.
pub open spec fn closes(generation: u64, latest: u64, in_use: Set<u64>) -> bool {
    generation != latest && !in_use.contains(generation)
}

/// The service objects of `services` that can close, in order.
pub open spec fn closing<T>(services: Seq<(u64, T)>, latest: u64, in_use: Set<u64>) -> Seq<T>
    decreases services.len(),
{
    if services.len() == 0 {
        Seq::empty()
    } else if closes(services.last().0, latest, in_use) {
        closing(services.drop_last(), latest, in_use).push(services.last().1)
    } else {
        closing(services.drop_last(), latest, in_use)
    }
}

/// The tagged service objects of `services` that stay, in order.
pub open spec fn staying<T>(services: Seq<(u64, T)>, latest: u64, in_use: Set<u64>) -> Seq<(u64, T)>
    decreases services.len(),
{
    if services.len() == 0 {
        Seq::empty()
    } else if closes(services.last().0, latest, in_use) {
        staying(services.drop_last(), latest, in_use)
    } else {
        staying(services.drop_last(), latest, in_use).push(services.last())
    }
}

/// Takes out the service objects that can close, each tagged with its discovery.
pub fn stale_services<T>(services: &mut Vec<(u64, T)>, latest: u64, in_use: &BTreeSet<u64>) -> (stale: Vec<T>)
    ensures
        stale@ == closing(old(services)@, latest, in_use@),
        final(services)@ == staying(old(services)@, latest, in_use@),
{
    let ghost original = services@;
    let mut rest: Vec<(u64, T)> = Vec::new();
    std::mem::swap(&mut rest, services);
    let mut stale: Vec<T> = Vec::new();
    let mut kept: Vec<(u64, T)> = Vec::new();
    let ghost mut done: int = 0;
    assert(original.subrange(0, 0) =~= Seq::<(u64, T)>::empty());
    while rest.len() > 0
        invariant
            0 <= done <= original.len(),
            rest@ == original.subrange(done, original.len() as int),
            stale@ == closing(original.subrange(0, done), latest, in_use@),
            kept@ == staying(original.subrange(0, done), latest, in_use@),
        decreases rest@.len(),
    {
        let ghost prefix = original.subrange(0, done + 1);
        assert(prefix.drop_last() =~= original.subrange(0, done));
        let entry = rest.remove(0);
        assert(entry == original[done]);
        assert(prefix.last() == entry);
        let (generation, service) = entry;
        if generation == latest || in_use.contains(&generation) {
            kept.push((generation, service));
        } else {
            stale.push(service);
        }
        proof {
            done = done + 1;
        }
        assert(rest@ =~= original.subrange(done, original.len() as int));
    }
    assert(original.subrange(0, done) =~= original);
    *services = kept;
    stale
}

/// The family of an owner is what follows its first `:`: an owner written as a name
/// without `:`, a `:` and a rest has the rest as its family, whatever the rest holds;
/// an owner without `:` is its own family.
pub proof fn law_the_family_follows_the_first_colon(name: Seq<char>, rest: Seq<char>)
    requires
        !name.contains(':'),
    ensures
        family_of(name + seq![':'] + rest) == rest,
        family_of(name) == name,
{
    let owner = name + seq![':'] + rest;
    let n = name.len() as int;
    assert(owner[n] == ':');
    assert(owner.contains(':'));
    let i = choose|i: int| 0 <= i < owner.len() && owner[i] == ':' && forall|j: int|
        0 <= j < i ==> owner[j] != ':';
    assert forall|j: int| 0 <= j < n implies owner[j] != ':' by {
        assert(owner[j] == name[j]);
        if name[j] == ':' {
            assert(name.contains(':'));
        }
    }
    assert(i == n) by {
        if i < n {
            assert(owner[i] == name[i]);
            assert(name.contains(':'));
        }
    }
    assert(owner.subrange(n + 1, owner.len() as int) =~= rest);
}

} // verus!
