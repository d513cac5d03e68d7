//! The service UUID scope of an app, and the characteristic handles it allows.

use vstd::prelude::*;

use crate::command::{Command, Event, Reply};
use crate::error::{BleError, BleResult, ErrorCode};
use crate::ids::{ConnectionId, OwnerId};
use crate::model::{
    CharacteristicInstance, LocalCharacteristic, LocalService, ScanOptions, ServerDefinition,
    ServiceInstance,
};
use crate::text::{push_text, text_is};
use crate::uuid::{normalize_uuid, normalized_uuid};

verus! {

/// The texts of a list of string slices.
pub open spec fn strs_text(items: Seq<&str>) -> Seq<Seq<char>> {
    items.map_values(|s: &str| s@)
}

/// The texts of a list of strings.
pub open spec fn strings_text(items: Seq<String>) -> Seq<Seq<char>> {
    items.map_values(|s: String| s@)
}

/// Some entry of `items` normalizes to `uuid`.
pub open spec fn lists_uuid(items: Seq<Seq<char>>, uuid: Seq<char>) -> bool {
    exists|i: int| 0 <= i < items.len() && normalized_uuid(#[trigger] items[i]) == Some(uuid)
}

/// `uuid` is in the scope built from `allow` minus `deny`.
pub open spec fn scoped(allow: Seq<Seq<char>>, deny: Seq<Seq<char>>, uuid: Seq<char>) -> bool {
    lists_uuid(allow, uuid) && !lists_uuid(deny, uuid)
}

/// What checking `uuid` against the scope `allowed` gives: its normalized form, or the
/// error code.
pub open spec fn permitted(allowed: Seq<Seq<char>>, uuid: Seq<char>) -> Result<Seq<char>, ErrorCode> {
    match normalized_uuid(uuid) {
        None => Err(ErrorCode::InvalidArgument),
        Some(n) => if allowed.contains(n) {
            Ok(n)
        } else {
            Err(ErrorCode::PermissionDenied)
        },
    }
}

/// The message of a handle that no scoped discovery on its connection gave.
pub open spec fn undiscovered_message() -> Seq<char> {
    "the characteristic did not come from a scoped discovery on this connection"@
}

/// The message of a UUID that the scope refuses.
pub open spec fn refusal_message(uuid: Seq<char>) -> Seq<char> {
    match normalized_uuid(uuid) {
        Some(n) => "service UUID "@ + n + " is outside the gattify:scope"@,
        None => "value is not a UUID"@,
    }
}

/// The service UUIDs an app lists in its scope permission, normalized.
#[derive(Clone, Debug)]
pub struct ServiceScope {
    allowed: Vec<String>,
}

impl View for ServiceScope {
    type V = Seq<Seq<char>>;

    closed spec fn view(&self) -> Seq<Seq<char>> {
        strings_text(self.allowed@)
    }
}

impl Default for ServiceScope {
    fn default() -> (scope: Self)
        ensures
            forall|uuid: Seq<char>| !scope@.contains(uuid),
    {
        let scope = ServiceScope { allowed: Vec::new() };
        assert(scope@ =~= Seq::<Seq<char>>::empty());
        scope
    }
}

/// The normalized forms of the entries of `items` that are UUIDs, in order.
pub open spec fn normalized_all(items: Seq<Seq<char>>) -> Seq<Seq<char>>
    decreases items.len(),
{
    if items.len() == 0 {
        Seq::empty()
    } else {
        match normalized_uuid(items.last()) {
            Some(n) => normalized_all(items.drop_last()).push(n),
            None => normalized_all(items.drop_last()),
        }
    }
}

/// The entries of `items` that `removed` does not hold, in order.
pub open spec fn without_all(items: Seq<Seq<char>>, removed: Seq<Seq<char>>) -> Seq<Seq<char>>
    decreases items.len(),
{
    if items.len() == 0 {
        Seq::empty()
    } else if removed.contains(items.last()) {
        without_all(items.drop_last(), removed)
    } else {
        without_all(items.drop_last(), removed).push(items.last())
    }
}

proof fn lemma_normalized_all(items: Seq<Seq<char>>, u: Seq<char>)
    ensures
        normalized_all(items).contains(u) <==> lists_uuid(items, u),
    decreases items.len(),
{
    if items.len() > 0 {
        let rest = items.drop_last();
        lemma_normalized_all(rest, u);
        let all = normalized_all(items);
        let sub = normalized_all(rest);
        if sub.contains(u) {
            let j = choose|j: int| 0 <= j < sub.len() && sub[j] == u;
            assert(all[j] == u);
            let k = choose|k: int| 0 <= k < rest.len() && normalized_uuid(#[trigger] rest[k]) == Some(u);
            assert(items[k] == rest[k]);
        }
        if all.contains(u) {
            let j = choose|j: int| 0 <= j < all.len() && all[j] == u;
            if j < sub.len() {
                assert(sub[j] == u);
            } else {
                assert(normalized_uuid(items[items.len() - 1]) == Some(u));
            }
        }
        if lists_uuid(items, u) {
            let k = choose|k: int| 0 <= k < items.len() && normalized_uuid(#[trigger] items[k]) == Some(u);
            if k < items.len() - 1 {
                assert(rest[k] == items[k]);
            } else {
                assert(all[all.len() - 1] == u);
            }
        }
    }
}

proof fn lemma_without_all(items: Seq<Seq<char>>, removed: Seq<Seq<char>>, u: Seq<char>)
    ensures
        without_all(items, removed).contains(u) <==> (items.contains(u) && !removed.contains(u)),
    decreases items.len(),
{
    if items.len() > 0 {
        let rest = items.drop_last();
        lemma_without_all(rest, removed, u);
        let all = without_all(items, removed);
        let sub = without_all(rest, removed);
        if sub.contains(u) {
            let j = choose|j: int| 0 <= j < sub.len() && sub[j] == u;
            assert(all[j] == u);
        }
        if rest.contains(u) {
            let j = choose|j: int| 0 <= j < rest.len() && rest[j] == u;
            assert(items[j] == u);
        }
        if all.contains(u) {
            let j = choose|j: int| 0 <= j < all.len() && all[j] == u;
            if j < sub.len() {
                assert(sub[j] == u);
            } else {
                assert(items[items.len() - 1] == u);
            }
        }
        if items.contains(u) && !removed.contains(u) {
            let j = choose|j: int| 0 <= j < items.len() && items[j] == u;
            if j < items.len() - 1 {
                assert(rest[j] == u);
            } else {
                assert(all[all.len() - 1] == u);
            }
        }
    }
}

fn normalized_list(items: &[&str]) -> (list: Vec<String>)
    ensures
        strings_text(list@) == normalized_all(strs_text(items@)),
{
    let ghost texts = strs_text(items@);
    let mut list: Vec<String> = Vec::new();
    let mut i: usize = 0;
    assert(texts.subrange(0, 0) =~= Seq::<Seq<char>>::empty());
    assert(strings_text(list@) =~= Seq::<Seq<char>>::empty());
    while i < items.len()
        invariant
            texts == strs_text(items@),
            i <= items@.len(),
            strings_text(list@) == normalized_all(texts.subrange(0, i as int)),
        decreases items@.len() - i,
    {
        let ghost before = list@;
        let ghost prefix = texts.subrange(0, i + 1);
        assert(prefix.drop_last() =~= texts.subrange(0, i as int));
        assert(prefix.last() == items@[i as int]@);
        match normalize_uuid(items[i]) {
            Some(n) => {
                list.push(n);
                assert(strings_text(list@) =~= strings_text(before).push(n@));
            },
            None => {},
        }
        i = i + 1;
    }
    assert(texts.subrange(0, i as int) =~= texts);
    list
}

fn list_contains(list: &Vec<String>, item: &String) -> (found: bool)
    ensures
        found == strings_text(list@).contains(item@),
{
    let mut i: usize = 0;
    while i < list.len()
        invariant
            i <= list@.len(),
            forall|j: int| 0 <= j < i ==> strings_text(list@)[j] != item@,
        decreases list@.len() - i,
    {
        if list[i] == *item {
            assert(strings_text(list@)[i as int] == item@);
            return true;
        }
        i = i + 1;
    }
    false
}

fn denied(message: &str) -> (error: BleError)
    ensures
        error.is_plain(ErrorCode::PermissionDenied),
        error.message@ == message@,
{
    BleError::new(ErrorCode::PermissionDenied, message)
}

impl ServiceScope {
    /// Builds the scope from the allowed UUIDs minus the denied ones; entries that are
    /// not UUIDs are ignored.
    pub fn new(allow: &[&str], deny: &[&str]) -> (scope: Self)
        ensures
            forall|uuid: Seq<char>|
                scope@.contains(uuid) <==> scoped(strs_text(allow@), strs_text(deny@), uuid),
    {
        let denied_list = normalized_list(deny);
        let candidates = normalized_list(allow);
        let ghost removed = strings_text(denied_list@);
        let ghost all = strings_text(candidates@);
        let mut allowed: Vec<String> = Vec::new();
        let mut i: usize = 0;
        assert(all.subrange(0, 0) =~= Seq::<Seq<char>>::empty());
        assert(strings_text(allowed@) =~= Seq::<Seq<char>>::empty());
        while i < candidates.len()
            invariant
                removed == strings_text(denied_list@),
                all == strings_text(candidates@),
                i <= candidates@.len(),
                strings_text(allowed@) == without_all(all.subrange(0, i as int), removed),
            decreases candidates@.len() - i,
        {
            let ghost before = allowed@;
            let ghost prefix = all.subrange(0, i + 1);
            assert(prefix.drop_last() =~= all.subrange(0, i as int));
            assert(prefix.last() == candidates@[i as int]@);
            if !list_contains(&denied_list, &candidates[i]) {
                allowed.push(candidates[i].clone());
                assert(strings_text(allowed@) =~= strings_text(before).push(candidates@[i as int]@));
            }
            i = i + 1;
        }
        assert(all.subrange(0, i as int) =~= all);
        proof {
            assert forall|uuid: Seq<char>|
                strings_text(allowed@).contains(uuid) <==> scoped(
                    strs_text(allow@),
                    strs_text(deny@),
                    uuid,
                ) by {
                lemma_without_all(all, removed, uuid);
                lemma_normalized_all(strs_text(allow@), uuid);
                lemma_normalized_all(strs_text(deny@), uuid);
            }
        }
        ServiceScope { allowed }
    }

    pub fn is_empty(&self) -> (empty: bool)
        ensures
            empty <==> forall|uuid: Seq<char>| !self@.contains(uuid),
            empty == (self@.len() == 0),
    {
        if self.allowed.len() == 0 {
            true
        } else {
            assert(self@.contains(self@[0]));
            false
        }
    }

    /// Returns the normalized form of `uuid` when the scope allows it.
    pub fn permit(&self, uuid: &str) -> (normalized: BleResult<String>)
        ensures
            match permitted(self@, uuid@) {
                Ok(n) => normalized matches Ok(s) && s@ == n,
                Err(code) => normalized matches Err(e) && e.is_plain(code) && e.message@
                    == refusal_message(uuid@),
            },
    {
        let normalized = match normalize_uuid(uuid) {
            Some(n) => n,
            None => {
                return Err(BleError::new(ErrorCode::InvalidArgument, "value is not a UUID"));
            },
        };
        if list_contains(&self.allowed, &normalized) {
            Ok(normalized)
        } else {
            let mut message = "service UUID ".to_owned();
            push_text(&mut message, normalized.as_str());
            push_text(&mut message, " is outside the gattify:scope");
            Err(BleError::with_message(ErrorCode::PermissionDenied, message))
        }
    }

    pub fn allows(&self, uuid: &str) -> (allowed: bool)
        ensures
            allowed == permitted(self@, uuid@) is Ok,
    {
        self.permit(uuid).is_ok()
    }
}

/// The usable characteristic handles of each owner and connection.
pub type HandleTable = Seq<(Seq<char>, Seq<char>, Seq<Seq<char>>)>;

/// The handles last stored for `owner` on `connection`.
pub open spec fn usable_handles(table: HandleTable, owner: Seq<char>, connection: Seq<char>) -> Option<
    Seq<Seq<char>>,
>
    decreases table.len(),
{
    if table.len() == 0 {
        None
    } else if table.last().0 == owner && table.last().1 == connection {
        Some(table.last().2)
    } else {
        usable_handles(table.drop_last(), owner, connection)
    }
}

/// `handle` came from a scoped discovery by `owner` on `connection`.
pub open spec fn handle_usable(
    table: HandleTable,
    owner: Seq<char>,
    connection: Seq<char>,
    handle: Seq<char>,
) -> bool {
    usable_handles(table, owner, connection) matches Some(handles) && handles.contains(handle)
}

/// The table without the entry of `owner` on `connection`.
pub open spec fn forget_pair(table: HandleTable, owner: Seq<char>, connection: Seq<char>) -> HandleTable
    decreases table.len(),
{
    if table.len() == 0 {
        table
    } else if table.last().0 == owner && table.last().1 == connection {
        forget_pair(table.drop_last(), owner, connection)
    } else {
        forget_pair(table.drop_last(), owner, connection).push(table.last())
    }
}

/// The table without the entries of `owner`.
pub open spec fn forget_all(table: HandleTable, owner: Seq<char>) -> HandleTable
    decreases table.len(),
{
    if table.len() == 0 {
        table
    } else if table.last().0 == owner {
        forget_all(table.drop_last(), owner)
    } else {
        forget_all(table.drop_last(), owner).push(table.last())
    }
}

/// The table with `handles` stored for `owner` on `connection`.
pub open spec fn remember(
    table: HandleTable,
    owner: Seq<char>,
    connection: Seq<char>,
    handles: Seq<Seq<char>>,
) -> HandleTable {
    forget_pair(table, owner, connection).push((owner, connection, handles))
}

/// What one call on a guard does to its handle table.
pub enum HandleCall {
    /// A scoped discovery by an owner on a connection, with the handles it kept.
    Discovered(Seq<char>, Seq<char>, Seq<Seq<char>>),
    /// A connection of an owner is forgotten: disconnected, closed or dropped.
    ForgetConnection(Seq<char>, Seq<char>),
    /// Every connection of an owner is forgotten.
    ForgetOwner(Seq<char>),
    /// Anything else, which leaves the table as it was.
    Unchanged,
}

/// The table after `call`.
pub open spec fn handle_step(table: HandleTable, call: HandleCall) -> HandleTable {
    match call {
        HandleCall::Discovered(owner, connection, handles) => remember(table, owner, connection, handles),
        HandleCall::ForgetConnection(owner, connection) => forget_pair(table, owner, connection),
        HandleCall::ForgetOwner(owner) => forget_all(table, owner),
        HandleCall::Unchanged => table,
    }
}

/// What observing `reply` to `command` of `owner` does to the table.
pub open spec fn observed_call(
    scope: Seq<Seq<char>>,
    owner: Seq<char>,
    command: Command,
    reply: BleResult<Reply>,
) -> HandleCall {
    match command {
        Command::DiscoverServices { connection_id } => match reply {
            Ok(Reply::Services(list)) => HandleCall::Discovered(
                owner,
                connection_id@,
                handles_of(scoped_services(scope, list@)),
            ),
            _ => HandleCall::Unchanged,
        },
        Command::Disconnect { connection_id } => HandleCall::ForgetConnection(owner, connection_id@),
        _ => HandleCall::Unchanged,
    }
}

/// The handles usable by `owner` on `connection` after the first `n` calls of a run
/// from `start`: those of its latest scoped discovery there, unless the connection or
/// the owner was forgotten since.
pub open spec fn latest_handles(
    start: HandleTable,
    calls: Seq<HandleCall>,
    owner: Seq<char>,
    connection: Seq<char>,
    n: int,
) -> Option<Seq<Seq<char>>>
    decreases n,
{
    if n <= 0 {
        usable_handles(start, owner, connection)
    } else {
        match calls[n - 1] {
            HandleCall::Discovered(o, c, handles) => if o == owner && c == connection {
                Some(handles)
            } else {
                latest_handles(start, calls, owner, connection, n - 1)
            },
            HandleCall::ForgetConnection(o, c) => if o == owner && c == connection {
                None
            } else {
                latest_handles(start, calls, owner, connection, n - 1)
            },
            HandleCall::ForgetOwner(o) => if o == owner {
                None
            } else {
                latest_handles(start, calls, owner, connection, n - 1)
            },
            HandleCall::Unchanged => latest_handles(start, calls, owner, connection, n - 1),
        }
    }
}

/// The services of `list` whose UUID the scope allows, in order.
pub open spec fn scoped_services(scope: Seq<Seq<char>>, list: Seq<ServiceInstance>) -> Seq<ServiceInstance>
    decreases list.len(),
{
    if list.len() == 0 {
        list
    } else if permitted(scope, list.last().uuid@) is Ok {
        scoped_services(scope, list.drop_last()).push(list.last())
    } else {
        scoped_services(scope, list.drop_last())
    }
}

/// The characteristic handles of `list`, service by service.
pub open spec fn handles_of(list: Seq<ServiceInstance>) -> Seq<Seq<char>>
    decreases list.len(),
{
    if list.len() == 0 {
        Seq::empty()
    } else {
        handles_of(list.drop_last()) + list.last().characteristics@.map_values(
            |c: CharacteristicInstance| c.handle@,
        )
    }
}

/// The commands that release a resource; they pass whatever the scope.
pub open spec fn is_cleanup(command: Command) -> bool {
    command is StopScan || command is Disconnect || command is Unsubscribe
        || command is CloseServer || command is StopAdvertising
}

/// The scan filter, each entry checked against the scope: the normalized list, or the
/// code of the first entry refused, with that entry.
pub open spec fn scoped_filter(scope: Seq<Seq<char>>, uuids: Seq<Seq<char>>) -> Result<
    Seq<Seq<char>>,
    (ErrorCode, Seq<char>),
>
    decreases uuids.len(),
{
    if uuids.len() == 0 {
        Ok(Seq::empty())
    } else {
        match scoped_filter(scope, uuids.drop_last()) {
            Err(refused) => Err(refused),
            Ok(list) => match permitted(scope, uuids.last()) {
                Err(code) => Err((code, uuids.last())),
                Ok(n) => Ok(list.push(n)),
            },
        }
    }
}

/// The code of the first service whose UUID the scope refuses, with that UUID.
pub open spec fn first_service_error(scope: Seq<Seq<char>>, services: Seq<LocalService>) -> Option<
    (ErrorCode, Seq<char>),
>
    decreases services.len(),
{
    if services.len() == 0 {
        None
    } else {
        match first_service_error(scope, services.drop_last()) {
            Some(refused) => Some(refused),
            None => match permitted(scope, services.last().uuid@) {
                Err(code) => Some((code, services.last().uuid@)),
                Ok(_) => None,
            },
        }
    }
}

/// `out` is `c` with its UUID normalized where it is one.
pub open spec fn rescoped_characteristic(c: LocalCharacteristic, out: LocalCharacteristic) -> bool {
    &&& out.instance_key == c.instance_key
    &&& out.properties == c.properties
    &&& out.initial_value_base64 == c.initial_value_base64
    &&& out.max_value_length == c.max_value_length
    &&& out.uuid@ == match normalized_uuid(c.uuid@) {
        Some(n) => n,
        None => c.uuid@,
    }
}

/// `out` is `s` with its UUID checked against the scope and its characteristics'
/// UUIDs normalized.
pub open spec fn rescoped_service(scope: Seq<Seq<char>>, s: LocalService, out: LocalService) -> bool {
    &&& out.instance_key == s.instance_key
    &&& out.primary == s.primary
    &&& permitted(scope, s.uuid@) == Ok::<Seq<char>, ErrorCode>(out.uuid@)
    &&& out.characteristics@.len() == s.characteristics@.len()
    &&& forall|k: int|
        0 <= k < s.characteristics@.len() ==> rescoped_characteristic(
            #[trigger] s.characteristics@[k],
            out.characteristics@[k],
        )
}

/// `result` is what checking `command` from `owner` against the scope and the usable
/// handles gives.
pub open spec fn authorized(
    scope: Seq<Seq<char>>,
    table: HandleTable,
    owner: Seq<char>,
    command: Command,
    result: BleResult<Command>,
) -> bool {
    if is_cleanup(command) {
        result == Ok::<Command, BleError>(command)
    } else if scope.len() == 0 {
        result matches Err(e) && e.is_plain(ErrorCode::PermissionDenied) && e.message@
            == "the gattify:scope permission lists no service UUID"@
    } else {
        match command {
            Command::StartScan(options) => if options.service_uuids@.len() == 0 {
                result matches Err(e) && e.is_plain(ErrorCode::PermissionDenied) && e.message@
                    == "a scan needs a service UUID filter"@
            } else {
                match scoped_filter(scope, strings_text(options.service_uuids@)) {
                    Err((code, refused)) => result matches Err(e) && e.is_plain(code) && e.message@
                        == refusal_message(refused),
                    Ok(list) => result matches Ok(Command::StartScan(out)) && strings_text(
                        out.service_uuids@,
                    ) == list && out.timeout_ms == options.timeout_ms,
                }
            },
            Command::Read { connection_id, characteristic } => if handle_usable(
                table,
                owner,
                connection_id@,
                characteristic@,
            ) {
                result == Ok::<Command, BleError>(command)
            } else {
                result matches Err(e) && e.is_plain(ErrorCode::PermissionDenied) && e.message@
                    == undiscovered_message()
            },
            Command::Write { connection_id, characteristic, .. } => if handle_usable(
                table,
                owner,
                connection_id@,
                characteristic@,
            ) {
                result == Ok::<Command, BleError>(command)
            } else {
                result matches Err(e) && e.is_plain(ErrorCode::PermissionDenied) && e.message@
                    == undiscovered_message()
            },
            Command::Subscribe { connection_id, characteristic } => if handle_usable(
                table,
                owner,
                connection_id@,
                characteristic@,
            ) {
                result == Ok::<Command, BleError>(command)
            } else {
                result matches Err(e) && e.is_plain(ErrorCode::PermissionDenied) && e.message@
                    == undiscovered_message()
            },
            Command::CreateServer(definition) => match first_service_error(
                scope,
                definition.services@,
            ) {
                Some((code, refused)) => result matches Err(e) && e.is_plain(code) && e.message@
                    == refusal_message(refused),
                None => result matches Ok(Command::CreateServer(out)) && out.services@.len()
                    == definition.services@.len() && forall|i: int|
                    0 <= i < definition.services@.len() ==> rescoped_service(
                        scope,
                        #[trigger] definition.services@[i],
                        out.services@[i],
                    ),
            },
            Command::StartAdvertising { server_id, options } => match permitted(
                scope,
                options.service_uuid@,
            ) {
                Err(code) => result matches Err(e) && e.is_plain(code) && e.message@
                    == refusal_message(options.service_uuid@),
                Ok(n) => result matches Ok(Command::StartAdvertising { server_id: s, options: o })
                    && s == server_id && o.service_uuid@ == n && o.local_name == options.local_name
                    && o.local_name_optional == options.local_name_optional,
            },
            _ => result == Ok::<Command, BleError>(command),
        }
    }
}

/// The handle table, by text.
pub open spec fn table_of(table: Seq<(String, String, Vec<String>)>) -> HandleTable {
    table.map_values(|e: (String, String, Vec<String>)| (e.0@, e.1@, strings_text(e.2@)))
}

/// Enforces the scope on raw GATT commands from a webview.
///
/// It remembers, for each owner and connection, the characteristic handles that a
/// scoped discovery returned. Only those handles may be read, written or subscribed.
pub struct ScopeGuard {
    handles: Vec<(String, String, Vec<String>)>,
}

impl View for ScopeGuard {
    type V = HandleTable;

    closed spec fn view(&self) -> HandleTable {
        table_of(self.handles@)
    }
}

impl Default for ScopeGuard {
    fn default() -> (guard: Self)
        ensures
            guard@ == Seq::<(Seq<char>, Seq<char>, Seq<Seq<char>>)>::empty(),
    {
        let guard = ScopeGuard { handles: Vec::new() };
        assert(guard@ =~= Seq::<(Seq<char>, Seq<char>, Seq<Seq<char>>)>::empty());
        guard
    }
}

fn copy_texts(items: &Vec<String>) -> (copy: Vec<String>)
    ensures
        strings_text(copy@) == strings_text(items@),
{
    let mut copy: Vec<String> = Vec::new();
    let mut i: usize = 0;
    while i < items.len()
        invariant
            i <= items@.len(),
            strings_text(copy@) == strings_text(items@).subrange(0, i as int),
        decreases items@.len() - i,
    {
        let ghost before = copy@;
        let item = items[i].clone();
        copy.push(item);
        assert(strings_text(copy@) =~= strings_text(before).push(items@[i as int]@));
        i = i + 1;
        assert(strings_text(copy@) =~= strings_text(items@).subrange(0, i as int));
    }
    assert(strings_text(items@).subrange(0, i as int) =~= strings_text(items@));
    copy
}

fn same_text(a: &String, b: &String) -> (same: bool)
    ensures
        same == (a@ == b@),
{
    *a == *b
}

fn rescope_characteristics(list: Vec<LocalCharacteristic>) -> (out: Vec<LocalCharacteristic>)
    ensures
        out@.len() == list@.len(),
        forall|k: int| 0 <= k < list@.len() ==> rescoped_characteristic(#[trigger] list@[k], out@[k]),
{
    let ghost original = list@;
    let mut rest = list;
    let mut out: Vec<LocalCharacteristic> = Vec::new();
    while rest.len() > 0
        invariant
            out@.len() + rest@.len() == original.len(),
            rest@ == original.subrange(out@.len() as int, original.len() as int),
            forall|k: int| 0 <= k < out@.len() ==> rescoped_characteristic(#[trigger] original[k], out@[k]),
        decreases rest@.len(),
    {
        let ghost done = out@.len();
        let mut c = rest.remove(0);
        assert(c == original[done as int]);
        match normalize_uuid(c.uuid.as_str()) {
            Some(uuid) => {
                c.uuid = uuid;
            },
            None => {},
        }
        out.push(c);
        assert(rest@ =~= original.subrange(out@.len() as int, original.len() as int));
    }
    out
}

fn rescope_services(scope: &ServiceScope, list: Vec<LocalService>) -> (out: BleResult<Vec<LocalService>>)
    ensures
        match first_service_error(scope@, list@) {
            Some((code, refused)) => out matches Err(e) && e.is_plain(code) && e.message@
                == refusal_message(refused),
            None => out matches Ok(services) && services@.len() == list@.len() && forall|i: int|
                0 <= i < list@.len() ==> rescoped_service(scope@, #[trigger] list@[i], services@[i]),
        },
{
    let ghost original = list@;
    let mut rest = list;
    let mut out: Vec<LocalService> = Vec::new();
    assert(original.subrange(0, 0) =~= Seq::<LocalService>::empty());
    while rest.len() > 0
        invariant
            original == list@,
            out@.len() + rest@.len() == original.len(),
            rest@ == original.subrange(out@.len() as int, original.len() as int),
            first_service_error(scope@, original.subrange(0, out@.len() as int)) is None,
            forall|i: int| 0 <= i < out@.len() ==> rescoped_service(scope@, #[trigger] original[i], out@[i]),
        decreases rest@.len(),
    {
        let ghost done = out@.len();
        let ghost prefix = original.subrange(0, done as int + 1);
        assert(prefix.drop_last() =~= original.subrange(0, done as int));
        let service = rest.remove(0);
        assert(service == original[done as int]);
        assert(prefix.last() == service);
        let uuid = match scope.permit(service.uuid.as_str()) {
            Ok(uuid) => uuid,
            Err(error) => {
                proof {
                    assert(first_service_error(scope@, prefix) == Some((error.code, service.uuid@)));
                    lemma_first_service_error_prefix(scope@, original, done as int + 1);
                    assert(error.is_plain(error.code));
                }
                return Err(error);
            },
        };
        let LocalService { instance_key, uuid: _, primary, characteristics } = service;
        let characteristics = rescope_characteristics(characteristics);
        out.push(LocalService { instance_key, uuid, primary, characteristics });
        assert(rest@ =~= original.subrange(out@.len() as int, original.len() as int));
    }
    assert(original.subrange(0, original.len() as int) =~= original);
    Ok(out)
}

proof fn lemma_first_service_error_prefix(scope: Seq<Seq<char>>, services: Seq<LocalService>, k: int)
    requires
        0 <= k <= services.len(),
        first_service_error(scope, services.subrange(0, k)) is Some,
    ensures
        first_service_error(scope, services) == first_service_error(scope, services.subrange(0, k)),
    decreases services.len() - k,
{
    if k < services.len() {
        assert(services.drop_last().subrange(0, k) =~= services.subrange(0, k));
        lemma_first_service_error_prefix(scope, services.drop_last(), k);
    } else {
        assert(services.subrange(0, k) =~= services);
    }
}

proof fn lemma_scoped_filter_prefix(scope: Seq<Seq<char>>, uuids: Seq<Seq<char>>, k: int)
    requires
        0 <= k <= uuids.len(),
        scoped_filter(scope, uuids.subrange(0, k)) is Err,
    ensures
        scoped_filter(scope, uuids) == scoped_filter(scope, uuids.subrange(0, k)),
    decreases uuids.len() - k,
{
    if k < uuids.len() {
        assert(uuids.drop_last().subrange(0, k) =~= uuids.subrange(0, k));
        lemma_scoped_filter_prefix(scope, uuids.drop_last(), k);
    } else {
        assert(uuids.subrange(0, k) =~= uuids);
    }
}

fn rescope_filter(scope: &ServiceScope, uuids: &Vec<String>) -> (out: BleResult<Vec<String>>)
    ensures
        match scoped_filter(scope@, strings_text(uuids@)) {
            Err((code, refused)) => out matches Err(e) && e.is_plain(code) && e.message@
                == refusal_message(refused),
            Ok(list) => out matches Ok(normalized) && strings_text(normalized@) == list,
        },
{
    let ghost texts = strings_text(uuids@);
    let mut out: Vec<String> = Vec::new();
    let mut i: usize = 0;
    assert(texts.subrange(0, 0) =~= Seq::<Seq<char>>::empty());
    assert(strings_text(out@) =~= Seq::<Seq<char>>::empty());
    while i < uuids.len()
        invariant
            texts == strings_text(uuids@),
            i <= uuids@.len(),
            scoped_filter(scope@, texts.subrange(0, i as int)) == Ok::<Seq<Seq<char>>, (ErrorCode, Seq<char>)>(
                strings_text(out@),
            ),
        decreases uuids@.len() - i,
    {
        let ghost prefix = texts.subrange(0, i + 1);
        assert(prefix.drop_last() =~= texts.subrange(0, i as int));
        assert(prefix.last() == uuids@[i as int]@);
        match scope.permit(uuids[i].as_str()) {
            Ok(n) => {
                let ghost before = out@;
                out.push(n);
                assert(strings_text(out@) =~= strings_text(before).push(n@));
            },
            Err(error) => {
                proof {
                    lemma_scoped_filter_prefix(scope@, texts, i + 1);
                }
                return Err(error);
            },
        }
        i = i + 1;
    }
    assert(texts.subrange(0, i as int) =~= texts);
    Ok(out)
}

impl ScopeGuard {
    fn usable(&self, owner: &String, connection: &String, handle: &String) -> (usable: bool)
        ensures
            usable == handle_usable(self@, owner@, connection@, handle@),
    {
        let ghost all = self@;
        let mut i = self.handles.len();
        assert(all.subrange(0, i as int) =~= all);
        while i > 0
            invariant
                all == self@,
                i <= self.handles@.len(),
                usable_handles(all, owner@, connection@) == usable_handles(
                    all.subrange(0, i as int),
                    owner@,
                    connection@,
                ),
            decreases i,
        {
            let ghost prefix = all.subrange(0, i as int);
            assert(prefix.drop_last() =~= all.subrange(0, i - 1));
            let entry = &self.handles[i - 1];
            assert(prefix.last() == (entry.0@, entry.1@, strings_text(entry.2@)));
            if same_text(&entry.0, owner) && same_text(&entry.1, connection) {
                let handles = &entry.2;
                assert(usable_handles(all, owner@, connection@) == Some(strings_text(handles@)));
                let mut j: usize = 0;
                while j < handles.len()
                    invariant
                        all == self@,
                        usable_handles(all, owner@, connection@) == Some(strings_text(handles@)),
                        j <= handles@.len(),
                        forall|k: int| 0 <= k < j ==> strings_text(handles@)[k] != handle@,
                    decreases handles@.len() - j,
                {
                    if same_text(&handles[j], handle) {
                        assert(strings_text(handles@)[j as int] == handle@);
                        return true;
                    }
                    j = j + 1;
                }
                return false;
            }
            i = i - 1;
        }
        false
    }

    /// Checks `command` against the scope and returns it with normalized UUIDs.
    pub fn authorize(&self, scope: &ServiceScope, owner: &OwnerId, command: Command) -> (result:
        BleResult<Command>)
        ensures
            authorized(scope@, self@, owner@, command, result),
    {
        match &command {
            Command::StopScan { .. } | Command::Disconnect { .. } | Command::Unsubscribe { .. }
            | Command::CloseServer { .. } | Command::StopAdvertising { .. } => {
                return Ok(command);
            },
            _ => {},
        }
        if scope.is_empty() {
            return Err(denied("the gattify:scope permission lists no service UUID"));
        }
        match command {
            Command::StartScan(options) => {
                if options.service_uuids.len() == 0 {
                    return Err(denied("a scan needs a service UUID filter"));
                }
                let service_uuids = rescope_filter(scope, &options.service_uuids)?;
                Ok(Command::StartScan(ScanOptions { service_uuids, timeout_ms: options.timeout_ms }))
            },
            Command::Read { connection_id, characteristic } => {
                if self.usable(&owner.0, &connection_id.0, &characteristic.0) {
                    Ok(Command::Read { connection_id, characteristic })
                } else {
                    Err(
                        denied(
                            "the characteristic did not come from a scoped discovery on this connection",
                        ),
                    )
                }
            },
            Command::Write { connection_id, characteristic, value_base64, write_type } => {
                if self.usable(&owner.0, &connection_id.0, &characteristic.0) {
                    Ok(Command::Write { connection_id, characteristic, value_base64, write_type })
                } else {
                    Err(
                        denied(
                            "the characteristic did not come from a scoped discovery on this connection",
                        ),
                    )
                }
            },
            Command::Subscribe { connection_id, characteristic } => {
                if self.usable(&owner.0, &connection_id.0, &characteristic.0) {
                    Ok(Command::Subscribe { connection_id, characteristic })
                } else {
                    Err(
                        denied(
                            "the characteristic did not come from a scoped discovery on this connection",
                        ),
                    )
                }
            },
            Command::CreateServer(definition) => {
                let services = rescope_services(scope, definition.services)?;
                Ok(Command::CreateServer(ServerDefinition { services }))
            },
            Command::StartAdvertising { server_id, options } => {
                let service_uuid = scope.permit(options.service_uuid.as_str())?;
                Ok(
                    Command::StartAdvertising {
                        server_id,
                        options: crate::model::AdvertisingOptions {
                            service_uuid,
                            local_name: options.local_name,
                            local_name_optional: options.local_name_optional,
                        },
                    },
                )
            },
            other => Ok(other),
        }
    }
}

fn scoped_list(scope: &ServiceScope, services: Vec<ServiceInstance>) -> (kept: Vec<ServiceInstance>)
    ensures
        kept@ == scoped_services(scope@, services@),
{
    let ghost original = services@;
    let mut rest = services;
    let mut kept: Vec<ServiceInstance> = Vec::new();
    let ghost mut done: int = 0;
    assert(original.subrange(0, 0) =~= Seq::<ServiceInstance>::empty());
    while rest.len() > 0
        invariant
            original == services@,
            0 <= done <= original.len(),
            rest@ == original.subrange(done, original.len() as int),
            kept@ == scoped_services(scope@, original.subrange(0, done)),
        decreases rest@.len(),
    {
        let ghost prefix = original.subrange(0, done + 1);
        assert(prefix.drop_last() =~= original.subrange(0, done));
        let service = rest.remove(0);
        assert(service == original[done]);
        assert(prefix.last() == service);
        if scope.allows(service.uuid.as_str()) {
            kept.push(service);
        }
        proof {
            done = done + 1;
        }
        assert(rest@ =~= original.subrange(done, original.len() as int));
    }
    assert(original.subrange(0, done) =~= original);
    kept
}

fn collect_handles(services: &Vec<ServiceInstance>) -> (handles: Vec<String>)
    ensures
        strings_text(handles@) == handles_of(services@),
{
    let mut handles: Vec<String> = Vec::new();
    let mut i: usize = 0;
    assert(services@.subrange(0, 0) =~= Seq::<ServiceInstance>::empty());
    assert(strings_text(handles@) =~= Seq::<Seq<char>>::empty());
    while i < services.len()
        invariant
            i <= services@.len(),
            strings_text(handles@) == handles_of(services@.subrange(0, i as int)),
        decreases services@.len() - i,
    {
        let ghost prefix = services@.subrange(0, i + 1);
        assert(prefix.drop_last() =~= services@.subrange(0, i as int));
        let characteristics = &services[i].characteristics;
        let ghost start = strings_text(handles@);
        let mut k: usize = 0;
        while k < characteristics.len()
            invariant
                k <= characteristics@.len(),
                strings_text(handles@) == start + characteristics@.subrange(0, k as int).map_values(
                    |c: CharacteristicInstance| c.handle@,
                ),
            decreases characteristics@.len() - k,
        {
            let ghost before = strings_text(handles@);
            let handle = characteristics[k].handle.0.clone();
            handles.push(handle);
            assert(strings_text(handles@) =~= before.push(characteristics@[k as int].handle@));
            assert(characteristics@.subrange(0, k + 1).map_values(
                |c: CharacteristicInstance| c.handle@,
            ) =~= characteristics@.subrange(0, k as int).map_values(
                |c: CharacteristicInstance| c.handle@,
            ).push(characteristics@[k as int].handle@));
            k = k + 1;
            assert(strings_text(handles@) =~= start + characteristics@.subrange(0, k as int).map_values(
                |c: CharacteristicInstance| c.handle@,
            ));
        }
        assert(characteristics@.subrange(0, k as int) =~= characteristics@);
        assert(prefix.last() == services@[i as int]);
        i = i + 1;
    }
    assert(services@.subrange(0, i as int) =~= services@);
    handles
}

impl ScopeGuard {
    /// Drops the stored handles that `keep` rejects: those of `owner` on `connection`,
    /// or, with `connection` absent, every entry of `owner`.
    fn drop_entries(&mut self, owner: &String, connection: Option<&String>)
        ensures
            final(self)@ == match connection {
                Some(c) => forget_pair(old(self)@, owner@, c@),
                None => forget_all(old(self)@, owner@),
            },
    {
        let ghost all = self@;
        let mut kept: Vec<(String, String, Vec<String>)> = Vec::new();
        let mut i: usize = 0;
        assert(all.subrange(0, 0) =~= Seq::<(Seq<char>, Seq<char>, Seq<Seq<char>>)>::empty());
        assert(table_of(kept@) =~= Seq::<(Seq<char>, Seq<char>, Seq<Seq<char>>)>::empty());
        while i < self.handles.len()
            invariant
                all == self@,
                i <= self.handles@.len(),
                table_of(kept@) == match connection {
                    Some(c) => forget_pair(all.subrange(0, i as int), owner@, c@),
                    None => forget_all(all.subrange(0, i as int), owner@),
                },
            decreases self.handles@.len() - i,
        {
            let ghost prefix = all.subrange(0, i + 1);
            assert(prefix.drop_last() =~= all.subrange(0, i as int));
            let entry = &self.handles[i];
            assert(prefix.last() == (entry.0@, entry.1@, strings_text(entry.2@)));
            let dropped = same_text(&entry.0, owner) && match connection {
                Some(c) => same_text(&entry.1, c),
                None => true,
            };
            if !dropped {
                let ghost before = table_of(kept@);
                let copy = (entry.0.clone(), entry.1.clone(), copy_texts(&entry.2));
                kept.push(copy);
                assert(table_of(kept@) =~= before.push(prefix.last()));
            }
            i = i + 1;
        }
        assert(all.subrange(0, i as int) =~= all);
        self.handles = kept;
    }

    pub fn forget_connection(&mut self, owner: &OwnerId, connection_id: &ConnectionId)
        ensures
            final(self)@ == forget_pair(old(self)@, owner@, connection_id@),
            final(self)@ == handle_step(old(self)@, HandleCall::ForgetConnection(owner@, connection_id@)),
    {
        self.drop_entries(&owner.0, Some(&connection_id.0));
    }

    /// Follows a backend event of a webview owner: a closed connection takes its
    /// handles with it; any other event changes nothing.
    pub fn observe_event(&mut self, owner: &OwnerId, event: &Event)
        ensures
            final(self)@ == match event {
                Event::ConnectionClosed { connection_id } => forget_pair(old(self)@, owner@, connection_id@),
                _ => old(self)@,
            },
            final(self)@ == handle_step(
                old(self)@,
                match event {
                    Event::ConnectionClosed { connection_id } => HandleCall::ForgetConnection(
                        owner@,
                        connection_id@,
                    ),
                    _ => HandleCall::Unchanged,
                },
            ),
    {
        if let Event::ConnectionClosed { connection_id } = event {
            self.forget_connection(owner, connection_id);
        }
    }

    pub fn forget_owner(&mut self, owner: &OwnerId)
        ensures
            final(self)@ == forget_all(old(self)@, owner@),
            final(self)@ == handle_step(old(self)@, HandleCall::ForgetOwner(owner@)),
    {
        self.drop_entries(&owner.0, None);
    }

    /// Applies the scope to the reply of an executed command: a discovery keeps only the
    /// services inside the scope and stores their characteristic handles; a disconnect
    /// forgets the handles of its connection.
    pub fn observe(
        &mut self,
        scope: &ServiceScope,
        owner: &OwnerId,
        command: &Command,
        reply: BleResult<Reply>,
    ) -> (observed: BleResult<Reply>)
        ensures
            match *command {
                Command::DiscoverServices { connection_id } => match reply {
                    Ok(Reply::Services(list)) => observed matches Ok(Reply::Services(kept))
                        && kept@ == scoped_services(scope@, list@) && final(self)@ == remember(
                        old(self)@,
                        owner@,
                        connection_id@,
                        handles_of(kept@),
                    ),
                    _ => observed == reply && final(self)@ == old(self)@,
                },
                Command::Disconnect { connection_id } => observed == reply && final(self)@
                    == forget_pair(old(self)@, owner@, connection_id@),
                _ => observed == reply && final(self)@ == old(self)@,
            },
            final(self)@ == handle_step(old(self)@, observed_call(scope@, owner@, *command, reply)),
    {
        match command {
            Command::DiscoverServices { connection_id } => match reply {
                Ok(Reply::Services(services)) => {
                    let kept = scoped_list(scope, services);
                    let handles = collect_handles(&kept);
                    self.drop_entries(&owner.0, Some(&connection_id.0));
                    let ghost before = self@;
                    let ghost handles_view = strings_text(handles@);
                    self.handles.push((owner.0.clone(), connection_id.0.clone(), handles));
                    assert(self@ =~= before.push((owner@, connection_id@, handles_view)));
                    Ok(Reply::Services(kept))
                },
                other => other,
            },
            Command::Disconnect { connection_id } => {
                self.forget_connection(owner, connection_id);
                reply
            },
            _ => reply,
        }
    }
}

proof fn lemma_forget_pair_lookup(
    table: HandleTable,
    owner: Seq<char>,
    connection: Seq<char>,
    other_owner: Seq<char>,
    other_connection: Seq<char>,
)
    ensures
        usable_handles(forget_pair(table, owner, connection), other_owner, other_connection) == if owner
            == other_owner && connection == other_connection {
            None
        } else {
            usable_handles(table, other_owner, other_connection)
        },
    decreases table.len(),
{
    if table.len() > 0 {
        let rest = forget_pair(table.drop_last(), owner, connection);
        lemma_forget_pair_lookup(
            table.drop_last(),
            owner,
            connection,
            other_owner,
            other_connection,
        );
        assert(rest.push(table.last()).drop_last() =~= rest);
    }
}

proof fn lemma_forget_all_lookup(
    table: HandleTable,
    owner: Seq<char>,
    other_owner: Seq<char>,
    connection: Seq<char>,
)
    ensures
        usable_handles(forget_all(table, owner), other_owner, connection) == if owner
            == other_owner {
            None
        } else {
            usable_handles(table, other_owner, connection)
        },
    decreases table.len(),
{
    if table.len() > 0 {
        let rest = forget_all(table.drop_last(), owner);
        lemma_forget_all_lookup(table.drop_last(), owner, other_owner, connection);
        assert(rest.push(table.last()).drop_last() =~= rest);
    }
}

/// After a scoped discovery by `owner` on `connection`, exactly the handles of the
/// services it kept are usable there, and what other owners and connections may use
/// stays as it was.
pub proof fn law_discovery_decides_the_usable_handles(
    table: HandleTable,
    owner: Seq<char>,
    connection: Seq<char>,
    kept: Seq<ServiceInstance>,
    other_owner: Seq<char>,
    other_connection: Seq<char>,
    handle: Seq<char>,
)
    ensures
        handle_usable(remember(table, owner, connection, handles_of(kept)), owner, connection, handle)
            <==> handles_of(kept).contains(handle),
        (other_owner != owner || other_connection != connection) ==> (handle_usable(
            remember(table, owner, connection, handles_of(kept)),
            other_owner,
            other_connection,
            handle,
        ) <==> handle_usable(table, other_owner, other_connection, handle)),
{
    let rest = forget_pair(table, owner, connection);
    lemma_forget_pair_lookup(table, owner, connection, other_owner, other_connection);
    assert(rest.push((owner, connection, handles_of(kept))).drop_last() =~= rest);
}

/// Once a connection is forgotten, none of its handles is usable by its owner.
pub proof fn law_forgotten_connections_lose_their_handles(
    table: HandleTable,
    owner: Seq<char>,
    connection: Seq<char>,
    handle: Seq<char>,
)
    ensures
        !handle_usable(forget_pair(table, owner, connection), owner, connection, handle),
{
    lemma_forget_pair_lookup(table, owner, connection, owner, connection);
}

/// Once an owner is forgotten, none of its handles is usable on any connection, and
/// other owners keep theirs.
pub proof fn law_forgotten_owners_lose_their_handles(
    table: HandleTable,
    owner: Seq<char>,
    other_owner: Seq<char>,
    connection: Seq<char>,
    handle: Seq<char>,
)
    ensures
        !handle_usable(forget_all(table, owner), owner, connection, handle),
        other_owner != owner ==> (handle_usable(forget_all(table, owner), other_owner, connection, handle)
            <==> handle_usable(table, other_owner, connection, handle)),
{
    lemma_forget_all_lookup(table, owner, owner, connection);
    lemma_forget_all_lookup(table, owner, other_owner, connection);
}

/// The handles an owner may use on a connection follow its history: after any run of
/// discoveries, disconnects, closed connections and forgotten owners, they are those of
/// its latest scoped discovery on that connection, unless the connection or the owner
/// was forgotten since; other owners' and connections' calls change nothing of them.
pub proof fn law_usable_handles_follow_the_history(
    states: Seq<HandleTable>,
    calls: Seq<HandleCall>,
    owner: Seq<char>,
    connection: Seq<char>,
)
    requires
        states.len() == calls.len() + 1,
        forall|i: int| 0 <= i < calls.len() ==> states[i + 1] == handle_step(states[i], #[trigger] calls[i]),
    ensures
        usable_handles(states.last(), owner, connection) == latest_handles(
            states[0],
            calls,
            owner,
            connection,
            calls.len() as int,
        ),
{
    lemma_latest_handles(states, calls, owner, connection, calls.len() as int);
}

proof fn lemma_latest_handles(
    states: Seq<HandleTable>,
    calls: Seq<HandleCall>,
    owner: Seq<char>,
    connection: Seq<char>,
    n: int,
)
    requires
        states.len() == calls.len() + 1,
        0 <= n <= calls.len(),
        forall|i: int| 0 <= i < calls.len() ==> states[i + 1] == handle_step(states[i], #[trigger] calls[i]),
    ensures
        usable_handles(states[n], owner, connection) == latest_handles(states[0], calls, owner, connection, n),
    decreases n,
{
    if n > 0 {
        lemma_latest_handles(states, calls, owner, connection, n - 1);
        let before = states[n - 1];
        assert(states[n] == handle_step(before, calls[n - 1]));
        match calls[n - 1] {
            HandleCall::Discovered(o, c, handles) => {
                let rest = forget_pair(before, o, c);
                lemma_forget_pair_lookup(before, o, c, owner, connection);
                assert(rest.push((o, c, handles)).drop_last() =~= rest);
            },
            HandleCall::ForgetConnection(o, c) => {
                lemma_forget_pair_lookup(before, o, c, owner, connection);
            },
            HandleCall::ForgetOwner(o) => {
                lemma_forget_all_lookup(before, o, owner, connection);
            },
            HandleCall::Unchanged => {},
        }
    }
}

} // verus!
