//! A deterministic backend for tests and example development.
//!
//! It keeps handle tables keyed by text, hands out handles named `prefix-n` from one
//! counter, and checks that every handle a command names belongs to the owner that
//! sends it.

use vstd::prelude::*;

use crate::codec::{decode_base64, standard_base64_decoded};
use crate::command::{Command, OperationContext, Reply};
use crate::error::{invalid_handle_message, BleError, BleResult, ErrorCode};
use crate::ids::{CharacteristicHandle, ConnectionId, DeviceId, OperationId, ResourceId, ScanId, ServerId, SubscriptionId};
use crate::model::{
    definition_is_valid, definition_problem, uuid_is_valid, uuid_message, validate_server_definition, validate_uuid,
    AdapterState, AdvertisingReport, Capabilities, LinkLimits, PermissionOutcome,
    PermissionState, ResourceSnapshot, ScanOptions, ServerDefinition, ConnectOptions, Support, SupportLevel, support_is,
};
use crate::text::{decimal, push_char, push_decimal};

verus! {

/// The handle text `prefix-n`.
pub open spec fn handle_text(prefix: Seq<char>, n: nat) -> Seq<char> {
    prefix + seq!['-'] + decimal(n)
}

/// The entries of a handle table, by text.
pub type Entries = Seq<(Seq<char>, Seq<char>)>;

/// The entries of the subscription table: handle, owner, connection.
pub type SubscriptionEntries = Seq<(Seq<char>, Seq<char>, Seq<char>)>;

/// The value of the last entry with key `key`.
pub open spec fn lookup(table: Entries, key: Seq<char>) -> Option<Seq<char>>
    decreases table.len(),
{
    if table.len() == 0 {
        None
    } else if table.last().0 == key {
        Some(table.last().1)
    } else {
        lookup(table.drop_last(), key)
    }
}

/// The owner and connection of the last subscription with handle `key`.
pub open spec fn lookup_subscription(table: SubscriptionEntries, key: Seq<char>) -> Option<
    (Seq<char>, Seq<char>),
>
    decreases table.len(),
{
    if table.len() == 0 {
        None
    } else if table.last().0 == key {
        Some((table.last().1, table.last().2))
    } else {
        lookup_subscription(table.drop_last(), key)
    }
}

/// Whether `table` holds the entry `(key, value)`.
pub open spec fn has_entry(table: Entries, key: Seq<char>, value: Seq<char>) -> bool
    decreases table.len(),
{
    table.len() > 0 && (table.last() == (key, value) || has_entry(table.drop_last(), key, value))
}

/// The table without entries keyed `key`.
pub open spec fn without_key(table: Entries, key: Seq<char>) -> Entries
    decreases table.len(),
{
    if table.len() == 0 {
        table
    } else if table.last().0 != key {
        without_key(table.drop_last(), key).push(table.last())
    } else {
        without_key(table.drop_last(), key)
    }
}

/// The table without entries of owner `owner`.
pub open spec fn without_owner(table: Entries, owner: Seq<char>) -> Entries
    decreases table.len(),
{
    if table.len() == 0 {
        table
    } else if table.last().1 != owner {
        without_owner(table.drop_last(), owner).push(table.last())
    } else {
        without_owner(table.drop_last(), owner)
    }
}

/// The table with `key` mapped to `value`.
pub open spec fn put(table: Entries, key: Seq<char>, value: Seq<char>) -> Entries {
    without_key(table, key).push((key, value))
}

pub open spec fn subscriptions_without_key(table: SubscriptionEntries, key: Seq<char>) -> SubscriptionEntries
    decreases table.len(),
{
    if table.len() == 0 {
        table
    } else if table.last().0 != key {
        subscriptions_without_key(table.drop_last(), key).push(table.last())
    } else {
        subscriptions_without_key(table.drop_last(), key)
    }
}

pub open spec fn subscriptions_without_owner(table: SubscriptionEntries, owner: Seq<char>) -> SubscriptionEntries
    decreases table.len(),
{
    if table.len() == 0 {
        table
    } else if table.last().1 != owner {
        subscriptions_without_owner(table.drop_last(), owner).push(table.last())
    } else {
        subscriptions_without_owner(table.drop_last(), owner)
    }
}

pub open spec fn subscriptions_without_connection(table: SubscriptionEntries, connection: Seq<char>) -> SubscriptionEntries
    decreases table.len(),
{
    if table.len() == 0 {
        table
    } else if table.last().2 != connection {
        subscriptions_without_connection(table.drop_last(), connection).push(table.last())
    } else {
        subscriptions_without_connection(table.drop_last(), connection)
    }
}

/// The set without `key`.
pub open spec fn set_without(set: Seq<Seq<char>>, key: Seq<char>) -> Seq<Seq<char>>
    decreases set.len(),
{
    if set.len() == 0 {
        set
    } else if set.last() != key {
        set_without(set.drop_last(), key).push(set.last())
    } else {
        set_without(set.drop_last(), key)
    }
}

/// The servers of `set` that `servers` does not list as servers of `owner`.
pub open spec fn not_served_by(set: Seq<Seq<char>>, servers: Entries, owner: Seq<char>) -> Seq<Seq<char>>
    decreases set.len(),
{
    if set.len() == 0 {
        set
    } else if !has_entry(servers, set.last(), owner) {
        not_served_by(set.drop_last(), servers, owner).push(set.last())
    } else {
        not_served_by(set.drop_last(), servers, owner)
    }
}

/// The set with `key`.
pub open spec fn set_with(set: Seq<Seq<char>>, key: Seq<char>) -> Seq<Seq<char>> {
    set_without(set, key).push(key)
}

/// The state of the mock, by text.
pub struct MockView {
    pub next_resource: nat,
    pub scans: Entries,
    pub connections: Entries,
    pub subscriptions: SubscriptionEntries,
    pub servers: Entries,
    pub advertising: Seq<Seq<char>>,
    pub cancelled: Seq<Seq<char>>,
}

/// What the mock answers, before it becomes a [`Reply`].
pub enum MockReply {
    Empty,
    State(AdapterState),
    Capabilities,
    Permissions,
    ScanStarted(Seq<char>),
    Connected(Seq<char>),
    Services,
    Bytes,
    SubscriptionStarted(Seq<char>),
    ServerCreated(Seq<char>),
    AdvertisingStarted(bool),
    Resources(ResourceSnapshot),
}

/// The outcome of one command: a reply, or an error code with the handle it names
/// and its message.
pub enum MockOutcome {
    Replied(MockReply),
    Failed(ErrorCode, Option<Seq<char>>, Seq<char>),
}

/// The message of a command sent as a cancelled operation.
pub open spec fn cancelled_message() -> Seq<char> {
    "operation was cancelled"@
}

/// The message of a write whose value is not base64.
pub open spec fn payload_message() -> Seq<char> {
    "invalid base64 payload"@
}

/// `reply` carries exactly what `expected` says.
pub open spec fn reply_shows(reply: Reply, expected: MockReply) -> bool {
    match expected {
        MockReply::Empty => reply is Empty,
        MockReply::State(state) => reply == Reply::State(state),
        MockReply::Capabilities => match reply {
            Reply::Capabilities(c) => {
                &&& support_is(c.central, SupportLevel::Supported, "available"@)
                &&& support_is(c.peripheral, SupportLevel::Supported, "available"@)
                &&& support_is(c.advertising, SupportLevel::Supported, "available"@)
                &&& support_is(c.targeted_notify, SupportLevel::Supported, "available"@)
                &&& support_is(c.simultaneous_roles, SupportLevel::Supported, "available"@)
                &&& support_is(c.background, SupportLevel::Unsupported, "mockForegroundOnly"@)
                &&& c.max_connections == Some(8u32)
                &&& c.max_advertising_data_length == Some(31u32)
            },
            _ => false,
        },
        MockReply::Permissions => reply == Reply::Permissions(
            PermissionState {
                scan: PermissionOutcome::Granted,
                connect: PermissionOutcome::Granted,
                advertise: PermissionOutcome::Granted,
            },
        ),
        MockReply::ScanStarted(id) => reply matches Reply::ScanStarted { scan_id } && scan_id@
            == id,
        MockReply::Connected(id) => reply matches Reply::Connected { connection_id, limits }
            && connection_id@ == id && limits == (LinkLimits {
            write_with_response: Some(20),
            write_without_response: Some(20),
            notification: Some(20),
            att_mtu: None,
        }),
        MockReply::Services => reply matches Reply::Services(services) && services@.len() == 0,
        MockReply::Bytes => reply matches Reply::Bytes { value_base64 } && value_base64@.len()
            == 0,
        MockReply::SubscriptionStarted(id) => reply matches Reply::SubscriptionStarted {
            subscription_id,
        } && subscription_id@ == id,
        MockReply::ServerCreated(id) => reply matches Reply::ServerCreated { server_id }
            && server_id@ == id,
        MockReply::AdvertisingStarted(named) => reply == Reply::AdvertisingStarted(
            AdvertisingReport { local_name_included: named, local_name_truncated: false },
        ),
        MockReply::Resources(snapshot) => reply == Reply::Resources(snapshot),
    }
}

/// `result` is what `outcome` describes.
pub open spec fn result_shows(result: BleResult<Reply>, outcome: MockOutcome) -> bool {
    match outcome {
        MockOutcome::Replied(expected) => result matches Ok(reply) && reply_shows(reply, expected),
        MockOutcome::Failed(code, resource, message) => result matches Err(e) && e.code == code
            && e.message@ == message && e.operation_id is None && e.delivery is None
            && e.native_code is None && match resource {
            Some(id) => e.resource_id matches Some(r) && r@ == id,
            None => e.resource_id is None,
        },
    }
}

/// The handle a command needs of its owner: the table it lives in and its text.
pub enum OwnedHandle {
    Scan(Seq<char>),
    Connection(Seq<char>),
    Server(Seq<char>),
    Subscription(Seq<char>),
    NoHandle,
}

pub open spec fn owned_handle(command: Command) -> OwnedHandle {
    match command {
        Command::StopScan { scan_id } => OwnedHandle::Scan(scan_id@),
        Command::Disconnect { connection_id } => OwnedHandle::Connection(connection_id@),
        Command::DiscoverServices { connection_id } => OwnedHandle::Connection(connection_id@),
        Command::Read { connection_id, .. } => OwnedHandle::Connection(connection_id@),
        Command::Write { connection_id, .. } => OwnedHandle::Connection(connection_id@),
        Command::Subscribe { connection_id, .. } => OwnedHandle::Connection(connection_id@),
        Command::Unsubscribe { subscription_id } => OwnedHandle::Subscription(subscription_id@),
        Command::CloseServer { server_id } => OwnedHandle::Server(server_id@),
        Command::StartAdvertising { server_id, .. } => OwnedHandle::Server(server_id@),
        Command::StopAdvertising { server_id } => OwnedHandle::Server(server_id@),
        Command::SetValue { server_id, .. } => OwnedHandle::Server(server_id@),
        Command::Notify { server_id, .. } => OwnedHandle::Server(server_id@),
        _ => OwnedHandle::NoHandle,
    }
}

/// `owner` holds the handle that `command` names, if it names one.
pub open spec fn holds_handle(v: MockView, owner: Seq<char>, command: Command) -> bool {
    match owned_handle(command) {
        OwnedHandle::Scan(id) => lookup(v.scans, id) == Some(owner),
        OwnedHandle::Connection(id) => lookup(v.connections, id) == Some(owner),
        OwnedHandle::Server(id) => lookup(v.servers, id) == Some(owner),
        OwnedHandle::Subscription(id) => lookup_subscription(v.subscriptions, id) matches Some(
            entry,
        ) && entry.0 == owner,
        OwnedHandle::NoHandle => true,
    }
}

/// The commands that take a new handle from the counter.
pub open spec fn allocates(command: Command) -> bool {
    command is StartScan || command is Connect || command is Subscribe || command is CreateServer
}

/// The text of the handle that `command` names, if any.
pub open spec fn handle_of(command: Command) -> Option<Seq<char>> {
    match owned_handle(command) {
        OwnedHandle::Scan(id) => Some(id),
        OwnedHandle::Connection(id) => Some(id),
        OwnedHandle::Server(id) => Some(id),
        OwnedHandle::Subscription(id) => Some(id),
        OwnedHandle::NoHandle => None,
    }
}

/// The mock after `command`, sent by `owner` as operation `operation`, and its outcome.
pub open spec fn mock_step(v: MockView, operation: Seq<char>, owner: Seq<char>, command: Command) -> (
    MockView,
    MockOutcome,
) {
    if v.cancelled.contains(operation) {
        (v, MockOutcome::Failed(ErrorCode::Cancelled, None, cancelled_message()))
    } else if !holds_handle(v, owner, command) {
        (
            v,
            MockOutcome::Failed(ErrorCode::InvalidHandle, handle_of(command), invalid_handle_message()),
        )
    } else {
        mock_apply(v, owner, command)
    }
}

/// What a command does once its operation is live and its owner holds its handle.
pub open spec fn mock_apply(v: MockView, owner: Seq<char>, command: Command) -> (
    MockView,
    MockOutcome,
) {
    let n = v.next_resource + 1;
    {
        match command {
            Command::GetState => (v, MockOutcome::Replied(MockReply::State(AdapterState::PoweredOn))),
            Command::GetCapabilities => (v, MockOutcome::Replied(MockReply::Capabilities)),
            Command::CheckPermissions => (v, MockOutcome::Replied(MockReply::Permissions)),
            Command::RequestPermissions(_) => (v, MockOutcome::Replied(MockReply::Permissions)),
            Command::StartScan(_) => {
                let id = handle_text("scan"@, n);
                (
                    MockView { next_resource: n, scans: put(v.scans, id, owner), ..v },
                    MockOutcome::Replied(MockReply::ScanStarted(id)),
                )
            },
            Command::StopScan { scan_id } => (
                MockView { scans: without_key(v.scans, scan_id@), ..v },
                MockOutcome::Replied(MockReply::Empty),
            ),
            Command::Connect { .. } => {
                let id = handle_text("connection"@, n);
                (
                    MockView { next_resource: n, connections: put(v.connections, id, owner), ..v },
                    MockOutcome::Replied(MockReply::Connected(id)),
                )
            },
            Command::Disconnect { connection_id } => (
                MockView {
                    connections: without_key(v.connections, connection_id@),
                    subscriptions: subscriptions_without_connection(
                        v.subscriptions,
                        connection_id@,
                    ),
                    ..v
                },
                MockOutcome::Replied(MockReply::Empty),
            ),
            Command::DiscoverServices { .. } => (v, MockOutcome::Replied(MockReply::Services)),
            Command::Read { .. } => (v, MockOutcome::Replied(MockReply::Bytes)),
            Command::Write { value_base64, .. } => if standard_base64_decoded(
                value_base64@,
            ) is Some {
                (v, MockOutcome::Replied(MockReply::Empty))
            } else {
                (v, MockOutcome::Failed(ErrorCode::InvalidArgument, None, payload_message()))
            },
            Command::Subscribe { connection_id, .. } => {
                let id = handle_text("subscription"@, n);
                (
                    MockView {
                        next_resource: n,
                        subscriptions: subscriptions_without_key(v.subscriptions, id).push(
                            (id, owner, connection_id@),
                        ),
                        ..v
                    },
                    MockOutcome::Replied(MockReply::SubscriptionStarted(id)),
                )
            },
            Command::Unsubscribe { subscription_id } => (
                MockView {
                    subscriptions: subscriptions_without_key(v.subscriptions, subscription_id@),
                    ..v
                },
                MockOutcome::Replied(MockReply::Empty),
            ),
            Command::CreateServer(definition) => if definition_is_valid(definition.services@) {
                let id = handle_text("server"@, n);
                (
                    MockView { next_resource: n, servers: put(v.servers, id, owner), ..v },
                    MockOutcome::Replied(MockReply::ServerCreated(id)),
                )
            } else {
                (
                    v,
                    MockOutcome::Failed(
                        ErrorCode::InvalidArgument,
                        None,
                        definition_problem(definition.services@).unwrap(),
                    ),
                )
            },
            Command::CloseServer { server_id } => (
                MockView {
                    servers: without_key(v.servers, server_id@),
                    advertising: set_without(v.advertising, server_id@),
                    ..v
                },
                MockOutcome::Replied(MockReply::Empty),
            ),
            Command::StartAdvertising { server_id, options } => if uuid_is_valid(
                options.service_uuid@,
            ) {
                (
                    MockView { advertising: set_with(v.advertising, server_id@), ..v },
                    MockOutcome::Replied(
                        MockReply::AdvertisingStarted(options.local_name is Some),
                    ),
                )
            } else {
                (v, MockOutcome::Failed(ErrorCode::InvalidArgument, None, uuid_message()))
            },
            Command::StopAdvertising { server_id } => (
                MockView { advertising: set_without(v.advertising, server_id@), ..v },
                MockOutcome::Replied(MockReply::Empty),
            ),
            Command::SetValue { .. } => (v, MockOutcome::Replied(MockReply::Empty)),
            Command::Notify { .. } => (v, MockOutcome::Replied(MockReply::Empty)),
            Command::Cancel { operation_id } => (
                MockView { cancelled: set_with(v.cancelled, operation_id@), ..v },
                MockOutcome::Replied(MockReply::Empty),
            ),
            Command::CloseOwner => (
                MockView {
                    scans: without_owner(v.scans, owner),
                    connections: without_owner(v.connections, owner),
                    subscriptions: subscriptions_without_owner(v.subscriptions, owner),
                    servers: without_owner(v.servers, owner),
                    advertising: not_served_by(v.advertising, v.servers, owner),
                    ..v
                },
                MockOutcome::Replied(MockReply::Empty),
            ),
            Command::DebugResources => (
                v,
                MockOutcome::Replied(
                    MockReply::Resources(
                        ResourceSnapshot {
                            scans: v.scans.len() as usize,
                            connections: v.connections.len() as usize,
                            subscriptions: v.subscriptions.len() as usize,
                            servers: v.servers.len() as usize,
                        },
                    ),
                ),
            ),
        }
    }
}

/// A table of handles and owners, by text.
pub open spec fn entries_of(table: Seq<(String, String)>) -> Entries {
    table.map_values(|e: (String, String)| (e.0@, e.1@))
}

/// The subscription table, by text.
pub open spec fn subscriptions_of(table: Seq<(String, String, String)>) -> SubscriptionEntries {
    table.map_values(|e: (String, String, String)| (e.0@, e.1@, e.2@))
}

/// A set of handles, by text.
pub open spec fn texts_of(set: Seq<String>) -> Seq<Seq<char>> {
    set.map_values(|x: String| x@)
}

fn same_text(a: &String, b: &str) -> (same: bool)
    ensures
        same == (a@ == b@),
{
    crate::text::text_is(a.as_str(), b)
}

fn lookup_in(table: &Vec<(String, String)>, key: &str) -> (found: Option<String>)
    ensures
        match found {
            Some(value) => lookup(entries_of(table@), key@) == Some(value@),
            None => lookup(entries_of(table@), key@) is None,
        },
{
    let ghost all = entries_of(table@);
    let mut i = table.len();
    assert(all.subrange(0, i as int) =~= all);
    while i > 0
        invariant
            all == entries_of(table@),
            i <= table@.len(),
            lookup(all, key@) == lookup(all.subrange(0, i as int), key@),
        decreases i,
    {
        let ghost prefix = all.subrange(0, i as int);
        assert(prefix.drop_last() =~= all.subrange(0, i - 1));
        if same_text(&table[i - 1].0, key) {
            return Some(table[i - 1].1.clone());
        }
        i = i - 1;
    }
    None
}

fn lookup_subscription_in(table: &Vec<(String, String, String)>, key: &str) -> (found: Option<
    (String, String),
>)
    ensures
        match found {
            Some(value) => lookup_subscription(subscriptions_of(table@), key@) == Some(
                (value.0@, value.1@),
            ),
            None => lookup_subscription(subscriptions_of(table@), key@) is None,
        },
{
    let ghost all = subscriptions_of(table@);
    let mut i = table.len();
    assert(all.subrange(0, i as int) =~= all);
    while i > 0
        invariant
            all == subscriptions_of(table@),
            i <= table@.len(),
            lookup_subscription(all, key@) == lookup_subscription(all.subrange(0, i as int), key@),
        decreases i,
    {
        let ghost prefix = all.subrange(0, i as int);
        assert(prefix.drop_last() =~= all.subrange(0, i - 1));
        if same_text(&table[i - 1].0, key) {
            return Some((table[i - 1].1.clone(), table[i - 1].2.clone()));
        }
        i = i - 1;
    }
    None
}

fn has_entry_in(table: &Vec<(String, String)>, key: &str, value: &str) -> (found: bool)
    ensures
        found == has_entry(entries_of(table@), key@, value@),
{
    let ghost all = entries_of(table@);
    let mut i: usize = 0;
    assert(all.subrange(0, 0) =~= Seq::<(Seq<char>, Seq<char>)>::empty());
    while i < table.len()
        invariant
            all == entries_of(table@),
            i <= table@.len(),
            !has_entry(all.subrange(0, i as int), key@, value@),
        decreases table@.len() - i,
    {
        let ghost prefix = all.subrange(0, i + 1);
        assert(prefix.drop_last() =~= all.subrange(0, i as int));
        if same_text(&table[i].0, key) && same_text(&table[i].1, value) {
            proof {
                lemma_has_entry_prefix(all, i + 1, key@, value@);
            }
            return true;
        }
        i = i + 1;
    }
    assert(all.subrange(0, i as int) =~= all);
    false
}

proof fn lemma_has_entry_prefix(table: Entries, k: int, key: Seq<char>, value: Seq<char>)
    requires
        0 <= k <= table.len(),
        has_entry(table.subrange(0, k), key, value),
    ensures
        has_entry(table, key, value),
    decreases table.len() - k,
{
    if k < table.len() {
        assert(table.drop_last().subrange(0, k) =~= table.subrange(0, k));
        lemma_has_entry_prefix(table.drop_last(), k, key, value);
    } else {
        assert(table.subrange(0, k) =~= table);
    }
}

/// The entries whose key differs from `key` (`by_owner` false) or whose owner differs
/// from `key` (`by_owner` true).
fn filtered(table: &Vec<(String, String)>, key: &str, by_owner: bool) -> (kept: Vec<(String, String)>)
    ensures
        entries_of(kept@) == if by_owner {
            without_owner(entries_of(table@), key@)
        } else {
            without_key(entries_of(table@), key@)
        },
{
    let ghost all = entries_of(table@);
    let mut kept: Vec<(String, String)> = Vec::new();
    let mut i: usize = 0;
    assert(all.subrange(0, 0) =~= Seq::<(Seq<char>, Seq<char>)>::empty());
    while i < table.len()
        invariant
            all == entries_of(table@),
            i <= table@.len(),
            entries_of(kept@) == if by_owner {
                without_owner(all.subrange(0, i as int), key@)
            } else {
                without_key(all.subrange(0, i as int), key@)
            },
        decreases table@.len() - i,
    {
        let ghost prefix = all.subrange(0, i + 1);
        assert(prefix.drop_last() =~= all.subrange(0, i as int));
        assert(prefix.last() == all[i as int]);
        assert(without_key(prefix, key@) == if prefix.last().0 != key@ {
            without_key(prefix.drop_last(), key@).push(prefix.last())
        } else {
            without_key(prefix.drop_last(), key@)
        });
        assert(without_owner(prefix, key@) == if prefix.last().1 != key@ {
            without_owner(prefix.drop_last(), key@).push(prefix.last())
        } else {
            without_owner(prefix.drop_last(), key@)
        });
        let field = if by_owner {
            &table[i].1
        } else {
            &table[i].0
        };
        if !same_text(field, key) {
            let ghost before = kept@;
            kept.push((table[i].0.clone(), table[i].1.clone()));
            assert(entries_of(kept@) =~= entries_of(before).push(all[i as int]));
        }
        i = i + 1;
    }
    assert(all.subrange(0, i as int) =~= all);
    kept
}

/// The subscriptions whose field `field` (0: handle, 1: owner, 2: connection) differs
/// from `key`.
fn subscriptions_filtered(table: &Vec<(String, String, String)>, key: &str, field: u8) -> (kept:
    Vec<(String, String, String)>)
    requires
        field < 3,
    ensures
        subscriptions_of(kept@) == if field == 0 {
            subscriptions_without_key(subscriptions_of(table@), key@)
        } else if field == 1 {
            subscriptions_without_owner(subscriptions_of(table@), key@)
        } else {
            subscriptions_without_connection(subscriptions_of(table@), key@)
        },
{
    let ghost all = subscriptions_of(table@);
    let mut kept: Vec<(String, String, String)> = Vec::new();
    let mut i: usize = 0;
    assert(all.subrange(0, 0) =~= Seq::<(Seq<char>, Seq<char>, Seq<char>)>::empty());
    while i < table.len()
        invariant
            all == subscriptions_of(table@),
            field < 3,
            i <= table@.len(),
            subscriptions_of(kept@) == if field == 0 {
                subscriptions_without_key(all.subrange(0, i as int), key@)
            } else if field == 1 {
                subscriptions_without_owner(all.subrange(0, i as int), key@)
            } else {
                subscriptions_without_connection(all.subrange(0, i as int), key@)
            },
        decreases table@.len() - i,
    {
        let ghost prefix = all.subrange(0, i + 1);
        assert(prefix.drop_last() =~= all.subrange(0, i as int));
        assert(prefix.last() == all[i as int]);
        assert(subscriptions_without_key(prefix, key@) == if prefix.last().0 != key@ {
            subscriptions_without_key(prefix.drop_last(), key@).push(prefix.last())
        } else {
            subscriptions_without_key(prefix.drop_last(), key@)
        });
        assert(subscriptions_without_owner(prefix, key@) == if prefix.last().1 != key@ {
            subscriptions_without_owner(prefix.drop_last(), key@).push(prefix.last())
        } else {
            subscriptions_without_owner(prefix.drop_last(), key@)
        });
        assert(subscriptions_without_connection(prefix, key@) == if prefix.last().2 != key@ {
            subscriptions_without_connection(prefix.drop_last(), key@).push(prefix.last())
        } else {
            subscriptions_without_connection(prefix.drop_last(), key@)
        });
        let text = if field == 0 {
            &table[i].0
        } else if field == 1 {
            &table[i].1
        } else {
            &table[i].2
        };
        if !same_text(text, key) {
            let ghost before = kept@;
            kept.push((table[i].0.clone(), table[i].1.clone(), table[i].2.clone()));
            assert(subscriptions_of(kept@) =~= subscriptions_of(before).push(all[i as int]));
        }
        i = i + 1;
    }
    assert(all.subrange(0, i as int) =~= all);
    kept
}

fn set_contains(set: &Vec<String>, key: &str) -> (found: bool)
    ensures
        found == texts_of(set@).contains(key@),
{
    let mut i: usize = 0;
    while i < set.len()
        invariant
            i <= set@.len(),
            forall|j: int| 0 <= j < i ==> texts_of(set@)[j] != key@,
        decreases set@.len() - i,
    {
        if same_text(&set[i], key) {
            assert(texts_of(set@)[i as int] == key@);
            return true;
        }
        i = i + 1;
    }
    false
}

fn set_filtered(set: &Vec<String>, key: &str) -> (kept: Vec<String>)
    ensures
        texts_of(kept@) == set_without(texts_of(set@), key@),
{
    let ghost all = texts_of(set@);
    let mut kept: Vec<String> = Vec::new();
    let mut i: usize = 0;
    assert(all.subrange(0, 0) =~= Seq::<Seq<char>>::empty());
    while i < set.len()
        invariant
            all == texts_of(set@),
            i <= set@.len(),
            texts_of(kept@) == set_without(all.subrange(0, i as int), key@),
        decreases set@.len() - i,
    {
        let ghost prefix = all.subrange(0, i + 1);
        assert(prefix.drop_last() =~= all.subrange(0, i as int));
        assert(prefix.last() == all[i as int]);
        if !same_text(&set[i], key) {
            let ghost before = kept@;
            kept.push(set[i].clone());
            assert(texts_of(kept@) =~= texts_of(before).push(all[i as int]));
        }
        i = i + 1;
    }
    assert(all.subrange(0, i as int) =~= all);
    kept
}

/// The advertising servers that are not servers of `owner`.
fn advertising_kept(
    advertising: &Vec<String>,
    servers: &Vec<(String, String)>,
    owner: &str,
) -> (kept: Vec<String>)
    ensures
        texts_of(kept@) == not_served_by(texts_of(advertising@), entries_of(servers@), owner@),
{
    let ghost all = texts_of(advertising@);
    let ghost table = entries_of(servers@);
    let mut kept: Vec<String> = Vec::new();
    let mut i: usize = 0;
    assert(all.subrange(0, 0) =~= Seq::<Seq<char>>::empty());
    while i < advertising.len()
        invariant
            all == texts_of(advertising@),
            table == entries_of(servers@),
            i <= advertising@.len(),
            texts_of(kept@) == not_served_by(all.subrange(0, i as int), table, owner@),
        decreases advertising@.len() - i,
    {
        let ghost prefix = all.subrange(0, i + 1);
        assert(prefix.drop_last() =~= all.subrange(0, i as int));
        assert(prefix.last() == all[i as int]);
        if !has_entry_in(servers, advertising[i].as_str(), owner) {
            let ghost before = kept@;
            kept.push(advertising[i].clone());
            assert(texts_of(kept@) =~= texts_of(before).push(all[i as int]));
        }
        i = i + 1;
    }
    assert(all.subrange(0, i as int) =~= all);
    kept
}

/// The handle tables of the mock, keyed by handle text.
pub struct MockState {
    next_resource: u64,
    scans: Vec<(String, String)>,
    connections: Vec<(String, String)>,
    subscriptions: Vec<(String, String, String)>,
    servers: Vec<(String, String)>,
    advertising: Vec<String>,
    cancelled: Vec<String>,
}

impl View for MockState {
    type V = MockView;

    closed spec fn view(&self) -> MockView {
        MockView {
            next_resource: self.next_resource as nat,
            scans: entries_of(self.scans@),
            connections: entries_of(self.connections@),
            subscriptions: subscriptions_of(self.subscriptions@),
            servers: entries_of(self.servers@),
            advertising: texts_of(self.advertising@),
            cancelled: texts_of(self.cancelled@),
        }
    }
}

/// The mock before any command.
pub open spec fn empty_mock() -> MockView {
    MockView {
        next_resource: 0,
        scans: Seq::empty(),
        connections: Seq::empty(),
        subscriptions: Seq::empty(),
        servers: Seq::empty(),
        advertising: Seq::empty(),
        cancelled: Seq::empty(),
    }
}

fn put_in(table: &mut Vec<(String, String)>, key: String, value: String)
    ensures
        entries_of(final(table)@) == put(entries_of(old(table)@), key@, value@),
{
    let mut kept = filtered(table, key.as_str(), false);
    let ghost before = kept@;
    kept.push((key, value));
    assert(entries_of(kept@) =~= entries_of(before).push((key@, value@)));
    *table = kept;
}

impl MockState {
    fn new() -> (state: Self)
        ensures
            state@ == empty_mock(),
    {
        let state = MockState {
            next_resource: 0,
            scans: Vec::new(),
            connections: Vec::new(),
            subscriptions: Vec::new(),
            servers: Vec::new(),
            advertising: Vec::new(),
            cancelled: Vec::new(),
        };
        assert(state@.scans =~= Seq::<(Seq<char>, Seq<char>)>::empty());
        assert(state@.connections =~= Seq::<(Seq<char>, Seq<char>)>::empty());
        assert(state@.subscriptions =~= Seq::<(Seq<char>, Seq<char>, Seq<char>)>::empty());
        assert(state@.servers =~= Seq::<(Seq<char>, Seq<char>)>::empty());
        assert(state@.advertising =~= Seq::<Seq<char>>::empty());
        assert(state@.cancelled =~= Seq::<Seq<char>>::empty());
        state
    }

    /// Takes the next handle number and names a handle `prefix-n` with it.
    fn allocate(&mut self, prefix: &str) -> (handle: String)
        requires
            old(self).next_resource < u64::MAX,
        ensures
            final(self)@ == (MockView { next_resource: old(self)@.next_resource + 1, ..old(self)@ }),
            handle@ == handle_text(prefix@, old(self)@.next_resource + 1),
    {
        self.next_resource = self.next_resource + 1;
        let mut handle = prefix.to_owned();
        push_char(&mut handle, '-');
        push_decimal(&mut handle, self.next_resource);
        handle
    }

    /// Whether `owner` holds the handle that `command` names, if it names one.
    fn check_handle(&self, owner: &str, command: &Command) -> (held: bool)
        ensures
            held == holds_handle(self@, owner@, *command),
    {
        let table = match command {
            Command::StopScan { scan_id } => Some((&self.scans, scan_id.0.as_str())),
            Command::Disconnect { connection_id } => Some(
                (&self.connections, connection_id.0.as_str()),
            ),
            Command::DiscoverServices { connection_id } => Some(
                (&self.connections, connection_id.0.as_str()),
            ),
            Command::Read { connection_id, .. } => Some(
                (&self.connections, connection_id.0.as_str()),
            ),
            Command::Write { connection_id, .. } => Some(
                (&self.connections, connection_id.0.as_str()),
            ),
            Command::Subscribe { connection_id, .. } => Some(
                (&self.connections, connection_id.0.as_str()),
            ),
            Command::CloseServer { server_id } => Some((&self.servers, server_id.0.as_str())),
            Command::StartAdvertising { server_id, .. } => Some(
                (&self.servers, server_id.0.as_str()),
            ),
            Command::StopAdvertising { server_id } => Some((&self.servers, server_id.0.as_str())),
            Command::SetValue { server_id, .. } => Some((&self.servers, server_id.0.as_str())),
            Command::Notify { server_id, .. } => Some((&self.servers, server_id.0.as_str())),
            _ => None,
        };
        match table {
            Some((table, id)) => match lookup_in(table, id) {
                Some(holder) => same_text(&holder, owner),
                None => false,
            },
            None => match command {
                Command::Unsubscribe { subscription_id } => match lookup_subscription_in(
                    &self.subscriptions,
                    subscription_id.0.as_str(),
                ) {
                    Some((holder, _)) => same_text(&holder, owner),
                    None => false,
                },
                _ => true,
            },
        }
    }
}

/// The capabilities the mock reports: every role supported, foreground only.
fn mock_capabilities() -> (capabilities: Capabilities)
    ensures
        reply_shows(Reply::Capabilities(capabilities), MockReply::Capabilities),
{
    let capabilities = Capabilities {
        central: Support::supported(),
        peripheral: Support::supported(),
        advertising: Support::supported(),
        targeted_notify: Support::supported(),
        simultaneous_roles: Support::supported(),
        background: Support::unsupported("mockForegroundOnly"),
        max_connections: Some(8),
        max_advertising_data_length: Some(31),
    };
    capabilities
}

/// Deterministic backend for unit tests and example development.
pub struct MockBackend {
    state: MockState,
}

impl View for MockBackend {
    type V = MockView;

    closed spec fn view(&self) -> MockView {
        self.state@
    }
}

impl Default for MockBackend {
    fn default() -> (backend: Self)
        ensures
            backend@ == empty_mock(),
    {
        MockBackend { state: MockState::new() }
    }
}

impl MockBackend {
    /// Whether the handle counter can give one more handle.
    pub fn can_allocate(&self) -> (ok: bool)
        ensures
            ok == (self@.next_resource < u64::MAX),
    {
        self.state.next_resource < u64::MAX
    }

    /// Whether `command` takes a new handle.
    pub fn allocates(command: &Command) -> (takes: bool)
        ensures
            takes == allocates(*command),
    {
        match command {
            Command::StartScan(_) | Command::Connect { .. } | Command::Subscribe { .. } | Command::CreateServer(
                _,
            ) => true,
            _ => false,
        }
    }

    /// Runs one command for the owner and operation of `context`.
    pub fn execute(&mut self, context: OperationContext, command: Command) -> (reply: BleResult<
        Reply,
    >)
        requires
            allocates(command) ==> old(self)@.next_resource < u64::MAX,
        ensures
            ({
                let (next, outcome) = mock_step(
                    old(self)@,
                    context.operation_id@,
                    context.owner_id@,
                    command,
                );
                final(self)@ == next && result_shows(reply, outcome)
            }),
    {
        if set_contains(&self.state.cancelled, context.operation_id.0.as_str()) {
            return Err(BleError::new(ErrorCode::Cancelled, "operation was cancelled"));
        }
        let owner = context.owner_id.0;
        if !self.state.check_handle(owner.as_str(), &command) {
            let resource = match &command {
                Command::StopScan { scan_id } => scan_id.0.clone(),
                Command::Disconnect { connection_id } => connection_id.0.clone(),
                Command::DiscoverServices { connection_id } => connection_id.0.clone(),
                Command::Read { connection_id, .. } => connection_id.0.clone(),
                Command::Write { connection_id, .. } => connection_id.0.clone(),
                Command::Subscribe { connection_id, .. } => connection_id.0.clone(),
                Command::Unsubscribe { subscription_id } => subscription_id.0.clone(),
                Command::CloseServer { server_id } => server_id.0.clone(),
                Command::StartAdvertising { server_id, .. } => server_id.0.clone(),
                Command::StopAdvertising { server_id } => server_id.0.clone(),
                Command::SetValue { server_id, .. } => server_id.0.clone(),
                Command::Notify { server_id, .. } => server_id.0.clone(),
                _ => String::new(),
            };
            return Err(BleError::invalid_handle(ResourceId(resource)));
        }
        self.apply(owner, command)
    }

    /// Runs a command whose operation is live and whose handle, if any, the owner holds.
    #[verifier::rlimit(50)]
    fn apply(&mut self, owner: String, command: Command) -> (reply: BleResult<Reply>)
        requires
            holds_handle(old(self)@, owner@, command),
            allocates(command) ==> old(self)@.next_resource < u64::MAX,
        ensures
            ({
                let (next, outcome) = mock_apply(old(self)@, owner@, command);
                final(self)@ == next && result_shows(reply, outcome)
            }),
    {
        let state = &mut self.state;
        match command {
            Command::GetState => Ok(Reply::State(AdapterState::PoweredOn)),
            Command::GetCapabilities => Ok(Reply::Capabilities(mock_capabilities())),
            Command::CheckPermissions => Ok(
                Reply::Permissions(
                    PermissionState {
                        scan: PermissionOutcome::Granted,
                        connect: PermissionOutcome::Granted,
                        advertise: PermissionOutcome::Granted,
                    },
                ),
            ),
            Command::RequestPermissions(_) => Ok(
                Reply::Permissions(
                    PermissionState {
                        scan: PermissionOutcome::Granted,
                        connect: PermissionOutcome::Granted,
                        advertise: PermissionOutcome::Granted,
                    },
                ),
            ),
            Command::StartScan(_) => {
                let id = state.allocate("scan");
                put_in(&mut state.scans, id.clone(), owner);
                Ok(Reply::ScanStarted { scan_id: ScanId(id) })
            },
            Command::StopScan { scan_id } => {
                state.scans = filtered(&state.scans, scan_id.0.as_str(), false);
                Ok(Reply::Empty)
            },
            Command::Connect { .. } => {
                let id = state.allocate("connection");
                put_in(&mut state.connections, id.clone(), owner);
                Ok(
                    Reply::Connected {
                        connection_id: ConnectionId(id),
                        limits: LinkLimits {
                            write_with_response: Some(20),
                            write_without_response: Some(20),
                            notification: Some(20),
                            att_mtu: None,
                        },
                    },
                )
            },
            Command::Disconnect { connection_id } => {
                state.connections = filtered(&state.connections, connection_id.0.as_str(), false);
                state.subscriptions = subscriptions_filtered(
                    &state.subscriptions,
                    connection_id.0.as_str(),
                    2,
                );
                Ok(Reply::Empty)
            },
            Command::DiscoverServices { .. } => Ok(Reply::Services(Vec::new())),
            Command::Read { .. } => Ok(Reply::Bytes { value_base64: String::new() }),
            Command::Write { value_base64, .. } => match decode_base64(value_base64.as_str()) {
                Some(_) => Ok(Reply::Empty),
                None => Err(BleError::new(ErrorCode::InvalidArgument, "invalid base64 payload")),
            },
            Command::Subscribe { connection_id, .. } => {
                let id = state.allocate("subscription");
                let mut kept = subscriptions_filtered(&state.subscriptions, id.as_str(), 0);
                let ghost before = kept@;
                let entry = (id.clone(), owner, connection_id.0);
                let ghost entry_view = (entry.0@, entry.1@, entry.2@);
                kept.push(entry);
                assert(subscriptions_of(kept@) =~= subscriptions_of(before).push(entry_view));
                state.subscriptions = kept;
                Ok(Reply::SubscriptionStarted { subscription_id: SubscriptionId(id) })
            },
            Command::Unsubscribe { subscription_id } => {
                state.subscriptions = subscriptions_filtered(
                    &state.subscriptions,
                    subscription_id.0.as_str(),
                    0,
                );
                Ok(Reply::Empty)
            },
            Command::CreateServer(definition) => {
                if let Err(error) = validate_server_definition(&definition) {
                    return Err(error);
                }
                let id = state.allocate("server");
                put_in(&mut state.servers, id.clone(), owner);
                Ok(Reply::ServerCreated { server_id: ServerId(id) })
            },
            Command::CloseServer { server_id } => {
                state.advertising = set_filtered(&state.advertising, server_id.0.as_str());
                state.servers = filtered(&state.servers, server_id.0.as_str(), false);
                Ok(Reply::Empty)
            },
            Command::StartAdvertising { server_id, options } => {
                if let Err(error) = validate_uuid(options.service_uuid.as_str()) {
                    return Err(error);
                }
                let mut kept = set_filtered(&state.advertising, server_id.0.as_str());
                let ghost before = kept@;
                let id = server_id.0;
                let ghost id_view = id@;
                kept.push(id);
                assert(texts_of(kept@) =~= texts_of(before).push(id_view));
                state.advertising = kept;
                Ok(
                    Reply::AdvertisingStarted(
                        AdvertisingReport {
                            local_name_included: options.local_name.is_some(),
                            local_name_truncated: false,
                        },
                    ),
                )
            },
            Command::StopAdvertising { server_id } => {
                state.advertising = set_filtered(&state.advertising, server_id.0.as_str());
                Ok(Reply::Empty)
            },
            Command::SetValue { .. } => Ok(Reply::Empty),
            Command::Notify { .. } => Ok(Reply::Empty),
            Command::Cancel { operation_id } => {
                let mut kept = set_filtered(&state.cancelled, operation_id.0.as_str());
                let ghost before = kept@;
                let id = operation_id.0;
                let ghost id_view = id@;
                kept.push(id);
                assert(texts_of(kept@) =~= texts_of(before).push(id_view));
                state.cancelled = kept;
                Ok(Reply::Empty)
            },
            Command::CloseOwner => {
                let o = owner.as_str();
                state.scans = filtered(&state.scans, o, true);
                state.connections = filtered(&state.connections, o, true);
                state.subscriptions = subscriptions_filtered(&state.subscriptions, o, 1);
                state.advertising = advertising_kept(&state.advertising, &state.servers, o);
                state.servers = filtered(&state.servers, o, true);
                Ok(Reply::Empty)
            },
            Command::DebugResources => Ok(
                Reply::Resources(
                    ResourceSnapshot {
                        scans: state.scans.len(),
                        connections: state.connections.len(),
                        subscriptions: state.subscriptions.len(),
                        servers: state.servers.len(),
                    },
                ),
            ),
        }
    }
}

proof fn lemma_without_owner(table: Entries, owner: Seq<char>)
    ensures
        forall|i: int|
            0 <= i < without_owner(table, owner).len() ==> (#[trigger] without_owner(
                table,
                owner,
            )[i]).1 != owner && table.contains(without_owner(table, owner)[i]),
        forall|i: int|
            0 <= i < table.len() && (#[trigger] table[i]).1 != owner ==> without_owner(
                table,
                owner,
            ).contains(table[i]),
    decreases table.len(),
{
    if table.len() > 0 {
        let rest = table.drop_last();
        lemma_without_owner(rest, owner);
        let result = without_owner(table, owner);
        assert forall|i: int| 0 <= i < result.len() implies (#[trigger] result[i]).1 != owner
            && table.contains(result[i]) by {
            if i < without_owner(rest, owner).len() {
                assert(result[i] == without_owner(rest, owner)[i]);
                let j = choose|j: int| 0 <= j < rest.len() && rest[j] == result[i];
                assert(table[j] == rest[j]);
            } else {
                assert(result[i] == table.last());
                assert(table[table.len() - 1] == table.last());
            }
        }
        assert forall|i: int| 0 <= i < table.len() && (#[trigger] table[i]).1 != owner implies result.contains(
            table[i],
        ) by {
            if i < table.len() - 1 {
                assert(rest[i] == table[i]);
                let j = choose|j: int|
                    0 <= j < without_owner(rest, owner).len() && without_owner(rest, owner)[j]
                        == rest[i];
                assert(result[j] == without_owner(rest, owner)[j]);
            } else {
                assert(result[result.len() - 1] == table[i]);
            }
        }
    }
}

proof fn lemma_subscriptions_without_owner(table: SubscriptionEntries, owner: Seq<char>)
    ensures
        forall|i: int|
            0 <= i < subscriptions_without_owner(table, owner).len() ==> (
            #[trigger] subscriptions_without_owner(table, owner)[i]).1 != owner
                && table.contains(subscriptions_without_owner(table, owner)[i]),
        forall|i: int|
            0 <= i < table.len() && (#[trigger] table[i]).1 != owner
                ==> subscriptions_without_owner(table, owner).contains(table[i]),
    decreases table.len(),
{
    if table.len() > 0 {
        let rest = table.drop_last();
        lemma_subscriptions_without_owner(rest, owner);
        let result = subscriptions_without_owner(table, owner);
        let sub = subscriptions_without_owner(rest, owner);
        assert forall|i: int| 0 <= i < result.len() implies (#[trigger] result[i]).1 != owner
            && table.contains(result[i]) by {
            if i < sub.len() {
                assert(result[i] == sub[i]);
                let j = choose|j: int| 0 <= j < rest.len() && rest[j] == result[i];
                assert(table[j] == rest[j]);
            } else {
                assert(result[i] == table.last());
                assert(table[table.len() - 1] == table.last());
            }
        }
        assert forall|i: int| 0 <= i < table.len() && (#[trigger] table[i]).1 != owner implies result.contains(
            table[i],
        ) by {
            if i < table.len() - 1 {
                assert(rest[i] == table[i]);
                let j = choose|j: int| 0 <= j < sub.len() && sub[j] == rest[i];
                assert(result[j] == sub[j]);
            } else {
                assert(result[result.len() - 1] == table[i]);
            }
        }
    }
}

/// Closing an owner releases every scan, connection, subscription and server it holds,
/// and keeps every entry of every other owner.
pub proof fn law_close_owner_releases_its_resources(v: MockView, operation: Seq<char>, owner: Seq<char>)
    requires
        !v.cancelled.contains(operation),
    ensures
        ({
            let next = mock_step(v, operation, owner, Command::CloseOwner).0;
            &&& forall|i: int| 0 <= i < next.scans.len() ==> (#[trigger] next.scans[i]).1 != owner
            &&& forall|i: int|
                0 <= i < next.connections.len() ==> (#[trigger] next.connections[i]).1 != owner
            &&& forall|i: int|
                0 <= i < next.subscriptions.len() ==> (#[trigger] next.subscriptions[i]).1
                    != owner
            &&& forall|i: int|
                0 <= i < next.servers.len() ==> (#[trigger] next.servers[i]).1 != owner
            &&& forall|i: int|
                0 <= i < v.scans.len() && (#[trigger] v.scans[i]).1 != owner
                    ==> next.scans.contains(v.scans[i])
            &&& forall|i: int|
                0 <= i < v.connections.len() && (#[trigger] v.connections[i]).1 != owner
                    ==> next.connections.contains(v.connections[i])
            &&& forall|i: int|
                0 <= i < v.subscriptions.len() && (#[trigger] v.subscriptions[i]).1 != owner
                    ==> next.subscriptions.contains(v.subscriptions[i])
            &&& forall|i: int|
                0 <= i < v.servers.len() && (#[trigger] v.servers[i]).1 != owner
                    ==> next.servers.contains(v.servers[i])
        }),
{
    lemma_without_owner(v.scans, owner);
    lemma_without_owner(v.connections, owner);
    lemma_without_owner(v.servers, owner);
    lemma_subscriptions_without_owner(v.subscriptions, owner);
}

/// A scan handle started by one owner is refused to every other owner, who gets an
/// invalid-handle error that names it, with the mock unchanged.
pub proof fn law_scan_handles_belong_to_their_owner(
    v: MockView,
    first: Seq<char>,
    second: Seq<char>,
    owner: Seq<char>,
    other: Seq<char>,
    options: ScanOptions,
    scan_id: ScanId,
)
    requires
        owner != other,
        !v.cancelled.contains(first),
        !v.cancelled.contains(second),
        scan_id@ == handle_text("scan"@, v.next_resource + 1),
    ensures
        ({
            let (started, outcome) = mock_step(v, first, owner, Command::StartScan(options));
            &&& outcome == MockOutcome::Replied(MockReply::ScanStarted(scan_id@))
            &&& mock_step(started, second, other, Command::StopScan { scan_id }) == (
                started,
                MockOutcome::Failed(
                    ErrorCode::InvalidHandle,
                    Some(scan_id@),
                    invalid_handle_message(),
                ),
            )
            &&& lookup(started.scans, scan_id@) == Some(owner)
        }),
{
}

/// A connection opened by one owner is refused to every other owner: any command
/// that names it gets an invalid-handle error that names it, with the mock unchanged.
pub proof fn law_connection_handles_belong_to_their_owner(
    v: MockView,
    first: Seq<char>,
    second: Seq<char>,
    owner: Seq<char>,
    other: Seq<char>,
    device_id: DeviceId,
    options: ConnectOptions,
    later: Command,
)
    requires
        owner != other,
        !v.cancelled.contains(first),
        !v.cancelled.contains(second),
        owned_handle(later) == OwnedHandle::Connection(handle_text("connection"@, v.next_resource + 1)),
    ensures
        ({
            let id = handle_text("connection"@, v.next_resource + 1);
            let (connected, outcome) = mock_step(v, first, owner, Command::Connect { device_id, options });
            &&& outcome == MockOutcome::Replied(MockReply::Connected(id))
            &&& lookup(connected.connections, id) == Some(owner)
            &&& mock_step(connected, second, other, later) == (
                connected,
                MockOutcome::Failed(ErrorCode::InvalidHandle, Some(id), invalid_handle_message()),
            )
        }),
{
}

/// A server created by one owner is refused to every other owner: any command that
/// names it gets an invalid-handle error that names it, with the mock unchanged.
pub proof fn law_server_handles_belong_to_their_owner(
    v: MockView,
    first: Seq<char>,
    second: Seq<char>,
    owner: Seq<char>,
    other: Seq<char>,
    definition: ServerDefinition,
    later: Command,
)
    requires
        owner != other,
        !v.cancelled.contains(first),
        !v.cancelled.contains(second),
        definition_is_valid(definition.services@),
        owned_handle(later) == OwnedHandle::Server(handle_text("server"@, v.next_resource + 1)),
    ensures
        ({
            let id = handle_text("server"@, v.next_resource + 1);
            let (created, outcome) = mock_step(v, first, owner, Command::CreateServer(definition));
            &&& outcome == MockOutcome::Replied(MockReply::ServerCreated(id))
            &&& lookup(created.servers, id) == Some(owner)
            &&& mock_step(created, second, other, later) == (
                created,
                MockOutcome::Failed(ErrorCode::InvalidHandle, Some(id), invalid_handle_message()),
            )
        }),
{
}

/// A subscription taken by one owner, on a connection it holds, is refused to every
/// other owner: unsubscribing it gets an invalid-handle error that names it, with the
/// mock unchanged.
pub proof fn law_subscription_handles_belong_to_their_owner(
    v: MockView,
    first: Seq<char>,
    second: Seq<char>,
    owner: Seq<char>,
    other: Seq<char>,
    connection_id: ConnectionId,
    characteristic: CharacteristicHandle,
    subscription_id: SubscriptionId,
)
    requires
        owner != other,
        !v.cancelled.contains(first),
        !v.cancelled.contains(second),
        lookup(v.connections, connection_id@) == Some(owner),
        subscription_id@ == handle_text("subscription"@, v.next_resource + 1),
    ensures
        ({
            let id = subscription_id@;
            let (subscribed, outcome) = mock_step(
                v,
                first,
                owner,
                Command::Subscribe { connection_id, characteristic },
            );
            &&& outcome == MockOutcome::Replied(MockReply::SubscriptionStarted(id))
            &&& lookup_subscription(subscribed.subscriptions, id) == Some((owner, connection_id@))
            &&& mock_step(subscribed, second, other, Command::Unsubscribe { subscription_id }) == (
                subscribed,
                MockOutcome::Failed(ErrorCode::InvalidHandle, Some(id), invalid_handle_message()),
            )
        }),
{
}

/// A handle is its owner's alone: in any state of the mock, a command that names a
/// scan, connection, subscription or server that one owner holds is refused to every
/// other owner with an invalid-handle error that names it, and the mock is unchanged.
pub proof fn law_foreign_handles_are_refused(
    v: MockView,
    operation: Seq<char>,
    owner: Seq<char>,
    other: Seq<char>,
    command: Command,
)
    requires
        owner != other,
        !v.cancelled.contains(operation),
        handle_of(command) is Some,
        holds_handle(v, owner, command),
    ensures
        mock_step(v, operation, other, command) == (
            v,
            MockOutcome::Failed(ErrorCode::InvalidHandle, handle_of(command), invalid_handle_message()),
        ),
{
}

/// After an owner is closed it holds no handle: every later command of that owner
/// that names a scan, connection, subscription or server is refused with an
/// invalid-handle error that names it, and the mock is unchanged.
pub proof fn law_a_closed_owner_holds_no_handle(
    v: MockView,
    operation: Seq<char>,
    later: Seq<char>,
    owner: Seq<char>,
    command: Command,
)
    requires
        !v.cancelled.contains(operation),
        !v.cancelled.contains(later),
        handle_of(command) is Some,
    ensures
        ({
            let closed = mock_step(v, operation, owner, Command::CloseOwner).0;
            mock_step(closed, later, owner, command) == (
                closed,
                MockOutcome::Failed(
                    ErrorCode::InvalidHandle,
                    handle_of(command),
                    invalid_handle_message(),
                ),
            )
        }),
{
    let closed = mock_step(v, operation, owner, Command::CloseOwner).0;
    lemma_without_owner(v.scans, owner);
    lemma_without_owner(v.connections, owner);
    lemma_without_owner(v.servers, owner);
    lemma_subscriptions_without_owner(v.subscriptions, owner);
    match owned_handle(command) {
        OwnedHandle::Scan(id) => lemma_lookup_of_others(closed.scans, owner, id),
        OwnedHandle::Connection(id) => lemma_lookup_of_others(closed.connections, owner, id),
        OwnedHandle::Server(id) => lemma_lookup_of_others(closed.servers, owner, id),
        OwnedHandle::Subscription(id) => lemma_lookup_subscription_of_others(
            closed.subscriptions,
            owner,
            id,
        ),
        OwnedHandle::NoHandle => {},
    }
    assert(!holds_handle(closed, owner, command));
}

proof fn lemma_lookup_of_others(table: Entries, owner: Seq<char>, key: Seq<char>)
    requires
        forall|i: int| 0 <= i < table.len() ==> (#[trigger] table[i]).1 != owner,
    ensures
        lookup(table, key) != Some(owner),
    decreases table.len(),
{
    if table.len() > 0 {
        let rest = table.drop_last();
        assert forall|i: int| 0 <= i < rest.len() implies (#[trigger] rest[i]).1 != owner by {
            assert(rest[i] == table[i]);
        }
        assert(table.last() == table[table.len() - 1]);
        lemma_lookup_of_others(rest, owner, key);
    }
}

proof fn lemma_lookup_subscription_of_others(table: SubscriptionEntries, owner: Seq<char>, key: Seq<char>)
    requires
        forall|i: int| 0 <= i < table.len() ==> (#[trigger] table[i]).1 != owner,
    ensures
        !(lookup_subscription(table, key) matches Some(entry) && entry.0 == owner),
    decreases table.len(),
{
    if table.len() > 0 {
        let rest = table.drop_last();
        assert forall|i: int| 0 <= i < rest.len() implies (#[trigger] rest[i]).1 != owner by {
            assert(rest[i] == table[i]);
        }
        assert(table.last() == table[table.len() - 1]);
        lemma_lookup_subscription_of_others(rest, owner, key);
    }
}

/// Once an operation is cancelled, every later command sent as that operation fails
/// with `Cancelled` and leaves the mock unchanged.
pub proof fn law_cancelled_operations_fail(
    v: MockView,
    operation: Seq<char>,
    owner: Seq<char>,
    cancelled: OperationId,
    later_owner: Seq<char>,
    later: Command,
)
    requires
        !v.cancelled.contains(operation),
    ensures
        ({
            let after = mock_step(v, operation, owner, Command::Cancel { operation_id: cancelled }).0;
            mock_step(after, cancelled@, later_owner, later) == (
                after,
                MockOutcome::Failed(ErrorCode::Cancelled, None, cancelled_message()),
            )
        }),
{
    let after = mock_step(v, operation, owner, Command::Cancel { operation_id: cancelled }).0;
    assert(after.cancelled.last() == cancelled@);
    assert(after.cancelled[after.cancelled.len() - 1] == cancelled@);
}

} // verus!
