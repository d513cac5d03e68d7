# gattify

Bluetooth Low Energy contracts of the gattify Tauri plugin, verified with Verus.

`src/` is the verified library. Every function there carries a contract over
spec models (`Seq`, `Map`-like entry lists, views of the library's types), and
the properties that span several calls are public proof functions whose names
start with `law_`.

- `error`, `ids`, `model`, `command`: the error model, the opaque handles, the
  data vocabulary and the commands, replies and events between the plugin and a
  backend; `model` also validates server definitions and UUIDs.
- `uuid`, `codec`, `text`: canonical UUID text, base64 through the `base64`
  crate, character-level helpers.
- `endpoints`, `scope`, `events`, `gate`, `manager`: what the plugin decides
  around a command: the role of each endpoint, the service scope and the
  characteristic handles it allows, event routing, the ordering of a page
  cleanup against running commands, and operation IDs and cancellation.
- `mock`, `system`: a deterministic backend for tests and the backend that
  stands in until a native one is wired.
- `peer`: the peer transport: frames, the stop-and-wait sender, the bounded
  receiver, and the driver's state (`table`) with the decisions it takes on
  each event.
- `winrt`: the rules of the Windows backend that hold no platform type:
  identifiers, procedure queues, scan results, ATT limits, the advertisement
  state machine, what closing a link decides and the mapping of platform errors.

`app/` is ordinary asynchronous Rust around the library: the backend trait,
the manager and runtime, the page gates, event routing and the peer driver's
tasks and channels. It holds no rule of its own; each decision is a call into
`src/`.

`tests/` exercises the library through its public interface.

The tables that a hash map or hash set keeps elsewhere (the mock's handles, the
peer driver's endpoints and peers, the usable characteristic handles, the
receiver's partial messages, the Windows identifiers) are vectors of entries
here, with an invariant that no key occurs twice. vstd specifies `HashMap` and
`HashSet` by key only for keys it knows how to compare; with text keys its
lookups prove nothing, so these tables are vectors whose contents the
contracts state exactly, in the order entries arrived.
