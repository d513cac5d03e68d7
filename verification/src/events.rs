//! Routes backend events to the peer driver or to the owner webview, under the event
//! names that a webview listens to.

use vstd::prelude::*;

use crate::ids::OwnerId;
use crate::peer::driver::{peer_label, PEER_OWNER_PREFIX};
use crate::text::{chars_of, push_char, push_text, strip_prefix, stripped};
use crate::uuid::ascii_lower;

verus! {

pub const WEBVIEW_OWNER_PREFIX: &'static str = "webview:";

/// The owner of the resources a webview creates.
pub fn webview_owner(label: &str) -> (owner: OwnerId)
    ensures
        owner@ == WEBVIEW_OWNER_PREFIX@ + label@,
{
    let mut text = WEBVIEW_OWNER_PREFIX.to_owned();
    push_text(&mut text, label);
    OwnerId::from_string(text)
}

/// Where the events of an owner go.
#[derive(Debug, PartialEq, Eq)]
pub enum Route<'a> {
    Peer(&'a str),
    Webview(&'a str),
    Drop,
}

/// Where the events of `owner` go: to the peer driver for a driver owner, to the
/// webview for a webview owner, nowhere otherwise.
pub open spec fn route_of(owner: Seq<char>) -> (u8, Seq<char>) {
    match stripped(owner, PEER_OWNER_PREFIX@) {
        Some(label) => (0, label),
        None => match stripped(owner, WEBVIEW_OWNER_PREFIX@) {
            Some(label) => (1, label),
            None => (2, Seq::empty()),
        },
    }
}

pub fn route(owner: &OwnerId) -> (route: Route<'_>)
    ensures
        match route {
            Route::Peer(label) => route_of(owner@) == (0u8, label@),
            Route::Webview(label) => route_of(owner@) == (1u8, label@),
            Route::Drop => route_of(owner@).0 == 2,
        },
{
    match peer_label(owner) {
        Some(label) => Route::Peer(label),
        None => match strip_prefix(owner.as_str(), WEBVIEW_OWNER_PREFIX) {
            Some(label) => Route::Webview(label),
            None => Route::Drop,
        },
    }
}

/// A camel-case kind in kebab case: each ASCII capital becomes `-` and its small letter.
pub open spec fn kebab(kind: Seq<char>) -> Seq<char>
    decreases kind.len(),
{
    if kind.len() == 0 {
        Seq::empty()
    } else {
        let c = kind.last();
        kebab(kind.drop_last()) + if 'A' <= c && c <= 'Z' {
            seq!['-', ascii_lower(c)]
        } else {
            seq![c]
        }
    }
}

/// `gattify://scan-result` for the event kind `scanResult`.
pub fn event_name(kind: &str) -> (name: String)
    ensures
        name@ == "gattify://"@ + kebab(kind@),
{
    let chars = chars_of(kind);
    let mut name = "gattify://".to_owned();
    let ghost head = name@;
    let mut i: usize = 0;
    assert(chars@.subrange(0, 0) =~= Seq::<char>::empty());
    assert(name@ =~= head + kebab(chars@.subrange(0, 0)));
    while i < chars.len()
        invariant
            chars@ == kind@,
            head == "gattify://"@,
            i <= chars@.len(),
            name@ == head + kebab(chars@.subrange(0, i as int)),
        decreases chars@.len() - i,
    {
        let ghost prefix = chars@.subrange(0, i + 1);
        assert(prefix.drop_last() =~= chars@.subrange(0, i as int));
        let c = chars[i];
        if 'A' <= c && c <= 'Z' {
            push_char(&mut name, '-');
            let code: u8 = (c as u32) as u8;
            push_char(&mut name, (code + 32) as char);
        } else {
            push_char(&mut name, c);
        }
        i = i + 1;
        assert(name@ =~= head + kebab(chars@.subrange(0, i as int)));
    }
    assert(chars@.subrange(0, i as int) =~= chars@);
    name
}

/// A webview's events come back to it: the owner of a webview routes to that webview,
/// whatever its label, and a peer driver's owner routes to the driver of its label.
pub proof fn law_owners_route_back_to_their_label(label: Seq<char>)
    ensures
        route_of(WEBVIEW_OWNER_PREFIX@ + label) == (1u8, label),
        route_of(PEER_OWNER_PREFIX@ + label) == (0u8, label),
{
    reveal_strlit("webview:");
    reveal_strlit("gattify-peer:");
    let web = WEBVIEW_OWNER_PREFIX@ + label;
    let peer = PEER_OWNER_PREFIX@ + label;
    assert(web.subrange(0, 8) =~= WEBVIEW_OWNER_PREFIX@);
    assert(web.subrange(8, web.len() as int) =~= label);
    assert(web[0] == 'w');
    if PEER_OWNER_PREFIX@.len() <= web.len() {
        assert(web.subrange(0, PEER_OWNER_PREFIX@.len() as int)[0] != PEER_OWNER_PREFIX@[0]);
    }
    assert(stripped(web, PEER_OWNER_PREFIX@) is None);
    assert(peer.subrange(0, 13) =~= PEER_OWNER_PREFIX@);
    assert(peer.subrange(13, peer.len() as int) =~= label);
}

/// Event names in kebab case: a name is read piece by piece, each ASCII capital
/// becomes `-` and its small letter, and every other character stays.
pub proof fn law_kebab_case(a: Seq<char>, b: Seq<char>, c: char)
    ensures
        kebab(a + b) == kebab(a) + kebab(b),
        'A' <= c && c <= 'Z' ==> kebab(seq![c]) == seq!['-', ((c as u32) + 32) as char],
        !('A' <= c && c <= 'Z') ==> kebab(seq![c]) == seq![c],
    decreases b.len(),
{
    if b.len() == 0 {
        assert(a + b =~= a);
        assert(kebab(a) + kebab(b) =~= kebab(a));
    } else {
        law_kebab_case(a, b.drop_last(), c);
        assert((a + b).drop_last() =~= a + b.drop_last());
        assert((a + b).last() == b.last());
        let tail = if 'A' <= b.last() && b.last() <= 'Z' {
            seq!['-', ascii_lower(b.last())]
        } else {
            seq![b.last()]
        };
        assert(kebab(a) + kebab(b.drop_last()) + tail =~= kebab(a) + (kebab(b.drop_last()) + tail));
    }
    let one = seq![c];
    assert(one.drop_last() =~= Seq::<char>::empty());
    assert(one.last() == c);
    assert(kebab(Seq::<char>::empty()) == Seq::<char>::empty());
    assert(kebab(one) == kebab(one.drop_last()) + if 'A' <= c && c <= 'Z' {
        seq!['-', ascii_lower(c)]
    } else {
        seq![c]
    });
    assert(Seq::<char>::empty() + seq!['-', ascii_lower(c)] =~= seq!['-', ascii_lower(c)]);
    assert(Seq::<char>::empty() + seq![c] =~= seq![c]);
}

} // verus!
