//! The domain events exchanged between clients and a board session.
//!
//! Coordinates travel through the broker opaquely: the broker never computes
//! with them, it only stores and re-broadcasts them. They are carried here as
//! the raw 32-bit scalars found in the wire frames; the I/O shell converts
//! them to and from its numeric form at the edge.

use vstd::prelude::*;

verus! {

/// A 2D cursor position, one per client that has moved.
#[derive(Clone, Copy, Debug, PartialEq, Eq)]
pub struct Position {
    pub x: u32,
    pub y: u32,
}

/// A client-to-server event, decoded from one inbound binary frame.
#[derive(Clone, Copy, Debug, PartialEq, Eq)]
pub enum ToServer {
    Move { x: u32, y: u32 },
}

/// A server-to-client event, to be encoded into one outbound binary frame.
#[derive(Debug, PartialEq)]
pub enum ToClient {
    ClientList { clients: Vec<(u64, Position)> },
    NewClient { id: u64 },
    ClientMoved { id: u64, x: u32, y: u32 },
    ClientDisconnected { id: u64 },
}

/// The mathematical shape of a [`ToClient`] event: the snapshot list becomes
/// a sequence.
#[verifier::ext_equal]
pub enum ToClientView {
    ClientList { clients: Seq<(u64, Position)> },
    NewClient { id: u64 },
    ClientMoved { id: u64, x: u32, y: u32 },
    ClientDisconnected { id: u64 },
}

impl View for ToClient {
    type V = ToClientView;

    open spec fn view(&self) -> ToClientView {
        match self {
            ToClient::ClientList { clients } => ToClientView::ClientList { clients: clients@ },
            ToClient::NewClient { id } => ToClientView::NewClient { id: *id },
            ToClient::ClientMoved { id, x, y } => ToClientView::ClientMoved {
                id: *id,
                x: *x,
                y: *y,
            },
            ToClient::ClientDisconnected { id } => ToClientView::ClientDisconnected { id: *id },
        }
    }
}

/// A copy of an entry vector, element for element.
pub(crate) fn copy_entries(v: &Vec<(u64, Position)>) -> (r: Vec<(u64, Position)>)
    ensures
        r@ == v@,
{
    let mut r: Vec<(u64, Position)> = Vec::new();
    let mut i: usize = 0;
    while i < v.len()
        invariant
            i <= v.len(),
            r@ == v@.subrange(0, i as int),
        decreases v.len() - i,
    {
        r.push(v[i]);
        proof {
            assert(v@.subrange(0, i + 1) =~= v@.subrange(0, i as int).push(v@[i as int]));
        }
        i += 1;
    }
    proof {
        assert(v@.subrange(0, v@.len() as int) =~= v@);
    }
    r
}

impl Clone for ToClient {
    /// A clone carries the same event.
    fn clone(&self) -> (r: ToClient)
        ensures
            r@ == self@,
    {
        match self {
            ToClient::ClientList { clients } => ToClient::ClientList {
                clients: copy_entries(clients),
            },
            ToClient::NewClient { id } => ToClient::NewClient { id: *id },
            ToClient::ClientMoved { id, x, y } => ToClient::ClientMoved {
                id: *id,
                x: *x,
                y: *y,
            },
            ToClient::ClientDisconnected { id } => ToClient::ClientDisconnected { id: *id },
        }
    }
}

/// One entry of a session's event queue: what the connection actors submit,
/// plus the periodic liveness tick.
#[derive(Clone, Copy, Debug, PartialEq, Eq)]
pub enum SessionEvent {
    Connect { id: u64 },
    Move { id: u64, x: u32, y: u32 },
    Disconnect { id: u64 },
    Tick,
}

/// What a session asks its surroundings to do after handling one event:
/// deliver an event to one attached connection, or tear the session down
/// (deregister the board, drop the registry entry, fire cancellation).
#[derive(Debug, PartialEq)]
pub enum Directive {
    Send { to: u64, message: ToClient },
    Teardown,
}

/// The mathematical shape of a [`Directive`].
#[verifier::ext_equal]
pub enum DirectiveView {
    Send { to: u64, message: ToClientView },
    Teardown,
}

impl View for Directive {
    type V = DirectiveView;

    open spec fn view(&self) -> DirectiveView {
        match self {
            Directive::Send { to, message } => DirectiveView::Send {
                to: *to,
                message: message@,
            },
            Directive::Teardown => DirectiveView::Teardown,
        }
    }
}

/// The views of a sequence of directives, the form every session contract
/// speaks of.
pub open spec fn dir_views(s: Seq<Directive>) -> Seq<DirectiveView> {
    s.map_values(|d: Directive| d@)
}

} // verus!
