//! The per-connection protocol: one actor per accepted socket.
//!
//! The I/O shell reads frames, watches the session's outbound queue and the
//! cancellation signal, and classifies whatever wakes it into a
//! [`SocketInput`]; a [`ConnectionActor`] decides what each input means for
//! the session. Its contract fixes the connection protocol: the
//! `Connect` event is emitted before any input is processed, a frame that
//! fails to decode terminates the connection without an event reaching the
//! session, cancellation terminates it unconditionally, and exactly one
//! `Disconnect` is emitted at the end, whatever caused the exit.

use vstd::prelude::*;

use crate::protocol::{SessionEvent, ToServer};

verus! {

/// What one wakeup of the connection's three-way wait brought.
#[derive(Clone, Copy, Debug, PartialEq, Eq)]
pub enum SocketInput {
    /// An inbound binary frame, already run through the codec: the decoded
    /// event, or nothing if the frame was malformed.
    Frame { message: Option<ToServer> },
    /// A close control frame from the peer.
    Close,
    /// A non-binary, non-close control frame.
    Other,
    /// The cancellation signal.
    Kill,
    /// The inbound stream ended or failed.
    Ended,
}

/// The mathematical state of one connection actor.
#[verifier::ext_equal]
pub struct ConnectionView {
    /// The client id minted for this connection.
    pub id: u64,
    /// Whether the read loop is still running; once it is over, the one
    /// `Disconnect` has been emitted and nothing more can be.
    pub running: bool,
}

/// The event a running connection submits for one input, if any: only a
/// well-formed `Move` frame reaches the session.
pub open spec fn input_event(id: u64, input: SocketInput) -> Option<SessionEvent> {
    match input {
        SocketInput::Frame { message: Some(ToServer::Move { x, y }) } => Some(
            SessionEvent::Move { id, x, y },
        ),
        _ => None,
    }
}

/// Whether the read loop continues after this input: a decode failure, a
/// close frame, cancellation and the end of the stream all terminate it.
pub open spec fn input_continues(input: SocketInput) -> bool {
    match input {
        SocketInput::Frame { message } => message is Some,
        SocketInput::Close => false,
        SocketInput::Other => true,
        SocketInput::Kill => false,
        SocketInput::Ended => false,
    }
}

/// The events a connection's read loop submits for a whole input sequence:
/// every decoded move up to (excluding) the first terminating input.
pub open spec fn loop_events(id: u64, inputs: Seq<SocketInput>) -> Seq<SessionEvent>
    decreases inputs.len(),
{
    if inputs.len() == 0 {
        Seq::empty()
    } else if !input_continues(inputs[0]) {
        Seq::empty()
    } else {
        let head = match input_event(id, inputs[0]) {
            Some(e) => seq![e],
            None => Seq::empty(),
        };
        head + loop_events(id, inputs.drop_first())
    }
}

/// One connection actor: the decision half of the per-socket task.
pub struct ConnectionActor {
    id: u64,
    running: bool,
}

/// Relies on rand's `random`: draws a value of the requested type from the
/// thread-local generator. Nothing is promised of the value.
pub assume_specification<T>[ rand::random::<T> ]() -> (r: T)
    where
        rand::distr::StandardUniform: rand::distr::Distribution<T>,
;

impl View for ConnectionActor {
    type V = ConnectionView;

    closed spec fn view(&self) -> ConnectionView {
        ConnectionView { id: self.id, running: self.running }
    }
}

impl ConnectionActor {
    /// Accept one connection: mint a fresh client id and emit the `Connect`
    /// event, which must reach the session before any inbound traffic is
    /// processed.
    pub fn start() -> (r: (ConnectionActor, SessionEvent))
        ensures
            r.0@.running,
            r.1 == (SessionEvent::Connect { id: r.0@.id }),
    {
        let id: u64 = rand::random::<u64>();
        (ConnectionActor { id, running: true }, SessionEvent::Connect { id })
    }

    /// The client id minted for this connection.
    pub fn get_id(&self) -> (id: u64)
        ensures
            id == self@.id,
    {
        self.id
    }

    /// Whether the read loop is still running.
    pub fn is_running(&self) -> (b: bool)
        ensures
            b == self@.running,
    {
        self.running
    }

    /// Decide what one input means: the event to submit, if any, and whether
    /// the read loop goes on. A malformed frame submits nothing and stops the
    /// loop; cancellation stops it unconditionally.
    pub fn on_input(&mut self, input: &SocketInput) -> (r: (Option<SessionEvent>, bool))
        requires
            old(self)@.running,
        ensures
            *final(self) == *old(self),
            r.0 == input_event(old(self)@.id, *input),
            r.1 == input_continues(*input),
    {
        match input {
            SocketInput::Frame { message: Some(ToServer::Move { x, y }) } => (
                Some(SessionEvent::Move { id: self.id, x: *x, y: *y }),
                true,
            ),
            SocketInput::Frame { message: None } => (None, false),
            SocketInput::Close => (None, false),
            SocketInput::Other => (None, true),
            SocketInput::Kill => (None, false),
            SocketInput::Ended => (None, false),
        }
    }

    /// End the connection: emit the one `Disconnect` event. The loop must
    /// still be running, so this can happen only once per connection,
    /// whatever caused the exit.
    pub fn finish(&mut self) -> (e: SessionEvent)
        requires
            old(self)@.running,
        ensures
            !final(self)@.running,
            final(self)@.id == old(self)@.id,
            e == (SessionEvent::Disconnect { id: old(self)@.id }),
    {
        self.running = false;
        SessionEvent::Disconnect { id: self.id }
    }

    /// Run the whole read loop over a sequence of inputs: submit every
    /// decoded move up to the first terminating input, then the one
    /// `Disconnect`, and stop.
    pub fn drain(&mut self, inputs: &Vec<SocketInput>) -> (events: Vec<SessionEvent>)
        requires
            old(self)@.running,
        ensures
            !final(self)@.running,
            final(self)@.id == old(self)@.id,
            events@ == loop_events(old(self)@.id, inputs@).push(
                SessionEvent::Disconnect { id: old(self)@.id },
            ),
    {
        let ghost id = self@.id;
        let mut events: Vec<SessionEvent> = Vec::new();
        let mut i: usize = 0;
        let mut go = true;
        proof {
            assert(inputs@.subrange(0, inputs@.len() as int) =~= inputs@);
            assert(Seq::<SessionEvent>::empty() + loop_events(id, inputs@) =~= loop_events(
                id,
                inputs@,
            ));
        }
        while go && i < inputs.len()
            invariant
                i <= inputs.len(),
                self@.running,
                self@.id == id,
                go ==> loop_events(id, inputs@) == events@ + loop_events(
                    id,
                    inputs@.subrange(i as int, inputs@.len() as int),
                ),
                !go ==> loop_events(id, inputs@) == events@,
            decreases inputs.len() - i,
        {
            let ghost rest = inputs@.subrange(i as int, inputs@.len() as int);
            let (event, cont) = self.on_input(&inputs[i]);
            proof {
                assert(rest.len() > 0);
                assert(rest[0] == inputs@[i as int]);
                assert(rest.drop_first() =~= inputs@.subrange(i + 1, inputs@.len() as int));
            }
            match event {
                Some(e) => {
                    events.push(e);
                    proof {
                        let head = seq![e];
                        assert(loop_events(id, rest) == head + loop_events(id, rest.drop_first()));
                        assert(events@ + loop_events(id, rest.drop_first())
                            =~= events@.drop_last() + loop_events(id, rest));
                    }
                },
                None => {
                    proof {
                        if input_continues(inputs@[i as int]) {
                            assert(loop_events(id, rest) == loop_events(id, rest.drop_first()));
                        } else {
                            assert(loop_events(id, rest) =~= Seq::<SessionEvent>::empty());
                            assert(events@ + loop_events(id, rest) =~= events@);
                        }
                    }
                },
            }
            go = cont;
            i += 1;
        }
        proof {
            if go {
                assert(inputs@.subrange(i as int, inputs@.len() as int)
                    =~= Seq::<SocketInput>::empty());
                assert(loop_events(id, Seq::empty()) =~= Seq::<SessionEvent>::empty());
                assert(events@ + Seq::<SessionEvent>::empty() =~= events@);
            }
        }
        let done = self.finish();
        events.push(done);
        events
    }
}

/// A read loop submits no more events than it was given inputs.
pub proof fn lemma_loop_events_len(id: u64, inputs: Seq<SocketInput>)
    ensures
        loop_events(id, inputs).len() <= inputs.len(),
    decreases inputs.len(),
{
    if inputs.len() > 0 && input_continues(inputs[0]) {
        lemma_loop_events_len(id, inputs.drop_first());
    }
}

/// Cancellation liveness: once the kill signal stands at position `k` of the
/// inputs, nothing past it is processed — the loop submits at most `k`
/// events, exactly those of the inputs before the signal.
pub proof fn lemma_kill_halts(id: u64, inputs: Seq<SocketInput>, k: int)
    requires
        0 <= k < inputs.len(),
        inputs[k] == SocketInput::Kill,
    ensures
        loop_events(id, inputs) == loop_events(id, inputs.subrange(0, k)),
        loop_events(id, inputs).len() <= k,
    decreases k,
{
    let pre = inputs.subrange(0, k);
    lemma_loop_events_len(id, pre);
    if k == 0 {
        assert(!input_continues(inputs[0]));
        assert(loop_events(id, inputs) =~= Seq::<SessionEvent>::empty());
        assert(loop_events(id, pre) =~= Seq::<SessionEvent>::empty());
    } else {
        if !input_continues(inputs[0]) {
            assert(loop_events(id, inputs) =~= Seq::<SessionEvent>::empty());
            assert(!input_continues(pre[0]));
            assert(loop_events(id, pre) =~= Seq::<SessionEvent>::empty());
        } else {
            assert(inputs.drop_first()[k - 1] == inputs[k]);
            lemma_kill_halts(id, inputs.drop_first(), k - 1);
            assert(inputs.drop_first().subrange(0, k - 1) =~= pre.drop_first());
            assert(pre[0] == inputs[0]);
            assert(loop_events(id, pre) == (match input_event(id, pre[0]) {
                Some(e) => seq![e],
                None => Seq::empty(),
            }) + loop_events(id, pre.drop_first()));
        }
    }
}

/// The read loop submits moves only: no `Connect`, `Disconnect` or `Tick`
/// originates there, so the one `Connect` of [`ConnectionActor::start`] and
/// the one `Disconnect` of [`ConnectionActor::finish`] are the only
/// lifecycle events a connection ever submits.
pub proof fn lemma_loop_events_moves_only(id: u64, inputs: Seq<SocketInput>)
    ensures
        forall|j: int| 0 <= j < loop_events(id, inputs).len()
            ==> is_move_event(loop_events(id, inputs)[j], id),
    decreases inputs.len(),
{
    if inputs.len() > 0 && input_continues(inputs[0]) {
        lemma_loop_events_moves_only(id, inputs.drop_first());
        let head = match input_event(id, inputs[0]) {
            Some(e) => seq![e],
            None => Seq::empty(),
        };
        let tail = loop_events(id, inputs.drop_first());
        assert(loop_events(id, inputs) == head + tail);
        assert forall|j: int| 0 <= j < loop_events(id, inputs).len() implies is_move_event(
            loop_events(id, inputs)[j],
            id,
        ) by {
            if j < head.len() {
                assert(loop_events(id, inputs)[j] == head[0]);
            } else {
                assert(loop_events(id, inputs)[j] == tail[j - head.len()]);
            }
        }
    }
}

/// Whether `e` is a move submitted on behalf of client `id`.
pub open spec fn is_move_event(e: SessionEvent, id: u64) -> bool {
    match e {
        SessionEvent::Move { id: mid, .. } => mid == id,
        _ => false,
    }
}

} // verus!
