//! The per-board session state machine.
//!
//! A [`Board`] owns all mutable state of one shared board: which clients are
//! attached and the last reported position of each client that has moved. All
//! mutation is serialized: the surrounding actor task feeds it one
//! [`SessionEvent`] at a time and performs the returned [`Directive`]s
//! (deliveries to attached connections, or the one teardown). Every handler's
//! contract says exactly which state results and which directives come back,
//! through the pure transition function [`board_step`]; replaying a whole
//! event sequence is specified by [`replay`].

use vstd::prelude::*;

use crate::assoc::{
    has_key, keys_unique, lemma_push_fresh_key, lemma_remove_key, lemma_remove_key_absent,
    lemma_to_map_push, remove_key, to_map,
};
use crate::protocol::{
    copy_entries, dir_views, Directive, DirectiveView, Position, SessionEvent, ToClient,
    ToClientView, ToServer,
};

verus! {

/// The mathematical state of one board session.
#[verifier::ext_equal]
pub struct BoardView {
    /// Ids of the currently attached clients, in attachment order.
    pub clients: Seq<u64>,
    /// One entry per client that has sent at least one move; entries are not
    /// pre-seeded at connect.
    pub positions: Seq<(u64, Position)>,
    /// Whether the one teardown of this session is still owed.
    pub delete_pending: bool,
}

impl BoardView {
    /// Validity: client ids are distinct, and so are the position keys.
    pub open spec fn wf(self) -> bool {
        self.clients.no_duplicates() && keys_unique(self.positions)
    }

    /// The positions as a map from client id to last reported position.
    pub open spec fn pos_map(self) -> Map<u64, Position> {
        to_map(self.positions)
    }

    /// Whether `id` denotes a currently attached client.
    pub open spec fn is_attached(self, id: u64) -> bool {
        self.clients.contains(id)
    }
}

/// The state of a freshly created session: no clients, no positions, its
/// teardown still owed.
pub open spec fn empty_board() -> BoardView {
    BoardView { clients: Seq::empty(), positions: Seq::empty(), delete_pending: true }
}

/// `s` with every occurrence of `id` removed; the other ids keep their order.
pub open spec fn remove_id(s: Seq<u64>, id: u64) -> Seq<u64>
    decreases s.len(),
{
    if s.len() == 0 {
        Seq::empty()
    } else {
        let rest = remove_id(s.drop_last(), id);
        if s.last() == id {
            rest
        } else {
            rest.push(s.last())
        }
    }
}

/// One delivery of `message` to every id in `clients`, in order.
pub open spec fn sends_to_all(clients: Seq<u64>, message: ToClientView) -> Seq<DirectiveView> {
    clients.map_values(|c: u64| DirectiveView::Send { to: c, message })
}

/// Handling `Connect(id)`: the new connection first receives a snapshot of
/// all recorded positions, the id is registered, and every registered client
/// (the new one included) is told of the newcomer.
pub open spec fn step_connect(v: BoardView, id: u64) -> (BoardView, Seq<DirectiveView>) {
    let clients1 = if v.clients.contains(id) {
        v.clients
    } else {
        v.clients.push(id)
    };
    let v1 = BoardView { clients: clients1, ..v };
    let snapshot = DirectiveView::Send {
        to: id,
        message: ToClientView::ClientList { clients: v.positions },
    };
    (v1, seq![snapshot] + sends_to_all(clients1, ToClientView::NewClient { id }))
}

/// Handling `Move(id, x, y)`: the position is recorded (insert or overwrite)
/// and every registered client is told of the move.
pub open spec fn step_move(v: BoardView, id: u64, x: u32, y: u32) -> (
    BoardView,
    Seq<DirectiveView>,
) {
    let v1 = BoardView {
        positions: remove_key(v.positions, id).push((id, Position { x, y })),
        ..v
    };
    (v1, sends_to_all(v.clients, ToClientView::ClientMoved { id, x, y }))
}

/// Handling `Disconnect(id)`: the id leaves both `clients` and `positions`
/// together; the remaining clients are told, but only if the id was actually
/// attached — a repeat disconnect is a silent no-op.
pub open spec fn step_disconnect(v: BoardView, id: u64) -> (BoardView, Seq<DirectiveView>) {
    let v1 = BoardView {
        clients: remove_id(v.clients, id),
        positions: remove_key(v.positions, id),
        ..v
    };
    if v.clients.contains(id) {
        (v1, sends_to_all(v1.clients, ToClientView::ClientDisconnected { id }))
    } else {
        (v1, Seq::empty())
    }
}

/// Handling `Tick`: an empty session whose teardown is still owed fires it,
/// exactly once; every other tick is a no-op.
pub open spec fn step_tick(v: BoardView) -> (BoardView, Seq<DirectiveView>) {
    if v.clients.len() == 0 && v.delete_pending {
        (BoardView { delete_pending: false, ..v }, seq![DirectiveView::Teardown])
    } else {
        (v, Seq::empty())
    }
}

/// The session's transition function: next state and directives for one
/// event.
pub open spec fn board_step(v: BoardView, e: SessionEvent) -> (BoardView, Seq<DirectiveView>) {
    match e {
        SessionEvent::Connect { id } => step_connect(v, id),
        SessionEvent::Move { id, x, y } => step_move(v, id, x, y),
        SessionEvent::Disconnect { id } => step_disconnect(v, id),
        SessionEvent::Tick => step_tick(v),
    }
}

/// The reference semantics of a whole session: fold [`board_step`] over the
/// event sequence, concatenating the directives.
pub open spec fn replay(v: BoardView, events: Seq<SessionEvent>) -> (BoardView, Seq<DirectiveView>)
    decreases events.len(),
{
    if events.len() == 0 {
        (v, Seq::empty())
    } else {
        let prev = replay(v, events.drop_last());
        let step = board_step(prev.0, events.last());
        (step.0, prev.1 + step.1)
    }
}

/// The session event matching one client-to-server message.
pub open spec fn event_of(client_id: u64, m: ToServer) -> SessionEvent {
    match m {
        ToServer::Move { x, y } => SessionEvent::Move { id: client_id, x, y },
    }
}

/// One board session's state, sole owner of the board's mutable data.
pub struct Board {
    clients: Vec<u64>,
    positions: Vec<(u64, Position)>,
    delete_pending: bool,
}

impl View for Board {
    type V = BoardView;

    closed spec fn view(&self) -> BoardView {
        BoardView {
            clients: self.clients@,
            positions: self.positions@,
            delete_pending: self.delete_pending,
        }
    }
}

/// Whether `id` occurs in `v`.
fn contains_id(v: &Vec<u64>, id: u64) -> (b: bool)
    ensures
        b == v@.contains(id),
{
    let mut i: usize = 0;
    while i < v.len()
        invariant
            i <= v.len(),
            forall|j: int| 0 <= j < i ==> v@[j] != id,
        decreases v.len() - i,
    {
        if v[i] == id {
            return true;
        }
        i += 1;
    }
    proof {
        if v@.contains(id) {
            let j = choose|j: int| 0 <= j < v@.len() && v@[j] == id;
            assert(v@[j] != id);
        }
    }
    false
}

/// `v` without any occurrence of `id`.
fn remove_ids(v: &Vec<u64>, id: u64) -> (r: Vec<u64>)
    ensures
        r@ == remove_id(v@, id),
{
    let mut r: Vec<u64> = Vec::new();
    let mut i: usize = 0;
    while i < v.len()
        invariant
            i <= v.len(),
            r@ == remove_id(v@.subrange(0, i as int), id),
        decreases v.len() - i,
    {
        let prefix = Ghost(v@.subrange(0, i as int));
        if v[i] != id {
            r.push(v[i]);
        }
        proof {
            assert(v@.subrange(0, i + 1).drop_last() =~= prefix@);
            assert(v@.subrange(0, i + 1).last() == v@[i as int]);
        }
        i += 1;
    }
    proof {
        assert(v@.subrange(0, v@.len() as int) =~= v@);
    }
    r
}

/// `v` without any entry keyed by `id`.
fn remove_entries(v: &Vec<(u64, Position)>, id: u64) -> (r: Vec<(u64, Position)>)
    ensures
        r@ == remove_key(v@, id),
{
    let mut r: Vec<(u64, Position)> = Vec::new();
    let mut i: usize = 0;
    while i < v.len()
        invariant
            i <= v.len(),
            r@ == remove_key(v@.subrange(0, i as int), id),
        decreases v.len() - i,
    {
        let prefix = Ghost(v@.subrange(0, i as int));
        if v[i].0 != id {
            r.push(v[i]);
        }
        proof {
            assert(v@.subrange(0, i + 1).drop_last() =~= prefix@);
            assert(v@.subrange(0, i + 1).last() == v@[i as int]);
        }
        i += 1;
    }
    proof {
        assert(v@.subrange(0, v@.len() as int) =~= v@);
    }
    r
}

/// One `Send` directive of `message` for each id in `clients`.
fn sends_for(clients: &Vec<u64>, message: &ToClient) -> (out: Vec<Directive>)
    ensures
        dir_views(out@) == sends_to_all(clients@, message@),
{
    let mut out: Vec<Directive> = Vec::new();
    let mut i: usize = 0;
    while i < clients.len()
        invariant
            i <= clients.len(),
            out@.len() == i,
            dir_views(out@) == sends_to_all(clients@.subrange(0, i as int), message@),
        decreases clients.len() - i,
    {
        let prev = Ghost(out@);
        let copy = message.clone();
        out.push(Directive::Send { to: clients[i], message: copy });
        proof {
            let m = message@;
            let pre = clients@.subrange(0, i as int);
            let cur = clients@.subrange(0, i + 1);
            assert forall|j: int| 0 <= j < cur.len() implies dir_views(out@)[j]
                == sends_to_all(cur, m)[j] by {
                assert(sends_to_all(cur, m)[j] == (DirectiveView::Send {
                    to: cur[j],
                    message: m,
                }));
                assert(dir_views(out@)[j] == out@[j]@);
                if j < i {
                    assert(out@[j] == prev@[j]);
                    assert(dir_views(prev@)[j] == prev@[j]@);
                    assert(dir_views(prev@)[j] == sends_to_all(pre, m)[j]);
                    assert(sends_to_all(pre, m)[j] == (DirectiveView::Send {
                        to: pre[j],
                        message: m,
                    }));
                    assert(cur[j] == pre[j]);
                } else {
                    assert(cur[j] == clients@[i as int]);
                }
            }
            assert(dir_views(out@) =~= sends_to_all(cur, m));
        }
        i += 1;
    }
    proof {
        assert(clients@.subrange(0, clients@.len() as int) =~= clients@);
    }
    out
}

impl Board {
    /// A fresh, empty session whose teardown is still owed.
    pub fn new() -> (b: Board)
        ensures
            b@ == empty_board(),
            b@.wf(),
    {
        Board { clients: Vec::new(), positions: Vec::new(), delete_pending: true }
    }

    /// How many clients are attached.
    pub fn client_count(&self) -> (n: usize)
        ensures
            n == self@.clients.len(),
    {
        self.clients.len()
    }

    /// Handle `Connect(id)`: send the new connection the snapshot of all
    /// recorded positions, register it, and announce it to every registered
    /// client.
    pub fn on_connect(&mut self, id: u64) -> (out: Vec<Directive>)
        requires
            old(self)@.wf(),
        ensures
            final(self)@ == step_connect(old(self)@, id).0,
            dir_views(out@) == step_connect(old(self)@, id).1,
            final(self)@.wf(),
    {
        let snapshot = copy_entries(&self.positions);
        let mut out: Vec<Directive> = Vec::new();
        out.push(Directive::Send { to: id, message: ToClient::ClientList { clients: snapshot } });
        if !contains_id(&self.clients, id) {
            self.clients.push(id);
            proof {
                let old_clients = old(self)@.clients;
                assert forall|i: int, j: int|
                    0 <= i < j < self.clients@.len() implies self.clients@[i]
                    != self.clients@[j] by {
                    if j == old_clients.len() as int {
                        if old_clients[i] == id {
                            assert(old_clients.contains(id));
                        }
                    }
                }
            }
        }
        let mut broadcasts = sends_for(&self.clients, &ToClient::NewClient { id });
        out.append(&mut broadcasts);
        proof {
            assert(dir_views(out@) =~= step_connect(old(self)@, id).1);
        }
        out
    }

    /// Handle one client-to-server message: a `Move` records the position
    /// (insert or overwrite) and announces it to every registered client.
    pub fn on_message(&mut self, client_id: u64, message: &ToServer) -> (out: Vec<Directive>)
        requires
            old(self)@.wf(),
        ensures
            final(self)@ == board_step(old(self)@, event_of(client_id, *message)).0,
            dir_views(out@) == board_step(old(self)@, event_of(client_id, *message)).1,
            final(self)@.wf(),
    {
        match message {
            ToServer::Move { x, y } => {
                let stripped = remove_entries(&self.positions, client_id);
                self.positions = stripped;
                self.positions.push((client_id, Position { x: *x, y: *y }));
                proof {
                    lemma_remove_key(old(self)@.positions, client_id);
                    lemma_push_fresh_key(
                        remove_key(old(self)@.positions, client_id),
                        client_id,
                        Position { x: *x, y: *y },
                    );
                }
                sends_for(&self.clients, &ToClient::ClientMoved { id: client_id, x: *x, y: *y })
            },
        }
    }

    /// Handle `Disconnect(id)`: remove the id from both `clients` and
    /// `positions` together; announce the departure to the remaining clients
    /// only if the id was attached — a repeat disconnect is a silent no-op.
    pub fn on_disconnect(&mut self, client_id: u64) -> (out: Vec<Directive>)
        requires
            old(self)@.wf(),
        ensures
            final(self)@ == step_disconnect(old(self)@, client_id).0,
            dir_views(out@) == step_disconnect(old(self)@, client_id).1,
            final(self)@.wf(),
    {
        let was_attached = contains_id(&self.clients, client_id);
        let kept_clients = remove_ids(&self.clients, client_id);
        self.clients = kept_clients;
        let kept_positions = remove_entries(&self.positions, client_id);
        self.positions = kept_positions;
        proof {
            lemma_remove_id(old(self)@.clients, client_id);
            lemma_remove_key(old(self)@.positions, client_id);
        }
        if was_attached {
            sends_for(&self.clients, &ToClient::ClientDisconnected { id: client_id })
        } else {
            Vec::new()
        }
    }

    /// Handle the periodic tick: an empty session whose teardown is still
    /// owed fires it, exactly once; every other tick is a no-op.
    pub fn tick(&mut self) -> (out: Vec<Directive>)
        requires
            old(self)@.wf(),
        ensures
            final(self)@ == step_tick(old(self)@).0,
            dir_views(out@) == step_tick(old(self)@).1,
            final(self)@.wf(),
    {
        let mut out: Vec<Directive> = Vec::new();
        if self.clients.len() == 0 && self.delete_pending {
            self.delete_pending = false;
            out.push(Directive::Teardown);
            proof {
                assert(dir_views(out@) =~= seq![DirectiveView::Teardown]);
            }
        }
        out
    }

    /// Dispatch one event of the session's queue to its handler.
    pub fn handle_event(&mut self, event: &SessionEvent) -> (out: Vec<Directive>)
        requires
            old(self)@.wf(),
        ensures
            final(self)@ == board_step(old(self)@, *event).0,
            dir_views(out@) == board_step(old(self)@, *event).1,
            final(self)@.wf(),
    {
        match event {
            SessionEvent::Connect { id } => self.on_connect(*id),
            SessionEvent::Move { id, x, y } => self.on_message(
                *id,
                &ToServer::Move { x: *x, y: *y },
            ),
            SessionEvent::Disconnect { id } => self.on_disconnect(*id),
            SessionEvent::Tick => self.tick(),
        }
    }

    /// Feed a whole event sequence to the session, one event at a time.
    ///
    /// Sequential replay: the resulting state and directives are exactly
    /// those of the reference semantics [`replay`] applied to the same
    /// sequence.
    pub fn apply_events(&mut self, events: &Vec<SessionEvent>) -> (out: Vec<Directive>)
        requires
            old(self)@.wf(),
        ensures
            final(self)@ == replay(old(self)@, events@).0,
            dir_views(out@) == replay(old(self)@, events@).1,
            final(self)@.wf(),
    {
        let mut out: Vec<Directive> = Vec::new();
        let mut i: usize = 0;
        while i < events.len()
            invariant
                i <= events.len(),
                old(self)@.wf(),
                self@.wf(),
                self@ == replay(old(self)@, events@.subrange(0, i as int)).0,
                dir_views(out@) == replay(old(self)@, events@.subrange(0, i as int)).1,
            decreases events.len() - i,
        {
            let prefix = Ghost(events@.subrange(0, i as int));
            let mut step_out = self.handle_event(&events[i]);
            proof {
                assert(dir_views(out@ + step_out@) =~= dir_views(out@) + dir_views(step_out@));
                assert(events@.subrange(0, i + 1).drop_last() =~= prefix@);
                assert(events@.subrange(0, i + 1).last() == events@[i as int]);
            }
            out.append(&mut step_out);
            i += 1;
        }
        proof {
            assert(events@.subrange(0, events@.len() as int) =~= events@);
        }
        out
    }
}

/// Removing an id removes exactly its occurrences: distinctness is kept, the
/// id is gone, every other id stays.
pub proof fn lemma_remove_id(s: Seq<u64>, id: u64)
    requires
        s.no_duplicates(),
    ensures
        remove_id(s, id).no_duplicates(),
        !remove_id(s, id).contains(id),
        forall|x: u64| x != id ==> (remove_id(s, id).contains(x) <==> s.contains(x)),
        remove_id(s, id).len() <= s.len(),
    decreases s.len(),
{
    if s.len() > 0 {
        let s0 = s.drop_last();
        assert forall|i: int, j: int|
            0 <= i < s0.len() && 0 <= j < s0.len() && i != j implies s0[i] != s0[j] by {
            assert(s0[i] == s[i] && s0[j] == s[j]);
        }
        lemma_remove_id(s0, id);
        let rest = remove_id(s0, id);
        assert forall|x: u64| #[trigger] s0.contains(x) implies s.contains(x) by {
            let i = choose|i: int| 0 <= i < s0.len() && s0[i] == x;
            assert(s[i] == x);
        }
        assert forall|x: u64| x != s.last() && #[trigger] s.contains(x) implies s0.contains(x) by {
            let i = choose|i: int| 0 <= i < s.len() && s[i] == x;
            assert(s[s.len() - 1] == s.last());
            assert(s0[i] == x);
        }
        if s.last() == id {
            assert forall|x: u64| x != id implies (rest.contains(x) <==> s.contains(x)) by {
                if rest.contains(x) {
                    assert(s0.contains(x));
                }
                if s.contains(x) {
                    assert(s0.contains(x));
                    assert(rest.contains(x));
                }
            }
        } else {
            let t = rest.push(s.last());
            assert(!s0.contains(s.last())) by {
                if s0.contains(s.last()) {
                    let i = choose|i: int| 0 <= i < s0.len() && s0[i] == s.last();
                    assert(s[i] == s[s.len() - 1]);
                }
            }
            assert forall|i: int, j: int|
                0 <= i < t.len() && 0 <= j < t.len() && i != j implies t[i] != t[j] by {
                if i < rest.len() && j < rest.len() {
                    assert(t[i] == rest[i] && t[j] == rest[j]);
                } else if j == rest.len() as int {
                    assert(t[i] == rest[i]);
                    if rest[i] == s.last() {
                        assert(rest.contains(s.last()));
                        assert(s0.contains(s.last()));
                    }
                } else {
                    assert(t[j] == rest[j]);
                    if rest[j] == s.last() {
                        assert(rest.contains(s.last()));
                        assert(s0.contains(s.last()));
                    }
                }
            }
            assert(!t.contains(id)) by {
                if t.contains(id) {
                    let i = choose|i: int| 0 <= i < t.len() && t[i] == id;
                    if i < rest.len() {
                        assert(rest[i] == id);
                        assert(rest.contains(id));
                    } else {
                        assert(t[i] == s.last());
                    }
                }
            }
            assert forall|x: u64| x != id implies (t.contains(x) <==> s.contains(x)) by {
                if t.contains(x) {
                    let i = choose|i: int| 0 <= i < t.len() && t[i] == x;
                    if i < rest.len() {
                        assert(rest[i] == x);
                        assert(rest.contains(x));
                        assert(s0.contains(x));
                    } else {
                        assert(s[s.len() - 1] == x);
                    }
                }
                if s.contains(x) {
                    if x == s.last() {
                        assert(t[rest.len() as int] == x);
                    } else {
                        assert(s0.contains(x));
                        assert(rest.contains(x));
                        let i = choose|i: int| 0 <= i < rest.len() && rest[i] == x;
                        assert(t[i] == x);
                    }
                }
            }
        }
    }
}

/// Removing an id that does not occur changes nothing.
pub proof fn lemma_remove_id_absent(s: Seq<u64>, id: u64)
    requires
        !s.contains(id),
    ensures
        remove_id(s, id) == s,
    decreases s.len(),
{
    if s.len() > 0 {
        assert(!s.drop_last().contains(id)) by {
            if s.drop_last().contains(id) {
                let i = choose|i: int| 0 <= i < s.drop_last().len() && s.drop_last()[i] == id;
                assert(s[i] == id);
            }
        }
        lemma_remove_id_absent(s.drop_last(), id);
        assert(s.last() != id) by {
            assert(s[s.len() - 1] == s.last());
        }
        assert(s.drop_last().push(s.last()) =~= s);
    }
}

/// Every step preserves validity of the session state.
pub proof fn lemma_step_wf(v: BoardView, e: SessionEvent)
    requires
        v.wf(),
    ensures
        board_step(v, e).0.wf(),
{
    match e {
        SessionEvent::Connect { id } => {
            if !v.clients.contains(id) {
                let t = v.clients.push(id);
                assert forall|i: int, j: int|
                    0 <= i < t.len() && 0 <= j < t.len() && i != j implies t[i] != t[j] by {
                    if i < v.clients.len() && j < v.clients.len() {
                        assert(t[i] == v.clients[i] && t[j] == v.clients[j]);
                    } else if j == v.clients.len() as int {
                        assert(t[i] == v.clients[i]);
                        if v.clients[i] == id {
                            assert(v.clients.contains(id));
                        }
                    } else {
                        assert(t[j] == v.clients[j]);
                        if v.clients[j] == id {
                            assert(v.clients.contains(id));
                        }
                    }
                }
            }
        },
        SessionEvent::Move { id, x, y } => {
            lemma_remove_key(v.positions, id);
            lemma_push_fresh_key(remove_key(v.positions, id), id, Position { x, y });
        },
        SessionEvent::Disconnect { id } => {
            lemma_remove_id(v.clients, id);
            lemma_remove_key(v.positions, id);
        },
        SessionEvent::Tick => {},
    }
}

/// Replaying any event sequence preserves validity.
pub proof fn lemma_replay_wf(v: BoardView, events: Seq<SessionEvent>)
    requires
        v.wf(),
    ensures
        replay(v, events).0.wf(),
    decreases events.len(),
{
    if events.len() > 0 {
        lemma_replay_wf(v, events.drop_last());
        lemma_step_wf(replay(v, events.drop_last()).0, events.last());
    }
}

/// How many teardown directives a directive sequence holds.
pub open spec fn count_teardowns(s: Seq<DirectiveView>) -> nat
    decreases s.len(),
{
    if s.len() == 0 {
        0
    } else {
        count_teardowns(s.drop_last()) + (if s.last() is Teardown {
            1nat
        } else {
            0nat
        })
    }
}

/// Whether the session still owes its teardown, as a count.
pub open spec fn flag_val(v: BoardView) -> nat {
    if v.delete_pending {
        1nat
    } else {
        0nat
    }
}

/// Teardown counting distributes over concatenation.
pub proof fn lemma_count_teardowns_add(a: Seq<DirectiveView>, b: Seq<DirectiveView>)
    ensures
        count_teardowns(a + b) == count_teardowns(a) + count_teardowns(b),
    decreases b.len(),
{
    if b.len() == 0 {
        assert(a + b =~= a);
    } else {
        lemma_count_teardowns_add(a, b.drop_last());
        assert((a + b).drop_last() =~= a + b.drop_last());
        assert((a + b).last() == b.last());
    }
}

/// A broadcast consists of deliveries only, never a teardown.
pub proof fn lemma_sends_no_teardown(clients: Seq<u64>, m: ToClientView)
    ensures
        count_teardowns(sends_to_all(clients, m)) == 0,
    decreases clients.len(),
{
    if clients.len() > 0 {
        lemma_sends_no_teardown(clients.drop_last(), m);
        let s = sends_to_all(clients, m);
        assert(s.drop_last() =~= sends_to_all(clients.drop_last(), m));
        assert(s.last() == (DirectiveView::Send { to: clients.last(), message: m }));
    }
}

/// One step fires a teardown exactly when it consumes the owed flag.
pub proof fn lemma_step_teardown(v: BoardView, e: SessionEvent)
    ensures
        count_teardowns(board_step(v, e).1) + flag_val(board_step(v, e).0) == flag_val(v),
{
    match e {
        SessionEvent::Connect { id } => {
            let out = step_connect(v, id).1;
            let snapshot = seq![
                DirectiveView::Send {
                    to: id,
                    message: ToClientView::ClientList { clients: v.positions },
                },
            ];
            let bc = sends_to_all(step_connect(v, id).0.clients, ToClientView::NewClient { id });
            assert(out == snapshot + bc);
            lemma_count_teardowns_add(snapshot, bc);
            lemma_sends_no_teardown(step_connect(v, id).0.clients, ToClientView::NewClient { id });
            assert(snapshot.drop_last() =~= Seq::<DirectiveView>::empty());
            assert(count_teardowns(snapshot.drop_last()) == 0);
            assert(board_step(v, e) == step_connect(v, id));
        },
        SessionEvent::Move { id, x, y } => {
            lemma_sends_no_teardown(v.clients, ToClientView::ClientMoved { id, x, y });
            assert(board_step(v, e) == step_move(v, id, x, y));
        },
        SessionEvent::Disconnect { id } => {
            if v.clients.contains(id) {
                lemma_sends_no_teardown(
                    step_disconnect(v, id).0.clients,
                    ToClientView::ClientDisconnected { id },
                );
            } else {
                assert(count_teardowns(Seq::<DirectiveView>::empty()) == 0);
            }
            assert(board_step(v, e) == step_disconnect(v, id));
        },
        SessionEvent::Tick => {
            if v.clients.len() == 0 && v.delete_pending {
                assert(seq![DirectiveView::Teardown].drop_last()
                    =~= Seq::<DirectiveView>::empty());
                assert(count_teardowns(seq![DirectiveView::Teardown].drop_last()) == 0);
                assert(count_teardowns(seq![DirectiveView::Teardown]) == 1);
            } else {
                assert(count_teardowns(Seq::<DirectiveView>::empty()) == 0);
            }
            assert(board_step(v, e) == step_tick(v));
        },
    }
}

/// Exactly-once eviction, session side: over any event sequence a session
/// fires its teardown exactly as often as it consumes the owed flag — never
/// more than once, and never again once the flag is spent.
pub proof fn lemma_teardown_at_most_once(v: BoardView, events: Seq<SessionEvent>)
    ensures
        count_teardowns(replay(v, events).1) + flag_val(replay(v, events).0) == flag_val(v),
        count_teardowns(replay(v, events).1) <= 1,
    decreases events.len(),
{
    if events.len() > 0 {
        let prev = replay(v, events.drop_last());
        lemma_teardown_at_most_once(v, events.drop_last());
        lemma_step_teardown(prev.0, events.last());
        lemma_count_teardowns_add(prev.1, board_step(prev.0, events.last()).1);
    }
}

/// Whether `e` is a move of client `id`.
pub open spec fn is_move_of(e: SessionEvent, id: u64) -> bool {
    match e {
        SessionEvent::Move { id: mid, .. } => mid == id,
        _ => false,
    }
}

/// Whether `e` is a disconnect of client `id`.
pub open spec fn is_disconnect_of(e: SessionEvent, id: u64) -> bool {
    match e {
        SessionEvent::Disconnect { id: mid } => mid == id,
        _ => false,
    }
}

/// Snapshot consistency, delivery side: the first directive of a connect is
/// the snapshot sent to the new client, listing exactly the positions
/// recorded at that instant.
pub proof fn lemma_snapshot_is_positions(v: BoardView, cid: u64)
    ensures
        step_connect(v, cid).1.len() >= 1,
        step_connect(v, cid).1[0] == (DirectiveView::Send {
            to: cid,
            message: ToClientView::ClientList { clients: v.positions },
        }),
{
}

/// Snapshot consistency, history side: a client whose move was processed,
/// with no later move or disconnect of it, is in the recorded positions with
/// exactly that coordinate — so a snapshot taken now cannot omit it.
pub proof fn lemma_move_persists(
    v: BoardView,
    events: Seq<SessionEvent>,
    i: int,
    id: u64,
    x: u32,
    y: u32,
)
    requires
        v.wf(),
        0 <= i < events.len(),
        events[i] == (SessionEvent::Move { id, x, y }),
        forall|j: int|
            i < j < events.len() ==> !is_move_of(events[j], id) && !is_disconnect_of(
                events[j],
                id,
            ),
    ensures
        replay(v, events).0.pos_map().dom().contains(id),
        replay(v, events).0.pos_map()[id] == (Position { x, y }),
    decreases events.len(),
{
    let prev = replay(v, events.drop_last()).0;
    lemma_replay_wf(v, events.drop_last());
    if i == events.len() - 1 {
        assert(events.last() == (SessionEvent::Move { id, x, y }));
        lemma_remove_key(prev.positions, id);
        lemma_to_map_push(remove_key(prev.positions, id), id, Position { x, y });
    } else {
        assert forall|j: int| i < j < events.drop_last().len() implies !is_move_of(
            events.drop_last()[j],
            id,
        ) && !is_disconnect_of(events.drop_last()[j], id) by {
            assert(events.drop_last()[j] == events[j]);
        }
        assert(events.drop_last()[i] == events[i]);
        lemma_move_persists(v, events.drop_last(), i, id, x, y);
        let e = events.last();
        assert(!is_move_of(e, id) && !is_disconnect_of(e, id));
        match e {
            SessionEvent::Connect { .. } => {},
            SessionEvent::Move { id: id2, x: x2, y: y2 } => {
                lemma_remove_key(prev.positions, id2);
                lemma_to_map_push(remove_key(prev.positions, id2), id2, Position { x: x2, y: y2 });
            },
            SessionEvent::Disconnect { id: id2 } => {
                lemma_remove_key(prev.positions, id2);
            },
            SessionEvent::Tick => {},
        }
    }
}

/// Snapshot consistency, history side: a client whose disconnect was
/// processed, with no later move of it, has no recorded position — so a
/// snapshot taken now cannot contain it.
pub proof fn lemma_disconnect_clears(v: BoardView, events: Seq<SessionEvent>, i: int, id: u64)
    requires
        v.wf(),
        0 <= i < events.len(),
        events[i] == (SessionEvent::Disconnect { id }),
        forall|j: int| i < j < events.len() ==> !is_move_of(events[j], id),
    ensures
        !replay(v, events).0.pos_map().dom().contains(id),
    decreases events.len(),
{
    let prev = replay(v, events.drop_last()).0;
    lemma_replay_wf(v, events.drop_last());
    if i == events.len() - 1 {
        assert(events.last() == (SessionEvent::Disconnect { id }));
        lemma_remove_key(prev.positions, id);
    } else {
        assert forall|j: int| i < j < events.drop_last().len() implies !is_move_of(
            events.drop_last()[j],
            id,
        ) by {
            assert(events.drop_last()[j] == events[j]);
        }
        assert(events.drop_last()[i] == events[i]);
        lemma_disconnect_clears(v, events.drop_last(), i, id);
        let e = events.last();
        assert(!is_move_of(e, id));
        match e {
            SessionEvent::Connect { .. } => {},
            SessionEvent::Move { id: id2, x: x2, y: y2 } => {
                lemma_remove_key(prev.positions, id2);
                lemma_to_map_push(remove_key(prev.positions, id2), id2, Position { x: x2, y: y2 });
            },
            SessionEvent::Disconnect { id: id2 } => {
                lemma_remove_key(prev.positions, id2);
            },
            SessionEvent::Tick => {},
        }
    }
}

/// Snapshot consistency: the snapshot a client receives when it connects
/// after a history of events lists exactly the positions as of that instant —
/// it carries the last move of every client not disconnected since, and no
/// entry for a client disconnected and not moved since.
pub proof fn lemma_snapshot_consistency(
    v0: BoardView,
    events: Seq<SessionEvent>,
    i: int,
    id: u64,
    x: u32,
    y: u32,
)
    requires
        v0.wf(),
        0 <= i < events.len(),
    ensures
        (events[i] == (SessionEvent::Move { id, x, y }) && (forall|j: int|
            i < j < events.len() ==> !is_move_of(events[j], id) && !is_disconnect_of(
                events[j],
                id,
            ))) ==> has_key(replay(v0, events).0.positions, id) && replay(
            v0,
            events,
        ).0.pos_map()[id] == (Position { x, y }),
        (events[i] == (SessionEvent::Disconnect { id }) && (forall|j: int|
            i < j < events.len() ==> !is_move_of(events[j], id))) ==> !has_key(
            replay(v0, events).0.positions,
            id,
        ),
{
    let end = replay(v0, events).0;
    if events[i] == (SessionEvent::Move { id, x, y }) && (forall|j: int|
        i < j < events.len() ==> !is_move_of(events[j], id) && !is_disconnect_of(
            events[j],
            id,
        )) {
        lemma_move_persists(v0, events, i, id, x, y);
        crate::assoc::lemma_to_map_contains(end.positions, id);
    }
    if events[i] == (SessionEvent::Disconnect { id }) && (forall|j: int|
        i < j < events.len() ==> !is_move_of(events[j], id)) {
        lemma_disconnect_clears(v0, events, i, id);
        crate::assoc::lemma_to_map_contains(end.positions, id);
    }
}

/// Whether every move in `events` comes from a client attached at the moment
/// the move is processed — true of every history the connection actors can
/// produce, since a connection's `Connect` precedes its moves and its
/// `Disconnect` ends them.
pub open spec fn moves_only_attached(v: BoardView, events: Seq<SessionEvent>) -> bool
    decreases events.len(),
{
    if events.len() == 0 {
        true
    } else {
        moves_only_attached(v, events.drop_last()) && (match events.last() {
            SessionEvent::Move { id, .. } => replay(v, events.drop_last()).0.is_attached(id),
            _ => true,
        })
    }
}

/// A recorded position never outlives its client's attachment: over any
/// history whose moves come from attached clients, every key of `positions`
/// is an attached client — disconnect removes both together.
pub proof fn lemma_positions_subset_clients(v: BoardView, events: Seq<SessionEvent>)
    requires
        v.wf(),
        forall|k: u64| has_key(v.positions, k) ==> v.clients.contains(k),
        moves_only_attached(v, events),
    ensures
        forall|k: u64|
            has_key(replay(v, events).0.positions, k) ==> replay(v, events).0.clients.contains(k),
    decreases events.len(),
{
    if events.len() > 0 {
        let prev = replay(v, events.drop_last()).0;
        let end = replay(v, events).0;
        lemma_positions_subset_clients(v, events.drop_last());
        lemma_replay_wf(v, events.drop_last());
        match events.last() {
            SessionEvent::Connect { id } => {
                assert forall|k: u64| has_key(end.positions, k) implies end.clients.contains(
                    k,
                ) by {
                    assert(prev.clients.contains(k));
                    if !prev.clients.contains(id) {
                        let j = choose|j: int| 0 <= j < prev.clients.len() && prev.clients[j] == k;
                        assert(end.clients[j] == k);
                    }
                }
            },
            SessionEvent::Move { id, x, y } => {
                lemma_remove_key(prev.positions, id);
                lemma_push_fresh_key(remove_key(prev.positions, id), id, Position { x, y });
                assert(prev.is_attached(id));
                assert forall|k: u64| has_key(end.positions, k) implies end.clients.contains(
                    k,
                ) by {
                    if k != id {
                        assert(has_key(remove_key(prev.positions, id), k));
                        assert(has_key(prev.positions, k));
                    }
                }
            },
            SessionEvent::Disconnect { id } => {
                lemma_remove_key(prev.positions, id);
                lemma_remove_id(prev.clients, id);
                assert forall|k: u64| has_key(end.positions, k) implies end.clients.contains(
                    k,
                ) by {
                    assert(has_key(prev.positions, k));
                    assert(k != id);
                    assert(prev.clients.contains(k));
                }
            },
            SessionEvent::Tick => {},
        }
    }
}

/// Idempotent disconnect: after a `Disconnect(id)`, a second `Disconnect(id)`
/// leaves the state unchanged and broadcasts nothing.
pub proof fn lemma_disconnect_idempotent(v: BoardView, id: u64)
    requires
        v.wf(),
    ensures
        step_disconnect(step_disconnect(v, id).0, id).0 == step_disconnect(v, id).0,
        step_disconnect(step_disconnect(v, id).0, id).1 == Seq::<DirectiveView>::empty(),
{
    let v1 = step_disconnect(v, id).0;
    lemma_remove_id(v.clients, id);
    lemma_remove_key(v.positions, id);
    lemma_remove_id_absent(v1.clients, id);
    assert(!has_key(v1.positions, id));
    lemma_remove_key_absent(v1.positions, id);
    assert(step_disconnect(v1, id).0 =~= v1);
}

} // verus!
