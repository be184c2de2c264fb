//! The session registry: the single source of truth mapping a board name to
//! its live session.
//!
//! Creation is on demand and serialized by the caller holding the registry
//! exclusively; an inbound connection for an unknown board fails rather than
//! creating a session; teardown removes the entry. Sessions are designated
//! by tokens the registry mints from a counter that never repeats, so a
//! board recreated after its eviction is a brand-new session, never the old
//! state.

use vstd::prelude::*;

use crate::assoc::{
    has_key, keys_unique, lemma_push_fresh_key, lemma_remove_key, lemma_remove_key_at,
    lemma_to_map_get, remove_key, to_map,
};

verus! {

/// The mathematical state of the registry.
#[verifier::ext_equal]
pub struct RegistryView {
    /// One entry per live board: its name and its session token.
    pub entries: Seq<(Seq<char>, u64)>,
    /// The next session token to mint; every token ever issued is below it.
    pub next_token: u64,
}

impl RegistryView {
    /// Validity: board names are distinct and all stored tokens were minted
    /// from the counter, so none can collide with a future one.
    pub open spec fn wf(self) -> bool {
        keys_unique(self.entries) && forall|i: int|
            0 <= i < self.entries.len() ==> #[trigger] self.entries[i].1 < self.next_token
    }

    /// The live sessions as a map from board name to session token.
    pub open spec fn sessions(self) -> Map<Seq<char>, u64> {
        to_map(self.entries)
    }

    /// Whether a session for `name` is live.
    pub open spec fn has_board(self, name: Seq<char>) -> bool {
        has_key(self.entries, name)
    }
}

/// The state of a freshly built registry.
pub open spec fn empty_registry() -> RegistryView {
    RegistryView { entries: Seq::empty(), next_token: 0 }
}

/// Resolving a name: an existing session is returned as it is; otherwise a
/// fresh token is minted and stored.
pub open spec fn reg_resolve(v: RegistryView, name: Seq<char>) -> (RegistryView, u64, bool) {
    if v.has_board(name) {
        (v, v.sessions()[name], false)
    } else {
        (
            RegistryView {
                entries: v.entries.push((name, v.next_token)),
                next_token: (v.next_token + 1) as u64,
            },
            v.next_token,
            true,
        )
    }
}

/// Removing a name: the entry leaves, the counter stands.
pub open spec fn reg_remove(v: RegistryView, name: Seq<char>) -> (RegistryView, Option<u64>) {
    (
        RegistryView { entries: remove_key(v.entries, name), next_token: v.next_token },
        if v.has_board(name) {
            Some(v.sessions()[name])
        } else {
            Option::<u64>::None
        },
    )
}

/// The registry, keyed by board name.
pub struct Registry {
    entries: Vec<(String, u64)>,
    next_token: u64,
}

/// The view of one entry vector: each name by its character sequence.
pub open spec fn entry_views(s: Seq<(String, u64)>) -> Seq<(Seq<char>, u64)> {
    s.map_values(|e: (String, u64)| (e.0@, e.1))
}

impl View for Registry {
    type V = RegistryView;

    closed spec fn view(&self) -> RegistryView {
        RegistryView { entries: entry_views(self.entries@), next_token: self.next_token }
    }
}

/// The index of the entry for `name`, if there is one.
fn find_entry(entries: &Vec<(String, u64)>, name: &String) -> (r: Option<usize>)
    ensures
        match r {
            Some(i) => i < entries@.len() && entry_views(entries@)[i as int].0 == name@,
            None => !has_key(entry_views(entries@), name@),
        },
{
    let mut i: usize = 0;
    while i < entries.len()
        invariant
            i <= entries.len(),
            forall|j: int| 0 <= j < i ==> entry_views(entries@)[j].0 != name@,
        decreases entries.len() - i,
    {
        if entries[i].0 == *name {
            proof {
                assert(entry_views(entries@)[i as int].0 == entries@[i as int].0@);
            }
            return Some(i);
        }
        proof {
            assert(entry_views(entries@)[i as int].0 == entries@[i as int].0@);
        }
        i += 1;
    }
    proof {
        if has_key(entry_views(entries@), name@) {
            let j = choose|j: int|
                0 <= j < entry_views(entries@).len() && entry_views(entries@)[j].0 == name@;
            assert(entry_views(entries@)[j].0 != name@);
        }
    }
    None
}

/// Taking views commutes with removing an entry.
proof fn lemma_entry_views_remove(s: Seq<(String, u64)>, i: int)
    requires
        0 <= i < s.len(),
    ensures
        entry_views(s.remove(i)) == entry_views(s).remove(i),
{
    assert(entry_views(s.remove(i)) =~= entry_views(s).remove(i));
}

/// Taking views commutes with appending an entry.
proof fn lemma_entry_views_push(s: Seq<(String, u64)>, e: (String, u64))
    ensures
        entry_views(s.push(e)) == entry_views(s).push((e.0@, e.1)),
{
    assert(entry_views(s.push(e)) =~= entry_views(s).push((e.0@, e.1)));
}

impl Registry {
    /// A fresh registry with no live sessions.
    pub fn new() -> (r: Registry)
        ensures
            r@ == empty_registry(),
            r@.wf(),
    {
        let r = Registry { entries: Vec::new(), next_token: 0 };
        proof {
            assert(entry_views(Seq::empty()) =~= Seq::<(Seq<char>, u64)>::empty());
        }
        r
    }

    /// Whether a further session token can be minted. Exhausting the 64-bit
    /// counter is out of reach in practice, but resolving demands it.
    pub fn can_mint(&self) -> (b: bool)
        ensures
            b == (self@.next_token < u64::MAX),
    {
        self.next_token < u64::MAX
    }

    /// Look `name` up; if no session is live for it, create one: store and
    /// return a fresh token. The boolean says whether a session was created.
    pub fn resolve_or_create(&mut self, name: &String) -> (r: (u64, bool))
        requires
            old(self)@.wf(),
            old(self)@.next_token < u64::MAX,
        ensures
            final(self)@ == reg_resolve(old(self)@, name@).0,
            r.0 == reg_resolve(old(self)@, name@).1,
            r.1 == reg_resolve(old(self)@, name@).2,
            final(self)@.wf(),
    {
        match find_entry(&self.entries, name) {
            Some(i) => {
                let token = self.entries[i].1;
                proof {
                    assert(entry_views(self.entries@)[i as int].1 == self.entries@[i as int].1);
                    lemma_to_map_get(entry_views(self.entries@), i as int);
                    assert(self@.has_board(name@));
                }
                (token, false)
            },
            None => {
                let token = self.next_token;
                self.entries.push((name.clone(), token));
                self.next_token = self.next_token + 1;
                proof {
                    assert(self.entries@ == old(self).entries@.push((*name, token)));
                    lemma_entry_views_push(old(self).entries@, (*name, token));
                    lemma_push_fresh_key(entry_views(old(self).entries@), name@, token);
                    assert forall|i: int| 0 <= i < self@.entries.len()
                        implies #[trigger] self@.entries[i].1 < self@.next_token by {
                        if i < old(self)@.entries.len() {
                            assert(self@.entries[i] == old(self)@.entries[i]);
                        } else {
                            assert(self@.entries[i].1 == token);
                        }
                    }
                }
                (token, true)
            },
        }
    }

    /// Look `name` up for an inbound connection: its session token, or
    /// nothing — an unknown or already-evicted board must fail here, never
    /// create a session.
    pub fn route_connection(&self, name: &String) -> (r: Option<u64>)
        requires
            self@.wf(),
        ensures
            r == (if self@.has_board(name@) {
                Some(self@.sessions()[name@])
            } else {
                Option::<u64>::None
            }),
    {
        match find_entry(&self.entries, name) {
            Some(i) => {
                proof {
                    assert(entry_views(self.entries@)[i as int].1 == self.entries@[i as int].1);
                    lemma_to_map_get(entry_views(self.entries@), i as int);
                }
                Some(self.entries[i].1)
            },
            None => None,
        }
    }

    /// Remove the entry for `name` as part of its session's teardown,
    /// returning the token of the evicted session if one was live.
    pub fn remove(&mut self, name: &String) -> (r: Option<u64>)
        requires
            old(self)@.wf(),
        ensures
            final(self)@ == reg_remove(old(self)@, name@).0,
            r == reg_remove(old(self)@, name@).1,
            final(self)@.wf(),
    {
        match find_entry(&self.entries, name) {
            Some(i) => {
                let token = self.entries[i].1;
                proof {
                    assert(entry_views(self.entries@)[i as int].1 == self.entries@[i as int].1);
                    lemma_to_map_get(entry_views(self.entries@), i as int);
                    lemma_remove_key_at(entry_views(self.entries@), i as int);
                    lemma_entry_views_remove(self.entries@, i as int);
                    lemma_remove_key(entry_views(self.entries@), name@);
                }
                self.entries.remove(i);
                proof {
                    assert forall|j: int| 0 <= j < self@.entries.len()
                        implies #[trigger] self@.entries[j].1 < self@.next_token by {
                        if j < i {
                            assert(self@.entries[j] == old(self)@.entries[j]);
                        } else {
                            assert(self@.entries[j] == old(self)@.entries[j + 1]);
                        }
                    }
                }
                Some(token)
            },
            None => {
                proof {
                    crate::assoc::lemma_remove_key_absent(entry_views(self.entries@), name@);
                }
                None
            },
        }
    }
}

/// Exactly-once eviction, registry side: once a board's entry is removed, a
/// later resolve of the same name creates a brand-new session, whose token
/// differs from that of every session the registry ever held — in
/// particular from the evicted one.
pub proof fn lemma_eviction_yields_fresh_session(v: RegistryView, name: Seq<char>)
    requires
        v.wf(),
        v.has_board(name),
    ensures
        reg_remove(v, name).1 == Some(v.sessions()[name]),
        reg_resolve(reg_remove(v, name).0, name).2,
        reg_resolve(reg_remove(v, name).0, name).1 != v.sessions()[name],
{
    let i = choose|i: int| 0 <= i < v.entries.len() && v.entries[i].0 == name;
    lemma_to_map_get(v.entries, i);
    lemma_remove_key(v.entries, name);
    let v1 = reg_remove(v, name).0;
    assert(!v1.has_board(name));
    assert(v.sessions()[name] == v.entries[i].1);
    assert(v.entries[i].1 < v.next_token);
}

} // verus!
