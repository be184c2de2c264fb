//! Association sequences: the mathematical model shared by every keyed
//! collection in this crate.
//!
//! A board's positions, the registry's sessions and the board directory all
//! hold their entries as a vector of key/value pairs with pairwise-distinct
//! keys. Their contracts speak of such a vector through `to_map`, and the
//! lemmas here relate the sequence-level edits the executable code performs
//! (push, remove) to the map-level edits the contracts state.

use vstd::prelude::*;

verus! {

/// Whether some entry of `s` carries the key `k`.
pub open spec fn has_key<K, V>(s: Seq<(K, V)>, k: K) -> bool {
    exists|i: int| 0 <= i < s.len() && s[i].0 == k
}

/// The keys of `s` are pairwise distinct.
pub open spec fn keys_unique<K, V>(s: Seq<(K, V)>) -> bool {
    forall|i: int, j: int| 0 <= i < j < s.len() ==> s[i].0 != s[j].0
}

/// The finite map described by an association sequence; a later entry for a
/// key overrides an earlier one, though under `keys_unique` that never
/// happens.
pub open spec fn to_map<K, V>(s: Seq<(K, V)>) -> Map<K, V>
    decreases s.len(),
{
    if s.len() == 0 {
        Map::empty()
    } else {
        to_map(s.drop_last()).insert(s.last().0, s.last().1)
    }
}

/// `s` with every entry for key `k` removed; the other entries keep their
/// order.
pub open spec fn remove_key<K, V>(s: Seq<(K, V)>, k: K) -> Seq<(K, V)>
    decreases s.len(),
{
    if s.len() == 0 {
        Seq::empty()
    } else {
        let rest = remove_key(s.drop_last(), k);
        if s.last().0 == k {
            rest
        } else {
            rest.push(s.last())
        }
    }
}

/// Appending an entry inserts its binding into the described map.
pub proof fn lemma_to_map_push<K, V>(s: Seq<(K, V)>, k: K, v: V)
    ensures
        to_map(s.push((k, v))) == to_map(s).insert(k, v),
{
    assert(s.push((k, v)).drop_last() =~= s);
}

/// A key is in the described map's domain exactly when some entry carries it.
pub proof fn lemma_to_map_contains<K, V>(s: Seq<(K, V)>, k: K)
    ensures
        to_map(s).dom().contains(k) <==> has_key(s, k),
    decreases s.len(),
{
    if s.len() > 0 {
        lemma_to_map_contains(s.drop_last(), k);
        if has_key(s.drop_last(), k) {
            let i = choose|i: int| 0 <= i < s.drop_last().len() && s.drop_last()[i].0 == k;
            assert(s[i].0 == k);
        }
        if has_key(s, k) && s.last().0 != k {
            let i = choose|i: int| 0 <= i < s.len() && s[i].0 == k;
            assert(s.drop_last()[i].0 == k);
        }
    }
}

/// With distinct keys, the entry found at any index gives the map's value for
/// its key.
pub proof fn lemma_to_map_get<K, V>(s: Seq<(K, V)>, i: int)
    requires
        keys_unique(s),
        0 <= i < s.len(),
    ensures
        to_map(s).dom().contains(s[i].0),
        to_map(s)[s[i].0] == s[i].1,
    decreases s.len(),
{
    if i == s.len() - 1 {
        lemma_to_map_contains(s, s[i].0);
    } else {
        lemma_to_map_get(s.drop_last(), i);
        assert(s.drop_last()[i] == s[i]);
    }
}

/// Removing a key removes exactly its binding: distinctness is kept, the
/// described map loses `k` and nothing else, and every other key keeps its
/// entry.
pub proof fn lemma_remove_key<K, V>(s: Seq<(K, V)>, k: K)
    requires
        keys_unique(s),
    ensures
        keys_unique(remove_key(s, k)),
        to_map(remove_key(s, k)) == to_map(s).remove(k),
        !has_key(remove_key(s, k), k),
        forall|k2: K| k2 != k ==> (has_key(remove_key(s, k), k2) <==> has_key(s, k2)),
        remove_key(s, k).len() <= s.len(),
    decreases s.len(),
{
    if s.len() == 0 {
        assert(to_map(remove_key(s, k)) =~= to_map(s).remove(k));
    } else {
        let s0 = s.drop_last();
        assert forall|i: int, j: int| 0 <= i < j < s0.len() implies s0[i].0 != s0[j].0 by {
            assert(s0[i] == s[i] && s0[j] == s[j]);
        }
        lemma_remove_key(s0, k);
        lemma_has_key_drop_last(s, k);
        let rest = remove_key(s0, k);
        if s.last().0 == k {
            assert(to_map(s).remove(k) =~= to_map(s0).remove(k));
            assert forall|k2: K| k2 != k implies (has_key(rest, k2) <==> has_key(s, k2)) by {
                if has_key(rest, k2) {
                    assert(has_key(s0, k2));
                }
                if has_key(s, k2) {
                    assert(has_key(s0, k2));
                    assert(has_key(rest, k2));
                }
            }
        } else {
            let t = rest.push(s.last());
            lemma_to_map_push(rest, s.last().0, s.last().1);
            assert(to_map(s0).remove(k).insert(s.last().0, s.last().1)
                =~= to_map(s0).insert(s.last().0, s.last().1).remove(k));
            assert(!has_key(s0, s.last().0)) by {
                if has_key(s0, s.last().0) {
                    let i = choose|i: int| 0 <= i < s0.len() && s0[i].0 == s.last().0;
                    assert(s[i].0 == s[s.len() - 1].0);
                }
            }
            assert forall|i: int, j: int| 0 <= i < j < t.len() implies t[i].0 != t[j].0 by {
                if j == rest.len() as int {
                    assert(t[i] == rest[i]);
                    if rest[i].0 == s.last().0 {
                        assert(has_key(rest, s.last().0));
                    }
                } else {
                    assert(t[i] == rest[i] && t[j] == rest[j]);
                }
            }
            assert(!has_key(t, k)) by {
                if has_key(t, k) {
                    let i = choose|i: int| 0 <= i < t.len() && t[i].0 == k;
                    if i < rest.len() {
                        assert(rest[i].0 == k);
                        assert(has_key(rest, k));
                    } else {
                        assert(t[i].0 == s.last().0);
                    }
                }
            }
            assert forall|k2: K| k2 != k implies (has_key(t, k2) <==> has_key(s, k2)) by {
                if has_key(t, k2) {
                    let i = choose|i: int| 0 <= i < t.len() && t[i].0 == k2;
                    if i < rest.len() {
                        assert(rest[i].0 == k2);
                        assert(has_key(rest, k2));
                        assert(has_key(s0, k2));
                    } else {
                        assert(s[s.len() - 1].0 == k2);
                    }
                }
                if has_key(s, k2) {
                    if k2 == s.last().0 {
                        assert(t[rest.len() as int].0 == k2);
                    } else {
                        assert(has_key(s0, k2));
                        assert(has_key(rest, k2));
                        let i = choose|i: int| 0 <= i < rest.len() && rest[i].0 == k2;
                        assert(t[i].0 == k2);
                    }
                }
            }
        }
    }
}

/// Membership of a key other than `k` is unaffected by the last entry when
/// that entry is the only place the sequence is shortened.
proof fn lemma_has_key_drop_last<K, V>(s: Seq<(K, V)>, k: K)
    requires
        s.len() > 0,
    ensures
        forall|k2: K| #[trigger] has_key(s.drop_last(), k2) ==> has_key(s, k2),
        forall|k2: K| k2 != s.last().0 && #[trigger] has_key(s, k2) ==> has_key(s.drop_last(), k2),
{
    assert forall|k2: K| #[trigger] has_key(s.drop_last(), k2) implies has_key(s, k2) by {
        let i = choose|i: int| 0 <= i < s.drop_last().len() && s.drop_last()[i].0 == k2;
        assert(s[i].0 == k2);
    }
    assert forall|k2: K| k2 != s.last().0 && #[trigger] has_key(s, k2)
        implies has_key(s.drop_last(), k2) by {
        let i = choose|i: int| 0 <= i < s.len() && s[i].0 == k2;
        assert(s[s.len() - 1] == s.last());
        assert(s.drop_last()[i].0 == k2);
    }
}

/// Removing a key that no entry carries changes nothing.
pub proof fn lemma_remove_key_absent<K, V>(s: Seq<(K, V)>, k: K)
    requires
        !has_key(s, k),
    ensures
        remove_key(s, k) == s,
    decreases s.len(),
{
    if s.len() > 0 {
        assert(!has_key(s.drop_last(), k)) by {
            if has_key(s.drop_last(), k) {
                let i = choose|i: int| 0 <= i < s.drop_last().len() && s.drop_last()[i].0 == k;
                assert(s[i].0 == k);
            }
        }
        lemma_remove_key_absent(s.drop_last(), k);
        assert(s.last().0 != k) by {
            assert(s[s.len() - 1] == s.last());
        }
        assert(s.drop_last().push(s.last()) =~= s);
    }
}

/// Removing the key of the entry found at an index removes exactly that
/// entry.
pub proof fn lemma_remove_key_at<K, V>(s: Seq<(K, V)>, i: int)
    requires
        keys_unique(s),
        0 <= i < s.len(),
    ensures
        remove_key(s, s[i].0) == s.remove(i),
    decreases s.len(),
{
    let k = s[i].0;
    if i == s.len() - 1 {
        assert(!has_key(s.drop_last(), k)) by {
            if has_key(s.drop_last(), k) {
                let j = choose|j: int| 0 <= j < s.drop_last().len() && s.drop_last()[j].0 == k;
                assert(s[j].0 == s[i].0);
            }
        }
        lemma_remove_key_absent(s.drop_last(), k);
        assert(s.last().0 == k);
        assert(s.remove(i) =~= s.drop_last());
    } else {
        let s0 = s.drop_last();
        assert forall|a: int, b: int| 0 <= a < b < s0.len() implies s0[a].0 != s0[b].0 by {
            assert(s0[a] == s[a] && s0[b] == s[b]);
        }
        assert(s0[i] == s[i]);
        lemma_remove_key_at(s0, i);
        assert(s.last().0 != k) by {
            assert(s[s.len() - 1] == s.last());
        }
        assert(s0.remove(i).push(s.last()) =~= s.remove(i));
    }
}

/// Appending an entry under a fresh key keeps the keys distinct.
pub proof fn lemma_push_fresh_key<K, V>(s: Seq<(K, V)>, k: K, v: V)
    requires
        keys_unique(s),
        !has_key(s, k),
    ensures
        keys_unique(s.push((k, v))),
        has_key(s.push((k, v)), k),
        forall|k2: K| k2 != k ==> (has_key(s.push((k, v)), k2) <==> has_key(s, k2)),
{
    let t = s.push((k, v));
    assert forall|i: int, j: int| 0 <= i < j < t.len() implies t[i].0 != t[j].0 by {
        if j == s.len() as int {
            assert(t[i] == s[i]);
            if t[i].0 == k {
                assert(has_key(s, k));
            }
        } else {
            assert(t[i] == s[i] && t[j] == s[j]);
        }
    }
    assert(t[s.len() as int].0 == k);
    assert forall|k2: K| k2 != k implies (has_key(t, k2) <==> has_key(s, k2)) by {
        if has_key(t, k2) {
            let i = choose|i: int| 0 <= i < t.len() && t[i].0 == k2;
            assert(i < s.len() && s[i].0 == k2);
        }
        if has_key(s, k2) {
            let i = choose|i: int| 0 <= i < s.len() && s[i].0 == k2;
            assert(t[i].0 == k2);
        }
    }
}

} // verus!
