//! The board directory: the naming layer's cache of board name to board URL.
//!
//! A board URL is requested by name; a cached entry is returned as it is,
//! and a freshly created board's URL is recorded under its name. When a
//! session reports its eviction, the name is dropped so that the next
//! request creates the board anew.

use vstd::prelude::*;

use crate::assoc::{
    has_key, keys_unique, lemma_push_fresh_key, lemma_remove_key, lemma_remove_key_absent,
    lemma_remove_key_at, lemma_to_map_get, remove_key, to_map,
};

verus! {

/// The mathematical state of the directory: board names mapped to the URLs
/// handed out for them.
#[verifier::ext_equal]
pub struct DirectoryView {
    pub entries: Seq<(Seq<char>, Seq<char>)>,
}

impl DirectoryView {
    /// Validity: board names are distinct.
    pub open spec fn wf(self) -> bool {
        keys_unique(self.entries)
    }

    /// The directory as a map from board name to URL.
    pub open spec fn urls(self) -> Map<Seq<char>, Seq<char>> {
        to_map(self.entries)
    }

    /// Whether a URL is recorded for `name`.
    pub open spec fn has_name(self, name: Seq<char>) -> bool {
        has_key(self.entries, name)
    }
}

/// The directory, keyed by board name.
pub struct BoardDirectory {
    entries: Vec<(String, String)>,
}

/// The view of one entry vector: names and URLs by their character
/// sequences.
pub open spec fn url_views(s: Seq<(String, String)>) -> Seq<(Seq<char>, Seq<char>)> {
    s.map_values(|e: (String, String)| (e.0@, e.1@))
}

impl View for BoardDirectory {
    type V = DirectoryView;

    closed spec fn view(&self) -> DirectoryView {
        DirectoryView { entries: url_views(self.entries@) }
    }
}

/// The index of the entry for `name`, if there is one.
fn find_url(entries: &Vec<(String, String)>, name: &String) -> (r: Option<usize>)
    ensures
        match r {
            Some(i) => i < entries@.len() && url_views(entries@)[i as int].0 == name@,
            None => !has_key(url_views(entries@), name@),
        },
{
    let mut i: usize = 0;
    while i < entries.len()
        invariant
            i <= entries.len(),
            forall|j: int| 0 <= j < i ==> url_views(entries@)[j].0 != name@,
        decreases entries.len() - i,
    {
        if entries[i].0 == *name {
            proof {
                assert(url_views(entries@)[i as int].0 == entries@[i as int].0@);
            }
            return Some(i);
        }
        proof {
            assert(url_views(entries@)[i as int].0 == entries@[i as int].0@);
        }
        i += 1;
    }
    proof {
        if has_key(url_views(entries@), name@) {
            let j = choose|j: int|
                0 <= j < url_views(entries@).len() && url_views(entries@)[j].0 == name@;
            assert(url_views(entries@)[j].0 != name@);
        }
    }
    None
}

impl BoardDirectory {
    /// A fresh directory with no boards recorded.
    pub fn new() -> (r: BoardDirectory)
        ensures
            r@.entries == Seq::<(Seq<char>, Seq<char>)>::empty(),
            r@.wf(),
    {
        let r = BoardDirectory { entries: Vec::new() };
        proof {
            assert(url_views(Seq::empty()) =~= Seq::<(Seq<char>, Seq<char>)>::empty());
        }
        r
    }

    /// The URL recorded for `name`, if one is.
    pub fn lookup(&self, name: &String) -> (r: Option<String>)
        requires
            self@.wf(),
        ensures
            r is Some <==> self@.has_name(name@),
            r matches Some(url) ==> url@ == self@.urls()[name@],
    {
        match find_url(&self.entries, name) {
            Some(i) => {
                proof {
                    assert(url_views(self.entries@)[i as int].1 == self.entries@[i as int].1@);
                    lemma_to_map_get(url_views(self.entries@), i as int);
                }
                Some(self.entries[i].1.clone())
            },
            None => None,
        }
    }

    /// Record the URL created for a board that had none: from now on `name`
    /// maps to `url`.
    pub fn record(&mut self, name: &String, url: &String)
        requires
            old(self)@.wf(),
            !old(self)@.has_name(name@),
        ensures
            final(self)@.entries == old(self)@.entries.push((name@, url@)),
            final(self)@.wf(),
    {
        self.entries.push((name.clone(), url.clone()));
        proof {
            assert(self.entries@ == old(self).entries@.push((*name, *url)));
            assert(url_views(self.entries@) =~= url_views(old(self).entries@).push((name@, url@)));
            lemma_push_fresh_key(url_views(old(self).entries@), name@, url@);
        }
    }

    /// Drop the entry for `name` after its board's eviction, so that the
    /// next request for it creates the board anew.
    pub fn remove(&mut self, name: &String)
        requires
            old(self)@.wf(),
        ensures
            final(self)@.entries == remove_key(old(self)@.entries, name@),
            final(self)@.wf(),
    {
        match find_url(&self.entries, name) {
            Some(i) => {
                proof {
                    lemma_remove_key_at(url_views(self.entries@), i as int);
                    assert(url_views(self.entries@.remove(i as int)) =~= url_views(
                        self.entries@,
                    ).remove(i as int));
                    lemma_remove_key(url_views(self.entries@), name@);
                }
                self.entries.remove(i);
            },
            None => {
                proof {
                    lemma_remove_key_absent(url_views(self.entries@), name@);
                }
            },
        }
    }
}

} // verus!
