//! Storage for query matches: lists of queries keyed by their number,
//! with a cap on how many queries one key may hold.

use std::collections::HashMap;
use vstd::prelude::*;

verus! {

/// The default cap on queries per key.
pub const MAX_MATCHES_PER_ENTRY: usize = 33;

/// Lists of queries keyed by their shared number.
pub struct Matches {
    matches: HashMap<i32, Vec<String>>,
    max: usize,
}

impl Matches {
    /// The stored map.
    pub closed spec fn map_m(self) -> Map<i32, Seq<Seq<char>>> {
        self.matches@.map_values(|v: Vec<String>| v.deep_view())
    }

    /// The cap on queries per key.
    pub closed spec fn max_m(self) -> int {
        self.max as int
    }

    /// Wraps an existing map with a cap.
    pub fn new(max: usize, matches: HashMap<i32, Vec<String>>) -> (r: Self)
        ensures
            r.map_m() == matches@.map_values(|v: Vec<String>| v.deep_view()),
            r.max_m() == max,
    {
        Matches { matches, max }
    }

    /// The whole map, or nothing while it is empty.
    pub fn all(&self) -> (r: Option<&HashMap<i32, Vec<String>>>)
        ensures
            self.map_m().is_empty() ==> r is None,
            !self.map_m().is_empty() ==> (r matches Some(m) && m@.map_values(
                |v: Vec<String>| v.deep_view(),
            ) == self.map_m()),
    {
        proof {
            assert(self.map_m().dom() =~= self.matches@.dom());
        }
        if self.matches.is_empty() {
            return None;
        }
        Some(&self.matches)
    }

    /// The queries stored under a key, if any are.
    pub fn get(&self, key: i32) -> (r: Option<&Vec<String>>)
        ensures
            self.map_m().contains_key(key) ==> (r matches Some(v) && v.deep_view()
                == self.map_m()[key]),
            !self.map_m().contains_key(key) ==> r is None,
    {
        if self.matches.contains_key(&key) {
            return self.matches.get(&key);
        }
        None
    }

    /// Adds queries under a key: a fresh key takes them as they are, a key
    /// already filled to the cap keeps what it has, and any other key has
    /// them appended.
    pub fn save(&mut self, key: i32, matches: Vec<String>)
        ensures
            !old(self).map_m().contains_key(key) ==> final(self).map_m() == old(
                self,
            ).map_m().insert(key, matches.deep_view()),
            old(self).map_m().contains_key(key) && old(self).map_m()[key].len() == old(
                self,
            ).max_m() ==> *final(self) == *old(self),
            old(self).map_m().contains_key(key) && old(self).map_m()[key].len() != old(
                self,
            ).max_m() ==> final(self).map_m() == old(self).map_m().insert(
                key,
                old(self).map_m()[key].add(matches.deep_view()),
            ),
            final(self).max_m() == old(self).max_m(),
    {
        proof {
            broadcast use vstd::std_specs::hash::group_hash_axioms;

        }
        if !self.matches.contains_key(&key) {
            let ghost mv = matches.deep_view();
            self.matches.insert(key, matches);
            proof {
                assert(self.map_m() =~= old(self).map_m().insert(key, mv));
            }
            return ;
        }
        let cur_len = match self.matches.get(&key) {
            Some(v) => v.len(),
            None => 0,
        };
        if cur_len == self.max {
            return ;
        }
        let mut merged: Vec<String> = match self.matches.remove(&key) {
            Some(v) => v,
            None => Vec::new(),
        };
        let ghost base = merged.deep_view();
        let mut incoming = matches;
        let ghost mv = incoming.deep_view();
        merged.append(&mut incoming);
        proof {
            assert(merged.deep_view() =~= base.add(mv));
        }
        self.matches.insert(key, merged);
        proof {
            assert(self.map_m() =~= old(self).map_m().insert(
                key,
                old(self).map_m()[key].add(mv),
            ));
        }
    }
}

} // verus!
