//! Query history: a bounded queue of (number, query) pairs with a movable
//! index for stepping back and forth, and a digest of the queries that
//! share a number.

use crate::text::eq_str;
use vstd::prelude::*;
use vstd::multiset::Multiset;
use vstd::relations::sorted_by;

verus! {

broadcast use vstd::std_specs::hash::group_hash_axioms;

/// The stored history and the index the prompt is looking at. The queue
/// keeps at most `max` entries; saving to a full queue drops the oldest.
pub struct History {
    history: std::collections::VecDeque<(i32, String)>,
    index: usize,
    max: usize,
}

/// The capacity the history is created with.
pub const MAXHISTORY: usize = 100;

impl History {
    /// The stored entries: each query with its number, oldest first.
    pub closed spec fn hist_m(self) -> Seq<(i32, Seq<char>)> {
        self.history@.map_values(|e: (i32, String)| (e.0, e.1@))
    }

    /// The current index.
    pub closed spec fn index_m(self) -> int {
        self.index as int
    }

    /// The bound on how many entries are kept.
    pub closed spec fn max_m(self) -> int {
        self.max as int
    }
}

impl Default for History {
    /// An empty history with the standard capacity.
    fn default() -> (r: History)
        ensures
            r.hist_m() == Seq::<(i32, Seq<char>)>::empty(),
            r.index_m() == 0,
            r.max_m() == MAXHISTORY,
    {
        let r = History {
            history: std::collections::VecDeque::new(),
            index: 0,
            max: MAXHISTORY,
        };
        proof {
            assert(r.hist_m() =~= Seq::<(i32, Seq<char>)>::empty());
        }
        r
    }
}

impl History {
    /// The query at the index, while the index points at an entry.
    pub fn current_query(&self) -> (r: Option<&str>)
        ensures
            self.index_m() < self.hist_m().len() ==> (r matches Some(s) && s@ == self.hist_m()[self.index_m()].1),
            self.index_m() >= self.hist_m().len() ==> r is None,
    {
        if self.index < self.history.len() {
            Some(self.history[self.index].1.as_str())
        } else {
            None
        }
    }

    /// The number at the index, while the index points at an entry.
    pub fn current_number(&self) -> (r: Option<i32>)
        ensures
            self.index_m() < self.hist_m().len() ==> (r matches Some(x) && x == self.hist_m()[self.index_m()].0),
            self.index_m() >= self.hist_m().len() ==> r is None,
    {
        if self.index < self.history.len() {
            Some(self.history[self.index].0)
        } else {
            None
        }
    }

    /// Appends an entry, dropping the oldest when the history stands at
    /// its bound, and parks the index one past the newest entry.
    pub fn save(&mut self, entry: (i32, String))
        ensures
            final(self).hist_m() == (if old(self).hist_m().len() == old(self).max_m() && old(
                self,
            ).hist_m().len() > 0 {
                old(self).hist_m().drop_first()
            } else {
                old(self).hist_m()
            }).push((entry.0, entry.1@)),
            final(self).index_m() == final(self).hist_m().len(),
            final(self).max_m() == old(self).max_m(),
    {
        let ghost e_m = (entry.0, entry.1@);
        if self.history.len() == self.max {
            self.history.pop_front();
        }
        proof {
            if old(self).hist_m().len() == old(self).max_m() && old(self).hist_m().len() > 0 {
                assert(self.hist_m() =~= old(self).hist_m().drop_first());
            }
        }
        let ghost mid = self.hist_m();
        self.history.push_back(entry);
        self.index = self.history.len();
        proof {
            assert(self.hist_m() =~= mid.push(e_m));
        }
    }

    /// Steps the index one entry back, stopping at the oldest.
    pub fn up(&mut self)
        ensures
            final(self).hist_m() == old(self).hist_m(),
            final(self).max_m() == old(self).max_m(),
            final(self).index_m() == (if old(self).index_m() > 0 {
                old(self).index_m() - 1
            } else {
                0
            }),
    {
        if self.index > 0 {
            self.index = self.index - 1;
        }
    }

    /// Steps the index one entry forward, stopping one past the newest.
    pub fn down(&mut self)
        ensures
            final(self).hist_m() == old(self).hist_m(),
            final(self).max_m() == old(self).max_m(),
            final(self).index_m() == (if old(self).index_m() + 1 < old(self).hist_m().len() {
                old(self).index_m() + 1
            } else {
                old(self).hist_m().len() as int
            }),
    {
        let n = self.history.len();
        let next = if self.index < usize::MAX {
            self.index + 1
        } else {
            self.index
        };
        self.index = if n < next {
            n
        } else {
            next
        };
    }
}

/// Lexicographic order on character sequences, strict: the shorter prefix
/// comes first, otherwise the first differing character decides.
pub open spec fn lex_lt(a: Seq<char>, b: Seq<char>) -> bool
    decreases a.len(),
{
    if b.len() == 0 {
        false
    } else if a.len() == 0 {
        true
    } else if a[0] != b[0] {
        a[0] < b[0]
    } else {
        lex_lt(a.drop_first(), b.drop_first())
    }
}

/// Lexicographic order, allowing equality.
pub open spec fn lex_le() -> spec_fn(Seq<char>, Seq<char>) -> bool {
    |a: Seq<char>, b: Seq<char>| a == b || lex_lt(a, b)
}

/// Exactly one of: the first is smaller, the second is smaller, they are
/// equal.
proof fn lemma_lex_trichotomy(a: Seq<char>, b: Seq<char>)
    ensures
        lex_lt(a, b) || lex_lt(b, a) || a == b,
        lex_lt(a, b) ==> !lex_lt(b, a) && a != b,
    decreases a.len() + b.len(),
{
    if a.len() > 0 && b.len() > 0 && a[0] == b[0] {
        lemma_lex_trichotomy(a.drop_first(), b.drop_first());
        if a.drop_first() == b.drop_first() {
            assert forall|i: int| 0 <= i < a.len() implies a[i] == b[i] by {
                if i > 0 {
                    assert(a.drop_first()[i - 1] == b.drop_first()[i - 1]);
                }
            }
            assert(a =~= b);
        }
    } else if a.len() == 0 && b.len() == 0 {
        assert(a =~= b);
    }
}

/// The strict order chains.
proof fn lemma_lex_trans(a: Seq<char>, b: Seq<char>, c: Seq<char>)
    requires
        lex_lt(a, b),
        lex_lt(b, c),
    ensures
        lex_lt(a, c),
    decreases a.len() + b.len() + c.len(),
{
    if a.len() > 0 && b.len() > 0 && c.len() > 0 && a[0] == b[0] && b[0] == c[0] {
        lemma_lex_trans(a.drop_first(), b.drop_first(), c.drop_first());
    }
}

/// Whether two characters order two strings.
fn str_lt(a: &str, b: &str) -> (r: bool)
    ensures
        r == lex_lt(a@, b@),
{
    let na = a.unicode_len();
    let nb = b.unicode_len();
    let mut i: usize = 0;
    proof {
        assert(a@.skip(0) =~= a@);
        assert(b@.skip(0) =~= b@);
    }
    while i < na && i < nb
        invariant
            na == a@.len(),
            nb == b@.len(),
            i <= na,
            i <= nb,
            forall|j: int| 0 <= j < i ==> a@[j] == b@[j],
            lex_lt(a@, b@) == lex_lt(a@.skip(i as int), b@.skip(i as int)),
        decreases na - i,
    {
        let ca = a.get_char(i);
        let cb = b.get_char(i);
        proof {
            assert(a@.skip(i as int).drop_first() =~= a@.skip(i + 1));
            assert(b@.skip(i as int).drop_first() =~= b@.skip(i + 1));
        }
        if ca != cb {
            return ca < cb;
        }
        i = i + 1;
    }
    proof {
        if i >= na {
            assert(a@.skip(i as int).len() == 0);
        } else {
            assert(b@.skip(i as int).len() == 0);
        }
    }
    na < nb
}

/// Sorts words into ascending lexicographic order, keeping every copy.
#[verifier::loop_isolation(false)]
fn sort_strings(v: Vec<String>) -> (r: Vec<String>)
    ensures
        sorted_by(r.deep_view(), lex_le()),
        r.deep_view().to_multiset() == v.deep_view().to_multiset(),
{
    broadcast use vstd::seq_lib::group_to_multiset_ensures;

    let mut rest = v;
    let mut out: Vec<String> = Vec::new();
    proof {
        assert(out.deep_view() =~~= Seq::<Seq<char>>::empty());
        assert(out.deep_view().to_multiset().add(rest.deep_view().to_multiset())
            =~= v.deep_view().to_multiset());
    }
    while rest.len() > 0
        invariant
            out.deep_view().to_multiset().add(rest.deep_view().to_multiset())
                == v.deep_view().to_multiset(),
            sorted_by(out.deep_view(), lex_le()),
            forall|o: int, w: int|
                0 <= o < out.deep_view().len() && 0 <= w < rest.deep_view().len() ==> lex_le()(
                    #[trigger] out.deep_view()[o],
                    #[trigger] rest.deep_view()[w],
                ),
        decreases rest.len(),
    {
        let n = rest.len();
        let mut imin: usize = 0;
        let mut j: usize = 1;
        while j < n
            invariant
                n == rest@.len(),
                imin < j <= n,
                forall|t: int|
                    0 <= t < j ==> lex_le()(
                        rest.deep_view()[imin as int],
                        #[trigger] rest.deep_view()[t],
                    ),
            decreases n - j,
        {
            if str_lt(rest[j].as_str(), rest[imin].as_str()) {
                proof {
                    let dv = rest.deep_view();
                    lemma_lex_trichotomy(dv[j as int], dv[imin as int]);
                    assert forall|t: int| 0 <= t < j + 1 implies lex_le()(
                        dv[j as int],
                        #[trigger] dv[t],
                    ) by {
                        if t < j {
                            if dv[imin as int] == dv[t] {
                            } else {
                                lemma_lex_trans(dv[j as int], dv[imin as int], dv[t]);
                            }
                        } else {
                            lemma_lex_trichotomy(dv[j as int], dv[t]);
                        }
                    }
                }
                imin = j;
            } else {
                proof {
                    let dv = rest.deep_view();
                    lemma_lex_trichotomy(dv[j as int], dv[imin as int]);
                }
            }
            j = j + 1;
        }
        let ghost rest_before = rest.deep_view();
        let ghost out_before = out.deep_view();
        let x = rest.remove(imin);
        out.push(x);
        proof {
            assert(rest.deep_view() =~~= rest_before.remove(imin as int));
            assert(out.deep_view() =~~= out_before.push(rest_before[imin as int]));
            assert(rest_before.remove(imin as int).to_multiset() =~= rest_before.to_multiset()
                .remove(rest_before[imin as int]));
            assert(out_before.push(rest_before[imin as int]).to_multiset()
                =~= out_before.to_multiset().insert(rest_before[imin as int]));
            assert(out.deep_view().to_multiset().add(rest.deep_view().to_multiset())
                =~= v.deep_view().to_multiset());
            assert forall|o: int, w: int|
                0 <= o < out.deep_view().len() && 0 <= w
                    < rest.deep_view().len() implies lex_le()(
                #[trigger] out.deep_view()[o],
                #[trigger] rest.deep_view()[w],
            ) by {
                let prev = if w < imin {
                    w
                } else {
                    w + 1
                };
                assert(rest.deep_view()[w] == rest_before[prev]);
                if o < out_before.len() {
                    assert(lex_le()(out_before[o], rest_before[prev]));
                } else {
                    assert(out.deep_view()[o] == rest_before[imin as int]);
                    assert(lex_le()(rest_before[imin as int], rest_before[prev]));
                }
            }
            assert forall|o1: int, o2: int|
                0 <= o1 < o2 < out.deep_view().len() implies lex_le()(
                #[trigger] out.deep_view()[o1],
                #[trigger] out.deep_view()[o2],
            ) by {
                if o2 < out_before.len() {
                    assert(lex_le()(out_before[o1], out_before[o2]));
                } else {
                    assert(lex_le()(out_before[o1], rest_before[imin as int]));
                }
            }
        }
    }
    proof {
        assert(rest.deep_view().to_multiset() =~= Multiset::<Seq<char>>::empty());
        assert(out.deep_view().to_multiset().add(Multiset::<Seq<char>>::empty())
            =~= out.deep_view().to_multiset());
    }
    out
}

/// Appending one word adds exactly it to the set of words.
proof fn lemma_push_to_set(s: Seq<Seq<char>>, e: Seq<char>)
    ensures
        s.push(e).to_set() =~= s.to_set().insert(e),
{
    assert forall|x: Seq<char>| s.push(e).to_set().contains(x) implies s.to_set().insert(
        e,
    ).contains(x) by {
        let idx = choose|i: int| 0 <= i < s.push(e).len() && s.push(e)[i] == x;
        if idx < s.len() {
            assert(s[idx] == x);
            assert(s.contains(x));
        }
    }
    assert forall|x: Seq<char>| s.to_set().insert(e).contains(x) implies s.push(e).to_set()
        .contains(x) by {
        if x == e {
            assert(s.push(e)[s.len() as int] == x);
            assert(s.push(e).contains(x));
        } else {
            let idx = choose|i: int| 0 <= i < s.len() && s[i] == x;
            assert(s.push(e)[idx] == x);
            assert(s.push(e).contains(x));
        }
    }
}

/// Keeps one copy of each run of equal neighbours of a sorted list: the
/// result is strictly ascending and holds exactly the same words.
#[verifier::loop_isolation(false)]
fn dedup_sorted(v: &Vec<String>) -> (r: Vec<String>)
    requires
        sorted_by(v.deep_view(), lex_le()),
    ensures
        forall|i: int, j: int|
            0 <= i < j < r.deep_view().len() ==> lex_lt(
                #[trigger] r.deep_view()[i],
                #[trigger] r.deep_view()[j],
            ),
        r.deep_view().to_set() == v.deep_view().to_set(),
{
    let n = v.len();
    let mut out: Vec<String> = Vec::new();
    let mut i: usize = 0;
    proof {
        assert(out.deep_view() =~~= Seq::<Seq<char>>::empty());
        assert(out.deep_view().to_set() =~= v.deep_view().take(0).to_set());
    }
    while i < n
        invariant
            n == v@.len(),
            i <= n,
            forall|a: int, b: int|
                0 <= a < b < out.deep_view().len() ==> lex_lt(
                    #[trigger] out.deep_view()[a],
                    #[trigger] out.deep_view()[b],
                ),
            out.deep_view().to_set() == v.deep_view().take(i as int).to_set(),
            out.deep_view().len() > 0 <==> i > 0,
            i > 0 ==> out.deep_view().len() > 0 && out.deep_view().last() == v.deep_view()[i - 1],
        decreases n - i,
    {
        let ghost dv = v.deep_view();
        let ghost out_before = out.deep_view();
        let mut push_it = true;
        if out.len() > 0 {
            let last_idx = out.len() - 1;
            if eq_str(out[last_idx].as_str(), v[i].as_str()) {
                push_it = false;
            }
        }
        if push_it {
            out.push(v[i].clone());
            proof {
                assert(out.deep_view() =~~= out_before.push(dv[i as int]));
                if i > 0 {
                    assert(lex_le()(dv[i - 1], dv[i as int]));
                    assert(out_before.last() == dv[i - 1]);
                    assert(out_before.last() != dv[i as int]);
                    assert(lex_lt(out_before.last(), dv[i as int]));
                    assert forall|a: int, b: int|
                        0 <= a < b < out.deep_view().len() implies lex_lt(
                        #[trigger] out.deep_view()[a],
                        #[trigger] out.deep_view()[b],
                    ) by {
                        if b == out.deep_view().len() - 1 && a < out_before.len() - 1 {
                            assert(lex_lt(out_before[a], out_before.last()));
                            lemma_lex_trans(out_before[a], out_before.last(), dv[i as int]);
                        }
                    }
                }
                assert(dv.take(i + 1) =~= dv.take(i as int).push(dv[i as int]));
                lemma_push_to_set(out_before, dv[i as int]);
                lemma_push_to_set(dv.take(i as int), dv[i as int]);
                assert(out.deep_view().to_set() =~= dv.take(i + 1).to_set());
            }
        } else {
            proof {
                assert(out_before.last() == dv[i as int]);
                assert(dv.take(i + 1) =~= dv.take(i as int).push(dv[i as int]));
                lemma_push_to_set(dv.take(i as int), dv[i as int]);
                assert(dv.take(i as int).to_set().contains(dv[i as int])) by {
                    assert(out_before[out_before.len() - 1] == out_before.last());
                    assert(out_before.contains(out_before.last()));
                    assert(out_before.to_set().contains(out_before.last()));
                }
                assert(out.deep_view().to_set() =~= dv.take(i + 1).to_set());
            }
        }
        i = i + 1;
    }
    proof {
        assert(v.deep_view().take(n as int) =~= v.deep_view());
    }
    out
}

/// The test for one key.
pub open spec fn key_is(k: i32) -> spec_fn((i32, Seq<char>)) -> bool {
    |e: (i32, Seq<char>)| e.0 == k
}

/// The queries stored under one number, in order.
pub open spec fn queries_for(h: Seq<(i32, Seq<char>)>, k: i32) -> Seq<Seq<char>> {
    h.filter(key_is(k)).map_values(|e: (i32, Seq<char>)| e.1)
}

/// Whether a number has two different queries: only then is it worth
/// reporting.
pub open spec fn qualifies(h: Seq<(i32, Seq<char>)>, k: i32) -> bool {
    exists|i: int, j: int|
        0 <= i < h.len() && 0 <= j < h.len() && (#[trigger] h[i]).0 == k && (#[trigger] h[j]).0
            == k && h[i].1 != h[j].1
}

/// Filtering keeps only what was there.
proof fn lemma_filter_subset(h: Seq<(i32, Seq<char>)>, pred: spec_fn((i32, Seq<char>)) -> bool)
    ensures
        forall|x: (i32, Seq<char>)| #[trigger] h.filter(pred).contains(x) ==> h.contains(x),
    decreases h.len(),
{
    reveal(Seq::filter);
    if h.len() > 0 {
        lemma_filter_subset(h.drop_last(), pred);
        assert forall|x: (i32, Seq<char>)| #[trigger] h.filter(pred).contains(x) implies h.contains(
            x,
        ) by {
            let f = h.filter(pred);
            let idx = choose|i: int| 0 <= i < f.len() && f[i] == x;
            let sub = h.drop_last().filter(pred);
            if pred(h.last()) && idx == f.len() - 1 {
                assert(h[h.len() - 1] == x);
            } else {
                assert(sub.contains(x));
                assert(h.drop_last().contains(x));
                let t = choose|i: int| 0 <= i < h.drop_last().len() && h.drop_last()[i] == x;
                assert(h[t] == x);
            }
        }
    }
}

/// A query sits under a number exactly when some entry pairs them.
proof fn lemma_queries_member(h: Seq<(i32, Seq<char>)>, k: i32, q: Seq<char>)
    ensures
        queries_for(h, k).contains(q) <==> exists|i: int|
            0 <= i < h.len() && (#[trigger] h[i]).0 == k && h[i].1 == q,
{
    let f = h.filter(key_is(k));
    let qs = queries_for(h, k);
    if qs.contains(q) {
        let idx = choose|i: int| 0 <= i < qs.len() && qs[i] == q;
        assert(f[idx].1 == q);
        assert(f.contains(f[idx]));
        h.lemma_filter_pred(key_is(k), idx);
        lemma_filter_subset(h, key_is(k));
        assert(h.contains(f[idx]));
        let t = choose|i: int| 0 <= i < h.len() && h[i] == f[idx];
        assert(h[t].0 == k && h[t].1 == q);
    }
    if exists|i: int| 0 <= i < h.len() && (#[trigger] h[i]).0 == k && h[i].1 == q {
        let t = choose|i: int| 0 <= i < h.len() && (#[trigger] h[i]).0 == k && h[i].1 == q;
        h.lemma_filter_contains(key_is(k), t);
        assert(f.contains(h[t]));
        let idx = choose|i: int| 0 <= i < f.len() && f[i] == h[t];
        assert(qs[idx] == q);
        assert(qs.contains(q));
    }
}

/// Adding one entry appends its query under its number and nothing else.
proof fn lemma_queries_push(h: Seq<(i32, Seq<char>)>, e: (i32, Seq<char>), k: i32)
    ensures
        e.0 == k ==> queries_for(h.push(e), k) == queries_for(h, k).push(e.1),
        e.0 != k ==> queries_for(h.push(e), k) == queries_for(h, k),
{
    reveal(Seq::filter);
    assert(h.push(e).drop_last() =~= h);
    assert(h.push(e).last() == e);
    if e.0 == k {
        assert(h.push(e).filter(key_is(k)) == h.filter(key_is(k)).push(e));
        assert(h.filter(key_is(k)).push(e).map_values(|x: (i32, Seq<char>)| x.1) =~= queries_for(
            h,
            k,
        ).push(e.1));
    } else {
        assert(h.push(e).filter(key_is(k)) == h.filter(key_is(k)));
    }
}

/// Two lists with the same words counted with multiplicity hold the same
/// set of words.
proof fn lemma_ms_eq_set_eq(a: Seq<Seq<char>>, b: Seq<Seq<char>>)
    requires
        a.to_multiset() == b.to_multiset(),
    ensures
        a.to_set() =~= b.to_set(),
{
    broadcast use vstd::seq_lib::group_to_multiset_ensures;

    assert forall|x: Seq<char>| a.to_set().contains(x) implies b.to_set().contains(x) by {
        assert(a.contains(x));
        assert(a.to_multiset().count(x) > 0);
        assert(b.contains(x));
    }
    assert forall|x: Seq<char>| b.to_set().contains(x) implies a.to_set().contains(x) by {
        assert(b.contains(x));
        assert(b.to_multiset().count(x) > 0);
        assert(a.contains(x));
    }
}

impl History {
    /// All the numbers that several different queries share, each with
    /// its queries sorted and with duplicates dropped; nothing while no
    /// number is shared.
    #[verifier::loop_isolation(false)]
    #[verifier::rlimit(100)]
    pub fn matches(&self) -> (r: Option<std::collections::HashMap<i32, Vec<String>>>)
        ensures
            (r is None) <==> (forall|k: i32| !qualifies(self.hist_m(), k)),
            r matches Some(m) ==> ({
                &&& (forall|k: i32| #[trigger]
                    m@.contains_key(k) <==> qualifies(self.hist_m(), k))
                &&& (forall|k: i32| #[trigger]
                    m@.contains_key(k) ==> m@[k].deep_view().to_set() == queries_for(
                        self.hist_m(),
                        k,
                    ).to_set() && (forall|i: int, j: int|
                        0 <= i < j < m@[k].deep_view().len() ==> lex_lt(
                            #[trigger] m@[k].deep_view()[i],
                            #[trigger] m@[k].deep_view()[j],
                        )))
            }),
    {
        proof {
            broadcast use vstd::std_specs::hash::group_hash_axioms;

        }
        let ghost h = self.hist_m();
        let mut grouped: std::collections::HashMap<i32, Vec<String>> =
            std::collections::HashMap::new();
        let mut keys: Vec<i32> = Vec::new();
        let n = self.history.len();
        let mut t: usize = 0;
        proof {
            assert(h.take(0) =~= Seq::<(i32, Seq<char>)>::empty());
        }
        while t < n
            invariant
                n == self.history@.len(),
                t <= n,
                forall|a: int, b: int| 0 <= a < b < keys@.len() ==> keys@[a] != keys@[b],
                forall|k: i32| #[trigger]
                    grouped@.contains_key(k) <==> keys@.contains(k),
                forall|k: i32| #[trigger]
                    keys@.contains(k) <==> (exists|i: int|
                        0 <= i < t && (#[trigger] h[i]).0 == k),
                forall|k: i32| #[trigger]
                    grouped@.contains_key(k) ==> grouped@[k].deep_view() == queries_for(
                        h.take(t as int),
                        k,
                    ),
            decreases n - t,
        {
            let entry = &self.history[t];
            let key = entry.0;
            let q = entry.1.clone();
            let ghost prefix = h.take(t as int);
            let ghost keys_old = keys@;
            proof {
                assert(h.take(t + 1) =~= prefix.push(h[t as int]));
                assert(h[t as int] == (entry.0, entry.1@));
            }
            let had = grouped.contains_key(&key);
            if had {
                let mut v = match grouped.remove(&key) {
                    Some(v) => v,
                    None => Vec::new(),
                };
                let ghost vd = v.deep_view();
                v.push(q);
                proof {
                    assert(v.deep_view() =~~= vd.push(entry.1@));
                }
                grouped.insert(key, v);
            } else {
                let mut v: Vec<String> = Vec::new();
                v.push(q);
                proof {
                    assert(v.deep_view() =~~= Seq::<Seq<char>>::empty().push(entry.1@));
                }
                grouped.insert(key, v);
                keys.push(key);
            }
            proof {
                if had {
                    assert(keys@ == keys_old);
                    assert(keys@.contains(key));
                } else {
                    assert(keys@ == keys_old.push(key));
                    assert(keys@[keys@.len() - 1] == key);
                    assert(keys@.contains(key));
                    assert forall|k: i32| #[trigger] keys@.contains(k) implies (keys_old.contains(
                        k,
                    ) || k == key) by {
                        let a = choose|a: int| 0 <= a < keys@.len() && keys@[a] == k;
                        if a < keys_old.len() {
                            assert(keys_old[a] == k);
                        }
                    }
                    assert forall|k: i32| keys_old.contains(k) implies #[trigger] keys@.contains(
                        k,
                    ) by {
                        let a = choose|a: int| 0 <= a < keys_old.len() && keys_old[a] == k;
                        assert(keys@[a] == k);
                    }
                    assert forall|a: int, b: int|
                        0 <= a < b < keys@.len() implies keys@[a] != keys@[b] by {
                        if b == keys@.len() - 1 {
                            assert(keys_old[a] == keys@[a]);
                            assert(keys_old.contains(keys@[a]));
                        }
                    }
                }
                assert forall|k: i32| #[trigger] keys@.contains(k) implies (exists|i: int|
                    0 <= i < t + 1 && (#[trigger] h[i]).0 == k) by {
                    if keys_old.contains(k) {
                        let i = choose|i: int| 0 <= i < t && (#[trigger] h[i]).0 == k;
                        assert(0 <= i < t + 1 && h[i].0 == k);
                    } else {
                        assert(k == key);
                        assert(h[t as int].0 == k);
                    }
                }
                assert forall|k: i32|
                    (exists|i: int| 0 <= i < t + 1 && (#[trigger] h[i]).0 == k) implies #[trigger]
                    keys@.contains(k) by {
                    let i = choose|i: int| 0 <= i < t + 1 && (#[trigger] h[i]).0 == k;
                    if i < t {
                        assert(keys_old.contains(k));
                    } else {
                        assert(k == key);
                    }
                }
                assert forall|k: i32| #[trigger]
                    grouped@.contains_key(k) implies grouped@[k].deep_view() == queries_for(
                    h.take(t + 1),
                    k,
                ) by {
                    lemma_queries_push(prefix, h[t as int], k);
                    if k == key && !had {
                        assert(queries_for(prefix, k).len() == 0) by {
                            if queries_for(prefix, k).len() > 0 {
                                let q0 = queries_for(prefix, k)[0];
                                assert(queries_for(prefix, k).contains(q0));
                                lemma_queries_member(prefix, k, q0);
                                assert(keys_old.contains(k));
                            }
                        }
                        assert(queries_for(prefix, k).push(entry.1@) =~= Seq::<
                            Seq<char>,
                        >::empty().push(entry.1@));
                    }
                }
            }
            t = t + 1;
        }
        proof {
            assert(h.take(n as int) =~= h);
        }
        let mut result: std::collections::HashMap<i32, Vec<String>> =
            std::collections::HashMap::new();
        let m = keys.len();
        let mut x: usize = 0;
        while x < m
            invariant
                m == keys@.len(),
                x <= m,
                forall|a: int, b: int| 0 <= a < b < keys@.len() ==> keys@[a] != keys@[b],
                forall|k: i32| #[trigger]
                    keys@.contains(k) <==> (exists|i: int|
                        0 <= i < h.len() && (#[trigger] h[i]).0 == k),
                forall|a: int|
                    x <= a < m ==> grouped@.contains_key(#[trigger] keys@[a]) && grouped@[
                        keys@[a]
                    ].deep_view() == queries_for(h, keys@[a]),
                forall|k: i32| #[trigger]
                    result@.contains_key(k) ==> (exists|a: int|
                        0 <= a < x && keys@[a] == k) && qualifies(h, k),
                forall|k: i32|
                    (exists|a: int| 0 <= a < x && keys@[a] == k) && qualifies(h, k)
                        ==> #[trigger] result@.contains_key(k),
                forall|k: i32| #[trigger]
                    result@.contains_key(k) ==> result@[k].deep_view().to_set() == queries_for(
                        h,
                        k,
                    ).to_set() && (forall|i: int, j: int|
                        0 <= i < j < result@[k].deep_view().len() ==> lex_lt(
                            #[trigger] result@[k].deep_view()[i],
                            #[trigger] result@[k].deep_view()[j],
                        )),
            decreases m - x,
        {
            let key = keys[x];
            proof {
                assert(grouped@.contains_key(keys@[x as int]));
            }
            let v = match grouped.remove(&key) {
                Some(v) => v,
                None => Vec::new(),
            };
            proof {
                assert(v.deep_view() == queries_for(h, key));
                assert forall|a: int|
                    x + 1 <= a < m implies grouped@.contains_key(#[trigger] keys@[a]) && grouped@[
                    keys@[a]
                ].deep_view() == queries_for(h, keys@[a]) by {
                    assert(keys@[a] != keys@[x as int]);
                }
                assert(keys@.contains(keys@[x as int]));
            }
            let sorted = sort_strings(v);
            let dd = dedup_sorted(&sorted);
            proof {
                lemma_ms_eq_set_eq(sorted.deep_view(), queries_for(h, key));
                assert(dd.deep_view().to_set() =~= queries_for(h, key).to_set());
            }
            if dd.len() > 1 {
                proof {
                    let d0 = dd.deep_view()[0];
                    let d1 = dd.deep_view()[1];
                    lemma_lex_trichotomy(d0, d1);
                    assert(dd.deep_view().contains(d0));
                    assert(dd.deep_view().contains(d1));
                    assert(dd.deep_view().to_set().contains(d0));
                    assert(dd.deep_view().to_set().contains(d1));
                    lemma_queries_member(h, key, d0);
                    lemma_queries_member(h, key, d1);
                    assert(qualifies(h, key));
                }
                result.insert(key, dd);
            } else {
                proof {
                    assert(!qualifies(h, key)) by {
                        if qualifies(h, key) {
                            let (i, j) = choose|i: int, j: int|
                                0 <= i < h.len() && 0 <= j < h.len() && (#[trigger] h[i]).0 == key
                                    && (#[trigger] h[j]).0 == key && h[i].1 != h[j].1;
                            lemma_queries_member(h, key, h[i].1);
                            lemma_queries_member(h, key, h[j].1);
                            assert(queries_for(h, key).contains(h[i].1));
                            assert(queries_for(h, key).contains(h[j].1));
                            assert(dd.deep_view().to_set().contains(h[i].1));
                            assert(dd.deep_view().to_set().contains(h[j].1));
                            let a = choose|a: int|
                                0 <= a < dd.deep_view().len() && dd.deep_view()[a] == h[i].1;
                            let b = choose|b: int|
                                0 <= b < dd.deep_view().len() && dd.deep_view()[b] == h[j].1;
                            assert(a == 0 && b == 0);
                            assert(false);
                        }
                    }
                }
            }
            x = x + 1;
        }
        proof {
            assert forall|k: i32| #[trigger]
                result@.contains_key(k) <==> qualifies(h, k) by {
                if qualifies(h, k) {
                    let (i, j) = choose|i: int, j: int|
                        0 <= i < h.len() && 0 <= j < h.len() && (#[trigger] h[i]).0 == k && (
                        #[trigger] h[j]).0 == k && h[i].1 != h[j].1;
                    assert(keys@.contains(k));
                    let a = choose|a: int| 0 <= a < keys@.len() && keys@[a] == k;
                    assert(result@.contains_key(k));
                }
            }
        }
        if result.is_empty() {
            proof {
                assert forall|k: i32| !qualifies(h, k) by {
                    if qualifies(h, k) {
                        assert(result@.contains_key(k));
                        assert(result@.dom().contains(k));
                        assert(result@.dom() =~= Set::<i32>::empty());
                        assert(false);
                    }
                }
            }
            return None;
        }
        proof {
            let k0 = result@.dom().choose();
            assert(result@.dom().contains(k0));
            assert(qualifies(h, k0));
        }
        Some(result)
    }
}

} // verus!
