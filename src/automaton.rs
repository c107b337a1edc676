//! A deterministic byte automaton over a set of patterns: a trie whose states
//! are the folded prefixes of the patterns, stored as a dense transition
//! table with one row of `ALPHABET` entries per state.
use vstd::prelude::*;
use crate::semantics::{
    fold_byte, fold_bytes, occurs_at, longest_at, scan_from, leftmost_longest, lemma_longest_among,
    lemma_longest_at_in_bounds, lemma_scan_from_shape,
};

verus! {

/// Number of byte values: the width of one row of the transition table.
pub const ALPHABET: usize = 256;

/// Largest total pattern length an automaton is built from; it keeps the
/// transition table addressable on 32-bit targets.
pub const MAX_PATTERN_BYTES: usize = 8000000;

/// The byte strings held by a vector of byte vectors.
pub open spec fn texts(v: Seq<Vec<u8>>) -> Seq<Seq<u8>> {
    v.map_values(|p: Vec<u8>| p@)
}

/// Sum of the lengths of the patterns.
pub open spec fn total_len(pats: Seq<Seq<u8>>) -> int
    decreases pats.len(),
{
    if pats.len() == 0 {
        0
    } else {
        total_len(pats.drop_last()) + pats.last().len()
    }
}

/// ASCII case folding of one byte.
pub fn fold_ascii(b: u8) -> (r: u8)
    ensures
        r == fold_byte(b),
{
    if 65 <= b && b <= 90 {
        b + 32
    } else {
        b
    }
}

/// A reported match: the half-open byte span `start..end` of the haystack.
#[derive(Clone, Copy, Debug, PartialEq, Eq, Structural)]
pub struct Match {
    pub start: usize,
    pub end: usize,
}

pub open spec fn spans(ms: Seq<Match>) -> Seq<(int, int)> {
    ms.map_values(|m: Match| (m.start as int, m.end as int))
}

/// State 0 is the start state, spelling the empty string. An entry 0 in the
/// table stands for "no edge", since no edge leads back to the start.
struct Trie {
    table: Vec<usize>,
    labels: Ghost<Seq<Seq<u8>>>,
    parents: Ghost<Seq<int>>,
}

/// The trie together with the states at which a pattern ends.
pub struct Automaton {
    trie: Trie,
    accept: Vec<bool>,
    pats: Ghost<Seq<Seq<u8>>>,
}

proof fn lemma_prefix_of_push(a: Seq<u8>, c: u8, t: Seq<u8>)
    requires
        a.push(c).is_prefix_of(t),
    ensures
        a.is_prefix_of(t),
        t[a.len() as int] == c,
{
    assert(a.push(c)[a.len() as int] == c);
}

impl Trie {
    spec fn states(&self) -> int {
        self.labels@.len() as int
    }

    spec fn next(&self, s: int, b: int) -> int {
        self.table@[s * 256 + b] as int
    }

    spec fn label(&self, s: int) -> Seq<u8> {
        self.labels@[s]
    }

    /// Each edge spells one more byte.
    spec fn edges_ok(&self) -> bool {
        forall|s: int, b: int|
            0 <= s < self.states() && 0 <= b < 256 ==> {
                &&& 0 <= #[trigger] self.next(s, b) < self.states()
                &&& self.next(s, b) != 0 ==> self.label(self.next(s, b)) == self.label(s).push(
                    b as u8,
                )
            }
    }

    /// No missing edge lies on a prefix of `t` shorter than `k` plus one byte.
    spec fn covers_upto(&self, t: Seq<u8>, k: int) -> bool {
        forall|s: int, b: int|
            0 <= s < self.states() && 0 <= b < 256 && #[trigger] self.next(s, b) == 0
                && self.label(s).len() < k ==> !self.label(s).push(b as u8).is_prefix_of(t)
    }

    /// Every prefix of `t` is spelled by some state.
    spec fn covers(&self, t: Seq<u8>) -> bool {
        self.covers_upto(t, t.len() as int)
    }

    /// Distinct states have distinct labels; each state but the start is
    /// reached by an edge from its parent.
    spec fn tree_ok(&self) -> bool {
        &&& forall|s: int, t: int|
            0 <= s < self.states() && 0 <= t < self.states() && #[trigger] self.label(s)
                == #[trigger] self.label(t) ==> s == t
        &&& forall|t: int|
            1 <= t < self.states() ==> {
                let p = #[trigger] self.parents@[t];
                &&& 0 <= p < self.states()
                &&& self.label(t).len() > 0
                &&& self.label(p) == self.label(t).drop_last()
                &&& self.next(p, self.label(t).last() as int) == t
            }
    }

    spec fn shape_ok(&self) -> bool {
        &&& 1 <= self.states() <= MAX_PATTERN_BYTES + 1
        &&& self.table@.len() == self.states() * 256
        &&& self.labels@.len() == self.states()
        &&& self.parents@.len() == self.states()
        &&& self.label(0) == Seq::<u8>::empty()
        &&& self.edges_ok()
        &&& self.tree_ok()
    }
}

impl Automaton {
    /// The patterns the automaton was built from, in order.
    pub closed spec fn patterns(&self) -> Seq<Seq<u8>> {
        self.pats@
    }

    pub closed spec fn states(&self) -> int {
        self.trie.states()
    }

    /// A state accepts when its label is a folded pattern.
    spec fn accept_ok(&self) -> bool {
        forall|s: int|
            0 <= s < self.states() ==> (#[trigger] self.accept@[s] <==> exists|i: int|
                0 <= i < self.pats@.len() && fold_bytes(self.pats@[i]) == self.trie.label(s))
    }

    pub closed spec fn wf(&self) -> bool {
        &&& self.trie.shape_ok()
        &&& self.accept@.len() == self.states()
        &&& self.accept_ok()
        &&& forall|i: int| 0 <= i < self.pats@.len() ==> self.trie.covers(fold_bytes(#[trigger] self.pats@[i]))
    }

    fn new_empty() -> (a: Self)
        ensures
            a.wf(),
            a.patterns() == Seq::<Seq<u8>>::empty(),
            a.states() == 1,
    {
        let mut table: Vec<usize> = Vec::new();
        push_zero_row(&mut table);
        let mut accept: Vec<bool> = Vec::new();
        accept.push(false);
        let trie = Trie {
            table,
            labels: Ghost(Seq::empty().push(Seq::<u8>::empty())),
            parents: Ghost(Seq::empty().push(0int)),
        };
        let a = Automaton { trie, accept, pats: Ghost(Seq::empty()) };
        assert forall|s: int, b: int| 0 <= s < a.states() && 0 <= b < 256 implies a.trie.next(s, b) == 0 by {
            assert(s == 0);
        }
        a
    }

    /// Builds the automaton for `patterns`; matching ignores ASCII case.
    pub fn build(patterns: &Vec<Vec<u8>>) -> (a: Automaton)
        requires
            total_len(texts(patterns@)) <= MAX_PATTERN_BYTES,
        ensures
            a.wf(),
            a.patterns() == texts(patterns@),
    {
        let ghost all = texts(patterns@);
        let mut a = Automaton::new_empty();
        let mut i: usize = 0;
        while i < patterns.len()
            invariant
                i <= patterns@.len(),
                all == texts(patterns@),
                total_len(all) <= MAX_PATTERN_BYTES,
                a.wf(),
                a.patterns() == all.take(i as int),
                a.states() <= 1 + total_len(all.take(i as int)),
            decreases patterns@.len() - i,
        {
            proof {
                lemma_total_len_step(all, i as int);
                lemma_total_len_prefix(all, i as int + 1);
            }
            a.add_pattern(&patterns[i]);
            assert(a.patterns() =~= all.take(i + 1));
            i += 1;
        }
        assert(all.take(patterns@.len() as int) =~= all);
        a
    }

    /// The leftmost-longest matches in `hay`, at most `limit` of them, and
    /// whether any were left out. Each start position costs one walk down
    /// the trie, no longer than the longest pattern.
    pub fn find_limited(&self, hay: &[u8], limit: usize) -> (r: (Vec<Match>, bool))
        requires
            self.wf(),
            hay@.len() < usize::MAX,
        ensures
            r.1 == (leftmost_longest(self.patterns(), hay@).len() > limit),
            spans(r.0@) == if r.1 {
                leftmost_longest(self.patterns(), hay@).take(limit as int)
            } else {
                leftmost_longest(self.patterns(), hay@)
            },
    {
        let ghost pats = self.patterns();
        let ghost all = leftmost_longest(pats, hay@);
        let mut found: Vec<Match> = Vec::new();
        let mut pos: usize = 0;
        let mut truncated = false;
        while pos <= hay.len() && !truncated
            invariant
                self.wf(),
                pats == self.patterns(),
                all == leftmost_longest(pats, hay@),
                hay@.len() < usize::MAX,
                pos <= hay@.len() + 1,
                found@.len() <= limit,
                !truncated ==> spans(found@) + scan_from(pats, hay@, pos as int) == all,
                truncated ==> found@.len() == limit && all.len() > limit && spans(found@) == all.take(limit as int),
            decreases hay@.len() + 1 - pos + (if truncated { 0int } else { 1int }),
        {
            proof {
                lemma_longest_at_in_bounds(pats, hay@, pos as int);
            }
            match self.longest_match_at(hay, pos) {
                None => {
                    pos = pos + 1;
                },
                Some(l) => {
                    let ghost rest = scan_from(pats, hay@, pos as int);
                    if found.len() == limit {
                        truncated = true;
                        assert((spans(found@) + rest).take(limit as int) =~= spans(found@));
                    } else {
                        let m = Match { start: pos, end: pos + l };
                        let ghost before = found@;
                        found.push(m);
                        pos = if l == 0 { pos + 1 } else { pos + l };
                        assert(spans(found@) =~= spans(before).push((m.start as int, m.end as int)));
                        assert(spans(found@) + scan_from(pats, hay@, pos as int) =~= spans(before) + rest);
                    }
                },
            }
        }
        if !truncated {
            assert(spans(found@) =~= all);
        }
        (found, truncated)
    }

    /// Every leftmost-longest match in `hay`.
    pub fn find_all(&self, hay: &[u8]) -> (r: Vec<Match>)
        requires
            self.wf(),
            hay@.len() < usize::MAX,
        ensures
            spans(r@) == leftmost_longest(self.patterns(), hay@),
    {
        proof {
            lemma_scan_from_shape(self.patterns(), hay@, 0);
        }
        let (found, _) = self.find_limited(hay, hay.len() + 1);
        found
    }

    /// Length of the longest pattern that occurs at `at`, if any does.
    fn longest_match_at(&self, hay: &[u8], at: usize) -> (r: Option<usize>)
        requires
            self.wf(),
            at <= hay@.len(),
        ensures
            r.is_some() ==> longest_at(self.patterns(), hay@, at as int) == r.unwrap() as int,
            r.is_none() ==> longest_at(self.patterns(), hay@, at as int) == -1,
    {
        let ghost pats = self.patterns();
        let mut s: usize = 0;
        let mut k: usize = 0;
        let mut stuck = false;
        let mut best: Option<usize> = None;
        if self.accept[0] {
            best = Some(0);
        }
        proof {
            assert(fold_bytes(hay@.subrange(at as int, at as int)) =~= Seq::<u8>::empty());
            assert forall|i: int| 0 <= i < pats.len() && occurs_at(#[trigger] pats[i], hay@, at as int) && pats[i].len() <= 0
                implies best.is_some() && pats[i].len() <= best.unwrap() by {
                assert(fold_bytes(pats[i]) =~= self.trie.label(0));
            }
            if best.is_some() {
                let i = choose|i: int| 0 <= i < pats.len() && fold_bytes(pats[i]) == self.trie.label(0);
                assert(hay@.subrange(at as int, at as int) =~= Seq::<u8>::empty());
                assert(occurs_at(pats[i], hay@, at as int));
            }
        }
        while !stuck && k < hay.len() - at
            invariant
                self.wf(),
                pats == self.patterns(),
                at + k <= hay@.len(),
                0 <= s < self.states(),
                self.trie.label(s as int) == fold_bytes(hay@.subrange(at as int, at + k)),
                best.is_some() ==> best.unwrap() <= k && exists|i: int| 0 <= i < pats.len()
                    && occurs_at(#[trigger] pats[i], hay@, at as int) && pats[i].len() == best.unwrap(),
                forall|i: int| 0 <= i < pats.len() && occurs_at(#[trigger] pats[i], hay@, at as int)
                    && pats[i].len() <= k ==> best.is_some() && pats[i].len() <= best.unwrap(),
                stuck ==> forall|i: int| 0 <= i < pats.len() && occurs_at(#[trigger] pats[i], hay@, at as int)
                    ==> pats[i].len() <= k,
            decreases hay@.len() - at - k + (if stuck { 0int } else { 1int }),
        {
            let c = fold_ascii(hay[at + k]) as usize;
            let t = self.trie.table[s * ALPHABET + c];
            assert(t == self.trie.next(s as int, c as int));
            let ghost step = fold_bytes(hay@.subrange(at as int, at + k + 1));
            assert(step =~= self.trie.label(s as int).push(c as u8));
            if t == 0 {
                stuck = true;
                assert forall|i: int| 0 <= i < pats.len() && occurs_at(#[trigger] pats[i], hay@, at as int)
                    implies pats[i].len() <= k by {
                    if pats[i].len() > k {
                        let whole = fold_bytes(hay@.subrange(at as int, at + pats[i].len()));
                        assert(step =~= whole.subrange(0, k + 1));
                        assert(self.trie.covers(fold_bytes(pats[i])));
                    }
                }
            } else {
                s = t;
                k = k + 1;
                if self.accept[s] {
                    best = Some(k);
                    proof {
                        let i = choose|i: int| 0 <= i < pats.len() && fold_bytes(pats[i]) == self.trie.label(s as int);
                        assert(occurs_at(pats[i], hay@, at as int));
                    }
                } else {
                    assert forall|i: int| 0 <= i < pats.len() && occurs_at(#[trigger] pats[i], hay@, at as int)
                        implies pats[i].len() != k by {
                        if pats[i].len() == k {
                            assert(fold_bytes(pats[i]) == self.trie.label(s as int));
                        }
                    }
                }
            }
        }
        proof {
            lemma_longest_among(pats, hay@, at as int, pats.len() as int);
            if best.is_some() {
                let i = choose|i: int| 0 <= i < pats.len() && occurs_at(#[trigger] pats[i], hay@, at as int)
                    && pats[i].len() == best.unwrap();
            }
        }
        best
    }

    /// Adds the states that spell the folded `p` and marks the last one.
    fn add_pattern(&mut self, p: &Vec<u8>)
        requires
            old(self).wf(),
            old(self).states() + p@.len() <= MAX_PATTERN_BYTES + 1,
        ensures
            final(self).wf(),
            final(self).patterns() == old(self).patterns().push(p@),
            final(self).states() <= old(self).states() + p@.len(),
    {
        let ghost fp = fold_bytes(p@);
        let mut cur: usize = 0;
        let mut k: usize = 0;
        while k < p.len()
            invariant
                k <= p@.len(),
                fp == fold_bytes(p@),
                self.trie.shape_ok(),
                self.accept@.len() == self.states(),
                self.accept_ok(),
                self.pats@ == old(self).pats@,
                forall|i: int| 0 <= i < self.pats@.len() ==> self.trie.covers(fold_bytes(#[trigger] self.pats@[i])),
                self.trie.covers_upto(fp, k as int),
                0 <= cur < self.states(),
                self.trie.label(cur as int) == fp.subrange(0, k as int),
                self.states() <= old(self).states() + k,
                old(self).states() + p@.len() <= MAX_PATTERN_BYTES + 1,
            decreases p@.len() - k,
        {
            let b = fold_ascii(p[k]) as usize;
            assert(fp[k as int] == b as u8);
            let t = self.trie.table[cur * ALPHABET + b];
            assert(t == self.trie.next(cur as int, b as int));
            let ghost before = *self;
            let ghost want = self.trie.label(cur as int).push(b as u8);
            assert(want == fp.subrange(0, k + 1));
            if t == 0 {
                let n = self.accept.len();
                push_zero_row(&mut self.trie.table);
                self.accept.push(false);
                self.trie.labels = Ghost(self.trie.labels@.push(want));
                self.trie.parents = Ghost(self.trie.parents@.push(cur as int));
                self.trie.table[cur * ALPHABET + b] = n;
                proof {
                    assert forall|s: int, c: int| 0 <= s < n && 0 <= c < 256 && (s != cur || c != b)
                        implies self.trie.next(s, c) == before.trie.next(s, c) by {
                        assert(s * 256 + c < n * 256);
                    }
                    assert forall|c: int| 0 <= c < 256 implies self.trie.next(n as int, c) == 0 by {
                        assert(n * 256 <= n * 256 + c);
                    }
                    assert forall|s: int| 0 <= s < n implies self.trie.label(s) == before.trie.label(s) by {}
                    // the new label is new
                    assert forall|m: int| 0 <= m < n implies before.trie.label(m) != want by {
                        if before.trie.label(m) == want {
                            if m != 0 {
                                let q = before.trie.parents@[m];
                                assert(want.drop_last() =~= before.trie.label(cur as int));
                                assert(q == cur);
                                assert(before.trie.next(cur as int, b as int) == m);
                            }
                        }
                    }
                    // no existing pattern passes through the missing edge
                    assert forall|i: int| 0 <= i < self.pats@.len() implies !want.is_prefix_of(
                        fold_bytes(#[trigger] self.pats@[i])) by {
                        assert(before.trie.covers(fold_bytes(self.pats@[i])));
                        assert(before.trie.next(cur as int, b as int) == 0);
                    }
                    assert(self.trie.edges_ok()) by {
                        assert forall|s: int, c: int| 0 <= s < self.states() && 0 <= c < 256 implies {
                            &&& 0 <= #[trigger] self.trie.next(s, c) < self.states()
                            &&& self.trie.next(s, c) != 0 ==> self.trie.label(self.trie.next(s, c)) == self.trie.label(s).push(c as u8)
                        } by {
                            if s < n && (s != cur || c != b) {
                                assert(before.trie.next(s, c) == self.trie.next(s, c));
                            }
                        }
                    }
                    assert(self.trie.tree_ok()) by {
                        assert forall|s: int, t2: int| 0 <= s < self.states() && 0 <= t2 < self.states()
                            && #[trigger] self.trie.label(s) == #[trigger] self.trie.label(t2) implies s == t2 by {
                            if s < n && t2 < n {
                                assert(before.trie.label(s) == before.trie.label(t2));
                            } else if s < n {
                                assert(before.trie.label(s) != want);
                            } else if t2 < n {
                                assert(before.trie.label(t2) != want);
                            }
                        }
                        assert forall|t2: int| 1 <= t2 < self.states() implies {
                            let q = #[trigger] self.trie.parents@[t2];
                            &&& 0 <= q < self.states()
                            &&& self.trie.label(t2).len() > 0
                            &&& self.trie.label(q) == self.trie.label(t2).drop_last()
                            &&& self.trie.next(q, self.trie.label(t2).last() as int) == t2
                        } by {
                            if t2 == n {
                                assert(want.drop_last() =~= self.trie.label(cur as int));
                            } else {
                                let q = before.trie.parents@[t2];
                                let c = before.trie.label(t2).last() as int;
                                if q == cur && c == b {
                                    assert(before.trie.next(q, c) == t2);
                                }
                                assert(self.trie.next(q, c) == before.trie.next(q, c));
                            }
                        }
                    }
                    assert(self.accept_ok()) by {
                        assert forall|s: int| 0 <= s < self.states() implies (#[trigger] self.accept@[s]
                            <==> exists|i: int| 0 <= i < self.pats@.len() && fold_bytes(self.pats@[i]) == self.trie.label(s)) by {
                            if s == n {
                                assert(!self.accept@[s]);
                                assert(self.trie.label(s) == want);
                                assert(want.subrange(0, want.len() as int) =~= want);
                                assert forall|i: int| 0 <= i < self.pats@.len() implies fold_bytes(self.pats@[i]) != want by {
                                    assert(!want.is_prefix_of(fold_bytes(self.pats@[i])));
                                }
                                assert(!(exists|i: int| 0 <= i < self.pats@.len() && fold_bytes(self.pats@[i]) == self.trie.label(s)));
                            } else {
                                assert(self.pats@ == before.pats@);
                                assert(s < before.states());
                                assert(self.accept@[s] == before.accept@[s]);
                                assert(self.trie.label(s) == before.trie.label(s));
                                assert(before.accept@[s] <==> exists|i: int| 0 <= i < before.pats@.len()
                                    && fold_bytes(before.pats@[i]) == before.trie.label(s));
                            }
                        }
                    }
                    assert forall|i: int| 0 <= i < self.pats@.len() implies self.trie.covers(fold_bytes(#[trigger] self.pats@[i])) by {
                        let ft = fold_bytes(self.pats@[i]);
                        assert(before.trie.covers(ft));
                        assert forall|s: int, c: int| 0 <= s < self.states() && 0 <= c < 256 && #[trigger] self.trie.next(s, c) == 0
                            && self.trie.label(s).len() < ft.len() implies !self.trie.label(s).push(c as u8).is_prefix_of(ft) by {
                            if s == n {
                                if self.trie.label(s).push(c as u8).is_prefix_of(ft) {
                                    lemma_prefix_of_push(want, c as u8, ft);
                                }
                            } else {
                                assert(before.trie.next(s, c) == 0);
                            }
                        }
                    }
                    assert forall|s: int, c: int| 0 <= s < self.states() && 0 <= c < 256 && #[trigger] self.trie.next(s, c) == 0
                        && self.trie.label(s).len() < k + 1 implies !self.trie.label(s).push(c as u8).is_prefix_of(fp) by {
                        if self.trie.label(s).push(c as u8).is_prefix_of(fp) {
                            lemma_prefix_of_push(self.trie.label(s), c as u8, fp);
                            if s == n {
                            } else if self.trie.label(s).len() < k {
                                assert(before.trie.next(s, c) == 0);
                            } else {
                                assert(self.trie.label(s) =~= self.trie.label(cur as int));
                                assert(s == cur);
                            }
                        }
                    }
                }
                cur = n;
            } else {
                proof {
                    assert forall|s: int, c: int| 0 <= s < self.states() && 0 <= c < 256 && #[trigger] self.trie.next(s, c) == 0
                        && self.trie.label(s).len() < k + 1 implies !self.trie.label(s).push(c as u8).is_prefix_of(fp) by {
                        if self.trie.label(s).push(c as u8).is_prefix_of(fp) {
                            lemma_prefix_of_push(self.trie.label(s), c as u8, fp);
                            if self.trie.label(s).len() == k {
                                assert(self.trie.label(s) =~= self.trie.label(cur as int));
                                assert(s == cur);
                            }
                        }
                    }
                }
                cur = t;
            }
            k += 1;
        }
        let ghost before = *self;
        self.accept.set(cur, true);
        self.pats = Ghost(self.pats@.push(p@));
        proof {
            assert(fp =~= fp.subrange(0, p@.len() as int));
            assert forall|s: int| 0 <= s < self.states() implies (#[trigger] self.accept@[s]
                <==> exists|i: int| 0 <= i < self.pats@.len() && fold_bytes(self.pats@[i]) == self.trie.label(s)) by {
                let last = before.pats@.len() as int;
                assert(self.trie.label(s) == before.trie.label(s));
                if s == cur {
                    assert(fold_bytes(self.pats@[last]) == self.trie.label(s));
                } else {
                    assert(self.accept@[s] == before.accept@[s]);
                    assert(before.accept@[s] <==> exists|i: int| 0 <= i < before.pats@.len()
                        && fold_bytes(before.pats@[i]) == before.trie.label(s));
                    if before.accept@[s] {
                        let i = choose|i: int| 0 <= i < before.pats@.len() && fold_bytes(before.pats@[i]) == before.trie.label(s);
                        assert(self.pats@[i] == before.pats@[i]);
                    }
                    if exists|i: int| 0 <= i < self.pats@.len() && fold_bytes(self.pats@[i]) == self.trie.label(s) {
                        let i = choose|i: int| 0 <= i < self.pats@.len() && fold_bytes(self.pats@[i]) == self.trie.label(s);
                        if i == last {
                            assert(self.trie.label(s) == before.trie.label(cur as int));
                        } else {
                            assert(self.pats@[i] == before.pats@[i]);
                        }
                    }
                }
            }
            assert forall|i: int| 0 <= i < self.pats@.len() implies self.trie.covers(fold_bytes(#[trigger] self.pats@[i])) by {
                let ft = fold_bytes(self.pats@[i]);
                if i < before.pats@.len() {
                    assert(self.pats@[i] == before.pats@[i]);
                    assert(before.trie.covers(ft));
                } else {
                    assert(ft == fp);
                    assert(before.trie.covers_upto(fp, k as int));
                }
                assert forall|s: int, c: int| 0 <= s < self.states() && 0 <= c < 256 && #[trigger] self.trie.next(s, c) == 0
                    && self.trie.label(s).len() < ft.len() implies !self.trie.label(s).push(c as u8).is_prefix_of(ft) by {
                    assert(before.trie.next(s, c) == 0);
                    assert(before.trie.label(s) == self.trie.label(s));
                }
            }
        }
    }
}

proof fn lemma_total_len_step(s: Seq<Seq<u8>>, i: int)
    requires
        0 <= i < s.len(),
    ensures
        total_len(s.take(i + 1)) == total_len(s.take(i)) + s[i].len(),
{
    assert(s.take(i + 1).drop_last() =~= s.take(i));
}

proof fn lemma_total_len_prefix(s: Seq<Seq<u8>>, i: int)
    requires
        0 <= i <= s.len(),
    ensures
        total_len(s.take(i)) <= total_len(s),
    decreases s.len() - i,
{
    if i == s.len() {
        assert(s.take(i) =~= s);
    } else {
        lemma_total_len_step(s, i);
        lemma_total_len_prefix(s, i + 1);
    }
}

fn push_zero_row(table: &mut Vec<usize>)
    requires
        old(table)@.len() + ALPHABET <= usize::MAX,
    ensures
        final(table)@.len() == old(table)@.len() + ALPHABET,
        forall|i: int| 0 <= i < old(table)@.len() ==> final(table)@[i] == old(table)@[i],
        forall|i: int| old(table)@.len() <= i < final(table)@.len() ==> final(table)@[i] == 0,
{
    let ghost start = table@.len();
    let mut j: usize = 0;
    while j < ALPHABET
        invariant
            j <= ALPHABET,
            table@.len() == start + j,
            forall|i: int| 0 <= i < start ==> table@[i] == old(table)@[i],
            forall|i: int| start <= i < table@.len() ==> table@[i] == 0,
        decreases ALPHABET - j,
    {
        table.push(0);
        j += 1;
    }
}

} // verus!
