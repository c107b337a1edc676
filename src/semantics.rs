//! What a scan means: leftmost-longest, non-overlapping occurrences of a
//! pattern set in a haystack, with ASCII letters compared without case.
use vstd::prelude::*;

verus! {

/// ASCII upper-case letters fold to lower case; every other byte stays.
pub open spec fn fold_byte(b: u8) -> u8 {
    if 65 <= b && b <= 90 {
        (b + 32) as u8
    } else {
        b
    }
}

pub open spec fn fold_bytes(s: Seq<u8>) -> Seq<u8> {
    s.map_values(|b: u8| fold_byte(b))
}

/// `p` occurs in `hay` at offset `at`, up to ASCII case.
pub open spec fn occurs_at(p: Seq<u8>, hay: Seq<u8>, at: int) -> bool {
    &&& 0 <= at
    &&& at + p.len() <= hay.len()
    &&& fold_bytes(hay.subrange(at, at + p.len())) == fold_bytes(p)
}

/// Length of the longest of the first `n` patterns that occurs at `at`,
/// or -1 when none of them does.
pub open spec fn longest_among(pats: Seq<Seq<u8>>, hay: Seq<u8>, at: int, n: int) -> int
    decreases n,
{
    if n <= 0 {
        -1
    } else {
        let prev = longest_among(pats, hay, at, n - 1);
        if occurs_at(pats[n - 1], hay, at) && pats[n - 1].len() > prev {
            pats[n - 1].len() as int
        } else {
            prev
        }
    }
}

/// Length of the longest pattern occurring at `at`, or -1 when none does.
pub open spec fn longest_at(pats: Seq<Seq<u8>>, hay: Seq<u8>, at: int) -> int {
    longest_among(pats, hay, at, pats.len() as int)
}

/// The matches reported from position `pos` on. At the first position where
/// some pattern occurs, the longest one is taken; the scan resumes at its end,
/// or one byte later after an empty match.
pub open spec fn scan_from(pats: Seq<Seq<u8>>, hay: Seq<u8>, pos: int) -> Seq<(int, int)>
    decreases hay.len() + 1 - pos
    via scan_from_decreases
{
    if pos < 0 || pos > hay.len() {
        Seq::empty()
    } else {
        let l = longest_at(pats, hay, pos);
        if l < 0 {
            scan_from(pats, hay, pos + 1)
        } else {
            seq![(pos, pos + l)] + scan_from(
                pats,
                hay,
                if l == 0 {
                    pos + 1
                } else {
                    pos + l
                },
            )
        }
    }
}

#[via_fn]
proof fn scan_from_decreases(pats: Seq<Seq<u8>>, hay: Seq<u8>, pos: int) {
    lemma_longest_at_in_bounds(pats, hay, pos);
}

/// All matches of `pats` in `hay`, as half-open (start, end) byte spans.
pub open spec fn leftmost_longest(pats: Seq<Seq<u8>>, hay: Seq<u8>) -> Seq<(int, int)> {
    scan_from(pats, hay, 0)
}

pub proof fn lemma_longest_among(pats: Seq<Seq<u8>>, hay: Seq<u8>, at: int, n: int)
    requires
        0 <= n <= pats.len(),
    ensures
        longest_among(pats, hay, at, n) >= -1,
        longest_among(pats, hay, at, n) == -1 <==> forall|i: int|
            0 <= i < n ==> !occurs_at(#[trigger] pats[i], hay, at),
        longest_among(pats, hay, at, n) >= 0 ==> exists|i: int|
            0 <= i < n && occurs_at(#[trigger] pats[i], hay, at) && pats[i].len()
                == longest_among(pats, hay, at, n),
        forall|i: int|
            0 <= i < n && occurs_at(#[trigger] pats[i], hay, at) ==> pats[i].len()
                <= longest_among(pats, hay, at, n),
    decreases n,
{
    if n > 0 {
        lemma_longest_among(pats, hay, at, n - 1);
    }
}

/// The longest occurrence at `at` lies inside the haystack.
pub proof fn lemma_longest_at_in_bounds(pats: Seq<Seq<u8>>, hay: Seq<u8>, at: int)
    ensures
        longest_at(pats, hay, at) >= -1,
        longest_at(pats, hay, at) >= 0 ==> 0 <= at && at + longest_at(pats, hay, at) <= hay.len(),
{
    lemma_longest_among(pats, hay, at, pats.len() as int);
}

/// The matches reported from `pos` on lie in the haystack at or after `pos`,
/// in order, and do not overlap; there is at most one per start position.
pub proof fn lemma_scan_from_shape(pats: Seq<Seq<u8>>, hay: Seq<u8>, pos: int)
    requires
        0 <= pos,
    ensures
        pos <= hay.len() + 1 ==> scan_from(pats, hay, pos).len() <= hay.len() + 1 - pos,
        pos > hay.len() ==> scan_from(pats, hay, pos).len() == 0,
        forall|i: int|
            0 <= i < scan_from(pats, hay, pos).len() ==> (#[trigger] scan_from(pats, hay, pos)[i]).0 >= pos + i,
        forall|i: int|
            0 <= i < scan_from(pats, hay, pos).len() ==> pos <= (#[trigger] scan_from(pats, hay, pos)[i]).0
                <= scan_from(pats, hay, pos)[i].1 <= hay.len(),
        forall|i: int|
            0 <= i < scan_from(pats, hay, pos).len() - 1 ==> (#[trigger] scan_from(pats, hay, pos)[i]).1
                <= scan_from(pats, hay, pos)[i + 1].0 && scan_from(pats, hay, pos)[i].0 < scan_from(
                pats,
                hay,
                pos,
            )[i + 1].0,
    decreases hay.len() + 1 - pos,
{
    if pos <= hay.len() {
        lemma_longest_at_in_bounds(pats, hay, pos);
        let l = longest_at(pats, hay, pos);
        if l < 0 {
            lemma_scan_from_shape(pats, hay, pos + 1);
        } else {
            let next = if l == 0 {
                pos + 1
            } else {
                pos + l
            };
            lemma_scan_from_shape(pats, hay, next);
            let r = scan_from(pats, hay, pos);
            let rest = scan_from(pats, hay, next);
            assert forall|i: int| 1 <= i < r.len() implies r[i] == rest[i - 1] by {}
            assert forall|i: int| 0 <= i < r.len() implies (#[trigger] r[i]).0 >= pos + i by {
                if i > 0 {
                    assert(r[i] == rest[i - 1]);
                }
            }
            assert forall|i: int| 0 <= i < r.len() - 1 implies (#[trigger] r[i]).1 <= r[i + 1].0 && r[i].0
                < r[i + 1].0 by {
                if i > 0 {
                    assert(r[i] == rest[i - 1]);
                    assert(r[i + 1] == rest[i]);
                }
            }
        }
    }
}

/// Reported matches never overlap: each one ends no later than the next
/// one starts, and the starts strictly increase.
pub proof fn lemma_matches_do_not_overlap(pats: Seq<Seq<u8>>, hay: Seq<u8>)
    ensures
        forall|i: int|
            0 <= i < leftmost_longest(pats, hay).len() - 1 ==> (#[trigger] leftmost_longest(pats, hay)[i]).1
                <= leftmost_longest(pats, hay)[i + 1].0 && leftmost_longest(pats, hay)[i].0
                < leftmost_longest(pats, hay)[i + 1].0,
{
    lemma_scan_from_shape(pats, hay, 0);
}

proof fn lemma_found_from(pats: Seq<Seq<u8>>, hay: Seq<u8>, at: int, len: int, pos: int)
    requires
        0 <= pos <= at,
        exists|j: int| 0 <= j < pats.len() && occurs_at(#[trigger] pats[j], hay, at) && pats[j].len() == len,
        forall|i: int, s: int|
            0 <= i < pats.len() && 0 <= s < at && #[trigger] occurs_at(pats[i], hay, s) ==> s + pats[i].len() <= at,
        forall|i: int| 0 <= i < pats.len() && occurs_at(#[trigger] pats[i], hay, at) ==> pats[i].len() <= len,
    ensures
        scan_from(pats, hay, pos).contains((at, at + len)),
    decreases at - pos,
{
    lemma_longest_among(pats, hay, pos, pats.len() as int);
    let l = longest_at(pats, hay, pos);
    let r = scan_from(pats, hay, pos);
    if pos == at {
        assert(l == len);
        assert(r[0] == (at, at + len));
    } else {
        let next = if l < 0 || l == 0 {
            pos + 1
        } else {
            pos + l
        };
        lemma_found_from(pats, hay, at, len, next);
        let rest = scan_from(pats, hay, next);
        let k = choose|k: int| 0 <= k < rest.len() && rest[k] == (at, at + len);
        if l < 0 {
            assert(r[k] == rest[k]);
        } else {
            assert(r[k + 1] == rest[k]);
        }
    }
}

/// A registered pattern `p` placed between `pre` and `suf` is reported at
/// its place, as match number at most `pre.len()` (so within any output
/// capacity of at least the haystack length), provided no occurrence that starts inside `pre` reaches into
/// it and no pattern starting where it starts is longer.
pub proof fn lemma_pattern_found_in_place(pats: Seq<Seq<u8>>, pre: Seq<u8>, p: Seq<u8>, suf: Seq<u8>)
    requires
        pats.contains(p),
        forall|i: int, s: int|
            0 <= i < pats.len() && 0 <= s < pre.len() && #[trigger] occurs_at(pats[i], pre + p + suf, s)
                ==> s + pats[i].len() <= pre.len(),
        forall|i: int|
            0 <= i < pats.len() && occurs_at(#[trigger] pats[i], pre + p + suf, pre.len() as int)
                ==> pats[i].len() <= p.len(),
    ensures
        exists|i: int|
            0 <= i <= pre.len() && i < leftmost_longest(pats, pre + p + suf).len() && #[trigger] leftmost_longest(
                pats,
                pre + p + suf,
            )[i] == (pre.len() as int, (pre.len() + p.len()) as int),
{
    let hay = pre + p + suf;
    let j = choose|j: int| 0 <= j < pats.len() && pats[j] == p;
    assert(hay.subrange(pre.len() as int, (pre.len() + p.len()) as int) =~= p);
    assert(occurs_at(pats[j], hay, pre.len() as int));
    lemma_found_from(pats, hay, pre.len() as int, p.len() as int, 0);
    lemma_scan_from_shape(pats, hay, 0);
    let r = leftmost_longest(pats, hay);
    let k = choose|k: int| 0 <= k < r.len() && r[k] == (pre.len() as int, (pre.len() + p.len()) as int);
    assert(r[k].0 >= k);
}

} // verus!
