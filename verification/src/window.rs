//! Rank windows over a compressed match set.
//!
//! Matches are ordered by ascending identifier; the rank of a match is its
//! 1-based position in that order. A page of the UI asks for the half-open
//! rank window `[start, end)` and gets back exactly the identifiers whose
//! rank falls inside it, together with the total match count.

use crate::ranges::{
    flatten_ranges, ids_as_ints, lemma_flatten_len, lemma_flatten_membership, ranges_disjoint,
    total_count, MatchRange,
};
use vstd::prelude::*;

verus! {

/// `x` clamped to the interval `[0, n]`.
pub open spec fn clip(x: int, n: int) -> int {
    if x < 0 {
        0
    } else if x > n {
        n
    } else {
        x
    }
}

/// The identifiers whose 1-based rank lies in the half-open window
/// `[start, end)`, in rank order.
pub open spec fn window_ids(rs: Seq<MatchRange>, start: int, end: int) -> Seq<int>
    recommends
        1 <= start <= end,
{
    let fl = flatten_ranges(rs);
    let total = fl.len() as int;
    fl.subrange(clip(start - 1, total), clip(end - 1, total))
}

/// Splitting a flattened sequence at a range boundary splits the window:
/// the window over `fl + add` is the window over `fl` followed by the
/// matching slice of `add`.
proof fn lemma_window_extend(fl: Seq<int>, add: Seq<int>, lo: int, hi: int)
    requires
        0 <= lo <= hi,
    ensures
        (fl + add).subrange(
            clip(lo, fl.len() + add.len() as int),
            clip(hi, fl.len() + add.len() as int),
        ) =~= fl.subrange(clip(lo, fl.len() as int), clip(hi, fl.len() as int)) + add.subrange(
            clip(lo - fl.len(), add.len() as int),
            clip(hi - fl.len(), add.len() as int),
        ),
{
}

/// Counting identifiers a prefix of the range sequence covers.
proof fn lemma_total_count_take_step(rs: Seq<MatchRange>, j: int)
    requires
        0 <= j < rs.len(),
    ensures
        total_count(rs.take(j + 1)) == total_count(rs.take(j)) + rs[j].size(),
{
    assert(rs.take(j + 1).drop_last() =~= rs.take(j));
    assert(rs.take(j + 1).last() == rs[j]);
}

/// A prefix of a disjoint range sequence covers at most as many
/// identifiers as the whole.
proof fn lemma_total_count_take_le(rs: Seq<MatchRange>, j: int)
    requires
        ranges_disjoint(rs),
        0 <= j <= rs.len(),
    ensures
        total_count(rs.take(j)) <= total_count(rs),
    decreases rs.len() - j,
{
    if j == rs.len() {
        assert(rs.take(j) =~= rs);
    } else {
        lemma_total_count_take_le(rs, j + 1);
        lemma_total_count_take_step(rs, j);
        assert(rs[j].wf());
    }
}

/// Resolves a rank window against a compressed match set: returns the
/// identifiers whose 1-based rank lies in `[start, end)`, in rank order,
/// together with the total match count. A window entirely past the last
/// rank yields an empty identifier list but still the correct total.
pub fn resolve_window(ranges: &Vec<MatchRange>, start: usize, end: usize) -> (res: (
    Vec<usize>,
    usize,
))
    requires
        ranges_disjoint(ranges@),
        1 <= start <= end,
        total_count(ranges@) <= usize::MAX,
    ensures
        ids_as_ints(res.0@) == window_ids(ranges@, start as int, end as int),
        res.1 == total_count(ranges@),
{
    let rs = ranges;
    let mut out: Vec<usize> = Vec::new();
    let mut total: usize = 0;
    let mut idx: usize = 0;
    proof {
        assert(rs@.take(0) =~= Seq::<MatchRange>::empty());
        assert(ids_as_ints(out@) =~= Seq::<int>::empty());
        assert(window_ids(rs@.take(0), start as int, end as int) =~= Seq::<int>::empty());
    }
    while idx < rs.len()
        invariant
            ranges_disjoint(rs@),
            total_count(rs@) <= usize::MAX,
            1 <= start <= end,
            0 <= idx <= rs@.len(),
            total == total_count(rs@.take(idx as int)),
            ids_as_ints(out@) =~= window_ids(rs@.take(idx as int), start as int, end as int),
        decreases rs@.len() - idx,
    {
        let rg = rs[idx];
        let ghost prefix = rs@.take(idx as int);
        let ghost fl = flatten_ranges(prefix);
        proof {
            assert(forall|k: int| 0 <= k < prefix.len() ==> prefix[k] == rs@[k]);
            assert(ranges_disjoint(prefix));
            lemma_flatten_len(prefix);
            lemma_total_count_take_le(rs@, idx + 1);
            lemma_total_count_take_step(rs@, idx as int);
            assert(rg.wf());
        }
        let size = rg.last - rg.first + 1;
        let prev = total;
        total = total + size;
        // the slice of this range that falls inside the window
        let a = if start - 1 > prev {
            start - 1 - prev
        } else {
            0
        };
        let b = if end - 1 > prev {
            if end - 1 - prev < size {
                end - 1 - prev
            } else {
                size
            }
        } else {
            0
        };
        proof {
            assert(b == clip(end - 1 - prev, size as int));
        }
        if a < b {
            let cur_start = rg.first + a;
            let count = b - a;
            let mut t: usize = 0;
            let ghost out0 = out@;
            while t < count
                invariant
                    rg.wf(),
                    0 <= a < b <= rg.size(),
                    count == b - a,
                    cur_start == rg.first + a,
                    0 <= t <= count,
                    ids_as_ints(out@) =~= ids_as_ints(out0) + rg.ids().subrange(
                        a as int,
                        a + t,
                    ),
                decreases count - t,
            {
                let ghost before = out@;
                out.push(cur_start + t);
                proof {
                    assert(ids_as_ints(out@) =~= ids_as_ints(before).push(
                        (cur_start + t) as int,
                    ));
                    assert(rg.ids()[a + t] == (cur_start + t) as int);
                    assert(rg.ids().subrange(a as int, a + t + 1) =~= rg.ids().subrange(
                        a as int,
                        a + t,
                    ).push(rg.ids()[a + t]));
                    assert(ids_as_ints(before).push((cur_start + t) as int) =~= ids_as_ints(
                        out0,
                    ) + rg.ids().subrange(a as int, a + t + 1));
                }
                t = t + 1;
            }
            proof {
                assert(ids_as_ints(out@) =~= ids_as_ints(out0) + rg.ids().subrange(
                    a as int,
                    b as int,
                ));
            }
        }
        idx = idx + 1;
        proof {
            let next = rs@.take(idx as int);
            assert(next.drop_last() =~= prefix);
            assert(next.last() == rg);
            assert(flatten_ranges(next) == fl + rg.ids());
            lemma_window_extend(fl, rg.ids(), start - 1, end - 1);
            if a >= b {
                assert(rg.ids().subrange(
                    clip(start - 1 - prev, rg.size()),
                    clip(end - 1 - prev, rg.size()),
                ) =~= Seq::<int>::empty());
                assert(ids_as_ints(out@) =~= window_ids(next, start as int, end as int));
            } else {
                assert(ids_as_ints(out@) =~= window_ids(next, start as int, end as int));
            }
        }
    }
    proof {
        assert(rs@.take(rs@.len() as int) =~= rs@);
    }
    (out, total)
}

/// Law: the number of identifiers a window resolves to is exactly
/// `min(end, total + 1) - min(start, total + 1)` (never negative, since
/// `start <= end`): the window is cut off at the last rank, and a window
/// starting past the last rank is empty.
pub proof fn lemma_window_count(rs: Seq<MatchRange>, start: int, end: int)
    requires
        ranges_disjoint(rs),
        1 <= start <= end,
    ensures
        window_ids(rs, start, end).len() == vstd::math::min(end, total_count(rs) + 1)
            - vstd::math::min(start, total_count(rs) + 1),
{
    lemma_flatten_len(rs);
}

/// Law: every identifier a window resolves to is covered by some range of
/// the match set.
pub proof fn lemma_window_ids_in_ranges(rs: Seq<MatchRange>, start: int, end: int)
    requires
        ranges_disjoint(rs),
        1 <= start <= end,
    ensures
        forall|k: int|
            0 <= k < window_ids(rs, start, end).len() ==> exists|i: int|
                0 <= i < rs.len() && (#[trigger] rs[i]).first
                    <= #[trigger] window_ids(rs, start, end)[k] <= rs[i].last,
{
    let w = window_ids(rs, start, end);
    let fl = flatten_ranges(rs);
    assert forall|k: int| 0 <= k < w.len() implies exists|i: int|
        0 <= i < rs.len() && (#[trigger] rs[i]).first <= #[trigger] w[k] <= rs[i].last by {
        let total = fl.len() as int;
        assert(w[k] == fl[clip(start - 1, total) + k]);
        assert(fl.contains(w[k]));
        lemma_flatten_membership(rs, w[k]);
    }
}

/// Law: consecutive windows tile the match set. Resolving `[a, b)` and
/// `[b, c)` and concatenating gives exactly the resolution of `[a, c)`:
/// paging through adjacent windows reconstructs the flattened match set
/// with no gaps and no duplicates.
pub proof fn lemma_windows_concat(rs: Seq<MatchRange>, a: int, b: int, c: int)
    requires
        ranges_disjoint(rs),
        1 <= a <= b <= c,
    ensures
        window_ids(rs, a, b) + window_ids(rs, b, c) =~= window_ids(rs, a, c),
{
}

/// Law: the single window that spans every rank resolves to the whole
/// flattened match set.
pub proof fn lemma_window_full(rs: Seq<MatchRange>)
    requires
        ranges_disjoint(rs),
    ensures
        window_ids(rs, 1, total_count(rs) + 1) =~= flatten_ranges(rs),
{
    lemma_flatten_len(rs);
}

} // verus!
