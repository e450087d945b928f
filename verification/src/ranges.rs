//! Compressed match sets: runs of consecutive row identifiers.
//!
//! A search query yields a set of matching row identifiers (positive
//! integers). The set is stored as an ascending sequence of maximal
//! inclusive runs, so that a million consecutive matches cost one pair.

use vstd::prelude::*;

verus! {

/// An inclusive run `[first, last]` of positive row identifiers.
#[derive(Clone, Copy, Debug, PartialEq, Eq, Structural)]
pub struct MatchRange {
    pub first: usize,
    pub last: usize,
}

impl MatchRange {
    /// A single range is well formed when `1 <= first <= last`:
    /// identifiers are positive and a range covers at least one of them.
    pub open spec fn wf(self) -> bool {
        1 <= self.first <= self.last
    }

    /// Number of identifiers the range covers.
    pub open spec fn size(self) -> int {
        self.last - self.first + 1
    }

    /// The ascending identifiers covered by the range.
    pub open spec fn ids(self) -> Seq<int> {
        Seq::new((self.last - self.first + 1) as nat, |k: int| self.first + k)
    }
}

/// A range sequence is usable as a match set when every range is well
/// formed and neighbouring ranges are strictly ascending without overlap:
/// each identifier is covered at most once, in ascending order.
pub open spec fn ranges_disjoint(rs: Seq<MatchRange>) -> bool {
    &&& forall|i: int| 0 <= i < rs.len() ==> (#[trigger] rs[i]).wf()
    &&& forall|i: int| 0 <= i < rs.len() - 1 ==> (#[trigger] rs[i]).last < rs[i + 1].first
}

/// A compressed match set is well formed when it is disjoint and maximal:
/// a gap lies between neighbouring ranges, adjacent runs having been
/// merged into one range.
pub open spec fn ranges_wf(rs: Seq<MatchRange>) -> bool {
    &&& ranges_disjoint(rs)
    &&& forall|i: int| 0 <= i < rs.len() - 1 ==> (#[trigger] rs[i]).last + 1 < rs[i + 1].first
}

/// Total number of identifiers a range sequence covers.
pub open spec fn total_count(rs: Seq<MatchRange>) -> int
    decreases rs.len(),
{
    if rs.len() == 0 {
        0
    } else {
        total_count(rs.drop_last()) + rs.last().size()
    }
}

/// The flattened match set: all covered identifiers, in ascending order.
/// Rank `k` (1-based) of the match set is `flatten_ranges(rs)[k - 1]`.
pub open spec fn flatten_ranges(rs: Seq<MatchRange>) -> Seq<int>
    decreases rs.len(),
{
    if rs.len() == 0 {
        Seq::empty()
    } else {
        flatten_ranges(rs.drop_last()) + rs.last().ids()
    }
}

/// A prefix of a disjoint range sequence is disjoint.
pub proof fn lemma_ranges_disjoint_drop_last(rs: Seq<MatchRange>)
    requires
        ranges_disjoint(rs),
        rs.len() > 0,
    ensures
        ranges_disjoint(rs.drop_last()),
{
}

/// The flattened sequence covers exactly `total_count` identifiers.
pub proof fn lemma_flatten_len(rs: Seq<MatchRange>)
    requires
        ranges_disjoint(rs),
    ensures
        flatten_ranges(rs).len() == total_count(rs),
    decreases rs.len(),
{
    if rs.len() > 0 {
        lemma_ranges_disjoint_drop_last(rs);
        lemma_flatten_len(rs.drop_last());
        assert(rs[rs.len() - 1].wf());
    }
}

/// Every identifier of a disjoint match set lies between the first
/// range's start and the last range's end.
pub proof fn lemma_flatten_bounds(rs: Seq<MatchRange>)
    requires
        ranges_disjoint(rs),
        rs.len() > 0,
    ensures
        forall|k: int|
            0 <= k < flatten_ranges(rs).len() ==> rs[0].first <= #[trigger] flatten_ranges(rs)[k]
                <= rs.last().last,
    decreases rs.len(),
{
    let fl = flatten_ranges(rs);
    let prefix = rs.drop_last();
    let pfl = flatten_ranges(prefix);
    if rs.len() > 1 {
        lemma_ranges_disjoint_drop_last(rs);
        lemma_flatten_bounds(prefix);
    }
    assert forall|k: int| 0 <= k < fl.len() implies rs[0].first <= #[trigger] fl[k]
        <= rs.last().last by {
        if k < pfl.len() {
            assert(fl[k] == pfl[k]);
            assert(prefix[0] == rs[0]);
            assert(prefix.last() == rs[rs.len() - 2]);
            assert(rs[rs.len() - 2].last < rs[rs.len() - 1].first);
            assert(rs[rs.len() - 1].wf());
        } else {
            assert(fl[k] == rs.last().ids()[k - pfl.len()]);
            assert(rs[rs.len() - 1].wf());
            if rs.len() > 1 {
                assert(rs[0].wf());
                assert(prefix[0] == rs[0]);
                assert(prefix.len() > 0);
                assert(pfl.len() > 0) by {
                    lemma_flatten_len(prefix);
                    lemma_total_count_at_least_len(prefix);
                }
                assert(rs[0].first <= pfl[0] <= rs[rs.len() - 2].last);
                assert(rs[rs.len() - 2].last < rs[rs.len() - 1].first);
            }
        }
    }
}

/// A disjoint match set covers at least one identifier per range.
pub proof fn lemma_total_count_at_least_len(rs: Seq<MatchRange>)
    requires
        ranges_disjoint(rs),
    ensures
        total_count(rs) >= rs.len(),
    decreases rs.len(),
{
    if rs.len() > 0 {
        lemma_ranges_disjoint_drop_last(rs);
        lemma_total_count_at_least_len(rs.drop_last());
        assert(rs[rs.len() - 1].wf());
    }
}

/// The flattened match set of a disjoint range sequence is strictly
/// ascending: no identifier occurs twice.
pub proof fn lemma_flatten_strictly_ascending(rs: Seq<MatchRange>)
    requires
        ranges_disjoint(rs),
    ensures
        forall|k1: int, k2: int|
            0 <= k1 < k2 < flatten_ranges(rs).len() ==> #[trigger] flatten_ranges(rs)[k1]
                < #[trigger] flatten_ranges(rs)[k2],
    decreases rs.len(),
{
    let fl = flatten_ranges(rs);
    if rs.len() > 0 {
        let prefix = rs.drop_last();
        let pfl = flatten_ranges(prefix);
        lemma_ranges_disjoint_drop_last(rs);
        lemma_flatten_strictly_ascending(prefix);
        assert forall|k1: int, k2: int| 0 <= k1 < k2 < fl.len() implies #[trigger] fl[k1]
            < #[trigger] fl[k2] by {
            assert(rs[rs.len() - 1].wf());
            if k2 < pfl.len() {
                assert(fl[k1] == pfl[k1]);
                assert(fl[k2] == pfl[k2]);
            } else if k1 < pfl.len() {
                assert(fl[k1] == pfl[k1]);
                assert(fl[k2] == rs.last().ids()[k2 - pfl.len()]);
                lemma_flatten_bounds(prefix);
                assert(prefix.last() == rs[rs.len() - 2]);
                assert(rs[rs.len() - 2].last < rs[rs.len() - 1].first);
            } else {
                assert(fl[k1] == rs.last().ids()[k1 - pfl.len()]);
                assert(fl[k2] == rs.last().ids()[k2 - pfl.len()]);
            }
        }
    }
}

/// An identifier occurs in the flattened match set exactly when some range
/// covers it.
pub proof fn lemma_flatten_membership(rs: Seq<MatchRange>, x: int)
    requires
        ranges_disjoint(rs),
    ensures
        flatten_ranges(rs).contains(x) <==> exists|i: int|
            0 <= i < rs.len() && (#[trigger] rs[i]).first <= x <= rs[i].last,
    decreases rs.len(),
{
    let fl = flatten_ranges(rs);
    if rs.len() == 0 {
    } else {
        let prefix = rs.drop_last();
        lemma_ranges_disjoint_drop_last(rs);
        lemma_flatten_membership(prefix, x);
        let pfl = flatten_ranges(prefix);
        let last = rs[rs.len() - 1];
        assert(last.wf());
        assert(fl == pfl + last.ids());
        if fl.contains(x) {
            let k = choose|k: int| 0 <= k < fl.len() && fl[k] == x;
            if k < pfl.len() {
                assert(pfl[k] == x);
                assert(pfl.contains(x));
                let i = choose|i: int|
                    0 <= i < prefix.len() && (#[trigger] prefix[i]).first <= x <= prefix[i].last;
                assert(rs[i].first <= x <= rs[i].last);
            } else {
                let j = k - pfl.len();
                assert(last.ids()[j] == x);
                assert(last.first <= x <= last.last);
                assert(rs[rs.len() - 1].first <= x <= rs[rs.len() - 1].last);
            }
        }
        if exists|i: int| 0 <= i < rs.len() && (#[trigger] rs[i]).first <= x <= rs[i].last {
            let i = choose|i: int| 0 <= i < rs.len() && (#[trigger] rs[i]).first <= x <= rs[i].last;
            if i < rs.len() - 1 {
                assert(prefix[i].first <= x <= prefix[i].last);
                assert(pfl.contains(x));
                let k = choose|k: int| 0 <= k < pfl.len() && pfl[k] == x;
                assert(fl[k] == x);
                assert(fl.contains(x));
            } else {
                let j = x - last.first;
                assert(0 <= j < last.ids().len());
                assert(last.ids()[j] == x);
                assert(fl[pfl.len() + j] == x);
                assert(fl.contains(x));
            }
        }
    }
}

/// Non-decreasing order on an identifier sequence.
pub open spec fn sorted_ids(s: Seq<usize>) -> bool {
    forall|k1: int, k2: int| 0 <= k1 <= k2 < s.len() ==> s[k1] <= s[k2]
}

/// The identifiers of a sequence, as mathematical integers.
pub open spec fn ids_as_ints(s: Seq<usize>) -> Seq<int> {
    s.map_values(|x: usize| x as int)
}

/// Appending a range to a sequence appends its identifiers to the
/// flattened match set.
pub proof fn lemma_flatten_snoc(rs: Seq<MatchRange>, cur: MatchRange)
    ensures
        flatten_ranges(rs.push(cur)) == flatten_ranges(rs) + cur.ids(),
        total_count(rs.push(cur)) == total_count(rs) + cur.size(),
{
    assert(rs.push(cur).drop_last() =~= rs);
    assert(rs.push(cur).last() == cur);
}

/// Sorts the identifiers in place (insertion sort), preserving the
/// multiset of elements.
fn sort_ids(ids: &mut Vec<usize>)
    ensures
        final(ids)@.len() == old(ids)@.len(),
        sorted_ids(final(ids)@),
        final(ids)@.to_multiset() == old(ids)@.to_multiset(),
{
    let n = ids.len();
    let mut i: usize = 1;
    while i < n
        invariant
            n == ids@.len(),
            1 <= i,
            ids@.to_multiset() == old(ids)@.to_multiset(),
            forall|k1: int, k2: int| 0 <= k1 <= k2 < i && k2 < n ==> ids@[k1] <= ids@[k2],
        decreases n - i,
    {
        let mut j: usize = i;
        while j > 0 && ids[j - 1] > ids[j]
            invariant
                n == ids@.len(),
                0 <= j <= i < n,
                ids@.to_multiset() == old(ids)@.to_multiset(),
                forall|k1: int, k2: int|
                    0 <= k1 <= k2 <= i && k2 != j ==> ids@[k1] <= ids@[k2],
            decreases j,
        {
            let ghost pre = ids@;
            let a = ids[j - 1];
            let b = ids[j];
            ids.set(j - 1, b);
            ids.set(j, a);
            proof {
                broadcast use vstd::seq_lib::group_to_multiset_ensures;

                assert(ids@ == pre.update(j - 1, b).update(j as int, a));
                assert(pre.update(j - 1, b)[j as int] == b);
                assert(ids@.to_multiset() =~= pre.to_multiset());
            }
            j = j - 1;
        }
        i = i + 1;
    }
}

/// Equal multisets contain the same elements.
proof fn lemma_multiset_eq_same_elems(s1: Seq<usize>, s2: Seq<usize>)
    requires
        s1.to_multiset() == s2.to_multiset(),
    ensures
        forall|x: usize| s1.contains(x) <==> s2.contains(x),
{
    assert forall|x: usize| s1.contains(x) <==> s2.contains(x) by {
        vstd::seq_lib::to_multiset_contains(s1, x);
        vstd::seq_lib::to_multiset_contains(s2, x);
    }
}

/// Pushing an element onto a sequence inserts it into the element set.
proof fn lemma_push_to_set<A>(s: Seq<A>, a: A)
    ensures
        s.push(a).to_set() == s.to_set().insert(a),
{
    assert forall|x: A| s.push(a).contains(x) implies s.to_set().insert(a).contains(x) by {
        let k = choose|k: int| 0 <= k < s.push(a).len() && s.push(a)[k] == x;
        if k < s.len() {
            assert(s[k] == x);
        }
    }
    assert forall|x: A| s.to_set().insert(a).contains(x) implies s.push(a).contains(x) by {
        if x == a {
            assert(s.push(a)[s.len() as int] == x);
        } else {
            let k = choose|k: int| 0 <= k < s.len() && s[k] == x;
            assert(s.push(a)[k] == x);
        }
    }
    assert(s.push(a).to_set() =~= s.to_set().insert(a));
}

/// Compresses an arbitrary collection of positive row identifiers (not
/// necessarily sorted or deduplicated) into a well-formed match set:
/// ascending, disjoint, maximally merged ranges that cover exactly the
/// distinct input identifiers, each once. Empty input yields an empty
/// match set.
pub fn compress(ids: Vec<usize>) -> (r: Vec<MatchRange>)
    requires
        forall|k: int| 0 <= k < ids@.len() ==> (#[trigger] ids@[k]) >= 1,
    ensures
        ranges_wf(r@),
        flatten_ranges(r@).to_set() == ids_as_ints(ids@).to_set(),
        flatten_ranges(r@).no_duplicates(),
        total_count(r@) == ids_as_ints(ids@).to_set().len(),
{
    let ghost input = ids@;
    let mut ids = ids;
    sort_ids(&mut ids);
    proof {
        lemma_multiset_eq_same_elems(ids@, input);
        assert(forall|k: int| 0 <= k < ids@.len() ==> (#[trigger] ids@[k]) >= 1) by {
            assert(forall|k: int|
                0 <= k < ids@.len() ==> input.contains(#[trigger] ids@[k]));
        }
    }
    let mut r: Vec<MatchRange> = Vec::new();
    if ids.len() == 0 {
        proof {
            assert(ids_as_ints(input).to_set() =~= Set::<int>::empty());
            vstd::seq_lib::lemma_seq_empty_equality(ids@);
        }
        return r;
    }
    let mut start = ids[0];
    let mut end = ids[0];
    let mut i: usize = 1;
    proof {
        let work = r@.push(MatchRange { first: start, last: end });
        lemma_flatten_snoc(r@, MatchRange { first: start, last: end });
        assert(flatten_ranges(r@) =~= Seq::<int>::empty());
        assert(flatten_ranges(work) =~= seq![ids@[0] as int]);
        assert(ids@.take(1) =~= seq![ids@[0]]);
        assert(flatten_ranges(work).to_set() =~= ids_as_ints(ids@.take(1)).to_set()) by {
            assert(ids_as_ints(ids@.take(1))[0] == ids@[0] as int);
            assert(flatten_ranges(work)[0] == ids@[0] as int);
        }
    }
    while i < ids.len()
        invariant
            1 <= i <= ids@.len(),
            sorted_ids(ids@),
            forall|k: int| 0 <= k < ids@.len() ==> (#[trigger] ids@[k]) >= 1,
            start <= end,
            end == ids@[i - 1],
            ranges_wf(r@.push(MatchRange { first: start, last: end })),
            flatten_ranges(r@.push(MatchRange { first: start, last: end })).to_set()
                =~= ids_as_ints(ids@.take(i as int)).to_set(),
        decreases ids@.len() - i,
    {
        let id = ids[i];
        proof {
            assert(ids@[i - 1] <= ids@[i as int]);
        }
        let ghost old_work = r@.push(MatchRange { first: start, last: end });
        let ghost old_take = ids@.take(i as int);
        if id == end {
            // duplicate: already covered by the current run
            proof {
                lemma_flatten_snoc(r@, MatchRange { first: start, last: end });
                assert(flatten_ranges(old_work).contains(id as int)) by {
                    let cids = MatchRange { first: start, last: end }.ids();
                    assert(cids[end - start] == id as int);
                    assert(flatten_ranges(old_work)[flatten_ranges(r@).len() + end - start]
                        == id as int);
                }
            }
        } else if id - end == 1 {
            // consecutive: extend the current run
            end = id;
            proof {
                let new_work = r@.push(MatchRange { first: start, last: end });
                lemma_flatten_snoc(r@, MatchRange { first: start, last: end });
                lemma_flatten_snoc(r@, MatchRange { first: start, last: (end - 1) as usize });
                assert(MatchRange { first: start, last: end }.ids()
                    =~= MatchRange { first: start, last: (end - 1) as usize }.ids().push(
                    id as int,
                ));
                assert(flatten_ranges(new_work) =~= flatten_ranges(old_work).push(id as int));
                lemma_push_to_set(flatten_ranges(old_work), id as int);
                assert(flatten_ranges(new_work).to_set()
                    =~= flatten_ranges(old_work).to_set().insert(id as int));
                assert(ranges_wf(new_work)) by {
                    assert(forall|k: int|
                        0 <= k < new_work.len() - 1 ==> #[trigger] new_work[k] == old_work[k]);
                    assert(new_work[new_work.len() - 1].wf());
                }
            }
        } else {
            // gap: close the current run and start a new one
            proof {
                assert(end + 1 < id);
            }
            r.push(MatchRange { first: start, last: end });
            start = id;
            end = id;
            proof {
                let new_work = r@.push(MatchRange { first: start, last: end });
                let closed = r@;
                lemma_flatten_snoc(closed, MatchRange { first: start, last: end });
                lemma_flatten_snoc(closed.drop_last(), MatchRange {
                    first: closed.last().first,
                    last: closed.last().last,
                });
                assert(closed.drop_last().push(closed.last()) =~= closed);
                assert(flatten_ranges(closed) == flatten_ranges(old_work)) by {
                    assert(old_work =~= closed);
                }
                assert(MatchRange { first: start, last: end }.ids() =~= seq![id as int]);
                assert(flatten_ranges(new_work) =~= flatten_ranges(old_work).push(id as int));
                lemma_push_to_set(flatten_ranges(old_work), id as int);
                assert(flatten_ranges(new_work).to_set()
                    =~= flatten_ranges(old_work).to_set().insert(id as int));
                assert(ranges_wf(new_work)) by {
                    assert(forall|k: int|
                        0 <= k < old_work.len() ==> (#[trigger] old_work[k]).wf());
                    assert(forall|k: int|
                        0 <= k < new_work.len() - 1 ==> #[trigger] new_work[k] == old_work[k]);
                }
            }
        }
        i = i + 1;
        proof {
            assert(ids@.take(i as int) =~= old_take.push(ids@[i - 1]));
            assert(ids_as_ints(ids@.take(i as int))
                =~= ids_as_ints(old_take).push(ids@[i - 1] as int));
            lemma_push_to_set(ids_as_ints(old_take), ids@[i - 1] as int);
            assert(ids_as_ints(old_take).push(ids@[i - 1] as int).to_set()
                =~= ids_as_ints(old_take).to_set().insert(ids@[i - 1] as int));
        }
    }
    r.push(MatchRange { first: start, last: end });
    proof {
        assert(ids@.take(ids@.len() as int) =~= ids@);
        assert(ids_as_ints(ids@).to_set() =~= ids_as_ints(input).to_set()) by {
            lemma_multiset_eq_same_elems(ids@, input);
            assert forall|x: int| ids_as_ints(ids@).contains(x) implies ids_as_ints(
                input,
            ).contains(x) by {
                let k = choose|k: int| 0 <= k < ids_as_ints(ids@).len() && ids_as_ints(ids@)[k] == x;
                assert(ids@.contains(ids@[k]));
                assert(input.contains(ids@[k]));
                let k2 = choose|k2: int| 0 <= k2 < input.len() && input[k2] == ids@[k];
                assert(ids_as_ints(input)[k2] == x);
            }
            assert forall|x: int| ids_as_ints(input).contains(x) implies ids_as_ints(
                ids@,
            ).contains(x) by {
                let k = choose|k: int|
                    0 <= k < ids_as_ints(input).len() && ids_as_ints(input)[k] == x;
                assert(input.contains(input[k]));
                assert(ids@.contains(input[k]));
                let k2 = choose|k2: int| 0 <= k2 < ids@.len() && ids@[k2] == input[k];
                assert(ids_as_ints(ids@)[k2] == x);
            }
        }
        lemma_flatten_strictly_ascending(r@);
        assert(flatten_ranges(r@).no_duplicates());
        lemma_flatten_len(r@);
        flatten_ranges(r@).unique_seq_to_set();
    }
    r
}

/// The match set of an empty query over a table of `num_rows` rows: every
/// row matches. A table with no rows yields an empty match set, not an
/// error.
pub fn full_table_ranges(num_rows: usize) -> (r: Vec<MatchRange>)
    ensures
        ranges_wf(r@),
        total_count(r@) == num_rows,
        num_rows == 0 ==> r@ =~= Seq::<MatchRange>::empty(),
        num_rows > 0 ==> r@ =~= seq![MatchRange { first: 1, last: num_rows }],
{
    let mut r: Vec<MatchRange> = Vec::new();
    if num_rows > 0 {
        r.push(MatchRange { first: 1, last: num_rows });
        proof {
            assert(r@.drop_last() =~= Seq::<MatchRange>::empty());
            assert(total_count(r@.drop_last()) == 0);
            assert(r@.last() == MatchRange { first: 1, last: num_rows });
        }
    }
    r
}

} // verus!
