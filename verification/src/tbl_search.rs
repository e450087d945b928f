//! Fuzzy search over the live table list.
//!
//! The search box first narrows the list of table names. Scoring a name
//! against the typed pattern is delegated to the fuzzy-matcher crate; the
//! filtering and the ordering of the scored names are verified here.

use vstd::multiset::Multiset;
use vstd::prelude::*;

use fuzzy_matcher::FuzzyMatcher;

verus! {

/// The score fuzzy-matcher's skim algorithm (default configuration) gives
/// a choice string against a pattern, `None` when the pattern does not
/// match. The score depends on the two strings alone.
pub uninterp spec fn fuzzy_score(choice: Seq<char>, pattern: Seq<char>) -> Option<i64>;

/// Relies on fuzzy_matcher::skim::SkimMatcherV2 (default configuration):
/// `fuzzy_match` scores a choice against a pattern by deterministic
/// sequence alignment of the two strings, `None` when they do not match.
#[verifier::external_body]
fn fuzzy_match_score(choice: &str, pattern: &str) -> (r: Option<i64>)
    ensures
        r == fuzzy_score(choice@, pattern@),
{
    fuzzy_matcher::skim::SkimMatcherV2::default().fuzzy_match(choice, pattern)
}

/// The `(name, score)` pairs of the names that match the pattern, in list
/// order.
pub open spec fn scored_pairs(names: Seq<Seq<char>>, pattern: Seq<char>) -> Seq<(Seq<char>, i64)>
    decreases names.len(),
{
    if names.len() == 0 {
        Seq::empty()
    } else {
        scored_pairs(names.drop_last(), pattern) + (match fuzzy_score(names.last(), pattern) {
            Some(s) => seq![(names.last(), s)],
            None => Seq::empty(),
        })
    }
}

/// Non-decreasing score order.
pub open spec fn sorted_by_score(ps: Seq<(Seq<char>, i64)>) -> bool {
    forall|k1: int, k2: int| 0 <= k1 <= k2 < ps.len() ==> ps[k1].1 <= ps[k2].1
}

/// The view of a scored-name list.
pub open spec fn pairs_view(ps: Seq<(String, i64)>) -> Seq<(Seq<char>, i64)> {
    ps.map_values(|p: (String, i64)| (p.0@, p.1))
}

/// Scores every table name against the pattern, keeping the matches in
/// list order.
fn score_tables(tbls: &Vec<String>, pattern: &str) -> (r: Vec<(String, i64)>)
    ensures
        pairs_view(r@) == scored_pairs(
            crate::coordinator::table_names(tbls@),
            pattern@,
        ),
{
    let ghost names = crate::coordinator::table_names(tbls@);
    let mut r: Vec<(String, i64)> = Vec::new();
    let mut i: usize = 0;
    proof {
        assert(names.take(0) =~= Seq::<Seq<char>>::empty());
        assert(pairs_view(r@) =~= scored_pairs(names.take(0), pattern@));
    }
    while i < tbls.len()
        invariant
            names == crate::coordinator::table_names(tbls@),
            0 <= i <= tbls@.len(),
            pairs_view(r@) == scored_pairs(names.take(i as int), pattern@),
        decreases tbls@.len() - i,
    {
        let ghost r0 = r@;
        let score = fuzzy_match_score(tbls[i].as_str(), pattern);
        match score {
            Some(s) => {
                r.push((tbls[i].clone(), s));
                proof {
                    assert(pairs_view(r@) =~= pairs_view(r0).push((tbls@[i as int]@, s)));
                }
            },
            None => {},
        }
        i = i + 1;
        proof {
            assert(names.take(i as int).drop_last() =~= names.take(i - 1));
            assert(names.take(i as int).last() == tbls@[i - 1]@);
            match fuzzy_score(tbls@[i - 1]@, pattern@) {
                Some(s) => {
                    assert(pairs_view(r@) =~= scored_pairs(names.take(i - 1), pattern@) + seq![
                        (tbls@[i - 1]@, s),
                    ]);
                },
                None => {},
            }
        }
    }
    proof {
        assert(names.take(names.len() as int) =~= names);
    }
    r
}

/// Sorts the scored names ascending by score (selection of the minimum,
/// repeatedly), keeping exactly the same multiset of pairs.
fn sort_by_score(pairs: Vec<(String, i64)>) -> (r: Vec<(String, i64)>)
    ensures
        pairs_view(r@).to_multiset() == pairs_view(pairs@).to_multiset(),
        sorted_by_score(pairs_view(r@)),
{
    broadcast use vstd::seq_lib::group_to_multiset_ensures;

    let ghost sp = pairs_view(pairs@);
    let mut remaining = pairs;
    let mut out: Vec<(String, i64)> = Vec::new();
    proof {
        assert(pairs_view(out@) =~= Seq::<(Seq<char>, i64)>::empty());
        assert(pairs_view(out@).to_multiset().add(pairs_view(remaining@).to_multiset())
            =~= sp.to_multiset());
    }
    while remaining.len() > 0
        invariant
            pairs_view(out@).to_multiset().add(pairs_view(remaining@).to_multiset())
                == sp.to_multiset(),
            sorted_by_score(pairs_view(out@)),
            forall|k: int, j: int|
                0 <= k < out@.len() && 0 <= j < remaining@.len() ==> (#[trigger] out@[k]).1
                    <= (#[trigger] remaining@[j]).1,
        decreases remaining@.len(),
    {
        let mut m: usize = 0;
        let mut j: usize = 1;
        while j < remaining.len()
            invariant
                0 < remaining@.len(),
                0 <= m < j <= remaining@.len(),
                forall|k: int| 0 <= k < j ==> (#[trigger] remaining@[m as int]).1
                    <= remaining@[k].1,
            decreases remaining@.len() - j,
        {
            if remaining[j].1 < remaining[m].1 {
                m = j;
            }
            j = j + 1;
        }
        let ghost rem0 = remaining@;
        let ghost out0 = out@;
        let e = remaining.remove(m);
        out.push(e);
        proof {
            broadcast use vstd::seq_lib::group_to_multiset_ensures;

            assert(pairs_view(out@) =~= pairs_view(out0).push((e.0@, e.1)));
            assert(pairs_view(remaining@) =~= pairs_view(rem0).remove(m as int));
            assert(pairs_view(rem0)[m as int] == (e.0@, e.1));
            assert(pairs_view(out0).push((e.0@, e.1)).to_multiset() == pairs_view(
                out0,
            ).to_multiset().insert((e.0@, e.1)));
            assert(pairs_view(out@).to_multiset() == pairs_view(out0).to_multiset().insert(
                (e.0@, e.1),
            ));
            assert(pairs_view(rem0).remove(m as int).to_multiset() == pairs_view(
                rem0,
            ).to_multiset().remove(pairs_view(rem0)[m as int]));
            assert(pairs_view(remaining@).to_multiset() == pairs_view(rem0).to_multiset().remove(
                (e.0@, e.1),
            ));
            assert(pairs_view(rem0).to_multiset().count((e.0@, e.1)) >= 1) by {
                assert(pairs_view(rem0).contains((e.0@, e.1)));
            }
            assert(pairs_view(out@).to_multiset().add(pairs_view(remaining@).to_multiset())
                =~= pairs_view(out0).to_multiset().add(pairs_view(rem0).to_multiset()));
            assert(sorted_by_score(pairs_view(out@))) by {
                assert(forall|k: int|
                    0 <= k < out0.len() ==> (#[trigger] pairs_view(out0)[k]).1 == out0[k].1);
            }
            assert forall|k: int, jj: int|
                0 <= k < out@.len() && 0 <= jj < remaining@.len() implies (#[trigger] out@[k]).1
                <= (#[trigger] remaining@[jj]).1 by {
                if jj < m {
                    assert(remaining@[jj] == rem0[jj]);
                } else {
                    assert(remaining@[jj] == rem0[jj + 1]);
                }
                if k < out0.len() {
                    assert(out@[k] == out0[k]);
                } else {
                    assert(out@[k] == e);
                }
            }
        }
    }
    proof {
        assert(pairs_view(remaining@) =~= Seq::<(Seq<char>, i64)>::empty());
        assert(pairs_view(out@).to_multiset().add(Multiset::<(Seq<char>, i64)>::empty())
            =~= pairs_view(out@).to_multiset());
        assert(pairs_view(remaining@).to_multiset() =~= Multiset::<(Seq<char>, i64)>::empty());
    }
    out
}

/// Fuzzy-searches the live table list: the names that match the pattern,
/// ordered ascending by match score. The result is some score-sorted
/// arrangement of exactly the matching `(name, score)` pairs.
pub fn rank_tables_scored(tbls: &Vec<String>, pattern: &str) -> (r: Vec<(String, i64)>)
    ensures
        pairs_view(r@).to_multiset() == scored_pairs(
            crate::coordinator::table_names(tbls@),
            pattern@,
        ).to_multiset(),
        sorted_by_score(pairs_view(r@)),
{
    let scored = score_tables(tbls, pattern);
    sort_by_score(scored)
}

/// Fuzzy-searches the live table list and returns the matching names,
/// ordered ascending by match score.
pub fn rank_tables(tbls: &Vec<String>, pattern: &str) -> (r: Vec<String>)
    ensures
        exists|ps: Seq<(Seq<char>, i64)>|
            {
                &&& ps.to_multiset() == scored_pairs(
                    crate::coordinator::table_names(tbls@),
                    pattern@,
                ).to_multiset()
                &&& sorted_by_score(ps)
                &&& r@.map_values(|s: String| s@) == ps.map_values(|p: (Seq<char>, i64)| p.0)
            },
{
    let scored = rank_tables_scored(tbls, pattern);
    let mut r: Vec<String> = Vec::new();
    let mut i: usize = 0;
    while i < scored.len()
        invariant
            0 <= i <= scored@.len(),
            r@.len() == i,
            forall|k: int| 0 <= k < i ==> #[trigger] r@[k]@ == scored@[k].0@,
        decreases scored@.len() - i,
    {
        r.push(scored[i].0.clone());
        i = i + 1;
    }
    proof {
        let ps = pairs_view(scored@);
        assert(r@.map_values(|s: String| s@) =~= ps.map_values(|p: (Seq<char>, i64)| p.0));
    }
    r
}

} // verus!
