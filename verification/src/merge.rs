//! Reconciliation: combining cached and freshly fetched rows into one
//! ordered, complete page.
//!
//! The resolved window gives the identifiers in rank order. Rows for the
//! identifiers missing from the cache arrive as one fetched stream, in
//! ascending identifier order. The merge walks the window once: when the
//! next fetched row matches the identifier it is consumed, otherwise the
//! cache must hold the row. An identifier covered by neither source is a
//! reconciliation defect and is reported, never silently dropped.

use crate::ranges::ids_as_ints;
use crate::rows::{Row, RowCache, RowView};
use vstd::prelude::*;

verus! {

/// A fetched stream as mathematics: `(identifier, row contents)` pairs in
/// stream order.
pub open spec fn stream_view(f: Seq<(usize, Row)>) -> Seq<(int, RowView)> {
    f.map_values(|e: (usize, Row)| (e.0 as int, e.1@))
}

/// The merge of a window against a fetched stream and a cache: for each
/// window identifier in order, the next fetched row if it matches,
/// otherwise the cached row; the first identifier covered by neither is
/// the error.
pub open spec fn merge_spec(w: Seq<int>, f: Seq<(int, RowView)>, c: Map<int, RowView>) -> Result<
    Seq<RowView>,
    int,
>
    decreases w.len(),
{
    if w.len() == 0 {
        Ok(Seq::empty())
    } else {
        let id = w[0];
        if f.len() > 0 && f[0].0 == id {
            match merge_spec(w.drop_first(), f.drop_first(), c) {
                Ok(rest) => Ok(seq![f[0].1] + rest),
                Err(e) => Err(e),
            }
        } else if c.dom().contains(id) {
            match merge_spec(w.drop_first(), f, c) {
                Ok(rest) => Ok(seq![c[id]] + rest),
                Err(e) => Err(e),
            }
        } else {
            Err(id)
        }
    }
}

/// A partial merge result continued with an accumulated prefix.
spec fn merge_cont(acc: Seq<RowView>, r: Result<Seq<RowView>, int>) -> Result<Seq<RowView>, int> {
    match r {
        Ok(rest) => Ok(acc + rest),
        Err(e) => Err(e),
    }
}

/// Merges the window-ordered identifier list against the fetched stream
/// and the cache. On success the page holds one row per window identifier,
/// in window order; otherwise the first identifier found in neither source
/// is returned.
pub fn merge_rows(window: &Vec<usize>, fetched: &Vec<(usize, Row)>, cache: &RowCache) -> (r:
    Result<Vec<Row>, usize>)
    requires
        cache.wf(),
    ensures
        match r {
            Ok(rows) => merge_spec(
                ids_as_ints(window@),
                stream_view(fetched@),
                cache.contents(),
            ) == Ok::<Seq<RowView>, int>(rows@.map_values(|row: Row| row@)),
            Err(id) => merge_spec(
                ids_as_ints(window@),
                stream_view(fetched@),
                cache.contents(),
            ) == Err::<Seq<RowView>, int>(id as int),
        },
{
    let ghost w = ids_as_ints(window@);
    let ghost fv = stream_view(fetched@);
    let ghost c = cache.contents();
    let mut out: Vec<Row> = Vec::new();
    let mut i: usize = 0;
    let mut j: usize = 0;
    proof {
        assert(w.skip(0) =~= w);
        assert(fv.skip(0) =~= fv);
        assert(out@.map_values(|row: Row| row@) =~= Seq::<RowView>::empty());
    }
    while i < window.len()
        invariant
            cache.wf(),
            w == ids_as_ints(window@),
            fv == stream_view(fetched@),
            c == cache.contents(),
            0 <= i <= window@.len(),
            0 <= j <= fetched@.len(),
            merge_cont(
                out@.map_values(|row: Row| row@),
                merge_spec(w.skip(i as int), fv.skip(j as int), c),
            ) == merge_spec(w, fv, c),
            out@.len() == i,
        decreases window@.len() - i,
    {
        let id = window[i];
        let ghost acc0 = out@.map_values(|row: Row| row@);
        let ghost wrest = w.skip(i as int);
        let ghost frest = fv.skip(j as int);
        proof {
            assert(wrest[0] == id as int);
            assert(wrest.drop_first() =~= w.skip(i + 1));
            if j < fetched@.len() {
                assert(frest[0] == (fetched@[j as int].0 as int, fetched@[j as int].1@));
            }
        }
        if j < fetched.len() && fetched[j].0 == id {
            let row = fetched[j].1.clone();
            out.push(row);
            proof {
                assert(frest.drop_first() =~= fv.skip(j + 1));
                let acc1 = out@.map_values(|row: Row| row@);
                assert(acc1 =~= acc0 + seq![frest[0].1]);
                let sub = merge_spec(w.skip(i + 1), fv.skip(j + 1), c);
                assert(merge_spec(wrest, frest, c) == merge_cont(seq![frest[0].1], sub));
                match sub {
                    Ok(rest) => {
                        assert(acc1 + rest =~= acc0 + (seq![frest[0].1] + rest));
                    },
                    Err(e) => {},
                }
            }
            j = j + 1;
        } else {
            match cache.get(id) {
                Some(cached) => {
                    let row = cached.clone();
                    out.push(row);
                    proof {
                        let acc1 = out@.map_values(|row: Row| row@);
                        assert(acc1 =~= acc0 + seq![c[id as int]]);
                        let sub = merge_spec(w.skip(i + 1), fv.skip(j as int), c);
                        assert(merge_spec(wrest, frest, c) == merge_cont(seq![c[id as int]], sub));
                        match sub {
                            Ok(rest) => {
                                assert(acc1 + rest =~= acc0 + (seq![c[id as int]] + rest));
                            },
                            Err(e) => {},
                        }
                    }
                },
                None => {
                    proof {
                        assert(merge_spec(wrest, frest, c) == Err::<Seq<RowView>, int>(id as int));
                    }
                    return Err(id);
                },
            }
        }
        i = i + 1;
    }
    proof {
        assert(w.skip(w.len() as int) =~= Seq::<int>::empty());
        assert(merge_spec(w.skip(w.len() as int), fv.skip(j as int), c) == Ok::<
            Seq<RowView>,
            int,
        >(Seq::empty()));
        assert(out@.map_values(|row: Row| row@) + Seq::<RowView>::empty() =~= out@.map_values(
            |row: Row| row@,
        ));
    }
    Ok(out)
}

/// The identifiers of a window that a cache does not hold, in window order.
pub open spec fn missing_of(w: Seq<int>, c: Map<int, RowView>) -> Seq<int> {
    w.filter(|id: int| !c.dom().contains(id))
}

/// The window identifiers the cache does not hold, in window order: the
/// identifiers that must be fetched. When every identifier is cached the
/// result is empty and no fetch is needed at all.
pub fn missing_ids(window: &Vec<usize>, cache: &RowCache) -> (r: Vec<usize>)
    ensures
        ids_as_ints(r@) == missing_of(ids_as_ints(window@), cache.contents()),
{
    let ghost w = ids_as_ints(window@);
    let ghost c = cache.contents();
    let mut r: Vec<usize> = Vec::new();
    let mut i: usize = 0;
    proof {
        reveal_with_fuel(Seq::<int>::filter, 1);
        assert(w.take(0) =~= Seq::<int>::empty());
        assert(ids_as_ints(r@) =~= missing_of(w.take(0), c));
    }
    while i < window.len()
        invariant
            w == ids_as_ints(window@),
            c == cache.contents(),
            0 <= i <= window@.len(),
            ids_as_ints(r@) == missing_of(w.take(i as int), c),
        decreases window@.len() - i,
    {
        let id = window[i];
        let ghost r0 = r@;
        if !cache.contains(id) {
            r.push(id);
        }
        i = i + 1;
        proof {
            broadcast use Seq::lemma_filter_push;

            assert(w.take(i as int) =~= w.take(i - 1).push(w[i - 1]));
            assert(w[i - 1] == id as int);
            if !c.dom().contains(id as int) {
                assert(ids_as_ints(r@) =~= ids_as_ints(r0).push(id as int));
                assert(missing_of(w.take(i as int), c) =~= missing_of(w.take(i - 1), c).push(
                    id as int,
                ));
            } else {
                assert(missing_of(w.take(i as int), c) =~= missing_of(w.take(i - 1), c));
            }
        }
    }
    proof {
        assert(w.take(w.len() as int) =~= w);
    }
    r
}

/// The identifiers of a fetched stream, in stream order, for diagnostics.
pub fn stream_ids(fetched: &Vec<(usize, Row)>) -> (r: Vec<usize>)
    ensures
        ids_as_ints(r@) == crate::rows::fetched_ids(fetched@),
{
    let mut r: Vec<usize> = Vec::new();
    let mut i: usize = 0;
    while i < fetched.len()
        invariant
            0 <= i <= fetched@.len(),
            r@.len() == i,
            forall|k: int| 0 <= k < i ==> #[trigger] r@[k] == fetched@[k].0,
        decreases fetched@.len() - i,
    {
        r.push(fetched[i].0);
        i = i + 1;
    }
    proof {
        assert(ids_as_ints(r@) =~= crate::rows::fetched_ids(fetched@));
    }
    r
}

/// Law: when the fetched stream covers exactly the window identifiers the
/// cache misses, in window order, the merge succeeds; the page has one row
/// per window identifier, in window order, each hit taken from the cache
/// and each miss taken from the fetch, in stream order.
pub proof fn lemma_merge_partition(w: Seq<int>, f: Seq<(int, RowView)>, c: Map<int, RowView>)
    requires
        f.map_values(|e: (int, RowView)| e.0) == missing_of(w, c),
    ensures
        merge_spec(w, f, c) is Ok,
        merge_spec(w, f, c)->Ok_0.len() == w.len(),
        forall|k: int|
            0 <= k < w.len() && c.dom().contains(w[k]) ==> #[trigger] merge_spec(
                w,
                f,
                c,
            )->Ok_0[k] == c[w[k]],
        forall|k: int|
            0 <= k < w.len() && !c.dom().contains(w[k]) ==> #[trigger] merge_spec(
                w,
                f,
                c,
            )->Ok_0[k] == f[missing_of(w.take(k), c).len() as int].1,
    decreases w.len(),
{
    reveal_with_fuel(Seq::<int>::filter, 2);
    let fids = f.map_values(|e: (int, RowView)| e.0);
    if w.len() == 0 {
    } else {
        let id = w[0];
        assert(w =~= seq![id] + w.drop_first());
        assert(seq![id].drop_last() =~= Seq::<int>::empty());
        Seq::filter_distributes_over_add(
            seq![id],
            w.drop_first(),
            |x: int| !c.dom().contains(x),
        );
        if c.dom().contains(id) {
            assert(seq![id].filter(|x: int| !c.dom().contains(x)) =~= Seq::<int>::empty());
            assert(missing_of(w.drop_first(), c) =~= missing_of(w, c));
            lemma_merge_partition(w.drop_first(), f, c);
            let rest = merge_spec(w.drop_first(), f, c)->Ok_0;
            assert(fids.len() == missing_of(w, c).len());
            assert(f.len() > 0 ==> f[0].0 == missing_of(w, c)[0]);
            assert(f.len() > 0 ==> missing_of(w, c).contains(missing_of(w, c)[0]));
            assert(f.len() > 0 ==> !c.dom().contains(missing_of(w, c)[0])) by {
                if f.len() > 0 {
                    w.lemma_filter_pred(|x: int| !c.dom().contains(x), 0);
                }
            }
            assert(!(f.len() > 0 && f[0].0 == id));
            assert(merge_spec(w, f, c) == Ok::<Seq<RowView>, int>(seq![c[id]] + rest));
            assert forall|k: int|
                0 <= k < w.len() && c.dom().contains(w[k]) implies #[trigger] merge_spec(
                w,
                f,
                c,
            )->Ok_0[k] == c[w[k]] by {
                if k > 0 {
                    assert(w.drop_first()[k - 1] == w[k]);
                    assert((seq![c[id]] + rest)[k] == rest[k - 1]);
                }
            }
            assert forall|k: int|
                0 <= k < w.len() && !c.dom().contains(w[k]) implies #[trigger] merge_spec(
                w,
                f,
                c,
            )->Ok_0[k] == f[missing_of(w.take(k), c).len() as int].1 by {
                assert(k > 0);
                assert(w.drop_first()[k - 1] == w[k]);
                assert((seq![c[id]] + rest)[k] == rest[k - 1]);
                assert(rest[k - 1] == f[missing_of(w.drop_first().take(k - 1), c).len() as int].1);
                assert(w.take(k) =~= seq![id] + w.drop_first().take(k - 1));
                Seq::filter_distributes_over_add(
                    seq![id],
                    w.drop_first().take(k - 1),
                    |x: int| !c.dom().contains(x),
                );
                assert(missing_of(w.take(k), c) =~= missing_of(w.drop_first().take(k - 1), c));
            }
        } else {
            assert(seq![id].filter(|x: int| !c.dom().contains(x)) =~= seq![id]);
            assert(missing_of(w, c) =~= seq![id] + missing_of(w.drop_first(), c));
            assert(fids.len() > 0 && fids[0] == id);
            assert(f.len() > 0 && f[0].0 == id);
            assert(f.drop_first().map_values(|e: (int, RowView)| e.0) =~= missing_of(
                w.drop_first(),
                c,
            )) by {
                assert(fids.drop_first() =~= f.drop_first().map_values(
                    |e: (int, RowView)| e.0,
                ));
                assert(fids.drop_first() =~= missing_of(w, c).drop_first());
                assert(missing_of(w, c).drop_first() =~= missing_of(w.drop_first(), c));
            }
            lemma_merge_partition(w.drop_first(), f.drop_first(), c);
            let rest = merge_spec(w.drop_first(), f.drop_first(), c)->Ok_0;
            assert(merge_spec(w, f, c) == Ok::<Seq<RowView>, int>(seq![f[0].1] + rest));
            assert forall|k: int|
                0 <= k < w.len() && c.dom().contains(w[k]) implies #[trigger] merge_spec(
                w,
                f,
                c,
            )->Ok_0[k] == c[w[k]] by {
                assert(k > 0);
                assert(w.drop_first()[k - 1] == w[k]);
                assert((seq![f[0].1] + rest)[k] == rest[k - 1]);
            }
            assert forall|k: int|
                0 <= k < w.len() && !c.dom().contains(w[k]) implies #[trigger] merge_spec(
                w,
                f,
                c,
            )->Ok_0[k] == f[missing_of(w.take(k), c).len() as int].1 by {
                if k == 0 {
                    assert(w.take(0) =~= Seq::<int>::empty());
                    assert(missing_of(w.take(0), c).len() == 0);
                    assert(merge_spec(w, f, c)->Ok_0[0] == f[0].1);
                } else {
                    assert(w.drop_first()[k - 1] == w[k]);
                    assert((seq![f[0].1] + rest)[k] == rest[k - 1]);
                    assert(rest[k - 1] == f.drop_first()[missing_of(
                        w.drop_first().take(k - 1),
                        c,
                    ).len() as int].1);
                    assert(w.take(k) =~= seq![id] + w.drop_first().take(k - 1));
                    Seq::filter_distributes_over_add(
                        seq![id],
                        w.drop_first().take(k - 1),
                        |x: int| !c.dom().contains(x),
                    );
                    assert(missing_of(w.take(k), c) =~= seq![id] + missing_of(
                        w.drop_first().take(k - 1),
                        c,
                    ));
                    let m = missing_of(w.drop_first().take(k - 1), c).len();
                    assert(missing_of(w.take(k), c).len() == m + 1);
                    assert(0 <= m + 1 < f.len()) by {
                        broadcast use Seq::lemma_filter_push;

                        assert(w.drop_first().take(k) =~= w.drop_first().take(k - 1).push(
                            w.drop_first()[k - 1],
                        ));
                        assert(missing_of(w.drop_first().take(k), c).len() == m + 1);
                        w.drop_first().lemma_filter_take_len(|x: int| !c.dom().contains(x), k);
                        assert(missing_of(w.drop_first(), c).len() >= m + 1);
                        assert(fids.len() == 1 + missing_of(w.drop_first(), c).len());
                    }
                    assert(f.drop_first()[m as int] == f[m as int + 1]);
                }
            }
        }
    }
}

/// Law: a window identifier held by neither the cache nor the fetched
/// stream makes the merge fail; it never produces a default row silently.
pub proof fn lemma_merge_uncovered_fails(
    w: Seq<int>,
    f: Seq<(int, RowView)>,
    c: Map<int, RowView>,
    k: int,
)
    requires
        0 <= k < w.len(),
        !c.dom().contains(w[k]),
        forall|j: int| 0 <= j < f.len() ==> (#[trigger] f[j]).0 != w[k],
    ensures
        merge_spec(w, f, c) is Err,
    decreases w.len(),
{
    let id = w[0];
    if w.len() > 0 {
        if f.len() > 0 && f[0].0 == id {
            if k == 0 {
                assert(f[0].0 == w[k]);
            } else {
                assert(w.drop_first()[k - 1] == w[k]);
                assert(forall|j: int|
                    0 <= j < f.drop_first().len() ==> (#[trigger] f.drop_first()[j]).0 != w[k])
                by {
                    assert(forall|j: int|
                        0 <= j < f.drop_first().len() ==> f.drop_first()[j] == f[j + 1]);
                }
                lemma_merge_uncovered_fails(w.drop_first(), f.drop_first(), c, k - 1);
            }
        } else if c.dom().contains(id) {
            assert(k != 0);
            assert(w.drop_first()[k - 1] == w[k]);
            lemma_merge_uncovered_fails(w.drop_first(), f, c, k - 1);
        }
    }
}

} // verus!
