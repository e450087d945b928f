//! Rows and the per-table row cache.
//!
//! A row is the fetched contents of one table row: column name paired with
//! the cell's display text, in schema order. The cache maps row identifiers
//! to rows for one table at a time; it only ever grows while the table is
//! browsed, and is cleared when the browsed table changes, so a stale
//! cross-table entry can never surface.

use vstd::prelude::*;

verus! {

/// The mathematical contents of one row: `(column name, cell text)` pairs.
pub type RowView = Seq<(Seq<char>, Seq<char>)>;

/// One fetched table row: column name paired with cell text, in schema
/// order.
#[derive(Debug)]
pub struct Row {
    pub cells: Vec<(String, String)>,
}

impl View for Row {
    type V = RowView;

    open spec fn view(&self) -> RowView {
        self.cells@.map_values(|p: (String, String)| (p.0@, p.1@))
    }
}

impl Clone for Row {
    /// Cloning a row keeps its contents.
    fn clone(&self) -> (res: Self)
        ensures
            res@ == self@,
    {
        let mut cells: Vec<(String, String)> = Vec::new();
        let mut i: usize = 0;
        while i < self.cells.len()
            invariant
                0 <= i <= self.cells@.len(),
                cells@.len() == i,
                forall|k: int| 0 <= k < i ==> #[trigger] cells@[k] == self.cells@[k],
            decreases self.cells@.len() - i,
        {
            let p = &self.cells[i];
            cells.push((p.0.clone(), p.1.clone()));
            i = i + 1;
        }
        let res = Row { cells };
        proof {
            assert(res.cells@ =~= self.cells@);
            assert(res@ =~= self@);
        }
        res
    }
}

/// The identifiers of a fetched row sequence, in stream order.
pub open spec fn fetched_ids(f: Seq<(usize, Row)>) -> Seq<int> {
    f.map_values(|e: (usize, Row)| e.0 as int)
}

/// The cache contents after a fetched stream is absorbed left to right:
/// each pair is inserted unless its identifier is already present, so an
/// existing entry is never overwritten.
pub open spec fn absorbed(m: Map<int, RowView>, f: Seq<(usize, Row)>) -> Map<int, RowView>
    decreases f.len(),
{
    if f.len() == 0 {
        m
    } else {
        let rest = absorbed(m, f.drop_last());
        let id = f.last().0 as int;
        if rest.dom().contains(id) {
            rest
        } else {
            rest.insert(id, f.last().1@)
        }
    }
}

/// Law: absorbing a fetched stream never changes an entry that was already
/// cached, and afterwards the cached identifiers are exactly the old ones
/// plus the fetched ones.
pub proof fn lemma_absorbed_preserves(m: Map<int, RowView>, f: Seq<(usize, Row)>)
    ensures
        forall|k: int| m.dom().contains(k) ==> absorbed(m, f).dom().contains(k),
        forall|k: int| m.dom().contains(k) ==> absorbed(m, f)[k] == m[k],
        forall|k: int|
            absorbed(m, f).dom().contains(k) <==> m.dom().contains(k) || fetched_ids(f).contains(
                k,
            ),
    decreases f.len(),
{
    if f.len() > 0 {
        lemma_absorbed_preserves(m, f.drop_last());
        assert(fetched_ids(f.drop_last()) =~= fetched_ids(f).drop_last());
        assert forall|k: int|
            absorbed(m, f).dom().contains(k) <==> m.dom().contains(k) || fetched_ids(f).contains(
                k,
            ) by {
            if fetched_ids(f).contains(k) {
                let j = choose|j: int| 0 <= j < fetched_ids(f).len() && fetched_ids(f)[j] == k;
                if j < f.len() - 1 {
                    assert(fetched_ids(f).drop_last()[j] == k);
                } else {
                    assert(f.last().0 as int == k);
                }
            }
            if fetched_ids(f).drop_last().contains(k) {
                let j = choose|j: int|
                    0 <= j < fetched_ids(f).drop_last().len() && fetched_ids(f).drop_last()[j]
                        == k;
                assert(fetched_ids(f)[j] == k);
            }
            if f.last().0 as int == k {
                assert(fetched_ids(f)[f.len() - 1] == k);
            }
        }
    }
}

/// A per-table cache of fetched rows, keyed by row identifier.
pub struct RowCache {
    table: String,
    entries: Vec<(usize, Row)>,
}

impl RowCache {
    /// The table this cache belongs to.
    pub closed spec fn table_name(self) -> Seq<char> {
        self.table@
    }

    /// The cached identifiers, in insertion order.
    pub closed spec fn ids(self) -> Seq<int> {
        self.entries@.map_values(|e: (usize, Row)| e.0 as int)
    }

    /// Each identifier is cached at most once.
    pub closed spec fn wf(self) -> bool {
        self.ids().no_duplicates()
    }

    /// Whether an identifier is cached.
    pub closed spec fn spec_contains(self, id: int) -> bool {
        self.ids().contains(id)
    }

    /// The position at which an identifier is cached (meaningful when it
    /// is cached).
    spec fn index_of_id(self, id: int) -> int {
        choose|j: int| 0 <= j < self.entries@.len() && (#[trigger] self.entries@[j]).0 as int == id
    }

    /// The cached row for an identifier (meaningful when it is cached).
    pub closed spec fn entry_at(self, id: int) -> RowView {
        self.entries@[self.index_of_id(id)].1@
    }

    /// The cache as a mapping from identifier to row contents.
    pub closed spec fn contents(self) -> Map<int, RowView> {
        Map::new(|id: int| self.spec_contains(id), |id: int| self.entry_at(id))
    }

    /// The entry at a known position is what `contents` maps its
    /// identifier to.
    proof fn lemma_lookup(self, j: int)
        requires
            self.wf(),
            0 <= j < self.entries@.len(),
        ensures
            self.spec_contains(self.entries@[j].0 as int),
            self.entry_at(self.entries@[j].0 as int) == self.entries@[j].1@,
    {
        let id = self.entries@[j].0 as int;
        assert(self.ids()[j] == id);
        assert(exists|j2: int|
            0 <= j2 < self.entries@.len() && (#[trigger] self.entries@[j2]).0 as int == id) by {
            assert(0 <= j < self.entries@.len() && self.entries@[j].0 as int == id);
        }
        let j2 = self.index_of_id(id);
        assert(0 <= j2 < self.entries@.len() && self.entries@[j2].0 as int == id);
        assert(self.ids()[j2] == id);
        assert(j2 == j);
    }

    /// A fresh, empty cache for one table.
    pub fn new(table: String) -> (r: RowCache)
        ensures
            r.wf(),
            r.table_name() == table@,
            r.contents() =~= Map::<int, RowView>::empty(),
            r.contents().dom() =~= Set::<int>::empty(),
    {
        let r = RowCache { table, entries: Vec::new() };
        proof {
            assert(r.ids() =~= Seq::<int>::empty());
            assert(r.contents() =~= Map::<int, RowView>::empty());
        }
        r
    }

    /// Points the cache at a table: kept as is for the same table, cleared
    /// and rekeyed for a different one, so entries never cross tables.
    pub fn retarget(&mut self, table: &String)
        requires
            old(self).wf(),
        ensures
            final(self).wf(),
            final(self).table_name() == table@,
            table@ == old(self).table_name() ==> final(self).contents() == old(self).contents(),
            table@ != old(self).table_name() ==> final(self).contents() =~= Map::<
                int,
                RowView,
            >::empty(),
    {
        if !(self.table == *table) {
            self.entries.clear();
            self.table = table.clone();
            proof {
                assert(self.ids() =~= Seq::<int>::empty());
                assert(self.contents() =~= Map::<int, RowView>::empty());
            }
        }
    }

    /// Whether a row identifier is already cached.
    pub fn contains(&self, id: usize) -> (r: bool)
        ensures
            r == self.contents().dom().contains(id as int),
    {
        let mut i: usize = 0;
        while i < self.entries.len()
            invariant
                0 <= i <= self.entries@.len(),
                forall|k: int| 0 <= k < i ==> #[trigger] self.entries@[k].0 != id,
            decreases self.entries@.len() - i,
        {
            if self.entries[i].0 == id {
                proof {
                    assert(self.ids()[i as int] == id as int);
                }
                return true;
            }
            i = i + 1;
        }
        proof {
            if self.spec_contains(id as int) {
                let j = choose|j: int| 0 <= j < self.ids().len() && self.ids()[j] == id as int;
                assert(self.entries@[j].0 == id);
            }
        }
        false
    }

    /// The cached row for an identifier, if any.
    pub fn get(&self, id: usize) -> (r: Option<&Row>)
        requires
            self.wf(),
        ensures
            match r {
                Some(row) => self.contents().dom().contains(id as int) && row@
                    == self.contents().index(id as int),
                None => !self.contents().dom().contains(id as int),
            },
    {
        let mut i: usize = 0;
        while i < self.entries.len()
            invariant
                self.wf(),
                0 <= i <= self.entries@.len(),
                forall|k: int| 0 <= k < i ==> #[trigger] self.entries@[k].0 != id,
            decreases self.entries@.len() - i,
        {
            if self.entries[i].0 == id {
                proof {
                    self.lemma_lookup(i as int);
                }
                return Some(&self.entries[i].1);
            }
            i = i + 1;
        }
        proof {
            if self.spec_contains(id as int) {
                let j = choose|j: int| 0 <= j < self.ids().len() && self.ids()[j] == id as int;
                assert(self.entries@[j].0 == id);
            }
        }
        None
    }

    /// The cached identifiers, in insertion order, for diagnostics.
    pub fn cached_ids(&self) -> (r: Vec<usize>)
        ensures
            crate::ranges::ids_as_ints(r@) == self.ids(),
    {
        let mut r: Vec<usize> = Vec::new();
        let mut i: usize = 0;
        while i < self.entries.len()
            invariant
                0 <= i <= self.entries@.len(),
                r@.len() == i,
                forall|k: int| 0 <= k < i ==> #[trigger] r@[k] == self.entries@[k].0,
            decreases self.entries@.len() - i,
        {
            r.push(self.entries[i].0);
            i = i + 1;
        }
        proof {
            assert(crate::ranges::ids_as_ints(r@) =~= self.ids());
        }
        r
    }

    /// Absorbs a fetched stream into the cache: every pair whose identifier
    /// is not yet cached is inserted; an existing entry is never
    /// overwritten.
    pub fn absorb(&mut self, fetched: &Vec<(usize, Row)>)
        requires
            old(self).wf(),
        ensures
            final(self).wf(),
            final(self).table_name() == old(self).table_name(),
            final(self).contents() == absorbed(old(self).contents(), fetched@),
    {
        let ghost m0 = old(self).contents();
        let mut k: usize = 0;
        proof {
            assert(fetched@.take(0) =~= Seq::<(usize, Row)>::empty());
        }
        while k < fetched.len()
            invariant
                self.wf(),
                self.table_name() == old(self).table_name(),
                0 <= k <= fetched@.len(),
                self.contents() == absorbed(m0, fetched@.take(k as int)),
            decreases fetched@.len() - k,
        {
            let ghost pre = *self;
            let id = fetched[k].0;
            let present = self.contains(id);
            if !present {
                let row = fetched[k].1.clone();
                self.entries.push((id, row));
                proof {
                    assert(self.ids() =~= pre.ids().push(id as int));
                    assert(self.wf()) by {
                        assert(forall|j: int|
                            0 <= j < pre.ids().len() ==> #[trigger] pre.ids()[j] != id as int)
                        by {
                            assert forall|j: int| 0 <= j < pre.ids().len() implies #[trigger] pre
                                .ids()[j] != id as int by {
                                if pre.ids()[j] == id as int {
                                    assert(pre.spec_contains(id as int));
                                }
                            }
                        }
                    }
                    assert(self.contents() =~= pre.contents().insert(
                        id as int,
                        fetched@[k as int].1@,
                    )) by {
                        assert forall|x: int|
                            self.spec_contains(x) <==> pre.spec_contains(x) || x == id as int by {
                            if self.spec_contains(x) {
                                let j = choose|j: int|
                                    0 <= j < self.ids().len() && self.ids()[j] == x;
                                if j < pre.ids().len() {
                                    assert(pre.ids()[j] == x);
                                }
                            }
                            if pre.spec_contains(x) {
                                let j = choose|j: int|
                                    0 <= j < pre.ids().len() && pre.ids()[j] == x;
                                assert(self.ids()[j] == x);
                            }
                            if x == id as int {
                                assert(self.ids()[self.ids().len() - 1] == x);
                            }
                        }
                        assert forall|x: int| self.spec_contains(x) implies self.entry_at(x) == (
                        if x == id as int {
                            fetched@[k as int].1@
                        } else {
                            pre.entry_at(x)
                        }) by {
                            if x == id as int {
                                self.lemma_lookup(self.entries@.len() - 1);
                            } else {
                                let j = choose|j: int|
                                    0 <= j < pre.ids().len() && pre.ids()[j] == x;
                                assert(pre.entries@[j].0 as int == x);
                                assert(self.entries@[j].0 as int == x);
                                self.lemma_lookup(j);
                                pre.lemma_lookup(j);
                            }
                        }
                    }
                }
            }
            k = k + 1;
            proof {
                assert(fetched@.take(k as int).drop_last() =~= fetched@.take(k - 1));
                assert(fetched@.take(k as int).last() == fetched@[k - 1]);
            }
        }
        proof {
            assert(fetched@.take(fetched@.len() as int) =~= fetched@);
        }
    }
}

} // verus!
