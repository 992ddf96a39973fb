//! Query caches: the archetype tables a query reads, refreshed when the archetypes change.

use vstd::prelude::*;

use crate::archetype::{matching_tables, Archetypes, Signature, TableCache};
use crate::filter::FilterBundle;
use crate::table::{Table, TableRow};

verus! {

/// Whether `cache` lists, in order, the tables of `archetypes` that hold the bits of `archetype`
/// and that `filter` accepts, each with the columns of `query_types`.
pub open spec fn caches<F: FilterBundle>(
    cache: Seq<TableCache>,
    archetypes: Archetypes,
    archetype: Signature,
    filter: F,
    query_types: Seq<std::any::TypeId>,
) -> bool {
    let m = matching_tables(archetypes.sigs(), archetype, filter, archetypes.sigs().len() as int);
    &&& cache.len() == m.len()
    &&& forall|j: int|
        0 <= j < cache.len() ==> {
            &&& (#[trigger] cache[j]).table == m[j]
            &&& cache[j].cols@.len() == query_types.len()
            &&& forall|k: int|
                0 <= k < query_types.len() ==> cache[j].cols@[k] == archetypes.tables()[m[j] as int].column_of()[#[trigger] query_types[k]]
        }
}

/// The tables that match are among the first `n`, listed in increasing order.
pub proof fn lemma_matching_bounds<F: FilterBundle>(
    sigs: Seq<Signature>,
    archetype: Signature,
    filter: F,
    n: int,
)
    requires
        0 <= n,
    ensures
        forall|j: int|
            0 <= j < matching_tables(sigs, archetype, filter, n).len() ==> #[trigger] matching_tables(
                sigs,
                archetype,
                filter,
                n,
            )[j] < n,
    decreases n,
{
    if n > 0 {
        lemma_matching_bounds(sigs, archetype, filter, n - 1);
        let prev = matching_tables(sigs, archetype, filter, n - 1);
        let m = matching_tables(sigs, archetype, filter, n);
        if sigs[n - 1].covers(archetype) && filter.accepts_all(sigs[n - 1]) {
            assert(m == prev.push((n - 1) as usize));
        } else {
            assert(m == prev);
        }
        assert forall|j: int| 0 <= j < m.len() implies #[trigger] m[j] < n by {
            if j < prev.len() {
                assert(m[j] == prev[j]);
            }
        }
    }
}

/// An insert that keeps the generation keeps every query cache correct: the tables and their
/// column lookups are unchanged, so the cache needs no refresh.
pub proof fn lemma_cache_survives_insert<F: FilterBundle>(
    cache: Seq<TableCache>,
    before: Archetypes,
    after: Archetypes,
    archetype: Signature,
    filter: F,
    query_types: Seq<std::any::TypeId>,
    index: int,
)
    requires
        before.wf(),
        caches(cache, before, archetype, filter, query_types),
        after.sigs() == before.sigs(),
        after.tables().len() == before.tables().len(),
        0 <= index < before.tables().len(),
        forall|i: int|
            0 <= i < before.tables().len() && i != index ==> #[trigger] after.tables()[i]
                == before.tables()[i],
        after.tables()[index].column_of() == before.tables()[index].column_of(),
    ensures
        caches(cache, after, archetype, filter, query_types),
{
    let m = matching_tables(before.sigs(), archetype, filter, before.sigs().len() as int);
    lemma_matching_bounds(before.sigs(), archetype, filter, before.sigs().len() as int);
    assert forall|j: int| 0 <= j < cache.len() implies forall|k: int|
        0 <= k < query_types.len() ==> (#[trigger] cache[j]).cols@[k]
            == after.tables()[m[j] as int].column_of()[#[trigger] query_types[k]] by {
        let t = m[j] as int;
        assert(t < before.sigs().len());
        if t != index {
            assert(after.tables()[t] == before.tables()[t]);
        }
    }
}

/// Whether every table that the query would read has a column for each queried component type.
pub open spec fn columns_present<F: FilterBundle>(
    archetypes: Archetypes,
    archetype: Signature,
    filter: F,
    query_types: Seq<std::any::TypeId>,
) -> bool {
    forall|i: int, k: int|
        0 <= i < archetypes.tables().len() && 0 <= k < query_types.len()
            && archetypes.sigs()[i].covers(archetype) && filter.accepts_all(archetypes.sigs()[i])
            ==> (#[trigger] archetypes.tables()[i]).column_of().contains_key(#[trigger] query_types[k])
}

/// The metadata of a query: the tables it reads, the generation of the archetypes they were
/// taken from, the query's components and the state of its filters.
pub struct QueryMeta<F: FilterBundle> {
    cache: Vec<TableCache>,
    filter_state: F,
    generation: u64,
    archetype: Signature,
    query_types: Vec<std::any::TypeId>,
}

impl<F: FilterBundle> QueryMeta<F> {
    /// The cached tables.
    pub closed spec fn cached(&self) -> Seq<TableCache> {
        self.cache@
    }

    /// The generation of the archetypes the cache was taken from.
    pub closed spec fn gen(&self) -> u64 {
        self.generation
    }

    /// The components the query reads, as a signature.
    pub closed spec fn signature(&self) -> Signature {
        self.archetype
    }

    /// The filter state.
    pub closed spec fn filter(&self) -> F {
        self.filter_state
    }

    /// The component types whose columns the query reads.
    pub closed spec fn query_types(&self) -> Seq<std::any::TypeId> {
        self.query_types@
    }

    /// Creates the metadata of a query and caches its tables.
    pub fn new(
        archetypes: &Archetypes,
        archetype: Signature,
        filter_state: F,
        query_types: Vec<std::any::TypeId>,
    ) -> (r: QueryMeta<F>)
        requires
            archetypes.wf(),
            columns_present(*archetypes, archetype, filter_state, query_types@),
        ensures
            r.gen() == archetypes.gen(),
            r.signature() == archetype,
            r.filter() == filter_state,
            r.query_types() == query_types@,
            caches(r.cached(), *archetypes, archetype, filter_state, query_types@),
    {
        let mut cache = Vec::new();
        archetypes.cache_tables(&archetype, &filter_state, &query_types, &mut cache);
        QueryMeta {
            cache,
            filter_state,
            generation: archetypes.generation(),
            archetype,
            query_types,
        }
    }

    /// The number of component types the query reads.
    pub fn count(&self) -> (r: usize)
        ensures
            r == self.query_types().len(),
    {
        self.query_types.len()
    }

    /// The generation of the archetypes the cache was taken from. It is that of the archetypes
    /// when the cache is up to date.
    pub fn generation(&self) -> (r: u64)
        ensures
            r == self.gen(),
    {
        self.generation
    }

    /// The archetype of the query: the components a table must hold to be read.
    pub fn archetype(&self) -> (r: &Signature)
        ensures
            *r == self.signature(),
    {
        &self.archetype
    }

    /// The state of the query's filters.
    pub fn filters(&self) -> (r: &F)
        ensures
            *r == self.filter(),
    {
        &self.filter_state
    }

    /// The cached tables: those the query reads, with the columns of its component types.
    pub fn cache(&self) -> (r: &Vec<TableCache>)
        ensures
            r@ == self.cached(),
    {
        &self.cache
    }


    /// Refreshes the cache where the archetypes have changed since it was taken; otherwise
    /// nothing changes.
    pub fn update(&mut self, archetypes: &Archetypes)
        requires
            archetypes.wf(),
            old(self).gen() != archetypes.gen() ==> columns_present(
                *archetypes,
                old(self).signature(),
                old(self).filter(),
                old(self).query_types(),
            ),
        ensures
            final(self).gen() == archetypes.gen(),
            final(self).signature() == old(self).signature(),
            final(self).filter() == old(self).filter(),
            final(self).query_types() == old(self).query_types(),
            old(self).gen() == archetypes.gen() ==> final(self).cached() == old(self).cached(),
            old(self).gen() != archetypes.gen() ==> caches(
                final(self).cached(),
                *archetypes,
                old(self).signature(),
                old(self).filter(),
                old(self).query_types(),
            ),
    {
        if self.generation != archetypes.generation() {
            archetypes.cache_tables(
                &self.archetype,
                &self.filter_state,
                &self.query_types,
                &mut self.cache,
            );
            self.generation = archetypes.generation();
        }
    }
}

/// The number of rows of table `t`, or zero where there is no such table.
pub open spec fn rows_in(tables: Seq<Table>, t: usize) -> nat {
    if t < tables.len() {
        tables[t as int].entities().len()
    } else {
        0
    }
}

/// The rows a query visits, in order: table by table as the cache lists them, every row of each,
/// as pairs of a position in the cache and a row.
pub open spec fn positions(cache: Seq<TableCache>, tables: Seq<Table>) -> Seq<(int, int)>
    decreases cache.len(),
{
    if cache.len() == 0 {
        Seq::empty()
    } else {
        let j = cache.len() - 1;
        positions(cache.drop_last(), tables) + Seq::new(
            rows_in(tables, cache.last().table),
            |r: int| (j, r),
        )
    }
}

/// The rows visited over the first tables of a cache come first in the rows visited over all
/// of it.
proof fn lemma_positions_prefix(cache: Seq<TableCache>, tables: Seq<Table>, m: int)
    requires
        0 <= m <= cache.len(),
    ensures
        positions(cache.take(m), tables).len() <= positions(cache, tables).len(),
        forall|i: int|
            0 <= i < positions(cache.take(m), tables).len() ==> #[trigger] positions(
                cache.take(m),
                tables,
            )[i] == positions(cache, tables)[i],
    decreases cache.len(),
{
    if m == cache.len() {
        assert(cache.take(m) =~= cache);
    } else {
        let init = cache.drop_last();
        assert(init.take(m) =~= cache.take(m));
        lemma_positions_prefix(init, tables, m);
    }
}

/// A query visits exactly the rows of its cached tables: `(j, r)` is visited when `j` is a
/// position in the cache and `r` a row of that table. Each is visited once, in increasing order.
pub proof fn lemma_positions_cover(cache: Seq<TableCache>, tables: Seq<Table>)
    ensures
        forall|i: int, k: int|
            0 <= i < k < positions(cache, tables).len() ==> (#[trigger] positions(cache, tables)[i]).0
                < (#[trigger] positions(cache, tables)[k]).0 || (positions(cache, tables)[i].0
                == positions(cache, tables)[k].0 && positions(cache, tables)[i].1 < positions(
                cache,
                tables,
            )[k].1),
        forall|j: int, r: int|
            0 <= j < cache.len() && 0 <= r < rows_in(tables, cache[j].table) ==> #[trigger] positions(
                cache,
                tables,
            ).contains((j, r)),
        forall|i: int|
            0 <= i < positions(cache, tables).len() ==> {
                let (j, r) = #[trigger] positions(cache, tables)[i];
                0 <= j < cache.len() && 0 <= r < rows_in(tables, cache[j].table)
            },
    decreases cache.len(),
{
    if cache.len() > 0 {
        let init = cache.drop_last();
        let j = cache.len() - 1;
        let n = rows_in(tables, cache.last().table);
        let head = positions(init, tables);
        let tail = Seq::new(n, |r: int| (j, r));
        let ps = positions(cache, tables);
        lemma_positions_cover(init, tables);
        assert(ps == head + tail);
        assert forall|i: int| 0 <= i < ps.len() implies {
            let (jj, r) = #[trigger] ps[i];
            0 <= jj < cache.len() && 0 <= r < rows_in(tables, cache[jj].table)
        } by {
            if i < head.len() {
                assert(ps[i] == head[i]);
                let (jj, r) = head[i];
                assert(cache[jj] == init[jj]);
            } else {
                assert(ps[i] == tail[i - head.len()]);
            }
        }
        assert forall|i: int, k: int| 0 <= i < k < ps.len() implies (#[trigger] ps[i]).0 < (
        #[trigger] ps[k]).0 || (ps[i].0 == ps[k].0 && ps[i].1 < ps[k].1) by {
            if k < head.len() {
                assert(ps[i] == head[i] && ps[k] == head[k]);
            } else if i < head.len() {
                assert(ps[i] == head[i]);
                assert(ps[k] == tail[k - head.len()]);
                assert(0 <= head[i].0 < init.len());
            } else {
                assert(ps[i] == tail[i - head.len()] && ps[k] == tail[k - head.len()]);
            }
        }
        assert forall|jj: int, r: int|
            0 <= jj < cache.len() && 0 <= r < rows_in(tables, cache[jj].table) implies #[trigger] ps.contains(
            (jj, r),
        ) by {
            if jj < j {
                assert(cache[jj] == init[jj]);
                assert(head.contains((jj, r)));
                let w = choose|w: int| 0 <= w < head.len() && head[w] == (jj, r);
                assert(ps[w] == (jj, r));
            } else {
                assert(ps[head.len() + r] == tail[r]);
            }
        }
    }
}

/// A walk over the rows of a query's cached tables, in the order of `positions`.
pub struct QueryIter {
    entry: usize,
    row: usize,
    visited: Ghost<nat>,
}

impl QueryIter {
    /// How many rows the walk has handed out.
    pub closed spec fn pos(&self) -> nat {
        self.visited@
    }

    /// The walk is consistent with `cache` over `tables`.
    pub closed spec fn wf(&self, cache: Seq<TableCache>, tables: Seq<Table>) -> bool {
        &&& self.entry <= cache.len()
        &&& self.entry < cache.len() ==> self.row <= rows_in(tables, cache[self.entry as int].table)
        &&& self.entry == cache.len() ==> self.row == 0
        &&& self.visited@ == positions(cache.take(self.entry as int), tables).len() + self.row
    }

    /// A walk at the first row of the first cached table.
    pub fn new() -> (r: QueryIter)
        ensures
            r.pos() == 0,
            forall|cache: Seq<TableCache>, tables: Seq<Table>| #[trigger] r.wf(cache, tables),
    {
        let r = QueryIter { entry: 0, row: 0, visited: Ghost(0) };
        assert forall|cache: Seq<TableCache>, tables: Seq<Table>| #[trigger] r.wf(cache, tables) by {
            assert(cache.take(0) =~= Seq::<TableCache>::empty());
        }
        r
    }

    /// The next row: its position in the cache and the row, or `None` once every row of every
    /// cached table has been handed out. Tables with no rows, and positions naming no table, are
    /// passed over.
    pub fn next(&mut self, cache: &Vec<TableCache>, archetypes: &Archetypes) -> (r: Option<(usize, TableRow)>)
        requires
            old(self).wf(cache@, archetypes.tables()),
        ensures
            final(self).wf(cache@, archetypes.tables()),
            old(self).pos() < positions(cache@, archetypes.tables()).len() ==> (r matches Some((j, row))
                && (j as int, row.0 as int) == positions(cache@, archetypes.tables())[old(self).pos() as int])
                && final(self).pos() == old(self).pos() + 1,
            old(self).pos() >= positions(cache@, archetypes.tables()).len() ==> r is None
                && final(self).pos() == old(self).pos(),
    {
        let ghost tables = archetypes.tables();
        let ghost ps = positions(cache@, tables);
        proof {
            let e = self.entry as int;
            if e < cache.len() {
                let after = cache@.take(e + 1);
                assert(after.drop_last() =~= cache@.take(e));
                assert(after.last() == cache@[e]);
                lemma_positions_prefix(cache@, tables, e + 1);
            } else {
                assert(cache@.take(e) =~= cache@);
            }
        }
        loop
            invariant
                self.wf(cache@, tables),
                self.pos() == old(self).pos(),
                tables == archetypes.tables(),
                ps == positions(cache@, tables),
                self.pos() <= ps.len(),
            decreases cache.len() - self.entry,
        {
            if self.entry >= cache.len() {
                proof {
                    assert(cache@.take(cache.len() as int) =~= cache@);
                }
                return None;
            }
            let e = self.entry;
            let t = cache[e].table;
            let n = if t < archetypes.len() {
                archetypes.get_by_index(t).len()
            } else {
                0
            };
            let ghost before = cache@.take(e as int);
            let ghost after = cache@.take(e + 1);
            proof {
                assert(after.drop_last() =~= before);
                assert(after.last() == cache@[e as int]);
                lemma_positions_prefix(cache@, tables, e + 1);
            }
            if self.row < n {
                let row = self.row;
                proof {
                    let i = positions(before, tables).len() + row;
                    assert(positions(after, tables)[i] == (e as int, row as int));
                }
                self.row = row + 1;
                self.visited = Ghost((self.visited@ + 1) as nat);
                return Some((e, TableRow(row)));
            }
            self.entry = e + 1;
            self.row = 0;
            proof {
                if self.entry < cache.len() {
                    lemma_positions_prefix(cache@, tables, self.entry as int);
                }
            }
        }
    }
}

} // verus!
