//! Loaded sources, kept by identifier, and how several of them are merged
//! into one.

use vstd::prelude::*;
use vstd::string::*;
use crate::aggregate::{
    absorb_all, aggregate, combine, distinct_codes, lemma_aggregate_onto_distinct,
    lemma_chunks_reduce_to_whole, lemma_position_at, merged, CustomerTotals,
};
use crate::customers::{aggregate_rows, lemma_sum_orders_aggregate, merge_tables, CustomerTable};
use crate::error::AnalysisError;
use crate::ranking::{analyze_table, AnalysisResult};
use crate::row::CachedRow;

verus! {

/// The records of one source with the totals of its customers.
pub struct DataCache {
    file_path: String,
    cached_rows: Vec<CachedRow>,
    customers: CustomerTable,
}

impl DataCache {
    #[verifier::type_invariant]
    spec fn totals_match(self) -> bool {
        self.customers@ == aggregate(self.cached_rows@)
    }

    /// The records of this source.
    pub closed spec fn rows(self) -> Seq<CachedRow> {
        self.cached_rows@
    }

    /// The path of this source.
    pub closed spec fn path(self) -> Seq<char> {
        self.file_path@
    }

    /// Keeps the records `cached_rows` of the source at `file_path`, and
    /// aggregates them.
    pub fn new(file_path: String, cached_rows: Vec<CachedRow>) -> (cache: DataCache)
        ensures
            cache.rows() == cached_rows@,
            cache.path() == file_path@,
    {
        let customers = aggregate_rows(&cached_rows);
        DataCache { file_path, cached_rows, customers }
    }

    /// The path of this source.
    pub fn file_path(&self) -> (p: &String)
        ensures
            p@ == self.path(),
    {
        &self.file_path
    }

    /// The records of this source.
    pub fn cached_rows(&self) -> (rows: &Vec<CachedRow>)
        ensures
            rows@ == self.rows(),
    {
        &self.cached_rows
    }

    /// The totals of the customers of this source.
    pub fn customers(&self) -> (table: &CustomerTable)
        ensures
            table@ == aggregate(self.rows()),
    {
        proof {
            use_type_invariant(self);
        }
        &self.customers
    }
}

/// Reports on the customers of a loaded source.
pub fn analyze_top20_cached(cache: &DataCache) -> (report: AnalysisResult)
    ensures
        report.reports(aggregate(cache.rows())),
        report.total_rows == cache.rows().len(),
{
    analyze_table(cache.customers(), cache.cached_rows().len())
}

/// The place of `id` among `ids`, if it is there.
pub open spec fn source_index(ids: Seq<Seq<char>>, id: Seq<char>) -> Option<int>
    decreases ids.len(),
{
    if ids.len() == 0 {
        None
    } else {
        match source_index(ids.drop_last(), id) {
            Some(i) => Some(i),
            None => if ids.last() == id {
                Some(ids.len() - 1)
            } else {
                None
            },
        }
    }
}

/// What `source_index` finds: the first place of the identifier, or that it
/// has none.
pub proof fn lemma_source_index(ids: Seq<Seq<char>>, id: Seq<char>)
    ensures
        match source_index(ids, id) {
            Some(i) => 0 <= i < ids.len() && ids[i] == id && forall|j: int|
                0 <= j < i ==> #[trigger] ids[j] != id,
            None => forall|j: int| 0 <= j < ids.len() ==> #[trigger] ids[j] != id,
        },
    decreases ids.len(),
{
    if ids.len() > 0 {
        let front = ids.drop_last();
        lemma_source_index(front, id);
        match source_index(front, id) {
            Some(i) => {
                assert forall|j: int| 0 <= j < i implies #[trigger] ids[j] != id by {
                    assert(front[j] != id);
                }
            },
            None => {
                assert forall|j: int| 0 <= j < ids.len() - 1 implies #[trigger] ids[j] != id by {
                    assert(front[j] != id);
                }
            },
        }
    }
}

/// The loaded sources, one slot for each identifier.
pub struct SourceStore {
    ids: Vec<String>,
    caches: Vec<DataCache>,
}

/// The texts of `ids`.
pub open spec fn id_texts(ids: Seq<String>) -> Seq<Seq<char>> {
    ids.map_values(|s: String| s@)
}

/// Whether no identifier occurs twice in `ids`.
pub open spec fn distinct_ids(ids: Seq<Seq<char>>) -> bool {
    forall|i: int, j: int| 0 <= i < ids.len() && 0 <= j < ids.len() && i != j ==> #[trigger] ids[i]
        != #[trigger] ids[j]
}

impl SourceStore {
    #[verifier::type_invariant]
    spec fn slots_match(self) -> bool {
        &&& self.ids@.len() == self.caches@.len()
        &&& distinct_ids(id_texts(self.ids@))
    }

    /// The identifiers of the loaded sources, in the order of loading.
    pub closed spec fn ids(self) -> Seq<Seq<char>> {
        id_texts(self.ids@)
    }

    /// The sources, in the order of their identifiers.
    pub closed spec fn caches(self) -> Seq<DataCache> {
        self.caches@
    }

    /// The source kept under `id`, if there is one.
    pub open spec fn source(self, id: Seq<char>) -> Option<DataCache> {
        match source_index(self.ids(), id) {
            Some(i) => Some(self.caches()[i]),
            None => None,
        }
    }

    /// A store without sources.
    pub fn new() -> (store: SourceStore)
        ensures
            store.ids() == Seq::<Seq<char>>::empty(),
            store.caches() == Seq::<DataCache>::empty(),
    {
        let store = SourceStore { ids: Vec::new(), caches: Vec::new() };
        assert(id_texts(store.ids@) =~= Seq::<Seq<char>>::empty());
        store
    }

    /// The number of sources.
    pub fn len(&self) -> (n: usize)
        ensures
            n == self.ids().len(),
            n == self.caches().len(),
    {
        proof {
            use_type_invariant(self);
        }
        self.ids.len()
    }

    /// Finds the slot of `id`.
    fn slot_of(ids: &Vec<String>, id: &str) -> (r: Option<usize>)
        ensures
            match r {
                Some(i) => source_index(id_texts(ids@), id@) == Some(i as int) && i < ids@.len(),
                None => source_index(id_texts(ids@), id@) is None,
            },
    {
        let wanted = String::from_str(id);
        let ghost texts = id_texts(ids@);
        let mut i: usize = 0;
        assert(texts.take(0) == Seq::<Seq<char>>::empty());
        while i < ids.len()
            invariant
                i <= ids.len(),
                wanted@ == id@,
                texts == id_texts(ids@),
                source_index(texts.take(i as int), id@) is None,
            decreases ids.len() - i,
        {
            proof {
                assert(texts.take(i + 1).drop_last() == texts.take(i as int));
                assert(texts.take(i + 1).last() == ids@[i as int]@);
                lemma_source_index_prefix(texts, id@, i + 1);
            }
            if ids[i] == wanted {
                return Some(i);
            }
            i += 1;
        }
        assert(texts.take(i as int) == texts);
        None
    }

    /// The source kept under `id`, if there is one.
    pub fn get(&self, id: &str) -> (r: Option<&DataCache>)
        ensures
            match r {
                Some(cache) => self.source(id@) == Some(*cache),
                None => self.source(id@) is None,
            },
    {
        proof {
            use_type_invariant(self);
        }
        match SourceStore::slot_of(&self.ids, id) {
            Some(i) => Some(&self.caches[i]),
            None => None,
        }
    }

    /// Keeps `cache` under `id`, in place of what was kept under it before,
    /// if anything.
    pub fn insert(&mut self, id: &str, cache: DataCache)
        ensures
            final(self).source(id@) == Some(cache),
            match source_index(old(self).ids(), id@) {
                Some(i) => final(self).ids() == old(self).ids() && final(self).caches() == old(
                    self,
                ).caches().update(i, cache),
                None => final(self).ids() == old(self).ids().push(id@) && final(self).caches()
                    == old(self).caches().push(cache),
            },
    {
        let mut taken = SourceStore::new();
        std::mem::swap(self, &mut taken);
        proof {
            use_type_invariant(&taken);
            lemma_source_index(id_texts(taken.ids@), id@);
        }
        let SourceStore { mut ids, mut caches } = taken;
        let ghost before = id_texts(ids@);
        match SourceStore::slot_of(&ids, id) {
            Some(i) => {
                caches.set(i, cache);
            },
            None => {
                ids.push(String::from_str(id));
                caches.push(cache);
                proof {
                    let after = id_texts(ids@);
                    assert(after =~= before.push(id@));
                    assert(distinct_ids(after)) by {
                        assert forall|a: int, b: int|
                            0 <= a < after.len() && 0 <= b < after.len() && a != b implies #[trigger] after[a]
                            != #[trigger] after[b] by {
                            if a < before.len() && b < before.len() {
                                assert(before[a] != before[b]);
                            } else if a < before.len() {
                                assert(before[a] != id@);
                            } else {
                                assert(before[b] != id@);
                            }
                        }
                    }
                    lemma_source_index(after, id@);
                    assert(after.drop_last() == before);
                }
            },
        }
        *self = SourceStore { ids, caches };
    }

    /// Drops the source kept under `id`, and tells whether there was one.
    pub fn remove(&mut self, id: &str) -> (found: bool)
        ensures
            found == (old(self).source(id@) is Some),
            final(self).source(id@) is None,
            match source_index(old(self).ids(), id@) {
                Some(i) => final(self).ids() == old(self).ids().remove(i) && final(self).caches()
                    == old(self).caches().remove(i),
                None => final(self).ids() == old(self).ids() && final(self).caches() == old(
                    self,
                ).caches(),
            },
    {
        let mut taken = SourceStore::new();
        std::mem::swap(self, &mut taken);
        proof {
            use_type_invariant(&taken);
            lemma_source_index(id_texts(taken.ids@), id@);
        }
        let SourceStore { mut ids, mut caches } = taken;
        let ghost before = id_texts(ids@);
        let found = match SourceStore::slot_of(&ids, id) {
            Some(i) => {
                ids.remove(i);
                caches.remove(i);
                proof {
                    let after = id_texts(ids@);
                    assert(after =~= before.remove(i as int));
                    assert forall|a: int, b: int|
                        0 <= a < after.len() && 0 <= b < after.len() && a != b implies #[trigger] after[a]
                        != #[trigger] after[b] by {
                        let x = if a < i {
                            a
                        } else {
                            a + 1
                        };
                        let y = if b < i {
                            b
                        } else {
                            b + 1
                        };
                        assert(before[x] != before[y]);
                    }
                    lemma_source_index(after, id@);
                    if source_index(after, id@) is Some {
                        let k = source_index(after, id@)->0;
                        let x = if k < i {
                            k
                        } else {
                            k + 1
                        };
                        assert(before[x] == id@);
                        assert(before[x] != before[i as int]);
                    }
                }
                true
            },
            None => false,
        };
        *self = SourceStore { ids, caches };
        found
    }
}

/// A place found among the first identifiers is the place among all.
pub proof fn lemma_source_index_prefix(ids: Seq<Seq<char>>, id: Seq<char>, k: int)
    requires
        0 <= k <= ids.len(),
    ensures
        source_index(ids.take(k), id) is Some ==> source_index(ids, id) == source_index(
            ids.take(k),
            id,
        ),
    decreases ids.len() - k,
{
    if k < ids.len() {
        lemma_source_index_prefix(ids, id, k + 1);
        assert(ids.take(k + 1).drop_last() == ids.take(k));
    } else {
        assert(ids.take(k) == ids);
    }
}

/// The first of `wanted` that is not among `ids`, if there is one.
pub open spec fn first_missing(ids: Seq<Seq<char>>, wanted: Seq<Seq<char>>) -> Option<Seq<char>>
    decreases wanted.len(),
{
    if wanted.len() == 0 {
        None
    } else {
        match first_missing(ids, wanted.drop_last()) {
            Some(id) => Some(id),
            None => if source_index(ids, wanted.last()) is None {
                Some(wanted.last())
            } else {
                None
            },
        }
    }
}

/// The records of the sources `wanted`, source after source.
pub open spec fn merged_rows(store: SourceStore, wanted: Seq<Seq<char>>) -> Seq<CachedRow>
    decreases wanted.len(),
{
    if wanted.len() == 0 {
        Seq::empty()
    } else {
        merged_rows(store, wanted.drop_last()) + match store.source(wanted.last()) {
            Some(cache) => cache.rows(),
            None => Seq::empty(),
        }
    }
}

/// The paths of the sources `wanted`, joined by `; `.
pub open spec fn merged_path(store: SourceStore, wanted: Seq<Seq<char>>) -> Seq<char>
    decreases wanted.len(),
{
    if wanted.len() == 0 {
        Seq::empty()
    } else {
        let path = match store.source(wanted.last()) {
            Some(cache) => cache.path(),
            None => Seq::empty(),
        };
        if wanted.len() == 1 {
            path
        } else {
            merged_path(store, wanted.drop_last()) + "; "@ + path
        }
    }
}

/// Each entry counted in with itself.
pub open spec fn doubled(entries: Seq<CustomerTotals>) -> Seq<CustomerTotals> {
    entries.map_values(|e: CustomerTotals| combine(e, e))
}

/// Reducing totals with themselves doubles every entry: each customer has
/// twice the orders and twice the amounts, and nothing else changes.
pub proof fn lemma_merged_with_itself(entries: Seq<CustomerTotals>)
    requires
        distinct_codes(entries),
    ensures
        merged(entries, entries) == doubled(entries),
{
    lemma_doubling(entries, entries.len() as int);
    assert(entries.take(entries.len() as int) == entries);
    assert(doubled(entries) =~= Seq::new(
        entries.len(),
        |i: int| combine(entries[i], entries[i]),
    ));
}

/// Counting the first `k` entries in again doubles those and leaves the
/// others.
proof fn lemma_doubling(entries: Seq<CustomerTotals>, k: int)
    requires
        distinct_codes(entries),
        0 <= k <= entries.len(),
    ensures
        absorb_all(entries, entries.take(k)) == Seq::new(
            entries.len(),
            |i: int|
                if i < k {
                    combine(entries[i], entries[i])
                } else {
                    entries[i]
                },
        ),
    decreases k,
{
    let target = Seq::new(
        entries.len(),
        |i: int|
            if i < k {
                combine(entries[i], entries[i])
            } else {
                entries[i]
            },
    );
    if k == 0 {
        assert(entries.take(0) == Seq::<CustomerTotals>::empty());
        assert(absorb_all(entries, entries.take(0)) =~= target);
    } else {
        lemma_doubling(entries, k - 1);
        let before = absorb_all(entries, entries.take(k - 1));
        assert(entries.take(k).drop_last() == entries.take(k - 1));
        assert(entries.take(k).last() == entries[k - 1]);
        assert(distinct_codes(before)) by {
            assert forall|a: int, b: int|
                0 <= a < before.len() && 0 <= b < before.len() && a != b implies #[trigger] before[a].code
                != #[trigger] before[b].code by {
                assert(entries[a].code != entries[b].code);
            }
        }
        assert(before[k - 1].code == entries[k - 1].code);
        lemma_position_at(before, k - 1);
        assert(absorb_all(entries, entries.take(k)) =~= target);
    }
}

/// Merging a source with itself doubles the totals of every customer.
pub proof fn lemma_self_merge_doubles(rows: Seq<CachedRow>)
    ensures
        aggregate(rows + rows) == doubled(aggregate(rows)),
{
    lemma_chunks_reduce_to_whole(rows, rows);
    lemma_aggregate_onto_distinct(Seq::empty(), rows);
    lemma_merged_with_itself(aggregate(rows));
}

/// Merges the sources named by `ids`, in this order, into one.
///
/// Fails if `ids` is empty, or if one of them names no loaded source; the
/// first such identifier is told. Otherwise the records of the sources are
/// put one after the other, and the totals of their customers are reduced
/// to one table: the table that aggregating all those records gives. A
/// source named twice counts twice. The path of the result lists the paths
/// of the sources, joined by `; `.
pub fn merge_sources(store: &SourceStore, ids: &Vec<String>) -> (r: Result<DataCache, AnalysisError>)
    ensures
        match r {
            Ok(cache) => ids@.len() > 0 && first_missing(store.ids(), id_texts(ids@)) is None
                && cache.rows() == merged_rows(*store, id_texts(ids@)) && cache.path()
                == merged_path(*store, id_texts(ids@)),
            Err(AnalysisError::EmptySourceList) => ids@.len() == 0,
            Err(AnalysisError::SourceNotLoaded(id)) => ids@.len() > 0 && first_missing(
                store.ids(),
                id_texts(ids@),
            ) == Some(id@),
            Err(_) => false,
        },
{
    if ids.len() == 0 {
        return Err(AnalysisError::EmptySourceList);
    }
    let ghost wanted = id_texts(ids@);
    let mut rows: Vec<CachedRow> = Vec::new();
    let mut table = CustomerTable::new();
    let mut path = String::new();
    let mut k: usize = 0;
    proof {
        assert(wanted.take(0) == Seq::<Seq<char>>::empty());
        assert(merged_rows(*store, wanted.take(0)) == Seq::<CachedRow>::empty());
    }
    while k < ids.len()
        invariant
            k <= ids.len(),
            wanted == id_texts(ids@),
            first_missing(store.ids(), wanted.take(k as int)) is None,
            rows@ == merged_rows(*store, wanted.take(k as int)),
            path@ == merged_path(*store, wanted.take(k as int)),
            table@ == aggregate(rows@),
        decreases ids.len() - k,
    {
        proof {
            assert(wanted.take(k + 1).drop_last() == wanted.take(k as int));
            assert(wanted.take(k + 1).last() == ids@[k as int]@);
            lemma_first_missing_prefix(store.ids(), wanted, k + 1);
        }
        let cache = match store.get(ids[k].as_str()) {
            Some(cache) => cache,
            None => {
                return Err(AnalysisError::SourceNotLoaded(ids[k].clone()));
            },
        };
        let ghost before = rows@;
        let source_rows = cache.cached_rows();
        let mut i: usize = 0;
        while i < source_rows.len()
            invariant
                i <= source_rows.len(),
                rows@ == before + source_rows@.take(i as int),
            decreases source_rows.len() - i,
        {
            rows.push(source_rows[i].duplicate());
            assert(source_rows@.take(i + 1) == source_rows@.take(i as int).push(source_rows@[i as int]));
            i += 1;
        }
        let total = rows.len();
        proof {
            assert(source_rows@.take(i as int) == source_rows@);
            assert(before.len() + source_rows@.len() == total);
            assert(crate::customers::sum_orders(Seq::<CustomerTotals>::empty()) == 0);
            lemma_sum_orders_aggregate(Seq::empty(), before);
            lemma_sum_orders_aggregate(Seq::empty(), source_rows@);
            lemma_chunks_reduce_to_whole(before, source_rows@);
        }
        table = merge_tables(table, cache.customers());
        if k > 0 {
            path.append("; ");
        }
        path.append(cache.file_path().as_str());
        k += 1;
    }
    assert(wanted.take(k as int) == wanted);
    Ok(DataCache { file_path: path, cached_rows: rows, customers: table })
}

/// What is missing among the first of `wanted` is what is missing first
/// among all.
pub proof fn lemma_first_missing_prefix(ids: Seq<Seq<char>>, wanted: Seq<Seq<char>>, k: int)
    requires
        0 <= k <= wanted.len(),
    ensures
        first_missing(ids, wanted.take(k)) is Some ==> first_missing(ids, wanted) == first_missing(
            ids,
            wanted.take(k),
        ),
    decreases wanted.len() - k,
{
    if k < wanted.len() {
        lemma_first_missing_prefix(ids, wanted, k + 1);
        assert(wanted.take(k + 1).drop_last() == wanted.take(k));
    } else {
        assert(wanted.take(k) == wanted);
    }
}

} // verus!
