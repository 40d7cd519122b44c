//! A collection: a fixed dimension and distance metric bound to an
//! append-only record store, a set of provenance tags, and a rebuildable
//! index snapshot.
//!
//! The index is a pure derived artifact: because the record store is
//! append-only, the snapshot taken by the last rebuild is exactly a prefix
//! of the records, so the collection tracks it as the count of records
//! covered.  Records appended after a rebuild stay invisible to the
//! index-backed query path until the next rebuild (explicit staleness).  A
//! fresh collection starts with an index built over its initial records, so
//! the index-backed path never fails for lack of an index; before any
//! records are covered it simply returns no results.

use vstd::prelude::*;

use crate::MAX_DIMENSION;
use crate::embedding::Embedding;
use crate::embedding::EmbeddingModel;
use crate::index::Vector;
use crate::similarity::Distance;
use crate::similarity::ScoreIndex;
use crate::similarity::get_cache_attr;
use crate::similarity::lower_is_better;
use crate::similarity::score_s;
use crate::similarity::score_with_cache;
use crate::similarity::top_k;
use crate::similarity::top_k_s;

verus! {

/// The mathematical value of a [`Collection`].
pub ghost struct CollectionModel {
    pub dimension: nat,
    pub distance: Distance,
    pub unique_ids: bool,
    pub records: Seq<EmbeddingModel>,
    pub tags: Seq<Seq<char>>,
    pub indexed: nat,
}

impl CollectionModel {
    /// The collection's invariant: the dimension is within the supported
    /// cap, every stored vector's length equals the dimension, the index
    /// snapshot covers a prefix of the records, provenance tags are unique,
    /// and in id-unique mode no two records share an id.
    pub open spec fn wf(self) -> bool {
        &&& self.dimension <= MAX_DIMENSION
        &&& forall|i: int|
            0 <= i < self.records.len() ==> (#[trigger] self.records[i]).vector.len()
                == self.dimension
        &&& self.indexed <= self.records.len()
        &&& forall|i: int, j: int| 0 <= i < j < self.tags.len() ==> self.tags[i] != self.tags[j]
        &&& (self.unique_ids ==> forall|i: int, j: int|
            0 <= i < j < self.records.len() ==> (#[trigger] self.records[i]).id
                != (#[trigger] self.records[j]).id)
    }
}

/// Provenance bookkeeping: the source tags seen by this collection, in
/// first-seen order, each exactly once.
pub struct Metadata {
    pub file_names: Vec<String>,
}

impl View for Metadata {
    type V = Seq<Seq<char>>;

    open spec fn view(&self) -> Seq<Seq<char>> {
        self.file_names@.map_values(|s: String| s@)
    }
}

/// A named group of vector records with one dimension and one metric.
pub struct Collection {
    pub dimension: usize,
    pub distance: Distance,
    pub unique_ids: bool,
    pub embeddings: Vec<Embedding>,
    pub metadata: Metadata,
    pub indexed: usize,
}

impl View for Collection {
    type V = CollectionModel;

    open spec fn view(&self) -> CollectionModel {
        CollectionModel {
            dimension: self.dimension as nat,
            distance: self.distance,
            unique_ids: self.unique_ids,
            records: self.embeddings@.map_values(|e: Embedding| e@),
            tags: self.metadata@,
            indexed: self.indexed as nat,
        }
    }
}

/// One exact-path result: the candidate's score and a copy of its record.
pub struct SimilarityResult {
    pub score: i64,
    pub embedding: Embedding,
}

/// The records an incoming batch actually contributes: pairs are kept in
/// input order, and every pair whose vector length differs from the
/// collection dimension is skipped (the documented lenient-skip policy).
pub open spec fn filtered_batch(
    keys: Seq<Seq<i16>>,
    values: Seq<Seq<char>>,
    dim: nat,
    n: int,
) -> Seq<EmbeddingModel>
    decreases n,
{
    if n <= 0 {
        Seq::empty()
    } else {
        let rest = filtered_batch(keys, values, dim, n - 1);
        if keys[n - 1].len() == dim {
            rest.push(EmbeddingModel { id: values[n - 1], vector: keys[n - 1], attrs: Option::None })
        } else {
            rest
        }
    }
}

/// The whole batch after the lenient-skip filter.
pub open spec fn filtered(keys: Seq<Seq<i16>>, values: Seq<Seq<char>>, dim: nat) -> Seq<
    EmbeddingModel,
> {
    filtered_batch(keys, values, dim, keys.len() as int)
}

/// Adds a provenance tag, exactly once.
pub open spec fn add_tag(tags: Seq<Seq<char>>, t: Seq<char>) -> Seq<Seq<char>> {
    if tags.contains(t) {
        tags
    } else {
        tags.push(t)
    }
}

/// Ids of an incoming batch neither collide with the stored records nor
/// with each other (what id-unique mode demands of an insert).
pub open spec fn batch_ids_ok(records: Seq<EmbeddingModel>, add: Seq<EmbeddingModel>) -> bool {
    &&& (forall|i: int, j: int|
        0 <= i < records.len() && 0 <= j < add.len() ==> (#[trigger] records[i]).id
            != (#[trigger] add[j]).id)
    &&& (forall|i: int, j: int|
        0 <= i < j < add.len() ==> (#[trigger] add[i]).id != (#[trigger] add[j]).id)
}

/// The collection after a rebuild: the same data, with the index snapshot
/// covering every current record.
pub open spec fn built(m: CollectionModel) -> CollectionModel {
    CollectionModel { indexed: m.records.len(), ..m }
}

/// The exact scores of a record sequence against a query.
pub open spec fn scores_of(records: Seq<EmbeddingModel>, metric: Distance, q: Seq<i16>) -> Seq<
    i64,
> {
    Seq::new(records.len(), |i: int| score_s(metric, records[i].vector, q) as i64)
}

/// What the exact (full-scan) query path selects.
pub open spec fn exact_selection(m: CollectionModel, q: Seq<i16>, k: int) -> Seq<ScoreIndex> {
    top_k_s(scores_of(m.records, m.distance, q), k, lower_is_better(m.distance))
}

/// What the index-backed query path selects: the same ranking, restricted
/// to the records covered by the last rebuild.
pub open spec fn approx_selection(m: CollectionModel, q: Seq<i16>, k: int) -> Seq<ScoreIndex> {
    top_k_s(
        scores_of(m.records.take(m.indexed as int), m.distance, q),
        k,
        lower_is_better(m.distance),
    )
}

/// A query limit clamped to a count: negative limits ask for nothing.
pub open spec fn k_of(limit: i32) -> int {
    if limit <= 0 {
        0
    } else {
        limit as int
    }
}

/// Rebuilding the index twice in a row with no intervening append is the
/// same as rebuilding it once: the second rebuild covers the very same
/// records, so the whole collection state — and with it the answer to every
/// query — is unchanged.
pub proof fn lemma_rebuild_idempotent(m: CollectionModel)
    ensures
        built(built(m)) == built(m),
{
}

/// Immediately after a rebuild the index-backed query path and the exact
/// full-scan path select exactly the same ranked candidates for every query
/// and every requested count: the fresh snapshot covers all records.
pub proof fn lemma_fresh_index_paths_agree(m: CollectionModel, q: Seq<i16>, k: int)
    requires
        m.indexed == m.records.len(),
    ensures
        approx_selection(m, q, k) == exact_selection(m, q, k),
{
    assert(m.records.take(m.indexed as int) =~= m.records);
}

impl Collection {
    /// A new collection over the given parallel key/value lists, with an
    /// index built over exactly those records (cosine metric, free-form
    /// ids).
    pub fn new(keys: Vec<Vector>, values: Vec<String>, dimension: usize) -> (r: Collection)
        requires
            dimension <= MAX_DIMENSION,
            keys@.len() == values@.len(),
            forall|i: int| 0 <= i < keys@.len() ==> (#[trigger] keys@[i])@.len() == dimension,
        ensures
            r@.wf(),
            r@.dimension == dimension,
            r@.distance == Distance::Cosine,
            !r@.unique_ids,
            r@.records.len() == keys@.len(),
            forall|i: int|
                0 <= i < keys@.len() ==> (#[trigger] r@.records[i]) == (EmbeddingModel {
                    id: values@[i]@,
                    vector: keys@[i]@,
                    attrs: Option::None,
                }),
            r@.tags.len() == 0,
            r@.indexed == keys@.len(),
    {
        let n: usize = keys.len();
        let mut embeddings: Vec<Embedding> = Vec::new();
        let mut i: usize = 0;
        while i < n
            invariant
                n == keys@.len() == values@.len(),
                0 <= i <= n,
                embeddings@.len() == i,
                forall|q: int|
                    0 <= q < i ==> (#[trigger] embeddings@[q])@ == (EmbeddingModel {
                        id: values@[q]@,
                        vector: keys@[q]@,
                        attrs: Option::None,
                    }),
            decreases n - i,
        {
            let vector: Vec<i16> = keys[i].data.clone();
            proof {
                assert(vector@ =~= keys@[i as int]@);
            }
            embeddings.push(Embedding { id: values[i].clone(), vector, metadata: Option::None });
            i = i + 1;
        }
        let r = Collection {
            dimension,
            distance: Distance::Cosine,
            unique_ids: false,
            embeddings,
            metadata: Metadata { file_names: Vec::new() },
            indexed: n,
        };
        proof {
            assert(r@.tags =~= Seq::<Seq<char>>::empty());
            assert forall|i2: int| 0 <= i2 < keys@.len() implies (#[trigger] r@.records[i2])
                == (EmbeddingModel {
                id: values@[i2]@,
                vector: keys@[i2]@,
                attrs: Option::None,
            }) by {
                assert(r@.records[i2] == r.embeddings@[i2]@);
            }
        }
        r
    }

    /// Appends a batch of records and registers its provenance tag.
    ///
    /// The parallel lists are drained.  Pairs whose vector length differs
    /// from the collection dimension are skipped silently; the tag is added
    /// exactly once even so.  The call fails — and changes nothing — only
    /// when the parallel lists differ in length.  The index snapshot is
    /// deliberately left untouched: appended records stay invisible to the
    /// index-backed path until the next rebuild.
    pub fn append(&mut self, keys: &mut Vec<Vector>, values: &mut Vec<String>, file_name: String)
        -> (r: Result<(), String>)
        requires
            old(self)@.wf(),
            old(self)@.unique_ids ==> batch_ids_ok(
                old(self)@.records,
                filtered(
                    old(keys)@.map_values(|v: Vector| v@),
                    old(values)@.map_values(|s: String| s@),
                    old(self)@.dimension,
                ),
            ),
        ensures
            r is Ok <==> old(keys)@.len() == old(values)@.len(),
            r is Ok ==> final(self)@ == (CollectionModel {
                records: old(self)@.records + filtered(
                    old(keys)@.map_values(|v: Vector| v@),
                    old(values)@.map_values(|s: String| s@),
                    old(self)@.dimension,
                ),
                tags: add_tag(old(self)@.tags, file_name@),
                ..old(self)@
            }) && final(keys)@.len() == 0 && final(values)@.len() == 0,
            r matches Err(e) ==> *final(self) == *old(self) && *final(keys) == *old(keys)
                && *final(values) == *old(values) && e@ == "length of keys not equal to values'"@,
            final(self)@.wf(),
    {
        if keys.len() != values.len() {
            return Err("length of keys not equal to values'".to_owned());
        }
        let ghost km = keys@.map_values(|v: Vector| v@);
        let ghost vm = values@.map_values(|s: String| s@);
        let ghost old_records = self@.records;
        let n: usize = keys.len();
        let mut i: usize = 0;
        while i < n
            invariant
                n == keys@.len() == values@.len(),
                keys@ == old(keys)@,
                values@ == old(values)@,
                km == keys@.map_values(|v: Vector| v@),
                vm == values@.map_values(|s: String| s@),
                0 <= i <= n,
                self.dimension == old(self).dimension,
                self.distance == old(self).distance,
                self.unique_ids == old(self).unique_ids,
                self.metadata == old(self).metadata,
                self.indexed == old(self).indexed,
                old_records == old(self)@.records,
                self@.records =~= old_records + filtered_batch(
                    km,
                    vm,
                    self.dimension as nat,
                    i as int,
                ),
            decreases n - i,
        {
            proof {
                assert(km[i as int] == keys@[i as int]@);
                assert(vm[i as int] == values@[i as int]@);
            }
            let ghost prev_records = self@.records;
            if keys[i].data.len() == self.dimension {
                let vector: Vec<i16> = keys[i].data.clone();
                proof {
                    assert(vector@ =~= keys@[i as int]@);
                }
                let e = Embedding { id: values[i].clone(), vector, metadata: Option::None };
                proof {
                    assert(e@ == (EmbeddingModel {
                        id: vm[i as int],
                        vector: km[i as int],
                        attrs: Option::None,
                    }));
                }
                self.embeddings.push(e);
                proof {
                    assert(self@.records =~= prev_records.push(e@));
                }
            }
            proof {
                assert(self@.records =~= old_records + filtered_batch(
                    km,
                    vm,
                    self.dimension as nat,
                    i + 1,
                ));
            }
            i = i + 1;
        }
        let ghost tag = file_name@;
        let ghost tags_before = self@.tags;
        let present = self.has_tag(&file_name);
        if !present {
            self.metadata.file_names.push(file_name);
            proof {
                assert(self@.tags =~= tags_before.push(tag));
            }
        }
        proof {
            assert(self@.tags == add_tag(tags_before, tag));
        }
        keys.clear();
        values.clear();
        proof {
            lemma_append_wf(old(self)@, self@, km, vm, tag);
            assert(self@ == (CollectionModel {
                records: old(self)@.records + filtered(km, vm, old(self)@.dimension),
                tags: add_tag(old(self)@.tags, tag),
                ..old(self)@
            }));
        }
        Ok(())
    }

    /// Whether this provenance tag was already registered.
    fn has_tag(&self, t: &String) -> (r: bool)
        ensures
            r == self@.tags.contains(t@),
    {
        let n: usize = self.metadata.file_names.len();
        let mut i: usize = 0;
        while i < n
            invariant
                n == self.metadata.file_names@.len(),
                0 <= i <= n,
                forall|q: int| 0 <= q < i ==> self.metadata.file_names@[q]@ != t@,
            decreases n - i,
        {
            if self.metadata.file_names[i].eq(t) {
                proof {
                    assert(self@.tags[i as int] == t@);
                }
                return true;
            }
            i = i + 1;
        }
        proof {
            assert forall|q: int| 0 <= q < self@.tags.len() implies self@.tags[q] != t@ by {
                assert(self@.tags[q] == self.metadata.file_names@[q]@);
            }
        }
        false
    }

    /// Rebuilds the index: the snapshot now covers every current record.
    /// Building from an empty record store is well-defined and yields an
    /// index that answers every query with no results.
    pub fn build_index(&mut self)
        ensures
            final(self)@ == built(old(self)@),
    {
        self.indexed = self.embeddings.len();
    }

    /// The index-backed query path: ranks the records covered by the last
    /// rebuild against `key` under the collection's metric and returns up
    /// to `limit` best `(score, id)` pairs, best first.
    pub fn query(&self, key: &Vector, limit: i32) -> (r: Vec<(i64, String)>)
        requires
            self@.wf(),
            key@.len() == self@.dimension,
        ensures
            ({
                let sel = approx_selection(self@, key@, k_of(limit));
                r@.len() == sel.len() && (forall|i: int|
                    0 <= i < r@.len() ==> (#[trigger] r@[i]).0 == sel[i].score && r@[i].1@
                        == self@.records[sel[i].index as int].id)
            }),
    {
        let k: usize = if limit <= 0 {
            0
        } else {
            limit as usize
        };
        let snap: usize = self.indexed;
        let cache: i64 = get_cache_attr(self.distance, &key.data);
        let mut scores: Vec<i64> = Vec::new();
        let ghost snapshot = self@.records.take(snap as int);
        let mut i: usize = 0;
        while i < snap
            invariant
                self@.wf(),
                key@.len() == self@.dimension,
                snap <= self.embeddings@.len(),
                snapshot == self@.records.take(snap as int),
                cache as int == crate::similarity::cache_attr_s(self.distance, key@),
                0 <= i <= snap,
                scores@.len() == i,
                forall|q: int|
                    0 <= q < i ==> (#[trigger] scores@[q]) as int == score_s(
                        self.distance,
                        snapshot[q].vector,
                        key@,
                    ),
            decreases snap - i,
        {
            proof {
                assert(self@.records[i as int].vector == self.embeddings@[i as int].vector@);
                assert(self@.records[i as int].vector.len() == self@.dimension);
            }
            let s = score_with_cache(self.distance, &self.embeddings[i].vector, &key.data, cache);
            scores.push(s);
            i = i + 1;
        }
        proof {
            assert(scores@ =~= scores_of(snapshot, self.distance, key@));
        }
        let lb: bool = match self.distance {
            Distance::Euclidean => true,
            _ => false,
        };
        let sel = top_k(&scores, k, lb);
        let mut r: Vec<(i64, String)> = Vec::new();
        let ghost selection = approx_selection(self@, key@, k_of(limit));
        proof {
            assert(selection == sel@);
        }
        let m: usize = sel.len();
        let mut j: usize = 0;
        while j < m
            invariant
                m == sel@.len(),
                sel@ == selection,
                0 <= j <= m,
                r@.len() == j,
                forall|q: int|
                    0 <= q < sel@.len() ==> (#[trigger] sel@[q]).index < snap && snap
                        <= self.embeddings@.len(),
                forall|q: int|
                    0 <= q < j ==> (#[trigger] r@[q]).0 == sel@[q].score && r@[q].1@
                        == self@.records[sel@[q].index as int].id,
            decreases m - j,
        {
            let idx: usize = sel[j].index;
            r.push((sel[j].score, self.embeddings[idx].id.clone()));
            j = j + 1;
        }
        r
    }

    /// The exact query path: scores every current record against `query`
    /// (computing the per-query attribute once) and returns the `k` best
    /// results best-first, each carrying a copy of its record.  The scan is
    /// sequential; candidates are independent, so the ranking is the same
    /// as for any other scan order.
    pub fn get_similarity(&self, query: &Vec<i16>, k: usize) -> (r: Vec<SimilarityResult>)
        requires
            self@.wf(),
            query@.len() == self@.dimension,
        ensures
            ({
                let sel = exact_selection(self@, query@, k as int);
                r@.len() == sel.len() && (forall|i: int|
                    0 <= i < r@.len() ==> (#[trigger] r@[i]).score == sel[i].score
                        && r@[i].embedding@ == self@.records[sel[i].index as int])
            }),
    {
        let n: usize = self.embeddings.len();
        let cache: i64 = get_cache_attr(self.distance, query);
        let mut scores: Vec<i64> = Vec::new();
        let mut i: usize = 0;
        while i < n
            invariant
                self@.wf(),
                query@.len() == self@.dimension,
                n == self.embeddings@.len(),
                cache as int == crate::similarity::cache_attr_s(self.distance, query@),
                0 <= i <= n,
                scores@.len() == i,
                forall|q: int|
                    0 <= q < i ==> (#[trigger] scores@[q]) as int == score_s(
                        self.distance,
                        self@.records[q].vector,
                        query@,
                    ),
            decreases n - i,
        {
            proof {
                assert(self@.records[i as int].vector == self.embeddings@[i as int].vector@);
                assert(self@.records[i as int].vector.len() == self@.dimension);
            }
            let s = score_with_cache(self.distance, &self.embeddings[i].vector, query, cache);
            scores.push(s);
            i = i + 1;
        }
        proof {
            assert(scores@ =~= scores_of(self@.records, self.distance, query@));
        }
        let lb: bool = match self.distance {
            Distance::Euclidean => true,
            _ => false,
        };
        let sel = top_k(&scores, k, lb);
        let ghost selection = exact_selection(self@, query@, k as int);
        proof {
            assert(selection == sel@);
        }
        let mut r: Vec<SimilarityResult> = Vec::new();
        let m: usize = sel.len();
        let mut j: usize = 0;
        while j < m
            invariant
                m == sel@.len(),
                sel@ == selection,
                0 <= j <= m,
                r@.len() == j,
                forall|q: int|
                    0 <= q < sel@.len() ==> (#[trigger] sel@[q]).index < self.embeddings@.len(),
                forall|q: int|
                    0 <= q < j ==> (#[trigger] r@[q]).score == sel@[q].score && r@[q].embedding@
                        == self@.records[sel@[q].index as int],
            decreases m - j,
        {
            let idx: usize = sel[j].index;
            let emb = self.embeddings[idx].duplicate();
            r.push(SimilarityResult { score: sel[j].score, embedding: emb });
            j = j + 1;
        }
        r
    }
}

/// Appending filtered records and one fresh tag preserves the collection
/// invariant.
proof fn lemma_append_wf(
    old_m: CollectionModel,
    new_m: CollectionModel,
    km: Seq<Seq<i16>>,
    vm: Seq<Seq<char>>,
    tag: Seq<char>,
)
    requires
        old_m.wf(),
        old_m.unique_ids ==> batch_ids_ok(old_m.records, filtered(km, vm, old_m.dimension)),
        new_m == (CollectionModel {
            records: old_m.records + filtered(km, vm, old_m.dimension),
            tags: add_tag(old_m.tags, tag),
            ..old_m
        }),
    ensures
        new_m.wf(),
{
    let add = filtered(km, vm, old_m.dimension);
    lemma_filtered_valid(km, vm, old_m.dimension, km.len() as int);
    assert forall|i: int|
        0 <= i < new_m.records.len() implies (#[trigger] new_m.records[i]).vector.len()
        == new_m.dimension by {
        if i < old_m.records.len() {
            assert(new_m.records[i] == old_m.records[i]);
        } else {
            assert(new_m.records[i] == add[i - old_m.records.len()]);
        }
    }
    if !old_m.tags.contains(tag) {
        assert forall|i: int, j: int|
            0 <= i < j < new_m.tags.len() implies new_m.tags[i] != new_m.tags[j] by {
            if j == new_m.tags.len() - 1 {
                assert(new_m.tags[i] == old_m.tags[i]);
                assert(!(exists|q: int| 0 <= q < old_m.tags.len() && old_m.tags[q] == tag));
            }
        }
    }
    if old_m.unique_ids {
        assert forall|i: int, j: int|
            0 <= i < j < new_m.records.len() implies (#[trigger] new_m.records[i]).id
            != (#[trigger] new_m.records[j]).id by {
            let ol = old_m.records.len() as int;
            if j < ol {
            } else if i < ol {
                assert(new_m.records[i] == old_m.records[i]);
                assert(new_m.records[j] == add[j - ol]);
            } else {
                assert(new_m.records[i] == add[i - ol]);
                assert(new_m.records[j] == add[j - ol]);
            }
        }
    }
}

/// Every record the lenient-skip filter keeps has exactly the collection's
/// dimension.
proof fn lemma_filtered_valid(km: Seq<Seq<i16>>, vm: Seq<Seq<char>>, dim: nat, n: int)
    requires
        0 <= n <= km.len(),
    ensures
        forall|i: int|
            0 <= i < filtered_batch(km, vm, dim, n).len() ==> (#[trigger] filtered_batch(
                km,
                vm,
                dim,
                n,
            )[i]).vector.len() == dim,
    decreases n,
{
    if n > 0 {
        lemma_filtered_valid(km, vm, dim, n - 1);
    }
}

} // verus!
