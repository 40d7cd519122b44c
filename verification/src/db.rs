//! The registry: a name-to-collection mapping with unique names, plus a
//! small id-to-content store.  The registry is the unit of persistence.
//!
//! Operations on an absent name fail with `NotFound` and never create a
//! collection implicitly.  No operation leaves the registry in a state that
//! breaks an invariant: every check runs before any mutation.

use vstd::prelude::*;

use crate::MAX_DIMENSION;
use crate::collection::add_tag;
use crate::collection::approx_selection;
use crate::collection::batch_ids_ok;
use crate::collection::built;
use crate::collection::filtered;
use crate::collection::filtered_batch;
use crate::collection::k_of;
use crate::collection::Collection;
use crate::collection::CollectionModel;
use crate::collection::Metadata;
use crate::embedding::Embedding;
use crate::embedding::EmbeddingModel;
use crate::error::Error;
use crate::index::Vector;
use crate::similarity::Distance;

verus! {

/// The mathematical value of a [`Database`].
pub ghost struct DatabaseModel {
    pub collections: Seq<(Seq<char>, CollectionModel)>,
    pub content: Seq<(Seq<char>, Seq<char>)>,
}

impl DatabaseModel {
    /// Registry invariant: collection names are unique, every collection is
    /// well-formed, and content ids are unique.
    pub open spec fn wf(self) -> bool {
        &&& (forall|i: int, j: int|
            0 <= i < j < self.collections.len() ==> (#[trigger] self.collections[i]).0
                != (#[trigger] self.collections[j]).0)
        &&& (forall|i: int|
            0 <= i < self.collections.len() ==> (#[trigger] self.collections[i]).1.wf())
        &&& (forall|i: int, j: int|
            0 <= i < j < self.content.len() ==> (#[trigger] self.content[i]).0
                != (#[trigger] self.content[j]).0)
    }

    /// Whether a collection of this name exists.
    pub open spec fn has_name(self, n: Seq<char>) -> bool {
        exists|i: int| 0 <= i < self.collections.len() && (#[trigger] self.collections[i]).0 == n
    }

    /// The slot of the named collection (meaningful when `has_name`).
    pub open spec fn idx_of(self, n: Seq<char>) -> int {
        choose|i: int| 0 <= i < self.collections.len() && (#[trigger] self.collections[i]).0 == n
    }

    /// The named collection (meaningful when `has_name`).
    pub open spec fn at_name(self, n: Seq<char>) -> CollectionModel {
        self.collections[self.idx_of(n)].1
    }

    /// All collection names, in creation order.
    pub open spec fn names(self) -> Seq<Seq<char>> {
        self.collections.map_values(|p: (Seq<char>, CollectionModel)| p.0)
    }

    /// Whether a content entry of this id exists.
    pub open spec fn has_content(self, id: Seq<char>) -> bool {
        exists|i: int| 0 <= i < self.content.len() && (#[trigger] self.content[i]).0 == id
    }

    /// The slot of the content entry (meaningful when `has_content`).
    pub open spec fn content_idx(self, id: Seq<char>) -> int {
        choose|i: int| 0 <= i < self.content.len() && (#[trigger] self.content[i]).0 == id
    }

    /// The registry with the collection in slot `i` replaced.
    pub open spec fn updated(self, i: int, c: CollectionModel) -> DatabaseModel {
        DatabaseModel {
            collections: self.collections.update(i, (self.collections[i].0, c)),
            ..self
        }
    }
}

/// A fresh, empty collection as `create_collection` makes it.
pub open spec fn empty_collection(dim: nat, distance: Distance, unique_ids: bool) -> CollectionModel {
    CollectionModel {
        dimension: dim,
        distance,
        unique_ids,
        records: Seq::empty(),
        tags: Seq::empty(),
        indexed: 0,
    }
}

/// A collection after an accepted batch append.
pub open spec fn appended(
    c: CollectionModel,
    km: Seq<Seq<i16>>,
    vm: Seq<Seq<char>>,
    tag: Seq<char>,
) -> CollectionModel {
    CollectionModel {
        records: c.records + filtered(km, vm, c.dimension),
        tags: add_tag(c.tags, tag),
        ..c
    }
}

/// What `create_collection` does to the registry (nothing if the name is
/// taken).
pub open spec fn create_effect(
    m: DatabaseModel,
    name: Seq<char>,
    dim: nat,
    distance: Distance,
    unique_ids: bool,
) -> DatabaseModel {
    if m.has_name(name) {
        m
    } else {
        DatabaseModel {
            collections: m.collections.push((name, empty_collection(dim, distance, unique_ids))),
            ..m
        }
    }
}

/// What `insert_into_collection` does to the registry (nothing on any of
/// its error paths).
pub open spec fn insert_effect(
    m: DatabaseModel,
    name: Seq<char>,
    km: Seq<Seq<i16>>,
    vm: Seq<Seq<char>>,
    tag: Seq<char>,
) -> DatabaseModel {
    if !m.has_name(name) {
        m
    } else {
        let c = m.at_name(name);
        if km.len() != vm.len() {
            m
        } else if c.unique_ids && !batch_ids_ok(c.records, filtered(km, vm, c.dimension)) {
            m
        } else {
            m.updated(m.idx_of(name), appended(c, km, vm, tag))
        }
    }
}

/// What `build_index` does to the registry (nothing if the name is absent).
pub open spec fn build_effect(m: DatabaseModel, name: Seq<char>) -> DatabaseModel {
    if m.has_name(name) {
        m.updated(m.idx_of(name), built(m.at_name(name)))
    } else {
        m
    }
}

/// The registry: the store's root object.
pub struct Database {
    pub collections: Vec<(String, Collection)>,
    pub content: Vec<(String, String)>,
}

impl View for Database {
    type V = DatabaseModel;

    open spec fn view(&self) -> DatabaseModel {
        DatabaseModel {
            collections: self.collections@.map_values(
                |p: (String, Collection)| (p.0@, p.1@),
            ),
            content: self.content@.map_values(|p: (String, String)| (p.0@, p.1@)),
        }
    }
}

/// Relies on str's `PartialEq`: two string slices compare equal exactly
/// when their character sequences are equal.
#[verifier::external_body]
pub(crate) fn str_eq(a: &str, b: &str) -> (r: bool)
    ensures
        r == (a@ == b@),
{
    a == b
}

/// A name can sit in only one slot of a well-formed registry.
proof fn lemma_name_slot_unique(m: DatabaseModel, n: Seq<char>, i: int)
    requires
        m.wf(),
        0 <= i < m.collections.len(),
        m.collections[i].0 == n,
    ensures
        m.has_name(n),
        m.idx_of(n) == i,
{
    assert(m.has_name(n));
    let j = m.idx_of(n);
    assert(0 <= j < m.collections.len() && m.collections[j].0 == n);
    if i < j {
        assert(m.collections[i].0 != m.collections[j].0);
    } else if j < i {
        assert(m.collections[j].0 != m.collections[i].0);
    }
}

/// An id can sit in only one slot of the content store.
proof fn lemma_content_slot_unique(m: DatabaseModel, id: Seq<char>, i: int)
    requires
        m.wf(),
        0 <= i < m.content.len(),
        m.content[i].0 == id,
    ensures
        m.has_content(id),
        m.content_idx(id) == i,
{
    assert(m.has_content(id));
    let j = m.content_idx(id);
    if i < j {
        assert(m.content[i].0 != m.content[j].0);
    } else if j < i {
        assert(m.content[j].0 != m.content[i].0);
    }
}

impl Database {
    /// An empty registry.
    pub fn new() -> (r: Database)
        ensures
            r@.wf(),
            r@.collections.len() == 0,
            r@.content.len() == 0,
    {
        let r = Database { collections: Vec::new(), content: Vec::new() };
        proof {
            assert(r@.collections =~= Seq::<(Seq<char>, CollectionModel)>::empty());
            assert(r@.content =~= Seq::<(Seq<char>, Seq<char>)>::empty());
        }
        r
    }

    /// The slot holding the named collection, if any.
    fn find(&self, name: &str) -> (r: Option<usize>)
        requires
            self@.wf(),
        ensures
            match r {
                Option::Some(i) => self@.has_name(name@) && self@.idx_of(name@) == i as int && i
                    < self.collections@.len(),
                Option::None => !self@.has_name(name@),
            },
    {
        let n: usize = self.collections.len();
        let mut i: usize = 0;
        while i < n
            invariant
                self@.wf(),
                n == self.collections@.len(),
                0 <= i <= n,
                forall|q: int| 0 <= q < i ==> (#[trigger] self.collections@[q]).0@ != name@,
            decreases n - i,
        {
            if str_eq(self.collections[i].0.as_str(), name) {
                proof {
                    assert(self@.collections[i as int].0 == name@);
                    lemma_name_slot_unique(self@, name@, i as int);
                }
                return Some(i);
            }
            i = i + 1;
        }
        proof {
            assert forall|q: int| 0 <= q < self@.collections.len() implies (
            #[trigger] self@.collections[q]).0 != name@ by {
                assert(self@.collections[q].0 == self.collections@[q].0@);
            }
        }
        None
    }

    /// Creates an empty collection under a fresh name (cosine metric,
    /// free-form ids).  Fails with `UniqueViolation` — and changes nothing
    /// — exactly when the name is already taken.
    pub fn create_collection(&mut self, name: String, dimension: usize) -> (r: Result<(), Error>)
        requires
            old(self)@.wf(),
            dimension <= MAX_DIMENSION,
        ensures
            final(self)@.wf(),
            r is Ok <==> !old(self)@.has_name(name@),
            final(self)@ == create_effect(
                old(self)@,
                name@,
                dimension as nat,
                Distance::Cosine,
                false,
            ),
            r matches Err(e) ==> e == Error::UniqueViolation && *final(self) == *old(self),
            r is Ok ==> final(self)@.has_name(name@),
    {
        self.create_collection_with(name, dimension, Distance::Cosine, false)
    }

    /// Creates an empty collection under a fresh name with an explicit
    /// metric and id-uniqueness mode.  Fails with `UniqueViolation` — and
    /// changes nothing — exactly when the name is already taken.
    pub fn create_collection_with(
        &mut self,
        name: String,
        dimension: usize,
        distance: Distance,
        unique_ids: bool,
    ) -> (r: Result<(), Error>)
        requires
            old(self)@.wf(),
            dimension <= MAX_DIMENSION,
        ensures
            final(self)@.wf(),
            r is Ok <==> !old(self)@.has_name(name@),
            final(self)@ == create_effect(old(self)@, name@, dimension as nat, distance, unique_ids),
            r matches Err(e) ==> e == Error::UniqueViolation && *final(self) == *old(self),
            r is Ok ==> final(self)@.has_name(name@),
    {
        match self.find(name.as_str()) {
            Option::Some(_) => Err(Error::UniqueViolation),
            Option::None => {
                let collection = Collection {
                    dimension,
                    distance,
                    unique_ids,
                    embeddings: Vec::new(),
                    metadata: Metadata { file_names: Vec::new() },
                    indexed: 0,
                };
                let ghost nm = name@;
                let ghost old_m = self@;
                proof {
                    assert(collection@.records =~= Seq::<EmbeddingModel>::empty());
                    assert(collection@.tags =~= Seq::<Seq<char>>::empty());
                }
                self.collections.push((name, collection));
                proof {
                    assert(self@.collections =~= old_m.collections.push(
                        (nm, empty_collection(dimension as nat, distance, unique_ids)),
                    ));
                    let len = old_m.collections.len() as int;
                    assert(self@.collections[len].0 == nm);
                    assert(self@.has_name(nm));
                    assert(self@.content =~= old_m.content);
                    assert(self@.collections[len].1 == empty_collection(
                        dimension as nat,
                        distance,
                        unique_ids,
                    ));
                    assert forall|a: int| 0 <= a < self@.collections.len() implies (
                    #[trigger] self@.collections[a]).1.wf() by {
                        if a < len {
                            assert(self@.collections[a] == old_m.collections[a]);
                        }
                    }
                    assert forall|i: int, j: int|
                        0 <= i < j < self@.collections.len() implies (
                    #[trigger] self@.collections[i]).0 != (#[trigger] self@.collections[j]).0 by {
                        if j < len {
                        } else {
                            assert(self@.collections[i] == old_m.collections[i]);
                            if old_m.has_name(nm) {
                            } else {
                                assert(!(exists|q: int|
                                    0 <= q < old_m.collections.len() && (
                                    #[trigger] old_m.collections[q]).0 == nm));
                            }
                        }
                    }
                }
                Ok(())
            },
        }
    }

    /// A reference to the named collection, if it exists.
    pub fn get_collection(&self, name: &str) -> (r: Option<&Collection>)
        requires
            self@.wf(),
        ensures
            match r {
                Option::Some(c) => self@.has_name(name@) && c@ == self@.at_name(name@),
                Option::None => !self@.has_name(name@),
            },
    {
        match self.find(name) {
            Option::Some(i) => Some(&self.collections[i].1),
            Option::None => None,
        }
    }

    /// All collection names, in creation order.
    pub fn get_all_collections(&self) -> (r: Vec<String>)
        ensures
            r@.len() == self@.names().len(),
            forall|i: int| 0 <= i < r@.len() ==> (#[trigger] r@[i])@ == self@.names()[i],
    {
        let n: usize = self.collections.len();
        let mut r: Vec<String> = Vec::new();
        let mut i: usize = 0;
        while i < n
            invariant
                n == self.collections@.len(),
                0 <= i <= n,
                r@.len() == i,
                forall|q: int| 0 <= q < i ==> (#[trigger] r@[q])@ == self.collections@[q].0@,
            decreases n - i,
        {
            r.push(self.collections[i].0.clone());
            i = i + 1;
        }
        r
    }

    /// The provenance tags of the named collection, in first-seen order.
    /// Fails with `NotFound` exactly when the name is absent.
    pub fn get_docs(&mut self, index_name: &str) -> (r: Result<Vec<String>, Error>)
        requires
            old(self)@.wf(),
        ensures
            *final(self) == *old(self),
            r is Ok <==> old(self)@.has_name(index_name@),
            r matches Ok(v) ==> v@.len() == old(self)@.at_name(index_name@).tags.len() && (forall|
                i: int,
            |
                0 <= i < v@.len() ==> (#[trigger] v@[i])@ == old(self)@.at_name(
                    index_name@,
                ).tags[i]),
            r matches Err(e) ==> e == Error::NotFound,
    {
        match self.find(index_name) {
            Option::None => Err(Error::NotFound),
            Option::Some(i) => {
                let names = &self.collections[i].1.metadata.file_names;
                let n: usize = names.len();
                let mut v: Vec<String> = Vec::new();
                let mut q: usize = 0;
                while q < n
                    invariant
                        n == names@.len(),
                        0 <= q <= n,
                        v@.len() == q,
                        forall|t: int| 0 <= t < q ==> (#[trigger] v@[t])@ == names@[t]@,
                    decreases n - q,
                {
                    v.push(names[q].clone());
                    q = q + 1;
                }
                proof {
                    assert(self@.at_name(index_name@) == self@.collections[i as int].1);
                }
                Ok(v)
            },
        }
    }

    /// Removes the named collection and all its state atomically, dropping
    /// any content entries stored under its record ids.  Fails with
    /// `NotFound` — and changes nothing — exactly when the name is absent.
    pub fn delete_collection(&mut self, name: &str) -> (r: Result<(), Error>)
        requires
            old(self)@.wf(),
        ensures
            final(self)@.wf(),
            r is Ok <==> old(self)@.has_name(name@),
            r is Ok ==> final(self)@.collections == old(self)@.collections.remove(
                old(self)@.idx_of(name@),
            ),
            r is Ok ==> final(self)@.content == purge_content(
                old(self)@.content,
                old(self)@.at_name(name@).records,
                old(self)@.content.len() as int,
            ),
            r matches Err(e) ==> e == Error::NotFound && *final(self) == *old(self),
    {
        match self.find(name) {
            Option::None => Err(Error::NotFound),
            Option::Some(i) => {
                let ghost old_m = self@;
                let ghost idx = i as int;
                let (_nm, c) = self.collections.remove(i);
                proof {
                    assert(self@.collections =~= old_m.collections.remove(idx));
                    assert forall|a: int, b: int|
                        0 <= a < b < self@.collections.len() implies (
                    #[trigger] self@.collections[a]).0 != (#[trigger] self@.collections[b]).0 by {
                        if b < idx {
                        } else if a < idx {
                            assert(self@.collections[a] == old_m.collections[a]);
                            assert(self@.collections[b] == old_m.collections[b + 1]);
                        } else {
                            assert(self@.collections[a] == old_m.collections[a + 1]);
                            assert(self@.collections[b] == old_m.collections[b + 1]);
                        }
                    }
                    assert forall|a: int| 0 <= a < self@.collections.len() implies (
                    #[trigger] self@.collections[a]).1.wf() by {
                        if a < idx {
                            assert(self@.collections[a] == old_m.collections[a]);
                        } else {
                            assert(self@.collections[a] == old_m.collections[a + 1]);
                        }
                    }
                    assert(old_m.at_name(name@) == c@);
                    assert(self@.content =~= old_m.content);
                    assert(self@.wf());
                }
                self.purge_content_of(&c);
                Ok(())
            },
        }
    }

    /// Drops every content entry whose id is also a record id of `c`.
    fn purge_content_of(&mut self, c: &Collection)
        requires
            old(self)@.wf(),
        ensures
            final(self)@.collections == old(self)@.collections,
            final(self)@.content == purge_content(
                old(self)@.content,
                c@.records,
                old(self)@.content.len() as int,
            ),
            final(self)@.wf(),
    {
        let ghost old_content = self@.content;
        let n: usize = self.content.len();
        let mut kept: Vec<(String, String)> = Vec::new();
        let mut i: usize = 0;
        while i < n
            invariant
                n == old_content.len(),
                self.content@.len() == n,
                forall|q: int|
                    0 <= q < n ==> (self.content@[q].0@, self.content@[q].1@) == old_content[q],
                0 <= i <= n,
                kept@.map_values(|p: (String, String)| (p.0@, p.1@)) =~= purge_content(
                    old_content,
                    c@.records,
                    i as int,
                ),
            decreases n - i,
        {
            let keep = !Self::record_id_present_in(c, &self.content[i].0);
            if keep {
                let ghost before = kept@.map_values(|p: (String, String)| (p.0@, p.1@));
                kept.push((self.content[i].0.clone(), self.content[i].1.clone()));
                proof {
                    assert(kept@.map_values(|p: (String, String)| (p.0@, p.1@)) =~= before.push(
                        old_content[i as int],
                    ));
                }
            }
            i = i + 1;
        }
        self.content = kept;
        proof {
            lemma_purge_content_sub(old_content, c@.records, n as int);
            assert(self@.content =~= purge_content(old_content, c@.records, n as int));
            assert(self@.collections =~= old(self)@.collections);
            assert(self@.wf());
        }
    }

    /// Whether some record of `c` carries this id.
    fn record_id_present_in(c: &Collection, id: &String) -> (r: bool)
        ensures
            r == (exists|t: int|
                0 <= t < c@.records.len() && (#[trigger] c@.records[t]).id == id@),
    {
        let n: usize = c.embeddings.len();
        let mut t: usize = 0;
        while t < n
            invariant
                n == c.embeddings@.len(),
                0 <= t <= n,
                forall|a: int| 0 <= a < t ==> (#[trigger] c.embeddings@[a]).id@ != id@,
            decreases n - t,
        {
            if c.embeddings[t].id.eq(id) {
                proof {
                    assert(c@.records[t as int].id == id@);
                }
                return true;
            }
            t = t + 1;
        }
        proof {
            assert forall|a: int| 0 <= a < c@.records.len() implies (
            #[trigger] c@.records[a]).id != id@ by {
                assert(c@.records[a] == c.embeddings@[a]@);
            }
        }
        false
    }

    /// Inserts a batch of `(vector, label)` pairs into the named
    /// collection, registering the batch's provenance tag.
    ///
    /// Fails with `NotFound` when the name is absent, with
    /// `DimensionMismatch` when the parallel arrays differ in length, and —
    /// in id-unique mode — with `UniqueViolation` when an incoming id
    /// collides with a stored record or with another incoming id.  A pair
    /// whose vector length differs from the collection's dimension is
    /// skipped silently; the call still succeeds and still registers the
    /// tag.  On any error nothing changes.
    pub fn insert_into_collection(
        &mut self,
        name: &str,
        keys: Vec<Vec<i16>>,
        values: Vec<String>,
        file_name: String,
    ) -> (r: Result<(), Error>)
        requires
            old(self)@.wf(),
        ensures
            final(self)@.wf(),
            final(self)@ == insert_effect(
                old(self)@,
                name@,
                keys@.map_values(|v: Vec<i16>| v@),
                values@.map_values(|s: String| s@),
                file_name@,
            ),
            r is Ok <==> (old(self)@.has_name(name@) && keys@.len() == values@.len() && (old(
                self,
            )@.at_name(name@).unique_ids ==> batch_ids_ok(
                old(self)@.at_name(name@).records,
                filtered(
                    keys@.map_values(|v: Vec<i16>| v@),
                    values@.map_values(|s: String| s@),
                    old(self)@.at_name(name@).dimension,
                ),
            ))),
            r matches Err(e) ==> *final(self) == *old(self) && (if !old(self)@.has_name(name@) {
                e == Error::NotFound
            } else if keys@.len() != values@.len() {
                e == Error::DimensionMismatch
            } else {
                e == Error::UniqueViolation
            }),
    {
        let ghost km = keys@.map_values(|v: Vec<i16>| v@);
        let ghost vm = values@.map_values(|s: String| s@);
        let i = match self.find(name) {
            Option::None => {
                return Err(Error::NotFound);
            },
            Option::Some(i) => i,
        };
        if keys.len() != values.len() {
            return Err(Error::DimensionMismatch);
        }
        let ghost old_m = self@;
        let ghost idx = i as int;
        let ghost c_model = self@.at_name(name@);
        proof {
            assert(c_model == self@.collections[idx].1);
            assert(c_model.wf());
        }

        // Apply the lenient-skip filter up front, so both the id check and
        // the append see exactly the records that will land.
        let dimension: usize = self.collections[i].1.dimension;
        proof {
            assert(dimension as nat == c_model.dimension);
        }
        let mut points: Vec<Vector> = Vec::new();
        let mut vals: Vec<String> = Vec::new();
        let n: usize = keys.len();
        let mut q: usize = 0;
        while q < n
            invariant
                n == keys@.len() == values@.len(),
                km == keys@.map_values(|v: Vec<i16>| v@),
                vm == values@.map_values(|s: String| s@),
                0 <= q <= n,
                points@.len() == vals@.len(),
                zip_models(points@, vals@) =~= filtered_batch(km, vm, dimension as nat, q as int),
                forall|t: int| 0 <= t < points@.len() ==> (#[trigger] points@[t])@.len() == dimension,
            decreases n - q,
        {
            proof {
                assert(km[q as int] == keys@[q as int]@);
                assert(vm[q as int] == values@[q as int]@);
            }
            if keys[q].len() == dimension {
                let ghost zm = zip_models(points@, vals@);
                let kq: Vec<i16> = keys[q].clone();
                proof {
                    assert(kq@ =~= keys@[q as int]@);
                }
                points.push(Vector { data: kq });
                vals.push(values[q].clone());
                proof {
                    assert(zip_models(points@, vals@) =~= zm.push(
                        EmbeddingModel { id: vm[q as int], vector: km[q as int], attrs: Option::None },
                    ));
                }
            }
            q = q + 1;
        }
        let ghost add = filtered(km, vm, dimension as nat);
        proof {
            assert(zip_models(points@, vals@) == add);
            lemma_filtered_all_valid(points@, vals@, dimension as nat, points@.len() as int);
        }
        let ghost pm = points@.map_values(|v: Vector| v@);
        let ghost vm2 = vals@.map_values(|s: String| s@);
        proof {
            assert(filtered(pm, vm2, dimension as nat) == add);
        }

        if self.collections[i].1.unique_ids {
            let clash = Self::ids_clash(&self.collections[i].1.embeddings, &vals);
            proof {
                assert(c_model.records.map_values(|e: EmbeddingModel| e.id)
                    =~= self.collections@[idx].1.embeddings@.map_values(|e: Embedding| e@.id));
                lemma_zip_ids(c_model.records, points@, vals@);
            }
            if clash {
                return Err(Error::UniqueViolation);
            }
        }

        let ghost tag = file_name@;
        let (nm, mut c) = self.collections.remove(i);
        proof {
            assert(old_m.collections[idx].0 == nm@);
            assert(c@ == c_model);
        }
        let res = c.append(&mut points, &mut vals, file_name);
        proof {
            assert(res is Ok);
            assert(c@ == appended(c_model, km, vm, tag)) by {
                assert(c@.records == c_model.records + filtered(pm, vm2, c_model.dimension));
                assert(appended(c_model, km, vm, tag).records == c_model.records + add);
            }
        }
        self.collections.insert(i, (nm, c));
        proof {
            assert(self@.collections =~= old_m.collections.update(
                idx,
                (old_m.collections[idx].0, appended(c_model, km, vm, tag)),
            ));
            assert(self@ == old_m.updated(idx, appended(c_model, km, vm, tag)));
            assert forall|a: int, b: int|
                0 <= a < b < self@.collections.len() implies (#[trigger] self@.collections[a]).0
                != (#[trigger] self@.collections[b]).0 by {
                assert(self@.collections[a].0 == old_m.collections[a].0);
                assert(self@.collections[b].0 == old_m.collections[b].0);
            }
            assert forall|a: int| 0 <= a < self@.collections.len() implies (
            #[trigger] self@.collections[a]).1.wf() by {
                if a != idx {
                    assert(self@.collections[a] == old_m.collections[a]);
                }
            }
        }
        Ok(())
    }

    /// Whether an incoming id list collides with the stored records or with
    /// itself.
    fn ids_clash(records: &Vec<Embedding>, vals: &Vec<String>) -> (r: bool)
        ensures
            r == !batch_ids_ok_ids(
                records@.map_values(|e: Embedding| e@.id),
                vals@.map_values(|s: String| s@),
            ),
    {
        let n: usize = vals.len();
        let mut i: usize = 0;
        while i < n
            invariant
                n == vals@.len(),
                0 <= i <= n,
                forall|a: int, b: int|
                    0 <= a < records@.len() && 0 <= b < i ==> (#[trigger] records@[a]).id@
                        != (#[trigger] vals@[b])@,
                forall|a: int, b: int|
                    0 <= a < b < i ==> (#[trigger] vals@[a])@ != (#[trigger] vals@[b])@,
            decreases n - i,
        {
            let m: usize = records.len();
            let mut a: usize = 0;
            while a < m
                invariant
                    m == records@.len(),
                    n == vals@.len(),
                    i < n,
                    0 <= a <= m,
                    forall|t: int| 0 <= t < a ==> (#[trigger] records@[t]).id@ != vals@[i as int]@,
                decreases m - a,
            {
                if records[a].id.eq(&vals[i]) {
                    proof {
                        let rid = records@.map_values(|e: Embedding| e@.id);
                        let vid = vals@.map_values(|s: String| s@);
                        assert(rid[a as int] == records@[a as int].id@);
                        assert(vid[i as int] == vals@[i as int]@);
                        assert(rid[a as int] == vid[i as int]);
                        assert(!batch_ids_ok_ids(rid, vid));
                    }
                    return true;
                }
                a = a + 1;
            }
            let mut b: usize = 0;
            while b < i
                invariant
                    n == vals@.len(),
                    i < n,
                    0 <= b <= i,
                    forall|t: int| 0 <= t < b ==> (#[trigger] vals@[t])@ != vals@[i as int]@,
                decreases i - b,
            {
                if vals[b].eq(&vals[i]) {
                    proof {
                        let vid = vals@.map_values(|s: String| s@);
                        assert(vid[b as int] == vals@[b as int]@);
                        assert(vid[i as int] == vals@[i as int]@);
                        assert(vid[b as int] == vid[i as int]);
                        assert(!batch_ids_ok_ids(
                            records@.map_values(|e: Embedding| e@.id),
                            vid,
                        ));
                    }
                    return true;
                }
                b = b + 1;
            }
            i = i + 1;
        }
        proof {
            let rid = records@.map_values(|e: Embedding| e@.id);
            let vid = vals@.map_values(|s: String| s@);
            assert forall|a: int, b: int|
                0 <= a < rid.len() && 0 <= b < vid.len() implies (#[trigger] rid[a]) != (
            #[trigger] vid[b]) by {
                assert(rid[a] == records@[a].id@ && vid[b] == vals@[b]@);
            }
            assert forall|a: int, b: int| 0 <= a < b < vid.len() implies (#[trigger] vid[a]) != (
            #[trigger] vid[b]) by {
                assert(vid[a] == vals@[a]@ && vid[b] == vals@[b]@);
            }
        }
        false
    }

    /// Inserts a single record into the named collection: the strict,
    /// id-oriented insert.  Fails with `NotFound` when the name is absent;
    /// in id-unique mode, with `UniqueViolation` when the record's id is
    /// already stored; and with `DimensionMismatch` when the vector's
    /// length differs from the collection's dimension.  On any error
    /// nothing changes.  The index snapshot is left untouched.
    pub fn insert_embedding(&mut self, name: &str, embedding: Embedding) -> (r: Result<(), Error>)
        requires
            old(self)@.wf(),
        ensures
            final(self)@.wf(),
            r is Ok <==> (old(self)@.has_name(name@) && (old(self)@.at_name(name@).unique_ids
                ==> !has_record_id(old(self)@.at_name(name@).records, embedding@.id))
                && embedding@.vector.len() == old(self)@.at_name(name@).dimension),
            r is Ok ==> final(self)@ == old(self)@.updated(
                old(self)@.idx_of(name@),
                CollectionModel {
                    records: old(self)@.at_name(name@).records.push(embedding@),
                    ..old(self)@.at_name(name@)
                },
            ),
            r matches Err(e) ==> *final(self) == *old(self) && (if !old(self)@.has_name(name@) {
                e == Error::NotFound
            } else if old(self)@.at_name(name@).unique_ids && has_record_id(
                old(self)@.at_name(name@).records,
                embedding@.id,
            ) {
                e == Error::UniqueViolation
            } else {
                e == Error::DimensionMismatch
            }),
    {
        let i = match self.find(name) {
            Option::None => {
                return Err(Error::NotFound);
            },
            Option::Some(i) => i,
        };
        let ghost old_m = self@;
        let ghost idx = i as int;
        let ghost c_model = self@.at_name(name@);
        proof {
            assert(c_model == self@.collections[idx].1);
            assert(c_model.wf());
        }
        if self.collections[i].1.unique_ids {
            if Self::record_id_present_in(&self.collections[i].1, &embedding.id) {
                return Err(Error::UniqueViolation);
            }
        }
        if embedding.vector.len() != self.collections[i].1.dimension {
            return Err(Error::DimensionMismatch);
        }
        let ghost em = embedding@;
        let (nm, mut c) = self.collections.remove(i);
        proof {
            assert(c@ == c_model);
        }
        let ghost c_before = c@;
        c.embeddings.push(embedding);
        proof {
            assert(c@.records =~= c_before.records.push(em));
            assert(c@ == (CollectionModel { records: c_model.records.push(em), ..c_model }));
        }
        self.collections.insert(i, (nm, c));
        proof {
            let new_c = CollectionModel { records: c_model.records.push(em), ..c_model };
            assert(self@.collections =~= old_m.collections.update(
                idx,
                (old_m.collections[idx].0, new_c),
            ));
            assert(self@ == old_m.updated(idx, new_c));
            assert(new_c.wf()) by {
                assert forall|a: int|
                    0 <= a < new_c.records.len() implies (#[trigger] new_c.records[a]).vector.len()
                    == new_c.dimension by {
                    if a < c_model.records.len() {
                        assert(new_c.records[a] == c_model.records[a]);
                    } else {
                        assert(new_c.records[a] == em);
                    }
                }
                if new_c.unique_ids {
                    assert forall|a: int, b: int|
                        0 <= a < b < new_c.records.len() implies (#[trigger] new_c.records[a]).id
                        != (#[trigger] new_c.records[b]).id by {
                        if b == new_c.records.len() - 1 {
                            assert(new_c.records[a] == c_model.records[a]);
                            assert(!(exists|t: int|
                                0 <= t < c_model.records.len() && (
                                #[trigger] c_model.records[t]).id == em.id));
                        }
                    }
                }
            }
            assert forall|a: int, b: int|
                0 <= a < b < self@.collections.len() implies (#[trigger] self@.collections[a]).0
                != (#[trigger] self@.collections[b]).0 by {
                assert(self@.collections[a].0 == old_m.collections[a].0);
                assert(self@.collections[b].0 == old_m.collections[b].0);
            }
            assert forall|a: int| 0 <= a < self@.collections.len() implies (
            #[trigger] self@.collections[a]).1.wf() by {
                if a != idx {
                    assert(self@.collections[a] == old_m.collections[a]);
                }
            }
        }
        Ok(())
    }

    /// Rebuilds the named collection's index over its current records.
    /// Fails — and changes nothing — exactly when the name is absent.
    pub fn build_index(&mut self, name: &str) -> (r: Result<(), String>)
        requires
            old(self)@.wf(),
        ensures
            final(self)@.wf(),
            r is Ok <==> old(self)@.has_name(name@),
            final(self)@ == build_effect(old(self)@, name@),
            r matches Err(e) ==> *final(self) == *old(self) && e@
                == Error::NotFound.message_spec(),
    {
        match self.find(name) {
            Option::None => Err(Error::NotFound.message()),
            Option::Some(i) => {
                let ghost old_m = self@;
                let ghost idx = i as int;
                let (nm, mut c) = self.collections.remove(i);
                c.build_index();
                self.collections.insert(i, (nm, c));
                proof {
                    assert(self@.collections =~= old_m.collections.update(
                        idx,
                        (old_m.collections[idx].0, built(old_m.at_name(name@))),
                    ));
                    assert(self@ == old_m.updated(idx, built(old_m.at_name(name@))));
                    assert forall|a: int, b: int|
                        0 <= a < b < self@.collections.len() implies (
                    #[trigger] self@.collections[a]).0 != (#[trigger] self@.collections[b]).0 by {
                        assert(self@.collections[a].0 == old_m.collections[a].0);
                        assert(self@.collections[b].0 == old_m.collections[b].0);
                    }
                    assert forall|a: int| 0 <= a < self@.collections.len() implies (
                    #[trigger] self@.collections[a]).1.wf() by {
                        if a != idx {
                            assert(self@.collections[a] == old_m.collections[a]);
                        }
                    }
                }
                Ok(())
            },
        }
    }

    /// Queries the named collection along its index-backed path: up to
    /// `limit` best `(score, id)` pairs over the records covered by the
    /// last rebuild.  Fails when the name is absent or when the query
    /// vector's length differs from the collection's dimension; the
    /// registry itself never changes.
    pub fn query(&mut self, name: &str, q: Vec<i16>, limit: i32) -> (r: Result<
        Vec<(i64, String)>,
        String,
    >)
        requires
            old(self)@.wf(),
        ensures
            *final(self) == *old(self),
            r is Ok <==> (old(self)@.has_name(name@) && q@.len() == old(self)@.at_name(
                name@,
            ).dimension),
            r matches Ok(v) ==> ({
                let sel = approx_selection(old(self)@.at_name(name@), q@, k_of(limit));
                v@.len() == sel.len() && (forall|t: int|
                    0 <= t < v@.len() ==> (#[trigger] v@[t]).0 == sel[t].score && v@[t].1@ == old(
                        self,
                    )@.at_name(name@).records[sel[t].index as int].id)
            }),
            r matches Err(e) ==> (if !old(self)@.has_name(name@) {
                e@ == Error::NotFound.message_spec()
            } else {
                e@ == "query malformed"@
            }),
    {
        match self.find(name) {
            Option::None => Err(Error::NotFound.message()),
            Option::Some(i) => {
                let c = &self.collections[i].1;
                if q.len() != c.dimension {
                    return Err("query malformed".to_owned());
                }
                let key = Vector { data: q };
                Ok(c.query(&key, limit))
            },
        }
    }

    /// Stores a content string under a fresh id.  Fails with
    /// `UniqueViolation` — and changes nothing — exactly when the id is
    /// already taken.
    pub fn add_content(&mut self, id: String, content: String) -> (r: Result<(), Error>)
        requires
            old(self)@.wf(),
        ensures
            final(self)@.wf(),
            r is Ok <==> !old(self)@.has_content(id@),
            r is Ok ==> final(self)@ == (DatabaseModel {
                content: old(self)@.content.push((id@, content@)),
                ..old(self)@
            }),
            r matches Err(e) ==> e == Error::UniqueViolation && *final(self) == *old(self),
    {
        match self.find_content(id.as_str()) {
            Option::Some(_) => Err(Error::UniqueViolation),
            Option::None => {
                let ghost old_m = self@;
                let ghost idv = id@;
                self.content.push((id, content));
                proof {
                    assert(self@.content =~= old_m.content.push((idv, content@)));
                    assert forall|a: int, b: int|
                        0 <= a < b < self@.content.len() implies (#[trigger] self@.content[a]).0
                        != (#[trigger] self@.content[b]).0 by {
                        if b < old_m.content.len() {
                        } else {
                            assert(self@.content[a] == old_m.content[a]);
                            assert(!(exists|t: int|
                                0 <= t < old_m.content.len() && (#[trigger] old_m.content[t]).0
                                    == idv));
                        }
                    }
                }
                Ok(())
            },
        }
    }

    /// Removes the content entry of this id.  Fails with `NotFound` — and
    /// changes nothing — exactly when the id is absent.
    pub fn remove_content(&mut self, id: &str) -> (r: Result<(), Error>)
        requires
            old(self)@.wf(),
        ensures
            final(self)@.wf(),
            r is Ok <==> old(self)@.has_content(id@),
            r is Ok ==> final(self)@ == (DatabaseModel {
                content: old(self)@.content.remove(old(self)@.content_idx(id@)),
                ..old(self)@
            }),
            r matches Err(e) ==> e == Error::NotFound && *final(self) == *old(self),
    {
        match self.find_content(id) {
            Option::None => Err(Error::NotFound),
            Option::Some(i) => {
                let ghost old_m = self@;
                let ghost idx = i as int;
                self.content.remove(i);
                proof {
                    assert(self@.content =~= old_m.content.remove(idx));
                    assert forall|a: int, b: int|
                        0 <= a < b < self@.content.len() implies (#[trigger] self@.content[a]).0
                        != (#[trigger] self@.content[b]).0 by {
                        if b < idx {
                        } else if a < idx {
                            assert(self@.content[a] == old_m.content[a]);
                            assert(self@.content[b] == old_m.content[b + 1]);
                        } else {
                            assert(self@.content[a] == old_m.content[a + 1]);
                            assert(self@.content[b] == old_m.content[b + 1]);
                        }
                    }
                }
                Ok(())
            },
        }
    }

    /// The content string stored under this id, if any.
    pub fn get_content(&self, id: &str) -> (r: Option<String>)
        requires
            self@.wf(),
        ensures
            match r {
                Option::Some(s) => self@.has_content(id@) && s@ == self@.content[self@.content_idx(
                    id@,
                )].1,
                Option::None => !self@.has_content(id@),
            },
    {
        match self.find_content(id) {
            Option::None => None,
            Option::Some(i) => Some(self.content[i].1.clone()),
        }
    }

    /// The slot holding this content id, if any.
    fn find_content(&self, id: &str) -> (r: Option<usize>)
        requires
            self@.wf(),
        ensures
            match r {
                Option::Some(i) => self@.has_content(id@) && self@.content_idx(id@) == i as int && i
                    < self.content@.len(),
                Option::None => !self@.has_content(id@),
            },
    {
        let n: usize = self.content.len();
        let mut i: usize = 0;
        while i < n
            invariant
                self@.wf(),
                n == self.content@.len(),
                0 <= i <= n,
                forall|q: int| 0 <= q < i ==> (#[trigger] self.content@[q]).0@ != id@,
            decreases n - i,
        {
            if str_eq(self.content[i].0.as_str(), id) {
                proof {
                    assert(self@.content[i as int].0 == id@);
                    lemma_content_slot_unique(self@, id@, i as int);
                }
                return Some(i);
            }
            i = i + 1;
        }
        proof {
            assert forall|q: int| 0 <= q < self@.content.len() implies (
            #[trigger] self@.content[q]).0 != id@ by {
                assert(self@.content[q].0 == self.content@[q].0@);
            }
        }
        None
    }

    /// One-call setup of a searchable collection, as the service boundary
    /// offers it: create the collection if the name is fresh, insert the
    /// batch, and rebuild the index.  The individual steps' error handling
    /// is deliberately lenient (an existing name or a refused batch does
    /// not abort the call); the final rebuild always succeeds because the
    /// collection exists by then.
    pub fn create_index(
        &mut self,
        name: String,
        dimension: usize,
        docs: Vec<String>,
        embeddings: Vec<Vec<i16>>,
        file_name: String,
    ) -> (r: Result<(), Error>)
        requires
            old(self)@.wf(),
            dimension <= MAX_DIMENSION,
        ensures
            final(self)@.wf(),
            r is Ok,
            final(self)@ == build_effect(
                insert_effect(
                    create_effect(old(self)@, name@, dimension as nat, Distance::Cosine, false),
                    name@,
                    embeddings@.map_values(|v: Vec<i16>| v@),
                    docs@.map_values(|s: String| s@),
                    file_name@,
                ),
                name@,
            ),
    {
        let ghost nm = name@;
        let ghost km = embeddings@.map_values(|v: Vec<i16>| v@);
        let ghost vm = docs@.map_values(|s: String| s@);
        let ghost tag = file_name@;
        let name2 = name.clone();
        let name3 = name.clone();
        let _ = self.create_collection(name, dimension);
        let ghost m1 = self@;
        proof {
            assert(m1.has_name(nm));
        }
        let _ = self.insert_into_collection(name2.as_str(), embeddings, docs, file_name);
        proof {
            lemma_insert_effect_keeps_name(m1, nm, km, vm, tag);
            assert(self@.has_name(nm));
        }
        let res = self.build_index(name3.as_str());
        proof {
            assert(res is Ok);
        }
        Ok(())
    }
}

/// An insert never removes a collection: a present name stays present.
proof fn lemma_insert_effect_keeps_name(
    m: DatabaseModel,
    name: Seq<char>,
    km: Seq<Seq<i16>>,
    vm: Seq<Seq<char>>,
    tag: Seq<char>,
)
    requires
        m.has_name(name),
    ensures
        insert_effect(m, name, km, vm, tag).has_name(name),
{
    let m2 = insert_effect(m, name, km, vm, tag);
    if m2 != m {
        let i = m.idx_of(name);
        assert(0 <= i < m.collections.len() && m.collections[i].0 == name);
        assert(m2.collections[i].0 == name);
    }
}

/// Some stored record carries this id.
pub open spec fn has_record_id(records: Seq<EmbeddingModel>, id: Seq<char>) -> bool {
    exists|t: int| 0 <= t < records.len() && (#[trigger] records[t]).id == id
}

/// Incoming-id uniqueness, phrased over plain id sequences.
pub open spec fn batch_ids_ok_ids(existing: Seq<Seq<char>>, incoming: Seq<Seq<char>>) -> bool {
    &&& (forall|a: int, b: int|
        0 <= a < existing.len() && 0 <= b < incoming.len() ==> (#[trigger] existing[a]) != (
        #[trigger] incoming[b]))
    &&& (forall|a: int, b: int|
        0 <= a < b < incoming.len() ==> (#[trigger] incoming[a]) != (#[trigger] incoming[b]))
}

/// The records a parallel `(vector, id)` list pair stands for.
pub open spec fn zip_models(points: Seq<Vector>, vals: Seq<String>) -> Seq<EmbeddingModel> {
    Seq::new(
        points.len(),
        |q: int| EmbeddingModel { id: vals[q]@, vector: points[q]@, attrs: Option::None },
    )
}

/// All-valid batches pass the lenient-skip filter whole.
proof fn lemma_filtered_all_valid(points: Seq<Vector>, vals: Seq<String>, dim: nat, n: int)
    requires
        points.len() == vals.len(),
        0 <= n <= points.len(),
        forall|t: int| 0 <= t < points.len() ==> (#[trigger] points[t])@.len() == dim,
    ensures
        filtered_batch(
            points.map_values(|v: Vector| v@),
            vals.map_values(|s: String| s@),
            dim,
            n,
        ) =~= zip_models(points, vals).take(n),
        n == points.len() ==> filtered(
            points.map_values(|v: Vector| v@),
            vals.map_values(|s: String| s@),
            dim,
        ) == zip_models(points, vals),
    decreases n,
{
    let pm = points.map_values(|v: Vector| v@);
    let vm = vals.map_values(|s: String| s@);
    if n > 0 {
        lemma_filtered_all_valid(points, vals, dim, n - 1);
        assert(pm[n - 1] == points[n - 1]@);
        assert(vm[n - 1] == vals[n - 1]@);
        assert(zip_models(points, vals).take(n) =~= zip_models(points, vals).take(n - 1).push(
            zip_models(points, vals)[n - 1],
        ));
    }
    if n == points.len() {
        assert(zip_models(points, vals).take(n) =~= zip_models(points, vals));
    }
}

/// The plain-id uniqueness check decides [`batch_ids_ok`] for the records a
/// parallel list pair stands for.
proof fn lemma_zip_ids(records: Seq<EmbeddingModel>, points: Seq<Vector>, vals: Seq<String>)
    requires
        points.len() == vals.len(),
    ensures
        batch_ids_ok(records, zip_models(points, vals)) <==> batch_ids_ok_ids(
            records.map_values(|e: EmbeddingModel| e.id),
            vals.map_values(|s: String| s@),
        ),
{
    let rid = records.map_values(|e: EmbeddingModel| e.id);
    let vid = vals.map_values(|s: String| s@);
    let zm = zip_models(points, vals);
    if batch_ids_ok_ids(rid, vid) {
        assert forall|i: int, j: int|
            0 <= i < records.len() && 0 <= j < zm.len() implies (#[trigger] records[i]).id != (
        #[trigger] zm[j]).id by {
            assert(rid[i] == records[i].id && vid[j] == vals[j]@);
        }
        assert forall|i: int, j: int| 0 <= i < j < zm.len() implies (#[trigger] zm[i]).id != (
        #[trigger] zm[j]).id by {
            assert(vid[i] == vals[i]@ && vid[j] == vals[j]@);
        }
    }
    if batch_ids_ok(records, zm) {
        assert forall|i: int, j: int|
            0 <= i < rid.len() && 0 <= j < vid.len() implies (#[trigger] rid[i]) != (
        #[trigger] vid[j]) by {
            assert(records[i].id == rid[i] && zm[j].id == vid[j]);
        }
        assert forall|i: int, j: int| 0 <= i < j < vid.len() implies (#[trigger] vid[i]) != (
        #[trigger] vid[j]) by {
            assert(zm[i].id == vid[i] && zm[j].id == vid[j]);
        }
    }
}

/// The content entries that survive a collection deletion: those whose id
/// is not among the deleted collection's record ids (scanning the first `n`
/// entries).
pub open spec fn purge_content(
    content: Seq<(Seq<char>, Seq<char>)>,
    records: Seq<EmbeddingModel>,
    n: int,
) -> Seq<(Seq<char>, Seq<char>)>
    decreases n,
{
    if n <= 0 {
        Seq::empty()
    } else {
        let rest = purge_content(content, records, n - 1);
        if exists|t: int| 0 <= t < records.len() && (#[trigger] records[t]).id == content[n - 1].0 {
            rest
        } else {
            rest.push(content[n - 1])
        }
    }
}

/// Purging keeps a subsequence: distinct ids stay distinct.
proof fn lemma_purge_content_sub(
    content: Seq<(Seq<char>, Seq<char>)>,
    records: Seq<EmbeddingModel>,
    n: int,
)
    requires
        0 <= n <= content.len(),
        forall|i: int, j: int|
            0 <= i < j < content.len() ==> (#[trigger] content[i]).0 != (#[trigger] content[j]).0,
    ensures
        forall|i: int|
            0 <= i < purge_content(content, records, n).len() ==> exists|q: int|
                0 <= q < n && (#[trigger] purge_content(content, records, n)[i]) == content[q],
        forall|i: int, j: int|
            0 <= i < j < purge_content(content, records, n).len() ==> (#[trigger] purge_content(
                content,
                records,
                n,
            )[i]).0 != (#[trigger] purge_content(content, records, n)[j]).0,
    decreases n,
{
    if n > 0 {
        lemma_purge_content_sub(content, records, n - 1);
        let prev = purge_content(content, records, n - 1);
        let cur = purge_content(content, records, n);
        assert forall|i: int| 0 <= i < cur.len() implies exists|q: int|
            0 <= q < n && (#[trigger] cur[i]) == content[q] by {
            if i < prev.len() {
                assert(cur[i] == prev[i]);
                let q0 = choose|q0: int| 0 <= q0 < n - 1 && (#[trigger] prev[i]) == content[q0];
                assert(cur[i] == content[q0]);
            } else {
                assert(cur[i] == content[n - 1]);
            }
        }
        assert forall|i: int, j: int| 0 <= i < j < cur.len() implies (#[trigger] cur[i]).0 != (
        #[trigger] cur[j]).0 by {
            let qi = choose|q0: int| 0 <= q0 < n && (#[trigger] cur[i]) == content[q0];
            let qj = choose|q0: int| 0 <= q0 < n && (#[trigger] cur[j]) == content[q0];
            if qi == qj {
                if j == cur.len() - 1 && cur.len() > prev.len() {
                    // cur[j] is content[n-1]; cur[i] sits in prev, built from
                    // entries below n-1, whose ids differ from content[n-1].
                    assert(cur[i] == prev[i]);
                    let qx = choose|q0: int| 0 <= q0 < n - 1 && (#[trigger] prev[i]) == content[q0];
                    assert(content[qx].0 != content[n - 1].0);
                    assert(false);
                }
            } else if qi < qj {
                assert(content[qi].0 != content[qj].0);
            } else {
                assert(content[qj].0 != content[qi].0);
            }
        }
    }
}

} // verus!
