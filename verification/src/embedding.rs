//! A single vector record: an id (label), a fixed-point vector, and an
//! optional free-form attribute map.  Records are immutable once inserted.

use vstd::prelude::*;

verus! {

/// The mathematical value of an [`Embedding`].
pub ghost struct EmbeddingModel {
    pub id: Seq<char>,
    pub vector: Seq<i16>,
    pub attrs: Option<Seq<(Seq<char>, Seq<char>)>>,
}

/// A stored vector record.
///
/// The `id` is a free-form payload label (a document id, a colour name); it
/// need not be unique within a collection unless the collection was created
/// in its id-unique mode.
pub struct Embedding {
    pub id: String,
    pub vector: Vec<i16>,
    pub metadata: Option<Vec<(String, String)>>,
}

/// The abstract value of an optional attribute map.
pub open spec fn attrs_view(metadata: Option<Vec<(String, String)>>) -> Option<
    Seq<(Seq<char>, Seq<char>)>,
> {
    match metadata {
        Option::None => Option::None,
        Option::Some(v) => Option::Some(
            v@.map_values(|p: (String, String)| (p.0@, p.1@)),
        ),
    }
}

impl View for Embedding {
    type V = EmbeddingModel;

    open spec fn view(&self) -> EmbeddingModel {
        EmbeddingModel { id: self.id@, vector: self.vector@, attrs: attrs_view(self.metadata) }
    }
}

impl Embedding {
    /// Builds a record from its parts.
    pub fn new(id: String, vector: Vec<i16>, metadata: Option<Vec<(String, String)>>) -> (r:
        Embedding)
        ensures
            r@.id == id@,
            r@.vector == vector@,
            r@.attrs == attrs_view(metadata),
    {
        Embedding { id, vector, metadata }
    }

    /// A field-wise copy whose abstract value is the same.
    pub fn duplicate(&self) -> (r: Embedding)
        ensures
            r@ == self@,
    {
        let vector: Vec<i16> = self.vector.clone();
        proof {
            assert(vector@ =~= self.vector@);
        }
        let metadata: Option<Vec<(String, String)>> = match &self.metadata {
            Option::None => Option::None,
            Option::Some(m) => {
                let mut copy: Vec<(String, String)> = Vec::new();
                let mut i: usize = 0;
                while i < m.len()
                    invariant
                        0 <= i <= m@.len(),
                        copy@.len() == i,
                        forall|q: int|
                            0 <= q < i ==> (#[trigger] copy@[q]).0@ == m@[q].0@ && copy@[q].1@
                                == m@[q].1@,
                    decreases m@.len() - i,
                {
                    copy.push((m[i].0.clone(), m[i].1.clone()));
                    i = i + 1;
                }
                Option::Some(copy)
            },
        };
        let r = Embedding { id: self.id.clone(), vector, metadata };
        proof {
            assert(attrs_view(r.metadata) =~= attrs_view(self.metadata)) by {
                match r.metadata {
                    Option::None => {
                    },
                    Option::Some(v) => {
                        assert(attrs_view(r.metadata)->0 =~= attrs_view(self.metadata)->0);
                    },
                }
            }
        }
        r
    }
}

} // verus!
