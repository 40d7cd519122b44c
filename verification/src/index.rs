//! The fixed-point vector type used as the key of a collection entry.

use vstd::prelude::*;

use crate::MAX_DIMENSION;
use crate::similarity::cosine_score_s;
use crate::similarity::score;
use crate::similarity::Distance;

verus! {

/// A fixed-length vector of signed 16-bit fixed-point components.
pub struct Vector {
    pub data: Vec<i16>,
}

impl View for Vector {
    type V = Seq<i16>;

    open spec fn view(&self) -> Seq<i16> {
        self.data@
    }
}

impl PartialEq for Vector {
    /// Vectors are equal exactly when they agree component-wise.
    fn eq(&self, other: &Self) -> (r: bool) {
        let r = self.data == other.data;
        proof {
            if r {
                assert(self.data@ =~= other.data@);
            }
        }
        r
    }
}

impl vstd::std_specs::cmp::PartialEqSpecImpl for Vector {
    open spec fn obeys_eq_spec() -> bool {
        true
    }

    open spec fn eq_spec(&self, other: &Vector) -> bool {
        self@ == other@
    }
}

impl From<Vec<i16>> for Vector {
    /// Wraps a component list as a vector.
    fn from(value: Vec<i16>) -> (r: Vector) {
        Vector { data: value }
    }
}

impl vstd::std_specs::convert::FromSpecImpl<Vec<i16>> for Vector {
    open spec fn obeys_from_spec() -> bool {
        true
    }

    open spec fn from_spec(value: Vec<i16>) -> Vector {
        Vector { data: value }
    }
}

impl Vector {
    /// The exact cosine score between this vector and `other`
    /// (see [`cosine_score_s`] for the scale and the zero-vector sentinel).
    pub fn cos_sim(&self, other: &Vector) -> (r: i64)
        requires
            self@.len() == other@.len(),
            self@.len() <= MAX_DIMENSION,
        ensures
            r as int == cosine_score_s(self@, other@),
    {
        score(Distance::Cosine, &self.data, &other.data)
    }
}

} // verus!
