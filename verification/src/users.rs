//! Access-control decisions: one owner, a registry of admin principals.
//!
//! The store itself performs no identity checks; the calling layer runs
//! these predicates as a gate before it invokes a mutating or reading
//! operation.  Principals are handled in their textual form.

use vstd::prelude::*;

use crate::db::str_eq;
use crate::error::Error;

verus! {

/// The owner principal and the registered admin principals.
pub struct AccessControl {
    pub owner: String,
    pub admins: Vec<String>,
}

impl View for AccessControl {
    type V = (Seq<char>, Seq<Seq<char>>);

    open spec fn view(&self) -> (Seq<char>, Seq<Seq<char>>) {
        (self.owner@, self.admins@.map_values(|s: String| s@))
    }
}

impl AccessControl {
    /// Admin principals are registered at most once.
    pub open spec fn wf(self) -> bool {
        forall|i: int, j: int| 0 <= i < j < self@.1.len() ==> self@.1[i] != self@.1[j]
    }

    /// A gate with the given owner and no admins yet.
    pub fn new(owner: String) -> (r: AccessControl)
        ensures
            r@.0 == owner@,
            r@.1.len() == 0,
            r.wf(),
    {
        let r = AccessControl { owner, admins: Vec::new() };
        proof {
            assert(r@.1 =~= Seq::<Seq<char>>::empty());
        }
        r
    }

    /// The slot of a registered admin, if any.
    fn find_admin(&self, principal_id: &str) -> (r: Option<usize>)
        ensures
            match r {
                Option::Some(i) => i < self@.1.len() && self@.1[i as int] == principal_id@,
                Option::None => !self@.1.contains(principal_id@),
            },
    {
        let n: usize = self.admins.len();
        let mut i: usize = 0;
        while i < n
            invariant
                n == self.admins@.len(),
                0 <= i <= n,
                forall|q: int| 0 <= q < i ==> (#[trigger] self.admins@[q])@ != principal_id@,
            decreases n - i,
        {
            if str_eq(self.admins[i].as_str(), principal_id) {
                proof {
                    assert(self@.1[i as int] == principal_id@);
                }
                return Some(i);
            }
            i = i + 1;
        }
        proof {
            assert forall|q: int| 0 <= q < self@.1.len() implies self@.1[q] != principal_id@ by {
                assert(self@.1[q] == self.admins@[q]@);
            }
        }
        None
    }

    /// All registered admins, in registration order.
    pub fn get_admins(&self) -> (r: Vec<String>)
        ensures
            r@.len() == self@.1.len(),
            forall|i: int| 0 <= i < r@.len() ==> (#[trigger] r@[i])@ == self@.1[i],
    {
        let n: usize = self.admins.len();
        let mut r: Vec<String> = Vec::new();
        let mut i: usize = 0;
        while i < n
            invariant
                n == self.admins@.len(),
                0 <= i <= n,
                r@.len() == i,
                forall|q: int| 0 <= q < i ==> (#[trigger] r@[q])@ == self.admins@[q]@,
            decreases n - i,
        {
            r.push(self.admins[i].clone());
            i = i + 1;
        }
        r
    }

    /// Registers an admin.  Fails with `UniqueViolation` — and changes
    /// nothing — exactly when the principal is already registered.
    pub fn add_admin(&mut self, principal_id: String) -> (r: Result<(), Error>)
        requires
            old(self).wf(),
        ensures
            final(self).wf(),
            r is Ok <==> !old(self)@.1.contains(principal_id@),
            r is Ok ==> final(self)@.0 == old(self)@.0 && final(self)@.1 == old(self)@.1.push(
                principal_id@,
            ),
            r matches Err(e) ==> e == Error::UniqueViolation && *final(self) == *old(self),
    {
        match self.find_admin(principal_id.as_str()) {
            Option::Some(_) => {
                proof {
                    assert(self@.1.contains(principal_id@));
                }
                Err(Error::UniqueViolation)
            },
            Option::None => {
                let ghost before = self@.1;
                let ghost pid = principal_id@;
                self.admins.push(principal_id);
                proof {
                    assert(self@.1 =~= before.push(pid));
                    assert forall|i: int, j: int|
                        0 <= i < j < self@.1.len() implies self@.1[i] != self@.1[j] by {
                        if j == self@.1.len() - 1 {
                            assert(!(exists|q: int|
                                0 <= q < before.len() && before[q] == pid));
                            assert(self@.1[i] == before[i]);
                        }
                    }
                }
                Ok(())
            },
        }
    }

    /// Unregisters an admin.  Fails with `NotFound` — and changes nothing —
    /// exactly when the principal is not registered.
    pub fn remove_admin(&mut self, principal_id: &str) -> (r: Result<(), Error>)
        requires
            old(self).wf(),
        ensures
            final(self).wf(),
            r is Ok <==> old(self)@.1.contains(principal_id@),
            r is Ok ==> final(self)@.0 == old(self)@.0 && (exists|i: int|
                0 <= i < old(self)@.1.len() && old(self)@.1[i] == principal_id@ && final(self)@.1
                    == old(self)@.1.remove(i)),
            r matches Err(e) ==> e == Error::NotFound && *final(self) == *old(self),
    {
        match self.find_admin(principal_id) {
            Option::None => Err(Error::NotFound),
            Option::Some(i) => {
                let ghost before = self@.1;
                let ghost idx = i as int;
                self.admins.remove(i);
                proof {
                    assert(self@.1 =~= before.remove(idx));
                    assert(before.contains(principal_id@));
                    assert forall|a: int, b: int|
                        0 <= a < b < self@.1.len() implies self@.1[a] != self@.1[b] by {
                        if b < idx {
                        } else if a < idx {
                            assert(self@.1[a] == before[a] && self@.1[b] == before[b + 1]);
                        } else {
                            assert(self@.1[a] == before[a + 1] && self@.1[b] == before[b + 1]);
                        }
                    }
                }
                Ok(())
            },
        }
    }

    /// The owner check the calling layer runs in front of owner-only
    /// operations.
    pub fn check_is_owner(&self, caller: &str) -> (r: bool)
        ensures
            r == (caller@ == self@.0),
    {
        str_eq(caller, self.owner.as_str())
    }

    /// The authorization check the calling layer runs in front of every
    /// store operation: the caller must be the owner or a registered admin.
    pub fn check_authorization(&self, caller: &str) -> (r: bool)
        ensures
            r == (caller@ == self@.0 || self@.1.contains(caller@)),
    {
        if str_eq(caller, self.owner.as_str()) {
            return true;
        }
        match self.find_admin(caller) {
            Option::Some(i) => {
                proof {
                    assert(self@.1.contains(caller@));
                }
                true
            },
            Option::None => false,
        }
    }
}

} // verus!
