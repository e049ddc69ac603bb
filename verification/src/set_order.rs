//! Equality of sets, and their order by inclusion.

use crate::hash_set::HashSet;
use crate::key::Key;
use core::cmp::Ordering;
use vstd::prelude::*;
use vstd::std_specs::cmp::{PartialEqSpec, PartialOrdSpec};
use vstd::set_lib::lemma_subset_equality;

verus! {

impl<T: Key> PartialEq for HashSet<T> {
    /// Two sets are equal when they have as many elements and every element
    /// of the one is an element of the other.
    fn eq(&self, other: &Self) -> (equal: bool) {
        if self.len() != other.len() {
            return false;
        }
        let equal = self.is_subset(other);
        proof {
            if equal {
                lemma_subset_equality(self@, other@);
            }
        }
        equal
    }
}

impl<T: Key> vstd::std_specs::cmp::PartialEqSpecImpl for HashSet<T> {
    open spec fn obeys_eq_spec() -> bool {
        true
    }

    open spec fn eq_spec(&self, other: &Self) -> bool {
        self@ == other@
    }
}

impl<T: Key> PartialOrd for HashSet<T> {
    /// Orders two sets by inclusion: a set is less than every set that
    /// holds it and more, and two sets of which neither holds the other are
    /// not ordered.
    fn partial_cmp(&self, other: &Self) -> (order: Option<Ordering>) {
        if self.is_subset(other) {
            if self.len() == other.len() {
                proof {
                    lemma_subset_equality(self@, other@);
                }
                Some(Ordering::Equal)
            } else {
                Some(Ordering::Less)
            }
        } else if self.is_superset(other) {
            Some(Ordering::Greater)
        } else {
            None
        }
    }
}

impl<T: Key> vstd::std_specs::cmp::PartialOrdSpecImpl for HashSet<T> {
    open spec fn obeys_partial_cmp_spec() -> bool {
        true
    }

    open spec fn partial_cmp_spec(&self, other: &Self) -> Option<Ordering> {
        if self@ == other@ {
            Some(Ordering::Equal)
        } else if self@.subset_of(other@) {
            Some(Ordering::Less)
        } else if other@.subset_of(self@) {
            Some(Ordering::Greater)
        } else {
            None
        }
    }
}

/// Every set is a subset of itself.
pub proof fn law_subset_reflexive<T: Key>(a: HashSet<T>)
    ensures
        a@.subset_of(a@),
{
}

/// Every set is equal to itself.
pub proof fn law_eq_reflexive<T: Key>(a: HashSet<T>)
    ensures
        a.eq_spec(&a),
        a.partial_cmp_spec(&a) == Some(Ordering::Equal),
{
}

/// Two sets of which each is a subset of the other are equal.
pub proof fn law_subset_antisymmetric<T: Key>(a: HashSet<T>, b: HashSet<T>)
    requires
        a@.subset_of(b@),
        b@.subset_of(a@),
    ensures
        a.eq_spec(&b),
{
    assert(a@ =~= b@);
}

/// The order of two sets is that of inclusion: less is a proper subset,
/// greater a proper superset.
pub proof fn law_order_is_inclusion<T: Key>(a: HashSet<T>, b: HashSet<T>)
    ensures
        a.partial_cmp_spec(&b) == Some(Ordering::Less) <==> a@.subset_of(b@) && a@ != b@,
        a.partial_cmp_spec(&b) == Some(Ordering::Greater) <==> b@.subset_of(a@) && a@ != b@,
        a.partial_cmp_spec(&b) == Some(Ordering::Equal) <==> a@ == b@,
        a.partial_cmp_spec(&b) is None <==> !a@.subset_of(b@) && !b@.subset_of(a@),
{
    if a@.subset_of(b@) && b@.subset_of(a@) {
        assert(a@ =~= b@);
    }
}

} // verus!
