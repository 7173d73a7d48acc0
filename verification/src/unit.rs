//! Unit classes, units, and their compound group elements.

use crate::algebra::{div_map, exp_of, mul_map, ExponentMap};
use vstd::prelude::*;

verus! {

/// A named primitive dimension (Length, Time, Mass, ...), immutable once
/// registered.
pub struct UnitClass {
    pub name: String,
}

/// The bit pattern of a positive, finite IEEE 754 double: sign bit clear,
/// below the infinity/NaN encodings, not zero.
pub open spec fn positive_ratio_bits(bits: u64) -> bool {
    0 < bits < 0x7FF0_0000_0000_0000u64
}

/// A compound dimension: a finite mapping from unit-class identity to
/// nonzero integer exponent.
pub struct CompositeUnitClass {
    pub components: ExponentMap,
}

/// A compound unit: a finite mapping from unit identity to nonzero integer
/// exponent.
pub struct CompositeUnit {
    pub components: ExponentMap,
}

/// A named concrete unit: its dimension, and the conversion factor from
/// one of it into base-unit terms, carried as the bit pattern of a
/// positive finite IEEE 754 double (the arithmetic on it is not part of
/// this verified core).  Immutable once registered.
pub struct Unit {
    pub name: String,
    pub base_class: CompositeUnitClass,
    pub base_ratio_bits: u64,
}

impl View for CompositeUnitClass {
    type V = Map<u64, int>;

    open spec fn view(&self) -> Map<u64, int> {
        self.components@
    }
}

impl CompositeUnitClass {
    /// Well-formedness: the component list is canonical (sorted, zero-free).
    pub open spec fn wf(&self) -> bool {
        self.components.wf()
    }

    /// The group identity: the unitless dimension.
    pub fn unitless() -> (r: Self)
        ensures
            r.wf(),
            r@ == Map::<u64, int>::empty(),
    {
        CompositeUnitClass { components: ExponentMap::unitless() }
    }

    /// The dimension carrying one class with one nonzero exponent.
    pub fn single(class_id: u64, e: i64) -> (r: Self)
        requires
            e != 0,
        ensures
            r.wf(),
            forall|q: u64| exp_of(r@, q) == (if q == class_id {
                e as int
            } else {
                0
            }),
    {
        CompositeUnitClass { components: ExponentMap::single(class_id, e) }
    }

    /// Group multiplication: exponents add per class, cancellations drop.
    pub fn multiply(&self, other: &Self) -> (r: Self)
        requires
            self.wf(),
            other.wf(),
            forall|k: u64| i64::MIN <= #[trigger] exp_of(self@, k) + exp_of(other@, k) <= i64::MAX,
        ensures
            r.wf(),
            forall|k: u64| #[trigger] exp_of(r@, k) == exp_of(self@, k) + exp_of(other@, k),
            r@ == mul_map(self@, other@),
    {
        CompositeUnitClass { components: self.components.multiply(&other.components) }
    }

    /// Group division: exponents subtract per class, cancellations drop.
    pub fn divide(&self, other: &Self) -> (r: Self)
        requires
            self.wf(),
            other.wf(),
            forall|k: u64| #[trigger] exp_of(other@, k) > i64::MIN,
            forall|k: u64| i64::MIN <= #[trigger] exp_of(self@, k) - exp_of(other@, k) <= i64::MAX,
        ensures
            r.wf(),
            forall|k: u64| #[trigger] exp_of(r@, k) == exp_of(self@, k) - exp_of(other@, k),
            r@ == div_map(self@, other@),
    {
        CompositeUnitClass { components: self.components.divide(&other.components) }
    }
}

impl PartialEq for CompositeUnitClass {
    /// Equality of the canonical component lists; for well-formed values
    /// this is exactly equality of the abstract maps.
    fn eq(&self, other: &Self) -> bool {
        self.components == other.components
    }
}

impl vstd::std_specs::cmp::PartialEqSpecImpl for CompositeUnitClass {
    open spec fn obeys_eq_spec() -> bool {
        true
    }

    open spec fn eq_spec(&self, other: &Self) -> bool {
        self.components.pairs_seq() == other.components.pairs_seq()
    }
}

impl View for CompositeUnit {
    type V = Map<u64, int>;

    open spec fn view(&self) -> Map<u64, int> {
        self.components@
    }
}

impl CompositeUnit {
    /// Well-formedness: the component list is canonical (sorted, zero-free).
    pub open spec fn wf(&self) -> bool {
        self.components.wf()
    }

    /// The group identity: the unitless unit.
    pub fn unitless() -> (r: Self)
        ensures
            r.wf(),
            r@ == Map::<u64, int>::empty(),
    {
        CompositeUnit { components: ExponentMap::unitless() }
    }

    /// The compound unit carrying one unit with one nonzero exponent.
    pub fn single(unit_id: u64, e: i64) -> (r: Self)
        requires
            e != 0,
        ensures
            r.wf(),
            forall|q: u64| exp_of(r@, q) == (if q == unit_id {
                e as int
            } else {
                0
            }),
    {
        CompositeUnit { components: ExponentMap::single(unit_id, e) }
    }

    /// Group multiplication: exponents add per unit, cancellations drop.
    pub fn multiply(&self, other: &Self) -> (r: Self)
        requires
            self.wf(),
            other.wf(),
            forall|k: u64| i64::MIN <= #[trigger] exp_of(self@, k) + exp_of(other@, k) <= i64::MAX,
        ensures
            r.wf(),
            forall|k: u64| #[trigger] exp_of(r@, k) == exp_of(self@, k) + exp_of(other@, k),
            r@ == mul_map(self@, other@),
    {
        CompositeUnit { components: self.components.multiply(&other.components) }
    }

    /// Group division: exponents subtract per unit, cancellations drop.
    pub fn divide(&self, other: &Self) -> (r: Self)
        requires
            self.wf(),
            other.wf(),
            forall|k: u64| #[trigger] exp_of(other@, k) > i64::MIN,
            forall|k: u64| i64::MIN <= #[trigger] exp_of(self@, k) - exp_of(other@, k) <= i64::MAX,
        ensures
            r.wf(),
            forall|k: u64| #[trigger] exp_of(r@, k) == exp_of(self@, k) - exp_of(other@, k),
            r@ == div_map(self@, other@),
    {
        CompositeUnit { components: self.components.divide(&other.components) }
    }
}

impl PartialEq for CompositeUnit {
    /// Equality of the canonical component lists; for well-formed values
    /// this is exactly equality of the abstract maps.
    fn eq(&self, other: &Self) -> bool {
        self.components == other.components
    }
}

impl vstd::std_specs::cmp::PartialEqSpecImpl for CompositeUnit {
    open spec fn obeys_eq_spec() -> bool {
        true
    }

    open spec fn eq_spec(&self, other: &Self) -> bool {
        self.components.pairs_seq() == other.components.pairs_seq()
    }
}

} // verus!
