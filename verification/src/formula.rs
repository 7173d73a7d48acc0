//! Scalars, values, symbols and symbolic formula trees.

use crate::unit::{CompositeUnit, CompositeUnitClass};
use vstd::prelude::*;

verus! {

/// A name that a value can be bound to in the global symbol table.
pub struct Symbol {
    pub name: String,
}

/// A numeric quantity.  Its value, expressed in canonical base-unit terms,
/// is carried as the bit pattern of an IEEE 754 double: the verified core
/// keeps the dimension bookkeeping exact and leaves the floating-point
/// arithmetic on the payload to its callers.
pub struct Scalar {
    pub base_value_bits: u64,
    pub base_unit: CompositeUnitClass,
    pub display_unit: CompositeUnit,
    pub precision: u32,
}

/// A value a formula leaf can hold.  Vectors are declared but deliberately
/// unimplemented: no operation accepts them.
pub enum Value {
    Scalar(Scalar),
    Vector,
}

/// A symbolic expression tree, generic over its leaf payload: leaves are
/// payloads or symbols, inner nodes named function applications over
/// ordered argument lists.  Formatting consumes a tree whose value leaves
/// were already rendered to strings, since rendering a scalar's numbers
/// takes floating-point arithmetic.
pub enum Formula<L> {
    Value(L),
    PlainFunction { fun: String, args: Vec<Formula<L>> },
    Symbol(Symbol),
}

} // verus!
