//! Builds, for a type name and a list of capabilities (traits), the pieces of a
//! dispatch artifact: every combination of the capabilities ranked from most to
//! least specific, the aggregate traits, the accessors, and the scaffold that
//! picks the most specific combination a value satisfies.
use vstd::prelude::*;

pub mod order;
pub mod enumerate;
pub mod ast;
pub mod analyze;
pub mod lower;
pub mod names;

verus! {

/// A reference to a value, wrapped so that the scaffold can rank its impls by
/// how many references deep they sit.
pub struct Match<'t, T>(pub &'t T);

/// A hand-written artifact for the capabilities `Binary`, `Debug` and `Display`:
/// each variant records the combination a value was resolved to and holds the value.
pub enum Test<'t, T> {
    BinaryDebug(&'t T),
    Binary(&'t T),
    Debug(&'t T),
    Display(&'t T),
    NoTrait,
}

impl<'t, T> Test<'t, T> {
    /// The value, if its combination has `Binary`.
    pub fn try_as_binary(&self) -> (r: Option<&'t T>)
        ensures
            r == match *self {
                Test::BinaryDebug(v) => Some(v),
                Test::Binary(v) => Some(v),
                _ => None,
            },
    {
        match self {
            Test::BinaryDebug(binary_debug) => Some(*binary_debug),
            Test::Binary(binary) => Some(*binary),
            _ => None,
        }
    }

    /// The value, if its combination has `Debug`.
    pub fn try_as_debug(&self) -> (r: Option<&'t T>)
        ensures
            r == match *self {
                Test::BinaryDebug(v) => Some(v),
                Test::Debug(v) => Some(v),
                _ => None,
            },
    {
        match self {
            Test::BinaryDebug(bd) => Some(*bd),
            Test::Debug(d) => Some(*d),
            _ => None,
        }
    }
}

} // verus!
