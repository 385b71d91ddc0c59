//! Primitive values and atomic types shared by every stage of the compiler.

use vstd::prelude::*;

verus! {

/// Identifier of a built-in operator or of a generated definition.
pub type Id = String;

/// Name of a generated type, constructor or function.
pub type Name = String;

/// The atomic types of the language.
#[derive(Clone, Copy, Debug, PartialEq, Eq, Structural, Hash)]
pub enum AtomicTypeEnum {
    INT,
    BOOL,
}

/// An integer literal.
#[derive(Clone, Copy, Debug, PartialEq, Eq, Structural, Hash)]
pub struct Integer {
    pub value: i64,
}

/// A boolean literal.
#[derive(Clone, Copy, Debug, PartialEq, Eq, Structural, Hash)]
pub struct Boolean {
    pub value: bool,
}

} // verus!
