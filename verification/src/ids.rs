//! Identities the compiler hands out: definitions, interned names, syntax
//! nodes and source positions.

use vstd::prelude::*;

verus! {

/// A definition, as its position in the definition table.
#[derive(Clone, Copy, Debug, PartialEq, Eq, Hash, Structural)]
pub struct DefId(pub u32);

/// An interned name, as its position in the name table.
#[derive(Clone, Copy, Debug, PartialEq, Eq, Hash, Structural)]
pub struct Symbol(pub u32);

/// A syntax node.
#[derive(Clone, Copy, Debug, PartialEq, Eq, Hash, Structural)]
pub struct HirId(pub u64);

/// A range of source text: the byte it starts at and the byte it ends before.
#[derive(Clone, Copy, Debug, PartialEq, Eq, Hash, Structural)]
pub struct Span {
    pub lo: u32,
    pub hi: u32,
}

} // verus!
