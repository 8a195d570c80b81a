//! An ASN.1 schema compiler front end and an Aligned PER (APER) codec.
//!
//! The crate has two halves. The compiler half parses ASN.1 type notation
//! into definitions, registers modules, validates imports and resolves every
//! definition into a concrete descriptor (bounds, extensibility, CHOICE
//! discriminants). The codec half is a bit cursor over an octet buffer with
//! the APER primitives: constrained whole numbers, CHOICE indices and
//! size-constrained bit strings, together with a descriptor-driven value
//! codec that composes them.

pub mod codec;
pub mod generator;
pub mod compiler;
pub mod parse;

use vstd::prelude::*;

verus! {

} // verus!
