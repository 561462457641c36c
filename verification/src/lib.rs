//! Parsing of arbitrarily nested bracketed numeric literals, such as
//! `[[1,2,3],[4,5,6]]`, into tensors: immutable multi-dimensional arrays
//! with an inferred shape and rank and a flat, row-major backing vector,
//! together with conversion of multi-dimensional indices into flat offsets.

pub mod ast;
pub mod fundamental;
pub mod n_lang;
pub mod shape;
pub mod tensor;

pub use ast::Ast;
pub use ast::Node;
pub use fundamental::Field;
pub use n_lang::parse_tensor;
pub use n_lang::N;
pub use tensor::Tensor;

use vstd::prelude::*;

verus! {

/// The ways in which building or reading a tensor can fail.
#[derive(Clone, Copy, Debug, PartialEq, Eq, Structural)]
pub enum TensorError {
    /// The literal text does not match the bracket/scalar grammar:
    /// unbalanced brackets, misplaced separators, or empty input.
    GrammarError,
    /// A leaf token is not a valid literal of the target scalar type.
    ScalarParseError,
    /// The per-depth group counts of the literal are inconsistent with the
    /// number of scalars: the literal is not rectangular.
    RaggedShapeError,
    /// A flat offset falls outside the stored value sequence.
    IndexOutOfRange,
}

} // verus!
