//! Errors reported when constructing variables and literals.

use vstd::prelude::*;

verus! {

/// A failure while building a `Var` or `Lit` from external input.
#[derive(Copy, Clone, PartialEq, Eq, Structural, Debug)]
pub enum LitError {
    /// A DIMACS number was zero; DIMACS numbering is 1-based and signed.
    InvalidDimacs,
    /// A variable index exceeded `MAX_VAR_INDEX`.
    IndexTooLarge,
}

} // verus!
