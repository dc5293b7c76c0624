//! Module holding our error type.

use crate::sections::SectionKind;
use vstd::prelude::*;

verus! {

/// Represents the possible errors we could encounter.
#[derive(Debug, Clone, Copy, PartialEq, Eq, Structural)]
pub enum Error {
    /// The source ended before it could supply the bytes the format requires.
    UnexpectedEnd,
    /// We were asked to write more sections than can fit in a DOL file.
    TooManySections(SectionKind),
}

} // verus!
