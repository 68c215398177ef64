//! How a pass accesses a piece of data.
use vstd::prelude::*;

verus! {

/// How a pass accesses a piece of data.
#[derive(Debug, Clone, Copy, PartialEq, Eq, Structural)]
pub enum DataAccessType {
    Read,
    Write,
}

} // verus!
