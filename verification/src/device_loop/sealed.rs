//! Keeps the set of device units closed.

use vstd::prelude::*;

verus! {

/// A unit that this crate defines.
pub trait Sealed {

}

} // verus!
