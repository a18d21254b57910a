//! A single binary digit.

use vstd::prelude::*;
use vstd::std_specs::convert::FromSpecImpl;

verus! {

/// One bit of a stream.
#[derive(Debug, PartialEq, Eq, Structural)]
pub enum Bit {
    ZERO,
    ONE,
}

impl From<bool> for Bit {
    /// `ONE` for true, `ZERO` for false.
    fn from(value: bool) -> (bit: Self) {
        if value {
            Bit::ONE
        } else {
            Bit::ZERO
        }
    }
}

impl FromSpecImpl<bool> for Bit {
    open spec fn obeys_from_spec() -> bool {
        true
    }

    open spec fn from_spec(value: bool) -> Self {
        if value {
            Bit::ONE
        } else {
            Bit::ZERO
        }
    }
}

} // verus!
