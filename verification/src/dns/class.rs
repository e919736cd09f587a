//! Record classes.
use vstd::prelude::*;

verus! {

pub const IN: u16 = 1;

} // verus!
