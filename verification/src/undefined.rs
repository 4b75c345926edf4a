use vstd::prelude::*;

verus! {

/// The sentinel for a value that cannot be determined. It carries no data and
/// compares equal only to itself.
#[derive(Clone, Copy, PartialEq, Eq, Structural, Debug)]
pub struct Undefined;

} // verus!
