use vstd::prelude::*;

use crate::symbol::Symbol;

verus! {

/// Assumptions about symbols (such as positivity), to inform later
/// simplification passes. The subsystem is a placeholder: it records nothing
/// yet beyond an empty table.
pub struct Assumptions {
    pub positive: Vec<(Symbol, bool)>,
}

impl Assumptions {
    /// An empty set of assumptions.
    pub fn new() -> (r: Self)
        ensures
            r.positive@.len() == 0,
    {
        Assumptions { positive: Vec::new() }
    }
}

} // verus!
