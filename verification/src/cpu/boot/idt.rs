use vstd::prelude::*;

verus! {

/// Loads the interrupt descriptor table; the kernel installs no handlers yet, so there is
/// nothing to load.
pub fn load() {
}

} // verus!
