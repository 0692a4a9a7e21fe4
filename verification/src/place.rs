//! Where the machine is: the seam between the window and whatever the
//! platform has. The driver owns the clock, the rounding and the
//! conditions; this answers whether positioning should run.

use vstd::prelude::*;

verus! {

/// Ask the platform to start or stop positioning.
///
/// A platform with no positioning does nothing: no fix ever arrives, and
/// nothing is reported. Asking is not knowing.
pub fn running(on: bool) {
    let _ = on;
}

} // verus!
