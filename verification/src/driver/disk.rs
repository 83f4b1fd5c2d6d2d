//! The handle of a hardware device.

use vstd::prelude::*;

verus! {

/// A hardware device. No transfer is wired to it: a manager that holds one
/// accepts no read, write or erase.
pub struct DiskDriver;

impl DiskDriver {
    pub fn new() -> (driver: DiskDriver) {
        DiskDriver {  }
    }
}

} // verus!
