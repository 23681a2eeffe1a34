//! The disk manager. No disk controller is driven yet: every operation
//! leaves its buffers as they are.
use vstd::prelude::*;

verus! {

/// Manages the disk.
#[derive(Debug)]
pub struct DiskManager;

impl DiskManager {
    /// Prepares the disk controller; nothing to do yet.
    pub fn init() {
    }

    /// Reads sector `sector` into `buffer`; no controller is driven yet, so
    /// the buffer is left as it is.
    pub fn read_sector(&self, sector: u64, buffer: &mut [u8])
        ensures
            final(buffer)@ == old(buffer)@,
    {
    }

    /// Writes `data` to sector `sector`; no controller is driven yet.
    pub fn write_sector(&self, sector: u64, data: &[u8]) {
    }
}

} // verus!
