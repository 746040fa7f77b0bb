//! What is told of a file: its size, what identifies it, and its times.

use vstd::prelude::*;

verus! {

/// The number of a file on its device, and that of the device.
pub type InodeAndDevice = (u64, u64);

/// When a file was last written, when it was last read, and when its status last changed or, on
/// Windows, when it was created.
pub type FileTime = (i64, i64, i64);

} // verus!
