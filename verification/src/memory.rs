//! Memory-usage reporting. The process cannot observe its own allocator
//! statistics here, so every figure reads as zero; the line's shape is kept
//! for the status output.

use vstd::prelude::*;

verus! {

pub struct Memory {}

impl Memory {
    /// The fixed memory status line: all figures are zero placeholders.
    pub fn string_rep() -> (r: String)
        ensures
            r@ == "[Used: 0.00 MB, Free: 0.00 MB, Alloc: 0.00 MB, MaxAlloc: 0.00 MB]"@,
    {
        "[Used: 0.00 MB, Free: 0.00 MB, Alloc: 0.00 MB, MaxAlloc: 0.00 MB]".to_owned()
    }
}

} // verus!
