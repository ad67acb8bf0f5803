//! Writing input to bytes.
//!
//! This is useful to capture a part of the input.  The captured bytes are
//! owned, and the contract of each operation states that they equal the
//! corresponding range of the input, byte for byte.

use vstd::prelude::*;
use crate::read::Read;
use crate::str::run_len;

verus! {

/// Writing input to bytes.
pub trait Write: Read {
    /// Append input to `bytes` up to (not including) the next byte that is
    /// significant inside a string: a quote, a backslash or a control byte.
    fn append_run(&mut self, bytes: &mut Vec<u8>)
        ensures
            final(self).remaining() == old(self).remaining().skip(
                run_len(old(self).remaining()) as int,
            ),
            final(bytes)@ == old(bytes)@ + old(self).remaining().take(
                run_len(old(self).remaining()) as int,
            ),
    {
        crate::str::run_into(self, bytes, true)
    }

    /// Overwrite `bytes` with the input up to the next byte that is
    /// significant inside a string.
    fn write_run(&mut self, bytes: &mut Vec<u8>)
        ensures
            final(self).remaining() == old(self).remaining().skip(
                run_len(old(self).remaining()) as int,
            ),
            final(bytes)@ == old(self).remaining().take(run_len(old(self).remaining()) as int),
    {
        bytes.clear();
        self.append_run(bytes)
    }
}

impl<T: Read> Write for T {

}

} // verus!
