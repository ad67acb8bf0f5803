//! Low-level input operations.

use vstd::prelude::*;

verus! {

/// Low-level input operations.
///
/// A reader hands out bytes one at a time.  Its state is abstracted by
/// [`Read::remaining`], the sequence of bytes it will still yield; every
/// operation is specified against that sequence.
pub trait Read {
    /// The bytes that this source will still yield, in order.
    spec fn remaining(&self) -> Seq<u8>;

    /// The bytes a source will still yield always fit in memory.
    proof fn remaining_bounded(&self)
        ensures
            self.remaining().len() <= usize::MAX,
    ;

    /// Peek at the next byte without consuming it.
    fn peek_next(&mut self) -> (r: Option<u8>)
        ensures
            final(self).remaining() == old(self).remaining(),
            r == (if old(self).remaining().len() > 0 {
                Some(old(self).remaining()[0])
            } else {
                None::<u8>
            }),
    ;

    /// Take the next byte.
    fn take_next(&mut self) -> (r: Option<u8>)
        ensures
            old(self).remaining().len() > 0 ==> r == Some(old(self).remaining()[0])
                && final(self).remaining() == old(self).remaining().skip(1),
            old(self).remaining().len() == 0 ==> r is None && final(self).remaining()
                == old(self).remaining(),
    ;

    /// Return `true` if the given byte sequence is a prefix of the input.
    ///
    /// On success the prefix has been consumed.  On failure the source may
    /// have advanced past an arbitrary part of the mismatched input.
    fn strip_prefix(&mut self, s: &[u8]) -> (r: bool)
        ensures
            r <==> (old(self).remaining().len() >= s@.len() && old(self).remaining().subrange(
                0,
                s@.len() as int,
            ) == s@),
            r ==> final(self).remaining() == old(self).remaining().skip(s@.len() as int),
    {
        let ghost s0 = self.remaining();
        let mut i: usize = 0;
        while i < s.len()
            invariant
                s0 == old(self).remaining(),
                i <= s@.len(),
                self.remaining() == s0.skip(i as int),
                s0.len() >= i,
                s0.subrange(0, i as int) == s@.subrange(0, i as int),
            decreases s@.len() - i,
        {
            match self.take_next() {
                Some(c) => {
                    if c != s[i] {
                        proof {
                            assert(c == s0.skip(i as int)[0]);
                            assert(c == s0[i as int]);
                            if s0.len() >= s@.len() && s0.subrange(0, s@.len() as int) == s@ {
                                assert(s0.subrange(0, s@.len() as int)[i as int] == s0[i as int]);
                                assert(s@[i as int] == s0[i as int]);
                                assert(false);
                            }
                        }
                        return false;
                    }
                },
                None => {
                    proof {
                        assert(s0.skip(i as int).len() == 0);
                        assert(s0.len() == i);
                        assert(s0.len() < s@.len());
                    }
                    return false;
                },
            }
            proof {
                assert(s0.subrange(0, i + 1 as int) =~= s0.subrange(0, i as int).push(
                    s0[i as int],
                ));
                assert(s@.subrange(0, i + 1 as int) =~= s@.subrange(0, i as int).push(
                    s@[i as int],
                ));
                assert(s0.skip(i as int).skip(1) =~= s0.skip(i + 1 as int));
            }
            i = i + 1;
        }
        proof {
            assert(s0.subrange(0, s@.len() as int) == s@);
        }
        true
    }
}

} // verus!
