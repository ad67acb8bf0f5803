//! A high-fidelity JSON lexer and parser over bytes.
//!
//! The crate decomposes JSON input into tokens, numbers and strings, and can
//! assemble those into a discardable traversal ([`ignore`]) or a value tree
//! ([`value`]).  Numbers are kept in their exact textual form together with
//! positional markers ([`num::Parts`]); strings come in three tiers that
//! differ in how much they record (discard, raw bytes, decoded bytes).
//!
//! Input can be supplied either as a borrowed byte slice ([`SliceLexer`]) or
//! as a fallible byte stream ([`IterLexer`]); both behave identically on the
//! same bytes.  Every lexing and parsing operation is specified against a
//! mathematical model of the JSON grammar over byte sequences, so the result
//! of a parse is pinned down by the contract of the entry point alone.

use vstd::prelude::*;

pub mod escape;
pub mod ignore;
pub mod num;
pub mod read;
pub mod str;
pub mod token;
pub mod value;
pub mod write;

pub use read::Read;
pub use token::Expect;
pub use write::Write;

verus! {

/// Lexing without any need for memory allocation.
pub trait Lex: token::Lex + num::Lex + str::Lex {

}

impl<T: token::Lex + num::Lex + str::Lex> Lex for T {

}

/// Lexing that writes captured bytes.
pub trait LexWrite: Lex + num::LexWrite + str::LexWrite {

}

impl<T: Lex + num::LexWrite + str::LexWrite> LexWrite for T {

}

/// Lexing that allocates memory for decoded strings.
pub trait LexAlloc: LexWrite + str::LexAlloc {

}

impl<T: LexWrite + str::LexAlloc> LexAlloc for T {

}

/// Parse error.
#[derive(Debug, Clone, Copy, PartialEq, Eq, Structural)]
pub enum Error {
    /// maximal parsing depth has been exceeded
    Depth,
    /// number lexing has failed
    Num(num::Error),
    /// string lexing has failed
    Str(str::Error),
    /// we did not obtain a token that we expected
    Token(token::Expect),
}

/// JSON lexer over a shared byte slice.
pub struct SliceLexer<'a> {
    whole: &'a [u8],
    pos: usize,
}

impl<'a> SliceLexer<'a> {
    /// Create a new slice lexer over the given input.
    pub fn new(slice: &'a [u8]) -> (l: Self)
        ensures
            l.remaining() == slice@,
    {
        let l = Self { whole: slice, pos: 0 };
        proof {
            assert(l.remaining() =~= slice@);
        }
        l
    }

    /// Return the input that has not been consumed yet, as a subslice of the
    /// original data.
    pub fn as_slice(&self) -> (s: &'a [u8])
        ensures
            s@ == self.remaining(),
    {
        proof {
            use_type_invariant(&*self);
        }
        let s = vstd::slice::slice_subrange(self.whole, self.pos, self.whole.len());
        proof {
            assert(s@ =~= self.remaining());
        }
        s
    }

    #[verifier::type_invariant]
    spec fn wf(self) -> bool {
        self.pos <= self.whole@.len()
    }
}

impl<'a> Read for SliceLexer<'a> {
    closed spec fn remaining(&self) -> Seq<u8> {
        self.whole@.skip(if self.pos <= self.whole@.len() {
            self.pos as int
        } else {
            self.whole@.len() as int
        })
    }

    proof fn remaining_bounded(&self) {
        assert(self.whole.len() == self.whole@.len());
    }

    fn peek_next(&mut self) -> (r: Option<u8>) {
        proof {
            use_type_invariant(&*self);
        }
        if self.pos < self.whole.len() {
            Some(self.whole[self.pos])
        } else {
            None
        }
    }

    fn take_next(&mut self) -> (r: Option<u8>) {
        proof {
            use_type_invariant(&*self);
        }
        if self.pos < self.whole.len() {
            let b = self.whole[self.pos];
            let ghost pre = *self;
            self.pos = self.pos + 1;
            proof {
                assert(self.remaining() =~= pre.remaining().skip(1));
            }
            Some(b)
        } else {
            None
        }
    }
}

/// JSON lexer over a fallible byte stream.
///
/// The stream yields the bytes of `input` in order and, if a failure point is
/// set, reports an upstream error once that point is reached.  The lexer keeps
/// a one-byte putback cell and a sticky error cell: after the first upstream
/// error, every further read behaves as end of input.
pub struct IterLexer {
    input: Vec<u8>,
    pos: usize,
    fail_at: Option<usize>,
    last: Option<u8>,
    error: bool,
}

impl IterLexer {
    /// Create a new stream lexer over a stream that yields exactly the given
    /// bytes and then ends.
    pub fn new(input: Vec<u8>) -> (l: Self)
        ensures
            l.remaining() == input@,
            !l.err_state(),
    {
        let ghost i0 = input@;
        let l = Self { input, pos: 0, fail_at: None, last: None, error: false };
        proof {
            assert(l.remaining() =~= i0);
        }
        l
    }

    /// Create a new stream lexer over a stream that yields the bytes of
    /// `input` but fails with an upstream error in place of byte `fail_at`.
    pub fn new_failing(input: Vec<u8>, fail_at: usize) -> (l: Self)
        ensures
            l.remaining() == if fail_at <= input@.len() {
                input@.subrange(0, fail_at as int)
            } else {
                input@
            },
            !l.err_state(),
    {
        let ghost i0 = input@;
        let l = Self { input, pos: 0, fail_at: Some(fail_at), last: None, error: false };
        proof {
            if fail_at <= i0.len() {
                assert(l.remaining() =~= i0.subrange(0, fail_at as int));
            } else {
                assert(l.remaining() =~= i0);
            }
        }
        l
    }

    /// True if an upstream error has been encountered while reading.
    ///
    /// Once this is set, the lexer behaves as if the input had ended.
    pub fn saw_error(&self) -> (e: bool)
        ensures
            e == self.err_state(),
    {
        self.error
    }

    /// The stream position at which the upstream fails, clipped to its length.
    spec fn fail_limit(self) -> int {
        match self.fail_at {
            Some(f) => if f <= self.input@.len() {
                f as int
            } else {
                self.input@.len() as int
            },
            None => self.input@.len() as int,
        }
    }

    /// Whether the sticky upstream error cell is set.
    pub closed spec fn err_state(self) -> bool {
        self.error
    }

    #[verifier::type_invariant]
    spec fn wf(self) -> bool {
        &&& self.pos <= self.input@.len()
        &&& !self.error ==> self.pos <= self.fail_limit()
        &&& self.error ==> self.last is None
        &&& self.last is Some ==> self.pos >= 1
    }

    /// The bytes the upstream will still yield, disregarding the putback cell.
    spec fn upstream_rem(self) -> Seq<u8> {
        if self.error {
            Seq::empty()
        } else {
            self.input@.subrange(
                if self.pos <= self.fail_limit() {
                    self.pos as int
                } else {
                    self.fail_limit()
                },
                self.fail_limit(),
            )
        }
    }

    /// Read one byte from the upstream, setting the sticky error cell if the
    /// upstream fails.
    fn upstream_next(&mut self) -> (r: Option<u8>)
        requires
            old(self).last is None,
        ensures
            final(self).last is None,
            r is Some ==> !final(self).error && final(self).pos >= 1,
            old(self).upstream_rem().len() > 0 ==> r == Some(old(self).upstream_rem()[0])
                && final(self).upstream_rem() == old(self).upstream_rem().skip(1),
            old(self).upstream_rem().len() == 0 ==> r is None && final(self).upstream_rem()
                == old(self).upstream_rem(),
    {
        proof {
            use_type_invariant(&*self);
        }
        if self.error {
            return None;
        }
        let fail_now = match self.fail_at {
            Some(f) => self.pos == f,
            None => false,
        };
        if fail_now {
            self.error = true;
            None
        } else if self.pos < self.input.len() {
            let b = self.input[self.pos];
            let ghost pre = *self;
            self.pos = self.pos + 1;
            proof {
                assert(self.upstream_rem() =~= pre.upstream_rem().skip(1));
            }
            Some(b)
        } else {
            None
        }
    }
}

impl Read for IterLexer {
    closed spec fn remaining(&self) -> Seq<u8> {
        if self.last is Some && self.pos >= 1 {
            seq![self.last->0] + self.upstream_rem()
        } else {
            self.upstream_rem()
        }
    }

    proof fn remaining_bounded(&self) {
        assert(self.input.len() == self.input@.len());
    }

    fn peek_next(&mut self) -> (r: Option<u8>) {
        proof {
            use_type_invariant(&*self);
        }
        match self.last {
            Some(b) => Some(b),
            None => {
                let ghost pre = *self;
                let r = self.upstream_next();
                proof {
                    use_type_invariant(&*self);
                }
                self.last = r;
                proof {
                    assert(self.remaining() =~= pre.remaining());
                }
                r
            },
        }
    }

    fn take_next(&mut self) -> (r: Option<u8>) {
        proof {
            use_type_invariant(&*self);
        }
        match self.last {
            Some(b) => {
                let ghost pre = *self;
                self.last = None;
                proof {
                    assert(self.remaining() =~= pre.remaining().skip(1));
                }
                Some(b)
            },
            None => {
                let ghost pre = *self;
                let r = self.upstream_next();
                proof {
                    if pre.remaining().len() > 0 {
                        assert(self.remaining() =~= pre.remaining().skip(1));
                    } else {
                        assert(self.remaining() =~= pre.remaining());
                    }
                }
                r
            },
        }
    }
}

} // verus!
