//! Tokens: whitespace skipping and classification of the next byte.

use vstd::prelude::*;
use crate::read::Read;

verus! {

/// What we expected to get, but did not get.
#[derive(Debug, Clone, Copy, PartialEq, Eq, Structural)]
pub enum Expect {
    /// a value, e.g. after `[1,`
    Value,
    /// a value or the end of a sequence, e.g. after `[`
    ValueOrEnd,
    /// a comma or the end of a sequence, e.g. after `[1`
    CommaOrEnd,
    /// a string, e.g. as object key
    String,
    /// a colon, e.g. after an object key
    Colon,
    /// the end of the input, e.g. after `true` when lexing `true false`
    Eof,
}

/// Whether `c` is JSON whitespace (space, tab, line feed, carriage return).
pub open spec fn is_ws(c: u8) -> bool {
    c == 0x20 || c == 0x09 || c == 0x0A || c == 0x0D
}

/// The length of the whitespace prefix of `s`.
pub open spec fn ws_count(s: Seq<u8>) -> nat
    decreases s.len(),
{
    if s.len() > 0 && is_ws(s[0]) {
        (1 + ws_count(s.skip(1))) as nat
    } else {
        0
    }
}

/// The whitespace prefix of a byte sequence never exceeds its length, and the
/// byte that follows it is never whitespace.
pub proof fn lemma_ws_count(s: Seq<u8>)
    ensures
        ws_count(s) <= s.len(),
        ws_count(s) < s.len() ==> !is_ws(s[ws_count(s) as int]),
    decreases s.len(),
{
    if s.len() > 0 && is_ws(s[0]) {
        lemma_ws_count(s.skip(1));
        if ws_count(s) < s.len() {
            assert(s.skip(1)[ws_count(s.skip(1)) as int] == s[ws_count(s) as int]);
        }
    }
}

/// What `null`, `true` or `false` at the head of `s` denotes:
/// `Some(None)` for `null`, `Some(Some(b))` for a boolean, and
/// `None` when none of the three literals is present.
pub open spec fn null_or_bool_model(s: Seq<u8>) -> Option<Option<bool>> {
    if s.len() >= 4 && s.subrange(0, 4) == seq![0x6Eu8, 0x75u8, 0x6Cu8, 0x6Cu8] {
        Some(None)
    } else if s.len() >= 4 && s.subrange(0, 4) == seq![0x74u8, 0x72u8, 0x75u8, 0x65u8] {
        Some(Some(true))
    } else if s.len() >= 5 && s.subrange(0, 5) == seq![0x66u8, 0x61u8, 0x6Cu8, 0x73u8, 0x65u8] {
        Some(Some(false))
    } else {
        None
    }
}

/// The number of bytes that the literal for `v` occupies.
pub open spec fn null_or_bool_len(v: Option<bool>) -> int {
    match v {
        None => 4,
        Some(true) => 4,
        Some(false) => 5,
    }
}

/// Whitespace handling and lexing of the three keyword literals.
pub trait Lex: Read {
    /// Skip input until the earliest non-whitespace character.
    fn eat_whitespace(&mut self)
        ensures
            final(self).remaining() == old(self).remaining().skip(
                ws_count(old(self).remaining()) as int,
            ),
    {
        let ghost s0 = self.remaining();
        let ghost mut k: int = 0;
        loop
            invariant
                s0 == old(self).remaining(),
                0 <= k <= s0.len(),
                self.remaining() == s0.skip(k),
                ws_count(s0) == k + ws_count(s0.skip(k)),
            decreases s0.len() - k,
        {
            let next = self.peek_next();
            match next {
                Some(c) => {
                    if c == 0x20 || c == 0x09 || c == 0x0A || c == 0x0D {
                        self.take_next();
                        proof {
                            assert(s0.skip(k).skip(1) =~= s0.skip(k + 1));
                            k = k + 1;
                        }
                    } else {
                        proof {
                            assert(ws_count(s0.skip(k)) == 0);
                        }
                        return ;
                    }
                },
                None => {
                    proof {
                        assert(ws_count(s0.skip(k)) == 0);
                    }
                    return ;
                },
            }
        }
    }

    /// Skip whitespace and peek at the following byte.
    fn ws_peek(&mut self) -> (r: Option<u8>)
        ensures
            final(self).remaining() == old(self).remaining().skip(
                ws_count(old(self).remaining()) as int,
            ),
            r == (if final(self).remaining().len() > 0 {
                Some(final(self).remaining()[0])
            } else {
                None::<u8>
            }),
            r matches Some(c) ==> !is_ws(c),
    {
        proof {
            lemma_ws_count(self.remaining());
        }
        self.eat_whitespace();
        self.peek_next()
    }

    /// Lex a JSON token starting with a letter: `null`, `true` or `false`.
    ///
    /// Returns `Some(None)` for `null`, `Some(Some(b))` for a boolean, and
    /// `None` if no such literal starts the input; in the latter case the
    /// input may have advanced past an arbitrary part of the mismatch.
    fn null_or_bool(&mut self) -> (r: Option<Option<bool>>)
        ensures
            r == null_or_bool_model(old(self).remaining()),
            r matches Some(v) ==> final(self).remaining() == old(self).remaining().skip(
                null_or_bool_len(v),
            ),
    {
        let ghost s0 = self.remaining();
        let ghost nlit = seq![0x6Eu8, 0x75u8, 0x6Cu8, 0x6Cu8];
        let ghost tlit = seq![0x74u8, 0x72u8, 0x75u8, 0x65u8];
        let ghost flit = seq![0x66u8, 0x61u8, 0x6Cu8, 0x73u8, 0x65u8];
        proof {
            lemma_lit_prefix(s0, nlit);
            lemma_lit_prefix(s0, tlit);
            lemma_lit_prefix(s0, flit);
        }
        let first = self.take_next();
        match first {
            Some(c) => {
                if c == 0x6Eu8 {
                    let rest: [u8; 3] = [0x75u8, 0x6Cu8, 0x6Cu8];
                    proof {
                        assert(rest@ =~= nlit.skip(1));
                    }
                    if self.strip_prefix(rest.as_slice()) {
                        Some(None)
                    } else {
                        None
                    }
                } else if c == 0x74u8 {
                    let rest: [u8; 3] = [0x72u8, 0x75u8, 0x65u8];
                    proof {
                        assert(rest@ =~= tlit.skip(1));
                    }
                    if self.strip_prefix(rest.as_slice()) {
                        Some(Some(true))
                    } else {
                        None
                    }
                } else if c == 0x66u8 {
                    let rest: [u8; 4] = [0x61u8, 0x6Cu8, 0x73u8, 0x65u8];
                    proof {
                        assert(rest@ =~= flit.skip(1));
                    }
                    if self.strip_prefix(rest.as_slice()) {
                        Some(Some(false))
                    } else {
                        None
                    }
                } else {
                    None
                }
            },
            None => None,
        }
    }
}

impl<T: Read> Lex for T {

}

/// A byte sequence starts with a literal exactly if it starts with the
/// literal's first byte and, one byte in, with the rest of the literal.
proof fn lemma_lit_prefix(s: Seq<u8>, lit: Seq<u8>)
    requires
        lit.len() >= 1,
    ensures
        (s.len() >= lit.len() && s.subrange(0, lit.len() as int) == lit) <==> (s.len() >= 1 && s[0]
            == lit[0] && s.skip(1).len() >= lit.len() - 1 && s.skip(1).subrange(
            0,
            lit.len() - 1,
        ) == lit.skip(1)),
{
    if s.len() >= lit.len() && s.subrange(0, lit.len() as int) == lit {
        assert(s[0] == s.subrange(0, lit.len() as int)[0]);
        assert(s.skip(1).subrange(0, lit.len() - 1) =~= lit.skip(1));
    } else if s.len() >= 1 && s[0] == lit[0] && s.skip(1).len() >= lit.len() - 1 && s.skip(
        1,
    ).subrange(0, lit.len() - 1) == lit.skip(1) {
        assert forall|i: int| 0 <= i < lit.len() implies s[i] == lit[i] by {
            if i >= 1 {
                assert(s.skip(1).subrange(0, lit.len() - 1)[i - 1] == lit.skip(1)[i - 1]);
                assert(s.skip(1)[i - 1] == s[i]);
                assert(lit.skip(1)[i - 1] == lit[i]);
            }
        }
        assert(s.subrange(0, lit.len() as int) =~= lit);
    }
}

} // verus!
