//! Escape sequences.

use vstd::prelude::*;
use crate::read::Read;
use vstd::utf8::is_scalar;

verus! {

/// Escape literal, such as `\n`.
#[derive(Debug, Clone, Copy, PartialEq, Eq, Structural)]
pub enum Lit {
    /// `\"`
    QuotationMark,
    /// `\\`
    ReverseSolidus,
    /// `\/`
    Solidus,
    /// `\b`
    Backspace,
    /// `\f`
    FormFeed,
    /// `\n`
    LineFeed,
    /// `\t`
    Tab,
    /// `\r`
    CarriageReturn,
}

/// The escape literal introduced by the byte `c` (the byte after `\`),
/// if there is one.
pub open spec fn lit_model(c: u8) -> Option<Lit> {
    if c == 0x22 {
        Some(Lit::QuotationMark)
    } else if c == 0x5C {
        Some(Lit::ReverseSolidus)
    } else if c == 0x2F {
        Some(Lit::Solidus)
    } else if c == 0x62 {
        Some(Lit::Backspace)
    } else if c == 0x66 {
        Some(Lit::FormFeed)
    } else if c == 0x6E {
        Some(Lit::LineFeed)
    } else if c == 0x72 {
        Some(Lit::CarriageReturn)
    } else if c == 0x74 {
        Some(Lit::Tab)
    } else {
        None
    }
}

/// The byte that an escape literal denotes.
pub open spec fn lit_byte(l: Lit) -> u8 {
    match l {
        Lit::QuotationMark => 0x22,
        Lit::ReverseSolidus => 0x5C,
        Lit::Solidus => 0x2F,
        Lit::Backspace => 0x08,
        Lit::FormFeed => 0x0C,
        Lit::LineFeed => 0x0A,
        Lit::CarriageReturn => 0x0D,
        Lit::Tab => 0x09,
    }
}

/// The byte denoted by the escape literal that `c` introduces, if any.
pub open spec fn esc_lit_byte(c: u8) -> Option<u8> {
    match lit_model(c) {
        Some(l) => Some(lit_byte(l)),
        None => None,
    }
}

impl Lit {
    /// Try to interpret an ASCII character as first character of an escape
    /// sequence.
    pub fn try_from(c: u8) -> (r: Option<Self>)
        ensures
            r == lit_model(c),
    {
        if c == 0x22 {
            Some(Lit::QuotationMark)
        } else if c == 0x5C {
            Some(Lit::ReverseSolidus)
        } else if c == 0x2F {
            Some(Lit::Solidus)
        } else if c == 0x62 {
            Some(Lit::Backspace)
        } else if c == 0x66 {
            Some(Lit::FormFeed)
        } else if c == 0x6E {
            Some(Lit::LineFeed)
        } else if c == 0x72 {
            Some(Lit::CarriageReturn)
        } else if c == 0x74 {
            Some(Lit::Tab)
        } else {
            None
        }
    }

    /// The byte this escape literal denotes.
    pub fn as_u8(&self) -> (r: u8)
        ensures
            r == lit_byte(*self),
    {
        match self {
            Lit::QuotationMark => 0x22,
            Lit::ReverseSolidus => 0x5C,
            Lit::Solidus => 0x2F,
            Lit::Backspace => 0x08,
            Lit::FormFeed => 0x0C,
            Lit::LineFeed => 0x0A,
            Lit::CarriageReturn => 0x0D,
            Lit::Tab => 0x09,
        }
    }
}

/// The value of an ASCII hexadecimal digit, if `c` is one.
pub open spec fn hex_val(c: u8) -> Option<u8> {
    if 0x30 <= c && c <= 0x39 {
        Some((c - 0x30) as u8)
    } else if 0x61 <= c && c <= 0x66 {
        Some((c - 0x61 + 10) as u8)
    } else if 0x41 <= c && c <= 0x46 {
        Some((c - 0x41 + 10) as u8)
    } else {
        None
    }
}

/// Parse a hexadecimal digit.
pub(crate) fn decode_hex(c: u8) -> (r: Option<u8>)
    ensures
        r == hex_val(c),
{
    if 0x30 <= c && c <= 0x39 {
        Some(c - 0x30)
    } else if 0x61 <= c && c <= 0x66 {
        Some(c - 0x61 + 10)
    } else if 0x41 <= c && c <= 0x46 {
        Some(c - 0x41 + 10)
    } else {
        None
    }
}

/// Escape sequence lexing error.
#[derive(Debug, Clone, Copy, PartialEq, Eq, Structural)]
pub enum Error {
    /// `\x` or `\U`: the byte after `\` introduces no escape
    InvalidKind(u8),
    /// `\u000X`: a hexadecimal digit was expected
    InvalidHex(u8),
    /// `\uDC37`: the code point is no Unicode scalar value
    InvalidChar(u32),
    /// `\uD801` not followed by a low surrogate escape
    ExpectedLowSurrogate,
    /// `\` or `\u00` at the end of the input
    Eof,
}

/// Reading four hexadecimal digits from the head of `s`: the digits' value,
/// or the error that the first missing or invalid digit provokes.
pub open spec fn hex4_model(s: Seq<u8>) -> Result<u16, Error> {
    if s.len() == 0 {
        Err(Error::Eof)
    } else if hex_val(s[0]) is None {
        Err(Error::InvalidHex(s[0]))
    } else if s.len() == 1 {
        Err(Error::Eof)
    } else if hex_val(s[1]) is None {
        Err(Error::InvalidHex(s[1]))
    } else if s.len() == 2 {
        Err(Error::Eof)
    } else if hex_val(s[2]) is None {
        Err(Error::InvalidHex(s[2]))
    } else if s.len() == 3 {
        Err(Error::Eof)
    } else if hex_val(s[3]) is None {
        Err(Error::InvalidHex(s[3]))
    } else {
        Ok(
            (hex_val(s[0])->0 * 0x1000 + hex_val(s[1])->0 * 0x100 + hex_val(s[2])->0 * 0x10
                + hex_val(s[3])->0) as u16,
        )
    }
}

/// Reading a low surrogate escape `\uXXXX` from the head of `s` and combining
/// it with the high surrogate `high` into a code point.
pub open spec fn low_surrogate_model(s: Seq<u8>, high: u16) -> Result<u32, Error> {
    if !(s.len() >= 2 && s[0] == 0x5C && s[1] == 0x75) {
        Err(Error::ExpectedLowSurrogate)
    } else {
        match hex4_model(s.skip(2)) {
            Err(e) => Err(e),
            Ok(low) => if 0xDC00 <= low && low <= 0xDFFF {
                Ok(((high - 0xD800) * 0x400 + (low - 0xDC00) + 0x10000) as u32)
            } else {
                Err(Error::ExpectedLowSurrogate)
            },
        }
    }
}

/// Decoding the escape sequence that the byte `c` (after `\`) introduces,
/// where `s` is the input after `c`: the denoted Unicode scalar value.
pub open spec fn esc_char_model(c: u8, s: Seq<u8>) -> Result<u32, Error> {
    if c == 0x75 {
        match hex4_model(s) {
            Err(e) => Err(e),
            Ok(u) => if 0xD800 <= u && u <= 0xDBFF {
                low_surrogate_model(s.skip(4), u)
            } else if 0xDC00 <= u && u <= 0xDFFF {
                Err(Error::InvalidChar(u as u32))
            } else {
                Ok(u as u32)
            },
        }
    } else {
        match esc_lit_byte(c) {
            Some(b) => Ok(b as u32),
            None => Err(Error::InvalidKind(c)),
        }
    }
}

/// The bytes consumed by decoding the escape that `c` introduces, on success:
/// four hex digits, six more for the low half of a surrogate pair, and
/// nothing for a literal.
pub open spec fn esc_char_len(c: u8, s: Seq<u8>) -> int {
    if c == 0x75 {
        if hex4_model(s) matches Ok(u) && 0xD800 <= u && u <= 0xDBFF {
            10
        } else {
            4
        }
    } else {
        0
    }
}

/// A decoded escape is always a Unicode scalar value.
pub proof fn lemma_esc_char_scalar(c: u8, s: Seq<u8>)
    ensures
        esc_char_model(c, s) matches Ok(u) ==> is_scalar(u),
{
}

/// Escape sequence lexing.
///
/// This does not require any allocation.
pub trait Lex: Read {
    /// Parse four hexadecimal digits into a `u16`.
    fn hex(&mut self) -> (r: Result<u16, Error>)
        ensures
            r == hex4_model(old(self).remaining()),
            r is Ok ==> final(self).remaining() == old(self).remaining().skip(4),
    {
        let ghost s0 = self.remaining();
        let mut hex: u16 = 0;
        let mut i: usize = 0;
        while i < 4
            invariant
                s0 == old(self).remaining(),
                0 <= i <= 4,
                i <= s0.len(),
                self.remaining() == s0.skip(i as int),
                forall|j: int| 0 <= j < i ==> hex_val(s0[j]) is Some,
                hex == hex_part(s0, i as nat),
            decreases 4 - i,
        {
            let h = match self.take_next() {
                Some(h) => h,
                None => {
                    proof {
                        assert(s0.len() == i);
                    }
                    return Err(Error::Eof);
                },
            };
            proof {
                assert(h == s0.skip(i as int)[0]);
                assert(h == s0[i as int]);
            }
            let h = match decode_hex(h) {
                Some(h) => h,
                None => {
                    return Err(Error::InvalidHex(h));
                },
            };
            proof {
                assert(s0.skip(i as int).skip(1) =~= s0.skip(i + 1));
                lemma_hex_part_bound(s0, i as nat);
            }
            hex = hex * 16 + h as u16;
            i = i + 1;
        }
        proof {
            reveal_with_fuel(hex_part, 5);
        }
        Ok(hex)
    }

    /// Given a high surrogate, parse a low surrogate escape and combine the
    /// two into a code point.
    fn low_surrogate(&mut self, high: u16) -> (r: Result<u32, Error>)
        requires
            0xD800 <= high <= 0xDBFF,
        ensures
            r == low_surrogate_model(old(self).remaining(), high),
            r is Ok ==> final(self).remaining() == old(self).remaining().skip(6),
    {
        let ghost s0 = self.remaining();
        let bu: [u8; 2] = [0x5C, 0x75];
        proof {
            assert(bu@ =~= seq![0x5Cu8, 0x75u8]);
            assert(s0.len() >= 2 && s0.subrange(0, 2) == seq![0x5Cu8, 0x75u8] <==> (s0.len() >= 2
                && s0[0] == 0x5C && s0[1] == 0x75)) by {
                if s0.len() >= 2 {
                    assert(s0.subrange(0, 2)[0] == s0[0] && s0.subrange(0, 2)[1] == s0[1]);
                    if s0[0] == 0x5C && s0[1] == 0x75 {
                        assert(s0.subrange(0, 2) =~= seq![0x5Cu8, 0x75u8]);
                    }
                }
            }
        }
        if !self.strip_prefix(bu.as_slice()) {
            return Err(Error::ExpectedLowSurrogate);
        }
        match self.hex() {
            Err(e) => Err(e),
            Ok(low) => {
                if 0xDC00 <= low && low <= 0xDFFF {
                    proof {
                        assert(s0.skip(2).skip(4) =~= s0.skip(6));
                    }
                    Ok((high - 0xD800) as u32 * 0x400 + (low - 0xDC00) as u32 + 0x10000)
                } else {
                    Err(Error::ExpectedLowSurrogate)
                }
            },
        }
    }

    /// Convert an escape sequence such as `\n` or `\u0009` (without the
    /// leading `\`, whose following byte `c` has already been consumed)
    /// to a Unicode scalar value, potentially reading more input.
    fn escape(&mut self, c: u8) -> (r: Result<u32, Error>)
        ensures
            r == esc_char_model(c, old(self).remaining()),
            r is Ok ==> final(self).remaining() == old(self).remaining().skip(
                esc_char_len(c, old(self).remaining()),
            ),
    {
        let ghost s0 = self.remaining();
        if c == 0x75 {
            match self.hex() {
                Err(e) => Err(e),
                Ok(u) => {
                    if 0xD800 <= u && u <= 0xDBFF {
                        let r = self.low_surrogate(u);
                        proof {
                            if r is Ok {
                                // a successful low surrogate consumes `\u`
                                // and four digits, so ten bytes in all
                                assert(s0.skip(4).len() >= 6);
                                assert(s0.skip(4).skip(6) =~= s0.skip(10));
                            }
                        }
                        r
                    } else if 0xDC00 <= u && u <= 0xDFFF {
                        Err(Error::InvalidChar(u as u32))
                    } else {
                        Ok(u as u32)
                    }
                },
            }
        } else {
            match Lit::try_from(c) {
                Some(l) => Ok(l.as_u8() as u32),
                None => Err(Error::InvalidKind(c)),
            }
        }
    }
}

impl<T: Read> Lex for T {

}

/// The value of the first `i` hexadecimal digits of `s`, most significant
/// first.
spec fn hex_part(s: Seq<u8>, i: nat) -> int
    decreases i,
{
    if i == 0 {
        0
    } else {
        hex_part(s, (i - 1) as nat) * 0x10 + hex_val(s[i - 1])->0
    }
}

/// The value of `i` hexadecimal digits stays below the `i`-th power of 16.
proof fn lemma_hex_part_bound(s: Seq<u8>, i: nat)
    requires
        i <= 4,
        forall|j: int| 0 <= j < i ==> hex_val(s[j]) is Some,
    ensures
        0 <= hex_part(s, i),
        hex_part(s, i) < (if i == 0 {
            1int
        } else if i == 1 {
            0x10int
        } else if i == 2 {
            0x100int
        } else if i == 3 {
            0x1000int
        } else {
            0x10000int
        }),
    decreases i,
{
    if i > 0 {
        lemma_hex_part_bound(s, (i - 1) as nat);
    }
}

} // verus!
