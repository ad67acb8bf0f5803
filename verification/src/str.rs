//! Strings.
//!
//! Converting JSON strings to their byte content can require allocation,
//! because escape sequences such as `\n` or `\u0009` have to be replaced by
//! the bytes they denote.  To provide flexibility, this module offers three
//! tiers of string lexing that share one machine and differ in what they
//! record:
//!
//! * [`Lex::str_ignore`] only validates a string and discards its contents;
//!   it never allocates.
//! * [`LexWrite::str_bytes`] captures the string's raw bytes, with escape
//!   sequences copied one-to-one, and [`LexWrite::str_binary`] decodes escape
//!   sequences but passes the bytes between them through unchecked.
//! * [`LexAlloc::str_string`] decodes escape sequences and validates that the
//!   decoded string is UTF-8.
//!
//! The input precondition of every tier is that the opening quote has already
//! been consumed; on success the closing quote has been consumed too.

use vstd::prelude::*;
use crate::escape;
use crate::read::Read;
use vstd::utf8::{encode_scalar, is_scalar, valid_utf8};

verus! {

/// String lexing error.
#[derive(Debug, Clone, Copy, PartialEq, Eq, Structural)]
pub enum Error {
    /// an unescaped ASCII control byte (between 0 and 0x1F) was found
    Control,
    /// an escape sequence could not be decoded
    Escape(escape::Error),
    /// the string was not terminated by a closing quote
    Eof,
    /// the decoded string is not in UTF-8
    Utf8,
}

impl Error {
    /// True if the string is not in UTF-8 or a UTF-16 escape sequence is
    /// invalid.
    ///
    /// These errors never occur when lexing strings via [`Lex::str_ignore`]
    /// or [`LexWrite::str_bytes`]; they can occur via
    /// [`LexAlloc::str_string`].
    pub fn is_unicode_error(&self) -> (r: bool)
        ensures
            r == is_unicode(*self),
    {
        match self {
            Error::Utf8 => true,
            Error::Escape(escape::Error::InvalidChar(_)) => true,
            Error::Escape(escape::Error::ExpectedLowSurrogate) => true,
            _ => false,
        }
    }
}

/// Whether a string error concerns Unicode validity rather than the byte
/// structure of the string.
pub open spec fn is_unicode(e: Error) -> bool {
    match e {
        Error::Utf8 => true,
        Error::Escape(escape::Error::InvalidChar(_)) => true,
        Error::Escape(escape::Error::ExpectedLowSurrogate) => true,
        _ => false,
    }
}

/// How much a string lexer records.
#[derive(Debug, Clone, Copy, PartialEq, Eq, Structural)]
pub enum Tier {
    /// validate the byte structure only; capture bytes one-to-one
    Raw,
    /// decode escape sequences; pass the bytes between them through
    Binary,
    /// decode escape sequences and require the content to be UTF-8
    Decoded,
}

/// Whether `c` continues the plain run of a string: anything but the closing
/// quote, a backslash or a control byte.
pub open spec fn is_run_byte(c: u8) -> bool {
    c != 0x22 && c != 0x5C && c > 0x1F
}

/// The length of the plain run at the head of `s`.
pub open spec fn run_len(s: Seq<u8>) -> nat
    decreases s.len(),
{
    if s.len() > 0 && is_run_byte(s[0]) {
        (1 + run_len(s.skip(1))) as nat
    } else {
        0
    }
}

/// The plain run of a byte sequence never exceeds its length, consists of
/// run bytes, and is never followed by a run byte.
pub proof fn lemma_run_len(s: Seq<u8>)
    ensures
        run_len(s) <= s.len(),
        forall|j: int| 0 <= j < run_len(s) ==> is_run_byte(s[j]),
        run_len(s) < s.len() ==> !is_run_byte(s[run_len(s) as int]),
    decreases s.len(),
{
    if s.len() > 0 && is_run_byte(s[0]) {
        lemma_run_len(s.skip(1));
        assert forall|j: int| 0 <= j < run_len(s) implies is_run_byte(s[j]) by {
            if j > 0 {
                assert(s.skip(1)[j - 1] == s[j]);
            }
        }
        if run_len(s) < s.len() {
            assert(s.skip(1)[run_len(s.skip(1)) as int] == s[run_len(s) as int]);
        }
    }
}

/// Lexing one escape sequence at the head of `s`, which holds the input
/// after the backslash: what the escape contributes to the captured content
/// and how many bytes it occupies.
///
/// In the [`Tier::Raw`] tier the escape is only validated structurally and
/// contributes its own text (after the backslash) verbatim; in the decoding
/// tiers it contributes the UTF-8 encoding of the scalar value it denotes,
/// combining surrogate pairs.
#[verifier::opaque]
pub open spec fn esc_model(s: Seq<u8>, tier: Tier) -> Result<(Seq<u8>, nat), Error> {
    if s.len() == 0 {
        Err(Error::Escape(escape::Error::Eof))
    } else if tier is Raw {
        if s[0] == 0x75 {
            match escape::hex4_model(s.skip(1)) {
                Err(e) => Err(Error::Escape(e)),
                Ok(_) => Ok((s.take(5), 5)),
            }
        } else {
            match escape::lit_model(s[0]) {
                Some(_) => Ok((s.take(1), 1)),
                None => Err(Error::Escape(escape::Error::InvalidKind(s[0]))),
            }
        }
    } else {
        match escape::esc_char_model(s[0], s.skip(1)) {
            Err(e) => Err(Error::Escape(e)),
            Ok(u) => Ok((encode_scalar(u), (1 + escape::esc_char_len(s[0], s.skip(1))) as nat)),
        }
    }
}

/// A successfully lexed escape occupies at least the byte after the
/// backslash and stays within the input.
pub proof fn lemma_esc_model_len(s: Seq<u8>, tier: Tier)
    ensures
        esc_model(s, tier) matches Ok(p) ==> 1 <= p.1 <= s.len(),
{
    reveal(esc_model);
}

/// How the decoding tiers resolve one escape: exactly as the escape decoder
/// of [`crate::escape`] does, with the scalar encoded as UTF-8.
proof fn lemma_esc_model_decode(s: Seq<u8>, tier: Tier)
    requires
        !(tier is Raw),
    ensures
        s.len() == 0 ==> esc_model(s, tier) == Err::<(Seq<u8>, nat), Error>(
            Error::Escape(escape::Error::Eof),
        ),
        s.len() > 0 ==> (match escape::esc_char_model(s[0], s.skip(1)) {
            Ok(u) => esc_model(s, tier) == Ok::<(Seq<u8>, nat), Error>(
                (encode_scalar(u), (1 + escape::esc_char_len(s[0], s.skip(1))) as nat),
            ),
            Err(e) => esc_model(s, tier) == Err::<(Seq<u8>, nat), Error>(Error::Escape(e)),
        }),
{
    reveal(esc_model);
}

/// Lexing a string from the head of `s` (after the opening quote): the
/// captured content and the number of bytes consumed, including the closing
/// quote; or the first error.
///
/// In the [`Tier::Decoded`] tier, every plain run must be valid UTF-8; this
/// is checked when the run ends, so a malformed run is reported before an
/// error in the escape that follows it.
#[verifier::opaque]
pub open spec fn str_model(s: Seq<u8>, tier: Tier) -> Result<(Seq<u8>, nat), Error>
    decreases s.len(),
{
    let rl: int = if run_len(s) <= s.len() {
        run_len(s) as int
    } else {
        s.len() as int
    };
    let run = s.take(rl);
    if tier is Decoded && !valid_utf8(run) {
        Err(Error::Utf8)
    } else if rl == s.len() {
        Err(Error::Eof)
    } else if s[rl] == 0x22 {
        Ok((run, (rl + 1) as nat))
    } else if s[rl] == 0x5C {
        match esc_model(s.skip(rl + 1), tier) {
            Err(e) => Err(e),
            Ok(p) => {
                let el: int = if p.1 <= s.len() - rl - 1 {
                    p.1 as int
                } else {
                    s.len() - rl - 1
                };
                match str_model(s.skip(rl + 1 + el), tier) {
                    Err(e) => Err(e),
                    Ok(rest) => Ok(
                        (
                            run + (if tier is Raw {
                                seq![0x5Cu8] + p.0
                            } else {
                                p.0
                            }) + rest.0,
                            (rl + 1 + el + rest.1) as nat,
                        ),
                    ),
                }
            },
        }
    } else {
        Err(Error::Control)
    }
}

/// Consume the plain run at the head of the input, appending it to `out` if
/// `capture` is set.
pub(crate) fn run_into<L: Read + ?Sized>(lexer: &mut L, out: &mut Vec<u8>, capture: bool)
    ensures
        final(lexer).remaining() == old(lexer).remaining().skip(
            run_len(old(lexer).remaining()) as int,
        ),
        capture ==> final(out)@ == old(out)@ + old(lexer).remaining().take(
            run_len(old(lexer).remaining()) as int,
        ),
        !capture ==> final(out)@ == old(out)@,
{
    let ghost s0 = lexer.remaining();
    proof {
        lexer.remaining_bounded();
        assert(s0.take(0) =~= Seq::<u8>::empty());
        assert(out@ + s0.take(0) =~= out@);
        assert(s0.skip(0) =~= s0);
    }
    let mut n: usize = 0;
    loop
        invariant
            s0 == old(lexer).remaining(),
            n <= s0.len() <= usize::MAX,
            run_len(s0) == n + run_len(s0.skip(n as int)),
            lexer.remaining() == s0.skip(n as int),
            capture ==> out@ == old(out)@ + s0.take(n as int),
            !capture ==> out@ == old(out)@,
        decreases s0.len() - n,
    {
        let next = lexer.peek_next();
        match next {
            Some(c) => {
                if c != 0x22 && c != 0x5C && c > 0x1F {
                    lexer.take_next();
                    if capture {
                        out.push(c);
                    }
                    proof {
                        assert(s0.skip(n as int).skip(1) =~= s0.skip(n + 1));
                        assert(s0.take(n + 1) =~= s0.take(n as int).push(s0[n as int]));
                        if capture {
                            assert(out@ =~= old(out)@ + s0.take(n + 1));
                        }
                    }
                    n = n + 1;
                } else {
                    proof {
                        assert(run_len(s0.skip(n as int)) == 0);
                    }
                    return ;
                }
            },
            None => {
                proof {
                    assert(run_len(s0.skip(n as int)) == 0);
                }
                return ;
            },
        }
    }
}

/// Append the UTF-8 encoding of a Unicode scalar value to `out`.
fn push_utf8(out: &mut Vec<u8>, scalar: u32)
    requires
        is_scalar(scalar),
    ensures
        final(out)@ == old(out)@ + encode_scalar(scalar),
{
    if scalar <= 0x7F {
        out.push((scalar & 0x7F) as u8);
        proof {
            assert(out@ =~= old(out)@ + encode_scalar(scalar));
        }
    } else if scalar <= 0x7FF {
        out.push(0xC0 | ((scalar >> 6u32) & 0x1F) as u8);
        out.push(0x80 | (scalar & 0x3F) as u8);
        proof {
            assert(out@ =~= old(out)@ + encode_scalar(scalar));
        }
    } else if scalar <= 0xFFFF {
        out.push(0xE0 | ((scalar >> 12u32) & 0x0F) as u8);
        out.push(0x80 | ((scalar >> 6u32) & 0x3F) as u8);
        out.push(0x80 | (scalar & 0x3F) as u8);
        proof {
            assert(out@ =~= old(out)@ + encode_scalar(scalar));
        }
    } else {
        out.push(0xF0 | ((scalar >> 18u32) & 0x7) as u8);
        out.push(0x80 | ((scalar >> 12u32) & 0x3F) as u8);
        out.push(0x80 | ((scalar >> 6u32) & 0x3F) as u8);
        out.push(0x80 | (scalar & 0x3F) as u8);
        proof {
            assert(out@ =~= old(out)@ + encode_scalar(scalar));
        }
    }
}

/// Check that the bytes of `v` from position `from` on are valid UTF-8.
fn utf8_check(v: &Vec<u8>, from: usize) -> (r: bool)
    requires
        from <= v@.len(),
    ensures
        r == valid_utf8(v@.skip(from as int)),
{
    let mut i = from;
    loop
        invariant
            from <= i <= v@.len(),
            valid_utf8(v@.skip(from as int)) == valid_utf8(v@.skip(i as int)),
        decreases v@.len() - i,
    {
        let ghost s = v@.skip(i as int);
        if i == v.len() {
            proof {
                assert(s =~= Seq::<u8>::empty());
            }
            return true;
        }
        proof {
            assert(s[0] == v@[i as int]);
        }
        let b0 = v[i];
        let w: usize;
        if b0 <= 0x7F {
            proof {
                assert((b0 & 0x7F) as u32 == b0 as u32 & 0x7F) by (bit_vector);
                assert(b0 <= 0x7F ==> b0 as u32 & 0x7F <= 0x7F) by (bit_vector);
                assert(vstd::utf8::valid_first_scalar(s));
                assert(vstd::utf8::length_of_first_scalar(s) == 1);
            }
            w = 1;
        } else if 0xC0 <= b0 && b0 <= 0xDF {
            if v.len() - i < 2 {
                return false;
            }
            proof {
                assert(s[1] == v@[i + 1]);
            }
            let b1 = v[i + 1];
            if !(0x80 <= b1 && b1 <= 0xBF) {
                return false;
            }
            let cp: u32 = ((b0 as u32 & 0x1F) << 6u32) | (b1 as u32 & 0x3F);
            if cp < 0x80 {
                proof {
                    assert((b0 & 0x1F) as u32 == b0 as u32 & 0x1F) by (bit_vector);
                    assert((b1 & 0x3F) as u32 == b1 as u32 & 0x3F) by (bit_vector);
                    assert(!vstd::utf8::valid_first_scalar(s));
                }
                return false;
            }
            proof {
                assert((b0 & 0x1F) as u32 == b0 as u32 & 0x1F) by (bit_vector);
                assert((b1 & 0x3F) as u32 == b1 as u32 & 0x3F) by (bit_vector);
                assert(cp == ((b0 as u32 & 0x1F) << 6u32) | (b1 as u32 & 0x3F) ==> cp <= 0x7FF)
                    by (bit_vector);
                assert(vstd::utf8::valid_first_scalar(s));
                assert(vstd::utf8::length_of_first_scalar(s) == 2);
            }
            w = 2;
        } else if 0xE0 <= b0 && b0 <= 0xEF {
            if v.len() - i < 3 {
                return false;
            }
            proof {
                assert(s[1] == v@[i + 1] && s[2] == v@[i + 2]);
            }
            let b1 = v[i + 1];
            let b2 = v[i + 2];
            if !(0x80 <= b1 && b1 <= 0xBF) || !(0x80 <= b2 && b2 <= 0xBF) {
                return false;
            }
            let cp: u32 = ((b0 as u32 & 0x0F) << 12u32) | ((b1 as u32 & 0x3F) << 6u32) | (b2
                as u32 & 0x3F);
            proof {
                assert((b0 & 0x0F) as u32 == b0 as u32 & 0x0F) by (bit_vector);
                assert((b1 & 0x3F) as u32 == b1 as u32 & 0x3F) by (bit_vector);
                assert((b2 & 0x3F) as u32 == b2 as u32 & 0x3F) by (bit_vector);
            }
            if cp < 0x800 || (0xD800 <= cp && cp <= 0xDFFF) {
                proof {
                    assert(!vstd::utf8::valid_first_scalar(s));
                }
                return false;
            }
            proof {
                assert(cp == ((b0 as u32 & 0x0F) << 12u32) | ((b1 as u32 & 0x3F) << 6u32) | (b2
                    as u32 & 0x3F) ==> cp <= 0xFFFF) by (bit_vector);
                assert(vstd::utf8::valid_first_scalar(s));
                assert(vstd::utf8::length_of_first_scalar(s) == 3);
            }
            w = 3;
        } else if 0xF0 <= b0 && b0 <= 0xF7 {
            if v.len() - i < 4 {
                return false;
            }
            proof {
                assert(s[1] == v@[i + 1] && s[2] == v@[i + 2] && s[3] == v@[i + 3]);
            }
            let b1 = v[i + 1];
            let b2 = v[i + 2];
            let b3 = v[i + 3];
            if !(0x80 <= b1 && b1 <= 0xBF) || !(0x80 <= b2 && b2 <= 0xBF) || !(0x80 <= b3 && b3
                <= 0xBF) {
                return false;
            }
            let cp: u32 = ((b0 as u32 & 0x07) << 18u32) | ((b1 as u32 & 0x3F) << 12u32) | ((b2
                as u32 & 0x3F) << 6u32) | (b3 as u32 & 0x3F);
            proof {
                assert((b0 & 0x07) as u32 == b0 as u32 & 0x07) by (bit_vector);
                assert((b1 & 0x3F) as u32 == b1 as u32 & 0x3F) by (bit_vector);
                assert((b2 & 0x3F) as u32 == b2 as u32 & 0x3F) by (bit_vector);
                assert((b3 & 0x3F) as u32 == b3 as u32 & 0x3F) by (bit_vector);
            }
            if !(0x10000 <= cp && cp <= 0x10FFFF) {
                proof {
                    assert(!vstd::utf8::valid_first_scalar(s));
                }
                return false;
            }
            proof {
                assert(vstd::utf8::valid_first_scalar(s));
                assert(vstd::utf8::length_of_first_scalar(s) == 4);
            }
            w = 4;
        } else {
            proof {
                assert(!vstd::utf8::valid_leading_and_continuation_bytes_first_codepoint(s));
            }
            return false;
        }
        proof {
            assert(vstd::utf8::valid_first_scalar(s));
            assert(vstd::utf8::length_of_first_scalar(s) == w);
            assert(vstd::utf8::pop_first_scalar(s) =~= v@.skip(i + w));
        }
        i = i + w;
    }
}

/// Lex one escape sequence structurally, after the backslash: check the kind
/// byte and, for a Unicode escape, its four hex digits, appending the bytes
/// one-to-one to `out` if `capture` is set.
fn esc_raw<L: Read + ?Sized>(lexer: &mut L, out: &mut Vec<u8>, capture: bool) -> (r: Result<
    (),
    Error,
>)
    ensures
        esc_model(old(lexer).remaining(), Tier::Raw) matches Ok(p) ==> r is Ok
            && final(lexer).remaining() == old(lexer).remaining().skip(p.1 as int) && (capture
            ==> final(out)@ == old(out)@ + p.0),
        esc_model(old(lexer).remaining(), Tier::Raw) matches Err(e) ==> r == Err::<(), Error>(e),
        !capture ==> final(out)@ == old(out)@,
{
    proof {
        reveal(esc_model);
    }
    let ghost s0 = lexer.remaining();
    let c = match lexer.take_next() {
        Some(c) => c,
        None => {
            return Err(Error::Escape(escape::Error::Eof));
        },
    };
    if c == 0x75 {
        if capture {
            out.push(c);
        }
        proof {
            assert(s0.take(1) =~= seq![s0[0]]);
            if capture {
                assert(out@ =~= old(out)@ + s0.take(1));
            }
        }
        let ghost h = s0.skip(1);
        let mut k: usize = 0;
        while k < 4
            invariant
                s0 == old(lexer).remaining(),
                s0.len() >= 1,
                s0[0] == 0x75,
                h == s0.skip(1),
                0 <= k <= 4,
                k <= h.len(),
                lexer.remaining() == h.skip(k as int),
                forall|j: int| 0 <= j < k ==> escape::hex_val(h[j]) is Some,
                capture ==> out@ == old(out)@ + s0.take(1 + k),
                !capture ==> out@ == old(out)@,
            decreases 4 - k,
        {
            proof {
                reveal(esc_model);
            }
            let d = match lexer.take_next() {
                Some(d) => d,
                None => {
                    proof {
                        assert(h.len() == k);
                    }
                    return Err(Error::Escape(escape::Error::Eof));
                },
            };
            proof {
                assert(d == h.skip(k as int)[0]);
                assert(d == h[k as int]);
            }
            if escape::decode_hex(d).is_none() {
                return Err(Error::Escape(escape::Error::InvalidHex(d)));
            }
            if capture {
                out.push(d);
            }
            proof {
                assert(h.skip(k as int).skip(1) =~= h.skip(k + 1));
                assert(s0.take(1 + k + 1) =~= s0.take(1 + k).push(s0[1 + k]));
                assert(s0[1 + k] == h[k as int]);
                if capture {
                    assert(out@ =~= old(out)@ + s0.take(1 + k + 1));
                }
            }
            k = k + 1;
        }
        proof {
            assert(escape::hex4_model(h) is Ok);
            assert(s0.skip(5int) =~= s0.skip(1).skip(4));
        }
        Ok(())
    } else {
        match escape::Lit::try_from(c) {
            Some(_) => {
                if capture {
                    out.push(c);
                }
                proof {
                    assert(s0.take(1) =~= seq![s0[0]]);
                    if capture {
                        assert(out@ =~= old(out)@ + s0.take(1));
                    }
                    assert(s0.skip(1) == lexer.remaining());
                }
                Ok(())
            },
            None => Err(Error::Escape(escape::Error::InvalidKind(c))),
        }
    }
}

/// How one step of the string machine resolves, as the model sees it:
/// given that any decoded-tier run is valid UTF-8, the model either ends at
/// the closing quote, fails, or recurses after one escape.
proof fn lemma_str_model_step(t: Seq<u8>, tier: Tier)
    requires
        tier is Decoded ==> valid_utf8(t.take(run_len(t) as int)),
    ensures
        run_len(t) == t.len() ==> str_model(t, tier) == Err::<(Seq<u8>, nat), Error>(Error::Eof),
        run_len(t) < t.len() && t[run_len(t) as int] == 0x22 ==> str_model(t, tier) == Ok::<
            (Seq<u8>, nat),
            Error,
        >((t.take(run_len(t) as int), (run_len(t) + 1) as nat)),
        run_len(t) < t.len() && t[run_len(t) as int] != 0x22 && t[run_len(t) as int] != 0x5C
            ==> str_model(t, tier) == Err::<(Seq<u8>, nat), Error>(Error::Control),
        run_len(t) < t.len() && t[run_len(t) as int] == 0x5C ==> ({
            let rl = run_len(t) as int;
            match esc_model(t.skip(rl + 1), tier) {
                Ok(p) => {
                    let ebfull = if tier is Raw {
                        seq![0x5Cu8] + p.0
                    } else {
                        p.0
                    };
                    match str_model(t.skip(rl + 1 + p.1), tier) {
                        Ok(q) => str_model(t, tier) == Ok::<(Seq<u8>, nat), Error>(
                            (t.take(rl) + ebfull + q.0, (rl + 1 + p.1 + q.1) as nat),
                        ),
                        Err(e) => str_model(t, tier) == Err::<(Seq<u8>, nat), Error>(e),
                    }
                },
                Err(e) => str_model(t, tier) == Err::<(Seq<u8>, nat), Error>(e),
            }
        }),
{
    reveal(str_model);
    lemma_run_len(t);
    let rl = run_len(t) as int;
    if rl < t.len() && t[rl] == 0x5C {
        lemma_esc_model_len(t.skip(rl + 1), tier);
    }
}

/// A decoded-tier run that is not valid UTF-8 fails the whole string.
proof fn lemma_str_model_utf8(t: Seq<u8>)
    requires
        !valid_utf8(t.take(run_len(t) as int)),
    ensures
        str_model(t, Tier::Decoded) == Err::<(Seq<u8>, nat), Error>(Error::Utf8),
{
    reveal(str_model);
    lemma_run_len(t);
}

/// Lex one escape sequence after the backslash has been consumed, writing
/// its contribution (for the raw tier including the backslash itself) to
/// `out` when `capture` is set.
fn esc_step<L: escape::Lex + ?Sized>(lexer: &mut L, out: &mut Vec<u8>, tier: Tier, capture: bool) -> (r:
    Result<(), Error>)
    requires
        !(tier is Raw) ==> capture,
    ensures
        esc_model(old(lexer).remaining(), tier) matches Ok(p) ==> r is Ok
            && final(lexer).remaining() == old(lexer).remaining().skip(p.1 as int) && (capture
            ==> final(out)@ == old(out)@ + (if tier is Raw {
            seq![0x5Cu8] + p.0
        } else {
            p.0
        })),
        esc_model(old(lexer).remaining(), tier) matches Err(e) ==> r == Err::<(), Error>(e),
        !capture ==> final(out)@ == old(out)@,
{
    let ghost rest = lexer.remaining();
    let is_raw = matches!(tier, Tier::Raw);
    if is_raw {
        if capture {
            out.push(0x5C);
        }
        let r = esc_raw(lexer, out, capture);
        proof {
            if capture {
                match esc_model(rest, tier) {
                    Ok(p) => {
                        assert(out@ =~= old(out)@ + (seq![0x5Cu8] + p.0));
                    },
                    Err(_) => {
                    },
                }
            }
        }
        r
    } else {
        proof {
            lemma_esc_model_decode(rest, tier);
        }
        let c2 = match lexer.take_next() {
            Some(c2) => c2,
            None => {
                return Err(Error::Escape(escape::Error::Eof));
            },
        };
        proof {
            assert(c2 == rest[0]);
        }
        match crate::escape::Lex::escape(lexer, c2) {
            Err(e) => Err(Error::Escape(e)),
            Ok(u) => {
                proof {
                    escape::lemma_esc_char_scalar(c2, rest.skip(1));
                }
                push_utf8(out, u);
                Ok(())
            },
        }
    }
}

/// Lex a string after its opening quote, in the given tier, appending the
/// captured content to `out` when `capture` is set.
fn str_core<L: escape::Lex + ?Sized>(lexer: &mut L, out: &mut Vec<u8>, tier: Tier, capture: bool) -> (r:
    Result<(), Error>)
    requires
        !(tier is Raw) ==> capture,
    ensures
        str_model(old(lexer).remaining(), tier) matches Ok(p) ==> r is Ok
            && final(lexer).remaining() == old(lexer).remaining().skip(p.1 as int) && (capture
            ==> final(out)@ == old(out)@ + p.0),
        str_model(old(lexer).remaining(), tier) matches Err(e) ==> r == Err::<(), Error>(e),
        !capture ==> final(out)@ == old(out)@,
{
    let ghost s0 = lexer.remaining();
    let ghost out0 = out@;
    let ghost mut cnt: int = 0;
    let ghost mut acc: Seq<u8> = Seq::empty();
    proof {
        lexer.remaining_bounded();
        assert(s0.skip(0) =~= s0);
        match str_model(s0, tier) {
            Ok(p) => {
                assert(Seq::empty() + p.0 =~= p.0);
            },
            Err(_) => {
            },
        }
        assert(out0 + Seq::<u8>::empty() =~= out0);
    }
    loop
        invariant
            !(tier is Raw) ==> capture,
            s0 == old(lexer).remaining(),
            out0 == old(out)@,
            0 <= cnt <= s0.len(),
            lexer.remaining() == s0.skip(cnt),
            capture ==> out@ == out0 + acc,
            !capture ==> out@ == out0,
            (match str_model(lexer.remaining(), tier) {
                Ok(p) => str_model(s0, tier) == Ok::<(Seq<u8>, nat), Error>(
                    (acc + p.0, (cnt + p.1) as nat),
                ),
                Err(e) => str_model(s0, tier) == Err::<(Seq<u8>, nat), Error>(e),
            }),
        decreases s0.len() - cnt,
    {
        let ghost t = lexer.remaining();
        let ghost rl = run_len(t) as int;
        proof {
            lemma_run_len(t);
        }
        let start = out.len();
        run_into(lexer, out, capture);
        let is_decoded = matches!(tier, Tier::Decoded);
        if is_decoded {
            proof {
                assert(out@.skip(start as int) =~= t.take(rl));
            }
            if !utf8_check(out, start) {
                proof {
                    lemma_str_model_utf8(t);
                }
                return Err(Error::Utf8);
            }
        }
        proof {
            lemma_str_model_step(t, tier);
        }
        match lexer.take_next() {
            None => {
                proof {
                    assert(rl == t.len());
                }
                return Err(Error::Eof);
            },
            Some(c) => {
                proof {
                    assert(c == t.skip(rl)[0]);
                    assert(c == t[rl]);
                    assert(!is_run_byte(c));
                }
                if c == 0x22 {
                    proof {
                        assert(t.skip(rl).skip(1) =~= t.skip(rl + 1));
                        assert(s0.skip(cnt).skip(rl + 1) =~= s0.skip(cnt + rl + 1));
                        if capture {
                            assert(out@ =~= out0 + (acc + t.take(rl)));
                        }
                    }
                    return Ok(());
                } else if c == 0x5C {
                    proof {
                        assert(t.skip(rl).skip(1) =~= t.skip(rl + 1));
                    }
                    let ghost rest = t.skip(rl + 1);
                    match esc_step(lexer, out, tier, capture) {
                        Err(e) => {
                            return Err(e);
                        },
                        Ok(_) => {
                        },
                    }
                    proof {
                        lemma_esc_model_len(rest, tier);
                        let p = esc_model(rest, tier)->Ok_0;
                        let el = p.1 as int;
                        let ebfull = if tier is Raw {
                            seq![0x5Cu8] + p.0
                        } else {
                            p.0
                        };
                        assert(rest.skip(el) =~= t.skip(rl + 1 + el));
                        assert(lexer.remaining() == s0.skip(cnt + rl + 1 + el)) by {
                            assert(s0.skip(cnt).skip(rl + 1 + el) =~= s0.skip(cnt + rl + 1 + el));
                        }
                        if capture {
                            assert(out@ =~= out0 + (acc + t.take(rl) + ebfull));
                        }
                        match str_model(lexer.remaining(), tier) {
                            Ok(q) => {
                                assert(acc + (t.take(rl) + ebfull + q.0) =~= (acc + t.take(rl)
                                    + ebfull) + q.0);
                                assert(str_model(s0, tier) == Ok::<(Seq<u8>, nat), Error>(
                                    ((acc + t.take(rl) + ebfull) + q.0, (cnt + rl + 1 + el
                                        + q.1) as nat),
                                ));
                            },
                            Err(_) => {
                            },
                        }
                        acc = acc + t.take(rl) + ebfull;
                        cnt = cnt + rl + 1 + el;
                    }
                } else {
                    proof {
                        assert(c <= 0x1F);
                    }
                    return Err(Error::Control);
                }
            },
        }
    }
}

/// A successfully lexed string consumes at least its closing quote and no
/// more than the whole input.
pub proof fn lemma_str_model_len(s: Seq<u8>, tier: Tier)
    ensures
        str_model(s, tier) matches Ok(p) ==> 1 <= p.1 <= s.len(),
    decreases s.len(),
{
    reveal(str_model);
    lemma_run_len(s);
    let rl = run_len(s) as int;
    if rl < s.len() && s[rl] == 0x5C {
        lemma_esc_model_len(s.skip(rl + 1), tier);
        match esc_model(s.skip(rl + 1), tier) {
            Ok(p) => {
                let el = p.1 as int;
                lemma_str_model_len(s.skip(rl + 1 + el), tier);
            },
            Err(_) => {
            },
        }
    }
}


/// How the structural tier reads a `\uXXXX` escape standing at the very
/// head of the input: the four digits are checked and the machine goes on
/// six bytes later.
proof fn lemma_str_raw_hex_step(s2: Seq<u8>)
    requires
        s2.len() >= 2,
        s2[0] == 0x5C,
        s2[1] == 0x75,
    ensures
        (match escape::hex4_model(s2.skip(2)) {
            Err(e) => str_model(s2, Tier::Raw) == Err::<(Seq<u8>, nat), Error>(Error::Escape(e)),
            Ok(_) => (match str_model(s2.skip(6), Tier::Raw) {
                Err(e) => str_model(s2, Tier::Raw) == Err::<(Seq<u8>, nat), Error>(e),
                Ok(q) => str_model(s2, Tier::Raw) matches Ok(t) && t.1 == 6 + q.1,
            }),
        }),
{
    reveal_with_fuel(str_model, 2);
    reveal(esc_model);
    assert(run_len(s2) == 0);
    let rest2 = s2.skip(1);
    assert(rest2[0] == 0x75);
    assert(rest2.skip(1) =~= s2.skip(2));
    lemma_esc_model_len(rest2, Tier::Raw);
    match escape::hex4_model(s2.skip(2)) {
        Err(_) => {
        },
        Ok(_) => {
            assert(s2.skip(0 + 1 + 5int) =~= s2.skip(6int));
        },
    }
}

/// Tier agreement for strings: the structural tier and the decoding tier
/// accept exactly the same strings and consume the same bytes, except that
/// only the decoding tier can fail, with a Unicode error, on content whose
/// byte structure is sound.
#[verifier::rlimit(100)]
#[verifier::spinoff_prover]
pub proof fn lemma_str_tier_agreement(s: Seq<u8>)
    ensures
        (match (str_model(s, Tier::Raw), str_model(s, Tier::Decoded)) {
            (Ok(p), Ok(q)) => p.1 == q.1,
            (Ok(_), Err(e)) => is_unicode(e),
            (Err(_), Ok(_)) => false,
            (Err(e), Err(e2)) => e2 == e || is_unicode(e2),
        }),
    decreases s.len(),
{
    reveal(str_model);
    reveal(esc_model);
    lemma_run_len(s);
    let rl = run_len(s) as int;
    let run = s.take(rl);
    if valid_utf8(run) && rl < s.len() && s[rl] == 0x5C {
        let rest = s.skip(rl + 1);
        if rest.len() > 0 {
            let c0 = rest[0];
            if c0 == 0x75 {
                match escape::hex4_model(rest.skip(1)) {
                    Err(_) => {
                    },
                    Ok(h) => {
                        // the structural tier consumes the escape and goes on
                        let s2 = s.skip(rl + 1 + 5);
                        assert(rest.skip(5) =~= s2);
                        if 0xD800 <= h && h <= 0xDBFF {
                            // a high surrogate: the decoding tier reads the
                            // low half at once, the structural tier sees it
                            // as a second, independent escape
                            let low = escape::low_surrogate_model(rest.skip(1).skip(4), h);
                            assert(rest.skip(1).skip(4) =~= rest.skip(5));
                            if s2.len() >= 2 && s2[0] == 0x5C && s2[1] == 0x75 {
                                lemma_str_raw_hex_step(s2);
                                assert(s2.skip(2) =~= rest.skip(5).skip(2));
                                match escape::hex4_model(s2.skip(2)) {
                                    Err(_) => {
                                    },
                                    Ok(l) => {
                                        if 0xDC00 <= l && l <= 0xDFFF {
                                            let s3 = s.skip(rl + 1 + 11);
                                            assert(s2.skip(6int) =~= s3);
                                            lemma_str_tier_agreement(s3);
                                        }
                                    },
                                }
                            }
                        } else if 0xDC00 <= h && h <= 0xDFFF {
                            // a lone low surrogate: only the decoding tier
                            // objects, with a Unicode error
                        } else {
                            lemma_str_tier_agreement(s2);
                        }
                    },
                }
            } else {
                match escape::lit_model(c0) {
                    None => {
                    },
                    Some(_) => {
                        let s2 = s.skip(rl + 1 + 1);
                        assert(rest.skip(1) =~= s2);
                        lemma_str_tier_agreement(s2);
                    },
                }
            }
        }
    }
}

/// The UTF-8 encoding of a Unicode scalar value is valid UTF-8.
proof fn lemma_encode_scalar_valid(u: u32)
    requires
        is_scalar(u),
    ensures
        valid_utf8(encode_scalar(u)),
{
    let e = encode_scalar(u);
    if u <= 0x7F {
        assert(((u & 0x7F) as u8) <= 0x7F && ((u & 0x7F) as u8) as u32 & 0x7F == u) by (bit_vector)
            requires
                u <= 0x7F,
        ;
        assert((((u & 0x7F) as u8) & 0x7F) as u32 == ((u & 0x7F) as u8) as u32 & 0x7F)
            by (bit_vector);
        assert(vstd::utf8::valid_first_scalar(e));
        assert(vstd::utf8::pop_first_scalar(e) =~= Seq::<u8>::empty());
    } else if u <= 0x7FF {
        let b0 = 0xC0u8 | ((u >> 6u32) & 0x1F) as u8;
        let b1 = 0x80u8 | (u & 0x3F) as u8;
        assert(0xC0 <= (0xC0u8 | ((u >> 6u32) & 0x1F) as u8) <= 0xDF && 0x80 <= (0x80u8 | (u
            & 0x3F) as u8) <= 0xBF && (((((0xC0u8 | ((u >> 6u32) & 0x1F) as u8) & 0x1F) as u32)
            << 6u32) | (((0x80u8 | (u & 0x3F) as u8) & 0x3F) as u32)) == u) by (bit_vector)
            requires
                0x80 <= u <= 0x7FF,
        ;
        assert(e == seq![b0, b1]);
        assert(vstd::utf8::codepoint_width_2(b0, b1) == u);
        assert(vstd::utf8::valid_first_scalar(e));
        assert(vstd::utf8::pop_first_scalar(e) =~= Seq::<u8>::empty());
    } else if u <= 0xFFFF {
        let b0 = 0xE0u8 | ((u >> 12u32) & 0x0F) as u8;
        let b1 = 0x80u8 | ((u >> 6u32) & 0x3F) as u8;
        let b2 = 0x80u8 | (u & 0x3F) as u8;
        assert(0xE0 <= (0xE0u8 | ((u >> 12u32) & 0x0F) as u8) <= 0xEF && 0x80 <= (0x80u8 | ((u
            >> 6u32) & 0x3F) as u8) <= 0xBF && 0x80 <= (0x80u8 | (u & 0x3F) as u8) <= 0xBF && ((((
        (0xE0u8 | ((u >> 12u32) & 0x0F) as u8) & 0x0F) as u32) << 12u32) | ((((0x80u8 | ((u
            >> 6u32) & 0x3F) as u8) & 0x3F) as u32) << 6u32) | (((0x80u8 | (u & 0x3F) as u8)
            & 0x3F) as u32)) == u) by (bit_vector)
            requires
                0x800 <= u <= 0xFFFF,
        ;
        assert(e == seq![b0, b1, b2]);
        assert(vstd::utf8::codepoint_width_3(b0, b1, b2) == u);
        assert(vstd::utf8::valid_first_scalar(e));
        assert(vstd::utf8::pop_first_scalar(e) =~= Seq::<u8>::empty());
    } else {
        let b0 = 0xF0u8 | ((u >> 18u32) & 0x7) as u8;
        let b1 = 0x80u8 | ((u >> 12u32) & 0x3F) as u8;
        let b2 = 0x80u8 | ((u >> 6u32) & 0x3F) as u8;
        let b3 = 0x80u8 | (u & 0x3F) as u8;
        assert(0xF0 <= (0xF0u8 | ((u >> 18u32) & 0x7) as u8) <= 0xF7 && 0x80 <= (0x80u8 | ((u
            >> 12u32) & 0x3F) as u8) <= 0xBF && 0x80 <= (0x80u8 | ((u >> 6u32) & 0x3F) as u8)
            <= 0xBF && 0x80 <= (0x80u8 | (u & 0x3F) as u8) <= 0xBF && (((((0xF0u8 | ((u >> 18u32)
            & 0x7) as u8) & 0x07) as u32) << 18u32) | ((((0x80u8 | ((u >> 12u32) & 0x3F) as u8)
            & 0x3F) as u32) << 12u32) | ((((0x80u8 | ((u >> 6u32) & 0x3F) as u8) & 0x3F) as u32)
            << 6u32) | (((0x80u8 | (u & 0x3F) as u8) & 0x3F) as u32)) == u) by (bit_vector)
            requires
                0x10000 <= u <= 0x10FFFF,
        ;
        assert(e == seq![b0, b1, b2, b3]);
        assert(vstd::utf8::codepoint_width_4(b0, b1, b2, b3) == u);
        assert(vstd::utf8::valid_first_scalar(e));
        assert(vstd::utf8::pop_first_scalar(e) =~= Seq::<u8>::empty());
    }
    assert(valid_utf8(Seq::<u8>::empty()));
    assert(valid_utf8(e));
}

/// Valid UTF-8 byte sequences stay valid under concatenation.
proof fn lemma_valid_utf8_concat(a: Seq<u8>, b: Seq<u8>)
    requires
        valid_utf8(a),
        valid_utf8(b),
    ensures
        valid_utf8(a + b),
    decreases a.len(),
{
    if a.len() == 0 {
        assert(a + b =~= b);
    } else {
        let w = vstd::utf8::length_of_first_scalar(a);
        assert(1 <= w <= a.len());
        assert(vstd::utf8::valid_first_scalar(a + b));
        assert(vstd::utf8::decode_first_codepoint(a + b) == vstd::utf8::decode_first_codepoint(
            a,
        ));
        assert(vstd::utf8::pop_first_scalar(a + b) =~= vstd::utf8::pop_first_scalar(a) + b);
        lemma_valid_utf8_concat(vstd::utf8::pop_first_scalar(a), b);
    }
}

/// The content that the decoded tier captures is always valid UTF-8: the
/// plain runs are validated and the escapes contribute encodings of Unicode
/// scalar values.
pub proof fn lemma_str_model_decoded_valid(s: Seq<u8>)
    ensures
        str_model(s, Tier::Decoded) matches Ok(p) ==> valid_utf8(p.0),
    decreases s.len(),
{
    reveal(str_model);
    reveal(esc_model);
    lemma_run_len(s);
    let rl = run_len(s) as int;
    let run = s.take(rl);
    if str_model(s, Tier::Decoded) is Ok && rl < s.len() && s[rl] == 0x5C {
        let rest = s.skip(rl + 1);
        lemma_esc_model_len(rest, Tier::Decoded);
        match esc_model(rest, Tier::Decoded) {
            Err(_) => {
            },
            Ok(p) => {
                escape::lemma_esc_char_scalar(rest[0], rest.skip(1));
                match escape::esc_char_model(rest[0], rest.skip(1)) {
                    Err(_) => {
                    },
                    Ok(u) => {
                        lemma_encode_scalar_valid(u);
                        lemma_str_model_decoded_valid(s.skip(rl + 1 + p.1));
                        match str_model(s.skip(rl + 1 + p.1), Tier::Decoded) {
                            Err(_) => {
                            },
                            Ok(q) => {
                                lemma_valid_utf8_concat(run, p.0);
                                lemma_valid_utf8_concat(run + p.0, q.0);
                            },
                        }
                    },
                }
            },
        }
    }
}

/// String lexing that never allocates.
pub trait Lex: escape::Lex {
    /// Read a string without saving it.
    ///
    /// This validates the byte structure of the string (escape kinds, hex
    /// digits, absence of unescaped control bytes, termination), but neither
    /// combines surrogate pairs nor checks UTF-8.
    fn str_ignore(&mut self) -> (r: Result<(), Error>)
        ensures
            str_model(old(self).remaining(), Tier::Raw) matches Ok(p) ==> r is Ok
                && final(self).remaining() == old(self).remaining().skip(p.1 as int),
            str_model(old(self).remaining(), Tier::Raw) matches Err(e) ==> r == Err::<(), Error>(
                e,
            ),
    {
        let mut sink: Vec<u8> = Vec::new();
        str_core(self, &mut sink, Tier::Raw, false)
    }
}

impl<T: escape::Lex> Lex for T {

}

/// String lexing that captures bytes into owned buffers.
pub trait LexWrite: escape::Lex {
    /// Read a string to bytes, copying escape sequences one-to-one.
    ///
    /// `bytes` is overwritten with the string's raw content, without the
    /// closing quote.
    fn str_bytes(&mut self, bytes: &mut Vec<u8>) -> (r: Result<(), Error>)
        ensures
            str_model(old(self).remaining(), Tier::Raw) matches Ok(p) ==> r is Ok
                && final(self).remaining() == old(self).remaining().skip(p.1 as int)
                && final(bytes)@ == p.0,
            str_model(old(self).remaining(), Tier::Raw) matches Err(e) ==> r == Err::<(), Error>(
                e,
            ),
    {
        bytes.clear();
        str_core(self, bytes, Tier::Raw, true)
    }

    /// Read a string to bytes, decoding escape sequences but passing the
    /// bytes between them through without UTF-8 validation.
    fn str_binary(&mut self) -> (r: Result<Vec<u8>, Error>)
        ensures
            str_model(old(self).remaining(), Tier::Binary) matches Ok(p) ==> r matches Ok(b)
                && b@ == p.0 && final(self).remaining() == old(self).remaining().skip(p.1 as int),
            str_model(old(self).remaining(), Tier::Binary) matches Err(e) ==> r == Err::<
                Vec<u8>,
                Error,
            >(e),
    {
        let mut out: Vec<u8> = Vec::new();
        match str_core(self, &mut out, Tier::Binary, true) {
            Ok(_) => Ok(out),
            Err(e) => Err(e),
        }
    }
}

impl<T: escape::Lex> LexWrite for T {

}

/// String lexing that decodes escape sequences into UTF-8 content.
pub trait LexAlloc: LexWrite {
    /// Lex a JSON string to its decoded byte content, which is UTF-8.
    fn str_string(&mut self) -> (r: Result<Vec<u8>, Error>)
        ensures
            str_model(old(self).remaining(), Tier::Decoded) matches Ok(p) ==> r matches Ok(b)
                && b@ == p.0 && final(self).remaining() == old(self).remaining().skip(p.1 as int),
            str_model(old(self).remaining(), Tier::Decoded) matches Err(e) ==> r == Err::<
                Vec<u8>,
                Error,
            >(e),
            r matches Ok(b) ==> valid_utf8(b@),
    {
        let ghost s0 = self.remaining();
        let mut out: Vec<u8> = Vec::new();
        match str_core(self, &mut out, Tier::Decoded, true) {
            Ok(_) => {
                proof {
                    lemma_str_model_decoded_valid(s0);
                }
                Ok(out)
            },
            Err(e) => Err(e),
        }
    }
}

impl<T: escape::Lex> LexAlloc for T {

}

/// The lower-case hexadecimal digit for a value below 16.
pub open spec fn hex_digit(d: u8) -> u8 {
    if d < 10 {
        (0x30 + d) as u8
    } else {
        (0x61 + (d - 10)) as u8
    }
}

/// How one content byte appears in the serialized form of a JSON string:
/// the five common escapes are written symbolically, other low control
/// bytes as Unicode escapes, everything else verbatim.
pub open spec fn escaped_byte(c: u8) -> Seq<u8> {
    if c == 0x22 {
        seq![0x5Cu8, 0x22u8]
    } else if c == 0x5C {
        seq![0x5Cu8, 0x5Cu8]
    } else if c == 0x0A {
        seq![0x5Cu8, 0x6Eu8]
    } else if c == 0x0D {
        seq![0x5Cu8, 0x72u8]
    } else if c == 0x09 {
        seq![0x5Cu8, 0x74u8]
    } else if c < 20 {
        seq![0x5Cu8, 0x75u8, 0x30u8, 0x30u8, hex_digit(c / 16), hex_digit(c % 16)]
    } else {
        seq![c]
    }
}

/// The serialized content of a JSON string, without the surrounding quotes.
pub open spec fn str_escaped(s: Seq<u8>) -> Seq<u8>
    decreases s.len(),
{
    if s.len() == 0 {
        Seq::empty()
    } else {
        escaped_byte(s[0]) + str_escaped(s.skip(1))
    }
}

/// Append the serialized form of the string content `s`, with surrounding
/// quotes, to `out`.
pub(crate) fn escape_into(out: &mut Vec<u8>, s: &Vec<u8>)
    ensures
        final(out)@ == old(out)@ + seq![0x22u8] + str_escaped(s@) + seq![0x22u8],
{
    out.push(0x22);
    let ghost base = out@;
    let mut i: usize = 0;
    proof {
        assert(base =~= old(out)@ + seq![0x22u8]);
        assert(str_escaped(s@.skip(0)) == str_escaped(s@)) by {
            assert(s@.skip(0) =~= s@);
        }
        assert(base + Seq::<u8>::empty() =~= base);
    }
    while i < s.len()
        invariant
            0 <= i <= s@.len(),
            base == old(out)@ + seq![0x22u8],
            str_escaped(s@) == out@.skip(base.len() as int) + str_escaped(s@.skip(i as int)),
            out@.len() >= base.len(),
            out@.subrange(0, base.len() as int) == base,
        decreases s@.len() - i,
    {
        let ghost pre = out@;
        let c = s[i];
        if c == 0x22 {
            out.push(0x5C);
            out.push(0x22);
        } else if c == 0x5C {
            out.push(0x5C);
            out.push(0x5C);
        } else if c == 0x0A {
            out.push(0x5C);
            out.push(0x6E);
        } else if c == 0x0D {
            out.push(0x5C);
            out.push(0x72);
        } else if c == 0x09 {
            out.push(0x5C);
            out.push(0x74);
        } else if c < 20 {
            out.push(0x5C);
            out.push(0x75);
            out.push(0x30);
            out.push(0x30);
            let hi = c / 16;
            let lo = c % 16;
            out.push(
                if hi < 10 {
                    0x30 + hi
                } else {
                    0x61 + (hi - 10)
                },
            );
            out.push(
                if lo < 10 {
                    0x30 + lo
                } else {
                    0x61 + (lo - 10)
                },
            );
        } else {
            out.push(c);
        }
        proof {
            assert(out@ =~= pre + escaped_byte(s@[i as int]));
            assert(s@.skip(i as int).skip(1) =~= s@.skip(i + 1));
            assert(out@.skip(base.len() as int) =~= pre.skip(base.len() as int) + escaped_byte(
                s@[i as int],
            ));
            assert(str_escaped(s@) =~= out@.skip(base.len() as int) + str_escaped(
                s@.skip(i + 1),
            ));
            assert(out@.subrange(0, base.len() as int) =~= base);
        }
        i = i + 1;
    }
    proof {
        assert(str_escaped(s@.skip(i as int)) =~= Seq::<u8>::empty());
        assert(out@ =~= out@.subrange(0, base.len() as int) + out@.skip(base.len() as int));
        assert(out@ =~= base + str_escaped(s@));
    }
    out.push(0x22);
    proof {
        assert(out@ =~= old(out)@ + seq![0x22u8] + str_escaped(s@) + seq![0x22u8]);
    }
}

/// Wrapper type to facilitate serializing strings as JSON.
pub struct Display {
    s: Vec<u8>,
}

impl Display {
    /// Create a new string to be serialized as a JSON string.
    pub fn new(s: Vec<u8>) -> (d: Self)
        ensures
            d.str() == s@,
    {
        Self { s }
    }

    /// The string content that this wrapper serializes.
    pub closed spec fn str(&self) -> Seq<u8> {
        self.s@
    }

    /// The serialized form: the content between quotes, escaped.
    pub fn to_bytes(&self) -> (r: Vec<u8>)
        ensures
            r@ == seq![0x22u8] + str_escaped(self.str()) + seq![0x22u8],
    {
        let mut out: Vec<u8> = Vec::new();
        escape_into(&mut out, &self.s);
        proof {
            assert(out@ =~= seq![0x22u8] + str_escaped(self.s@) + seq![0x22u8]);
        }
        out
    }
}

} // verus!

