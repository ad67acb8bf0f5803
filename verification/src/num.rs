//! Positive numbers.
//!
//! The lexers in this module accept numbers matching the regular expression
//! `(0|[1-9][0-9]*)(\.[0-9]+)?([eE][+-]?[0-9]+)?`.
//!
//! This leads numbers like `007` to be lexed as three separate numbers,
//! `0`, `0`, and `7`: after a leading `0`, only `.`, `e` or `E` can continue
//! the number.  To reject such inputs, verify that a number is not followed
//! by a digit, e.g. with [`crate::Read::peek_next`].
//!
//! A leading `-` is *not* consumed here; the caller consumes it and passes it
//! as a prefix to [`LexWrite::num_string`], so that it still appears in the
//! captured text and all positional markers account for it.

use vstd::prelude::*;
use crate::read::Read;

verus! {

/// Number lexing error.
#[derive(Debug, Clone, Copy, PartialEq, Eq, Structural)]
pub enum Error {
    /// The only thing that can go wrong during number lexing is
    /// that we are not reading a digit where we expected one,
    /// as in ` `, `0.` or `0.1e`.
    ExpectedDigit,
}

/// Whether `c` is an ASCII digit.
pub open spec fn is_digit(c: u8) -> bool {
    0x30 <= c && c <= 0x39
}

/// The length of the digit prefix of `s`.
pub open spec fn digits_run(s: Seq<u8>) -> nat
    decreases s.len(),
{
    if s.len() > 0 && is_digit(s[0]) {
        (1 + digits_run(s.skip(1))) as nat
    } else {
        0
    }
}

/// The digit prefix of a byte sequence never exceeds its length, consists of
/// digits, and is never followed by a digit.
pub proof fn lemma_digits_run(s: Seq<u8>)
    ensures
        digits_run(s) <= s.len(),
        forall|j: int| 0 <= j < digits_run(s) ==> is_digit(s[j]),
        digits_run(s) < s.len() ==> !is_digit(s[digits_run(s) as int]),
    decreases s.len(),
{
    if s.len() > 0 && is_digit(s[0]) {
        lemma_digits_run(s.skip(1));
        assert forall|j: int| 0 <= j < digits_run(s) implies is_digit(s[j]) by {
            if j > 0 {
                assert(s.skip(1)[j - 1] == s[j]);
            }
        }
        if digits_run(s) < s.len() {
            assert(s.skip(1)[digits_run(s.skip(1)) as int] == s[digits_run(s) as int]);
        }
    }
}

/// The shape of a number at the head of a byte sequence: how many bytes it
/// occupies and where its leading zero, decimal dot and exponent letter sit,
/// relative to the start of the number.
pub ghost struct NumShape {
    /// bytes occupied by the number
    pub len: nat,
    /// position of the leading zero, if the integer part is `0`
    pub zero: Option<nat>,
    /// position of the decimal dot, if present
    pub dot: Option<nat>,
    /// position of the exponent letter, if present
    pub exp: Option<nat>,
}

/// The exponent part of a number: continues `s` at offset `len` with
/// `[eE][+-]?[0-9]+`, if an exponent is present at all.
pub open spec fn num_model_exp(
    s: Seq<u8>,
    len: nat,
    zero: Option<nat>,
    dot: Option<nat>,
) -> Result<NumShape, Error> {
    let u = s.skip(len as int);
    if u.len() > 0 && (u[0] == 0x65 || u[0] == 0x45) {
        let sgn: nat = if u.len() > 1 && (u[1] == 0x2B || u[1] == 0x2D) {
            1
        } else {
            0
        };
        let elen = digits_run(u.skip(1 + sgn as int));
        if elen == 0 {
            Err(Error::ExpectedDigit)
        } else {
            Ok(NumShape { len: len + 1 + sgn + elen, zero, dot, exp: Some(len) })
        }
    } else {
        Ok(NumShape { len, zero, dot, exp: None })
    }
}

/// Lexing a number from the head of `s`: its shape, or the error raised at
/// the first position where a required digit is missing.
pub open spec fn num_model(s: Seq<u8>) -> Result<NumShape, Error> {
    if s.len() == 0 || !is_digit(s[0]) {
        Err(Error::ExpectedDigit)
    } else {
        let zero: Option<nat> = if s[0] == 0x30 {
            Some(0nat)
        } else {
            None
        };
        let ilen: nat = if s[0] == 0x30 {
            1
        } else {
            digits_run(s)
        };
        let t = s.skip(ilen as int);
        if t.len() > 0 && t[0] == 0x2E {
            let flen = digits_run(t.skip(1));
            if flen == 0 {
                Err(Error::ExpectedDigit)
            } else {
                num_model_exp(s, ilen + 1 + flen, zero, Some(ilen))
            }
        } else {
            num_model_exp(s, ilen, zero, None)
        }
    }
}

/// A successfully lexed number occupies at least one byte and no more than
/// the whole input.
pub proof fn lemma_num_model_len(s: Seq<u8>)
    ensures
        num_model(s) matches Ok(m) ==> 1 <= m.len <= s.len(),
{
    if s.len() > 0 && is_digit(s[0]) {
        let ilen: nat = if s[0] == 0x30 {
            1
        } else {
            digits_run(s)
        };
        lemma_digits_run(s);
        let t = s.skip(ilen as int);
        lemma_digits_run(t.skip(1));
        lemma_num_model_exp_len(s, ilen);
        if t.len() > 0 && t[0] == 0x2E {
            let flen = digits_run(t.skip(1));
            if flen > 0 {
                lemma_num_model_exp_len(s, ilen + 1 + flen);
            }
        }
    }
}

/// Helper for [`lemma_num_model_len`]: the exponent part stays within `s`.
proof fn lemma_num_model_exp_len(s: Seq<u8>, len: nat)
    requires
        len <= s.len(),
    ensures
        forall|zero: Option<nat>, dot: Option<nat>|
            #[trigger] num_model_exp(s, len, zero, dot) matches Ok(m) ==> len <= m.len <= s.len(),
{
    let u = s.skip(len as int);
    lemma_digits_run(u.skip(1));
    if u.len() > 1 {
        lemma_digits_run(u.skip(2));
    }
}

/// Positions of various parts in the string representation of a number.
#[derive(Debug, Default, Clone, Copy, PartialEq, Eq)]
pub struct Parts {
    /// position of the leading zero (`0`), if the integer part is zero
    pub zero: Option<usize>,
    /// position of the dot (`.`)
    pub dot: Option<usize>,
    /// position of the exponent character (`e`/`E`)
    pub exp: Option<usize>,
}

/// Whether the positions in `p` are those of the shape `m`, shifted by the
/// length `off` of the prefix that precedes the number in the captured text.
pub open spec fn parts_match(p: Parts, m: NumShape, off: int) -> bool {
    &&& match (p.zero, m.zero) {
        (Some(a), Some(b)) => a == b + off,
        (None, None) => true,
        _ => false,
    }
    &&& match (p.dot, m.dot) {
        (Some(a), Some(b)) => a == b + off,
        (None, None) => true,
        _ => false,
    }
    &&& match (p.exp, m.exp) {
        (Some(a), Some(b)) => a == b + off,
        (None, None) => true,
        _ => false,
    }
}

impl Parts {
    /// Return true if the number contains neither a dot nor an exponent.
    pub fn is_int(&self) -> (r: bool)
        ensures
            r == (self.dot is None && self.exp is None),
    {
        self.dot.is_none() && self.exp.is_none()
    }
}

/// Consume the digit prefix of the input, appending it to `out` if `capture`
/// is set, and return its length.
fn digits_into<L: Read + ?Sized>(lexer: &mut L, out: &mut Vec<u8>, capture: bool) -> (n: usize)
    ensures
        n == digits_run(old(lexer).remaining()),
        final(lexer).remaining() == old(lexer).remaining().skip(n as int),
        capture ==> final(out)@ == old(out)@ + old(lexer).remaining().take(n as int),
        !capture ==> final(out)@ == old(out)@,
{
    let ghost s0 = lexer.remaining();
    proof {
        lexer.remaining_bounded();
        assert(s0.take(0) =~= Seq::<u8>::empty());
        assert(out@ + s0.take(0) =~= out@);
        assert(s0.skip(0) =~= s0);
    }
    let mut n: usize = 0;
    loop
        invariant
            s0 == old(lexer).remaining(),
            n <= s0.len() <= usize::MAX,
            digits_run(s0) == n + digits_run(s0.skip(n as int)),
            lexer.remaining() == s0.skip(n as int),
            capture ==> out@ == old(out)@ + s0.take(n as int),
            !capture ==> out@ == old(out)@,
        decreases s0.len() - n,
    {
        let next = lexer.peek_next();
        match next {
            Some(c) => {
                if 0x30 <= c && c <= 0x39 {
                    lexer.take_next();
                    if capture {
                        out.push(c);
                    }
                    proof {
                        assert(s0.skip(n as int).skip(1) =~= s0.skip(n + 1));
                        assert(s0.take(n + 1) =~= s0.take(n as int).push(s0[n as int]));
                        if capture {
                            assert(out@ =~= old(out)@ + s0.take(n + 1));
                        }
                    }
                    n = n + 1;
                } else {
                    proof {
                        assert(digits_run(s0.skip(n as int)) == 0);
                    }
                    return n;
                }
            },
            None => {
                proof {
                    assert(digits_run(s0.skip(n as int)) == 0);
                }
                return n;
            },
        }
    }
}

/// Lex the integer part of a number: a single `0` or a nonempty digit run.
fn num_int<L: Read + ?Sized>(lexer: &mut L, out: &mut Vec<u8>, capture: bool) -> (r: Result<
    usize,
    Error,
>)
    ensures
        ({
            let s = old(lexer).remaining();
            match r {
                Ok(n) => s.len() > 0 && is_digit(s[0]) && n as nat == (if s[0] == 0x30 {
                    1nat
                } else {
                    digits_run(s)
                }) && 1 <= n <= s.len() && final(lexer).remaining() == s.skip(n as int) && (capture
                    ==> final(out)@ == old(out)@ + s.take(n as int)),
                Err(e) => e == Error::ExpectedDigit && (s.len() == 0 || !is_digit(s[0])),
            }
        }),
        !capture ==> final(out)@ == old(out)@,
{
    let ghost s0 = lexer.remaining();
    let c = match lexer.peek_next() {
        Some(c) => c,
        None => {
            return Err(Error::ExpectedDigit);
        },
    };
    if !(0x30 <= c && c <= 0x39) {
        return Err(Error::ExpectedDigit);
    }
    if c == 0x30 {
        lexer.take_next();
        if capture {
            out.push(c);
        }
        proof {
            assert(s0.take(1) =~= seq![s0[0]]);
            if capture {
                assert(out@ =~= old(out)@ + s0.take(1));
            }
        }
        Ok(1)
    } else {
        let n = digits_into(lexer, out, capture);
        proof {
            lemma_digits_run(s0);
        }
        Ok(n)
    }
}

/// Lex the fractional part of a number, `.` followed by at least one digit,
/// if a dot follows at all; return how many bytes it occupied.
fn num_frac<L: Read + ?Sized>(lexer: &mut L, out: &mut Vec<u8>, capture: bool) -> (r: Result<
    usize,
    Error,
>)
    ensures
        ({
            let t = old(lexer).remaining();
            if t.len() > 0 && t[0] == 0x2E {
                let flen = digits_run(t.skip(1));
                if flen == 0 {
                    r == Err::<usize, Error>(Error::ExpectedDigit)
                } else {
                    r matches Ok(n) && n == 1 + flen && n <= t.len() && final(lexer).remaining()
                        == t.skip(n as int) && (capture ==> final(out)@ == old(out)@ + t.take(
                        n as int,
                    ))
                }
            } else {
                r matches Ok(n) && n == 0 && final(lexer).remaining() == t && (capture ==> final(out)@ == old(out)@)
            }
        }),
        !capture ==> final(out)@ == old(out)@,
{
    let ghost t = lexer.remaining();
    let c = lexer.peek_next();
    let has_dot = match c {
        Some(d) => d == 0x2E,
        None => false,
    };
    if !has_dot {
        return Ok(0);
    }
    proof {
        lexer.remaining_bounded();
    }
    lexer.take_next();
    if capture {
        out.push(0x2E);
    }
    proof {
        assert(t.skip(1) == lexer.remaining());
    }
    let fl = digits_into(lexer, out, capture);
    if fl == 0 {
        return Err(Error::ExpectedDigit);
    }
    proof {
        lemma_digits_run(t.skip(1));
        assert(t.skip(1).skip(fl as int) =~= t.skip(1 + fl as int));
        if capture {
            assert(t.take(1 + fl as int) =~= seq![t[0]] + t.skip(1).take(fl as int));
            assert(out@ =~= old(out)@ + t.take(1 + fl as int));
        }
    }
    Ok(1 + fl)
}

/// Lex the exponent part of a number, `e`/`E`, an optional sign and at least
/// one digit, if an exponent letter follows at all; return how many bytes it
/// occupied.
fn num_exp<L: Read + ?Sized>(lexer: &mut L, out: &mut Vec<u8>, capture: bool) -> (r: Result<
    usize,
    Error,
>)
    ensures
        ({
            let u = old(lexer).remaining();
            if u.len() > 0 && (u[0] == 0x65 || u[0] == 0x45) {
                let sgn: nat = if u.len() > 1 && (u[1] == 0x2B || u[1] == 0x2D) {
                    1
                } else {
                    0
                };
                let elen = digits_run(u.skip(1 + sgn as int));
                if elen == 0 {
                    r == Err::<usize, Error>(Error::ExpectedDigit)
                } else {
                    r matches Ok(n) && n == 1 + sgn + elen && n <= u.len()
                        && final(lexer).remaining() == u.skip(n as int) && (capture
                        ==> final(out)@ == old(out)@ + u.take(n as int))
                }
            } else {
                r matches Ok(n) && n == 0 && final(lexer).remaining() == u && (capture ==> final(out)@ == old(out)@)
            }
        }),
        !capture ==> final(out)@ == old(out)@,
{
    let ghost u = lexer.remaining();
    let c = lexer.peek_next();
    let has_exp = match c {
        Some(d) => d == 0x65 || d == 0x45,
        None => false,
    };
    if !has_exp {
        return Ok(0);
    }
    proof {
        lexer.remaining_bounded();
    }
    let e = lexer.take_next();
    if capture {
        out.push(match e {
            Some(e) => e,
            None => 0,
        });
    }
    proof {
        assert(u.skip(1) == lexer.remaining());
    }
    let c2 = lexer.peek_next();
    let has_sign = match c2 {
        Some(d) => d == 0x2B || d == 0x2D,
        None => false,
    };
    let ghost sgn: int = if has_sign {
        1int
    } else {
        0int
    };
    if has_sign {
        let sb = lexer.take_next();
        if capture {
            out.push(match sb {
                Some(sb) => sb,
                None => 0,
            });
        }
        proof {
            assert(u.skip(1).skip(1) =~= u.skip(2));
        }
    }
    let fl = digits_into(lexer, out, capture);
    if fl == 0 {
        return Err(Error::ExpectedDigit);
    }
    proof {
        lemma_digits_run(u.skip(1 + sgn));
        assert(u.skip(1 + sgn).skip(fl as int) =~= u.skip(1 + sgn + fl as int));
        if capture {
            assert(u.take(1 + sgn + fl as int) =~= u.take(1 + sgn) + u.skip(1 + sgn).take(
                fl as int,
            ));
            assert(out@ =~= old(out)@ + u.take(1 + sgn + fl as int));
        }
    }
    let n = 1 + (if has_sign {
        1usize
    } else {
        0usize
    }) + fl;
    Ok(n)
}

/// Lex a number, appending its text to `out` if `capture` is set, with all
/// positions offset by the length that `out` had on entry in that case.
#[verifier::rlimit(100)]
#[verifier::spinoff_prover]
fn num_core<L: Read + ?Sized>(lexer: &mut L, out: &mut Vec<u8>, capture: bool) -> (r: Result<
    Parts,
    Error,
>)
    ensures
        num_model(old(lexer).remaining()) matches Ok(m) ==> r matches Ok(p) && parts_match(
            p,
            m,
            if capture {
                old(out)@.len() as int
            } else {
                0
            },
        ) && final(lexer).remaining() == old(lexer).remaining().skip(m.len as int) && (capture
            ==> final(out)@ == old(out)@ + old(lexer).remaining().take(m.len as int)),
        num_model(old(lexer).remaining()) matches Err(e) ==> r == Err::<Parts, Error>(e),
        !capture ==> final(out)@ == old(out)@,
{
    let ghost s0 = lexer.remaining();
    let ghost out0 = out@;
    proof {
        lexer.remaining_bounded();
    }
    let mut parts = Parts { zero: None, dot: None, exp: None };

    let first = lexer.peek_next();
    let zero_pos = if capture {
        out.len()
    } else {
        0
    };
    let n1 = match num_int(lexer, out, capture) {
        Ok(n) => n,
        Err(e) => {
            return Err(e);
        },
    };
    let is_zero = match first {
        Some(c) => c == 0x30,
        None => false,
    };
    if is_zero {
        parts.zero = Some(zero_pos);
    }
    let ghost t = s0.skip(n1 as int);

    let dot_pos = if capture {
        out.len()
    } else {
        n1
    };
    let n2 = match num_frac(lexer, out, capture) {
        Ok(n) => n,
        Err(e) => {
            return Err(e);
        },
    };
    if n2 > 0 {
        parts.dot = Some(dot_pos);
    }
    proof {
        assert(n1 + n2 <= s0.len());
        if capture && n2 > 0 {
            assert(out@ =~= out0 + s0.take(n1 + n2 as int)) by {
                assert(s0.take(n1 + n2 as int) =~= s0.take(n1 as int) + t.take(n2 as int));
            }
        }
    }

    let exp_pos = if capture {
        out.len()
    } else {
        n1 + n2
    };
    let ghost u = s0.skip(n1 + n2 as int);
    proof {
        assert(t.skip(n2 as int) =~= u);
    }
    let n3 = match num_exp(lexer, out, capture) {
        Ok(n) => n,
        Err(e) => {
            return Err(e);
        },
    };
    if n3 > 0 {
        parts.exp = Some(exp_pos);
    }
    proof {
        assert(n1 + n2 + n3 <= s0.len());
        assert(u.skip(n3 as int) =~= s0.skip(n1 + n2 + n3 as int));
        if capture {
            assert(out@ =~= out0 + s0.take(n1 + n2 + n3 as int)) by {
                assert(s0.take(n1 + n2 + n3 as int) =~= s0.take(n1 + n2 as int) + u.take(
                    n3 as int,
                ));
            }
        }
        lemma_num_model_compose(s0, n1 as nat, n2 as nat, n3 as nat);
    }
    Ok(parts)
}

/// When the three parts of a number have been read with the lengths `n1`,
/// `n2` and `n3`, the model agrees with them.
proof fn lemma_num_model_compose(s: Seq<u8>, n1: nat, n2: nat, n3: nat)
    requires
        s.len() > 0,
        is_digit(s[0]),
        n1 == (if s[0] == 0x30 {
            1nat
        } else {
            digits_run(s)
        }),
        n1 <= s.len(),
        ({
            let t = s.skip(n1 as int);
            &&& (t.len() > 0 && t[0] == 0x2E) ==> n2 == 1 + digits_run(t.skip(1)) && n2 >= 2
            &&& !(t.len() > 0 && t[0] == 0x2E) ==> n2 == 0
        }),
        n1 + n2 <= s.len(),
        ({
            let u = s.skip(n1 + n2 as int);
            let sgn: nat = if u.len() > 1 && (u[1] == 0x2B || u[1] == 0x2D) {
                1
            } else {
                0
            };
            &&& (u.len() > 0 && (u[0] == 0x65 || u[0] == 0x45)) ==> n3 == 1 + sgn + digits_run(
                u.skip(1 + sgn as int),
            ) && digits_run(u.skip(1 + sgn as int)) >= 1
            &&& !(u.len() > 0 && (u[0] == 0x65 || u[0] == 0x45)) ==> n3 == 0
        }),
    ensures
        num_model(s) matches Ok(m) && m.len == n1 + n2 + n3 && m.zero == (if s[0] == 0x30 {
            Some(0nat)
        } else {
            None::<nat>
        }) && m.dot == (if n2 > 0 {
            Some(n1)
        } else {
            None::<nat>
        }) && m.exp == (if n3 > 0 {
            Some((n1 + n2) as nat)
        } else {
            None::<nat>
        }),
{
    let zero = if s[0] == 0x30 {
        Some(0nat)
    } else {
        None::<nat>
    };
    let t = s.skip(n1 as int);
    let u = s.skip(n1 + n2 as int);
    assert(t.skip(n2 as int) =~= u);
    let dot = if n2 > 0 {
        Some(n1)
    } else {
        None::<nat>
    };
    if t.len() > 0 && t[0] == 0x2E {
        let flen = digits_run(t.skip(1));
        assert(n2 == 1 + flen);
        assert(num_model(s) == num_model_exp(s, (n1 + n2) as nat, zero, dot));
    } else {
        assert(n2 == 0);
        assert(num_model(s) == num_model_exp(s, (n1 + n2) as nat, zero, dot));
    }
    if u.len() > 0 && (u[0] == 0x65 || u[0] == 0x45) {
        let sgn: nat = if u.len() > 1 && (u[1] == 0x2B || u[1] == 0x2D) {
            1
        } else {
            0
        };
        let elen = digits_run(u.skip(1 + sgn as int));
        assert(n3 == 1 + sgn + elen && elen >= 1);
        assert(num_model_exp(s, (n1 + n2) as nat, zero, dot) == Ok::<NumShape, Error>(
            NumShape {
                len: (n1 + n2 + n3) as nat,
                zero,
                dot,
                exp: Some((n1 + n2) as nat),
            },
        ));
    } else {
        assert(n3 == 0);
        assert(num_model_exp(s, (n1 + n2) as nat, zero, dot) == Ok::<NumShape, Error>(
            NumShape { len: (n1 + n2) as nat, zero, dot, exp: None },
        ));
    }
}

/// Number lexing that records only the number's shape.
pub trait Lex: Read {
    /// Lex a number and ignore its contents, saving only its parts.
    fn num_ignore(&mut self) -> (r: Result<Parts, Error>)
        ensures
            num_model(old(self).remaining()) matches Ok(m) ==> r matches Ok(p) && parts_match(
                p,
                m,
                0,
            ) && final(self).remaining() == old(self).remaining().skip(m.len as int),
            num_model(old(self).remaining()) matches Err(e) ==> r == Err::<Parts, Error>(e),
    {
        let mut sink: Vec<u8> = Vec::new();
        num_core(self, &mut sink, false)
    }
}

impl<T: Read> Lex for T {

}

/// Number lexing that captures the number's text.
pub trait LexWrite: Read {
    /// Lex a number, append its text to `num`, and save its parts.
    ///
    /// The positions in the parts are offset by the length that `num` had on
    /// entry, so that a previously written prefix (such as `-`) counts.
    fn num_bytes(&mut self, num: &mut Vec<u8>) -> (r: Result<Parts, Error>)
        ensures
            num_model(old(self).remaining()) matches Ok(m) ==> r matches Ok(p) && parts_match(
                p,
                m,
                old(num)@.len() as int,
            ) && final(self).remaining() == old(self).remaining().skip(m.len as int)
                && final(num)@ == old(num)@ + old(self).remaining().take(m.len as int),
            num_model(old(self).remaining()) matches Err(e) ==> r == Err::<Parts, Error>(e),
    {
        num_core(self, num, true)
    }

    /// Write a prefix and a number to a byte string and save its parts.
    fn num_string(&mut self, prefix: &[u8]) -> (r: Result<(Vec<u8>, Parts), Error>)
        ensures
            num_model(old(self).remaining()) matches Ok(m) ==> r matches Ok(np) && parts_match(
                np.1,
                m,
                prefix@.len() as int,
            ) && final(self).remaining() == old(self).remaining().skip(m.len as int) && np.0@
                == prefix@ + old(self).remaining().take(m.len as int),
            num_model(old(self).remaining()) matches Err(e) ==> r == Err::<(Vec<u8>, Parts), Error>(
                e,
            ),
    {
        let mut num = vstd::slice::slice_to_vec(prefix);
        let parts = match self.num_bytes(&mut num) {
            Ok(parts) => parts,
            Err(e) => {
                return Err(e);
            },
        };
        Ok((num, parts))
    }
}

impl<T: Read> LexWrite for T {

}

} // verus!
