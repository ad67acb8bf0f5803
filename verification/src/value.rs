//! Parsing and values.

use vstd::prelude::*;
use crate::num;
use crate::str;
use crate::token;
use crate::token::Expect;
use crate::Error;

verus! {

/// JSON value.
///
/// Numbers carry their exact textual form together with positional markers;
/// strings carry their decoded UTF-8 byte content.
#[derive(Debug, PartialEq)]
pub enum Value {
    /// `null`
    Null,
    /// `true` or `false`
    Bool(bool),
    /// textual representation of a number with positional information
    Number((Vec<u8>, num::Parts)),
    /// decoded string content
    String(Vec<u8>),
    /// array
    Array(Vec<Value>),
    /// mapping from strings to values, preserving input order
    Object(Vec<(Vec<u8>, Value)>),
}

/// The positional markers of a number, as mathematical values.
pub ghost struct PartsModel {
    /// position of the leading zero, if the integer part is `0`
    pub zero: Option<int>,
    /// position of the dot, if present
    pub dot: Option<int>,
    /// position of the exponent letter, if present
    pub exp: Option<int>,
}

/// The mathematical form of a [`Value`]: byte sequences for all captured
/// text, and sequences for arrays and objects.
pub ghost enum ValueModel {
    /// `null`
    Null,
    /// `true` or `false`
    Bool(bool),
    /// textual representation of a number with positional information
    Number(Seq<u8>, PartsModel),
    /// decoded string content
    String(Seq<u8>),
    /// array
    Array(Seq<ValueModel>),
    /// mapping from strings to values, preserving input order
    Object(Seq<(Seq<u8>, ValueModel)>),
}

/// The mathematical form of positional markers.
pub open spec fn parts_model(p: num::Parts) -> PartsModel {
    PartsModel {
        zero: match p.zero {
            Some(z) => Some(z as int),
            None => None,
        },
        dot: match p.dot {
            Some(d) => Some(d as int),
            None => None,
        },
        exp: match p.exp {
            Some(e) => Some(e as int),
            None => None,
        },
    }
}

impl Value {
    /// The mathematical form of this value.
    pub open spec fn model(self) -> ValueModel
        decreases self,
    {
        match self {
            Value::Null => ValueModel::Null,
            Value::Bool(b) => ValueModel::Bool(b),
            Value::Number(np) => ValueModel::Number(np.0@, parts_model(np.1)),
            Value::String(s) => ValueModel::String(s@),
            Value::Array(a) => ValueModel::Array(
                Seq::new(
                    a@.len(),
                    |i: int|
                        if 0 <= i < a@.len() {
                            a@[i].model()
                        } else {
                            ValueModel::Null
                        },
                ),
            ),
            Value::Object(o) => ValueModel::Object(
                Seq::new(
                    o@.len(),
                    |i: int|
                        if 0 <= i < o@.len() {
                            (o@[i].0@, o@[i].1.model())
                        } else {
                            (Seq::empty(), ValueModel::Null)
                        },
                ),
            ),
        }
    }
}

/// The positional markers that a number shape with prefix offset `off`
/// denotes.
pub open spec fn shape_parts(m: num::NumShape, off: int) -> PartsModel {
    PartsModel {
        zero: match m.zero {
            Some(z) => Some(z + off),
            None => None,
        },
        dot: match m.dot {
            Some(d) => Some(d + off),
            None => None,
        },
        exp: match m.exp {
            Some(e) => Some(e + off),
            None => None,
        },
    }
}

/// The whitespace prefix of `s`, clipped to its length.
pub open spec fn wsc(s: Seq<u8>) -> int {
    if token::ws_count(s) <= s.len() {
        token::ws_count(s) as int
    } else {
        s.len() as int
    }
}

/// Parsing one JSON value from the head of `s`, which must start at a
/// non-whitespace byte: the value's mathematical form and the number of
/// bytes consumed, or the first error.
///
/// `depth` is the remaining nesting budget: `None` for unbounded parsing,
/// `Some(0)` fails immediately, and every value, scalar or nested, costs one
/// level.  `tier` is the string tier: [`str::Tier::Raw`] describes the
/// discarding parser, [`str::Tier::Decoded`] the value builder.
#[verifier::opaque]
pub open spec fn value_model(s: Seq<u8>, depth: Option<nat>, tier: str::Tier) -> Result<
    (ValueModel, nat),
    Error,
>
    decreases s.len(), 0int,
{
    if s.len() == 0 {
        Err(Error::Token(Expect::Value))
    } else if depth == Some(0nat) {
        Err(Error::Depth)
    } else {
        let d2 = match depth {
            Some(d) => Some((d - 1) as nat),
            None => None,
        };
        {
            let c = s[0];
            if 0x61 <= c && c <= 0x7A {
                match token::null_or_bool_model(s) {
                    Some(None) => Ok((ValueModel::Null, 4)),
                    Some(Some(b)) => Ok(
                        (ValueModel::Bool(b), token::null_or_bool_len(Some(b)) as nat),
                    ),
                    None => Err(Error::Token(Expect::Value)),
                }
            } else if c == 0x2D {
                match num::num_model(s.skip(1)) {
                    Ok(m) => Ok(
                        (
                            ValueModel::Number(
                                seq![0x2Du8] + s.skip(1).take(m.len as int),
                                shape_parts(m, 1),
                            ),
                            (1 + m.len) as nat,
                        ),
                    ),
                    Err(e) => Err(Error::Num(e)),
                }
            } else if num::is_digit(c) {
                match num::num_model(s) {
                    Ok(m) => Ok(
                        (ValueModel::Number(s.take(m.len as int), shape_parts(m, 0)), m.len),
                    ),
                    Err(e) => Err(Error::Num(e)),
                }
            } else if c == 0x22 {
                match str::str_model(s.skip(1), tier) {
                    Ok(p) => Ok((ValueModel::String(p.0), (1 + p.1) as nat)),
                    Err(e) => Err(Error::Str(e)),
                }
            } else if c == 0x5B {
                match arr_model(s.skip(1), d2, tier) {
                    Ok(p) => Ok((ValueModel::Array(p.0), (1 + p.1) as nat)),
                    Err(e) => Err(e),
                }
            } else if c == 0x7B {
                match obj_model(s.skip(1), d2, tier) {
                    Ok(p) => Ok((ValueModel::Object(p.0), (1 + p.1) as nat)),
                    Err(e) => Err(e),
                }
            } else {
                Err(Error::Token(Expect::Value))
            }
        }
    }
}

/// Parsing the items of an array after its opening bracket: the items and
/// the bytes consumed including the closing bracket.
#[verifier::opaque]
pub open spec fn arr_model(s: Seq<u8>, depth: Option<nat>, tier: str::Tier) -> Result<
    (Seq<ValueModel>, nat),
    Error,
>
    decreases s.len(), 3int,
{
    let w = wsc(s);
    let s1 = s.skip(w);
    if s1.len() == 0 {
        Err(Error::Token(Expect::ValueOrEnd))
    } else if s1[0] == 0x5D {
        Ok((Seq::empty(), (w + 1) as nat))
    } else {
        arr_items(s, depth, tier)
    }
}

/// Parsing one or more comma-separated array items starting at `s` (after
/// optional whitespace), up to and including the closing bracket.
#[verifier::opaque]
pub open spec fn arr_items(s: Seq<u8>, depth: Option<nat>, tier: str::Tier) -> Result<
    (Seq<ValueModel>, nat),
    Error,
>
    decreases s.len(), 2int,
{
    let w = wsc(s);
    let s1 = s.skip(w);
    match value_model(s1, depth, tier) {
        Err(e) => Err(e),
        Ok(p) => {
            let c1: int = if 1 <= p.1 && w + p.1 <= s.len() {
                w + p.1 as int
            } else {
                s.len() as int
            };
            let s2 = s.skip(c1);
            let w2 = wsc(s2);
            let s3 = s2.skip(w2);
            if s3.len() == 0 {
                Err(Error::Token(Expect::CommaOrEnd))
            } else if s3[0] == 0x5D {
                Ok((seq![p.0], (c1 + w2 + 1) as nat))
            } else if s3[0] == 0x2C {
                match arr_items(s.skip(c1 + w2 + 1), depth, tier) {
                    Err(e) => Err(e),
                    Ok(q) => Ok((seq![p.0] + q.0, (c1 + w2 + 1 + q.1) as nat)),
                }
            } else {
                Err(Error::Token(Expect::CommaOrEnd))
            }
        },
    }
}

/// Parsing the entries of an object after its opening brace: the key/value
/// pairs and the bytes consumed including the closing brace.
#[verifier::opaque]
pub open spec fn obj_model(s: Seq<u8>, depth: Option<nat>, tier: str::Tier) -> Result<
    (Seq<(Seq<u8>, ValueModel)>, nat),
    Error,
>
    decreases s.len(), 3int,
{
    let w = wsc(s);
    let s1 = s.skip(w);
    if s1.len() == 0 {
        Err(Error::Token(Expect::ValueOrEnd))
    } else if s1[0] == 0x7D {
        Ok((Seq::empty(), (w + 1) as nat))
    } else {
        obj_items(s, depth, tier)
    }
}

/// Parsing one or more comma-separated object entries starting at `s`
/// (after optional whitespace), up to and including the closing brace.
///
/// An entry is a quoted key in the given string tier, a colon, and a value.
#[verifier::opaque]
pub open spec fn obj_items(s: Seq<u8>, depth: Option<nat>, tier: str::Tier) -> Result<
    (Seq<(Seq<u8>, ValueModel)>, nat),
    Error,
>
    decreases s.len(), 2int,
{
    let w = wsc(s);
    let s1 = s.skip(w);
    if s1.len() == 0 {
        Err(Error::Token(Expect::Value))
    } else if s1[0] != 0x22 {
        Err(Error::Token(Expect::String))
    } else {
        match str::str_model(s1.skip(1), tier) {
            Err(e) => Err(Error::Str(e)),
            Ok(kp) => {
                let c1: int = if 1 <= kp.1 && w + 1 + kp.1 <= s.len() {
                    w + 1 + kp.1 as int
                } else {
                    s.len() as int
                };
                let s2 = s.skip(c1);
                let w2 = wsc(s2);
                let s3 = s2.skip(w2);
                if s3.len() == 0 || s3[0] != 0x3A {
                    Err(Error::Token(Expect::Colon))
                } else {
                    let c2 = c1 + w2 + 1;
                    let s4 = s.skip(c2);
                    let w3 = wsc(s4);
                    let s5 = s4.skip(w3);
                    match value_model(s5, depth, tier) {
                        Err(e) => Err(e),
                        Ok(p) => {
                            let c3: int = if 1 <= p.1 && c2 + w3 + p.1 <= s.len() {
                                c2 + w3 + p.1 as int
                            } else {
                                s.len() as int
                            };
                            let s6 = s.skip(c3);
                            let w4 = wsc(s6);
                            let s7 = s6.skip(w4);
                            if s7.len() == 0 {
                                Err(Error::Token(Expect::CommaOrEnd))
                            } else if s7[0] == 0x7D {
                                Ok((seq![(kp.0, p.0)], (c3 + w4 + 1) as nat))
                            } else if s7[0] == 0x2C {
                                match obj_items(s.skip(c3 + w4 + 1), depth, tier) {
                                    Err(e) => Err(e),
                                    Ok(q) => Ok(
                                        (seq![(kp.0, p.0)] + q.0, (c3 + w4 + 1 + q.1) as nat),
                                    ),
                                }
                            } else {
                                Err(Error::Token(Expect::CommaOrEnd))
                            }
                        },
                    }
                }
            },
        }
    }
}

/// A successfully parsed value occupies at least one byte and no more than
/// the whole input.
pub proof fn lemma_value_model_len(s: Seq<u8>, depth: Option<nat>, tier: str::Tier)
    ensures
        value_model(s, depth, tier) matches Ok(p) ==> 1 <= p.1 <= s.len(),
    decreases s.len(), 1int,
{
    reveal(value_model);
    reveal(arr_model);
    reveal(arr_items);
    reveal(obj_model);
    reveal(obj_items);
    if depth != Some(0nat) && s.len() > 0 {
        let c = s[0];
        let d2 = match depth {
            Some(d) => Some((d - 1) as nat),
            None => None,
        };
        if c == 0x2D {
            num::lemma_num_model_len(s.skip(1));
        } else if num::is_digit(c) {
            num::lemma_num_model_len(s);
        } else if c == 0x22 {
            str::lemma_str_model_len(s.skip(1), tier);
        } else if c == 0x5B {
            lemma_arr_model_len(s.skip(1), d2, tier);
        } else if c == 0x7B {
            lemma_obj_model_len(s.skip(1), d2, tier);
        }
    }
}

/// An array body, once parsed, stays within the input and consumes at least
/// its closing bracket.
pub proof fn lemma_arr_model_len(s: Seq<u8>, depth: Option<nat>, tier: str::Tier)
    ensures
        arr_model(s, depth, tier) matches Ok(p) ==> 1 <= p.1 <= s.len(),
    decreases s.len(), 4int,
{
    reveal(value_model);
    reveal(arr_model);
    reveal(arr_items);
    reveal(obj_model);
    reveal(obj_items);
    token::lemma_ws_count(s);
    lemma_arr_items_len(s, depth, tier);
}

/// Comma-separated array items, once parsed, stay within the input.
pub proof fn lemma_arr_items_len(s: Seq<u8>, depth: Option<nat>, tier: str::Tier)
    ensures
        arr_items(s, depth, tier) matches Ok(p) ==> 1 <= p.1 <= s.len(),
    decreases s.len(), 3int,
{
    reveal(value_model);
    reveal(arr_model);
    reveal(arr_items);
    reveal(obj_model);
    reveal(value_model);
    reveal(arr_model);
    reveal(arr_items);
    reveal(obj_model);
    reveal(obj_items);
    token::lemma_ws_count(s);
    let w = wsc(s);
    let s1 = s.skip(w);
    lemma_value_model_len(s1, depth, tier);
    match value_model(s1, depth, tier) {
        Err(_) => {
        },
        Ok(p) => {
            let c1: int = if 1 <= p.1 && w + p.1 <= s.len() {
                w + p.1 as int
            } else {
                s.len() as int
            };
            let s2 = s.skip(c1);
            token::lemma_ws_count(s2);
            let w2 = wsc(s2);
            let s3 = s2.skip(w2);
            if s3.len() > 0 && s3[0] == 0x2C {
                lemma_arr_items_len(s.skip(c1 + w2 + 1), depth, tier);
            }
        },
    }
}

/// An object body, once parsed, stays within the input and consumes at
/// least its closing brace.
pub proof fn lemma_obj_model_len(s: Seq<u8>, depth: Option<nat>, tier: str::Tier)
    ensures
        obj_model(s, depth, tier) matches Ok(p) ==> 1 <= p.1 <= s.len(),
    decreases s.len(), 4int,
{
    reveal(value_model);
    reveal(arr_model);
    reveal(arr_items);
    reveal(obj_model);
    reveal(obj_items);
    token::lemma_ws_count(s);
    lemma_obj_items_len(s, depth, tier);
}

/// Comma-separated object entries, once parsed, stay within the input.
pub proof fn lemma_obj_items_len(s: Seq<u8>, depth: Option<nat>, tier: str::Tier)
    ensures
        obj_items(s, depth, tier) matches Ok(p) ==> 1 <= p.1 <= s.len(),
    decreases s.len(), 3int,
{
    reveal(value_model);
    reveal(arr_model);
    reveal(arr_items);
    reveal(obj_model);
    reveal(obj_items);
    token::lemma_ws_count(s);
    let w = wsc(s);
    let s1 = s.skip(w);
    if s1.len() > 0 && s1[0] == 0x22 {
        str::lemma_str_model_len(s1.skip(1), tier);
        match str::str_model(s1.skip(1), tier) {
            Err(_) => {
            },
            Ok(kp) => {
                let c1: int = if 1 <= kp.1 && w + 1 + kp.1 <= s.len() {
                    w + 1 + kp.1 as int
                } else {
                    s.len() as int
                };
                let s2 = s.skip(c1);
                token::lemma_ws_count(s2);
                let w2 = wsc(s2);
                let s3 = s2.skip(w2);
                if s3.len() > 0 && s3[0] == 0x3A {
                    let c2 = c1 + w2 + 1;
                    let s4 = s.skip(c2);
                    token::lemma_ws_count(s4);
                    let w3 = wsc(s4);
                    let s5 = s4.skip(w3);
                    lemma_value_model_len(s5, depth, tier);
                    match value_model(s5, depth, tier) {
                        Err(_) => {
                        },
                        Ok(p) => {
                            let c3: int = if 1 <= p.1 && c2 + w3 + p.1 <= s.len() {
                                c2 + w3 + p.1 as int
                            } else {
                                s.len() as int
                            };
                            let s6 = s.skip(c3);
                            token::lemma_ws_count(s6);
                            let w4 = wsc(s6);
                            let s7 = s6.skip(w4);
                            if s7.len() > 0 && s7[0] == 0x2C {
                                lemma_obj_items_len(s.skip(c3 + w4 + 1), depth, tier);
                            }
                        },
                    }
                }
            },
        }
    }
}

/// The nesting budget that an optional bound denotes.
pub open spec fn depth_model(b: Option<usize>) -> Option<nat> {
    match b {
        Some(d) => Some(d as nat),
        None => None,
    }
}

/// Parse a value, with an optional bound on the nesting depth.
#[verifier::rlimit(100)]
#[verifier::spinoff_prover]
fn parse<L: crate::LexAlloc + ?Sized>(next: u8, lexer: &mut L, bound: Option<usize>) -> (r: Result<
    Value,
    Error,
>)
    requires
        old(lexer).remaining().len() > 0,
        old(lexer).remaining()[0] == next,
    ensures
        value_model(old(lexer).remaining(), depth_model(bound), str::Tier::Decoded) matches Ok(p)
            ==> r matches Ok(v) && v.model() == p.0 && final(lexer).remaining()
            == old(lexer).remaining().skip(p.1 as int),
        value_model(old(lexer).remaining(), depth_model(bound), str::Tier::Decoded) matches Err(e)
            ==> r == Err::<Value, Error>(e),
    decreases lexer.remaining().len(), 0int,
{
    proof {
        lemma_value_model_step(
            lexer.remaining(),
            depth_model(bound),
            str::Tier::Decoded,
        );
    }
    let ghost s0 = lexer.remaining();
    let bound2 = match bound {
        Some(d) => {
            if d == 0 {
                return Err(Error::Depth);
            }
            Some(d - 1)
        },
        None => None,
    };
    proof {
        assert(depth_model(bound2) == (match depth_model(bound) {
            Some(dd) => Some((dd - 1) as nat),
            None => None::<nat>,
        }));
    }
    if 0x61 <= next && next <= 0x7A {
        match lexer.null_or_bool() {
            Some(None) => Ok(Value::Null),
            Some(Some(b)) => Ok(Value::Bool(b)),
            None => Err(Error::Token(Expect::Value)),
        }
    } else if next == 0x2D {
        lexer.take_next();
        let minus: [u8; 1] = [0x2D];
        proof {
            assert(minus@ =~= seq![0x2Du8]);
        }
        match crate::num::LexWrite::num_string(lexer, minus.as_slice()) {
            Ok(np) => {
                let v = Value::Number(np);
                proof {
                    num::lemma_num_model_len(s0.skip(1));
                    match num::num_model(s0.skip(1)) {
                        Ok(m) => {
                            assert(v.model() == ValueModel::Number(
                                seq![0x2Du8] + s0.skip(1).take(m.len as int),
                                shape_parts(m, 1),
                            ));
                            assert(s0.skip(1).skip(m.len as int) =~= s0.skip(1 + m.len as int));
                        },
                        Err(_) => {
                        },
                    }
                }
                Ok(v)
            },
            Err(e) => Err(Error::Num(e)),
        }
    } else if 0x30 <= next && next <= 0x39 {
        let empty: [u8; 0] = [];
        proof {
            assert(empty@ =~= Seq::<u8>::empty());
        }
        match crate::num::LexWrite::num_string(lexer, empty.as_slice()) {
            Ok(np) => {
                let v = Value::Number(np);
                proof {
                    num::lemma_num_model_len(s0);
                    match num::num_model(s0) {
                        Ok(m) => {
                            assert(Seq::<u8>::empty() + s0.take(m.len as int) =~= s0.take(
                                m.len as int,
                            ));
                            assert(v.model() == ValueModel::Number(
                                s0.take(m.len as int),
                                shape_parts(m, 0),
                            ));
                        },
                        Err(_) => {
                        },
                    }
                }
                Ok(v)
            },
            Err(e) => Err(Error::Num(e)),
        }
    } else if next == 0x22 {
        lexer.take_next();
        match crate::str::LexAlloc::str_string(lexer) {
            Ok(b) => {
                proof {
                    str::lemma_str_model_len(s0.skip(1), str::Tier::Decoded);
                    match str::str_model(s0.skip(1), str::Tier::Decoded) {
                        Ok(p) => {
                            assert(s0.skip(1).skip(p.1 as int) =~= s0.skip(1 + p.1 as int));
                        },
                        Err(_) => {
                        },
                    }
                }
                Ok(Value::String(b))
            },
            Err(e) => Err(Error::Str(e)),
        }
    } else if next == 0x5B {
        lexer.take_next();
        let ghost d2 = depth_model(bound2);
        match parse_arr(lexer, bound2) {
            Ok(a) => {
                let v = Value::Array(a);
                proof {
                    lemma_arr_model_len(s0.skip(1), d2, str::Tier::Decoded);
                    match arr_model(s0.skip(1), d2, str::Tier::Decoded) {
                        Ok(p) => {
                            assert(v.model() matches ValueModel::Array(ms) && ms =~= p.0);
                            assert(v.model() == ValueModel::Array(p.0));
                            assert(s0.skip(1).skip(p.1 as int) =~= s0.skip(1 + p.1 as int));
                        },
                        Err(_) => {
                        },
                    }
                }
                Ok(v)
            },
            Err(e) => Err(e),
        }
    } else if next == 0x7B {
        lexer.take_next();
        let ghost d2 = depth_model(bound2);
        match parse_obj(lexer, bound2) {
            Ok(o) => {
                let v = Value::Object(o);
                proof {
                    lemma_obj_model_len(s0.skip(1), d2, str::Tier::Decoded);
                    match obj_model(s0.skip(1), d2, str::Tier::Decoded) {
                        Ok(p) => {
                            assert(v.model() matches ValueModel::Object(ms) && ms =~= p.0);
                            assert(v.model() == ValueModel::Object(p.0));
                            assert(s0.skip(1).skip(p.1 as int) =~= s0.skip(1 + p.1 as int));
                        },
                        Err(_) => {
                        },
                    }
                }
                Ok(v)
            },
            Err(e) => Err(e),
        }
    } else {
        Err(Error::Token(Expect::Value))
    }
}

/// How a value parse resolves, by its first byte: keyword literals,
/// numbers, strings, arrays, objects, or a failure.
pub(crate) proof fn lemma_value_model_step(s: Seq<u8>, depth: Option<nat>, tier: str::Tier)
    ensures
        s.len() == 0 ==> value_model(s, depth, tier) == Err::<(ValueModel, nat), Error>(
            Error::Token(Expect::Value),
        ),
        s.len() > 0 && depth == Some(0nat) ==> value_model(s, depth, tier) == Err::<
            (ValueModel, nat),
            Error,
        >(Error::Depth),
        s.len() > 0 && depth != Some(0nat) ==> ({
            let c = s[0];
            let d2 = match depth {
                Some(d) => Some((d - 1) as nat),
                None => None::<nat>,
            };
            &&& (0x61 <= c && c <= 0x7A) ==> value_model(s, depth, tier) == (
            match token::null_or_bool_model(s) {
                Some(None) => Ok::<(ValueModel, nat), Error>((ValueModel::Null, 4)),
                Some(Some(b)) => Ok::<(ValueModel, nat), Error>(
                    (ValueModel::Bool(b), token::null_or_bool_len(Some(b)) as nat),
                ),
                None => Err::<(ValueModel, nat), Error>(Error::Token(Expect::Value)),
            })
            &&& c == 0x2D ==> value_model(s, depth, tier) == (match num::num_model(s.skip(1)) {
                Ok(m) => Ok::<(ValueModel, nat), Error>(
                    (
                        ValueModel::Number(
                            seq![0x2Du8] + s.skip(1).take(m.len as int),
                            shape_parts(m, 1),
                        ),
                        (1 + m.len) as nat,
                    ),
                ),
                Err(e) => Err::<(ValueModel, nat), Error>(Error::Num(e)),
            })
            &&& num::is_digit(c) ==> value_model(s, depth, tier) == (match num::num_model(s) {
                Ok(m) => Ok::<(ValueModel, nat), Error>(
                    (ValueModel::Number(s.take(m.len as int), shape_parts(m, 0)), m.len),
                ),
                Err(e) => Err::<(ValueModel, nat), Error>(Error::Num(e)),
            })
            &&& c == 0x22 ==> value_model(s, depth, tier) == (
            match str::str_model(s.skip(1), tier) {
                Ok(p) => Ok::<(ValueModel, nat), Error>(
                    (ValueModel::String(p.0), (1 + p.1) as nat),
                ),
                Err(e) => Err::<(ValueModel, nat), Error>(Error::Str(e)),
            })
            &&& c == 0x5B ==> value_model(s, depth, tier) == (
            match arr_model(s.skip(1), d2, tier) {
                Ok(p) => Ok::<(ValueModel, nat), Error>(
                    (ValueModel::Array(p.0), (1 + p.1) as nat),
                ),
                Err(e) => Err::<(ValueModel, nat), Error>(e),
            })
            &&& c == 0x7B ==> value_model(s, depth, tier) == (
            match obj_model(s.skip(1), d2, tier) {
                Ok(p) => Ok::<(ValueModel, nat), Error>(
                    (ValueModel::Object(p.0), (1 + p.1) as nat),
                ),
                Err(e) => Err::<(ValueModel, nat), Error>(e),
            })
            &&& !(0x61 <= c && c <= 0x7A) && c != 0x2D && !num::is_digit(c) && c != 0x22 && c
                != 0x5B && c != 0x7B ==> value_model(s, depth, tier) == Err::<
                (ValueModel, nat),
                Error,
            >(Error::Token(Expect::Value))
        }),
{
    reveal(value_model);
    reveal(arr_model);
    reveal(arr_items);
    reveal(obj_model);
    reveal(obj_items);
}

/// At the end of the input there is no value to parse, whatever the
/// remaining nesting budget.
pub(crate) proof fn lemma_value_model_empty(s: Seq<u8>, depth: Option<nat>, tier: str::Tier)
    requires
        s.len() == 0,
    ensures
        value_model(s, depth, tier) == Err::<(ValueModel, nat), Error>(
            Error::Token(Expect::Value),
        ),
{
    reveal(value_model);
}

/// How the array driver enters: it closes at once on `]`, fails at end of
/// input, and otherwise parses items.
pub(crate) proof fn lemma_arr_model_step(s: Seq<u8>, depth: Option<nat>, tier: str::Tier)
    ensures
        ({
            let w = wsc(s);
            let s1 = s.skip(w);
            &&& s1.len() == 0 ==> arr_model(s, depth, tier) == Err::<(Seq<ValueModel>, nat), Error>(
                Error::Token(Expect::ValueOrEnd),
            )
            &&& s1.len() > 0 && s1[0] == 0x5D ==> arr_model(s, depth, tier) == Ok::<
                (Seq<ValueModel>, nat),
                Error,
            >((Seq::empty(), (w + 1) as nat))
            &&& s1.len() > 0 && s1[0] != 0x5D ==> arr_model(s, depth, tier) == arr_items(
                s,
                depth,
                tier,
            )
        }),
{
    reveal(value_model);
    reveal(arr_model);
    reveal(arr_items);
    reveal(obj_model);
    reveal(obj_items);
    token::lemma_ws_count(s);
}

/// How one step of the array item loop resolves: an item, then either the
/// closing bracket, a comma and further items, or an error.
pub(crate) proof fn lemma_arr_items_step(s: Seq<u8>, depth: Option<nat>, tier: str::Tier)
    ensures
        ({
            let w = wsc(s);
            let s1 = s.skip(w);
            match value_model(s1, depth, tier) {
                Err(e) => arr_items(s, depth, tier) == Err::<(Seq<ValueModel>, nat), Error>(e),
                Ok(p) => {
                    let c1 = w + p.1;
                    let s2 = s.skip(c1);
                    let w2 = wsc(s2);
                    let s3 = s2.skip(w2);
                    if s3.len() == 0 {
                        arr_items(s, depth, tier) == Err::<(Seq<ValueModel>, nat), Error>(
                            Error::Token(Expect::CommaOrEnd),
                        )
                    } else if s3[0] == 0x5D {
                        arr_items(s, depth, tier) == Ok::<(Seq<ValueModel>, nat), Error>(
                            (seq![p.0], (c1 + w2 + 1) as nat),
                        )
                    } else if s3[0] == 0x2C {
                        match arr_items(s.skip(c1 + w2 + 1), depth, tier) {
                            Err(e) => arr_items(s, depth, tier) == Err::<
                                (Seq<ValueModel>, nat),
                                Error,
                            >(e),
                            Ok(q) => arr_items(s, depth, tier) == Ok::<
                                (Seq<ValueModel>, nat),
                                Error,
                            >((seq![p.0] + q.0, (c1 + w2 + 1 + q.1) as nat)),
                        }
                    } else {
                        arr_items(s, depth, tier) == Err::<(Seq<ValueModel>, nat), Error>(
                            Error::Token(Expect::CommaOrEnd),
                        )
                    }
                },
            }
        }),
{
    reveal(value_model);
    reveal(arr_model);
    reveal(arr_items);
    reveal(obj_model);
    reveal(obj_items);
    token::lemma_ws_count(s);
    let w = wsc(s);
    lemma_value_model_len(s.skip(w), depth, tier);
    token::lemma_ws_count(s.skip(w + (value_model(s.skip(w), depth, tier)->Ok_0.1 as int)));
}

/// How the object driver enters: it closes at once on `}`, fails at end of
/// input, and otherwise parses entries.
pub(crate) proof fn lemma_obj_model_step(s: Seq<u8>, depth: Option<nat>, tier: str::Tier)
    ensures
        ({
            let w = wsc(s);
            let s1 = s.skip(w);
            &&& s1.len() == 0 ==> obj_model(s, depth, tier) == Err::<
                (Seq<(Seq<u8>, ValueModel)>, nat),
                Error,
            >(Error::Token(Expect::ValueOrEnd))
            &&& s1.len() > 0 && s1[0] == 0x7D ==> obj_model(s, depth, tier) == Ok::<
                (Seq<(Seq<u8>, ValueModel)>, nat),
                Error,
            >((Seq::empty(), (w + 1) as nat))
            &&& s1.len() > 0 && s1[0] != 0x7D ==> obj_model(s, depth, tier) == obj_items(
                s,
                depth,
                tier,
            )
        }),
{
    reveal(value_model);
    reveal(arr_model);
    reveal(arr_items);
    reveal(obj_model);
    reveal(obj_items);
    token::lemma_ws_count(s);
}

/// How one step of the object entry loop resolves: a quoted key, a colon
/// and a value, then either the closing brace, a comma and further entries,
/// or an error.
pub(crate) proof fn lemma_obj_items_step(s: Seq<u8>, depth: Option<nat>, tier: str::Tier)
    ensures
        ({
            let w = wsc(s);
            let s1 = s.skip(w);
            &&& s1.len() == 0 ==> obj_items(s, depth, tier) == Err::<
                (Seq<(Seq<u8>, ValueModel)>, nat),
                Error,
            >(Error::Token(Expect::Value))
            &&& s1.len() > 0 && s1[0] != 0x22 ==> obj_items(s, depth, tier) == Err::<
                (Seq<(Seq<u8>, ValueModel)>, nat),
                Error,
            >(Error::Token(Expect::String))
            &&& s1.len() > 0 && s1[0] == 0x22 ==> (match str::str_model(s1.skip(1), tier) {
                Err(e) => obj_items(s, depth, tier) == Err::<
                    (Seq<(Seq<u8>, ValueModel)>, nat),
                    Error,
                >(Error::Str(e)),
                Ok(kp) => {
                    let c1 = w + 1 + kp.1;
                    let s2 = s.skip(c1);
                    let w2 = wsc(s2);
                    let s3 = s2.skip(w2);
                    if s3.len() == 0 || s3[0] != 0x3A {
                        obj_items(s, depth, tier) == Err::<
                            (Seq<(Seq<u8>, ValueModel)>, nat),
                            Error,
                        >(Error::Token(Expect::Colon))
                    } else {
                        let c2 = c1 + w2 + 1;
                        let s4 = s.skip(c2);
                        let w3 = wsc(s4);
                        let s5 = s4.skip(w3);
                        match value_model(s5, depth, tier) {
                            Err(e) => obj_items(s, depth, tier) == Err::<
                                (Seq<(Seq<u8>, ValueModel)>, nat),
                                Error,
                            >(e),
                            Ok(p) => {
                                let c3 = c2 + w3 + p.1;
                                let s6 = s.skip(c3);
                                let w4 = wsc(s6);
                                let s7 = s6.skip(w4);
                                if s7.len() == 0 {
                                    obj_items(s, depth, tier) == Err::<
                                        (Seq<(Seq<u8>, ValueModel)>, nat),
                                        Error,
                                    >(Error::Token(Expect::CommaOrEnd))
                                } else if s7[0] == 0x7D {
                                    obj_items(s, depth, tier) == Ok::<
                                        (Seq<(Seq<u8>, ValueModel)>, nat),
                                        Error,
                                    >((seq![(kp.0, p.0)], (c3 + w4 + 1) as nat))
                                } else if s7[0] == 0x2C {
                                    match obj_items(s.skip(c3 + w4 + 1), depth, tier) {
                                        Err(e) => obj_items(s, depth, tier) == Err::<
                                            (Seq<(Seq<u8>, ValueModel)>, nat),
                                            Error,
                                        >(e),
                                        Ok(q) => obj_items(s, depth, tier) == Ok::<
                                            (Seq<(Seq<u8>, ValueModel)>, nat),
                                            Error,
                                        >((seq![(kp.0, p.0)] + q.0, (c3 + w4 + 1 + q.1) as nat)),
                                    }
                                } else {
                                    obj_items(s, depth, tier) == Err::<
                                        (Seq<(Seq<u8>, ValueModel)>, nat),
                                        Error,
                                    >(Error::Token(Expect::CommaOrEnd))
                                }
                            },
                        }
                    }
                },
            })
        }),
{
    reveal(value_model);
    reveal(arr_model);
    reveal(arr_items);
    reveal(obj_model);
    reveal(obj_items);
    token::lemma_ws_count(s);
    let w = wsc(s);
    let s1 = s.skip(w);
    if s1.len() > 0 && s1[0] == 0x22 {
        str::lemma_str_model_len(s1.skip(1), tier);
        match str::str_model(s1.skip(1), tier) {
            Err(_) => {
            },
            Ok(kp) => {
                let c1 = w + 1 + kp.1;
                let s2 = s.skip(c1);
                token::lemma_ws_count(s2);
                let w2 = wsc(s2);
                let s3 = s2.skip(w2);
                if s3.len() > 0 && s3[0] == 0x3A {
                    let c2 = c1 + w2 + 1;
                    let s4 = s.skip(c2);
                    token::lemma_ws_count(s4);
                    let w3 = wsc(s4);
                    let s5 = s4.skip(w3);
                    lemma_value_model_len(s5, depth, tier);
                    match value_model(s5, depth, tier) {
                        Err(_) => {
                        },
                        Ok(p) => {
                            let c3 = c2 + w3 + p.1;
                            token::lemma_ws_count(s.skip(c3));
                        },
                    }
                }
            },
        }
    }
}

/// Parse the items of an array, after the opening bracket.
#[verifier::rlimit(100)]
fn parse_arr<L: crate::LexAlloc + ?Sized>(lexer: &mut L, bound: Option<usize>) -> (r: Result<
    Vec<Value>,
    Error,
>)
    ensures
        arr_model(old(lexer).remaining(), depth_model(bound), str::Tier::Decoded) matches Ok(p)
            ==> r matches Ok(a) && a@.len() == p.0.len() && (forall|i: int|
            0 <= i < a@.len() ==> a@[i].model() == p.0[i]) && final(lexer).remaining()
            == old(lexer).remaining().skip(p.1 as int),
        arr_model(old(lexer).remaining(), depth_model(bound), str::Tier::Decoded) matches Err(e)
            ==> r == Err::<Vec<Value>, Error>(e),
    decreases lexer.remaining().len(), 1int,
{
    let ghost s0 = lexer.remaining();
    let ghost dm = depth_model(bound);
    let ghost tier = str::Tier::Decoded;
    proof {
        lemma_arr_model_step(s0, dm, tier);
        token::lemma_ws_count(s0);
    }
    let mut next = match lexer.ws_peek() {
        None => {
            return Err(Error::Token(Expect::ValueOrEnd));
        },
        Some(c) => c,
    };
    if next == 0x5D {
        lexer.take_next();
        proof {
            assert(s0.skip(wsc(s0)).skip(1) =~= s0.skip(wsc(s0) + 1));
        }
        return Ok(Vec::new());
    }
    let mut arr: Vec<Value> = Vec::new();
    let ghost mut cnt: int = 0;
    let ghost mut accm: Seq<ValueModel> = Seq::empty();
    proof {
        assert(s0.skip(0) =~= s0);
        match arr_items(s0, dm, tier) {
            Ok(q) => {
                assert(Seq::<ValueModel>::empty() + q.0 =~= q.0);
            },
            Err(_) => {
            },
        }
    }
    loop
        invariant
            dm == depth_model(bound),
            tier == str::Tier::Decoded,
            s0 == old(lexer).remaining(),
            0 <= cnt <= s0.len(),
            lexer.remaining() == s0.skip(cnt).skip(wsc(s0.skip(cnt))),
            lexer.remaining().len() > 0,
            next == lexer.remaining()[0],
            arr@.len() == accm.len(),
            forall|i: int| 0 <= i < arr@.len() ==> arr@[i].model() == accm[i],
            (match arr_items(s0.skip(cnt), dm, tier) {
                Ok(q) => arr_model(s0, dm, tier) == Ok::<(Seq<ValueModel>, nat), Error>(
                    (accm + q.0, (cnt + q.1) as nat),
                ),
                Err(e) => arr_model(s0, dm, tier) == Err::<(Seq<ValueModel>, nat), Error>(e),
            }),
        decreases s0.len() - cnt,
    {
        let ghost sp = s0.skip(cnt);
        let ghost w = wsc(sp);
        let ghost s1 = sp.skip(w);
        proof {
            lemma_arr_items_step(sp, dm, tier);
            token::lemma_ws_count(sp);
            lemma_value_model_len(s1, dm, tier);
        }
        let v = match parse(next, lexer, bound) {
            Ok(v) => v,
            Err(e) => {
                return Err(e);
            },
        };
        let ghost p = value_model(s1, dm, tier)->Ok_0;
        let ghost c1 = w + p.1 as int;
        arr.push(v);
        proof {
            assert(s1.skip(p.1 as int) =~= sp.skip(c1));
            assert(sp.skip(c1) =~= s0.skip(cnt + c1));
            token::lemma_ws_count(s0.skip(cnt + c1));
        }
        let sep = lexer.ws_peek();
        let ghost s2 = sp.skip(c1);
        let ghost w2 = wsc(s2);
        match sep {
            None => {
                return Err(Error::Token(Expect::CommaOrEnd));
            },
            Some(c) => {
                if c == 0x5D {
                    lexer.take_next();
                    proof {
                        assert(s2.skip(w2).skip(1) =~= s0.skip(cnt + c1 + w2 + 1));
                        let total = accm + seq![p.0];
                        assert(accm + seq![p.0] =~= accm.push(p.0));
                        assert(forall|i: int|
                            0 <= i < arr@.len() ==> arr@[i].model() == total[i]);
                    }
                    return Ok(arr);
                } else if c == 0x2C {
                    lexer.take_next();
                    proof {
                        assert(s2.skip(w2).skip(1) =~= sp.skip(c1 + w2 + 1));
                        assert(sp.skip(c1 + w2 + 1) =~= s0.skip(cnt + c1 + w2 + 1));
                        token::lemma_ws_count(s0.skip(cnt + c1 + w2 + 1));
                    }
                    next = match lexer.ws_peek() {
                        None => {
                            proof {
                                let np = s0.skip(cnt + c1 + w2 + 1);
                                assert(sp.skip(c1 + w2 + 1) =~= np);
                                lemma_arr_items_step(np, dm, tier);
                                lemma_value_model_empty(np.skip(wsc(np)), dm, tier);
                            }
                            return Err(Error::Token(Expect::Value));
                        },
                        Some(n) => n,
                    };
                    proof {
                        let np = s0.skip(cnt + c1 + w2 + 1);
                        assert(sp.skip(c1 + w2 + 1) =~= np);
                        match arr_items(np, dm, tier) {
                            Ok(q) => {
                                assert((accm + seq![p.0]) + q.0 =~= accm + (seq![p.0] + q.0));
                            },
                            Err(_) => {
                            },
                        }
                        cnt = cnt + c1 + w2 + 1;
                        accm = accm + seq![p.0];
                    }
                } else {
                    return Err(Error::Token(Expect::CommaOrEnd));
                }
            },
        }
    }
}

/// Parse the entries of an object, after the opening brace.
#[verifier::rlimit(100)]
fn parse_obj<L: crate::LexAlloc + ?Sized>(lexer: &mut L, bound: Option<usize>) -> (r: Result<
    Vec<(Vec<u8>, Value)>,
    Error,
>)
    ensures
        obj_model(old(lexer).remaining(), depth_model(bound), str::Tier::Decoded) matches Ok(p)
            ==> r matches Ok(o) && o@.len() == p.0.len() && (forall|i: int|
            0 <= i < o@.len() ==> (o@[i].0@, o@[i].1.model()) == p.0[i])
            && final(lexer).remaining() == old(lexer).remaining().skip(p.1 as int),
        obj_model(old(lexer).remaining(), depth_model(bound), str::Tier::Decoded) matches Err(e)
            ==> r == Err::<Vec<(Vec<u8>, Value)>, Error>(e),
    decreases lexer.remaining().len(), 1int,
{
    let ghost s0 = lexer.remaining();
    let ghost dm = depth_model(bound);
    let ghost tier = str::Tier::Decoded;
    proof {
        lemma_obj_model_step(s0, dm, tier);
        token::lemma_ws_count(s0);
    }
    let mut next = match lexer.ws_peek() {
        None => {
            return Err(Error::Token(Expect::ValueOrEnd));
        },
        Some(c) => c,
    };
    if next == 0x7D {
        lexer.take_next();
        proof {
            assert(s0.skip(wsc(s0)).skip(1) =~= s0.skip(wsc(s0) + 1));
        }
        return Ok(Vec::new());
    }
    let mut obj: Vec<(Vec<u8>, Value)> = Vec::new();
    let ghost mut cnt: int = 0;
    let ghost mut accm: Seq<(Seq<u8>, ValueModel)> = Seq::empty();
    proof {
        assert(s0.skip(0) =~= s0);
        match obj_items(s0, dm, tier) {
            Ok(q) => {
                assert(Seq::<(Seq<u8>, ValueModel)>::empty() + q.0 =~= q.0);
            },
            Err(_) => {
            },
        }
    }
    loop
        invariant
            dm == depth_model(bound),
            tier == str::Tier::Decoded,
            s0 == old(lexer).remaining(),
            0 <= cnt <= s0.len(),
            lexer.remaining() == s0.skip(cnt).skip(wsc(s0.skip(cnt))),
            lexer.remaining().len() > 0,
            next == lexer.remaining()[0],
            obj@.len() == accm.len(),
            forall|i: int| 0 <= i < obj@.len() ==> (obj@[i].0@, obj@[i].1.model()) == accm[i],
            (match obj_items(s0.skip(cnt), dm, tier) {
                Ok(q) => obj_model(s0, dm, tier) == Ok::<(Seq<(Seq<u8>, ValueModel)>, nat), Error>(
                    (accm + q.0, (cnt + q.1) as nat),
                ),
                Err(e) => obj_model(s0, dm, tier) == Err::<
                    (Seq<(Seq<u8>, ValueModel)>, nat),
                    Error,
                >(e),
            }),
        decreases s0.len() - cnt,
    {
        let ghost sp = s0.skip(cnt);
        let ghost w = wsc(sp);
        let ghost s1 = sp.skip(w);
        proof {
            lemma_obj_items_step(sp, dm, tier);
            token::lemma_ws_count(sp);
        }
        if next != 0x22 {
            return Err(Error::Token(Expect::String));
        }
        lexer.take_next();
        proof {
            str::lemma_str_model_len(s1.skip(1), tier);
        }
        let key = match crate::str::LexAlloc::str_string(lexer) {
            Ok(k) => k,
            Err(e) => {
                return Err(Error::Str(e));
            },
        };
        let ghost kp = str::str_model(s1.skip(1), tier)->Ok_0;
        let ghost c1 = w + 1 + kp.1 as int;
        proof {
            assert(s1.skip(1).skip(kp.1 as int) =~= sp.skip(c1));
            assert(sp.skip(c1) =~= s0.skip(cnt + c1));
            token::lemma_ws_count(sp.skip(c1));
        }
        let ghost s2 = sp.skip(c1);
        let ghost w2 = wsc(s2);
        let colon = lexer.ws_peek();
        let has_colon = match colon {
            Some(c) => c == 0x3A,
            None => false,
        };
        if !has_colon {
            return Err(Error::Token(Expect::Colon));
        }
        lexer.take_next();
        let ghost c2 = c1 + w2 + 1;
        proof {
            assert(s2.skip(w2).skip(1) =~= sp.skip(c2));
            assert(sp.skip(c2) =~= s0.skip(cnt + c2));
            token::lemma_ws_count(sp.skip(c2));
        }
        let ghost s4 = sp.skip(c2);
        let ghost w3 = wsc(s4);
        let vnext = match lexer.ws_peek() {
            None => {
                proof {
                    assert(s4.skip(w3).len() == 0);
                    lemma_value_model_empty(s4.skip(w3), dm, tier);
                }
                return Err(Error::Token(Expect::Value));
            },
            Some(n) => n,
        };
        let ghost s5 = s4.skip(w3);
        proof {
            lemma_value_model_len(s5, dm, tier);
        }
        let v = match parse(vnext, lexer, bound) {
            Ok(v) => v,
            Err(e) => {
                return Err(e);
            },
        };
        let ghost p = value_model(s5, dm, tier)->Ok_0;
        let ghost c3 = c2 + w3 + p.1 as int;
        obj.push((key, v));
        proof {
            assert(s5.skip(p.1 as int) =~= sp.skip(c3));
            assert(sp.skip(c3) =~= s0.skip(cnt + c3));
            token::lemma_ws_count(sp.skip(c3));
        }
        let ghost s6 = sp.skip(c3);
        let ghost w4 = wsc(s6);
        let sep = lexer.ws_peek();
        match sep {
            None => {
                return Err(Error::Token(Expect::CommaOrEnd));
            },
            Some(c) => {
                if c == 0x7D {
                    lexer.take_next();
                    proof {
                        assert(s6.skip(w4).skip(1) =~= s0.skip(cnt + c3 + w4 + 1));
                        let total = accm + seq![(kp.0, p.0)];
                        assert(accm + seq![(kp.0, p.0)] =~= accm.push((kp.0, p.0)));
                        assert(forall|i: int|
                            0 <= i < obj@.len() ==> (obj@[i].0@, obj@[i].1.model()) == total[i]);
                    }
                    return Ok(obj);
                } else if c == 0x2C {
                    lexer.take_next();
                    proof {
                        assert(s6.skip(w4).skip(1) =~= sp.skip(c3 + w4 + 1));
                        assert(sp.skip(c3 + w4 + 1) =~= s0.skip(cnt + c3 + w4 + 1));
                        token::lemma_ws_count(s0.skip(cnt + c3 + w4 + 1));
                    }
                    next = match lexer.ws_peek() {
                        None => {
                            proof {
                                let np = s0.skip(cnt + c3 + w4 + 1);
                                assert(sp.skip(c3 + w4 + 1) =~= np);
                                lemma_obj_items_step(np, dm, tier);
                                let w5 = wsc(np);
                                assert(np.skip(w5).len() == 0);
                            }
                            return Err(Error::Token(Expect::Value));
                        },
                        Some(n) => n,
                    };
                    proof {
                        let np = s0.skip(cnt + c3 + w4 + 1);
                        assert(sp.skip(c3 + w4 + 1) =~= np);
                        match obj_items(np, dm, tier) {
                            Ok(q) => {
                                assert((accm + seq![(kp.0, p.0)]) + q.0 =~= accm + (seq![
                                    (kp.0, p.0),
                                ] + q.0));
                            },
                            Err(_) => {
                            },
                        }
                        cnt = cnt + c3 + w4 + 1;
                        accm = accm + seq![(kp.0, p.0)];
                    }
                } else {
                    return Err(Error::Token(Expect::CommaOrEnd));
                }
            },
        }
    }
}

/// Parse a value, not limiting the recursion depth.
///
/// To prevent stack overflows on adversarial input, consider using
/// [`parse_bounded`].  `next` must be the first remaining byte of the input.
pub fn parse_unbounded<L: crate::LexAlloc + ?Sized>(next: u8, lexer: &mut L) -> (r: Result<
    Value,
    Error,
>)
    requires
        old(lexer).remaining().len() > 0,
        old(lexer).remaining()[0] == next,
    ensures
        value_model(old(lexer).remaining(), None, str::Tier::Decoded) matches Ok(p) ==> r matches
            Ok(v) && v.model() == p.0 && final(lexer).remaining() == old(
            lexer,
        ).remaining().skip(p.1 as int),
        value_model(old(lexer).remaining(), None, str::Tier::Decoded) matches Err(e) ==> r == Err::<
            Value,
            Error,
        >(e),
{
    parse(next, lexer, None)
}

/// Parse a value, limiting the nesting to `depth`: every value, scalar or
/// nested, costs one level, and at level zero parsing fails with
/// [`Error::Depth`].
pub fn parse_bounded<L: crate::LexAlloc + ?Sized>(depth: usize, next: u8, lexer: &mut L) -> (r:
    Result<Value, Error>)
    requires
        old(lexer).remaining().len() > 0,
        old(lexer).remaining()[0] == next,
    ensures
        value_model(old(lexer).remaining(), Some(depth as nat), str::Tier::Decoded) matches Ok(p)
            ==> r matches Ok(v) && v.model() == p.0 && final(lexer).remaining()
            == old(lexer).remaining().skip(p.1 as int),
        value_model(old(lexer).remaining(), Some(depth as nat), str::Tier::Decoded) matches Err(e)
            ==> r == Err::<Value, Error>(e),
{
    parse(next, lexer, Some(depth))
}

/// Parsing exactly one value: the input may hold leading and trailing
/// whitespace around the value, and nothing else.
pub open spec fn exactly_one_model(s: Seq<u8>, depth: Option<nat>, tier: str::Tier) -> Result<
    ValueModel,
    Error,
> {
    let w = wsc(s);
    let s1 = s.skip(w);
    match value_model(s1, depth, tier) {
        Err(e) => Err(e),
        Ok(p) => {
            let c1: int = if 1 <= p.1 && w + p.1 <= s.len() {
                w + p.1 as int
            } else {
                s.len() as int
            };
            let s2 = s.skip(c1);
            if s2.skip(wsc(s2)).len() == 0 {
                Ok(p.0)
            } else {
                Err(Error::Token(Expect::Eof))
            }
        },
    }
}

/// Parse exactly one value and require that nothing but whitespace follows.
pub fn exactly_one<L: crate::LexAlloc + ?Sized>(lexer: &mut L) -> (r: Result<Value, Error>)
    ensures
        exactly_one_model(old(lexer).remaining(), None, str::Tier::Decoded) matches Ok(m) ==> r
            matches Ok(v) && v.model() == m && final(lexer).remaining().len() == 0,
        exactly_one_model(old(lexer).remaining(), None, str::Tier::Decoded) matches Err(e) ==> r
            == Err::<Value, Error>(e),
{
    let ghost s0 = lexer.remaining();
    proof {
        token::lemma_ws_count(s0);
    }
    let next = match lexer.ws_peek() {
        None => {
            proof {
                lemma_value_model_empty(s0.skip(wsc(s0)), None, str::Tier::Decoded);
            }
            return Err(Error::Token(Expect::Value));
        },
        Some(c) => c,
    };
    let ghost s1 = s0.skip(wsc(s0));
    proof {
        lemma_value_model_len(s1, None, str::Tier::Decoded);
    }
    let v = match parse(next, lexer, None) {
        Ok(v) => v,
        Err(e) => {
            return Err(e);
        },
    };
    let ghost p = value_model(s1, None, str::Tier::Decoded)->Ok_0;
    proof {
        assert(s1.skip(p.1 as int) =~= s0.skip(wsc(s0) + p.1 as int));
        token::lemma_ws_count(s0.skip(wsc(s0) + p.1 as int));
    }
    match lexer.ws_peek() {
        None => Ok(v),
        Some(_) => Err(Error::Token(Expect::Eof)),
    }
}

/// Parsing successive values separated by whitespace until the input is
/// exhausted, stopping at the first error.
pub open spec fn many_model(s: Seq<u8>, depth: Option<nat>, tier: str::Tier) -> Result<
    Seq<ValueModel>,
    Error,
>
    decreases s.len(),
{
    let w = wsc(s);
    let s1 = s.skip(w);
    if s1.len() == 0 {
        Ok(Seq::empty())
    } else {
        match value_model(s1, depth, tier) {
            Err(e) => Err(e),
            Ok(p) => {
                let c1: int = if 1 <= p.1 && w + p.1 <= s.len() {
                    w + p.1 as int
                } else {
                    s.len() as int
                };
                if c1 < 1 {
                    Err(Error::Token(Expect::Value))
                } else {
                    match many_model(s.skip(c1), depth, tier) {
                        Err(e) => Err(e),
                        Ok(items) => Ok(seq![p.0] + items),
                    }
                }
            },
        }
    }
}

/// Parse successive values until the input is exhausted, stopping at the
/// first error.
pub fn many<L: crate::LexAlloc + ?Sized>(lexer: &mut L) -> (r: Result<Vec<Value>, Error>)
    ensures
        many_model(old(lexer).remaining(), None, str::Tier::Decoded) matches Ok(ms) ==> r matches
            Ok(vs) && vs@.len() == ms.len() && (forall|i: int|
            0 <= i < vs@.len() ==> vs@[i].model() == ms[i]) && final(lexer).remaining().len()
            == 0,
        many_model(old(lexer).remaining(), None, str::Tier::Decoded) matches Err(e) ==> r == Err::<
            Vec<Value>,
            Error,
        >(e),
{
    let ghost s0 = lexer.remaining();
    let mut values: Vec<Value> = Vec::new();
    let ghost mut cnt: int = 0;
    let ghost mut accm: Seq<ValueModel> = Seq::empty();
    proof {
        lexer.remaining_bounded();
        assert(s0.skip(0) =~= s0);
        match many_model(s0, None, str::Tier::Decoded) {
            Ok(ms) => {
                assert(Seq::<ValueModel>::empty() + ms =~= ms);
            },
            Err(_) => {
            },
        }
    }
    loop
        invariant
            s0 == old(lexer).remaining(),
            0 <= cnt <= s0.len(),
            lexer.remaining() == s0.skip(cnt),
            values@.len() == accm.len(),
            forall|i: int| 0 <= i < values@.len() ==> values@[i].model() == accm[i],
            (match many_model(s0.skip(cnt), None, str::Tier::Decoded) {
                Ok(ms) => many_model(s0, None, str::Tier::Decoded) == Ok::<Seq<ValueModel>, Error>(
                    accm + ms,
                ),
                Err(e) => many_model(s0, None, str::Tier::Decoded) == Err::<
                    Seq<ValueModel>,
                    Error,
                >(e),
            }),
        decreases s0.len() - cnt,
    {
        let ghost sp = s0.skip(cnt);
        let ghost w = wsc(sp);
        let ghost s1 = sp.skip(w);
        proof {
            token::lemma_ws_count(sp);
        }
        let next = match lexer.ws_peek() {
            None => {
                proof {
                    assert(accm + Seq::<ValueModel>::empty() =~= accm);
                }
                return Ok(values);
            },
            Some(c) => c,
        };
        proof {
            lemma_value_model_len(s1, None, str::Tier::Decoded);
        }
        let v = match parse(next, lexer, None) {
            Ok(v) => v,
            Err(e) => {
                return Err(e);
            },
        };
        let ghost p = value_model(s1, None, str::Tier::Decoded)->Ok_0;
        values.push(v);
        proof {
            let c1 = w + p.1 as int;
            assert(s1.skip(p.1 as int) =~= sp.skip(c1));
            assert(sp.skip(c1) =~= s0.skip(cnt + c1));
            match many_model(s0.skip(cnt + c1), None, str::Tier::Decoded) {
                Ok(ms) => {
                    assert((accm + seq![p.0]) + ms =~= accm + (seq![p.0] + ms));
                },
                Err(_) => {
                },
            }
            cnt = cnt + c1;
            accm = accm + seq![p.0];
        }
    }
}

/// The compact serialized form of a value: minimal whitespace, strings
/// escaped as in [`str::str_escaped`], numbers by their captured text.
pub open spec fn ser_value(m: ValueModel) -> Seq<u8>
    decreases m,
{
    match m {
        ValueModel::Null => seq![0x6Eu8, 0x75u8, 0x6Cu8, 0x6Cu8],
        ValueModel::Bool(b) => if b {
            seq![0x74u8, 0x72u8, 0x75u8, 0x65u8]
        } else {
            seq![0x66u8, 0x61u8, 0x6Cu8, 0x73u8, 0x65u8]
        },
        ValueModel::Number(text, _) => text,
        ValueModel::String(s) => seq![0x22u8] + str::str_escaped(s) + seq![0x22u8],
        ValueModel::Array(items) => seq![0x5Bu8] + ser_arr_items(items, true) + seq![0x5Du8],
        ValueModel::Object(entries) => seq![0x7Bu8] + ser_obj_items(entries, true) + seq![0x7Du8],
    }
}

/// The serialized items of an array, comma-separated.
pub open spec fn ser_arr_items(items: Seq<ValueModel>, first: bool) -> Seq<u8>
    decreases items,
{
    if items.len() == 0 {
        Seq::empty()
    } else {
        (if first {
            Seq::empty()
        } else {
            seq![0x2Cu8]
        }) + ser_value(items[0]) + ser_arr_items(items.drop_first(), false)
    }
}

/// The serialized entries of an object, comma-separated, each a key string,
/// a colon and a value.
pub open spec fn ser_obj_items(entries: Seq<(Seq<u8>, ValueModel)>, first: bool) -> Seq<u8>
    decreases entries,
{
    if entries.len() == 0 {
        Seq::empty()
    } else {
        (if first {
            Seq::empty()
        } else {
            seq![0x2Cu8]
        }) + seq![0x22u8] + str::str_escaped(entries[0].0) + seq![0x22u8, 0x3Au8] + ser_value(
            entries[0].1,
        ) + ser_obj_items(entries.drop_first(), false)
    }
}

/// Serializing no items yields no bytes.
proof fn lemma_ser_items_empty(items: Seq<ValueModel>, entries: Seq<(Seq<u8>, ValueModel)>, first: bool)
    requires
        items.len() == 0,
        entries.len() == 0,
    ensures
        ser_arr_items(items, first) == Seq::<u8>::empty(),
        ser_obj_items(entries, first) == Seq::<u8>::empty(),
{
    reveal_with_fuel(ser_arr_items, 1);
    reveal_with_fuel(ser_obj_items, 1);
}

/// How a single value serializes, by its variant.
proof fn lemma_ser_value_step(m: ValueModel)
    ensures
        m is Null ==> ser_value(m) == seq![0x6Eu8, 0x75u8, 0x6Cu8, 0x6Cu8],
        m is Bool ==> ser_value(m) == (if m->Bool_0 {
            seq![0x74u8, 0x72u8, 0x75u8, 0x65u8]
        } else {
            seq![0x66u8, 0x61u8, 0x6Cu8, 0x73u8, 0x65u8]
        }),
        m is Number ==> ser_value(m) == m->Number_0,
        m is String ==> ser_value(m) == seq![0x22u8] + str::str_escaped(m->String_0) + seq![
            0x22u8,
        ],
        m is Array ==> ser_value(m) == seq![0x5Bu8] + ser_arr_items(m->Array_0, true) + seq![
            0x5Du8,
        ],
        m is Object ==> ser_value(m) == seq![0x7Bu8] + ser_obj_items(m->Object_0, true) + seq![
            0x7Du8,
        ],
{
    reveal_with_fuel(ser_value, 1);
}

/// One step of serializing array items.
proof fn lemma_ser_arr_items_step(items: Seq<ValueModel>, first: bool)
    requires
        items.len() > 0,
    ensures
        ser_arr_items(items, first) == (if first {
            Seq::<u8>::empty()
        } else {
            seq![0x2Cu8]
        }) + ser_value(items[0]) + ser_arr_items(items.drop_first(), false),
{
    reveal_with_fuel(ser_arr_items, 2);
}

/// One step of serializing object entries.
proof fn lemma_ser_obj_items_step(entries: Seq<(Seq<u8>, ValueModel)>, first: bool)
    requires
        entries.len() > 0,
    ensures
        ser_obj_items(entries, first) == (if first {
            Seq::<u8>::empty()
        } else {
            seq![0x2Cu8]
        }) + seq![0x22u8] + str::str_escaped(entries[0].0) + seq![0x22u8, 0x3Au8] + ser_value(
            entries[0].1,
        ) + ser_obj_items(entries.drop_first(), false),
{
    reveal_with_fuel(ser_obj_items, 2);
}

impl Value {
    /// Append the compact serialized form of this value to `out`.
    #[verifier::rlimit(100)]
    pub fn write_to(&self, out: &mut Vec<u8>)
        ensures
            final(out)@ == old(out)@ + ser_value(self.model()),
        decreases *self, 0int,
    {
        match self {
            Value::Null => {
                proof {
                    lemma_ser_value_step(self.model());
                }
                out.push(0x6E);
                out.push(0x75);
                out.push(0x6C);
                out.push(0x6C);
                proof {
                    assert(out@ =~= old(out)@ + ser_value(self.model()));
                }
            },
            Value::Bool(b) => {
                proof {
                    lemma_ser_value_step(self.model());
                }
                if *b {
                    out.push(0x74);
                    out.push(0x72);
                    out.push(0x75);
                    out.push(0x65);
                } else {
                    out.push(0x66);
                    out.push(0x61);
                    out.push(0x6C);
                    out.push(0x73);
                    out.push(0x65);
                }
                proof {
                    assert(out@ =~= old(out)@ + ser_value(self.model()));
                }
            },
            Value::Number(np) => {
                proof {
                    lemma_ser_value_step(self.model());
                }
                append_bytes(out, &np.0);
            },
            Value::String(s) => {
                proof {
                    lemma_ser_value_step(self.model());
                }
                crate::str::escape_into(out, s);
                proof {
                    assert(out@ =~= old(out)@ + ser_value(self.model()));
                }
            },
            Value::Array(a) => {
                proof {
                    lemma_ser_value_step(self.model());
                }
                out.push(0x5B);
                let ghost base = out@;
                let ghost ms = (self.model())->Array_0;
                let mut i: usize = 0;
                proof {
                    assert(ms.skip(0) =~= ms);
                    assert(base + Seq::<u8>::empty() =~= base);
                }
                while i < a.len()
                    invariant
                        0 <= i <= a@.len(),
                        ms.len() == a@.len(),
                        forall|j: int| 0 <= j < a@.len() ==> #[trigger] ms[j] == a@[j].model(),
                        ser_arr_items(ms, true) == out@.skip(base.len() as int) + ser_arr_items(
                            ms.skip(i as int),
                            i == 0,
                        ),
                        out@.len() >= base.len(),
                        out@.subrange(0, base.len() as int) == base,
                        base == old(out)@ + seq![0x5Bu8],
                        self is Array,
                        a == self->Array_0,
                        ms == (self.model())->Array_0,
                    decreases a@.len() - i,
                {
                    let ghost pre = out@;
                    if i > 0 {
                        out.push(0x2C);
                    }
                    proof {
                        assert(decreases_to!(*self => self->Array_0@[i as int]));
                    }
                    a[i].write_to(out);
                    proof {
                        assert(ms.skip(i as int)[0] == ms[i as int]);
                        assert(ms.skip(i as int).drop_first() =~= ms.skip(i + 1));
                        lemma_ser_arr_items_step(ms.skip(i as int), i == 0);
                        assert(ser_arr_items(ms.skip(i as int), i == 0) == (if i == 0 {
                            Seq::<u8>::empty()
                        } else {
                            seq![0x2Cu8]
                        }) + ser_value(ms[i as int]) + ser_arr_items(ms.skip(i + 1), false));
                        assert(out@.skip(base.len() as int) =~= pre.skip(base.len() as int) + (
                        if i == 0 {
                            Seq::<u8>::empty()
                        } else {
                            seq![0x2Cu8]
                        }) + ser_value(ms[i as int]));
                        assert(ser_arr_items(ms, true) =~= out@.skip(base.len() as int)
                            + ser_arr_items(ms.skip(i + 1), false));
                        assert(out@.subrange(0, base.len() as int) =~= base);
                    }
                    i = i + 1;
                }
                proof {
                    lemma_ser_items_empty(
                        ms.skip(i as int),
                        Seq::<(Seq<u8>, ValueModel)>::empty(),
                        i == 0,
                    );
                    assert(out@ =~= out@.subrange(0, base.len() as int) + out@.skip(
                        base.len() as int,
                    ));
                    assert(out@ =~= base + ser_arr_items(ms, true));
                }
                out.push(0x5D);
                proof {
                    lemma_ser_value_step(self.model());
                    assert(out@ =~= old(out)@ + ser_value(self.model()));
                }
            },
            Value::Object(o) => {
                proof {
                    lemma_ser_value_step(self.model());
                }
                out.push(0x7B);
                let ghost base = out@;
                let ghost ms = (self.model())->Object_0;
                let mut i: usize = 0;
                proof {
                    assert(ms.skip(0) =~= ms);
                    assert(base + Seq::<u8>::empty() =~= base);
                }
                while i < o.len()
                    invariant
                        0 <= i <= o@.len(),
                        ms.len() == o@.len(),
                        forall|j: int|
                            0 <= j < o@.len() ==> #[trigger] ms[j] == (o@[j].0@, o@[j].1.model()),
                        ser_obj_items(ms, true) == out@.skip(base.len() as int) + ser_obj_items(
                            ms.skip(i as int),
                            i == 0,
                        ),
                        out@.len() >= base.len(),
                        out@.subrange(0, base.len() as int) == base,
                        base == old(out)@ + seq![0x7Bu8],
                        self is Object,
                        o == self->Object_0,
                        ms == (self.model())->Object_0,
                    decreases o@.len() - i,
                {
                    let ghost pre = out@;
                    if i > 0 {
                        out.push(0x2C);
                    }
                    crate::str::escape_into(out, &o[i].0);
                    out.push(0x3A);
                    proof {
                        assert(decreases_to!(*self => self->Object_0@[i as int].1));
                    }
                    o[i].1.write_to(out);
                    proof {
                        assert(ms.skip(i as int)[0] == ms[i as int]);
                        assert(ms.skip(i as int).drop_first() =~= ms.skip(i + 1));
                        lemma_ser_obj_items_step(ms.skip(i as int), i == 0);
                        assert(ser_obj_items(ms.skip(i as int), i == 0) == (if i == 0 {
                            Seq::<u8>::empty()
                        } else {
                            seq![0x2Cu8]
                        }) + seq![0x22u8] + str::str_escaped(ms[i as int].0) + seq![
                            0x22u8,
                            0x3Au8,
                        ] + ser_value(ms[i as int].1) + ser_obj_items(ms.skip(i + 1), false));
                        assert(out@.skip(base.len() as int) =~= pre.skip(base.len() as int) + (
                        if i == 0 {
                            Seq::<u8>::empty()
                        } else {
                            seq![0x2Cu8]
                        }) + seq![0x22u8] + str::str_escaped(ms[i as int].0) + seq![
                            0x22u8,
                            0x3Au8,
                        ] + ser_value(ms[i as int].1));
                        assert(ser_obj_items(ms, true) =~= out@.skip(base.len() as int)
                            + ser_obj_items(ms.skip(i + 1), false));
                        assert(out@.subrange(0, base.len() as int) =~= base);
                    }
                    i = i + 1;
                }
                proof {
                    lemma_ser_items_empty(
                        Seq::<ValueModel>::empty(),
                        ms.skip(i as int),
                        i == 0,
                    );
                    assert(out@ =~= out@.subrange(0, base.len() as int) + out@.skip(
                        base.len() as int,
                    ));
                    assert(out@ =~= base + ser_obj_items(ms, true));
                }
                out.push(0x7D);
                proof {
                    lemma_ser_value_step(self.model());
                    assert(out@ =~= old(out)@ + ser_value(self.model()));
                }
            },
        }
    }

    /// The compact serialized form of this value.
    pub fn serialize(&self) -> (r: Vec<u8>)
        ensures
            r@ == ser_value(self.model()),
    {
        let mut out: Vec<u8> = Vec::new();
        self.write_to(&mut out);
        proof {
            assert(out@ =~= ser_value(self.model()));
        }
        out
    }
}

/// Append all bytes of `b` to `out`.
fn append_bytes(out: &mut Vec<u8>, b: &Vec<u8>)
    ensures
        final(out)@ == old(out)@ + b@,
{
    let mut i: usize = 0;
    proof {
        assert(b@.take(0) =~= Seq::<u8>::empty());
        assert(out@ + b@.take(0) =~= out@);
    }
    while i < b.len()
        invariant
            0 <= i <= b@.len(),
            out@ == old(out)@ + b@.take(i as int),
        decreases b@.len() - i,
    {
        out.push(b[i]);
        proof {
            assert(b@.take(i + 1) =~= b@.take(i as int).push(b@[i as int]));
            assert(out@ =~= old(out)@ + b@.take(i + 1));
        }
        i = i + 1;
    }
    proof {
        assert(b@.take(b@.len() as int) =~= b@);
    }
}

/// The nesting depth of a value: scalars sit at depth one, and arrays and
/// objects one level above their deepest child (or at depth one when empty).
pub open spec fn depth_of(m: ValueModel) -> nat
    decreases m,
{
    match m {
        ValueModel::Array(items) => 1 + depth_of_items(items),
        ValueModel::Object(entries) => 1 + depth_of_entries(entries),
        _ => 1,
    }
}

/// The deepest nesting among the given array items.
pub open spec fn depth_of_items(items: Seq<ValueModel>) -> nat
    decreases items,
{
    if items.len() == 0 {
        0
    } else if depth_of(items[0]) >= depth_of_items(items.drop_first()) {
        depth_of(items[0])
    } else {
        depth_of_items(items.drop_first())
    }
}

/// The deepest nesting among the values of the given object entries.
pub open spec fn depth_of_entries(entries: Seq<(Seq<u8>, ValueModel)>) -> nat
    decreases entries,
{
    if entries.len() == 0 {
        0
    } else if depth_of(entries[0].1) >= depth_of_entries(entries.drop_first()) {
        depth_of(entries[0].1)
    } else {
        depth_of_entries(entries.drop_first())
    }
}

/// Splitting off the first array item splits its depth measure.
proof fn lemma_depth_of_items_cons(v: ValueModel, items: Seq<ValueModel>)
    ensures
        depth_of_items(seq![v] + items) == (if depth_of(v) >= depth_of_items(items) {
            depth_of(v)
        } else {
            depth_of_items(items)
        }),
{
    assert((seq![v] + items)[0] == v);
    assert((seq![v] + items).drop_first() =~= items);
}

/// Splitting off the first object entry splits its depth measure.
proof fn lemma_depth_of_entries_cons(e: (Seq<u8>, ValueModel), entries: Seq<(Seq<u8>, ValueModel)>)
    ensures
        depth_of_entries(seq![e] + entries) == (if depth_of(e.1) >= depth_of_entries(entries) {
            depth_of(e.1)
        } else {
            depth_of_entries(entries)
        }),
{
    assert((seq![e] + entries)[0] == e);
    assert((seq![e] + entries).drop_first() =~= entries);
}

/// Depth bound: where the unbounded parse yields a value, the parse bounded
/// by `d` yields the very same value and consumes the same bytes whenever
/// the value's nesting depth stays within `d`, and fails with
/// [`Error::Depth`] whenever it exceeds `d`.
pub proof fn lemma_depth_bound(s: Seq<u8>, d: nat, tier: str::Tier)
    ensures
        value_model(s, None, tier) matches Ok(p) ==> (depth_of(p.0) <= d ==> value_model(
            s,
            Some(d),
            tier,
        ) == Ok::<(ValueModel, nat), Error>(p)) && (depth_of(p.0) > d ==> value_model(
            s,
            Some(d),
            tier,
        ) == Err::<(ValueModel, nat), Error>(Error::Depth)),
    decreases s.len(), 1int,
{
    reveal(value_model);
    reveal(arr_model);
    reveal(arr_items);
    reveal(obj_model);
    reveal(obj_items);
    if value_model(s, None, tier) is Ok && s.len() > 0 && d >= 1 {
        let c = s[0];
        if c == 0x5B {
            lemma_depth_bound_arr_model(s.skip(1), (d - 1) as nat, tier);
        } else if c == 0x7B {
            lemma_depth_bound_obj_model(s.skip(1), (d - 1) as nat, tier);
        }
    }
}

/// Depth bound for the array driver.
proof fn lemma_depth_bound_arr_model(s: Seq<u8>, d: nat, tier: str::Tier)
    ensures
        arr_model(s, None, tier) matches Ok(p) ==> (depth_of_items(p.0) <= d ==> arr_model(
            s,
            Some(d),
            tier,
        ) == Ok::<(Seq<ValueModel>, nat), Error>(p)) && (depth_of_items(p.0) > d ==> arr_model(
            s,
            Some(d),
            tier,
        ) == Err::<(Seq<ValueModel>, nat), Error>(Error::Depth)),
    decreases s.len(), 4int,
{
    reveal(value_model);
    reveal(arr_model);
    reveal(arr_items);
    reveal(obj_model);
    reveal(obj_items);
    token::lemma_ws_count(s);
    lemma_depth_bound_arr_items(s, d, tier);
}

/// Depth bound for comma-separated array items.
proof fn lemma_depth_bound_arr_items(s: Seq<u8>, d: nat, tier: str::Tier)
    ensures
        arr_items(s, None, tier) matches Ok(p) ==> (depth_of_items(p.0) <= d ==> arr_items(
            s,
            Some(d),
            tier,
        ) == Ok::<(Seq<ValueModel>, nat), Error>(p)) && (depth_of_items(p.0) > d ==> arr_items(
            s,
            Some(d),
            tier,
        ) == Err::<(Seq<ValueModel>, nat), Error>(Error::Depth)),
    decreases s.len(), 3int,
{
    reveal(value_model);
    reveal(arr_model);
    reveal(arr_items);
    reveal(obj_model);
    reveal(obj_items);
    token::lemma_ws_count(s);
    let w = wsc(s);
    let s1 = s.skip(w);
    lemma_value_model_len(s1, None, tier);
    lemma_depth_bound(s1, d, tier);
    match value_model(s1, None, tier) {
        Err(_) => {
        },
        Ok(p) => {
            let c1: int = if 1 <= p.1 && w + p.1 <= s.len() {
                w + p.1 as int
            } else {
                s.len() as int
            };
            let s2 = s.skip(c1);
            token::lemma_ws_count(s2);
            let w2 = wsc(s2);
            let s3 = s2.skip(w2);
            if s3.len() > 0 && s3[0] == 0x5D {
                lemma_depth_of_items_cons(p.0, Seq::empty());
            } else if s3.len() > 0 && s3[0] == 0x2C {
                lemma_depth_bound_arr_items(s.skip(c1 + w2 + 1), d, tier);
                match arr_items(s.skip(c1 + w2 + 1), None, tier) {
                    Err(_) => {
                    },
                    Ok(q) => {
                        lemma_depth_of_items_cons(p.0, q.0);
                    },
                }
            }
        },
    }
}

/// Depth bound for the object driver.
proof fn lemma_depth_bound_obj_model(s: Seq<u8>, d: nat, tier: str::Tier)
    ensures
        obj_model(s, None, tier) matches Ok(p) ==> (depth_of_entries(p.0) <= d ==> obj_model(
            s,
            Some(d),
            tier,
        ) == Ok::<(Seq<(Seq<u8>, ValueModel)>, nat), Error>(p)) && (depth_of_entries(p.0) > d
            ==> obj_model(s, Some(d), tier) == Err::<(Seq<(Seq<u8>, ValueModel)>, nat), Error>(
            Error::Depth,
        )),
    decreases s.len(), 4int,
{
    reveal(value_model);
    reveal(arr_model);
    reveal(arr_items);
    reveal(obj_model);
    reveal(obj_items);
    token::lemma_ws_count(s);
    lemma_depth_bound_obj_items(s, d, tier);
}

/// Depth bound for comma-separated object entries.
proof fn lemma_depth_bound_obj_items(s: Seq<u8>, d: nat, tier: str::Tier)
    ensures
        obj_items(s, None, tier) matches Ok(p) ==> (depth_of_entries(p.0) <= d ==> obj_items(
            s,
            Some(d),
            tier,
        ) == Ok::<(Seq<(Seq<u8>, ValueModel)>, nat), Error>(p)) && (depth_of_entries(p.0) > d
            ==> obj_items(s, Some(d), tier) == Err::<(Seq<(Seq<u8>, ValueModel)>, nat), Error>(
            Error::Depth,
        )),
    decreases s.len(), 3int,
{
    reveal(value_model);
    reveal(arr_model);
    reveal(arr_items);
    reveal(obj_model);
    reveal(obj_items);
    token::lemma_ws_count(s);
    let w = wsc(s);
    let s1 = s.skip(w);
    if s1.len() > 0 && s1[0] == 0x22 {
        str::lemma_str_model_len(s1.skip(1), tier);
        match str::str_model(s1.skip(1), tier) {
            Err(_) => {
            },
            Ok(kp) => {
                let c1: int = if 1 <= kp.1 && w + 1 + kp.1 <= s.len() {
                    w + 1 + kp.1 as int
                } else {
                    s.len() as int
                };
                let s2 = s.skip(c1);
                token::lemma_ws_count(s2);
                let w2 = wsc(s2);
                let s3 = s2.skip(w2);
                if s3.len() > 0 && s3[0] == 0x3A {
                    let c2 = c1 + w2 + 1;
                    let s4 = s.skip(c2);
                    token::lemma_ws_count(s4);
                    let w3 = wsc(s4);
                    let s5 = s4.skip(w3);
                    lemma_value_model_len(s5, None, tier);
                    lemma_depth_bound(s5, d, tier);
                    match value_model(s5, None, tier) {
                        Err(_) => {
                        },
                        Ok(p) => {
                            let c3: int = if 1 <= p.1 && c2 + w3 + p.1 <= s.len() {
                                c2 + w3 + p.1 as int
                            } else {
                                s.len() as int
                            };
                            let s6 = s.skip(c3);
                            token::lemma_ws_count(s6);
                            let w4 = wsc(s6);
                            let s7 = s6.skip(w4);
                            if s7.len() > 0 && s7[0] == 0x7D {
                                lemma_depth_of_entries_cons((kp.0, p.0), Seq::empty());
                            } else if s7.len() > 0 && s7[0] == 0x2C {
                                lemma_depth_bound_obj_items(s.skip(c3 + w4 + 1), d, tier);
                                match obj_items(s.skip(c3 + w4 + 1), None, tier) {
                                    Err(_) => {
                                    },
                                    Ok(q) => {
                                        lemma_depth_of_entries_cons((kp.0, p.0), q.0);
                                    },
                                }
                            }
                        },
                    }
                }
            },
        }
    }
}

/// Whether an error of the whole parser is a Unicode string error: the one
/// kind of error that only the decoding tiers can raise.
pub open spec fn is_str_unicode(e: Error) -> bool {
    match e {
        Error::Str(se) => str::is_unicode(se),
        _ => false,
    }
}

/// Discard agreement: discarding a value succeeds exactly when building it
/// succeeds and consumes the same bytes, except that the discarding parser
/// does not validate Unicode, so a value whose byte structure is sound but
/// whose string content is not Unicode passes the discarding parser and
/// fails the builder with a Unicode string error.  This is the sole
/// permitted divergence.
pub proof fn lemma_discard_agreement(s: Seq<u8>, depth: Option<nat>)
    ensures
        (match (value_model(s, depth, str::Tier::Raw), value_model(s, depth, str::Tier::Decoded)) {
            (Ok(p), Ok(q)) => p.1 == q.1,
            (Ok(_), Err(e)) => is_str_unicode(e),
            (Err(_), Ok(_)) => false,
            (Err(e), Err(e2)) => e2 == e || is_str_unicode(e2),
        }),
    decreases s.len(), 1int,
{
    reveal(value_model);
    reveal(arr_model);
    reveal(arr_items);
    reveal(obj_model);
    reveal(obj_items);
    if s.len() > 0 && depth != Some(0nat) {
        let c = s[0];
        let d2 = match depth {
            Some(d) => Some((d - 1) as nat),
            None => None::<nat>,
        };
        if c == 0x22 {
            str::lemma_str_tier_agreement(s.skip(1));
        } else if c == 0x5B {
            lemma_discard_agreement_arr_model(s.skip(1), d2);
        } else if c == 0x7B {
            lemma_discard_agreement_obj_model(s.skip(1), d2);
        }
    }
}

/// Discard agreement for the array driver.
proof fn lemma_discard_agreement_arr_model(s: Seq<u8>, depth: Option<nat>)
    ensures
        (match (arr_model(s, depth, str::Tier::Raw), arr_model(s, depth, str::Tier::Decoded)) {
            (Ok(p), Ok(q)) => p.1 == q.1,
            (Ok(_), Err(e)) => is_str_unicode(e),
            (Err(_), Ok(_)) => false,
            (Err(e), Err(e2)) => e2 == e || is_str_unicode(e2),
        }),
    decreases s.len(), 4int,
{
    reveal(value_model);
    reveal(arr_model);
    reveal(arr_items);
    reveal(obj_model);
    reveal(obj_items);
    token::lemma_ws_count(s);
    lemma_discard_agreement_arr_items(s, depth);
}

/// Discard agreement for comma-separated array items.
proof fn lemma_discard_agreement_arr_items(s: Seq<u8>, depth: Option<nat>)
    ensures
        (match (arr_items(s, depth, str::Tier::Raw), arr_items(s, depth, str::Tier::Decoded)) {
            (Ok(p), Ok(q)) => p.1 == q.1,
            (Ok(_), Err(e)) => is_str_unicode(e),
            (Err(_), Ok(_)) => false,
            (Err(e), Err(e2)) => e2 == e || is_str_unicode(e2),
        }),
    decreases s.len(), 3int,
{
    reveal(value_model);
    reveal(arr_model);
    reveal(arr_items);
    reveal(obj_model);
    reveal(obj_items);
    token::lemma_ws_count(s);
    let w = wsc(s);
    let s1 = s.skip(w);
    lemma_value_model_len(s1, depth, str::Tier::Raw);
    lemma_value_model_len(s1, depth, str::Tier::Decoded);
    lemma_discard_agreement(s1, depth);
    match (value_model(s1, depth, str::Tier::Raw), value_model(s1, depth, str::Tier::Decoded)) {
        (Ok(p), Ok(q)) => {
            let c1: int = if 1 <= p.1 && w + p.1 <= s.len() {
                w + p.1 as int
            } else {
                s.len() as int
            };
            let s2 = s.skip(c1);
            token::lemma_ws_count(s2);
            let w2 = wsc(s2);
            let s3 = s2.skip(w2);
            if s3.len() > 0 && s3[0] == 0x2C {
                lemma_discard_agreement_arr_items(s.skip(c1 + w2 + 1), depth);
            }
        },
        _ => {
        },
    }
}

/// Discard agreement for the object driver.
proof fn lemma_discard_agreement_obj_model(s: Seq<u8>, depth: Option<nat>)
    ensures
        (match (obj_model(s, depth, str::Tier::Raw), obj_model(s, depth, str::Tier::Decoded)) {
            (Ok(p), Ok(q)) => p.1 == q.1,
            (Ok(_), Err(e)) => is_str_unicode(e),
            (Err(_), Ok(_)) => false,
            (Err(e), Err(e2)) => e2 == e || is_str_unicode(e2),
        }),
    decreases s.len(), 4int,
{
    reveal(value_model);
    reveal(arr_model);
    reveal(arr_items);
    reveal(obj_model);
    reveal(obj_items);
    token::lemma_ws_count(s);
    lemma_discard_agreement_obj_items(s, depth);
}

/// Discard agreement for comma-separated object entries.
#[verifier::rlimit(100)]
proof fn lemma_discard_agreement_obj_items(s: Seq<u8>, depth: Option<nat>)
    ensures
        (match (obj_items(s, depth, str::Tier::Raw), obj_items(s, depth, str::Tier::Decoded)) {
            (Ok(p), Ok(q)) => p.1 == q.1,
            (Ok(_), Err(e)) => is_str_unicode(e),
            (Err(_), Ok(_)) => false,
            (Err(e), Err(e2)) => e2 == e || is_str_unicode(e2),
        }),
    decreases s.len(), 3int,
{
    reveal(value_model);
    reveal(arr_model);
    reveal(arr_items);
    reveal(obj_model);
    reveal(obj_items);
    token::lemma_ws_count(s);
    let w = wsc(s);
    let s1 = s.skip(w);
    if s1.len() > 0 && s1[0] == 0x22 {
        str::lemma_str_model_len(s1.skip(1), str::Tier::Raw);
        str::lemma_str_model_len(s1.skip(1), str::Tier::Decoded);
        str::lemma_str_tier_agreement(s1.skip(1));
        match (
            str::str_model(s1.skip(1), str::Tier::Raw),
            str::str_model(s1.skip(1), str::Tier::Decoded),
        ) {
            (Ok(kp), Ok(kq)) => {
                let c1: int = if 1 <= kp.1 && w + 1 + kp.1 <= s.len() {
                    w + 1 + kp.1 as int
                } else {
                    s.len() as int
                };
                let s2 = s.skip(c1);
                token::lemma_ws_count(s2);
                let w2 = wsc(s2);
                let s3 = s2.skip(w2);
                if s3.len() > 0 && s3[0] == 0x3A {
                    let c2 = c1 + w2 + 1;
                    let s4 = s.skip(c2);
                    token::lemma_ws_count(s4);
                    let w3 = wsc(s4);
                    let s5 = s4.skip(w3);
                    lemma_value_model_len(s5, depth, str::Tier::Raw);
                    lemma_value_model_len(s5, depth, str::Tier::Decoded);
                    lemma_discard_agreement(s5, depth);
                    match (
                        value_model(s5, depth, str::Tier::Raw),
                        value_model(s5, depth, str::Tier::Decoded),
                    ) {
                        (Ok(p), Ok(q)) => {
                            let c3: int = if 1 <= p.1 && c2 + w3 + p.1 <= s.len() {
                                c2 + w3 + p.1 as int
                            } else {
                                s.len() as int
                            };
                            let s6 = s.skip(c3);
                            token::lemma_ws_count(s6);
                            let w4 = wsc(s6);
                            let s7 = s6.skip(w4);
                            if s7.len() > 0 && s7[0] == 0x2C {
                                lemma_discard_agreement_obj_items(s.skip(c3 + w4 + 1), depth);
                            }
                        },
                        _ => {
                        },
                    }
                }
            },
            _ => {
            },
        }
    }
}

/// Discard agreement at the entry point: discarding exactly one value
/// succeeds exactly when building exactly one value succeeds, up to the
/// permitted Unicode divergence.
pub proof fn lemma_discard_agreement_exactly_one(s: Seq<u8>, depth: Option<nat>)
    ensures
        (match (
            exactly_one_model(s, depth, str::Tier::Raw),
            exactly_one_model(s, depth, str::Tier::Decoded),
        ) {
            (Ok(_), Ok(_)) => true,
            (Ok(_), Err(e)) => is_str_unicode(e),
            (Err(_), Ok(_)) => false,
            (Err(e), Err(e2)) => e2 == e || is_str_unicode(e2),
        }),
{
    token::lemma_ws_count(s);
    let w = wsc(s);
    let s1 = s.skip(w);
    lemma_value_model_len(s1, depth, str::Tier::Raw);
    lemma_value_model_len(s1, depth, str::Tier::Decoded);
    lemma_discard_agreement(s1, depth);
}

} // verus!