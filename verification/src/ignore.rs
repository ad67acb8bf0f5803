//! Discarding values.
//!
//! The functions here walk one JSON value and keep nothing of it.  They
//! never allocate and never decode: strings are only validated structurally
//! ([`str::Tier::Raw`]), so a string with valid escape structure but invalid
//! UTF-8, or with unpaired surrogate escapes, is accepted here although the
//! value builder rejects it.

use vstd::prelude::*;
use crate::str;
use crate::token;
use crate::token::Expect;
use crate::value::{
    arr_model, exactly_one_model, lemma_arr_items_step, lemma_arr_model_step,
    lemma_obj_items_step, lemma_obj_model_step, lemma_value_model_empty, lemma_value_model_len,
    lemma_value_model_step, many_model, obj_model, value_model, wsc,
};
use crate::Error;
use crate::Lex;

verus! {

/// Parse and discard a value.
///
/// `next` must be the first remaining byte of the input.
pub fn parse<L: Lex + ?Sized>(next: u8, lexer: &mut L) -> (r: Result<(), Error>)
    requires
        old(lexer).remaining().len() > 0,
        old(lexer).remaining()[0] == next,
    ensures
        value_model(old(lexer).remaining(), None, str::Tier::Raw) matches Ok(p) ==> r is Ok
            && final(lexer).remaining() == old(lexer).remaining().skip(p.1 as int),
        value_model(old(lexer).remaining(), None, str::Tier::Raw) matches Err(e) ==> r == Err::<
            (),
            Error,
        >(e),
    decreases lexer.remaining().len(), 0int,
{
    proof {
        lemma_value_model_step(lexer.remaining(), None, str::Tier::Raw);
    }
    let ghost s0 = lexer.remaining();
    if 0x61 <= next && next <= 0x7A {
        match lexer.null_or_bool() {
            Some(_) => Ok(()),
            None => Err(Error::Token(Expect::Value)),
        }
    } else if next == 0x2D {
        lexer.take_next();
        match crate::num::Lex::num_ignore(lexer) {
            Ok(_) => {
                proof {
                    crate::num::lemma_num_model_len(s0.skip(1));
                    match crate::num::num_model(s0.skip(1)) {
                        Ok(m) => {
                            assert(s0.skip(1).skip(m.len as int) =~= s0.skip(1 + m.len as int));
                        },
                        Err(_) => {
                        },
                    }
                }
                Ok(())
            },
            Err(e) => Err(Error::Num(e)),
        }
    } else if 0x30 <= next && next <= 0x39 {
        match crate::num::Lex::num_ignore(lexer) {
            Ok(_) => Ok(()),
            Err(e) => Err(Error::Num(e)),
        }
    } else if next == 0x22 {
        lexer.take_next();
        match crate::str::Lex::str_ignore(lexer) {
            Ok(_) => {
                proof {
                    str::lemma_str_model_len(s0.skip(1), str::Tier::Raw);
                    match str::str_model(s0.skip(1), str::Tier::Raw) {
                        Ok(p) => {
                            assert(s0.skip(1).skip(p.1 as int) =~= s0.skip(1 + p.1 as int));
                        },
                        Err(_) => {
                        },
                    }
                }
                Ok(())
            },
            Err(e) => Err(Error::Str(e)),
        }
    } else if next == 0x5B {
        lexer.take_next();
        match parse_arr(lexer) {
            Ok(_) => {
                proof {
                    crate::value::lemma_arr_model_len(s0.skip(1), None, str::Tier::Raw);
                    match arr_model(s0.skip(1), None, str::Tier::Raw) {
                        Ok(p) => {
                            assert(s0.skip(1).skip(p.1 as int) =~= s0.skip(1 + p.1 as int));
                        },
                        Err(_) => {
                        },
                    }
                }
                Ok(())
            },
            Err(e) => Err(e),
        }
    } else if next == 0x7B {
        lexer.take_next();
        match parse_obj(lexer) {
            Ok(_) => {
                proof {
                    crate::value::lemma_obj_model_len(s0.skip(1), None, str::Tier::Raw);
                    match obj_model(s0.skip(1), None, str::Tier::Raw) {
                        Ok(p) => {
                            assert(s0.skip(1).skip(p.1 as int) =~= s0.skip(1 + p.1 as int));
                        },
                        Err(_) => {
                        },
                    }
                }
                Ok(())
            },
            Err(e) => Err(e),
        }
    } else {
        Err(Error::Token(Expect::Value))
    }
}

/// Skip the items of an array, after the opening bracket.
#[verifier::rlimit(100)]
fn parse_arr<L: Lex + ?Sized>(lexer: &mut L) -> (r: Result<(), Error>)
    ensures
        arr_model(old(lexer).remaining(), None, str::Tier::Raw) matches Ok(p) ==> r is Ok
            && final(lexer).remaining() == old(lexer).remaining().skip(p.1 as int),
        arr_model(old(lexer).remaining(), None, str::Tier::Raw) matches Err(e) ==> r == Err::<
            (),
            Error,
        >(e),
    decreases lexer.remaining().len(), 1int,
{
    let ghost s0 = lexer.remaining();
    let ghost tier = str::Tier::Raw;
    proof {
        lemma_arr_model_step(s0, None, tier);
        token::lemma_ws_count(s0);
    }
    let mut next = match lexer.ws_peek() {
        None => {
            return Err(Error::Token(Expect::ValueOrEnd));
        },
        Some(c) => c,
    };
    if next == 0x5D {
        lexer.take_next();
        proof {
            assert(s0.skip(wsc(s0)).skip(1) =~= s0.skip(wsc(s0) + 1));
        }
        return Ok(());
    }
    let ghost mut cnt: int = 0;
    proof {
        assert(s0.skip(0) =~= s0);
    }
    loop
        invariant
            tier == str::Tier::Raw,
            s0 == old(lexer).remaining(),
            0 <= cnt <= s0.len(),
            lexer.remaining() == s0.skip(cnt).skip(wsc(s0.skip(cnt))),
            lexer.remaining().len() > 0,
            next == lexer.remaining()[0],
            (match crate::value::arr_items(s0.skip(cnt), None, tier) {
                Ok(q) => arr_model(s0, None, tier) matches Ok(t) && t.1 == cnt + q.1,
                Err(e) => arr_model(s0, None, tier) == Err::<
                    (Seq<crate::value::ValueModel>, nat),
                    Error,
                >(e),
            }),
        decreases s0.len() - cnt,
    {
        let ghost sp = s0.skip(cnt);
        let ghost w = wsc(sp);
        let ghost s1 = sp.skip(w);
        proof {
            lemma_arr_items_step(sp, None, tier);
            token::lemma_ws_count(sp);
            lemma_value_model_len(s1, None, tier);
        }
        match parse(next, lexer) {
            Ok(_) => {
            },
            Err(e) => {
                return Err(e);
            },
        };
        let ghost p = value_model(s1, None, tier)->Ok_0;
        let ghost c1 = w + p.1 as int;
        proof {
            assert(s1.skip(p.1 as int) =~= sp.skip(c1));
            assert(sp.skip(c1) =~= s0.skip(cnt + c1));
            token::lemma_ws_count(s0.skip(cnt + c1));
        }
        let sep = lexer.ws_peek();
        let ghost s2 = sp.skip(c1);
        let ghost w2 = wsc(s2);
        match sep {
            None => {
                return Err(Error::Token(Expect::CommaOrEnd));
            },
            Some(c) => {
                if c == 0x5D {
                    lexer.take_next();
                    proof {
                        assert(s2.skip(w2).skip(1) =~= s0.skip(cnt + c1 + w2 + 1));
                    }
                    return Ok(());
                } else if c == 0x2C {
                    lexer.take_next();
                    proof {
                        assert(s2.skip(w2).skip(1) =~= sp.skip(c1 + w2 + 1));
                        assert(sp.skip(c1 + w2 + 1) =~= s0.skip(cnt + c1 + w2 + 1));
                        token::lemma_ws_count(s0.skip(cnt + c1 + w2 + 1));
                    }
                    next = match lexer.ws_peek() {
                        None => {
                            proof {
                                let np = s0.skip(cnt + c1 + w2 + 1);
                                assert(sp.skip(c1 + w2 + 1) =~= np);
                                lemma_arr_items_step(np, None, tier);
                                lemma_value_model_empty(np.skip(wsc(np)), None, tier);
                            }
                            return Err(Error::Token(Expect::Value));
                        },
                        Some(n) => n,
                    };
                    proof {
                        let np = s0.skip(cnt + c1 + w2 + 1);
                        assert(sp.skip(c1 + w2 + 1) =~= np);
                        cnt = cnt + c1 + w2 + 1;
                    }
                } else {
                    return Err(Error::Token(Expect::CommaOrEnd));
                }
            },
        }
    }
}

/// Skip the entries of an object, after the opening brace.
#[verifier::rlimit(100)]
fn parse_obj<L: Lex + ?Sized>(lexer: &mut L) -> (r: Result<(), Error>)
    ensures
        obj_model(old(lexer).remaining(), None, str::Tier::Raw) matches Ok(p) ==> r is Ok
            && final(lexer).remaining() == old(lexer).remaining().skip(p.1 as int),
        obj_model(old(lexer).remaining(), None, str::Tier::Raw) matches Err(e) ==> r == Err::<
            (),
            Error,
        >(e),
    decreases lexer.remaining().len(), 1int,
{
    let ghost s0 = lexer.remaining();
    let ghost tier = str::Tier::Raw;
    proof {
        lemma_obj_model_step(s0, None, tier);
        token::lemma_ws_count(s0);
    }
    let mut next = match lexer.ws_peek() {
        None => {
            return Err(Error::Token(Expect::ValueOrEnd));
        },
        Some(c) => c,
    };
    if next == 0x7D {
        lexer.take_next();
        proof {
            assert(s0.skip(wsc(s0)).skip(1) =~= s0.skip(wsc(s0) + 1));
        }
        return Ok(());
    }
    let ghost mut cnt: int = 0;
    proof {
        assert(s0.skip(0) =~= s0);
    }
    loop
        invariant
            tier == str::Tier::Raw,
            s0 == old(lexer).remaining(),
            0 <= cnt <= s0.len(),
            lexer.remaining() == s0.skip(cnt).skip(wsc(s0.skip(cnt))),
            lexer.remaining().len() > 0,
            next == lexer.remaining()[0],
            (match crate::value::obj_items(s0.skip(cnt), None, tier) {
                Ok(q) => obj_model(s0, None, tier) matches Ok(t) && t.1 == cnt + q.1,
                Err(e) => obj_model(s0, None, tier) == Err::<
                    (Seq<(Seq<u8>, crate::value::ValueModel)>, nat),
                    Error,
                >(e),
            }),
        decreases s0.len() - cnt,
    {
        let ghost sp = s0.skip(cnt);
        let ghost w = wsc(sp);
        let ghost s1 = sp.skip(w);
        proof {
            lemma_obj_items_step(sp, None, tier);
            token::lemma_ws_count(sp);
        }
        if next != 0x22 {
            return Err(Error::Token(Expect::String));
        }
        lexer.take_next();
        proof {
            str::lemma_str_model_len(s1.skip(1), tier);
        }
        match crate::str::Lex::str_ignore(lexer) {
            Ok(_) => {
            },
            Err(e) => {
                return Err(Error::Str(e));
            },
        };
        let ghost kp = str::str_model(s1.skip(1), tier)->Ok_0;
        let ghost c1 = w + 1 + kp.1 as int;
        proof {
            assert(s1.skip(1).skip(kp.1 as int) =~= sp.skip(c1));
            assert(sp.skip(c1) =~= s0.skip(cnt + c1));
            token::lemma_ws_count(sp.skip(c1));
        }
        let ghost s2 = sp.skip(c1);
        let ghost w2 = wsc(s2);
        let colon = lexer.ws_peek();
        let has_colon = match colon {
            Some(c) => c == 0x3A,
            None => false,
        };
        if !has_colon {
            return Err(Error::Token(Expect::Colon));
        }
        lexer.take_next();
        let ghost c2 = c1 + w2 + 1;
        proof {
            assert(s2.skip(w2).skip(1) =~= sp.skip(c2));
            assert(sp.skip(c2) =~= s0.skip(cnt + c2));
            token::lemma_ws_count(sp.skip(c2));
        }
        let ghost s4 = sp.skip(c2);
        let ghost w3 = wsc(s4);
        let vnext = match lexer.ws_peek() {
            None => {
                proof {
                    assert(s4.skip(w3).len() == 0);
                    lemma_value_model_empty(s4.skip(w3), None, tier);
                }
                return Err(Error::Token(Expect::Value));
            },
            Some(n) => n,
        };
        let ghost s5 = s4.skip(w3);
        proof {
            lemma_value_model_len(s5, None, tier);
        }
        match parse(vnext, lexer) {
            Ok(_) => {
            },
            Err(e) => {
                return Err(e);
            },
        };
        let ghost p = value_model(s5, None, tier)->Ok_0;
        let ghost c3 = c2 + w3 + p.1 as int;
        proof {
            assert(s5.skip(p.1 as int) =~= sp.skip(c3));
            assert(sp.skip(c3) =~= s0.skip(cnt + c3));
            token::lemma_ws_count(sp.skip(c3));
        }
        let ghost s6 = sp.skip(c3);
        let ghost w4 = wsc(s6);
        let sep = lexer.ws_peek();
        match sep {
            None => {
                return Err(Error::Token(Expect::CommaOrEnd));
            },
            Some(c) => {
                if c == 0x7D {
                    lexer.take_next();
                    proof {
                        assert(s6.skip(w4).skip(1) =~= s0.skip(cnt + c3 + w4 + 1));
                    }
                    return Ok(());
                } else if c == 0x2C {
                    lexer.take_next();
                    proof {
                        assert(s6.skip(w4).skip(1) =~= sp.skip(c3 + w4 + 1));
                        assert(sp.skip(c3 + w4 + 1) =~= s0.skip(cnt + c3 + w4 + 1));
                        token::lemma_ws_count(s0.skip(cnt + c3 + w4 + 1));
                    }
                    next = match lexer.ws_peek() {
                        None => {
                            proof {
                                let np = s0.skip(cnt + c3 + w4 + 1);
                                assert(sp.skip(c3 + w4 + 1) =~= np);
                                lemma_obj_items_step(np, None, tier);
                                let w5 = wsc(np);
                                assert(np.skip(w5).len() == 0);
                            }
                            return Err(Error::Token(Expect::Value));
                        },
                        Some(n) => n,
                    };
                    proof {
                        let np = s0.skip(cnt + c3 + w4 + 1);
                        assert(sp.skip(c3 + w4 + 1) =~= np);
                        cnt = cnt + c3 + w4 + 1;
                    }
                } else {
                    return Err(Error::Token(Expect::CommaOrEnd));
                }
            },
        }
    }
}

/// Parse and discard exactly one value; nothing but whitespace may follow.
pub fn exactly_one<L: Lex + ?Sized>(lexer: &mut L) -> (r: Result<(), Error>)
    ensures
        exactly_one_model(old(lexer).remaining(), None, str::Tier::Raw) matches Ok(m) ==> r is Ok
            && final(lexer).remaining().len() == 0,
        exactly_one_model(old(lexer).remaining(), None, str::Tier::Raw) matches Err(e) ==> r
            == Err::<(), Error>(e),
{
    let ghost s0 = lexer.remaining();
    proof {
        token::lemma_ws_count(s0);
    }
    let next = match lexer.ws_peek() {
        None => {
            proof {
                lemma_value_model_empty(s0.skip(wsc(s0)), None, str::Tier::Raw);
            }
            return Err(Error::Token(Expect::Value));
        },
        Some(c) => c,
    };
    let ghost s1 = s0.skip(wsc(s0));
    proof {
        lemma_value_model_len(s1, None, str::Tier::Raw);
    }
    match parse(next, lexer) {
        Ok(_) => {
        },
        Err(e) => {
            return Err(e);
        },
    };
    let ghost p = value_model(s1, None, str::Tier::Raw)->Ok_0;
    proof {
        assert(s1.skip(p.1 as int) =~= s0.skip(wsc(s0) + p.1 as int));
        token::lemma_ws_count(s0.skip(wsc(s0) + p.1 as int));
    }
    match lexer.ws_peek() {
        None => Ok(()),
        Some(_) => Err(Error::Token(Expect::Eof)),
    }
}

/// Parse and discard successive values until the input is exhausted,
/// stopping at the first error.
pub fn many<L: Lex + ?Sized>(lexer: &mut L) -> (r: Result<(), Error>)
    ensures
        many_model(old(lexer).remaining(), None, str::Tier::Raw) matches Ok(ms) ==> r is Ok
            && final(lexer).remaining().len() == 0,
        many_model(old(lexer).remaining(), None, str::Tier::Raw) matches Err(e) ==> r == Err::<
            (),
            Error,
        >(e),
{
    let ghost s0 = lexer.remaining();
    let ghost mut cnt: int = 0;
    proof {
        lexer.remaining_bounded();
        assert(s0.skip(0) =~= s0);
    }
    loop
        invariant
            s0 == old(lexer).remaining(),
            0 <= cnt <= s0.len(),
            lexer.remaining() == s0.skip(cnt),
            (match many_model(s0.skip(cnt), None, str::Tier::Raw) {
                Ok(ms) => many_model(s0, None, str::Tier::Raw) is Ok,
                Err(e) => many_model(s0, None, str::Tier::Raw) == Err::<
                    Seq<crate::value::ValueModel>,
                    Error,
                >(e),
            }),
        decreases s0.len() - cnt,
    {
        let ghost sp = s0.skip(cnt);
        let ghost w = wsc(sp);
        let ghost s1 = sp.skip(w);
        proof {
            token::lemma_ws_count(sp);
        }
        let next = match lexer.ws_peek() {
            None => {
                return Ok(());
            },
            Some(c) => c,
        };
        proof {
            lemma_value_model_len(s1, None, str::Tier::Raw);
        }
        match parse(next, lexer) {
            Ok(_) => {
            },
            Err(e) => {
                return Err(e);
            },
        };
        let ghost p = value_model(s1, None, str::Tier::Raw)->Ok_0;
        proof {
            let c1 = w + p.1 as int;
            assert(s1.skip(p.1 as int) =~= sp.skip(c1));
            assert(sp.skip(c1) =~= s0.skip(cnt + c1));
            cnt = cnt + c1;
        }
    }
}

} // verus!
