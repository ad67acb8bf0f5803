use hifijson::num;
use hifijson::str as jstr;
use hifijson::value::{self, Value};
use hifijson::str::LexWrite;
use hifijson::token::Lex;
use hifijson::{escape, ignore, Error, Expect, IterLexer, Read, SliceLexer};

fn boole(b: bool) -> Value {
    Value::Bool(b)
}

fn num(n: &str, dot: Option<usize>, exp: Option<usize>) -> Value {
    let b = n.as_bytes();
    let zero = if b[0] == b'0' {
        Some(0)
    } else if b.len() >= 2 && b[0] == b'-' && b[1] == b'0' {
        Some(1)
    } else {
        None
    };
    Value::Number((b.to_vec(), num::Parts { zero, dot, exp }))
}

fn integer(i: &str) -> Value {
    num(i, None, None)
}

fn string(s: &str) -> Value {
    Value::String(s.as_bytes().to_vec())
}

fn arr(v: Vec<Value>) -> Value {
    Value::Array(v)
}

fn obj(v: Vec<(&str, Value)>) -> Value {
    Value::Object(v.into_iter().map(|(k, x)| (k.as_bytes().to_vec(), x)).collect())
}

fn parses_to(slice: &[u8], v: Value) -> Result<(), Error> {
    ignore::exactly_one(&mut SliceLexer::new(slice))?;
    ignore::exactly_one(&mut IterLexer::new(slice.to_vec()))?;

    let parsed = value::exactly_one(&mut SliceLexer::new(slice))?;
    assert_eq!(parsed, v);

    let parsed = value::exactly_one(&mut IterLexer::new(slice.to_vec()))?;
    assert_eq!(parsed, v);

    Ok(())
}

fn binary_one<L: hifijson::LexAlloc>(lexer: &mut L) -> Result<Vec<u8>, Error> {
    let next = lexer.ws_peek().ok_or(Error::Token(Expect::Value))?;
    if next != b'"' {
        return Err(Error::Token(Expect::String));
    }
    lexer.take_next();
    let bytes = lexer.str_binary().map_err(Error::Str)?;
    match lexer.ws_peek() {
        None => Ok(bytes),
        Some(_) => Err(Error::Token(Expect::Eof)),
    }
}

fn parses_to_binary_string(slice: &[u8], v: &[u8]) -> Result<(), Error> {
    ignore::exactly_one(&mut SliceLexer::new(slice))?;
    ignore::exactly_one(&mut IterLexer::new(slice.to_vec()))?;

    let parsed = binary_one(&mut SliceLexer::new(slice))?;
    assert_eq!(parsed, v);

    let parsed = binary_one(&mut IterLexer::new(slice.to_vec()))?;
    assert_eq!(parsed, v);

    Ok(())
}

fn fails_with(slice: &[u8], e: Error) {
    let parsed = ignore::exactly_one(&mut SliceLexer::new(slice));
    assert_eq!(parsed.unwrap_err(), e);

    let parsed = ignore::exactly_one(&mut IterLexer::new(slice.to_vec()));
    assert_eq!(parsed.unwrap_err(), e);

    parse_fails_with(slice, e)
}

fn parse_fails_with(slice: &[u8], e: Error) {
    let parsed = value::exactly_one(&mut SliceLexer::new(slice));
    assert_eq!(parsed.unwrap_err(), e);

    let parsed = value::exactly_one(&mut IterLexer::new(slice.to_vec()));
    assert_eq!(parsed.unwrap_err(), e);
}

#[test]
fn basic() -> Result<(), Error> {
    parses_to(b"null", Value::Null)?;
    parses_to(b"false", Value::Bool(false))?;
    parses_to(b"true", Value::Bool(true))?;

    fails_with(b"nul", Error::Token(Expect::Value));
    fails_with(b"fal", Error::Token(Expect::Value));
    fails_with(b"t", Error::Token(Expect::Value));
    fails_with(b"a", Error::Token(Expect::Value));

    fails_with(b"true false", Error::Token(Expect::Eof));

    Ok(())
}

#[test]
fn numbers() -> Result<(), Error> {
    parses_to(b"0", integer("0"))?;
    parses_to(b"42", integer("42"))?;
    parses_to(b"-0", integer("-0"))?;
    parses_to(b"-42", integer("-42"))?;

    parses_to(b"3.14", num("3.14", Some(1), None))?;

    // speed of light in m/s
    parses_to(b"299e6", num("299e6", None, Some(3)))?;
    // now a bit more precise
    parses_to(b"299.792e6", num("299.792e6", Some(3), Some(7)))?;
    parses_to(b"-1.2e3", num("-1.2e3", Some(2), Some(4)))?;

    fails_with(b"-", Error::Num(num::Error::ExpectedDigit));

    Ok(())
}

#[test]
fn strings() -> Result<(), Error> {
    // greetings to Japan
    parses_to(r#""Hello 日本""#.as_bytes(), string("Hello 日本"))?;
    // single-character escape sequences
    parses_to(br#""\"\\\/\b\f\n\r\t""#, string("\"\\/\u{8}\u{c}\n\r\t"))?;

    // UTF-16 surrogate pairs
    parses_to(br#""\uD801\uDC37""#, string("𐐷"))?;
    // the smallest value representable with a surrogate pair
    parses_to(br#""\ud800\udc00""#, string("𐀀"))?;
    // the largest value representable with a surrogate pair
    parses_to(br#""\udbff\udfff""#, string("\u{10FFFF}"))?;

    parses_to(br#""aa\nbb\ncc""#, string("aa\nbb\ncc"))?;

    let escape = |e| Error::Str(jstr::Error::Escape(e));

    fails_with(br#""\X""#, escape(escape::Error::InvalidKind(b'X')));
    fails_with(br#""\U""#, escape(escape::Error::InvalidKind(b'U')));
    fails_with(br#""\"#, escape(escape::Error::Eof));
    fails_with(br#""\u00"#, escape(escape::Error::Eof));

    fails_with("\"\u{0}\"".as_bytes(), Error::Str(jstr::Error::Control));
    // corresponds to ASCII code 31 in decimal notation
    fails_with("\"\u{1F}\"".as_bytes(), Error::Str(jstr::Error::Control));
    fails_with(br#""abcd"#, Error::Str(jstr::Error::Eof));

    parse_fails_with(br#""\uDC37""#, escape(escape::Error::InvalidChar(0xdc37)));
    parse_fails_with(br#""\uD801""#, escape(escape::Error::ExpectedLowSurrogate));

    let s = [34, 159, 146, 150];
    assert!(std::str::from_utf8(&s[1..]).is_err());
    parse_fails_with(&s, Error::Str(jstr::Error::Utf8));

    Ok(())
}

#[test]
fn arrays() -> Result<(), Error> {
    parses_to(b"[]", arr(vec![]))?;
    parses_to(b"[false, true]", arr(vec![boole(false), boole(true)]))?;
    parses_to(b"[0, 1]", arr(vec![integer("0"), integer("1")]))?;
    parses_to(b"[[]]", arr(vec![arr(vec![])]))?;

    fails_with(b"[", Error::Token(Expect::ValueOrEnd));
    fails_with(b"[1", Error::Token(Expect::CommaOrEnd));
    fails_with(b"[1 2", Error::Token(Expect::CommaOrEnd));
    fails_with(b"[1,", Error::Token(Expect::Value));

    Ok(())
}

#[test]
fn objects() -> Result<(), Error> {
    parses_to(b"{}", obj(vec![]))?;
    parses_to(br#"{"a": 0}"#, obj(vec![("a", integer("0"))]))?;
    parses_to(
        br#"{"a": 0, "b": 1}"#,
        obj(vec![("a", integer("0")), ("b", integer("1"))]),
    )?;

    fails_with(b"{", Error::Token(Expect::ValueOrEnd));
    fails_with(b"{0", Error::Token(Expect::String));
    fails_with(br#"{"a" 1"#, Error::Token(Expect::Colon));
    fails_with(br#"{"a": 1"#, Error::Token(Expect::CommaOrEnd));
    fails_with(br#"{"a": 1,"#, Error::Token(Expect::Value));

    Ok(())
}

#[test]
fn binary_strings() -> Result<(), Error> {
    parses_to_binary_string(br#""aaa\nbbb\nccc""#, b"aaa\nbbb\nccc")?;
    parses_to_binary_string(b"\"aaa\xffbbb\xffccc\"", b"aaa\xffbbb\xffccc")?;
    parses_to_binary_string(
        b"\"aaa\\u2200\xe2\x88\x80ccc\"",
        "aaa\u{2200}\u{2200}ccc".as_bytes(),
    )?;

    Ok(())
}
