use hifijson::num::Parts;
use hifijson::value::{self, Value};
use hifijson::str::LexWrite;
use hifijson::token::Lex;
use hifijson::{ignore, Error, IterLexer, Read, SliceLexer};

/// Count the values in a tree, arrays and objects included.
fn count(v: &Value) -> usize {
    match v {
        Value::Array(a) => 1 + a.iter().map(count).sum::<usize>(),
        Value::Object(o) => 1 + o.iter().map(|(_, x)| count(x)).sum::<usize>(),
        _ => 1,
    }
}

#[test]
fn scenario_mixed_array() {
    let json = br#"[null, true, false, "hello", 0, 3.1415, [1, 2], {"x": 1, "y": 2}]"#;
    let v = value::exactly_one(&mut SliceLexer::new(json)).unwrap();
    assert!(matches!(v, Value::Array(_)));
    assert_eq!(count(&v), 13);
}

#[test]
fn scenario_serialize_compact() {
    let json = br#"{"a": [null, 1, "b"]}"#;
    let v = value::exactly_one(&mut SliceLexer::new(json)).unwrap();
    assert_eq!(v.serialize(), br#"{"a":[null,1,"b"]}"#.to_vec());
}

#[test]
fn serialize_escapes() {
    let v = value::exactly_one(&mut SliceLexer::new(br#""a\nb\u0001c\"d\\e""#)).unwrap();
    assert_eq!(v.serialize(), b"\"a\\nb\\u0001c\\\"d\\\\e\"".to_vec());
}

#[test]
fn depth_bound() {
    // nesting of depth 3: the array, the inner array, the number
    let json = b"[[1]]";
    let one = |d: usize| -> Result<Value, Error> {
        let mut lexer = SliceLexer::new(json);
        let next = lexer.ws_peek().ok_or(Error::Token(hifijson::Expect::Value))?;
        value::parse_bounded(d, next, &mut lexer)
    };
    assert!(matches!(one(3), Ok(Value::Array(_))));
    assert!(matches!(one(9), Ok(Value::Array(_))));
    assert_eq!(one(2).unwrap_err(), Error::Depth);
    assert_eq!(one(1).unwrap_err(), Error::Depth);
    assert_eq!(one(0).unwrap_err(), Error::Depth);
}

#[test]
fn discard_agreement_unicode() {
    // valid escape structure, but an unpaired surrogate: the discarding
    // parser accepts what the value builder rejects
    let json = br#""\uD801""#;
    assert!(ignore::exactly_one(&mut SliceLexer::new(json)).is_ok());
    let err = value::exactly_one(&mut SliceLexer::new(json)).unwrap_err();
    match err {
        Error::Str(e) => assert!(e.is_unicode_error()),
        _ => panic!("expected string error"),
    }
    // invalid UTF-8 inside the string: same divergence
    let json = b"\"\xff\"";
    assert!(ignore::exactly_one(&mut SliceLexer::new(json)).is_ok());
    let err = value::exactly_one(&mut SliceLexer::new(json)).unwrap_err();
    match err {
        Error::Str(e) => assert!(e.is_unicode_error()),
        _ => panic!("expected string error"),
    }
}

#[test]
fn order_preserved() {
    let json = br#"{"b": 1, "a": 2, "b": 3}"#;
    let v = value::exactly_one(&mut SliceLexer::new(json)).unwrap();
    match v {
        Value::Object(o) => {
            let keys: Vec<String> = o
                .iter()
                .map(|(k, _)| String::from_utf8(k.clone()).unwrap())
                .collect();
            assert_eq!(keys, vec!["b", "a", "b"]);
        },
        _ => panic!("expected object"),
    }
}

#[test]
fn is_int_parts() {
    let parts = |json: &[u8]| match value::exactly_one(&mut SliceLexer::new(json)).unwrap() {
        Value::Number((_, p)) => p,
        _ => panic!("expected number"),
    };
    assert!(parts(b"42").is_int());
    assert!(parts(b"-7").is_int());
    assert!(!parts(b"3.14").is_int());
    assert!(!parts(b"3e8").is_int());
    assert_eq!(parts(b"0"), Parts { zero: Some(0), dot: None, exp: None });
    assert_eq!(parts(b"-0.5"), Parts { zero: Some(1), dot: Some(2), exp: None });
}

#[test]
fn stream_error_cell() {
    // the upstream fails after yielding two bytes: the lexer sees "tr" and
    // then end of input, and the sticky error cell is set
    let mut lexer = IterLexer::new_failing(b"true".to_vec(), 2);
    let r = value::exactly_one(&mut lexer);
    assert_eq!(r.unwrap_err(), Error::Token(hifijson::Expect::Value));
    assert!(lexer.saw_error());

    // a failure point beyond the data never fires
    let mut lexer = IterLexer::new_failing(b"true".to_vec(), 9);
    assert_eq!(value::exactly_one(&mut lexer).unwrap(), Value::Bool(true));
    assert!(!lexer.saw_error());
}

#[test]
fn many_values() {
    let json = b" true 1 \"x\" [] ";
    let vs = value::many(&mut SliceLexer::new(json)).unwrap();
    assert_eq!(vs.len(), 4);
    assert_eq!(vs[0], Value::Bool(true));
    assert_eq!(vs[3], Value::Array(vec![]));
    assert!(ignore::many(&mut SliceLexer::new(json)).is_ok());

    let vs = value::many(&mut SliceLexer::new(b"")).unwrap();
    assert!(vs.is_empty());

    assert!(value::many(&mut SliceLexer::new(b"true fa")).is_err());
}

#[test]
fn mode_agreement_corpus() {
    // buffer mode and stream mode agree on every input of this corpus,
    // successes and failures alike
    let corpus: Vec<&[u8]> = vec![
        b"",
        b"null",
        b"nul",
        b"  true  ",
        b"true false",
        b"-",
        b"-0.5e+3",
        b"007",
        b"[1, [2, {\"a\": null}], \"b\"]",
        b"[1,",
        b"{\"a\" 1}",
        b"{\"a\": }",
        b"\"\\uD801\\uDC37\"",
        b"\"\\uD801\"",
        b"\"ab\x01cd\"",
        b"\"ab",
        b"\xff",
        b"\"\xff\"",
        b"[\"\\q\"]",
        b"{\"k\": [true, 1.5e2], \"l\": {}}",
    ];
    for input in corpus {
        let a = value::exactly_one(&mut SliceLexer::new(input));
        let b = value::exactly_one(&mut IterLexer::new(input.to_vec()));
        assert_eq!(a, b);
        let a = ignore::exactly_one(&mut SliceLexer::new(input));
        let b = ignore::exactly_one(&mut IterLexer::new(input.to_vec()));
        assert_eq!(a, b);
    }
}

#[test]
fn display_wrapper() {
    let d = hifijson::str::Display::new(b"a\"b".to_vec());
    assert_eq!(d.to_bytes(), b"\"a\\\"b\"".to_vec());
}

#[test]
fn slice_rest() {
    let json = b"true rest";
    let mut lexer = SliceLexer::new(json);
    assert_eq!(lexer.ws_peek(), Some(b't'));
    assert_eq!(lexer.null_or_bool(), Some(Some(true)));
    assert_eq!(lexer.as_slice(), b" rest");
}

#[test]
fn juxtaposed_numbers() {
    // after a leading zero only `.`, `e` or `E` may continue a number, so
    // three numbers stand side by side here
    let vs = value::many(&mut SliceLexer::new(b"007")).unwrap();
    let texts: Vec<String> = vs
        .iter()
        .map(|v| match v {
            Value::Number((n, _)) => String::from_utf8(n.clone()).unwrap(),
            _ => panic!("expected number"),
        })
        .collect();
    assert_eq!(texts, vec!["0", "0", "7"]);
}

#[test]
fn whitespace_everywhere() {
    let json = b" \t\r\n [ 1 , { \"k\" : null } ] \t ";
    let v = value::exactly_one(&mut SliceLexer::new(json)).unwrap();
    assert_eq!(v.serialize(), br#"[1,{"k":null}]"#.to_vec());
    let v = value::exactly_one(&mut IterLexer::new(json.to_vec())).unwrap();
    assert_eq!(v.serialize(), br#"[1,{"k":null}]"#.to_vec());
}

#[test]
fn raw_string_bytes() {
    // the raw tier keeps escape sequences textually
    let json = br#""a\nAb""#;
    let mut lexer = SliceLexer::new(json);
    assert_eq!(lexer.ws_peek(), Some(b'"'));
    lexer.take_next();
    let mut bytes = Vec::new();
    lexer.str_bytes(&mut bytes).unwrap();
    assert_eq!(bytes, br#"a\nAb"#.to_vec());
    assert_eq!(lexer.as_slice(), b"");
}
