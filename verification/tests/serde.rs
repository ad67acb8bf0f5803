use std::collections::HashMap;

use hifijson::value::{self, Value};
use hifijson::{Error, SliceLexer};

pub fn from_slice(s: &[u8]) -> Result<Value, Error> {
    value::exactly_one(&mut SliceLexer::new(s))
}

fn as_i64(v: &Value) -> i64 {
    match v {
        Value::Number((n, _)) => std::str::from_utf8(n).unwrap().parse().unwrap(),
        _ => panic!("expected number"),
    }
}

fn as_f64(v: &Value) -> f64 {
    match v {
        Value::Number((n, _)) => std::str::from_utf8(n).unwrap().parse().unwrap(),
        _ => panic!("expected number"),
    }
}

#[test]
fn serde_basic() {
    assert_eq!(Value::Null, from_slice(b"null").unwrap());
    assert_eq!(Value::Bool(true), from_slice(b"true").unwrap());
    assert_eq!(Value::Bool(false), from_slice(b"false").unwrap());
}

#[test]
fn serde_numbers() {
    assert_eq!(0, as_i64(&from_slice(b"0").unwrap()));
    assert_eq!(42, as_i64(&from_slice(b"42").unwrap()));
    assert_eq!(3.1415, as_f64(&from_slice(b"3.1415").unwrap()));
    assert_eq!(-42, as_i64(&from_slice(b"-42").unwrap()));
}

#[test]
fn serde_strings() {
    assert_eq!(
        "asdf",
        match from_slice(br#""asdf""#).unwrap() {
            Value::String(s) => String::from_utf8(s).unwrap(),
            _ => panic!("expected string"),
        }
    );
}

#[test]
fn serde_arrays() {
    let ints = |s: &[u8]| -> Vec<i64> {
        match from_slice(s).unwrap() {
            Value::Array(a) => a.iter().map(as_i64).collect(),
            _ => panic!("expected array"),
        }
    };
    assert_eq!(Vec::<i64>::new(), ints(b"[]"));
    assert_eq!(vec![0], ints(b"[0]"));
    assert_eq!(vec![0, 1], ints(b"[0, 1]"));
}

#[test]
fn serde_objects() {
    let map = |s: &[u8]| -> HashMap<String, i64> {
        match from_slice(s).unwrap() {
            Value::Object(o) => o
                .iter()
                .map(|(k, v)| (String::from_utf8(k.clone()).unwrap(), as_i64(v)))
                .collect(),
            _ => panic!("expected object"),
        }
    };
    let a = HashMap::from([("a".to_string(), 1)]);
    let b = HashMap::from([("a".to_string(), 1), ("b".to_string(), 2)]);

    assert_eq!(HashMap::<String, i64>::new(), map(b"{}"));
    assert_eq!(a, map(br#"{"a": 1}"#));
    assert_eq!(b, map(br#"{"a": 1, "b": 2}"#));
}
