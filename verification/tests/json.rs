//! The JSON codec: parsing, serialization, the round trip, and the backup
//! fallback.

use obs_data::data::{DataArray, DataObj, DataValue, DataItem, DoubleText};

#[test]
fn parse_scalars() {
    let o = DataObj::from_json(
        "{\"s\":\"txt\",\"i\":-42,\"d\":1.5,\"e\":1e5,\"t\":true,\"f\":false}",
    )
    .unwrap();
    assert_eq!(o.get::<String>("s"), Some(String::from("txt")));
    assert_eq!(o.get::<i64>("i"), Some(-42));
    assert_eq!(o.get::<DoubleText>("d"), Some(DoubleText(String::from("1.5"))));
    assert_eq!(o.get::<DoubleText>("e"), Some(DoubleText(String::from("1e5"))));
    assert_eq!(o.get::<bool>("t"), Some(true));
    assert_eq!(o.get::<bool>("f"), Some(false));
}

#[test]
fn parse_nested_object_and_array() {
    let o = DataObj::from_json("{\"o\":{\"x\":1},\"a\":[{\"y\":2},{\"z\":3}]}").unwrap();
    let inner = o.get::<DataObj>("o").unwrap();
    assert_eq!(inner.get::<i64>("x"), Some(1));
    let arr = o.get::<DataArray>("a").unwrap();
    assert_eq!(arr.len(), 2);
    assert!(!arr.is_empty());
    assert_eq!(arr.get(0).unwrap().get::<i64>("y"), Some(2));
    assert_eq!(arr.get(1).unwrap().get::<i64>("z"), Some(3));
}

#[test]
fn array_get_out_of_range_is_none() {
    let o = DataObj::from_json("{\"a\":[{\"y\":2}]}").unwrap();
    let arr = o.get::<DataArray>("a").unwrap();
    assert_eq!(arr.len(), 1);
    assert!(arr.get(1).is_none());
    assert!(arr.get(100).is_none());
}

#[test]
fn empty_array_and_object() {
    let o = DataObj::from_json("{\"a\":[],\"o\":{}}").unwrap();
    let arr = o.get::<DataArray>("a").unwrap();
    assert_eq!(arr.len(), 0);
    assert!(arr.is_empty());
    let inner = o.get::<DataObj>("o").unwrap();
    assert_eq!(inner.get_json(), Some(String::from("{}")));
}

#[test]
fn malformed_documents_are_none() {
    assert!(DataObj::from_json("").is_none());
    assert!(DataObj::from_json("{").is_none());
    assert!(DataObj::from_json("[]").is_none());
    assert!(DataObj::from_json("{\"a\":null}").is_none());
    assert!(DataObj::from_json("{\"a\":1,}").is_none());
    assert!(DataObj::from_json("{\"a\":[1]}").is_none());
    assert!(DataObj::from_json("{\"a\":1,\"a\":2}").is_none());
    assert!(DataObj::from_json("{\"a\":1}x").is_none());
    assert!(DataObj::from_json("{\"a\":--1}").is_none());
    assert!(DataObj::from_json("{\"a\":1.}").is_none());
    assert!(DataObj::from_json("{\"a\":1e}").is_none());
    assert!(DataObj::from_json("{\"a\":01}").is_none());
    assert!(DataObj::from_json("{\"a\":\"\\q\"}").is_none());
    assert!(DataObj::from_json("{\"a\":\"\\uD800\"}").is_none());
    assert!(DataObj::from_json("{\"a\":\"\\u00\"}").is_none());
    assert!(DataObj::from_json("{\"a\":\"b\u{1}c\"}").is_none());
}

#[test]
fn whitespace_between_tokens_is_insignificant() {
    let o = DataObj::from_json("{ \"a\" : 1 , \"b\" : [ { \"c\" : true } , { } ] }").unwrap();
    assert_eq!(o.get::<i64>("a"), Some(1));
    let arr = o.get::<DataArray>("b").unwrap();
    assert_eq!(arr.len(), 2);
    assert_eq!(arr.get(0).unwrap().get::<bool>("c"), Some(true));
    assert_eq!(o.get_json(), Some(String::from("{\"a\":1,\"b\":[{\"c\":true},{}]}")));
    assert!(DataObj::from_json("\t{\"a\":\n1}\r\n").is_some());
}

#[test]
fn string_escapes_round_trip() {
    let doc = "{\"a\":\"x\\n\\t\\\"\\\\y\"}";
    let o = DataObj::from_json(doc).unwrap();
    assert_eq!(o.get::<String>("a"), Some(String::from("x\n\t\"\\y")));
    assert_eq!(o.get_json(), Some(String::from(doc)));
    let h = DataObj::from_json("{\"a\":\"\\u0041\\u000b\"}").unwrap();
    assert_eq!(h.get::<String>("a"), Some(String::from("A\u{b}")));
    assert_eq!(h.get_json(), Some(String::from("{\"a\":\"A\\u000b\"}")));
    assert_eq!(
        DataObj::from_json("{\"a\":\"\\/\\b\\f\\r\"}").unwrap().get::<String>("a"),
        Some(String::from("/\u{8}\u{c}\r"))
    );
}

#[test]
fn integer_literals_cover_the_64_bit_range() {
    let ok = DataObj::from_json("{\"a\":1234567890123456789}").unwrap();
    assert_eq!(ok.get::<i64>("a"), Some(1234567890123456789));
    let max = DataObj::from_json("{\"a\":9223372036854775807}").unwrap();
    assert_eq!(max.get::<i64>("a"), Some(i64::MAX));
    let min = DataObj::from_json("{\"a\":-9223372036854775808}").unwrap();
    assert_eq!(min.get::<i64>("a"), Some(i64::MIN));
    assert!(DataObj::from_json("{\"a\":9223372036854775808}").is_none());
    assert!(DataObj::from_json("{\"a\":-9223372036854775809}").is_none());
    assert!(DataObj::from_json("{\"a\":99999999999999999999}").is_none());
}

#[test]
fn json_round_trip_exact_text() {
    let doc = "{\"a\":1,\"b\":\"x\",\"c\":true,\"d\":1.5,\"e\":{\"f\":2},\"g\":[{\"h\":-3e-2}]}";
    let o = DataObj::from_json(doc).unwrap();
    assert_eq!(o.get_json(), Some(String::from(doc)));
}

#[test]
fn json_round_trip_fields_match() {
    let doc = "{\"n\":-17,\"s\":\"v\",\"inner\":{\"b\":false}}";
    let o = DataObj::from_json(doc).unwrap();
    let text = o.get_json().unwrap();
    let back = DataObj::from_json(text.as_str()).unwrap();
    assert_eq!(back.get::<i64>("n"), Some(-17));
    assert_eq!(back.get::<String>("s"), Some(String::from("v")));
    assert_eq!(back.get::<DataObj>("inner").unwrap().get::<bool>("b"), Some(false));
}

#[test]
fn defaults_are_not_serialized() {
    let mut o = DataObj::from_json("{\"a\":1}").unwrap();
    o.set_default::<i64>("b", 2);
    assert_eq!(o.get_json(), Some(String::from("{\"a\":1}")));
}

#[test]
fn get_json_escapes_and_covers_the_int_range() {
    let quoted = DataObj {
        items: vec![DataItem {
            name: String::from("a"),
            value: Some(DataValue::Str(String::from("q\"q"))),
            default: None,
        }],
    };
    assert_eq!(quoted.get_json(), Some(String::from("{\"a\":\"q\\\"q\"}")));
    let big_int = DataObj {
        items: vec![DataItem {
            name: String::from("a"),
            value: Some(DataValue::Int(i64::MAX)),
            default: None,
        }],
    };
    assert_eq!(big_int.get_json(), Some(String::from("{\"a\":9223372036854775807}")));
}

#[test]
fn get_json_fails_on_a_double_that_is_no_literal() {
    let bad_dbl = DataObj {
        items: vec![DataItem {
            name: String::from("a"),
            value: Some(DataValue::Dbl(DoubleText(String::from("xyz")))),
            default: None,
        }],
    };
    assert_eq!(bad_dbl.get_json(), None);
}

#[test]
fn backup_used_when_primary_malformed() {
    let r = DataObj::from_json_with_backup(Some("{broken"), Some("{\"k\":true}")).unwrap();
    assert_eq!(r.get::<bool>("k"), Some(true));
}

#[test]
fn backup_used_when_primary_missing() {
    let r = DataObj::from_json_with_backup(None, Some("{\"k\":1}")).unwrap();
    assert_eq!(r.get::<i64>("k"), Some(1));
}

#[test]
fn primary_wins_when_well_formed() {
    let r = DataObj::from_json_with_backup(Some("{\"k\":1}"), Some("{\"k\":2}")).unwrap();
    assert_eq!(r.get::<i64>("k"), Some(1));
}

#[test]
fn no_backup_and_malformed_primary_is_none() {
    assert!(DataObj::from_json_with_backup(Some("{broken"), None).is_none());
    assert!(DataObj::from_json_with_backup(None, None).is_none());
}
