//! Typed access, schema defaults, removal, and type-tag resolution.

use obs_data::data::{
    DataArray, DataObj, DataType, DoubleText, FromDataItem, RAW_NUM_DOUBLE, RAW_NUM_INT,
    RAW_NUM_INVALID, RAW_TYPE_ARRAY, RAW_TYPE_BOOLEAN, RAW_TYPE_NUMBER, RAW_TYPE_OBJECT,
    RAW_TYPE_STRING,
};

#[test]
fn default_then_get_int() {
    let mut o = DataObj::new();
    o.set_default::<i32>("count", 5);
    assert_eq!(o.get::<i32>("count"), Some(5));
}

#[test]
fn default_then_get_wrong_tag_is_none() {
    let mut o = DataObj::new();
    o.set_default::<i32>("count", 5);
    assert_eq!(o.get::<DoubleText>("count"), None);
    assert_eq!(o.get::<String>("count"), None);
    assert_eq!(o.get::<bool>("count"), None);
}

#[test]
fn default_round_trip_scalars() {
    let mut o = DataObj::new();
    o.set_default::<String>("s", String::from("hello"));
    o.set_default::<i64>("i64", -12345678901234);
    o.set_default::<u64>("u64", u64::MAX);
    o.set_default::<i32>("i32", -7);
    o.set_default::<u32>("u32", 4000000000);
    o.set_default::<i16>("i16", -300);
    o.set_default::<u16>("u16", 60000);
    o.set_default::<i8>("i8", -100);
    o.set_default::<u8>("u8", 200);
    o.set_default::<isize>("isize", -9);
    o.set_default::<usize>("usize", 9);
    o.set_default::<bool>("b", true);
    o.set_default::<DoubleText>("d", DoubleText(String::from("2.5")));
    assert_eq!(o.get::<String>("s"), Some(String::from("hello")));
    assert_eq!(o.get::<i64>("i64"), Some(-12345678901234));
    assert_eq!(o.get::<u64>("u64"), Some(u64::MAX));
    assert_eq!(o.get::<i32>("i32"), Some(-7));
    assert_eq!(o.get::<u32>("u32"), Some(4000000000));
    assert_eq!(o.get::<i16>("i16"), Some(-300));
    assert_eq!(o.get::<u16>("u16"), Some(60000));
    assert_eq!(o.get::<i8>("i8"), Some(-100));
    assert_eq!(o.get::<u8>("u8"), Some(200));
    assert_eq!(o.get::<isize>("isize"), Some(-9));
    assert_eq!(o.get::<usize>("usize"), Some(9));
    assert_eq!(o.get::<bool>("b"), Some(true));
    assert_eq!(o.get::<DoubleText>("d"), Some(DoubleText(String::from("2.5"))));
}

#[test]
fn default_object_round_trip() {
    let inner = DataObj::from_json("{\"x\":1}").unwrap();
    let mut o = DataObj::new();
    o.set_default::<DataObj>("nested", inner);
    let back = o.get::<DataObj>("nested").unwrap();
    assert_eq!(back.get::<i64>("x"), Some(1));
}

#[test]
fn missing_key_is_none() {
    let o = DataObj::new();
    assert_eq!(o.get::<i64>("nothing"), None);
}

#[test]
fn remove_then_get_is_none() {
    let mut o = DataObj::from_json("{\"a\":1,\"b\":2}").unwrap();
    o.remove("a");
    assert_eq!(o.get::<i64>("a"), None);
    assert_eq!(o.get::<i64>("b"), Some(2));
}

#[test]
fn remove_default_then_get_is_none() {
    let mut o = DataObj::new();
    o.set_default::<i32>("count", 5);
    o.remove("count");
    assert_eq!(o.get::<i32>("count"), None);
}

#[test]
fn remove_absent_is_noop() {
    let mut o = DataObj::from_json("{\"a\":1}").unwrap();
    o.remove("zzz");
    assert_eq!(o.get::<i64>("a"), Some(1));
}

#[test]
fn clear_removes_all() {
    let mut o = DataObj::from_json("{\"a\":1,\"b\":true}").unwrap();
    o.clear();
    assert_eq!(o.get::<i64>("a"), None);
    assert_eq!(o.get::<bool>("b"), None);
    assert_eq!(o.get_json(), Some(String::from("{}")));
}

#[test]
fn explicit_value_beats_default() {
    let mut o = DataObj::from_json("{\"a\":1}").unwrap();
    o.set_default::<i64>("a", 99);
    assert_eq!(o.get::<i64>("a"), Some(1));
}

#[test]
fn numbers_cast_between_integer_widths() {
    let o = DataObj::from_json("{\"a\":4294967297}").unwrap();
    assert_eq!(o.get::<i64>("a"), Some(4294967297));
    assert_eq!(o.get::<i32>("a"), Some(1));
    assert_eq!(o.get::<u8>("a"), Some(1));
}

#[test]
fn data_type_new_resolves_discriminants() {
    assert_eq!(DataType::new(RAW_TYPE_STRING, RAW_NUM_INVALID), DataType::String);
    assert_eq!(DataType::new(RAW_TYPE_NUMBER, RAW_NUM_INT), DataType::Int);
    assert_eq!(DataType::new(RAW_TYPE_NUMBER, RAW_NUM_DOUBLE), DataType::Double);
    assert_eq!(DataType::new(RAW_TYPE_BOOLEAN, RAW_NUM_INVALID), DataType::Boolean);
    assert_eq!(DataType::new(RAW_TYPE_OBJECT, RAW_NUM_INVALID), DataType::Object);
    assert_eq!(DataType::new(RAW_TYPE_ARRAY, RAW_NUM_INVALID), DataType::Array);
}

#[test]
fn declared_tags_match_host_types() {
    assert_eq!(<String as FromDataItem>::typ(), DataType::String);
    assert_eq!(<i32 as FromDataItem>::typ(), DataType::Int);
    assert_eq!(<DoubleText as FromDataItem>::typ(), DataType::Double);
    assert_eq!(<bool as FromDataItem>::typ(), DataType::Boolean);
    assert_eq!(<DataObj as FromDataItem>::typ(), DataType::Object);
    assert_eq!(<DataArray as FromDataItem>::typ(), DataType::Array);
}
