use toml_emit::builder::ValueBuilder;
use toml_emit::ser::to_string;
use toml_emit::ser::Error;
use toml_emit::ser::DATETIME_SENTINEL;
use toml_emit::value::Value;

#[test]
fn builds_scalar_root() {
    let mut b = ValueBuilder::new();
    b.visit_i64(7).unwrap();
    assert_eq!(b.finish().unwrap().as_integer(), Some(7));
}

#[test]
fn builds_array() {
    let mut b = ValueBuilder::new();
    b.begin_seq().unwrap();
    b.visit_i64(1).unwrap();
    b.visit_str("x".to_string()).unwrap();
    b.end_seq().unwrap();
    let v = b.finish().unwrap();
    let a = v.as_array().unwrap();
    assert_eq!(a.len(), 2);
    assert_eq!(a[0].as_integer(), Some(1));
    assert_eq!(a[1].as_str(), Some("x"));
}

#[test]
fn builds_sorted_table() {
    let mut b = ValueBuilder::new();
    b.begin_table().unwrap();
    b.visit_key("zeta".to_string()).unwrap();
    b.visit_bool(true).unwrap();
    b.visit_key("alpha".to_string()).unwrap();
    b.visit_i64(3).unwrap();
    b.end_table().unwrap();
    let v = b.finish().unwrap();
    assert_eq!(to_string(&v).unwrap(), "alpha = 3\nzeta = true\n");
}

#[test]
fn duplicate_key_is_rejected() {
    let mut b = ValueBuilder::new();
    b.begin_table().unwrap();
    b.visit_key("a".to_string()).unwrap();
    b.visit_i64(1).unwrap();
    b.visit_key("a".to_string()).unwrap();
    match b.visit_i64(2) {
        Err(Error::Custom(m)) => assert_eq!(m, "duplicate key: `a`"),
        other => panic!("expected a duplicate key error, got {:?}", other),
    }
}

#[test]
fn sentinel_aggregate_becomes_datetime() {
    let mut b = ValueBuilder::new();
    b.begin_table().unwrap();
    b.visit_key("d".to_string()).unwrap();
    b.begin_struct(DATETIME_SENTINEL).unwrap();
    b.visit_key(DATETIME_SENTINEL.to_string()).unwrap();
    b.visit_str("1979-05-27".to_string()).unwrap();
    b.end_table().unwrap();
    b.end_table().unwrap();
    let v = b.finish().unwrap();
    let d = v.get("d").unwrap();
    assert!(d.is_datetime());
    assert_eq!(d.as_datetime().unwrap().as_str(), "1979-05-27");
}

#[test]
fn empty_sentinel_aggregate_is_invalid() {
    let mut b = ValueBuilder::new();
    b.begin_struct(DATETIME_SENTINEL).unwrap();
    assert!(matches!(b.end_table(), Err(Error::DateInvalid)));
}

#[test]
fn u64_overflow_is_custom_error() {
    let mut b = ValueBuilder::new();
    match b.visit_u64(u64::MAX) {
        Err(Error::Custom(m)) => assert_eq!(m, "u64 value was too large"),
        other => panic!("expected an overflow error, got {:?}", other),
    }
    let mut b2 = ValueBuilder::new();
    b2.visit_u64(12).unwrap();
    assert_eq!(b2.finish().unwrap().as_integer(), Some(12));
}

#[test]
fn none_drops_pending_field() {
    let mut b = ValueBuilder::new();
    b.begin_table().unwrap();
    b.visit_key("gone".to_string()).unwrap();
    b.visit_none().unwrap();
    b.visit_key("kept".to_string()).unwrap();
    b.visit_i64(1).unwrap();
    b.end_table().unwrap();
    let v = b.finish().unwrap();
    assert!(v.get("gone").is_none());
    assert_eq!(v.get("kept").unwrap().as_integer(), Some(1));
}

#[test]
fn none_in_sequence_is_unsupported() {
    let mut b = ValueBuilder::new();
    b.begin_seq().unwrap();
    assert!(matches!(b.visit_none(), Err(Error::UnsupportedNone)));
}

#[test]
fn round_trip_through_builder_and_engine() {
    let mut b = ValueBuilder::new();
    b.begin_table().unwrap();
    b.visit_key("nums".to_string()).unwrap();
    b.begin_seq().unwrap();
    b.visit_i64(1).unwrap();
    b.visit_i64(2).unwrap();
    b.end_seq().unwrap();
    b.visit_key("name".to_string()).unwrap();
    b.visit_str("demo".to_string()).unwrap();
    b.end_table().unwrap();
    let v = b.finish().unwrap();
    assert_eq!(
        to_string(&v).unwrap(),
        "name = \"demo\"\nnums = [1, 2]\n"
    );
}

#[test]
fn float_repr_flows_through() {
    let mut b = ValueBuilder::new();
    b.begin_table().unwrap();
    b.visit_key("pi".to_string()).unwrap();
    b.visit_float(format!("{}", 3.5_f64)).unwrap();
    b.end_table().unwrap();
    let v = b.finish().unwrap();
    assert_eq!(to_string(&v).unwrap(), "pi = 3.5\n");
}

#[test]
fn finished_builder_rejects_more_events() {
    let mut b = ValueBuilder::new();
    b.visit_i64(1).unwrap();
    assert!(matches!(b.visit_i64(2), Err(Error::UnsupportedType)));
}

#[test]
fn value_after_table_unreachable_for_built_values() {
    // Whatever order fields are announced in, the canonical tree reorders
    // them, so serializing a built table never trips the header rule.
    let mut b = ValueBuilder::new();
    b.begin_table().unwrap();
    b.visit_key("atab".to_string()).unwrap();
    b.begin_table().unwrap();
    b.end_table().unwrap();
    b.visit_key("zval".to_string()).unwrap();
    b.visit_i64(1).unwrap();
    b.end_table().unwrap();
    let v = b.finish().unwrap();
    assert_eq!(to_string(&v).unwrap(), "zval = 1\n[atab]\n");
}

#[test]
fn sentinel_as_first_map_key_becomes_datetime() {
    let mut b = ValueBuilder::new();
    b.begin_table().unwrap();
    b.visit_key("d".to_string()).unwrap();
    b.begin_table().unwrap();
    b.visit_key(DATETIME_SENTINEL.to_string()).unwrap();
    b.visit_str("1979-05-27T07:32:00Z".to_string()).unwrap();
    b.end_table().unwrap();
    b.end_table().unwrap();
    let v = b.finish().unwrap();
    let d = v.get("d").unwrap();
    assert!(d.is_datetime());
    assert_eq!(d.as_datetime().unwrap().as_str(), "1979-05-27T07:32:00Z");
}

#[test]
fn sentinel_as_later_map_key_is_ordinary() {
    let mut b = ValueBuilder::new();
    b.begin_table().unwrap();
    b.visit_key("a".to_string()).unwrap();
    b.visit_i64(1).unwrap();
    b.visit_key(DATETIME_SENTINEL.to_string()).unwrap();
    b.visit_str("not a date".to_string()).unwrap();
    b.end_table().unwrap();
    let v = b.finish().unwrap();
    assert!(v.is_table());
    assert_eq!(v.get(DATETIME_SENTINEL).unwrap().as_str(), Some("not a date"));
}

#[test]
fn sentinel_first_key_without_value_is_invalid() {
    let mut b = ValueBuilder::new();
    b.begin_table().unwrap();
    b.visit_key(DATETIME_SENTINEL.to_string()).unwrap();
    assert!(matches!(b.end_table(), Err(Error::DateInvalid)));
}

#[test]
fn dropped_first_field_consumes_the_first_slot() {
    // The sentinel switch applies only to the very first announced name;
    // after a first field was announced (even if its value was dropped),
    // the sentinel is an ordinary key.
    let mut b = ValueBuilder::new();
    b.begin_table().unwrap();
    b.visit_key("x".to_string()).unwrap();
    b.visit_none().unwrap();
    b.visit_key(DATETIME_SENTINEL.to_string()).unwrap();
    b.visit_bool(true).unwrap();
    b.end_table().unwrap();
    let v = b.finish().unwrap();
    assert!(v.is_table());
    assert_eq!(v.get(DATETIME_SENTINEL).unwrap().as_bool(), Some(true));
}
