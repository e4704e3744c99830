use toml_emit::ser::Error;
use toml_emit::ser::Serializer;
use toml_emit::ser::DATETIME_SENTINEL;

#[test]
fn event_driven_table() {
    let mut s = Serializer::new();
    s.begin_table().unwrap();
    s.serialize_key("a").unwrap();
    s.serialize_i64(1).unwrap();
    s.serialize_key("b").unwrap();
    s.serialize_str("x").unwrap();
    s.end_table().unwrap();
    assert_eq!(s.into_text(), "a = 1\nb = \"x\"\n");
}

#[test]
fn value_after_table_is_rejected() {
    let mut s = Serializer::new();
    s.begin_table().unwrap();
    s.serialize_key("a").unwrap();
    s.begin_table().unwrap();
    s.end_table().unwrap();
    s.serialize_key("z").unwrap();
    assert!(matches!(s.serialize_i64(1), Err(Error::ValueAfterTable)));
}

#[test]
fn array_after_table_is_rejected() {
    let mut s = Serializer::new();
    s.begin_table().unwrap();
    s.serialize_key("a").unwrap();
    s.begin_table().unwrap();
    s.end_table().unwrap();
    s.serialize_key("z").unwrap();
    s.begin_seq().unwrap();
    assert!(matches!(s.serialize_i64(1), Err(Error::ValueAfterTable)));
}

#[test]
fn datetime_through_sentinel_aggregate() {
    let mut s = Serializer::new();
    s.begin_table().unwrap();
    s.serialize_key("d").unwrap();
    s.begin_struct(DATETIME_SENTINEL).unwrap();
    s.serialize_key(DATETIME_SENTINEL).unwrap();
    s.serialize_str("2001-02-03").unwrap();
    s.end_table().unwrap();
    s.end_table().unwrap();
    assert_eq!(s.into_text(), "d = 2001-02-03\n");
}

#[test]
fn sentinel_aggregate_rejects_wrong_field_name() {
    let mut s = Serializer::new();
    s.begin_table().unwrap();
    s.serialize_key("d").unwrap();
    s.begin_struct(DATETIME_SENTINEL).unwrap();
    assert!(matches!(s.serialize_key("other"), Err(Error::DateInvalid)));
}

#[test]
fn sentinel_aggregate_rejects_non_string_value() {
    let mut s = Serializer::new();
    s.begin_table().unwrap();
    s.serialize_key("d").unwrap();
    s.begin_struct(DATETIME_SENTINEL).unwrap();
    assert!(matches!(s.serialize_bool(true), Err(Error::DateInvalid)));
}

#[test]
fn ordinary_struct_behaves_like_table() {
    let mut s = Serializer::new();
    s.begin_struct("Config").unwrap();
    s.serialize_key("a").unwrap();
    s.serialize_u64(7).unwrap();
    s.end_table().unwrap();
    assert_eq!(s.into_text(), "a = 7\n");
}

#[test]
fn none_at_root_is_rejected() {
    let mut s = Serializer::new();
    assert!(matches!(s.serialize_none(), Err(Error::UnsupportedNone)));
}

#[test]
fn none_in_sequence_is_rejected() {
    let mut s = Serializer::new();
    s.begin_table().unwrap();
    s.serialize_key("x").unwrap();
    s.begin_seq().unwrap();
    assert!(matches!(s.serialize_none(), Err(Error::UnsupportedNone)));
}

#[test]
fn none_as_table_field_drops_the_field() {
    let mut s = Serializer::new();
    s.begin_table().unwrap();
    s.serialize_key("gone").unwrap();
    s.serialize_none().unwrap();
    s.serialize_key("kept").unwrap();
    s.serialize_i64(1).unwrap();
    s.end_table().unwrap();
    assert_eq!(s.into_text(), "kept = 1\n");
}

#[test]
fn mixed_sequence_types_rejected_at_second_element() {
    let mut s = Serializer::new();
    s.begin_table().unwrap();
    s.serialize_key("x").unwrap();
    s.begin_seq().unwrap();
    s.serialize_i64(1).unwrap();
    assert!(matches!(s.serialize_str("a"), Err(Error::ArrayMixedType)));
}

#[test]
fn unbalanced_end_is_rejected() {
    let mut s = Serializer::new();
    assert!(matches!(s.end_seq(), Err(Error::UnsupportedType)));
    let mut s2 = Serializer::new();
    s2.begin_table().unwrap();
    assert!(matches!(s2.end_seq(), Err(Error::UnsupportedType)));
}

#[test]
fn key_outside_table_is_rejected() {
    let mut s = Serializer::new();
    assert!(matches!(s.serialize_key("a"), Err(Error::UnsupportedType)));
}

#[test]
fn newline_key_rejected_by_engine() {
    let mut s = Serializer::new();
    s.begin_table().unwrap();
    assert!(matches!(s.serialize_key("a\nb"), Err(Error::KeyNewline)));
}
