use toml_emit::value::Datetime;
use toml_emit::value::Table;
use toml_emit::value::Value;

#[test]
fn getters_match_variants() {
    let v = Value::Integer(42);
    assert_eq!(v.as_integer(), Some(42));
    assert!(v.is_integer());
    assert!(!v.is_bool());
    assert!(v.as_bool().is_none());
    assert!(v.as_str().is_none());

    let s = Value::String("hi".to_string());
    assert_eq!(s.as_str(), Some("hi"));
    assert!(s.is_str());
    assert!(!s.is_integer());

    let b = Value::Boolean(true);
    assert_eq!(b.as_bool(), Some(true));
    assert!(b.is_bool());

    let f = Value::Float("2.5".to_string());
    assert_eq!(f.as_float(), Some("2.5"));
    assert!(f.is_float());

    let d = Value::Datetime(Datetime::new("2001-02-03".to_string()));
    assert!(d.is_datetime());
    assert_eq!(d.as_datetime().unwrap().as_str(), "2001-02-03");

    let a = Value::Array(vec![Value::Integer(1)]);
    assert!(a.is_array());
    assert_eq!(a.as_array().unwrap().len(), 1);
    assert!(a.as_table().is_none());

    let t = Value::Table(Table::new());
    assert!(t.is_table());
    assert!(t.as_table().unwrap().is_empty());
}

#[test]
fn same_type_compares_tags() {
    assert!(Value::Integer(1).same_type(&Value::Integer(9)));
    assert!(!Value::Integer(1).same_type(&Value::Boolean(true)));
    assert!(Value::Array(vec![]).same_type(&Value::Array(vec![Value::Integer(1)])));
}

#[test]
fn type_str_names() {
    assert_eq!(Value::String("x".to_string()).type_str(), "string");
    assert_eq!(Value::Integer(1).type_str(), "integer");
    assert_eq!(Value::Float("1".to_string()).type_str(), "float");
    assert_eq!(Value::Boolean(true).type_str(), "boolean");
    assert_eq!(
        Value::Datetime(Datetime::new("d".to_string())).type_str(),
        "datetime"
    );
    assert_eq!(Value::Array(vec![]).type_str(), "array");
    assert_eq!(Value::Table(Table::new()).type_str(), "table");
}

#[test]
fn table_insert_sorts_and_replaces() {
    let mut t = Table::new();
    t.insert("b".to_string(), Value::Integer(2));
    t.insert("a".to_string(), Value::Integer(1));
    t.insert("c".to_string(), Value::Integer(3));
    assert_eq!(t.len(), 3);
    assert_eq!(t.get("a").unwrap().as_integer(), Some(1));
    assert_eq!(t.get("b").unwrap().as_integer(), Some(2));
    t.insert("b".to_string(), Value::Integer(20));
    assert_eq!(t.len(), 3);
    assert_eq!(t.get("b").unwrap().as_integer(), Some(20));
    assert!(t.get("missing").is_none());
    assert!(t.contains_key("c"));
    assert!(!t.contains_key("z"));
}

#[test]
fn index_by_key_and_position() {
    let mut inner = Table::new();
    inner.insert("k".to_string(), Value::Integer(5));
    let v = Value::Table(inner);
    assert_eq!(v.get("k").unwrap().as_integer(), Some(5));
    assert!(v.get("missing").is_none());
    assert!(v.get(0).is_none());

    let a = Value::Array(vec![Value::Integer(10), Value::Integer(20)]);
    assert_eq!(a.get(1).unwrap().as_integer(), Some(20));
    assert!(a.get(2).is_none());
    assert!(a.get("k").is_none());

    let owned_key = "k".to_string();
    let mut inner2 = Table::new();
    inner2.insert("k".to_string(), Value::Integer(6));
    let v2 = Value::Table(inner2);
    assert_eq!(v2.get(owned_key).unwrap().as_integer(), Some(6));
}

#[test]
fn mutable_getters_allow_replacement() {
    let mut a = Value::Array(vec![Value::Integer(1), Value::Integer(2)]);
    {
        let items = a.as_array_mut().unwrap();
        items[1] = Value::Integer(20);
    }
    assert_eq!(a.get(1).unwrap().as_integer(), Some(20));
    assert!(a.as_table_mut().is_none());

    let mut t = Table::new();
    t.insert("k".to_string(), Value::Integer(1));
    let mut v = Value::Table(t);
    {
        let table = v.as_table_mut().unwrap();
        table.insert("k".to_string(), Value::Integer(9));
    }
    assert_eq!(v.get("k").unwrap().as_integer(), Some(9));
    assert!(v.as_array_mut().is_none());
}

#[test]
fn from_conversions() {
    assert_eq!(Value::from(3i64).as_integer(), Some(3));
    assert_eq!(Value::from("x".to_string()).as_str(), Some("x"));
    assert_eq!(Value::from(true).as_bool(), Some(true));
    assert!(Value::from(vec![Value::Integer(1)]).is_array());
    assert!(Value::from(Table::new()).is_table());
    assert!(Value::from(Datetime::new("2020-01-01".to_string())).is_datetime());
}

#[test]
fn get_mut_replaces_in_place() {
    let mut t = Table::new();
    t.insert("a".to_string(), Value::Integer(1));
    t.insert("b".to_string(), Value::Integer(2));
    let mut v = Value::Table(t);
    *v.get_mut("a").unwrap() = Value::Integer(10);
    assert_eq!(v.get("a").unwrap().as_integer(), Some(10));
    assert_eq!(v.get("b").unwrap().as_integer(), Some(2));
    assert!(v.get_mut("missing").is_none());
    assert!(v.get_mut(0).is_none());

    let mut arr = Value::Array(vec![Value::Integer(1), Value::Integer(2)]);
    *arr.get_mut(1usize).unwrap() = Value::Boolean(true);
    assert_eq!(arr.get(1).unwrap().as_bool(), Some(true));
    assert!(arr.get_mut(5usize).is_none());
    assert!(arr.get_mut("k").is_none());

    let mut t2 = Table::new();
    t2.insert("k".to_string(), Value::Integer(0));
    *t2.get_mut("k").unwrap() = Value::String("s".to_string());
    assert_eq!(t2.get("k").unwrap().as_str(), Some("s"));
    assert!(t2.get_mut("zz").is_none());
}
