use toml_emit::ser::to_string;
use toml_emit::ser::to_vec;
use toml_emit::ser::Error;
use toml_emit::value::Datetime;
use toml_emit::value::Table;
use toml_emit::value::Value;

fn table(pairs: Vec<(&str, Value)>) -> Table {
    let mut t = Table::new();
    for (k, v) in pairs {
        t.insert(k.to_string(), v);
    }
    t
}

#[test]
fn scalar_then_nested_table() {
    let t = table(vec![
        ("a", Value::Integer(1)),
        ("b", Value::Table(table(vec![("c", Value::Integer(2))]))),
    ]);
    assert_eq!(to_string(&Value::Table(t)).unwrap(), "a = 1\n[b]\nc = 2\n");
}

#[test]
fn inline_integer_array() {
    let t = table(vec![(
        "x",
        Value::Array(vec![Value::Integer(1), Value::Integer(2)]),
    )]);
    assert_eq!(to_string(&Value::Table(t)).unwrap(), "x = [1, 2]\n");
}

#[test]
fn array_of_tables() {
    let inner = table(vec![("y", Value::Integer(1))]);
    let t = table(vec![("x", Value::Array(vec![Value::Table(inner)]))]);
    assert_eq!(to_string(&Value::Table(t)).unwrap(), "[[x]]\ny = 1\n");
}

#[test]
fn bare_array_at_root_is_rejected() {
    let v = Value::Array(vec![Value::Integer(1), Value::String("a".to_string())]);
    assert!(matches!(to_string(&v), Err(Error::UnsupportedType)));
}

#[test]
fn bare_scalar_at_root_is_rejected() {
    assert!(matches!(
        to_string(&Value::Integer(1)),
        Err(Error::UnsupportedType)
    ));
}

#[test]
fn integral_float_gets_fraction() {
    let t = table(vec![("n", Value::Float(format!("{}", 4.0_f64)))]);
    assert_eq!(to_string(&Value::Table(t)).unwrap(), "n = 4.0\n");
}

#[test]
fn negative_integral_float_gets_fraction() {
    let t = table(vec![("n", Value::Float(format!("{}", -10.0_f64)))]);
    assert_eq!(to_string(&Value::Table(t)).unwrap(), "n = -10.0\n");
}

#[test]
fn fractional_float_kept_as_rendered() {
    let t = table(vec![("n", Value::Float(format!("{}", 2.5_f64)))]);
    assert_eq!(to_string(&Value::Table(t)).unwrap(), "n = 2.5\n");
}

#[test]
fn key_with_space_is_quoted() {
    let t = table(vec![("a b", Value::Integer(1))]);
    assert_eq!(to_string(&Value::Table(t)).unwrap(), "\"a b\" = 1\n");
}

#[test]
fn string_escapes() {
    let t = table(vec![(
        "s",
        Value::String("a\"b\\c\nd\te\u{8}f\u{c}g\rh".to_string()),
    )]);
    assert_eq!(
        to_string(&Value::Table(t)).unwrap(),
        "s = \"a\\\"b\\\\c\\nd\\te\\bf\\fg\\rh\"\n"
    );
}

#[test]
fn control_character_numeric_escape() {
    let t = table(vec![("s", Value::String("\u{7}\u{1c}".to_string()))]);
    assert_eq!(
        to_string(&Value::Table(t)).unwrap(),
        "s = \"\\u0007\\u0028\"\n"
    );
}

#[test]
fn non_ascii_passes_through() {
    let t = table(vec![("s", Value::String("héllo \u{2603}".to_string()))]);
    assert_eq!(
        to_string(&Value::Table(t)).unwrap(),
        "s = \"héllo \u{2603}\"\n"
    );
}

#[test]
fn booleans_and_integers() {
    let t = table(vec![
        ("t", Value::Boolean(true)),
        ("f", Value::Boolean(false)),
        ("min", Value::Integer(i64::MIN)),
        ("z", Value::Integer(0)),
    ]);
    assert_eq!(
        to_string(&Value::Table(t)).unwrap(),
        "f = false\nmin = -9223372036854775808\nt = true\nz = 0\n"
    );
}

#[test]
fn datetime_written_bare() {
    let t = table(vec![(
        "d",
        Value::Datetime(Datetime::new("1979-05-27T07:32:00Z".to_string())),
    )]);
    assert_eq!(
        to_string(&Value::Table(t)).unwrap(),
        "d = 1979-05-27T07:32:00Z\n"
    );
}

#[test]
fn empty_array_serializes_as_brackets() {
    let t = table(vec![("x", Value::Array(vec![]))]);
    assert_eq!(to_string(&Value::Table(t)).unwrap(), "x = []\n");
}

#[test]
fn empty_table_still_gets_header() {
    let t = table(vec![("t", Value::Table(Table::new()))]);
    assert_eq!(to_string(&Value::Table(t)).unwrap(), "[t]\n");
}

#[test]
fn empty_root_table_gives_empty_document() {
    assert_eq!(to_string(&Value::Table(Table::new())).unwrap(), "");
}

#[test]
fn nested_table_paths_are_dotted() {
    let c = table(vec![("k", Value::Integer(3))]);
    let b = table(vec![("c", Value::Table(c))]);
    let t = table(vec![("a", Value::Table(b))]);
    assert_eq!(to_string(&Value::Table(t)).unwrap(), "[a.c]\nk = 3\n");
}

#[test]
fn mixed_array_is_rejected() {
    let t = table(vec![(
        "x",
        Value::Array(vec![Value::Integer(1), Value::String("a".to_string())]),
    )]);
    assert!(matches!(
        to_string(&Value::Table(t)),
        Err(Error::ArrayMixedType)
    ));
}

#[test]
fn key_with_newline_is_rejected() {
    let t = table(vec![("a\nb", Value::Integer(1))]);
    assert!(matches!(to_string(&Value::Table(t)), Err(Error::KeyNewline)));
}

#[test]
fn three_pass_order_scalars_arrays_tables() {
    let t = table(vec![
        ("ztab", Value::Table(table(vec![("q", Value::Integer(9))]))),
        ("marr", Value::Array(vec![Value::Integer(7)])),
        ("ascal", Value::Integer(5)),
    ]);
    assert_eq!(
        to_string(&Value::Table(t)).unwrap(),
        "ascal = 5\nmarr = [7]\n[ztab]\nq = 9\n"
    );
}

#[test]
fn nested_arrays() {
    let t = table(vec![(
        "x",
        Value::Array(vec![
            Value::Array(vec![Value::Integer(1)]),
            Value::Array(vec![Value::Integer(2), Value::Integer(3)]),
        ]),
    )]);
    assert_eq!(to_string(&Value::Table(t)).unwrap(), "x = [[1], [2, 3]]\n");
}

#[test]
fn several_tables_in_array() {
    let t1 = table(vec![("a", Value::Integer(1))]);
    let t2 = table(vec![("a", Value::Integer(2))]);
    let t = table(vec![(
        "x",
        Value::Array(vec![Value::Table(t1), Value::Table(t2)]),
    )]);
    assert_eq!(
        to_string(&Value::Table(t)).unwrap(),
        "[[x]]\na = 1\n[[x]]\na = 2\n"
    );
}

#[test]
fn to_vec_is_utf8_of_text() {
    let t = table(vec![("s", Value::String("héllo".to_string()))]);
    let text = to_string(&Value::Table(t)).unwrap();
    let t2 = table(vec![("s", Value::String("héllo".to_string()))]);
    let bytes = to_vec(&Value::Table(t2)).unwrap();
    assert_eq!(bytes, text.into_bytes());
}

#[test]
fn table_keys_emitted_in_sorted_order() {
    let t = table(vec![
        ("b", Value::Integer(2)),
        ("a", Value::Integer(1)),
        ("c", Value::Integer(3)),
    ]);
    assert_eq!(to_string(&Value::Table(t)).unwrap(), "a = 1\nb = 2\nc = 3\n");
}

#[test]
fn array_of_tables_under_nested_path() {
    let elem = table(vec![("y", Value::Integer(1))]);
    let b = table(vec![("c", Value::Array(vec![Value::Table(elem)]))]);
    let t = table(vec![("a", Value::Table(b))]);
    assert_eq!(to_string(&Value::Table(t)).unwrap(), "[[a.c]]\ny = 1\n");
}

#[test]
fn scalar_before_and_table_after() {
    let inner = table(vec![("q", Value::Integer(2))]);
    let t = table(vec![
        ("z", Value::Integer(1)),
        ("a", Value::Table(inner)),
        ("m", Value::String("s".to_string())),
    ]);
    assert_eq!(
        to_string(&Value::Table(t)).unwrap(),
        "m = \"s\"\nz = 1\n[a]\nq = 2\n"
    );
}

#[test]
fn empty_key_is_quoted() {
    let t = table(vec![("", Value::Integer(1))]);
    assert_eq!(to_string(&Value::Table(t)).unwrap(), "\"\" = 1\n");
}

#[test]
fn empty_key_table_header_is_quoted() {
    let t = table(vec![("", Value::Table(Table::new()))]);
    assert_eq!(to_string(&Value::Table(t)).unwrap(), "[\"\"]\n");
}
