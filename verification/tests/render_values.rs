use toml_render::tree::{
    Array, DateTime, Decor, Formatted, InlineTable, Item, Repr, TableKeyValue, Value,
};

fn decor(prefix: &str, suffix: &str) -> Decor {
    Decor { prefix: prefix.to_string(), suffix: suffix.to_string() }
}

fn repr(prefix: &str, raw: &str, suffix: &str) -> Repr {
    Repr { decor: decor(prefix, suffix), raw_value: raw.to_string() }
}

fn int_value(prefix: &str, raw: &str, suffix: &str, parsed: i64) -> Value {
    Value::Integer(Formatted { value: parsed, repr: repr(prefix, raw, suffix) })
}

fn plain_array(values: Vec<Value>, trailing: &str, trailing_comma: bool) -> Array {
    Array { values, decor: decor("", ""), trailing: trailing.to_string(), trailing_comma }
}

fn value_entry(key: &str, value: Value) -> TableKeyValue {
    TableKeyValue { key: repr("", key, ""), value: Item::Value(value) }
}

fn rendered(value: &Value) -> String {
    let mut out = String::new();
    value.render(&mut out);
    out
}

#[test]
fn repr_concatenates_prefix_raw_suffix() {
    let mut out = String::new();
    repr(" ", "1_000", " # thousand").render(&mut out);
    assert_eq!(out, " 1_000 # thousand");
}

#[test]
fn scalar_renders_raw_lexeme_not_parsed_value() {
    assert_eq!(rendered(&int_value(" ", "0x10", "", 16)), " 0x10");
    let b = Value::Boolean(Formatted { value: true, repr: repr("", "true", " ") });
    assert_eq!(rendered(&b), "true ");
    let s = Value::String(Formatted {
        value: "x".to_string(),
        repr: repr(" ", "\"x\"", ""),
    });
    assert_eq!(rendered(&s), " \"x\"");
    let f = Value::Float(Formatted { value: "3.5".to_string(), repr: repr("", "3.50", "") });
    assert_eq!(rendered(&f), "3.50");
}

#[test]
fn date_time_value_renders_its_repr() {
    let d = Value::DateTime(Formatted {
        value: DateTime::LocalDate("1979-05-27".to_string()),
        repr: repr(" ", "1979-05-27", ""),
    });
    assert_eq!(rendered(&d), " 1979-05-27");
}

#[test]
fn date_time_variants_render_canonical_text() {
    let mut out = String::new();
    DateTime::OffsetDateTime("1979-05-27T07:32:00Z".to_string()).render(&mut out);
    DateTime::LocalDateTime("1979-05-27T07:32:00".to_string()).render(&mut out);
    DateTime::LocalDate("1979-05-27".to_string()).render(&mut out);
    DateTime::LocalTime("07:32:00".to_string()).render(&mut out);
    assert_eq!(out, "1979-05-27T07:32:00Z1979-05-27T07:32:001979-05-2707:32:00");
}

#[test]
fn array_separates_three_elements_with_two_commas() {
    let a = plain_array(
        vec![
            int_value("", "1", "", 1),
            int_value(" ", "2", "", 2),
            int_value(" ", "3", "", 3),
        ],
        "",
        false,
    );
    assert_eq!(rendered(&Value::Array(a)), "[1, 2, 3]");
}

#[test]
fn array_trailing_comma_adds_exactly_one_comma() {
    let a = plain_array(vec![int_value("", "1", "", 1), int_value("", "2", "", 2)], "", true);
    assert_eq!(rendered(&Value::Array(a)), "[1,2,]");
}

#[test]
fn array_single_element_has_no_separator() {
    let a = plain_array(vec![int_value("", "7", "", 7)], "", false);
    assert_eq!(rendered(&Value::Array(a)), "[7]");
}

#[test]
fn empty_array_still_emits_trailing_text_and_comma() {
    let a = plain_array(vec![], " # nothing yet\n", true);
    assert_eq!(rendered(&Value::Array(a)), "[, # nothing yet\n]");
}

#[test]
fn array_decor_wraps_brackets() {
    let a = Array {
        values: vec![int_value("", "1", "", 1)],
        decor: decor(" ", " # list"),
        trailing: " ".to_string(),
        trailing_comma: false,
    };
    assert_eq!(rendered(&Value::Array(a)), " [1 ] # list");
}

#[test]
fn nested_array_renders_inside_out() {
    let inner = plain_array(vec![int_value("", "1", "", 1)], "", false);
    let outer = plain_array(
        vec![Value::Array(inner), int_value(" ", "2", "", 2)],
        "",
        false,
    );
    assert_eq!(rendered(&Value::Array(outer)), "[[1], 2]");
}

#[test]
fn inline_table_renders_key_value_pairs() {
    let t = InlineTable {
        items: vec![
            value_entry("a", int_value("", "1", "", 1)),
            value_entry("b", int_value("", "2", "", 2)),
        ],
        decor: decor("", ""),
        preamble: "".to_string(),
    };
    assert_eq!(rendered(&Value::InlineTable(t)), "{a=1,b=2}");
}

#[test]
fn inline_table_skips_entries_that_are_not_plain_values() {
    // Three entries; the second holds no value, so exactly two pairs appear,
    // joined by a single comma.
    let t = InlineTable {
        items: vec![
            value_entry("a", int_value("", "1", "", 1)),
            TableKeyValue { key: repr("", "b", ""), value: Item::Absent },
            value_entry("c", int_value("", "3", "", 3)),
        ],
        decor: decor("", ""),
        preamble: "".to_string(),
    };
    assert_eq!(rendered(&Value::InlineTable(t)), "{a=1,c=3}");
}

#[test]
fn inline_table_preamble_and_decor_are_kept() {
    let t = InlineTable {
        items: vec![value_entry("a", int_value(" ", "1", " ", 1))],
        decor: decor(" ", ""),
        preamble: " ".to_string(),
    };
    assert_eq!(rendered(&Value::InlineTable(t)), " { a= 1 }");
}

#[test]
fn item_is_value_only_for_plain_values() {
    assert!(Item::Value(int_value("", "1", "", 1)).is_value());
    assert!(!Item::Absent.is_value());
}
