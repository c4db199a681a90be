use toml_render::tree::{
    ArrayOfTables, Decor, Document, Formatted, Item, Repr, Table, TableKeyValue, Value,
};

fn decor(prefix: &str, suffix: &str) -> Decor {
    Decor { prefix: prefix.to_string(), suffix: suffix.to_string() }
}

fn repr(prefix: &str, raw: &str, suffix: &str) -> Repr {
    Repr { decor: decor(prefix, suffix), raw_value: raw.to_string() }
}

fn int_entry(key: &str, raw: &str, parsed: i64) -> TableKeyValue {
    TableKeyValue {
        key: repr("", key, ""),
        value: Item::Value(Value::Integer(Formatted { value: parsed, repr: repr("", raw, "") })),
    }
}

fn table_entry(key: &str, table: Table) -> TableKeyValue {
    TableKeyValue { key: repr("", key, ""), value: Item::Table(table) }
}

fn plain_table(items: Vec<TableKeyValue>, position: Option<usize>) -> Table {
    Table { items, decor: decor("", ""), implicit: false, position }
}

#[test]
fn root_table_has_no_header() {
    let doc = Document {
        root: plain_table(vec![int_entry("a", "1", 1)], Some(0)),
        trailing: "".to_string(),
    };
    assert_eq!(doc.to_string(), "a=1\n");
}

#[test]
fn nested_table_headers_follow_parent() {
    let c = plain_table(vec![int_entry("y", "3", 3)], Some(2));
    let b = plain_table(vec![int_entry("x", "2", 2), table_entry("c", c)], Some(1));
    let root = plain_table(vec![int_entry("a", "1", 1), table_entry("b", b)], Some(0));
    let doc = Document { root, trailing: "".to_string() };
    assert_eq!(doc.to_string(), "a=1\n[b]\nx=2\n[b.c]\ny=3\n");
}

#[test]
fn array_of_tables_members_render_in_stored_order() {
    let first = plain_table(vec![int_entry("q", "1", 1)], Some(1));
    let second = plain_table(vec![int_entry("q", "2", 2)], Some(2));
    let root = Table {
        items: vec![TableKeyValue {
            key: repr("", "p", ""),
            value: Item::ArrayOfTables(ArrayOfTables { tables: vec![first, second] }),
        }],
        decor: decor("", ""),
        implicit: false,
        position: Some(0),
    };
    let doc = Document { root, trailing: "".to_string() };
    assert_eq!(doc.to_string(), "[[p]]\nq=1\n[[p]]\nq=2\n");
}

#[test]
fn implicit_table_without_values_emits_no_header() {
    // `[a.b]` alone: `a` exists only because the deeper path needed it.
    let b = plain_table(vec![int_entry("x", "1", 1)], Some(0));
    let a = Table {
        items: vec![table_entry("b", b)],
        decor: decor("", ""),
        implicit: true,
        position: None,
    };
    let root = plain_table(vec![table_entry("a", a)], None);
    let doc = Document { root, trailing: "".to_string() };
    assert_eq!(doc.to_string(), "[a.b]\nx=1\n");
}

#[test]
fn implicit_table_with_values_keeps_its_header() {
    let a = Table {
        items: vec![int_entry("x", "1", 1)],
        decor: decor("", ""),
        implicit: true,
        position: Some(1),
    };
    let root = plain_table(vec![table_entry("a", a)], Some(0));
    let doc = Document { root, trailing: "".to_string() };
    assert_eq!(doc.to_string(), "[a]\nx=1\n");
}

#[test]
fn header_decor_and_dotted_path_are_kept() {
    let inner = Table {
        items: vec![int_entry("k", "5", 5)],
        decor: decor("\n# section\n", " # here"),
        implicit: false,
        position: Some(1),
    };
    let mid = Table {
        items: vec![table_entry("inner", inner)],
        decor: decor("", ""),
        implicit: true,
        position: None,
    };
    let root = plain_table(vec![table_entry("outer", mid)], Some(0));
    let doc = Document { root, trailing: "# end\n".to_string() };
    assert_eq!(doc.to_string(), "\n# section\n[outer.inner] # here\nk=5\n# end\n");
}

#[test]
fn table_to_string_renders_its_own_subtree_without_header() {
    let c = plain_table(vec![int_entry("y", "3", 3)], None);
    let b = plain_table(vec![int_entry("x", "2", 2), table_entry("c", c)], None);
    assert_eq!(b.to_string(), "x=2\n[c]\ny=3\n");
}

#[test]
fn values_len_counts_only_plain_value_entries() {
    let sub = plain_table(vec![], None);
    let t = plain_table(
        vec![int_entry("a", "1", 1), table_entry("s", sub), int_entry("b", "2", 2)],
        None,
    );
    assert_eq!(t.values_len(), 2);
}

#[test]
fn document_trailing_text_is_appended() {
    let doc = Document {
        root: plain_table(vec![int_entry("a", "1", 1)], Some(0)),
        trailing: "\n# the end\n".to_string(),
    };
    assert_eq!(doc.to_string(), "a=1\n\n# the end\n");
}

#[test]
fn rendering_twice_gives_identical_text() {
    let c = plain_table(vec![int_entry("y", "3", 3)], Some(2));
    let b = plain_table(vec![int_entry("x", "2", 2), table_entry("c", c)], Some(1));
    let root = plain_table(vec![int_entry("a", "1", 1), table_entry("b", b)], Some(0));
    let doc = Document { root, trailing: "".to_string() };
    assert_eq!(doc.to_string(), doc.to_string());
    assert_eq!(doc.to_string_in_original_order(), doc.to_string_in_original_order());
}
