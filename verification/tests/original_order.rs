use toml_render::tree::{
    Decor, Document, Formatted, Item, Repr, Table, TableKeyValue, Value,
};

fn decor(prefix: &str, suffix: &str) -> Decor {
    Decor { prefix: prefix.to_string(), suffix: suffix.to_string() }
}

fn repr(prefix: &str, raw: &str, suffix: &str) -> Repr {
    Repr { decor: decor(prefix, suffix), raw_value: raw.to_string() }
}

fn int_entry(key: &str, raw: &str, parsed: i64) -> TableKeyValue {
    TableKeyValue {
        key: repr("", key, ""),
        value: Item::Value(Value::Integer(Formatted { value: parsed, repr: repr("", raw, "") })),
    }
}

fn table_entry(key: &str, table: Table) -> TableKeyValue {
    TableKeyValue { key: repr("", key, ""), value: Item::Table(table) }
}

fn plain_table(items: Vec<TableKeyValue>, position: Option<usize>) -> Table {
    Table { items, decor: decor("", ""), implicit: false, position }
}

/// The document parsed from `a=1\n[b]\nx=2\n[b.c]\ny=3\n[d]\nz=4\n`, with
/// root table entries in the given structural order.
fn sample_document(root_entries: Vec<TableKeyValue>) -> Document {
    Document {
        root: Table {
            items: root_entries,
            decor: decor("", ""),
            implicit: false,
            position: Some(0),
        },
        trailing: "".to_string(),
    }
}

fn entry_b() -> TableKeyValue {
    let c = plain_table(vec![int_entry("y", "3", 3)], Some(2));
    table_entry("b", plain_table(vec![int_entry("x", "2", 2), table_entry("c", c)], Some(1)))
}

fn entry_d() -> TableKeyValue {
    table_entry("d", plain_table(vec![int_entry("z", "4", 4)], Some(3)))
}

#[test]
fn unmutated_document_round_trips() {
    // Positions already follow the structural order: the reconstruction
    // reproduces the source text, byte for byte, like the plain order does.
    let doc = sample_document(vec![int_entry("a", "1", 1), entry_b(), entry_d()]);
    let source = "a=1\n[b]\nx=2\n[b.c]\ny=3\n[d]\nz=4\n";
    assert_eq!(doc.to_string_in_original_order(), source);
    assert_eq!(doc.to_string(), source);
}

#[test]
fn reordered_tables_keep_source_order() {
    // The entry for `d` was moved before `b` in the root mapping, but every
    // stored position is unchanged: the reconstruction still emits `[b]`
    // before `[b.c]` before `[d]`, while the plain order follows the
    // mutated structural order.
    let doc = sample_document(vec![int_entry("a", "1", 1), entry_d(), entry_b()]);
    assert_eq!(
        doc.to_string_in_original_order(),
        "a=1\n[b]\nx=2\n[b.c]\ny=3\n[d]\nz=4\n",
    );
    assert_eq!(doc.to_string(), "a=1\n[d]\nz=4\n[b]\nx=2\n[b.c]\ny=3\n");
}

#[test]
fn inserted_table_follows_positioned_sibling() {
    // A new table without a position, inserted structurally right after
    // `d`, is rendered immediately after `[d]`'s block even though `d`
    // itself is rendered out of structural order, two passes in.
    let n = table_entry("n", plain_table(vec![int_entry("w", "9", 9)], None));
    let doc = sample_document(vec![int_entry("a", "1", 1), entry_d(), n, entry_b()]);
    assert_eq!(
        doc.to_string_in_original_order(),
        "a=1\n[b]\nx=2\n[b.c]\ny=3\n[d]\nz=4\n[n]\nw=9\n",
    );
}

#[test]
fn inserted_table_in_order_prints_in_first_pass() {
    let n = table_entry("n", plain_table(vec![int_entry("w", "9", 9)], None));
    let doc = sample_document(vec![int_entry("a", "1", 1), entry_b(), entry_d(), n]);
    assert_eq!(
        doc.to_string_in_original_order(),
        "a=1\n[b]\nx=2\n[b.c]\ny=3\n[d]\nz=4\n[n]\nw=9\n",
    );
}

#[test]
fn document_without_positions_renders_only_trailing_text() {
    // With no recorded position anywhere the schedule is empty, no pass
    // runs, and only the trailing text is emitted.
    let doc = Document {
        root: plain_table(vec![int_entry("a", "1", 1)], None),
        trailing: "# tail\n".to_string(),
    };
    assert_eq!(doc.to_string_in_original_order(), "# tail\n");
    assert_eq!(doc.to_string(), "a=1\n# tail\n");
}

#[test]
fn comments_and_whitespace_survive_the_round_trip() {
    let a_entry = TableKeyValue {
        key: repr("# top comment\n", "a", " "),
        value: Item::Value(Value::Integer(Formatted {
            value: 1,
            repr: repr(" ", "1", " # note"),
        })),
    };
    let b_entry = TableKeyValue {
        key: repr("", "b", " "),
        value: Item::Value(Value::String(Formatted {
            value: "x".to_string(),
            repr: repr(" ", "\"x\"", ""),
        })),
    };
    let s = Table {
        items: vec![b_entry],
        decor: decor("", " # section"),
        implicit: false,
        position: Some(1),
    };
    let doc = Document {
        root: Table {
            items: vec![a_entry, table_entry("s", s)],
            decor: decor("", ""),
            implicit: false,
            position: Some(0),
        },
        trailing: "\n# eof\n".to_string(),
    };
    let source = "# top comment\na = 1 # note\n[s] # section\nb = \"x\"\n\n# eof\n";
    assert_eq!(doc.to_string_in_original_order(), source);
    assert_eq!(doc.to_string(), source);
}

#[test]
fn implicit_table_stays_suppressed_in_original_order() {
    let b = plain_table(vec![int_entry("x", "1", 1)], Some(1));
    let a = Table {
        items: vec![table_entry("b", b)],
        decor: decor("", ""),
        implicit: true,
        position: None,
    };
    let doc = Document {
        root: Table {
            items: vec![table_entry("a", a)],
            decor: decor("", ""),
            implicit: false,
            position: Some(0),
        },
        trailing: "".to_string(),
    };
    assert_eq!(doc.to_string_in_original_order(), "[a.b]\nx=1\n");
    assert_eq!(doc.to_string(), "[a.b]\nx=1\n");
}

#[test]
fn as_table_exposes_the_root() {
    let doc = Document {
        root: plain_table(vec![int_entry("a", "1", 1)], Some(0)),
        trailing: "".to_string(),
    };
    assert_eq!(doc.as_table().values_len(), 1);
}
