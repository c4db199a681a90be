//! The document model: decorated raw lexemes, values, tables and documents.
//!
//! Every type here is plain data with public fields.  The parser or the
//! mutation interface builds these trees; rendering only reads them.

use vstd::prelude::*;

verus! {

/// Raw leading and trailing text (whitespace and comments) around an element.
pub struct Decor {
    /// Text that precedes the element.
    pub prefix: String,
    /// Text that follows the element.
    pub suffix: String,
}

/// A decorated raw lexeme: the exact source text of a scalar plus its decor.
pub struct Repr {
    pub decor: Decor,
    /// The exact original text of the scalar, e.g. `1_000` for an integer.
    pub raw_value: String,
}

/// A parsed value of type `T` paired with the raw text it was written with.
/// Rendering uses only the `repr`; the parsed value is never re-serialised.
pub struct Formatted<T> {
    pub value: T,
    pub repr: Repr,
}

/// A date or time value.  Building and formatting the canonical component
/// text is the job of an outside date library; this renderer carries the
/// canonical text of each variant and only ever concatenates it.
pub enum DateTime {
    OffsetDateTime(String),
    LocalDateTime(String),
    LocalDate(String),
    LocalTime(String),
}

/// A value attached to a key: a decorated scalar or a composite.
pub enum Value {
    Integer(Formatted<i64>),
    String(Formatted<String>),
    /// The numeric payload of a float is outside this renderer's scope; the
    /// parsed value is carried as its canonical text next to the raw lexeme.
    Float(Formatted<String>),
    Boolean(Formatted<bool>),
    DateTime(Formatted<DateTime>),
    Array(Array),
    InlineTable(InlineTable),
}

/// An ordered sequence of values, `[ ... ]`.
pub struct Array {
    /// The elements, in order.  Visual spacing lives in each element's decor.
    pub values: Vec<Value>,
    /// Decor outside the brackets.
    pub decor: Decor,
    /// Raw text before the closing bracket: dangling comments and newlines.
    pub trailing: String,
    /// Whether one more comma follows the last element.
    pub trailing_comma: bool,
}

/// A single-line key/value mapping, `{ ... }`.
pub struct InlineTable {
    /// The entries in insertion order.  Only entries whose item is a plain
    /// value are visible in inline form.
    pub items: Vec<TableKeyValue>,
    /// Decor outside the braces.
    pub decor: Decor,
    /// Raw text between `{` and the first key.
    pub preamble: String,
}

/// The content attached to a key inside a table.
pub enum Item {
    /// No content: the key is only a placeholder.
    Absent,
    /// A plain value, rendered inline as `key=value`.
    Value(Value),
    /// A nested table with its own header.
    Table(Table),
    /// An array of tables, each member with its own `[[...]]` header.
    ArrayOfTables(ArrayOfTables),
}

/// One table entry: the decorated key and its item.
pub struct TableKeyValue {
    pub key: Repr,
    pub value: Item,
}

/// An ordered mapping from key to item, with header decor and placement data.
pub struct Table {
    /// The entries in insertion order.  After parsing this is the structural
    /// order, which mutation may have driven away from the source order.
    pub items: Vec<TableKeyValue>,
    /// Decor around the header line.
    pub decor: Decor,
    /// True if the table was never declared with a header of its own and
    /// exists only because a deeper dotted path required it.
    pub implicit: bool,
    /// The entry index at which this table's header appeared in the original
    /// source, or `None` for a table created after parsing.
    pub position: Option<usize>,
}

/// An ordered sequence of tables sharing one key.
pub struct ArrayOfTables {
    pub tables: Vec<Table>,
}

/// A whole document: the headerless root table plus end-of-file raw text.
pub struct Document {
    pub root: Table,
    /// Raw text after the last element, e.g. a trailing newline or comment.
    pub trailing: String,
}

impl Item {
    /// True exactly when the item is a plain value.
    pub fn is_value(&self) -> (r: bool)
        ensures
            r == (self is Value),
    {
        match self {
            Item::Value(_) => true,
            _ => false,
        }
    }
}

impl Document {
    /// The root table of the document.
    pub fn as_table(&self) -> (t: &Table)
        ensures
            *t == self.root,
    {
        &self.root
    }
}

} // verus!
