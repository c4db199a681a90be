//! Rendering of values: scalars, arrays and inline tables.
//!
//! Each `*_text` spec function states the exact text an element renders to;
//! each `render` method appends that text to a growing output string.

use crate::tree::{Array, DateTime, Formatted, InlineTable, Item, Repr, Value};
use vstd::prelude::*;
use vstd::string::StringExecFns;

verus! {

/// The text of a decorated raw lexeme: prefix, raw text, suffix, verbatim.
pub open spec fn repr_text(r: Repr) -> Seq<char> {
    r.decor.prefix@ + r.raw_value@ + r.decor.suffix@
}

/// A formatted scalar renders through its raw lexeme alone.
pub open spec fn formatted_text<T>(f: Formatted<T>) -> Seq<char> {
    repr_text(f.repr)
}

/// The canonical text of a date or time value.
pub open spec fn date_time_text(d: DateTime) -> Seq<char> {
    match d {
        DateTime::OffsetDateTime(s) => s@,
        DateTime::LocalDateTime(s) => s@,
        DateTime::LocalDate(s) => s@,
        DateTime::LocalTime(s) => s@,
    }
}

/// The text of a value, by its active variant.
pub open spec fn value_text(v: Value) -> Seq<char>
    decreases v, 1int, 0int,
{
    match v {
        Value::Integer(f) => formatted_text(f),
        Value::String(f) => formatted_text(f),
        Value::Float(f) => formatted_text(f),
        Value::Boolean(f) => formatted_text(f),
        Value::DateTime(f) => formatted_text(f),
        Value::Array(a) => array_text(a),
        Value::InlineTable(t) => inline_table_text(t),
    }
}

/// The element list of an array from element `i` on: elements in sequence
/// order, a bare comma before each element except the first of the array.
pub open spec fn array_items_from(a: Array, i: int) -> Seq<char>
    decreases a, 0int, a.values@.len() - i,
{
    if i < 0 || i >= a.values@.len() {
        Seq::<char>::empty()
    } else {
        (if i > 0 {
            ","@
        } else {
            Seq::<char>::empty()
        }) + value_text(a.values@[i]) + array_items_from(a, i + 1)
    }
}

/// The text of an array: decor prefix, `[`, the separated elements, the
/// trailing comma if recorded, the trailing raw text, `]`, decor suffix.
pub open spec fn array_text(a: Array) -> Seq<char>
    decreases a, 1int, 0int,
{
    a.decor.prefix@ + "["@ + array_items_from(a, 0) + (if a.trailing_comma {
        ","@
    } else {
        Seq::<char>::empty()
    }) + a.trailing@ + "]"@ + a.decor.suffix@
}

/// The entry list of an inline table from entry `i` on.  Only entries whose
/// item is a plain value are shown; `emitted` records whether an earlier
/// entry was shown, which decides the separating comma.
pub open spec fn inline_items_from(t: InlineTable, i: int, emitted: bool) -> Seq<char>
    decreases t, 0int, t.items@.len() - i,
{
    if i < 0 || i >= t.items@.len() {
        Seq::<char>::empty()
    } else {
        match t.items@[i].value {
            Item::Value(v) => (if emitted {
                ","@
            } else {
                Seq::<char>::empty()
            }) + repr_text(t.items@[i].key) + "="@ + value_text(v) + inline_items_from(
                t,
                i + 1,
                true,
            ),
            _ => inline_items_from(t, i + 1, emitted),
        }
    }
}

/// The text of an inline table: decor prefix, `{`, the preamble, the shown
/// entries, `}`, decor suffix.
pub open spec fn inline_table_text(t: InlineTable) -> Seq<char>
    decreases t, 1int, 0int,
{
    t.decor.prefix@ + "{"@ + t.preamble@ + inline_items_from(t, 0, false) + "}"@ + t.decor.suffix@
}

impl Repr {
    /// Append this lexeme's text: prefix, raw value, suffix.
    pub fn render(&self, out: &mut String)
        ensures
            final(out)@ == old(out)@ + repr_text(*self),
    {
        out.append(self.decor.prefix.as_str());
        out.append(self.raw_value.as_str());
        out.append(self.decor.suffix.as_str());
        proof {
            assert(out@ =~= old(out)@ + repr_text(*self));
        }
    }
}

impl<T> Formatted<T> {
    /// Append this scalar's text, which is its raw lexeme alone.
    pub fn render(&self, out: &mut String)
        ensures
            final(out)@ == old(out)@ + formatted_text(*self),
    {
        self.repr.render(out);
    }
}

impl DateTime {
    /// Append the canonical text of the active variant.
    pub fn render(&self, out: &mut String)
        ensures
            final(out)@ == old(out)@ + date_time_text(*self),
    {
        match self {
            DateTime::OffsetDateTime(s) => out.append(s.as_str()),
            DateTime::LocalDateTime(s) => out.append(s.as_str()),
            DateTime::LocalDate(s) => out.append(s.as_str()),
            DateTime::LocalTime(s) => out.append(s.as_str()),
        }
    }
}

impl Value {
    /// Append this value's text, dispatching on the active variant.
    pub fn render(&self, out: &mut String)
        ensures
            final(out)@ == old(out)@ + value_text(*self),
        decreases *self, 1int, 0int,
    {
        match self {
            Value::Integer(f) => f.render(out),
            Value::String(f) => f.render(out),
            Value::Float(f) => f.render(out),
            Value::Boolean(f) => f.render(out),
            Value::DateTime(f) => f.render(out),
            Value::Array(a) => a.render(out),
            Value::InlineTable(t) => t.render(out),
        }
    }
}

impl Array {
    /// Append this array's text.
    pub fn render(&self, out: &mut String)
        ensures
            final(out)@ == old(out)@ + array_text(*self),
        decreases *self, 1int, 0int,
    {
        out.append(self.decor.prefix.as_str());
        out.append("[");
        self.render_items_from(0, out);
        if self.trailing_comma {
            out.append(",");
        }
        out.append(self.trailing.as_str());
        out.append("]");
        out.append(self.decor.suffix.as_str());
        proof {
            assert(out@ =~= old(out)@ + array_text(*self));
        }
    }

    fn render_items_from(&self, i: usize, out: &mut String)
        ensures
            final(out)@ == old(out)@ + array_items_from(*self, i as int),
        decreases *self, 0int, self.values@.len() - i,
    {
        if i < self.values.len() {
            if i > 0 {
                out.append(",");
            }
            let v = &self.values[i];
            v.render(out);
            self.render_items_from(i + 1, out);
            proof {
                assert(out@ =~= old(out)@ + array_items_from(*self, i as int));
            }
        } else {
            proof {
                assert(out@ =~= old(out)@ + array_items_from(*self, i as int));
            }
        }
    }
}

impl InlineTable {
    /// Append this inline table's text.
    pub fn render(&self, out: &mut String)
        ensures
            final(out)@ == old(out)@ + inline_table_text(*self),
        decreases *self, 1int, 0int,
    {
        out.append(self.decor.prefix.as_str());
        out.append("{");
        out.append(self.preamble.as_str());
        self.render_items_from(0, false, out);
        out.append("}");
        out.append(self.decor.suffix.as_str());
        proof {
            assert(out@ =~= old(out)@ + inline_table_text(*self));
        }
    }

    fn render_items_from(&self, i: usize, emitted: bool, out: &mut String)
        ensures
            final(out)@ == old(out)@ + inline_items_from(*self, i as int, emitted),
        decreases *self, 0int, self.items@.len() - i,
    {
        if i < self.items.len() {
            let kv = &self.items[i];
            match &kv.value {
                Item::Value(v) => {
                    if emitted {
                        out.append(",");
                    }
                    kv.key.render(out);
                    out.append("=");
                    v.render(out);
                    self.render_items_from(i + 1, true, out);
                },
                _ => {
                    self.render_items_from(i + 1, emitted, out);
                },
            }
            proof {
                assert(out@ =~= old(out)@ + inline_items_from(*self, i as int, emitted));
            }
        } else {
            proof {
                assert(out@ =~= old(out)@ + inline_items_from(*self, i as int, emitted));
            }
        }
    }
}

} // verus!
