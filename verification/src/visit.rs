//! The table tree: header and body printing, and the depth-first visitor.
//!
//! A depth-first traversal of the nested-table tree yields one `Visit` per
//! table: the text its header and body render to, and its recorded source
//! position.  The plain rendering order is exactly this traversal order: a
//! parent's block comes first, then each entry's subtables in insertion
//! order, each array-of-tables member in its stored order.

use crate::render::{repr_text, value_text};
use crate::tree::{Document, Item, Table};
use vstd::prelude::*;
use vstd::string::StringExecFns;

verus! {

/// The views of the path components, innermost key last.
pub open spec fn path_view(p: Seq<String>) -> Seq<Seq<char>> {
    p.map_values(|s: String| s@)
}

/// The dotted path from component `i` on: components in order, a dot before
/// each component except the first of the path.
pub open spec fn path_from(path: Seq<Seq<char>>, i: int) -> Seq<char>
    decreases path.len() - i,
{
    if i < 0 || i >= path.len() {
        Seq::<char>::empty()
    } else {
        (if i > 0 {
            "."@
        } else {
            Seq::<char>::empty()
        }) + path[i] + path_from(path, i + 1)
    }
}

/// The table body from entry `i` on: one `key=value` line per plain-value
/// entry; entries of any other kind add nothing here.
pub open spec fn table_body_from(t: Table, i: int) -> Seq<char>
    decreases t.items@.len() - i,
{
    if i < 0 || i >= t.items@.len() {
        Seq::<char>::empty()
    } else {
        match t.items@[i].value {
            Item::Value(v) => repr_text(t.items@[i].key) + "="@ + value_text(v) + "\n"@
                + table_body_from(t, i + 1),
            _ => table_body_from(t, i + 1),
        }
    }
}

/// How many entries from `i` on hold a plain value.
pub open spec fn table_value_count_from(t: Table, i: int) -> int
    decreases t.items@.len() - i,
{
    if i < 0 || i >= t.items@.len() {
        0
    } else {
        (if t.items@[i].value is Value {
            1int
        } else {
            0int
        }) + table_value_count_from(t, i + 1)
    }
}

/// The text one table contributes when visited: its header line — none for
/// the root, `[[path]]` for an array-of-tables member, `[path]` for a plain
/// table unless it is implicit with no direct value entries — then its body.
pub open spec fn visit_table_text(t: Table, path: Seq<Seq<char>>, is_array_of_tables: bool) -> Seq<
    char,
> {
    let body = table_body_from(t, 0);
    if path.len() == 0 {
        body
    } else if is_array_of_tables {
        t.decor.prefix@ + "[["@ + path_from(path, 0) + "]]"@ + t.decor.suffix@ + "\n"@ + body
    } else if !(t.implicit && table_value_count_from(t, 0) == 0) {
        t.decor.prefix@ + "["@ + path_from(path, 0) + "]"@ + t.decor.suffix@ + "\n"@ + body
    } else {
        body
    }
}

/// One stop of the depth-first traversal: the text the table renders to at
/// its place in the tree, and its recorded source position.
pub ghost struct Visit {
    pub text: Seq<char>,
    pub position: Option<usize>,
}

/// The number of member tables of the array of tables at entry `i`, or zero
/// for an entry of any other kind.
pub open spec fn aot_member_count(t: Table, i: int) -> int {
    match t.items@[i].value {
        Item::ArrayOfTables(arr) => arr.tables@.len() as int,
        _ => 0,
    }
}

/// The visits of the depth-first traversal rooted at `t`: the table itself
/// first, then the visits below each entry in insertion order.
pub open spec fn dfs_visits(t: Table, path: Seq<Seq<char>>, is_array_of_tables: bool) -> Seq<Visit>
    decreases t, 1int, 0int, 0int, 0int,
{
    seq![
        Visit { text: visit_table_text(t, path, is_array_of_tables), position: t.position },
    ] + items_visits(t, 0, path)
}

/// The visits below the entries of `t` from entry `i` on.  A nested table
/// recurses with its key appended to the path; an array of tables yields its
/// members' visits in stored order; value and empty entries add no visit.
pub open spec fn items_visits(t: Table, i: int, path: Seq<Seq<char>>) -> Seq<Visit>
    decreases t, 0int, t.items@.len() - i, 1int, 0int,
{
    if i < 0 || i >= t.items@.len() {
        Seq::<Visit>::empty()
    } else {
        (match t.items@[i].value {
            Item::Table(sub) => dfs_visits(sub, path.push(t.items@[i].key.raw_value@), false),
            Item::ArrayOfTables(arr) => aot_visits(t, i, 0, path),
            _ => Seq::<Visit>::empty(),
        }) + items_visits(t, i + 1, path)
    }
}

/// The visits of the members of the array of tables at entry `i`, from
/// member `j` on, each visited with the entry's key appended to the path.
pub open spec fn aot_visits(t: Table, i: int, j: int, path: Seq<Seq<char>>) -> Seq<Visit>
    decreases t, 0int, t.items@.len() - i, 0int, aot_member_count(t, i) - j,
{
    if i < 0 || i >= t.items@.len() {
        Seq::<Visit>::empty()
    } else {
        match t.items@[i].value {
            Item::ArrayOfTables(arr) => {
                if 0 <= j < arr.tables@.len() {
                    dfs_visits(arr.tables@[j], path.push(t.items@[i].key.raw_value@), true)
                        + aot_visits(t, i, j + 1, path)
                } else {
                    Seq::<Visit>::empty()
                }
            },
            _ => Seq::<Visit>::empty(),
        }
    }
}

/// The texts of a visit sequence, concatenated in order.
pub open spec fn visits_text(vs: Seq<Visit>) -> Seq<char>
    decreases vs.len(),
{
    if vs.len() == 0 {
        Seq::<char>::empty()
    } else {
        vs[0].text + visits_text(vs.drop_first())
    }
}

/// The recorded positions of a visit sequence, in traversal order.
pub open spec fn positions_seq(vs: Seq<Visit>) -> Seq<usize>
    decreases vs.len(),
{
    if vs.len() == 0 {
        Seq::<usize>::empty()
    } else {
        (match vs[0].position {
            Some(p) => seq![p],
            None => Seq::<usize>::empty(),
        }) + positions_seq(vs.drop_first())
    }
}

/// The whole text of the plain structural order rooted at `t`.
pub open spec fn table_plain_text(t: Table) -> Seq<char> {
    visits_text(dfs_visits(t, Seq::<Seq<char>>::empty(), false))
}

/// The whole text of a document in plain structural order.
pub open spec fn document_plain_text(d: Document) -> Seq<char> {
    table_plain_text(d.root) + d.trailing@
}

/// Concatenating visit sequences concatenates their texts.
pub proof fn lemma_visits_text_concat(s1: Seq<Visit>, s2: Seq<Visit>)
    ensures
        visits_text(s1 + s2) == visits_text(s1) + visits_text(s2),
    decreases s1.len(),
{
    if s1.len() == 0 {
        assert(s1 + s2 =~= s2);
        assert(visits_text(s1) + visits_text(s2) =~= visits_text(s2));
    } else {
        assert((s1 + s2).drop_first() =~= s1.drop_first() + s2);
        lemma_visits_text_concat(s1.drop_first(), s2);
        assert(visits_text(s1 + s2) =~= visits_text(s1) + visits_text(s2));
    }
}

/// One recorded stop of the traversal: the rendered text of a table at its
/// place in the tree, and the table's recorded source position.
pub struct TableVisit {
    pub text: String,
    pub position: Option<usize>,
}

impl View for TableVisit {
    type V = Visit;

    open spec fn view(&self) -> Visit {
        Visit { text: self.text@, position: self.position }
    }
}

/// The views of a recorded visit sequence.
pub open spec fn visits_view(s: Seq<TableVisit>) -> Seq<Visit> {
    s.map_values(|v: TableVisit| v@)
}

/// Append the dotted path from component `i` on.
fn join_from(path: &Vec<String>, i: usize, out: &mut String)
    ensures
        final(out)@ == old(out)@ + path_from(path_view(path@), i as int),
    decreases path@.len() - i,
{
    if i < path.len() {
        if i > 0 {
            out.append(".");
        }
        out.append(path[i].as_str());
        join_from(path, i + 1, out);
        proof {
            assert(out@ =~= old(out)@ + path_from(path_view(path@), i as int));
        }
    } else {
        proof {
            assert(out@ =~= old(out)@ + path_from(path_view(path@), i as int));
        }
    }
}

/// Append the path components joined by dots.
pub fn join(path: &Vec<String>, out: &mut String)
    ensures
        final(out)@ == old(out)@ + path_from(path_view(path@), 0),
{
    join_from(path, 0, out);
}

/// Append the table body from entry `i` on.
fn render_body_from(table: &Table, i: usize, out: &mut String)
    ensures
        final(out)@ == old(out)@ + table_body_from(*table, i as int),
    decreases table.items@.len() - i,
{
    if i < table.items.len() {
        let kv = &table.items[i];
        match &kv.value {
            Item::Value(v) => {
                kv.key.render(out);
                out.append("=");
                v.render(out);
                out.append("\n");
            },
            _ => {},
        }
        render_body_from(table, i + 1, out);
        proof {
            assert(out@ =~= old(out)@ + table_body_from(*table, i as int));
        }
    } else {
        proof {
            assert(out@ =~= old(out)@ + table_body_from(*table, i as int));
        }
    }
}

/// Append one table's contribution: its header line, if any, then its body.
pub fn visit_table(table: &Table, path: &Vec<String>, is_array_of_tables: bool, out: &mut String)
    ensures
        final(out)@ == old(out)@ + visit_table_text(*table, path_view(path@), is_array_of_tables),
{
    if path.len() == 0 {
        // the root table has no header
    } else if is_array_of_tables {
        out.append(table.decor.prefix.as_str());
        out.append("[[");
        join(path, out);
        out.append("]]");
        out.append(table.decor.suffix.as_str());
        out.append("\n");
    } else if !(table.implicit && table.values_len() == 0) {
        out.append(table.decor.prefix.as_str());
        out.append("[");
        join(path, out);
        out.append("]");
        out.append(table.decor.suffix.as_str());
        out.append("\n");
    }
    render_body_from(table, 0, out);
    proof {
        assert(out@ =~= old(out)@ + visit_table_text(*table, path_view(path@), is_array_of_tables));
    }
}

impl Table {
    fn values_len_from(&self, i: usize) -> (n: usize)
        requires
            i <= self.items@.len(),
        ensures
            n == table_value_count_from(*self, i as int),
        decreases self.items@.len() - i,
    {
        proof {
            lemma_table_value_count_bounds(*self, i as int);
        }
        if i < self.items.len() {
            let rest = self.values_len_from(i + 1);
            match &self.items[i].value {
                Item::Value(_) => rest + 1,
                _ => rest,
            }
        } else {
            0
        }
    }

    /// How many direct entries of this table hold a plain value.
    pub fn values_len(&self) -> (n: usize)
        ensures
            n == table_value_count_from(*self, 0),
    {
        self.values_len_from(0)
    }

    /// Record the depth-first traversal rooted at this table: one visit per
    /// table, the table itself first, then each entry's subtables in
    /// insertion order.  The path is pushed before each descent and popped
    /// after it, so it is returned as it was given.
    pub fn visit_nested_tables(
        &self,
        path: &mut Vec<String>,
        is_array_of_tables: bool,
        visits: &mut Vec<TableVisit>,
    )
        ensures
            final(path)@ == old(path)@,
            visits_view(final(visits)@) == visits_view(old(visits)@) + dfs_visits(
                *self,
                path_view(old(path)@),
                is_array_of_tables,
            ),
        decreases *self, 1int, 0int, 0int, 0int,
    {
        let mut text = String::new();
        visit_table(self, path, is_array_of_tables, &mut text);
        visits.push(TableVisit { text, position: self.position });
        proof {
            assert(visits_view(visits@) =~= visits_view(old(visits)@) + seq![
                Visit {
                    text: visit_table_text(*self, path_view(path@), is_array_of_tables),
                    position: self.position,
                },
            ]);
        }
        self.visit_items(0, path, visits);
        proof {
            assert(visits_view(visits@) =~= visits_view(old(visits)@) + dfs_visits(
                *self,
                path_view(old(path)@),
                is_array_of_tables,
            ));
        }
    }

    fn visit_items(&self, i: usize, path: &mut Vec<String>, visits: &mut Vec<TableVisit>)
        ensures
            final(path)@ == old(path)@,
            visits_view(final(visits)@) == visits_view(old(visits)@) + items_visits(
                *self,
                i as int,
                path_view(old(path)@),
            ),
        decreases *self, 0int, self.items@.len() - i, 1int, 0int,
    {
        if i < self.items.len() {
            let kv = &self.items[i];
            match &kv.value {
                Item::Table(sub) => {
                    path.push(kv.key.raw_value.clone());
                    proof {
                        assert(path_view(path@) =~= path_view(old(path)@).push(
                            kv.key.raw_value@,
                        ));
                    }
                    sub.visit_nested_tables(path, false, visits);
                    let _popped = path.pop();
                    proof {
                        assert(path@ =~= old(path)@);
                    }
                },
                Item::ArrayOfTables(_) => {
                    self.visit_items_aot(i, 0, path, visits);
                },
                _ => {},
            }
            self.visit_items(i + 1, path, visits);
            proof {
                assert(visits_view(visits@) =~= visits_view(old(visits)@) + items_visits(
                    *self,
                    i as int,
                    path_view(old(path)@),
                ));
            }
        } else {
            proof {
                assert(visits_view(visits@) =~= visits_view(old(visits)@) + items_visits(
                    *self,
                    i as int,
                    path_view(old(path)@),
                ));
            }
        }
    }

    fn visit_items_aot(
        &self,
        i: usize,
        j: usize,
        path: &mut Vec<String>,
        visits: &mut Vec<TableVisit>,
    )
        requires
            i < self.items@.len(),
            self.items@[i as int].value is ArrayOfTables,
        ensures
            final(path)@ == old(path)@,
            visits_view(final(visits)@) == visits_view(old(visits)@) + aot_visits(
                *self,
                i as int,
                j as int,
                path_view(old(path)@),
            ),
        decreases *self, 0int, self.items@.len() - i, 0int, aot_member_count(*self, i as int) - j,
    {
        let kv = &self.items[i];
        match &kv.value {
            Item::ArrayOfTables(arr) => {
                if j < arr.tables.len() {
                    let sub = &arr.tables[j];
                    path.push(kv.key.raw_value.clone());
                    proof {
                        assert(path_view(path@) =~= path_view(old(path)@).push(
                            kv.key.raw_value@,
                        ));
                    }
                    sub.visit_nested_tables(path, true, visits);
                    let _popped = path.pop();
                    proof {
                        assert(path@ =~= old(path)@);
                    }
                    self.visit_items_aot(i, j + 1, path, visits);
                    proof {
                        assert(visits_view(visits@) =~= visits_view(old(visits)@) + aot_visits(
                            *self,
                            i as int,
                            j as int,
                            path_view(old(path)@),
                        ));
                    }
                } else {
                    proof {
                        assert(visits_view(visits@) =~= visits_view(old(visits)@) + aot_visits(
                            *self,
                            i as int,
                            j as int,
                            path_view(old(path)@),
                        ));
                    }
                }
            },
            _ => {},
        }
    }

    /// The text of this table and everything below it, in plain structural
    /// order: the parent's block first, then its subtables' blocks.
    pub fn to_string(&self) -> (r: String)
        ensures
            r@ == table_plain_text(*self),
    {
        let mut path: Vec<String> = Vec::new();
        let mut visits: Vec<TableVisit> = Vec::new();
        self.visit_nested_tables(&mut path, false, &mut visits);
        proof {
            assert(path_view(Seq::<String>::empty()) =~= Seq::<Seq<char>>::empty());
            assert(visits_view(Seq::<TableVisit>::empty()) =~= Seq::<Visit>::empty());
            assert(visits_view(visits@) =~= dfs_visits(
                *self,
                Seq::<Seq<char>>::empty(),
                false,
            ));
        }
        let mut out = String::new();
        append_visit_texts(&visits, &mut out);
        out
    }
}

/// Append the texts of the recorded visits, in order.
pub fn append_visit_texts(visits: &Vec<TableVisit>, out: &mut String)
    ensures
        final(out)@ == old(out)@ + visits_text(visits_view(visits@)),
{
    let mut i: usize = 0;
    proof {
        assert(visits_view(visits@).skip(0) =~= visits_view(visits@));
    }
    while i < visits.len()
        invariant
            i <= visits@.len(),
            old(out)@ + visits_text(visits_view(visits@)) == out@ + visits_text(
                visits_view(visits@).skip(i as int),
            ),
        decreases visits@.len() - i,
    {
        let v = &visits[i];
        out.append(v.text.as_str());
        i = i + 1;
        proof {
            let vs = visits_view(visits@);
            assert(vs.skip(i - 1).drop_first() =~= vs.skip(i as int));
            assert(vs.skip(i - 1)[0] == vs[i - 1]);
            assert(old(out)@ + visits_text(vs) =~= out@ + visits_text(vs.skip(i as int)));
        }
    }
    proof {
        let vs = visits_view(visits@);
        assert(vs.skip(vs.len() as int) =~= Seq::<Visit>::empty());
        assert(out@ =~= old(out)@ + visits_text(vs));
    }
}

impl Document {
    /// The full document text in plain structural order: the root table's
    /// tree, then the document's trailing raw text.
    pub fn to_string(&self) -> (r: String)
        ensures
            r@ == document_plain_text(*self),
    {
        let mut out = self.root.to_string();
        out.append(self.trailing.as_str());
        proof {
            assert(out@ =~= document_plain_text(*self));
        }
        out
    }
}

/// The count of plain-value entries from `i` on is at most the number of
/// entries from `i` on.
pub proof fn lemma_table_value_count_bounds(t: Table, i: int)
    ensures
        0 <= i <= t.items@.len() ==> 0 <= table_value_count_from(t, i) <= t.items@.len() - i,
    decreases t.items@.len() - i,
{
    if 0 <= i < t.items@.len() {
        lemma_table_value_count_bounds(t, i + 1);
    }
}

} // verus!
