//! Reconstruction of the original source order of tables.
//!
//! After mutation the structural traversal order no longer matches the order
//! tables appeared in the source.  The reconstruction gathers every recorded
//! position, sorts them into a schedule, and then repeats the plain
//! depth-first traversal, one pass per stretch of the schedule: a table whose
//! position matches the schedule entry under the cursor is printed and
//! advances the cursor; a table with another position is held back; a table
//! with no position inherits the verdict of the table visited just before
//! it, which places programmatic insertions right after the table they
//! follow structurally.

use crate::tree::{Document, Table};
use crate::visit::{
    dfs_visits, path_view, positions_seq, visits_view, TableVisit, Visit,
};
use vstd::prelude::*;
use vstd::string::StringExecFns;

verus! {

/// The traversal state of one reconstruction pass: the index of the next
/// schedule entry to match, and whether the table visited last was printed.
pub ghost struct OrderState {
    pub cursor: int,
    pub printed: bool,
}

/// A visit is skipped outright when the schedule is exhausted and the
/// previous table was held back; only a trailing run of position-less
/// tables can still be printed after the last schedule entry was matched.
pub open spec fn step_skips(st: OrderState, sched: Seq<usize>) -> bool {
    st.cursor >= sched.len() && !st.printed
}

/// The state after one table is visited: a position matching the schedule
/// entry under the cursor advances the cursor and prints; another position
/// holds printing back; no position leaves the verdict unchanged.
pub open spec fn step_state(st: OrderState, sched: Seq<usize>, position: Option<usize>) -> OrderState {
    if step_skips(st, sched) {
        st
    } else {
        match position {
            Some(p) => {
                if 0 <= st.cursor < sched.len() && p == sched[st.cursor] {
                    OrderState { cursor: st.cursor + 1, printed: true }
                } else {
                    OrderState { cursor: st.cursor, printed: false }
                }
            },
            None => st,
        }
    }
}

/// Whether the visited table is printed in this pass.
pub open spec fn step_emits(st: OrderState, sched: Seq<usize>, position: Option<usize>) -> bool {
    !step_skips(st, sched) && step_state(st, sched, position).printed
}

/// One full pass over the traversal: the text printed and the final state.
pub open spec fn pass_result(vs: Seq<Visit>, sched: Seq<usize>, st: OrderState) -> (Seq<char>, OrderState)
    decreases vs.len(),
{
    if vs.len() == 0 {
        (Seq::<char>::empty(), st)
    } else {
        let head = if step_emits(st, sched, vs[0].position) {
            vs[0].text
        } else {
            Seq::<char>::empty()
        };
        let rest = pass_result(vs.drop_first(), sched, step_state(st, sched, vs[0].position));
        (head + rest.0, rest.1)
    }
}

/// `x` inserted into `s` after every leading element that is at most `x`.
pub open spec fn insert_sorted(s: Seq<usize>, x: usize) -> Seq<usize>
    decreases s.len(),
{
    if s.len() == 0 {
        seq![x]
    } else if s[0] <= x {
        seq![s[0]] + insert_sorted(s.drop_first(), x)
    } else {
        seq![x] + s
    }
}

/// The elements of `s` in ascending order, by repeated sorted insertion.
pub open spec fn sort_seq(s: Seq<usize>) -> Seq<usize>
    decreases s.len(),
{
    if s.len() == 0 {
        Seq::<usize>::empty()
    } else {
        insert_sorted(sort_seq(s.drop_last()), s.last())
    }
}

/// A pass over two visit runs in a row prints the first run's text, then,
/// from the state the first run left, the second run's text.
pub proof fn lemma_pass_result_concat(s1: Seq<Visit>, s2: Seq<Visit>, sched: Seq<usize>, st: OrderState)
    ensures
        ({
            let r1 = pass_result(s1, sched, st);
            let r2 = pass_result(s2, sched, r1.1);
            pass_result(s1 + s2, sched, st).0 == r1.0 + r2.0 && pass_result(s1 + s2, sched, st).1
                == r2.1
        }),
    decreases s1.len(),
{
    if s1.len() == 0 {
        assert(s1 + s2 =~= s2);
        assert(pass_result(s1, sched, st).0 + pass_result(s2, sched, st).0 =~= pass_result(
            s2,
            sched,
            st,
        ).0);
    } else {
        assert((s1 + s2).drop_first() =~= s1.drop_first() + s2);
        lemma_pass_result_concat(s1.drop_first(), s2, sched, step_state(st, sched, s1[0].position));
        assert(pass_result(s1 + s2, sched, st).0 =~= pass_result(s1, sched, st).0 + pass_result(
            s2,
            sched,
            pass_result(s1, sched, st).1,
        ).0);
    }
}

/// A pass over a single visit prints its text exactly when the step says
/// so, and leaves the stepped state.
pub proof fn lemma_pass_result_singleton(v: Visit, sched: Seq<usize>, st: OrderState)
    ensures
        pass_result(seq![v], sched, st).0 == (if step_emits(st, sched, v.position) {
            v.text
        } else {
            Seq::<char>::empty()
        }),
        pass_result(seq![v], sched, st).1 == step_state(st, sched, v.position),
{
    let s = seq![v];
    let st1 = step_state(st, sched, v.position);
    assert(s.drop_first() =~= Seq::<Visit>::empty());
    assert(pass_result(Seq::<Visit>::empty(), sched, st1).0 == Seq::<char>::empty());
    assert(pass_result(Seq::<Visit>::empty(), sched, st1).1 == st1);
    assert(pass_result(s, sched, st).0 =~= (if step_emits(st, sched, v.position) {
        v.text
    } else {
        Seq::<char>::empty()
    }));
}

/// The cursor never moves backwards in a pass, and never runs past the end
/// of the schedule.
pub proof fn lemma_pass_result_cursor(vs: Seq<Visit>, sched: Seq<usize>, st: OrderState)
    ensures
        st.cursor <= pass_result(vs, sched, st).1.cursor,
        st.cursor <= sched.len() ==> pass_result(vs, sched, st).1.cursor <= sched.len(),
    decreases vs.len(),
{
    if vs.len() > 0 {
        lemma_pass_result_cursor(vs.drop_first(), sched, step_state(st, sched, vs[0].position));
    }
}

/// The text of every pass from state `st` on: one pass, then, while the
/// pass matched at least one schedule entry, the following passes with
/// printing switched off between them.  A pass that matches nothing ends
/// the rendering; the passes stop once the schedule is exhausted.
pub open spec fn passes_text(vs: Seq<Visit>, sched: Seq<usize>, st: OrderState) -> Seq<char>
    decreases sched.len() - st.cursor,
    via passes_text_decreases
{
    if st.cursor < 0 || st.cursor >= sched.len() {
        Seq::<char>::empty()
    } else {
        let r = pass_result(vs, sched, st);
        if r.1.cursor <= st.cursor {
            r.0
        } else {
            r.0 + passes_text(vs, sched, OrderState { cursor: r.1.cursor, printed: false })
        }
    }
}

#[via_fn]
proof fn passes_text_decreases(vs: Seq<Visit>, sched: Seq<usize>, st: OrderState) {
    if 0 <= st.cursor < sched.len() {
        lemma_pass_result_cursor(vs, sched, st);
    }
}

/// The text of the original-order rendering rooted at `t`: every recorded
/// position below `t`, sorted, is the schedule; the passes start with the
/// cursor at its first entry and printing switched on.
pub open spec fn ordered_text(t: Table, path: Seq<Seq<char>>, is_array_of_tables: bool) -> Seq<char> {
    let vs = dfs_visits(t, path, is_array_of_tables);
    passes_text(vs, sort_seq(positions_seq(vs)), OrderState { cursor: 0, printed: true })
}

/// The whole text of a document in reconstructed original order.
pub open spec fn original_order_text(d: Document) -> Seq<char> {
    ordered_text(d.root, Seq::<Seq<char>>::empty(), false) + d.trailing@
}

/// Every element of `insert_sorted(s, x)` is `x` or an element of `s`.
proof fn lemma_insert_sorted_contains(s: Seq<usize>, x: usize, y: usize)
    requires
        insert_sorted(s, x).contains(y),
    ensures
        s.contains(y) || y == x,
    decreases s.len(),
{
    if s.len() == 0 {
    } else if s[0] <= x {
        let r = insert_sorted(s, x);
        let k = choose|k: int| 0 <= k < r.len() && r[k] == y;
        if k == 0 {
            assert(s[0] == y);
        } else {
            assert(insert_sorted(s.drop_first(), x)[k - 1] == y);
            lemma_insert_sorted_contains(s.drop_first(), x, y);
            if s.drop_first().contains(y) {
                let m = choose|m: int| 0 <= m < s.drop_first().len() && s.drop_first()[m] == y;
                assert(s[m + 1] == y);
            }
        }
    } else {
        let r = insert_sorted(s, x);
        let k = choose|k: int| 0 <= k < r.len() && r[k] == y;
        if k != 0 {
            assert(s[k - 1] == y);
        }
    }
}

/// Every element of the sorted schedule is a recorded position.
pub proof fn lemma_sort_seq_contains(s: Seq<usize>, y: usize)
    requires
        sort_seq(s).contains(y),
    ensures
        s.contains(y),
    decreases s.len(),
{
    if s.len() > 0 {
        lemma_insert_sorted_contains(sort_seq(s.drop_last()), s.last(), y);
        if sort_seq(s.drop_last()).contains(y) {
            lemma_sort_seq_contains(s.drop_last(), y);
            let m = choose|m: int| 0 <= m < s.drop_last().len() && s.drop_last()[m] == y;
            assert(s[m] == y);
        } else {
            assert(s[s.len() - 1] == y);
        }
    }
}

/// A recorded position always belongs to some visited table.
pub proof fn lemma_positions_seq_visit(vs: Seq<Visit>, p: usize)
    requires
        positions_seq(vs).contains(p),
    ensures
        exists|i: int| 0 <= i < vs.len() && vs[i].position == Some(p),
    decreases vs.len(),
{
    if vs.len() > 0 {
        let head = match vs[0].position {
            Some(q) => seq![q],
            None => Seq::<usize>::empty(),
        };
        let k = choose|k: int| 0 <= k < positions_seq(vs).len() && positions_seq(vs)[k] == p;
        if k < head.len() {
            assert(vs[0].position == Some(p));
        } else {
            assert(positions_seq(vs.drop_first())[k - head.len()] == p);
            lemma_positions_seq_visit(vs.drop_first(), p);
            let i = choose|i: int|
                0 <= i < vs.drop_first().len() && vs.drop_first()[i].position == Some(p);
            assert(vs[i + 1].position == Some(p));
        }
    }
}

/// A pass whose schedule entry under the cursor is the position of some
/// visited table advances the cursor.
pub proof fn lemma_pass_progress(vs: Seq<Visit>, sched: Seq<usize>, st: OrderState, i: int)
    requires
        0 <= st.cursor < sched.len(),
        0 <= i < vs.len(),
        vs[i].position == Some(sched[st.cursor]),
    ensures
        pass_result(vs, sched, st).1.cursor > st.cursor,
    decreases vs.len(),
{
    let st1 = step_state(st, sched, vs[0].position);
    if st1.cursor > st.cursor {
        lemma_pass_result_cursor(vs.drop_first(), sched, st1);
    } else {
        assert(i != 0);
        lemma_pass_progress(vs.drop_first(), sched, st1, i - 1);
    }
}

/// The running state of the reconstruction: the index of the next schedule
/// entry to match, and whether the table visited last was printed.
pub struct OrderCursor {
    pub cursor: usize,
    pub should_print: bool,
}

/// The pass state an `OrderCursor` stands for.
pub open spec fn cursor_state(c: OrderCursor) -> OrderState {
    OrderState { cursor: c.cursor as int, printed: c.should_print }
}

/// Insert `x` into `r` after every leading element that is at most `x`.
fn insert_position(r: &mut Vec<usize>, x: usize)
    ensures
        final(r)@ == insert_sorted(old(r)@, x),
{
    let mut idx: usize = 0;
    while idx < r.len() && r[idx] <= x
        invariant
            idx <= r@.len(),
            r@ == old(r)@,
            forall|k: int| 0 <= k < idx ==> r@[k] <= x,
        decreases r@.len() - idx,
    {
        idx = idx + 1;
    }
    r.insert(idx, x);
    proof {
        lemma_insert_sorted_at(old(r)@, x, idx as int);
    }
}

/// Sorted insertion at the index the scan stopped at is sorted insertion.
proof fn lemma_insert_sorted_at(s: Seq<usize>, x: usize, idx: int)
    requires
        0 <= idx <= s.len(),
        forall|k: int| 0 <= k < idx ==> s[k] <= x,
        idx < s.len() ==> s[idx] > x,
    ensures
        insert_sorted(s, x) == s.insert(idx, x),
    decreases s.len(),
{
    if idx == 0 {
        if s.len() == 0 {
            assert(s.insert(0, x) =~= seq![x]);
        } else {
            assert(s.insert(0, x) =~= seq![x] + s);
        }
    } else {
        lemma_insert_sorted_at(s.drop_first(), x, idx - 1);
        assert(s.insert(idx, x) =~= seq![s[0]] + s.drop_first().insert(idx - 1, x));
    }
}

/// The recorded positions, sorted ascending: the reconstruction schedule.
fn sort_positions(v: &Vec<usize>) -> (r: Vec<usize>)
    ensures
        r@ == sort_seq(v@),
{
    let mut r: Vec<usize> = Vec::new();
    let mut k: usize = 0;
    while k < v.len()
        invariant
            k <= v@.len(),
            r@ == sort_seq(v@.subrange(0, k as int)),
        decreases v@.len() - k,
    {
        insert_position(&mut r, v[k]);
        k = k + 1;
        proof {
            assert(v@.subrange(0, k as int).drop_last() =~= v@.subrange(0, k - 1));
            assert(v@.subrange(0, k as int).last() == v@[k - 1]);
        }
    }
    proof {
        assert(v@.subrange(0, v@.len() as int) =~= v@);
    }
    r
}

/// One pass over the recorded visits, printing what the state machine
/// allows and carrying the cursor and the verdict forward.
fn render_one_pass(visits: &Vec<TableVisit>, sched: &Vec<usize>, st: &mut OrderCursor, out: &mut String)
    ensures
        ({
            let r = pass_result(visits_view(visits@), sched@, cursor_state(*old(st)));
            final(out)@ == old(out)@ + r.0 && cursor_state(*final(st)) == r.1
        }),
{
    let ghost vs = visits_view(visits@);
    let ghost st0 = cursor_state(*st);
    let mut i: usize = 0;
    proof {
        assert(vs.skip(0) =~= vs);
    }
    while i < visits.len()
        invariant
            i <= visits@.len(),
            vs == visits_view(visits@),
            st0 == cursor_state(*old(st)),
            old(out)@ + pass_result(vs, sched@, st0).0 == out@ + pass_result(
                vs.skip(i as int),
                sched@,
                cursor_state(*st),
            ).0,
            pass_result(vs, sched@, st0).1 == pass_result(
                vs.skip(i as int),
                sched@,
                cursor_state(*st),
            ).1,
        decreases visits@.len() - i,
    {
        let ghost st_pre = cursor_state(*st);
        let v = &visits[i];
        let skip_this = st.cursor >= sched.len() && !st.should_print;
        if !skip_this {
            match v.position {
                Some(p) => {
                    if st.cursor < sched.len() && p == sched[st.cursor] {
                        st.cursor = st.cursor + 1;
                        st.should_print = true;
                    } else {
                        st.should_print = false;
                    }
                },
                None => {},
            }
            if st.should_print {
                out.append(v.text.as_str());
            }
        }
        i = i + 1;
        proof {
            assert(vs.skip(i - 1).drop_first() =~= vs.skip(i as int));
            assert(vs.skip(i - 1)[0] == vs[i - 1]);
            assert(cursor_state(*st) == step_state(st_pre, sched@, vs[i - 1].position));
            assert(old(out)@ + pass_result(vs, sched@, st0).0 =~= out@ + pass_result(
                vs.skip(i as int),
                sched@,
                cursor_state(*st),
            ).0);
        }
    }
    proof {
        assert(vs.skip(vs.len() as int) =~= Seq::<Visit>::empty());
        assert(final(out)@ =~= old(out)@ + pass_result(vs, sched@, st0).0);
    }
}

impl Table {
    /// Render the tree rooted at this table, keeping the table headers in
    /// their original source order wherever positions are recorded, and
    /// placing position-less tables right after the table they follow in
    /// the traversal.
    pub fn visit_nested_tables_in_original_order(
        &self,
        path: &mut Vec<String>,
        is_array_of_tables: bool,
        out: &mut String,
    )
        ensures
            final(path)@ == old(path)@,
            final(out)@ == old(out)@ + ordered_text(
                *self,
                path_view(old(path)@),
                is_array_of_tables,
            ),
    {
        let mut visits: Vec<TableVisit> = Vec::new();
        self.visit_nested_tables(path, is_array_of_tables, &mut visits);
        let ghost vs = visits_view(visits@);
        proof {
            assert(visits_view(Seq::<TableVisit>::empty()) =~= Seq::<Visit>::empty());
            assert(vs =~= dfs_visits(*self, path_view(old(path)@), is_array_of_tables));
        }
        let mut positions: Vec<usize> = Vec::new();
        let mut i: usize = 0;
        proof {
            assert(vs.skip(0) =~= vs);
            assert(positions_seq(vs) =~= Seq::<usize>::empty() + positions_seq(vs));
        }
        while i < visits.len()
            invariant
                i <= visits@.len(),
                vs == visits_view(visits@),
                positions@ + positions_seq(vs.skip(i as int)) == positions_seq(vs),
            decreases visits@.len() - i,
        {
            let ghost positions_pre = positions@;
            let v = &visits[i];
            match v.position {
                Some(p) => positions.push(p),
                None => {},
            }
            i = i + 1;
            proof {
                assert(vs.skip(i - 1).drop_first() =~= vs.skip(i as int));
                assert(vs.skip(i - 1)[0] == vs[i - 1]);
                assert(positions@ + positions_seq(vs.skip(i as int)) =~= positions_seq(vs));
            }
        }
        proof {
            assert(vs.skip(vs.len() as int) =~= Seq::<Visit>::empty());
            assert(positions@ + Seq::<usize>::empty() =~= positions@);
            assert(positions@ =~= positions_seq(vs));
        }
        let sched = sort_positions(&positions);
        let mut st = OrderCursor { cursor: 0, should_print: true };
        while st.cursor < sched.len()
            invariant
                vs == visits_view(visits@),
                sched@ == sort_seq(positions_seq(vs)),
                st.cursor <= sched@.len(),
                old(out)@ + passes_text(
                    vs,
                    sched@,
                    OrderState { cursor: 0, printed: true },
                ) == out@ + passes_text(vs, sched@, cursor_state(st)),
            decreases sched@.len() - st.cursor,
        {
            let ghost st_pre = cursor_state(st);
            proof {
                assert(sched@.contains(sched@[st_pre.cursor]));
                lemma_sort_seq_contains(positions_seq(vs), sched@[st_pre.cursor]);
                lemma_positions_seq_visit(vs, sched@[st_pre.cursor]);
                let i = choose|i: int|
                    0 <= i < vs.len() && vs[i].position == Some(sched@[st_pre.cursor]);
                lemma_pass_progress(vs, sched@, st_pre, i);
                lemma_pass_result_cursor(vs, sched@, st_pre);
            }
            render_one_pass(&visits, &sched, &mut st, out);
            st.should_print = false;
            proof {
                let r = pass_result(vs, sched@, st_pre);
                assert(cursor_state(st) == OrderState { cursor: r.1.cursor, printed: false });
                assert(old(out)@ + passes_text(
                    vs,
                    sched@,
                    OrderState { cursor: 0, printed: true },
                ) =~= out@ + passes_text(vs, sched@, cursor_state(st)));
            }
        }
        proof {
            assert(passes_text(vs, sched@, cursor_state(st)) =~= Seq::<char>::empty());
            assert(final(out)@ =~= old(out)@ + ordered_text(
                *self,
                path_view(old(path)@),
                is_array_of_tables,
            ));
        }
    }
}

impl Document {
    /// The full document text, keeping the table headers in their original
    /// source order.  The plain order of `to_string` is at least as fast;
    /// this walks the tree once per stretch of in-order positions, so a
    /// document whose tables were heavily reordered takes several passes.
    pub fn to_string_in_original_order(&self) -> (r: String)
        ensures
            r@ == original_order_text(*self),
    {
        let mut out = String::new();
        let mut path: Vec<String> = Vec::new();
        self.as_table().visit_nested_tables_in_original_order(&mut path, false, &mut out);
        out.append(self.trailing.as_str());
        proof {
            assert(path_view(Seq::<String>::empty()) =~= Seq::<Seq<char>>::empty());
            assert(out@ =~= original_order_text(*self));
        }
        out
    }
}

} // verus!
