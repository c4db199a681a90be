//! Properties of the renderer, stated and proved over the text model.

use crate::render::{array_items_from, array_text, value_text};
use crate::tree::{Array, Document, Table};
use crate::visit::{
    dfs_visits, document_plain_text, items_visits, lemma_table_value_count_bounds, positions_seq,
    table_body_from, table_plain_text, table_value_count_from, visit_table_text, visits_text,
    Visit,
};
use crate::order::{
    insert_sorted, lemma_pass_result_concat, original_order_text, ordered_text, pass_result,
    passes_text, sort_seq, step_emits, step_state, OrderState,
};
use vstd::prelude::*;

verus! {

/// Whether a position list is already in ascending order.
pub open spec fn positions_ascending(s: Seq<usize>) -> bool {
    forall|i: int, j: int| 0 <= i <= j < s.len() ==> s[i] <= s[j]
}

/// Inserting an element at least as large as every element appends it.
proof fn lemma_insert_sorted_ge(s: Seq<usize>, x: usize)
    requires
        forall|k: int| 0 <= k < s.len() ==> s[k] <= x,
    ensures
        insert_sorted(s, x) == s.push(x),
    decreases s.len(),
{
    if s.len() == 0 {
        assert(s.push(x) =~= seq![x]);
    } else {
        lemma_insert_sorted_ge(s.drop_first(), x);
        assert(s.push(x) =~= seq![s[0]] + s.drop_first().push(x));
    }
}

/// Sorting a list that is already ascending leaves it unchanged.
pub proof fn lemma_sort_seq_of_ascending(s: Seq<usize>)
    requires
        positions_ascending(s),
    ensures
        sort_seq(s) == s,
    decreases s.len(),
{
    if s.len() > 0 {
        lemma_sort_seq_of_ascending(s.drop_last());
        lemma_insert_sorted_ge(s.drop_last(), s.last());
        assert(s.drop_last().push(s.last()) =~= s);
    }
}

/// A pass whose pending schedule entries are exactly the positions still to
/// be visited, in order, and whose verdict is on, prints every visit and
/// matches the whole remaining schedule.
proof fn lemma_pass_prints_all(vs: Seq<Visit>, sched: Seq<usize>, st: OrderState)
    requires
        st.printed,
        0 <= st.cursor <= sched.len(),
        positions_seq(vs) == sched.subrange(st.cursor, sched.len() as int),
    ensures
        pass_result(vs, sched, st).0 == visits_text(vs),
        pass_result(vs, sched, st).1.cursor == sched.len(),
    decreases vs.len(),
{
    if vs.len() == 0 {
    } else {
        let st1 = step_state(st, sched, vs[0].position);
        match vs[0].position {
            Some(p) => {
                assert(positions_seq(vs) == seq![p] + positions_seq(vs.drop_first()));
                assert(positions_seq(vs).len() >= 1);
                assert(st.cursor < sched.len());
                assert(positions_seq(vs)[0] == p);
                assert(sched.subrange(st.cursor, sched.len() as int)[0] == sched[st.cursor]);
                assert(sched[st.cursor] == p);
                assert(st1 == OrderState { cursor: st.cursor + 1, printed: true });
                let tail = positions_seq(vs.drop_first());
                assert(tail.len() == sched.len() - st.cursor - 1);
                assert forall|k: int| 0 <= k < tail.len() implies tail[k] == sched[st.cursor + 1
                    + k] by {
                    assert(tail[k] == (seq![p] + tail)[k + 1]);
                    assert((seq![p] + tail)[k + 1] == sched.subrange(
                        st.cursor,
                        sched.len() as int,
                    )[k + 1]);
                }
                assert(tail =~= sched.subrange(st.cursor + 1, sched.len() as int));
                lemma_pass_prints_all(vs.drop_first(), sched, st1);
            },
            None => {
                assert(positions_seq(vs) == Seq::<usize>::empty() + positions_seq(
                    vs.drop_first(),
                ));
                assert(positions_seq(vs.drop_first()) =~= positions_seq(vs));
                lemma_pass_prints_all(vs.drop_first(), sched, st1);
            },
        }
    }
}

/// Round-trip identity, the part this module can see: a document whose
/// recorded positions already stand in ascending order along the plain
/// traversal — as they do in a document fresh from the parser, before any
/// mutation — renders in original order exactly as it renders in plain
/// order.  One pass matches every position, so reconstruction reproduces
/// the structural text, which for such a document is the source text.
pub proof fn lemma_unmutated_original_order_is_plain(d: Document)
    requires
        positions_ascending(positions_seq(dfs_visits(d.root, Seq::<Seq<char>>::empty(), false))),
        positions_seq(dfs_visits(d.root, Seq::<Seq<char>>::empty(), false)).len() > 0,
    ensures
        original_order_text(d) == document_plain_text(d),
{
    let vs = dfs_visits(d.root, Seq::<Seq<char>>::empty(), false);
    let s = positions_seq(vs);
    lemma_sort_seq_of_ascending(s);
    let init = OrderState { cursor: 0, printed: true };
    assert(s.subrange(0, s.len() as int) =~= s);
    lemma_pass_prints_all(vs, s, init);
    let r = pass_result(vs, s, init);
    assert(passes_text(vs, s, OrderState { cursor: r.1.cursor, printed: false })
        =~= Seq::<char>::empty());
    assert(passes_text(vs, s, init) =~= visits_text(vs));
    assert(original_order_text(d) =~= document_plain_text(d));
}

/// Plain-order structural validity: the plain traversal yields the table's
/// own block first — its header and body — and only then the visits below
/// its entries, in insertion order; so a parent's header always precedes
/// every descendant's header.
pub proof fn lemma_plain_order_parent_first(t: Table, path: Seq<Seq<char>>, is_array_of_tables: bool)
    ensures
        dfs_visits(t, path, is_array_of_tables).len() >= 1,
        dfs_visits(t, path, is_array_of_tables)[0] == (Visit {
            text: visit_table_text(t, path, is_array_of_tables),
            position: t.position,
        }),
        dfs_visits(t, path, is_array_of_tables) == seq![
            dfs_visits(t, path, is_array_of_tables)[0],
        ] + items_visits(t, 0, path),
{
    assert(dfs_visits(t, path, is_array_of_tables) =~= seq![
        Visit { text: visit_table_text(t, path, is_array_of_tables), position: t.position },
    ] + items_visits(t, 0, path));
}

/// Plain-order structural validity for arrays of tables: the members'
/// visit runs stand in the traversal in their stored sequence order.
pub proof fn lemma_array_of_tables_members_in_order(t: Table, i: int, j: int, path: Seq<Seq<char>>)
    requires
        0 <= i < t.items@.len(),
        t.items@[i].value is ArrayOfTables,
        0 <= j < crate::visit::aot_member_count(t, i),
    ensures
        crate::visit::aot_visits(t, i, j, path) == dfs_visits(
            (t.items@[i].value->ArrayOfTables_0).tables@[j],
            path.push(t.items@[i].key.raw_value@),
            true,
        ) + crate::visit::aot_visits(t, i, j + 1, path),
{
}

/// Idempotence: rendering reads the document and nothing else, so two
/// renders of the same unmutated document produce identical text, in both
/// rendering orders.
pub proof fn lemma_render_twice(
    d: Document,
    plain_first: Seq<char>,
    plain_second: Seq<char>,
    ordered_first: Seq<char>,
    ordered_second: Seq<char>,
)
    requires
        plain_first == document_plain_text(d),
        plain_second == document_plain_text(d),
        ordered_first == original_order_text(d),
        ordered_second == original_order_text(d),
    ensures
        plain_first == plain_second,
        ordered_first == ordered_second,
{
}

/// The summed text length of the elements from `i` on.
pub open spec fn value_texts_len_from(a: Array, i: int) -> int
    decreases a.values@.len() - i,
{
    if i < 0 || i >= a.values@.len() {
        0
    } else {
        value_text(a.values@[i]).len() + value_texts_len_from(a, i + 1)
    }
}

proof fn lemma_array_items_from_len(a: Array, i: int)
    requires
        0 <= i <= a.values@.len(),
    ensures
        i >= 1 ==> array_items_from(a, i).len() == value_texts_len_from(a, i) + a.values@.len()
            - i,
        i == 0 && a.values@.len() == 0 ==> array_items_from(a, i).len() == 0,
        i == 0 && a.values@.len() > 0 ==> array_items_from(a, i).len() == value_texts_len_from(
            a,
            i,
        ) + a.values@.len() - 1,
    decreases a.values@.len() - i,
{
    reveal_strlit(",");
    if i < a.values@.len() {
        lemma_array_items_from_len(a, i + 1);
    }
}

/// Separator counts: an array of n elements shows exactly n − 1 commas
/// between its elements — its element list is exactly one character longer
/// than the elements themselves for each gap — and its full text adds
/// exactly one more character when the trailing comma is recorded.
pub proof fn lemma_array_separator_count(a: Array)
    ensures
        a.values@.len() == 0 ==> array_items_from(a, 0).len() == 0,
        a.values@.len() > 0 ==> array_items_from(a, 0).len() == value_texts_len_from(a, 0)
            + a.values@.len() - 1,
        array_text(a).len() == a.decor.prefix@.len() + 1 + array_items_from(a, 0).len() + (
        if a.trailing_comma {
            1int
        } else {
            0int
        }) + a.trailing@.len() + 1 + a.decor.suffix@.len(),
{
    reveal_strlit(",");
    reveal_strlit("[");
    reveal_strlit("]");
    lemma_array_items_from_len(a, 0);
}

proof fn lemma_table_body_empty(t: Table, i: int)
    requires
        0 <= i <= t.items@.len(),
        table_value_count_from(t, i) == 0,
    ensures
        table_body_from(t, i) == Seq::<char>::empty(),
    decreases t.items@.len() - i,
{
    if i < t.items@.len() {
        lemma_table_value_count_bounds(t, i + 1);
        lemma_table_body_empty(t, i + 1);
    }
}

/// Implicit suppression: a table that is implicit and holds no direct value
/// entry contributes no text at all — no header line and an empty body.
/// Both rendering orders print tables through `visit_table_text`, so the
/// suppression holds in either mode.
pub proof fn lemma_implicit_table_suppressed(t: Table, path: Seq<Seq<char>>)
    requires
        t.implicit,
        table_value_count_from(t, 0) == 0,
    ensures
        visit_table_text(t, path, false) == Seq::<char>::empty(),
{
    lemma_table_body_empty(t, 0);
}

/// The pass state once the visits before index `i` are stepped through.
pub open spec fn pass_state_before(vs: Seq<Visit>, sched: Seq<usize>, st: OrderState, i: int) -> OrderState {
    pass_result(vs.subrange(0, i), sched, st).1
}

/// Whether the pass that starts in state `st` prints visit `i`.
pub open spec fn pass_emits_at(vs: Seq<Visit>, sched: Seq<usize>, st: OrderState, i: int) -> bool {
    step_emits(pass_state_before(vs, sched, st, i), sched, vs[i].position)
}

proof fn lemma_pass_state_step(vs: Seq<Visit>, sched: Seq<usize>, st: OrderState, i: int)
    requires
        0 < i <= vs.len(),
    ensures
        pass_state_before(vs, sched, st, i) == step_state(
            pass_state_before(vs, sched, st, i - 1),
            sched,
            vs[i - 1].position,
        ),
{
    assert(vs.subrange(0, i) =~= vs.subrange(0, i - 1) + seq![vs[i - 1]]);
    lemma_pass_result_concat(vs.subrange(0, i - 1), seq![vs[i - 1]], sched, st);
    crate::order::lemma_pass_result_singleton(
        vs[i - 1],
        sched,
        pass_result(vs.subrange(0, i - 1), sched, st).1,
    );
}

/// Reconstruction stability: a table without a recorded position is printed
/// in a pass exactly when the table visited immediately before it was
/// printed in that pass.  A freshly inserted table therefore travels with
/// whichever positioned table precedes it in the traversal, whatever the
/// schedule: its block appears right after that table's block and nowhere
/// else.
pub proof fn lemma_positionless_follows(vs: Seq<Visit>, sched: Seq<usize>, st: OrderState, i: int)
    requires
        0 < i < vs.len(),
        vs[i].position is None,
    ensures
        pass_emits_at(vs, sched, st, i) == pass_emits_at(vs, sched, st, i - 1),
{
    lemma_pass_state_step(vs, sched, st, i);
}

/// Reconstruction stability, spelt out on the pass text: when a
/// position-less visit's predecessor is printed, the pass prints the two
/// blocks adjacently, in traversal order.
pub proof fn lemma_positionless_block_adjacent(vs: Seq<Visit>, sched: Seq<usize>, st: OrderState, i: int)
    requires
        0 < i < vs.len(),
        vs[i].position is None,
        pass_emits_at(vs, sched, st, i - 1),
    ensures
        pass_result(vs, sched, st).0 == pass_result(vs.subrange(0, i - 1), sched, st).0 + vs[i
            - 1].text + vs[i].text + pass_result(
            vs.skip(i + 1),
            sched,
            pass_state_before(vs, sched, st, i + 1),
        ).0,
{
    lemma_positionless_follows(vs, sched, st, i);
    lemma_pass_state_step(vs, sched, st, i);
    lemma_pass_state_step(vs, sched, st, i + 1);
    let a = vs.subrange(0, i - 1);
    let b = seq![vs[i - 1]];
    let c = seq![vs[i]];
    let e = vs.skip(i + 1);
    assert(vs =~= a + b + c + e);
    assert(a + b =~= vs.subrange(0, i));
    assert(a + b + c =~= vs.subrange(0, i + 1));
    lemma_pass_result_concat(a + b + c, e, sched, st);
    lemma_pass_result_concat(a + b, c, sched, st);
    lemma_pass_result_concat(a, b, sched, st);
    let s_prev = pass_state_before(vs, sched, st, i - 1);
    let s_i = pass_state_before(vs, sched, st, i);
    assert(pass_result(a, sched, st).1 == s_prev);
    crate::order::lemma_pass_result_singleton(vs[i - 1], sched, s_prev);
    assert(pass_result(b, sched, s_prev).0 == vs[i - 1].text);
    assert(pass_result(a + b, sched, st).1 == s_i);
    crate::order::lemma_pass_result_singleton(vs[i], sched, s_i);
    assert(pass_result(c, sched, s_i).0 == vs[i].text);
    assert(pass_result(vs, sched, st).0 =~= pass_result(a, sched, st).0 + vs[i - 1].text + vs[
        i].text + pass_result(e, sched, pass_state_before(vs, sched, st, i + 1)).0);
}

/// The plain text of a table is its own block followed by its entries'
/// subtable blocks: the corollary of parent-first on the rendered text.
pub proof fn lemma_plain_text_decomposition(t: Table)
    ensures
        table_plain_text(t) == visit_table_text(t, Seq::<Seq<char>>::empty(), false)
            + visits_text(items_visits(t, 0, Seq::<Seq<char>>::empty())),
{
    let path = Seq::<Seq<char>>::empty();
    let own = seq![Visit { text: visit_table_text(t, path, false), position: t.position }];
    crate::visit::lemma_visits_text_concat(own, items_visits(t, 0, path));
    assert(own.drop_first() =~= Seq::<Visit>::empty());
    assert(visits_text(Seq::<Visit>::empty()) == Seq::<char>::empty());
    assert(visits_text(own) =~= visit_table_text(t, path, false) + Seq::<char>::empty());
    assert(visits_text(own) =~= visit_table_text(t, path, false));
}

} // verus!
