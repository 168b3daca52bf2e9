//! Laws of the lists.
//!
//! Every operation is described by what the cycle shows before and after it,
//! and the laws here say that this pins the outcome down: what an operation
//! hands back and leaves behind is decided by the entries that the cycle
//! showed, so the two kinds of list, started on the same data and taken
//! through the same operations, show the same at every step.
//!
//! `clone` decides what a copy of a datum is. Where a law speaks of copies
//! being equal, it asks that copies be faithful.

use crate::cycle::{
    add_shows, copies_faithfully, cut_shows, ids_of, is_mex, lemma_mex, lemma_succ_mod, numbered, toured, Entry,
};
use crate::node_a::{HandleA, ListA};
use crate::node_b::{HandleB, ListB};
use vstd::arithmetic::div_mod::lemma_mod_self_0;
use vstd::prelude::*;

verus! {

/// A list built from a sequence of data shows as many entries as the sequence
/// has items, so `len` of it is the length of the sequence.
pub proof fn law_init_len<T>(data: Seq<T>, view: Seq<Entry<T>>)
    requires
        view == numbered(data),
    ensures
        view.len() == data.len(),
{
}

/// A tour of a list built from a sequence of data hands back a copy of each
/// item in its place, and so the sequence itself where copies are faithful.
pub proof fn law_init_tour<T: Clone>(data: Seq<T>, view: Seq<Entry<T>>, out: Seq<T>)
    requires
        view == numbered(data),
        toured(view, out),
    ensures
        out.len() == data.len(),
        forall|k: int| 0 <= k < data.len() ==> cloned(data[k], #[trigger] out[k]),
        copies_faithfully::<T>() ==> out == data,
{
    assert forall|k: int| 0 <= k < data.len() implies cloned(data[k], #[trigger] out[k]) by {
        assert(view[k].data == data[k]);
    }
    if copies_faithfully::<T>() {
        assert(out =~= data);
    }
}

/// Two tours of a list that has not changed between them hand back the same
/// sequence, where copies are faithful.
pub proof fn law_tour_repeats<T: Clone>(view: Seq<Entry<T>>, first: Seq<T>, second: Seq<T>)
    requires
        toured(view, first),
        toured(view, second),
        copies_faithfully::<T>(),
    ensures
        first == second,
{
    assert forall|k: int| 0 <= k < first.len() implies first[k] == second[k] by {
        assert(cloned(view[k].data, first[k]));
        assert(cloned(view[k].data, second[k]));
    }
    assert(first =~= second);
}

/// The identifier that `new_id` hands back is decided by the identifiers of the
/// cycle: only one number is the smallest that none of them is, and it is at
/// most their count.
pub proof fn law_new_id<T>(view: Seq<Entry<T>>, first: usize, second: usize)
    requires
        is_mex(ids_of(view), first),
        is_mex(ids_of(view), second),
    ensures
        first == second,
        first <= view.len(),
{
    lemma_mex(ids_of(view), first, second);
}

/// What a removal hands back and leaves behind is decided by what the cycle
/// showed; for the datum of the only node of a cycle, of which a copy is
/// handed back, where copies are faithful.
pub proof fn law_cut<T: Clone>(before: Seq<Entry<T>>, datum1: T, after1: Seq<Entry<T>>, datum2: T, after2: Seq<Entry<T>>)
    requires
        before.len() >= 1,
        cut_shows(before, datum1, after1),
        cut_shows(before, datum2, after2),
        before.len() >= 2 || copies_faithfully::<T>(),
    ensures
        datum1 == datum2,
        after1 == after2,
        after1.len() == if before.len() >= 2 { before.len() - 1 } else { 1 },
{
    if before.len() < 2 {
        assert(cloned(before[0].data, datum1));
        assert(cloned(before[0].data, datum2));
    }
}

/// What an insertion leaves behind is decided by what the cycle showed, the
/// datum and the identifier asked for.
pub proof fn law_add<T>(before: Seq<Entry<T>>, data: T, new_id: Option<usize>, after1: Seq<Entry<T>>, after2: Seq<Entry<T>>)
    requires
        add_shows(before, data, new_id, after1),
        add_shows(before, data, new_id, after2),
    ensures
        after1 == after2,
{
    if new_id is None {
        lemma_mex(ids_of(before), after1[0].id, after2[0].id);
    }
    assert(after1[0] == after2[0]);
    assert(after1 =~= after2);
}

/// The nodes of a list of the first kind form one cycle: following `next` as
/// often as the cycle has nodes comes back to the node, every node is before
/// the node after it and after the node before it, the only node of a cycle
/// is its own neighbour on both sides, and no identifier occurs twice.
pub proof fn law_cycle_a<T: Clone>(list: ListA<T>, x: HandleA)
    requires
        list.wf(),
        list.live(x),
    ensures
        list.cycle_from(x)[(list.cycle_from(x).len() as int) % (list.cycle_from(x).len() as int)] == x,
        list.prev_of(list.next_of(x)) == x,
        list.next_of(list.prev_of(x)) == x,
        list.cycle_from(x).len() == 1 ==> list.next_of(x) == x && list.prev_of(x) == x,
        ids_of(list.view_from(x)).no_duplicates(),
{
    list.lemma_cycle(x);
    list.lemma_links_agree(x);
    lemma_mod_self_0(list.cycle_from(x).len() as int);
}

/// The nodes of a list of the second kind form one cycle, in the same sense.
pub proof fn law_cycle_b<T: Clone>(list: ListB<T>, x: HandleB)
    requires
        list.wf(),
        list.live(x),
    ensures
        list.cycle_from(x)[(list.cycle_from(x).len() as int) % (list.cycle_from(x).len() as int)] == x,
        list.prev_of(list.next_of(x)) == x,
        list.next_of(list.prev_of(x)) == x,
        list.cycle_from(x).len() == 1 ==> list.next_of(x) == x && list.prev_of(x) == x,
        ids_of(list.view_from(x)).no_duplicates(),
{
    list.lemma_cycle(x);
    list.lemma_links_agree(x);
    lemma_mod_self_0(list.cycle_from(x).len() as int);
}

/// A list of each kind, built from the same data, show the same entries.
pub proof fn law_kinds_agree_on_init<T: Clone>(data: Seq<T>, a: ListA<T>, head_a: HandleA, b: ListB<T>, head_b: HandleB)
    requires
        a.view_from(head_a) == numbered(data),
        b.view_from(head_b) == numbered(data),
    ensures
        a.view_from(head_a) == b.view_from(head_b),
{
}

/// Where a list of each kind show the same entries from their nodes, `len`,
/// `new_id` and `tour` hand back the same of both (a tour where copies are
/// faithful), and the nodes that `step` reaches show the same entries again.
pub proof fn law_kinds_agree_on_reads<T: Clone>(
    a: ListA<T>,
    node_a: HandleA,
    b: ListB<T>,
    node_b: HandleB,
    step: usize,
    id_a: usize,
    id_b: usize,
    tour_a: Seq<T>,
    tour_b: Seq<T>,
)
    requires
        a.wf(),
        a.live(node_a),
        b.wf(),
        b.live(node_b),
        a.view_from(node_a) == b.view_from(node_b),
        is_mex(ids_of(a.view_from(node_a)), id_a),
        is_mex(ids_of(b.view_from(node_b)), id_b),
        toured(a.view_from(node_a), tour_a),
        toured(b.view_from(node_b), tour_b),
    ensures
        a.view_from(node_a).len() == b.view_from(node_b).len(),
        id_a == id_b,
        copies_faithfully::<T>() ==> tour_a == tour_b,
        a.view_from(a.cycle_from(node_a)[(step as int) % (a.cycle_from(node_a).len() as int)]) == b.view_from(
            b.cycle_from(node_b)[(step as int) % (b.cycle_from(node_b).len() as int)],
        ),
{
    let n = a.view_from(node_a).len() as int;
    a.lemma_cycle(node_a);
    b.lemma_cycle(node_b);
    assert(a.cycle_from(node_a).len() == n && b.cycle_from(node_b).len() == n);
    lemma_mex(ids_of(a.view_from(node_a)), id_a, id_b);
    if copies_faithfully::<T>() {
        law_tour_repeats(a.view_from(node_a), tour_a, tour_b);
    }
    let k = (step as int) % n;
    lemma_succ_mod(step as int, n);
    a.lemma_cycle_turn(node_a, k);
    b.lemma_cycle_turn(node_b, k);
}

/// Where a list of each kind show the same entries from their nodes, taking
/// those nodes out hands back the same datum and leaves lists that show the
/// same entries from the nodes that came next.
pub proof fn law_kinds_agree_on_cut<T: Clone>(
    a: ListA<T>,
    node_a: HandleA,
    a_then: ListA<T>,
    datum_a: T,
    after_a: HandleA,
    b: ListB<T>,
    node_b: HandleB,
    b_then: ListB<T>,
    datum_b: T,
    after_b: HandleB,
)
    requires
        a.wf(),
        a.live(node_a),
        a.view_from(node_a) == b.view_from(node_b),
        cut_shows(a.view_from(node_a), datum_a, a_then.view_from(after_a)),
        cut_shows(b.view_from(node_b), datum_b, b_then.view_from(after_b)),
        a.view_from(node_a).len() >= 2 || copies_faithfully::<T>(),
    ensures
        datum_a == datum_b,
        a_then.view_from(after_a) == b_then.view_from(after_b),
{
    a.lemma_cycle(node_a);
    law_cut(a.view_from(node_a), datum_a, a_then.view_from(after_a), datum_b, b_then.view_from(after_b));
}

/// Where a list of each kind show the same entries from their nodes, putting
/// the same datum behind those nodes, with the same identifier asked for,
/// leaves lists that show the same entries from the new nodes.
pub proof fn law_kinds_agree_on_add<T: Clone>(
    a: ListA<T>,
    prev_a: HandleA,
    a_then: ListA<T>,
    added_a: HandleA,
    b: ListB<T>,
    prev_b: HandleB,
    b_then: ListB<T>,
    added_b: HandleB,
    data: T,
    new_id: Option<usize>,
)
    requires
        a.view_from(prev_a) == b.view_from(prev_b),
        add_shows(a.view_from(prev_a), data, new_id, a_then.view_from(added_a)),
        add_shows(b.view_from(prev_b), data, new_id, b_then.view_from(added_b)),
    ensures
        a_then.view_from(added_a) == b_then.view_from(added_b),
{
    law_add(a.view_from(prev_a), data, new_id, a_then.view_from(added_a), b_then.view_from(added_b));
}

} // verus!
