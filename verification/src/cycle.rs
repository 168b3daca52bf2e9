//! The mathematics of a cycle of nodes.
//!
//! A list keeps its nodes in numbered slots, and every node names the slots of
//! its two neighbours. This module says, over plain sequences, when such a table
//! of links forms one cycle, what an observer sees when walking it from a given
//! node, and how a removal and an insertion change that sight.

use vstd::arithmetic::div_mod::{lemma_fundamental_div_mod, lemma_fundamental_div_mod_converse, lemma_mod_pos_bound};
use vstd::prelude::*;
use vstd::set_lib::{lemma_int_range, lemma_len_subset, set_int_range};

verus! {

/// What a node shows to an observer: its identifier and its datum.
pub struct Entry<T> {
    pub id: usize,
    pub data: T,
}

/// The links of the node in one occupied slot: the slots of its two neighbours
/// and its identifier.
pub struct Link {
    pub prev: usize,
    pub id: usize,
    pub next: usize,
}

/// The position after `k` on a cycle of `n` positions.
pub open spec fn succ(k: int, n: int) -> int {
    if k + 1 == n {
        0
    } else {
        k + 1
    }
}

/// The position before `k` on a cycle of `n` positions.
pub open spec fn pred(k: int, n: int) -> int {
    if k == 0 {
        n - 1
    } else {
        k - 1
    }
}

/// Counting one further moves to the next position of the cycle.
pub proof fn lemma_succ_mod(j: int, n: int)
    requires
        0 <= j,
        0 < n,
    ensures
        0 <= j % n < n,
        (j + 1) % n == succ(j % n, n),
{
    lemma_fundamental_div_mod(j, n);
    lemma_mod_pos_bound(j, n);
    let q = j / n;
    let r = j % n;
    if r + 1 == n {
        assert(j + 1 == (q + 1) * n + 0) by (nonlinear_arith)
            requires
                j == n * q + r,
                r + 1 == n,
        ;
        lemma_fundamental_div_mod_converse(j + 1, n, q + 1, 0);
    } else {
        assert(j + 1 == q * n + (r + 1)) by (nonlinear_arith)
            requires
                j == n * q + r,
        ;
        lemma_fundamental_div_mod_converse(j + 1, n, q, r + 1);
    }
}

/// The sequence `s` read cyclically from position `k`.
pub open spec fn rotated<A>(s: Seq<A>, k: int) -> Seq<A> {
    s.subrange(k, s.len() as int) + s.subrange(0, k)
}

/// The cycle `ring` read from the place where `slot` stands in it.
pub open spec fn ring_from(ring: Seq<usize>, slot: usize) -> Seq<usize> {
    rotated(ring, ring.index_of(slot))
}

/// The slot at position `k` of `ring` is occupied, and its node names the
/// slots at the positions after and before `k` as its neighbours.
pub open spec fn link_at(table: Seq<Option<Link>>, ring: Seq<usize>, k: int) -> bool {
    &&& ring[k] < table.len()
    &&& table[ring[k] as int] matches Some(link)
    &&& link.next == ring[succ(k, ring.len() as int)]
    &&& link.prev == ring[pred(k, ring.len() as int)]
}

/// `ring` lists the occupied slots of `table`, each once, in the order of their
/// `next` links, which close into one cycle; the `prev` links run the other
/// way round, and no identifier occurs twice.
pub open spec fn linked(table: Seq<Option<Link>>, ring: Seq<usize>) -> bool {
    &&& ring.len() >= 1
    &&& ring.no_duplicates()
    &&& forall|k: int| 0 <= k < ring.len() ==> #[trigger] link_at(table, ring, k)
    &&& forall|s: usize| s < table.len() && (#[trigger] table[s as int]) is Some ==> ring.contains(s)
    &&& forall|j: int, k: int|
        0 <= j < k < ring.len() ==> table[#[trigger] ring[j] as int]->0.id != table[#[trigger] ring[k] as int]->0.id
}

/// Reading a cycle from another of its slots gives the same cycle again.
pub proof fn lemma_ring_from(table: Seq<Option<Link>>, ring: Seq<usize>, slot: usize)
    requires
        linked(table, ring),
        ring.contains(slot),
    ensures
        linked(table, ring_from(ring, slot)),
        ring_from(ring, slot)[0] == slot,
        ring_from(ring, slot).len() == ring.len(),
        forall|s: usize| ring_from(ring, slot).contains(s) <==> ring.contains(s),
{
    let n = ring.len() as int;
    let p = ring.index_of(slot);
    let c = ring_from(ring, slot);
    assert(0 <= p < n && ring[p] == slot);
    assert(c.len() == n);
    assert forall|k: int| 0 <= k < n implies c[k] == ring[if p + k < n { p + k } else { p + k - n }] by {}
    assert forall|s: usize| c.contains(s) <==> ring.contains(s) by {
        if c.contains(s) {
            let k = c.index_of(s);
            assert(ring[if p + k < n { p + k } else { p + k - n }] == s);
        }
        if ring.contains(s) {
            let q = ring.index_of(s);
            let k = if q >= p { q - p } else { q - p + n };
            assert(c[k] == s);
        }
    }
    assert forall|k: int| 0 <= k < c.len() implies #[trigger] link_at(table, c, k) by {
        let q = if p + k < n { p + k } else { p + k - n };
        assert(link_at(table, ring, q));
        assert(c[k] == ring[q]);
        assert(c[succ(k, n)] == ring[succ(q, n)]);
        assert(c[pred(k, n)] == ring[pred(q, n)]);
    }
    assert forall|j: int, k: int| 0 <= j < k < c.len() implies table[#[trigger] c[j] as int]->0.id
        != table[#[trigger] c[k] as int]->0.id by {
        let qj = if p + j < n { p + j } else { p + j - n };
        let qk = if p + k < n { p + k } else { p + k - n };
        assert(c[j] == ring[qj] && c[k] == ring[qk]);
        assert(qj != qk);
    }
    assert forall|j: int, k: int| 0 <= j < c.len() && 0 <= k < c.len() && j != k implies c[j] != c[k] by {
        let qj = if p + j < n { p + j } else { p + j - n };
        let qk = if p + k < n { p + k } else { p + k - n };
        assert(c[j] == ring[qj] && c[k] == ring[qk]);
        assert(qj != qk);
    }
}

/// Reading a cycle from the slot at position `k` of one reading gives that
/// reading turned by `k`.
pub proof fn lemma_ring_from_turn(ring: Seq<usize>, slot: usize, k: int)
    requires
        ring.no_duplicates(),
        ring.contains(slot),
        0 <= k < ring.len(),
    ensures
        ring_from(ring, ring_from(ring, slot)[k]) == rotated(ring_from(ring, slot), k),
{
    let n = ring.len() as int;
    let p = ring.index_of(slot);
    let c = ring_from(ring, slot);
    let q = if p + k < n { p + k } else { p + k - n };
    assert(c[k] == ring[q]);
    assert(ring.index_of(ring[q]) == q);
    assert(rotated(ring, q) =~= rotated(c, k));
}

/// On a walk round the cycle from its first slot, the next node carries the
/// first node's identifier exactly when the walk has come round.
pub proof fn lemma_walk(table: Seq<Option<Link>>, c: Seq<usize>, k: int)
    requires
        linked(table, c),
        0 <= k < c.len(),
    ensures
        link_at(table, c, k),
        link_at(table, c, succ(k, c.len() as int)),
        table[c[succ(k, c.len() as int)] as int]->0.id == table[c[0] as int]->0.id <==> k + 1 == c.len(),
{
    assert(link_at(table, c, k));
    assert(link_at(table, c, succ(k, c.len() as int)));
    assert(link_at(table, c, 0));
}

/// The table after the node in the first slot of the cycle `c` has left it:
/// the slot is empty, and its two neighbours name each other.
pub open spec fn unlinked(table: Seq<Option<Link>>, c: Seq<usize>) -> Seq<Option<Link>> {
    let p = c[c.len() - 1];
    let q = c[1];
    let t1 = table.update(p as int, Some(Link { prev: table[p as int]->0.prev, id: table[p as int]->0.id, next: q }));
    let t2 = t1.update(q as int, Some(Link { prev: p, id: t1[q as int]->0.id, next: t1[q as int]->0.next }));
    t2.update(c[0] as int, None)
}

/// Taking the first node out of a cycle of two or more leaves the cycle of the
/// others, in their order.
pub proof fn lemma_unlinked(table: Seq<Option<Link>>, c: Seq<usize>)
    requires
        linked(table, c),
        c.len() >= 2,
    ensures
        linked(unlinked(table, c), c.drop_first()),
{
    let n = c.len() as int;
    let t = unlinked(table, c);
    let r = c.drop_first();
    assert(link_at(table, c, 0) && link_at(table, c, 1) && link_at(table, c, n - 1));
    assert forall|k: int| 0 <= k < r.len() implies #[trigger] link_at(t, r, k) by {
        assert(link_at(table, c, k + 1));
        assert(r[k] == c[k + 1]);
        assert(c[k + 1] != c[0]);
        if k + 1 < n - 1 {
            assert(c[k + 1] != c[n - 1]);
            assert(r[succ(k, n - 1)] == c[k + 2]);
        }
        if k > 0 {
            assert(c[k + 1] != c[1]);
            assert(r[pred(k, n - 1)] == c[k]);
        }
    }
    assert forall|s: usize| s < t.len() && (#[trigger] t[s as int]) is Some implies r.contains(s) by {
        assert(table[s as int] is Some);
        let k = c.index_of(s);
        assert(k != 0);
        assert(r[k - 1] == s);
    }
    assert forall|j: int, k: int| 0 <= j < k < r.len() implies t[#[trigger] r[j] as int]->0.id != t[#[trigger] r[k] as int]->0.id by {
        assert(r[j] == c[j + 1] && r[k] == c[k + 1]);
        assert(link_at(table, c, j + 1) && link_at(table, c, k + 1));
        assert(t[c[j + 1] as int]->0.id == table[c[j + 1] as int]->0.id);
        assert(t[c[k + 1] as int]->0.id == table[c[k + 1] as int]->0.id);
    }
    assert forall|j: int, k: int| 0 <= j < r.len() && 0 <= k < r.len() && j != k implies r[j] != r[k] by {
        assert(r[j] == c[j + 1] && r[k] == c[k + 1]);
    }
}

/// The table after a node with the identifier `id` has entered `slot`, between
/// the node in the first slot of the cycle `c` and that node's successor.
pub open spec fn spliced(table: Seq<Option<Link>>, c: Seq<usize>, slot: usize, id: usize) -> Seq<Option<Link>> {
    let p = c[0];
    let q = c[succ(0, c.len() as int)];
    let fresh = Some(Link { prev: p, id, next: q });
    let t0 = if slot == table.len() {
        table.push(fresh)
    } else {
        table.update(slot as int, fresh)
    };
    let t1 = t0.update(p as int, Some(Link { prev: t0[p as int]->0.prev, id: t0[p as int]->0.id, next: slot }));
    t1.update(q as int, Some(Link { prev: slot, id: t1[q as int]->0.id, next: t1[q as int]->0.next }))
}

/// Putting a node with an unused identifier into an empty or a new slot, behind
/// the first node of a cycle, gives the cycle with that slot in second place.
pub proof fn lemma_spliced(table: Seq<Option<Link>>, c: Seq<usize>, slot: usize, id: usize)
    requires
        linked(table, c),
        slot <= table.len(),
        slot < table.len() ==> table[slot as int] is None,
        forall|k: int| 0 <= k < c.len() ==> table[#[trigger] c[k] as int]->0.id != id,
    ensures
        linked(spliced(table, c, slot, id), c.insert(1, slot)),
{
    let n = c.len() as int;
    let t = spliced(table, c, slot, id);
    let r = c.insert(1, slot);
    assert(link_at(table, c, 0) && link_at(table, c, succ(0, n)));
    assert forall|k: int| 0 <= k < n implies c[k] != slot && c[k] < table.len() by {
        assert(link_at(table, c, k));
    }
    assert forall|k: int| 0 <= k < r.len() implies #[trigger] link_at(t, r, k) by {
        if k == 0 {
            assert(r[1] == slot);
            if n > 1 {
                assert(c[0] != c[1]);
                assert(r[pred(0, n + 1)] == c[pred(0, n)]);
            }
        } else if k == 1 {
            assert(r[0] == c[0]);
            assert(r[succ(1, n + 1)] == c[succ(0, n)]);
        } else {
            assert(link_at(table, c, k - 1));
            assert(r[k] == c[k - 1]);
            assert(c[k - 1] != c[0]);
            assert(r[succ(k, n + 1)] == c[succ(k - 1, n)]);
            if k == 2 {
                assert(r[pred(k, n + 1)] == slot);
            } else {
                assert(c[k - 1] != c[1]);
                assert(r[pred(k, n + 1)] == c[k - 2]);
            }
        }
    }
    assert forall|s: usize| s < t.len() && (#[trigger] t[s as int]) is Some implies r.contains(s) by {
        if s == slot {
            assert(r[1] == slot);
        } else {
            assert(table[s as int] is Some);
            let k = c.index_of(s);
            assert(r[if k == 0 { 0 } else { k + 1 }] == s);
        }
    }
    assert forall|j: int, k: int| 0 <= j < r.len() && 0 <= k < r.len() && j != k implies r[j] != r[k] by {
        let cj = if j == 0 { 0 } else { j - 1 };
        let ck = if k == 0 { 0 } else { k - 1 };
        assert(j != 1 ==> r[j] == c[cj]);
        assert(k != 1 ==> r[k] == c[ck]);
    }
    assert forall|j: int, k: int| 0 <= j < k < r.len() implies t[#[trigger] r[j] as int]->0.id != t[#[trigger] r[k] as int]->0.id by {
        let cj = if j == 0 { 0 } else { j - 1 };
        let ck = if k == 0 { 0 } else { k - 1 };
        assert(link_at(table, c, cj) && link_at(table, c, ck));
        assert(j != 1 ==> r[j] == c[cj] && t[r[j] as int]->0.id == table[c[cj] as int]->0.id);
        assert(k != 1 ==> r[k] == c[ck] && t[r[k] as int]->0.id == table[c[ck] as int]->0.id);
        assert(t[slot as int]->0.id == id);
    }
}

/// A cycle, read from one of its items, after that item has left it: the
/// others in their order, from the one that came next. The only item of its
/// cycle comes next itself and stays.
pub open spec fn after_cut<A>(c: Seq<A>) -> Seq<A> {
    if c.len() >= 2 {
        c.drop_first()
    } else {
        c
    }
}

/// A cycle, read from one of its items, after `x` has entered it behind that
/// item, read from `x`: `x`, then the others in their order, and last the
/// item that `x` stands behind.
pub open spec fn after_add<A>(c: Seq<A>, x: A) -> Seq<A> {
    seq![x] + c.drop_first() + seq![c[0]]
}

/// The entries of a list built from `data`: the data in their order, numbered
/// from 0.
pub open spec fn numbered<T>(data: Seq<T>) -> Seq<Entry<T>> {
    Seq::new(data.len(), |k: int| Entry { id: k as usize, data: data[k] })
}

/// The identifiers of the entries, in their order.
pub open spec fn ids_of<T>(view: Seq<Entry<T>>) -> Seq<usize> {
    view.map_values(|e: Entry<T>| e.id)
}

/// `out` is what a tour of the entries `view` hands back: a copy of each
/// datum, in the order of the entries.
pub open spec fn toured<T: Clone>(view: Seq<Entry<T>>, out: Seq<T>) -> bool {
    &&& out.len() == view.len()
    &&& forall|k: int| 0 <= k < view.len() ==> cloned(view[k].data, #[trigger] out[k])
}

/// Taking the first node out of a cycle that showed `before` hands back
/// `datum` and leaves a cycle that shows `after` from the node that came next.
/// The datum of a node that leaves is handed back itself; of the only node of
/// its cycle, which stays, a copy.
pub open spec fn cut_shows<T: Clone>(before: Seq<Entry<T>>, datum: T, after: Seq<Entry<T>>) -> bool {
    &&& after == after_cut(before)
    &&& if before.len() >= 2 {
        datum == before[0].data
    } else {
        cloned(before[0].data, datum)
    }
}

/// Putting a node with `data` behind the first node of a cycle that showed
/// `before` gives a cycle that shows `after` from the new node, which
/// carries `new_id` if that is given, and else the smallest number that no
/// identifier of `before` is.
pub open spec fn add_shows<T>(before: Seq<Entry<T>>, data: T, new_id: Option<usize>, after: Seq<Entry<T>>) -> bool {
    &&& after.len() == before.len() + 1
    &&& after == after_add(before, after[0])
    &&& after[0].data == data
    &&& match new_id {
        Some(id) => after[0].id == id,
        None => is_mex(ids_of(before), after[0].id),
    }
}

/// Every copy that `clone` makes of a `T` equals what it was made of.
pub open spec fn copies_faithfully<T: Clone>() -> bool {
    forall|a: T, b: T| #[trigger] cloned(a, b) ==> a == b
}

/// `m` is the smallest number that does not occur in `ids`.
pub open spec fn is_mex(ids: Seq<usize>, m: usize) -> bool {
    &&& !ids.contains(m)
    &&& forall|j: usize| j < m ==> #[trigger] ids.contains(j)
}

/// A sequence that holds every number below `m` has at least `m` items.
pub proof fn lemma_prefix_fills(ids: Seq<usize>, m: int)
    requires
        m <= usize::MAX + 1,
        forall|j: usize| j < m ==> #[trigger] ids.contains(j),
    ensures
        m <= ids.len(),
{
    if m > 0 {
        let wide = ids.map_values(|x: usize| x as int);
        let below = set_int_range(0, m);
        assert forall|j: int| below.contains(j) implies wide.to_set().contains(j) by {
            let x = j as usize;
            assert(ids.contains(x));
            let k = ids.index_of(x);
            assert(wide[k] == j);
        }
        lemma_int_range(0, m);
        wide.lemma_cardinality_of_set();
        lemma_len_subset(below, wide.to_set());
    }
}

/// At most one number is the smallest that does not occur, and it is no
/// larger than the number of items.
pub proof fn lemma_mex(ids: Seq<usize>, a: usize, b: usize)
    requires
        is_mex(ids, a),
    ensures
        a <= ids.len(),
        is_mex(ids, b) ==> a == b,
{
    lemma_prefix_fills(ids, a as int);
}

/// Whether `x` occurs in `ids`.
fn occurs(ids: &Vec<usize>, x: usize) -> (found: bool)
    ensures
        found == ids@.contains(x),
{
    let mut k: usize = 0;
    while k < ids.len()
        invariant
            k <= ids.len(),
            forall|j: int| 0 <= j < k ==> ids@[j] != x,
        decreases ids.len() - k,
    {
        if ids[k] == x {
            return true;
        }
        k += 1;
    }
    false
}

/// The smallest number that does not occur in `ids`.
pub fn smallest_absent(ids: &Vec<usize>) -> (m: usize)
    ensures
        is_mex(ids@, m),
{
    let mut x: usize = 0;
    while x < ids.len()
        invariant
            x <= ids.len(),
            forall|j: usize| j < x ==> #[trigger] ids@.contains(j),
        decreases ids.len() - x,
    {
        if !occurs(ids, x) {
            return x;
        }
        x += 1;
    }
    proof {
        if ids@.contains(x) {
            lemma_prefix_fills(ids@, x + 1);
        }
    }
    x
}

} // verus!
