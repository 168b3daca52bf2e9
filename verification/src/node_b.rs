//! The list with stamped handles and an explicit teardown.
//!
//! A `ListB` owns all the nodes of one cycle. Every slot carries a stamp that
//! grows each time a node is released from it, and a `HandleB` holds the slot
//! of its node together with the stamp the slot had when the node entered. A
//! handle whose node has been released therefore names no node any more, even
//! after the slot has been given to another node. `clean` releases every node
//! of the cycle.

use crate::cycle::{
    add_shows, after_add, after_cut, cut_shows, ids_of, is_mex, lemma_ring_from, lemma_ring_from_turn,
    lemma_spliced, lemma_succ_mod, lemma_unlinked, lemma_walk, link_at, linked, numbered, pred, ring_from, rotated,
    smallest_absent, spliced, succ, toured, unlinked, Entry, Link,
};
use vstd::prelude::*;
use vstd::set_lib::{lemma_int_range, lemma_len_subset, set_int_range};

verus! {

/// Names one node of a `ListB`, as long as that node has not been released.
#[derive(Clone, Copy, Debug, PartialEq, Eq, Structural)]
pub struct HandleB {
    slot: usize,
    stamp: u64,
}

/// A node of the cycle: its datum, its identifier and its two neighbours.
pub struct NodeB<T: Clone> {
    pub data: T,
    pub prev: HandleB,
    pub i: usize,
    pub next: HandleB,
}

/// One slot: the node in it, if any, and the stamp of its present use.
struct SlotB<T: Clone> {
    stamp: u64,
    node: Option<NodeB<T>>,
}

/// The nodes of one cycle.
pub struct ListB<T: Clone> {
    slots: Vec<SlotB<T>>,
    spare: Vec<usize>,
    ring: Ghost<Seq<usize>>,
}

impl<T: Clone> ListB<T> {
    /// The links of all slots.
    spec fn table(&self) -> Seq<Option<Link>> {
        Seq::new(
            self.slots@.len(),
            |s: int|
                match self.slots@[s].node {
                    Some(node) => Some(Link { prev: node.prev.slot, id: node.i, next: node.next.slot }),
                    None => None,
                },
        )
    }

    /// The handle of the node that `slot` holds now.
    spec fn handle(&self, slot: usize) -> HandleB {
        HandleB { slot, stamp: self.slots@[slot as int].stamp }
    }

    /// The spare slots are distinct, and each is an empty slot of the list.
    spec fn spare_ok(&self) -> bool {
        &&& self.spare@.no_duplicates()
        &&& forall|f: int|
            0 <= f < self.spare@.len() ==> (#[trigger] self.spare@[f]) < self.slots@.len()
                && self.slots@[self.spare@[f] as int].node is None
    }

    /// Every node names its neighbours by the handles they have now.
    spec fn stamps_ok(&self) -> bool {
        forall|s: int|
            0 <= s < self.slots@.len() && (#[trigger] self.slots@[s]).node is Some ==> {
                let node = self.slots@[s].node->0;
                &&& node.next.slot < self.slots@.len()
                &&& node.prev.slot < self.slots@.len()
                &&& node.next == self.handle(node.next.slot)
                &&& node.prev == self.handle(node.prev.slot)
            }
    }

    /// The nodes form one cycle of at least one node, `next` and `prev` run
    /// opposite ways round it, no identifier occurs twice, every link is the
    /// present handle of the neighbour, and the spare slots are empty.
    pub closed spec fn wf(&self) -> bool {
        &&& linked(self.table(), self.ring@)
        &&& self.stamps_ok()
        &&& self.spare_ok()
    }

    /// `at` names a node of this list: its slot holds a node, under the stamp
    /// that `at` carries.
    pub closed spec fn live(&self, at: HandleB) -> bool {
        &&& at.slot < self.slots@.len()
        &&& self.slots@[at.slot as int].node is Some
        &&& self.slots@[at.slot as int].stamp == at.stamp
    }

    /// The node that `at` named has been released: the slot has a later stamp
    /// by now, or has been given up for good.
    pub closed spec fn spent(&self, at: HandleB) -> bool {
        &&& at.slot < self.slots@.len()
        &&& at.stamp <= self.slots@[at.slot as int].stamp
        &&& at.stamp == self.slots@[at.slot as int].stamp ==> self.slots@[at.slot as int].node is None
            && !self.spare@.contains(at.slot)
    }

    /// The identifier and the datum of the node `at`.
    pub closed spec fn entry(&self, at: HandleB) -> Entry<T> {
        Entry { id: self.slots@[at.slot as int].node->0.i, data: self.slots@[at.slot as int].node->0.data }
    }

    /// The node after `at`.
    pub closed spec fn next_of(&self, at: HandleB) -> HandleB {
        self.slots@[at.slot as int].node->0.next
    }

    /// The node before `at`.
    pub closed spec fn prev_of(&self, at: HandleB) -> HandleB {
        self.slots@[at.slot as int].node->0.prev
    }

    /// The nodes of the cycle in the order of their `next` links, from `at`.
    pub closed spec fn cycle_from(&self, at: HandleB) -> Seq<HandleB> {
        ring_from(self.ring@, at.slot).map_values(|s: usize| self.handle(s))
    }

    /// What a walk round the cycle from `at` shows: the identifier and the
    /// datum of each node.
    pub open spec fn view_from(&self, at: HandleB) -> Seq<Entry<T>> {
        self.cycle_from(at).map_values(|h: HandleB| self.entry(h))
    }

    /// The slots of the cycle read from `at` form the cycle as well.
    proof fn lemma_at(&self, at: HandleB)
        requires
            self.wf(),
            self.live(at),
        ensures
            linked(self.table(), ring_from(self.ring@, at.slot)),
            ring_from(self.ring@, at.slot)[0] == at.slot,
            ring_from(self.ring@, at.slot).len() == self.ring@.len(),
            self.ring@.contains(at.slot),
            forall|s: usize| ring_from(self.ring@, at.slot).contains(s) <==> self.ring@.contains(s),
    {
        assert(self.table()[at.slot as int] is Some);
        lemma_ring_from(self.table(), self.ring@, at.slot);
    }

    /// Seen from any of its nodes, the cycle of a well-formed list starts with
    /// that node, holds each node of the list once, and carries each
    /// identifier once.
    pub proof fn lemma_cycle(&self, at: HandleB)
        requires
            self.wf(),
            self.live(at),
        ensures
            self.cycle_from(at).len() >= 1,
            self.cycle_from(at)[0] == at,
            self.cycle_from(at).no_duplicates(),
            forall|h: HandleB| self.live(h) <==> self.cycle_from(at).contains(h),
            ids_of(self.view_from(at)).no_duplicates(),
    {
        self.lemma_at(at);
        let c = ring_from(self.ring@, at.slot);
        let cycle = self.cycle_from(at);
        assert forall|h: HandleB| self.live(h) <==> cycle.contains(h) by {
            if self.live(h) {
                assert(self.table()[h.slot as int] is Some);
                assert(c.contains(h.slot));
                assert(cycle[c.index_of(h.slot)] == h);
            }
            if cycle.contains(h) {
                let k = cycle.index_of(h);
                assert(link_at(self.table(), c, k));
            }
        }
        assert forall|j: int, k: int| 0 <= j < cycle.len() && 0 <= k < cycle.len() && j != k implies cycle[j]
            != cycle[k] by {
            assert(c[j] != c[k]);
        }
        let ids = ids_of(self.view_from(at));
        assert forall|j: int, k: int| 0 <= j < ids.len() && 0 <= k < ids.len() && j != k implies ids[j] != ids[k] by {
            assert(link_at(self.table(), c, j) && link_at(self.table(), c, k));
            if j < k {
                assert(self.table()[c[j] as int]->0.id != self.table()[c[k] as int]->0.id);
            } else {
                assert(self.table()[c[k] as int]->0.id != self.table()[c[j] as int]->0.id);
            }
        }
    }

    /// The cycle seen from its node at position `k` is the cycle turned by `k`.
    pub proof fn lemma_cycle_turn(&self, at: HandleB, k: int)
        requires
            self.wf(),
            self.live(at),
            0 <= k < self.cycle_from(at).len(),
        ensures
            self.cycle_from(self.cycle_from(at)[k]) == rotated(self.cycle_from(at), k),
            self.view_from(self.cycle_from(at)[k]) == rotated(self.view_from(at), k),
    {
        self.lemma_at(at);
        lemma_ring_from_turn(self.ring@, at.slot, k);
        assert(self.cycle_from(self.cycle_from(at)[k]) =~= rotated(self.cycle_from(at), k));
        assert(self.view_from(self.cycle_from(at)[k]) =~= rotated(self.view_from(at), k));
    }

    /// In a well-formed list the two links of every node answer each other:
    /// the node after `x` has `x` before it, and the node before `x` has `x`
    /// after it.
    pub proof fn lemma_links_agree(&self, x: HandleB)
        requires
            self.wf(),
            self.live(x),
        ensures
            self.live(self.next_of(x)),
            self.live(self.prev_of(x)),
            self.prev_of(self.next_of(x)) == x,
            self.next_of(self.prev_of(x)) == x,
            self.cycle_from(x)[succ(0, self.cycle_from(x).len() as int)] == self.next_of(x),
            self.cycle_from(x)[pred(0, self.cycle_from(x).len() as int)] == self.prev_of(x),
    {
        self.lemma_at(x);
        let c = ring_from(self.ring@, x.slot);
        let n = c.len() as int;
        assert(link_at(self.table(), c, 0));
        assert(link_at(self.table(), c, succ(0, n)));
        assert(link_at(self.table(), c, pred(0, n)));
        assert(self.slots@[c[0] as int].node is Some);
        assert(self.slots@[c[succ(0, n)] as int].node is Some);
        assert(self.slots@[c[pred(0, n)] as int].node is Some);
    }

    /// A handle whose node has been released names no node.
    pub proof fn lemma_spent(&self, at: HandleB)
        requires
            self.spent(at),
        ensures
            !self.live(at),
    {
    }

    /// The cycle has no more nodes than the list has slots.
    proof fn lemma_fits(&self)
        requires
            self.wf(),
        ensures
            self.ring@.len() <= self.slots@.len() <= usize::MAX,
    {
        assert(self.slots@.len() == self.slots.len());
        let ring = self.ring@;
        let wide = ring.map_values(|s: usize| s as int);
        let below = set_int_range(0, self.slots@.len() as int);
        assert forall|j: int, k: int| 0 <= j < wide.len() && 0 <= k < wide.len() && j != k implies wide[j] != wide[k] by {
            assert(ring[j] != ring[k]);
        }
        assert forall|x: int| wide.to_set().contains(x) implies below.contains(x) by {
            let k = wide.index_of(x);
            assert(link_at(self.table(), ring, k));
        }
        wide.unique_seq_to_set();
        lemma_int_range(0, self.slots@.len() as int);
        lemma_len_subset(wide.to_set(), below);
    }

    /// The node in `slot`.
    fn node(&self, slot: usize) -> (node: &NodeB<T>)
        requires
            slot < self.slots@.len(),
            self.slots@[slot as int].node is Some,
        ensures
            *node == self.slots@[slot as int].node->0,
    {
        self.slots[slot].node.as_ref().unwrap()
    }

    /// Makes the node in `slot` name `to` as the node after it.
    fn set_next(&mut self, slot: usize, to: HandleB)
        requires
            slot < old(self).slots@.len(),
            old(self).slots@[slot as int].node is Some,
        ensures
            final(self).slots@ == old(self).slots@.update(
                slot as int,
                SlotB {
                    stamp: old(self).slots@[slot as int].stamp,
                    node: Some(
                        NodeB {
                            data: old(self).slots@[slot as int].node->0.data,
                            prev: old(self).slots@[slot as int].node->0.prev,
                            i: old(self).slots@[slot as int].node->0.i,
                            next: to,
                        },
                    ),
                },
            ),
            final(self).spare == old(self).spare,
            final(self).ring == old(self).ring,
            forall|h: HandleB| old(self).spent(h) ==> final(self).spent(h),
    {
        match &mut self.slots[slot].node {
            Some(node) => {
                node.next = to;
            },
            None => {},
        }
    }

    /// Makes the node in `slot` name `to` as the node before it.
    fn set_prev(&mut self, slot: usize, to: HandleB)
        requires
            slot < old(self).slots@.len(),
            old(self).slots@[slot as int].node is Some,
        ensures
            final(self).slots@ == old(self).slots@.update(
                slot as int,
                SlotB {
                    stamp: old(self).slots@[slot as int].stamp,
                    node: Some(
                        NodeB {
                            data: old(self).slots@[slot as int].node->0.data,
                            prev: to,
                            i: old(self).slots@[slot as int].node->0.i,
                            next: old(self).slots@[slot as int].node->0.next,
                        },
                    ),
                },
            ),
            final(self).spare == old(self).spare,
            final(self).ring == old(self).ring,
            forall|h: HandleB| old(self).spent(h) ==> final(self).spent(h),
    {
        match &mut self.slots[slot].node {
            Some(node) => {
                node.prev = to;
            },
            None => {},
        }
    }

    /// Puts a node into a spare slot, or into a new one where none is spare,
    /// and hands back the handle it has there.
    fn place(&mut self, data: T, prev: HandleB, i: usize, next: HandleB) -> (at: HandleB)
        requires
            old(self).spare_ok(),
        ensures
            final(self).spare_ok(),
            final(self).ring == old(self).ring,
            at.slot <= old(self).slots@.len(),
            at.slot < old(self).slots@.len() ==> old(self).slots@[at.slot as int].node is None
                && old(self).slots@[at.slot as int].stamp == at.stamp,
            final(self).slots@ == if at.slot == old(self).slots@.len() {
                old(self).slots@.push(SlotB { stamp: at.stamp, node: Some(NodeB { data, prev, i, next }) })
            } else {
                old(self).slots@.update(
                    at.slot as int,
                    SlotB { stamp: at.stamp, node: Some(NodeB { data, prev, i, next }) },
                )
            },
            forall|h: HandleB| old(self).spent(h) ==> final(self).spent(h),
    {
        let node = NodeB { data, prev, i, next };
        match self.spare.pop() {
            Some(slot) => {
                assert(old(self).spare@[old(self).spare@.len() - 1] == slot);
                let stamp = self.slots[slot].stamp;
                self.slots[slot].node = Some(node);
                assert forall|h: HandleB| old(self).spent(h) implies self.spent(h) by {
                    if self.spare@.contains(h.slot) {
                        let f = self.spare@.index_of(h.slot);
                        assert(old(self).spare@[f] == h.slot);
                    }
                }
                assert forall|f: int| 0 <= f < self.spare@.len() implies (#[trigger] self.spare@[f]) < self.slots@.len()
                    && self.slots@[self.spare@[f] as int].node is None by {
                    assert(old(self).spare@[f] == self.spare@[f]);
                    assert(old(self).spare@[f] != old(self).spare@[old(self).spare@.len() - 1]);
                }
                HandleB { slot, stamp }
            },
            None => {
                self.slots.push(SlotB { stamp: 0, node: Some(node) });
                HandleB { slot: self.slots.len() - 1, stamp: 0 }
            },
        }
    }

    /// Releases the node in `slot` and hands it back. The slot's stamp grows,
    /// and the slot becomes spare; a slot whose stamp cannot grow is not
    /// used again.
    fn release(&mut self, slot: usize) -> (node: NodeB<T>)
        requires
            old(self).spare_ok(),
            slot < old(self).slots@.len(),
            old(self).slots@[slot as int].node is Some,
        ensures
            final(self).spare_ok(),
            final(self).ring == old(self).ring,
            node == old(self).slots@[slot as int].node->0,
            final(self).slots@.len() == old(self).slots@.len(),
            final(self).slots@[slot as int].node is None,
            forall|s: int| 0 <= s < old(self).slots@.len() && s != slot ==> final(self).slots@[s] == old(self).slots@[s],
            final(self).spent(old(self).handle(slot)),
            forall|h: HandleB| old(self).spent(h) ==> final(self).spent(h),
    {
        let gone = self.slots[slot].node.take();
        if self.slots[slot].stamp < u64::MAX {
            self.slots[slot].stamp = self.slots[slot].stamp + 1;
            self.spare.push(slot);
            assert forall|h: HandleB| old(self).spent(h) implies self.spent(h) by {
                if self.spare@.contains(h.slot) && h.slot != slot {
                    let f = self.spare@.index_of(h.slot);
                    assert(old(self).spare@[f] == h.slot);
                }
            }
        } else {
            assert(!old(self).spare@.contains(slot)) by {
                if old(self).spare@.contains(slot) {
                    let f = old(self).spare@.index_of(slot);
                    assert(old(self).slots@[old(self).spare@[f] as int].node is None);
                }
            }
        }
        gone.unwrap()
    }

    /// The slots of `before` after a node with `data` and `i` has been put
    /// into the slot of `added`, behind `prev`, and its two neighbours have
    /// been made to name it.
    spec fn slots_added(before: Self, prev: HandleB, added: HandleB, data: T, i: usize) -> Seq<SlotB<T>> {
        let next = before.slots@[prev.slot as int].node->0.next;
        let fresh = SlotB { stamp: added.stamp, node: Some(NodeB { data, prev, i, next }) };
        let s0 = if added.slot == before.slots@.len() {
            before.slots@.push(fresh)
        } else {
            before.slots@.update(added.slot as int, fresh)
        };
        let s1 = s0.update(
            prev.slot as int,
            SlotB {
                stamp: s0[prev.slot as int].stamp,
                node: Some(
                    NodeB {
                        data: s0[prev.slot as int].node->0.data,
                        prev: s0[prev.slot as int].node->0.prev,
                        i: s0[prev.slot as int].node->0.i,
                        next: added,
                    },
                ),
            },
        );
        s1.update(
            next.slot as int,
            SlotB {
                stamp: s1[next.slot as int].stamp,
                node: Some(
                    NodeB {
                        data: s1[next.slot as int].node->0.data,
                        prev: added,
                        i: s1[next.slot as int].node->0.i,
                        next: s1[next.slot as int].node->0.next,
                    },
                ),
            },
        )
    }

    /// What holds of a list after a node has entered it behind `prev`.
    proof fn lemma_added(before: Self, after: Self, prev: HandleB, added: HandleB, data: T, i: usize)
        requires
            before.wf(),
            before.live(prev),
            !ids_of(before.view_from(prev)).contains(i),
            added.slot <= before.slots@.len(),
            added.slot < before.slots@.len() ==> before.slots@[added.slot as int].node is None
                && before.slots@[added.slot as int].stamp == added.stamp,
            after.slots@ == Self::slots_added(before, prev, added, data, i),
            after.ring@ == ring_from(before.ring@, prev.slot).insert(1, added.slot),
            after.spare_ok(),
        ensures
            after.wf(),
            !before.live(added),
            after.live(added),
            after.cycle_from(prev) == before.cycle_from(prev).insert(1, added),
            after.cycle_from(added) == after_add(before.cycle_from(prev), added),
            after.view_from(added) == after_add(before.view_from(prev), after.entry(added)),
            after.entry(added) == (Entry { id: i, data }),
            forall|h: HandleB| before.live(h) ==> after.live(h) && after.entry(h) == before.entry(h),
    {
        let c = ring_from(before.ring@, prev.slot);
        let slot = added.slot;
        let r = c.insert(1, slot);
        before.lemma_at(prev);
        lemma_walk(before.table(), c, 0);
        assert forall|k: int| 0 <= k < c.len() implies before.table()[#[trigger] c[k] as int]->0.id != i by {
            assert(link_at(before.table(), c, k));
            assert(ids_of(before.view_from(prev))[k] == before.table()[c[k] as int]->0.id);
        }
        assert(after.table() =~= spliced(before.table(), c, slot, i));
        lemma_spliced(before.table(), c, slot, i);
        assert(r.index_of(prev.slot) == 0 && r.index_of(slot) == 1) by {
            assert(r[0] == prev.slot && r[1] == slot);
        }
        assert(ring_from(r, prev.slot) =~= r);
        assert forall|k: int| 0 <= k < c.len() implies after.handle(#[trigger] c[k]) == before.handle(c[k])
            && after.entry(before.handle(c[k])) == before.entry(before.handle(c[k])) by {
            assert(link_at(before.table(), c, k));
        }
        assert(after.cycle_from(prev) =~= before.cycle_from(prev).insert(1, added));
        assert(after.cycle_from(added) =~= after_add(before.cycle_from(prev), added));
        assert(after.view_from(added) =~= after_add(before.view_from(prev), after.entry(added)));
        assert(after.stamps_ok()) by {
            assert(before.slots@[prev.slot as int].node is Some);
            assert forall|t: int| 0 <= t < after.slots@.len() && (#[trigger] after.slots@[t]).node is Some implies {
                let node = after.slots@[t].node->0;
                &&& node.next.slot < after.slots@.len()
                &&& node.prev.slot < after.slots@.len()
                &&& node.next == after.handle(node.next.slot)
                &&& node.prev == after.handle(node.prev.slot)
            } by {
                if t != slot {
                    assert(before.slots@[t].node is Some);
                }
            }
        }
    }

    /// The node that `at` names, if it names one.
    pub fn get(&self, at: &HandleB) -> (found: Option<&NodeB<T>>)
        ensures
            found is Some <==> self.live(*at),
            found matches Some(node) ==> {
                &&& node.i == self.entry(*at).id
                &&& node.data == self.entry(*at).data
                &&& node.next == self.next_of(*at)
                &&& node.prev == self.prev_of(*at)
            },
    {
        if at.slot < self.slots.len() && self.slots[at.slot].stamp == at.stamp {
            self.slots[at.slot].node.as_ref()
        } else {
            None
        }
    }
}

impl<T: Clone> NodeB<T> {
    /// Builds the list of `data_list`: one node for each datum, in that order,
    /// numbered from 0. There is no list of nothing.
    pub fn init(data_list: Vec<T>) -> (made: Option<(ListB<T>, HandleB)>)
        ensures
            made is None <==> data_list@.len() == 0,
            made matches Some((list, head)) ==> {
                &&& list.wf()
                &&& list.live(head)
                &&& list.view_from(head) == numbered(data_list@)
            },
    {
        let n = data_list.len();
        if n == 0 {
            return None;
        }
        let ghost data = data_list@;
        let mut slots: Vec<SlotB<T>> = Vec::new();
        for datum in it: data_list
            invariant
                n == data.len(),
                it.seq() == data,
                slots@.len() == it.index(),
                forall|k: int|
                    0 <= k < slots@.len() ==> (#[trigger] slots@[k]) == (SlotB {
                        stamp: 0,
                        node: Some(
                            NodeB {
                                data: data[k],
                                prev: HandleB { slot: pred(k, n as int) as usize, stamp: 0 },
                                i: k as usize,
                                next: HandleB { slot: succ(k, n as int) as usize, stamp: 0 },
                            },
                        ),
                    }),
        {
            let k = slots.len();
            let before = if k == 0 { n - 1 } else { k - 1 };
            let after = if k + 1 == n { 0 } else { k + 1 };
            slots.push(
                SlotB {
                    stamp: 0,
                    node: Some(
                        NodeB {
                            data: datum,
                            prev: HandleB { slot: before, stamp: 0 },
                            i: k,
                            next: HandleB { slot: after, stamp: 0 },
                        },
                    ),
                },
            );
        }
        let ghost ring = Seq::new(n as nat, |k: int| k as usize);
        let list = ListB { slots, spare: Vec::new(), ring: Ghost(ring) };
        let head = HandleB { slot: 0, stamp: 0 };
        proof {
            assert forall|k: int| 0 <= k < ring.len() implies #[trigger] link_at(list.table(), ring, k) by {
                assert(list.slots@[k].node is Some);
            }
            assert forall|s: usize| s < list.table().len() && (#[trigger] list.table()[s as int]) is Some implies ring.contains(
                s,
            ) by {
                assert(ring[s as int] == s);
            }
            assert(linked(list.table(), ring));
            assert(ring[0] == 0usize);
            assert(ring.index_of(0usize) == 0);
            assert(ring_from(ring, 0) =~= ring);
            assert(list.view_from(head) =~= numbered(data));
        }
        Some((list, head))
    }

    /// The data of the cycle, in the order of a walk from `node` until the
    /// node that would come next carries `node`'s identifier.
    pub fn tour(list: &ListB<T>, node: &HandleB) -> (data_list: Vec<T>)
        requires
            list.wf(),
            list.live(*node),
        ensures
            toured(list.view_from(*node), data_list@),
    {
        let ghost c = ring_from(list.ring@, node.slot);
        proof {
            list.lemma_at(*node);
        }
        let i = list.node(node.slot).i;
        let mut cur = node.slot;
        let mut data_list: Vec<T> = Vec::new();
        loop
            invariant_except_break
                data_list@.len() < c.len(),
                cur == c[data_list@.len() as int],
            invariant
                list.wf(),
                linked(list.table(), c),
                c == ring_from(list.ring@, node.slot),
                i == list.table()[c[0] as int]->0.id,
                data_list@.len() <= c.len(),
                forall|k: int|
                    0 <= k < data_list@.len() ==> cloned(
                        list.slots@[c[k] as int].node->0.data,
                        #[trigger] data_list@[k],
                    ),
            ensures
                data_list@.len() == c.len(),
            decreases c.len() - data_list@.len(),
        {
            proof {
                lemma_walk(list.table(), c, data_list@.len() as int);
            }
            let here = list.node(cur);
            data_list.push(here.data.clone());
            let next = here.next.slot;
            if list.node(next).i == i {
                break ;
            }
            cur = next;
        }
        data_list
    }

    /// The number of nodes in the cycle of `node`.
    pub fn len(list: &ListB<T>, node: &HandleB) -> (len: usize)
        requires
            list.wf(),
            list.live(*node),
        ensures
            len == list.view_from(*node).len(),
    {
        let ghost c = ring_from(list.ring@, node.slot);
        proof {
            list.lemma_at(*node);
            list.lemma_fits();
        }
        let i = list.node(node.slot).i;
        let mut cur = node.slot;
        let mut len: usize = 0;
        loop
            invariant_except_break
                len < c.len(),
                cur == c[len as int],
            invariant
                list.wf(),
                linked(list.table(), c),
                i == list.table()[c[0] as int]->0.id,
                len <= c.len() <= usize::MAX,
            ensures
                len == c.len(),
            decreases c.len() - len,
        {
            proof {
                lemma_walk(list.table(), c, len as int);
            }
            len += 1;
            let next = list.node(cur).next.slot;
            if list.node(next).i == i {
                break ;
            }
            cur = next;
        }
        len
    }

    /// The smallest number that no node of the cycle of `node` carries as its
    /// identifier.
    pub fn new_id(list: &ListB<T>, node: &HandleB) -> (id: usize)
        requires
            list.wf(),
            list.live(*node),
        ensures
            is_mex(ids_of(list.view_from(*node)), id),
    {
        let ghost c = ring_from(list.ring@, node.slot);
        proof {
            list.lemma_at(*node);
        }
        let i = list.node(node.slot).i;
        let mut cur = node.slot;
        let mut id_list: Vec<usize> = Vec::new();
        id_list.push(i);
        loop
            invariant_except_break
                cur == c[id_list@.len() - 1],
            invariant
                list.wf(),
                linked(list.table(), c),
                i == list.table()[c[0] as int]->0.id,
                1 <= id_list@.len() <= c.len(),
                forall|k: int|
                    0 <= k < id_list@.len() ==> #[trigger] id_list@[k] == list.slots@[c[k] as int].node->0.i,
            ensures
                id_list@.len() == c.len(),
            decreases c.len() - id_list@.len(),
        {
            proof {
                lemma_walk(list.table(), c, id_list@.len() - 1);
            }
            let next = list.node(cur).next.slot;
            let next_i = list.node(next).i;
            if next_i == i {
                break ;
            }
            id_list.push(next_i);
            cur = next;
        }
        assert(id_list@ =~= ids_of(list.view_from(*node)));
        smallest_absent(&id_list)
    }

    /// Takes `node` out of its cycle, releases it, and hands back its datum
    /// and the node that came after it; its two neighbours become each
    /// other's. The only node of a cycle comes after itself, so it stays where
    /// it is and a copy of its datum is handed back. A handle that names no
    /// node gives `None`.
    pub fn cut(list: &mut ListB<T>, node: &HandleB) -> (taken: Option<(T, HandleB)>)
        requires
            old(list).wf(),
        ensures
            final(list).wf(),
            taken is Some <==> old(list).live(*node),
            taken is None ==> *final(list) == *old(list),
            taken matches Some((datum, after)) ==> {
                &&& after == old(list).next_of(*node)
                &&& final(list).live(after)
                &&& final(list).cycle_from(after) == after_cut(old(list).cycle_from(*node))
                &&& cut_shows(old(list).view_from(*node), datum, final(list).view_from(after))
                &&& forall|h: HandleB| final(list).live(h) ==> final(list).entry(h) == old(list).entry(h)
                &&& old(list).cycle_from(*node).len() >= 2 ==> !final(list).live(*node) && final(list).spent(*node)
            },
            forall|h: HandleB| old(list).spent(h) ==> final(list).spent(h),
    {
        let s = node.slot;
        if s >= list.slots.len() || list.slots[s].stamp != node.stamp || list.slots[s].node.is_none() {
            return None;
        }
        let ghost c = ring_from(list.ring@, s);
        proof {
            list.lemma_at(*node);
            lemma_walk(list.table(), c, 0);
            list.lemma_links_agree(*node);
        }
        let here = list.node(s);
        let prev = here.prev;
        let next = here.next;
        if next.slot == s {
            let datum = here.data.clone();
            proof {
                assert(c.len() == 1) by {
                    if c.len() > 1 {
                        assert(c[1] != c[0]);
                    }
                }
            }
            return Some((datum, next));
        }
        assert(c.len() >= 2);
        assert(link_at(list.table(), c, 1) && link_at(list.table(), c, c.len() - 1));
        list.set_next(prev.slot, next);
        list.set_prev(next.slot, prev);
        let gone = list.release(s);
        list.ring = Ghost(c.drop_first());
        proof {
            let r = c.drop_first();
            assert(list.table() =~= unlinked(old(list).table(), c));
            lemma_unlinked(old(list).table(), c);
            assert(r[0] == next.slot);
            assert(r.index_of(next.slot) == 0);
            assert(ring_from(r, next.slot) =~= r);
            assert forall|k: int| 0 <= k < r.len() implies final(list).handle(#[trigger] r[k]) == old(list).handle(r[k])
                && final(list).entry(old(list).handle(r[k])) == old(list).entry(old(list).handle(r[k])) by {
                assert(r[k] == c[k + 1]);
                assert(c[k + 1] != c[0]);
                assert(link_at(old(list).table(), c, k + 1));
            }
            assert(final(list).cycle_from(next) =~= old(list).cycle_from(*node).drop_first());
            assert(final(list).view_from(next) =~= old(list).view_from(*node).drop_first());
            assert(final(list).stamps_ok()) by {
                assert forall|t: int|
                    0 <= t < final(list).slots@.len() && (#[trigger] final(list).slots@[t]).node is Some implies {
                    let node = final(list).slots@[t].node->0;
                    &&& node.next.slot < final(list).slots@.len()
                    &&& node.prev.slot < final(list).slots@.len()
                    &&& node.next == final(list).handle(node.next.slot)
                    &&& node.prev == final(list).handle(node.prev.slot)
                } by {
                    let k = r.index_of(t as usize);
                    assert(final(list).table()[t] is Some);
                    assert(r.contains(t as usize));
                    assert(link_at(final(list).table(), r, k));
                    assert(old(list).slots@[t].node is Some);
                    assert(final(list).handle(r[succ(k, r.len() as int)]) == old(list).handle(r[succ(k, r.len() as int)]));
                    assert(final(list).handle(r[pred(k, r.len() as int)]) == old(list).handle(r[pred(k, r.len() as int)]));
                }
            }
        }
        Some((gone.data, next))
    }

    /// The node reached from `node` by following `next` `step` times.
    pub fn step(list: &ListB<T>, node: &HandleB, step: usize) -> (reached: HandleB)
        requires
            list.wf(),
            list.live(*node),
        ensures
            list.live(reached),
            reached == list.cycle_from(*node)[(step as int) % (list.cycle_from(*node).len() as int)],
            list.view_from(reached) == rotated(
                list.view_from(*node),
                (step as int) % (list.cycle_from(*node).len() as int),
            ),
    {
        let ghost c = ring_from(list.ring@, node.slot);
        proof {
            list.lemma_at(*node);
            lemma_succ_mod(0, c.len() as int);
        }
        let ghost n = c.len() as int;
        let mut cur = *node;
        for done in 0..step
            invariant
                list.wf(),
                linked(list.table(), c),
                n == c.len(),
                0 <= (done as int) % n && (done as int) % n < n,
                cur == list.handle(c[(done as int) % n]),
        {
            proof {
                lemma_walk(list.table(), c, (done as int) % n);
                lemma_succ_mod(done as int, n);
                assert(list.slots@[c[(done as int) % n] as int].node is Some);
            }
            cur = list.node(cur.slot).next;
        }
        proof {
            let k = (step as int) % n;
            assert(link_at(list.table(), c, k));
            assert(list.cycle_from(*node)[k] == cur);
            list.lemma_cycle_turn(*node, k);
        }
        cur
    }

    /// Puts a new node with `data` into the cycle, directly after `prev`, and
    /// hands back its handle. It carries `new_id` if one is given, which must
    /// be an identifier that no node of the cycle carries; else the smallest
    /// number that none carries.
    pub fn add(list: &mut ListB<T>, prev: &HandleB, data: T, new_id: Option<usize>) -> (added: HandleB)
        requires
            old(list).wf(),
            old(list).live(*prev),
            new_id matches Some(id) ==> !ids_of(old(list).view_from(*prev)).contains(id),
        ensures
            final(list).wf(),
            !old(list).live(added),
            final(list).live(added),
            final(list).cycle_from(*prev) == old(list).cycle_from(*prev).insert(1, added),
            final(list).cycle_from(added) == after_add(old(list).cycle_from(*prev), added),
            add_shows(old(list).view_from(*prev), data, new_id, final(list).view_from(added)),
            forall|h: HandleB| old(list).live(h) ==> final(list).live(h) && final(list).entry(h) == old(list).entry(h),
            forall|h: HandleB| old(list).spent(h) ==> final(list).spent(h),
    {
        let i = match new_id {
            Some(id) => id,
            None => Self::new_id(list, prev),
        };
        let ghost c = ring_from(list.ring@, prev.slot);
        proof {
            list.lemma_at(*prev);
            lemma_walk(list.table(), c, 0);
            assert forall|k: int| 0 <= k < c.len() implies old(list).table()[#[trigger] c[k] as int]->0.id != i by {
                assert(link_at(old(list).table(), c, k));
                assert(ids_of(old(list).view_from(*prev))[k] == old(list).table()[c[k] as int]->0.id);
            }
        }
        let prev_next = list.node(prev.slot).next;
        let added = list.place(data, *prev, i, prev_next);
        list.set_next(prev.slot, added);
        list.set_prev(prev_next.slot, added);
        list.ring = Ghost(c.insert(1, added.slot));
        proof {
            ListB::lemma_added(*old(list), *list, *prev, added, data, i);
        }
        added
    }

    /// Releases every node of the cycle of `node`: walks from `node` and stops
    /// behind the node that carries the identifier of the node before
    /// `node`. After it the list holds no node, and no handle names one.
    pub fn clean(list: &mut ListB<T>, node: &HandleB)
        requires
            old(list).wf(),
            old(list).live(*node),
        ensures
            forall|h: HandleB| !final(list).live(h),
            forall|h: HandleB| old(list).live(h) || old(list).spent(h) ==> final(list).spent(h),
    {
        let ghost c = ring_from(list.ring@, node.slot);
        proof {
            list.lemma_at(*node);
            list.lemma_links_agree(*node);
            assert(link_at(list.table(), c, 0));
            assert(link_at(list.table(), c, c.len() - 1));
        }
        let prev = list.node(list.node(node.slot).prev.slot).i;
        let mut cur = node.slot;
        let ghost mut k: int = 0;
        proof {
            assert(c.subrange(0, c.len() as int) =~= c);
            assert forall|s: usize| s < list.slots@.len() && !c.contains(s) implies list.slots@[s as int].node is None by {
                if list.slots@[s as int].node is Some {
                    assert(list.table()[s as int] is Some);
                }
            }
        }
        loop
            invariant_except_break
                0 <= k < c.len(),
                cur == c[k],
                forall|j: int| k <= j < c.len() ==> list.slots@[#[trigger] c[j] as int] == old(list).slots@[c[j] as int],
            invariant
                linked(old(list).table(), c),
                prev == old(list).table()[c[c.len() - 1] as int]->0.id,
                list.spare_ok(),
                list.slots@.len() == old(list).slots@.len(),
                0 <= k <= c.len(),
                forall|s: usize| s < list.slots@.len() && !c.subrange(k, c.len() as int).contains(s) ==> list.slots@[s as int].node is None,
                forall|h: HandleB| old(list).spent(h) ==> list.spent(h),
                forall|j: int| 0 <= j < k ==> list.spent(old(list).handle(#[trigger] c[j])),
            ensures
                forall|s: usize| s < list.slots@.len() ==> list.slots@[s as int].node is None,
                forall|h: HandleB| old(list).spent(h) ==> list.spent(h),
                forall|j: int| 0 <= j < c.len() ==> list.spent(old(list).handle(#[trigger] c[j])),
            decreases c.len() - k,
        {
            proof {
                assert(link_at(old(list).table(), c, k));
                assert(k < c.len() - 1 ==> old(list).table()[c[k] as int]->0.id != prev);
            }
            let i = list.node(cur).i;
            if i == prev {
                let _ = list.release(cur);
                proof {
                    assert(k == c.len() - 1);
                    assert forall|s: usize| s < list.slots@.len() implies list.slots@[s as int].node is None by {
                        if s != c[k] {
                            let rest = c.subrange(k, c.len() as int);
                            if rest.contains(s) {
                                let j = rest.index_of(s);
                                assert(rest[j] == c[k + j]);
                            }
                        }
                    }
                }
                break ;
            } else {
                let next = list.node(cur).next.slot;
                let _ = list.release(cur);
                proof {
                    assert(link_at(old(list).table(), c, k + 1));
                    assert forall|j: int| k + 1 <= j < c.len() implies list.slots@[#[trigger] c[j] as int] == old(
                        list,
                    ).slots@[c[j] as int] by {
                        assert(c[j] != c[k]);
                        assert(link_at(old(list).table(), c, j));
                    }
                    assert forall|s: usize|
                        s < list.slots@.len() && !c.subrange(k + 1, c.len() as int).contains(s) implies list.slots@[s as int].node is None by {
                        if s != c[k] {
                            let rest = c.subrange(k, c.len() as int);
                            let less = c.subrange(k + 1, c.len() as int);
                            if rest.contains(s) {
                                let j = rest.index_of(s);
                                assert(rest[j] == c[k + j]);
                                assert(less[j - 1] == c[k + j]);
                            }
                        }
                    }
                    k = k + 1;
                }
                cur = next;
            }
        }
        proof {
            assert forall|h: HandleB| old(list).live(h) implies list.spent(h) by {
                assert(old(list).table()[h.slot as int] is Some);
                assert(c.contains(h.slot));
                let j = c.index_of(h.slot);
                assert(old(list).handle(c[j]) == h);
            }
        }
    }
}

} // verus!
