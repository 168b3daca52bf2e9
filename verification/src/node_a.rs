//! The list with shared handles.
//!
//! A `ListA` owns all the nodes of one cycle. A `HandleA` is the number of a
//! slot and may be copied freely; whoever holds one reads and changes the
//! node through the list, so two changes can never meet in one node. A slot is
//! used once: the slot of a node that has left the cycle stays empty, so a
//! handle kept from that node names no node again. Nothing has to be torn
//! down: the slots go when the list goes.

use crate::cycle::{
    add_shows, after_add, after_cut, cut_shows, ids_of, is_mex, lemma_ring_from, lemma_ring_from_turn,
    lemma_spliced, lemma_succ_mod, lemma_unlinked, lemma_walk, link_at, linked, numbered, pred, ring_from, rotated,
    smallest_absent, spliced, succ, toured, unlinked, Entry, Link,
};
use vstd::prelude::*;
use vstd::set_lib::{lemma_int_range, lemma_len_subset, set_int_range};

verus! {

/// Names one node of a `ListA`.
#[derive(Clone, Copy, Debug, PartialEq, Eq, Structural)]
pub struct HandleA {
    slot: usize,
}

/// A node of the cycle: its datum, its identifier and its two neighbours.
pub struct NodeA<T: Clone> {
    pub data: T,
    pub prev: Option<HandleA>,
    pub i: usize,
    pub next: Option<HandleA>,
}

/// The nodes of one cycle.
pub struct ListA<T: Clone> {
    slots: Vec<Option<NodeA<T>>>,
    ring: Ghost<Seq<usize>>,
}

impl<T: Clone> ListA<T> {
    /// The links of `node`, if both are set.
    spec fn link_of(node: NodeA<T>) -> Option<Link> {
        match (node.prev, node.next) {
            (Some(p), Some(q)) => Some(Link { prev: p.slot, id: node.i, next: q.slot }),
            _ => None,
        }
    }

    /// The links of all slots.
    spec fn table(&self) -> Seq<Option<Link>> {
        Seq::new(
            self.slots@.len(),
            |s: int|
                match self.slots@[s] {
                    Some(node) => Self::link_of(node),
                    None => None,
                },
        )
    }

    /// The nodes form one cycle of at least one node, `next` and `prev` run
    /// opposite ways round it, and no identifier occurs twice.
    pub closed spec fn wf(&self) -> bool {
        &&& linked(self.table(), self.ring@)
        &&& forall|s: int|
            0 <= s < self.slots@.len() && (#[trigger] self.slots@[s]) is Some ==> Self::link_of(self.slots@[s]->0) is Some
    }

    /// The node that `at` named has left the cycle.
    pub closed spec fn spent(&self, at: HandleA) -> bool {
        at.slot < self.slots@.len() && self.slots@[at.slot as int] is None
    }

    /// `at` names a node of this list.
    pub closed spec fn live(&self, at: HandleA) -> bool {
        at.slot < self.slots@.len() && self.slots@[at.slot as int] is Some
    }

    /// The identifier and the datum of the node `at`.
    pub closed spec fn entry(&self, at: HandleA) -> Entry<T> {
        Entry { id: self.slots@[at.slot as int]->0.i, data: self.slots@[at.slot as int]->0.data }
    }

    /// The node after `at`.
    pub closed spec fn next_of(&self, at: HandleA) -> HandleA {
        self.slots@[at.slot as int]->0.next->0
    }

    /// The node before `at`.
    pub closed spec fn prev_of(&self, at: HandleA) -> HandleA {
        self.slots@[at.slot as int]->0.prev->0
    }

    /// The nodes of the cycle in the order of their `next` links, from `at`.
    pub closed spec fn cycle_from(&self, at: HandleA) -> Seq<HandleA> {
        ring_from(self.ring@, at.slot).map_values(|s: usize| HandleA { slot: s })
    }

    /// What a walk round the cycle from `at` shows: the identifier and the
    /// datum of each node.
    pub open spec fn view_from(&self, at: HandleA) -> Seq<Entry<T>> {
        self.cycle_from(at).map_values(|h: HandleA| self.entry(h))
    }

    /// The slots of the cycle read from `at` form the cycle as well.
    proof fn lemma_at(&self, at: HandleA)
        requires
            self.wf(),
            self.live(at),
        ensures
            linked(self.table(), ring_from(self.ring@, at.slot)),
            ring_from(self.ring@, at.slot)[0] == at.slot,
            ring_from(self.ring@, at.slot).len() == self.ring@.len(),
            self.ring@.contains(at.slot),
            forall|s: usize| ring_from(self.ring@, at.slot).contains(s) <==> self.ring@.contains(s),
    {
        assert(self.table()[at.slot as int] is Some);
        lemma_ring_from(self.table(), self.ring@, at.slot);
    }

    /// Seen from any of its nodes, the cycle of a well-formed list starts with
    /// that node, holds each node of the list once, and carries each
    /// identifier once.
    pub proof fn lemma_cycle(&self, at: HandleA)
        requires
            self.wf(),
            self.live(at),
        ensures
            self.cycle_from(at).len() >= 1,
            self.cycle_from(at)[0] == at,
            self.cycle_from(at).no_duplicates(),
            forall|h: HandleA| self.live(h) <==> self.cycle_from(at).contains(h),
            ids_of(self.view_from(at)).no_duplicates(),
    {
        self.lemma_at(at);
        let c = ring_from(self.ring@, at.slot);
        let cycle = self.cycle_from(at);
        assert forall|h: HandleA| self.live(h) <==> cycle.contains(h) by {
            if self.live(h) {
                assert(self.table()[h.slot as int] is Some);
                assert(c.contains(h.slot));
                assert(cycle[c.index_of(h.slot)] == h);
            }
            if cycle.contains(h) {
                let k = cycle.index_of(h);
                assert(link_at(self.table(), c, k));
            }
        }
        let ids = ids_of(self.view_from(at));
        assert forall|j: int, k: int| 0 <= j < ids.len() && 0 <= k < ids.len() && j != k implies ids[j] != ids[k] by {
            assert(link_at(self.table(), c, j) && link_at(self.table(), c, k));
            if j < k {
                assert(self.table()[c[j] as int]->0.id != self.table()[c[k] as int]->0.id);
            } else {
                assert(self.table()[c[k] as int]->0.id != self.table()[c[j] as int]->0.id);
            }
        }
    }

    /// The cycle seen from its node at position `k` is the cycle turned by `k`.
    pub proof fn lemma_cycle_turn(&self, at: HandleA, k: int)
        requires
            self.wf(),
            self.live(at),
            0 <= k < self.cycle_from(at).len(),
        ensures
            self.cycle_from(self.cycle_from(at)[k]) == rotated(self.cycle_from(at), k),
            self.view_from(self.cycle_from(at)[k]) == rotated(self.view_from(at), k),
    {
        self.lemma_at(at);
        lemma_ring_from_turn(self.ring@, at.slot, k);
        assert(self.cycle_from(self.cycle_from(at)[k]) =~= rotated(self.cycle_from(at), k));
        assert(self.view_from(self.cycle_from(at)[k]) =~= rotated(self.view_from(at), k));
    }

    /// In a well-formed list the two links of every node answer each other:
    /// the node after `x` has `x` before it, and the node before `x` has `x`
    /// after it.
    pub proof fn lemma_links_agree(&self, x: HandleA)
        requires
            self.wf(),
            self.live(x),
        ensures
            self.live(self.next_of(x)),
            self.live(self.prev_of(x)),
            self.prev_of(self.next_of(x)) == x,
            self.next_of(self.prev_of(x)) == x,
            self.cycle_from(x)[succ(0, self.cycle_from(x).len() as int)] == self.next_of(x),
            self.cycle_from(x)[pred(0, self.cycle_from(x).len() as int)] == self.prev_of(x),
    {
        self.lemma_at(x);
        let c = ring_from(self.ring@, x.slot);
        let n = c.len() as int;
        assert(link_at(self.table(), c, 0));
        assert(link_at(self.table(), c, succ(0, n)));
        assert(link_at(self.table(), c, pred(0, n)));
    }

    /// A handle whose node has left names no node.
    pub proof fn lemma_spent(&self, at: HandleA)
        requires
            self.spent(at),
        ensures
            !self.live(at),
    {
    }

    /// The cycle has no more nodes than the list has slots.
    proof fn lemma_fits(&self)
        requires
            self.wf(),
        ensures
            self.ring@.len() <= self.slots@.len() <= usize::MAX,
    {
        assert(self.slots@.len() == self.slots.len());
        let ring = self.ring@;
        let wide = ring.map_values(|s: usize| s as int);
        let below = set_int_range(0, self.slots@.len() as int);
        assert forall|j: int, k: int| 0 <= j < wide.len() && 0 <= k < wide.len() && j != k implies wide[j] != wide[k] by {
            assert(ring[j] != ring[k]);
        }
        assert forall|x: int| wide.to_set().contains(x) implies below.contains(x) by {
            let k = wide.index_of(x);
            assert(link_at(self.table(), ring, k));
        }
        wide.unique_seq_to_set();
        lemma_int_range(0, self.slots@.len() as int);
        lemma_len_subset(wide.to_set(), below);
    }

    /// The node in `slot`.
    fn node(&self, slot: usize) -> (node: &NodeA<T>)
        requires
            slot < self.slots@.len(),
            self.slots@[slot as int] is Some,
        ensures
            *node == self.slots@[slot as int]->0,
    {
        self.slots[slot].as_ref().unwrap()
    }

    /// Makes the node in `slot` name `to` as the node after it.
    fn set_next(&mut self, slot: usize, to: HandleA)
        requires
            slot < old(self).slots@.len(),
            old(self).slots@[slot as int] is Some,
        ensures
            final(self).slots@ == old(self).slots@.update(
                slot as int,
                Some(
                    NodeA {
                        data: old(self).slots@[slot as int]->0.data,
                        prev: old(self).slots@[slot as int]->0.prev,
                        i: old(self).slots@[slot as int]->0.i,
                        next: Some(to),
                    },
                ),
            ),
            final(self).ring == old(self).ring,
    {
        match &mut self.slots[slot] {
            Some(node) => {
                node.next = Some(to);
            },
            None => {},
        }
    }

    /// Makes the node in `slot` name `to` as the node before it.
    fn set_prev(&mut self, slot: usize, to: HandleA)
        requires
            slot < old(self).slots@.len(),
            old(self).slots@[slot as int] is Some,
        ensures
            final(self).slots@ == old(self).slots@.update(
                slot as int,
                Some(
                    NodeA {
                        data: old(self).slots@[slot as int]->0.data,
                        prev: Some(to),
                        i: old(self).slots@[slot as int]->0.i,
                        next: old(self).slots@[slot as int]->0.next,
                    },
                ),
            ),
            final(self).ring == old(self).ring,
    {
        match &mut self.slots[slot] {
            Some(node) => {
                node.prev = Some(to);
            },
            None => {},
        }
    }

    /// The node that `at` names, if it names one.
    pub fn get(&self, at: &HandleA) -> (found: Option<&NodeA<T>>)
        ensures
            found is Some <==> self.live(*at),
            found matches Some(node) ==> {
                &&& node.i == self.entry(*at).id
                &&& node.data == self.entry(*at).data
                &&& self.wf() ==> node.next == Some(self.next_of(*at)) && node.prev == Some(self.prev_of(*at))
            },
    {
        if at.slot < self.slots.len() {
            self.slots[at.slot].as_ref()
        } else {
            None
        }
    }
}

impl<T: Clone> NodeA<T> {
    /// Builds the list of `data_list`: one node for each datum, in that order,
    /// numbered from 0. There is no list of nothing.
    pub fn init(data_list: Vec<T>) -> (made: Option<(ListA<T>, HandleA)>)
        ensures
            made is None <==> data_list@.len() == 0,
            made matches Some((list, head)) ==> {
                &&& list.wf()
                &&& list.live(head)
                &&& list.view_from(head) == numbered(data_list@)
            },
    {
        let n = data_list.len();
        if n == 0 {
            return None;
        }
        let ghost data = data_list@;
        let mut slots: Vec<Option<NodeA<T>>> = Vec::new();
        for datum in it: data_list
            invariant
                n == data.len(),
                it.seq() == data,
                slots@.len() == it.index(),
                forall|k: int|
                    0 <= k < slots@.len() ==> (#[trigger] slots@[k]) == Some(
                        NodeA {
                            data: data[k],
                            prev: Some(HandleA { slot: pred(k, n as int) as usize }),
                            i: k as usize,
                            next: Some(HandleA { slot: succ(k, n as int) as usize }),
                        },
                    ),
        {
            let k = slots.len();
            let before = if k == 0 { n - 1 } else { k - 1 };
            let after = if k + 1 == n { 0 } else { k + 1 };
            slots.push(
                Some(NodeA { data: datum, prev: Some(HandleA { slot: before }), i: k, next: Some(HandleA { slot: after }) }),
            );
        }
        let ghost ring = Seq::new(n as nat, |k: int| k as usize);
        let list = ListA { slots, ring: Ghost(ring) };
        let head = HandleA { slot: 0 };
        proof {
            assert forall|k: int| 0 <= k < ring.len() implies #[trigger] link_at(list.table(), ring, k) by {
                assert(list.slots@[k] is Some);
            }
            assert forall|s: usize| s < list.table().len() && (#[trigger] list.table()[s as int]) is Some implies ring.contains(
                s,
            ) by {
                assert(ring[s as int] == s);
            }
            assert(linked(list.table(), ring));
            assert(ring[0] == 0usize);
            assert(ring.index_of(0usize) == 0);
            assert(ring_from(ring, 0) =~= ring);
            assert(list.view_from(head) =~= numbered(data));
        }
        Some((list, head))
    }

    /// The data of the cycle, in the order of a walk from `node` until the
    /// node that would come next carries `node`'s identifier.
    pub fn tour(list: &ListA<T>, node: &HandleA) -> (data_list: Vec<T>)
        requires
            list.wf(),
            list.live(*node),
        ensures
            toured(list.view_from(*node), data_list@),
    {
        let ghost c = ring_from(list.ring@, node.slot);
        proof {
            list.lemma_at(*node);
        }
        let i = list.node(node.slot).i;
        let mut cur = node.slot;
        let mut data_list: Vec<T> = Vec::new();
        loop
            invariant_except_break
                data_list@.len() < c.len(),
                cur == c[data_list@.len() as int],
            invariant
                list.wf(),
                linked(list.table(), c),
                c == ring_from(list.ring@, node.slot),
                i == list.table()[c[0] as int]->0.id,
                data_list@.len() <= c.len(),
                forall|k: int|
                    0 <= k < data_list@.len() ==> cloned(
                        list.slots@[c[k] as int]->0.data,
                        #[trigger] data_list@[k],
                    ),
            ensures
                data_list@.len() == c.len(),
            decreases c.len() - data_list@.len(),
        {
            proof {
                lemma_walk(list.table(), c, data_list@.len() as int);
            }
            let here = list.node(cur);
            data_list.push(here.data.clone());
            let next = here.next.unwrap().slot;
            if list.node(next).i == i {
                break ;
            }
            cur = next;
        }
        data_list
    }

    /// The number of nodes in the cycle of `node`.
    pub fn len(list: &ListA<T>, node: &HandleA) -> (len: usize)
        requires
            list.wf(),
            list.live(*node),
        ensures
            len == list.view_from(*node).len(),
    {
        let ghost c = ring_from(list.ring@, node.slot);
        proof {
            list.lemma_at(*node);
            list.lemma_fits();
        }
        let i = list.node(node.slot).i;
        let mut cur = node.slot;
        let mut len: usize = 0;
        loop
            invariant_except_break
                len < c.len(),
                cur == c[len as int],
            invariant
                list.wf(),
                linked(list.table(), c),
                i == list.table()[c[0] as int]->0.id,
                len <= c.len() <= usize::MAX,
            ensures
                len == c.len(),
            decreases c.len() - len,
        {
            proof {
                lemma_walk(list.table(), c, len as int);
            }
            len += 1;
            let next = list.node(cur).next.unwrap().slot;
            if list.node(next).i == i {
                break ;
            }
            cur = next;
        }
        len
    }

    /// The smallest number that no node of the cycle of `node` carries as its
    /// identifier.
    pub fn new_id(list: &ListA<T>, node: &HandleA) -> (id: usize)
        requires
            list.wf(),
            list.live(*node),
        ensures
            is_mex(ids_of(list.view_from(*node)), id),
    {
        let ghost c = ring_from(list.ring@, node.slot);
        proof {
            list.lemma_at(*node);
        }
        let i = list.node(node.slot).i;
        let mut cur = node.slot;
        let mut id_list: Vec<usize> = Vec::new();
        id_list.push(i);
        loop
            invariant_except_break
                cur == c[id_list@.len() - 1],
            invariant
                list.wf(),
                linked(list.table(), c),
                i == list.table()[c[0] as int]->0.id,
                1 <= id_list@.len() <= c.len(),
                forall|k: int| 0 <= k < id_list@.len() ==> #[trigger] id_list@[k] == list.slots@[c[k] as int]->0.i,
            ensures
                id_list@.len() == c.len(),
            decreases c.len() - id_list@.len(),
        {
            proof {
                lemma_walk(list.table(), c, id_list@.len() - 1);
            }
            let next = list.node(cur).next.unwrap().slot;
            let next_i = list.node(next).i;
            if next_i == i {
                break ;
            }
            id_list.push(next_i);
            cur = next;
        }
        assert(id_list@ =~= ids_of(list.view_from(*node)));
        smallest_absent(&id_list)
    }

    /// The node reached from `node` by following `next` `step` times.
    pub fn step(list: &ListA<T>, node: &HandleA, step: usize) -> (reached: HandleA)
        requires
            list.wf(),
            list.live(*node),
        ensures
            list.live(reached),
            reached == list.cycle_from(*node)[(step as int) % (list.cycle_from(*node).len() as int)],
            list.view_from(reached) == rotated(
                list.view_from(*node),
                (step as int) % (list.cycle_from(*node).len() as int),
            ),
    {
        let ghost c = ring_from(list.ring@, node.slot);
        proof {
            list.lemma_at(*node);
            lemma_succ_mod(0, c.len() as int);
        }
        let ghost n = c.len() as int;
        let mut cur = node.slot;
        for done in 0..step
            invariant
                list.wf(),
                linked(list.table(), c),
                n == c.len(),
                0 <= (done as int) % n && (done as int) % n < n,
                cur == c[(done as int) % n],
        {
            proof {
                lemma_walk(list.table(), c, (done as int) % n);
                lemma_succ_mod(done as int, n);
            }
            cur = list.node(cur).next.unwrap().slot;
        }
        let reached = HandleA { slot: cur };
        proof {
            let k = (step as int) % n;
            assert(link_at(list.table(), c, k));
            assert(list.cycle_from(*node)[k] == reached);
            list.lemma_cycle_turn(*node, k);
        }
        reached
    }

    /// Takes `node` out of its cycle and hands back its datum and the node that
    /// came after it; its two neighbours become each other's. The only node
    /// of a cycle comes after itself, so it stays where it is and a copy of
    /// its datum is handed back. A handle that names no node gives `None`.
    pub fn cut(list: &mut ListA<T>, node: &HandleA) -> (taken: Option<(T, HandleA)>)
        requires
            old(list).wf(),
        ensures
            final(list).wf(),
            taken is Some <==> old(list).live(*node),
            taken is None ==> *final(list) == *old(list),
            taken matches Some((datum, after)) ==> {
                &&& after == old(list).next_of(*node)
                &&& final(list).live(after)
                &&& final(list).cycle_from(after) == after_cut(old(list).cycle_from(*node))
                &&& cut_shows(old(list).view_from(*node), datum, final(list).view_from(after))
                &&& forall|h: HandleA| final(list).live(h) ==> final(list).entry(h) == old(list).entry(h)
                &&& old(list).cycle_from(*node).len() >= 2 ==> !final(list).live(*node) && final(list).spent(*node)
            },
            forall|h: HandleA| old(list).spent(h) ==> final(list).spent(h),
    {
        let s = node.slot;
        if s >= list.slots.len() || list.slots[s].is_none() {
            return None;
        }
        let ghost c = ring_from(list.ring@, s);
        proof {
            list.lemma_at(*node);
            lemma_walk(list.table(), c, 0);
            list.lemma_links_agree(*node);
        }
        let here = list.node(s);
        let prev = match here.prev {
            Some(prev) => prev,
            None => { return None; },
        };
        let next = match here.next {
            Some(next) => next,
            None => { return None; },
        };
        if next.slot == s {
            let datum = here.data.clone();
            proof {
                assert(c.len() == 1) by {
                    if c.len() > 1 {
                        assert(c[1] != c[0]);
                    }
                }
            }
            return Some((datum, next));
        }
        assert(c.len() >= 2);
        assert(link_at(list.table(), c, 1) && link_at(list.table(), c, c.len() - 1));
        list.set_next(prev.slot, next);
        list.set_prev(next.slot, prev);
        let gone = list.slots[s].take();
        list.ring = Ghost(c.drop_first());
        proof {
            let r = c.drop_first();
            assert(list.table() =~= unlinked(old(list).table(), c));
            lemma_unlinked(old(list).table(), c);
            assert(r[0] == next.slot);
            assert(r.index_of(next.slot) == 0);
            assert(ring_from(r, next.slot) =~= r);
            assert(final(list).cycle_from(next) =~= old(list).cycle_from(*node).drop_first());
            assert forall|k: int| 0 <= k < r.len() implies final(list).entry(HandleA { slot: #[trigger] r[k] }) == old(
                list,
            ).entry(HandleA { slot: r[k] }) by {
                assert(r[k] == c[k + 1]);
                assert(c[k + 1] != c[0]);
                assert(link_at(old(list).table(), c, k + 1));
            }
            assert(final(list).view_from(next) =~= old(list).view_from(*node).drop_first());
        }
        match gone {
            Some(gone) => Some((gone.data, next)),
            None => None,
        }
    }

    /// Puts a new node with `data` into the cycle, directly after `prev`, and
    /// hands back its handle. It carries `new_id` if one is given, which must
    /// be an identifier that no node of the cycle carries; else the smallest
    /// number that none carries.
    pub fn add(list: &mut ListA<T>, prev: &HandleA, data: T, new_id: Option<usize>) -> (added: HandleA)
        requires
            old(list).wf(),
            old(list).live(*prev),
            new_id matches Some(id) ==> !ids_of(old(list).view_from(*prev)).contains(id),
        ensures
            final(list).wf(),
            !old(list).live(added),
            final(list).live(added),
            final(list).cycle_from(*prev) == old(list).cycle_from(*prev).insert(1, added),
            final(list).cycle_from(added) == after_add(old(list).cycle_from(*prev), added),
            add_shows(old(list).view_from(*prev), data, new_id, final(list).view_from(added)),
            forall|h: HandleA| old(list).live(h) ==> final(list).live(h) && final(list).entry(h) == old(list).entry(h),
            forall|h: HandleA| old(list).spent(h) ==> final(list).spent(h),
    {
        let i = match new_id {
            Some(id) => id,
            None => Self::new_id(list, prev),
        };
        let ghost c = ring_from(list.ring@, prev.slot);
        proof {
            list.lemma_at(*prev);
            lemma_walk(list.table(), c, 0);
            assert forall|k: int| 0 <= k < c.len() implies old(list).table()[#[trigger] c[k] as int]->0.id != i by {
                assert(link_at(old(list).table(), c, k));
                assert(ids_of(old(list).view_from(*prev))[k] == old(list).table()[c[k] as int]->0.id);
            }
        }
        let prev_next = list.node(prev.slot).next.unwrap();
        let added = HandleA { slot: list.slots.len() };
        list.slots.push(Some(NodeA { data, prev: Some(*prev), i, next: Some(prev_next) }));
        let ghost slot = added.slot;
        list.set_next(prev.slot, added);
        list.set_prev(prev_next.slot, added);
        list.ring = Ghost(c.insert(1, added.slot));
        proof {
            let r = c.insert(1, slot);
            assert(list.table() =~= spliced(old(list).table(), c, slot, i));
            lemma_spliced(old(list).table(), c, slot, i);
            assert(r.index_of(prev.slot) == 0 && r.index_of(slot) == 1) by {
                assert(r[0] == prev.slot && r[1] == slot);
            }
            assert(ring_from(r, prev.slot) =~= r);
            assert(final(list).cycle_from(*prev) =~= old(list).cycle_from(*prev).insert(1, added));
            assert(final(list).cycle_from(added) =~= after_add(old(list).cycle_from(*prev), added));
            assert forall|k: int| 0 <= k < c.len() implies final(list).entry(HandleA { slot: #[trigger] c[k] }) == old(
                list,
            ).entry(HandleA { slot: c[k] }) by {
                assert(link_at(old(list).table(), c, k));
            }
            assert(final(list).view_from(added) =~= after_add(old(list).view_from(*prev), final(list).entry(added)));
        }
        added
    }
}

} // verus!
