//! The connection registry: a doubly linked list of entries kept in an arena.
//!
//! Each entry lives in a slot of the arena and links to its neighbours by slot
//! index. The head is the most recently added entry. A `Handle` names one entry
//! by its slot and by a stamp that no other entry ever receives, so a handle
//! whose entry was removed never matches a later entry in the same slot.

use vstd::prelude::*;
use vstd::set_lib::{lemma_int_range, lemma_len_subset, set_int_range};

verus! {

/// Identifies one entry of a `LinkedList`, as returned by `LinkedList::add`.
#[derive(Clone, Copy, Debug, PartialEq, Eq, Structural)]
pub struct Handle {
    pub slot: usize,
    pub stamp: u64,
}

/// One entry: the outbound channel of a connection, with its links.
pub struct LLNode<W> {
    pub stream: W,
    pub next: Option<usize>,
    pub prev: Option<usize>,
}

impl<W> LLNode<W> {
    pub fn new(stream: W, next: Option<usize>, prev: Option<usize>) -> (r: LLNode<W>)
        ensures
            r.stream == stream,
            r.next == next,
            r.prev == prev,
    {
        LLNode { stream, next, prev }
    }
}

/// The registry of live connections, newest first.
pub struct LinkedList<W> {
    slots: Vec<Option<LLNode<W>>>,
    stamps: Vec<u64>,
    free: Vec<usize>,
    head: Option<usize>,
    next_stamp: u64,
    order: Ghost<Seq<usize>>,
}

/// A sequence of distinct indices below `n` has at most `n` elements.
proof fn lemma_distinct_below(s: Seq<usize>, n: nat)
    requires
        s.no_duplicates(),
        forall|i: int| 0 <= i < s.len() ==> s[i] < n,
    ensures
        s.len() <= n,
{
    let t = s.map_values(|x: usize| x as int);
    assert(t.no_duplicates());
    t.unique_seq_to_set();
    assert(t.to_set().subset_of(set_int_range(0, n as int))) by {
        assert forall|x: int| t.to_set().contains(x) implies 0 <= x < n by {
            let i = choose|i: int| 0 <= i < t.len() && t[i] == x;
        };
    };
    lemma_int_range(0, n as int);
    lemma_len_subset(t.to_set(), set_int_range(0, n as int));
}

/// The entry at position `i` of `order` sits in an occupied slot, carries a
/// stamp already handed out, and links to its neighbours in the order.
spec fn entry_ok<W>(slots: Seq<Option<LLNode<W>>>, stamps: Seq<u64>, next_stamp: u64, order: Seq<usize>, i: int) -> bool {
    let s = order[i];
    &&& s < slots.len()
    &&& slots[s as int] is Some
    &&& stamps[s as int] < next_stamp
    &&& slots[s as int]->Some_0.prev == (if i == 0 { None } else { Some(order[i - 1]) })
    &&& slots[s as int]->Some_0.next == (if i + 1 == order.len() { None } else { Some(order[i + 1]) })
}

impl<W> LinkedList<W> {
    /// The slot of the entry at position `i`, counted from the head.
    pub closed spec fn slot_at(self, i: int) -> usize {
        self.order@[i]
    }

    /// The entries from head to tail: each with its handle and its channel.
    pub closed spec fn view(self) -> Seq<(Handle, W)> {
        self.order@.map_values(
            |s: usize| (Handle { slot: s, stamp: self.stamps@[s as int] }, self.slots@[s as int]->Some_0.stream),
        )
    }

    /// The handles from head to tail.
    pub open spec fn handles(self) -> Seq<Handle> {
        self.view().map_values(|e: (Handle, W)| e.0)
    }

    /// `b` is what removing the entry named `h` makes of `a`.
    pub open spec fn removed_from(a: Self, b: Self, h: Handle) -> bool {
        &&& forall|i: int| 0 <= i < a.view().len() && a.handles()[i] == h
            ==> b.view() == a.view().remove(i)
        &&& !a.handles().contains(h) ==> b.view() == a.view()
    }

    /// The stamp that the next added entry will carry.
    pub closed spec fn next_stamp(self) -> u64 {
        self.next_stamp
    }

    closed spec fn entry_at_ok(self, i: int) -> bool {
        entry_ok(self.slots@, self.stamps@, self.next_stamp, self.order@, i)
    }

    pub closed spec fn wf(self) -> bool {
        let order = self.order@;
        &&& self.stamps@.len() == self.slots@.len()
        &&& order.len() <= self.slots@.len()
        &&& order.no_duplicates()
        &&& forall|i: int| 0 <= i < order.len() ==> #[trigger] self.entry_at_ok(i)
        &&& forall|s: int| 0 <= s < self.slots@.len() && (#[trigger] self.slots@[s]) is Some
            ==> exists|i: int| 0 <= i < order.len() && order[i] == s
        &&& self.head == (if order.len() == 0 { None } else { Some(order[0]) })
    }

    pub fn new() -> (r: LinkedList<W>)
        ensures
            r.wf(),
            r.view() == Seq::<(Handle, W)>::empty(),
            r.next_stamp() == 0,
    {
        LinkedList {
            slots: Vec::new(),
            stamps: Vec::new(),
            free: Vec::new(),
            head: None,
            next_stamp: 0,
            order: Ghost(Seq::empty()),
        }
    }

    /// Finds a free slot: one taken from the free list when it is still empty,
    /// else a fresh one at the end of the arena (`slots.len()` is returned then).
    fn take_free_slot(&mut self) -> (r: usize)
        requires
            old(self).wf(),
        ensures
            final(self).wf(),
            final(self).slots == old(self).slots,
            final(self).stamps == old(self).stamps,
            final(self).head == old(self).head,
            final(self).next_stamp == old(self).next_stamp,
            final(self).order == old(self).order,
            r <= old(self).slots@.len(),
            r < old(self).slots@.len() ==> old(self).slots@[r as int] is None,
    {
        let r = match self.free.pop() {
            Some(j) => {
                if j < self.slots.len() && self.slots[j].is_none() {
                    j
                } else {
                    self.slots.len()
                }
            },
            None => self.slots.len(),
        };
        proof {
            assert forall|i: int| 0 <= i < self.order@.len() implies #[trigger] self.entry_at_ok(i) by {
                assert(old(self).entry_at_ok(i));
            };
        }
        r
    }

    /// Adds `value` as the new head and returns the handle of its entry.
    pub fn add(&mut self, value: W) -> (h: Handle)
        requires
            old(self).wf(),
            old(self).next_stamp() < u64::MAX,
        ensures
            final(self).wf(),
            final(self).view() == seq![(h, value)] + old(self).view(),
            h.stamp == old(self).next_stamp(),
            !old(self).handles().contains(h),
            final(self).next_stamp() == old(self).next_stamp() + 1,
    {
        let ghost old_order = self.order@;
        let slot = self.take_free_slot();
        let stamp = self.next_stamp;
        self.next_stamp = stamp + 1;
        let old_head = self.head;
        let node = LLNode::new(value, old_head, None);
        if slot == self.slots.len() {
            self.slots.push(Some(node));
            self.stamps.push(stamp);
        } else {
            self.slots.set(slot, Some(node));
            self.stamps.set(slot, stamp);
        }
        assert forall|k: int| 0 <= k < old_order.len() implies old_order[k] != slot by {
            assert(old(self).entry_at_ok(k));
        };
        if let Some(oh) = old_head {
            assert(old(self).entry_at_ok(0));
            match &mut self.slots[oh] {
                Some(n) => { n.prev = Some(slot); },
                None => {},
            }
        }
        self.head = Some(slot);
        self.order = Ghost(seq![slot] + old_order);
        proof {
            Self::lemma_linked_front(*old(self), *self, slot);
            assert forall|k: int| 0 <= k < old_order.len() implies
                old(self).handles()[k] != (Handle { slot, stamp }) by {
                assert(old(self).entry_at_ok(k));
            };
        }
        Handle { slot, stamp }
    }

    /// The list with a new entry in the free slot `slot` linked in before the
    /// head is well formed, and holds that entry followed by the old ones.
    proof fn lemma_linked_front(a: Self, b: Self, slot: usize)
        requires
            a.wf(),
            slot <= a.slots@.len(),
            slot < a.slots@.len() ==> a.slots@[slot as int] is None,
            b.order@ == seq![slot] + a.order@,
            b.slots@.len() == (if slot == a.slots@.len() { a.slots@.len() + 1 } else { a.slots@.len() + 0 }),
            b.stamps@.len() == b.slots@.len(),
            b.next_stamp == a.next_stamp + 1,
            b.stamps@[slot as int] == a.next_stamp,
            b.slots@[slot as int] is Some,
            b.slots@[slot as int]->Some_0.next == a.head,
            b.slots@[slot as int]->Some_0.prev == None::<usize>,
            forall|sl: int| 0 <= sl < a.slots@.len() && sl != slot as int ==> #[trigger] b.stamps@[sl] == a.stamps@[sl],
            forall|sl: int| 0 <= sl < a.slots@.len() && sl != slot as int && (a.order@.len() == 0 || sl != a.order@[0] as int)
                ==> #[trigger] b.slots@[sl] == a.slots@[sl],
            a.order@.len() > 0 ==> b.slots@[a.order@[0] as int] == Some(LLNode {
                prev: Some(slot),
                ..a.slots@[a.order@[0] as int]->Some_0
            }),
            b.head == Some(slot),
        ensures
            b.wf(),
            b.view() == seq![(Handle { slot, stamp: a.next_stamp }, b.slots@[slot as int]->Some_0.stream)] + a.view(),
    {
        let ao = a.order@;
        let bo = b.order@;
        assert forall|k: int| 0 <= k < ao.len() implies ao[k] != slot by {
            assert(a.entry_at_ok(k));
        };
        assert(bo.no_duplicates());
        assert forall|k: int| 0 <= k < bo.len() implies #[trigger] b.entry_at_ok(k) by {
            if k > 0 {
                assert(a.entry_at_ok(k - 1));
                assert(bo[k] == ao[k - 1]);
                if k > 1 { assert(bo[k - 1] == ao[k - 2]); }
                if k < ao.len() { assert(bo[k + 1] == ao[k]); }
            } else if ao.len() > 0 {
                assert(bo[1] == ao[0]);
            }
        };
        assert forall|sl: int| 0 <= sl < b.slots@.len() && (#[trigger] b.slots@[sl]) is Some
            implies exists|k: int| 0 <= k < bo.len() && bo[k] == sl by {
            if sl == slot as int {
                assert(bo[0] == sl);
            } else if ao.len() > 0 && sl == ao[0] as int {
                assert(bo[1] == sl);
            } else {
                assert(sl < a.slots@.len());
                if ao.len() > 0 { assert(a.entry_at_ok(0)); }
                assert(b.slots@[sl] == a.slots@[sl]);
                assert(a.slots@[sl] is Some);
                let k = choose|k: int| 0 <= k < ao.len() && ao[k] == sl;
                assert(bo[k + 1] == sl);
            }
        };
        if slot < a.slots@.len() {
            assert forall|k: int| 0 <= k < bo.len() implies bo[k] < b.slots@.len() by {
                assert(b.entry_at_ok(k));
            };
            lemma_distinct_below(bo, b.slots@.len());
        }
        assert(b.view() =~= seq![(Handle { slot, stamp: a.next_stamp }, b.slots@[slot as int]->Some_0.stream)] + a.view()) by {
            assert forall|k: int| 0 < k < bo.len() implies #[trigger] b.view()[k] == a.view()[k - 1] by {
                assert(a.entry_at_ok(k - 1));
                assert(bo[k] == ao[k - 1]);
            };
        };
    }

    /// The list with the entry at position `i` unlinked is well formed, and
    /// holds the same entries but that one, in the same order.
    #[verifier::rlimit(40)]
    proof fn lemma_unlinked(a: Self, b: Self, i: int)
        requires
            a.wf(),
            0 <= i < a.order@.len(),
            b.order@ == a.order@.remove(i),
            b.slots@.len() == a.slots@.len(),
            b.stamps == a.stamps,
            b.next_stamp == a.next_stamp,
            b.slots@[a.order@[i] as int] is None,
            forall|sl: int| 0 <= sl < a.slots@.len() && sl != a.order@[i] as int
                && (i == 0 || sl != a.order@[i - 1] as int)
                && (i + 1 == a.order@.len() || sl != a.order@[i + 1] as int)
                ==> #[trigger] b.slots@[sl] == a.slots@[sl],
            i > 0 ==> b.slots@[a.order@[i - 1] as int] == Some(LLNode {
                next: a.slots@[a.order@[i] as int]->Some_0.next,
                ..a.slots@[a.order@[i - 1] as int]->Some_0
            }),
            i + 1 < a.order@.len() ==> b.slots@[a.order@[i + 1] as int] == Some(LLNode {
                prev: a.slots@[a.order@[i] as int]->Some_0.prev,
                ..a.slots@[a.order@[i + 1] as int]->Some_0
            }),
            b.head == (if i == 0 { a.slots@[a.order@[i] as int]->Some_0.next } else { a.head }),
        ensures
            b.wf(),
            b.view() == a.view().remove(i),
    {
        let ao = a.order@;
        let bo = b.order@;
        assert forall|k: int| 0 <= k < bo.len() implies #[trigger] b.entry_at_ok(k) by {
            let j = if k < i { k } else { k + 1 };
            assert(bo[k] == ao[j]);
            assert(a.entry_at_ok(j));
            assert(a.entry_at_ok(i));
            if j > 0 { assert(a.entry_at_ok(j - 1)); }
            if j + 1 < ao.len() { assert(a.entry_at_ok(j + 1)); }
            if k > 0 { assert(bo[k - 1] == ao[if k - 1 < i { k - 1 } else { k }]); }
            if k + 1 < bo.len() { assert(bo[k + 1] == ao[if k + 1 < i { k + 1 } else { k + 2 }]); }
        };
        assert forall|sl: int| 0 <= sl < b.slots@.len() && (#[trigger] b.slots@[sl]) is Some
            implies exists|k: int| 0 <= k < bo.len() && bo[k] == sl by {
            assert(a.entry_at_ok(i));
            if i > 0 { assert(a.entry_at_ok(i - 1)); }
            if i + 1 < ao.len() { assert(a.entry_at_ok(i + 1)); }
            assert(a.slots@[sl] is Some);
            let k = choose|k: int| 0 <= k < ao.len() && ao[k] == sl;
            if k < i {
                assert(bo[k] == sl);
            } else {
                assert(bo[k - 1] == sl);
            }
        };
        assert(a.entry_at_ok(i));
        if bo.len() > 0 {
            if i == 0 {
                assert(bo[0] == ao[1]);
            } else {
                assert(bo[0] == ao[0]);
            }
        }
        assert(b.view() =~= a.view().remove(i)) by {
            assert forall|k: int| 0 <= k < bo.len() implies #[trigger] b.view()[k] == a.view().remove(i)[k] by {
                let j = if k < i { k } else { k + 1 };
                assert(bo[k] == ao[j]);
                assert(a.entry_at_ok(j));
                assert(a.entry_at_ok(i));
                if j > 0 { assert(a.entry_at_ok(j - 1)); }
                if j + 1 < ao.len() { assert(a.entry_at_ok(j + 1)); }
            };
        };
    }

    /// Removes the entry that `value` names, if it is still in the list;
    /// a handle whose entry is gone leaves the list as it is.
    pub fn remove(&mut self, value: &Handle)
        requires
            old(self).wf(),
        ensures
            final(self).wf(),
            final(self).next_stamp() == old(self).next_stamp(),
            Self::removed_from(*old(self), *final(self), *value),
    {
        let ghost old_order = self.order@;
        let s = value.slot;
        proof {
            assert forall|i: int| 0 <= i < old_order.len() implies
                #[trigger] old(self).handles()[i] == (Handle { slot: old_order[i], stamp: self.stamps@[old_order[i] as int] }) by {};
        }
        if s < self.slots.len() && self.stamps[s] == value.stamp && self.slots[s].is_some() {
            let taken = self.slots[s].take();
            match taken {
                Some(node) => {
                    let ghost i = choose|i: int| 0 <= i < old_order.len() && old_order[i] == s;
                    assert(old(self).entry_at_ok(i));
                    proof {
                        if i > 0 { assert(old(self).entry_at_ok(i - 1)); }
                        if i + 1 < old_order.len() { assert(old(self).entry_at_ok(i + 1)); }
                    }
                    assert(old(self).handles()[i] == *value);
                    assert(old(self).handles().contains(*value));
                    let prev = node.prev;
                    let next = node.next;
                    match prev {
                        Some(p) => {
                            assert(p == old_order[i - 1]);
                            match &mut self.slots[p] {
                                Some(n) => { n.next = next; },
                                None => {},
                            }
                        },
                        None => { self.head = next; },
                    }
                    match next {
                        Some(q) => {
                            assert(q == old_order[i + 1]);
                            match &mut self.slots[q] {
                                Some(n) => { n.prev = prev; },
                                None => {},
                            }
                        },
                        None => {},
                    }
                    self.free.push(s);
                    let ghost new_order = old_order.remove(i);
                    self.order = Ghost(new_order);
                    proof {
                        assert forall|k: int| 0 <= k < old_order.len() && old_order[k] == s implies k == i by {};
                        Self::lemma_unlinked(*old(self), *self, i);
                        assert forall|j: int|
                            0 <= j < old(self).view().len() && old(self).handles()[j] == *value
                            implies j == i by {};
                    }
                },
                None => {},
            }
        } else {
            proof {
                assert forall|j: int| 0 <= j < old_order.len() implies
                    old(self).handles()[j] != *value by {
                    assert(old(self).entry_at_ok(j));
                };
            }
        }
    }

    /// Whether another entry can be added: stamps are not yet exhausted.
    pub fn can_add(&self) -> (r: bool)
        ensures
            r == (self.next_stamp() < u64::MAX),
    {
        self.next_stamp < u64::MAX
    }

    /// The number of entries, counted by walking the links from the head.
    pub fn size(&self) -> (r: usize)
        requires
            self.wf(),
        ensures
            r == self.view().len(),
    {
        let ghost order = self.order@;
        let mut count: usize = 0;
        let mut cur = self.head;
        while cur.is_some()
            invariant
                self.wf(),
                order == self.order@,
                count <= order.len(),
                order.len() <= self.slots@.len(),
                cur == (if count < order.len() { Some(order[count as int]) } else { None::<usize> }),
            decreases order.len() - count,
        {
            let s = cur.unwrap();
            proof {
                assert(self.entry_at_ok(count as int));
                assert(self.slots@.len() == self.slots.len());
            }
            cur = match &self.slots[s] {
                Some(n) => n.next,
                None => None,
            };
            count = count + 1;
        }
        count
    }

    /// The handles of all entries, from head to tail, found by walking the links.
    pub fn targets(&self) -> (r: Vec<Handle>)
        requires
            self.wf(),
        ensures
            r@ == self.handles(),
    {
        let ghost order = self.order@;
        let mut out: Vec<Handle> = Vec::new();
        let mut cur = self.head;
        while cur.is_some()
            invariant
                self.wf(),
                order == self.order@,
                out@.len() <= order.len(),
                out@ == self.handles().subrange(0, out@.len() as int),
                cur == (if out@.len() < order.len() { Some(order[out@.len() as int]) } else { None::<usize> }),
            decreases order.len() - out@.len(),
        {
            let s = cur.unwrap();
            proof {
                assert(self.entry_at_ok(out@.len() as int));
            }
            let h = Handle { slot: s, stamp: self.stamps[s] };
            out.push(h);
            proof {
                assert(out@ =~= self.handles().subrange(0, out@.len() as int));
            }
            cur = match &self.slots[s] {
                Some(n) => n.next,
                None => None,
            };
        }
        proof {
            assert(out@ =~= self.handles());
        }
        out
    }

    /// The channel of the entry that `h` names, if it is still in the list.
    pub fn get(&self, h: &Handle) -> (r: Option<&W>)
        requires
            self.wf(),
        ensures
            forall|i: int| 0 <= i < self.view().len() && self.handles()[i] == *h
                ==> r == Some(&self.view()[i].1),
            !self.handles().contains(*h) ==> r is None,
    {
        let s = h.slot;
        if s < self.slots.len() && self.stamps[s] == h.stamp {
            match &self.slots[s] {
                Some(n) => {
                    let ghost i = choose|i: int| 0 <= i < self.order@.len() && self.order@[i] == s;
                    proof {
                        assert(self.entry_at_ok(i));
                        assert(self.handles()[i] == *h);
                        assert forall|j: int| 0 <= j < self.view().len() && self.handles()[j] == *h
                            implies j == i by {
                            assert(self.entry_at_ok(j));
                        };
                    }
                    Some(&n.stream)
                },
                None => {
                    proof {
                        assert forall|j: int| 0 <= j < self.order@.len() implies self.handles()[j] != *h by {
                            assert(self.entry_at_ok(j));
                        };
                    }
                    None
                },
            }
        } else {
            proof {
                assert forall|j: int| 0 <= j < self.order@.len() implies self.handles()[j] != *h by {
                    assert(self.entry_at_ok(j));
                };
            }
            None
        }
    }

    /// No two entries share a handle.
    pub proof fn lemma_handles_distinct(self)
        requires
            self.wf(),
        ensures
            self.handles().no_duplicates(),
    {
        assert forall|i: int, j: int|
            0 <= i < self.handles().len() && 0 <= j < self.handles().len() && i != j
            implies self.handles()[i] != self.handles()[j] by {
            assert(self.entry_at_ok(i));
            assert(self.entry_at_ok(j));
        };
    }

    /// The entries left after removing `h` are the old ones but the entry of `h`.
    proof fn lemma_removed_members(a: Self, b: Self, h: Handle)
        requires
            a.wf(),
            Self::removed_from(a, b, h),
        ensures
            forall|e: (Handle, W)| b.view().contains(e) <==> (a.view().contains(e) && e.0 != h),
    {
        a.lemma_handles_distinct();
        if a.handles().contains(h) {
            let i = choose|i: int| 0 <= i < a.handles().len() && a.handles()[i] == h;
            assert forall|e: (Handle, W)| b.view().contains(e) <==> (a.view().contains(e) && e.0 != h) by {
                if b.view().contains(e) {
                    let k = choose|k: int| 0 <= k < b.view().len() && b.view()[k] == e;
                    let j = if k < i { k } else { k + 1 };
                    assert(a.view()[j] == e);
                    assert(a.handles()[j] == e.0);
                }
                if a.view().contains(e) && e.0 != h {
                    let j = choose|j: int| 0 <= j < a.view().len() && a.view()[j] == e;
                    assert(a.handles()[j] == e.0);
                    if j < i {
                        assert(b.view()[j] == e);
                    } else {
                        assert(b.view()[j - 1] == e);
                    }
                }
            };
        } else {
            assert forall|e: (Handle, W)| a.view().contains(e) implies e.0 != h by {
                let j = choose|j: int| 0 <= j < a.view().len() && a.view()[j] == e;
                assert(a.handles()[j] == e.0);
            };
        }
    }

    /// Removes every entry whose handle is in `failed`; handles of entries
    /// already gone are passed over.
    pub fn remove_all(&mut self, failed: &Vec<Handle>)
        requires
            old(self).wf(),
        ensures
            final(self).wf(),
            final(self).next_stamp() == old(self).next_stamp(),
            forall|e: (Handle, W)|
                final(self).view().contains(e) <==> (old(self).view().contains(e) && !failed@.contains(e.0)),
    {
        let mut k: usize = 0;
        while k < failed.len()
            invariant
                self.wf(),
                k <= failed@.len(),
                self.next_stamp() == old(self).next_stamp(),
                forall|e: (Handle, W)|
                    self.view().contains(e) <==> (old(self).view().contains(e)
                        && !failed@.subrange(0, k as int).contains(e.0)),
            decreases failed@.len() - k,
        {
            let ghost before = *self;
            self.remove(&failed[k]);
            proof {
                Self::lemma_removed_members(before, *self, failed@[k as int]);
                let done = failed@.subrange(0, k as int);
                let now = failed@.subrange(0, k + 1);
                assert(now =~= done.push(failed@[k as int]));
                assert forall|x: Handle| now.contains(x) <==> (done.contains(x) || x == failed@[k as int]) by {
                    if now.contains(x) {
                        let j = choose|j: int| 0 <= j < now.len() && now[j] == x;
                        if j < k { assert(done[j] == x); }
                    }
                    if done.contains(x) {
                        let j = choose|j: int| 0 <= j < done.len() && done[j] == x;
                        assert(now[j] == x);
                    }
                    if x == failed@[k as int] {
                        assert(now[k as int] == x);
                    }
                };
            }
            k = k + 1;
        }
        proof {
            assert(failed@.subrange(0, k as int) =~= failed@);
        }
    }

    /// No entry is counted twice: the number of entries is the number of
    /// distinct open connections.
    pub proof fn lemma_size_counts_open(self)
        requires
            self.wf(),
        ensures
            self.view().len() == self.handles().to_set().len(),
    {
        self.lemma_handles_distinct();
        self.handles().unique_seq_to_set();
    }

    /// Adding a connection opens exactly its handle, which was not open before,
    /// and the count grows by one.
    pub proof fn lemma_add_opens_one(a: Self, b: Self, h: Handle, value: W)
        requires
            a.wf(),
            b.wf(),
            b.view() == seq![(h, value)] + a.view(),
            !a.handles().contains(h),
        ensures
            b.handles().to_set() == a.handles().to_set().insert(h),
            b.view().len() == a.view().len() + 1,
            b.handles().to_set().len() == a.handles().to_set().len() + 1,
    {
        assert(b.handles() =~= seq![h] + a.handles());
        assert(b.handles().to_set() =~= a.handles().to_set().insert(h)) by {
            assert forall|x: Handle| b.handles().to_set().contains(x) implies a.handles().to_set().contains(x) || x == h by {
                let j = choose|j: int| 0 <= j < b.handles().len() && b.handles()[j] == x;
                if j > 0 { assert(a.handles()[j - 1] == x); }
            };
            assert forall|x: Handle| a.handles().to_set().contains(x) implies b.handles().to_set().contains(x) by {
                let j = choose|j: int| 0 <= j < a.handles().len() && a.handles()[j] == x;
                assert(b.handles()[j + 1] == x);
            };
            assert(b.handles()[0] == h);
        };
        a.lemma_size_counts_open();
        b.lemma_size_counts_open();
    }

    /// Removing a connection closes exactly its handle; the count drops by one
    /// when it was open, and stays when it was not (a second removal is no-op).
    pub proof fn lemma_remove_closes_one(a: Self, b: Self, h: Handle)
        requires
            a.wf(),
            b.wf(),
            Self::removed_from(a, b, h),
        ensures
            b.handles().to_set() == a.handles().to_set().remove(h),
            b.view().len() == (if a.handles().contains(h) { a.view().len() - 1 } else { a.view().len() as int }),
            !b.handles().contains(h),
    {
        Self::lemma_removed_members(a, b, h);
        assert(b.handles().to_set() =~= a.handles().to_set().remove(h)) by {
            assert forall|x: Handle| b.handles().to_set().contains(x) implies a.handles().to_set().contains(x) && x != h by {
                let j = choose|j: int| 0 <= j < b.handles().len() && b.handles()[j] == x;
                assert(b.view().contains(b.view()[j]));
                let k = choose|k: int| 0 <= k < a.view().len() && a.view()[k] == b.view()[j];
                assert(a.handles()[k] == x);
            };
            assert forall|x: Handle| a.handles().to_set().contains(x) && x != h implies b.handles().to_set().contains(x) by {
                let j = choose|j: int| 0 <= j < a.handles().len() && a.handles()[j] == x;
                assert(a.view().contains(a.view()[j]));
                let k = choose|k: int| 0 <= k < b.view().len() && b.view()[k] == a.view()[j];
                assert(b.handles()[k] == x);
            };
        };
        assert(!b.handles().to_set().contains(h));
        a.lemma_size_counts_open();
        b.lemma_size_counts_open();
    }

    /// Removing an entry leaves one entry fewer to walk, and the others keep
    /// their relative order: each remaining entry moves up by at most one place.
    pub proof fn lemma_remove_keeps_order(a: Self, b: Self, h: Handle)
        requires
            a.wf(),
            Self::removed_from(a, b, h),
            a.handles().contains(h),
        ensures
            b.view().len() == a.view().len() - 1,
            exists|i: int| 0 <= i < a.view().len() && a.handles()[i] == h
                && forall|k: int| 0 <= k < b.view().len()
                    ==> #[trigger] b.view()[k] == a.view()[if k < i { k } else { k + 1 }],
    {
        let i = choose|i: int| 0 <= i < a.handles().len() && a.handles()[i] == h;
        assert(b.view() == a.view().remove(i));
        assert forall|k: int| 0 <= k < b.view().len()
            implies #[trigger] b.view()[k] == a.view()[if k < i { k } else { k + 1 }] by {};
    }
}

} // verus!
