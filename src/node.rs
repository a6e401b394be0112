//! A doubly-linked list whose nodes live in a slab.
//!
//! Links between nodes are slot numbers, so there is no ownership cycle to break:
//! the list alone owns every node. A [`Handle`] names one node by its slot and by
//! the stamp that the slot carried when the node was created. Freeing a slot bumps
//! its stamp, so a handle to a node that has since been freed never resolves
//! again, even after its slot is reused.

use vstd::prelude::*;

verus! {

/// One element of the list: a value and the slots of its two neighbours.
pub struct Node<T: Copy> {
    pub value: T,
    pub next: Option<usize>,
    pub prev: Option<usize>,
}

impl<T: Copy> Node<T> {
    /// A node that is linked to nothing.
    pub fn new(value: T) -> (r: Self)
        ensures
            r.value == value,
            r.next is None,
            r.prev is None,
    {
        Node { value, next: None, prev: None }
    }
}

/// A non-owning reference to one node of a [`List`].
#[derive(Clone, Copy, Debug)]
pub struct Handle {
    slot: usize,
    stamp: u64,
}

/// What a slot of the slab holds at the moment.
#[derive(Clone, Copy, PartialEq, Eq, Structural)]
enum SlotState {
    /// A node that is part of the chain.
    Linked,
    /// A node that was taken out of the chain and may be put back.
    Detached,
    /// Nothing; the slot waits on the free list.
    Free,
    /// Nothing, and never again: its stamp ran out.
    Retired,
}

struct Slot<T: Copy> {
    node: Node<T>,
    stamp: u64,
    state: SlotState,
}

/// A doubly-linked list with O(1) push and pop at both ends and O(1) removal
/// or requeue of a node given its handle.
pub struct List<T: Copy> {
    slots: Vec<Slot<T>>,
    free: Vec<usize>,
    head: Option<usize>,
    tail: Option<usize>,
    count: usize,
    /// The slots of the chain, from head to tail.
    order: Ghost<Seq<usize>>,
}

impl<T: Copy> View for List<T> {
    type V = Seq<T>;

    /// The values of the list, from front to back.
    closed spec fn view(&self) -> Seq<T> {
        self.order@.map_values(|s: usize| self.slots@[s as int].node.value)
    }
}

impl<T: Copy> List<T> {
    spec fn state_of(&self, s: usize) -> SlotState {
        self.slots@[s as int].state
    }

    #[verifier::opaque]
    spec fn links_ok(&self) -> bool {
        let ord = self.order@;
        &&& forall|i: int|
            #![trigger ord[i]]
            0 <= i < ord.len() ==> {
                &&& ord[i] < self.slots@.len()
                &&& self.state_of(ord[i]) == SlotState::Linked
                &&& self.slots@[ord[i] as int].node.prev == (if i == 0 {
                    None
                } else {
                    Some(ord[i - 1])
                })
                &&& self.slots@[ord[i] as int].node.next == (if i == ord.len() - 1 {
                    None
                } else {
                    Some(ord[i + 1])
                })
            }
        &&& self.head == (if ord.len() == 0 {
            None
        } else {
            Some(ord[0])
        })
        &&& self.tail == (if ord.len() == 0 {
            None
        } else {
            Some(ord.last())
        })
    }

    #[verifier::opaque]
    spec fn slots_ok(&self) -> bool {
        let n = self.slots@.len();
        &&& forall|s: usize|
            s < n && self.state_of(s) == SlotState::Linked ==> #[trigger] self.order@.contains(s)
        &&& forall|j: int|
            #![trigger self.free@[j]]
            0 <= j < self.free@.len() ==> self.free@[j] < n && self.state_of(self.free@[j])
                == SlotState::Free
        &&& forall|s: usize|
            s < n && self.state_of(s) == SlotState::Free ==> #[trigger] self.free@.contains(s)
        &&& forall|s: usize|
            s < n && self.state_of(s) == SlotState::Detached ==> {
                &&& (#[trigger] self.slots@[s as int]).node.prev is None
                &&& self.slots@[s as int].node.next is None
            }
    }

    /// The list is well formed: the links trace the chain both ways, the entry
    /// points and the count agree with it, and the free list holds exactly the
    /// free slots.
    pub closed spec fn wf(&self) -> bool {
        &&& self.count == self.order@.len()
        &&& self.order@.no_duplicates()
        &&& self.free@.no_duplicates()
        &&& self.links_ok()
        &&& self.slots_ok()
    }

    /// The handles of the nodes of the chain, from front to back.
    pub closed spec fn handles(&self) -> Seq<Handle> {
        self.order@.map_values(|s: usize| Handle { slot: s, stamp: self.slots@[s as int].stamp })
    }

    /// `h` names a node of the chain.
    pub open spec fn is_live(&self, h: Handle) -> bool {
        self.handles().contains(h)
    }

    /// `h` names a node that was taken out of the chain and not freed.
    pub closed spec fn is_detached(&self, h: Handle) -> bool {
        &&& h.slot < self.slots@.len()
        &&& self.state_of(h.slot) == SlotState::Detached
        &&& self.slots@[h.slot as int].stamp == h.stamp
    }

    /// The value of the node that `h` names.
    pub closed spec fn value_at(&self, h: Handle) -> T {
        self.slots@[h.slot as int].node.value
    }

    /// `h` names a node that has been freed: it resolves to nothing, now and
    /// after any later operation on the list.
    pub closed spec fn is_expired(&self, h: Handle) -> bool {
        &&& h.slot < self.slots@.len()
        &&& {
            ||| h.stamp < self.slots@[h.slot as int].stamp
            ||| h.stamp == self.slots@[h.slot as int].stamp && self.state_of(h.slot)
                == SlotState::Retired
        }
    }

    /// Every handle that is expired in `self` is expired in `next` too.
    pub open spec fn expired_kept(&self, next: &Self) -> bool {
        forall|h: Handle| self.is_expired(h) ==> #[trigger] next.is_expired(h)
    }

    /// An empty list.
    pub fn new() -> (r: Self)
        ensures
            r.wf(),
            r@ == Seq::<T>::empty(),
    {
        proof {
            reveal(List::links_ok);
            reveal(List::slots_ok);
        }
        let r = List {
            slots: Vec::new(),
            free: Vec::new(),
            head: None,
            tail: None,
            count: 0,
            order: Ghost(Seq::empty()),
        };
        assert(r@ =~= Seq::<T>::empty());
        r
    }


    /// Takes a slot off the free list, or a new one, and puts a detached node
    /// holding `value` in it.
    fn allocate(&mut self, value: T) -> (h: Handle)
        requires
            old(self).wf(),
        ensures
            final(self).wf(),
            final(self)@ == old(self)@,
            final(self).handles() == old(self).handles(),
            old(self).expired_kept(&*final(self)),
            final(self).is_detached(h),
            final(self).value_at(h) == value,
    {
        proof {
            reveal(List::links_ok);
            reveal(List::slots_ok);
        }
        match self.free.pop() {
            Some(s) => {
                proof {
                    assert(old(self).free@.contains(s));
                }
                let stamp = self.slots[s].stamp;
                self.slots[s] = Slot { node: Node::new(value), stamp, state: SlotState::Detached };
                assert(self@ =~= old(self)@);
                assert(self.handles() =~= old(self).handles());
                assert forall|x: usize|
                    x < self.slots@.len() && self.state_of(x) == SlotState::Free implies
                    #[trigger] self.free@.contains(x) by {
                    assert(old(self).free@.contains(x));
                    let j = choose|j: int| 0 <= j < old(self).free@.len() && old(self).free@[j] == x;
                    assert(self.free@[j] == x);
                }
                Handle { slot: s, stamp }
            },
            None => {
                let s = self.slots.len();
                self.slots.push(Slot { node: Node::new(value), stamp: 0, state: SlotState::Detached });
                assert(self@ =~= old(self)@);
                assert(self.handles() =~= old(self).handles());
                Handle { slot: s, stamp: 0 }
            },
        }
    }

    /// Links the detached node `h` in at the back.
    pub fn push_node_back(&mut self, h: Handle)
        requires
            old(self).wf(),
            old(self).is_detached(h),
        ensures
            final(self).wf(),
            final(self)@ == old(self)@.push(old(self).value_at(h)),
            final(self).handles() == old(self).handles().push(h),
            old(self).expired_kept(&*final(self)),
    {
        let s = h.slot;
        let ghost ord = self.order@.push(s);
        assert((self.tail is None) == (self.order@.len() == 0)) by {
            reveal(List::links_ok);
        }
        assert(self.slots@[s as int].node.prev is None) by {
            reveal(List::slots_ok);
        }
        assert(self.tail matches Some(t) ==> t < self.slots@.len() && t != s) by {
            reveal(List::links_ok);
        }
        assert(!self.order@.contains(s) && forall|i: int|
            0 <= i < self.order@.len() ==> self.order@[i] < self.slots@.len()) by {
            reveal(List::links_ok);
        }
        proof {
            assert forall|a: int, b: int| 0 <= a < ord.len() && 0 <= b < ord.len() && a != b implies ord[a]
                != ord[b] by {
                if a < ord.len() - 1 && b < ord.len() - 1 {
                    assert(ord[a] == self.order@[a] && ord[b] == self.order@[b]);
                } else if a < ord.len() - 1 {
                    assert(ord[a] == self.order@[a]);
                } else if b < ord.len() - 1 {
                    assert(ord[b] == self.order@[b]);
                }
            }
            lemma_distinct_below(ord, self.slots@.len());
        }
        match self.tail {
            None => {
                self.head = Some(s);
            },
            Some(t) => {
                self.slots[s].node.prev = Some(t);
                self.slots[t].node.next = Some(s);
            },
        }
        self.tail = Some(s);
        self.slots[s].state = SlotState::Linked;
        self.order = Ghost(ord);
        assert(self.slots.len() == self.slots@.len());
        self.count = self.count + 1;
        proof {
            Self::lemma_linked_back(*old(self), *self, h);
        }
    }

    proof fn lemma_linked_back(o: Self, n: Self, h: Handle)
        requires
            o.wf(),
            o.is_detached(h),
            n.order@ == o.order@.push(h.slot),
            n.count == o.count + 1,
            n.free@ == o.free@,
            n.slots@.len() == o.slots@.len(),
            n.head == (if o.order@.len() == 0 {
                Some(h.slot)
            } else {
                o.head
            }),
            n.tail == Some(h.slot),
            n.slots@[h.slot as int] == (Slot {
                node: Node { prev: o.tail, ..o.slots@[h.slot as int].node },
                state: SlotState::Linked,
                ..o.slots@[h.slot as int]
            }),
            o.tail matches Some(t) ==> n.slots@[t as int] == (Slot {
                node: Node { next: Some(h.slot), ..o.slots@[t as int].node },
                ..o.slots@[t as int]
            }),
            forall|x: int|
                0 <= x < n.slots@.len() && x != h.slot && (o.tail matches Some(t) ==> x != t)
                    ==> n.slots@[x] == o.slots@[x],
        ensures
            n.wf(),
            n@ == o@.push(o.value_at(h)),
            n.handles() == o.handles().push(h),
            o.expired_kept(&n),
    {
        reveal(List::links_ok);
        reveal(List::slots_ok);
        let s = h.slot;
        let ord = n.order@;
        assert(!o.order@.contains(s));
        assert forall|i: int| 0 <= i < o.order@.len() implies #[trigger] ord[i] != s by {
            assert(o.order@[i] == ord[i]);
        }
        assert forall|i: int|
            #![trigger ord[i]]
            0 <= i < ord.len() implies {
            &&& ord[i] < n.slots@.len()
            &&& n.state_of(ord[i]) == SlotState::Linked
            &&& n.slots@[ord[i] as int].node.prev == (if i == 0 {
                None
            } else {
                Some(ord[i - 1])
            })
            &&& n.slots@[ord[i] as int].node.next == (if i == ord.len() - 1 {
                None
            } else {
                Some(ord[i + 1])
            })
        } by {
            if i < o.order@.len() {
                assert(o.order@[i] == ord[i]);
                if i < o.order@.len() - 1 {
                    assert(ord[i] != ord[o.order@.len() - 1]);
                }
            }
        }
        assert(n.links_ok());
        assert forall|x: usize|
            x < n.slots@.len() && n.state_of(x) == SlotState::Linked implies
            #[trigger] n.order@.contains(x) by {
            if x != s {
                assert(o.order@.contains(x));
                let j = choose|j: int| 0 <= j < o.order@.len() && o.order@[j] == x;
                assert(ord[j] == x);
            } else {
                assert(ord[ord.len() - 1] == x);
            }
        }
        assert(n.slots_ok());
        assert(n@ =~= o@.push(o.value_at(h)));
        assert(n.handles() =~= o.handles().push(h));
    }

    /// Adds `value` at the back.
    pub fn push_back(&mut self, value: T)
        requires
            old(self).wf(),
        ensures
            final(self).wf(),
            final(self)@ == old(self)@.push(value),
            final(self).handles().drop_last() == old(self).handles(),
            old(self).expired_kept(&*final(self)),
    {
        let h = self.allocate(value);
        self.push_node_back(h);
        assert(self.handles().drop_last() =~= old(self).handles());
    }


    /// The position in the chain of the node that `h` names.
    pub open spec fn pos(&self, h: Handle) -> int {
        self.handles().index_of(h)
    }

    /// What well-formedness gives a user of handles: one handle per value, no
    /// two alike, none of them expired, each naming the value at its position.
    pub proof fn lemma_handles(&self)
        requires
            self.wf(),
        ensures
            self.handles().len() == self@.len(),
            self.handles().no_duplicates(),
            forall|h: Handle| self.is_expired(h) ==> !self.handles().contains(h),
            forall|i: int|
                0 <= i < self@.len() ==> #[trigger] self.value_at(self.handles()[i]) == self@[i],
    {
        reveal(List::links_ok);
        let hs = self.handles();
        assert forall|a: int, b: int| 0 <= a < hs.len() && 0 <= b < hs.len() && a != b implies hs[a]
            != hs[b] by {
            assert(hs[a].slot == self.order@[a] && hs[b].slot == self.order@[b]);
        }
        assert forall|h: Handle| self.is_expired(h) implies !hs.contains(h) by {
            if hs.contains(h) {
                let j = choose|j: int| 0 <= j < hs.len() && hs[j] == h;
                assert(self.order@[j] == h.slot);
            }
        }
    }

    /// `n` is `o` with the node that `h` names unlinked and detached.
    spec fn unlink_step(o: Self, n: Self, h: Handle) -> bool {
        let i = o.pos(h);
        let s = h.slot;
        let prev = o.slots@[s as int].node.prev;
        let next = o.slots@[s as int].node.next;
        &&& n.order@ == o.order@.remove(i)
        &&& n.count == o.count - 1
        &&& n.free@ == o.free@
        &&& n.slots@.len() == o.slots@.len()
        &&& n.head == (if prev is None {
            next
        } else {
            o.head
        })
        &&& n.tail == (if next is None {
            prev
        } else {
            o.tail
        })
        &&& n.slots@[s as int] == (Slot {
            node: Node { prev: None, next: None, ..o.slots@[s as int].node },
            state: SlotState::Detached,
            ..o.slots@[s as int]
        })
        &&& prev matches Some(p) ==> n.slots@[p as int] == (Slot {
            node: Node { next: next, ..o.slots@[p as int].node },
            ..o.slots@[p as int]
        })
        &&& next matches Some(x) ==> n.slots@[x as int] == (Slot {
            node: Node { prev: prev, ..o.slots@[x as int].node },
            ..o.slots@[x as int]
        })
        &&& forall|x: int|
            0 <= x < n.slots@.len() && x != s && (prev matches Some(p) ==> x != p) && (
            next matches Some(q) ==> x != q) ==> n.slots@[x] == o.slots@[x]
    
    }

    #[verifier::spinoff_prover]
    #[verifier::rlimit(40)]
    proof fn lemma_unlinked_links(o: Self, n: Self, h: Handle)
        requires
            o.wf(),
            o.is_live(h),
            Self::unlink_step(o, n, h),
        ensures
            n.links_ok(),
            n.order@.no_duplicates(),
    {
        reveal(List::links_ok);
        o.lemma_handles();
        let i = o.pos(h);
        let s = h.slot;
        let ord = n.order@;
        let oo = o.order@;
        assert(o.handles()[i] == h);
        assert(oo[i] == s);
        assert forall|a: int, b: int| 0 <= a < ord.len() && 0 <= b < ord.len() && a != b implies ord[a]
            != ord[b] by {
            let a2 = if a < i { a } else { a + 1 };
            let b2 = if b < i { b } else { b + 1 };
            assert(ord[a] == oo[a2] && ord[b] == oo[b2]);
        }
        assert forall|j: int|
            #![trigger ord[j]]
            0 <= j < ord.len() implies {
            &&& ord[j] < n.slots@.len()
            &&& n.state_of(ord[j]) == SlotState::Linked
            &&& n.slots@[ord[j] as int].node.prev == (if j == 0 {
                None
            } else {
                Some(ord[j - 1])
            })
            &&& n.slots@[ord[j] as int].node.next == (if j == ord.len() - 1 {
                None
            } else {
                Some(ord[j + 1])
            })
        } by {
            let j2 = if j < i { j } else { j + 1 };
            assert(ord[j] == oo[j2]);
            assert(oo[j2] != oo[i]);
            if j2 > 0 {
                assert(oo[j2 - 1] != oo[j2]);
            }
            if j2 < oo.len() - 1 {
                assert(oo[j2 + 1] != oo[j2]);
            }
            if i > 0 && j2 != i - 1 {
                assert(oo[j2] != oo[i - 1]);
            }
            if i < oo.len() - 1 && j2 != i + 1 {
                assert(oo[j2] != oo[i + 1]);
            }
            if j > 0 {
                let k2 = if j - 1 < i { j - 1 } else { j };
                assert(ord[j - 1] == oo[k2]);
            }
            if j < ord.len() - 1 {
                let k2 = if j + 1 < i { j + 1 } else { j + 2 };
                assert(ord[j + 1] == oo[k2]);
            }
        }
        if ord.len() > 0 {
            assert(ord[0] == (if i == 0 { oo[1] } else { oo[0] }));
            assert(ord.last() == (if i == oo.len() - 1 { oo[oo.len() - 2] } else { oo.last() }));
        }
    }

    #[verifier::spinoff_prover]
    #[verifier::rlimit(40)]
    proof fn lemma_unlinked(o: Self, n: Self, h: Handle)
        requires
            o.wf(),
            o.is_live(h),
            Self::unlink_step(o, n, h),
        ensures
            n.wf(),
            n@ == o@.remove(o.pos(h)),
            n.handles() == o.handles().remove(o.pos(h)),
            n.is_detached(h),
            n.value_at(h) == o@[o.pos(h)],
            o.expired_kept(&n),
    {
        reveal(List::links_ok);
        reveal(List::slots_ok);
        o.lemma_handles();
        let i = o.pos(h);
        let s = h.slot;
        let ord = n.order@;
        let oo = o.order@;
        assert(o.handles()[i] == h);
        assert(oo[i] == s);
        Self::lemma_unlinked_links(o, n, h);
        assert forall|x: usize|
            x < n.slots@.len() && n.state_of(x) == SlotState::Linked implies
            #[trigger] n.order@.contains(x) by {
            assert(x != s);
            assert(oo.contains(x));
            let j = choose|j: int| 0 <= j < oo.len() && oo[j] == x;
            assert(j != i);
            let j3 = if j < i { j } else { j - 1 };
            assert(ord[j3] == x);
        }
        assert forall|x: usize|
            x < n.slots@.len() && n.state_of(x) == SlotState::Detached implies {
            &&& (#[trigger] n.slots@[x as int]).node.prev is None
            &&& n.slots@[x as int].node.next is None
        } by {
            if x != s {
                if oo.contains(x) {
                    let j = choose|j: int| 0 <= j < oo.len() && oo[j] == x;
                    assert(oo[j] == x);
                }
            }
        }
        assert(n.slots_ok());
        assert(n@ =~= o@.remove(i));
        assert(n.handles() =~= o.handles().remove(i));
        assert forall|g: Handle| o.is_expired(g) implies #[trigger] n.is_expired(g) by {
            if g.slot != s {
                if oo.contains(g.slot) {
                    let j = choose|j: int| 0 <= j < oo.len() && oo[j] == g.slot;
                    assert(oo[j] == g.slot);
                }
            }
        }
    }

    /// Unlinks the node that `h` names from the chain, leaving it detached: its
    /// links are cleared, so it may be linked in again.
    pub fn remove_node(&mut self, h: Handle)
        requires
            old(self).wf(),
            old(self).is_live(h),
        ensures
            final(self).wf(),
            final(self)@ == old(self)@.remove(old(self).pos(h)),
            final(self).handles() == old(self).handles().remove(old(self).pos(h)),
            final(self).is_detached(h),
            final(self).value_at(h) == old(self)@[old(self).pos(h)],
            old(self).expired_kept(&*final(self)),
    {
        let s = h.slot;
        let ghost i = self.pos(h);
        proof {
            reveal(List::links_ok);
            self.lemma_handles();
            assert(self.handles()[i] == h);
            let oo = self.order@;
            if i > 0 {
                assert(oo[i - 1] != oo[i]);
            }
            if i < oo.len() - 1 {
                assert(oo[i + 1] != oo[i]);
            }
            if i > 0 && i < oo.len() - 1 {
                assert(oo[i - 1] != oo[i + 1]);
            }
            assert(oo[i] == s);
        }
        let prev = self.slots[s].node.prev;
        let next = self.slots[s].node.next;
        match prev {
            Some(p) => {
                self.slots[p].node.next = next;
            },
            None => {
                self.head = next;
            },
        }
        match next {
            Some(x) => {
                self.slots[x].node.prev = prev;
            },
            None => {
                self.tail = prev;
            },
        }
        self.slots[s].node.prev = None;
        self.slots[s].node.next = None;
        self.slots[s].state = SlotState::Detached;
        self.order = Ghost(self.order@.remove(i));
        self.count = self.count - 1;
        proof {
            Self::lemma_unlinked(*old(self), *self, h);
        }
    }

    /// Gives the slot of the detached node `h` back: its stamp moves on, so `h`
    /// and every earlier handle to the slot expire.
    fn release(&mut self, h: Handle)
        requires
            old(self).wf(),
            old(self).is_detached(h),
        ensures
            final(self).wf(),
            final(self)@ == old(self)@,
            final(self).handles() == old(self).handles(),
            final(self).is_expired(h),
            old(self).expired_kept(&*final(self)),
    {
        let s = h.slot;
        proof {
            reveal(List::links_ok);
            reveal(List::slots_ok);
            assert(!self.order@.contains(s));
            assert(!self.free@.contains(s));
        }
        if self.slots[s].stamp < u64::MAX {
            self.slots[s].stamp = self.slots[s].stamp + 1;
            self.slots[s].state = SlotState::Free;
            self.free.push(s);
            proof {
                assert forall|a: int, b: int|
                    0 <= a < self.free@.len() && 0 <= b < self.free@.len() && a != b implies
                    self.free@[a] != self.free@[b] by {
                    if a < self.free@.len() - 1 {
                        assert(self.free@[a] == old(self).free@[a]);
                    }
                    if b < self.free@.len() - 1 {
                        assert(self.free@[b] == old(self).free@[b]);
                    }
                }
                assert forall|x: usize|
                    x < self.slots@.len() && self.state_of(x) == SlotState::Free implies
                    #[trigger] self.free@.contains(x) by {
                    if x != s {
                        assert(old(self).free@.contains(x));
                        let j = choose|j: int| 0 <= j < old(self).free@.len() && old(self).free@[j] == x;
                        assert(self.free@[j] == x);
                    } else {
                        assert(self.free@[self.free@.len() - 1] == x);
                    }
                }
            }
        } else {
            self.slots[s].state = SlotState::Retired;
        }
        proof {
            assert forall|i: int| 0 <= i < self.order@.len() implies #[trigger] self.order@[i] != s by {
                assert(old(self).order@.contains(self.order@[i]));
            }
            assert(self@ =~= old(self)@);
            assert(self.handles() =~= old(self).handles());
            assert(self.links_ok());
            assert(self.slots_ok());
        }
    }

    /// Removes the front value and returns it, or `None` when the list is empty.
    pub fn pop_front(&mut self) -> (r: Option<T>)
        requires
            old(self).wf(),
        ensures
            final(self).wf(),
            old(self).expired_kept(&*final(self)),
            old(self)@.len() == 0 ==> r is None && final(self)@ == old(self)@ && final(self).handles()
                == old(self).handles(),
            old(self)@.len() > 0 ==> {
                &&& r == Some(old(self)@[0])
                &&& final(self)@ == old(self)@.drop_first()
                &&& final(self).handles() == old(self).handles().drop_first()
                &&& final(self).is_expired(old(self).handles()[0])
            },
    {
        match self.head {
            None => {
                assert(self@.len() == 0) by {
                    reveal(List::links_ok);
                }
                None
            },
            Some(s) => {
                assert(s < self.slots@.len()) by {
                    reveal(List::links_ok);
                }
                let h = Handle { slot: s, stamp: self.slots[s].stamp };
                proof {
                    reveal(List::links_ok);
                    self.lemma_handles();
                    assert(self.handles()[0] == h);
                    assert(self.pos(h) == 0);
                }
                let value = self.slots[s].node.value;
                self.remove_node(h);
                self.release(h);
                assert(old(self)@.remove(0) =~= old(self)@.drop_first());
                assert(old(self).handles().remove(0) =~= old(self).handles().drop_first());
                Some(value)
            },
        }
    }

    /// Removes the back value and returns it, or `None` when the list is empty.
    pub fn pop_back(&mut self) -> (r: Option<T>)
        requires
            old(self).wf(),
        ensures
            final(self).wf(),
            old(self).expired_kept(&*final(self)),
            old(self)@.len() == 0 ==> r is None && final(self)@ == old(self)@ && final(self).handles()
                == old(self).handles(),
            old(self)@.len() > 0 ==> {
                &&& r == Some(old(self)@.last())
                &&& final(self)@ == old(self)@.drop_last()
                &&& final(self).handles() == old(self).handles().drop_last()
                &&& final(self).is_expired(old(self).handles().last())
            },
    {
        match self.tail {
            None => {
                assert(self@.len() == 0) by {
                    reveal(List::links_ok);
                }
                None
            },
            Some(s) => {
                assert(s < self.slots@.len()) by {
                    reveal(List::links_ok);
                }
                let h = Handle { slot: s, stamp: self.slots[s].stamp };
                let ghost last = self@.len() - 1;
                proof {
                    reveal(List::links_ok);
                    self.lemma_handles();
                    assert(self.handles()[last] == h);
                    assert(self.pos(h) == last);
                }
                let value = self.slots[s].node.value;
                self.remove_node(h);
                self.release(h);
                assert(old(self)@.remove(last) =~= old(self)@.drop_last());
                assert(old(self).handles().remove(last) =~= old(self).handles().drop_last());
                Some(value)
            },
        }
    }

    /// Links the detached node `h` in at the front.
    fn push_node_front(&mut self, h: Handle)
        requires
            old(self).wf(),
            old(self).is_detached(h),
        ensures
            final(self).wf(),
            final(self)@ == seq![old(self).value_at(h)] + old(self)@,
            final(self).handles() == seq![h] + old(self).handles(),
            old(self).expired_kept(&*final(self)),
    {
        let s = h.slot;
        let ghost ord = seq![s] + self.order@;
        assert((self.head is None) == (self.order@.len() == 0)) by {
            reveal(List::links_ok);
        }
        assert(self.slots@[s as int].node.next is None) by {
            reveal(List::slots_ok);
        }
        assert(self.head matches Some(t) ==> t < self.slots@.len() && t != s) by {
            reveal(List::links_ok);
        }
        assert(!self.order@.contains(s) && forall|i: int|
            0 <= i < self.order@.len() ==> self.order@[i] < self.slots@.len()) by {
            reveal(List::links_ok);
        }
        proof {
            assert forall|a: int, b: int| 0 <= a < ord.len() && 0 <= b < ord.len() && a != b implies ord[a]
                != ord[b] by {
                if a > 0 && b > 0 {
                    assert(ord[a] == self.order@[a - 1] && ord[b] == self.order@[b - 1]);
                } else if a > 0 {
                    assert(ord[a] == self.order@[a - 1]);
                } else if b > 0 {
                    assert(ord[b] == self.order@[b - 1]);
                }
            }
            lemma_distinct_below(ord, self.slots@.len());
        }
        match self.head {
            None => {
                self.tail = Some(s);
            },
            Some(t) => {
                self.slots[s].node.next = Some(t);
                self.slots[t].node.prev = Some(s);
            },
        }
        self.head = Some(s);
        self.slots[s].state = SlotState::Linked;
        self.order = Ghost(ord);
        assert(self.slots.len() == self.slots@.len());
        self.count = self.count + 1;
        proof {
            Self::lemma_linked_front(*old(self), *self, h);
        }
    }

    proof fn lemma_linked_front(o: Self, n: Self, h: Handle)
        requires
            o.wf(),
            o.is_detached(h),
            n.order@ == seq![h.slot] + o.order@,
            n.count == o.count + 1,
            n.free@ == o.free@,
            n.slots@.len() == o.slots@.len(),
            n.tail == (if o.order@.len() == 0 {
                Some(h.slot)
            } else {
                o.tail
            }),
            n.head == Some(h.slot),
            n.slots@[h.slot as int] == (Slot {
                node: Node { next: o.head, ..o.slots@[h.slot as int].node },
                state: SlotState::Linked,
                ..o.slots@[h.slot as int]
            }),
            o.head matches Some(t) ==> n.slots@[t as int] == (Slot {
                node: Node { prev: Some(h.slot), ..o.slots@[t as int].node },
                ..o.slots@[t as int]
            }),
            forall|x: int|
                0 <= x < n.slots@.len() && x != h.slot && (o.head matches Some(t) ==> x != t)
                    ==> n.slots@[x] == o.slots@[x],
        ensures
            n.wf(),
            n@ == seq![o.value_at(h)] + o@,
            n.handles() == seq![h] + o.handles(),
            o.expired_kept(&n),
    {
        reveal(List::links_ok);
        reveal(List::slots_ok);
        let s = h.slot;
        let ord = n.order@;
        let oo = o.order@;
        assert(!oo.contains(s));
        assert forall|i: int| 0 <= i < oo.len() implies #[trigger] oo[i] != s by {}
        assert forall|i: int|
            #![trigger ord[i]]
            0 <= i < ord.len() implies {
            &&& ord[i] < n.slots@.len()
            &&& n.state_of(ord[i]) == SlotState::Linked
            &&& n.slots@[ord[i] as int].node.prev == (if i == 0 {
                None
            } else {
                Some(ord[i - 1])
            })
            &&& n.slots@[ord[i] as int].node.next == (if i == ord.len() - 1 {
                None
            } else {
                Some(ord[i + 1])
            })
        } by {
            if i > 0 {
                assert(oo[i - 1] == ord[i]);
                if i > 1 {
                    assert(ord[i] != oo[0]);
                }
            }
        }
        assert(n.links_ok());
        assert forall|x: usize|
            x < n.slots@.len() && n.state_of(x) == SlotState::Linked implies
            #[trigger] n.order@.contains(x) by {
            if x != s {
                assert(oo.contains(x));
                let j = choose|j: int| 0 <= j < oo.len() && oo[j] == x;
                assert(ord[j + 1] == x);
            } else {
                assert(ord[0] == x);
            }
        }
        assert(n.slots_ok());
        assert(n@ =~= seq![o.value_at(h)] + o@);
        assert(n.handles() =~= seq![h] + o.handles());
    }

    /// Adds `value` at the front.
    pub fn push_front(&mut self, value: T)
        requires
            old(self).wf(),
        ensures
            final(self).wf(),
            final(self)@ == seq![value] + old(self)@,
            final(self).handles().drop_first() == old(self).handles(),
            old(self).expired_kept(&*final(self)),
    {
        let h = self.allocate(value);
        self.push_node_front(h);
        assert(self.handles().drop_first() =~= old(self).handles());
    }

    /// Moves the node that `h` names to the back. The node keeps its identity:
    /// `h` and every other handle to it still name it afterwards.
    pub fn move_node_to_back(&mut self, h: Handle)
        requires
            old(self).wf(),
            old(self).is_live(h),
        ensures
            final(self).wf(),
            final(self)@ == old(self)@.remove(old(self).pos(h)).push(old(self)@[old(self).pos(h)]),
            final(self).handles() == old(self).handles().remove(old(self).pos(h)).push(h),
            old(self).expired_kept(&*final(self)),
    {
        self.remove_node(h);
        self.push_node_back(h);
    }

    /// A handle to the back node, or `None` when the list is empty.
    pub fn get_weak_tail(&self) -> (r: Option<Handle>)
        requires
            self.wf(),
        ensures
            self@.len() == 0 ==> r is None,
            self@.len() > 0 ==> r == Some(self.handles().last()),
    {
        match self.tail {
            None => {
                assert(self@.len() == 0) by {
                    reveal(List::links_ok);
                }
                None
            },
            Some(s) => {
                assert(s < self.slots@.len() && self@.len() > 0 && self.order@.last() == s) by {
                    reveal(List::links_ok);
                }
                Some(Handle { slot: s, stamp: self.slots[s].stamp })
            },
        }
    }

    /// The value of the node that `h` names, or `None` when `h` names no node of
    /// the chain (it expired, was detached, or belongs to another list).
    pub fn get_value(&self, h: Handle) -> (r: Option<T>)
        requires
            self.wf(),
        ensures
            self.is_live(h) ==> r == Some(self@[self.pos(h)]),
            !self.is_live(h) ==> r is None,
    {
        proof {
            self.lemma_handles();
        }
        if h.slot < self.slots.len() {
            let slot = &self.slots[h.slot];
            if slot.stamp == h.stamp && slot.state == SlotState::Linked {
                proof {
                    reveal(List::slots_ok);
                    assert(self.order@.contains(h.slot));
                    let j = choose|j: int| 0 <= j < self.order@.len() && self.order@[j] == h.slot;
                    assert(self.handles()[j] == h);
                    assert(self.handles()[self.pos(h)] == h);
                }
                return Some(slot.node.value);
            }
        }
        proof {
            reveal(List::links_ok);
            if self.is_live(h) {
                let j = choose|j: int| 0 <= j < self.handles().len() && self.handles()[j] == h;
                assert(self.order@[j] == h.slot);
            }
        }
        None
    }

    /// Replaces the value of the node that `h` names.
    pub fn set_value(&mut self, h: Handle, value: T)
        requires
            old(self).wf(),
            old(self).is_live(h),
        ensures
            final(self).wf(),
            final(self)@ == old(self)@.update(old(self).pos(h), value),
            final(self).handles() == old(self).handles(),
            old(self).expired_kept(&*final(self)),
    {
        let ghost i = self.pos(h);
        proof {
            reveal(List::links_ok);
            self.lemma_handles();
            assert(self.handles()[i] == h);
            assert(self.order@[i] == h.slot);
        }
        self.slots[h.slot].node.value = value;
        proof {
            reveal(List::links_ok);
            reveal(List::slots_ok);
            assert(self.links_ok());
            assert(self.slots_ok());
            assert(self.handles() =~= old(self).handles());
            assert forall|j: int| 0 <= j < self.order@.len() && j != i implies self.order@[j]
                != h.slot by {}
            assert(self@ =~= old(self)@.update(i, value));
        }
    }

    /// A double-ended walk over the values: `next` takes them from the front,
    /// `next_back` from the back, and the two meet without overlap. The list
    /// cannot change while it is borrowed.
    pub fn iter(&self) -> (r: ListIterator<'_, T>)
        requires
            self.wf(),
        ensures
            r.wf(),
            r.items() == self@,
            r.front_pos() == 0,
            r.back_pos() == 0,
    {
        let r = ListIterator {
            list: self,
            current: self.head,
            current_back: self.tail,
            remaining: self.count,
            front: Ghost(0),
            back: Ghost(0),
        };
        assert(r.wf()) by {
            reveal(List::links_ok);
        }
        r
    }

    /// The number of values in the list.
    pub fn len(&self) -> (r: usize)
        requires
            self.wf(),
        ensures
            r == self@.len(),
    {
        self.count
    }
}


/// A double-ended walk over a borrowed [`List`]: `next` follows the forward
/// links from the front, `next_back` the backward links from the back, and each
/// value comes out once, from one end or the other.
pub struct ListIterator<'a, T: Copy> {
    list: &'a List<T>,
    current: Option<usize>,
    current_back: Option<usize>,
    /// How many values neither end has handed out yet.
    remaining: usize,
    /// How many values `next` has handed out.
    front: Ghost<int>,
    /// How many values `next_back` has handed out.
    back: Ghost<int>,
}

impl<'a, T: Copy> ListIterator<'a, T> {
    /// The values of the list, from front to back.
    pub closed spec fn items(&self) -> Seq<T> {
        self.list@
    }

    /// How many values `next` has handed out so far.
    pub closed spec fn front_pos(&self) -> int {
        self.front@
    }

    /// How many values `next_back` has handed out so far.
    pub closed spec fn back_pos(&self) -> int {
        self.back@
    }

    /// The two ends have not crossed, and each cursor sits at the position
    /// that its count gives.
    pub closed spec fn wf(&self) -> bool {
        let ord = self.list.order@;
        &&& self.list.wf()
        &&& 0 <= self.front@
        &&& 0 <= self.back@
        &&& self.front@ + self.back@ <= ord.len()
        &&& self.remaining == ord.len() - self.front@ - self.back@
        &&& self.current == (if self.front@ < ord.len() {
            Some(ord[self.front@])
        } else {
            None
        })
        &&& self.current_back == (if self.back@ < ord.len() {
            Some(ord[ord.len() - 1 - self.back@])
        } else {
            None
        })
    }

    /// The next value from the front, or `None` once every value has been
    /// handed out from one end or the other.
    pub fn next(&mut self) -> (r: Option<T>)
        requires
            old(self).wf(),
        ensures
            final(self).wf(),
            final(self).items() == old(self).items(),
            final(self).back_pos() == old(self).back_pos(),
            old(self).front_pos() + old(self).back_pos() < old(self).items().len() ==> {
                &&& r == Some(old(self).items()[old(self).front_pos()])
                &&& final(self).front_pos() == old(self).front_pos() + 1
            },
            old(self).front_pos() + old(self).back_pos() == old(self).items().len() ==> {
                &&& r is None
                &&& final(self).front_pos() == old(self).front_pos()
            },
    {
        if self.remaining == 0 {
            return None;
        }
        match self.current {
            None => None,
            Some(s) => {
                let ghost i = self.front@;
                assert(s < self.list.slots@.len() && self.list.order@[i] == s) by {
                    reveal(List::links_ok);
                }
                let node = &self.list.slots[s].node;
                self.current = node.next;
                self.remaining = self.remaining - 1;
                self.front = Ghost(i + 1);
                assert(self.wf()) by {
                    reveal(List::links_ok);
                }
                Some(node.value)
            },
        }
    }

    /// The next value from the back, or `None` once every value has been
    /// handed out from one end or the other.
    pub fn next_back(&mut self) -> (r: Option<T>)
        requires
            old(self).wf(),
        ensures
            final(self).wf(),
            final(self).items() == old(self).items(),
            final(self).front_pos() == old(self).front_pos(),
            old(self).front_pos() + old(self).back_pos() < old(self).items().len() ==> {
                &&& r == Some(old(self).items()[old(self).items().len() - 1 - old(self).back_pos()])
                &&& final(self).back_pos() == old(self).back_pos() + 1
            },
            old(self).front_pos() + old(self).back_pos() == old(self).items().len() ==> {
                &&& r is None
                &&& final(self).back_pos() == old(self).back_pos()
            },
    {
        if self.remaining == 0 {
            return None;
        }
        match self.current_back {
            None => None,
            Some(s) => {
                let ghost i = self.list.order@.len() - 1 - self.back@;
                assert(s < self.list.slots@.len() && self.list.order@[i] == s) by {
                    reveal(List::links_ok);
                }
                let node = &self.list.slots[s].node;
                self.current_back = node.prev;
                self.remaining = self.remaining - 1;
                self.back = Ghost(self.back@ + 1);
                assert(self.wf()) by {
                    reveal(List::links_ok);
                }
                Some(node.value)
            },
        }
    }
}

/// The contents of a list that held `s` after `push_back` of each of `vals`, in order.
pub open spec fn push_back_all<T>(s: Seq<T>, vals: Seq<T>) -> Seq<T>
    decreases vals.len(),
{
    if vals.len() == 0 {
        s
    } else {
        push_back_all(s.push(vals[0]), vals.drop_first())
    }
}

/// The contents of a list that held `s` after `push_front` of each of `vals`, in order.
pub open spec fn push_front_all<T>(s: Seq<T>, vals: Seq<T>) -> Seq<T>
    decreases vals.len(),
{
    if vals.len() == 0 {
        s
    } else {
        push_front_all(seq![vals[0]] + s, vals.drop_first())
    }
}

/// What `n` calls of `pop_front` hand back, one after the other, from a list
/// that holds `s`.
pub open spec fn pop_front_all<T>(s: Seq<T>, n: nat) -> Seq<Option<T>>
    decreases n,
{
    if n == 0 {
        Seq::empty()
    } else if s.len() == 0 {
        seq![None] + pop_front_all(s, (n - 1) as nat)
    } else {
        seq![Some(s[0])] + pop_front_all(s.drop_first(), (n - 1) as nat)
    }
}

proof fn lemma_push_back_all<T>(s: Seq<T>, vals: Seq<T>)
    ensures
        push_back_all(s, vals) == s + vals,
    decreases vals.len(),
{
    if vals.len() > 0 {
        lemma_push_back_all(s.push(vals[0]), vals.drop_first());
        assert(s.push(vals[0]) + vals.drop_first() =~= s + vals);
    } else {
        assert(s + vals =~= s);
    }
}

proof fn lemma_push_front_all<T>(s: Seq<T>, vals: Seq<T>)
    ensures
        push_front_all(s, vals) == Seq::new(vals.len(), |i: int| vals[vals.len() - 1 - i]) + s,
    decreases vals.len(),
{
    let rev = Seq::new(vals.len(), |i: int| vals[vals.len() - 1 - i]);
    if vals.len() > 0 {
        let rest = vals.drop_first();
        lemma_push_front_all(seq![vals[0]] + s, rest);
        let rev_rest = Seq::new(rest.len(), |i: int| rest[rest.len() - 1 - i]);
        assert(rev_rest + (seq![vals[0]] + s) =~= rev + s);
    } else {
        assert(rev + s =~= s);
    }
}

proof fn lemma_pop_front_all<T>(s: Seq<T>)
    ensures
        pop_front_all(s, s.len()) == s.map_values(|v: T| Some(v)),
    decreases s.len(),
{
    if s.len() > 0 {
        lemma_pop_front_all(s.drop_first());
        assert(seq![Some(s[0])] + s.drop_first().map_values(|v: T| Some(v)) =~= s.map_values(
            |v: T| Some(v),
        ));
    } else {
        assert(s.map_values(|v: T| Some(v)) =~= Seq::empty());
    }
}

/// First in, first out: values pushed at the back of an empty list come out of
/// the same number of front pops in the order they went in.
pub proof fn law_fifo<T>(vals: Seq<T>)
    ensures
        pop_front_all(push_back_all(Seq::empty(), vals), vals.len()) == vals.map_values(
            |v: T| Some(v),
        ),
{
    lemma_push_back_all(Seq::empty(), vals);
    assert(Seq::<T>::empty() + vals =~= vals);
    lemma_pop_front_all(vals);
}

/// Last in, first out: values pushed at the front of an empty list come out of
/// the same number of front pops in the reverse of the order they went in.
pub proof fn law_lifo<T>(vals: Seq<T>)
    ensures
        pop_front_all(push_front_all(Seq::empty(), vals), vals.len()) == Seq::new(
            vals.len(),
            |i: int| Some(vals[vals.len() - 1 - i]),
        ),
{
    let rev = Seq::new(vals.len(), |i: int| vals[vals.len() - 1 - i]);
    lemma_push_front_all(Seq::empty(), vals);
    assert(rev + Seq::<T>::empty() =~= rev);
    lemma_pop_front_all(rev);
    assert(rev.map_values(|v: T| Some(v)) =~= Seq::new(
        vals.len(),
        |i: int| Some(vals[vals.len() - 1 - i]),
    ));
}

/// A sequence of distinct slot numbers, all below `n`, has at most `n` items.
proof fn lemma_distinct_below(s: Seq<usize>, n: nat)
    requires
        s.no_duplicates(),
        forall|i: int| 0 <= i < s.len() ==> (s[i] as int) < n,
    ensures
        s.len() <= n,
    decreases n,
{
    if n == 0 {
        if s.len() > 0 {
            assert((s[0] as int) < 0);
        }
    } else if exists|j: int| 0 <= j < s.len() && s[j] as int == n - 1 {
        let j = choose|j: int| 0 <= j < s.len() && s[j] as int == n - 1;
        let r = s.remove(j);
        assert forall|a: int, b: int| 0 <= a < r.len() && 0 <= b < r.len() && a != b implies r[a]
            != r[b] by {
            let a2 = if a < j { a } else { a + 1 };
            let b2 = if b < j { b } else { b + 1 };
            assert(r[a] == s[a2] && r[b] == s[b2]);
        }
        assert forall|i: int| 0 <= i < r.len() implies (r[i] as int) < n - 1 by {
            let i2 = if i < j { i } else { i + 1 };
            assert(r[i] == s[i2]);
        }
        lemma_distinct_below(r, (n - 1) as nat);
    } else {
        lemma_distinct_below(s, (n - 1) as nat);
    }
}

} // verus!
