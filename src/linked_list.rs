use vstd::prelude::*;

verus! {

/// One slot-resident element of the chain: its value and the slot indices of
/// its neighbours toward the front and toward the back.
struct Node<T> {
    elem: T,
    front: Option<usize>,
    back: Option<usize>,
}

/// A doubly-linked sequence whose nodes live in an arena of slots and refer to
/// each other by slot index. Freed slots are recorded in a free list and reused.
pub struct DoublyLinkedList<T> {
    slots: Vec<Option<Node<T>>>,
    free: Vec<usize>,
    front: Option<usize>,
    back: Option<usize>,
    len: usize,
    /// The slot indices of the live nodes, from front to back.
    order: Ghost<Seq<usize>>,
}

impl<T> DoublyLinkedList<T> {
    spec fn node(&self, i: usize) -> Node<T> {
        self.slots@[i as int].unwrap()
    }

    /// The node at position `k` of `order` sits in a live slot whose links
    /// name its neighbours in `order`.
    spec fn live_at(slots: Seq<Option<Node<T>>>, order: Seq<usize>, k: int) -> bool {
        let i = order[k];
        &&& i < slots.len()
        &&& slots[i as int] is Some
        &&& slots[i as int].unwrap().front == (if k == 0 { None } else { Some(order[k - 1]) })
        &&& slots[i as int].unwrap().back == (if k + 1 == order.len() {
            None
        } else {
            Some(order[k + 1])
        })
    }

    /// Entry `j` of the free list names an empty slot.
    spec fn free_at(slots: Seq<Option<Node<T>>>, free: Seq<usize>, j: int) -> bool {
        let i = free[j];
        &&& i < slots.len()
        &&& slots[i as int] is None
    }

    spec fn chain_ok(
        slots: Seq<Option<Node<T>>>,
        free: Seq<usize>,
        front: Option<usize>,
        back: Option<usize>,
        len: usize,
        order: Seq<usize>,
    ) -> bool {
        &&& order.len() == len
        &&& order.no_duplicates()
        &&& forall|k: int| 0 <= k < order.len() ==> #[trigger] Self::live_at(slots, order, k)
        &&& free.no_duplicates()
        &&& forall|j: int| 0 <= j < free.len() ==> #[trigger] Self::free_at(slots, free, j)
        &&& len + free.len() == slots.len()
        &&& front == (if len == 0 { None } else { Some(order[0]) })
        &&& back == (if len == 0 { None } else { Some(order[len - 1]) })
    }

    spec fn values(slots: Seq<Option<Node<T>>>, order: Seq<usize>) -> Seq<T> {
        Seq::new(order.len(), |k: int| slots[order[k] as int].unwrap().elem)
    }

    #[verifier::inline]
    spec fn live_ok(&self, k: int) -> bool {
        Self::live_at(self.slots@, self.order@, k)
    }

    #[verifier::inline]
    spec fn free_ok(&self, j: int) -> bool {
        Self::free_at(self.slots@, self.free@, j)
    }

    /// Well-formedness: the live slots form one chain, front to back, with
    /// symmetric links, terminals that point nowhere outward, and every slot
    /// either live or on the free list.
    pub closed spec fn wf(&self) -> bool {
        Self::chain_ok(self.slots@, self.free@, self.front, self.back, self.len, self.order@)
    }

    /// The values held by the list, from front to back.
    pub closed spec fn view(&self) -> Seq<T> {
        Self::values(self.slots@, self.order@)
    }

    /// An empty list.
    pub fn new() -> (r: Self)
        ensures
            r.wf(),
            r@ == Seq::<T>::empty(),
    {
        let r = DoublyLinkedList {
            slots: Vec::new(),
            free: Vec::new(),
            front: None,
            back: None,
            len: 0,
            order: Ghost(Seq::empty()),
        };
        assert(r@ =~= Seq::<T>::empty());
        r
    }

    /// Places `node` in a free slot, reusing the most recently freed one, or
    /// in a new slot at the end of the arena; returns the slot's index.
    fn claim_slot(&mut self, node: Node<T>) -> (i: usize)
        requires
            old(self).wf(),
        ensures
            i <= old(self).slots@.len(),
            i < old(self).slots@.len() <==> old(self).free@.len() > 0,
            i < old(self).slots@.len() ==> i == old(self).free@.last()
                && final(self).slots@ == old(self).slots@.update(i as int, Some(node))
                && final(self).free@ == old(self).free@.drop_last(),
            i == old(self).slots@.len() ==> final(self).slots@ == old(self).slots@.push(Some(node))
                && final(self).free@ == old(self).free@,
            final(self).front == old(self).front,
            final(self).back == old(self).back,
            final(self).len == old(self).len,
            final(self).order == old(self).order,
    {
        match self.free.pop() {
            Some(i) => {
                proof {
                    assert(self.free@ =~= old(self).free@.drop_last());
                    assert(old(self).free_ok(old(self).free@.len() - 1));
                }
                self.slots.set(i, Some(node));
                i
            },
            None => {
                let i = self.slots.len();
                self.slots.push(Some(node));
                i
            },
        }
    }

    /// Takes the node out of slot `i` and puts the slot on the free list.
    fn release(&mut self, i: usize) -> (node: Node<T>)
        requires
            i < old(self).slots@.len(),
            old(self).slots@[i as int] is Some,
        ensures
            node == old(self).node(i),
            final(self).slots@ == old(self).slots@.update(i as int, None),
            final(self).free@ == old(self).free@.push(i),
            final(self).front == old(self).front,
            final(self).back == old(self).back,
            final(self).len == old(self).len,
            final(self).order == old(self).order,
    {
        let slot = self.slots[i].take();
        self.free.push(i);
        slot.unwrap()
    }

    /// Points the front link of the node in slot `i` at `link`.
    fn set_front_link(&mut self, i: usize, link: Option<usize>)
        requires
            i < old(self).slots@.len(),
            old(self).slots@[i as int] is Some,
        ensures
            final(self).slots@ == old(self).slots@.update(
                i as int,
                Some(Node { elem: old(self).node(i).elem, front: link, back: old(self).node(i).back }),
            ),
            final(self).free == old(self).free,
            final(self).front == old(self).front,
            final(self).back == old(self).back,
            final(self).len == old(self).len,
            final(self).order == old(self).order,
    {
        match &mut self.slots[i] {
            Some(n) => n.front = link,
            None => {},
        }
    }

    /// Points the back link of the node in slot `i` at `link`.
    fn set_back_link(&mut self, i: usize, link: Option<usize>)
        requires
            i < old(self).slots@.len(),
            old(self).slots@[i as int] is Some,
        ensures
            final(self).slots@ == old(self).slots@.update(
                i as int,
                Some(Node { elem: old(self).node(i).elem, front: old(self).node(i).front, back: link }),
            ),
            final(self).free == old(self).free,
            final(self).front == old(self).front,
            final(self).back == old(self).back,
            final(self).len == old(self).len,
            final(self).order == old(self).order,
    {
        match &mut self.slots[i] {
            Some(n) => n.back = link,
            None => {},
        }
    }

    /// Adds `elem` as the new front value.
    pub fn push_front(&mut self, elem: T)
        requires
            old(self).wf(),
        ensures
            final(self).wf(),
            final(self)@ == seq![elem].add(old(self)@),
    {
        let ghost old_self = *self;
        let i = self.claim_slot(Node { elem, front: None, back: self.front });
        proof {
            assert(self.slots@.len() == self.slots.len());
            assert forall|k: int| 0 <= k < old_self.order@.len() implies old_self.order@[k] != i by {
                assert(old_self.live_ok(k));
                if i < old_self.slots@.len() {
                    assert(old_self.free_ok(old_self.free@.len() - 1));
                }
            }
        }
        match self.front {
            Some(f) => {
                proof {
                    assert(old_self.live_ok(0));
                }
                self.set_front_link(f, Some(i));
            },
            None => {
                self.back = Some(i);
            },
        }
        let ghost mid = *self;
        self.front = Some(i);
        self.len = self.len + 1;
        self.order = Ghost(seq![i].add(self.order@));
        proof {
            let n = old_self.order@.len();
            assert forall|k: int| 0 <= k < self.order@.len() implies #[trigger] self.live_ok(k) by {
                if k > 0 {
                    assert(old_self.live_ok(k - 1));
                    assert(self.order@[k] == old_self.order@[k - 1]);
                }
            }
            assert forall|j: int| 0 <= j < self.free@.len() implies #[trigger] self.free_ok(j) by {
                assert(old_self.free_ok(j));
                if i < old_self.slots@.len() {
                    assert(old_self.free@[j] != i);
                }
            }
            assert(self@ =~= seq![elem].add(old_self@)) by {
                assert forall|k: int| 0 < k < self@.len() implies self@[k] == old_self@[k - 1] by {
                    assert(old_self.live_ok(k - 1));
                }
            }
        }
    }

    /// Adds `elem` as the new back value.
    pub fn push_back(&mut self, elem: T)
        requires
            old(self).wf(),
        ensures
            final(self).wf(),
            final(self)@ == old(self)@.push(elem),
    {
        let ghost old_self = *self;
        let i = self.claim_slot(Node { elem, front: self.back, back: None });
        proof {
            assert(self.slots@.len() == self.slots.len());
            assert forall|k: int| 0 <= k < old_self.order@.len() implies old_self.order@[k] != i by {
                assert(old_self.live_ok(k));
                if i < old_self.slots@.len() {
                    assert(old_self.free_ok(old_self.free@.len() - 1));
                }
            }
        }
        match self.back {
            Some(b) => {
                proof {
                    assert(old_self.live_ok(old_self.len - 1));
                }
                self.set_back_link(b, Some(i));
            },
            None => {
                self.front = Some(i);
            },
        }
        self.back = Some(i);
        self.len = self.len + 1;
        self.order = Ghost(self.order@.push(i));
        proof {
            assert forall|k: int| 0 <= k < self.order@.len() implies #[trigger] self.live_ok(k) by {
                if k < old_self.len {
                    assert(old_self.live_ok(k));
                }
            }
            assert forall|j: int| 0 <= j < self.free@.len() implies #[trigger] self.free_ok(j) by {
                assert(old_self.free_ok(j));
                if i < old_self.slots@.len() {
                    assert(old_self.free@[j] != i);
                }
            }
            assert(self@ =~= old_self@.push(elem)) by {
                assert forall|k: int| 0 <= k < old_self@.len() implies self@[k] == old_self@[k] by {
                    assert(old_self.live_ok(k));
                }
            }
        }
    }

    /// Removes the front value and returns it; `None` when the list is empty.
    pub fn pop_front(&mut self) -> (r: Option<T>)
        requires
            old(self).wf(),
        ensures
            final(self).wf(),
            old(self)@.len() == 0 ==> r is None && final(self)@ == old(self)@,
            old(self)@.len() > 0 ==> r == Some(old(self)@[0]) && final(self)@ == old(self)@.drop_first(),
    {
        let ghost old_self = *self;
        match self.front {
            None => None,
            Some(f) => {
                proof {
                    assert(old_self.live_ok(0));
                }
                let node = self.release(f);
                self.front = node.back;
                match node.back {
                    Some(nf) => {
                        proof {
                            assert(old_self.live_ok(1));
                            assert(old_self.order@[1] != old_self.order@[0]);
                        }
                        self.set_front_link(nf, None);
                    },
                    None => {
                        self.back = None;
                    },
                }
                self.len = self.len - 1;
                self.order = Ghost(self.order@.drop_first());
                proof {
                    assert forall|k: int| 0 <= k < self.order@.len() implies #[trigger] self.live_ok(k) by {
                        assert(old_self.live_ok(k + 1));
                        assert(old_self.order@[k + 1] != old_self.order@[0]);
                        if k > 0 {
                            assert(old_self.order@[k + 1] != old_self.order@[1]);
                        }
                    }
                    assert forall|j: int| 0 <= j < self.free@.len() implies #[trigger] self.free_ok(j) by {
                        if j < old_self.free@.len() {
                            assert(old_self.free_ok(j));
                        }
                    }
                    assert forall|a: int, b: int| 0 <= a < b < self.free@.len()
                        implies self.free@[a] != self.free@[b] by {
                        if b == old_self.free@.len() {
                            assert(old_self.free_ok(a));
                        }
                    }
                    assert(self@ =~= old_self@.drop_first()) by {
                        assert forall|k: int| 0 <= k < self@.len() implies self@[k] == old_self@[k + 1] by {
                            assert(old_self.live_ok(k + 1));
                            assert(old_self.order@[k + 1] != old_self.order@[0]);
                            if k > 0 {
                                assert(old_self.order@[k + 1] != old_self.order@[1]);
                            }
                        }
                    }
                }
                Some(node.elem)
            },
        }
    }

    /// Removes the back value and returns it; `None` when the list is empty.
    pub fn pop_back(&mut self) -> (r: Option<T>)
        requires
            old(self).wf(),
        ensures
            final(self).wf(),
            old(self)@.len() == 0 ==> r is None && final(self)@ == old(self)@,
            old(self)@.len() > 0 ==> r == Some(old(self)@.last()) && final(self)@ == old(self)@.drop_last(),
    {
        let ghost old_self = *self;
        let ghost n = old_self.order@.len();
        match self.back {
            None => None,
            Some(b) => {
                proof {
                    assert(old_self.live_ok(n - 1));
                }
                let node = self.release(b);
                self.back = node.front;
                match node.front {
                    Some(nb) => {
                        proof {
                            assert(old_self.live_ok(n - 2));
                            assert(old_self.order@[n - 2] != old_self.order@[n - 1]);
                        }
                        self.set_back_link(nb, None);
                    },
                    None => {
                        self.front = None;
                    },
                }
                self.len = self.len - 1;
                self.order = Ghost(self.order@.drop_last());
                proof {
                    assert forall|k: int| 0 <= k < self.order@.len() implies #[trigger] self.live_ok(k) by {
                        assert(old_self.live_ok(k));
                        assert(old_self.order@[k] != old_self.order@[n - 1]);
                        if k < n - 2 {
                            assert(old_self.order@[k] != old_self.order@[n - 2]);
                        }
                    }
                    assert forall|j: int| 0 <= j < self.free@.len() implies #[trigger] self.free_ok(j) by {
                        if j < old_self.free@.len() {
                            assert(old_self.free_ok(j));
                        }
                    }
                    assert forall|a: int, c: int| 0 <= a < c < self.free@.len()
                        implies self.free@[a] != self.free@[c] by {
                        if c == old_self.free@.len() {
                            assert(old_self.free_ok(a));
                        }
                    }
                    assert(self@ =~= old_self@.drop_last()) by {
                        assert forall|k: int| 0 <= k < self@.len() implies self@[k] == old_self@[k] by {
                            assert(old_self.live_ok(k));
                            assert(old_self.order@[k] != old_self.order@[n - 1]);
                            if k < n - 2 {
                                assert(old_self.order@[k] != old_self.order@[n - 2]);
                            }
                        }
                    }
                }
                Some(node.elem)
            },
        }
    }

    /// The slot of the node at position `index`, found by walking back links
    /// from the front; `None` when `index` is not below the length.
    fn get_at(&self, index: usize) -> (r: Option<usize>)
        requires
            self.wf(),
        ensures
            index < self.order@.len() ==> r == Some(self.order@[index as int]),
            index >= self.order@.len() ==> r is None,
    {
        let mut remaining: usize = index;
        let mut curr: Option<usize> = self.front;
        while remaining > 0
            invariant
                self.wf(),
                remaining <= index,
                index - remaining < self.order@.len() ==> curr == Some(self.order@[index - remaining]),
                index - remaining >= self.order@.len() ==> curr is None,
            decreases remaining,
        {
            match curr {
                Some(i) => {
                    proof {
                        assert(self.live_ok(index - remaining));
                    }
                    curr = self.slots[i].as_ref().unwrap().back;
                    remaining = remaining - 1;
                },
                None => {
                    return None;
                },
            }
        }
        curr
    }

    /// Removes the value at position `index`, counted from the front; does
    /// nothing when `index` is not below the length.
    pub fn remove_at(&mut self, index: usize)
        requires
            old(self).wf(),
        ensures
            final(self).wf(),
            index < old(self)@.len() ==> final(self)@ == old(self)@.remove(index as int),
            index >= old(self)@.len() ==> final(self)@ == old(self)@,
    {
        let ghost old_self = *self;
        let ghost k = index as int;
        let ghost n = old_self.order@.len();
        if let Some(i) = self.get_at(index) {
            proof {
                assert(old_self.live_ok(k));
                if k > 0 {
                    assert(old_self.live_ok(k - 1));
                }
                if k + 1 < n {
                    assert(old_self.live_ok(k + 1));
                }
            }
            let node = self.release(i);
            match node.front {
                Some(p) => self.set_back_link(p, node.back),
                None => self.front = node.back,
            }
            match node.back {
                Some(q) => self.set_front_link(q, node.front),
                None => self.back = node.front,
            }
            self.len = self.len - 1;
            self.order = Ghost(self.order@.remove(k));
            proof {
                assert forall|m: int| 0 <= m < self.order@.len() implies #[trigger] self.live_ok(m) by {
                    let om = if m < k { m } else { m + 1 };
                    assert(self.order@[m] == old_self.order@[om]);
                    assert(old_self.live_ok(om));
                    assert(old_self.order@[om] != old_self.order@[k]);
                    if k > 0 && om != k - 1 {
                        assert(old_self.order@[om] != old_self.order@[k - 1]);
                    }
                    if k + 1 < n && om != k + 1 {
                        assert(old_self.order@[om] != old_self.order@[k + 1]);
                    }
                }
                assert forall|j: int| 0 <= j < self.free@.len() implies #[trigger] self.free_ok(j) by {
                    if j < old_self.free@.len() {
                        assert(old_self.free_ok(j));
                    }
                }
                assert forall|a: int, c: int| 0 <= a < c < self.free@.len()
                    implies self.free@[a] != self.free@[c] by {
                    if c == old_self.free@.len() {
                        assert(old_self.free_ok(a));
                    }
                }
                assert(self@ =~= old_self@.remove(k)) by {
                    assert forall|m: int| 0 <= m < self@.len()
                        implies self@[m] == old_self@.remove(k)[m] by {
                        let om = if m < k { m } else { m + 1 };
                        assert(old_self.live_ok(om));
                        assert(old_self.order@[om] != old_self.order@[k]);
                        if k > 0 && om != k - 1 {
                            assert(old_self.order@[om] != old_self.order@[k - 1]);
                        }
                        if k + 1 < n && om != k + 1 {
                            assert(old_self.order@[om] != old_self.order@[k + 1]);
                        }
                    }
                }
            }
        }
    }

    /// Inserts `elem` between the node at position `index` and the node
    /// after it (toward the back), so that `elem` lands at position
    /// `index + 1`. The node at `index` must have a successor.
    pub fn insert_at(&mut self, elem: T, index: usize)
        requires
            old(self).wf(),
            index + 1 < old(self)@.len(),
        ensures
            final(self).wf(),
            final(self)@ == old(self)@.insert(index + 1, elem),
    {
        let ghost old_self = *self;
        let ghost k = index as int;
        let ghost n = old_self.order@.len();
        proof {
            assert(old_self.live_ok(k));
            assert(old_self.live_ok(k + 1));
        }
        let a = self.get_at(index).unwrap();
        let b = self.slots[a].as_ref().unwrap().back.unwrap();
        let i = self.claim_slot(Node { elem, front: Some(a), back: Some(b) });
        proof {
            assert(self.slots@.len() == self.slots.len());
            assert forall|m: int| 0 <= m < n implies old_self.order@[m] != i by {
                assert(old_self.live_ok(m));
                if i < old_self.slots@.len() {
                    assert(old_self.free_ok(old_self.free@.len() - 1));
                }
            }
        }
        self.set_back_link(a, Some(i));
        self.set_front_link(b, Some(i));
        self.len = self.len + 1;
        self.order = Ghost(self.order@.insert(k + 1, i));
        proof {
            assert forall|m: int| 0 <= m < self.order@.len() implies #[trigger] self.live_ok(m) by {
                if m != k + 1 {
                    let om = if m <= k { m } else { m - 1 };
                    assert(self.order@[m] == old_self.order@[om]);
                    assert(old_self.live_ok(om));
                    if om != k {
                        assert(old_self.order@[om] != old_self.order@[k]);
                    }
                    if om != k + 1 {
                        assert(old_self.order@[om] != old_self.order@[k + 1]);
                    }
                }
            }
            assert forall|j: int| 0 <= j < self.free@.len() implies #[trigger] self.free_ok(j) by {
                assert(old_self.free_ok(j));
                if i < old_self.slots@.len() {
                    assert(old_self.free@[j] != i);
                }
            }
            assert(self@ =~= old_self@.insert(k + 1, elem)) by {
                assert forall|m: int| 0 <= m < self@.len() && m != k + 1
                    implies self@[m] == old_self@.insert(k + 1, elem)[m] by {
                    let om = if m <= k { m } else { m - 1 };
                    assert(old_self.live_ok(om));
                    if om != k {
                        assert(old_self.order@[om] != old_self.order@[k]);
                    }
                    if om != k + 1 {
                        assert(old_self.order@[om] != old_self.order@[k + 1]);
                    }
                }
            }
        }
    }

    /// The front value, or `None` when the list is empty.
    pub fn front(&self) -> (r: Option<&T>)
        requires
            self.wf(),
        ensures
            self@.len() == 0 ==> r is None,
            self@.len() > 0 ==> r == Some(&self@[0]),
    {
        match self.front {
            Some(f) => {
                proof {
                    assert(self.live_ok(0));
                }
                Some(&self.slots[f].as_ref().unwrap().elem)
            },
            None => None,
        }
    }

    /// The back value, or `None` when the list is empty.
    pub fn back(&self) -> (r: Option<&T>)
        requires
            self.wf(),
        ensures
            self@.len() == 0 ==> r is None,
            self@.len() > 0 ==> r == Some(&self@.last()),
    {
        match self.back {
            Some(b) => {
                proof {
                    assert(self.live_ok(self.len - 1));
                }
                Some(&self.slots[b].as_ref().unwrap().elem)
            },
            None => None,
        }
    }

    /// Exclusive access to the value held in slot `i`, which must be live at
    /// position `k`.
    fn elem_mut(&mut self, i: usize, k: Ghost<int>) -> (r: &mut T)
        requires
            old(self).wf(),
            0 <= k@ < old(self).order@.len(),
            old(self).order@[k@] == i,
        ensures
            *r == old(self)@[k@],
            final(self).wf(),
            final(self)@ == old(self)@.update(k@, *final(r)),
            final(self).order == old(self).order,
    {
        let ghost old_self = *self;
        proof {
            assert(old_self.live_ok(k@));
        }
        let r = Self::slot_elem_mut(&mut self.slots, i);
        proof {
            Self::lemma_replace_elem(
                old_self.slots@,
                old_self.free@,
                old_self.front,
                old_self.back,
                old_self.len,
                old_self.order@,
                k@,
                *final(r),
            );
        }
        r
    }

    /// Exclusive access to the value of the node in slot `i`.
    fn slot_elem_mut(slots: &mut Vec<Option<Node<T>>>, i: usize) -> (r: &mut T)
        requires
            i < old(slots)@.len(),
            old(slots)@[i as int] is Some,
        ensures
            *r == old(slots)@[i as int].unwrap().elem,
            final(slots)@ == old(slots)@.update(
                i as int,
                Some(Node {
                    elem: *final(r),
                    front: old(slots)@[i as int].unwrap().front,
                    back: old(slots)@[i as int].unwrap().back,
                }),
            ),
    {
        &mut slots[i].as_mut().unwrap().elem
    }

    /// Replacing the value of the node at position `k` keeps the chain
    /// well-formed and replaces that one value of the sequence.
    proof fn lemma_replace_elem(
        slots: Seq<Option<Node<T>>>,
        free: Seq<usize>,
        front: Option<usize>,
        back: Option<usize>,
        len: usize,
        order: Seq<usize>,
        k: int,
        v: T,
    )
        requires
            Self::chain_ok(slots, free, front, back, len, order),
            0 <= k < order.len(),
        ensures
            ({
                let i = order[k] as int;
                let s2 = slots.update(
                    i,
                    Some(Node { elem: v, front: slots[i].unwrap().front, back: slots[i].unwrap().back }),
                );
                &&& Self::chain_ok(s2, free, front, back, len, order)
                &&& Self::values(s2, order) == Self::values(slots, order).update(k, v)
            }),
    {
        let i = order[k] as int;
        let s2 = slots.update(
            i,
            Some(Node { elem: v, front: slots[i].unwrap().front, back: slots[i].unwrap().back }),
        );
        assert(Self::live_at(slots, order, k));
        assert forall|m: int| 0 <= m < order.len() implies #[trigger] Self::live_at(s2, order, m) by {
            assert(Self::live_at(slots, order, m));
        }
        assert forall|j: int| 0 <= j < free.len() implies #[trigger] Self::free_at(s2, free, j) by {
            assert(Self::free_at(slots, free, j));
        }
        assert forall|m: int| 0 <= m < order.len() implies Self::values(s2, order)[m]
            == Self::values(slots, order).update(k, v)[m] by {
            assert(Self::live_at(slots, order, m));
            if m != k {
                assert(order[m] != order[k]);
            }
        }
        assert(Self::values(s2, order) =~= Self::values(slots, order).update(k, v));
    }

    /// Exclusive access to the front value, or `None` when the list is empty.
    pub fn front_mut(&mut self) -> (r: Option<&mut T>)
        requires
            old(self).wf(),
        ensures
            final(self).wf(),
            old(self)@.len() == 0 ==> r is None && final(self)@ == old(self)@,
            old(self)@.len() > 0 ==> r is Some && *r.unwrap() == old(self)@[0]
                && final(self)@ == old(self)@.update(0, *final(r.unwrap())),
    {
        match self.front {
            Some(f) => Some(self.elem_mut(f, Ghost(0))),
            None => None,
        }
    }

    /// Exclusive access to the back value, or `None` when the list is empty.
    pub fn back_mut(&mut self) -> (r: Option<&mut T>)
        requires
            old(self).wf(),
        ensures
            final(self).wf(),
            old(self)@.len() == 0 ==> r is None && final(self)@ == old(self)@,
            old(self)@.len() > 0 ==> r is Some && *r.unwrap() == old(self)@.last()
                && final(self)@ == old(self)@.update(old(self)@.len() - 1, *final(r.unwrap())),
    {
        match self.back {
            Some(b) => Some(self.elem_mut(b, Ghost(self.len - 1))),
            None => None,
        }
    }

    /// A double-ended view of the values, front to back.
    pub fn iter(&self) -> (r: DoublyLinkedListIter<'_, T>)
        requires
            self.wf(),
        ensures
            r.wf(),
            r@ == self@,
    {
        let r = DoublyLinkedListIter {
            list: self,
            front: self.front,
            back: self.back,
            len: self.len,
            start: Ghost(0),
        };
        assert(r@ =~= self@);
        r
    }

    /// A double-ended cursor that hands out exclusive access to each value
    /// in turn, front to back or back to front.
    pub fn iter_mut(&mut self) -> (r: DoublyLinkedListIterMut<'_, T>)
        requires
            old(self).wf(),
        ensures
            r.wf(),
            r@ == old(self)@,
            r.list() == *old(self),
    {
        let front = self.front;
        let back = self.back;
        let len = self.len;
        let r = DoublyLinkedListIterMut { list: self, front, back, len, start: Ghost(0) };
        assert(r@ =~= old(self)@);
        r
    }

    /// A double-ended iterator that takes the values out of the list.
    pub fn into_iter(self) -> (r: IntoDoublyLinkedListIter<T>)
        requires
            self.wf(),
        ensures
            r.wf(),
            r@ == self@,
    {
        IntoDoublyLinkedListIter { list: self }
    }

    /// The slot reached from `start` by following back links `steps` times.
    spec fn walk_back_links(&self, start: Option<usize>, steps: nat) -> Option<usize>
        decreases steps,
    {
        if steps == 0 {
            start
        } else {
            match self.walk_back_links(start, (steps - 1) as nat) {
                Some(i) => if i < self.slots@.len() && self.slots@[i as int] is Some {
                    self.node(i).back
                } else {
                    None
                },
                None => None,
            }
        }
    }

    /// The slot reached from `start` by following front links `steps` times.
    spec fn walk_front_links(&self, start: Option<usize>, steps: nat) -> Option<usize>
        decreases steps,
    {
        if steps == 0 {
            start
        } else {
            match self.walk_front_links(start, (steps - 1) as nat) {
                Some(i) => if i < self.slots@.len() && self.slots@[i as int] is Some {
                    self.node(i).front
                } else {
                    None
                },
                None => None,
            }
        }
    }

    /// A walk from the front along back links is still on a node after
    /// `k` steps.
    pub closed spec fn forward_walk_on_node(&self, k: nat) -> bool {
        self.walk_back_links(self.front, k) is Some
    }

    /// The values met walking from the front along back links, `n` steps.
    pub closed spec fn forward_values(&self, n: nat) -> Seq<T> {
        Seq::new(n, |k: int| self.node(self.walk_back_links(self.front, k as nat).unwrap()).elem)
    }

    /// The values met walking from the back along front links, `n` steps.
    pub closed spec fn backward_values(&self, n: nat) -> Seq<T> {
        Seq::new(n, |k: int| self.node(self.walk_front_links(self.back, k as nat).unwrap()).elem)
    }

    proof fn lemma_walks(&self)
        requires
            self.wf(),
        ensures
            forall|k: nat| k < self.len ==> #[trigger] self.walk_back_links(self.front, k)
                == Some(self.order@[k as int]),
            self.walk_back_links(self.front, self.len as nat) is None,
            forall|k: nat| k < self.len ==> #[trigger] self.walk_front_links(self.back, k)
                == Some(self.order@[self.len - 1 - k]),
    {
        let n = self.len as nat;
        assert forall|k: nat| k < n implies #[trigger] self.walk_back_links(self.front, k)
            == Some(self.order@[k as int]) by {
            self.lemma_walk_at(k);
        }
        assert forall|k: nat| k < n implies #[trigger] self.walk_front_links(self.back, k)
            == Some(self.order@[n - 1 - k]) by {
            self.lemma_walk_at(k);
        }
        if n > 0 {
            self.lemma_walk_at((n - 1) as nat);
            assert(self.live_ok(n - 1));
        }
    }

    proof fn lemma_walk_at(&self, k: nat)
        requires
            self.wf(),
            k < self.len,
        ensures
            self.walk_back_links(self.front, k) == Some(self.order@[k as int]),
            self.walk_front_links(self.back, k) == Some(self.order@[self.len - 1 - k]),
        decreases k,
    {
        if k > 0 {
            self.lemma_walk_at((k - 1) as nat);
            assert(self.live_ok(k - 1));
            assert(self.live_ok(self.len - k));
        }
    }

    /// The length is the number of nodes that a walk from the front along
    /// back links visits before running off the chain, and those nodes hold
    /// the list's values in order.
    pub proof fn lemma_len_counts_forward_walk(&self)
        requires
            self.wf(),
        ensures
            forall|k: nat| k < self@.len() ==> #[trigger] self.forward_walk_on_node(k),
            !self.forward_walk_on_node(self@.len()),
            self.forward_values(self@.len()) == self@,
    {
        self.lemma_walks();
        let n = self.len as nat;
        assert forall|k: nat| k < n implies #[trigger] self.forward_walk_on_node(k) by {
            assert(self.walk_back_links(self.front, k) == Some(self.order@[k as int]));
        }
        assert(self.forward_values(n) =~= self@);
    }

    /// A walk from the front along back links and a walk from the back
    /// along front links meet the same values in opposite orders.
    pub proof fn lemma_walks_mirror(&self)
        requires
            self.wf(),
        ensures
            self.forward_values(self@.len()) == self.backward_values(self@.len()).reverse(),
            self.backward_values(self@.len()) == self@.reverse(),
    {
        self.lemma_walks();
        let n = self.len as nat;
        assert(self.forward_values(n) =~= self@);
        assert(self.backward_values(n) =~= self@.reverse());
        assert(self.backward_values(n).reverse() =~= self@);
    }

    /// Applies `ops` in order and returns what each pop handed back, in
    /// order; the list ends as a plain double-ended queue would.
    pub fn apply_all(&mut self, ops: Vec<DequeOp<T>>) -> (r: Vec<Option<T>>)
        requires
            old(self).wf(),
        ensures
            final(self).wf(),
            final(self)@ == deque_replay(old(self)@, ops@).0,
            r@ == deque_replay(old(self)@, ops@).1,
    {
        let ghost all = ops@;
        let mut ops = ops;
        let mut pending: Vec<DequeOp<T>> = Vec::new();
        while ops.len() > 0
            invariant
                ops@ + pending@.reverse() == all,
            decreases ops.len(),
        {
            let op = ops.pop().unwrap();
            pending.push(op);
            proof {
                assert(ops@ + pending@.reverse() =~= all);
            }
        }
        let mut out: Vec<Option<T>> = Vec::new();
        let ghost start = self@;
        while pending.len() > 0
            invariant
                self.wf(),
                ({
                    let done = all.subrange(0, all.len() - pending@.len());
                    &&& all == done + pending@.reverse()
                    &&& self@ == deque_replay(start, done).0
                    &&& out@ == deque_replay(start, done).1
                }),
            decreases pending.len(),
        {
            let ghost done = all.subrange(0, all.len() - pending@.len());
            let op = pending.pop().unwrap();
            let ghost next = all.subrange(0, all.len() - pending@.len());
            proof {
                assert(next =~= done.push(op));
                assert(next.drop_last() =~= done);
            }
            match op {
                DequeOp::PushFront(v) => self.push_front(v),
                DequeOp::PushBack(v) => self.push_back(v),
                DequeOp::PopFront => {
                    let r = self.pop_front();
                    out.push(r);
                },
                DequeOp::PopBack => {
                    let r = self.pop_back();
                    out.push(r);
                },
            }
        }
        proof {
            assert(all.subrange(0, all.len() as int) =~= all);
        }
        out
    }

    /// The number of values in the list.
    pub fn len(&self) -> (r: usize)
        requires
            self.wf(),
        ensures
            r == self@.len(),
    {
        self.len
    }
}

impl<T> Default for DoublyLinkedList<T> {
    fn default() -> (r: Self)
        ensures
            r.wf(),
            r@ == Seq::<T>::empty(),
    {
        Self::new()
    }
}

/// One step of a double-ended queue.
pub enum DequeOp<T> {
    PushFront(T),
    PushBack(T),
    PopFront,
    PopBack,
}

/// A double-ended queue over a sequence: the contents after `op`, and what
/// `op` hands back if it is a pop (`None` also for a pop from empty).
pub open spec fn deque_step<T>(s: Seq<T>, op: DequeOp<T>) -> (Seq<T>, Option<T>) {
    match op {
        DequeOp::PushFront(v) => (seq![v] + s, None),
        DequeOp::PushBack(v) => (s.push(v), None),
        DequeOp::PopFront => if s.len() == 0 {
            (s, None)
        } else {
            (s.drop_first(), Some(s[0]))
        },
        DequeOp::PopBack => if s.len() == 0 {
            (s, None)
        } else {
            (s.drop_last(), Some(s.last()))
        },
    }
}

/// Replays `ops` on a double-ended queue holding `s`: the final contents,
/// and the results of the pops among `ops`, in order.
pub open spec fn deque_replay<T>(s: Seq<T>, ops: Seq<DequeOp<T>>) -> (Seq<T>, Seq<Option<T>>)
    decreases ops.len(),
{
    if ops.len() == 0 {
        (s, Seq::empty())
    } else {
        let prev = deque_replay(s, ops.drop_last());
        let step = deque_step(prev.0, ops.last());
        match ops.last() {
            DequeOp::PopFront | DequeOp::PopBack => (step.0, prev.1.push(step.1)),
            _ => (step.0, prev.1),
        }
    }
}

/// Inserting `v` after position `i` and then removing position `i` puts
/// `v` in place of the value that stood at `i`; so the sequence comes back
/// unchanged when that value was `v`.
pub proof fn lemma_insert_then_remove<T>(s: Seq<T>, i: int, v: T)
    requires
        0 <= i,
        i + 1 < s.len(),
    ensures
        s.insert(i + 1, v).remove(i) == s.update(i, v),
        s[i] == v ==> s.insert(i + 1, v).remove(i) == s,
{
    assert(s.insert(i + 1, v).remove(i) =~= s.update(i, v));
    if s[i] == v {
        assert(s.update(i, v) =~= s);
    }
}

/// A read-only, double-ended walk over a list.
pub struct DoublyLinkedListIter<'a, T> {
    list: &'a DoublyLinkedList<T>,
    front: Option<usize>,
    back: Option<usize>,
    len: usize,
    /// The position, in the list, of the next value from the front.
    start: Ghost<int>,
}

impl<'a, T> DoublyLinkedListIter<'a, T> {
    /// The cursors name the first and last of the remaining positions.
    pub closed spec fn wf(&self) -> bool {
        &&& self.list.wf()
        &&& 0 <= self.start@
        &&& self.start@ + self.len <= self.list.order@.len()
        &&& self.len > 0 ==> self.front == Some(self.list.order@[self.start@])
        &&& self.len > 0 ==> self.back == Some(self.list.order@[self.start@ + self.len - 1])
    }

    /// The values not yet handed out, front to back.
    pub closed spec fn view(&self) -> Seq<T> {
        self.list@.subrange(self.start@, self.start@ + self.len)
    }

    /// Hands out the front-most remaining value.
    pub fn next(&mut self) -> (r: Option<&'a T>)
        requires
            old(self).wf(),
        ensures
            final(self).wf(),
            old(self)@.len() == 0 ==> r is None && final(self)@ == old(self)@,
            old(self)@.len() > 0 ==> r == Some(&old(self)@[0]) && final(self)@
                == old(self)@.drop_first(),
    {
        if self.len > 0 {
            let list: &'a DoublyLinkedList<T> = self.list;
            proof {
                assert(list.live_ok(self.start@));
                if self.len > 1 {
                    assert(list.live_ok(self.start@ + 1));
                }
            }
            let node = list.slots[self.front.unwrap()].as_ref().unwrap();
            self.len = self.len - 1;
            self.front = node.back;
            self.start = Ghost(self.start@ + 1);
            proof {
                assert(self@ =~= old(self)@.drop_first());
            }
            Some(&node.elem)
        } else {
            None
        }
    }

    /// Hands out the back-most remaining value.
    pub fn next_back(&mut self) -> (r: Option<&'a T>)
        requires
            old(self).wf(),
        ensures
            final(self).wf(),
            old(self)@.len() == 0 ==> r is None && final(self)@ == old(self)@,
            old(self)@.len() > 0 ==> r == Some(&old(self)@.last()) && final(self)@
                == old(self)@.drop_last(),
    {
        if self.len > 0 {
            let list: &'a DoublyLinkedList<T> = self.list;
            proof {
                assert(list.live_ok(self.start@ + self.len - 1));
            }
            let node = list.slots[self.back.unwrap()].as_ref().unwrap();
            self.len = self.len - 1;
            self.back = node.front;
            proof {
                assert(self@ =~= old(self)@.drop_last());
            }
            Some(&node.elem)
        } else {
            None
        }
    }

    /// The exact number of values not yet handed out.
    pub fn len(&self) -> (r: usize)
        requires
            self.wf(),
        ensures
            r == self@.len(),
    {
        self.len
    }

    /// Lower and upper bound on the values left; both are exact.
    pub fn size_hint(&self) -> (r: (usize, Option<usize>))
        requires
            self.wf(),
        ensures
            r.0 == self@.len(),
            r.1 == Some(self@.len() as usize),
    {
        (self.len, Some(self.len))
    }
}

/// A double-ended walk over a list that grants exclusive access to one value
/// at a time.
pub struct DoublyLinkedListIterMut<'a, T> {
    list: &'a mut DoublyLinkedList<T>,
    front: Option<usize>,
    back: Option<usize>,
    len: usize,
    /// The position, in the list, of the next value from the front.
    start: Ghost<int>,
}

impl<'a, T> DoublyLinkedListIterMut<'a, T> {
    /// The list being walked, as it stands now.
    pub closed spec fn list(&self) -> DoublyLinkedList<T> {
        *self.list
    }

    /// The cursors name the first and last of the remaining positions.
    pub closed spec fn wf(&self) -> bool {
        &&& self.list.wf()
        &&& 0 <= self.start@
        &&& self.start@ + self.len <= self.list.order@.len()
        &&& self.len > 0 ==> self.front == Some(self.list.order@[self.start@])
        &&& self.len > 0 ==> self.back == Some(self.list.order@[self.start@ + self.len - 1])
    }

    /// The position, in the list, of the front-most value not yet reached.
    pub closed spec fn position(&self) -> int {
        self.start@
    }

    /// The values not yet reached, front to back.
    pub closed spec fn view(&self) -> Seq<T> {
        self.list@.subrange(self.start@, self.start@ + self.len)
    }

    /// Grants access to the front-most remaining value.
    pub fn next(&mut self) -> (r: Option<&mut T>)
        requires
            old(self).wf(),
        ensures
            final(self).wf(),
            old(self)@.len() == 0 ==> r is None && final(self)@ == old(self)@
                && final(self).list() == old(self).list(),
            old(self)@.len() > 0 ==> r is Some && *r.unwrap() == old(self)@[0]
                && final(self)@ == old(self)@.drop_first()
                && final(self).position() == old(self).position() + 1
                && final(self).list()@ == old(self).list()@.update(
                old(self).position(),
                *final(r.unwrap()),
            ),
    {
        if self.len > 0 {
            let ghost k = self.start@;
            let f = self.front.unwrap();
            proof {
                assert(self.list.live_ok(k));
                if self.len > 1 {
                    assert(self.list.live_ok(k + 1));
                }
            }
            let after = self.list.slots[f].as_ref().unwrap().back;
            self.len = self.len - 1;
            self.front = after;
            self.start = Ghost(k + 1);
            Some(self.list.elem_mut(f, Ghost(k)))
        } else {
            None
        }
    }

    /// Grants access to the back-most remaining value.
    pub fn next_back(&mut self) -> (r: Option<&mut T>)
        requires
            old(self).wf(),
        ensures
            final(self).wf(),
            old(self)@.len() == 0 ==> r is None && final(self)@ == old(self)@
                && final(self).list() == old(self).list(),
            old(self)@.len() > 0 ==> r is Some && *r.unwrap() == old(self)@.last()
                && final(self)@ == old(self)@.drop_last()
                && final(self).position() == old(self).position()
                && final(self).list()@ == old(self).list()@.update(
                old(self).position() + old(self)@.len() - 1,
                *final(r.unwrap()),
            ),
    {
        if self.len > 0 {
            let ghost k = self.start@ + self.len - 1;
            let b = self.back.unwrap();
            proof {
                assert(self.list.live_ok(k));
                if self.len > 1 {
                    assert(self.list.live_ok(k - 1));
                }
            }
            let before = self.list.slots[b].as_ref().unwrap().front;
            self.len = self.len - 1;
            self.back = before;
            Some(self.list.elem_mut(b, Ghost(k)))
        } else {
            None
        }
    }

    /// The exact number of values not yet reached.
    pub fn len(&self) -> (r: usize)
        requires
            self.wf(),
        ensures
            r == self@.len(),
    {
        self.len
    }

    /// Lower and upper bound on the values left; both are exact.
    pub fn size_hint(&self) -> (r: (usize, Option<usize>))
        requires
            self.wf(),
        ensures
            r.0 == self@.len(),
            r.1 == Some(self@.len() as usize),
    {
        (self.len, Some(self.len))
    }
}

/// A double-ended iterator that owns a list and takes its values out.
pub struct IntoDoublyLinkedListIter<T> {
    list: DoublyLinkedList<T>,
}

impl<T> IntoDoublyLinkedListIter<T> {
    pub closed spec fn wf(&self) -> bool {
        self.list.wf()
    }

    /// The values not yet taken, front to back.
    pub closed spec fn view(&self) -> Seq<T> {
        self.list@
    }

    /// Takes the front value out.
    pub fn next(&mut self) -> (r: Option<T>)
        requires
            old(self).wf(),
        ensures
            final(self).wf(),
            old(self)@.len() == 0 ==> r is None && final(self)@ == old(self)@,
            old(self)@.len() > 0 ==> r == Some(old(self)@[0]) && final(self)@
                == old(self)@.drop_first(),
    {
        self.list.pop_front()
    }

    /// Takes the back value out.
    pub fn next_back(&mut self) -> (r: Option<T>)
        requires
            old(self).wf(),
        ensures
            final(self).wf(),
            old(self)@.len() == 0 ==> r is None && final(self)@ == old(self)@,
            old(self)@.len() > 0 ==> r == Some(old(self)@.last()) && final(self)@
                == old(self)@.drop_last(),
    {
        self.list.pop_back()
    }

    /// The exact number of values not yet taken.
    pub fn len(&self) -> (r: usize)
        requires
            self.wf(),
        ensures
            r == self@.len(),
    {
        self.list.len()
    }

    /// Lower and upper bound on the values left; both are exact.
    pub fn size_hint(&self) -> (r: (usize, Option<usize>))
        requires
            self.wf(),
        ensures
            r.0 == self@.len(),
            r.1 == Some(self@.len() as usize),
    {
        let n = self.list.len();
        (n, Some(n))
    }
}

} // verus!
