use vstd::prelude::*;

use crate::error::ListError;

verus! {

/// A node of the arena: its value and the arena slots of its neighbours.
struct DoubleLinkedNode<T> {
    next: Option<usize>,
    prev: Option<usize>,
    element: T,
}

impl<T> DoubleLinkedNode<T> {
    fn new(element: T) -> (r: Self)
        ensures
            r.element == element,
            r.next is None,
            r.prev is None,
    {
        DoubleLinkedNode { next: None, prev: None, element }
    }

    fn into_element(self) -> (r: T)
        ensures
            r == self.element,
    {
        self.element
    }
}

/// A doubly-linked list whose nodes live in an arena and refer to each other
/// by slot number. Every slot of the arena holds a node of the list; removing
/// a node frees its slot by moving the last slot's node into it.
pub struct DoubleLinkedList<T> {
    nodes: Vec<DoubleLinkedNode<T>>,
    head: Option<usize>,
    tail: Option<usize>,
    len: usize,
    /// The slot of each position, first to last.
    order: Ghost<Seq<usize>>,
    /// The position of each slot.
    rank: Ghost<Seq<int>>,
}

impl<T> View for DoubleLinkedList<T> {
    type V = Seq<T>;

    closed spec fn view(&self) -> Seq<T> {
        Seq::new(self.order@.len(), |i: int| self.nodes@[self.order@[i] as int].element)
    }
}

/// The slot that follows position `i` of `order`, if any.
spec fn succ(order: Seq<usize>, i: int) -> Option<usize> {
    if i + 1 < order.len() {
        Some(order[i + 1])
    } else {
        None
    }
}

/// The slot that precedes position `i` of `order`, if any.
spec fn pred(order: Seq<usize>, i: int) -> Option<usize> {
    if i > 0 {
        Some(order[i - 1])
    } else {
        None
    }
}

/// Every node named by `order` links forward and backward to its neighbours
/// in `order`.
#[verifier::opaque]
spec fn chained<T>(nodes: Seq<DoubleLinkedNode<T>>, order: Seq<usize>) -> bool {
    &&& forall|i: int| 0 <= i < order.len() ==> (#[trigger] order[i] as int) < nodes.len()
    &&& forall|i: int|
        #![trigger nodes[order[i] as int]]
        0 <= i < order.len() ==> {
            &&& nodes[order[i] as int].next == succ(order, i)
            &&& nodes[order[i] as int].prev == pred(order, i)
        }
}

/// No slot occurs twice in `order`.
#[verifier::opaque]
spec fn distinct(order: Seq<usize>) -> bool {
    forall|i: int, j: int|
        0 <= i < order.len() && 0 <= j < order.len() && i != j ==> #[trigger] order[i]
            != #[trigger] order[j]
}

/// `rank` gives, for each of the `n` slots, a position of `order` that
/// names it.
#[verifier::opaque]
spec fn covers(order: Seq<usize>, rank: Seq<int>, n: int) -> bool {
    &&& rank.len() == n
    &&& forall|k: int|
        0 <= k < n ==> 0 <= #[trigger] rank[k] < order.len() && order[rank[k]] == k
}

/// `order` with slot `from` renamed to `to`.
spec fn renamed(order: Seq<usize>, from: usize, to: usize) -> Seq<usize> {
    Seq::new(order.len(), |i: int| if order[i] == from { to } else { order[i] })
}

/// The positions of the slots after a fresh slot is linked in at position `p`.
spec fn rank_after_link_in(rank: Seq<int>, p: int) -> Seq<int> {
    Seq::new(
        rank.len() + 1,
        |k: int|
            if k == rank.len() {
                p
            } else if rank[k] >= p {
                rank[k] + 1
            } else {
                rank[k]
            },
    )
}

/// The positions of the slots after position `p` is unlinked and the last
/// slot's node moves into the freed slot.
spec fn rank_after_unlink(order: Seq<usize>, rank: Seq<int>, p: int) -> Seq<int> {
    Seq::new(
        (rank.len() - 1) as nat,
        |s: int|
            {
                let t = if s == order[p] { rank.len() - 1 } else { s };
                if rank[t] > p {
                    rank[t] - 1
                } else {
                    rank[t]
                }
            },
    )
}

spec fn first_slot(order: Seq<usize>) -> Option<usize> {
    if order.len() == 0 {
        None
    } else {
        Some(order[0])
    }
}

spec fn last_slot(order: Seq<usize>) -> Option<usize> {
    if order.len() == 0 {
        None
    } else {
        Some(order[order.len() - 1])
    }
}

impl<T> DoubleLinkedList<T> {
    /// The list's internal invariant: `order` lists every slot of the arena
    /// once, and head, tail and every node's two links agree with it.
    pub closed spec fn wf(&self) -> bool {
        let n = self.nodes@.len();
        &&& self.len == n
        &&& self.order@.len() == n
        &&& distinct(self.order@)
        &&& covers(self.order@, self.rank@, n as int)
        &&& chained(self.nodes@, self.order@)
        &&& self.head == first_slot(self.order@)
        &&& self.tail == last_slot(self.order@)
    }

    /// An empty list.
    pub fn new() -> (r: Self)
        ensures
            r.wf(),
            r@ == Seq::<T>::empty(),
    {
        let r = DoubleLinkedList {
            nodes: Vec::new(),
            head: None,
            tail: None,
            len: 0,
            order: Ghost(Seq::empty()),
            rank: Ghost(Seq::empty()),
        };
        proof {
            reveal(chained);
            reveal(distinct);
            reveal(covers);
        }
        assert(r@ =~= Seq::<T>::empty());
        r
    }

    /// The number of values in the list.
    pub fn len(&self) -> (r: usize)
        requires
            self.wf(),
        ensures
            r == self@.len(),
    {
        self.len
    }

    /// Whether the list holds no value.
    pub fn is_empty(&self) -> (r: bool)
        requires
            self.wf(),
        ensures
            r == (self@.len() == 0),
    {
        self.len == 0
    }

    /// Links a fresh node holding `element` in at 0-based position `p`,
    /// between slot `before` (position `p - 1`) and slot `after` (position `p`).
    fn link_in(&mut self, element: T, before: Option<usize>, after: Option<usize>, Ghost(p): Ghost<int>)
        requires
            old(self).wf(),
            old(self)@.len() < usize::MAX,
            0 <= p <= old(self)@.len(),
            before == (if p == 0 { None } else { Some(old(self).order@[p - 1]) }),
            after == (if p == old(self)@.len() { None } else { Some(old(self).order@[p]) }),
        ensures
            final(self).wf(),
            final(self)@ == old(self)@.insert(p, element),
    {
        let ghost old_list = *self;
        proof {
            if p > 0 {
                lemma_chained_at(old_list.nodes@, old_list.order@, p - 1);
            }
            if p < old_list.order@.len() {
                lemma_chained_at(old_list.nodes@, old_list.order@, p);
                if p > 0 {
                    lemma_distinct_at(old_list.order@, p - 1, p);
                }
            }
        }
        let n = self.nodes.len();
        let mut node = DoubleLinkedNode::new(element);
        node.next = after;
        node.prev = before;
        self.nodes.push(node);
        match before {
            Some(a) => self.nodes[a].next = Some(n),
            None => self.head = Some(n),
        }
        match after {
            Some(b) => self.nodes[b].prev = Some(n),
            None => self.tail = Some(n),
        }
        self.len = n + 1;
        self.order = Ghost(old_list.order@.insert(p, n));
        self.rank = Ghost(rank_after_link_in(old_list.rank@, p));
        proof {
            lemma_link_in(old_list.nodes@, old_list.order@, p, self.nodes@);
            lemma_rank_after_link_in(old_list.order@, old_list.rank@, p);
        }
        assert(self@ =~= old_list@.insert(p, element));
    }

    /// Takes the node at 0-based position `p`, in slot `k`, out of the
    /// chain: its neighbours (or head and tail) now skip it, while its slot
    /// stays occupied.
    fn detach(&mut self, k: usize, Ghost(p): Ghost<int>)
        requires
            old(self).wf(),
            0 <= p < old(self)@.len(),
            k == old(self).order@[p],
        ensures
            final(self).nodes@.len() == old(self).nodes@.len(),
            final(self).order == old(self).order,
            final(self).rank == old(self).rank,
            final(self).len == old(self).len,
            chained(final(self).nodes@, old(self).order@.remove(p)),
            distinct(old(self).order@.remove(p)),
            forall|i: int|
                0 <= i < old(self).order@.len() - 1 ==> #[trigger] old(self).order@.remove(p)[i]
                    != k,
            final(self).head == first_slot(old(self).order@.remove(p)),
            final(self).tail == last_slot(old(self).order@.remove(p)),
            final(self).nodes@[k as int].element == old(self).nodes@[k as int].element,
            forall|i: int|
                0 <= i < old(self).order@.len() && i != p
                    ==> (#[trigger] final(self).nodes@[old(self).order@[i] as int]).element
                    == old(self).nodes@[old(self).order@[i] as int].element,
    {
        let ghost old_list = *self;
        let ghost order = old_list.order@;
        proof {
            lemma_chained_at(old_list.nodes@, order, p);
            if p > 0 {
                lemma_chained_at(old_list.nodes@, order, p - 1);
                lemma_distinct_at(order, p, p - 1);
            }
            if p + 1 < order.len() {
                lemma_chained_at(old_list.nodes@, order, p + 1);
                lemma_distinct_at(order, p, p + 1);
                if p > 0 {
                    lemma_distinct_at(order, p - 1, p + 1);
                }
            }
        }
        let before = self.nodes[k].prev;
        let after = self.nodes[k].next;
        match before {
            Some(a) => self.nodes[a].next = after,
            None => self.head = after,
        }
        match after {
            Some(b) => self.nodes[b].prev = before,
            None => self.tail = before,
        }
        proof {
            lemma_unlink(old_list.nodes@, order, p, self.nodes@);
        }
    }

    /// Frees slot `k`, which `order` does not name, by moving the node of the
    /// last slot into it and pointing that node's neighbours at `k`; hands
    /// back the node that was in slot `k`.
    fn fill_slot(&mut self, k: usize, Ghost(order): Ghost<Seq<usize>>, Ghost(q): Ghost<int>) -> (r:
        DoubleLinkedNode<T>)
        requires
            chained(old(self).nodes@, order),
            distinct(order),
            old(self).nodes@.len() == order.len() + 1,
            k < old(self).nodes@.len(),
            forall|i: int| 0 <= i < order.len() ==> #[trigger] order[i] != k,
            k != order.len() ==> 0 <= q < order.len() && order[q] == order.len(),
            old(self).head == first_slot(order),
            old(self).tail == last_slot(order),
        ensures
            r == old(self).nodes@[k as int],
            final(self).nodes@.len() == order.len(),
            final(self).order == old(self).order,
            final(self).rank == old(self).rank,
            final(self).len == old(self).len,
            chained(final(self).nodes@, renamed(order, order.len() as usize, k)),
            distinct(renamed(order, order.len() as usize, k)),
            final(self).head == first_slot(renamed(order, order.len() as usize, k)),
            final(self).tail == last_slot(renamed(order, order.len() as usize, k)),
            forall|i: int|
                0 <= i < order.len()
                    ==> (#[trigger] final(self).nodes@[renamed(order, order.len() as usize, k)[i] as int]).element
                    == old(self).nodes@[order[i] as int].element,
    {
        let ghost nodes1 = self.nodes@;
        let last = self.nodes.len() - 1;
        let removed = self.nodes.swap_remove(k);
        if k != last {
            // The node of the last slot now sits in slot `k`: point its
            // neighbours at its new slot.
            proof {
                lemma_chained_at(nodes1, order, q);
                if q > 0 {
                    lemma_chained_at(nodes1, order, q - 1);
                    lemma_distinct_at(order, q, q - 1);
                }
                if q + 1 < order.len() {
                    lemma_chained_at(nodes1, order, q + 1);
                    lemma_distinct_at(order, q, q + 1);
                    if q > 0 {
                        lemma_distinct_at(order, q - 1, q + 1);
                    }
                }
            }
            let moved_before = self.nodes[k].prev;
            let moved_after = self.nodes[k].next;
            match moved_before {
                Some(a) => self.nodes[a].next = Some(k),
                None => self.head = Some(k),
            }
            match moved_after {
                Some(b) => self.nodes[b].prev = Some(k),
                None => self.tail = Some(k),
            }
        }
        proof {
            let m = order.len() as int;
            if m > 0 {
                if k == last {
                    assert(order[0] != k);
                    assert(order[m - 1] != k);
                } else {
                    if q != 0 {
                        lemma_distinct_at(order, 0, q);
                    }
                    if q != m - 1 {
                        lemma_distinct_at(order, m - 1, q);
                    }
                }
            }
            lemma_move_slot(nodes1, order, k, q, self.nodes@);
        }
        removed
    }

    /// Unlinks the node at 0-based position `p`, which sits in slot `k`,
    /// frees its slot and hands back its value.
    fn unlink(&mut self, k: usize, Ghost(p): Ghost<int>) -> (r: T)
        requires
            old(self).wf(),
            0 <= p < old(self)@.len(),
            k == old(self).order@[p],
        ensures
            final(self).wf(),
            r == old(self)@[p],
            final(self)@ == old(self)@.remove(p),
    {
        let ghost old_list = *self;
        let ghost order = old_list.order@;
        let ghost order1 = order.remove(p);
        let last = self.nodes.len() - 1;
        proof {
            lemma_covers_at(order, old_list.rank@, last as int);
            lemma_chained_at(old_list.nodes@, order, p);
        }
        let ghost q: int = if old_list.rank@[last as int] > p {
            old_list.rank@[last as int] - 1
        } else {
            old_list.rank@[last as int]
        };
        self.detach(k, Ghost(p));
        let removed = self.fill_slot(k, Ghost(order1), Ghost(q));
        self.len = last;
        let ghost order2 = renamed(order1, last, k);
        self.order = Ghost(order2);
        self.rank = Ghost(rank_after_unlink(order, old_list.rank@, p));
        proof {
            lemma_rank_after_unlink(order, old_list.rank@, p);
            assert forall|i: int| 0 <= i < order2.len() implies self@[i] == old_list@.remove(p)[i] by {
                let i0 = if i < p { i } else { i + 1 };
                assert(order1[i] == order[i0]);
            }
        }
        assert(self@ =~= old_list@.remove(p));
        removed.into_element()
    }

    /// The slot of 0-based position `p`, found by walking from whichever
    /// end is nearer.
    fn slot_at(&self, p: usize) -> (r: usize)
        requires
            self.wf(),
            p < self@.len(),
        ensures
            r == self.order@[p as int],
    {
        let ghost order = self.order@;
        let n = self.len;
        if p <= n / 2 {
            let mut cur = self.head.unwrap();
            let mut i: usize = 0;
            while i < p
                invariant
                    self.wf(),
                    order == self.order@,
                    0 <= i <= p < n == order.len(),
                    cur == order[i as int],
                decreases p - i,
            {
                proof {
                    lemma_chained_at(self.nodes@, order, i as int);
                }
                cur = self.nodes[cur].next.unwrap();
                i = i + 1;
            }
            cur
        } else {
            let mut cur = self.tail.unwrap();
            let mut i: usize = n - 1;
            while i > p
                invariant
                    self.wf(),
                    order == self.order@,
                    0 <= p <= i < n == order.len(),
                    cur == order[i as int],
                decreases i - p,
            {
                proof {
                    lemma_chained_at(self.nodes@, order, i as int);
                }
                cur = self.nodes[cur].prev.unwrap();
                i = i - 1;
            }
            cur
        }
    }

    /// Puts `elt` before the first value.
    pub fn push_front(&mut self, elt: T)
        requires
            old(self).wf(),
            old(self)@.len() < usize::MAX,
        ensures
            final(self).wf(),
            final(self)@ == seq![elt] + old(self)@,
    {
        let ghost old_view = self@;
        let after = self.head;
        self.link_in(elt, None, after, Ghost(0));
        assert(self@ =~= seq![elt] + old_view);
    }

    /// Puts `elt` after the last value.
    pub fn push_back(&mut self, elt: T)
        requires
            old(self).wf(),
            old(self)@.len() < usize::MAX,
        ensures
            final(self).wf(),
            final(self)@ == old(self)@.push(elt),
    {
        let ghost old_view = self@;
        let before = self.tail;
        let n = self.len;
        self.link_in(elt, before, None, Ghost(n as int));
        assert(self@ =~= old_view.push(elt));
    }

    /// Removes and returns the first value; `None` when the list is empty.
    pub fn pop_front(&mut self) -> (r: Option<T>)
        requires
            old(self).wf(),
        ensures
            final(self).wf(),
            old(self)@.len() == 0 ==> r is None && final(self)@ == old(self)@,
            old(self)@.len() > 0 ==> r == Some(old(self)@[0]) && final(self)@ == old(self)@.drop_first(),
    {
        match self.head {
            None => None,
            Some(k) => {
                let ghost old_view = self@;
                let v = self.unlink(k, Ghost(0));
                assert(self@ =~= old_view.drop_first());
                Some(v)
            },
        }
    }

    /// Removes and returns the last value; `None` when the list is empty.
    pub fn pop_back(&mut self) -> (r: Option<T>)
        requires
            old(self).wf(),
        ensures
            final(self).wf(),
            old(self)@.len() == 0 ==> r is None && final(self)@ == old(self)@,
            old(self)@.len() > 0 ==> r == Some(old(self)@.last()) && final(self)@ == old(self)@.drop_last(),
    {
        match self.tail {
            None => None,
            Some(k) => {
                let ghost old_view = self@;
                let n = self.len;
                let v = self.unlink(k, Ghost(n - 1));
                assert(self@ =~= old_view.drop_last());
                Some(v)
            },
        }
    }

    /// Puts `element` at 1-based position `pos`, so that it is preceded by
    /// the first `pos - 1` values; `pos` may be anything from 1 to one past
    /// the length.
    pub fn insert(&mut self, element: T, pos: usize) -> (r: Result<(), ListError>)
        requires
            old(self).wf(),
            old(self)@.len() < usize::MAX,
        ensures
            final(self).wf(),
            r is Ok <==> 1 <= pos <= old(self)@.len() + 1,
            r is Ok ==> final(self)@ == old(self)@.insert(pos - 1, element),
            r is Err ==> r == Err::<(), ListError>(ListError::OutOfRange) && final(self)@ == old(self)@,
    {
        if pos < 1 || pos - 1 > self.len {
            return Err(ListError::OutOfRange);
        }
        let p = pos - 1;
        let before = if p == 0 {
            None
        } else {
            Some(self.slot_at(p - 1))
        };
        let after = if p == self.len {
            None
        } else {
            Some(self.slot_at(p))
        };
        self.link_in(element, before, after, Ghost(p as int));
        Ok(())
    }

    /// Removes the value at 1-based position `pos`, releases its node and
    /// returns the value.
    pub fn delete(&mut self, pos: usize) -> (r: Result<T, ListError>)
        requires
            old(self).wf(),
        ensures
            final(self).wf(),
            r is Ok <==> 1 <= pos <= old(self)@.len(),
            r is Ok ==> r == Ok::<T, ListError>(old(self)@[pos - 1]) && final(self)@ == old(self)@.remove(pos - 1),
            old(self)@.len() == 0 ==> r == Err::<T, ListError>(ListError::EmptyCollection),
            old(self)@.len() > 0 && !(1 <= pos <= old(self)@.len()) ==> r == Err::<T, ListError>(
                ListError::OutOfRange,
            ),
            r is Err ==> final(self)@ == old(self)@,
    {
        if self.len == 0 {
            return Err(ListError::EmptyCollection);
        }
        if pos < 1 || pos > self.len {
            return Err(ListError::OutOfRange);
        }
        let k = self.slot_at(pos - 1);
        Ok(self.unlink(k, Ghost(pos - 1)))
    }

    /// The value at 1-based position `pos`.
    pub fn get(&self, pos: usize) -> (r: Result<&T, ListError>)
        requires
            self.wf(),
        ensures
            match r {
                Ok(v) => 1 <= pos <= self@.len() && *v == self@[pos - 1],
                Err(e) => !(1 <= pos <= self@.len()) && e == ListError::OutOfRange,
            },
    {
        if pos < 1 || pos > self.len {
            return Err(ListError::OutOfRange);
        }
        let k = self.slot_at(pos - 1);
        proof {
            lemma_chained_at(self.nodes@, self.order@, pos - 1);
        }
        Ok(&self.nodes[k].element)
    }
}

impl<T> DoubleLinkedList<T> {
    /// The slot of the first node, if any.
    pub closed spec fn head_slot(&self) -> Option<usize> {
        self.head
    }

    /// The slot of the last node, if any.
    pub closed spec fn tail_slot(&self) -> Option<usize> {
        self.tail
    }

    /// Whether slot `s` holds a node.
    pub closed spec fn holds(&self, s: usize) -> bool {
        s < self.nodes@.len()
    }

    /// The forward link of the node in slot `s`.
    pub closed spec fn next_slot(&self, s: usize) -> Option<usize> {
        self.nodes@[s as int].next
    }

    /// The backward link of the node in slot `s`.
    pub closed spec fn prev_slot(&self, s: usize) -> Option<usize> {
        self.nodes@[s as int].prev
    }

    /// The slot reached from the head by following `steps` forward links.
    pub open spec fn walk_forward(&self, steps: nat) -> Option<usize>
        decreases steps,
    {
        if steps == 0 {
            self.head_slot()
        } else {
            match self.walk_forward((steps - 1) as nat) {
                Some(s) => self.next_slot(s),
                None => None,
            }
        }
    }

    /// The slot reached from the tail by following `steps` backward links.
    pub open spec fn walk_backward(&self, steps: nat) -> Option<usize>
        decreases steps,
    {
        if steps == 0 {
            self.tail_slot()
        } else {
            match self.walk_backward((steps - 1) as nat) {
                Some(s) => self.prev_slot(s),
                None => None,
            }
        }
    }
}

/// The length counts the nodes reachable from the head by forward links,
/// and equally those reachable from the tail by backward links: each walk
/// meets a node at every step below the length and runs out exactly there.
pub proof fn lemma_length_matches_walks<T>(list: &DoubleLinkedList<T>)
    requires
        list.wf(),
    ensures
        forall|i: nat| i < list@.len() ==> #[trigger] list.walk_forward(i) is Some,
        list.walk_forward(list@.len()) is None,
        forall|i: nat| i < list@.len() ==> #[trigger] list.walk_backward(i) is Some,
        list.walk_backward(list@.len()) is None,
{
    let n = list@.len();
    let order = list.order@;
    assert forall|i: nat| i <= n implies list.walk_forward(i) == (if i < n {
        Some(order[i as int])
    } else {
        None::<usize>
    }) by {
        lemma_walk_forward(list, i);
    }
    assert forall|i: nat| i <= n implies list.walk_backward(i) == (if i < n {
        Some(order[n - 1 - i])
    } else {
        None::<usize>
    }) by {
        lemma_walk_backward(list, i);
    }
}

proof fn lemma_walk_forward<T>(list: &DoubleLinkedList<T>, i: nat)
    requires
        list.wf(),
        i <= list@.len(),
    ensures
        list.walk_forward(i) == (if i < list@.len() {
            Some(list.order@[i as int])
        } else {
            None::<usize>
        }),
    decreases i,
{
    if i > 0 {
        lemma_walk_forward(list, (i - 1) as nat);
        lemma_chained_at(list.nodes@, list.order@, i - 1);
    }
}

proof fn lemma_walk_backward<T>(list: &DoubleLinkedList<T>, i: nat)
    requires
        list.wf(),
        i <= list@.len(),
    ensures
        list.walk_backward(i) == (if i < list@.len() {
            Some(list.order@[list@.len() - 1 - i])
        } else {
            None::<usize>
        }),
    decreases i,
{
    if i > 0 {
        lemma_walk_backward(list, (i - 1) as nat);
        lemma_chained_at(list.nodes@, list.order@, list@.len() - i);
    }
}

/// Back links mirror forward links: whenever the node in slot `a` links
/// forward to slot `b`, the node in slot `b` links back to `a`, and the
/// other way round.
pub proof fn lemma_back_links_mirror<T>(list: &DoubleLinkedList<T>, a: usize, b: usize)
    requires
        list.wf(),
        list.holds(a),
        list.holds(b),
    ensures
        list.next_slot(a) == Some(b) <==> list.prev_slot(b) == Some(a),
{
    let order = list.order@;
    let n = order.len() as int;
    lemma_covers_at(order, list.rank@, a as int);
    lemma_covers_at(order, list.rank@, b as int);
    let i = list.rank@[a as int];
    let j = list.rank@[b as int];
    lemma_chained_at(list.nodes@, order, i);
    lemma_chained_at(list.nodes@, order, j);
    if i + 1 < n && i + 1 != j {
        lemma_distinct_at(order, i + 1, j);
    }
    if j > 0 && j - 1 != i {
        lemma_distinct_at(order, j - 1, i);
    }
}

/// Linking a fresh slot `n` in at position `p` of a well-linked `order`
/// yields a well-linked `order.insert(p, n)`, given that only the fresh node
/// and its two new neighbours changed.
proof fn lemma_link_in<T>(
    nodes: Seq<DoubleLinkedNode<T>>,
    order: Seq<usize>,
    p: int,
    nodes1: Seq<DoubleLinkedNode<T>>,
)
    requires
        chained(nodes, order),
        distinct(order),
        order.len() == nodes.len(),
        nodes.len() < usize::MAX,
        0 <= p <= order.len(),
        nodes1.len() == nodes.len() + 1,
        nodes1[nodes.len() as int].next == (if p < order.len() { Some(order[p]) } else { None }),
        nodes1[nodes.len() as int].prev == (if p > 0 { Some(order[p - 1]) } else { None }),
        p > 0 ==> nodes1[order[p - 1] as int].next == Some(nodes.len() as usize),
        p > 0 ==> nodes1[order[p - 1] as int].prev == nodes[order[p - 1] as int].prev,
        p > 0 ==> nodes1[order[p - 1] as int].element == nodes[order[p - 1] as int].element,
        p < order.len() ==> nodes1[order[p] as int].prev == Some(nodes.len() as usize),
        p < order.len() ==> nodes1[order[p] as int].next == nodes[order[p] as int].next,
        p < order.len() ==> nodes1[order[p] as int].element == nodes[order[p] as int].element,
        forall|s: int|
            0 <= s < nodes.len() && (p == 0 || s != order[p - 1]) && (p == order.len() || s
                != order[p]) ==> #[trigger] nodes1[s] == nodes[s],
    ensures
        chained(nodes1, order.insert(p, nodes.len() as usize)),
        distinct(order.insert(p, nodes.len() as usize)),
        forall|i: int|
            0 <= i < order.len() ==> (#[trigger] nodes1[order[i] as int]).element
                == nodes[order[i] as int].element,
{
    reveal(chained);
    reveal(distinct);
    let n = nodes.len() as usize;
    let order1 = order.insert(p, n);
    assert forall|i: int| 0 <= i < order1.len() implies (#[trigger] order1[i] as int) < nodes1.len() by {
        if i < p {
            assert(order1[i] == order[i]);
        } else if i > p {
            assert(order1[i] == order[i - 1]);
        }
    }
    assert forall|i: int| 0 <= i < order1.len() implies {
        &&& nodes1[order1[i] as int].next == succ(order1, i)
        &&& nodes1[order1[i] as int].prev == pred(order1, i)
    } by {
        if i < p {
            assert(order1[i] == order[i]);
            if i + 1 < p {
                assert(order[i] != order[p - 1]);
            }
            if p < order.len() {
                assert(order[i] != order[p]);
            }
        } else if i > p {
            assert(order1[i] == order[i - 1]);
            if i - 1 > p {
                assert(order[i - 1] != order[p]);
            }
            if p > 0 {
                assert(order[i - 1] != order[p - 1]);
            }
        }
    }
    assert forall|i: int|
        0 <= i < order.len() implies (#[trigger] nodes1[order[i] as int]).element
        == nodes[order[i] as int].element by {
        if p > 0 && i != p - 1 {
            assert(order[i] != order[p - 1]);
        }
        if p < order.len() && i != p {
            assert(order[i] != order[p]);
        }
    }
    assert forall|i: int, j: int|
        0 <= i < order1.len() && 0 <= j < order1.len() && i != j implies #[trigger] order1[i]
        != #[trigger] order1[j] by {
        if i != p && j != p {
            let i0 = if i < p { i } else { i - 1 };
            let j0 = if j < p { j } else { j - 1 };
            assert(order[i0] != order[j0]);
        } else if i == p {
            let j0 = if j < p { j } else { j - 1 };
            assert(order[j0] < n);
        } else {
            let i0 = if i < p { i } else { i - 1 };
            assert(order[i0] < n);
        }
    }
}

/// Unlinking position `p` of a well-linked `order` leaves a well-linked
/// `order.remove(p)`, given that only the two neighbours' facing links
/// changed.
proof fn lemma_unlink<T>(
    nodes: Seq<DoubleLinkedNode<T>>,
    order: Seq<usize>,
    p: int,
    nodes1: Seq<DoubleLinkedNode<T>>,
)
    requires
        chained(nodes, order),
        distinct(order),
        order.len() == nodes.len(),
        0 <= p < order.len(),
        nodes1.len() == nodes.len(),
        p > 0 ==> nodes1[order[p - 1] as int].next == succ(order, p),
        p > 0 ==> nodes1[order[p - 1] as int].prev == nodes[order[p - 1] as int].prev,
        p > 0 ==> nodes1[order[p - 1] as int].element == nodes[order[p - 1] as int].element,
        p + 1 < order.len() ==> nodes1[order[p + 1] as int].prev == pred(order, p),
        p + 1 < order.len() ==> nodes1[order[p + 1] as int].next == nodes[order[p + 1] as int].next,
        p + 1 < order.len() ==> nodes1[order[p + 1] as int].element == nodes[order[
            p + 1
        ] as int].element,
        forall|s: int|
            0 <= s < nodes.len() && (p == 0 || s != order[p - 1]) && (p + 1 == order.len() || s
                != order[p + 1]) ==> #[trigger] nodes1[s] == nodes[s],
    ensures
        chained(nodes1, order.remove(p)),
        distinct(order.remove(p)),
        forall|i: int| 0 <= i < order.len() - 1 ==> #[trigger] order.remove(p)[i] != order[p],
        forall|i: int|
            0 <= i < order.len() && i != p ==> (#[trigger] nodes1[order[i] as int]).element
                == nodes[order[i] as int].element,
{
    reveal(chained);
    reveal(distinct);
    let order1 = order.remove(p);
    assert forall|i: int| 0 <= i < order1.len() implies (#[trigger] order1[i] as int) < nodes1.len() by {
        if i >= p {
            assert(order1[i] == order[i + 1]);
        }
    }
    assert forall|i: int| 0 <= i < order1.len() implies {
        &&& nodes1[order1[i] as int].next == succ(order1, i)
        &&& nodes1[order1[i] as int].prev == pred(order1, i)
    } by {
        let i0 = if i < p { i } else { i + 1 };
        assert(order1[i] == order[i0]);
        if p > 0 && i0 != p - 1 {
            assert(order[i0] != order[p - 1]);
        }
        if p + 1 < order.len() && i0 != p + 1 {
            assert(order[i0] != order[p + 1]);
        }
    }
    assert forall|i: int, j: int|
        0 <= i < order1.len() && 0 <= j < order1.len() && i != j implies #[trigger] order1[i]
        != #[trigger] order1[j] by {
        let i0 = if i < p { i } else { i + 1 };
        let j0 = if j < p { j } else { j + 1 };
        assert(order[i0] != order[j0]);
    }
    assert forall|i: int| 0 <= i < order.len() - 1 implies #[trigger] order1[i] != order[p] by {
        let i0 = if i < p { i } else { i + 1 };
        assert(order[i0] != order[p]);
    }
    assert forall|i: int|
        0 <= i < order.len() && i != p implies (#[trigger] nodes1[order[i] as int]).element
        == nodes[order[i] as int].element by {
        if p > 0 && i != p - 1 {
            assert(order[i] != order[p - 1]);
        }
        if p + 1 < order.len() && i != p + 1 {
            assert(order[i] != order[p + 1]);
        }
    }
}

/// Moving the node of the last slot of the arena into the freed slot `k`
/// (named nowhere in `order`) keeps the list well-linked under the renamed
/// order, given that the moved node's neighbours now point at `k`.
proof fn lemma_move_slot<T>(
    nodes: Seq<DoubleLinkedNode<T>>,
    order: Seq<usize>,
    k: usize,
    q: int,
    nodes2: Seq<DoubleLinkedNode<T>>,
)
    requires
        chained(nodes, order),
        distinct(order),
        order.len() + 1 == nodes.len(),
        k < nodes.len(),
        forall|i: int| 0 <= i < order.len() ==> #[trigger] order[i] != k,
        nodes2.len() == order.len(),
        k != order.len() ==> 0 <= q < order.len() && order[q] == order.len(),
        k != order.len() ==> nodes2[k as int] == nodes[order.len() as int],
        k != order.len() && q > 0 ==> nodes2[order[q - 1] as int].next == Some(k),
        k != order.len() && q > 0 ==> nodes2[order[q - 1] as int].prev == nodes[order[q
            - 1] as int].prev,
        k != order.len() && q > 0 ==> nodes2[order[q - 1] as int].element == nodes[order[q
            - 1] as int].element,
        k != order.len() && q + 1 < order.len() ==> nodes2[order[q + 1] as int].prev == Some(k),
        k != order.len() && q + 1 < order.len() ==> nodes2[order[q + 1] as int].next
            == nodes[order[q + 1] as int].next,
        k != order.len() && q + 1 < order.len() ==> nodes2[order[q + 1] as int].element
            == nodes[order[q + 1] as int].element,
        forall|s: int|
            0 <= s < nodes2.len() && s != k && (k == order.len() || q == 0 || s != order[q
                - 1]) && (k == order.len() || q + 1 == order.len() || s != order[q + 1])
                ==> #[trigger] nodes2[s] == nodes[s],
    ensures
        ({
            let order2 = renamed(order, order.len() as usize, k);
            &&& chained(nodes2, order2)
            &&& distinct(order2)
            &&& forall|i: int|
                0 <= i < order.len() ==> (#[trigger] nodes2[order2[i] as int]).element
                    == nodes[order[i] as int].element
        }),
{
    reveal(chained);
    reveal(distinct);
    let m = order.len() as usize;
    let order2 = renamed(order, m, k);
    assert forall|i: int| 0 <= i < order2.len() implies (#[trigger] order2[i] as int) < nodes2.len() by {
        assert(order[i] < nodes.len());
    }
    assert forall|i: int| 0 <= i < order2.len() implies {
        &&& nodes2[order2[i] as int].next == succ(order2, i)
        &&& nodes2[order2[i] as int].prev == pred(order2, i)
        &&& nodes2[order2[i] as int].element == nodes[order[i] as int].element
    } by {
        assert(nodes[order[i] as int].next == succ(order, i));
        assert(nodes[order[i] as int].prev == pred(order, i));
        if i + 1 < order.len() {
            assert(order[i] != order[i + 1]);
        }
        if i > 0 {
            assert(order[i] != order[i - 1]);
        }
        if k != m {
            if i != q {
                assert(order[i] != order[q]);
                if q > 0 && i != q - 1 {
                    assert(order[i] != order[q - 1]);
                }
                if q + 1 < order.len() && i != q + 1 {
                    assert(order[i] != order[q + 1]);
                }
            }
        }
    }
    assert forall|i: int, j: int|
        0 <= i < order2.len() && 0 <= j < order2.len() && i != j implies #[trigger] order2[i]
        != #[trigger] order2[j] by {
        assert(order[i] != order[j]);
        assert(order[i] < nodes.len());
        assert(order[j] < nodes.len());
    }
}

/// What a well-linked `order` says of its position `i`.
proof fn lemma_chained_at<T>(nodes: Seq<DoubleLinkedNode<T>>, order: Seq<usize>, i: int)
    requires
        chained(nodes, order),
        0 <= i < order.len(),
    ensures
        (order[i] as int) < nodes.len(),
        nodes[order[i] as int].next == succ(order, i),
        nodes[order[i] as int].prev == pred(order, i),
{
    reveal(chained);
}

/// Two positions of a duplicate-free `order` name different slots.
proof fn lemma_distinct_at(order: Seq<usize>, i: int, j: int)
    requires
        distinct(order),
        0 <= i < order.len(),
        0 <= j < order.len(),
        i != j,
    ensures
        order[i] != order[j],
{
    reveal(distinct);
}

/// After unlinking position `p` and moving the last slot's node into the
/// freed slot, each slot's new position is its old one, shifted down past `p`.
proof fn lemma_rank_after_unlink(order: Seq<usize>, rank: Seq<int>, p: int)
    requires
        covers(order, rank, order.len() as int),
        order.len() <= usize::MAX,
        distinct(order),
        0 <= p < order.len(),
    ensures
        covers(
            renamed(order.remove(p), (order.len() - 1) as usize, order[p]),
            rank_after_unlink(order, rank, p),
            order.len() - 1,
        ),
{
    reveal(covers);
    reveal(distinct);
    let k = order[p];
    let last = (order.len() - 1) as usize;
    let order1 = order.remove(p);
    let order2 = renamed(order1, last, k);
    let rank2 = rank_after_unlink(order, rank, p);
    assert(rank2.len() == order.len() - 1);
    assert forall|s: int| 0 <= s < order.len() - 1 implies 0 <= #[trigger] rank2[s] < order2.len() && order2[rank2[s]]
        == s by {
        let t = if s == k { last as int } else { s };
        assert(order[rank[t]] == t);
        assert(rank[t] != p);
        let r1 = if rank[t] > p { rank[t] - 1 } else { rank[t] };
        assert(rank2[s] == r1);
        assert(order1[r1] == t);
        assert(order2[r1] == s);
    }
}

/// After linking the fresh slot `order.len()` in at position `p`, each older
/// slot's position shifts up past `p`.
proof fn lemma_rank_after_link_in(order: Seq<usize>, rank: Seq<int>, p: int)
    requires
        covers(order, rank, order.len() as int),
        0 <= p <= order.len(),
        order.len() < usize::MAX,
    ensures
        covers(order.insert(p, order.len() as usize), rank_after_link_in(rank, p), order.len() as int + 1),
{
    reveal(covers);
}

/// Where a covering `rank` places slot `s`.
proof fn lemma_covers_at(order: Seq<usize>, rank: Seq<int>, s: int)
    requires
        covers(order, rank, order.len() as int),
        0 <= s < order.len(),
    ensures
        0 <= rank[s] < order.len(),
        order[rank[s]] == s,
{
    reveal(covers);
}

} // verus!
