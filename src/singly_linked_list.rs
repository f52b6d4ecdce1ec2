use vstd::prelude::*;

use crate::error::ListError;

verus! {

/// One link of a singly-linked chain: a value and the rest of the chain,
/// which it owns.
pub struct Node<T> {
    pub data: T,
    pub next: Option<Box<Node<T>>>,
}

impl<T> Node<T> {
    /// A detached node that holds `element` and ends its chain.
    pub fn new(element: T) -> (r: Self)
        ensures
            r.data == element,
            r.next is None,
    {
        Node { data: element, next: None }
    }
}

/// The values along the chain that starts at `link`, first to last.
pub open spec fn chain_values<T>(link: Option<Box<Node<T>>>) -> Seq<T>
    decreases link,
{
    match link {
        None => Seq::empty(),
        Some(node) => seq![node.data] + chain_values(node.next),
    }
}

/// The number of nodes reachable from `link` by following `next`.
pub open spec fn count_nodes<T>(link: Option<Box<Node<T>>>) -> nat
    decreases link,
{
    match link {
        None => 0,
        Some(node) => 1 + count_nodes(node.next),
    }
}

proof fn lemma_count_nodes<T>(link: Option<Box<Node<T>>>)
    ensures
        count_nodes(link) == chain_values(link).len(),
    decreases link,
{
    if let Some(node) = link {
        lemma_count_nodes(node.next);
    }
}

/// The length counter of a well-formed list equals the number of nodes
/// reachable from its head by following `next`; every operation keeps the
/// list well-formed.
pub proof fn lemma_length_counts_nodes<T>(list: &SinglyLinkedList<T>)
    requires
        list.wf(),
    ensures
        list.length == count_nodes(list.next),
{
    lemma_count_nodes(list.next);
}

/// A singly-linked list: `next` owns the first node, each node owns its
/// successor, and `length` counts the nodes of the chain.
pub struct SinglyLinkedList<T> {
    pub length: usize,
    pub next: Option<Box<Node<T>>>,
}

impl<T> View for SinglyLinkedList<T> {
    type V = Seq<T>;

    open spec fn view(&self) -> Seq<T> {
        chain_values(self.next)
    }
}

impl<T> SinglyLinkedList<T> {
    /// The counter agrees with the number of nodes reachable from the head.
    pub open spec fn wf(&self) -> bool {
        self.length == self@.len()
    }

    /// An empty list.
    pub fn new() -> (r: Self)
        ensures
            r.wf(),
            r@ == Seq::<T>::empty(),
    {
        SinglyLinkedList { length: 0, next: None }
    }

    /// The number of values in the list.
    pub fn len(&self) -> (r: usize)
        requires
            self.wf(),
        ensures
            r == self@.len(),
    {
        self.length
    }

    /// Puts `element` before the first value.
    pub fn push_front(&mut self, element: T)
        requires
            old(self).wf(),
            old(self)@.len() < usize::MAX,
        ensures
            final(self).wf(),
            final(self)@ == seq![element] + old(self)@,
    {
        let rest = self.next.take();
        self.next = Some(Box::new(Node { data: element, next: rest }));
        self.length = self.length + 1;
    }

    /// The link that follows the first `k` nodes; writing through it
    /// replaces everything after them.
    fn link_after(&mut self, k: usize) -> (r: &mut Option<Box<Node<T>>>)
        requires
            old(self).wf(),
            k <= old(self)@.len(),
        ensures
            chain_values(*r) == old(self)@.subrange(k as int, old(self)@.len() as int),
            chain_values(final(self).next) == old(self)@.subrange(0, k as int) + chain_values(*final(r)),
            final(self).length == old(self).length,
    {
        let ghost vals = self@;
        let mut cur: &mut Option<Box<Node<T>>> = &mut self.next;
        let mut i: usize = 0;
        assert(vals.subrange(0, vals.len() as int) =~= vals);
        while i < k
            invariant
                0 <= i <= k <= vals.len(),
                chain_values(*cur) == vals.subrange(i as int, vals.len() as int),
                chain_values(after_borrow(self.next)) == vals.subrange(0, i as int) + chain_values(*final(cur)),
            decreases k - i,
        {
            proof {
                lemma_chain_step(*cur, vals, i as int);
                assert(vals.subrange(0, i + 1) =~= vals.subrange(0, i as int).push(vals[i as int]));
            }
            cur = &mut cur.as_mut().unwrap().next;
            i = i + 1;
        }
        cur
    }

    /// Puts `element` after the last value.
    pub fn push(&mut self, element: T)
        requires
            old(self).wf(),
            old(self)@.len() < usize::MAX,
        ensures
            final(self).wf(),
            final(self)@ == old(self)@.push(element),
    {
        let ghost vals = self@;
        let n = self.length;
        let last = self.link_after(n);
        let node = Box::new(Node::new(element));
        assert(chain_values(node.next) =~= Seq::<T>::empty());
        assert(chain_values(Some(node)) =~= seq![element]);
        *last = Some(node);
        assert(vals.subrange(0, n as int) =~= vals);
        assert(self@ =~= vals.push(element));
        self.length = n + 1;
    }

    /// Puts `element` at 1-based position `pos`, so that it is preceded by
    /// the first `pos - 1` values; `pos` may be anything from 1 to one past
    /// the length.
    pub fn insert(&mut self, element: T, pos: usize) -> (r: Result<(), ListError>)
        requires
            old(self).wf(),
            old(self)@.len() < usize::MAX,
        ensures
            final(self).wf(),
            r is Ok <==> 1 <= pos <= old(self)@.len() + 1,
            r is Ok ==> final(self)@ == old(self)@.insert(pos - 1, element),
            r is Err ==> r == Err::<(), ListError>(ListError::OutOfRange) && final(self)@ == old(self)@,
    {
        if pos < 1 || pos - 1 > self.length {
            return Err(ListError::OutOfRange);
        }
        let ghost vals = self@;
        let n = self.length;
        let link = self.link_after(pos - 1);
        let rest = link.take();
        let node = Box::new(Node { data: element, next: rest });
        assert(chain_values(Some(node)) == seq![element] + chain_values(rest));
        *link = Some(node);
        assert(self@ =~= vals.insert(pos - 1, element));
        self.length = n + 1;
        Ok(())
    }

    /// Removes the value at 1-based position `pos` and releases its node.
    pub fn delete(&mut self, pos: usize) -> (r: Result<(), ListError>)
        requires
            old(self).wf(),
        ensures
            final(self).wf(),
            r is Ok <==> 1 <= pos <= old(self)@.len(),
            r is Ok ==> final(self)@ == old(self)@.remove(pos - 1),
            old(self)@.len() == 0 ==> r == Err::<(), ListError>(ListError::EmptyCollection),
            old(self)@.len() > 0 && !(1 <= pos <= old(self)@.len()) ==> r == Err::<(), ListError>(
                ListError::OutOfRange,
            ),
            r is Err ==> final(self)@ == old(self)@,
    {
        if self.length == 0 {
            return Err(ListError::EmptyCollection);
        }
        if pos < 1 || pos > self.length {
            return Err(ListError::OutOfRange);
        }
        let ghost vals = self@;
        let n = self.length;
        let link = self.link_after(pos - 1);
        let mut target = link.take().unwrap();
        proof {
            lemma_chain_step(Some(target), vals, pos - 1);
        }
        *link = target.next.take();
        assert(self@ =~= vals.remove(pos - 1));
        self.length = n - 1;
        Ok(())
    }

    /// The value at 1-based position `pos`.
    pub fn get(&self, pos: usize) -> (r: Result<&T, ListError>)
        requires
            self.wf(),
        ensures
            match r {
                Ok(v) => 1 <= pos <= self@.len() && *v == self@[pos - 1],
                Err(e) => !(1 <= pos <= self@.len()) && e == ListError::OutOfRange,
            },
    {
        if pos < 1 || pos > self.length {
            return Err(ListError::OutOfRange);
        }
        let ghost vals = self@;
        assert(vals.subrange(0, vals.len() as int) =~= vals);
        let mut cur: &Option<Box<Node<T>>> = &self.next;
        let mut i: usize = 1;
        while i < pos
            invariant
                1 <= i <= pos <= vals.len(),
                chain_values(*cur) == vals.subrange(i - 1, vals.len() as int),
            decreases pos - i,
        {
            proof {
                lemma_chain_step(*cur, vals, i - 1);
            }
            cur = &cur.as_ref().unwrap().next;
            i = i + 1;
        }
        proof {
            lemma_chain_step(*cur, vals, i - 1);
        }
        let node = cur.as_ref().unwrap();
        Ok(&node.data)
    }
}

/// Steps one node along a chain whose values are a suffix of `vals`.
proof fn lemma_chain_step<T>(link: Option<Box<Node<T>>>, vals: Seq<T>, i: int)
    requires
        link is Some,
        0 <= i <= vals.len(),
        chain_values(link) == vals.subrange(i, vals.len() as int),
    ensures
        i < vals.len(),
        vals[i] == link.unwrap().data,
        chain_values(link.unwrap().next) == vals.subrange(i + 1, vals.len() as int),
{
    let node = link.unwrap();
    assert(chain_values(link) == seq![node.data] + chain_values(node.next));
    assert(chain_values(link)[0] == node.data);
    let rest = vals.subrange(i, vals.len() as int);
    assert(rest.subrange(1, rest.len() as int) =~= chain_values(node.next));
    assert(rest.subrange(1, rest.len() as int) =~= vals.subrange(i + 1, vals.len() as int));
}

} // verus!
