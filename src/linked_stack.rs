use vstd::prelude::*;

verus! {

/// One link of the stack: a value and the links below it, which it owns.
struct StackNode<T> {
    data: T,
    next: Option<Box<StackNode<T>>>,
}

impl<T> StackNode<T> {
    fn new(element: T) -> (r: Self)
        ensures
            r.data == element,
            r.next is None,
    {
        Self { data: element, next: None }
    }
}

/// The values along the links that start at `link`, top first.
spec fn stack_values<T>(link: Option<Box<StackNode<T>>>) -> Seq<T>
    decreases link,
{
    match link {
        None => Seq::empty(),
        Some(node) => seq![node.data] + stack_values(node.next),
    }
}

/// A stack kept as a chain of owned nodes, top first; `len` counts them.
pub struct LinkedStack<T> {
    pub len: usize,
    head: Option<Box<StackNode<T>>>,
}

impl<T> View for LinkedStack<T> {
    type V = Seq<T>;

    /// The values from the top of the stack down.
    closed spec fn view(&self) -> Seq<T> {
        stack_values(self.head)
    }
}

impl<T> LinkedStack<T> {
    /// The counter agrees with the number of nodes.
    pub closed spec fn wf(&self) -> bool {
        self.len == self@.len()
    }

    /// An empty stack.
    pub fn new() -> (r: Self)
        ensures
            r.wf(),
            r@ == Seq::<T>::empty(),
    {
        Self { len: 0, head: None }
    }

    /// Puts `element` on top.
    pub fn push(&mut self, element: T)
        requires
            old(self).wf(),
            old(self)@.len() < usize::MAX,
        ensures
            final(self).wf(),
            final(self)@ == seq![element] + old(self)@,
    {
        let mut node = Box::new(StackNode::new(element));
        node.next = self.head.take();
        self.head = Some(node);
        self.len = self.len + 1;
    }

    /// Removes and returns the top value.
    pub fn pop(&mut self) -> (r: Result<T, &'static str>)
        requires
            old(self).wf(),
        ensures
            final(self).wf(),
            old(self)@.len() == 0 ==> r == Err::<T, &'static str>("Stack is empty!")
                && final(self)@ == old(self)@,
            old(self)@.len() > 0 ==> r == Ok::<T, &'static str>(old(self)@[0]) && final(self)@
                == old(self)@.drop_first(),
    {
        if self.len == 0 {
            Err("Stack is empty!")
        } else {
            let ghost vals = self@;
            let mut node = self.head.take().unwrap();
            self.head = node.next.take();
            assert(vals == seq![node.data] + self@);
            assert(self@ =~= vals.drop_first());
            self.len = self.len - 1;
            Ok(node.data)
        }
    }

    /// The top value.
    pub fn get(&self) -> (r: Result<&T, &'static str>)
        requires
            self.wf(),
        ensures
            match r {
                Ok(v) => self@.len() > 0 && *v == self@[0],
                Err(e) => self@.len() == 0 && e == "Stack is empty!",
            },
    {
        if self.len == 0 {
            Err("Stack is empty!")
        } else {
            let node = self.head.as_ref().unwrap();
            Ok(&node.data)
        }
    }
}

} // verus!
