use vstd::prelude::*;

verus! {

/// A stack of at most `N` values kept in one contiguous buffer.
pub struct SequentialStack<T, const N: usize> {
    data: Vec<T>,
}

impl<T, const N: usize> View for SequentialStack<T, N> {
    type V = Seq<T>;

    /// The values from the bottom of the stack up to its top.
    closed spec fn view(&self) -> Seq<T> {
        self.data@
    }
}

impl<T, const N: usize> SequentialStack<T, N> {
    /// The stack never holds more than its capacity.
    pub closed spec fn wf(&self) -> bool {
        self.data@.len() <= N
    }

    /// An empty stack.
    pub fn new() -> (r: Self)
        ensures
            r.wf(),
            r@ == Seq::<T>::empty(),
    {
        Self { data: Vec::new() }
    }

    /// Whether the stack holds `N` values.
    pub fn is_full(&self) -> (r: bool)
        requires
            self.wf(),
        ensures
            r == (self@.len() == N),
    {
        self.data.len() == N
    }

    /// The number of values on the stack.
    pub fn len(&self) -> (r: usize)
        requires
            self.wf(),
        ensures
            r == self@.len(),
    {
        self.data.len()
    }

    /// Whether the stack holds no value.
    pub fn is_empty(&self) -> (r: bool)
        requires
            self.wf(),
        ensures
            r == (self@.len() == 0),
    {
        self.data.len() == 0
    }

    /// The most values the stack can hold.
    pub fn capacity(&self) -> (r: usize)
        ensures
            r == N,
    {
        N
    }

    /// Puts `element` on top, unless the stack is full.
    pub fn push(&mut self, element: T) -> (r: Result<(), &'static str>)
        requires
            old(self).wf(),
        ensures
            final(self).wf(),
            old(self)@.len() == N ==> r == Err::<(), &'static str>("Stack overflow!") && final(self)@ == old(self)@,
            old(self)@.len() < N ==> r is Ok && final(self)@ == old(self)@.push(element),
    {
        if self.is_full() {
            Err("Stack overflow!")
        } else {
            self.data.push(element);
            Ok(())
        }
    }

    /// Removes and returns the top value.
    pub fn pop(&mut self) -> (r: Result<T, &'static str>)
        requires
            old(self).wf(),
        ensures
            final(self).wf(),
            old(self)@.len() == 0 ==> r == Err::<T, &'static str>("Stack is empty!")
                && final(self)@ == old(self)@,
            old(self)@.len() > 0 ==> r == Ok::<T, &'static str>(old(self)@.last()) && final(self)@ == old(self)@.drop_last(),
    {
        if self.is_empty() {
            Err("Stack is empty!")
        } else {
            let top = self.data.pop().unwrap();
            Ok(top)
        }
    }

    /// The top value.
    pub fn get(&self) -> (r: Result<&T, &'static str>)
        requires
            self.wf(),
        ensures
            match r {
                Ok(v) => self@.len() > 0 && *v == self@.last(),
                Err(e) => self@.len() == 0 && e == "Stack is empty!",
            },
    {
        if self.is_empty() {
            Err("Stack is empty!")
        } else {
            Ok(&self.data[self.data.len() - 1])
        }
    }
}

} // verus!
