use vstd::prelude::*;

verus! {

/// A list of at most `N` values kept in one contiguous buffer, addressed by
/// 1-based position.
pub struct SeqList<T, const N: usize> {
    data: Vec<T>,
}

impl<T, const N: usize> View for SeqList<T, N> {
    type V = Seq<T>;

    /// The values, first to last.
    closed spec fn view(&self) -> Seq<T> {
        self.data@
    }
}

impl<T, const N: usize> SeqList<T, N> {
    /// The list never holds more than its capacity.
    pub closed spec fn wf(&self) -> bool {
        self.data@.len() <= N
    }

    /// An empty list.
    pub fn new() -> (r: Self)
        ensures
            r.wf(),
            r@ == Seq::<T>::empty(),
    {
        Self { data: Vec::new() }
    }

    /// Whether the list holds no value.
    pub fn is_empty(&self) -> (r: bool)
        requires
            self.wf(),
        ensures
            r == (self@.len() == 0),
    {
        self.data.len() == 0
    }

    /// Whether the list holds `N` values.
    pub fn is_full(&self) -> (r: bool)
        requires
            self.wf(),
        ensures
            r == (self@.len() == N),
    {
        self.data.len() == N
    }

    /// The number of values in the list.
    pub fn len(&self) -> (r: usize)
        requires
            self.wf(),
        ensures
            r == self@.len(),
    {
        self.data.len()
    }

    /// The most values the list can hold.
    pub fn capacity(&self) -> (r: usize)
        ensures
            r == N,
    {
        N
    }

    /// Appends `element`, unless the list is full.
    pub fn push(&mut self, element: T) -> (r: Result<(), &'static str>)
        requires
            old(self).wf(),
        ensures
            final(self).wf(),
            old(self)@.len() == N ==> r == Err::<(), &'static str>("List is full!") && final(self)@
                == old(self)@,
            old(self)@.len() < N ==> r is Ok && final(self)@ == old(self)@.push(element),
    {
        if self.is_full() {
            Err("List is full!")
        } else {
            self.data.push(element);
            Ok(())
        }
    }

    /// Puts `element` at 1-based position `pos`, shifting the values from
    /// there on one place back; `pos` may be anything from 1 to one past
    /// the length. A full list takes nothing.
    pub fn insert(&mut self, element: T, pos: usize) -> (r: Result<(), &'static str>)
        requires
            old(self).wf(),
        ensures
            final(self).wf(),
            old(self)@.len() == N ==> r == Err::<(), &'static str>("List is full"),
            old(self)@.len() < N && !(1 <= pos <= old(self)@.len() + 1) ==> r == Err::<
                (),
                &'static str,
            >("Out of List!"),
            r is Ok <==> old(self)@.len() < N && 1 <= pos <= old(self)@.len() + 1,
            r is Ok ==> final(self)@ == old(self)@.insert(pos - 1, element),
            r is Err ==> final(self)@ == old(self)@,
    {
        if self.is_full() {
            Err("List is full")
        } else if pos == 0 || pos - 1 > self.data.len() {
            Err("Out of List!")
        } else {
            self.data.insert(pos - 1, element);
            Ok(())
        }
    }

    /// The value at 1-based position `pos`, if there is one.
    pub fn get(&self, pos: usize) -> (r: Option<&T>)
        requires
            self.wf(),
        ensures
            match r {
                Some(v) => 1 <= pos <= self@.len() && *v == self@[pos - 1],
                None => !(1 <= pos <= self@.len()),
            },
    {
        if pos > self.data.len() || pos < 1 {
            None
        } else {
            Some(&self.data[pos - 1])
        }
    }

    /// Removes the value at 1-based position `pos`, shifting the values
    /// after it one place forward, and returns it.
    pub fn remove(&mut self, pos: usize) -> (r: Result<Option<T>, &'static str>)
        requires
            old(self).wf(),
        ensures
            final(self).wf(),
            pos == 0 ==> r == Err::<Option<T>, &'static str>("Out of List"),
            pos > 0 && old(self)@.len() == 0 ==> r == Err::<Option<T>, &'static str>(
                "List is empty",
            ),
            old(self)@.len() > 0 && pos > old(self)@.len() ==> r == Err::<Option<T>, &'static str>(
                "Out of List",
            ),
            r is Ok <==> 1 <= pos <= old(self)@.len(),
            r is Ok ==> r == Ok::<Option<T>, &'static str>(Some(old(self)@[pos - 1]))
                && final(self)@ == old(self)@.remove(pos - 1),
            r is Err ==> final(self)@ == old(self)@,
    {
        if pos == 0 {
            Err("Out of List")
        } else if self.is_empty() {
            Err("List is empty")
        } else if pos > self.data.len() {
            Err("Out of List")
        } else {
            Ok(Some(self.data.remove(pos - 1)))
        }
    }
}

} // verus!
