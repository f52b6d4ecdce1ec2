use vstd::prelude::*;

verus! {

/// Which of the two stacks of a `SqDoubleStack` an operation addresses.
pub enum StackNum {
    /// The stack that grows upward from the low end of the buffer.
    First,
    /// The stack that grows downward from the high end of the buffer.
    Second,
}

/// Two stacks sharing one buffer of `N` slots. The first stack fills slots
/// `1..=top0` upward, the second fills slots `top1..=N-2` downward; the end
/// slots `0` and `N-1` stay empty, so both stacks together hold at most
/// `N - 2` values.
pub struct SqDoubleStack<T, const N: usize> {
    data: Vec<Option<T>>,
    top0: usize,
    top1: usize,
}

impl<T, const N: usize> SqDoubleStack<T, N> {
    /// The buffer has `N` slots, exactly those of the two stacks are
    /// filled, and the stacks do not overlap.
    pub closed spec fn wf(&self) -> bool {
        &&& N >= 2
        &&& self.data@.len() == N
        &&& 0 <= self.top0 < self.top1 <= N - 1
        &&& forall|i: int|
            0 <= i < N ==> ((#[trigger] self.data@[i]) is Some <==> (1 <= i <= self.top0
                || self.top1 <= i <= N - 2))
    }

    /// The first stack's values, bottom to top.
    pub closed spec fn first(&self) -> Seq<T> {
        Seq::new(self.top0 as nat, |i: int| self.data@[i + 1]->Some_0)
    }

    /// The second stack's values, bottom to top.
    pub closed spec fn second(&self) -> Seq<T> {
        Seq::new((N - 1 - self.top1) as nat, |i: int| self.data@[N - 2 - i]->Some_0)
    }

    /// The values of the stack `which`, bottom to top.
    pub open spec fn stack(&self, which: StackNum) -> Seq<T> {
        match which {
            StackNum::First => self.first(),
            StackNum::Second => self.second(),
        }
    }

    /// Two empty stacks over `N` slots.
    pub fn new() -> (r: Self)
        requires
            N >= 2,
        ensures
            r.wf(),
            r.first() == Seq::<T>::empty(),
            r.second() == Seq::<T>::empty(),
    {
        let mut data: Vec<Option<T>> = Vec::new();
        let mut i: usize = 0;
        while i < N
            invariant
                0 <= i <= N,
                data@.len() == i,
                forall|j: int| 0 <= j < i ==> (#[trigger] data@[j]) is None,
            decreases N - i,
        {
            data.push(None);
            i = i + 1;
        }
        let r = Self { data, top0: 0, top1: N - 1 };
        assert(r.first() =~= Seq::<T>::empty());
        assert(r.second() =~= Seq::<T>::empty());
        r
    }

    /// Puts `element` on top of the stack `stack_num`, unless no slot is
    /// left between the two stacks.
    pub fn push(&mut self, element: T, stack_num: StackNum) -> (r: Result<(), &'static str>)
        requires
            old(self).wf(),
        ensures
            final(self).wf(),
            old(self).first().len() + old(self).second().len() == N - 2 ==> r == Err::<
                (),
                &'static str,
            >("stack is full!") && final(self).first() == old(self).first() && final(self).second()
                == old(self).second(),
            old(self).first().len() + old(self).second().len() < N - 2 ==> r is Ok && match stack_num {
                StackNum::First => final(self).first() == old(self).first().push(element)
                    && final(self).second() == old(self).second(),
                StackNum::Second => final(self).second() == old(self).second().push(element)
                    && final(self).first() == old(self).first(),
            },
    {
        if self.top0 + 1 == self.top1 {
            Err("stack is full!")
        } else {
            let ghost old_first = self.first();
            let ghost old_second = self.second();
            match stack_num {
                StackNum::First => {
                    self.top0 = self.top0 + 1;
                    let t = self.top0;
                    self.data.set(t, Some(element));
                    assert(self.first() =~= old_first.push(element));
                    assert(self.second() =~= old_second);
                },
                StackNum::Second => {
                    self.top1 = self.top1 - 1;
                    let t = self.top1;
                    self.data.set(t, Some(element));
                    assert(self.second() =~= old_second.push(element));
                    assert(self.first() =~= old_first);
                },
            }
            Ok(())
        }
    }

    /// Removes and returns the top value of the stack `stack_num`.
    pub fn pop(&mut self, stack_num: StackNum) -> (r: Result<T, &'static str>)
        requires
            old(self).wf(),
        ensures
            final(self).wf(),
            match stack_num {
                StackNum::First => (if old(self).first().len() == 0 {
                    r == Err::<T, &'static str>("Left stack is empty!") && final(self).first()
                        == old(self).first()
                } else {
                    r == Ok::<T, &'static str>(old(self).first().last()) && final(self).first()
                        == old(self).first().drop_last()
                }) && final(self).second() == old(self).second(),
                StackNum::Second => (if old(self).second().len() == 0 {
                    r == Err::<T, &'static str>("Right stack is empty!") && final(self).second()
                        == old(self).second()
                } else {
                    r == Ok::<T, &'static str>(old(self).second().last()) && final(self).second()
                        == old(self).second().drop_last()
                }) && final(self).first() == old(self).first(),
            },
    {
        let ghost old_first = self.first();
        let ghost old_second = self.second();
        match stack_num {
            StackNum::First => {
                if self.top0 == 0 {
                    Err("Left stack is empty!")
                } else {
                    let t = self.top0;
                    let mut taken: Option<T> = None;
                    std::mem::swap(&mut self.data[t], &mut taken);
                    self.top0 = t - 1;
                    assert(self.first() =~= old_first.drop_last());
                    assert(self.second() =~= old_second);
                    Ok(taken.unwrap())
                }
            },
            StackNum::Second => {
                if self.top1 == N - 1 {
                    Err("Right stack is empty!")
                } else {
                    let t = self.top1;
                    let mut taken: Option<T> = None;
                    std::mem::swap(&mut self.data[t], &mut taken);
                    self.top1 = t + 1;
                    assert(self.second() =~= old_second.drop_last());
                    assert(self.first() =~= old_first);
                    Ok(taken.unwrap())
                }
            },
        }
    }

    /// The top value of the stack `stack_num`.
    pub fn get(&self, stack_num: StackNum) -> (r: Result<&T, &'static str>)
        requires
            self.wf(),
        ensures
            match stack_num {
                StackNum::First => match r {
                    Ok(v) => self.first().len() > 0 && *v == self.first().last(),
                    Err(e) => self.first().len() == 0 && e == "Left stack is empty!",
                },
                StackNum::Second => match r {
                    Ok(v) => self.second().len() > 0 && *v == self.second().last(),
                    Err(e) => self.second().len() == 0 && e == "Right stack is empty!",
                },
            },
    {
        match stack_num {
            StackNum::First => {
                if self.top0 == 0 {
                    Err("Left stack is empty!")
                } else {
                    Ok(self.data[self.top0].as_ref().unwrap())
                }
            },
            StackNum::Second => {
                if self.top1 == N - 1 {
                    Err("Right stack is empty!")
                } else {
                    Ok(self.data[self.top1].as_ref().unwrap())
                }
            },
        }
    }
}

} // verus!
