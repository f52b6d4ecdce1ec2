//! How values come back out of the lists and stacks, stated over the
//! sequence updates that their contracts use: a front insertion makes
//! `seq![x] + s`, a back insertion `s.push(x)`, and a front removal hands out
//! `s[0]` and leaves `s.drop_first()`.
use vstd::prelude::*;

verus! {

/// The contents after inserting each of `vs` in turn at the front of `s`.
pub open spec fn after_push_fronts<T>(s: Seq<T>, vs: Seq<T>) -> Seq<T>
    decreases vs.len(),
{
    if vs.len() == 0 {
        s
    } else {
        after_push_fronts(seq![vs[0]] + s, vs.drop_first())
    }
}

/// The contents after inserting each of `vs` in turn at the back of `s`.
pub open spec fn after_push_backs<T>(s: Seq<T>, vs: Seq<T>) -> Seq<T>
    decreases vs.len(),
{
    if vs.len() == 0 {
        s
    } else {
        after_push_backs(s.push(vs[0]), vs.drop_first())
    }
}

/// The values that `n` front removals hand out, in turn, from contents `s`
/// (fewer when `s` runs out first).
pub open spec fn front_pops<T>(s: Seq<T>, n: nat) -> Seq<T>
    decreases n,
{
    if n == 0 || s.len() == 0 {
        Seq::empty()
    } else {
        seq![s[0]] + front_pops(s.drop_first(), (n - 1) as nat)
    }
}

proof fn lemma_after_push_fronts<T>(s: Seq<T>, vs: Seq<T>)
    ensures
        after_push_fronts(s, vs) == vs.reverse() + s,
    decreases vs.len(),
{
    if vs.len() > 0 {
        let rest = vs.drop_first();
        lemma_after_push_fronts(seq![vs[0]] + s, rest);
        assert(vs.reverse() =~= rest.reverse() + seq![vs[0]]);
        assert(rest.reverse() + (seq![vs[0]] + s) =~= vs.reverse() + s);
    } else {
        assert(vs.reverse() + s =~= s);
    }
}

proof fn lemma_after_push_backs<T>(s: Seq<T>, vs: Seq<T>)
    ensures
        after_push_backs(s, vs) == s + vs,
    decreases vs.len(),
{
    if vs.len() > 0 {
        lemma_after_push_backs(s.push(vs[0]), vs.drop_first());
        assert(s.push(vs[0]) + vs.drop_first() =~= s + vs);
    } else {
        assert(s + vs =~= s);
    }
}

proof fn lemma_front_pops_all<T>(s: Seq<T>)
    ensures
        front_pops(s, s.len()) == s,
    decreases s.len(),
{
    if s.len() > 0 {
        lemma_front_pops_all(s.drop_first());
        assert(seq![s[0]] + s.drop_first() =~= s);
    }
}

/// Last in, first out: inserting `vs` one by one at the front of an empty
/// list or stack and then removing from the front as many times hands the
/// values back in reverse order of insertion.
pub proof fn lemma_front_in_front_out_reverses<T>(vs: Seq<T>)
    ensures
        front_pops(after_push_fronts(Seq::empty(), vs), vs.len()) == vs.reverse(),
{
    lemma_after_push_fronts(Seq::empty(), vs);
    assert(vs.reverse() + Seq::<T>::empty() =~= vs.reverse());
    lemma_front_pops_all(vs.reverse());
}

/// First in, first out: inserting `vs` one by one at the back of an empty
/// list and then removing from the front as many times hands the values back
/// in order of insertion.
pub proof fn lemma_back_in_front_out_keeps_order<T>(vs: Seq<T>)
    ensures
        front_pops(after_push_backs(Seq::empty(), vs), vs.len()) == vs,
{
    lemma_after_push_backs(Seq::empty(), vs);
    assert(Seq::<T>::empty() + vs =~= vs);
    lemma_front_pops_all(vs);
}

/// A list built from empty by back insertions of `v1, ..., vn` holds `vi`
/// at 1-based position `i`, which is what a positional lookup returns.
pub proof fn lemma_back_insertions_by_position<T>(vs: Seq<T>)
    ensures
        after_push_backs(Seq::empty(), vs).len() == vs.len(),
        forall|i: int| 1 <= i <= vs.len() ==> #[trigger] after_push_backs(Seq::empty(), vs)[i - 1] == vs[i - 1],
{
    lemma_after_push_backs(Seq::empty(), vs);
    assert(Seq::<T>::empty() + vs =~= vs);
}

} // verus!
