use vstd::prelude::*;
use vstd::arithmetic::power2::{lemma2_to64_rest, lemma_pow2_pos, lemma_pow2_strictly_increases, lemma_pow2_unfold, pow2};

verus! {

/// The Fibonacci numbers: 0, 1, 1, 2, 3, 5, ...
pub open spec fn fib(n: nat) -> nat
    decreases n,
{
    if n == 0 {
        0
    } else if n == 1 {
        1
    } else {
        fib((n - 1) as nat) + fib((n - 2) as nat)
    }
}

/// The largest argument `fibonacci` accepts is one below this.
pub const FIBONACCI_LIMIT: usize = 50;

/// `fib(n)` never exceeds `2^n`.
proof fn lemma_fib_below_pow2(n: nat)
    ensures
        fib(n) <= pow2(n),
    decreases n,
{
    if n >= 2 {
        lemma_fib_below_pow2((n - 1) as nat);
        lemma_fib_below_pow2((n - 2) as nat);
        lemma_pow2_unfold(n);
        lemma_pow2_strictly_increases((n - 2) as nat, (n - 1) as nat);
        assert(fib(n) == fib((n - 1) as nat) + fib((n - 2) as nat));
    } else if n == 1 {
        lemma_pow2_unfold(1);
        lemma_pow2_pos(0);
    }
}

/// The `n`-th Fibonacci number, for `n` below 50; larger problems, and a
/// result too large for `usize` (possible only where `usize` has 32 bits),
/// are refused.
pub fn fibonacci(n: usize) -> (r: Result<usize, &'static str>)
    ensures
        n < FIBONACCI_LIMIT && fib(n as nat) <= usize::MAX ==> r == Ok::<usize, &'static str>(
            fib(n as nat) as usize,
        ),
        n >= FIBONACCI_LIMIT ==> r == Err::<usize, &'static str>("问题规模太大了"),
        n < FIBONACCI_LIMIT && fib(n as nat) > usize::MAX ==> r == Err::<usize, &'static str>(
            "result does not fit in usize",
        ),
{
    if n >= FIBONACCI_LIMIT {
        return Err("问题规模太大了");
    }
    let mut a: u64 = 0;
    let mut b: u64 = 1;
    let mut i: usize = 0;
    while i < n
        invariant
            0 <= i <= n < FIBONACCI_LIMIT,
            a == fib(i as nat),
            b == fib((i + 1) as nat),
        decreases n - i,
    {
        proof {
            lemma_fib_below_pow2((i + 2) as nat);
            lemma_pow2_strictly_increases((i + 2) as nat, 64);
            lemma2_to64_rest();
        }
        let c = a + b;
        a = b;
        b = c;
        i = i + 1;
    }
    if a > usize::MAX as u64 {
        Err("result does not fit in usize")
    } else {
        Ok(a as usize)
    }
}

} // verus!
