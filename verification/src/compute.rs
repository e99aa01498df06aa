//! Timing of a compute unit: a kernel of `flop` operations on a unit that retires `thru`
//! operations per cycle occupies it for one cycle per started batch of `thru` operations.
use vstd::prelude::*;

verus! {

/// `a / b` rounded up.
pub open spec fn spec_ceil_div(a: nat, b: nat) -> nat {
    if a == 0 {
        0
    } else {
        ((a - 1) / (b as int) + 1) as nat
    }
}

/// How many of the operations `0..s` start a new cycle: those whose index is a multiple of `b`.
pub open spec fn ticks_upto(s: nat, b: nat) -> nat
    decreases s,
{
    if s == 0 {
        0
    } else {
        ticks_upto((s - 1) as nat, b) + if ((s - 1) as int) % (b as int) == 0 { 1nat } else { 0nat }
    }
}

/// Cycles a unit of throughput `thru` spends on the kernels `flops`, one after the other.
pub open spec fn spec_compute_cycles(flops: Seq<usize>, thru: usize) -> nat
    decreases flops.len(),
{
    if flops.len() == 0 {
        0
    } else {
        spec_compute_cycles(flops.drop_last(), thru) + spec_ceil_div(flops.last() as nat, thru as nat)
    }
}

/// Counting the operations that start a cycle gives `s / b` rounded up.
pub proof fn law_ticks_are_ceil_div(s: nat, b: nat)
    requires
        b > 0,
    ensures
        ticks_upto(s, b) == spec_ceil_div(s, b),
    decreases s,
{
    if s > 0 {
        law_ticks_are_ceil_div((s - 1) as nat, b);
        let bi = b as int;
        let k = (s - 1) as int;
        vstd::arithmetic::div_mod::lemma_fundamental_div_mod(k, bi);
        vstd::arithmetic::div_mod::lemma_mod_bound(k, bi);
        if k > 0 {
            vstd::arithmetic::div_mod::lemma_fundamental_div_mod(k - 1, bi);
            vstd::arithmetic::div_mod::lemma_mod_bound(k - 1, bi);
            let q1 = k / bi;
            let r1 = k % bi;
            let q0 = (k - 1) / bi;
            let r0 = (k - 1) % bi;
            if r1 == 0 {
                assert(q1 == q0 + 1) by (nonlinear_arith)
                    requires
                        k == bi * q1 + r1,
                        k - 1 == bi * q0 + r0,
                        r1 == 0,
                        0 <= r0 < bi,
                        bi > 0;
            } else {
                assert(q1 == q0) by (nonlinear_arith)
                    requires
                        k == bi * q1 + r1,
                        k - 1 == bi * q0 + r0,
                        0 < r1 < bi,
                        0 <= r0 < bi,
                        bi > 0;
            }
        } else {
            vstd::arithmetic::div_mod::lemma_small_mod(0, b);
            assert(0nat / b == 0) by (nonlinear_arith)
                requires
                    b > 0;
        }
    }
}

/// Cycles a compute unit of throughput `thru` spends on the kernels `flops` (see
/// [`spec_compute_cycles`]); `None` when the count does not fit a `u64`. A unit of throughput zero
/// can run only empty kernels.
pub fn compute_cycles(flops: &Vec<usize>, thru: usize) -> (r: Option<u64>)
    requires
        thru > 0 || forall|i: int| 0 <= i < flops@.len() ==> flops@[i] == 0,
    ensures
        match r {
            Some(c) => c == spec_compute_cycles(flops@, thru),
            None => spec_compute_cycles(flops@, thru) > u64::MAX,
        },
{
    let mut total: u64 = 0;
    let mut i: usize = 0;
    while i < flops.len()
        invariant
            thru > 0 || forall|k: int| 0 <= k < flops@.len() ==> flops@[k] == 0,
            i <= flops@.len(),
            total == spec_compute_cycles(flops@.take(i as int), thru),
        decreases flops@.len() - i,
    {
        proof {
            assert(flops@.take(i + 1).drop_last() =~= flops@.take(i as int));
        }
        let f = flops[i];
        let c: usize = if f == 0 { 0 } else { (f - 1) / thru + 1 };
        if (c as u64) > u64::MAX - total {
            proof {
                lemma_cycles_monotone(flops@, thru, (i + 1) as nat);
            }
            return None;
        }
        total = total + (c as u64);
        i += 1;
    }
    proof {
        assert(flops@.take(i as int) =~= flops@);
    }
    Some(total)
}

proof fn lemma_cycles_monotone(flops: Seq<usize>, thru: usize, k: nat)
    requires
        k <= flops.len(),
    ensures
        spec_compute_cycles(flops.take(k as int), thru) <= spec_compute_cycles(flops, thru),
    decreases flops.len(),
{
    if k < flops.len() {
        assert(flops.drop_last().take(k as int) =~= flops.take(k as int));
        lemma_cycles_monotone(flops.drop_last(), thru, k);
    } else {
        assert(flops.take(k as int) =~= flops);
    }
}

/// A kernel takes the fewest cycles whose batches cover its operations, and kernels run one after
/// the other: no kernels take no cycle, and adding a kernel of `f` operations adds the `c` cycles
/// with `c * thru >= f` and `(c - 1) * thru < f` (none when `f` is zero).
pub proof fn law_compute_cycles_cover(flops: Seq<usize>, thru: usize, f: usize)
    requires
        thru > 0,
    ensures
        spec_compute_cycles(Seq::empty(), thru) == 0,
        ({
            let c = spec_compute_cycles(flops.push(f), thru) - spec_compute_cycles(flops, thru);
            &&& c >= 0
            &&& c * thru >= f
            &&& f > 0 ==> (c - 1) * thru < f
            &&& f == 0 ==> c == 0
        }),
{
    assert(flops.push(f).drop_last() =~= flops);
    let c = spec_ceil_div(f as nat, thru as nat);
    if f > 0 {
        let q = (f - 1) / (thru as int);
        let r = (f - 1) % (thru as int);
        vstd::arithmetic::div_mod::lemma_fundamental_div_mod((f - 1) as int, thru as int);
        vstd::arithmetic::div_mod::lemma_mod_bound((f - 1) as int, thru as int);
        vstd::arithmetic::div_mod::lemma_div_pos_is_pos((f - 1) as int, thru as int);
        assert(c == q + 1);
        assert((q + 1) * thru >= f && q * thru < f) by (nonlinear_arith)
            requires
                f - 1 == (thru as int) * q + r,
                0 <= r < thru,
                thru > 0;
    }
}

} // verus!
