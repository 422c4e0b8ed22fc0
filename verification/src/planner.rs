//! Chunk planning: given a total element count and the pool's worker count,
//! compute how many elements each worker receives so that the data splits
//! into at most `worker_count` contiguous, non-overlapping chunks; and the
//! floor-of-log2 helper that callers use to plan recursive splits.

use vstd::arithmetic::div_mod::{
    lemma_basic_div, lemma_div_basics_5, lemma_div_denominator, lemma_div_is_ordered,
    lemma_div_plus_one, lemma_fundamental_div_mod, lemma_fundamental_div_mod_converse,
    lemma_hoist_over_denominator,
};
use vstd::arithmetic::power2::{
    lemma2_to64, lemma2_to64_rest, lemma_pow2_adds, lemma_pow2_pos, lemma_pow2_strictly_increases,
    pow2,
};
use vstd::prelude::*;

verus! {

/// The errors this library reports: an argument outside a function's domain,
/// or a configuration (such as a zero worker count) that no pool invariant
/// permits.
#[derive(Clone, Copy, Debug, PartialEq, Eq, Structural)]
pub enum MulticoreError {
    InvalidArgument,
    InvalidConfiguration,
}

/// Floor of the base-2 logarithm: the unique `k` with `2^k <= num < 2^(k+1)`.
pub fn log2_floor(num: usize) -> (r: u32)
    requires
        num >= 1,
    ensures
        pow2(r as nat) <= num < pow2(r as nat + 1),
{
    let mut pow: u32 = 0;
    let mut val: usize = num;
    proof {
        lemma2_to64();
    }
    while val >= 2
        invariant
            1 <= val,
            num as nat / pow2(pow as nat) == val as nat,
            pow2(pow as nat) <= num,
        decreases val,
    {
        proof {
            let p = pow2(pow as nat) as int;
            let p2 = pow2(pow as nat + 1) as int;
            lemma_pow2_pos(pow as nat);
            lemma_pow2_pos(pow as nat + 1);
            lemma_pow2_adds(pow as nat, 1);
            lemma2_to64();
            assert(p2 == p * 2);
            lemma_div_denominator(num as int, p, 2);
            assert(num as int / p2 == val as int / 2);
            lemma_fundamental_div_mod(num as int, p2);
            assert(num as int >= p2 * (num as int / p2));
            assert(p2 * (num as int / p2) >= p2) by (nonlinear_arith)
                requires
                    p2 >= 1,
                    num as int / p2 >= 1,
            ;
            assert(pow < 100000) by {
                if pow >= 100000 {
                    lemma_pow2_strictly_increases(64, pow as nat);
                    lemma2_to64_rest();
                }
            }
        }
        val = val / 2;
        pow = pow + 1;
    }
    proof {
        lemma_pow2_pos(pow as nat);
        lemma_pow2_adds(pow as nat, 1);
        lemma2_to64();
        lemma_fundamental_div_mod(num as int, pow2(pow as nat) as int);
    }
    pow
}

/// `log2_floor` rejects zero instead of requiring callers to avoid it:
/// `num == 0` yields an invalid-argument error, every other input the
/// unique `k` with `2^k <= num < 2^(k+1)`.
pub fn checked_log2_floor(num: usize) -> (r: Result<u32, MulticoreError>)
    ensures
        num == 0 <==> r == Err::<u32, MulticoreError>(MulticoreError::InvalidArgument),
        num >= 1 ==> (r matches Ok(k) && pow2(k as nat) <= num < pow2(k as nat + 1)),
{
    if num == 0 {
        Err(MulticoreError::InvalidArgument)
    } else {
        Ok(log2_floor(num))
    }
}

/// There is only one floor of the base-2 logarithm: any two exponents that
/// both bracket `n` between consecutive powers of two coincide.
pub proof fn lemma_log2_floor_unique(n: nat, k1: nat, k2: nat)
    requires
        pow2(k1) <= n < pow2(k1 + 1),
        pow2(k2) <= n < pow2(k2 + 1),
    ensures
        k1 == k2,
{
    if k1 + 1 < k2 {
        lemma_pow2_strictly_increases(k1 + 1, k2);
    }
    if k2 + 1 < k1 {
        lemma_pow2_strictly_increases(k2 + 1, k1);
    }
}

/// The chunk size planned for `n` elements over `w` workers: the ceiling of
/// `n / w`, so that one chunk per worker suffices to cover all elements.
pub open spec fn spec_chunk_size(n: nat, w: nat) -> nat
    recommends
        w >= 1,
{
    ((n + w - 1) / w as int) as nat
}

/// How many chunks of size `c` (the last possibly shorter) it takes to cover
/// `n` elements: the ceiling of `n / c`, and none at all for `n == 0`.
pub open spec fn spec_chunk_count(n: nat, c: nat) -> nat
    recommends
        c >= 1 || n == 0,
{
    if n == 0 {
        0
    } else {
        ((n + c - 1) / c as int) as nat
    }
}

/// Where a partition into chunks of size `c` places chunk `i`: its first
/// element index.
pub open spec fn chunk_start(c: nat, i: nat) -> nat {
    i * c
}

/// Plans the chunk size for `element_count` elements on `worker_count`
/// workers. A zero worker count is an invalid configuration and is rejected;
/// any other pool size yields the planned size `ceil(element_count /
/// worker_count)`, which `lemma_chunk_plan_sound` shows produces at most
/// `worker_count` chunks.
pub fn plan_chunk_size(element_count: usize, worker_count: usize) -> (r: Result<
    usize,
    MulticoreError,
>)
    ensures
        worker_count == 0 <==> r == Err::<usize, MulticoreError>(
            MulticoreError::InvalidConfiguration,
        ),
        worker_count >= 1 ==> r == Ok::<usize, MulticoreError>(
            spec_chunk_size(element_count as nat, worker_count as nat) as usize,
        ),
{
    if worker_count == 0 {
        Err(MulticoreError::InvalidConfiguration)
    } else if element_count == 0 {
        proof {
            lemma_basic_div(worker_count - 1, worker_count as int);
        }
        Ok(0)
    } else {
        proof {
            lemma_div_plus_one(element_count - 1, worker_count as int);
            lemma_div_basics_5(element_count - 1, worker_count as int);
        }
        Ok(1 + (element_count - 1) / worker_count)
    }
}

/// Soundness of the chunk plan: the planned size never exceeds the element
/// count, it is zero exactly on an empty workload, and covering all elements
/// with chunks of the planned size takes at most `w` chunks.
pub proof fn lemma_chunk_plan_sound(n: nat, w: nat)
    requires
        1 <= w,
    ensures
        spec_chunk_size(n, w) <= n,
        n == 0 ==> spec_chunk_size(n, w) == 0,
        n >= 1 ==> 1 <= spec_chunk_size(n, w),
        spec_chunk_count(n, spec_chunk_size(n, w)) <= w,
{
    let c = spec_chunk_size(n, w) as int;
    let wi = w as int;
    let ni = n as int;
    lemma_basic_div(wi - 1, wi);
    lemma_hoist_over_denominator(wi - 1, ni, w);
    assert(ni + wi - 1 <= ni * wi + wi - 1) by (nonlinear_arith)
        requires
            ni >= 0,
            wi >= 1,
    ;
    lemma_div_is_ordered(ni + wi - 1, ni * wi + wi - 1, wi);
    assert(c <= ni);
    if n >= 1 {
        lemma_fundamental_div_mod(ni + wi - 1, wi);
        assert(wi * c >= ni);
        assert(c >= 1) by (nonlinear_arith)
            requires
                wi * c >= ni,
                ni >= 1,
                wi >= 1,
                c >= 0,
        ;
        lemma_basic_div(c - 1, c);
        lemma_hoist_over_denominator(c - 1, wi, c as nat);
        assert(ni + c - 1 <= c * wi + c - 1) by (nonlinear_arith)
            requires
                wi * c >= ni,
        ;
        lemma_div_is_ordered(ni + c - 1, c * wi + c - 1, c);
        assert(spec_chunk_count(n, c as nat) <= w);
    }
}

/// How many elements chunk `i` of a partition of `n` elements into chunks of
/// size `c` holds: `c` for every full chunk, the remainder for the last.
pub open spec fn chunk_len(n: nat, c: nat, i: nat) -> nat {
    if i * c + c <= n {
        c
    } else if i * c <= n {
        (n - i * c) as nat
    } else {
        0
    }
}

/// The sizes of all chunks of a partition of `n` elements, in chunk order.
pub open spec fn spec_chunk_sizes(n: nat, c: nat) -> Seq<nat>
    recommends
        c >= 1 || n == 0,
{
    Seq::new(spec_chunk_count(n, c), |i: int| chunk_len(n, c, i as nat))
}

/// The total of a sequence of sizes.
pub open spec fn sum_of(s: Seq<nat>) -> nat
    decreases s.len(),
{
    if s.len() == 0 {
        0
    } else {
        s[0] + sum_of(s.drop_first())
    }
}

/// The chunk sizes of a partition sum to exactly the element count: no
/// element is lost and none is counted twice.
pub proof fn lemma_chunk_sizes_sum(n: nat, c: nat)
    requires
        1 <= c,
    ensures
        sum_of(spec_chunk_sizes(n, c)) == n,
    decreases n,
{
    let ci = c as int;
    let ni = n as int;
    if n == 0 {
        assert(spec_chunk_sizes(n, c) =~= Seq::<nat>::empty());
    } else if n <= c {
        lemma_fundamental_div_mod_converse(ni + ci - 1, ci, 1, ni - 1);
        assert(spec_chunk_count(n, c) == 1);
        let sizes = spec_chunk_sizes(n, c);
        assert(sizes.len() == 1);
        assert(chunk_len(n, c, 0) == n);
        assert(sizes.drop_first() =~= Seq::<nat>::empty());
        assert(sum_of(sizes.drop_first()) == 0);
        assert(sum_of(sizes) == sizes[0] + sum_of(sizes.drop_first()));
    } else {
        lemma_div_plus_one(ni - 1, ci);
        assert(spec_chunk_count(n, c) == spec_chunk_count((n - c) as nat, c) + 1);
        let sizes = spec_chunk_sizes(n, c);
        let rest = spec_chunk_sizes((n - c) as nat, c);
        assert(chunk_len(n, c, 0) == c) by {
            assert(0 * ci == 0);
        }
        assert(sizes.drop_first() =~= rest) by {
            assert forall|i: int| 0 <= i < rest.len() implies sizes.drop_first()[i] == rest[i] by {
                assert((i + 1) * ci == i * ci + ci) by (nonlinear_arith);
                assert(chunk_len(n, c, (i + 1) as nat) == chunk_len((n - c) as nat, c, i as nat));
            }
        }
        lemma_chunk_sizes_sum((n - c) as nat, c);
        assert(sum_of(sizes) == c + sum_of(rest));
    }
}

/// Chunks of size `c` partition the indices below `n`: every index `k < n`
/// falls inside chunk `k / c`, that chunk is one of the planned chunks, and
/// no other chunk's range holds `k` — the chunks cover all `n` elements with
/// no overlap.
pub proof fn lemma_chunk_partition(n: nat, c: nat, k: nat)
    requires
        1 <= c,
        k < n,
    ensures
        k / c < spec_chunk_count(n, c),
        chunk_start(c, k / c) <= k < chunk_start(c, k / c) + c,
        forall|i: nat| #[trigger] chunk_start(c, i) <= k < chunk_start(c, i) + c ==> i == k / c,
{
    let ci = c as int;
    let ki = k as int;
    let ni = n as int;
    lemma_fundamental_div_mod(ki, ci);
    assert((k / c) * c <= k < (k / c) * c + c) by {
        assert(ki == ci * (ki / ci) + ki % ci);
        assert(ci * (ki / ci) == (ki / ci) * ci) by (nonlinear_arith);
    }
    assert forall|i: nat| #[trigger] chunk_start(c, i) <= k < chunk_start(c, i) + c implies i == k / c by {
        lemma_fundamental_div_mod_converse(ki, ci, i as int, ki - i as int * ci);
    }
    lemma_div_is_ordered(ki, ni - 1, ci);
    lemma_div_plus_one(ni - 1, ci);
    assert(spec_chunk_count(n, c) == (ni - 1) / ci + 1);
}

} // verus!
