//! Work distribution: splits a sequence into near-equal contiguous
//! partitions, sizes differing by at most one with the larger chunks
//! first, and runs an operation once over each partition.
//!
//! Every operation handed in is a pure function of its partition, so
//! the combined result is the same in whatever order the partitions
//! are processed; an embedding application may fan the partitions out
//! over worker threads and the contracts here still describe the
//! outcome of the joined whole.

use vstd::prelude::*;
use vstd::arithmetic::div_mod::lemma_fundamental_div_mod;
use vstd::arithmetic::div_mod::lemma_small_mod;
use vstd::arithmetic::div_mod::lemma_basic_div_specific_divisor;
use vstd::arithmetic::mul::lemma_mul_is_distributive_add_other_way;
use vstd::arithmetic::power2::pow2;
use vstd::arithmetic::power2::lemma_pow2_unfold;
use vstd::arithmetic::power2::lemma_pow2_strictly_increases;

verus! {

/// How many partitions a sequence of length `n` is split into on
/// `threads` workers: one per worker, except that a short sequence
/// gets one single-element partition per element.
pub open spec fn chunk_count(n: int, threads: int) -> int {
    if n < threads {
        n
    } else {
        threads
    }
}

/// The length of partition `j`: the first `n % threads` partitions
/// take one extra element.
pub open spec fn chunk_len(n: int, threads: int, j: int) -> int {
    if j < n % threads {
        n / threads + 1
    } else {
        n / threads
    }
}

/// Where partition `j` starts: directly after its predecessors.
pub open spec fn chunk_start(n: int, threads: int, j: int) -> int
    decreases j,
{
    if j <= 0 {
        0
    } else {
        chunk_start(n, threads, j - 1) + chunk_len(n, threads, j - 1)
    }
}

/// Closed form for `chunk_start`, by induction on `j`.
proof fn lemma_chunk_start_closed(n: int, threads: int, j: int)
    requires
        threads >= 1,
        n >= 0,
        0 <= j,
    ensures
        chunk_start(n, threads, j) == if j <= n % threads {
            j * (n / threads + 1)
        } else {
            (n % threads) * (n / threads + 1) + (j - n % threads) * (n / threads)
        },
    decreases j,
{
    let b = n / threads;
    let c = n % threads;
    if j > 0 {
        lemma_chunk_start_closed(n, threads, j - 1);
        lemma_mul_is_distributive_add_other_way(b + 1, j - 1, 1);
        lemma_mul_is_distributive_add_other_way(b, j - 1 - c, 1);
    }
}

/// The partitions exactly cover `0 .. n`: the final boundary is `n`.
pub proof fn lemma_chunks_cover(n: int, threads: int)
    requires
        threads >= 1,
        n >= 0,
    ensures
        chunk_start(n, threads, chunk_count(n, threads)) == n,
{
    let b = n / threads;
    let c = n % threads;
    lemma_fundamental_div_mod(n, threads);
    if n < threads {
        lemma_small_mod(n as nat, threads as nat);
        lemma_basic_div_specific_divisor(threads);
        lemma_chunk_start_closed(n, threads, n);
        assert(n * (0 + 1) == n) by (nonlinear_arith);
    } else {
        lemma_chunk_start_closed(n, threads, threads);
        assert(c * (b + 1) + (threads - c) * b == c + threads * b) by (nonlinear_arith);
    }
}

/// Partition boundaries do not decrease, and a partition ends no later
/// than any later partition starts: the partitions are pairwise
/// disjoint.
pub proof fn lemma_chunks_monotone(n: int, threads: int, j1: int, j2: int)
    requires
        threads >= 1,
        n >= 0,
        0 <= j1 <= j2,
    ensures
        chunk_start(n, threads, j1) <= chunk_start(n, threads, j2),
        j2 < chunk_count(n, threads) ==> chunk_len(n, threads, j2) >= 1,
        j1 < j2 ==> chunk_start(n, threads, j1) + chunk_len(n, threads, j1) <= chunk_start(
            n,
            threads,
            j2,
        ),
    decreases j2 - j1,
{
    if j2 < chunk_count(n, threads) {
        if n >= threads {
            assert(n / threads >= 1) by (nonlinear_arith)
                requires
                    threads >= 1,
                    n >= threads,
            ;
        } else {
            lemma_small_mod(n as nat, threads as nat);
            lemma_basic_div_specific_divisor(threads);
        }
    }
    if j1 < j2 {
        lemma_chunks_monotone(n, threads, j1 + 1, j2);
    }
}

/// Every index of the sequence falls in exactly one partition.
/// Disjointness and exact single cover of the balanced split, together.
pub proof fn lemma_partition_exact_cover(n: int, threads: int, idx: int)
    requires
        threads >= 1,
        0 <= idx < n,
    ensures
        exists|j: int|
            0 <= j < chunk_count(n, threads) && (#[trigger] chunk_start(n, threads, j)) <= idx
                < chunk_start(n, threads, j) + chunk_len(n, threads, j),
        forall|j1: int, j2: int|
            (0 <= j1 < j2 < chunk_count(n, threads) && (#[trigger] chunk_start(n, threads, j1))
                <= idx < chunk_start(n, threads, j1) + chunk_len(n, threads, j1)) ==> !((
            #[trigger] chunk_start(n, threads, j2)) <= idx < chunk_start(n, threads, j2)
                + chunk_len(n, threads, j2)),
{
    let cnt = chunk_count(n, threads);
    lemma_chunks_cover(n, threads);
    assert forall|j1: int, j2: int|
        (0 <= j1 < j2 < cnt && (#[trigger] chunk_start(n, threads, j1)) <= idx < chunk_start(
            n,
            threads,
            j1,
        ) + chunk_len(n, threads, j1)) implies !((#[trigger] chunk_start(n, threads, j2)) <= idx
        < chunk_start(n, threads, j2) + chunk_len(n, threads, j2)) by {
        lemma_chunks_monotone(n, threads, j1, j2);
    }
    lemma_some_chunk_holds(n, threads, idx, 0);
}

/// Helper for the existence half of the cover property: scanning from
/// partition `j` onward finds the partition holding `idx`.
proof fn lemma_some_chunk_holds(n: int, threads: int, idx: int, j: int)
    requires
        threads >= 1,
        0 <= idx < n,
        0 <= j <= chunk_count(n, threads),
        chunk_start(n, threads, j) <= idx,
    ensures
        exists|jj: int|
            j <= jj < chunk_count(n, threads) && (#[trigger] chunk_start(n, threads, jj)) <= idx
                < chunk_start(n, threads, jj) + chunk_len(n, threads, jj),
    decreases chunk_count(n, threads) - j,
{
    let cnt = chunk_count(n, threads);
    lemma_chunks_cover(n, threads);
    if j == cnt {
        assert(false);
    } else {
        if idx < chunk_start(n, threads, j) + chunk_len(n, threads, j) {
            assert(chunk_start(n, threads, j) <= idx < chunk_start(n, threads, j) + chunk_len(
                n,
                threads,
                j,
            ));
        } else {
            lemma_some_chunk_holds(n, threads, idx, j + 1);
        }
    }
}

/// Computes the balanced partition boundaries: for each partition its
/// start and its length, larger partitions first.
pub fn partition_bounds(n: usize, threads: usize) -> (bounds: Vec<(usize, usize)>)
    requires
        threads >= 1,
    ensures
        bounds@.len() == chunk_count(n as int, threads as int),
        forall|j: int|
            0 <= j < bounds@.len() ==> (#[trigger] bounds@[j]).0 == chunk_start(
                n as int,
                threads as int,
                j,
            ) && bounds@[j].1 == chunk_len(n as int, threads as int, j),
{
    let cnt: usize = if n < threads {
        n
    } else {
        threads
    };
    let base = n / threads;
    let cutoff = n % threads;
    let mut bounds: Vec<(usize, usize)> = Vec::new();
    let mut start: usize = 0;
    let mut j: usize = 0;
    while j < cnt
        invariant
            threads >= 1,
            cnt == chunk_count(n as int, threads as int),
            base == n as int / threads as int,
            cutoff == n as int % threads as int,
            j <= cnt,
            bounds@.len() == j,
            start == chunk_start(n as int, threads as int, j as int),
            start <= n,
            forall|jj: int|
                0 <= jj < j ==> (#[trigger] bounds@[jj]).0 == chunk_start(
                    n as int,
                    threads as int,
                    jj,
                ) && bounds@[jj].1 == chunk_len(n as int, threads as int, jj),
        decreases cnt - j,
    {
        proof {
            lemma_chunks_cover(n as int, threads as int);
            lemma_chunks_monotone(n as int, threads as int, j as int + 1, chunk_count(
                n as int,
                threads as int,
            ));
        }
        let len: usize = if j < cutoff {
            base + 1
        } else {
            base
        };
        bounds.push((start, len));
        start = start + len;
        j = j + 1;
    }
    bounds
}

/// Runs `f` once over every partition of `v`, handing it the partition
/// and the offset where the partition starts; the partition's contents
/// are replaced by what `f` returns. `f` must preserve the length of
/// its partition, as an operation over a borrowed slice would.
#[verifier::rlimit(100)]
pub fn parallelize<T: Copy, F: Fn(Vec<T>, usize) -> Vec<T>>(v: &mut Vec<T>, threads: usize, f: F)
    requires
        threads >= 1,
        forall|args: (Vec<T>, usize)| #[trigger] call_requires(f, args),
        forall|chunk: Vec<T>, off: usize, out: Vec<T>|
            #[trigger] call_ensures(f, (chunk, off), out) ==> out@.len() == chunk@.len(),
    ensures
        final(v)@.len() == old(v)@.len(),
        forall|j: int|
            #![trigger chunk_start(old(v)@.len() as int, threads as int, j)]
            0 <= j < chunk_count(old(v)@.len() as int, threads as int)
                ==> exists|cv: Vec<T>, ov: Vec<T>|
                #![trigger cv@, ov@]
                {
                    let s = chunk_start(old(v)@.len() as int, threads as int, j);
                    let l = chunk_len(old(v)@.len() as int, threads as int, j);
                    cv@ == old(v)@.subrange(s, s + l) && ov@ == final(v)@.subrange(s, s + l)
                        && call_ensures(f, (cv, s as usize), ov)
                },
{
    let n = v.len();
    let ghost orig = v@;
    let ghost ni = n as int;
    let ghost ti = threads as int;
    let bounds = partition_bounds(n, threads);
    proof {
        lemma_chunks_cover(ni, ti);
    }
    let mut j: usize = 0;
    while j < bounds.len()
        invariant
            threads >= 1,
            n == orig.len(),
            v@.len() == n,
            ni == n as int,
            ti == threads as int,
            bounds@.len() == chunk_count(ni, ti),
            forall|jj: int|
                0 <= jj < bounds@.len() ==> (#[trigger] bounds@[jj]).0 == chunk_start(ni, ti, jj)
                    && bounds@[jj].1 == chunk_len(ni, ti, jj),
            j <= bounds@.len(),
            chunk_start(ni, ti, j as int) <= n,
            forall|idx: int| chunk_start(ni, ti, j as int) <= idx < n ==> v@[idx] == orig[idx],
            forall|args: (Vec<T>, usize)| #[trigger] call_requires(f, args),
            forall|chunk: Vec<T>, off: usize, out: Vec<T>|
                #[trigger] call_ensures(f, (chunk, off), out) ==> out@.len() == chunk@.len(),
            forall|jj: int|
                #![trigger chunk_start(ni, ti, jj)]
                0 <= jj < j ==> exists|cv: Vec<T>, ov: Vec<T>|
                    #![trigger cv@, ov@]
                    {
                        let s = chunk_start(ni, ti, jj);
                        let l = chunk_len(ni, ti, jj);
                        cv@ == orig.subrange(s, s + l) && ov@ == v@.subrange(s, s + l)
                            && call_ensures(f, (cv, s as usize), ov)
                    },
        decreases bounds@.len() - j,
    {
        let (start, len) = bounds[j];
        proof {
            lemma_chunks_cover(ni, ti);
            lemma_chunks_monotone(ni, ti, j as int + 1, chunk_count(ni, ti));
        }
        let mut chunk: Vec<T> = Vec::new();
        let mut i: usize = 0;
        while i < len
            invariant
                v@.len() == n,
                start + len <= n,
                i <= len,
                chunk@.len() == i,
                forall|ii: int| 0 <= ii < i ==> chunk@[ii] == v@[start + ii],
            decreases len - i,
        {
            chunk.push(v[start + i]);
            i = i + 1;
        }
        let ghost prev_v = v@;
        proof {
            assert(chunk@ =~= prev_v.subrange(start as int, start as int + len as int));
            assert(prev_v.subrange(start as int, start as int + len as int) =~= orig.subrange(
                start as int,
                start as int + len as int,
            ));
        }
        let out = f(chunk, start);
        let mut i: usize = 0;
        while i < len
            invariant
                v@.len() == n,
                start + len <= n,
                i <= len,
                out@.len() == len,
                forall|ii: int| 0 <= ii < i ==> v@[start + ii] == out@[ii],
                forall|idx: int|
                    ((0 <= idx < start) || (start + i <= idx < n)) ==> v@[idx] == prev_v[idx],
            decreases len - i,
        {
            let x = out[i];
            v.set(start + i, x);
            i = i + 1;
        }
        proof {
            assert(out@ =~= v@.subrange(start as int, start as int + len as int));
            assert forall|jj: int| 0 <= jj < j implies v@.subrange(
                chunk_start(ni, ti, jj),
                chunk_start(ni, ti, jj) + chunk_len(ni, ti, jj),
            ) =~= prev_v.subrange(
                chunk_start(ni, ti, jj),
                chunk_start(ni, ti, jj) + chunk_len(ni, ti, jj),
            ) by {
                lemma_chunks_monotone(ni, ti, 0, jj);
                lemma_chunks_monotone(ni, ti, jj, jj);
                lemma_chunks_monotone(ni, ti, jj + 1, j as int);
                assert(chunk_start(ni, ti, jj) + chunk_len(ni, ti, jj) <= chunk_start(
                    ni,
                    ti,
                    j as int,
                ));
            }
        }
        j = j + 1;
    }
}

/// Runs the two operations to completion and returns both results: the
/// two-way fork/join primitive used by the recursive transform.
pub fn join<RA, RB, A: FnOnce() -> RA, B: FnOnce() -> RB>(f: A, g: B) -> (r: (RA, RB))
    requires
        call_requires(f, ()),
        call_requires(g, ()),
    ensures
        call_ensures(f, (), r.0),
        call_ensures(g, (), r.1),
{
    let ra = f();
    let rb = g();
    (ra, rb)
}

/// The floor of the base-2 logarithm of a positive number.
pub fn log2_floor(num: usize) -> (r: u32)
    requires
        num >= 1,
    ensures
        pow2(r as nat) <= num < pow2(r as nat + 1),
{
    let nn: u64 = num as u64;
    let mut p2: u128 = 1;
    let mut r: u32 = 0;
    proof {
        vstd::arithmetic::power2::lemma2_to64();
        vstd::arithmetic::power2::lemma2_to64_rest();
    }
    while p2 * 2 <= nn as u128
        invariant
            nn == num,
            nn >= 1,
            p2 == pow2(r as nat),
            1 <= p2 <= nn,
            r <= 64,
        decreases nn as u128 - p2,
    {
        proof {
            vstd::arithmetic::power2::lemma2_to64_rest();
            if r >= 64 {
                if r > 64 {
                    lemma_pow2_strictly_increases(64nat, r as nat);
                }
                assert(false);
            }
            lemma_pow2_unfold(r as nat + 1);
        }
        p2 = p2 * 2;
        r = r + 1;
    }
    proof {
        lemma_pow2_unfold(r as nat + 1);
    }
    r
}

} // verus!
