//! Index bookkeeping of the merging particle filter.
//!
//! Merging: each of the `n` particles is written `m` times into a list,
//! the list is shuffled, and the new particle `p` is the weighted sum of the
//! old particles found at positions `p, p + 1, ..., p + m - 1` of that list.
//!
//! Resampling: particle `i` is first kept `n * floor_i` times, in order;
//! the rest of the `n` slots is filled by random draws.
use vstd::prelude::*;
use rand::seq::SliceRandom;
use rand_xoshiro::Xoshiro256StarStar;

verus! {

#[verifier::external_type_specification]
#[verifier::external_body]
pub struct ExXoshiro256StarStar(rand_xoshiro::Xoshiro256StarStar);

/// Shuffles `order` in place with `rng`, by calling
/// `rand::seq::SliceRandom::shuffle` on the vector's slice.  That function
/// only swaps elements (a Fisher-Yates shuffle), so what comes out is a
/// permutation of what went in; which permutation depends on the state of
/// `rng` and is not stated, nor is the new state of `rng`.
#[verifier::external_body]
fn shuffle_in_place(order: &mut Vec<usize>, rng: &mut Xoshiro256StarStar)
    ensures
        final(order)@.len() == old(order)@.len(),
        final(order)@.to_multiset() == old(order)@.to_multiset(),
{
    order.shuffle(rng);
}

/// Every particle index `p < n`, written `m` times in a row:
/// position `k` holds `k / m`.
pub open spec fn repeated_spec(n: nat, m: nat) -> Seq<usize> {
    Seq::new(n * m, |k: int| (k / (m as int)) as usize)
}

/// The list of particle indices, each written `m` times in a row, before
/// it is shuffled.
pub fn repeated_indices(n: usize, m: usize) -> (order: Vec<usize>)
    requires
        n * m <= usize::MAX,
    ensures
        order@ == repeated_spec(n as nat, m as nat),
{
    let mut order: Vec<usize> = Vec::new();
    let mut p: usize = 0;
    while p < n
        invariant
            p <= n,
            n * m <= usize::MAX,
            order@.len() == p * m,
            forall|k: int| 0 <= k < order@.len() ==> #[trigger] order@[k] == k / (m as int),
        decreases n - p,
    {
        let mut q: usize = 0;
        assert(p * m + m == (p + 1) * m) by (nonlinear_arith);
        assert((p + 1) * m <= n * m) by (nonlinear_arith)
            requires
                p < n,
        ;
        while q < m
            invariant
                p < n,
                q <= m,
                n * m <= usize::MAX,
                (p + 1) * m <= n * m,
                order@.len() == p * m + q,
                forall|k: int| 0 <= k < order@.len() ==> #[trigger] order@[k] == k / (m as int),
            decreases m - q,
        {
            proof {
                vstd::arithmetic::div_mod::lemma_div_multiples_vanish_fancy(
                    p as int,
                    q as int,
                    m as int,
                );
                vstd::arithmetic::mul::lemma_mul_is_commutative(p as int, m as int);
            }
            order.push(p);
            q = q + 1;
        }
        p = p + 1;
    }
    assert(order@ =~= repeated_spec(n as nat, m as nat));
    order
}

/// The merge order of one filtering step: every particle index written `m`
/// times, then shuffled with `rng`.  Whatever the shuffle gives, the order
/// holds each particle index exactly as often as before it.
pub fn shuffled_merge_order(n: usize, m: usize, rng: &mut Xoshiro256StarStar) -> (order: Vec<
    usize,
>)
    requires
        n * m <= usize::MAX,
    ensures
        order@.len() == n * m,
        order@.to_multiset() == repeated_spec(n as nat, m as nat).to_multiset(),
        forall|k: int| 0 <= k < order@.len() ==> #[trigger] order@[k] < n,
{
    let mut order = repeated_indices(n, m);
    shuffle_in_place(&mut order, rng);
    proof {
        lemma_merge_order_counts(order@, n, m);
    }
    order
}

/// For each new particle `p < n`, the `m` positions of the merge order it
/// reads: `order[p], order[p + 1], ..., order[p + m - 1]`, the `k`-th of
/// them weighted by the `k`-th merge coefficient.
pub fn merge_sources(order: &Vec<usize>, n: usize, m: usize) -> (sources: Vec<Vec<usize>>)
    requires
        order@.len() == n * m,
    ensures
        sources@.len() == n,
        forall|p: int| 0 <= p < n ==> (#[trigger] sources@[p])@.len() == m,
        forall|p: int, k: int|
            0 <= p < n && 0 <= k < m ==> #[trigger] sources@[p]@[k] == order@[p + k],
{
    let mut sources: Vec<Vec<usize>> = Vec::new();
    let mut p: usize = 0;
    while p < n
        invariant
            p <= n,
            order@.len() == n * m,
            sources@.len() == p,
            forall|i: int| 0 <= i < p ==> (#[trigger] sources@[i])@.len() == m,
            forall|i: int, k: int|
                0 <= i < p && 0 <= k < m ==> #[trigger] sources@[i]@[k] == order@[i + k],
        decreases n - p,
    {
        let mut row: Vec<usize> = Vec::new();
        let mut k: usize = 0;
        while k < m
            invariant
                p < n,
                k <= m,
                order@.len() == n * m,
                row@.len() == k,
                forall|j: int| 0 <= j < k ==> #[trigger] row@[j] == order@[p + j],
            decreases m - k,
        {
            assert(p + k < n * m) by (nonlinear_arith)
                requires
                    p < n,
                    k < m,
            ;
            assert(order@.len() == order.len());
            row.push(order[p + k]);
            k = k + 1;
        }
        sources.push(row);
        p = p + 1;
    }
    sources
}

/// A run of `m` copies of `c` holds `c` exactly `m` times and nothing else.
proof fn lemma_constant_run_count(c: usize, m: nat, x: usize)
    ensures
        Seq::new(m, |_k: int| c).to_multiset().count(x) == if x == c {
            m
        } else {
            0
        },
    decreases m,
{
    broadcast use vstd::seq_lib::group_to_multiset_ensures;
    broadcast use vstd::multiset::group_multiset_axioms;

    if m == 0 {
        assert(Seq::new(m, |_k: int| c) =~= Seq::<usize>::empty());
    } else {
        lemma_constant_run_count(c, (m - 1) as nat, x);
        assert(Seq::new(m, |_k: int| c) =~= Seq::new((m - 1) as nat, |_k: int| c).push(c));
    }
}

/// Before the shuffle, each particle index `x < n` occurs exactly `m`
/// times, and no other value occurs.
pub proof fn lemma_repeated_count(n: usize, m: usize, x: usize)
    requires
        n * m <= usize::MAX,
    ensures
        repeated_spec(n as nat, m as nat).to_multiset().count(x) == if x < n {
            m as nat
        } else {
            0
        },
    decreases n,
{
    broadcast use vstd::seq_lib::group_to_multiset_ensures;
    broadcast use vstd::multiset::group_multiset_axioms;

    if n == 0 {
        assert(0 * (m as nat) == 0) by (nonlinear_arith);
        assert(repeated_spec(0, m as nat) =~= Seq::<usize>::empty());
    } else {
        let n0 = (n - 1) as usize;
        assert(n0 * m <= n * m) by (nonlinear_arith)
            requires
                n0 < n,
        ;
        assert(n0 * m + m == n * m) by (nonlinear_arith)
            requires
                n0 + 1 == n,
        ;
        lemma_repeated_count(n0, m, x);
        let head = repeated_spec(n0 as nat, m as nat);
        let tail = Seq::new(m as nat, |_k: int| n0);
        assert forall|k: int| 0 <= k < n * m implies #[trigger] repeated_spec(
            n as nat,
            m as nat,
        )[k] == (head + tail)[k] by {
            if k >= n0 * m {
                vstd::arithmetic::div_mod::lemma_div_multiples_vanish_fancy(
                    n0 as int,
                    k - n0 * m,
                    m as int,
                );
                vstd::arithmetic::mul::lemma_mul_is_commutative(n0 as int, m as int);
            }
        }
        assert(repeated_spec(n as nat, m as nat) =~= head + tail);
        vstd::seq_lib::lemma_multiset_commutative(head, tail);
        lemma_constant_run_count(n0, m as nat, x);
    }
}

/// Whatever the shuffle does, the merge order holds each particle index
/// `x < n` exactly `m` times and holds no other value; so every position of
/// the order names an existing particle.
pub proof fn lemma_merge_order_counts(order: Seq<usize>, n: usize, m: usize)
    requires
        n * m <= usize::MAX,
        order.to_multiset() == repeated_spec(n as nat, m as nat).to_multiset(),
    ensures
        forall|x: usize| #[trigger] order.to_multiset().count(x) == if x < n {
            m as nat
        } else {
            0
        },
        forall|k: int| 0 <= k < order.len() ==> #[trigger] order[k] < n,
{
    broadcast use vstd::seq_lib::group_to_multiset_ensures;

    assert forall|x: usize| #[trigger] order.to_multiset().count(x) == if x < n {
        m as nat
    } else {
        0
    } by {
        lemma_repeated_count(n, m, x);
    }
    assert forall|k: int| 0 <= k < order.len() implies #[trigger] order[k] < n by {
        assert(order.contains(order[k]));
        assert(order.to_multiset().count(order[k]) > 0);
    }
}

/// Merging only ever reads existing particles: for every new particle
/// `p < n` and every coefficient `k < m`, position `p + k` lies inside the
/// merge order and names a particle below `n`.
pub proof fn lemma_merge_reads_existing_particles(
    order: Seq<usize>,
    n: usize,
    m: usize,
    p: int,
    k: int,
)
    requires
        n * m <= usize::MAX,
        order.to_multiset() == repeated_spec(n as nat, m as nat).to_multiset(),
        0 <= p < n,
        0 <= k < m,
    ensures
        p + k < order.len(),
        order[p + k] < n,
{
    broadcast use vstd::seq_lib::group_to_multiset_ensures;

    assert(order.to_multiset().len() == order.len());
    assert(repeated_spec(n as nat, m as nat).to_multiset().len() == repeated_spec(
        n as nat,
        m as nat,
    ).len());
    assert(p + k < n * m) by (nonlinear_arith)
        requires
            0 <= p < n,
            0 <= k < m,
    ;
    lemma_merge_order_counts(order, n, m);
}

/// How many copies of each particle resampling keeps before any draw:
/// `n` times the floor of its weight.
pub open spec fn kept_counts(n: usize, floors: Seq<usize>) -> Seq<nat> {
    floors.map_values(|f: usize| (n * f) as nat)
}

/// The sum of the counts.
pub open spec fn total(counts: Seq<nat>) -> nat
    decreases counts.len(),
{
    if counts.len() == 0 {
        0
    } else {
        total(counts.drop_last()) + counts.last()
    }
}

/// Particle `i` written `counts[i]` times, for each `i` in order.
pub open spec fn kept_spec(counts: Seq<nat>) -> Seq<usize>
    decreases counts.len(),
{
    if counts.len() == 0 {
        Seq::<usize>::empty()
    } else {
        kept_spec(counts.drop_last()) + Seq::new(
            counts.last(),
            |_k: int| (counts.len() - 1) as usize,
        )
    }
}

/// The kept list is as long as the sum of the counts.
pub proof fn lemma_kept_len(counts: Seq<nat>)
    ensures
        kept_spec(counts).len() == total(counts),
    decreases counts.len(),
{
    if counts.len() > 0 {
        lemma_kept_len(counts.drop_last());
    }
}

/// A prefix never sums to more than the whole.
proof fn lemma_total_prefix(counts: Seq<nat>, i: int)
    requires
        0 <= i <= counts.len(),
    ensures
        total(counts.take(i)) <= total(counts),
    decreases counts.len() - i,
{
    if i < counts.len() {
        lemma_total_prefix(counts, i + 1);
        assert(counts.take(i + 1).drop_last() =~= counts.take(i));
    } else {
        assert(counts.take(i) =~= counts);
    }
}

/// The total of the kept counts is the sum of `n * floors[i]`.
pub proof fn lemma_total_is_sum(n: usize, floors: Seq<usize>)
    ensures
        total(kept_counts(n, floors)) == floors.fold_left(0int, |acc: int, f: usize| acc + n * f),
    decreases floors.len(),
{
    if floors.len() > 0 {
        lemma_total_is_sum(n, floors.drop_last());
        assert(kept_counts(n, floors).drop_last() =~= kept_counts(n, floors.drop_last()));
        assert(kept_counts(n, floors).last() == (n * floors.last()) as nat);
        assert(n * floors.last() >= 0) by (nonlinear_arith);
    }
}

/// In the kept list, particle `x` occurs `counts[x]` times, and values past
/// the last particle do not occur.
pub proof fn lemma_kept_count(counts: Seq<nat>, x: usize)
    requires
        counts.len() <= usize::MAX,
    ensures
        kept_spec(counts).to_multiset().count(x) == if x < counts.len() {
            counts[x as int]
        } else {
            0
        },
    decreases counts.len(),
{
    broadcast use vstd::seq_lib::group_to_multiset_ensures;
    broadcast use vstd::multiset::group_multiset_axioms;

    if counts.len() == 0 {
        assert(kept_spec(counts) =~= Seq::<usize>::empty());
    } else {
        let init = counts.drop_last();
        let last = (counts.len() - 1) as usize;
        lemma_kept_count(init, x);
        let run = Seq::new(counts.last(), |_k: int| (counts.len() - 1) as usize);
        assert(run =~= Seq::new(counts.last(), |_k: int| last));
        vstd::seq_lib::lemma_multiset_commutative(kept_spec(init), run);
        lemma_constant_run_count(last, counts.last(), x);
        if x < init.len() {
            assert(init[x as int] == counts[x as int]);
        }
    }
}

/// The kept list is sorted, and every entry names a particle.
pub proof fn lemma_kept_sorted(counts: Seq<nat>)
    requires
        counts.len() <= usize::MAX,
    ensures
        forall|a: int| 0 <= a < kept_spec(counts).len() ==> #[trigger] kept_spec(counts)[a]
            < counts.len(),
        forall|a: int, b: int|
            0 <= a <= b < kept_spec(counts).len() ==> #[trigger] kept_spec(counts)[a]
                <= #[trigger] kept_spec(counts)[b],
    decreases counts.len(),
{
    if counts.len() > 0 {
        let init = counts.drop_last();
        lemma_kept_sorted(init);
        let k0 = kept_spec(init);
        let run = Seq::new(counts.last(), |_k: int| (counts.len() - 1) as usize);
        let k = kept_spec(counts);
        assert(k == k0 + run);
        assert forall|a: int| 0 <= a < k.len() implies #[trigger] k[a] < counts.len() by {
            if a < k0.len() {
                assert(k[a] == k0[a]);
            } else {
                assert(k[a] == run[a - k0.len()]);
            }
        }
        assert forall|a: int, b: int| 0 <= a <= b < k.len() implies #[trigger] k[a]
            <= #[trigger] k[b] by {
            if b < k0.len() {
                assert(k[a] == k0[a]);
                assert(k[b] == k0[b]);
            } else if a < k0.len() {
                assert(k[a] == k0[a]);
                assert(k0[a] < init.len());
                assert(k[b] == run[b - k0.len()]);
            } else {
                assert(k[a] == run[a - k0.len()]);
                assert(k[b] == run[b - k0.len()]);
            }
        }
    }
}

/// The deterministic part of resampling: particle `i` kept `n * floors[i]`
/// times, particles in order.  The caller fills the remaining slots, up to
/// `n`, with random draws.
pub fn kept_particles(n: usize, floors: &Vec<usize>) -> (kept: Vec<usize>)
    requires
        total(kept_counts(n, floors@)) <= usize::MAX,
    ensures
        kept@ == kept_spec(kept_counts(n, floors@)),
        kept@.len() == total(kept_counts(n, floors@)),
        (kept@.len() == floors@.fold_left(0int, |acc: int, f: usize| acc + n * f)),
        forall|i: int|
            0 <= i < floors@.len() ==> kept@.to_multiset().count(i as usize) == n
                * #[trigger] floors@[i],
        forall|x: usize| x >= floors@.len() ==> #[trigger] kept@.to_multiset().count(x) == 0,
        forall|a: int, b: int|
            0 <= a <= b < kept@.len() ==> #[trigger] kept@[a] <= #[trigger] kept@[b],
{
    let ghost counts = kept_counts(n, floors@);
    let mut kept: Vec<usize> = Vec::new();
    let mut i: usize = 0;
    assert(counts.take(0) =~= Seq::<nat>::empty());
    while i < floors.len()
        invariant
            i <= floors.len(),
            counts == kept_counts(n, floors@),
            total(counts) <= usize::MAX,
            kept@ == kept_spec(counts.take(i as int)),
        decreases floors.len() - i,
    {
        let ghost prefix = counts.take(i + 1);
        proof {
            lemma_total_prefix(counts, i + 1);
            assert(prefix.drop_last() =~= counts.take(i as int));
            lemma_kept_len(counts.take(i as int));
            assert(prefix.last() == counts[i as int]);
            assert(counts[i as int] == (n * floors@[i as int]) as nat);
        }
        let c = n * floors[i];
        let ghost start = kept@;
        let mut j: usize = 0;
        while j < c
            invariant
                j <= c,
                kept@ == start + Seq::new(j as nat, |_k: int| i),
            decreases c - j,
        {
            kept.push(i);
            j = j + 1;
            assert(kept@ =~= start + Seq::new(j as nat, |_k: int| i));
        }
        assert(kept@ =~= kept_spec(prefix));
        i = i + 1;
    }
    assert(counts.take(floors.len() as int) =~= counts);
    proof {
        lemma_kept_len(counts);
        lemma_total_is_sum(n, floors@);
        lemma_kept_sorted(counts);
        assert forall|i: int| 0 <= i < floors@.len() implies kept@.to_multiset().count(
            i as usize,
        ) == n * #[trigger] floors@[i] by {
            lemma_kept_count(counts, i as usize);
            assert(n * floors@[i] >= 0) by (nonlinear_arith);
        }
        assert forall|x: usize| x >= floors@.len() implies #[trigger] kept@.to_multiset().count(
            x,
        ) == 0 by {
            lemma_kept_count(counts, x);
        }
    }
    kept
}

/// The number of particles resampling keeps before any draw, or `None`
/// when that number does not fit in a `usize`.
pub fn kept_total(n: usize, floors: &Vec<usize>) -> (t: Option<usize>)
    ensures
        match t {
            Some(t) => t == total(kept_counts(n, floors@)),
            None => total(kept_counts(n, floors@)) > usize::MAX,
        },
        match t {
            Some(t) => t == floors@.fold_left(0int, |acc: int, f: usize| acc + n * f),
            None => floors@.fold_left(0int, |acc: int, f: usize| acc + n * f) > usize::MAX,
        },
{
    let ghost counts = kept_counts(n, floors@);
    proof {
        lemma_total_is_sum(n, floors@);
    }
    let mut acc: usize = 0;
    let mut i: usize = 0;
    assert(counts.take(0) =~= Seq::<nat>::empty());
    while i < floors.len()
        invariant
            i <= floors.len(),
            counts == kept_counts(n, floors@),
            total(counts) == floors@.fold_left(0int, |acc: int, f: usize| acc + n * f),
            acc == total(counts.take(i as int)),
        decreases floors.len() - i,
    {
        let ghost prefix = counts.take(i + 1);
        proof {
            lemma_total_prefix(counts, i + 1);
            assert(prefix.drop_last() =~= counts.take(i as int));
            assert(prefix.last() == counts[i as int]);
        }
        let c = match n.checked_mul(floors[i]) {
            Some(c) => c,
            None => {
                return None;
            },
        };
        acc = match acc.checked_add(c) {
            Some(a) => a,
            None => {
                return None;
            },
        };
        i = i + 1;
    }
    assert(counts.take(floors.len() as int) =~= counts);
    Some(acc)
}

} // verus!
