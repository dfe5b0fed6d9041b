//! Reproducible draws and samples of pixels.

use rand::seq::SliceRandom;
use rand::{Rng, SeedableRng};
use vstd::prelude::*;
use crate::order::is_permutation;
use crate::region::{frame, pixel_in_frame};
use crate::scalar::Scalar;

verus! {

/// Increment of the generator.
pub const LCG_INCREMENT: u64 = 1442695040888963407;

/// Multiplier of the generator.
pub const LCG_MULTIPLIER: u64 = 6364136223846793005;

/// A linear congruential generator over 64 bits.
#[derive(Clone, Copy, Debug, PartialEq, Eq, Structural)]
pub struct Lcg64 {
    pub state: u64,
}

/// The state after `state`.
pub open spec fn next_state(state: u64) -> u64 {
    ((state * LCG_MULTIPLIER + LCG_INCREMENT) % 0x1_0000_0000_0000_0000) as u64
}

/// The state after `k` draws with this seed.
pub open spec fn state_after(seed: u64, k: int) -> u64
    decreases k,
{
    if k <= 0 {
        ((seed + LCG_INCREMENT) % 0x1_0000_0000_0000_0000) as u64
    } else {
        next_state(state_after(seed, k - 1))
    }
}

/// The draw that leads to a state: its upper 53 bits.
pub open spec fn draw_of(state: u64) -> u64 {
    (state / 2048) as u64
}

impl Lcg64 {
    /// The generator for a seed.
    pub fn new(seed: u64) -> (g: Lcg64)
        ensures
            g.state == state_after(seed, 0),
            g.state == (seed + 1442695040888963407) % 0x1_0000_0000_0000_0000,
    {
        Lcg64 { state: seed.wrapping_add(LCG_INCREMENT) }
    }

    /// The next draw: a fraction of one, in units of two to the power of -53.
    pub fn next_draw(&mut self) -> (d: u64)
        ensures
            final(self).state == next_state(old(self).state),
            d == draw_of(final(self).state),
            d < 0x20_0000_0000_0000,
            final(self).state == (old(self).state * 6364136223846793005 + 1442695040888963407)
                % 0x1_0000_0000_0000_0000,
            2048 * d <= final(self).state < 2048 * d + 2048,
    {
        let ghost s = self.state;
        let product = self.state.wrapping_mul(LCG_MULTIPLIER);
        self.state = product.wrapping_add(LCG_INCREMENT);
        proof {
            let m = 0x1_0000_0000_0000_0000int;
            let p = s as int * LCG_MULTIPLIER;
            vstd::arithmetic::div_mod::lemma_add_mod_noop(p, LCG_INCREMENT as int, m);
            vstd::arithmetic::div_mod::lemma_small_mod(LCG_INCREMENT as nat, m as nat);
            let v = self.state;
            assert(v >> 11 == v / 2048) by (bit_vector);
        }
        self.state >> 11
    }
}

/// The pixels below `k` on the grid of this stride whose weight is positive, in
/// order.
pub open spec fn sampled(weights: Seq<Scalar>, w: int, stride: int, k: int) -> Seq<usize>
    decreases k,
{
    if k <= 0 {
        seq![]
    } else {
        let i = k - 1;
        let before = sampled(weights, w, stride, i);
        if (i % w) % stride == 0 && (i / w) % stride == 0 && (Scalar { bits: 0 }).lt(weights[i]) {
            before.push(i as usize)
        } else {
            before
        }
    }
}

/// Samples every `stride`-th pixel of every `stride`-th row whose weight is
/// positive; every pixel where the stride is 0 or 1.
pub fn sample_grid(weights: &[Scalar], width: u32, height: u32, stride: usize) -> (out: Vec<usize>)
    requires
        frame(width, height, weights@.len() as int),
    ensures
        out@ == sampled(
            weights@,
            width as int,
            if stride >= 1 {
                stride as int
            } else {
                1
            },
            weights@.len() as int,
        ),
{
    let s: usize = if stride >= 1 {
        stride
    } else {
        1
    };
    let zero = Scalar::zero();
    let mut out: Vec<usize> = Vec::new();
    let mut i: usize = 0;
    while i < weights.len()
        invariant
            i <= weights@.len(),
            frame(width, height, weights@.len() as int),
            s >= 1,
            zero == (Scalar { bits: 0 }),
            out@ == sampled(weights@, width as int, s as int, i as int),
        decreases weights@.len() - i,
    {
        proof {
            pixel_in_frame(width, height, weights@.len() as int, i as int);
        }
        let x = i % (width as usize);
        let y = i / (width as usize);
        if x % s == 0 && y % s == 0 && zero.less(&weights[i]) {
            out.push(i);
        }
        i += 1;
    }
    out
}

/// Samples every pixel whose weight is positive.
pub fn sample_all(weights: &[Scalar]) -> (out: Vec<usize>)
    ensures
        out@ == positives(weights@, weights@.len() as int),
{
    let zero = Scalar::zero();
    let mut out: Vec<usize> = Vec::new();
    let mut i: usize = 0;
    while i < weights.len()
        invariant
            i <= weights@.len(),
            zero == (Scalar { bits: 0 }),
            out@ == positives(weights@, i as int),
        decreases weights@.len() - i,
    {
        if zero.less(&weights[i]) {
            out.push(i);
        }
        i += 1;
    }
    out
}

/// The positions below `k` of positive weights, in order.
pub open spec fn positives(weights: Seq<Scalar>, k: int) -> Seq<usize>
    decreases k,
{
    if k <= 0 {
        seq![]
    } else if (Scalar { bits: 0 }).lt(weights[k - 1]) {
        positives(weights, k - 1).push((k - 1) as usize)
    } else {
        positives(weights, k - 1)
    }
}

/// Every sample is a pixel of the image with a positive weight, and the samples
/// ascend.
pub proof fn samples_ascend(weights: Seq<Scalar>, w: int, stride: int, k: int)
    requires
        0 <= k <= weights.len(),
        weights.len() <= usize::MAX,
    ensures
        forall|m: int|
            #![trigger sampled(weights, w, stride, k)[m]]
            0 <= m < sampled(weights, w, stride, k).len() ==> {
                let i = sampled(weights, w, stride, k)[m] as int;
                i < k && (Scalar { bits: 0 }).lt(weights[i])
            },
        forall|a: int, b: int|
            #![trigger sampled(weights, w, stride, k)[a], sampled(weights, w, stride, k)[b]]
            0 <= a < b < sampled(weights, w, stride, k).len() ==> sampled(
                weights,
                w,
                stride,
                k,
            )[a] < sampled(weights, w, stride, k)[b],
    decreases k,
{
    if k > 0 {
        samples_ascend(weights, w, stride, k - 1);
        let before = sampled(weights, w, stride, k - 1);
        let now = sampled(weights, w, stride, k);
        assert forall|m: int| #![trigger now[m]] 0 <= m < now.len() implies {
            let i = now[m] as int;
            i < k && (Scalar { bits: 0 }).lt(weights[i])
        } by {
            if m < before.len() {
                assert(now[m] == before[m]);
            }
        }
        assert forall|a: int, b: int| #![trigger now[a], now[b]] 0 <= a < b < now.len() implies now[a]
            < now[b] by {
            assert(now[a] == before[a]);
            if b < before.len() {
                assert(now[b] == before[b]);
            }
        }
    }
}

/// With a stride of one, every pixel with a positive weight is a sample.
pub proof fn stride_one_takes_all(weights: Seq<Scalar>, w: int, k: int)
    requires
        w > 0,
    ensures
        sampled(weights, w, 1, k) == positives(weights, k),
    decreases k,
{
    if k > 0 {
        stride_one_takes_all(weights, w, k - 1);
        let i = k - 1;
        assert((i % w) % 1 == 0 && (i / w) % 1 == 0) by (nonlinear_arith);
    }
}

/// The items in the order that shuffling from a seed gives them.
pub uninterp spec fn shuffled_by(items: Seq<usize>, seed: u64) -> Seq<usize>;

/// Calls `SliceRandom::shuffle` of the `rand` crate with a
/// `rand_xoshiro::Xoshiro256PlusPlus` made by `seed_from_u64`. The generator has
/// no other source than the seed, so the order depends on the items and the seed
/// alone, and shuffling only swaps items; which order comes out is not stated.
#[verifier::external_body]
fn shuffle(items: Vec<usize>, seed: u64) -> (out: Vec<usize>)
    requires
        items@.len() <= u32::MAX,
    ensures
        out@ == shuffled_by(items@, seed),
        out@.to_multiset() == items@.to_multiset(),
{
    let mut rng = rand_xoshiro::Xoshiro256PlusPlus::seed_from_u64(seed);
    let mut out = items;
    out.as_mut_slice().shuffle(&mut rng);
    out
}

/// The first `count` numbers that a generator gives from a seed.
pub uninterp spec fn generated(seed: u64, count: int) -> Seq<u64>;

/// Calls `Rng::fill` of the `rand` crate with a `rand_xoshiro::Xoshiro256Plus` made
/// by `seed_from_u64`. It fills the whole list, and the generator has no other
/// source than the seed, so the numbers depend on the seed and their count alone;
/// which numbers come out is not stated.
#[verifier::external_body]
pub(crate) fn draw_numbers(seed: u64, count: usize) -> (out: Vec<u64>)
    requires
        8 * count <= isize::MAX,
    ensures
        out@ == generated(seed, count as int),
        out@.len() == count,
{
    let mut rng = rand_xoshiro::Xoshiro256Plus::seed_from_u64(seed);
    let mut out: Vec<u64> = vec![0; count];
    rng.fill(out.as_mut_slice());
    out
}

/// The numbers below `n`, in order.
pub open spec fn counted(n: int) -> Seq<usize> {
    Seq::new(n as nat, |i: int| i as usize)
}

/// Lists the numbers below `n`, in order.
pub fn count_up(n: usize) -> (list: Vec<usize>)
    ensures
        list@ == counted(n as int),
{
    let mut list: Vec<usize> = Vec::new();
    let mut i: usize = 0;
    while i < n
        invariant
            i <= n,
            list@.len() == i,
            forall|k: int| #![trigger list@[k]] 0 <= k < i ==> list@[k] == k,
        decreases n - i,
    {
        list.push(i);
        i += 1;
    }
    assert(list@ =~= counted(n as int));
    list
}

/// What holds the same items as the numbers below `n` lists each of them once.
pub proof fn rearranged_is_permutation(p: Seq<usize>, n: int)
    requires
        0 <= n <= usize::MAX,
        p.to_multiset() == counted(n).to_multiset(),
    ensures
        is_permutation(p, n),
{
    broadcast use vstd::seq_lib::group_to_multiset_ensures;

    let q = counted(n);
    assert(q.no_duplicates());
    q.lemma_multiset_has_no_duplicates();
    assert(p.len() == p.to_multiset().len());
    assert(q.len() == q.to_multiset().len());
    assert(p.no_duplicates()) by {
        assert forall|x: usize| p.to_multiset().contains(x) implies p.to_multiset().count(x)
            == 1 by {
            assert(q.to_multiset().contains(x));
        }
        p.lemma_multiset_has_no_duplicates_conv();
    }
    assert forall|i: int| #![trigger p[i]] 0 <= i < p.len() implies p[i] < n by {
        assert(p.to_multiset().contains(p[i]));
        assert(q.contains(p[i]));
    }
}

/// Number of items in a batch.
pub const BATCH_SIZE: usize = 2048;

/// The batch drawn from `n` items: the first of them in shuffled order.
pub open spec fn batch_of(n: int, seed: u64) -> Seq<usize> {
    let all = shuffled_by(counted(n), seed);
    if n <= BATCH_SIZE {
        all
    } else {
        all.take(BATCH_SIZE as int)
    }
}

/// Draws a batch: up to `BATCH_SIZE` different ones of `n` items.
pub fn draw_batch(n: usize, seed: u64) -> (batch: Vec<usize>)
    requires
        n <= u32::MAX,
    ensures
        batch@ == batch_of(n as int, seed),
        batch@.len() == if n <= BATCH_SIZE {
            n
        } else {
            BATCH_SIZE
        },
        forall|i: int| #![trigger batch@[i]] 0 <= i < batch@.len() ==> batch@[i] < n,
        forall|i: int, j: int|
            #![trigger batch@[i], batch@[j]]
            0 <= i < j < batch@.len() ==> batch@[i] != batch@[j],
{
    let all = shuffle(count_up(n), seed);
    proof {
        rearranged_is_permutation(all@, n as int);
    }
    if n <= BATCH_SIZE {
        return all;
    }
    let mut batch: Vec<usize> = Vec::new();
    let mut i: usize = 0;
    while i < BATCH_SIZE
        invariant
            i <= BATCH_SIZE < n,
            all@.len() == n,
            batch@.len() == i,
            forall|k: int| #![trigger batch@[k]] 0 <= k < i ==> batch@[k] == all@[k],
        decreases BATCH_SIZE - i,
    {
        batch.push(all[i]);
        i += 1;
    }
    assert(batch@ =~= all@.take(BATCH_SIZE as int));
    batch
}

/// Number of rounds of batches for `n` items: a quarter of the batches that the
/// items fill, but at least 5 and at most 20.
pub open spec fn rounds_for(n: int) -> int {
    let quarter = (n + 2047) / 2048 / 4;
    if quarter < 5 {
        5
    } else if quarter > 20 {
        20
    } else {
        quarter
    }
}

/// A pixel is sampled exactly where its column and its row are multiples of the
/// stride and its weight is positive.
pub proof fn sampled_lies_on_grid(weights: Seq<Scalar>, w: int, stride: int, k: int, i: int)
    requires
        0 <= i < k <= weights.len(),
        weights.len() <= usize::MAX,
    ensures
        sampled(weights, w, stride, k).contains(i as usize) <==> (i % w) % stride == 0 && (i / w)
            % stride == 0 && (Scalar { bits: 0 }).lt(weights[i]),
    decreases k,
{
    let now = sampled(weights, w, stride, k);
    let before = sampled(weights, w, stride, k - 1);
    sampled_within(weights, w, stride, k - 1);
    if i < k - 1 {
        sampled_lies_on_grid(weights, w, stride, k - 1, i);
        if before.contains(i as usize) {
            let m = choose|m: int| 0 <= m < before.len() && before[m] == i as usize;
            assert(now[m] == i as usize);
        }
        if now.contains(i as usize) {
            let m = choose|m: int| 0 <= m < now.len() && now[m] == i as usize;
            assert(m < before.len() ==> before[m] == i as usize);
        }
    } else {
        if now.len() > before.len() {
            assert(now[before.len() as int] == i as usize);
        }
        if before.contains(i as usize) {
            let m = choose|m: int| 0 <= m < before.len() && before[m] == i as usize;
            assert(before[m] < k - 1);
        }
    }
}

proof fn sampled_within(weights: Seq<Scalar>, w: int, stride: int, k: int)
    requires
        0 <= k <= weights.len(),
        weights.len() <= usize::MAX,
    ensures
        forall|m: int|
            #![trigger sampled(weights, w, stride, k)[m]]
            0 <= m < sampled(weights, w, stride, k).len() ==> sampled(weights, w, stride, k)[m] < k,
    decreases k,
{
    if k > 0 {
        sampled_within(weights, w, stride, k - 1);
        let before = sampled(weights, w, stride, k - 1);
        let now = sampled(weights, w, stride, k);
        assert forall|m: int| #![trigger now[m]] 0 <= m < now.len() implies now[m] < k by {
            if m < before.len() {
                assert(now[m] == before[m]);
            }
        }
    }
}

/// Without a grid, a pixel is taken exactly where its weight is positive.
pub proof fn positives_are_positive(weights: Seq<Scalar>, k: int, i: int)
    requires
        0 <= i < k <= weights.len(),
        weights.len() <= usize::MAX,
    ensures
        positives(weights, k).contains(i as usize) <==> (Scalar { bits: 0 }).lt(weights[i]),
    decreases k,
{
    let now = positives(weights, k);
    let before = positives(weights, k - 1);
    positives_within(weights, k - 1);
    if i < k - 1 {
        positives_are_positive(weights, k - 1, i);
        if before.contains(i as usize) {
            let m = choose|m: int| 0 <= m < before.len() && before[m] == i as usize;
            assert(now[m] == i as usize);
        }
        if now.contains(i as usize) {
            let m = choose|m: int| 0 <= m < now.len() && now[m] == i as usize;
            assert(m < before.len() ==> before[m] == i as usize);
        }
    } else {
        if now.len() > before.len() {
            assert(now[before.len() as int] == i as usize);
        }
        if before.contains(i as usize) {
            let m = choose|m: int| 0 <= m < before.len() && before[m] == i as usize;
            assert(before[m] < k - 1);
        }
    }
}

proof fn positives_within(weights: Seq<Scalar>, k: int)
    requires
        0 <= k <= weights.len(),
        weights.len() <= usize::MAX,
    ensures
        forall|m: int|
            #![trigger positives(weights, k)[m]]
            0 <= m < positives(weights, k).len() ==> positives(weights, k)[m] < k,
    decreases k,
{
    if k > 0 {
        positives_within(weights, k - 1);
        let before = positives(weights, k - 1);
        let now = positives(weights, k);
        assert forall|m: int| #![trigger now[m]] 0 <= m < now.len() implies now[m] < k by {
            if m < before.len() {
                assert(now[m] == before[m]);
            }
        }
    }
}

/// There are between 5 and 20 rounds; in between, one for every four batches of
/// 2048.
pub proof fn rounds_follow_batches(n: int)
    requires
        0 <= n,
    ensures
        5 <= rounds_for(n) <= 20,
        5 < rounds_for(n) ==> 8192 * rounds_for(n) < n + 2048,
        rounds_for(n) < 20 ==> n <= 8192 * (rounds_for(n) + 1),
{
    let q = (n + 2047) / 2048;
    let r = q / 4;
    assert(2048 * q <= n + 2047 < 2048 * q + 2048);
    assert(4 * r <= q < 4 * r + 4);
}

/// The items of a batch are the first 2048 of all items in their shuffled order, or
/// all of them where they are fewer.
pub proof fn batches_are_prefixes(n: int, seed: u64, i: int)
    requires
        0 <= i < n,
        i < 2048,
        shuffled_by(counted(n), seed).len() == n,
    ensures
        batch_of(n, seed).len() == if n <= 2048 {
            n
        } else {
            2048
        },
        batch_of(n, seed)[i] == shuffled_by(counted(n), seed)[i],
{
}

/// Number of rounds of batches for `n` items.
pub fn batch_rounds(n: usize) -> (r: usize)
    ensures
        r == rounds_for(n as int),
{
    let batches: u128 = (n as u128 + 2047) / 2048;
    let quarter = batches / 4;
    if quarter < 5 {
        5
    } else if quarter > 20 {
        20
    } else {
        quarter as usize
    }
}

} // verus!
