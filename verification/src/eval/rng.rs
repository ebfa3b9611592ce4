//! SplitMix64: a small, fast generator that gives identical streams on
//! every platform, and the seeded Fisher-Yates shuffle built on it.

use vstd::prelude::*;

verus! {

/// Weyl-sequence increment of SplitMix64.
pub const GAMMA: u64 = 0x9E37_79B9_7F4A_7C15;

/// Multiplicative inverse of [`GAMMA`] modulo 2^64.
pub const GAMMA_INV: u64 = 0xF1DE_83E1_9937_733D;

/// Number of Weyl steps, minus one, from `state` until the state is zero.
pub open spec fn steps_to_zero(state: u64) -> u64 {
    (((0u64 - state) as u64 * GAMMA_INV) as u64 - 1u64) as u64
}

pub proof fn lemma_weyl_step(state: u64)
    ensures
        steps_to_zero(state) == 0 ==> (state + GAMMA) as u64 == 0,
        steps_to_zero(state) != 0 ==> steps_to_zero((state + GAMMA) as u64) == steps_to_zero(state) - 1,
{
    assert(((((0u64 - ((state + GAMMA) as u64)) as u64 * GAMMA_INV) as u64 - 1u64) as u64) == (((((
    0u64 - state) as u64 * GAMMA_INV) as u64 - 1u64) as u64 - 1u64) as u64)) by (bit_vector);
    assert(((((0u64 - state) as u64 * GAMMA_INV) as u64 - 1u64) as u64) == 0u64 ==> ((state + GAMMA) as u64)
        == 0u64) by (bit_vector);
}

/// The SplitMix64 output function.
#[verifier::opaque]
pub open spec fn mix(z: u64) -> u64 {
    let z1 = (z ^ (z >> 30u64)).wrapping_mul(0xBF58_476D_1CE4_E5B9u64);
    let z2 = (z1 ^ (z1 >> 27u64)).wrapping_mul(0x94D0_49BB_1331_11EBu64);
    z2 ^ (z2 >> 31u64)
}

/// Largest multiple of `bound` not above `u64::MAX`: draws at or above it
/// are rejected so that `draw % bound` is uniform.
pub open spec fn zone(bound: u64) -> u64 {
    (u64::MAX - (u64::MAX % bound)) as u64
}

pub proof fn lemma_weyl_add(state: u64)
    ensures
        state.wrapping_add(GAMMA) == (state + GAMMA) as u64,
{
    if state + GAMMA > u64::MAX {
        assert((state + GAMMA - 0x1_0000_0000_0000_0000int) as u64 == (state + GAMMA) as u64)
            by (bit_vector)
            requires
                state + GAMMA > u64::MAX,
        ;
    }
}

proof fn lemma_mix_zero()
    ensures
        mix(0) == 0,
{
    reveal(mix);
    assert((0u64 ^ (0u64 >> 30u64)) == 0u64) by (bit_vector);
    assert(0u64.wrapping_mul(0xBF58_476D_1CE4_E5B9u64) == 0u64);
    assert((0u64 ^ (0u64 >> 27u64)) == 0u64) by (bit_vector);
    assert(0u64.wrapping_mul(0x94D0_49BB_1331_11EBu64) == 0u64);
    assert((0u64 ^ (0u64 >> 31u64)) == 0u64) by (bit_vector);
}

proof fn lemma_zone_positive(bound: u64)
    requires
        bound > 0,
    ensures
        zone(bound) > 0,
{
    assert(u64::MAX % bound < bound) by (nonlinear_arith)
        requires
            bound > 0,
    ;
}

/// `(state, value)` after drawing a uniform integer below `bound` from the
/// stream at `state`: draw until a value falls below [`zone`], then reduce
/// it modulo `bound`.
pub open spec fn below_spec(state: u64, bound: u64) -> (u64, u64)
    recommends
        bound > 0,
    decreases steps_to_zero(state),
{
    let next = state.wrapping_add(GAMMA);
    let v = mix(next);
    if v < zone(bound) || bound == 0 || steps_to_zero(state) == 0 {
        (next, (v % bound) as u64)
    } else {
        proof {
            lemma_weyl_add(state);
            lemma_weyl_step(state);
        }
        below_spec(next, bound)
    }
}

/// The sequence after a Fisher-Yates shuffle of positions `0 ..= i`,
/// driven by the SplitMix64 stream at `state`: position `i` swaps with a
/// uniform position at or below it, then `i - 1`, down to position 1.
pub open spec fn shuffle_from<T>(items: Seq<T>, state: u64, i: int) -> Seq<T>
    decreases i,
{
    if i <= 0 || i >= items.len() {
        items
    } else {
        let (next, j) = below_spec(state, (i + 1) as u64);
        let swapped = items.update(i, items[j as int]).update(j as int, items[i]);
        shuffle_from(swapped, next, i - 1)
    }
}

/// The result of [`seeded_shuffle`] on `items` with `seed`.
pub open spec fn shuffled<T>(items: Seq<T>, seed: u64) -> Seq<T> {
    shuffle_from(items, seed, items.len() - 1)
}

proof fn lemma_swap_multiset<T>(s: Seq<T>, i: int, j: int)
    requires
        0 <= i < s.len(),
        0 <= j < s.len(),
    ensures
        s.update(i, s[j]).update(j, s[i]).to_multiset() == s.to_multiset(),
        s.update(i, s[j]).update(j, s[i]).len() == s.len(),
{
    broadcast use vstd::seq_lib::to_multiset_update;
    broadcast use vstd::multiset::group_multiset_properties;
    broadcast use vstd::seq_lib::to_multiset_contains;

    let s1 = s.update(i, s[j]);
    if i == j {
        assert(s1.update(j, s[i]) =~= s);
    } else {
        assert(s1[j] == s[j]);
        assert(s.to_multiset().count(s[i]) > 0);
        assert(s1.to_multiset() =~= s.to_multiset().insert(s[j]).remove(s[i]));
        assert(s1.update(j, s[i]).to_multiset() =~= s1.to_multiset().insert(s[i]).remove(s[j]));
        assert(s1.update(j, s[i]).to_multiset() =~= s.to_multiset());
    }
}

proof fn lemma_shuffle_from_permutes<T>(items: Seq<T>, state: u64, i: int)
    requires
        items.len() <= u64::MAX,
    ensures
        shuffle_from(items, state, i).to_multiset() == items.to_multiset(),
        shuffle_from(items, state, i).len() == items.len(),
    decreases i,
{
    if 0 < i < items.len() {
        let (next, j) = below_spec(state, (i + 1) as u64);
        lemma_below_bound(state, (i + 1) as u64);
        lemma_swap_multiset(items, i, j as int);
        let swapped = items.update(i, items[j as int]).update(j as int, items[i]);
        lemma_shuffle_from_permutes(swapped, next, i - 1);
    }
}

/// A draw from the stream lies below its bound.
pub proof fn lemma_below_bound(state: u64, bound: u64)
    requires
        bound > 0,
    ensures
        below_spec(state, bound).1 < bound,
    decreases steps_to_zero(state),
{
    let next = state.wrapping_add(GAMMA);
    let v = mix(next);
    if v < zone(bound) || steps_to_zero(state) == 0 {
        assert(v % bound < bound) by (nonlinear_arith)
            requires
                bound > 0,
        ;
    } else {
        lemma_weyl_add(state);
        lemma_weyl_step(state);
        lemma_below_bound(next, bound);
    }
}

/// A seeded shuffle only reorders: the result holds exactly the items of
/// the input, each as often.
pub proof fn lemma_shuffle_permutes<T>(items: Seq<T>, seed: u64)
    requires
        items.len() <= usize::MAX,
    ensures
        shuffled(items, seed).to_multiset() == items.to_multiset(),
        shuffled(items, seed).len() == items.len(),
{
    lemma_shuffle_from_permutes(items, seed, items.len() - 1);
}

/// SplitMix64 generator state.
pub struct SplitMix64(pub u64);

impl SplitMix64 {
    /// Advance the Weyl sequence and return the mixed output.
    pub fn next(&mut self) -> (r: u64)
        ensures
            final(self).0 == old(self).0.wrapping_add(GAMMA),
            r == mix(final(self).0),
    {
        reveal(mix);
        self.0 = self.0.wrapping_add(0x9E37_79B9_7F4A_7C15);
        let mut z = self.0;
        z = (z ^ (z >> 30)).wrapping_mul(0xBF58_476D_1CE4_E5B9);
        z = (z ^ (z >> 27)).wrapping_mul(0x94D0_49BB_1331_11EB);
        z ^ (z >> 31)
    }

    /// Uniform integer in `0..bound`, rejection-sampled.
    pub fn below(&mut self, bound: u64) -> (r: u64)
        requires
            bound > 0,
        ensures
            (final(self).0, r) == below_spec(old(self).0, bound),
            r < bound,
    {
        let limit = u64::MAX - (u64::MAX % bound);
        let ghost target = below_spec(self.0, bound);
        proof {
            lemma_zone_positive(bound);
        }
        loop
            invariant
                bound > 0,
                limit == zone(bound),
                limit > 0,
                below_spec(self.0, bound) == target,
                target == below_spec(old(self).0, bound),
            decreases steps_to_zero(self.0),
        {
            let ghost before = self.0;
            proof {
                lemma_weyl_add(before);
                lemma_weyl_step(before);
            }
            let v = self.next();
            if v < limit {
                proof {
                    assert(v % bound < bound) by (nonlinear_arith)
                        requires
                            bound > 0,
                    ;
                    assert(below_spec(before, bound) == (self.0, (v % bound) as u64));
                }
                return v % bound;
            }
            proof {
                if steps_to_zero(before) == 0 {
                    assert(self.0 == 0);
                    lemma_mix_zero();
                    assert(false);
                }
                assert(below_spec(before, bound) == below_spec(self.0, bound));
            }
        }
    }
}

pub assume_specification<E>[ <[E]>::swap ](slice: &mut [E], a: usize, b: usize)
    requires
        a < old(slice)@.len(),
        b < old(slice)@.len(),
    ensures
        final(slice)@ == old(slice)@.update(a as int, old(slice)@[b as int]).update(
            b as int,
            old(slice)@[a as int],
        ),
;

/// Fisher-Yates shuffle driven by a SplitMix64 stream seeded with `seed`.
///
/// Callers sort `items` first, so the result depends only on the item set
/// and the seed.
pub fn seeded_shuffle<T>(items: &mut [T], seed: u64)
    ensures
        final(items)@ == shuffled(old(items)@, seed),
{
    let mut rng = SplitMix64(seed);
    let len = items.len();
    if len == 0 {
        return;
    }
    let mut i = len - 1;
    while i >= 1
        invariant
            items@.len() == len,
            i < len,
            shuffle_from(items@, rng.0, i as int) == shuffled(old(items)@, seed),
        decreases i,
    {
        let j = rng.below(i as u64 + 1) as usize;
        items.swap(i, j);
        i = i - 1;
    }
}

} // verus!
