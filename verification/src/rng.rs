//! A small deterministic pseudo-random generator (splitmix64), so that the same
//! seed always yields the same puzzle.
use vstd::prelude::*;
use vstd::wrapping::u64_specs::{wrapping_add, wrapping_mul};

verus! {

/// The splitmix64 increment.
pub const GOLDEN_GAMMA: u64 = 0x9E37_79B9_7F4A_7C15;

/// The splitmix64 finaliser.
pub open spec fn mix_spec(z: u64) -> u64 {
    let z1 = wrapping_mul(z ^ (z >> 30u64), 0xbf58_476d_1ce4_e5b9u64);
    let z2 = wrapping_mul(z1 ^ (z1 >> 27u64), 0x94d0_49bb_1331_11ebu64);
    z2 ^ (z2 >> 31u64)
}

/// The splitmix64 finaliser, which spreads the bits of `z` over the whole word.
pub fn mix(z: u64) -> (r: u64)
    ensures
        r == mix_spec(z),
{
    let z = (z ^ (z >> 30)).wrapping_mul(0xbf58_476d_1ce4_e5b9);
    let z = (z ^ (z >> 27)).wrapping_mul(0x94d0_49bb_1331_11eb);
    z ^ (z >> 31)
}

/// Undoing a xor with a right shift of 27, 30 or 31 bits.
proof fn lemma_xorshift_injective(a: u64, b: u64)
    ensures
        a ^ (a >> 30u64) == b ^ (b >> 30u64) ==> a == b,
        a ^ (a >> 27u64) == b ^ (b >> 27u64) ==> a == b,
        a ^ (a >> 31u64) == b ^ (b >> 31u64) ==> a == b,
{
    assert(a ^ (a >> 30u64) == b ^ (b >> 30u64) ==> a == b) by (bit_vector);
    assert(a ^ (a >> 27u64) == b ^ (b >> 27u64) ==> a == b) by (bit_vector);
    assert(a ^ (a >> 31u64) == b ^ (b >> 31u64) ==> a == b) by (bit_vector);
}

/// Multiplying by a number with an inverse modulo 2^64 loses nothing.
proof fn lemma_mul_injective(a: u64, b: u64, c: u64, ci: u64)
    requires
        (c as int * ci as int) % 0x1_0000_0000_0000_0000int == 1,
        wrapping_mul(a, c) == wrapping_mul(b, c),
    ensures
        a == b,
{
    let m = 0x1_0000_0000_0000_0000int;
    assert forall|x: u64| (wrapping_mul(wrapping_mul(x, c), ci) as int) == x as int by {
        vstd::arithmetic::div_mod::lemma_mul_mod_noop_left(x as int * c as int, ci as int, m);
        vstd::arithmetic::mul::lemma_mul_is_associative(x as int, c as int, ci as int);
        vstd::arithmetic::div_mod::lemma_mul_mod_noop_right(x as int, c as int * ci as int, m);
        vstd::arithmetic::div_mod::lemma_small_mod(x as nat, m as nat);
    }
    assert(wrapping_mul(wrapping_mul(a, c), ci) == a);
    assert(wrapping_mul(wrapping_mul(b, c), ci) == b);
}

/// Xor with the same word loses nothing.
pub proof fn lemma_xor_cancel(x: u64, a: u64, b: u64)
    ensures
        x ^ a == x ^ b ==> a == b,
{
    assert(x ^ a == x ^ b ==> a == b) by (bit_vector);
}

/// The splitmix64 finaliser is one-to-one: different words mix to different
/// words.
pub proof fn lemma_mix_injective(a: u64, b: u64)
    requires
        mix_spec(a) == mix_spec(b),
    ensures
        a == b,
{
    let a1 = wrapping_mul(a ^ (a >> 30u64), 0xbf58_476d_1ce4_e5b9u64);
    let b1 = wrapping_mul(b ^ (b >> 30u64), 0xbf58_476d_1ce4_e5b9u64);
    let a2 = wrapping_mul(a1 ^ (a1 >> 27u64), 0x94d0_49bb_1331_11ebu64);
    let b2 = wrapping_mul(b1 ^ (b1 >> 27u64), 0x94d0_49bb_1331_11ebu64);
    lemma_xorshift_injective(a2, b2);
    assert(0xbf58_476d_1ce4_e5b9int * 0x96de_1b17_3f11_9089int % 0x1_0000_0000_0000_0000int == 1);
    assert(0x94d0_49bb_1331_11ebint * 0x3196_42b2_d24d_8ec3int % 0x1_0000_0000_0000_0000int == 1);
    lemma_mul_injective(a1 ^ (a1 >> 27u64), b1 ^ (b1 >> 27u64), 0x94d0_49bb_1331_11ebu64, 0x3196_42b2_d24d_8ec3u64);
    lemma_xorshift_injective(a1, b1);
    lemma_mul_injective(a ^ (a >> 30u64), b ^ (b >> 30u64), 0xbf58_476d_1ce4_e5b9u64, 0x96de_1b17_3f11_9089u64);
    lemma_xorshift_injective(a, b);
}

/// The state a generator in `state` moves to on its next draw.
pub open spec fn next_state(state: u64) -> u64 {
    wrapping_add(state, GOLDEN_GAMMA)
}

/// The 64 bits a generator in `state` draws next.
pub open spec fn next_draw(state: u64) -> u64 {
    mix_spec(next_state(state))
}

/// A splitmix64 generator.
pub struct Rng {
    state: u64,
}

impl Rng {
    /// The generator's state.
    pub closed spec fn state(&self) -> u64 {
        self.state
    }

    /// A generator seeded with `seed`.
    pub fn new(seed: u64) -> (r: Self)
        ensures
            r.state() == seed,
    {
        Rng { state: seed }
    }

    /// The next 64 random bits.
    pub fn next_u64(&mut self) -> (r: u64)
        ensures
            final(self).state() == next_state(old(self).state()),
            r == next_draw(old(self).state()),
    {
        self.state = self.state.wrapping_add(GOLDEN_GAMMA);
        mix(self.state)
    }

    /// A number in `0..n`.
    pub fn range(&mut self, n: usize) -> (r: usize)
        requires
            n > 0,
        ensures
            r < n,
            final(self).state() == next_state(old(self).state()),
            r == next_draw(old(self).state()) % (n as u64),
    {
        let x = self.next_u64();
        (x % (n as u64)) as usize
    }

    /// Shuffles `v` in place (Fisher-Yates): the result holds the same elements.
    pub fn shuffle<T: Copy>(&mut self, v: &mut Vec<T>)
        ensures
            final(v)@ == shuffle_spec(old(v)@, old(v)@.len(), old(self).state()).0,
            final(self).state() == shuffle_spec(old(v)@, old(v)@.len(), old(self).state()).1,
            final(v)@.len() == old(v)@.len(),
            final(v)@.to_multiset() == old(v)@.to_multiset(),
    {
        broadcast use vstd::seq_lib::to_multiset_update;
        broadcast use vstd::multiset::group_multiset_axioms;
        let n = v.len();
        let mut i = n;
        while i > 1
            invariant
                v@.len() == n,
                v@.len() == old(v)@.len(),
                v@.to_multiset() == old(v)@.to_multiset(),
                i <= n,
                shuffle_spec(v@, i as nat, self.state()) == shuffle_spec(old(v)@, n as nat, old(self).state()),
            decreases i,
        {
            i = i - 1;
            let j = self.range(i + 1);
            let a = v[i];
            let b = v[j];
            let ghost s0 = v@;
            v.set(i, b);
            let ghost s1 = v@;
            v.set(j, a);
            proof {
                assert(s1 == s0.update(i as int, b));
                vstd::seq_lib::to_multiset_update(s0, i as int, b);
                assert(v@ == s1.update(j as int, a));
                vstd::seq_lib::to_multiset_update(s1, j as int, a);
                assert(s1[j as int] == b);
                assert(s0[i as int] == a);
                assert(s0.contains(a));
                vstd::seq_lib::to_multiset_contains(s0, a);
                assert(s0.to_multiset().count(a) > 0);
                assert(v@.to_multiset() =~= s0.to_multiset());
            }
        }
    }
}

/// The Fisher-Yates pass over the first `i` entries of `s` from generator state
/// `state`: the shuffled sequence and the state after it. Entry `i - 1` is
/// swapped with a drawn entry at or before it, then the pass goes on below.
pub open spec fn shuffle_spec<T>(s: Seq<T>, i: nat, state: u64) -> (Seq<T>, u64)
    decreases i,
{
    if i <= 1 {
        (s, state)
    } else {
        let k = i - 1;
        let j = (next_draw(state) % (i as u64)) as int;
        shuffle_spec(s.update(k, s[j]).update(j, s[k]), k as nat, next_state(state))
    }
}

/// The Fisher-Yates pass only reorders: it keeps the length and the
/// multiset of entries.
pub proof fn lemma_shuffle_perm<T>(s: Seq<T>, i: nat, state: u64)
    requires
        i <= s.len() <= u64::MAX,
    ensures
        shuffle_spec(s, i, state).0.len() == s.len(),
        shuffle_spec(s, i, state).0.to_multiset() == s.to_multiset(),
    decreases i,
{
    if i > 1 {
        let k = i - 1;
        let j = (next_draw(state) % (i as u64)) as int;
        assert((i as u64) as int == i);
        assert(0 <= j < i);
        let a = s[k as int];
        let b = s[j];
        let s1 = s.update(k as int, b);
        let s2 = s1.update(j, a);
        vstd::seq_lib::to_multiset_update(s, k as int, b);
        vstd::seq_lib::to_multiset_update(s1, j, a);
        assert(s1[j] == b);
        assert(s.contains(a));
        vstd::seq_lib::to_multiset_contains(s, a);
        assert(s.to_multiset().count(a) > 0);
        broadcast use vstd::multiset::group_multiset_axioms;
        assert(s2.to_multiset() =~= s.to_multiset());
        assert(s.update(k as int, s[j]).update(j, s[k as int]) == s2);
        lemma_shuffle_perm(s2, k as nat, next_state(state));
    }
}

} // verus!
