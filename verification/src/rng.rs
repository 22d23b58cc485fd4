use vstd::prelude::*;
use vstd::utf8::encode_utf8;

verus! {

/// Increment added to the state before every draw.
pub const GOLDEN_GAMMA: u64 = 0x9E37_79B9_7F4A_7C15;

/// The SplitMix64 output finaliser applied to the advanced state.
pub open spec fn mix(z: u64) -> u64 {
    let z1 = (z ^ (z >> 30u64)).wrapping_mul(0xBF58_476D_1CE4_E5B9u64);
    let z2 = (z1 ^ (z1 >> 27u64)).wrapping_mul(0x94D0_49BB_1331_11EBu64);
    z2 ^ (z2 >> 31u64)
}

/// State after one draw.
pub open spec fn advance(state: u64) -> u64 {
    state.wrapping_add(GOLDEN_GAMMA)
}

/// Value returned by the draw made from `state`.
pub open spec fn output(state: u64) -> u64 {
    mix(advance(state))
}

/// State after `n` draws starting from `seed`.
pub open spec fn state_after(seed: u64, n: nat) -> u64
    decreases n,
{
    if n == 0 {
        seed
    } else {
        advance(state_after(seed, (n - 1) as nat))
    }
}

/// The first `n` values drawn from a generator seeded with `seed`.
pub open spec fn stream(seed: u64, n: nat) -> Seq<u64>
    decreases n,
{
    if n == 0 {
        Seq::empty()
    } else {
        stream(seed, (n - 1) as nat).push(output(state_after(seed, (n - 1) as nat)))
    }
}

/// The inverse of `GOLDEN_GAMMA` modulo 2^64.
pub const GAMMA_INVERSE: u64 = 0xF1DE_83E1_9937_733D;

/// Number of draws from `state` before the state advanced to is 0. Since
/// the increment is odd, every state is reached within 2^64 draws.
pub open spec fn draws_to_zero(state: u64) -> nat {
    (((0 - state as int - GOLDEN_GAMMA as int) * GAMMA_INVERSE as int) % modulus()) as nat
}

proof fn lemma_gamma_inverse()
    ensures
        GOLDEN_GAMMA as int * GAMMA_INVERSE as int == 10771413168148108919int * modulus() + 1,
{
    assert(0x9E37_79B9_7F4A_7C15int * 0xF1DE_83E1_9937_733Dint == 10771413168148108919int
        * 0x1_0000_0000_0000_0000int + 1);
}

proof fn lemma_mix_zero()
    ensures
        mix(0) == 0,
{
    assert(0u64 ^ (0u64 >> 30u64) == 0u64) by (bit_vector);
    assert(0u64 ^ (0u64 >> 27u64) == 0u64) by (bit_vector);
    assert(0u64 ^ (0u64 >> 31u64) == 0u64) by (bit_vector);
    assert(0u64.wrapping_mul(0xBF58_476D_1CE4_E5B9u64) == 0);
    assert(0u64.wrapping_mul(0x94D0_49BB_1331_11EBu64) == 0);
}

/// A draw that is not 0 brings the generator one draw closer to the state
/// 0; at that distance 0 the next draw is 0.
pub proof fn lemma_draws_to_zero_step(state: u64)
    ensures
        draws_to_zero(state) == 0 ==> output(state) == 0,
        draws_to_zero(state) != 0 ==> draws_to_zero(advance(state)) + 1 == draws_to_zero(state),
{
    let m = modulus();
    let g = GOLDEN_GAMMA as int;
    let v = GAMMA_INVERSE as int;
    let k = 10771413168148108919int;
    lemma_gamma_inverse();
    let c = 0 - state as int - g;
    let x = c * v;
    let d = x % m;
    vstd::arithmetic::div_mod::lemma_fundamental_div_mod(x, m);
    let t = x / m;
    assert(x == m * t + d);
    let adv = advance(state);
    let q: int = if state as int + g > u64::MAX as int { 1 } else { 0 };
    assert(adv as int == state as int + g - m * q);
    if d == 0 {
        // c * v == m * t, so c == c * (g * v) - c * k * m == m * (t * g - c * k)
        assert(c == m * (t * g - c * k)) by (nonlinear_arith)
            requires
                c * v == m * t,
                g * v == k * m + 1,
        ;
        assert(adv == 0) by (nonlinear_arith)
            requires
                c == m * (t * g - c * k),
                c == 0 - state as int - g,
                adv as int == state as int + g - m * q,
                0 <= adv < m,
                m == 0x1_0000_0000_0000_0000int,
        ;
        lemma_mix_zero();
    } else {
        let c2 = 0 - adv as int - g;
        assert(c2 * v == (x - 1) + m * (q * v - k)) by (nonlinear_arith)
            requires
                c2 == c - g + m * q,
                x == c * v,
                g * v == k * m + 1,
        ;
        assert((x - 1) == m * t + (d - 1));
        vstd::arithmetic::div_mod::lemma_mod_multiples_vanish(t + q * v - k, d - 1, m);
        assert(c2 * v == m * (t + q * v - k) + (d - 1)) by (nonlinear_arith)
            requires
                c2 * v == (x - 1) + m * (q * v - k),
                x - 1 == m * t + (d - 1),
        ;
        vstd::arithmetic::div_mod::lemma_small_mod((d - 1) as nat, m as nat);
    }
}

/// The largest multiple of `n` not above 2^64: draws below it are accepted,
/// so that each remainder modulo `n` is taken by equally many draws.
pub open spec fn acceptance_bound(n: u64) -> int {
    modulus() - modulus() % (n as int)
}

/// The accepted draws `0..acceptance_bound(n)` are whole cycles of the
/// remainders modulo `n`, so each remainder is given by equally many of them;
/// the bound is the largest such, so fewer than `n` draws are discarded.
pub proof fn lemma_acceptance_bound(n: u64)
    requires
        n > 0,
    ensures
        acceptance_bound(n) % (n as int) == 0,
        modulus() - (n as int) < acceptance_bound(n) <= modulus(),
{
    let m = modulus();
    vstd::arithmetic::div_mod::lemma_fundamental_div_mod(m, n as int);
    vstd::arithmetic::div_mod::lemma_mod_bound(m, n as int);
    vstd::arithmetic::div_mod::lemma_mod_multiples_basic(m / (n as int), n as int);
    assert(acceptance_bound(n) == (n as int) * (m / (n as int)));
    vstd::arithmetic::mul::lemma_mul_is_commutative(n as int, m / (n as int));
}

/// A uniform integer in `[0, n)` drawn from `state` by rejection: draws at
/// or above `acceptance_bound(n)` are discarded, and the first draw below it
/// gives the result modulo `n`. Returns the result and the state after it.
pub open spec fn draw_below(state: u64, n: u64) -> (u64, u64)
    decreases draws_to_zero(state),
{
    if n == 0 {
        (0, advance(state))
    } else if (output(state) as int) < acceptance_bound(n) {
        (output(state) % n, advance(state))
    } else {
        proof {
            lemma_draws_to_zero_step(state);
            vstd::arithmetic::div_mod::lemma_mod_bound(modulus(), n as int);
        }
        draw_below(advance(state), n)
    }
}

/// The drawn integer is below `n`.
pub proof fn lemma_draw_below_range(state: u64, n: u64)
    requires
        n > 0,
    ensures
        draw_below(state, n).0 < n,
    decreases draws_to_zero(state),
{
    if (output(state) as int) >= acceptance_bound(n) {
        lemma_draws_to_zero_step(state);
        vstd::arithmetic::div_mod::lemma_mod_bound(modulus(), n as int);
        lemma_draw_below_range(advance(state), n);
    }
}

/// Drawing from the advanced state is drawing one step later.
proof fn lemma_state_after_shift(state: u64, e: nat)
    ensures
        state_after(advance(state), e) == state_after(state, e + 1),
    decreases e,
{
    assert(state_after(state, e + 1) == advance(state_after(state, e)));
    if e > 0 {
        lemma_state_after_shift(state, (e - 1) as nat);
        assert(state_after(advance(state), e) == advance(state_after(advance(state), (e - 1) as nat)));
    } else {
        assert(state_after(state, 0) == state);
    }
}

/// The drawn integer comes from the first draw of the stream below the
/// acceptance bound: every earlier draw was at or above it, the result is
/// that draw modulo `n`, and the generator is left just after it.
#[verifier::spinoff_prover]
pub proof fn lemma_draw_below_first_accepted(state: u64, n: u64)
    requires
        n > 0,
    ensures
        exists|d: nat|
            {
                &&& (output(state_after(state, d)) as int) < acceptance_bound(n)
                &&& forall|e: nat| e < d ==> (output(#[trigger] state_after(state, e)) as int) >= acceptance_bound(n)
                &&& draw_below(state, n) == (output(state_after(state, d)) % n, state_after(state, d + 1))
            },
    decreases draws_to_zero(state),
{
    assert(state_after(state, 0) == state);
    lemma_state_after_shift(state, 0);
    if (output(state) as int) < acceptance_bound(n) {
        assert(draw_below(state, n) == (output(state_after(state, 0)) % n, state_after(state, 1)));
    } else {
        lemma_draws_to_zero_step(state);
        vstd::arithmetic::div_mod::lemma_mod_bound(modulus(), n as int);
        let a = advance(state);
        lemma_draw_below_first_accepted(a, n);
        let d = choose|d: nat|
            {
                &&& (output(state_after(a, d)) as int) < acceptance_bound(n)
                &&& forall|e: nat| e < d ==> (output(#[trigger] state_after(a, e)) as int) >= acceptance_bound(n)
                &&& draw_below(a, n) == (output(state_after(a, d)) % n, state_after(a, d + 1))
            };
        lemma_state_after_shift(state, d);
        lemma_state_after_shift(state, d + 1);
        assert forall|e: nat| e < d + 1 implies (output(#[trigger] state_after(state, e)) as int) >= acceptance_bound(n) by {
            if e > 0 {
                lemma_state_after_shift(state, (e - 1) as nat);
                assert(state_after(a, (e - 1) as nat) == state_after(state, e));
            }
        }
    }
}

/// `s` with the entries at `i` and `j` exchanged.
pub open spec fn swapped<T>(s: Seq<T>, i: int, j: int) -> Seq<T> {
    s.update(i, s[j]).update(j, s[i])
}

/// The Fisher-Yates passes for positions `i, i - 1, ..., 1`: position `i`
/// is exchanged with the position `draw_below(state, i + 1)` picks in
/// `0..=i`. Returns the permuted sequence and the generator state afterwards.
pub open spec fn shuffle_from<T>(s: Seq<T>, state: u64, i: nat) -> (Seq<T>, u64)
    decreases i,
{
    if i == 0 {
        (s, state)
    } else {
        let (j, next) = draw_below(state, (i + 1) as u64);
        shuffle_from(swapped(s, i as int, j as int), next, (i - 1) as nat)
    }
}

/// Result of shuffling `s` with a generator in state `state`.
pub open spec fn shuffled<T>(s: Seq<T>, state: u64) -> (Seq<T>, u64) {
    if s.len() < 2 {
        (s, state)
    } else {
        shuffle_from(s, state, (s.len() - 1) as nat)
    }
}

/// The stream holds `n` values, the `i`-th drawn from the state after `i`
/// draws; identical seeds give identical streams.
pub proof fn lemma_stream_draws(seed: u64, other: u64, n: nat)
    ensures
        stream(seed, n).len() == n,
        forall|i: int| 0 <= i < n ==> #[trigger] stream(seed, n)[i] == output(state_after(seed, i as nat)),
        seed == other ==> stream(seed, n) == stream(other, n),
    decreases n,
{
    if n > 0 {
        lemma_stream_draws(seed, other, (n - 1) as nat);
        assert forall|i: int| 0 <= i < n implies #[trigger] stream(seed, n)[i] == output(
            state_after(seed, i as nat),
        ) by {
            if i < n - 1 {
                assert(stream(seed, n)[i] == stream(seed, (n - 1) as nat)[i]);
            }
        }
    }
}

/// 2^64, the modulus of `u64` arithmetic.
pub open spec fn modulus() -> int {
    0x1_0000_0000_0000_0000
}

/// Multiplying by `c` is undone by multiplying by its inverse `inv`.
proof fn lemma_undo_mul(x: u64, c: u64, inv: u64)
    requires
        (c as int * inv as int) % modulus() == 1,
    ensures
        (x.wrapping_mul(c) as int * inv as int) % modulus() == x as int,
{
    let m = modulus();
    let xc = x as int * c as int;
    assert(x.wrapping_mul(c) as int == xc % m);
    vstd::arithmetic::div_mod::lemma_mul_mod_noop_left(xc, inv as int, m);
    vstd::arithmetic::mul::lemma_mul_is_associative(x as int, c as int, inv as int);
    vstd::arithmetic::div_mod::lemma_mul_mod_noop_right(x as int, c as int * inv as int, m);
    vstd::arithmetic::div_mod::lemma_small_mod(x as nat, m as nat);
}

/// Multiplying by an odd constant that has an inverse modulo 2^64 loses no
/// information.
proof fn lemma_mul_injective(x: u64, y: u64, c: u64, inv: u64)
    requires
        (c as int * inv as int) % modulus() == 1,
        x.wrapping_mul(c) == y.wrapping_mul(c),
    ensures
        x == y,
{
    lemma_undo_mul(x, c, inv);
    lemma_undo_mul(y, c, inv);
}

proof fn lemma_xorshift_injective(x: u64, y: u64)
    ensures
        x ^ (x >> 30u64) == y ^ (y >> 30u64) ==> x == y,
        x ^ (x >> 27u64) == y ^ (y >> 27u64) ==> x == y,
        x ^ (x >> 31u64) == y ^ (y >> 31u64) ==> x == y,
{
    assert(x ^ (x >> 30u64) == y ^ (y >> 30u64) ==> x == y) by (bit_vector);
    assert(x ^ (x >> 27u64) == y ^ (y >> 27u64) ==> x == y) by (bit_vector);
    assert(x ^ (x >> 31u64) == y ^ (y >> 31u64) ==> x == y) by (bit_vector);
}

/// The finaliser is a bijection of `u64`: distinct inputs give distinct
/// outputs.
pub proof fn lemma_mix_injective(s: u64, t: u64)
    ensures
        mix(s) == mix(t) ==> s == t,
{
    if mix(s) == mix(t) {
        let s1 = (s ^ (s >> 30u64)).wrapping_mul(0xBF58_476D_1CE4_E5B9u64);
        let t1 = (t ^ (t >> 30u64)).wrapping_mul(0xBF58_476D_1CE4_E5B9u64);
        let s2 = (s1 ^ (s1 >> 27u64)).wrapping_mul(0x94D0_49BB_1331_11EBu64);
        let t2 = (t1 ^ (t1 >> 27u64)).wrapping_mul(0x94D0_49BB_1331_11EBu64);
        lemma_xorshift_injective(s2, t2);
        assert(0xBF58_476D_1CE4_E5B9int * 0x96DE_1B17_3F11_9089int == 8125545580553827436int
            * 0x1_0000_0000_0000_0000int + 1);
        assert(0x94D0_49BB_1331_11EBint * 0x319642B2D24D8EC3int == 2077064247507883091int
            * 0x1_0000_0000_0000_0000int + 1);
        vstd::arithmetic::div_mod::lemma_mod_multiples_vanish(
            8125545580553827436int,
            1,
            modulus(),
        );
        vstd::arithmetic::div_mod::lemma_mod_multiples_vanish(
            2077064247507883091int,
            1,
            modulus(),
        );
        lemma_mul_injective(
            s1 ^ (s1 >> 27u64),
            t1 ^ (t1 >> 27u64),
            0x94D0_49BB_1331_11EBu64,
            0x319642B2D24D8EC3u64,
        );
        lemma_xorshift_injective(s1, t1);
        lemma_mul_injective(
            s ^ (s >> 30u64),
            t ^ (t >> 30u64),
            0xBF58_476D_1CE4_E5B9u64,
            0x96DE_1B17_3F11_9089u64,
        );
        lemma_xorshift_injective(s, t);
    }
}

/// The first draw determines the state it was drawn from: distinct seeds
/// give distinct first values.
pub proof fn lemma_output_injective(s: u64, t: u64)
    ensures
        output(s) == output(t) ==> s == t,
{
    lemma_mix_injective(advance(s), advance(t));
}

/// After `n` draws the state is `seed + n * GOLDEN_GAMMA` modulo 2^64.
pub proof fn lemma_state_after_closed_form(seed: u64, n: nat)
    ensures
        state_after(seed, n) as int == (seed as int + n * GOLDEN_GAMMA as int) % modulus(),
    decreases n,
{
    let m = modulus();
    if n == 0 {
        vstd::arithmetic::div_mod::lemma_small_mod(seed as nat, m as nat);
    } else {
        lemma_state_after_closed_form(seed, (n - 1) as nat);
        let prev = state_after(seed, (n - 1) as nat);
        let a = seed as int + (n - 1) * GOLDEN_GAMMA as int;
        assert(prev.wrapping_add(GOLDEN_GAMMA) as int == (prev as int + GOLDEN_GAMMA as int) % m);
        vstd::arithmetic::div_mod::lemma_add_mod_noop(a, GOLDEN_GAMMA as int, m);
        vstd::arithmetic::div_mod::lemma_small_mod(GOLDEN_GAMMA as nat, m as nat);
        vstd::arithmetic::div_mod::lemma_mod_twice(a, m);
        vstd::arithmetic::div_mod::lemma_mod_bound(a, m);
        assert((n - 1) * GOLDEN_GAMMA as int + GOLDEN_GAMMA as int == n * GOLDEN_GAMMA as int)
            by (nonlinear_arith);
    }
}

/// Each FNV-1a step loses no information about the running hash.
proof fn lemma_fnv1a_injective(h: u64, g: u64, bytes: Seq<u8>)
    requires
        fnv1a(h, bytes) == fnv1a(g, bytes),
    ensures
        h == g,
    decreases bytes.len(),
{
    if bytes.len() > 0 {
        let hp = fnv1a(h, bytes.drop_last());
        let gp = fnv1a(g, bytes.drop_last());
        let b = bytes.last() as u64;
        lemma_fnv_prime_inverse();
        lemma_mul_injective(hp ^ b, gp ^ b, FNV_PRIME, 0xce965057aff6957bu64);
        assert(hp == gp) by (bit_vector)
            requires
                hp ^ b == gp ^ b,
        ;
        lemma_fnv1a_injective(h, g, bytes.drop_last());
    }
}

/// Distinct bases give distinct child seeds for the same tag.
pub proof fn lemma_child_seed_injective_in_base(a: u64, b: u64, tag: Seq<char>)
    ensures
        child_seed(a, tag) == child_seed(b, tag) ==> a == b,
{
    let bytes = encode_utf8(tag);
    if child_seed(a, tag) == child_seed(b, tag) {
        lemma_output_injective(fnv1a(FNV_OFFSET ^ a, bytes), fnv1a(FNV_OFFSET ^ b, bytes));
        lemma_fnv1a_injective(FNV_OFFSET ^ a, FNV_OFFSET ^ b, bytes);
        assert(a == b) by (bit_vector)
            requires
                FNV_OFFSET ^ a == FNV_OFFSET ^ b,
        ;
    }
}

proof fn lemma_fnv_prime_inverse()
    ensures
        (FNV_PRIME as int * 0xce965057aff6957bu64 as int) % modulus() == 1,
{
    assert(0x100000001b3int * 0xce965057aff6957bint == 887285111055int
        * 0x1_0000_0000_0000_0000int + 1);
    vstd::arithmetic::div_mod::lemma_mod_multiples_vanish(887285111055int, 1, modulus());
}

/// Hashing one byte onto the same basis separates distinct bytes.
proof fn lemma_fnv1a_one_byte(h: u64, e1: Seq<u8>, e2: Seq<u8>)
    requires
        e1.len() == 1,
        e2.len() == 1,
        e1[0] != e2[0],
    ensures
        fnv1a(h, e1) != fnv1a(h, e2),
{
    assert(e1.drop_last() =~= Seq::<u8>::empty());
    assert(e2.drop_last() =~= Seq::<u8>::empty());
    assert(fnv1a(h, e1.drop_last()) == h);
    assert(fnv1a(h, e2.drop_last()) == h);
    let b1 = e1[0] as u64;
    let b2 = e2[0] as u64;
    assert(e1.last() == e1[0] && e2.last() == e2[0]);
    if fnv1a(h, e1) == fnv1a(h, e2) {
        lemma_fnv_prime_inverse();
        lemma_mul_injective(h ^ b1, h ^ b2, FNV_PRIME, 0xce965057aff6957bu64);
        assert(b1 == b2) by (bit_vector)
            requires
                h ^ b1 == h ^ b2,
        ;
    }
}

/// Distinct tags of one UTF-8 byte each give distinct child seeds of the
/// same base.
pub proof fn lemma_child_seed_distinct_one_byte_tags(base: u64, t1: Seq<char>, t2: Seq<char>)
    requires
        encode_utf8(t1).len() == 1,
        encode_utf8(t2).len() == 1,
        t1 != t2,
    ensures
        child_seed(base, t1) != child_seed(base, t2),
{
    let e1 = encode_utf8(t1);
    let e2 = encode_utf8(t2);
    crate::text::lemma_encode_injective(t1, t2);
    if e1[0] == e2[0] {
        assert(e1 =~= e2);
    }
    let h = FNV_OFFSET ^ base;
    lemma_fnv1a_one_byte(h, e1, e2);
    lemma_output_injective(fnv1a(h, e1), fnv1a(h, e2));
}

/// Seedable SplitMix64 generator: its whole state is one `u64`.
#[derive(Clone, Debug)]
pub struct SplitMix64 {
    state: u64,
}

impl View for SplitMix64 {
    type V = u64;

    closed spec fn view(&self) -> u64 {
        self.state
    }
}

impl SplitMix64 {
    pub fn new(seed: u64) -> (r: Self)
        ensures
            r@ == seed,
    {
        SplitMix64 { state: seed }
    }

    pub fn next_u64(&mut self) -> (r: u64)
        ensures
            final(self)@ == advance(old(self)@),
            r == output(old(self)@),
    {
        self.state = self.state.wrapping_add(GOLDEN_GAMMA);
        let mut z: u64 = self.state;
        z = (z ^ (z >> 30u64)).wrapping_mul(0xBF58_476D_1CE4_E5B9u64);
        z = (z ^ (z >> 27u64)).wrapping_mul(0x94D0_49BB_1331_11EBu64);
        z ^ (z >> 31u64)
    }

    /// Uniform integer in `[0, n)`: draws at or above `acceptance_bound(n)`
    /// are discarded, and the first one below it is reduced modulo `n`.
    pub fn gen_range(&mut self, n: usize) -> (r: usize)
        requires
            n > 0,
        ensures
            (r as u64, final(self)@) == draw_below(old(self)@, n as u64),
            r < n,
    {
        let m: u64 = n as u64;
        // 2^64 modulo m, computed within u64: ((2^64 - 1) % m + 1) % m
        let excess: u64 = (u64::MAX % m + 1) % m;
        proof {
            let a = u64::MAX as int;
            vstd::arithmetic::div_mod::lemma_add_mod_noop(a, 1, m as int);
            if m > 1 {
                vstd::arithmetic::div_mod::lemma_small_mod(1, m as nat);
            }
        }
        loop
            invariant
                m == n,
                m > 0,
                excess as int == modulus() % (m as int),
                draw_below(self@, m) == draw_below(old(self)@, m),
            decreases draws_to_zero(self@),
        {
            let ghost prior = self@;
            let x = self.next_u64();
            if x <= u64::MAX - excess {
                proof {
                    lemma_draw_below_range(prior, m);
                }
                return (x % m) as usize;
            }
            proof {
                lemma_draws_to_zero_step(prior);
                vstd::arithmetic::div_mod::lemma_mod_bound(modulus(), m as int);
            }
        }
    }

    /// Fisher-Yates shuffle.
    pub fn shuffle<T>(&mut self, v: &mut [T])
        ensures
            (final(v)@, final(self)@) == shuffled(old(v)@, old(self)@),
            final(v)@.to_multiset() == old(v)@.to_multiset(),
    {
        proof {
            assert(v@.len() == v.len());
            lemma_shuffled_permutes(v@, self@);
        }
        if v.len() < 2 {
            return ;
        }
        let mut i: usize = v.len() - 1;
        while i >= 1
            invariant
                v@.len() == old(v)@.len(),
                i < v.len(),
                shuffle_from(v@, self@, i as nat) == shuffled(old(v)@, old(self)@),
            decreases i,
        {
            let j: usize = self.gen_range(i + 1);
            swap_entries(v, i, j);
            i = i - 1;
        }
    }
}

/// FNV-1a offset basis.
pub const FNV_OFFSET: u64 = 0xcbf2_9ce4_8422_2325;

/// FNV-1a prime.
pub const FNV_PRIME: u64 = 0x0000_0100_0000_01b3;

/// FNV-1a hash of `bytes`, starting from the hash value `h`.
pub open spec fn fnv1a(h: u64, bytes: Seq<u8>) -> u64
    decreases bytes.len(),
{
    if bytes.len() == 0 {
        h
    } else {
        (fnv1a(h, bytes.drop_last()) ^ (bytes.last() as u64)).wrapping_mul(FNV_PRIME)
    }
}

/// The child seed of `base` for the tag `tag`: the FNV-1a hash of the tag's
/// UTF-8 bytes (basis mixed with `base`), spread by one SplitMix64 draw.
pub open spec fn child_seed(base: u64, tag: Seq<char>) -> u64 {
    output(fnv1a(FNV_OFFSET ^ base, encode_utf8(tag)))
}

/// Derive a child seed from a base seed and a string tag (FNV-1a mixing).
pub fn derive_seed(base: u64, tag: &str) -> (r: u64)
    ensures
        r == child_seed(base, tag@),
{
    let bytes = tag.as_bytes();
    let mut h: u64 = FNV_OFFSET ^ base;
    let mut i: usize = 0;
    while i < bytes.len()
        invariant
            i <= bytes@.len(),
            bytes@ == encode_utf8(tag@),
            h == fnv1a(FNV_OFFSET ^ base, bytes@.take(i as int)),
        decreases bytes@.len() - i,
    {
        assert(bytes@.take(i + 1).drop_last() =~= bytes@.take(i as int));
        h = h ^ (bytes[i] as u64);
        h = h.wrapping_mul(FNV_PRIME);
        i = i + 1;
    }
    assert(bytes@.take(i as int) =~= bytes@);
    // one SplitMix round to spread low-entropy inputs
    SplitMix64::new(h).next_u64()
}

/// Exchanges `v[i]` and `v[j]`.
fn swap_entries<T>(v: &mut [T], i: usize, j: usize)
    requires
        j <= i < old(v)@.len(),
    ensures
        final(v)@ == swapped(old(v)@, i as int, j as int),
{
    if i != j {
        let (left, right) = v.split_at_mut(i);
        let (_, middle) = left.split_at_mut(j);
        match (middle.first_mut(), right.first_mut()) {
            (Some(a), Some(b)) => core::mem::swap(a, b),
            _ => {},
        }
    }
    assert(final(v)@ =~= swapped(old(v)@, i as int, j as int));
}

/// Fisher-Yates passes only exchange entries, so the result holds the same
/// entries as the input, each as many times.
pub proof fn lemma_shuffle_from_permutes<T>(s: Seq<T>, state: u64, i: nat)
    requires
        i < s.len(),
        i < u64::MAX,
    ensures
        shuffle_from(s, state, i).0.to_multiset() == s.to_multiset(),
        shuffle_from(s, state, i).0.len() == s.len(),
    decreases i,
{
    broadcast use vstd::seq_lib::group_to_multiset_ensures;
    broadcast use vstd::multiset::group_multiset_axioms;

    if i > 0 {
        let (j, next) = draw_below(state, (i + 1) as u64);
        lemma_draw_below_range(state, (i + 1) as u64);
        let t = swapped(s, i as int, j as int);
        assert(t.to_multiset() =~= s.to_multiset());
        lemma_shuffle_from_permutes(t, next, (i - 1) as nat);
    }
}

/// The passes below position `i` leave the entries after `i` alone: they
/// act on the first `i + 1` entries as on a sequence of their own.
proof fn lemma_shuffle_from_prefix<T>(s: Seq<T>, state: u64, i: nat)
    requires
        i < s.len(),
        i < u64::MAX,
    ensures
        shuffle_from(s, state, i).0 == shuffle_from(s.take(i as int + 1), state, i).0 + s.skip(
            i as int + 1,
        ),
        shuffle_from(s, state, i).1 == shuffle_from(s.take(i as int + 1), state, i).1,
    decreases i,
{
    if i == 0 {
        assert(s =~= s.take(1) + s.skip(1));
    } else {
        let (j, next) = draw_below(state, (i + 1) as u64);
        lemma_draw_below_range(state, (i + 1) as u64);
        let t = swapped(s, i as int, j as int);
        let h = s.take(i as int + 1);
        let th = swapped(h, i as int, j as int);
        lemma_shuffle_from_prefix(t, next, (i - 1) as nat);
        lemma_shuffle_from_prefix(th, next, (i - 1) as nat);
        assert(th.take(i as int) =~= t.take(i as int));
        assert(th.skip(i as int) + s.skip(i as int + 1) =~= t.skip(i as int));
        assert(th.skip(i as int) =~= seq![th[i as int]]);
        lemma_shuffle_from_permutes(th.take(i as int), next, (i - 1) as nat);
        assert(shuffle_from(th.take(i as int), next, (i - 1) as nat).0 + th.skip(i as int) + s.skip(
            i as int + 1,
        ) =~= shuffle_from(th.take(i as int), next, (i - 1) as nat).0 + t.skip(i as int));
    }
}

/// Fisher-Yates on a slice of two or more entries: the last position takes
/// the entry at the position drawn below the length, and the rest is the
/// shuffle, continued from the state after that draw, of the other entries
/// (the last one having moved to the drawn position). So every length from
/// two up is shuffled, with one draw per position from the last down to 1.
pub proof fn lemma_shuffle_peels_last<T>(s: Seq<T>, state: u64)
    requires
        2 <= s.len() <= u64::MAX,
    ensures
        ({
            let n = s.len() as int;
            let (j, next) = draw_below(state, n as u64);
            let rest = swapped(s, n - 1, j as int).drop_last();
            &&& j < n
            &&& shuffled(s, state).0.len() == n
            &&& shuffled(s, state).0[n - 1] == s[j as int]
            &&& shuffled(s, state).0.drop_last() == shuffled(rest, next).0
            &&& shuffled(s, state).1 == shuffled(rest, next).1
        }),
{
    let n = s.len() as int;
    let (j, next) = draw_below(state, n as u64);
    lemma_draw_below_range(state, n as u64);
    let t = swapped(s, n - 1, j as int);
    let rest = t.drop_last();
    lemma_shuffled_permutes(s, state);
    lemma_shuffle_from_prefix(t, next, (n - 2) as nat);
    assert(t.take(n - 1) =~= rest);
    assert(t.skip(n - 1) =~= seq![t[n - 1]]);
    lemma_shuffle_from_permutes(rest, next, (n - 2) as nat);
    let body = shuffle_from(rest, next, (n - 2) as nat).0;
    assert((body + seq![t[n - 1]]).drop_last() =~= body);
}

/// Shuffling is a permutation of the input.
pub proof fn lemma_shuffled_permutes<T>(s: Seq<T>, state: u64)
    requires
        s.len() <= u64::MAX,
    ensures
        shuffled(s, state).0.to_multiset() == s.to_multiset(),
        shuffled(s, state).0.len() == s.len(),
{
    if s.len() >= 2 {
        lemma_shuffle_from_permutes(s, state, (s.len() - 1) as nat);
    }
}

} // verus!
