use vstd::prelude::*;

use crate::scalar::Scalar;
use vstd::string::StringSliceAdditionalSpecFns;

verus! {

/// A source of pseudo-random numbers of type `S` that a seed string
/// determines.
pub trait SeededDistribution<S: Scalar>: Sized {
    /// `after` is the source once it has drawn `r`, starting as `before`.
    spec fn drawn(before: Self, r: S, after: Self) -> bool;

    /// The source that `seed` determines.
    fn new(seed: &str) -> Self;

    /// The next number, drawn from the range -1.0 to 1.0.
    fn next(&mut self) -> (r: S)
        ensures
            Self::drawn(*old(self), r, *final(self)),
    ;
}

/// `states[k]` drew `values[k]` and became `states[k + 1]`, for each `k`.
pub open spec fn draw_chain<S: Scalar, D: SeededDistribution<S>>(states: Seq<D>, values: Seq<S>) -> bool {
    &&& states.len() == values.len() + 1
    &&& forall|k: int| 0 <= k < values.len() ==> D::drawn(states[k], #[trigger] values[k], states[k + 1])
}

/// Drawing `values`, one after the other and nothing else, turned the source
/// `before` into `after`.
pub open spec fn drew<S: Scalar, D: SeededDistribution<S>>(before: D, values: Seq<S>, after: D) -> bool {
    exists|states: Seq<D>|
        #[trigger] draw_chain(states, values) && states[0] == before && states[values.len() as int] == after
}

/// Drawing nothing leaves a source as it is.
pub proof fn lemma_drew_nothing<S: Scalar, D: SeededDistribution<S>>(source: D)
    ensures
        drew(source, Seq::<S>::empty(), source),
{
    assert(draw_chain(seq![source], Seq::<S>::empty()));
}

/// A sequence of draws followed by one more draw is a sequence of draws.
pub proof fn lemma_drew_one_more<S: Scalar, D: SeededDistribution<S>>(
    before: D,
    values: Seq<S>,
    middle: D,
    r: S,
    after: D,
)
    requires
        drew(before, values, middle),
        D::drawn(middle, r, after),
    ensures
        drew(before, values.push(r), after),
{
    let states = choose|states: Seq<D>|
        #[trigger] draw_chain(states, values) && states[0] == before && states[values.len() as int] == middle;
    let longer = states.push(after);
    let more = values.push(r);
    assert forall|k: int| 0 <= k < more.len() implies D::drawn(longer[k], #[trigger] more[k], longer[k + 1]) by {
        if k < values.len() {
            assert(more[k] == values[k]);
            assert(D::drawn(states[k], values[k], states[k + 1]));
        }
    }
    assert(draw_chain(longer, more));
}

/// Two sequences of draws, one after the other, make one sequence of draws.
pub proof fn lemma_drew_concat<S: Scalar, D: SeededDistribution<S>>(
    before: D,
    first: Seq<S>,
    middle: D,
    second: Seq<S>,
    after: D,
)
    requires
        drew(before, first, middle),
        drew(middle, second, after),
    ensures
        drew(before, first + second, after),
    decreases second.len(),
{
    if second.len() == 0 {
        let states = choose|states: Seq<D>|
            #[trigger] draw_chain(states, second) && states[0] == middle && states[second.len() as int] == after;
        assert(first + second =~= first);
    } else {
        let states = choose|states: Seq<D>|
            #[trigger] draw_chain(states, second) && states[0] == middle && states[second.len() as int] == after;
        let front = second.drop_last();
        let inner = states.drop_last();
        assert forall|k: int| 0 <= k < front.len() implies D::drawn(inner[k], #[trigger] front[k], inner[k + 1]) by {
            assert(front[k] == second[k]);
            assert(D::drawn(states[k], second[k], states[k + 1]));
        }
        assert(draw_chain(inner, front));
        let last_state = inner[front.len() as int];
        lemma_drew_concat(before, first, middle, front, last_state);
        assert(D::drawn(states[front.len() as int], second[front.len() as int], states[second.len() as int]));
        lemma_drew_one_more(before, first + front, last_state, second.last(), after);
        assert((first + front).push(second.last()) =~= first + second);
    }
}

/// A Lehmer generator seeded with the FNV-1a hash of the seed string.
pub struct UniformDistribution {
    state: u128,
}

/// The FNV-1a 128-bit prime.
pub const FNV_PRIME: u128 = 309_485_009_821_345_068_724_781_371;

/// The FNV-1a 128-bit offset basis.
pub const FNV_OFFSET_BASIS: u128 = 144_066_263_297_769_815_596_495_629_667_062_367_629;

/// The multiplier of the Lehmer generator.
pub const LEHMER_A: u128 = 92563704562804186071655587898373606109;

/// The FNV-1a hash of `bytes`: starting from the offset basis, each byte is
/// xor-ed into the hash, which is then multiplied by the prime modulo 2^128.
pub open spec fn fnv_hash_of(bytes: Seq<u8>) -> u128
    decreases bytes.len(),
{
    if bytes.len() == 0 {
        FNV_OFFSET_BASIS
    } else {
        (fnv_hash_of(bytes.drop_last()) ^ (bytes.last() as u128)).wrapping_mul(FNV_PRIME)
    }
}

/// One step of the Lehmer generator: the state times the multiplier modulo 2^128.
pub open spec fn lehmer_next(state: u128) -> u128 {
    state.wrapping_mul(LEHMER_A)
}

/// The IEEE 754 binary64 encoding that a state stands for: sign 0, biased
/// exponent 1024 (a number in [2.0, 4.0)), and as mantissa the top 52 of the
/// state's upper 64 bits.
pub open spec fn float_bits_of_state(state: u128) -> u64 {
    0x4000_0000_0000_0000u64 | (((state >> 64u128) as u64) >> 12u64)
}

/// Every state stands for an encoding with sign 0 and biased exponent 1024,
/// that is for a number in [2.0, 4.0): a draw, which subtracts 3 from it,
/// lies in [-1.0, 1.0).
pub proof fn lemma_state_encodes_two_to_four(state: u128)
    ensures
        float_bits_of_state(state) >> 52u64 == 0x400u64,
{
    let upper: u64 = (state >> 64u128) as u64;
    let bits: u64 = float_bits_of_state(state);
    assert(bits >> 52u64 == 0x400u64) by (bit_vector)
        requires
            bits == 0x4000_0000_0000_0000u64 | (upper >> 12u64),
    ;
}

/// FNV-1a folds in every byte, whatever the input's length: the hash of no
/// bytes is the offset basis 144066263297769815596495629667062367629, and
/// appending a byte xors it into the hash, then multiplies by the prime
/// 309485009821345068724781371 modulo 2^128.
pub proof fn lemma_fnv_folds_every_byte(bytes: Seq<u8>, byte: u8)
    ensures
        fnv_hash_of(Seq::<u8>::empty()) == 144066263297769815596495629667062367629u128,
        fnv_hash_of(bytes.push(byte)) == (fnv_hash_of(bytes) ^ (byte as u128)).wrapping_mul(
            309485009821345068724781371u128,
        ),
{
    assert(bytes.push(byte).drop_last() =~= bytes);
}

/// The FNV-1a hash of the bytes of `seed`.
pub fn fnv_hash(seed: &str) -> (hash: u128)
    ensures
        hash == fnv_hash_of(seed.spec_bytes()),
{
    let bytes = seed.as_bytes();
    let mut hash: u128 = FNV_OFFSET_BASIS;
    let mut i: usize = 0;
    while i < bytes.len()
        invariant
            i <= bytes@.len(),
            bytes@ == seed.spec_bytes(),
            hash == fnv_hash_of(bytes@.subrange(0, i as int)),
        decreases bytes@.len() - i,
    {
        assert(bytes@.subrange(0, i + 1).drop_last() =~= bytes@.subrange(0, i as int));
        hash = hash ^ (bytes[i] as u128);
        hash = hash.wrapping_mul(FNV_PRIME);
        i = i + 1;
    }
    assert(bytes@.subrange(0, bytes@.len() as int) =~= bytes@);
    hash
}

/// One step of the Lehmer generator.
pub fn lehmer_step(state: u128) -> (next: u128)
    ensures
        next == lehmer_next(state),
{
    state.wrapping_mul(LEHMER_A)
}

/// 2^128, the modulus of `u128` arithmetic.
pub open spec fn two_to_the_128() -> int {
    0x1_0000_0000_0000_0000_0000_0000_0000_0000int
}

/// A wrapping product of `u128`s is the product modulo 2^128.
proof fn lemma_wrapping_mul_is_mod(x: u128, y: u128)
    ensures
        x.wrapping_mul(y) as int == (x as int * y as int) % two_to_the_128(),
{
    let m = two_to_the_128();
    assert(0 <= (x as int * y as int) % m < m) by (nonlinear_arith)
        requires
            m == 0x1_0000_0000_0000_0000_0000_0000_0000_0000int,
            x >= 0,
            y >= 0,
    ;
}

/// A wrapping sum of `u128`s is the sum modulo 2^128.
proof fn lemma_wrapping_add_is_mod(x: u128, y: u128)
    ensures
        x.wrapping_add(y) as int == (x as int + y as int) % two_to_the_128(),
{
    let m = two_to_the_128();
    if x as int + y as int >= m {
        vstd::arithmetic::div_mod::lemma_fundamental_div_mod_converse(x as int + y as int, m, 1, x as int + y as int - m);
    } else {
        vstd::arithmetic::div_mod::lemma_small_mod((x as int + y as int) as nat, m as nat);
    }
}

/// A Lehmer step keeps the parity of the state (the multiplier is odd), so
/// an odd state stays odd.
pub proof fn lemma_lehmer_keeps_parity(state: u128)
    ensures
        lehmer_next(state) % 2 == state % 2,
{
    let a: int = LEHMER_A as int;
    let s: int = state as int;
    let half: int = 0x8000_0000_0000_0000_0000_0000_0000_0000int;
    lemma_wrapping_mul_is_mod(state, LEHMER_A);
    assert(a % 2 == 1);
    vstd::arithmetic::div_mod::lemma_mul_mod_noop(s, a, 2);
    assert((s % 2) * (a % 2) % 2 == s % 2) by {
        vstd::arithmetic::div_mod::lemma_mod_twice(s, 2);
    }
    vstd::arithmetic::div_mod::lemma_mod_mod(s * a, 2, half);
    assert(2 * half == two_to_the_128());
}

/// Multiplying by the inverse of the multiplier modulo 2^128 undoes a
/// Lehmer step.
pub proof fn lemma_lehmer_undone(state: u128)
    ensures
        lehmer_next(state).wrapping_mul(297407245016942170064352095129111993717u128) == state,
{
    let m = two_to_the_128();
    let inverse: u128 = 297407245016942170064352095129111993717u128;
    let a: int = LEHMER_A as int;
    let i: int = inverse as int;
    let s: int = state as int;
    lemma_wrapping_mul_is_mod(state, LEHMER_A);
    lemma_wrapping_mul_is_mod(lehmer_next(state), inverse);
    assert(a * i == 80900801918372379798450223721845190417int * m + 1);
    vstd::arithmetic::div_mod::lemma_fundamental_div_mod_converse(a * i, m, 80900801918372379798450223721845190417int, 1);
    vstd::arithmetic::div_mod::lemma_mul_mod_noop_left(s * a, i, m);
    vstd::arithmetic::mul::lemma_mul_is_associative(s, a, i);
    vstd::arithmetic::div_mod::lemma_mul_mod_noop_right(s, a * i, m);
    vstd::arithmetic::div_mod::lemma_small_mod(s as nat, m as nat);
}

/// Different states step to different states: a Lehmer step is a bijection
/// of the `u128`s.
pub proof fn lemma_lehmer_injective(s: u128, t: u128)
    requires
        lehmer_next(s) == lehmer_next(t),
    ensures
        s == t,
{
    lemma_lehmer_undone(s);
    lemma_lehmer_undone(t);
}

/// A Lehmer step of a wrapping sum is the wrapping sum of the steps.
pub proof fn lemma_lehmer_of_sum(x: u128, y: u128)
    ensures
        lehmer_next(x.wrapping_add(y)) == lehmer_next(x).wrapping_add(lehmer_next(y)),
{
    let m = two_to_the_128();
    let a: int = LEHMER_A as int;
    let (xi, yi) = (x as int, y as int);
    lemma_wrapping_add_is_mod(x, y);
    lemma_wrapping_mul_is_mod(x.wrapping_add(y), LEHMER_A);
    lemma_wrapping_mul_is_mod(x, LEHMER_A);
    lemma_wrapping_mul_is_mod(y, LEHMER_A);
    lemma_wrapping_add_is_mod(lehmer_next(x), lehmer_next(y));
    vstd::arithmetic::div_mod::lemma_mul_mod_noop_left(xi + yi, a, m);
    vstd::arithmetic::mul::lemma_mul_is_distributive_add_other_way(a, xi, yi);
    vstd::arithmetic::div_mod::lemma_add_mod_noop(xi * a, yi * a, m);
}

/// A Lehmer step of a wrapping product is the step of the first factor
/// times the second.
pub proof fn lemma_lehmer_of_product(x: u128, y: u128)
    ensures
        lehmer_next(x.wrapping_mul(y)) == lehmer_next(x).wrapping_mul(y),
{
    let m = two_to_the_128();
    let a: int = LEHMER_A as int;
    let (xi, yi) = (x as int, y as int);
    lemma_wrapping_mul_is_mod(x, y);
    lemma_wrapping_mul_is_mod(x.wrapping_mul(y), LEHMER_A);
    lemma_wrapping_mul_is_mod(x, LEHMER_A);
    lemma_wrapping_mul_is_mod(lehmer_next(x), y);
    vstd::arithmetic::div_mod::lemma_mul_mod_noop_left(xi * yi, a, m);
    vstd::arithmetic::div_mod::lemma_mul_mod_noop_left(xi * a, yi, m);
    vstd::arithmetic::mul::lemma_mul_is_associative(xi, yi, a);
    vstd::arithmetic::mul::lemma_mul_is_associative(xi, a, yi);
    vstd::arithmetic::mul::lemma_mul_is_commutative(yi, a);
}

impl UniformDistribution {
    /// Lehmer generators need an odd state.
    #[verifier::type_invariant]
    spec fn state_is_odd(self) -> bool {
        self.state % 2 == 1
    }

    /// The generator's state.
    pub closed spec fn current_state(self) -> u128 {
        self.state
    }

    /// Advances the state and returns the encoding of the number it stands for.
    fn next_bits(&mut self) -> (bits: u64)
        ensures
            final(self).current_state() == lehmer_next(old(self).current_state()),
            final(self).current_state() % 2 == 1,
            bits == float_bits_of_state(final(self).current_state()),
            bits >> 52u64 == 0x400u64,
    {
        proof {
            use_type_invariant(&*self);
            lemma_lehmer_keeps_parity(self.state);
        }
        self.state = lehmer_step(self.state);
        let upper: u64 = (self.state >> 64u32) as u64;
        let bits: u64 = 0x4000_0000_0000_0000u64 | (upper >> 12u32);
        proof {
            lemma_state_encodes_two_to_four(self.state);
        }
        bits
    }
}

impl UniformDistribution {
    /// The generator seeded with the FNV-1a hash of `seed`, made odd.
    pub fn new(seed: &str) -> (source: Self)
        ensures
            source.current_state() == fnv_hash_of(seed.spec_bytes()) | 1,
            source.current_state() % 2 == 1,
    {
        let hash = fnv_hash(seed);
        let state: u128 = hash | 1;
        assert(state % 2 == 1) by (bit_vector)
            requires
                state == hash | 1,
        ;
        UniformDistribution { state }
    }
}

impl<S: Scalar> SeededDistribution<S> for UniformDistribution {
    /// The state takes one Lehmer step, and the number drawn is the one its
    /// encoding stands for minus 3.
    open spec fn drawn(before: Self, r: S, after: Self) -> bool {
        &&& after.current_state() == lehmer_next(before.current_state())
        &&& after.current_state() % 2 == 1
        &&& exists|f: S, three: S|
            {
                &&& #[trigger] call_ensures(S::from_bits, (float_bits_of_state(after.current_state()),), f)
                &&& #[trigger] call_ensures(S::from_integer, (3i32,), three)
                &&& call_ensures(S::minus, (&f, &three), r)
            }
    }

    fn new(seed: &str) -> (source: Self)
        ensures
            source.current_state() == fnv_hash_of(seed.spec_bytes()) | 1,
            source.current_state() % 2 == 1,
    {
        UniformDistribution::new(seed)
    }

    fn next(&mut self) -> (r: S) {
        let bits = self.next_bits();
        let f = S::from_bits(bits);
        let three = S::from_integer(3);
        f.minus(&three)
    }
}

/// A draw of the Lehmer generator multiplies the state by
/// 92563704562804186071655587898373606109 modulo 2^128, keeps it odd, and
/// gives the number whose IEEE 754 binary64 encoding has sign 0, biased
/// exponent 1024 and the top 52 of the new state's upper 64 bits as
/// mantissa, minus 3.
pub proof fn lemma_uniform_draw<S: Scalar>(before: UniformDistribution, r: S, after: UniformDistribution)
    requires
        <UniformDistribution as SeededDistribution<S>>::drawn(before, r, after),
    ensures
        after.current_state() == before.current_state().wrapping_mul(92563704562804186071655587898373606109u128),
        after.current_state() % 2 == 1,
        exists|f: S, three: S|
            {
                &&& #[trigger] call_ensures(
                    S::from_bits,
                    (0x4000_0000_0000_0000u64 | (((after.current_state() >> 64u128) as u64) >> 12u64),),
                    f,
                )
                &&& #[trigger] call_ensures(S::from_integer, (3i32,), three)
                &&& call_ensures(S::minus, (&f, &three), r)
            },
{
}

} // verus!
