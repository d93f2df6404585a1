use std::collections::HashSet;

use micrograd::random::{
    fnv_hash, lehmer_step, SeededDistribution, UniformDistribution, FNV_OFFSET_BASIS, LEHMER_A,
};

const LEHMER_A_INVERSE: u128 = 297407245016942170064352095129111993717;
use micrograd::Scalar;

#[derive(Clone, Copy, Debug, PartialEq)]
struct F(f64);

impl Scalar for F {
    fn from_integer(n: i32) -> Self {
        F(n as f64)
    }
    fn from_bits(bits: u64) -> Self {
        F(f64::from_bits(bits))
    }
    fn plus(&self, rhs: &Self) -> Self {
        F(self.0 + rhs.0)
    }
    fn minus(&self, rhs: &Self) -> Self {
        F(self.0 - rhs.0)
    }
    fn times(&self, rhs: &Self) -> Self {
        F(self.0 * rhs.0)
    }
    fn negated(&self) -> Self {
        F(-self.0)
    }
    fn powf(&self, exponent: &Self) -> Self {
        F(self.0.powf(exponent.0))
    }
    fn powi(&self, exponent: i32) -> Self {
        F(self.0.powi(exponent))
    }
    fn tanh(&self) -> Self {
        F(self.0.tanh())
    }
    fn exp(&self) -> Self {
        F(self.0.exp())
    }
    fn to_text(&self) -> String {
        format!("{}", self.0)
    }
    fn to_debug_text(&self) -> String {
        format!("{:?}", self.0)
    }
    fn to_fixed_text(&self, decimals: usize) -> String {
        format!("{:.*}", decimals, self.0)
    }
    fn equals(&self, rhs: &Self) -> bool {
        self.0 == rhs.0
    }
}

#[test]
fn test_uniform_distribution() {
    let mut seen = HashSet::<[u8; 8]>::new();

    let mut source = UniformDistribution::new("seed");

    for _ in 0..1000 {
        let value: F = source.next();
        let value = value.0;

        if value > 1.0 || value < -1.0 {
            panic!("Value {} out of range", value);
        }

        let prev = seen.insert(value.to_be_bytes());

        if !prev {
            panic!("We already saw value {}", value)
        }
    }
}

#[test]
fn fnv_hash_of_empty_string_is_offset_basis() {
    assert_eq!(fnv_hash(""), FNV_OFFSET_BASIS);
    assert_eq!(fnv_hash(""), 144066263297769815596495629667062367629);
}

#[test]
fn fnv_hash_of_known_strings() {
    assert_eq!(fnv_hash("a"), 279349696671665264231447081680185756004);
    assert_eq!(fnv_hash("seed"), 140862288629028823491921593434577945468);
}

#[test]
fn lehmer_step_multiplies_modulo_two_to_the_128() {
    assert_eq!(lehmer_step(1), LEHMER_A);
    assert_eq!(lehmer_step(3), 277691113688412558214966763695120818327);
    assert_eq!(lehmer_step((1u128 << 127) + 1), 262704888023273417803342891614257711837);
}

#[test]
fn uniform_distribution_first_draws_for_seed() {
    let mut source = UniformDistribution::new("seed");
    let first: F = source.next();
    let second: F = source.next();
    let third: F = source.next();
    assert_eq!(first.0, 0.4446528109600174);
    assert_eq!(second.0, 0.9494777452016097);
    assert_eq!(third.0, -0.0018007972201288247);
}

#[test]
fn same_seed_draws_same_numbers() {
    let mut a = UniformDistribution::new("test-seed");
    let mut b = UniformDistribution::new("test-seed");
    for _ in 0..10 {
        let x: F = a.next();
        let y: F = b.next();
        assert_eq!(x.0.to_bits(), y.0.to_bits());
    }
}

#[test]
fn lehmer_step_keeps_parity() {
    for s in [0u128, 1, 2, 3, 12345, u128::MAX, u128::MAX - 1, 1u128 << 127] {
        assert_eq!(lehmer_step(s) % 2, s % 2);
    }
}

#[test]
fn lehmer_step_is_undone_by_the_inverse() {
    for s in [0u128, 1, 7, 123456789, u128::MAX, 1u128 << 100] {
        assert_eq!(lehmer_step(s).wrapping_mul(LEHMER_A_INVERSE), s);
    }
    assert_ne!(lehmer_step(1), lehmer_step(3));
}

#[test]
fn lehmer_step_of_sums_and_products() {
    let pairs = [(1u128, 2u128), (u128::MAX, 5), (1u128 << 127, 1u128 << 127), (987654321, 123456789)];
    for (x, y) in pairs {
        assert_eq!(lehmer_step(x.wrapping_add(y)), lehmer_step(x).wrapping_add(lehmer_step(y)));
        assert_eq!(lehmer_step(x.wrapping_mul(y)), lehmer_step(x).wrapping_mul(y));
    }
}
