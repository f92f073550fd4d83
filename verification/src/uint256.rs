//! 256-bit unsigned words. A word is kept as four 64-bit limbs, least
//! significant first; its arithmetic is done by the `primitive_types` crate.

use vstd::prelude::*;
use crate::bytes::{le_value, pow256};

verus! {

/// `2^64`, the weight of the second limb.
pub open spec fn limb1() -> nat {
    0x1_0000_0000_0000_0000nat
}

/// `2^128`, the weight of the third limb.
pub open spec fn limb2() -> nat {
    0x1_0000_0000_0000_0000_0000_0000_0000_0000nat
}

/// `2^192`, the weight of the fourth limb.
pub open spec fn limb3() -> nat {
    0x1_0000_0000_0000_0000_0000_0000_0000_0000_0000_0000_0000_0000nat
}

/// `2^256`, one more than the largest word.
pub open spec fn modulus() -> nat {
    0x1_0000_0000_0000_0000_0000_0000_0000_0000_0000_0000_0000_0000_0000_0000_0000_0000nat
}

/// A 256-bit unsigned integer.
#[derive(Clone, Copy, Debug, PartialEq, Eq, Structural, Hash)]
pub struct U256 {
    pub l0: u64,
    pub l1: u64,
    pub l2: u64,
    pub l3: u64,
}

impl View for U256 {
    type V = nat;

    /// The number the four limbs spell.
    open spec fn view(&self) -> nat {
        self.l0 as nat + limb1() * self.l1 as nat + limb2() * self.l2 as nat + limb3()
            * self.l3 as nat
    }
}

/// The `len` low-order bytes of `n`, most significant first.
pub open spec fn be_bytes(n: nat, len: nat) -> Seq<u8> {
    Seq::new(len, |i: int| ((n / pow256((len - 1 - i) as nat)) % 256) as u8)
}

/// The lower-case hexadecimal digit for `d`, which is below sixteen.
pub open spec fn hex_digit(d: int) -> char {
    "0123456789abcdef"@[d]
}

/// Two lower-case hexadecimal digits for each byte, high digit first.
pub open spec fn hex_digits(bytes: Seq<u8>) -> Seq<char> {
    Seq::new(
        2 * bytes.len(),
        |i: int| if i % 2 == 0 { hex_digit(bytes[i / 2] as int / 16) } else { hex_digit(bytes[i / 2] as int % 16) },
    )
}

impl U256 {
    /// The word whose value is `n`, for `n` below `2^256`.
    pub open spec fn of(n: nat) -> U256 {
        U256 {
            l0: (n % limb1()) as u64,
            l1: ((n / limb1()) % limb1()) as u64,
            l2: ((n / limb2()) % limb1()) as u64,
            l3: ((n / limb3()) % limb1()) as u64,
        }
    }

    /// Every word is below `2^256`.
    pub proof fn lemma_bound(self)
        ensures
            self@ < modulus(),
    {
    }

    /// A word is determined by its value.
    pub proof fn lemma_of_view(self)
        ensures
            U256::of(self@) == self,
    {
        let n = self@;
        let a = self.l0 as nat;
        let b = self.l1 as nat;
        let c = self.l2 as nat;
        let d = self.l3 as nat;
        let m = limb1();
        assert(limb2() == m * m);
        assert(limb3() == m * m * m);
        assert(n == a + m * (b + m * (c + m * d))) by (nonlinear_arith)
            requires
                n == a + m * b + (m * m) * c + (m * m * m) * d,
        ;
        lemma_split(a, b + m * (c + m * d), m);
        lemma_split(b, c + m * d, m);
        lemma_split(c, d, m);
        let r1 = b + m * (c + m * d);
        let r2 = c + m * d;
        assert(n / m == r1);
        assert(n / limb2() == r2) by {
            vstd::arithmetic::div_mod::lemma_div_denominator(n as int, m as int, m as int);
        }
        assert(n / limb3() == d) by {
            vstd::arithmetic::div_mod::lemma_div_denominator(n as int, (m * m) as int, m as int);
            assert((m * m) * m == limb3());
        }
        assert(d % m == d);
    }

    /// The word made for a number below `2^256` has that number as its value.
    pub proof fn lemma_view_of(n: nat)
        requires
            n < modulus(),
        ensures
            U256::of(n)@ == n,
    {
        let m = limb1();
        let q1 = n / m;
        let q2 = q1 / m;
        let q3 = q2 / m;
        vstd::arithmetic::div_mod::lemma_fundamental_div_mod(n as int, m as int);
        vstd::arithmetic::div_mod::lemma_fundamental_div_mod(q1 as int, m as int);
        vstd::arithmetic::div_mod::lemma_fundamental_div_mod(q2 as int, m as int);
        assert(limb2() == m * m);
        assert(limb3() == m * m * m);
        assert(modulus() == m * m * m * m);
        assert(n / limb2() == q2) by {
            vstd::arithmetic::div_mod::lemma_div_denominator(n as int, m as int, m as int);
        }
        assert(n / limb3() == q3) by {
            vstd::arithmetic::div_mod::lemma_div_denominator(n as int, (m * m) as int, m as int);
            assert((m * m) * m == limb3());
        }
        assert(q3 < m) by {
            if q3 >= m {
                assert(q2 >= m * q3);
                assert(q1 >= m * q2);
                assert(n >= m * q1);
                assert(n >= m * m * m * m) by (nonlinear_arith)
                    requires
                        q3 >= m,
                        q2 >= m * q3,
                        q1 >= m * q2,
                        n >= m * q1,
                        m > 0,
                ;
            }
        }
        assert(q3 % m == q3) by {
            vstd::arithmetic::div_mod::lemma_small_mod(q3, m);
        }
        let a = n % m;
        let b = q1 % m;
        let c = q2 % m;
        assert(n == a + m * b + (m * m) * c + (m * m * m) * q3) by (nonlinear_arith)
            requires
                n == m * q1 + a,
                q1 == m * q2 + b,
                q2 == m * q3 + c,
        ;
    }

    /// Words with the same value are the same word.
    pub proof fn lemma_same_value(self, other: U256)
        requires
            self@ == other@,
        ensures
            self == other,
    {
        self.lemma_of_view();
        other.lemma_of_view();
    }

    /// The word zero.
    pub fn zero() -> (r: U256)
        ensures
            r@ == 0,
            r == (U256 { l0: 0, l1: 0, l2: 0, l3: 0 }),
    {
        U256 { l0: 0, l1: 0, l2: 0, l3: 0 }
    }

    /// The largest word, `2^256 - 1`.
    pub fn max_value() -> (r: U256)
        ensures
            r@ == modulus() - 1,
    {
        U256 { l0: u64::MAX, l1: u64::MAX, l2: u64::MAX, l3: u64::MAX }
    }

    /// The sum, unless it does not fit in a word.
    pub fn checked_add(self, other: U256) -> (r: Option<U256>)
        ensures
            r.is_some() <==> self@ + other@ < modulus(),
            r matches Some(s) ==> s@ == self@ + other@,
    {
        wide_checked_add(self, other)
    }

    /// The difference, unless `other` is the larger.
    pub fn checked_sub(self, other: U256) -> (r: Option<U256>)
        ensures
            r.is_some() <==> self@ >= other@,
            r matches Some(s) ==> s@ == self@ - other@,
    {
        wide_checked_sub(self, other)
    }

    /// The quotient rounded down, unless `other` is zero.
    pub fn checked_div(self, other: U256) -> (r: Option<U256>)
        ensures
            r.is_some() <==> other@ != 0,
            r matches Some(q) ==> q@ == self@ / other@,
    {
        wide_checked_div(self, other)
    }

    /// Whether `self` is the larger number.
    pub fn gt(self, other: U256) -> (r: bool)
        ensures
            r == (self@ > other@),
    {
        wide_gt(self, other)
    }

    /// The word that `bytes` spell, least significant byte first; `None` for
    /// more than thirty-two bytes.
    pub fn from_le_bytes(bytes: &[u8]) -> (r: Option<U256>)
        ensures
            r.is_some() <==> bytes@.len() <= 32,
            r matches Some(w) ==> w@ == le_value(bytes@),
    {
        if bytes.len() <= 32 {
            Some(wide_from_little_endian(bytes))
        } else {
            None
        }
    }
}

proof fn lemma_split(low: nat, high: nat, m: nat)
    requires
        low < m,
    ensures
        (low + m * high) / m == high,
        (low + m * high) % m == low,
{
    assert(low + m * high == high * m + low) by (nonlinear_arith);
    vstd::arithmetic::div_mod::lemma_fundamental_div_mod_converse(
        (low + m * high) as int,
        m as int,
        high as int,
        low as int,
    );
}

/// `primitive_types::U256::from(u128)`: the word with the value of `x`.
#[verifier::external_body]
fn wide_from_u128(x: u128) -> (r: U256)
    ensures
        r@ == x,
{
    let w = primitive_types::U256::from(x);
    U256 { l0: w.0[0], l1: w.0[1], l2: w.0[2], l3: w.0[3] }
}

/// `primitive_types::U256::byte`: byte number `index` of the word, counting
/// from the least significant one. The crate panics from index 32 on.
#[verifier::external_body]
fn wide_byte(x: U256, index: usize) -> (r: u8)
    requires
        index < 32,
    ensures
        r == (x@ / pow256(index as nat)) % 256,
{
    primitive_types::U256([x.l0, x.l1, x.l2, x.l3]).byte(index)
}

/// `primitive_types::U256::checked_add`: the sum, or `None` when it is
/// `2^256` or more.
#[verifier::external_body]
fn wide_checked_add(a: U256, b: U256) -> (r: Option<U256>)
    ensures
        r.is_some() <==> a@ + b@ < modulus(),
        r matches Some(s) ==> s@ == a@ + b@,
{
    let x = primitive_types::U256([a.l0, a.l1, a.l2, a.l3]);
    let y = primitive_types::U256([b.l0, b.l1, b.l2, b.l3]);
    match x.checked_add(y) {
        Some(w) => Some(U256 { l0: w.0[0], l1: w.0[1], l2: w.0[2], l3: w.0[3] }),
        None => None,
    }
}

/// `primitive_types::U256::checked_sub`: the difference, or `None` when the
/// second word is the larger.
#[verifier::external_body]
fn wide_checked_sub(a: U256, b: U256) -> (r: Option<U256>)
    ensures
        r.is_some() <==> a@ >= b@,
        r matches Some(s) ==> s@ == a@ - b@,
{
    let x = primitive_types::U256([a.l0, a.l1, a.l2, a.l3]);
    let y = primitive_types::U256([b.l0, b.l1, b.l2, b.l3]);
    match x.checked_sub(y) {
        Some(w) => Some(U256 { l0: w.0[0], l1: w.0[1], l2: w.0[2], l3: w.0[3] }),
        None => None,
    }
}

/// `primitive_types::U256::checked_div`: the quotient rounded down, or
/// `None` when the divisor is zero.
#[verifier::external_body]
fn wide_checked_div(a: U256, b: U256) -> (r: Option<U256>)
    ensures
        r.is_some() <==> b@ != 0,
        r matches Some(q) ==> q@ == a@ / b@,
{
    let x = primitive_types::U256([a.l0, a.l1, a.l2, a.l3]);
    let y = primitive_types::U256([b.l0, b.l1, b.l2, b.l3]);
    match x.checked_div(y) {
        Some(w) => Some(U256 { l0: w.0[0], l1: w.0[1], l2: w.0[2], l3: w.0[3] }),
        None => None,
    }
}

/// The `>` of `primitive_types::U256`, which orders words as numbers.
#[verifier::external_body]
fn wide_gt(a: U256, b: U256) -> (r: bool)
    ensures
        r == (a@ > b@),
{
    primitive_types::U256([a.l0, a.l1, a.l2, a.l3]) > primitive_types::U256([b.l0, b.l1, b.l2, b.l3])
}

/// `primitive_types::U256::from_little_endian`: the word that the bytes
/// spell, least significant first. The crate panics on more than 32 bytes.
#[verifier::external_body]
fn wide_from_little_endian(bytes: &[u8]) -> (r: U256)
    requires
        bytes@.len() <= 32,
    ensures
        r@ == le_value(bytes@),
{
    let w = primitive_types::U256::from_little_endian(bytes);
    U256 { l0: w.0[0], l1: w.0[1], l2: w.0[2], l3: w.0[3] }
}

/// `hex::encode`: two lower-case hexadecimal digits for each byte.
#[verifier::external_body]
fn hex_encode(bytes: &Vec<u8>) -> (r: String)
    ensures
        r@ == hex_digits(bytes@),
{
    hex::encode(bytes)
}

/// The word with the value of `x`.
pub fn u256(x: u128) -> (r: U256)
    ensures
        r@ == x,
        r == U256::of(x as nat),
{
    let r = wide_from_u128(x);
    proof {
        r.lemma_of_view();
    }
    r
}

/// The thirty-two bytes of `value`, most significant first.
pub fn u256_to_bytes(value: U256) -> (bytes: Vec<u8>)
    ensures
        bytes@ == be_bytes(value@, 32),
{
    let mut bytes: Vec<u8> = Vec::new();
    let mut i: usize = 0;
    while i < 32
        invariant
            i <= 32,
            bytes@.len() == i,
            forall|j: int| 0 <= j < i ==> bytes@[j] == be_bytes(value@, 32)[j],
        decreases 32 - i,
    {
        bytes.push(wide_byte(value, 32 - i - 1));
        i += 1;
    }
    assert(bytes@ =~= be_bytes(value@, 32));
    bytes
}

/// `value` as sixty-four lower-case hexadecimal digits, most significant first.
pub fn u256_to_hex(value: U256) -> (text: String)
    ensures
        text@ == hex_digits(be_bytes(value@, 32)),
{
    let bytes = u256_to_bytes(value);
    hex_encode(&bytes)
}

} // verus!
