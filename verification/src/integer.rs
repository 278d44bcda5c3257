use vstd::prelude::*;

use num_bigint::BigInt;
use num_traits::Signed;

verus! {

/// The value of little-endian base-256 digits.
pub open spec fn unsigned_le(b: Seq<u8>) -> nat
    decreases b.len(),
{
    if b.len() == 0 {
        0
    } else {
        b[0] as nat + 256 * unsigned_le(b.drop_first())
    }
}

/// `256^n`.
pub open spec fn pow256(n: nat) -> nat
    decreases n,
{
    if n == 0 {
        1
    } else {
        256 * pow256((n - 1) as nat)
    }
}

/// The integer written by little-endian two's-complement bytes (the empty sequence is zero).
pub open spec fn twos_complement_value(b: Seq<u8>) -> int {
    if b.len() == 0 {
        0
    } else if b.last() >= 128 {
        unsigned_le(b) - pow256(b.len())
    } else {
        unsigned_le(b) as int
    }
}

/// The character of a decimal digit `0 <= d < 10`.
pub open spec fn digit_char(d: nat) -> char {
    (48 + d) as char
}

/// The decimal digits of `n`, most significant first, without leading zeroes.
pub open spec fn decimal_nat(n: nat) -> Seq<char>
    decreases n,
{
    if n < 10 {
        seq![digit_char(n)]
    } else {
        decimal_nat(n / 10).push(digit_char(n % 10))
    }
}

/// The decimal text of `v`, with a leading `-` when it is negative.
pub open spec fn decimal_int(v: int) -> Seq<char> {
    if v < 0 {
        seq!['-'] + decimal_nat((-v) as nat)
    } else {
        decimal_nat(v as nat)
    }
}

/// An arbitrary-precision integer, held as little-endian two's-complement bytes.
///
/// Arithmetic on it is carried out by `num_bigint::BigInt`; the view is the integer value.
#[derive(Debug)]
pub struct Integer {
    bytes: Vec<u8>,
}

impl View for Integer {
    type V = int;

    closed spec fn view(&self) -> int {
        twos_complement_value(self.bytes@)
    }
}

impl Integer {
    /// Zero.
    pub fn zero() -> (r: Integer)
        ensures
            r@ == 0,
    {
        Integer { bytes: Vec::new() }
    }

    /// One.
    pub fn one() -> (r: Integer)
        ensures
            r@ == 1,
    {
        let mut bytes: Vec<u8> = Vec::new();
        bytes.push(1u8);
        proof {
            assert(bytes@[0] == 1);
            assert(unsigned_le(bytes@.drop_first()) == 0);
            assert(unsigned_le(bytes@) == 1);
        }
        Integer { bytes }
    }

    /// Minus one.
    pub fn minus_one() -> (r: Integer)
        ensures
            r@ == -1,
    {
        let mut bytes: Vec<u8> = Vec::new();
        bytes.push(255u8);
        proof {
            assert(bytes@[0] == 255);
            assert(unsigned_le(bytes@.drop_first()) == 0);
            assert(unsigned_le(bytes@) == 255);
            assert(pow256(1) == 256) by {
                assert(pow256(0) == 1);
            }
        }
        Integer { bytes }
    }

    /// The integer written by the given little-endian two's-complement bytes.
    pub fn from_signed_bytes_le(bytes: Vec<u8>) -> (r: Integer)
        ensures
            r@ == twos_complement_value(bytes@),
    {
        Integer { bytes }
    }

    /// Little-endian two's-complement bytes that write this integer.
    pub fn to_signed_bytes_le(&self) -> (r: Vec<u8>)
        ensures
            twos_complement_value(r@) == self@,
    {
        self.bytes.clone()
    }

    /// The integer `x`.
    pub fn from_i64(x: i64) -> (r: Integer)
        ensures
            r@ == x,
    {
        big_from_i64(x)
    }

    /// Whether this integer is zero.
    pub fn is_zero(&self) -> (r: bool)
        ensures
            r == (self@ == 0),
    {
        big_is_zero(self)
    }

    /// Whether this integer is negative.
    pub fn is_negative(&self) -> (r: bool)
        ensures
            r == (self@ < 0),
    {
        big_is_negative(self)
    }

    /// The decimal text of this integer, with a leading `-` when it is negative.
    pub fn to_string(&self) -> (r: String)
        ensures
            r@ == decimal_int(self@),
    {
        big_to_string(self)
    }
}

impl Clone for Integer {
    fn clone(&self) -> (r: Self)
        ensures
            r@ == self@,
    {
        Integer { bytes: self.bytes.clone() }
    }
}

impl PartialEq for Integer {
    fn eq(&self, other: &Self) -> (r: bool) {
        big_eq(self, other)
    }
}

impl vstd::std_specs::cmp::PartialEqSpecImpl for Integer {
    open spec fn obeys_eq_spec() -> bool {
        true
    }

    open spec fn eq_spec(&self, other: &Self) -> bool {
        self@ == other@
    }
}

impl Eq for Integer {
}

/// `num_bigint::BigInt`'s `Add`: the sum of the two values.
#[verifier::external_body]
pub(crate) fn big_add(a: &Integer, b: &Integer) -> (r: Integer)
    ensures
        r@ == a@ + b@,
{
    let x = BigInt::from_signed_bytes_le(&a.bytes);
    let y = BigInt::from_signed_bytes_le(&b.bytes);
    Integer { bytes: (x + y).to_signed_bytes_le() }
}

/// `num_bigint::BigInt`'s `Mul`: the product of the two values.
#[verifier::external_body]
pub(crate) fn big_mul(a: &Integer, b: &Integer) -> (r: Integer)
    ensures
        r@ == a@ * b@,
{
    let x = BigInt::from_signed_bytes_le(&a.bytes);
    let y = BigInt::from_signed_bytes_le(&b.bytes);
    Integer { bytes: (x * y).to_signed_bytes_le() }
}

/// `num_bigint::BigInt`'s `Neg`: the negated value.
#[verifier::external_body]
pub(crate) fn big_neg(a: &Integer) -> (r: Integer)
    ensures
        r@ == -a@,
{
    let x = BigInt::from_signed_bytes_le(&a.bytes);
    Integer { bytes: (-x).to_signed_bytes_le() }
}

/// `num_traits::Signed::abs` on `num_bigint::BigInt`: the absolute value.
#[verifier::external_body]
pub(crate) fn big_abs(a: &Integer) -> (r: Integer)
    ensures
        r@ == (if a@ < 0 { -a@ } else { a@ }),
{
    let x = BigInt::from_signed_bytes_le(&a.bytes);
    Integer { bytes: x.abs().to_signed_bytes_le() }
}

/// Little-endian digits are below `256^len`.
proof fn lemma_unsigned_bound(b: Seq<u8>)
    ensures
        unsigned_le(b) < pow256(b.len()),
    decreases b.len(),
{
    if b.len() > 0 {
        lemma_unsigned_bound(b.drop_first());
        let u = unsigned_le(b.drop_first());
        let p = pow256(b.drop_first().len());
        assert(b[0] + 256 * u < 256 * p) by (nonlinear_arith)
            requires
                b[0] < 256,
                u < p,
        ;
    }
}

/// Little-endian digits are zero exactly when every byte is zero.
proof fn lemma_unsigned_zero(b: Seq<u8>)
    ensures
        unsigned_le(b) == 0 <==> forall|i: int| 0 <= i < b.len() ==> #[trigger] b[i] == 0,
    decreases b.len(),
{
    if b.len() > 0 {
        lemma_unsigned_zero(b.drop_first());
        if forall|i: int| 0 <= i < b.len() ==> #[trigger] b[i] == 0 {
            assert forall|i: int| 0 <= i < b.drop_first().len() implies #[trigger] b.drop_first()[i] == 0 by {
                assert(b[i + 1] == 0);
            }
        }
        if unsigned_le(b) == 0 {
            assert forall|i: int| 0 <= i < b.len() implies #[trigger] b[i] == 0 by {
                if i > 0 {
                    assert(b[i] == b.drop_first()[i - 1]);
                }
            }
        }
    }
}

/// The value of two's-complement bytes is below zero exactly when the last byte has its top bit.
proof fn lemma_value_sign(b: Seq<u8>)
    ensures
        twos_complement_value(b) < 0 <==> (b.len() > 0 && b.last() >= 128),
{
    lemma_unsigned_bound(b);
}

/// Whether this integer is zero: every byte is zero.
pub(crate) fn big_is_zero(a: &Integer) -> (r: bool)
    ensures
        r == (a@ == 0),
{
    let bytes = &a.bytes;
    let mut i: usize = 0;
    while i < bytes.len()
        invariant
            i <= bytes@.len(),
            bytes@ == a.bytes@,
            forall|j: int| 0 <= j < i ==> #[trigger] bytes@[j] == 0,
        decreases bytes.len() - i,
    {
        if bytes[i] != 0 {
            proof {
                let b = bytes@;
                lemma_unsigned_zero(b);
                lemma_value_sign(b);
                assert(b[i as int] != 0);
                assert(unsigned_le(b) != 0);
                if b.last() < 128 {
                    assert(twos_complement_value(b) == unsigned_le(b) as int);
                }
                assert(twos_complement_value(b) != 0);
                assert(a@ == twos_complement_value(b));
            }
            return false;
        }
        i = i + 1;
    }
    proof {
        lemma_unsigned_zero(bytes@);
    }
    true
}

/// Whether this integer is one: the first byte is one and every other byte is zero.
pub(crate) fn big_is_one(a: &Integer) -> (r: bool)
    ensures
        r == (a@ == 1),
{
    let bytes = &a.bytes;
    let ghost b = bytes@;
    proof {
        lemma_value_sign(b);
        if b.len() > 0 {
            lemma_unsigned_zero(b.drop_first());
        }
    }
    if bytes.len() == 0 || bytes[0] != 1 {
        proof {
            if b.len() > 0 && b.last() < 128 {
                assert(unsigned_le(b) == b[0] + 256 * unsigned_le(b.drop_first()));
            }
        }
        return false;
    }
    let mut i: usize = 1;
    while i < bytes.len()
        invariant
            1 <= i <= b.len(),
            b == bytes@,
            b == a.bytes@,
            forall|j: int| 1 <= j < i ==> #[trigger] b[j] == 0,
        decreases bytes.len() - i,
    {
        if bytes[i] != 0 {
            proof {
                lemma_unsigned_zero(b.drop_first());
                lemma_value_sign(b);
                assert(b.drop_first()[i - 1] == b[i as int]);
                assert(b.drop_first()[i - 1] != 0);
                assert(unsigned_le(b.drop_first()) != 0);
                assert(unsigned_le(b) == b[0] + 256 * unsigned_le(b.drop_first()));
                assert(unsigned_le(b) >= 256);
                if b.last() < 128 {
                    assert(twos_complement_value(b) == unsigned_le(b) as int);
                }
                assert(twos_complement_value(b) != 1);
                assert(a@ == twos_complement_value(b));
            }
            return false;
        }
        i = i + 1;
    }
    proof {
        assert forall|j: int| 0 <= j < b.drop_first().len() implies #[trigger] b.drop_first()[j] == 0 by {
            assert(b.drop_first()[j] == b[j + 1]);
        }
        assert(unsigned_le(b) == b[0] + 256 * unsigned_le(b.drop_first()));
        if b.len() > 1 {
            assert(b.last() == b[b.len() - 1]);
        }
    }
    true
}

/// Whether this integer is below zero: the top bit of the last byte is set.
pub(crate) fn big_is_negative(a: &Integer) -> (r: bool)
    ensures
        r == (a@ < 0),
{
    proof {
        lemma_value_sign(a.bytes@);
    }
    let n = a.bytes.len();
    n > 0 && a.bytes[n - 1] >= 128
}

/// `num_bigint::BigInt`'s `PartialEq`: whether the two values are equal.
#[verifier::external_body]
pub(crate) fn big_eq(a: &Integer, b: &Integer) -> (r: bool)
    ensures
        r == (a@ == b@),
{
    BigInt::from_signed_bytes_le(&a.bytes) == BigInt::from_signed_bytes_le(&b.bytes)
}

/// `num_bigint::BigInt`'s `From<i64>`: the same value.
#[verifier::external_body]
pub(crate) fn big_from_i64(x: i64) -> (r: Integer)
    ensures
        r@ == x,
{
    Integer { bytes: BigInt::from(x).to_signed_bytes_le() }
}

/// `num_bigint::BigInt`'s `Display` (through `to_string`): the decimal text of the value,
/// with a leading `-` when it is negative.
#[verifier::external_body]
pub(crate) fn big_to_string(a: &Integer) -> (r: String)
    ensures
        r@ == decimal_int(a@),
{
    BigInt::from_signed_bytes_le(&a.bytes).to_string()
}

} // verus!
