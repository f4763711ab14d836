//! Fixed-width 256-bit unsigned integers, as used for tags and object identifier arcs.
//!
//! The library holds such a number as its little-endian bytes; the arithmetic on it
//! is done by `crypto_bigint`, behind the trusted wrappers of this file.
use vstd::prelude::*;
use vstd::arithmetic::power2::pow2;
use crypto_bigint::Encoding;
use crypto_bigint::Zero;

verus! {

/// `256^k`.
pub open spec fn pow256(k: nat) -> nat
    decreases k,
{
    if k == 0 {
        1
    } else {
        256 * pow256((k - 1) as nat)
    }
}

/// Little-endian value of a byte sequence.
pub open spec fn le_value(s: Seq<u8>) -> nat
    decreases s.len(),
{
    if s.len() == 0 {
        0
    } else {
        s[0] as nat + 256 * le_value(s.drop_first())
    }
}

/// 2^256, the modulus of 256-bit wrapping arithmetic.
pub open spec fn modulus() -> nat {
    0x1_0000_0000_0000_0000_0000_0000_0000_0000_0000_0000_0000_0000_0000_0000_0000_0000nat
}

/// 2^64.
pub open spec fn modulus64() -> nat {
    0x1_0000_0000_0000_0000nat
}

/// A 256-bit unsigned integer held as its little-endian bytes.
#[derive(Clone, Copy, Debug, PartialEq, Eq)]
pub struct U256 {
    pub bytes: [u8; 32],
}

impl U256 {
    /// The number this value stands for.
    pub open spec fn value(&self) -> nat {
        le_value(self.bytes@)
    }
}

/// Calls `crypto_bigint::Uint::from_u8`, which builds the integer whose value is `n`.
#[verifier::external_body]
pub(crate) fn u256_from_u8(n: u8) -> (res: U256)
    ensures
        res.value() == n as nat,
{
    U256 { bytes: crypto_bigint::U256::from_u8(n).to_le_bytes() }
}

/// Calls `crypto_bigint::Uint::from_u64`, which builds the integer whose value is `n`.
#[verifier::external_body]
pub(crate) fn u256_from_u64(n: u64) -> (res: U256)
    ensures
        res.value() == n as nat,
{
    U256 { bytes: crypto_bigint::U256::from_u64(n).to_le_bytes() }
}

/// Calls `crypto_bigint::Uint::shl_vartime`, which computes `x << n` truncated to 256 bits
/// (zero once `n` reaches 256).
#[verifier::external_body]
pub(crate) fn u256_shl_vartime(x: &U256, n: usize) -> (res: U256)
    ensures
        n < 256 ==> res.value() == (x.value() * pow2(n as nat)) % modulus(),
        n >= 256 ==> res.value() == 0,
{
    let v = crypto_bigint::U256::from_le_bytes(x.bytes);
    U256 { bytes: v.shl_vartime(n).to_le_bytes() }
}

/// Calls `crypto_bigint::Uint::wrapping_add`, which adds modulo 2^256.
#[verifier::external_body]
pub(crate) fn u256_wrapping_add(a: &U256, b: &U256) -> (res: U256)
    ensures
        res.value() == (a.value() + b.value()) % modulus(),
{
    let x = crypto_bigint::U256::from_le_bytes(a.bytes);
    let y = crypto_bigint::U256::from_le_bytes(b.bytes);
    U256 { bytes: x.wrapping_add(&y).to_le_bytes() }
}

/// Calls `crypto_bigint::Uint::wrapping_sub`, which subtracts modulo 2^256.
#[verifier::external_body]
pub(crate) fn u256_wrapping_sub(a: &U256, b: &U256) -> (res: U256)
    ensures
        res.value() == (a.value() - b.value()) % (modulus() as int),
{
    let x = crypto_bigint::U256::from_le_bytes(a.bytes);
    let y = crypto_bigint::U256::from_le_bytes(b.bytes);
    U256 { bytes: x.wrapping_sub(&y).to_le_bytes() }
}

/// Calls `crypto_bigint::Zero::is_zero`, which tells whether the value is zero.
#[verifier::external_body]
pub(crate) fn u256_is_zero(x: &U256) -> (res: bool)
    ensures
        res == (x.value() == 0),
{
    crypto_bigint::U256::from_le_bytes(x.bytes).is_zero().into()
}

/// Calls `crypto_bigint::Uint`'s `==`, which tells whether two integers are equal.
#[verifier::external_body]
pub(crate) fn u256_eq(a: &U256, b: &U256) -> (res: bool)
    ensures
        res == (a.value() == b.value()),
{
    crypto_bigint::U256::from_le_bytes(a.bytes) == crypto_bigint::U256::from_le_bytes(b.bytes)
}

/// The value of a byte sequence is below `256^len`.
pub proof fn lemma_le_value_bound(s: Seq<u8>)
    ensures
        le_value(s) < pow256(s.len()),
    decreases s.len(),
{
    if s.len() > 0 {
        lemma_le_value_bound(s.drop_first());
    }
}

/// A value is zero exactly when all its bytes are.
pub proof fn lemma_le_value_zero(s: Seq<u8>)
    ensures
        le_value(s) == 0 <==> (forall|j: int| 0 <= j < s.len() ==> s[j] == 0),
    decreases s.len(),
{
    if s.len() > 0 {
        lemma_le_value_zero(s.drop_first());
        if le_value(s) == 0 {
            assert forall|j: int| 0 <= j < s.len() implies s[j] == 0 by {
                if j > 0 {
                    assert(s[j] == s.drop_first()[j - 1]);
                }
            }
        }
        if forall|j: int| 0 <= j < s.len() ==> s[j] == 0 {
            assert forall|j: int| 0 <= j < s.drop_first().len() implies s.drop_first()[j] == 0 by {
                assert(s.drop_first()[j] == s[j + 1]);
            }
        }
    }
}

/// A value fits in one byte exactly when all bytes but the first are zero; it is then that byte.
pub proof fn lemma_le_value_byte(s: Seq<u8>)
    requires
        s.len() > 0,
    ensures
        le_value(s) < 256 <==> (forall|j: int| 1 <= j < s.len() ==> s[j] == 0),
        le_value(s) < 256 ==> le_value(s) == s[0],
{
    let t = s.drop_first();
    lemma_le_value_zero(t);
    if forall|j: int| 1 <= j < s.len() ==> s[j] == 0 {
        assert forall|j: int| 0 <= j < t.len() implies t[j] == 0 by {
            assert(t[j] == s[j + 1]);
        }
    }
    if le_value(s) < 256 {
        assert forall|j: int| 1 <= j < s.len() implies s[j] == 0 by {
            assert(s[j] == t[j - 1]);
        }
    }
}

/// Splitting a byte sequence splits its value.
pub proof fn lemma_le_value_split(s: Seq<u8>, k: int)
    requires
        0 <= k <= s.len(),
    ensures
        le_value(s) == le_value(s.take(k)) + pow256(k as nat) * le_value(s.skip(k)),
    decreases k,
{
    if k == 0 {
        assert(s.skip(0) =~= s);
        assert(s.take(0).len() == 0);
        assert(le_value(s.take(0)) == 0);
        assert(pow256(0) == 1);
        let v = le_value(s);
        let p0 = pow256(0);
        assert(p0 * v == v) by (nonlinear_arith)
            requires
                p0 == 1,
        ;
    } else {
        let t = s.drop_first();
        lemma_le_value_split(t, k - 1);
        assert(s.take(k).drop_first() =~= t.take(k - 1));
        assert(t.skip(k - 1) =~= s.skip(k));
        let a = le_value(t.take(k - 1));
        let p = pow256((k - 1) as nat);
        let b = le_value(s.skip(k));
        assert(s.take(k)[0] == s[0]);
        assert(le_value(s.take(k)) == s[0] as nat + 256 * a);
        assert(pow256(k as nat) == 256 * p);
        assert(le_value(t) == a + p * b);
        assert(le_value(s) == s[0] as nat + 256 * le_value(t));
        assert(256 * (a + p * b) == 256 * a + (256 * p) * b) by (nonlinear_arith);
    }
}

/// The value modulo 2^64 is the value of the first eight bytes.
pub proof fn lemma_le_value_low64(s: Seq<u8>)
    requires
        s.len() >= 8,
    ensures
        le_value(s) % modulus64() == le_value(s.take(8)),
{
    lemma_le_value_split(s, 8);
    lemma_le_value_bound(s.take(8));
    reveal_with_fuel(pow256, 9);
    assert(pow256(8) == modulus64());
    let a = le_value(s.take(8));
    let b = le_value(s.skip(8));
    let m = modulus64();
    assert((a + m * b) % m == a) by (nonlinear_arith)
        requires
            0 <= a < m,
            0 <= b,
            m > 0,
    {
        vstd::arithmetic::div_mod::lemma_fundamental_div_mod_converse(
            (a + m * b) as int,
            m as int,
            b as int,
            a as int,
        );
    }
}

} // verus!
