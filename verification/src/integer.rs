//! Two's-complement integers, decoded into a sign and a magnitude.
use vstd::prelude::*;
use crate::bigint::pow256;
use crate::header::{be_value, lemma_pow256_mono};
use crate::types::SignedBigInt;

verus! {

/// The `n` low big-endian bytes of `v`.
pub open spec fn be_encode(n: nat, v: nat) -> Seq<u8>
    decreases n,
{
    if n == 0 {
        seq![]
    } else {
        be_encode((n - 1) as nat, v / 256).push((v % 256) as u8)
    }
}

/// The integer that a big-endian two's-complement byte string stands for
/// (the empty string standing for zero).
pub open spec fn twos_complement_value(bytes: Seq<u8>) -> int {
    if bytes.len() > 0 && bytes[0] >= 128 {
        be_value(bytes) - pow256(bytes.len())
    } else {
        be_value(bytes) as int
    }
}

/// The magnitude bytes and sign that `from_signed_bytes_be` gives for `bytes`: a single zero
/// byte for the empty string; the bytes themselves when the sign bit is clear; otherwise the
/// same number of bytes holding `256^len - value`, the magnitude of the negative number.
pub open spec fn spec_signed_magnitude(bytes: Seq<u8>) -> (Seq<u8>, bool) {
    if bytes.len() == 0 {
        (seq![0u8], false)
    } else if bytes[0] >= 128 {
        (be_encode(bytes.len(), (pow256(bytes.len()) - be_value(bytes)) as nat), true)
    } else {
        (bytes, false)
    }
}

impl SignedBigInt {
    /// The integer this value stands for.
    pub open spec fn value(&self) -> int {
        if self.negative {
            -be_value(self.bytes@)
        } else {
            be_value(self.bytes@) as int
        }
    }

    /// Reads a big-endian two's-complement integer: the sign is the high bit of the first byte,
    /// and a negative number is stored by its magnitude (the bytes inverted, plus one).
    pub fn from_signed_bytes_be(bytes: &[u8]) -> (res: Self)
        ensures
            (res.bytes@, res.negative) == spec_signed_magnitude(bytes@),
            res.value() == twos_complement_value(bytes@),
    {
        if bytes.is_empty() {
            let res = SignedBigInt { bytes: vec![0], negative: false };
            proof {
                reveal_with_fuel(be_value, 2);
                assert(res.bytes@ =~= seq![0u8]);
            }
            return res;
        }
        // Check if negative (high bit set)
        let b0 = bytes[0];
        assert(b0 & 0x80 != 0 <==> b0 >= 128) by (bit_vector);
        let negative = b0 & 0x80 != 0;

        if negative {
            // Two's complement - invert and add 1
            let n = bytes.len();
            let mut inverted: Vec<u8> = Vec::with_capacity(n);
            let mut carry = 1u8;
            let mut j = n;
            proof {
                assert(bytes@.subrange(n as int, n as int) =~= Seq::<u8>::empty());
                assert(inverted@.reverse() =~= Seq::<u8>::empty());
            }
            while j > 0
                invariant
                    n == bytes@.len(),
                    j <= n,
                    inverted@.len() == n - j,
                    carry <= 1,
                    be_value(inverted@.reverse()) + carry * pow256((n - j) as nat) == pow256(
                        (n - j) as nat,
                    ) - be_value(bytes@.subrange(j as int, n as int)),
                decreases j,
            {
                j -= 1;
                let byte = bytes[j];
                let inverted_byte = !byte;
                assert(!byte == 255 - byte) by (bit_vector);
                let (sum, new_carry) = match inverted_byte.checked_add(carry) {
                    Some(s) => (s, false),
                    None => (0u8, true),
                };
                let ghost k = (n - 1 - j) as nat;
                let ghost p = pow256(k);
                let ghost old_inv = inverted@;
                let ghost c = carry as int;
                inverted.push(sum);
                carry = if new_carry {
                    1
                } else {
                    0
                };
                proof {
                    assert(inverted@.reverse() =~= seq![sum] + old_inv.reverse());
                    lemma_be_prepend(sum, old_inv.reverse());
                    assert(bytes@.subrange(j as int, n as int) =~= seq![byte] + bytes@.subrange(
                        j + 1,
                        n as int,
                    ));
                    lemma_be_prepend(byte, bytes@.subrange(j + 1, n as int));
                    assert(pow256(k + 1) == 256 * p);
                    let r = be_value(old_inv.reverse()) as int;
                    let t = be_value(bytes@.subrange(j + 1, n as int)) as int;
                    let c2 = carry as int;
                    let sm = sum as int;
                    let by = byte as int;
                    assert(sm + 256 * c2 == 255 - by + c);
                    assert(sm * p + r + c2 * (256 * p) == 256 * p - (by * p + t)) by (nonlinear_arith)
                        requires
                            sm + 256 * c2 == 255 - by + c,
                            r + c * p == p - t,
                    ;
                }
            }
            let magnitude = reverse_bytes(&inverted);
            proof {
                lemma_signed_magnitude_exact(bytes@, magnitude@, carry as nat);
            }
            SignedBigInt { bytes: magnitude, negative: true }
        } else {
            let res = SignedBigInt { bytes: vstd::slice::slice_to_vec(bytes), negative: false };
            res
        }
    }
}

/// The bytes of `v` in reverse order.
fn reverse_bytes(v: &Vec<u8>) -> (res: Vec<u8>)
    ensures
        res@ == v@.reverse(),
{
    let mut out: Vec<u8> = Vec::with_capacity(v.len());
    let n = v.len();
    let mut j = n;
    while j > 0
        invariant
            n == v@.len(),
            j <= n,
            out@ =~= v@.subrange(j as int, n as int).reverse(),
        decreases j,
    {
        j -= 1;
        out.push(v[j]);
    }
    assert(v@.subrange(0, n as int) =~= v@);
    out
}

/// Putting a byte in front multiplies it by `256^len`.
pub proof fn lemma_be_prepend(x: u8, s: Seq<u8>)
    ensures
        be_value(seq![x] + s) == x as nat * pow256(s.len()) + be_value(s),
    decreases s.len(),
{
    if s.len() == 0 {
        assert((seq![x] + s).drop_last() =~= Seq::<u8>::empty());
        assert(be_value(Seq::<u8>::empty()) == 0);
        assert(pow256(0) == 1);
        assert(be_value(seq![x] + s) == x as nat);
        assert(x as nat * 1 == x as nat);
    } else {
        let t = s.drop_last();
        lemma_be_prepend(x, t);
        assert((seq![x] + s).drop_last() =~= seq![x] + t);
        assert((seq![x] + s).last() == s.last());
        assert(be_value(seq![x] + s) == be_value(seq![x] + t) * 256 + s.last() as nat);
        let p = pow256(t.len());
        assert(pow256(s.len()) == 256 * p);
        let a = x as nat;
        let b = be_value(t);
        assert((a * p + b) * 256 == a * (256 * p) + b * 256) by (nonlinear_arith);
    }
}

/// A byte string is the encoding of its own value at its own length.
pub proof fn lemma_be_encode_inverse(s: Seq<u8>)
    ensures
        be_encode(s.len(), be_value(s)) == s,
    decreases s.len(),
{
    if s.len() > 0 {
        let t = s.drop_last();
        lemma_be_encode_inverse(t);
        let v = be_value(s);
        let a = be_value(t);
        let b = s.last() as nat;
        assert(v == a * 256 + b);
        assert(v / 256 == a && v % 256 == b) by (nonlinear_arith)
            requires
                v == a * 256 + b,
                b < 256,
        {
            vstd::arithmetic::div_mod::lemma_fundamental_div_mod_converse(
                v as int,
                256,
                a as int,
                b as int,
            );
        }
        assert(s =~= t.push(s.last()));
    }
}

/// Encoding a value below `256^n` in `n` bytes keeps the value.
pub proof fn lemma_be_encode_value(n: nat, v: nat)
    requires
        v < pow256(n),
    ensures
        be_encode(n, v).len() == n,
        be_value(be_encode(n, v)) == v,
    decreases n,
{
    if n > 0 {
        let q = v / 256;
        let r = v % 256;
        let p = pow256((n - 1) as nat);
        assert(q < p && v == q * 256 + r) by (nonlinear_arith)
            requires
                v < 256 * p,
                q == v / 256,
                r == v % 256,
        ;
        lemma_be_encode_value((n - 1) as nat, q);
        let e = be_encode(n, v);
        assert(e.drop_last() =~= be_encode((n - 1) as nat, q));
    }
}

/// At the end of the negation loop the carry is gone and the bytes are the magnitude.
proof fn lemma_signed_magnitude_exact(bytes: Seq<u8>, mag: Seq<u8>, carry: nat)
    requires
        bytes.len() > 0,
        bytes[0] >= 128,
        mag.len() == bytes.len(),
        carry <= 1,
        be_value(mag) + carry * pow256(bytes.len()) == pow256(bytes.len()) - be_value(
            bytes.subrange(0, bytes.len() as int),
        ),
    ensures
        (mag, true) == spec_signed_magnitude(bytes),
        -be_value(mag) == twos_complement_value(bytes),
{
    let n = bytes.len();
    assert(bytes.subrange(0, n as int) =~= bytes);
    assert(bytes =~= seq![bytes[0]] + bytes.drop_first());
    lemma_be_prepend(bytes[0], bytes.drop_first());
    let p = pow256((n - 1) as nat);
    lemma_pow256_mono(0, (n - 1) as nat);
    assert(bytes[0] as nat * p >= 1) by (nonlinear_arith)
        requires
            bytes[0] >= 128,
            p >= 1,
    ;
    assert(carry == 0) by (nonlinear_arith)
        requires
            be_value(mag) + carry * pow256(n) == pow256(n) - be_value(bytes),
            be_value(bytes) >= 1,
            carry <= 1,
    ;
    lemma_be_encode_inverse(mag);
}

/// The integer that a magnitude and a sign flag stand for.
pub open spec fn signed_value(magnitude: Seq<u8>, negative: bool) -> int {
    if negative {
        -be_value(magnitude)
    } else {
        be_value(magnitude) as int
    }
}

/// The magnitude and sign read from a two's-complement byte string stand for the integer
/// that the whole string encodes, leading bytes included.
pub proof fn lemma_signed_magnitude_value(bytes: Seq<u8>)
    ensures
        signed_value(spec_signed_magnitude(bytes).0, spec_signed_magnitude(bytes).1)
            == twos_complement_value(bytes),
{
    if bytes.len() == 0 {
        reveal_with_fuel(be_value, 2);
    } else if bytes[0] >= 128 {
        let n = bytes.len();
        assert(bytes =~= seq![bytes[0]] + bytes.drop_first());
        lemma_be_prepend(bytes[0], bytes.drop_first());
        let p = pow256((n - 1) as nat);
        lemma_pow256_mono(0, (n - 1) as nat);
        assert(bytes[0] as nat * p >= 1) by (nonlinear_arith)
            requires
                bytes[0] >= 128,
                p >= 1,
        ;
        crate::header::lemma_be_value_bound(bytes);
        let v = (pow256(n) - be_value(bytes)) as nat;
        lemma_be_encode_value(n, v);
    }
}

} // verus!
