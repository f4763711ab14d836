//! The identifier and length octets of a DER encoding: what they mean, and their decoders.
use vstd::prelude::*;
use vstd::arithmetic::power2::{pow2, lemma2_to64};
use vstd::arithmetic::div_mod::lemma_add_mod_noop_right;
use crate::bigint::{modulus, pow256, u256_from_u8, u256_shl_vartime, u256_wrapping_add, U256};
use crate::types::{ASN1Class, ASN1DecodeErr};

verus! {

broadcast use vstd::layout::layout_of_primitives;

/// The class that the two high bits of an identifier octet name.
pub open spec fn class_of(b: u8) -> ASN1Class {
    if b / 64 == 0 {
        ASN1Class::Universal
    } else if b / 64 == 1 {
        ASN1Class::Application
    } else if b / 64 == 2 {
        ASN1Class::ContextSpecific
    } else {
        ASN1Class::Private
    }
}

/// The number of bytes in a `usize`.
pub open spec fn usize_bytes() -> nat {
    vstd::layout::size_of::<usize>()
}

/// Big-endian value of a byte sequence.
pub open spec fn be_value(s: Seq<u8>) -> nat
    decreases s.len(),
{
    if s.len() == 0 {
        0
    } else {
        be_value(s.drop_last()) * 256 + s.last() as nat
    }
}

/// Base-128 decoding from position `idx` of `i`, with `acc` the value read so far:
/// each byte adds its low seven bits to the value (modulo 2^256), and the first byte
/// below 0x80 ends the number. Gives the value and the position after the number.
pub open spec fn spec_base127(i: Seq<u8>, idx: int, acc: nat) -> Result<(nat, int), ASN1DecodeErr>
    decreases i.len() - idx,
{
    if idx < 0 || idx >= i.len() {
        Err(ASN1DecodeErr::Incomplete)
    } else {
        let b = i[idx];
        let acc2 = (acc * 128 + (b % 128) as nat) % modulus();
        if b < 128 {
            Ok((acc2, idx + 1))
        } else {
            spec_base127(i, idx + 1, acc2)
        }
    }
}

/// The identifier octets at position `idx`: the tag number, whether the encoding is
/// constructed, the class, and the position after them.
pub open spec fn spec_decode_tag(i: Seq<u8>, idx: int) -> Result<
    (nat, bool, ASN1Class, int),
    ASN1DecodeErr,
> {
    if idx < 0 || idx >= i.len() {
        Err(ASN1DecodeErr::Incomplete)
    } else {
        let b = i[idx];
        let constructed = b % 64 >= 32;
        if b % 32 == 31 {
            match spec_base127(i, idx + 1, 0) {
                Ok((v, end)) => Ok((v, constructed, class_of(b), end)),
                Err(e) => Err(e),
            }
        } else {
            Ok(((b % 32) as nat, constructed, class_of(b), idx + 1))
        }
    }
}

/// The length octets at position `idx`: the length and the position after them.
/// The short form is one byte below 0x80; the long form is 0x80 plus a count of
/// big-endian bytes that follow, at most as many as a `usize` holds.
pub open spec fn spec_decode_length(i: Seq<u8>, idx: int) -> Result<(nat, int), ASN1DecodeErr> {
    if idx < 0 || idx >= i.len() {
        Err(ASN1DecodeErr::Incomplete)
    } else {
        let b = i[idx];
        if b >= 128 {
            let k = (b - 128) as nat;
            if k > usize_bytes() {
                Err(ASN1DecodeErr::LengthTooLarge(k as usize))
            } else if idx + 1 + k > i.len() {
                Err(ASN1DecodeErr::Incomplete)
            } else {
                Ok((be_value(i.subrange(idx + 1, idx + 1 + k)), idx + 1 + k))
            }
        } else {
            Ok((b as nat, idx + 1))
        }
    }
}

/// Where a failed header decoder leaves the index: at the end of the input,
/// or where it was if that is already past the end.
pub open spec fn index_after_incomplete(i: Seq<u8>, idx: int) -> int {
    if idx >= i.len() {
        idx
    } else {
        i.len() as int
    }
}

/// A base-128 number that decodes lies within the input, after its start.
pub proof fn lemma_base127_advances(i: Seq<u8>, idx: int, acc: nat)
    ensures
        spec_base127(i, idx, acc) matches Ok((v, end)) ==> idx < end <= i.len() && v
            < modulus(),
        spec_base127(i, idx, acc) is Err ==> spec_base127(i, idx, acc) == Err::<
            (nat, int),
            ASN1DecodeErr,
        >(ASN1DecodeErr::Incomplete),
    decreases i.len() - idx,
{
    if 0 <= idx < i.len() && i[idx] >= 128 {
        let acc2 = (acc * 128 + (i[idx] % 128) as nat) % modulus();
        lemma_base127_advances(i, idx + 1, acc2);
    }
}

/// Identifier octets that decode lie within the input, after their start.
pub proof fn lemma_tag_advances(i: Seq<u8>, idx: int)
    ensures
        spec_decode_tag(i, idx) matches Ok((t, c, k, end)) ==> idx < end <= i.len(),
        spec_decode_tag(i, idx) is Err ==> spec_decode_tag(i, idx) == Err::<
            (nat, bool, ASN1Class, int),
            ASN1DecodeErr,
        >(ASN1DecodeErr::Incomplete),
{
    lemma_base127_advances(i, idx + 1, 0);
}

/// `256^k` grows with `k`.
pub proof fn lemma_pow256_mono(a: nat, b: nat)
    requires
        a <= b,
    ensures
        1 <= pow256(a) <= pow256(b),
    decreases b,
{
    if b > 0 {
        if a < b {
            lemma_pow256_mono(a, (b - 1) as nat);
        } else {
            lemma_pow256_mono((b - 1) as nat, (b - 1) as nat);
        }
    }
}

/// `256^(bytes in a usize)` is one more than the largest `usize`.
pub proof fn lemma_pow256_usize()
    ensures
        pow256(usize_bytes()) == usize::MAX + 1,
{
    reveal_with_fuel(pow256, 9);
    assert(usize::BITS == 32 || usize::BITS == 64);
    if usize::BITS == 32 {
        assert(usize_bytes() == 4);
        assert(usize::MAX == 0xffff_ffff);
    } else {
        assert(usize_bytes() == 8);
        assert(usize::MAX == 0xffff_ffff_ffff_ffff);
    }
}

/// A big-endian value is below `256^len`.
pub proof fn lemma_be_value_bound(s: Seq<u8>)
    ensures
        be_value(s) < pow256(s.len()),
    decreases s.len(),
{
    if s.len() > 0 {
        lemma_be_value_bound(s.drop_last());
        let p = pow256((s.len() - 1) as nat);
        let v = be_value(s.drop_last());
        assert(v * 256 + 255 < 256 * p) by (nonlinear_arith)
            requires
                v < p,
        ;
    }
}

/// Length octets that decode lie within the input, after their start, and give a `usize`.
pub proof fn lemma_length_advances(i: Seq<u8>, idx: int)
    ensures
        spec_decode_length(i, idx) matches Ok((v, end)) ==> idx < end <= i.len() && v
            <= usize::MAX,
{
    if 0 <= idx < i.len() && i[idx] >= 128 {
        let k = (i[idx] - 128) as nat;
        if k <= usize_bytes() && idx + 1 + k <= i.len() {
            let s = i.subrange(idx + 1, idx + 1 + k);
            lemma_be_value_bound(s);
            lemma_pow256_mono(k, usize_bytes());
            lemma_pow256_usize();
        }
    }
}

/// Decodes the class from the two high bits of an identifier octet.
pub fn decode_class(i: u8) -> (res: Result<ASN1Class, ASN1DecodeErr>)
    ensures
        res == Ok::<ASN1Class, ASN1DecodeErr>(class_of(i)),
{
    assert(i >> 6 == i / 64) by (bit_vector);
    match i >> 6 {
        0b00 => Ok(ASN1Class::Universal),
        0b01 => Ok(ASN1Class::Application),
        0b10 => Ok(ASN1Class::ContextSpecific),
        0b11 => Ok(ASN1Class::Private),
        _ => Err(ASN1DecodeErr::InvalidClass(i)),
    }
}

/// Decodes a base-128 number starting at `*index`, leaving `*index` after it.
pub fn decode_base127(i: &[u8], index: &mut usize) -> (res: Result<U256, ASN1DecodeErr>)
    ensures
        match spec_base127(i@, *old(index) as int, 0) {
            Ok((v, end)) => res matches Ok(r) && r.value() == v && *final(index) == end,
            Err(e) => res == Err::<U256, ASN1DecodeErr>(e) && *final(index)
                == index_after_incomplete(i@, *old(index) as int),
        },
{
    let ghost start = *index as int;
    let mut res = u256_from_u8(0);
    proof {
        lemma2_to64();
    }
    loop
        invariant
            start == *old(index),
            start >= i@.len() ==> *index == start,
            start <= *index,
            start < i@.len() ==> *index <= i@.len(),
            start < *index ==> start < i@.len(),
            spec_base127(i@, start, 0) == spec_base127(i@, *index as int, res.value()),
            pow2(7) == 128,
        decreases i@.len() - *index,
    {
        if *index >= i.len() {
            return Err(ASN1DecodeErr::Incomplete);
        }
        let nextbyte = i[*index];
        *index += 1;
        let ghost acc = res.value();
        res = u256_shl_vartime(&res, 7);
        let low = nextbyte & 0x7f;
        assert(nextbyte & 0x7f == nextbyte % 128) by (bit_vector);
        res = u256_wrapping_add(&res, &u256_from_u8(low));
        proof {
            lemma_add_mod_noop_right((nextbyte % 128) as int, (acc * 128) as int, modulus() as int);
        }
        assert((nextbyte & 0x80) == 0 <==> nextbyte < 128) by (bit_vector);
        if (nextbyte & 0x80) == 0 {
            return Ok(res);
        }
    }
}

/// Decodes the identifier octets at `*index`: the tag, whether the encoding is
/// constructed, and the class; leaves `*index` after them.
pub fn decode_tag(i: &[u8], index: &mut usize) -> (res: Result<(U256, bool, ASN1Class), ASN1DecodeErr>)
    ensures
        match spec_decode_tag(i@, *old(index) as int) {
            Ok((t, c, k, end)) => res matches Ok((rt, rc, rk)) && rt.value() == t && rc == c
                && rk == k && *final(index) == end,
            Err(e) => res == Err::<(U256, bool, ASN1Class), ASN1DecodeErr>(e) && *final(index)
                == index_after_incomplete(i@, *old(index) as int),
        },
{
    if *index >= i.len() {
        return Err(ASN1DecodeErr::Incomplete);
    }
    let tagbyte = i[*index];
    assert((tagbyte & 0b0010_0000) != 0 <==> tagbyte % 64 >= 32) by (bit_vector);
    assert(tagbyte & 0b1_1111 == tagbyte % 32) by (bit_vector);
    let constructed = (tagbyte & 0b0010_0000) != 0;
    let class = decode_class(tagbyte)?;
    let basetag = tagbyte & 0b1_1111;

    *index += 1;

    if basetag == 0b1_1111 {
        let res = decode_base127(i, index)?;
        Ok((res, constructed, class))
    } else {
        Ok((u256_from_u8(basetag), constructed, class))
    }
}

/// Decodes the length octets at `*index`, leaving `*index` after them.
pub fn decode_length(i: &[u8], index: &mut usize) -> (res: Result<usize, ASN1DecodeErr>)
    ensures
        match spec_decode_length(i@, *old(index) as int) {
            Ok((v, end)) => res == Ok::<usize, ASN1DecodeErr>(v as usize) && *final(index) == end,
            Err(e) => res == Err::<usize, ASN1DecodeErr>(e),
        },
        res == Err::<usize, ASN1DecodeErr>(ASN1DecodeErr::Incomplete) ==> *final(index)
            == index_after_incomplete(i@, *old(index) as int),
        res is Err && res != Err::<usize, ASN1DecodeErr>(ASN1DecodeErr::Incomplete)
            ==> *final(index) == *old(index) + 1,
{
    if *index >= i.len() {
        return Err(ASN1DecodeErr::Incomplete);
    }
    let startbyte = i[*index];

    *index += 1;
    if startbyte >= 0x80 {
        assert(startbyte & 0x7f == startbyte - 128) by (bit_vector)
            requires
                startbyte >= 128,
        ;
        let mut lenlen = (startbyte & 0x7f) as usize;
        let mut res: usize = 0;

        if lenlen > core::mem::size_of::<usize>() {
            return Err(ASN1DecodeErr::LengthTooLarge(lenlen));
        }
        let ghost start = *index as int;
        let ghost k = lenlen as int;
        proof {
            lemma_pow256_usize();
            assert(i@.subrange(start, start) =~= Seq::<u8>::empty());
        }
        while lenlen > 0
            invariant
                start == *old(index) + 1,
                startbyte == i@[*old(index) as int],
                start <= i@.len(),
                k == startbyte - 128,
                k <= usize_bytes(),
                start <= *index <= i@.len(),
                *index + lenlen == start + k,
                res == be_value(i@.subrange(start, *index as int)),
                res < pow256((*index - start) as nat),
                pow256(usize_bytes()) == usize::MAX + 1,
            decreases lenlen,
        {
            if *index >= i.len() {
                return Err(ASN1DecodeErr::Incomplete);
            }
            let b = i[*index];
            proof {
                let n = (*index - start) as nat;
                lemma_pow256_mono(n + 1, usize_bytes());
                assert(pow256(n + 1) == 256 * pow256(n));
                let p = pow256(n);
                assert(res * 256 + b < 256 * p) by (nonlinear_arith)
                    requires
                        res < p,
                        b < 256,
                ;
                assert(i@.subrange(start, *index + 1).drop_last() =~= i@.subrange(start, *index as int));
            }
            res = res * 256 + (b as usize);

            *index += 1;
            lenlen -= 1;
        }

        Ok(res)
    } else {
        Ok(startbyte as usize)
    }
}

} // verus!
