//! What each kind of block decodes to, stated by what its contents mean.
use vstd::prelude::*;
use vstd::utf8::{decode_utf8_encode_utf8, encode_utf8, valid_utf8};
use crate::bigint::modulus;
use crate::der::{der_block, der_items, der_list, spec_arcs, spec_bitstring, spec_oid};
use crate::eq::model_eq;
use crate::header::{
    lemma_base127_advances, lemma_length_advances, lemma_tag_advances, spec_base127,
    spec_decode_length, spec_decode_tag,
};
use crate::types::{model_offset, ASN1BlockModel, ASN1Class, ASN1DecodeErr};
use crate::bigint::pow256;

verus! {

/// A BOOLEAN needs exactly one content byte, and is true exactly when that byte is not zero.
pub proof fn law_boolean(constructed: bool, body: Seq<u8>, soff: nat, boff: nat)
    ensures
        body.len() == 1 ==> der_block(ASN1Class::Universal, constructed, 1, body, soff, boff)
            == Ok::<ASN1BlockModel, ASN1DecodeErr>(ASN1BlockModel::Boolean(soff, body[0] != 0)),
        body.len() != 1 ==> der_block(ASN1Class::Universal, constructed, 1, body, soff, boff)
            == Err::<ASN1BlockModel, ASN1DecodeErr>(
            ASN1DecodeErr::BadBooleanLength(body.len() as usize),
        ),
{
}

/// A BIT STRING keeps the bytes after the first, and its bit count is eight per kept byte
/// minus the unused bits that the first byte counts; more unused bits than bits is an error
/// carrying the (negative) difference.
pub proof fn law_bit_string(constructed: bool, body: Seq<u8>, soff: nat, boff: nat)
    ensures
        body.len() == 0 ==> der_block(ASN1Class::Universal, constructed, 3, body, soff, boff)
            == Ok::<ASN1BlockModel, ASN1DecodeErr>(
            ASN1BlockModel::BitString(soff, 0, Seq::empty()),
        ),
        body.len() > 0 && 8 * (body.len() - 1) <= usize::MAX && body[0] <= 8 * (body.len() - 1)
            ==> (der_block(ASN1Class::Universal, constructed, 3, body, soff, boff) matches Ok(
            ASN1BlockModel::BitString(o, n, bits),
        ) && o == soff && bits == body.subrange(1, body.len() as int) && n + body[0] == 8 * (
        body.len() - 1)),
        body.len() > 0 && body[0] > 8 * (body.len() - 1) ==> der_block(
            ASN1Class::Universal,
            constructed,
            3,
            body,
            soff,
            boff,
        ) == Err::<ASN1BlockModel, ASN1DecodeErr>(
            ASN1DecodeErr::InvalidBitStringLength((8 * (body.len() - 1) - body[0]) as isize),
        ),
{
    if body.len() > 0 {
        assert(body.drop_first() =~= body.subrange(1, body.len() as int));
        assert(spec_bitstring(soff, body) == der_block(
            ASN1Class::Universal,
            constructed,
            3,
            body,
            soff,
            boff,
        ));
    }
}

/// OCTET STRING, UTCTime and GeneralizedTime keep their contents as they are; NULL keeps
/// nothing, whatever its contents.
pub proof fn law_byte_contents(constructed: bool, body: Seq<u8>, soff: nat, boff: nat)
    ensures
        der_block(ASN1Class::Universal, constructed, 4, body, soff, boff) == Ok::<
            ASN1BlockModel,
            ASN1DecodeErr,
        >(ASN1BlockModel::OctetString(soff, body)),
        der_block(ASN1Class::Universal, constructed, 0x17, body, soff, boff) == Ok::<
            ASN1BlockModel,
            ASN1DecodeErr,
        >(ASN1BlockModel::UTCTime(soff, body)),
        der_block(ASN1Class::Universal, constructed, 0x18, body, soff, boff) == Ok::<
            ASN1BlockModel,
            ASN1DecodeErr,
        >(ASN1BlockModel::GeneralizedTime(soff, body)),
        der_block(ASN1Class::Universal, constructed, 5, body, soff, boff) == Ok::<
            ASN1BlockModel,
            ASN1DecodeErr,
        >(ASN1BlockModel::Null(soff)),
{
}

/// The characters of a UTF-8 decoded string (UTF8String, TeletexString, UniversalString,
/// BMPString): decoding succeeds exactly on valid UTF-8, and the characters encode back
/// to the contents.
pub open spec fn utf8_result_ok(
    r: Result<ASN1BlockModel, ASN1DecodeErr>,
    body: Seq<u8>,
    soff: nat,
) -> bool {
    match r {
        Ok(ASN1BlockModel::UTF8String(o, s)) => o == soff && encode_utf8(s) == body,
        Ok(ASN1BlockModel::TeletexString(o, s)) => o == soff && encode_utf8(s) == body,
        Ok(ASN1BlockModel::UniversalString(o, s)) => o == soff && encode_utf8(s) == body,
        Ok(ASN1BlockModel::BMPString(o, s)) => o == soff && encode_utf8(s) == body,
        _ => false,
    }
}

/// The UTF-8 string kinds decode exactly when the contents are valid UTF-8, to the
/// characters that encode back to the contents; otherwise they fail with `UTF8DecodeFailure`.
pub proof fn law_utf8_strings(constructed: bool, tag: nat, body: Seq<u8>, soff: nat, boff: nat)
    requires
        tag == 0x0c || tag == 0x14 || tag == 0x1c || tag == 0x1e,
    ensures
        valid_utf8(body) ==> utf8_result_ok(
            der_block(ASN1Class::Universal, constructed, tag, body, soff, boff),
            body,
            soff,
        ),
        !valid_utf8(body) ==> der_block(ASN1Class::Universal, constructed, tag, body, soff, boff)
            == Err::<ASN1BlockModel, ASN1DecodeErr>(ASN1DecodeErr::UTF8DecodeFailure),
        tag == 0x0c ==> der_block(ASN1Class::Universal, constructed, tag, body, soff, boff) is Err
            || der_block(ASN1Class::Universal, constructed, tag, body, soff, boff)->Ok_0 is UTF8String,
        tag == 0x14 ==> der_block(ASN1Class::Universal, constructed, tag, body, soff, boff) is Err
            || der_block(ASN1Class::Universal, constructed, tag, body, soff, boff)->Ok_0 is TeletexString,
        tag == 0x1c ==> der_block(ASN1Class::Universal, constructed, tag, body, soff, boff) is Err
            || der_block(ASN1Class::Universal, constructed, tag, body, soff, boff)->Ok_0 is UniversalString,
        tag == 0x1e ==> der_block(ASN1Class::Universal, constructed, tag, body, soff, boff) is Err
            || der_block(ASN1Class::Universal, constructed, tag, body, soff, boff)->Ok_0 is BMPString,
{
    if valid_utf8(body) {
        decode_utf8_encode_utf8(body);
    }
}

/// An IA5String gives one character per content byte, with the same number.
pub proof fn law_ia5_string(constructed: bool, body: Seq<u8>, soff: nat, boff: nat)
    ensures
        der_block(ASN1Class::Universal, constructed, 0x16, body, soff, boff) matches Ok(
            ASN1BlockModel::IA5String(o, s),
        ) && o == soff && s.len() == body.len() && forall|j: int|
            0 <= j < body.len() ==> #[trigger] s[j] as u32 == body[j] as u32,
{
}

/// A universal tag that the decoder does not know keeps the block as unknown, with its
/// constructed bit, tag number and contents.
pub proof fn law_unknown_universal(
    constructed: bool,
    tag: nat,
    body: Seq<u8>,
    soff: nat,
    boff: nat,
)
    requires
        !(tag == 1 || tag == 2 || tag == 3 || tag == 4 || tag == 5 || tag == 6 || tag == 0x0c
            || tag == 0x10 || tag == 0x11 || tag == 0x13 || tag == 0x14 || tag == 0x16 || tag
            == 0x17 || tag == 0x18 || tag == 0x1c || tag == 0x1e),
    ensures
        der_block(ASN1Class::Universal, constructed, tag, body, soff, boff) == Ok::<
            ASN1BlockModel,
            ASN1DecodeErr,
        >(ASN1BlockModel::Unknown(ASN1Class::Universal, constructed, soff, tag, body)),
{
}

/// SEQUENCE and SET hold the blocks that their contents decode to, offsets counted from where
/// the contents start, and pass on any error of the contents (an empty one included).
pub proof fn law_constructed_children(constructed: bool, body: Seq<u8>, soff: nat, boff: nat)
    ensures
        der_block(ASN1Class::Universal, constructed, 0x10, body, soff, boff) == match der_list(
            body,
            boff,
        ) {
            Ok(kids) => Ok(ASN1BlockModel::Sequence(soff, kids)),
            Err(e) => Err::<ASN1BlockModel, ASN1DecodeErr>(e),
        },
        der_block(ASN1Class::Universal, constructed, 0x11, body, soff, boff) == match der_list(
            body,
            boff,
        ) {
            Ok(kids) => Ok(ASN1BlockModel::SetOf(soff, kids)),
            Err(e) => Err::<ASN1BlockModel, ASN1DecodeErr>(e),
        },
        body.len() == 0 ==> der_block(ASN1Class::Universal, constructed, 0x10, body, soff, boff)
            == Err::<ASN1BlockModel, ASN1DecodeErr>(ASN1DecodeErr::EmptyBuffer),
{
}

/// A constructed block of another class than universal whose contents decode to exactly one
/// block is that block, explicitly tagged, which starts where the contents start.
pub proof fn law_explicit_inner(class: ASN1Class, tag: nat, body: Seq<u8>, soff: nat, boff: nat)
    requires
        class != ASN1Class::Universal,
        der_list(body, boff) matches Ok(kids) && kids.len() == 1,
    ensures
        der_block(class, true, tag, body, soff, boff) matches Ok(
            ASN1BlockModel::Explicit(c, o, t, inner),
        ) && c == class && o == soff && t == tag && model_offset(*inner) == boff,
{
    lemma_first_offset(body, boff);
}

/// The value of base-128 digits: seven bits from each byte, most significant first.
pub open spec fn base128_value(s: Seq<u8>) -> nat
    decreases s.len(),
{
    if s.len() == 0 {
        0
    } else {
        base128_value(s.drop_last()) * 128 + (s.last() % 128) as nat
    }
}

/// A base-128 number read from `idx`, with `acc` read before: it ends at the first byte below
/// 0x80, every byte before that has the high bit set, and its value is the base-128 value of
/// its bytes after `acc`, modulo 2^256.
proof fn lemma_base127_value(i: Seq<u8>, idx: int, acc: nat)
    requires
        0 <= idx,
    ensures
        spec_base127(i, idx, acc) matches Ok((v, end)) ==> idx < end <= i.len() && i[end - 1]
            < 128 && (forall|j: int| idx <= j < end - 1 ==> #[trigger] i[j] >= 128) && v == (acc
            * pow128((end - idx) as nat) + base128_value(i.subrange(idx, end))) % modulus(),
    decreases i.len() - idx,
{
    if idx < i.len() && i[idx] >= 128 {
        let acc2 = (acc * 128 + (i[idx] % 128) as nat) % modulus();
        lemma_base127_value(i, idx + 1, acc2);
        if let Ok((v, end)) = spec_base127(i, idx + 1, acc2) {
            let k = (end - idx - 1) as nat;
            let t = i.subrange(idx + 1, end);
            lemma_base128_prepend(i[idx], t);
            assert(i.subrange(idx, end) =~= seq![i[idx]] + t);
            let p = pow128(k);
            let d = (i[idx] % 128) as nat;
            let m = modulus();
            let a2 = acc * 128 + d;
            assert(pow128(k + 1) == 128 * p);
            vstd::arithmetic::div_mod::lemma_mul_mod_noop_left(a2 as int, p as int, m as int);
            vstd::arithmetic::div_mod::lemma_add_mod_noop(
                (a2 * p) as int,
                base128_value(t) as int,
                m as int,
            );
            vstd::arithmetic::div_mod::lemma_add_mod_noop(
                ((a2 % m) * p) as int,
                base128_value(t) as int,
                m as int,
            );
            let bt = base128_value(t);
            assert(a2 * p + bt == acc * (128 * p) + (d * p + bt)) by (nonlinear_arith)
                requires
                    a2 == acc * 128 + d,
            ;
            assert(v == ((a2 % m) * p + bt) % m);
            assert(((a2 % m) * p + bt) % m == (a2 * p + bt) % m);
            assert(base128_value(i.subrange(idx, end)) == d * p + bt);
            assert forall|j: int| idx <= j < end - 1 implies #[trigger] i[j] >= 128 by {
            }
        }
    } else if idx < i.len() {
        assert(i.subrange(idx, idx + 1) =~= seq![i[idx]]);
        assert(seq![i[idx]].drop_last() =~= Seq::<u8>::empty());
        assert(base128_value(Seq::<u8>::empty()) == 0);
        assert(base128_value(seq![i[idx]]) == (i[idx] % 128) as nat);
        reveal_with_fuel(pow128, 2);
        assert(acc * pow128(1) == acc * 128);
    }
}

/// `128^k`.
pub open spec fn pow128(k: nat) -> nat
    decreases k,
{
    if k == 0 {
        1
    } else {
        128 * pow128((k - 1) as nat)
    }
}

/// Putting a digit in front adds it times `128^len`.
proof fn lemma_base128_prepend(x: u8, s: Seq<u8>)
    ensures
        base128_value(seq![x] + s) == (x % 128) as nat * pow128(s.len()) + base128_value(s),
    decreases s.len(),
{
    if s.len() == 0 {
        assert((seq![x] + s).drop_last() =~= Seq::<u8>::empty());
        assert((seq![x] + s).last() == x);
        assert(base128_value(Seq::<u8>::empty()) == 0);
        assert(base128_value(seq![x] + s) == (x % 128) as nat);
        let d = (x % 128) as nat;
        assert(d * 1 == d);
    } else {
        let t = s.drop_last();
        lemma_base128_prepend(x, t);
        assert((seq![x] + s).drop_last() =~= seq![x] + t);
        assert((seq![x] + s).last() == s.last());
        let p = pow128(t.len());
        assert(pow128(s.len()) == 128 * p);
        let a = (x % 128) as nat;
        let b = base128_value(t);
        assert((a * p + b) * 128 == a * (128 * p) + b * 128) by (nonlinear_arith);
    }
}

/// A base-128 number is read up to the first byte below 0x80, and is the base-128 value of
/// its bytes modulo 2^256.
pub proof fn law_base128_number(i: Seq<u8>, idx: int)
    requires
        0 <= idx,
    ensures
        spec_base127(i, idx, 0) matches Ok((v, end)) ==> idx < end <= i.len() && i[end - 1]
            < 128 && (forall|j: int| idx <= j < end - 1 ==> #[trigger] i[j] >= 128) && v
            == base128_value(i.subrange(idx, end)) % modulus(),
        (forall|j: int| idx <= j < i.len() ==> #[trigger] i[j] >= 128) ==> spec_base127(
            i,
            idx,
            0,
        ) == Err::<(nat, int), ASN1DecodeErr>(ASN1DecodeErr::Incomplete),
{
    lemma_base127_value(i, idx, 0);
    lemma_base127_advances(i, idx, 0);
    if let Ok((v, end)) = spec_base127(i, idx, 0) {
        assert(0 * pow128((end - idx) as nat) == 0);
    }
}

/// Length octets: a byte below 0x80 is the length itself; otherwise it is 0x80 plus a count
/// `k` of bytes that follow, and the length is below `256^k`.
pub proof fn law_length_octets(i: Seq<u8>, idx: int)
    requires
        0 <= idx < i.len(),
    ensures
        i[idx] < 128 ==> spec_decode_length(i, idx) == Ok::<(nat, int), ASN1DecodeErr>(
            (i[idx] as nat, idx + 1),
        ),
        i[idx] >= 128 ==> (spec_decode_length(i, idx) matches Ok((v, end)) ==> end == idx + 1 + (
        i[idx] - 128) && v < pow256((i[idx] - 128) as nat)),
{
    if i[idx] >= 128 {
        let k = (i[idx] - 128) as nat;
        if idx + 1 + k <= i.len() {
            crate::header::lemma_be_value_bound(i.subrange(idx + 1, idx + 1 + k));
        }
    }
}

/// The first two arcs of an object identifier share its first byte as `40 * a + b`, with `a`
/// at most 2 and `b` below 40 unless `a` is 2; empty contents are incomplete.
pub proof fn law_oid_first_arcs(body: Seq<u8>)
    ensures
        body.len() == 0 ==> spec_oid(body) == Err::<Seq<nat>, ASN1DecodeErr>(
            ASN1DecodeErr::Incomplete,
        ),
        spec_oid(body) matches Ok(arcs) ==> arcs.len() >= 2 && arcs[0] <= 2 && arcs[0] * 40
            + arcs[1] == body[0] && (arcs[0] < 2 ==> arcs[1] < 40),
{
    if body.len() > 0 {
        if let Ok(rest) = spec_arcs(body, 1) {
            let arcs = seq![crate::der::first_two_arcs(body[0]).0, crate::der::first_two_arcs(body[0]).1] + rest;
            assert(arcs[0] == crate::der::first_two_arcs(body[0]).0);
            assert(arcs[1] == crate::der::first_two_arcs(body[0]).1);
        }
    }
}

/// An OBJECT IDENTIFIER block holds the arcs of its contents.
pub proof fn law_object_identifier(constructed: bool, body: Seq<u8>, soff: nat, boff: nat)
    ensures
        der_block(ASN1Class::Universal, constructed, 6, body, soff, boff) == match spec_oid(body) {
            Ok(arcs) => Ok(ASN1BlockModel::ObjectIdentifier(soff, arcs)),
            Err(e) => Err::<ASN1BlockModel, ASN1DecodeErr>(e),
        },
{
}

/// The first block that a byte string decodes to starts at the start of the string.
pub proof fn lemma_first_offset(i: Seq<u8>, off: nat)
    ensures
        der_list(i, off) matches Ok(s) ==> s.len() > 0 && model_offset(s[0]) == off,
{
    if 0 < i.len() {
        lemma_tag_advances(i, 0);
        if let Ok((tag, constructed, class, h1)) = spec_decode_tag(i, 0) {
            lemma_length_advances(i, h1);
            if let Ok((len, h)) = spec_decode_length(i, h1) {
                if h + len <= usize::MAX && h + len <= i.len() {
                    let body = i.subrange(h, h + len);
                    if let Ok(b) = der_block(class, constructed, tag, body, off, (off + h) as nat) {
                        crate::laws::law_block_offset(class, constructed, tag, body, off, (off + h) as nat);
                        if let Ok(rest) = der_items(i, off, h + len) {
                            assert((seq![b] + rest)[0] == b);
                        }
                    }
                }
            }
        }
    }
}

/// A number for each kind of block.
pub open spec fn kind_index(m: ASN1BlockModel) -> nat {
    match m {
        ASN1BlockModel::Boolean(..) => 0,
        ASN1BlockModel::Integer(..) => 1,
        ASN1BlockModel::BitString(..) => 2,
        ASN1BlockModel::OctetString(..) => 3,
        ASN1BlockModel::Null(..) => 4,
        ASN1BlockModel::ObjectIdentifier(..) => 5,
        ASN1BlockModel::UTF8String(..) => 6,
        ASN1BlockModel::PrintableString(..) => 7,
        ASN1BlockModel::TeletexString(..) => 8,
        ASN1BlockModel::IA5String(..) => 9,
        ASN1BlockModel::UTCTime(..) => 10,
        ASN1BlockModel::GeneralizedTime(..) => 11,
        ASN1BlockModel::UniversalString(..) => 12,
        ASN1BlockModel::BMPString(..) => 13,
        ASN1BlockModel::Sequence(..) => 14,
        ASN1BlockModel::SetOf(..) => 15,
        ASN1BlockModel::Explicit(..) => 16,
        ASN1BlockModel::Unknown(..) => 17,
    }
}

/// Block equality compares contents: booleans by value, integers by magnitude and sign, bit
/// strings by bit count and bytes, octet strings by bytes, object identifiers by arcs; any two
/// nulls are equal; blocks of different kinds are not.
pub proof fn law_eq_contents(a: ASN1BlockModel, b: ASN1BlockModel)
    ensures
        (a matches ASN1BlockModel::Boolean(_, x) && b matches ASN1BlockModel::Boolean(_, y))
            ==> model_eq(a, b) == (a->Boolean_1 == b->Boolean_1),
        (a is Integer && b is Integer) ==> model_eq(a, b) == (a->Integer_1 == b->Integer_1
            && a->Integer_2 == b->Integer_2),
        (a is BitString && b is BitString) ==> model_eq(a, b) == (a->BitString_1
            == b->BitString_1 && a->BitString_2 == b->BitString_2),
        (a is OctetString && b is OctetString) ==> model_eq(a, b) == (a->OctetString_1
            == b->OctetString_1),
        (a is ObjectIdentifier && b is ObjectIdentifier) ==> model_eq(a, b) == (
        a->ObjectIdentifier_1 == b->ObjectIdentifier_1),
        (a is Null && b is Null) ==> model_eq(a, b),
        kind_index(a) != kind_index(b) ==> !model_eq(a, b),
{
}

} // verus!
