//! Properties that hold across the library's functions.
use vstd::prelude::*;
use crate::bigint::modulus64;
use crate::der::{der_block, der_items, der_list, prepend, spec_bitstring};
use crate::integer::{lemma_signed_magnitude_value, signed_value, twos_complement_value};
use crate::eq::{model_eq, models_eq};
use crate::header::{
    class_of, lemma_length_advances, lemma_tag_advances, spec_base127,
    spec_decode_length, spec_decode_tag,
};
use crate::types::{model_class, model_offset, ASN1BlockModel, ASN1Class, ASN1DecodeErr, OID};

verus! {

/// Equality of blocks is symmetric.
pub proof fn law_eq_symmetric(a: ASN1BlockModel, b: ASN1BlockModel)
    ensures
        model_eq(a, b) == model_eq(b, a),
    decreases a,
{
    match a {
        ASN1BlockModel::Sequence(_, s1) => match b {
            ASN1BlockModel::Sequence(_, s2) => law_eqs_symmetric(s1, s2),
            _ => {},
        },
        ASN1BlockModel::SetOf(_, s1) => match b {
            ASN1BlockModel::SetOf(_, s2) => law_eqs_symmetric(s1, s2),
            _ => {},
        },
        _ => {},
    }
}

/// Pairwise equality of sequences of blocks is symmetric.
pub proof fn law_eqs_symmetric(s1: Seq<ASN1BlockModel>, s2: Seq<ASN1BlockModel>)
    ensures
        models_eq(s1, s2) == models_eq(s2, s1),
    decreases s1,
{
    if s1.len() == s2.len() && s1.len() > 0 {
        law_eq_symmetric(s1[0], s2[0]);
        law_eqs_symmetric(s1.subrange(1, s1.len() as int), s2.subrange(1, s2.len() as int));
    }
}

/// Blocks of the kinds that equality compares: booleans, integers, bit strings,
/// octet strings, nulls, object identifiers, and sequences and sets of such blocks.
pub open spec fn compared_kind(m: ASN1BlockModel) -> bool
    decreases m,
{
    match m {
        ASN1BlockModel::Boolean(..) => true,
        ASN1BlockModel::Integer(..) => true,
        ASN1BlockModel::BitString(..) => true,
        ASN1BlockModel::OctetString(..) => true,
        ASN1BlockModel::Null(..) => true,
        ASN1BlockModel::ObjectIdentifier(..) => true,
        ASN1BlockModel::Sequence(_, s) => compared_kinds(s),
        ASN1BlockModel::SetOf(_, s) => compared_kinds(s),
        _ => false,
    }
}

/// Every block of the sequence is of a kind that equality compares.
pub open spec fn compared_kinds(s: Seq<ASN1BlockModel>) -> bool
    decreases s,
{
    if s.len() == 0 {
        true
    } else {
        compared_kind(s[0]) && compared_kinds(s.subrange(1, s.len() as int))
    }
}

/// A block equals itself exactly when it is of a kind that equality compares
/// (a string, a time, an explicit or an unknown block never equals anything).
pub proof fn law_eq_reflexive(a: ASN1BlockModel)
    ensures
        model_eq(a, a) == compared_kind(a),
    decreases a,
{
    match a {
        ASN1BlockModel::Sequence(_, s) => law_eqs_reflexive(s),
        ASN1BlockModel::SetOf(_, s) => law_eqs_reflexive(s),
        _ => {},
    }
}

/// A sequence of blocks is pairwise equal to itself exactly when all its blocks are of
/// compared kinds.
pub proof fn law_eqs_reflexive(s: Seq<ASN1BlockModel>)
    ensures
        models_eq(s, s) == compared_kinds(s),
    decreases s,
{
    if s.len() > 0 {
        law_eq_reflexive(s[0]);
        law_eqs_reflexive(s.subrange(1, s.len() as int));
    }
}

/// Equality of blocks is transitive.
pub proof fn law_eq_transitive(a: ASN1BlockModel, b: ASN1BlockModel, c: ASN1BlockModel)
    requires
        model_eq(a, b),
        model_eq(b, c),
    ensures
        model_eq(a, c),
    decreases a,
{
    match a {
        ASN1BlockModel::Sequence(_, s1) => match b {
            ASN1BlockModel::Sequence(_, s2) => match c {
                ASN1BlockModel::Sequence(_, s3) => law_eqs_transitive(s1, s2, s3),
                _ => {},
            },
            _ => {},
        },
        ASN1BlockModel::SetOf(_, s1) => match b {
            ASN1BlockModel::SetOf(_, s2) => match c {
                ASN1BlockModel::SetOf(_, s3) => law_eqs_transitive(s1, s2, s3),
                _ => {},
            },
            _ => {},
        },
        _ => {},
    }
}

/// Pairwise equality of sequences of blocks is transitive.
pub proof fn law_eqs_transitive(
    s1: Seq<ASN1BlockModel>,
    s2: Seq<ASN1BlockModel>,
    s3: Seq<ASN1BlockModel>,
)
    requires
        models_eq(s1, s2),
        models_eq(s2, s3),
    ensures
        models_eq(s1, s3),
    decreases s1,
{
    if s1.len() > 0 {
        law_eq_transitive(s1[0], s2[0], s3[0]);
        law_eqs_transitive(
            s1.subrange(1, s1.len() as int),
            s2.subrange(1, s2.len() as int),
            s3.subrange(1, s3.len() as int),
        );
    }
}

/// The same block model at another offset.
pub open spec fn with_offset(m: ASN1BlockModel, o: nat) -> ASN1BlockModel {
    match m {
        ASN1BlockModel::Boolean(_, x) => ASN1BlockModel::Boolean(o, x),
        ASN1BlockModel::Integer(_, x, y) => ASN1BlockModel::Integer(o, x, y),
        ASN1BlockModel::BitString(_, x, y) => ASN1BlockModel::BitString(o, x, y),
        ASN1BlockModel::OctetString(_, x) => ASN1BlockModel::OctetString(o, x),
        ASN1BlockModel::Null(_) => ASN1BlockModel::Null(o),
        ASN1BlockModel::ObjectIdentifier(_, x) => ASN1BlockModel::ObjectIdentifier(o, x),
        ASN1BlockModel::UTF8String(_, x) => ASN1BlockModel::UTF8String(o, x),
        ASN1BlockModel::PrintableString(_, x) => ASN1BlockModel::PrintableString(o, x),
        ASN1BlockModel::TeletexString(_, x) => ASN1BlockModel::TeletexString(o, x),
        ASN1BlockModel::IA5String(_, x) => ASN1BlockModel::IA5String(o, x),
        ASN1BlockModel::UTCTime(_, x) => ASN1BlockModel::UTCTime(o, x),
        ASN1BlockModel::GeneralizedTime(_, x) => ASN1BlockModel::GeneralizedTime(o, x),
        ASN1BlockModel::UniversalString(_, x) => ASN1BlockModel::UniversalString(o, x),
        ASN1BlockModel::BMPString(_, x) => ASN1BlockModel::BMPString(o, x),
        ASN1BlockModel::Sequence(_, x) => ASN1BlockModel::Sequence(o, x),
        ASN1BlockModel::SetOf(_, x) => ASN1BlockModel::SetOf(o, x),
        ASN1BlockModel::Explicit(c, _, t, x) => ASN1BlockModel::Explicit(c, o, t, x),
        ASN1BlockModel::Unknown(c, k, _, t, x) => ASN1BlockModel::Unknown(c, k, o, t, x),
    }
}

/// Equality of blocks ignores where the blocks stand: moving a block to another
/// offset changes nothing of what it equals.
pub proof fn law_eq_ignores_offset(a: ASN1BlockModel, b: ASN1BlockModel, o: nat)
    ensures
        model_eq(with_offset(a, o), b) == model_eq(a, b),
        model_eq(a, with_offset(b, o)) == model_eq(a, b),
        model_offset(with_offset(a, o)) == o,
{
}

/// The offset of a decoded block is where its encoding starts.
pub proof fn law_block_offset(
    class: ASN1Class,
    constructed: bool,
    tag: nat,
    body: Seq<u8>,
    soff: nat,
    boff: nat,
)
    ensures
        der_block(class, constructed, tag, body, soff, boff) matches Ok(m) ==> model_offset(m)
            == soff,
{
    if body.len() > 0 {
        assert(spec_bitstring(soff, body) matches Ok(m) ==> model_offset(m) == soff);
    }
}

/// The blocks decoded from position `idx` on start, in increasing order, within the input
/// after `idx`.
proof fn lemma_items_offsets(i: Seq<u8>, off: nat, idx: int)
    requires
        0 <= idx,
    ensures
        der_items(i, off, idx) matches Ok(s) ==> (forall|k: int|
            0 <= k < s.len() ==> off + idx <= #[trigger] model_offset(s[k]) < off + i.len()) && (
        forall|k1: int, k2: int|
            0 <= k1 < k2 < s.len() ==> #[trigger] model_offset(s[k1]) < #[trigger] model_offset(
                s[k2],
            )),
    decreases i.len() - idx,
{
    if idx < i.len() {
        lemma_tag_advances(i, idx);
        if let Ok((tag, constructed, class, h1)) = spec_decode_tag(i, idx) {
            lemma_length_advances(i, h1);
            if let Ok((len, h)) = spec_decode_length(i, h1) {
                if h + len <= usize::MAX && h + len <= i.len() {
                    let body = i.subrange(h, h + len);
                    law_block_offset(
                        class,
                        constructed,
                        tag,
                        body,
                        (off + idx) as nat,
                        (off + h) as nat,
                    );
                    lemma_items_offsets(i, off, h + len);
                    if let Ok(b) = der_block(
                        class,
                        constructed,
                        tag,
                        body,
                        (off + idx) as nat,
                        (off + h) as nat,
                    ) {
                        if let Ok(rest) = der_items(i, off, h + len) {
                            let s = seq![b] + rest;
                            assert forall|k: int| 0 <= k < s.len() implies off + idx
                                <= #[trigger] model_offset(s[k]) < off + i.len() by {
                                if k > 0 {
                                    assert(s[k] == rest[k - 1]);
                                }
                            }
                            assert forall|k1: int, k2: int|
                                0 <= k1 < k2 < s.len() implies #[trigger] model_offset(s[k1])
                                < #[trigger] model_offset(s[k2]) by {
                                assert(s[k2] == rest[k2 - 1]);
                                if k1 > 0 {
                                    assert(s[k1] == rest[k1 - 1]);
                                }
                            }
                        }
                    }
                }
            }
        }
    }
}

/// The blocks that a byte string decodes to start within it, in the order of their encodings.
pub proof fn law_offsets_in_order(i: Seq<u8>, off: nat)
    ensures
        der_list(i, off) matches Ok(s) ==> (forall|k: int|
            0 <= k < s.len() ==> off <= #[trigger] model_offset(s[k]) < off + i.len()) && (
        forall|k1: int, k2: int|
            0 <= k1 < k2 < s.len() ==> #[trigger] model_offset(s[k1]) < #[trigger] model_offset(
                s[k2],
            )),
{
    lemma_items_offsets(i, off, 0);
}

/// Reading an OID built from `u64`s back as `u64`s gives the same numbers.
pub proof fn law_as_vec_inverts_from_slice(o: OID, vals: Seq<u64>)
    requires
        o.values() == vals.map_values(|v: u64| v as nat),
    ensures
        o.values().len() == vals.len(),
        forall|j: int| 0 <= j < vals.len() ==> #[trigger] o.values()[j] % modulus64() == vals[j],
{
    assert forall|j: int| 0 <= j < vals.len() implies #[trigger] o.values()[j] % modulus64()
        == vals[j] by {
        assert(o.values()[j] == vals[j] as nat);
    }
}

/// A base-128 number read past a prefix `a` is the one read in `b`, ending `a.len()` later.
proof fn lemma_base127_shift(a: Seq<u8>, b: Seq<u8>, k: int, acc: nat)
    requires
        0 <= k,
    ensures
        spec_base127(a + b, a.len() + k, acc) == match spec_base127(b, k, acc) {
            Ok((v, e)) => Ok((v, e + a.len())),
            Err(x) => Err(x),
        },
    decreases b.len() - k,
{
    if k < b.len() {
        assert((a + b)[a.len() + k] == b[k]);
        let acc2 = (acc * 128 + (b[k] % 128) as nat) % crate::bigint::modulus();
        lemma_base127_shift(a, b, k + 1, acc2);
    }
}

/// Identifier octets read past a prefix `a` are those read in `b`, ending `a.len()` later.
proof fn lemma_tag_shift(a: Seq<u8>, b: Seq<u8>, k: int)
    requires
        0 <= k,
    ensures
        spec_decode_tag(a + b, a.len() + k) == match spec_decode_tag(b, k) {
            Ok((t, c, cl, e)) => Ok((t, c, cl, e + a.len())),
            Err(x) => Err(x),
        },
{
    if k < b.len() {
        assert((a + b)[a.len() + k] == b[k]);
        lemma_base127_shift(a, b, k + 1, 0);
    }
}

/// Length octets read past a prefix `a` are those read in `b`, ending `a.len()` later.
proof fn lemma_length_shift(a: Seq<u8>, b: Seq<u8>, k: int)
    requires
        0 <= k,
    ensures
        spec_decode_length(a + b, a.len() + k) == match spec_decode_length(b, k) {
            Ok((v, e)) => Ok((v, e + a.len())),
            Err(x) => Err(x),
        },
{
    if k < b.len() {
        assert((a + b)[a.len() + k] == b[k]);
        let n = b[k] - 128;
        if b[k] >= 128 && k + 1 + n <= b.len() {
            assert((a + b).subrange(a.len() + k + 1, a.len() + k + 1 + n) =~= b.subrange(
                k + 1,
                k + 1 + n,
            ));
        }
    }
}

/// A base-128 number that ends within `a` reads the same with anything after `a`.
proof fn lemma_base127_prefix(a: Seq<u8>, b: Seq<u8>, idx: int, acc: nat)
    requires
        0 <= idx,
        spec_base127(a, idx, acc) is Ok,
    ensures
        spec_base127(a + b, idx, acc) == spec_base127(a, idx, acc),
    decreases a.len() - idx,
{
    assert((a + b)[idx] == a[idx]);
    if a[idx] >= 128 {
        let acc2 = (acc * 128 + (a[idx] % 128) as nat) % crate::bigint::modulus();
        lemma_base127_prefix(a, b, idx + 1, acc2);
    }
}

/// Identifier octets that end within `a` read the same with anything after `a`.
proof fn lemma_tag_prefix(a: Seq<u8>, b: Seq<u8>, idx: int)
    requires
        0 <= idx,
        spec_decode_tag(a, idx) is Ok,
    ensures
        spec_decode_tag(a + b, idx) == spec_decode_tag(a, idx),
{
    assert((a + b)[idx] == a[idx]);
    if a[idx] % 32 == 31 {
        lemma_base127_prefix(a, b, idx + 1, 0);
    }
}

/// Length octets that end within `a` read the same with anything after `a`.
proof fn lemma_length_prefix(a: Seq<u8>, b: Seq<u8>, idx: int)
    requires
        0 <= idx,
        spec_decode_length(a, idx) is Ok,
    ensures
        spec_decode_length(a + b, idx) == spec_decode_length(a, idx),
{
    assert((a + b)[idx] == a[idx]);
    let n = a[idx] - 128;
    if a[idx] >= 128 {
        assert((a + b).subrange(idx + 1, idx + 1 + n) =~= a.subrange(idx + 1, idx + 1 + n));
    }
}

/// Blocks that decode from `a` from position `idx` on decode the same with anything after `a`,
/// and are followed by what decodes after `a`.
proof fn lemma_items_prefix(a: Seq<u8>, b: Seq<u8>, off: nat, idx: int)
    requires
        0 <= idx <= a.len(),
        der_items(a, off, idx) is Ok,
    ensures
        der_items(a + b, off, idx) == prepend(
            der_items(a, off, idx)->Ok_0,
            der_items(a + b, off, a.len() as int),
        ),
    decreases a.len() - idx,
{
    if idx == a.len() {
        match der_items(a + b, off, idx) {
            Ok(s) => assert(Seq::<ASN1BlockModel>::empty() + s =~= s),
            Err(_) => {},
        }
    } else {
        lemma_tag_advances(a, idx);
        let (tag, constructed, class, h1) = spec_decode_tag(a, idx)->Ok_0;
        lemma_tag_prefix(a, b, idx);
        lemma_length_advances(a, h1);
        let (len, h) = spec_decode_length(a, h1)->Ok_0;
        lemma_length_prefix(a, b, h1);
        assert((a + b).subrange(h, h + len) =~= a.subrange(h, h + len));
        lemma_items_prefix(a, b, off, h + len);
        let rest = der_items(a, off, h + len)->Ok_0;
        match der_items(a + b, off, a.len() as int) {
            Ok(s) => {
                let blk = der_block(class, constructed, tag, a.subrange(h, h + len), (off + idx) as nat, (off + h) as nat)->Ok_0;
                assert(seq![blk] + (rest + s) =~= (seq![blk] + rest) + s);
            },
            Err(_) => {},
        }
    }
}

/// Blocks that decode from `b` decode the same after a prefix `a`, at offsets `a.len()` later.
proof fn lemma_items_shift(a: Seq<u8>, b: Seq<u8>, off: nat, k: int)
    requires
        0 <= k,
        a.len() + b.len() <= usize::MAX,
        der_items(b, off + a.len(), k) is Ok,
    ensures
        der_items(a + b, off, a.len() + k) == der_items(b, off + a.len(), k),
    decreases b.len() - k,
{
    if k < b.len() {
        lemma_tag_shift(a, b, k);
        lemma_tag_advances(b, k);
        let (tag, constructed, class, h1) = spec_decode_tag(b, k)->Ok_0;
        lemma_length_shift(a, b, h1);
        lemma_length_advances(b, h1);
        let (len, h) = spec_decode_length(b, h1)->Ok_0;
        assert((a + b).subrange(a.len() + h, a.len() + h + len) =~= b.subrange(h, h + len));
        lemma_items_shift(a, b, off, h + len);
    }
}

/// Decoding the concatenation of two byte strings that each decode gives the blocks of the
/// first followed by those of the second, the offsets of the second counted from the start
/// of the first.
pub proof fn law_concatenation(a: Seq<u8>, b: Seq<u8>, off: nat)
    requires
        a.len() + b.len() <= usize::MAX,
        der_list(a, off) is Ok,
        der_list(b, off + a.len()) is Ok,
    ensures
        der_list(a + b, off) == Ok::<Seq<ASN1BlockModel>, ASN1DecodeErr>(
            der_list(a, off)->Ok_0 + der_list(b, off + a.len())->Ok_0,
        ),
{
    lemma_items_prefix(a, b, off, 0);
    lemma_items_shift(a, b, off, 0);
    assert(a.len() + 0 == a.len());
}

/// Blocks that fail to decode from `b` fail after a prefix `a` as well (the error itself may
/// differ: a length that runs past the end can be counted as too large instead of incomplete).
proof fn lemma_items_shift_err(a: Seq<u8>, b: Seq<u8>, off: nat, k: int)
    requires
        0 <= k,
        a.len() + b.len() <= usize::MAX,
        der_items(b, off + a.len(), k) is Err,
    ensures
        der_items(a + b, off, a.len() + k) is Err,
    decreases b.len() - k,
{
    if k < b.len() {
        lemma_tag_shift(a, b, k);
        lemma_tag_advances(b, k);
        if let Ok((tag, constructed, class, h1)) = spec_decode_tag(b, k) {
            lemma_length_shift(a, b, h1);
            lemma_length_advances(b, h1);
            if let Ok((len, h)) = spec_decode_length(b, h1) {
                if h + len <= b.len() {
                    assert((a + b).subrange(a.len() + h, a.len() + h + len) =~= b.subrange(
                        h,
                        h + len,
                    ));
                    if der_block(
                        class,
                        constructed,
                        tag,
                        b.subrange(h, h + len),
                        (off + a.len() + k) as nat,
                        (off + a.len() + h) as nat,
                    ) is Ok {
                        lemma_items_shift_err(a, b, off, h + len);
                    }
                }
            }
        }
    }
}

/// When the first of two concatenated byte strings decodes, the concatenation decodes exactly
/// when the second (which holds at least one byte) does.
pub proof fn law_concatenation_fails_with_second(a: Seq<u8>, b: Seq<u8>, off: nat)
    requires
        a.len() + b.len() <= usize::MAX,
        b.len() > 0,
        der_list(a, off) is Ok,
    ensures
        der_list(a + b, off) is Ok <==> der_list(b, off + a.len()) is Ok,
{
    lemma_items_prefix(a, b, off, 0);
    assert(a.len() + 0 == a.len());
    if der_list(b, off + a.len()) is Ok {
        law_concatenation(a, b, off);
    } else {
        if der_items(b, off + a.len(), 0) is Ok {
            assert(der_items(b, off + a.len(), 0)->Ok_0.len() > 0);
        }
        lemma_items_shift_err(a, b, off, 0);
    }
}

/// A block model with every offset, at every depth, moved `d` later.
pub open spec fn shift_model(m: ASN1BlockModel, d: nat) -> ASN1BlockModel
    decreases m,
{
    match m {
        ASN1BlockModel::Sequence(o, s) => ASN1BlockModel::Sequence(o + d, shift_models(s, d)),
        ASN1BlockModel::SetOf(o, s) => ASN1BlockModel::SetOf(o + d, shift_models(s, d)),
        ASN1BlockModel::Explicit(c, o, t, x) => ASN1BlockModel::Explicit(
            c,
            o + d,
            t,
            Box::new(shift_model(*x, d)),
        ),
        _ => with_offset(m, model_offset(m) + d),
    }
}

/// Block models with every offset, at every depth, moved `d` later.
pub open spec fn shift_models(s: Seq<ASN1BlockModel>, d: nat) -> Seq<ASN1BlockModel>
    decreases s,
{
    if s.len() == 0 {
        seq![]
    } else {
        seq![shift_model(s[0], d)] + shift_models(s.subrange(1, s.len() as int), d)
    }
}

/// A decoding result with every offset moved `d` later.
pub open spec fn shift_result(r: Result<Seq<ASN1BlockModel>, ASN1DecodeErr>, d: nat) -> Result<
    Seq<ASN1BlockModel>,
    ASN1DecodeErr,
> {
    match r {
        Ok(s) => Ok(shift_models(s, d)),
        Err(e) => Err(e),
    }
}

/// Moving a sequence that starts with `b` moves `b` and then the rest.
proof fn lemma_shift_models_cons(b: ASN1BlockModel, s: Seq<ASN1BlockModel>, d: nat)
    ensures
        shift_models(seq![b] + s, d) == seq![shift_model(b, d)] + shift_models(s, d),
{
    let t = seq![b] + s;
    assert(t.subrange(1, t.len() as int) =~= s);
}

/// Moving a sequence keeps its length.
proof fn lemma_shift_models_len(s: Seq<ASN1BlockModel>, d: nat)
    ensures
        shift_models(s, d).len() == s.len(),
        s.len() > 0 ==> shift_models(s, d)[0] == shift_model(s[0], d),
    decreases s.len(),
{
    if s.len() > 0 {
        lemma_shift_models_len(s.subrange(1, s.len() as int), d);
    }
}

/// Decoding one block at offsets `d` later moves its model `d` later.
proof fn lemma_block_shift(
    class: ASN1Class,
    constructed: bool,
    tag: nat,
    body: Seq<u8>,
    soff: nat,
    boff: nat,
    d: nat,
)
    ensures
        der_block(class, constructed, tag, body, soff + d, boff + d) == match der_block(
            class,
            constructed,
            tag,
            body,
            soff,
            boff,
        ) {
            Ok(m) => Ok(shift_model(m, d)),
            Err(e) => Err(e),
        },
    decreases body.len(), 3nat, 0int,
{
    lemma_list_shift(body, boff, d);
    if let Ok(items) = der_list(body, boff) {
        lemma_shift_models_len(items, d);
    }
}

/// Decoding from position `idx` at offsets `d` later moves every model `d` later.
proof fn lemma_items_shift_offset(i: Seq<u8>, off: nat, idx: int, d: nat)
    ensures
        der_items(i, off + d, idx) == shift_result(der_items(i, off, idx), d),
    decreases i.len(), 1nat, i.len() - idx,
{
    if 0 <= idx < i.len() {
        lemma_tag_advances(i, idx);
        if let Ok((tag, constructed, class, h1)) = spec_decode_tag(i, idx) {
            lemma_length_advances(i, h1);
            if let Ok((len, h)) = spec_decode_length(i, h1) {
                if h + len <= usize::MAX && h + len <= i.len() {
                    let body = i.subrange(h, h + len);
                    lemma_block_shift(
                        class,
                        constructed,
                        tag,
                        body,
                        (off + idx) as nat,
                        (off + h) as nat,
                        d,
                    );
                    assert((off + d + idx) as nat == (off + idx) as nat + d);
                    assert((off + d + h) as nat == (off + h) as nat + d);
                    lemma_items_shift_offset(i, off, h + len, d);
                    if let Ok(b) = der_block(
                        class,
                        constructed,
                        tag,
                        body,
                        (off + idx) as nat,
                        (off + h) as nat,
                    ) {
                        if let Ok(rest) = der_items(i, off, h + len) {
                            lemma_shift_models_cons(b, rest, d);
                        }
                    }
                }
            }
        }
    }
}

/// Decoding a list at offsets `d` later moves every model `d` later.
proof fn lemma_list_shift(i: Seq<u8>, off: nat, d: nat)
    ensures
        der_list(i, off + d) == shift_result(der_list(i, off), d),
    decreases i.len(), 2nat, 0int,
{
    lemma_items_shift_offset(i, off, 0, d);
    if let Ok(s) = der_items(i, off, 0) {
        lemma_shift_models_len(s, d);
    }
}

/// Decoding the same bytes as if they started `d` later gives the same result with every
/// offset, at every depth, moved `d` later; errors are the same.
pub proof fn law_offset_shift(i: Seq<u8>, off: nat, d: nat)
    ensures
        der_list(i, off + d) == shift_result(der_list(i, off), d),
{
    lemma_list_shift(i, off, d);
}

/// One block encoded with a one-byte identifier and a short-form length decodes to the
/// single block that its class, constructed bit, tag number and contents give.
pub proof fn law_single_element(id: u8, body: Seq<u8>, off: nat)
    requires
        id % 32 != 31,
        body.len() < 128,
    ensures
        der_list(seq![id, body.len() as u8] + body, off) == match der_block(
            class_of(id),
            id % 64 >= 32,
            (id % 32) as nat,
            body,
            off,
            off + 2,
        ) {
            Ok(m) => Ok(seq![m]),
            Err(e) => Err::<Seq<ASN1BlockModel>, ASN1DecodeErr>(e),
        },
{
    let i = seq![id, body.len() as u8] + body;
    assert(i[0] == id && i[1] == body.len() as u8);
    assert(i.subrange(2, 2 + body.len() as int) =~= body);
    assert(der_items(i, off, 2 + body.len() as int) == Ok::<Seq<ASN1BlockModel>, ASN1DecodeErr>(
        seq![],
    ));
    if let Ok(m) = der_block(class_of(id), id % 64 >= 32, (id % 32) as nat, body, off, off + 2) {
        assert(seq![m] + Seq::<ASN1BlockModel>::empty() =~= seq![m]);
    }
}

/// An INTEGER decodes to the integer that its whole contents encode in two's complement,
/// leading bytes included (contents `00 80` stand for +128).
pub proof fn law_integer_value(constructed: bool, body: Seq<u8>, soff: nat, boff: nat)
    ensures
        der_block(ASN1Class::Universal, constructed, 2, body, soff, boff) matches Ok(
            ASN1BlockModel::Integer(o, m, n),
        ) && o == soff && signed_value(m, n) == twos_complement_value(body),
{
    lemma_signed_magnitude_value(body);
}

/// A block of a class other than universal whose constructed bit is clear is kept as an
/// unknown block with its contents; it is never read as explicitly tagged.
pub proof fn law_primitive_tagged_is_unknown(
    class: ASN1Class,
    tag: nat,
    body: Seq<u8>,
    soff: nat,
    boff: nat,
)
    requires
        class != ASN1Class::Universal,
    ensures
        der_block(class, false, tag, body, soff, boff) == Ok::<ASN1BlockModel, ASN1DecodeErr>(
            ASN1BlockModel::Unknown(class, false, soff, tag, body),
        ),
{
}

/// Only a constructed block of a class other than universal decodes to an explicitly
/// tagged block, and it keeps its class and tag.
pub proof fn law_explicit_needs_constructed(
    class: ASN1Class,
    constructed: bool,
    tag: nat,
    body: Seq<u8>,
    soff: nat,
    boff: nat,
)
    ensures
        der_block(class, constructed, tag, body, soff, boff) matches Ok(
            ASN1BlockModel::Explicit(c, o, t, _),
        ) ==> constructed && class != ASN1Class::Universal && c == class && o == soff && t == tag,
{
    if body.len() > 0 {
        assert(!(spec_bitstring(soff, body) matches Ok(ASN1BlockModel::Explicit(_, _, _, _))));
    }
}

/// Two INTEGER blocks are equal only if they stand for the same integer, sign included.
pub proof fn law_equal_integers_have_equal_values(
    o1: nat,
    m1: Seq<u8>,
    n1: bool,
    o2: nat,
    m2: Seq<u8>,
    n2: bool,
)
    ensures
        model_eq(ASN1BlockModel::Integer(o1, m1, n1), ASN1BlockModel::Integer(o2, m2, n2))
            ==> signed_value(m1, n1) == signed_value(m2, n2),
{
}

/// The PrintableString alphabet of X.680: `A`-`Z`, `a`-`z`, `0`-`9`, space and `'()+,-./:=?`.
pub open spec fn in_printable_alphabet(c: char) -> bool {
    let u = c as u32;
    ||| 0x41 <= u <= 0x5a
    ||| 0x61 <= u <= 0x7a
    ||| 0x30 <= u <= 0x39
    ||| set![' ', '\'', '(', ')', '+', ',', '-', '.', '/', ':', '=', '?'].contains(c)
}

/// A PrintableString decodes exactly when every byte is in the X.680 alphabet, and then to
/// those characters; otherwise it fails with `PrintableStringDecodeFailure`.
pub proof fn law_printable_alphabet(constructed: bool, body: Seq<u8>, soff: nat, boff: nat)
    ensures
        (forall|j: int| 0 <= j < body.len() ==> in_printable_alphabet(#[trigger] body[j] as char))
            ==> (der_block(ASN1Class::Universal, constructed, 0x13, body, soff, boff) matches Ok(
            ASN1BlockModel::PrintableString(o, s),
        ) && o == soff && s.len() == body.len() && forall|j: int|
            0 <= j < body.len() ==> #[trigger] s[j] == body[j] as char),
        !(forall|j: int| 0 <= j < body.len() ==> in_printable_alphabet(#[trigger] body[j] as char))
            ==> der_block(ASN1Class::Universal, constructed, 0x13, body, soff, boff) == Err::<
            ASN1BlockModel,
            ASN1DecodeErr,
        >(ASN1DecodeErr::PrintableStringDecodeFailure),
{
    assert forall|j: int| 0 <= j < body.len() implies in_printable_alphabet(body[j] as char)
        == crate::der::is_printable_char(#[trigger] body[j] as char) by {
        let c = body[j] as char;
        let st = set![' ', '\'', '(', ')', '+', ',', '-', '.', '/', ':', '=', '?'];
        assert(st.contains(c) <==> (c == ' ' || c == '\'' || c == '(' || c == ')' || c == '+'
            || c == ',' || c == '-' || c == '.' || c == '/' || c == ':' || c == '=' || c == '?'));
    }
}

/// A decoded block has the class it was decoded with.
pub proof fn law_block_class(
    class: ASN1Class,
    constructed: bool,
    tag: nat,
    body: Seq<u8>,
    soff: nat,
    boff: nat,
)
    ensures
        der_block(class, constructed, tag, body, soff, boff) matches Ok(m) ==> model_class(m)
            == class,
{
    if body.len() > 0 {
        assert(spec_bitstring(soff, body) matches Ok(m) ==> model_class(m)
            == ASN1Class::Universal);
    }
}

/// The blocks decoded from position `idx` on have the class named by the two high bits of
/// the identifier octet at their offset.
proof fn lemma_items_classes(i: Seq<u8>, off: nat, idx: int)
    requires
        0 <= idx,
    ensures
        der_items(i, off, idx) matches Ok(s) ==> forall|k: int|
            0 <= k < s.len() ==> off <= model_offset(s[k]) < off + i.len() && model_class(
                #[trigger] s[k],
            ) == class_of(i[model_offset(s[k]) - off]),
    decreases i.len() - idx,
{
    if idx < i.len() {
        lemma_tag_advances(i, idx);
        if let Ok((tag, constructed, class, h1)) = spec_decode_tag(i, idx) {
            lemma_length_advances(i, h1);
            if let Ok((len, h)) = spec_decode_length(i, h1) {
                if h + len <= usize::MAX && h + len <= i.len() {
                    let body = i.subrange(h, h + len);
                    let soff = (off + idx) as nat;
                    law_block_offset(class, constructed, tag, body, soff, (off + h) as nat);
                    law_block_class(class, constructed, tag, body, soff, (off + h) as nat);
                    lemma_items_classes(i, off, h + len);
                    if let Ok(b) = der_block(class, constructed, tag, body, soff, (off + h) as nat) {
                        if let Ok(rest) = der_items(i, off, h + len) {
                            let s = seq![b] + rest;
                            assert(model_offset(b) - off == idx);
                            assert forall|k: int| 0 <= k < s.len() implies off <= model_offset(
                                s[k],
                            ) < off + i.len() && model_class(#[trigger] s[k]) == class_of(
                                i[model_offset(s[k]) - off],
                            ) by {
                                if k > 0 {
                                    assert(s[k] == rest[k - 1]);
                                }
                            }
                        }
                    }
                }
            }
        }
    }
}

/// Every block that a byte string decodes to reports the class named by the two high bits of
/// the identifier octet at its offset.
pub proof fn law_classes_from_identifiers(i: Seq<u8>, off: nat)
    ensures
        der_list(i, off) matches Ok(s) ==> forall|k: int|
            0 <= k < s.len() ==> model_class(#[trigger] s[k]) == class_of(
                i[model_offset(s[k]) - off],
            ),
{
    lemma_items_classes(i, off, 0);
}

} // verus!
