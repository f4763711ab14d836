//! Decoding a DER byte string into blocks: what a byte string decodes to, and the decoder.
use vstd::prelude::*;
use vstd::utf8::{decode_utf8, valid_utf8};
use crate::bigint::{lemma_le_value_byte, u256_from_u8, u256_is_zero, u256_wrapping_sub, U256};
use crate::header::{
    decode_base127, decode_length, decode_tag, lemma_base127_advances, lemma_length_advances,
    lemma_tag_advances, spec_base127, spec_decode_length, spec_decode_tag,
};
use crate::integer::spec_signed_magnitude;
use crate::types::{
    blocks_view, lemma_blocks_view_push, result_view, ASN1Block, ASN1BlockModel, ASN1Class,
    ASN1DecodeErr, SignedBigInt, OID,
};

verus! {

/// `p` followed by the sequence in `r`, or the error in `r`.
pub open spec fn prepend<T>(p: Seq<T>, r: Result<Seq<T>, ASN1DecodeErr>) -> Result<
    Seq<T>,
    ASN1DecodeErr,
> {
    match r {
        Ok(s) => Ok(p + s),
        Err(e) => Err(e),
    }
}

/// Each byte read as the character with the same number.
pub open spec fn bytes_as_chars(s: Seq<u8>) -> Seq<char> {
    s.map_values(|b: u8| b as char)
}

/// The characters of a PrintableString:
/// `A`-`Z`, `a`-`z`, `0`-`9`, space and `'()+,-./:=?`.
pub open spec fn is_printable_char(c: char) -> bool {
    ||| ('A' <= c && c <= 'Z')
    ||| ('a' <= c && c <= 'z')
    ||| ('0' <= c && c <= '9')
    ||| c == ' '
    ||| c == '\''
    ||| c == '('
    ||| c == ')'
    ||| c == '+'
    ||| c == ','
    ||| c == '-'
    ||| c == '.'
    ||| c == '/'
    ||| c == ':'
    ||| c == '='
    ||| c == '?'
}

/// The contents of a PrintableString: the bytes as characters, if all are printable.
pub open spec fn spec_printable(body: Seq<u8>) -> Result<Seq<char>, ASN1DecodeErr> {
    if forall|j: int| 0 <= j < body.len() ==> is_printable_char(#[trigger] body[j] as char) {
        Ok(bytes_as_chars(body))
    } else {
        Err(ASN1DecodeErr::PrintableStringDecodeFailure)
    }
}

/// The contents of a UTF-8 string.
pub open spec fn spec_utf8(body: Seq<u8>) -> Result<Seq<char>, ASN1DecodeErr> {
    if valid_utf8(body) {
        Ok(decode_utf8(body))
    } else {
        Err(ASN1DecodeErr::UTF8DecodeFailure)
    }
}

/// A BIT STRING: the first byte counts the unused bits at the end of the rest. A bit count
/// that does not fit in a `usize` is an overflow.
pub open spec fn spec_bitstring(soff: nat, body: Seq<u8>) -> Result<ASN1BlockModel, ASN1DecodeErr> {
    if body.len() == 0 {
        Ok(ASN1BlockModel::BitString(soff, 0, seq![]))
    } else {
        let bits = body.drop_first();
        let bitcount = bits.len() * 8;
        let rest = body[0] as nat;
        if bitcount > usize::MAX {
            Err(ASN1DecodeErr::Overflow)
        } else if bitcount < rest {
            Err(ASN1DecodeErr::InvalidBitStringLength((bitcount - rest) as isize))
        } else {
            Ok(ASN1BlockModel::BitString(soff, (bitcount - rest) as nat, bits))
        }
    }
}

/// The base-128 arcs of an object identifier from position `idx` to the end.
pub open spec fn spec_arcs(body: Seq<u8>, idx: int) -> Result<Seq<nat>, ASN1DecodeErr>
    decreases body.len() - idx,
{
    if idx < 0 || idx >= body.len() {
        Ok(seq![])
    } else {
        match spec_base127(body, idx, 0) {
            Ok((v, end)) => {
                proof {
                    lemma_base127_advances(body, idx, 0);
                }
                prepend(seq![v], spec_arcs(body, end))
            },
            Err(e) => Err(e),
        }
    }
}

/// The first two arcs of an object identifier, which share the first byte (`40 * a + b`,
/// with `a` at most 2).
pub open spec fn first_two_arcs(b: u8) -> (nat, nat) {
    if b < 40 {
        (0, b as nat)
    } else if b < 80 {
        (1, (b - 40) as nat)
    } else {
        (2, (b - 80) as nat)
    }
}

/// The arcs of an OBJECT IDENTIFIER.
pub open spec fn spec_oid(body: Seq<u8>) -> Result<Seq<nat>, ASN1DecodeErr> {
    if body.len() == 0 {
        Err(ASN1DecodeErr::Incomplete)
    } else {
        let (a, b) = first_two_arcs(body[0]);
        prepend(seq![a, b], spec_arcs(body, 1))
    }
}

/// The block that the contents `body` give, under the given class, constructed flag and tag;
/// `soff` is where the block starts and `boff` where its contents start.
pub open spec fn der_block(
    class: ASN1Class,
    constructed: bool,
    tag: nat,
    body: Seq<u8>,
    soff: nat,
    boff: nat,
) -> Result<ASN1BlockModel, ASN1DecodeErr>
    decreases body.len(), 3nat, 0int,
{
    if class != ASN1Class::Universal {
        match der_list(body, boff) {
            Ok(items) => if constructed && items.len() == 1 {
                Ok(ASN1BlockModel::Explicit(class, soff, tag, Box::new(items[0])))
            } else {
                Ok(ASN1BlockModel::Unknown(class, constructed, soff, tag, body))
            },
            Err(_) => Ok(ASN1BlockModel::Unknown(class, constructed, soff, tag, body)),
        }
    } else if tag == 0x01 {
        if body.len() != 1 {
            Err(ASN1DecodeErr::BadBooleanLength(body.len() as usize))
        } else {
            Ok(ASN1BlockModel::Boolean(soff, body[0] != 0))
        }
    } else if tag == 0x02 {
        let (m, neg) = spec_signed_magnitude(body);
        Ok(ASN1BlockModel::Integer(soff, m, neg))
    } else if tag == 0x03 {
        spec_bitstring(soff, body)
    } else if tag == 0x04 {
        Ok(ASN1BlockModel::OctetString(soff, body))
    } else if tag == 0x05 {
        Ok(ASN1BlockModel::Null(soff))
    } else if tag == 0x06 {
        match spec_oid(body) {
            Ok(v) => Ok(ASN1BlockModel::ObjectIdentifier(soff, v)),
            Err(e) => Err(e),
        }
    } else if tag == 0x0c {
        match spec_utf8(body) {
            Ok(c) => Ok(ASN1BlockModel::UTF8String(soff, c)),
            Err(e) => Err(e),
        }
    } else if tag == 0x10 {
        match der_list(body, boff) {
            Ok(items) => Ok(ASN1BlockModel::Sequence(soff, items)),
            Err(e) => Err(e),
        }
    } else if tag == 0x11 {
        match der_list(body, boff) {
            Ok(items) => Ok(ASN1BlockModel::SetOf(soff, items)),
            Err(e) => Err(e),
        }
    } else if tag == 0x13 {
        match spec_printable(body) {
            Ok(c) => Ok(ASN1BlockModel::PrintableString(soff, c)),
            Err(e) => Err(e),
        }
    } else if tag == 0x14 {
        match spec_utf8(body) {
            Ok(c) => Ok(ASN1BlockModel::TeletexString(soff, c)),
            Err(e) => Err(e),
        }
    } else if tag == 0x16 {
        Ok(ASN1BlockModel::IA5String(soff, bytes_as_chars(body)))
    } else if tag == 0x17 {
        Ok(ASN1BlockModel::UTCTime(soff, body))
    } else if tag == 0x18 {
        Ok(ASN1BlockModel::GeneralizedTime(soff, body))
    } else if tag == 0x1c {
        match spec_utf8(body) {
            Ok(c) => Ok(ASN1BlockModel::UniversalString(soff, c)),
            Err(e) => Err(e),
        }
    } else if tag == 0x1e {
        match spec_utf8(body) {
            Ok(c) => Ok(ASN1BlockModel::BMPString(soff, c)),
            Err(e) => Err(e),
        }
    } else {
        Ok(ASN1BlockModel::Unknown(class, constructed, soff, tag, body))
    }
}

/// The blocks encoded in `i` from position `idx` on, one after the other;
/// `off` is where `i` starts in the whole input.
pub open spec fn der_items(i: Seq<u8>, off: nat, idx: int) -> Result<
    Seq<ASN1BlockModel>,
    ASN1DecodeErr,
>
    decreases i.len(), 1nat, i.len() - idx,
{
    if idx < 0 || idx >= i.len() {
        Ok(seq![])
    } else {
        match spec_decode_tag(i, idx) {
            Err(e) => Err(e),
            Ok((tag, constructed, class, h1)) => match spec_decode_length(i, h1) {
                Err(e) => Err(e),
                Ok((len, h)) => if h + len > usize::MAX {
                    Err(ASN1DecodeErr::LengthTooLarge(len as usize))
                } else if h + len > i.len() {
                    Err(ASN1DecodeErr::Incomplete)
                } else {
                    proof {
                        lemma_tag_advances(i, idx);
                        lemma_length_advances(i, h1);
                    }
                    match der_block(
                        class,
                        constructed,
                        tag,
                        i.subrange(h, h + len),
                        (off + idx) as nat,
                        (off + h) as nat,
                    ) {
                        Err(e) => Err(e),
                        Ok(b) => prepend(seq![b], der_items(i, off, h + len)),
                    }
                },
            },
        }
    }
}

/// The blocks encoded in `i`, which must hold at least one; `off` is where `i` starts
/// in the whole input.
pub open spec fn der_list(i: Seq<u8>, off: nat) -> Result<Seq<ASN1BlockModel>, ASN1DecodeErr>
    decreases i.len(), 2nat, 0int,
{
    match der_items(i, off, 0) {
        Ok(s) => if s.len() == 0 {
            Err(ASN1DecodeErr::EmptyBuffer)
        } else {
            Ok(s)
        },
        Err(e) => Err(e),
    }
}

/// The model of the result of decoding one block.
pub open spec fn block_result_view(r: Result<ASN1Block, ASN1DecodeErr>) -> Result<
    ASN1BlockModel,
    ASN1DecodeErr,
> {
    match r {
        Ok(b) => Ok(b.view()),
        Err(e) => Err(e),
    }
}

/// Calls `core::str::from_utf8`, which gives a string exactly when the bytes are valid
/// UTF-8, and then the string of the characters they encode.
#[verifier::external_body]
fn str_from_utf8(bytes: &[u8]) -> (res: Option<&str>)
    ensures
        res is Some <==> valid_utf8(bytes@),
        res matches Some(s) ==> s@ == decode_utf8(bytes@),
{
    match core::str::from_utf8(bytes) {
        Ok(v) => Some(v),
        Err(_) => None,
    }
}

/// Calls `String::push`, which appends one character.
#[verifier::external_body]
fn push_char(s: &mut String, c: char)
    ensures
        final(s)@ == old(s)@.push(c),
{
    s.push(c)
}

/// Decodes UTF-8 contents into a string.
fn decode_utf8_string(body: &[u8]) -> (res: Result<String, ASN1DecodeErr>)
    ensures
        match spec_utf8(body@) {
            Ok(c) => res matches Ok(s) && s@ == c,
            Err(e) => res == Err::<String, ASN1DecodeErr>(e),
        },
{
    match str_from_utf8(body) {
        Some(v) => Ok(v.to_owned()),
        None => Err(ASN1DecodeErr::UTF8DecodeFailure),
    }
}

/// Whether a character may stand in a PrintableString.
fn printable_char(c: char) -> (res: bool)
    ensures
        res == is_printable_char(c),
{
    ('A' <= c && c <= 'Z') || ('a' <= c && c <= 'z') || ('0' <= c && c <= '9') || c == ' ' || c
        == '\'' || c == '(' || c == ')' || c == '+' || c == ',' || c == '-' || c == '.' || c
        == '/' || c == ':' || c == '=' || c == '?'
}

/// Decodes the contents of a PrintableString.
fn decode_printable(body: &[u8]) -> (res: Result<String, ASN1DecodeErr>)
    ensures
        match spec_printable(body@) {
            Ok(c) => res matches Ok(s) && s@ == c,
            Err(e) => res == Err::<String, ASN1DecodeErr>(e),
        },
{
    let mut res = String::new();
    let n = body.len();
    for j in 0..n
        invariant
            n == body@.len(),
            res@ == bytes_as_chars(body@.subrange(0, j as int)),
            forall|k: int| 0 <= k < j ==> is_printable_char(#[trigger] body@[k] as char),
    {
        let c = body[j] as char;
        if printable_char(c) {
            push_char(&mut res, c);
            assert(bytes_as_chars(body@.subrange(0, j + 1)) =~= bytes_as_chars(
                body@.subrange(0, j as int),
            ).push(c));
        } else {
            return Err(ASN1DecodeErr::PrintableStringDecodeFailure);
        }
    }
    assert(body@.subrange(0, n as int) =~= body@);
    Ok(res)
}

/// Decodes the contents of an IA5String: each byte is one character.
fn decode_ia5(body: &[u8]) -> (res: String)
    ensures
        res@ == bytes_as_chars(body@),
{
    let mut res = String::new();
    let n = body.len();
    for j in 0..n
        invariant
            n == body@.len(),
            res@ == bytes_as_chars(body@.subrange(0, j as int)),
    {
        let c = body[j] as char;
        push_char(&mut res, c);
        assert(bytes_as_chars(body@.subrange(0, j + 1)) =~= bytes_as_chars(
            body@.subrange(0, j as int),
        ).push(c));
    }
    assert(body@.subrange(0, n as int) =~= body@);
    res
}

/// The values of a vector of arcs.
pub open spec fn arc_values(v: Seq<U256>) -> Seq<nat> {
    v.map_values(|c: U256| c.value())
}

/// Decodes the contents of an OBJECT IDENTIFIER.
fn decode_oid(body: &[u8]) -> (res: Result<OID, ASN1DecodeErr>)
    ensures
        match spec_oid(body@) {
            Ok(v) => res matches Ok(o) && o.values() == v,
            Err(e) => res == Err::<OID, ASN1DecodeErr>(e),
        },
{
    let mut value1 = u256_from_u8(0);
    if body.is_empty() {
        return Err(ASN1DecodeErr::Incomplete);
    }
    let mut value2 = u256_from_u8(body[0]);
    let mut oidres: Vec<U256> = Vec::new();
    let mut bindex: usize = 1;

    if body[0] >= 40 {
        if body[0] < 80 {
            value1 = u256_from_u8(1);
            value2 = u256_wrapping_sub(&value2, &u256_from_u8(40));
        } else {
            value1 = u256_from_u8(2);
            value2 = u256_wrapping_sub(&value2, &u256_from_u8(80));
        }
    }
    oidres.push(value1);
    oidres.push(value2);
    proof {
        let (a, b) = first_two_arcs(body@[0]);
        assert(arc_values(oidres@) =~= seq![a, b]);
    }
    while bindex < body.len()
        invariant
            1 <= bindex <= body@.len(),
            spec_oid(body@) == prepend(arc_values(oidres@), spec_arcs(body@, bindex as int)),
        decreases body@.len() - bindex,
    {
        let ghost old_vals = arc_values(oidres@);
        let ghost old_idx = bindex as int;
        proof {
            lemma_base127_advances(body@, old_idx, 0);
        }
        let arc = decode_base127(body, &mut bindex)?;
        oidres.push(arc);
        proof {
            assert(arc_values(oidres@) =~= old_vals + seq![arc.value()]);
            let r = spec_arcs(body@, bindex as int);
            match r {
                Ok(s) => assert(old_vals + (seq![arc.value()] + s) =~= arc_values(oidres@) + s),
                Err(_) => {},
            }
        }
    }
    proof {
        assert(spec_arcs(body@, bindex as int) == Ok::<Seq<nat>, ASN1DecodeErr>(seq![]));
        assert(arc_values(oidres@) + seq![] =~= arc_values(oidres@));
    }
    Ok(OID(oidres))
}

/// The tag as a byte, when it fits in one.
fn tag_byte(tag: &U256) -> (res: Option<u8>)
    ensures
        res == (if tag.value() < 256 {
            Some(tag.value() as u8)
        } else {
            None::<u8>
        }),
{
    proof {
        lemma_le_value_byte(tag.bytes@);
    }
    if u256_is_zero(tag) {
        Some(0u8)
    } else {
        let mut j: usize = 1;
        while j < 32
            invariant
                1 <= j <= 32,
                tag.bytes@.len() == 32,
                forall|k: int| 1 <= k < j ==> tag.bytes@[k] == 0,
            decreases 32 - j,
        {
            if tag.bytes[j] != 0 {
                proof {
                    lemma_le_value_byte(tag.bytes@);
                    let k = j as int;
                    assert(1 <= k < tag.bytes@.len() && tag.bytes@[k] != 0);
                    assert(!(forall|m: int| 1 <= m < tag.bytes@.len() ==> tag.bytes@[m] == 0));
                    assert(!(tag.value() < 256));
                }
                return None;
            }
            j += 1;
        }
        Some(tag.bytes[0])
    }
}

/// Decodes the contents of a BIT STRING.
fn decode_bitstring(soff: usize, body: &[u8]) -> (res: Result<ASN1Block, ASN1DecodeErr>)
    ensures
        block_result_view(res) == spec_bitstring(soff as nat, body@),
{
    if body.is_empty() {
        return Ok(ASN1Block::BitString(soff, 0, Vec::new()));
    }
    let bits = vstd::slice::slice_to_vec(vstd::slice::slice_subrange(body, 1, body.len()));
    assert(bits@ == body@.drop_first());
    if bits.len() > usize::MAX / 8 {
        return Err(ASN1DecodeErr::Overflow);
    }
    let bitcount = bits.len() * 8;
    let rest = body[0] as usize;
    if bitcount < rest {
        return Err(ASN1DecodeErr::InvalidBitStringLength(bitcount as isize - rest as isize));
    }
    let nbits = bitcount - (body[0] as usize);
    Ok(ASN1Block::BitString(soff, nbits, bits))
}

/// Decodes a block of a class other than universal: explicitly tagged when it is
/// constructed and its contents decode to exactly one block, unknown otherwise.
fn decode_tagged(
    class: ASN1Class,
    constructed: bool,
    tag: &U256,
    body: &[u8],
    soff: usize,
    boff: usize,
) -> (res: Result<ASN1Block, ASN1DecodeErr>)
    requires
        class != ASN1Class::Universal,
        boff + body@.len() <= usize::MAX,
    ensures
        block_result_view(res) == der_block(
            class,
            constructed,
            tag.value(),
            body@,
            soff as nat,
            boff as nat,
        ),
    decreases body@.len(), 3nat,
{
    if constructed {
        // Try to read as explicitly tagged
        if let Ok(mut items) = from_der_(body, boff) {
            proof {
                crate::types::lemma_blocks_view(items@);
            }
            if items.len() == 1 {
                let inner = items.remove(0);
                return Ok(ASN1Block::Explicit(class, soff, *tag, Box::new(inner)));
            }
        }
    }
    Ok(ASN1Block::Unknown(class, constructed, soff, *tag, vstd::slice::slice_to_vec(body)))
}

/// Decodes one block from its class, constructed flag, tag and contents.
fn decode_block(
    class: ASN1Class,
    constructed: bool,
    tag: &U256,
    body: &[u8],
    soff: usize,
    boff: usize,
) -> (res: Result<ASN1Block, ASN1DecodeErr>)
    requires
        boff + body@.len() <= usize::MAX,
    ensures
        block_result_view(res) == der_block(
            class,
            constructed,
            tag.value(),
            body@,
            soff as nat,
            boff as nat,
        ),
    decreases body@.len(), 4nat,
{
    if class != ASN1Class::Universal {
        return decode_tagged(class, constructed, tag, body, soff, boff);
    }
    let tag_u8 = tag_byte(tag);
    match tag_u8 {
        // BOOLEAN
        Some(0x01) => {
            if body.len() != 1 {
                return Err(ASN1DecodeErr::BadBooleanLength(body.len()));
            }
            Ok(ASN1Block::Boolean(soff, body[0] != 0))
        },
        // INTEGER
        Some(0x02) => {
            let res = SignedBigInt::from_signed_bytes_be(body);
            Ok(ASN1Block::Integer(soff, res))
        },
        // BIT STRING
        Some(0x03) => decode_bitstring(soff, body),
        // OCTET STRING
        Some(0x04) => Ok(ASN1Block::OctetString(soff, vstd::slice::slice_to_vec(body))),
        // NULL
        Some(0x05) => Ok(ASN1Block::Null(soff)),
        // OBJECT IDENTIFIER
        Some(0x06) => {
            let res = decode_oid(body)?;
            Ok(ASN1Block::ObjectIdentifier(soff, res))
        },
        // UTF8STRING
        Some(0x0C) => {
            let v = decode_utf8_string(body)?;
            Ok(ASN1Block::UTF8String(soff, v))
        },
        // SEQUENCE
        Some(0x10) => match from_der_(body, boff) {
            Ok(items) => Ok(ASN1Block::Sequence(soff, items)),
            Err(e) => Err(e),
        },
        // SET
        Some(0x11) => match from_der_(body, boff) {
            Ok(items) => Ok(ASN1Block::SetOf(soff, items)),
            Err(e) => Err(e),
        },
        // PRINTABLE STRING
        Some(0x13) => {
            let res = decode_printable(body)?;
            Ok(ASN1Block::PrintableString(soff, res))
        },
        // TELETEX STRINGS
        Some(0x14) => {
            let v = decode_utf8_string(body)?;
            Ok(ASN1Block::TeletexString(soff, v))
        },
        // IA5 (ASCII) STRING
        Some(0x16) => Ok(ASN1Block::IA5String(soff, decode_ia5(body))),
        // UTCTime - just store raw bytes for now
        Some(0x17) => Ok(ASN1Block::UTCTime(soff, vstd::slice::slice_to_vec(body))),
        // GeneralizedTime - just store raw bytes for now
        Some(0x18) => Ok(ASN1Block::GeneralizedTime(soff, vstd::slice::slice_to_vec(body))),
        // UNIVERSAL STRINGS
        Some(0x1C) => {
            let v = decode_utf8_string(body)?;
            Ok(ASN1Block::UniversalString(soff, v))
        },
        // BMP STRINGS
        Some(0x1E) => {
            let v = decode_utf8_string(body)?;
            Ok(ASN1Block::BMPString(soff, v))
        },
        // Unknown
        _ => Ok(ASN1Block::Unknown(class, constructed, soff, *tag, vstd::slice::slice_to_vec(body))),
    }
}

/// Translate a binary blob into a series of `ASN1Block`s
pub fn from_der(i: &[u8]) -> (res: Result<Vec<ASN1Block>, ASN1DecodeErr>)
    ensures
        result_view(res) == der_list(i@, 0),
        res matches Ok(v) ==> v@.len() > 0,
{
    proof {
        assert(i@.len() == i.len());
    }
    from_der_(i, 0)
}

/// Decodes the block that starts at `*index` in `i`, whose first byte stands at `start_offset`
/// in the whole input, and leaves `*index` after it.
fn decode_next(i: &[u8], start_offset: usize, index: &mut usize) -> (res: Result<
    ASN1Block,
    ASN1DecodeErr,
>)
    requires
        *old(index) < i@.len(),
        start_offset + i@.len() <= usize::MAX,
    ensures
        match res {
            Ok(b) => *old(index) < *final(index) <= i@.len() && der_items(
                i@,
                start_offset as nat,
                *old(index) as int,
            ) == prepend(seq![b.view()], der_items(i@, start_offset as nat, *final(index) as int)),
            Err(e) => der_items(i@, start_offset as nat, *old(index) as int) == Err::<
                Seq<ASN1BlockModel>,
                ASN1DecodeErr,
            >(e),
        },
    decreases i@.len(), 1nat,
{
    let soff = start_offset + *index;
    let ghost idx0 = *index as int;
    proof {
        lemma_tag_advances(i@, idx0);
    }
    let (tag, constructed, class) = match decode_tag(i, index) {
        Ok(t) => t,
        Err(e) => {
            return Err(e);
        },
    };
    let ghost h1 = *index as int;
    proof {
        lemma_length_advances(i@, h1);
    }
    let len = match decode_length(i, index) {
        Ok(l) => l,
        Err(e) => {
            return Err(e);
        },
    };
    let checklen = match index.checked_add(len) {
        Some(c) => c,
        None => {
            return Err(ASN1DecodeErr::LengthTooLarge(len));
        },
    };
    if checklen > i.len() {
        return Err(ASN1DecodeErr::Incomplete);
    }
    let body = vstd::slice::slice_subrange(i, *index, *index + len);
    let block = decode_block(class, constructed, &tag, body, soff, start_offset + *index)?;
    *index += len;
    Ok(block)
}

/// Decodes all the blocks of `i`, whose first byte stands at `start_offset` in the whole input.
fn from_der_(i: &[u8], start_offset: usize) -> (res: Result<Vec<ASN1Block>, ASN1DecodeErr>)
    requires
        start_offset + i@.len() <= usize::MAX,
    ensures
        result_view(res) == der_list(i@, start_offset as nat),
        res matches Ok(v) ==> v@.len() > 0,
    decreases i@.len(), 2nat,
{
    let mut result: Vec<ASN1Block> = Vec::new();
    let mut index: usize = 0;
    let len = i.len();
    let ghost off = start_offset as nat;

    while index < len
        invariant
            len == i@.len(),
            off == start_offset as nat,
            index <= len,
            start_offset + i@.len() <= usize::MAX,
                der_items(i@, off, 0) == prepend(blocks_view(result@), der_items(i@, off, index as int)),
        decreases len - index,
    {
        let ghost idx0 = index as int;
        let ghost prev = blocks_view(result@);
        let block = match decode_next(i, start_offset, &mut index) {
            Ok(b) => b,
            Err(e) => {
                proof {
                    assert(der_items(i@, off, idx0) == Err::<Seq<ASN1BlockModel>, ASN1DecodeErr>(e));
                    assert(der_items(i@, off, 0) == Err::<Seq<ASN1BlockModel>, ASN1DecodeErr>(e));
                }
                return Err(e);
            },
        };
        proof {
            lemma_blocks_view_push(result@, block);
        }
        result.push(block);
        proof {
            let r = der_items(i@, off, index as int);
            assert(der_items(i@, off, idx0) == prepend(seq![block.view()], r));
            assert(blocks_view(result@) == prev.push(block.view()));
            match r {
                Ok(s) => {
                    assert(prev + (seq![block.view()] + s) =~= blocks_view(result@) + s);
                },
                Err(_) => {},
            }
        }
    }

    proof {
        assert(blocks_view(result@) + seq![] =~= blocks_view(result@));
        crate::types::lemma_blocks_view(result@);
    }
    if result.is_empty() {
        Err(ASN1DecodeErr::EmptyBuffer)
    } else {
        Ok(result)
    }
}

} // verus!
