//! The values that decoding produces, and their mathematical models.
use vstd::prelude::*;
use crate::bigint::{lemma_le_value_low64, modulus64, pow256, u256_from_u64, le_value, U256};

verus! {

/// An ASN.1 OID component.
pub type OidComponent = U256;

/// An ASN.1 OID.
#[derive(Debug, PartialEq, Eq)]
pub struct OID(pub Vec<OidComponent>);

impl OID {
    /// The values of the components, in order.
    pub open spec fn values(&self) -> Seq<nat> {
        self.0@.map_values(|c: U256| c.value())
    }

    /// Generate an ASN.1 OID. The vector should be in the obvious format,
    /// with each component going left-to-right.
    pub fn new(x: Vec<OidComponent>) -> (res: OID)
        ensures
            res.0@ == x@,
    {
        OID(x)
    }

    /// Create OID from u64 values
    pub fn from_slice(values: &[u64]) -> (res: OID)
        ensures
            res.values() == values@.map_values(|v: u64| v as nat),
    {
        let mut components: Vec<U256> = Vec::new();
        let n = values.len();
        for j in 0..n
            invariant
                n == values@.len(),
                components@.len() == j,
                forall|k: int| 0 <= k < j ==> #[trigger] components@[k].value() == values@[k],
        {
            components.push(u256_from_u64(values[j]));
        }
        let res = OID(components);
        assert(res.values() =~= values@.map_values(|v: u64| v as nat));
        res
    }

    /// The components as `u64`s, each taken modulo 2^64.
    pub fn as_vec(&self) -> (res: Vec<u64>)
        ensures
            res@.len() == self.values().len(),
            forall|j: int| 0 <= j < res@.len() ==> #[trigger] res@[j] as nat == self.values()[j]
                % modulus64(),
    {
        let mut vec: Vec<u64> = Vec::new();
        let n = self.0.len();
        for j in 0..n
            invariant
                n == self.0@.len(),
                vec@.len() == j,
                forall|k: int| 0 <= k < j ==> #[trigger] vec@[k] as nat == self.0@[k].value()
                    % modulus64(),
        {
            vec.push(low_u64(&self.0[j]));
        }
        vec
    }
}

/// The low 64 bits of a 256-bit integer, read from its first eight little-endian bytes.
fn low_u64(val: &U256) -> (res: u64)
    ensures
        res as nat == val.value() % modulus64(),
{
    let mut res: u64 = 0;
    let mut k: usize = 8;
    proof {
        assert(val.bytes@.subrange(8, 8) =~= Seq::<u8>::empty());
        reveal_with_fuel(pow256, 9);
    }
    while k > 0
        invariant
            k <= 8,
            val.bytes@.len() == 32,
            res as nat == le_value(val.bytes@.subrange(k as int, 8)),
            res < pow256((8 - k) as nat),
            pow256(8) == modulus64(),
        decreases k,
    {
        k -= 1;
        let b = val.bytes[k];
        proof {
            let m = (8 - k - 1) as nat;
            crate::header::lemma_pow256_mono(m + 1, 8);
            assert(pow256(m + 1) == 256 * pow256(m));
            let p = pow256(m);
            assert(b + 256 * res < 256 * p) by (nonlinear_arith)
                requires
                    res < p,
                    b < 256,
            ;
            assert(val.bytes@.subrange(k as int, 8).drop_first() =~= val.bytes@.subrange(
                k + 1,
                8,
            ));
        }
        res = (b as u64) + 256 * res;
    }
    proof {
        assert(val.bytes@.subrange(0, 8) =~= val.bytes@.take(8));
        lemma_le_value_low64(val.bytes@);
    }
    res
}

/// An ASN.1 class.
#[derive(Clone, Copy, Debug, PartialEq, Eq, Structural)]
pub enum ASN1Class {
    Universal,
    Application,
    ContextSpecific,
    Private,
}

/// A signed integer held as a magnitude (big-endian bytes) and a sign flag.
#[derive(Debug, PartialEq)]
pub struct SignedBigInt {
    pub bytes: Vec<u8>,
    pub negative: bool,
}

/// A primitive block from ASN.1.
#[derive(Debug)]
pub enum ASN1Block {
    Boolean(usize, bool),
    Integer(usize, SignedBigInt),
    BitString(usize, usize, Vec<u8>),
    OctetString(usize, Vec<u8>),
    Null(usize),
    ObjectIdentifier(usize, OID),
    UTF8String(usize, String),
    PrintableString(usize, String),
    TeletexString(usize, String),
    IA5String(usize, String),
    UTCTime(usize, Vec<u8>),
    GeneralizedTime(usize, Vec<u8>),
    UniversalString(usize, String),
    BMPString(usize, String),
    Sequence(usize, Vec<ASN1Block>),
    SetOf(usize, Vec<ASN1Block>),
    /// An explicitly tagged block.
    Explicit(ASN1Class, usize, U256, Box<ASN1Block>),
    /// An unknown block.
    Unknown(ASN1Class, bool, usize, U256, Vec<u8>),
}

/// An error that can arise decoding ASN.1 primitive blocks.
#[derive(Clone, Debug, PartialEq)]
pub enum ASN1DecodeErr {
    EmptyBuffer,
    BadBooleanLength(usize),
    LengthTooLarge(usize),
    UTF8DecodeFailure,
    PrintableStringDecodeFailure,
    InvalidDateValue(String),
    InvalidBitStringLength(isize),
    InvalidClass(u8),
    Incomplete,
    Overflow,
}

/// The mathematical model of an `ASN1Block`: offsets, tags and arcs as numbers,
/// byte strings and character strings as sequences.
pub enum ASN1BlockModel {
    Boolean(nat, bool),
    Integer(nat, Seq<u8>, bool),
    BitString(nat, nat, Seq<u8>),
    OctetString(nat, Seq<u8>),
    Null(nat),
    ObjectIdentifier(nat, Seq<nat>),
    UTF8String(nat, Seq<char>),
    PrintableString(nat, Seq<char>),
    TeletexString(nat, Seq<char>),
    IA5String(nat, Seq<char>),
    UTCTime(nat, Seq<u8>),
    GeneralizedTime(nat, Seq<u8>),
    UniversalString(nat, Seq<char>),
    BMPString(nat, Seq<char>),
    Sequence(nat, Seq<ASN1BlockModel>),
    SetOf(nat, Seq<ASN1BlockModel>),
    Explicit(ASN1Class, nat, nat, Box<ASN1BlockModel>),
    Unknown(ASN1Class, bool, nat, nat, Seq<u8>),
}

impl ASN1Block {
    /// The model of this block.
    pub open spec fn view(&self) -> ASN1BlockModel
        decreases self,
    {
        match self {
            ASN1Block::Boolean(o, b) => ASN1BlockModel::Boolean(*o as nat, *b),
            ASN1Block::Integer(o, n) => ASN1BlockModel::Integer(*o as nat, n.bytes@, n.negative),
            ASN1Block::BitString(o, n, b) => ASN1BlockModel::BitString(*o as nat, *n as nat, b@),
            ASN1Block::OctetString(o, b) => ASN1BlockModel::OctetString(*o as nat, b@),
            ASN1Block::Null(o) => ASN1BlockModel::Null(*o as nat),
            ASN1Block::ObjectIdentifier(o, oid) => ASN1BlockModel::ObjectIdentifier(
                *o as nat,
                oid.values(),
            ),
            ASN1Block::UTF8String(o, s) => ASN1BlockModel::UTF8String(*o as nat, s@),
            ASN1Block::PrintableString(o, s) => ASN1BlockModel::PrintableString(*o as nat, s@),
            ASN1Block::TeletexString(o, s) => ASN1BlockModel::TeletexString(*o as nat, s@),
            ASN1Block::IA5String(o, s) => ASN1BlockModel::IA5String(*o as nat, s@),
            ASN1Block::UTCTime(o, b) => ASN1BlockModel::UTCTime(*o as nat, b@),
            ASN1Block::GeneralizedTime(o, b) => ASN1BlockModel::GeneralizedTime(*o as nat, b@),
            ASN1Block::UniversalString(o, s) => ASN1BlockModel::UniversalString(*o as nat, s@),
            ASN1Block::BMPString(o, s) => ASN1BlockModel::BMPString(*o as nat, s@),
            ASN1Block::Sequence(o, items) => ASN1BlockModel::Sequence(
                *o as nat,
                blocks_view(items@),
            ),
            ASN1Block::SetOf(o, items) => ASN1BlockModel::SetOf(*o as nat, blocks_view(items@)),
            ASN1Block::Explicit(c, o, t, b) => ASN1BlockModel::Explicit(
                *c,
                *o as nat,
                t.value(),
                Box::new(b.view()),
            ),
            ASN1Block::Unknown(c, k, o, t, b) => ASN1BlockModel::Unknown(
                *c,
                *k,
                *o as nat,
                t.value(),
                b@,
            ),
        }
    }
}

/// The class of a block's model: that of an explicitly tagged or unknown block,
/// universal for the others.
pub open spec fn model_class(m: ASN1BlockModel) -> ASN1Class {
    match m {
        ASN1BlockModel::Explicit(c, _, _, _) => c,
        ASN1BlockModel::Unknown(c, _, _, _, _) => c,
        _ => ASN1Class::Universal,
    }
}

/// The starting offset of a block's model.
pub open spec fn model_offset(m: ASN1BlockModel) -> nat {
    match m {
        ASN1BlockModel::Boolean(o, _) => o,
        ASN1BlockModel::Integer(o, _, _) => o,
        ASN1BlockModel::BitString(o, _, _) => o,
        ASN1BlockModel::OctetString(o, _) => o,
        ASN1BlockModel::Null(o) => o,
        ASN1BlockModel::ObjectIdentifier(o, _) => o,
        ASN1BlockModel::UTF8String(o, _) => o,
        ASN1BlockModel::PrintableString(o, _) => o,
        ASN1BlockModel::TeletexString(o, _) => o,
        ASN1BlockModel::IA5String(o, _) => o,
        ASN1BlockModel::UTCTime(o, _) => o,
        ASN1BlockModel::GeneralizedTime(o, _) => o,
        ASN1BlockModel::UniversalString(o, _) => o,
        ASN1BlockModel::BMPString(o, _) => o,
        ASN1BlockModel::Sequence(o, _) => o,
        ASN1BlockModel::SetOf(o, _) => o,
        ASN1BlockModel::Explicit(_, o, _, _) => o,
        ASN1BlockModel::Unknown(_, _, o, _, _) => o,
    }
}

impl ASN1Block {
    /// Get the class associated with the given ASN1Block
    pub fn class(&self) -> (res: ASN1Class)
        ensures
            res == model_class(self@),
    {
        match *self {
            ASN1Block::Explicit(c, _, _, _) => c,
            ASN1Block::Unknown(c, _, _, _, _) => c,
            _ => ASN1Class::Universal,
        }
    }

    /// Get the starting offset associated with the given ASN1Block
    pub fn offset(&self) -> (res: usize)
        ensures
            res as nat == model_offset(self@),
    {
        match *self {
            ASN1Block::Boolean(o, _) => o,
            ASN1Block::Integer(o, _) => o,
            ASN1Block::BitString(o, _, _) => o,
            ASN1Block::OctetString(o, _) => o,
            ASN1Block::Null(o) => o,
            ASN1Block::ObjectIdentifier(o, _) => o,
            ASN1Block::UTF8String(o, _) => o,
            ASN1Block::PrintableString(o, _) => o,
            ASN1Block::TeletexString(o, _) => o,
            ASN1Block::IA5String(o, _) => o,
            ASN1Block::UTCTime(o, _) => o,
            ASN1Block::GeneralizedTime(o, _) => o,
            ASN1Block::UniversalString(o, _) => o,
            ASN1Block::BMPString(o, _) => o,
            ASN1Block::Sequence(o, _) => o,
            ASN1Block::SetOf(o, _) => o,
            ASN1Block::Explicit(_, o, _, _) => o,
            ASN1Block::Unknown(_, _, o, _, _) => o,
        }
    }
}

/// The models of a sequence of blocks.
pub open spec fn blocks_view(s: Seq<ASN1Block>) -> Seq<ASN1BlockModel>
    decreases s,
{
    if s.len() == 0 {
        seq![]
    } else {
        blocks_view(s.subrange(0, s.len() - 1)).push(s[s.len() - 1].view())
    }
}

/// The model of a decoding result.
pub open spec fn result_view(r: Result<Vec<ASN1Block>, ASN1DecodeErr>) -> Result<
    Seq<ASN1BlockModel>,
    ASN1DecodeErr,
> {
    match r {
        Ok(v) => Ok(blocks_view(v@)),
        Err(e) => Err(e),
    }
}

/// The models of a sequence of blocks have the same length and the models of its elements.
pub proof fn lemma_blocks_view(s: Seq<ASN1Block>)
    ensures
        blocks_view(s).len() == s.len(),
        forall|j: int| 0 <= j < s.len() ==> #[trigger] blocks_view(s)[j] == s[j].view(),
    decreases s.len(),
{
    if s.len() > 0 {
        lemma_blocks_view(s.subrange(0, s.len() - 1));
    }
}

/// Pushing a block pushes its model.
pub proof fn lemma_blocks_view_push(s: Seq<ASN1Block>, b: ASN1Block)
    ensures
        blocks_view(s.push(b)) == blocks_view(s).push(b.view()),
{
    assert(s.push(b).subrange(0, s.len() as int) =~= s);
}

/// A copy of a byte vector.
fn copy_bytes(v: &Vec<u8>) -> (res: Vec<u8>)
    ensures
        res@ == v@,
{
    vstd::slice::slice_to_vec(v.as_slice())
}

impl Clone for OID {
    fn clone(&self) -> (res: Self)
        ensures
            res.0@ == self.0@,
    {
        let mut out: Vec<U256> = Vec::new();
        let n = self.0.len();
        for j in 0..n
            invariant
                n == self.0@.len(),
                out@ == self.0@.subrange(0, j as int),
        {
            out.push(self.0[j]);
            assert(out@ =~= self.0@.subrange(0, j + 1));
        }
        assert(out@ =~= self.0@);
        OID(out)
    }
}

impl Clone for SignedBigInt {
    fn clone(&self) -> (res: Self)
        ensures
            res.bytes@ == self.bytes@,
            res.negative == self.negative,
    {
        SignedBigInt { bytes: copy_bytes(&self.bytes), negative: self.negative }
    }
}

/// A copy of a vector of blocks, block by block.
fn clone_blocks(items: &Vec<ASN1Block>) -> (res: Vec<ASN1Block>)
    ensures
        blocks_view(res@) == blocks_view(items@),
    decreases items, 0nat,
{
    let mut out: Vec<ASN1Block> = Vec::new();
    let n = items.len();
    for j in 0..n
        invariant
            n == items@.len(),
            blocks_view(out@) == blocks_view(items@.subrange(0, j as int)),
    {
        proof {
            assert(decreases_to!(items => items[j as int]));
        }
        let b = items[j].clone();
        proof {
            lemma_blocks_view_push(out@, b);
            assert(items@.subrange(0, j + 1).subrange(0, j as int) =~= items@.subrange(0, j as int));
        }
        out.push(b);
    }
    assert(items@.subrange(0, n as int) =~= items@);
    out
}

impl Clone for ASN1Block {
    fn clone(&self) -> (res: Self)
        ensures
            res@ == self@,
        decreases self, 1nat,
    {
        match self {
            ASN1Block::Boolean(o, b) => ASN1Block::Boolean(*o, *b),
            ASN1Block::Integer(o, n) => ASN1Block::Integer(*o, n.clone()),
            ASN1Block::BitString(o, n, b) => ASN1Block::BitString(*o, *n, copy_bytes(b)),
            ASN1Block::OctetString(o, b) => ASN1Block::OctetString(*o, copy_bytes(b)),
            ASN1Block::Null(o) => ASN1Block::Null(*o),
            ASN1Block::ObjectIdentifier(o, oid) => ASN1Block::ObjectIdentifier(*o, oid.clone()),
            ASN1Block::UTF8String(o, s) => ASN1Block::UTF8String(*o, s.clone()),
            ASN1Block::PrintableString(o, s) => ASN1Block::PrintableString(*o, s.clone()),
            ASN1Block::TeletexString(o, s) => ASN1Block::TeletexString(*o, s.clone()),
            ASN1Block::IA5String(o, s) => ASN1Block::IA5String(*o, s.clone()),
            ASN1Block::UTCTime(o, b) => ASN1Block::UTCTime(*o, copy_bytes(b)),
            ASN1Block::GeneralizedTime(o, b) => ASN1Block::GeneralizedTime(*o, copy_bytes(b)),
            ASN1Block::UniversalString(o, s) => ASN1Block::UniversalString(*o, s.clone()),
            ASN1Block::BMPString(o, s) => ASN1Block::BMPString(*o, s.clone()),
            ASN1Block::Sequence(o, items) => ASN1Block::Sequence(*o, clone_blocks(items)),
            ASN1Block::SetOf(o, items) => ASN1Block::SetOf(*o, clone_blocks(items)),
            ASN1Block::Explicit(c, o, t, b) => {
                let inner: &ASN1Block = b;
                ASN1Block::Explicit(*c, *o, *t, Box::new(inner.clone()))
            },
            ASN1Block::Unknown(c, k, o, t, b) => ASN1Block::Unknown(*c, *k, *o, *t, copy_bytes(b)),
        }
    }
}

} // verus!
