//! Equality of blocks: blocks compare by kind and contents, never by offset.
use vstd::prelude::*;
use vstd::std_specs::cmp::PartialEqSpecImpl;
use crate::bigint::u256_eq;
use crate::types::{blocks_view, lemma_blocks_view, ASN1Block, ASN1BlockModel, OID};

verus! {

/// Whether two block models are equal: two booleans, integers, bit strings, octet strings,
/// nulls or object identifiers with the same contents, or two sequences or two sets whose
/// elements are pairwise equal. Offsets are ignored, and blocks of any other kind are never equal.
pub open spec fn model_eq(a: ASN1BlockModel, b: ASN1BlockModel) -> bool
    decreases a,
{
    match a {
        ASN1BlockModel::Boolean(_, x) => match b {
            ASN1BlockModel::Boolean(_, y) => x == y,
            _ => false,
        },
        ASN1BlockModel::Integer(_, m1, n1) => match b {
            ASN1BlockModel::Integer(_, m2, n2) => m1 == m2 && n1 == n2,
            _ => false,
        },
        ASN1BlockModel::BitString(_, n1, b1) => match b {
            ASN1BlockModel::BitString(_, n2, b2) => n1 == n2 && b1 == b2,
            _ => false,
        },
        ASN1BlockModel::OctetString(_, b1) => match b {
            ASN1BlockModel::OctetString(_, b2) => b1 == b2,
            _ => false,
        },
        ASN1BlockModel::Null(_) => match b {
            ASN1BlockModel::Null(_) => true,
            _ => false,
        },
        ASN1BlockModel::ObjectIdentifier(_, v1) => match b {
            ASN1BlockModel::ObjectIdentifier(_, v2) => v1 == v2,
            _ => false,
        },
        ASN1BlockModel::Sequence(_, s1) => match b {
            ASN1BlockModel::Sequence(_, s2) => models_eq(s1, s2),
            _ => false,
        },
        ASN1BlockModel::SetOf(_, s1) => match b {
            ASN1BlockModel::SetOf(_, s2) => models_eq(s1, s2),
            _ => false,
        },
        _ => false,
    }
}

/// Whether two sequences of block models have the same length and pairwise equal elements.
pub open spec fn models_eq(s1: Seq<ASN1BlockModel>, s2: Seq<ASN1BlockModel>) -> bool
    decreases s1,
{
    if s1.len() != s2.len() {
        false
    } else if s1.len() == 0 {
        true
    } else {
        model_eq(s1[0], s2[0]) && models_eq(
            s1.subrange(1, s1.len() as int),
            s2.subrange(1, s2.len() as int),
        )
    }
}

/// `models_eq` compares element by element.
pub proof fn lemma_models_eq(s1: Seq<ASN1BlockModel>, s2: Seq<ASN1BlockModel>)
    ensures
        models_eq(s1, s2) <==> (s1.len() == s2.len() && forall|k: int|
            0 <= k < s1.len() ==> #[trigger] model_eq(s1[k], s2[k])),
    decreases s1.len(),
{
    if s1.len() == s2.len() && s1.len() > 0 {
        let t1 = s1.subrange(1, s1.len() as int);
        let t2 = s2.subrange(1, s2.len() as int);
        lemma_models_eq(t1, t2);
        if forall|k: int| 0 <= k < s1.len() ==> #[trigger] model_eq(s1[k], s2[k]) {
            assert(model_eq(s1[0], s2[0]));
            assert forall|k: int| 0 <= k < t1.len() implies #[trigger] model_eq(t1[k], t2[k]) by {
                assert(t1[k] == s1[k + 1] && t2[k] == s2[k + 1]);
                assert(model_eq(s1[k + 1], s2[k + 1]));
            }
        }
        if models_eq(s1, s2) {
            assert forall|k: int| 0 <= k < s1.len() implies #[trigger] model_eq(s1[k], s2[k]) by {
                if k > 0 {
                    assert(t1[k - 1] == s1[k] && t2[k - 1] == s2[k]);
                    assert(model_eq(t1[k - 1], t2[k - 1]));
                }
            }
        }
    }
}

/// Whether two byte vectors hold the same bytes.
fn bytes_equal(a: &Vec<u8>, b: &Vec<u8>) -> (res: bool)
    ensures
        res == (a@ == b@),
{
    if a.len() != b.len() {
        return false;
    }
    let n = a.len();
    for j in 0..n
        invariant
            n == a@.len(),
            n == b@.len(),
            forall|k: int| 0 <= k < j ==> a@[k] == b@[k],
    {
        if a[j] != b[j] {
            return false;
        }
    }
    assert(a@ =~= b@);
    true
}

/// Whether two object identifiers have the same arcs.
fn oid_equal(a: &OID, b: &OID) -> (res: bool)
    ensures
        res == (a.values() == b.values()),
{
    if a.0.len() != b.0.len() {
        assert(a.values().len() != b.values().len());
        return false;
    }
    let n = a.0.len();
    for j in 0..n
        invariant
            n == a.0@.len(),
            n == b.0@.len(),
            forall|k: int| 0 <= k < j ==> a.0@[k].value() == b.0@[k].value(),
    {
        if !u256_eq(&a.0[j], &b.0[j]) {
            assert(a.values()[j as int] != b.values()[j as int]);
            return false;
        }
    }
    assert(a.values() =~= b.values());
    true
}

/// Whether two vectors of blocks are pairwise equal.
fn blocks_equal(a: &Vec<ASN1Block>, b: &Vec<ASN1Block>) -> (res: bool)
    ensures
        res == models_eq(blocks_view(a@), blocks_view(b@)),
    decreases a, 0nat,
{
    proof {
        lemma_blocks_view(a@);
        lemma_blocks_view(b@);
        lemma_models_eq(blocks_view(a@), blocks_view(b@));
    }
    if a.len() != b.len() {
        return false;
    }
    let n = a.len();
    for j in 0..n
        invariant
            n == a@.len(),
            n == b@.len(),
            blocks_view(a@).len() == n,
            blocks_view(b@).len() == n,
            forall|k: int| 0 <= k < n ==> #[trigger] blocks_view(a@)[k] == a@[k]@,
            forall|k: int| 0 <= k < n ==> #[trigger] blocks_view(b@)[k] == b@[k]@,
            forall|k: int| 0 <= k < j ==> #[trigger] model_eq(blocks_view(a@)[k], blocks_view(b@)[k]),
    {
        proof {
            assert(decreases_to!(a => a[j as int]));
        }
        let e = a[j].eq(&b[j]);
        if !e {
            proof {
                lemma_models_eq(blocks_view(a@), blocks_view(b@));
                assert(!model_eq(blocks_view(a@)[j as int], blocks_view(b@)[j as int]));
            }
            return false;
        }
    }
    proof {
        lemma_models_eq(blocks_view(a@), blocks_view(b@));
    }
    true
}

impl PartialEq for ASN1Block {
    fn eq(&self, other: &ASN1Block) -> (res: bool)
        decreases self, 1nat,
    {
        match (self, other) {
            (ASN1Block::Boolean(_, a1), ASN1Block::Boolean(_, a2)) => a1 == a2,
            (ASN1Block::Integer(_, a1), ASN1Block::Integer(_, a2)) => {
                bytes_equal(&a1.bytes, &a2.bytes) && a1.negative == a2.negative
            },
            (ASN1Block::BitString(_, a1, b1), ASN1Block::BitString(_, a2, b2)) => {
                (a1 == a2) && bytes_equal(b1, b2)
            },
            (ASN1Block::OctetString(_, a1), ASN1Block::OctetString(_, a2)) => bytes_equal(a1, a2),
            (ASN1Block::Null(_), ASN1Block::Null(_)) => true,
            (ASN1Block::ObjectIdentifier(_, a1), ASN1Block::ObjectIdentifier(_, a2)) => oid_equal(
                a1,
                a2,
            ),
            (ASN1Block::Sequence(_, a1), ASN1Block::Sequence(_, a2)) => blocks_equal(a1, a2),
            (ASN1Block::SetOf(_, a1), ASN1Block::SetOf(_, a2)) => blocks_equal(a1, a2),
            _ => false,
        }
    }
}

impl PartialEqSpecImpl for ASN1Block {
    open spec fn obeys_eq_spec() -> bool {
        true
    }

    open spec fn eq_spec(&self, other: &ASN1Block) -> bool {
        model_eq(self@, other@)
    }
}

} // verus!
