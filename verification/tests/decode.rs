use simple_asn1::U256;
use simple_asn1::{
    decode_base127, decode_class, decode_length, decode_tag, from_der, ASN1Block, ASN1Class,
    ASN1DecodeErr, SignedBigInt, OID,
};

fn small(v: u64) -> U256 {
    let mut bytes = [0u8; 32];
    bytes[..8].copy_from_slice(&v.to_le_bytes());
    U256 { bytes }
}

#[test]
fn class_from_high_bits() {
    assert_eq!(decode_class(0x02), Ok(ASN1Class::Universal));
    assert_eq!(decode_class(0x41), Ok(ASN1Class::Application));
    assert_eq!(decode_class(0xa0), Ok(ASN1Class::ContextSpecific));
    assert_eq!(decode_class(0xff), Ok(ASN1Class::Private));
}

#[test]
fn length_short_form() {
    let mut idx = 0;
    assert_eq!(decode_length(&[0x05, 0xaa], &mut idx), Ok(5));
    assert_eq!(idx, 1);
}

#[test]
fn length_long_form() {
    let mut idx = 0;
    assert_eq!(decode_length(&[0x82, 0x01, 0x00], &mut idx), Ok(256));
    assert_eq!(idx, 3);
    let mut idx = 1;
    assert_eq!(decode_length(&[0x00, 0x81, 0xc8], &mut idx), Ok(200));
    assert_eq!(idx, 3);
}

#[test]
fn length_too_many_bytes() {
    let mut idx = 0;
    let input = [0x89u8, 1, 2, 3, 4, 5, 6, 7, 8, 9];
    assert_eq!(decode_length(&input, &mut idx), Err(ASN1DecodeErr::LengthTooLarge(9)));
    assert_eq!(idx, 1);
}

#[test]
fn length_incomplete() {
    let mut idx = 0;
    assert_eq!(decode_length(&[0x82, 0x01], &mut idx), Err(ASN1DecodeErr::Incomplete));
    assert_eq!(idx, 2);
    let mut idx = 4;
    assert_eq!(decode_length(&[0x02], &mut idx), Err(ASN1DecodeErr::Incomplete));
    assert_eq!(idx, 4);
}

#[test]
fn base127_single_and_multi_byte() {
    let mut idx = 0;
    assert_eq!(decode_base127(&[0x05], &mut idx), Ok(small(5)));
    assert_eq!(idx, 1);
    // 840 = 6 * 128 + 72
    let mut idx = 0;
    assert_eq!(decode_base127(&[0x86, 0x48, 0x00], &mut idx), Ok(small(840)));
    assert_eq!(idx, 2);
    // 113549 = 6 * 128^2 + 119 * 128 + 13
    let mut idx = 0;
    assert_eq!(decode_base127(&[0x86, 0xf7, 0x0d], &mut idx), Ok(small(113549)));
    assert_eq!(idx, 3);
}

#[test]
fn base127_incomplete() {
    let mut idx = 0;
    assert_eq!(decode_base127(&[0x86, 0xf7], &mut idx), Err(ASN1DecodeErr::Incomplete));
    assert_eq!(idx, 2);
}

#[test]
fn base127_wraps_at_256_bits() {
    // 38 bytes of 0x7f continuation then 0x7f: 7 * 38 + 7 = 273 one-bits, of which 256 remain.
    let mut input = vec![0xffu8; 38];
    input.push(0x7f);
    let mut idx = 0;
    let v = decode_base127(&input, &mut idx).unwrap();
    assert_eq!(v.bytes, [0xffu8; 32]);
    assert_eq!(idx, 39);
}

#[test]
fn tag_low_and_high_form() {
    let mut idx = 0;
    let (tag, constructed, class) = decode_tag(&[0x30], &mut idx).unwrap();
    assert_eq!(tag, small(0x10));
    assert!(constructed);
    assert_eq!(class, ASN1Class::Universal);
    assert_eq!(idx, 1);

    let mut idx = 0;
    let (tag, constructed, class) = decode_tag(&[0x9f, 0x81, 0x00], &mut idx).unwrap();
    assert_eq!(tag, small(128));
    assert!(!constructed);
    assert_eq!(class, ASN1Class::ContextSpecific);
    assert_eq!(idx, 3);
}

#[test]
fn tag_incomplete() {
    let mut idx = 0;
    assert_eq!(decode_tag(&[], &mut idx), Err(ASN1DecodeErr::Incomplete));
    let mut idx = 0;
    assert_eq!(decode_tag(&[0x1f, 0x81], &mut idx), Err(ASN1DecodeErr::Incomplete));
    assert_eq!(idx, 2);
}

#[test]
fn signed_empty_is_zero() {
    let v = SignedBigInt::from_signed_bytes_be(&[]);
    assert_eq!(v.bytes, vec![0]);
    assert!(!v.negative);
}

#[test]
fn signed_positive_kept() {
    let v = SignedBigInt::from_signed_bytes_be(&[0x00, 0x80]);
    assert_eq!(v.bytes, vec![0x00, 0x80]);
    assert!(!v.negative);
}

#[test]
fn signed_negative_magnitude() {
    let v = SignedBigInt::from_signed_bytes_be(&[0xff]);
    assert_eq!(v.bytes, vec![0x01]);
    assert!(v.negative);
    let v = SignedBigInt::from_signed_bytes_be(&[0x80]);
    assert_eq!(v.bytes, vec![0x80]);
    assert!(v.negative);
    // -256
    let v = SignedBigInt::from_signed_bytes_be(&[0xff, 0x00]);
    assert_eq!(v.bytes, vec![0x01, 0x00]);
    assert!(v.negative);
    // -129
    let v = SignedBigInt::from_signed_bytes_be(&[0xff, 0x7f]);
    assert_eq!(v.bytes, vec![0x00, 0x81]);
    assert!(v.negative);
}

#[test]
fn der_boolean() {
    let r = from_der(&[0x01, 0x01, 0xff]).unwrap();
    assert_eq!(r.len(), 1);
    assert!(matches!(r[0], ASN1Block::Boolean(0, true)));
    let r = from_der(&[0x01, 0x01, 0x00]).unwrap();
    assert!(matches!(r[0], ASN1Block::Boolean(0, false)));
}

#[test]
fn der_bad_boolean_length() {
    assert_eq!(
        from_der(&[0x01, 0x02, 0xff, 0x00]).unwrap_err(),
        ASN1DecodeErr::BadBooleanLength(2)
    );
}

#[test]
fn der_integer() {
    let r = from_der(&[0x02, 0x02, 0xff, 0x7f]).unwrap();
    match &r[0] {
        ASN1Block::Integer(0, n) => {
            assert_eq!(n.bytes, vec![0x00, 0x81]);
            assert!(n.negative);
        }
        _ => panic!("expected an integer"),
    }
}

#[test]
fn der_bit_string() {
    let r = from_der(&[0x03, 0x03, 0x04, 0xab, 0xc0]).unwrap();
    match &r[0] {
        ASN1Block::BitString(0, n, bits) => {
            assert_eq!(*n, 12);
            assert_eq!(bits, &vec![0xab, 0xc0]);
        }
        _ => panic!("expected a bit string"),
    }
    let r = from_der(&[0x03, 0x00]).unwrap();
    assert!(matches!(&r[0], ASN1Block::BitString(0, 0, b) if b.is_empty()));
}

#[test]
fn der_invalid_bit_string_length() {
    assert_eq!(
        from_der(&[0x03, 0x02, 0x09, 0x00]).unwrap_err(),
        ASN1DecodeErr::InvalidBitStringLength(-1)
    );
    assert_eq!(
        from_der(&[0x03, 0x01, 0x05]).unwrap_err(),
        ASN1DecodeErr::InvalidBitStringLength(-5)
    );
}

#[test]
fn der_octet_string_and_null() {
    let r = from_der(&[0x04, 0x02, 0x12, 0x34, 0x05, 0x00]).unwrap();
    assert_eq!(r.len(), 2);
    assert!(matches!(&r[0], ASN1Block::OctetString(0, v) if *v == vec![0x12, 0x34]));
    assert!(matches!(r[1], ASN1Block::Null(4)));
}

#[test]
fn der_object_identifier() {
    // 1.2.840.113549
    let r = from_der(&[0x06, 0x06, 0x2a, 0x86, 0x48, 0x86, 0xf7, 0x0d]).unwrap();
    match &r[0] {
        ASN1Block::ObjectIdentifier(0, oid) => {
            assert_eq!(oid.as_vec(), vec![1, 2, 840, 113549]);
        }
        _ => panic!("expected an OID"),
    }
    // 2.999 = first byte 0x88 0x37 would be multi-byte; here 2.5 (first byte 85)
    let r = from_der(&[0x06, 0x02, 0x55, 0x04]).unwrap();
    match &r[0] {
        ASN1Block::ObjectIdentifier(0, oid) => assert_eq!(oid.as_vec(), vec![2, 5, 4]),
        _ => panic!("expected an OID"),
    }
    let r = from_der(&[0x06, 0x01, 0x27]).unwrap();
    match &r[0] {
        ASN1Block::ObjectIdentifier(0, oid) => assert_eq!(oid.as_vec(), vec![0, 39]),
        _ => panic!("expected an OID"),
    }
}

#[test]
fn der_object_identifier_errors() {
    assert_eq!(from_der(&[0x06, 0x00]).unwrap_err(), ASN1DecodeErr::Incomplete);
    assert_eq!(from_der(&[0x06, 0x02, 0x2a, 0x86]).unwrap_err(), ASN1DecodeErr::Incomplete);
}

#[test]
fn der_strings() {
    let r = from_der(&[0x0c, 0x03, 0x61, 0xc3, 0xa9]).unwrap();
    assert!(matches!(&r[0], ASN1Block::UTF8String(0, s) if s == "a\u{e9}"));
    let r = from_der(&[0x13, 0x03, b'A', b' ', b'?']).unwrap();
    assert!(matches!(&r[0], ASN1Block::PrintableString(0, s) if s == "A ?"));
    let r = from_der(&[0x16, 0x02, b'x', 0xe9]).unwrap();
    assert!(matches!(&r[0], ASN1Block::IA5String(0, s) if s == "x\u{e9}"));
    let r = from_der(&[0x14, 0x01, b't']).unwrap();
    assert!(matches!(&r[0], ASN1Block::TeletexString(0, s) if s == "t"));
    let r = from_der(&[0x1c, 0x01, b'u']).unwrap();
    assert!(matches!(&r[0], ASN1Block::UniversalString(0, s) if s == "u"));
    let r = from_der(&[0x1e, 0x01, b'b']).unwrap();
    assert!(matches!(&r[0], ASN1Block::BMPString(0, s) if s == "b"));
}

#[test]
fn der_string_errors() {
    assert_eq!(from_der(&[0x0c, 0x01, 0xff]).unwrap_err(), ASN1DecodeErr::UTF8DecodeFailure);
    assert_eq!(
        from_der(&[0x13, 0x02, b'a', b'*']).unwrap_err(),
        ASN1DecodeErr::PrintableStringDecodeFailure
    );
    assert_eq!(from_der(&[0x1e, 0x01, 0x80]).unwrap_err(), ASN1DecodeErr::UTF8DecodeFailure);
}

#[test]
fn der_times() {
    let r = from_der(&[0x17, 0x02, b'9', b'9', 0x18, 0x01, b'2']).unwrap();
    assert!(matches!(&r[0], ASN1Block::UTCTime(0, v) if *v == b"99".to_vec()));
    assert!(matches!(&r[1], ASN1Block::GeneralizedTime(4, v) if *v == b"2".to_vec()));
}

#[test]
fn der_sequence_and_set() {
    let input = [0x30, 0x06, 0x02, 0x01, 0x05, 0x01, 0x01, 0x00, 0x31, 0x02, 0x05, 0x00];
    let r = from_der(&input).unwrap();
    assert_eq!(r.len(), 2);
    match &r[0] {
        ASN1Block::Sequence(0, items) => {
            assert_eq!(items.len(), 2);
            assert!(matches!(&items[0], ASN1Block::Integer(2, n) if n.bytes == vec![5]));
            assert!(matches!(items[1], ASN1Block::Boolean(5, false)));
        }
        _ => panic!("expected a sequence"),
    }
    match &r[1] {
        ASN1Block::SetOf(8, items) => {
            assert_eq!(items.len(), 1);
            assert!(matches!(items[0], ASN1Block::Null(10)));
        }
        _ => panic!("expected a set"),
    }
}

#[test]
fn der_empty_sequence_is_an_error() {
    assert_eq!(from_der(&[0x30, 0x00]).unwrap_err(), ASN1DecodeErr::EmptyBuffer);
}

#[test]
fn der_empty_input() {
    assert_eq!(from_der(&[]).unwrap_err(), ASN1DecodeErr::EmptyBuffer);
}

#[test]
fn der_incomplete() {
    assert_eq!(from_der(&[0x04, 0x05, 0x00]).unwrap_err(), ASN1DecodeErr::Incomplete);
    assert_eq!(from_der(&[0x04]).unwrap_err(), ASN1DecodeErr::Incomplete);
}

#[test]
fn der_length_too_large() {
    // Eight length bytes of 0xff: the end overflows a usize.
    let mut input = vec![0x04u8, 0x88];
    input.extend_from_slice(&[0xff; 8]);
    let r = from_der(&input).unwrap_err();
    if usize::BITS == 64 {
        assert_eq!(r, ASN1DecodeErr::LengthTooLarge(usize::MAX));
    } else {
        assert_eq!(r, ASN1DecodeErr::LengthTooLarge(8));
    }
}

#[test]
fn der_explicit_tag() {
    let r = from_der(&[0xa0, 0x03, 0x02, 0x01, 0x07]).unwrap();
    match &r[0] {
        ASN1Block::Explicit(ASN1Class::ContextSpecific, 0, tag, inner) => {
            assert_eq!(*tag, small(0));
            assert!(matches!(&**inner, ASN1Block::Integer(2, n) if n.bytes == vec![7]));
        }
        _ => panic!("expected an explicit block"),
    }
    assert_eq!(r[0].class(), ASN1Class::ContextSpecific);
}

#[test]
fn der_unknown_blocks() {
    // Primitive context-specific: unknown.
    let r = from_der(&[0x81, 0x01, 0x09]).unwrap();
    match &r[0] {
        ASN1Block::Unknown(ASN1Class::ContextSpecific, false, 0, tag, body) => {
            assert_eq!(*tag, small(1));
            assert_eq!(body, &vec![9]);
        }
        _ => panic!("expected an unknown block"),
    }
    // Constructed, but two blocks inside: unknown.
    let r = from_der(&[0xa1, 0x04, 0x05, 0x00, 0x05, 0x00]).unwrap();
    assert!(matches!(&r[0], ASN1Block::Unknown(ASN1Class::ContextSpecific, true, 0, _, b) if b.len() == 4));
    // Constructed, but the contents do not decode: unknown.
    let r = from_der(&[0x61, 0x01, 0x30]).unwrap();
    assert!(matches!(&r[0], ASN1Block::Unknown(ASN1Class::Application, true, 0, _, _)));
    // Universal tag 0 and an unsupported universal tag.
    let r = from_der(&[0x00, 0x00, 0x09, 0x01, 0x00]).unwrap();
    assert!(matches!(&r[0], ASN1Block::Unknown(ASN1Class::Universal, false, 0, t, b) if *t == small(0) && b.is_empty()));
    assert!(matches!(&r[1], ASN1Block::Unknown(ASN1Class::Universal, false, 2, t, _) if *t == small(9)));
    // A universal tag above 255.
    let r = from_der(&[0x1f, 0x82, 0x00, 0x00]).unwrap();
    assert!(matches!(&r[0], ASN1Block::Unknown(ASN1Class::Universal, false, 0, t, _) if *t == small(256)));
}

#[test]
fn offsets_and_classes() {
    let r = from_der(&[0x05, 0x00, 0x04, 0x01, 0x00, 0x05, 0x00]).unwrap();
    let offs: Vec<usize> = r.iter().map(|b| b.offset()).collect();
    assert_eq!(offs, vec![0, 2, 5]);
    assert!(r.iter().all(|b| b.class() == ASN1Class::Universal));
}

#[test]
fn equality_ignores_offsets() {
    let a = from_der(&[0x02, 0x01, 0x05]).unwrap();
    let b = from_der(&[0x05, 0x00, 0x02, 0x01, 0x05]).unwrap();
    assert!(a[0] == b[1]);
    assert!(b[1] == a[0]);
    assert!(a[0] != b[0]);
}

#[test]
fn equality_of_strings_is_never_true() {
    let a = from_der(&[0x0c, 0x01, b'a']).unwrap();
    assert!(a[0] != a[0].clone());
}

#[test]
fn equality_of_sequences() {
    let a = from_der(&[0x30, 0x03, 0x02, 0x01, 0x01]).unwrap();
    let b = from_der(&[0x05, 0x00, 0x30, 0x03, 0x02, 0x01, 0x01]).unwrap();
    let c = from_der(&[0x30, 0x03, 0x02, 0x01, 0x02]).unwrap();
    assert!(a[0] == b[1]);
    assert!(a[0] != c[0]);
    let oa = from_der(&[0x06, 0x01, 0x2a]).unwrap();
    let ob = from_der(&[0x06, 0x01, 0x2b]).unwrap();
    assert!(oa[0] == oa[0].clone());
    assert!(oa[0] != ob[0]);
}

#[test]
fn clone_keeps_everything() {
    let a = from_der(&[0xa0, 0x05, 0x30, 0x03, 0x0c, 0x01, b'z']).unwrap();
    let b = a[0].clone();
    assert_eq!(format!("{:?}", a[0]), format!("{:?}", b));
}

#[test]
fn oid_from_slice_as_vec() {
    let oid = OID::from_slice(&[1, 2, 840, 113549, u64::MAX]);
    assert_eq!(oid.as_vec(), vec![1, 2, 840, 113549, u64::MAX]);
    let n = OID::new(vec![small(7)]);
    assert_eq!(n.0, vec![small(7)]);
    assert_eq!(n.clone(), n);
}

#[test]
fn oid_as_vec_truncates() {
    let mut big = [0u8; 32];
    big[0] = 3;
    big[8] = 1;
    let oid = OID::new(vec![U256 { bytes: big }]);
    assert_eq!(oid.as_vec(), vec![3]);
}

#[test]
fn concatenation_of_encodings() {
    let a = [0x30u8, 0x03, 0x02, 0x01, 0x01];
    let b = [0x04u8, 0x01, 0xaa, 0x05, 0x00];
    let mut ab = a.to_vec();
    ab.extend_from_slice(&b);
    let ra = from_der(&a).unwrap();
    let rab = from_der(&ab).unwrap();
    assert_eq!(rab.len(), 3);
    assert_eq!(format!("{:?}", rab[0]), format!("{:?}", ra[0]));
    assert!(matches!(&rab[1], ASN1Block::OctetString(5, v) if *v == vec![0xaa]));
    assert!(matches!(rab[2], ASN1Block::Null(8)));
}

#[test]
fn equality_is_symmetric_on_examples() {
    let r = from_der(&[0x02, 0x01, 0x05, 0x05, 0x00, 0x02, 0x01, 0x05, 0x30, 0x02, 0x05, 0x00]).unwrap();
    for x in &r {
        for y in &r {
            assert_eq!(x == y, y == x);
        }
    }
    assert!(r[0] == r[2]);
    assert!(r[1] != r[3]);
}

#[test]
fn concatenation_fails_when_second_fails() {
    let mut ab = vec![0x05u8, 0x00];
    ab.extend_from_slice(&[0x04, 0x05, 0x01]);
    assert!(from_der(&[0x05, 0x00]).is_ok());
    assert!(from_der(&[0x04, 0x05, 0x01]).is_err());
    assert_eq!(from_der(&ab).unwrap_err(), ASN1DecodeErr::Incomplete);
}

#[test]
fn offsets_move_with_the_start() {
    let inner = [0x30u8, 0x03, 0xa0, 0x01, 0x05];
    let r0 = from_der(&inner).unwrap();
    let mut shifted = vec![0x05u8, 0x00, 0x05, 0x00];
    shifted.extend_from_slice(&inner);
    let r4 = from_der(&shifted).unwrap();
    assert_eq!(r0[0].offset() + 4, r4[2].offset());
    match (&r0[0], &r4[2]) {
        (ASN1Block::Sequence(_, a), ASN1Block::Sequence(_, b)) => {
            assert_eq!(a[0].offset() + 4, b[0].offset());
        }
        _ => panic!("expected sequences"),
    }
}
