# simple_asn1

A decoder for ASN.1 DER, verified with Verus.

- `src/bigint.rs`: 256-bit unsigned integers (tags and object identifier arcs), held as
  little-endian bytes; their arithmetic is done by `crypto_bigint`.
- `src/types.rs`: the decoded values (`ASN1Block`, `OID`, `SignedBigInt`, ...) and their
  mathematical models.
- `src/header.rs`: identifier and length octets.
- `src/integer.rs`: two's-complement integers as sign and magnitude.
- `src/der.rs`: what a byte string decodes to (`der_list`), and the decoder `from_der`.
- `src/eq.rs`: equality of blocks.
- `src/laws.rs`: properties across functions.
- `app/lib.rs`: the `oid!` macro and conversions to and from `crypto_bigint::U256`.
