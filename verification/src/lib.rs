//! Decoding of ASN.1 DER encoded data into a tree of blocks.
pub mod bigint;
pub mod block_laws;
pub mod der;
pub mod eq;
pub mod header;
pub mod integer;
pub mod laws;
pub mod types;

pub use bigint::U256;
pub use der::from_der;
pub use header::{decode_base127, decode_class, decode_length, decode_tag};
pub use types::{
    ASN1Block, ASN1BlockModel, ASN1Class, ASN1DecodeErr, OidComponent, SignedBigInt, OID,
};
