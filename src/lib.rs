//! Verification of DNSSEC proofs.
//!
//! - `bigint`, `field`: fixed-width integers and arithmetic modulo a prime.
//! - `ec`: Jacobian points on `a = -3` curves (P-256, P-384) and ECDSA.
//! - `rsa`: RSA/SHA-256 PKCS #1 v1.5 signatures.
//! - `wire`: names, records and the RFC 9102 stream of records.
//! - `validity`: signature validity windows in serial-number arithmetic.
//! - `validation`: key tags, RRSIG fields, DS digests and RRSIG checks.
//! - `chain`: the walk from the root trust anchors down to the proven records.
//! - `query`: the pure steps of building a proof from a recursive resolver.
pub mod bigint;
pub mod field;
pub mod ec;
pub mod rsa;
pub mod wire;
pub mod validity;
pub mod validation;
pub mod chain;
pub mod query;
