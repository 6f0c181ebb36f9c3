//! Evaluation of RRSIGs and DS records: key tags, RRSIG fields, DS digests and
//! signature checks over signed data.
use vstd::prelude::*;
use sha2::Digest;
use crate::ec::{
    Curve, validate_ecdsa, ecdsa_accepts_with, p256_p, p256_n, p256_b, p256_gx, p256_gy, p384_p,
    p384_n, p384_b, p384_gx, p384_gy,
};
use crate::wire::{be16, be32, name_at, push_all, read_name, read_u16, read_u32, lower, lower_copy, Rr, RrView, views};
use crate::query::{rr_bytes, write_rr, bytes_eq, name_rdata, TYPE_DNSKEY, TYPE_DS, TYPE_NS, TYPE_CNAME, TYPE_DNAME};
use crate::validity::{valid_at, sig_valid_at};
use crate::rsa::{rsa_accepts, verify_rsa_sha256};

verus! {

/// What the SHA-256 digest of the bytes is.
pub uninterp spec fn sha256_of(d: Seq<u8>) -> Seq<u8>;

/// What the SHA-384 digest of the bytes is.
pub uninterp spec fn sha384_of(d: Seq<u8>) -> Seq<u8>;

/// Relies on sha2::Sha256::digest: the SHA-256 digest of the bytes, 32 bytes long.
#[verifier::external_body]
fn sha256(d: &[u8]) -> (r: Vec<u8>)
    ensures
        r@ == sha256_of(d@),
        r@.len() == 32,
{
    sha2::Sha256::digest(d).to_vec()
}

/// Relies on sha2::Sha384::digest: the SHA-384 digest of the bytes, 48 bytes long.
#[verifier::external_body]
fn sha384(d: &[u8]) -> (r: Vec<u8>)
    ensures
        r@ == sha384_of(d@),
        r@.len() == 48,
{
    sha2::Sha384::digest(d).to_vec()
}

/// Why a proof was refused.
#[derive(PartialEq, Eq, Structural, Debug, Clone, Copy)]
pub enum ValidationError {
    /// Malformed data, or a signature that does not verify.
    Invalid,
    /// The signature is valid, but not at the given time.
    ValidAtOtherTime,
    /// A key or signature uses an algorithm that is not implemented.
    UnsupportedAlgorithm,
    /// No path leads to the trust anchor.
    UntrustedChain,
}

pub const ALG_RSASHA256: u8 = 8;
pub const ALG_ECDSAP256SHA256: u8 = 13;
pub const ALG_ECDSAP384SHA384: u8 = 14;
pub const DIGEST_SHA256: u8 = 2;
pub const DIGEST_SHA384: u8 = 4;

/// The sum of RFC 4034 Appendix B: bytes at even offsets weigh 256, the others 1.
pub open spec fn tag_sum(s: Seq<u8>) -> nat
    decreases s.len(),
{
    if s.len() == 0 {
        0
    } else {
        tag_sum(s.drop_last()) + if (s.len() - 1) % 2 == 0 {
            s.last() as nat * 256
        } else {
            s.last() as nat
        }
    }
}

/// The key tag of DNSKEY record data. For algorithm 1 it is the legacy tag: the
/// two bytes before the last one.
pub open spec fn key_tag_spec(rdata: Seq<u8>) -> u16 {
    if rdata.len() >= 4 && rdata[3] == 1 {
        if rdata.len() >= 7 {
            be16(rdata, rdata.len() - 3)
        } else {
            0
        }
    } else {
        let ac = tag_sum(rdata);
        ((ac + (ac / 65536) % 65536) % 65536) as u16
    }
}

proof fn lemma_tag_sum_bound(s: Seq<u8>)
    ensures
        tag_sum(s) <= s.len() * 65280,
    decreases s.len(),
{
    if s.len() > 0 {
        lemma_tag_sum_bound(s.drop_last());
    }
}

/// The key tag of DNSKEY record data.
pub fn key_tag(rdata: &[u8]) -> (r: u16)
    requires
        rdata@.len() <= 0xffff,
    ensures
        r == key_tag_spec(rdata@),
{
    let n = rdata.len();
    if n >= 4 && rdata[3] == 1 {
        if n >= 7 {
            return (rdata[n - 3] as u16) * 256 + rdata[n - 2] as u16;
        }
        return 0;
    }
    let mut ac: u64 = 0;
    let mut i: usize = 0;
    while i < n
        invariant
            n == rdata@.len(),
            n <= 0xffff,
            i <= n,
            ac == tag_sum(rdata@.take(i as int)),
        decreases n - i,
    {
        proof {
            assert(rdata@.take(i + 1).drop_last() =~= rdata@.take(i as int));
            lemma_tag_sum_bound(rdata@.take(i as int));
        }
        if i % 2 == 0 {
            ac = ac + (rdata[i] as u64) * 256;
        } else {
            ac = ac + rdata[i] as u64;
        }
        i = i + 1;
    }
    proof {
        assert(rdata@.take(n as int) =~= rdata@);
        lemma_tag_sum_bound(rdata@);
    }
    ((ac + ((ac / 65536) % 65536)) % 65536) as u16
}

/// The fields of RRSIG record data.
pub struct Rrsig {
    pub type_covered: u16,
    pub alg: u8,
    pub labels: u8,
    pub orig_ttl: u32,
    pub expiration: u32,
    pub inception: u32,
    pub key_tag: u16,
    pub signer: Vec<u8>,
    /// Where the signature starts: the data before it is what is signed of the RRSIG.
    pub sig_start: usize,
}

/// Reads the fields of RRSIG record data; fails unless it holds the fixed fields
/// and a signer name.
pub fn parse_rrsig(rdata: &[u8]) -> (r: Result<Rrsig, ()>)
    ensures
        r is Ok <==> rdata@.len() >= 18 && name_at(rdata@, 18) is Some,
        r matches Ok(x) ==> {
            &&& x.type_covered == be16(rdata@, 0)
            &&& x.alg == rdata@[2]
            &&& x.labels == rdata@[3]
            &&& x.orig_ttl == be32(rdata@, 4)
            &&& x.expiration == be32(rdata@, 8)
            &&& x.inception == be32(rdata@, 12)
            &&& x.key_tag == be16(rdata@, 16)
            &&& name_at(rdata@, 18) == Some((x.signer@, x.sig_start as nat))
        },
{
    if rdata.len() < 18 {
        return Err(());
    }
    let type_covered = read_u16(rdata, 0)?;
    let orig_ttl = read_u32(rdata, 4)?;
    let expiration = read_u32(rdata, 8)?;
    let inception = read_u32(rdata, 12)?;
    let key_tag = read_u16(rdata, 16)?;
    let (signer, sig_start) = read_name(rdata, 18)?;
    Ok(Rrsig { type_covered, alg: rdata[2], labels: rdata[3], orig_ttl, expiration, inception, key_tag, signer, sig_start })
}

/// The DS record data names the key with this tag and algorithm and carries `digest`.
pub open spec fn ds_names(ds: Seq<u8>, tag: u16, alg: u8, digest: Seq<u8>) -> bool {
    &&& ds.len() >= 4
    &&& be16(ds, 0) == tag
    &&& ds[2] == alg
    &&& ds.subrange(4, ds.len() as int) == digest
}

/// Whether the DS record data names the key with this tag and algorithm and
/// carries `digest`.
pub fn ds_digest_matches(ds: &[u8], tag: u16, alg: u8, digest: &[u8]) -> (r: bool)
    ensures
        r == ds_names(ds@, tag, alg, digest@),
{
    if ds.len() < 4 || ds.len() - 4 != digest.len() {
        proof {
            if ds@.len() >= 4 {
                assert(ds@.subrange(4, ds@.len() as int).len() != digest@.len());
            }
        }
        return false;
    }
    if (ds[0] as u16) * 256 + ds[1] as u16 != tag || ds[2] != alg {
        return false;
    }
    let dl: usize = ds.len();
    let mut i: usize = 0;
    while i < digest.len()
        invariant
            dl == ds@.len(),
            ds@.len() == digest@.len() + 4,
            i <= digest@.len(),
            forall|k: int| 0 <= k < i ==> ds@[4 + k] == digest@[k],
        decreases digest@.len() - i,
    {
        if ds[4 + i] != digest[i] {
            proof {
                assert(ds@.subrange(4, ds@.len() as int)[i as int] != digest@[i as int]);
            }
            return false;
        }
        i = i + 1;
    }
    proof {
        assert(ds@.subrange(4, ds@.len() as int) =~= digest@);
    }
    true
}

/// Whether the DS record data endorses the DNSKEY record data `key` owned by
/// `owner`: the tag and algorithm match, and the digest of `owner` then `key`
/// under the DS's digest type is the DS digest.
pub open spec fn ds_endorses(ds: Seq<u8>, owner: Seq<u8>, key: Seq<u8>) -> bool {
    &&& key.len() >= 4
    &&& ds.len() >= 4
    &&& {
        ||| ds[3] == DIGEST_SHA256 && ds_names(ds, key_tag_spec(key), key[3], sha256_of(owner + key))
        ||| ds[3] == DIGEST_SHA384 && ds_names(ds, key_tag_spec(key), key[3], sha384_of(owner + key))
    }
}

/// Whether the DS record data endorses the DNSKEY record data `key` owned by `owner`.
pub fn ds_endorses_key(ds: &[u8], owner: &[u8], key: &[u8]) -> (r: bool)
    requires
        key@.len() <= 0xffff,
    ensures
        r == ds_endorses(ds@, owner@, key@),
{
    if key.len() < 4 || ds.len() < 4 {
        return false;
    }
    let mut data: Vec<u8> = Vec::new();
    push_all(&mut data, owner);
    push_all(&mut data, key);
    let tag = key_tag(key);
    if ds[3] == DIGEST_SHA256 {
        let digest = sha256(data.as_slice());
        ds_digest_matches(ds, tag, key[3], digest.as_slice())
    } else if ds[3] == DIGEST_SHA384 {
        let digest = sha384(data.as_slice());
        ds_digest_matches(ds, tag, key[3], digest.as_slice())
    } else {
        false
    }
}

/// ECDSA over P-256 accepts `sig` by `pk` for the digest `h`.
pub open spec fn p256_accepts(pk: Seq<u8>, sig: Seq<u8>, h: Seq<u8>) -> bool {
    ecdsa_accepts_with(4, p256_p(), p256_n(), (p256_p() - 3) as nat, p256_b(), (p256_gx(), p256_gy(), 1), pk, sig, h)
}

/// ECDSA over P-384 accepts `sig` by `pk` for the digest `h`.
pub open spec fn p384_accepts(pk: Seq<u8>, sig: Seq<u8>, h: Seq<u8>) -> bool {
    ecdsa_accepts_with(6, p384_p(), p384_n(), (p384_p() - 3) as nat, p384_b(), (p384_gx(), p384_gy(), 1), pk, sig, h)
}

/// The outcome of checking `sig` by the DNSKEY record data `key` under `alg`,
/// given the digest `h` of the signed data under that algorithm's hash.
pub open spec fn sig_check(alg: u8, key: Seq<u8>, sig: Seq<u8>, h: Seq<u8>) -> Result<(), ValidationError> {
    if alg != ALG_RSASHA256 && alg != ALG_ECDSAP256SHA256 && alg != ALG_ECDSAP384SHA384 {
        Err(ValidationError::UnsupportedAlgorithm)
    } else if key.len() < 4 {
        Err(ValidationError::Invalid)
    } else {
        let pk = key.subrange(4, key.len() as int);
        let ok = if alg == ALG_RSASHA256 {
            rsa_accepts(pk, sig, h)
        } else if alg == ALG_ECDSAP256SHA256 {
            p256_accepts(pk, sig, h)
        } else {
            p384_accepts(pk, sig, h)
        };
        if ok {
            Ok(())
        } else {
            Err(ValidationError::Invalid)
        }
    }
}

/// The digest that algorithm `alg` signs for `data`.
pub open spec fn alg_digest(alg: u8, data: Seq<u8>) -> Seq<u8> {
    if alg == ALG_ECDSAP256SHA256 || alg == ALG_RSASHA256 {
        sha256_of(data)
    } else {
        sha384_of(data)
    }
}

/// Checks the signature `sig` by the DNSKEY record data `key` under algorithm
/// `alg`, given the digest `h` of the signed data.
pub fn verify_with_digest(alg: u8, key: &[u8], sig: &[u8], h: &[u8]) -> (r: Result<(), ValidationError>)
    ensures
        r == sig_check(alg, key@, sig@, h@),
{
    if alg != ALG_RSASHA256 && alg != ALG_ECDSAP256SHA256 && alg != ALG_ECDSAP384SHA384 {
        return Err(ValidationError::UnsupportedAlgorithm);
    }
    if key.len() < 4 {
        return Err(ValidationError::Invalid);
    }
    let (_, pk) = key.split_at(4);
    if alg == ALG_RSASHA256 {
        if verify_rsa_sha256(pk, sig, h) {
            return Ok(());
        } else {
            return Err(ValidationError::Invalid);
        }
    }
    let c = if alg == ALG_ECDSAP256SHA256 {
        Curve::p256()
    } else {
        Curve::p384()
    };
    match validate_ecdsa(&c, pk, sig, h) {
        Ok(()) => Ok(()),
        Err(()) => Err(ValidationError::Invalid),
    }
}

/// Checks the signature `sig` over `data` by the DNSKEY record data `key` under
/// algorithm `alg` (8: RSA with SHA-256; 13: P-256 with SHA-256; 14: P-384 with
/// SHA-384).
pub fn verify_signature(alg: u8, key: &[u8], sig: &[u8], data: &[u8]) -> (r: Result<(), ValidationError>)
    ensures
        r == sig_check(alg, key@, sig@, alg_digest(alg, data@)),
{
    if alg == ALG_ECDSAP256SHA256 || alg == ALG_RSASHA256 {
        let h = sha256(data);
        verify_with_digest(alg, key, sig, h.as_slice())
    } else if alg == ALG_ECDSAP384SHA384 {
        let h = sha384(data);
        verify_with_digest(alg, key, sig, h.as_slice())
    } else {
        Err(ValidationError::UnsupportedAlgorithm)
    }
}

/// A record in canonical form: the name in the data of NS, CNAME and DNAME
/// records in lowercase (owner names are lowercase already).
pub open spec fn canonical_rr(r: RrView) -> RrView {
    RrView {
        name: r.name,
        rr_type: r.rr_type,
        class: r.class,
        ttl: r.ttl,
        rdata: if name_rdata(r.rr_type) {
            lower(r.rdata)
        } else {
            r.rdata
        },
    }
}

/// A copy of a record in canonical form.
pub fn canonical_copy(r: &Rr) -> (c: Rr)
    ensures
        c@ == canonical_rr(r@),
        c.rdata@.len() == r.rdata@.len(),
{
    let rdata = if r.rr_type == TYPE_NS || r.rr_type == TYPE_CNAME || r.rr_type == TYPE_DNAME {
        let v = lower_copy(r.rdata.as_slice(), 0, r.rdata.len());
        proof {
            assert(r.rdata@.subrange(0, r.rdata@.len() as int) =~= r.rdata@);
        }
        v
    } else {
        r.rdata.clone()
    };
    Rr { name: r.name.clone(), rr_type: r.rr_type, class: r.class, ttl: r.ttl, rdata }
}

/// The records in the form that is signed: each in canonical form with the
/// original TTL, one after another.
pub open spec fn rrset_bytes(rrs: Seq<RrView>, ttl: u32) -> Seq<u8>
    decreases rrs.len(),
{
    if rrs.len() == 0 {
        Seq::empty()
    } else {
        rrset_bytes(rrs.drop_last(), ttl) + rr_bytes(canonical_rr(rrs.last()), ttl)
    }
}

/// Whether every record is owned by `name`, has type `ty` and data of at most 65535 bytes.
pub open spec fn rrset_of(rrs: Seq<RrView>, name: Seq<u8>, ty: u16) -> bool {
    forall|i: int| 0 <= i < rrs.len() ==> {
        &&& (#[trigger] rrs[i]).name == name
        &&& rrs[i].rr_type == ty
        &&& rrs[i].rdata.len() <= 0xffff
    }
}

/// The name `b` (wire form) is `a` or an ancestor of it: it is what is left of `a`
/// from `pos` on, or after some of the labels that follow `pos`.
pub open spec fn suffix_from(a: Seq<u8>, pos: nat, b: Seq<u8>) -> bool
    decreases a.len() - pos,
{
    if pos > a.len() {
        false
    } else if a.subrange(pos as int, a.len() as int) == b {
        true
    } else if pos < a.len() && a[pos as int] != 0 && pos + 1 + a[pos as int] <= a.len() {
        suffix_from(a, (pos + 1 + a[pos as int]) as nat, b)
    } else {
        false
    }
}

/// Whether a signer may sign records of type `ty` owned by `owner`: a key set only
/// its own zone's; a DS set only the parent side's (a proper ancestor); anything
/// else its own zone or an ancestor.
pub open spec fn signer_may_sign(signer: Seq<u8>, owner: Seq<u8>, ty: u16) -> bool {
    if ty == TYPE_DNSKEY {
        signer == owner
    } else if ty == TYPE_DS {
        signer != owner && suffix_from(owner, 0, signer)
    } else {
        suffix_from(owner, 0, signer)
    }
}

/// Whether `a` from `pos` on is `b`.
fn tail_eq(a: &[u8], pos: usize, b: &[u8]) -> (r: bool)
    requires
        pos <= a@.len(),
    ensures
        r == (a@.subrange(pos as int, a@.len() as int) == b@),
{
    if a.len() - pos != b.len() {
        proof {
            assert(a@.subrange(pos as int, a@.len() as int).len() != b@.len());
        }
        return false;
    }
    let al: usize = a.len();
    let mut i: usize = 0;
    while i < b.len()
        invariant
            al == a@.len(),
            pos <= a@.len(),
            a@.len() - pos == b@.len(),
            i <= b@.len(),
            forall|k: int| 0 <= k < i ==> a@[pos + k] == b@[k],
        decreases b@.len() - i,
    {
        if a[pos + i] != b[i] {
            proof {
                assert(a@.subrange(pos as int, a@.len() as int)[i as int] != b@[i as int]);
            }
            return false;
        }
        i = i + 1;
    }
    proof {
        assert(a@.subrange(pos as int, a@.len() as int) =~= b@);
    }
    true
}

/// Whether the name `b` is the name `a` or an ancestor of it, label by label.
pub fn is_name_suffix(a: &[u8], b: &[u8]) -> (r: bool)
    ensures
        r == suffix_from(a@, 0, b@),
{
    let mut pos: usize = 0;
    loop
        invariant
            pos <= a@.len(),
            suffix_from(a@, 0, b@) == suffix_from(a@, pos as nat, b@),
        decreases a@.len() - pos,
    {
        if tail_eq(a, pos, b) {
            return true;
        }
        if pos < a.len() && a[pos] != 0 && a.len() - pos - 1 >= a[pos] as usize {
            pos = pos + 1 + a[pos] as usize;
        } else {
            return false;
        }
    }
}

/// Whether a signer may sign records of type `ty` owned by `owner`.
pub fn may_sign(signer: &[u8], owner: &[u8], ty: u16) -> (r: bool)
    ensures
        r == signer_may_sign(signer@, owner@, ty),
{
    let same = tail_eq(owner, 0, signer);
    proof {
        assert(owner@.subrange(0, owner@.len() as int) =~= owner@);
    }
    if ty == TYPE_DNSKEY {
        same
    } else if ty == TYPE_DS {
        !same && is_name_suffix(owner, signer)
    } else {
        is_name_suffix(owner, signer)
    }
}

/// The outcome of checking the RRSIG record `sig` over the records `rrs` (taken in
/// the order given, which must be the canonical one) with the DNSKEY record `key`
/// at the time `now`.
#[verifier::opaque]
pub open spec fn rrsig_check(sig: RrView, rrs: Seq<RrView>, key: RrView, now: u64) -> Result<
    (),
    ValidationError,
> {
    let d = sig.rdata;
    if d.len() < 18 || name_at(d, 18) is None {
        Err(ValidationError::Invalid)
    } else {
        let (signer, sig_start) = name_at(d, 18).unwrap();
        let alg = d[2];
        if rrs.len() == 0 || !rrset_of(rrs, sig.name, be16(d, 0)) || key.rr_type != TYPE_DNSKEY
            || key.name != signer || key.rdata.len() < 4 || key.rdata.len() > 0xffff
            || key_tag_spec(key.rdata) != be16(d, 16) || key.rdata[3] != alg
            || !signer_may_sign(signer, sig.name, be16(d, 0)) {
            Err(ValidationError::Invalid)
        } else {
            let data = d.subrange(0, sig_start as int) + rrset_bytes(rrs, be32(d, 4));
            let signature = d.subrange(sig_start as int, d.len() as int);
            match sig_check(alg, key.rdata, signature, alg_digest(alg, data)) {
                Err(e) => Err(e),
                Ok(()) => if valid_at(be32(d, 12), be32(d, 8), (now % 0x1_0000_0000) as u32) {
                    Ok(())
                } else {
                    Err(ValidationError::ValidAtOtherTime)
                },
            }
        }
    }
}

/// What a successful check tells: the RRSIG data holds its fields and signer, the
/// key is the signer's, there are records, and the window holds `now`.
pub proof fn lemma_check_ok(sig: RrView, rrs: Seq<RrView>, key: RrView, now: u64)
    requires
        rrsig_check(sig, rrs, key, now) is Ok,
    ensures
        sig.rdata.len() >= 18,
        name_at(sig.rdata, 18) is Some,
        key.name == name_at(sig.rdata, 18).unwrap().0,
        rrs.len() > 0,
        valid_at(be32(sig.rdata, 12), be32(sig.rdata, 8), (now % 0x1_0000_0000) as u32),
{
    reveal(rrsig_check);
}

/// The records in signed form with the TTL `ttl`; fails unless all are owned by
/// `name`, have type `ty` and data of at most 65535 bytes.
pub fn rrset_signed_bytes(rrs: &Vec<Rr>, name: &Vec<u8>, ty: u16, ttl: u32) -> (r: Result<Vec<u8>, ()>)
    ensures
        r is Ok <==> rrset_of(views(rrs@), name@, ty),
        r matches Ok(b) ==> b@ == rrset_bytes(views(rrs@), ttl),
{
    let ghost rv = views(rrs@);
    let mut data: Vec<u8> = Vec::new();
    proof {
        assert(rv.take(0) =~= Seq::<RrView>::empty());
        assert(data@ =~= rrset_bytes(rv.take(0), ttl));
    }
    let mut i: usize = 0;
    while i < rrs.len()
        invariant
            rv == views(rrs@),
            i <= rrs@.len(),
            rrset_of(rv.take(i as int), name@, ty),
            data@ == rrset_bytes(rv.take(i as int), ttl),
        decreases rrs@.len() - i,
    {
        let rr = &rrs[i];
        if !bytes_eq(&rr.name, name) || rr.rr_type != ty || rr.rdata.len() > 0xffff {
            proof {
                assert(rv[i as int] == rr@);
            }
            return Err(());
        }
        let c = canonical_copy(rr);
        write_rr(&c, ttl, &mut data);
        proof {
            assert(rv.take(i + 1).drop_last() =~= rv.take(i as int));
            assert(rv.take(i + 1).last() == rr@);
            assert forall|k: int| 0 <= k < i + 1 implies #[trigger] rv.take(i + 1)[k].name == name@
                && rv.take(i + 1)[k].rr_type == ty && rv.take(i + 1)[k].rdata.len() <= 0xffff by {
                if k < i {
                    assert(rv.take(i + 1)[k] == rv.take(i as int)[k]);
                }
            }
        }
        i = i + 1;
    }
    proof {
        assert(rv.take(rrs@.len() as int) =~= rv);
    }
    Ok(data)
}

/// Checks the RRSIG record `sig` over the records `rrs`, given in canonical order,
/// with the DNSKEY record `key`, at the time `now` (POSIX seconds). A signature that
/// verifies outside its validity window gives `ValidAtOtherTime`.
pub fn verify_rrsig(sig: &Rr, rrs: &Vec<Rr>, key: &Rr, now: u64) -> (r: Result<(), ValidationError>)
    ensures
        r == rrsig_check(sig@, views(rrs@), key@, now),
{
    reveal(rrsig_check);
    let d = sig.rdata.as_slice();
    let fields = match parse_rrsig(d) {
        Ok(f) => f,
        Err(()) => {
            return Err(ValidationError::Invalid);
        },
    };
    if rrs.len() == 0 || key.rr_type != TYPE_DNSKEY || !bytes_eq(&key.name, &fields.signer)
        || key.rdata.len() < 4 || key.rdata.len() > 0xffff {
        return Err(ValidationError::Invalid);
    }
    if key_tag(key.rdata.as_slice()) != fields.key_tag || key.rdata[3] != fields.alg
        || !may_sign(fields.signer.as_slice(), sig.name.as_slice(), fields.type_covered) {
        return Err(ValidationError::Invalid);
    }
    proof {
        crate::wire::lemma_labels_end_bounds(d@, 18);
    }
    let mut data: Vec<u8> = Vec::new();
    push_all(&mut data, &d[0..fields.sig_start]);
    let body = match rrset_signed_bytes(rrs, &sig.name, fields.type_covered, fields.orig_ttl) {
        Ok(b) => b,
        Err(()) => {
            return Err(ValidationError::Invalid);
        },
    };
    push_all(&mut data, body.as_slice());
    let signature = &d[fields.sig_start..d.len()];
    match verify_signature(fields.alg, key.rdata.as_slice(), signature, data.as_slice()) {
        Err(e) => Err(e),
        Ok(()) => if sig_valid_at(fields.inception, fields.expiration, now) {
            Ok(())
        } else {
            Err(ValidationError::ValidAtOtherTime)
        },
    }
}

/// `a` sorts before `b`, or equals it, as left-justified unsigned byte strings.
pub open spec fn lex_le(a: Seq<u8>, b: Seq<u8>) -> bool
    decreases a.len(),
{
    if a.len() == 0 {
        true
    } else if b.len() == 0 {
        false
    } else if a[0] != b[0] {
        a[0] < b[0]
    } else {
        lex_le(a.drop_first(), b.drop_first())
    }
}

/// Of two byte strings, one sorts before the other or they are equal.
pub proof fn lemma_lex_total(a: Seq<u8>, b: Seq<u8>)
    ensures
        lex_le(a, b) || lex_le(b, a),
    decreases a.len(),
{
    if a.len() > 0 && b.len() > 0 && a[0] == b[0] {
        lemma_lex_total(a.drop_first(), b.drop_first());
    }
}

/// Whether `a` sorts before `b`, or equals it.
pub fn lex_le_exec(a: &[u8], b: &[u8]) -> (r: bool)
    ensures
        r == lex_le(a@, b@),
{
    let mut i: usize = 0;
    proof {
        assert(a@.skip(0) =~= a@);
        assert(b@.skip(0) =~= b@);
    }
    while i < a.len() && i < b.len()
        invariant
            i <= a@.len(),
            i <= b@.len(),
            lex_le(a@, b@) == lex_le(a@.skip(i as int), b@.skip(i as int)),
        decreases a@.len() - i,
    {
        if a[i] != b[i] {
            return a[i] < b[i];
        }
        proof {
            assert(a@.skip(i as int).drop_first() =~= a@.skip(i + 1));
            assert(b@.skip(i as int).drop_first() =~= b@.skip(i + 1));
        }
        i = i + 1;
    }
    i == a.len()
}

/// `x` inserted into `s` before the first record whose canonical data sorts after it.
pub open spec fn ins_sorted(s: Seq<RrView>, x: RrView) -> Seq<RrView>
    decreases s.len(),
{
    if s.len() == 0 {
        seq![x]
    } else if lex_le(canonical_rr(s[0]).rdata, canonical_rr(x).rdata) {
        seq![s[0]] + ins_sorted(s.drop_first(), x)
    } else {
        seq![x] + s
    }
}

/// The records in canonical order, by insertion one after another; records with
/// equal canonical data keep their order.
pub open spec fn sort_rrs(s: Seq<RrView>) -> Seq<RrView>
    decreases s.len(),
{
    if s.len() == 0 {
        s
    } else {
        ins_sorted(sort_rrs(s.drop_last()), s.last())
    }
}

proof fn lemma_ins_at(b: Seq<RrView>, x: RrView, pos: int)
    requires
        0 <= pos <= b.len(),
        forall|k: int| 0 <= k < pos ==> lex_le(canonical_rr(#[trigger] b[k]).rdata, canonical_rr(x).rdata),
        pos < b.len() ==> !lex_le(canonical_rr(b[pos]).rdata, canonical_rr(x).rdata),
    ensures
        ins_sorted(b, x) == b.insert(pos, x),
    decreases pos,
{
    if pos == 0 {
        if b.len() == 0 {
            assert(b.insert(0, x) =~= seq![x]);
        } else {
            assert(b.insert(0, x) =~= seq![x] + b);
        }
    } else {
        assert(lex_le(canonical_rr(b[0]).rdata, canonical_rr(x).rdata));
        let t = b.drop_first();
        assert forall|k: int| 0 <= k < pos - 1 implies lex_le(canonical_rr(#[trigger] t[k]).rdata, canonical_rr(x).rdata) by {
            assert(t[k] == b[k + 1]);
        }
        if pos - 1 < t.len() {
            assert(t[pos - 1] == b[pos]);
        }
        lemma_ins_at(t, x, pos - 1);
        assert(b.insert(pos, x) =~= seq![b[0]] + t.insert(pos - 1, x));
    }
}

/// Whether neighbouring records are in canonical order (by their data in
/// canonical form).
pub open spec fn canonical(rrs: Seq<Rr>) -> bool {
    forall|i: int|
        0 <= i < rrs.len() - 1 ==> lex_le(canonical_rr((#[trigger] rrs[i])@).rdata, canonical_rr(rrs[i + 1]@).rdata)
}

/// The records in canonical order: sorted by their data.
pub fn canonical_order(rrs: Vec<Rr>) -> (r: Vec<Rr>)
    ensures
        views(r@).to_multiset() == views(rrs@).to_multiset(),
        views(r@) == sort_rrs(views(rrs@)),
        canonical(r@),
{
    let mut out: Vec<Rr> = Vec::new();
    let mut rest = rrs;
    let ghost all = rest@;
    proof {
        assert(all.take(0) =~= Seq::<Rr>::empty());
        assert(views(all.take(0)) =~= Seq::<RrView>::empty());
        assert(views(out@) =~= Seq::<RrView>::empty());
    }
    let mut i: usize = 0;
    let n = rest.len();
    while rest.len() > 0
        invariant
            rest@.len() + out@.len() == n,
            n == all.len(),
            i == out@.len(),
            all.take(i as int) + rest@ =~= all,
            views(out@).to_multiset() == views(all.take(i as int)).to_multiset(),
            views(out@) == sort_rrs(views(all.take(i as int))),
            canonical(out@),
        decreases rest@.len(),
    {
        let ghost old_rest = rest@;
        let x = rest.remove(0);
        proof {
            assert(all.take(i + 1) =~= all.take(i as int).push(x));
            assert(all.take(i + 1) + rest@ =~= all) by {
                assert(old_rest =~= seq![x] + rest@);
            }
        }
        let xc = canonical_copy(&x);
        let mut pos: usize = 0;
        while pos < out.len() && lex_le_exec(canonical_copy(&out[pos]).rdata.as_slice(), xc.rdata.as_slice())
            invariant
                pos <= out@.len(),
                xc@ == canonical_rr(x@),
                forall|k: int| 0 <= k < pos ==> lex_le(canonical_rr((#[trigger] out@[k])@).rdata, xc@.rdata),
            decreases out@.len() - pos,
        {
            pos = pos + 1;
        }
        let ghost before = out@;
        proof {
            if pos < out@.len() {
                lemma_lex_total(canonical_rr(out@[pos as int]@).rdata, xc@.rdata);
            }
        }
        out.insert(pos, x);
        proof {
            assert(views(out@) =~= views(before).insert(pos as int, x@));
            assert(views(all.take(i + 1)) =~= views(all.take(i as int)).push(x@));
            assert forall|k: int| 0 <= k < pos implies lex_le(
                canonical_rr(#[trigger] views(before)[k]).rdata,
                canonical_rr(x@).rdata,
            ) by {
                assert(views(before)[k] == before[k]@);
            }
            if pos < before.len() {
                assert(views(before)[pos as int] == before[pos as int]@);
            }
            lemma_ins_at(views(before), x@, pos as int);
            assert(views(all.take(i + 1)).drop_last() =~= views(all.take(i as int)));
            vstd::seq_lib::to_multiset_insert(views(before), pos as int, x@);
            vstd::seq_lib::to_multiset_build(views(all.take(i as int)), x@);
            assert forall|k: int| 0 <= k < out@.len() - 1 implies lex_le(
                canonical_rr((#[trigger] out@[k])@).rdata,
                canonical_rr(out@[k + 1]@).rdata,
            ) by {
                if k < pos as int - 1 {
                    assert(out@[k] == before[k]);
                    assert(out@[k + 1] == before[k + 1]);
                } else if k == pos as int - 1 {
                    assert(out@[k] == before[k]);
                } else if k > pos as int {
                    assert(out@[k] == before[k - 1]);
                    assert(out@[k + 1] == before[k]);
                }
            }
        }
        i = i + 1;
    }
    proof {
        assert(all.take(n as int) =~= all);
    }
    out
}

} // verus!
