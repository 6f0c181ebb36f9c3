use dnssec_prover::bigint::Uint;
use dnssec_prover::ec::{add_two_mul, Curve};
use dnssec_prover::validation::{
    ds_digest_matches, ds_endorses_key, key_tag, parse_rrsig, verify_rrsig, verify_signature, ValidationError,
};
use dnssec_prover::rsa::verify_rsa_sha256;
use dnssec_prover::wire::Rr;
use sha2::Digest;

fn wire_name(dotted: &str) -> Vec<u8> {
    let mut out = Vec::new();
    for label in dotted.split('.').filter(|l| !l.is_empty()) {
        out.push(label.len() as u8);
        out.extend_from_slice(label.as_bytes());
    }
    out.push(0);
    out
}

fn be_bytes(u: &Uint) -> Vec<u8> {
    u.limbs.iter().rev().flat_map(|l| l.to_be_bytes()).collect()
}

fn mul_g(c: &Curve, k: &Uint) -> (Uint, Uint) {
    let one = Uint::from_u64(1, 4);
    let (km1, _) = k.sub_borrow(&one);
    let q = add_two_mul(c, &km1, &c.g, &one, &c.g).unwrap();
    let zi = c.coord.from_modinv_of(&q.z).unwrap();
    let zi2 = c.coord.square(&zi);
    let zi3 = c.coord.mul(&zi2, &zi);
    (c.coord.mul(&q.x, &zi2), c.coord.mul(&q.y, &zi3))
}

/// A P-256 signature over SHA-256 of `data` by the secret `d` with nonce `k`.
fn sign(c: &Curve, d: &Uint, k: &Uint, data: &[u8]) -> Vec<u8> {
    let (rx, _) = mul_g(c, k);
    let r = c.scalar.from_i(&rx);
    let h = sha2::Sha256::digest(data).to_vec();
    let z = c.scalar.from_i(&Uint::from_be_bytes(&h, 4).unwrap());
    let kinv = c.scalar.from_modinv_of(k).unwrap();
    let t = c.scalar.add(&z, &c.scalar.mul(&r, d));
    let s = c.scalar.mul(&kinv, &t);
    let mut sig = be_bytes(&r);
    sig.extend(be_bytes(&s));
    sig
}

fn reference_key_tag(rdata: &[u8]) -> u16 {
    let mut ac: u32 = 0;
    for (i, b) in rdata.iter().enumerate() {
        ac += if i & 1 == 1 { *b as u32 } else { (*b as u32) << 8 };
    }
    ac += (ac >> 16) & 0xffff;
    (ac & 0xffff) as u16
}

struct Zone {
    key: Rr,
    secret: Uint,
}

fn zone_key(c: &Curve, name: &str, secret: Uint) -> Zone {
    let (x, y) = mul_g(c, &secret);
    let mut rdata = vec![1, 1, 3, 13];
    rdata.extend(be_bytes(&x));
    rdata.extend(be_bytes(&y));
    Zone { key: Rr { name: wire_name(name), rr_type: 48, class: 1, ttl: 3600, rdata }, secret }
}

fn rr_signed(rr: &Rr, ttl: u32) -> Vec<u8> {
    let mut v = rr.name.clone();
    v.extend_from_slice(&rr.rr_type.to_be_bytes());
    v.extend_from_slice(&rr.class.to_be_bytes());
    v.extend_from_slice(&ttl.to_be_bytes());
    v.extend_from_slice(&(rr.rdata.len() as u16).to_be_bytes());
    v.extend_from_slice(&rr.rdata);
    v
}

fn make_rrsig(c: &Curve, z: &Zone, rrs: &[Rr], inception: u32, expiration: u32) -> Rr {
    let mut rd = rrs[0].rr_type.to_be_bytes().to_vec();
    rd.extend_from_slice(&[13, 2]);
    rd.extend_from_slice(&300u32.to_be_bytes());
    rd.extend_from_slice(&expiration.to_be_bytes());
    rd.extend_from_slice(&inception.to_be_bytes());
    rd.extend_from_slice(&reference_key_tag(&z.key.rdata).to_be_bytes());
    rd.extend_from_slice(&z.key.name);
    let mut data = rd.clone();
    for rr in rrs {
        data.extend(rr_signed(rr, 300));
    }
    let k = Uint::from_u64(0x1234_5678_9abc_def1, 4);
    rd.extend(sign(c, &z.secret, &k, &data));
    Rr { name: rrs[0].name.clone(), rr_type: 46, class: 1, ttl: 300, rdata: rd }
}

#[test]
fn key_tag_matches_the_rfc_algorithm() {
    let rdata: Vec<u8> = (0u16..200).map(|i| (i * 7 + 3) as u8).collect();
    let mut rdata = rdata;
    rdata[3] = 13;
    assert_eq!(key_tag(&rdata), reference_key_tag(&rdata));
    let mut legacy = rdata.clone();
    legacy[3] = 1;
    let n = legacy.len();
    assert_eq!(key_tag(&legacy), u16::from_be_bytes([legacy[n - 3], legacy[n - 2]]));
}

#[test]
fn rrsig_fields_are_read() {
    let mut rd = vec![0, 16, 13, 3, 0, 0, 1, 44, 0, 0, 0, 9, 0, 0, 0, 5, 0x30, 0x39];
    rd.extend(wire_name("Example.com."));
    rd.extend_from_slice(&[1, 2, 3]);
    let f = parse_rrsig(&rd).unwrap();
    assert_eq!(f.type_covered, 16);
    assert_eq!(f.alg, 13);
    assert_eq!(f.labels, 3);
    assert_eq!(f.orig_ttl, 300);
    assert_eq!(f.expiration, 9);
    assert_eq!(f.inception, 5);
    assert_eq!(f.key_tag, 12345);
    assert_eq!(f.signer, wire_name("example.com."));
    assert_eq!(f.sig_start, rd.len() - 3);
    assert!(parse_rrsig(&rd[..17]).is_err());
}

#[test]
fn ds_endorsement() {
    let c = Curve::p256();
    let z = zone_key(&c, "example.com.", Uint::from_u64(0xabcdef, 4));
    let mut data = z.key.name.clone();
    data.extend_from_slice(&z.key.rdata);
    let digest = sha2::Sha256::digest(&data).to_vec();
    let mut ds = reference_key_tag(&z.key.rdata).to_be_bytes().to_vec();
    ds.extend_from_slice(&[13, 2]);
    ds.extend_from_slice(&digest);
    assert!(ds_endorses_key(&ds, &z.key.name, &z.key.rdata));
    assert!(ds_digest_matches(&ds, reference_key_tag(&z.key.rdata), 13, &digest));
    let mut bad = ds.clone();
    let last = bad.len() - 1;
    bad[last] ^= 1;
    assert!(!ds_endorses_key(&bad, &z.key.name, &z.key.rdata));
    assert!(!ds_endorses_key(&ds, &wire_name("example.org."), &z.key.rdata));
    let digest384 = sha2::Sha384::digest(&data).to_vec();
    let mut ds384 = reference_key_tag(&z.key.rdata).to_be_bytes().to_vec();
    ds384.extend_from_slice(&[13, 4]);
    ds384.extend_from_slice(&digest384);
    assert!(ds_endorses_key(&ds384, &z.key.name, &z.key.rdata));
}

#[test]
fn rrsig_over_rrset_verifies_in_its_window() {
    let c = Curve::p256();
    let z = zone_key(&c, "example.com.", Uint::from_u64(0x5eed_5eed_5eed, 4));
    let txt = Rr { name: wire_name("example.com."), rr_type: 16, class: 1, ttl: 300, rdata: b"\x02hi".to_vec() };
    let rrs = vec![txt];
    let sig = make_rrsig(&c, &z, &rrs, 1_000, 2_000);
    assert_eq!(verify_rrsig(&sig, &rrs, &z.key, 1_000), Ok(()));
    assert_eq!(verify_rrsig(&sig, &rrs, &z.key, 1_999), Ok(()));
    assert_eq!(verify_rrsig(&sig, &rrs, &z.key, 2_000), Err(ValidationError::ValidAtOtherTime));
    assert_eq!(verify_rrsig(&sig, &rrs, &z.key, 999), Err(ValidationError::ValidAtOtherTime));
    // A flipped signature byte is refused.
    let mut bad = sig.clone();
    let last = bad.rdata.len() - 1;
    bad.rdata[last] ^= 1;
    assert_eq!(verify_rrsig(&bad, &rrs, &z.key, 1_500), Err(ValidationError::Invalid));
    // Other data is refused.
    let other = vec![Rr { rdata: b"\x02ho".to_vec(), ..rrs[0].clone() }];
    assert_eq!(verify_rrsig(&sig, &other, &z.key, 1_500), Err(ValidationError::Invalid));
    // An unsupported algorithm is reported as such.
    assert_eq!(verify_signature(5, &z.key.rdata, &[0; 64], b"x"), Err(ValidationError::UnsupportedAlgorithm));
    assert_eq!(verify_signature(8, &z.key.rdata, &[0; 64], b"x"), Err(ValidationError::Invalid));
}

fn pkcs1(len: usize, h: &[u8]) -> Vec<u8> {
    let mut em = vec![0u8, 1];
    em.extend(std::iter::repeat(0xffu8).take(len - 3 - 19 - h.len()));
    em.push(0);
    em.extend_from_slice(&[0x30, 0x31, 0x30, 0x0d, 0x06, 0x09, 0x60, 0x86, 0x48, 0x01, 0x65, 0x03, 0x04, 0x02, 0x01, 0x05, 0x00, 0x04, 0x20]);
    em.extend_from_slice(h);
    em
}

#[test]
fn rsa_encoding_with_unit_exponent() {
    // With exponent 1 the signature is the encoded message itself.
    let h = sha2::Sha256::digest(b"signed data").to_vec();
    let mut pk = vec![1u8, 1];
    pk.extend(std::iter::repeat(0xffu8).take(128));
    let sig = pkcs1(128, &h);
    assert!(verify_rsa_sha256(&pk, &sig, &h));
    let mut bad = sig.clone();
    bad[40] = 0xfe;
    assert!(!verify_rsa_sha256(&pk, &bad, &h));
    let mut h2 = h.clone();
    h2[0] ^= 1;
    assert!(!verify_rsa_sha256(&pk, &sig, &h2));
    // The long exponent-length form reads the same key.
    let mut pk_long = vec![0u8, 0, 1, 1];
    pk_long.extend(std::iter::repeat(0xffu8).take(128));
    assert!(verify_rsa_sha256(&pk_long, &sig, &h));
    // A modulus under 1024 bits is refused.
    let mut small = vec![1u8, 1];
    small.extend(std::iter::repeat(0xffu8).take(127));
    assert!(!verify_rsa_sha256(&small, &pkcs1(127, &h), &h));
    // A signature that is not below the modulus is refused.
    let mut pk_n = vec![1u8, 1];
    pk_n.extend(std::iter::repeat(0x01u8).take(128));
    let mut big = sig.clone();
    big[0] = 0x02;
    assert!(!verify_rsa_sha256(&pk_n, &big, &h));
}

#[test]
fn rsa_cubes_verify() {
    // A 1024-bit modulus and exponent 3.
    let mut n = vec![0xffu8; 128];
    n[127] = 0xfd;
    let mut pk = vec![1u8, 3];
    pk.extend_from_slice(&n);
    let h = vec![0u8; 32];
    // s^3 = 343 is no padded digest, so the signature is refused.
    let mut s = vec![0u8; 128];
    s[127] = 7;
    assert!(!verify_rsa_sha256(&pk, &s, &h));
}

#[test]
fn signed_form_lowercases_names_in_data() {
    let c = Curve::p256();
    let z = zone_key(&c, "example.com.", Uint::from_u64(0x5eed_0001, 4));
    let upper = Rr { name: wire_name("example.com."), rr_type: 2, class: 1, ttl: 300, rdata: wire_name("NS1.Example.COM.") };
    let lower = Rr { rdata: wire_name("ns1.example.com."), ..upper.clone() };
    // Signed over the lowercase form, the signature holds for either spelling.
    let sig = make_rrsig(&c, &z, &[lower.clone()], 1_000, 2_000);
    assert_eq!(verify_rrsig(&sig, &vec![upper], &z.key, 1_500), Ok(()));
    assert_eq!(verify_rrsig(&sig, &vec![lower], &z.key, 1_500), Ok(()));
}
