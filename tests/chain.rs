use dnssec_prover::bigint::Uint;
use dnssec_prover::chain::{root_anchors, verify_rr_stream, verify_rr_stream_with_anchors};
use dnssec_prover::ec::{add_two_mul, Curve};
use dnssec_prover::validation::{canonical_order, ValidationError};
use dnssec_prover::wire::{parse_rr_stream, Rr};
use sha2::Digest;

fn wire_name(dotted: &str) -> Vec<u8> {
    let mut out = Vec::new();
    for label in dotted.split('.').filter(|l| !l.is_empty()) {
        out.push(label.len() as u8);
        out.extend_from_slice(label.as_bytes());
    }
    out.push(0);
    out
}

fn be_bytes(u: &Uint) -> Vec<u8> {
    u.limbs.iter().rev().flat_map(|l| l.to_be_bytes()).collect()
}

fn mul_g(c: &Curve, k: &Uint) -> (Uint, Uint) {
    let one = Uint::from_u64(1, 4);
    let (km1, _) = k.sub_borrow(&one);
    let q = add_two_mul(c, &km1, &c.g, &one, &c.g).unwrap();
    let zi = c.coord.from_modinv_of(&q.z).unwrap();
    let zi2 = c.coord.square(&zi);
    let zi3 = c.coord.mul(&zi2, &zi);
    (c.coord.mul(&q.x, &zi2), c.coord.mul(&q.y, &zi3))
}

fn sign(c: &Curve, d: &Uint, data: &[u8]) -> Vec<u8> {
    let k = Uint::from_u64(0x0bad_cafe_f00d_1234, 4);
    let (rx, _) = mul_g(c, &k);
    let r = c.scalar.from_i(&rx);
    let h = sha2::Sha256::digest(data).to_vec();
    let z = c.scalar.from_i(&Uint::from_be_bytes(&h, 4).unwrap());
    let kinv = c.scalar.from_modinv_of(&k).unwrap();
    let t = c.scalar.add(&z, &c.scalar.mul(&r, d));
    let s = c.scalar.mul(&kinv, &t);
    let mut sig = be_bytes(&r);
    sig.extend(be_bytes(&s));
    sig
}

fn key_tag(rdata: &[u8]) -> u16 {
    let mut ac: u32 = 0;
    for (i, b) in rdata.iter().enumerate() {
        ac += if i & 1 == 1 { *b as u32 } else { (*b as u32) << 8 };
    }
    ac += (ac >> 16) & 0xffff;
    (ac & 0xffff) as u16
}

fn rr(name: &str, ty: u16, rdata: Vec<u8>) -> Rr {
    Rr { name: wire_name(name), rr_type: ty, class: 1, ttl: 3600, rdata }
}

struct Key {
    rr: Rr,
    secret: Uint,
}

fn key(c: &Curve, zone: &str, secret: u64) -> Key {
    let secret = Uint::from_u64(secret, 4);
    let (x, y) = mul_g(c, &secret);
    let mut rdata = vec![1, 1, 3, 13];
    rdata.extend(be_bytes(&x));
    rdata.extend(be_bytes(&y));
    Key { rr: rr(zone, 48, rdata), secret }
}

fn ds_of(k: &Key) -> Vec<u8> {
    let mut data = k.rr.name.clone();
    data.extend_from_slice(&k.rr.rdata);
    let mut ds = key_tag(&k.rr.rdata).to_be_bytes().to_vec();
    ds.extend_from_slice(&[13, 2]);
    ds.extend(sha2::Sha256::digest(&data).to_vec());
    ds
}

fn rr_signed(r: &Rr, ttl: u32) -> Vec<u8> {
    let mut v = r.name.clone();
    v.extend_from_slice(&r.rr_type.to_be_bytes());
    v.extend_from_slice(&r.class.to_be_bytes());
    v.extend_from_slice(&ttl.to_be_bytes());
    v.extend_from_slice(&(r.rdata.len() as u16).to_be_bytes());
    v.extend_from_slice(&r.rdata);
    v
}

fn rrsig(c: &Curve, by: &Key, set: &[Rr]) -> Rr {
    let mut rd = set[0].rr_type.to_be_bytes().to_vec();
    rd.extend_from_slice(&[13, 2]);
    rd.extend_from_slice(&300u32.to_be_bytes());
    rd.extend_from_slice(&2_000_000u32.to_be_bytes());
    rd.extend_from_slice(&1_000_000u32.to_be_bytes());
    rd.extend_from_slice(&key_tag(&by.rr.rdata).to_be_bytes());
    rd.extend_from_slice(&by.rr.name);
    let mut data = rd.clone();
    let mut sorted: Vec<Rr> = set.to_vec();
    sorted.sort_by(|a, b| a.rdata.cmp(&b.rdata));
    for r in &sorted {
        data.extend(rr_signed(r, 300));
    }
    rd.extend(sign(c, &by.secret, &data));
    Rr { name: set[0].name.clone(), rr_type: 46, class: 1, ttl: 300, rdata: rd }
}

/// A proof for `x.com. TXT`: root keys, the DS of `com.`, the keys of `com.`, and the TXT.
fn sample_chain(c: &Curve) -> (Vec<Rr>, Vec<Vec<u8>>) {
    let root = key(c, ".", 0x1111_2222_3333);
    let root_zsk = key(c, ".", 0x4444_5555_6666);
    let com = key(c, "com.", 0x7777_8888_9999);
    let root_keys = vec![root.rr.clone(), root_zsk.rr.clone()];
    let ds = vec![rr("com.", 43, ds_of(&com))];
    let com_keys = vec![com.rr.clone()];
    let txt = vec![rr("x.com.", 16, b"\x05hello".to_vec())];
    let mut rrs = Vec::new();
    rrs.extend(root_keys.clone());
    rrs.push(rrsig(c, &root, &root_keys));
    rrs.extend(ds.clone());
    rrs.push(rrsig(c, &root_zsk, &ds));
    rrs.extend(com_keys.clone());
    rrs.push(rrsig(c, &com, &com_keys));
    rrs.extend(txt.clone());
    rrs.push(rrsig(c, &com, &txt));
    (rrs, vec![ds_of(&root)])
}

fn stream(rrs: &[Rr]) -> Vec<u8> {
    let mut out = Vec::new();
    for r in rrs {
        out.extend(rr_signed(r, r.ttl));
    }
    out
}

#[test]
fn chain_from_anchor_to_txt_verifies() {
    let c = Curve::p256();
    let (rrs, anchors) = sample_chain(&c);
    let parsed = parse_rr_stream(&stream(&rrs)).unwrap();
    let v = verify_rr_stream_with_anchors(&parsed, &anchors, 1_500_000).unwrap();
    assert_eq!(v.verified_rrs.len(), 1);
    assert_eq!(v.verified_rrs[0].name, wire_name("x.com."));
    assert_eq!(v.verified_rrs[0].rdata, b"\x05hello".to_vec());
    assert_eq!(v.valid_from, 1_000_000);
    assert_eq!(v.expires, 2_000_000);
    assert_eq!(v.max_cache_ttl, 300);
    assert!(v.valid_from < 1_500_000 && v.expires > 1_500_000);
}

#[test]
fn chain_in_reverse_order_gives_the_same_result() {
    let c = Curve::p256();
    let (mut rrs, anchors) = sample_chain(&c);
    let forward = verify_rr_stream_with_anchors(&rrs, &anchors, 1_500_000).unwrap();
    rrs.reverse();
    let backward = verify_rr_stream_with_anchors(&rrs, &anchors, 1_500_000).unwrap();
    assert_eq!(forward.verified_rrs.len(), backward.verified_rrs.len());
    assert_eq!(forward.verified_rrs[0].rdata, backward.verified_rrs[0].rdata);
    assert_eq!(forward.valid_from, backward.valid_from);
    assert_eq!(forward.expires, backward.expires);
    assert_eq!(forward.max_cache_ttl, backward.max_cache_ttl);
}

#[test]
fn chain_with_flipped_final_signature_is_invalid() {
    let c = Curve::p256();
    let (mut rrs, anchors) = sample_chain(&c);
    let last = rrs.len() - 1;
    let n = rrs[last].rdata.len();
    rrs[last].rdata[n - 1] ^= 1;
    assert_eq!(verify_rr_stream_with_anchors(&rrs, &anchors, 1_500_000).unwrap_err(), ValidationError::Invalid);
}

#[test]
fn chain_without_root_key_is_untrusted() {
    let c = Curve::p256();
    let (mut rrs, anchors) = sample_chain(&c);
    rrs.remove(0);
    assert_eq!(verify_rr_stream_with_anchors(&rrs, &anchors, 1_500_000).unwrap_err(), ValidationError::UntrustedChain);
}

#[test]
fn chain_without_ds_signature_fails() {
    let c = Curve::p256();
    let (mut rrs, anchors) = sample_chain(&c);
    rrs.remove(4);
    assert!(verify_rr_stream_with_anchors(&rrs, &anchors, 1_500_000).is_err());
}

#[test]
fn chain_with_unrelated_records_is_unchanged() {
    let c = Curve::p256();
    let (mut rrs, anchors) = sample_chain(&c);
    rrs.push(rr("other.org.", 1, vec![192, 0, 2, 7]));
    let v = verify_rr_stream_with_anchors(&rrs, &anchors, 1_500_000).unwrap();
    assert_eq!(v.verified_rrs.len(), 1);
    assert_eq!(v.verified_rrs[0].name, wire_name("x.com."));
}

#[test]
fn chain_outside_its_window() {
    let c = Curve::p256();
    let (rrs, anchors) = sample_chain(&c);
    assert_eq!(verify_rr_stream_with_anchors(&rrs, &anchors, 2_000_000).unwrap_err(), ValidationError::ValidAtOtherTime);
}

#[test]
fn synthetic_chain_is_untrusted_under_the_root_anchors() {
    let c = Curve::p256();
    let (rrs, _) = sample_chain(&c);
    assert_eq!(root_anchors().len(), 2);
    assert_eq!(verify_rr_stream(&rrs, 1_500_000).unwrap_err(), ValidationError::UntrustedChain);
}

#[test]
fn canonical_order_sorts_by_data() {
    let rrs = vec![rr("a.", 1, vec![2, 1]), rr("a.", 1, vec![1, 9, 9]), rr("a.", 1, vec![2])];
    let sorted = canonical_order(rrs);
    let data: Vec<Vec<u8>> = sorted.iter().map(|r| r.rdata.clone()).collect();
    assert_eq!(data, vec![vec![1, 9, 9], vec![2], vec![2, 1]]);
}

fn pkcs1(len: usize, h: &[u8]) -> Vec<u8> {
    let mut em = vec![0u8, 1];
    em.extend(std::iter::repeat(0xffu8).take(len - 3 - 19 - h.len()));
    em.push(0);
    em.extend_from_slice(&[0x30, 0x31, 0x30, 0x0d, 0x06, 0x09, 0x60, 0x86, 0x48, 0x01, 0x65, 0x03, 0x04, 0x02, 0x01, 0x05, 0x00, 0x04, 0x20]);
    em.extend_from_slice(h);
    em
}

/// An RSA key with exponent 1: its signature on a digest is the padded digest.
fn rsa_root_key() -> Rr {
    let mut rdata = vec![1, 1, 3, 8, 1, 1];
    rdata.extend(std::iter::repeat(0xffu8).take(128));
    rr(".", 48, rdata)
}

fn rsa_rrsig(by: &Rr, set: &[Rr]) -> Rr {
    let mut rd = set[0].rr_type.to_be_bytes().to_vec();
    rd.extend_from_slice(&[8, 0]);
    rd.extend_from_slice(&300u32.to_be_bytes());
    rd.extend_from_slice(&2_000_000u32.to_be_bytes());
    rd.extend_from_slice(&1_000_000u32.to_be_bytes());
    rd.extend_from_slice(&key_tag(&by.rdata).to_be_bytes());
    rd.extend_from_slice(&by.name);
    let mut data = rd.clone();
    let mut sorted: Vec<Rr> = set.to_vec();
    sorted.sort_by(|a, b| a.rdata.cmp(&b.rdata));
    for r in &sorted {
        data.extend(rr_signed(r, 300));
    }
    rd.extend(pkcs1(128, &sha2::Sha256::digest(&data)));
    Rr { name: set[0].name.clone(), rr_type: 46, class: 1, ttl: 300, rdata: rd }
}

#[test]
fn chain_with_rsa_root_verifies() {
    let c = Curve::p256();
    let root = rsa_root_key();
    let com = key(&c, "com.", 0x7777_8888_9999);
    let root_keys = vec![root.clone()];
    let ds = vec![rr("com.", 43, ds_of(&com))];
    let com_keys = vec![com.rr.clone()];
    let txt = vec![rr("x.com.", 16, b"\x05hello".to_vec())];
    let mut rrs = Vec::new();
    rrs.extend(root_keys.clone());
    rrs.push(rsa_rrsig(&root, &root_keys));
    rrs.extend(ds.clone());
    rrs.push(rsa_rrsig(&root, &ds));
    rrs.extend(com_keys.clone());
    rrs.push(rrsig(&c, &com, &com_keys));
    rrs.extend(txt.clone());
    rrs.push(rrsig(&c, &com, &txt));
    let mut data = root.name.clone();
    data.extend_from_slice(&root.rdata);
    let mut anchor = key_tag(&root.rdata).to_be_bytes().to_vec();
    anchor.extend_from_slice(&[8, 2]);
    anchor.extend(sha2::Sha256::digest(&data).to_vec());
    let v = verify_rr_stream_with_anchors(&rrs, &vec![anchor], 1_500_000).unwrap();
    assert_eq!(v.verified_rrs.len(), 1);
    assert_eq!(v.verified_rrs[0].name, wire_name("x.com."));
    rrs.reverse();
    let shuffled = verify_rr_stream_with_anchors(&rrs, &vec![ds_of(&com)], 1_500_000);
    assert_eq!(shuffled.unwrap_err(), ValidationError::UntrustedChain);
}

#[test]
fn zone_cannot_sign_for_another_name() {
    let c = Curve::p256();
    let (mut rrs, anchors) = sample_chain(&c);
    let com = key(&c, "com.", 0x7777_8888_9999);
    // Records of org. signed with the key of com. are not accepted.
    let foreign = vec![rr("x.org.", 16, b"\x03bad".to_vec())];
    rrs.extend(foreign.clone());
    rrs.push(rrsig(&c, &com, &foreign));
    let v = verify_rr_stream_with_anchors(&rrs, &anchors, 1_500_000).unwrap();
    assert_eq!(v.verified_rrs.len(), 1);
    assert_eq!(v.verified_rrs[0].name, wire_name("x.com."));
}

#[test]
fn window_is_valid_at_its_edges() {
    let c = Curve::p256();
    let (rrs, anchors) = sample_chain(&c);
    let first = verify_rr_stream_with_anchors(&rrs, &anchors, 1_000_000).unwrap();
    assert_eq!((first.valid_from, first.expires), (1_000_000, 2_000_000));
    assert!(verify_rr_stream_with_anchors(&rrs, &anchors, 1_999_999).is_ok());
    assert!(verify_rr_stream_with_anchors(&rrs, &anchors, 999_999).is_err());
}

#[test]
fn two_signatures_over_one_set_give_one_copy() {
    let c = Curve::p256();
    let (mut rrs, anchors) = sample_chain(&c);
    let com = key(&c, "com.", 0x7777_8888_9999);
    let txt = vec![rr("x.com.", 16, b"\x05hello".to_vec())];
    rrs.push(rrsig(&c, &com, &txt));
    let v = verify_rr_stream_with_anchors(&rrs, &anchors, 1_500_000).unwrap();
    assert_eq!(v.verified_rrs.len(), 1);
    assert_eq!(v.max_cache_ttl, 300);
}
