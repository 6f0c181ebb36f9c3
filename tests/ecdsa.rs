use dnssec_prover::bigint::Uint;
use dnssec_prover::ec::{add_two_mul, validate_ecdsa, Curve, Point};

fn be_bytes(u: &Uint) -> Vec<u8> {
    let mut out = Vec::new();
    for l in u.limbs.iter().rev() {
        out.extend_from_slice(&l.to_be_bytes());
    }
    out
}

fn uint(limbs_be: &[u64]) -> Uint {
    Uint { limbs: limbs_be.iter().rev().cloned().collect() }
}

/// `k * G` in affine coordinates, computed as `(k - 1) * G + 1 * G`.
fn mul_g(c: &Curve, k: &Uint) -> (Uint, Uint) {
    let n = c.coord.width();
    let one = Uint::from_u64(1, n);
    let (km1, _) = k.sub_borrow(&one);
    let q = add_two_mul(c, &km1, &c.g, &one, &c.g).unwrap();
    let zi = c.coord.from_modinv_of(&q.z).unwrap();
    let zi2 = c.coord.square(&zi);
    let zi3 = c.coord.mul(&zi2, &zi);
    (c.coord.mul(&q.x, &zi2), c.coord.mul(&q.y, &zi3))
}

struct Signed {
    pk: Vec<u8>,
    r: Uint,
    s: Uint,
    hash: Vec<u8>,
}

fn sign(c: &Curve, d: &Uint, k: &Uint, hash: Vec<u8>) -> Signed {
    let n = c.coord.width();
    let (qx, qy) = mul_g(c, d);
    let (rx, _) = mul_g(c, k);
    let r = c.scalar.from_i(&rx);
    let z = c.scalar.from_i(&Uint::from_be_bytes(&hash, n).unwrap());
    let kinv = c.scalar.from_modinv_of(k).unwrap();
    let rd = c.scalar.mul(&r, d);
    let t = c.scalar.add(&z, &rd);
    let s = c.scalar.mul(&kinv, &t);
    let mut pk = be_bytes(&qx);
    pk.extend(be_bytes(&qy));
    Signed { pk, r, s, hash }
}

fn sig_bytes(r: &Uint, s: &Uint) -> Vec<u8> {
    let mut v = be_bytes(r);
    v.extend(be_bytes(s));
    v
}

#[test]
fn p256_generator_on_curve() {
    let c = Curve::p256();
    assert!(Point::on_curve(&c, &c.g.x, &c.g.y).is_ok());
    let bad_y = c.coord.add(&c.g.y, &c.coord.one());
    assert!(Point::on_curve(&c, &c.g.x, &bad_y).is_err());
    assert!(Point::from_xy(&c, &c.g.x, &bad_y).is_err());
}

#[test]
fn p384_generator_on_curve() {
    let c = Curve::p384();
    assert!(Point::on_curve(&c, &c.g.x, &c.g.y).is_ok());
}

#[test]
fn curve_conditions_hold() {
    assert!(Point::check_curve_conditions(&Curve::p256()));
    assert!(Point::check_curve_conditions(&Curve::p384()));
}

#[test]
fn add_to_self_is_double() {
    let c = Curve::p256();
    let d = c.g.double(&c).unwrap();
    let a = c.g.add(&c, &c.g).unwrap();
    assert_eq!(a.x.limbs, d.x.limbs);
    assert_eq!(a.y.limbs, d.y.limbs);
    assert_eq!(a.z.limbs, d.z.limbs);
    assert!(Point::on_curve_z(&c, &d.x, &d.y, &d.z).is_ok());
    let dd = d.double(&c).unwrap();
    assert!(Point::on_curve_z(&c, &dd.x, &dd.y, &dd.z).is_ok());
    let three = d.add(&c, &c.g).unwrap();
    assert!(Point::on_curve_z(&c, &three.x, &three.y, &three.z).is_ok());
}

#[test]
fn scalar_multiples_on_curve() {
    let c = Curve::p256();
    for k in [2u64, 3, 7, 0xdead_beef] {
        let (x, y) = mul_g(&c, &Uint::from_u64(k, 4));
        assert!(Point::on_curve(&c, &x, &y).is_ok());
    }
    // 2G computed two ways agrees.
    let (x2, _) = mul_g(&c, &Uint::from_u64(2, 4));
    let d = c.g.double(&c).unwrap();
    assert_eq!(d.normalize_x(&c).unwrap().limbs, x2.limbs);
}

#[test]
fn modular_inverse_times_value_is_one() {
    let c = Curve::p256();
    for v in [1u64, 2, 3, 0x1234_5678_9abc_def0] {
        let m = Uint::from_u64(v, 4);
        let w = c.coord.from_modinv_of(&m).unwrap();
        assert_eq!(c.coord.mul(&w, &m).limbs, c.coord.one().limbs);
        let w = c.scalar.from_modinv_of(&m).unwrap();
        assert_eq!(c.scalar.mul(&w, &m).limbs, c.scalar.one().limbs);
    }
    assert!(c.coord.from_modinv_of(&Uint::from_u64(0, 4)).is_err());
    assert!(c.coord.from_modinv_of(&c.coord.p).is_err());
}

#[test]
fn p256_sign_then_verify() {
    let c = Curve::p256();
    let d = uint(&[0x0123_4567_89ab_cdef, 0x1111_2222_3333_4444, 0x5555_6666_7777_8888, 0x9999_aaaa_bbbb_cccc]);
    let k = uint(&[0x0fed_cba9_8765_4321, 0x1357_9bdf_2468_ace0, 0x0246_8ace_1357_9bdf, 0xaaaa_5555_aaaa_5555]);
    let hash: Vec<u8> = (0u8..32).map(|i| i.wrapping_mul(37).wrapping_add(11)).collect();
    let sg = sign(&c, &d, &k, hash);
    assert_eq!(validate_ecdsa(&c, &sg.pk, &sig_bytes(&sg.r, &sg.s), &sg.hash), Ok(()));
    // s + 1 is rejected.
    let s1 = c.scalar.add(&sg.s, &c.scalar.one());
    assert!(validate_ecdsa(&c, &sg.pk, &sig_bytes(&sg.r, &s1), &sg.hash).is_err());
    // Another digest is rejected.
    let mut h2 = sg.hash.clone();
    h2[31] ^= 1;
    assert!(validate_ecdsa(&c, &sg.pk, &sig_bytes(&sg.r, &sg.s), &h2).is_err());
    // r = 0, s = 0, r = N, s = N are rejected.
    let zero = Uint::from_u64(0, 4);
    assert!(validate_ecdsa(&c, &sg.pk, &sig_bytes(&zero, &sg.s), &sg.hash).is_err());
    assert!(validate_ecdsa(&c, &sg.pk, &sig_bytes(&sg.r, &zero), &sg.hash).is_err());
    assert!(validate_ecdsa(&c, &sg.pk, &sig_bytes(&c.scalar.p, &sg.s), &sg.hash).is_err());
    assert!(validate_ecdsa(&c, &sg.pk, &sig_bytes(&sg.r, &c.scalar.p), &sg.hash).is_err());
    // Wrong lengths are rejected.
    assert!(validate_ecdsa(&c, &sg.pk[1..], &sig_bytes(&sg.r, &sg.s), &sg.hash).is_err());
    assert!(validate_ecdsa(&c, &sg.pk, &sig_bytes(&sg.r, &sg.s)[1..], &sg.hash).is_err());
    assert!(validate_ecdsa(&c, &sg.pk, &sig_bytes(&sg.r, &sg.s), &sg.hash[1..]).is_err());
    // A longer digest is truncated to the coordinate length.
    let mut longer = sg.hash.clone();
    longer.extend_from_slice(&[0xaa; 16]);
    assert_eq!(validate_ecdsa(&c, &sg.pk, &sig_bytes(&sg.r, &sg.s), &longer), Ok(()));
}

#[test]
fn p384_sign_then_verify() {
    let c = Curve::p384();
    let d = uint(&[0x0123_4567_89ab_cdef, 0x1111_2222_3333_4444, 0x5555_6666_7777_8888, 0x9999_aaaa_bbbb_cccc, 0x1, 0x2]);
    let k = uint(&[0x0fed_cba9_8765_4321, 0x1357_9bdf_2468_ace0, 0x0246_8ace_1357_9bdf, 0xaaaa_5555_aaaa_5555, 0x3, 0x4]);
    let hash: Vec<u8> = (0u8..48).map(|i| i.wrapping_mul(91).wrapping_add(7)).collect();
    let sg = sign(&c, &d, &k, hash);
    assert_eq!(validate_ecdsa(&c, &sg.pk, &sig_bytes(&sg.r, &sg.s), &sg.hash), Ok(()));
    let s1 = c.scalar.add(&sg.s, &c.scalar.one());
    assert!(validate_ecdsa(&c, &sg.pk, &sig_bytes(&sg.r, &s1), &sg.hash).is_err());
}

#[test]
fn bytes_round_trip() {
    let c = Curve::p384();
    let bytes = c.g.x.to_be_bytes();
    assert_eq!(bytes.len(), 48);
    assert_eq!(bytes, be_bytes(&c.g.x));
    let back = Uint::from_be_bytes(&bytes, 6).unwrap();
    assert_eq!(back.limbs, c.g.x.limbs);
    assert!(Uint::from_be_bytes(&bytes[1..], 6).is_err());
    assert_eq!(Uint::from_u64(0x0102, 1).to_be_bytes(), vec![0, 0, 0, 0, 0, 0, 1, 2]);
}
