//! RSA signatures with SHA-256 (PKCS #1 v1.5), keys in the RFC 3110 encoding.
use vstd::prelude::*;
use vstd::arithmetic::power::pow;
use crate::bigint::{Uint, be_val, lemma_be_val_concat, pow256};
use crate::field::Field;
use crate::wire::push_all;

verus! {

/// `k` zero bytes.
pub open spec fn zeros(k: nat) -> Seq<u8> {
    Seq::new(k, |i: int| 0u8)
}

/// `k` bytes 0xff.
pub open spec fn ffs(k: nat) -> Seq<u8> {
    Seq::new(k, |i: int| 0xffu8)
}

/// The DER prefix of a SHA-256 DigestInfo.
pub open spec fn sha256_prefix() -> Seq<u8> {
    seq![0x30u8, 0x31, 0x30, 0x0d, 0x06, 0x09, 0x60, 0x86, 0x48, 0x01, 0x65, 0x03, 0x04, 0x02, 0x01, 0x05, 0x00, 0x04, 0x20]
}

/// The encoded message of `len` bytes for the digest `h`:
/// `00 01 FF .. FF 00 || DigestInfo || h`.
pub open spec fn pkcs1_em(len: nat, h: Seq<u8>) -> Seq<u8> {
    seq![0u8, 1u8] + ffs((len - 3 - 19 - h.len()) as nat) + seq![0u8] + sha256_prefix() + h
}

/// Where the modulus starts in an RFC 3110 key, after the exponent.
pub open spec fn exp_bounds(pk: Seq<u8>) -> Option<(nat, nat)> {
    if pk.len() < 1 {
        None
    } else if pk[0] != 0 {
        Some((1, (1 + pk[0]) as nat))
    } else if pk.len() < 3 {
        None
    } else {
        Some((3, (3 + pk[1] as nat * 256 + pk[2] as nat) as nat))
    }
}

/// Whether the RFC 3110 key `pk` accepts `sig` for the SHA-256 digest `h`: the
/// modulus is 1024 to 4096 bits, the signature as long as the modulus and below it,
/// and the signature raised to the exponent is the PKCS #1 v1.5 encoding of `h`.
pub open spec fn rsa_accepts(pk: Seq<u8>, sig: Seq<u8>, h: Seq<u8>) -> bool {
    match exp_bounds(pk) {
        None => false,
        Some((es, ee)) => {
            let e = pk.subrange(es as int, ee as int);
            let n = pk.subrange(ee as int, pk.len() as int);
            &&& ee <= pk.len()
            &&& 128 <= n.len() <= 512
            &&& n[0] != 0
            &&& e.len() <= n.len()
            &&& h.len() == 32
            &&& sig.len() == n.len()
            &&& be_val(sig) < be_val(n)
            &&& pow(be_val(sig) as int, be_val(e)) % (be_val(n) as int) == be_val(pkcs1_em(n.len(), h))
        },
    }
}

pub proof fn lemma_be_val_zeros(k: nat)
    ensures
        be_val(zeros(k)) == 0,
    decreases k,
{
    if k > 0 {
        assert(zeros(k).drop_last() =~= zeros((k - 1) as nat));
        lemma_be_val_zeros((k - 1) as nat);
    }
}

/// The integer of `k` limbs whose big-endian bytes are `b`.
fn uint_from_be(b: &[u8], k: usize) -> (r: Uint)
    requires
        0 < k <= 64,
        b@.len() <= 8 * k,
    ensures
        r.width() == k,
        r.val() == be_val(b@),
{
    let pad: usize = 8 * k - b.len();
    let mut bytes: Vec<u8> = Vec::new();
    let mut i: usize = 0;
    while i < pad
        invariant
            i <= pad,
            bytes@ == zeros(i as nat),
        decreases pad - i,
    {
        bytes.push(0);
        i = i + 1;
        proof {
            assert(bytes@ =~= zeros(i as nat));
        }
    }
    let ghost pre = bytes@;
    push_all(&mut bytes, b);
    proof {
        assert(pre == zeros(pad as nat));
        lemma_be_val_concat(pre, b@);
        lemma_be_val_zeros(pad as nat);
        assert(be_val(pre) == 0);
        assert(be_val(bytes@) == 0 * pow256(b@.len()) + be_val(b@));
        assert(be_val(bytes@) == be_val(b@));
    }
    match Uint::from_be_bytes(bytes.as_slice(), k) {
        Ok(v) => v,
        Err(()) => {
            proof {
                assert(false);
            }
            Uint::from_u64(0, k)
        },
    }
}

/// Checks an RSA/SHA-256 signature `sig` by the RFC 3110 key `pk` for the digest `h`.
pub fn verify_rsa_sha256(pk: &[u8], sig: &[u8], h: &[u8]) -> (r: bool)
    ensures
        r == rsa_accepts(pk@, sig@, h@),
{
    if pk.len() < 1 {
        return false;
    }
    let (es, ee): (usize, usize) = if pk[0] != 0 {
        (1, 1 + pk[0] as usize)
    } else {
        if pk.len() < 3 {
            return false;
        }
        (3, 3 + (pk[1] as usize) * 256 + pk[2] as usize)
    };
    if ee > pk.len() {
        return false;
    }
    let e = &pk[es..ee];
    let n = &pk[ee..pk.len()];
    let mlen = n.len();
    if mlen < 128 || mlen > 512 || n[0] == 0 || e.len() > mlen || h.len() != 32 || sig.len() != mlen {
        return false;
    }
    let k: usize = (mlen + 7) / 8;
    let nu = uint_from_be(n, k);
    let su = uint_from_be(sig, k);
    let eu = uint_from_be(e, k);
    if !su.lt(&nu) {
        return false;
    }
    proof {
        assert(n@.subrange(1, n@.len() as int) =~= n@.drop_first());
        lemma_be_val_first(n@);
        lemma_pow256_pos((n@.len() - 1) as nat);
    }
    let f = Field { p: nu };
    let m = f.pow(&su, &eu);
    let mut em: Vec<u8> = Vec::new();
    em.push(0);
    em.push(1);
    let nff: usize = mlen - 3 - 19 - 32;
    let mut i: usize = 0;
    while i < nff
        invariant
            i <= nff,
            em@ == seq![0u8, 1u8] + ffs(i as nat),
        decreases nff - i,
    {
        em.push(0xff);
        i = i + 1;
        proof {
            assert(em@ =~= seq![0u8, 1u8] + ffs(i as nat));
        }
    }
    em.push(0);
    push_all(&mut em, &[0x30, 0x31, 0x30, 0x0d, 0x06, 0x09, 0x60, 0x86, 0x48, 0x01, 0x65, 0x03, 0x04, 0x02, 0x01, 0x05, 0x00, 0x04, 0x20]);
    push_all(&mut em, h);
    proof {
        assert(em@ =~= pkcs1_em(mlen as nat, h@));
    }
    let emu = uint_from_be(em.as_slice(), k);
    m.eq(&emu)
}

proof fn lemma_pow256_pos(k: nat)
    ensures
        pow256(k) >= 1,
        k >= 1 ==> pow256(k) >= 256,
    decreases k,
{
    if k > 0 {
        lemma_pow256_pos((k - 1) as nat);
    }
}

/// A big-endian number with a non-zero first byte is at least 256^(len - 1).
proof fn lemma_be_val_first(s: Seq<u8>)
    requires
        s.len() >= 1,
        s[0] != 0,
    ensures
        be_val(s) >= pow256((s.len() - 1) as nat),
{
    let head = seq![s[0]];
    let tail = s.drop_first();
    assert(s =~= head + tail);
    lemma_be_val_concat(head, tail);
    assert(head.drop_last() =~= Seq::<u8>::empty());
    assert(be_val(Seq::<u8>::empty()) == 0);
    assert(head.last() == s[0]);
    assert(be_val(head) == s[0]);
    lemma_pow256_pos(tail.len());
    vstd::arithmetic::mul::lemma_mul_inequality(1, s[0] as int, pow256(tail.len()) as int);
}

} // verus!
