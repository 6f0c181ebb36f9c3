//! Fixed-width unsigned integers held as little-endian 64-bit limbs.
use vstd::prelude::*;
use vstd::arithmetic::mul::*;

verus! {

/// The weight of one limb, 2^64.
pub open spec fn limb_base() -> nat {
    0x1_0000_0000_0000_0000
}

/// 2^(64 * k).
pub open spec fn pow_limb(k: nat) -> nat
    decreases k,
{
    if k == 0 {
        1
    } else {
        limb_base() * pow_limb((k - 1) as nat)
    }
}

/// The number that little-endian limbs stand for.
pub open spec fn limbs_val(s: Seq<u64>) -> nat
    decreases s.len(),
{
    if s.len() == 0 {
        0
    } else {
        limbs_val(s.drop_last()) + (s.last() as nat) * pow_limb((s.len() - 1) as nat)
    }
}

/// The number that big-endian bytes stand for.
pub open spec fn be_val(s: Seq<u8>) -> nat
    decreases s.len(),
{
    if s.len() == 0 {
        0
    } else {
        be_val(s.drop_last()) * 256 + (s.last() as nat)
    }
}

/// 256^k.
pub open spec fn pow256(k: nat) -> nat
    decreases k,
{
    if k == 0 {
        1
    } else {
        256 * pow256((k - 1) as nat)
    }
}

pub proof fn lemma_pow_limb_pos(k: nat)
    ensures
        pow_limb(k) > 0,
    decreases k,
{
    if k > 0 {
        lemma_pow_limb_pos((k - 1) as nat);
        lemma_mul_strict_inequality(0, limb_base() as int, pow_limb((k - 1) as nat) as int);
    }
}

pub proof fn lemma_limbs_val_bound(s: Seq<u64>)
    ensures
        limbs_val(s) < pow_limb(s.len()),
    decreases s.len(),
{
    if s.len() > 0 {
        let d = s.drop_last();
        let k = (s.len() - 1) as nat;
        lemma_limbs_val_bound(d);
        lemma_pow_limb_pos(k);
        let v = limbs_val(d) as int;
        let l = s.last() as int;
        let p = pow_limb(k) as int;
        assert(v + l * p < 0x1_0000_0000_0000_0000 * p) by (nonlinear_arith)
            requires
                0 <= v < p,
                0 <= l < 0x1_0000_0000_0000_0000,
        ;
    }
}

pub proof fn lemma_limbs_val_take(s: Seq<u64>, i: int)
    requires
        0 <= i < s.len(),
    ensures
        limbs_val(s.take(i + 1)) == limbs_val(s.take(i)) + (s[i] as nat) * pow_limb(i as nat),
{
    assert(s.take(i + 1).drop_last() =~= s.take(i));
}

pub proof fn lemma_be_val_take(s: Seq<u8>, i: int)
    requires
        0 <= i < s.len(),
    ensures
        be_val(s.take(i + 1)) == be_val(s.take(i)) * 256 + (s[i] as nat),
{
    assert(s.take(i + 1).drop_last() =~= s.take(i));
}

pub proof fn lemma_be_val_bound(s: Seq<u8>)
    ensures
        be_val(s) < pow256(s.len()),
    decreases s.len(),
{
    if s.len() > 0 {
        lemma_be_val_bound(s.drop_last());
    }
}

/// Big-endian value of a concatenation.
pub proof fn lemma_be_val_concat(a: Seq<u8>, b: Seq<u8>)
    ensures
        be_val(a + b) == be_val(a) * pow256(b.len()) + be_val(b),
    decreases b.len(),
{
    if b.len() == 0 {
        assert(a + b =~= a);
        assert(pow256(0) == 1);
        assert(be_val(b) == 0);
    } else {
        let b0 = b.drop_last();
        assert((a + b).drop_last() =~= a + b0);
        assert((a + b).last() == b.last());
        assert(pow256(b.len()) == 256 * pow256(b0.len()));
        lemma_be_val_concat(a, b0);
        let x = be_val(a) as int;
        let q = pow256(b0.len()) as int;
        let y = be_val(b0) as int;
        assert((x * q + y) * 256 == x * (256 * q) + y * 256) by (nonlinear_arith);
        assert(be_val(a + b) == be_val(a + b0) * 256 + b.last());
        assert(be_val(b) == y * 256 + b.last());
    }
}

pub proof fn lemma_pow256_limb(k: nat)
    ensures
        pow256(8 * k) == pow_limb(k),
    decreases k,
{
    if k > 0 {
        lemma_pow256_limb((k - 1) as nat);
        let m = (8 * (k - 1)) as nat;
        assert(pow256(8 * k) == 256 * (256 * (256 * (256 * (256 * (256 * (256 * (256 * pow256(m)))))))))
            by {
            reveal_with_fuel(pow256, 9);
        }

    }
}

/// The `k` limbs of `v mod 2^(64 * k)`, least significant first.
pub open spec fn to_limbs(v: nat, k: nat) -> Seq<u64>
    decreases k,
{
    if k == 0 {
        Seq::empty()
    } else {
        to_limbs(v % pow_limb((k - 1) as nat), (k - 1) as nat).push(
            ((v / pow_limb((k - 1) as nat)) % limb_base()) as u64,
        )
    }
}

/// A value has exactly one representation in a given number of limbs.
pub proof fn lemma_to_limbs_unique(s: Seq<u64>)
    ensures
        s == to_limbs(limbs_val(s), s.len()),
    decreases s.len(),
{
    if s.len() > 0 {
        let k = (s.len() - 1) as nat;
        let d = s.drop_last();
        lemma_limbs_val_bound(d);
        lemma_pow_limb_pos(k);
        let v = limbs_val(s);
        vstd::arithmetic::div_mod::lemma_fundamental_div_mod_converse(
            v as int,
            pow_limb(k) as int,
            s.last() as int,
            limbs_val(d) as int,
        );
        vstd::arithmetic::mul::lemma_mul_is_commutative(s.last() as int, pow_limb(k) as int);
        lemma_to_limbs_unique(d);
        assert(s =~= d.push(s.last()));
    }
}

/// 2^k.
pub open spec fn pow2n(k: nat) -> nat
    decreases k,
{
    if k == 0 {
        1
    } else {
        2 * pow2n((k - 1) as nat)
    }
}

pub proof fn lemma_pow2n_64()
    ensures
        pow2n(64) == limb_base(),
{
    reveal_with_fuel(pow2n, 65);
}

/// An unsigned integer of a fixed number of 64-bit limbs, least significant first.
/// All arithmetic wraps modulo 2^(64 * width) with the carry or borrow reported.
#[derive(Debug)]
pub struct Uint {
    pub limbs: Vec<u64>,
}

impl Uint {
    pub open spec fn val(&self) -> nat {
        limbs_val(self.limbs@)
    }

    pub open spec fn width(&self) -> nat {
        self.limbs@.len()
    }

    /// The integer `v` of `n` limbs.
    pub fn from_u64(v: u64, n: usize) -> (r: Uint)
        requires
            n > 0,
        ensures
            r.width() == n,
            r.val() == v,
    {
        let mut limbs: Vec<u64> = Vec::new();
        limbs.push(v);
        proof {
            assert(limbs@.drop_last() =~= Seq::<u64>::empty());
            assert(pow_limb(0) == 1);
            assert(limbs_val(Seq::<u64>::empty()) == 0);
            assert(limbs_val(limbs@) == limbs_val(Seq::<u64>::empty()) + (v as nat) * pow_limb(0));
        }
        while limbs.len() < n
            invariant
                0 < limbs@.len() <= n,
                limbs_val(limbs@) == v,
            decreases n - limbs@.len(),
        {
            let ghost before = limbs@;
            limbs.push(0);
            proof {
                assert(limbs@.drop_last() =~= before);
                assert(limbs_val(limbs@) == limbs_val(before) + 0 * pow_limb(before.len()));
            }
        }
        Uint { limbs }
    }

    pub fn copy(&self) -> (r: Uint)
        ensures
            r.limbs@ == self.limbs@,
    {
        Uint { limbs: self.limbs.clone() }
    }

    /// Whether the value is zero.
    pub fn is_zero(&self) -> (r: bool)
        ensures
            r == (self.val() == 0),
    {
        let n = self.limbs.len();
        let mut i: usize = 0;
        while i < n
            invariant
                n == self.limbs@.len(),
                i <= n,
                limbs_val(self.limbs@.take(i as int)) == 0,
            decreases n - i,
        {
            proof {
                lemma_limbs_val_take(self.limbs@, i as int);
                lemma_pow_limb_pos(i as nat);
            }
            if self.limbs[i] != 0 {
                proof {
                    lemma_mul_strict_inequality(0, self.limbs@[i as int] as int, pow_limb(i as nat) as int);
                    lemma_mul_is_commutative(self.limbs@[i as int] as int, pow_limb(i as nat) as int);
                    lemma_limbs_val_prefix_le(self.limbs@, (i + 1) as nat);
                }
                return false;
            }
            i = i + 1;
        }
        proof {
            assert(self.limbs@.take(n as int) =~= self.limbs@);
        }
        true
    }

    /// Sum with carry: `r + carry * 2^(64 * width) == self + o`.
    pub fn add_carry(&self, o: &Uint) -> (r: (Uint, bool))
        requires
            self.width() == o.width(),
        ensures
            r.0.width() == self.width(),
            r.0.val() + (if r.1 { pow_limb(self.width()) } else { 0 }) == self.val() + o.val(),
    {
        let n = self.limbs.len();
        let mut out: Vec<u64> = Vec::new();
        let mut carry: u64 = 0;
        let mut i: usize = 0;
        while i < n
            invariant
                n == self.limbs@.len(),
                n == o.limbs@.len(),
                i <= n,
                out@.len() == i,
                carry <= 1,
                limbs_val(out@) + carry * pow_limb(i as nat)
                    == limbs_val(self.limbs@.take(i as int)) + limbs_val(o.limbs@.take(i as int)),
            decreases n - i,
        {
            let s: u128 = self.limbs[i] as u128 + o.limbs[i] as u128 + carry as u128;
            let lo: u64 = (s % 0x1_0000_0000_0000_0000u128) as u64;
            let hi: u64 = (s / 0x1_0000_0000_0000_0000u128) as u64;
            let ghost before = out@;
            out.push(lo);
            proof {
                assert(out@.drop_last() =~= before);
                lemma_limbs_val_take(self.limbs@, i as int);
                lemma_limbs_val_take(o.limbs@, i as int);
                lemma_carry_step(
                    lo as int,
                    hi as int,
                    self.limbs@[i as int] as int,
                    o.limbs@[i as int] as int,
                    carry as int,
                    pow_limb(i as nat) as int,
                );
            }
            carry = hi;
            i = i + 1;
        }
        proof {
            assert(self.limbs@.take(n as int) =~= self.limbs@);
            assert(o.limbs@.take(n as int) =~= o.limbs@);
        }
        (Uint { limbs: out }, carry == 1)
    }

    /// Difference with borrow: `r - borrow * 2^(64 * width) == self - o`;
    /// the borrow is set exactly when `self < o`.
    pub fn sub_borrow(&self, o: &Uint) -> (r: (Uint, bool))
        requires
            self.width() == o.width(),
        ensures
            r.0.width() == self.width(),
            r.0.val() - (if r.1 { pow_limb(self.width()) } else { 0 }) == self.val() - o.val(),
            r.1 == (self.val() < o.val()),
    {
        let n = self.limbs.len();
        let mut out: Vec<u64> = Vec::new();
        let mut borrow: u64 = 0;
        let mut i: usize = 0;
        while i < n
            invariant
                n == self.limbs@.len(),
                n == o.limbs@.len(),
                i <= n,
                out@.len() == i,
                borrow <= 1,
                limbs_val(out@) - borrow * pow_limb(i as nat)
                    == limbs_val(self.limbs@.take(i as int)) - limbs_val(o.limbs@.take(i as int)),
            decreases n - i,
        {
            let a: u64 = self.limbs[i];
            let b: u64 = o.limbs[i];
            let lo: u64;
            let hi: u64;
            if (a as u128) >= (b as u128) + (borrow as u128) {
                lo = a - b - borrow;
                hi = 0;
            } else {
                lo = ((a as u128 + 0x1_0000_0000_0000_0000u128) - b as u128 - borrow as u128) as u64;
                hi = 1;
            }
            let ghost before = out@;
            out.push(lo);
            proof {
                assert(out@.drop_last() =~= before);
                lemma_limbs_val_take(self.limbs@, i as int);
                lemma_limbs_val_take(o.limbs@, i as int);
                lemma_borrow_step(lo as int, hi as int, a as int, b as int, borrow as int, pow_limb(i as nat) as int);
            }
            borrow = hi;
            i = i + 1;
        }
        proof {
            assert(self.limbs@.take(n as int) =~= self.limbs@);
            assert(o.limbs@.take(n as int) =~= o.limbs@);
            lemma_limbs_val_bound(out@);
            lemma_limbs_val_bound(self.limbs@);
            lemma_limbs_val_bound(o.limbs@);
        }
        (Uint { limbs: out }, borrow == 1)
    }

    /// Whether `self < o`.
    pub fn lt(&self, o: &Uint) -> (r: bool)
        requires
            self.width() == o.width(),
        ensures
            r == (self.val() < o.val()),
    {
        let (_, b) = self.sub_borrow(o);
        b
    }

    /// Whether the two integers are equal.
    pub fn eq(&self, o: &Uint) -> (r: bool)
        requires
            self.width() == o.width(),
        ensures
            r == (self.val() == o.val()),
    {
        !self.lt(o) && !o.lt(self)
    }

    /// The `8 * width` big-endian bytes of the integer.
    pub fn to_be_bytes(&self) -> (r: Vec<u8>)
        requires
            self.width() <= 64,
        ensures
            r@.len() == 8 * self.width(),
            be_val(r@) == self.val(),
    {
        let n = self.limbs.len();
        let total: usize = 8 * n;
        let mut out: Vec<u8> = Vec::new();
        while out.len() < total
            invariant
                out@.len() <= total,
            decreases total - out@.len(),
        {
            out.push(0);
        }
        proof {
            assert(out@.subrange(total as int, total as int) =~= Seq::<u8>::empty());
            assert(self.limbs@.take(0) =~= Seq::<u64>::empty());
        }
        let mut k: usize = 0;
        while k < n
            invariant
                n == self.limbs@.len(),
                n <= 64,
                total == 8 * n,
                out@.len() == total,
                k <= n,
                be_val(out@.subrange(8 * (n - k), total as int)) == limbs_val(self.limbs@.take(k as int)),
            decreases n - k,
        {
            let w: u64 = self.limbs[k];
            let end: usize = 8 * (n - k);
            let ghost tail = out@.subrange(end as int, total as int);
            let mut cur: u64 = w;
            let mut t: usize = 0;
            proof {
                assert(out@.subrange(end as int, end as int) =~= Seq::<u8>::empty());
                assert(pow256(0) == 1);
            }
            while t < 8
                invariant
                    end == 8 * (n - k),
                    8 <= end <= total,
                    out@.len() == total,
                    t <= 8,
                    out@.subrange(end as int, total as int) == tail,
                    cur * pow256(t as nat) + be_val(out@.subrange(end - t, end as int)) == w,
                decreases 8 - t,
            {
                let b: u8 = (cur % 256) as u8;
                let ghost seg = out@.subrange(end - t, end as int);
                let p: usize = end - 1 - t;
                out.set(p, b);
                proof {
                    assert(out@.subrange(end - (t + 1), end as int) =~= seq![b] + seg);
                    assert(out@.subrange(end as int, total as int) =~= tail);
                    lemma_be_val_concat(seq![b], seg);
                    assert(seq![b].drop_last() =~= Seq::<u8>::empty());
                    assert(be_val(Seq::<u8>::empty()) == 0);
                    assert(be_val(seq![b]) == b);
                    lemma_digit_step(cur as int, b as int, (cur / 256) as int, pow256(t as nat) as int, be_val(seg) as int);
                    assert(pow256((t + 1) as nat) == 256 * pow256(t as nat));
                }
                cur = cur / 256;
                t = t + 1;
            }
            proof {
                let seg = out@.subrange(end - 8, end as int);
                lemma_be_val_bound(seg);
                lemma_pow256_bound(8);
                reveal_with_fuel(pow256, 9);
                assert(pow256(8) == 0x1_0000_0000_0000_0000);
                assert(t == 8);
                assert(cur * pow256(8) + be_val(seg) == w);
                if cur > 0 {
                    lemma_mul_inequality(1, cur as int, 0x1_0000_0000_0000_0000);
                }
                assert(be_val(seg) == w);
                assert(out@.subrange(end - 8, total as int) =~= seg + tail);
                lemma_be_val_concat(seg, tail);
                lemma_pow256_limb(k as nat);
                lemma_limbs_val_take(self.limbs@, k as int);
                assert(tail.len() == 8 * k);
                vstd::arithmetic::mul::lemma_mul_is_commutative(w as int, pow_limb(k as nat) as int);
                assert(8 * (n - (k + 1)) == end - 8);
            }
            k = k + 1;
        }
        proof {
            assert(out@.subrange(0, total as int) =~= out@);
            assert(self.limbs@.take(n as int) =~= self.limbs@);
        }
        out
    }

    /// Reads exactly `8 * n` big-endian bytes; any other length is refused.
    pub fn from_be_bytes(bytes: &[u8], n: usize) -> (r: Result<Uint, ()>)
        requires
            n > 0,
        ensures
            r is Ok <==> bytes@.len() == 8 * n,
            r matches Ok(v) ==> v.width() == n && v.val() == be_val(bytes@),
    {
        if bytes.len() / 8 != n || bytes.len() % 8 != 0 {
            return Err(());
        }
        let len = bytes.len();
        let mut limbs: Vec<u64> = Vec::new();
        let mut k: usize = 0;
        while k < n
            invariant
                len == bytes@.len(),
                len == 8 * n,
                k <= n,
                limbs@.len() == k,
                limbs_val(limbs@) == be_val(bytes@.subrange(len - 8 * k, len as int)),
            decreases n - k,
        {
            let start: usize = len - 8 * (k + 1);
            let mut w: u64 = 0;
            let mut t: usize = 0;
            while t < 8
                invariant
                    start + 8 <= len == bytes@.len(),
                    t <= 8,
                    w == be_val(bytes@.subrange(start as int, start + t)),
                decreases 8 - t,
            {
                proof {
                    let sub = bytes@.subrange(start as int, start + 8);
                    lemma_be_val_take(sub, t as int);
                    assert(sub.take(t as int) =~= bytes@.subrange(start as int, start + t));
                    assert(sub.take(t + 1) =~= bytes@.subrange(start as int, start + t + 1));
                    lemma_be_val_bound(bytes@.subrange(start as int, start + t));
                    lemma_pow256_bound(t as nat);
                }
                w = w * 256 + bytes[start + t] as u64;
                t = t + 1;
            }
            let ghost before = limbs@;
            limbs.push(w);
            proof {
                assert(limbs@.drop_last() =~= before);
                let lo = bytes@.subrange(len - 8 * k, len as int);
                let hi = bytes@.subrange(start as int, start + 8);
                assert(bytes@.subrange(start as int, len as int) =~= hi + lo);
                lemma_be_val_concat(hi, lo);
                lemma_pow256_limb(k as nat);
                lemma_mul_is_commutative(w as int, pow_limb(k as nat) as int);
            }
            k = k + 1;
        }
        proof {
            assert(bytes@.subrange(0, len as int) =~= bytes@);
        }
        Ok(Uint { limbs })
    }
}

proof fn lemma_digit_step(cur: int, b: int, q: int, p: int, rest: int)
    requires
        cur == 256 * q + b,
    ensures
        q * (256 * p) + (b * p + rest) == cur * p + rest,
{
    assert(q * (256 * p) + (b * p + rest) == cur * p + rest) by (nonlinear_arith)
        requires
            cur == 256 * q + b,
    ;
}

/// Two integers of one width with the same value have the same limbs; so reading
/// back the bytes of `to_be_bytes` with `from_be_bytes` gives the integer again.
pub proof fn lemma_be_round_trip(x: Uint, y: Uint)
    requires
        x.width() == y.width(),
        x.val() == y.val(),
    ensures
        x.limbs@ == y.limbs@,
{
    lemma_to_limbs_unique(x.limbs@);
    lemma_to_limbs_unique(y.limbs@);
}

pub proof fn lemma_pow256_bound(t: nat)
    requires
        t <= 8,
    ensures
        t < 8 ==> pow256(t) * 256 <= 0x1_0000_0000_0000_0000,
        pow256(t) <= 0x1_0000_0000_0000_0000,
{
    reveal_with_fuel(pow256, 9);
}

pub proof fn lemma_limbs_val_prefix_le(s: Seq<u64>, i: nat)
    requires
        i <= s.len(),
    ensures
        limbs_val(s.take(i as int)) <= limbs_val(s),
    decreases s.len() - i,
{
    if i < s.len() {
        lemma_limbs_val_take(s, i as int);
        lemma_limbs_val_prefix_le(s, i + 1);
    } else {
        assert(s.take(i as int) =~= s);
    }
}

proof fn lemma_carry_step(lo: int, hi: int, a: int, b: int, c: int, p: int)
    requires
        lo + hi * 0x1_0000_0000_0000_0000 == a + b + c,
    ensures
        lo * p + hi * (0x1_0000_0000_0000_0000 * p) == a * p + b * p + c * p,
{
    assert(lo * p + hi * (0x1_0000_0000_0000_0000 * p) == a * p + b * p + c * p) by (nonlinear_arith)
        requires
            lo + hi * 0x1_0000_0000_0000_0000 == a + b + c,
    ;
}

proof fn lemma_borrow_step(lo: int, hi: int, a: int, b: int, c: int, p: int)
    requires
        lo - hi * 0x1_0000_0000_0000_0000 == a - b - c,
    ensures
        lo * p - hi * (0x1_0000_0000_0000_0000 * p) == a * p - b * p - c * p,
{
    assert(lo * p - hi * (0x1_0000_0000_0000_0000 * p) == a * p - b * p - c * p) by (nonlinear_arith)
        requires
            lo - hi * 0x1_0000_0000_0000_0000 == a - b - c,
    ;
}

} // verus!
