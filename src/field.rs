//! Arithmetic modulo a prime whose top bit fills its integer width.
use vstd::prelude::*;
use vstd::arithmetic::div_mod::*;
use vstd::arithmetic::mul::*;
use vstd::arithmetic::power::*;
use crate::bigint::{Uint, limb_base, limbs_val, pow2n, pow_limb, lemma_limbs_val_bound, lemma_limbs_val_take, lemma_pow2n_64, lemma_pow_limb_pos};

verus! {

/// `(a * x % p + a * y % p) % p == a * (x + y) % p`.
pub proof fn lemma_mod_add_mul(a: int, x: int, y: int, p: int)
    requires
        p > 0,
    ensures
        ((a * x) % p + (a * y) % p) % p == (a * (x + y)) % p,
{
    lemma_add_mod_noop(a * x, a * y, p);
    lemma_mul_is_distributive_add(a, x, y);
}

/// `(v^x % p) * (v^y % p) % p == v^(x + y) % p`.
pub proof fn lemma_mod_pow_mul(v: int, x: nat, y: nat, p: int)
    requires
        p > 0,
    ensures
        ((pow(v, x) % p) * (pow(v, y) % p)) % p == pow(v, x + y) % p,
{
    lemma_mul_mod_noop(pow(v, x), pow(v, y), p);
    lemma_pow_adds(v, x, y);
}

proof fn lemma_bit_step(low: int, cur: int, pw: int, bit: int)
    requires
        cur == 2 * (cur / 2) + bit,
    ensures
        low + bit * pw + (cur / 2) * (2 * pw) == low + cur * pw,
{
    assert(low + bit * pw + (cur / 2) * (2 * pw) == low + cur * pw) by (nonlinear_arith)
        requires
            cur == 2 * (cur / 2) + bit,
    ;
}

proof fn lemma_prefix_step(v: int, low: int, pj: int, pw: int)
    ensures
        v + (low + pw) * pj == (v + low * pj) + pj * pw,
        pj * (2 * pw) == (pj * pw) + (pj * pw),
{
    assert(v + (low + pw) * pj == (v + low * pj) + pj * pw) by (nonlinear_arith);
    assert(pj * (2 * pw) == (pj * pw) + (pj * pw)) by (nonlinear_arith);
}

/// The integers modulo `p`, where `p` is an integer of `width` limbs whose top bit is set.
/// An element is an integer of the same width below `p`.
pub struct Field {
    pub p: Uint,
}

impl Field {
    pub open spec fn modulus(&self) -> nat {
        self.p.val()
    }

    pub open spec fn wf(&self) -> bool {
        &&& 0 < self.p.width() <= 64
        &&& self.p.val() > 2
    }

    pub open spec fn elem(&self, a: Uint) -> bool {
        &&& a.width() == self.p.width()
        &&& a.val() < self.p.val()
    }

    pub fn width(&self) -> (r: usize)
        ensures
            r == self.p.width(),
    {
        self.p.limbs.len()
    }

    pub fn zero(&self) -> (r: Uint)
        requires
            self.wf(),
        ensures
            self.elem(r),
            r.val() == 0,
    {
        proof { lemma_pow_limb_pos(self.p.width()); }
        Uint::from_u64(0, self.p.limbs.len())
    }

    pub fn one(&self) -> (r: Uint)
        requires
            self.wf(),
        ensures
            self.elem(r),
            r.val() == 1,
    {
        proof { lemma_pow_limb_ge(self.p.width()); }
        Uint::from_u64(1, self.p.limbs.len())
    }

    /// Whether the top bit of `p` is set, as `from_i` needs.
    pub open spec fn top_bit(&self) -> bool {
        self.p.val() * 2 >= pow_limb(self.p.width())
    }

    /// Reduces an integer of the field's width modulo `p`, whose top bit is set.
    pub fn from_i(&self, v: &Uint) -> (r: Uint)
        requires
            self.wf(),
            self.top_bit(),
            v.width() == self.p.width(),
        ensures
            self.elem(r),
            r.val() == v.val() % self.modulus(),
    {
        proof {
            lemma_limbs_val_bound(v.limbs@);
            lemma_pow_limb_pos(self.p.width());
        }
        if v.lt(&self.p) {
            proof { lemma_small_mod(v.val(), self.modulus()); }
            v.copy()
        } else {
            let (d, _) = v.sub_borrow(&self.p);
            proof {
                lemma_fundamental_div_mod_converse(v.val() as int, self.modulus() as int, 1, d.val() as int);
            }
            d
        }
    }

    /// `(a + b) mod p`.
    pub fn add(&self, a: &Uint, b: &Uint) -> (r: Uint)
        requires
            self.wf(),
            self.elem(*a),
            self.elem(*b),
        ensures
            self.elem(r),
            r.val() == (a.val() + b.val()) % self.modulus(),
    {
        let (s, c) = a.add_carry(b);
        proof {
            lemma_limbs_val_bound(s.limbs@);
            lemma_limbs_val_bound(self.p.limbs@);
        }
        let ghost p = self.modulus() as int;
        if c || !s.lt(&self.p) {
            let (d, _) = s.sub_borrow(&self.p);
            proof {
                lemma_limbs_val_bound(d.limbs@);
                lemma_fundamental_div_mod_converse((a.val() + b.val()) as int, p, 1, d.val() as int);
            }
            d
        } else {
            proof { lemma_small_mod(s.val(), p as nat); }
            s
        }
    }

    /// `(a - b) mod p`.
    pub fn sub(&self, a: &Uint, b: &Uint) -> (r: Uint)
        requires
            self.wf(),
            self.elem(*a),
            self.elem(*b),
        ensures
            self.elem(r),
            r.val() == (a.val() - b.val()) % (self.modulus() as int),
    {
        let (d, borrow) = a.sub_borrow(b);
        let ghost p = self.modulus() as int;
        proof {
            lemma_limbs_val_bound(d.limbs@);
        }
        if borrow {
            let (e, _) = d.add_carry(&self.p);
            proof {
                lemma_limbs_val_bound(e.limbs@);
                lemma_fundamental_div_mod_converse(a.val() - b.val(), p, -1, e.val() as int);
            }
            e
        } else {
            proof { lemma_small_mod(d.val(), p as nat); }
            d
        }
    }

    /// `2a mod p`.
    pub fn double(&self, a: &Uint) -> (r: Uint)
        requires
            self.wf(),
            self.elem(*a),
        ensures
            self.elem(r),
            r.val() == (2 * a.val()) % self.modulus(),
    {
        self.add(a, a)
    }

    /// `3a mod p`.
    pub fn times_three(&self, a: &Uint) -> (r: Uint)
        requires
            self.wf(),
            self.elem(*a),
        ensures
            self.elem(r),
            r.val() == (3 * a.val()) % self.modulus(),
    {
        let d = self.double(a);
        let r = self.add(&d, a);
        proof {
            let p = self.modulus() as int;
            lemma_small_mod(a.val(), p as nat);
            lemma_add_mod_noop((2 * a.val()) as int, a.val() as int, p);
        }
        r
    }

    /// `4a mod p`.
    pub fn times_four(&self, a: &Uint) -> (r: Uint)
        requires
            self.wf(),
            self.elem(*a),
        ensures
            self.elem(r),
            r.val() == (4 * a.val()) % self.modulus(),
    {
        let d = self.double(a);
        let r = self.double(&d);
        proof {
            let p = self.modulus() as int;
            lemma_mul_mod_noop_right(2, (2 * a.val()) as int, p);
        }
        r
    }

    /// `8a mod p`.
    pub fn times_eight(&self, a: &Uint) -> (r: Uint)
        requires
            self.wf(),
            self.elem(*a),
        ensures
            self.elem(r),
            r.val() == (8 * a.val()) % self.modulus(),
    {
        let d = self.times_four(a);
        let r = self.double(&d);
        proof {
            let p = self.modulus() as int;
            lemma_mul_mod_noop_right(2, (4 * a.val()) as int, p);
        }
        r
    }

    /// `a * b mod p`, by doubling and adding over the bits of `b`.
    pub fn mul(&self, a: &Uint, b: &Uint) -> (r: Uint)
        requires
            self.wf(),
            self.elem(*a),
            self.elem(*b),
        ensures
            self.elem(r),
            r.val() == (a.val() * b.val()) % self.modulus(),
    {
        let n = self.p.limbs.len();
        let ghost p = self.modulus() as int;
        let ghost av = a.val() as int;
        let mut acc = self.zero();
        let mut base = a.copy();
        proof {
            assert(b.limbs@.take(0) =~= Seq::<u64>::empty());
            assert(limbs_val(b.limbs@.take(0)) == 0);
            assert(pow_limb(0) == 1);
            lemma_small_mod(a.val(), p as nat);
        }
        let mut j: usize = 0;
        while j < n
            invariant
                self.wf(),
                self.elem(*a),
                self.elem(*b),
                n == self.p.width(),
                p == self.modulus(),
                av == a.val(),
                j <= n,
                self.elem(acc),
                self.elem(base),
                acc.val() == (av * limbs_val(b.limbs@.take(j as int))) % p,
                base.val() == (av * pow_limb(j as nat)) % p,
            decreases n - j,
        {
            let w: u64 = b.limbs[j];
            let mut cur: u64 = w;
            let ghost mut low: int = 0;
            let ghost mut pw: int = 1;
            let ghost prefix = limbs_val(b.limbs@.take(j as int)) as int;
            let ghost pj = pow_limb(j as nat) as int;
            let mut t: usize = 0;
            proof {
                assert(pow2n(0) == 1);
            }
            while t < 64
                invariant
                    self.wf(),
                    self.elem(*a),
                    self.elem(*b),
                    p == self.modulus(),
                    av == a.val(),
                    self.elem(acc),
                    self.elem(base),
                    t <= 64,
                    low >= 0,
                    low + cur * pw == w,
                    pw == pow2n(t as nat),
                    acc.val() == (av * (prefix + low * pj)) % p,
                    base.val() == (av * (pj * pw)) % p,
                decreases 64 - t,
            {
                let bit: u64 = cur & 1;
                proof {
                    assert(bit == cur % 2) by (bit_vector)
                        requires
                            bit == cur & 1,
                    ;
                    assert(cur >> 1 == cur / 2) by (bit_vector);
                    lemma_bit_step(low, cur as int, pw, bit as int);
                    lemma_prefix_step(prefix, low, pj, pw);
                    lemma_mod_add_mul(av, prefix + low * pj, pj * pw, p);
                    lemma_mod_add_mul(av, pj * pw, pj * pw, p);
                }
                if bit == 1 {
                    acc = self.add(&acc, &base);
                }
                base = self.add(&base, &base);
                cur = cur >> 1;
                proof {
                    low = low + bit * pw;
                    pw = 2 * pw;
                }
                t = t + 1;
            }
            proof {
                lemma_pow2n_64();
                lemma_limbs_val_take(b.limbs@, j as int);
                lemma_mul_is_commutative(pj, limb_base() as int);
                lemma_mul_is_commutative(w as int, pj);
                if cur > 0 {
                    lemma_mul_inequality(1, cur as int, pw);
                }
            }
            j = j + 1;
        }
        proof {
            assert(b.limbs@.take(n as int) =~= b.limbs@);
        }
        acc
    }

    /// `v^e mod p`, by squaring and multiplying over the bits of `e`.
    pub fn pow(&self, v: &Uint, e: &Uint) -> (r: Uint)
        requires
            self.wf(),
            self.elem(*v),
        ensures
            self.elem(r),
            r.val() == pow(v.val() as int, e.val()) % (self.modulus() as int),
    {
        let n = e.limbs.len();
        let ghost p = self.modulus() as int;
        let ghost vv = v.val() as int;
        let mut acc = self.one();
        let mut base = v.copy();
        proof {
            assert(e.limbs@.take(0) =~= Seq::<u64>::empty());
            assert(limbs_val(e.limbs@.take(0)) == 0);
            assert(pow_limb(0) == 1);
            lemma_small_mod(v.val(), p as nat);
            lemma_small_mod(1, p as nat);
            lemma_pow0(vv);
            lemma_pow1(vv);
        }
        let mut j: usize = 0;
        while j < n
            invariant
                self.wf(),
                self.elem(*v),
                n == e.limbs@.len(),
                p == self.modulus(),
                vv == v.val(),
                j <= n,
                self.elem(acc),
                self.elem(base),
                acc.val() == pow(vv, limbs_val(e.limbs@.take(j as int))) % p,
                base.val() == pow(vv, pow_limb(j as nat)) % p,
            decreases n - j,
        {
            let w: u64 = e.limbs[j];
            let mut cur: u64 = w;
            let ghost mut low: int = 0;
            let ghost mut pw: int = 1;
            let ghost prefix = limbs_val(e.limbs@.take(j as int)) as int;
            let ghost pj = pow_limb(j as nat) as int;
            let mut t: usize = 0;
            proof {
                assert(pow2n(0) == 1);
                lemma_pow_limb_pos(j as nat);
            }
            while t < 64
                invariant
                    self.wf(),
                    self.elem(*v),
                    p == self.modulus(),
                    vv == v.val(),
                    self.elem(acc),
                    self.elem(base),
                    t <= 64,
                    low >= 0,
                    pw >= 1,
                    pj >= 1,
                    prefix >= 0,
                    low + cur * pw == w,
                    pw == pow2n(t as nat),
                    acc.val() == pow(vv, (prefix + low * pj) as nat) % p,
                    base.val() == pow(vv, (pj * pw) as nat) % p,
                decreases 64 - t,
            {
                let bit: u64 = cur & 1;
                proof {
                    assert(bit == cur % 2) by (bit_vector)
                        requires
                            bit == cur & 1,
                    ;
                    assert(cur >> 1 == cur / 2) by (bit_vector);
                    lemma_bit_step(low, cur as int, pw, bit as int);
                    lemma_prefix_step(prefix, low, pj, pw);
                    lemma_nonneg_products(low, pj, pw);
                    lemma_mod_pow_mul(vv, (prefix + low * pj) as nat, (pj * pw) as nat, p);
                    lemma_mod_pow_mul(vv, (pj * pw) as nat, (pj * pw) as nat, p);
                }
                if bit == 1 {
                    acc = self.mul(&acc, &base);
                }
                base = self.mul(&base, &base);
                cur = cur >> 1;
                proof {
                    low = low + bit * pw;
                    pw = 2 * pw;
                }
                t = t + 1;
            }
            proof {
                lemma_pow2n_64();
                lemma_limbs_val_take(e.limbs@, j as int);
                lemma_mul_is_commutative(pj, limb_base() as int);
                lemma_mul_is_commutative(w as int, pj);
                if cur > 0 {
                    lemma_mul_inequality(1, cur as int, pw);
                }
            }
            j = j + 1;
        }
        proof {
            assert(e.limbs@.take(n as int) =~= e.limbs@);
        }
        acc
    }

    /// The inverse of `v` modulo `p`, as `v^(p - 2)`, which for a prime `p` and `v` not
    /// divisible by it is the unique `w` with `w * v == 1 (mod p)`. The result is checked,
    /// so the call fails exactly when that power is no inverse (always when `p` divides `v`).
    pub fn from_modinv_of(&self, v: &Uint) -> (r: Result<Uint, ()>)
        requires
            self.wf(),
            self.top_bit(),
            v.width() == self.p.width(),
        ensures
            r is Ok <==> (modinv_candidate(v.val(), self.modulus()) * v.val()) % self.modulus() == 1,
            r matches Ok(w) ==> self.elem(w) && w.val() == modinv_candidate(v.val(), self.modulus()),
            r matches Ok(w) ==> (w.val() * v.val()) % self.modulus() == 1,
            v.val() % self.modulus() == 0 ==> r is Err,
    {
        let ghost p = self.modulus() as int;
        let vm = self.from_i(v);
        let two = Uint::from_u64(2, self.p.limbs.len());
        let (e, _) = self.p.sub_borrow(&two);
        proof {
            lemma_pow_limb_ge(self.p.width());
            lemma_limbs_val_bound(e.limbs@);
        }
        let w = self.pow(&vm, &e);
        let check = self.mul(&w, &vm);
        let one = self.one();
        proof {
            lemma_mul_mod_noop_right(w.val() as int, v.val() as int, p);
            if vm.val() == 0 {
                assert(w.val() * vm.val() == 0);
                lemma_small_mod(0, p as nat);
            }
        }
        if check.eq(&one) {
            Ok(w)
        } else {
            Err(())
        }
    }

    /// `a^2 mod p`.
    pub fn square(&self, a: &Uint) -> (r: Uint)
        requires
            self.wf(),
            self.elem(*a),
        ensures
            self.elem(r),
            r.val() == (a.val() * a.val()) % self.modulus(),
    {
        self.mul(a, a)
    }
}

/// The candidate inverse `(v mod p)^(p - 2) mod p`.
pub open spec fn modinv_candidate(v: nat, p: nat) -> nat {
    (pow((v % p) as int, (p - 2) as nat) % (p as int)) as nat
}

proof fn lemma_nonneg_products(low: int, pj: int, pw: int)
    requires
        low >= 0,
        pj >= 1,
        pw >= 1,
    ensures
        low * pj >= 0,
        pj * pw >= 1,
        (low + pw) * pj >= 0,
{
    assert(low * pj >= 0) by (nonlinear_arith)
        requires
            low >= 0,
            pj >= 1,
    ;
    assert(pj * pw >= 1) by (nonlinear_arith)
        requires
            pw >= 1,
            pj >= 1,
    ;
    assert((low + pw) * pj >= 0) by (nonlinear_arith)
        requires
            low >= 0,
            pw >= 1,
            pj >= 1,
    ;
}

pub proof fn lemma_pow_limb_ge(k: nat)
    requires
        k > 0,
    ensures
        pow_limb(k) >= limb_base(),
{
    lemma_pow_limb_pos((k - 1) as nat);
    lemma_mul_inequality(1, pow_limb((k - 1) as nat) as int, limb_base() as int);
    lemma_mul_is_commutative(pow_limb((k - 1) as nat) as int, limb_base() as int);
}

} // verus!
