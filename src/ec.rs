//! Short-Weierstrass curves with `a = -3` over prime fields, points in Jacobian
//! coordinates, and ECDSA verification.
use vstd::prelude::*;
use crate::bigint::{Uint, be_val, limbs_val, pow_limb, to_limbs, lemma_to_limbs_unique, lemma_limbs_val_bound, lemma_pow_limb_pos};
use crate::field::{Field, modinv_candidate, lemma_pow_limb_ge};

verus! {

/// `(a + b) mod p`.
pub open spec fn fadd(a: nat, b: nat, p: nat) -> nat {
    (a + b) % p
}

/// `(a - b) mod p`.
pub open spec fn fsub(a: nat, b: nat, p: nat) -> nat {
    ((a - b) % (p as int)) as nat
}

/// `a * b mod p`.
pub open spec fn fmul(a: nat, b: nat, p: nat) -> nat {
    (a * b) % p
}

/// `k * a mod p`.
pub open spec fn fk(k: nat, a: nat, p: nat) -> nat {
    (k * a) % p
}

/// Jacobian coordinates `(x, y, z)`.
pub type Jac = (nat, nat, nat);

/// Doubling by dbl-2001-b (valid for `a = -3`); `None` when `y` or `z` is zero.
pub open spec fn double_spec(q: Jac, p: nat) -> Option<Jac> {
    let (x, y, z) = q;
    if y == 0 || z == 0 {
        None
    } else {
        let delta = fmul(z, z, p);
        let gamma = fmul(y, y, p);
        let beta = fmul(x, gamma, p);
        let alpha = fmul(fk(3, fsub(x, delta, p), p), fadd(x, delta, p), p);
        let x3 = fsub(fmul(alpha, alpha, p), fk(8, beta, p), p);
        let y3 = fsub(fmul(alpha, fsub(fk(4, beta, p), x3, p), p), fk(8, fmul(gamma, gamma, p), p), p);
        let z3 = fsub(fsub(fmul(fadd(y, z, p), fadd(y, z, p), p), gamma, p), delta, p);
        Some((x3, y3, z3))
    }
}

/// Addition by add-2007-bl. Equal affine points fall back to doubling; opposite
/// ones (the point at infinity) give `None`.
pub open spec fn add_spec(q1: Jac, q2: Jac, p: nat) -> Option<Jac> {
    let (x1, y1, z1) = q1;
    let (x2, y2, z2) = q2;
    let z2z2 = fmul(z2, z2, p);
    let z1z1 = fmul(z1, z1, p);
    let u1 = fmul(x1, z2z2, p);
    let u2 = fmul(x2, z1z1, p);
    let s1 = fmul(y1, fmul(z2, z2z2, p), p);
    let s2 = fmul(y2, fmul(z1, z1z1, p), p);
    if u1 == u2 {
        if s1 != s2 {
            None
        } else {
            double_spec(q1, p)
        }
    } else {
        let h = fsub(u2, u1, p);
        let i = fmul(fk(2, h, p), fk(2, h, p), p);
        let j = fmul(h, i, p);
        let r = fk(2, fsub(s2, s1, p), p);
        let v = fmul(u1, i, p);
        let x3 = fsub(fsub(fmul(r, r, p), j, p), fk(2, v, p), p);
        let y3 = fsub(fmul(r, fsub(v, x3, p), p), fmul(fk(2, s1, p), j, p), p);
        let z3 = fmul(fsub(fsub(fmul(fadd(z1, z2, p), fadd(z1, z2, p), p), z1z1, p), z2z2, p), h, p);
        Some((x3, y3, z3))
    }
}

/// Adding a point to itself gives the same point as doubling it.
pub proof fn lemma_add_self_is_double(q: Jac, p: nat)
    ensures
        add_spec(q, q, p) == double_spec(q, p),
{
}

/// Whether affine `(x, y)` satisfies `y^2 = x^3 + a x + b (mod p)`.
pub open spec fn on_curve_spec(x: nat, y: nat, a: nat, b: nat, p: nat) -> bool {
    fmul(y, y, p) == fadd(fadd(fmul(fmul(x, x, p), x, p), fmul(a, x, p), p), b, p)
}

/// Bit `t` of the number held in little-endian limbs `s`.
pub open spec fn bit_at(s: Seq<u64>, t: nat) -> bool {
    (s[(t / 64) as int] >> ((t % 64) as u64)) & 1u64 == 1u64
}

/// Adds `q` into an accumulator: an unset accumulator takes `q` as it is.
pub open spec fn add_into(st: Option<Option<Jac>>, q: Jac, p: nat) -> Option<Option<Jac>> {
    match st {
        None => None,
        Some(None) => Some(Some(q)),
        Some(Some(a)) => match add_spec(a, q, p) {
            Some(s) => Some(Some(s)),
            None => None,
        },
    }
}

/// One step of the simultaneous double-and-add: double, then add `qi` if `ib`,
/// then add `qj` if `jb`. `None` is failure (a point at infinity was met);
/// `Some(None)` an accumulator that is not set yet.
pub open spec fn mul_step(
    st: Option<Option<Jac>>,
    ib: bool,
    jb: bool,
    qi: Jac,
    qj: Jac,
    p: nat,
) -> Option<Option<Jac>> {
    let s1 = match st {
        None => None,
        Some(None) => Some(None),
        Some(Some(a)) => match double_spec(a, p) {
            Some(d) => Some(Some(d)),
            None => None,
        },
    };
    let s2 = if ib {
        add_into(s1, qi, p)
    } else {
        s1
    };
    if jb {
        add_into(s2, qj, p)
    } else {
        s2
    }
}

/// The accumulator of `i * qi + j * qj` after the top `m` bits of the scalars.
pub open spec fn ladder(i: Seq<u64>, j: Seq<u64>, qi: Jac, qj: Jac, p: nat, m: nat) -> Option<Option<Jac>>
    decreases m,
{
    if m == 0 {
        Some(None)
    } else {
        let t = (64 * i.len() - m) as nat;
        mul_step(ladder(i, j, qi, qj, p, (m - 1) as nat), bit_at(i, t), bit_at(j, t), qi, qj, p)
    }
}

/// `i * qi + j * qj` over all bits of the scalars; `None` where a scalar is zero or
/// a point at infinity was met on the way.
pub open spec fn two_mul_spec(i: Seq<u64>, j: Seq<u64>, qi: Jac, qj: Jac, p: nat) -> Option<Jac> {
    if limbs_val(i) == 0 || limbs_val(j) == 0 {
        None
    } else {
        match ladder(i, j, qi, qj, p, 64 * i.len()) {
            Some(Some(q)) => Some(q),
            _ => None,
        }
    }
}

pub proof fn lemma_ladder_failed_stays(i: Seq<u64>, j: Seq<u64>, qi: Jac, qj: Jac, p: nat, m: nat, k: nat)
    requires
        m <= k,
        ladder(i, j, qi, qj, p, m) is None,
    ensures
        ladder(i, j, qi, qj, p, k) is None,
    decreases k - m,
{
    if m < k {
        lemma_ladder_failed_stays(i, j, qi, qj, p, m, (k - 1) as nat);
    }
}

/// A point in Jacobian coordinates: affine `(x / z^2, y / z^3)`, with `z = 0` the
/// point at infinity.
pub struct Point {
    pub x: Uint,
    pub y: Uint,
    pub z: Uint,
}

pub open spec fn res_coords(r: Result<Point, ()>) -> Option<Jac> {
    match r {
        Ok(q) => Some(q.coords()),
        Err(_) => None,
    }
}

/// A curve `y^2 = x^3 + a x + b` over the field `coord`, whose base point `g`
/// generates a group of prime order, the modulus of `scalar`.
pub struct Curve {
    pub coord: Field,
    pub scalar: Field,
    pub a: Uint,
    pub b: Uint,
    pub g: Point,
}

impl Curve {
    pub open spec fn pm(&self) -> nat {
        self.coord.modulus()
    }

    pub open spec fn nm(&self) -> nat {
        self.scalar.modulus()
    }

    /// Whether the coordinates of `q` are field elements.
    pub open spec fn holds(&self, q: Point) -> bool {
        &&& self.coord.elem(q.x)
        &&& self.coord.elem(q.y)
        &&& self.coord.elem(q.z)
    }

    pub open spec fn wf(&self) -> bool {
        &&& self.coord.wf()
        &&& self.scalar.wf()
        &&& self.coord.top_bit()
        &&& self.scalar.top_bit()
        &&& self.coord.p.width() == self.scalar.p.width()
        &&& self.nm() < self.pm()
        &&& self.coord.elem(self.a)
        &&& self.a.val() + 3 == self.pm()
        &&& self.coord.elem(self.b)
        &&& self.holds(self.g)
        &&& self.g.z.val() == 1
    }

    /// Width of a coordinate or scalar in bytes.
    pub open spec fn byte_len(&self) -> nat {
        8 * self.coord.p.width()
    }

    /// Whether an ECDSA signature `sig` (r then s) by the key `pk` (x then y) is
    /// valid for the digest `h` on this curve.
    pub open spec fn ecdsa_accepts(&self, pk: Seq<u8>, sig: Seq<u8>, h: Seq<u8>) -> bool {
        ecdsa_accepts_with(
            self.coord.p.width(),
            self.pm(),
            self.nm(),
            self.a.val(),
            self.b.val(),
            self.g.coords(),
            pk,
            sig,
            h,
        )
    }
}

/// Whether an ECDSA signature `sig` (r then s) by the key `pk` (x then y) is valid
/// for the digest `h`, on the curve of `k` limbs with coordinate modulus `p`, group
/// order `n`, coefficients `a` and `b`, and base point `g`.
pub open spec fn ecdsa_accepts_with(
    k: nat,
    p: nat,
    n: nat,
    a: nat,
    b: nat,
    g: Jac,
    pk: Seq<u8>,
    sig: Seq<u8>,
    h: Seq<u8>,
) -> bool {
    let w = 8 * k;
    let x = be_val(pk.subrange(0, w as int)) % p;
    let y = be_val(pk.subrange(w as int, 2 * w as int)) % p;
    let r = be_val(sig.subrange(0, w as int));
    let s = be_val(sig.subrange(w as int, 2 * w as int));
    let sinv = modinv_candidate(s, n);
    let z = be_val(h.subrange(0, w as int)) % n;
    let ua = fmul(z, sinv, n);
    let ub = fmul(r % n, sinv, n);
    &&& pk.len() == 2 * w
    &&& sig.len() == 2 * w
    &&& h.len() >= w
    &&& on_curve_spec(x, y, a, b, p)
    &&& 0 < r < n
    &&& 0 < s < n
    &&& (sinv * s) % n == 1
    &&& match two_mul_spec(to_limbs(ua, k), to_limbs(ub, k), g, (x, y, 1), p) {
        Some(v) => v.2 != 0 && v.0 == fmul(fmul(r % p, v.2, p), v.2, p),
        None => false,
    }
}

impl Point {
    pub open spec fn coords(&self) -> Jac {
        (self.x.val(), self.y.val(), self.z.val())
    }

    pub fn copy(&self) -> (r: Point)
        ensures
            r.x.limbs@ == self.x.limbs@,
            r.y.limbs@ == self.y.limbs@,
            r.z.limbs@ == self.z.limbs@,
    {
        Point { x: self.x.copy(), y: self.y.copy(), z: self.z.copy() }
    }

    /// Whether the scalar modulus lies below the coordinate modulus, as the
    /// comparison of `eq_x` needs.
    pub fn check_curve_conditions(c: &Curve) -> (r: bool)
        requires
            c.coord.p.width() == c.scalar.p.width(),
        ensures
            r == (c.nm() < c.pm()),
    {
        c.scalar.p.lt(&c.coord.p)
    }

    /// Whether affine `(x, y)` lies on the curve.
    pub fn on_curve(c: &Curve, x: &Uint, y: &Uint) -> (r: Result<(), ()>)
        requires
            c.wf(),
            c.coord.elem(*x),
            c.coord.elem(*y),
        ensures
            r is Ok <==> on_curve_spec(x.val(), y.val(), c.a.val(), c.b.val(), c.pm()),
    {
        let f = &c.coord;
        let x_2 = f.square(x);
        let x_3 = f.mul(&x_2, x);
        let ax = f.mul(&c.a, x);
        let s = f.add(&x_3, &ax);
        let v = f.add(&s, &c.b);
        let y_2 = f.square(y);
        if !y_2.eq(&v) {
            Err(())
        } else {
            Ok(())
        }
    }

    /// Whether the Jacobian point `(x, y, z)` lies on the curve; fails where `z`
    /// has no inverse.
    pub fn on_curve_z(c: &Curve, x: &Uint, y: &Uint, z: &Uint) -> (r: Result<(), ()>)
        requires
            c.wf(),
            c.coord.elem(*x),
            c.coord.elem(*y),
            c.coord.elem(*z),
        ensures
            r is Ok <==> {
                let p = c.pm();
                let m = modinv_candidate(z.val(), p);
                let m2 = fmul(m, m, p);
                &&& (m * z.val()) % p == 1
                &&& on_curve_spec(fmul(x.val(), m2, p), fmul(y.val(), fmul(m2, m, p), p), c.a.val(), c.b.val(), p)
            },
    {
        let f = &c.coord;
        let m = f.from_modinv_of(z)?;
        let m_2 = f.square(&m);
        let m_3 = f.mul(&m_2, &m);
        let x_norm = f.mul(x, &m_2);
        let y_norm = f.mul(y, &m_3);
        Self::on_curve(c, &x_norm, &y_norm)
    }

    /// The affine x coordinate, `x / z^2`; fails where `z` has no inverse.
    pub fn normalize_x(&self, c: &Curve) -> (r: Result<Uint, ()>)
        requires
            c.wf(),
            c.holds(*self),
        ensures
            r is Ok <==> (modinv_candidate(self.z.val(), c.pm()) * self.z.val()) % c.pm() == 1,
            r matches Ok(v) ==> c.coord.elem(v) && v.val() == fmul(
                self.x.val(),
                fmul(modinv_candidate(self.z.val(), c.pm()), modinv_candidate(self.z.val(), c.pm()), c.pm()),
                c.pm(),
            ),
    {
        let f = &c.coord;
        let m = f.from_modinv_of(&self.z)?;
        let m2 = f.square(&m);
        Ok(f.mul(&self.x, &m2))
    }

    /// The affine point `(x mod p, y mod p)`; fails where it is not on the curve.
    pub fn from_xy(c: &Curve, x: &Uint, y: &Uint) -> (r: Result<Point, ()>)
        requires
            c.wf(),
            x.width() == c.coord.p.width(),
            y.width() == c.coord.p.width(),
        ensures
            r is Ok <==> on_curve_spec(x.val() % c.pm(), y.val() % c.pm(), c.a.val(), c.b.val(), c.pm()),
            r matches Ok(q) ==> c.holds(q) && q.coords() == (x.val() % c.pm(), y.val() % c.pm(), 1nat),
    {
        let _ = Self::check_curve_conditions(c);
        let f = &c.coord;
        let x = f.from_i(x);
        let y = f.from_i(y);
        Self::on_curve(c, &x, &y)?;
        Ok(Point { x, y, z: f.one() })
    }

    fn from_xy_assuming_on_curve_raw(f: &Field, x: Uint, y: Uint) -> (r: Point)
        requires
            f.wf(),
            f.elem(x),
            f.elem(y),
        ensures
            f.elem(r.x) && f.elem(r.y) && f.elem(r.z),
            r.coords() == (x.val(), y.val(), 1nat),
    {
        Point { x, y, z: f.one() }
    }

    /// The affine point `(x, y)`, taken to be on the curve.
    pub fn from_xy_assuming_on_curve(c: &Curve, x: Uint, y: Uint) -> (r: Point)
        requires
            c.wf(),
            c.coord.elem(x),
            c.coord.elem(y),
        ensures
            c.holds(r),
            r.coords() == (x.val(), y.val(), 1nat),
    {
        Self::from_xy_assuming_on_curve_raw(&c.coord, x, y)
    }

    /// Whether the affine x coordinate equals `expected_x`, tested as
    /// `x == expected_x * z^2` without an inversion. Fails for the point at infinity.
    pub fn eq_x(&self, c: &Curve, expected_x: &Uint) -> (r: Result<(), ()>)
        requires
            c.wf(),
            c.holds(*self),
            c.scalar.elem(*expected_x),
        ensures
            r is Ok <==> self.z.val() != 0 && self.x.val() == fmul(
                fmul(expected_x.val() % c.pm(), self.z.val(), c.pm()),
                self.z.val(),
                c.pm(),
            ),
    {
        let f = &c.coord;
        let e = f.from_i(expected_x);
        if self.z.is_zero() {
            return Err(());
        }
        let ez = f.mul(&e, &self.z);
        let ezz = f.mul(&ez, &self.z);
        if self.x.eq(&ezz) {
            Ok(())
        } else {
            Err(())
        }
    }

    /// Doubles the point; fails where `y` or `z` is zero.
    pub fn double(&self, c: &Curve) -> (r: Result<Point, ()>)
        requires
            c.wf(),
            c.holds(*self),
        ensures
            res_coords(r) == double_spec(self.coords(), c.pm()),
            r matches Ok(q) ==> c.holds(q),
    {
        if self.y.is_zero() {
            return Err(());
        }
        if self.z.is_zero() {
            return Err(());
        }
        let f = &c.coord;
        let delta = f.square(&self.z);
        let gamma = f.square(&self.y);
        let beta = f.mul(&self.x, &gamma);
        let xmd = f.sub(&self.x, &delta);
        let xmd3 = f.times_three(&xmd);
        let xpd = f.add(&self.x, &delta);
        let alpha = f.mul(&xmd3, &xpd);
        let alpha2 = f.square(&alpha);
        let beta8 = f.times_eight(&beta);
        let x = f.sub(&alpha2, &beta8);
        let beta4 = f.times_four(&beta);
        let b4mx = f.sub(&beta4, &x);
        let t1 = f.mul(&alpha, &b4mx);
        let gamma2 = f.square(&gamma);
        let gamma8 = f.times_eight(&gamma2);
        let y = f.sub(&t1, &gamma8);
        let ypz = f.add(&self.y, &self.z);
        let ypz2 = f.square(&ypz);
        let t2 = f.sub(&ypz2, &gamma);
        let z = f.sub(&t2, &delta);
        Ok(Point { x, y, z })
    }

    /// Adds two points; equal points are doubled, and opposite ones (whose sum is
    /// the point at infinity) fail.
    pub fn add(&self, c: &Curve, o: &Point) -> (r: Result<Point, ()>)
        requires
            c.wf(),
            c.holds(*self),
            c.holds(*o),
        ensures
            res_coords(r) == add_spec(self.coords(), o.coords(), c.pm()),
            r matches Ok(q) ==> c.holds(q),
    {
        let f = &c.coord;
        let o_z_2 = f.square(&o.z);
        let self_z_2 = f.square(&self.z);
        let u1 = f.mul(&self.x, &o_z_2);
        let u2 = f.mul(&o.x, &self_z_2);
        let oz3 = f.mul(&o.z, &o_z_2);
        let s1 = f.mul(&self.y, &oz3);
        let sz3 = f.mul(&self.z, &self_z_2);
        let s2 = f.mul(&o.y, &sz3);
        if u1.eq(&u2) {
            if !s1.eq(&s2) {
                return Err(());
            }
            return self.double(c);
        }
        let h = f.sub(&u2, &u1);
        let h2 = f.double(&h);
        let i = f.square(&h2);
        let j = f.mul(&h, &i);
        let s2ms1 = f.sub(&s2, &s1);
        let r = f.double(&s2ms1);
        let v = f.mul(&u1, &i);
        let r2 = f.square(&r);
        let r2mj = f.sub(&r2, &j);
        let v2 = f.double(&v);
        let x = f.sub(&r2mj, &v2);
        let vmx = f.sub(&v, &x);
        let t1 = f.mul(&r, &vmx);
        let s1d = f.double(&s1);
        let t2 = f.mul(&s1d, &j);
        let y = f.sub(&t1, &t2);
        let zs = f.add(&self.z, &o.z);
        let zs2 = f.square(&zs);
        let t3 = f.sub(&zs2, &self_z_2);
        let t4 = f.sub(&t3, &o_z_2);
        let z = f.mul(&t4, &h);
        Ok(Point { x, y, z })
    }
}

/// Adds `q` into the accumulator of `add_two_mul`.
fn add_into_acc(c: &Curve, acc: Option<Point>, q: &Point) -> (r: Result<Option<Point>, ()>)
    requires
        c.wf(),
        c.holds(*q),
        acc matches Some(a) ==> c.holds(a),
    ensures
        match r {
            Ok(Some(s)) => c.holds(s) && add_into(opt_coords(acc), q.coords(), c.pm()) == Some(Some(s.coords())),
            Ok(None) => false,
            Err(_) => add_into(opt_coords(acc), q.coords(), c.pm()) is None,
        },
{
    match acc {
        None => Ok(Some(q.copy())),
        Some(a) => {
            let s = a.add(c, q)?;
            Ok(Some(s))
        },
    }
}

/// One step of `add_two_mul`: double the accumulator, then add `pi` and `pj` as the bits say.
fn ladder_step(c: &Curve, acc: Option<Point>, ib: bool, jb: bool, pi: &Point, pj: &Point) -> (r: Result<
    Option<Point>,
    (),
>)
    requires
        c.wf(),
        c.holds(*pi),
        c.holds(*pj),
        acc matches Some(a) ==> c.holds(a),
    ensures
        match r {
            Ok(s) => (s matches Some(q) ==> c.holds(q)) && mul_step(
                opt_coords(acc),
                ib,
                jb,
                pi.coords(),
                pj.coords(),
                c.pm(),
            ) == opt_coords(s),
            Err(_) => mul_step(opt_coords(acc), ib, jb, pi.coords(), pj.coords(), c.pm()) is None,
        },
{
    let mut acc = acc;
    match acc {
        Some(a) => {
            let d = a.double(c)?;
            acc = Some(d);
        },
        None => {},
    }
    if ib {
        acc = add_into_acc(c, acc, pi)?;
    }
    if jb {
        acc = add_into_acc(c, acc, pj)?;
    }
    Ok(acc)
}

pub open spec fn opt_coords(acc: Option<Point>) -> Option<Option<Jac>> {
    match acc {
        None => Some(None),
        Some(a) => Some(Some(a.coords())),
    }
}

/// `i * pi + j * pj` by simultaneous double-and-add over the bits of `i` and `j`,
/// from the top. Fails where a scalar is zero or a point at infinity is met.
pub fn add_two_mul(c: &Curve, i: &Uint, pi: &Point, j: &Uint, pj: &Point) -> (r: Result<Point, ()>)
    requires
        c.wf(),
        c.holds(*pi),
        c.holds(*pj),
        i.width() == c.coord.p.width(),
        j.width() == c.coord.p.width(),
    ensures
        res_coords(r) == two_mul_spec(i.limbs@, j.limbs@, pi.coords(), pj.coords(), c.pm()),
        r matches Ok(q) ==> c.holds(q),
{
    if i.is_zero() {
        return Err(());
    }
    if j.is_zero() {
        return Err(());
    }
    let nbits: usize = 64 * i.limbs.len();
    let ghost p = c.pm();
    let ghost qi = pi.coords();
    let ghost qj = pj.coords();
    let mut acc: Option<Point> = None;
    let mut m: usize = 0;
    while m < nbits
        invariant
            c.wf(),
            c.holds(*pi),
            c.holds(*pj),
            i.width() == c.coord.p.width(),
            j.width() == c.coord.p.width(),
            nbits == 64 * i.limbs@.len(),
            p == c.pm(),
            qi == pi.coords(),
            qj == pj.coords(),
            m <= nbits,
            acc matches Some(a) ==> c.holds(a),
            ladder(i.limbs@, j.limbs@, qi, qj, p, m as nat) == opt_coords(acc),
        decreases nbits - m,
    {
        let t: usize = nbits - 1 - m;
        let sh: u64 = (t % 64) as u64;
        let i_bit = (i.limbs[t / 64] >> sh) & 1 == 1;
        let j_bit = (j.limbs[t / 64] >> sh) & 1 == 1;
        match ladder_step(c, acc, i_bit, j_bit, pi, pj) {
            Ok(next) => {
                acc = next;
            },
            Err(_) => {
                proof {
                    lemma_ladder_failed_stays(i.limbs@, j.limbs@, qi, qj, p, (m + 1) as nat, nbits as nat);
                }
                return Err(());
            },
        }
        m = m + 1;
    }
    match acc {
        Some(a) => Ok(a),
        None => Err(()),
    }
}

/// Verifies an ECDSA signature `sig` (r then s, big-endian) by the public key `pk`
/// (affine x then y, big-endian, no prefix) over the digest `hash_input`, which is
/// truncated to the length of one coordinate and must be at least that long.
pub fn validate_ecdsa(c: &Curve, pk: &[u8], sig: &[u8], hash_input: &[u8]) -> (r: Result<(), ()>)
    requires
        c.wf(),
    ensures
        r is Ok <==> c.ecdsa_accepts(pk@, sig@, hash_input@),
        pk@.len() != 2 * c.byte_len() ==> r is Err,
        sig@.len() != 2 * c.byte_len() ==> r is Err,
        sig@.len() == 2 * c.byte_len() ==> {
            let rv = be_val(sig@.subrange(0, c.byte_len() as int));
            let sv = be_val(sig@.subrange(c.byte_len() as int, 2 * c.byte_len() as int));
            (rv == 0 || sv == 0 || rv >= c.nm() || sv >= c.nm()) ==> r is Err
        },
{
    let k = c.coord.width();
    let w: usize = 8 * k;
    if pk.len() != 2 * w {
        return Err(());
    }
    if sig.len() != 2 * w {
        return Err(());
    }
    let (r_bytes, s_bytes) = sig.split_at(w);
    let (pk_x_bytes, pk_y_bytes) = pk.split_at(w);

    let pk_x = Uint::from_be_bytes(pk_x_bytes, k)?;
    let pk_y = Uint::from_be_bytes(pk_y_bytes, k)?;
    let pk_pt = Point::from_xy(c, &pk_x, &pk_y)?;

    let r_int = Uint::from_be_bytes(r_bytes, k)?;
    if r_int.is_zero() || !r_int.lt(&c.scalar.p) {
        return Err(());
    }
    let s_int = Uint::from_be_bytes(s_bytes, k)?;
    if s_int.is_zero() || !s_int.lt(&c.scalar.p) {
        return Err(());
    }

    let r = c.scalar.from_i(&r_int);
    let s_inv = c.scalar.from_modinv_of(&s_int)?;

    if hash_input.len() < w {
        return Err(());
    }
    let (h_bytes, _) = hash_input.split_at(w);
    let h = Uint::from_be_bytes(h_bytes, k)?;
    let z = c.scalar.from_i(&h);

    let u_a = c.scalar.mul(&z, &s_inv);
    let u_b = c.scalar.mul(&r, &s_inv);
    proof {
        lemma_to_limbs_unique(u_a.limbs@);
        lemma_to_limbs_unique(u_b.limbs@);
        vstd::arithmetic::div_mod::lemma_small_mod(r_int.val(), c.nm());
        vstd::arithmetic::div_mod::lemma_small_mod(r_int.val(), c.pm());
    }

    let v = add_two_mul(c, &u_a, &c.g, &u_b, &pk_pt)?;
    v.eq_x(c, &r)
}


/// A number whose top limb has its top bit set fills its width.
pub proof fn lemma_top_bit(s: Seq<u64>)
    requires
        s.len() > 0,
        s.last() >= 0x8000_0000_0000_0000,
    ensures
        limbs_val(s) * 2 >= pow_limb(s.len()),
{
    let k = (s.len() - 1) as nat;
    let p = pow_limb(k) as int;
    lemma_pow_limb_pos(k);
    assert(s.last() * p * 2 >= 0x1_0000_0000_0000_0000 * p) by (nonlinear_arith)
        requires
            s.last() >= 0x8000_0000_0000_0000,
            p > 0,
    ;
}

/// Comparison by the highest limb where two numbers of one width differ.
pub proof fn lemma_lt_at(s: Seq<u64>, t: Seq<u64>, k: int)
    requires
        s.len() == t.len(),
        0 <= k < s.len(),
        s[k] < t[k],
        forall|i: int| k < i < s.len() ==> s[i] == t[i],
    ensures
        limbs_val(s) < limbs_val(t),
    decreases s.len(),
{
    let n = (s.len() - 1) as nat;
    let ds = s.drop_last();
    let dt = t.drop_last();
    if k == n {
        lemma_limbs_val_bound(ds);
        let p = pow_limb(n) as int;
        let a = s.last() as int;
        let b = t.last() as int;
        assert(limbs_val(ds) + a * p < b * p) by (nonlinear_arith)
            requires
                limbs_val(ds) < p,
                a < b,
        ;
    } else {
        lemma_lt_at(ds, dt, k);
    }
}

pub open spec fn p256_p() -> nat {
    limbs_val(seq![0xFFFFFFFFFFFFFFFFu64, 0x00000000FFFFFFFF, 0x0000000000000000, 0xFFFFFFFF00000001])
}

pub open spec fn p256_n() -> nat {
    limbs_val(seq![0xF3B9CAC2FC632551u64, 0xBCE6FAADA7179E84, 0xFFFFFFFFFFFFFFFF, 0xFFFFFFFF00000000])
}

pub open spec fn p256_b() -> nat {
    limbs_val(seq![0x3BCE3C3E27D2604Bu64, 0x651D06B0CC53B0F6, 0xB3EBBD55769886BC, 0x5AC635D8AA3A93E7])
}

pub open spec fn p256_gx() -> nat {
    limbs_val(seq![0xF4A13945D898C296u64, 0x77037D812DEB33A0, 0xF8BCE6E563A440F2, 0x6B17D1F2E12C4247])
}

pub open spec fn p256_gy() -> nat {
    limbs_val(seq![0xCBB6406837BF51F5u64, 0x2BCE33576B315ECE, 0x8EE7EB4A7C0F9E16, 0x4FE342E2FE1A7F9B])
}

/// Facts on the constants of P256 that the curve's well-formedness needs.
proof fn lemma_p256_constants()
    ensures
        limbs_val(seq![0xFFFFFFFFFFFFFFFFu64, 0x00000000FFFFFFFF, 0x0000000000000000, 0xFFFFFFFF00000001]) * 2 >= pow_limb(4),
        limbs_val(seq![0xF3B9CAC2FC632551u64, 0xBCE6FAADA7179E84, 0xFFFFFFFFFFFFFFFF, 0xFFFFFFFF00000000]) * 2 >= pow_limb(4),
        limbs_val(seq![0xF3B9CAC2FC632551u64, 0xBCE6FAADA7179E84, 0xFFFFFFFFFFFFFFFF, 0xFFFFFFFF00000000]) < limbs_val(seq![0xFFFFFFFFFFFFFFFFu64, 0x00000000FFFFFFFF, 0x0000000000000000, 0xFFFFFFFF00000001]),
        limbs_val(seq![0x3BCE3C3E27D2604Bu64, 0x651D06B0CC53B0F6, 0xB3EBBD55769886BC, 0x5AC635D8AA3A93E7]) < limbs_val(seq![0xFFFFFFFFFFFFFFFFu64, 0x00000000FFFFFFFF, 0x0000000000000000, 0xFFFFFFFF00000001]),
        limbs_val(seq![0xF4A13945D898C296u64, 0x77037D812DEB33A0, 0xF8BCE6E563A440F2, 0x6B17D1F2E12C4247]) < limbs_val(seq![0xFFFFFFFFFFFFFFFFu64, 0x00000000FFFFFFFF, 0x0000000000000000, 0xFFFFFFFF00000001]),
        limbs_val(seq![0xCBB6406837BF51F5u64, 0x2BCE33576B315ECE, 0x8EE7EB4A7C0F9E16, 0x4FE342E2FE1A7F9B]) < limbs_val(seq![0xFFFFFFFFFFFFFFFFu64, 0x00000000FFFFFFFF, 0x0000000000000000, 0xFFFFFFFF00000001]),
{
    lemma_top_bit(seq![0xFFFFFFFFFFFFFFFFu64, 0x00000000FFFFFFFF, 0x0000000000000000, 0xFFFFFFFF00000001]);
    lemma_top_bit(seq![0xF3B9CAC2FC632551u64, 0xBCE6FAADA7179E84, 0xFFFFFFFFFFFFFFFF, 0xFFFFFFFF00000000]);
    lemma_lt_at(seq![0xF3B9CAC2FC632551u64, 0xBCE6FAADA7179E84, 0xFFFFFFFFFFFFFFFF, 0xFFFFFFFF00000000], seq![0xFFFFFFFFFFFFFFFFu64, 0x00000000FFFFFFFF, 0x0000000000000000, 0xFFFFFFFF00000001], 3);
    lemma_lt_at(seq![0x3BCE3C3E27D2604Bu64, 0x651D06B0CC53B0F6, 0xB3EBBD55769886BC, 0x5AC635D8AA3A93E7], seq![0xFFFFFFFFFFFFFFFFu64, 0x00000000FFFFFFFF, 0x0000000000000000, 0xFFFFFFFF00000001], 3);
    lemma_lt_at(seq![0xF4A13945D898C296u64, 0x77037D812DEB33A0, 0xF8BCE6E563A440F2, 0x6B17D1F2E12C4247], seq![0xFFFFFFFFFFFFFFFFu64, 0x00000000FFFFFFFF, 0x0000000000000000, 0xFFFFFFFF00000001], 3);
    lemma_lt_at(seq![0xCBB6406837BF51F5u64, 0x2BCE33576B315ECE, 0x8EE7EB4A7C0F9E16, 0x4FE342E2FE1A7F9B], seq![0xFFFFFFFFFFFFFFFFu64, 0x00000000FFFFFFFF, 0x0000000000000000, 0xFFFFFFFF00000001], 3);
}

impl Curve {
    /// NIST P256 (secp256r1).
    pub fn p256() -> (r: Curve)
        ensures
            r.wf(),
            r.coord.p.width() == 4,
            r.pm() == p256_p(),
            r.nm() == p256_n(),
            r.b.val() == p256_b(),
            r.g.coords() == (p256_gx(), p256_gy(), 1nat),
    {
        let p = Uint { limbs: vec![0xFFFFFFFFFFFFFFFFu64, 0x00000000FFFFFFFF, 0x0000000000000000, 0xFFFFFFFF00000001] };
        let n = Uint { limbs: vec![0xF3B9CAC2FC632551u64, 0xBCE6FAADA7179E84, 0xFFFFFFFFFFFFFFFF, 0xFFFFFFFF00000000] };
        let b = Uint { limbs: vec![0x3BCE3C3E27D2604Bu64, 0x651D06B0CC53B0F6, 0xB3EBBD55769886BC, 0x5AC635D8AA3A93E7] };
        let gx = Uint { limbs: vec![0xF4A13945D898C296u64, 0x77037D812DEB33A0, 0xF8BCE6E563A440F2, 0x6B17D1F2E12C4247] };
        let gy = Uint { limbs: vec![0xCBB6406837BF51F5u64, 0x2BCE33576B315ECE, 0x8EE7EB4A7C0F9E16, 0x4FE342E2FE1A7F9B] };
        proof {
            assert(p.limbs@ =~= seq![0xFFFFFFFFFFFFFFFFu64, 0x00000000FFFFFFFF, 0x0000000000000000, 0xFFFFFFFF00000001]);
            assert(n.limbs@ =~= seq![0xF3B9CAC2FC632551u64, 0xBCE6FAADA7179E84, 0xFFFFFFFFFFFFFFFF, 0xFFFFFFFF00000000]);
            assert(b.limbs@ =~= seq![0x3BCE3C3E27D2604Bu64, 0x651D06B0CC53B0F6, 0xB3EBBD55769886BC, 0x5AC635D8AA3A93E7]);
            assert(gx.limbs@ =~= seq![0xF4A13945D898C296u64, 0x77037D812DEB33A0, 0xF8BCE6E563A440F2, 0x6B17D1F2E12C4247]);
            assert(gy.limbs@ =~= seq![0xCBB6406837BF51F5u64, 0x2BCE33576B315ECE, 0x8EE7EB4A7C0F9E16, 0x4FE342E2FE1A7F9B]);
            lemma_p256_constants();
            lemma_pow_limb_ge(4);
        }
        let coord = Field { p };
        let scalar = Field { p: n };
        let three = Uint::from_u64(3, 4);
        let (a, _) = coord.p.sub_borrow(&three);
        let g = Point::from_xy_assuming_on_curve_raw(&coord, gx, gy);
        Curve { coord, scalar, a, b, g }
    }
}

pub open spec fn p384_p() -> nat {
    limbs_val(seq![0x00000000FFFFFFFFu64, 0xFFFFFFFF00000000, 0xFFFFFFFFFFFFFFFE, 0xFFFFFFFFFFFFFFFF, 0xFFFFFFFFFFFFFFFF, 0xFFFFFFFFFFFFFFFF])
}

pub open spec fn p384_n() -> nat {
    limbs_val(seq![0xECEC196ACCC52973u64, 0x581A0DB248B0A77A, 0xC7634D81F4372DDF, 0xFFFFFFFFFFFFFFFF, 0xFFFFFFFFFFFFFFFF, 0xFFFFFFFFFFFFFFFF])
}

pub open spec fn p384_b() -> nat {
    limbs_val(seq![0x2A85C8EDD3EC2AEFu64, 0xC656398D8A2ED19D, 0x0314088F5013875A, 0x181D9C6EFE814112, 0x988E056BE3F82D19, 0xB3312FA7E23EE7E4])
}

pub open spec fn p384_gx() -> nat {
    limbs_val(seq![0x3A545E3872760AB7u64, 0x5502F25DBF55296C, 0x59F741E082542A38, 0x6E1D3B628BA79B98, 0x8EB1C71EF320AD74, 0xAA87CA22BE8B0537])
}

pub open spec fn p384_gy() -> nat {
    limbs_val(seq![0x7A431D7C90EA0E5Fu64, 0x0A60B1CE1D7E819D, 0xE9DA3113B5F0B8C0, 0xF8F41DBD289A147C, 0x5D9E98BF9292DC29, 0x3617DE4A96262C6F])
}

/// Facts on the constants of P384 that the curve's well-formedness needs.
proof fn lemma_p384_constants()
    ensures
        limbs_val(seq![0x00000000FFFFFFFFu64, 0xFFFFFFFF00000000, 0xFFFFFFFFFFFFFFFE, 0xFFFFFFFFFFFFFFFF, 0xFFFFFFFFFFFFFFFF, 0xFFFFFFFFFFFFFFFF]) * 2 >= pow_limb(6),
        limbs_val(seq![0xECEC196ACCC52973u64, 0x581A0DB248B0A77A, 0xC7634D81F4372DDF, 0xFFFFFFFFFFFFFFFF, 0xFFFFFFFFFFFFFFFF, 0xFFFFFFFFFFFFFFFF]) * 2 >= pow_limb(6),
        limbs_val(seq![0xECEC196ACCC52973u64, 0x581A0DB248B0A77A, 0xC7634D81F4372DDF, 0xFFFFFFFFFFFFFFFF, 0xFFFFFFFFFFFFFFFF, 0xFFFFFFFFFFFFFFFF]) < limbs_val(seq![0x00000000FFFFFFFFu64, 0xFFFFFFFF00000000, 0xFFFFFFFFFFFFFFFE, 0xFFFFFFFFFFFFFFFF, 0xFFFFFFFFFFFFFFFF, 0xFFFFFFFFFFFFFFFF]),
        limbs_val(seq![0x2A85C8EDD3EC2AEFu64, 0xC656398D8A2ED19D, 0x0314088F5013875A, 0x181D9C6EFE814112, 0x988E056BE3F82D19, 0xB3312FA7E23EE7E4]) < limbs_val(seq![0x00000000FFFFFFFFu64, 0xFFFFFFFF00000000, 0xFFFFFFFFFFFFFFFE, 0xFFFFFFFFFFFFFFFF, 0xFFFFFFFFFFFFFFFF, 0xFFFFFFFFFFFFFFFF]),
        limbs_val(seq![0x3A545E3872760AB7u64, 0x5502F25DBF55296C, 0x59F741E082542A38, 0x6E1D3B628BA79B98, 0x8EB1C71EF320AD74, 0xAA87CA22BE8B0537]) < limbs_val(seq![0x00000000FFFFFFFFu64, 0xFFFFFFFF00000000, 0xFFFFFFFFFFFFFFFE, 0xFFFFFFFFFFFFFFFF, 0xFFFFFFFFFFFFFFFF, 0xFFFFFFFFFFFFFFFF]),
        limbs_val(seq![0x7A431D7C90EA0E5Fu64, 0x0A60B1CE1D7E819D, 0xE9DA3113B5F0B8C0, 0xF8F41DBD289A147C, 0x5D9E98BF9292DC29, 0x3617DE4A96262C6F]) < limbs_val(seq![0x00000000FFFFFFFFu64, 0xFFFFFFFF00000000, 0xFFFFFFFFFFFFFFFE, 0xFFFFFFFFFFFFFFFF, 0xFFFFFFFFFFFFFFFF, 0xFFFFFFFFFFFFFFFF]),
{
    lemma_top_bit(seq![0x00000000FFFFFFFFu64, 0xFFFFFFFF00000000, 0xFFFFFFFFFFFFFFFE, 0xFFFFFFFFFFFFFFFF, 0xFFFFFFFFFFFFFFFF, 0xFFFFFFFFFFFFFFFF]);
    lemma_top_bit(seq![0xECEC196ACCC52973u64, 0x581A0DB248B0A77A, 0xC7634D81F4372DDF, 0xFFFFFFFFFFFFFFFF, 0xFFFFFFFFFFFFFFFF, 0xFFFFFFFFFFFFFFFF]);
    lemma_lt_at(seq![0xECEC196ACCC52973u64, 0x581A0DB248B0A77A, 0xC7634D81F4372DDF, 0xFFFFFFFFFFFFFFFF, 0xFFFFFFFFFFFFFFFF, 0xFFFFFFFFFFFFFFFF], seq![0x00000000FFFFFFFFu64, 0xFFFFFFFF00000000, 0xFFFFFFFFFFFFFFFE, 0xFFFFFFFFFFFFFFFF, 0xFFFFFFFFFFFFFFFF, 0xFFFFFFFFFFFFFFFF], 2);
    lemma_lt_at(seq![0x2A85C8EDD3EC2AEFu64, 0xC656398D8A2ED19D, 0x0314088F5013875A, 0x181D9C6EFE814112, 0x988E056BE3F82D19, 0xB3312FA7E23EE7E4], seq![0x00000000FFFFFFFFu64, 0xFFFFFFFF00000000, 0xFFFFFFFFFFFFFFFE, 0xFFFFFFFFFFFFFFFF, 0xFFFFFFFFFFFFFFFF, 0xFFFFFFFFFFFFFFFF], 5);
    lemma_lt_at(seq![0x3A545E3872760AB7u64, 0x5502F25DBF55296C, 0x59F741E082542A38, 0x6E1D3B628BA79B98, 0x8EB1C71EF320AD74, 0xAA87CA22BE8B0537], seq![0x00000000FFFFFFFFu64, 0xFFFFFFFF00000000, 0xFFFFFFFFFFFFFFFE, 0xFFFFFFFFFFFFFFFF, 0xFFFFFFFFFFFFFFFF, 0xFFFFFFFFFFFFFFFF], 5);
    lemma_lt_at(seq![0x7A431D7C90EA0E5Fu64, 0x0A60B1CE1D7E819D, 0xE9DA3113B5F0B8C0, 0xF8F41DBD289A147C, 0x5D9E98BF9292DC29, 0x3617DE4A96262C6F], seq![0x00000000FFFFFFFFu64, 0xFFFFFFFF00000000, 0xFFFFFFFFFFFFFFFE, 0xFFFFFFFFFFFFFFFF, 0xFFFFFFFFFFFFFFFF, 0xFFFFFFFFFFFFFFFF], 5);
}

impl Curve {
    /// NIST P384 (secp384r1).
    pub fn p384() -> (r: Curve)
        ensures
            r.wf(),
            r.coord.p.width() == 6,
            r.pm() == p384_p(),
            r.nm() == p384_n(),
            r.b.val() == p384_b(),
            r.g.coords() == (p384_gx(), p384_gy(), 1nat),
    {
        let p = Uint { limbs: vec![0x00000000FFFFFFFFu64, 0xFFFFFFFF00000000, 0xFFFFFFFFFFFFFFFE, 0xFFFFFFFFFFFFFFFF, 0xFFFFFFFFFFFFFFFF, 0xFFFFFFFFFFFFFFFF] };
        let n = Uint { limbs: vec![0xECEC196ACCC52973u64, 0x581A0DB248B0A77A, 0xC7634D81F4372DDF, 0xFFFFFFFFFFFFFFFF, 0xFFFFFFFFFFFFFFFF, 0xFFFFFFFFFFFFFFFF] };
        let b = Uint { limbs: vec![0x2A85C8EDD3EC2AEFu64, 0xC656398D8A2ED19D, 0x0314088F5013875A, 0x181D9C6EFE814112, 0x988E056BE3F82D19, 0xB3312FA7E23EE7E4] };
        let gx = Uint { limbs: vec![0x3A545E3872760AB7u64, 0x5502F25DBF55296C, 0x59F741E082542A38, 0x6E1D3B628BA79B98, 0x8EB1C71EF320AD74, 0xAA87CA22BE8B0537] };
        let gy = Uint { limbs: vec![0x7A431D7C90EA0E5Fu64, 0x0A60B1CE1D7E819D, 0xE9DA3113B5F0B8C0, 0xF8F41DBD289A147C, 0x5D9E98BF9292DC29, 0x3617DE4A96262C6F] };
        proof {
            assert(p.limbs@ =~= seq![0x00000000FFFFFFFFu64, 0xFFFFFFFF00000000, 0xFFFFFFFFFFFFFFFE, 0xFFFFFFFFFFFFFFFF, 0xFFFFFFFFFFFFFFFF, 0xFFFFFFFFFFFFFFFF]);
            assert(n.limbs@ =~= seq![0xECEC196ACCC52973u64, 0x581A0DB248B0A77A, 0xC7634D81F4372DDF, 0xFFFFFFFFFFFFFFFF, 0xFFFFFFFFFFFFFFFF, 0xFFFFFFFFFFFFFFFF]);
            assert(b.limbs@ =~= seq![0x2A85C8EDD3EC2AEFu64, 0xC656398D8A2ED19D, 0x0314088F5013875A, 0x181D9C6EFE814112, 0x988E056BE3F82D19, 0xB3312FA7E23EE7E4]);
            assert(gx.limbs@ =~= seq![0x3A545E3872760AB7u64, 0x5502F25DBF55296C, 0x59F741E082542A38, 0x6E1D3B628BA79B98, 0x8EB1C71EF320AD74, 0xAA87CA22BE8B0537]);
            assert(gy.limbs@ =~= seq![0x7A431D7C90EA0E5Fu64, 0x0A60B1CE1D7E819D, 0xE9DA3113B5F0B8C0, 0xF8F41DBD289A147C, 0x5D9E98BF9292DC29, 0x3617DE4A96262C6F]);
            lemma_p384_constants();
            lemma_pow_limb_ge(6);
        }
        let coord = Field { p };
        let scalar = Field { p: n };
        let three = Uint::from_u64(3, 6);
        let (a, _) = coord.p.sub_borrow(&three);
        let g = Point::from_xy_assuming_on_curve_raw(&coord, gx, gy);
        Curve { coord, scalar, a, b, g }
    }
}

} // verus!
