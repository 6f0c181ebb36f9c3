//! Validation of a whole proof: from trust anchors for the root zone, through
//! DS and DNSKEY records, down to the records the proof is about.
use vstd::prelude::*;
use crate::wire::{Rr, RrView, views, be16, be32, name_at, read_u32};
use crate::query::{bytes_eq, TYPE_DNSKEY, TYPE_DS, TYPE_RRSIG};
use crate::validity::valid_at;
use crate::validation::{
    ValidationError, rrsig_check, verify_rrsig, canonical_order, parse_rrsig, ds_endorses_key,
    ds_endorses, sort_rrs, lemma_check_ok,
};

verus! {

/// The records of `vs` owned by `name` with type `ty`, in their order.
pub open spec fn rrset_in(vs: Seq<RrView>, name: Seq<u8>, ty: u16) -> Seq<RrView>
    decreases vs.len(),
{
    if vs.len() == 0 {
        Seq::empty()
    } else {
        let rest = rrset_in(vs.drop_last(), name, ty);
        if vs.last().name == name && vs.last().rr_type == ty {
            rest.push(vs.last())
        } else {
            rest
        }
    }
}

pub proof fn lemma_rrset_in_contains(vs: Seq<RrView>, name: Seq<u8>, ty: u16, x: RrView)
    requires
        rrset_in(vs, name, ty).contains(x),
    ensures
        vs.contains(x),
        x.name == name,
        x.rr_type == ty,
    decreases vs.len(),
{
    let rest = rrset_in(vs.drop_last(), name, ty);
    if rest.contains(x) {
        lemma_rrset_in_contains(vs.drop_last(), name, ty, x);
        let j = choose|j: int| 0 <= j < vs.drop_last().len() && vs.drop_last()[j] == x;
        assert(vs[j] == x);
    } else {
        assert(x == vs.last());
        assert(vs[vs.len() - 1] == x);
    }
}

/// The type of records that an RRSIG covers.
pub open spec fn covered(sig: RrView) -> u16 {
    be16(sig.rdata, 0)
}

/// The RRSIG `sig` verifies at `now` with `key` over the records of `vs` that it
/// covers, in canonical order.
pub open spec fn signed_by(vs: Seq<RrView>, sig: RrView, key: RrView, now: u64) -> bool {
    rrsig_check(sig, sort_rrs(rrset_in(vs, sig.name, covered(sig))), key, now) is Ok
}

/// `key` is a DNSKEY of `vs` that may sign a key set by step `f` of the walk: a
/// key of the root zone endorsed by one of the anchors `an` (DS record data), or
/// a key endorsed by a DS record of its zone established at an earlier step.
pub open spec fn endorsed_at(vs: Seq<RrView>, an: Seq<Seq<u8>>, now: u64, key: RrView, f: nat) -> bool
    decreases f, 1nat,
{
    &&& vs.contains(key)
    &&& key.rr_type == TYPE_DNSKEY
    &&& {
        ||| key.name == seq![0u8] && key.rdata.len() <= 0xffff && exists|i: int|
            0 <= i < an.len() && ds_endorses(an[i], key.name, key.rdata)
        ||| f > 0 && exists|ds: RrView|
            #![trigger ds_endorses(ds.rdata, key.name, key.rdata)]
            established_at(vs, an, now, ds, (f - 1) as nat) && ds.rr_type == TYPE_DS && ds.name == key.name
                && ds.rdata.len() <= 0xffff && key.rdata.len() <= 0xffff && ds_endorses(ds.rdata, key.name, key.rdata)
    }
}

/// The record `r` of `vs` is established by step `f` of the walk: an RRSIG of `vs`
/// over its set verifies at `now` with a key that may sign that set by an earlier
/// step (an endorsed key for a key set; a key of an established key set for
/// anything else).
pub open spec fn established_at(vs: Seq<RrView>, an: Seq<Seq<u8>>, now: u64, r: RrView, f: nat) -> bool
    decreases f, 0nat,
{
    f > 0 && exists|sig: RrView, key: RrView|
        #![trigger signed_by(vs, sig, key, now)]
        vs.contains(sig) && sig.rr_type == TYPE_RRSIG && signed_by(vs, sig, key, now) && rrset_in(
            vs,
            sig.name,
            covered(sig),
        ).contains(r) && if covered(sig) == TYPE_DNSKEY {
            endorsed_at(vs, an, now, key, (f - 1) as nat)
        } else {
            key.rr_type == TYPE_DNSKEY && established_at(vs, an, now, key, (f - 1) as nat)
        }
}

/// A key endorsed by an anchor is endorsed from the first step.
pub proof fn lemma_anchored(vs: Seq<RrView>, an: Seq<Seq<u8>>, now: u64, key: RrView, i: int)
    requires
        vs.contains(key),
        key.rr_type == TYPE_DNSKEY,
        key.name == seq![0u8],
        key.rdata.len() <= 0xffff,
        0 <= i < an.len(),
        ds_endorses(an[i], key.name, key.rdata),
    ensures
        endorsed_at(vs, an, now, key, 0),
{
}

/// A key endorsed by a DS record of its zone established at the step before `f`
/// is endorsed at `f`.
pub proof fn lemma_endorsed_by_ds(vs: Seq<RrView>, an: Seq<Seq<u8>>, now: u64, key: RrView, ds: RrView, f: nat)
    requires
        f > 0,
        vs.contains(key),
        key.rr_type == TYPE_DNSKEY,
        established_at(vs, an, now, ds, (f - 1) as nat),
        ds.rr_type == TYPE_DS,
        ds.name == key.name,
        ds.rdata.len() <= 0xffff,
        key.rdata.len() <= 0xffff,
        ds_endorses(ds.rdata, key.name, key.rdata),
    ensures
        endorsed_at(vs, an, now, key, f),
{
}

/// A record of a set signed with a key that may sign it by the step before `f` is
/// established at `f`.
pub proof fn lemma_established(
    vs: Seq<RrView>,
    an: Seq<Seq<u8>>,
    now: u64,
    r: RrView,
    sig: RrView,
    key: RrView,
    f: nat,
)
    requires
        f > 0,
        vs.contains(sig),
        sig.rr_type == TYPE_RRSIG,
        signed_by(vs, sig, key, now),
        rrset_in(vs, sig.name, covered(sig)).contains(r),
        key_level(vs, an, now, key, covered(sig), (f - 1) as nat),
    ensures
        established_at(vs, an, now, r, f),
{
}

/// The anchors as byte strings.
pub open spec fn anchor_views(anchors: Seq<Vec<u8>>) -> Seq<Seq<u8>> {
    anchors.map_values(|a: Vec<u8>| a@)
}

/// A record of an ordering `p` of a set of records is in that set.
pub proof fn lemma_in_rrset(vs: Seq<RrView>, name: Seq<u8>, ty: u16, p: Seq<RrView>, j: int)
    requires
        p.to_multiset() == rrset_in(vs, name, ty).to_multiset(),
        0 <= j < p.len(),
    ensures
        rrset_in(vs, name, ty).contains(p[j]),
        vs.contains(p[j]),
        p[j].name == name,
        p[j].rr_type == ty,
{
    vstd::seq_lib::to_multiset_contains(p, p[j]);
    assert(p.contains(p[j]));
    vstd::seq_lib::to_multiset_contains(rrset_in(vs, name, ty), p[j]);
    lemma_rrset_in_contains(vs, name, ty, p[j]);
}

/// The records that a proof authenticates, and for when.
#[derive(Debug)]
pub struct VerifiedRRStream {
    /// The authenticated records, other than DNSKEY, DS and RRSIG records.
    pub verified_rrs: Vec<Rr>,
    /// The latest inception among the signatures used.
    pub valid_from: u64,
    /// The earliest expiration among the signatures used.
    pub expires: u64,
    /// The smallest TTL among the records and signatures used.
    pub max_cache_ttl: u32,
}

fn copy_rr(r: &Rr) -> (c: Rr)
    ensures
        c@ == r@,
{
    Rr { name: r.name.clone(), rr_type: r.rr_type, class: r.class, ttl: r.ttl, rdata: r.rdata.clone() }
}

/// The records of `rrs` owned by `name` with type `ty`, in their order.
pub fn select_rrset(rrs: &Vec<Rr>, name: &Vec<u8>, ty: u16) -> (r: Vec<Rr>)
    ensures
        views(r@) == rrset_in(views(rrs@), name@, ty),
{
    let ghost vs = views(rrs@);
    let mut out: Vec<Rr> = Vec::new();
    let mut i: usize = 0;
    proof {
        assert(vs.take(0) =~= Seq::<RrView>::empty());
        assert(views(out@) =~= Seq::<RrView>::empty());
    }
    while i < rrs.len()
        invariant
            vs == views(rrs@),
            i <= rrs@.len(),
            views(out@) == rrset_in(vs.take(i as int), name@, ty),
        decreases rrs@.len() - i,
    {
        let rr = &rrs[i];
        proof {
            assert(vs.take(i + 1).drop_last() =~= vs.take(i as int));
            assert(vs.take(i + 1).last() == rr@);
        }
        if bytes_eq(&rr.name, name) && rr.rr_type == ty {
            let ghost before = out@;
            out.push(copy_rr(rr));
            proof {
                assert(views(out@) =~= views(before).push(rr@));
            }
        }
        i = i + 1;
    }
    proof {
        assert(vs.take(rrs@.len() as int) =~= vs);
    }
    out
}

/// Whether some record of `v` has the view `x`.
pub open spec fn in_list(v: Seq<Rr>, x: RrView) -> bool {
    exists|i: int| 0 <= i < v.len() && (#[trigger] v[i])@ == x
}

/// `b` is `a` with records added at the end.
pub open spec fn grows(a: Seq<Rr>, b: Seq<Rr>) -> bool {
    a.len() <= b.len() && forall|i: int| 0 <= i < a.len() ==> #[trigger] b[i] == a[i]
}

proof fn lemma_grows_in(a: Seq<Rr>, b: Seq<Rr>, x: RrView)
    requires
        grows(a, b),
        in_list(a, x),
    ensures
        in_list(b, x),
{
    let i = choose|i: int| 0 <= i < a.len() && (#[trigger] a[i])@ == x;
    assert(b[i] == a[i]);
}

proof fn lemma_grows_trans(a: Seq<Rr>, b: Seq<Rr>, c: Seq<Rr>)
    requires
        grows(a, b),
        grows(b, c),
    ensures
        grows(a, c),
{
    assert forall|i: int| 0 <= i < a.len() implies #[trigger] c[i] == a[i] by {
        assert(c[i] == b[i]);
    }
}

proof fn lemma_push_grows(a: Seq<Rr>, y: Rr)
    ensures
        grows(a, a.push(y)),
        in_list(a.push(y), y@),
{
    assert(a.push(y)[a.len() as int] == y);
}

/// Whether all records of `v` are DNSKEY records of `vs` endorsed at some step.
pub open spec fn endorsed_keys(vs: Seq<RrView>, an: Seq<Seq<u8>>, now: u64, v: Seq<Rr>) -> bool {
    forall|i: int|
        0 <= i < v.len() ==> vs.contains((#[trigger] v[i])@) && v[i].rr_type == TYPE_DNSKEY && exists|f: nat|
            endorsed_at(vs, an, now, v[i]@, f)
}

/// Whether all records of `v` are DNSKEY records of `vs` established at some step.
pub open spec fn trusted_keys(vs: Seq<RrView>, an: Seq<Seq<u8>>, now: u64, v: Seq<Rr>) -> bool {
    forall|i: int|
        0 <= i < v.len() ==> vs.contains((#[trigger] v[i])@) && v[i].rr_type == TYPE_DNSKEY && exists|f: nat|
            established_at(vs, an, now, v[i]@, f)
}

/// Whether all records of `v` are DS records of `vs` established at some step.
pub open spec fn ds_records(vs: Seq<RrView>, an: Seq<Seq<u8>>, now: u64, v: Seq<Rr>) -> bool {
    forall|i: int|
        0 <= i < v.len() ==> vs.contains((#[trigger] v[i])@) && v[i].rr_type == TYPE_DS && exists|f: nat|
            established_at(vs, an, now, v[i]@, f)
}

/// Whether a record is a target: neither a key, a delegation nor a signature.
pub open spec fn is_target(x: RrView) -> bool {
    x.rr_type != TYPE_DNSKEY && x.rr_type != TYPE_DS && x.rr_type != TYPE_RRSIG
}

/// Whether all records of `v` are established targets, none twice.
pub open spec fn targets_of(vs: Seq<RrView>, an: Seq<Seq<u8>>, now: u64, v: Seq<Rr>) -> bool {
    &&& forall|i: int|
        0 <= i < v.len() ==> (exists|f: nat| established_at(vs, an, now, (#[trigger] v[i])@, f)) && is_target(
            v[i]@,
        )
    &&& forall|i: int, j: int| 0 <= i < j < v.len() ==> (#[trigger] v[i])@ != (#[trigger] v[j])@
}

/// Some DNSKEY of the root zone in `vs` is endorsed by one of the anchors `an`.
pub open spec fn anchored(vs: Seq<RrView>, an: Seq<Seq<u8>>) -> bool {
    exists|k: RrView| #![trigger vs.contains(k)] vs.contains(k) && anchor_base(an, k)
}

/// `k` is a DNSKEY of the root zone that one of the anchors `an` endorses.
pub open spec fn anchor_base(an: Seq<Seq<u8>>, k: RrView) -> bool {
    k.rr_type == TYPE_DNSKEY && k.name == seq![0u8] && k.rdata.len() <= 0xffff && exists|i: int|
        0 <= i < an.len() && ds_endorses(an[i], k.name, k.rdata)
}

/// Some RRSIG of `vs` gives the error `e` when checked at `now` against some key
/// and some records.
pub open spec fn some_check_gives(vs: Seq<RrView>, now: u64, e: ValidationError) -> bool {
    exists|sig: RrView, p: Seq<RrView>, key: RrView|
        #![trigger rrsig_check(sig, p, key, now)]
        vs.contains(sig) && sig.rr_type == TYPE_RRSIG && rrsig_check(sig, p, key, now) == Err::<(), ValidationError>(e)
}

/// What the key `key` may sign by step `fk`: key sets if it is endorsed, other
/// records if its own key set is established.
pub open spec fn key_level(vs: Seq<RrView>, an: Seq<Seq<u8>>, now: u64, key: RrView, ty: u16, fk: nat) -> bool {
    if ty == TYPE_DNSKEY {
        endorsed_at(vs, an, now, key, fk)
    } else {
        key.rr_type == TYPE_DNSKEY && established_at(vs, an, now, key, fk)
    }
}

/// An RRSIG of `vs` that verifies at `now` with a key that may sign what it covers.
pub open spec fn usable(vs: Seq<RrView>, an: Seq<Seq<u8>>, now: u64, s: RrView) -> bool {
    vs.contains(s) && s.rr_type == TYPE_RRSIG && exists|key: RrView, f: nat|
        #![trigger signed_by(vs, s, key, now), key_level(vs, an, now, key, covered(s), f)]
        signed_by(vs, s, key, now) && key_level(vs, an, now, key, covered(s), f)
}

/// The inception of an RRSIG.
pub open spec fn inception_of(s: RrView) -> u32 {
    be32(s.rdata, 12)
}

/// The expiration of an RRSIG.
pub open spec fn expiration_of(s: RrView) -> u32 {
    be32(s.rdata, 8)
}

/// The original TTL of an RRSIG.
pub open spec fn orig_ttl_of(s: RrView) -> u32 {
    be32(s.rdata, 4)
}

/// What validating the records `vs` against the anchors `an` at `now` gives: `Ok`
/// exactly when some target record is established; then every established target,
/// none twice and nothing else, and the window and TTL over the usable RRSIGs
/// (latest inception, earliest expiration, smallest TTL or original TTL). An error
/// other than `UntrustedChain` names what some RRSIG gave.
pub open spec fn stream_result(
    vs: Seq<RrView>,
    an: Seq<Seq<u8>>,
    now: u64,
    r: Result<VerifiedRRStream, ValidationError>,
) -> bool {
    &&& (r is Ok <==> exists|x: RrView, f: nat| is_target(x) && established_at(vs, an, now, x, f))
    &&& r matches Ok(v) ==> {
        &&& targets_of(vs, an, now, v.verified_rrs@)
        &&& forall|x: RrView, f: nat|
            is_target(x) && #[trigger] established_at(vs, an, now, x, f) ==> in_list(v.verified_rrs@, x)
        &&& exists|s: RrView| usable(vs, an, now, s) && inception_of(s) == v.valid_from
        &&& forall|s: RrView| usable(vs, an, now, s) ==> inception_of(s) <= v.valid_from
        &&& exists|s: RrView| usable(vs, an, now, s) && expiration_of(s) == v.expires
        &&& forall|s: RrView| usable(vs, an, now, s) ==> v.expires <= expiration_of(s)
        &&& forall|s: RrView| usable(vs, an, now, s) ==> v.max_cache_ttl <= orig_ttl_of(s)
        &&& forall|i: int| 0 <= i < v.verified_rrs@.len() ==> v.max_cache_ttl <= (#[trigger] v.verified_rrs@[i]).ttl
        &&& (exists|s: RrView| usable(vs, an, now, s) && orig_ttl_of(s) == v.max_cache_ttl) || (exists|i: int|
            0 <= i < v.verified_rrs@.len() && (#[trigger] v.verified_rrs@[i]).ttl == v.max_cache_ttl)
        &&& valid_at(v.valid_from as u32, v.expires as u32, (now % 0x1_0000_0000) as u32)
        &&& v.valid_from < 0x1_0000_0000 && v.expires < 0x1_0000_0000
    }
    &&& !anchored(vs, an) ==> r == Err::<VerifiedRRStream, ValidationError>(ValidationError::UntrustedChain)
    &&& r == Err::<VerifiedRRStream, ValidationError>(ValidationError::ValidAtOtherTime) ==> some_check_gives(
        vs,
        now,
        ValidationError::ValidAtOtherTime,
    )
    &&& r == Err::<VerifiedRRStream, ValidationError>(ValidationError::UnsupportedAlgorithm) ==> some_check_gives(
        vs,
        now,
        ValidationError::UnsupportedAlgorithm,
    )
    &&& r == Err::<VerifiedRRStream, ValidationError>(ValidationError::Invalid) ==> some_check_gives(
        vs,
        now,
        ValidationError::Invalid,
    )
}

/// The lists of the walk.
struct Lists {
    /// DNSKEYs endorsed by a trust anchor or a verified DS record: these may sign key sets.
    endorsed: Vec<Rr>,
    /// DNSKEYs of verified key sets: these may sign anything else.
    trusted: Vec<Rr>,
    /// Verified DS records.
    dsacc: Vec<Rr>,
    /// Verified target records.
    verified: Vec<Rr>,
}

spec fn lists_grow(a: Lists, b: Lists) -> bool {
    &&& grows(a.endorsed@, b.endorsed@)
    &&& grows(a.trusted@, b.trusted@)
    &&& grows(a.dsacc@, b.dsacc@)
    &&& grows(a.verified@, b.verified@)
}

spec fn same_lists(a: Lists, b: Lists) -> bool {
    &&& a.endorsed@ == b.endorsed@
    &&& a.trusted@ == b.trusted@
    &&& a.dsacc@ == b.dsacc@
    &&& a.verified@ == b.verified@
}

/// The keys that may sign records of type `ty`.
spec fn keylist(l: Lists, ty: u16) -> Seq<Rr> {
    if ty == TYPE_DNSKEY {
        l.endorsed@
    } else {
        l.trusted@
    }
}

/// The record `x` of type `ty` is in the list where accepted records of its type go.
spec fn acc(l: Lists, ty: u16, x: RrView) -> bool {
    if ty == TYPE_DNSKEY {
        in_list(l.trusted@, x)
    } else if ty == TYPE_DS {
        in_list(l.dsacc@, x)
    } else if ty == TYPE_RRSIG {
        true
    } else {
        in_list(l.verified@, x)
    }
}

proof fn lemma_acc_grows(a: Lists, b: Lists, ty: u16, x: RrView)
    requires
        lists_grow(a, b),
        acc(a, ty, x),
    ensures
        acc(b, ty, x),
{
    if ty == TYPE_DNSKEY {
        lemma_grows_in(a.trusted@, b.trusted@, x);
    } else if ty == TYPE_DS {
        lemma_grows_in(a.dsacc@, b.dsacc@, x);
    } else if ty != TYPE_RRSIG {
        lemma_grows_in(a.verified@, b.verified@, x);
    }
}

/// Every record of the set that `sig` covers has been accepted.
#[verifier::opaque]
spec fn rrset_accepted(vs: Seq<RrView>, l: Lists, sig: RrView) -> bool {
    forall|x: RrView| #[trigger] rrset_in(vs, sig.name, covered(sig)).contains(x) ==> acc(l, covered(sig), x)
}

/// `d` (a DS record) endorses the DNSKEY record `k` of its zone.
pub open spec fn endorsable(k: RrView, d: RrView) -> bool {
    &&& d.rdata.len() <= 0xffff
    &&& k.rr_type == TYPE_DNSKEY
    &&& k.rdata.len() <= 0xffff
    &&& k.name == d.name
    &&& ds_endorses(d.rdata, k.name, k.rdata)
}

/// Each entry of the lists is justified.
spec fn justified(vs: Seq<RrView>, an: Seq<Seq<u8>>, now: u64, l: Lists) -> bool {
    &&& endorsed_keys(vs, an, now, l.endorsed@)
    &&& trusted_keys(vs, an, now, l.trusted@)
    &&& ds_records(vs, an, now, l.dsacc@)
    &&& targets_of(vs, an, now, l.verified@)
}

/// What an anchor or an accepted DS record endorses has been endorsed.
spec fn closed(vs: Seq<RrView>, an: Seq<Seq<u8>>, endorsed: Seq<Rr>, dsacc: Seq<Rr>) -> bool {
    &&& forall|k: RrView| #[trigger] vs.contains(k) && anchor_base(an, k) ==> in_list(endorsed, k)
    &&& forall|d: RrView, k: RrView|
        #[trigger] in_list(dsacc, d) && #[trigger] vs.contains(k) && endorsable(k, d) ==> in_list(endorsed, k)
}

proof fn lemma_closed_grows(vs: Seq<RrView>, an: Seq<Seq<u8>>, e1: Seq<Rr>, e2: Seq<Rr>, ds: Seq<Rr>)
    requires
        closed(vs, an, e1, ds),
        grows(e1, e2),
    ensures
        closed(vs, an, e2, ds),
{
    assert forall|k: RrView| #[trigger] vs.contains(k) && anchor_base(an, k) implies in_list(e2, k) by {
        lemma_grows_in(e1, e2, k);
    }
    assert forall|d: RrView, k: RrView|
        #[trigger] in_list(ds, d) && #[trigger] vs.contains(k) && endorsable(k, d) implies in_list(e2, k) by {
        lemma_grows_in(e1, e2, k);
    }
}

#[verifier::opaque]
spec fn lists_ok(vs: Seq<RrView>, an: Seq<Seq<u8>>, now: u64, l: Lists) -> bool {
    &&& justified(vs, an, now, l)
    &&& closed(vs, an, l.endorsed@, l.dsacc@)
}

fn copy_list(v: &Vec<Rr>, i: usize) -> (c: Rr)
    requires
        i < v@.len(),
    ensures
        c@ == v@[i as int]@,
{
    copy_rr(&v[i])
}

/// Whether two records are the same.
fn rr_eq(a: &Rr, b: &Rr) -> (r: bool)
    ensures
        r == (a@ == b@),
{
    a.rr_type == b.rr_type && a.class == b.class && a.ttl == b.ttl && bytes_eq(&a.name, &b.name) && bytes_eq(
        &a.rdata,
        &b.rdata,
    )
}

/// Whether some record of `v` is `x`.
fn in_list_exec(v: &Vec<Rr>, x: &Rr) -> (r: bool)
    ensures
        r == in_list(v@, x@),
{
    let mut i: usize = 0;
    while i < v.len()
        invariant
            i <= v@.len(),
            forall|k: int| 0 <= k < i ==> (#[trigger] v@[k])@ != x@,
        decreases v@.len() - i,
    {
        if rr_eq(&v[i], x) {
            return true;
        }
        i = i + 1;
    }
    false
}

/// Endorses the DNSKEY at `j` if the established DS record `ds` endorses it.
fn endorse_if(l: &mut Lists, rrs: &Vec<Rr>, an: Ghost<Seq<Seq<u8>>>, j: usize, ds: &Rr, f1: Ghost<nat>, now: u64)
    requires
        j < rrs@.len(),
        lists_ok(views(rrs@), an@, now, *old(l)),
        established_at(views(rrs@), an@, now, ds@, f1@),
        ds.rr_type == TYPE_DS,
        ds.rdata@.len() <= 0xffff,
    ensures
        lists_ok(views(rrs@), an@, now, *final(l)),
        lists_grow(*old(l), *final(l)),
        final(l).dsacc@ == old(l).dsacc@,
        endorsable(views(rrs@)[j as int], ds@) ==> in_list(final(l).endorsed@, views(rrs@)[j as int]),
{
    reveal(lists_ok);
    reveal(rrset_accepted);
    let ghost vs = views(rrs@);
    let k = &rrs[j];
    proof {
        assert(vs[j as int] == k@);
    }
    if k.rr_type == TYPE_DNSKEY && k.rdata.len() <= 0xffff && bytes_eq(&k.name, &ds.name)
        && ds_endorses_key(ds.rdata.as_slice(), k.name.as_slice(), k.rdata.as_slice()) {
        let ghost before = l.endorsed@;
        let ghost f2 = (f1@ + 1) as nat;
        l.endorsed.push(copy_rr(k));
        proof {
            lemma_endorsed_by_ds(vs, an@, now, k@, ds@, f2);
            lemma_push_grows(before, l.endorsed@.last());
            assert(l.endorsed@ == before.push(l.endorsed@.last()));
            assert forall|m: int| 0 <= m < l.endorsed@.len() implies vs.contains((#[trigger] l.endorsed@[m])@)
                && l.endorsed@[m].rr_type == TYPE_DNSKEY && exists|f: nat|
                endorsed_at(vs, an@, now, l.endorsed@[m]@, f) by {
                if m < before.len() {
                    assert(l.endorsed@[m] == before[m]);
                } else {
                    assert(endorsed_at(vs, an@, now, l.endorsed@[m]@, f2));
                }
            }
            lemma_closed_grows(vs, an@, before, l.endorsed@, l.dsacc@);
        }
    } else {
        proof {
            if endorsable(k@, ds@) {
                assert(false);
            }
        }
    }
}

/// Takes in one record `r` of the set that `sig` signed with `key`.
fn accept_one(
    l: &mut Lists,
    rrs: &Vec<Rr>,
    an: Ghost<Seq<Seq<u8>>>,
    r: &Rr,
    ty: u16,
    sig: &Rr,
    key: &Rr,
    fk: Ghost<nat>,
    now: u64,
)
    requires
        lists_ok(views(rrs@), an@, now, *old(l)),
        views(rrs@).contains(sig@),
        sig.rr_type == TYPE_RRSIG,
        covered(sig@) == ty,
        r.rr_type == ty,
        signed_by(views(rrs@), sig@, key@, now),
        rrset_in(views(rrs@), sig.name@, ty).contains(r@),
        key_level(views(rrs@), an@, now, key@, ty, fk@),
    ensures
        lists_ok(views(rrs@), an@, now, *final(l)),
        lists_grow(*old(l), *final(l)),
        acc(*final(l), ty, r@),
{
    reveal(lists_ok);
    reveal(rrset_accepted);
    let ghost vs = views(rrs@);
    let ghost f1 = (fk@ + 1) as nat;
    proof {
        lemma_established(vs, an@, now, r@, sig@, key@, f1);
        lemma_rrset_in_contains(vs, sig.name@, ty, r@);
    }
    if ty == TYPE_DNSKEY {
        let ghost before = l.trusted@;
        l.trusted.push(copy_rr(r));
        proof {
            lemma_push_grows(before, l.trusted@.last());
            assert(l.trusted@ == before.push(l.trusted@.last()));
            assert forall|k: int| 0 <= k < l.trusted@.len() implies vs.contains((#[trigger] l.trusted@[k])@)
                && l.trusted@[k].rr_type == TYPE_DNSKEY && exists|f: nat|
                established_at(vs, an@, now, l.trusted@[k]@, f) by {
                if k < before.len() {
                    assert(l.trusted@[k] == before[k]);
                } else {
                    assert(established_at(vs, an@, now, l.trusted@[k]@, f1));
                }
            }
        }
    } else if ty == TYPE_DS {
        let ghost l0 = *l;
        if r.rdata.len() <= 0xffff {
            let mut j: usize = 0;
            while j < rrs.len()
                invariant
                    vs == views(rrs@),
                    j <= rrs@.len(),
                    lists_ok(vs, an@, now, *l),
                    lists_grow(l0, *l),
                    l.dsacc@ == l0.dsacc@,
                    established_at(vs, an@, now, r@, f1),
                    r.rr_type == TYPE_DS,
                    r.rdata@.len() <= 0xffff,
                    forall|jj: int| 0 <= jj < j && endorsable(#[trigger] vs[jj], r@) ==> in_list(l.endorsed@, vs[jj]),
                decreases rrs@.len() - j,
            {
                let ghost lb = *l;
                endorse_if(l, rrs, an, j, r, Ghost(f1), now);
                proof {
                    lemma_grows_trans(l0.endorsed@, lb.endorsed@, l.endorsed@);
                    lemma_grows_trans(l0.trusted@, lb.trusted@, l.trusted@);
                    lemma_grows_trans(l0.verified@, lb.verified@, l.verified@);
                    assert forall|jj: int| 0 <= jj < j + 1 && endorsable(#[trigger] vs[jj], r@) implies in_list(
                        l.endorsed@,
                        vs[jj],
                    ) by {
                        if jj < j {
                            lemma_grows_in(lb.endorsed@, l.endorsed@, vs[jj]);
                        }
                    }
                }
                j = j + 1;
            }
        }
        let ghost l1 = *l;
        l.dsacc.push(copy_rr(r));
        proof {
            lemma_push_grows(l1.dsacc@, l.dsacc@.last());
            assert(l.dsacc@ == l1.dsacc@.push(l.dsacc@.last()));
            lemma_grows_trans(l0.dsacc@, l1.dsacc@, l.dsacc@);
            assert forall|k: int| 0 <= k < l.dsacc@.len() implies vs.contains((#[trigger] l.dsacc@[k])@)
                && l.dsacc@[k].rr_type == TYPE_DS && exists|f: nat| established_at(vs, an@, now, l.dsacc@[k]@, f) by {
                if k < l1.dsacc@.len() {
                    assert(l.dsacc@[k] == l1.dsacc@[k]);
                } else {
                    assert(established_at(vs, an@, now, l.dsacc@[k]@, f1));
                }
            }
            assert forall|d: RrView, k: RrView|
                #[trigger] in_list(l.dsacc@, d) && #[trigger] vs.contains(k) && endorsable(k, d) implies in_list(
                l.endorsed@,
                k,
            ) by {
                let i = choose|i: int| 0 <= i < l.dsacc@.len() && (#[trigger] l.dsacc@[i])@ == d;
                if i < l1.dsacc@.len() {
                    assert(l1.dsacc@[i] == l.dsacc@[i]);
                    assert(in_list(l1.dsacc@, d));
                } else {
                    let jj = choose|jj: int| 0 <= jj < vs.len() && vs[jj] == k;
                    assert(endorsable(vs[jj], r@));
                }
            }
        }
    } else if ty != TYPE_RRSIG {
        if !in_list_exec(&l.verified, r) {
            let ghost before = l.verified@;
            l.verified.push(copy_rr(r));
            proof {
                lemma_push_grows(before, l.verified@.last());
                assert(l.verified@ == before.push(l.verified@.last()));
                assert forall|k: int| 0 <= k < l.verified@.len() implies (exists|f: nat|
                    established_at(vs, an@, now, (#[trigger] l.verified@[k])@, f)) && is_target(l.verified@[k]@) by {
                    if k < before.len() {
                        assert(l.verified@[k] == before[k]);
                    } else {
                        assert(established_at(vs, an@, now, l.verified@[k]@, f1));
                    }
                }
                assert forall|i: int, j: int| 0 <= i < j < l.verified@.len() implies (#[trigger] l.verified@[i])@
                    != (#[trigger] l.verified@[j])@ by {
                    if j < before.len() {
                        assert(l.verified@[i] == before[i]);
                        assert(l.verified@[j] == before[j]);
                    } else {
                        assert(l.verified@[i] == before[i]);
                    }
                }
            }
        }
    }
}

/// Takes in the records that `sig` signed with `key`, in canonical order `set`.
fn accept(
    l: &mut Lists,
    rrs: &Vec<Rr>,
    an: Ghost<Seq<Seq<u8>>>,
    set: &Vec<Rr>,
    ty: u16,
    sig: &Rr,
    key: &Rr,
    fk: Ghost<nat>,
    now: u64,
)
    requires
        lists_ok(views(rrs@), an@, now, *old(l)),
        views(rrs@).contains(sig@),
        sig.rr_type == TYPE_RRSIG,
        covered(sig@) == ty,
        views(set@).to_multiset() == rrset_in(views(rrs@), sig.name@, ty).to_multiset(),
        signed_by(views(rrs@), sig@, key@, now),
        key_level(views(rrs@), an@, now, key@, ty, fk@),
    ensures
        lists_ok(views(rrs@), an@, now, *final(l)),
        lists_grow(*old(l), *final(l)),
        rrset_accepted(views(rrs@), *final(l), sig@),
{
    reveal(lists_ok);
    reveal(rrset_accepted);
    let ghost vs = views(rrs@);
    let ghost p = views(set@);
    let ghost l0 = *l;
    let mut i: usize = 0;
    while i < set.len()
        invariant
            vs == views(rrs@),
            p == views(set@),
            i <= set@.len(),
            p.to_multiset() == rrset_in(vs, sig.name@, ty).to_multiset(),
            covered(sig@) == ty,
            signed_by(vs, sig@, key@, now),
            vs.contains(sig@),
            sig.rr_type == TYPE_RRSIG,
            key_level(vs, an@, now, key@, ty, fk@),
            lists_ok(vs, an@, now, *l),
            lists_grow(l0, *l),
            forall|j: int| 0 <= j < i ==> acc(*l, ty, #[trigger] p[j]),
        decreases set@.len() - i,
    {
        let r = &set[i];
        proof {
            assert(p[i as int] == r@);
            lemma_in_rrset(vs, sig.name@, ty, p, i as int);
        }
        let ghost lb = *l;
        accept_one(l, rrs, an, r, ty, sig, key, fk, now);
        proof {
            lemma_grows_trans(l0.endorsed@, lb.endorsed@, l.endorsed@);
            lemma_grows_trans(l0.trusted@, lb.trusted@, l.trusted@);
            lemma_grows_trans(l0.dsacc@, lb.dsacc@, l.dsacc@);
            lemma_grows_trans(l0.verified@, lb.verified@, l.verified@);
            assert forall|j: int| 0 <= j < i + 1 implies acc(*l, ty, #[trigger] p[j]) by {
                if j < i {
                    lemma_acc_grows(lb, *l, ty, p[j]);
                }
            }
        }
        i = i + 1;
    }
    proof {
        assert forall|x: RrView| #[trigger] rrset_in(vs, sig.name@, covered(sig@)).contains(x) implies acc(
            *l,
            covered(sig@),
            x,
        ) by {
            vstd::seq_lib::to_multiset_contains(rrset_in(vs, sig.name@, ty), x);
            vstd::seq_lib::to_multiset_contains(p, x);
            let j = choose|j: int| 0 <= j < p.len() && p[j] == x;
        }
    }
}

proof fn lemma_usable_facts(vs: Seq<RrView>, an: Seq<Seq<u8>>, now: u64, s: RrView)
    requires
        usable(vs, an, now, s),
    ensures
        s.rdata.len() >= 18,
        valid_at(inception_of(s), expiration_of(s), (now % 0x1_0000_0000) as u32),
{
    let (key, f) = choose|key: RrView, f: nat|
        #![trigger signed_by(vs, s, key, now), key_level(vs, an, now, key, covered(s), f)]
        signed_by(vs, s, key, now) && key_level(vs, an, now, key, covered(s), f);
    lemma_check_ok(s, sort_rrs(rrset_in(vs, s.name, covered(s))), key, now);
}

proof fn lemma_same_grow(a: Lists, b: Lists)
    requires
        same_lists(a, b),
    ensures
        lists_grow(a, b),
{
}

proof fn lemma_accepted_grows(vs: Seq<RrView>, a: Lists, b: Lists, sig: RrView)
    requires
        lists_grow(a, b),
        rrset_accepted(vs, a, sig),
    ensures
        rrset_accepted(vs, b, sig),
{
    reveal(rrset_accepted);
    assert forall|x: RrView| #[trigger] rrset_in(vs, sig.name, covered(sig)).contains(x) implies acc(
        b,
        covered(sig),
        x,
    ) by {
        lemma_acc_grows(a, b, covered(sig), x);
    }
}

proof fn lemma_key_level(vs: Seq<RrView>, an: Seq<Seq<u8>>, now: u64, l: Lists, ty: u16, k: int)
    requires
        lists_ok(vs, an, now, l),
        0 <= k < keylist(l, ty).len(),
    ensures
        exists|f: nat| key_level(vs, an, now, keylist(l, ty)[k]@, ty, f),
{
    reveal(lists_ok);
    if ty == TYPE_DNSKEY {
        let f = choose|f: nat| endorsed_at(vs, an, now, l.endorsed@[k]@, f);
        assert(key_level(vs, an, now, keylist(l, ty)[k]@, ty, f));
    } else {
        let f = choose|f: nat| established_at(vs, an, now, l.trusted@[k]@, f);
        assert(key_level(vs, an, now, keylist(l, ty)[k]@, ty, f));
    }
}

proof fn lemma_lists_targets(vs: Seq<RrView>, an: Seq<Seq<u8>>, now: u64, l: Lists)
    requires
        lists_ok(vs, an, now, l),
    ensures
        targets_of(vs, an, now, l.verified@),
{
    reveal(lists_ok);
}

proof fn lemma_lists_start(vs: Seq<RrView>, an: Seq<Seq<u8>>, now: u64, l: Lists)
    requires
        justified(vs, an, now, l),
        closed(vs, an, l.endorsed@, l.dsacc@),
    ensures
        lists_ok(vs, an, now, l),
{
    reveal(lists_ok);
}

/// Tries the RRSIG at `si` with each key that may sign what it covers; on success
/// takes in the records it signs. The flags tell which errors the checks gave.
#[verifier::rlimit(100)]
fn try_rrsig(l: &mut Lists, rrs: &Vec<Rr>, an: Ghost<Seq<Seq<u8>>>, si: usize, now: u64) -> (r: (bool, bool, bool, bool))
    requires
        si < rrs@.len(),
        lists_ok(views(rrs@), an@, now, *old(l)),
    ensures
        lists_ok(views(rrs@), an@, now, *final(l)),
        lists_grow(*old(l), *final(l)),
        r.0 ==> rrset_accepted(views(rrs@), *final(l), views(rrs@)[si as int]) && usable(
            views(rrs@),
            an@,
            now,
            views(rrs@)[si as int],
        ),
        !r.0 ==> same_lists(*old(l), *final(l)) && (views(rrs@)[si as int].rr_type == TYPE_RRSIG ==> forall|key: RrView|
            #[trigger] in_list(keylist(*old(l), covered(views(rrs@)[si as int])), key) ==> !signed_by(
                views(rrs@),
                views(rrs@)[si as int],
                key,
                now,
            )),
        r.1 ==> some_check_gives(views(rrs@), now, ValidationError::ValidAtOtherTime),
        r.2 ==> some_check_gives(views(rrs@), now, ValidationError::UnsupportedAlgorithm),
        r.3 ==> some_check_gives(views(rrs@), now, ValidationError::Invalid),
        old(l).endorsed@.len() == 0 && old(l).trusted@.len() == 0 ==> !r.0 && !r.1 && !r.2 && !r.3,
{
    let ghost vs = views(rrs@);
    let ghost l0 = *l;
    let sig = &rrs[si];
    proof {
        assert(vs[si as int] == sig@);
        lemma_same_grow(l0, l0);
    }
    if sig.rr_type != TYPE_RRSIG {
        return (false, false, false, false);
    }
    let fields = match parse_rrsig(sig.rdata.as_slice()) {
        Ok(f) => f,
        Err(()) => {
            proof {
                assert forall|key: RrView| #[trigger] in_list(keylist(l0, covered(sig@)), key) implies !signed_by(
                    vs,
                    sig@,
                    key,
                    now,
                ) by {
                    if signed_by(vs, sig@, key, now) {
                        lemma_check_ok(sig@, sort_rrs(rrset_in(vs, sig.name@, covered(sig@))), key, now);
                    }
                }
            }
            return (false, false, false, false);
        },
    };
    let ty = fields.type_covered;
    let set0 = select_rrset(rrs, &sig.name, ty);
    if set0.len() == 0 {
        proof {
            assert(views(set0@) =~= Seq::<RrView>::empty());
            assert(sort_rrs(rrset_in(vs, sig.name@, ty)).len() == 0);
            assert forall|key: RrView| #[trigger] in_list(keylist(l0, covered(sig@)), key) implies !signed_by(
                vs,
                sig@,
                key,
                now,
            ) by {
                if signed_by(vs, sig@, key, now) {
                    lemma_check_ok(sig@, sort_rrs(rrset_in(vs, sig.name@, covered(sig@))), key, now);
                }
            }
        }
        return (false, false, false, false);
    }
    let set = canonical_order(set0);
    let use_endorsed = ty == TYPE_DNSKEY;
    let nkeys = if use_endorsed {
        l.endorsed.len()
    } else {
        l.trusted.len()
    };
    let mut t = false;
    let mut u = false;
    let mut iv = false;
    let mut ki: usize = 0;
    while ki < nkeys
        invariant
            vs == views(rrs@),
            vs.contains(sig@),
            vs[si as int] == sig@,
            sig.rr_type == TYPE_RRSIG,
            covered(sig@) == ty,
            use_endorsed == (ty == TYPE_DNSKEY),
            name_at(sig.rdata@, 18) == Some((fields.signer@, fields.sig_start as nat)),
            views(set@).to_multiset() == rrset_in(vs, sig.name@, ty).to_multiset(),
            views(set@) == sort_rrs(rrset_in(vs, sig.name@, ty)),
            nkeys == keylist(l0, ty).len(),
            same_lists(l0, *l),
            lists_ok(vs, an@, now, *l),
            forall|k: int| 0 <= k < ki ==> !signed_by(vs, sig@, (#[trigger] keylist(l0, ty)[k])@, now),
            nkeys == 0 ==> !t && !u && !iv,
            *old(l) == l0,
            t ==> some_check_gives(vs, now, ValidationError::ValidAtOtherTime),
            u ==> some_check_gives(vs, now, ValidationError::UnsupportedAlgorithm),
            iv ==> some_check_gives(vs, now, ValidationError::Invalid),
        decreases nkeys - ki,
    {
        let key = if use_endorsed {
            copy_list(&l.endorsed, ki)
        } else {
            copy_list(&l.trusted, ki)
        };
        proof {
            assert(key@ == keylist(l0, ty)[ki as int]@);
        }
        proof {
            lemma_key_level(vs, an@, now, *l, ty, ki as int);
        }
        let ghost fk: nat = choose|f: nat| key_level(vs, an@, now, key@, ty, f);
        if bytes_eq(&key.name, &fields.signer) {
            match verify_rrsig(sig, &set, &key, now) {
                Ok(()) => {
                    proof {
                        assert(signed_by(vs, sig@, key@, now));
                        assert(usable(vs, an@, now, sig@));
                    }
                    let ghost lb = *l;
                    accept(l, rrs, an, &set, ty, sig, &key, Ghost(fk), now);
                    proof {
                        lemma_same_grow(l0, lb);
                        lemma_grows_trans(l0.endorsed@, lb.endorsed@, l.endorsed@);
                        lemma_grows_trans(l0.trusted@, lb.trusted@, l.trusted@);
                        lemma_grows_trans(l0.dsacc@, lb.dsacc@, l.dsacc@);
                        lemma_grows_trans(l0.verified@, lb.verified@, l.verified@);
                    }
                    return (true, t, u, iv);
                },
                Err(e) => {
                    proof {
                        assert(rrsig_check(sig@, views(set@), key@, now) == Err::<(), ValidationError>(e));
                        assert(!signed_by(vs, sig@, key@, now));
                    }
                    if e == ValidationError::ValidAtOtherTime {
                        t = true;
                    } else if e == ValidationError::UnsupportedAlgorithm {
                        u = true;
                    } else if e == ValidationError::Invalid {
                        iv = true;
                    }
                },
            }
        } else {
            proof {
                if signed_by(vs, sig@, key@, now) {
                    lemma_check_ok(sig@, sort_rrs(rrset_in(vs, sig.name@, ty)), key@, now);
                }
            }
        }
        ki = ki + 1;
    }
    proof {
        assert forall|key: RrView| #[trigger] in_list(keylist(l0, ty), key) implies !signed_by(vs, sig@, key, now) by {
            let k = choose|k: int| 0 <= k < keylist(l0, ty).len() && (#[trigger] keylist(l0, ty)[k])@ == key;
        }
    }
    proof {
        lemma_same_grow(l0, *l);
    }
    (false, t, u, iv)
}

/// How many of the flags are set.
pub open spec fn count_true(s: Seq<bool>) -> nat
    decreases s.len(),
{
    if s.len() == 0 {
        0
    } else {
        count_true(s.drop_last()) + if s.last() {
            1nat
        } else {
            0nat
        }
    }
}

proof fn lemma_count_bound(s: Seq<bool>)
    ensures
        count_true(s) <= s.len(),
    decreases s.len(),
{
    if s.len() > 0 {
        lemma_count_bound(s.drop_last());
    }
}

proof fn lemma_count_set(s: Seq<bool>, i: int)
    requires
        0 <= i < s.len(),
        !s[i],
    ensures
        count_true(s.update(i, true)) == count_true(s) + 1,
    decreases s.len(),
{
    let t = s.update(i, true);
    if i == s.len() - 1 {
        assert(t.drop_last() =~= s.drop_last());
    } else {
        assert(t.drop_last() =~= s.drop_last().update(i, true));
        lemma_count_set(s.drop_last(), i);
    }
}

/// At a fixed point of the walk, what may be established has been taken in.
proof fn lemma_complete(vs: Seq<RrView>, an: Seq<Seq<u8>>, now: u64, l: Lists, done: Seq<bool>, f: nat)
    requires
        done.len() == vs.len(),
        lists_ok(vs, an, now, l),
        forall|i: int| 0 <= i < vs.len() && done[i] ==> rrset_accepted(vs, l, #[trigger] vs[i]),
        forall|i: int|
            0 <= i < vs.len() && !done[i] && (#[trigger] vs[i]).rr_type == TYPE_RRSIG ==> forall|key: RrView|
                #[trigger] in_list(keylist(l, covered(vs[i])), key) ==> !signed_by(vs, vs[i], key, now),
    ensures
        forall|k: RrView| endorsed_at(vs, an, now, k, f) ==> #[trigger] in_list(l.endorsed@, k),
        forall|x: RrView| #[trigger] established_at(vs, an, now, x, f) ==> acc(l, x.rr_type, x),
    decreases f,
{
    reveal(lists_ok);
    reveal(rrset_accepted);
    if f > 0 {
        lemma_complete(vs, an, now, l, done, (f - 1) as nat);
    }
    assert forall|k: RrView| endorsed_at(vs, an, now, k, f) implies #[trigger] in_list(l.endorsed@, k) by {
        if k.name == seq![0u8] && k.rdata.len() <= 0xffff && exists|i: int|
            0 <= i < an.len() && ds_endorses(an[i], k.name, k.rdata) {
            assert(anchor_base(an, k));
        } else {
            let ds = choose|ds: RrView|
                #![trigger ds_endorses(ds.rdata, k.name, k.rdata)]
                established_at(vs, an, now, ds, (f - 1) as nat) && ds.rr_type == TYPE_DS && ds.name == k.name
                    && ds.rdata.len() <= 0xffff && k.rdata.len() <= 0xffff && ds_endorses(ds.rdata, k.name, k.rdata);
            assert(acc(l, ds.rr_type, ds));
            assert(in_list(l.dsacc@, ds));
            assert(endorsable(k, ds));
        }
    }
    assert forall|x: RrView| #[trigger] established_at(vs, an, now, x, f) implies acc(l, x.rr_type, x) by {
        let (sig, key) = choose|sig: RrView, key: RrView|
            #![trigger signed_by(vs, sig, key, now)]
            vs.contains(sig) && sig.rr_type == TYPE_RRSIG && signed_by(vs, sig, key, now) && rrset_in(
                vs,
                sig.name,
                covered(sig),
            ).contains(x) && if covered(sig) == TYPE_DNSKEY {
                endorsed_at(vs, an, now, key, (f - 1) as nat)
            } else {
                key.rr_type == TYPE_DNSKEY && established_at(vs, an, now, key, (f - 1) as nat)
            };
        let si = choose|i: int| 0 <= i < vs.len() && vs[i] == sig;
        if covered(sig) == TYPE_DNSKEY {
            assert(in_list(l.endorsed@, key));
        } else {
            assert(acc(l, key.rr_type, key));
        }
        assert(in_list(keylist(l, covered(sig)), key));
        assert(done[si]);
        assert(rrset_accepted(vs, l, vs[si]));
        lemma_rrset_in_contains(vs, sig.name, covered(sig), x);
    }
}

/// The latest inception, the earliest expiration and the smallest original TTL
/// among the RRSIGs `used`.
fn window(used: &Vec<Rr>) -> (r: (u32, u32, u32))
    requires
        used@.len() > 0,
        forall|i: int| 0 <= i < used@.len() ==> (#[trigger] used@[i]).rdata@.len() >= 18,
    ensures
        exists|i: int| 0 <= i < used@.len() && inception_of((#[trigger] used@[i])@) == r.0,
        forall|i: int| 0 <= i < used@.len() ==> inception_of((#[trigger] used@[i])@) <= r.0,
        exists|i: int| 0 <= i < used@.len() && expiration_of((#[trigger] used@[i])@) == r.1,
        forall|i: int| 0 <= i < used@.len() ==> r.1 <= expiration_of((#[trigger] used@[i])@),
        exists|i: int| 0 <= i < used@.len() && orig_ttl_of((#[trigger] used@[i])@) == r.2,
        forall|i: int| 0 <= i < used@.len() ==> r.2 <= orig_ttl_of((#[trigger] used@[i])@),
{
    let mut vf: u32 = 0;
    let mut ex: u32 = 0xffff_ffff;
    let mut tt: u32 = 0xffff_ffff;
    let ghost mut iv: int = 0;
    let ghost mut ie: int = 0;
    let ghost mut it: int = 0;
    let mut i: usize = 0;
    while i < used.len()
        invariant
            i <= used@.len(),
            forall|k: int| 0 <= k < used@.len() ==> (#[trigger] used@[k]).rdata@.len() >= 18,
            i > 0 ==> 0 <= iv < i && inception_of(used@[iv]@) == vf,
            i > 0 ==> 0 <= ie < i && expiration_of(used@[ie]@) == ex,
            i > 0 ==> 0 <= it < i && orig_ttl_of(used@[it]@) == tt,
            forall|k: int| 0 <= k < i ==> inception_of((#[trigger] used@[k])@) <= vf,
            forall|k: int| 0 <= k < i ==> ex <= expiration_of((#[trigger] used@[k])@),
            forall|k: int| 0 <= k < i ==> tt <= orig_ttl_of((#[trigger] used@[k])@),
        decreases used@.len() - i,
    {
        let d = used[i].rdata.as_slice();
        let inc = match read_u32(d, 12) {
            Ok(v) => v,
            Err(()) => 0,
        };
        let exp = match read_u32(d, 8) {
            Ok(v) => v,
            Err(()) => 0,
        };
        let ot = match read_u32(d, 4) {
            Ok(v) => v,
            Err(()) => 0,
        };
        if i == 0 || inc > vf {
            vf = inc;
            proof {
                iv = i as int;
            }
        }
        if i == 0 || exp < ex {
            ex = exp;
            proof {
                ie = i as int;
            }
        }
        if i == 0 || ot < tt {
            tt = ot;
            proof {
                it = i as int;
            }
        }
        i = i + 1;
    }
    (vf, ex, tt)
}

/// Validates the records of a proof against trust anchors for the root zone,
/// given as DS record data, at the time `now` (POSIX seconds).
///
/// Key sets of the root are trusted when signed by a key that an anchor endorses;
/// key sets of other zones when signed by a key that a verified DS record of the
/// zone endorses; DS records and other records when signed by a trusted key. The
/// RRSIGs are tried again and again, in any order, until no more verify.
#[verifier::rlimit(100)]
pub fn verify_rr_stream_with_anchors(rrs: &Vec<Rr>, anchors: &Vec<Vec<u8>>, now: u64) -> (r: Result<
    VerifiedRRStream,
    ValidationError,
>)
    ensures
        stream_result(views(rrs@), anchor_views(anchors@), now, r),
{
    let ghost vs = views(rrs@);
    let ghost an = anchor_views(anchors@);
    let n = rrs.len();
    let mut l = Lists { endorsed: Vec::new(), trusted: Vec::new(), dsacc: Vec::new(), verified: Vec::new() };
    let mut j: usize = 0;
    while j < n
        invariant
            n == rrs@.len(),
            vs == views(rrs@),
            an == anchor_views(anchors@),
            j <= n,
            justified(vs, an, now, l),
            l.trusted@.len() == 0,
            l.dsacc@.len() == 0,
            l.verified@.len() == 0,
            forall|jj: int| 0 <= jj < j && anchor_base(an, #[trigger] vs[jj]) ==> in_list(l.endorsed@, vs[jj]),
            !anchored(vs, an) ==> l.endorsed@.len() == 0,
        decreases n - j,
    {
        let k = &rrs[j];
        proof {
            assert(vs[j as int] == k@);
        }
        if k.rr_type == TYPE_DNSKEY && k.name.len() == 1 && k.name[0] == 0 && k.rdata.len() <= 0xffff {
            proof {
                assert(k.name@ =~= seq![0u8]);
            }
            let mut a: usize = 0;
            let mut found = false;
            while a < anchors.len() && !found
                invariant
                    k.rdata@.len() <= 0xffff,
                    an == anchor_views(anchors@),
                    a <= anchors@.len(),
                    found == exists|i: int| 0 <= i < a && ds_endorses(an[i], k.name@, k.rdata@),
                decreases anchors@.len() - a,
            {
                found = ds_endorses_key(anchors[a].as_slice(), k.name.as_slice(), k.rdata.as_slice());
                proof {
                    assert(an[a as int] == anchors@[a as int]@);
                }
                a = a + 1;
            }
            if found {
                let ghost before = l.endorsed@;
                l.endorsed.push(copy_rr(k));
                proof {
                    let i = choose|i: int| 0 <= i < an.len() && ds_endorses(an[i], k.name@, k.rdata@);
                    lemma_anchored(vs, an, now, k@, i);
                    assert(anchored(vs, an));
                    lemma_push_grows(before, l.endorsed@.last());
                    assert(l.endorsed@ == before.push(l.endorsed@.last()));
                    assert forall|m: int| 0 <= m < l.endorsed@.len() implies vs.contains(
                        (#[trigger] l.endorsed@[m])@,
                    ) && l.endorsed@[m].rr_type == TYPE_DNSKEY && exists|f: nat|
                        endorsed_at(vs, an, now, l.endorsed@[m]@, f) by {
                        if m < before.len() {
                            assert(l.endorsed@[m] == before[m]);
                        } else {
                            assert(endorsed_at(vs, an, now, l.endorsed@[m]@, 0));
                        }
                    }
                    assert forall|jj: int| 0 <= jj < j + 1 && anchor_base(an, #[trigger] vs[jj]) implies in_list(
                        l.endorsed@,
                        vs[jj],
                    ) by {
                        if jj < j {
                            lemma_grows_in(before, l.endorsed@, vs[jj]);
                        }
                    }
                }
            }
        }
        j = j + 1;
    }
    proof {
        assert forall|k: RrView| #[trigger] vs.contains(k) && anchor_base(an, k) implies in_list(l.endorsed@, k) by {
            let jj = choose|jj: int| 0 <= jj < vs.len() && vs[jj] == k;
        }
        assert(closed(vs, an, l.endorsed@, l.dsacc@));
        lemma_lists_start(vs, an, now, l);
    }
    let mut done: Vec<bool> = Vec::new();
    let mut d: usize = 0;
    while d < n
        invariant
            done@.len() == d,
            d <= n,
            forall|i: int| 0 <= i < d ==> !(#[trigger] done@[i]),
        decreases n - d,
    {
        done.push(false);
        d = d + 1;
    }
    let mut used: Vec<Rr> = Vec::new();
    let mut t = false;
    let mut u = false;
    let mut iv = false;
    loop
        invariant
            n == rrs@.len(),
            done@.len() == n,
            vs == views(rrs@),
            an == anchor_views(anchors@),
            lists_ok(vs, an, now, l),
            forall|i: int| 0 <= i < n && done@[i] ==> rrset_accepted(vs, l, #[trigger] vs[i]) && in_list(used@, vs[i]),
            forall|i: int| 0 <= i < used@.len() ==> usable(vs, an, now, (#[trigger] used@[i])@),
            l.verified@.len() > 0 ==> used@.len() > 0,
            t ==> some_check_gives(vs, now, ValidationError::ValidAtOtherTime),
            u ==> some_check_gives(vs, now, ValidationError::UnsupportedAlgorithm),
            iv ==> some_check_gives(vs, now, ValidationError::Invalid),
            !anchored(vs, an) ==> l.endorsed@.len() == 0 && l.trusted@.len() == 0 && l.verified@.len() == 0 && !t
                && !u && !iv,
        ensures
            lists_ok(vs, an, now, l),
            forall|i: int| 0 <= i < n && done@[i] ==> rrset_accepted(vs, l, #[trigger] vs[i]) && in_list(used@, vs[i]),
            forall|i: int|
                0 <= i < n && !done@[i] && (#[trigger] vs[i]).rr_type == TYPE_RRSIG ==> forall|key: RrView|
                    #[trigger] in_list(keylist(l, covered(vs[i])), key) ==> !signed_by(vs, vs[i], key, now),
        decreases n - count_true(done@),
    {
        let ghost l_start = l;
        let ghost c0 = count_true(done@);
        let mut progress = false;
        let mut si: usize = 0;
        while si < n
            invariant
                n == rrs@.len(),
                done@.len() == n,
                si <= n,
                vs == views(rrs@),
                an == anchor_views(anchors@),
                lists_ok(vs, an, now, l),
                forall|i: int| 0 <= i < n && done@[i] ==> rrset_accepted(vs, l, #[trigger] vs[i]) && in_list(used@, vs[i]),
                forall|i: int| 0 <= i < used@.len() ==> usable(vs, an, now, (#[trigger] used@[i])@),
                l.verified@.len() > 0 ==> used@.len() > 0,
                t ==> some_check_gives(vs, now, ValidationError::ValidAtOtherTime),
                u ==> some_check_gives(vs, now, ValidationError::UnsupportedAlgorithm),
                iv ==> some_check_gives(vs, now, ValidationError::Invalid),
                !anchored(vs, an) ==> l.endorsed@.len() == 0 && l.trusted@.len() == 0 && l.verified@.len() == 0
                    && !t && !u && !iv,
                count_true(done@) >= c0,
                progress ==> count_true(done@) > c0,
                !progress ==> same_lists(l_start, l),
                !progress ==> forall|i: int|
                    0 <= i < si && !done@[i] && (#[trigger] vs[i]).rr_type == TYPE_RRSIG ==> forall|key: RrView|
                        #[trigger] in_list(keylist(l, covered(vs[i])), key) ==> !signed_by(vs, vs[i], key, now),
            decreases n - si,
        {
            if !done[si] {
                let ghost lb = l;
                let res = try_rrsig(&mut l, rrs, Ghost(an), si, now);
                if res.1 {
                    t = true;
                }
                if res.2 {
                    u = true;
                }
                if res.3 {
                    iv = true;
                }
                proof {
                    assert forall|i: int| 0 <= i < n && done@[i] implies rrset_accepted(vs, l, #[trigger] vs[i]) && in_list(
                        used@,
                        vs[i],
                    ) by {
                        lemma_accepted_grows(vs, lb, l, vs[i]);
                    }
                }
                proof {
                    if !res.0 && !progress {
                        assert(keylist(lb, covered(vs[si as int])) == keylist(l, covered(vs[si as int])));
                        assert forall|i: int|
                            0 <= i < si + 1 && !done@[i] && (#[trigger] vs[i]).rr_type == TYPE_RRSIG implies forall|key: RrView|
                                #[trigger] in_list(keylist(l, covered(vs[i])), key) ==> !signed_by(vs, vs[i], key, now) by {
                            if i < si {
                                if !progress {
                                    assert(keylist(lb, covered(vs[i])) == keylist(l, covered(vs[i])));
                                }
                            }
                        }
                    }
                }
                if res.0 {
                    let ghost dprev = done@;
                    let ghost ubefore = used@;
                    done.set(si, true);
                    used.push(copy_rr(&rrs[si]));
                    proof {
                        lemma_count_set(dprev, si as int);
                        assert(done@ == dprev.update(si as int, true));
                        assert(vs[si as int] == rrs@[si as int]@);
                        lemma_push_grows(ubefore, used@.last());
                        assert(used@ == ubefore.push(used@.last()));
                        assert forall|i: int| 0 <= i < n && done@[i] implies rrset_accepted(vs, l, #[trigger] vs[i])
                            && in_list(used@, vs[i]) by {
                            if i != si {
                                assert(dprev[i]);
                                lemma_grows_in(ubefore, used@, vs[i]);
                            }
                        }
                        assert forall|i: int| 0 <= i < used@.len() implies usable(vs, an, now, (#[trigger] used@[i])@) by {
                            if i < ubefore.len() {
                                assert(used@[i] == ubefore[i]);
                            }
                        }
                    }
                    progress = true;
                }
            }
            si = si + 1;
        }
        if !progress {
            break;
        }
        proof {
            lemma_count_bound(done@);
        }
    }
    proof {
        lemma_lists_targets(vs, an, now, l);
    }
    if l.verified.len() == 0 {
        proof {
            assert forall|x: RrView, f: nat| is_target(x) && #[trigger] established_at(vs, an, now, x, f) implies false by {
                lemma_complete(vs, an, now, l, done@, f);
                assert(acc(l, x.rr_type, x));
                let i = choose|i: int| 0 <= i < l.verified@.len() && (#[trigger] l.verified@[i])@ == x;
            }
        }
        if t {
            return Err(ValidationError::ValidAtOtherTime);
        }
        if u {
            return Err(ValidationError::UnsupportedAlgorithm);
        }
        if iv {
            return Err(ValidationError::Invalid);
        }
        return Err(ValidationError::UntrustedChain);
    }
    proof {
        assert forall|i: int| 0 <= i < used@.len() implies (#[trigger] used@[i]).rdata@.len() >= 18 by {
            lemma_usable_facts(vs, an, now, used@[i]@);
        }
    }
    let (vf, ex, ot) = window(&used);
    let mut ttl = ot;
    let ghost mut from_rr: bool = false;
    let ghost mut wit: int = 0;
    let mut k: usize = 0;
    while k < l.verified.len()
        invariant
            k <= l.verified@.len(),
            ttl <= ot,
            forall|m: int| 0 <= m < k ==> ttl <= (#[trigger] l.verified@[m]).ttl,
            from_rr ==> 0 <= wit < l.verified@.len() && l.verified@[wit].ttl == ttl,
            !from_rr ==> ttl == ot,
        decreases l.verified@.len() - k,
    {
        if l.verified[k].ttl < ttl {
            ttl = l.verified[k].ttl;
            proof {
                from_rr = true;
                wit = k as int;
            }
        }
        k = k + 1;
    }
    let ghost lf = l;
    let result = VerifiedRRStream { verified_rrs: l.verified, valid_from: vf as u64, expires: ex as u64, max_cache_ttl: ttl };
    proof {
        let v = result;
        assert(v.verified_rrs@ == lf.verified@);
        assert forall|s: RrView| usable(vs, an, now, s) implies in_list(used@, s) by {
            let (key, f) = choose|key: RrView, f: nat|
                #![trigger signed_by(vs, s, key, now), key_level(vs, an, now, key, covered(s), f)]
                signed_by(vs, s, key, now) && key_level(vs, an, now, key, covered(s), f);
            lemma_complete(vs, an, now, lf, done@, f);
            let si = choose|i: int| 0 <= i < vs.len() && vs[i] == s;
            if covered(s) == TYPE_DNSKEY {
                assert(in_list(lf.endorsed@, key));
            } else {
                assert(acc(lf, key.rr_type, key));
            }
            assert(in_list(keylist(lf, covered(vs[si])), key));
        }
        assert forall|x: RrView, f: nat| is_target(x) && #[trigger] established_at(vs, an, now, x, f) implies in_list(
            v.verified_rrs@,
            x,
        ) by {
            lemma_complete(vs, an, now, lf, done@, f);
            assert(acc(lf, x.rr_type, x));
        }
        let i1 = choose|i: int| 0 <= i < used@.len() && inception_of((#[trigger] used@[i])@) == vf;
        let i2 = choose|i: int| 0 <= i < used@.len() && expiration_of((#[trigger] used@[i])@) == ex;
        assert(usable(vs, an, now, used@[i1]@));
        assert(usable(vs, an, now, used@[i2]@));
        assert forall|s: RrView| usable(vs, an, now, s) implies inception_of(s) <= v.valid_from && v.expires
            <= expiration_of(s) && v.max_cache_ttl <= orig_ttl_of(s) by {
            assert(in_list(used@, s));
            let i = choose|i: int| 0 <= i < used@.len() && (#[trigger] used@[i])@ == s;
        }
        lemma_lists_targets(vs, an, now, lf);
        assert(0 < lf.verified@.len());
        assert(targets_of(vs, an, now, lf.verified@));
        let x0 = lf.verified@[0];
        assert(exists|f: nat| established_at(vs, an, now, x0@, f));
        assert(is_target(x0@));
        let f0 = choose|f: nat| established_at(vs, an, now, lf.verified@[0]@, f);
        assert(is_target(lf.verified@[0]@) && established_at(vs, an, now, lf.verified@[0]@, f0));
        lemma_usable_facts(vs, an, now, used@[i1]@);
        lemma_usable_facts(vs, an, now, used@[i2]@);
        if !from_rr {
            let i3 = choose|i: int| 0 <= i < used@.len() && orig_ttl_of((#[trigger] used@[i])@) == ot;
            assert(usable(vs, an, now, used@[i3]@));
        }
    }
    Ok(result)
}


/// The DS data of the root zone's key-signing keys (key tags 20326 and 38696,
/// algorithm 8, SHA-256 digests).
pub open spec fn root_anchor_data() -> Seq<Seq<u8>> {
    seq![
        seq![
            0x4fu8, 0x66, 8, 2, 0xe0, 0x6d, 0x44, 0xb8, 0x0b, 0x8f, 0x1d, 0x39,
            0xa9, 0x5c, 0x0b, 0x0d, 0x7c, 0x65, 0xd0, 0x84, 0x58, 0xe8, 0x80, 0x40,
            0x9b, 0xbc, 0x68, 0x34, 0x57, 0x10, 0x42, 0x37, 0xc7, 0xf8, 0xec, 0x8d,
        ],
        seq![
            0x97u8, 0x28, 8, 2, 0x68, 0x3d, 0x2d, 0x0a, 0xcb, 0x8c, 0x9b, 0x71,
            0x2a, 0x19, 0x48, 0xb2, 0x7f, 0x74, 0x12, 0x19, 0x29, 0x8d, 0x0a, 0x45,
            0x0d, 0x61, 0x2c, 0x48, 0x3a, 0xf4, 0x44, 0xa4, 0xc0, 0xfb, 0x2b, 0x16,
        ],
    ]
}

/// The DS data of the root zone's key-signing keys.
pub fn root_anchors() -> (r: Vec<Vec<u8>>)
    ensures
        anchor_views(r@) == root_anchor_data(),
{
    let a: Vec<u8> = vec![
        0x4fu8, 0x66, 8, 2, 0xe0, 0x6d, 0x44, 0xb8, 0x0b, 0x8f, 0x1d, 0x39,
        0xa9, 0x5c, 0x0b, 0x0d, 0x7c, 0x65, 0xd0, 0x84, 0x58, 0xe8, 0x80, 0x40,
        0x9b, 0xbc, 0x68, 0x34, 0x57, 0x10, 0x42, 0x37, 0xc7, 0xf8, 0xec, 0x8d,
    ];
    let b: Vec<u8> = vec![
        0x97u8, 0x28, 8, 2, 0x68, 0x3d, 0x2d, 0x0a, 0xcb, 0x8c, 0x9b, 0x71,
        0x2a, 0x19, 0x48, 0xb2, 0x7f, 0x74, 0x12, 0x19, 0x29, 0x8d, 0x0a, 0x45,
        0x0d, 0x61, 0x2c, 0x48, 0x3a, 0xf4, 0x44, 0xa4, 0xc0, 0xfb, 0x2b, 0x16,
    ];
    let ghost av = a@;
    let ghost bv = b@;
    let mut r: Vec<Vec<u8>> = Vec::new();
    r.push(a);
    r.push(b);
    proof {
        assert(anchor_views(r@) =~= seq![av, bv]);
        assert(av =~= root_anchor_data()[0]);
        assert(bv =~= root_anchor_data()[1]);
        assert(anchor_views(r@) =~= root_anchor_data());
    }
    r
}

/// Validates the records of a proof against the root zone's trust anchors at the
/// time `now` (POSIX seconds).
pub fn verify_rr_stream(rrs: &Vec<Rr>, now: u64) -> (r: Result<VerifiedRRStream, ValidationError>)
    ensures
        stream_result(views(rrs@), root_anchor_data(), now, r),
{
    let anchors = root_anchors();
    verify_rr_stream_with_anchors(rrs, &anchors, now)
}

} // verus!
