//! The pure part of building a proof by asking a recursive resolver: the query
//! message, the handling of each response, and the choice of the next query.
use vstd::prelude::*;
use crate::wire::{
    RrView, Rr, be16, be32, name_at, pkt_name, read_name, read_u16, read_u32,
    read_wire_packet_name, lemma_pkt_end_bounds, push_all,
};

verus! {

/// The transaction ID of every query; only signed data is accepted, so it need
/// not be random.
pub const TXID: u16 = 0x4242;

pub const TYPE_NS: u16 = 2;
pub const TYPE_CNAME: u16 = 5;
pub const TYPE_DNAME: u16 = 39;
pub const TYPE_DS: u16 = 43;
pub const TYPE_RRSIG: u16 = 46;
pub const TYPE_DNSKEY: u16 = 48;

/// Why a response was refused.
#[derive(PartialEq, Eq, Structural, Debug, Clone, Copy)]
pub enum QueryError {
    BadResponse,
    BadTxid,
    MissingResponseFlag,
    ServerError,
    NotAuthenticated,
    MultipleQuestions,
    TooManyRequests,
}

pub open spec fn u16be(v: u16) -> Seq<u8> {
    seq![(v / 256) as u8, (v % 256) as u8]
}

pub open spec fn u32be(v: u32) -> Seq<u8> {
    seq![(v / 0x100_0000) as u8, ((v / 0x1_0000) % 256) as u8, ((v / 256) % 256) as u8, (v % 256) as u8]
}

/// The query for `ty` records at `name`, with its two-byte length prefix, asking
/// for recursion and DNSSEC records.
pub open spec fn query_bytes(name: Seq<u8>, ty: u16) -> Seq<u8> {
    u16be((name.len() + 27) as u16) + seq![0x42u8, 0x42, 0x01, 0x20, 0, 1, 0, 0, 0, 0, 0, 1] + name
        + u16be(ty) + seq![0u8, 1, 0, 0, 0x29, 0, 0, 0, 0, 0x80, 0, 0, 0]
}

/// The wire form of a record in the uncompressed format, with the given TTL.
pub open spec fn rr_bytes(rr: RrView, ttl: u32) -> Seq<u8> {
    rr.name + u16be(rr.rr_type) + u16be(rr.class) + u32be(ttl) + u16be(rr.rdata.len() as u16) + rr.rdata
}

/// Whether a record type's data is a single domain name.
pub open spec fn name_rdata(t: u16) -> bool {
    t == TYPE_NS || t == TYPE_CNAME || t == TYPE_DNAME
}

/// The record at `pos` of a DNS message and where it ends. Names in NS, CNAME
/// and DNAME data are decompressed; an RRSIG must hold a signer name.
pub open spec fn pkt_rr_at(s: Seq<u8>, pos: nat) -> Option<(RrView, nat)> {
    match pkt_name(s, pos) {
        Some((name, e)) => if e + 10 > s.len() {
            None
        } else {
            let t = be16(s, e as int);
            let cl = be16(s, e + 2int);
            let ttl = be32(s, e + 4int);
            let rs = (e + 10) as nat;
            let re = (rs + be16(s, e + 8int)) as nat;
            if cl != 1 || re > s.len() {
                None
            } else if name_rdata(t) {
                match pkt_name(s, rs) {
                    Some((n2, e2)) => if e2 == re {
                        Some((RrView { name, rr_type: t, class: cl, ttl, rdata: n2 }, re))
                    } else {
                        None
                    },
                    None => None,
                }
            } else {
                let rdata = s.subrange(rs as int, re as int);
                if t == TYPE_RRSIG && (rdata.len() < 18 || name_at(rdata, 18) is None) {
                    None
                } else {
                    Some((RrView { name, rr_type: t, class: cl, ttl, rdata }, re))
                }
            }
        },
        None => None,
    }
}

/// The proof bytes of `k` answers from `pos`, and the last RRSIG among them.
pub open spec fn answers_spec(s: Seq<u8>, pos: nat, k: nat) -> Option<(Seq<u8>, Option<RrView>)>
    decreases k,
{
    if k == 0 {
        Some((Seq::empty(), None))
    } else {
        match pkt_rr_at(s, pos) {
            Some((rr, e)) => match answers_spec(s, e, (k - 1) as nat) {
                Some((b, sg)) => Some(
                    (
                        rr_bytes(rr, 0) + b,
                        if sg is Some {
                            sg
                        } else if rr.rr_type == TYPE_RRSIG {
                            Some(rr)
                        } else {
                            None
                        },
                    ),
                ),
                None => None,
            },
            None => None,
        }
    }
}

pub open spec fn join(b: Seq<u8>, sg: Option<RrView>, r: Option<(Seq<u8>, Option<RrView>)>) -> Option<
    (Seq<u8>, Option<RrView>),
> {
    match r {
        Some((b2, sg2)) => Some((b + b2, if sg2 is Some { sg2 } else { sg })),
        None => None,
    }
}

/// What a response `s` adds to the proof (its answers, with TTL 0) and the last
/// RRSIG among them, or why it is refused.
pub open spec fn response_spec(s: Seq<u8>) -> Result<(Seq<u8>, Option<RrView>), QueryError> {
    if s.len() < 2 {
        Err(QueryError::BadResponse)
    } else if be16(s, 0) != TXID {
        Err(QueryError::BadTxid)
    } else if s.len() < 4 {
        Err(QueryError::BadResponse)
    } else if be16(s, 2) & 0x8000 == 0 {
        Err(QueryError::MissingResponseFlag)
    } else if be16(s, 2) & 0x7a07 != 0 {
        Err(QueryError::ServerError)
    } else if be16(s, 2) & 0x20 == 0 {
        Err(QueryError::NotAuthenticated)
    } else if s.len() < 6 {
        Err(QueryError::BadResponse)
    } else if be16(s, 4) != 1 {
        Err(QueryError::MultipleQuestions)
    } else if s.len() < 12 {
        Err(QueryError::BadResponse)
    } else {
        match pkt_name(s, 12) {
            Some((_, e)) => if e + 4 > s.len() {
                Err(QueryError::BadResponse)
            } else {
                match answers_spec(s, e + 4, be16(s, 6) as nat) {
                    Some(r) => Ok(r),
                    None => Err(QueryError::BadResponse),
                }
            },
            None => Err(QueryError::BadResponse),
        }
    }
}

/// Maps a parse failure to `BadResponse`.
pub fn emap<V>(v: Result<V, ()>) -> (r: Result<V, QueryError>)
    ensures
        match v {
            Ok(x) => r == Ok::<V, QueryError>(x),
            Err(_) => r == Err::<V, QueryError>(QueryError::BadResponse),
        },
{
    match v {
        Ok(x) => Ok(x),
        Err(_) => Err(QueryError::BadResponse),
    }
}

fn push_u16(out: &mut Vec<u8>, v: u16)
    ensures
        final(out)@ == old(out)@ + u16be(v),
{
    out.push((v / 256) as u8);
    out.push((v % 256) as u8);
    proof {
        assert(final(out)@ =~= old(out)@ + u16be(v));
    }
}

fn push_u32(out: &mut Vec<u8>, v: u32)
    ensures
        final(out)@ == old(out)@ + u32be(v),
{
    out.push((v / 0x100_0000) as u8);
    out.push(((v / 0x1_0000) % 256) as u8);
    out.push(((v / 256) % 256) as u8);
    out.push((v % 256) as u8);
    proof {
        assert(final(out)@ =~= old(out)@ + u32be(v));
    }
}

/// The query message for `ty` records at `domain` (a name in wire form), with
/// its length prefix for TCP.
pub fn build_query(domain: &[u8], ty: u16) -> (r: Vec<u8>)
    requires
        domain@.len() <= 255,
    ensures
        r@ == query_bytes(domain@, ty),
{
    let mut query: Vec<u8> = Vec::new();
    let query_msg_len: u16 = 2 + 2 + 8 + 2 + 2 + domain.len() as u16 + 11;
    push_u16(&mut query, query_msg_len);
    push_u16(&mut query, TXID);
    push_all(&mut query, &[0x01, 0x20]);
    push_all(&mut query, &[0, 1, 0, 0, 0, 0, 0, 1]);
    push_all(&mut query, domain);
    push_u16(&mut query, ty);
    push_u16(&mut query, 1);
    push_all(&mut query, &[0, 0, 0x29]);
    push_u16(&mut query, 0);
    push_all(&mut query, &[0, 0]);
    push_u16(&mut query, 0x8000);
    push_u16(&mut query, 0);
    proof {
        assert(query@ =~= query_bytes(domain@, ty));
    }
    query
}

/// Appends the record in the uncompressed format with the given TTL.
pub fn write_rr(rr: &Rr, ttl: u32, out: &mut Vec<u8>)
    requires
        rr.rdata@.len() <= 0xffff,
    ensures
        final(out)@ == old(out)@ + rr_bytes(rr@, ttl),
{
    push_all(out, rr.name.as_slice());
    push_u16(out, rr.rr_type);
    push_u16(out, rr.class);
    push_u32(out, ttl);
    push_u16(out, rr.rdata.len() as u16);
    push_all(out, rr.rdata.as_slice());
    proof {
        assert(final(out)@ =~= old(out)@ + rr_bytes(rr@, ttl));
    }
}

/// Reads the record at `pos` of the message `s`.
pub fn parse_wire_packet_rr(s: &[u8], pos: usize) -> (r: Result<(Rr, usize), ()>)
    ensures
        match r {
            Ok((rr, e)) => pkt_rr_at(s@, pos as nat) == Some((rr@, e as nat)) && rr.rdata@.len() <= 0xffff,
            Err(_) => pkt_rr_at(s@, pos as nat) is None,
        },
{
    let (name, e) = read_wire_packet_name(s, pos)?;
    proof {
        lemma_pkt_end_bounds(s@, pos as nat);
    }
    if s.len() - e < 10 {
        return Err(());
    }
    let rr_type = read_u16(s, e)?;
    let class = read_u16(s, e + 2)?;
    let ttl = read_u32(s, e + 4)?;
    let rdlen = read_u16(s, e + 8)?;
    let rs: usize = e + 10;
    if class != 1 || s.len() - rs < rdlen as usize {
        return Err(());
    }
    let re: usize = rs + rdlen as usize;
    if rr_type == TYPE_NS || rr_type == TYPE_CNAME || rr_type == TYPE_DNAME {
        let (n2, e2) = read_wire_packet_name(s, rs)?;
        if e2 != re {
            return Err(());
        }
        proof {
            crate::wire::lemma_pkt_labels_len(s@, rs as nat, Seq::empty());
        }
        let rr = Rr { name, rr_type, class, ttl, rdata: n2 };
        return Ok((rr, re));
    }
    let mut rdata: Vec<u8> = Vec::new();
    push_all(&mut rdata, &s[rs..re]);
    proof {
        assert(rdata@ =~= s@.subrange(rs as int, re as int));
    }
    if rr_type == TYPE_RRSIG {
        if rdata.len() < 18 {
            return Err(());
        }
        let _ = read_name(rdata.as_slice(), 18)?;
    }
    let rr = Rr { name, rr_type, class, ttl, rdata };
    Ok((rr, re))
}

/// Checks a response to one of our queries and appends its answer records to
/// `proof` (with TTL 0). Returns the last RRSIG among the answers, which says
/// what to ask next. On a refusal `proof` is left as it was.
pub fn handle_response(resp: &[u8], proof: &mut Vec<u8>) -> (r: Result<Option<Rr>, QueryError>)
    ensures
        match response_spec(resp@) {
            Ok((b, sg)) => final(proof)@ == old(proof)@ + b && match r {
                Ok(Some(x)) => sg == Some(x@),
                Ok(None) => sg is None,
                Err(_) => false,
            },
            Err(e) => r == Err::<Option<Rr>, QueryError>(e) && final(proof)@ == old(proof)@,
        },
{
    if emap(read_u16(resp, 0))? != TXID {
        return Err(QueryError::BadTxid);
    }
    let flags = emap(read_u16(resp, 2))?;
    if flags & 0b1000_0000_0000_0000 == 0 {
        return Err(QueryError::MissingResponseFlag);
    }
    if flags & 0b0111_1010_0000_0111 != 0 {
        return Err(QueryError::ServerError);
    }
    if flags & 0b10_0000 == 0 {
        return Err(QueryError::NotAuthenticated);
    }
    let questions = emap(read_u16(resp, 4))?;
    if questions != 1 {
        return Err(QueryError::MultipleQuestions);
    }
    let answers = emap(read_u16(resp, 6))?;
    let _authorities = emap(read_u16(resp, 8))?;
    let _additional = emap(read_u16(resp, 10))?;

    let (_, qe) = emap(read_wire_packet_name(resp, 12))?;
    proof {
        lemma_pkt_end_bounds(resp@, 12);
    }
    if resp.len() - qe < 4 {
        return Err(QueryError::BadResponse);
    }
    let p0: usize = qe + 4;

    let mut added: Vec<u8> = Vec::new();
    let mut rrsig_opt: Option<Rr> = None;
    let mut pos: usize = p0;
    let mut i: u16 = 0;
    proof {
        assert(Seq::<u8>::empty() + answers_spec(resp@, p0 as nat, answers as nat).unwrap_or(
            (Seq::empty(), None),
        ).0 =~= answers_spec(resp@, p0 as nat, answers as nat).unwrap_or((Seq::empty(), None)).0);
    }
    while i < answers
        invariant
            i <= answers,
            proof@ == old(proof)@,
            response_spec(resp@) == match answers_spec(resp@, p0 as nat, answers as nat) {
                Some(r) => Ok(r),
                None => Err(QueryError::BadResponse),
            },
            answers == be16(resp@, 6),
            answers_spec(resp@, p0 as nat, answers as nat) == join(
                added@,
                match rrsig_opt {
                    Some(x) => Some(x@),
                    None => None,
                },
                answers_spec(resp@, pos as nat, (answers - i) as nat),
            ),
        decreases answers - i,
    {
        let (rr, e) = match parse_wire_packet_rr(resp, pos) {
            Ok(x) => x,
            Err(_) => {
                return Err(QueryError::BadResponse);
            },
        };
        let ghost before = added@;
        let ghost rv = rr@;
        write_rr(&rr, 0, &mut added);
        proof {
            match answers_spec(resp@, e as nat, (answers - i - 1) as nat) {
                Some((b3, _)) => {
                    assert(before + (rr_bytes(rv, 0) + b3) =~= added@ + b3);
                },
                None => {},
            }
        }
        if rr.rr_type == TYPE_RRSIG {
            rrsig_opt = Some(rr);
        }
        pos = e;
        i = i + 1;
    }
    proof {
        assert(added@ + Seq::<u8>::empty() =~= added@);
    }
    push_all(proof, added.as_slice());
    Ok(rrsig_opt)
}

/// What to do after a response.
pub enum Step {
    /// The root's keys were reached: the proof is complete.
    Done,
    /// Ask for records of the type at the name.
    Ask(Vec<u8>, u16),
    /// Nothing to ask: read the next response.
    Wait,
}

/// How many responses a proof may take.
pub const MAX_ROUNDS: usize = 10;

/// The step after the response of round `round` (counted from 0), whose last
/// RRSIG is `rrsig`: as `next_query` chooses, except that a walk that has not
/// reached the root after the last round gives up with `TooManyRequests`.
pub fn step_after_response(round: usize, rrsig: &Option<Rr>) -> (r: Result<Step, QueryError>)
    ensures
        match rrsig {
            Some(sig) => if sig.name@ == root_name() {
                r matches Ok(Step::Done)
            } else if round + 1 >= MAX_ROUNDS {
                r == Err::<Step, QueryError>(QueryError::TooManyRequests)
            } else {
                match signer_of(sig.rdata@) {
                    None => r == Err::<Step, QueryError>(QueryError::BadResponse),
                    Some(k) => r matches Ok(Step::Ask(n, t)) && n@ == k && t == if sig.name@ == k {
                        TYPE_DS
                    } else {
                        TYPE_DNSKEY
                    },
                }
            },
            None => if round + 1 >= MAX_ROUNDS {
                r == Err::<Step, QueryError>(QueryError::TooManyRequests)
            } else {
                r matches Ok(Step::Wait)
            },
        },
{
    match next_query(rrsig) {
        Ok(Step::Done) => Ok(Step::Done),
        Ok(step) => {
            if round >= MAX_ROUNDS - 1 {
                Err(QueryError::TooManyRequests)
            } else {
                Ok(step)
            }
        },
        Err(()) => {
            if round >= MAX_ROUNDS - 1 {
                Err(QueryError::TooManyRequests)
            } else {
                Err(QueryError::BadResponse)
            }
        },
    }
}

/// The owner name of the root zone.
pub open spec fn root_name() -> Seq<u8> {
    seq![0u8]
}

/// The signer name of an RRSIG's data.
pub open spec fn signer_of(rdata: Seq<u8>) -> Option<Seq<u8>> {
    match name_at(rdata, 18) {
        Some((n, _)) => Some(n),
        None => None,
    }
}

/// Chooses the next query from the last RRSIG of a response: an RRSIG over the
/// root ends the walk; one whose signer is its own owner (a key set) asks for
/// the signer's DS records; any other asks for the signer's DNSKEY records.
pub fn next_query(rrsig: &Option<Rr>) -> (r: Result<Step, ()>)
    ensures
        match rrsig {
            None => r matches Ok(Step::Wait),
            Some(sig) => if sig.name@ == root_name() {
                r matches Ok(Step::Done)
            } else {
                match signer_of(sig.rdata@) {
                    None => r is Err,
                    Some(k) => r matches Ok(Step::Ask(n, t)) && n@ == k && t == if sig.name@ == k {
                        TYPE_DS
                    } else {
                        TYPE_DNSKEY
                    },
                }
            },
        },
{
    match rrsig {
        None => Ok(Step::Wait),
        Some(sig) => {
            if sig.name.len() == 1 && sig.name[0] == 0 {
                proof {
                    assert(sig.name@ =~= root_name());
                }
                return Ok(Step::Done);
            }
            proof {
                if sig.name@ == root_name() {
                    assert(sig.name@.len() == 1);
                }
            }
            if sig.rdata.len() < 18 {
                return Err(());
            }
            let (key_name, _) = read_name(sig.rdata.as_slice(), 18)?;
            let same = bytes_eq(&sig.name, &key_name);
            if same {
                Ok(Step::Ask(key_name, TYPE_DS))
            } else {
                Ok(Step::Ask(key_name, TYPE_DNSKEY))
            }
        },
    }
}

/// Whether two byte strings are equal.
pub fn bytes_eq(a: &Vec<u8>, b: &Vec<u8>) -> (r: bool)
    ensures
        r == (a@ == b@),
{
    if a.len() != b.len() {
        return false;
    }
    let mut i: usize = 0;
    while i < a.len()
        invariant
            a@.len() == b@.len(),
            i <= a@.len(),
            a@.subrange(0, i as int) == b@.subrange(0, i as int),
        decreases a@.len() - i,
    {
        if a[i] != b[i] {
            return false;
        }
        i = i + 1;
        proof {
            assert(a@.subrange(0, i as int) =~= a@.subrange(0, i - 1).push(a@[i - 1]));
            assert(b@.subrange(0, i as int) =~= b@.subrange(0, i - 1).push(b@[i - 1]));
        }
    }
    proof {
        assert(a@ =~= a@.subrange(0, i as int));
        assert(b@ =~= b@.subrange(0, i as int));
    }
    true
}

} // verus!
