//! DNS wire format: names, resource records, and the RFC 9102 stream of records.
use vstd::prelude::*;

verus! {

/// ASCII lowercase of one byte; other bytes pass through.
pub open spec fn lower_byte(b: u8) -> u8 {
    if 65 <= b && b <= 90 {
        (b + 32) as u8
    } else {
        b
    }
}

pub open spec fn lower(s: Seq<u8>) -> Seq<u8> {
    s.map_values(|b: u8| lower_byte(b))
}

/// Lowercasing a name twice is lowercasing it once.
pub proof fn lemma_lower_idempotent(s: Seq<u8>)
    ensures
        lower(lower(s)) == lower(s),
{
    assert(lower(lower(s)) =~= lower(s));
}

pub fn lower_byte_exec(b: u8) -> (r: u8)
    ensures
        r == lower_byte(b),
{
    if 65 <= b && b <= 90 {
        b + 32
    } else {
        b
    }
}

/// Big-endian 16-bit integer at `pos`.
pub open spec fn be16(s: Seq<u8>, pos: int) -> u16 {
    (s[pos] as nat * 256 + s[pos + 1] as nat) as u16
}

/// Big-endian 32-bit integer at `pos`.
pub open spec fn be32(s: Seq<u8>, pos: int) -> u32 {
    (s[pos] as nat * 0x100_0000 + s[pos + 1] as nat * 0x1_0000 + s[pos + 2] as nat * 0x100
        + s[pos + 3] as nat) as u32
}

/// Where the uncompressed labels that start at `pos` end (after the empty root
/// label); `None` where a label is longer than 63 bytes, is a compression
/// pointer, or runs past the end.
pub open spec fn labels_end(s: Seq<u8>, pos: nat) -> Option<nat>
    decreases s.len() - pos,
{
    if pos >= s.len() {
        None
    } else if s[pos as int] == 0 {
        Some(pos + 1)
    } else if s[pos as int] > 63 || pos + 1 + s[pos as int] > s.len() {
        None
    } else {
        labels_end(s, (pos + 1 + s[pos as int]) as nat)
    }
}

pub proof fn lemma_labels_end_bounds(s: Seq<u8>, pos: nat)
    ensures
        labels_end(s, pos) matches Some(e) ==> pos < e <= s.len(),
    decreases s.len() - pos,
{
    if pos < s.len() && s[pos as int] != 0 && s[pos as int] <= 63 && pos + 1 + s[pos as int] <= s.len() {
        lemma_labels_end_bounds(s, (pos + 1 + s[pos as int]) as nat);
    }
}

/// The uncompressed name at `pos`: its lowercase wire form and where it ends.
/// At most 255 bytes long.
pub open spec fn name_at(s: Seq<u8>, pos: nat) -> Option<(Seq<u8>, nat)> {
    match labels_end(s, pos) {
        Some(e) => if e - pos <= 255 {
            Some((lower(s.subrange(pos as int, e as int)), e))
        } else {
            None
        },
        None => None,
    }
}

/// A resource record as plain values: owner name (lowercase wire form), type,
/// class, TTL and RDATA.
pub struct RrView {
    pub name: Seq<u8>,
    pub rr_type: u16,
    pub class: u16,
    pub ttl: u32,
    pub rdata: Seq<u8>,
}

/// The record at `pos` in the uncompressed format, and where it ends. Its class
/// must be IN (1).
pub open spec fn rr_at(s: Seq<u8>, pos: nat) -> Option<(RrView, nat)> {
    match name_at(s, pos) {
        Some((name, e)) => if e + 10 > s.len() {
            None
        } else {
            let rdlen = be16(s, e + 8int) as nat;
            if be16(s, e + 2int) != 1 || e + 10 + rdlen > s.len() {
                None
            } else {
                Some(
                    (
                        RrView {
                            name,
                            rr_type: be16(s, e as int),
                            class: be16(s, e + 2int),
                            ttl: be32(s, e + 4int),
                            rdata: s.subrange(e + 10int, (e + 10 + rdlen) as int),
                        },
                        (e + 10 + rdlen) as nat,
                    ),
                )
            }
        },
        None => None,
    }
}

/// The records of the stream from `pos` to its end; `None` unless it is an exact
/// sequence of well-formed records.
pub open spec fn stream_from(s: Seq<u8>, pos: nat) -> Option<Seq<RrView>>
    decreases s.len() - pos,
{
    if pos >= s.len() {
        Some(Seq::empty())
    } else {
        match rr_at(s, pos) {
            Some((rr, e)) => if e <= pos {
                None
            } else {
                match stream_from(s, e) {
                    Some(rest) => Some(seq![rr] + rest),
                    None => None,
                }
            },
            None => None,
        }
    }
}

/// A resource record.
#[derive(Debug, Clone)]
pub struct Rr {
    pub name: Vec<u8>,
    pub rr_type: u16,
    pub class: u16,
    pub ttl: u32,
    pub rdata: Vec<u8>,
}

impl View for Rr {
    type V = RrView;

    open spec fn view(&self) -> RrView {
        RrView {
            name: self.name@,
            rr_type: self.rr_type,
            class: self.class,
            ttl: self.ttl,
            rdata: self.rdata@,
        }
    }
}

pub open spec fn views(v: Seq<Rr>) -> Seq<RrView> {
    v.map_values(|r: Rr| r@)
}

/// Appends the bytes of `b` to `out`.
pub fn push_all(out: &mut Vec<u8>, b: &[u8])
    ensures
        final(out)@ == old(out)@ + b@,
{
    let mut i: usize = 0;
    while i < b.len()
        invariant
            i <= b@.len(),
            out@ == old(out)@ + b@.subrange(0, i as int),
        decreases b@.len() - i,
    {
        out.push(b[i]);
        i = i + 1;
        proof {
            assert(out@ =~= old(out)@ + b@.subrange(0, i as int));
        }
    }
    proof {
        assert(b@.subrange(0, b@.len() as int) =~= b@);
    }
}

pub fn read_u16(s: &[u8], pos: usize) -> (r: Result<u16, ()>)
    ensures
        r is Ok <==> pos + 2 <= s@.len(),
        r matches Ok(v) ==> v == be16(s@, pos as int),
{
    if pos >= s.len() || s.len() - pos < 2 {
        return Err(());
    }
    Ok((s[pos] as u16) * 256 + s[pos + 1] as u16)
}

pub fn read_u32(s: &[u8], pos: usize) -> (r: Result<u32, ()>)
    ensures
        r is Ok <==> pos + 4 <= s@.len(),
        r matches Ok(v) ==> v == be32(s@, pos as int),
{
    if pos >= s.len() || s.len() - pos < 4 {
        return Err(());
    }
    Ok((s[pos] as u32) * 0x100_0000 + (s[pos + 1] as u32) * 0x1_0000 + (s[pos + 2] as u32) * 0x100
        + s[pos + 3] as u32)
}

/// Copies `s[start..end]` in lowercase.
pub fn lower_copy(s: &[u8], start: usize, end: usize) -> (r: Vec<u8>)
    requires
        start <= end <= s@.len(),
    ensures
        r@ == lower(s@.subrange(start as int, end as int)),
{
    let mut out: Vec<u8> = Vec::new();
    let mut i: usize = start;
    while i < end
        invariant
            start <= i <= end <= s@.len(),
            out@ == lower(s@.subrange(start as int, i as int)),
        decreases end - i,
    {
        out.push(lower_byte_exec(s[i]));
        i = i + 1;
        proof {
            assert(out@ =~= lower(s@.subrange(start as int, i as int)));
        }
    }
    out
}

/// Reads the uncompressed name at `pos`.
pub fn read_name(s: &[u8], pos: usize) -> (r: Result<(Vec<u8>, usize), ()>)
    ensures
        match r {
            Ok((n, e)) => name_at(s@, pos as nat) == Some((n@, e as nat)),
            Err(_) => name_at(s@, pos as nat) is None,
        },
{
    let mut cur: usize = pos;
    let mut end: usize = 0;
    loop
        invariant
            pos <= cur,
            labels_end(s@, pos as nat) == labels_end(s@, cur as nat),
        ensures
            labels_end(s@, pos as nat) == Some(end as nat),
            pos < end <= s@.len(),
        decreases s@.len() - cur,
    {
        if cur >= s.len() {
            return Err(());
        }
        let l = s[cur];
        if l == 0 {
            end = cur + 1;
            break;
        }
        if l > 63 {
            return Err(());
        }
        if s.len() - cur <= l as usize {
            proof {
                assert(labels_end(s@, (cur + 1 + l) as nat) is None);
            }
            return Err(());
        }
        cur = cur + 1 + l as usize;
    }
    if end - pos > 255 {
        return Err(());
    }
    Ok((lower_copy(s, pos, end), end))
}

/// Reads the record at `pos` in the uncompressed format.
pub fn read_rr(s: &[u8], pos: usize) -> (r: Result<(Rr, usize), ()>)
    ensures
        match r {
            Ok((rr, e)) => rr_at(s@, pos as nat) == Some((rr@, e as nat)),
            Err(_) => rr_at(s@, pos as nat) is None,
        },
{
    let (name, e) = read_name(s, pos)?;
    proof {
        lemma_labels_end_bounds(s@, pos as nat);
    }
    if s.len() - e < 10 {
        return Err(());
    }
    let rr_type = read_u16(s, e)?;
    let class = read_u16(s, e + 2)?;
    let ttl = read_u32(s, e + 4)?;
    let rdlen = read_u16(s, e + 8)?;
    if class != 1 || s.len() - (e + 10) < rdlen as usize {
        return Err(());
    }
    let mut rdata: Vec<u8> = Vec::new();
    let mut i: usize = e + 10;
    let stop: usize = e + 10 + rdlen as usize;
    while i < stop
        invariant
            e + 10 <= i <= stop <= s@.len(),
            rdata@ == s@.subrange(e + 10, i as int),
        decreases stop - i,
    {
        rdata.push(s[i]);
        i = i + 1;
        proof {
            assert(rdata@ =~= s@.subrange(e + 10, i as int));
        }
    }
    let rr = Rr { name, rr_type, class, ttl, rdata };
    proof {
        assert(rr@ == rr_at(s@, pos as nat).unwrap().0);
    }
    Ok((rr, stop))
}

pub open spec fn prepend(a: Seq<RrView>, r: Option<Seq<RrView>>) -> Option<Seq<RrView>> {
    match r {
        Some(x) => Some(a + x),
        None => None,
    }
}

/// Parses an RFC 9102 stream: records in the uncompressed wire format, one after
/// another, up to the last byte. Fails unless the whole input is such records.
pub fn parse_rr_stream(s: &[u8]) -> (r: Result<Vec<Rr>, ()>)
    ensures
        match r {
            Ok(v) => stream_from(s@, 0) == Some(views(v@)),
            Err(_) => stream_from(s@, 0) is None,
        },
{
    let mut out: Vec<Rr> = Vec::new();
    let mut pos: usize = 0;
    proof {
        assert(views(out@) + stream_from(s@, 0).unwrap_or(Seq::empty()) =~= stream_from(s@, 0).unwrap_or(
            Seq::empty(),
        ));
    }
    while pos < s.len()
        invariant
            pos <= s@.len(),
            stream_from(s@, 0) == prepend(views(out@), stream_from(s@, pos as nat)),
        decreases s@.len() - pos,
    {
        let (rr, e) = read_rr(s, pos)?;
        if e <= pos {
            return Err(());
        }
        let ghost before = out@;
        let ghost rv = rr@;
        out.push(rr);
        proof {
            assert(views(out@) =~= views(before) + seq![rv]);
            match stream_from(s@, e as nat) {
                Some(rest) => {
                    assert(views(before) + (seq![rv] + rest) =~= views(out@) + rest);
                },
                None => {},
            }
        }
        pos = e;
    }
    proof {
        assert(views(out@) + Seq::<RrView>::empty() =~= views(out@));
    }
    Ok(out)
}

/// The labels of the name at `pos` in a DNS message, following compression
/// pointers, appended to `acc`. A pointer must point strictly before itself, a
/// label is at most 63 bytes, and the decoded name at most 255.
pub open spec fn pkt_labels(s: Seq<u8>, pos: nat, acc: Seq<u8>) -> Option<Seq<u8>>
    decreases 256 - acc.len(), pos,
{
    if acc.len() > 255 || pos >= s.len() {
        None
    } else {
        let l = s[pos as int];
        if l == 0 {
            if acc.len() + 1 > 255 {
                None
            } else {
                Some(acc.push(0))
            }
        } else if l >= 0xc0 {
            if pos + 1 >= s.len() {
                None
            } else {
                let off = ((l - 0xc0) * 256 + s[pos + 1int]) as nat;
                if off >= pos {
                    None
                } else {
                    pkt_labels(s, off, acc)
                }
            }
        } else if l > 63 || pos + 1 + l > s.len() {
            None
        } else {
            let acc2 = acc + s.subrange(pos as int, pos + 1 + l);
            if acc2.len() > 255 {
                None
            } else {
                pkt_labels(s, (pos + 1 + l) as nat, acc2)
            }
        }
    }
}

/// Where the name at `pos` in a DNS message ends: after its root label or after
/// its first compression pointer.
pub open spec fn pkt_end(s: Seq<u8>, pos: nat) -> Option<nat>
    decreases s.len() - pos,
{
    if pos >= s.len() {
        None
    } else {
        let l = s[pos as int];
        if l == 0 {
            Some(pos + 1)
        } else if l >= 0xc0 {
            if pos + 1 >= s.len() {
                None
            } else {
                Some(pos + 2)
            }
        } else if l > 63 || pos + 1 + l > s.len() {
            None
        } else {
            pkt_end(s, (pos + 1 + l) as nat)
        }
    }
}

/// The name at `pos` in a DNS message, decompressed and in lowercase, and where
/// it ends.
pub open spec fn pkt_name(s: Seq<u8>, pos: nat) -> Option<(Seq<u8>, nat)> {
    match (pkt_labels(s, pos, Seq::empty()), pkt_end(s, pos)) {
        (Some(n), Some(e)) => Some((lower(n), e)),
        _ => None,
    }
}

pub proof fn lemma_pkt_labels_len(s: Seq<u8>, pos: nat, acc: Seq<u8>)
    ensures
        pkt_labels(s, pos, acc) matches Some(n) ==> n.len() <= 255 && lower(n).len() == n.len(),
    decreases 256 - acc.len(), pos,
{
    if acc.len() <= 255 && pos < s.len() {
        let l = s[pos as int];
        if l >= 0xc0 && pos + 1 < s.len() {
            let off = ((l - 0xc0) * 256 + s[pos + 1int]) as nat;
            if off < pos {
                lemma_pkt_labels_len(s, off, acc);
            }
        } else if l != 0 && l <= 63 && pos + 1 + l <= s.len() {
            let acc2 = acc + s.subrange(pos as int, pos + 1 + l);
            if acc2.len() <= 255 {
                lemma_pkt_labels_len(s, (pos + 1 + l) as nat, acc2);
            }
        }
    }
}

pub proof fn lemma_pkt_end_bounds(s: Seq<u8>, pos: nat)
    ensures
        pkt_end(s, pos) matches Some(e) ==> pos < e <= s.len(),
    decreases s.len() - pos,
{
    if pos < s.len() {
        let l = s[pos as int];
        if l != 0 && l < 0xc0 && l <= 63 && pos + 1 + l <= s.len() {
            lemma_pkt_end_bounds(s, (pos + 1 + l) as nat);
        }
    }
}

/// Reads the possibly compressed name at `pos` of the message `s`.
pub fn read_wire_packet_name(s: &[u8], pos: usize) -> (r: Result<(Vec<u8>, usize), ()>)
    ensures
        match r {
            Ok((n, e)) => pkt_name(s@, pos as nat) == Some((n@, e as nat)),
            Err(_) => pkt_name(s@, pos as nat) is None,
        },
{
    let mut cur: usize = pos;
    let mut end: usize = 0;
    loop
        invariant
            pos <= cur,
            pkt_end(s@, pos as nat) == pkt_end(s@, cur as nat),
        ensures
            pkt_end(s@, pos as nat) == Some(end as nat),
        decreases s@.len() - cur,
    {
        if cur >= s.len() {
            return Err(());
        }
        let l = s[cur];
        if l == 0 {
            end = cur + 1;
            break;
        }
        if l >= 0xc0 {
            if cur + 1 >= s.len() {
                return Err(());
            }
            end = cur + 2;
            break;
        }
        if l > 63 || s.len() - cur < 1 + l as usize {
            return Err(());
        }
        cur = cur + 1 + l as usize;
    }
    let mut acc: Vec<u8> = Vec::new();
    let mut cur: usize = pos;
    loop
        invariant_except_break
            acc@.len() <= 255,
            pkt_labels(s@, pos as nat, Seq::empty()) == pkt_labels(s@, cur as nat, acc@),
        ensures
            pkt_labels(s@, pos as nat, Seq::empty()) == Some(acc@),
        decreases 256 - acc@.len(), cur,
    {
        if cur >= s.len() {
            return Err(());
        }
        let l = s[cur];
        if l == 0 {
            if acc.len() + 1 > 255 {
                return Err(());
            }
            acc.push(0);
            break;
        } else if l >= 0xc0 {
            if cur + 1 >= s.len() {
                return Err(());
            }
            let off: usize = ((l - 0xc0) as usize) * 256 + s[cur + 1] as usize;
            if off >= cur {
                return Err(());
            }
            cur = off;
        } else {
            if l > 63 || s.len() - cur < 1 + l as usize {
                return Err(());
            }
            if acc.len() + 1 + l as usize > 255 {
                return Err(());
            }
            let ghost before = acc@;
            let mut i: usize = cur;
            let stop: usize = cur + 1 + l as usize;
            while i < stop
                invariant
                    cur <= i <= stop <= s@.len(),
                    acc@ == before + s@.subrange(cur as int, i as int),
                decreases stop - i,
            {
                acc.push(s[i]);
                i = i + 1;
                proof {
                    assert(acc@ =~= before + s@.subrange(cur as int, i as int));
                }
            }
            cur = stop;
        }
    }
    let mut out: Vec<u8> = Vec::new();
    let mut i: usize = 0;
    while i < acc.len()
        invariant
            i <= acc@.len(),
            out@ == lower(acc@.subrange(0, i as int)),
        decreases acc@.len() - i,
    {
        out.push(lower_byte_exec(acc[i]));
        i = i + 1;
        proof {
            assert(out@ =~= lower(acc@.subrange(0, i as int)));
        }
    }
    proof {
        assert(acc@.subrange(0, acc@.len() as int) =~= acc@);
    }
    Ok((out, end))
}

/// Whether `b` is exactly one well-formed record in the uncompressed format.
pub open spec fn is_one_rr(b: Seq<u8>) -> bool {
    rr_at(b, 0) matches Some((_, e)) && e == b.len()
}

pub open spec fn concat(parts: Seq<Seq<u8>>) -> Seq<u8>
    decreases parts.len(),
{
    if parts.len() == 0 {
        Seq::empty()
    } else {
        parts[0] + concat(parts.drop_first())
    }
}

pub open spec fn all_one_rr(parts: Seq<Seq<u8>>) -> bool {
    forall|i: int| 0 <= i < parts.len() ==> is_one_rr(#[trigger] parts[i])
}

/// The labels read at `ps` of `s` read the same at `pt` of `t` where the bytes agree.
pub proof fn lemma_labels_frame(s: Seq<u8>, ps: nat, t: Seq<u8>, pt: nat, e: nat)
    requires
        labels_end(s, ps) == Some(e),
        ps < e <= s.len(),
        pt + (e - ps) <= t.len(),
        t.subrange(pt as int, pt + (e - ps)) == s.subrange(ps as int, e as int),
    ensures
        labels_end(t, pt) == Some((pt + (e - ps)) as nat),
    decreases s.len() - ps,
{
    let ts = t.subrange(pt as int, pt + (e - ps));
    let ss = s.subrange(ps as int, e as int);
    assert(ts[0] == ss[0]);
    assert(ts[0] == t[pt as int]);
    assert(ss[0] == s[ps as int]);
    assert(t[pt as int] == s[ps as int]);
    if s[ps as int] != 0 {
        let l = s[ps as int];
        let ns = (ps + 1 + l) as nat;
        let nt = (pt + 1 + l) as nat;
        assert(labels_end(s, ns) == Some(e));
        lemma_labels_end_bounds(s, ns);
        let tn = t.subrange(nt as int, nt + (e - ns));
        let sn = s.subrange(ns as int, e as int);
        assert forall|k: int| 0 <= k < e - ns implies #[trigger] tn[k] == sn[k] by {
            assert(tn[k] == t[nt + k]);
            assert(sn[k] == s[ns + k]);
            assert(ts[1 + l + k] == ss[1 + l + k]);
            assert(ts[1 + l + k] == t[pt + (1 + l + k)]);
            assert(ss[1 + l + k] == s[ps + (1 + l + k)]);
        }
        assert(tn =~= sn);
        lemma_labels_frame(s, ns, t, nt, e);
    }
}

/// The record read at `ps` of `s` reads the same at `pt` of `t` where the bytes agree.
pub proof fn lemma_rr_frame(s: Seq<u8>, ps: nat, t: Seq<u8>, pt: nat)
    requires
        rr_at(s, ps) is Some,
        pt + (rr_at(s, ps).unwrap().1 - ps) <= t.len(),
        t.subrange(pt as int, pt + (rr_at(s, ps).unwrap().1 - ps)) == s.subrange(
            ps as int,
            rr_at(s, ps).unwrap().1 as int,
        ),
    ensures
        rr_at(t, pt) == Some((rr_at(s, ps).unwrap().0, (pt + (rr_at(s, ps).unwrap().1 - ps)) as nat)),
{
    let e = rr_at(s, ps).unwrap().1;
    let ne = labels_end(s, ps).unwrap();
    let ts = t.subrange(pt as int, pt + (e - ps));
    let ss = s.subrange(ps as int, e as int);
    lemma_labels_end_bounds(s, ps);
    let q = ne - ps;
    assert(t.subrange(pt as int, pt + q) =~= s.subrange(ps as int, ne as int)) by {
        assert forall|k: int| 0 <= k < q implies #[trigger] t.subrange(pt as int, pt + q)[k] == s.subrange(
            ps as int,
            ne as int,
        )[k] by {
            assert(ts[k] == ss[k]);
        }
    }
    lemma_labels_frame(s, ps, t, pt, ne);
    let rdlen = be16(s, ne + 8int) as nat;
    assert(ts[q + 0] == ss[q + 0]);
    assert(ts[q + 1] == ss[q + 1]);
    assert(ts[q + 2] == ss[q + 2]);
    assert(ts[q + 3] == ss[q + 3]);
    assert(ts[q + 4] == ss[q + 4]);
    assert(ts[q + 5] == ss[q + 5]);
    assert(ts[q + 6] == ss[q + 6]);
    assert(ts[q + 7] == ss[q + 7]);
    assert(ts[q + 8] == ss[q + 8]);
    assert(ts[q + 9] == ss[q + 9]);
    assert(t.subrange(pt + q + 10, pt + q + 10 + rdlen) =~= s.subrange(ne + 10int, (ne + 10 + rdlen) as int))
        by {
        assert forall|k: int| 0 <= k < rdlen implies #[trigger] t.subrange(pt + q + 10, pt + q + 10 + rdlen)[k]
            == s.subrange(ne + 10int, (ne + 10 + rdlen) as int)[k] by {
            assert(ts[q + 10 + k] == ss[q + 10 + k]);
        }
    }
}

pub proof fn lemma_rr_bounds(s: Seq<u8>, pos: nat)
    ensures
        rr_at(s, pos) matches Some((_, e)) ==> pos < e <= s.len(),
{
    lemma_labels_end_bounds(s, pos);
}

/// The stream from `pos` parses exactly when the rest of the bytes are
/// well-formed records, one after another.
pub proof fn lemma_stream_from_iff_concat(s: Seq<u8>, pos: nat)
    requires
        pos <= s.len(),
    ensures
        stream_from(s, pos) is Some <==> exists|parts: Seq<Seq<u8>>|
            all_one_rr(parts) && concat(parts) == s.subrange(pos as int, s.len() as int),
    decreases s.len() - pos,
{
    if stream_from(s, pos) is Some {
        if pos == s.len() {
            let parts = Seq::<Seq<u8>>::empty();
            assert(concat(parts) =~= s.subrange(pos as int, s.len() as int));
            assert(all_one_rr(parts));
        } else {
            let (rr, e) = rr_at(s, pos).unwrap();
            lemma_stream_from_iff_concat(s, e);
            let rest = choose|parts: Seq<Seq<u8>>|
                all_one_rr(parts) && concat(parts) == s.subrange(e as int, s.len() as int);
            let part0 = s.subrange(pos as int, e as int);
            lemma_rr_bounds(s, pos);
            assert(part0.subrange(0, e - pos) =~= part0);
            lemma_rr_frame(s, pos, part0, 0);
            let parts = seq![part0] + rest;
            assert(parts.drop_first() =~= rest);
            assert(concat(parts) =~= s.subrange(pos as int, s.len() as int));
            assert forall|i: int| 0 <= i < parts.len() implies is_one_rr(#[trigger] parts[i]) by {
                if i > 0 {
                    assert(parts[i] == rest[i - 1]);
                }
            }
        }
    }
    if exists|parts: Seq<Seq<u8>>| all_one_rr(parts) && concat(parts) == s.subrange(pos as int, s.len() as int) {
        let parts = choose|parts: Seq<Seq<u8>>|
            all_one_rr(parts) && concat(parts) == s.subrange(pos as int, s.len() as int);
        if parts.len() > 0 {
            let part0 = parts[0];
            let rest = parts.drop_first();
            assert(is_one_rr(parts[0]));
            let e0 = part0.len();
            lemma_labels_end_bounds(part0, 0);
            assert(s.subrange(pos as int, s.len() as int) == part0 + concat(rest));
            assert(s.subrange(pos as int, (pos + e0) as int) =~= part0.subrange(0, e0 as int)) by {
                assert forall|k: int| 0 <= k < e0 implies #[trigger] s.subrange(pos as int, (pos + e0) as int)[k] == part0[k] by {
                    assert(s.subrange(pos as int, s.len() as int)[k] == (part0 + concat(rest))[k]);
                }
            }
            lemma_rr_frame(part0, 0, s, pos);
            let e = (pos + e0) as nat;
            let whole = s.subrange(pos as int, s.len() as int);
            assert forall|k: int| 0 <= k < s.len() - e implies #[trigger] s.subrange(e as int, s.len() as int)[k]
                == concat(rest)[k] by {
                assert(whole[e0 + k] == (part0 + concat(rest))[e0 + k]);
            }
            assert(concat(rest) =~= s.subrange(e as int, s.len() as int));
            assert forall|i: int| 0 <= i < rest.len() implies is_one_rr(#[trigger] rest[i]) by {
                assert(rest[i] == parts[i + 1]);
            }
            lemma_stream_from_iff_concat(s, e);
        } else {
            assert(s.subrange(pos as int, s.len() as int).len() == 0);
        }
    }
}

/// A byte stream parses exactly when it is a concatenation of well-formed
/// records with nothing left over.
pub proof fn lemma_parse_iff_concat(s: Seq<u8>)
    ensures
        stream_from(s, 0) is Some <==> exists|parts: Seq<Seq<u8>>| all_one_rr(parts) && concat(parts) == s,
{
    lemma_stream_from_iff_concat(s, 0);
    assert(s.subrange(0, s.len() as int) =~= s);
}

/// A label longer than 63 bytes makes a name invalid.
pub proof fn lemma_long_label_invalid(s: Seq<u8>, pos: nat)
    requires
        pos < s.len(),
        63 < s[pos as int],
    ensures
        name_at(s, pos) is None,
        rr_at(s, pos) is None,
{
}

/// A compression pointer to its own position or later makes a name invalid.
pub proof fn lemma_forward_pointer_invalid(s: Seq<u8>, pos: nat, acc: Seq<u8>)
    requires
        pos + 1 < s.len(),
        s[pos as int] >= 0xc0,
        ((s[pos as int] - 0xc0) * 256 + s[pos + 1int]) as nat >= pos,
    ensures
        pkt_labels(s, pos, acc) is None,
{
}

} // verus!
