use dnssec_prover::query::{
    step_after_response, MAX_ROUNDS, build_query, emap, handle_response, next_query, parse_wire_packet_rr, write_rr, QueryError, Step,
    TYPE_DNSKEY, TYPE_DS, TYPE_RRSIG,
};
use dnssec_prover::validity::{serial_before, sig_valid_at};
use dnssec_prover::wire::{parse_rr_stream, read_name, read_wire_packet_name, Rr};

fn wire_name(dotted: &str) -> Vec<u8> {
    let mut out = Vec::new();
    for label in dotted.split('.').filter(|l| !l.is_empty()) {
        out.push(label.len() as u8);
        out.extend_from_slice(label.as_bytes());
    }
    out.push(0);
    out
}

fn rr_wire(name: &[u8], ty: u16, class: u16, ttl: u32, rdata: &[u8]) -> Vec<u8> {
    let mut v = name.to_vec();
    v.extend_from_slice(&ty.to_be_bytes());
    v.extend_from_slice(&class.to_be_bytes());
    v.extend_from_slice(&ttl.to_be_bytes());
    v.extend_from_slice(&(rdata.len() as u16).to_be_bytes());
    v.extend_from_slice(rdata);
    v
}

#[test]
fn stream_of_two_records_parses() {
    let mut s = rr_wire(&wire_name("Matt.Example.COM."), 16, 1, 3600, b"\x05hello");
    s.extend(rr_wire(&wire_name("example.com."), 1, 1, 60, &[192, 0, 2, 1]));
    let rrs = parse_rr_stream(&s).unwrap();
    assert_eq!(rrs.len(), 2);
    assert_eq!(rrs[0].name, wire_name("matt.example.com."));
    assert_eq!(rrs[0].rr_type, 16);
    assert_eq!(rrs[0].class, 1);
    assert_eq!(rrs[0].ttl, 3600);
    assert_eq!(rrs[0].rdata, b"\x05hello".to_vec());
    assert_eq!(rrs[1].rdata, vec![192, 0, 2, 1]);
}

#[test]
fn empty_stream_is_empty() {
    assert_eq!(parse_rr_stream(&[]).unwrap().len(), 0);
}

#[test]
fn stream_with_trailing_or_missing_bytes_fails() {
    let s = rr_wire(&wire_name("example.com."), 1, 1, 60, &[192, 0, 2, 1]);
    let mut longer = s.clone();
    longer.push(0);
    assert!(parse_rr_stream(&longer).is_err());
    assert!(parse_rr_stream(&s[..s.len() - 1]).is_err());
}

#[test]
fn stream_record_not_in_class_in_fails() {
    let s = rr_wire(&wire_name("example.com."), 1, 3, 60, &[192, 0, 2, 1]);
    assert!(parse_rr_stream(&s).is_err());
}

#[test]
fn name_with_64_byte_label_is_invalid() {
    let mut n = vec![64u8];
    n.extend(std::iter::repeat(b'a').take(64));
    n.push(0);
    assert!(read_name(&n, 0).is_err());
    assert!(parse_rr_stream(&rr_wire(&n, 1, 1, 60, &[1, 2, 3, 4])).is_err());
    let mut ok = vec![63u8];
    ok.extend(std::iter::repeat(b'a').take(63));
    ok.push(0);
    assert_eq!(read_name(&ok, 0).unwrap().1, 65);
}

#[test]
fn name_longer_than_255_bytes_is_invalid() {
    let mut n = Vec::new();
    for _ in 0..4 {
        n.push(63u8);
        n.extend(std::iter::repeat(b'b').take(63));
    }
    n.push(0);
    assert_eq!(n.len(), 257);
    assert!(read_name(&n, 0).is_err());
}

#[test]
fn compression_pointer_in_stream_is_invalid() {
    let mut s = rr_wire(&wire_name("example.com."), 1, 1, 60, &[192, 0, 2, 1]);
    s.extend(rr_wire(&[0xc0, 0x00], 1, 1, 60, &[192, 0, 2, 1]));
    assert!(parse_rr_stream(&s).is_err());
}

#[test]
fn packet_pointer_backward_is_followed() {
    let mut m = wire_name("Example.com.");
    let at = m.len();
    m.extend_from_slice(&[3, b'w', b'w', b'w', 0xc0, 0x00]);
    let (n, end) = read_wire_packet_name(&m, at).unwrap();
    assert_eq!(n, wire_name("www.example.com."));
    assert_eq!(end, m.len());
}

#[test]
fn packet_pointer_to_itself_or_later_is_invalid() {
    let mut m = wire_name("example.com.");
    let at = m.len();
    m.extend_from_slice(&[0xc0, at as u8]);
    assert!(read_wire_packet_name(&m, at).is_err());
    let mut m2 = vec![0xc0u8, 0x04, 0, 0];
    m2.extend(wire_name("a."));
    assert!(read_wire_packet_name(&m2, 0).is_err());
}

#[test]
fn query_bytes_are_exact() {
    let q = build_query(&wire_name("example.com."), 16);
    let mut expected = vec![0, 40, 0x42, 0x42, 0x01, 0x20, 0, 1, 0, 0, 0, 0, 0, 1];
    expected.extend(wire_name("example.com."));
    expected.extend_from_slice(&[0, 16, 0, 1, 0, 0, 0x29, 0, 0, 0, 0, 0x80, 0, 0, 0]);
    assert_eq!(q, expected);
    assert_eq!(q.len() - 2, 40);
}

fn rrsig_rdata(covered: u16, signer: &[u8]) -> Vec<u8> {
    let mut v = covered.to_be_bytes().to_vec();
    v.extend_from_slice(&[13, 2]);
    v.extend_from_slice(&300u32.to_be_bytes());
    v.extend_from_slice(&2_000_000u32.to_be_bytes());
    v.extend_from_slice(&1_000_000u32.to_be_bytes());
    v.extend_from_slice(&1234u16.to_be_bytes());
    v.extend_from_slice(signer);
    v.extend_from_slice(&[7u8; 64]);
    v
}

fn response(flags: u16, questions: u16) -> Vec<u8> {
    let mut m = vec![0x42, 0x42];
    m.extend_from_slice(&flags.to_be_bytes());
    m.extend_from_slice(&questions.to_be_bytes());
    m.extend_from_slice(&[0, 2, 0, 0, 0, 0]);
    m.extend(wire_name("example.com."));
    m.extend_from_slice(&[0, 16, 0, 1]);
    m.extend(rr_wire(&[0xc0, 12], 16, 1, 300, b"\x02hi"));
    m.extend(rr_wire(&[0xc0, 12], 46, 1, 300, &rrsig_rdata(16, &wire_name("example.com."))));
    m
}

#[test]
fn response_answers_go_to_the_proof() {
    let resp = response(0x81a0, 1);
    let mut proof = vec![9u8];
    let sig = handle_response(&resp, &mut proof).unwrap().unwrap();
    assert_eq!(sig.rr_type, TYPE_RRSIG);
    let mut expected = vec![9u8];
    expected.extend(rr_wire(&wire_name("example.com."), 16, 1, 0, b"\x02hi"));
    expected.extend(rr_wire(&wire_name("example.com."), 46, 1, 0, &rrsig_rdata(16, &wire_name("example.com."))));
    assert_eq!(proof, expected);
    let rrs = parse_rr_stream(&proof[1..]).unwrap();
    assert_eq!(rrs.len(), 2);
    match next_query(&Some(sig)).unwrap() {
        Step::Ask(n, t) => {
            assert_eq!(n, wire_name("example.com."));
            assert_eq!(t, TYPE_DS);
        }
        _ => panic!("expected a query"),
    }
}

#[test]
fn response_errors() {
    let mut proof = Vec::new();
    let mut bad_txid = response(0x81a0, 1);
    bad_txid[0] = 0;
    assert_eq!(handle_response(&bad_txid, &mut proof).unwrap_err(), QueryError::BadTxid);
    assert_eq!(handle_response(&response(0x01a0, 1), &mut proof).unwrap_err(), QueryError::MissingResponseFlag);
    assert_eq!(handle_response(&response(0x81a3, 1), &mut proof).unwrap_err(), QueryError::ServerError);
    assert_eq!(handle_response(&response(0x8180, 1), &mut proof).unwrap_err(), QueryError::NotAuthenticated);
    assert_eq!(handle_response(&response(0x81a0, 2), &mut proof).unwrap_err(), QueryError::MultipleQuestions);
    let resp = response(0x81a0, 1);
    assert_eq!(handle_response(&resp[..resp.len() - 1], &mut proof).unwrap_err(), QueryError::BadResponse);
    assert_eq!(handle_response(&[0x42], &mut proof).unwrap_err(), QueryError::BadResponse);
    assert!(proof.is_empty());
}

#[test]
fn next_query_choices() {
    let root_sig = Rr { name: vec![0], rr_type: TYPE_RRSIG, class: 1, ttl: 0, rdata: rrsig_rdata(48, &[0]) };
    assert!(matches!(next_query(&Some(root_sig)), Ok(Step::Done)));
    let zone_sig = Rr {
        name: wire_name("www.example.com."),
        rr_type: TYPE_RRSIG,
        class: 1,
        ttl: 0,
        rdata: rrsig_rdata(1, &wire_name("example.com.")),
    };
    match next_query(&Some(zone_sig)).unwrap() {
        Step::Ask(n, t) => {
            assert_eq!(n, wire_name("example.com."));
            assert_eq!(t, TYPE_DNSKEY);
        }
        _ => panic!("expected a query"),
    }
    assert!(matches!(next_query(&None), Ok(Step::Wait)));
}

#[test]
fn packet_record_name_data_is_decompressed() {
    let mut m = wire_name("example.com.");
    let at = m.len();
    m.extend(rr_wire(&[0xc0, 0], 5, 1, 10, &[3, b'w', b'w', b'w', 0xc0, 0]));
    let (rr, end) = parse_wire_packet_rr(&m, at).unwrap();
    assert_eq!(end, m.len());
    assert_eq!(rr.rdata, wire_name("www.example.com."));
    let mut out = Vec::new();
    write_rr(&rr, 77, &mut out);
    assert_eq!(out, rr_wire(&wire_name("example.com."), 5, 1, 77, &wire_name("www.example.com.")));
}

#[test]
fn emap_maps_failure() {
    assert_eq!(emap(Ok::<u8, ()>(3)), Ok(3));
    assert_eq!(emap(Err::<u8, ()>(())), Err(QueryError::BadResponse));
}

#[test]
fn validity_window_edges() {
    let inception = 1_000_000u32;
    let expiration = 2_000_000u32;
    assert!(sig_valid_at(inception, expiration, inception as u64));
    assert!(sig_valid_at(inception, expiration, expiration as u64 - 1));
    assert!(!sig_valid_at(inception, expiration, expiration as u64));
    assert!(!sig_valid_at(inception, expiration, inception as u64 - 1));
    // Serial arithmetic wraps at 2^32.
    assert!(serial_before(0xffff_fff0, 5));
    assert!(!serial_before(5, 0xffff_fff0));
    assert!(sig_valid_at(0xffff_fff0, 100, 0x1_0000_0002));
}

#[test]
fn round_cap_gives_up() {
    let zone_sig = Rr {
        name: wire_name("www.example.com."),
        rr_type: TYPE_RRSIG,
        class: 1,
        ttl: 0,
        rdata: rrsig_rdata(1, &wire_name("example.com.")),
    };
    assert!(matches!(step_after_response(0, &Some(zone_sig.clone())), Ok(Step::Ask(_, TYPE_DNSKEY))));
    assert_eq!(step_after_response(MAX_ROUNDS - 1, &Some(zone_sig)).err(), Some(QueryError::TooManyRequests));
    let root_sig = Rr { name: vec![0], rr_type: TYPE_RRSIG, class: 1, ttl: 0, rdata: rrsig_rdata(48, &[0]) };
    assert!(matches!(step_after_response(MAX_ROUNDS - 1, &Some(root_sig)), Ok(Step::Done)));
    assert!(matches!(step_after_response(3, &None), Ok(Step::Wait)));
}
