use neko_dns::name::{encode_name, parse_name, parse_name_at_offset};
use neko_dns::types::{DnsClass, RecordType, ResponseCode};
use neko_dns::wire::{
    build_query, build_response, build_servfail, extract_query_info, parse_name_from_rdata,
    parse_name_standalone, parse_packet, WireError,
};

fn record(out: &mut Vec<u8>, name: &str, rtype: u16, ttl: u32, rdata: &[u8]) {
    out.extend_from_slice(&encode_name(name));
    out.extend_from_slice(&rtype.to_be_bytes());
    out.extend_from_slice(&1u16.to_be_bytes());
    out.extend_from_slice(&ttl.to_be_bytes());
    out.extend_from_slice(&(rdata.len() as u16).to_be_bytes());
    out.extend_from_slice(rdata);
}

fn answer_packet(id: u16, name: &str, ttl: u32) -> Vec<u8> {
    let mut p = build_query(id, name, RecordType::A, true);
    p[2] = 0x81;
    p[3] = 0x80;
    p[7] = 1;
    p[11] = 1;
    record(&mut p, name, 1, ttl, &[93, 184, 216, 34]);
    // OPT pseudo-record: root name, type 41, class 4096, "TTL" 0.
    p.push(0);
    p.extend_from_slice(&41u16.to_be_bytes());
    p.extend_from_slice(&4096u16.to_be_bytes());
    p.extend_from_slice(&0u32.to_be_bytes());
    p.extend_from_slice(&0u16.to_be_bytes());
    p
}

#[test]
fn test_encode_parse_name() {
    let name = "example.com";
    let encoded = encode_name(name);
    assert_eq!(encoded, vec![7, b'e', b'x', b'a', b'm', b'p', b'l', b'e', 3, b'c', b'o', b'm', 0]);

    let mut offset = 0;
    let parsed = parse_name(&encoded, &mut offset).unwrap();
    assert_eq!(parsed, "example.com");
}

#[test]
fn test_build_query() {
    let query = build_query(0x1234, "google.com", RecordType::A, true);
    assert!(query.len() > 12);
    assert_eq!(query[0], 0x12);
    assert_eq!(query[1], 0x34);
    // RD flag
    assert_eq!(query[2] & 0x01, 0x01);
}

#[test]
fn test_build_servfail() {
    let query = build_query(0xABCD, "test.com", RecordType::A, true);
    let servfail = build_servfail(&query).unwrap();
    // QR=1
    assert!(servfail[2] & 0x80 != 0);
    // RCODE=2
    assert_eq!(servfail[3] & 0x0F, 2);
}

#[test]
fn test_parse_packet() {
    let query = build_query(0x1234, "example.com", RecordType::A, true);
    let packet = parse_packet(&query).unwrap();
    assert_eq!(packet.header.id, 0x1234);
    assert_eq!(packet.header.qdcount, 1);
    assert_eq!(packet.questions[0].name, "example.com");
}

#[test]
fn name_round_trip_for_several_names() {
    for name in ["", "a", "www.example.com", "x-1.y-2.z-3", "UPPER.case.Org"] {
        let encoded = encode_name(name);
        let mut offset = 0;
        let parsed = parse_name(&encoded, &mut offset).unwrap();
        assert_eq!(parsed, name);
        assert_eq!(offset, encoded.len());
    }
}

#[test]
fn name_with_sixty_three_byte_label_round_trips() {
    let label = "a".repeat(63);
    let name = format!("{}.com", label);
    let encoded = encode_name(&name);
    let mut offset = 0;
    assert_eq!(parse_name(&encoded, &mut offset).unwrap(), name);
}

#[test]
fn label_longer_than_sixty_three_is_rejected() {
    let mut data = vec![64u8];
    data.extend_from_slice(&[b'a'; 64]);
    data.push(0);
    let mut offset = 0;
    assert_eq!(parse_name(&data, &mut offset), Err(WireError::Malformed));
    assert_eq!(offset, 0);
}

#[test]
fn compression_pointer_is_followed_and_offset_moves_past_it() {
    // "example.com" at 0, then "www" + pointer to 0 at 13.
    let mut data = encode_name("example.com");
    data.push(3);
    data.extend_from_slice(b"www");
    data.extend_from_slice(&[0xC0, 0x00]);
    let mut offset = 13;
    assert_eq!(parse_name(&data, &mut offset).unwrap(), "www.example.com");
    assert_eq!(offset, 19);
    assert_eq!(parse_name_at_offset(&data, 13).unwrap(), "www.example.com");
}

#[test]
fn self_pointer_cycle_is_rejected() {
    let data = vec![0xC0u8, 0x00];
    let mut offset = 0;
    assert!(parse_name(&data, &mut offset).is_err());
}

#[test]
fn two_pointer_cycle_is_rejected() {
    let data = vec![0xC0u8, 0x02, 0xC0, 0x00];
    let mut offset = 0;
    assert!(parse_name(&data, &mut offset).is_err());
    let mut offset = 2;
    assert!(parse_name(&data, &mut offset).is_err());
}

#[test]
fn ten_pointer_hops_are_allowed_and_eleven_are_not() {
    // A chain of pointers: position 2k points to 2k+2; the end holds "a".
    let build = |hops: usize| {
        let mut data = Vec::new();
        for k in 0..hops {
            let target = (2 * k + 2) as u16;
            data.push(0xC0 | (target >> 8) as u8);
            data.push((target & 0xFF) as u8);
        }
        data.extend_from_slice(&[1, b'a', 0]);
        data
    };
    let mut offset = 0;
    assert_eq!(parse_name(&build(10), &mut offset).unwrap(), "a");
    let mut offset = 0;
    assert!(parse_name(&build(11), &mut offset).is_err());
}

#[test]
fn truncated_name_is_rejected() {
    let data = vec![5u8, b'a', b'b'];
    let mut offset = 0;
    assert!(parse_name(&data, &mut offset).is_err());
}

#[test]
fn standalone_name_rejects_pointers() {
    assert_eq!(parse_name_standalone(&encode_name("ns1.example.net")).unwrap(), "ns1.example.net");
    assert!(parse_name_standalone(&[0xC0, 0x0C]).is_err());
    assert!(parse_name_from_rdata(&[0xC0, 0x0C], &[]).is_err());
}

#[test]
fn short_packet_is_too_short() {
    assert_eq!(parse_packet(&[0u8; 11]).err(), Some(WireError::TooShort));
    assert_eq!(build_servfail(&[0u8; 5]), Err(WireError::TooShort));
    assert_eq!(extract_query_info(&[0u8; 3]).err(), Some(WireError::TooShort));
}

#[test]
fn truncated_question_is_malformed() {
    let mut q = build_query(1, "example.com", RecordType::A, true);
    q.truncate(q.len() - 2);
    assert_eq!(parse_packet(&q).err(), Some(WireError::Malformed));
    assert_eq!(extract_query_info(&q).err(), Some(WireError::Malformed));
}

#[test]
fn servfail_keeps_id_and_question_and_zeroes_counts() {
    let mut query = build_query(0xBEEF, "example.org", RecordType::AAAA, true);
    // Trailing additional data beyond the question is dropped.
    query[11] = 1;
    query.extend_from_slice(&[0, 0, 41, 16, 0, 0, 0, 0, 0, 0, 0]);
    let sf = build_servfail(&query).unwrap();
    let p = parse_packet(&sf).unwrap();
    assert_eq!(p.header.id, 0xBEEF);
    assert!(p.header.qr);
    assert_eq!(p.header.rcode, ResponseCode::ServFail);
    assert_eq!(p.header.ancount + p.header.nscount + p.header.arcount, 0);
    assert_eq!(p.questions.len(), 1);
    assert_eq!(p.questions[0].name, "example.org");
    assert_eq!(p.questions[0].qtype, RecordType::AAAA);
    assert_eq!(p.questions[0].qclass, DnsClass::IN);
    assert_eq!(sf.len(), 12 + encode_name("example.org").len() + 4);
}

#[test]
fn rewritten_response_has_new_ttl_except_opt() {
    let cached = answer_packet(0x1111, "example.com", 3600);
    let query = build_query(0x2222, "example.com", RecordType::A, true);
    let r = build_response(&query, &cached, 42).unwrap();
    let p = parse_packet(&r).unwrap();
    assert_eq!(p.header.id, 0x2222);
    assert_eq!(p.answers[0].ttl, 42);
    assert_eq!(p.additionals[0].rtype, RecordType::OPT);
    assert_eq!(p.additionals[0].ttl, 0);
    let qend = 12 + encode_name("example.com").len() + 4;
    assert_eq!(&r[2..qend], &cached[2..qend]);
}

#[test]
fn rewriting_an_unreadable_response_fails() {
    let query = build_query(1, "a.b", RecordType::A, true);
    let mut bad = answer_packet(1, "a.b", 5);
    bad.truncate(bad.len() - 3);
    assert!(build_response(&query, &bad, 1).is_err());
    assert!(build_response(&query, &[0u8; 4], 1).is_err());
}

#[test]
fn query_info_reads_name_and_type() {
    let q = build_query(7, "Mail.Example.com", RecordType::MX, false);
    let (name, t) = extract_query_info(&q).unwrap();
    assert_eq!(name, "Mail.Example.com");
    assert_eq!(t, RecordType::MX);
    assert_eq!(q[2], 0);
}

#[test]
fn parsed_record_keeps_rdata_offset() {
    let p = answer_packet(9, "example.com", 300);
    let parsed = parse_packet(&p).unwrap();
    let rec = &parsed.answers[0];
    assert_eq!(rec.rdata, vec![93, 184, 216, 34]);
    assert_eq!(&p[rec.rdata_offset..rec.rdata_offset + 4], &[93, 184, 216, 34]);
    assert_eq!(rec.ttl, 300);
    assert_eq!(rec.rdlength, 4);
}

#[test]
fn non_utf8_label_is_replaced() {
    let data = vec![2u8, 0xFF, b'a', 0];
    let mut offset = 0;
    assert_eq!(parse_name(&data, &mut offset).unwrap(), "\u{FFFD}a");
}

#[test]
fn record_type_codes() {
    assert_eq!(RecordType::from_u16(28), RecordType::AAAA);
    assert_eq!(RecordType::from_u16(999), RecordType::Unknown(999));
    assert_eq!(RecordType::Unknown(999).to_u16(), 999);
    assert_eq!(RecordType::OPT.to_u16(), 41);
    assert_eq!(DnsClass::from_u16(3), DnsClass::CH);
    assert_eq!(DnsClass::HS.to_u16(), 4);
    assert_eq!(ResponseCode::from_u8(3), ResponseCode::NxDomain);
    assert_eq!(ResponseCode::from_u8(9), ResponseCode::ServFail);
}

#[test]
fn type_names_and_packet_summary() {
    assert_eq!(RecordType::AAAA.name(), "AAAA");
    assert_eq!(RecordType::Unknown(65).name(), "TYPE65");
    let q = build_query(1, "example.com", RecordType::MX, true);
    assert_eq!(parse_packet(&q).unwrap().summary(), "example.com MX (answers: 0)");
    let mut empty = q[..12].to_vec();
    empty[5] = 0;
    assert_eq!(parse_packet(&empty).unwrap().summary(), "(empty query)");
}
