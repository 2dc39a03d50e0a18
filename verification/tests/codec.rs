use nebula::addr::{Ipv4Addr, Ipv6Addr};
use nebula::byte_packet::BytePacketBuffer;
use nebula::dns_header::DnsHeader;
use nebula::dns_question::DnsQuestion;
use nebula::dns_record::DnsRecord;
use nebula::query_type::QueryType;
use nebula::res_code::ResultCode;

#[test]
fn result_code_wire_values() {
    assert_eq!(ResultCode::from_num(0), ResultCode::NOERROR);
    assert_eq!(ResultCode::from_num(1), ResultCode::FORMERR);
    assert_eq!(ResultCode::from_num(2), ResultCode::SERVFAIL);
    assert_eq!(ResultCode::from_num(3), ResultCode::NXDOMAIN);
    assert_eq!(ResultCode::from_num(4), ResultCode::NOTIMP);
    assert_eq!(ResultCode::from_num(5), ResultCode::REFUSED);
    assert_eq!(ResultCode::from_num(9), ResultCode::NOERROR);
    assert_eq!(ResultCode::SERVFAIL.to_num(), 2);
}

#[test]
fn query_type_wire_codes() {
    assert_eq!(QueryType::from_num(1), QueryType::A);
    assert_eq!(QueryType::from_num(2), QueryType::NS);
    assert_eq!(QueryType::from_num(5), QueryType::CNAME);
    assert_eq!(QueryType::from_num(15), QueryType::MX);
    assert_eq!(QueryType::from_num(28), QueryType::AAAA);
    assert_eq!(QueryType::from_num(16), QueryType::UNKNOWN(16));
    assert_eq!(QueryType::UNKNOWN(16).to_num(), 16);
    assert_eq!(QueryType::AAAA.to_num(), 28);
}

fn sample_header() -> DnsHeader {
    let mut h = DnsHeader::new();
    h.id = 0x1234;
    h.recursion_desired = true;
    h.truncated_message = false;
    h.authoritative_answer = true;
    h.opcode = 2;
    h.response = true;
    h.rescode = ResultCode::NXDOMAIN;
    h.checking_disabled = true;
    h.authed_data = false;
    h.z = true;
    h.recursion_available = true;
    h.questions = 1;
    h.answers = 2;
    h.authoritative_entries = 3;
    h.resource_entries = 4;
    h
}

#[test]
fn header_round_trip() {
    let h = sample_header();
    let mut buffer = BytePacketBuffer::new();
    h.write(&mut buffer).unwrap();
    assert_eq!(buffer.current_positon_in_buffer(), 12);
    buffer.change_buffer_position(0).unwrap();
    let mut back = DnsHeader::new();
    back.read(&mut buffer).unwrap();
    assert_eq!(back, h);
}

#[test]
fn header_flag_bits_are_exact() {
    let mut h = DnsHeader::new();
    h.recursion_desired = true;
    h.opcode = 1;
    h.response = true;
    h.rescode = ResultCode::SERVFAIL;
    h.recursion_available = true;
    let mut buffer = BytePacketBuffer::new();
    h.write(&mut buffer).unwrap();
    // Byte 2: response (bit 7), opcode (bits 3-6), rd (bit 0).
    assert_eq!(buffer.buf[2], 0b1000_1001);
    // Byte 3: ra (bit 7), rescode (bits 0-3).
    assert_eq!(buffer.buf[3], 0b1000_0010);
}

#[test]
fn question_round_trip() {
    let q = DnsQuestion::new(b"example.com".to_vec(), QueryType::A);
    let mut buffer = BytePacketBuffer::new();
    q.write(&mut buffer).unwrap();
    // name (13 bytes) + type (2) + class (2)
    assert_eq!(buffer.current_positon_in_buffer(), 17);
    assert_eq!(&buffer.buf[13..17], &[0, 1, 0, 1]);
    buffer.change_buffer_position(0).unwrap();
    let mut back = DnsQuestion::new(Vec::new(), QueryType::UNKNOWN(0));
    back.read(&mut buffer).unwrap();
    assert_eq!(back.name, b"example.com".to_vec());
    assert_eq!(back.qtype, QueryType::A);
}

fn round_trip(rec: &DnsRecord) -> DnsRecord {
    let mut buffer = BytePacketBuffer::new();
    rec.write(&mut buffer).unwrap();
    buffer.change_buffer_position(0).unwrap();
    DnsRecord::read(&mut buffer).unwrap()
}

#[test]
fn a_record_round_trip() {
    let rec = DnsRecord::A {
        domain: b"example.com".to_vec(),
        addr: Ipv4Addr::new(93, 184, 216, 34),
        ttl: 3600,
    };
    assert_eq!(round_trip(&rec), rec);
}

#[test]
fn aaaa_record_round_trip_keeps_all_eight_groups() {
    // 2001:db8::1
    let addr = Ipv6Addr::new(0x2001, 0x0db8, 0, 0, 0, 0, 0, 1);
    let rec = DnsRecord::AAAA {
        domain: b"example.com".to_vec(),
        addr,
        ttl: 60,
    };
    match round_trip(&rec) {
        DnsRecord::AAAA { domain, addr: back, ttl } => {
            assert_eq!(domain, b"example.com".to_vec());
            assert_eq!(ttl, 60);
            assert_eq!(back, Ipv6Addr::new(0x2001, 0x0db8, 0, 0, 0, 0, 0, 1));
        }
        other => panic!("decoded to the wrong variant: {:?}", other),
    }
}

#[test]
fn ns_record_round_trip() {
    let rec = DnsRecord::NS {
        domain: b"com".to_vec(),
        host: b"ns1.example.com".to_vec(),
        ttl: 86400,
    };
    assert_eq!(round_trip(&rec), rec);
}

#[test]
fn cname_record_round_trip() {
    let rec = DnsRecord::CNAME {
        domain: b"www.example.com".to_vec(),
        host: b"example.com".to_vec(),
        ttl: 300,
    };
    assert_eq!(round_trip(&rec), rec);
}

#[test]
fn mx_record_round_trip() {
    let rec = DnsRecord::MX {
        domain: b"example.com".to_vec(),
        priority: 10,
        host: b"mail.example.com".to_vec(),
        ttl: 300,
    };
    assert_eq!(round_trip(&rec), rec);
}

#[test]
fn record_names_compare_case_insensitively_after_decode() {
    let rec = DnsRecord::A {
        domain: b"ExAmple.COM".to_vec(),
        addr: Ipv4Addr::new(1, 2, 3, 4),
        ttl: 5,
    };
    match round_trip(&rec) {
        DnsRecord::A { domain, .. } => assert_eq!(domain, b"example.com".to_vec()),
        other => panic!("decoded to the wrong variant: {:?}", other),
    }
}

#[test]
fn mx_payload_length_is_backpatched() {
    let rec = DnsRecord::MX {
        domain: b"a.bc".to_vec(),
        priority: 7,
        host: b"mx.a.bc".to_vec(),
        ttl: 1,
    };
    let mut buffer = BytePacketBuffer::new();
    let written = rec.write(&mut buffer).unwrap();
    // name 6 + type 2 + class 2 + ttl 4 + len 2 + priority 2 + host 9
    assert_eq!(written, 27);
    // The backpatched payload length covers priority plus the host name.
    assert_eq!(&buffer.buf[14..16], &[0, 11]);
}

#[test]
fn unknown_record_is_skipped_on_read_and_omitted_on_write() {
    let mut buffer = BytePacketBuffer::new();
    buffer.write_qname(&b"x.yz".to_vec()).unwrap();
    buffer.write_u16(99).unwrap(); // unknown type code
    buffer.write_u16(1).unwrap(); // class
    buffer.write_u32(120).unwrap(); // ttl
    buffer.write_u16(3).unwrap(); // declared payload length
    buffer.write(1).unwrap();
    buffer.write(2).unwrap();
    buffer.write(3).unwrap();
    let end = buffer.current_positon_in_buffer();
    buffer.change_buffer_position(0).unwrap();
    let rec = DnsRecord::read(&mut buffer).unwrap();
    assert_eq!(
        rec,
        DnsRecord::UNKNOWN {
            domain: b"x.yz".to_vec(),
            qtype: 99,
            data_length: 3,
            ttl: 120,
        }
    );
    // The payload bytes were skipped, not retained.
    assert_eq!(buffer.current_positon_in_buffer(), end);
    // Writing it back emits nothing.
    let mut out = BytePacketBuffer::new();
    assert_eq!(rec.write(&mut out).unwrap(), 0);
    assert_eq!(out.current_positon_in_buffer(), 0);
}
