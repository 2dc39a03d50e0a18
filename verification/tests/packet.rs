use nebula::addr::Ipv4Addr;
use nebula::byte_packet::BytePacketBuffer;
use nebula::dns_packet::DnsPacket;
use nebula::dns_question::DnsQuestion;
use nebula::dns_record::DnsRecord;
use nebula::query_type::QueryType;

fn a_record(domain: &[u8], addr: Ipv4Addr) -> DnsRecord {
    DnsRecord::A {
        domain: domain.to_vec(),
        addr,
        ttl: 60,
    }
}

#[test]
fn packet_round_trip_with_all_sections() {
    let mut packet = DnsPacket::new();
    packet
        .questions
        .push(DnsQuestion::new(b"example.com".to_vec(), QueryType::A));
    packet
        .answers
        .push(a_record(b"example.com", Ipv4Addr::new(1, 2, 3, 4)));
    packet
        .answers
        .push(a_record(b"example.com", Ipv4Addr::new(5, 6, 7, 8)));
    packet.authorities.push(DnsRecord::NS {
        domain: b"com".to_vec(),
        host: b"ns1.example.com".to_vec(),
        ttl: 600,
    });
    packet
        .resources
        .push(a_record(b"ns1.example.com", Ipv4Addr::new(9, 9, 9, 9)));

    let mut buffer = BytePacketBuffer::new();
    packet.write(&mut buffer).unwrap();
    buffer.change_buffer_position(0).unwrap();
    let back = DnsPacket::from_buffer(&mut buffer).unwrap();
    assert_eq!(back.questions, packet.questions);
    assert_eq!(back.answers, packet.answers);
    assert_eq!(back.authorities, packet.authorities);
    assert_eq!(back.resources, packet.resources);
}

#[test]
fn count_integrity_after_recomputation() {
    // Stale counts in the header are overwritten from the collections.
    let mut packet = DnsPacket::new();
    packet.header.questions = 40;
    packet.header.answers = 41;
    packet.header.authoritative_entries = 42;
    packet.header.resource_entries = 43;
    packet
        .questions
        .push(DnsQuestion::new(b"a.bc".to_vec(), QueryType::A));
    packet.answers.push(a_record(b"a.bc", Ipv4Addr::new(1, 1, 1, 1)));
    packet.answers.push(a_record(b"a.bc", Ipv4Addr::new(2, 2, 2, 2)));
    packet
        .resources
        .push(a_record(b"ns.a.bc", Ipv4Addr::new(3, 3, 3, 3)));

    let mut buffer = BytePacketBuffer::new();
    packet.write(&mut buffer).unwrap();
    buffer.change_buffer_position(0).unwrap();
    let back = DnsPacket::from_buffer(&mut buffer).unwrap();
    assert_eq!(back.header.questions, 1);
    assert_eq!(back.header.answers, 2);
    assert_eq!(back.header.authoritative_entries, 0);
    assert_eq!(back.header.resource_entries, 1);
    assert_eq!(back.questions.len(), 1);
    assert_eq!(back.answers.len(), 2);
    assert_eq!(back.authorities.len(), 0);
    assert_eq!(back.resources.len(), 1);
}

#[test]
fn get_random_a_returns_first_a_answer() {
    let mut packet = DnsPacket::new();
    packet.answers.push(DnsRecord::CNAME {
        domain: b"www.a.bc".to_vec(),
        host: b"a.bc".to_vec(),
        ttl: 60,
    });
    packet.answers.push(a_record(b"a.bc", Ipv4Addr::new(4, 4, 4, 4)));
    packet.answers.push(a_record(b"a.bc", Ipv4Addr::new(5, 5, 5, 5)));
    assert_eq!(packet.get_random_a(), Some(Ipv4Addr::new(4, 4, 4, 4)));
    assert_eq!(DnsPacket::new().get_random_a(), None);
}

#[test]
fn resolved_ns_needs_matching_additional_a() {
    let mut packet = DnsPacket::new();
    packet.authorities.push(DnsRecord::NS {
        domain: b"com".to_vec(),
        host: b"ns1.host.com".to_vec(),
        ttl: 600,
    });
    packet.authorities.push(DnsRecord::NS {
        domain: b"com".to_vec(),
        host: b"ns2.host.com".to_vec(),
        ttl: 600,
    });
    packet
        .resources
        .push(a_record(b"ns2.host.com", Ipv4Addr::new(8, 8, 8, 8)));

    let qname = b"example.com".to_vec();
    // ns1 has no glue record, so ns2's address is the resolved one.
    assert_eq!(packet.get_resolved_ns(&qname), Some(Ipv4Addr::new(8, 8, 8, 8)));
    // The first matching delegation is returned as unresolved.
    assert_eq!(packet.get_unresolved_ns(&qname), Some(b"ns1.host.com".to_vec()));
    // A name outside the delegated domain matches nothing.
    let other = b"example.org".to_vec();
    assert_eq!(packet.get_resolved_ns(&other), None);
    assert_eq!(packet.get_unresolved_ns(&other), None);
}

#[test]
fn fully_glued_delegation_leaves_nothing_unresolved() {
    // The only suffix-matching NS has a matching A record, so there is
    // no delegation left that would need resolving first.
    let mut packet = DnsPacket::new();
    packet.authorities.push(DnsRecord::NS {
        domain: b"com".to_vec(),
        host: b"ns2.host.com".to_vec(),
        ttl: 600,
    });
    packet
        .resources
        .push(a_record(b"ns2.host.com", Ipv4Addr::new(8, 8, 8, 8)));
    let qname = b"example.com".to_vec();
    assert_eq!(packet.get_resolved_ns(&qname), Some(Ipv4Addr::new(8, 8, 8, 8)));
    assert_eq!(packet.get_unresolved_ns(&qname), None);
}

#[test]
fn delegation_matches_only_suffixes() {
    let mut packet = DnsPacket::new();
    packet.authorities.push(DnsRecord::NS {
        domain: b"example.com".to_vec(),
        host: b"ns.example.com".to_vec(),
        ttl: 600,
    });
    assert!(packet.get_unresolved_ns(&b"www.example.com".to_vec()).is_some());
    assert!(packet.get_unresolved_ns(&b"example.com".to_vec()).is_some());
    assert!(packet.get_unresolved_ns(&b"example.net".to_vec()).is_none());
}
