use nebula::addr::Ipv4Addr;
use nebula::dns_packet::DnsPacket;
use nebula::dns_question::DnsQuestion;
use nebula::dns_record::DnsRecord;
use nebula::query_type::QueryType;
use nebula::res_code::ResultCode;
use nebula::resolver::{
    build_failure_response, build_query, build_response, nested_server, resolve_step, ResolveStep,
    MAX_HOPS, MAX_NESTED_DEPTH,
};

fn noerror_answer(qname: &[u8], addr: Ipv4Addr) -> DnsPacket {
    let mut reply = DnsPacket::new();
    reply.header.rescode = ResultCode::NOERROR;
    reply.answers.push(DnsRecord::A {
        domain: qname.to_vec(),
        addr,
        ttl: 60,
    });
    reply
}

fn delegation(domain: &[u8], host: &[u8], glue: Option<Ipv4Addr>) -> DnsPacket {
    let mut reply = DnsPacket::new();
    reply.authorities.push(DnsRecord::NS {
        domain: domain.to_vec(),
        host: host.to_vec(),
        ttl: 600,
    });
    if let Some(addr) = glue {
        reply.resources.push(DnsRecord::A {
            domain: host.to_vec(),
            addr,
            ttl: 600,
        });
    }
    reply
}

/// Walks the delegation decisions against a scripted sequence of
/// upstream replies, counting how many queries were issued.
fn walk(qname: &[u8], replies: &[DnsPacket]) -> (DnsPacket, usize) {
    let qname = qname.to_vec();
    let mut queries = 0usize;
    loop {
        let reply = replies[queries].clone();
        queries += 1;
        match resolve_step(&qname, &reply, queries, 0) {
            ResolveStep::Answered => return (reply, queries),
            ResolveStep::NextServer(_) => continue,
            ResolveStep::ResolveNs(_) => panic!("scripted walk expected no nested resolution"),
            ResolveStep::Abort => panic!("scripted walk expected no hop-budget abort"),
        }
    }
}

#[test]
fn immediate_answer_ends_after_one_query() {
    let replies = [noerror_answer(b"example.com", Ipv4Addr::new(1, 2, 3, 4))];
    let (reply, queries) = walk(b"example.com", &replies);
    assert_eq!(queries, 1);
    assert_eq!(reply.get_random_a(), Some(Ipv4Addr::new(1, 2, 3, 4)));
}

#[test]
fn glued_delegation_takes_exactly_two_queries() {
    let replies = [
        delegation(b"com", b"ns1.server.com", Some(Ipv4Addr::new(10, 0, 0, 1))),
        noerror_answer(b"example.com", Ipv4Addr::new(93, 184, 216, 34)),
    ];
    let (reply, queries) = walk(b"example.com", &replies);
    assert_eq!(queries, 2);
    assert_eq!(reply.get_random_a(), Some(Ipv4Addr::new(93, 184, 216, 34)));
}

#[test]
fn glued_delegation_names_the_next_server() {
    let reply = delegation(b"com", b"ns1.server.com", Some(Ipv4Addr::new(10, 0, 0, 1)));
    assert_eq!(
        resolve_step(&b"example.com".to_vec(), &reply, 1, 0),
        ResolveStep::NextServer(Ipv4Addr::new(10, 0, 0, 1))
    );
}

#[test]
fn unglued_delegation_asks_for_nested_resolution() {
    let reply = delegation(b"com", b"ns1.server.com", None);
    assert_eq!(
        resolve_step(&b"example.com".to_vec(), &reply, 1, 0),
        ResolveStep::ResolveNs(b"ns1.server.com".to_vec())
    );
}

#[test]
fn nxdomain_is_terminal() {
    let mut reply = DnsPacket::new();
    reply.header.rescode = ResultCode::NXDOMAIN;
    assert_eq!(
        resolve_step(&b"example.com".to_vec(), &reply, 1, 0),
        ResolveStep::Answered
    );
}

#[test]
fn reply_without_delegation_is_terminal() {
    let reply = DnsPacket::new();
    assert_eq!(
        resolve_step(&b"example.com".to_vec(), &reply, 1, 0),
        ResolveStep::Answered
    );
}

#[test]
fn spent_hop_budget_aborts_the_walk() {
    // A non-terminal delegation that would otherwise be followed.
    let reply = delegation(b"com", b"ns1.server.com", Some(Ipv4Addr::new(10, 0, 0, 1)));
    assert_eq!(
        resolve_step(&b"example.com".to_vec(), &reply, MAX_HOPS, 0),
        ResolveStep::Abort
    );
    // A terminal reply still answers even at the cap.
    let answer = noerror_answer(b"example.com", Ipv4Addr::new(1, 1, 1, 1));
    assert_eq!(
        resolve_step(&b"example.com".to_vec(), &answer, MAX_HOPS, 0),
        ResolveStep::Answered
    );
}

#[test]
fn too_deep_nesting_answers_with_the_current_reply() {
    let reply = delegation(b"com", b"ns1.server.com", None);
    assert_eq!(
        resolve_step(&b"example.com".to_vec(), &reply, 1, MAX_NESTED_DEPTH),
        ResolveStep::Answered
    );
}

#[test]
fn nested_server_takes_the_first_a_answer() {
    let nested = noerror_answer(b"ns1.server.com", Ipv4Addr::new(10, 0, 0, 2));
    assert_eq!(nested_server(Some(&nested)), Some(Ipv4Addr::new(10, 0, 0, 2)));
    assert_eq!(nested_server(Some(&DnsPacket::new())), None);
    assert_eq!(nested_server(None), None);
}

#[test]
fn failure_response_is_servfail_under_the_salvaged_id() {
    let response = build_failure_response(0x1FA2);
    assert_eq!(response.header.id, 0x1FA2);
    assert!(response.header.response);
    assert_eq!(response.header.rescode, ResultCode::SERVFAIL);
    assert!(response.questions.is_empty());
    assert!(response.answers.is_empty());
}

#[test]
fn build_query_carries_one_question() {
    let packet = build_query(6666, &b"yahoo.com".to_vec(), QueryType::MX);
    assert_eq!(packet.header.id, 6666);
    assert!(packet.header.recursion_desired);
    assert_eq!(packet.header.questions, 1);
    assert_eq!(packet.questions.len(), 1);
    assert_eq!(packet.questions[0].name, b"yahoo.com".to_vec());
    assert_eq!(packet.questions[0].qtype, QueryType::MX);
}

#[test]
fn request_without_question_yields_formerr_with_matching_id() {
    // A request datagram with zero questions, taken through the full
    // decode / respond / encode / decode path.
    let mut wire = nebula::byte_packet::BytePacketBuffer::new();
    let mut request = DnsPacket::new();
    request.header.id = 0x4242;
    request.write(&mut wire).unwrap();
    wire.change_buffer_position(0).unwrap();
    let request = DnsPacket::from_buffer(&mut wire).unwrap();
    assert!(request.questions.is_empty());

    let mut response = build_response(&request, None);
    assert_eq!(response.header.id, 0x4242);
    assert!(response.header.response);
    assert_eq!(response.header.rescode, ResultCode::FORMERR);
    assert!(response.questions.is_empty());
    assert!(response.answers.is_empty());

    let mut out = nebula::byte_packet::BytePacketBuffer::new();
    response.write(&mut out).unwrap();
    out.change_buffer_position(0).unwrap();
    let echoed = DnsPacket::from_buffer(&mut out).unwrap();
    assert_eq!(echoed.header.id, 0x4242);
    assert_eq!(echoed.header.rescode, ResultCode::FORMERR);
}

#[test]
fn failed_resolution_yields_servfail() {
    let mut request = DnsPacket::new();
    request.header.id = 7;
    request
        .questions
        .push(DnsQuestion::new(b"example.com".to_vec(), QueryType::A));
    let response = build_response(&request, None);
    assert_eq!(response.header.id, 7);
    assert_eq!(response.header.rescode, ResultCode::SERVFAIL);
    assert!(response.answers.is_empty());
}

#[test]
fn successful_resolution_carries_records_through() {
    let mut request = DnsPacket::new();
    request.header.id = 99;
    request
        .questions
        .push(DnsQuestion::new(b"example.com".to_vec(), QueryType::A));
    let mut lookup = noerror_answer(b"example.com", Ipv4Addr::new(4, 3, 2, 1));
    lookup.authorities.push(DnsRecord::NS {
        domain: b"com".to_vec(),
        host: b"ns.com".to_vec(),
        ttl: 1,
    });
    let response = build_response(&request, Some(&lookup));
    assert_eq!(response.header.id, 99);
    assert!(response.header.response);
    assert_eq!(response.header.rescode, ResultCode::NOERROR);
    assert_eq!(response.questions, request.questions);
    assert_eq!(response.answers, lookup.answers);
    assert_eq!(response.authorities, lookup.authorities);
    assert_eq!(response.resources, lookup.resources);
}

#[test]
fn query_packet_survives_the_wire() {
    let mut packet = build_query(0x1A2B, &b"example.com".to_vec(), QueryType::A);
    let mut buffer = nebula::byte_packet::BytePacketBuffer::new();
    packet.write(&mut buffer).unwrap();
    buffer.change_buffer_position(0).unwrap();
    let back = DnsPacket::from_buffer(&mut buffer).unwrap();
    assert_eq!(back.header.id, 0x1A2B);
    assert!(back.header.recursion_desired);
    assert_eq!(back.questions.len(), 1);
    assert_eq!(back.questions[0].name, b"example.com".to_vec());
    assert_eq!(back.questions[0].qtype, QueryType::A);
}
