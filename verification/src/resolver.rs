use crate::addr::Ipv4Addr;
use crate::dns_header::DnsHeader;
use crate::dns_packet::{
    clone_bytes, first_a_in, record_views, resolved_ns_in, unresolved_ns_in, DnsPacket,
    PacketModel,
};
use crate::dns_question::DnsQuestion;
use crate::dns_record::DnsRecord;
use crate::query_type::QueryType;
use crate::res_code::ResultCode;
use vstd::prelude::*;

verus! {

/// Cap on upstream queries in one delegation walk, so that a server
/// returning a non-progressing delegation cannot loop the resolver
/// forever. It is independent of the name decoder's pointer-jump guard.
pub const MAX_HOPS: usize = 16;

/// Cap on nested resolutions of name-server host names.
pub const MAX_NESTED_DEPTH: usize = 4;

/// What the delegation-walking algorithm does after one upstream reply:
/// stop and hand the reply back, ask the same question of another
/// server whose address is already known, first resolve a name server's
/// own host name, or give the walk up.
#[derive(Clone, Debug, PartialEq, Eq)]
pub enum ResolveStep {
    /// The reply settles the walk: answers with NOERROR, an
    /// authoritative NXDOMAIN, a delegation too deep to chase, or no
    /// usable delegation at all. The reply is the best-effort answer.
    Answered,
    /// Continue the walk by querying this server next.
    NextServer(Ipv4Addr),
    /// Resolve this name server host to an address, then continue.
    ResolveNs(Vec<u8>),
    /// The hop budget is spent with the walk unfinished: fail this
    /// resolution.
    Abort,
}

/// Whether a reply is terminal for the delegation walk: it has answers
/// with NOERROR, or it is an authoritative NXDOMAIN.
pub open spec fn reply_terminal(m: PacketModel) -> bool {
    (m.answers.len() > 0 && m.header.rescode == ResultCode::NOERROR) || m.header.rescode
        == ResultCode::NXDOMAIN
}

/// Decides the next move of the delegation walk from one upstream
/// reply, with `hops` queries already sent and `depth` nested
/// resolutions already underway: terminal replies end the walk; a spent
/// hop budget aborts it; otherwise a delegation with a known address is
/// followed directly, a delegation without one asks for that host to be
/// resolved first (unless the nesting is already too deep), and a reply
/// with no usable delegation ends the walk with the reply as the best
/// effort answer.
pub fn resolve_step(qname: &Vec<u8>, reply: &DnsPacket, hops: usize, depth: usize) -> (step:
    ResolveStep)
    ensures
        reply_terminal(reply@) ==> step == ResolveStep::Answered,
        !reply_terminal(reply@) && hops >= MAX_HOPS ==> step == ResolveStep::Abort,
        !reply_terminal(reply@) && hops < MAX_HOPS && resolved_ns_in(
            reply@.authorities,
            reply@.resources,
            qname@,
        ) is Some ==> step == ResolveStep::NextServer(
            resolved_ns_in(reply@.authorities, reply@.resources, qname@)->Some_0,
        ),
        !reply_terminal(reply@) && hops < MAX_HOPS && resolved_ns_in(
            reply@.authorities,
            reply@.resources,
            qname@,
        ) is None && unresolved_ns_in(reply@.authorities, reply@.resources, qname@) is Some
            && depth < MAX_NESTED_DEPTH ==> (step matches ResolveStep::ResolveNs(h) && h@
            == unresolved_ns_in(reply@.authorities, reply@.resources, qname@)->Some_0),
        !reply_terminal(reply@) && hops < MAX_HOPS && resolved_ns_in(
            reply@.authorities,
            reply@.resources,
            qname@,
        ) is None && unresolved_ns_in(reply@.authorities, reply@.resources, qname@) is Some
            && depth >= MAX_NESTED_DEPTH ==> step == ResolveStep::Answered,
        !reply_terminal(reply@) && hops < MAX_HOPS && resolved_ns_in(
            reply@.authorities,
            reply@.resources,
            qname@,
        ) is None && unresolved_ns_in(reply@.authorities, reply@.resources, qname@) is None
            ==> step == ResolveStep::Answered,
{
    let has_answers = reply.answers.len() > 0;
    if has_answers && reply.header.rescode.to_num() == 0 {
        return ResolveStep::Answered;
    }
    if reply.header.rescode.to_num() == 3 {
        return ResolveStep::Answered;
    }
    if hops >= MAX_HOPS {
        return ResolveStep::Abort;
    }
    match reply.get_resolved_ns(qname) {
        Some(addr) => ResolveStep::NextServer(addr),
        None => {
            match reply.get_unresolved_ns(qname) {
                Some(host) => if depth < MAX_NESTED_DEPTH {
                    ResolveStep::ResolveNs(host)
                } else {
                    ResolveStep::Answered
                },
                None => ResolveStep::Answered,
            }
        },
    }
}

/// Decides how the walk goes on after a nested name-server resolution:
/// with the first A answer of the nested reply as the next server, or
/// not at all when the nested resolution failed or answered no address,
/// in which case the walk ends with its current reply.
pub fn nested_server(nested: Option<&DnsPacket>) -> (r: Option<Ipv4Addr>)
    ensures
        r == (match nested {
            Option::None => None::<Ipv4Addr>,
            Option::Some(p) => first_a_in(p@.answers),
        }),
{
    match nested {
        Some(p) => p.get_random_a(),
        None => None,
    }
}

/// A copy of a question with the same name and type.
fn clone_question(q: &DnsQuestion) -> (r: DnsQuestion)
    ensures
        r@ == q@,
{
    DnsQuestion { name: clone_bytes(&q.name), qtype: q.qtype }
}

/// A copy of a record with the same model.
fn clone_record(r: &DnsRecord) -> (c: DnsRecord)
    ensures
        c@ == r@,
{
    match r {
        DnsRecord::UNKNOWN { domain, qtype, data_length, ttl } => DnsRecord::UNKNOWN {
            domain: clone_bytes(domain),
            qtype: *qtype,
            data_length: *data_length,
            ttl: *ttl,
        },
        DnsRecord::A { domain, addr, ttl } => DnsRecord::A {
            domain: clone_bytes(domain),
            addr: *addr,
            ttl: *ttl,
        },
        DnsRecord::NS { domain, host, ttl } => DnsRecord::NS {
            domain: clone_bytes(domain),
            host: clone_bytes(host),
            ttl: *ttl,
        },
        DnsRecord::CNAME { domain, host, ttl } => DnsRecord::CNAME {
            domain: clone_bytes(domain),
            host: clone_bytes(host),
            ttl: *ttl,
        },
        DnsRecord::MX { domain, priority, host, ttl } => DnsRecord::MX {
            domain: clone_bytes(domain),
            priority: *priority,
            host: clone_bytes(host),
            ttl: *ttl,
        },
        DnsRecord::AAAA { domain, addr, ttl } => DnsRecord::AAAA {
            domain: clone_bytes(domain),
            addr: *addr,
            ttl: *ttl,
        },
    }
}

/// A copy of a run of records with the same models, in order.
fn clone_records(v: &Vec<DnsRecord>) -> (c: Vec<DnsRecord>)
    ensures
        record_views(c@) == record_views(v@),
{
    let n = v.len();
    let mut out: Vec<DnsRecord> = Vec::new();
    let mut k: usize = 0;
    while k < n
        invariant
            n == v@.len(),
            k <= n,
            out@.len() == k,
            forall|i: int| 0 <= i < k ==> (#[trigger] out@[i])@ == v@[i]@,
        decreases n - k,
    {
        out.push(clone_record(&v[k]));
        k = k + 1;
    }
    proof {
        assert(record_views(out@) =~= record_views(v@));
    }
    out
}

/// Builds one outbound query packet: the given transaction id, the
/// recursion-desired flag set, and a single question for the name and
/// type.
pub fn build_query(id: u16, qname: &Vec<u8>, qtype: QueryType) -> (r: DnsPacket)
    ensures
        r.header == (DnsHeader { id, recursion_desired: true, questions: 1, ..DnsHeader::spec_new() }),
        r.header.wf(),
        r@.questions == seq![(qname@, qtype)],
        r@.answers.len() == 0,
        r@.authorities.len() == 0,
        r@.resources.len() == 0,
{
    let mut packet = DnsPacket::new();
    packet.header.id = id;
    packet.header.questions = 1;
    packet.header.recursion_desired = true;
    packet.questions.push(DnsQuestion::new(clone_bytes(qname), qtype));
    proof {
        assert(crate::dns_packet::question_views(packet.questions@) =~= seq![(qname@, qtype)]);
    }
    packet
}

/// Builds the response to one inbound request: the response echoes the
/// request's transaction id and sets the response flag. A request with
/// no question yields FORMERR; a request whose resolution failed yields
/// SERVFAIL; otherwise the response carries the request's first
/// question, the resolution's result code, and all its answer,
/// authority and additional records.
pub fn build_response(request: &DnsPacket, result: Option<&DnsPacket>) -> (r: DnsPacket)
    ensures
        r.header == (DnsHeader {
            id: request.header.id,
            recursion_desired: true,
            response: true,
            rescode: r.header.rescode,
            ..DnsHeader::spec_new()
        }),
        r.header.wf(),
        request@.questions.len() == 0 ==> r.header.rescode == ResultCode::FORMERR
            && r@.questions.len() == 0 && r@.answers.len() == 0 && r@.authorities.len() == 0
            && r@.resources.len() == 0,
        request@.questions.len() > 0 && result is None ==> r.header.rescode == ResultCode::SERVFAIL
            && r@.questions.len() == 0 && r@.answers.len() == 0 && r@.authorities.len() == 0
            && r@.resources.len() == 0,
        request@.questions.len() > 0 && result is Some ==> ({
            let res = result->Some_0;
            r@.questions == seq![request@.questions[0]] && r.header.rescode == res.header.rescode
                && r@.answers == res@.answers && r@.authorities == res@.authorities
                && r@.resources == res@.resources
        }),
{
    let mut packet = DnsPacket::new();
    packet.header.id = request.header.id;
    packet.header.recursion_desired = true;
    packet.header.response = true;

    if request.questions.len() > 0 {
        match result {
            Some(res) => {
                packet.questions.push(clone_question(&request.questions[0]));
                packet.header.rescode = res.header.rescode;
                packet.answers = clone_records(&res.answers);
                packet.authorities = clone_records(&res.authorities);
                packet.resources = clone_records(&res.resources);
                proof {
                    assert(crate::dns_packet::question_views(packet.questions@) =~= seq![
                        request@.questions[0],
                    ]);
                }
            },
            None => {
                packet.header.rescode = ResultCode::SERVFAIL;
            },
        }
    } else {
        packet.header.rescode = ResultCode::FORMERR;
    }
    packet
}

/// Builds the best-effort reply for a request datagram that could not
/// be decoded at all: an empty SERVFAIL response under whatever
/// transaction id could be salvaged from the datagram's first bytes.
pub fn build_failure_response(id: u16) -> (r: DnsPacket)
    ensures
        r.header == (DnsHeader {
            id,
            recursion_desired: true,
            response: true,
            rescode: ResultCode::SERVFAIL,
            ..DnsHeader::spec_new()
        }),
        r.header.wf(),
        r@.questions.len() == 0,
        r@.answers.len() == 0,
        r@.authorities.len() == 0,
        r@.resources.len() == 0,
{
    let mut packet = DnsPacket::new();
    packet.header.id = id;
    packet.header.recursion_desired = true;
    packet.header.response = true;
    packet.header.rescode = ResultCode::SERVFAIL;
    packet
}

} // verus!
