use crate::addr::{Ipv4Addr, Ipv6Addr};
use crate::byte_packet::{
    be16, be32, encode_name, labels_ok, lemma_splice_splice, lemma_splice_within, lower_bytes,
    name_ok, parse_name, splice, u16_bytes, u32_bytes, BytePacketBuffer,
};
use crate::err::DnsError;
use crate::query_type::QueryType;
use vstd::prelude::*;

verus! {

/// A resource record, tagged by its type. Every variant carries the
/// owning domain name and the time-to-live; a record of a type outside
/// the known set keeps its raw type code and declared payload length,
/// with the payload bytes skipped rather than retained.
#[derive(Clone, Debug, PartialEq, Eq)]
pub enum DnsRecord {
    UNKNOWN { domain: Vec<u8>, qtype: u16, data_length: u16, ttl: u32 },
    A { domain: Vec<u8>, addr: Ipv4Addr, ttl: u32 },
    NS { domain: Vec<u8>, host: Vec<u8>, ttl: u32 },
    CNAME { domain: Vec<u8>, host: Vec<u8>, ttl: u32 },
    MX { domain: Vec<u8>, priority: u16, host: Vec<u8>, ttl: u32 },
    AAAA { domain: Vec<u8>, addr: Ipv6Addr, ttl: u32 },
}

/// The mathematical model of a record: names as byte sequences.
pub enum RecordModel {
    Unknown { domain: Seq<u8>, qtype: u16, data_length: u16, ttl: u32 },
    A { domain: Seq<u8>, addr: Ipv4Addr, ttl: u32 },
    Ns { domain: Seq<u8>, host: Seq<u8>, ttl: u32 },
    Cname { domain: Seq<u8>, host: Seq<u8>, ttl: u32 },
    Mx { domain: Seq<u8>, priority: u16, host: Seq<u8>, ttl: u32 },
    Aaaa { domain: Seq<u8>, addr: Ipv6Addr, ttl: u32 },
}

impl View for DnsRecord {
    type V = RecordModel;

    open spec fn view(&self) -> RecordModel {
        match self {
            DnsRecord::UNKNOWN { domain, qtype, data_length, ttl } => RecordModel::Unknown {
                domain: domain@,
                qtype: *qtype,
                data_length: *data_length,
                ttl: *ttl,
            },
            DnsRecord::A { domain, addr, ttl } => RecordModel::A {
                domain: domain@,
                addr: *addr,
                ttl: *ttl,
            },
            DnsRecord::NS { domain, host, ttl } => RecordModel::Ns {
                domain: domain@,
                host: host@,
                ttl: *ttl,
            },
            DnsRecord::CNAME { domain, host, ttl } => RecordModel::Cname {
                domain: domain@,
                host: host@,
                ttl: *ttl,
            },
            DnsRecord::MX { domain, priority, host, ttl } => RecordModel::Mx {
                domain: domain@,
                priority: *priority,
                host: host@,
                ttl: *ttl,
            },
            DnsRecord::AAAA { domain, addr, ttl } => RecordModel::Aaaa {
                domain: domain@,
                addr: *addr,
                ttl: *ttl,
            },
        }
    }
}

/// The record with its domain and target names lowercased, as decoding
/// returns them.
pub open spec fn lower_record(r: RecordModel) -> RecordModel {
    match r {
        RecordModel::Unknown { domain, qtype, data_length, ttl } => RecordModel::Unknown {
            domain: lower_bytes(domain),
            qtype,
            data_length,
            ttl,
        },
        RecordModel::A { domain, addr, ttl } => RecordModel::A {
            domain: lower_bytes(domain),
            addr,
            ttl,
        },
        RecordModel::Ns { domain, host, ttl } => RecordModel::Ns {
            domain: lower_bytes(domain),
            host: lower_bytes(host),
            ttl,
        },
        RecordModel::Cname { domain, host, ttl } => RecordModel::Cname {
            domain: lower_bytes(domain),
            host: lower_bytes(host),
            ttl,
        },
        RecordModel::Mx { domain, priority, host, ttl } => RecordModel::Mx {
            domain: lower_bytes(domain),
            priority,
            host: lower_bytes(host),
            ttl,
        },
        RecordModel::Aaaa { domain, addr, ttl } => RecordModel::Aaaa {
            domain: lower_bytes(domain),
            addr,
            ttl,
        },
    }
}

/// The result of decoding one record at `pos`: its model and the cursor
/// position after it. The class field is read and discarded; for a known
/// type the declared payload length is ignored in favor of the type's
/// own layout, and for an unknown type exactly that many payload bytes
/// are skipped.
pub open spec fn parse_record(buf: Seq<u8>, pos: int) -> Option<(RecordModel, int)>
    recommends
        buf.len() == 512,
{
    match parse_name(buf, pos, 0) {
        Option::None => None,
        Option::Some((domain, p)) => {
            if p + 10 <= 512 {
                let qnum = be16(buf[p], buf[p + 1]);
                let ttl = be32(buf[p + 4], buf[p + 5], buf[p + 6], buf[p + 7]);
                let dlen = be16(buf[p + 8], buf[p + 9]);
                let q = p + 10;
                match QueryType::spec_from_num(qnum) {
                    QueryType::A => {
                        if q + 4 <= 512 {
                            Some(
                                (
                                    RecordModel::A {
                                        domain,
                                        addr: Ipv4Addr {
                                            o0: buf[q],
                                            o1: buf[q + 1],
                                            o2: buf[q + 2],
                                            o3: buf[q + 3],
                                        },
                                        ttl,
                                    },
                                    q + 4,
                                ),
                            )
                        } else {
                            None
                        }
                    },
                    QueryType::AAAA => {
                        if q + 16 <= 512 {
                            Some(
                                (
                                    RecordModel::Aaaa {
                                        domain,
                                        addr: Ipv6Addr {
                                            g0: be16(buf[q], buf[q + 1]),
                                            g1: be16(buf[q + 2], buf[q + 3]),
                                            g2: be16(buf[q + 4], buf[q + 5]),
                                            g3: be16(buf[q + 6], buf[q + 7]),
                                            g4: be16(buf[q + 8], buf[q + 9]),
                                            g5: be16(buf[q + 10], buf[q + 11]),
                                            g6: be16(buf[q + 12], buf[q + 13]),
                                            g7: be16(buf[q + 14], buf[q + 15]),
                                        },
                                        ttl,
                                    },
                                    q + 16,
                                ),
                            )
                        } else {
                            None
                        }
                    },
                    QueryType::NS => {
                        match parse_name(buf, q, 0) {
                            Option::None => None,
                            Option::Some((host, e)) => Some(
                                (RecordModel::Ns { domain, host, ttl }, e),
                            ),
                        }
                    },
                    QueryType::CNAME => {
                        match parse_name(buf, q, 0) {
                            Option::None => None,
                            Option::Some((host, e)) => Some(
                                (RecordModel::Cname { domain, host, ttl }, e),
                            ),
                        }
                    },
                    QueryType::MX => {
                        if q + 2 <= 512 {
                            match parse_name(buf, q + 2, 0) {
                                Option::None => None,
                                Option::Some((host, e)) => Some(
                                    (
                                        RecordModel::Mx {
                                            domain,
                                            priority: be16(buf[q], buf[q + 1]),
                                            host,
                                            ttl,
                                        },
                                        e,
                                    ),
                                ),
                            }
                        } else {
                            None
                        }
                    },
                    QueryType::UNKNOWN(_) => {
                        Some(
                            (
                                RecordModel::Unknown { domain, qtype: qnum, data_length: dlen, ttl },
                                q + dlen,
                            ),
                        )
                    },
                }
            } else {
                None
            }
        },
    }
}

/// The wire bytes of a record: name, type code, class 1, time-to-live,
/// payload length, payload. A record of unknown type is omitted from
/// serialized output and has no bytes.
pub open spec fn record_bytes(r: RecordModel) -> Seq<u8> {
    match r {
        RecordModel::Unknown { .. } => Seq::empty(),
        RecordModel::A { domain, addr, ttl } => encode_name(domain) + u16_bytes(1) + u16_bytes(1)
            + u32_bytes(ttl) + u16_bytes(4) + seq![addr.o0, addr.o1, addr.o2, addr.o3],
        RecordModel::Ns { domain, host, ttl } => encode_name(domain) + u16_bytes(2) + u16_bytes(1)
            + u32_bytes(ttl) + u16_bytes(encode_name(host).len() as u16) + encode_name(host),
        RecordModel::Cname { domain, host, ttl } => encode_name(domain) + u16_bytes(5) + u16_bytes(
            1,
        ) + u32_bytes(ttl) + u16_bytes(encode_name(host).len() as u16) + encode_name(host),
        RecordModel::Mx { domain, priority, host, ttl } => encode_name(domain) + u16_bytes(15)
            + u16_bytes(1) + u32_bytes(ttl) + u16_bytes((encode_name(host).len() + 2) as u16)
            + u16_bytes(priority) + encode_name(host),
        RecordModel::Aaaa { domain, addr, ttl } => encode_name(domain) + u16_bytes(28) + u16_bytes(
            1,
        ) + u32_bytes(ttl) + u16_bytes(16) + u16_bytes(addr.g0) + u16_bytes(addr.g1) + u16_bytes(
            addr.g2,
        ) + u16_bytes(addr.g3) + u16_bytes(addr.g4) + u16_bytes(addr.g5) + u16_bytes(addr.g6)
            + u16_bytes(addr.g7),
    }
}

/// When writing a record at `pos` succeeds: its names encode and the
/// bytes fit before byte 512. A record of unknown type always succeeds
/// by writing nothing.
pub open spec fn record_writable(r: RecordModel, pos: int) -> bool {
    match r {
        RecordModel::Unknown { .. } => true,
        RecordModel::A { domain, .. } => labels_ok(domain) && pos + record_bytes(r).len() <= 512,
        RecordModel::Aaaa { domain, .. } => labels_ok(domain) && pos + record_bytes(r).len()
            <= 512,
        RecordModel::Ns { domain, host, .. } => labels_ok(domain) && labels_ok(host) && pos
            + record_bytes(r).len() <= 512,
        RecordModel::Cname { domain, host, .. } => labels_ok(domain) && labels_ok(host) && pos
            + record_bytes(r).len() <= 512,
        RecordModel::Mx { domain, host, .. } => labels_ok(domain) && labels_ok(host) && pos
            + record_bytes(r).len() <= 512,
    }
}

/// The labels of the names carried by a record are short enough to
/// encode; a record of unknown type has nothing to encode.
pub open spec fn record_labels_ok(r: RecordModel) -> bool {
    match r {
        RecordModel::Unknown { .. } => true,
        RecordModel::A { domain, .. } => labels_ok(domain),
        RecordModel::Aaaa { domain, .. } => labels_ok(domain),
        RecordModel::Ns { domain, host, .. } => labels_ok(domain) && labels_ok(host),
        RecordModel::Cname { domain, host, .. } => labels_ok(domain) && labels_ok(host),
        RecordModel::Mx { domain, host, .. } => labels_ok(domain) && labels_ok(host),
    }
}

/// The names carried by a record are well formed and its type is known:
/// the condition under which its encoding decodes back to it.
pub open spec fn record_names_ok(r: RecordModel) -> bool {
    match r {
        RecordModel::Unknown { .. } => false,
        RecordModel::A { domain, .. } => name_ok(domain),
        RecordModel::Aaaa { domain, .. } => name_ok(domain),
        RecordModel::Ns { domain, host, .. } => name_ok(domain) && name_ok(host),
        RecordModel::Cname { domain, host, .. } => name_ok(domain) && name_ok(host),
        RecordModel::Mx { domain, host, .. } => name_ok(domain) && name_ok(host),
    }
}

/// Round trip of the record codec: decoding the encoding of a record of
/// any known type with well-formed names yields the same record with
/// its names lowercased, consuming exactly the encoding.
#[verifier::rlimit(100)]
#[verifier::spinoff_prover]
pub proof fn lemma_record_round_trip(buf: Seq<u8>, pos: int, r: RecordModel)
    requires
        buf.len() == 512,
        record_names_ok(r),
        0 <= pos,
        pos + record_bytes(r).len() <= 512,
        buf.subrange(pos, pos + record_bytes(r).len()) == record_bytes(r),
    ensures
        parse_record(buf, pos) == Some((lower_record(r), pos + record_bytes(r).len() as int)),
{
    let rb = record_bytes(r);
    match r {
        RecordModel::Unknown { .. } => {},
        RecordModel::A { domain, addr, ttl } => {
            let encd = encode_name(domain);
            let nl = encd.len() as int;
            assert(buf.subrange(pos, pos + nl) =~= encd);
            crate::byte_packet::lemma_name_round_trip(buf, pos, domain, 0);
            let p = pos + nl;
            crate::byte_packet::lemma_window_index(buf, pos, rb);
            crate::byte_packet::lemma_be16_round_trip(1);
            crate::byte_packet::lemma_be32_round_trip(ttl);
            assert(be16(rb[nl], rb[nl + 1int]) == 1);
            assert(be32(rb[nl + 4int], rb[nl + 5int], rb[nl + 6int], rb[nl + 7int]) == ttl);
            assert(rb[nl + 10int] == addr.o0 && rb[nl + 11int] == addr.o1 && rb[nl + 12int]
                == addr.o2 && rb[nl + 13int] == addr.o3);
        },
        RecordModel::Aaaa { domain, addr, ttl } => {
            let encd = encode_name(domain);
            let nl = encd.len() as int;
            assert(buf.subrange(pos, pos + nl) =~= encd);
            crate::byte_packet::lemma_name_round_trip(buf, pos, domain, 0);
            let p = pos + nl;
            crate::byte_packet::lemma_window_index(buf, pos, rb);
            crate::byte_packet::lemma_be16_round_trip(28);
            crate::byte_packet::lemma_be32_round_trip(ttl);
            crate::byte_packet::lemma_be16_round_trip(addr.g0);
            crate::byte_packet::lemma_be16_round_trip(addr.g1);
            crate::byte_packet::lemma_be16_round_trip(addr.g2);
            crate::byte_packet::lemma_be16_round_trip(addr.g3);
            crate::byte_packet::lemma_be16_round_trip(addr.g4);
            crate::byte_packet::lemma_be16_round_trip(addr.g5);
            crate::byte_packet::lemma_be16_round_trip(addr.g6);
            crate::byte_packet::lemma_be16_round_trip(addr.g7);
            assert(be16(rb[nl], rb[nl + 1int]) == 28);
            assert(be32(rb[nl + 4int], rb[nl + 5int], rb[nl + 6int], rb[nl + 7int]) == ttl);
            assert(rb[nl + 10int] == u16_bytes(addr.g0)[0] && rb[nl + 11int] == u16_bytes(
                addr.g0,
            )[1]);
            assert(rb[nl + 12int] == u16_bytes(addr.g1)[0] && rb[nl + 13int] == u16_bytes(
                addr.g1,
            )[1]);
            assert(rb[nl + 14int] == u16_bytes(addr.g2)[0] && rb[nl + 15int] == u16_bytes(
                addr.g2,
            )[1]);
            assert(rb[nl + 16int] == u16_bytes(addr.g3)[0] && rb[nl + 17int] == u16_bytes(
                addr.g3,
            )[1]);
            assert(rb[nl + 18int] == u16_bytes(addr.g4)[0] && rb[nl + 19int] == u16_bytes(
                addr.g4,
            )[1]);
            assert(rb[nl + 20int] == u16_bytes(addr.g5)[0] && rb[nl + 21int] == u16_bytes(
                addr.g5,
            )[1]);
            assert(rb[nl + 22int] == u16_bytes(addr.g6)[0] && rb[nl + 23int] == u16_bytes(
                addr.g6,
            )[1]);
            assert(rb[nl + 24int] == u16_bytes(addr.g7)[0] && rb[nl + 25int] == u16_bytes(
                addr.g7,
            )[1]);
        },
        RecordModel::Ns { domain, host, ttl } => {
            lemma_host_record_round_trip(buf, pos, r, domain, host, ttl, 2, None);
        },
        RecordModel::Cname { domain, host, ttl } => {
            lemma_host_record_round_trip(buf, pos, r, domain, host, ttl, 5, None);
        },
        RecordModel::Mx { domain, priority, host, ttl } => {
            assert(record_bytes(r) =~= encode_name(domain) + u16_bytes(15) + u16_bytes(1)
                + u32_bytes(ttl) + (u16_bytes((encode_name(host).len() + 2) as u16) + u16_bytes(
                priority,
            )) + encode_name(host));
            lemma_host_record_round_trip(buf, pos, r, domain, host, ttl, 15, Some(priority));
        },
    }
}

/// Round trip of a record whose payload is a host name, with an
/// optional leading 16-bit priority.
proof fn lemma_host_record_round_trip(
    buf: Seq<u8>,
    pos: int,
    r: RecordModel,
    domain: Seq<u8>,
    host: Seq<u8>,
    ttl: u32,
    type_num: u16,
    priority: Option<u16>,
)
    requires
        buf.len() == 512,
        name_ok(domain),
        name_ok(host),
        0 <= pos,
        pos + record_bytes(r).len() <= 512,
        buf.subrange(pos, pos + record_bytes(r).len()) == record_bytes(r),
        record_bytes(r) == encode_name(domain) + u16_bytes(type_num) + u16_bytes(1) + u32_bytes(
            ttl,
        ) + (match priority {
            Option::Some(p) => u16_bytes((encode_name(host).len() + 2) as u16) + u16_bytes(p),
            Option::None => u16_bytes(encode_name(host).len() as u16),
        }) + encode_name(host),
        match priority {
            Option::Some(p) => r == (RecordModel::Mx {
                domain,
                priority: p,
                host,
                ttl,
            }) && type_num == 15,
            Option::None => (r == (RecordModel::Ns { domain, host, ttl }) && type_num == 2) || (r
                == (RecordModel::Cname { domain, host, ttl }) && type_num == 5),
        },
    ensures
        parse_record(buf, pos) == Some((lower_record(r), pos + record_bytes(r).len() as int)),
{
    let rb = record_bytes(r);
    let encd = encode_name(domain);
    let ench = encode_name(host);
    let nl = encd.len() as int;
    let pri: int = if priority is Some {
        2
    } else {
        0
    };
    assert(buf.subrange(pos, pos + nl) =~= encd);
    crate::byte_packet::lemma_name_round_trip(buf, pos, domain, 0);
    let p = pos + nl;
    crate::byte_packet::lemma_window_index(buf, pos, rb);
    crate::byte_packet::lemma_be16_round_trip(type_num);
    crate::byte_packet::lemma_be32_round_trip(ttl);
    assert(be16(rb[nl], rb[nl + 1int]) == type_num);
    assert(be32(rb[nl + 4int], rb[nl + 5int], rb[nl + 6int], rb[nl + 7int]) == ttl);
    let q = p + 10 + pri;
    assert(buf.subrange(q, q + ench.len()) =~= rb.subrange(nl + 10 + pri, nl + 10 + pri
        + ench.len()));
    assert(rb.subrange(nl + 10 + pri, nl + 10 + pri + ench.len()) =~= ench);
    crate::byte_packet::lemma_name_round_trip(buf, q, host, 0);
    match priority {
        Option::Some(pv) => {
            crate::byte_packet::lemma_be16_round_trip(pv);
            assert(be16(rb[nl + 10int], rb[nl + 11int]) == pv);
        },
        Option::None => {},
    }
}

/// The big-endian parts of a 32-bit value in terms of its four bytes.
pub proof fn lemma_be32_parts(b0: u8, b1: u8, b2: u8, b3: u8)
    ensures
        be32(b0, b1, b2, b3) / 0x1000000 == b0 as u32,
        (be32(b0, b1, b2, b3) / 0x1000000) % 256 == b0 as u32,
        (be32(b0, b1, b2, b3) / 0x10000) % 256 == b1 as u32,
        (be32(b0, b1, b2, b3) / 256) % 256 == b2 as u32,
        be32(b0, b1, b2, b3) % 256 == b3 as u32,
        be32(b0, b1, b2, b3) / 0x10000 == be16(b0, b1) as u32,
        be32(b0, b1, b2, b3) % 0x10000 == be16(b2, b3) as u32,
{
    let v = be32(b0, b1, b2, b3);
    assert(v == ((b0 as u32) * 0x1000000 + (b1 as u32) * 0x10000 + (b2 as u32) * 256 + (
    b3 as u32)) as u32);
    assert(v == ((b0 as u32) * 0x1000000 + (b1 as u32) * 0x10000 + (b2 as u32) * 256 + (
    b3 as u32)) as u32 ==> v / 0x1000000 == b0 as u32 && (v / 0x1000000) % 256 == b0 as u32 && (v / 0x10000) % 256 == b1 as u32 && (v
        / 256) % 256 == b2 as u32 && v % 256 == b3 as u32 && v / 0x10000 == (b0 as u32) * 256 + (
    b1 as u32) && v % 0x10000 == (b2 as u32) * 256 + (b3 as u32)) by (bit_vector);
}

impl DnsRecord {
    /// Decodes one record at the cursor.
    pub fn read(buffer: &mut BytePacketBuffer) -> (r: Result<DnsRecord, DnsError>)
        requires
            old(buffer).wf(),
        ensures
            final(buffer).wf(),
            final(buffer).buf@ == old(buffer).buf@,
            r is Ok <==> parse_record(old(buffer).buf@, old(buffer).pos as int) is Some,
            r is Ok ==> ({
                let pr = parse_record(old(buffer).buf@, old(buffer).pos as int)->Some_0;
                r->Ok_0@ == pr.0 && final(buffer).pos == pr.1
            }),
    {
        let mut domain: Vec<u8> = Vec::new();
        buffer.read_qname(&mut domain)?;

        let qtype_num = buffer.read_two_bytes()?;
        let qtype = QueryType::from_num(qtype_num);
        let _ = buffer.read_two_bytes()?;
        let ttl = buffer.read_four_bytes()?;
        let data_length = buffer.read_two_bytes()?;
        let ghost q = buffer.pos as int;

        match qtype {
            QueryType::A => {
                let raw_addr = buffer.read_four_bytes()?;
                proof {
                    let b = old(buffer).buf@;
                    lemma_be32_parts(b[q], b[q + 1], b[q + 2], b[q + 3]);
                }
                let addr = Ipv4Addr::new(
                    ((raw_addr / 0x1000000) % 256) as u8,
                    ((raw_addr / 0x10000) % 256) as u8,
                    ((raw_addr / 256) % 256) as u8,
                    (raw_addr % 256) as u8,
                );
                Ok(DnsRecord::A { domain, addr, ttl })
            },
            QueryType::MX => {
                let priority = buffer.read_two_bytes()?;
                let mut mx: Vec<u8> = Vec::new();
                buffer.read_qname(&mut mx)?;
                Ok(DnsRecord::MX { domain, priority, host: mx, ttl })
            },
            QueryType::CNAME => {
                let mut cname: Vec<u8> = Vec::new();
                buffer.read_qname(&mut cname)?;
                Ok(DnsRecord::CNAME { domain, host: cname, ttl })
            },
            QueryType::NS => {
                let mut ns: Vec<u8> = Vec::new();
                buffer.read_qname(&mut ns)?;
                Ok(DnsRecord::NS { domain, host: ns, ttl })
            },
            QueryType::AAAA => {
                let raw_addr1 = buffer.read_four_bytes()?;
                let raw_addr2 = buffer.read_four_bytes()?;
                let raw_addr3 = buffer.read_four_bytes()?;
                let raw_addr4 = buffer.read_four_bytes()?;
                proof {
                    let b = old(buffer).buf@;
                    lemma_be32_parts(b[q], b[q + 1], b[q + 2], b[q + 3]);
                    lemma_be32_parts(b[q + 4], b[q + 5], b[q + 6], b[q + 7]);
                    lemma_be32_parts(b[q + 8], b[q + 9], b[q + 10], b[q + 11]);
                    lemma_be32_parts(b[q + 12], b[q + 13], b[q + 14], b[q + 15]);
                }
                let addr = Ipv6Addr::new(
                    (raw_addr1 / 0x10000) as u16,
                    (raw_addr1 % 0x10000) as u16,
                    (raw_addr2 / 0x10000) as u16,
                    (raw_addr2 % 0x10000) as u16,
                    (raw_addr3 / 0x10000) as u16,
                    (raw_addr3 % 0x10000) as u16,
                    (raw_addr4 / 0x10000) as u16,
                    (raw_addr4 % 0x10000) as u16,
                );
                Ok(DnsRecord::AAAA { domain, addr, ttl })
            },
            QueryType::UNKNOWN(_) => {
                buffer.move_buffer(data_length as usize)?;
                Ok(
                    DnsRecord::UNKNOWN {
                        domain,
                        qtype: qtype_num,
                        data_length,
                        ttl,
                    },
                )
            },
        }
    }

    /// Encodes this record at the cursor, returning how many bytes were
    /// emitted. A record of unknown type is silently omitted and counts
    /// zero bytes.
    pub fn write(&self, buffer: &mut BytePacketBuffer) -> (r: Result<usize, DnsError>)
        requires
            old(buffer).wf(),
        ensures
            final(buffer).wf(),
            r is Ok <==> record_writable(self@, old(buffer).pos as int),
            r is Ok ==> r->Ok_0 == record_bytes(self@).len(),
            r is Ok && !(self@ is Unknown) ==> final(buffer).buf@ == splice(
                old(buffer).buf@,
                old(buffer).pos as int,
                record_bytes(self@),
            ) && final(buffer).pos == old(buffer).pos + record_bytes(self@).len(),
            self@ is Unknown ==> final(buffer).buf@ == old(buffer).buf@ && final(buffer).pos == old(
                buffer,
            ).pos,
            r is Err ==> final(buffer).pos >= old(buffer).pos && forall|k: int|
                0 <= k < 512 && !(old(buffer).pos <= k < final(buffer).pos) ==> final(buffer).buf@[k]
                    == old(buffer).buf@[k],
    {
        let start_pos = buffer.current_positon_in_buffer();
        let ghost buf0 = buffer.buf@;
        let ghost pos0 = buffer.pos;
        let ghost rb = record_bytes(self@);
        match self {
            DnsRecord::A { domain, addr, ttl } => {
                buffer.write_qname(domain)?;
                let mut out: Vec<u8> = Vec::new();
                out.push(0);
                out.push(1);
                out.push(0);
                out.push(1);
                out.push((*ttl / 0x1000000) as u8);
                out.push(((*ttl / 0x10000) % 256) as u8);
                out.push(((*ttl / 256) % 256) as u8);
                out.push((*ttl % 256) as u8);
                out.push(0);
                out.push(4);
                out.push(addr.o0);
                out.push(addr.o1);
                out.push(addr.o2);
                out.push(addr.o3);
                match buffer.write_all(&out) {
                    Ok(_) => {},
                    Err(e) => {
                        proof {
                            crate::byte_packet::lemma_splice_frame(
                                buf0,
                                pos0 as int,
                                encode_name(domain@),
                            );
                        }
                        return Err(e);
                    },
                }
                proof {
                    lemma_splice_splice(buf0, pos0 as int, encode_name(domain@), out@);
                    assert(encode_name(domain@) + out@ =~= rb);
                }
                Ok(buffer.current_positon_in_buffer() - start_pos)
            },
            DnsRecord::AAAA { domain, addr, ttl } => {
                buffer.write_qname(domain)?;
                let mut out: Vec<u8> = Vec::new();
                out.push(0);
                out.push(28);
                out.push(0);
                out.push(1);
                out.push((*ttl / 0x1000000) as u8);
                out.push(((*ttl / 0x10000) % 256) as u8);
                out.push(((*ttl / 256) % 256) as u8);
                out.push((*ttl % 256) as u8);
                out.push(0);
                out.push(16);
                out.push((addr.g0 / 256) as u8);
                out.push((addr.g0 % 256) as u8);
                out.push((addr.g1 / 256) as u8);
                out.push((addr.g1 % 256) as u8);
                out.push((addr.g2 / 256) as u8);
                out.push((addr.g2 % 256) as u8);
                out.push((addr.g3 / 256) as u8);
                out.push((addr.g3 % 256) as u8);
                out.push((addr.g4 / 256) as u8);
                out.push((addr.g4 % 256) as u8);
                out.push((addr.g5 / 256) as u8);
                out.push((addr.g5 % 256) as u8);
                out.push((addr.g6 / 256) as u8);
                out.push((addr.g6 % 256) as u8);
                out.push((addr.g7 / 256) as u8);
                out.push((addr.g7 % 256) as u8);
                match buffer.write_all(&out) {
                    Ok(_) => {},
                    Err(e) => {
                        proof {
                            crate::byte_packet::lemma_splice_frame(
                                buf0,
                                pos0 as int,
                                encode_name(domain@),
                            );
                        }
                        return Err(e);
                    },
                }
                proof {
                    lemma_splice_splice(buf0, pos0 as int, encode_name(domain@), out@);
                    assert(encode_name(domain@) + out@ =~= rb);
                }
                Ok(buffer.current_positon_in_buffer() - start_pos)
            },
            DnsRecord::NS { domain, host, ttl } => {
                Self::write_host_record(buffer, domain, 2, None, host, *ttl, Ghost(rb))
            },
            DnsRecord::CNAME { domain, host, ttl } => {
                Self::write_host_record(buffer, domain, 5, None, host, *ttl, Ghost(rb))
            },
            DnsRecord::MX { domain, priority, host, ttl } => {
                proof {
                    assert(rb =~= encode_name(domain@) + u16_bytes(15) + u16_bytes(1) + u32_bytes(
                        *ttl,
                    ) + (u16_bytes((encode_name(host@).len() + 2) as u16) + u16_bytes(*priority))
                        + encode_name(host@));
                }
                Self::write_host_record(buffer, domain, 15, Some(*priority), host, *ttl, Ghost(rb))
            },
            DnsRecord::UNKNOWN { .. } => Ok(0),
        }
    }

    /// Writes a record whose payload is a host name (with an optional
    /// leading 16-bit priority): a placeholder payload length is written
    /// first and backpatched once the name's size is known.
    #[verifier::rlimit(100)]
    #[verifier::spinoff_prover]
    fn write_host_record(
        buffer: &mut BytePacketBuffer,
        domain: &Vec<u8>,
        type_num: u16,
        priority: Option<u16>,
        host: &Vec<u8>,
        ttl: u32,
        Ghost(rb): Ghost<Seq<u8>>,
    ) -> (r: Result<usize, DnsError>)
        requires
            old(buffer).wf(),
            rb == encode_name(domain@) + u16_bytes(type_num) + u16_bytes(1) + u32_bytes(ttl) + (
            match priority {
                Option::Some(p) => u16_bytes((encode_name(host@).len() + 2) as u16) + u16_bytes(p),
                Option::None => u16_bytes(encode_name(host@).len() as u16),
            }) + encode_name(host@),
        ensures
            final(buffer).wf(),
            r is Ok <==> labels_ok(domain@) && labels_ok(host@) && old(buffer).pos + rb.len()
                <= 512,
            r is Ok ==> r->Ok_0 == rb.len() && final(buffer).buf@ == splice(
                old(buffer).buf@,
                old(buffer).pos as int,
                rb,
            ) && final(buffer).pos == old(buffer).pos + rb.len(),
            r is Err ==> final(buffer).pos >= old(buffer).pos && forall|k: int|
                0 <= k < 512 && !(old(buffer).pos <= k < final(buffer).pos) ==> final(buffer).buf@[k]
                    == old(buffer).buf@[k],
    {
        let start_pos = buffer.current_positon_in_buffer();
        let ghost buf0 = buffer.buf@;
        let ghost pos0 = buffer.pos;
        buffer.write_qname(domain)?;

        let mut out: Vec<u8> = Vec::new();
        out.push((type_num / 256) as u8);
        out.push((type_num % 256) as u8);
        out.push(0);
        out.push(1);
        out.push((ttl / 0x1000000) as u8);
        out.push(((ttl / 0x10000) % 256) as u8);
        out.push(((ttl / 256) % 256) as u8);
        out.push((ttl % 256) as u8);
        out.push(0);
        out.push(0);
        match priority {
            Some(p) => {
                out.push((p / 256) as u8);
                out.push((p % 256) as u8);
            },
            None => {},
        }
        let size_pos = buffer.current_positon_in_buffer();
        match buffer.write_all(&out) {
            Ok(_) => {},
            Err(e) => {
                proof {
                    crate::byte_packet::lemma_splice_frame(
                        buf0,
                        pos0 as int,
                        encode_name(domain@),
                    );
                }
                return Err(e);
            },
        }
        proof {
            lemma_splice_splice(buf0, pos0 as int, encode_name(domain@), out@);
            crate::byte_packet::lemma_splice_frame(
                buf0,
                pos0 as int,
                encode_name(domain@) + out@,
            );
        }
        let ghost head = encode_name(domain@) + out@;
        buffer.write_qname(host)?;
        proof {
            lemma_splice_splice(buf0, pos0 as int, head, encode_name(host@));
        }
        let ghost whole = head + encode_name(host@);
        let end_pos = buffer.current_positon_in_buffer();
        let size = end_pos - (size_pos + 10);
        match buffer.set_u16(size_pos + 8, size as u16) {
            Ok(_) => {},
            Err(e) => {
                proof {
                    assert(pos0 + whole.len() <= 512);
                    assert(size_pos + 8 + 2 <= 512);
                }
                return Err(e);
            },
        }
        proof {
            let encd = encode_name(domain@);
            let ench = encode_name(host@);
            let off = encd.len() as int + 8;
            lemma_splice_within(buf0, pos0 as int, whole, off, u16_bytes(size as u16));
            assert(whole.take(off) =~= encd + out@.take(8));
            assert(whole.skip(off + 2) =~= out@.skip(10) + ench);
            assert((encd + out@.take(8)) + u16_bytes(size as u16) + (out@.skip(10) + ench) =~= rb);
        }
        Ok(end_pos - start_pos)
    }
}

} // verus!
