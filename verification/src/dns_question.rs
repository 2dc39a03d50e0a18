use crate::byte_packet::{
    be16, encode_name, labels_ok, parse_name, splice, u16_bytes, BytePacketBuffer,
};
use crate::err::DnsError;
use crate::query_type::QueryType;
use vstd::prelude::*;

verus! {

/// One query question: a dot-joined domain name and a query type. The
/// class field is implicitly "Internet" (wire value 1) and not modeled.
#[derive(Clone, Debug, PartialEq, Eq)]
pub struct DnsQuestion {
    pub name: Vec<u8>,
    pub qtype: QueryType,
}

/// The wire bytes of a question: the encoded name, the type code, and
/// the literal class value 1.
pub open spec fn question_bytes(name: Seq<u8>, qtype: QueryType) -> Seq<u8> {
    encode_name(name) + u16_bytes(qtype.spec_to_num()) + u16_bytes(1)
}

/// The result of decoding a question at `pos`: its lowercased name, its
/// type, and the position after it. The class field is read and
/// discarded.
pub open spec fn parse_question(buf: Seq<u8>, pos: int) -> Option<((Seq<u8>, QueryType), int)>
    recommends
        buf.len() == 512,
{
    match parse_name(buf, pos, 0) {
        Option::None => None,
        Option::Some((nm, p)) => {
            if p + 4 <= 512 {
                Some(((nm, QueryType::spec_from_num(be16(buf[p], buf[p + 1]))), p + 4))
            } else {
                None
            }
        },
    }
}

impl View for DnsQuestion {
    type V = (Seq<u8>, QueryType);

    open spec fn view(&self) -> (Seq<u8>, QueryType) {
        (self.name@, self.qtype)
    }
}

impl DnsQuestion {
    pub fn new(name: Vec<u8>, qtype: QueryType) -> (r: Self)
        ensures
            r.name@ == name@,
            r.qtype == qtype,
    {
        Self { name, qtype }
    }

    /// Decodes a question at the cursor, appending the lowercased name
    /// to this question's name and overwriting its type.
    pub fn read(&mut self, buffer: &mut BytePacketBuffer) -> (r: Result<(), DnsError>)
        requires
            old(buffer).wf(),
        ensures
            final(buffer).wf(),
            final(buffer).buf@ == old(buffer).buf@,
            r is Ok <==> parse_question(old(buffer).buf@, old(buffer).pos as int) is Some,
            r is Ok ==> ({
                let pq = parse_question(old(buffer).buf@, old(buffer).pos as int)->Some_0;
                final(self).name@ == old(self).name@ + pq.0.0 && final(self).qtype == pq.0.1
                    && final(buffer).pos == pq.1
            }),
    {
        buffer.read_qname(&mut self.name)?;
        self.qtype = QueryType::from_num(buffer.read_two_bytes()?);
        let _ = buffer.read_two_bytes()?;
        Ok(())
    }

    /// Encodes this question at the cursor: name, type code, and a class
    /// of 1.
    pub fn write(&self, buffer: &mut BytePacketBuffer) -> (r: Result<(), DnsError>)
        requires
            old(buffer).wf(),
        ensures
            final(buffer).wf(),
            r is Ok <==> labels_ok(self.name@) && old(buffer).pos + question_bytes(
                self.name@,
                self.qtype,
            ).len() <= 512,
            r is Ok ==> final(buffer).buf@ == splice(
                old(buffer).buf@,
                old(buffer).pos as int,
                question_bytes(self.name@, self.qtype),
            ) && final(buffer).pos == old(buffer).pos + question_bytes(
                self.name@,
                self.qtype,
            ).len(),
            r is Err ==> final(buffer).pos >= old(buffer).pos && forall|k: int|
                0 <= k < 512 && !(old(buffer).pos <= k < final(buffer).pos) ==> final(buffer).buf@[k]
                    == old(buffer).buf@[k],
    {
        let ghost buf0 = buffer.buf@;
        let ghost pos0 = buffer.pos;
        buffer.write_qname(&self.name)?;

        let type_num = self.qtype.to_num();
        let mut out: Vec<u8> = Vec::new();
        out.push((type_num / 256) as u8);
        out.push((type_num % 256) as u8);
        out.push(0);
        out.push(1);
        match buffer.write_all(&out) {
            Ok(_) => {},
            Err(e) => {
                proof {
                    crate::byte_packet::lemma_splice_frame(
                        buf0,
                        pos0 as int,
                        encode_name(self.name@),
                    );
                }
                return Err(e);
            },
        }
        proof {
            crate::byte_packet::lemma_splice_splice(
                buf0,
                pos0 as int,
                encode_name(self.name@),
                out@,
            );
            assert(encode_name(self.name@) + out@ =~= question_bytes(self.name@, self.qtype));
        }
        Ok(())
    }
}

/// Round trip of the question codec: decoding an encoded question whose
/// name is well formed yields the lowercased name and the same type,
/// consuming exactly the encoding. An `UNKNOWN` type carrying a known
/// code is excluded: its code decodes to the known type.
pub proof fn lemma_question_round_trip(buf: Seq<u8>, pos: int, name: Seq<u8>, qtype: QueryType)
    requires
        buf.len() == 512,
        crate::byte_packet::name_ok(name),
        !(qtype is UNKNOWN),
        0 <= pos,
        pos + question_bytes(name, qtype).len() <= 512,
        buf.subrange(pos, pos + question_bytes(name, qtype).len()) == question_bytes(name, qtype),
    ensures
        parse_question(buf, pos) == Some(
            (
                (crate::byte_packet::lower_bytes(name), qtype),
                pos + question_bytes(name, qtype).len(),
            ),
        ),
{
    let enc = encode_name(name);
    let qb = question_bytes(name, qtype);
    assert(buf.subrange(pos, pos + enc.len()) =~= enc);
    crate::byte_packet::lemma_name_round_trip(buf, pos, name, 0);
    let p = pos + enc.len();
    assert(buf[p] == qb[enc.len() as int]);
    assert(buf[p + 1] == qb[enc.len() + 1int]);
    crate::byte_packet::lemma_be16_round_trip(qtype.spec_to_num());
    crate::query_type::lemma_query_type_round_trip(qtype);
}

} // verus!
