use crate::addr::Ipv4Addr;
use crate::byte_packet::{splice, BytePacketBuffer};
use crate::dns_header::{header_bytes, header_from_bytes, DnsHeader};
use crate::dns_question::{parse_question, question_bytes, DnsQuestion};
use crate::dns_record::{parse_record, record_bytes, DnsRecord, RecordModel};
use crate::err::DnsError;
use crate::query_type::QueryType;
use vstd::prelude::*;

verus! {

/// The mathematical model of a packet: a header and the four record
/// sections.
pub struct PacketModel {
    pub header: DnsHeader,
    pub questions: Seq<(Seq<u8>, QueryType)>,
    pub answers: Seq<RecordModel>,
    pub authorities: Seq<RecordModel>,
    pub resources: Seq<RecordModel>,
}

/// One whole DNS message: a header and its four ordered sections.
#[derive(Clone, Debug, PartialEq, Eq)]
pub struct DnsPacket {
    pub header: DnsHeader,
    pub questions: Vec<DnsQuestion>,
    pub answers: Vec<DnsRecord>,
    pub authorities: Vec<DnsRecord>,
    pub resources: Vec<DnsRecord>,
}

/// The models of a sequence of questions.
pub open spec fn question_views(s: Seq<DnsQuestion>) -> Seq<(Seq<u8>, QueryType)> {
    s.map_values(|q: DnsQuestion| q@)
}

/// The models of a sequence of records.
pub open spec fn record_views(s: Seq<DnsRecord>) -> Seq<RecordModel> {
    s.map_values(|r: DnsRecord| r@)
}

impl View for DnsPacket {
    type V = PacketModel;

    open spec fn view(&self) -> PacketModel {
        PacketModel {
            header: self.header,
            questions: question_views(self.questions@),
            answers: record_views(self.answers@),
            authorities: record_views(self.authorities@),
            resources: record_views(self.resources@),
        }
    }
}

/// The result of decoding `n` questions in a row starting at `pos`.
pub open spec fn parse_questions(buf: Seq<u8>, pos: int, n: int) -> Option<
    (Seq<(Seq<u8>, QueryType)>, int),
>
    decreases n,
{
    if n <= 0 {
        Some((Seq::empty(), pos))
    } else {
        match parse_question(buf, pos) {
            Option::None => None,
            Option::Some((q, p)) => {
                match parse_questions(buf, p, n - 1) {
                    Option::None => None,
                    Option::Some((rest, e)) => Some((seq![q] + rest, e)),
                }
            },
        }
    }
}

/// The result of decoding `n` records in a row starting at `pos`.
pub open spec fn parse_records(buf: Seq<u8>, pos: int, n: int) -> Option<(Seq<RecordModel>, int)>
    decreases n,
{
    if n <= 0 {
        Some((Seq::empty(), pos))
    } else {
        match parse_record(buf, pos) {
            Option::None => None,
            Option::Some((m, p)) => {
                match parse_records(buf, p, n - 1) {
                    Option::None => None,
                    Option::Some((rest, e)) => Some((seq![m] + rest, e)),
                }
            },
        }
    }
}

/// The result of decoding a whole packet at `pos`: the header, then
/// exactly as many questions and answer, authority and additional
/// records as the header counts announce, in that fixed order.
pub open spec fn parse_packet(buf: Seq<u8>, pos: int) -> Option<(PacketModel, int)> {
    if pos + 12 <= 512 && 0 <= pos {
        let h = header_from_bytes(buf.subrange(pos, pos + 12));
        match parse_questions(buf, pos + 12, h.questions as int) {
            Option::None => None,
            Option::Some((qs, p1)) => {
                match parse_records(buf, p1, h.answers as int) {
                    Option::None => None,
                    Option::Some((ans, p2)) => {
                        match parse_records(buf, p2, h.authoritative_entries as int) {
                            Option::None => None,
                            Option::Some((auth, p3)) => {
                                match parse_records(buf, p3, h.resource_entries as int) {
                                    Option::None => None,
                                    Option::Some((res, p4)) => Some(
                                        (
                                            PacketModel {
                                                header: h,
                                                questions: qs,
                                                answers: ans,
                                                authorities: auth,
                                                resources: res,
                                            },
                                            p4,
                                        ),
                                    ),
                                }
                            },
                        }
                    },
                }
            },
        }
    } else {
        None
    }
}

/// The wire bytes of a run of questions, in order.
pub open spec fn cat_questions(s: Seq<(Seq<u8>, QueryType)>) -> Seq<u8>
    decreases s.len(),
{
    if s.len() == 0 {
        Seq::empty()
    } else {
        question_bytes(s[0].0, s[0].1) + cat_questions(s.skip(1))
    }
}

/// The wire bytes of a run of records, in order; records of unknown
/// type contribute nothing.
pub open spec fn cat_records(s: Seq<RecordModel>) -> Seq<u8>
    decreases s.len(),
{
    if s.len() == 0 {
        Seq::empty()
    } else {
        record_bytes(s[0]) + cat_records(s.skip(1))
    }
}

/// Every question's name has labels short enough to encode.
pub open spec fn questions_labels_ok(s: Seq<(Seq<u8>, QueryType)>) -> bool {
    forall|i: int| 0 <= i < s.len() ==> crate::byte_packet::labels_ok(#[trigger] s[i].0)
}

/// Every record's names have labels short enough to encode.
pub open spec fn records_labels_ok(s: Seq<RecordModel>) -> bool {
    forall|i: int| 0 <= i < s.len() ==> crate::dns_record::record_labels_ok(#[trigger] s[i])
}

/// The bytes of a run of questions split around any one of them.
pub proof fn lemma_cat_questions_split(s: Seq<(Seq<u8>, QueryType)>, i: int)
    requires
        0 <= i < s.len(),
    ensures
        cat_questions(s) == cat_questions(s.take(i)) + question_bytes(s[i].0, s[i].1)
            + cat_questions(s.skip(i + 1)),
    decreases i,
{
    if i == 0 {
        assert(s.take(0) =~= Seq::<(Seq<u8>, QueryType)>::empty());
        assert(cat_questions(s.take(0)) + question_bytes(s[0].0, s[0].1) + cat_questions(
            s.skip(1),
        ) =~= question_bytes(s[0].0, s[0].1) + cat_questions(s.skip(1)));
    } else {
        lemma_cat_questions_split(s.skip(1), i - 1);
        assert(s.skip(1).take(i - 1) =~= s.take(i).skip(1));
        assert(s.skip(1).skip(i) =~= s.skip(i + 1));
        assert(s.skip(1)[i - 1] == s[i]);
        assert(s.take(i)[0] == s[0]);
        assert(cat_questions(s.take(i)) == question_bytes(s[0].0, s[0].1) + cat_questions(
            s.take(i).skip(1),
        ));
        assert(question_bytes(s[0].0, s[0].1) + (cat_questions(s.take(i).skip(1)) + question_bytes(
            s[i].0,
            s[i].1,
        ) + cat_questions(s.skip(i + 1))) =~= (question_bytes(s[0].0, s[0].1) + cat_questions(
            s.take(i).skip(1),
        )) + question_bytes(s[i].0, s[i].1) + cat_questions(s.skip(i + 1)));
    }
}

/// The bytes of a run of records split around any one of them.
pub proof fn lemma_cat_records_split(s: Seq<RecordModel>, i: int)
    requires
        0 <= i < s.len(),
    ensures
        cat_records(s) == cat_records(s.take(i)) + record_bytes(s[i]) + cat_records(s.skip(i + 1)),
    decreases i,
{
    if i == 0 {
        assert(s.take(0) =~= Seq::<RecordModel>::empty());
        assert(cat_records(s.take(0)) + record_bytes(s[0]) + cat_records(s.skip(1)) =~= record_bytes(
            s[0],
        ) + cat_records(s.skip(1)));
    } else {
        lemma_cat_records_split(s.skip(1), i - 1);
        assert(s.skip(1).take(i - 1) =~= s.take(i).skip(1));
        assert(s.skip(1).skip(i) =~= s.skip(i + 1));
        assert(s.skip(1)[i - 1] == s[i]);
        assert(s.take(i)[0] == s[0]);
        assert(cat_records(s.take(i)) == record_bytes(s[0]) + cat_records(s.take(i).skip(1)));
        assert(record_bytes(s[0]) + (cat_records(s.take(i).skip(1)) + record_bytes(s[i])
            + cat_records(s.skip(i + 1))) =~= (record_bytes(s[0]) + cat_records(s.take(i).skip(1)))
            + record_bytes(s[i]) + cat_records(s.skip(i + 1)));
    }
}

/// Reads `count` questions in a row.
#[verifier::loop_isolation(false)]
fn read_questions(buffer: &mut BytePacketBuffer, count: u16) -> (r: Result<
    Vec<DnsQuestion>,
    DnsError,
>)
    requires
        old(buffer).wf(),
    ensures
        final(buffer).wf(),
        final(buffer).buf@ == old(buffer).buf@,
        r is Ok <==> parse_questions(old(buffer).buf@, old(buffer).pos as int, count as int)
            is Some,
        r is Ok ==> ({
            let pr = parse_questions(old(buffer).buf@, old(buffer).pos as int, count as int)->Some_0;
            question_views(r->Ok_0@) == pr.0 && final(buffer).pos == pr.1
        }),
{
    let ghost buf0 = buffer.buf@;
    let ghost pos0 = buffer.pos as int;
    let ghost n = count as int;
    let mut out: Vec<DnsQuestion> = Vec::new();
    let mut k: u16 = 0;
    while k < count
        invariant
            buffer.wf(),
            buffer.buf@ == buf0,
            k <= count,
            out@.len() == k as int,
            parse_questions(buf0, pos0, n) == (match parse_questions(
                buf0,
                buffer.pos as int,
                n - k,
            ) {
                Option::None => None::<(Seq<(Seq<u8>, QueryType)>, int)>,
                Option::Some((rest, e)) => Some((question_views(out@) + rest, e)),
            }),
        decreases count - k,
    {
        let mut question = DnsQuestion::new(Vec::new(), QueryType::UNKNOWN(0));
        let ghost cur = buffer.pos as int;
        match question.read(buffer) {
            Ok(_) => {},
            Err(e) => {
                proof {
                    assert(parse_questions(buf0, cur, n - k) is None);
                }
                return Err(e);
            },
        }
        proof {
            let pq = parse_question(buf0, cur)->Some_0;
            assert(question.name@ =~= pq.0.0);
            assert(question@ == pq.0);
            if parse_questions(buf0, pq.1, n - k - 1) is Some {
                let (rest, e) = parse_questions(buf0, pq.1, n - k - 1)->Some_0;
                assert(question_views(out@.push(question)) =~= question_views(out@) + seq![
                    question@,
                ]);
                assert(question_views(out@) + seq![question@] + rest =~= question_views(out@) + (
                seq![question@] + rest));
            }
        }
        out.push(question);
        k = k + 1;
    }
    Ok(out)
}

/// Reads `count` records in a row.
#[verifier::loop_isolation(false)]
fn read_records(buffer: &mut BytePacketBuffer, count: u16) -> (r: Result<Vec<DnsRecord>, DnsError>)
    requires
        old(buffer).wf(),
    ensures
        final(buffer).wf(),
        final(buffer).buf@ == old(buffer).buf@,
        r is Ok <==> parse_records(old(buffer).buf@, old(buffer).pos as int, count as int) is Some,
        r is Ok ==> ({
            let pr = parse_records(old(buffer).buf@, old(buffer).pos as int, count as int)->Some_0;
            record_views(r->Ok_0@) == pr.0 && final(buffer).pos == pr.1
        }),
{
    let ghost buf0 = buffer.buf@;
    let ghost pos0 = buffer.pos as int;
    let ghost n = count as int;
    let mut out: Vec<DnsRecord> = Vec::new();
    let mut k: u16 = 0;
    while k < count
        invariant
            buffer.wf(),
            buffer.buf@ == buf0,
            k <= count,
            out@.len() == k as int,
            parse_records(buf0, pos0, n) == (match parse_records(buf0, buffer.pos as int, n - k) {
                Option::None => None::<(Seq<RecordModel>, int)>,
                Option::Some((rest, e)) => Some((record_views(out@) + rest, e)),
            }),
        decreases count - k,
    {
        let ghost cur = buffer.pos as int;
        let rec = match DnsRecord::read(buffer) {
            Ok(rec) => rec,
            Err(e) => {
                proof {
                    assert(parse_records(buf0, cur, n - k) is None);
                }
                return Err(e);
            },
        };
        proof {
            let (m, p) = parse_record(buf0, cur)->Some_0;
            if parse_records(buf0, p, n - k - 1) is Some {
                let (rest, e) = parse_records(buf0, p, n - k - 1)->Some_0;
                assert(record_views(out@.push(rec)) =~= record_views(out@) + seq![rec@]);
                assert(record_views(out@) + seq![rec@] + rest =~= record_views(out@) + (seq![rec@]
                    + rest));
            }
        }
        out.push(rec);
        k = k + 1;
    }
    Ok(out)
}

/// Writes a run of questions in order at the cursor.
#[verifier::loop_isolation(false)]
fn write_questions(buffer: &mut BytePacketBuffer, questions: &Vec<DnsQuestion>) -> (r: Result<
    (),
    DnsError,
>)
    requires
        old(buffer).wf(),
        old(buffer).pos <= 512,
    ensures
        final(buffer).wf(),
        r is Ok <==> questions_labels_ok(question_views(questions@)) && old(buffer).pos
            + cat_questions(question_views(questions@)).len() <= 512,
        r is Ok ==> final(buffer).buf@ == splice(
            old(buffer).buf@,
            old(buffer).pos as int,
            cat_questions(question_views(questions@)),
        ) && final(buffer).pos == old(buffer).pos + cat_questions(
            question_views(questions@),
        ).len(),
        r is Err ==> final(buffer).pos >= old(buffer).pos && forall|k: int|
            0 <= k < 512 && !(old(buffer).pos <= k < final(buffer).pos) ==> final(buffer).buf@[k]
                == old(buffer).buf@[k],
{
    let ghost buf0 = buffer.buf@;
    let ghost pos0 = buffer.pos as int;
    let ghost views = question_views(questions@);
    let n = questions.len();
    let mut k: usize = 0;
    proof {
        assert(splice(buf0, pos0, cat_questions(views.take(0))) =~= buf0);
    }
    while k < n
        invariant
            buffer.wf(),
            k <= n,
            n == questions@.len(),
            buffer.buf@ == splice(buf0, pos0, cat_questions(views.take(k as int))),
            buffer.pos == pos0 + cat_questions(views.take(k as int)).len(),
            buffer.pos <= 512,
            forall|i: int| 0 <= i < k ==> crate::byte_packet::labels_ok(#[trigger] views[i].0),
        decreases n - k,
    {
        let ghost done = cat_questions(views.take(k as int));
        let ghost cur = buffer.pos as int;
        proof {
            lemma_cat_questions_split(views, k as int);
            assert(views.take(k as int + 1).take(k as int) =~= views.take(k as int));
            assert(views.take(k as int + 1).skip(k as int + 1) =~= Seq::<
                (Seq<u8>, QueryType),
            >::empty());
            assert(views.take(k as int + 1)[k as int] == views[k as int]);
            lemma_cat_questions_split(views.take(k as int + 1), k as int);
            assert(cat_questions(views.take(k as int + 1)) =~= done + question_bytes(
                views[k as int].0,
                views[k as int].1,
            ));
        }
        match questions[k].write(buffer) {
            Ok(_) => {},
            Err(e) => {
                proof {
                    crate::byte_packet::lemma_splice_frame(buf0, pos0, done);
                }
                return Err(e);
            },
        }
        proof {
            crate::byte_packet::lemma_splice_splice(
                buf0,
                pos0,
                done,
                question_bytes(views[k as int].0, views[k as int].1),
            );
        }
        k = k + 1;
    }
    proof {
        assert(views.take(n as int) =~= views);
    }
    Ok(())
}

/// Writes a run of records in order at the cursor; records of unknown
/// type are silently omitted.
#[verifier::loop_isolation(false)]
fn write_records(buffer: &mut BytePacketBuffer, records: &Vec<DnsRecord>) -> (r: Result<
    (),
    DnsError,
>)
    requires
        old(buffer).wf(),
        old(buffer).pos <= 512,
    ensures
        final(buffer).wf(),
        r is Ok <==> records_labels_ok(record_views(records@)) && old(buffer).pos + cat_records(
            record_views(records@),
        ).len() <= 512,
        r is Ok ==> final(buffer).buf@ == splice(
            old(buffer).buf@,
            old(buffer).pos as int,
            cat_records(record_views(records@)),
        ) && final(buffer).pos == old(buffer).pos + cat_records(record_views(records@)).len(),
        r is Err ==> final(buffer).pos >= old(buffer).pos && forall|k: int|
            0 <= k < 512 && !(old(buffer).pos <= k < final(buffer).pos) ==> final(buffer).buf@[k]
                == old(buffer).buf@[k],
{
    let ghost buf0 = buffer.buf@;
    let ghost pos0 = buffer.pos as int;
    let ghost views = record_views(records@);
    let n = records.len();
    let mut k: usize = 0;
    proof {
        assert(splice(buf0, pos0, cat_records(views.take(0))) =~= buf0);
    }
    while k < n
        invariant
            buffer.wf(),
            k <= n,
            n == records@.len(),
            buffer.buf@ == splice(buf0, pos0, cat_records(views.take(k as int))),
            buffer.pos == pos0 + cat_records(views.take(k as int)).len(),
            buffer.pos <= 512,
            forall|i: int|
                0 <= i < k ==> crate::dns_record::record_labels_ok(#[trigger] views[i]),
        decreases n - k,
    {
        let ghost done = cat_records(views.take(k as int));
        let ghost cur = buffer.pos as int;
        proof {
            lemma_cat_records_split(views, k as int);
            assert(views.take(k as int + 1).take(k as int) =~= views.take(k as int));
            assert(views.take(k as int + 1).skip(k as int + 1) =~= Seq::<RecordModel>::empty());
            assert(views.take(k as int + 1)[k as int] == views[k as int]);
            lemma_cat_records_split(views.take(k as int + 1), k as int);
            assert(cat_records(views.take(k as int + 1)) =~= done + record_bytes(views[k as int]));
        }
        match records[k].write(buffer) {
            Ok(_) => {},
            Err(e) => {
                proof {
                    crate::byte_packet::lemma_splice_frame(buf0, pos0, done);
                }
                return Err(e);
            },
        }
        proof {
            if views[k as int] is Unknown {
                assert(record_bytes(views[k as int]) =~= Seq::<u8>::empty());
                assert(splice(buf0, pos0, done + record_bytes(views[k as int])) =~= splice(
                    buf0,
                    pos0,
                    done,
                ));
            } else {
                crate::byte_packet::lemma_splice_splice(
                    buf0,
                    pos0,
                    done,
                    record_bytes(views[k as int]),
                );
            }
        }
        k = k + 1;
    }
    proof {
        assert(views.take(n as int) =~= views);
    }
    Ok(())
}

/// The header of a packet with its four counts recomputed from the
/// actual section lengths.
pub open spec fn recount(p: PacketModel) -> DnsHeader {
    DnsHeader {
        questions: p.questions.len() as u16,
        answers: p.answers.len() as u16,
        authoritative_entries: p.authorities.len() as u16,
        resource_entries: p.resources.len() as u16,
        ..p.header
    }
}

/// The wire bytes of a whole packet: the recounted header, then the
/// questions and the three record sections in order.
pub open spec fn packet_bytes(p: PacketModel) -> Seq<u8> {
    header_bytes(recount(p)) + cat_questions(p.questions) + cat_records(p.answers) + cat_records(
        p.authorities,
    ) + cat_records(p.resources)
}

/// When writing a packet at `pos` succeeds: every name encodes and the
/// whole message fits before byte 512.
pub open spec fn packet_writable(p: PacketModel, pos: int) -> bool {
    questions_labels_ok(p.questions) && records_labels_ok(p.answers) && records_labels_ok(
        p.authorities,
    ) && records_labels_ok(p.resources) && pos + packet_bytes(p).len() <= 512
}

impl DnsPacket {
    /// An empty packet with a zeroed header.
    pub fn new() -> (r: Self)
        ensures
            r.header == DnsHeader::spec_new(),
            r.questions@.len() == 0,
            r.answers@.len() == 0,
            r.authorities@.len() == 0,
            r.resources@.len() == 0,
    {
        Self {
            header: DnsHeader::new(),
            questions: Vec::new(),
            answers: Vec::new(),
            authorities: Vec::new(),
            resources: Vec::new(),
        }
    }

    /// Decodes a whole packet at the cursor: the header, then exactly as
    /// many questions and answer, authority and additional records as
    /// the header counts announce.
    pub fn from_buffer(buffer: &mut BytePacketBuffer) -> (r: Result<DnsPacket, DnsError>)
        requires
            old(buffer).wf(),
        ensures
            final(buffer).wf(),
            final(buffer).buf@ == old(buffer).buf@,
            r is Ok <==> parse_packet(old(buffer).buf@, old(buffer).pos as int) is Some,
            r is Ok ==> ({
                let pr = parse_packet(old(buffer).buf@, old(buffer).pos as int)->Some_0;
                r->Ok_0@ == pr.0 && final(buffer).pos == pr.1
            }),
    {
        let mut result = DnsPacket::new();
        let mut header = DnsHeader::new();
        header.read(buffer)?;
        result.header = header;

        let questions = read_questions(buffer, header.questions)?;
        let answers = read_records(buffer, header.answers)?;
        let authorities = read_records(buffer, header.authoritative_entries)?;
        let resources = read_records(buffer, header.resource_entries)?;
        result.questions = questions;
        result.answers = answers;
        result.authorities = authorities;
        result.resources = resources;
        Ok(result)
    }

    /// Encodes this packet at the cursor, overwriting the header's four
    /// section counts with the actual section lengths first.
    #[verifier::rlimit(100)]
    #[verifier::spinoff_prover]
    pub fn write(&mut self, buffer: &mut BytePacketBuffer) -> (r: Result<(), DnsError>)
        requires
            old(buffer).wf(),
            old(self).header.wf(),
            old(self).questions@.len() <= 0xFFFF,
            old(self).answers@.len() <= 0xFFFF,
            old(self).authorities@.len() <= 0xFFFF,
            old(self).resources@.len() <= 0xFFFF,
        ensures
            final(buffer).wf(),
            final(self).header == recount(old(self)@),
            final(self).questions@ == old(self).questions@,
            final(self).answers@ == old(self).answers@,
            final(self).authorities@ == old(self).authorities@,
            final(self).resources@ == old(self).resources@,
            r is Ok <==> packet_writable(old(self)@, old(buffer).pos as int),
            r is Ok ==> final(buffer).buf@ == splice(
                old(buffer).buf@,
                old(buffer).pos as int,
                packet_bytes(old(self)@),
            ) && final(buffer).pos == old(buffer).pos + packet_bytes(old(self)@).len(),
            r is Err ==> final(buffer).pos >= old(buffer).pos && forall|k: int|
                0 <= k < 512 && !(old(buffer).pos <= k < final(buffer).pos) ==> final(buffer).buf@[k]
                    == old(buffer).buf@[k],
    {
        let ghost buf0 = buffer.buf@;
        let ghost pos0 = buffer.pos as int;
        let ghost model = old(self)@;
        self.header.questions = self.questions.len() as u16;
        self.header.answers = self.answers.len() as u16;
        self.header.authoritative_entries = self.authorities.len() as u16;
        self.header.resource_entries = self.resources.len() as u16;
        proof {
            assert(self.header == recount(model));
        }

        match self.header.write(buffer) {
            Ok(_) => {},
            Err(e) => {
                return Err(e);
            },
        }
        let ghost done1 = header_bytes(recount(model));
        match write_questions(buffer, &self.questions) {
            Ok(_) => {},
            Err(e) => {
                proof {
                    crate::byte_packet::lemma_splice_frame(buf0, pos0, done1);
                }
                return Err(e);
            },
        }
        proof {
            crate::byte_packet::lemma_splice_splice(
                buf0,
                pos0,
                done1,
                cat_questions(model.questions),
            );
        }
        let ghost done2 = done1 + cat_questions(model.questions);
        match write_records(buffer, &self.answers) {
            Ok(_) => {},
            Err(e) => {
                proof {
                    crate::byte_packet::lemma_splice_frame(buf0, pos0, done2);
                }
                return Err(e);
            },
        }
        proof {
            crate::byte_packet::lemma_splice_splice(buf0, pos0, done2, cat_records(model.answers));
        }
        let ghost done3 = done2 + cat_records(model.answers);
        match write_records(buffer, &self.authorities) {
            Ok(_) => {},
            Err(e) => {
                proof {
                    crate::byte_packet::lemma_splice_frame(buf0, pos0, done3);
                }
                return Err(e);
            },
        }
        proof {
            crate::byte_packet::lemma_splice_splice(
                buf0,
                pos0,
                done3,
                cat_records(model.authorities),
            );
        }
        let ghost done4 = done3 + cat_records(model.authorities);
        match write_records(buffer, &self.resources) {
            Ok(_) => {},
            Err(e) => {
                proof {
                    crate::byte_packet::lemma_splice_frame(buf0, pos0, done4);
                }
                return Err(e);
            },
        }
        proof {
            crate::byte_packet::lemma_splice_splice(
                buf0,
                pos0,
                done4,
                cat_records(model.resources),
            );
            assert(done4 + cat_records(model.resources) =~= packet_bytes(model));
        }
        Ok(())
    }
}

/// One byte sequence ends with another.
pub open spec fn ends_with(qname: Seq<u8>, domain: Seq<u8>) -> bool {
    domain.len() <= qname.len() && qname.skip(qname.len() - domain.len()) == domain
}

/// The address of the first A record in a run of records.
pub open spec fn first_a_in(s: Seq<RecordModel>) -> Option<Ipv4Addr>
    decreases s.len(),
{
    if s.len() == 0 {
        None
    } else {
        match s[0] {
            RecordModel::A { addr, .. } => Some(addr),
            _ => first_a_in(s.skip(1)),
        }
    }
}

/// The address of the first A record owned by `host` in a run of
/// records.
pub open spec fn host_a_in(s: Seq<RecordModel>, host: Seq<u8>) -> Option<Ipv4Addr>
    decreases s.len(),
{
    if s.len() == 0 {
        None
    } else {
        match s[0] {
            RecordModel::A { domain, addr, .. } => if domain == host {
                Some(addr)
            } else {
                host_a_in(s.skip(1), host)
            },
            _ => host_a_in(s.skip(1), host),
        }
    }
}

/// Among the authority NS records whose delegated domain is a suffix of
/// `qname`, the address of the first one whose name server host has a
/// matching A record in the additional section.
pub open spec fn resolved_ns_in(
    auth: Seq<RecordModel>,
    res: Seq<RecordModel>,
    qname: Seq<u8>,
) -> Option<Ipv4Addr>
    decreases auth.len(),
{
    if auth.len() == 0 {
        None
    } else {
        match auth[0] {
            RecordModel::Ns { domain, host, .. } => if ends_with(qname, domain) && host_a_in(
                res,
                host,
            ) is Some {
                host_a_in(res, host)
            } else {
                resolved_ns_in(auth.skip(1), res, qname)
            },
            _ => resolved_ns_in(auth.skip(1), res, qname),
        }
    }
}

/// The name server host of the first authority NS record whose
/// delegated domain is a suffix of `qname` and whose host has no
/// matching A record in the additional section: a delegation that must
/// be resolved before it can be followed.
pub open spec fn unresolved_ns_in(
    auth: Seq<RecordModel>,
    res: Seq<RecordModel>,
    qname: Seq<u8>,
) -> Option<Seq<u8>>
    decreases auth.len(),
{
    if auth.len() == 0 {
        None
    } else {
        match auth[0] {
            RecordModel::Ns { domain, host, .. } => if ends_with(qname, domain) && host_a_in(
                res,
                host,
            ) is None {
                Some(host)
            } else {
                unresolved_ns_in(auth.skip(1), res, qname)
            },
            _ => unresolved_ns_in(auth.skip(1), res, qname),
        }
    }
}

/// Two byte vectors hold the same bytes.
pub fn bytes_eq(a: &Vec<u8>, b: &Vec<u8>) -> (r: bool)
    ensures
        r == (a@ == b@),
{
    if a.len() != b.len() {
        proof {
            assert(a@ != b@);
        }
        return false;
    }
    let n = a.len();
    let mut i: usize = 0;
    while i < n
        invariant
            n == a@.len() && n == b@.len(),
            i <= n,
            forall|k: int| 0 <= k < i ==> a@[k] == b@[k],
        decreases n - i,
    {
        if a[i] != b[i] {
            proof {
                assert(a@ != b@);
            }
            return false;
        }
        i = i + 1;
    }
    proof {
        assert(a@ =~= b@);
    }
    true
}

/// A copy of a byte vector.
pub fn clone_bytes(v: &Vec<u8>) -> (r: Vec<u8>)
    ensures
        r@ == v@,
{
    let n = v.len();
    let mut out: Vec<u8> = Vec::new();
    let mut i: usize = 0;
    proof {
        assert(v@.take(0) =~= Seq::<u8>::empty());
    }
    while i < n
        invariant
            n == v@.len(),
            i <= n,
            out@ == v@.take(i as int),
        decreases n - i,
    {
        out.push(v[i]);
        proof {
            assert(out@ =~= v@.take(i + 1));
        }
        i = i + 1;
    }
    proof {
        assert(v@.take(n as int) =~= v@);
    }
    out
}

/// `qname` ends with `domain`, byte for byte.
pub fn name_ends_with(qname: &Vec<u8>, domain: &Vec<u8>) -> (r: bool)
    ensures
        r == ends_with(qname@, domain@),
{
    if domain.len() > qname.len() {
        return false;
    }
    let off = qname.len() - domain.len();
    let n = domain.len();
    let mut i: usize = 0;
    while i < n
        invariant
            n == domain@.len(),
            off == qname@.len() - n,
            off + n <= usize::MAX,
            i <= n,
            forall|k: int| 0 <= k < i ==> qname@[off + k] == domain@[k],
        decreases n - i,
    {
        if qname[off + i] != domain[i] {
            proof {
                assert(qname@.skip(off as int)[i as int] != domain@[i as int]);
            }
            return false;
        }
        i = i + 1;
    }
    proof {
        assert(qname@.skip(off as int) =~= domain@);
    }
    true
}

/// The address of the first A record owned by `host` in `records`.
fn find_host_a(records: &Vec<DnsRecord>, host: &Vec<u8>) -> (r: Option<Ipv4Addr>)
    ensures
        r == host_a_in(record_views(records@), host@),
{
    let ghost views = record_views(records@);
    let n = records.len();
    let mut k: usize = 0;
    proof {
        assert(views.skip(0) =~= views);
    }
    while k < n
        invariant
            n == records@.len(),
            k <= n,
            views == record_views(records@),
            host_a_in(views, host@) == host_a_in(views.skip(k as int), host@),
        decreases n - k,
    {
        proof {
            assert(views.skip(k as int)[0] == views[k as int]);
            assert(views.skip(k as int).skip(1) =~= views.skip(k as int + 1));
        }
        match &records[k] {
            DnsRecord::A { domain, addr, .. } => {
                if bytes_eq(domain, host) {
                    return Some(*addr);
                }
            },
            _ => {},
        }
        k = k + 1;
    }
    None
}

impl DnsPacket {
    /// The address of the first A record in the answer section, if any.
    pub fn get_random_a(&self) -> (r: Option<Ipv4Addr>)
        ensures
            r == first_a_in(self@.answers),
    {
        let ghost views = record_views(self.answers@);
        let n = self.answers.len();
        let mut k: usize = 0;
        proof {
            assert(views.skip(0) =~= views);
        }
        while k < n
            invariant
                n == self.answers@.len(),
                views == record_views(self.answers@),
                k <= n,
                first_a_in(views) == first_a_in(views.skip(k as int)),
            decreases n - k,
        {
            proof {
                assert(views.skip(k as int)[0] == views[k as int]);
                assert(views.skip(k as int).skip(1) =~= views.skip(k as int + 1));
            }
            match &self.answers[k] {
                DnsRecord::A { addr, .. } => {
                    return Some(*addr);
                },
                _ => {},
            }
            k = k + 1;
        }
        None
    }

    /// Among the delegations of the authority section that cover
    /// `qname`, the address of the first name server that has a matching
    /// A record in the additional section.
    pub fn get_resolved_ns(&self, qname: &Vec<u8>) -> (r: Option<Ipv4Addr>)
        ensures
            r == resolved_ns_in(self@.authorities, self@.resources, qname@),
    {
        let ghost auth = record_views(self.authorities@);
        let ghost res = record_views(self.resources@);
        let n = self.authorities.len();
        let mut k: usize = 0;
        proof {
            assert(auth.skip(0) =~= auth);
        }
        while k < n
            invariant
                n == self.authorities@.len(),
                auth == record_views(self.authorities@),
                res == record_views(self.resources@),
                k <= n,
                resolved_ns_in(auth, res, qname@) == resolved_ns_in(
                    auth.skip(k as int),
                    res,
                    qname@,
                ),
            decreases n - k,
        {
            proof {
                assert(auth.skip(k as int)[0] == auth[k as int]);
                assert(auth.skip(k as int).skip(1) =~= auth.skip(k as int + 1));
            }
            match &self.authorities[k] {
                DnsRecord::NS { host, domain, .. } => {
                    if name_ends_with(qname, domain) {
                        match find_host_a(&self.resources, host) {
                            Some(addr) => {
                                return Some(addr);
                            },
                            None => {},
                        }
                    }
                },
                _ => {},
            }
            k = k + 1;
        }
        None
    }

    /// The name server host of the first delegation in the authority
    /// section that covers `qname` but has no A record of its own in the
    /// additional section.
    pub fn get_unresolved_ns(&self, qname: &Vec<u8>) -> (r: Option<Vec<u8>>)
        ensures
            r is Some <==> unresolved_ns_in(self@.authorities, self@.resources, qname@) is Some,
            r is Some ==> r->Some_0@ == unresolved_ns_in(
                self@.authorities,
                self@.resources,
                qname@,
            )->Some_0,
    {
        let ghost auth = record_views(self.authorities@);
        let ghost res = record_views(self.resources@);
        let n = self.authorities.len();
        let mut k: usize = 0;
        proof {
            assert(auth.skip(0) =~= auth);
        }
        while k < n
            invariant
                n == self.authorities@.len(),
                auth == record_views(self.authorities@),
                res == record_views(self.resources@),
                k <= n,
                unresolved_ns_in(auth, res, qname@) == unresolved_ns_in(
                    auth.skip(k as int),
                    res,
                    qname@,
                ),
            decreases n - k,
        {
            proof {
                assert(auth.skip(k as int)[0] == auth[k as int]);
                assert(auth.skip(k as int).skip(1) =~= auth.skip(k as int + 1));
            }
            match &self.authorities[k] {
                DnsRecord::NS { host, domain, .. } => {
                    if name_ends_with(qname, domain) {
                        match find_host_a(&self.resources, host) {
                            Some(_) => {},
                            None => {
                                return Some(clone_bytes(host));
                            },
                        }
                    }
                },
                _ => {},
            }
            k = k + 1;
        }
        None
    }
}

/// A sequence of question models with every name lowercased, as
/// decoding returns them.
pub open spec fn lower_questions(s: Seq<(Seq<u8>, QueryType)>) -> Seq<(Seq<u8>, QueryType)> {
    s.map_values(|q: (Seq<u8>, QueryType)| (crate::byte_packet::lower_bytes(q.0), q.1))
}

/// A sequence of record models with every name lowercased, as decoding
/// returns them.
pub open spec fn lower_records(s: Seq<RecordModel>) -> Seq<RecordModel> {
    s.map_values(|r: RecordModel| crate::dns_record::lower_record(r))
}

/// Every question in the run decodes back to itself: its name is well
/// formed and its type code is a known one.
pub open spec fn questions_decodable(s: Seq<(Seq<u8>, QueryType)>) -> bool {
    forall|i: int|
        0 <= i < s.len() ==> crate::byte_packet::name_ok((#[trigger] s[i]).0) && !(s[i].1
            is UNKNOWN)
}

/// Every record in the run decodes back to itself: its names are well
/// formed and its type is known.
pub open spec fn records_decodable(s: Seq<RecordModel>) -> bool {
    forall|i: int| 0 <= i < s.len() ==> crate::dns_record::record_names_ok(#[trigger] s[i])
}

/// Round trip of a run of questions: decoding as many questions as were
/// encoded yields them in order with lowercased names, consuming
/// exactly their bytes.
pub proof fn lemma_questions_round_trip(buf: Seq<u8>, pos: int, s: Seq<(Seq<u8>, QueryType)>)
    requires
        buf.len() == 512,
        questions_decodable(s),
        0 <= pos,
        pos + cat_questions(s).len() <= 512,
        buf.subrange(pos, pos + cat_questions(s).len()) == cat_questions(s),
    ensures
        parse_questions(buf, pos, s.len() as int) == Some(
            (lower_questions(s), pos + cat_questions(s).len() as int),
        ),
    decreases s.len(),
{
    if s.len() == 0 {
        assert(lower_questions(s) =~= Seq::<(Seq<u8>, QueryType)>::empty());
    } else {
        let qb = question_bytes(s[0].0, s[0].1);
        let rest = cat_questions(s.skip(1));
        assert(cat_questions(s) == qb + rest);
        assert(buf.subrange(pos, pos + qb.len()) =~= cat_questions(s).subrange(0, qb.len() as int));
        assert(cat_questions(s).subrange(0, qb.len() as int) =~= qb);
        crate::dns_question::lemma_question_round_trip(buf, pos, s[0].0, s[0].1);
        assert(buf.subrange(pos + qb.len(), pos + qb.len() + rest.len()) =~= cat_questions(
            s,
        ).subrange(qb.len() as int, qb.len() as int + rest.len()));
        assert(cat_questions(s).subrange(qb.len() as int, qb.len() as int + rest.len()) =~= rest);
        lemma_questions_round_trip(buf, pos + qb.len() as int, s.skip(1));
        assert(seq![(crate::byte_packet::lower_bytes(s[0].0), s[0].1)] + lower_questions(s.skip(1))
            =~= lower_questions(s));
    }
}

/// Round trip of a run of records: decoding as many records as were
/// encoded yields them in order with lowercased names, consuming
/// exactly their bytes.
pub proof fn lemma_records_round_trip(buf: Seq<u8>, pos: int, s: Seq<RecordModel>)
    requires
        buf.len() == 512,
        records_decodable(s),
        0 <= pos,
        pos + cat_records(s).len() <= 512,
        buf.subrange(pos, pos + cat_records(s).len()) == cat_records(s),
    ensures
        parse_records(buf, pos, s.len() as int) == Some(
            (lower_records(s), pos + cat_records(s).len() as int),
        ),
    decreases s.len(),
{
    if s.len() == 0 {
        assert(lower_records(s) =~= Seq::<RecordModel>::empty());
    } else {
        let rb = record_bytes(s[0]);
        let rest = cat_records(s.skip(1));
        assert(cat_records(s) == rb + rest);
        assert(buf.subrange(pos, pos + rb.len()) =~= cat_records(s).subrange(0, rb.len() as int));
        assert(cat_records(s).subrange(0, rb.len() as int) =~= rb);
        crate::dns_record::lemma_record_round_trip(buf, pos, s[0]);
        assert(buf.subrange(pos + rb.len(), pos + rb.len() + rest.len()) =~= cat_records(
            s,
        ).subrange(rb.len() as int, rb.len() as int + rest.len()));
        assert(cat_records(s).subrange(rb.len() as int, rb.len() as int + rest.len()) =~= rest);
        lemma_records_round_trip(buf, pos + rb.len() as int, s.skip(1));
        assert(seq![crate::dns_record::lower_record(s[0])] + lower_records(s.skip(1))
            =~= lower_records(s));
    }
}

/// Round trip of the packet codec: decoding the serialized form of a
/// packet whose names are well formed and whose record types are known
/// yields the same packet, with the header counts recomputed from the
/// sections and every name lowercased.
#[verifier::rlimit(100)]
#[verifier::spinoff_prover]
pub proof fn lemma_packet_round_trip(buf: Seq<u8>, pos: int, p: PacketModel)
    requires
        buf.len() == 512,
        p.header.wf(),
        p.questions.len() <= 0xFFFF,
        p.answers.len() <= 0xFFFF,
        p.authorities.len() <= 0xFFFF,
        p.resources.len() <= 0xFFFF,
        questions_decodable(p.questions),
        records_decodable(p.answers),
        records_decodable(p.authorities),
        records_decodable(p.resources),
        0 <= pos,
        pos + packet_bytes(p).len() <= 512,
        buf.subrange(pos, pos + packet_bytes(p).len()) == packet_bytes(p),
    ensures
        parse_packet(buf, pos) == Some(
            (
                PacketModel {
                    header: recount(p),
                    questions: lower_questions(p.questions),
                    answers: lower_records(p.answers),
                    authorities: lower_records(p.authorities),
                    resources: lower_records(p.resources),
                },
                pos + packet_bytes(p).len() as int,
            ),
        ),
{
    let pb = packet_bytes(p);
    let hb = header_bytes(recount(p));
    let cq = cat_questions(p.questions);
    let ca = cat_records(p.answers);
    let cu = cat_records(p.authorities);
    let cr = cat_records(p.resources);
    assert(hb.len() == 12);
    assert(buf.subrange(pos, pos + 12) =~= pb.subrange(0, 12));
    assert(pb.subrange(0, 12) =~= hb);
    crate::dns_header::lemma_header_round_trip(recount(p));
    let p1 = pos + 12;
    assert(buf.subrange(p1, p1 + cq.len()) =~= pb.subrange(12, 12 + cq.len() as int));
    assert(pb.subrange(12, 12 + cq.len() as int) =~= cq);
    lemma_questions_round_trip(buf, p1, p.questions);
    let p2 = p1 + cq.len() as int;
    assert(buf.subrange(p2, p2 + ca.len()) =~= pb.subrange(12 + cq.len() as int, 12 + cq.len()
        + ca.len() as int));
    assert(pb.subrange(12 + cq.len() as int, 12 + cq.len() + ca.len() as int) =~= ca);
    lemma_records_round_trip(buf, p2, p.answers);
    let p3 = p2 + ca.len() as int;
    assert(buf.subrange(p3, p3 + cu.len()) =~= pb.subrange(12 + cq.len() + ca.len() as int, 12 + cq.len()
        + ca.len() + cu.len() as int));
    assert(pb.subrange(12 + cq.len() + ca.len() as int, 12 + cq.len() + ca.len() + cu.len() as int) =~= cu);
    lemma_records_round_trip(buf, p3, p.authorities);
    let p4 = p3 + cu.len() as int;
    assert(buf.subrange(p4, p4 + cr.len()) =~= pb.subrange(
        12 + cq.len() + ca.len() + cu.len() as int,
        12 + cq.len() + ca.len() + cu.len() + cr.len() as int,
    ));
    assert(pb.subrange(12 + cq.len() + ca.len() + cu.len() as int, 12 + cq.len() + ca.len() + cu.len()
        + cr.len() as int) =~= cr);
    lemma_records_round_trip(buf, p4, p.resources);
    assert(lower_questions(p.questions).len() == p.questions.len());
    assert(lower_records(p.answers).len() == p.answers.len());
    assert(lower_records(p.authorities).len() == p.authorities.len());
    assert(lower_records(p.resources).len() == p.resources.len());
}

/// Count integrity: the serialized form of any packet begins with a
/// header whose four counts decode to exactly the lengths of the four
/// sections the packet was assembled from.
#[verifier::rlimit(100)]
#[verifier::spinoff_prover]
pub proof fn lemma_count_integrity(p: PacketModel)
    requires
        p.header.wf(),
        p.questions.len() <= 0xFFFF,
        p.answers.len() <= 0xFFFF,
        p.authorities.len() <= 0xFFFF,
        p.resources.len() <= 0xFFFF,
    ensures
        ({
            let h = header_from_bytes(packet_bytes(p).take(12));
            h.questions == p.questions.len() && h.answers == p.answers.len()
                && h.authoritative_entries == p.authorities.len() && h.resource_entries
                == p.resources.len()
        }),
{
    assert(packet_bytes(p).take(12) =~= header_bytes(recount(p)));
    crate::dns_header::lemma_header_round_trip(recount(p));
}

} // verus!
