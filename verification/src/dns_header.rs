use crate::byte_packet::{be16, splice, u16_bytes, BytePacketBuffer};
use crate::err::DnsError;
use crate::res_code::ResultCode;
use vstd::prelude::*;

verus! {

/// One bit as a byte.
pub open spec fn b2i(b: bool) -> u8 {
    if b {
        1
    } else {
        0
    }
}

/// The 12-byte DNS message header: transaction id, flag bits, opcode,
/// result code, and the four section counts.
#[derive(Clone, Copy, Debug, PartialEq, Eq, Structural)]
pub struct DnsHeader {
    pub id: u16,
    pub recursion_desired: bool,
    pub truncated_message: bool,
    pub authoritative_answer: bool,
    pub opcode: u8,
    pub response: bool,
    pub rescode: ResultCode,
    pub checking_disabled: bool,
    pub authed_data: bool,
    pub z: bool,
    pub recursion_available: bool,
    pub questions: u16,
    pub answers: u16,
    pub authoritative_entries: u16,
    pub resource_entries: u16,
}

/// The first flag byte: recursion-desired (bit 0), truncated (bit 1),
/// authoritative-answer (bit 2), opcode (bits 3 to 6), response (bit 7).
pub open spec fn flags_a(h: DnsHeader) -> u8 {
    (b2i(h.recursion_desired) + 2 * b2i(h.truncated_message) + 4 * b2i(h.authoritative_answer) + 8
        * h.opcode + 128 * b2i(h.response)) as u8
}

/// The second flag byte: result code (bits 0 to 3), checking-disabled
/// (bit 4), authenticated-data (bit 5), reserved (bit 6),
/// recursion-available (bit 7).
pub open spec fn flags_b(h: DnsHeader) -> u8 {
    (h.rescode.spec_to_num() + 16 * b2i(h.checking_disabled) + 32 * b2i(h.authed_data) + 64 * b2i(
        h.z,
    ) + 128 * b2i(h.recursion_available)) as u8
}

/// The 12 bytes of a header on the wire.
pub open spec fn header_bytes(h: DnsHeader) -> Seq<u8> {
    u16_bytes(h.id) + seq![flags_a(h), flags_b(h)] + u16_bytes(h.questions) + u16_bytes(h.answers)
        + u16_bytes(h.authoritative_entries) + u16_bytes(h.resource_entries)
}

/// The header denoted by 12 wire bytes.
pub open spec fn header_from_bytes(s: Seq<u8>) -> DnsHeader
    recommends
        s.len() == 12,
{
    let a = s[2];
    let b = s[3];
    DnsHeader {
        id: be16(s[0], s[1]),
        recursion_desired: a % 2 == 1,
        truncated_message: (a / 2) % 2 == 1,
        authoritative_answer: (a / 4) % 2 == 1,
        opcode: ((a / 8) % 16) as u8,
        response: a / 128 == 1,
        rescode: ResultCode::spec_from_num((b % 16) as u8),
        checking_disabled: (b / 16) % 2 == 1,
        authed_data: (b / 32) % 2 == 1,
        z: (b / 64) % 2 == 1,
        recursion_available: b / 128 == 1,
        questions: be16(s[4], s[5]),
        answers: be16(s[6], s[7]),
        authoritative_entries: be16(s[8], s[9]),
        resource_entries: be16(s[10], s[11]),
    }
}

impl DnsHeader {
    /// The opcode occupies four bits of the first flag byte.
    pub open spec fn wf(&self) -> bool {
        self.opcode < 16
    }

    /// The header `new` returns: every field zeroed or cleared.
    pub open spec fn spec_new() -> DnsHeader {
        DnsHeader {
            id: 0,
            recursion_desired: false,
            truncated_message: false,
            authoritative_answer: false,
            opcode: 0,
            response: false,
            rescode: crate::res_code::ResultCode::NOERROR,
            checking_disabled: false,
            authed_data: false,
            z: false,
            recursion_available: false,
            questions: 0,
            answers: 0,
            authoritative_entries: 0,
            resource_entries: 0,
        }
    }

    /// A header with every field zeroed or cleared.
    pub fn new() -> (r: Self)
        ensures
            r == DnsHeader::spec_new(),
            r.wf(),
    {
        DnsHeader {
            id: 0,
            recursion_desired: false,
            truncated_message: false,
            authoritative_answer: false,
            opcode: 0,
            response: false,
            rescode: ResultCode::NOERROR,
            checking_disabled: false,
            authed_data: false,
            z: false,
            recursion_available: false,
            questions: 0,
            answers: 0,
            authoritative_entries: 0,
            resource_entries: 0,
        }
    }

    /// Unpacks the 12 header bytes at the cursor into this header.
    pub fn read(&mut self, buffer: &mut BytePacketBuffer) -> (r: Result<(), DnsError>)
        requires
            old(self).wf(),
            old(buffer).wf(),
        ensures
            final(self).wf(),
            final(buffer).wf(),
            final(buffer).buf@ == old(buffer).buf@,
            r is Ok <==> old(buffer).pos + 12 <= 512,
            r is Ok ==> *final(self) == header_from_bytes(
                old(buffer).buf@.subrange(old(buffer).pos as int, old(buffer).pos + 12),
            ) && final(buffer).pos == old(buffer).pos + 12,
            r is Err ==> r->Err_0 == DnsError::EndOfBuffer,
    {
        let ghost window = buffer.buf@.subrange(old(buffer).pos as int, old(buffer).pos + 12);
        self.id = buffer.read_two_bytes()?;

        let flags = buffer.read_two_bytes()?;
        let a = (flags / 256) as u8;
        let b = (flags % 256) as u8;
        proof {
            let b0 = window[2];
            let b1 = window[3];
            assert(((b0 as u16) * 256 + (b1 as u16)) as u16 / 256 == b0 as u16) by (bit_vector);
            assert(((b0 as u16) * 256 + (b1 as u16)) as u16 % 256 == b1 as u16) by (bit_vector);
        }

        self.recursion_desired = a % 2 == 1;
        self.truncated_message = (a / 2) % 2 == 1;
        self.authoritative_answer = (a / 4) % 2 == 1;
        self.opcode = (a / 8) % 16;
        self.response = a / 128 == 1;

        self.rescode = ResultCode::from_num(b % 16);
        self.checking_disabled = (b / 16) % 2 == 1;
        self.authed_data = (b / 32) % 2 == 1;
        self.z = (b / 64) % 2 == 1;
        self.recursion_available = b / 128 == 1;

        self.questions = buffer.read_two_bytes()?;
        self.answers = buffer.read_two_bytes()?;
        self.authoritative_entries = buffer.read_two_bytes()?;
        self.resource_entries = buffer.read_two_bytes()?;
        Ok(())
    }

    /// Packs this header into 12 bytes at the cursor.
    pub fn write(&self, buffer: &mut BytePacketBuffer) -> (r: Result<(), DnsError>)
        requires
            self.wf(),
            old(buffer).wf(),
        ensures
            final(buffer).wf(),
            r is Ok <==> old(buffer).pos + 12 <= 512,
            r is Ok ==> final(buffer).buf@ == splice(
                old(buffer).buf@,
                old(buffer).pos as int,
                header_bytes(*self),
            ) && final(buffer).pos == old(buffer).pos + 12,
            r is Err ==> r->Err_0 == DnsError::EndOfBuffer && final(buffer).pos >= old(buffer).pos
                && forall|k: int|
                0 <= k < 512 && !(old(buffer).pos <= k < final(buffer).pos) ==> final(buffer).buf@[k]
                    == old(buffer).buf@[k],
    {
        let a = self.flags_a_byte();
        let b = self.flags_b_byte();
        let mut out: Vec<u8> = Vec::new();
        out.push((self.id / 256) as u8);
        out.push((self.id % 256) as u8);
        out.push(a);
        out.push(b);
        out.push((self.questions / 256) as u8);
        out.push((self.questions % 256) as u8);
        out.push((self.answers / 256) as u8);
        out.push((self.answers % 256) as u8);
        out.push((self.authoritative_entries / 256) as u8);
        out.push((self.authoritative_entries % 256) as u8);
        out.push((self.resource_entries / 256) as u8);
        out.push((self.resource_entries % 256) as u8);
        proof {
            assert(out@ =~= header_bytes(*self));
        }
        buffer.write_all(&out)
    }

    /// The first flag byte of this header as packed on the wire.
    fn flags_a_byte(&self) -> (r: u8)
        requires
            self.wf(),
        ensures
            r == flags_a(*self),
    {
        (if self.recursion_desired {
            1u8
        } else {
            0u8
        }) + 2 * (if self.truncated_message {
            1u8
        } else {
            0u8
        }) + 4 * (if self.authoritative_answer {
            1u8
        } else {
            0u8
        }) + 8 * self.opcode + 128 * (if self.response {
            1u8
        } else {
            0u8
        })
    }

    /// The second flag byte of this header as packed on the wire.
    fn flags_b_byte(&self) -> (r: u8)
        ensures
            r == flags_b(*self),
    {
        self.rescode.to_num() + 16 * (if self.checking_disabled {
            1u8
        } else {
            0u8
        }) + 32 * (if self.authed_data {
            1u8
        } else {
            0u8
        }) + 64 * (if self.z {
            1u8
        } else {
            0u8
        }) + 128 * (if self.recursion_available {
            1u8
        } else {
            0u8
        })
    }
}

/// Round trip of the header codec: unpacking the 12 bytes a header packs
/// to yields that header field for field.
pub proof fn lemma_header_round_trip(h: DnsHeader)
    requires
        h.wf(),
    ensures
        header_from_bytes(header_bytes(h)) == h,
{
    let s = header_bytes(h);
    let x0 = b2i(h.recursion_desired);
    let x1 = b2i(h.truncated_message);
    let x2 = b2i(h.authoritative_answer);
    let op = h.opcode;
    let x3 = b2i(h.response);
    let a = flags_a(h);
    assert(x0 <= 1 && x1 <= 1 && x2 <= 1 && x3 <= 1 && op < 16 && a == (x0 + 2 * x1 + 4 * x2 + 8
        * op + 128 * x3) as u8 ==> a % 2 == x0 && (a / 2) % 2 == x1 && (a / 4) % 2 == x2 && (a / 8)
        % 16 == op && a / 128 == x3) by (bit_vector);
    let y0 = h.rescode.spec_to_num();
    let y1 = b2i(h.checking_disabled);
    let y2 = b2i(h.authed_data);
    let y3 = b2i(h.z);
    let y4 = b2i(h.recursion_available);
    let b = flags_b(h);
    assert(y0 < 16 && y1 <= 1 && y2 <= 1 && y3 <= 1 && y4 <= 1 && b == (y0 + 16 * y1 + 32 * y2 + 64
        * y3 + 128 * y4) as u8 ==> b % 16 == y0 && (b / 16) % 2 == y1 && (b / 32) % 2 == y2 && (b
        / 64) % 2 == y3 && b / 128 == y4) by (bit_vector);
    crate::byte_packet::lemma_be16_round_trip(h.id);
    crate::byte_packet::lemma_be16_round_trip(h.questions);
    crate::byte_packet::lemma_be16_round_trip(h.answers);
    crate::byte_packet::lemma_be16_round_trip(h.authoritative_entries);
    crate::byte_packet::lemma_be16_round_trip(h.resource_entries);
    crate::res_code::lemma_result_code_round_trip(h.rescode);
}

} // verus!
