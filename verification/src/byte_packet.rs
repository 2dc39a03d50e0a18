use crate::err::DnsError;
use vstd::prelude::*;

verus! {

/// Capacity of a DNS datagram buffer, in bytes.
pub const BUF_LEN: usize = 512;

/// `s` with `bytes` overwritten in place starting at `pos`.
pub open spec fn splice(s: Seq<u8>, pos: int, bytes: Seq<u8>) -> Seq<u8> {
    s.take(pos) + bytes + s.skip(pos + bytes.len())
}

/// The big-endian 16-bit value formed by two bytes.
pub open spec fn be16(b0: u8, b1: u8) -> u16 {
    ((b0 as u16) * 256 + (b1 as u16)) as u16
}

/// The big-endian 32-bit value formed by four bytes.
pub open spec fn be32(b0: u8, b1: u8, b2: u8, b3: u8) -> u32 {
    ((b0 as u32) * 0x1000000 + (b1 as u32) * 0x10000 + (b2 as u32) * 256 + (b3 as u32)) as u32
}

/// The two big-endian bytes of a 16-bit value.
pub open spec fn u16_bytes(val: u16) -> Seq<u8> {
    seq![(val / 256) as u8, (val % 256) as u8]
}

/// The four big-endian bytes of a 32-bit value.
pub open spec fn u32_bytes(val: u32) -> Seq<u8> {
    seq![
        (val / 0x1000000) as u8,
        ((val / 0x10000) % 256) as u8,
        ((val / 256) % 256) as u8,
        (val % 256) as u8,
    ]
}

/// Reassembling the two big-endian bytes of a 16-bit value gives it back.
pub proof fn lemma_be16_round_trip(val: u16)
    ensures
        be16(u16_bytes(val)[0], u16_bytes(val)[1]) == val,
{
    assert((val / 256) * 256 + (val % 256) == val) by (nonlinear_arith);
}

/// Reassembling the four big-endian bytes of a 32-bit value gives it back.
pub proof fn lemma_be32_round_trip(val: u32)
    ensures
        be32(u32_bytes(val)[0], u32_bytes(val)[1], u32_bytes(val)[2], u32_bytes(val)[3]) == val,
{
    assert((val / 0x1000000) * 0x1000000 + ((val / 0x10000) % 256) * 0x10000 + ((val / 256) % 256)
        * 256 + (val % 256) == val) by (bit_vector);
}

/// ASCII uppercase letters mapped to lowercase; all other bytes unchanged.
pub open spec fn lower_byte(b: u8) -> u8 {
    if 65 <= b && b <= 90 {
        (b + 32) as u8
    } else {
        b
    }
}

/// A byte sequence with every ASCII uppercase letter lowercased.
pub open spec fn lower_bytes(s: Seq<u8>) -> Seq<u8> {
    s.map_values(|b: u8| lower_byte(b))
}

/// The first index at or after `i` holding a dot, or the length of `name`
/// if there is none: the end of the label starting at `i`.
pub open spec fn label_end(name: Seq<u8>, i: int) -> int
    decreases name.len() - i,
{
    if i < 0 || i >= name.len() {
        name.len() as int
    } else if name[i] == 46 {
        i
    } else {
        label_end(name, i + 1)
    }
}

/// The uncompressed wire encoding of a dot-joined name: each label as a
/// length byte followed by its bytes, terminated by a zero length byte.
pub open spec fn encode_name(name: Seq<u8>) -> Seq<u8>
    decreases name.len(),
{
    let j = label_end(name, 0);
    if 0 <= j && j < name.len() {
        seq![j as u8] + name.take(j) + encode_name(name.skip(j + 1))
    } else {
        seq![j as u8] + name.take(j) + seq![0u8]
    }
}

/// Every label of the dot-joined name is at most 63 bytes: the condition
/// under which the name can be written to the wire.
pub open spec fn labels_ok(name: Seq<u8>) -> bool
    decreases name.len(),
{
    let j = label_end(name, 0);
    if 0 <= j && j < name.len() {
        j <= 63 && labels_ok(name.skip(j + 1))
    } else {
        j <= 63
    }
}

/// Every label of the dot-joined name has between 1 and 63 bytes: the
/// condition under which the encoding decodes back to the same name.
pub open spec fn name_ok(name: Seq<u8>) -> bool
    decreases name.len(),
{
    let j = label_end(name, 0);
    if 0 <= j && j < name.len() {
        1 <= j <= 63 && name_ok(name.skip(j + 1))
    } else {
        1 <= j <= 63
    }
}

/// The result of decoding a compression-aware name at `pos`: the
/// lowercased dot-joined labels and the cursor position after the name.
///
/// A length byte with both top bits set is a pointer: scanning resumes at
/// the 14-bit offset it encodes, and the cursor lands two bytes past the
/// first pointer met. At most 5 chained jumps are followed; a zero length
/// byte ends the name. `jumps` counts the pointers already chased.
pub open spec fn parse_name(buf: Seq<u8>, pos: int, jumps: int) -> Option<(Seq<u8>, int)>
    recommends
        buf.len() == 512,
    decreases 6 - jumps, (if pos < 512 { 512 - pos } else { 0 }),
{
    if jumps > 5 {
        None
    } else if pos < 0 || pos >= 512 {
        None
    } else {
        let len = buf[pos];
        if len >= 192 {
            if pos + 1 >= 512 {
                None
            } else {
                let target = (len - 192) * 256 + buf[pos + 1];
                match parse_name(buf, target, jumps + 1) {
                    Option::None => None,
                    Option::Some((nm, _)) => Some((nm, pos + 2)),
                }
            }
        } else if len == 0 {
            Some((Seq::empty(), pos + 1))
        } else {
            if pos + 1 + len >= 512 {
                None
            } else {
                let lab = lower_bytes(buf.subrange(pos + 1, pos + 1 + len));
                match parse_name(buf, pos + 1 + len, jumps) {
                    Option::None => None,
                    Option::Some((rest, end)) => Some(
                        (
                            lab + if rest.len() == 0 {
                                Seq::empty()
                            } else {
                                seq![46u8] + rest
                            },
                            end,
                        ),
                    ),
                }
            }
        }
    }
}

/// The error reported when decoding a name at `pos` fails: the
/// loop-protection error once more than five pointers have been chased,
/// and the out-of-bounds error for every other failure.
pub open spec fn parse_name_err(buf: Seq<u8>, pos: int, jumps: int) -> DnsError
    recommends
        buf.len() == 512,
    decreases 6 - jumps, (if pos < 512 { 512 - pos } else { 0 }),
{
    if jumps > 5 {
        DnsError::TooManyJumps
    } else if pos < 0 || pos >= 512 {
        DnsError::EndOfBuffer
    } else {
        let len = buf[pos];
        if len >= 192 {
            if pos + 1 >= 512 {
                DnsError::EndOfBuffer
            } else {
                parse_name_err(buf, (len - 192) * 256 + buf[pos + 1], jumps + 1)
            }
        } else if len == 0 {
            DnsError::EndOfBuffer
        } else if pos + 1 + len >= 512 {
            DnsError::EndOfBuffer
        } else {
            parse_name_err(buf, pos + 1 + len, jumps)
        }
    }
}

/// The error reported when encoding a name at `pos` fails: an oversized
/// label (each label is checked before anything of it is written), else
/// the out-of-bounds error once the encoding reaches byte 512.
pub open spec fn qname_write_err(name: Seq<u8>, pos: int) -> DnsError
    decreases name.len(),
{
    let j = label_end(name, 0);
    if j > 63 {
        DnsError::LabelTooLong
    } else if pos + 1 + j > 512 {
        DnsError::EndOfBuffer
    } else if 0 <= j && j < name.len() {
        qname_write_err(name.skip(j + 1), pos + 1 + j)
    } else {
        DnsError::EndOfBuffer
    }
}

/// `label_end(name, i)` lies between `i` and the length of `name`, holds
/// a dot if it is not the end, and no dot lies strictly before it.
pub proof fn lemma_label_end(name: Seq<u8>, i: int)
    requires
        0 <= i <= name.len(),
    ensures
        i <= label_end(name, i) <= name.len(),
        label_end(name, i) < name.len() ==> name[label_end(name, i)] == 46,
        forall|k: int| i <= k < label_end(name, i) ==> name[k] != 46,
    decreases name.len() - i,
{
    if i < name.len() && name[i] != 46 {
        lemma_label_end(name, i + 1);
    }
}

/// A dot-free stretch from `i` up to a dot (or the end) at `k` pins
/// `label_end(name, i)` to `k`.
pub proof fn lemma_label_end_at(name: Seq<u8>, i: int, k: int)
    requires
        0 <= i <= k <= name.len(),
        forall|m: int| i <= m < k ==> name[m] != 46,
        k < name.len() ==> name[k] == 46,
    ensures
        label_end(name, i) == k,
    decreases k - i,
{
    if i < k {
        lemma_label_end_at(name, i + 1, k);
    }
}

/// An encoded name holds at least a length byte and a terminator.
pub proof fn lemma_encode_name_len_pos(name: Seq<u8>)
    ensures
        encode_name(name).len() >= 2,
    decreases name.len(),
{
    lemma_label_end(name, 0);
    let j = label_end(name, 0);
    if 0 <= j && j < name.len() {
        lemma_encode_name_len_pos(name.skip(j + 1));
    }
}

/// Unfolds one step of `encode_name`: the first label's length byte and
/// bytes, then the encoding of the rest (or the terminator).
pub proof fn lemma_encode_name_shape(name: Seq<u8>)
    ensures
        0 <= label_end(name, 0) <= name.len(),
        encode_name(name) == ({
            let j = label_end(name, 0);
            seq![j as u8] + name.take(j) + (if j < name.len() {
                encode_name(name.skip(j + 1))
            } else {
                seq![0u8]
            })
        }),
        encode_name(name).len() == ({
            let j = label_end(name, 0);
            1 + j + (if j < name.len() {
                encode_name(name.skip(j + 1)).len() as int
            } else {
                1
            })
        }),
{
    lemma_label_end(name, 0);
}

/// Two splices at consecutive positions combine into one.
pub proof fn lemma_splice_splice(b: Seq<u8>, p: int, x: Seq<u8>, y: Seq<u8>)
    requires
        0 <= p,
        p + x.len() + y.len() <= b.len(),
    ensures
        splice(splice(b, p, x), p + x.len(), y) == splice(b, p, x + y),
{
    assert(splice(splice(b, p, x), p + x.len(), y) =~= splice(b, p, x + y));
}

/// A later splice wholly inside an earlier one patches the earlier bytes.
pub proof fn lemma_splice_within(b: Seq<u8>, p: int, x: Seq<u8>, off: int, y: Seq<u8>)
    requires
        0 <= p,
        p + x.len() <= b.len(),
        0 <= off,
        off + y.len() <= x.len(),
    ensures
        splice(splice(b, p, x), p + off, y) == splice(
            b,
            p,
            x.take(off) + y + x.skip(off + y.len()),
        ),
{
    assert(splice(splice(b, p, x), p + off, y) =~= splice(
        b,
        p,
        x.take(off) + y + x.skip(off + y.len()),
    ));
}

/// Bytes of a window equal the underlying buffer's bytes.
pub proof fn lemma_window_index(buf: Seq<u8>, pos: int, w: Seq<u8>)
    requires
        0 <= pos,
        pos + w.len() <= buf.len(),
        buf.subrange(pos, pos + w.len()) == w,
    ensures
        forall|k: int| 0 <= k < w.len() ==> buf[pos + k] == #[trigger] w[k],
{
    assert forall|k: int| 0 <= k < w.len() implies buf[pos + k] == #[trigger] w[k] by {
        assert(buf.subrange(pos, pos + w.len())[k] == w[k]);
    }
}

/// A splice changes nothing outside the spliced window.
pub proof fn lemma_splice_frame(b: Seq<u8>, p: int, x: Seq<u8>)
    requires
        0 <= p,
        p + x.len() <= b.len(),
    ensures
        splice(b, p, x).len() == b.len(),
        forall|k: int| 0 <= k < b.len() && !(p <= k < p + x.len()) ==> splice(b, p, x)[k] == b[k],
        forall|k: int| 0 <= k < x.len() ==> splice(b, p, x)[p + k] == x[k],
{
}

/// Round trip of the name codec: decoding an uncompressed encoding of a
/// well-formed name yields the same name lowercased, consuming exactly
/// the encoding, whatever jump budget is already spent.
pub proof fn lemma_name_round_trip(buf: Seq<u8>, pos: int, name: Seq<u8>, jumps: int)
    requires
        buf.len() == 512,
        name_ok(name),
        0 <= pos,
        pos + encode_name(name).len() <= 512,
        buf.subrange(pos, pos + encode_name(name).len()) == encode_name(name),
        0 <= jumps <= 5,
    ensures
        parse_name(buf, pos, jumps) == Some(
            (lower_bytes(name), pos + encode_name(name).len() as int),
        ),
    decreases name.len(),
{
    lemma_encode_name_shape(name);
    lemma_label_end(name, 0);
    let j = label_end(name, 0);
    let enc = encode_name(name);
    let window = buf.subrange(pos, pos + enc.len());
    assert(buf[pos] == enc[0]);
    assert(enc[0] == j as u8);
    assert(buf.subrange(pos + 1, pos + 1 + j) =~= enc.subrange(1, 1 + j));
    assert(enc.subrange(1, 1 + j) =~= name.take(j));
    if j == name.len() {
        assert(enc.len() == j + 2);
        assert(buf[pos + 1 + j] == enc[1 + j]);
        assert(enc[1 + j] == 0u8);
        assert(parse_name(buf, pos + 1 + j, jumps) == Some(
            (Seq::<u8>::empty(), pos + 2 + j),
        ));
        assert(lower_bytes(name.take(j)) =~= lower_bytes(name));
    } else {
        let tail = name.skip(j + 1);
        let enc_tail = encode_name(tail);
        assert(buf.subrange(pos + 1 + j, pos + 1 + j + enc_tail.len()) =~= enc.subrange(
            1 + j,
            1 + j + enc_tail.len(),
        ));
        assert(enc.subrange(1 + j, 1 + j + enc_tail.len()) =~= enc_tail);
        lemma_name_round_trip(buf, pos + 1 + j, tail, jumps);
        lemma_encode_name_len_pos(tail);
        assert(name_ok(tail));
        assert(tail.len() >= 1) by {
            lemma_label_end(tail, 0);
        }
        assert(lower_bytes(tail).len() >= 1);
        assert(name[j] == 46);
        assert(lower_bytes(name.take(j)) + (seq![46u8] + lower_bytes(tail)) =~= lower_bytes(
            name,
        ));
    }
}

/// A length byte with both top bits set is followed through: the name
/// parsed at a pointer is the name parsed at its 14-bit target offset,
/// with one more jump spent, and the cursor lands two bytes after the
/// pointer.
pub proof fn lemma_compression_pointer(buf: Seq<u8>, pos: int, jumps: int)
    requires
        buf.len() == 512,
        0 <= pos,
        pos + 1 < 512,
        buf[pos] >= 192,
        0 <= jumps <= 5,
    ensures
        parse_name(buf, pos, jumps) == ({
            let target = (buf[pos] - 192) * 256 + buf[pos + 1];
            match parse_name(buf, target, jumps + 1) {
                Option::None => None::<(Seq<u8>, int)>,
                Option::Some((nm, _)) => Some((nm, pos + 2)),
            }
        }),
{
}

/// More than five chased pointers exhaust the jump budget: decoding a
/// name with the budget already spent fails, whatever the bytes hold.
pub proof fn lemma_jump_limit(buf: Seq<u8>, pos: int, jumps: int)
    requires
        jumps > 5,
    ensures
        parse_name(buf, pos, jumps) is None,
        parse_name_err(buf, pos, jumps) == DnsError::TooManyJumps,
{
}

/// Name compression decodes faithfully: a two-byte pointer referencing
/// the uncompressed encoding of a well-formed name decodes to exactly
/// the name written in full, leaving the cursor just past the pointer.
pub proof fn lemma_name_compression(buf: Seq<u8>, ppos: int, npos: int, name: Seq<u8>)
    requires
        buf.len() == 512,
        name_ok(name),
        0 <= npos,
        npos + encode_name(name).len() <= 512,
        buf.subrange(npos, npos + encode_name(name).len()) == encode_name(name),
        0 <= ppos,
        ppos + 1 < 512,
        buf[ppos] == (192 + npos / 256) as u8,
        buf[ppos + 1] == (npos % 256) as u8,
    ensures
        parse_name(buf, ppos, 0) == Some((lower_bytes(name), ppos + 2)),
        parse_name(buf, ppos, 0)->Some_0.0 == parse_name(buf, npos, 0)->Some_0.0,
{
    assert(npos < 512) by {
        lemma_encode_name_len_pos(name);
    }
    assert((192 + npos / 256) >= 192);
    assert((buf[ppos] - 192) * 256 + buf[ppos + 1] == (npos / 256) * 256 + npos % 256);
    assert((npos / 256) * 256 + npos % 256 == npos) by (nonlinear_arith);
    lemma_name_round_trip(buf, npos, name, 1);
    lemma_name_round_trip(buf, npos, name, 0);
    lemma_compression_pointer(buf, ppos, 0);
}

/// A fixed 512-byte buffer holding one DNS datagram, together with a
/// cursor tracking where the next sequential read or write happens.
pub struct BytePacketBuffer {
    pub buf: Vec<u8>,
    pub pos: usize,
}

impl BytePacketBuffer {
    /// The buffer always holds exactly `BUF_LEN` bytes.
    pub open spec fn wf(&self) -> bool {
        self.buf@.len() == BUF_LEN
    }

    /// A fresh zeroed buffer with the cursor at the start.
    pub fn new() -> (r: Self)
        ensures
            r.wf(),
            r.pos == 0,
            forall|i: int| 0 <= i < 512 ==> r.buf@[i] == 0u8,
    {
        Self { buf: vec![0u8; 512], pos: 0 }
    }

    /// The current cursor position.
    pub fn current_positon_in_buffer(&self) -> (r: usize)
        ensures
            r == self.pos,
    {
        self.pos
    }

    /// Advances the cursor by `moves` steps.
    pub fn move_buffer(&mut self, moves: usize) -> (r: Result<(), DnsError>)
        ensures
            final(self).buf@ == old(self).buf@,
            r is Ok <==> old(self).pos + moves <= usize::MAX,
            r is Ok ==> final(self).pos == old(self).pos + moves,
            r is Err ==> final(self).pos == old(self).pos && r->Err_0 == DnsError::EndOfBuffer,
    {
        match self.pos.checked_add(moves) {
            Some(new_pos) => {
                self.pos = new_pos;
                Ok(())
            },
            None => Err(DnsError::EndOfBuffer),
        }
    }

    /// Sets the cursor to an absolute position.
    pub fn change_buffer_position(&mut self, pos: usize) -> (r: Result<(), DnsError>)
        ensures
            final(self).buf@ == old(self).buf@,
            final(self).pos == pos,
            r is Ok,
    {
        self.pos = pos;
        Ok(())
    }

    /// Reads the byte under the cursor and advances by one; fails at or
    /// beyond byte 512 leaving the buffer unchanged.
    pub fn read_single_byte(&mut self) -> (r: Result<u8, DnsError>)
        requires
            old(self).wf(),
        ensures
            final(self).wf(),
            final(self).buf@ == old(self).buf@,
            r is Ok <==> old(self).pos < 512,
            r is Ok ==> r->Ok_0 == old(self).buf@[old(self).pos as int] && final(self).pos == old(
                self,
            ).pos + 1,
            r is Err ==> final(self).pos == old(self).pos && r->Err_0 == DnsError::EndOfBuffer,
    {
        if self.pos >= 512 {
            return Err(DnsError::EndOfBuffer);
        }
        let res = self.buf[self.pos];
        self.pos = self.pos + 1;
        Ok(res)
    }

    /// Reads the byte at `pos` without moving the cursor.
    pub fn get_single_byte(&mut self, pos: usize) -> (r: Result<u8, DnsError>)
        requires
            old(self).wf(),
        ensures
            final(self).wf(),
            final(self).buf@ == old(self).buf@,
            final(self).pos == old(self).pos,
            r is Ok <==> pos < 512,
            r is Ok ==> r->Ok_0 == old(self).buf@[pos as int],
            r is Err ==> r->Err_0 == DnsError::EndOfBuffer,
    {
        if pos >= 512 {
            return Err(DnsError::EndOfBuffer);
        }
        Ok(self.buf[pos])
    }

    /// Copies out the `length` bytes starting at `start` without moving the
    /// cursor; only a range that would touch byte 512 fails.
    pub fn get_range(&mut self, start: usize, length: usize) -> (r: Result<Vec<u8>, DnsError>)
        requires
            old(self).wf(),
        ensures
            final(self).wf(),
            final(self).buf@ == old(self).buf@,
            final(self).pos == old(self).pos,
            r is Ok <==> start + length <= 512,
            r is Ok ==> r->Ok_0@ == old(self).buf@.subrange(start as int, start + length),
            r is Err ==> r->Err_0 == DnsError::EndOfBuffer,
    {
        if start > 512 || length > 512 - start {
            return Err(DnsError::EndOfBuffer);
        }
        let mut out: Vec<u8> = Vec::new();
        let mut i = start;
        while i < start + length
            invariant
                self.wf(),
                start <= i <= start + length,
                start + length <= 512,
                out@ == self.buf@.subrange(start as int, i as int),
            decreases start + length - i,
        {
            out.push(self.buf[i]);
            proof {
                assert(out@ =~= self.buf@.subrange(start as int, i + 1));
            }
            i = i + 1;
        }
        Ok(out)
    }

    /// Reads two bytes as a big-endian 16-bit value.
    pub fn read_two_bytes(&mut self) -> (r: Result<u16, DnsError>)
        requires
            old(self).wf(),
        ensures
            final(self).wf(),
            final(self).buf@ == old(self).buf@,
            r is Ok <==> old(self).pos + 2 <= 512,
            r is Ok ==> r->Ok_0 == be16(
                old(self).buf@[old(self).pos as int],
                old(self).buf@[old(self).pos + 1],
            ) && final(self).pos == old(self).pos + 2,
            r is Err ==> r->Err_0 == DnsError::EndOfBuffer && final(self).pos == (
            if old(self).pos >= 512 {
                old(self).pos as int
            } else {
                512
            }),
    {
        let b0 = self.read_single_byte()?;
        let b1 = self.read_single_byte()?;
        Ok((b0 as u16) * 256 + (b1 as u16))
    }

    /// Reads four bytes as a big-endian 32-bit value.
    pub fn read_four_bytes(&mut self) -> (r: Result<u32, DnsError>)
        requires
            old(self).wf(),
        ensures
            final(self).wf(),
            final(self).buf@ == old(self).buf@,
            r is Ok <==> old(self).pos + 4 <= 512,
            r is Ok ==> r->Ok_0 == be32(
                old(self).buf@[old(self).pos as int],
                old(self).buf@[old(self).pos + 1],
                old(self).buf@[old(self).pos + 2],
                old(self).buf@[old(self).pos + 3],
            ) && final(self).pos == old(self).pos + 4,
            r is Err ==> r->Err_0 == DnsError::EndOfBuffer && final(self).pos == (
            if old(self).pos >= 512 {
                old(self).pos as int
            } else {
                512
            }),
    {
        let b0 = self.read_single_byte()?;
        let b1 = self.read_single_byte()?;
        let b2 = self.read_single_byte()?;
        let b3 = self.read_single_byte()?;
        Ok((b0 as u32) * 0x1000000 + (b1 as u32) * 0x10000 + (b2 as u32) * 256 + (b3 as u32))
    }

    /// Writes one byte at the cursor and advances by one; fails at or
    /// beyond byte 512 leaving the buffer unchanged.
    pub fn write(&mut self, val: u8) -> (r: Result<(), DnsError>)
        requires
            old(self).wf(),
        ensures
            final(self).wf(),
            r is Ok <==> old(self).pos < 512,
            r is Ok ==> final(self).buf@ == old(self).buf@.update(old(self).pos as int, val)
                && final(self).pos == old(self).pos + 1,
            r is Err ==> final(self).buf@ == old(self).buf@ && final(self).pos == old(self).pos
                && r->Err_0 == DnsError::EndOfBuffer,
    {
        if self.pos >= 512 {
            return Err(DnsError::EndOfBuffer);
        }
        self.buf.set(self.pos, val);
        self.pos = self.pos + 1;
        Ok(())
    }

    /// Writes one byte; same operation as `write`.
    pub fn write_u8(&mut self, val: u8) -> (r: Result<(), DnsError>)
        requires
            old(self).wf(),
        ensures
            final(self).wf(),
            r is Ok <==> old(self).pos < 512,
            r is Ok ==> final(self).buf@ == old(self).buf@.update(old(self).pos as int, val)
                && final(self).pos == old(self).pos + 1,
            r is Err ==> final(self).buf@ == old(self).buf@ && final(self).pos == old(self).pos
                && r->Err_0 == DnsError::EndOfBuffer,
    {
        self.write(val)
    }

    /// Writes a 16-bit value as two big-endian bytes.
    pub fn write_u16(&mut self, val: u16) -> (r: Result<(), DnsError>)
        requires
            old(self).wf(),
        ensures
            final(self).wf(),
            r is Ok <==> old(self).pos + 2 <= 512,
            r is Ok ==> final(self).buf@ == splice(old(self).buf@, old(self).pos as int, u16_bytes(val))
                && final(self).pos == old(self).pos + 2,
            r is Err ==> r->Err_0 == DnsError::EndOfBuffer && old(self).pos + 2 > 512 && (
            if old(self).pos >= 512 {
                final(self).buf@ == old(self).buf@ && final(self).pos == old(self).pos
            } else {
                final(self).buf@ == old(self).buf@.update(old(self).pos as int, u16_bytes(val)[0])
                    && final(self).pos == 512
            }),
    {
        let ghost buf0 = self.buf@;
        let ghost pos0 = self.pos;
        self.write((val / 256) as u8)?;
        self.write((val % 256) as u8)?;
        proof {
            assert(self.buf@ =~= splice(buf0, pos0 as int, u16_bytes(val)));
        }
        Ok(())
    }

    /// Writes a 32-bit value as four big-endian bytes.
    pub fn write_u32(&mut self, val: u32) -> (r: Result<(), DnsError>)
        requires
            old(self).wf(),
        ensures
            final(self).wf(),
            r is Ok <==> old(self).pos + 4 <= 512,
            r is Ok ==> final(self).buf@ == splice(old(self).buf@, old(self).pos as int, u32_bytes(val))
                && final(self).pos == old(self).pos + 4,
            r is Err ==> r->Err_0 == DnsError::EndOfBuffer && old(self).pos + 4 > 512 && (
            if old(self).pos >= 512 {
                final(self).buf@ == old(self).buf@ && final(self).pos == old(self).pos
            } else {
                final(self).pos == 512 && final(self).buf@ == splice(
                    old(self).buf@,
                    old(self).pos as int,
                    u32_bytes(val).take(512 - old(self).pos),
                )
            }),
    {
        let ghost buf0 = self.buf@;
        let ghost pos0 = self.pos;
        let b0 = (val / 0x1000000) as u8;
        let b1 = ((val / 0x10000) % 256) as u8;
        let b2 = ((val / 256) % 256) as u8;
        let b3 = (val % 256) as u8;
        match self.write(b0) {
            Ok(_) => {},
            Err(e) => {
                return Err(e);
            },
        }
        match self.write(b1) {
            Ok(_) => {},
            Err(e) => {
                proof {
                    assert(self.buf@ =~= splice(buf0, pos0 as int, u32_bytes(val).take(1)));
                }
                return Err(e);
            },
        }
        match self.write(b2) {
            Ok(_) => {},
            Err(e) => {
                proof {
                    assert(self.buf@ =~= splice(buf0, pos0 as int, u32_bytes(val).take(2)));
                }
                return Err(e);
            },
        }
        match self.write(b3) {
            Ok(_) => {},
            Err(e) => {
                proof {
                    assert(self.buf@ =~= splice(buf0, pos0 as int, u32_bytes(val).take(3)));
                }
                return Err(e);
            },
        }
        proof {
            assert(self.buf@ =~= splice(buf0, pos0 as int, u32_bytes(val)));
        }
        Ok(())
    }

    /// Overwrites the byte at an absolute position, leaving the cursor
    /// alone; fails at or beyond byte 512.
    pub fn set(&mut self, pos: usize, val: u8) -> (r: Result<(), DnsError>)
        requires
            old(self).wf(),
        ensures
            final(self).wf(),
            final(self).pos == old(self).pos,
            r is Ok <==> pos < 512,
            r is Ok ==> final(self).buf@ == old(self).buf@.update(pos as int, val),
            r is Err ==> final(self).buf@ == old(self).buf@ && r->Err_0 == DnsError::EndOfBuffer,
    {
        if pos >= 512 {
            return Err(DnsError::EndOfBuffer);
        }
        self.buf.set(pos, val);
        Ok(())
    }

    /// Backpatches a big-endian 16-bit value over two already-written
    /// bytes at an absolute position.
    pub fn set_u16(&mut self, pos: usize, val: u16) -> (r: Result<(), DnsError>)
        requires
            old(self).wf(),
        ensures
            final(self).wf(),
            final(self).pos == old(self).pos,
            r is Ok <==> pos + 2 <= 512,
            r is Ok ==> final(self).buf@ == splice(old(self).buf@, pos as int, u16_bytes(val)),
            r is Err ==> r->Err_0 == DnsError::EndOfBuffer && (
            if pos >= 512 {
                final(self).buf@ == old(self).buf@
            } else {
                final(self).buf@ == old(self).buf@.update(pos as int, u16_bytes(val)[0])
            }),
    {
        let ghost buf0 = self.buf@;
        self.set(pos, (val / 256) as u8)?;
        self.set(pos + 1, (val % 256) as u8)?;
        proof {
            assert(self.buf@ =~= splice(buf0, pos as int, u16_bytes(val)));
        }
        Ok(())
    }

    /// Writes all of `bytes` in order at the cursor.
    #[verifier::loop_isolation(false)]
    pub fn write_all(&mut self, bytes: &Vec<u8>) -> (r: Result<(), DnsError>)
        requires
            old(self).wf(),
        ensures
            final(self).wf(),
            r is Ok <==> bytes@.len() == 0 || old(self).pos + bytes@.len() <= 512,
            bytes@.len() == 0 ==> final(self).buf@ == old(self).buf@ && final(self).pos == old(
                self,
            ).pos,
            r is Ok && bytes@.len() > 0 ==> final(self).buf@ == splice(
                old(self).buf@,
                old(self).pos as int,
                bytes@,
            ) && final(self).pos == old(self).pos + bytes@.len(),
            r is Err ==> r->Err_0 == DnsError::EndOfBuffer && final(self).pos >= old(self).pos
                && forall|k: int|
                0 <= k < 512 && !(old(self).pos <= k < final(self).pos) ==> final(self).buf@[k]
                    == old(self).buf@[k],
    {
        let ghost buf0 = self.buf@;
        let ghost pos0 = self.pos;
        let n = bytes.len();
        if n == 0 {
            return Ok(());
        }
        let mut i: usize = 0;
        while i < n
            invariant
                self.wf(),
                i <= n,
                i == 0 ==> self.buf@ == buf0 && self.pos == pos0,
                i > 0 ==> self.buf@ == splice(buf0, pos0 as int, bytes@.take(i as int))
                    && self.pos == pos0 + i && pos0 + i <= 512,
            decreases n - i,
        {
            let ghost bufi = self.buf@;
            match self.write(bytes[i]) {
                Ok(_) => {},
                Err(e) => {
                    proof {
                        if i > 0 {
                            lemma_splice_frame(buf0, pos0 as int, bytes@.take(i as int));
                        }
                    }
                    return Err(e);
                },
            }
            proof {
                if i == 0 {
                    assert(self.buf@ =~= splice(buf0, pos0 as int, bytes@.take(1)));
                } else {
                    assert(self.buf@ =~= splice(bufi, pos0 + i, seq![bytes@[i as int]]));
                    lemma_splice_splice(buf0, pos0 as int, bytes@.take(i as int), seq![bytes@[i as int]]);
                    assert(bytes@.take(i as int) + seq![bytes@[i as int]] =~= bytes@.take(i + 1));
                }
            }
            i = i + 1;
        }
        proof {
            assert(bytes@.take(n as int) =~= bytes@);
        }
        Ok(())
    }

    /// Scans one name starting at `pos`, appending its lowercased
    /// dot-joined labels to `outstr`; `first` records whether nothing of
    /// the name has been appended yet, so a dot is owed before a label.
    fn name_scan(&self, pos: usize, jumps: usize, outstr: &mut Vec<u8>, first: bool) -> (r: Result<
        usize,
        DnsError,
    >)
        requires
            self.wf(),
            jumps <= 6,
        ensures
            r is Ok <==> parse_name(self.buf@, pos as int, jumps as int) is Some,
            r is Ok ==> ({
                let pr = parse_name(self.buf@, pos as int, jumps as int)->Some_0;
                r->Ok_0 == pr.1 && final(outstr)@ == old(outstr)@ + (if first || pr.0.len() == 0 {
                    pr.0
                } else {
                    seq![46u8] + pr.0
                })
            }),
            r is Err ==> r->Err_0 == parse_name_err(self.buf@, pos as int, jumps as int),
        decreases 6 - jumps, (if pos < 512 { 512 - (pos as int) } else { 0 }),
    {
        if jumps > 5 {
            return Err(DnsError::TooManyJumps);
        }
        if pos >= 512 {
            return Err(DnsError::EndOfBuffer);
        }
        let len = self.buf[pos];
        if len >= 192 {
            if pos + 1 >= 512 {
                return Err(DnsError::EndOfBuffer);
            }
            let b2 = self.buf[pos + 1];
            let target = ((len - 192) as usize) * 256 + (b2 as usize);
            match self.name_scan(target, jumps + 1, outstr, first) {
                Ok(_) => Ok(pos + 2),
                Err(e) => Err(e),
            }
        } else if len == 0 {
            Ok(pos + 1)
        } else {
            let llen = len as usize;
            if llen >= 512 - (pos + 1) {
                return Err(DnsError::EndOfBuffer);
            }
            if !first {
                outstr.push(46);
            }
            let ghost mid = outstr@;
            let mut i = pos + 1;
            while i < pos + 1 + llen
                invariant
                    self.wf(),
                    pos + 1 <= i <= pos + 1 + llen,
                    pos + 1 + llen < 512,
                    outstr@ == mid + lower_bytes(self.buf@.subrange(pos + 1, i as int)),
                decreases pos + 1 + llen - i,
            {
                let b = self.buf[i];
                let lb = if 65 <= b && b <= 90 {
                    b + 32
                } else {
                    b
                };
                outstr.push(lb);
                proof {
                    assert(outstr@ =~= mid + lower_bytes(self.buf@.subrange(pos + 1, i + 1)));
                }
                i = i + 1;
            }
            let ghost lab = lower_bytes(self.buf@.subrange(pos + 1, pos + 1 + llen));
            match self.name_scan(pos + 1 + llen, jumps, outstr, false) {
                Ok(end) => {
                    proof {
                        let pr = parse_name(self.buf@, pos as int, jumps as int)->Some_0;
                        let rest = parse_name(
                            self.buf@,
                            pos + 1 + llen,
                            jumps as int,
                        )->Some_0.0;
                        if rest.len() == 0 {
                            assert(pr.0 =~= lab);
                        } else {
                            assert(pr.0 =~= lab + (seq![46u8] + rest));
                        }
                        if first {
                            assert(outstr@ =~= old(outstr)@ + pr.0);
                        } else {
                            assert(outstr@ =~= old(outstr)@ + (seq![46u8] + pr.0));
                        }
                    }
                    Ok(end)
                },
                Err(e) => Err(e),
            }
        }
    }

    /// Decodes a compression-aware domain name at the cursor, appending
    /// its lowercased dot-joined labels to `outstr`. After at most 5
    /// chained pointer jumps the decode fails with a loop-protection
    /// error; a failed decode leaves the buffer and cursor unchanged,
    /// though labels read before the failure stay appended to `outstr`.
    pub fn read_qname(&mut self, outstr: &mut Vec<u8>) -> (r: Result<(), DnsError>)
        requires
            old(self).wf(),
        ensures
            final(self).wf(),
            final(self).buf@ == old(self).buf@,
            r is Ok <==> parse_name(old(self).buf@, old(self).pos as int, 0) is Some,
            r is Ok ==> ({
                let pr = parse_name(old(self).buf@, old(self).pos as int, 0)->Some_0;
                final(outstr)@ == old(outstr)@ + pr.0 && final(self).pos == pr.1
            }),
            r is Err ==> final(self).pos == old(self).pos && r->Err_0 == parse_name_err(
                old(self).buf@,
                old(self).pos as int,
                0,
            ),
    {
        match self.name_scan(self.pos, 0, outstr, true) {
            Ok(end) => {
                self.pos = end;
                Ok(())
            },
            Err(e) => Err(e),
        }
    }

    /// Writes the labels of `qname` from byte index `i` on (a label starts
    /// at `i`), followed by the terminating zero length byte.
    #[verifier::loop_isolation(false)]
    #[verifier::rlimit(100)]
    #[verifier::spinoff_prover]
    fn write_name_from(&mut self, qname: &Vec<u8>, i: usize) -> (r: Result<(), DnsError>)
        requires
            old(self).wf(),
            i <= qname@.len(),
        ensures
            final(self).wf(),
            r is Ok <==> labels_ok(qname@.skip(i as int)) && old(self).pos + encode_name(
                qname@.skip(i as int),
            ).len() <= 512,
            r is Ok ==> final(self).buf@ == splice(
                old(self).buf@,
                old(self).pos as int,
                encode_name(qname@.skip(i as int)),
            ) && final(self).pos == old(self).pos + encode_name(qname@.skip(i as int)).len(),
            r is Err ==> r->Err_0 == qname_write_err(qname@.skip(i as int), old(self).pos as int)
                && final(self).pos >= old(self).pos && forall|k: int|
                0 <= k < 512 && !(old(self).pos <= k < final(self).pos) ==> final(self).buf@[k]
                    == old(self).buf@[k],
        decreases qname@.len() - i,
    {
        let ghost buf0 = self.buf@;
        let ghost pos0 = self.pos;
        let ghost tail = qname@.skip(i as int);
        let n = qname.len();
        let mut j = i;
        while j < n && qname[j] != 46
            invariant
                i <= j <= n,
                n == qname@.len(),
                forall|k: int| i <= k < j ==> qname@[k] != 46,
            decreases n - j,
        {
            j = j + 1;
        }
        proof {
            lemma_label_end_at(tail, 0, j - i);
            assert(label_end(tail, 0) == j - i);
        }
        if j - i > 63 {
            return Err(DnsError::LabelTooLong);
        }
        let ghost enc = encode_name(tail);
        match self.write((j - i) as u8) {
            Ok(_) => {},
            Err(e) => {
                proof {
                    lemma_encode_name_len_pos(tail);
                }
                return Err(e);
            },
        }
        let mut k = i;
        while k < j
            invariant
                self.wf(),
                i <= k <= j <= n,
                n == qname@.len(),
                buf0.len() == 512,
                pos0 + 1 + (k - i) <= 512,
                self.buf@ == splice(buf0, pos0 as int, seq![(j - i) as u8] + qname@.subrange(i as int, k as int)),
                self.pos == pos0 + 1 + (k - i),
            decreases j - k,
        {
            let ghost bufk = self.buf@;
            match self.write(qname[k]) {
                Ok(_) => {},
                Err(e) => {
                    proof {
                        lemma_splice_frame(
                            buf0,
                            pos0 as int,
                            seq![(j - i) as u8] + qname@.subrange(i as int, k as int),
                        );
                        lemma_encode_name_shape(tail);
                    }
                    return Err(e);
                },
            }
            proof {
                lemma_splice_splice(
                    buf0,
                    pos0 as int,
                    seq![(j - i) as u8] + qname@.subrange(i as int, k as int),
                    seq![qname@[k as int]],
                );
                assert(bufk.update((pos0 + 1 + (k - i)) as int, qname@[k as int]) =~= splice(
                    bufk,
                    pos0 + 1 + (k - i),
                    seq![qname@[k as int]],
                ));
                assert(seq![(j - i) as u8] + qname@.subrange(i as int, k as int) + seq![
                    qname@[k as int],
                ] =~= seq![(j - i) as u8] + qname@.subrange(i as int, k + 1));
            }
            k = k + 1;
        }
        let ghost written = seq![(j - i) as u8] + qname@.subrange(i as int, j as int);
        if j == n {
            match self.write(0) {
                Ok(_) => {},
                Err(e) => {
                    proof {
                        lemma_splice_frame(buf0, pos0 as int, written);
                        lemma_encode_name_shape(tail);
                    }
                    return Err(e);
                },
            }
            proof {
                lemma_splice_splice(buf0, pos0 as int, written, seq![0u8]);
                let prev = splice(buf0, pos0 as int, written);
                assert(prev.update((pos0 + 1 + (j - i)) as int, 0u8) =~= splice(
                    prev,
                    pos0 + 1 + (j - i),
                    seq![0u8],
                ));
                lemma_encode_name_shape(tail);
                assert(tail.take(j - i) =~= qname@.subrange(i as int, j as int));
                assert(written + seq![0u8] =~= encode_name(tail));
            }
            Ok(())
        } else {
            proof {
                lemma_encode_name_shape(tail);
                assert(tail.take(j - i) =~= qname@.subrange(i as int, j as int));
                assert(tail.skip(j - i + 1) =~= qname@.skip(j + 1));
            }
            match self.write_name_from(qname, j + 1) {
                Ok(_) => {
                    proof {
                        let rest = encode_name(qname@.skip(j + 1));
                        lemma_splice_splice(buf0, pos0 as int, written, rest);
                        assert(written + rest =~= encode_name(tail));
                    }
                    Ok(())
                },
                Err(e) => {
                    proof {
                        lemma_splice_frame(buf0, pos0 as int, written);
                        lemma_encode_name_shape(tail);
                        lemma_encode_name_len_pos(qname@.skip(j + 1));
                    }
                    Err(e)
                },
            }
        }
    }

    /// Encodes a dot-joined name as length-prefixed labels ending in a
    /// zero length byte, without compression. Fails if a label is longer
    /// than 63 bytes or the encoding would touch byte 512.
    pub fn write_qname(&mut self, qname: &Vec<u8>) -> (r: Result<(), DnsError>)
        requires
            old(self).wf(),
        ensures
            final(self).wf(),
            r is Ok <==> labels_ok(qname@) && old(self).pos + encode_name(qname@).len() <= 512,
            r is Ok ==> final(self).buf@ == splice(
                old(self).buf@,
                old(self).pos as int,
                encode_name(qname@),
            ) && final(self).pos == old(self).pos + encode_name(qname@).len(),
            r is Err ==> r->Err_0 == qname_write_err(qname@, old(self).pos as int)
                && final(self).pos >= old(self).pos && forall|k: int|
                0 <= k < 512 && !(old(self).pos <= k < final(self).pos) ==> final(self).buf@[k]
                    == old(self).buf@[k],
    {
        proof {
            assert(qname@.skip(0) =~= qname@);
        }
        self.write_name_from(qname, 0)
    }
}

} // verus!
