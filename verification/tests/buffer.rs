use nebula::byte_packet::BytePacketBuffer;
use nebula::err::DnsError;

#[test]
fn fresh_buffer_is_zeroed_at_start() {
    let buffer = BytePacketBuffer::new();
    assert_eq!(buffer.current_positon_in_buffer(), 0);
    assert_eq!(buffer.buf.len(), 512);
    assert!(buffer.buf.iter().all(|&b| b == 0));
}

#[test]
fn single_byte_round_trip() {
    let mut buffer = BytePacketBuffer::new();
    buffer.write(0xAB).unwrap();
    buffer.change_buffer_position(0).unwrap();
    assert_eq!(buffer.read_single_byte().unwrap(), 0xAB);
    assert_eq!(buffer.current_positon_in_buffer(), 1);
}

#[test]
fn u16_round_trip() {
    let mut buffer = BytePacketBuffer::new();
    buffer.write_u16(0xBEEF).unwrap();
    buffer.change_buffer_position(0).unwrap();
    assert_eq!(buffer.read_two_bytes().unwrap(), 0xBEEF);
}

#[test]
fn u32_round_trip_is_big_endian() {
    let mut buffer = BytePacketBuffer::new();
    buffer.write_u32(0x01020304).unwrap();
    assert_eq!(&buffer.buf[0..4], &[1, 2, 3, 4]);
    buffer.change_buffer_position(0).unwrap();
    assert_eq!(buffer.read_four_bytes().unwrap(), 0x01020304);
}

#[test]
fn read_at_end_fails_without_corrupting_state() {
    let mut buffer = BytePacketBuffer::new();
    buffer.write(7).unwrap();
    buffer.change_buffer_position(512).unwrap();
    let before = buffer.buf.clone();
    assert_eq!(buffer.read_single_byte(), Err(DnsError::EndOfBuffer));
    assert_eq!(buffer.buf, before);
    assert_eq!(buffer.current_positon_in_buffer(), 512);
}

#[test]
fn write_at_end_fails_without_corrupting_state() {
    let mut buffer = BytePacketBuffer::new();
    buffer.change_buffer_position(512).unwrap();
    let before = buffer.buf.clone();
    assert_eq!(buffer.write(9), Err(DnsError::EndOfBuffer));
    assert_eq!(buffer.buf, before);
    assert_eq!(buffer.current_positon_in_buffer(), 512);
}

#[test]
fn writes_up_to_last_byte_succeed() {
    let mut buffer = BytePacketBuffer::new();
    buffer.change_buffer_position(511).unwrap();
    buffer.write(1).unwrap();
    assert_eq!(buffer.buf[511], 1);
    assert_eq!(buffer.write(2), Err(DnsError::EndOfBuffer));
}

#[test]
fn get_single_byte_leaves_cursor_alone() {
    let mut buffer = BytePacketBuffer::new();
    buffer.write(42).unwrap();
    assert_eq!(buffer.get_single_byte(0).unwrap(), 42);
    assert_eq!(buffer.current_positon_in_buffer(), 1);
    assert_eq!(buffer.get_single_byte(512), Err(DnsError::EndOfBuffer));
}

#[test]
fn get_range_is_bounds_checked() {
    let mut buffer = BytePacketBuffer::new();
    buffer.write(1).unwrap();
    buffer.write(2).unwrap();
    buffer.write(3).unwrap();
    assert_eq!(buffer.get_range(1, 2).unwrap(), vec![2, 3]);
    // A range ending exactly at byte 512 touches only byte 511: allowed.
    assert_eq!(buffer.get_range(510, 2).unwrap(), vec![0, 0]);
    assert_eq!(buffer.get_range(0, 512).unwrap().len(), 512);
    // A range that would touch byte 512 fails.
    assert_eq!(buffer.get_range(511, 2), Err(DnsError::EndOfBuffer));
    assert_eq!(buffer.get_range(0, 513), Err(DnsError::EndOfBuffer));
}

#[test]
fn set_u16_backpatches_in_place() {
    let mut buffer = BytePacketBuffer::new();
    buffer.write_u32(0).unwrap();
    buffer.set_u16(1, 0x1234).unwrap();
    assert_eq!(&buffer.buf[0..4], &[0, 0x12, 0x34, 0]);
    assert_eq!(buffer.current_positon_in_buffer(), 4);
    assert_eq!(buffer.set_u16(511, 1), Err(DnsError::EndOfBuffer));
}

#[test]
fn qname_round_trip_plain() {
    let mut buffer = BytePacketBuffer::new();
    buffer.write_qname(&b"example.com".to_vec()).unwrap();
    assert_eq!(
        &buffer.buf[0..13],
        &[7, b'e', b'x', b'a', b'm', b'p', b'l', b'e', 3, b'c', b'o', b'm', 0]
    );
    buffer.change_buffer_position(0).unwrap();
    let mut out = Vec::new();
    buffer.read_qname(&mut out).unwrap();
    assert_eq!(out, b"example.com".to_vec());
    assert_eq!(buffer.current_positon_in_buffer(), 13);
}

#[test]
fn qname_decodes_lowercased() {
    let mut buffer = BytePacketBuffer::new();
    buffer.write_qname(&b"ExAmPle.COM".to_vec()).unwrap();
    buffer.change_buffer_position(0).unwrap();
    let mut out = Vec::new();
    buffer.read_qname(&mut out).unwrap();
    assert_eq!(out, b"example.com".to_vec());
}

#[test]
fn qname_label_longer_than_63_bytes_is_refused() {
    let mut buffer = BytePacketBuffer::new();
    let long = vec![b'a'; 64];
    assert_eq!(buffer.write_qname(&long), Err(DnsError::LabelTooLong));
    let ok = vec![b'a'; 63];
    let mut buffer = BytePacketBuffer::new();
    buffer.write_qname(&ok).unwrap();
}

#[test]
fn qname_write_fails_when_it_would_touch_byte_512() {
    let mut buffer = BytePacketBuffer::new();
    buffer.change_buffer_position(505).unwrap();
    // "example.com" needs 13 bytes; only 7 remain.
    assert_eq!(
        buffer.write_qname(&b"example.com".to_vec()),
        Err(DnsError::EndOfBuffer)
    );
}

#[test]
fn pointer_decodes_like_the_name_written_in_full() {
    let mut buffer = BytePacketBuffer::new();
    buffer.write_qname(&b"example.com".to_vec()).unwrap();
    // A compression pointer at offset 20 referencing offset 0.
    buffer.change_buffer_position(20).unwrap();
    buffer.write(0xC0).unwrap();
    buffer.write(0x00).unwrap();
    buffer.change_buffer_position(20).unwrap();
    let mut via_pointer = Vec::new();
    buffer.read_qname(&mut via_pointer).unwrap();
    assert_eq!(via_pointer, b"example.com".to_vec());
    // The cursor lands just past the two pointer bytes.
    assert_eq!(buffer.current_positon_in_buffer(), 22);
}

#[test]
fn pointer_after_leading_labels_appends_suffix() {
    let mut buffer = BytePacketBuffer::new();
    buffer.write_qname(&b"example.com".to_vec()).unwrap();
    // "www" then a pointer back to "example.com".
    buffer.change_buffer_position(30).unwrap();
    buffer.write(3).unwrap();
    buffer.write(b'w').unwrap();
    buffer.write(b'w').unwrap();
    buffer.write(b'w').unwrap();
    buffer.write(0xC0).unwrap();
    buffer.write(0x00).unwrap();
    buffer.change_buffer_position(30).unwrap();
    let mut out = Vec::new();
    buffer.read_qname(&mut out).unwrap();
    assert_eq!(out, b"www.example.com".to_vec());
    assert_eq!(buffer.current_positon_in_buffer(), 36);
}

fn write_pointer(buffer: &mut BytePacketBuffer, at: usize, target: usize) {
    buffer.change_buffer_position(at).unwrap();
    buffer.write(0xC0 | (target >> 8) as u8).unwrap();
    buffer.write((target & 0xFF) as u8).unwrap();
}

#[test]
fn five_chained_pointers_succeed() {
    let mut buffer = BytePacketBuffer::new();
    buffer.write_qname(&b"example.com".to_vec()).unwrap();
    // A chain of five pointers, each referencing the previous one.
    write_pointer(&mut buffer, 100, 0);
    write_pointer(&mut buffer, 110, 100);
    write_pointer(&mut buffer, 120, 110);
    write_pointer(&mut buffer, 130, 120);
    write_pointer(&mut buffer, 140, 130);
    buffer.change_buffer_position(140).unwrap();
    let mut out = Vec::new();
    buffer.read_qname(&mut out).unwrap();
    assert_eq!(out, b"example.com".to_vec());
    assert_eq!(buffer.current_positon_in_buffer(), 142);
}

#[test]
fn six_chained_pointers_fail_with_loop_protection() {
    let mut buffer = BytePacketBuffer::new();
    buffer.write_qname(&b"example.com".to_vec()).unwrap();
    write_pointer(&mut buffer, 100, 0);
    write_pointer(&mut buffer, 110, 100);
    write_pointer(&mut buffer, 120, 110);
    write_pointer(&mut buffer, 130, 120);
    write_pointer(&mut buffer, 140, 130);
    write_pointer(&mut buffer, 150, 140);
    buffer.change_buffer_position(150).unwrap();
    let mut out = Vec::new();
    assert_eq!(buffer.read_qname(&mut out), Err(DnsError::TooManyJumps));
}

#[test]
fn pointer_cycle_fails_with_loop_protection() {
    let mut buffer = BytePacketBuffer::new();
    write_pointer(&mut buffer, 40, 40);
    buffer.change_buffer_position(40).unwrap();
    let mut out = Vec::new();
    assert_eq!(buffer.read_qname(&mut out), Err(DnsError::TooManyJumps));
}

#[test]
fn move_and_position_queries() {
    let mut buffer = BytePacketBuffer::new();
    buffer.move_buffer(5).unwrap();
    assert_eq!(buffer.current_positon_in_buffer(), 5);
    buffer.change_buffer_position(2).unwrap();
    assert_eq!(buffer.current_positon_in_buffer(), 2);
}
