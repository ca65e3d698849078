use dns_resolver::byte_buffer::{ByteBuffer, DnsError};

#[test]
fn test_new_byte_buffer() {
    let buffer = ByteBuffer::new();
    assert_eq!(buffer.position, 0);
    assert_eq!(buffer.buffer, [0; 512]);
}

#[test]
fn test_step() {
    let mut buffer = ByteBuffer::new();
    buffer.step(5).unwrap();
    assert_eq!(buffer.position, 5);
}

#[test]
fn test_seek() {
    let mut buffer = ByteBuffer::new();
    buffer.seek(10).unwrap();
    assert_eq!(buffer.position, 10);
}

#[test]
fn test_read_write() {
    let mut buffer = ByteBuffer::new();
    buffer.write(42).unwrap();
    buffer.seek(0).unwrap();
    assert_eq!(buffer.read().unwrap(), 42);
}

#[test]
fn test_get() {
    let mut buffer = ByteBuffer::new();
    buffer.write(42).unwrap();
    assert_eq!(buffer.get(0).unwrap(), 42);
}

#[test]
fn test_get_range() {
    let mut buffer = ByteBuffer::new();
    buffer.write(42).unwrap();
    buffer.write(43).unwrap();
    assert_eq!(buffer.get_range(0, 2).unwrap(), &[42, 43]);
}

#[test]
fn test_read_u16() {
    let mut buffer = ByteBuffer::new();
    buffer.write_u16(0x1234).unwrap();
    buffer.seek(0).unwrap();
    assert_eq!(buffer.read_u16().unwrap(), 0x1234);
}

#[test]
fn test_read_u32() {
    let mut buffer = ByteBuffer::new();
    buffer.write_u32(0x12345678).unwrap();
    buffer.seek(0).unwrap();
    assert_eq!(buffer.read_u32().unwrap(), 0x12345678);
}

#[test]
fn test_read_qname() {
    let mut buffer = ByteBuffer::new();
    buffer.write_qname("example.com").unwrap();
    buffer.seek(0).unwrap();
    let mut qname = String::new();
    buffer.read_qname(&mut qname).unwrap();
    assert_eq!(qname, "example.com");
}

#[test]
fn test_write_u8() {
    let mut buffer = ByteBuffer::new();
    buffer.write_u8(0x12).unwrap();
    buffer.seek(0).unwrap();
    assert_eq!(buffer.read().unwrap(), 0x12);
}

#[test]
fn test_write_u16() {
    let mut buffer = ByteBuffer::new();
    buffer.write_u16(0x1234).unwrap();
    buffer.seek(0).unwrap();
    assert_eq!(buffer.read_u16().unwrap(), 0x1234);
}

#[test]
fn test_write_u32() {
    let mut buffer = ByteBuffer::new();
    buffer.write_u32(0x12345678).unwrap();
    buffer.seek(0).unwrap();
    assert_eq!(buffer.read_u32().unwrap(), 0x12345678);
}

#[test]
fn test_write_qname() {
    let mut buffer = ByteBuffer::new();
    buffer.write_qname("example.com").unwrap();
    buffer.seek(0).unwrap();
    let mut qname = String::new();
    buffer.read_qname(&mut qname).unwrap();
    assert_eq!(qname, "example.com");
}

#[test]
fn test_set() {
    let mut buffer = ByteBuffer::new();
    buffer.set(0, 42).unwrap();
    assert_eq!(buffer.get(0).unwrap(), 42);
}

#[test]
fn test_set_u16() {
    let mut buffer = ByteBuffer::new();
    buffer.set_u16(0, 0x1234).unwrap();
    assert_eq!(buffer.read_u16().unwrap(), 0x1234);
}

#[test]
fn test_qname_case_folds_on_read() {
    let mut buffer = ByteBuffer::new();
    buffer.write_qname("ExAmPlE.CoM").unwrap();
    buffer.seek(0).unwrap();
    let mut qname = String::new();
    buffer.read_qname(&mut qname).unwrap();
    assert_eq!(qname, "example.com");
}

#[test]
fn test_write_at_frame_edge() {
    let mut buffer = ByteBuffer::new();
    buffer.seek(511).unwrap();
    assert_eq!(buffer.write(42), Ok(()));
    assert_eq!(buffer.position, 512);
    assert_eq!(buffer.write(43), Err(DnsError::BufferOverflow));
    buffer.seek(512).unwrap();
    assert_eq!(buffer.write(44), Err(DnsError::BufferOverflow));
    assert_eq!(buffer.get(511).unwrap(), 42);
}

#[test]
fn test_qname_five_pointers_ok() {
    let mut buffer = ByteBuffer::new();
    // a plain name at offset 50
    buffer.set(50, 3).unwrap();
    buffer.set(51, b'f').unwrap();
    buffer.set(52, b'o').unwrap();
    buffer.set(53, b'o').unwrap();
    buffer.set(54, 0).unwrap();
    // a chain of five compression pointers: 0 -> 10 -> 20 -> 30 -> 40 -> 50
    for (at, to) in [(40usize, 50u8), (30, 40), (20, 30), (10, 20), (0, 10)] {
        buffer.set(at, 0xC0).unwrap();
        buffer.set(at + 1, to).unwrap();
    }
    buffer.seek(0).unwrap();
    let mut qname = String::new();
    assert_eq!(buffer.read_qname(&mut qname), Ok(()));
    assert_eq!(qname, "foo");
    // the persistent cursor stops two bytes past the first pointer
    assert_eq!(buffer.position, 2);
}

#[test]
fn test_qname_six_pointers_malformed() {
    let mut buffer = ByteBuffer::new();
    buffer.set(50, 3).unwrap();
    buffer.set(51, b'f').unwrap();
    buffer.set(52, b'o').unwrap();
    buffer.set(53, b'o').unwrap();
    buffer.set(54, 0).unwrap();
    // six pointers: 60 -> 0 -> 10 -> 20 -> 30 -> 40 -> 50
    for (at, to) in [(40usize, 50u8), (30, 40), (20, 30), (10, 20), (0, 10), (60, 0)] {
        buffer.set(at, 0xC0).unwrap();
        buffer.set(at + 1, to).unwrap();
    }
    buffer.seek(60).unwrap();
    let mut qname = String::new();
    assert_eq!(buffer.read_qname(&mut qname), Err(DnsError::MalformedName));
}
