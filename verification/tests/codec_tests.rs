use pak_rs::codec::{write_i32, write_string, write_u16, PakStream};
use pak_rs::raw::{read_header, write_header, Chunk, Info, Property};
use pak_rs::PakError;

#[test]
fn header_roundtrip() {
    let mut buf: Vec<u8> = Vec::new();
    write_header(&mut buf).unwrap();
    assert_eq!(buf, vec![2u8, 1u8]);
    let mut stream = PakStream::new(buf);
    assert!(read_header(&mut stream).is_ok());
}

#[test]
fn header_reversed_is_corrupt() {
    let mut stream = PakStream::new(vec![1u8, 2u8]);
    assert_eq!(read_header(&mut stream), Err(PakError::CorruptHeader));
}

#[test]
fn header_eof_is_corrupt() {
    let mut stream = PakStream::new(vec![2u8]);
    assert_eq!(read_header(&mut stream), Err(PakError::CorruptHeader));
}

#[test]
fn u16_is_big_endian() {
    let mut buf: Vec<u8> = Vec::new();
    write_u16(&mut buf, 0x1234);
    assert_eq!(buf, vec![0x12u8, 0x34u8]);
    let mut stream = PakStream::new(buf);
    assert_eq!(stream.read_u16(), Ok(0x1234u16));
}

#[test]
fn i32_roundtrip_negative() {
    let mut buf: Vec<u8> = Vec::new();
    write_i32(&mut buf, -7);
    write_i32(&mut buf, 0x01020304);
    let mut stream = PakStream::new(buf);
    assert_eq!(stream.read_i32(), Ok(-7i32));
    assert_eq!(stream.read_i32(), Ok(0x01020304i32));
    assert_eq!(stream.read_i32(), Err(PakError::TruncatedStream));
}

#[test]
fn read_u8_advances() {
    let mut stream = PakStream::new(vec![9u8, 8u8]);
    assert_eq!(stream.read_u8(), Ok(9u8));
    assert_eq!(stream.read_u8(), Ok(8u8));
    assert_eq!(stream.read_u8(), Err(PakError::TruncatedStream));
}

#[test]
fn string_roundtrip_multibyte() {
    let mut buf: Vec<u8> = Vec::new();
    write_string(&mut buf, "héllo").unwrap();
    // 2-byte length prefix counts bytes, not characters
    assert_eq!(buf[0], 0);
    assert_eq!(buf[1], 6);
    let mut stream = PakStream::new(buf);
    let s = stream.read_string().unwrap();
    assert_eq!(s, "héllo".to_string());
    assert_eq!(s.chars().count(), 5);
}

#[test]
fn string_invalid_utf8_is_invalid_encoding() {
    let mut stream = PakStream::new(vec![0u8, 2u8, 0xffu8, 0xfeu8]);
    assert_eq!(stream.read_string(), Err(PakError::InvalidEncoding));
}

#[test]
fn string_short_payload_is_truncated() {
    let mut stream = PakStream::new(vec![0u8, 5u8, b'a', b'b']);
    assert_eq!(stream.read_string(), Err(PakError::TruncatedStream));
}

#[test]
fn string_too_long_to_encode() {
    let long = "x".repeat(70000);
    let mut buf: Vec<u8> = Vec::new();
    assert_eq!(write_string(&mut buf, long.as_str()), Err(PakError::InvalidEncoding));
    assert!(buf.is_empty());
}

#[test]
fn property_roundtrip() {
    let p = Property::new("colour".to_string(), "vert".to_string());
    let mut buf: Vec<u8> = Vec::new();
    p.write(&mut buf).unwrap();
    let mut stream = PakStream::new(buf);
    let q = Property::from(&mut stream).unwrap();
    assert_eq!(q.key, "colour".to_string());
    assert_eq!(q.value, "vert".to_string());
}

#[test]
fn chunk_roundtrip() {
    let c = Chunk::new("maps/zone.bin".to_string(), -3, 117);
    let mut buf: Vec<u8> = Vec::new();
    c.write(&mut buf).unwrap();
    let mut stream = PakStream::new(buf);
    let d = Chunk::from(&mut stream).unwrap();
    assert_eq!(d.full_file_name, "maps/zone.bin".to_string());
    assert_eq!(d.offset, -3);
    assert_eq!(d.size, 117);
}

#[test]
fn info_roundtrip() {
    let i = Info::new(2, 900, 520, 3, 610, 4);
    let mut buf: Vec<u8> = Vec::new();
    i.write(&mut buf).unwrap();
    assert_eq!(buf.len(), 24);
    let mut stream = PakStream::new(buf);
    let j = Info::from(&mut stream).unwrap();
    assert_eq!(i, j);
}

#[test]
fn info_offsets_promote_unsigned() {
    // offset bytes FF FF FF FF mean 4294967295, not a sign-extended -1
    let mut buf: Vec<u8> = Vec::new();
    Info::new(0xffffffff, 0, 0x80000000, 0, 7, 0).write(&mut buf).unwrap();
    assert_eq!(&buf[0..4], &[0xffu8, 0xffu8, 0xffu8, 0xffu8]);
    let mut stream = PakStream::new(buf);
    let j = Info::from(&mut stream).unwrap();
    assert_eq!(j.offset, 4294967295u64);
    assert_eq!(j.chunks_offset, 2147483648u64);
    assert_eq!(j.properties_offset, 7u64);
}

#[test]
fn info_short_stream_is_truncated() {
    let mut stream = PakStream::new(vec![0u8; 23]);
    assert_eq!(Info::from(&mut stream), Err(PakError::TruncatedStream));
}

#[test]
fn info_read_from_end() {
    // the trailer is found from the end wherever the position is
    let mut buf: Vec<u8> = vec![0xaau8; 10];
    Info::new(1, 2, 3, 4, 5, 6).write(&mut buf).unwrap();
    let mut stream = PakStream::new(buf);
    stream.set_pos(7);
    let j = Info::from(&mut stream).unwrap();
    assert_eq!(j.offset, 1);
    assert_eq!(j.properties_count, 6);
}

#[test]
fn set_pos_then_read() {
    let mut stream = PakStream::new(vec![1u8, 2u8, 3u8, 4u8]);
    stream.set_pos(2);
    assert_eq!(stream.read_u8(), Ok(3u8));
    stream.set_pos(100);
    assert_eq!(stream.read_u8(), Err(PakError::TruncatedStream));
}
