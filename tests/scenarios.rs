use benc::{
    marshal_bool, marshal_bytes, marshal_i16, marshal_i8, marshal_int, marshal_map, marshal_option, marshal_slice,
    marshal_string, marshal_u32, marshal_u8, marshal_uint, size_bytes, size_int, size_map, size_option, size_slice,
    size_string, size_u8, size_uint, skip_bytes, skip_i8, skip_int, skip_map, skip_option, skip_slice, skip_string,
    skip_u8, skip_uint, unmarshal_bytes_cropped, unmarshal_i16, unmarshal_i8, unmarshal_int, unmarshal_map,
    unmarshal_option, unmarshal_slice, unmarshal_string, unmarshal_u32, unmarshal_u8, unmarshal_uint, Error,
};
use std::collections::HashMap;

fn encode_uint(v: u64) -> Vec<u8> {
    let mut buf = vec![0u8; size_uint(v)];
    let mut writer = buf.as_mut_slice();
    marshal_uint(v, &mut writer).unwrap();
    assert!(writer.is_empty());
    buf
}

#[test]
fn varint_boundaries() {
    assert_eq!(encode_uint(0), vec![0x00]);
    assert_eq!(size_uint(0), 1);
    assert_eq!(encode_uint(1 << 63).len(), 10);
    assert_eq!(size_uint(u64::MAX), 10);
    assert_eq!(encode_uint(127), vec![0x7F]);
    assert_eq!(encode_uint(128), vec![0x80, 0x01]);
    let mut reader = &[0xFFu8, 0xFF, 0xFF, 0xFF, 0xFF, 0xFF, 0xFF, 0xFF, 0xFF, 0x01][..];
    assert_eq!(unmarshal_uint(&mut reader).unwrap(), u64::MAX);
    assert!(reader.is_empty());
    let eleven = [0x80u8; 11];
    assert_eq!(unmarshal_uint(&mut &eleven[..]).err(), Some(Error::VarintOverflow));
    assert_eq!(skip_uint(&mut &eleven[..]).err(), Some(Error::VarintOverflow));
}

#[test]
fn varint_failure_leaves_cursor() {
    let buf = [0x80u8, 0x80];
    let mut reader = &buf[..];
    assert_eq!(unmarshal_uint(&mut reader).err(), Some(Error::BufferTooSmall));
    assert_eq!(reader.len(), 2);
}

#[test]
fn signed_and_unsigned_examples() {
    let mut buf = vec![0u8; size_int(-2)];
    let mut writer = buf.as_mut_slice();
    marshal_int(-2, &mut writer).unwrap();
    assert_eq!(buf, vec![0x03]);
    // 7-bit groups, least significant first: 150 = 0x16 + 1 * 128.
    assert_eq!(encode_uint(150), vec![0x96, 0x01]);
    assert_eq!(encode_uint(300), vec![0xAC, 0x02]);
    let mut reader = &[0x03u8][..];
    assert_eq!(unmarshal_int(&mut reader).unwrap(), -2);
    let mut reader = &[0x03u8][..];
    skip_int(&mut reader).unwrap();
    assert!(reader.is_empty());
}

#[test]
fn hello_world_string() {
    let s = "Hello World!";
    let mut buf = vec![0u8; size_string(s)];
    let mut writer = buf.as_mut_slice();
    marshal_string(s, &mut writer).unwrap();
    let mut expected = vec![12u8];
    expected.extend_from_slice(s.as_bytes());
    assert_eq!(buf, expected);
    let mut reader = buf.as_slice();
    assert_eq!(unmarshal_string(&mut reader).unwrap(), "Hello World!");
    assert!(reader.is_empty());
}

#[test]
fn multibyte_string_round_trip() {
    let s = "zaï ✓";
    let mut buf = vec![0u8; size_string(s)];
    let mut writer = buf.as_mut_slice();
    marshal_string(s, &mut writer).unwrap();
    assert_eq!(buf[0] as usize, s.len());
    let mut reader = buf.as_slice();
    assert_eq!(unmarshal_string(&mut reader).unwrap(), s);
}

#[test]
fn truncated_string_is_too_small_not_invalid() {
    let mut reader = &[3u8, 0xC3, 0x28][..];
    assert_eq!(unmarshal_string(&mut reader).err(), Some(Error::BufferTooSmall));
    let mut reader = &[2u8, 0xC3, 0x28][..];
    skip_string(&mut reader).unwrap();
    assert!(reader.is_empty());
}

#[test]
fn bytes_layout() {
    let b = [9u8, 8, 7];
    let mut buf = vec![0u8; size_bytes(&b)];
    let mut writer = buf.as_mut_slice();
    marshal_bytes(&b, &mut writer).unwrap();
    assert_eq!(buf, vec![3, 9, 8, 7]);
    let mut reader = buf.as_slice();
    assert_eq!(unmarshal_bytes_cropped(&mut reader).unwrap(), &b[..]);
    let mut reader = buf.as_slice();
    skip_bytes(&mut reader).unwrap();
    assert!(reader.is_empty());
}

#[test]
fn fixed_width_little_endian() {
    let mut buf = vec![0u8; 4];
    let mut writer = buf.as_mut_slice();
    marshal_u32(0x0102_0304, &mut writer).unwrap();
    assert_eq!(buf, vec![0x04, 0x03, 0x02, 0x01]);
    let mut reader = buf.as_slice();
    assert_eq!(unmarshal_u32(&mut reader).unwrap(), 0x0102_0304);

    let mut buf = vec![0u8; 2];
    let mut writer = buf.as_mut_slice();
    marshal_i16(-2, &mut writer).unwrap();
    assert_eq!(buf, vec![0xFE, 0xFF]);
    let mut reader = buf.as_slice();
    assert_eq!(unmarshal_i16(&mut reader).unwrap(), -2);

    let mut buf = vec![0u8; 1];
    let mut writer = buf.as_mut_slice();
    marshal_i8(i8::MIN, &mut writer).unwrap();
    assert_eq!(buf, vec![0x80]);
    let mut reader = buf.as_slice();
    assert_eq!(unmarshal_i8(&mut reader).unwrap(), i8::MIN);
    let mut reader = buf.as_slice();
    skip_i8(&mut reader).unwrap();
    assert!(reader.is_empty());
}

#[test]
fn bool_bytes() {
    let mut buf = vec![9u8; 2];
    let mut writer = buf.as_mut_slice();
    marshal_bool(true, &mut writer).unwrap();
    marshal_bool(false, &mut writer).unwrap();
    assert_eq!(buf, vec![1, 0]);
}

#[test]
fn corrupted_terminator_fails_both_ways() {
    let slice = vec![7u8];
    let size = size_slice(&slice, |_| size_u8());
    let mut buf = vec![0u8; size];
    let mut writer = buf.as_mut_slice();
    marshal_slice(&slice, &mut writer, |v, w| marshal_u8(*v, w)).unwrap();
    assert_eq!(buf, vec![1, 7, 1, 1, 1, 1]);
    buf[size - 1] = 2;
    assert_eq!(unmarshal_slice(&mut buf.as_slice(), unmarshal_u8).err(), Some(Error::MissingTerminator));
    assert_eq!(skip_slice(&mut buf.as_slice(), skip_u8).err(), Some(Error::MissingTerminator));

    let mut map = HashMap::new();
    map.insert(3u8, 4u8);
    let size = size_map(&map, |_| size_u8(), |_| size_u8());
    let mut buf = vec![0u8; size];
    let mut writer = buf.as_mut_slice();
    marshal_map(&map, &mut writer, |k, w| marshal_u8(*k, w), |v, w| marshal_u8(*v, w)).unwrap();
    assert_eq!(buf, vec![1, 3, 4, 1, 1, 1, 1]);
    buf[size - 1] = 2;
    assert_eq!(skip_map(&mut buf.as_slice(), skip_u8, skip_u8).err(), Some(Error::MissingTerminator));
}

#[test]
fn empty_sequence_is_count_and_terminator() {
    let empty: Vec<u8> = Vec::new();
    let mut buf = vec![0u8; size_slice(&empty, |_| size_u8())];
    let mut writer = buf.as_mut_slice();
    marshal_slice(&empty, &mut writer, |v, w| marshal_u8(*v, w)).unwrap();
    assert_eq!(buf, vec![0, 1, 1, 1, 1]);
    let back: Vec<u8> = unmarshal_slice(&mut buf.as_slice(), unmarshal_u8).unwrap();
    assert!(back.is_empty());

    let map: HashMap<u8, u8> = HashMap::new();
    let mut buf = vec![0u8; size_map(&map, |_| size_u8(), |_| size_u8())];
    let mut writer = buf.as_mut_slice();
    marshal_map(&map, &mut writer, |k, w| marshal_u8(*k, w), |v, w| marshal_u8(*v, w)).unwrap();
    assert_eq!(buf, vec![0, 1, 1, 1, 1]);
    let back: HashMap<u8, u8> = unmarshal_map(&mut buf.as_slice(), unmarshal_u8, unmarshal_u8).unwrap();
    assert!(back.is_empty());
}

#[test]
fn duplicate_map_keys_last_wins() {
    let buf = [2u8, 5, 1, 5, 2, 1, 1, 1, 1];
    let map = unmarshal_map(&mut &buf[..], unmarshal_u8, unmarshal_u8).unwrap();
    assert_eq!(map.len(), 1);
    assert_eq!(map[&5], 2);
}

#[test]
fn element_failure_stops_sequence() {
    let buf = [2u8, 3, 0x80];
    assert_eq!(unmarshal_slice(&mut &buf[..], unmarshal_uint).err(), Some(Error::BufferTooSmall));
    assert_eq!(skip_slice(&mut &buf[..], skip_uint).err(), Some(Error::BufferTooSmall));
}

#[test]
fn option_layout() {
    let v = Some(5u8);
    let mut buf = vec![0u8; size_option(&v, |_| size_u8())];
    let mut writer = buf.as_mut_slice();
    marshal_option(&v, &mut writer, |x, w| marshal_u8(*x, w)).unwrap();
    assert_eq!(buf, vec![1, 5]);
    let none: Option<u8> = None;
    let mut buf = vec![0u8; size_option(&none, |_| size_u8())];
    let mut writer = buf.as_mut_slice();
    marshal_option(&none, &mut writer, |x, w| marshal_u8(*x, w)).unwrap();
    assert_eq!(buf, vec![0]);
    let mut reader = &[2u8, 5][..];
    assert_eq!(unmarshal_option(&mut reader, unmarshal_u8).unwrap(), None);
    assert_eq!(reader, &[5u8][..]);
    let mut reader = &[1u8, 5][..];
    skip_option(&mut reader, skip_u8).unwrap();
    assert!(reader.is_empty());
    assert_eq!(unmarshal_option(&mut &[][..], unmarshal_u8).err(), Some(Error::BufferTooSmall));
}
