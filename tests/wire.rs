use simulation::wire::{decode_positions, read_le_u16};

#[test]
fn reads_little_endian() {
    assert_eq!(read_le_u16(0x34, 0x12), 0x1234);
    assert_eq!(read_le_u16(0xff, 0xff), 65535);
    assert_eq!(read_le_u16(0, 0), 0);
}

#[test]
fn decodes_whole_records_only() {
    let mut data: Vec<u8> = vec![9, 9, 9, 9, 0x01, 0x00, 0xff, 0xff];
    data.extend_from_slice(&[0, 0, 0, 0, 0x00, 0x80, 0x10, 0x00]);
    data.extend_from_slice(&[1, 2, 3]);
    assert_eq!(decode_positions(&data), vec![(1, 65535), (0x8000, 16)]);
    assert_eq!(decode_positions(&[1, 2, 3, 4, 5, 6, 7]), vec![]);
    assert_eq!(decode_positions(&[]), vec![]);
}
