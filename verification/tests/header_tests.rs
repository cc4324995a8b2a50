use tile_header::header::{load, FileVersion, Header, LoadError, HEADER_LEN};
use tile_header::le32::{push_i32_le, read_i32_le};

/// A 280-byte buffer with version = (2, -2), an all-zero reserved region,
/// tile_count = 5 and tile_table_offset = 272, plus four trailing bytes.
fn sample_buffer() -> Vec<u8> {
    let mut buf = vec![0u8; 280];
    buf[0] = 0x02;
    buf[4] = 0xFE;
    buf[5] = 0xFF;
    buf[6] = 0xFF;
    buf[7] = 0xFF;
    buf[268] = 0x05;
    buf[272] = 0x10;
    buf[273] = 0x01;
    buf
}

#[test]
fn decodes_sample_buffer() {
    let buf = sample_buffer();
    let header = load(&buf).unwrap();
    assert_eq!(
        header,
        Header {
            version: FileVersion { first: 2, second: -2 },
            tile_count: 5,
            tile_table_offset: 272,
        }
    );
}

#[test]
fn reports_corrupt_byte_at_offset_100() {
    let mut buf = sample_buffer();
    buf[100] = 0x01;
    assert_eq!(load(&buf), Err(LoadError::CorruptHeader { offset: 100 }));
}

#[test]
fn rejects_short_buffer() {
    let buf = vec![0u8; 200];
    assert_eq!(load(&buf), Err(LoadError::TruncatedHeader));
}

#[test]
fn rejects_empty_buffer() {
    let buf: Vec<u8> = Vec::new();
    assert_eq!(load(&buf), Err(LoadError::TruncatedHeader));
}

#[test]
fn rejects_buffer_one_byte_short() {
    let buf = vec![0u8; HEADER_LEN - 1];
    assert_eq!(load(&buf), Err(LoadError::TruncatedHeader));
}

#[test]
fn accepts_exact_length_buffer() {
    let buf = vec![0u8; HEADER_LEN];
    let header = load(&buf).unwrap();
    assert_eq!(
        header,
        Header {
            version: FileVersion { first: 0, second: 0 },
            tile_count: 0,
            tile_table_offset: 0,
        }
    );
}

#[test]
fn reports_corrupt_byte_at_reserved_start() {
    let mut buf = sample_buffer();
    buf[8] = 0xFF;
    assert_eq!(load(&buf), Err(LoadError::CorruptHeader { offset: 8 }));
}

#[test]
fn reports_corrupt_byte_at_reserved_last() {
    let mut buf = sample_buffer();
    buf[267] = 0x01;
    assert_eq!(load(&buf), Err(LoadError::CorruptHeader { offset: 267 }));
}

#[test]
fn reports_lowest_of_several_corrupt_bytes() {
    let mut buf = sample_buffer();
    buf[42] = 0x07;
    buf[200] = 0x09;
    buf[266] = 0xFF;
    assert_eq!(load(&buf), Err(LoadError::CorruptHeader { offset: 42 }));
}

#[test]
fn bytes_outside_reserved_region_are_not_corruption() {
    let mut buf = sample_buffer();
    buf[276] = 0xAB;
    buf[279] = 0xCD;
    assert!(load(&buf).is_ok());
}

#[test]
fn decodes_negative_catalog_fields() {
    let mut buf = vec![0u8; HEADER_LEN];
    for i in 268..276 {
        buf[i] = 0xFF;
    }
    let header = load(&buf).unwrap();
    assert_eq!(header.tile_count, -1);
    assert_eq!(header.tile_table_offset, -1);
}

#[test]
fn decodes_extreme_field_values() {
    let mut buf = vec![0u8; HEADER_LEN];
    buf[3] = 0x80;
    buf[4] = 0xFF;
    buf[5] = 0xFF;
    buf[6] = 0xFF;
    buf[7] = 0x7F;
    let header = load(&buf).unwrap();
    assert_eq!(header.version.first, i32::MIN);
    assert_eq!(header.version.second, i32::MAX);
}

#[test]
fn encodes_sample_header_exactly() {
    let header = Header {
        version: FileVersion { first: 2, second: -2 },
        tile_count: 5,
        tile_table_offset: 272,
    };
    let bytes = header.encode();
    let mut expected = vec![0u8; HEADER_LEN];
    expected[0] = 0x02;
    expected[4] = 0xFE;
    expected[5] = 0xFF;
    expected[6] = 0xFF;
    expected[7] = 0xFF;
    expected[268] = 0x05;
    expected[272] = 0x10;
    expected[273] = 0x01;
    assert_eq!(bytes, expected);
}

#[test]
fn round_trips_sample_header() {
    let header = Header {
        version: FileVersion { first: 2, second: -2 },
        tile_count: 5,
        tile_table_offset: 272,
    };
    assert_eq!(load(&header.encode()), Ok(header));
}

#[test]
fn round_trips_extreme_header() {
    let header = Header {
        version: FileVersion { first: i32::MIN, second: i32::MAX },
        tile_count: -1,
        tile_table_offset: 0,
    };
    assert_eq!(load(&header.encode()), Ok(header));
}

#[test]
fn reads_little_endian_i32() {
    let bytes = [0x10u8, 0x01, 0x00, 0x00, 0xFE, 0xFF, 0xFF, 0xFF];
    assert_eq!(read_i32_le(&bytes, 0), 272);
    assert_eq!(read_i32_le(&bytes, 4), -2);
}

#[test]
fn pushes_little_endian_i32() {
    let mut out: Vec<u8> = Vec::new();
    push_i32_le(&mut out, -2);
    push_i32_le(&mut out, 272);
    assert_eq!(out, vec![0xFE, 0xFF, 0xFF, 0xFF, 0x10, 0x01, 0x00, 0x00]);
}
