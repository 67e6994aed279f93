use cr2::error::RawFileError;
use cr2::tag::{decode_tag, element_size, tag_name, DecodedTag, TagPayload, TagValue};

/// Builds a 12-byte tag record from its four fields.
fn record(id: u16, code: u16, count: u32, field: [u8; 4]) -> Vec<u8> {
    let mut r = Vec::new();
    r.extend_from_slice(&id.to_le_bytes());
    r.extend_from_slice(&code.to_le_bytes());
    r.extend_from_slice(&count.to_le_bytes());
    r.extend_from_slice(&field);
    r
}

#[test]
fn size_table_covers_the_twelve_types() {
    let expected: [(u16, u64); 12] = [
        (1, 1),
        (2, 1),
        (3, 2),
        (4, 4),
        (5, 8),
        (6, 1),
        (7, 1),
        (8, 2),
        (9, 4),
        (10, 8),
        (11, 4),
        (12, 8),
    ];
    for (code, size) in expected {
        assert_eq!(Ok(size), element_size(code));
    }
}

#[test]
fn size_table_rejects_every_other_code() {
    assert_eq!(Err(RawFileError::TypeError(0)), element_size(0));
    assert_eq!(Err(RawFileError::TypeError(13)), element_size(13));
    assert_eq!(Err(RawFileError::TypeError(1000)), element_size(1000));
    assert_eq!(Err(RawFileError::TypeError(u16::MAX)), element_size(u16::MAX));
}

#[test]
fn tag_names_resolve_and_unknown_ids_keep_the_placeholder() {
    assert_eq!("width", tag_name(0x100));
    assert_eq!("strip_cr2_slice", tag_name(0xc640));
    assert_eq!("date_time", tag_name(0x132));
    assert_eq!("???", tag_name(0x1234));
}

#[test]
fn inline_u32_decodes_to_one() {
    // type code 4 (u32), count 1, inline value bytes 01 00 00 00;
    // the surrounding data is empty, so any attempted read would fail
    let rec = record(0x100, 4, 1, [0x01, 0x00, 0x00, 0x00]);
    let t = decode_tag(&[], &rec).unwrap();
    assert_eq!(t.id, 0x100);
    assert_eq!(t.name, "width");
    assert_eq!(t.payload, TagPayload::Values(vec![TagValue::Unsigned(1)]));
}

#[test]
fn ascii_tag_accumulates_one_string() {
    // type code 2 (ASCII), count 5, field = offset 4 of the 5 bytes "Canon"
    let mut data = vec![0u8; 4];
    data.extend_from_slice(b"Canon");
    let rec = record(0x10f, 2, 5, [0x04, 0x00, 0x00, 0x00]);
    let t = decode_tag(&data, &rec).unwrap();
    assert_eq!(t.name, "make");
    assert_eq!(t.payload, TagPayload::Text(String::from("Canon")));
}

#[test]
fn boundary_total_four_is_inline() {
    // two u16 elements: total is exactly 4, so the field holds the values
    // themselves; the bytes at file offset 0x0200 differ, to show that no
    // out-of-line read happens
    let mut data = vec![0xeeu8; 0x300];
    data[0x200] = 0x99;
    let rec = record(0x8000, 3, 2, [0x00, 0x02, 0x34, 0x12]);
    let t = decode_tag(&data, &rec).unwrap();
    assert_eq!(t.name, "???");
    assert_eq!(
        t.payload,
        TagPayload::Values(vec![TagValue::Unsigned(0x0200), TagValue::Unsigned(0x1234)])
    );
}

#[test]
fn boundary_total_five_reads_out_of_line() {
    // five u8 elements: total is 5, one byte past the inline field, so the
    // field is an offset and exactly five bytes are read there
    let mut data = vec![0u8; 16];
    data[8..13].copy_from_slice(&[10, 20, 30, 40, 50]);
    let rec = record(0x8000, 1, 5, [0x08, 0x00, 0x00, 0x00]);
    let t = decode_tag(&data, &rec).unwrap();
    assert_eq!(
        t.payload,
        TagPayload::Values(vec![
            TagValue::Unsigned(10),
            TagValue::Unsigned(20),
            TagValue::Unsigned(30),
            TagValue::Unsigned(40),
            TagValue::Unsigned(50),
        ])
    );
}

#[test]
fn out_of_line_block_past_the_end_is_a_seek_error() {
    // five bytes wanted at offset 12 of a 16-byte file: one byte short
    let data = vec![0u8; 16];
    let rec = record(0x8000, 1, 5, [0x0c, 0x00, 0x00, 0x00]);
    assert_eq!(Err(RawFileError::Seek(12)), decode_tag(&data, &rec));
}

#[test]
fn unknown_type_code_is_a_type_error() {
    let rec = record(0x100, 13, 1, [0, 0, 0, 0]);
    assert_eq!(Err(RawFileError::TypeError(13)), decode_tag(&[], &rec));
    let rec = record(0x100, 0, 0, [0, 0, 0, 0]);
    assert_eq!(Err(RawFileError::TypeError(0)), decode_tag(&[], &rec));
}

#[test]
fn signed_and_rational_types_widen() {
    // type 8 (i16), count 1, inline: -2 widens to Signed(-2)
    let rec = record(0x8000, 8, 1, [0xfe, 0xff, 0x00, 0x00]);
    let t = decode_tag(&[], &rec).unwrap();
    assert_eq!(t.payload, TagPayload::Values(vec![TagValue::Signed(-2)]));

    // type 6 (i8), count 2, inline
    let rec = record(0x8000, 6, 2, [0x80, 0x7f, 0x00, 0x00]);
    let t = decode_tag(&[], &rec).unwrap();
    assert_eq!(
        t.payload,
        TagPayload::Values(vec![TagValue::Signed(-128), TagValue::Signed(127)])
    );

    // type 5 (rational), count 1: numerator 3, denominator 2, packed low-half
    // numerator into one u64
    let mut data = vec![0u8; 4];
    data.extend_from_slice(&3u32.to_le_bytes());
    data.extend_from_slice(&2u32.to_le_bytes());
    let rec = record(0x11a, 5, 1, [0x04, 0x00, 0x00, 0x00]);
    let t = decode_tag(&data, &rec).unwrap();
    assert_eq!(t.name, "x_resolution");
    assert_eq!(t.payload, TagPayload::Values(vec![TagValue::U64(0x0000_0002_0000_0003)]));
}

#[test]
fn float_types_keep_their_raw_bits() {
    // type 11 (f32), count 1, inline: the bits of 1.0f32
    let bits32 = 1.0f32.to_bits();
    let rec = record(0x8000, 11, 1, bits32.to_le_bytes());
    let t = decode_tag(&[], &rec).unwrap();
    assert_eq!(t.payload, TagPayload::Values(vec![TagValue::F32Bits(bits32)]));

    // type 12 (f64), count 1, out of line: the bits of -2.5f64
    let bits64 = (-2.5f64).to_bits();
    let mut data = vec![0u8; 4];
    data.extend_from_slice(&bits64.to_le_bytes());
    let rec = record(0x8000, 12, 1, [0x04, 0x00, 0x00, 0x00]);
    let t = decode_tag(&data, &rec).unwrap();
    assert_eq!(t.payload, TagPayload::Values(vec![TagValue::F64Bits(bits64)]));
}

#[test]
fn zero_count_yields_an_empty_value_list() {
    let rec = record(0x8000, 4, 0, [0, 0, 0, 0]);
    let t: DecodedTag = decode_tag(&[], &rec).unwrap();
    assert_eq!(t.payload, TagPayload::Values(vec![]));
}
