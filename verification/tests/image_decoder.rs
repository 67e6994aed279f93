use cr2::error::{FormatMismatch, RawFileError, UnsupportedFeature};
use cr2::image::{decode, read_header, read_ifd, ByteOrder};
use cr2::tag::{TagPayload, TagValue};

/// Builds the 16-byte CR2 header.
fn header(first_ifd: u32, raw_offset: u32) -> Vec<u8> {
    let mut h = Vec::new();
    h.extend_from_slice(b"II");
    h.extend_from_slice(&0x002au16.to_le_bytes());
    h.extend_from_slice(&first_ifd.to_le_bytes());
    h.extend_from_slice(b"CR");
    h.push(2);
    h.push(0);
    h.extend_from_slice(&raw_offset.to_le_bytes());
    h
}

/// Builds a 12-byte tag record.
fn tag(id: u16, code: u16, count: u32, field: [u8; 4]) -> Vec<u8> {
    let mut r = Vec::new();
    r.extend_from_slice(&id.to_le_bytes());
    r.extend_from_slice(&code.to_le_bytes());
    r.extend_from_slice(&count.to_le_bytes());
    r.extend_from_slice(&field);
    r
}

/// Builds an IFD: tag count, the records, then the next-directory pointer.
fn ifd(tags: &[Vec<u8>], next: u32) -> Vec<u8> {
    let mut d = Vec::new();
    d.extend_from_slice(&(tags.len() as u16).to_le_bytes());
    for t in tags {
        d.extend_from_slice(t);
    }
    d.extend_from_slice(&next.to_le_bytes());
    d
}

#[test]
fn default_byte_order_is_little_endian() {
    assert_eq!(ByteOrder::default(), ByteOrder::LittleEndian);
}

#[test]
fn minimal_file_decodes_to_one_empty_directory() {
    // header first-IFD offset 0x10, raw offset 0x4000; one IFD with zero
    // tags and a zero next pointer
    let mut data = header(0x10, 0x4000);
    data.extend_from_slice(&ifd(&[], 0));
    let img = decode(&data, true).unwrap();
    assert_eq!(img.raw_offset, 0x4000);
    assert_eq!(img.byte_order, ByteOrder::LittleEndian);
    assert_eq!(img.ifds.len(), 1);
    assert_eq!(img.ifds[0].offset, 0x10);
    assert_eq!(img.ifds[0].entries.len(), 0);
}

#[test]
fn big_endian_marker_is_unsupported_not_malformed() {
    let mut data = header(0x10, 0x4000);
    data[0] = b'M';
    data[1] = b'M';
    data.extend_from_slice(&ifd(&[], 0));
    assert_eq!(
        Err(RawFileError::NotImplemented(UnsupportedFeature::BigEndian)),
        decode(&data, true)
    );
}

#[test]
fn unknown_marker_is_a_format_error_naming_it() {
    let mut data = header(0x10, 0x4000);
    data[0] = b'X';
    data[1] = b'X';
    data.extend_from_slice(&ifd(&[], 0));
    assert_eq!(
        Err(RawFileError::FileFormat(FormatMismatch::ByteOrderMarker(b'X', b'X'))),
        decode(&data, true)
    );
}

#[test]
fn wrong_tiff_magic_is_a_format_error() {
    let mut data = header(0x10, 0x4000);
    data[2] = 0x2b;
    assert_eq!(
        Err(RawFileError::FileFormat(FormatMismatch::TiffMagic(0x2b))),
        decode(&data, true)
    );
}

#[test]
fn wrong_cr2_signature_is_a_format_error() {
    let mut data = header(0x10, 0x4000);
    data[8] = b'T';
    data[9] = b'F';
    assert_eq!(
        Err(RawFileError::FileFormat(FormatMismatch::Cr2Magic(b'T', b'F'))),
        decode(&data, true)
    );
}

#[test]
fn unsupported_version_carries_the_observed_bytes() {
    let mut data = header(0x10, 0x4000);
    data[10] = 3;
    data[11] = 1;
    assert_eq!(
        Err(RawFileError::NotImplemented(UnsupportedFeature::Version(3, 1))),
        decode(&data, true)
    );
}

#[test]
fn short_data_is_a_seek_error_at_zero() {
    assert_eq!(Err(RawFileError::Seek(0)), decode(&[], true));
    assert_eq!(Err(RawFileError::Seek(0)), decode(&header(0x10, 0)[..15], true));
    assert_eq!(Ok((0x10, 0x4000)), read_header(&header(0x10, 0x4000)));
}

#[test]
fn first_ifd_offset_past_the_end_is_a_seek_error() {
    let data = header(0x4000, 0);
    assert_eq!(Err(RawFileError::Seek(0x4000)), decode(&data, true));
}

#[test]
fn tags_are_decoded_in_file_order() {
    // width 1920 (u16 widened), height 1080, and a make string out of line
    let make_off: u32 = 16 + 2 + 3 * 12 + 4;
    let tags = vec![
        tag(0x100, 3, 1, [0x80, 0x07, 0, 0]),
        tag(0x101, 3, 1, [0x38, 0x04, 0, 0]),
        tag(0x10f, 2, 6, make_off.to_le_bytes()),
    ];
    let mut data = header(0x10, 0x1234);
    data.extend_from_slice(&ifd(&tags, 0));
    data.extend_from_slice(b"Canon\0");
    let img = decode(&data, true).unwrap();
    assert_eq!(img.ifds.len(), 1);
    let entries = &img.ifds[0].entries;
    assert_eq!(entries.len(), 3);
    assert_eq!(entries[0].name, "width");
    assert_eq!(entries[0].payload, TagPayload::Values(vec![TagValue::Unsigned(1920)]));
    assert_eq!(entries[1].name, "height");
    assert_eq!(entries[1].payload, TagPayload::Values(vec![TagValue::Unsigned(1080)]));
    assert_eq!(entries[2].name, "make");
    assert_eq!(entries[2].payload, TagPayload::Text(String::from("Canon\0")));
}

#[test]
fn chain_of_directories_is_walked_in_order() {
    let second: u32 = 16 + 6;
    let mut data = header(0x10, 0);
    data.extend_from_slice(&ifd(&[], second));
    data.extend_from_slice(&ifd(&[tag(0x112, 3, 1, [1, 0, 0, 0])], 0));
    let img = decode(&data, true).unwrap();
    assert_eq!(img.ifds.len(), 2);
    assert_eq!(img.ifds[0].offset, 0x10);
    assert_eq!(img.ifds[1].offset, second);
    assert_eq!(img.ifds[1].entries[0].name, "orientation");
}

#[test]
fn looping_chain_terminates_at_the_revisited_offset() {
    // the second directory's next pointer leads back to the first: the walk
    // must stop after visiting each directory once
    let second: u32 = 16 + 6;
    let mut data = header(0x10, 0);
    data.extend_from_slice(&ifd(&[], second));
    data.extend_from_slice(&ifd(&[], 0x10));
    let img = decode(&data, true).unwrap();
    assert_eq!(img.ifds.len(), 2);
    assert_eq!(img.ifds[0].offset, 0x10);
    assert_eq!(img.ifds[1].offset, second);
}

#[test]
fn self_looping_directory_terminates() {
    let mut data = header(0x10, 0);
    data.extend_from_slice(&ifd(&[], 0x10));
    let img = decode(&data, true).unwrap();
    assert_eq!(img.ifds.len(), 1);
}

#[test]
fn decoding_twice_yields_identical_images() {
    let second: u32 = 16 + 2 + 12 + 4;
    let mut data = header(0x10, 0x9999);
    data.extend_from_slice(&ifd(&[tag(0x103, 3, 1, [6, 0, 0, 0])], second));
    data.extend_from_slice(&ifd(&[tag(0x128, 3, 1, [2, 0, 0, 0])], 0));
    let once = decode(&data, true).unwrap();
    let twice = decode(&data, true).unwrap();
    assert_eq!(once, twice);
}

#[test]
fn strict_mode_propagates_a_bad_tag() {
    let tags = vec![
        tag(0x100, 13, 1, [0, 0, 0, 0]),
        tag(0x101, 3, 1, [0x38, 0x04, 0, 0]),
    ];
    let mut data = header(0x10, 0);
    data.extend_from_slice(&ifd(&tags, 0));
    assert_eq!(Err(RawFileError::TypeError(13)), decode(&data, true));
}

#[test]
fn lenient_mode_skips_a_bad_tag_and_keeps_the_rest() {
    let tags = vec![
        tag(0x100, 13, 1, [0, 0, 0, 0]),
        tag(0x101, 3, 1, [0x38, 0x04, 0, 0]),
    ];
    let mut data = header(0x10, 0);
    data.extend_from_slice(&ifd(&tags, 0));
    let img = decode(&data, false).unwrap();
    assert_eq!(img.ifds.len(), 1);
    let entries = &img.ifds[0].entries;
    assert_eq!(entries.len(), 1);
    assert_eq!(entries[0].name, "height");
}

#[test]
fn truncated_tag_table_is_a_seek_error_in_strict_mode() {
    // the directory claims two tags but the data ends inside the first
    let mut data = header(0x10, 0);
    data.extend_from_slice(&2u16.to_le_bytes());
    data.extend_from_slice(&[0u8; 4]);
    assert_eq!(Err(RawFileError::Seek(0x12)), decode(&data, true));
}

#[test]
fn directory_can_be_read_without_tag_expansion() {
    let tags = vec![tag(0x100, 3, 1, [0x80, 0x07, 0, 0])];
    let mut data = header(0x10, 0);
    data.extend_from_slice(&ifd(&tags, 0x99));
    let (d, next) = read_ifd(&data, 0x10, false, true).unwrap();
    assert_eq!(d.offset, 0x10);
    assert_eq!(d.entries.len(), 0);
    assert_eq!(next, 0x99);
    let (d, next) = read_ifd(&data, 0x10, true, true).unwrap();
    assert_eq!(d.entries.len(), 1);
    assert_eq!(next, 0x99);
}

#[test]
fn truncated_next_pointer_fails_in_either_mode() {
    // a zero-tag directory whose next pointer would sit past the end
    let mut data = header(0x10, 0);
    data.extend_from_slice(&0u16.to_le_bytes());
    assert_eq!(Err(RawFileError::Seek(0x12)), decode(&data, true));
    assert_eq!(Err(RawFileError::Seek(0x12)), decode(&data, false));
}
