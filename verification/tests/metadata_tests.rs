use riz_package_tools::le_bytes::{read_u32_le, u32_to_le_vec, write_bytes_at};
use riz_package_tools::metadata::{check_metadata, MetadataError, MetadataFile, StringLiteral};
use riz_package_tools::string_table::{
    check_strings, check_write_strings, convert_vecstring_to_vecglobalvecu8global,
    read_strings_from_file, write_strings_to_file,
};

fn le(v: u32) -> [u8; 4] {
    v.to_le_bytes()
}

/// A small metadata file: the literal table at 24 with two entries, the data
/// region at 40 with eight bytes holding "abc" and "de".
fn sample_file() -> Vec<u8> {
    let mut b = Vec::new();
    b.extend_from_slice(&le(0xFAB1_1BAF));
    b.extend_from_slice(&le(29));
    b.extend_from_slice(&le(24));
    b.extend_from_slice(&le(16));
    b.extend_from_slice(&le(40));
    b.extend_from_slice(&le(8));
    b.extend_from_slice(&le(3));
    b.extend_from_slice(&le(0));
    b.extend_from_slice(&le(2));
    b.extend_from_slice(&le(3));
    b.extend_from_slice(b"abcde\0\0\0");
    b
}

fn u32_at(b: &[u8], pos: usize) -> u32 {
    u32::from_le_bytes([b[pos], b[pos + 1], b[pos + 2], b[pos + 3]])
}

#[test]
fn reads_little_endian_fields() {
    let b = vec![0x78, 0x56, 0x34, 0x12, 0xff];
    assert_eq!(read_u32_le(&b, 0), 0x1234_5678);
    assert_eq!(u32_to_le_vec(0xFAB1_1BAF), vec![0xAF, 0x1B, 0xB1, 0xFA]);
}

#[test]
fn write_at_overwrites_extends_and_fills_gaps() {
    let mut b = vec![1, 2, 3];
    write_bytes_at(&mut b, 1, &vec![9]);
    assert_eq!(b, vec![1, 9, 3]);
    write_bytes_at(&mut b, 2, &vec![7, 8]);
    assert_eq!(b, vec![1, 9, 7, 8]);
    write_bytes_at(&mut b, 6, &vec![5]);
    assert_eq!(b, vec![1, 9, 7, 8, 0, 0, 5]);
}

#[test]
fn parses_header_table_and_bytes() {
    assert_eq!(check_metadata(&sample_file()), None);
    let file = MetadataFile::new(&sample_file());
    assert_eq!(file.string_literal_offset, 24);
    assert_eq!(file.string_literal_count, 16);
    assert_eq!(file.data_info_position, 16);
    assert_eq!(file.string_literal_data_offset, 40);
    assert_eq!(file.string_literal_data_count, 8);
    assert_eq!(
        file.string_literals,
        vec![StringLiteral { length: 3, offset: 0 }, StringLiteral { length: 2, offset: 3 }]
    );
    assert_eq!(file.str_bytes, vec![b"abc".to_vec(), b"de".to_vec()]);
}

#[test]
fn reads_strings() {
    assert_eq!(check_strings(&sample_file()), None);
    let strings = read_strings_from_file(&sample_file());
    assert_eq!(strings, vec!["abc".to_string(), "de".to_string()]);
}

#[test]
fn reports_header_errors() {
    assert_eq!(check_metadata(&vec![0xAF, 0x1B]), Some(MetadataError::HeaderTruncated));
    let mut bad = sample_file();
    bad[0] = 0;
    assert_eq!(check_metadata(&bad), Some(MetadataError::BadMagic));
    let short = sample_file()[..20].to_vec();
    assert_eq!(check_metadata(&short), Some(MetadataError::HeaderTruncated));
}

#[test]
fn reports_table_and_string_errors() {
    let mut long_table = sample_file();
    long_table[12..16].copy_from_slice(&le(64));
    assert_eq!(check_metadata(&long_table), Some(MetadataError::LiteralTableTruncated));

    let mut overflow = sample_file();
    overflow[16..20].copy_from_slice(&le(u32::MAX));
    assert_eq!(check_metadata(&overflow), Some(MetadataError::StringDataTruncated(0)));
    overflow[28..32].copy_from_slice(&le(1));
    assert_eq!(check_metadata(&overflow), Some(MetadataError::StringOffsetOverflow(0)));

    let mut truncated = sample_file();
    truncated[32..36].copy_from_slice(&le(9));
    assert_eq!(check_metadata(&truncated), Some(MetadataError::StringDataTruncated(1)));

    let mut not_utf8 = sample_file();
    not_utf8[44] = 0xFF;
    assert_eq!(check_strings(&not_utf8), Some(MetadataError::InvalidUtf8(1)));
}

#[test]
fn converts_strings_to_utf8_bytes() {
    let bytes = convert_vecstring_to_vecglobalvecu8global(vec!["a".to_string(), "é".to_string()]);
    assert_eq!(bytes, vec![vec![b'a'], vec![0xC3, 0xA9]]);
}

#[test]
fn rewrites_in_place_and_reads_back() {
    let orig = sample_file();
    let strings = vec!["xy".to_string(), "z".to_string()];
    assert_eq!(check_write_strings(&orig, &strings), None);
    let out = write_strings_to_file(&orig, strings);
    assert_eq!(out.len(), 48);
    assert_eq!(&out[0..16], &orig[0..16]);
    assert_eq!(u32_at(&out, 16), 40);
    assert_eq!(u32_at(&out, 20), 4);
    assert_eq!(u32_at(&out, 24), 2);
    assert_eq!(u32_at(&out, 28), 0);
    assert_eq!(u32_at(&out, 32), 1);
    assert_eq!(u32_at(&out, 36), 2);
    assert_eq!(&out[40..43], b"xyz");
    assert_eq!(read_strings_from_file(&out), vec!["xy".to_string(), "z".to_string()]);
}

#[test]
fn grows_a_data_region_at_the_end_of_the_file() {
    let orig = sample_file();
    let strings = vec!["hello world!!".to_string(), "bye".to_string()];
    assert_eq!(check_write_strings(&orig, &strings), None);
    let out = write_strings_to_file(&orig, strings.clone());
    assert_eq!(u32_at(&out, 16), 40);
    assert_eq!(u32_at(&out, 20), 16);
    assert_eq!(out.len(), 56);
    assert_eq!(read_strings_from_file(&out), strings);
}

#[test]
fn moves_data_that_no_longer_fits_to_the_end() {
    let mut orig = sample_file();
    orig.extend_from_slice(b"TAIL");
    let strings = vec!["hello world!!".to_string(), "bye".to_string()];
    assert_eq!(check_write_strings(&orig, &strings), None);
    let out = write_strings_to_file(&orig, strings.clone());
    assert_eq!(&out[48..52], b"TAIL");
    assert_eq!(u32_at(&out, 16), 52);
    assert_eq!(u32_at(&out, 20), 16);
    assert_eq!(out.len(), 68);
    assert_eq!(&out[52..68], b"hello world!!bye");
    assert_eq!(read_strings_from_file(&out), strings);
}

#[test]
fn records_new_data_info_in_the_file_value() {
    let orig = sample_file();
    let mut file = MetadataFile::new(&orig);
    file.str_bytes = vec![b"q".to_vec(), b"rs".to_vec()];
    assert_eq!(file.rewrite_error(&orig), None);
    let out = file.write_to_new_file(&orig);
    assert_eq!(file.string_literal_data_offset, 40);
    assert_eq!(file.string_literal_data_count, 4);
    assert_eq!(&out[40..43], b"qrs");
}

#[test]
fn rejects_too_few_strings() {
    let orig = sample_file();
    assert_eq!(
        check_write_strings(&orig, &vec!["only".to_string()]),
        Some(MetadataError::MissingStrings)
    );
    let mut file = MetadataFile::new(&orig);
    file.str_bytes = vec![b"only".to_vec()];
    assert_eq!(file.rewrite_error(&orig), Some(MetadataError::MissingStrings));
}

#[test]
fn keeps_non_ascii_strings() {
    let orig = sample_file();
    let strings = vec!["你好".to_string(), "é".to_string()];
    assert_eq!(check_write_strings(&orig, &strings), None);
    let out = write_strings_to_file(&orig, strings.clone());
    assert_eq!(read_strings_from_file(&out), strings);
}

#[test]
fn moved_data_skips_the_flushed_part_of_a_long_tail() {
    let mut orig = sample_file();
    let tail: Vec<u8> = (0..10000u32).map(|k| (k % 251) as u8).collect();
    orig.extend_from_slice(&tail);
    let strings = vec!["hello world!!".to_string(), "bye".to_string()];
    assert_eq!(check_write_strings(&orig, &strings), None);
    let out = write_strings_to_file(&orig, strings.clone());
    let offset = u32_at(&out, 16) as usize;
    assert_eq!(offset, orig.len() + 8192);
    assert_eq!(&out[orig.len()..offset], &tail[..8192]);
    assert_eq!(&out[offset..offset + 16], b"hello world!!bye");
    assert_eq!(out.len(), orig.len() + tail.len());
    assert_eq!(read_strings_from_file(&out), strings);
}

#[test]
fn reports_size_overflow() {
    let mut orig = sample_file();
    orig[16..20].copy_from_slice(&le(u32::MAX - 2));
    orig[28..32].copy_from_slice(&le(0));
    orig[36..40].copy_from_slice(&le(0));
    let mut file = MetadataFile::new(&sample_file());
    file.string_literal_data_offset = u32::MAX - 2;
    file.str_bytes = vec![b"abc".to_vec(), b"de".to_vec()];
    assert_eq!(file.rewrite_error(&orig), Some(MetadataError::SizeOverflow));
}
