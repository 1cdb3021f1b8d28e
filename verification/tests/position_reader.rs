use std::sync::Arc;

use bitpacking::{BitPacker, BitPacker4x};
use json_array_search::block_decoder::{BlockDecoder, COMPRESSION_BLOCK_SIZE};
use json_array_search::json_metadata::{JsonArrayPath, PositionError};
use json_array_search::json_path_writer::JsonArrayPathEntry;
use json_array_search::owned_bytes::OwnedBytes;
use json_array_search::position_reader::{PositionReader, JSON_METADATA_MARKER};
use json_array_search::vint::{read_u32_vint, read_u64_vint};

/// Writes a number in base 128, the last byte marked.
fn write_vint(value: u64, out: &mut Vec<u8>) {
    let mut value = value;
    while value >= 128 {
        out.push((value % 128) as u8);
        value /= 128;
    }
    out.push(value as u8 + 128);
}

/// Writes full blocks with the packer, and the rest number by number.
fn write_packed(values: &[u32], out: &mut Vec<u8>) {
    let packer = BitPacker4x::new();
    let mut widths: Vec<u8> = Vec::new();
    let mut blocks: Vec<u8> = Vec::new();
    let mut chunks = values.chunks_exact(COMPRESSION_BLOCK_SIZE);
    for chunk in &mut chunks {
        let width = packer.num_bits(chunk);
        let mut block = vec![0u8; 4 * COMPRESSION_BLOCK_SIZE];
        let len = packer.compress(chunk, &mut block, width);
        widths.push(width);
        blocks.extend_from_slice(&block[..len]);
    }
    write_vint(widths.len() as u64, out);
    out.extend_from_slice(&widths);
    out.extend_from_slice(&blocks);
    for value in chunks.remainder() {
        write_vint(*value as u64, out);
    }
}

fn write_metadata(ids_of_docs: &[Vec<u32>]) -> Vec<u8> {
    let mut out = Vec::new();
    write_vint(1, &mut out);
    write_vint(ids_of_docs.len() as u64, &mut out);
    let counts: Vec<u32> = ids_of_docs.iter().map(|ids| ids.len() as u32).collect();
    write_packed(&counts, &mut out);
    let ids: Vec<u32> = ids_of_docs.concat();
    write_vint(ids.len() as u64, &mut out);
    write_packed(&ids, &mut out);
    out
}

fn append_trailer(metadata: &[u8], out: &mut Vec<u8>) {
    out.extend_from_slice(metadata);
    out.push(JSON_METADATA_MARKER);
    out.extend_from_slice(&(metadata.len() as u32).to_be_bytes());
}

fn path(path_id: u32, element_ord: u32) -> JsonArrayPath {
    Arc::from(vec![JsonArrayPathEntry { path_id, element_ord }])
}

/// A path table whose entry `i` is the element `i` of the array `1`, but for the empty path.
fn path_table(len: u32) -> Arc<Vec<JsonArrayPath>> {
    let mut paths: Vec<JsonArrayPath> = vec![Arc::from(Vec::<JsonArrayPathEntry>::new())];
    for element in 1..len {
        paths.push(path(1, element));
    }
    Arc::new(paths)
}

fn ordinals(paths: &[JsonArrayPath]) -> Vec<u32> {
    paths.iter().map(|path| path[0].element_ord).collect()
}

/// Numbers without a pattern.
fn numbers(count: usize, limit: u64) -> Vec<u32> {
    let mut state = 0x2545_f491_4f6c_dd1du64;
    let mut out = Vec::new();
    for _ in 0..count {
        state ^= state << 13;
        state ^= state >> 7;
        state ^= state << 17;
        out.push(((state >> 16) % limit) as u32);
    }
    out
}

#[test]
fn test_position_reader_bitpacked_zero_and_remainder_with_metadata() {
    // One full block of zeros, whose width is 0, and two numbers more.
    let mut buf = Vec::new();
    {
        let mut deltas = vec![0u32; COMPRESSION_BLOCK_SIZE];
        deltas.extend_from_slice(&[1u32, 2u32]);
        write_packed(&deltas, &mut buf);
    }

    // Metadata for one document with one path id, which is 1.
    let mut metadata = Vec::new();
    write_vint(1, &mut metadata); // version
    write_vint(1, &mut metadata); // num_docs
    write_vint(0, &mut metadata); // counts num_blocks
    write_vint(1, &mut metadata); // counts remainder
    write_vint(1, &mut metadata); // total_indexes
    write_vint(0, &mut metadata); // indexes num_blocks
    write_vint(1, &mut metadata); // index value
    buf.extend_from_slice(&metadata);
    buf.push(JSON_METADATA_MARKER);
    buf.extend_from_slice(&(metadata.len() as u32).to_be_bytes());

    let path_table = Arc::new(vec![
        Arc::from(Vec::<JsonArrayPathEntry>::new().into_boxed_slice()),
        Arc::from(
            vec![JsonArrayPathEntry {
                path_id: 1,
                element_ord: 0,
            }]
            .into_boxed_slice(),
        ),
    ]);

    let mut reader = match PositionReader::open(OwnedBytes::new(buf), Some(path_table)) {
        Ok(reader) => reader,
        Err(error) => panic!("{:?}", error),
    };
    assert!(reader.has_json_metadata());

    let mut positions = vec![0u32; COMPRESSION_BLOCK_SIZE + 2];
    reader.read(0, &mut positions);
    let mut expected = vec![0u32; COMPRESSION_BLOCK_SIZE];
    expected.extend_from_slice(&[1u32, 2u32]);
    assert_eq!(positions, expected);

    let mut paths = Vec::new();
    assert!(reader.fill_doc_json_metadata_refs(0, 0, &mut paths));
    assert_eq!(paths.len(), 1);
    assert_eq!(paths[0][0].path_id, 1);
    assert_eq!(paths[0][0].element_ord, 0);
}

fn opened(buf: Vec<u8>, table: Option<Arc<Vec<JsonArrayPath>>>) -> PositionReader {
    match PositionReader::open(OwnedBytes::new(buf), table) {
        Ok(reader) => reader,
        Err(error) => panic!("{:?}", error),
    }
}

#[test]
fn blocks_of_every_width_decode_as_the_packer_wrote_them() {
    let packer = BitPacker4x::new();
    let mut decoder = BlockDecoder::new();
    for width in 0u8..=32 {
        let values = numbers(COMPRESSION_BLOCK_SIZE, 1u64 << width);
        let mut block = vec![0u8; 4 * COMPRESSION_BLOCK_SIZE];
        let len = packer.compress(&values, &mut block, width);
        assert_eq!(len, 16 * width as usize);
        decoder.uncompress_block_unsorted(&block[..len], width);
        assert_eq!(decoder.output_array(), &values[..]);
        let copy = decoder.clone();
        assert_eq!(copy.output_array(), &values[..]);
    }
}

#[test]
fn a_run_of_numbers_stops_at_a_full_block() {
    let mut bytes = Vec::new();
    for value in 0..200u64 {
        write_vint(value * 1000, &mut bytes);
    }
    let mut decoder = BlockDecoder::new();
    assert!(decoder.output_array().is_empty());
    decoder.uncompress_vint_unsorted_until_end(&bytes);
    assert_eq!(decoder.output_array().len(), COMPRESSION_BLOCK_SIZE);
    assert_eq!(decoder.output_array()[127], 127_000);
    decoder.uncompress_vint_unsorted_until_end(&[]);
    assert!(decoder.output_array().is_empty());
}

#[test]
fn every_range_of_positions_is_read_back() {
    let values = numbers(5 * COMPRESSION_BLOCK_SIZE + 37, 5000);
    let mut buf = Vec::new();
    write_packed(&values, &mut buf);
    let mut reader = opened(buf, None);
    assert!(!reader.has_json_metadata());
    let ranges = [
        (0usize, 1usize),
        (0, 128),
        (0, 129),
        (300, 20),
        (301, 0),
        (5, 600),
        (639, 38),
        (640, 37),
        (0, 677),
        (677, 0),
        (130, 3),
        (131, 130),
    ];
    for (offset, count) in ranges {
        let mut output = vec![0u32; count];
        reader.read(offset as u64, &mut output);
        assert_eq!(output, &values[offset..offset + count]);
    }
    let mut copy = reader.clone();
    let mut output = vec![0u32; 2];
    copy.read(400, &mut output);
    assert_eq!(output, &values[400..402]);
    reader.read(127, &mut output);
    assert_eq!(output, &values[127..129]);
}

#[test]
fn metadata_leaves_the_positions_as_they_are() {
    let values = numbers(2 * COMPRESSION_BLOCK_SIZE + 3, 90);
    let mut plain = Vec::new();
    write_packed(&values, &mut plain);
    let mut marked = plain.clone();
    append_trailer(&write_metadata(&[vec![1], vec![], vec![2, 3]]), &mut marked);
    let mut one = opened(plain, Some(path_table(4)));
    let mut other = opened(marked.clone(), Some(path_table(4)));
    let mut third = opened(marked, None);
    assert!(!one.has_json_metadata());
    assert!(other.has_json_metadata());
    assert!(!third.has_json_metadata());
    for reader in [&mut one, &mut other, &mut third] {
        let mut output = vec![0u32; values.len()];
        reader.read(0, &mut output);
        assert_eq!(output, values);
    }
}

#[test]
fn the_path_ids_of_every_document_are_read_back() {
    // Enough documents and path ids for full blocks of both.
    let lens = numbers(300, 4);
    let mut ids_of_docs: Vec<Vec<u32>> = Vec::new();
    for (doc, len) in lens.iter().enumerate() {
        ids_of_docs.push((0..*len).map(|i| (doc as u32 * 7 + i) % 50 + 1).collect());
    }
    let mut buf = Vec::new();
    write_packed(&[1, 2, 3], &mut buf);
    append_trailer(&write_metadata(&ids_of_docs), &mut buf);
    let mut reader = opened(buf, Some(path_table(60)));
    let mut paths = vec![path(9, 9)];
    for doc_ord in [0usize, 299, 5, 128, 127, 3, 200, 299] {
        let found = reader.fill_doc_json_metadata_refs(77, doc_ord as u32, &mut paths);
        assert_eq!(found, !ids_of_docs[doc_ord].is_empty());
        assert_eq!(ordinals(&paths), ids_of_docs[doc_ord]);
    }
    assert!(!reader.fill_doc_json_metadata_refs(0, 300, &mut paths));
    assert!(paths.is_empty());
}

#[test]
fn the_empty_path_and_unknown_path_ids_are_left_out() {
    let mut buf = Vec::new();
    write_packed(&[4], &mut buf);
    append_trailer(&write_metadata(&[vec![0, 2, 9, 1], vec![0], vec![7]]), &mut buf);
    let mut reader = opened(buf, Some(path_table(3)));
    let mut paths = Vec::new();
    assert!(reader.fill_doc_json_metadata_refs(0, 0, &mut paths));
    assert_eq!(ordinals(&paths), [2, 1]);
    assert!(!reader.fill_doc_json_metadata_refs(0, 1, &mut paths));
    assert!(paths.is_empty());
    assert!(!reader.fill_doc_json_metadata_refs(0, 2, &mut paths));
    assert!(paths.is_empty());
}

#[test]
fn metadata_that_says_nothing_is_no_metadata() {
    let without: [Vec<u8>; 3] = [
        Vec::new(),
        write_metadata(&[]),
        write_metadata(&[vec![], vec![]]),
    ];
    for metadata in without {
        let mut buf = Vec::new();
        write_packed(&[4, 5], &mut buf);
        append_trailer(&metadata, &mut buf);
        let mut reader = opened(buf, Some(path_table(3)));
        assert!(!reader.has_json_metadata());
        let mut output = vec![0u32; 2];
        reader.read(0, &mut output);
        assert_eq!(output, [4, 5]);
        let mut paths = vec![path(1, 1)];
        assert!(!reader.fill_doc_json_metadata_refs(0, 0, &mut paths));
        assert!(paths.is_empty());
    }
}

#[test]
fn another_version_is_refused_where_there_is_a_path_table() {
    let mut buf = Vec::new();
    write_packed(&[4, 5], &mut buf);
    let mut metadata = Vec::new();
    write_vint(2, &mut metadata);
    append_trailer(&metadata, &mut buf);
    match PositionReader::open(OwnedBytes::new(buf.clone()), Some(path_table(2))) {
        Ok(_) => panic!("opened"),
        Err(error) => assert_eq!(error, PositionError::UnsupportedVersion),
    }
    let mut reader = opened(buf, None);
    assert!(!reader.has_json_metadata());
    let mut output = vec![0u32; 1];
    reader.read(1, &mut output);
    assert_eq!(output, [5]);
}

#[test]
fn a_block_count_that_does_not_end_is_refused() {
    let unfinished: [Vec<u8>; 3] = [Vec::new(), vec![3, 4], vec![1; 11]];
    for bytes in unfinished {
        match PositionReader::open(OwnedBytes::new(bytes), None) {
            Ok(_) => panic!("opened"),
            Err(error) => assert_eq!(error, PositionError::InvalidBlockCount),
        }
    }
}

#[test]
fn a_marker_with_too_great_a_length_is_no_trailer() {
    let mut buf = Vec::new();
    write_packed(&[4, 5], &mut buf);
    buf.push(JSON_METADATA_MARKER);
    buf.extend_from_slice(&[128, 128, 128, 200]);
    let mut reader = opened(buf, Some(path_table(2)));
    assert!(!reader.has_json_metadata());
    let mut output = vec![0u32; 7];
    reader.read(0, &mut output);
    assert_eq!(output, [4, 5, 126, 0, 0, 0, 72]);
}

#[test]
fn numbers_of_variable_length() {
    for value in [0u64, 1, 127, 128, 16_383, 16_384, 1 << 31, u32::MAX as u64] {
        let mut bytes = Vec::new();
        write_vint(value, &mut bytes);
        bytes.push(0xaa);
        let mut rest: &[u8] = &bytes;
        assert_eq!(read_u32_vint(&mut rest) as u64, value);
        assert_eq!(rest, &[0xaa]);
        assert_eq!(read_u64_vint(&bytes), Some((value, bytes.len() - 1)));
    }
    let mut bytes = Vec::new();
    write_vint(u64::MAX, &mut bytes);
    assert_eq!(read_u64_vint(&bytes), Some((u64::MAX, 10)));
    assert_eq!(read_u64_vint(&bytes[..9]), None);
}

#[test]
fn bytes_are_shared_and_cut() {
    let mut bytes = OwnedBytes::new(vec![1, 2, 3, 4, 5]);
    let whole = bytes.clone();
    bytes.advance(1);
    assert_eq!(bytes.as_slice(), &[2, 3, 4, 5]);
    let middle = bytes.slice(1, 3);
    assert_eq!(middle.as_slice(), &[3, 4]);
    let (left, right) = bytes.split(3);
    assert_eq!(left.as_slice(), &[2, 3, 4]);
    assert_eq!(right.as_slice(), &[5]);
    assert_eq!(whole.len(), 5);
    assert!(right.slice(1, 1).is_empty());
}
