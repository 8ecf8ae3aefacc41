use haste_map::cache_codec::{decode_chunk, encode_chunk};
use haste_map::canonical::get_deterministic_hastemap_string;
use haste_map::haste_map::{make_cache_filename, split_into_chunks, CACHE_DIR};
use haste_map::types::SourceFile;

fn record(path: &str, deps: &[&str]) -> SourceFile {
    SourceFile {
        path: String::from(path),
        dependencies: deps.iter().map(|d| String::from(*d)).collect(),
    }
}

fn sample_index() -> Vec<SourceFile> {
    vec![
        record("src/a.js", &["x", "y"]),
        record("src/b.js", &[]),
        record("lib/c.js", &["b", "a", "b"]),
        record("d.js", &["only"]),
    ]
}

#[test]
fn round_trip_single_chunk() {
    let index = sample_index();
    let bytes = encode_chunk(&index);
    let back = decode_chunk(&bytes).expect("a well-formed chunk must decode");
    assert_eq!(back.len(), 4);
    assert_eq!(back[0].path, "src/a.js");
    assert_eq!(back[0].dependencies, vec!["x", "y"]);
    assert_eq!(back[1].path, "src/b.js");
    assert!(back[1].dependencies.is_empty());
    assert_eq!(back[2].dependencies, vec!["b", "a", "b"]);
    assert_eq!(back[3].path, "d.js");
}

#[test]
fn round_trip_empty_chunk() {
    let index: Vec<SourceFile> = vec![];
    let bytes = encode_chunk(&index);
    let back = decode_chunk(&bytes).expect("the empty chunk must decode");
    assert!(back.is_empty());
}

#[test]
fn round_trip_non_ascii_path() {
    let index = vec![record("src/\u{00fc}ber.js", &["caf\u{00e9}"])];
    let bytes = encode_chunk(&index);
    let back = decode_chunk(&bytes).expect("decode");
    assert_eq!(back[0].path, "src/\u{00fc}ber.js");
    assert_eq!(back[0].dependencies, vec!["caf\u{00e9}"]);
}

#[test]
fn truncated_chunk_is_rejected() {
    let index = sample_index();
    let mut bytes = encode_chunk(&index);
    bytes.pop();
    assert!(decode_chunk(&bytes).is_none());
}

#[test]
fn trailing_bytes_are_rejected() {
    let index = sample_index();
    let mut bytes = encode_chunk(&index);
    bytes.push(0);
    assert!(decode_chunk(&bytes).is_none());
}

#[test]
fn short_header_is_rejected() {
    let bytes: Vec<u8> = vec![1, 2, 3];
    assert!(decode_chunk(&bytes).is_none());
}

#[test]
fn surrogate_code_point_is_rejected() {
    // count = 1, path length = 1, then the code point 0xD800.
    let mut bytes: Vec<u8> = Vec::new();
    bytes.extend_from_slice(&[1, 0, 0, 0, 0, 0, 0, 0]);
    bytes.extend_from_slice(&[1, 0, 0, 0, 0, 0, 0, 0]);
    bytes.extend_from_slice(&[0x00, 0xD8, 0x00, 0x00]);
    bytes.extend_from_slice(&[0, 0, 0, 0, 0, 0, 0, 0]);
    assert!(decode_chunk(&bytes).is_none());
}

#[test]
fn chunked_write_reads_back_to_same_canonical_text() {
    // Three chunk files: 4 records in chunks of at most 2.
    let reference = get_deterministic_hastemap_string(sample_index());
    let mut extended = sample_index();
    extended.push(record("e.js", &["z"]));
    let chunks = split_into_chunks(extended, 2);
    assert_eq!(chunks.len(), 3);
    let files: Vec<Vec<u8>> = chunks.iter().map(|c| encode_chunk(c)).collect();
    let mut read_back: Vec<SourceFile> = Vec::new();
    for f in files.iter() {
        let mut part = decode_chunk(f).expect("every chunk must decode");
        read_back.append(&mut part);
    }
    assert_eq!(read_back.len(), 5);
    let canonical = get_deterministic_hastemap_string(read_back);
    let mut expected_extended = sample_index();
    expected_extended.push(record("e.js", &["z"]));
    assert_eq!(canonical, get_deterministic_hastemap_string(expected_extended));
    assert_ne!(canonical, reference);
}

#[test]
fn split_keeps_all_records_in_order() {
    let index = sample_index();
    let chunks = split_into_chunks(index, 3);
    assert_eq!(chunks.len(), 2);
    assert_eq!(chunks[0].len(), 3);
    assert_eq!(chunks[1].len(), 1);
    assert_eq!(chunks[0][0].path, "src/a.js");
    assert_eq!(chunks[1][0].path, "d.js");
}

#[test]
fn split_of_empty_index_has_no_chunks() {
    let index: Vec<SourceFile> = vec![];
    let chunks = split_into_chunks(index, 4);
    assert!(chunks.is_empty());
}

#[test]
fn cache_filenames() {
    assert_eq!(make_cache_filename(0), "cache/0.bin");
    assert_eq!(make_cache_filename(7), "cache/7.bin");
    assert_eq!(make_cache_filename(1203), "cache/1203.bin");
    assert_eq!(CACHE_DIR, "cache");
}
