//! Tests of the index engine over a small in-memory index image: the
//! text "AABABABABBABAB#" with one sub-sequence named "1".

use libsufr::sufr_file::{decode_locate_cache, encode_locate_cache, SufrFile};
use libsufr::types::{
    ExtractOptions, IntWidth, LocatePosition, SearchOptions, SufrError, OUTFILE_VERSION,
};

fn push_u64(out: &mut Vec<u8>, v: u64) {
    out.extend_from_slice(&v.to_le_bytes());
}

/// Serializes an index image with 32-bit offsets.
fn build_image(
    text: &[u8],
    sa: &[u32],
    lcp: &[u32],
    starts: &[u32],
    headers: &[&str],
    max_query_len: u64,
) -> Vec<u8> {
    let ns = starts.len();
    let starts_off: usize = 60;
    let text_off = starts_off + 4 * ns;
    let sa_pos = text_off + text.len();
    let lcp_pos = sa_pos + 4 * sa.len();

    let mut out: Vec<u8> = Vec::new();
    out.push(OUTFILE_VERSION);
    out.push(0);
    out.push(0);
    out.push(0);
    push_u64(&mut out, text.len() as u64);
    push_u64(&mut out, text_off as u64);
    push_u64(&mut out, sa_pos as u64);
    push_u64(&mut out, lcp_pos as u64);
    push_u64(&mut out, sa.len() as u64);
    push_u64(&mut out, max_query_len);
    push_u64(&mut out, ns as u64);
    for s in starts {
        out.extend_from_slice(&s.to_le_bytes());
    }
    out.extend_from_slice(text);
    for v in sa {
        out.extend_from_slice(&v.to_le_bytes());
    }
    for v in lcp {
        out.extend_from_slice(&v.to_le_bytes());
    }
    let header_strings: Vec<String> = headers.iter().map(|h| h.to_string()).collect();
    let blob = bincode::serialize(&header_strings).unwrap();
    out.extend_from_slice(&blob);
    out
}

const ABBA_SA: [u32; 15] = [14, 0, 12, 10, 1, 3, 5, 7, 13, 11, 9, 2, 4, 6, 8];
const ABBA_LCP: [u32; 15] = [0, 0, 1, 2, 4, 6, 4, 2, 0, 1, 3, 5, 5, 3, 1];

fn abba_image() -> Vec<u8> {
    build_image(
        b"AABABABABBABAB#",
        &ABBA_SA,
        &ABBA_LCP,
        &[0],
        &["1"],
        0,
    )
}

fn abba() -> SufrFile {
    SufrFile::read("tests/inputs/abba.sufr", &abba_image(), IntWidth::U32).unwrap()
}

fn pos(rank: usize, suffix: u64) -> LocatePosition {
    LocatePosition {
        rank,
        suffix,
        sequence_name: "1".to_string(),
        sequence_position: suffix,
    }
}

fn locate_one(sufr_file: &mut SufrFile, query: &str, low_memory: bool) -> Vec<LocatePosition> {
    let args = SearchOptions {
        queries: vec![query.to_string()],
        max_query_len: None,
        low_memory,
        find_suffixes: true,
    };
    let res = sufr_file.locate(args);
    assert!(res.is_ok());
    let res = res.unwrap();
    assert_eq!(res.len(), 1);
    assert_eq!(res[0].query_num, 0);
    assert_eq!(res[0].query, query.to_string());
    res[0].positions.clone()
}

#[test]
fn test_locate() {
    let mut sufr_file = abba();

    for val in &[true, false] {
        let positions = locate_one(&mut sufr_file, "A", *val);
        assert_eq!(
            positions,
            vec![
                pos(1, 0),
                pos(2, 12),
                pos(3, 10),
                pos(4, 1),
                pos(5, 3),
                pos(6, 5),
                pos(7, 7),
            ]
        );
    }

    for val in &[true, false] {
        let positions = locate_one(&mut sufr_file, "B", *val);
        assert_eq!(
            positions,
            vec![
                pos(8, 13),
                pos(9, 11),
                pos(10, 9),
                pos(11, 2),
                pos(12, 4),
                pos(13, 6),
                pos(14, 8),
            ]
        );
    }

    for val in &[true, false] {
        let positions = locate_one(&mut sufr_file, "ABAB", *val);
        assert_eq!(positions, vec![pos(3, 10), pos(4, 1), pos(5, 3), pos(6, 5)]);
    }

    for val in &[true, false] {
        let positions = locate_one(&mut sufr_file, "ABABB", *val);
        assert_eq!(positions, vec![pos(6, 5)]);
    }

    for val in &[true, false] {
        let positions = locate_one(&mut sufr_file, "BBBB", *val);
        assert_eq!(positions, vec![]);
    }
}

#[test]
fn test_file_access() {
    let mut sufr_file = abba();
    let suf_by_rank = ABBA_SA;

    for (rank, &suffix) in suf_by_rank.iter().enumerate() {
        let res = sufr_file.suffix_array_file.get(rank);
        assert!(res.is_some());
        assert_eq!(res.unwrap(), suffix as u64);
    }

    let res = sufr_file.suffix_array_file.get_range(1, 100);
    assert!(res.is_err());
    assert_eq!(res.unwrap_err().message(), "Invalid range: 1..100");

    let res = sufr_file.suffix_array_file.get_range(8, 9);
    assert!(res.is_ok());
    assert_eq!(res.as_ref().unwrap(), &[13]);

    let res = sufr_file.suffix_array_file.get_range(8, 13);
    assert!(res.is_ok());
    assert_eq!(res.as_ref().unwrap(), &[13, 11, 9, 2, 4]);

    let res = sufr_file.suffix_array_file.get_range(1, 8);
    assert!(res.is_ok());
    assert_eq!(res.as_ref().unwrap(), &[0, 12, 10, 1, 3, 5, 7]);

    let mut all: Vec<u64> = Vec::new();
    while let Some(v) = sufr_file.suffix_array_file.next() {
        all.push(v);
    }
    assert_eq!(all, &[14, 0, 12, 10, 1, 3, 5, 7, 13, 11, 9, 2, 4, 6, 8]);

    sufr_file.suffix_array_file.reset();
    let mut i = 0;
    while let Some(suffix) = sufr_file.suffix_array_file.next() {
        assert_eq!(suf_by_rank[i] as u64, suffix);
        i += 1;
    }
    assert_eq!(i, 15);
}

#[test]
fn test_query_longer_than_any_suffix() {
    let mut sufr_file = abba();
    for val in &[true, false] {
        let positions = locate_one(&mut sufr_file, "AABABABABBABAB#X", *val);
        assert_eq!(positions, vec![]);
    }
}

#[test]
fn test_query_whole_sequence() {
    let mut sufr_file = abba();
    for val in &[true, false] {
        let positions = locate_one(&mut sufr_file, "AABABABABBABAB", *val);
        assert_eq!(positions, vec![pos(1, 0)]);
    }
}

#[test]
fn test_empty_query_full_range() {
    // An empty query is a prefix of every suffix: the whole rank range.
    let mut sufr_file = abba();
    for val in &[true, false] {
        let positions = locate_one(&mut sufr_file, "", *val);
        assert_eq!(positions.len(), 15);
        for (i, p) in positions.iter().enumerate() {
            assert_eq!(p.rank, i);
            assert_eq!(p.suffix, ABBA_SA[i] as u64);
        }
    }
}

#[test]
fn test_full_sa_resident_when_uncapped() {
    let mut sufr_file = abba();
    assert!(sufr_file.set_suffix_array_mem(0).is_ok());
    let want: Vec<u64> = ABBA_SA.iter().map(|&v| v as u64).collect();
    assert_eq!(sufr_file.suffix_array_mem, want);
    assert!(sufr_file.suffix_array_rank_mem.is_empty());
}

#[test]
fn test_subsample_suffix_array() {
    let mut sufr_file = abba();
    let (sub_sa, sub_rank) = sufr_file.subsample_suffix_array(2);
    assert_eq!(sub_rank, vec![0, 1, 2, 8, 9, 14]);
    assert_eq!(sub_sa, vec![14, 0, 12, 13, 11, 8]);
}

#[test]
fn test_compressed_matches_low_memory() {
    // Searching through the subsample built for queries of length 2 finds
    // the same positions as reading the stored suffix array.
    let mut resident = abba();
    let mut low = abba();
    for query in &["A", "B", "AB", "BB", ""] {
        let args = SearchOptions {
            queries: vec![query.to_string()],
            max_query_len: Some(2),
            low_memory: false,
            find_suffixes: true,
        };
        let r1 = resident.locate(args).unwrap();
        assert!(!resident.suffix_array_rank_mem.is_empty());
        let args = SearchOptions {
            queries: vec![query.to_string()],
            max_query_len: None,
            low_memory: true,
            find_suffixes: true,
        };
        let r2 = low.locate(args).unwrap();
        assert_eq!(r1, r2);
    }
}

#[test]
fn test_shuffled_queries_same_answers() {
    let mut sufr_file = abba();
    let make = |queries: &[&str]| SearchOptions {
        queries: queries.iter().map(|q| q.to_string()).collect(),
        max_query_len: None,
        low_memory: false,
        find_suffixes: true,
    };
    let first = sufr_file.locate(make(&["B", "A", "ABAB"])).unwrap();
    let second = sufr_file.locate(make(&["A", "ABAB", "B"])).unwrap();
    for (i, res) in first.iter().enumerate() {
        assert_eq!(res.query_num, i);
    }
    assert_eq!(first[0].positions, second[2].positions);
    assert_eq!(first[1].positions, second[0].positions);
    assert_eq!(first[2].positions, second[1].positions);
}

#[test]
fn test_idempotent_load() {
    let mut sufr_file = abba();
    assert!(sufr_file.set_suffix_array_mem(2).is_ok());
    let mem = sufr_file.suffix_array_mem.clone();
    let ranks = sufr_file.suffix_array_rank_mem.clone();
    let mql = sufr_file.suffix_array_mem_mql;
    assert!(sufr_file.set_suffix_array_mem(2).is_ok());
    assert_eq!(sufr_file.suffix_array_mem, mem);
    assert_eq!(sufr_file.suffix_array_rank_mem, ranks);
    assert_eq!(sufr_file.suffix_array_mem_mql, mql);
}

#[test]
fn test_full_load_clears_subsample_stamp() {
    // After holding the whole SA resident, a later wish for a capped
    // subsample must rebuild it rather than keep the full SA under a
    // stale query-length stamp.
    let mut sufr_file = abba();
    assert!(sufr_file.set_suffix_array_mem(2).is_ok());
    assert_eq!(sufr_file.suffix_array_mem_mql, Some(2));
    assert!(sufr_file.set_suffix_array_mem(0).is_ok());
    assert_eq!(sufr_file.suffix_array_mem_mql, None);
    assert_eq!(sufr_file.suffix_array_mem.len(), 15);
    assert!(sufr_file.set_suffix_array_mem(2).is_ok());
    assert_eq!(sufr_file.suffix_array_mem_mql, Some(2));
    assert_eq!(sufr_file.suffix_array_rank_mem, vec![0, 1, 2, 8, 9, 14]);
    assert_eq!(sufr_file.suffix_array_mem, vec![14, 0, 12, 13, 11, 8]);
}

#[test]
fn test_sa_is_permutation() {
    let sufr_file = abba();
    let mut entries: Vec<u64> = Vec::new();
    for i in 0..15 {
        entries.push(sufr_file.suffix_array_file.get(i).unwrap());
    }
    entries.sort();
    let want: Vec<u64> = (0..15).collect();
    assert_eq!(entries, want);
}

#[test]
fn test_check_clean_index() {
    let sufr_file = abba();
    let errors = sufr_file.check().unwrap();
    assert!(errors.is_empty());
}

#[test]
fn test_check_reports_bad_lcp() {
    let mut lcp = ABBA_LCP;
    lcp[2] = 5;
    let image = build_image(b"AABABABABBABAB#", &ABBA_SA, &lcp, &[0], &["1"], 0);
    let sufr_file = SufrFile::read("bad.sufr", &image, IntWidth::U32).unwrap();
    // The wrong depth also breaks the order test made at that depth.
    let errors = sufr_file.check().unwrap();
    assert_eq!(errors.len(), 2);
    assert_eq!(errors[0], "12 (r. 2): LCP 5 should be 1");
    assert_eq!(errors[1], "12 (r. 2): greater than previous");
}

#[test]
fn test_check_reports_bad_order() {
    let mut sa = ABBA_SA;
    sa.swap(1, 2);
    let image = build_image(b"AABABABABBABAB#", &sa, &ABBA_LCP, &[0], &["1"], 0);
    let sufr_file = SufrFile::read("bad.sufr", &image, IntWidth::U32).unwrap();
    let errors = sufr_file.check().unwrap();
    assert!(!errors.is_empty());
}

#[test]
fn test_string_at() {
    let sufr_file = abba();
    assert_eq!(sufr_file.string_at(0, Some(3)).unwrap(), "AAB");
    assert_eq!(sufr_file.string_at(13, None).unwrap(), "B#");
    assert_eq!(sufr_file.string_at(10, Some(100)).unwrap(), "ABAB#");
}

#[test]
fn test_read_rejects_bad_version() {
    let mut image = abba_image();
    image[0] = OUTFILE_VERSION.wrapping_add(1);
    let res = SufrFile::read("bad.sufr", &image, IntWidth::U32);
    assert!(res.is_err());
    assert_eq!(res.unwrap_err().message(), "Malformed header");
}

#[test]
fn test_read_rejects_truncated() {
    let image = abba_image();
    let res = SufrFile::read("bad.sufr", &image[..40], IntWidth::U32);
    assert!(res.is_err());
    assert_eq!(res.unwrap_err().message(), "Malformed header");
}

#[test]
fn test_read_rejects_bad_headers_blob() {
    let mut image = abba_image();
    let len = image.len();
    image.truncate(len - 3);
    let res = SufrFile::read("bad.sufr", &image, IntWidth::U32);
    assert!(res.is_err());
    assert_eq!(res.unwrap_err().message(), "Deserialization error");
}

#[test]
fn test_extract_windows() {
    let mut sufr_file = abba();
    let args = ExtractOptions {
        queries: vec!["ABABB".to_string()],
        max_query_len: None,
        low_memory: false,
        prefix_len: Some(2),
        suffix_len: Some(4),
    };
    let res = sufr_file.extract(args).unwrap();
    assert_eq!(res.len(), 1);
    assert_eq!(res[0].sequences.len(), 1);
    let ex = &res[0].sequences[0];
    assert_eq!(ex.rank, 6);
    assert_eq!(ex.suffix, 5);
    assert_eq!(ex.sequence_name, "1".to_string());
    assert_eq!(ex.context_start, 3);
    assert_eq!(ex.context_end, 9);
    assert_eq!(ex.suffix_offset, 2);
}

#[test]
fn test_extract_default_window() {
    let mut sufr_file = abba();
    let args = ExtractOptions {
        queries: vec!["ABABB".to_string()],
        max_query_len: None,
        low_memory: false,
        prefix_len: None,
        suffix_len: None,
    };
    let res = sufr_file.extract(args).unwrap();
    let ex = &res[0].sequences[0];
    assert_eq!(ex.context_start, 5);
    assert_eq!(ex.context_end, 15);
    assert_eq!(ex.suffix_offset, 0);
}

#[test]
fn test_count_only_search() {
    // Without find_suffixes the engine reports no locations at all.
    let mut sufr_file = abba();
    let args = SearchOptions {
        queries: vec!["A".to_string()],
        max_query_len: None,
        low_memory: true,
        find_suffixes: false,
    };
    let res = sufr_file.suffix_search(&args).unwrap();
    assert_eq!(res.len(), 1);
    assert!(res[0].locations.is_none());
    let res = sufr_file.locate(args).unwrap();
    assert_eq!(res[0].positions, vec![]);
}

#[test]
fn test_error_messages() {
    assert_eq!(
        SufrError::IoError("abba.sufr: gone".to_string()).message(),
        "abba.sufr: gone"
    );
    assert_eq!(SufrError::InvalidRange(0, 7).message(), "Invalid range: 0..7");
    assert_eq!(
        SufrError::InvalidRange(1234, 567890).message(),
        "Invalid range: 1234..567890"
    );
}

#[test]
fn test_cache_round_trip() {
    let mut sufr_file = abba();
    let (sub_sa, sub_rank) = sufr_file.subsample_suffix_array(2);
    for width in [IntWidth::U32, IntWidth::U64] {
        let image = encode_locate_cache(&sub_sa, &sub_rank, width);
        assert_eq!(image.len(), 8 + sub_sa.len() * (width.bytes() + 8));
        let (mem, ranks) = decode_locate_cache(&image, width).unwrap();
        assert_eq!(mem, sub_sa);
        assert_eq!(ranks, sub_rank);
    }
    assert!(decode_locate_cache(&[1, 2, 3], IntWidth::U32).is_err());
}

#[test]
fn test_two_sequences_coordinates() {
    // Index over "ACGTacgtNacgtACGT$" with starts [0, 9]: a suffix at
    // absolute position 11 maps to the second sequence at offset 2.
    let text = b"ACGTacgtNacgtACGT$";
    // Build a one-entry suffix array pointing at position 11 ("gtACGT$").
    let image = build_image(text, &[11], &[0], &[0, 9], &["ABC", "DEF"], 0);
    let mut sufr_file = SufrFile::read("2.sufr", &image, IntWidth::U32).unwrap();
    let positions = locate_one(&mut sufr_file, "gt", true);
    assert_eq!(positions.len(), 1);
    assert_eq!(positions[0].suffix, 11);
    assert_eq!(positions[0].sequence_name, "DEF".to_string());
    assert_eq!(positions[0].sequence_position, 2);
}
