//! Pattern synthesis tests: strings, byte sequences and composition built
//! from small in-memory training sets.

use itf_core::histogram::{count_byte_frequencies, new_histogram};
use itf_core::pattern::Pattern;

fn entropy_centibits(freq: &Vec<usize>) -> u16 {
    let mut total: f32 = 0.0;
    for &c in freq.iter() {
        total += c as f32;
    }
    if total == 0.0 {
        return 0;
    }
    let mut e: f32 = 0.0;
    for &c in freq.iter() {
        if c > 0 {
            let p = c as f32 / total;
            e -= p * p.log2();
        }
    }
    (e * 100.0) as u16
}

fn per_file_entropies(chunks: &Vec<Vec<u8>>) -> Vec<u16> {
    let mut out: Vec<u16> = Vec::new();
    for c in chunks.iter() {
        let mut hist = new_histogram();
        count_byte_frequencies(c.as_slice(), &mut hist);
        out.push(entropy_centibits(&hist));
    }
    out
}

fn build_test(chunks: Vec<Vec<u8>>, strings: bool, bytes: bool, entropy: bool) -> Pattern {
    let entropies = if entropy { per_file_entropies(&chunks) } else { Vec::new() };
    let mut pattern = Pattern::new("test", "test", vec!["test".to_string()], vec![]);
    pattern.build_patterns_from_data(&chunks, strings, bytes, entropy, &entropies);
    pattern
}

fn sorted(mut v: Vec<Vec<u8>>) -> Vec<Vec<u8>> {
    v.sort();
    v
}

#[test]
fn pattern_test_string_1() {
    // Basic match, two files both completely matching.
    let pattern = build_test(
        vec![b"abcdefghijk".to_vec(), b"abcdefghijk".to_vec()],
        true,
        false,
        false,
    );
    assert_eq!(sorted(pattern.data.strings), vec![b"ABCDEFGHIJK".to_vec()]);
}

#[test]
fn pattern_test_string_2() {
    // Simple non-match, two files and none are matching.
    let pattern = build_test(
        vec![b"abcdefghijk".to_vec(), b"xyxyxyxyxyx".to_vec()],
        true,
        false,
        false,
    );
    assert!(pattern.data.strings.is_empty());
}

#[test]
fn pattern_test_string_3() {
    // Simple match, but only a substring is matching.
    let pattern = build_test(
        vec![b"abcdefghijk".to_vec(), b"abcdeZZZZZk".to_vec()],
        true,
        false,
        false,
    );
    assert_eq!(sorted(pattern.data.strings), vec![b"ABCDE".to_vec()]);
}

#[test]
fn pattern_test_string_4() {
    // Split match: a non-printable delimiter yields two substrings.
    let pattern = build_test(
        vec![b"ABCDE\x00GHIJK".to_vec(), b"ABCDE\x00GHIJK".to_vec()],
        true,
        false,
        false,
    );
    assert_eq!(
        sorted(pattern.data.strings),
        vec![b"ABCDE".to_vec(), b"GHIJK".to_vec()]
    );
}

#[test]
fn pattern_test_string_5() {
    // Split match, one substring: the first run is too short to keep.
    let pattern = build_test(
        vec![b"ABC\x00GHIJK".to_vec(), b"ABC\x00GHIJK".to_vec()],
        true,
        false,
        false,
    );
    assert_eq!(sorted(pattern.data.strings), vec![b"GHIJK".to_vec()]);
}

#[test]
fn pattern_test_string_6() {
    // Split match, two substrings; the middle run is skipped for length.
    let data = "abcdefghijk\u{160}a\u{160}123456".as_bytes().to_vec();
    let pattern = build_test(vec![data.clone(), data], true, false, false);
    assert_eq!(
        sorted(pattern.data.strings),
        vec![b"123456".to_vec(), b"ABCDEFGHIJK".to_vec()]
    );
}

#[test]
fn pattern_test_string_7() {
    // Split match, one substring; the first run is skipped for length.
    let data = b"abcd\x00a\x00123456".to_vec();
    let pattern = build_test(vec![data.clone(), data], true, false, false);
    assert_eq!(sorted(pattern.data.strings), vec![b"123456".to_vec()]);
}

#[test]
fn pattern_test_string_8() {
    // All of the safe string characters come back, uppercased, in one
    // maximum-length string.
    let data = b" !#$+,-./0123456789<=>?ABCDEFGHIJKLMNOPQRSTUVWXYZ_abcdefghijklmn".to_vec();
    assert_eq!(data.len(), 64);
    let pattern = build_test(vec![data.clone(), data], true, false, false);
    assert_eq!(
        sorted(pattern.data.strings),
        vec![b" !#$+,-./0123456789<=>?ABCDEFGHIJKLMNOPQRSTUVWXYZ_ABCDEFGHIJKLMN".to_vec()]
    );
}

#[test]
fn pattern_test_byte_sequence_1() {
    // Basic match, two files both completely matching.
    let pattern = build_test(
        vec![b"abcdefghijk".to_vec(), b"abcdefghijk".to_vec()],
        false,
        true,
        false,
    );
    assert_eq!(pattern.data.sequences, vec![(0, b"abcdefghijk".to_vec())]);
}

#[test]
fn pattern_test_byte_sequence_2() {
    // Simple non-match, two files and none are matching.
    let pattern = build_test(
        vec![b"abcdefghijk".to_vec(), b"xyxyxyxyxyx".to_vec()],
        false,
        true,
        false,
    );
    assert_eq!(pattern.data.sequences, vec![]);
}

#[test]
fn pattern_test_byte_sequence_3() {
    // Simple match, two sub-sequences matching.
    let pattern = build_test(
        vec![b"abcdefghijk".to_vec(), b"abcdeZghijk".to_vec()],
        false,
        true,
        false,
    );
    assert_eq!(
        pattern.data.sequences,
        vec![(6, b"ghijk".to_vec()), (0, b"abcde".to_vec())]
    );
}

#[test]
fn pattern_test_byte_sequence_4() {
    // Single match: the tail of the second sample is shifted and does not
    // match positionally.
    let pattern = build_test(
        vec![b"abcdefghijk".to_vec(), b"abcdeXfghijk".to_vec()],
        false,
        true,
        false,
    );
    assert_eq!(pattern.data.sequences, vec![(0, b"abcde".to_vec())]);
}

#[test]
fn pattern_test_byte_sequence_5() {
    // No matches at all.
    let pattern = build_test(
        vec![b"abcde".to_vec(), b"vwxyz".to_vec()],
        false,
        true,
        false,
    );
    assert_eq!(pattern.data.sequences, vec![]);
}

#[test]
fn pattern_test_byte_sequence_6() {
    // The whole sequence matches but exceeds the maximum length, so it is
    // split into two segments.
    let data = "abcdefghijk\u{160}a\u{160}123456".as_bytes().to_vec();
    let pattern = build_test(vec![data.clone(), data], false, true, false);
    assert_eq!(
        pattern.data.sequences,
        vec![
            (16, b"123456".to_vec()),
            (0, "abcdefghijk\u{160}a\u{160}".as_bytes().to_vec()),
        ]
    );
}

#[test]
fn pattern_test_byte_sequence_7() {
    // Split match, two subsequences.
    let f1 = "abcdefghijk\u{160}a\u{160}123456".as_bytes().to_vec();
    let f2 = b"ABCDEFGHIJKXYaXY123456".to_vec();
    let pattern = build_test(vec![f1, f2], false, true, false);
    assert_eq!(
        pattern.data.sequences,
        vec![(16, b"123456".to_vec()), (13, b"a".to_vec())]
    );
}

#[test]
fn pattern_test_byte_sequence_8() {
    // Single match at the very end.
    let pattern = build_test(
        vec![b"abcdefghijk".to_vec(), b"XXXXXXXXXXk".to_vec()],
        false,
        true,
        false,
    );
    assert_eq!(pattern.data.sequences, vec![(10, b"k".to_vec())]);
}

#[test]
fn pattern_test_byte_sequence_9() {
    // Single match at the beginning; the all-zero sequence is stripped.
    let pattern = build_test(
        vec![
            b"abcdefghijkX\x00\x00\x00\x00\x00".to_vec(),
            b"abcdefghijkY\x00\x00\x00\x00\x00".to_vec(),
        ],
        false,
        true,
        false,
    );
    assert_eq!(pattern.data.sequences, vec![(0, b"abcdefghijk".to_vec())]);
}

#[test]
fn pattern_test_entropy_3() {
    // A single repeating byte has zero entropy, which disables composition.
    let pattern = build_test(vec![vec![0x61; 256], vec![0x61; 256]], false, false, true);
    assert_eq!(pattern.data.max_entropy, 0);
    assert_eq!(pattern.data.min_entropy, 0);
}

#[test]
fn test_no_strings_observed() {
    let pattern = build_test(
        vec![b"abcdefghijk".to_vec(), b"abcdefghijk".to_vec()],
        false,
        true,
        false,
    );
    assert!(
        pattern.data.strings.is_empty(),
        "strings were set when no strings was specified"
    );
}

#[test]
fn test_no_sequences_observed() {
    let pattern = build_test(
        vec![b"abcdefghijk".to_vec(), b"abcdefghijk".to_vec()],
        true,
        false,
        false,
    );
    assert!(
        pattern.data.sequences.is_empty(),
        "sequences were set when no sequences was specified"
    );
}

#[test]
fn test_no_composition_observed() {
    let pattern = build_test(
        vec![b"abcdefghijk".to_vec(), b"abcdefghijk".to_vec()],
        true,
        false,
        false,
    );
    assert_eq!(
        pattern.data.max_entropy, 0,
        "maximum entropy was set when composition was not requested"
    );
    assert_eq!(
        pattern.data.min_entropy, 0,
        "minimum entropy was set when composition was not requested"
    );
}

#[test]
fn histogram_sum_matches_length() {
    let data = b"hello, histogram".to_vec();
    let mut hist = new_histogram();
    count_byte_frequencies(data.as_slice(), &mut hist);
    let mut total: usize = 0;
    for &c in hist.iter() {
        total += c;
    }
    assert_eq!(total, data.len());
    count_byte_frequencies(data.as_slice(), &mut hist);
    let mut total2: usize = 0;
    for &c in hist.iter() {
        total2 += c;
    }
    assert_eq!(total2, 2 * data.len());
}

#[test]
fn extracted_strings_are_canonical() {
    let data = b"lowercase words here\x01and MORE words\xff!!".to_vec();
    let strings = itf_core::strings::extract_file_strings(data.as_slice());
    assert!(!strings.is_empty());
    for s in strings.iter() {
        assert!(s.len() >= 5 && s.len() <= 64);
        for &b in s.iter() {
            assert!(b" !#$+,-./0123456789<=>?ABCDEFGHIJKLMNOPQRSTUVWXYZ_".contains(&b));
        }
    }
}

#[test]
fn entropy_stays_in_range() {
    // Shannon entropy of any byte distribution lies within [0, 8] bits,
    // 0 to 800 in hundredths.
    let samples: Vec<Vec<u8>> = vec![
        vec![0x00; 64],
        (0u16..256).map(|b| b as u8).collect(),
        b"mixed content 1234".to_vec(),
    ];
    for s in samples {
        let mut hist = new_histogram();
        count_byte_frequencies(s.as_slice(), &mut hist);
        let e = entropy_centibits(&hist);
        assert!(e <= 800);
    }
}

#[test]
fn entropy_band_tracks_per_file_extremes() {
    // The band is the min and max of the per-file entropies, so every
    // training file's entropy lies within it.
    let low = vec![0x41u8; 64];
    let mut high: Vec<u8> = Vec::new();
    for b in 0u16..256 {
        high.push(b as u8);
    }
    let chunks = vec![low.clone(), high.clone()];
    let entropies = per_file_entropies(&chunks);
    let pattern = build_test(chunks, false, false, true);
    assert_eq!(pattern.data.min_entropy, *entropies.iter().min().unwrap());
    assert_eq!(pattern.data.max_entropy, *entropies.iter().max().unwrap());
    assert!(pattern.data.min_entropy < pattern.data.max_entropy);
    for e in entropies {
        assert!(pattern.data.min_entropy <= e && e <= pattern.data.max_entropy);
    }
}

#[test]
fn flat_buffer_has_zero_entropy() {
    let mut hist = new_histogram();
    count_byte_frequencies(vec![0x41u8; 1024].as_slice(), &mut hist);
    assert_eq!(entropy_centibits(&hist), 0);
}
