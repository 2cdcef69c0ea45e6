//! Matching, scoring, persistence round trips and helper behavior.

use itf_core::codec::{from_json_str, render_pattern};
use itf_core::file_point_calculator::FilePointCalculator;
use itf_core::histogram::{count_byte_frequencies, new_histogram};
use itf_core::pattern::Pattern;
use itf_core::pattern_handler::{match_patterns, PatternHandler, PatternMatch};

fn entropy_centibits(freq: &Vec<usize>) -> u16 {
    let mut total: f32 = 0.0;
    for &c in freq.iter() {
        total += c as f32;
    }
    if total == 0.0 {
        return 0;
    }
    let mut e: f32 = 0.0;
    for &c in freq.iter() {
        if c > 0 {
            let p = c as f32 / total;
            e -= p * p.log2();
        }
    }
    (e * 100.0) as u16
}

fn chunk_entropy(chunk: &[u8]) -> u16 {
    let mut hist = new_histogram();
    count_byte_frequencies(chunk, &mut hist);
    entropy_centibits(&hist)
}

fn per_file_entropies(chunks: &Vec<Vec<u8>>) -> Vec<u16> {
    let mut out: Vec<u16> = Vec::new();
    for c in chunks.iter() {
        out.push(chunk_entropy(c.as_slice()));
    }
    out
}

fn build_full(name: &str, chunks: Vec<Vec<u8>>) -> Pattern {
    let entropies = per_file_entropies(&chunks);
    let mut pattern = Pattern::new(name, "test", vec!["test".to_string()], vec![]);
    pattern.add_submitter_data("someone", "someone@example.com", "2024-01-01T00:00:00Z");
    pattern.build_patterns_from_data(&chunks, true, true, true, &entropies);
    pattern.compute_attributes();
    pattern
}

fn handler_with(docs: Vec<String>) -> PatternHandler {
    let mut handler = PatternHandler::new();
    handler.read(&docs);
    handler
}

fn run_match(handler: &PatternHandler, chunk: &[u8], path: &str) -> Vec<PatternMatch> {
    match_patterns(handler, chunk, path, chunk_entropy(chunk))
}

#[test]
fn lib_test_matching_1() {
    // A pattern freshly built from a training set fully matches the set's
    // own first file.
    let training = vec![b"abcdefghijk".to_vec(), b"abcdefghijk".to_vec()];
    let pattern = build_full("valid", training.clone());
    let doc = render_pattern(&pattern);
    let handler = handler_with(vec![doc]);
    assert!(!handler.is_empty());

    let results = run_match(&handler, training[0].as_slice(), "sample.test");
    assert_eq!(results.len(), 1);
    let first = &results[0];
    assert_eq!(first.uuid, pattern.type_data.uuid);
    assert_eq!(first.percentage_tenths, 1000);
}

#[test]
fn lib_test_matching_2() {
    // A second pattern whose byte sequence mismatches is filtered out.
    let training = vec![b"abcdefghijk".to_vec(), b"abcdefghijk".to_vec()];
    let pattern = build_full("valid", training.clone());
    let other = build_full("other", vec![b"zyxwvutsrqp".to_vec(), b"zyxwvutsrqp".to_vec()]);
    let handler = handler_with(vec![render_pattern(&pattern), render_pattern(&other)]);

    let results = run_match(&handler, training[0].as_slice(), "sample.test");
    assert_eq!(results.len(), 1);
    assert_eq!(results[0].uuid, pattern.type_data.uuid);
    assert_eq!(results[0].percentage_tenths, 1000);
}

#[test]
fn lib_test_matching_3() {
    // Two applicable patterns: the fresh full match ranks first, the less
    // perfect match second.
    let training = vec![b"abcdefghijk123".to_vec(), b"abcdefghijk123".to_vec()];
    let pattern = build_full("valid", training.clone());
    // The weaker pattern matches only a prefix of the candidate.
    let weaker = build_full(
        "weaker",
        vec![b"abcdefghijk123".to_vec(), b"abcdefghijkXYZ".to_vec()],
    );
    let handler = handler_with(vec![render_pattern(&pattern), render_pattern(&weaker)]);

    let results = run_match(&handler, training[0].as_slice(), "sample.test");
    assert_eq!(results.len(), 2);
    assert_eq!(results[0].uuid, pattern.type_data.uuid);
    assert_eq!(results[0].percentage_tenths, 1000);
    assert!(results[1].percentage_tenths <= 1000);
}

#[test]
fn lib_test_matching_4() {
    // A fundamentally different candidate yields no matches at all.
    let training = vec![b"abcdefghijk".to_vec(), b"abcdefghijk".to_vec()];
    let pattern = build_full("valid", training);
    let handler = handler_with(vec![render_pattern(&pattern)]);

    let results = run_match(&handler, b"0000000000000000", "target.abc");
    assert_eq!(results.len(), 0);
}

#[test]
fn extension_bonus_alone_scores_five() {
    // A minimal pattern with one known extension and no other evidence
    // awards exactly the extension points.
    let mut pattern = Pattern::new("minimal", "", vec!["test".to_string()], vec![]);
    pattern.compute_attributes();
    let points = FilePointCalculator::compute(&pattern, b"whatever", "archive.test", 0);
    assert_eq!(points, 5);
    let miss = FilePointCalculator::compute(&pattern, b"whatever", "archive.bin", 0);
    assert_eq!(miss, 0);
}

#[test]
fn failing_sequence_voids_the_score() {
    // Any failing sequence makes the whole score exactly zero, even with an
    // extension match on the table.
    let training = vec![b"abcdefghijk".to_vec(), b"abcdefghijk".to_vec()];
    let pattern = build_full("valid", training);
    let points = FilePointCalculator::compute(&pattern, b"abcdefghijX", "sample.test", 0);
    assert_eq!(points, 0);
}

#[test]
fn score_never_exceeds_max_points() {
    let training = vec![b"abcde_fghij_12345".to_vec(), b"abcde_fghij_12399".to_vec()];
    let pattern = build_full("valid", training.clone());
    let candidates: Vec<(&[u8], &str)> = vec![
        (b"abcde_fghij_12345", "a.test"),
        (b"abcde_fghij_12399", "b.bin"),
        (b"abcde_fghij_12", "c.test"),
        (b"completely different", "d.test"),
    ];
    for (chunk, path) in candidates {
        let points = FilePointCalculator::compute(&pattern, chunk, path, chunk_entropy(chunk));
        assert!(points <= pattern.max_points);
    }
}

#[test]
fn persist_and_reload_keeps_max_points() {
    // Persist then load a pattern and recompute its maximum points: the
    // result equals the original.
    let training = vec![
        b"abcdefghijk HELLO WORLD 123".to_vec(),
        b"abcdefghijk HELLO WORLD 456".to_vec(),
    ];
    let pattern = build_full("round trip", training);
    let doc = render_pattern(&pattern);
    let mut reloaded = from_json_str(doc.as_str()).expect("reload failed");
    assert_eq!(reloaded.max_points, 0);
    reloaded.compute_attributes();
    assert_eq!(reloaded.max_points, pattern.max_points);
    assert_eq!(reloaded.type_data.uuid, pattern.type_data.uuid);
    assert_eq!(reloaded.type_data.name, pattern.type_data.name);
    assert_eq!(reloaded.type_data.known_extensions, pattern.type_data.known_extensions);
    assert_eq!(reloaded.data.sequences, pattern.data.sequences);
    assert_eq!(reloaded.data.strings, pattern.data.strings);
    assert_eq!(reloaded.data.min_entropy, pattern.data.min_entropy);
    assert_eq!(reloaded.data.max_entropy, pattern.data.max_entropy);
    assert_eq!(
        reloaded.other_data.total_scanned_files,
        pattern.other_data.total_scanned_files
    );
    assert_eq!(reloaded.submitter_data.scanned_by, pattern.submitter_data.scanned_by);
    assert_eq!(reloaded.submitter_data.scanned_on, pattern.submitter_data.scanned_on);
}

#[test]
fn reload_escaped_identity_strings() {
    // Identity strings holding quotes, backslashes and control characters
    // survive the trip through the document form.
    let mut pattern = Pattern::new(
        "quote \" backslash \\ tab \t end",
        "line\nbreak",
        vec!["test".to_string()],
        vec!["application/x-test".to_string()],
    );
    pattern.compute_attributes();
    let doc = render_pattern(&pattern);
    let reloaded = from_json_str(doc.as_str()).expect("reload failed");
    assert_eq!(reloaded.type_data.name, pattern.type_data.name);
    assert_eq!(reloaded.type_data.description, pattern.type_data.description);
    assert_eq!(reloaded.type_data.known_mimetypes, pattern.type_data.known_mimetypes);
}

#[test]
fn malformed_documents_are_rejected() {
    assert!(from_json_str("").is_err());
    assert!(from_json_str("{}").is_err());
    assert!(from_json_str("not json at all").is_err());
    // A truncated document is rejected too.
    let pattern = Pattern::new("x", "", vec![], vec![]);
    let doc = render_pattern(&pattern);
    let truncated = &doc[0..doc.len() - 2];
    assert!(from_json_str(truncated).is_err());
}

#[test]
fn handler_skips_unreadable_documents() {
    let mut pattern = Pattern::new("good", "", vec!["test".to_string()], vec![]);
    pattern.compute_attributes();
    let handler = handler_with(vec!["garbage".to_string(), render_pattern(&pattern)]);
    assert!(!handler.is_empty());
    assert_eq!(handler.patterns.len(), 1);
}

#[test]
fn regex_match_earns_source_length_plus_bonus() {
    let mut pattern = Pattern::new("rx", "", vec![], vec![]);
    pattern.data.regexes = vec!["AB+C".to_string()];
    pattern.compute_attributes();
    assert_eq!(pattern.max_points, 4 + 15 + 5);
    let hit = FilePointCalculator::compute(&pattern, b"xxABBBCxx", "f.bin", 0);
    assert_eq!(hit, 19);
    let miss = FilePointCalculator::compute(&pattern, b"xxAxxCxx", "f.bin", 0);
    assert_eq!(miss, 0);
}

#[test]
fn one_failing_regex_voids_the_score() {
    // Regular expressions are all-or-nothing: one miss voids the whole
    // score, even when another expression and the extension match.
    let mut pattern = Pattern::new("rx", "", vec!["bin".to_string()], vec![]);
    pattern.data.regexes = vec!["AB+C".to_string(), "ZZZ".to_string()];
    pattern.compute_attributes();
    let points = FilePointCalculator::compute(&pattern, b"xxABBBCxx", "f.bin", 0);
    assert_eq!(points, 0);
    let both = FilePointCalculator::compute(&pattern, b"ABBBC and ZZZ", "f.bin", 0);
    assert_eq!(both, 4 + 15 + 3 + 15 + 5);
}

#[test]
fn refiner_splits_on_mismatch() {
    let mut seqs = vec![(0usize, b"abcdefghijk".to_vec())];
    itf_core::sequences::refine_common_byte_sequences_v2(b"abcdeZghijk", &mut seqs);
    assert_eq!(seqs, vec![(0, b"abcde".to_vec()), (6, b"ghijk".to_vec())]);
    for (off, bytes) in seqs.iter() {
        assert!(off + bytes.len() <= 11);
        assert!(bytes.len() <= 16);
    }
}

#[test]
fn strip_drops_only_empty_and_all_zero_sequences() {
    let mut seqs = vec![
        (0usize, vec![0u8, 0u8]),
        (2usize, vec![1u8, 0u8]),
        (5usize, Vec::new()),
        (7usize, vec![9u8]),
    ];
    itf_core::sequences::strip_unwanted_sequences(&mut seqs);
    assert_eq!(seqs, vec![(2, vec![1u8, 0u8]), (7, vec![9u8])]);
}

#[test]
fn sequences_sort_by_offset_descending() {
    let mut seqs = vec![
        (3usize, vec![1u8]),
        (10usize, vec![2u8]),
        (7usize, vec![3u8]),
    ];
    itf_core::sequences::sort_sequences_by_offset_desc(&mut seqs);
    assert_eq!(seqs, vec![(10, vec![2u8]), (7, vec![3u8]), (3, vec![1u8])]);
}

#[test]
fn sieve_keeps_common_maximal_strings() {
    let mut sets = vec![
        vec![b"ABCDEFGH".to_vec(), b"OTHERS".to_vec()],
        vec![b"xxABCDEFGHxx".to_vec()],
    ];
    let out = itf_core::sieve::common_string_sieve(&mut sets);
    assert_eq!(out, vec![b"ABCDEFGH".to_vec()]);
}

#[test]
fn sieve_output_appears_in_every_set() {
    let mut sets = vec![
        vec![b"HELLO WORLD".to_vec(), b"SOMETHING".to_vec()],
        vec![b"SAY HELLO".to_vec()],
        vec![b"HELLO THERE".to_vec(), b"UNRELATED".to_vec()],
    ];
    let snapshot = sets.clone();
    let out = itf_core::sieve::common_string_sieve(&mut sets);
    assert!(!out.is_empty());
    for w in out.iter() {
        for set in snapshot.iter() {
            let mut appears = false;
            for e in set.iter() {
                if e.windows(w.len()).any(|win| win == w.as_slice()) {
                    appears = true;
                }
            }
            assert!(appears);
        }
        for other in out.iter() {
            if other != w {
                assert!(!other.windows(w.len()).any(|win| win == w.as_slice()));
            }
        }
    }
}

#[test]
fn find_slice_returns_first_occurrence() {
    assert_eq!(itf_core::sieve::find_slice(b"abcabc", b"abc"), Some(0));
    assert_eq!(itf_core::sieve::find_slice(b"xxabc", b"abc"), Some(2));
    assert_eq!(itf_core::sieve::find_slice(b"xxabc", b"abd"), None);
}

#[test]
fn largest_common_substring_prefers_longest() {
    let r = itf_core::sieve::largest_common_substring(b"ABCDEFGH", b"zzCDEFGHzz");
    assert_eq!(r, Some(b"CDEFGH".to_vec()));
    let none = itf_core::sieve::largest_common_substring(b"ABCDEFGH", b"no overlap");
    assert_eq!(none, None);
}

#[test]
fn find_sequence_locates_needle() {
    assert_eq!(itf_core::utils::find_sequence(b"hello world", b"world"), Some(6));
    assert_eq!(itf_core::utils::find_sequence(b"hello world", b"worlds"), None);
}

#[test]
fn file_extension_is_uppercased() {
    assert_eq!(itf_core::utils::get_file_extension("file.test"), "TEST");
    assert_eq!(itf_core::utils::get_file_extension("dir.d/file"), "");
    assert_eq!(itf_core::utils::get_file_extension(".gitignore"), "");
    assert_eq!(itf_core::utils::get_file_extension("a.tar.gz"), "GZ");
    assert_eq!(itf_core::utils::get_file_extension("noext"), "");
}

#[test]
fn invalid_file_name_characters_are_removed() {
    assert_eq!(itf_core::utils::remove_invalid_file_name("a/b:c*d?e"), "abcde");
    assert_eq!(itf_core::utils::sanitize_file_name("plain-name"), "plain-name");
}

#[test]
fn uuids_have_the_expected_shape() {
    let u = itf_core::utils::make_uuid();
    assert_eq!(u.len(), 36);
    for (i, c) in u.chars().enumerate() {
        if i == 8 || i == 13 || i == 18 || i == 23 {
            assert_eq!(c, '-');
        } else {
            assert!(c.is_ascii_hexdigit() && !c.is_ascii_uppercase());
        }
    }
    assert_eq!(
        itf_core::utils::format_uuid(0),
        "00000000-0000-0000-0000-000000000000"
    );
    assert_eq!(
        itf_core::utils::format_uuid(u128::MAX),
        "ffffffff-ffff-ffff-ffff-ffffffffffff"
    );
}

#[test]
fn percentages_round_half_up() {
    let m = PatternMatch::new("id", 1, 3);
    assert_eq!(m.percentage_tenths, 333);
    let half = PatternMatch::new("id", 1, 2);
    assert_eq!(half.percentage_tenths, 500);
    let full = PatternMatch::new("id", 42, 42);
    assert_eq!(full.percentage_tenths, 1000);
}

#[test]
fn fresh_training_evidence_scores_positive() {
    // Scoring a header freshly used to build a pattern stays above zero
    // whenever sequence evidence exists.
    let training = vec![b"abcdefghijk".to_vec(), b"abcdeZghijk".to_vec()];
    let pattern = build_full("fresh", training.clone());
    assert!(!pattern.data.sequences.is_empty());
    let points =
        FilePointCalculator::compute(&pattern, training[0].as_slice(), "x.unknown", 0);
    assert!(points > 0);
}

#[test]
fn arg_parser_collects_flags() {
    let args: Vec<String> = vec![
        "--user".to_string(),
        "ada".to_string(),
        "--extension".to_string(),
        "mkv".to_string(),
        "--help".to_string(),
    ];
    let parsed = itf_core::arg_parser::ArgParser::from_args(&args);
    assert_eq!(parsed.user_name, "ada");
    assert_eq!(parsed.pattern_target_extension, "mkv");
    assert!(parsed.help);
}

#[test]
fn documents_with_invalid_regexes_are_rejected() {
    let mut pattern = Pattern::new("rx", "", vec![], vec![]);
    pattern.data.regexes = vec!["(".to_string()];
    let doc = itf_core::codec::render_pattern(&pattern);
    assert!(from_json_str(doc.as_str()).is_err());
    pattern.data.regexes = vec!["A(B)C".to_string()];
    let doc2 = itf_core::codec::render_pattern(&pattern);
    let reloaded = from_json_str(doc2.as_str()).expect("valid regex should load");
    assert_eq!(reloaded.data.regexes, vec!["A(B)C".to_string()]);
}

#[test]
fn build_requests_are_validated() {
    assert!(itf_core::pattern::validate_build_request("mkv", true, true, true).is_ok());
    assert!(itf_core::pattern::validate_build_request("", true, true, true).is_err());
    assert!(itf_core::pattern::validate_build_request("mkv", false, false, false).is_err());
    assert!(itf_core::pattern::validate_build_request("mkv", false, false, true).is_ok());
}

#[test]
fn empty_patterns_are_unsatisfiable() {
    let empty = Pattern::new("empty", "", vec![], vec![]);
    assert!(empty.check_evidence().is_err());
    let built = build_full("full", vec![b"abcdefghijk".to_vec(), b"abcdefghijk".to_vec()]);
    assert!(built.check_evidence().is_ok());
}

#[test]
fn error_kinds_describe_themselves() {
    assert_eq!(itf_core::pattern::PatternError::IoFailed.as_str(), "io failed");
    assert_eq!(itf_core::pattern::PatternError::InvalidInput.as_str(), "invalid input");
    assert_eq!(
        itf_core::pattern::PatternError::MalformedPattern.as_str(),
        "malformed pattern"
    );
    assert_eq!(itf_core::pattern::PatternError::Unsatisfiable.as_str(), "no evidence");
}
