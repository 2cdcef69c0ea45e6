//! Scoring: evaluate a pattern against a candidate file's header chunk,
//! returning a non-negative integer point total.
//!
//! Byte sequences and regular expressions are mandatory when present: one
//! failure of either voids the whole score. Strings and composition add
//! points when they match; a file extension match adds a fixed bonus. The
//! candidate's entropy, in hundredths of a bit, is computed by the caller
//! from the chunk's byte histogram and passed in.

use vstd::prelude::*;

use crate::pattern::{
    composition_enabled, data_max_points, pattern_data_valid, sum_regex_points, sum_str_lens,
    Pattern, PatternData,
};
use crate::regexes::regex_found;
use crate::sequences::{model, run_matches, sum_entry_lens};
use crate::strings::{extracted_tokens, model_set};
use crate::utils::{ext_of, upper_of};

verus! {

/// The points awarded when the candidate's entropy lies within the
/// pattern's entropy band.
pub const ENTROPY_POINTS: usize = 15;

/// The points awarded for a file extension match.
pub const FILE_EXTENSION_POINTS: usize = 5;

/// The bonus points awarded per regular expression match, on top of the
/// pattern source length.
pub const REGULAR_EXPRESSION_EXTRA_POINTS: usize = 15;

/// Whether every positional sequence of the pattern is present in the
/// chunk.
pub open spec fn all_sequences_match(seqs: Seq<(usize, Seq<u8>)>, chunk: Seq<u8>) -> bool {
    forall|k: int| 0 <= k < seqs.len() ==> run_matches(chunk, #[trigger] seqs[k])
}

/// The points the pattern's strings earn on a chunk: the length of every
/// pattern string the chunk's extracted strings contain.
pub open spec fn string_points_spec(strings: Seq<Seq<u8>>, chunk: Seq<u8>) -> int
    decreases strings.len(),
{
    if strings.len() == 0 {
        0
    } else {
        (if extracted_tokens(chunk).contains(strings[0]) {
            strings[0].len() as int
        } else {
            0
        }) + string_points_spec(strings.drop_first(), chunk)
    }
}

/// Whether every regular expression of the pattern matches somewhere in
/// the chunk.
pub open spec fn all_regexes_match(regexes: Seq<String>, chunk: Seq<u8>) -> bool {
    forall|k: int| 0 <= k < regexes.len() ==> regex_found((#[trigger] regexes[k])@, chunk)
}

/// The composition points: the full award when the candidate's entropy lies
/// within the pattern's band, nothing otherwise or when composition is
/// disabled.
pub open spec fn entropy_points_spec(d: PatternData, chunk_entropy: u16) -> int {
    if composition_enabled(d) && d.min_entropy <= chunk_entropy && chunk_entropy <= d.max_entropy {
        ENTROPY_POINTS as int
    } else {
        0
    }
}

/// The extension bonus: awarded when the uppercased extension of the path
/// is one of the pattern's known extensions.
pub open spec fn extension_points_spec(p: Pattern, path: Seq<char>) -> int {
    if exists|k: int|
        0 <= k < p.type_data.known_extensions@.len()
            && (#[trigger] p.type_data.known_extensions@[k])@ == upper_of(ext_of(path)) {
        FILE_EXTENSION_POINTS as int
    } else {
        0
    }
}

/// The score of a pattern against a chunk: zero when any sequence or any
/// regular expression fails, otherwise the sum of the sequence, regular
/// expression, string, composition and extension points.
pub open spec fn compute_spec(p: Pattern, chunk: Seq<u8>, path: Seq<char>, chunk_entropy: u16) -> int {
    if (p.data.sequences@.len() > 0 && !all_sequences_match(model(p.data.sequences@), chunk)) || (
    p.data.regexes@.len() > 0 && !all_regexes_match(p.data.regexes@, chunk)) {
        0
    } else {
        sum_entry_lens(model(p.data.sequences@)) + sum_regex_points(p.data.regexes@)
            + string_points_spec(model_set(p.data.strings@), chunk) + entropy_points_spec(
            p.data,
            chunk_entropy,
        ) + extension_points_spec(p, path)
    }
}

/// The point calculator.
pub struct FilePointCalculator {}

impl FilePointCalculator {
    /// Compute the points a pattern awards to a candidate file, given its
    /// header chunk, its path and the chunk's entropy in hundredths of a
    /// bit.
    pub fn compute(pattern: &Pattern, chunk: &[u8], path: &str, chunk_entropy: u16) -> (r: usize)
        requires
            pattern_data_valid(pattern.data),
        ensures
            r == compute_spec(*pattern, chunk@, path@, chunk_entropy),
    {
        let mut points: usize = 0;
        proof {
            crate::pattern::lemma_pattern_sums_nonneg(pattern.data);
        }
        if pattern.data.should_scan_sequences() {
            let (p, success) = Self::test_byte_sequences(pattern, chunk);
            if !success {
                return 0;
            }
            points = p;
        }
        if pattern.data.should_scan_regular_expressions() {
            let (p, success) = Self::test_regular_expressions(pattern, chunk);
            if !success {
                return 0;
            }
            proof {
                crate::pattern::lemma_pattern_sums_nonneg(pattern.data);
            }
            points = points + p;
        } else {
            proof {
                assert(sum_regex_points(pattern.data.regexes@) == 0);
                assert(all_regexes_match(pattern.data.regexes@, chunk@));
            }
        }
        if pattern.data.should_scan_strings() {
            let p = Self::test_file_strings(pattern, chunk);
            proof {
                crate::pattern::lemma_pattern_sums_nonneg(pattern.data);
                let ss = model_set(pattern.data.strings@);
                assert(ss.take(ss.len() as int) =~~= ss);
                lemma_string_points_le(ss, chunk@, ss.len() as int);
            }
            points = points + p;
        } else {
            proof {
                assert(string_points_spec(model_set(pattern.data.strings@), chunk@) == 0) by {
                    assert(model_set(pattern.data.strings@) =~~= Seq::<Seq<u8>>::empty());
                }
            }
        }
        if pattern.data.should_scan_composition() {
            let p = Self::test_entropy(pattern, chunk_entropy);
            proof {
                crate::pattern::lemma_pattern_sums_nonneg(pattern.data);
                let ss = model_set(pattern.data.strings@);
                assert(ss.take(ss.len() as int) =~~= ss);
                lemma_string_points_le(ss, chunk@, ss.len() as int);
            }
            points = points + p;
        }
        let e = Self::test_file_extension(pattern, path);
        proof {
            crate::pattern::lemma_pattern_sums_nonneg(pattern.data);
            let ss = model_set(pattern.data.strings@);
            assert(ss.take(ss.len() as int) =~~= ss);
            lemma_string_points_le(ss, chunk@, ss.len() as int);
        }
        points = points + e;
        proof {
            if pattern.data.sequences@.len() == 0 {
                assert(sum_entry_lens(model(pattern.data.sequences@)) == 0) by {
                    assert(model(pattern.data.sequences@) =~~= Seq::<(usize, Seq<u8>)>::empty());
                }
                assert(all_sequences_match(model(pattern.data.sequences@), chunk@));
            }
        }
        points
    }

    /// Test the pattern's byte sequences against the chunk: every sequence
    /// must be present at its offset; the points are the matched bytes.
    pub fn test_byte_sequences(pattern: &Pattern, bytes: &[u8]) -> (r: (usize, bool))
        requires
            pattern_data_valid(pattern.data),
        ensures
            r.1 == all_sequences_match(model(pattern.data.sequences@), bytes@),
            r.1 ==> r.0 == sum_entry_lens(model(pattern.data.sequences@)),
            !r.1 ==> r.0 == 0,
    {
        let ghost seqs = model(pattern.data.sequences@);
        let bytes_len = bytes.len();
        let mut points: usize = 0;
        let mut k: usize = 0;
        proof {
            assert(seqs.take(0) =~~= Seq::<(usize, Seq<u8>)>::empty());
        }
        while k < pattern.data.sequences.len()
            invariant
                pattern_data_valid(pattern.data),
                seqs == model(pattern.data.sequences@),
                bytes_len == bytes@.len(),
                k <= seqs.len(),
                points == sum_entry_lens(seqs.take(k as int)),
                forall|m: int| 0 <= m < k ==> run_matches(bytes@, #[trigger] seqs[m]),
            decreases seqs.len() - k,
        {
            let start = pattern.data.sequences[k].0;
            let len = pattern.data.sequences[k].1.len();
            proof {
                assert(seqs[k as int] == (pattern.data.sequences@[k as int].0, pattern.data.sequences@[k as int].1@));
            }
            if start > bytes_len || len > bytes_len - start {
                proof {
                    assert(!run_matches(bytes@, seqs[k as int]));
                }
                return (0, false);
            }
            let window = vstd::slice::slice_subrange(bytes, start, start + len);
            if !crate::strings::bytes_equal(window, pattern.data.sequences[k].1.as_slice()) {
                proof {
                    assert(!run_matches(bytes@, seqs[k as int]));
                }
                return (0, false);
            }
            proof {
                assert(run_matches(bytes@, seqs[k as int]));
                crate::pattern::lemma_sum_take_step_entries(seqs, k as int);
                crate::pattern::lemma_pattern_sums_nonneg(pattern.data);
                crate::pattern::lemma_entry_prefix_bound(pattern.data, k + 1int);
            }
            points = points + len;
            k += 1;
        }
        proof {
            assert(seqs.take(seqs.len() as int) =~~= seqs);
        }
        (points, true)
    }

    /// Test the pattern's regular expressions against the chunk: every
    /// expression must match somewhere; the points are the source lengths
    /// plus the fixed bonus for each.
    pub fn test_regular_expressions(pattern: &Pattern, bytes: &[u8]) -> (r: (usize, bool))
        requires
            pattern_data_valid(pattern.data),
        ensures
            r.1 == all_regexes_match(pattern.data.regexes@, bytes@),
            r.1 ==> r.0 == sum_regex_points(pattern.data.regexes@),
            !r.1 ==> r.0 == 0,
    {
        let ghost rs = pattern.data.regexes@;
        let mut points: usize = 0;
        let mut k: usize = 0;
        proof {
            assert(rs.take(0) =~~= Seq::<String>::empty());
            crate::pattern::lemma_pattern_sums_nonneg(pattern.data);
        }
        while k < pattern.data.regexes.len()
            invariant
                pattern_data_valid(pattern.data),
                rs == pattern.data.regexes@,
                k <= rs.len(),
                points == sum_regex_points(rs.take(k as int)),
                forall|m: int| 0 <= m < k ==> regex_found((#[trigger] rs[m])@, bytes@),
            decreases rs.len() - k,
        {
            let found = crate::regexes::regex_match_in(pattern.data.regexes[k].as_str(), bytes);
            if !found {
                proof {
                    assert(!regex_found(rs[k as int]@, bytes@));
                }
                return (0, false);
            }
            proof {
                crate::pattern::lemma_sum_regex_take_step_pub(rs, k as int);
                crate::pattern::lemma_pattern_sums_nonneg(pattern.data);
                crate::pattern::lemma_regex_prefix_bound(pattern.data, k + 1int);
            }
            points = points + pattern.data.regexes[k].as_str().unicode_len()
                + REGULAR_EXPRESSION_EXTRA_POINTS;
            k += 1;
        }
        proof {
            assert(rs.take(rs.len() as int) =~~= rs);
        }
        (points, true)
    }

    /// Test the pattern's entropy band against the candidate's entropy.
    pub fn test_entropy(pattern: &Pattern, chunk_entropy: u16) -> (r: usize)
        ensures
            r == entropy_points_spec(pattern.data, chunk_entropy),
    {
        if pattern.data.max_entropy == 0 && pattern.data.min_entropy == 0 {
            return 0;
        }
        if chunk_entropy < pattern.data.min_entropy || chunk_entropy > pattern.data.max_entropy {
            return 0;
        }
        ENTROPY_POINTS
    }

    /// Test the candidate path's extension against the pattern's known
    /// extensions.
    pub fn test_file_extension(pattern: &Pattern, path: &str) -> (r: usize)
        ensures
            r == extension_points_spec(*pattern, path@),
    {
        let ext = crate::utils::get_file_extension(path);
        let mut k: usize = 0;
        while k < pattern.type_data.known_extensions.len()
            invariant
                ext@ == upper_of(ext_of(path@)),
                k <= pattern.type_data.known_extensions@.len(),
                forall|m: int|
                    0 <= m < k ==> (#[trigger] pattern.type_data.known_extensions@[m])@ != ext@,
            decreases pattern.type_data.known_extensions@.len() - k,
        {
            if pattern.type_data.known_extensions[k].eq(&ext) {
                return FILE_EXTENSION_POINTS;
            }
            k += 1;
        }
        proof {
            if exists|m: int|
                0 <= m < pattern.type_data.known_extensions@.len()
                    && (#[trigger] pattern.type_data.known_extensions@[m])@ == upper_of(
                    ext_of(path@),
                ) {
                let m = choose|m: int|
                    0 <= m < pattern.type_data.known_extensions@.len()
                        && (#[trigger] pattern.type_data.known_extensions@[m])@ == upper_of(
                        ext_of(path@),
                    );
                assert(false);
            }
        }
        0
    }

    /// Test the pattern's strings against the strings extracted from the
    /// chunk; each present string earns its length.
    pub fn test_file_strings(pattern: &Pattern, bytes: &[u8]) -> (r: usize)
        requires
            pattern_data_valid(pattern.data),
        ensures
            r == string_points_spec(model_set(pattern.data.strings@), bytes@),
    {
        let ghost ss = model_set(pattern.data.strings@);
        let found = crate::strings::extract_file_strings(bytes);
        let mut points: usize = 0;
        let mut k: usize = 0;
        proof {
            lemma_string_points_take_zero(ss, bytes@);
            crate::pattern::lemma_pattern_sums_nonneg(pattern.data);
        }
        while k < pattern.data.strings.len()
            invariant
                pattern_data_valid(pattern.data),
                ss == model_set(pattern.data.strings@),
                k <= ss.len(),
                points == string_points_spec(ss.take(k as int), bytes@),
                points <= data_max_points(pattern.data),
                forall|i: int|
                    0 <= i < found@.len() ==> extracted_tokens(bytes@).contains(
                        #[trigger] found@[i]@,
                    ),
                forall|t: Seq<u8>|
                    #[trigger] extracted_tokens(bytes@).contains(t) ==> exists|i: int|
                        0 <= i < found@.len() && found@[i]@ == t,
            decreases ss.len() - k,
        {
            let present = crate::strings::contains_bytes(&found, &pattern.data.strings[k]);
            proof {
                assert(ss[k as int] == pattern.data.strings@[k as int]@);
                assert(present == extracted_tokens(bytes@).contains(ss[k as int])) by {
                    if present {
                        let j = choose|j: int|
                            0 <= j < found@.len() && found@[j]@ == pattern.data.strings@[k as int]@;
                        assert(extracted_tokens(bytes@).contains(found@[j]@));
                    } else {
                        if extracted_tokens(bytes@).contains(ss[k as int]) {
                            let j = choose|j: int|
                                0 <= j < found@.len() && found@[j]@ == ss[k as int];
                            assert(false);
                        }
                    }
                }
                lemma_string_points_take_step(ss, bytes@, k as int);
                lemma_string_points_le(ss, bytes@, k + 1int);
                crate::pattern::lemma_pattern_sums_nonneg(pattern.data);
                crate::pattern::lemma_string_prefix_bound(pattern.data, k + 1int);
            }
            if present {
                points = points + pattern.data.strings[k].len();
            }
            k += 1;
        }
        proof {
            assert(ss.take(ss.len() as int) =~~= ss);
        }
        points
    }
}

proof fn lemma_string_points_take_zero(ss: Seq<Seq<u8>>, chunk: Seq<u8>)
    ensures
        string_points_spec(ss.take(0), chunk) == 0,
{
    assert(ss.take(0) =~~= Seq::<Seq<u8>>::empty());
}

proof fn lemma_string_points_concat(s1: Seq<Seq<u8>>, s2: Seq<Seq<u8>>, chunk: Seq<u8>)
    ensures
        string_points_spec(s1 + s2, chunk) == string_points_spec(s1, chunk) + string_points_spec(
            s2,
            chunk,
        ),
    decreases s1.len(),
{
    if s1.len() == 0 {
        assert(s1 + s2 =~~= s2);
    } else {
        assert((s1 + s2).drop_first() =~~= s1.drop_first() + s2);
        assert((s1 + s2)[0] == s1[0]);
        lemma_string_points_concat(s1.drop_first(), s2, chunk);
    }
}

proof fn lemma_string_points_take_step(ss: Seq<Seq<u8>>, chunk: Seq<u8>, k: int)
    requires
        0 <= k < ss.len(),
    ensures
        string_points_spec(ss.take(k + 1), chunk) == string_points_spec(ss.take(k), chunk) + (
        if extracted_tokens(chunk).contains(ss[k]) {
            ss[k].len() as int
        } else {
            0
        }),
{
    assert(ss.take(k + 1) =~~= ss.take(k) + seq![ss[k]]);
    lemma_string_points_concat(ss.take(k), seq![ss[k]], chunk);
    assert(seq![ss[k]].drop_first() =~~= Seq::<Seq<u8>>::empty());
    assert(string_points_spec(Seq::<Seq<u8>>::empty(), chunk) == 0);
}

/// Earned string points never exceed the available ones.
proof fn lemma_string_points_le(ss: Seq<Seq<u8>>, chunk: Seq<u8>, hi: int)
    requires
        0 <= hi <= ss.len(),
    ensures
        0 <= string_points_spec(ss.take(hi), chunk) <= sum_str_lens(ss.take(hi)),
    decreases hi,
{
    if hi == 0 {
        assert(ss.take(0) =~~= Seq::<Seq<u8>>::empty());
    } else {
        lemma_string_points_le(ss, chunk, hi - 1);
        lemma_string_points_take_step(ss, chunk, hi - 1);
        crate::pattern::lemma_sum_str_take_step_pub(ss, hi - 1);
    }
}

/// When any sequence of the pattern fails against the chunk, the overall
/// score is exactly zero.
pub proof fn lemma_failed_sequence_zero(p: Pattern, chunk: Seq<u8>, path: Seq<char>, e: u16)
    requires
        p.data.sequences@.len() > 0,
        !all_sequences_match(model(p.data.sequences@), chunk),
    ensures
        compute_spec(p, chunk, path, e) == 0,
{
}

/// No achievable score exceeds the pattern's maximum points, and no score
/// is negative.
pub proof fn lemma_score_le_max_points(p: Pattern, chunk: Seq<u8>, path: Seq<char>, e: u16)
    ensures
        0 <= compute_spec(p, chunk, path, e) <= data_max_points(p.data),
{
    crate::pattern::lemma_pattern_sums_nonneg(p.data);
    let ss = model_set(p.data.strings@);
    assert(ss.take(ss.len() as int) =~~= ss);
    lemma_string_points_le(ss, chunk, ss.len() as int);
}

/// When any regular expression of the pattern fails to match the chunk, the
/// overall score is exactly zero.
pub proof fn lemma_failed_regex_zero(p: Pattern, chunk: Seq<u8>, path: Seq<char>, e: u16)
    requires
        p.data.regexes@.len() > 0,
        !all_regexes_match(p.data.regexes@, chunk),
    ensures
        compute_spec(p, chunk, path, e) == 0,
{
}

/// A pattern whose sequences were all observed in a chunk scores above zero
/// on that chunk: evidence from the training set is always rewarded.
pub proof fn lemma_training_chunk_scores(p: Pattern, chunk: Seq<u8>, path: Seq<char>, e: u16)
    requires
        pattern_data_valid(p.data),
        p.data.regexes@.len() == 0,
        p.data.sequences@.len() > 0,
        forall|k: int|
            0 <= k < p.data.sequences@.len() ==> run_matches(
                chunk,
                #[trigger] model(p.data.sequences@)[k],
            ),
    ensures
        compute_spec(p, chunk, path, e) > 0,
{
    crate::pattern::lemma_pattern_sums_nonneg(p.data);
    let seqs = model(p.data.sequences@);
    assert(all_sequences_match(seqs, chunk));
    assert(sum_entry_lens(seqs) >= 1) by {
        assert(crate::sequences::keep_sequence(seqs[0]));
        assert(seqs.drop_first().len() == seqs.len() - 1);
        lemma_sum_entries_first(seqs);
    }
    assert(all_regexes_match(p.data.regexes@, chunk));
    let ss = model_set(p.data.strings@);
    assert(ss.take(ss.len() as int) =~~= ss);
    lemma_string_points_le(ss, chunk, ss.len() as int);
}

proof fn lemma_sum_entries_first(seqs: Seq<(usize, Seq<u8>)>)
    requires
        seqs.len() > 0,
    ensures
        sum_entry_lens(seqs) >= seqs[0].1.len(),
{
    lemma_sum_entries_nonneg_local(seqs.drop_first());
}

proof fn lemma_sum_entries_nonneg_local(s: Seq<(usize, Seq<u8>)>)
    ensures
        sum_entry_lens(s) >= 0,
    decreases s.len(),
{
    if s.len() > 0 {
        lemma_sum_entries_nonneg_local(s.drop_first());
    }
}

/// A pattern built from a training set scores above zero on the set's own
/// first chunk whenever it holds sequence evidence: every stored sequence
/// was observed in every training chunk, the first included.
pub proof fn lemma_built_pattern_scores_on_first(
    p: Pattern,
    chunks: Seq<Seq<u8>>,
    path: Seq<char>,
    e: u16,
)
    requires
        pattern_data_valid(p.data),
        p.data.regexes@.len() == 0,
        p.data.sequences@.len() > 0,
        chunks.len() > 0,
        forall|k: int, j: int|
            #![trigger model(p.data.sequences@)[k], chunks[j]]
            0 <= k < p.data.sequences@.len() && 0 <= j < chunks.len() ==> run_matches(
                chunks[j],
                model(p.data.sequences@)[k],
            ),
    ensures
        compute_spec(p, chunks[0], path, e) > 0,
{
    assert forall|k: int| 0 <= k < p.data.sequences@.len() implies run_matches(
        chunks[0],
        #[trigger] model(p.data.sequences@)[k],
    ) by {}
    lemma_training_chunk_scores(p, chunks[0], path, e);
}

} // verus!
