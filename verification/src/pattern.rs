//! The pattern record: the fingerprint of one file type, and its synthesis
//! from a training set of sample-file header chunks.

use vstd::prelude::*;

use crate::sequences::{
    entries_interval_ordered, keep_sequence, keep_sequence_pred, lemma_filter_keeps_order,
    lemma_refined_from_ordered, lemma_refined_from_props, model, refined_from, run_matches,
    sum_entry_lens, MAX_BYTE_SEQUENCE_LENGTH,
};
use crate::strings::{dedup_first, extracted_tokens, is_canonical_token, model_set};
use crate::sieve::sieve_spec;
use crate::utils::{is_uuid_shape, upper_of};

verus! {

/// The size of a file header chunk: scanning never reads more than this
/// many bytes of a file.
pub const FILE_CHUNK_SIZE: usize = 5 * 1024 * 1024;

/// The identity of a file type.
pub struct PatternTypeData {
    /// The UUID of the pattern.
    pub uuid: String,
    /// The name of this file type.
    pub name: String,
    /// The description of this file type.
    pub description: String,
    /// Any known extensions for this file type, stored uppercased.
    pub known_extensions: Vec<String>,
    /// Any known mimetypes for this file type.
    pub known_mimetypes: Vec<String>,
    /// A URL documenting the file format.
    pub file_format_url: String,
}

/// The scanning evidence of a pattern.
pub struct PatternData {
    /// Positional byte sequences, sorted by offset descending. A sequence
    /// that fails to match voids the whole pattern.
    pub sequences: Vec<(usize, Vec<u8>)>,
    /// Regular expression sources. Like the byte sequences, a regular
    /// expression that fails to match voids the whole pattern.
    pub regexes: Vec<String>,
    /// Uppercased printable-subset strings; matches are optional.
    pub strings: Vec<Vec<u8>>,
    /// The highest entropy observed across the training samples, in
    /// hundredths of a bit; zero when composition scanning was disabled.
    pub max_entropy: u16,
    /// The lowest entropy observed across the training samples, in
    /// hundredths of a bit; zero when composition scanning was disabled.
    pub min_entropy: u16,
}

/// Bookkeeping data attached to a pattern.
pub struct PatternOtherData {
    /// The total number of sample files scanned to build this pattern.
    pub total_scanned_files: usize,
}

/// Who built and refined the pattern.
pub struct PatternSubmitterData {
    /// The name of the person who performed the initial scan.
    pub scanned_by: String,
    /// The email of the person who performed the initial scan.
    pub scanned_by_email: String,
    /// When the initial scan was performed, as a timestamp string.
    pub scanned_on: String,
    /// The names of the people that refined the scan.
    pub refined_by: Vec<String>,
    /// The emails of the people that refined the scan.
    pub refined_by_email: Vec<String>,
}

/// A file-type fingerprint.
pub struct Pattern {
    /// The basic pattern information.
    pub type_data: PatternTypeData,
    /// The pattern data used when performing a scan.
    pub data: PatternData,
    /// Other data associated with the pattern.
    pub other_data: PatternOtherData,
    /// The submitter information.
    pub submitter_data: PatternSubmitterData,
    /// The maximum number of points a match against this pattern can give;
    /// computed after synthesis or load.
    pub max_points: usize,
}

/// The errors the engine distinguishes.
#[derive(Debug)]
pub enum PatternError {
    /// A file or directory could not be read or written.
    IoFailed,
    /// A request was rejected before any work: no scanning option enabled,
    /// or an empty target extension.
    InvalidInput,
    /// A persisted pattern failed structural validation.
    MalformedPattern,
    /// A build completed but produced a pattern with no evidence.
    Unsatisfiable,
}

impl PatternError {
    /// A short description of the error.
    pub fn as_str(&self) -> (r: &'static str)
        ensures
            r@ == match self {
                PatternError::IoFailed => "io failed"@,
                PatternError::InvalidInput => "invalid input"@,
                PatternError::MalformedPattern => "malformed pattern"@,
                PatternError::Unsatisfiable => "no evidence"@,
            },
    {
        match self {
            PatternError::IoFailed => "io failed",
            PatternError::InvalidInput => "invalid input",
            PatternError::MalformedPattern => "malformed pattern",
            PatternError::Unsatisfiable => "no evidence",
        }
    }
}

/// The total length of a list of strings.
pub open spec fn sum_str_lens(s: Seq<Seq<u8>>) -> int
    decreases s.len(),
{
    if s.len() == 0 {
        0
    } else {
        s[0].len() + sum_str_lens(s.drop_first())
    }
}

/// The points a list of regular expressions can contribute: the source
/// length plus the fixed bonus for each.
pub open spec fn sum_regex_points(s: Seq<String>) -> int
    decreases s.len(),
{
    if s.len() == 0 {
        0
    } else {
        s[0]@.len() + crate::file_point_calculator::REGULAR_EXPRESSION_EXTRA_POINTS
            + sum_regex_points(s.drop_first())
    }
}

/// Whether composition scoring is enabled: disabled exactly when both
/// bounds are zero.
pub open spec fn composition_enabled(d: PatternData) -> bool {
    d.max_entropy != 0 || d.min_entropy != 0
}

/// The maximum number of points a pattern's evidence can give.
pub open spec fn data_max_points(d: PatternData) -> int {
    sum_entry_lens(model(d.sequences@)) + sum_str_lens(model_set(d.strings@)) + sum_regex_points(
        d.regexes@,
    ) + (if composition_enabled(d) {
        crate::file_point_calculator::ENTROPY_POINTS as int
    } else {
        0
    }) + crate::file_point_calculator::FILE_EXTENSION_POINTS as int
}

/// Structural well-formedness of pattern data: sequences within the length
/// bounds, not all zero and sorted by offset descending; strings canonical
/// and distinct; entropies within the recorded range; and a total evidence
/// weight that fits the machine.
pub open spec fn pattern_data_valid(d: PatternData) -> bool {
    &&& forall|k: int|
        0 <= k < d.sequences@.len() ==> keep_sequence(
            #[trigger] model(d.sequences@)[k],
        ) && model(d.sequences@)[k].1.len() <= MAX_BYTE_SEQUENCE_LENGTH
    &&& forall|i: int, j: int|
        0 <= i < j < d.sequences@.len() ==> (#[trigger] d.sequences@[i]).0
            >= (#[trigger] d.sequences@[j]).0
    &&& forall|k: int| 0 <= k < d.strings@.len() ==> is_canonical_token(#[trigger] d.strings@[k]@)
    &&& forall|i: int, j: int| 0 <= i < j < d.strings@.len() ==> d.strings@[i]@ != d.strings@[j]@
    &&& d.max_entropy <= 800
    &&& d.min_entropy <= 800
    &&& data_max_points(d) <= usize::MAX
}

impl PatternData {
    /// An empty evidence record.
    pub fn new() -> (r: PatternData)
        ensures
            r.sequences@.len() == 0,
            r.regexes@.len() == 0,
            r.strings@.len() == 0,
            r.max_entropy == 0,
            r.min_entropy == 0,
            pattern_data_valid(r),
    {
        let d = PatternData {
            sequences: Vec::new(),
            regexes: Vec::new(),
            strings: Vec::new(),
            max_entropy: 0,
            min_entropy: 0,
        };
        proof {
            assert(model(d.sequences@) =~~= Seq::<(usize, Seq<u8>)>::empty());
            assert(model_set(d.strings@) =~~= Seq::<Seq<u8>>::empty());
        }
        d
    }

    /// Should we scan for strings when using this pattern?
    pub fn should_scan_strings(&self) -> (r: bool)
        ensures
            r == (self.strings@.len() != 0),
    {
        self.strings.len() != 0
    }

    /// Should we scan for byte sequences when using this pattern?
    pub fn should_scan_sequences(&self) -> (r: bool)
        ensures
            r == (self.sequences@.len() != 0),
    {
        self.sequences.len() != 0
    }

    /// Should we scan the file's composition when using this pattern?
    pub fn should_scan_composition(&self) -> (r: bool)
        ensures
            r == composition_enabled(*self),
    {
        self.max_entropy != 0 || self.min_entropy != 0
    }

    /// Should we scan with regular expressions when using this pattern?
    pub fn should_scan_regular_expressions(&self) -> (r: bool)
        ensures
            r == (self.regexes@.len() != 0),
    {
        self.regexes.len() != 0
    }
}

impl Pattern {
    /// A fresh pattern with identity fields only: the known extensions are
    /// stored uppercased, and a random UUID is assigned.
    pub fn new(
        name: &str,
        description: &str,
        known_extensions: Vec<String>,
        known_mimetypes: Vec<String>,
    ) -> (r: Pattern)
        ensures
            r.type_data.name@ == name@,
            r.type_data.description@ == description@,
            r.type_data.known_extensions@.len() == known_extensions@.len(),
            forall|k: int|
                0 <= k < known_extensions@.len() ==> (#[trigger] r.type_data.known_extensions@[k])@
                    == upper_of(known_extensions@[k]@),
            r.type_data.known_mimetypes == known_mimetypes,
            r.type_data.file_format_url@.len() == 0,
            is_uuid_shape(r.type_data.uuid@),
            r.data.sequences@.len() == 0,
            r.data.regexes@.len() == 0,
            r.data.strings@.len() == 0,
            r.data.max_entropy == 0,
            r.data.min_entropy == 0,
            pattern_data_valid(r.data),
            r.max_points == 0,
            r.other_data.total_scanned_files == 0,
    {
        let mut upper_extensions: Vec<String> = Vec::new();
        let mut k: usize = 0;
        while k < known_extensions.len()
            invariant
                k <= known_extensions@.len(),
                upper_extensions@.len() == k,
                forall|m: int|
                    0 <= m < k ==> (#[trigger] upper_extensions@[m])@ == upper_of(
                        known_extensions@[m]@,
                    ),
            decreases known_extensions@.len() - k,
        {
            upper_extensions.push(crate::utils::to_uppercase_string(known_extensions[k].as_str()));
            k += 1;
        }
        Pattern {
            type_data: PatternTypeData {
                uuid: crate::utils::make_uuid(),
                name: name.to_owned(),
                description: description.to_owned(),
                known_extensions: upper_extensions,
                known_mimetypes,
                file_format_url: String::new(),
            },
            data: PatternData::new(),
            other_data: PatternOtherData { total_scanned_files: 0 },
            submitter_data: PatternSubmitterData {
                scanned_by: String::new(),
                scanned_by_email: String::new(),
                scanned_on: String::new(),
                refined_by: Vec::new(),
                refined_by_email: Vec::new(),
            },
            max_points: 0,
        }
    }

    /// Record who submitted the pattern and when; the timestamp string is
    /// supplied by the caller.
    pub fn add_submitter_data(&mut self, scanned_by: &str, scanned_by_email: &str, scanned_on: &str)
        ensures
            final(self).submitter_data.scanned_by@ == scanned_by@,
            final(self).submitter_data.scanned_by_email@ == scanned_by_email@,
            final(self).submitter_data.scanned_on@ == scanned_on@,
            final(self).submitter_data.refined_by@.len() == 0,
            final(self).submitter_data.refined_by_email@.len() == 0,
            final(self).type_data == old(self).type_data,
            final(self).data == old(self).data,
            final(self).other_data == old(self).other_data,
            final(self).max_points == old(self).max_points,
    {
        self.submitter_data = PatternSubmitterData {
            scanned_by: scanned_by.to_owned(),
            scanned_by_email: scanned_by_email.to_owned(),
            scanned_on: scanned_on.to_owned(),
            refined_by: Vec::new(),
            refined_by_email: Vec::new(),
        };
    }

    /// Compute the attributes derived from the pattern data; called once
    /// right after synthesis or load.
    pub fn compute_attributes(&mut self)
        requires
            pattern_data_valid(old(self).data),
        ensures
            final(self).max_points == data_max_points(old(self).data),
            final(self).type_data == old(self).type_data,
            final(self).data == old(self).data,
            final(self).other_data == old(self).other_data,
            final(self).submitter_data == old(self).submitter_data,
    {
        self.compute_max_points();
    }

    /// Compute the maximum number of points that can be awarded for a
    /// perfect match against this pattern: every sequence byte, every
    /// string byte, every regular expression, full composition points, and
    /// the extension bonus.
    fn compute_max_points(&mut self)
        requires
            pattern_data_valid(old(self).data),
        ensures
            final(self).max_points == data_max_points(old(self).data),
            final(self).type_data == old(self).type_data,
            final(self).data == old(self).data,
            final(self).other_data == old(self).other_data,
            final(self).submitter_data == old(self).submitter_data,
    {
        let ghost d = self.data;
        let mut points: usize = 0;
        let mut k: usize = 0;
        proof {
            lemma_sum_entry_lens_take(model(d.sequences@), 0);
            lemma_pattern_sums_nonneg(d);
        }
        while k < self.data.sequences.len()
            invariant
                *self == *old(self),
                d == self.data,
                pattern_data_valid(d),
                k <= d.sequences@.len(),
                points == sum_entry_lens(model(d.sequences@).take(k as int)),
                points <= data_max_points(d),
            decreases d.sequences@.len() - k,
        {
            proof {
                lemma_pattern_sums_nonneg(d);
                lemma_sum_take_step_entries(model(d.sequences@), k as int);
                lemma_entry_prefix_bound(d, k + 1int);
                assert(model(d.sequences@)[k as int].1.len() == self.data.sequences@[k as int].1@.len());
            }
            points = points + self.data.sequences[k].1.len();
            k += 1;
        }
        proof {
            assert(model(d.sequences@).take(d.sequences@.len() as int) =~~= model(d.sequences@));
        }
        let mut s: usize = 0;
        while s < self.data.strings.len()
            invariant
                *self == *old(self),
                d == self.data,
                pattern_data_valid(d),
                s <= d.strings@.len(),
                points == sum_entry_lens(model(d.sequences@)) + sum_str_lens(
                    model_set(d.strings@).take(s as int),
                ),
                points <= data_max_points(d),
            decreases d.strings@.len() - s,
        {
            proof {
                lemma_pattern_sums_nonneg(d);
                lemma_sum_str_take_step_pub(model_set(d.strings@), s as int);
                lemma_string_prefix_bound(d, s + 1int);
                assert(model_set(d.strings@)[s as int].len() == self.data.strings@[s as int]@.len());
            }
            points = points + self.data.strings[s].len();
            s += 1;
        }
        proof {
            assert(model_set(d.strings@).take(d.strings@.len() as int) =~~= model_set(d.strings@));
        }
        let mut rx: usize = 0;
        while rx < self.data.regexes.len()
            invariant
                *self == *old(self),
                d == self.data,
                pattern_data_valid(d),
                rx <= d.regexes@.len(),
                points == sum_entry_lens(model(d.sequences@)) + sum_str_lens(model_set(d.strings@))
                    + sum_regex_points(d.regexes@.take(rx as int)),
                points <= data_max_points(d),
            decreases d.regexes@.len() - rx,
        {
            proof {
                lemma_pattern_sums_nonneg(d);
                lemma_sum_regex_take_step_pub(d.regexes@, rx as int);
                lemma_regex_prefix_bound(d, rx + 1int);
            }
            points = points + self.data.regexes[rx].as_str().unicode_len()
                + crate::file_point_calculator::REGULAR_EXPRESSION_EXTRA_POINTS;
            rx += 1;
        }
        proof {
            assert(d.regexes@.take(d.regexes@.len() as int) =~~= d.regexes@);
        }
        if self.data.should_scan_composition() {
            points = points + crate::file_point_calculator::ENTROPY_POINTS;
        }
        points = points + crate::file_point_calculator::FILE_EXTENSION_POINTS;
        self.max_points = points;
    }
}

/// The common-sequence list after refining against every chunk from index
/// `i` on.
pub open spec fn refine_all(
    chunks: Seq<Seq<u8>>,
    i: int,
    cur: Seq<(usize, Seq<u8>)>,
) -> Seq<(usize, Seq<u8>)>
    decreases chunks.len() - i,
{
    if i < 0 || i >= chunks.len() {
        cur
    } else {
        refine_all(chunks, i + 1, refined_from(cur, chunks[i]))
    }
}

/// The positional byte sequences a training set yields: the first chunk
/// seeds the hypothesis list, every chunk (the first included) refines it,
/// and finalization drops entries below the minimum length or made only of
/// zero bytes.
pub open spec fn built_sequences(chunks: Seq<Seq<u8>>) -> Seq<(usize, Seq<u8>)> {
    if chunks.len() == 0 {
        seq![]
    } else {
        refine_all(chunks, 0, seq![(0usize, chunks[0])]).filter(keep_sequence_pred())
    }
}

/// The per-chunk extracted string sets of a training set.
pub open spec fn built_string_sets(chunks: Seq<Seq<u8>>) -> Seq<Seq<Seq<u8>>> {
    Seq::new(chunks.len(), |i: int| dedup_first(extracted_tokens(chunks[i])))
}

/// The common strings a training set yields: the sieve of the per-chunk
/// string sets, with duplicates dropped at their first occurrence.
pub open spec fn built_strings(chunks: Seq<Seq<u8>>) -> Seq<Seq<u8>> {
    dedup_first(sieve_spec(built_string_sets(chunks)))
}

/// Build the common-sequence list of a training set.
fn build_sequences_vec(chunks: &Vec<Vec<u8>>) -> (r: Vec<(usize, Vec<u8>)>)
    requires
        forall|i: int| 0 <= i < chunks@.len() ==> (#[trigger] chunks@[i])@.len() <= FILE_CHUNK_SIZE,
    ensures
        model(r@).to_multiset() == built_sequences(model_set(chunks@)).to_multiset(),
        forall|i: int, j: int| 0 <= i < j < r@.len() ==> (#[trigger] r@[i]).0 > (#[trigger] r@[j]).0,
        forall|k: int|
            0 <= k < r@.len() ==> keep_sequence(#[trigger] model(r@)[k]) && model(r@)[k].1.len()
                <= MAX_BYTE_SEQUENCE_LENGTH,
        forall|k: int, j: int|
            #![trigger model(r@)[k], model_set(chunks@)[j]]
            0 <= k < r@.len() && 0 <= j < chunks@.len() ==> run_matches(
                model_set(chunks@)[j],
                model(r@)[k],
            ),
        sum_entry_lens(model(r@)) <= FILE_CHUNK_SIZE,
        chunks@.len() == 0 ==> r@.len() == 0,
{
    let ghost cm = model_set(chunks@);
    if chunks.len() == 0 {
        let r: Vec<(usize, Vec<u8>)> = Vec::new();
        proof {
            assert(model(r@) =~~= Seq::<(usize, Seq<u8>)>::empty());
            assert(sum_entry_lens(model(r@)) == 0);
            assert(model(r@).to_multiset() =~~= built_sequences(cm).to_multiset());
        }
        return r;
    }
    let n = chunks.len();
    let mut cbs: Vec<(usize, Vec<u8>)> = Vec::new();
    let seed_bytes = crate::sequences::clone_bytes(&chunks[0]);
    cbs.push((0usize, seed_bytes));
    let ghost seed_m = seq![(0usize, cm[0])];
    proof {
        assert(model(cbs@) =~~= seed_m);
        assert(entries_interval_ordered(seed_m));
        assert(cm[0] == chunks@[0]@);
        assert(cm[0].subrange(0, cm[0].len() as int) =~= cm[0]);
        assert(run_matches(cm[0], seed_m[0]));
        assert(sum_entry_lens(seed_m.drop_first()) == 0) by {
            assert(seed_m.drop_first() =~~= Seq::<(usize, Seq<u8>)>::empty());
        }
    }
    let mut idx: usize = 0;
    while idx < n
        invariant
            cm == model_set(chunks@),
            n == cm.len(),
            1 <= n,
            idx <= n,
            forall|i: int| 0 <= i < chunks@.len() ==> (#[trigger] chunks@[i])@.len() <= FILE_CHUNK_SIZE,
            seed_m == seq![(0usize, cm[0])],
            idx == 0 ==> model(cbs@) == seed_m,
            refine_all(cm, 0, seed_m) == refine_all(cm, idx as int, model(cbs@)),
            forall|k: int, j: int|
                #![trigger model(cbs@)[k], cm[j]]
                0 <= k < cbs@.len() && 0 <= j < idx ==> run_matches(cm[j], model(cbs@)[k]),
            forall|k: int|
                0 <= k < cbs@.len() ==> (#[trigger] model(cbs@)[k]).0 + model(cbs@)[k].1.len()
                    <= cm[0].len(),
            idx >= 1 ==> forall|k: int|
                0 <= k < cbs@.len() ==> (#[trigger] model(cbs@)[k]).1.len()
                    <= MAX_BYTE_SEQUENCE_LENGTH,
            entries_interval_ordered(model(cbs@)),
            sum_entry_lens(model(cbs@)) <= cm[0].len(),
        decreases n - idx,
    {
        let ghost pre = model(cbs@);
        proof {
            assert(cm[idx as int] == chunks@[idx as int]@);
            assert(cm[0] == chunks@[0]@);
            assert(cm[0].len() <= FILE_CHUNK_SIZE);
            assert forall|k: int|
                0 <= k < cbs@.len() implies (#[trigger] cbs@[k]).0 + cbs@[k].1@.len()
                <= usize::MAX by {
                assert(model(cbs@)[k] == (cbs@[k].0, cbs@[k].1@));
                assert(model(cbs@)[k].0 + model(cbs@)[k].1.len() <= cm[0].len());
            }
        }
        crate::sequences::refine_common_byte_sequences_v2(chunks[idx].as_slice(), &mut cbs);
        proof {
            let file = cm[idx as int];
            assert(model(cbs@) == refined_from(pre, file));
            assert(refine_all(cm, idx as int, pre) == refine_all(cm, idx + 1int, refined_from(pre, file)));
            assert(cm[0].subrange(0, cm[0].len() as int) =~= cm[0]);
            assert(run_matches(cm[0], seed_m[0]));
            assert forall|k: int| 0 <= k < pre.len() implies run_matches(cm[0], #[trigger] pre[k]) by {
                if idx > 0 {
                    assert(run_matches(cm[0], pre[k]));
                } else {
                    assert(pre[k] == seed_m[0]);
                }
            }
            lemma_refined_from_props(pre, file, cm[0]);
            lemma_refined_from_ordered(pre, file);
            assert forall|k: int, j: int|
                #![trigger model(cbs@)[k], cm[j]]
                0 <= k < cbs@.len() && 0 <= j < idx + 1 implies run_matches(
                cm[j],
                model(cbs@)[k],
            ) by {
                if j == idx {
                    assert(run_matches(file, model(cbs@)[k]));
                } else {
                    assert forall|k2: int| 0 <= k2 < pre.len() implies run_matches(
                        cm[j],
                        #[trigger] pre[k2],
                    ) by {
                        if idx == 0 {
                            assert(j == 0);
                            assert(pre[k2] == seed_m[0]);
                        }
                    }
                    lemma_refined_from_props(pre, file, cm[j]);
                }
            }
            assert forall|k: int|
                0 <= k < cbs@.len() implies (#[trigger] model(cbs@)[k]).0 + model(cbs@)[k].1.len()
                <= cm[0].len() by {
                assert(run_matches(cm[0], model(cbs@)[k]));
            }
        }
        idx += 1;
    }
    proof {
        assert(refine_all(cm, n as int, model(cbs@)) == model(cbs@));
    }
    let ghost pre_strip = model(cbs@);
    crate::sequences::strip_unwanted_sequences(&mut cbs);
    proof {
        crate::sequences::lemma_filter_entry_props(pre_strip);
        lemma_filter_keeps_order(pre_strip);
        assert(entries_interval_ordered(model(cbs@)));
        assert(model(cbs@) == built_sequences(cm));
        assert forall|k: int|
            0 <= k < cbs@.len() implies keep_sequence(#[trigger] model(cbs@)[k]) && model(
            cbs@,
        )[k].1.len() <= MAX_BYTE_SEQUENCE_LENGTH && model(cbs@)[k].0 + model(cbs@)[k].1.len()
            <= cm[0].len() by {
            assert(pre_strip.contains(model(cbs@)[k]));
            let w = choose|w: int| 0 <= w < pre_strip.len() && pre_strip[w] == model(cbs@)[k];
        }
        assert forall|k: int, j: int|
            #![trigger model(cbs@)[k], cm[j]]
            0 <= k < cbs@.len() && 0 <= j < n implies run_matches(cm[j], model(cbs@)[k]) by {
            assert(pre_strip.contains(model(cbs@)[k]));
            let w = choose|w: int| 0 <= w < pre_strip.len() && pre_strip[w] == model(cbs@)[k];
            assert(run_matches(cm[j], pre_strip[w]));
        }
    }
    let ghost pre_sort_exec = cbs@;
    let ghost pre_sort = model(cbs@);
    proof {
        assert forall|i: int, j: int| 0 <= i < j < cbs@.len() implies (#[trigger] cbs@[i]).0
            != (#[trigger] cbs@[j]).0 by {
            assert(model(cbs@)[i] == (cbs@[i].0, cbs@[i].1@));
            assert(model(cbs@)[j] == (cbs@[j].0, cbs@[j].1@));
            assert(keep_sequence(model(cbs@)[i]));
            assert(model(cbs@)[i].0 + model(cbs@)[i].1.len() <= model(cbs@)[j].0);
        }
    }
    crate::sequences::sort_sequences_by_offset_desc(&mut cbs);
    proof {
        assert forall|k: int|
            0 <= k < cbs@.len() implies keep_sequence(#[trigger] model(cbs@)[k]) && model(
            cbs@,
        )[k].1.len() <= MAX_BYTE_SEQUENCE_LENGTH by {
            assert(pre_sort_exec.contains(cbs@[k]));
            let w = choose|w: int| 0 <= w < pre_sort_exec.len() && pre_sort_exec[w] == cbs@[k];
            assert(model(cbs@)[k] == pre_sort[w]);
        }
        assert forall|k: int, j: int|
            #![trigger model(cbs@)[k], cm[j]]
            0 <= k < cbs@.len() && 0 <= j < n implies run_matches(cm[j], model(cbs@)[k]) by {
            assert(pre_sort_exec.contains(cbs@[k]));
            let w = choose|w: int| 0 <= w < pre_sort_exec.len() && pre_sort_exec[w] == cbs@[k];
            assert(model(cbs@)[k] == pre_sort[w]);
            assert(run_matches(cm[j], pre_sort[w]));
        }
        assert forall|k: int, j: int|
            #![trigger model(cbs@)[k], model_set(chunks@)[j]]
            0 <= k < cbs@.len() && 0 <= j < chunks@.len() implies run_matches(
            model_set(chunks@)[j],
            model(cbs@)[k],
        ) by {
            assert(run_matches(cm[j], model(cbs@)[k]));
        }
    }
    cbs
}

/// Build the common-string set of a training set.
fn build_strings_vec(chunks: &Vec<Vec<u8>>) -> (r: Vec<Vec<u8>>)
    requires
        forall|i: int| 0 <= i < chunks@.len() ==> (#[trigger] chunks@[i])@.len() <= FILE_CHUNK_SIZE,
    ensures
        model_set(r@) == built_strings(model_set(chunks@)),
        forall|k: int| 0 <= k < r@.len() ==> is_canonical_token(#[trigger] r@[k]@),
        forall|i: int, j: int| 0 <= i < j < r@.len() ==> r@[i]@ != r@[j]@,
        5 * r@.len() <= FILE_CHUNK_SIZE,
{
    let ghost cm = model_set(chunks@);
    let ghost bss = built_string_sets(cm);
    let mut all_strings: Vec<Vec<Vec<u8>>> = Vec::new();
    let mut i: usize = 0;
    while i < chunks.len()
        invariant
            cm == model_set(chunks@),
            i <= chunks@.len(),
            all_strings@.len() == i,
            forall|m: int|
                0 <= m < i ==> model_set((#[trigger] all_strings@[m])@) == dedup_first(
                    extracted_tokens(cm[m]),
                ),
        decreases chunks@.len() - i,
    {
        let strs = crate::strings::extract_file_strings(chunks[i].as_slice());
        proof {
            assert(cm[i as int] == chunks@[i as int]@);
        }
        all_strings.push(strs);
        i += 1;
    }
    proof {
        assert(crate::sieve::model_sets(all_strings@) =~~= bss);
        assert forall|si: int| 0 <= si < bss.len() implies crate::sieve::all_canonical(
            #[trigger] bss[si],
        ) by {
            crate::strings::lemma_dedup_first_props(extracted_tokens(cm[si]));
            crate::strings::lemma_extracted_tokens_wf(cm[si]);
            let d = dedup_first(extracted_tokens(cm[si]));
            assert forall|k: int| 0 <= k < d.len() implies is_canonical_token(#[trigger] d[k]) by {
                assert(extracted_tokens(cm[si]).contains(d[k]));
                let w = choose|w: int|
                    0 <= w < extracted_tokens(cm[si]).len() && extracted_tokens(cm[si])[w] == d[k];
            }
        }
        assert forall|si: int| 0 <= si < bss.len() implies 5 * (#[trigger] bss[si]).len()
            <= FILE_CHUNK_SIZE by {
            crate::strings::lemma_dedup_first_props(extracted_tokens(cm[si]));
            crate::strings::lemma_tokens_from_count(cm[si], seq![]);
            assert(cm[si].len() <= FILE_CHUNK_SIZE);
        }
    }
    let sieved = crate::sieve::common_string_sieve(&mut all_strings);
    let ghost sv = model_set(sieved@);
    proof {
        assert(sv == sieve_spec(bss));
        crate::sieve::lemma_sieve_shape(bss);
        if bss.len() > 0 {
            let si = choose|si: int| 0 <= si < bss.len() && sieve_spec(bss).len() <= (#[trigger] bss[si]).len();
            assert(5 * sv.len() <= FILE_CHUNK_SIZE);
        } else {
            assert(sieve_spec(bss) == Seq::<Seq<u8>>::empty());
        }
        crate::strings::lemma_dedup_first_props(sv);
    }
    let mut out: Vec<Vec<u8>> = Vec::new();
    let mut k: usize = 0;
    proof {
        assert(sv.take(0) =~~= Seq::<Seq<u8>>::empty());
        assert(model_set(out@) =~~= dedup_first(sv.take(0)));
    }
    while k < sieved.len()
        invariant
            sv == model_set(sieved@),
            k <= sieved@.len(),
            model_set(out@) == dedup_first(sv.take(k as int)),
        decreases sieved@.len() - k,
    {
        let ghost pre = model_set(out@);
        let is_dup = crate::strings::contains_bytes(&out, &sieved[k]);
        proof {
            crate::strings::lemma_dedup_first_props(sv.take(k as int));
            assert(sv[k as int] == sieved@[k as int]@);
            assert(sv.take(k + 1int).drop_last() =~~= sv.take(k as int));
            assert(sv.take(k + 1int).last() == sv[k as int]);
            assert(is_dup == pre.contains(sv[k as int])) by {
                if is_dup {
                    let j = choose|j: int| 0 <= j < out@.len() && out@[j]@ == sieved@[k as int]@;
                    assert(pre[j] == sv[k as int]);
                } else {
                    if pre.contains(sv[k as int]) {
                        let j = choose|j: int| 0 <= j < pre.len() && pre[j] == sv[k as int];
                        assert(out@[j]@ == sieved@[k as int]@);
                    }
                }
            }
            assert(pre.contains(sv[k as int]) == sv.take(k as int).contains(sv[k as int]));
        }
        if !is_dup {
            out.push(crate::sequences::clone_bytes(&sieved[k]));
            proof {
                assert(model_set(out@) =~~= pre.push(sv[k as int]));
            }
        }
        k += 1;
    }
    proof {
        assert(sv.take(sv.len() as int) =~~= sv);
        assert(model_set(out@) == built_strings(cm));
        crate::strings::lemma_dedup_first_props(sv);
        let d = dedup_first(sv);
        assert(5 * d.len() <= FILE_CHUNK_SIZE);
        assert forall|k2: int| 0 <= k2 < out@.len() implies is_canonical_token(
            #[trigger] out@[k2]@,
        ) by {
            assert(d[k2] == out@[k2]@);
            assert(d.contains(d[k2]));
            assert(sv.contains(d[k2]));
            let w = choose|w: int| 0 <= w < sv.len() && sv[w] == d[k2];
        }
        assert forall|i2: int, j2: int| 0 <= i2 < j2 < out@.len() implies out@[i2]@ != out@[j2]@ by {
            assert(d[i2] != d[j2]);
        }
    }
    out
}


/// The smallest value in a list of entropies; zero for an empty list.
pub open spec fn seq_min_u16(s: Seq<u16>) -> u16
    decreases s.len(),
{
    if s.len() == 0 {
        0u16
    } else if s.len() == 1 {
        s[0]
    } else {
        let m = seq_min_u16(s.drop_last());
        if s.last() < m {
            s.last()
        } else {
            m
        }
    }
}

/// The largest value in a list of entropies; zero for an empty list.
pub open spec fn seq_max_u16(s: Seq<u16>) -> u16
    decreases s.len(),
{
    if s.len() == 0 {
        0u16
    } else if s.len() == 1 {
        s[0]
    } else {
        let m = seq_max_u16(s.drop_last());
        if s.last() > m {
            s.last()
        } else {
            m
        }
    }
}

/// The extremes of a non-empty list bound all of its values.
pub proof fn lemma_seq_min_max_bounds(s: Seq<u16>)
    requires
        s.len() > 0,
    ensures
        forall|k: int| 0 <= k < s.len() ==> seq_min_u16(s) <= #[trigger] s[k] && s[k] <= seq_max_u16(s),
    decreases s.len(),
{
    if s.len() > 1 {
        lemma_seq_min_max_bounds(s.drop_last());
        assert forall|k: int| 0 <= k < s.len() implies seq_min_u16(s) <= #[trigger] s[k] && s[k]
            <= seq_max_u16(s) by {
            if k < s.len() - 1 {
                assert(s.drop_last()[k] == s[k]);
            }
        }
    }
}

impl Pattern {
    /// Build the pattern's evidence from a training set of header chunks:
    /// the positional byte sequences common to every chunk, the uppercased
    /// printable strings common to every chunk, and the entropy band. The
    /// per-file entropies, in hundredths of a bit, are supplied by the
    /// caller, one per chunk; when composition scanning is enabled the band
    /// records their minimum and maximum, so every training file's entropy
    /// lies within it.
    pub fn build_patterns_from_data(
        &mut self,
        chunks: &Vec<Vec<u8>>,
        scan_strings: bool,
        scan_byte_sequences: bool,
        scan_byte_distribution: bool,
        entropies: &Vec<u16>,
    )
        requires
            forall|i: int|
                0 <= i < chunks@.len() ==> (#[trigger] chunks@[i])@.len() <= FILE_CHUNK_SIZE,
            scan_byte_distribution ==> entropies@.len() == chunks@.len(),
            forall|k: int| 0 <= k < entropies@.len() ==> #[trigger] entropies@[k] <= 800,
            old(self).data.regexes@.len() == 0,
            old(self).data.max_entropy <= 800,
            old(self).data.min_entropy <= 800,
        ensures
            final(self).type_data == old(self).type_data,
            final(self).submitter_data == old(self).submitter_data,
            final(self).max_points == old(self).max_points,
            final(self).data.regexes == old(self).data.regexes,
            final(self).other_data.total_scanned_files == chunks@.len(),
            scan_byte_sequences ==> model(final(self).data.sequences@).to_multiset()
                == built_sequences(model_set(chunks@)).to_multiset(),
            !scan_byte_sequences ==> final(self).data.sequences@.len() == 0,
            forall|i: int, j: int|
                0 <= i < j < final(self).data.sequences@.len()
                    ==> (#[trigger] final(self).data.sequences@[i]).0
                    > (#[trigger] final(self).data.sequences@[j]).0,
            forall|k: int|
                0 <= k < final(self).data.sequences@.len() ==> keep_sequence(
                    #[trigger] model(final(self).data.sequences@)[k],
                ) && model(final(self).data.sequences@)[k].1.len() <= MAX_BYTE_SEQUENCE_LENGTH,
            forall|k: int, j: int|
                #![trigger model(final(self).data.sequences@)[k], model_set(chunks@)[j]]
                0 <= k < final(self).data.sequences@.len() && 0 <= j < chunks@.len()
                    ==> run_matches(
                    model_set(chunks@)[j],
                    model(final(self).data.sequences@)[k],
                ),
            scan_strings ==> model_set(final(self).data.strings@) == built_strings(
                model_set(chunks@),
            ),
            !scan_strings ==> final(self).data.strings@.len() == 0,
            forall|k: int|
                0 <= k < final(self).data.strings@.len() ==> is_canonical_token(
                    #[trigger] final(self).data.strings@[k]@,
                ),
            scan_byte_distribution && chunks@.len() > 0 ==> final(self).data.min_entropy
                == seq_min_u16(entropies@) && final(self).data.max_entropy == seq_max_u16(
                entropies@,
            ),
            scan_byte_distribution && chunks@.len() > 0 ==> forall|k: int|
                0 <= k < entropies@.len() ==> final(self).data.min_entropy
                    <= #[trigger] entropies@[k] && entropies@[k] <= final(self).data.max_entropy,
            scan_byte_distribution && chunks@.len() == 0 ==> final(self).data.min_entropy == 0
                && final(self).data.max_entropy == 0,
            !scan_byte_distribution ==> final(self).data.max_entropy == old(self).data.max_entropy
                && final(self).data.min_entropy == old(self).data.min_entropy,
            pattern_data_valid(final(self).data),
    {
        let seqs: Vec<(usize, Vec<u8>)> = if scan_byte_sequences {
            build_sequences_vec(chunks)
        } else {
            Vec::new()
        };
        let strs: Vec<Vec<u8>> = if scan_strings {
            build_strings_vec(chunks)
        } else {
            Vec::new()
        };
        proof {
            if !scan_byte_sequences {
                assert(model(seqs@) =~~= Seq::<(usize, Seq<u8>)>::empty());
            }
            if !scan_strings {
                assert(model_set(strs@) =~~= Seq::<Seq<u8>>::empty());
            }
        }
        self.data.sequences = seqs;
        self.data.strings = strs;
        if scan_byte_distribution {
            if entropies.len() == 0 {
                self.data.min_entropy = 0;
                self.data.max_entropy = 0;
            } else {
                let mut min_e: u16 = entropies[0];
                let mut max_e: u16 = entropies[0];
                let mut i: usize = 1;
                proof {
                    assert(entropies@.take(1) =~= seq![entropies@[0]]);
                    assert(seq_min_u16(entropies@.take(1)) == entropies@[0]);
                    assert(seq_max_u16(entropies@.take(1)) == entropies@[0]);
                }
                while i < entropies.len()
                    invariant
                        1 <= i <= entropies@.len(),
                        min_e == seq_min_u16(entropies@.take(i as int)),
                        max_e == seq_max_u16(entropies@.take(i as int)),
                    decreases entropies@.len() - i,
                {
                    proof {
                        assert(entropies@.take(i + 1int).drop_last() =~= entropies@.take(i as int));
                        assert(entropies@.take(i + 1int).last() == entropies@[i as int]);
                    }
                    if entropies[i] < min_e {
                        min_e = entropies[i];
                    }
                    if entropies[i] > max_e {
                        max_e = entropies[i];
                    }
                    i += 1;
                }
                proof {
                    assert(entropies@.take(entropies@.len() as int) =~= entropies@);
                    lemma_seq_min_max_bounds(entropies@);
                    assert(seq_min_u16(entropies@) <= entropies@[0]);
                    assert(seq_max_u16(entropies@) <= 800) by {
                        if seq_max_u16(entropies@) > 800 {
                            lemma_seq_max_is_element(entropies@);
                        }
                    }
                }
                self.data.min_entropy = min_e;
                self.data.max_entropy = max_e;
            }
        }
        self.other_data.total_scanned_files = chunks.len();
        proof {
            let d = self.data;
            lemma_pattern_sums_nonneg(d);
            assert(sum_entry_lens(model(d.sequences@)) <= FILE_CHUNK_SIZE) by {
                if !scan_byte_sequences {
                    assert(model(d.sequences@) =~~= Seq::<(usize, Seq<u8>)>::empty());
                }
            }
            assert(sum_str_lens(model_set(d.strings@)) <= 64 * 1048576int) by {
                if scan_strings {
                    assert(5 * d.strings@.len() <= FILE_CHUNK_SIZE);
                    lemma_sum_str_le_64(model_set(d.strings@), d);
                } else {
                    assert(model_set(d.strings@) =~~= Seq::<Seq<u8>>::empty());
                }
            }
            assert(sum_regex_points(d.regexes@) == 0) by {
                assert(d.regexes@.len() == 0);
            }
            assert(data_max_points(d) <= usize::MAX);
        }
    }
}

/// The maximum of a non-empty list is one of its values.
proof fn lemma_seq_max_is_element(s: Seq<u16>)
    requires
        s.len() > 0,
    ensures
        exists|k: int| 0 <= k < s.len() && s[k] == seq_max_u16(s),
    decreases s.len(),
{
    if s.len() == 1 {
        assert(s[0] == seq_max_u16(s));
    } else if s.last() > seq_max_u16(s.drop_last()) {
        assert(s[s.len() - 1] == seq_max_u16(s));
    } else {
        lemma_seq_max_is_element(s.drop_last());
        let k = choose|k: int| 0 <= k < s.drop_last().len() && s.drop_last()[k] == seq_max_u16(s.drop_last());
        assert(s[k] == seq_max_u16(s));
    }
}

/// A set of canonical tokens weighs at most 64 bytes per entry.
proof fn lemma_sum_str_le_64(s: Seq<Seq<u8>>, d: PatternData)
    requires
        forall|k: int| 0 <= k < d.strings@.len() ==> is_canonical_token(#[trigger] d.strings@[k]@),
        s == model_set(d.strings@),
        5 * d.strings@.len() <= FILE_CHUNK_SIZE,
    ensures
        sum_str_lens(s) <= 64 * 1048576int,
{
    lemma_sum_str_bounded(s);
    assert(s.len() == d.strings@.len());
    assert forall|k: int| 0 <= k < s.len() implies (#[trigger] s[k]).len() <= 64 by {
        assert(s[k] == d.strings@[k]@);
    }
    lemma_sum_str_bounded(s);
}

/// When every string is at most 64 bytes, the total is at most 64 per
/// entry.
proof fn lemma_sum_str_bounded(s: Seq<Seq<u8>>)
    requires
        forall|k: int| 0 <= k < s.len() ==> (#[trigger] s[k]).len() <= 64,
    ensures
        sum_str_lens(s) <= 64 * s.len(),
    decreases s.len(),
{
    if s.len() > 0 {
        assert forall|k: int| 0 <= k < s.drop_first().len() implies (#[trigger] s.drop_first()[k]).len()
            <= 64 by {
            assert(s.drop_first()[k] == s[k + 1]);
        }
        lemma_sum_str_bounded(s.drop_first());
    }
}

/// Check a build request before any file is touched: at least one scanning
/// mode must be enabled and the target extension may not be empty.
pub fn validate_build_request(
    target_extension: &str,
    scan_strings: bool,
    scan_byte_sequences: bool,
    scan_byte_distribution: bool,
) -> (r: Result<(), PatternError>)
    ensures
        r is Err <==> (!scan_strings && !scan_byte_sequences && !scan_byte_distribution)
            || target_extension@.len() == 0,
        r is Err ==> r->Err_0 is InvalidInput,
{
    if target_extension.unicode_len() == 0 {
        return Err(PatternError::InvalidInput);
    }
    if !scan_strings && !scan_byte_sequences && !scan_byte_distribution {
        return Err(PatternError::InvalidInput);
    }
    Ok(())
}

impl Pattern {
    /// Whether the pattern carries any evidence at all; a build that ends
    /// without any is unsatisfiable, and the caller decides whether to keep
    /// it.
    pub fn check_evidence(&self) -> (r: Result<(), PatternError>)
        ensures
            r is Ok <==> self.data.sequences@.len() > 0 || self.data.strings@.len() > 0
                || self.data.regexes@.len() > 0 || composition_enabled(self.data),
            r is Err ==> r->Err_0 is Unsatisfiable,
    {
        if self.data.should_scan_sequences() || self.data.should_scan_strings()
            || self.data.should_scan_regular_expressions()
            || self.data.should_scan_composition() {
            Ok(())
        } else {
            Err(PatternError::Unsatisfiable)
        }
    }
}

/// The sums a pattern's evidence contributes are never negative.
pub proof fn lemma_pattern_sums_nonneg(d: PatternData)
    ensures
        sum_entry_lens(model(d.sequences@)) >= 0,
        sum_str_lens(model_set(d.strings@)) >= 0,
        sum_regex_points(d.regexes@) >= 0,
{
    lemma_sum_entry_lens_nonneg_here(model(d.sequences@));
    lemma_sum_str_lens_nonneg(model_set(d.strings@));
    lemma_sum_regex_nonneg(d.regexes@);
}

proof fn lemma_sum_entry_lens_nonneg_here(s: Seq<(usize, Seq<u8>)>)
    ensures
        sum_entry_lens(s) >= 0,
    decreases s.len(),
{
    if s.len() > 0 {
        lemma_sum_entry_lens_nonneg_here(s.drop_first());
    }
}

proof fn lemma_sum_str_lens_nonneg(s: Seq<Seq<u8>>)
    ensures
        sum_str_lens(s) >= 0,
    decreases s.len(),
{
    if s.len() > 0 {
        lemma_sum_str_lens_nonneg(s.drop_first());
    }
}

proof fn lemma_sum_regex_nonneg(s: Seq<String>)
    ensures
        sum_regex_points(s) >= 0,
    decreases s.len(),
{
    if s.len() > 0 {
        lemma_sum_regex_nonneg(s.drop_first());
    }
}

proof fn lemma_sum_entry_lens_take(s: Seq<(usize, Seq<u8>)>, k: int)
    requires
        k == 0,
    ensures
        sum_entry_lens(s.take(k)) == 0,
{
    assert(s.take(0) =~~= Seq::<(usize, Seq<u8>)>::empty());
}

/// Taking one more entry adds its length to the prefix sum.
pub proof fn lemma_sum_take_step_entries(s: Seq<(usize, Seq<u8>)>, k: int)
    requires
        0 <= k < s.len(),
    ensures
        sum_entry_lens(s.take(k + 1)) == sum_entry_lens(s.take(k)) + s[k].1.len(),
{
    assert(s.take(k + 1) =~~= s.take(k) + seq![s[k]]);
    crate::pattern::lemma_sum_entry_lens_concat_here(s.take(k), seq![s[k]]);
    assert(seq![s[k]].drop_first() =~~= Seq::<(usize, Seq<u8>)>::empty());
    assert(sum_entry_lens(Seq::<(usize, Seq<u8>)>::empty()) == 0);
    assert(sum_entry_lens(seq![s[k]]) == s[k].1.len());
}

proof fn lemma_sum_entry_lens_concat_here(s1: Seq<(usize, Seq<u8>)>, s2: Seq<(usize, Seq<u8>)>)
    ensures
        sum_entry_lens(s1 + s2) == sum_entry_lens(s1) + sum_entry_lens(s2),
    decreases s1.len(),
{
    if s1.len() == 0 {
        assert(s1 + s2 =~~= s2);
    } else {
        assert((s1 + s2).drop_first() =~~= s1.drop_first() + s2);
        assert((s1 + s2)[0] == s1[0]);
        lemma_sum_entry_lens_concat_here(s1.drop_first(), s2);
    }
}

proof fn lemma_sum_str_lens_concat(s1: Seq<Seq<u8>>, s2: Seq<Seq<u8>>)
    ensures
        sum_str_lens(s1 + s2) == sum_str_lens(s1) + sum_str_lens(s2),
    decreases s1.len(),
{
    if s1.len() == 0 {
        assert(s1 + s2 =~~= s2);
    } else {
        assert((s1 + s2).drop_first() =~~= s1.drop_first() + s2);
        assert((s1 + s2)[0] == s1[0]);
        lemma_sum_str_lens_concat(s1.drop_first(), s2);
    }
}

pub proof fn lemma_sum_str_take_step_pub(s: Seq<Seq<u8>>, k: int)
    requires
        0 <= k < s.len(),
    ensures
        sum_str_lens(s.take(k + 1)) == sum_str_lens(s.take(k)) + s[k].len(),
{
    assert(s.take(k + 1) =~~= s.take(k) + seq![s[k]]);
    lemma_sum_str_lens_concat(s.take(k), seq![s[k]]);
    assert(seq![s[k]].drop_first() =~~= Seq::<Seq<u8>>::empty());
    assert(sum_str_lens(Seq::<Seq<u8>>::empty()) == 0);
    assert(sum_str_lens(seq![s[k]]) == s[k].len());
}

proof fn lemma_sum_regex_concat(s1: Seq<String>, s2: Seq<String>)
    ensures
        sum_regex_points(s1 + s2) == sum_regex_points(s1) + sum_regex_points(s2),
    decreases s1.len(),
{
    if s1.len() == 0 {
        assert(s1 + s2 =~~= s2);
    } else {
        assert((s1 + s2).drop_first() =~~= s1.drop_first() + s2);
        assert((s1 + s2)[0] == s1[0]);
        lemma_sum_regex_concat(s1.drop_first(), s2);
    }
}

pub proof fn lemma_sum_regex_take_step_pub(s: Seq<String>, k: int)
    requires
        0 <= k < s.len(),
    ensures
        sum_regex_points(s.take(k + 1)) == sum_regex_points(s.take(k)) + s[k]@.len()
            + crate::file_point_calculator::REGULAR_EXPRESSION_EXTRA_POINTS,
{
    assert(s.take(k + 1) =~~= s.take(k) + seq![s[k]]);
    lemma_sum_regex_concat(s.take(k), seq![s[k]]);
    assert(seq![s[k]].drop_first() =~~= Seq::<String>::empty());
    assert(sum_regex_points(Seq::<String>::empty()) == 0);
    assert(sum_regex_points(seq![s[k]]) == s[k]@.len()
        + crate::file_point_calculator::REGULAR_EXPRESSION_EXTRA_POINTS);
}

/// Prefix sums never exceed the whole sum.
pub proof fn lemma_entry_prefix_bound(d: PatternData, k: int)
    requires
        0 <= k <= model(d.sequences@).len(),
    ensures
        sum_entry_lens(model(d.sequences@).take(k)) + sum_entry_lens(
            model(d.sequences@).skip(k),
        ) == sum_entry_lens(model(d.sequences@)),
        sum_entry_lens(model(d.sequences@).skip(k)) >= 0,
{
    let s = model(d.sequences@);
    assert(s.take(k) + s.skip(k) =~~= s);
    lemma_sum_entry_lens_concat_here(s.take(k), s.skip(k));
    lemma_sum_entry_lens_nonneg_here(s.skip(k));
}

pub proof fn lemma_string_prefix_bound(d: PatternData, k: int)
    requires
        0 <= k <= model_set(d.strings@).len(),
    ensures
        sum_str_lens(model_set(d.strings@).take(k)) + sum_str_lens(model_set(d.strings@).skip(k))
            == sum_str_lens(model_set(d.strings@)),
        sum_str_lens(model_set(d.strings@).skip(k)) >= 0,
{
    let s = model_set(d.strings@);
    assert(s.take(k) + s.skip(k) =~~= s);
    lemma_sum_str_lens_concat(s.take(k), s.skip(k));
    lemma_sum_str_lens_nonneg(s.skip(k));
}

pub proof fn lemma_regex_prefix_bound(d: PatternData, k: int)
    requires
        0 <= k <= d.regexes@.len(),
    ensures
        sum_regex_points(d.regexes@.take(k)) + sum_regex_points(d.regexes@.skip(k))
            == sum_regex_points(d.regexes@),
        sum_regex_points(d.regexes@.skip(k)) >= 0,
{
    let s = d.regexes@;
    assert(s.take(k) + s.skip(k) =~~= s);
    lemma_sum_regex_concat(s.take(k), s.skip(k));
    lemma_sum_regex_nonneg(s.skip(k));
}

} // verus!
