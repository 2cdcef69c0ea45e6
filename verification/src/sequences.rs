//! Common positional byte sequences: refining a set of `(offset, bytes)`
//! hypotheses against a new buffer, stripping unwanted entries, and sorting
//! by offset descending.
//!
//! Refinement walks an expected byte sequence against the window of the new
//! buffer at the same offset, accumulating runs of equal bytes. A run is
//! emitted when it reaches the maximum sequence length (the next run starts
//! at the following index) or when a mismatch ends it; a trailing non-empty
//! run is emitted after the walk.

use vstd::prelude::*;

verus! {

/// The minimum length of a byte sequence retained by finalization.
pub const MIN_BYTE_SEQUENCE_LENGTH: usize = 1;

/// The maximum length of a single byte sequence.
pub const MAX_BYTE_SEQUENCE_LENGTH: usize = 16;

/// The mathematical value of an `(offset, bytes)` list: offsets with the
/// byte sequences they carry.
pub open spec fn model(v: Seq<(usize, Vec<u8>)>) -> Seq<(usize, Seq<u8>)> {
    Seq::new(v.len(), |k: int| (v[k].0, v[k].1@))
}

/// The number of byte positions the walk compares: the shorter of the two
/// lengths.
pub open spec fn window_len(a: Seq<u8>, b: Seq<u8>) -> int {
    if a.len() <= b.len() {
        a.len() as int
    } else {
        b.len() as int
    }
}

/// The runs of equal bytes emitted while walking `a` against `b` from index
/// `i`, with `base` added to every emitted offset. `active` says whether a
/// run is open; it begins at index `run_start` and has accumulated `run`.
pub open spec fn runs_from(
    base: usize,
    a: Seq<u8>,
    b: Seq<u8>,
    i: int,
    active: bool,
    run_start: int,
    run: Seq<u8>,
) -> Seq<(usize, Seq<u8>)>
    decreases window_len(a, b) - i,
{
    let n = window_len(a, b);
    if i < 0 || i >= n {
        if active && run.len() > 0 {
            seq![(((base + run_start) as usize), run)]
        } else {
            seq![]
        }
    } else if a[i] == b[i] {
        let rs = if active {
            run_start
        } else {
            i
        };
        let run2 = run.push(a[i]);
        if run2.len() == MAX_BYTE_SEQUENCE_LENGTH {
            seq![(((base + rs) as usize), run2)] + runs_from(base, a, b, i + 1, true, i + 1, seq![])
        } else {
            runs_from(base, a, b, i + 1, true, rs, run2)
        }
    } else {
        if active {
            seq![(((base + run_start) as usize), run)] + runs_from(base, a, b, i + 1, false, 0, seq![])
        } else {
            runs_from(base, a, b, i + 1, false, 0, seq![])
        }
    }
}

/// The runs one `(offset, bytes)` entry contributes when refined against
/// `file`: entries whose offset lies beyond the buffer are dropped, the
/// rest are compared against the buffer window at their offset.
pub open spec fn entry_runs(e: (usize, Seq<u8>), file: Seq<u8>) -> Seq<(usize, Seq<u8>)> {
    if e.0 <= file.len() {
        let end = if e.0 + e.1.len() <= file.len() {
            e.0 + e.1.len()
        } else {
            file.len() as int
        };
        runs_from(e.0, e.1, file.subrange(e.0 as int, end), 0, false, 0, seq![])
    } else {
        seq![]
    }
}

/// The refinement of a whole `(offset, bytes)` list against `file`.
pub open spec fn refined_from(seqs: Seq<(usize, Seq<u8>)>, file: Seq<u8>) -> Seq<(usize, Seq<u8>)>
    decreases seqs.len(),
{
    if seqs.len() == 0 {
        seq![]
    } else {
        entry_runs(seqs[0], file) + refined_from(seqs.drop_first(), file)
    }
}

/// Whether a sequence entry survives finalization: non-empty and not all
/// zero bytes.
pub open spec fn keep_sequence(e: (usize, Seq<u8>)) -> bool {
    e.1.len() >= MIN_BYTE_SEQUENCE_LENGTH && exists|k: int| 0 <= k < e.1.len() && e.1[k] != 0
}

/// [`keep_sequence`] as a value, for use with `Seq::filter`.
pub open spec fn keep_sequence_pred() -> spec_fn((usize, Seq<u8>)) -> bool {
    |e: (usize, Seq<u8>)| keep_sequence(e)
}

/// Pushing onto the executable list pushes the entry's value onto the model.
proof fn lemma_model_push(v: Seq<(usize, Vec<u8>)>, x: (usize, Vec<u8>))
    ensures
        model(v.push(x)) == model(v).push((x.0, x.1@)),
{
    assert(model(v.push(x)) =~~= model(v).push((x.0, x.1@)));
}

/// Refinement appends entry by entry.
proof fn lemma_refined_from_snoc(seqs: Seq<(usize, Seq<u8>)>, e: (usize, Seq<u8>), file: Seq<u8>)
    ensures
        refined_from(seqs.push(e), file) == refined_from(seqs, file) + entry_runs(e, file),
    decreases seqs.len(),
{
    if seqs.len() == 0 {
        let empty = Seq::<(usize, Seq<u8>)>::empty();
        assert(seqs.push(e)[0] == e);
        assert(seqs.push(e).drop_first() =~~= empty);
        assert(refined_from(empty, file) == empty);
        assert(refined_from(seqs.push(e), file) == entry_runs(e, file) + refined_from(empty, file));
        assert(refined_from(seqs.push(e), file) =~~= refined_from(seqs, file) + entry_runs(e, file));
    } else {
        assert(seqs.push(e)[0] == seqs[0]);
        assert(seqs.push(e).drop_first() =~~= seqs.drop_first().push(e));
        lemma_refined_from_snoc(seqs.drop_first(), e, file);
        assert(refined_from(seqs.push(e), file) == entry_runs(seqs[0], file) + refined_from(
            seqs.drop_first().push(e),
            file,
        ));
        assert(refined_from(seqs.push(e), file) =~~= refined_from(seqs, file) + entry_runs(e, file));
    }
}


/// Whether `e` names bytes that really stand at its offset in `buffer`.
pub open spec fn run_matches(buffer: Seq<u8>, e: (usize, Seq<u8>)) -> bool {
    &&& e.0 + e.1.len() <= buffer.len()
    &&& e.1 == buffer.subrange(e.0 as int, e.0 + e.1.len())
}

/// The total number of bytes held by a sequence list.
pub open spec fn sum_entry_lens(s: Seq<(usize, Seq<u8>)>) -> int
    decreases s.len(),
{
    if s.len() == 0 {
        0
    } else {
        s[0].1.len() + sum_entry_lens(s.drop_first())
    }
}

proof fn lemma_sum_entry_lens_nonneg(s: Seq<(usize, Seq<u8>)>)
    ensures
        sum_entry_lens(s) >= 0,
    decreases s.len(),
{
    if s.len() > 0 {
        lemma_sum_entry_lens_nonneg(s.drop_first());
    }
}

proof fn lemma_sum_entry_lens_concat(s1: Seq<(usize, Seq<u8>)>, s2: Seq<(usize, Seq<u8>)>)
    ensures
        sum_entry_lens(s1 + s2) == sum_entry_lens(s1) + sum_entry_lens(s2),
    decreases s1.len(),
{
    if s1.len() == 0 {
        assert(s1 + s2 =~~= s2);
    } else {
        assert((s1 + s2).drop_first() =~~= s1.drop_first() + s2);
        assert((s1 + s2)[0] == s1[0]);
        lemma_sum_entry_lens_concat(s1.drop_first(), s2);
    }
}

proof fn lemma_sum_entry_lens_push(s: Seq<(usize, Seq<u8>)>, e: (usize, Seq<u8>))
    ensures
        sum_entry_lens(s.push(e)) == sum_entry_lens(s) + e.1.len(),
{
    assert(s.push(e) =~~= s + seq![e]);
    lemma_sum_entry_lens_concat(s, seq![e]);
    assert(seq![e].drop_first() =~~= Seq::<(usize, Seq<u8>)>::empty());
    assert(sum_entry_lens(Seq::<(usize, Seq<u8>)>::empty()) == 0);
    assert(sum_entry_lens(seq![e]) == e.1.len());
}

proof fn lemma_sum_entry_lens_remove(s: Seq<(usize, Seq<u8>)>, i: int)
    requires
        0 <= i < s.len(),
    ensures
        sum_entry_lens(s.remove(i)) == sum_entry_lens(s) - s[i].1.len(),
    decreases s.len(),
{
    if i == 0 {
        assert(s.remove(0) =~~= s.drop_first());
    } else {
        assert(s.remove(i).drop_first() =~~= s.drop_first().remove(i - 1));
        assert(s.remove(i)[0] == s[0]);
        assert(s.drop_first()[i - 1] == s[i]);
        lemma_sum_entry_lens_remove(s.drop_first(), i - 1);
    }
}

/// Every run the walk emits lies within the compared window, has at most the
/// maximum length, and repeats the bytes of both inputs at its position.
proof fn lemma_runs_from_props(
    base: usize,
    a: Seq<u8>,
    b: Seq<u8>,
    i: int,
    active: bool,
    run_start: int,
    run: Seq<u8>,
)
    requires
        base + window_len(a, b) <= usize::MAX,
        0 <= i <= window_len(a, b),
        active ==> 0 <= run_start <= i && run == a.subrange(run_start, i) && run == b.subrange(
            run_start,
            i,
        ),
        !active ==> run.len() == 0,
        run.len() < MAX_BYTE_SEQUENCE_LENGTH,
    ensures
        forall|j: int|
            0 <= j < runs_from(base, a, b, i, active, run_start, run).len() ==> {
                let e = #[trigger] runs_from(base, a, b, i, active, run_start, run)[j];
                &&& base <= e.0
                &&& e.0 - base + e.1.len() <= window_len(a, b)
                &&& e.1.len() <= MAX_BYTE_SEQUENCE_LENGTH
                &&& e.1 == a.subrange(e.0 - base, e.0 - base + e.1.len())
                &&& e.1 == b.subrange(e.0 - base, e.0 - base + e.1.len())
            },
        sum_entry_lens(runs_from(base, a, b, i, active, run_start, run)) <= window_len(a, b) - i
            + run.len(),
    decreases window_len(a, b) - i,
{
    let n = window_len(a, b);
    let whole = runs_from(base, a, b, i, active, run_start, run);
    assert(sum_entry_lens(Seq::<(usize, Seq<u8>)>::empty()) == 0);
    if i >= n {
        if active && run.len() > 0 {
            assert(whole == seq![(((base + run_start) as usize), run)]);
            assert(whole[0].0 - base == run_start);
            assert(whole.drop_first() =~~= Seq::<(usize, Seq<u8>)>::empty());
            assert(sum_entry_lens(whole) == run.len());
        } else {
            assert(whole =~~= Seq::<(usize, Seq<u8>)>::empty());
        }
    } else if a[i] == b[i] {
        let rs = if active {
            run_start
        } else {
            i
        };
        let run2 = run.push(a[i]);
        assert(run2 =~= a.subrange(rs, i + 1));
        assert(run2 =~= b.subrange(rs, i + 1));
        if run2.len() == MAX_BYTE_SEQUENCE_LENGTH {
            assert(a.subrange(i + 1, i + 1) =~= Seq::<u8>::empty());
            assert(b.subrange(i + 1, i + 1) =~= Seq::<u8>::empty());
            lemma_runs_from_props(base, a, b, i + 1, true, i + 1, seq![]);
            let rest = runs_from(base, a, b, i + 1, true, i + 1, seq![]);
            let head = (((base + rs) as usize), run2);
            assert(whole == seq![head] + rest);
            assert(head.0 - base == rs);
            assert forall|j: int| 0 <= j < whole.len() implies {
                let e = #[trigger] whole[j];
                &&& base <= e.0
                &&& e.0 - base + e.1.len() <= n
                &&& e.1.len() <= MAX_BYTE_SEQUENCE_LENGTH
                &&& e.1 == a.subrange(e.0 - base, e.0 - base + e.1.len())
                &&& e.1 == b.subrange(e.0 - base, e.0 - base + e.1.len())
            } by {
                if j > 0 {
                    assert(whole[j] == rest[j - 1]);
                }
            }
            lemma_sum_entry_lens_concat(seq![head], rest);
            assert(seq![head].drop_first() =~~= Seq::<(usize, Seq<u8>)>::empty());
            assert(sum_entry_lens(seq![head]) == head.1.len());
        } else {
            lemma_runs_from_props(base, a, b, i + 1, true, rs, run2);
        }
    } else {
        lemma_runs_from_props(base, a, b, i + 1, false, 0, seq![]);
        let rest = runs_from(base, a, b, i + 1, false, 0, seq![]);
        if active {
            let head = (((base + run_start) as usize), run);
            assert(whole == seq![head] + rest);
            assert(head.0 - base == run_start);
            assert forall|j: int| 0 <= j < whole.len() implies {
                let e = #[trigger] whole[j];
                &&& base <= e.0
                &&& e.0 - base + e.1.len() <= n
                &&& e.1.len() <= MAX_BYTE_SEQUENCE_LENGTH
                &&& e.1 == a.subrange(e.0 - base, e.0 - base + e.1.len())
                &&& e.1 == b.subrange(e.0 - base, e.0 - base + e.1.len())
            } by {
                if j > 0 {
                    assert(whole[j] == rest[j - 1]);
                }
            }
            lemma_sum_entry_lens_concat(seq![head], rest);
            assert(seq![head].drop_first() =~~= Seq::<(usize, Seq<u8>)>::empty());
            assert(sum_entry_lens(seq![head]) == head.1.len());
        }
    }
}

/// The runs an entry contributes still match the refining buffer, still
/// match any buffer the entry itself matched, stay within the maximum
/// length, and together hold no more bytes than the entry did.
proof fn lemma_entry_runs_props(e: (usize, Seq<u8>), file: Seq<u8>, buf0: Seq<u8>)
    requires
        run_matches(buf0, e),
        file.len() <= usize::MAX,
    ensures
        forall|j: int|
            0 <= j < entry_runs(e, file).len() ==> run_matches(
                file,
                #[trigger] entry_runs(e, file)[j],
            ) && run_matches(buf0, entry_runs(e, file)[j]) && entry_runs(e, file)[j].1.len()
                <= MAX_BYTE_SEQUENCE_LENGTH,
        sum_entry_lens(entry_runs(e, file)) <= e.1.len(),
{
    if e.0 <= file.len() {
        let end = if e.0 + e.1.len() <= file.len() {
            e.0 + e.1.len()
        } else {
            file.len() as int
        };
        let w = file.subrange(e.0 as int, end);
        assert(window_len(e.1, w) <= w.len());
        lemma_runs_from_props(e.0, e.1, w, 0, false, 0, seq![]);
        let rs = entry_runs(e, file);
        assert forall|j: int| 0 <= j < rs.len() implies run_matches(file, #[trigger] rs[j])
            && run_matches(buf0, rs[j]) && rs[j].1.len() <= MAX_BYTE_SEQUENCE_LENGTH by {
            let d = rs[j].0 - e.0;
            let l = rs[j].1.len() as int;
            assert(rs[j].1 == w.subrange(d, d + l));
            assert(w.subrange(d, d + l) =~= file.subrange(e.0 + d, e.0 + d + l));
            assert(rs[j].1 == e.1.subrange(d, d + l));
            assert(e.1.subrange(d, d + l) =~= buf0.subrange(e.0 + d, e.0 + d + l));
        }
        lemma_sum_entry_lens_nonneg(rs);
    } else {
        lemma_sum_entry_lens_nonneg(entry_runs(e, file));
    }
}

/// Refinement keeps every entry matching both the new buffer and any buffer
/// the old entries matched, keeps lengths within the maximum, and does not
/// grow the total byte count.
pub proof fn lemma_refined_from_props(seqs: Seq<(usize, Seq<u8>)>, file: Seq<u8>, buf0: Seq<u8>)
    requires
        forall|k: int| 0 <= k < seqs.len() ==> run_matches(buf0, #[trigger] seqs[k]),
        file.len() <= usize::MAX,
    ensures
        forall|k: int|
            0 <= k < refined_from(seqs, file).len() ==> run_matches(
                file,
                #[trigger] refined_from(seqs, file)[k],
            ) && run_matches(buf0, refined_from(seqs, file)[k]) && refined_from(seqs, file)[k].1.len()
                <= MAX_BYTE_SEQUENCE_LENGTH,
        sum_entry_lens(refined_from(seqs, file)) <= sum_entry_lens(seqs),
    decreases seqs.len(),
{
    if seqs.len() == 0 {
    } else {
        let head = entry_runs(seqs[0], file);
        let rest = refined_from(seqs.drop_first(), file);
        lemma_entry_runs_props(seqs[0], file, buf0);
        assert forall|k: int| 0 <= k < seqs.drop_first().len() implies run_matches(
            buf0,
            #[trigger] seqs.drop_first()[k],
        ) by {
            assert(seqs.drop_first()[k] == seqs[k + 1]);
        }
        lemma_refined_from_props(seqs.drop_first(), file, buf0);
        let whole = refined_from(seqs, file);
        assert(whole == head + rest);
        assert forall|k: int| 0 <= k < whole.len() implies run_matches(file, #[trigger] whole[k])
            && run_matches(buf0, whole[k]) && whole[k].1.len() <= MAX_BYTE_SEQUENCE_LENGTH by {
            if k < head.len() {
                assert(whole[k] == head[k]);
            } else {
                assert(whole[k] == rest[k - head.len()]);
            }
        }
        lemma_sum_entry_lens_concat(head, rest);
    }
}

/// The entries kept by finalization are entries of the original list, and
/// together hold no more bytes.
pub proof fn lemma_filter_entry_props(s: Seq<(usize, Seq<u8>)>)
    ensures
        forall|k: int|
            0 <= k < s.filter(keep_sequence_pred()).len() ==> s.contains(
                #[trigger] s.filter(keep_sequence_pred())[k],
            ) && keep_sequence(s.filter(keep_sequence_pred())[k]),
        sum_entry_lens(s.filter(keep_sequence_pred())) <= sum_entry_lens(s),
        s.filter(keep_sequence_pred()).len() <= s.len(),
    decreases s.len(),
{
    reveal_with_fuel(Seq::filter, 2);
    lemma_sum_entry_lens_nonneg(s);
    if s.len() == 0 {
    } else {
        let prefix = s.drop_last();
        lemma_filter_entry_props(prefix);
        let f = s.filter(keep_sequence_pred());
        let fp = prefix.filter(keep_sequence_pred());
        lemma_sum_entry_lens_push(prefix, s.last());
        assert(prefix.push(s.last()) =~~= s);
        if keep_sequence_pred()(s.last()) {
            assert(f == fp.push(s.last()));
            lemma_sum_entry_lens_push(fp, s.last());
            assert forall|k: int| 0 <= k < f.len() implies s.contains(#[trigger] f[k])
                && keep_sequence(f[k]) by {
                if k < fp.len() {
                    assert(f[k] == fp[k]);
                    assert(prefix.contains(fp[k]));
                    let w = choose|w: int| 0 <= w < prefix.len() && prefix[w] == fp[k];
                    assert(s[w] == fp[k]);
                } else {
                    assert(f[k] == s.last());
                    assert(s[s.len() - 1] == s.last());
                }
            }
        } else {
            assert(f == fp);
            assert forall|k: int| 0 <= k < f.len() implies s.contains(#[trigger] f[k])
                && keep_sequence(f[k]) by {
                assert(prefix.contains(fp[k]));
                let w = choose|w: int| 0 <= w < prefix.len() && prefix[w] == fp[k];
                assert(s[w] == fp[k]);
            }
        }
    }
}

/// When every entry holds at least one byte, there are no more entries than
/// bytes.
pub proof fn lemma_count_le_sum(s: Seq<(usize, Seq<u8>)>)
    requires
        forall|k: int| 0 <= k < s.len() ==> (#[trigger] s[k]).1.len() >= 1,
    ensures
        s.len() <= sum_entry_lens(s),
    decreases s.len(),
{
    if s.len() > 0 {
        assert forall|k: int| 0 <= k < s.drop_first().len() implies (#[trigger] s.drop_first()[k]).1.len()
            >= 1 by {
            assert(s.drop_first()[k] == s[k + 1]);
        }
        lemma_count_le_sum(s.drop_first());
        assert(s[0].1.len() >= 1);
    }
}


/// The walk emits runs left to right: each run starts at or after the open
/// run's start, and successive runs cover disjoint, increasing intervals.
proof fn lemma_runs_from_ordered(
    base: usize,
    a: Seq<u8>,
    b: Seq<u8>,
    i: int,
    active: bool,
    run_start: int,
    run: Seq<u8>,
)
    requires
        base + window_len(a, b) <= usize::MAX,
        0 <= i <= window_len(a, b),
        active ==> 0 <= run_start <= i && run.len() == i - run_start,
        !active ==> run.len() == 0,
        run.len() < MAX_BYTE_SEQUENCE_LENGTH,
    ensures
        forall|j: int|
            0 <= j < runs_from(base, a, b, i, active, run_start, run).len()
                ==> (#[trigger] runs_from(base, a, b, i, active, run_start, run)[j]).0 >= base + (
            if active {
                run_start
            } else {
                i
            }),
        forall|j1: int, j2: int|
            0 <= j1 < j2 < runs_from(base, a, b, i, active, run_start, run).len()
                ==> (#[trigger] runs_from(base, a, b, i, active, run_start, run)[j1]).0 + runs_from(
                base,
                a,
                b,
                i,
                active,
                run_start,
                run,
            )[j1].1.len() <= (#[trigger] runs_from(base, a, b, i, active, run_start, run)[j2]).0,
    decreases window_len(a, b) - i,
{
    let n = window_len(a, b);
    let whole = runs_from(base, a, b, i, active, run_start, run);
    if i >= n {
        if active && run.len() > 0 {
            assert(whole == seq![(((base + run_start) as usize), run)]);
            assert(whole[0].0 == base + run_start);
        } else {
            assert(whole =~~= Seq::<(usize, Seq<u8>)>::empty());
        }
    } else if a[i] == b[i] {
        let rs = if active {
            run_start
        } else {
            i
        };
        let run2 = run.push(a[i]);
        if run2.len() == MAX_BYTE_SEQUENCE_LENGTH {
            lemma_runs_from_ordered(base, a, b, i + 1, true, i + 1, seq![]);
            let rest = runs_from(base, a, b, i + 1, true, i + 1, seq![]);
            let head = (((base + rs) as usize), run2);
            assert(whole == seq![head] + rest);
            assert(head.0 == base + rs);
            assert(head.0 + head.1.len() == base + i + 1);
            assert forall|j1: int, j2: int| 0 <= j1 < j2 < whole.len() implies (
            #[trigger] whole[j1]).0 + whole[j1].1.len() <= (#[trigger] whole[j2]).0 by {
                if j1 == 0 {
                    assert(whole[j2] == rest[j2 - 1]);
                    assert(rest[j2 - 1].0 >= base + (i + 1));
                } else {
                    assert(whole[j1] == rest[j1 - 1]);
                    assert(whole[j2] == rest[j2 - 1]);
                }
            }
            assert forall|j: int| 0 <= j < whole.len() implies (#[trigger] whole[j]).0 >= base + rs by {
                if j > 0 {
                    assert(whole[j] == rest[j - 1]);
                    assert(rest[j - 1].0 >= base + (i + 1));
                }
            }
        } else {
            lemma_runs_from_ordered(base, a, b, i + 1, true, rs, run2);
            assert(whole == runs_from(base, a, b, i + 1, true, rs, run2));
            assert forall|j: int| 0 <= j < whole.len() implies (#[trigger] whole[j]).0 >= base + (
            if active {
                run_start
            } else {
                i
            }) by {
                assert(whole[j].0 >= base + rs);
            }
        }
    } else {
        lemma_runs_from_ordered(base, a, b, i + 1, false, 0, seq![]);
        let rest = runs_from(base, a, b, i + 1, false, 0, seq![]);
        if active {
            let head = (((base + run_start) as usize), run);
            assert(whole == seq![head] + rest);
            assert(head.0 == base + run_start);
            assert(head.0 + head.1.len() == base + i);
            assert forall|j1: int, j2: int| 0 <= j1 < j2 < whole.len() implies (
            #[trigger] whole[j1]).0 + whole[j1].1.len() <= (#[trigger] whole[j2]).0 by {
                if j1 == 0 {
                    assert(whole[j2] == rest[j2 - 1]);
                    assert(rest[j2 - 1].0 >= base + (i + 1));
                } else {
                    assert(whole[j1] == rest[j1 - 1]);
                    assert(whole[j2] == rest[j2 - 1]);
                }
            }
            assert forall|j: int| 0 <= j < whole.len() implies (#[trigger] whole[j]).0 >= base
                + run_start by {
                if j > 0 {
                    assert(whole[j] == rest[j - 1]);
                    assert(rest[j - 1].0 >= base + (i + 1));
                }
            }
        } else {
            assert(whole == runs_from(base, a, b, i + 1, false, 0, seq![]));
            assert forall|j: int| 0 <= j < whole.len() implies (#[trigger] whole[j]).0 >= base
                + i by {
                assert(whole[j].0 >= base + (i + 1));
            }
        }
    }
}

/// Whether the entries of a sequence list cover pairwise disjoint intervals
/// in increasing offset order.
pub open spec fn entries_interval_ordered(s: Seq<(usize, Seq<u8>)>) -> bool {
    forall|i: int, j: int|
        0 <= i < j < s.len() ==> (#[trigger] s[i]).0 + s[i].1.len() <= (#[trigger] s[j]).0
}

/// The runs of one entry stay within the entry's own interval and cover
/// disjoint, increasing sub-intervals.
proof fn lemma_entry_runs_ordered(e: (usize, Seq<u8>), file: Seq<u8>)
    requires
        file.len() <= usize::MAX,
    ensures
        entries_interval_ordered(entry_runs(e, file)),
        forall|j: int|
            0 <= j < entry_runs(e, file).len() ==> e.0 <= (#[trigger] entry_runs(e, file)[j]).0
                && entry_runs(e, file)[j].0 + entry_runs(e, file)[j].1.len() <= e.0 + e.1.len(),
{
    if e.0 <= file.len() {
        let end = if e.0 + e.1.len() <= file.len() {
            e.0 + e.1.len()
        } else {
            file.len() as int
        };
        let w = file.subrange(e.0 as int, end);
        assert(window_len(e.1, w) <= e.1.len());
        lemma_runs_from_ordered(e.0, e.1, w, 0, false, 0, seq![]);
        lemma_runs_from_props(e.0, e.1, w, 0, false, 0, seq![]);
    }
}

/// Refining an interval-ordered list yields an interval-ordered list whose
/// entries start no earlier than the first old entry.
pub proof fn lemma_refined_from_ordered(seqs: Seq<(usize, Seq<u8>)>, file: Seq<u8>)
    requires
        file.len() <= usize::MAX,
        entries_interval_ordered(seqs),
    ensures
        entries_interval_ordered(refined_from(seqs, file)),
        seqs.len() > 0 ==> forall|k: int|
            0 <= k < refined_from(seqs, file).len() ==> (#[trigger] refined_from(seqs, file)[k]).0
                >= seqs[0].0,
    decreases seqs.len(),
{
    if seqs.len() == 0 {
    } else {
        let head = entry_runs(seqs[0], file);
        let rest = refined_from(seqs.drop_first(), file);
        let whole = refined_from(seqs, file);
        assert(whole == head + rest);
        lemma_entry_runs_ordered(seqs[0], file);
        assert forall|i: int, j: int| 0 <= i < j < seqs.drop_first().len() implies (
        #[trigger] seqs.drop_first()[i]).0 + seqs.drop_first()[i].1.len()
            <= (#[trigger] seqs.drop_first()[j]).0 by {
            assert(seqs.drop_first()[i] == seqs[i + 1]);
            assert(seqs.drop_first()[j] == seqs[j + 1]);
        }
        lemma_refined_from_ordered(seqs.drop_first(), file);
        assert forall|i: int, j: int| 0 <= i < j < whole.len() implies (#[trigger] whole[i]).0
            + whole[i].1.len() <= (#[trigger] whole[j]).0 by {
            if j < head.len() {
                assert(whole[i] == head[i] && whole[j] == head[j]);
            } else if i >= head.len() {
                assert(whole[i] == rest[i - head.len()] && whole[j] == rest[j - head.len()]);
            } else {
                assert(whole[i] == head[i] && whole[j] == rest[j - head.len()]);
                assert(head[i].0 + head[i].1.len() <= seqs[0].0 + seqs[0].1.len());
                if seqs.len() > 1 {
                    assert(rest[j - head.len()].0 >= seqs.drop_first()[0].0);
                    assert(seqs[0].0 + seqs[0].1.len() <= seqs[1].0);
                    assert(seqs.drop_first()[0] == seqs[1]);
                }
            }
        }
        assert forall|k: int| 0 <= k < whole.len() implies (#[trigger] whole[k]).0 >= seqs[0].0 by {
            if k < head.len() {
                assert(whole[k] == head[k]);
            } else {
                assert(whole[k] == rest[k - head.len()]);
                if seqs.len() > 1 {
                    assert(rest[k - head.len()].0 >= seqs.drop_first()[0].0);
                    assert(seqs.drop_first()[0] == seqs[1]);
                    assert(seqs[1].0 >= seqs[0].0);
                }
            }
        }
    }
}

/// Finalization keeps the interval order.
pub proof fn lemma_filter_keeps_order(s: Seq<(usize, Seq<u8>)>)
    requires
        entries_interval_ordered(s),
    ensures
        entries_interval_ordered(s.filter(keep_sequence_pred())),
    decreases s.len(),
{
    reveal_with_fuel(Seq::filter, 2);
    lemma_filter_entry_props(s);
    if s.len() > 0 {
        let prefix = s.drop_last();
        assert forall|i: int, j: int| 0 <= i < j < prefix.len() implies (#[trigger] prefix[i]).0
            + prefix[i].1.len() <= (#[trigger] prefix[j]).0 by {
            assert(prefix[i] == s[i] && prefix[j] == s[j]);
        }
        lemma_filter_keeps_order(prefix);
        lemma_filter_entry_props(prefix);
        let f = s.filter(keep_sequence_pred());
        let fp = prefix.filter(keep_sequence_pred());
        assert(prefix.push(s.last()) =~~= s);
        assert forall|i: int, j: int| 0 <= i < j < f.len() implies (#[trigger] f[i]).0
            + f[i].1.len() <= (#[trigger] f[j]).0 by {
            if keep_sequence_pred()(s.last()) && j == f.len() - 1 {
                assert(f == fp.push(s.last()));
                assert(f[i] == fp[i]);
                assert(prefix.contains(fp[i]));
                let w = choose|w: int| 0 <= w < prefix.len() && prefix[w] == fp[i];
                assert(s[w] == fp[i]);
                assert(s[w].0 + s[w].1.len() <= s[s.len() - 1].0);
                assert(f[j] == s.last());
                assert(s[s.len() - 1] == s.last());
            } else {
                if keep_sequence_pred()(s.last()) {
                    assert(f == fp.push(s.last()));
                    assert(f[i] == fp[i] && f[j] == fp[j]);
                } else {
                    assert(f == fp);
                }
            }
        }
    }
}

/// Extract the list of runs of equal bytes between two buffers, offsets
/// shifted by `start_at`.
pub fn extract_matching_sequences(start_at: usize, seq_1: &[u8], seq_2: &[u8]) -> (r: Vec<
    (usize, Vec<u8>),
>)
    requires
        start_at + window_len(seq_1@, seq_2@) <= usize::MAX,
    ensures
        model(r@) == runs_from(start_at, seq_1@, seq_2@, 0, false, 0, seq![]),
{
    let ghost a = seq_1@;
    let ghost b = seq_2@;
    let n = if seq_1.len() <= seq_2.len() {
        seq_1.len()
    } else {
        seq_2.len()
    };
    let mut result: Vec<(usize, Vec<u8>)> = Vec::new();
    let mut buffer: Vec<u8> = Vec::new();
    let mut active: bool = false;
    let mut run_start: usize = 0;
    let mut i: usize = 0;
    while i < n
        invariant
            n == window_len(a, b),
            a == seq_1@,
            b == seq_2@,
            start_at + n <= usize::MAX,
            i <= n,
            active ==> run_start <= i,
            !active ==> buffer@.len() == 0,
            buffer@.len() < MAX_BYTE_SEQUENCE_LENGTH,
            runs_from(start_at, a, b, 0, false, 0, seq![]) == model(result@) + runs_from(
                start_at,
                a,
                b,
                i as int,
                active,
                run_start as int,
                buffer@,
            ),
        decreases n - i,
    {
        let ghost pre_active = active;
        let ghost pre_rs = run_start as int;
        let ghost pre_buf = buffer@;
        if seq_1[i] == seq_2[i] {
            if !active {
                run_start = i;
                active = true;
            }
            let ghost rs = run_start as int;
            buffer.push(seq_1[i]);
            if buffer.len() == MAX_BYTE_SEQUENCE_LENGTH {
                let ghost pre = result@;
                let ghost full = buffer@;
                let entry = (start_at + run_start, buffer);
                result.push(entry);
                buffer = Vec::new();
                run_start = i + 1;
                proof {
                    let head = (((start_at + rs) as usize), full);
                    let rest = runs_from(start_at, a, b, i + 1int, true, i + 1int, seq![]);
                    assert(runs_from(start_at, a, b, i as int, pre_active, pre_rs, pre_buf)
                        == seq![head] + rest);
                    lemma_model_push(pre, entry);
                    assert(model(pre) + (seq![head] + rest) =~~= model(result@) + rest);
                    assert(buffer@ =~= Seq::<u8>::empty());
                    assert(Seq::<u8>::empty() =~= seq![]);
                    assert(runs_from(start_at, a, b, 0, false, 0, seq![]) == model(result@)
                        + runs_from(start_at, a, b, i + 1int, true, i + 1int, buffer@));
                }
            } else {
                proof {
                    assert(runs_from(start_at, a, b, i as int, pre_active, pre_rs, pre_buf)
                        == runs_from(start_at, a, b, i + 1int, true, rs, buffer@));
                    assert(runs_from(start_at, a, b, 0, false, 0, seq![]) == model(result@)
                        + runs_from(start_at, a, b, i + 1int, true, run_start as int, buffer@));
                }
            }
        } else {
            if active {
                let ghost pre = result@;
                let ghost full = buffer@;
                let ghost rs = run_start as int;
                let entry = (start_at + run_start, buffer);
                result.push(entry);
                buffer = Vec::new();
                active = false;
                proof {
                    let head = (((start_at + rs) as usize), full);
                    let rest = runs_from(start_at, a, b, i + 1int, false, 0, seq![]);
                    assert(runs_from(start_at, a, b, i as int, pre_active, pre_rs, pre_buf)
                        == seq![head] + rest);
                    lemma_model_push(pre, entry);
                    assert(model(pre) + (seq![head] + rest) =~~= model(result@) + rest);
                    assert(buffer@ =~= Seq::<u8>::empty());
                    assert(Seq::<u8>::empty() =~= seq![]);
                    assert(runs_from(start_at, a, b, 0, false, 0, seq![]) == model(result@)
                        + runs_from(start_at, a, b, i + 1int, false, 0, buffer@));
                }
            } else {
                proof {
                    assert(runs_from(start_at, a, b, i as int, pre_active, pre_rs, pre_buf)
                        == runs_from(start_at, a, b, i + 1int, false, 0, seq![]));
                    assert(buffer@ =~= seq![]);
                    assert(runs_from(start_at, a, b, i + 1int, false, run_start as int, buffer@)
                        == runs_from(start_at, a, b, i + 1int, false, 0, seq![]));
                    assert(runs_from(start_at, a, b, 0, false, 0, seq![]) == model(result@)
                        + runs_from(start_at, a, b, i + 1int, false, run_start as int, buffer@));
                }
            }
        }
        i += 1;
    }
    if buffer.len() > 0 {
        let ghost pre = result@;
        let ghost full = buffer@;
        let ghost rs = run_start as int;
        let ghost was_active = active;
        let entry = (start_at + run_start, buffer);
        result.push(entry);
        proof {
            let head = (((start_at + rs) as usize), full);
            assert(runs_from(start_at, a, b, n as int, was_active, rs, full) == seq![head]);
            lemma_model_push(pre, entry);
            assert(model(pre) + seq![head] =~~= model(result@));
        }
    } else {
        proof {
            assert(runs_from(start_at, a, b, n as int, active, run_start as int, buffer@)
                == Seq::<(usize, Seq<u8>)>::empty());
            assert(model(result@) + Seq::<(usize, Seq<u8>)>::empty() =~~= model(result@));
        }
    }
    result
}

/// Refine a common byte sequence list against a new buffer, keeping only
/// the runs that still match.
pub fn refine_common_byte_sequences_v2(file_bytes: &[u8], sequences: &mut Vec<(usize, Vec<u8>)>)
    requires
        forall|k: int|
            0 <= k < old(sequences)@.len() ==> (#[trigger] old(sequences)@[k]).0
                + old(sequences)@[k].1@.len() <= usize::MAX,
    ensures
        model(final(sequences)@) == refined_from(model(old(sequences)@), file_bytes@),
{
    let ghost file = file_bytes@;
    let ghost orig = model(sequences@);
    let flen = file_bytes.len();
    let mut result: Vec<(usize, Vec<u8>)> = Vec::new();
    let mut j: usize = 0;
    proof {
        assert(orig.take(0) =~= Seq::<(usize, Seq<u8>)>::empty());
    }
    while j < sequences.len()
        invariant
            *sequences == *old(sequences),
            orig == model(sequences@),
            flen == file.len(),
            file == file_bytes@,
            j <= sequences@.len(),
            forall|k: int|
                0 <= k < sequences@.len() ==> (#[trigger] sequences@[k]).0 + sequences@[k].1@.len()
                    <= usize::MAX,
            model(result@) == refined_from(orig.take(j as int), file),
        decreases sequences@.len() - j,
    {
        let index = sequences[j].0;
        if index <= flen {
            let seq_len = sequences[j].1.len();
            let end = if seq_len <= flen - index {
                index + seq_len
            } else {
                flen
            };
            let window = vstd::slice::slice_subrange(file_bytes, index, end);
            let ghost pre = result@;
            let mut part = extract_matching_sequences(index, sequences[j].1.as_slice(), window);
            proof {
                assert(window_len(sequences@[j as int].1@, window@) <= sequences@[j as int].1@.len());
            }
            result.append(&mut part);
            proof {
                assert(model(result@) =~~= model(pre) + runs_from(
                    index,
                    sequences@[j as int].1@,
                    window@,
                    0,
                    false,
                    0,
                    seq![],
                ));
                assert(entry_runs(orig[j as int], file) == runs_from(
                    index,
                    sequences@[j as int].1@,
                    window@,
                    0,
                    false,
                    0,
                    seq![],
                ));
            }
        } else {
            proof {
                assert(entry_runs(orig[j as int], file) =~~= Seq::<(usize, Seq<u8>)>::empty());
            }
        }
        proof {
            assert(orig.take(j + 1int) =~~= orig.take(j as int).push(orig[j as int]));
            lemma_refined_from_snoc(orig.take(j as int), orig[j as int], file);
            assert(model(result@) =~~= refined_from(orig.take(j + 1int), file));
        }
        j += 1;
    }
    proof {
        assert(orig.take(orig.len() as int) =~~= orig);
    }
    *sequences = result;
}

/// Strip sequences that the finalized pattern may not hold: those below the
/// minimum length and those made only of zero bytes.
pub fn strip_unwanted_sequences(sequences: &mut Vec<(usize, Vec<u8>)>)
    ensures
        model(final(sequences)@) == model(old(sequences)@).filter(keep_sequence_pred()),
{
    let ghost orig = model(sequences@);
    let mut result: Vec<(usize, Vec<u8>)> = Vec::new();
    let mut j: usize = 0;
    proof {
        reveal_with_fuel(Seq::filter, 2);
        assert(orig.take(0) =~~= Seq::<(usize, Seq<u8>)>::empty());
        assert(orig.take(0).filter(keep_sequence_pred()) =~~= Seq::<(usize, Seq<u8>)>::empty());
    }
    while j < sequences.len()
        invariant
            *sequences == *old(sequences),
            orig == model(sequences@),
            j <= sequences@.len(),
            model(result@) == orig.take(j as int).filter(keep_sequence_pred()),
        decreases sequences@.len() - j,
    {
        let keep = sequence_is_wanted(&sequences[j]);
        let ghost pre = result@;
        if keep {
            let entry = (sequences[j].0, clone_bytes(&sequences[j].1));
            result.push(entry);
            proof {
                assert(model(result@) =~~= model(pre).push(orig[j as int]));
            }
        }
        proof {
            reveal_with_fuel(Seq::filter, 2);
            let pred = keep_sequence_pred();
            let prefix = orig.take(j as int);
            let snoc = prefix.push(orig[j as int]);
            assert(orig.take(j + 1int) =~~= snoc);
            assert(snoc.drop_last() =~~= prefix);
            assert(snoc.last() == orig[j as int]);
            assert(snoc.filter(pred) == if pred(snoc.last()) {
                snoc.drop_last().filter(pred).push(snoc.last())
            } else {
                snoc.drop_last().filter(pred)
            });
            assert(model(result@) =~~= orig.take(j + 1int).filter(pred));
        }
        j += 1;
    }
    proof {
        assert(orig.take(orig.len() as int) =~~= orig);
    }
    *sequences = result;
}

/// Whether an entry survives finalization: at least the minimum length and
/// not entirely zero bytes.
pub fn sequence_is_wanted(e: &(usize, Vec<u8>)) -> (r: bool)
    ensures
        r == keep_sequence((e.0, e.1@)),
{
    if e.1.len() < MIN_BYTE_SEQUENCE_LENGTH {
        return false;
    }
    let mut k: usize = 0;
    while k < e.1.len()
        invariant
            k <= e.1@.len(),
            forall|m: int| 0 <= m < k ==> e.1@[m] == 0,
        decreases e.1@.len() - k,
    {
        if e.1[k] != 0 {
            return true;
        }
        k += 1;
    }
    false
}

/// A copy of a byte vector.
pub fn clone_bytes(v: &Vec<u8>) -> (r: Vec<u8>)
    ensures
        r@ == v@,
{
    let mut out: Vec<u8> = Vec::new();
    let mut k: usize = 0;
    while k < v.len()
        invariant
            k <= v@.len(),
            out@ == v@.take(k as int),
        decreases v@.len() - k,
    {
        out.push(v[k]);
        proof {
            assert(v@.take(k as int).push(v@[k as int]) =~= v@.take(k + 1int));
        }
        k += 1;
    }
    proof {
        assert(v@.take(v@.len() as int) =~= v@);
    }
    out
}

/// Sort a sequence list by offset, descending, keeping exactly the same
/// entries.
pub fn sort_sequences_by_offset_desc(sequences: &mut Vec<(usize, Vec<u8>)>)
    ensures
        final(sequences)@.to_multiset() == old(sequences)@.to_multiset(),
        forall|i: int, j: int|
            0 <= i < j < final(sequences)@.len() ==> final(sequences)@[i].0 >= final(sequences)@[j].0,
        forall|k: int| 0 <= k < final(sequences)@.len() ==> old(sequences)@.contains(#[trigger] final(sequences)@[k]),
        sum_entry_lens(model(final(sequences)@)) == sum_entry_lens(model(old(sequences)@)),
        final(sequences)@.len() == old(sequences)@.len(),
        model(final(sequences)@).to_multiset() == model(old(sequences)@).to_multiset(),
        (forall|i: int, j: int|
            0 <= i < j < old(sequences)@.len() ==> (#[trigger] old(sequences)@[i]).0
                != (#[trigger] old(sequences)@[j]).0) ==> forall|i: int, j: int|
            0 <= i < j < final(sequences)@.len() ==> (#[trigger] final(sequences)@[i]).0
                > (#[trigger] final(sequences)@[j]).0,
{
    let ghost distinct = forall|i: int, j: int|
        0 <= i < j < old(sequences)@.len() ==> (#[trigger] old(sequences)@[i]).0
            != (#[trigger] old(sequences)@[j]).0;

    broadcast use vstd::seq_lib::group_to_multiset_ensures;
    broadcast use vstd::multiset::group_multiset_axioms;

    let mut out: Vec<(usize, Vec<u8>)> = Vec::new();
    while sequences.len() > 0
        invariant
            out@.to_multiset().add(sequences@.to_multiset()) == old(sequences)@.to_multiset(),
            out@.len() + sequences@.len() == old(sequences)@.len(),
            forall|k: int| 0 <= k < out@.len() ==> old(sequences)@.contains(#[trigger] out@[k]),
            forall|k: int|
                0 <= k < sequences@.len() ==> old(sequences)@.contains(#[trigger] sequences@[k]),
            sum_entry_lens(model(out@)) + sum_entry_lens(model(sequences@)) == sum_entry_lens(
                model(old(sequences)@),
            ),
            model(out@).to_multiset().add(model(sequences@).to_multiset()) == model(
                old(sequences)@,
            ).to_multiset(),
            forall|i: int, j: int| 0 <= i < j < out@.len() ==> out@[i].0 >= out@[j].0,
            forall|i: int, j: int|
                0 <= i < out@.len() && 0 <= j < sequences@.len() ==> (#[trigger] out@[i]).0
                    >= (#[trigger] sequences@[j]).0,
            distinct ==> forall|i: int, j: int|
                0 <= i < j < out@.len() ==> (#[trigger] out@[i]).0 != (#[trigger] out@[j]).0,
            distinct ==> forall|i: int, j: int|
                0 <= i < out@.len() && 0 <= j < sequences@.len() ==> (#[trigger] out@[i]).0
                    != (#[trigger] sequences@[j]).0,
            distinct ==> forall|i: int, j: int|
                0 <= i < j < sequences@.len() ==> (#[trigger] sequences@[i]).0
                    != (#[trigger] sequences@[j]).0,
        decreases sequences@.len(),
    {
        let mut m: usize = 0;
        let mut k: usize = 1;
        while k < sequences.len()
            invariant
                m < k <= sequences@.len(),
                sequences@.len() > 0,
                forall|t: int| 0 <= t < k ==> sequences@[t].0 <= #[trigger] sequences@[m as int].0,
            decreases sequences@.len() - k,
        {
            if sequences[k].0 > sequences[m].0 {
                m = k;
            }
            k += 1;
        }
        let ghost pre_seq = sequences@;
        let ghost pre_out = out@;
        let e = sequences.remove(m);
        out.push(e);
        proof {
            assert(pre_seq[m as int] == e);
            assert(pre_seq.contains(e));
            assert(sequences@ == pre_seq.remove(m as int));
            assert(out@ == pre_out.push(e));
            vstd::seq_lib::to_multiset_remove(pre_seq, m as int);
            vstd::seq_lib::to_multiset_build(pre_out, e);
            assert(pre_seq.remove(m as int).to_multiset() == pre_seq.to_multiset().remove(
                pre_seq[m as int],
            ));
            assert(pre_out.push(e).to_multiset() =~= pre_out.to_multiset().insert(e));
            assert(sequences@.to_multiset() =~= pre_seq.to_multiset().remove(e));
            assert(out@.to_multiset() =~= pre_out.to_multiset().insert(e));
            vstd::seq_lib::to_multiset_contains(pre_seq, e);
            assert(pre_seq.to_multiset().count(e) > 0);
            assert(model(pre_seq.remove(m as int)) =~~= model(pre_seq).remove(m as int));
            lemma_model_push(pre_out, e);
            vstd::seq_lib::to_multiset_remove(model(pre_seq), m as int);
            vstd::seq_lib::to_multiset_build(model(pre_out), (e.0, e.1@));
            vstd::seq_lib::to_multiset_contains(model(pre_seq), (e.0, e.1@));
            assert(model(pre_seq).contains((e.0, e.1@))) by {
                assert(model(pre_seq)[m as int] == (e.0, e.1@));
            }
            assert(model(out@).to_multiset() =~= model(pre_out).to_multiset().insert((e.0, e.1@)));
            assert(model(sequences@).to_multiset() =~= model(pre_seq).to_multiset().remove(
                (e.0, e.1@),
            ));
            assert(model(out@).to_multiset().add(model(sequences@).to_multiset()) =~= model(
                pre_out,
            ).to_multiset().add(model(pre_seq).to_multiset()));
            lemma_sum_entry_lens_push(model(pre_out), (e.0, e.1@));
            lemma_sum_entry_lens_remove(model(pre_seq), m as int);
            assert(model(pre_seq)[m as int] == (e.0, e.1@));
            assert forall|k: int| 0 <= k < sequences@.len() implies old(sequences)@.contains(
                #[trigger] sequences@[k],
            ) by {
                if k < m {
                    assert(sequences@[k] == pre_seq[k]);
                } else {
                    assert(sequences@[k] == pre_seq[k + 1]);
                }
            }
            assert(out@.to_multiset().add(sequences@.to_multiset()) =~= pre_out.to_multiset().add(
                pre_seq.to_multiset(),
            ));
            if distinct {
                assert forall|i: int, j: int|
                    0 <= i < j < sequences@.len() implies (#[trigger] sequences@[i]).0
                    != (#[trigger] sequences@[j]).0 by {
                    let pi = if i < m {
                        i
                    } else {
                        i + 1
                    };
                    let pj = if j < m {
                        j
                    } else {
                        j + 1
                    };
                    assert(sequences@[i] == pre_seq[pi]);
                    assert(sequences@[j] == pre_seq[pj]);
                }
                assert forall|i: int, j: int|
                    0 <= i < out@.len() && 0 <= j < sequences@.len() implies (
                #[trigger] out@[i]).0 != (#[trigger] sequences@[j]).0 by {
                    let pj = if j < m {
                        j
                    } else {
                        j + 1
                    };
                    assert(sequences@[j] == pre_seq[pj]);
                    if i < pre_out.len() {
                        assert(out@[i] == pre_out[i]);
                    } else {
                        assert(out@[i] == pre_seq[m as int]);
                    }
                }
                assert forall|i: int, j: int|
                    0 <= i < j < out@.len() implies (#[trigger] out@[i]).0
                    != (#[trigger] out@[j]).0 by {
                    if j < pre_out.len() {
                        assert(out@[i] == pre_out[i] && out@[j] == pre_out[j]);
                    } else {
                        assert(out@[j] == pre_seq[m as int]);
                        assert(out@[i] == pre_out[i]);
                    }
                }
            }
            assert forall|j: int| 0 <= j < sequences@.len() implies out@[out@.len() - 1].0
                >= #[trigger] sequences@[j].0 by {
                if j < m {
                    assert(sequences@[j] == pre_seq[j]);
                } else {
                    assert(sequences@[j] == pre_seq[j + 1]);
                }
            }
        }
    }
    *sequences = out;
}

} // verus!
