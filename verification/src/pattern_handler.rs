//! The pattern registry: holds the loaded patterns, and matches a candidate
//! file's header against all of them, ranked by match percentage.

use vstd::prelude::*;

use crate::file_point_calculator::{compute_spec, FilePointCalculator};
use crate::pattern::{data_max_points, pattern_data_valid, Pattern};

verus! {

/// One thousandth-resolution percentage: `points` out of `max_points`,
/// times one thousand, rounded half up.
pub open spec fn percent_tenths(points: int, max_points: int) -> int {
    (2000 * points + max_points) / (2 * max_points)
}

/// One ranked match result.
pub struct PatternMatch {
    /// The UUID of the matched pattern.
    pub uuid: String,
    /// The points the pattern awarded.
    pub points: usize,
    /// The maximum points the pattern could award.
    pub max_points: usize,
    /// The match percentage in tenths of a percent: `1000` is a full match.
    pub percentage_tenths: u64,
}

impl PatternMatch {
    /// Wrap a scored pattern as a match result.
    pub fn new(uuid: &str, points: usize, max_points: usize) -> (r: PatternMatch)
        requires
            1 <= max_points,
            points <= max_points,
        ensures
            r.uuid@ == uuid@,
            r.points == points,
            r.max_points == max_points,
            r.percentage_tenths == percent_tenths(points as int, max_points as int),
            r.percentage_tenths <= 1000,
    {
        let p = points as u128;
        let m = max_points as u128;
        let t = (2000 * p + m) / (2 * m);
        proof {
            assert((2000 * (points as int) + max_points) / (2 * (max_points as int)) <= 1000
                && (2000 * (points as int) + max_points) / (2 * (max_points as int)) >= 0) by (nonlinear_arith)
                requires
                    1 <= max_points,
                    points <= max_points,
            {}
        }
        PatternMatch { uuid: uuid.to_owned(), points, max_points, percentage_tenths: t as u64 }
    }
}

/// Lexicographic order on character sequences.
pub open spec fn str_lex_le(a: Seq<char>, b: Seq<char>) -> bool
    decreases a.len(),
{
    if a.len() == 0 {
        true
    } else if b.len() == 0 {
        false
    } else if (a[0] as int) < (b[0] as int) {
        true
    } else if a[0] == b[0] {
        str_lex_le(a.drop_first(), b.drop_first())
    } else {
        false
    }
}

/// The ranking order: by percentage descending, ties by points descending,
/// then by UUID ascending.
pub open spec fn rank_before(a: PatternMatch, b: PatternMatch) -> bool {
    if a.percentage_tenths != b.percentage_tenths {
        a.percentage_tenths > b.percentage_tenths
    } else if a.points != b.points {
        a.points > b.points
    } else {
        str_lex_le(a.uuid@, b.uuid@)
    }
}

proof fn lemma_str_lex_total(a: Seq<char>, b: Seq<char>)
    ensures
        str_lex_le(a, b) || str_lex_le(b, a),
    decreases a.len(),
{
    if a.len() > 0 && b.len() > 0 && a[0] == b[0] {
        lemma_str_lex_total(a.drop_first(), b.drop_first());
    }
}

proof fn lemma_str_lex_trans(a: Seq<char>, b: Seq<char>, c: Seq<char>)
    requires
        str_lex_le(a, b),
        str_lex_le(b, c),
    ensures
        str_lex_le(a, c),
    decreases a.len(),
{
    if a.len() > 0 && b.len() > 0 && c.len() > 0 && a[0] == b[0] && b[0] == c[0] {
        lemma_str_lex_trans(a.drop_first(), b.drop_first(), c.drop_first());
    }
}

/// The ranking order is total.
pub proof fn lemma_rank_total(a: PatternMatch, b: PatternMatch)
    ensures
        rank_before(a, b) || rank_before(b, a),
{
    lemma_str_lex_total(a.uuid@, b.uuid@);
}

/// The ranking order is transitive.
pub proof fn lemma_rank_trans(a: PatternMatch, b: PatternMatch, c: PatternMatch)
    requires
        rank_before(a, b),
        rank_before(b, c),
    ensures
        rank_before(a, c),
{
    if a.percentage_tenths == b.percentage_tenths && b.percentage_tenths == c.percentage_tenths
        && a.points == b.points && b.points == c.points {
        lemma_str_lex_trans(a.uuid@, b.uuid@, c.uuid@);
    }
}

/// Whether `a` ranks at or before `b`.
fn rank_before_exec(a: &PatternMatch, b: &PatternMatch) -> (r: bool)
    ensures
        r == rank_before(*a, *b),
{
    if a.percentage_tenths != b.percentage_tenths {
        a.percentage_tenths > b.percentage_tenths
    } else if a.points != b.points {
        a.points > b.points
    } else {
        str_lex_le_exec(a.uuid.as_str(), b.uuid.as_str())
    }
}

/// Whether `a` is lexicographically at or before `b`.
fn str_lex_le_exec(a: &str, b: &str) -> (r: bool)
    ensures
        r == str_lex_le(a@, b@),
{
    let na = a.unicode_len();
    let nb = b.unicode_len();
    let mut i: usize = 0;
    proof {
        assert(a@.skip(0) =~= a@);
        assert(b@.skip(0) =~= b@);
    }
    while i < na && i < nb
        invariant
            na == a@.len(),
            nb == b@.len(),
            i <= na,
            i <= nb,
            str_lex_le(a@, b@) == str_lex_le(a@.skip(i as int), b@.skip(i as int)),
        decreases na - i,
    {
        let ca = a.get_char(i);
        let cb = b.get_char(i);
        proof {
            assert(a@.skip(i as int)[0] == a@[i as int]);
            assert(b@.skip(i as int)[0] == b@[i as int]);
            assert(a@.skip(i as int).drop_first() =~= a@.skip(i + 1int));
            assert(b@.skip(i as int).drop_first() =~= b@.skip(i + 1int));
        }
        if (ca as u32) < (cb as u32) {
            return true;
        }
        if ca != cb {
            return false;
        }
        i += 1;
    }
    proof {
        if i >= na {
            assert(a@.skip(i as int).len() == 0);
        } else {
            assert(b@.skip(i as int).len() == 0);
            assert(a@.skip(i as int).len() > 0);
        }
    }
    na <= nb
}

/// Holds the loaded patterns.
pub struct PatternHandler {
    /// The usable patterns, each with its attributes computed.
    pub patterns: Vec<Pattern>,
}

/// Every held pattern is structurally valid with its maximum points
/// computed.
pub open spec fn handler_wf(h: PatternHandler) -> bool {
    forall|k: int|
        0 <= k < h.patterns@.len() ==> pattern_data_valid((#[trigger] h.patterns@[k]).data)
            && h.patterns@[k].max_points == data_max_points(h.patterns@[k].data)
}

impl PatternHandler {
    /// An empty registry.
    pub fn new() -> (r: PatternHandler)
        ensures
            r.patterns@.len() == 0,
            handler_wf(r),
    {
        PatternHandler { patterns: Vec::new() }
    }

    /// Whether no pattern was loaded.
    pub fn is_empty(&self) -> (r: bool)
        ensures
            r == (self.patterns@.len() == 0),
    {
        self.patterns.len() == 0
    }

    /// Read pattern documents: each one that parses and validates is loaded
    /// with its attributes computed; the rest are skipped. Patterns already
    /// held are kept unchanged, and at most one pattern is appended per
    /// document. Which documents are accepted is fixed by the reader's own
    /// contract in [`crate::codec`].
    pub fn read(&mut self, documents: &Vec<String>)
        requires
            handler_wf(*old(self)),
        ensures
            handler_wf(*final(self)),
            final(self).patterns@.len() >= old(self).patterns@.len(),
            final(self).patterns@.len() <= old(self).patterns@.len() + documents@.len(),
            forall|k: int|
                0 <= k < old(self).patterns@.len() ==> final(self).patterns@[k] == old(
                    self,
                ).patterns@[k],
    {
        let mut k: usize = 0;
        while k < documents.len()
            invariant
                handler_wf(*self),
                self.patterns@.len() >= old(self).patterns@.len(),
                self.patterns@.len() <= old(self).patterns@.len() + k,
                forall|m: int|
                    0 <= m < old(self).patterns@.len() ==> self.patterns@[m] == old(
                        self,
                    ).patterns@[m],
                k <= documents@.len(),
            decreases documents@.len() - k,
        {
            match crate::codec::from_json_str(documents[k].as_str()) {
                Ok(mut p) => {
                    p.compute_attributes();
                    self.patterns.push(p);
                },
                Err(_) => {},
            }
            k += 1;
        }
    }
}

/// Sort match results into ranking order, keeping exactly the same
/// entries.
fn sort_matches(v: &mut Vec<PatternMatch>)
    ensures
        final(v)@.to_multiset() == old(v)@.to_multiset(),
        forall|i: int, j: int|
            0 <= i < j < final(v)@.len() ==> rank_before(#[trigger] final(v)@[i], #[trigger] final(v)@[j]),
        forall|k: int| 0 <= k < final(v)@.len() ==> old(v)@.contains(#[trigger] final(v)@[k]),
        forall|k: int| 0 <= k < old(v)@.len() ==> final(v)@.contains(#[trigger] old(v)@[k]),
        final(v)@.len() == old(v)@.len(),
{
    broadcast use vstd::multiset::group_multiset_axioms;

    let mut out: Vec<PatternMatch> = Vec::new();
    proof {
        out@.to_multiset_ensures();
        assert(out@.to_multiset().add(v@.to_multiset()) =~= v@.to_multiset()) by {
            assert forall|x: PatternMatch| out@.to_multiset().count(x) == 0 by {
                out@.to_multiset_ensures();
                if out@.to_multiset().count(x) > 0 {
                    assert(out@.contains(x));
                }
            }
        }
    }
    while v.len() > 0
        invariant
            out@.len() + v@.len() == old(v)@.len(),
            out@.to_multiset().add(v@.to_multiset()) == old(v)@.to_multiset(),
            forall|i: int, j: int|
                0 <= i < j < out@.len() ==> rank_before(#[trigger] out@[i], #[trigger] out@[j]),
            forall|i: int, k: int|
                0 <= i < out@.len() && 0 <= k < v@.len() ==> rank_before(
                    #[trigger] out@[i],
                    #[trigger] v@[k],
                ),
        decreases v@.len(),
    {
        let mut best: usize = 0;
        let mut k: usize = 1;
        proof {
            lemma_rank_total(v@[0], v@[0]);
        }
        while k < v.len()
            invariant
                best < k <= v@.len(),
                v@.len() > 0,
                forall|t: int| 0 <= t < k ==> rank_before(v@[best as int], #[trigger] v@[t]),
            decreases v@.len() - k,
        {
            let better = rank_before_exec(&v[best], &v[k]);
            if !better {
                proof {
                    lemma_rank_total(v@[best as int], v@[k as int]);
                    assert forall|t: int| 0 <= t < k + 1 implies rank_before(
                        v@[k as int],
                        #[trigger] v@[t],
                    ) by {
                        if t < k {
                            lemma_rank_trans(v@[k as int], v@[best as int], v@[t]);
                        } else {
                            lemma_rank_total(v@[k as int], v@[k as int]);
                        }
                    }
                }
                best = k;
            }
            k += 1;
        }
        let ghost pre_v = v@;
        let ghost pre_out = out@;
        let e = v.remove(best);
        out.push(e);
        proof {
            vstd::seq_lib::to_multiset_remove(pre_v, best as int);
            vstd::seq_lib::to_multiset_build(pre_out, e);
            vstd::seq_lib::to_multiset_contains(pre_v, e);
            assert(pre_v[best as int] == e);
            assert(pre_v.contains(e));
            assert(out@.to_multiset().add(v@.to_multiset()) =~= pre_out.to_multiset().add(
                pre_v.to_multiset(),
            ));
            assert forall|i: int, k2: int|
                0 <= i < out@.len() && 0 <= k2 < v@.len() implies rank_before(
                #[trigger] out@[i],
                #[trigger] v@[k2],
            ) by {
                let fe = if k2 < best {
                    pre_v[k2]
                } else {
                    pre_v[k2 + 1]
                };
                assert(v@[k2] == fe);
                if i < pre_out.len() {
                    assert(out@[i] == pre_out[i]);
                } else {
                    assert(out@[i] == e);
                }
            }
            assert forall|i: int, j2: int| 0 <= i < j2 < out@.len() implies rank_before(
                #[trigger] out@[i],
                #[trigger] out@[j2],
            ) by {
                if j2 < pre_out.len() {
                    assert(out@[i] == pre_out[i] && out@[j2] == pre_out[j2]);
                } else {
                    assert(out@[j2] == e);
                    if i < pre_out.len() {
                        assert(rank_before(pre_out[i], e));
                    }
                }
            }
        }
    }
    let ghost fin = out@;
    proof {
        v@.to_multiset_ensures();
        fin.to_multiset_ensures();
        old(v)@.to_multiset_ensures();
        assert(fin.to_multiset() =~= old(v)@.to_multiset()) by {
            assert(fin.to_multiset().add(v@.to_multiset()) =~= old(v)@.to_multiset());
            assert(v@.to_multiset().len() == 0);
            assert forall|x: PatternMatch| v@.to_multiset().count(x) == 0 by {
                if v@.to_multiset().count(x) > 0 {
                    assert(v@.contains(x));
                }
            }
        }
        assert forall|k: int| 0 <= k < fin.len() implies old(v)@.contains(#[trigger] fin[k]) by {
            assert(fin.contains(fin[k]));
            assert(fin.to_multiset().count(fin[k]) > 0);
            assert(old(v)@.to_multiset().count(fin[k]) > 0);
        }
        assert forall|k: int| 0 <= k < old(v)@.len() implies fin.contains(#[trigger] old(v)@[k]) by {
            assert(old(v)@.contains(old(v)@[k]));
            assert(old(v)@.to_multiset().count(old(v)@[k]) > 0);
            assert(fin.to_multiset().count(old(v)@[k]) > 0);
        }
    }
    *v = out;
}

/// How many held patterns award points on the chunk.
pub open spec fn count_positive(
    patterns: Seq<Pattern>,
    chunk: Seq<u8>,
    path: Seq<char>,
    chunk_entropy: u16,
) -> int
    decreases patterns.len(),
{
    if patterns.len() == 0 {
        0
    } else {
        count_positive(patterns.drop_last(), chunk, path, chunk_entropy) + (if compute_spec(
            patterns.last(),
            chunk,
            path,
            chunk_entropy,
        ) > 0 {
            1int
        } else {
            0int
        })
    }
}

/// What a match result says of the registry: it names a held pattern, its
/// points are that pattern's score and are positive, and the percentage is
/// derived from them.
pub open spec fn match_accounted(
    h: PatternHandler,
    m: PatternMatch,
    chunk: Seq<u8>,
    path: Seq<char>,
    chunk_entropy: u16,
) -> bool {
    exists|j: int|
        0 <= j < h.patterns@.len() && m.uuid@ == (#[trigger] h.patterns@[j]).type_data.uuid@
            && m.points == compute_spec(h.patterns@[j], chunk, path, chunk_entropy) && m.points > 0
            && m.max_points == h.patterns@[j].max_points && m.percentage_tenths == percent_tenths(
            m.points as int,
            m.max_points as int,
        )
}

/// Score every pattern against a candidate's header chunk, keep the
/// patterns that award points, and rank the results.
pub fn match_patterns(
    handler: &PatternHandler,
    chunk: &[u8],
    path: &str,
    chunk_entropy: u16,
) -> (r: Vec<PatternMatch>)
    requires
        handler_wf(*handler),
    ensures
        forall|k: int|
            0 <= k < r@.len() ==> match_accounted(
                *handler,
                #[trigger] r@[k],
                chunk@,
                path@,
                chunk_entropy,
            ),
        forall|j: int|
            0 <= j < handler.patterns@.len() && compute_spec(
                #[trigger] handler.patterns@[j],
                chunk@,
                path@,
                chunk_entropy,
            ) > 0 ==> exists|k: int|
                0 <= k < r@.len() && (#[trigger] r@[k]).uuid@
                    == handler.patterns@[j].type_data.uuid@,
        forall|i: int, j: int| 0 <= i < j < r@.len() ==> rank_before(#[trigger] r@[i], #[trigger] r@[j]),
        r@.len() == count_positive(handler.patterns@, chunk@, path@, chunk_entropy),
{
    let mut found: Vec<PatternMatch> = Vec::new();
    let mut j: usize = 0;
    proof {
        assert(handler.patterns@.take(0) =~~= Seq::<Pattern>::empty());
    }
    while j < handler.patterns.len()
        invariant
            handler_wf(*handler),
            j <= handler.patterns@.len(),
            found@.len() == count_positive(
                handler.patterns@.take(j as int),
                chunk@,
                path@,
                chunk_entropy,
            ),
            forall|k: int|
                0 <= k < found@.len() ==> match_accounted(
                    *handler,
                    #[trigger] found@[k],
                    chunk@,
                    path@,
                    chunk_entropy,
                ),
            forall|m: int|
                0 <= m < j && compute_spec(
                    #[trigger] handler.patterns@[m],
                    chunk@,
                    path@,
                    chunk_entropy,
                ) > 0 ==> exists|k: int|
                    0 <= k < found@.len() && (#[trigger] found@[k]).uuid@
                        == handler.patterns@[m].type_data.uuid@,
        decreases handler.patterns@.len() - j,
    {
        let points = FilePointCalculator::compute(&handler.patterns[j], chunk, path, chunk_entropy);
        proof {
            assert(handler.patterns@.take(j + 1int).drop_last() =~~= handler.patterns@.take(
                j as int,
            ));
            assert(handler.patterns@.take(j + 1int).last() == handler.patterns@[j as int]);
        }
        if points > 0 {
            proof {
                crate::file_point_calculator::lemma_score_le_max_points(
                    handler.patterns@[j as int],
                    chunk@,
                    path@,
                    chunk_entropy,
                );
                crate::pattern::lemma_pattern_sums_nonneg(handler.patterns@[j as int].data);
            }
            let m = PatternMatch::new(
                handler.patterns[j].type_data.uuid.as_str(),
                points,
                handler.patterns[j].max_points,
            );
            let ghost pre = found@;
            found.push(m);
            proof {
                assert(match_accounted(
                    *handler,
                    found@[found@.len() - 1],
                    chunk@,
                    path@,
                    chunk_entropy,
                )) by {
                    assert(found@[found@.len() - 1].uuid@
                        == handler.patterns@[j as int].type_data.uuid@);
                }
                assert forall|k: int| 0 <= k < found@.len() implies match_accounted(
                    *handler,
                    #[trigger] found@[k],
                    chunk@,
                    path@,
                    chunk_entropy,
                ) by {
                    if k < pre.len() {
                        assert(found@[k] == pre[k]);
                    }
                }
                assert forall|m2: int|
                    0 <= m2 < j + 1 && compute_spec(
                        #[trigger] handler.patterns@[m2],
                        chunk@,
                        path@,
                        chunk_entropy,
                    ) > 0 implies exists|k: int|
                    0 <= k < found@.len() && (#[trigger] found@[k]).uuid@
                        == handler.patterns@[m2].type_data.uuid@ by {
                    if m2 == j {
                        assert(found@[found@.len() - 1].uuid@
                            == handler.patterns@[m2].type_data.uuid@);
                    } else {
                        let k = choose|k: int|
                            0 <= k < pre.len() && (#[trigger] pre[k]).uuid@
                                == handler.patterns@[m2].type_data.uuid@;
                        assert(found@[k].uuid@ == handler.patterns@[m2].type_data.uuid@);
                    }
                }
            }
        }
        j += 1;
    }
    let ghost collected = found@;
    proof {
        assert(handler.patterns@.take(handler.patterns@.len() as int) =~~= handler.patterns@);
    }
    sort_matches(&mut found);
    proof {
        assert forall|k: int| 0 <= k < found@.len() implies match_accounted(
            *handler,
            #[trigger] found@[k],
            chunk@,
            path@,
            chunk_entropy,
        ) by {
            assert(collected.contains(found@[k]));
            let w = choose|w: int| 0 <= w < collected.len() && collected[w] == found@[k];
        }
        assert forall|m: int|
            0 <= m < handler.patterns@.len() && compute_spec(
                #[trigger] handler.patterns@[m],
                chunk@,
                path@,
                chunk_entropy,
            ) > 0 implies exists|k: int|
            0 <= k < found@.len() && (#[trigger] found@[k]).uuid@
                == handler.patterns@[m].type_data.uuid@ by {
            let k = choose|k: int|
                0 <= k < collected.len() && (#[trigger] collected[k]).uuid@
                    == handler.patterns@[m].type_data.uuid@;
            assert(found@.contains(collected[k]));
            let w = choose|w: int| 0 <= w < found@.len() && found@[w] == collected[k];
            assert(found@[w].uuid@ == handler.patterns@[m].type_data.uuid@);
        }
    }
    found
}

} // verus!
