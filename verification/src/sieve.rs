//! The substring sieve: reduce several sets of strings to the maximal
//! strings that have a substring appearance in every set.
//!
//! Strings are byte vectors here, as everywhere in this crate's scanning
//! pipeline. The sieve sorts its input sets by size ascending, takes the
//! largest as the working set, and refines every working string against each
//! other set in turn, replacing it by the largest common substring found
//! there (first-found on ties of equal length). Working strings with no
//! common substring of the minimum length are dropped. Finally any string
//! that is a proper substring of another surviving string is pruned.

use vstd::prelude::*;

use crate::strings::{bytes_equal, model_set, MIN_STRING_LENGTH};

verus! {

/// Whether `needle` occurs contiguously somewhere in `hay`.
pub open spec fn is_substring_of(needle: Seq<u8>, hay: Seq<u8>) -> bool {
    exists|i: int|
        0 <= i <= hay.len() - needle.len() && #[trigger] hay.subrange(i, i + needle.len())
            == needle
}

/// Substring containment is transitive.
pub proof fn lemma_substring_transitive(x: Seq<u8>, y: Seq<u8>, z: Seq<u8>)
    requires
        is_substring_of(x, y),
        is_substring_of(y, z),
    ensures
        is_substring_of(x, z),
{
    let i = choose|i: int| 0 <= i <= y.len() - x.len() && #[trigger] y.subrange(i, i + x.len()) == x;
    let j = choose|j: int| 0 <= j <= z.len() - y.len() && #[trigger] z.subrange(j, j + y.len()) == y;
    assert(z.subrange(j + i, j + i + x.len()) =~= y.subrange(i, i + x.len()));
}

/// Every sequence is a substring of itself.
pub proof fn lemma_substring_self(x: Seq<u8>)
    ensures
        is_substring_of(x, x),
{
    assert(x.subrange(0, 0 + x.len() as int) =~= x);
}

/// Find the position of the first occurrence of `needle` in `haystack`.
pub fn find_slice(haystack: &[u8], needle: &[u8]) -> (r: Option<usize>)
    ensures
        match r {
            Some(i) => i + needle@.len() <= haystack@.len() && haystack@.subrange(
                i as int,
                i + needle@.len(),
            ) == needle@ && forall|j: int|
                0 <= j < i ==> #[trigger] haystack@.subrange(j, j + needle@.len()) != needle@,
            None => !is_substring_of(needle@, haystack@),
        },
{
    let nl = needle.len();
    let hl = haystack.len();
    if nl == 0 {
        proof {
            assert(haystack@.subrange(0, 0 + needle@.len() as int) =~= needle@);
        }
        return Some(0);
    }
    if nl > hl {
        proof {
            assert(!is_substring_of(needle@, haystack@));
        }
        return None;
    }
    let end = hl - nl + 1;
    let mut i: usize = 0;
    while i < end
        invariant
            nl == needle@.len(),
            hl == haystack@.len(),
            nl <= hl,
            end == hl - nl + 1,
            i <= end,
            forall|j: int|
                0 <= j < i ==> #[trigger] haystack@.subrange(j, j + needle@.len()) != needle@,
        decreases end - i,
    {
        let window = vstd::slice::slice_subrange(haystack, i, i + nl);
        if bytes_equal(window, needle) {
            return Some(i);
        }
        i += 1;
    }
    proof {
        assert forall|j: int| 0 <= j <= haystack@.len() - needle@.len() implies #[trigger] haystack@.subrange(
            j,
            j + needle@.len(),
        ) != needle@ by {}
    }
    None
}

/// Whether the two buffers share at least one byte value.
pub fn has_common_elements(seq_1: &[u8], seq_2: &[u8]) -> (r: bool)
    ensures
        r == exists|i: int, j: int|
            0 <= i < seq_1@.len() && 0 <= j < seq_2@.len() && seq_1@[i] == seq_2@[j],
{
    let mut instances: Vec<bool> = Vec::new();
    let mut v: usize = 0;
    while v < 256
        invariant
            v <= 256,
            instances@.len() == v,
            forall|m: int| 0 <= m < v ==> !instances@[m],
        decreases 256 - v,
    {
        instances.push(false);
        v += 1;
    }
    let mut i: usize = 0;
    while i < seq_1.len()
        invariant
            i <= seq_1@.len(),
            instances@.len() == 256,
            forall|m: int|
                0 <= m < 256 ==> (instances@[m] <==> exists|p: int|
                    0 <= p < i && seq_1@[p] == m),
        decreases seq_1@.len() - i,
    {
        let b = seq_1[i];
        instances.set(b as usize, true);
        proof {
            assert(seq_1@[i as int] == b);
        }
        i += 1;
    }
    let mut j: usize = 0;
    while j < seq_2.len()
        invariant
            j <= seq_2@.len(),
            instances@.len() == 256,
            forall|m: int|
                0 <= m < 256 ==> (instances@[m] <==> exists|p: int|
                    0 <= p < seq_1@.len() && seq_1@[p] == m),
            forall|q: int|
                0 <= q < j ==> !exists|p: int|
                    0 <= p < seq_1@.len() && #[trigger] seq_1@[p] == #[trigger] seq_2@[q],
        decreases seq_2@.len() - j,
    {
        if instances[seq_2[j] as usize] {
            return true;
        }
        j += 1;
    }
    false
}

/// The index of the leftmost window of `a` of length `k`, at or after `i`,
/// that occurs in `b`.
pub open spec fn first_window_index(a: Seq<u8>, b: Seq<u8>, k: int, i: int) -> Option<int>
    decreases a.len() - k - i + 1,
{
    if i < 0 || i > a.len() - k {
        None
    } else if is_substring_of(a.subrange(i, i + k), b) {
        Some(i)
    } else {
        first_window_index(a, b, k, i + 1)
    }
}

/// The largest common substring search over window sizes `k` and below,
/// down to the minimum string length.
pub open spec fn lcs_search(a: Seq<u8>, b: Seq<u8>, k: int) -> Option<Seq<u8>>
    decreases k,
{
    if k < MIN_STRING_LENGTH {
        None
    } else {
        match first_window_index(a, b, k, 0) {
            Some(i) => Some(a.subrange(i, i + k)),
            None => lcs_search(a, b, k - 1),
        }
    }
}

/// The largest common substring of two strings: the strings themselves when
/// equal, otherwise the leftmost window of the first string of the greatest
/// feasible length that occurs in the second, if any has at least the
/// minimum string length.
pub open spec fn lcs_spec(a: Seq<u8>, b: Seq<u8>) -> Option<Seq<u8>> {
    if a == b {
        Some(a)
    } else {
        lcs_search(a, b, a.len() as int)
    }
}

/// A found window is a substring of both inputs.
pub proof fn lemma_lcs_is_common(a: Seq<u8>, b: Seq<u8>)
    ensures
        match lcs_spec(a, b) {
            Some(c) => is_substring_of(c, a) && is_substring_of(c, b),
            None => true,
        },
{
    if a == b {
        lemma_substring_self(a);
    } else {
        lemma_lcs_search_is_common(a, b, a.len() as int);
    }
}

proof fn lemma_lcs_search_is_common(a: Seq<u8>, b: Seq<u8>, k: int)
    requires
        k <= a.len(),
    ensures
        match lcs_search(a, b, k) {
            Some(c) => is_substring_of(c, a) && is_substring_of(c, b),
            None => true,
        },
    decreases k,
{
    if k < MIN_STRING_LENGTH {
    } else {
        match first_window_index(a, b, k, 0) {
            Some(i) => {
                lemma_first_window_index_in_range(a, b, k, 0);
                assert(a.subrange(i, i + k) == a.subrange(i, i + a.subrange(i, i + k).len()));
            },
            None => {
                lemma_lcs_search_is_common(a, b, k - 1);
            },
        }
    }
}

proof fn lemma_first_window_index_in_range(a: Seq<u8>, b: Seq<u8>, k: int, i: int)
    requires
        i >= 0,
    ensures
        match first_window_index(a, b, k, i) {
            Some(w) => i <= w <= a.len() - k && is_substring_of(a.subrange(w, w + k), b)
                && forall|j: int|
                    i <= j < w ==> !is_substring_of(#[trigger] a.subrange(j, j + k), b),
            None => forall|j: int|
                i <= j <= a.len() - k ==> !is_substring_of(#[trigger] a.subrange(j, j + k), b),
        },
    decreases a.len() - k - i + 1,
{
    if i < 0 || i > a.len() - k {
    } else if is_substring_of(a.subrange(i, i + k), b) {
    } else {
        lemma_first_window_index_in_range(a, b, k, i + 1);
    }
}

/// No shared byte value means no non-empty common window.
proof fn lemma_no_common_no_window(a: Seq<u8>, b: Seq<u8>, k: int)
    requires
        !(exists|i: int, j: int| 0 <= i < a.len() && 0 <= j < b.len() && a[i] == b[j]),
        k <= a.len(),
    ensures
        lcs_search(a, b, k) == None::<Seq<u8>>,
    decreases k,
{
    if k < MIN_STRING_LENGTH {
    } else {
        lemma_first_window_index_in_range(a, b, k, 0);
        assert forall|j: int| 0 <= j <= a.len() - k implies !is_substring_of(
            #[trigger] a.subrange(j, j + k),
            b,
        ) by {
            let w = a.subrange(j, j + k);
            if is_substring_of(w, b) {
                let p = choose|p: int|
                    0 <= p <= b.len() - w.len() && #[trigger] b.subrange(p, p + w.len()) == w;
                assert(b.subrange(p, p + w.len())[0] == b[p]);
                assert(w[0] == a[j]);
                assert(false);
            }
        }
        lemma_no_common_no_window(a, b, k - 1);
    }
}

/// The largest common substring of two byte strings.
pub fn largest_common_substring(str_1: &[u8], str_2: &[u8]) -> (r: Option<Vec<u8>>)
    ensures
        match r {
            Some(c) => lcs_spec(str_1@, str_2@) == Some(c@),
            None => lcs_spec(str_1@, str_2@) == None::<Seq<u8>>,
        },
{
    let ghost a = str_1@;
    let ghost b = str_2@;
    if bytes_equal(str_1, str_2) {
        let mut c: Vec<u8> = Vec::new();
        c.extend_from_slice(str_1);
        proof {
            assert(Seq::<u8>::empty() + str_1@ =~= str_1@);
        }
        return Some(c);
    }
    if !has_common_elements(str_1, str_2) {
        proof {
            if a.len() as int <= a.len() {
                lemma_no_common_no_window(a, b, a.len() as int);
            }
        }
        return None;
    }
    let mut k: usize = str_1.len();
    while k >= MIN_STRING_LENGTH
        invariant
            a == str_1@,
            b == str_2@,
            a != b,
            k <= a.len(),
            lcs_search(a, b, a.len() as int) == lcs_search(a, b, k as int),
        decreases k,
    {
        let mut i: usize = 0;
        while i <= str_1.len() - k
            invariant
                a == str_1@,
                b == str_2@,
                a != b,
                MIN_STRING_LENGTH <= k <= a.len(),
                lcs_search(a, b, a.len() as int) == lcs_search(a, b, k as int),
                i + k <= a.len() + 1,
                forall|j: int|
                    0 <= j < i ==> !is_substring_of(#[trigger] a.subrange(j, j + k as int), b),
            decreases a.len() - i,
        {
            let window = vstd::slice::slice_subrange(str_1, i, i + k);
            match find_slice(str_2, window) {
                Some(p) => {
                    let mut c: Vec<u8> = Vec::new();
                    c.extend_from_slice(window);
                    proof {
                        assert(Seq::<u8>::empty() + window@ =~= window@);
                        assert(b.subrange(p as int, p + window@.len()) == window@);
                        assert(is_substring_of(window@, b));
                        lemma_first_window_from(a, b, k as int, 0, i as int);
                        assert(lcs_search(a, b, k as int) == Some(a.subrange(i as int, i + k)));
                    }
                    return Some(c);
                },
                None => {
                    proof {
                        assert(!is_substring_of(a.subrange(i as int, i + k as int), b));
                    }
                },
            }
            i += 1;
        }
        proof {
            lemma_first_window_index_in_range(a, b, k as int, 0);
            if first_window_index(a, b, k as int, 0) is Some {
                let w = first_window_index(a, b, k as int, 0)->0;
                assert(!is_substring_of(a.subrange(w, w + k as int), b));
                assert(false);
            }
        }
        k -= 1;
    }
    proof {
        if k as int >= MIN_STRING_LENGTH {
            assert(false);
        }
        assert(lcs_search(a, b, k as int) == None::<Seq<u8>>);
    }
    None
}

proof fn lemma_first_window_from(a: Seq<u8>, b: Seq<u8>, k: int, lo: int, i: int)
    requires
        0 <= lo <= i <= a.len() - k,
        is_substring_of(a.subrange(i, i + k), b),
        forall|j: int| lo <= j < i ==> !is_substring_of(#[trigger] a.subrange(j, j + k), b),
    ensures
        first_window_index(a, b, k, lo) == Some(i),
    decreases i - lo,
{
    if lo == i {
    } else {
        lemma_first_window_from(a, b, k, lo + 1, i);
    }
}

/// The string sets of an executable list of string lists.
pub open spec fn model_sets(v: Seq<Vec<Vec<u8>>>) -> Seq<Seq<Seq<u8>>> {
    Seq::new(v.len(), |i: int| model_set(v[i]@))
}

/// The value of an optional string.
pub open spec fn option_model(o: Option<Vec<u8>>) -> Option<Seq<u8>> {
    match o {
        Some(v) => Some(v@),
        None => None,
    }
}

/// Insert a set into a list sorted by size ascending, after any set of
/// equal size.
pub open spec fn insert_by_len(x: Seq<Seq<u8>>, s: Seq<Seq<Seq<u8>>>) -> Seq<Seq<Seq<u8>>>
    decreases s.len(),
{
    if s.len() == 0 {
        seq![x]
    } else if x.len() < s[0].len() {
        seq![x] + s
    } else {
        seq![s[0]] + insert_by_len(x, s.drop_first())
    }
}

/// Sort a list of sets by size ascending, stably.
pub open spec fn sort_by_len(s: Seq<Seq<Seq<u8>>>) -> Seq<Seq<Seq<u8>>>
    decreases s.len(),
{
    if s.len() == 0 {
        seq![]
    } else {
        insert_by_len(s.last(), sort_by_len(s.drop_last()))
    }
}

/// The best common substring between `w` and the elements of `set` from
/// index `j` on, starting from candidate `cur`; a strictly longer find
/// replaces the candidate.
pub open spec fn best_common_from(
    set: Seq<Seq<u8>>,
    w: Seq<u8>,
    j: int,
    cur: Option<Seq<u8>>,
) -> Option<Seq<u8>>
    decreases set.len() - j,
{
    if j < 0 || j >= set.len() {
        cur
    } else {
        let cur2 = match lcs_spec(set[j], w) {
            Some(c) => match cur {
                Some(b) => if c.len() > b.len() {
                    Some(c)
                } else {
                    Some(b)
                },
                None => Some(c),
            },
            None => cur,
        };
        best_common_from(set, w, j + 1, cur2)
    }
}

/// One refinement round: replace each working string by its best common
/// substring with the comparison set, dropping those with none.
pub open spec fn refine_ws(set: Seq<Seq<u8>>, ws: Seq<Seq<u8>>) -> Seq<Seq<u8>>
    decreases ws.len(),
{
    if ws.len() == 0 {
        seq![]
    } else {
        (match best_common_from(set, ws[0], 0, None) {
            Some(c) => seq![c],
            None => seq![],
        }) + refine_ws(set, ws.drop_first())
    }
}

/// All refinement rounds from set index `i` on; the last sorted set is the
/// working set and is not refined against.
pub open spec fn sieve_rounds(sets: Seq<Seq<Seq<u8>>>, i: int, ws: Seq<Seq<u8>>) -> Seq<Seq<u8>>
    decreases sets.len() - i,
{
    if i < 0 || i >= sets.len() - 1 {
        ws
    } else {
        sieve_rounds(sets, i + 1, refine_ws(sets[i], ws))
    }
}

/// Whether `w` survives the final pruning: no distinct surviving candidate
/// contains it.
pub open spec fn prune_keep(ws: Seq<Seq<u8>>, w: Seq<u8>) -> bool {
    !exists|j: int| 0 <= j < ws.len() && ws[j] != w && is_substring_of(w, #[trigger] ws[j])
}

/// The pruned working set: only strings that are not proper substrings of
/// another.
pub open spec fn pruned(ws: Seq<Seq<u8>>) -> Seq<Seq<u8>> {
    ws.filter(|w: Seq<u8>| prune_keep(ws, w))
}

/// The sieve: sort the sets by size, refine the largest against all others,
/// prune substrings.
pub open spec fn sieve_spec(sets: Seq<Seq<Seq<u8>>>) -> Seq<Seq<u8>> {
    if sets.len() == 0 {
        seq![]
    } else {
        let sorted = sort_by_len(sets);
        pruned(sieve_rounds(sorted, 0, sorted.last()))
    }
}

/// A copy of a string list.
pub fn clone_string_list(v: &Vec<Vec<u8>>) -> (r: Vec<Vec<u8>>)
    ensures
        model_set(r@) == model_set(v@),
        r@.len() == v@.len(),
{
    let mut out: Vec<Vec<u8>> = Vec::new();
    let mut k: usize = 0;
    while k < v.len()
        invariant
            k <= v@.len(),
            out@.len() == k,
            forall|m: int| 0 <= m < k ==> out@[m]@ == v@[m]@,
        decreases v@.len() - k,
    {
        out.push(crate::sequences::clone_bytes(&v[k]));
        k += 1;
    }
    proof {
        assert(model_set(out@) =~~= model_set(v@));
    }
    out
}

/// `insert_by_len` places the new set exactly at the first position whose
/// set is strictly larger.
proof fn lemma_insert_by_len_split(x: Seq<Seq<u8>>, s: Seq<Seq<Seq<u8>>>, p: int)
    requires
        0 <= p <= s.len(),
        forall|q: int| 0 <= q < p ==> (#[trigger] s[q]).len() <= x.len(),
        p < s.len() ==> s[p].len() > x.len(),
    ensures
        insert_by_len(x, s) == s.subrange(0, p) + seq![x] + s.subrange(p, s.len() as int),
    decreases p,
{
    if s.len() == 0 {
        assert(insert_by_len(x, s) =~~= s.subrange(0, p) + seq![x] + s.subrange(p, s.len() as int));
    } else if p == 0 {
        assert(insert_by_len(x, s) =~~= s.subrange(0, p) + seq![x] + s.subrange(p, s.len() as int));
    } else {
        assert(s[0].len() <= x.len());
        assert forall|q: int| 0 <= q < p - 1 implies (#[trigger] s.drop_first()[q]).len()
            <= x.len() by {
            assert(s.drop_first()[q] == s[q + 1]);
        }
        assert(p - 1 < s.drop_first().len() ==> s.drop_first()[p - 1].len() > x.len());
        lemma_insert_by_len_split(x, s.drop_first(), p - 1);
        assert(insert_by_len(x, s) =~~= s.subrange(0, p) + seq![x] + s.subrange(p, s.len() as int));
    }
}

/// Sort the sets by size ascending, stably; the result is exactly the
/// stable insertion sort of the input.
pub fn sort_sets_by_len(sets: &mut Vec<Vec<Vec<u8>>>)
    ensures
        model_sets(final(sets)@) == sort_by_len(model_sets(old(sets)@)),
        final(sets)@.len() == old(sets)@.len(),
{
    let ghost orig = model_sets(sets@);
    let mut out: Vec<Vec<Vec<u8>>> = Vec::new();
    let mut idx: usize = 0;
    proof {
        assert(orig.take(0) =~~= Seq::<Seq<Seq<u8>>>::empty());
        assert(model_sets(out@) =~~= sort_by_len(orig.take(0)));
    }
    while idx < sets.len()
        invariant
            *sets == *old(sets),
            orig == model_sets(sets@),
            idx <= sets@.len(),
            out@.len() == idx,
            model_sets(out@) == sort_by_len(orig.take(idx as int)),
        decreases sets@.len() - idx,
    {
        let x = clone_string_list(&sets[idx]);
        let xlen = x.len();
        let mut p: usize = 0;
        while p < out.len() && out[p].len() <= xlen
            invariant
                p <= out@.len(),
                xlen == x@.len(),
                forall|q: int| 0 <= q < p ==> (#[trigger] out@[q]@).len() <= xlen,
            decreases out@.len() - p,
        {
            p += 1;
        }
        let ghost pre_exec = out@;
        let ghost pre = model_sets(out@);
        let ghost mx = model_set(x@);
        out.insert(p, x);
        proof {
            assert forall|q: int| 0 <= q < p implies (#[trigger] pre[q]).len() <= mx.len() by {
                assert(pre[q] == model_set(pre_exec[q]@));
                assert(pre[q].len() == pre_exec[q]@.len());
            }
            if (p as int) < pre.len() {
                assert(pre[p as int].len() == pre_exec[p as int]@.len());
                assert(pre[p as int].len() > mx.len());
            }
            lemma_insert_by_len_split(mx, pre, p as int);
            assert(model_sets(out@) =~~= pre.subrange(0, p as int) + seq![mx] + pre.subrange(
                p as int,
                pre.len() as int,
            ));
            assert(orig.take(idx + 1int).drop_last() =~~= orig.take(idx as int));
            assert(orig.take(idx + 1int).last() == orig[idx as int]);
            assert(mx =~~= orig[idx as int]);
            assert(model_sets(out@) =~~= sort_by_len(orig.take(idx + 1int)));
        }
        idx += 1;
    }
    proof {
        assert(orig.take(orig.len() as int) =~~= orig);
    }
    *sets = out;
}

/// One round appends result by result.
proof fn lemma_refine_ws_snoc(set: Seq<Seq<u8>>, ws: Seq<Seq<u8>>, w: Seq<u8>)
    ensures
        refine_ws(set, ws.push(w)) == refine_ws(set, ws) + (match best_common_from(
            set,
            w,
            0,
            None,
        ) {
            Some(c) => seq![c],
            None => seq![],
        }),
    decreases ws.len(),
{
    let contribution = match best_common_from(set, w, 0, None) {
        Some(c) => seq![c],
        None => seq![],
    };
    if ws.len() == 0 {
        assert(ws.push(w)[0] == w);
        assert(ws.push(w).drop_first() =~~= Seq::<Seq<u8>>::empty());
        assert(refine_ws(set, Seq::<Seq<u8>>::empty()) == Seq::<Seq<u8>>::empty());
        assert(refine_ws(set, ws.push(w)) =~~= refine_ws(set, ws) + contribution);
    } else {
        assert(ws.push(w)[0] == ws[0]);
        assert(ws.push(w).drop_first() =~~= ws.drop_first().push(w));
        lemma_refine_ws_snoc(set, ws.drop_first(), w);
        assert(refine_ws(set, ws.push(w)) =~~= refine_ws(set, ws) + contribution);
    }
}

/// Compute the best common substring between `w` and all elements of `set`.
fn best_common(set: &Vec<Vec<u8>>, w: &Vec<u8>) -> (r: Option<Vec<u8>>)
    ensures
        option_model(r) == best_common_from(model_set(set@), w@, 0, None),
{
    let ghost mset = model_set(set@);
    let mut best: Option<Vec<u8>> = None;
    let mut j: usize = 0;
    while j < set.len()
        invariant
            mset == model_set(set@),
            j <= set@.len(),
            best_common_from(mset, w@, 0, None) == best_common_from(
                mset,
                w@,
                j as int,
                option_model(best),
            ),
        decreases set@.len() - j,
    {
        let ghost pre = option_model(best);
        let c = largest_common_substring(set[j].as_slice(), w.as_slice());
        match c {
            Some(cv) => {
                match &best {
                    Some(bv) => {
                        if cv.len() > bv.len() {
                            best = Some(cv);
                        }
                    },
                    None => {
                        best = Some(cv);
                    },
                }
            },
            None => {},
        }
        proof {
            assert(mset[j as int] == set@[j as int]@);
            assert(best_common_from(mset, w@, j as int, pre) == best_common_from(
                mset,
                w@,
                j + 1int,
                option_model(best),
            ));
        }
        j += 1;
    }
    best
}

/// One refinement round over the whole working set.
fn refine_round(set: &Vec<Vec<u8>>, ws: &Vec<Vec<u8>>) -> (r: Vec<Vec<u8>>)
    ensures
        model_set(r@) == refine_ws(model_set(set@), model_set(ws@)),
{
    let ghost mset = model_set(set@);
    let ghost mws = model_set(ws@);
    let mut out: Vec<Vec<u8>> = Vec::new();
    let mut k: usize = 0;
    proof {
        assert(mws.take(0) =~~= Seq::<Seq<u8>>::empty());
        assert(model_set(out@) =~~= refine_ws(mset, mws.take(0)));
    }
    while k < ws.len()
        invariant
            mset == model_set(set@),
            mws == model_set(ws@),
            k <= ws@.len(),
            model_set(out@) == refine_ws(mset, mws.take(k as int)),
        decreases ws@.len() - k,
    {
        let ghost pre = model_set(out@);
        let b = best_common(set, &ws[k]);
        let ghost bm = option_model(b);
        if let Some(c) = b {
            out.push(c);
        }
        proof {
            assert(mws[k as int] == ws@[k as int]@);
            assert(mws.take(k + 1int) =~~= mws.take(k as int).push(mws[k as int]));
            lemma_refine_ws_snoc(mset, mws.take(k as int), mws[k as int]);
            if bm is Some {
                assert(model_set(out@) =~~= pre.push(bm->0));
            }
            assert(model_set(out@) =~~= refine_ws(mset, mws.take(k + 1int)));
        }
        k += 1;
    }
    proof {
        assert(mws.take(mws.len() as int) =~~= mws);
    }
    out
}

/// Whether `w` is kept by the final pruning of `ws`.
fn prune_keeps(ws: &Vec<Vec<u8>>, w: &Vec<u8>) -> (r: bool)
    ensures
        r == prune_keep(model_set(ws@), w@),
{
    let ghost mws = model_set(ws@);
    let mut j: usize = 0;
    while j < ws.len()
        invariant
            mws == model_set(ws@),
            j <= ws@.len(),
            forall|q: int| 0 <= q < j ==> !(mws[q] != w@ && is_substring_of(w@, #[trigger] mws[q])),
        decreases ws@.len() - j,
    {
        if !bytes_equal(ws[j].as_slice(), w.as_slice()) {
            if let Some(_) = find_slice(ws[j].as_slice(), w.as_slice()) {
                proof {
                    assert(mws[j as int] == ws@[j as int]@);
                }
                return false;
            }
            proof {
                assert(mws[j as int] == ws@[j as int]@);
                assert(!is_substring_of(w@, mws[j as int]));
            }
        } else {
            proof {
                assert(mws[j as int] == ws@[j as int]@);
            }
        }
        j += 1;
    }
    true
}

/// Sieve a list of string sets, keeping only the maximal strings common to
/// all of the sets; the input list is left sorted by set size ascending.
pub fn common_string_sieve(sets: &mut Vec<Vec<Vec<u8>>>) -> (r: Vec<Vec<u8>>)
    ensures
        model_set(r@) == sieve_spec(model_sets(old(sets)@)),
{
    let ghost orig = model_sets(sets@);
    if sets.len() == 0 {
        return Vec::new();
    }
    sort_sets_by_len(sets);
    let ghost sorted = model_sets(sets@);
    let last_index = sets.len() - 1;
    let mut ws = clone_string_list(&sets[last_index]);
    proof {
        assert(model_set(ws@) =~~= sorted.last());
        assert(sieve_rounds(sorted, 0, sorted.last()) == sieve_rounds(sorted, 0, model_set(ws@)));
    }
    let mut i: usize = 0;
    while i < last_index
        invariant
            sorted == model_sets(sets@),
            sets@.len() >= 1,
            last_index == sets@.len() - 1,
            i <= last_index,
            sieve_rounds(sorted, 0, sorted.last()) == sieve_rounds(sorted, i as int, model_set(ws@)),
        decreases last_index - i,
    {
        let ghost pre = model_set(ws@);
        let next = refine_round(&sets[i], &ws);
        ws = next;
        proof {
            assert(sorted[i as int] == model_set(sets@[i as int]@));
            assert(sieve_rounds(sorted, i as int, pre) == sieve_rounds(
                sorted,
                i + 1int,
                model_set(ws@),
            ));
        }
        i += 1;
    }
    proof {
        assert(sieve_rounds(sorted, last_index as int, model_set(ws@)) == model_set(ws@));
    }
    let ghost mws = model_set(ws@);
    let mut out: Vec<Vec<u8>> = Vec::new();
    let mut k: usize = 0;
    proof {
        reveal_with_fuel(Seq::filter, 2);
        assert(mws.take(0) =~~= Seq::<Seq<u8>>::empty());
        assert(model_set(out@) =~~= mws.take(0).filter(|w: Seq<u8>| prune_keep(mws, w)));
    }
    while k < ws.len()
        invariant
            mws == model_set(ws@),
            k <= ws@.len(),
            model_set(out@) == mws.take(k as int).filter(|w: Seq<u8>| prune_keep(mws, w)),
        decreases ws@.len() - k,
    {
        let ghost pre = model_set(out@);
        let keep = prune_keeps(&ws, &ws[k]);
        if keep {
            out.push(crate::sequences::clone_bytes(&ws[k]));
        }
        proof {
            reveal_with_fuel(Seq::filter, 2);
            let pred = |w: Seq<u8>| prune_keep(mws, w);
            let prefix = mws.take(k as int);
            let snoc = prefix.push(mws[k as int]);
            assert(mws[k as int] == ws@[k as int]@);
            assert(mws.take(k + 1int) =~~= snoc);
            assert(snoc.drop_last() =~~= prefix);
            assert(snoc.last() == mws[k as int]);
            assert(snoc.filter(pred) == if pred(snoc.last()) {
                snoc.drop_last().filter(pred).push(snoc.last())
            } else {
                snoc.drop_last().filter(pred)
            });
            if keep {
                assert(model_set(out@) =~~= pre.push(mws[k as int]));
            }
            assert(model_set(out@) =~~= mws.take(k + 1int).filter(pred));
        }
        k += 1;
    }
    proof {
        assert(mws.take(mws.len() as int) =~~= mws);
        assert(model_set(out@) =~~= sieve_spec(orig));
    }
    out
}

/// The members of the pruned set: elements of the working set that no
/// distinct working element contains.
proof fn lemma_pruned_props(ws: Seq<Seq<u8>>)
    ensures
        forall|k: int|
            0 <= k < pruned(ws).len() ==> ws.contains(#[trigger] pruned(ws)[k]) && prune_keep(
                ws,
                pruned(ws)[k],
            ),
{
    lemma_filter_members(ws, ws);
    assert(pruned(ws) == pruned_of(ws, ws));
}

pub open spec fn pruned_of(s: Seq<Seq<u8>>, ws: Seq<Seq<u8>>) -> Seq<Seq<u8>> {
    s.filter(|w: Seq<u8>| prune_keep(ws, w))
}

proof fn lemma_filter_members(s: Seq<Seq<u8>>, ws: Seq<Seq<u8>>)
    ensures
        forall|k: int|
            0 <= k < pruned_of(s, ws).len() ==> s.contains(#[trigger] pruned_of(s, ws)[k])
                && prune_keep(ws, pruned_of(s, ws)[k]),
    decreases s.len(),
{
    reveal_with_fuel(Seq::filter, 2);
    let pred = |w: Seq<u8>| prune_keep(ws, w);
    if s.len() == 0 {
    } else {
        let prefix = s.drop_last();
        lemma_filter_members(prefix, ws);
        let f = s.filter(pred);
        let fp = prefix.filter(pred);
        assert(pruned_of(s, ws) == f);
        assert(pruned_of(prefix, ws) == fp);
        assert forall|k: int| 0 <= k < f.len() implies s.contains(#[trigger] f[k]) && prune_keep(
            ws,
            f[k],
        ) by {
            if pred(s.last()) && k == f.len() - 1 {
                assert(f[k] == s.last());
                assert(s[s.len() - 1] == s.last());
            } else {
                assert(f[k] == fp[k]);
                assert(prefix.contains(fp[k]));
                let w = choose|w: int| 0 <= w < prefix.len() && prefix[w] == fp[k];
                assert(s[w] == fp[k]);
            }
        }
    }
}

/// No sieve output is a proper substring of another sieve output.
pub proof fn lemma_sieve_no_proper_substrings(sets: Seq<Seq<Seq<u8>>>)
    ensures
        forall|p: int, q: int|
            0 <= p < sieve_spec(sets).len() && 0 <= q < sieve_spec(sets).len()
                && #[trigger] sieve_spec(sets)[p] != #[trigger] sieve_spec(sets)[q]
                ==> !is_substring_of(sieve_spec(sets)[p], sieve_spec(sets)[q]),
{
    if sets.len() == 0 {
    } else {
        let sorted = sort_by_len(sets);
        let ws = sieve_rounds(sorted, 0, sorted.last());
        lemma_pruned_props(ws);
        let out = pruned(ws);
        assert forall|p: int, q: int|
            0 <= p < out.len() && 0 <= q < out.len() && #[trigger] out[p] != #[trigger] out[q]
                implies !is_substring_of(out[p], out[q]) by {
            if is_substring_of(out[p], out[q]) {
                assert(ws.contains(out[q]));
                let j = choose|j: int| 0 <= j < ws.len() && ws[j] == out[q];
                assert(ws[j] != out[p] && is_substring_of(out[p], ws[j]));
                assert(!prune_keep(ws, out[p]));
                assert(false);
            }
        }
    }
}

/// Whether `w` occurs as a substring of some element of `set`.
pub open spec fn in_some_element(set: Seq<Seq<u8>>, w: Seq<u8>) -> bool {
    exists|e: int| 0 <= e < set.len() && is_substring_of(w, #[trigger] set[e])
}

/// Whether `w` occurs as a substring of some element of every set of
/// `sorted` below index `i`, and of some element of the last set.
pub open spec fn covered_below(sorted: Seq<Seq<Seq<u8>>>, i: int, w: Seq<u8>) -> bool {
    &&& forall|t: int| 0 <= t < i ==> in_some_element(#[trigger] sorted[t], w)
    &&& sorted.len() > 0 ==> in_some_element(sorted.last(), w)
}

/// A best-common result comes from the candidate or from one of the set's
/// elements.
proof fn lemma_best_common_source(set: Seq<Seq<u8>>, w: Seq<u8>, j: int, cur: Option<Seq<u8>>)
    ensures
        match best_common_from(set, w, j, cur) {
            Some(c) => cur == Some(c) || exists|j2: int|
                j <= j2 < set.len() && lcs_spec(#[trigger] set[j2], w) == Some(c),
            None => true,
        },
    decreases set.len() - j,
{
    if j < 0 || j >= set.len() {
    } else {
        let cur2 = match lcs_spec(set[j], w) {
            Some(c) => match cur {
                Some(b) => if c.len() > b.len() {
                    Some(c)
                } else {
                    Some(b)
                },
                None => Some(c),
            },
            None => cur,
        };
        lemma_best_common_source(set, w, j + 1, cur2);
    }
}

/// Every string a refinement round emits is a substring of one of its
/// working strings and of one of the comparison set's elements.
proof fn lemma_refine_ws_elements(set: Seq<Seq<u8>>, ws: Seq<Seq<u8>>)
    ensures
        forall|k: int|
            0 <= k < refine_ws(set, ws).len() ==> exists|wi: int, e: int|
                0 <= wi < ws.len() && 0 <= e < set.len() && is_substring_of(
                    #[trigger] refine_ws(set, ws)[k],
                    ws[wi],
                ) && is_substring_of(refine_ws(set, ws)[k], set[e]),
    decreases ws.len(),
{
    if ws.len() == 0 {
    } else {
        lemma_refine_ws_elements(set, ws.drop_first());
        let rest = refine_ws(set, ws.drop_first());
        let whole = refine_ws(set, ws);
        let head = match best_common_from(set, ws[0], 0, None) {
            Some(c) => seq![c],
            None => seq![],
        };
        assert(whole == head + rest);
        assert forall|k: int| 0 <= k < whole.len() implies exists|wi: int, e: int|
            0 <= wi < ws.len() && 0 <= e < set.len() && is_substring_of(
                #[trigger] whole[k],
                ws[wi],
            ) && is_substring_of(whole[k], set[e]) by {
            if k < head.len() {
                let c = head[0];
                assert(whole[k] == c);
                lemma_best_common_source(set, ws[0], 0, None);
                let j2 = choose|j2: int|
                    0 <= j2 < set.len() && lcs_spec(#[trigger] set[j2], ws[0]) == Some(c);
                lemma_lcs_is_common(set[j2], ws[0]);
                assert(is_substring_of(c, ws[0]) && is_substring_of(c, set[j2]));
            } else {
                let kr = k - head.len();
                assert(whole[k] == rest[kr]);
                let (wi, e) = choose|wi: int, e: int|
                    0 <= wi < ws.drop_first().len() && 0 <= e < set.len() && is_substring_of(
                        #[trigger] rest[kr],
                        ws.drop_first()[wi],
                    ) && is_substring_of(rest[kr], set[e]);
                assert(ws.drop_first()[wi] == ws[wi + 1]);
            }
        }
    }
}

/// Through all rounds, every surviving working string keeps a substring
/// appearance in some element of every processed set and of the last set.
proof fn lemma_rounds_covered(sorted: Seq<Seq<Seq<u8>>>, i: int, ws: Seq<Seq<u8>>)
    requires
        0 <= i,
        forall|k: int| 0 <= k < ws.len() ==> covered_below(sorted, i, #[trigger] ws[k]),
    ensures
        forall|k: int|
            0 <= k < sieve_rounds(sorted, i, ws).len() ==> covered_below(
                sorted,
                sorted.len() - 1,
                #[trigger] sieve_rounds(sorted, i, ws)[k],
            ),
    decreases sorted.len() - i,
{
    if i >= sorted.len() - 1 {
        assert(sieve_rounds(sorted, i, ws) == ws);
        assert forall|k: int| 0 <= k < ws.len() implies covered_below(
            sorted,
            sorted.len() - 1,
            #[trigger] ws[k],
        ) by {
            assert(covered_below(sorted, i, ws[k]));
            assert forall|t: int| 0 <= t < sorted.len() - 1 implies in_some_element(
                #[trigger] sorted[t],
                ws[k],
            ) by {
                assert(t < i);
            }
        }
    } else {
        let ws2 = refine_ws(sorted[i], ws);
        assert(sieve_rounds(sorted, i, ws) == sieve_rounds(sorted, i + 1, ws2));
        lemma_refine_ws_elements(sorted[i], ws);
        assert forall|k: int| 0 <= k < ws2.len() implies covered_below(
            sorted,
            i + 1,
            #[trigger] ws2[k],
        ) by {
            let (wi, e) = choose|wi: int, e: int|
                0 <= wi < ws.len() && 0 <= e < sorted[i].len() && is_substring_of(
                    #[trigger] ws2[k],
                    ws[wi],
                ) && is_substring_of(ws2[k], sorted[i][e]);
            assert(covered_below(sorted, i, ws[wi]));
            assert forall|t: int| 0 <= t < i + 1 implies in_some_element(
                #[trigger] sorted[t],
                ws2[k],
            ) by {
                if t < i {
                    assert(in_some_element(sorted[t], ws[wi]));
                    let e2 = choose|e2: int|
                        0 <= e2 < sorted[t].len() && is_substring_of(
                            ws[wi],
                            #[trigger] sorted[t][e2],
                        );
                    lemma_substring_transitive(ws2[k], ws[wi], sorted[t][e2]);
                } else {
                    assert(is_substring_of(ws2[k], sorted[t][e]));
                }
            }
            if sorted.len() > 0 {
                assert(in_some_element(sorted.last(), ws[wi]));
                let e3 = choose|e3: int|
                    0 <= e3 < sorted.last().len() && is_substring_of(
                        ws[wi],
                        #[trigger] sorted.last()[e3],
                    );
                lemma_substring_transitive(ws2[k], ws[wi], sorted.last()[e3]);
            }
        }
        lemma_rounds_covered(sorted, i + 1, ws2);
    }
}

/// Sorting keeps exactly the same sets.
proof fn lemma_insert_by_len_contains(x: Seq<Seq<u8>>, s: Seq<Seq<Seq<u8>>>, t: Seq<Seq<u8>>)
    ensures
        insert_by_len(x, s).contains(t) <==> (t == x || s.contains(t)),
    decreases s.len(),
{
    let r = insert_by_len(x, s);
    if s.len() == 0 {
        assert(r == seq![x]);
        assert(r[0] == x);
        if t == x {
            assert(r.contains(t));
        }
    } else if x.len() < s[0].len() {
        assert(r == seq![x] + s);
        if t == x {
            assert(r[0] == x);
        }
        if s.contains(t) {
            let j = choose|j: int| 0 <= j < s.len() && s[j] == t;
            assert(r[j + 1] == t);
        }
        if r.contains(t) {
            let j = choose|j: int| 0 <= j < r.len() && r[j] == t;
            if j == 0 {
            } else {
                assert(s[j - 1] == t);
            }
        }
    } else {
        lemma_insert_by_len_contains(x, s.drop_first(), t);
        assert(r == seq![s[0]] + insert_by_len(x, s.drop_first()));
        let rr = insert_by_len(x, s.drop_first());
        if t == x || s.contains(t) {
            if t == s[0] {
                assert(r[0] == t);
            } else if t == x || s.drop_first().contains(t) {
                assert(rr.contains(t));
                let j = choose|j: int| 0 <= j < rr.len() && rr[j] == t;
                assert(r[j + 1] == t);
            } else {
                let j = choose|j: int| 0 <= j < s.len() && s[j] == t;
                assert(j > 0);
                assert(s.drop_first()[j - 1] == t);
            }
        }
        if r.contains(t) {
            let j = choose|j: int| 0 <= j < r.len() && r[j] == t;
            if j == 0 {
                assert(s[0] == t);
            } else {
                assert(rr[j - 1] == t);
                assert(rr.contains(t));
                if t != x {
                    let j2 = choose|j2: int| 0 <= j2 < s.drop_first().len() && s.drop_first()[j2] == t;
                    assert(s[j2 + 1] == t);
                }
            }
        }
    }
}

proof fn lemma_sort_by_len_contains(s: Seq<Seq<Seq<u8>>>, t: Seq<Seq<u8>>)
    ensures
        sort_by_len(s).contains(t) <==> s.contains(t),
    decreases s.len(),
{
    if s.len() == 0 {
    } else {
        lemma_sort_by_len_contains(s.drop_last(), t);
        lemma_insert_by_len_contains(s.last(), sort_by_len(s.drop_last()), t);
        if s.contains(t) {
            let j = choose|j: int| 0 <= j < s.len() && s[j] == t;
            if j == s.len() - 1 {
                assert(t == s.last());
            } else {
                assert(s.drop_last()[j] == t);
            }
        }
        if t == s.last() {
            assert(s[s.len() - 1] == t);
        }
        if s.drop_last().contains(t) {
            let j = choose|j: int| 0 <= j < s.drop_last().len() && s.drop_last()[j] == t;
            assert(s[j] == t);
        }
    }
}

/// Every sieve output occurs as a substring of some element of every input
/// set.
pub proof fn lemma_sieve_common_to_all(sets: Seq<Seq<Seq<u8>>>)
    ensures
        forall|k: int, si: int|
            #![trigger sieve_spec(sets)[k], sets[si]]
            0 <= k < sieve_spec(sets).len() && 0 <= si < sets.len() ==> in_some_element(
                sets[si],
                sieve_spec(sets)[k],
            ),
{
    if sets.len() == 0 {
    } else {
        let sorted = sort_by_len(sets);
        let ws0 = sorted.last();
        assert forall|k: int| 0 <= k < ws0.len() implies covered_below(
            sorted,
            0,
            #[trigger] ws0[k],
        ) by {
            lemma_substring_self(ws0[k]);
            assert(in_some_element(sorted.last(), ws0[k]));
        }
        lemma_rounds_covered(sorted, 0, ws0);
        let ws = sieve_rounds(sorted, 0, ws0);
        lemma_pruned_props(ws);
        let out = pruned(ws);
        assert forall|k: int, si: int|
            #![trigger out[k], sets[si]]
            0 <= k < out.len() && 0 <= si < sets.len() implies in_some_element(
            sets[si],
            out[k],
        ) by {
            assert(ws.contains(out[k]));
            let wk = choose|wk: int| 0 <= wk < ws.len() && ws[wk] == out[k];
            assert(covered_below(sorted, sorted.len() - 1, ws[wk]));
            assert(sets[si] == sets[si]);
            assert(sets.contains(sets[si]));
            lemma_sort_by_len_contains(sets, sets[si]);
            assert(sorted.contains(sets[si]));
            let sj = choose|sj: int| 0 <= sj < sorted.len() && sorted[sj] == sets[si];
            if sj < sorted.len() - 1 {
                assert(in_some_element(sorted[sj], ws[wk]));
            } else {
                assert(sorted[sj] == sorted.last());
                assert(in_some_element(sorted.last(), ws[wk]));
            }
        }
    }
}

/// A substring is never longer than what contains it.
pub proof fn lemma_substring_len(x: Seq<u8>, y: Seq<u8>)
    requires
        is_substring_of(x, y),
    ensures
        x.len() <= y.len(),
{
}

/// Whether every string of a set is a canonical token.
pub open spec fn all_canonical(set: Seq<Seq<u8>>) -> bool {
    forall|k: int| 0 <= k < set.len() ==> crate::strings::is_canonical_token(#[trigger] set[k])
}

/// The largest common substring of a canonical token and anything is
/// canonical.
proof fn lemma_lcs_canonical(a: Seq<u8>, b: Seq<u8>)
    requires
        crate::strings::is_canonical_token(a),
    ensures
        match lcs_spec(a, b) {
            Some(c) => crate::strings::is_canonical_token(c),
            None => true,
        },
{
    if a == b {
    } else {
        lemma_lcs_search_canonical(a, b, a.len() as int);
    }
}

proof fn lemma_lcs_search_canonical(a: Seq<u8>, b: Seq<u8>, k: int)
    requires
        crate::strings::is_canonical_token(a),
        k <= a.len(),
    ensures
        match lcs_search(a, b, k) {
            Some(c) => crate::strings::is_canonical_token(c),
            None => true,
        },
    decreases k,
{
    if k < MIN_STRING_LENGTH {
    } else {
        match first_window_index(a, b, k, 0) {
            Some(i) => {
                lemma_first_window_index_in_range(a, b, k, 0);
                let c = a.subrange(i, i + k);
                assert forall|m: int| 0 <= m < c.len() implies crate::ascii::is_readable_byte(
                    #[trigger] c[m],
                ) && crate::ascii::upper_byte(c[m]) == c[m] by {
                    assert(c[m] == a[i + m]);
                }
            },
            None => {
                lemma_lcs_search_canonical(a, b, k - 1);
            },
        }
    }
}

/// A best-common result against a canonical set is canonical.
proof fn lemma_best_common_canonical(set: Seq<Seq<u8>>, w: Seq<u8>)
    requires
        all_canonical(set),
    ensures
        match best_common_from(set, w, 0, None) {
            Some(c) => crate::strings::is_canonical_token(c),
            None => true,
        },
{
    lemma_best_common_source(set, w, 0, None);
    match best_common_from(set, w, 0, None) {
        Some(c) => {
            let j2 = choose|j2: int|
                0 <= j2 < set.len() && lcs_spec(#[trigger] set[j2], w) == Some(c);
            lemma_lcs_canonical(set[j2], w);
        },
        None => {},
    }
}

/// Refinement against a canonical set yields canonical strings, and never
/// more of them than it was given.
proof fn lemma_refine_ws_shape(set: Seq<Seq<u8>>, ws: Seq<Seq<u8>>)
    requires
        all_canonical(set),
    ensures
        all_canonical(refine_ws(set, ws)),
        refine_ws(set, ws).len() <= ws.len(),
    decreases ws.len(),
{
    if ws.len() == 0 {
    } else {
        lemma_refine_ws_shape(set, ws.drop_first());
        let rest = refine_ws(set, ws.drop_first());
        let whole = refine_ws(set, ws);
        let head = match best_common_from(set, ws[0], 0, None) {
            Some(c) => seq![c],
            None => seq![],
        };
        assert(whole == head + rest);
        lemma_best_common_canonical(set, ws[0]);
        assert forall|k: int| 0 <= k < whole.len() implies crate::strings::is_canonical_token(
            #[trigger] whole[k],
        ) by {
            if k < head.len() {
                assert(whole[k] == head[0]);
            } else {
                assert(whole[k] == rest[k - head.len()]);
            }
        }
    }
}

/// Through all rounds the working set stays canonical and never grows.
proof fn lemma_rounds_shape(sorted: Seq<Seq<Seq<u8>>>, i: int, ws: Seq<Seq<u8>>)
    requires
        0 <= i,
        forall|t: int| 0 <= t < sorted.len() ==> all_canonical(#[trigger] sorted[t]),
        all_canonical(ws),
    ensures
        all_canonical(sieve_rounds(sorted, i, ws)),
        sieve_rounds(sorted, i, ws).len() <= ws.len(),
    decreases sorted.len() - i,
{
    if i >= sorted.len() - 1 {
        assert(sieve_rounds(sorted, i, ws) == ws);
    } else {
        let ws2 = refine_ws(sorted[i], ws);
        lemma_refine_ws_shape(sorted[i], ws);
        assert(sieve_rounds(sorted, i, ws) == sieve_rounds(sorted, i + 1, ws2));
        lemma_rounds_shape(sorted, i + 1, ws2);
    }
}

/// The sieve's output strings are canonical tokens when every input set
/// holds only canonical tokens, and the output is no larger than one of the
/// input sets.
pub proof fn lemma_sieve_shape(sets: Seq<Seq<Seq<u8>>>)
    requires
        forall|si: int| 0 <= si < sets.len() ==> all_canonical(#[trigger] sets[si]),
    ensures
        all_canonical(sieve_spec(sets)),
        sets.len() > 0 ==> exists|si: int|
            0 <= si < sets.len() && sieve_spec(sets).len() <= (#[trigger] sets[si]).len(),
{
    if sets.len() == 0 {
    } else {
        let sorted = sort_by_len(sets);
        assert forall|t: int| 0 <= t < sorted.len() implies all_canonical(#[trigger] sorted[t]) by {
            assert(sorted.contains(sorted[t]));
            lemma_sort_by_len_contains(sets, sorted[t]);
            let si = choose|si: int| 0 <= si < sets.len() && sets[si] == sorted[t];
            assert(all_canonical(sets[si]));
        }
        let ws0 = sorted.last();
        assert(sorted.len() > 0);
        assert(all_canonical(ws0)) by {
            assert(sorted[sorted.len() - 1] == ws0);
        }
        lemma_rounds_shape(sorted, 0, ws0);
        let ws = sieve_rounds(sorted, 0, ws0);
        lemma_pruned_props(ws);
        let out = pruned(ws);
        ws.lemma_filter_len(|w: Seq<u8>| prune_keep(ws, w));
        assert(out.len() <= ws.len());
        assert forall|k: int| 0 <= k < out.len() implies crate::strings::is_canonical_token(
            #[trigger] out[k],
        ) by {
            assert(ws.contains(out[k]));
            let j = choose|j: int| 0 <= j < ws.len() && ws[j] == out[k];
        }
        assert(sorted[sorted.len() - 1] == ws0);
        assert(sorted.contains(ws0));
        lemma_sort_by_len_contains(sets, ws0);
        let si = choose|si: int| 0 <= si < sets.len() && sets[si] == ws0;
        assert(sieve_spec(sets).len() <= sets[si].len());
    }
}

} // verus!