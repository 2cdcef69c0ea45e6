//! String extraction: tokenize a buffer into the set of uppercased
//! printable-subset substrings it contains.
//!
//! The buffer is walked byte by byte with a token buffer. A readable byte
//! (see [`crate::ascii`]) is uppercased and appended; when the token reaches
//! the maximum length it is flushed and a new empty token starts at the next
//! byte. A non-readable byte flushes the current token if it has reached the
//! minimum length, and discards it otherwise. A final non-empty token is
//! flushed after the last byte under the same minimum-length rule.

use vstd::prelude::*;

use crate::ascii::{byte_is_readable, byte_to_upper, is_readable_byte, upper_byte};

verus! {

/// The minimum length of a string that will be retained.
pub const MIN_STRING_LENGTH: usize = 5;

/// The maximum length of a string that will be retained.
pub const MAX_STRING_LENGTH: usize = 64;

/// A token as the extractor stores it: bounded length, every byte readable
/// and already uppercased.
pub open spec fn is_canonical_token(t: Seq<u8>) -> bool {
    &&& MIN_STRING_LENGTH <= t.len() <= MAX_STRING_LENGTH
    &&& forall|k: int|
        0 <= k < t.len() ==> is_readable_byte(#[trigger] t[k]) && upper_byte(t[k]) == t[k]
}

/// The tokens flushed while walking `s` with current token buffer `buf`,
/// in flush order and with duplicates retained.
pub open spec fn tokens_from(s: Seq<u8>, buf: Seq<u8>) -> Seq<Seq<u8>>
    decreases s.len(),
{
    if s.len() == 0 {
        if buf.len() >= MIN_STRING_LENGTH {
            seq![buf]
        } else {
            seq![]
        }
    } else if is_readable_byte(s[0]) {
        let buf2 = buf.push(upper_byte(s[0]));
        if buf2.len() == MAX_STRING_LENGTH {
            seq![buf2] + tokens_from(s.skip(1), seq![])
        } else {
            tokens_from(s.skip(1), buf2)
        }
    } else {
        if buf.len() >= MIN_STRING_LENGTH {
            seq![buf] + tokens_from(s.skip(1), seq![])
        } else {
            tokens_from(s.skip(1), seq![])
        }
    }
}

/// The tokens of a whole buffer.
pub open spec fn extracted_tokens(s: Seq<u8>) -> Seq<Seq<u8>> {
    tokens_from(s, seq![])
}

/// Every token flushed from a walk whose buffer is canonical so far is a
/// canonical token.
#[verifier::rlimit(50)]
proof fn lemma_tokens_from_wf(s: Seq<u8>, buf: Seq<u8>)
    requires
        buf.len() < MAX_STRING_LENGTH,
        forall|k: int|
            0 <= k < buf.len() ==> is_readable_byte(#[trigger] buf[k]) && upper_byte(buf[k])
                == buf[k],
    ensures
        forall|j: int|
            0 <= j < tokens_from(s, buf).len() ==> is_canonical_token(
                #[trigger] tokens_from(s, buf)[j],
            ),
    decreases s.len(),
{
    if s.len() == 0 {
        if buf.len() >= MIN_STRING_LENGTH {
            assert(tokens_from(s, buf) == seq![buf]);
            assert(tokens_from(s, buf)[0] == buf);
            assert(is_canonical_token(buf));
        }
    } else if is_readable_byte(s[0]) {
        let buf2 = buf.push(upper_byte(s[0]));
        crate::ascii::lemma_upper_byte_readable(s[0]);
        assert forall|k: int| 0 <= k < buf2.len() implies is_readable_byte(#[trigger] buf2[k])
            && upper_byte(buf2[k]) == buf2[k] by {
            if k < buf.len() {
                assert(buf2[k] == buf[k]);
            } else {
                assert(buf2[k] == upper_byte(s[0]));
            }
        }
        if buf2.len() == MAX_STRING_LENGTH {
            lemma_tokens_from_wf(s.skip(1), seq![]);
            let rest = tokens_from(s.skip(1), seq![]);
            let whole = seq![buf2] + rest;
            assert(is_canonical_token(buf2));
            assert forall|j: int| 0 <= j < whole.len() implies is_canonical_token(
                #[trigger] whole[j],
            ) by {
                if j > 0 {
                    assert(whole[j] == rest[j - 1]);
                }
            }
            assert forall|j: int|
                0 <= j < tokens_from(s, buf).len() implies is_canonical_token(
                #[trigger] tokens_from(s, buf)[j],
            ) by {
                assert(tokens_from(s, buf) == whole);
            }
        } else {
            lemma_tokens_from_wf(s.skip(1), buf2);
            assert(tokens_from(s, buf) == tokens_from(s.skip(1), buf2));
        }
    } else {
        lemma_tokens_from_wf(s.skip(1), seq![]);
        if buf.len() >= MIN_STRING_LENGTH {
            let rest = tokens_from(s.skip(1), seq![]);
            let whole = seq![buf] + rest;
            assert(is_canonical_token(buf));
            assert forall|j: int| 0 <= j < whole.len() implies is_canonical_token(
                #[trigger] whole[j],
            ) by {
                if j > 0 {
                    assert(whole[j] == rest[j - 1]);
                }
            }
            assert forall|j: int|
                0 <= j < tokens_from(s, buf).len() implies is_canonical_token(
                #[trigger] tokens_from(s, buf)[j],
            ) by {
                assert(tokens_from(s, buf) == whole);
            }
        } else {
            assert(tokens_from(s, buf) == tokens_from(s.skip(1), seq![]));
        }
    }
}

/// Every string extracted from any buffer contains only uppercased
/// printable-subset bytes and has length within the retained bounds.
pub proof fn lemma_extracted_tokens_wf(s: Seq<u8>)
    ensures
        forall|j: int|
            0 <= j < extracted_tokens(s).len() ==> is_canonical_token(
                #[trigger] extracted_tokens(s)[j],
            ),
{
    lemma_tokens_from_wf(s, seq![]);
}

/// Five times the number of flushed tokens never exceeds the number of bytes
/// walked plus the bytes already buffered.
pub proof fn lemma_tokens_from_count(s: Seq<u8>, buf: Seq<u8>)
    ensures
        5 * tokens_from(s, buf).len() <= s.len() + buf.len(),
    decreases s.len(),
{
    if s.len() == 0 {
    } else if is_readable_byte(s[0]) {
        let buf2 = buf.push(upper_byte(s[0]));
        if buf2.len() == MAX_STRING_LENGTH {
            lemma_tokens_from_count(s.skip(1), seq![]);
        } else {
            lemma_tokens_from_count(s.skip(1), buf2);
        }
    } else {
        lemma_tokens_from_count(s.skip(1), seq![]);
    }
}


/// The strings of an executable string list.
pub open spec fn model_set(v: Seq<Vec<u8>>) -> Seq<Seq<u8>> {
    Seq::new(v.len(), |j: int| v[j]@)
}

/// The distinct values of a token stream, each at its first occurrence.
pub open spec fn dedup_first(s: Seq<Seq<u8>>) -> Seq<Seq<u8>>
    decreases s.len(),
{
    if s.len() == 0 {
        seq![]
    } else if s.drop_last().contains(s.last()) {
        dedup_first(s.drop_last())
    } else {
        dedup_first(s.drop_last()).push(s.last())
    }
}

/// The distinct values of a stream: no duplicates, members of the stream,
/// the same value set, and never more entries.
pub proof fn lemma_dedup_first_props(s: Seq<Seq<u8>>)
    ensures
        dedup_first(s).len() <= s.len(),
        forall|i: int, j: int| 0 <= i < j < dedup_first(s).len() ==> dedup_first(s)[i] != dedup_first(s)[j],
        forall|t: Seq<u8>| #[trigger] dedup_first(s).contains(t) <==> s.contains(t),
        forall|k: int| 0 <= k < dedup_first(s).len() ==> s.contains(#[trigger] dedup_first(s)[k]),
    decreases s.len(),
{
    if s.len() == 0 {
    } else {
        let prefix = s.drop_last();
        lemma_dedup_first_props(prefix);
        let d = dedup_first(s);
        let dp = dedup_first(prefix);
        assert forall|t: Seq<u8>| #[trigger] s.contains(t) implies d.contains(t) by {
            let j = choose|j: int| 0 <= j < s.len() && s[j] == t;
            if j < s.len() - 1 {
                assert(prefix[j] == t);
                assert(prefix.contains(t));
                assert(dp.contains(t));
                let m = choose|m: int| 0 <= m < dp.len() && dp[m] == t;
                if prefix.contains(s.last()) {
                    assert(d[m] == t);
                } else {
                    assert(d[m] == t);
                }
            } else {
                assert(t == s.last());
                if prefix.contains(s.last()) {
                    assert(dp.contains(t));
                    let m = choose|m: int| 0 <= m < dp.len() && dp[m] == t;
                    assert(d[m] == t);
                } else {
                    assert(d[d.len() - 1] == t);
                }
            }
        }
        assert forall|t: Seq<u8>| #[trigger] d.contains(t) implies s.contains(t) by {
            let m = choose|m: int| 0 <= m < d.len() && d[m] == t;
            if prefix.contains(s.last()) {
                assert(dp.contains(t));
                let j = choose|j: int| 0 <= j < prefix.len() && prefix[j] == t;
                assert(s[j] == t);
            } else {
                if m < dp.len() {
                    assert(dp.contains(t));
                    let j = choose|j: int| 0 <= j < prefix.len() && prefix[j] == t;
                    assert(s[j] == t);
                } else {
                    assert(t == s.last());
                    assert(s[s.len() - 1] == t);
                }
            }
        }
        assert forall|i: int, j: int| 0 <= i < j < d.len() implies d[i] != d[j] by {
            if !prefix.contains(s.last()) && j == d.len() - 1 {
                assert(d[i] == dp[i]);
                assert(dp.contains(dp[i]));
                assert(prefix.contains(dp[i]));
            }
        }
        assert forall|k: int| 0 <= k < d.len() implies s.contains(#[trigger] d[k]) by {
            assert(d.contains(d[k]));
        }
    }
}

/// Whether two byte slices hold the same bytes.
pub fn bytes_equal(a: &[u8], b: &[u8]) -> (r: bool)
    ensures
        r == (a@ == b@),
{
    if a.len() != b.len() {
        proof {
            assert(a@.len() != b@.len());
        }
        return false;
    }
    let mut i: usize = 0;
    while i < a.len()
        invariant
            i <= a@.len(),
            a@.len() == b@.len(),
            forall|j: int| 0 <= j < i ==> a@[j] == b@[j],
        decreases a@.len() - i,
    {
        if a[i] != b[i] {
            return false;
        }
        i += 1;
    }
    proof {
        assert(a@ =~= b@);
    }
    true
}

/// Whether some element of `v` holds the bytes of `x`.
pub fn contains_bytes(v: &Vec<Vec<u8>>, x: &Vec<u8>) -> (r: bool)
    ensures
        r == exists|j: int| 0 <= j < v@.len() && v@[j]@ == x@,
{
    let mut i: usize = 0;
    while i < v.len()
        invariant
            i <= v@.len(),
            forall|j: int| 0 <= j < i ==> v@[j]@ != x@,
        decreases v@.len() - i,
    {
        if bytes_equal(v[i].as_slice(), x.as_slice()) {
            return true;
        }
        i += 1;
    }
    false
}

/// Extract the retained strings from a buffer: the distinct extracted
/// tokens, each one an uppercased printable-subset substring within the
/// length bounds.
pub fn extract_file_strings(bytes: &[u8]) -> (r: Vec<Vec<u8>>)
    ensures
        model_set(r@) == dedup_first(extracted_tokens(bytes@)),
        forall|i: int, j: int| 0 <= i < j < r@.len() ==> r@[i]@ != r@[j]@,
        forall|i: int| 0 <= i < r@.len() ==> extracted_tokens(bytes@).contains(#[trigger] r@[i]@),
        forall|t: Seq<u8>|
            #[trigger] extracted_tokens(bytes@).contains(t) ==> exists|i: int|
                0 <= i < r@.len() && r@[i]@ == t,
        forall|i: int| 0 <= i < r@.len() ==> is_canonical_token(#[trigger] r@[i]@),
        r@.len() * 5 <= bytes@.len(),
{
    let ghost s = bytes@;
    let mut result: Vec<Vec<u8>> = Vec::new();
    let mut token: Vec<u8> = Vec::new();
    let ghost mut emitted: Seq<Seq<u8>> = seq![];
    let mut i: usize = 0;
    proof {
        assert(s.skip(0) =~= s);
    }
    while i < bytes.len()
        invariant
            i <= s.len(),
            s == bytes@,
            token@.len() < MAX_STRING_LENGTH,
            extracted_tokens(s) == emitted + tokens_from(s.skip(i as int), token@),
            model_set(result@) == dedup_first(emitted),
            forall|p: int, q: int| 0 <= p < q < result@.len() ==> result@[p]@ != result@[q]@,
            forall|p: int| 0 <= p < result@.len() ==> emitted.contains(#[trigger] result@[p]@),
            forall|t: Seq<u8>|
                #[trigger] emitted.contains(t) ==> exists|p: int|
                    0 <= p < result@.len() && result@[p]@ == t,
        decreases s.len() - i,
    {
        let b = bytes[i];
        proof {
            assert(s.skip(i as int)[0] == s[i as int]);
            assert(s.skip(i as int).skip(1) =~= s.skip(i + 1int));
        }
        if byte_is_readable(b) {
            token.push(byte_to_upper(b));
            if token.len() == MAX_STRING_LENGTH {
                let ghost t = token@;
                let ghost pre_result = result@;
                let is_dup = contains_bytes(&result, &token);
                if !is_dup {
                    result.push(token);
                }
                token = Vec::new();
                proof {
                    let rest = tokens_from(s.skip(i + 1int), seq![]);
                    assert(emitted + (seq![t] + rest) =~= emitted.push(t) + rest);
                    lemma_emit_update(pre_result, result@, emitted, t, is_dup);
                    assert(emitted.push(t).drop_last() =~~= emitted);
                    assert(emitted.push(t).last() == t);
                    if is_dup {
                        let pp = choose|pp: int| 0 <= pp < pre_result.len() && pre_result[pp]@ == t;
                        assert(emitted.contains(t)) by {
                            assert(emitted.contains(pre_result[pp]@));
                        }
                        assert(dedup_first(emitted.push(t)) == dedup_first(emitted));
                    } else {
                        assert(!emitted.contains(t)) by {
                            if emitted.contains(t) {
                                let pp = choose|pp: int|
                                    0 <= pp < pre_result.len() && pre_result[pp]@ == t;
                                assert(false);
                            }
                        }
                        assert(dedup_first(emitted.push(t)) == dedup_first(emitted).push(t));
                        assert(model_set(result@) =~~= model_set(pre_result).push(t));
                    }
                    emitted = emitted.push(t);
                }
            }
        } else {
            if token.len() >= MIN_STRING_LENGTH {
                let ghost t = token@;
                let ghost pre_result = result@;
                let is_dup = contains_bytes(&result, &token);
                if !is_dup {
                    result.push(token);
                }
                proof {
                    let rest = tokens_from(s.skip(i + 1int), seq![]);
                    assert(emitted + (seq![t] + rest) =~= emitted.push(t) + rest);
                    lemma_emit_update(pre_result, result@, emitted, t, is_dup);
                    assert(emitted.push(t).drop_last() =~~= emitted);
                    assert(emitted.push(t).last() == t);
                    if is_dup {
                        let pp = choose|pp: int| 0 <= pp < pre_result.len() && pre_result[pp]@ == t;
                        assert(emitted.contains(t)) by {
                            assert(emitted.contains(pre_result[pp]@));
                        }
                        assert(dedup_first(emitted.push(t)) == dedup_first(emitted));
                    } else {
                        assert(!emitted.contains(t)) by {
                            if emitted.contains(t) {
                                let pp = choose|pp: int|
                                    0 <= pp < pre_result.len() && pre_result[pp]@ == t;
                                assert(false);
                            }
                        }
                        assert(dedup_first(emitted.push(t)) == dedup_first(emitted).push(t));
                        assert(model_set(result@) =~~= model_set(pre_result).push(t));
                    }
                    emitted = emitted.push(t);
                }
            }
            token = Vec::new();
        }
        i += 1;
    }
    proof {
        assert(s.skip(s.len() as int) =~= Seq::<u8>::empty());
    }
    if token.len() >= MIN_STRING_LENGTH {
        let ghost t = token@;
        let ghost pre_result = result@;
        let is_dup = contains_bytes(&result, &token);
        if !is_dup {
            result.push(token);
        }
        proof {
            lemma_emit_update(pre_result, result@, emitted, t, is_dup);
                    assert(emitted.push(t).drop_last() =~~= emitted);
                    assert(emitted.push(t).last() == t);
                    if is_dup {
                        let pp = choose|pp: int| 0 <= pp < pre_result.len() && pre_result[pp]@ == t;
                        assert(emitted.contains(t)) by {
                            assert(emitted.contains(pre_result[pp]@));
                        }
                        assert(dedup_first(emitted.push(t)) == dedup_first(emitted));
                    } else {
                        assert(!emitted.contains(t)) by {
                            if emitted.contains(t) {
                                let pp = choose|pp: int|
                                    0 <= pp < pre_result.len() && pre_result[pp]@ == t;
                                assert(false);
                            }
                        }
                        assert(dedup_first(emitted.push(t)) == dedup_first(emitted).push(t));
                        assert(model_set(result@) =~~= model_set(pre_result).push(t));
                    }
            emitted = emitted.push(t);
            assert(extracted_tokens(s) =~= emitted);
        }
    } else {
        proof {
            assert(extracted_tokens(s) =~= emitted);
        }
    }
    proof {
        lemma_tokens_from_wf(s, seq![]);
        lemma_result_wf(result@, emitted, s);
        lemma_tokens_from_count(s, seq![]);
        lemma_distinct_members_count(result@, emitted);
    }
    result
}

/// After flushing token `t`, the duplicate-free result still holds exactly
/// the distinct values flushed so far.
proof fn lemma_emit_update(
    pre_result: Seq<Vec<u8>>,
    post_result: Seq<Vec<u8>>,
    pre_emitted: Seq<Seq<u8>>,
    t: Seq<u8>,
    was_dup: bool,
)
    requires
        forall|p: int| 0 <= p < pre_result.len() ==> pre_emitted.contains(#[trigger] pre_result[p]@),
        forall|x: Seq<u8>|
            #[trigger] pre_emitted.contains(x) ==> exists|p: int|
                0 <= p < pre_result.len() && pre_result[p]@ == x,
        was_dup ==> post_result == pre_result && exists|p: int|
            0 <= p < pre_result.len() && pre_result[p]@ == t,
        !was_dup ==> post_result.len() == pre_result.len() + 1 && post_result[pre_result.len() as int]@
            == t && forall|p: int| 0 <= p < pre_result.len() ==> post_result[p] == pre_result[p],
    ensures
        forall|p: int|
            0 <= p < post_result.len() ==> pre_emitted.push(t).contains(#[trigger] post_result[p]@),
        forall|x: Seq<u8>|
            #[trigger] pre_emitted.push(t).contains(x) ==> exists|p: int|
                0 <= p < post_result.len() && post_result[p]@ == x,
{
    let emitted = pre_emitted.push(t);
    assert(emitted[pre_emitted.len() as int] == t);
    assert forall|p: int| 0 <= p < post_result.len() implies emitted.contains(
        #[trigger] post_result[p]@,
    ) by {
        if p < pre_result.len() {
            assert(pre_emitted.contains(pre_result[p]@));
            let j = choose|j: int| 0 <= j < pre_emitted.len() && pre_emitted[j] == pre_result[p]@;
            assert(emitted[j] == post_result[p]@);
        } else {
            assert(post_result[p]@ == t);
        }
    }
    assert forall|x: Seq<u8>| #[trigger] emitted.contains(x) implies exists|p: int|
        0 <= p < post_result.len() && post_result[p]@ == x by {
        let j = choose|j: int| 0 <= j < emitted.len() && emitted[j] == x;
        if j < pre_emitted.len() {
            assert(pre_emitted[j] == x);
            assert(pre_emitted.contains(x));
            let p = choose|p: int| 0 <= p < pre_result.len() && pre_result[p]@ == x;
            assert(post_result[p]@ == x);
        } else {
            assert(x == t);
            if was_dup {
                let p = choose|p: int| 0 <= p < pre_result.len() && pre_result[p]@ == t;
                assert(post_result[p]@ == t);
            } else {
                assert(post_result[pre_result.len() as int]@ == t);
            }
        }
    }
}

/// Each result entry is one of the extracted tokens, so it is canonical.
proof fn lemma_result_wf(r: Seq<Vec<u8>>, emitted: Seq<Seq<u8>>, s: Seq<u8>)
    requires
        emitted == extracted_tokens(s),
        forall|p: int| 0 <= p < r.len() ==> emitted.contains(#[trigger] r[p]@),
    ensures
        forall|p: int| 0 <= p < r.len() ==> extracted_tokens(s).contains(#[trigger] r[p]@),
        forall|p: int| 0 <= p < r.len() ==> is_canonical_token(#[trigger] r[p]@),
{
    lemma_extracted_tokens_wf(s);
    assert forall|p: int| 0 <= p < r.len() implies is_canonical_token(#[trigger] r[p]@) by {
        let j = choose|j: int| 0 <= j < emitted.len() && emitted[j] == r[p]@;
        assert(extracted_tokens(s)[j] == r[p]@);
    }
}

/// A duplicate-free sequence whose members all occur in `emitted` is no
/// longer than `emitted`.
proof fn lemma_distinct_members_count(r: Seq<Vec<u8>>, emitted: Seq<Seq<u8>>)
    requires
        forall|p: int, q: int| 0 <= p < q < r.len() ==> r[p]@ != r[q]@,
        forall|p: int| 0 <= p < r.len() ==> emitted.contains(#[trigger] r[p]@),
    ensures
        r.len() <= emitted.len(),
    decreases r.len(),
{
    if r.len() > 0 {
        let last = r.last()@;
        let j = choose|j: int| 0 <= j < emitted.len() && emitted[j] == last;
        let emitted2 = emitted.remove(j);
        assert forall|p: int| 0 <= p < r.drop_last().len() implies emitted2.contains(
            #[trigger] r.drop_last()[p]@,
        ) by {
            let k = choose|k: int| 0 <= k < emitted.len() && emitted[k] == r[p]@;
            assert(r[p]@ != last);
            if k < j {
                assert(emitted2[k] == r[p]@);
            } else {
                assert(k > j);
                assert(emitted2[k - 1] == r[p]@);
            }
        }
        lemma_distinct_members_count(r.drop_last(), emitted2);
    }
}

} // verus!
