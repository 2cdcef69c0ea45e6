//! Small helpers: file-extension extraction, UUID generation, file-name
//! sanitizing, sequence search, and the trusted wrappers around the
//! filesystem probes and character case mapping the helpers rely on.

use vstd::prelude::*;

verus! {

/// What `str::to_uppercase` returns for a given character sequence; the
/// result depends on the characters alone.
pub uninterp spec fn upper_of(s: Seq<char>) -> Seq<char>;

/// Relies on `str::to_uppercase`: the Unicode uppercase of the string,
/// a function of its characters alone; empty input gives empty output.
#[verifier::external_body]
pub fn to_uppercase_string(s: &str) -> (r: String)
    ensures
        r@ == upper_of(s@),
        s@.len() == 0 ==> r@.len() == 0,
{
    s.to_uppercase()
}

/// Relies on `String::push`: appends one character.
#[verifier::external_body]
pub fn push_char(s: &mut String, c: char)
    ensures
        final(s)@ == old(s)@.push(c),
{
    s.push(c);
}

/// Relies on `rand::random`: draws one value from the thread-local
/// generator. Nothing is promised of the result.
#[verifier::external_body]
fn random_u128() -> u128 {
    rand::random::<u128>()
}

/// Relies on `std::path::Path::is_dir`: queries the filesystem. Nothing is
/// promised of the result.
#[verifier::external_body]
fn probe_is_dir(path: &str) -> bool {
    std::path::Path::new(path).is_dir()
}

/// Relies on `std::path::Path::is_file`: queries the filesystem. Nothing is
/// promised of the result.
#[verifier::external_body]
fn probe_is_file(path: &str) -> bool {
    std::path::Path::new(path).is_file()
}

/// Check that a directory exists. The answer depends on the filesystem, so
/// nothing is promised of it.
pub fn directory_exists(path: &str) -> bool {
    probe_is_dir(path)
}

/// Check that a file exists. The answer depends on the filesystem, so
/// nothing is promised of it.
pub fn file_exists(path: &str) -> bool {
    probe_is_file(path)
}

/// The last index at which `c` occurs in `s`, or -1 when it does not occur.
pub open spec fn last_index_of(s: Seq<char>, c: char) -> int
    decreases s.len(),
{
    if s.len() == 0 {
        -1
    } else if s.last() == c {
        s.len() - 1
    } else {
        last_index_of(s.drop_last(), c)
    }
}

/// The extension part of a path: the characters after the last `.`,
/// provided that dot comes after the last `/` and is not the first
/// character of the file name; empty otherwise.
pub open spec fn ext_of(s: Seq<char>) -> Seq<char> {
    let d = last_index_of(s, '.');
    let sl = last_index_of(s, '/');
    if d > sl + 1 {
        s.subrange(d + 1, s.len() as int)
    } else {
        Seq::empty()
    }
}

proof fn lemma_last_index_of_bounds(s: Seq<char>, c: char)
    ensures
        -1 <= last_index_of(s, c) < s.len(),
        last_index_of(s, c) >= 0 ==> s[last_index_of(s, c)] == c,
        forall|j: int| last_index_of(s, c) < j < s.len() ==> s[j] != c,
    decreases s.len(),
{
    if s.len() > 0 && s.last() != c {
        lemma_last_index_of_bounds(s.drop_last(), c);
        assert forall|j: int| last_index_of(s, c) < j < s.len() implies s[j] != c by {
            if j < s.len() - 1 {
                assert(s.drop_last()[j] == s[j]);
            }
        }
        if last_index_of(s.drop_last(), c) >= 0 {
            assert(s.drop_last()[last_index_of(s.drop_last(), c)] == c);
        }
    }
}

/// Get the uppercased extension of a file path: what follows the last dot
/// of the file name, empty when the name has none.
pub fn get_file_extension(path: &str) -> (r: String)
    ensures
        r@ == upper_of(ext_of(path@)),
{
    let n = path.unicode_len();
    let ghost s = path@;
    let mut dot: i128 = -1;
    let mut slash: i128 = -1;
    let mut i: usize = 0;
    proof {
        assert(s.take(0) =~= Seq::<char>::empty());
    }
    while i < n
        invariant
            n == s.len(),
            s == path@,
            i <= n,
            n <= usize::MAX,
            dot == last_index_of(s.take(i as int), '.'),
            slash == last_index_of(s.take(i as int), '/'),
            -1 <= dot < i,
            -1 <= slash < i,
        decreases n - i,
    {
        let c = path.get_char(i);
        proof {
            assert(s.take(i + 1int).drop_last() =~= s.take(i as int));
            assert(s.take(i + 1int).last() == s[i as int]);
        }
        if c == '.' {
            dot = i as i128;
        } else if c == '/' {
            slash = i as i128;
        }
        i += 1;
    }
    proof {
        assert(s.take(n as int) =~= s);
    }
    if dot > slash + 1 {
        let d = dot as usize;
        let tail = path.substring_char(d + 1, n);
        proof {
            assert(tail@ == s.subrange(dot + 1, s.len() as int));
        }
        to_uppercase_string(tail)
    } else {
        proof {
            assert(ext_of(s) =~= Seq::<char>::empty());
        }
        let empty = String::new();
        to_uppercase_string(empty.as_str())
    }
}

/// The character a hex digit value maps to.
pub open spec fn hex_char(d: int) -> char {
    if d == 0 {
        '0'
    } else if d == 1 {
        '1'
    } else if d == 2 {
        '2'
    } else if d == 3 {
        '3'
    } else if d == 4 {
        '4'
    } else if d == 5 {
        '5'
    } else if d == 6 {
        '6'
    } else if d == 7 {
        '7'
    } else if d == 8 {
        '8'
    } else if d == 9 {
        '9'
    } else if d == 10 {
        'a'
    } else if d == 11 {
        'b'
    } else if d == 12 {
        'c'
    } else if d == 13 {
        'd'
    } else if d == 14 {
        'e'
    } else {
        'f'
    }
}

/// Whether `c` is a lowercase hexadecimal digit character.
pub open spec fn is_hex_char(c: char) -> bool {
    exists|d: int| 0 <= d < 16 && c == hex_char(d)
}

pub fn hex_char_of_pub(d: u8) -> (r: char)
    requires
        d < 16,
    ensures
        r == hex_char(d as int),
        is_hex_char(r),
{
    let c = if d == 0 {
        '0'
    } else if d == 1 {
        '1'
    } else if d == 2 {
        '2'
    } else if d == 3 {
        '3'
    } else if d == 4 {
        '4'
    } else if d == 5 {
        '5'
    } else if d == 6 {
        '6'
    } else if d == 7 {
        '7'
    } else if d == 8 {
        '8'
    } else if d == 9 {
        '9'
    } else if d == 10 {
        'a'
    } else if d == 11 {
        'b'
    } else if d == 12 {
        'c'
    } else if d == 13 {
        'd'
    } else if d == 14 {
        'e'
    } else {
        'f'
    };
    proof {
        assert(is_hex_char(c)) by {
            assert(c == hex_char(d as int));
        }
    }
    c
}

/// What a UUID's shape asks of one position: a dash at the four dash
/// positions, a lowercase hex digit everywhere else.
pub open spec fn is_uuid_shape_at(s: Seq<char>, i: int) -> bool {
    if i == 8 || i == 13 || i == 18 || i == 23 {
        s[i] == '-'
    } else {
        is_hex_char(s[i])
    }
}

/// Whether a character sequence has the shape of a UUID: 32 lowercase hex
/// digits split 8-4-4-4-12 by dashes.
pub open spec fn is_uuid_shape(s: Seq<char>) -> bool {
    &&& s.len() == 36
    &&& forall|i: int| 0 <= i < 36 ==> #[trigger] is_uuid_shape_at(s, i)
}

/// The value of nibble `k` of `n`, most significant first.
pub open spec fn uuid_nibble(n: u128, k: int) -> int {
    ((n >> (((31 - k) * 4) as u128)) & 0xf) as int
}

/// How many dashes stand before position `i` of a formatted UUID.
pub open spec fn uuid_dashes_before(i: int) -> int {
    (if i > 8 {
        1int
    } else {
        0int
    }) + (if i > 13 {
        1int
    } else {
        0int
    }) + (if i > 18 {
        1int
    } else {
        0int
    }) + (if i > 23 {
        1int
    } else {
        0int
    })
}

/// Character `i` of the formatted UUID of `n`: a dash at the four dash
/// positions, elsewhere the lowercase hex digit of the corresponding nibble.
pub open spec fn uuid_char_at(n: u128, i: int) -> char {
    if i == 8 || i == 13 || i == 18 || i == 23 {
        '-'
    } else {
        hex_char(uuid_nibble(n, i - uuid_dashes_before(i)))
    }
}

/// Generate a random UUID: the 32 hex digits of a random value, split
/// 8-4-4-4-12 with dashes. Nothing more than the shape can be promised of a
/// random draw; the digits themselves are pinned by [`format_uuid`].
pub fn make_uuid() -> (r: String)
    ensures
        is_uuid_shape(r@),
{
    let n = random_u128();
    format_uuid(n)
}

/// Format a value as a UUID string: character by character the dashes and
/// the zero-padded lowercase hex digits of the value's nibbles.
pub fn format_uuid(n: u128) -> (r: String)
    ensures
        r@.len() == 36,
        forall|i: int| 0 <= i < 36 ==> r@[i] == uuid_char_at(n, i),
        is_uuid_shape(r@),
{
    let mut out = String::new();
    let mut k: usize = 0;
    while k < 32
        invariant
            k <= 32,
            out@.len() == k + (if k > 8 {
                1int
            } else {
                0int
            }) + (if k > 12 {
                1int
            } else {
                0int
            }) + (if k > 16 {
                1int
            } else {
                0int
            }) + (if k > 20 {
                1int
            } else {
                0int
            }),
            forall|i: int| 0 <= i < out@.len() ==> out@[i] == uuid_char_at(n, i),
        decreases 32 - k,
    {
        if k == 8 || k == 12 || k == 16 || k == 20 {
            push_char(&mut out, '-');
        }
        let shift: u128 = (((31 - k) as u128)) * 4;
        let digit: u8 = ((n >> shift) & 0xf) as u8;
        proof {
            assert((n >> shift) & 0xf < 16) by (bit_vector);
            assert(digit == uuid_nibble(n, k as int));
            assert(uuid_dashes_before(out@.len() as int) == (out@.len() - k) as int);
        }
        push_char(&mut out, hex_char_of_pub(digit));
        k += 1;
    }
    proof {
        assert forall|i: int| 0 <= i < 36 implies is_uuid_shape_at(out@, i) by {
            assert(out@[i] == uuid_char_at(n, i));
            if !(i == 8 || i == 13 || i == 18 || i == 23) {
                assert(is_hex_char(out@[i])) by {
                    assert(out@[i] == hex_char(uuid_nibble(n, i - uuid_dashes_before(i))));
                    assert(0 <= uuid_nibble(n, i - uuid_dashes_before(i)) < 16) by {
                        lemma_uuid_nibble_range(n, i - uuid_dashes_before(i));
                    }
                }
            }
        }
    }
    out
}

proof fn lemma_uuid_nibble_range(n: u128, k: int)
    ensures
        0 <= uuid_nibble(n, k) < 16,
{
    let s = ((31 - k) * 4) as u128;
    assert((n >> s) & 0xf < 16) by (bit_vector);
}


/// Two hex digit values with the same digit character are equal.
proof fn lemma_hex_char_injective(d1: int, d2: int)
    requires
        0 <= d1 < 16,
        0 <= d2 < 16,
        hex_char(d1) == hex_char(d2),
    ensures
        d1 == d2,
{
}

/// Formatted UUIDs of distinct values differ: the characters determine
/// every nibble of the value.
pub proof fn lemma_uuid_chars_injective(n1: u128, n2: u128)
    requires
        forall|i: int| 0 <= i < 36 ==> uuid_char_at(n1, i) == uuid_char_at(n2, i),
    ensures
        n1 == n2,
{
    assert(uuid_nibble(n1, 0) == uuid_nibble(n2, 0)) by {
        lemma_uuid_nibble_range(n1, 0);
        lemma_uuid_nibble_range(n2, 0);
        assert(uuid_char_at(n1, 0) == uuid_char_at(n2, 0));
        lemma_hex_char_injective(uuid_nibble(n1, 0), uuid_nibble(n2, 0));
    }
    assert(uuid_nibble(n1, 1) == uuid_nibble(n2, 1)) by {
        lemma_uuid_nibble_range(n1, 1);
        lemma_uuid_nibble_range(n2, 1);
        assert(uuid_char_at(n1, 1) == uuid_char_at(n2, 1));
        lemma_hex_char_injective(uuid_nibble(n1, 1), uuid_nibble(n2, 1));
    }
    assert(uuid_nibble(n1, 2) == uuid_nibble(n2, 2)) by {
        lemma_uuid_nibble_range(n1, 2);
        lemma_uuid_nibble_range(n2, 2);
        assert(uuid_char_at(n1, 2) == uuid_char_at(n2, 2));
        lemma_hex_char_injective(uuid_nibble(n1, 2), uuid_nibble(n2, 2));
    }
    assert(uuid_nibble(n1, 3) == uuid_nibble(n2, 3)) by {
        lemma_uuid_nibble_range(n1, 3);
        lemma_uuid_nibble_range(n2, 3);
        assert(uuid_char_at(n1, 3) == uuid_char_at(n2, 3));
        lemma_hex_char_injective(uuid_nibble(n1, 3), uuid_nibble(n2, 3));
    }
    assert(uuid_nibble(n1, 4) == uuid_nibble(n2, 4)) by {
        lemma_uuid_nibble_range(n1, 4);
        lemma_uuid_nibble_range(n2, 4);
        assert(uuid_char_at(n1, 4) == uuid_char_at(n2, 4));
        lemma_hex_char_injective(uuid_nibble(n1, 4), uuid_nibble(n2, 4));
    }
    assert(uuid_nibble(n1, 5) == uuid_nibble(n2, 5)) by {
        lemma_uuid_nibble_range(n1, 5);
        lemma_uuid_nibble_range(n2, 5);
        assert(uuid_char_at(n1, 5) == uuid_char_at(n2, 5));
        lemma_hex_char_injective(uuid_nibble(n1, 5), uuid_nibble(n2, 5));
    }
    assert(uuid_nibble(n1, 6) == uuid_nibble(n2, 6)) by {
        lemma_uuid_nibble_range(n1, 6);
        lemma_uuid_nibble_range(n2, 6);
        assert(uuid_char_at(n1, 6) == uuid_char_at(n2, 6));
        lemma_hex_char_injective(uuid_nibble(n1, 6), uuid_nibble(n2, 6));
    }
    assert(uuid_nibble(n1, 7) == uuid_nibble(n2, 7)) by {
        lemma_uuid_nibble_range(n1, 7);
        lemma_uuid_nibble_range(n2, 7);
        assert(uuid_char_at(n1, 7) == uuid_char_at(n2, 7));
        lemma_hex_char_injective(uuid_nibble(n1, 7), uuid_nibble(n2, 7));
    }
    assert(uuid_nibble(n1, 8) == uuid_nibble(n2, 8)) by {
        lemma_uuid_nibble_range(n1, 8);
        lemma_uuid_nibble_range(n2, 8);
        assert(uuid_char_at(n1, 9) == uuid_char_at(n2, 9));
        lemma_hex_char_injective(uuid_nibble(n1, 8), uuid_nibble(n2, 8));
    }
    assert(uuid_nibble(n1, 9) == uuid_nibble(n2, 9)) by {
        lemma_uuid_nibble_range(n1, 9);
        lemma_uuid_nibble_range(n2, 9);
        assert(uuid_char_at(n1, 10) == uuid_char_at(n2, 10));
        lemma_hex_char_injective(uuid_nibble(n1, 9), uuid_nibble(n2, 9));
    }
    assert(uuid_nibble(n1, 10) == uuid_nibble(n2, 10)) by {
        lemma_uuid_nibble_range(n1, 10);
        lemma_uuid_nibble_range(n2, 10);
        assert(uuid_char_at(n1, 11) == uuid_char_at(n2, 11));
        lemma_hex_char_injective(uuid_nibble(n1, 10), uuid_nibble(n2, 10));
    }
    assert(uuid_nibble(n1, 11) == uuid_nibble(n2, 11)) by {
        lemma_uuid_nibble_range(n1, 11);
        lemma_uuid_nibble_range(n2, 11);
        assert(uuid_char_at(n1, 12) == uuid_char_at(n2, 12));
        lemma_hex_char_injective(uuid_nibble(n1, 11), uuid_nibble(n2, 11));
    }
    assert(uuid_nibble(n1, 12) == uuid_nibble(n2, 12)) by {
        lemma_uuid_nibble_range(n1, 12);
        lemma_uuid_nibble_range(n2, 12);
        assert(uuid_char_at(n1, 14) == uuid_char_at(n2, 14));
        lemma_hex_char_injective(uuid_nibble(n1, 12), uuid_nibble(n2, 12));
    }
    assert(uuid_nibble(n1, 13) == uuid_nibble(n2, 13)) by {
        lemma_uuid_nibble_range(n1, 13);
        lemma_uuid_nibble_range(n2, 13);
        assert(uuid_char_at(n1, 15) == uuid_char_at(n2, 15));
        lemma_hex_char_injective(uuid_nibble(n1, 13), uuid_nibble(n2, 13));
    }
    assert(uuid_nibble(n1, 14) == uuid_nibble(n2, 14)) by {
        lemma_uuid_nibble_range(n1, 14);
        lemma_uuid_nibble_range(n2, 14);
        assert(uuid_char_at(n1, 16) == uuid_char_at(n2, 16));
        lemma_hex_char_injective(uuid_nibble(n1, 14), uuid_nibble(n2, 14));
    }
    assert(uuid_nibble(n1, 15) == uuid_nibble(n2, 15)) by {
        lemma_uuid_nibble_range(n1, 15);
        lemma_uuid_nibble_range(n2, 15);
        assert(uuid_char_at(n1, 17) == uuid_char_at(n2, 17));
        lemma_hex_char_injective(uuid_nibble(n1, 15), uuid_nibble(n2, 15));
    }
    assert(uuid_nibble(n1, 16) == uuid_nibble(n2, 16)) by {
        lemma_uuid_nibble_range(n1, 16);
        lemma_uuid_nibble_range(n2, 16);
        assert(uuid_char_at(n1, 19) == uuid_char_at(n2, 19));
        lemma_hex_char_injective(uuid_nibble(n1, 16), uuid_nibble(n2, 16));
    }
    assert(uuid_nibble(n1, 17) == uuid_nibble(n2, 17)) by {
        lemma_uuid_nibble_range(n1, 17);
        lemma_uuid_nibble_range(n2, 17);
        assert(uuid_char_at(n1, 20) == uuid_char_at(n2, 20));
        lemma_hex_char_injective(uuid_nibble(n1, 17), uuid_nibble(n2, 17));
    }
    assert(uuid_nibble(n1, 18) == uuid_nibble(n2, 18)) by {
        lemma_uuid_nibble_range(n1, 18);
        lemma_uuid_nibble_range(n2, 18);
        assert(uuid_char_at(n1, 21) == uuid_char_at(n2, 21));
        lemma_hex_char_injective(uuid_nibble(n1, 18), uuid_nibble(n2, 18));
    }
    assert(uuid_nibble(n1, 19) == uuid_nibble(n2, 19)) by {
        lemma_uuid_nibble_range(n1, 19);
        lemma_uuid_nibble_range(n2, 19);
        assert(uuid_char_at(n1, 22) == uuid_char_at(n2, 22));
        lemma_hex_char_injective(uuid_nibble(n1, 19), uuid_nibble(n2, 19));
    }
    assert(uuid_nibble(n1, 20) == uuid_nibble(n2, 20)) by {
        lemma_uuid_nibble_range(n1, 20);
        lemma_uuid_nibble_range(n2, 20);
        assert(uuid_char_at(n1, 24) == uuid_char_at(n2, 24));
        lemma_hex_char_injective(uuid_nibble(n1, 20), uuid_nibble(n2, 20));
    }
    assert(uuid_nibble(n1, 21) == uuid_nibble(n2, 21)) by {
        lemma_uuid_nibble_range(n1, 21);
        lemma_uuid_nibble_range(n2, 21);
        assert(uuid_char_at(n1, 25) == uuid_char_at(n2, 25));
        lemma_hex_char_injective(uuid_nibble(n1, 21), uuid_nibble(n2, 21));
    }
    assert(uuid_nibble(n1, 22) == uuid_nibble(n2, 22)) by {
        lemma_uuid_nibble_range(n1, 22);
        lemma_uuid_nibble_range(n2, 22);
        assert(uuid_char_at(n1, 26) == uuid_char_at(n2, 26));
        lemma_hex_char_injective(uuid_nibble(n1, 22), uuid_nibble(n2, 22));
    }
    assert(uuid_nibble(n1, 23) == uuid_nibble(n2, 23)) by {
        lemma_uuid_nibble_range(n1, 23);
        lemma_uuid_nibble_range(n2, 23);
        assert(uuid_char_at(n1, 27) == uuid_char_at(n2, 27));
        lemma_hex_char_injective(uuid_nibble(n1, 23), uuid_nibble(n2, 23));
    }
    assert(uuid_nibble(n1, 24) == uuid_nibble(n2, 24)) by {
        lemma_uuid_nibble_range(n1, 24);
        lemma_uuid_nibble_range(n2, 24);
        assert(uuid_char_at(n1, 28) == uuid_char_at(n2, 28));
        lemma_hex_char_injective(uuid_nibble(n1, 24), uuid_nibble(n2, 24));
    }
    assert(uuid_nibble(n1, 25) == uuid_nibble(n2, 25)) by {
        lemma_uuid_nibble_range(n1, 25);
        lemma_uuid_nibble_range(n2, 25);
        assert(uuid_char_at(n1, 29) == uuid_char_at(n2, 29));
        lemma_hex_char_injective(uuid_nibble(n1, 25), uuid_nibble(n2, 25));
    }
    assert(uuid_nibble(n1, 26) == uuid_nibble(n2, 26)) by {
        lemma_uuid_nibble_range(n1, 26);
        lemma_uuid_nibble_range(n2, 26);
        assert(uuid_char_at(n1, 30) == uuid_char_at(n2, 30));
        lemma_hex_char_injective(uuid_nibble(n1, 26), uuid_nibble(n2, 26));
    }
    assert(uuid_nibble(n1, 27) == uuid_nibble(n2, 27)) by {
        lemma_uuid_nibble_range(n1, 27);
        lemma_uuid_nibble_range(n2, 27);
        assert(uuid_char_at(n1, 31) == uuid_char_at(n2, 31));
        lemma_hex_char_injective(uuid_nibble(n1, 27), uuid_nibble(n2, 27));
    }
    assert(uuid_nibble(n1, 28) == uuid_nibble(n2, 28)) by {
        lemma_uuid_nibble_range(n1, 28);
        lemma_uuid_nibble_range(n2, 28);
        assert(uuid_char_at(n1, 32) == uuid_char_at(n2, 32));
        lemma_hex_char_injective(uuid_nibble(n1, 28), uuid_nibble(n2, 28));
    }
    assert(uuid_nibble(n1, 29) == uuid_nibble(n2, 29)) by {
        lemma_uuid_nibble_range(n1, 29);
        lemma_uuid_nibble_range(n2, 29);
        assert(uuid_char_at(n1, 33) == uuid_char_at(n2, 33));
        lemma_hex_char_injective(uuid_nibble(n1, 29), uuid_nibble(n2, 29));
    }
    assert(uuid_nibble(n1, 30) == uuid_nibble(n2, 30)) by {
        lemma_uuid_nibble_range(n1, 30);
        lemma_uuid_nibble_range(n2, 30);
        assert(uuid_char_at(n1, 34) == uuid_char_at(n2, 34));
        lemma_hex_char_injective(uuid_nibble(n1, 30), uuid_nibble(n2, 30));
    }
    assert(uuid_nibble(n1, 31) == uuid_nibble(n2, 31)) by {
        lemma_uuid_nibble_range(n1, 31);
        lemma_uuid_nibble_range(n2, 31);
        assert(uuid_char_at(n1, 35) == uuid_char_at(n2, 35));
        lemma_hex_char_injective(uuid_nibble(n1, 31), uuid_nibble(n2, 31));
    }
    assert(n1 == n2) by (bit_vector)
        requires
            (n1 >> 124u128) & 0xf == (n2 >> 124u128) & 0xf,
            (n1 >> 120u128) & 0xf == (n2 >> 120u128) & 0xf,
            (n1 >> 116u128) & 0xf == (n2 >> 116u128) & 0xf,
            (n1 >> 112u128) & 0xf == (n2 >> 112u128) & 0xf,
            (n1 >> 108u128) & 0xf == (n2 >> 108u128) & 0xf,
            (n1 >> 104u128) & 0xf == (n2 >> 104u128) & 0xf,
            (n1 >> 100u128) & 0xf == (n2 >> 100u128) & 0xf,
            (n1 >> 96u128) & 0xf == (n2 >> 96u128) & 0xf,
            (n1 >> 92u128) & 0xf == (n2 >> 92u128) & 0xf,
            (n1 >> 88u128) & 0xf == (n2 >> 88u128) & 0xf,
            (n1 >> 84u128) & 0xf == (n2 >> 84u128) & 0xf,
            (n1 >> 80u128) & 0xf == (n2 >> 80u128) & 0xf,
            (n1 >> 76u128) & 0xf == (n2 >> 76u128) & 0xf,
            (n1 >> 72u128) & 0xf == (n2 >> 72u128) & 0xf,
            (n1 >> 68u128) & 0xf == (n2 >> 68u128) & 0xf,
            (n1 >> 64u128) & 0xf == (n2 >> 64u128) & 0xf,
            (n1 >> 60u128) & 0xf == (n2 >> 60u128) & 0xf,
            (n1 >> 56u128) & 0xf == (n2 >> 56u128) & 0xf,
            (n1 >> 52u128) & 0xf == (n2 >> 52u128) & 0xf,
            (n1 >> 48u128) & 0xf == (n2 >> 48u128) & 0xf,
            (n1 >> 44u128) & 0xf == (n2 >> 44u128) & 0xf,
            (n1 >> 40u128) & 0xf == (n2 >> 40u128) & 0xf,
            (n1 >> 36u128) & 0xf == (n2 >> 36u128) & 0xf,
            (n1 >> 32u128) & 0xf == (n2 >> 32u128) & 0xf,
            (n1 >> 28u128) & 0xf == (n2 >> 28u128) & 0xf,
            (n1 >> 24u128) & 0xf == (n2 >> 24u128) & 0xf,
            (n1 >> 20u128) & 0xf == (n2 >> 20u128) & 0xf,
            (n1 >> 16u128) & 0xf == (n2 >> 16u128) & 0xf,
            (n1 >> 12u128) & 0xf == (n2 >> 12u128) & 0xf,
            (n1 >> 8u128) & 0xf == (n2 >> 8u128) & 0xf,
            (n1 >> 4u128) & 0xf == (n2 >> 4u128) & 0xf,
            (n1 >> 0u128) & 0xf == (n2 >> 0u128) & 0xf,
    {}
}

/// The characters that may not appear in a file name on NTFS or UNIX
/// filesystems.
pub open spec fn is_invalid_name_char(c: char) -> bool {
    c == '\\' || c == '/' || c == ':' || c == '*' || c == '?' || c == '"' || c == '<' || c == '>'
        || c == '|'
}

/// [`is_invalid_name_char`] complemented, as a value for `Seq::filter`.
pub open spec fn keep_name_char_pred() -> spec_fn(char) -> bool {
    |c: char| !is_invalid_name_char(c)
}

/// Remove the characters that cannot appear in a file name.
pub fn remove_invalid_file_name(file_name: &str) -> (r: String)
    ensures
        r@ == file_name@.filter(keep_name_char_pred()),
{
    let ghost s = file_name@;
    let n = file_name.unicode_len();
    let mut out = String::new();
    let mut i: usize = 0;
    proof {
        reveal_with_fuel(Seq::filter, 2);
        assert(s.take(0) =~= Seq::<char>::empty());
        assert(out@ =~= s.take(0).filter(keep_name_char_pred()));
    }
    while i < n
        invariant
            n == s.len(),
            s == file_name@,
            i <= n,
            out@ == s.take(i as int).filter(keep_name_char_pred()),
        decreases n - i,
    {
        let c = file_name.get_char(i);
        let keep = !(c == '\\' || c == '/' || c == ':' || c == '*' || c == '?' || c == '"' || c
            == '<' || c == '>' || c == '|');
        if keep {
            push_char(&mut out, c);
        }
        proof {
            reveal_with_fuel(Seq::filter, 2);
            let pred = keep_name_char_pred();
            let prefix = s.take(i as int);
            let snoc = prefix.push(s[i as int]);
            assert(s.take(i + 1int) =~= snoc);
            assert(snoc.drop_last() =~= prefix);
            assert(snoc.last() == s[i as int]);
            assert(snoc.filter(pred) == if pred(snoc.last()) {
                snoc.drop_last().filter(pred).push(snoc.last())
            } else {
                snoc.drop_last().filter(pred)
            });
        }
        i += 1;
    }
    proof {
        assert(s.take(s.len() as int) =~= s);
    }
    out
}

/// Sanitize a file name by removing invalid characters.
pub fn sanitize_file_name(file_name: &str) -> (r: String)
    ensures
        r@ == file_name@.filter(keep_name_char_pred()),
{
    remove_invalid_file_name(file_name)
}

/// Find the position of the first occurrence of `needle` in `haystack`.
pub fn find_sequence(haystack: &[u8], needle: &[u8]) -> (r: Option<usize>)
    requires
        needle@.len() >= 1,
    ensures
        match r {
            Some(i) => i + needle@.len() <= haystack@.len() && haystack@.subrange(
                i as int,
                i + needle@.len(),
            ) == needle@ && forall|j: int|
                0 <= j < i ==> #[trigger] haystack@.subrange(j, j + needle@.len()) != needle@,
            None => !crate::sieve::is_substring_of(needle@, haystack@),
        },
{
    crate::sieve::find_slice(haystack, needle)
}

} // verus!
