//! Pattern persistence: rendering a pattern as a JSON document and reading
//! one back.
//!
//! The renderer produces one canonical JSON object per pattern, with the
//! fields fixed in a set order and no insignificant whitespace. The reader
//! accepts exactly that canonical form and rejects anything else as a
//! malformed pattern; a pattern read back is structurally validated before
//! it is returned.

use vstd::prelude::*;

use crate::pattern::{
    data_max_points, pattern_data_valid, Pattern, PatternData, PatternError, PatternOtherData,
    PatternSubmitterData, PatternTypeData,
};
use crate::sequences::{keep_sequence, model, MAX_BYTE_SEQUENCE_LENGTH};
use crate::strings::{is_canonical_token, model_set};
use crate::utils::{hex_char, push_char};

verus! {

/// The decimal digits of `n`, most significant first.
pub open spec fn dec_digits(n: int) -> Seq<char>
    decreases n,
{
    if n < 10 {
        seq![hex_char(if n < 0 { 0 } else { n })]
    } else {
        dec_digits(n / 10).push(hex_char(n % 10))
    }
}

/// A character as it appears inside a rendered JSON string: quote and
/// backslash are escaped, control characters take a `\u00` escape, and
/// everything else stands for itself.
pub open spec fn esc_char(c: char) -> Seq<char> {
    if c == '"' {
        seq!['\\', '"']
    } else if c == '\\' {
        seq!['\\', '\\']
    } else if (c as int) < 32 {
        seq!['\\', 'u', '0', '0', hex_char((c as int) / 16), hex_char((c as int) % 16)]
    } else {
        seq![c]
    }
}

/// A whole string body, escaped.
pub open spec fn esc_string(s: Seq<char>) -> Seq<char>
    decreases s.len(),
{
    if s.len() == 0 {
        seq![]
    } else {
        esc_char(s[0]) + esc_string(s.drop_first())
    }
}

/// A rendered JSON string: the escaped body in quotes.
pub open spec fn json_string(s: Seq<char>) -> Seq<char> {
    seq!['"'] + esc_string(s) + seq!['"']
}

/// A pattern string rendered directly: its printable-subset bytes as
/// characters, in quotes.
pub open spec fn json_token(b: Seq<u8>) -> Seq<char> {
    seq!['"'] + Seq::new(b.len(), |i: int| b[i] as char) + seq!['"']
}

/// The elements of a rendered JSON array from index `i` on, separated by
/// commas; `piece` renders one element.
pub open spec fn join_from<A>(s: Seq<A>, i: int, piece: spec_fn(A) -> Seq<char>) -> Seq<char>
    decreases s.len() - i,
{
    if i < 0 || i >= s.len() {
        seq![]
    } else if i == 0 {
        piece(s[0]) + join_from(s, 1, piece)
    } else {
        seq![','] + piece(s[i]) + join_from(s, i + 1, piece)
    }
}

/// A rendered JSON array.
pub open spec fn json_array<A>(s: Seq<A>, piece: spec_fn(A) -> Seq<char>) -> Seq<char> {
    seq!['['] + join_from(s, 0, piece) + seq![']']
}

/// One rendered `(offset, bytes)` pair: a two-element array of the offset
/// and the byte values.
pub open spec fn json_sequence_entry(e: (usize, Vec<u8>)) -> Seq<char> {
    seq!['['] + dec_digits(e.0 as int) + seq![','] + json_array(e.1@, piece_byte()) + seq![']']
}

/// The rendered form of one free-form string element.
pub open spec fn piece_json_string() -> spec_fn(String) -> Seq<char> {
    |s: String| json_string(s@)
}

/// The rendered form of one pattern-string element.
pub open spec fn piece_token() -> spec_fn(Vec<u8>) -> Seq<char> {
    |b: Vec<u8>| json_token(b@)
}

/// The rendered form of one byte element.
pub open spec fn piece_byte() -> spec_fn(u8) -> Seq<char> {
    |b: u8| dec_digits(b as int)
}

/// The rendered form of one sequence entry.
pub open spec fn piece_sequence() -> spec_fn((usize, Vec<u8>)) -> Seq<char> {
    |e: (usize, Vec<u8>)| json_sequence_entry(e)
}

/// A rendered object key: the name in quotes, followed by a colon.
pub open spec fn key_spec(name: Seq<char>) -> Seq<char> {
    seq!['"'] + name + seq!['"', ':']
}

/// The rendered identity object.
pub open spec fn render_td(t: PatternTypeData) -> Seq<char> {
    seq!['{'] + key_spec("uuid"@) + json_string(t.uuid@) + seq![','] + key_spec("name"@)
        + json_string(t.name@) + seq![','] + key_spec("description"@) + json_string(t.description@)
        + seq![','] + key_spec("extensions"@) + json_array(t.known_extensions@, piece_json_string()) + seq![','] + key_spec("mimetypes"@) + json_array(t.known_mimetypes@, piece_json_string()) + seq![','] + key_spec("file_format_url"@) + json_string(t.file_format_url@) + seq!['}']
}

/// The rendered evidence object.
pub open spec fn render_pd(d: PatternData) -> Seq<char> {
    seq!['{'] + key_spec("sequences"@) + json_array(d.sequences@, piece_sequence()) + seq![','] + key_spec("regexes"@) + json_array(d.regexes@, piece_json_string())
        + seq![','] + key_spec("strings"@) + json_array(d.strings@, piece_token())
        + seq![','] + key_spec("min_entropy"@) + dec_digits(d.min_entropy as int) + seq![',']
        + key_spec("max_entropy"@) + dec_digits(d.max_entropy as int) + seq!['}']
}

/// The rendered bookkeeping object.
pub open spec fn render_od(o: PatternOtherData) -> Seq<char> {
    seq!['{'] + key_spec("total_scanned_files"@) + dec_digits(o.total_scanned_files as int)
        + seq!['}']
}

/// The rendered submitter object.
pub open spec fn render_sd(s: PatternSubmitterData) -> Seq<char> {
    seq!['{'] + key_spec("scanned_by"@) + json_string(s.scanned_by@) + seq![','] + key_spec(
        "scanned_by_email"@,
    ) + json_string(s.scanned_by_email@) + seq![','] + key_spec("scanned_on"@) + json_string(
        s.scanned_on@,
    ) + seq![','] + key_spec("refined_by"@) + json_array(s.refined_by@, piece_json_string()) + seq![','] + key_spec("refined_by_email"@) + json_array(s.refined_by_email@, piece_json_string()) + seq!['}']
}

/// The rendered form of a pattern: one JSON object, fields in a fixed
/// order, no whitespace.
pub open spec fn render_spec(p: Pattern) -> Seq<char> {
    seq!['{'] + key_spec("td"@) + render_td(p.type_data) + seq![','] + key_spec("pd"@) + render_pd(
        p.data,
    ) + seq![','] + key_spec("od"@) + render_od(p.other_data) + seq![','] + key_spec("sd"@)
        + render_sd(p.submitter_data) + seq!['}']
}

/// Append the decimal digits of `n`.
fn push_dec(out: &mut String, n: u64)
    ensures
        final(out)@ == old(out)@ + dec_digits(n as int),
    decreases n,
{
    if n < 10 {
        push_char(out, crate::utils::hex_char_of_pub(n as u8));
    } else {
        push_dec(out, n / 10);
        push_char(out, crate::utils::hex_char_of_pub((n % 10) as u8));
        proof {
            assert(old(out)@ + dec_digits(n as int / 10).push(hex_char(n as int % 10)) =~= (old(
                out,
            )@ + dec_digits(n as int / 10)).push(hex_char(n as int % 10)));
        }
    }
}

/// Append one escaped character.
fn push_esc_char(out: &mut String, c: char)
    ensures
        final(out)@ == old(out)@ + esc_char(c),
{
    let code = c as u32;
    if c == '"' {
        push_char(out, '\\');
        push_char(out, '"');
        proof {
            assert(old(out)@ + esc_char(c) =~= old(out)@.push('\\').push('"'));
        }
    } else if c == '\\' {
        push_char(out, '\\');
        push_char(out, '\\');
        proof {
            assert(old(out)@ + esc_char(c) =~= old(out)@.push('\\').push('\\'));
        }
    } else if code < 32 {
        push_char(out, '\\');
        push_char(out, 'u');
        push_char(out, '0');
        push_char(out, '0');
        push_char(out, crate::utils::hex_char_of_pub((code / 16) as u8));
        push_char(out, crate::utils::hex_char_of_pub((code % 16) as u8));
        proof {
            assert(old(out)@ + esc_char(c) =~= old(out)@.push('\\').push('u').push('0').push(
                '0',
            ).push(hex_char((c as int) / 16)).push(hex_char((c as int) % 16)));
        }
    } else {
        push_char(out, c);
        proof {
            assert(old(out)@ + esc_char(c) =~= old(out)@.push(c));
        }
    }
}


fn push_json_token(out: &mut String, b: &Vec<u8>)
    requires
        forall|k: int| 0 <= k < b@.len() ==> (#[trigger] b@[k]) < 128,
    ensures
        final(out)@ == old(out)@ + json_token(b@),
{
    push_char(out, 34u8 as char);
    let mut i: usize = 0;
    let ghost chars = Seq::new(b@.len(), |k: int| b@[k] as char);
    proof {
        assert(out@ =~= old(out)@ + seq!['"'] + chars.take(0));
    }
    while i < b.len()
        invariant
            chars == Seq::new(b@.len(), |k: int| b@[k] as char),
            i <= b@.len(),
            out@ == old(out)@ + seq!['"'] + chars.take(i as int),
        decreases b@.len() - i,
    {
        let byte = b[i];
        push_char(out, byte as char);
        proof {
            assert(chars.take(i + 1int) =~= chars.take(i as int).push(chars[i as int]));
            assert(out@ =~= old(out)@ + seq!['"'] + chars.take(i + 1int));
        }
        i += 1;
    }
    push_char(out, 34u8 as char);
    proof {
        assert(chars.take(chars.len() as int) =~= chars);
        assert(out@ =~= old(out)@ + json_token(b@));
    }
}

/// Append a rendered JSON string.
fn push_json_string(out: &mut String, s: &str)
    ensures
        final(out)@ == old(out)@ + json_string(s@),
{
    push_char(out, 34u8 as char);
    let n = s.unicode_len();
    let mut i: usize = 0;
    proof {
        assert(esc_string(s@.take(0)) =~= Seq::<char>::empty());
        assert(out@ =~= old(out)@ + seq!['"'] + esc_string(s@.take(0)));
    }
    while i < n
        invariant
            n == s@.len(),
            i <= n,
            out@ == old(out)@ + seq!['"'] + esc_string(s@.take(i as int)),
        decreases n - i,
    {
        let c = s.get_char(i);
        push_esc_char(out, c);
        proof {
            lemma_esc_string_snoc(s@, i as int);
            assert(out@ =~= old(out)@ + seq!['"'] + esc_string(s@.take(i + 1int)));
        }
        i += 1;
    }
    push_char(out, 34u8 as char);
    proof {
        assert(s@.take(n as int) =~= s@);
        assert(out@ =~= old(out)@ + json_string(s@));
    }
}

/// Escaping a one-longer prefix appends the escape of the new character.
proof fn lemma_esc_string_snoc(s: Seq<char>, i: int)
    requires
        0 <= i < s.len(),
    ensures
        esc_string(s.take(i + 1)) == esc_string(s.take(i)) + esc_char(s[i]),
{
    lemma_esc_string_concat(s.take(i), seq![s[i]]);
    assert(s.take(i + 1) =~= s.take(i) + seq![s[i]]);
    assert(seq![s[i]].drop_first() =~= Seq::<char>::empty());
    assert(esc_string(Seq::<char>::empty()) == Seq::<char>::empty());
    assert(esc_string(seq![s[i]]) =~= esc_char(s[i]));
}

proof fn lemma_esc_string_concat(s1: Seq<char>, s2: Seq<char>)
    ensures
        esc_string(s1 + s2) == esc_string(s1) + esc_string(s2),
    decreases s1.len(),
{
    if s1.len() == 0 {
        assert(s1 + s2 =~= s2);
        assert(esc_string(s1) + esc_string(s2) =~= esc_string(s2));
    } else {
        assert((s1 + s2).drop_first() =~= s1.drop_first() + s2);
        assert((s1 + s2)[0] == s1[0]);
        lemma_esc_string_concat(s1.drop_first(), s2);
        assert(esc_string(s1 + s2) =~= esc_string(s1) + esc_string(s2));
    }
}

/// Append a rendered object key.
fn push_key(out: &mut String, name: &str)
    ensures
        final(out)@ == old(out)@ + key_spec(name@),
{
    push_char(out, 34u8 as char);
    out.append(name);
    push_char(out, 34u8 as char);
    push_char(out, ':');
    proof {
        assert(out@ =~= old(out)@ + key_spec(name@));
    }
}

/// Append a rendered array of free-form strings.
fn push_string_array(out: &mut String, items: &Vec<String>)
    ensures
        final(out)@ == old(out)@ + json_array(items@, piece_json_string()),
{
    push_char(out, '[');
    let ghost s = items@;
    let ghost piece = piece_json_string();
    let mut k: usize = 0;
    proof {
        assert(out@ + join_from(s, 0, piece) + seq![']'] =~= old(out)@ + json_array(s, piece));
    }
    while k < items.len()
        invariant
            s == items@,
            k <= s.len(),
            piece == piece_json_string(),
            out@ + join_from(s, k as int, piece) + seq![']'] == old(out)@ + json_array(s, piece),
        decreases s.len() - k,
    {
        let ghost pre = out@;
        if k > 0 {
            push_char(out, ',');
        }
        push_json_string(out, items[k].as_str());
        proof {
            assert(piece(s[k as int]) == json_string(items@[k as int]@));
            if k == 0 {
                assert(join_from(s, 0, piece) =~= piece(s[0]) + join_from(s, 1, piece));
                assert(out@ + join_from(s, k + 1int, piece) + seq![']'] =~= pre + join_from(
                    s,
                    k as int,
                    piece,
                ) + seq![']']);
            } else {
                assert(join_from(s, k as int, piece) =~= seq![','] + piece(s[k as int])
                    + join_from(s, k + 1int, piece));
                assert(out@ + join_from(s, k + 1int, piece) + seq![']'] =~= pre + join_from(
                    s,
                    k as int,
                    piece,
                ) + seq![']']);
            }
        }
        k += 1;
    }
    push_char(out, ']');
    proof {
        assert(join_from(s, s.len() as int, piece) =~= Seq::<char>::empty());
        assert(out@ =~= old(out)@ + json_array(s, piece));
    }
}

/// Append a rendered array of pattern strings.
fn push_token_array(out: &mut String, items: &Vec<Vec<u8>>)
    requires
        forall|k: int| 0 <= k < items@.len() ==> is_canonical_token((#[trigger] items@[k])@),
    ensures
        final(out)@ == old(out)@ + json_array(items@, piece_token()),
{
    push_char(out, '[');
    let ghost s = items@;
    let ghost piece = piece_token();
    let mut k: usize = 0;
    proof {
        assert(out@ + join_from(s, 0, piece) + seq![']'] =~= old(out)@ + json_array(s, piece));
    }
    while k < items.len()
        invariant
            s == items@,
            k <= s.len(),
            piece == piece_token(),
            forall|m: int| 0 <= m < s.len() ==> is_canonical_token((#[trigger] s[m])@),
            out@ + join_from(s, k as int, piece) + seq![']'] == old(out)@ + json_array(s, piece),
        decreases s.len() - k,
    {
        let ghost pre = out@;
        if k > 0 {
            push_char(out, ',');
        }
        proof {
            assert(is_canonical_token(s[k as int]@));
        }
        push_json_token(out, &items[k]);
        proof {
            assert(piece(s[k as int]) == json_token(items@[k as int]@));
            if k == 0 {
                assert(join_from(s, 0, piece) =~= piece(s[0]) + join_from(s, 1, piece));
            } else {
                assert(join_from(s, k as int, piece) =~= seq![','] + piece(s[k as int])
                    + join_from(s, k + 1int, piece));
            }
            assert(out@ + join_from(s, k + 1int, piece) + seq![']'] =~= pre + join_from(
                s,
                k as int,
                piece,
            ) + seq![']']);
        }
        k += 1;
    }
    push_char(out, ']');
    proof {
        assert(join_from(s, s.len() as int, piece) =~= Seq::<char>::empty());
        assert(out@ =~= old(out)@ + json_array(s, piece));
    }
}

/// Append a rendered array of byte values.
fn push_byte_array(out: &mut String, items: &Vec<u8>)
    ensures
        final(out)@ == old(out)@ + json_array(items@, piece_byte()),
{
    push_char(out, '[');
    let ghost s = items@;
    let ghost piece = piece_byte();
    let mut k: usize = 0;
    proof {
        assert(out@ + join_from(s, 0, piece) + seq![']'] =~= old(out)@ + json_array(s, piece));
    }
    while k < items.len()
        invariant
            s == items@,
            k <= s.len(),
            piece == piece_byte(),
            out@ + join_from(s, k as int, piece) + seq![']'] == old(out)@ + json_array(s, piece),
        decreases s.len() - k,
    {
        let ghost pre = out@;
        if k > 0 {
            push_char(out, ',');
        }
        push_dec(out, items[k] as u64);
        proof {
            assert(piece(s[k as int]) == dec_digits(items@[k as int] as int));
            if k == 0 {
                assert(join_from(s, 0, piece) =~= piece(s[0]) + join_from(s, 1, piece));
            } else {
                assert(join_from(s, k as int, piece) =~= seq![','] + piece(s[k as int])
                    + join_from(s, k + 1int, piece));
            }
            assert(out@ + join_from(s, k + 1int, piece) + seq![']'] =~= pre + join_from(
                s,
                k as int,
                piece,
            ) + seq![']']);
        }
        k += 1;
    }
    push_char(out, ']');
    proof {
        assert(join_from(s, s.len() as int, piece) =~= Seq::<char>::empty());
        assert(out@ =~= old(out)@ + json_array(s, piece));
    }
}

/// Append a rendered array of positional sequences.
fn push_sequence_array(out: &mut String, items: &Vec<(usize, Vec<u8>)>)
    ensures
        final(out)@ == old(out)@ + json_array(items@, piece_sequence()),
{
    push_char(out, '[');
    let ghost s = items@;
    let ghost piece = piece_sequence();
    let mut k: usize = 0;
    proof {
        assert(out@ + join_from(s, 0, piece) + seq![']'] =~= old(out)@ + json_array(s, piece));
    }
    while k < items.len()
        invariant
            s == items@,
            k <= s.len(),
            piece == piece_sequence(),
            out@ + join_from(s, k as int, piece) + seq![']'] == old(out)@ + json_array(s, piece),
        decreases s.len() - k,
    {
        let ghost pre = out@;
        if k > 0 {
            push_char(out, ',');
        }
        push_char(out, '[');
        push_dec(out, items[k].0 as u64);
        push_char(out, ',');
        push_byte_array(out, &items[k].1);
        push_char(out, ']');
        proof {
            assert(piece(s[k as int]) == json_sequence_entry(items@[k as int]));
            assert(json_sequence_entry(items@[k as int]) =~= seq!['['] + dec_digits(
                items@[k as int].0 as int,
            ) + seq![','] + json_array(items@[k as int].1@, piece_byte()) + seq![']']);
            if k == 0 {
                assert(join_from(s, 0, piece) =~= piece(s[0]) + join_from(s, 1, piece));
            } else {
                assert(join_from(s, k as int, piece) =~= seq![','] + piece(s[k as int])
                    + join_from(s, k + 1int, piece));
            }
            assert(out@ + join_from(s, k + 1int, piece) + seq![']'] =~= pre + join_from(
                s,
                k as int,
                piece,
            ) + seq![']']);
        }
        k += 1;
    }
    push_char(out, ']');
    proof {
        assert(join_from(s, s.len() as int, piece) =~= Seq::<char>::empty());
        assert(out@ =~= old(out)@ + json_array(s, piece));
    }
}

/// Render the identity object.
fn render_td_string(t: &PatternTypeData) -> (r: String)
    ensures
        r@ == render_td(*t),
{
    let mut out = String::new();
    push_char(&mut out, '{');
    push_key(&mut out, "uuid");
    push_json_string(&mut out, t.uuid.as_str());
    push_char(&mut out, ',');
    push_key(&mut out, "name");
    push_json_string(&mut out, t.name.as_str());
    push_char(&mut out, ',');
    push_key(&mut out, "description");
    push_json_string(&mut out, t.description.as_str());
    push_char(&mut out, ',');
    push_key(&mut out, "extensions");
    push_string_array(&mut out, &t.known_extensions);
    push_char(&mut out, ',');
    push_key(&mut out, "mimetypes");
    push_string_array(&mut out, &t.known_mimetypes);
    push_char(&mut out, ',');
    push_key(&mut out, "file_format_url");
    push_json_string(&mut out, t.file_format_url.as_str());
    push_char(&mut out, '}');
    proof {
        assert(out@ =~= render_td(*t));
    }
    out
}

/// Render the evidence object.
fn render_pd_string(d: &PatternData) -> (r: String)
    requires
        pattern_data_valid(*d),
    ensures
        r@ == render_pd(*d),
{
    let mut out = String::new();
    push_char(&mut out, '{');
    push_key(&mut out, "sequences");
    push_sequence_array(&mut out, &d.sequences);
    push_char(&mut out, ',');
    push_key(&mut out, "regexes");
    push_string_array(&mut out, &d.regexes);
    push_char(&mut out, ',');
    push_key(&mut out, "strings");
    push_token_array(&mut out, &d.strings);
    push_char(&mut out, ',');
    push_key(&mut out, "min_entropy");
    push_dec(&mut out, d.min_entropy as u64);
    push_char(&mut out, ',');
    push_key(&mut out, "max_entropy");
    push_dec(&mut out, d.max_entropy as u64);
    push_char(&mut out, '}');
    proof {
        assert(out@ =~= render_pd(*d));
    }
    out
}

/// Render the submitter object.
fn render_sd_string(s: &PatternSubmitterData) -> (r: String)
    ensures
        r@ == render_sd(*s),
{
    let mut out = String::new();
    push_char(&mut out, '{');
    push_key(&mut out, "scanned_by");
    push_json_string(&mut out, s.scanned_by.as_str());
    push_char(&mut out, ',');
    push_key(&mut out, "scanned_by_email");
    push_json_string(&mut out, s.scanned_by_email.as_str());
    push_char(&mut out, ',');
    push_key(&mut out, "scanned_on");
    push_json_string(&mut out, s.scanned_on.as_str());
    push_char(&mut out, ',');
    push_key(&mut out, "refined_by");
    push_string_array(&mut out, &s.refined_by);
    push_char(&mut out, ',');
    push_key(&mut out, "refined_by_email");
    push_string_array(&mut out, &s.refined_by_email);
    push_char(&mut out, '}');
    proof {
        assert(out@ =~= render_sd(*s));
    }
    out
}

/// Render a pattern as its canonical JSON document.
#[verifier::rlimit(100)]
#[verifier::spinoff_prover]
pub fn render_pattern(p: &Pattern) -> (r: String)
    requires
        pattern_data_valid(p.data),
    ensures
        r@ == render_spec(*p),
{
    let mut out = String::new();
    push_char(&mut out, '{');
    push_key(&mut out, "td");
    let td = render_td_string(&p.type_data);
    out.append(td.as_str());
    proof {
        assert(out@ =~= seq!['{'] + key_spec("td"@) + render_td(p.type_data));
    }
    push_char(&mut out, ',');
    push_key(&mut out, "pd");
    let pd = render_pd_string(&p.data);
    out.append(pd.as_str());
    proof {
        assert(out@ =~= seq!['{'] + key_spec("td"@) + render_td(p.type_data) + seq![','] + key_spec(
            "pd"@,
        ) + render_pd(p.data));
    }
    push_char(&mut out, ',');
    push_key(&mut out, "od");
    push_char(&mut out, '{');
    push_key(&mut out, "total_scanned_files");
    push_dec(&mut out, p.other_data.total_scanned_files as u64);
    push_char(&mut out, '}');
    proof {
        assert(out@ =~= seq!['{'] + key_spec("td"@) + render_td(p.type_data) + seq![','] + key_spec(
            "pd"@,
        ) + render_pd(p.data) + seq![','] + key_spec("od"@) + render_od(p.other_data));
    }
    push_char(&mut out, ',');
    push_key(&mut out, "sd");
    let sd = render_sd_string(&p.submitter_data);
    out.append(sd.as_str());
    push_char(&mut out, '}');
    proof {
        assert(out@ =~= render_spec(*p));
    }
    out
}

/// Whether one pattern string is a canonical token.
fn token_is_canonical(v: &Vec<u8>) -> (r: bool)
    ensures
        r == is_canonical_token(v@),
{
    if v.len() < crate::strings::MIN_STRING_LENGTH || v.len() > crate::strings::MAX_STRING_LENGTH {
        return false;
    }
    let mut k: usize = 0;
    while k < v.len()
        invariant
            k <= v@.len(),
            forall|m: int|
                0 <= m < k ==> crate::ascii::is_readable_byte(#[trigger] v@[m])
                    && crate::ascii::upper_byte(v@[m]) == v@[m],
        decreases v@.len() - k,
    {
        let b = v[k];
        if !crate::ascii::byte_is_readable(b) || crate::ascii::byte_to_upper(b) != b {
            return false;
        }
        k += 1;
    }
    true
}

/// Validate pattern data structurally: the well-formedness every stored or
/// loaded pattern must satisfy.
pub fn validate_pattern_data(d: &PatternData) -> (r: bool)
    ensures
        r == pattern_data_valid(*d),
{
    // Sequence entries: length bounds and a nonzero byte each.
    let mut k: usize = 0;
    while k < d.sequences.len()
        invariant
            k <= d.sequences@.len(),
            forall|m: int|
                0 <= m < k ==> keep_sequence(#[trigger] model(d.sequences@)[m]) && model(
                    d.sequences@,
                )[m].1.len() <= MAX_BYTE_SEQUENCE_LENGTH,
        decreases d.sequences@.len() - k,
    {
        let wanted = crate::sequences::sequence_is_wanted(&d.sequences[k]);
        if !wanted || d.sequences[k].1.len() > MAX_BYTE_SEQUENCE_LENGTH {
            proof {
                assert(model(d.sequences@)[k as int] == (d.sequences@[k as int].0, d.sequences@[k as int].1@));
            }
            return false;
        }
        proof {
            assert(model(d.sequences@)[k as int] == (d.sequences@[k as int].0, d.sequences@[k as int].1@));
        }
        k += 1;
    }
    // Sorted by offset, descending.
    let mut k2: usize = 1;
    while k2 < d.sequences.len()
        invariant
            1 <= k2 || d.sequences@.len() == 0,
            k2 <= d.sequences@.len() || d.sequences@.len() == 0,
            forall|i: int, j: int|
                0 <= i < j < k2 && j < d.sequences@.len() ==> (#[trigger] d.sequences@[i]).0
                    >= (#[trigger] d.sequences@[j]).0,
        decreases d.sequences@.len() - k2,
    {
        if d.sequences[k2 - 1].0 < d.sequences[k2].0 {
            return false;
        }
        k2 += 1;
    }
    // Strings: canonical and distinct.
    let mut s: usize = 0;
    while s < d.strings.len()
        invariant
            s <= d.strings@.len(),
            forall|m: int| 0 <= m < s ==> is_canonical_token(#[trigger] d.strings@[m]@),
            forall|i: int, j: int| 0 <= i < j < s ==> d.strings@[i]@ != d.strings@[j]@,
        decreases d.strings@.len() - s,
    {
        if !token_is_canonical(&d.strings[s]) {
            return false;
        }
        let mut t: usize = 0;
        while t < s
            invariant
                t <= s < d.strings@.len(),
                forall|m: int| 0 <= m < t ==> d.strings@[m]@ != d.strings@[s as int]@,
            decreases s - t,
        {
            if crate::strings::bytes_equal(d.strings[t].as_slice(), d.strings[s].as_slice()) {
                return false;
            }
            t += 1;
        }
        s += 1;
    }
    // Entropies within the recorded range.
    if d.max_entropy > 800 || d.min_entropy > 800 {
        return false;
    }
    // The total evidence weight fits the machine.
    let mut total: usize = 0;
    let mut q: usize = 0;
    proof {
        assert(model(d.sequences@).take(0) =~~= Seq::<(usize, Seq<u8>)>::empty());
    }
    while q < d.sequences.len()
        invariant
            q <= d.sequences@.len(),
            total == crate::sequences::sum_entry_lens(model(d.sequences@).take(q as int)),
        decreases d.sequences@.len() - q,
    {
        proof {
            crate::pattern::lemma_sum_take_step_entries(model(d.sequences@), q as int);
            assert(model(d.sequences@)[q as int].1.len() == d.sequences@[q as int].1@.len());
        }
        match total.checked_add(d.sequences[q].1.len()) {
            Some(v) => {
                total = v;
            },
            None => {
                proof {
                    lemma_prefix_le_total(*d, q + 1int);
                }
                return false;
            },
        }
        q += 1;
    }
    proof {
        assert(model(d.sequences@).take(d.sequences@.len() as int) =~~= model(d.sequences@));
    }
    let mut q2: usize = 0;
    proof {
        assert(model_set(d.strings@).take(0) =~~= Seq::<Seq<u8>>::empty());
    }
    while q2 < d.strings.len()
        invariant
            q2 <= d.strings@.len(),
            total == crate::sequences::sum_entry_lens(model(d.sequences@))
                + crate::pattern::sum_str_lens(model_set(d.strings@).take(q2 as int)),
        decreases d.strings@.len() - q2,
    {
        proof {
            crate::pattern::lemma_sum_str_take_step_pub(model_set(d.strings@), q2 as int);
            assert(model_set(d.strings@)[q2 as int].len() == d.strings@[q2 as int]@.len());
        }
        match total.checked_add(d.strings[q2].len()) {
            Some(v) => {
                total = v;
            },
            None => {
                proof {
                    lemma_str_prefix_le_total(*d, q2 + 1int);
                }
                return false;
            },
        }
        q2 += 1;
    }
    proof {
        assert(model_set(d.strings@).take(d.strings@.len() as int) =~~= model_set(d.strings@));
    }
    let mut q3: usize = 0;
    proof {
        assert(d.regexes@.take(0) =~~= Seq::<String>::empty());
    }
    while q3 < d.regexes.len()
        invariant
            q3 <= d.regexes@.len(),
            total == crate::sequences::sum_entry_lens(model(d.sequences@))
                + crate::pattern::sum_str_lens(model_set(d.strings@))
                + crate::pattern::sum_regex_points(d.regexes@.take(q3 as int)),
        decreases d.regexes@.len() - q3,
    {
        proof {
            crate::pattern::lemma_sum_regex_take_step_pub(d.regexes@, q3 as int);
        }
        let extra = d.regexes[q3].as_str().unicode_len();
        let step = match extra.checked_add(crate::file_point_calculator::REGULAR_EXPRESSION_EXTRA_POINTS) {
            Some(v) => v,
            None => {
                proof {
                    lemma_regex_prefix_le_total(*d, q3 + 1int);
                }
                return false;
            },
        };
        match total.checked_add(step) {
            Some(v) => {
                total = v;
            },
            None => {
                proof {
                    lemma_regex_prefix_le_total(*d, q3 + 1int);
                }
                return false;
            },
        }
        q3 += 1;
    }
    proof {
        assert(d.regexes@.take(d.regexes@.len() as int) =~~= d.regexes@);
    }
    let tail: usize = if d.max_entropy != 0 || d.min_entropy != 0 {
        crate::file_point_calculator::ENTROPY_POINTS
            + crate::file_point_calculator::FILE_EXTENSION_POINTS
    } else {
        crate::file_point_calculator::FILE_EXTENSION_POINTS
    };
    match total.checked_add(tail) {
        Some(_) => true,
        None => false,
    }
}

/// A prefix of the sequence weights is a lower bound on the whole pattern's
/// weight.
proof fn lemma_prefix_le_total(d: PatternData, k: int)
    requires
        0 <= k <= model(d.sequences@).len(),
    ensures
        crate::sequences::sum_entry_lens(model(d.sequences@).take(k)) <= data_max_points(d),
{
    crate::pattern::lemma_entry_prefix_bound(d, k);
    crate::pattern::lemma_pattern_sums_nonneg(d);
}

proof fn lemma_str_prefix_le_total(d: PatternData, k: int)
    requires
        0 <= k <= model_set(d.strings@).len(),
    ensures
        crate::sequences::sum_entry_lens(model(d.sequences@)) + crate::pattern::sum_str_lens(
            model_set(d.strings@).take(k),
        ) <= data_max_points(d),
{
    crate::pattern::lemma_string_prefix_bound(d, k);
    crate::pattern::lemma_pattern_sums_nonneg(d);
}

proof fn lemma_regex_prefix_le_total(d: PatternData, k: int)
    requires
        0 <= k <= d.regexes@.len(),
    ensures
        crate::sequences::sum_entry_lens(model(d.sequences@)) + crate::pattern::sum_str_lens(
            model_set(d.strings@),
        ) + crate::pattern::sum_regex_points(d.regexes@.take(k)) <= data_max_points(d),
{
    crate::pattern::lemma_regex_prefix_bound(d, k);
    crate::pattern::lemma_pattern_sums_nonneg(d);
}

/// The characters of a string, as a vector.
fn chars_of(s: &str) -> (r: Vec<char>)
    ensures
        r@ == s@,
{
    let n = s.unicode_len();
    let mut out: Vec<char> = Vec::new();
    let mut i: usize = 0;
    while i < n
        invariant
            n == s@.len(),
            i <= n,
            out@ == s@.take(i as int),
        decreases n - i,
    {
        out.push(s.get_char(i));
        proof {
            assert(s@.take(i + 1int) =~= s@.take(i as int).push(s@[i as int]));
        }
        i += 1;
    }
    proof {
        assert(s@.take(n as int) =~= s@);
    }
    out
}

/// Expect the literal characters of `lit` at position `i`.
fn expect_lit(cs: &Vec<char>, i: usize, lit: &str) -> (r: Option<usize>)
    ensures
        r is Some ==> i <= r->0 <= cs@.len(),
{
    let m = lit.unicode_len();
    if m > cs.len() || i > cs.len() - m {
        return None;
    }
    let n = cs.len();
    let mut k: usize = 0;
    while k < m
        invariant
            m == lit@.len(),
            n == cs@.len(),
            i + m <= n,
            n <= usize::MAX,
            k <= m,
        decreases m - k,
    {
        if cs[i + k] != lit.get_char(k) {
            return None;
        }
        k += 1;
    }
    Some(i + m)
}

/// Expect one character at position `i`.
fn expect_char(cs: &Vec<char>, i: usize, c: char) -> (r: Option<usize>)
    ensures
        r is Some ==> i < r->0 <= cs@.len(),
{
    if i < cs.len() && cs[i] == c {
        Some(i + 1)
    } else {
        None
    }
}

/// Expect a quoted object key at position `i`.
fn expect_key(cs: &Vec<char>, i: usize, name: &str) -> (r: Option<usize>)
    ensures
        r is Some ==> i <= r->0 <= cs@.len(),
{
    let i1 = match expect_char(cs, i, 34u8 as char) {
        Some(v) => v,
        None => {
            return None;
        },
    };
    let i2 = match expect_lit(cs, i1, name) {
        Some(v) => v,
        None => {
            return None;
        },
    };
    let i3 = match expect_char(cs, i2, 34u8 as char) {
        Some(v) => v,
        None => {
            return None;
        },
    };
    expect_char(cs, i3, ':')
}

/// The value of a lowercase hex digit character, if it is one.
fn hex_value(c: char) -> (r: Option<u8>) {
    let code = c as u32;
    if 48 <= code && code <= 57 {
        Some((code - 48) as u8)
    } else if 97 <= code && code <= 102 {
        Some((code - 97 + 10) as u8)
    } else {
        None
    }
}

/// Read one JSON string starting at `i`; handles the canonical escapes.
fn parse_json_string(cs: &Vec<char>, i: usize) -> (r: Option<(String, usize)>)
    ensures
        r is Some ==> i < (r->0).1 <= cs@.len(),
{
    let mut j = match expect_char(cs, i, 34u8 as char) {
        Some(v) => v,
        None => {
            return None;
        },
    };
    let mut out = String::new();
    while j < cs.len()
        invariant
            i < j <= cs@.len(),
        decreases cs@.len() - j,
    {
        let c = cs[j];
        if c == 34u8 as char {
            return Some((out, j + 1));
        }
        if c == 92u8 as char {
            if cs.len() - j <= 1 {
                return None;
            }
            let e = cs[j + 1];
            if e == 34u8 as char || e == 92u8 as char {
                push_char(&mut out, e);
                j = j + 2;
            } else if e == 'u' {
                if cs.len() - j <= 5 {
                    return None;
                }
                if cs[j + 2] != '0' || cs[j + 3] != '0' {
                    return None;
                }
                let h1 = match hex_value(cs[j + 4]) {
                    Some(v) => v,
                    None => {
                        return None;
                    },
                };
                let h2 = match hex_value(cs[j + 5]) {
                    Some(v) => v,
                    None => {
                        return None;
                    },
                };
                let code: u16 = (h1 as u16) * 16 + (h2 as u16);
                if code >= 32 {
                    return None;
                }
                push_char(&mut out, (code as u8) as char);
                j = j + 6;
            } else {
                return None;
            }
        } else {
            let code = c as u32;
            if code < 32 {
                return None;
            }
            push_char(&mut out, c);
            j = j + 1;
        }
    }
    None
}

/// Read one pattern string starting at `i`: printable-subset characters
/// only.
fn parse_token(cs: &Vec<char>, i: usize) -> (r: Option<(Vec<u8>, usize)>)
    ensures
        r is Some ==> i < (r->0).1 <= cs@.len(),
{
    let mut j = match expect_char(cs, i, 34u8 as char) {
        Some(v) => v,
        None => {
            return None;
        },
    };
    let mut out: Vec<u8> = Vec::new();
    while j < cs.len()
        invariant
            i < j <= cs@.len(),
        decreases cs@.len() - j,
    {
        let c = cs[j];
        if c == 34u8 as char {
            return Some((out, j + 1));
        }
        let code = c as u32;
        if code < 32 || code > 126 {
            return None;
        }
        out.push(code as u8);
        j = j + 1;
    }
    None
}

/// Read one decimal number starting at `i`, without leading zeros.
fn parse_usize(cs: &Vec<char>, i: usize) -> (r: Option<(usize, usize)>)
    ensures
        r is Some ==> i < (r->0).1 <= cs@.len(),
{
    if i >= cs.len() {
        return None;
    }
    let first = cs[i] as u32;
    if first < 48 || first > 57 {
        return None;
    }
    let mut value: usize = (first - 48) as usize;
    let mut j = i + 1;
    if first == 48 {
        // A leading zero stands alone.
        return Some((0, j));
    }
    while j < cs.len()
        invariant
            i < j <= cs@.len(),
        decreases cs@.len() - j,
    {
        let code = cs[j] as u32;
        if code < 48 || code > 57 {
            break;
        }
        let digit = (code - 48) as usize;
        value = match value.checked_mul(10) {
            Some(v) => v,
            None => {
                return None;
            },
        };
        value = match value.checked_add(digit) {
            Some(v) => v,
            None => {
                return None;
            },
        };
        j = j + 1;
    }
    Some((value, j))
}

/// Read one entropy value: a decimal number that fits the recorded range.
fn parse_u16(cs: &Vec<char>, i: usize) -> (r: Option<(u16, usize)>)
    ensures
        r is Some ==> i < (r->0).1 <= cs@.len(),
{
    match parse_usize(cs, i) {
        Some((v, j)) => {
            if v <= 65535 {
                Some((v as u16, j))
            } else {
                None
            }
        },
        None => None,
    }
}

/// Read a JSON array of free-form strings.
fn parse_string_array(cs: &Vec<char>, i: usize) -> (r: Option<(Vec<String>, usize)>)
    ensures
        r is Some ==> i < (r->0).1 <= cs@.len(),
{
    let mut j = match expect_char(cs, i, '[') {
        Some(v) => v,
        None => {
            return None;
        },
    };
    let mut out: Vec<String> = Vec::new();
    if j < cs.len() && cs[j] == ']' {
        return Some((out, j + 1));
    }
    loop
        invariant
            i < j <= cs@.len(),
        decreases cs@.len() - j,
    {
        let (s, j2) = match parse_json_string(cs, j) {
            Some(v) => v,
            None => {
                return None;
            },
        };
        out.push(s);
        if j2 < cs.len() && cs[j2] == ']' {
            return Some((out, j2 + 1));
        }
        let j3 = match expect_char(cs, j2, ',') {
            Some(v) => v,
            None => {
                return None;
            },
        };
        j = j3;
    }
}

/// Read a JSON array of pattern strings.
fn parse_token_array(cs: &Vec<char>, i: usize) -> (r: Option<(Vec<Vec<u8>>, usize)>)
    ensures
        r is Some ==> i < (r->0).1 <= cs@.len(),
{
    let mut j = match expect_char(cs, i, '[') {
        Some(v) => v,
        None => {
            return None;
        },
    };
    let mut out: Vec<Vec<u8>> = Vec::new();
    if j < cs.len() && cs[j] == ']' {
        return Some((out, j + 1));
    }
    loop
        invariant
            i < j <= cs@.len(),
        decreases cs@.len() - j,
    {
        let (s, j2) = match parse_token(cs, j) {
            Some(v) => v,
            None => {
                return None;
            },
        };
        out.push(s);
        if j2 < cs.len() && cs[j2] == ']' {
            return Some((out, j2 + 1));
        }
        let j3 = match expect_char(cs, j2, ',') {
            Some(v) => v,
            None => {
                return None;
            },
        };
        j = j3;
    }
}

/// Read a JSON array of byte values.
fn parse_byte_array(cs: &Vec<char>, i: usize) -> (r: Option<(Vec<u8>, usize)>)
    ensures
        r is Some ==> i < (r->0).1 <= cs@.len(),
{
    let mut j = match expect_char(cs, i, '[') {
        Some(v) => v,
        None => {
            return None;
        },
    };
    let mut out: Vec<u8> = Vec::new();
    if j < cs.len() && cs[j] == ']' {
        return Some((out, j + 1));
    }
    loop
        invariant
            i < j <= cs@.len(),
        decreases cs@.len() - j,
    {
        let (v, j2) = match parse_usize(cs, j) {
            Some(v) => v,
            None => {
                return None;
            },
        };
        if v > 255 {
            return None;
        }
        out.push(v as u8);
        if j2 < cs.len() && cs[j2] == ']' {
            return Some((out, j2 + 1));
        }
        let j3 = match expect_char(cs, j2, ',') {
            Some(v) => v,
            None => {
                return None;
            },
        };
        j = j3;
    }
}

/// Read a JSON array of positional sequences.
fn parse_sequence_array(cs: &Vec<char>, i: usize) -> (r: Option<(Vec<(usize, Vec<u8>)>, usize)>)
    ensures
        r is Some ==> i < (r->0).1 <= cs@.len(),
{
    let mut j = match expect_char(cs, i, '[') {
        Some(v) => v,
        None => {
            return None;
        },
    };
    let mut out: Vec<(usize, Vec<u8>)> = Vec::new();
    if j < cs.len() && cs[j] == ']' {
        return Some((out, j + 1));
    }
    loop
        invariant
            i < j <= cs@.len(),
        decreases cs@.len() - j,
    {
        let j1 = match expect_char(cs, j, '[') {
            Some(v) => v,
            None => {
                return None;
            },
        };
        let (off, j2) = match parse_usize(cs, j1) {
            Some(v) => v,
            None => {
                return None;
            },
        };
        let j3 = match expect_char(cs, j2, ',') {
            Some(v) => v,
            None => {
                return None;
            },
        };
        let (bytes, j4) = match parse_byte_array(cs, j3) {
            Some(v) => v,
            None => {
                return None;
            },
        };
        let j5 = match expect_char(cs, j4, ']') {
            Some(v) => v,
            None => {
                return None;
            },
        };
        out.push((off, bytes));
        if j5 < cs.len() && cs[j5] == ']' {
            return Some((out, j5 + 1));
        }
        let j6 = match expect_char(cs, j5, ',') {
            Some(v) => v,
            None => {
                return None;
            },
        };
        j = j6;
    }
}

/// Attempt to build a [`Pattern`] from a JSON document in the canonical
/// form this crate writes. A document that deviates from that form, or
/// whose pattern fails structural validation, or that holds a regular
/// expression that does not compile, is rejected as malformed.
pub fn from_json_str(input: &str) -> (r: Result<Pattern, PatternError>)
    ensures
        r is Ok ==> pattern_data_valid((r->Ok_0).data) && (r->Ok_0).max_points == 0,
        r is Ok ==> forall|k: int|
            0 <= k < (r->Ok_0).data.regexes@.len() ==> crate::regexes::regex_valid(
                (#[trigger] (r->Ok_0).data.regexes@[k])@,
            ),
{
    let cs = chars_of(input);
    let i0 = match expect_char(&cs, 0, '{') {
        Some(v) => v,
        None => {
            return Err(PatternError::MalformedPattern);
        },
    };
    let i1 = match expect_key(&cs, i0, "td") {
        Some(v) => v,
        None => {
            return Err(PatternError::MalformedPattern);
        },
    };
    let i2 = match expect_char(&cs, i1, '{') {
        Some(v) => v,
        None => {
            return Err(PatternError::MalformedPattern);
        },
    };
    let i3 = match expect_key(&cs, i2, "uuid") {
        Some(v) => v,
        None => {
            return Err(PatternError::MalformedPattern);
        },
    };
    let (uuid, i4) = match parse_json_string(&cs, i3) {
        Some(v) => v,
        None => {
            return Err(PatternError::MalformedPattern);
        },
    };
    let i5 = match expect_char(&cs, i4, ',') {
        Some(v) => v,
        None => {
            return Err(PatternError::MalformedPattern);
        },
    };
    let i6 = match expect_key(&cs, i5, "name") {
        Some(v) => v,
        None => {
            return Err(PatternError::MalformedPattern);
        },
    };
    let (name, i7) = match parse_json_string(&cs, i6) {
        Some(v) => v,
        None => {
            return Err(PatternError::MalformedPattern);
        },
    };
    let i8 = match expect_char(&cs, i7, ',') {
        Some(v) => v,
        None => {
            return Err(PatternError::MalformedPattern);
        },
    };
    let i9 = match expect_key(&cs, i8, "description") {
        Some(v) => v,
        None => {
            return Err(PatternError::MalformedPattern);
        },
    };
    let (description, i10) = match parse_json_string(&cs, i9) {
        Some(v) => v,
        None => {
            return Err(PatternError::MalformedPattern);
        },
    };
    let i11 = match expect_char(&cs, i10, ',') {
        Some(v) => v,
        None => {
            return Err(PatternError::MalformedPattern);
        },
    };
    let i12 = match expect_key(&cs, i11, "extensions") {
        Some(v) => v,
        None => {
            return Err(PatternError::MalformedPattern);
        },
    };
    let (extensions, i13) = match parse_string_array(&cs, i12) {
        Some(v) => v,
        None => {
            return Err(PatternError::MalformedPattern);
        },
    };
    let i14 = match expect_char(&cs, i13, ',') {
        Some(v) => v,
        None => {
            return Err(PatternError::MalformedPattern);
        },
    };
    let i15 = match expect_key(&cs, i14, "mimetypes") {
        Some(v) => v,
        None => {
            return Err(PatternError::MalformedPattern);
        },
    };
    let (mimetypes, i16) = match parse_string_array(&cs, i15) {
        Some(v) => v,
        None => {
            return Err(PatternError::MalformedPattern);
        },
    };
    let i17 = match expect_char(&cs, i16, ',') {
        Some(v) => v,
        None => {
            return Err(PatternError::MalformedPattern);
        },
    };
    let i18 = match expect_key(&cs, i17, "file_format_url") {
        Some(v) => v,
        None => {
            return Err(PatternError::MalformedPattern);
        },
    };
    let (url, i19) = match parse_json_string(&cs, i18) {
        Some(v) => v,
        None => {
            return Err(PatternError::MalformedPattern);
        },
    };
    let i20 = match expect_lit(&cs, i19, "},") {
        Some(v) => v,
        None => {
            return Err(PatternError::MalformedPattern);
        },
    };
    let i21 = match expect_key(&cs, i20, "pd") {
        Some(v) => v,
        None => {
            return Err(PatternError::MalformedPattern);
        },
    };
    let i22 = match expect_char(&cs, i21, '{') {
        Some(v) => v,
        None => {
            return Err(PatternError::MalformedPattern);
        },
    };
    let i23 = match expect_key(&cs, i22, "sequences") {
        Some(v) => v,
        None => {
            return Err(PatternError::MalformedPattern);
        },
    };
    let (sequences, i24) = match parse_sequence_array(&cs, i23) {
        Some(v) => v,
        None => {
            return Err(PatternError::MalformedPattern);
        },
    };
    let i25 = match expect_char(&cs, i24, ',') {
        Some(v) => v,
        None => {
            return Err(PatternError::MalformedPattern);
        },
    };
    let i26 = match expect_key(&cs, i25, "regexes") {
        Some(v) => v,
        None => {
            return Err(PatternError::MalformedPattern);
        },
    };
    let (regexes, i27) = match parse_string_array(&cs, i26) {
        Some(v) => v,
        None => {
            return Err(PatternError::MalformedPattern);
        },
    };
    let i28 = match expect_char(&cs, i27, ',') {
        Some(v) => v,
        None => {
            return Err(PatternError::MalformedPattern);
        },
    };
    let i29 = match expect_key(&cs, i28, "strings") {
        Some(v) => v,
        None => {
            return Err(PatternError::MalformedPattern);
        },
    };
    let (strings, i30) = match parse_token_array(&cs, i29) {
        Some(v) => v,
        None => {
            return Err(PatternError::MalformedPattern);
        },
    };
    let i31 = match expect_char(&cs, i30, ',') {
        Some(v) => v,
        None => {
            return Err(PatternError::MalformedPattern);
        },
    };
    let i32a = match expect_key(&cs, i31, "min_entropy") {
        Some(v) => v,
        None => {
            return Err(PatternError::MalformedPattern);
        },
    };
    let (min_entropy, i33) = match parse_u16(&cs, i32a) {
        Some(v) => v,
        None => {
            return Err(PatternError::MalformedPattern);
        },
    };
    let i34 = match expect_char(&cs, i33, ',') {
        Some(v) => v,
        None => {
            return Err(PatternError::MalformedPattern);
        },
    };
    let i35 = match expect_key(&cs, i34, "max_entropy") {
        Some(v) => v,
        None => {
            return Err(PatternError::MalformedPattern);
        },
    };
    let (max_entropy, i36) = match parse_u16(&cs, i35) {
        Some(v) => v,
        None => {
            return Err(PatternError::MalformedPattern);
        },
    };
    let i37 = match expect_lit(&cs, i36, "},") {
        Some(v) => v,
        None => {
            return Err(PatternError::MalformedPattern);
        },
    };
    let i38 = match expect_key(&cs, i37, "od") {
        Some(v) => v,
        None => {
            return Err(PatternError::MalformedPattern);
        },
    };
    let i39 = match expect_char(&cs, i38, '{') {
        Some(v) => v,
        None => {
            return Err(PatternError::MalformedPattern);
        },
    };
    let i40 = match expect_key(&cs, i39, "total_scanned_files") {
        Some(v) => v,
        None => {
            return Err(PatternError::MalformedPattern);
        },
    };
    let (total_scanned_files, i41) = match parse_usize(&cs, i40) {
        Some(v) => v,
        None => {
            return Err(PatternError::MalformedPattern);
        },
    };
    let i42 = match expect_lit(&cs, i41, "},") {
        Some(v) => v,
        None => {
            return Err(PatternError::MalformedPattern);
        },
    };
    let i43 = match expect_key(&cs, i42, "sd") {
        Some(v) => v,
        None => {
            return Err(PatternError::MalformedPattern);
        },
    };
    let i44 = match expect_char(&cs, i43, '{') {
        Some(v) => v,
        None => {
            return Err(PatternError::MalformedPattern);
        },
    };
    let i45 = match expect_key(&cs, i44, "scanned_by") {
        Some(v) => v,
        None => {
            return Err(PatternError::MalformedPattern);
        },
    };
    let (scanned_by, i46) = match parse_json_string(&cs, i45) {
        Some(v) => v,
        None => {
            return Err(PatternError::MalformedPattern);
        },
    };
    let i47 = match expect_char(&cs, i46, ',') {
        Some(v) => v,
        None => {
            return Err(PatternError::MalformedPattern);
        },
    };
    let i48 = match expect_key(&cs, i47, "scanned_by_email") {
        Some(v) => v,
        None => {
            return Err(PatternError::MalformedPattern);
        },
    };
    let (scanned_by_email, i49) = match parse_json_string(&cs, i48) {
        Some(v) => v,
        None => {
            return Err(PatternError::MalformedPattern);
        },
    };
    let i50 = match expect_char(&cs, i49, ',') {
        Some(v) => v,
        None => {
            return Err(PatternError::MalformedPattern);
        },
    };
    let i51 = match expect_key(&cs, i50, "scanned_on") {
        Some(v) => v,
        None => {
            return Err(PatternError::MalformedPattern);
        },
    };
    let (scanned_on, i52) = match parse_json_string(&cs, i51) {
        Some(v) => v,
        None => {
            return Err(PatternError::MalformedPattern);
        },
    };
    let i53 = match expect_char(&cs, i52, ',') {
        Some(v) => v,
        None => {
            return Err(PatternError::MalformedPattern);
        },
    };
    let i54 = match expect_key(&cs, i53, "refined_by") {
        Some(v) => v,
        None => {
            return Err(PatternError::MalformedPattern);
        },
    };
    let (refined_by, i55) = match parse_string_array(&cs, i54) {
        Some(v) => v,
        None => {
            return Err(PatternError::MalformedPattern);
        },
    };
    let i56 = match expect_char(&cs, i55, ',') {
        Some(v) => v,
        None => {
            return Err(PatternError::MalformedPattern);
        },
    };
    let i57 = match expect_key(&cs, i56, "refined_by_email") {
        Some(v) => v,
        None => {
            return Err(PatternError::MalformedPattern);
        },
    };
    let (refined_by_email, i58) = match parse_string_array(&cs, i57) {
        Some(v) => v,
        None => {
            return Err(PatternError::MalformedPattern);
        },
    };
    let i59 = match expect_lit(&cs, i58, "}}") {
        Some(v) => v,
        None => {
            return Err(PatternError::MalformedPattern);
        },
    };
    if i59 != cs.len() {
        return Err(PatternError::MalformedPattern);
    }
    let mut rk: usize = 0;
    while rk < regexes.len()
        invariant
            rk <= regexes@.len(),
            forall|m: int|
                0 <= m < rk ==> crate::regexes::regex_valid((#[trigger] regexes@[m])@),
        decreases regexes@.len() - rk,
    {
        if !crate::regexes::regex_compiles(regexes[rk].as_str()) {
            return Err(PatternError::MalformedPattern);
        }
        rk += 1;
    }
    let p = Pattern {
        type_data: PatternTypeData {
            uuid,
            name,
            description,
            known_extensions: extensions,
            known_mimetypes: mimetypes,
            file_format_url: url,
        },
        data: PatternData { sequences, regexes, strings, max_entropy, min_entropy },
        other_data: PatternOtherData { total_scanned_files },
        submitter_data: PatternSubmitterData {
            scanned_by,
            scanned_by_email,
            scanned_on,
            refined_by,
            refined_by_email,
        },
        max_points: 0,
    };
    if !validate_pattern_data(&p.data) {
        return Err(PatternError::MalformedPattern);
    }
    Ok(p)
}

/// Attempt to build a [`Pattern`] from a JSON string; same reader as
/// [`from_json_str`].
pub fn from_simd_json_str(input: &str) -> (r: Result<Pattern, PatternError>)
    ensures
        r is Ok ==> pattern_data_valid((r->Ok_0).data) && (r->Ok_0).max_points == 0,
        r is Ok ==> forall|k: int|
            0 <= k < (r->Ok_0).data.regexes@.len() ==> crate::regexes::regex_valid(
                (#[trigger] (r->Ok_0).data.regexes@[k])@,
            ),
{
    from_json_str(input)
}

} // verus!
