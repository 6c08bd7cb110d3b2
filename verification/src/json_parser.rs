//! The tree builder: scalar finalisation, the frame stack, snapshot
//! projection, and the streaming front ends.

use vstd::prelude::*;
use vstd::assert_seqs_equal;
use crate::text::{is_ws_char, ws_char, is_digit_char, digit_char, str_chars, chars_string};
use crate::json_value::{
    JVal, JNum, JsonValue, Number, JsonError, JErr, obj_view, arr_view, obj_put, obj_has_key,
    obj_set, obj_get, dup_items, dup_entries, obj_first_index_of,
};
use crate::scanner::{Event, EventV, Scanner, Step, StepV, ScanM, scan_next, LexState, frag_flag, outer_rank, lemma_scan_progress};
use crate::tag_finder::{TagEvent, TagEventV, TagFinder, TagM, route, events_view, set_has, set_has_exec, strs_view, lowered_view};
use crate::text::{lower_of, lowercase_str};

verus! {

pub open spec fn kw_true() -> Seq<char> {
    seq!['t', 'r', 'u', 'e']
}

pub open spec fn kw_false() -> Seq<char> {
    seq!['f', 'a', 'l', 's', 'e']
}

pub open spec fn kw_null() -> Seq<char> {
    seq!['n', 'u', 'l', 'l']
}

/// `s` is a non-empty prefix of `w`.
pub open spec fn is_kw_prefix(s: Seq<char>, w: Seq<char>) -> bool {
    1 <= s.len() <= w.len() && s == w.take(s.len() as int)
}

/// What a bare identifier denotes: any non-empty prefix of `true`,
/// `false` or `null` stands for that literal; anything else is no keyword.
pub open spec fn spec_parse_ident(s: Seq<char>) -> Option<JVal> {
    if is_kw_prefix(s, kw_true()) {
        Some(JVal::Bool(true))
    } else if is_kw_prefix(s, kw_false()) {
        Some(JVal::Bool(false))
    } else if is_kw_prefix(s, kw_null()) {
        Some(JVal::Null)
    } else {
        None
    }
}

/// Recognises the truncated keyword literals of the lenient dialect.
pub fn parse_ident(buf: &str) -> (r: Option<JsonValue>)
    ensures
        match r {
            Some(v) => spec_parse_ident(buf@) == Some(v@),
            None => spec_parse_ident(buf@) is None,
        },
{
    let v = str_chars(buf);
    let n = v.len();
    if n >= 1 && n <= 4 && kw_prefix_check(&v, &['t', 'r', 'u', 'e']) {
        proof {
            assert(buf@ =~= kw_true().take(n as int));
        }
        return Some(JsonValue::Boolean(true));
    }
    if n >= 1 && n <= 5 && kw_prefix_check(&v, &['f', 'a', 'l', 's', 'e']) {
        proof {
            assert(buf@ =~= kw_false().take(n as int));
            assert(!is_kw_prefix(buf@, kw_true()));
        }
        return Some(JsonValue::Boolean(false));
    }
    if n >= 1 && n <= 4 && kw_prefix_check(&v, &['n', 'u', 'l', 'l']) {
        proof {
            assert(buf@ =~= kw_null().take(n as int));
            assert(!is_kw_prefix(buf@, kw_true()));
            assert(!is_kw_prefix(buf@, kw_false()));
        }
        return Some(JsonValue::Null);
    }
    proof {
        if is_kw_prefix(buf@, kw_true()) {
            assert(buf@[0] == 't');
            assert(v@ =~= kw_true().take(n as int));
        }
        if is_kw_prefix(buf@, kw_false()) {
            assert(buf@[0] == 'f');
            assert(v@ =~= kw_false().take(n as int));
        }
        if is_kw_prefix(buf@, kw_null()) {
            assert(buf@[0] == 'n');
            assert(v@ =~= kw_null().take(n as int));
        }
    }
    None
}

/// Whether `v` agrees with `w` on every position of `v`.
#[verifier::loop_isolation(false)]
fn kw_prefix_check(v: &Vec<char>, w: &[char]) -> (r: bool)
    requires
        v@.len() <= w@.len(),
    ensures
        r == (v@ == w@.take(v@.len() as int)),
{
    let mut i: usize = 0;
    while i < v.len()
        invariant
            i <= v@.len(),
            forall|j: int| 0 <= j < i ==> v@[j] == w@[j],
        decreases v@.len() - i,
    {
        if v[i] != w[i] {
            return false;
        }
        i = i + 1;
    }
    proof {
        assert(v@ =~= w@.take(v@.len() as int));
    }
    true
}

/// Whether some character of `s` is not whitespace.
pub open spec fn has_word_char(s: Seq<char>) -> bool {
    exists|i: int| 0 <= i < s.len() && !is_ws_char(s[i])
}

/// Whitespace runs collapsed to single spaces, outer whitespace dropped:
/// the front character is kept if it is no whitespace; a whitespace
/// character becomes one space when a word character was emitted before
/// and another follows, and vanishes otherwise.
pub open spec fn squash_rec(s: Seq<char>, after_word: bool) -> Seq<char>
    decreases s.len(),
{
    if s.len() == 0 {
        Seq::empty()
    } else if !is_ws_char(s[0]) {
        seq![s[0]] + squash_rec(s.skip(1), true)
    } else if after_word && has_word_char(s.skip(1)) {
        seq![' '] + squash_rec(s.skip(1), false)
    } else {
        squash_rec(s.skip(1), after_word && has_word_char(s.skip(1)))
    }
}

pub open spec fn spec_squash_ws(s: Seq<char>) -> Seq<char> {
    squash_rec(s, false)
}

/// Collapses runs of whitespace to single spaces and trims the ends.
#[verifier::loop_isolation(false)]
pub fn squash_ws(s: &str) -> (r: String)
    ensures
        r@ == spec_squash_ws(s@),
{
    let v = str_chars(s);
    let mut out: Vec<char> = Vec::new();
    let mut i: usize = 0;
    let mut after_word: bool = false;
    let mut pending: bool = false;
    proof {
        assert(v@.skip(0) =~= v@);
        assert(Seq::<char>::empty() + Seq::<char>::empty() + squash_rec(v@, false) =~= squash_rec(
            v@,
            false,
        ));
    }
    while i < v.len()
        invariant
            i <= v@.len(),
            spec_squash_ws(v@) == out@ + (
                if pending && has_word_char(v@.skip(i as int)) {
                    seq![' ']
                } else {
                    Seq::<char>::empty()
                }
            ) + squash_rec(v@.skip(i as int), after_word && !pending),
            pending ==> after_word,
        decreases v@.len() - i,
    {
        let ghost rest = v@.skip(i as int);
        proof {
            assert(rest.skip(1) =~= v@.skip(i + 1 as int));
        }
        if ws_char(v[i]) {
            if after_word {
                pending = true;
            }
            proof {
                if !(after_word && !pending) {
                    assert(squash_rec(rest, false) == squash_rec(rest.skip(1), false && has_word_char(rest.skip(1))));
                }
                if has_word_char(v@.skip(i + 1 as int)) {
                    assert(has_word_char(rest)) by {
                        let w = choose|k: int|
                            0 <= k < rest.skip(1).len() && !is_ws_char(rest.skip(1)[k]);
                        assert(!is_ws_char(rest[w + 1]));
                    }
                }
                if has_word_char(rest) && !has_word_char(v@.skip(i + 1 as int)) {
                    assert(false) by {
                        let w = choose|k: int| 0 <= k < rest.len() && !is_ws_char(rest[k]);
                        assert(w != 0);
                        assert(!is_ws_char(rest.skip(1)[w - 1]));
                    }
                }
            }
        } else {
            if pending {
                out.push(' ');
                pending = false;
            }
            proof {
                assert(has_word_char(rest)) by {
                    assert(!is_ws_char(rest[0]));
                }
            }
            out.push(v[i]);
            after_word = true;
        }
        i = i + 1;
    }
    proof {
        assert(v@.skip(v@.len() as int) =~= Seq::<char>::empty());
        assert(!has_word_char(v@.skip(v@.len() as int)));
        assert(squash_rec(Seq::<char>::empty(), after_word && !pending) == Seq::<char>::empty());
        assert(spec_squash_ws(v@) == out@);
    }
    chars_string(out.as_slice())
}

pub open spec fn is_hex_char(c: char) -> bool {
    ('0' <= c && c <= '9') || ('a' <= c && c <= 'f') || ('A' <= c && c <= 'F')
}

/// The numeric value of a hexadecimal digit.
pub open spec fn hex_val(c: char) -> u32 {
    if '0' <= c && c <= '9' {
        (c as u32 - '0' as u32) as u32
    } else if 'a' <= c && c <= 'f' {
        (c as u32 - 'a' as u32 + 10) as u32
    } else {
        (c as u32 - 'A' as u32 + 10) as u32
    }
}

/// Executable test for [`is_hex_char`].
pub fn hex_char(c: char) -> (r: bool)
    ensures
        r == is_hex_char(c),
{
    ('0' <= c && c <= '9') || ('a' <= c && c <= 'f') || ('A' <= c && c <= 'F')
}

fn hex_char_val(c: char) -> (r: u32)
    requires
        is_hex_char(c),
    ensures
        r == hex_val(c),
        r < 16,
{
    if '0' <= c && c <= '9' {
        c as u32 - '0' as u32
    } else if 'a' <= c && c <= 'f' {
        c as u32 - 'a' as u32 + 10
    } else {
        c as u32 - 'A' as u32 + 10
    }
}

/// What a single-character escape denotes, if anything.
pub open spec fn esc_char(c: char) -> Option<char> {
    if c == '"' {
        Some('"')
    } else if c == '\\' {
        Some('\\')
    } else if c == '/' {
        Some('/')
    } else if c == 'b' {
        Some('\u{0008}')
    } else if c == 'f' {
        Some('\u{000C}')
    } else if c == 'n' {
        Some('\n')
    } else if c == 'r' {
        Some('\r')
    } else if c == 't' {
        Some('\t')
    } else {
        None
    }
}

/// A code unit names a Unicode scalar value (no surrogate).
pub open spec fn is_unicode_scalar(v: u32) -> bool {
    v < 0xD800 || (0xE000 <= v && v <= 0x10FFFF)
}

/// The value of the four hexadecimal digits at the front of `s`.
pub open spec fn hex4_val(s: Seq<char>) -> u32
    recommends
        s.len() >= 4,
{
    (4096 * hex_val(s[0]) + 256 * hex_val(s[1]) + 16 * hex_val(s[2]) + hex_val(s[3])) as u32
}

pub open spec fn hex4_ok(s: Seq<char>) -> bool {
    s.len() >= 4 && is_hex_char(s[0]) && is_hex_char(s[1]) && is_hex_char(s[2]) && is_hex_char(
        s[3],
    )
}

pub open spec fn opt_cons(c: char, t: Option<Seq<char>>) -> Option<Seq<char>> {
    match t {
        Some(u) => Some(seq![c] + u),
        None => None,
    }
}

/// Escape decoding: a backslash starts an escape of the set
/// `\" \\ \/ \b \f \n \r \t \uXXXX`; anything else fails. A `\uXXXX`
/// escape needs four hexadecimal digits naming a Unicode scalar.
pub open spec fn spec_unescape(s: Seq<char>) -> Option<Seq<char>>
    decreases s.len(),
{
    if s.len() == 0 {
        Some(Seq::empty())
    } else if s[0] != '\\' {
        opt_cons(s[0], spec_unescape(s.skip(1)))
    } else if s.len() == 1 {
        None
    } else if s[1] == 'u' {
        if s.len() >= 6 && hex4_ok(s.skip(2)) && is_unicode_scalar(hex4_val(s.skip(2))) {
            opt_cons(hex4_val(s.skip(2)) as char, spec_unescape(s.skip(6)))
        } else {
            None
        }
    } else {
        match esc_char(s[1]) {
            Some(e) => opt_cons(e, spec_unescape(s.skip(2))),
            None => None,
        }
    }
}

pub open spec fn opt_glue(o: Seq<char>, t: Option<Seq<char>>) -> Option<Seq<char>> {
    match t {
        Some(u) => Some(o + u),
        None => None,
    }
}

/// Relies on `char::from_u32`: every Unicode scalar value names a character.
#[verifier::external_body]
fn char_from_u32_checked(v: u32) -> (r: char)
    requires
        is_unicode_scalar(v),
    ensures
        r as u32 == v,
{
    char::from_u32(v).unwrap_or(' ')
}

/// Decodes the escape sequences of a collected string body.
#[verifier::loop_isolation(false)]
#[verifier::rlimit(60)]
#[verifier::spinoff_prover]
pub fn unescape(src: &str) -> (r: Result<String, JsonError>)
    ensures
        match r {
            Ok(t) => spec_unescape(src@) == Some(t@),
            Err(e) => spec_unescape(src@) is None && e == JsonError::InvalidEscape,
        },
{
    let v = str_chars(src);
    let n = v.len();
    let mut out: Vec<char> = Vec::new();
    let mut i: usize = 0;
    proof {
        assert(v@.skip(0) =~= v@);
    }
    while i < n
        invariant
            i <= n,
            n == v@.len(),
            spec_unescape(v@) == opt_glue(out@, spec_unescape(v@.skip(i as int))),
        decreases n - i,
    {
        let ghost rest = v@.skip(i as int);
        let c = v[i];
        if c != '\\' {
            out.push(c);
            i = i + 1;
            proof {
                assert(rest.skip(1) =~= v@.skip(i as int));
                assert(spec_unescape(rest) == opt_cons(c, spec_unescape(v@.skip(i as int))));
                if spec_unescape(v@.skip(i as int)) is Some {
                    assert(out@ + spec_unescape(v@.skip(i as int))->0 =~= out@.drop_last() + (
                    seq![c] + spec_unescape(v@.skip(i as int))->0));
                }
            }
        } else if n - i > 1 && v[i + 1] != 'u' {
            let e = v[i + 1];
            match esc_char_exec(e) {
                Some(d) => {
                    out.push(d);
                    i = i + 2;
                    proof {
                        assert(rest.skip(2) =~= v@.skip(i as int));
                        assert(spec_unescape(rest) == opt_cons(
                            d,
                            spec_unescape(v@.skip(i as int)),
                        ));
                        if spec_unescape(v@.skip(i as int)) is Some {
                            assert(out@ + spec_unescape(v@.skip(i as int))->0 =~= out@.drop_last()
                                + (seq![d] + spec_unescape(v@.skip(i as int))->0));
                        }
                    }
                },
                None => {
                    proof {
                        assert(spec_unescape(rest) is None);
                    }
                    return Err(JsonError::InvalidEscape);
                },
            }
        } else if n - i > 5 && v[i + 1] == 'u' && hex_char(v[i + 2]) && hex_char(v[i + 3])
            && hex_char(v[i + 4]) && hex_char(v[i + 5]) {
            let cp: u32 = 4096 * hex_char_val(v[i + 2]) + 256 * hex_char_val(v[i + 3]) + 16
                * hex_char_val(v[i + 4]) + hex_char_val(v[i + 5]);
            proof {
                assert(rest.skip(2) =~= v@.skip(i + 2 as int));
                assert(hex4_ok(rest.skip(2)));
                assert(hex4_val(rest.skip(2)) == cp);
            }
            if cp < 0xD800 || cp > 0xDFFF {
                let d = char_from_u32_checked(cp);
                proof {
                    vstd::utf8::char_u32_cast(d, cp);
                }
                out.push(d);
                i = i + 6;
                proof {
                    assert(rest.skip(6) =~= v@.skip(i as int));
                    assert(spec_unescape(rest) == opt_cons(d, spec_unescape(v@.skip(i as int))));
                    if spec_unescape(v@.skip(i as int)) is Some {
                        assert(out@ + spec_unescape(v@.skip(i as int))->0 =~= out@.drop_last() + (
                        seq![d] + spec_unescape(v@.skip(i as int))->0));
                    }
                }
            } else {
                proof {
                    assert(spec_unescape(rest) is None);
                }
                return Err(JsonError::InvalidEscape);
            }
        } else {
            proof {
                if n - i <= 1 {
                    assert(rest.len() == 1);
                    assert(spec_unescape(rest) is None);
                } else {
                    assert(rest[1] == 'u');
                    if rest.len() >= 6 {
                        assert(rest.skip(2) =~= v@.skip(i + 2 as int));
                        assert(!hex4_ok(rest.skip(2)));
                    }
                    assert(spec_unescape(rest) is None);
                }
            }
            return Err(JsonError::InvalidEscape);
        }
    }
    proof {
        assert(v@.skip(n as int) =~= Seq::<char>::empty());
        assert(spec_unescape(v@) == Some(out@));
    }
    Ok(chars_string(out.as_slice()))
}

/// The characters stripped from the tail of a collected number token:
/// delimiters the scanner may have included at streaming boundaries,
/// and dangling number punctuation.
pub open spec fn is_strip_char(c: char) -> bool {
    c == '}' || c == ',' || c == ']' || c == ' ' || c == '\n' || c == '\r' || c == '\t' || c == '-'
        || c == '+' || c == '.' || c == 'e' || c == 'E'
}

fn strip_char(c: char) -> (r: bool)
    ensures
        r == is_strip_char(c),
{
    c == '}' || c == ',' || c == ']' || c == ' ' || c == '\n' || c == '\r' || c == '\t' || c == '-'
        || c == '+' || c == '.' || c == 'e' || c == 'E'
}

/// The longest prefix that drops every trailing strip character.
pub open spec fn strip_trailing(s: Seq<char>) -> Seq<char>
    decreases s.len(),
{
    if s.len() > 0 && is_strip_char(s.last()) {
        strip_trailing(s.drop_last())
    } else {
        s
    }
}

/// A number whose integer part is missing is read as if it began with `0`:
/// `.5` as `0.5`, and `-.7` as `-0.7`.
pub open spec fn cook_number(s: Seq<char>) -> Seq<char> {
    if s.len() >= 1 && s[0] == '.' {
        seq!['0'] + s
    } else if s.len() >= 2 && (s[0] == '-' || s[0] == '+') && s[1] == '.' {
        seq![s[0], '0'] + s.skip(1)
    } else {
        s
    }
}

pub open spec fn has_float_marker(s: Seq<char>) -> bool {
    exists|i: int| 0 <= i < s.len() && (s[i] == '.' || s[i] == 'e' || s[i] == 'E')
}

/// The first position at or after `i` that does not hold a digit.
pub open spec fn digits_end(s: Seq<char>, i: int) -> int
    decreases s.len() - i,
{
    if i < 0 || i >= s.len() {
        i
    } else if is_digit_char(s[i]) {
        digits_end(s, i + 1)
    } else {
        i
    }
}

/// The decimal grammar a float literal must meet: an optional sign, then
/// either digits with an optional fraction, or a fraction alone, then an
/// optional exponent with at least one digit.
pub open spec fn is_float_lit(s: Seq<char>) -> bool {
    let b = if s.len() > 0 && (s[0] == '+' || s[0] == '-') {
        1int
    } else {
        0int
    };
    let a = digits_end(s, b);
    let pm = if a > b {
        if a < s.len() && s[a] == '.' {
            digits_end(s, a + 1)
        } else {
            a
        }
    } else {
        if a < s.len() && s[a] == '.' && digits_end(s, a + 1) > a + 1 {
            digits_end(s, a + 1)
        } else {
            -1int
        }
    };
    if pm < 0 {
        false
    } else if pm == s.len() {
        true
    } else if s[pm] == 'e' || s[pm] == 'E' {
        let es = if pm + 1 < s.len() && (s[pm + 1] == '+' || s[pm + 1] == '-') {
            pm + 2
        } else {
            pm + 1
        };
        digits_end(s, es) == s.len() && s.len() > es
    } else {
        false
    }
}

pub open spec fn all_digits(s: Seq<char>) -> bool {
    forall|i: int| 0 <= i < s.len() ==> is_digit_char(s[i])
}

/// The integer grammar: an optional sign, then at least one digit.
pub open spec fn is_int_lit(s: Seq<char>) -> bool {
    if s.len() == 0 {
        false
    } else if s[0] == '-' || s[0] == '+' {
        s.len() >= 2 && all_digits(s.skip(1))
    } else {
        all_digits(s)
    }
}

/// The value of a string of decimal digits.
pub open spec fn digits_val(s: Seq<char>) -> int
    decreases s.len(),
{
    if s.len() == 0 {
        0
    } else {
        digits_val(s.drop_last()) * 10 + (s.last() as u32 - '0' as u32)
    }
}

/// The signed value of an integer literal.
pub open spec fn int_lit_val(s: Seq<char>) -> int {
    if s.len() > 0 && s[0] == '-' {
        -digits_val(s.skip(1))
    } else if s.len() > 0 && s[0] == '+' {
        digits_val(s.skip(1))
    } else {
        digits_val(s)
    }
}

/// What finalising a number token yields: cook, strip, then read as a
/// float literal if a `.`, `e` or `E` remains and as a 64-bit integer
/// otherwise; the error carries the stripped text.
pub open spec fn spec_parse_number(raw: Seq<char>) -> Result<JNum, Seq<char>> {
    let t = strip_trailing(cook_number(raw));
    if has_float_marker(t) {
        if is_float_lit(t) {
            Ok(JNum::Float(t))
        } else {
            Err(t)
        }
    } else {
        if is_int_lit(t) && -0x8000_0000_0000_0000 <= int_lit_val(t) <= 0x7fff_ffff_ffff_ffff {
            Ok(JNum::Int(int_lit_val(t) as i64))
        } else {
            Err(t)
        }
    }
}

proof fn lemma_digits_val_bounds(s: Seq<char>)
    requires
        all_digits(s),
    ensures
        digits_val(s) >= 0,
    decreases s.len(),
{
    if s.len() > 0 {
        assert(all_digits(s.drop_last())) by {
            assert(forall|i: int| 0 <= i < s.len() - 1 ==> s.drop_last()[i] == s[i]);
        }
        lemma_digits_val_bounds(s.drop_last());
        assert(is_digit_char(s.last()));
    }
}

/// Appending digits never shrinks the value.
pub proof fn lemma_digits_val_prefix_pub(s: Seq<char>, k: int)
    requires
        0 <= k <= s.len(),
        all_digits(s),
    ensures
        digits_val(s.take(k)) <= digits_val(s),
{
    lemma_digits_val_prefix(s, k);
}

/// Appending digits never shrinks the value.
proof fn lemma_digits_val_prefix(s: Seq<char>, k: int)
    requires
        0 <= k <= s.len(),
        all_digits(s),
    ensures
        digits_val(s.take(k)) <= digits_val(s),
    decreases s.len() - k,
{
    assert(all_digits(s.take(k))) by {
        assert(forall|i: int| 0 <= i < k ==> s.take(k)[i] == s[i]);
    }
    if k < s.len() {
        lemma_digits_val_bounds(s.take(k));
        assert(s.take(k + 1).drop_last() =~= s.take(k));
        assert(is_digit_char(s[k]));
        assert(digits_val(s.take(k + 1)) == digits_val(s.take(k)) * 10 + (s.take(k + 1).last()
            as u32 - '0' as u32));
        lemma_digits_val_prefix(s, k + 1);
    } else {
        assert(s.take(k) =~= s);
    }
}

/// Reads a decimal integer literal as a 64-bit signed integer.
#[verifier::loop_isolation(false)]
fn parse_i64(v: &Vec<char>) -> (r: Option<i64>)
    ensures
        match r {
            Some(x) => is_int_lit(v@) && int_lit_val(v@) == x as int,
            None => !(is_int_lit(v@) && -0x8000_0000_0000_0000 <= int_lit_val(v@)
                <= 0x7fff_ffff_ffff_ffff),
        },
{
    let n = v.len();
    if n == 0 {
        return None;
    }
    let neg = v[0] == '-';
    let b: usize = if v[0] == '-' || v[0] == '+' {
        1
    } else {
        0
    };
    if n == b {
        return None;
    }
    let ghost body = v@.skip(b as int);
    let mut mag: u64 = 0;
    let mut i: usize = b;
    proof {
        assert(body.take(0) =~= Seq::<char>::empty());
    }
    while i < n
        invariant
            b <= i <= n,
            mag <= 0x8000_0000_0000_0000,
            forall|j: int| 0 <= j < i - b ==> is_digit_char(body[j]),
            mag == digits_val(body.take(i - b)),
        decreases n - i,
    {
        let c = v[i];
        if !digit_char(c) {
            proof {
                assert(body[i - b] == v@[i as int]);
                assert(!all_digits(body));
            }
            return None;
        }
        let d: u64 = (c as u32 - '0' as u32) as u64;
        if mag > 922337203685477580 || (mag == 922337203685477580 && d > 8) {
            proof {
                if is_int_lit(v@) {
                    assert(body =~= (if b == 1 {
                        v@.skip(1)
                    } else {
                        v@
                    }));
                    assert(all_digits(body));
                    assert(body.take(i - b + 1).drop_last() =~= body.take(i - b));
                    assert(digits_val(body.take(i - b + 1)) == mag * 10 + d);
                    assert(digits_val(body.take(i - b + 1)) > 0x8000_0000_0000_0000);
                    lemma_digits_val_prefix(body, i - b + 1);
                    assert(digits_val(body) > 0x8000_0000_0000_0000);
                    if v@[0] == '-' {
                        assert(int_lit_val(v@) < -0x8000_0000_0000_0000);
                    } else {
                        assert(int_lit_val(v@) > 0x7fff_ffff_ffff_ffff);
                    }
                }
            }
            return None;
        }
        proof {
            assert(body.take(i - b + 1).drop_last() =~= body.take(i - b));
        }
        mag = mag * 10 + d;
        i = i + 1;
    }
    proof {
        assert(body.take(n - b as int) =~= body);
        assert(all_digits(body));
        assert(body =~= (if b == 1 {
            v@.skip(1)
        } else {
            v@
        }));
        assert(is_int_lit(v@));
        assert(digits_val(body) == mag);
        assert(int_lit_val(v@) == (if neg {
            -digits_val(body)
        } else {
            digits_val(body)
        }));
        lemma_digits_val_bounds(body);
    }
    if neg {
        if mag == 0x8000_0000_0000_0000 {
            return Some(i64::MIN);
        }
        let m: i64 = mag as i64;
        return Some(-m);
    }
    if mag == 0x8000_0000_0000_0000 {
        proof {
            assert(int_lit_val(v@) > 0x7fff_ffff_ffff_ffff);
        }
        return None;
    }
    Some(mag as i64)
}

/// The first position at or after `i` in `v` that holds no digit.
#[verifier::loop_isolation(false)]
fn digits_end_exec(v: &Vec<char>, i: usize) -> (r: usize)
    requires
        i <= v@.len(),
    ensures
        r == digits_end(v@, i as int),
        i <= r <= v@.len(),
{
    let mut j = i;
    while j < v.len() && digit_char(v[j])
        invariant
            i <= j <= v@.len(),
            digits_end(v@, i as int) == digits_end(v@, j as int),
        decreases v@.len() - j,
    {
        j = j + 1;
    }
    j
}

/// Checks the float grammar.
fn check_float(v: &Vec<char>) -> (r: bool)
    ensures
        r == is_float_lit(v@),
{
    let n = v.len();
    let b: usize = if n > 0 && (v[0] == '+' || v[0] == '-') {
        1
    } else {
        0
    };
    if b > n {
        return false;
    }
    let a = digits_end_exec(v, b);
    let pm: usize;
    if a > b {
        if a < n && v[a] == '.' {
            pm = digits_end_exec(v, a + 1);
        } else {
            pm = a;
        }
    } else {
        if a < n && v[a] == '.' {
            let q = digits_end_exec(v, a + 1);
            if q > a + 1 {
                pm = q;
            } else {
                return false;
            }
        } else {
            return false;
        }
    }
    if pm == n {
        return true;
    }
    if v[pm] == 'e' || v[pm] == 'E' {
        let es: usize = if pm + 1 < n && (v[pm + 1] == '+' || v[pm + 1] == '-') {
            pm + 2
        } else {
            pm + 1
        };
        if es > n {
            return false;
        }
        let c = digits_end_exec(v, es);
        return c == n && n > es;
    }
    false
}

/// Finalises a collected number token.
#[verifier::loop_isolation(false)]
pub fn parse_number(raw: &str) -> (r: Result<Number, JsonError>)
    ensures
        match r {
            Ok(num) => spec_parse_number(raw@) == Ok::<JNum, Seq<char>>(num@),
            Err(e) => spec_parse_number(raw@) is Err && e@ == JErr::InvalidNumber(
                spec_parse_number(raw@)->Err_0,
            ),
        },
{
    let v = str_chars(raw);
    let mut t: Vec<char> = Vec::new();
    if v.len() >= 1 && v[0] == '.' {
        t.push('0');
        let mut k: usize = 0;
        while k < v.len()
            invariant
                k <= v@.len(),
                t@ == seq!['0'] + v@.take(k as int),
            decreases v@.len() - k,
        {
            t.push(v[k]);
            proof {
                assert(t@ =~= seq!['0'] + v@.take(k + 1 as int));
            }
            k = k + 1;
        }
        proof {
            assert(v@.take(v@.len() as int) =~= v@);
            assert(t@ == cook_number(v@));
        }
    } else if v.len() >= 2 && (v[0] == '-' || v[0] == '+') && v[1] == '.' {
        t.push(v[0]);
        t.push('0');
        let mut k: usize = 1;
        while k < v.len()
            invariant
                1 <= k <= v@.len(),
                t@ == seq![v@[0], '0'] + v@.subrange(1, k as int),
            decreases v@.len() - k,
        {
            t.push(v[k]);
            proof {
                assert(t@ =~= seq![v@[0], '0'] + v@.subrange(1, k + 1 as int));
            }
            k = k + 1;
        }
        proof {
            assert(v@.subrange(1, v@.len() as int) =~= v@.skip(1));
            assert(t@ == cook_number(v@));
        }
    } else {
        let mut k: usize = 0;
        while k < v.len()
            invariant
                k <= v@.len(),
                t@ == v@.take(k as int),
            decreases v@.len() - k,
        {
            t.push(v[k]);
            proof {
                assert(t@ =~= v@.take(k + 1 as int));
            }
            k = k + 1;
        }
        proof {
            assert(v@.take(v@.len() as int) =~= v@);
            assert(t@ == cook_number(v@));
        }
    }
    let ghost cooked = t@;
    while t.len() > 0 && strip_char(t[t.len() - 1])
        invariant
            strip_trailing(cooked) == strip_trailing(t@),
        decreases t@.len(),
    {
        proof {
            assert(t@.drop_last() =~= t@.take(t@.len() - 1));
        }
        t.pop();
    }
    proof {
        assert(strip_trailing(t@) == t@);
        assert(t@ == strip_trailing(cook_number(raw@)));
    }
    let mut marker: bool = false;
    let mut k: usize = 0;
    while k < t.len()
        invariant
            k <= t@.len(),
            marker == exists|i: int| 0 <= i < k && (t@[i] == '.' || t@[i] == 'e' || t@[i] == 'E'),
        decreases t@.len() - k,
    {
        if t[k] == '.' || t[k] == 'e' || t[k] == 'E' {
            marker = true;
        }
        k = k + 1;
    }
    proof {
        assert(marker == has_float_marker(t@));
    }
    if marker {
        if check_float(&t) {
            Ok(Number::Float(chars_string(t.as_slice())))
        } else {
            Err(JsonError::InvalidNumber(chars_string(t.as_slice())))
        }
    } else {
        match parse_i64(&t) {
            Some(x) => Ok(Number::Integer(x)),
            None => Err(JsonError::InvalidNumber(chars_string(t.as_slice()))),
        }
    }
}

/// One step of a path: an object key or an array index.
#[derive(Debug, PartialEq)]
pub enum PathItem {
    Key(String),
    Index(usize),
}

/// Mathematical model of a [`PathItem`].
pub enum PathItemV {
    Key(Seq<char>),
    Index(int),
}

impl View for PathItem {
    type V = PathItemV;

    open spec fn view(&self) -> PathItemV {
        match self {
            PathItem::Key(k) => PathItemV::Key(k@),
            PathItem::Index(i) => PathItemV::Index(*i as int),
        }
    }
}

/// The views of a path's items, in order.
pub open spec fn path_view(p: Seq<PathItem>) -> Seq<PathItemV> {
    Seq::new(
        p.len(),
        |i: int|
            if 0 <= i < p.len() {
                p[i]@
            } else {
                PathItemV::Index(0)
            },
    )
}

/// What a builder hands back: a partial root with the path of the scalar
/// being built, or a complete value.
#[derive(Debug, PartialEq)]
pub enum Snapshot {
    Partial { path: Vec<PathItem>, value: JsonValue },
    Complete(JsonValue),
}

/// Mathematical model of a [`Snapshot`].
pub enum SnapV {
    Partial { path: Seq<PathItemV>, value: JVal },
    Complete(JVal),
}

impl View for Snapshot {
    type V = SnapV;

    open spec fn view(&self) -> SnapV {
        match self {
            Snapshot::Partial { path, value } => SnapV::Partial {
                path: path_view(path@),
                value: value@,
            },
            Snapshot::Complete(v) => SnapV::Complete(v@),
        }
    }
}

/// A stack element: a container collecting children, or a scalar
/// accumulating its text.
#[derive(Debug, PartialEq)]
pub enum Frame {
    Obj { map: Vec<(String, JsonValue)>, last_key: Option<String> },
    Arr { vec: Vec<JsonValue> },
    Str { buf: String },
    Ident { buf: String },
    Num { buf: String },
}

/// Mathematical model of a [`Frame`].
pub enum FrameV {
    Obj { map: Seq<(Seq<char>, JVal)>, last_key: Option<Seq<char>> },
    Arr { vec: Seq<JVal> },
    Str { buf: Seq<char> },
    Ident { buf: Seq<char> },
    Num { buf: Seq<char> },
}

impl View for Frame {
    type V = FrameV;

    open spec fn view(&self) -> FrameV {
        match self {
            Frame::Obj { map, last_key } => FrameV::Obj {
                map: obj_view(map@),
                last_key: match last_key {
                    Some(k) => Some(k@),
                    None => None,
                },
            },
            Frame::Arr { vec } => FrameV::Arr { vec: arr_view(vec@) },
            Frame::Str { buf } => FrameV::Str { buf: buf@ },
            Frame::Ident { buf } => FrameV::Ident { buf: buf@ },
            Frame::Num { buf } => FrameV::Num { buf: buf@ },
        }
    }
}

/// The views of a stack's frames, from root to top.
pub open spec fn stack_view(s: Seq<Frame>) -> Seq<FrameV> {
    Seq::new(
        s.len(),
        |i: int|
            if 0 <= i < s.len() {
                s[i]@
            } else {
                FrameV::Arr { vec: Seq::empty() }
            },
    )
}

/// Mathematical model of a [`Builder`]: the frame stack, the path of the
/// scalar being built, and whether snapshots stream.
pub struct BuildM {
    pub stack: Seq<FrameV>,
    pub path: Seq<PathItemV>,
    pub streaming: bool,
}

/// Where the next value will live: under the parent array's next index,
/// or under the parent object's pending key; nowhere otherwise.
pub open spec fn scalar_path_push(stack: Seq<FrameV>, path: Seq<PathItemV>) -> Seq<PathItemV> {
    if stack.len() > 0 {
        match stack.last() {
            FrameV::Arr { vec } => path.push(PathItemV::Index(vec.len() as int)),
            FrameV::Obj { map, last_key } => match last_key {
                Some(k) => path.push(PathItemV::Key(k)),
                None => path,
            },
            _ => path,
        }
    } else {
        path
    }
}

/// A completed scalar leaves the path; a completed container already left
/// it when it was popped.
pub open spec fn pop_path_if_scalar(path: Seq<PathItemV>, val: JVal) -> Seq<PathItemV> {
    if !(val is Arr || val is Obj) && path.len() > 0 {
        path.drop_last()
    } else {
        path
    }
}

/// The snapshot of the live stack from frame `i` down: closed children
/// materialise as they stand, the active child recurses, an in-progress
/// scalar shows as its text, and a pending or partial key shows bound to
/// the empty string.
pub open spec fn project(stack: Seq<FrameV>, i: int) -> JVal
    decreases stack.len() - i,
{
    if i < 0 || i >= stack.len() {
        JVal::Null
    } else if i == stack.len() - 1 {
        match stack[i] {
            FrameV::Str { buf } => JVal::Str(buf),
            FrameV::Num { buf } => JVal::Str(buf),
            FrameV::Ident { buf } => JVal::Str(buf),
            FrameV::Obj { map, last_key } => match last_key {
                Some(k) => if obj_has_key(map, k) {
                    JVal::Obj(map)
                } else {
                    JVal::Obj(map.push((k, JVal::Str(Seq::empty()))))
                },
                None => JVal::Obj(map),
            },
            FrameV::Arr { vec } => JVal::Arr(vec),
        }
    } else {
        match stack[i] {
            FrameV::Obj { map, last_key } => match last_key {
                Some(k) => JVal::Obj(obj_put(map, k, project(stack, i + 1))),
                None => {
                    let key_snap = project(stack, i + 1);
                    match key_snap {
                        JVal::Str(ks) => if ks.len() > 0 {
                            JVal::Obj(obj_put(map, ks, JVal::Str(Seq::empty())))
                        } else {
                            JVal::Obj(map)
                        },
                        _ => JVal::Obj(map),
                    }
                },
            },
            FrameV::Arr { vec } => JVal::Arr(vec.push(project(stack, i + 1))),
            _ => JVal::Null,
        }
    }
}

/// Drops trailing commas and spaces: the residue of structural commas
/// emitted between chunked strings.
pub open spec fn strip_comma_space(s: Seq<char>) -> Seq<char>
    decreases s.len(),
{
    if s.len() > 0 && (s.last() == ',' || s.last() == ' ') {
        strip_comma_space(s.drop_last())
    } else {
        s
    }
}

/// Whitespace before `a`, commas from `a` to `b`, whitespace after `b`.
pub open spec fn comma_core(s: Seq<char>, a: int, b: int) -> bool {
    (forall|i: int| 0 <= i < a ==> is_ws_char(s[i])) && (forall|i: int| a <= i < b ==> s[i] == ',')
        && (forall|i: int| b <= i < s.len() ==> is_ws_char(s[i]))
}

/// The text is whitespace around a run of commas and nothing else: an
/// artefact of splitting, to be discarded silently.
pub open spec fn is_comma_artifact(s: Seq<char>) -> bool {
    exists|a: int, b: int|
        #![trigger comma_core(s, a, b)]
        0 <= a <= b <= s.len() && comma_core(s, a, b)
}

/// The previous array element ends in a structural comma: `, ` or `,`.
pub open spec fn ends_comma_ish(s: Seq<char>) -> bool {
    (s.len() >= 2 && s[s.len() - 2] == ',' && s.last() == ' ') || (s.len() >= 1 && s.last() == ',')
}

/// Installs a completed value in its parent and decides the snapshot:
/// under an object it binds to the pending key, under an array it is
/// appended — a string of nothing but commas and whitespace is dropped,
/// and at the root array a string glues onto a previous element that
/// ends in a structural comma — and at the root it opens the implicit
/// top-level array. Streaming mode snapshots the new root.
pub open spec fn finish_value(m: BuildM, val: JVal) -> Result<(BuildM, Option<SnapV>), JErr> {
    if m.stack.len() > 0 {
        match m.stack.last() {
            FrameV::Obj { map, last_key } => {
                match last_key {
                    Some(k) => {
                        let s2 = m.stack.update(
                            m.stack.len() - 1,
                            FrameV::Obj { map: obj_put(map, k, val), last_key: None },
                        );
                        finish_value_snap(m, s2, val)
                    },
                    None => Err(JErr::InvalidKey),
                }
            },
            FrameV::Arr { vec } => {
                if val is Str && is_comma_artifact(val->Str_0) {
                    Ok(
                        (
                            BuildM { path: pop_path_if_scalar(m.path, val), ..m },
                            None,
                        ),
                    )
                } else if val is Str && m.stack.len() == 1 && vec.len() > 0 && vec.last()
                    is Str && ends_comma_ish(vec.last()->Str_0) {
                    let merged = strip_comma_space(vec.last()->Str_0) + val->Str_0;
                    let s2 = m.stack.update(
                        m.stack.len() - 1,
                        FrameV::Arr { vec: vec.update(vec.len() - 1, JVal::Str(merged)) },
                    );
                    Ok(
                        (
                            BuildM {
                                stack: s2,
                                path: pop_path_if_scalar(m.path, val),
                                ..m
                            },
                            None,
                        ),
                    )
                } else {
                    let s2 = m.stack.update(
                        m.stack.len() - 1,
                        FrameV::Arr { vec: vec.push(val) },
                    );
                    finish_value_snap(m, s2, val)
                }
            },
            _ => Err(JErr::UnexpectedEof),
        }
    } else {
        let s2 = seq![FrameV::Arr { vec: seq![val] }];
        finish_value_snap(m, s2, val)
    }
}

/// The tail of [`finish_value`]: the path leaves the completed scalar,
/// and streaming mode projects the new root with an empty path.
pub open spec fn finish_value_snap(m: BuildM, s2: Seq<FrameV>, val: JVal) -> Result<
    (BuildM, Option<SnapV>),
    JErr,
> {
    let m2 = BuildM { stack: s2, path: pop_path_if_scalar(m.path, val), streaming: m.streaming };
    if m.streaming {
        Ok((m2, Some(SnapV::Partial { path: Seq::empty(), value: project(s2, 0) })))
    } else {
        Ok((m2, None))
    }
}

/// Opens a container frame: the path gains the child's position first.
pub open spec fn start_container(m: BuildM, fr: FrameV) -> BuildM {
    BuildM {
        stack: m.stack.push(fr),
        path: scalar_path_push(m.stack, m.path),
        streaming: m.streaming,
    }
}

/// Begins or extends the scalar frame for a chunked token; the partial
/// text streams as a snapshot at the scalar's own path.
pub open spec fn scalar_chunk(m: BuildM, kind: int, s: Seq<char>) -> (BuildM, Option<SnapV>) {
    let on_top = m.stack.len() > 0 && (if kind == 0 {
        m.stack.last() is Str
    } else if kind == 1 {
        m.stack.last() is Num
    } else {
        m.stack.last() is Ident
    });
    let m1 = if on_top {
        m
    } else {
        BuildM {
            stack: m.stack.push(
                if kind == 0 {
                    FrameV::Str { buf: Seq::empty() }
                } else if kind == 1 {
                    FrameV::Num { buf: Seq::empty() }
                } else {
                    FrameV::Ident { buf: Seq::empty() }
                },
            ),
            path: scalar_path_push(m.stack, m.path),
            streaming: m.streaming,
        }
    };
    let buf0 = if kind == 0 {
        m1.stack.last()->Str_buf
    } else if kind == 1 {
        m1.stack.last()->Num_buf
    } else {
        m1.stack.last()->Ident_buf
    };
    let buf2 = buf0 + s;
    let m2 = BuildM {
        stack: m1.stack.update(
            m1.stack.len() - 1,
            if kind == 0 {
                FrameV::Str { buf: buf2 }
            } else if kind == 1 {
                FrameV::Num { buf: buf2 }
            } else {
                FrameV::Ident { buf: buf2 }
            },
        ),
        ..m1
    };
    if m.streaming {
        (m2, Some(SnapV::Partial { path: m2.path, value: JVal::Str(buf2) }))
    } else {
        (m2, None)
    }
}

/// The builder's transition function: one scanner event advances the
/// stack and may yield a snapshot or an error.
pub open spec fn builder_step(m: BuildM, ev: EventV) -> Result<(BuildM, Option<SnapV>), JErr> {
    match ev {
        EventV::StartObj => Ok(
            (start_container(m, FrameV::Obj { map: Seq::empty(), last_key: None }), None),
        ),
        EventV::StartArr => Ok((start_container(m, FrameV::Arr { vec: Seq::empty() }), None)),
        EventV::EndObj | EventV::EndArr => {
            let bad = if ev is EndObj {
                JErr::UnexpectedChar('}')
            } else {
                JErr::UnexpectedChar(']')
            };
            if m.stack.len() == 0 {
                Err(bad)
            } else {
                match m.stack.last() {
                    FrameV::Obj { map, last_key } => {
                        let m1 = BuildM {
                            stack: m.stack.drop_last(),
                            path: if m.path.len() > 0 {
                                m.path.drop_last()
                            } else {
                                m.path
                            },
                            streaming: m.streaming,
                        };
                        finish_value(m1, JVal::Obj(map))
                    },
                    FrameV::Arr { vec } => {
                        let m1 = BuildM {
                            stack: m.stack.drop_last(),
                            path: if m.path.len() > 0 {
                                m.path.drop_last()
                            } else {
                                m.path
                            },
                            streaming: m.streaming,
                        };
                        finish_value(m1, JVal::Arr(vec))
                    },
                    _ => Err(bad),
                }
            }
        },
        EventV::StrChunk(s) => Ok(scalar_chunk(m, 0, s)),
        EventV::NumberChunk(s) => Ok(scalar_chunk(m, 1, s)),
        EventV::IdentChunk(s) => Ok(scalar_chunk(m, 2, s)),
        EventV::StrEnd(s) => {
            if m.stack.len() > 0 && m.stack.last() is Obj && m.stack.last()->Obj_last_key is None {
                match spec_unescape(s) {
                    Some(ck) => {
                        let old_map = m.stack.last()->Obj_map;
                        Ok(
                            (
                                BuildM {
                                    stack: m.stack.update(
                                        m.stack.len() - 1,
                                        FrameV::Obj { map: old_map, last_key: Some(ck) },
                                    ),
                                    ..m
                                },
                                None,
                            ),
                        )
                    },
                    None => Err(JErr::InvalidEscape),
                }
            } else if m.stack.len() > 0 && m.stack.last() is Str {
                let s2 = m.stack.last()->Str_buf + s;
                match spec_unescape(s2) {
                    Some(ck) => {
                        let m1 = BuildM { stack: m.stack.drop_last(), ..m };
                        if m1.stack.len() > 0 && m1.stack.last() is Obj
                            && m1.stack.last()->Obj_last_key is None {
                            let old_map = m1.stack.last()->Obj_map;
                            Ok(
                                (
                                    BuildM {
                                        stack: m1.stack.update(
                                            m1.stack.len() - 1,
                                            FrameV::Obj { map: old_map, last_key: Some(ck) },
                                        ),
                                        ..m1
                                    },
                                    None,
                                ),
                            )
                        } else {
                            finish_value(m1, JVal::Str(ck))
                        }
                    },
                    None => Err(JErr::InvalidEscape),
                }
            } else {
                match spec_unescape(s) {
                    Some(ck) => {
                        let m1 = BuildM { path: scalar_path_push(m.stack, m.path), ..m };
                        finish_value(m1, JVal::Str(ck))
                    },
                    None => Err(JErr::InvalidEscape),
                }
            }
        },
        EventV::NumberEnd(s) => {
            if m.stack.len() > 0 && m.stack.last() is Num {
                let buf2 = m.stack.last()->Num_buf + s;
                match spec_parse_number(buf2) {
                    Ok(num) => {
                        let m1 = BuildM { stack: m.stack.drop_last(), ..m };
                        finish_value(m1, JVal::Num(num))
                    },
                    Err(t) => Err(JErr::InvalidNumber(t)),
                }
            } else {
                match spec_parse_number(s) {
                    Ok(num) => {
                        let m1 = BuildM { path: scalar_path_push(m.stack, m.path), ..m };
                        finish_value(m1, JVal::Num(num))
                    },
                    Err(t) => Err(JErr::InvalidNumber(t)),
                }
            }
        },
        EventV::IdentEnd(s) => {
            if m.stack.len() > 0 && m.stack.last() is Ident {
                let txt = m.stack.last()->Ident_buf + s;
                let m1 = BuildM { stack: m.stack.drop_last(), ..m };
                match spec_parse_ident(txt) {
                    Some(lit) => finish_value(m1, lit),
                    None => {
                        if m1.stack.len() > 0 && m1.stack.last() is Obj
                            && m1.stack.last()->Obj_last_key is None {
                            let old_map = m1.stack.last()->Obj_map;
                            Ok(
                                (
                                    BuildM {
                                        stack: m1.stack.update(
                                            m1.stack.len() - 1,
                                            FrameV::Obj { map: old_map, last_key: Some(txt) },
                                        ),
                                        ..m1
                                    },
                                    None,
                                ),
                            )
                        } else {
                            finish_value(m1, JVal::Str(spec_squash_ws(txt)))
                        }
                    },
                }
            } else if m.stack.len() > 0 && m.stack.last() is Obj && m.stack.last()->Obj_last_key
                is None {
                if spec_parse_ident(s) is Some {
                    Err(JErr::InvalidKey)
                } else {
                    let old_map = m.stack.last()->Obj_map;
                    Ok(
                        (
                            BuildM {
                                stack: m.stack.update(
                                    m.stack.len() - 1,
                                    FrameV::Obj { map: old_map, last_key: Some(s) },
                                ),
                                ..m
                            },
                            None,
                        ),
                    )
                }
            } else {
                let val = match spec_parse_ident(s) {
                    Some(lit) => lit,
                    None => JVal::Str(spec_squash_ws(s)),
                };
                let m1 = BuildM { path: scalar_path_push(m.stack, m.path), ..m };
                finish_value(m1, val)
            }
        },
    }
}

/// What finalising the whole build yields: `Null` for nothing, the
/// snapshot of an unfinished stack when streaming (an error otherwise),
/// and the single remaining frame's value at depth one — an implicit
/// array of one element unwraps to that element, and a bare identifier
/// finalises to its literal, or to its whitespace-squashed text as a
/// string when it is no keyword.
pub open spec fn builder_finish(m: BuildM, streaming: bool) -> Result<JVal, JErr> {
    if m.stack.len() == 0 {
        Ok(JVal::Null)
    } else if m.stack.len() != 1 {
        if streaming {
            Ok(project(m.stack, 0))
        } else {
            Err(JErr::UnexpectedEof)
        }
    } else {
        match m.stack[0] {
            FrameV::Arr { vec } => if vec.len() == 1 {
                Ok(vec[0])
            } else {
                Ok(JVal::Arr(vec))
            },
            FrameV::Obj { map, last_key } => Ok(JVal::Obj(map)),
            FrameV::Str { buf } => match spec_unescape(buf) {
                Some(ck) => Ok(JVal::Str(ck)),
                None => Err(JErr::InvalidEscape),
            },
            FrameV::Num { buf } => match spec_parse_number(buf) {
                Ok(n) => Ok(JVal::Num(n)),
                Err(t) => Err(JErr::InvalidNumber(t)),
            },
            FrameV::Ident { buf } => match spec_parse_ident(buf) {
                Some(lit) => Ok(lit),
                None => Ok(JVal::Str(spec_squash_ws(buf))),
            },
        }
    }
}


/// The stack machine that assembles JSON values from scanner events and
/// projects partial snapshots.
#[derive(Debug)]
pub struct Builder {
    pub stack: Vec<Frame>,
    path: Vec<PathItem>,
    streaming: bool,
}

impl View for Builder {
    type V = BuildM;

    closed spec fn view(&self) -> BuildM {
        BuildM {
            stack: stack_view(self.stack@),
            path: path_view(self.path@),
            streaming: self.streaming,
        }
    }
}

/// A copy of a path with the same mathematical value.
#[verifier::loop_isolation(false)]
fn dup_path(p: &Vec<PathItem>) -> (r: Vec<PathItem>)
    ensures
        path_view(r@) == path_view(p@),
{
    let mut out: Vec<PathItem> = Vec::new();
    let mut j: usize = 0;
    while j < p.len()
        invariant
            j <= p@.len(),
            out@.len() == j,
            forall|k: int| 0 <= k < j ==> out@[k]@ == p@[k]@,
        decreases p@.len() - j,
    {
        let item = match &p[j] {
            PathItem::Key(k) => PathItem::Key(k.clone()),
            PathItem::Index(i) => PathItem::Index(*i),
        };
        out.push(item);
        j = j + 1;
    }
    proof {
        assert_seqs_equal!(path_view(out@), path_view(p@));
    }
    out
}

/// The snapshot of the live stack from frame `i` down; see [`project`].
#[verifier::loop_isolation(false)]
fn project_exec(stack: &Vec<Frame>, i: usize) -> (r: JsonValue)
    ensures
        r@ == project(stack_view(stack@), i as int),
    decreases stack@.len() - i,
{
    let ghost sv = stack_view(stack@);
    if i >= stack.len() {
        return JsonValue::Null;
    }
    if i == stack.len() - 1 {
        match &stack[i] {
            Frame::Str { buf } => JsonValue::String(buf.clone()),
            Frame::Num { buf } => JsonValue::String(buf.clone()),
            Frame::Ident { buf } => JsonValue::String(buf.clone()),
            Frame::Obj { map, last_key } => {
                let mut out = dup_entries(map);
                match last_key {
                    Some(k) => {
                        let present = match obj_get(map, k.as_str()) {
                            Some(_) => true,
                            None => false,
                        };
                        if !present {
                            out.push((k.clone(), JsonValue::String(String::new())));
                            proof {
                                assert_seqs_equal!(
                                    obj_view(out@),
                                    sv[i as int]->Obj_map.push((k@, JVal::Str(Seq::empty())))
                                );
                            }
                        }
                        JsonValue::Object(out)
                    },
                    None => JsonValue::Object(out),
                }
            },
            Frame::Arr { vec } => JsonValue::Array(dup_items(vec)),
        }
    } else {
        match &stack[i] {
            Frame::Obj { map, last_key } => {
                let child = project_exec(stack, i + 1);
                match last_key {
                    Some(k) => {
                        let mut out = dup_entries(map);
                        obj_set(&mut out, k.clone(), child);
                        JsonValue::Object(out)
                    },
                    None => {
                        let keep = match &child {
                            JsonValue::String(ks) => ks.unicode_len() > 0,
                            _ => false,
                        };
                        if keep {
                            let ks = match child {
                                JsonValue::String(ks) => ks,
                                _ => String::new(),
                            };
                            let mut out = dup_entries(map);
                            obj_set(&mut out, ks, JsonValue::String(String::new()));
                            JsonValue::Object(out)
                        } else {
                            JsonValue::Object(dup_entries(map))
                        }
                    },
                }
            },
            Frame::Arr { vec } => {
                let child = project_exec(stack, i + 1);
                let mut out = dup_items(vec);
                out.push(child);
                proof {
                    assert_seqs_equal!(
                        arr_view(out@),
                        sv[i as int]->Arr_vec.push(project(sv, i + 1))
                    );
                }
                JsonValue::Array(out)
            },
            _ => JsonValue::Null,
        }
    }
}

impl Builder {
    /// A builder with an empty stack and path.
    pub fn new(streaming: bool) -> (r: Builder)
        ensures
            r@ == (BuildM {
                stack: Seq::<FrameV>::empty(),
                path: Seq::<PathItemV>::empty(),
                streaming,
            }),
    {
        let r = Builder { stack: Vec::new(), path: Vec::new(), streaming };
        proof {
            assert_seqs_equal!(stack_view(r.stack@), Seq::<FrameV>::empty());
            assert_seqs_equal!(path_view(r.path@), Seq::<PathItemV>::empty());
        }
        r
    }

    /// Extends the path with the place the next scalar will occupy.
    fn push_path_for_scalar(&mut self)
        ensures
            final(self)@ == (BuildM {
                path: scalar_path_push(old(self)@.stack, old(self)@.path),
                ..old(self)@
            }),
    {
        let ghost m0 = self@;
        let n = self.stack.len();
        if n > 0 {
            match &self.stack[n - 1] {
                Frame::Arr { vec } => {
                    let item = PathItem::Index(vec.len());
                    self.path.push(item);
                    proof {
                        assert(m0.stack.last() == self.stack@[n - 1]@);
                        assert_seqs_equal!(path_view(self.path@), scalar_path_push(m0.stack, m0.path));
                    }
                },
                Frame::Obj { map, last_key } => {
                    match last_key {
                        Some(k) => {
                            let item = PathItem::Key(k.clone());
                            self.path.push(item);
                            proof {
                                assert(m0.stack.last() == self.stack@[n - 1]@);
                                assert_seqs_equal!(path_view(self.path@), scalar_path_push(m0.stack, m0.path));
                            }
                        },
                        None => {
                            proof {
                                assert(m0.stack.last() == self.stack@[n - 1]@);
                            }
                        },
                    }
                },
                _ => {
                    proof {
                        assert(m0.stack.last() == self.stack@[n - 1]@);
                    }
                },
            }
        }
    }

    /// The snapshot of the current root, if any structure exists.
    pub fn current_root_json_value_snapshot(&self) -> (r: Option<JsonValue>)
        ensures
            match r {
                Some(v) => self@.stack.len() > 0 && v@ == project(self@.stack, 0),
                None => self@.stack.len() == 0,
            },
    {
        if self.stack.len() == 0 {
            return None;
        }
        Some(project_exec(&self.stack, 0))
    }

    /// Finalises the build at input end; see [`builder_finish`].
    pub fn finish(&mut self, streaming: bool) -> (r: Result<JsonValue, JsonError>)
        ensures
            *final(self) == *old(self),
            match r {
                Ok(v) => builder_finish(old(self)@, streaming) == Ok::<JVal, JErr>(v@),
                Err(e) => builder_finish(old(self)@, streaming) == Err::<JVal, JErr>(e@),
            },
    {
        let n = self.stack.len();
        if n == 0 {
            return Ok(JsonValue::Null);
        }
        if n != 1 {
            if streaming {
                return Ok(project_exec(&self.stack, 0));
            }
            return Err(JsonError::UnexpectedEof);
        }
        proof {
            assert(self@.stack[0] == self.stack@[0]@);
        }
        match &self.stack[0] {
            Frame::Arr { vec } => {
                if vec.len() == 1 {
                    Ok(vec[0].dup())
                } else {
                    Ok(JsonValue::Array(dup_items(vec)))
                }
            },
            Frame::Obj { map, last_key } => Ok(JsonValue::Object(dup_entries(map))),
            Frame::Str { buf } => {
                match unescape(buf.as_str()) {
                    Ok(t) => Ok(JsonValue::String(t)),
                    Err(e) => Err(e),
                }
            },
            Frame::Num { buf } => {
                match parse_number(buf.as_str()) {
                    Ok(nv) => Ok(JsonValue::Number(nv)),
                    Err(e) => Err(e),
                }
            },
            Frame::Ident { buf } => {
                match parse_ident(buf.as_str()) {
                    Some(v) => Ok(v),
                    None => Ok(JsonValue::String(squash_ws(buf.as_str()))),
                }
            },
        }
    }
}


/// The view of an optional snapshot.
pub open spec fn osnap_view(o: Option<Snapshot>) -> Option<SnapV> {
    match o {
        Some(sn) => Some(sn@),
        None => None,
    }
}

/// Whether the text is whitespace around a run of commas; see
/// [`is_comma_artifact`].
#[verifier::loop_isolation(false)]
fn comma_artifact_check(s: &str) -> (r: bool)
    ensures
        r == is_comma_artifact(s@),
{
    let v = str_chars(s);
    let n = v.len();
    let mut a: usize = 0;
    while a < n && ws_char(v[a])
        invariant
            a <= n,
            forall|i: int| 0 <= i < a ==> is_ws_char(v@[i]),
        decreases n - a,
    {
        a = a + 1;
    }
    let mut b: usize = a;
    while b < n && v[b] == ','
        invariant
            a <= b <= n,
            forall|i: int| a <= i < b ==> v@[i] == ',',
        decreases n - b,
    {
        b = b + 1;
    }
    let mut k: usize = b;
    while k < n
        invariant
            b <= k <= n,
            forall|i: int| b <= i < k ==> is_ws_char(v@[i]),
        decreases n - k,
    {
        if !ws_char(v[k]) {
            proof {
                assert(!is_ws_char(v@[k as int]));
                assert(v@[k as int] != ',' || k > b);
                assert forall|x: int, y: int|
                    !(0 <= x <= y <= v@.len() && comma_core(v@, x, y)) by {
                    if 0 <= x <= y <= v@.len() && comma_core(v@, x, y) {
                        if x > a {
                            assert(is_ws_char(v@[a as int]) || v@[a as int] == ',' || a >= n);
                            if a < n && !is_ws_char(v@[a as int]) {
                                assert(a < x ==> is_ws_char(v@[a as int]));
                                assert(false);
                            }
                        }
                        if (k as int) < y {
                            if a < n && x <= a {
                                assert(v@[k as int] == ',') by {
                                    if x <= k < y {
                                    }
                                    if (k as int) < x {
                                        assert(is_ws_char(v@[k as int]));
                                    }
                                }
                                assert(b < n && v@[b as int] != ',');
                                assert(x <= b < y ==> v@[b as int] == ',');
                                assert((b as int) < x ==> is_ws_char(v@[b as int]));
                                assert(v@[b as int] == ',' || is_ws_char(v@[b as int]) || y <= b);
                                assert(y <= b ==> is_ws_char(v@[k as int]));
                                assert(false);
                            } else {
                                assert(a >= n || x > a);
                                assert(false);
                            }
                        } else {
                            assert(y <= k);
                            assert(is_ws_char(v@[k as int]));
                            assert(false);
                        }
                    }
                }
            }
            return false;
        }
        k = k + 1;
    }
    proof {
        assert(comma_core(v@, a as int, b as int));
        assert(is_comma_artifact(v@));
    }
    true
}

/// Whether the text ends in `, ` or `,`; see [`ends_comma_ish`].
fn ends_comma_ish_exec(s: &str) -> (r: bool)
    ensures
        r == ends_comma_ish(s@),
{
    let n = s.unicode_len();
    if n >= 2 && s.get_char(n - 2) == ',' && s.get_char(n - 1) == ' ' {
        return true;
    }
    if n >= 1 && s.get_char(n - 1) == ',' {
        return true;
    }
    false
}

/// Drops trailing commas and spaces; see [`strip_comma_space`].
#[verifier::loop_isolation(false)]
fn strip_comma_space_exec(s: &str) -> (r: Vec<char>)
    ensures
        r@ == strip_comma_space(s@),
{
    let mut v = str_chars(s);
    while v.len() > 0 && (v[v.len() - 1] == ',' || v[v.len() - 1] == ' ')
        invariant
            strip_comma_space(s@) == strip_comma_space(v@),
        decreases v@.len(),
    {
        proof {
            assert(v@.drop_last() =~= v@.subrange(0, v@.len() - 1));
        }
        v.pop();
    }
    v
}

impl Builder {
    /// Installs a completed value in its parent and decides the snapshot;
    /// see [`finish_value`]. After an error the builder's state is
    /// unspecified.
    fn finish_value_and_maybe_snapshot(&mut self, val: JsonValue) -> (r: Result<
        Option<Snapshot>,
        JsonError,
    >)
        ensures
            match finish_value(old(self)@, val@) {
                Ok((m2, os)) => r is Ok && final(self)@ == m2 && osnap_view(r->Ok_0) == os,
                Err(e) => r is Err && r->Err_0@ == e,
            },
    {
        let ghost m0 = self@;
        let ghost vv = val@;
        let is_cont = match &val {
            JsonValue::Object(_) => true,
            JsonValue::Array(_) => true,
            _ => false,
        };
        if self.stack.len() == 0 {
            let mut vec0: Vec<JsonValue> = Vec::new();
            vec0.push(val);
            self.stack.push(Frame::Arr { vec: vec0 });
            proof {
                assert(arr_view(vec0@) =~= seq![vv]);
                assert_seqs_equal!(self@.stack, seq![FrameV::Arr { vec: seq![vv] }]);
            }
        } else {
            let parent = self.stack.pop().unwrap();
            proof {
                assert(m0.stack.last() == parent@);
                assert_seqs_equal!(stack_view(self.stack@), m0.stack.drop_last());
            }
            match parent {
                Frame::Obj { mut map, last_key } => {
                    match last_key {
                        Some(k) => {
                            obj_set(&mut map, k, val);
                            self.stack.push(Frame::Obj { map, last_key: None });
                            proof {
                                assert_seqs_equal!(
                                    self@.stack,
                                    m0.stack.update(
                                        m0.stack.len() - 1,
                                        FrameV::Obj {
                                            map: obj_put(m0.stack.last()->Obj_map, k@, vv),
                                            last_key: None,
                                        },
                                    )
                                );
                            }
                        },
                        None => {
                            return Err(JsonError::InvalidKey);
                        },
                    }
                },
                Frame::Arr { mut vec } => {
                    let mut swallowed = false;
                    let mut merged = false;
                    match &val {
                        JsonValue::String(cur) => {
                            if comma_artifact_check(cur.as_str()) {
                                swallowed = true;
                            } else {
                                let prev_ends = if vec.len() > 0 {
                                    match &vec[vec.len() - 1] {
                                        JsonValue::String(prev) => ends_comma_ish_exec(
                                            prev.as_str(),
                                        ),
                                        _ => false,
                                    }
                                } else {
                                    false
                                };
                                if prev_ends && self.stack.len() == 0 {
                                    merged = true;
                                }
                            }
                        },
                        _ => {},
                    }
                    if swallowed {
                        self.stack.push(Frame::Arr { vec });
                        if !is_cont && self.path.len() > 0 {
                            self.path.pop();
                        }
                        proof {
                            assert_seqs_equal!(self@.stack, m0.stack);
                            assert_seqs_equal!(self@.path, pop_path_if_scalar(m0.path, vv));
                        }
                        return Ok(None);
                    }
                    if merged {
                        let ghost pv = arr_view(vec@).last()->Str_0;
                        let prev = vec.pop().unwrap();
                        let prev_s = match prev {
                            JsonValue::String(p) => p,
                            _ => String::new(),
                        };
                        let cur_s = match val {
                            JsonValue::String(c) => c,
                            _ => String::new(),
                        };
                        let mut glued = strip_comma_space_exec(prev_s.as_str());
                        let cur_v = str_chars(cur_s.as_str());
                        let mut q: usize = 0;
                        let ghost g0 = glued@;
                        while q < cur_v.len()
                            invariant
                                q <= cur_v@.len(),
                                glued@ == g0 + cur_v@.take(q as int),
                            decreases cur_v@.len() - q,
                        {
                            glued.push(cur_v[q]);
                            proof {
                                assert(glued@ =~= g0 + cur_v@.take(q + 1 as int));
                            }
                            q = q + 1;
                        }
                        proof {
                            assert(cur_v@.take(cur_v@.len() as int) =~= cur_v@);
                        }
                        vec.push(JsonValue::String(chars_string(glued.as_slice())));
                        self.stack.push(Frame::Arr { vec });
                        if !is_cont && self.path.len() > 0 {
                            self.path.pop();
                        }
                        proof {
                            let old_vec = m0.stack.last()->Arr_vec;
                            assert(arr_view(vec@) =~= old_vec.update(
                                old_vec.len() - 1,
                                JVal::Str(strip_comma_space(pv) + vv->Str_0),
                            ));
                            assert_seqs_equal!(
                                self@.stack,
                                m0.stack.update(
                                    m0.stack.len() - 1,
                                    FrameV::Arr {
                                        vec: old_vec.update(
                                            old_vec.len() - 1,
                                            JVal::Str(strip_comma_space(pv) + vv->Str_0),
                                        ),
                                    },
                                )
                            );
                            assert_seqs_equal!(self@.path, pop_path_if_scalar(m0.path, vv));
                        }
                        return Ok(None);
                    }
                    vec.push(val);
                    self.stack.push(Frame::Arr { vec });
                    proof {
                        let old_vec = m0.stack.last()->Arr_vec;
                        assert(arr_view(vec@) =~= old_vec.push(vv));
                        assert_seqs_equal!(
                            self@.stack,
                            m0.stack.update(
                                m0.stack.len() - 1,
                                FrameV::Arr { vec: old_vec.push(vv) },
                            )
                        );
                    }
                },
                other => {
                    return Err(JsonError::UnexpectedEof);
                },
            }
        }
        let ghost s2 = self@.stack;
        if self.streaming {
            let snap_val = project_exec(&self.stack, 0);
            if !is_cont && self.path.len() > 0 {
                self.path.pop();
            }
            proof {
                assert_seqs_equal!(self@.path, pop_path_if_scalar(m0.path, vv));
                assert_seqs_equal!(path_view(Seq::<PathItem>::empty()), Seq::<PathItemV>::empty());
            }
            let empty_path: Vec<PathItem> = Vec::new();
            proof {
                assert_seqs_equal!(path_view(empty_path@), Seq::<PathItemV>::empty());
            }
            return Ok(Some(Snapshot::Partial { path: empty_path, value: snap_val }));
        }
        if !is_cont && self.path.len() > 0 {
            self.path.pop();
        }
        proof {
            assert_seqs_equal!(self@.path, pop_path_if_scalar(m0.path, vv));
        }
        Ok(None)
    }
}


impl Builder {
    /// Feeds one scanner event; see [`builder_step`]. After an error the
    /// builder's state is unspecified.
    #[verifier::rlimit(100)]
    #[verifier::spinoff_prover]
    pub fn feed_event(&mut self, ev: Event) -> (r: Result<Option<Snapshot>, JsonError>)
        ensures
            match builder_step(old(self)@, ev@) {
                Ok((m2, os)) => r is Ok && final(self)@ == m2 && osnap_view(r->Ok_0) == os,
                Err(e) => r is Err && r->Err_0@ == e,
            },
    {
        let ghost m0 = self@;
        match ev {
            Event::StartObj => {
                self.push_path_for_scalar();
                self.stack.push(Frame::Obj { map: Vec::new(), last_key: None });
                proof {
                    assert(obj_view(Seq::<(String, JsonValue)>::empty())
                        =~= Seq::<(Seq<char>, JVal)>::empty());
                    assert_seqs_equal!(
                        self@.stack,
                        m0.stack.push(FrameV::Obj { map: Seq::empty(), last_key: None })
                    );
                }
                Ok(None)
            },
            Event::StartArr => {
                self.push_path_for_scalar();
                self.stack.push(Frame::Arr { vec: Vec::new() });
                proof {
                    assert(arr_view(Seq::<JsonValue>::empty()) =~= Seq::<JVal>::empty());
                    assert_seqs_equal!(
                        self@.stack,
                        m0.stack.push(FrameV::Arr { vec: Seq::empty() })
                    );
                }
                Ok(None)
            },
            Event::EndObj | Event::EndArr => {
                let bad: char = match &ev {
                    Event::EndObj => '}',
                    _ => ']',
                };
                if self.stack.len() == 0 {
                    return Err(JsonError::UnexpectedChar(bad));
                }
                let top = self.stack.pop().unwrap();
                proof {
                    assert(m0.stack.last() == top@);
                    assert_seqs_equal!(stack_view(self.stack@), m0.stack.drop_last());
                }
                match top {
                    Frame::Obj { map, last_key } => {
                        if self.path.len() > 0 {
                            proof {
                                assert(path_view(self.path@.drop_last()) =~= m0.path.drop_last());
                            }
                            self.path.pop();
                        }
                        self.finish_value_and_maybe_snapshot(JsonValue::Object(map))
                    },
                    Frame::Arr { vec } => {
                        if self.path.len() > 0 {
                            proof {
                                assert(path_view(self.path@.drop_last()) =~= m0.path.drop_last());
                            }
                            self.path.pop();
                        }
                        self.finish_value_and_maybe_snapshot(JsonValue::Array(vec))
                    },
                    _ => Err(JsonError::UnexpectedChar(bad)),
                }
            },
            Event::StrChunk(chunk) => {
                let on_top = self.stack.len() > 0 && (match &self.stack[self.stack.len() - 1] {
                    Frame::Str { .. } => true,
                    _ => false,
                });
                proof {
                    if self.stack@.len() > 0 {
                        assert(m0.stack.last() == self.stack@[self.stack@.len() - 1]@);
                    }
                }
                if !on_top {
                    self.push_path_for_scalar();
                    self.stack.push(Frame::Str { buf: String::new() });
                }
                let ghost m1 = self@;
                proof {
                    if !on_top {
                        assert_seqs_equal!(
                            m1.stack,
                            m0.stack.push(FrameV::Str { buf: Seq::empty() })
                        );
                    }
                }
                let top = self.stack.pop().unwrap();
                match top {
                    Frame::Str { mut buf } => {
                        buf.append(chunk.as_str());
                        let snap = if self.streaming {
                            Some(Snapshot::Partial {
                                path: dup_path(&self.path),
                                value: JsonValue::String(buf.clone()),
                            })
                        } else {
                            None
                        };
                        self.stack.push(Frame::Str { buf });
                        proof {
                            assert_seqs_equal!(
                                self@.stack,
                                m1.stack.update(
                                    m1.stack.len() - 1,
                                    FrameV::Str { buf: m1.stack.last()->Str_buf + chunk@ },
                                )
                            );
                        }
                        Ok(snap)
                    },
                    other => {
                        proof {
                            assert(false);
                        }
                        Err(JsonError::UnexpectedEof)
                    },
                }
            },
            Event::NumberChunk(chunk) => {
                let on_top = self.stack.len() > 0 && (match &self.stack[self.stack.len() - 1] {
                    Frame::Num { .. } => true,
                    _ => false,
                });
                proof {
                    if self.stack@.len() > 0 {
                        assert(m0.stack.last() == self.stack@[self.stack@.len() - 1]@);
                    }
                }
                if !on_top {
                    self.push_path_for_scalar();
                    self.stack.push(Frame::Num { buf: String::new() });
                }
                let ghost m1 = self@;
                proof {
                    if !on_top {
                        assert_seqs_equal!(
                            m1.stack,
                            m0.stack.push(FrameV::Num { buf: Seq::empty() })
                        );
                    }
                }
                let top = self.stack.pop().unwrap();
                match top {
                    Frame::Num { mut buf } => {
                        buf.append(chunk.as_str());
                        let snap = if self.streaming {
                            Some(Snapshot::Partial {
                                path: dup_path(&self.path),
                                value: JsonValue::String(buf.clone()),
                            })
                        } else {
                            None
                        };
                        self.stack.push(Frame::Num { buf });
                        proof {
                            assert_seqs_equal!(
                                self@.stack,
                                m1.stack.update(
                                    m1.stack.len() - 1,
                                    FrameV::Num { buf: m1.stack.last()->Num_buf + chunk@ },
                                )
                            );
                        }
                        Ok(snap)
                    },
                    other => {
                        proof {
                            assert(false);
                        }
                        Err(JsonError::UnexpectedEof)
                    },
                }
            },
            Event::IdentChunk(chunk) => {
                let on_top = self.stack.len() > 0 && (match &self.stack[self.stack.len() - 1] {
                    Frame::Ident { .. } => true,
                    _ => false,
                });
                proof {
                    if self.stack@.len() > 0 {
                        assert(m0.stack.last() == self.stack@[self.stack@.len() - 1]@);
                    }
                }
                if !on_top {
                    self.push_path_for_scalar();
                    self.stack.push(Frame::Ident { buf: String::new() });
                }
                let ghost m1 = self@;
                proof {
                    if !on_top {
                        assert_seqs_equal!(
                            m1.stack,
                            m0.stack.push(FrameV::Ident { buf: Seq::empty() })
                        );
                    }
                }
                let top = self.stack.pop().unwrap();
                match top {
                    Frame::Ident { mut buf } => {
                        buf.append(chunk.as_str());
                        let snap = if self.streaming {
                            Some(Snapshot::Partial {
                                path: dup_path(&self.path),
                                value: JsonValue::String(buf.clone()),
                            })
                        } else {
                            None
                        };
                        self.stack.push(Frame::Ident { buf });
                        proof {
                            assert_seqs_equal!(
                                self@.stack,
                                m1.stack.update(
                                    m1.stack.len() - 1,
                                    FrameV::Ident { buf: m1.stack.last()->Ident_buf + chunk@ },
                                )
                            );
                        }
                        Ok(snap)
                    },
                    other => {
                        proof {
                            assert(false);
                        }
                        Err(JsonError::UnexpectedEof)
                    },
                }
            },
            Event::StrEnd(chunk) => {
                let key_wanted = self.stack.len() > 0 && (match &self.stack[self.stack.len() - 1] {
                    Frame::Obj { last_key, .. } => last_key.is_none(),
                    _ => false,
                });
                proof {
                    if self.stack@.len() > 0 {
                        assert(m0.stack.last() == self.stack@[self.stack@.len() - 1]@);
                    }
                }
                if key_wanted {
                    let cooked = match unescape(chunk.as_str()) {
                        Ok(t) => t,
                        Err(e) => {
                            return Err(e);
                        },
                    };
                    let top = self.stack.pop().unwrap();
                    match top {
                        Frame::Obj { map, last_key } => {
                            self.stack.push(Frame::Obj { map, last_key: Some(cooked) });
                            proof {
                                assert_seqs_equal!(
                                    self@.stack,
                                    m0.stack.update(
                                        m0.stack.len() - 1,
                                        FrameV::Obj {
                                            map: m0.stack.last()->Obj_map,
                                            last_key: Some(spec_unescape(chunk@)->0),
                                        },
                                    )
                                );
                            }
                            Ok(None)
                        },
                        _ => {
                            proof {
                                assert(false);
                            }
                            Err(JsonError::UnexpectedEof)
                        },
                    }
                } else {
                    let str_on_top = self.stack.len() > 0 && (match &self.stack[self.stack.len()
                        - 1] {
                        Frame::Str { .. } => true,
                        _ => false,
                    });
                    if str_on_top {
                        let top = self.stack.pop().unwrap();
                        proof {
                            assert_seqs_equal!(stack_view(self.stack@), m0.stack.drop_last());
                        }
                        match top {
                            Frame::Str { mut buf } => {
                                buf.append(chunk.as_str());
                                let cooked = match unescape(buf.as_str()) {
                                    Ok(t) => t,
                                    Err(e) => {
                                        return Err(e);
                                    },
                                };
                                let inner_key = self.stack.len() > 0 && (match &self.stack[self
                                    .stack.len() - 1] {
                                    Frame::Obj { last_key, .. } => last_key.is_none(),
                                    _ => false,
                                });
                                proof {
                                    if self.stack@.len() > 0 {
                                        assert(m0.stack.drop_last().last() == self.stack@[self
                                            .stack@.len() - 1]@);
                                    }
                                }
                                if inner_key {
                                    let par = self.stack.pop().unwrap();
                                    match par {
                                        Frame::Obj { map, last_key } => {
                                            self.stack.push(
                                                Frame::Obj { map, last_key: Some(cooked) },
                                            );
                                            proof {
                                                let m1s = m0.stack.drop_last();
                                                assert_seqs_equal!(
                                                    self@.stack,
                                                    m1s.update(
                                                        m1s.len() - 1,
                                                        FrameV::Obj {
                                                            map: m1s.last()->Obj_map,
                                                            last_key: Some(
                                                                spec_unescape(
                                                                    m0.stack.last()->Str_buf
                                                                        + chunk@,
                                                                )->0,
                                                            ),
                                                        },
                                                    )
                                                );
                                            }
                                            Ok(None)
                                        },
                                        _ => {
                                            proof {
                                                assert(false);
                                            }
                                            Err(JsonError::UnexpectedEof)
                                        },
                                    }
                                } else {
                                    self.finish_value_and_maybe_snapshot(JsonValue::String(cooked))
                                }
                            },
                            _ => {
                                proof {
                                    assert(false);
                                }
                                Err(JsonError::UnexpectedEof)
                            },
                        }
                    } else {
                        let cooked = match unescape(chunk.as_str()) {
                            Ok(t) => t,
                            Err(e) => {
                                return Err(e);
                            },
                        };
                        self.push_path_for_scalar();
                        self.finish_value_and_maybe_snapshot(JsonValue::String(cooked))
                    }
                }
            },
            Event::NumberEnd(tok) => {
                let num_on_top = self.stack.len() > 0 && (match &self.stack[self.stack.len() - 1] {
                    Frame::Num { .. } => true,
                    _ => false,
                });
                proof {
                    if self.stack@.len() > 0 {
                        assert(m0.stack.last() == self.stack@[self.stack@.len() - 1]@);
                    }
                }
                if num_on_top {
                    let top = self.stack.pop().unwrap();
                    proof {
                        assert_seqs_equal!(stack_view(self.stack@), m0.stack.drop_last());
                    }
                    match top {
                        Frame::Num { mut buf } => {
                            buf.append(tok.as_str());
                            let num = match parse_number(buf.as_str()) {
                                Ok(nv) => nv,
                                Err(e) => {
                                    return Err(e);
                                },
                            };
                            self.finish_value_and_maybe_snapshot(JsonValue::Number(num))
                        },
                        _ => {
                            proof {
                                assert(false);
                            }
                            Err(JsonError::UnexpectedEof)
                        },
                    }
                } else {
                    let num = match parse_number(tok.as_str()) {
                        Ok(nv) => nv,
                        Err(e) => {
                            return Err(e);
                        },
                    };
                    self.push_path_for_scalar();
                    self.finish_value_and_maybe_snapshot(JsonValue::Number(num))
                }
            },
            Event::IdentEnd(tok) => {
                let ident_on_top = self.stack.len() > 0 && (match &self.stack[self.stack.len()
                    - 1] {
                    Frame::Ident { .. } => true,
                    _ => false,
                });
                proof {
                    if self.stack@.len() > 0 {
                        assert(m0.stack.last() == self.stack@[self.stack@.len() - 1]@);
                    }
                }
                if ident_on_top {
                    let top = self.stack.pop().unwrap();
                    proof {
                        assert_seqs_equal!(stack_view(self.stack@), m0.stack.drop_last());
                    }
                    match top {
                        Frame::Ident { mut buf } => {
                            buf.append(tok.as_str());
                            match parse_ident(buf.as_str()) {
                                Some(lit) => self.finish_value_and_maybe_snapshot(lit),
                                None => {
                                    let inner_key = self.stack.len() > 0 && (match &self.stack[self
                                        .stack.len() - 1] {
                                        Frame::Obj { last_key, .. } => last_key.is_none(),
                                        _ => false,
                                    });
                                    proof {
                                        if self.stack@.len() > 0 {
                                            assert(m0.stack.drop_last().last() == self.stack@[self
                                                .stack@.len() - 1]@);
                                        }
                                    }
                                    if inner_key {
                                        let par = self.stack.pop().unwrap();
                                        match par {
                                            Frame::Obj { map, last_key } => {
                                                self.stack.push(
                                                    Frame::Obj { map, last_key: Some(buf) },
                                                );
                                                proof {
                                                    let m1s = m0.stack.drop_last();
                                                    assert_seqs_equal!(
                                                        self@.stack,
                                                        m1s.update(
                                                            m1s.len() - 1,
                                                            FrameV::Obj {
                                                                map: m1s.last()->Obj_map,
                                                                last_key: Some(
                                                                    m0.stack.last()->Ident_buf
                                                                        + tok@,
                                                                ),
                                                            },
                                                        )
                                                    );
                                                }
                                                Ok(None)
                                            },
                                            _ => {
                                                proof {
                                                    assert(false);
                                                }
                                                Err(JsonError::UnexpectedEof)
                                            },
                                        }
                                    } else {
                                        let sq = squash_ws(buf.as_str());
                                        self.finish_value_and_maybe_snapshot(
                                            JsonValue::String(sq),
                                        )
                                    }
                                },
                            }
                        },
                        _ => {
                            proof {
                                assert(false);
                            }
                            Err(JsonError::UnexpectedEof)
                        },
                    }
                } else {
                    let key_wanted = self.stack.len() > 0 && (match &self.stack[self.stack.len()
                        - 1] {
                        Frame::Obj { last_key, .. } => last_key.is_none(),
                        _ => false,
                    });
                    if key_wanted {
                        let is_kw = match parse_ident(tok.as_str()) {
                            Some(_) => true,
                            None => false,
                        };
                        if is_kw {
                            return Err(JsonError::InvalidKey);
                        }
                        let top = self.stack.pop().unwrap();
                        match top {
                            Frame::Obj { map, last_key } => {
                                self.stack.push(Frame::Obj { map, last_key: Some(tok) });
                                proof {
                                    assert_seqs_equal!(
                                        self@.stack,
                                        m0.stack.update(
                                            m0.stack.len() - 1,
                                            FrameV::Obj {
                                                map: m0.stack.last()->Obj_map,
                                                last_key: Some(ev@->IdentEnd_0),
                                            },
                                        )
                                    );
                                }
                                Ok(None)
                            },
                            _ => {
                                proof {
                                    assert(false);
                                }
                                Err(JsonError::UnexpectedEof)
                            },
                        }
                    } else {
                        let val = match parse_ident(tok.as_str()) {
                            Some(v) => v,
                            None => JsonValue::String(squash_ws(tok.as_str())),
                        };
                        self.push_path_for_scalar();
                        self.finish_value_and_maybe_snapshot(val)
                    }
                }
            },
        }
    }
}


/// Drives the scanner and builder until a value can be handed back: an
/// event that completes or extends the root yields its snapshot, input
/// exhaustion finalises the build, and errors propagate. `None` means the
/// given recursion budget did not suffice.
pub open spec fn run_parse(sc: ScanM, b: BuildM, streaming: bool, fuel: nat) -> Option<
    Result<(ScanM, BuildM, JVal), JErr>,
>
    decreases fuel,
{
    if fuel == 0 {
        None
    } else {
        let (sc2, st) = scan_next(sc);
        match st {
            StepV::Event(ev) => match builder_step(b, ev) {
                Ok((b2, osnap)) => match osnap {
                    Some(sn) => match sn {
                        SnapV::Partial { path, value } => if b2.stack.len() > 0 {
                            Some(Ok((sc2, b2, project(b2.stack, 0))))
                        } else {
                            run_parse(sc2, b2, streaming, (fuel - 1) as nat)
                        },
                        SnapV::Complete(v) => Some(Ok((sc2, b2, v))),
                    },
                    None => run_parse(sc2, b2, streaming, (fuel - 1) as nat),
                },
                Err(e) => Some(Err(e)),
            },
            StepV::NeedMore => match builder_finish(b, streaming) {
                Ok(v) => Some(Ok((sc2, b, v))),
                Err(e) => Some(Err(e)),
            },
            StepV::Error(e) => Some(Err(e)),
        }
    }
}

/// One unfolding of [`run_parse`], for use at call sites.
pub proof fn lemma_run_parse_unfold(sc: ScanM, b: BuildM, streaming: bool, fuel: nat)
    requires
        fuel >= 1,
    ensures
        ({
            let (sc2, st) = scan_next(sc);
            match st {
                StepV::Event(ev) => match builder_step(b, ev) {
                    Ok((b2, osnap)) => match osnap {
                        Some(sn) => match sn {
                            SnapV::Partial { path, value } => if b2.stack.len() > 0 {
                                run_parse(sc, b, streaming, fuel) == Some(Ok::<
                                    (ScanM, BuildM, JVal),
                                    JErr,
                                >((sc2, b2, project(b2.stack, 0))))
                            } else {
                                run_parse(sc, b, streaming, fuel) == run_parse(
                                    sc2,
                                    b2,
                                    streaming,
                                    (fuel - 1) as nat,
                                )
                            },
                            SnapV::Complete(v) => run_parse(sc, b, streaming, fuel) == Some(Ok::<
                                (ScanM, BuildM, JVal),
                                JErr,
                            >((sc2, b2, v))),
                        },
                        None => run_parse(sc, b, streaming, fuel) == run_parse(
                            sc2,
                            b2,
                            streaming,
                            (fuel - 1) as nat,
                        ),
                    },
                    Err(e) => run_parse(sc, b, streaming, fuel) == Some(Err::<
                        (ScanM, BuildM, JVal),
                        JErr,
                    >(e)),
                },
                StepV::NeedMore => match builder_finish(b, streaming) {
                    Ok(v) => run_parse(sc, b, streaming, fuel) == Some(Ok::<
                        (ScanM, BuildM, JVal),
                        JErr,
                    >((sc2, b, v))),
                    Err(e) => run_parse(sc, b, streaming, fuel) == Some(Err::<
                        (ScanM, BuildM, JVal),
                        JErr,
                    >(e)),
                },
                StepV::Error(e) => run_parse(sc, b, streaming, fuel) == Some(Err::<
                    (ScanM, BuildM, JVal),
                    JErr,
                >(e)),
            }
        }),
{
}

/// More fuel never changes a settled run.
pub proof fn lemma_run_parse_mono(sc: ScanM, b: BuildM, streaming: bool, f1: nat, f2: nat)
    requires
        f1 <= f2,
        run_parse(sc, b, streaming, f1) is Some,
    ensures
        run_parse(sc, b, streaming, f2) == run_parse(sc, b, streaming, f1),
    decreases f1,
{
    let (sc2, st) = scan_next(sc);
    match st {
        StepV::Event(ev) => match builder_step(b, ev) {
            Ok((b2, osnap)) => match osnap {
                Some(sn) => match sn {
                    SnapV::Partial { path, value } => {
                        if b2.stack.len() == 0 {
                            lemma_run_parse_mono(sc2, b2, streaming, (f1 - 1) as nat, (f2 - 1) as nat);
                        }
                    },
                    SnapV::Complete(v) => {},
                },
                None => {
                    lemma_run_parse_mono(sc2, b2, streaming, (f1 - 1) as nat, (f2 - 1) as nat);
                },
            },
            Err(e) => {},
        },
        _ => {},
    }
}

/// Mathematical model of a [`Parser`]: the scanner's model, the
/// builder's model, and the streaming flag.
pub struct ParseM {
    pub scan: ScanM,
    pub build: BuildM,
    pub streaming: bool,
}

/// A scanner and builder pair driven in lock step.
#[derive(Debug)]
pub struct Parser {
    pub scanner: Scanner,
    pub builder: Builder,
    streaming: bool,
}

impl View for Parser {
    type V = ParseM;

    closed spec fn view(&self) -> ParseM {
        ParseM { scan: self.scanner@, build: self.builder@, streaming: self.streaming }
    }
}

impl Parser {
    /// The parser's invariant.
    pub closed spec fn wf(&self) -> bool {
        self.scanner.wf()
    }

    /// A parser with empty buffers. In streaming mode the builder
    /// snapshots the root after every completed value.
    pub fn new(streaming: bool) -> (r: Parser)
        ensures
            r.wf(),
            r@ == (ParseM {
                scan: ScanM {
                    text: Seq::<char>::empty(),
                    state: LexState::Outer,
                    frag: Seq::<char>::empty(),
                    wsp: Seq::<char>::empty(),
                },
                build: BuildM {
                    stack: Seq::<FrameV>::empty(),
                    path: Seq::<PathItemV>::empty(),
                    streaming,
                },
                streaming,
            }),
    {
        Parser { scanner: Scanner::new(), builder: Builder::new(streaming), streaming }
    }

    /// Feeds one chunk of text and returns the best current value; see
    /// [`run_parse`]. After an error the parser's state is unspecified.
    #[verifier::loop_isolation(false)]
    #[verifier::rlimit(100)]
    #[verifier::spinoff_prover]
    pub fn parse(&mut self, part: &str) -> (r: Result<JsonValue, JsonError>)
        requires
            old(self).wf(),
        ensures
            final(self)@.streaming == old(self)@.streaming,
            ({
                let sc0 = ScanM { text: old(self)@.scan.text + part@, ..old(self)@.scan };
                match r {
                    Ok(v) => exists|fuel: nat|
                        run_parse(sc0, old(self)@.build, old(self)@.streaming, fuel) == Some(Ok::<
                            (ScanM, BuildM, JVal),
                            JErr,
                        >((final(self)@.scan, final(self)@.build, v@))) && final(self).wf(),
                    Err(e) => exists|fuel: nat|
                        run_parse(sc0, old(self)@.build, old(self)@.streaming, fuel) == Some(Err::<
                            (ScanM, BuildM, JVal),
                            JErr,
                        >(e@)),
                }
            }),
    {
        self.scanner.push(part);
        let ghost sc0 = self.scanner@;
        let ghost b0 = self.builder@;
        let ghost strm = self.streaming;
        proof {
            assert(sc0 == (ScanM { text: old(self)@.scan.text + part@, ..old(self)@.scan }));
            assert(b0 == old(self)@.build);
            assert(strm == old(self)@.streaming);
        }
        let ghost mut steps: nat = 0nat;
        loop
            invariant
                self.scanner.wf(),
                self.streaming == strm,
                forall|f: nat|
                    run_parse(sc0, b0, strm, (f + steps) as nat) == run_parse(
                        self.scanner@,
                        self.builder@,
                        strm,
                        f,
                    ),
            decreases
                    self.scanner@.text.len(),
                    frag_flag(self.scanner@),
                    outer_rank(self.scanner@.state),
        {
            let ghost scpre = self.scanner@;
            let ghost bpre = self.builder@;
            proof {
                lemma_scan_progress(scpre);
            }
            let st = self.scanner.next_step();
            match st {
                Step::Event(ev) => {
                    let ghost evv = ev@;
                    match self.builder.feed_event(ev) {
                        Ok(osnap) => {
                            match osnap {
                                Some(snapshot) => {
                                    match snapshot {
                                        Snapshot::Partial { path, value } => {
                                            match self.builder.current_root_json_value_snapshot() {
                                                Some(root) => {
                                                    proof {
                                                        lemma_run_parse_unfold(scpre, bpre, strm, 1);
                                                        assert(run_parse(scpre, bpre, strm, 1)
                                                            == Some(Ok::<
                                                            (ScanM, BuildM, JVal),
                                                            JErr,
                                                        >(
                                                            (
                                                                self.scanner@,
                                                                self.builder@,
                                                                root@,
                                                            ),
                                                        )));
                                                        assert(run_parse(sc0, b0, strm, (1 + steps) as nat)
                                                            == run_parse(scpre, bpre, strm, 1nat));
                                                        assert(exists|fuel: nat|
                                                            run_parse(sc0, b0, strm, fuel) == Some(
                                                                Ok::<(ScanM, BuildM, JVal), JErr>(
                                                                    (self.scanner@, self.builder@, root@),
                                                                ),
                                                            ));
                                                    }
                                                    return Ok(root);
                                                },
                                                None => {
                                                    proof {
                                                        steps = (steps + 1) as nat;
                                                        assert forall|f: nat|
                                                            run_parse(sc0, b0, strm, (f + steps) as nat)
                                                                == run_parse(
                                                                self.scanner@,
                                                                self.builder@,
                                                                strm,
                                                                f,
                                                            ) by {
                                                            lemma_run_parse_unfold(scpre, bpre, strm, (f + 1) as nat);
                                                            assert(run_parse(
                                                                sc0,
                                                                b0,
                                                                strm,
                                                                ((f + 1) + (steps - 1)) as nat,
                                                            ) == run_parse(scpre, bpre, strm, (f + 1) as nat));
                                                        }
                                                    }
                                                },
                                            }
                                        },
                                        Snapshot::Complete(v) => {
                                            proof {
                                                lemma_run_parse_unfold(scpre, bpre, strm, 1);
                                                assert(run_parse(scpre, bpre, strm, 1) == Some(
                                                    Ok::<(ScanM, BuildM, JVal), JErr>(
                                                        (self.scanner@, self.builder@, v@),
                                                    ),
                                                ));
                                                assert(run_parse(sc0, b0, strm, (1 + steps) as nat)
                                                    == run_parse(scpre, bpre, strm, 1nat));
                                                assert(exists|fuel: nat|
                                                    run_parse(sc0, b0, strm, fuel) == Some(Ok::<
                                                        (ScanM, BuildM, JVal),
                                                        JErr,
                                                    >((self.scanner@, self.builder@, v@))));
                                            }
                                            return Ok(v);
                                        },
                                    }
                                },
                                None => {
                                    proof {
                                        steps = (steps + 1) as nat;
                                        assert forall|f: nat|
                                            run_parse(sc0, b0, strm, (f + steps) as nat) == run_parse(
                                                self.scanner@,
                                                self.builder@,
                                                strm,
                                                f,
                                            ) by {
                                            lemma_run_parse_unfold(scpre, bpre, strm, (f + 1) as nat);
                                            assert(run_parse(
                                                sc0,
                                                b0,
                                                strm,
                                                ((f + 1) + (steps - 1)) as nat,
                                            ) == run_parse(scpre, bpre, strm, (f + 1) as nat));
                                        }
                                    }
                                },
                            }
                        },
                        Err(e) => {
                            proof {
                                lemma_run_parse_unfold(scpre, bpre, strm, 1);
                                assert(run_parse(scpre, bpre, strm, 1) == Some(Err::<
                                    (ScanM, BuildM, JVal),
                                    JErr,
                                >(e@)));
                                assert(run_parse(sc0, b0, strm, (1 + steps) as nat)
                                    == run_parse(scpre, bpre, strm, 1nat));
                                assert(exists|fuel: nat|
                                    run_parse(sc0, b0, strm, fuel) == Some(Err::<
                                        (ScanM, BuildM, JVal),
                                        JErr,
                                    >(e@)));
                            }
                            return Err(e);
                        },
                    }
                },
                Step::NeedMore => {
                    match self.builder.finish(self.streaming) {
                        Ok(v) => {
                            proof {
                                lemma_run_parse_unfold(scpre, bpre, strm, 1);
                                assert(run_parse(scpre, bpre, strm, 1) == Some(Ok::<
                                    (ScanM, BuildM, JVal),
                                    JErr,
                                >((self.scanner@, self.builder@, v@))));
                                assert(run_parse(sc0, b0, strm, (1 + steps) as nat)
                                    == run_parse(scpre, bpre, strm, 1nat));
                                assert(exists|fuel: nat|
                                    run_parse(sc0, b0, strm, fuel) == Some(Ok::<
                                        (ScanM, BuildM, JVal),
                                        JErr,
                                    >((self.scanner@, self.builder@, v@))));
                            }
                            return Ok(v);
                        },
                        Err(e) => {
                            proof {
                                lemma_run_parse_unfold(scpre, bpre, strm, 1);
                                assert(run_parse(scpre, bpre, strm, 1) == Some(Err::<
                                    (ScanM, BuildM, JVal),
                                    JErr,
                                >(e@)));
                                assert(run_parse(sc0, b0, strm, (1 + steps) as nat)
                                    == run_parse(scpre, bpre, strm, 1nat));
                                assert(exists|fuel: nat|
                                    run_parse(sc0, b0, strm, fuel) == Some(Err::<
                                        (ScanM, BuildM, JVal),
                                        JErr,
                                    >(e@)));
                            }
                            return Err(e);
                        },
                    }
                },
                Step::Error(e) => {
                    proof {
                        lemma_run_parse_unfold(scpre, bpre, strm, 1);
                        assert(run_parse(scpre, bpre, strm, 1) == Some(Err::<
                            (ScanM, BuildM, JVal),
                            JErr,
                        >(e@)));
                        assert(run_parse(sc0, b0, strm, (1 + steps) as nat)
                            == run_parse(scpre, bpre, strm, 1nat));
                        assert(exists|fuel: nat|
                            run_parse(sc0, b0, strm, fuel) == Some(Err::<
                                (ScanM, BuildM, JVal),
                                JErr,
                            >(e@)));
                    }
                    return Err(e);
                },
            }
        }
    }
}

impl Default for Parser {
    /// The default parser does not stream.
    fn default() -> (r: Parser)
        ensures
            r.wf(),
            !r@.streaming,
    {
        Parser::new(false)
    }
}


/// Mathematical model of a [`StreamParser`]: the router's model, whether
/// payload is being captured, the inner parser's models, completion, and
/// the lowercased tag sets.
pub struct SPM {
    pub tagger: TagM,
    pub capturing: bool,
    pub inner_scan: ScanM,
    pub inner_build: BuildM,
    pub done: bool,
    pub wanted: Seq<Seq<char>>,
    pub ignored: Seq<Seq<char>>,
}

/// A scanner with nothing buffered, at the top level.
pub open spec fn fresh_scan() -> ScanM {
    ScanM {
        text: Seq::empty(),
        state: LexState::Outer,
        frag: Seq::empty(),
        wsp: Seq::empty(),
    }
}

/// A builder with an empty stack and path.
pub open spec fn fresh_build(streaming: bool) -> BuildM {
    BuildM { stack: Seq::empty(), path: Seq::empty(), streaming }
}

/// The implicit top-level array unwraps when it holds a single element.
pub open spec fn unwrap_single(v: JVal) -> JVal {
    match v {
        JVal::Arr(items) => if items.len() == 1 {
            items[0]
        } else {
            v
        },
        _ => v,
    }
}

/// The view of an optional value.
pub open spec fn opt_val_view(o: Option<JsonValue>) -> Option<JVal> {
    match o {
        Some(v) => Some(v@),
        None => None,
    }
}

/// Drains the scanner into the builder, dropping snapshots, until the
/// input is exhausted. `None` means the budget did not suffice.
pub open spec fn run_flush(sc: ScanM, b: BuildM, fuel: nat) -> Option<
    Result<(ScanM, BuildM), JErr>,
>
    decreases fuel,
{
    if fuel == 0 {
        None
    } else {
        let (sc2, st) = scan_next(sc);
        match st {
            StepV::Event(ev) => match builder_step(b, ev) {
                Ok((b2, osnap)) => run_flush(sc2, b2, (fuel - 1) as nat),
                Err(e) => Some(Err(e)),
            },
            StepV::NeedMore => Some(Ok((sc2, b))),
            StepV::Error(e) => Some(Err(e)),
        }
    }
}

/// One unfolding of [`run_flush`], for use at call sites.
pub proof fn lemma_run_flush_unfold(sc: ScanM, b: BuildM, fuel: nat)
    requires
        fuel >= 1,
    ensures
        ({
            let (sc2, st) = scan_next(sc);
            match st {
                StepV::Event(ev) => match builder_step(b, ev) {
                    Ok((b2, osnap)) => run_flush(sc, b, fuel) == run_flush(
                        sc2,
                        b2,
                        (fuel - 1) as nat,
                    ),
                    Err(e) => run_flush(sc, b, fuel) == Some(Err::<(ScanM, BuildM), JErr>(e)),
                },
                StepV::NeedMore => run_flush(sc, b, fuel) == Some(Ok::<(ScanM, BuildM), JErr>(
                    (sc2, b),
                )),
                StepV::Error(e) => run_flush(sc, b, fuel) == Some(Err::<(ScanM, BuildM), JErr>(e)),
            }
        }),
{
}

/// More fuel never changes a settled flush.
pub proof fn lemma_run_flush_mono(sc: ScanM, b: BuildM, f1: nat, f2: nat)
    requires
        f1 <= f2,
        run_flush(sc, b, f1) is Some,
    ensures
        run_flush(sc, b, f2) == run_flush(sc, b, f1),
    decreases f1,
{
    let (sc2, st) = scan_next(sc);
    match st {
        StepV::Event(ev) => match builder_step(b, ev) {
            Ok((b2, osnap)) => {
                lemma_run_flush_mono(sc2, b2, (f1 - 1) as nat, (f2 - 1) as nat);
            },
            Err(e) => {},
        },
        _ => {},
    }
}

/// Folds a list of routed events into the stream state: an opening tag
/// begins capture with a fresh inner parser, payload feeds the inner
/// parser and records its best value, and a wanted closing tag flushes,
/// finalises, and completes the stream. `None` means the budget did not
/// suffice.
pub open spec fn step_events(
    sp: SPM,
    evs: Seq<TagEventV>,
    latest: Option<JVal>,
    fuel: nat,
) -> Option<Result<(SPM, Option<JVal>), JErr>>
    decreases evs.len(),
{
    if evs.len() == 0 {
        Some(Ok((sp, latest)))
    } else {
        match evs[0] {
            TagEventV::Open(name) => {
                let cap = sp.wanted.len() == 0 || set_has(sp.wanted, lower_of(name));
                let sp2 = if cap {
                    SPM {
                        capturing: true,
                        inner_scan: fresh_scan(),
                        inner_build: fresh_build(true),
                        ..sp
                    }
                } else {
                    SPM { capturing: false, ..sp }
                };
                step_events(sp2, evs.skip(1), latest, fuel)
            },
            TagEventV::Bytes(payload) => {
                if sp.capturing {
                    match run_parse(
                        ScanM { text: sp.inner_scan.text + payload, ..sp.inner_scan },
                        sp.inner_build,
                        true,
                        fuel,
                    ) {
                        None => None,
                        Some(pr) => match pr {
                            Ok((sc2, b2, v)) => step_events(
                                SPM { inner_scan: sc2, inner_build: b2, ..sp },
                                evs.skip(1),
                                Some(unwrap_single(v)),
                                fuel,
                            ),
                            Err(e) => Some(Err(e)),
                        },
                    }
                } else {
                    step_events(sp, evs.skip(1), latest, fuel)
                }
            },
            TagEventV::Close(name) => {
                let is_w = sp.wanted.len() == 0 || set_has(sp.wanted, lower_of(name));
                if sp.capturing && is_w {
                    match run_flush(sp.inner_scan, sp.inner_build, fuel) {
                        None => None,
                        Some(fr) => match fr {
                            Ok((sc2, b2)) => match builder_finish(b2, true) {
                                Ok(v) => step_events(
                                    SPM {
                                        inner_scan: sc2,
                                        inner_build: b2,
                                        capturing: false,
                                        done: true,
                                        ..sp
                                    },
                                    evs.skip(1),
                                    Some(v),
                                    fuel,
                                ),
                                Err(e) => Some(Err(e)),
                            },
                            Err(e) => Some(Err(e)),
                        },
                    }
                } else {
                    step_events(sp, evs.skip(1), latest, fuel)
                }
            },
        }
    }
}

/// One unfolding of [`step_events`], for use at call sites.
pub proof fn lemma_step_events_unfold(
    sp: SPM,
    evs: Seq<TagEventV>,
    latest: Option<JVal>,
    fuel: nat,
)
    requires
        evs.len() > 0,
    ensures
        ({
            match evs[0] {
                TagEventV::Open(name) => {
                    let cap = sp.wanted.len() == 0 || set_has(sp.wanted, lower_of(name));
                    let sp2 = if cap {
                        SPM {
                            capturing: true,
                            inner_scan: fresh_scan(),
                            inner_build: fresh_build(true),
                            ..sp
                        }
                    } else {
                        SPM { capturing: false, ..sp }
                    };
                    step_events(sp, evs, latest, fuel) == step_events(sp2, evs.skip(1), latest, fuel)
                },
                TagEventV::Bytes(payload) => {
                    if sp.capturing {
                        match run_parse(
                            ScanM { text: sp.inner_scan.text + payload, ..sp.inner_scan },
                            sp.inner_build,
                            true,
                            fuel,
                        ) {
                            None => step_events(sp, evs, latest, fuel) is None,
                            Some(pr) => match pr {
                                Ok((sc2, b2, v)) => step_events(sp, evs, latest, fuel)
                                    == step_events(
                                    SPM { inner_scan: sc2, inner_build: b2, ..sp },
                                    evs.skip(1),
                                    Some(unwrap_single(v)),
                                    fuel,
                                ),
                                Err(e) => step_events(sp, evs, latest, fuel) == Some(Err::<
                                    (SPM, Option<JVal>),
                                    JErr,
                                >(e)),
                            },
                        }
                    } else {
                        step_events(sp, evs, latest, fuel) == step_events(
                            sp,
                            evs.skip(1),
                            latest,
                            fuel,
                        )
                    }
                },
                TagEventV::Close(name) => {
                    let is_w = sp.wanted.len() == 0 || set_has(sp.wanted, lower_of(name));
                    if sp.capturing && is_w {
                        match run_flush(sp.inner_scan, sp.inner_build, fuel) {
                            None => step_events(sp, evs, latest, fuel) is None,
                            Some(fr) => match fr {
                                Ok((sc2, b2)) => match builder_finish(b2, true) {
                                    Ok(v) => step_events(sp, evs, latest, fuel) == step_events(
                                        SPM {
                                            inner_scan: sc2,
                                            inner_build: b2,
                                            capturing: false,
                                            done: true,
                                            ..sp
                                        },
                                        evs.skip(1),
                                        Some(v),
                                        fuel,
                                    ),
                                    Err(e) => step_events(sp, evs, latest, fuel) == Some(Err::<
                                        (SPM, Option<JVal>),
                                        JErr,
                                    >(e)),
                                },
                                Err(e) => step_events(sp, evs, latest, fuel) == Some(Err::<
                                    (SPM, Option<JVal>),
                                    JErr,
                                >(e)),
                            },
                        }
                    } else {
                        step_events(sp, evs, latest, fuel) == step_events(
                            sp,
                            evs.skip(1),
                            latest,
                            fuel,
                        )
                    }
                },
            }
        }),
{
}


/// The builder's transition never changes the streaming flag.
pub proof fn lemma_builder_step_keeps_streaming(b: BuildM, ev: EventV)
    ensures
        builder_step(b, ev) matches Ok(res) ==> res.0.streaming == b.streaming,
{
}

/// A settled parse run never changes the builder's streaming flag.
pub proof fn lemma_run_parse_keeps(sc: ScanM, b: BuildM, streaming: bool, fuel: nat)
    ensures
        run_parse(sc, b, streaming, fuel) matches Some(Ok((sc2, b2, v))) ==> b2.streaming
            == b.streaming,
    decreases fuel,
{
    if fuel > 0 {
        let (sc2, st) = scan_next(sc);
        match st {
            StepV::Event(ev) => {
                lemma_builder_step_keeps_streaming(b, ev);
                match builder_step(b, ev) {
                    Ok((b2, osnap)) => {
                        lemma_run_parse_keeps(sc2, b2, streaming, (fuel - 1) as nat);
                    },
                    Err(e) => {},
                }
            },
            _ => {},
        }
    }
}

/// A settled flush never changes the builder's streaming flag.
pub proof fn lemma_run_flush_keeps(sc: ScanM, b: BuildM, fuel: nat)
    ensures
        run_flush(sc, b, fuel) matches Some(Ok((sc2, b2))) ==> b2.streaming == b.streaming,
    decreases fuel,
{
    if fuel > 0 {
        let (sc2, st) = scan_next(sc);
        match st {
            StepV::Event(ev) => {
                lemma_builder_step_keeps_streaming(b, ev);
                match builder_step(b, ev) {
                    Ok((b2, osnap)) => {
                        lemma_run_flush_keeps(sc2, b2, (fuel - 1) as nat);
                    },
                    Err(e) => {},
                }
            },
            _ => {},
        }
    }
}

/// The streaming front end: routes tagged chunks, parses captured
/// payload incrementally, and completes at the first close of a wanted
/// tag.
#[derive(Debug)]
pub struct StreamParser {
    tagger: TagFinder,
    capturing: bool,
    inner: Parser,
    done: bool,
    wanted: Vec<String>,
    ignored: Vec<String>,
}

impl View for StreamParser {
    type V = SPM;

    closed spec fn view(&self) -> SPM {
        SPM {
            tagger: self.tagger@,
            capturing: self.capturing,
            inner_scan: self.inner@.scan,
            inner_build: self.inner@.build,
            done: self.done,
            wanted: strs_view(self.wanted@),
            ignored: strs_view(self.ignored@),
        }
    }
}

impl StreamParser {
    /// The stream's invariant: the router is consistent and the inner
    /// parser streams.
    pub closed spec fn wf(&self) -> bool {
        self.tagger.wf() && self.inner.wf() && self.inner@.streaming
            && self.inner@.build.streaming
    }

    /// A stream that captures the given tags and suppresses the ignored
    /// ones, matched case-insensitively.
    pub fn new(tags: Vec<String>, ignored: Vec<String>) -> (r: StreamParser)
        ensures
            r.wf(),
            r@ == (SPM {
                tagger: TagM {
                    buf: Seq::<char>::empty(),
                    inside: false,
                    wanted: lowered_view(tags@),
                    ignored: lowered_view(ignored@),
                    inside_ignored: false,
                    depth: 0,
                },
                capturing: false,
                inner_scan: fresh_scan(),
                inner_build: fresh_build(true),
                done: false,
                wanted: lowered_view(tags@),
                ignored: lowered_view(ignored@),
            }),
    {
        let mut wl: Vec<String> = Vec::new();
        let mut i: usize = 0;
        while i < tags.len()
            invariant
                i <= tags@.len(),
                wl@.len() == i,
                forall|j: int| 0 <= j < i ==> wl@[j]@ == lower_of(tags@[j]@),
            decreases tags@.len() - i,
        {
            wl.push(lowercase_str(tags[i].as_str()));
            i = i + 1;
        }
        let mut il: Vec<String> = Vec::new();
        let mut k: usize = 0;
        while k < ignored.len()
            invariant
                k <= ignored@.len(),
                il@.len() == k,
                forall|j: int| 0 <= j < k ==> il@[j]@ == lower_of(ignored@[j]@),
            decreases ignored@.len() - k,
        {
            il.push(lowercase_str(ignored[k].as_str()));
            k = k + 1;
        }
        let r = StreamParser {
            tagger: TagFinder::new_with_filter(tags, ignored),
            capturing: false,
            inner: Parser::new(true),
            done: false,
            wanted: wl,
            ignored: il,
        };
        proof {
            assert(strs_view(r.wanted@) =~= lowered_view(tags@));
            assert(strs_view(r.ignored@) =~= lowered_view(ignored@));
        }
        r
    }

    /// Whether a wanted tag has closed: the stream then yields nothing
    /// more.
    pub fn is_done(&self) -> (r: bool)
        ensures
            r == self@.done,
    {
        self.done
    }
}

impl Default for StreamParser {
    /// The default stream captures every tag and ignores none.
    fn default() -> (r: StreamParser)
        ensures
            r.wf(),
            r@ == (SPM {
                tagger: TagM {
                    buf: Seq::<char>::empty(),
                    inside: false,
                    wanted: Seq::<Seq<char>>::empty(),
                    ignored: Seq::<Seq<char>>::empty(),
                    inside_ignored: false,
                    depth: 0,
                },
                capturing: false,
                inner_scan: fresh_scan(),
                inner_build: fresh_build(true),
                done: false,
                wanted: Seq::<Seq<char>>::empty(),
                ignored: Seq::<Seq<char>>::empty(),
            }),
    {
        let r = StreamParser::new(Vec::new(), Vec::new());
        proof {
            assert(lowered_view(Seq::<String>::empty()) =~= Seq::<Seq<char>>::empty());
        }
        r
    }
}


impl Parser {
    /// Drains buffered input into the builder, dropping snapshots; see
    /// [`run_flush`]. After an error the parser's state is unspecified.
    #[verifier::loop_isolation(false)]
    #[verifier::rlimit(100)]
    #[verifier::spinoff_prover]
    fn flush(&mut self) -> (r: Result<(), JsonError>)
        requires
            old(self).wf(),
        ensures
            match r {
                Ok(u) => exists|fuel: nat|
                    run_flush(old(self)@.scan, old(self)@.build, fuel) == Some(Ok::<
                        (ScanM, BuildM),
                        JErr,
                    >((final(self)@.scan, final(self)@.build))) && final(self).wf()
                        && final(self)@.streaming == old(self)@.streaming,
                Err(e) => exists|fuel: nat|
                    run_flush(old(self)@.scan, old(self)@.build, fuel) == Some(Err::<
                        (ScanM, BuildM),
                        JErr,
                    >(e@)),
            },
    {
        let ghost sc0 = self.scanner@;
        let ghost b0 = self.builder@;
        proof {
            assert(sc0 == old(self)@.scan);
            assert(b0 == old(self)@.build);
        }
        let ghost mut steps: nat = 0nat;
        loop
            invariant
                self.scanner.wf(),
                sc0 == old(self)@.scan,
                b0 == old(self)@.build,
                self@.streaming == old(self)@.streaming,
                forall|f: nat|
                    run_flush(sc0, b0, (f + steps) as nat) == run_flush(
                        self.scanner@,
                        self.builder@,
                        f,
                    ),
            decreases
                    self.scanner@.text.len(),
                    frag_flag(self.scanner@),
                    outer_rank(self.scanner@.state),
        {
            let ghost scpre = self.scanner@;
            let ghost bpre = self.builder@;
            proof {
                lemma_scan_progress(scpre);
            }
            let st = self.scanner.next_step();
            match st {
                Step::Event(ev) => {
                    match self.builder.feed_event(ev) {
                        Ok(osnap) => {
                            proof {
                                steps = (steps + 1) as nat;
                                assert forall|f: nat|
                                    run_flush(sc0, b0, (f + steps) as nat) == run_flush(
                                        self.scanner@,
                                        self.builder@,
                                        f,
                                    ) by {
                                    lemma_run_flush_unfold(scpre, bpre, (f + 1) as nat);
                                    assert(run_flush(sc0, b0, ((f + 1) + (steps - 1)) as nat)
                                        == run_flush(scpre, bpre, (f + 1) as nat));
                                }
                            }
                        },
                        Err(e) => {
                            proof {
                                lemma_run_flush_unfold(scpre, bpre, 1);
                                assert(run_flush(scpre, bpre, 1nat) == Some(Err::<
                                    (ScanM, BuildM),
                                    JErr,
                                >(e@)));
                                assert(run_flush(sc0, b0, (1 + steps) as nat) == run_flush(
                                    scpre,
                                    bpre,
                                    1nat,
                                ));
                                assert(run_flush(old(self)@.scan, old(self)@.build, (1
                                    + steps) as nat) == Some(Err::<(ScanM, BuildM), JErr>(e@)));
                                assert(exists|fuel: nat|
                                    run_flush(old(self)@.scan, old(self)@.build, fuel) == Some(
                                        Err::<(ScanM, BuildM), JErr>(e@),
                                    ));
                            }
                            return Err(e);
                        },
                    }
                },
                Step::NeedMore => {
                    proof {
                        lemma_run_flush_unfold(scpre, bpre, 1);
                        assert(run_flush(scpre, bpre, 1nat) == Some(Ok::<(ScanM, BuildM), JErr>(
                            (self.scanner@, self.builder@),
                        )));
                        assert(run_flush(sc0, b0, (1 + steps) as nat) == run_flush(
                            scpre,
                            bpre,
                            1nat,
                        ));
                        assert(run_flush(old(self)@.scan, old(self)@.build, (1 + steps) as nat)
                            == Some(Ok::<(ScanM, BuildM), JErr>((self.scanner@, self.builder@))));
                        assert(exists|fuel: nat|
                            run_flush(old(self)@.scan, old(self)@.build, fuel) == Some(Ok::<
                                (ScanM, BuildM),
                                JErr,
                            >((self.scanner@, self.builder@))));
                        assert((self.scanner@, self.builder@) == (final(self)@.scan, final(self)@.build));
                    }
                    return Ok(());
                },
                Step::Error(e) => {
                    proof {
                        lemma_run_flush_unfold(scpre, bpre, 1);
                        assert(run_flush(scpre, bpre, 1nat) == Some(Err::<(ScanM, BuildM), JErr>(
                            e@,
                        )));
                        assert(run_flush(sc0, b0, (1 + steps) as nat) == run_flush(
                            scpre,
                            bpre,
                            1nat,
                        ));
                        assert(run_flush(old(self)@.scan, old(self)@.build, (1 + steps) as nat)
                            == Some(Err::<(ScanM, BuildM), JErr>(e@)));
                        assert(exists|fuel: nat|
                            run_flush(old(self)@.scan, old(self)@.build, fuel) == Some(Err::<
                                (ScanM, BuildM),
                                JErr,
                            >(e@)));
                    }
                    return Err(e);
                },
            }
        }
    }
}


impl StreamParser {
    /// Feeds one chunk: routes it, parses captured payload, and returns
    /// the best current value, or `None` once the stream is done; see
    /// [`step_events`]. After an error the stream's state is unspecified.
    #[verifier::loop_isolation(false)]
    #[verifier::rlimit(100)]
    #[verifier::spinoff_prover]
    pub fn step(&mut self, chunk: &str) -> (r: Result<Option<JsonValue>, JsonError>)
        requires
            old(self).wf(),
        ensures
            old(self)@.done ==> r == Ok::<Option<JsonValue>, JsonError>(None::<JsonValue>)
                && *final(self) == *old(self),
            r is Ok ==> final(self).wf(),
            !old(self)@.done ==> ({
                let (tm2, evs) = route(
                    TagM { buf: old(self)@.tagger.buf + chunk@, ..old(self)@.tagger },
                );
                let sp0 = SPM { tagger: tm2, ..old(self)@ };
                match r {
                    Ok(latest) => exists|fuel: nat|
                        step_events(sp0, evs, None::<JVal>, fuel) == Some(Ok::<
                            (SPM, Option<JVal>),
                            JErr,
                        >((final(self)@, opt_val_view(latest)))),
                    Err(e) => exists|fuel: nat|
                        step_events(sp0, evs, None::<JVal>, fuel) == Some(Err::<
                            (SPM, Option<JVal>),
                            JErr,
                        >(e@)),
                }
            }),
    {
        if self.done {
            return Ok(None);
        }
        let events = self.tagger.push(chunk);
        let ghost evs = events_view(events@);
        let ghost sp0 = self@;
        proof {
            assert(sp0 == (SPM {
                tagger: route(
                    TagM { buf: old(self)@.tagger.buf + chunk@, ..old(self)@.tagger },
                ).0,
                ..old(self)@
            }));
            assert(evs == route(
                TagM { buf: old(self)@.tagger.buf + chunk@, ..old(self)@.tagger },
            ).1);
        }
        let mut latest: Option<JsonValue> = None;
        let ghost mut fmin: nat = 0nat;
        let mut i: usize = 0;
        proof {
            assert(evs.skip(0) =~= evs);
        }
        while i < events.len()
            invariant
                i <= events@.len(),
                self.wf(),
                forall|f: nat|
                    f >= fmin ==> step_events(sp0, evs, None::<JVal>, f) == step_events(
                        self@,
                        evs.skip(i as int),
                        opt_val_view(latest),
                        f,
                    ),
            decreases events@.len() - i,
        {
            let ghost spc = self@;
            let ghost lat0 = opt_val_view(latest);
            let ghost rest = evs.skip(i as int);
            proof {
                assert(rest.len() > 0);
                assert(rest[0] == events@[i as int]@);
                assert(rest.skip(1) =~= evs.skip(i + 1 as int));
            }
            match &events[i] {
                TagEvent::Open(name) => {
                    let low = lowercase_str(name.as_str());
                    let cap = self.wanted.len() == 0 || set_has_exec(&self.wanted, low.as_str());
                    if cap {
                        self.capturing = true;
                        self.inner = Parser::new(true);
                    } else {
                        self.capturing = false;
                    }
                    proof {
                        assert(self@ == (if cap {
                            SPM {
                                capturing: true,
                                inner_scan: fresh_scan(),
                                inner_build: fresh_build(true),
                                ..spc
                            }
                        } else {
                            SPM { capturing: false, ..spc }
                        }));
                        assert forall|f: nat|
                            f >= fmin implies step_events(sp0, evs, None::<JVal>, f)
                                == step_events(self@, evs.skip(i + 1 as int), lat0, f) by {
                            lemma_step_events_unfold(spc, rest, lat0, f);
                        }
                    }
                },
                TagEvent::Bytes(payload) => {
                    if self.capturing {
                        let ghost scp = self.inner@.scan;
                        let ghost bp = self.inner@.build;
                        let pr = self.inner.parse(payload.as_str());
                        match pr {
                            Ok(v) => {
                                let ghost vv = v@;
                                let ghost fp = choose|fp: nat|
                                    run_parse(
                                        ScanM { text: scp.text + payload@, ..scp },
                                        bp,
                                        true,
                                        fp,
                                    ) == Some(Ok::<(ScanM, BuildM, JVal), JErr>(
                                        (self.inner@.scan, self.inner@.build, vv),
                                    ));
                                let newv = match v {
                                    JsonValue::Array(mut arr) => {
                                        let ghost av = arr@;
                                        proof {
                                            assert(vv == JVal::Arr(arr_view(av)));
                                        }
                                        if arr.len() == 1 {
                                            let x = arr.pop().unwrap();
                                            proof {
                                                assert(x@ == arr_view(av)[0]);
                                                assert(unwrap_single(vv) == arr_view(av)[0]);
                                            }
                                            x
                                        } else {
                                            proof {
                                                assert(unwrap_single(vv) == vv);
                                                assert(JsonValue::Array(arr)@ == vv);
                                            }
                                            JsonValue::Array(arr)
                                        }
                                    },
                                    other => {
                                        proof {
                                            assert(other@ == vv);
                                            assert(unwrap_single(vv) == vv);
                                        }
                                        other
                                    },
                                };
                                proof {
                                    assert(newv@ == unwrap_single(vv));
                                }
                                latest = Some(newv);
                                proof {
                                    lemma_run_parse_keeps(
                                        ScanM { text: scp.text + payload@, ..scp },
                                        bp,
                                        true,
                                        fp,
                                    );
                                    if fp > fmin {
                                        fmin = fp;
                                    }
                                    assert forall|f: nat|
                                        f >= fmin implies step_events(sp0, evs, None::<JVal>, f)
                                            == step_events(
                                            self@,
                                            evs.skip(i + 1 as int),
                                            opt_val_view(latest),
                                            f,
                                        ) by {
                                        lemma_run_parse_mono(
                                            ScanM { text: scp.text + payload@, ..scp },
                                            bp,
                                            true,
                                            fp,
                                            f,
                                        );
                                        lemma_step_events_unfold(spc, rest, lat0, f);
                                    }
                                }
                            },
                            Err(e) => {
                                proof {
                                    let fp = choose|fp: nat|
                                        run_parse(
                                            ScanM { text: scp.text + payload@, ..scp },
                                            bp,
                                            true,
                                            fp,
                                        ) == Some(Err::<(ScanM, BuildM, JVal), JErr>(e@));
                                    let fw = if fp > fmin {
                                        fp
                                    } else {
                                        fmin
                                    };
                                    lemma_run_parse_mono(
                                        ScanM { text: scp.text + payload@, ..scp },
                                        bp,
                                        true,
                                        fp,
                                        fw,
                                    );
                                    lemma_step_events_unfold(spc, rest, lat0, fw);
                                    assert(step_events(sp0, evs, None::<JVal>, fw) == Some(Err::<
                                        (SPM, Option<JVal>),
                                        JErr,
                                    >(e@)));
                                }
                                return Err(e);
                            },
                        }
                    } else {
                        proof {
                            assert forall|f: nat|
                                f >= fmin implies step_events(sp0, evs, None::<JVal>, f)
                                    == step_events(self@, evs.skip(i + 1 as int), lat0, f) by {
                                lemma_step_events_unfold(spc, rest, lat0, f);
                            }
                        }
                    }
                },
                TagEvent::Close(name) => {
                    let low = lowercase_str(name.as_str());
                    let is_w = self.wanted.len() == 0 || set_has_exec(&self.wanted, low.as_str());
                    if self.capturing && is_w {
                        let ghost scp = self.inner@.scan;
                        let ghost bp = self.inner@.build;
                        match self.inner.flush() {
                            Ok(u) => {
                                let ghost ff = choose|ff: nat|
                                    run_flush(scp, bp, ff) == Some(Ok::<(ScanM, BuildM), JErr>(
                                        (self.inner@.scan, self.inner@.build),
                                    ));
                                proof {
                                    lemma_run_flush_keeps(scp, bp, ff);
                                }
                                match self.inner.builder.finish(true) {
                                    Ok(v) => {
                                        latest = Some(v);
                                        self.done = true;
                                        self.capturing = false;
                                        proof {
                                            if ff > fmin {
                                                fmin = ff;
                                            }
                                            assert forall|f: nat|
                                                f >= fmin implies step_events(
                                                    sp0,
                                                    evs,
                                                    None::<JVal>,
                                                    f,
                                                ) == step_events(
                                                    self@,
                                                    evs.skip(i + 1 as int),
                                                    opt_val_view(latest),
                                                    f,
                                                ) by {
                                                lemma_run_flush_mono(scp, bp, ff, f);
                                                lemma_step_events_unfold(spc, rest, lat0, f);
                                            }
                                        }
                                    },
                                    Err(e) => {
                                        proof {
                                            let fw = if ff > fmin {
                                                ff
                                            } else {
                                                fmin
                                            };
                                            lemma_run_flush_mono(scp, bp, ff, fw);
                                            lemma_step_events_unfold(spc, rest, lat0, fw);
                                            assert(step_events(sp0, evs, None::<JVal>, fw)
                                                == Some(Err::<(SPM, Option<JVal>), JErr>(e@)));
                                        }
                                        return Err(e);
                                    },
                                }
                            },
                            Err(e) => {
                                proof {
                                    let ff = choose|ff: nat|
                                        run_flush(scp, bp, ff) == Some(Err::<
                                            (ScanM, BuildM),
                                            JErr,
                                        >(e@));
                                    let fw = if ff > fmin {
                                        ff
                                    } else {
                                        fmin
                                    };
                                    lemma_run_flush_mono(scp, bp, ff, fw);
                                    lemma_step_events_unfold(spc, rest, lat0, fw);
                                    assert(step_events(sp0, evs, None::<JVal>, fw) == Some(Err::<
                                        (SPM, Option<JVal>),
                                        JErr,
                                    >(e@)));
                                }
                                return Err(e);
                            },
                        }
                    } else {
                        proof {
                            assert forall|f: nat|
                                f >= fmin implies step_events(sp0, evs, None::<JVal>, f)
                                    == step_events(self@, evs.skip(i + 1 as int), lat0, f) by {
                                lemma_step_events_unfold(spc, rest, lat0, f);
                            }
                        }
                    }
                },
            }
            i = i + 1;
        }
        proof {
            assert(evs.skip(evs.len() as int) =~= Seq::<TagEventV>::empty());
            assert(step_events(self@, evs.skip(i as int), opt_val_view(latest), fmin) == Some(
                Ok::<(SPM, Option<JVal>), JErr>((self@, opt_val_view(latest))),
            ));
            assert(step_events(sp0, evs, None::<JVal>, fmin) == Some(Ok::<
                (SPM, Option<JVal>),
                JErr,
            >((self@, opt_val_view(latest)))));
        }
        Ok(latest)
    }
}


/// Path invariance: every snapshot the builder emits either is a root
/// snapshot, whose path is empty, or carries the text of the scalar
/// being built as a string value.
pub proof fn lemma_snapshot_path_or_string(m: BuildM, ev: EventV)
    ensures
        builder_step(m, ev) matches Ok((m2, Some(sn))) ==> (sn matches SnapV::Partial {
            path,
            value,
        } ==> path.len() == 0 || value is Str),
{
}

/// One frame grew monotonically: an object keeps every key it had
/// (values may be overwritten), and an array keeps its length and all
/// elements but the last, which split-string coalescing may extend.
pub open spec fn frame_monotone(f1: FrameV, f2: FrameV) -> bool {
    match f1 {
        FrameV::Obj { map: m1, last_key: l1 } => match f2 {
            FrameV::Obj { map: m2, last_key: l2 } => forall|k: Seq<char>|
                obj_has_key(m1, k) ==> obj_has_key(m2, k),
            _ => true,
        },
        FrameV::Arr { vec: v1 } => match f2 {
            FrameV::Arr { vec: v2 } => v1.len() <= v2.len() && (forall|j: int|
                0 <= j < v1.len() - 1 ==> v2[j] == v1[j]),
            _ => true,
        },
        _ => true,
    }
}

/// Binding a key never removes another.
pub proof fn lemma_obj_put_keeps_keys(entries: Seq<(Seq<char>, JVal)>, key: Seq<char>, val: JVal)
    ensures
        forall|k: Seq<char>|
            obj_has_key(entries, k) ==> #[trigger] obj_has_key(obj_put(entries, key, val), k),
        obj_has_key(obj_put(entries, key, val), key),
{
    let put = obj_put(entries, key, val);
    if obj_has_key(entries, key) {
        crate::json_value::lemma_obj_first_index_of(entries, key);
        let i = obj_first_index_of(entries, key);
        assert(put[i].0 == key);
        assert(obj_has_key(put, key));
        assert forall|k: Seq<char>| obj_has_key(entries, k) implies #[trigger] obj_has_key(
            put,
            k,
        ) by {
            let j = choose|j: int| 0 <= j < entries.len() && entries[j].0 == k;
            if j == i {
                assert(put[i].0 == key && entries[i].0 == key);
                assert(k == key);
            } else {
                assert(put[j].0 == k);
            }
        }
    } else {
        assert(put[entries.len() as int].0 == key);
        assert(obj_has_key(put, key));
        assert forall|k: Seq<char>| obj_has_key(entries, k) implies #[trigger] obj_has_key(
            put,
            k,
        ) by {
            let j = choose|j: int| 0 <= j < entries.len() && entries[j].0 == k;
            assert(put[j].0 == k);
        }
    }
}

/// Whether the event completes and pops the top frame: a container
/// close, or a scalar end whose frame was on top.
pub open spec fn pops_top(m: BuildM, ev: EventV) -> bool {
    match ev {
        EventV::EndObj | EventV::EndArr => true,
        EventV::StrEnd(s) => !(m.stack.len() > 0 && m.stack.last() is Obj
            && m.stack.last()->Obj_last_key is None) && m.stack.len() > 0 && m.stack.last()
            is Str,
        EventV::NumberEnd(s) => m.stack.len() > 0 && m.stack.last() is Num,
        EventV::IdentEnd(s) => m.stack.len() > 0 && m.stack.last() is Ident,
        _ => false,
    }
}

/// Monotone completion: a builder step never removes a committed child.
/// For every frame that stays on the stack, an object frame keeps every
/// key it held, and an array frame keeps its committed elements, save
/// that split-string coalescing may extend the last one. A frame the
/// event pops turns into a value and leaves the stack.
pub proof fn lemma_feed_event_monotone(m: BuildM, ev: EventV)
    ensures
        builder_step(m, ev) matches Ok((m2, os)) ==> forall|i: int|
            0 <= i < m.stack.len() - (if pops_top(m, ev) {
                1int
            } else {
                0int
            }) && i < m2.stack.len() ==> #[trigger] frame_monotone(m.stack[i], m2.stack[i]),
{
    match builder_step(m, ev) {
        Ok((m2, os)) => {
            assert forall|i: int|
                0 <= i < m.stack.len() - (if pops_top(m, ev) {
                    1int
                } else {
                    0int
                }) && i < m2.stack.len() implies #[trigger] frame_monotone(
                m.stack[i],
                m2.stack[i],
            ) by {
                lemma_feed_event_monotone_at(m, ev, i);
            }
        },
        Err(e) => {},
    }
}

proof fn lemma_frame_monotone_refl(f: FrameV)
    ensures
        frame_monotone(f, f),
{
}

proof fn lemma_finish_value_monotone_at(m: BuildM, val: JVal, i: int)
    requires
        finish_value(m, val) is Ok,
        0 <= i < m.stack.len(),
        i < finish_value(m, val)->Ok_0.0.stack.len(),
    ensures
        frame_monotone(m.stack[i], finish_value(m, val)->Ok_0.0.stack[i]),
{
    let m2 = finish_value(m, val)->Ok_0.0;
    if i < m.stack.len() - 1 {
        assert(m2.stack[i] == m.stack[i]);
        lemma_frame_monotone_refl(m.stack[i]);
    } else {
        match m.stack.last() {
            FrameV::Obj { map, last_key } => {
                match last_key {
                    Some(k) => {
                        lemma_obj_put_keeps_keys(map, k, val);
                    },
                    None => {},
                }
            },
            FrameV::Arr { vec } => {},
            _ => {},
        }
    }
}

proof fn lemma_feed_event_monotone_at(m: BuildM, ev: EventV, i: int)
    requires
        builder_step(m, ev) is Ok,
        0 <= i < m.stack.len() - (if pops_top(m, ev) {
            1int
        } else {
            0int
        }),
        i < builder_step(m, ev)->Ok_0.0.stack.len(),
    ensures
        frame_monotone(m.stack[i], builder_step(m, ev)->Ok_0.0.stack[i]),
{
    let m2 = builder_step(m, ev)->Ok_0.0;
    let ghost goal = frame_monotone(m.stack[i], m2.stack[i]);
    lemma_frame_monotone_refl(m.stack[i]);
    match ev {
        EventV::StartObj | EventV::StartArr => {
            assert(goal);
        },
        EventV::EndObj | EventV::EndArr => {
            let m1 = BuildM {
                stack: m.stack.drop_last(),
                path: if m.path.len() > 0 {
                    m.path.drop_last()
                } else {
                    m.path
                },
                streaming: m.streaming,
            };
            if i < m1.stack.len() {
                match m.stack.last() {
                    FrameV::Obj { map, last_key } => {
                        assert(m1.stack[i] == m.stack[i]);
                        lemma_finish_value_monotone_at(m1, JVal::Obj(map), i);
                    },
                    FrameV::Arr { vec } => {
                        assert(m1.stack[i] == m.stack[i]);
                        lemma_finish_value_monotone_at(m1, JVal::Arr(vec), i);
                    },
                    _ => {},
                }
            }
            assert(goal);
        },
        EventV::StrChunk(s) => {
            assert(goal);
        },
        EventV::NumberChunk(s) => {
            assert(goal);
        },
        EventV::IdentChunk(s) => {
            assert(goal);
        },
        EventV::StrEnd(s) => {
            if m.stack.len() > 0 && m.stack.last() is Obj && m.stack.last()->Obj_last_key
                is None {
            } else if m.stack.len() > 0 && m.stack.last() is Str {
                let s2 = m.stack.last()->Str_buf + s;
                match spec_unescape(s2) {
                    Some(ck) => {
                        let m1 = BuildM { stack: m.stack.drop_last(), ..m };
                        if i < m1.stack.len() {
                            assert(m1.stack[i] == m.stack[i]);
                            if !(m1.stack.len() > 0 && m1.stack.last() is Obj
                                && m1.stack.last()->Obj_last_key is None) {
                                lemma_finish_value_monotone_at(m1, JVal::Str(ck), i);
                            }
                        }
                    },
                    None => {},
                }
            } else {
                match spec_unescape(s) {
                    Some(ck) => {
                        let m1 = BuildM { path: scalar_path_push(m.stack, m.path), ..m };
                        lemma_finish_value_monotone_at(m1, JVal::Str(ck), i);
                    },
                    None => {},
                }
            }
            assert(goal);
        },
        EventV::NumberEnd(s) => {
            if m.stack.len() > 0 && m.stack.last() is Num {
                let buf2 = m.stack.last()->Num_buf + s;
                match spec_parse_number(buf2) {
                    Ok(num) => {
                        let m1 = BuildM { stack: m.stack.drop_last(), ..m };
                        if i < m1.stack.len() {
                            assert(m1.stack[i] == m.stack[i]);
                            lemma_finish_value_monotone_at(m1, JVal::Num(num), i);
                        }
                    },
                    Err(t) => {},
                }
            } else {
                match spec_parse_number(s) {
                    Ok(num) => {
                        let m1 = BuildM { path: scalar_path_push(m.stack, m.path), ..m };
                        lemma_finish_value_monotone_at(m1, JVal::Num(num), i);
                    },
                    Err(t) => {},
                }
            }
            assert(goal);
        },
        EventV::IdentEnd(s) => {
            if m.stack.len() > 0 && m.stack.last() is Ident {
                let txt = m.stack.last()->Ident_buf + s;
                let m1 = BuildM { stack: m.stack.drop_last(), ..m };
                match spec_parse_ident(txt) {
                    Some(lit) => {
                        if i < m1.stack.len() {
                            assert(m1.stack[i] == m.stack[i]);
                            lemma_finish_value_monotone_at(m1, lit, i);
                        }
                    },
                    None => {
                        if i < m1.stack.len() {
                            assert(m1.stack[i] == m.stack[i]);
                            if !(m1.stack.len() > 0 && m1.stack.last() is Obj
                                && m1.stack.last()->Obj_last_key is None) {
                                lemma_finish_value_monotone_at(
                                    m1,
                                    JVal::Str(spec_squash_ws(txt)),
                                    i,
                                );
                            }
                        }
                    },
                }
            } else if m.stack.len() > 0 && m.stack.last() is Obj && m.stack.last()->Obj_last_key
                is None {
            } else {
                let val = match spec_parse_ident(s) {
                    Some(lit) => lit,
                    None => JVal::Str(spec_squash_ws(s)),
                };
                let m1 = BuildM { path: scalar_path_push(m.stack, m.path), ..m };
                lemma_finish_value_monotone_at(m1, val, i);
            }
            assert(goal);
        },
    }
}

fn esc_char_exec(c: char) -> (r: Option<char>)
    ensures
        r == esc_char(c),
{
    if c == '"' {
        Some('"')
    } else if c == '\\' {
        Some('\\')
    } else if c == '/' {
        Some('/')
    } else if c == 'b' {
        Some('\u{0008}')
    } else if c == 'f' {
        Some('\u{000C}')
    } else if c == 'n' {
        Some('\n')
    } else if c == 'r' {
        Some('\r')
    } else if c == 't' {
        Some('\t')
    } else {
        None
    }
}

} // verus!
