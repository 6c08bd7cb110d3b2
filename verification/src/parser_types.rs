//! Schema-side companion types and helpers: annotations carried by
//! schema definitions, and dot-path lookup into parsed JSON objects.

use vstd::prelude::*;
use crate::text::{is_ws_char, ws_char, str_chars};
use crate::json_value::{JVal, JsonValue, obj_view, obj_lookup, obj_get};
use crate::json_parser::{all_digits, digits_val};
use crate::tag_finder::{find_non_ws, find_char, lemma_find_char_range};

verus! {

/// An annotation attached to a schema item: guidance the surrounding
/// system renders into prompts.
#[derive(Debug)]
pub enum WAILAnnotation {
    Description(String),
    Example(String),
    Validation(String),
    Format(String),
    Important(String),
    Context(String),
    Default(String),
    Field { name: String, annotations: Vec<WAILAnnotation> },
}

/// The number of leading whitespace characters.
pub fn count_leading_whitespace(s: &str) -> (r: usize)
    ensures
        r == find_non_ws(s@, 0),
{
    let v = str_chars(s);
    let mut i: usize = 0;
    while i < v.len() && ws_char(v[i])
        invariant
            i <= v@.len(),
            find_non_ws(s@, 0) == find_non_ws(s@, i as int),
            v@ == s@,
        decreases v@.len() - i,
    {
        i = i + 1;
    }
    i
}

/// Trailing whitespace dropped.
pub open spec fn trim_end_ws(s: Seq<char>) -> Seq<char>
    decreases s.len(),
{
    if s.len() > 0 && is_ws_char(s.last()) {
        trim_end_ws(s.drop_last())
    } else {
        s
    }
}

/// Both ends trimmed of whitespace.
pub open spec fn trim_ws(s: Seq<char>) -> Seq<char> {
    trim_end_ws(s.skip(if find_non_ws(s, 0) < s.len() {
        find_non_ws(s, 0)
    } else {
        s.len() as int
    }))
}

/// The path split at dots, each component trimmed, empty components
/// dropped.
pub open spec fn dot_parts(s: Seq<char>) -> Seq<Seq<char>>
    decreases s.len(),
{
    let d = find_char(s, '.', 0);
    proof {
        lemma_find_char_range(s, '.', 0);
    }
    if d == s.len() {
        let t = trim_ws(s);
        if t.len() > 0 {
            seq![t]
        } else {
            Seq::empty()
        }
    } else {
        let t = trim_ws(s.take(d));
        let rest = dot_parts(s.skip(d + 1));
        if t.len() > 0 {
            seq![t] + rest
        } else {
            rest
        }
    }
}

/// A decimal array index: optional plus sign, then digits, within the
/// machine's index range.
pub open spec fn index_body(s: Seq<char>) -> Seq<char> {
    if s.len() > 0 && s[0] == '+' {
        s.skip(1)
    } else {
        s
    }
}

pub open spec fn is_index_lit(s: Seq<char>) -> bool {
    index_body(s).len() > 0 && all_digits(index_body(s)) && digits_val(index_body(s))
        <= usize::MAX
}

/// Resolution of a dot path inside a value: a key selects an object
/// entry, a numeric component indexes an array, and anything else fails.
pub open spec fn get_path(v: JVal, parts: Seq<Seq<char>>, i: int) -> Option<JVal>
    decreases parts.len() - i,
{
    if i < 0 || i >= parts.len() {
        Some(v)
    } else {
        match v {
            JVal::Obj(entries) => match obj_lookup(entries, parts[i]) {
                Some(c) => get_path(c, parts, i + 1),
                None => None,
            },
            JVal::Arr(items) => if is_index_lit(parts[i]) {
                if digits_val(index_body(parts[i])) < items.len() {
                    get_path(items[digits_val(index_body(parts[i])) as int], parts, i + 1)
                } else {
                    None
                }
            } else {
                None
            },
            _ => None,
        }
    }
}

/// What dot-path lookup yields on an object's entries: nothing for an
/// empty path, and the resolved value otherwise.
pub open spec fn spec_get_nested(entries: Seq<(Seq<char>, JVal)>, path: Seq<char>) -> Option<
    JVal,
> {
    if dot_parts(path).len() == 0 {
        None
    } else {
        get_path(JVal::Obj(entries), dot_parts(path), 0)
    }
}

/// Reads a decimal index.
#[verifier::loop_isolation(false)]
fn parse_index(v: &Vec<char>) -> (r: Option<usize>)
    ensures
        match r {
            Some(x) => is_index_lit(v@) && x == digits_val(index_body(v@)),
            None => !is_index_lit(v@),
        },
{
    let n = v.len();
    let b: usize = if n > 0 && v[0] == '+' {
        1
    } else {
        0
    };
    let ghost body = index_body(v@);
    proof {
        assert(body =~= v@.skip(b as int));
    }
    if n == b {
        return None;
    }
    let mut acc: usize = 0;
    let mut i: usize = b;
    proof {
        assert(body.take(0) =~= Seq::<char>::empty());
    }
    while i < n
        invariant
            b <= i <= n,
            forall|j: int| 0 <= j < i - b ==> crate::text::is_digit_char(body[j]),
            acc == digits_val(body.take(i - b)),
        decreases n - i,
    {
        let c = v[i];
        if !crate::text::digit_char(c) {
            proof {
                assert(body[i - b] == v@[i as int]);
                assert(!all_digits(body));
            }
            return None;
        }
        let d: usize = (c as u32 - '0' as u32) as usize;
        if acc > usize::MAX / 10 || (acc == usize::MAX / 10 && d > usize::MAX % 10) {
            proof {
                assert(body.take(i - b + 1).drop_last() =~= body.take(i - b));
                assert(digits_val(body.take(i - b + 1)) > usize::MAX);
                if all_digits(body) {
                    crate::json_parser::lemma_digits_val_prefix_pub(body, i - b + 1);
                }
            }
            return None;
        }
        proof {
            assert(body.take(i - b + 1).drop_last() =~= body.take(i - b));
        }
        acc = acc * 10 + d;
        i = i + 1;
    }
    proof {
        assert(body.take(n - b as int) =~= body);
        assert(all_digits(body));
    }
    Some(acc)
}

/// Splits a dot path into trimmed, non-empty components.
#[verifier::loop_isolation(false)]
fn dot_parts_exec(path: &str) -> (r: Vec<Vec<char>>)
    ensures
        r@.len() == dot_parts(path@).len(),
        forall|i: int| 0 <= i < r@.len() ==> r@[i]@ == dot_parts(path@)[i],
{
    let v = str_chars(path);
    let mut out: Vec<Vec<char>> = Vec::new();
    let mut start: usize = 0;
    proof {
        assert(v@.skip(0) =~= v@);
    }
    loop
        invariant
            start <= v@.len(),
            dot_parts(v@) == Seq::new(
                out@.len(),
                |i: int|
                    if 0 <= i < out@.len() {
                        out@[i]@
                    } else {
                        Seq::empty()
                    },
            ) + dot_parts(v@.skip(start as int)),
        decreases v@.len() - start + 1,
    {
        let ghost rest = v@.skip(start as int);
        let d = find_in(&v, '.', start);
        let piece = trim_piece(&v, start, d);
        proof {
            assert(find_char(rest, '.', 0) + start == d) by {
                lemma_find_shift(v@, '.', start as int);
            }
            if d < v.len() {
                assert(rest.take(d - start) =~= v@.subrange(start as int, d as int));
                assert(rest.skip(d - start + 1) =~= v@.skip(d + 1 as int));
            } else {
                assert(rest =~= v@.subrange(start as int, d as int));
            }
        }
        if piece.len() > 0 {
            out.push(piece);
        }
        proof {
            let ov = Seq::new(
                out@.len(),
                |i: int|
                    if 0 <= i < out@.len() {
                        out@[i]@
                    } else {
                        Seq::<char>::empty()
                    },
            );
            if d < v@.len() {
                assert(dot_parts(v@) =~= ov + dot_parts(v@.skip(d + 1 as int)));
            } else {
                assert(dot_parts(v@) =~= ov + Seq::<Seq<char>>::empty());
                assert(dot_parts(v@) =~= ov);
            }
        }
        if d == v.len() {
            proof {
                assert(forall|i: int|
                    0 <= i < out@.len() ==> #[trigger] dot_parts(v@)[i] == out@[i]@);
            }
            return out;
        }
        start = d + 1;
    }
}

/// The index of the first `c` at or after `from`.
#[verifier::loop_isolation(false)]
fn find_in(v: &Vec<char>, c: char, from: usize) -> (r: usize)
    requires
        from <= v@.len(),
    ensures
        r == find_char(v@, c, from as int),
        from <= r <= v@.len(),
{
    let mut i = from;
    while i < v.len() && v[i] != c
        invariant
            from <= i <= v@.len(),
            find_char(v@, c, from as int) == find_char(v@, c, i as int),
        decreases v@.len() - i,
    {
        i = i + 1;
    }
    i
}

proof fn lemma_find_shift(s: Seq<char>, c: char, from: int)
    requires
        0 <= from <= s.len(),
    ensures
        find_char(s, c, from) == from + find_char(s.skip(from), c, 0),
    decreases s.len() - from,
{
    lemma_find_char_range(s, c, from);
    lemma_find_char_range(s.skip(from), c, 0);
    let r1 = find_char(s, c, from);
    let r2 = find_char(s.skip(from), c, 0);
    assert forall|i: int| from <= i < r1 implies #[trigger] s.skip(from)[i - from] != c by {
        assert(s[i] != c);
    }
    if r1 < s.len() {
        assert(s.skip(from)[r1 - from] == c);
        assert(r2 <= r1 - from);
        assert(r1 - from <= r2) by {
            if r2 < r1 - from {
                assert(s.skip(from)[r2] != c);
                assert(s.skip(from)[r2] == s[from + r2]);
            }
        }
    } else {
        assert(r2 == s.len() - from) by {
            if r2 < s.len() - from {
                assert(s.skip(from)[r2] == c);
                assert(s[from + r2] == c);
            }
        }
    }
}

/// The characters of `v` from `a` to `b`, trimmed of whitespace.
#[verifier::loop_isolation(false)]
fn trim_piece(v: &Vec<char>, a: usize, b: usize) -> (r: Vec<char>)
    requires
        a <= b <= v@.len(),
    ensures
        r@ == trim_ws(v@.subrange(a as int, b as int)),
{
    let ghost piece = v@.subrange(a as int, b as int);
    let mut lo = a;
    while lo < b && ws_char(v[lo])
        invariant
            a <= lo <= b,
            find_non_ws(piece, 0) == find_non_ws(piece, lo - a),
        decreases b - lo,
    {
        lo = lo + 1;
    }
    proof {
        if lo < b {
            assert(find_non_ws(piece, lo - a) == lo - a);
        } else {
            assert(find_non_ws(piece, lo - a) == piece.len());
        }
    }
    let mut hi = b;
    proof {
        assert(piece.skip(lo - a) =~= v@.subrange(lo as int, b as int));
    }
    while hi > lo && ws_char(v[hi - 1])
        invariant
            lo <= hi <= b,
            trim_end_ws(piece.skip(lo - a)) == trim_end_ws(v@.subrange(lo as int, hi as int)),
        decreases hi - lo,
    {
        proof {
            assert(v@.subrange(lo as int, hi as int).drop_last() =~= v@.subrange(
                lo as int,
                hi - 1 as int,
            ));
        }
        hi = hi - 1;
    }
    let mut out: Vec<char> = Vec::new();
    let mut i = lo;
    while i < hi
        invariant
            lo <= i <= hi,
            out@ == v@.subrange(lo as int, i as int),
        decreases hi - i,
    {
        out.push(v[i]);
        proof {
            assert(out@ =~= v@.subrange(lo as int, i + 1 as int));
        }
        i = i + 1;
    }
    proof {
        assert(trim_end_ws(v@.subrange(lo as int, hi as int)) == v@.subrange(
            lo as int,
            hi as int,
        ));
        assert(trim_ws(piece) == trim_end_ws(piece.skip(if find_non_ws(piece, 0) < piece.len() {
            find_non_ws(piece, 0)
        } else {
            piece.len() as int
        })));
    }
    out
}

/// Resolves a dot-separated path inside an object's entries; numeric
/// components index arrays.
#[verifier::loop_isolation(false)]
pub fn get_nested_value<'a>(entries: &'a Vec<(String, JsonValue)>, path: &str) -> (r: Option<
    &'a JsonValue,
>)
    ensures
        match r {
            Some(v) => spec_get_nested(obj_view(entries@), path@) == Some(v@),
            None => spec_get_nested(obj_view(entries@), path@) is None,
        },
{
    let parts = dot_parts_exec(path);
    let ghost pv = dot_parts(path@);
    if parts.len() == 0 {
        return None;
    }
    let first = crate::text::chars_string(parts[0].as_slice());
    let mut current: Option<&JsonValue> = obj_get(entries, first.as_str());
    let mut k: usize = 1;
    proof {
        assert(get_path(JVal::Obj(obj_view(entries@)), pv, 0) == (match obj_lookup(
            obj_view(entries@),
            pv[0],
        ) {
            Some(c) => get_path(c, pv, 1),
            None => None,
        }));
    }
    while k < parts.len()
        invariant
            1 <= k <= pv.len(),
            pv.len() == parts@.len(),
            forall|i: int| 0 <= i < pv.len() ==> parts@[i]@ == pv[i],
            match current {
                Some(c) => spec_get_nested(obj_view(entries@), path@) == get_path(
                    c@,
                    pv,
                    k as int,
                ),
                None => spec_get_nested(obj_view(entries@), path@) is None,
            },
        decreases pv.len() - k,
    {
        let part = &parts[k];
        let next: Option<&JsonValue> = match current {
            Some(cv) => match cv {
                JsonValue::Object(obj) => {
                    let key = crate::text::chars_string(part.as_slice());
                    obj_get(obj, key.as_str())
                },
                JsonValue::Array(arr) => {
                    match parse_index(part) {
                        Some(idx) => {
                            if idx < arr.len() {
                                proof {
                                    assert(arr_view_index(arr@, idx as int) == arr@[idx as int]@);
                                }
                                Some(&arr[idx])
                            } else {
                                None
                            }
                        },
                        None => None,
                    }
                },
                _ => None,
            },
            None => None,
        };
        current = next;
        k = k + 1;
    }
    current
}

/// The view of one array element.
pub open spec fn arr_view_index(items: Seq<JsonValue>, i: int) -> JVal
    recommends
        0 <= i < items.len(),
{
    crate::json_value::arr_view(items)[i]
}

} // verus!
