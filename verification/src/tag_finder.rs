//! The tag router: segments the byte stream into tag-bounded regions,
//! tolerating tags split across chunk boundaries, and filters content by
//! wanted and ignored tag sets, case-insensitively.

use vstd::prelude::*;
use vstd::assert_seqs_equal;
use crate::text::{is_ws_char, ws_char, str_chars, chars_string, str_eq, lower_of, lowercase_str};

verus! {

/// A routed event: an opening tag, payload text, or a closing tag.
#[derive(Debug, PartialEq)]
pub enum TagEvent {
    Open(String),
    Bytes(String),
    Close(String),
}

/// Mathematical model of a [`TagEvent`].
pub enum TagEventV {
    Open(Seq<char>),
    Bytes(Seq<char>),
    Close(Seq<char>),
}

impl View for TagEvent {
    type V = TagEventV;

    open spec fn view(&self) -> TagEventV {
        match self {
            TagEvent::Open(s) => TagEventV::Open(s@),
            TagEvent::Bytes(s) => TagEventV::Bytes(s@),
            TagEvent::Close(s) => TagEventV::Close(s@),
        }
    }
}

/// The views of a list of routed events.
pub open spec fn events_view(v: Seq<TagEvent>) -> Seq<TagEventV> {
    Seq::new(
        v.len(),
        |i: int|
            if 0 <= i < v.len() {
                v[i]@
            } else {
                TagEventV::Bytes(Seq::empty())
            },
    )
}

/// Mathematical model of a [`TagFinder`]: the carry-over buffer, whether
/// the router is inside a wanted region, the lowercased tag sets, and the
/// depth of nested ignored tags.
pub struct TagM {
    pub buf: Seq<char>,
    pub inside: bool,
    pub wanted: Seq<Seq<char>>,
    pub ignored: Seq<Seq<char>>,
    pub inside_ignored: bool,
    pub depth: int,
}

/// Membership of a text in a set of texts.
pub open spec fn set_has(set: Seq<Seq<char>>, x: Seq<char>) -> bool {
    exists|i: int| 0 <= i < set.len() && set[i] == x
}

/// The index of the first occurrence of `c` at or after `from`, or the
/// length if there is none.
pub open spec fn find_char(s: Seq<char>, c: char, from: int) -> int
    decreases s.len() - from,
{
    if from < 0 || from >= s.len() {
        s.len() as int
    } else if s[from] == c {
        from
    } else {
        find_char(s, c, from + 1)
    }
}

/// The first position at or after `from` that holds whitespace, or the
/// length if there is none.
pub open spec fn find_ws(s: Seq<char>, from: int) -> int
    decreases s.len() - from,
{
    if from < 0 || from >= s.len() {
        s.len() as int
    } else if is_ws_char(s[from]) {
        from
    } else {
        find_ws(s, from + 1)
    }
}

/// The first position at or after `from` that holds no whitespace, or the
/// length if there is none.
pub open spec fn find_non_ws(s: Seq<char>, from: int) -> int
    decreases s.len() - from,
{
    if from < 0 || from >= s.len() {
        s.len() as int
    } else if !is_ws_char(s[from]) {
        from
    } else {
        find_non_ws(s, from + 1)
    }
}

/// The first whitespace-separated token of `s`: what names a tag.
pub open spec fn first_token(s: Seq<char>) -> Seq<char> {
    let a = find_non_ws(s, 0);
    s.subrange(a, find_ws(s, a))
}

/// A tag is ignored when its lowercased name is in the ignored set.
pub open spec fn tag_is_ignored(m: TagM, name_lower: Seq<char>) -> bool {
    set_has(m.ignored, name_lower)
}

/// A tag is wanted when the wanted set holds its lowercased name, or the
/// wanted set is empty and the tag is not ignored.
pub open spec fn tag_is_wanted(m: TagM, name_lower: Seq<char>) -> bool {
    if m.wanted.len() == 0 {
        !tag_is_ignored(m, name_lower)
    } else {
        set_has(m.wanted, name_lower)
    }
}

/// How much of the buffer tail is kept outside a wanted region so that a
/// tag starting just before the end is still recognisable.
pub open spec fn tail_keep(len: int) -> int {
    if len < 200 {
        len
    } else {
        200
    }
}

pub proof fn lemma_find_char_range(s: Seq<char>, c: char, from: int)
    requires
        0 <= from <= s.len(),
    ensures
        from <= find_char(s, c, from) <= s.len(),
        find_char(s, c, from) < s.len() ==> s[find_char(s, c, from)] == c,
        forall|i: int| from <= i < find_char(s, c, from) ==> s[i] != c,
    decreases s.len() - from,
{
    if from < s.len() && s[from] != c {
        lemma_find_char_range(s, c, from + 1);
    }
}

/// The router's transition function: consumes the whole buffer, emitting
/// events in temporal order. Text before the next `<` is payload inside a
/// wanted, unsuppressed region; a complete tag is classified and may open
/// or close a region or pass through verbatim; an incomplete tag stays
/// buffered.
pub open spec fn route(m: TagM) -> (TagM, Seq<TagEventV>)
    decreases m.buf.len(),
{
    let lt = find_char(m.buf, '<', 0);
    proof {
        lemma_find_char_range(m.buf, '<', 0);
    }
    if lt == m.buf.len() {
        // no '<' in the buffer: payload tail or bounded look-behind
        if m.inside && !m.inside_ignored && m.buf.len() > 0 {
            (TagM { buf: Seq::empty(), ..m }, seq![TagEventV::Bytes(m.buf)])
        } else {
            (TagM { buf: m.buf.skip(m.buf.len() - tail_keep(m.buf.len() as int)), ..m }, Seq::empty())
        }
    } else {
        let pre = if lt > 0 && m.inside && !m.inside_ignored {
            seq![TagEventV::Bytes(m.buf.take(lt))]
        } else {
            Seq::<TagEventV>::empty()
        };
        let gt = find_char(m.buf, '>', lt);
        proof {
            lemma_find_char_range(m.buf, '>', lt);
        }
        if gt == m.buf.len() {
            // tag split across chunks: keep from '<' onward
            (TagM { buf: m.buf.skip(lt), ..m }, pre)
        } else {
            let body = m.buf.subrange(lt + 1, gt);
            let is_close = body.len() > 0 && body[0] == '/';
            let name_part = if is_close {
                body.skip(1)
            } else {
                body
            };
            let name = first_token(name_part);
            let name_lower = lower_of(name);
            let is_ignored = tag_is_ignored(m, name_lower);
            let is_wanted = tag_is_wanted(m, name_lower);
            let rest = m.buf.skip(gt + 1);
            if m.inside && !m.inside_ignored && !is_wanted && !is_ignored {
                // a foreign tag inside a wanted region passes through verbatim
                let (mr, er) = route(TagM { buf: rest, ..m });
                (mr, pre + seq![TagEventV::Bytes(m.buf.subrange(lt, gt + 1))] + er)
            } else if !is_close {
                if is_ignored {
                    let (mr, er) = route(
                        TagM {
                            buf: rest,
                            inside_ignored: true,
                            depth: if m.depth < usize::MAX {
                                m.depth + 1
                            } else {
                                m.depth
                            },
                            ..m
                        },
                    );
                    (mr, pre + er)
                } else if is_wanted && !m.inside_ignored {
                    let (mr, er) = route(TagM { buf: rest, inside: true, ..m });
                    (mr, pre + seq![TagEventV::Open(name)] + er)
                } else {
                    let (mr, er) = route(TagM { buf: rest, ..m });
                    (mr, pre + er)
                }
            } else {
                if is_ignored && m.inside_ignored {
                    let (mr, er) = route(
                        TagM {
                            buf: rest,
                            inside_ignored: m.depth - 1 > 0,
                            depth: m.depth - 1,
                            ..m
                        },
                    );
                    (mr, pre + er)
                } else if is_wanted && !m.inside_ignored {
                    let (mr, er) = route(TagM { buf: rest, inside: false, ..m });
                    (mr, pre + seq![TagEventV::Close(name)] + er)
                } else {
                    let (mr, er) = route(TagM { buf: rest, ..m });
                    (mr, pre + er)
                }
            }
        }
    }
}


/// Tag classification, first half: while the router is inside an ignored
/// region and the buffer completes no tag, nothing at all is emitted —
/// the region's content is consumed silently and stays suppressed.
pub proof fn lemma_route_ignored_suppresses(m: TagM)
    requires
        m.inside_ignored,
        find_char(m.buf, '>', 0) == m.buf.len(),
    ensures
        route(m).1 =~= Seq::<TagEventV>::empty(),
        route(m).0.inside_ignored,
{
    lemma_find_char_range(m.buf, '<', 0);
    lemma_find_char_range(m.buf, '>', 0);
    let lt = find_char(m.buf, '<', 0);
    if lt < m.buf.len() {
        lemma_find_char_range(m.buf, '>', lt);
        assert(find_char(m.buf, '>', lt) == m.buf.len()) by {
            if find_char(m.buf, '>', lt) < m.buf.len() {
                assert(m.buf[find_char(m.buf, '>', lt)] == '>');
                assert(forall|i: int| 0 <= i < m.buf.len() ==> m.buf[i] != '>');
            }
        }
    }
}

/// Tag classification, first half continued: while the router is inside
/// an ignored region and the buffer holds no closing tag at all (no `/`
/// occurs), the whole push is consumed silently — however many tags it
/// completes — and the region stays suppressed.
pub proof fn lemma_route_ignored_suppresses_no_close(m: TagM)
    requires
        m.inside_ignored,
        forall|i: int| 0 <= i < m.buf.len() ==> m.buf[i] != '/',
    ensures
        route(m).1 =~= Seq::<TagEventV>::empty(),
        route(m).0.inside_ignored,
    decreases m.buf.len(),
{
    lemma_find_char_range(m.buf, '<', 0);
    let lt = find_char(m.buf, '<', 0);
    if lt < m.buf.len() {
        lemma_find_char_range(m.buf, '>', lt);
        let gt = find_char(m.buf, '>', lt);
        if gt < m.buf.len() {
            let body = m.buf.subrange(lt + 1, gt);
            assert(!(body.len() > 0 && body[0] == '/')) by {
                if body.len() > 0 {
                    assert(body[0] == m.buf[lt + 1]);
                }
            }
            let rest = m.buf.skip(gt + 1);
            assert(forall|i: int| 0 <= i < rest.len() ==> rest[i] == m.buf[gt + 1 + i]);
            let name_part = body;
            let name_lower = lower_of(first_token(name_part));
            let is_ignored = tag_is_ignored(m, name_lower);
            if is_ignored {
                lemma_route_ignored_suppresses_no_close(
                    TagM {
                        buf: rest,
                        inside_ignored: true,
                        depth: if m.depth < usize::MAX {
                            m.depth + 1
                        } else {
                            m.depth
                        },
                        ..m
                    },
                );
            } else {
                lemma_route_ignored_suppresses_no_close(TagM { buf: rest, ..m });
            }
        }
    }
}

/// Tag classification, second half: a complete tag that is neither
/// wanted nor ignored, seen inside a wanted and unsuppressed region, is
/// emitted verbatim as payload, angle brackets included.
pub proof fn lemma_route_foreign_tag_verbatim(m: TagM)
    requires
        m.inside,
        !m.inside_ignored,
        find_char(m.buf, '<', 0) < m.buf.len(),
        find_char(m.buf, '>', find_char(m.buf, '<', 0)) < m.buf.len(),
        ({
            let lt = find_char(m.buf, '<', 0);
            let gt = find_char(m.buf, '>', lt);
            let body = m.buf.subrange(lt + 1, gt);
            let name_part = if body.len() > 0 && body[0] == '/' {
                body.skip(1)
            } else {
                body
            };
            let name_lower = lower_of(first_token(name_part));
            !tag_is_wanted(m, name_lower) && !tag_is_ignored(m, name_lower)
        }),
    ensures
        ({
            let lt = find_char(m.buf, '<', 0);
            let gt = find_char(m.buf, '>', lt);
            let pre_len: int = if lt > 0 {
                1int
            } else {
                0int
            };
            route(m).1.len() > pre_len && route(m).1[pre_len] == TagEventV::Bytes(
                m.buf.subrange(lt, gt + 1),
            )
        }),
{
    lemma_find_char_range(m.buf, '<', 0);
    let lt = find_char(m.buf, '<', 0);
    lemma_find_char_range(m.buf, '>', lt);
}

/// The incremental tag scanner.
#[derive(Debug)]
pub struct TagFinder {
    buf: Vec<char>,
    inside: bool,
    wanted: Vec<String>,
    ignored: Vec<String>,
    inside_ignored: bool,
    ignored_depth: usize,
}

impl View for TagFinder {
    type V = TagM;

    closed spec fn view(&self) -> TagM {
        TagM {
            buf: self.buf@,
            inside: self.inside,
            wanted: strs_view(self.wanted@),
            ignored: strs_view(self.ignored@),
            inside_ignored: self.inside_ignored,
            depth: self.ignored_depth as int,
        }
    }
}

/// The views of a list of texts, each folded to lowercase.
pub open spec fn lowered_view(v: Seq<String>) -> Seq<Seq<char>> {
    Seq::new(
        v.len(),
        |i: int|
            if 0 <= i < v.len() {
                lower_of(v[i]@)
            } else {
                Seq::empty()
            },
    )
}

/// The views of a list of texts.
pub open spec fn strs_view(v: Seq<String>) -> Seq<Seq<char>> {
    Seq::new(
        v.len(),
        |i: int|
            if 0 <= i < v.len() {
                v[i]@
            } else {
                Seq::empty()
            },
    )
}

/// Whether `x` occurs in `set`.
#[verifier::loop_isolation(false)]
pub(crate) fn set_has_exec(set: &Vec<String>, x: &str) -> (r: bool)
    ensures
        r == set_has(strs_view(set@), x@),
{
    let ghost sv = strs_view(set@);
    let mut i: usize = 0;
    while i < set.len()
        invariant
            i <= set@.len(),
            forall|j: int| 0 <= j < i ==> sv[j] != x@,
        decreases set@.len() - i,
    {
        if str_eq(set[i].as_str(), x) {
            proof {
                assert(sv[i as int] == x@);
            }
            return true;
        }
        i = i + 1;
    }
    false
}

impl TagFinder {
    /// The router's invariant: the suppression flag agrees with the depth
    /// of open ignored tags.
    pub open spec fn wf(&self) -> bool {
        self@.inside_ignored <==> self@.depth > 0
    }

    /// A router that wants every tag and ignores none.
    pub fn new() -> (r: TagFinder)
        ensures
            r.wf(),
            r@ == (TagM {
                buf: Seq::<char>::empty(),
                inside: false,
                wanted: Seq::<Seq<char>>::empty(),
                ignored: Seq::<Seq<char>>::empty(),
                inside_ignored: false,
                depth: 0,
            }),
    {
        let r = TagFinder {
            buf: Vec::new(),
            inside: false,
            wanted: Vec::new(),
            ignored: Vec::new(),
            inside_ignored: false,
            ignored_depth: 0,
        };
        proof {
            assert(r@.buf =~= Seq::<char>::empty());
            assert(r@.wanted =~= Seq::<Seq<char>>::empty());
            assert(r@.ignored =~= Seq::<Seq<char>>::empty());
        }
        r
    }

    /// A router with the given wanted and ignored tags, folded to
    /// lowercase for case-insensitive matching.
    #[verifier::loop_isolation(false)]
    pub fn new_with_filter(wanted: Vec<String>, ignored: Vec<String>) -> (r: TagFinder)
        ensures
            r.wf(),
            r@ == (TagM {
                buf: Seq::<char>::empty(),
                inside: false,
                wanted: lowered_view(wanted@),
                ignored: lowered_view(ignored@),
                inside_ignored: false,
                depth: 0,
            }),
    {
        let mut wl: Vec<String> = Vec::new();
        let mut i: usize = 0;
        while i < wanted.len()
            invariant
                i <= wanted@.len(),
                wl@.len() == i,
                forall|j: int| 0 <= j < i ==> wl@[j]@ == lower_of(wanted@[j]@),
            decreases wanted@.len() - i,
        {
            wl.push(lowercase_str(wanted[i].as_str()));
            i = i + 1;
        }
        let mut il: Vec<String> = Vec::new();
        let mut k: usize = 0;
        while k < ignored.len()
            invariant
                k <= ignored@.len(),
                il@.len() == k,
                forall|j: int| 0 <= j < k ==> il@[j]@ == lower_of(ignored@[j]@),
            decreases ignored@.len() - k,
        {
            il.push(lowercase_str(ignored[k].as_str()));
            k = k + 1;
        }
        let r = TagFinder {
            buf: Vec::new(),
            inside: false,
            wanted: wl,
            ignored: il,
            inside_ignored: false,
            ignored_depth: 0,
        };
        proof {
            assert(r@.buf =~= Seq::<char>::empty());
            assert(r@.wanted =~= lowered_view(wanted@));
            assert(r@.ignored =~= lowered_view(ignored@));
        }
        r
    }
}

/// The elements of `v` from `a` (inclusive) to `b` (exclusive).
#[verifier::loop_isolation(false)]
fn vec_subrange(v: &Vec<char>, a: usize, b: usize) -> (r: Vec<char>)
    requires
        a <= b <= v@.len(),
    ensures
        r@ == v@.subrange(a as int, b as int),
{
    let mut r: Vec<char> = Vec::new();
    let mut i = a;
    while i < b
        invariant
            a <= i <= b,
            r@ == v@.subrange(a as int, i as int),
        decreases b - i,
    {
        r.push(v[i]);
        proof {
            assert(r@ =~= v@.subrange(a as int, i + 1 as int));
        }
        i = i + 1;
    }
    r
}

/// The index of the first occurrence of `c` at or after `from`, or the
/// length; see [`find_char`].
#[verifier::loop_isolation(false)]
fn find_char_exec(v: &Vec<char>, c: char, from: usize) -> (r: usize)
    requires
        from <= v@.len(),
    ensures
        r == find_char(v@, c, from as int),
        from <= r <= v@.len(),
{
    let mut i = from;
    while i < v.len() && v[i] != c
        invariant
            from <= i <= v@.len(),
            find_char(v@, c, from as int) == find_char(v@, c, i as int),
        decreases v@.len() - i,
    {
        i = i + 1;
    }
    i
}

/// The first position at or after `from` without whitespace; see
/// [`find_non_ws`].
#[verifier::loop_isolation(false)]
fn find_non_ws_exec(v: &Vec<char>, from: usize) -> (r: usize)
    requires
        from <= v@.len(),
    ensures
        r == find_non_ws(v@, from as int),
        from <= r <= v@.len(),
{
    let mut i = from;
    while i < v.len() && ws_char(v[i])
        invariant
            from <= i <= v@.len(),
            find_non_ws(v@, from as int) == find_non_ws(v@, i as int),
        decreases v@.len() - i,
    {
        i = i + 1;
    }
    i
}

/// The first position at or after `from` with whitespace; see [`find_ws`].
#[verifier::loop_isolation(false)]
fn find_ws_exec(v: &Vec<char>, from: usize) -> (r: usize)
    requires
        from <= v@.len(),
    ensures
        r == find_ws(v@, from as int),
        from <= r <= v@.len(),
{
    let mut i = from;
    while i < v.len() && !ws_char(v[i])
        invariant
            from <= i <= v@.len(),
            find_ws(v@, from as int) == find_ws(v@, i as int),
        decreases v@.len() - i,
    {
        i = i + 1;
    }
    i
}

impl TagFinder {
    /// Feeds the next text chunk; the returned events are those the chunk
    /// completes, in temporal order. See [`route`].
    #[verifier::loop_isolation(false)]
    #[verifier::rlimit(100)]
    #[verifier::spinoff_prover]
    pub fn push(&mut self, chunk: &str) -> (r: Vec<TagEvent>)
        requires
            old(self).wf(),
        ensures
            final(self).wf(),
            ({
                let m0 = TagM { buf: old(self)@.buf + chunk@, ..old(self)@ };
                let (mr, er) = route(m0);
                final(self)@ == mr && events_view(r@) == er
            }),
    {
        let cv = str_chars(chunk);
        let mut j: usize = 0;
        let ghost b0 = self.buf@;
        while j < cv.len()
            invariant
                j <= cv@.len(),
                self.buf@ == b0 + cv@.take(j as int),
                self.inside == old(self).inside,
                self.wanted@ == old(self).wanted@,
                self.ignored@ == old(self).ignored@,
                self.inside_ignored == old(self).inside_ignored,
                self.ignored_depth == old(self).ignored_depth,
            decreases cv@.len() - j,
        {
            self.buf.push(cv[j]);
            proof {
                assert(self.buf@ =~= b0 + cv@.take(j + 1 as int));
            }
            j = j + 1;
        }
        proof {
            assert(cv@.take(cv@.len() as int) =~= cv@);
            assert(self@ == (TagM { buf: old(self)@.buf + chunk@, ..old(self)@ }));
        }
        let ghost m0 = self@;
        let mut out: Vec<TagEvent> = Vec::new();
        proof {
            assert(events_view(out@) =~= Seq::<TagEventV>::empty());
            assert(Seq::<TagEventV>::empty() + route(m0).1 =~= route(m0).1);
        }
        loop
            invariant
                self.wf(),
                route(m0).0 == route(self@).0,
                route(m0).1 == events_view(out@) + route(self@).1,
            decreases self.buf@.len(),
        {
            let ghost mc = self@;
            let ghost out0 = events_view(out@);
            let lt = find_char_exec(&self.buf, '<', 0);
            if lt == self.buf.len() {
                break ;
            }
            let ghost pre_v = (if lt > 0 && mc.inside && !mc.inside_ignored {
                seq![TagEventV::Bytes(mc.buf.take(lt as int))]
            } else {
                Seq::<TagEventV>::empty()
            });
            if lt > 0 && self.inside && !self.inside_ignored {
                let pre = chars_string(vec_subrange(&self.buf, 0, lt).as_slice());
                proof {
                    assert(mc.buf.subrange(0, lt as int) =~= mc.buf.take(lt as int));
                    lemma_events_view_push(out@, TagEvent::Bytes(pre));
                }
                out.push(TagEvent::Bytes(pre));
            }
            proof {
                assert(events_view(out@) =~= out0 + pre_v);
            }
            let gt = find_char_exec(&self.buf, '>', lt);
            if gt == self.buf.len() {
                let nb = vec_subrange(&self.buf, lt, self.buf.len());
                self.buf = nb;
                proof {
                    assert(self@.buf =~= mc.buf.skip(lt as int));
                    assert(route(mc).0 == self@);
                    assert(route(mc).1 == pre_v);
                    lemma_find_char_range(mc.buf, '<', 0);
                    lemma_find_char_range(mc.buf, '>', lt as int);
                    assert(self@.buf.len() > 0 && self@.buf[0] == '<');
                    assert(find_char(self@.buf, '<', 0) == 0);
                    lemma_find_char_range(self@.buf, '>', 0);
                    assert forall|i: int| 0 <= i < self@.buf.len() implies self@.buf[i]
                        != '>' by {
                        assert(self@.buf[i] == mc.buf[lt + i]);
                    }
                    assert(find_char(self@.buf, '>', 0) == self@.buf.len());
                    assert(self@.buf.skip(0) =~= self@.buf);
                    assert(route(self@).0 == self@);
                    assert(route(self@).1 =~= Seq::<TagEventV>::empty());
                    assert(route(m0).1 =~= events_view(out@) + route(self@).1);
                    assert(route(m0).0 == route(self@).0);
                }
                return out;
            }
            proof {
                lemma_find_char_range(mc.buf, '<', 0);
                lemma_find_char_range(mc.buf, '>', lt as int);
                assert(mc.buf[lt as int] == '<');
                assert(mc.buf[gt as int] == '>');
                assert(gt > lt);
            }
            let body = vec_subrange(&self.buf, lt + 1, gt);
            let is_close = body.len() > 0 && body[0] == '/';
            let name_part = if is_close {
                vec_subrange(&body, 1, body.len())
            } else {
                vec_subrange(&body, 0, body.len())
            };
            proof {
                assert(body@ == mc.buf.subrange(lt + 1 as int, gt as int));
                if is_close {
                    assert(name_part@ =~= body@.skip(1));
                } else {
                    assert(name_part@ =~= body@);
                }
            }
            let a = find_non_ws_exec(&name_part, 0);
            let e = find_ws_exec(&name_part, a);
            let name = chars_string(vec_subrange(&name_part, a, e).as_slice());
            proof {
                assert(name@ == first_token(name_part@));
            }
            let name_lower = lowercase_str(name.as_str());
            let is_ignored = set_has_exec(&self.ignored, name_lower.as_str());
            let is_wanted = if self.wanted.len() == 0 {
                !is_ignored
            } else {
                set_has_exec(&self.wanted, name_lower.as_str())
            };
            proof {
                assert(is_ignored == tag_is_ignored(mc, lower_of(name@)));
                assert(is_wanted == tag_is_wanted(mc, lower_of(name@)));
            }
            let ghost mid_v = (if mc.inside && !mc.inside_ignored && !is_wanted && !is_ignored {
                seq![TagEventV::Bytes(mc.buf.subrange(lt as int, gt + 1 as int))]
            } else if !is_close && !is_ignored && is_wanted && !mc.inside_ignored {
                seq![TagEventV::Open(name@)]
            } else if is_close && !(is_ignored && mc.inside_ignored) && is_wanted
                && !mc.inside_ignored {
                seq![TagEventV::Close(name@)]
            } else {
                Seq::<TagEventV>::empty()
            });
            if self.inside && !self.inside_ignored && !is_wanted && !is_ignored {
                let verb = chars_string(vec_subrange(&self.buf, lt, gt + 1).as_slice());
                proof {
                    lemma_events_view_push(out@, TagEvent::Bytes(verb));
                }
                out.push(TagEvent::Bytes(verb));
            } else if !is_close {
                if is_ignored {
                    self.inside_ignored = true;
                    if self.ignored_depth < usize::MAX {
                        self.ignored_depth = self.ignored_depth + 1;
                    }
                } else if is_wanted && !self.inside_ignored {
                    proof {
                        lemma_events_view_push(out@, TagEvent::Open(name));
                        assert(TagEvent::Open(name)@ == TagEventV::Open(name@));
                    }
                    out.push(TagEvent::Open(name));
                    self.inside = true;
                }
            } else {
                if is_ignored && self.inside_ignored {
                    self.ignored_depth = self.ignored_depth - 1;
                    if self.ignored_depth == 0 {
                        self.inside_ignored = false;
                    }
                } else if is_wanted && !self.inside_ignored {
                    proof {
                        lemma_events_view_push(out@, TagEvent::Close(name));
                        assert(TagEvent::Close(name)@ == TagEventV::Close(name@));
                    }
                    out.push(TagEvent::Close(name));
                    self.inside = false;
                }
            }
            proof {
                assert(events_view(out@) =~= out0 + pre_v + mid_v);
            }
            let nb = vec_subrange(&self.buf, gt + 1, self.buf.len());
            self.buf = nb;
            proof {
                assert(self.buf@ =~= mc.buf.skip(gt + 1 as int));
                assert(route(mc).0 == route(self@).0);
                assert(route(mc).1 =~= pre_v + mid_v + route(self@).1);
                assert(route(m0).1 =~= events_view(out@) + route(self@).1);
            }
        }
        // no '<' left in the buffer
        let ghost mc = self@;
        proof {
            lemma_find_char_range(mc.buf, '<', 0);
        }
        if self.inside && !self.inside_ignored && self.buf.len() > 0 {
            let tail = chars_string(self.buf.as_slice());
            proof {
                lemma_events_view_push(out@, TagEvent::Bytes(tail));
            }
            out.push(TagEvent::Bytes(tail));
            self.buf = Vec::new();
            proof {
                assert(self@.buf =~= Seq::<char>::empty());
                assert(route(mc).0 == self@);
                assert(route(mc).1 == seq![TagEventV::Bytes(mc.buf)]);
                assert(find_char(self@.buf, '<', 0) == 0);
                assert(self@.buf.skip(0) =~= self@.buf);
                assert(route(self@).0 == self@);
                assert(route(self@).1 =~= Seq::<TagEventV>::empty());
                assert(route(m0).1 =~= events_view(out@) + route(self@).1);
                assert(route(m0).0 == route(self@).0);
            }
        } else {
            let keep: usize = if self.buf.len() < 200 {
                self.buf.len()
            } else {
                200
            };
            let nb = vec_subrange(&self.buf, self.buf.len() - keep, self.buf.len());
            self.buf = nb;
            proof {
                let ghost drop_n = mc.buf.len() - tail_keep(mc.buf.len() as int);
                assert(mc.buf.subrange(drop_n, mc.buf.len() as int) =~= mc.buf.skip(drop_n));
                assert(self@.buf =~= mc.buf.skip(drop_n));
                assert(route(mc).0 == self@);
                assert(route(mc).1 =~= Seq::<TagEventV>::empty());
                lemma_find_char_range(self@.buf, '<', 0);
                assert forall|i: int| 0 <= i < self@.buf.len() implies self@.buf[i]
                    != '<' by {
                    assert(self@.buf[i] == mc.buf[drop_n + i]);
                }
                assert(find_char(self@.buf, '<', 0) == self@.buf.len());
                assert(tail_keep(self@.buf.len() as int) == self@.buf.len());
                assert(self@.buf.skip(0) =~= self@.buf);
                assert(route(self@).0 == self@);
                assert(route(self@).1 =~= Seq::<TagEventV>::empty());
                assert(route(m0).1 =~= events_view(out@) + route(self@).1);
                assert(route(m0).0 == route(self@).0);
            }
        }
        out
    }
}

proof fn lemma_events_view_push(v: Seq<TagEvent>, e: TagEvent)
    ensures
        events_view(v.push(e)) == events_view(v) + seq![e@],
{
    assert_seqs_equal!(events_view(v.push(e)), events_view(v) + seq![e@]);
}

} // verus!
