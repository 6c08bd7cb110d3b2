//! The lenient SAX-style scanner: turns buffered text into chunked
//! lexical events that survive arbitrary splits inside tokens.

use vstd::prelude::*;
use crate::text::{is_ws_char, ws_char, is_digit_char, digit_char, str_chars, chars_string};
use crate::json_value::{JsonError, JErr};
use crate::json_parser::{is_hex_char};

verus! {

/// A lexical event. Scalar tokens arrive chunked: zero or more chunk
/// events followed by one end event carrying the final fragment.
#[derive(Debug, PartialEq)]
pub enum Event {
    StartObj,
    EndObj,
    StartArr,
    EndArr,
    StrChunk(String),
    StrEnd(String),
    NumberChunk(String),
    NumberEnd(String),
    IdentChunk(String),
    IdentEnd(String),
}

/// Mathematical model of an [`Event`].
pub enum EventV {
    StartObj,
    EndObj,
    StartArr,
    EndArr,
    StrChunk(Seq<char>),
    StrEnd(Seq<char>),
    NumberChunk(Seq<char>),
    NumberEnd(Seq<char>),
    IdentChunk(Seq<char>),
    IdentEnd(Seq<char>),
}

impl View for Event {
    type V = EventV;

    open spec fn view(&self) -> EventV {
        match self {
            Event::StartObj => EventV::StartObj,
            Event::EndObj => EventV::EndObj,
            Event::StartArr => EventV::StartArr,
            Event::EndArr => EventV::EndArr,
            Event::StrChunk(s) => EventV::StrChunk(s@),
            Event::StrEnd(s) => EventV::StrEnd(s@),
            Event::NumberChunk(s) => EventV::NumberChunk(s@),
            Event::NumberEnd(s) => EventV::NumberEnd(s@),
            Event::IdentChunk(s) => EventV::IdentChunk(s@),
            Event::IdentEnd(s) => EventV::IdentEnd(s@),
        }
    }
}

/// One scanner step: an event, a request for more input, or an error.
#[derive(Debug, PartialEq)]
pub enum Step {
    Event(Event),
    NeedMore,
    Error(JsonError),
}

/// Mathematical model of a [`Step`].
pub enum StepV {
    Event(EventV),
    NeedMore,
    Error(JErr),
}

impl View for Step {
    type V = StepV;

    open spec fn view(&self) -> StepV {
        match self {
            Step::Event(e) => StepV::Event(e@),
            Step::NeedMore => StepV::NeedMore,
            Step::Error(e) => StepV::Error(e@),
        }
    }
}

/// The sub-state inside a quoted string: plain text, just after a
/// backslash, or inside a `\uXXXX` escape with a count of hex digits seen.
#[derive(Debug, Clone, Copy, PartialEq, Eq, Structural)]
pub enum StrSub {
    Norm,
    Esc,
    Hex(u8),
}

/// The lexer state.
#[derive(Debug, Clone, Copy, PartialEq, Eq, Structural)]
pub enum LexState {
    Outer,
    InStr { quote: char, sub: StrSub },
    InNum,
    InIdent,
}

/// Mathematical model of a [`Scanner`]: the unconsumed text, the lexer
/// state, the pending fragment of the current scalar, and the pending
/// whitespace inside a bare identifier.
pub struct ScanM {
    pub text: Seq<char>,
    pub state: LexState,
    pub frag: Seq<char>,
    pub wsp: Seq<char>,
}

/// A comma or whitespace: the structural residue the router may leave
/// between chunks.
pub open spec fn is_comma_ws(c: char) -> bool {
    is_ws_char(c) || c == ','
}

/// Whether the fragment holds any character beyond commas and whitespace.
pub open spec fn frag_has_content(s: Seq<char>) -> bool {
    exists|i: int| 0 <= i < s.len() && !is_comma_ws(s[i])
}

/// Characters that may follow a quote only structurally: such a quote is
/// stray and opens no string.
pub open spec fn is_stray_after_quote(c: char) -> bool {
    c == ',' || c == ':' || c == '}' || c == ']'
}

/// Characters that may continue a number token.
pub open spec fn is_num_char(c: char) -> bool {
    is_digit_char(c) || c == '.' || c == '+' || c == '-' || c == 'e' || c == 'E'
}

fn num_char(c: char) -> (r: bool)
    ensures
        r == is_num_char(c),
{
    digit_char(c) || c == '.' || c == '+' || c == '-' || c == 'e' || c == 'E'
}

/// Characters that may start a bare identifier.
pub open spec fn is_ident_start(c: char) -> bool {
    ('a' <= c && c <= 'z') || ('A' <= c && c <= 'Z') || c == '_'
}

fn ident_start(c: char) -> (r: bool)
    ensures
        r == is_ident_start(c),
{
    ('a' <= c && c <= 'z') || ('A' <= c && c <= 'Z') || c == '_'
}

/// Characters that end a bare identifier.
pub open spec fn is_delim_char(c: char) -> bool {
    c == '{' || c == '}' || c == '[' || c == ']' || c == ',' || c == ':' || c == '"' || c == '\''
}

fn delim_char(c: char) -> (r: bool)
    ensures
        r == is_delim_char(c),
{
    c == '{' || c == '}' || c == '[' || c == ']' || c == ',' || c == ':' || c == '"' || c == '\''
}

/// Orders the states so that leaving a `\uXXXX` escape without consuming
/// input still decreases.
pub open spec fn sub_rank(st: LexState) -> int {
    match st {
        LexState::InStr { quote, sub } => if sub is Hex {
            1int
        } else {
            0int
        },
        _ => 0int,
    }
}

/// The scanner's transition function: from a model, the model after one
/// step and the step's outcome.
pub open spec fn scan_next(m: ScanM) -> (ScanM, StepV)
    decreases m.text.len(), sub_rank(m.state),
{
    match m.state {
        LexState::Outer => {
            if m.text.len() == 0 {
                (m, StepV::NeedMore)
            } else {
                let c = m.text[0];
                let rest = m.text.skip(1);
                if is_ws_char(c) || c == ',' || c == ':' {
                    scan_next(ScanM { text: rest, ..m })
                } else if c == '{' {
                    (ScanM { text: rest, ..m }, StepV::Event(EventV::StartObj))
                } else if c == '}' {
                    (ScanM { text: rest, ..m }, StepV::Event(EventV::EndObj))
                } else if c == '[' {
                    (ScanM { text: rest, ..m }, StepV::Event(EventV::StartArr))
                } else if c == ']' {
                    (ScanM { text: rest, ..m }, StepV::Event(EventV::EndArr))
                } else if c == '"' || c == '\'' {
                    if m.text.len() == 1 {
                        // cannot yet tell a string open from a stray quote
                        (m, StepV::NeedMore)
                    } else if is_stray_after_quote(m.text[1]) {
                        scan_next(ScanM { text: rest, ..m })
                    } else {
                        scan_next(
                            ScanM {
                                text: rest,
                                state: LexState::InStr { quote: c, sub: StrSub::Norm },
                                frag: Seq::empty(),
                                wsp: m.wsp,
                            },
                        )
                    }
                } else if is_ident_start(c) {
                    scan_next(
                        ScanM {
                            text: rest,
                            state: LexState::InIdent,
                            frag: seq![c],
                            wsp: Seq::empty(),
                        },
                    )
                } else if is_num_char(c) {
                    scan_next(
                        ScanM { text: rest, state: LexState::InNum, frag: seq![c], wsp: m.wsp },
                    )
                } else {
                    (ScanM { text: rest, ..m }, StepV::Error(JErr::UnexpectedChar(c)))
                }
            }
        },
        LexState::InStr { quote, sub } => {
            if m.text.len() == 0 {
                if frag_has_content(m.frag) {
                    (ScanM { frag: Seq::empty(), ..m }, StepV::Event(EventV::StrChunk(m.frag)))
                } else {
                    // an opening quote followed only by structural residue at a
                    // chunk boundary was stray: fall back to the top level
                    (
                        ScanM { state: LexState::Outer, frag: Seq::empty(), ..m },
                        StepV::NeedMore,
                    )
                }
            } else {
                let c = m.text[0];
                let rest = m.text.skip(1);
                match sub {
                    StrSub::Norm => {
                        if c == quote {
                            (
                                ScanM {
                                    text: rest,
                                    state: LexState::Outer,
                                    frag: Seq::empty(),
                                    wsp: m.wsp,
                                },
                                StepV::Event(EventV::StrEnd(m.frag)),
                            )
                        } else if c == '\\' {
                            scan_next(
                                ScanM {
                                    text: rest,
                                    state: LexState::InStr { quote, sub: StrSub::Esc },
                                    frag: m.frag.push(c),
                                    wsp: m.wsp,
                                },
                            )
                        } else {
                            scan_next(ScanM { text: rest, frag: m.frag.push(c), ..m })
                        }
                    },
                    StrSub::Esc => scan_next(
                        ScanM {
                            text: rest,
                            state: LexState::InStr {
                                quote,
                                sub: if c == 'u' {
                                    StrSub::Hex(0)
                                } else {
                                    StrSub::Norm
                                },
                            },
                            frag: m.frag.push(c),
                            wsp: m.wsp,
                        },
                    ),
                    StrSub::Hex(k) => {
                        if is_hex_char(c) {
                            scan_next(
                                ScanM {
                                    text: rest,
                                    state: LexState::InStr {
                                        quote,
                                        sub: if k >= 3 {
                                            StrSub::Norm
                                        } else {
                                            StrSub::Hex((k + 1) as u8)
                                        },
                                    },
                                    frag: m.frag.push(c),
                                    wsp: m.wsp,
                                },
                            )
                        } else {
                            scan_next(
                                ScanM {
                                    state: LexState::InStr { quote, sub: StrSub::Norm },
                                    ..m
                                },
                            )
                        }
                    },
                }
            }
        },
        LexState::InNum => {
            if m.text.len() == 0 {
                if m.frag.len() > 0 {
                    (ScanM { frag: Seq::empty(), ..m }, StepV::Event(EventV::NumberChunk(m.frag)))
                } else {
                    (m, StepV::NeedMore)
                }
            } else {
                let c = m.text[0];
                if is_num_char(c) {
                    scan_next(ScanM { text: m.text.skip(1), frag: m.frag.push(c), ..m })
                } else {
                    (
                        ScanM { state: LexState::Outer, frag: Seq::empty(), ..m },
                        StepV::Event(EventV::NumberEnd(m.frag)),
                    )
                }
            }
        },
        LexState::InIdent => {
            if m.text.len() == 0 {
                if m.frag.len() > 0 {
                    (ScanM { frag: Seq::empty(), ..m }, StepV::Event(EventV::IdentChunk(m.frag)))
                } else {
                    (m, StepV::NeedMore)
                }
            } else {
                let c = m.text[0];
                let rest = m.text.skip(1);
                if c == '"' || c == '\'' {
                    // a stray quote ends the identifier and is dropped with it
                    (
                        ScanM {
                            text: rest,
                            state: LexState::Outer,
                            frag: Seq::empty(),
                            wsp: Seq::empty(),
                        },
                        StepV::Event(EventV::IdentEnd(m.frag)),
                    )
                } else if is_delim_char(c) {
                    (
                        ScanM {
                            state: LexState::Outer,
                            frag: Seq::empty(),
                            wsp: Seq::empty(),
                            ..m
                        },
                        StepV::Event(EventV::IdentEnd(m.frag)),
                    )
                } else if is_ws_char(c) {
                    scan_next(ScanM { text: rest, wsp: m.wsp.push(c), ..m })
                } else {
                    scan_next(
                        ScanM {
                            text: rest,
                            frag: m.frag + m.wsp.push(c),
                            wsp: Seq::empty(),
                            ..m
                        },
                    )
                }
            }
        },
    }
}

/// Whether a scalar fragment is pending.
pub open spec fn frag_flag(m: ScanM) -> int {
    if m.frag.len() > 0 {
        1int
    } else {
        0int
    }
}

/// Orders the lexer states for progress arguments: the top level sits
/// below every token state.
pub open spec fn outer_rank(st: LexState) -> int {
    match st {
        LexState::Outer => 0int,
        _ => 1int,
    }
}

/// The scanner makes progress: a step never grows the unconsumed text,
/// and a step that yields an event shrinks the measure
/// (text, pending fragment, state rank) lexicographically.
pub proof fn lemma_scan_progress(m: ScanM)
    ensures
        ({
            let (m2, st) = scan_next(m);
            m2.text.len() <= m.text.len() && (st is Event ==> (m2.text.len() < m.text.len() || (
            m2.text.len() == m.text.len() && (frag_flag(m2) < frag_flag(m) || (frag_flag(m2)
                == frag_flag(m) && outer_rank(m2.state) < outer_rank(m.state))))))
        }),
    decreases m.text.len(), sub_rank(m.state),
{
    if m.text.len() > 0 {
        match m.state {
            LexState::Outer => {
                let c = m.text[0];
                let rest = m.text.skip(1);
                if is_ws_char(c) || c == ',' || c == ':' {
                    lemma_scan_progress(ScanM { text: rest, ..m });
                } else if c == '{' || c == '}' || c == '[' || c == ']' {
                } else if c == '"' || c == '\'' {
                    if m.text.len() == 1 {
                    } else if is_stray_after_quote(m.text[1]) {
                        lemma_scan_progress(ScanM { text: rest, ..m });
                    } else {
                        lemma_scan_progress(
                            ScanM {
                                text: rest,
                                state: LexState::InStr { quote: c, sub: StrSub::Norm },
                                frag: Seq::empty(),
                                wsp: m.wsp,
                            },
                        );
                    }
                } else if is_ident_start(c) {
                    lemma_scan_progress(
                        ScanM {
                            text: rest,
                            state: LexState::InIdent,
                            frag: seq![c],
                            wsp: Seq::empty(),
                        },
                    );
                } else if is_num_char(c) {
                    lemma_scan_progress(
                        ScanM { text: rest, state: LexState::InNum, frag: seq![c], wsp: m.wsp },
                    );
                }
            },
            LexState::InStr { quote, sub } => {
                let c = m.text[0];
                let rest = m.text.skip(1);
                match sub {
                    StrSub::Norm => {
                        if c == quote {
                        } else if c == '\\' {
                            lemma_scan_progress(
                                ScanM {
                                    text: rest,
                                    state: LexState::InStr { quote, sub: StrSub::Esc },
                                    frag: m.frag.push(c),
                                    wsp: m.wsp,
                                },
                            );
                        } else {
                            lemma_scan_progress(ScanM { text: rest, frag: m.frag.push(c), ..m });
                        }
                    },
                    StrSub::Esc => {
                        lemma_scan_progress(
                            ScanM {
                                text: rest,
                                state: LexState::InStr {
                                    quote,
                                    sub: if c == 'u' {
                                        StrSub::Hex(0)
                                    } else {
                                        StrSub::Norm
                                    },
                                },
                                frag: m.frag.push(c),
                                wsp: m.wsp,
                            },
                        );
                    },
                    StrSub::Hex(k) => {
                        if is_hex_char(c) {
                            lemma_scan_progress(
                                ScanM {
                                    text: rest,
                                    state: LexState::InStr {
                                        quote,
                                        sub: if k >= 3 {
                                            StrSub::Norm
                                        } else {
                                            StrSub::Hex((k + 1) as u8)
                                        },
                                    },
                                    frag: m.frag.push(c),
                                    wsp: m.wsp,
                                },
                            );
                        } else {
                            lemma_scan_progress(
                                ScanM { state: LexState::InStr { quote, sub: StrSub::Norm }, ..m },
                            );
                        }
                    },
                }
            },
            LexState::InNum => {
                let c = m.text[0];
                if is_num_char(c) {
                    lemma_scan_progress(
                        ScanM { text: m.text.skip(1), frag: m.frag.push(c), ..m },
                    );
                }
            },
            LexState::InIdent => {
                let c = m.text[0];
                let rest = m.text.skip(1);
                if c == '"' || c == '\'' {
                } else if is_delim_char(c) {
                } else if is_ws_char(c) {
                    lemma_scan_progress(ScanM { text: rest, wsp: m.wsp.push(c), ..m });
                } else {
                    lemma_scan_progress(
                        ScanM {
                            text: rest,
                            frag: m.frag + m.wsp.push(c),
                            wsp: Seq::empty(),
                            ..m
                        },
                    );
                }
            },
        }
    }
}

/// Whether the fragment holds any character beyond commas and whitespace.
#[verifier::loop_isolation(false)]
fn frag_content_check(v: &Vec<char>) -> (r: bool)
    ensures
        r == frag_has_content(v@),
{
    let mut i: usize = 0;
    while i < v.len()
        invariant
            i <= v@.len(),
            forall|j: int| 0 <= j < i ==> is_comma_ws(v@[j]),
        decreases v@.len() - i,
    {
        if !(ws_char(v[i]) || v[i] == ',') {
            return true;
        }
        i = i + 1;
    }
    false
}

/// The SAX-style lexer. Text is pushed in; each [`Scanner::next_step`]
/// call yields one event, an input request, or an error.
#[derive(Debug)]
pub struct Scanner {
    buf: Vec<char>,
    pos: usize,
    state: LexState,
    frag: Vec<char>,
    wsp: Vec<char>,
}

impl View for Scanner {
    type V = ScanM;

    closed spec fn view(&self) -> ScanM {
        ScanM { text: self.buf@.skip(self.pos as int), state: self.state, frag: self.frag@, wsp: self.wsp@ }
    }
}

impl Scanner {
    pub closed spec fn wf(&self) -> bool {
        self.pos <= self.buf@.len()
    }

    /// A scanner with nothing buffered, at the top level.
    pub fn new() -> (r: Scanner)
        ensures
            r.wf(),
            r@ == (ScanM {
                text: Seq::<char>::empty(),
                state: LexState::Outer,
                frag: Seq::<char>::empty(),
                wsp: Seq::<char>::empty(),
            }),
    {
        let r = Scanner {
            buf: Vec::new(),
            pos: 0,
            state: LexState::Outer,
            frag: Vec::new(),
            wsp: Vec::new(),
        };
        proof {
            assert(r.buf@.skip(0) =~= Seq::<char>::empty());
        }
        r
    }

    /// Appends a chunk of text to the unconsumed input.
    #[verifier::loop_isolation(false)]
    pub fn push(&mut self, part: &str)
        requires
            old(self).wf(),
        ensures
            final(self).wf(),
            final(self)@ == (ScanM { text: old(self)@.text + part@, ..old(self)@ }),
    {
        let chunk = str_chars(part);
        let mut nb: Vec<char> = Vec::new();
        let mut i: usize = self.pos;
        while i < self.buf.len()
            invariant
                self.pos <= i <= self.buf@.len(),
                nb@ == self.buf@.subrange(self.pos as int, i as int),
            decreases self.buf@.len() - i,
        {
            nb.push(self.buf[i]);
            proof {
                assert(nb@ =~= self.buf@.subrange(self.pos as int, i + 1 as int));
            }
            i = i + 1;
        }
        let mut j: usize = 0;
        while j < chunk.len()
            invariant
                j <= chunk@.len(),
                nb@ == self.buf@.subrange(self.pos as int, self.buf@.len() as int) + chunk@.take(
                    j as int,
                ),
            decreases chunk@.len() - j,
        {
            nb.push(chunk[j]);
            proof {
                assert(nb@ =~= self.buf@.subrange(self.pos as int, self.buf@.len() as int)
                    + chunk@.take(j + 1 as int));
            }
            j = j + 1;
        }
        proof {
            assert(chunk@.take(chunk@.len() as int) =~= chunk@);
            assert(self.buf@.subrange(self.pos as int, self.buf@.len() as int) =~= self.buf@.skip(
                self.pos as int,
            ));
        }
        self.buf = nb;
        self.pos = 0;
        proof {
            assert(self.buf@.skip(0) =~= self.buf@);
            assert(final(self)@.text =~= old(self)@.text + part@);
        }
    }

    /// Runs the lexer until it can yield one step.
    #[verifier::loop_isolation(false)]
    pub fn next_step(&mut self) -> (r: Step)
        requires
            old(self).wf(),
        ensures
            final(self).wf(),
            scan_next(old(self)@) == (final(self)@, r@),
    {
        loop
            invariant
                self.wf(),
                scan_next(old(self)@) == scan_next(self@),
            decreases self.buf@.len() - self.pos, sub_rank(self.state),
        {
            let ghost m = self@;
            if self.pos == self.buf.len() {
                proof {
                    assert(m.text =~= Seq::<char>::empty());
                }
                match self.state {
                    LexState::Outer => {
                        return Step::NeedMore;
                    },
                    LexState::InStr { .. } => {
                        if frag_content_check(&self.frag) {
                            let f = chars_string(self.frag.as_slice());
                            self.frag = Vec::new();
                            return Step::Event(Event::StrChunk(f));
                        }
                        self.state = LexState::Outer;
                        self.frag = Vec::new();
                        return Step::NeedMore;
                    },
                    LexState::InNum => {
                        if self.frag.len() > 0 {
                            let f = chars_string(self.frag.as_slice());
                            self.frag = Vec::new();
                            return Step::Event(Event::NumberChunk(f));
                        }
                        return Step::NeedMore;
                    },
                    LexState::InIdent => {
                        if self.frag.len() > 0 {
                            let f = chars_string(self.frag.as_slice());
                            self.frag = Vec::new();
                            return Step::Event(Event::IdentChunk(f));
                        }
                        return Step::NeedMore;
                    },
                }
            }
            let c = self.buf[self.pos];
            proof {
                assert(m.text.len() > 0);
                assert(m.text[0] == c);
                assert(m.text.skip(1) =~= self.buf@.skip(self.pos + 1 as int));
            }
            match self.state {
                LexState::Outer => {
                    if ws_char(c) || c == ',' || c == ':' {
                        self.pos = self.pos + 1;
                    } else if c == '{' {
                        self.pos = self.pos + 1;
                        return Step::Event(Event::StartObj);
                    } else if c == '}' {
                        self.pos = self.pos + 1;
                        return Step::Event(Event::EndObj);
                    } else if c == '[' {
                        self.pos = self.pos + 1;
                        return Step::Event(Event::StartArr);
                    } else if c == ']' {
                        self.pos = self.pos + 1;
                        return Step::Event(Event::EndArr);
                    } else if c == '"' || c == '\'' {
                        if self.pos + 1 == self.buf.len() {
                            return Step::NeedMore;
                        }
                        let nx = self.buf[self.pos + 1];
                        proof {
                            assert(m.text[1] == nx);
                        }
                        if nx == ',' || nx == ':' || nx == '}' || nx == ']' {
                            self.pos = self.pos + 1;
                        } else {
                            self.pos = self.pos + 1;
                            self.state = LexState::InStr { quote: c, sub: StrSub::Norm };
                            self.frag = Vec::new();
                        }
                    } else if ident_start(c) {
                        self.pos = self.pos + 1;
                        self.state = LexState::InIdent;
                        self.frag = Vec::new();
                        self.frag.push(c);
                        self.wsp = Vec::new();
                        proof {
                            assert(self.frag@ =~= seq![c]);
                        }
                    } else if num_char(c) {
                        self.pos = self.pos + 1;
                        self.state = LexState::InNum;
                        self.frag = Vec::new();
                        self.frag.push(c);
                        proof {
                            assert(self.frag@ =~= seq![c]);
                        }
                    } else {
                        self.pos = self.pos + 1;
                        return Step::Error(JsonError::UnexpectedChar(c));
                    }
                },
                LexState::InStr { quote, sub } => {
                    match sub {
                        StrSub::Norm => {
                            if c == quote {
                                let f = chars_string(self.frag.as_slice());
                                self.pos = self.pos + 1;
                                self.state = LexState::Outer;
                                self.frag = Vec::new();
                                return Step::Event(Event::StrEnd(f));
                            } else if c == '\\' {
                                self.pos = self.pos + 1;
                                self.state = LexState::InStr { quote, sub: StrSub::Esc };
                                self.frag.push(c);
                            } else {
                                self.pos = self.pos + 1;
                                self.frag.push(c);
                            }
                        },
                        StrSub::Esc => {
                            self.pos = self.pos + 1;
                            self.state = LexState::InStr {
                                quote,
                                sub: if c == 'u' {
                                    StrSub::Hex(0)
                                } else {
                                    StrSub::Norm
                                },
                            };
                            self.frag.push(c);
                        },
                        StrSub::Hex(k) => {
                            if crate::json_parser::hex_char(c) {
                                self.pos = self.pos + 1;
                                self.state = LexState::InStr {
                                    quote,
                                    sub: if k >= 3 {
                                        StrSub::Norm
                                    } else {
                                        StrSub::Hex(k + 1)
                                    },
                                };
                                self.frag.push(c);
                            } else {
                                self.state = LexState::InStr { quote, sub: StrSub::Norm };
                            }
                        },
                    }
                },
                LexState::InNum => {
                    if num_char(c) {
                        self.pos = self.pos + 1;
                        self.frag.push(c);
                    } else {
                        let f = chars_string(self.frag.as_slice());
                        self.state = LexState::Outer;
                        self.frag = Vec::new();
                        return Step::Event(Event::NumberEnd(f));
                    }
                },
                LexState::InIdent => {
                    if c == '"' || c == '\'' {
                        let f = chars_string(self.frag.as_slice());
                        self.pos = self.pos + 1;
                        self.state = LexState::Outer;
                        self.frag = Vec::new();
                        self.wsp = Vec::new();
                        return Step::Event(Event::IdentEnd(f));
                    } else if delim_char(c) {
                        let f = chars_string(self.frag.as_slice());
                        self.state = LexState::Outer;
                        self.frag = Vec::new();
                        self.wsp = Vec::new();
                        return Step::Event(Event::IdentEnd(f));
                    } else if ws_char(c) {
                        self.pos = self.pos + 1;
                        self.wsp.push(c);
                    } else {
                        self.pos = self.pos + 1;
                        let mut k: usize = 0;
                        let ghost f0 = self.frag@;
                        let ghost pos1 = self.pos;
                        while k < self.wsp.len()
                            invariant
                                k <= self.wsp@.len(),
                                self.frag@ == f0 + self.wsp@.take(k as int),
                                self.wsp@ == m.wsp,
                                self.buf@.skip(self.pos as int) =~= m.text.skip(1),
                                self.pos == pos1,
                                self.pos <= self.buf@.len(),
                                self.state == m.state,
                            decreases self.wsp@.len() - k,
                        {
                            let w = self.wsp[k];
                            self.frag.push(w);
                            proof {
                                assert(self.frag@ =~= f0 + self.wsp@.take(k + 1 as int));
                            }
                            k = k + 1;
                        }
                        self.frag.push(c);
                        self.wsp = Vec::new();
                        proof {
                            assert(m.wsp.take(m.wsp.len() as int) =~= m.wsp);
                            assert(self.frag@ =~= m.frag + m.wsp.push(c));
                        }
                    }
                },
            }
        }
    }
}

} // verus!
