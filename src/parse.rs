//! The reader. A [`Parser`] reads a sequence of JSON values from its input.
//! `null`, booleans and numbers come back whole; strings, arrays and objects
//! come back as handles ([`ParseString`], [`ParseArray`], [`ParseObject`],
//! [`KeyVal`], [`ParseChars`]) through which the caller reads them on demand.
//!
//! The parser keeps a stack of the values it has opened and not finished.
//! Only the innermost one reads input. A handle whose value is left
//! unfinished is abandoned simply by reading through an enclosing handle (or
//! the parser): the next read there first skips whatever the abandoned
//! values still hold, however deeply nested, and then yields the next item
//! of the enclosing value. A handle whose value was finished or skipped
//! reads nothing any more.
use crate::cursor::{lemma_ws_end_bounds, scan_string, scan_ws};
use crate::model::{
    array_next, frame_at, lemma_array_step_bounds, lemma_char_step_bounds,
    lemma_object_step_bounds, lemma_pair_value_bounds, lemma_settle, lemma_skip_step_progress,
    object_next, pair_key, pair_value_next, push_opened, read_str, root_next, settle, skip_step,
    string_char, string_read, weight, CharStep, Frame, FrameKind, ParserState, Token,
};
use crate::scan::{
    array_scan, char_scan, object_scan, read_item, res_model, value_scan, CharScan, Scan, Tok,
};
use crate::text::push_char;
use vstd::prelude::*;

mod private;

pub use crate::model::SyntaxError;
pub use crate::number::Number;

verus! {

/// Why a read failed: a syntax error, or a handle whose value the parser
/// has already finished.
#[derive(Debug, Copy, Clone, PartialEq, Eq, Structural)]
pub enum ErrorCode {
    Syntax(SyntaxError),
    Finished,
}

#[derive(Debug, Copy, Clone, PartialEq, Eq, Structural)]
pub struct Error {
    err: ErrorCode,
}

impl View for Error {
    type V = ErrorCode;

    closed spec fn view(&self) -> ErrorCode {
        self.err
    }
}

impl Error {
    fn new(e: SyntaxError) -> (r: Error)
        ensures
            r@ == ErrorCode::Syntax(e),
    {
        Error { err: ErrorCode::Syntax(e) }
    }

    fn finished() -> (r: Error)
        ensures
            r@ == ErrorCode::Finished,
    {
        Error { err: ErrorCode::Finished }
    }

    /// Why the read failed.
    pub fn code(&self) -> (r: ErrorCode)
        ensures
            r == self@,
    {
        self.err
    }

    /// The syntax error, if this is one.
    pub fn syntax(&self) -> (r: Option<SyntaxError>)
        ensures
            r == (match self@ {
                ErrorCode::Syntax(e) => Some(e),
                ErrorCode::Finished => None,
            }),
    {
        match self.err {
            ErrorCode::Syntax(e) => Some(e),
            ErrorCode::Finished => None,
        }
    }
}

impl From<SyntaxError> for Error {
    fn from(e: SyntaxError) -> (r: Error) {
        Error { err: ErrorCode::Syntax(e) }
    }
}

impl vstd::std_specs::convert::FromSpecImpl<SyntaxError> for Error {
    open spec fn obeys_from_spec() -> bool {
        true
    }

    closed spec fn from_spec(e: SyntaxError) -> Error {
        Error { err: ErrorCode::Syntax(e) }
    }
}

/// Reads JSON values from a byte buffer, one after another, and hands out
/// handles for strings, arrays and objects.
pub struct Parser {
    input: Input,
    frames: Vec<Frame>,
}

/// The input and how far it has been read.
struct Input {
    src: Vec<u8>,
    pos: usize,
}

impl Input {
    #[verifier::type_invariant]
    spec fn inv(&self) -> bool {
        self.pos <= self.src@.len()
    }
}

impl View for Parser {
    type V = ParserState;

    closed spec fn view(&self) -> ParserState {
        ParserState { src: self.input.src@, pos: self.input.pos as int, frames: self.frames@ }
    }
}

/// Reads the items of an array.
#[derive(Debug)]
pub struct ParseArray {
    depth: usize,
    start: usize,
}

/// Reads the members of an object.
#[derive(Debug)]
pub struct ParseObject {
    depth: usize,
    start: usize,
}

/// One member of an object. Its key and its value may each be read or
/// left; what is left is skipped.
#[derive(Debug)]
pub struct KeyVal {
    depth: usize,
    start: usize,
}

/// Reads a string, whole or one character at a time.
#[derive(Debug)]
pub struct ParseString {
    depth: usize,
    start: usize,
}

/// Reads a string one character at a time.
#[derive(Debug)]
pub struct ParseChars {
    depth: usize,
    start: usize,
}

impl ParseArray {
    pub closed spec fn depth(&self) -> int {
        self.depth as int
    }

    pub closed spec fn start(&self) -> int {
        self.start as int
    }
}

impl ParseObject {
    pub closed spec fn depth(&self) -> int {
        self.depth as int
    }

    pub closed spec fn start(&self) -> int {
        self.start as int
    }
}

impl KeyVal {
    pub closed spec fn depth(&self) -> int {
        self.depth as int
    }

    pub closed spec fn start(&self) -> int {
        self.start as int
    }
}

impl ParseString {
    pub closed spec fn depth(&self) -> int {
        self.depth as int
    }

    pub closed spec fn start(&self) -> int {
        self.start as int
    }
}

impl ParseChars {
    pub closed spec fn depth(&self) -> int {
        self.depth as int
    }

    pub closed spec fn start(&self) -> int {
        self.start as int
    }
}

/// A JSON value: whole for `null`, booleans and numbers, a handle for
/// strings, arrays and objects.
#[derive(Debug)]
pub enum Json {
    Null,
    Bool(bool),
    Number(Number),
    String(ParseString),
    Array(ParseArray),
    Object(ParseObject),
}

/// Whether the handle at (`d`, `start`) names the innermost open value.
pub open spec fn is_top(st: ParserState, d: int, start: int) -> bool {
    st.frames.len() > 0 && d == st.frames.len() - 1 && start == st.frames.last().start
}

/// Whether `j` is what token `t` yields, a handle naming the innermost open
/// value of `st`.
pub open spec fn json_is(j: Json, t: Token, st: ParserState) -> bool {
    match (j, t) {
        (Json::Null, Token::Null) => true,
        (Json::Bool(a), Token::Bool(b)) => a == b,
        (Json::Number(n), Token::Num(m)) => n@ == m,
        (Json::String(h), Token::Open(FrameKind::Str)) => is_top(st, h.depth(), h.start()),
        (Json::Array(h), Token::Open(FrameKind::Arr { .. })) => is_top(st, h.depth(), h.start()),
        (Json::Object(h), Token::Open(FrameKind::Obj)) => is_top(st, h.depth(), h.start()),
        _ => false,
    }
}

pub open spec fn result_is(r: Result<Json, Error>, m: Result<Token, SyntaxError>, st: ParserState) -> bool {
    match (r, m) {
        (Ok(j), Ok(t)) => json_is(j, t, st),
        (Err(e), Err(se)) => e@ == ErrorCode::Syntax(se),
        _ => false,
    }
}

pub open spec fn item_is(
    r: Option<Result<Json, Error>>,
    m: Option<Result<Token, SyntaxError>>,
    st: ParserState,
) -> bool {
    match (r, m) {
        (None, None) => true,
        (Some(x), Some(y)) => result_is(x, y, st),
        _ => false,
    }
}

impl Parser {
    /// A parser over a copy of `src`, at its start, with nothing open.
    pub fn new(src: &[u8]) -> (r: Parser)
        ensures
            r@ == (ParserState { src: src@, pos: 0, frames: Seq::empty() }),
    {
        let mut v: Vec<u8> = Vec::new();
        let mut i: usize = 0;
        while i < src.len()
            invariant
                i <= src@.len(),
                v@ == src@.subrange(0, i as int),
            decreases src@.len() - i,
        {
            v.push(src[i]);
            i = i + 1;
            proof {
                assert(v@ =~= src@.subrange(0, i as int));
            }
        }
        proof {
            assert(v@ =~= src@);
        }
        Parser { input: Input { src: v, pos: 0 }, frames: Vec::new() }
    }

    /// One step of finishing the innermost open value.
    fn skip_one(&mut self)
        requires
            old(self)@.frames.len() > 0,
        ensures
            final(self)@.src == old(self)@.src,
            (final(self)@.pos, final(self)@.frames) == skip_step(
                old(self)@.src,
                old(self)@.pos,
                old(self)@.frames,
            ),
    {
        proof {
            use_type_invariant(&self.input);
            lemma_skip_step_progress(self@.src, self@.pos, self@.frames);
        }
        let f = self.frames.pop().unwrap();
        match f.kind {
            FrameKind::Str => {
                self.input.pos = scan_string(&self.input.src, self.input.pos);
            },
            FrameKind::Arr { needs_comma } => {
                let (q, nc, st) = array_scan(&self.input.src, self.input.pos, needs_comma);
                self.input.pos = q;
                match st {
                    Scan::End => {},
                    Scan::Next(r) => {
                        self.frames.push(Frame { kind: FrameKind::Arr { needs_comma: nc }, start: f.start });
                        self.push_opened(&r, q);
                    },
                }
            },
            FrameKind::Obj => {
                let (q, st) = object_scan(&self.input.src, self.input.pos);
                self.input.pos = q;
                match st {
                    Scan::End => {},
                    Scan::Next(r) => {
                        self.frames.push(f);
                        self.push_opened(&r, q);
                    },
                }
            },
            FrameKind::Pair { key_consumed } => {
                if !key_consumed {
                    self.input.pos = scan_string(&self.input.src, self.input.pos);
                    self.frames.push(Frame { kind: FrameKind::Pair { key_consumed: true }, start: f.start });
                } else {
                    let (q, r) = value_scan(&self.input.src, self.input.pos, true);
                    self.input.pos = q;
                    self.push_opened(&r, q);
                }
            },
        }
    }

    fn push_opened(&mut self, r: &Result<Tok, SyntaxError>, q: usize)
        ensures
            final(self).input == old(self).input,
            final(self).frames@ == push_opened(old(self).frames@, res_model(*r), q as int),
    {
        if let Ok(Tok::Open(k)) = r {
            self.frames.push(Frame { kind: *k, start: q });
        }
    }

    /// Finishes open values, innermost first, until at most `d` remain.
    fn settle(&mut self, d: usize)
        requires
            d <= old(self)@.frames.len(),
        ensures
            final(self)@.src == old(self)@.src,
            (final(self)@.pos, final(self)@.frames) == settle(
                old(self)@.src,
                old(self)@.pos,
                old(self)@.frames,
                d as int,
            ),
            final(self)@.frames =~= old(self)@.frames.subrange(0, d as int),
    {
        proof {
            use_type_invariant(&self.input);
            lemma_settle(self@.src, self@.pos, self@.frames, d as int);
        }
        let ghost s0 = self@;
        while self.frames.len() > d
            invariant
                self@.src == s0.src,
                0 <= self@.pos <= self@.src.len(),
                d <= self@.frames.len(),
                settle(self@.src, self@.pos, self@.frames, d as int) == settle(
                    s0.src,
                    s0.pos,
                    s0.frames,
                    d as int,
                ),
            decreases self@.src.len() - self@.pos, weight(self@.frames),
        {
            proof {
                lemma_skip_step_progress(self@.src, self@.pos, self@.frames);
            }
            self.skip_one();
            proof {
                use_type_invariant(&self.input);
            }
        }
    }

    /// The next top-level value; `None` once the input is exhausted. Values
    /// left open are skipped first.
    pub fn next(&mut self) -> (r: Option<Result<Json, Error>>)
        ensures
            final(self)@ == root_next(old(self)@).0,
            item_is(r, root_next(old(self)@).1, final(self)@),
            r is Some ==> final(self)@.pos > old(self)@.pos,
            r is None ==> final(self)@.pos == final(self)@.src.len(),
    {
        proof {
            use_type_invariant(&self.input);
            crate::model::lemma_root_next_progress(self@);
        }
        self.settle(0);
        proof {
            use_type_invariant(&self.input);
        }
        let p = scan_ws(&self.input.src, self.input.pos);
        proof {
            lemma_ws_end_bounds(self@.src, self@.pos);
        }
        if p >= self.input.src.len() {
            self.input.pos = p;
            return None;
        }
        let (q, r) = read_item(&self.input.src, p);
        proof {
            crate::model::lemma_dispatch_not_pair(self@.src, p as int);
            crate::model::lemma_dispatch_bounds(self@.src, p as int);
        }
        self.input.pos = q;
        self.push_opened(&r, q);
        Some(self.json_of(r, q))
    }

    fn frame_kind(&self, d: usize, start: usize) -> (r: Option<FrameKind>)
        ensures
            self@.frames.len() <= usize::MAX,
            r == (match frame_at(self@, d as int, start as int) {
                Some(f) => Some(f.kind),
                None => None,
            }),
    {
        if d < self.frames.len() && self.frames[d].start == start {
            Some(self.frames[d].kind)
        } else {
            None
        }
    }

    /// Reads the rest of a string body into `buf`.
    fn read_rest(&mut self, buf: &mut String) -> (r: Result<(), SyntaxError>)
        ensures
            final(self)@.src == old(self)@.src,
            final(self)@.frames == old(self)@.frames,
            final(self)@.pos == read_str(old(self)@.src, old(self)@.pos).0,
            match read_str(old(self)@.src, old(self)@.pos).1 {
                Ok(t) => r is Ok && final(buf)@ == old(buf)@ + t,
                Err(e) => r == Err::<(), SyntaxError>(e) && final(buf)@.len() >= old(buf)@.len()
                    && final(buf)@.subrange(0, old(buf)@.len() as int) == old(buf)@,
            },
    {
        proof {
            use_type_invariant(&self.input);
        }
        let ghost s0 = self@;
        let ghost b0 = buf@;
        let ghost mut acc: Seq<char> = Seq::empty();
        loop
            invariant
                s0 == old(self)@,
                b0 == old(buf)@,
                self@.src == s0.src,
                self@.frames == s0.frames,
                0 <= self@.pos <= self@.src.len(),
                buf@ == b0 + acc,
                read_str(s0.src, s0.pos).0 == read_str(self@.src, self@.pos).0,
                read_str(s0.src, s0.pos).1 == (match read_str(self@.src, self@.pos).1 {
                    Ok(t) => Ok(acc + t),
                    Err(e) => Err(e),
                }),
            decreases self@.src.len() - self@.pos,
        {
            proof {
                lemma_char_step_bounds(self@.src, self@.pos);
            }
            let (q, c) = char_scan(&self.input.src, self.input.pos);
            self.input.pos = q;
            match c {
                CharScan::End => {
                    proof {
                        assert(acc + Seq::<char>::empty() =~= acc);
                    }
                    return Ok(());
                },
                CharScan::Fail(e) => {
                    proof {
                        assert(buf@.subrange(0, b0.len() as int) =~= b0);
                    }
                    return Err(e);
                },
                CharScan::Char(ch) => {
                    push_char(buf, ch);
                    proof {
                        let ghost old_acc = acc;
                        acc = acc.push(ch);
                        assert(buf@ =~= b0 + acc);
                        assert forall|t: Seq<char>| old_acc + (seq![ch] + t) =~= acc + t by {}
                    }
                },
            }
        }
    }

    /// The value a read token yields; a handle names the innermost frame.
    fn json_of(&self, r: Result<Tok, SyntaxError>, q: usize) -> (j: Result<Json, Error>)
        requires
            res_model(r) matches Ok(Token::Open(_)) ==> self@.frames.len() > 0
                && self@.frames.last().start == q,
            !(res_model(r) matches Ok(Token::Open(FrameKind::Pair { .. }))),
        ensures
            result_is(j, res_model(r), self@),
    {
        match r {
            Err(e) => Err(Error::new(e)),
            Ok(Tok::Null) => Ok(Json::Null),
            Ok(Tok::Bool(b)) => Ok(Json::Bool(b)),
            Ok(Tok::Num(n)) => Ok(Json::Number(n)),
            Ok(Tok::Open(k)) => {
                let d = self.frames.len() - 1;
                match k {
                    FrameKind::Str => Ok(Json::String(ParseString { depth: d, start: q })),
                    FrameKind::Arr { .. } => Ok(Json::Array(ParseArray { depth: d, start: q })),
                    FrameKind::Obj => Ok(Json::Object(ParseObject { depth: d, start: q })),
                    FrameKind::Pair { .. } => Err(Error::new(SyntaxError::KeyMustBeAString)),
                }
            },
        }
    }
}

pub open spec fn member_is(
    r: Option<Result<KeyVal, Error>>,
    m: Option<Result<Token, SyntaxError>>,
    st: ParserState,
) -> bool {
    match (r, m) {
        (None, None) => true,
        (Some(Ok(kv)), Some(Ok(Token::Open(FrameKind::Pair { .. })))) => is_top(
            st,
            kv.depth(),
            kv.start(),
        ),
        (Some(Err(e)), Some(Err(se))) => e@ == ErrorCode::Syntax(se),
        _ => false,
    }
}

impl ParseArray {
    /// The next item of the array; `None` at its end. Anything left open
    /// inside the array is skipped first. A comma with no item before it
    /// yields `TrailingComma`, and an item with no comma before it
    /// `MissingComma`; reading goes on after either. `None` also once the
    /// array was finished or skipped.
    pub fn next(&self, p: &mut Parser) -> (r: Option<Result<Json, Error>>)
        ensures
            final(p)@ == array_next(old(p)@, self.depth(), self.start()).0,
            item_is(r, array_next(old(p)@, self.depth(), self.start()).1, final(p)@),
    {
        proof {
            use_type_invariant(&p.input);
        }
        let nc = match p.frame_kind(self.depth, self.start) {
            Some(FrameKind::Arr { needs_comma }) => needs_comma,
            _ => {
                return None;
            },
        };
        p.settle(self.depth + 1);
        proof {
            use_type_invariant(&p.input);
            lemma_array_step_bounds(p@.src, p@.pos, nc);
            crate::model::lemma_array_step_not_pair(p@.src, p@.pos, nc);
        }
        let (q, nc2, st) = array_scan(&p.input.src, p.input.pos, nc);
        p.input.pos = q;
        p.frames.pop();
        match st {
            Scan::End => None,
            Scan::Next(r) => {
                p.frames.push(Frame { kind: FrameKind::Arr { needs_comma: nc2 }, start: self.start });
                proof {
                    assert(p@.frames =~= old(p)@.frames.subrange(0, self.depth + 1).update(
                        self.depth as int,
                        Frame { kind: FrameKind::Arr { needs_comma: nc2 }, start: self.start },
                    ));
                }
                p.push_opened(&r, q);
                Some(p.json_of(r, q))
            },
        }
    }
}

impl ParseObject {
    /// The next member of the object; `None` at its end. Anything left open
    /// inside the object is skipped first. Commas between members are
    /// optional. A member that does not start with `"` yields
    /// `KeyMustBeAString`, and reading goes on after its first byte. `None`
    /// also once the object was finished or skipped.
    pub fn next(&self, p: &mut Parser) -> (r: Option<Result<KeyVal, Error>>)
        ensures
            final(p)@ == object_next(old(p)@, self.depth(), self.start()).0,
            member_is(r, object_next(old(p)@, self.depth(), self.start()).1, final(p)@),
    {
        proof {
            use_type_invariant(&p.input);
        }
        match p.frame_kind(self.depth, self.start) {
            Some(FrameKind::Obj) => {},
            _ => {
                return None;
            },
        }
        p.settle(self.depth + 1);
        proof {
            use_type_invariant(&p.input);
            lemma_object_step_bounds(p@.src, p@.pos);
        }
        let ghost t = p@;
        assert(t.frames.len() == self.depth + 1);
        let (q, st) = object_scan(&p.input.src, p.input.pos);
        p.input.pos = q;
        match st {
            Scan::End => {
                p.frames.pop();
                proof {
                    assert(p@.frames =~= t.frames.drop_last());
                }
                None
            },
            Scan::Next(Ok(_)) => {
                p.frames.push(Frame { kind: FrameKind::Pair { key_consumed: false }, start: q });
                proof {
                    crate::model::lemma_object_step_member(t.src, t.pos);
                    assert(p@.frames =~= t.frames.push(Frame { kind: FrameKind::Pair { key_consumed: false }, start: q }));
                }
                Some(Ok(KeyVal { depth: self.depth + 1, start: q }))
            },
            Scan::Next(Err(e)) => Some(Err(Error::new(e))),
        }
    }
}

impl KeyVal {
    /// A handle on the key of this member. Called a second time, or once
    /// the member was finished or skipped, it returns a handle that names
    /// no open string and reads nothing.
    pub fn key(&self, p: &mut Parser) -> (r: ParseString)
        ensures
            final(p)@ == pair_key(old(p)@, self.depth(), self.start()).0,
            pair_key(old(p)@, self.depth(), self.start()).1 ==> is_top(final(p)@, r.depth(), r.start()),
            !pair_key(old(p)@, self.depth(), self.start()).1 ==> frame_at(final(p)@, r.depth(), r.start()) is None,
    {
        proof {
            use_type_invariant(&p.input);
        }
        let n = p.frames.len();
        match p.frame_kind(self.depth, self.start) {
            Some(FrameKind::Pair { key_consumed: false }) => {},
            _ => {
                return ParseString { depth: n, start: 0 };
            },
        }
        p.settle(self.depth + 1);
        proof {
            use_type_invariant(&p.input);
        }
        p.frames.pop();
        p.frames.push(Frame { kind: FrameKind::Pair { key_consumed: true }, start: self.start });
        let at = p.input.pos;
        p.frames.push(Frame { kind: FrameKind::Str, start: at });
        proof {
            assert(p@.frames =~= old(p)@.frames.subrange(0, self.depth + 1).update(
                self.depth as int,
                Frame { kind: FrameKind::Pair { key_consumed: true }, start: self.start },
            ).push(Frame { kind: FrameKind::Str, start: at }));
        }
        ParseString { depth: self.depth + 1, start: at }
    }

    /// The value of this member, skipping its key first if it was not read
    /// (or not read to its end). Fails with `Finished` once the member was
    /// skipped.
    pub fn value(self, p: &mut Parser) -> (r: Result<Json, Error>)
        ensures
            final(p)@ == pair_value_next(old(p)@, self.depth(), self.start()).0,
            match pair_value_next(old(p)@, self.depth(), self.start()).1 {
                None => r matches Err(e) && e@ == ErrorCode::Finished,
                Some(m) => result_is(r, m, final(p)@),
            },
    {
        proof {
            use_type_invariant(&p.input);
        }
        let kc = match p.frame_kind(self.depth, self.start) {
            Some(FrameKind::Pair { key_consumed }) => key_consumed,
            _ => {
                return Err(Error::finished());
            },
        };
        p.settle(self.depth + 1);
        proof {
            use_type_invariant(&p.input);
            lemma_pair_value_bounds(p@.src, p@.pos, kc);
            crate::model::lemma_pair_value_not_pair(p@.src, p@.pos, kc);
        }
        let (q, r) = value_scan(&p.input.src, p.input.pos, kc);
        p.input.pos = q;
        p.frames.pop();
        p.push_opened(&r, q);
        p.json_of(r, q)
    }
}

pub open spec fn read_is(r: Result<Seq<char>, Error>, m: Option<Result<Seq<char>, SyntaxError>>) -> bool {
    match m {
        None => r matches Err(e) && e@ == ErrorCode::Finished,
        Some(Ok(t)) => r == Ok::<Seq<char>, Error>(t),
        Some(Err(se)) => r matches Err(e) && e@ == ErrorCode::Syntax(se),
    }
}

impl ParseString {
    /// Reads the rest of the string into a new `String`. Escapes are
    /// decoded; any other byte stands for the character of the same value.
    /// After a syntax error the rest of the string is skipped by the next
    /// read on an enclosing handle.
    pub fn read_owned(self, p: &mut Parser) -> (r: Result<String, Error>)
        ensures
            final(p)@ == string_read(old(p)@, self.depth(), self.start()).0,
            read_is(
                match r {
                    Ok(s) => Ok(s@),
                    Err(e) => Err(e),
                },
                string_read(old(p)@, self.depth(), self.start()).1,
            ),
    {
        let mut buf = String::new();
        match self.read_into(p, &mut buf) {
            Ok(()) => {
                proof {
                    assert(buf@.subrange(0, buf@.len() as int) =~= buf@);
                }
                Ok(buf)
            },
            Err(e) => Err(e),
        }
    }

    /// Reads the rest of the string and appends it to `buf`. On an error,
    /// what was decoded before it stays appended.
    pub fn read_into(self, p: &mut Parser, buf: &mut String) -> (r: Result<(), Error>)
        ensures
            final(p)@ == string_read(old(p)@, self.depth(), self.start()).0,
            final(buf)@.len() >= old(buf)@.len(),
            final(buf)@.subrange(0, old(buf)@.len() as int) == old(buf)@,
            read_is(
                match r {
                    Ok(_) => Ok(final(buf)@.subrange(old(buf)@.len() as int, final(buf)@.len() as int)),
                    Err(e) => Err(e),
                },
                string_read(old(p)@, self.depth(), self.start()).1,
            ),
    {
        proof {
            use_type_invariant(&p.input);
        }
        match p.frame_kind(self.depth, self.start) {
            Some(FrameKind::Str) => {},
            _ => {
                proof {
                    assert(buf@.subrange(0, buf@.len() as int) =~= buf@);
                }
                return Err(Error::finished());
            },
        }
        p.settle(self.depth + 1);
        let ghost b0 = buf@;
        let r = p.read_rest(buf);
        match r {
            Ok(()) => {
                p.frames.pop();
                proof {
                    assert(buf@.subrange(0, b0.len() as int) =~= b0);
                    let t = read_str(
                        old(p)@.src,
                        settle(old(p)@.src, old(p)@.pos, old(p)@.frames, self.depth + 1).0,
                    ).1->Ok_0;
                    assert(buf@.subrange(b0.len() as int, buf@.len() as int) =~= t);
                }
                Ok(())
            },
            Err(e) => {
                if e == SyntaxError::EofWhileParsingString {
                    p.frames.pop();
                }
                Err(Error::new(e))
            },
        }
    }

    /// Reads the string one character at a time instead.
    pub fn read_chars(self) -> (r: ParseChars)
        ensures
            r.depth() == self.depth(),
            r.start() == self.start(),
    {
        ParseChars { depth: self.depth, start: self.start }
    }
}

impl ParseChars {
    /// The next character of the string; `None` after its closing quote, or
    /// once it was finished or skipped. An error leaves the string open,
    /// but for `EofWhileParsingString`.
    pub fn next(&self, p: &mut Parser) -> (r: Option<Result<char, Error>>)
        ensures
            final(p)@ == string_char(old(p)@, self.depth(), self.start()).0,
            match string_char(old(p)@, self.depth(), self.start()).1 {
                None => r is None,
                Some(CharStep::End) => r is None,
                Some(CharStep::Char(c)) => r == Some(Ok::<char, Error>(c)),
                Some(CharStep::Fail(se)) => r matches Some(Err(e)) && e@ == ErrorCode::Syntax(se),
            },
    {
        proof {
            use_type_invariant(&p.input);
        }
        match p.frame_kind(self.depth, self.start) {
            Some(FrameKind::Str) => {},
            _ => {
                return None;
            },
        }
        p.settle(self.depth + 1);
        proof {
            use_type_invariant(&p.input);
            lemma_char_step_bounds(p@.src, p@.pos);
        }
        let (q, c) = char_scan(&p.input.src, p.input.pos);
        p.input.pos = q;
        match c {
            CharScan::End => {
                p.frames.pop();
                None
            },
            CharScan::Char(ch) => Some(Ok(ch)),
            CharScan::Fail(e) => {
                if e == SyntaxError::EofWhileParsingString {
                    p.frames.pop();
                }
                Some(Err(Error::new(e)))
            },
        }
    }
}

/// Typed access to a read value, or to the result of a read.
pub trait JsonAccess: Sized + private::Sealed {
    /// The value held, if any.
    spec fn json(&self) -> Option<Json>;

    fn is_null(&self) -> (r: bool)
        ensures
            r == (self.json() matches Some(Json::Null)),
    ;

    fn is_bool(&self) -> (r: bool)
        ensures
            r == (self.json() matches Some(Json::Bool(_))),
    ;

    fn is_number(&self) -> (r: bool)
        ensures
            r == (self.json() matches Some(Json::Number(_))),
    ;

    fn is_string(&self) -> (r: bool)
        ensures
            r == (self.json() matches Some(Json::String(_))),
    ;

    fn is_array(&self) -> (r: bool)
        ensures
            r == (self.json() matches Some(Json::Array(_))),
    ;

    fn is_object(&self) -> (r: bool)
        ensures
            r == (self.json() matches Some(Json::Object(_))),
    ;

    fn as_null(&self) -> (r: Option<()>)
        ensures
            r is Some == (self.json() matches Some(Json::Null)),
    ;

    fn as_bool(&self) -> (r: Option<bool>)
        ensures
            r == (match self.json() {
                Some(Json::Bool(b)) => Some(b),
                _ => None,
            }),
    ;

    fn as_number(&self) -> (r: Option<Number>)
        ensures
            match self.json() {
                Some(Json::Number(n)) => r is Some && r.unwrap()@ == n@,
                _ => r is None,
            },
    ;

    fn as_string(self) -> (r: Option<ParseString>)
        ensures
            r == (match self.json() {
                Some(Json::String(h)) => Some(h),
                _ => None,
            }),
    ;

    fn as_array(self) -> (r: Option<ParseArray>)
        ensures
            r == (match self.json() {
                Some(Json::Array(h)) => Some(h),
                _ => None,
            }),
    ;

    fn as_object(self) -> (r: Option<ParseObject>)
        ensures
            r == (match self.json() {
                Some(Json::Object(h)) => Some(h),
                _ => None,
            }),
    ;
}

impl Json {
    fn number_of(&self) -> (r: Option<Number>)
        ensures
            match *self {
                Json::Number(n) => r is Some && r.unwrap()@ == n@,
                _ => r is None,
            },
    {
        match self {
            Json::Number(n) => Some(n.copy()),
            _ => None,
        }
    }
}

impl private::Sealed for Json {}

impl JsonAccess for Json {
    open spec fn json(&self) -> Option<Json> {
        Some(*self)
    }

    fn is_null(&self) -> (r: bool) {
        matches!(self, Json::Null)
    }

    fn is_bool(&self) -> (r: bool) {
        matches!(self, Json::Bool(_))
    }

    fn is_number(&self) -> (r: bool) {
        matches!(self, Json::Number(_))
    }

    fn is_string(&self) -> (r: bool) {
        matches!(self, Json::String(_))
    }

    fn is_array(&self) -> (r: bool) {
        matches!(self, Json::Array(_))
    }

    fn is_object(&self) -> (r: bool) {
        matches!(self, Json::Object(_))
    }

    fn as_null(&self) -> (r: Option<()>) {
        match self {
            Json::Null => Some(()),
            _ => None,
        }
    }

    fn as_bool(&self) -> (r: Option<bool>) {
        match self {
            Json::Bool(b) => Some(*b),
            _ => None,
        }
    }

    fn as_number(&self) -> (r: Option<Number>) {
        self.number_of()
    }

    fn as_string(self) -> (r: Option<ParseString>) {
        match self {
            Json::String(h) => Some(h),
            _ => None,
        }
    }

    fn as_array(self) -> (r: Option<ParseArray>) {
        match self {
            Json::Array(h) => Some(h),
            _ => None,
        }
    }

    fn as_object(self) -> (r: Option<ParseObject>) {
        match self {
            Json::Object(h) => Some(h),
            _ => None,
        }
    }
}

impl private::Sealed for Result<Json, Error> {}

impl JsonAccess for Result<Json, Error> {
    open spec fn json(&self) -> Option<Json> {
        match *self {
            Ok(j) => Some(j),
            Err(_) => None,
        }
    }

    fn is_null(&self) -> (r: bool) {
        matches!(self, Ok(Json::Null))
    }

    fn is_bool(&self) -> (r: bool) {
        matches!(self, Ok(Json::Bool(_)))
    }

    fn is_number(&self) -> (r: bool) {
        matches!(self, Ok(Json::Number(_)))
    }

    fn is_string(&self) -> (r: bool) {
        matches!(self, Ok(Json::String(_)))
    }

    fn is_array(&self) -> (r: bool) {
        matches!(self, Ok(Json::Array(_)))
    }

    fn is_object(&self) -> (r: bool) {
        matches!(self, Ok(Json::Object(_)))
    }

    fn as_null(&self) -> (r: Option<()>) {
        match self {
            Ok(Json::Null) => Some(()),
            _ => None,
        }
    }

    fn as_bool(&self) -> (r: Option<bool>) {
        match self {
            Ok(Json::Bool(b)) => Some(*b),
            _ => None,
        }
    }

    fn as_number(&self) -> (r: Option<Number>) {
        match self {
            Ok(j) => j.number_of(),
            Err(_) => None,
        }
    }

    fn as_string(self) -> (r: Option<ParseString>) {
        match self {
            Ok(Json::String(h)) => Some(h),
            _ => None,
        }
    }

    fn as_array(self) -> (r: Option<ParseArray>) {
        match self {
            Ok(Json::Array(h)) => Some(h),
            _ => None,
        }
    }

    fn as_object(self) -> (r: Option<ParseObject>) {
        match self {
            Ok(Json::Object(h)) => Some(h),
            _ => None,
        }
    }
}

impl private::Sealed for Option<Result<Json, Error>> {}

impl JsonAccess for Option<Result<Json, Error>> {
    open spec fn json(&self) -> Option<Json> {
        match *self {
            Some(Ok(j)) => Some(j),
            _ => None,
        }
    }

    fn is_null(&self) -> (r: bool) {
        matches!(self, Some(Ok(Json::Null)))
    }

    fn is_bool(&self) -> (r: bool) {
        matches!(self, Some(Ok(Json::Bool(_))))
    }

    fn is_number(&self) -> (r: bool) {
        matches!(self, Some(Ok(Json::Number(_))))
    }

    fn is_string(&self) -> (r: bool) {
        matches!(self, Some(Ok(Json::String(_))))
    }

    fn is_array(&self) -> (r: bool) {
        matches!(self, Some(Ok(Json::Array(_))))
    }

    fn is_object(&self) -> (r: bool) {
        matches!(self, Some(Ok(Json::Object(_))))
    }

    fn as_null(&self) -> (r: Option<()>) {
        match self {
            Some(Ok(Json::Null)) => Some(()),
            _ => None,
        }
    }

    fn as_bool(&self) -> (r: Option<bool>) {
        match self {
            Some(Ok(Json::Bool(b))) => Some(*b),
            _ => None,
        }
    }

    fn as_number(&self) -> (r: Option<Number>) {
        match self {
            Some(Ok(j)) => j.number_of(),
            _ => None,
        }
    }

    fn as_string(self) -> (r: Option<ParseString>) {
        match self {
            Some(Ok(Json::String(h))) => Some(h),
            _ => None,
        }
    }

    fn as_array(self) -> (r: Option<ParseArray>) {
        match self {
            Some(Ok(Json::Array(h))) => Some(h),
            _ => None,
        }
    }

    fn as_object(self) -> (r: Option<ParseObject>) {
        match self {
            Some(Ok(Json::Object(h))) => Some(h),
            _ => None,
        }
    }
}

} // verus!
