//! The reader as a state machine over its input: what each step reads, what
//! it yields and how the stack of open values changes.
use crate::cursor::{
    is_ws, lemma_num_end_bounds, lemma_run_end_bounds, lemma_string_end_bounds, lemma_ws_end_bounds,
    num_end, run_end, string_end, ws_end,
};
use crate::number::{is_digit, number_of, NumberModel};
use crate::text::{byte_char, is_scalar};
use vstd::prelude::*;

verus! {

/// Syntax errors that the reader reports. A reported error does not end the
/// enclosing value: reading can go on with its next item.
#[derive(Debug, Copy, Clone, PartialEq, Eq, Hash, Structural)]
#[non_exhaustive]
pub enum SyntaxError {
    /// A bare word other than `null`, `true` or `false`, or a byte that
    /// starts no value.
    InvalidIdentifier,
    /// An array item that does not follow a comma.
    MissingComma,
    EofWhileParsingList,
    EofWhileParsingObject,
    /// The input ended inside a string.
    EofWhileParsingString,
    /// The input ended where a value was due.
    EofWhileParsingValue,
    /// An object key not followed by `:`.
    ExpectedColon,
    /// A backslash followed by a byte that starts no escape.
    InvalidEscape,
    /// A run of number bytes that reads as no number.
    InvalidNumber,
    NumberOutOfRange,
    /// A `\u{...}` escape whose value is no Unicode scalar value.
    InvalidUnicodeCodePoint,
    ControlCharacterWhileParsingString,
    /// Something other than a string where an object key was due.
    KeyMustBeAString,
    LoneLeadingSurrogateInHexEscape,
    /// A comma with no array item before it.
    TrailingComma,
    TrailingCharacters,
    UnexpectedEndOfHexEscape,
    RecursionLimitExceeded,
}

/// The kind of an open value, with the state its reader keeps.
#[derive(Debug, Copy, Clone, PartialEq, Eq, Structural)]
pub enum FrameKind {
    /// A string body.
    Str,
    /// An array; `needs_comma` is set after an item.
    Arr { needs_comma: bool },
    /// An object, between its members.
    Obj,
    /// One object member; `key_consumed` is set once its key was taken.
    Pair { key_consumed: bool },
}

/// An open value: its kind and the input position just past its opening.
#[derive(Debug, Copy, Clone, PartialEq, Eq, Structural)]
pub struct Frame {
    pub kind: FrameKind,
    pub start: usize,
}

/// The whole state of a reader: its input, how far it has read, and the
/// values it has opened and not finished, outermost first.
pub ghost struct ParserState {
    pub src: Seq<u8>,
    pub pos: int,
    pub frames: Seq<Frame>,
}

/// What reading one value yields: a whole scalar, or the opening of a value
/// read through a handle.
pub ghost enum Token {
    Null,
    Bool(bool),
    Num(NumberModel),
    Open(FrameKind),
}

/// What one step of a container yields: its end, or its next item.
pub ghost enum Step {
    End,
    Next(Result<Token, SyntaxError>),
}

/// What one step of a string body yields.
pub ghost enum CharStep {
    End,
    Char(char),
    Fail(SyntaxError),
}

pub open spec fn is_alpha(b: u8) -> bool {
    (0x41u8 <= b && b <= 0x5Au8) || (0x61u8 <= b && b <= 0x7Au8)
}

/// Matches the rest `w` of a bare word from `i`. On a mismatch the rest of
/// the run up to whitespace is consumed.
pub open spec fn ident_end(s: Seq<u8>, i: int, w: Seq<u8>) -> (int, Option<SyntaxError>)
    decreases w.len(),
{
    if w.len() == 0 {
        (i, None)
    } else if i >= s.len() {
        (i, Some(SyntaxError::EofWhileParsingValue))
    } else if s[i] != w[0] {
        (run_end(s, i), Some(SyntaxError::InvalidIdentifier))
    } else {
        ident_end(s, i + 1, w.drop_first())
    }
}

pub open spec fn word_ull() -> Seq<u8> {
    seq![0x75u8, 0x6Cu8, 0x6Cu8]
}

pub open spec fn word_rue() -> Seq<u8> {
    seq![0x72u8, 0x75u8, 0x65u8]
}

pub open spec fn word_alse() -> Seq<u8> {
    seq![0x61u8, 0x6Cu8, 0x73u8, 0x65u8]
}

pub open spec fn ident_token(s: Seq<u8>, i: int, w: Seq<u8>, t: Token) -> (int, Result<Token, SyntaxError>) {
    let (e, r) = ident_end(s, i, w);
    match r {
        None => (e, Ok(t)),
        Some(err) => (e, Err(err)),
    }
}

/// Reads one value whose first byte is `s[i]`: the position after it and
/// what it yields.
pub open spec fn dispatch(s: Seq<u8>, i: int) -> (int, Result<Token, SyntaxError>) {
    let b = s[i];
    if is_digit(b) || b == 0x2Du8 {
        let e = num_end(s, i + 1);
        match number_of(s.subrange(i, e)) {
            Some(n) => (e, Ok(Token::Num(n))),
            None => (e, Err(SyntaxError::InvalidNumber)),
        }
    } else if b == 0x6Eu8 {
        ident_token(s, i + 1, word_ull(), Token::Null)
    } else if b == 0x74u8 {
        ident_token(s, i + 1, word_rue(), Token::Bool(true))
    } else if b == 0x66u8 {
        ident_token(s, i + 1, word_alse(), Token::Bool(false))
    } else if b == 0x5Bu8 {
        (i + 1, Ok(Token::Open(FrameKind::Arr { needs_comma: false })))
    } else if b == 0x7Bu8 {
        (i + 1, Ok(Token::Open(FrameKind::Obj)))
    } else if b == 0x22u8 {
        (i + 1, Ok(Token::Open(FrameKind::Str)))
    } else if is_alpha(b) {
        (run_end(s, i + 1), Err(SyntaxError::InvalidIdentifier))
    } else {
        (i + 1, Err(SyntaxError::InvalidIdentifier))
    }
}

/// One step of an array from `p`: the new position, the new `needs_comma`,
/// and what it yields.
pub open spec fn array_step(s: Seq<u8>, p: int, nc: bool) -> (int, bool, Step)
    decreases s.len() - p,
{
    if p < 0 || p >= s.len() {
        (p, nc, Step::End)
    } else if s[p] == 0x5Du8 {
        (p + 1, nc, Step::End)
    } else if s[p] == 0x2Cu8 {
        if nc {
            array_step(s, p + 1, false)
        } else {
            (p + 1, false, Step::Next(Err(SyntaxError::TrailingComma)))
        }
    } else if is_ws(s[p]) {
        array_step(s, p + 1, nc)
    } else if nc {
        (p, false, Step::Next(Err(SyntaxError::MissingComma)))
    } else {
        let (q, r) = dispatch(s, p);
        (q, true, Step::Next(r))
    }
}

/// One step of an object from `p`: the new position and what it yields.
/// An item is the opening of a member, just past the `"` of its key.
pub open spec fn object_step(s: Seq<u8>, p: int) -> (int, Step)
    decreases s.len() - p,
{
    if p < 0 || p >= s.len() {
        (p, Step::End)
    } else if is_ws(s[p]) || s[p] == 0x2Cu8 {
        object_step(s, p + 1)
    } else if s[p] == 0x7Du8 {
        (p + 1, Step::End)
    } else if s[p] == 0x22u8 {
        (p + 1, Step::Next(Ok(Token::Open(FrameKind::Pair { key_consumed: false }))))
    } else {
        (p + 1, Step::Next(Err(SyntaxError::KeyMustBeAString)))
    }
}

/// Reads the value of a member from `p`, skipping the rest of its key first
/// unless it was consumed.
pub open spec fn pair_value(s: Seq<u8>, p: int, key_consumed: bool) -> (int, Result<Token, SyntaxError>) {
    let after_key = if key_consumed { p } else { string_end(s, p, false) };
    let colon_at = ws_end(s, after_key);
    if colon_at >= s.len() {
        (colon_at, Err(SyntaxError::EofWhileParsingValue))
    } else if s[colon_at] != 0x3Au8 {
        (colon_at, Err(SyntaxError::ExpectedColon))
    } else {
        let value_at = ws_end(s, colon_at + 1);
        if value_at >= s.len() {
            (value_at, Err(SyntaxError::EofWhileParsingValue))
        } else {
            dispatch(s, value_at)
        }
    }
}

pub open spec fn is_hex(b: u8) -> bool {
    is_digit(b) || (0x61u8 <= b && b <= 0x66u8) || (0x41u8 <= b && b <= 0x46u8)
}

pub open spec fn hex_digit(b: u8) -> nat {
    if is_digit(b) {
        (b - 0x30u8) as nat
    } else if 0x61u8 <= b && b <= 0x66u8 {
        (b - 0x61u8 + 10) as nat
    } else {
        (b - 0x41u8 + 10) as nat
    }
}

/// The value of a run of hexadecimal digits.
pub open spec fn hex_value(t: Seq<u8>) -> nat
    decreases t.len(),
{
    if t.len() == 0 {
        0
    } else {
        hex_value(t.drop_last()) * 16 + hex_digit(t.last())
    }
}

pub open spec fn hex_end(s: Seq<u8>, i: int) -> int
    decreases s.len() - i,
{
    if 0 <= i < s.len() && is_hex(s[i]) {
        hex_end(s, i + 1)
    } else {
        i
    }
}

/// The byte that a one-letter escape `\e` stands for.
pub open spec fn escape_byte(e: u8) -> Option<u8> {
    if e == 0x22u8 || e == 0x5Cu8 || e == 0x2Fu8 {
        Some(e)
    } else if e == 0x6Eu8 {
        Some(0x0Au8)
    } else if e == 0x72u8 {
        Some(0x0Du8)
    } else if e == 0x74u8 {
        Some(0x09u8)
    } else if e == 0x62u8 {
        Some(0x08u8)
    } else if e == 0x66u8 {
        Some(0x0Cu8)
    } else {
        None
    }
}

/// Reads a `\u{...}` escape whose `{` is due at `q`.
pub open spec fn unicode_step(s: Seq<u8>, q: int) -> (int, CharStep) {
    if q >= s.len() {
        (q, CharStep::Fail(SyntaxError::EofWhileParsingString))
    } else if s[q] != 0x7Bu8 {
        (q, CharStep::Fail(SyntaxError::InvalidEscape))
    } else {
        let h = hex_end(s, q + 1);
        if h >= s.len() {
            (h, CharStep::Fail(SyntaxError::EofWhileParsingString))
        } else if s[h] != 0x7Du8 || h == q + 1 {
            (h, CharStep::Fail(SyntaxError::InvalidEscape))
        } else {
            let v = hex_value(s.subrange(q + 1, h));
            if v <= 0x10FFFF && is_scalar(v as u32) {
                (h + 1, CharStep::Char((v as u32) as char))
            } else {
                (h + 1, CharStep::Fail(SyntaxError::InvalidUnicodeCodePoint))
            }
        }
    }
}

/// One character of a string body from `p`. Bytes outside escapes stand
/// for the character with the same value.
pub open spec fn char_step(s: Seq<u8>, p: int) -> (int, CharStep) {
    if p < 0 || p >= s.len() {
        (p, CharStep::Fail(SyntaxError::EofWhileParsingString))
    } else if s[p] == 0x22u8 {
        (p + 1, CharStep::End)
    } else if s[p] != 0x5Cu8 {
        (p + 1, CharStep::Char(byte_char(s[p])))
    } else if p + 1 >= s.len() {
        (p + 1, CharStep::Fail(SyntaxError::EofWhileParsingString))
    } else if s[p + 1] == 0x75u8 {
        unicode_step(s, p + 2)
    } else {
        match escape_byte(s[p + 1]) {
            Some(c) => (p + 2, CharStep::Char(byte_char(c))),
            None => (p + 2, CharStep::Fail(SyntaxError::InvalidEscape)),
        }
    }
}

/// Whether a string body stays open after a failed step: it does unless the
/// input ran out.
pub open spec fn stays_open(e: SyntaxError) -> bool {
    e != SyntaxError::EofWhileParsingString
}

pub proof fn lemma_hex_end_bounds(s: Seq<u8>, i: int)
    requires
        0 <= i <= s.len(),
    ensures
        i <= hex_end(s, i) <= s.len(),
        forall|k: int| i <= k < hex_end(s, i) ==> is_hex(#[trigger] s[k]),
    decreases s.len() - i,
{
    if i < s.len() && is_hex(s[i]) {
        lemma_hex_end_bounds(s, i + 1);
    }
}

pub proof fn lemma_char_step_bounds(s: Seq<u8>, p: int)
    requires
        0 <= p <= s.len(),
    ensures
        p <= char_step(s, p).0 <= s.len(),
        char_step(s, p).1 is Char ==> p < char_step(s, p).0,
{
    if p + 3 <= s.len() {
        lemma_hex_end_bounds(s, p + 3);
    }
}

/// Reads a string body from `p` to its end: the position after it, and its
/// characters or the first error.
pub open spec fn read_str(s: Seq<u8>, p: int) -> (int, Result<Seq<char>, SyntaxError>)
    decreases s.len() - p,
{
    if p < 0 || p > s.len() {
        (p, Err(SyntaxError::EofWhileParsingString))
    } else {
        let (q, st) = char_step(s, p);
        match st {
            CharStep::End => (q, Ok(Seq::empty())),
            CharStep::Fail(e) => (q, Err(e)),
            CharStep::Char(c) => {
                proof {
                    lemma_char_step_bounds(s, p);
                }
                let (r, rest) = read_str(s, q);
                match rest {
                    Ok(t) => (r, Ok(seq![c] + t)),
                    Err(e) => (r, Err(e)),
                }
            },
        }
    }
}

pub proof fn lemma_ident_end_bounds(s: Seq<u8>, i: int, w: Seq<u8>)
    requires
        0 <= i <= s.len(),
    ensures
        i <= ident_end(s, i, w).0 <= s.len(),
    decreases w.len(),
{
    if w.len() > 0 && i < s.len() {
        if s[i] != w[0] {
            lemma_run_end_bounds(s, i);
        } else {
            lemma_ident_end_bounds(s, i + 1, w.drop_first());
        }
    }
}

pub proof fn lemma_dispatch_bounds(s: Seq<u8>, i: int)
    requires
        0 <= i < s.len(),
    ensures
        i < dispatch(s, i).0 <= s.len(),
{
    lemma_num_end_bounds(s, i + 1);
    lemma_run_end_bounds(s, i + 1);
    lemma_ident_end_bounds(s, i + 1, word_ull());
    lemma_ident_end_bounds(s, i + 1, word_rue());
    lemma_ident_end_bounds(s, i + 1, word_alse());
}

/// A value never opens an object member: only an object step does.
pub proof fn lemma_dispatch_not_pair(s: Seq<u8>, i: int)
    requires
        0 <= i < s.len(),
    ensures
        !(dispatch(s, i).1 matches Ok(Token::Open(FrameKind::Pair { .. }))),
{
}

pub proof fn lemma_array_step_not_pair(s: Seq<u8>, p: int, nc: bool)
    requires
        0 <= p <= s.len(),
    ensures
        !(array_step(s, p, nc).2 matches Step::Next(Ok(Token::Open(FrameKind::Pair { .. })))),
    decreases s.len() - p,
{
    if p < s.len() {
        if s[p] == 0x5Du8 {
        } else if s[p] == 0x2Cu8 {
            if nc {
                lemma_array_step_not_pair(s, p + 1, false);
            }
        } else if is_ws(s[p]) {
            lemma_array_step_not_pair(s, p + 1, nc);
        } else if !nc {
            lemma_dispatch_not_pair(s, p);
        }
    }
}

pub proof fn lemma_pair_value_not_pair(s: Seq<u8>, p: int, key_consumed: bool)
    requires
        0 <= p <= s.len(),
    ensures
        !(pair_value(s, p, key_consumed).1 matches Ok(Token::Open(FrameKind::Pair { .. }))),
{
    lemma_string_end_bounds(s, p, false);
    let after_key = if key_consumed { p } else { string_end(s, p, false) };
    lemma_ws_end_bounds(s, after_key);
    let colon_at = ws_end(s, after_key);
    if colon_at < s.len() {
        lemma_ws_end_bounds(s, colon_at + 1);
        let value_at = ws_end(s, colon_at + 1);
        if value_at < s.len() {
            lemma_dispatch_not_pair(s, value_at);
        }
    }
}

pub proof fn lemma_array_step_bounds(s: Seq<u8>, p: int, nc: bool)
    requires
        0 <= p <= s.len(),
    ensures
        p <= array_step(s, p, nc).0 <= s.len(),
        array_step(s, p, nc).2 is Next ==> p < array_step(s, p, nc).0 || (nc
            && !array_step(s, p, nc).1 && array_step(s, p, nc).2 == Step::Next(
            Err(SyntaxError::MissingComma),
        )),
    decreases s.len() - p,
{
    if p < s.len() {
        if s[p] == 0x5Du8 {
        } else if s[p] == 0x2Cu8 {
            if nc {
                lemma_array_step_bounds(s, p + 1, false);
            }
        } else if is_ws(s[p]) {
            lemma_array_step_bounds(s, p + 1, nc);
        } else if !nc {
            lemma_dispatch_bounds(s, p);
        }
    }
}

pub proof fn lemma_object_step_bounds(s: Seq<u8>, p: int)
    requires
        0 <= p <= s.len(),
    ensures
        p <= object_step(s, p).0 <= s.len(),
        object_step(s, p).1 is Next ==> p < object_step(s, p).0,
    decreases s.len() - p,
{
    if p < s.len() && (is_ws(s[p]) || s[p] == 0x2Cu8) {
        lemma_object_step_bounds(s, p + 1);
    }
}

pub proof fn lemma_object_step_member(s: Seq<u8>, p: int)
    ensures
        object_step(s, p).1 matches Step::Next(Ok(t)) ==> t == Token::Open(
            FrameKind::Pair { key_consumed: false },
        ),
    decreases s.len() - p,
{
    if 0 <= p < s.len() && (is_ws(s[p]) || s[p] == 0x2Cu8) {
        lemma_object_step_member(s, p + 1);
    }
}

pub proof fn lemma_pair_value_bounds(s: Seq<u8>, p: int, key_consumed: bool)
    requires
        0 <= p <= s.len(),
    ensures
        p <= pair_value(s, p, key_consumed).0 <= s.len(),
        pair_value(s, p, key_consumed).1 is Ok ==> p < pair_value(s, p, key_consumed).0,
{
    lemma_string_end_bounds(s, p, false);
    let after_key = if key_consumed { p } else { string_end(s, p, false) };
    lemma_ws_end_bounds(s, after_key);
    let colon_at = ws_end(s, after_key);
    if colon_at < s.len() {
        lemma_ws_end_bounds(s, colon_at + 1);
        let value_at = ws_end(s, colon_at + 1);
        if value_at < s.len() {
            lemma_dispatch_bounds(s, value_at);
        }
    }
}

/// How much unfinished work a stack of open values holds, beyond input:
/// it drops with every step of finishing that reads no byte.
pub open spec fn frame_weight(f: Frame) -> nat {
    match f.kind {
        FrameKind::Arr { needs_comma } => if needs_comma {
            2
        } else {
            1
        },
        FrameKind::Pair { key_consumed } => if key_consumed {
            1
        } else {
            2
        },
        _ => 1,
    }
}

pub open spec fn weight(fs: Seq<Frame>) -> nat
    decreases fs.len(),
{
    if fs.len() == 0 {
        0
    } else {
        weight(fs.drop_last()) + frame_weight(fs.last())
    }
}

/// Adds the frame that a token opens at `q`, if it opens one.
pub open spec fn push_opened(fs: Seq<Frame>, r: Result<Token, SyntaxError>, q: int) -> Seq<Frame> {
    match r {
        Ok(Token::Open(k)) => fs.push(Frame { kind: k, start: q as usize }),
        _ => fs,
    }
}

/// One step of finishing the innermost open value without looking at what
/// it holds.
pub open spec fn skip_step(s: Seq<u8>, p: int, fs: Seq<Frame>) -> (int, Seq<Frame>) {
    let f = fs.last();
    let rest = fs.drop_last();
    match f.kind {
        FrameKind::Str => (string_end(s, p, false), rest),
        FrameKind::Arr { needs_comma } => {
            let (q, nc, st) = array_step(s, p, needs_comma);
            match st {
                Step::End => (q, rest),
                Step::Next(r) => (
                    q,
                    push_opened(
                        rest.push(Frame { kind: FrameKind::Arr { needs_comma: nc }, start: f.start }),
                        r,
                        q,
                    ),
                ),
            }
        },
        FrameKind::Obj => {
            let (q, st) = object_step(s, p);
            match st {
                Step::End => (q, rest),
                Step::Next(r) => (q, push_opened(fs, r, q)),
            }
        },
        FrameKind::Pair { key_consumed } => if !key_consumed {
            (
                string_end(s, p, false),
                rest.push(Frame { kind: FrameKind::Pair { key_consumed: true }, start: f.start }),
            )
        } else {
            let (q, r) = pair_value(s, p, true);
            (q, push_opened(rest, r, q))
        },
    }
}

proof fn lemma_weight_push(fs: Seq<Frame>, f: Frame)
    ensures
        weight(fs.push(f)) == weight(fs) + frame_weight(f),
{
    assert(fs.push(f).drop_last() =~= fs);
}

pub proof fn lemma_skip_step_progress(s: Seq<u8>, p: int, fs: Seq<Frame>)
    requires
        0 <= p <= s.len(),
        fs.len() > 0,
    ensures
        p <= skip_step(s, p, fs).0 <= s.len(),
        p < skip_step(s, p, fs).0 || weight(skip_step(s, p, fs).1) < weight(fs),
        skip_step(s, p, fs).1.len() >= fs.len() - 1,
        skip_step(s, p, fs).1.subrange(0, fs.len() - 1) =~= fs.subrange(0, fs.len() - 1),
{
    let f = fs.last();
    let rest = fs.drop_last();
    assert(fs =~= rest.push(f));
    lemma_weight_push(rest, f);
    lemma_string_end_bounds(s, p, false);
    match f.kind {
        FrameKind::Arr { needs_comma } => {
            lemma_array_step_bounds(s, p, needs_comma);
            let (q, nc, st) = array_step(s, p, needs_comma);
            let g = Frame { kind: FrameKind::Arr { needs_comma: nc }, start: f.start };
            lemma_weight_push(rest, g);
            if let Step::Next(r) = st {
                if let Ok(Token::Open(k)) = r {
                    lemma_weight_push(rest.push(g), Frame { kind: k, start: q as usize });
                }
            }
        },
        FrameKind::Obj => {
            lemma_object_step_bounds(s, p);
        },
        FrameKind::Pair { key_consumed } => {
            lemma_weight_push(rest, Frame { kind: FrameKind::Pair { key_consumed: true }, start: f.start });
            lemma_pair_value_bounds(s, p, true);
        },
        _ => {},
    }
}

/// Finishes open values, innermost first, until at most `d` remain open.
pub open spec fn settle(s: Seq<u8>, p: int, fs: Seq<Frame>, d: int) -> (int, Seq<Frame>)
    decreases s.len() - p, weight(fs),
    when 0 <= p <= s.len()
{
    if fs.len() <= d || fs.len() == 0 {
        (p, fs)
    } else {
        proof {
            lemma_skip_step_progress(s, p, fs);
        }
        let (q, gs) = skip_step(s, p, fs);
        settle(s, q, gs, d)
    }
}

/// Finishing leaves exactly the `d` outermost open values, untouched.
pub proof fn lemma_settle(s: Seq<u8>, p: int, fs: Seq<Frame>, d: int)
    requires
        0 <= p <= s.len(),
        0 <= d <= fs.len(),
    ensures
        p <= settle(s, p, fs, d).0 <= s.len(),
        settle(s, p, fs, d).1 =~= fs.subrange(0, d),
    decreases s.len() - p, weight(fs),
{
    if fs.len() > d {
        lemma_skip_step_progress(s, p, fs);
        let (q, gs) = skip_step(s, p, fs);
        assert(gs.subrange(0, d) =~= gs.subrange(0, fs.len() - 1).subrange(0, d));
        assert(fs.subrange(0, d) =~= fs.subrange(0, fs.len() - 1).subrange(0, d));
        lemma_settle(s, q, gs, d);
    } else {
        assert(fs.subrange(0, d) =~= fs);
    }
}

/// The frame at depth `d`, when it is still the one opened at `start`.
pub open spec fn frame_at(st: ParserState, d: int, start: int) -> Option<Frame> {
    if 0 <= d < st.frames.len() && st.frames[d].start == start {
        Some(st.frames[d])
    } else {
        None
    }
}

pub open spec fn is_open_array(st: ParserState, d: int, start: int) -> bool {
    frame_at(st, d, start) is Some && frame_at(st, d, start).unwrap().kind is Arr
}

pub open spec fn is_open_object(st: ParserState, d: int, start: int) -> bool {
    frame_at(st, d, start) is Some && frame_at(st, d, start).unwrap().kind is Obj
}

pub open spec fn is_open_pair(st: ParserState, d: int, start: int) -> bool {
    frame_at(st, d, start) is Some && frame_at(st, d, start).unwrap().kind is Pair
}

pub open spec fn is_open_string(st: ParserState, d: int, start: int) -> bool {
    frame_at(st, d, start) is Some && frame_at(st, d, start).unwrap().kind is Str
}

/// The state after finishing everything opened inside the frame at depth `d`.
pub open spec fn settled(st: ParserState, d: int) -> ParserState {
    let (p, fs) = settle(st.src, st.pos, st.frames, d + 1);
    ParserState { src: st.src, pos: p, frames: fs }
}

/// The next top-level value: all open values are finished first, then
/// whitespace is skipped; `None` at the end of input.
pub open spec fn root_next(st: ParserState) -> (ParserState, Option<Result<Token, SyntaxError>>) {
    let (p, fs) = settle(st.src, st.pos, st.frames, 0);
    let item_at = ws_end(st.src, p);
    if item_at >= st.src.len() {
        (ParserState { src: st.src, pos: item_at, frames: fs }, None)
    } else {
        let (q, r) = dispatch(st.src, item_at);
        (ParserState { src: st.src, pos: q, frames: push_opened(fs, r, q) }, Some(r))
    }
}

/// The next item of the array opened at `start`, at depth `d`. Values opened
/// inside it are finished first. `None` at its end, which closes it, and
/// whenever that array is no longer open.
pub open spec fn array_next(st: ParserState, d: int, start: int) -> (ParserState, Option<
    Result<Token, SyntaxError>,
>) {
    if !is_open_array(st, d, start) {
        (st, None)
    } else {
        let t = settled(st, d);
        let (q, nc, step) = array_step(st.src, t.pos, st.frames[d].kind->needs_comma);
        match step {
            Step::End => (ParserState { src: st.src, pos: q, frames: t.frames.drop_last() }, None),
            Step::Next(r) => (
                ParserState {
                    src: st.src,
                    pos: q,
                    frames: push_opened(
                        t.frames.update(
                            d,
                            Frame { kind: FrameKind::Arr { needs_comma: nc }, start: start as usize },
                        ),
                        r,
                        q,
                    ),
                },
                Some(r),
            ),
        }
    }
}

/// The next member of the object opened at `start`, at depth `d`, in the
/// same way.
pub open spec fn object_next(st: ParserState, d: int, start: int) -> (ParserState, Option<
    Result<Token, SyntaxError>,
>) {
    if !is_open_object(st, d, start) {
        (st, None)
    } else {
        let t = settled(st, d);
        let (q, step) = object_step(st.src, t.pos);
        match step {
            Step::End => (ParserState { src: st.src, pos: q, frames: t.frames.drop_last() }, None),
            Step::Next(r) => (
                ParserState { src: st.src, pos: q, frames: push_opened(t.frames, r, q) },
                Some(r),
            ),
        }
    }
}

/// Opens the key of the member opened at `start`, at depth `d`, if it is
/// open and its key was not taken; says whether it did.
pub open spec fn pair_key(st: ParserState, d: int, start: int) -> (ParserState, bool) {
    if is_open_pair(st, d, start) && !st.frames[d].kind->key_consumed {
        let t = settled(st, d);
        (
            ParserState {
                src: st.src,
                pos: t.pos,
                frames: t.frames.update(
                    d,
                    Frame { kind: FrameKind::Pair { key_consumed: true }, start: start as usize },
                ).push(Frame { kind: FrameKind::Str, start: t.pos as usize }),
            },
            true,
        )
    } else {
        (st, false)
    }
}

/// Reads the value of the member opened at `start`, at depth `d`, which
/// closes the member; `None` when it is no longer open.
pub open spec fn pair_value_next(st: ParserState, d: int, start: int) -> (ParserState, Option<
    Result<Token, SyntaxError>,
>) {
    if !is_open_pair(st, d, start) {
        (st, None)
    } else {
        let t = settled(st, d);
        let (q, r) = pair_value(st.src, t.pos, st.frames[d].kind->key_consumed);
        (ParserState { src: st.src, pos: q, frames: push_opened(t.frames.drop_last(), r, q) }, Some(r))
    }
}

/// Reads one character of the string opened at `start`, at depth `d`. The
/// string closes at its end and when the input runs out; `None` when it is
/// no longer open.
pub open spec fn string_char(st: ParserState, d: int, start: int) -> (ParserState, Option<CharStep>) {
    if !is_open_string(st, d, start) {
        (st, None)
    } else {
        let t = settled(st, d);
        let (q, cs) = char_step(st.src, t.pos);
        let closes = match cs {
            CharStep::End => true,
            CharStep::Char(_) => false,
            CharStep::Fail(e) => !stays_open(e),
        };
        (
            ParserState {
                src: st.src,
                pos: q,
                frames: if closes {
                    t.frames.drop_last()
                } else {
                    t.frames
                },
            },
            Some(cs),
        )
    }
}

/// Reads the rest of the string opened at `start`, at depth `d`; after an
/// error it stays open unless the input ran out. `None` when it is no
/// longer open.
pub open spec fn string_read(st: ParserState, d: int, start: int) -> (ParserState, Option<
    Result<Seq<char>, SyntaxError>,
>) {
    if !is_open_string(st, d, start) {
        (st, None)
    } else {
        let t = settled(st, d);
        let (q, r) = read_str(st.src, t.pos);
        let closes = match r {
            Ok(_) => true,
            Err(e) => !stays_open(e),
        };
        (
            ParserState {
                src: st.src,
                pos: q,
                frames: if closes {
                    t.frames.drop_last()
                } else {
                    t.frames
                },
            },
            Some(r),
        )
    }
}

/// Forward progress: a top-level read either finds the input exhausted or
/// consumes at least one byte.
pub proof fn lemma_root_next_progress(st: ParserState)
    requires
        0 <= st.pos <= st.src.len(),
    ensures
        root_next(st).1 is Some ==> root_next(st).0.pos > st.pos,
        root_next(st).1 is None ==> root_next(st).0.pos == st.src.len(),
        root_next(st).0.pos <= st.src.len(),
{
    lemma_settle(st.src, st.pos, st.frames, 0);
    let (p, fs) = settle(st.src, st.pos, st.frames, 0);
    lemma_ws_end_bounds(st.src, p);
    let item_at = ws_end(st.src, p);
    if item_at < st.src.len() {
        lemma_dispatch_bounds(st.src, item_at);
    }
}

/// One reader at a time: after a top-level read nothing is open but the
/// value just handed out, which is then the innermost.
pub proof fn lemma_root_next_single(st: ParserState)
    requires
        0 <= st.pos <= st.src.len(),
    ensures
        root_next(st).0.frames.len() == (if root_next(st).1 matches Some(Ok(Token::Open(_))) {
            1int
        } else {
            0int
        }),
{
    lemma_settle(st.src, st.pos, st.frames, 0);
}

/// One reader at a time: a read through the array at depth `d` leaves the
/// values around it untouched and nothing open inside it but the item just
/// handed out.
pub proof fn lemma_array_next_single(st: ParserState, d: int, start: int)
    requires
        0 <= st.pos <= st.src.len(),
        is_open_array(st, d, start),
    ensures
        array_next(st, d, start).0.frames.len() == d + 1 + (if array_next(st, d, start).1 matches Some(
            Ok(Token::Open(_)),
        ) {
            1int
        } else if array_next(st, d, start).1 is None {
            -1int
        } else {
            0int
        }),
        forall|k: int| 0 <= k < d ==> #[trigger] array_next(st, d, start).0.frames[k] == st.frames[k],
{
    lemma_settle(st.src, st.pos, st.frames, d + 1);
}

/// One reader at a time, for objects in the same way.
pub proof fn lemma_object_next_single(st: ParserState, d: int, start: int)
    requires
        0 <= st.pos <= st.src.len(),
        is_open_object(st, d, start),
    ensures
        object_next(st, d, start).0.frames.len() == d + 1 + (if object_next(st, d, start).1 matches Some(
            Ok(Token::Open(_)),
        ) {
            1int
        } else if object_next(st, d, start).1 is None {
            -1int
        } else {
            0int
        }),
        forall|k: int| 0 <= k < d ==> #[trigger] object_next(st, d, start).0.frames[k] == st.frames[k],
{
    lemma_settle(st.src, st.pos, st.frames, d + 1);
}

} // verus!
