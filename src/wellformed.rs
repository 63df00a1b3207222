//! Well-formed input, and what skipping does on it: abandoning a value
//! whose remaining text is well-formed leaves the reader just past that
//! value, however deeply it nests.
use crate::cursor::{is_ws, lemma_num_end_bounds, lemma_ws_end_bounds, num_end, string_end, ws_end};
use crate::model::{
    array_next, array_step, dispatch, ident_end, is_open_array, is_open_object,
    lemma_skip_step_progress, object_next, object_step, pair_value, root_next, settle, skip_step,
    weight, word_alse, word_rue, word_ull, Frame, FrameKind, ParserState, Step, Token,
};
use crate::number::{is_digit, number_of};
use vstd::prelude::*;

verus! {

/// Where a string body from `i` ends, just past its closing quote; `None`
/// when the input ends first.
pub open spec fn str_close(s: Seq<u8>, i: int, escaped: bool) -> Option<int>
    decreases s.len() - i,
{
    if i < 0 || i >= s.len() {
        None
    } else if escaped {
        str_close(s, i + 1, false)
    } else if s[i] == 0x5Cu8 {
        str_close(s, i + 1, true)
    } else if s[i] == 0x22u8 {
        Some(i + 1)
    } else {
        str_close(s, i + 1, false)
    }
}

/// Where the bare word `w` from `i` ends, when the input holds it there.
pub open spec fn lit_end(s: Seq<u8>, i: int, w: Seq<u8>) -> Option<int> {
    if 0 <= i && i + w.len() <= s.len() && s.subrange(i, i + w.len()) == w {
        Some(i + w.len())
    } else {
        None
    }
}

/// Where a well-formed value whose first byte is at `i` ends: a number
/// that reads as one, `null`, `true`, `false`, a closed string, or a
/// well-formed array or object.
pub open spec fn value_end(s: Seq<u8>, i: int) -> Option<int>
    decreases s.len() - i, 0nat,
{
    if i < 0 || i >= s.len() {
        None
    } else {
        let b = s[i];
        if is_digit(b) || b == 0x2Du8 {
            let e = num_end(s, i + 1);
            if number_of(s.subrange(i, e)) is Some {
                Some(e)
            } else {
                None
            }
        } else if b == 0x6Eu8 {
            lit_end(s, i + 1, word_ull())
        } else if b == 0x74u8 {
            lit_end(s, i + 1, word_rue())
        } else if b == 0x66u8 {
            lit_end(s, i + 1, word_alse())
        } else if b == 0x5Bu8 {
            arr_tail(s, i + 1, false)
        } else if b == 0x7Bu8 {
            obj_tail(s, i + 1)
        } else if b == 0x22u8 {
            str_close(s, i + 1, false)
        } else {
            None
        }
    }
}

/// Where the rest of a well-formed array from `p` ends. `nc` says that an
/// item came last: then a comma or `]` is due, else an item or `]`.
pub open spec fn arr_tail(s: Seq<u8>, p: int, nc: bool) -> Option<int>
    decreases s.len() - p, 1nat,
{
    if p < 0 || p >= s.len() {
        None
    } else if s[p] == 0x5Du8 {
        Some(p + 1)
    } else if s[p] == 0x2Cu8 {
        if nc {
            arr_tail(s, p + 1, false)
        } else {
            None
        }
    } else if is_ws(s[p]) {
        arr_tail(s, p + 1, nc)
    } else if nc {
        None
    } else {
        match value_end(s, p) {
            Some(e) => if p < e <= s.len() {
                arr_tail(s, e, true)
            } else {
                None
            },
            None => None,
        }
    }
}

/// Where the rest of a well-formed object from `p` ends: members separated
/// by whitespace and commas, then `}`.
pub open spec fn obj_tail(s: Seq<u8>, p: int) -> Option<int>
    decreases s.len() - p, 1nat,
{
    if p < 0 || p >= s.len() {
        None
    } else if is_ws(s[p]) || s[p] == 0x2Cu8 {
        obj_tail(s, p + 1)
    } else if s[p] == 0x7Du8 {
        Some(p + 1)
    } else if s[p] == 0x22u8 {
        match pair_rest(s, p + 1, false) {
            Some(e) => if p < e <= s.len() {
                obj_tail(s, e)
            } else {
                None
            },
            None => None,
        }
    } else {
        None
    }
}

/// Where the rest of a well-formed member from `p` ends: the rest of its
/// key unless it was consumed, then `:` and a value.
pub open spec fn pair_rest(s: Seq<u8>, p: int, key_consumed: bool) -> Option<int>
    decreases s.len() - p, 2nat,
{
    if p < 0 || p > s.len() {
        None
    } else if key_consumed {
        pair_value_rest(s, p)
    } else {
        match str_close(s, p, false) {
            Some(k) => if p < k <= s.len() {
                pair_value_rest(s, k)
            } else {
                None
            },
            None => None,
        }
    }
}

/// Where `:` and a well-formed value from `p` end.
pub open spec fn pair_value_rest(s: Seq<u8>, p: int) -> Option<int>
    decreases s.len() - p, 1nat,
{
    if p < 0 || p > s.len() {
        None
    } else {
        proof {
            lemma_ws_end_bounds(s, p);
        }
        let c = ws_end(s, p);
        if c < s.len() && s[c] == 0x3Au8 {
            proof {
                lemma_ws_end_bounds(s, c + 1);
            }
            value_end(s, ws_end(s, c + 1))
        } else {
            None
        }
    }
}

/// Where the rest of an open value of kind `k` from `p` ends, when it is
/// well-formed.
pub open spec fn frame_rest(s: Seq<u8>, p: int, k: FrameKind) -> Option<int> {
    match k {
        FrameKind::Str => str_close(s, p, false),
        FrameKind::Arr { needs_comma } => arr_tail(s, p, needs_comma),
        FrameKind::Obj => obj_tail(s, p),
        FrameKind::Pair { key_consumed } => pair_rest(s, p, key_consumed),
    }
}

proof fn lemma_str_close(s: Seq<u8>, i: int, escaped: bool)
    requires
        str_close(s, i, escaped) is Some,
    ensures
        string_end(s, i, escaped) == str_close(s, i, escaped).unwrap(),
        i < str_close(s, i, escaped).unwrap() <= s.len(),
    decreases s.len() - i,
{
    if 0 <= i < s.len() {
        if escaped || s[i] == 0x5Cu8 || s[i] != 0x22u8 {
            lemma_str_close(s, i + 1, !escaped && s[i] == 0x5Cu8);
        }
    }
}

proof fn lemma_lit_end(s: Seq<u8>, i: int, w: Seq<u8>)
    requires
        lit_end(s, i, w) is Some,
    ensures
        ident_end(s, i, w) == (lit_end(s, i, w).unwrap(), Option::<crate::model::SyntaxError>::None),
    decreases w.len(),
{
    if w.len() > 0 {
        assert(s[i] == s.subrange(i, i + w.len())[0]);
        assert(s.subrange(i + 1, i + 1 + w.drop_first().len()) =~= s.subrange(i, i + w.len()).drop_first());
        lemma_lit_end(s, i + 1, w.drop_first());
    }
}

/// Every well-formed piece ends past where it starts, within the input.
proof fn lemma_grammar_bounds(s: Seq<u8>, p: int)
    requires
        0 <= p <= s.len(),
    ensures
        value_end(s, p) matches Some(e) ==> p < e <= s.len(),
        arr_tail(s, p, true) matches Some(e) ==> p < e <= s.len(),
        arr_tail(s, p, false) matches Some(e) ==> p < e <= s.len(),
        obj_tail(s, p) matches Some(e) ==> p < e <= s.len(),
        pair_rest(s, p, true) matches Some(e) ==> p < e <= s.len(),
        pair_rest(s, p, false) matches Some(e) ==> p < e <= s.len(),
        pair_value_rest(s, p) matches Some(e) ==> p < e <= s.len(),
    decreases s.len() - p,
{
    if p < s.len() {
        lemma_grammar_bounds(s, p + 1);
        lemma_num_end_bounds(s, p + 1);
        if str_close(s, p + 1, false) is Some {
            lemma_str_close(s, p + 1, false);
        }
        if str_close(s, p, false) is Some {
            lemma_str_close(s, p, false);
        }
        lemma_ws_end_bounds(s, p);
        let c = ws_end(s, p);
        if c < s.len() {
            lemma_ws_end_bounds(s, c + 1);
            lemma_grammar_bounds(s, ws_end(s, c + 1));
        }
        if let Some(e) = value_end(s, p) {
            if p < e <= s.len() {
                lemma_grammar_bounds(s, e);
            }
        }
        if let Some(e) = pair_rest(s, p + 1, false) {
            if p < e <= s.len() {
                lemma_grammar_bounds(s, e);
            }
        }
        if let Some(k) = str_close(s, p, false) {
            if p < k <= s.len() {
                lemma_grammar_bounds(s, k);
            }
        }
    }
}

/// On a well-formed value, reading it yields no error: a scalar is read to
/// its end, and a value read through a handle opens with a well-formed rest
/// that ends where the value does.
proof fn lemma_dispatch_wf(s: Seq<u8>, x: int)
    requires
        0 <= x < s.len(),
        value_end(s, x) is Some,
    ensures
        dispatch(s, x).1 is Ok,
        dispatch(s, x).1 matches Ok(Token::Open(k)) ==> dispatch(s, x).0 == x + 1 && frame_rest(
            s,
            x + 1,
            k,
        ) == value_end(s, x),
        !(dispatch(s, x).1 matches Ok(Token::Open(_))) ==> dispatch(s, x).0 == value_end(s, x).unwrap(),
{
    let b = s[x];
    if b == 0x6Eu8 {
        lemma_lit_end(s, x + 1, word_ull());
    } else if b == 0x74u8 {
        lemma_lit_end(s, x + 1, word_rue());
    } else if b == 0x66u8 {
        lemma_lit_end(s, x + 1, word_alse());
    }
}

/// One step of an array over a well-formed rest: its end, or an item after
/// which the rest is still well-formed and ends at the same place.
proof fn lemma_array_step_wf(s: Seq<u8>, p: int, nc: bool)
    requires
        0 <= p <= s.len(),
        arr_tail(s, p, nc) is Some,
    ensures
        ({
            let (q, nc2, st) = array_step(s, p, nc);
            let e = arr_tail(s, p, nc).unwrap();
            &&& p < q
            &&& st is End ==> q == e
            &&& st matches Step::Next(r) ==> (r is Ok && nc2 && match r {
                Ok(Token::Open(k)) => (frame_rest(s, q, k) matches Some(v) && q < v <= s.len()
                    && arr_tail(s, v, true) == Some(e)),
                _ => arr_tail(s, q, true) == Some(e),
            })
        }),
    decreases s.len() - p,
{
    if s[p] == 0x5Du8 {
    } else if s[p] == 0x2Cu8 {
        lemma_array_step_wf(s, p + 1, false);
    } else if is_ws(s[p]) {
        lemma_array_step_wf(s, p + 1, nc);
    } else {
        lemma_dispatch_wf(s, p);
        crate::model::lemma_dispatch_bounds(s, p);
        lemma_grammar_bounds(s, p);
        lemma_grammar_bounds(s, p + 1);
        if str_close(s, p + 1, false) is Some {
            lemma_str_close(s, p + 1, false);
        }
        assert(!nc);
        assert(array_step(s, p, nc).2 == Step::Next(dispatch(s, p).1));
    }
}

/// One step of an object over a well-formed rest, in the same way.
proof fn lemma_object_step_wf(s: Seq<u8>, p: int)
    requires
        0 <= p <= s.len(),
        obj_tail(s, p) is Some,
    ensures
        ({
            let (q, st) = object_step(s, p);
            let e = obj_tail(s, p).unwrap();
            &&& p < q
            &&& st is End ==> q == e
            &&& st is Next ==> (st == Step::Next(
                Ok(Token::Open(FrameKind::Pair { key_consumed: false })),
            ) && (pair_rest(s, q, false) matches Some(v) && q < v <= s.len() && obj_tail(s, v) == Some(
                e,
            )))
        }),
    decreases s.len() - p,
{
    if is_ws(s[p]) || s[p] == 0x2Cu8 {
        lemma_object_step_wf(s, p + 1);
    } else {
        lemma_grammar_bounds(s, p + 1);
    }
}

/// Reading a member's value over a well-formed rest.
proof fn lemma_pair_value_wf(s: Seq<u8>, p: int)
    requires
        0 <= p <= s.len(),
        pair_rest(s, p, true) is Some,
    ensures
        ({
            let (q, r) = pair_value(s, p, true);
            let e = pair_rest(s, p, true).unwrap();
            &&& r is Ok
            &&& p < q
            &&& r matches Ok(Token::Open(k)) ==> frame_rest(s, q, k) == Some(e)
            &&& !(r matches Ok(Token::Open(_))) ==> q == e
        }),
{
    lemma_ws_end_bounds(s, p);
    let c = ws_end(s, p);
    lemma_ws_end_bounds(s, c + 1);
    let v = ws_end(s, c + 1);
    assert(pair_rest(s, p, true) == value_end(s, v));
    lemma_dispatch_wf(s, v);
    crate::model::lemma_dispatch_bounds(s, v);
}

/// Finishing down to `d` passes through finishing down to any `d2` above it.
proof fn lemma_settle_compose(s: Seq<u8>, p: int, fs: Seq<Frame>, d: int, d2: int)
    requires
        0 <= p <= s.len(),
        0 <= d <= d2 <= fs.len(),
    ensures
        settle(s, p, fs, d) == settle(s, settle(s, p, fs, d2).0, settle(s, p, fs, d2).1, d),
    decreases s.len() - p, weight(fs),
{
    if fs.len() > d2 {
        lemma_skip_step_progress(s, p, fs);
        let (q, gs) = skip_step(s, p, fs);
        lemma_settle_compose(s, q, gs, d, d2);
    }
}

/// Skipping an open value whose rest is well-formed ends just past that
/// value, with the values around it as they were.
pub proof fn lemma_skip_wf(s: Seq<u8>, p: int, fs: Seq<Frame>, f: Frame)
    requires
        0 <= p <= s.len(),
        frame_rest(s, p, f.kind) is Some,
    ensures
        settle(s, p, fs.push(f), fs.len() as int) == (frame_rest(s, p, f.kind).unwrap(), fs),
    decreases s.len() - p,
{
    let d = fs.len() as int;
    let e = frame_rest(s, p, f.kind).unwrap();
    let gs0 = fs.push(f);
    assert(gs0.drop_last() =~= fs);
    lemma_skip_step_progress(s, p, gs0);
    let (q, gs) = skip_step(s, p, gs0);
    assert(settle(s, p, gs0, d) == settle(s, q, gs, d));
    lemma_grammar_bounds(s, p);
    match f.kind {
        FrameKind::Str => {
            lemma_str_close(s, p, false);
            assert(settle(s, q, gs, d) == (q, gs));
        },
        FrameKind::Arr { needs_comma } => {
            lemma_array_step_wf(s, p, needs_comma);
            let (q1, nc2, st) = array_step(s, p, needs_comma);
            let g = Frame { kind: FrameKind::Arr { needs_comma: nc2 }, start: f.start };
            if let Step::Next(r) = st {
                if let Ok(Token::Open(k)) = r {
                    let c = Frame { kind: k, start: q as usize };
                    let v = frame_rest(s, q, k).unwrap();
                    lemma_settle_compose(s, q, gs, d, d + 1);
                    lemma_skip_wf(s, q, fs.push(g), c);
                    lemma_skip_wf(s, v, fs, g);
                } else {
                    lemma_skip_wf(s, q, fs, g);
                }
            }
        },
        FrameKind::Obj => {
            lemma_object_step_wf(s, p);
            let (q1, st) = object_step(s, p);
            if st is Next {
                let c = Frame { kind: FrameKind::Pair { key_consumed: false }, start: q as usize };
                let v = pair_rest(s, q, false).unwrap();
                lemma_settle_compose(s, q, gs, d, d + 1);
                lemma_skip_wf(s, q, fs.push(f), c);
                lemma_skip_wf(s, v, fs, f);
            }
        },
        FrameKind::Pair { key_consumed } => {
            if !key_consumed {
                let k = str_close(s, p, false).unwrap();
                lemma_str_close(s, p, false);
                lemma_skip_wf(s, k, fs, Frame { kind: FrameKind::Pair { key_consumed: true }, start: f.start });
            } else {
                lemma_pair_value_wf(s, p);
                let (q1, r) = pair_value(s, p, true);
                if let Ok(Token::Open(k)) = r {
                    lemma_skip_wf(s, q, fs, Frame { kind: k, start: q as usize });
                }
            }
        },
    }
}

proof fn lemma_frame_rest_bounds(s: Seq<u8>, p: int, k: FrameKind)
    requires
        0 <= p <= s.len(),
        frame_rest(s, p, k) is Some,
    ensures
        p < frame_rest(s, p, k).unwrap() <= s.len(),
{
    lemma_grammar_bounds(s, p);
    if k is Str {
        lemma_str_close(s, p, false);
    }
}

/// Where the rest of the open values past the `d` outermost ends, when the
/// input from `p` holds the rest of the innermost one, then the rest of the
/// one around it, and so on, each well-formed.
pub open spec fn stack_rest(s: Seq<u8>, p: int, fs: Seq<Frame>, d: int) -> Option<int>
    decreases fs.len(),
{
    if fs.len() <= d || fs.len() == 0 {
        Some(p)
    } else {
        match frame_rest(s, p, fs.last().kind) {
            Some(e) => stack_rest(s, e, fs.drop_last(), d),
            None => None,
        }
    }
}

/// Finishing the open values past the `d` outermost over well-formed rests
/// ends where those rests end.
pub proof fn lemma_settle_wf(s: Seq<u8>, p: int, fs: Seq<Frame>, d: int)
    requires
        0 <= p <= s.len(),
        0 <= d <= fs.len(),
        stack_rest(s, p, fs, d) is Some,
    ensures
        settle(s, p, fs, d) == (stack_rest(s, p, fs, d).unwrap(), fs.subrange(0, d)),
        p <= stack_rest(s, p, fs, d).unwrap() <= s.len(),
    decreases fs.len(),
{
    if fs.len() > d {
        let g = fs.drop_last();
        assert(fs =~= g.push(fs.last()));
        lemma_skip_wf(s, p, g, fs.last());
        lemma_frame_rest_bounds(s, p, fs.last().kind);
        let e = frame_rest(s, p, fs.last().kind).unwrap();
        lemma_settle_compose(s, p, fs, d, g.len() as int);
        lemma_settle_wf(s, e, g, d);
        assert(g.subrange(0, d) =~= fs.subrange(0, d));
    } else {
        assert(fs.subrange(0, d) =~= fs);
    }
}

/// The state with the open values past the `d` outermost closed and the
/// input read to `e`.
pub open spec fn finished_to(st: ParserState, e: int, d: int) -> ParserState {
    ParserState { src: st.src, pos: e, frames: st.frames.subrange(0, d) }
}

/// Abandoning values read through an array: when the values left open
/// inside the array at depth `d` have well-formed rests, however deeply they
/// nest, the next read of the array yields exactly what it yields with
/// those values read to their ends: the next item after them, or the end of
/// the array.
pub proof fn lemma_array_drop_safety(st: ParserState, d: int, start: int)
    requires
        0 <= st.pos <= st.src.len(),
        is_open_array(st, d, start),
        stack_rest(st.src, st.pos, st.frames, d + 1) is Some,
    ensures
        array_next(st, d, start) == array_next(
            finished_to(st, stack_rest(st.src, st.pos, st.frames, d + 1).unwrap(), d + 1),
            d,
            start,
        ),
{
    let e = stack_rest(st.src, st.pos, st.frames, d + 1).unwrap();
    lemma_settle_wf(st.src, st.pos, st.frames, d + 1);
    let fs = st.frames.subrange(0, d + 1);
    assert(settle(st.src, e, fs, d + 1) == (e, fs));
}

/// Abandoning values read through an object (members, keys, values): the
/// next read of the object yields exactly what it yields with those values
/// read to their ends.
pub proof fn lemma_object_drop_safety(st: ParserState, d: int, start: int)
    requires
        0 <= st.pos <= st.src.len(),
        is_open_object(st, d, start),
        stack_rest(st.src, st.pos, st.frames, d + 1) is Some,
    ensures
        object_next(st, d, start) == object_next(
            finished_to(st, stack_rest(st.src, st.pos, st.frames, d + 1).unwrap(), d + 1),
            d,
            start,
        ),
{
    let e = stack_rest(st.src, st.pos, st.frames, d + 1).unwrap();
    lemma_settle_wf(st.src, st.pos, st.frames, d + 1);
    let fs = st.frames.subrange(0, d + 1);
    assert(settle(st.src, e, fs, d + 1) == (e, fs));
}

/// Abandoning top-level values: the parser's next read yields exactly what
/// it yields with them read to their ends.
pub proof fn lemma_root_drop_safety(st: ParserState)
    requires
        0 <= st.pos <= st.src.len(),
        stack_rest(st.src, st.pos, st.frames, 0) is Some,
    ensures
        root_next(st) == root_next(
            finished_to(st, stack_rest(st.src, st.pos, st.frames, 0).unwrap(), 0),
        ),
{
    let e = stack_rest(st.src, st.pos, st.frames, 0).unwrap();
    lemma_settle_wf(st.src, st.pos, st.frames, 0);
    let fs = st.frames.subrange(0, 0);
    assert(settle(st.src, e, fs, 0) == (e, fs));
}

} // verus!
