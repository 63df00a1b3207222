//! Reading and writing again: the compact text of a document made of
//! arrays, objects, numbers and plain strings reads back as exactly that
//! document, which the writer writes as exactly the same text.
use crate::emit::{dec_text, digit_char, int_text, number_text};
use crate::cursor::{is_num_byte, is_ws, num_end, ws_end};
use crate::emit::{
    close_scope, closed_to, item_sep, key_text, open_item, open_top, put_item, put_top, quoted,
    EmitterState, Scope, ScopeKind,
};
use crate::model::{
    array_next, array_step, char_step, dispatch, object_next, object_step, pair_key, pair_value,
    pair_value_next, push_opened, read_str, root_next, settle, string_read, CharStep, Frame,
    FrameKind, ParserState, Step, Token,
};
use crate::number::{
    all_digits, dec_value, has_leading_zero, int_model, is_float_text, number_of, NumberModel,
};
use crate::text::byte_char;
use vstd::prelude::*;

verus! {

/// The bytes of a text of characters below U+0100, one byte each.
pub open spec fn bytes_of(t: Seq<char>) -> Seq<u8> {
    t.map_values(|c: char| c as u8)
}

proof fn lemma_dec_text_bytes(v: nat)
    ensures
        bytes_of(dec_text(v)).len() > 0,
        all_digits(bytes_of(dec_text(v))),
        dec_value(bytes_of(dec_text(v))) == v,
    decreases v,
{
    let b = bytes_of(dec_text(v));
    if v >= 10 {
        lemma_dec_text_bytes(v / 10);
        let c = digit_char(v % 10);
        assert(b =~= bytes_of(dec_text(v / 10)).push(c as u8));
        assert(b.drop_last() =~= bytes_of(dec_text(v / 10)));
        assert(v == (v / 10) * 10 + v % 10);
        assert((c as u8) as int == 0x30 + v % 10);
        assert(b.last() == c as u8);
        assert(dec_value(b) == dec_value(b.drop_last()) * 10 + (b.last() - 0x30u8) as nat);
        assert(dec_value(b.drop_last()) == v / 10);
        assert(dec_value(b) == (v / 10) * 10 + v % 10);
    } else {
        assert(b =~= seq![digit_char(v) as u8]);
        assert(b.drop_last() =~= Seq::<u8>::empty());
        assert((digit_char(v) as u8) as int == 0x30 + v);
        assert(b.last() == digit_char(v) as u8);
        assert(dec_value(b.drop_last()) == 0);
        assert(dec_value(b) == dec_value(b.drop_last()) * 10 + (b.last() - 0x30u8) as nat);
    }
}

proof fn lemma_dec_text_first(v: nat)
    ensures
        bytes_of(dec_text(v)).len() > 1 ==> bytes_of(dec_text(v))[0] != 0x30u8,
        v >= 1 ==> bytes_of(dec_text(v))[0] != 0x30u8,
    decreases v,
{
    if v >= 10 {
        lemma_dec_text_first(v / 10);
        lemma_dec_text_bytes(v / 10);
        assert(bytes_of(dec_text(v))[0] == bytes_of(dec_text(v / 10))[0]);
    } else {
        assert((digit_char(v) as u8) as int == 0x30 + v);
    }
}

/// An integer written by the writer reads back as the same number, and
/// writing that number again gives the same text.
pub proof fn lemma_integer_text_round_trip(v: int)
    requires
        i64::MIN <= v <= u64::MAX,
    ensures
        number_of(bytes_of(int_text(v))) == Some(int_model(v)),
        number_text(int_model(v)) == int_text(v),
{
    if v >= 0 {
        lemma_dec_text_bytes(v as nat);
        lemma_dec_text_first(v as nat);
        let t = bytes_of(int_text(v));
        assert(!has_leading_zero(t)) by {
            if t.len() > 0 && t[0] == 0x2Du8 {
                assert(crate::number::is_digit(t[0]));
            }
        }
    } else {
        lemma_dec_text_bytes((-v) as nat);
        lemma_dec_text_first((-v) as nat);
        let t = bytes_of(int_text(v));
        assert(t.drop_first() =~= bytes_of(dec_text((-v) as nat)));
        assert(t[0] == 0x2Du8);
        assert(!all_digits(t)) by {
            assert(!crate::number::is_digit(t[0]));
        }
        assert(t[1] == t.drop_first()[0]);
        assert(!has_leading_zero(t));
    }
}

/// Whether `t` holds no `"`, no backslash and only bytes below 0x80.
pub open spec fn is_plain(t: Seq<u8>) -> bool {
    forall|k: int| 0 <= k < t.len() ==> #[trigger] t[k] != 0x22u8 && t[k] != 0x5Cu8 && t[k] < 0x80u8
}

/// A string body that is plain up to its closing quote reads as exactly
/// its characters, ending just past the quote.
pub proof fn lemma_plain_string_round_trip(s: Seq<u8>, p: int, n: int)
    requires
        0 <= p,
        0 <= n,
        p + n < s.len(),
        is_plain(s.subrange(p, p + n)),
        s[p + n] == 0x22u8,
    ensures
        read_str(s, p) == (p + n + 1, Ok::<Seq<char>, crate::model::SyntaxError>(
            s.subrange(p, p + n).map_values(|b: u8| byte_char(b)),
        )),
    decreases n,
{
    if n == 0 {
        assert(s.subrange(p, p).map_values(|b: u8| byte_char(b)) =~= Seq::<char>::empty());
    } else {
        assert(s.subrange(p, p + n)[0] == s[p]);
        assert(is_plain(s.subrange(p + 1, p + 1 + (n - 1)))) by {
            assert forall|k: int| 0 <= k < n - 1 implies #[trigger] s.subrange(p + 1, p + n)[k]
                == s.subrange(p, p + n)[k + 1] by {}
        }
        lemma_plain_string_round_trip(s, p + 1, n - 1);
        assert(char_step(s, p) == (p + 1, CharStep::Char(byte_char(s[p]))));
        assert(s.subrange(p, p + n).map_values(|b: u8| byte_char(b)) =~= seq![byte_char(s[p])]
            + s.subrange(p + 1, p + n).map_values(|b: u8| byte_char(b)));
    }
}

/// A document made of arrays, objects, numbers (an integer, or the text of
/// a decimal number) and strings of plain bytes. An object's members are kept in order, each a key and a value.
pub ghost enum Doc {
    Int(int),
    Dec(Seq<u8>),
    Text(Seq<u8>),
    List(Seq<Doc>),
    Object(Seq<(Seq<u8>, Doc)>),
}

/// Whether every integer of `d` fits in `i64` or `u64` and every string is
/// plain.
pub open spec fn supported(d: Doc) -> bool
    decreases d, 0int,
{
    match d {
        Doc::Int(v) => i64::MIN <= v <= u64::MAX,
        Doc::Dec(t) => number_of(t) matches Some(NumberModel::Float(_)) && t.len() > 0 && (
        crate::number::is_digit(t[0]) || t[0] == 0x2Du8),
        Doc::Text(t) => is_plain(t),
        Doc::List(items) => items_supported(items, 0),
        Doc::Object(ms) => members_supported(ms, 0),
    }
}

/// Whether the members from `i` on have plain keys and supported values.
pub open spec fn members_supported(ms: Seq<(Seq<u8>, Doc)>, i: int) -> bool
    decreases ms, ms.len() - i,
{
    if i < 0 || i >= ms.len() {
        true
    } else {
        is_plain(ms[i].0) && supported(ms[i].1) && members_supported(ms, i + 1)
    }
}

/// Whether the items from `i` on are supported.
pub open spec fn items_supported(items: Seq<Doc>, i: int) -> bool
    decreases items, items.len() - i,
{
    if i < 0 || i >= items.len() {
        true
    } else {
        supported(items[i]) && items_supported(items, i + 1)
    }
}

/// The compact JSON text of a document.
pub open spec fn doc_bytes(d: Doc) -> Seq<u8>
    decreases d, 0int,
{
    match d {
        Doc::Int(v) => bytes_of(int_text(v)),
        Doc::Dec(t) => t,
        Doc::Text(t) => seq![0x22u8] + t + seq![0x22u8],
        Doc::List(items) => seq![0x5Bu8] + list_tail(items, 0),
        Doc::Object(ms) => seq![0x7Bu8] + map_tail(ms, 0),
    }
}

/// The text of an object from its member `i` on: each member after a comma
/// but the first, as its quoted key, `:` and its value; then `}`.
pub open spec fn map_tail(ms: Seq<(Seq<u8>, Doc)>, i: int) -> Seq<u8>
    decreases ms, ms.len() - i,
{
    if i < 0 || i >= ms.len() {
        seq![0x7Du8]
    } else {
        (if i == 0 {
            Seq::empty()
        } else {
            seq![0x2Cu8]
        }) + member_bytes(ms[i].0) + doc_bytes(ms[i].1) + map_tail(ms, i + 1)
    }
}

/// A member's quoted key and colon.
pub open spec fn member_bytes(key: Seq<u8>) -> Seq<u8> {
    seq![0x22u8] + key + seq![0x22u8, 0x3Au8]
}

/// The text of an array from its item `i` on: each item after a comma but
/// the first, then `]`.
pub open spec fn list_tail(items: Seq<Doc>, i: int) -> Seq<u8>
    decreases items, items.len() - i,
{
    if i < 0 || i >= items.len() {
        seq![0x5Du8]
    } else {
        (if i == 0 {
            Seq::empty()
        } else {
            seq![0x2Cu8]
        }) + doc_bytes(items[i]) + list_tail(items, i + 1)
    }
}

/// A bound on the reads that a document takes.
pub open spec fn doc_size(d: Doc) -> nat
    decreases d, 0int,
{
    match d {
        Doc::List(items) => 1 + list_size(items, 0),
        Doc::Object(ms) => 1 + map_size(ms, 0),
        _ => 1,
    }
}

pub open spec fn map_size(ms: Seq<(Seq<u8>, Doc)>, i: int) -> nat
    decreases ms, ms.len() - i,
{
    if i < 0 || i >= ms.len() {
        1
    } else {
        1 + doc_size(ms[i].1) + map_size(ms, i + 1)
    }
}

pub open spec fn list_size(items: Seq<Doc>, i: int) -> nat
    decreases items, items.len() - i,
{
    if i < 0 || i >= items.len() {
        1
    } else {
        1 + doc_size(items[i]) + list_size(items, i + 1)
    }
}

/// Reads to its end the value that token `t` yielded in state `st`, with up
/// to `fuel` nested reads: the state after, and the document read.
pub open spec fn read_value(st: ParserState, t: Token, fuel: nat) -> (ParserState, Option<Doc>)
    decreases fuel, 0int,
{
    match t {
        Token::Num(NumberModel::PosInt(u)) => (st, Some(Doc::Int(u as int))),
        Token::Num(NumberModel::NegInt(i)) => (st, Some(Doc::Int(i as int))),
        Token::Num(NumberModel::Float(cs)) => (st, Some(Doc::Dec(bytes_of(cs)))),
        Token::Open(FrameKind::Str) => {
            let (st2, r) = string_read(st, st.frames.len() - 1, st.frames.last().start as int);
            match r {
                Some(Ok(cs)) => (st2, Some(Doc::Text(bytes_of(cs)))),
                _ => (st2, None),
            }
        },
        Token::Open(FrameKind::Arr { .. }) => if fuel == 0 {
            (st, None)
        } else {
            let (st2, r) = read_items(
                st,
                st.frames.len() - 1,
                st.frames.last().start as int,
                (fuel - 1) as nat,
            );
            match r {
                Some(items) => (st2, Some(Doc::List(items))),
                None => (st2, None),
            }
        },
        Token::Open(FrameKind::Obj) => if fuel == 0 {
            (st, None)
        } else {
            let (st2, r) = read_members(
                st,
                st.frames.len() - 1,
                st.frames.last().start as int,
                (fuel - 1) as nat,
            );
            match r {
                Some(ms) => (st2, Some(Doc::Object(ms))),
                None => (st2, None),
            }
        },
        _ => (st, None),
    }
}

/// Reads the rest of the object at depth `d` opened at `start`: for each
/// member its key, then its value to its end.
pub open spec fn read_members(st: ParserState, d: int, start: int, fuel: nat) -> (ParserState, Option<
    Seq<(Seq<u8>, Doc)>,
>)
    decreases fuel, 2int,
{
    let (st1, r) = object_next(st, d, start);
    match r {
        None => (st1, Some(Seq::empty())),
        Some(Ok(_)) => if fuel == 0 {
            (st1, None)
        } else {
            let (st2, m) = read_member(st1, (fuel - 1) as nat);
            match m {
                Some(x) => {
                    let (st3, rest) = read_members(st2, d, start, (fuel - 1) as nat);
                    match rest {
                        Some(xs) => (st3, Some(seq![x] + xs)),
                        None => (st3, None),
                    }
                },
                None => (st2, None),
            }
        },
        Some(Err(_)) => (st1, None),
    }
}

/// Reads the rest of the array at depth `d` opened at `start`, each item to
/// its end.
pub open spec fn read_items(st: ParserState, d: int, start: int, fuel: nat) -> (ParserState, Option<
    Seq<Doc>,
>)
    decreases fuel, 1int,
{
    let (st1, r) = array_next(st, d, start);
    match r {
        None => (st1, Some(Seq::empty())),
        Some(Ok(t)) => if fuel == 0 {
            (st1, None)
        } else {
            let (st2, v) = read_value(st1, t, (fuel - 1) as nat);
            match v {
                Some(x) => {
                    let (st3, rest) = read_items(st2, d, start, (fuel - 1) as nat);
                    match rest {
                        Some(xs) => (st3, Some(seq![x] + xs)),
                        None => (st3, None),
                    }
                },
                None => (st2, None),
            }
        },
        Some(Err(_)) => (st1, None),
    }
}

/// Reads the member just opened in state `st`: its key, then its value to
/// its end.
pub open spec fn read_member(st: ParserState, fuel: nat) -> (ParserState, Option<(Seq<u8>, Doc)>)
    decreases fuel, 1int,
{
    let kd = st.frames.len() - 1;
    let ks = st.frames.last().start as int;
    let (st2, _) = pair_key(st, kd, ks);
    let (st3, kr) = string_read(st2, kd + 1, st2.frames.last().start as int);
    let (st4, vr) = pair_value_next(st3, kd, ks);
    match (kr, vr) {
        (Some(Ok(kc)), Some(Ok(t))) => {
            let (st5, v) = read_value(st4, t, fuel);
            match v {
                Some(x) => (st5, Some((bytes_of(kc), x))),
                None => (st5, None),
            }
        },
        _ => (st4, None),
    }
}

/// Writes a document as an item of the array or object at depth `k`,
/// after `prefix` (a member's key and colon), or as a top-level value when
/// `k` is negative.
pub open spec fn emit_value(est: EmitterState, d: Doc, k: int, prefix: Seq<char>) -> EmitterState
    decreases d, 0int,
{
    match d {
        Doc::Int(v) => if k < 0 {
            put_top(est, int_text(v))
        } else {
            put_item(est, k, prefix + int_text(v))
        },
        Doc::Dec(t) => if k < 0 {
            put_top(est, t.map_values(|b: u8| byte_char(b)))
        } else {
            put_item(est, k, prefix + t.map_values(|b: u8| byte_char(b)))
        },
        Doc::Text(t) => if k < 0 {
            put_top(est, quoted(t.map_values(|b: u8| byte_char(b))))
        } else {
            put_item(est, k, prefix + quoted(t.map_values(|b: u8| byte_char(b))))
        },
        Doc::List(items) => {
            let e1 = if k < 0 {
                open_top(est, ScopeKind::Arr)
            } else {
                open_item(est, k, prefix, ScopeKind::Arr)
            };
            close_scope(emit_items(e1, items, 0, k + 1), k + 1)
        },
        Doc::Object(ms) => {
            let e1 = if k < 0 {
                open_top(est, ScopeKind::Obj)
            } else {
                open_item(est, k, prefix, ScopeKind::Obj)
            };
            close_scope(emit_members(e1, ms, 0, k + 1), k + 1)
        },
    }
}

/// Writes the items of a document list from `i` on into the array at depth `k`.
pub open spec fn emit_items(est: EmitterState, items: Seq<Doc>, i: int, k: int) -> EmitterState
    decreases items, items.len() - i,
{
    if i < 0 || i >= items.len() {
        est
    } else {
        emit_items(emit_value(est, items[i], k, Seq::empty()), items, i + 1, k)
    }
}

/// Writes the members from `i` on into the object at depth `k`.
pub open spec fn emit_members(est: EmitterState, ms: Seq<(Seq<u8>, Doc)>, i: int, k: int) -> EmitterState
    decreases ms, ms.len() - i,
{
    if i < 0 || i >= ms.len() {
        est
    } else {
        emit_members(
            emit_value(est, ms[i].1, k, key_text(ms[i].0.map_values(|b: u8| byte_char(b)))),
            ms,
            i + 1,
            k,
        )
    }
}

proof fn lemma_split(s: Seq<u8>, x: int, a: Seq<u8>, b: Seq<u8>)
    requires
        0 <= x,
        x + a.len() + b.len() <= s.len(),
        s.subrange(x, x + a.len() + b.len()) == a + b,
    ensures
        s.subrange(x, x + a.len()) == a,
        s.subrange(x + a.len(), x + a.len() + b.len()) == b,
{
    assert(s.subrange(x, x + a.len()) =~= (a + b).subrange(0, a.len() as int));
    assert(s.subrange(x + a.len(), x + a.len() + b.len()) =~= (a + b).subrange(
        a.len() as int,
        (a.len() + b.len()) as int,
    ));
}

proof fn lemma_num_run(s: Seq<u8>, i: int, j: int)
    requires
        0 <= i <= j <= s.len(),
        forall|k: int| i <= k < j ==> is_num_byte(#[trigger] s[k]),
        j == s.len() || !is_num_byte(s[j]),
    ensures
        num_end(s, i) == j,
    decreases j - i,
{
    if i < j {
        lemma_num_run(s, i + 1, j);
    }
}

proof fn lemma_dec_text_chars(v: nat)
    ensures
        bytes_of(dec_text(v)).map_values(|b: u8| byte_char(b)) =~= dec_text(v),
    decreases v,
{
    let c = digit_char(v % 10);
    assert((c as u8) as int == 0x30 + v % 10);
    assert(byte_char(c as u8) == c);
    if v >= 10 {
        lemma_dec_text_chars(v / 10);
        assert(bytes_of(dec_text(v)) =~= bytes_of(dec_text(v / 10)).push(c as u8));
    }
}

proof fn lemma_int_text_chars(v: int)
    ensures
        bytes_of(int_text(v)).map_values(|b: u8| byte_char(b)) =~= int_text(v),
{
    if v < 0 {
        lemma_dec_text_chars((-v) as nat);
        assert(byte_char('-' as u8) == '-');
        assert(bytes_of(int_text(v)) =~= seq!['-' as u8] + bytes_of(dec_text((-v) as nat)));
    } else {
        lemma_dec_text_chars(v as nat);
    }
}

proof fn lemma_bytes_chars(t: Seq<u8>)
    ensures
        bytes_of(t.map_values(|b: u8| byte_char(b))) =~= t,
{
}

/// The first byte of a document's text starts a value: it is not
/// whitespace, a comma or a closing bracket; an integer's text is a run of
/// number bytes.
proof fn lemma_doc_first(d: Doc)
    requires
        supported(d),
    ensures
        doc_bytes(d).len() >= 1,
        !is_ws(doc_bytes(d)[0]) && doc_bytes(d)[0] != 0x2Cu8 && doc_bytes(d)[0] != 0x5Du8,
        d is Int || d is Dec ==> forall|k: int| 0 <= k < doc_bytes(d).len() ==> is_num_byte(
            #[trigger] doc_bytes(d)[k],
        ),
        d is Int || d is Dec ==> (crate::number::is_digit(doc_bytes(d)[0]) || doc_bytes(d)[0]
            == 0x2Du8),
{
    if let Doc::Dec(t) = d {
        lemma_float_text_num_bytes(t);
    }
    if let Doc::Int(v) = d {
        let t = bytes_of(int_text(v));
        if v >= 0 {
            lemma_dec_text_bytes(v as nat);
            assert(forall|k: int| 0 <= k < t.len() ==> crate::number::is_digit(#[trigger] t[k]));
        } else {
            lemma_dec_text_bytes((-v) as nat);
            assert(t.drop_first() =~= bytes_of(dec_text((-v) as nat)));
            assert forall|k: int| 0 <= k < t.len() implies is_num_byte(#[trigger] t[k]) by {
                if k > 0 {
                    assert(t[k] == t.drop_first()[k - 1]);
                }
            }
        }
    }
}

proof fn lemma_digits_end(t: Seq<u8>, i: int)
    requires
        0 <= i <= t.len(),
    ensures
        i <= crate::number::digits_end(t, i) <= t.len(),
        forall|k: int| i <= k < crate::number::digits_end(t, i) ==> crate::number::is_digit(#[trigger] t[k]),
    decreases t.len() - i,
{
    if i < t.len() && crate::number::is_digit(t[i]) {
        lemma_digits_end(t, i + 1);
    }
}

/// Every byte of a decimal number's text is a number byte.
proof fn lemma_float_text_num_bytes(t: Seq<u8>)
    requires
        crate::number::number_of(t) matches Some(NumberModel::Float(_)),
    ensures
        forall|k: int| 0 <= k < t.len() ==> is_num_byte(#[trigger] t[k]),
{
    assert(is_float_text(t));
    let a = if t.len() > 0 && crate::number::is_sign(t[0]) { 1int } else { 0int };
    lemma_digits_end(t, a);
    let b = crate::number::digits_end(t, a);
    let c = if b < t.len() && t[b] == 0x2Eu8 { b + 1 } else { b };
    lemma_digits_end(t, c);
    let d = crate::number::digits_end(t, c);
    if d < t.len() {
        let f = if d + 1 < t.len() && crate::number::is_sign(t[d + 1]) { d + 2 } else { d + 1 };
        lemma_digits_end(t, f);
    }
    assert forall|k: int| 0 <= k < t.len() implies is_num_byte(#[trigger] t[k]) by {
        if k < a {
        } else if k < b {
        } else if k < c {
        } else if k < d {
        } else {
            let f = if d + 1 < t.len() && crate::number::is_sign(t[d + 1]) { d + 2 } else { d + 1 };
            if k >= f {
            }
        }
    }
}

proof fn lemma_list_tail_first(items: Seq<Doc>, i: int)
    requires
        0 < i,
        items_supported(items, i),
    ensures
        list_tail(items, i).len() >= 1,
        list_tail(items, i)[0] == 0x2Cu8 || list_tail(items, i)[0] == 0x5Du8,
{
}

/// Reading the text of a supported document yields exactly that document
/// and leaves the reader just past it, with the values around it as they
/// were.
proof fn lemma_read_value(s: Seq<u8>, p: int, fs: Seq<Frame>, d: Doc, fuel: nat)
    requires
        supported(d),
        s.len() <= usize::MAX,
        0 <= p,
        p + doc_bytes(d).len() <= s.len(),
        s.subrange(p, p + doc_bytes(d).len()) == doc_bytes(d),
        p + doc_bytes(d).len() == s.len() || !is_num_byte(s[p + doc_bytes(d).len()]),
        fuel >= doc_size(d),
    ensures
        dispatch(s, p).1 is Ok,
        read_value(
            ParserState {
                src: s,
                pos: dispatch(s, p).0,
                frames: push_opened(fs, dispatch(s, p).1, dispatch(s, p).0),
            },
            dispatch(s, p).1->Ok_0,
            fuel,
        ) == (ParserState { src: s, pos: p + doc_bytes(d).len(), frames: fs }, Some(d)),
    decreases d, 0int,
{
    let t = doc_bytes(d);
    let n = t.len() as int;
    lemma_doc_first(d);
    assert(s[p] == t[0]);
    match d {
        Doc::Int(v) => {
            assert forall|k: int| p + 1 <= k < p + n implies is_num_byte(#[trigger] s[k]) by {
                assert(s[k] == t[k - p]);
            }
            lemma_num_run(s, p + 1, p + n);
            lemma_integer_text_round_trip(v);
        },
        Doc::Dec(t) => {
            assert forall|k: int| p + 1 <= k < p + n implies is_num_byte(#[trigger] s[k]) by {
                assert(s[k] == t[k - p]);
            }
            lemma_num_run(s, p + 1, p + n);
            lemma_bytes_chars(t);
        },
        Doc::Text(b) => {
            let k = fs.len() as int;
            let st1 = ParserState {
                src: s,
                pos: p + 1,
                frames: fs.push(Frame { kind: FrameKind::Str, start: (p + 1) as usize }),
            };
            assert(settle(s, p + 1, st1.frames, k + 1) == (p + 1, st1.frames));
            lemma_split(s, p, seq![0x22u8] + b, seq![0x22u8]);
            lemma_split(s, p, seq![0x22u8], b);
            assert(s[p + 1 + b.len()] == s.subrange(p + 1 + b.len(), p + n)[0]);
            lemma_plain_string_round_trip(s, p + 1, b.len() as int);
            lemma_bytes_chars(b);
            assert(st1.frames.drop_last() =~= fs);
        },
        Doc::List(items) => {
            let k = fs.len() as int;
            lemma_split(s, p, seq![0x5Bu8], list_tail(items, 0));
            lemma_read_items(s, p + 1, fs, p + 1, items, 0, (fuel - 1) as nat);
            assert(items.subrange(0, items.len() as int) =~= items);
        },
        Doc::Object(ms) => {
            lemma_split(s, p, seq![0x7Bu8], map_tail(ms, 0));
            lemma_read_members(s, p + 1, fs, p + 1, ms, 0, (fuel - 1) as nat);
            assert(ms.subrange(0, ms.len() as int) =~= ms);
        },
    }
}

proof fn lemma_map_tail_first(ms: Seq<(Seq<u8>, Doc)>, i: int)
    requires
        0 < i,
    ensures
        map_tail(ms, i).len() >= 1,
        map_tail(ms, i)[0] == 0x2Cu8 || map_tail(ms, i)[0] == 0x7Du8,
{
}

/// Reading the member whose text starts at `y`, after a comma at `x` when
/// `comma`: the object yields it, and its key and value are read.
proof fn lemma_read_member(
    s: Seq<u8>,
    x: int,
    y: int,
    fs: Seq<Frame>,
    a: int,
    key: Seq<u8>,
    val: Doc,
    comma: bool,
    fuel: nat,
)
    requires
        s.len() <= usize::MAX,
        supported(val),
        fuel >= doc_size(val),
        0 <= x,
        0 <= a <= usize::MAX,
        y == x + (if comma { 1int } else { 0int }),
        comma ==> s[x] == 0x2Cu8,
        y + key.len() + 3 + doc_bytes(val).len() < s.len(),
        s[y] == 0x22u8,
        s.subrange(y + 1, y + 1 + key.len()) == key,
        is_plain(key),
        s[y + 1 + key.len()] == 0x22u8,
        s[y + 2 + key.len()] == 0x3Au8,
        s.subrange(y + key.len() + 3, y + key.len() + 3 + doc_bytes(val).len()) == doc_bytes(val),
        !is_num_byte(s[y + key.len() + 3 + doc_bytes(val).len()]),
    ensures
        ({
            let k = fs.len() as int;
            let frames = fs.push(Frame { kind: FrameKind::Obj, start: a as usize });
            let (st1, r1) = object_next(ParserState { src: s, pos: x, frames }, k, a);
            &&& r1 == Some(Ok::<Token, crate::model::SyntaxError>(
                Token::Open(FrameKind::Pair { key_consumed: false }),
            ))
            &&& read_member(st1, fuel) == (
                ParserState { src: s, pos: y + key.len() + 3 + doc_bytes(val).len(), frames },
                Some((key, val)),
            )
        }),
    decreases val, 1int,
{
    let k = fs.len() as int;
    let kl = key.len() as int;
    let c = y + kl + 2;
    let frames = fs.push(Frame { kind: FrameKind::Obj, start: a as usize });
    let st = ParserState { src: s, pos: x, frames };
    assert(settle(s, x, frames, k + 1) == (x, frames));
    if comma {
        assert(object_step(s, x) == object_step(s, x + 1));
    }
    assert(object_step(s, y) == (
        y + 1,
        Step::Next(Ok(Token::Open(FrameKind::Pair { key_consumed: false }))),
    ));
    let fp = Frame { kind: FrameKind::Pair { key_consumed: false }, start: (y + 1) as usize };
    let st1 = ParserState { src: s, pos: y + 1, frames: frames.push(fp) };
    assert(object_next(st, k, a) == (st1, Some(Ok::<Token, crate::model::SyntaxError>(
        Token::Open(FrameKind::Pair { key_consumed: false }),
    ))));
    let fpk = Frame { kind: FrameKind::Pair { key_consumed: true }, start: (y + 1) as usize };
    let fk = Frame { kind: FrameKind::Str, start: (y + 1) as usize };
    assert(settle(s, y + 1, st1.frames, k + 2) == (y + 1, st1.frames));
    let st2 = ParserState { src: s, pos: y + 1, frames: frames.push(fpk).push(fk) };
    assert(st1.frames.update(k + 1, fpk) =~= frames.push(fpk));
    assert(pair_key(st1, k + 1, y + 1) == (st2, true));
    assert(settle(s, y + 1, st2.frames, k + 3) == (y + 1, st2.frames));
    lemma_plain_string_round_trip(s, y + 1, kl);
    let st3 = ParserState { src: s, pos: c, frames: frames.push(fpk) };
    assert(st2.frames.drop_last() =~= frames.push(fpk));
    let kc = key.map_values(|b: u8| byte_char(b));
    assert(string_read(st2, k + 2, y + 1) == (st3, Some(Ok::<Seq<char>, crate::model::SyntaxError>(kc))));
    lemma_bytes_chars(key);
    lemma_doc_first(val);
    assert(s[c + 1] == doc_bytes(val)[0]);
    assert(settle(s, c, st3.frames, k + 2) == (c, st3.frames));
    assert(ws_end(s, c) == c);
    assert(ws_end(s, c + 1) == c + 1);
    assert(pair_value(s, c, true) == dispatch(s, c + 1));
    assert(st3.frames.drop_last() =~= frames);
    lemma_read_value(s, c + 1, frames, val, fuel);
}

/// Reading the rest of an object whose text from `x` is that of its members
/// from `i` on yields exactly those members, keys and values, and closes
/// the object.
#[verifier::rlimit(60)]
proof fn lemma_read_members(
    s: Seq<u8>,
    x: int,
    fs: Seq<Frame>,
    a: int,
    ms: Seq<(Seq<u8>, Doc)>,
    i: int,
    fuel: nat,
)
    requires
        members_supported(ms, i),
        s.len() <= usize::MAX,
        0 <= i <= ms.len(),
        0 <= x,
        0 <= a <= usize::MAX,
        x + map_tail(ms, i).len() <= s.len(),
        s.subrange(x, x + map_tail(ms, i).len()) == map_tail(ms, i),
        fuel >= map_size(ms, i),
    ensures
        read_members(
            ParserState {
                src: s,
                pos: x,
                frames: fs.push(Frame { kind: FrameKind::Obj, start: a as usize }),
            },
            fs.len() as int,
            a,
            fuel,
        ) == (
            ParserState { src: s, pos: x + map_tail(ms, i).len(), frames: fs },
            Some(ms.subrange(i, ms.len() as int)),
        ),
    decreases ms, ms.len() - i,
{
    let k = fs.len() as int;
    let fo = Frame { kind: FrameKind::Obj, start: a as usize };
    let frames = fs.push(fo);
    let st = ParserState { src: s, pos: x, frames };
    let mt = map_tail(ms, i);
    assert(settle(s, x, frames, k + 1) == (x, frames));
    assert(frames.drop_last() =~= fs);
    if i == ms.len() {
        assert(s[x] == s.subrange(x, x + mt.len())[0]);
        assert(object_step(s, x) == (x + 1, Step::End));
        assert(object_next(st, k, a) == (ParserState { src: s, pos: x + 1, frames: fs }, Option::<
            Result<Token, crate::model::SyntaxError>,
        >::None));
        assert(ms.subrange(i, ms.len() as int) =~= Seq::<(Seq<u8>, Doc)>::empty());
    } else {
        let key = ms[i].0;
        let val = ms[i].1;
        let pre: Seq<u8> = if i == 0 {
            Seq::empty()
        } else {
            seq![0x2Cu8]
        };
        let y = x + pre.len();
        let kl = key.len() as int;
        let c = y + kl + 2;
        let vl = doc_bytes(val).len() as int;
        let rest = map_tail(ms, i + 1);
        assert(mt == pre + member_bytes(key) + doc_bytes(val) + rest);
        lemma_split(s, x, pre + member_bytes(key) + doc_bytes(val), rest);
        lemma_split(s, x, pre + member_bytes(key), doc_bytes(val));
        lemma_split(s, x, pre, member_bytes(key));
        lemma_split(s, y, seq![0x22u8] + key, seq![0x22u8, 0x3Au8]);
        lemma_split(s, y, seq![0x22u8], key);
        lemma_map_tail_first(ms, i + 1);
        assert(s[x] == s.subrange(x, x + mt.len())[0]);
        assert(s[y] == s.subrange(y, y + kl + 3)[0]);
        assert(s[y + 1 + kl] == s.subrange(y + 1 + kl, y + kl + 3)[0]);
        assert(s[c] == s.subrange(y + 1 + kl, y + kl + 3)[1]);
        assert(s[c + 1 + vl] == rest[0]);
        lemma_read_member(s, x, y, fs, a, key, val, i > 0, (fuel - 1) as nat);
        lemma_read_members(s, c + 1 + vl, fs, a, ms, i + 1, (fuel - 1) as nat);
        assert(seq![(key, val)] + ms.subrange(i + 1, ms.len() as int) =~= ms.subrange(
            i,
            ms.len() as int,
        ));
        assert(ms[i] == (key, val));
    }
}

/// Reading the rest of an array whose text from `x` is that of its items
/// from `i` on yields exactly those items and closes the array.
proof fn lemma_read_items(
    s: Seq<u8>,
    x: int,
    fs: Seq<Frame>,
    a: int,
    items: Seq<Doc>,
    i: int,
    fuel: nat,
)
    requires
        items_supported(items, i),
        s.len() <= usize::MAX,
        0 <= i <= items.len(),
        0 <= x,
        0 <= a <= usize::MAX,
        x + list_tail(items, i).len() <= s.len(),
        s.subrange(x, x + list_tail(items, i).len()) == list_tail(items, i),
        fuel >= list_size(items, i),
    ensures
        read_items(
            ParserState {
                src: s,
                pos: x,
                frames: fs.push(Frame { kind: FrameKind::Arr { needs_comma: i > 0 }, start: a as usize }),
            },
            fs.len() as int,
            a,
            fuel,
        ) == (
            ParserState { src: s, pos: x + list_tail(items, i).len(), frames: fs },
            Some(items.subrange(i, items.len() as int)),
        ),
    decreases items, items.len() - i,
{
    let k = fs.len() as int;
    let frames = fs.push(Frame { kind: FrameKind::Arr { needs_comma: i > 0 }, start: a as usize });
    let st = ParserState { src: s, pos: x, frames };
    let lt = list_tail(items, i);
    assert(settle(s, x, frames, k + 1) == (x, frames));
    assert(frames.drop_last() =~= fs);
    if i == items.len() {
        assert(s[x] == s.subrange(x, x + lt.len())[0]);
        assert(items.subrange(i, items.len() as int) =~= Seq::<Doc>::empty());
    } else {
        let item = items[i];
        let pre: Seq<u8> = if i == 0 {
            Seq::empty()
        } else {
            seq![0x2Cu8]
        };
        let y = x + pre.len();
        let ni = doc_bytes(item).len() as int;
        let rest = list_tail(items, i + 1);
        assert(lt == pre + doc_bytes(item) + rest);
        lemma_split(s, x, pre + doc_bytes(item), rest);
        lemma_split(s, x, pre, doc_bytes(item));
        lemma_doc_first(item);
        lemma_list_tail_first(items, i + 1);
        assert(s[x] == s.subrange(x, x + lt.len())[0]);
        assert(s[y] == s.subrange(x, x + pre.len() + ni)[pre.len() as int]);
        assert(s[y] == doc_bytes(item)[0]);
        assert(s[y + ni] == rest[0]);
        if i > 0 {
            assert(s[x] == 0x2Cu8);
            assert(array_step(s, x, true) == array_step(s, x + 1, false));
        }
        assert(array_step(s, y, false) == (dispatch(s, y).0, true, Step::Next(dispatch(s, y).1)));
        let fs2 = fs.push(Frame { kind: FrameKind::Arr { needs_comma: true }, start: a as usize });
        assert(frames.update(k, Frame { kind: FrameKind::Arr { needs_comma: true }, start: a as usize }) =~= fs2);
        lemma_read_value(s, y, fs2, item, (fuel - 1) as nat);
        lemma_read_items(s, y + ni, fs, a, items, i + 1, (fuel - 1) as nat);
        assert(seq![item] + items.subrange(i + 1, items.len() as int) =~= items.subrange(
            i,
            items.len() as int,
        ));
    }
}

proof fn lemma_text_chars(t: Seq<u8>)
    ensures
        (seq![0x22u8] + t + seq![0x22u8]).map_values(|b: u8| byte_char(b)) =~= quoted(
            t.map_values(|b: u8| byte_char(b)),
        ),
{
    assert(byte_char(0x22u8) == '"');
}

/// Writing a document as an item of the array or object at depth `k`,
/// after `prefix`, writes its text, after a comma unless it is the first
/// item.
proof fn lemma_emit_value(est: EmitterState, d: Doc, k: int, prefix: Seq<char>)
    requires
        k >= 0,
        est.scopes.len() == k + 1,
    ensures
        emit_value(est, d, k, prefix).out == est.out + item_sep(est, k) + prefix + doc_bytes(
            d,
        ).map_values(|b: u8| byte_char(b)),
        emit_value(est, d, k, prefix).scopes == est.scopes.update(
            k,
            Scope { started: true, ..est.scopes[k] },
        ),
    decreases d, 0int,
{
    assert(est.scopes.subrange(0, k + 1) =~= est.scopes);
    match d {
        Doc::Int(v) => {
            lemma_int_text_chars(v);
        },
        Doc::Dec(t) => {},
        Doc::Text(t) => {
            lemma_text_chars(t);
        },
        Doc::List(items) => {
            let e1 = open_item(est, k, prefix, ScopeKind::Arr);
            let sc1 = est.scopes.update(k, Scope { started: true, ..est.scopes[k] });
            assert(e1.scopes =~= sc1.push(Scope { kind: ScopeKind::Arr, started: false, id: est.opened }));
            lemma_emit_items(e1, items, 0, k + 1);
            let e2 = emit_items(e1, items, 0, k + 1);
            assert(e2.scopes.drop_last() =~= sc1);
            assert(e2.scopes.subrange(0, k + 1) =~= sc1);
            assert(byte_char(0x5Bu8) == '[');
            assert((seq![0x5Bu8] + list_tail(items, 0)).map_values(|b: u8| byte_char(b)) =~= seq!['[']
                + list_tail(items, 0).map_values(|b: u8| byte_char(b)));
            assert(e2.scopes.len() == k + 2);
            assert(e2.scopes.last().kind == ScopeKind::Arr);
            assert(closed_to(e2.out, e2.scopes, k + 1) == closed_to(
                e2.out.push(']'),
                e2.scopes.drop_last(),
                k + 1,
            ));
            assert(closed_to(e2.out.push(']'), e2.scopes.drop_last(), k + 1) == e2.out.push(']'));
        },
        Doc::Object(ms) => {
            let e1 = open_item(est, k, prefix, ScopeKind::Obj);
            let sc1 = est.scopes.update(k, Scope { started: true, ..est.scopes[k] });
            assert(e1.scopes =~= sc1.push(Scope { kind: ScopeKind::Obj, started: false, id: est.opened }));
            lemma_emit_members(e1, ms, 0, k + 1);
            let e2 = emit_members(e1, ms, 0, k + 1);
            assert(e2.scopes.drop_last() =~= sc1);
            assert(e2.scopes.subrange(0, k + 1) =~= sc1);
            assert(byte_char(0x7Bu8) == '{');
            assert((seq![0x7Bu8] + map_tail(ms, 0)).map_values(|b: u8| byte_char(b)) =~= seq!['{']
                + map_tail(ms, 0).map_values(|b: u8| byte_char(b)));
            assert(e2.scopes.len() == k + 2);
            assert(e2.scopes.last().kind == ScopeKind::Obj);
            assert(closed_to(e2.out, e2.scopes, k + 1) == closed_to(
                e2.out.push('}'),
                e2.scopes.drop_last(),
                k + 1,
            ));
            assert(closed_to(e2.out.push('}'), e2.scopes.drop_last(), k + 1) == e2.out.push('}'));
        },
    }
}

/// Writing the items of a document list from `i` on into the array at
/// depth `k` writes their text, which `]` then closes.
proof fn lemma_emit_items(e: EmitterState, items: Seq<Doc>, i: int, k: int)
    requires
        k >= 0,
        e.scopes.len() == k + 1,
        e.scopes[k].started == (i > 0),
        0 <= i <= items.len(),
    ensures
        emit_items(e, items, i, k).out.push(']') == e.out + list_tail(items, i).map_values(
            |b: u8| byte_char(b),
        ),
        emit_items(e, items, i, k).scopes == e.scopes.update(
            k,
            Scope { started: e.scopes[k].started || i < items.len(), ..e.scopes[k] },
        ),
    decreases items, items.len() - i,
{
    assert(byte_char(0x5Du8) == ']');
    assert(byte_char(0x2Cu8) == ',');
    if i == items.len() {
        assert(e.scopes.update(k, Scope { started: e.scopes[k].started, ..e.scopes[k] }) =~= e.scopes);
    } else {
        lemma_emit_value(e, items[i], k, Seq::empty());
        let e1 = emit_value(e, items[i], k, Seq::empty());
        lemma_emit_items(e1, items, i + 1, k);
        let pre: Seq<u8> = if i == 0 {
            Seq::empty()
        } else {
            seq![0x2Cu8]
        };
        assert(list_tail(items, i) == pre + doc_bytes(items[i]) + list_tail(items, i + 1));
        assert((pre + doc_bytes(items[i]) + list_tail(items, i + 1)).map_values(|b: u8| byte_char(b))
            =~= pre.map_values(|b: u8| byte_char(b)) + doc_bytes(items[i]).map_values(
            |b: u8| byte_char(b),
        ) + list_tail(items, i + 1).map_values(|b: u8| byte_char(b)));
        assert(item_sep(e, k) =~= pre.map_values(|b: u8| byte_char(b)));
        assert(item_sep(e, k) + Seq::<char>::empty() =~= item_sep(e, k));
        assert(e1.scopes.update(k, Scope { started: true, ..e1.scopes[k] }) =~= e1.scopes);
    }
}

/// Writing the members from `i` on into the object at depth `k` writes
/// their text, which `}` then closes.
proof fn lemma_emit_members(e: EmitterState, ms: Seq<(Seq<u8>, Doc)>, i: int, k: int)
    requires
        k >= 0,
        e.scopes.len() == k + 1,
        e.scopes[k].started == (i > 0),
        0 <= i <= ms.len(),
    ensures
        emit_members(e, ms, i, k).out.push('}') == e.out + map_tail(ms, i).map_values(
            |b: u8| byte_char(b),
        ),
        emit_members(e, ms, i, k).scopes == e.scopes.update(
            k,
            Scope { started: e.scopes[k].started || i < ms.len(), ..e.scopes[k] },
        ),
    decreases ms, ms.len() - i,
{
    assert(byte_char(0x7Du8) == '}');
    assert(byte_char(0x2Cu8) == ',');
    assert(byte_char(0x22u8) == '"');
    assert(byte_char(0x3Au8) == ':');
    if i == ms.len() {
        assert(e.scopes.update(k, Scope { started: e.scopes[k].started, ..e.scopes[k] }) =~= e.scopes);
    } else {
        let key = ms[i].0;
        let kt = key_text(key.map_values(|b: u8| byte_char(b)));
        lemma_emit_value(e, ms[i].1, k, kt);
        let e1 = emit_value(e, ms[i].1, k, kt);
        lemma_emit_members(e1, ms, i + 1, k);
        let pre: Seq<u8> = if i == 0 {
            Seq::empty()
        } else {
            seq![0x2Cu8]
        };
        assert(map_tail(ms, i) == pre + member_bytes(key) + doc_bytes(ms[i].1) + map_tail(ms, i + 1));
        assert(member_bytes(key).map_values(|b: u8| byte_char(b)) =~= kt);
        assert((pre + member_bytes(key) + doc_bytes(ms[i].1) + map_tail(ms, i + 1)).map_values(
            |b: u8| byte_char(b),
        ) =~= pre.map_values(|b: u8| byte_char(b)) + member_bytes(key).map_values(
            |b: u8| byte_char(b),
        ) + doc_bytes(ms[i].1).map_values(|b: u8| byte_char(b)) + map_tail(ms, i + 1).map_values(
            |b: u8| byte_char(b),
        ));
        assert(item_sep(e, k) =~= pre.map_values(|b: u8| byte_char(b)));
        assert(e1.scopes.update(k, Scope { started: true, ..e1.scopes[k] }) =~= e1.scopes);
    }
}

/// Round trip, for documents made of arrays, integers that fit in `i64` or
/// `u64`, and strings of plain bytes: when the rest of the input is the
/// text of such a document, the parser's next read, with that value read to
/// its end, yields exactly the document and exhausts the input; writing
/// that document as a top-level value writes exactly the same text (after
/// a line break when a value came before).
pub proof fn lemma_parse_emit_round_trip(st: ParserState, d: Doc, est: EmitterState)
    requires
        supported(d),
        st.src.len() <= usize::MAX,
        st.frames.len() == 0,
        0 <= st.pos,
        st.pos + doc_bytes(d).len() == st.src.len(),
        st.src.subrange(st.pos, st.src.len() as int) == doc_bytes(d),
        est.scopes.len() == 0,
    ensures
        root_next(st).1 matches Some(Ok(t)) && read_value(root_next(st).0, t, doc_size(d)) == (
        ParserState { src: st.src, pos: st.src.len() as int, frames: Seq::empty() }, Some(d)),
        emit_value(est, d, -1, Seq::empty()).out == est.out + (if est.started {
            seq!['\n']
        } else {
            Seq::<char>::empty()
        }) + doc_bytes(d).map_values(|b: u8| byte_char(b)),
{
    let s = st.src;
    let p = st.pos;
    lemma_doc_first(d);
    assert(s[p] == s.subrange(p, s.len() as int)[0]);
    assert(settle(s, p, st.frames, 0) == (p, st.frames));
    assert(ws_end(s, p) == p);
    lemma_read_value(s, p, st.frames, d, doc_size(d));
    let (q, r) = dispatch(s, p);
    assert(root_next(st) == (
        ParserState { src: s, pos: q, frames: push_opened(st.frames, r, q) },
        Some(r),
    ));
    assert(st.frames =~= Seq::<Frame>::empty());
    match d {
        Doc::Int(v) => {
            lemma_int_text_chars(v);
        },
        Doc::Dec(t) => {},
        Doc::Text(t) => {
            lemma_text_chars(t);
        },
        Doc::List(items) => {
            let e1 = open_top(est, ScopeKind::Arr);
            lemma_emit_items(e1, items, 0, 0);
            let e2 = emit_items(e1, items, 0, 0);
            assert(byte_char(0x5Bu8) == '[');
            assert((seq![0x5Bu8] + list_tail(items, 0)).map_values(|b: u8| byte_char(b)) =~= seq!['[']
                + list_tail(items, 0).map_values(|b: u8| byte_char(b)));
            assert(e2.scopes.len() == 1);
            assert(e2.scopes.last().kind == ScopeKind::Arr);
            assert(closed_to(e2.out, e2.scopes, 0) == closed_to(e2.out.push(']'), e2.scopes.drop_last(), 0));
            assert(closed_to(e2.out.push(']'), e2.scopes.drop_last(), 0) == e2.out.push(']'));
        },
        Doc::Object(ms) => {
            let e1 = open_top(est, ScopeKind::Obj);
            lemma_emit_members(e1, ms, 0, 0);
            let e2 = emit_members(e1, ms, 0, 0);
            assert(byte_char(0x7Bu8) == '{');
            assert((seq![0x7Bu8] + map_tail(ms, 0)).map_values(|b: u8| byte_char(b)) =~= seq!['{']
                + map_tail(ms, 0).map_values(|b: u8| byte_char(b)));
            assert(e2.scopes.len() == 1);
            assert(e2.scopes.last().kind == ScopeKind::Obj);
            assert(closed_to(e2.out, e2.scopes, 0) == closed_to(e2.out.push('}'), e2.scopes.drop_last(), 0));
            assert(closed_to(e2.out.push('}'), e2.scopes.drop_last(), 0) == e2.out.push('}'));
        },
    }
}

} // verus!
