//! Executable steps of the reader over its input buffer; each one computes
//! exactly the step of the same name in the model.
use crate::cursor::{
    is_ws_byte, lemma_num_end_bounds, lemma_ws_end_bounds, scan_number, scan_run, scan_string,
    scan_ws,
};
use crate::model::{
    array_step, char_step, dispatch, hex_end, hex_value, ident_end, lemma_hex_end_bounds,
    object_step, pair_value, unicode_step, word_alse, word_rue, word_ull, CharStep, FrameKind, Step,
    SyntaxError, Token,
};
use crate::number::Number;
use crate::text::{char_of_byte, char_of_scalar};
use vstd::prelude::*;

verus! {

/// A value read whole, or the opening of one read through a handle.
pub enum Tok {
    Null,
    Bool(bool),
    Num(Number),
    Open(FrameKind),
}

pub open spec fn tok_model(t: Tok) -> Token {
    match t {
        Tok::Null => Token::Null,
        Tok::Bool(b) => Token::Bool(b),
        Tok::Num(n) => Token::Num(n@),
        Tok::Open(k) => Token::Open(k),
    }
}

pub open spec fn res_model(r: Result<Tok, SyntaxError>) -> Result<Token, SyntaxError> {
    match r {
        Ok(t) => Ok(tok_model(t)),
        Err(e) => Err(e),
    }
}

pub enum Scan {
    End,
    Next(Result<Tok, SyntaxError>),
}

pub open spec fn scan_model(r: Scan) -> Step {
    match r {
        Scan::End => Step::End,
        Scan::Next(x) => Step::Next(res_model(x)),
    }
}

pub enum CharScan {
    End,
    Char(char),
    Fail(SyntaxError),
}

pub open spec fn char_model(r: CharScan) -> CharStep {
    match r {
        CharScan::End => CharStep::End,
        CharScan::Char(c) => CharStep::Char(c),
        CharScan::Fail(e) => CharStep::Fail(e),
    }
}

fn copy_range(s: &Vec<u8>, a: usize, b: usize) -> (r: Vec<u8>)
    requires
        a <= b <= s@.len(),
    ensures
        r@ == s@.subrange(a as int, b as int),
{
    let mut v: Vec<u8> = Vec::new();
    let mut i: usize = a;
    while i < b
        invariant
            a <= i <= b,
            b <= s@.len(),
            v@ == s@.subrange(a as int, i as int),
        decreases b - i,
    {
        v.push(s[i]);
        i = i + 1;
        proof {
            assert(v@ =~= s@.subrange(a as int, i as int));
        }
    }
    v
}

fn read_word(s: &Vec<u8>, i: usize, w: &Vec<u8>) -> (r: (usize, Option<SyntaxError>))
    requires
        i <= s@.len(),
    ensures
        r.0 == ident_end(s@, i as int, w@).0,
        r.1 == ident_end(s@, i as int, w@).1,
{
    let n = s.len();
    let mut k: usize = 0;
    proof {
        assert(w@.subrange(0, w@.len() as int) =~= w@);
    }
    while k < w.len()
        invariant
            n == s@.len(),
            k <= w@.len(),
            i + k <= s@.len(),
            ident_end(s@, (i + k) as int, w@.subrange(k as int, w@.len() as int)) == ident_end(
                s@,
                i as int,
                w@,
            ),
        decreases w@.len() - k,
    {
        let ghost rest = w@.subrange(k as int, w@.len() as int);
        if i + k >= n {
            return (i + k, Some(SyntaxError::EofWhileParsingValue));
        }
        if s[i + k] != w[k] {
            return (scan_run(s, i + k), Some(SyntaxError::InvalidIdentifier));
        }
        proof {
            assert(rest.drop_first() =~= w@.subrange(k + 1, w@.len() as int));
        }
        k = k + 1;
    }
    proof {
        assert(w@.subrange(k as int, w@.len() as int).len() == 0);
    }
    (i + k, None)
}

fn read_word_token(s: &Vec<u8>, i: usize, w: &Vec<u8>, t: Tok) -> (r: (
    usize,
    Result<Tok, SyntaxError>,
))
    requires
        i <= s@.len(),
    ensures
        r.0 == ident_end(s@, i as int, w@).0,
        res_model(r.1) == (match ident_end(s@, i as int, w@).1 {
            None => Ok(tok_model(t)),
            Some(e) => Err(e),
        }),
{
    let (e, r) = read_word(s, i, w);
    match r {
        None => (e, Ok(t)),
        Some(err) => (e, Err(err)),
    }
}

/// Reads one value whose first byte is `s[i]`.
pub fn read_item(s: &Vec<u8>, i: usize) -> (r: (usize, Result<Tok, SyntaxError>))
    requires
        i < s@.len(),
    ensures
        r.0 == dispatch(s@, i as int).0,
        res_model(r.1) == dispatch(s@, i as int).1,
{
    let n = s.len();
    assert(i + 1 <= n);
    let b = s[i];
    if (0x30u8 <= b && b <= 0x39u8) || b == 0x2Du8 {
        let e = scan_number(s, i + 1);
        proof {
            lemma_num_end_bounds(s@, i + 1);
        }
        let text = copy_range(s, i, e);
        match Number::from_literal(&text) {
            Some(n) => (e, Ok(Tok::Num(n))),
            None => (e, Err(SyntaxError::InvalidNumber)),
        }
    } else if b == 0x6Eu8 {
        let w = vec![0x75u8, 0x6Cu8, 0x6Cu8];
        proof {
            assert(w@ =~= word_ull());
        }
        read_word_token(s, i + 1, &w, Tok::Null)
    } else if b == 0x74u8 {
        let w = vec![0x72u8, 0x75u8, 0x65u8];
        proof {
            assert(w@ =~= word_rue());
        }
        read_word_token(s, i + 1, &w, Tok::Bool(true))
    } else if b == 0x66u8 {
        let w = vec![0x61u8, 0x6Cu8, 0x73u8, 0x65u8];
        proof {
            assert(w@ =~= word_alse());
        }
        read_word_token(s, i + 1, &w, Tok::Bool(false))
    } else if b == 0x5Bu8 {
        (i + 1, Ok(Tok::Open(FrameKind::Arr { needs_comma: false })))
    } else if b == 0x7Bu8 {
        (i + 1, Ok(Tok::Open(FrameKind::Obj)))
    } else if b == 0x22u8 {
        (i + 1, Ok(Tok::Open(FrameKind::Str)))
    } else if (0x41u8 <= b && b <= 0x5Au8) || (0x61u8 <= b && b <= 0x7Au8) {
        (scan_run(s, i + 1), Err(SyntaxError::InvalidIdentifier))
    } else {
        (i + 1, Err(SyntaxError::InvalidIdentifier))
    }
}

/// One step of an array from `p`.
pub fn array_scan(s: &Vec<u8>, p: usize, nc: bool) -> (r: (usize, bool, Scan))
    requires
        p <= s@.len(),
    ensures
        r.0 == array_step(s@, p as int, nc).0,
        r.1 == array_step(s@, p as int, nc).1,
        scan_model(r.2) == array_step(s@, p as int, nc).2,
{
    let mut j: usize = p;
    let mut needs = nc;
    loop
        invariant
            p <= j <= s@.len(),
            array_step(s@, j as int, needs) == array_step(s@, p as int, nc),
        decreases s@.len() - j,
    {
        if j >= s.len() {
            return (j, needs, Scan::End);
        }
        let b = s[j];
        if b == 0x5Du8 {
            return (j + 1, needs, Scan::End);
        } else if b == 0x2Cu8 {
            if needs {
                needs = false;
                j = j + 1;
            } else {
                return (j + 1, false, Scan::Next(Err(SyntaxError::TrailingComma)));
            }
        } else if is_ws_byte(b) {
            j = j + 1;
        } else if needs {
            return (j, false, Scan::Next(Err(SyntaxError::MissingComma)));
        } else {
            let (q, r) = read_item(s, j);
            return (q, true, Scan::Next(r));
        }
    }
}

/// One step of an object from `p`.
pub fn object_scan(s: &Vec<u8>, p: usize) -> (r: (usize, Scan))
    requires
        p <= s@.len(),
    ensures
        r.0 == object_step(s@, p as int).0,
        scan_model(r.1) == object_step(s@, p as int).1,
{
    let mut j: usize = p;
    loop
        invariant
            p <= j <= s@.len(),
            object_step(s@, j as int) == object_step(s@, p as int),
        decreases s@.len() - j,
    {
        if j >= s.len() {
            return (j, Scan::End);
        }
        let b = s[j];
        if is_ws_byte(b) || b == 0x2Cu8 {
            j = j + 1;
        } else if b == 0x7Du8 {
            return (j + 1, Scan::End);
        } else if b == 0x22u8 {
            return (
                j + 1,
                Scan::Next(Ok(Tok::Open(FrameKind::Pair { key_consumed: false }))),
            );
        } else {
            return (j + 1, Scan::Next(Err(SyntaxError::KeyMustBeAString)));
        }
    }
}

/// Reads the value of an object member from `p`.
pub fn value_scan(s: &Vec<u8>, p: usize, key_consumed: bool) -> (r: (
    usize,
    Result<Tok, SyntaxError>,
))
    requires
        p <= s@.len(),
    ensures
        r.0 == pair_value(s@, p as int, key_consumed).0,
        res_model(r.1) == pair_value(s@, p as int, key_consumed).1,
{
    proof {
        crate::cursor::lemma_string_end_bounds(s@, p as int, false);
    }
    let after_key = if key_consumed {
        p
    } else {
        scan_string(s, p)
    };
    let colon_at = scan_ws(s, after_key);
    proof {
        lemma_ws_end_bounds(s@, after_key as int);
    }
    if colon_at >= s.len() {
        return (colon_at, Err(SyntaxError::EofWhileParsingValue));
    }
    if s[colon_at] != 0x3Au8 {
        return (colon_at, Err(SyntaxError::ExpectedColon));
    }
    let value_at = scan_ws(s, colon_at + 1);
    proof {
        lemma_ws_end_bounds(s@, colon_at + 1);
    }
    if value_at >= s.len() {
        return (value_at, Err(SyntaxError::EofWhileParsingValue));
    }
    read_item(s, value_at)
}

proof fn lemma_hex_value_step(s: Seq<u8>, a: int, k: int)
    requires
        0 <= a <= k < s.len(),
    ensures
        hex_value(s.subrange(a, k + 1)) == hex_value(s.subrange(a, k)) * 16 + crate::model::hex_digit(s[k]),
{
    assert(s.subrange(a, k + 1).drop_last() =~= s.subrange(a, k));
}

/// Reads the hexadecimal digits from `i`: where they end, and their value
/// when it is at most 0x10FFFF (`None` when it is larger).
fn hex_scan(s: &Vec<u8>, i: usize) -> (r: (usize, Option<u32>))
    requires
        i <= s@.len(),
    ensures
        r.0 == hex_end(s@, i as int),
        r.1.is_some() <==> hex_value(s@.subrange(i as int, r.0 as int)) <= 0x10FFFF,
        r.1.is_some() ==> r.1.unwrap() as nat == hex_value(s@.subrange(i as int, r.0 as int)),
{
    let mut j: usize = i;
    let mut val: u32 = 0;
    let mut big = false;
    while j < s.len() && ((0x30u8 <= s[j] && s[j] <= 0x39u8) || (0x61u8 <= s[j] && s[j] <= 0x66u8)
        || (0x41u8 <= s[j] && s[j] <= 0x46u8))
        invariant
            i <= j <= s@.len(),
            hex_end(s@, j as int) == hex_end(s@, i as int),
            !big ==> val as nat == hex_value(s@.subrange(i as int, j as int)) && val <= 0x10FFFF,
            big ==> hex_value(s@.subrange(i as int, j as int)) > 0x10FFFF,
        decreases s@.len() - j,
    {
        let b = s[j];
        let d: u32 = if 0x30u8 <= b && b <= 0x39u8 {
            (b - 0x30u8) as u32
        } else if 0x61u8 <= b && b <= 0x66u8 {
            (b - 0x61u8 + 10) as u32
        } else {
            (b - 0x41u8 + 10) as u32
        };
        proof {
            lemma_hex_value_step(s@, i as int, j as int);
        }
        if !big {
            if val > 0x10FFFF / 16 {
                big = true;
            } else {
                val = val * 16 + d;
                if val > 0x10FFFF {
                    big = true;
                }
            }
        }
        j = j + 1;
    }
    if big {
        (j, None)
    } else {
        (j, Some(val))
    }
}

/// Reads a `\u{...}` escape whose `{` is due at `q`.
fn unicode_scan(s: &Vec<u8>, q: usize) -> (r: (usize, CharScan))
    requires
        q <= s@.len(),
    ensures
        r.0 == unicode_step(s@, q as int).0,
        char_model(r.1) == unicode_step(s@, q as int).1,
{
    if q >= s.len() {
        return (q, CharScan::Fail(SyntaxError::EofWhileParsingString));
    }
    if s[q] != 0x7Bu8 {
        return (q, CharScan::Fail(SyntaxError::InvalidEscape));
    }
    proof {
        lemma_hex_end_bounds(s@, q + 1);
    }
    let (h, v) = hex_scan(s, q + 1);
    if h >= s.len() {
        return (h, CharScan::Fail(SyntaxError::EofWhileParsingString));
    }
    if s[h] != 0x7Du8 || h == q + 1 {
        return (h, CharScan::Fail(SyntaxError::InvalidEscape));
    }
    match v {
        Some(v) => match char_of_scalar(v) {
            Some(c) => (h + 1, CharScan::Char(c)),
            None => (h + 1, CharScan::Fail(SyntaxError::InvalidUnicodeCodePoint)),
        },
        None => (h + 1, CharScan::Fail(SyntaxError::InvalidUnicodeCodePoint)),
    }
}

/// Reads one character of a string body from `p`.
pub fn char_scan(s: &Vec<u8>, p: usize) -> (r: (usize, CharScan))
    requires
        p <= s@.len(),
    ensures
        r.0 == char_step(s@, p as int).0,
        char_model(r.1) == char_step(s@, p as int).1,
{
    if p >= s.len() {
        return (p, CharScan::Fail(SyntaxError::EofWhileParsingString));
    }
    let b = s[p];
    if b == 0x22u8 {
        return (p + 1, CharScan::End);
    }
    if b != 0x5Cu8 {
        return (p + 1, CharScan::Char(char_of_byte(b)));
    }
    if p + 1 >= s.len() {
        return (p + 1, CharScan::Fail(SyntaxError::EofWhileParsingString));
    }
    let e = s[p + 1];
    if e == 0x75u8 {
        return unicode_scan(s, p + 2);
    }
    let c: u8 = if e == 0x22u8 || e == 0x5Cu8 || e == 0x2Fu8 {
        e
    } else if e == 0x6Eu8 {
        0x0A
    } else if e == 0x72u8 {
        0x0D
    } else if e == 0x74u8 {
        0x09
    } else if e == 0x62u8 {
        0x08
    } else if e == 0x66u8 {
        0x0C
    } else {
        return (p + 2, CharScan::Fail(SyntaxError::InvalidEscape));
    };
    (p + 2, CharScan::Char(char_of_byte(c)))
}

} // verus!
