//! JSON numbers: an unsigned integer, a negative integer, or a decimal
//! literal kept as its text.
use crate::text::{byte_char, char_of_byte, push_char};
use vstd::prelude::*;

verus! {

/// What a [`Number`] holds.
pub ghost enum NumberModel {
    PosInt(u64),
    NegInt(i64),
    Float(Seq<char>),
}

#[derive(Debug, Clone)]
enum NumRepr {
    PosInt(u64),
    NegInt(i64),
    Float(String),
}

/// A JSON number. Integers are kept exactly: a non-negative one as `u64`, a
/// negative one as `i64`. Any other literal that reads as a decimal
/// floating-point number is kept as its text.
#[derive(Debug, Clone)]
pub struct Number {
    n: NumRepr,
}

impl View for Number {
    type V = NumberModel;

    closed spec fn view(&self) -> NumberModel {
        match self.n {
            NumRepr::PosInt(u) => NumberModel::PosInt(u),
            NumRepr::NegInt(i) => NumberModel::NegInt(i),
            NumRepr::Float(s) => NumberModel::Float(s@),
        }
    }
}

/// The model of an integer: non-negative values as unsigned, others as signed.
pub open spec fn int_model(v: int) -> NumberModel {
    if v >= 0 {
        NumberModel::PosInt(v as u64)
    } else {
        NumberModel::NegInt(v as i64)
    }
}

pub open spec fn is_digit(b: u8) -> bool {
    0x30u8 <= b && b <= 0x39u8
}

pub open spec fn all_digits(t: Seq<u8>) -> bool {
    forall|k: int| 0 <= k < t.len() ==> is_digit(#[trigger] t[k])
}

/// The value of a string of decimal digits.
pub open spec fn dec_value(t: Seq<u8>) -> nat
    decreases t.len(),
{
    if t.len() == 0 {
        0
    } else {
        dec_value(t.drop_last()) * 10 + (t.last() - 0x30u8) as nat
    }
}

/// First index at or after `i` that does not hold a digit (or the end).
pub open spec fn digits_end(t: Seq<u8>, i: int) -> int
    decreases t.len() - i,
{
    if 0 <= i < t.len() && is_digit(t[i]) {
        digits_end(t, i + 1)
    } else {
        i
    }
}

pub open spec fn is_sign(b: u8) -> bool {
    b == 0x2Bu8 || b == 0x2Du8
}

/// Decimal floating-point syntax: an optional sign, digits with an optional
/// fraction (at least one digit in all), then an optional exponent `e` or
/// `E` with an optional sign and at least one digit.
pub open spec fn is_float_text(t: Seq<u8>) -> bool {
    let a = if t.len() > 0 && is_sign(t[0]) { 1int } else { 0int };
    let b = digits_end(t, a);
    let c = if b < t.len() && t[b] == 0x2Eu8 { b + 1 } else { b };
    let d = digits_end(t, c);
    &&& (b - a) + (d - c) >= 1
    &&& (d == t.len() || {
        let f = if d + 1 < t.len() && is_sign(t[d + 1]) { d + 2 } else { d + 1 };
        &&& (t[d] == 0x65u8 || t[d] == 0x45u8)
        &&& f < t.len()
        &&& digits_end(t, f) == t.len()
    })
}

/// Whether the integer part of a literal is a zero followed by more digits.
pub open spec fn has_leading_zero(t: Seq<u8>) -> bool {
    let a = if t.len() > 0 && t[0] == 0x2Du8 { 1int } else { 0int };
    a + 1 < t.len() && t[a] == 0x30u8 && is_digit(t[a + 1])
}

/// The number that a literal denotes: none when its integer part has a
/// leading zero; else an unsigned integer if it reads as one, else a signed
/// integer, else a decimal floating-point text, else none.
pub open spec fn number_of(t: Seq<u8>) -> Option<NumberModel> {
    if has_leading_zero(t) {
        None
    } else if t.len() > 0 && all_digits(t) && dec_value(t) <= u64::MAX {
        Some(NumberModel::PosInt(dec_value(t) as u64))
    } else if t.len() > 1 && t[0] == 0x2Du8 && all_digits(t.drop_first()) && dec_value(
        t.drop_first(),
    ) <= 0x8000_0000_0000_0000 {
        Some(int_model(-dec_value(t.drop_first())))
    } else if is_float_text(t) {
        Some(NumberModel::Float(t.map_values(|b: u8| byte_char(b))))
    } else {
        None
    }
}

proof fn lemma_dec_value_step(t: Seq<u8>, a: int, k: int)
    requires
        0 <= a <= k < t.len(),
    ensures
        dec_value(t.subrange(a, k + 1)) == dec_value(t.subrange(a, k)) * 10 + (t[k] - 0x30u8) as nat,
{
    assert(t.subrange(a, k + 1).drop_last() =~= t.subrange(a, k));
}

/// Reads `t[from..]` as a decimal integer: `Some` exactly when it is a
/// non-empty run of digits whose value fits in `u64`.
fn read_decimal(t: &Vec<u8>, from: usize) -> (r: Option<u64>)
    requires
        from <= t@.len(),
    ensures
        r.is_some() <==> (from < t@.len() && all_digits(t@.subrange(from as int, t@.len() as int))
            && dec_value(t@.subrange(from as int, t@.len() as int)) <= u64::MAX),
        r.is_some() ==> r.unwrap() as nat == dec_value(t@.subrange(from as int, t@.len() as int)),
{
    let ghost s = t@.subrange(from as int, t@.len() as int);
    if from == t.len() {
        return None;
    }
    let mut val: u64 = 0;
    let mut too_big = false;
    let mut j: usize = from;
    while j < t.len()
        invariant
            from <= j <= t@.len(),
            s == t@.subrange(from as int, t@.len() as int),
            forall|k: int| from <= k < j ==> is_digit(#[trigger] t@[k]),
            !too_big ==> val as nat == dec_value(t@.subrange(from as int, j as int)),
            too_big ==> dec_value(t@.subrange(from as int, j as int)) > u64::MAX,
        decreases t@.len() - j,
    {
        let b = t[j];
        if !(0x30u8 <= b && b <= 0x39u8) {
            proof {
                assert(s[j - from] == b);
                assert(!is_digit(s[j - from]));
            }
            return None;
        }
        proof {
            lemma_dec_value_step(t@, from as int, j as int);
        }
        if !too_big {
            match val.checked_mul(10) {
                Some(v10) => match v10.checked_add((b - 0x30u8) as u64) {
                    Some(v) => {
                        val = v;
                    },
                    None => {
                        too_big = true;
                    },
                },
                None => {
                    too_big = true;
                },
            }
        }
        j = j + 1;
    }
    proof {
        assert(t@.subrange(from as int, j as int) =~= s);
        assert forall|k: int| 0 <= k < s.len() implies is_digit(#[trigger] s[k]) by {
            assert(s[k] == t@[from + k]);
        }
    }
    if too_big {
        None
    } else {
        Some(val)
    }
}

fn scan_digits(t: &Vec<u8>, i: usize) -> (r: usize)
    requires
        i <= t@.len(),
    ensures
        r == digits_end(t@, i as int),
        i <= r <= t@.len(),
{
    let mut j: usize = i;
    while j < t.len() && 0x30u8 <= t[j] && t[j] <= 0x39u8
        invariant
            i <= j <= t@.len(),
            digits_end(t@, j as int) == digits_end(t@, i as int),
        decreases t@.len() - j,
    {
        j = j + 1;
    }
    j
}

fn float_syntax(t: &Vec<u8>) -> (r: bool)
    ensures
        r == is_float_text(t@),
{
    let a: usize = if t.len() > 0 && (t[0] == 0x2Bu8 || t[0] == 0x2Du8) {
        1
    } else {
        0
    };
    let b = scan_digits(t, a);
    let c: usize = if b < t.len() && t[b] == 0x2Eu8 {
        b + 1
    } else {
        b
    };
    let d = scan_digits(t, c);
    if (b - a) + (d - c) < 1 {
        return false;
    }
    if d == t.len() {
        return true;
    }
    if !(t[d] == 0x65u8 || t[d] == 0x45u8) {
        return false;
    }
    let f: usize = if d + 1 < t.len() && (t[d + 1] == 0x2Bu8 || t[d + 1] == 0x2Du8) {
        d + 2
    } else {
        d + 1
    };
    f < t.len() && scan_digits(t, f) == t.len()
}

fn text_of_bytes(t: &Vec<u8>) -> (r: String)
    ensures
        r@ == t@.map_values(|b: u8| byte_char(b)),
{
    let mut s = String::new();
    let mut i: usize = 0;
    while i < t.len()
        invariant
            i <= t@.len(),
            s@ == t@.subrange(0, i as int).map_values(|b: u8| byte_char(b)),
        decreases t@.len() - i,
    {
        push_char(&mut s, char_of_byte(t[i]));
        i = i + 1;
        proof {
            assert(t@.subrange(0, i as int).map_values(|b: u8| byte_char(b)) =~= t@.subrange(
                0,
                i - 1,
            ).map_values(|b: u8| byte_char(b)).push(byte_char(t@[i - 1])));
        }
    }
    proof {
        assert(t@.subrange(0, i as int) =~= t@);
    }
    s
}

impl Number {
    pub(crate) fn copy(&self) -> (r: Number)
        ensures
            r@ == self@,
    {
        match &self.n {
            NumRepr::PosInt(u) => Number { n: NumRepr::PosInt(*u) },
            NumRepr::NegInt(i) => Number { n: NumRepr::NegInt(*i) },
            NumRepr::Float(s) => Number { n: NumRepr::Float(s.clone()) },
        }
    }

    /// Reads a number literal: as `u64` if it is one, else as `i64`, else
    /// as decimal floating-point text; `None` when it is none of these.
    pub fn from_literal(t: &Vec<u8>) -> (r: Option<Number>)
        ensures
            r.is_some() == number_of(t@).is_some(),
            r.is_some() ==> r.unwrap()@ == number_of(t@).unwrap(),
    {
        proof {
            assert(t@.subrange(0, t@.len() as int) =~= t@);
        }
        let a: usize = if t.len() > 0 && t[0] == 0x2Du8 {
            1
        } else {
            0
        };
        if a + 1 < t.len() && t[a] == 0x30u8 && 0x30u8 <= t[a + 1] && t[a + 1] <= 0x39u8 {
            return None;
        }
        if let Some(u) = read_decimal(t, 0) {
            return Some(Number { n: NumRepr::PosInt(u) });
        }
        if t.len() > 1 && t[0] == 0x2Du8 {
            proof {
                assert(t@.subrange(1, t@.len() as int) =~= t@.drop_first());
            }
            if let Some(u) = read_decimal(t, 1) {
                if u <= 0x8000_0000_0000_0000u64 {
                    if u == 0 {
                        return Some(Number { n: NumRepr::PosInt(0) });
                    } else if u == 0x8000_0000_0000_0000u64 {
                        return Some(Number { n: NumRepr::NegInt(i64::MIN) });
                    } else {
                        return Some(Number { n: NumRepr::NegInt(-(u as i64)) });
                    }
                }
            }
        }
        if float_syntax(t) {
            Some(Number { n: NumRepr::Float(text_of_bytes(t)) })
        } else {
            None
        }
    }

    /// The decimal text of a number that is neither a `u64` nor a negative
    /// `i64`.
    pub fn float_text(&self) -> (r: Option<String>)
        ensures
            r.is_some() == (self@ is Float),
            r.is_some() ==> r.unwrap()@ == self@->Float_0,
    {
        match &self.n {
            NumRepr::Float(s) => Some(s.clone()),
            _ => None,
        }
    }

    pub fn as_u64(&self) -> (r: Option<u64>)
        ensures
            r.is_some() == (self@ is PosInt),
            r.is_some() ==> r.unwrap() == self@->PosInt_0,
    {
        match &self.n {
            NumRepr::PosInt(u) => Some(*u),
            _ => None,
        }
    }

    pub fn as_i64(&self) -> (r: Option<i64>)
        ensures
            r.is_some() == (self@ is NegInt || (self@ is PosInt && self@->PosInt_0 <= i64::MAX)),
            r.is_some() && self@ is NegInt ==> r.unwrap() == self@->NegInt_0,
            r.is_some() && self@ is PosInt ==> r.unwrap() == self@->PosInt_0,
    {
        match &self.n {
            NumRepr::PosInt(u) => if *u <= i64::MAX as u64 {
                Some(*u as i64)
            } else {
                None
            },
            NumRepr::NegInt(i) => Some(*i),
            _ => None,
        }
    }
}

impl PartialEq for Number {
    fn eq(&self, o: &Number) -> (r: bool) {
        match (&self.n, &o.n) {
            (NumRepr::PosInt(a), NumRepr::PosInt(b)) => *a == *b,
            (NumRepr::NegInt(a), NumRepr::NegInt(b)) => *a == *b,
            (NumRepr::Float(a), NumRepr::Float(b)) => *a == *b,
            _ => false,
        }
    }
}

impl vstd::std_specs::cmp::PartialEqSpecImpl for Number {
    open spec fn obeys_eq_spec() -> bool {
        true
    }

    open spec fn eq_spec(&self, o: &Number) -> bool {
        self@ == o@
    }
}

impl From<u64> for Number {
    fn from(u: u64) -> (r: Number) {
        Number { n: NumRepr::PosInt(u) }
    }
}

impl vstd::std_specs::convert::FromSpecImpl<u64> for Number {
    open spec fn obeys_from_spec() -> bool {
        true
    }

    closed spec fn from_spec(u: u64) -> Number {
        Number { n: NumRepr::PosInt(u) }
    }
}

impl From<u32> for Number {
    fn from(u: u32) -> (r: Number) {
        Number { n: NumRepr::PosInt(u as u64) }
    }
}

impl vstd::std_specs::convert::FromSpecImpl<u32> for Number {
    open spec fn obeys_from_spec() -> bool {
        true
    }

    closed spec fn from_spec(u: u32) -> Number {
        Number { n: NumRepr::PosInt(u as u64) }
    }
}

impl From<i64> for Number {
    fn from(i: i64) -> (r: Number) {
        if i < 0 {
            Number { n: NumRepr::NegInt(i) }
        } else {
            Number { n: NumRepr::PosInt(i as u64) }
        }
    }
}

impl vstd::std_specs::convert::FromSpecImpl<i64> for Number {
    open spec fn obeys_from_spec() -> bool {
        true
    }

    closed spec fn from_spec(i: i64) -> Number {
        if i < 0 {
            Number { n: NumRepr::NegInt(i) }
        } else {
            Number { n: NumRepr::PosInt(i as u64) }
        }
    }
}

impl From<i32> for Number {
    fn from(i: i32) -> (r: Number) {
        if i < 0 {
            Number { n: NumRepr::NegInt(i as i64) }
        } else {
            Number { n: NumRepr::PosInt(i as u64) }
        }
    }
}

impl vstd::std_specs::convert::FromSpecImpl<i32> for Number {
    open spec fn obeys_from_spec() -> bool {
        true
    }

    closed spec fn from_spec(i: i32) -> Number {
        if i < 0 {
            Number { n: NumRepr::NegInt(i as i64) }
        } else {
            Number { n: NumRepr::PosInt(i as u64) }
        }
    }
}

impl From<u8> for Number {
    fn from(u: u8) -> (r: Number) {
        Number { n: NumRepr::PosInt(u as u64) }
    }
}

impl vstd::std_specs::convert::FromSpecImpl<u8> for Number {
    open spec fn obeys_from_spec() -> bool {
        true
    }

    closed spec fn from_spec(u: u8) -> Number {
        Number { n: NumRepr::PosInt(u as u64) }
    }
}

impl From<u16> for Number {
    fn from(u: u16) -> (r: Number) {
        Number { n: NumRepr::PosInt(u as u64) }
    }
}

impl vstd::std_specs::convert::FromSpecImpl<u16> for Number {
    open spec fn obeys_from_spec() -> bool {
        true
    }

    closed spec fn from_spec(u: u16) -> Number {
        Number { n: NumRepr::PosInt(u as u64) }
    }
}

impl From<usize> for Number {
    fn from(u: usize) -> (r: Number) {
        Number { n: NumRepr::PosInt(u as u64) }
    }
}

impl vstd::std_specs::convert::FromSpecImpl<usize> for Number {
    open spec fn obeys_from_spec() -> bool {
        true
    }

    closed spec fn from_spec(u: usize) -> Number {
        Number { n: NumRepr::PosInt(u as u64) }
    }
}

impl From<i8> for Number {
    fn from(i: i8) -> (r: Number) {
        if i < 0 {
            Number { n: NumRepr::NegInt(i as i64) }
        } else {
            Number { n: NumRepr::PosInt(i as u64) }
        }
    }
}

impl vstd::std_specs::convert::FromSpecImpl<i8> for Number {
    open spec fn obeys_from_spec() -> bool {
        true
    }

    closed spec fn from_spec(i: i8) -> Number {
        if i < 0 {
            Number { n: NumRepr::NegInt(i as i64) }
        } else {
            Number { n: NumRepr::PosInt(i as u64) }
        }
    }
}

impl From<i16> for Number {
    fn from(i: i16) -> (r: Number) {
        if i < 0 {
            Number { n: NumRepr::NegInt(i as i64) }
        } else {
            Number { n: NumRepr::PosInt(i as u64) }
        }
    }
}

impl vstd::std_specs::convert::FromSpecImpl<i16> for Number {
    open spec fn obeys_from_spec() -> bool {
        true
    }

    closed spec fn from_spec(i: i16) -> Number {
        if i < 0 {
            Number { n: NumRepr::NegInt(i as i64) }
        } else {
            Number { n: NumRepr::PosInt(i as u64) }
        }
    }
}

impl From<isize> for Number {
    fn from(i: isize) -> (r: Number) {
        if i < 0 {
            Number { n: NumRepr::NegInt(i as i64) }
        } else {
            Number { n: NumRepr::PosInt(i as u64) }
        }
    }
}

impl vstd::std_specs::convert::FromSpecImpl<isize> for Number {
    open spec fn obeys_from_spec() -> bool {
        true
    }

    closed spec fn from_spec(i: isize) -> Number {
        if i < 0 {
            Number { n: NumRepr::NegInt(i as i64) }
        } else {
            Number { n: NumRepr::PosInt(i as u64) }
        }
    }
}

} // verus!
