//! Byte-level scanning over an input buffer: whitespace, identifier runs,
//! number runs and string bodies.
use vstd::prelude::*;

verus! {

/// The four JSON whitespace bytes: space, tab, line feed, carriage return.
pub open spec fn is_ws(b: u8) -> bool {
    b == 0x20u8 || b == 0x09u8 || b == 0x0Au8 || b == 0x0Du8
}

/// Bytes that may continue a number: digits, `.`, `e`, `E`, `+`, `-`.
pub open spec fn is_num_byte(b: u8) -> bool {
    (0x30u8 <= b && b <= 0x39u8) || b == 0x2Eu8 || b == 0x65u8 || b == 0x45u8 || b == 0x2Bu8
        || b == 0x2Du8
}

/// First index at or after `i` that is not whitespace (or the end).
pub open spec fn ws_end(s: Seq<u8>, i: int) -> int
    decreases s.len() - i,
{
    if 0 <= i < s.len() && is_ws(s[i]) {
        ws_end(s, i + 1)
    } else {
        i
    }
}

/// First index at or after `i` that holds whitespace (or the end).
pub open spec fn run_end(s: Seq<u8>, i: int) -> int
    decreases s.len() - i,
{
    if 0 <= i < s.len() && !is_ws(s[i]) {
        run_end(s, i + 1)
    } else {
        i
    }
}

/// First index at or after `i` that does not hold a number byte (or the end).
pub open spec fn num_end(s: Seq<u8>, i: int) -> int
    decreases s.len() - i,
{
    if 0 <= i < s.len() && is_num_byte(s[i]) {
        num_end(s, i + 1)
    } else {
        i
    }
}

/// Index just past the unescaped `"` that closes a string body scanned from
/// `i`, or the end of input when there is none. `escaped` says whether the
/// byte at `i` follows a backslash.
pub open spec fn string_end(s: Seq<u8>, i: int, escaped: bool) -> int
    decreases s.len() - i,
{
    if i < 0 || i >= s.len() {
        s.len() as int
    } else if escaped {
        string_end(s, i + 1, false)
    } else if s[i] == 0x5Cu8 {
        string_end(s, i + 1, true)
    } else if s[i] == 0x22u8 {
        i + 1
    } else {
        string_end(s, i + 1, false)
    }
}

pub proof fn lemma_ws_end_bounds(s: Seq<u8>, i: int)
    requires
        0 <= i <= s.len(),
    ensures
        i <= ws_end(s, i) <= s.len(),
        ws_end(s, i) < s.len() ==> !is_ws(s[ws_end(s, i)]),
    decreases s.len() - i,
{
    if i < s.len() && is_ws(s[i]) {
        lemma_ws_end_bounds(s, i + 1);
    }
}

pub proof fn lemma_run_end_bounds(s: Seq<u8>, i: int)
    requires
        0 <= i <= s.len(),
    ensures
        i <= run_end(s, i) <= s.len(),
    decreases s.len() - i,
{
    if i < s.len() && !is_ws(s[i]) {
        lemma_run_end_bounds(s, i + 1);
    }
}

pub proof fn lemma_num_end_bounds(s: Seq<u8>, i: int)
    requires
        0 <= i <= s.len(),
    ensures
        i <= num_end(s, i) <= s.len(),
        forall|k: int| i <= k < num_end(s, i) ==> is_num_byte(#[trigger] s[k]),
    decreases s.len() - i,
{
    if i < s.len() && is_num_byte(s[i]) {
        lemma_num_end_bounds(s, i + 1);
    }
}

pub proof fn lemma_string_end_bounds(s: Seq<u8>, i: int, escaped: bool)
    requires
        0 <= i <= s.len(),
    ensures
        i <= string_end(s, i, escaped) <= s.len(),
    decreases s.len() - i,
{
    if i < s.len() {
        if escaped || s[i] == 0x5Cu8 || s[i] != 0x22u8 {
            lemma_string_end_bounds(s, i + 1, !escaped && s[i] == 0x5Cu8);
        }
    }
}

/// Index of the first whitespace byte at or after `i`.
pub fn scan_ws(s: &Vec<u8>, i: usize) -> (r: usize)
    requires
        i <= s@.len(),
    ensures
        r == ws_end(s@, i as int),
{
    let mut j: usize = i;
    while j < s.len() && is_ws_byte(s[j])
        invariant
            i <= j <= s@.len(),
            ws_end(s@, j as int) == ws_end(s@, i as int),
        decreases s@.len() - j,
    {
        j = j + 1;
    }
    j
}

/// Index of the first whitespace byte at or after `i` (the end of an
/// identifier run).
pub fn scan_run(s: &Vec<u8>, i: usize) -> (r: usize)
    requires
        i <= s@.len(),
    ensures
        r == run_end(s@, i as int),
{
    let mut j: usize = i;
    while j < s.len() && !is_ws_byte(s[j])
        invariant
            i <= j <= s@.len(),
            run_end(s@, j as int) == run_end(s@, i as int),
        decreases s@.len() - j,
    {
        j = j + 1;
    }
    j
}

/// End of the run of number bytes that starts at `i`.
pub fn scan_number(s: &Vec<u8>, i: usize) -> (r: usize)
    requires
        i <= s@.len(),
    ensures
        r == num_end(s@, i as int),
{
    let mut j: usize = i;
    while j < s.len() && is_number_byte(s[j])
        invariant
            i <= j <= s@.len(),
            num_end(s@, j as int) == num_end(s@, i as int),
        decreases s@.len() - j,
    {
        j = j + 1;
    }
    j
}

/// Index just past the closing quote of the string body starting at `i`.
pub fn scan_string(s: &Vec<u8>, i: usize) -> (r: usize)
    requires
        i <= s@.len(),
    ensures
        r == string_end(s@, i as int, false),
{
    let mut j: usize = i;
    let mut escaped = false;
    while j < s.len()
        invariant
            i <= j <= s@.len(),
            string_end(s@, j as int, escaped) == string_end(s@, i as int, false),
        decreases s@.len() - j,
    {
        let b = s[j];
        if escaped {
            escaped = false;
        } else if b == 0x5Cu8 {
            escaped = true;
        } else if b == 0x22u8 {
            return j + 1;
        }
        j = j + 1;
    }
    j
}

pub fn is_ws_byte(b: u8) -> (r: bool)
    ensures
        r == is_ws(b),
{
    b == 0x20u8 || b == 0x09u8 || b == 0x0Au8 || b == 0x0Du8
}

pub fn is_number_byte(b: u8) -> (r: bool)
    ensures
        r == is_num_byte(b),
{
    (0x30u8 <= b && b <= 0x39u8) || b == 0x2Eu8 || b == 0x65u8 || b == 0x45u8 || b == 0x2Bu8
        || b == 0x2Du8
}

} // verus!
