//! The writer. An [`Emitter`] writes compact JSON text: values one per line
//! at the top level, items and members separated by commas. Arrays, objects
//! and strings can be opened as scopes ([`EmitArray`], [`EmitObject`],
//! [`EmitString`]) and filled piece by piece. Writing through an enclosing
//! scope (or the emitter) first closes every scope opened inside it, so
//! closing delimiters always come out in order.
//!
//! Strings are written between quotes as they are, without escapes.
use crate::number::{Number, NumberModel};
use crate::text::{push_char, push_str};
use vstd::prelude::*;

mod private;

verus! {

/// The decimal digit for `d < 10`.
pub open spec fn digit_char(d: nat) -> char {
    (0x30 + d) as char
}

/// The decimal text of a natural number.
pub open spec fn dec_text(v: nat) -> Seq<char>
    decreases v,
{
    if v < 10 {
        seq![digit_char(v)]
    } else {
        dec_text(v / 10).push(digit_char(v % 10))
    }
}

/// The decimal text of an integer, with `-` before a negative one.
pub open spec fn int_text(v: int) -> Seq<char> {
    if v < 0 {
        seq!['-'] + dec_text((-v) as nat)
    } else {
        dec_text(v as nat)
    }
}

pub open spec fn quoted(t: Seq<char>) -> Seq<char> {
    seq!['"'] + t + seq!['"']
}

/// Values that can be written as JSON.
pub trait JsonEmit: private::Sealed {
    /// The JSON text of the value.
    spec fn json_text(&self) -> Seq<char>;

    /// Appends the JSON text of the value to `out`.
    fn write_to(&self, out: &mut String)
        ensures
            final(out)@ == old(out)@ + self.json_text(),
    ;
}

/// The items' texts separated by commas.
pub open spec fn joined<T: JsonEmit>(s: Seq<T>) -> Seq<char>
    decreases s.len(),
{
    if s.len() == 0 {
        Seq::empty()
    } else if s.len() == 1 {
        s[0].json_text()
    } else {
        joined(s.drop_last()) + seq![','] + s.last().json_text()
    }
}

/// A JSON array of the items.
pub open spec fn list_text<T: JsonEmit>(s: Seq<T>) -> Seq<char> {
    seq!['['] + joined(s) + seq![']']
}

fn write_dec(out: &mut String, v: u64)
    ensures
        final(out)@ == old(out)@ + dec_text(v as nat),
    decreases v,
{
    if v >= 10 {
        write_dec(out, v / 10);
    }
    let d = (v % 10) as u8;
    push_char(out, (0x30u8 + d) as char);
    proof {
        assert(old(out)@ + dec_text(v as nat) =~= if v >= 10 {
            old(out)@ + dec_text((v / 10) as nat)
        } else {
            old(out)@
        }.push(digit_char((v % 10) as nat)));
    }
}

fn write_int(out: &mut String, v: i64)
    ensures
        final(out)@ == old(out)@ + int_text(v as int),
{
    if v < 0 {
        push_char(out, '-');
        let u: u64 = ((-(v + 1)) as u64) + 1;
        write_dec(out, u);
        proof {
            assert(old(out)@ + int_text(v as int) =~= old(out)@.push('-') + dec_text(u as nat));
        }
    } else {
        write_dec(out, v as u64);
    }
}

impl private::Sealed for bool {}

impl JsonEmit for bool {
    open spec fn json_text(&self) -> Seq<char> {
        if *self {
            seq!['t', 'r', 'u', 'e']
        } else {
            seq!['f', 'a', 'l', 's', 'e']
        }
    }

    fn write_to(&self, out: &mut String) {
        if *self {
            push_str(out, "true");
            proof {
                reveal_strlit("true");
                assert(final(out)@ =~= old(out)@ + self.json_text());
            }
        } else {
            push_str(out, "false");
            proof {
                reveal_strlit("false");
                assert(final(out)@ =~= old(out)@ + self.json_text());
            }
        }
    }
}

impl private::Sealed for u64 {}

impl JsonEmit for u64 {
    open spec fn json_text(&self) -> Seq<char> {
        dec_text(*self as nat)
    }

    fn write_to(&self, out: &mut String) {
        write_dec(out, *self);
    }
}

impl private::Sealed for u32 {}

impl JsonEmit for u32 {
    open spec fn json_text(&self) -> Seq<char> {
        dec_text(*self as nat)
    }

    fn write_to(&self, out: &mut String) {
        write_dec(out, *self as u64);
    }
}

impl private::Sealed for u16 {}

impl JsonEmit for u16 {
    open spec fn json_text(&self) -> Seq<char> {
        dec_text(*self as nat)
    }

    fn write_to(&self, out: &mut String) {
        write_dec(out, *self as u64);
    }
}

impl private::Sealed for u8 {}

impl JsonEmit for u8 {
    open spec fn json_text(&self) -> Seq<char> {
        dec_text(*self as nat)
    }

    fn write_to(&self, out: &mut String) {
        write_dec(out, *self as u64);
    }
}

impl private::Sealed for usize {}

impl JsonEmit for usize {
    open spec fn json_text(&self) -> Seq<char> {
        dec_text(*self as nat)
    }

    fn write_to(&self, out: &mut String) {
        write_dec(out, *self as u64);
    }
}

impl private::Sealed for i64 {}

impl JsonEmit for i64 {
    open spec fn json_text(&self) -> Seq<char> {
        int_text(*self as int)
    }

    fn write_to(&self, out: &mut String) {
        write_int(out, *self);
    }
}

impl private::Sealed for i32 {}

impl JsonEmit for i32 {
    open spec fn json_text(&self) -> Seq<char> {
        int_text(*self as int)
    }

    fn write_to(&self, out: &mut String) {
        write_int(out, *self as i64);
    }
}

impl private::Sealed for i16 {}

impl JsonEmit for i16 {
    open spec fn json_text(&self) -> Seq<char> {
        int_text(*self as int)
    }

    fn write_to(&self, out: &mut String) {
        write_int(out, *self as i64);
    }
}

impl private::Sealed for i8 {}

impl JsonEmit for i8 {
    open spec fn json_text(&self) -> Seq<char> {
        int_text(*self as int)
    }

    fn write_to(&self, out: &mut String) {
        write_int(out, *self as i64);
    }
}

impl private::Sealed for isize {}

impl JsonEmit for isize {
    open spec fn json_text(&self) -> Seq<char> {
        int_text(*self as int)
    }

    fn write_to(&self, out: &mut String) {
        write_int(out, *self as i64);
    }
}

impl private::Sealed for str {}

impl JsonEmit for str {
    open spec fn json_text(&self) -> Seq<char> {
        quoted(self@)
    }

    fn write_to(&self, out: &mut String) {
        push_char(out, '"');
        push_str(out, self);
        push_char(out, '"');
        proof {
            assert(final(out)@ =~= old(out)@ + quoted(self@));
        }
    }
}

impl private::Sealed for String {}

impl JsonEmit for String {
    open spec fn json_text(&self) -> Seq<char> {
        quoted(self@)
    }

    fn write_to(&self, out: &mut String) {
        push_char(out, '"');
        push_str(out, self.as_str());
        push_char(out, '"');
        proof {
            assert(final(out)@ =~= old(out)@ + quoted(self@));
        }
    }
}

/// The JSON text of a number.
pub open spec fn number_text(m: NumberModel) -> Seq<char> {
    match m {
        NumberModel::PosInt(u) => dec_text(u as nat),
        NumberModel::NegInt(i) => int_text(i as int),
        NumberModel::Float(t) => t,
    }
}

impl private::Sealed for Number {}

impl JsonEmit for Number {
    open spec fn json_text(&self) -> Seq<char> {
        number_text(self@)
    }

    fn write_to(&self, out: &mut String) {
        if let Some(u) = self.as_u64() {
            write_dec(out, u);
        } else if let Some(i) = self.as_i64() {
            write_int(out, i);
        } else if let Some(t) = self.float_text() {
            push_str(out, t.as_str());
        }
    }
}

fn write_list<T: JsonEmit>(items: &[T], out: &mut String)
    ensures
        final(out)@ == old(out)@ + list_text(items@),
{
    push_char(out, '[');
    let mut i: usize = 0;
    while i < items.len()
        invariant
            i <= items@.len(),
            out@ == old(out)@.push('[') + joined(items@.subrange(0, i as int)),
        decreases items@.len() - i,
    {
        if i > 0 {
            push_char(out, ',');
        }
        items[i].write_to(out);
        proof {
            let s = items@.subrange(0, i + 1);
            assert(s.drop_last() =~= items@.subrange(0, i as int));
            if i == 0 {
                assert(joined(items@.subrange(0, 0)) =~= Seq::<char>::empty());
            }
        }
        i = i + 1;
        proof {
            assert(out@ =~= old(out)@.push('[') + joined(items@.subrange(0, i as int)));
        }
    }
    push_char(out, ']');
    proof {
        assert(items@.subrange(0, i as int) =~= items@);
        assert(out@ =~= old(out)@ + list_text(items@));
    }
}

impl<T: JsonEmit> private::Sealed for [T] {}

impl<T: JsonEmit> JsonEmit for [T] {
    open spec fn json_text(&self) -> Seq<char> {
        list_text(self@)
    }

    fn write_to(&self, out: &mut String) {
        write_list(self, out);
    }
}

impl<T: JsonEmit> private::Sealed for Vec<T> {}

impl<T: JsonEmit> JsonEmit for Vec<T> {
    open spec fn json_text(&self) -> Seq<char> {
        list_text(self@)
    }

    fn write_to(&self, out: &mut String) {
        write_list(self.as_slice(), out);
    }
}

/// The kind of an open scope.
#[derive(Debug, Copy, Clone, PartialEq, Eq, Structural)]
pub enum ScopeKind {
    Str,
    Arr,
    Obj,
}

/// An open scope: its kind, whether anything was written in it yet, and
/// the number it was opened under.
#[derive(Debug, Copy, Clone, PartialEq, Eq, Structural)]
pub struct Scope {
    pub kind: ScopeKind,
    pub started: bool,
    pub id: u64,
}

/// What an [`Emitter`] holds: text not yet taken, open scopes (outermost
/// first), whether a top-level value was begun, and how many scopes were
/// opened so far.
pub ghost struct EmitterState {
    pub out: Seq<char>,
    pub scopes: Seq<Scope>,
    pub started: bool,
    pub opened: u64,
}

/// Why a write failed.
#[derive(Debug, Copy, Clone, PartialEq, Eq, Structural)]
pub enum Error {
    /// The scope written through was already closed.
    Closed,
    /// No more scopes can be numbered.
    TooManyScopes,
}

pub type Result<T = ()> = core::result::Result<T, Error>;

pub open spec fn closer(k: ScopeKind) -> char {
    match k {
        ScopeKind::Str => '"',
        ScopeKind::Arr => ']',
        ScopeKind::Obj => '}',
    }
}

pub open spec fn opener(k: ScopeKind) -> char {
    match k {
        ScopeKind::Str => '"',
        ScopeKind::Arr => '[',
        ScopeKind::Obj => '{',
    }
}

/// `out` followed by the closers of the scopes past the `d` outermost,
/// innermost first.
pub open spec fn closed_to(out: Seq<char>, sc: Seq<Scope>, d: int) -> Seq<char>
    decreases sc.len(),
{
    if sc.len() <= d || sc.len() == 0 {
        out
    } else {
        closed_to(out.push(closer(sc.last().kind)), sc.drop_last(), d)
    }
}

/// Whether the scope at depth `d` is still the one opened as `id`, of kind `k`.
pub open spec fn is_open(st: EmitterState, d: int, id: u64, k: ScopeKind) -> bool {
    0 <= d < st.scopes.len() && st.scopes[d].id == id && st.scopes[d].kind == k
}

/// What goes before a new item of the scope at depth `d`: a comma unless
/// it is the first.
pub open spec fn item_sep(st: EmitterState, d: int) -> Seq<char> {
    if st.scopes[d].started {
        seq![',']
    } else {
        Seq::empty()
    }
}

/// The state once the scopes inside depth `d` are closed and `text` is
/// written as a new item of the scope at depth `d`.
pub open spec fn put_item(st: EmitterState, d: int, text: Seq<char>) -> EmitterState {
    let sc = st.scopes.subrange(0, d + 1);
    EmitterState {
        out: closed_to(st.out, st.scopes, d + 1) + item_sep(st, d) + text,
        scopes: sc.update(d, Scope { started: true, ..sc[d] }),
        started: st.started,
        opened: st.opened,
    }
}

/// The state once every scope is closed and `text` is written as the next
/// top-level value, on a new line unless it is the first.
pub open spec fn put_top(st: EmitterState, text: Seq<char>) -> EmitterState {
    EmitterState {
        out: closed_to(st.out, st.scopes, 0) + (if st.started {
            seq!['\n']
        } else {
            Seq::empty()
        }) + text,
        scopes: Seq::empty(),
        started: true,
        opened: st.opened,
    }
}

/// Adds a new innermost scope of kind `k`, numbered `opened`.
pub open spec fn push_scope(st: EmitterState, k: ScopeKind) -> EmitterState {
    EmitterState {
        scopes: st.scopes.push(Scope { kind: k, started: false, id: st.opened }),
        opened: (st.opened + 1) as u64,
        ..st
    }
}

/// Writes JSON text to a buffer that the caller takes out as it goes.
pub struct Emitter {
    out: String,
    scopes: Vec<Scope>,
    started: bool,
    opened: u64,
}

impl View for Emitter {
    type V = EmitterState;

    closed spec fn view(&self) -> EmitterState {
        EmitterState {
            out: self.out@,
            scopes: self.scopes@,
            started: self.started,
            opened: self.opened,
        }
    }
}

/// Writes the items of an array.
#[derive(Debug)]
pub struct EmitArray {
    depth: usize,
    id: u64,
}

/// Writes the members of an object.
#[derive(Debug)]
pub struct EmitObject {
    depth: usize,
    id: u64,
}

/// Writes the characters of a string.
#[derive(Debug)]
pub struct EmitString {
    depth: usize,
    id: u64,
}

impl EmitArray {
    pub closed spec fn depth(&self) -> int {
        self.depth as int
    }

    pub closed spec fn id(&self) -> u64 {
        self.id
    }
}

impl EmitObject {
    pub closed spec fn depth(&self) -> int {
        self.depth as int
    }

    pub closed spec fn id(&self) -> u64 {
        self.id
    }
}

impl EmitString {
    pub closed spec fn depth(&self) -> int {
        self.depth as int
    }

    pub closed spec fn id(&self) -> u64 {
        self.id
    }
}

/// Whether (`d`, `id`) names the innermost open scope.
pub open spec fn is_innermost(st: EmitterState, d: int, id: u64) -> bool {
    st.scopes.len() > 0 && d == st.scopes.len() - 1 && id == st.scopes.last().id
}

impl Emitter {
    /// An emitter with nothing written and nothing open.
    pub fn new() -> (r: Emitter)
        ensures
            r@ == (EmitterState { out: Seq::empty(), scopes: Seq::empty(), started: false, opened: 0 }),
    {
        Emitter { out: String::new(), scopes: Vec::new(), started: false, opened: 0 }
    }

    /// Writes `value` as the next top-level value.
    pub fn emit<T: JsonEmit + ?Sized>(&mut self, value: &T) -> (r: Result)
        ensures
            r is Ok,
            final(self)@ == put_top(old(self)@, value.json_text()),
    {
        self.start_top();
        value.write_to(&mut self.out);
        proof {
            assert(self@.out =~= put_top(old(self)@, value.json_text()).out);
        }
        Ok(())
    }

    fn open_top(&mut self, k: ScopeKind) -> (r: Result<(usize, u64)>)
        ensures
            r is Ok <==> old(self)@.opened < u64::MAX,
            r is Ok ==> final(self)@ == open_top(old(self)@, k) && is_innermost(
                final(self)@,
                r.unwrap().0 as int,
                r.unwrap().1,
            ),
            r is Err ==> final(self)@ == old(self)@ && r == Err::<(usize, u64), Error>(
                Error::TooManyScopes,
            ),
    {
        if self.opened == u64::MAX {
            return Err(Error::TooManyScopes);
        }
        self.start_top();
        let r = self.open(k);
        proof {
            assert(self@.out =~= open_top(old(self)@, k).out);
            assert(self@.scopes =~= open_top(old(self)@, k).scopes);
        }
        r
    }

    /// Opens a string as the next top-level value.
    pub fn string(&mut self) -> (r: Result<EmitString>)
        ensures
            r is Ok <==> old(self)@.opened < u64::MAX,
            r is Ok ==> final(self)@ == open_top(old(self)@, ScopeKind::Str) && is_innermost(
                final(self)@,
                r.unwrap().depth(),
                r.unwrap().id(),
            ),
            r is Err ==> final(self)@ == old(self)@,
    {
        let (depth, id) = self.open_top(ScopeKind::Str)?;
        Ok(EmitString { depth, id })
    }

    /// Opens an array as the next top-level value.
    pub fn array(&mut self) -> (r: Result<EmitArray>)
        ensures
            r is Ok <==> old(self)@.opened < u64::MAX,
            r is Ok ==> final(self)@ == open_top(old(self)@, ScopeKind::Arr) && is_innermost(
                final(self)@,
                r.unwrap().depth(),
                r.unwrap().id(),
            ),
            r is Err ==> final(self)@ == old(self)@,
    {
        let (depth, id) = self.open_top(ScopeKind::Arr)?;
        Ok(EmitArray { depth, id })
    }

    /// Opens an object as the next top-level value.
    pub fn object(&mut self) -> (r: Result<EmitObject>)
        ensures
            r is Ok <==> old(self)@.opened < u64::MAX,
            r is Ok ==> final(self)@ == open_top(old(self)@, ScopeKind::Obj) && is_innermost(
                final(self)@,
                r.unwrap().depth(),
                r.unwrap().id(),
            ),
            r is Err ==> final(self)@ == old(self)@,
    {
        let (depth, id) = self.open_top(ScopeKind::Obj)?;
        Ok(EmitObject { depth, id })
    }

    /// Closes every open scope.
    pub fn finish(&mut self)
        ensures
            final(self)@ == close_scope(old(self)@, 0),
    {
        self.close_to(0);
        proof {
            assert(self@.scopes =~= old(self)@.scopes.subrange(0, 0));
        }
    }

    /// Takes the text written so far, leaving the emitter's buffer empty;
    /// open scopes stay open.
    pub fn take_output(&mut self) -> (r: String)
        ensures
            r@ == old(self)@.out,
            final(self)@ == old(self)@.with_out(Seq::empty()),
    {
        let r = self.out.clone();
        self.out = String::new();
        r
    }

    fn scope_is(&self, d: usize, id: u64, k: ScopeKind) -> (r: bool)
        ensures
            r == is_open(self@, d as int, id, k),
            self@.scopes.len() <= usize::MAX,
    {
        d < self.scopes.len() && self.scopes[d].id == id && self.scopes[d].kind == k
    }

    /// Closes the scopes past the `d` outermost, innermost first.
    fn close_to(&mut self, d: usize)
        ensures
            final(self)@ == (EmitterState {
                out: closed_to(old(self)@.out, old(self)@.scopes, d as int),
                scopes: if old(self)@.scopes.len() <= d {
                    old(self)@.scopes
                } else {
                    old(self)@.scopes.subrange(0, d as int)
                },
                ..old(self)@
            }),
    {
        let ghost s0 = self@;
        while self.scopes.len() > d
            invariant
                s0 == old(self)@,
                self.started == s0.started,
                self.opened == s0.opened,
                closed_to(self@.out, self@.scopes, d as int) == closed_to(s0.out, s0.scopes, d as int),
                s0.scopes.len() <= d ==> self@.scopes == s0.scopes,
                s0.scopes.len() > d ==> self@.scopes.len() >= d && self@.scopes.len() <= s0.scopes.len()
                    && self@.scopes =~= s0.scopes.subrange(
                    0,
                    self@.scopes.len() as int,
                ),
            decreases self@.scopes.len(),
        {
            let s = self.scopes.pop().unwrap();
            push_char(&mut self.out, close_char(s.kind));
        }
        proof {
            if s0.scopes.len() > d {
                assert(self@.scopes.len() == d);
            }
        }
    }

    /// Closes every open scope and writes the line break that separates
    /// top-level values.
    fn start_top(&mut self)
        ensures
            final(self)@ == put_top(old(self)@, Seq::empty()),
    {
        self.close_to(0);
        if self.started {
            push_char(&mut self.out, '\n');
        }
        self.started = true;
        proof {
            assert(self@.out =~= put_top(old(self)@, Seq::empty()).out);
            assert(self@.scopes =~= Seq::<Scope>::empty());
        }
    }

    /// Closes the scopes inside the one at depth `d` and writes what goes
    /// before its next item.
    fn start_item(&mut self, d: usize)
        requires
            d < old(self)@.scopes.len(),
        ensures
            final(self)@ == put_item(old(self)@, d as int, Seq::empty()),
    {
        let n = self.scopes.len();
        assert(d + 1 <= n);
        self.close_to(d + 1);
        let s = self.scopes[d];
        if s.started {
            push_char(&mut self.out, ',');
        }
        self.scopes.set(d, Scope { started: true, ..s });
        proof {
            assert(self@.out =~= put_item(old(self)@, d as int, Seq::empty()).out);
            assert(self@.scopes =~= put_item(old(self)@, d as int, Seq::empty()).scopes);
        }
    }

    /// Opens a scope of kind `k` as the new innermost one.
    fn open(&mut self, k: ScopeKind) -> (r: Result<(usize, u64)>)
        ensures
            r is Ok <==> old(self)@.opened < u64::MAX,
            r is Ok ==> final(self)@ == push_scope(old(self)@, k).with_out(old(self)@.out.push(opener(k))),
            r is Ok ==> r.unwrap() == ((old(self)@.scopes.len() as usize, old(self)@.opened)),
            r is Err ==> final(self)@ == old(self)@,
    {
        if self.opened == u64::MAX {
            return Err(Error::TooManyScopes);
        }
        let id = self.opened;
        let d = self.scopes.len();
        self.scopes.push(Scope { kind: k, started: false, id });
        self.opened = id + 1;
        push_char(&mut self.out, open_char(k));
        Ok((d, id))
    }
}

fn close_char(k: ScopeKind) -> (r: char)
    ensures
        r == closer(k),
{
    match k {
        ScopeKind::Str => '"',
        ScopeKind::Arr => ']',
        ScopeKind::Obj => '}',
    }
}

fn open_char(k: ScopeKind) -> (r: char)
    ensures
        r == opener(k),
{
    match k {
        ScopeKind::Str => '"',
        ScopeKind::Arr => '[',
        ScopeKind::Obj => '{',
    }
}

/// The state once the scopes inside depth `d` are closed and `text` is
/// written in the scope at depth `d` with no separator.
pub open spec fn put_raw(st: EmitterState, d: int, text: Seq<char>) -> EmitterState {
    EmitterState {
        out: closed_to(st.out, st.scopes, d + 1) + text,
        scopes: st.scopes.subrange(0, d + 1),
        ..st
    }
}

/// The state once every scope is closed and a scope of kind `k` is opened
/// as the next top-level value.
pub open spec fn open_top(st: EmitterState, k: ScopeKind) -> EmitterState {
    push_scope(put_top(st, seq![opener(k)]), k)
}

/// The state once a scope of kind `k` is opened as a new item of the scope
/// at depth `d`, after `prefix`.
pub open spec fn open_item(st: EmitterState, d: int, prefix: Seq<char>, k: ScopeKind) -> EmitterState {
    push_scope(put_item(st, d, prefix.push(opener(k))), k)
}

/// The state once the scope at depth `d` and those inside it are closed.
pub open spec fn close_scope(st: EmitterState, d: int) -> EmitterState {
    EmitterState { out: closed_to(st.out, st.scopes, d), scopes: st.scopes.subrange(0, d), ..st }
}

/// A member's key and colon.
pub open spec fn key_text(key: Seq<char>) -> Seq<char> {
    quoted(key).push(':')
}

impl EmitArray {
    /// Writes `value` as the next item of the array.
    pub fn emit<T: JsonEmit + ?Sized>(&self, e: &mut Emitter, value: &T) -> (r: Result)
        ensures
            is_open(old(e)@, self.depth(), self.id(), ScopeKind::Arr) ==> r is Ok && final(e)@
                == put_item(old(e)@, self.depth(), value.json_text()),
            !is_open(old(e)@, self.depth(), self.id(), ScopeKind::Arr) ==> r == Err::<(), Error>(
                Error::Closed,
            ) && final(e)@ == old(e)@,
    {
        if !e.scope_is(self.depth, self.id, ScopeKind::Arr) {
            return Err(Error::Closed);
        }
        e.start_item(self.depth);
        value.write_to(&mut e.out);
        proof {
            assert(e@.out =~= put_item(old(e)@, self.depth(), value.json_text()).out);
        }
        Ok(())
    }

    fn open_in(&self, e: &mut Emitter, k: ScopeKind) -> (r: Result<(usize, u64)>)
        ensures
            r is Ok <==> is_open(old(e)@, self.depth(), self.id(), ScopeKind::Arr) && old(e)@.opened
                < u64::MAX,
            r is Ok ==> final(e)@ == open_item(old(e)@, self.depth(), Seq::empty(), k)
                && is_innermost(final(e)@, r.unwrap().0 as int, r.unwrap().1),
            r is Err ==> final(e)@ == old(e)@,
    {
        if !e.scope_is(self.depth, self.id, ScopeKind::Arr) {
            return Err(Error::Closed);
        }
        if e.opened == u64::MAX {
            return Err(Error::TooManyScopes);
        }
        e.start_item(self.depth);
        let r = e.open(k);
        proof {
            assert(e@.out =~= open_item(old(e)@, self.depth(), Seq::empty(), k).out);
            assert(e@.scopes =~= open_item(old(e)@, self.depth(), Seq::empty(), k).scopes);
        }
        r
    }

    /// Opens a string as the next item of the array.
    pub fn string(&self, e: &mut Emitter) -> (r: Result<EmitString>)
        ensures
            r is Ok <==> is_open(old(e)@, self.depth(), self.id(), ScopeKind::Arr) && old(e)@.opened
                < u64::MAX,
            r is Ok ==> final(e)@ == open_item(old(e)@, self.depth(), Seq::empty(), ScopeKind::Str)
                && is_innermost(final(e)@, r.unwrap().depth(), r.unwrap().id()),
            r is Err ==> final(e)@ == old(e)@,
    {
        let (depth, id) = self.open_in(e, ScopeKind::Str)?;
        Ok(EmitString { depth, id })
    }

    /// Opens an array as the next item of the array.
    pub fn array(&self, e: &mut Emitter) -> (r: Result<EmitArray>)
        ensures
            r is Ok <==> is_open(old(e)@, self.depth(), self.id(), ScopeKind::Arr) && old(e)@.opened
                < u64::MAX,
            r is Ok ==> final(e)@ == open_item(old(e)@, self.depth(), Seq::empty(), ScopeKind::Arr)
                && is_innermost(final(e)@, r.unwrap().depth(), r.unwrap().id()),
            r is Err ==> final(e)@ == old(e)@,
    {
        let (depth, id) = self.open_in(e, ScopeKind::Arr)?;
        Ok(EmitArray { depth, id })
    }

    /// Opens an object as the next item of the array.
    pub fn object(&self, e: &mut Emitter) -> (r: Result<EmitObject>)
        ensures
            r is Ok <==> is_open(old(e)@, self.depth(), self.id(), ScopeKind::Arr) && old(e)@.opened
                < u64::MAX,
            r is Ok ==> final(e)@ == open_item(old(e)@, self.depth(), Seq::empty(), ScopeKind::Obj)
                && is_innermost(final(e)@, r.unwrap().depth(), r.unwrap().id()),
            r is Err ==> final(e)@ == old(e)@,
    {
        let (depth, id) = self.open_in(e, ScopeKind::Obj)?;
        Ok(EmitObject { depth, id })
    }

    /// Closes the array, and anything still open inside it.
    pub fn end(self, e: &mut Emitter)
        ensures
            is_open(old(e)@, self.depth(), self.id(), ScopeKind::Arr) ==> final(e)@ == close_scope(
                old(e)@,
                self.depth(),
            ),
            !is_open(old(e)@, self.depth(), self.id(), ScopeKind::Arr) ==> final(e)@ == old(e)@,
    {
        if e.scope_is(self.depth, self.id, ScopeKind::Arr) {
            e.close_to(self.depth);
        }
    }
}

impl EmitObject {
    fn start_member(&self, e: &mut Emitter, key: &str)
        requires
            is_open(old(e)@, self.depth(), self.id(), ScopeKind::Obj),
        ensures
            final(e)@ == put_item(old(e)@, self.depth(), key_text(key@)),
    {
        e.start_item(self.depth);
        key.write_to(&mut e.out);
        push_char(&mut e.out, ':');
        proof {
            assert(e@.out =~= put_item(old(e)@, self.depth(), key_text(key@)).out);
        }
    }

    /// Writes a member: `key` between quotes as it is, a colon, and `value`.
    pub fn emit<T: JsonEmit + ?Sized>(&self, e: &mut Emitter, key: &str, value: &T) -> (r: Result)
        ensures
            is_open(old(e)@, self.depth(), self.id(), ScopeKind::Obj) ==> r is Ok && final(e)@
                == put_item(old(e)@, self.depth(), key_text(key@) + value.json_text()),
            !is_open(old(e)@, self.depth(), self.id(), ScopeKind::Obj) ==> r == Err::<(), Error>(
                Error::Closed,
            ) && final(e)@ == old(e)@,
    {
        if !e.scope_is(self.depth, self.id, ScopeKind::Obj) {
            return Err(Error::Closed);
        }
        self.start_member(e, key);
        value.write_to(&mut e.out);
        proof {
            assert(e@.out =~= put_item(old(e)@, self.depth(), key_text(key@) + value.json_text()).out);
        }
        Ok(())
    }

    fn open_member(&self, e: &mut Emitter, key: &str, k: ScopeKind) -> (r: Result<(usize, u64)>)
        ensures
            r is Ok <==> is_open(old(e)@, self.depth(), self.id(), ScopeKind::Obj) && old(e)@.opened
                < u64::MAX,
            r is Ok ==> final(e)@ == open_item(old(e)@, self.depth(), key_text(key@), k)
                && is_innermost(final(e)@, r.unwrap().0 as int, r.unwrap().1),
            r is Err ==> final(e)@ == old(e)@,
    {
        if !e.scope_is(self.depth, self.id, ScopeKind::Obj) {
            return Err(Error::Closed);
        }
        if e.opened == u64::MAX {
            return Err(Error::TooManyScopes);
        }
        self.start_member(e, key);
        let r = e.open(k);
        proof {
            assert(e@.out =~= open_item(old(e)@, self.depth(), key_text(key@), k).out);
            assert(e@.scopes =~= open_item(old(e)@, self.depth(), key_text(key@), k).scopes);
        }
        r
    }

    /// Opens an array as the value of a member named `key`.
    pub fn emit_array(&self, e: &mut Emitter, key: &str) -> (r: Result<EmitArray>)
        ensures
            r is Ok <==> is_open(old(e)@, self.depth(), self.id(), ScopeKind::Obj) && old(e)@.opened
                < u64::MAX,
            r is Ok ==> final(e)@ == open_item(old(e)@, self.depth(), key_text(key@), ScopeKind::Arr)
                && is_innermost(final(e)@, r.unwrap().depth(), r.unwrap().id()),
            r is Err ==> final(e)@ == old(e)@,
    {
        let (depth, id) = self.open_member(e, key, ScopeKind::Arr)?;
        Ok(EmitArray { depth, id })
    }

    /// Opens an object as the value of a member named `key`.
    pub fn emit_object(&self, e: &mut Emitter, key: &str) -> (r: Result<EmitObject>)
        ensures
            r is Ok <==> is_open(old(e)@, self.depth(), self.id(), ScopeKind::Obj) && old(e)@.opened
                < u64::MAX,
            r is Ok ==> final(e)@ == open_item(old(e)@, self.depth(), key_text(key@), ScopeKind::Obj)
                && is_innermost(final(e)@, r.unwrap().depth(), r.unwrap().id()),
            r is Err ==> final(e)@ == old(e)@,
    {
        let (depth, id) = self.open_member(e, key, ScopeKind::Obj)?;
        Ok(EmitObject { depth, id })
    }

    /// Closes the object, and anything still open inside it.
    pub fn end(self, e: &mut Emitter)
        ensures
            is_open(old(e)@, self.depth(), self.id(), ScopeKind::Obj) ==> final(e)@ == close_scope(
                old(e)@,
                self.depth(),
            ),
            !is_open(old(e)@, self.depth(), self.id(), ScopeKind::Obj) ==> final(e)@ == old(e)@,
    {
        if e.scope_is(self.depth, self.id, ScopeKind::Obj) {
            e.close_to(self.depth);
        }
    }
}

impl EmitString {
    /// Writes one character of the string, as it is.
    pub fn char(&self, e: &mut Emitter, c: char) -> (r: Result)
        ensures
            is_open(old(e)@, self.depth(), self.id(), ScopeKind::Str) ==> r is Ok && final(e)@
                == put_raw(old(e)@, self.depth(), seq![c]),
            !is_open(old(e)@, self.depth(), self.id(), ScopeKind::Str) ==> r == Err::<(), Error>(
                Error::Closed,
            ) && final(e)@ == old(e)@,
    {
        if !e.scope_is(self.depth, self.id, ScopeKind::Str) {
            return Err(Error::Closed);
        }
        e.close_to(self.depth + 1);
        push_char(&mut e.out, c);
        proof {
            assert(e@.out =~= put_raw(old(e)@, self.depth(), seq![c]).out);
            assert(e@.scopes =~= put_raw(old(e)@, self.depth(), seq![c]).scopes);
        }
        Ok(())
    }

    /// Writes characters of the string, as they are.
    pub fn str(&self, e: &mut Emitter, s: &str) -> (r: Result)
        ensures
            is_open(old(e)@, self.depth(), self.id(), ScopeKind::Str) ==> r is Ok && final(e)@
                == put_raw(old(e)@, self.depth(), s@),
            !is_open(old(e)@, self.depth(), self.id(), ScopeKind::Str) ==> r == Err::<(), Error>(
                Error::Closed,
            ) && final(e)@ == old(e)@,
    {
        if !e.scope_is(self.depth, self.id, ScopeKind::Str) {
            return Err(Error::Closed);
        }
        e.close_to(self.depth + 1);
        push_str(&mut e.out, s);
        proof {
            assert(e@.scopes =~= put_raw(old(e)@, self.depth(), s@).scopes);
        }
        Ok(())
    }

    /// Closes the string.
    pub fn end(self, e: &mut Emitter)
        ensures
            is_open(old(e)@, self.depth(), self.id(), ScopeKind::Str) ==> final(e)@ == close_scope(
                old(e)@,
                self.depth(),
            ),
            !is_open(old(e)@, self.depth(), self.id(), ScopeKind::Str) ==> final(e)@ == old(e)@,
    {
        if e.scope_is(self.depth, self.id, ScopeKind::Str) {
            e.close_to(self.depth);
        }
    }
}

impl EmitterState {
    pub open spec fn with_out(self, out: Seq<char>) -> EmitterState {
        EmitterState { out, ..self }
    }
}

} // verus!
