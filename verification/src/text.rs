//! Text handling: the compact string type in which values and symbol names
//! keep their text, and the few string operations the rest of the library
//! builds on.

use vstd::prelude::*;
use vstd::string::StringExecFns;

verus! {

/// A compact string: short texts are kept inline, long ones on the heap.
///
/// The text lives in a `smartstring::alias::String`, which the verifier cannot
/// look into; [`text_of`] names the characters it holds.
#[verifier::external_body]
#[derive(PartialEq, Eq, Hash, Debug)]
pub struct ZapString {
    inner: smartstring::alias::String,
}

/// The characters that a compact string holds, in order.
pub uninterp spec fn text_of(s: ZapString) -> Seq<char>;

impl View for ZapString {
    type V = Seq<char>;

    open spec fn view(&self) -> Seq<char> {
        text_of(*self)
    }
}

/// `smartstring::SmartString::from(&str)`: the new string holds exactly the
/// characters of `s`.
#[verifier::external_body]
fn smart_from_str(s: &str) -> (r: ZapString)
    ensures
        text_of(r) == s@,
{
    ZapString { inner: smartstring::alias::String::from(s) }
}

/// `smartstring::SmartString::as_str`: the slice shows exactly the characters
/// that the string holds.
#[verifier::external_body]
fn smart_as_str(s: &ZapString) -> (r: &str)
    ensures
        r@ == text_of(*s),
{
    s.inner.as_str()
}

/// `smartstring::SmartString::clone`: the copy is the same string.
#[verifier::external_body]
fn smart_clone(s: &ZapString) -> (r: ZapString)
    ensures
        r == *s,
{
    ZapString { inner: s.inner.clone() }
}

/// `String::push` of std: appends one character.
#[verifier::external_body]
fn string_push(s: &mut String, c: char)
    ensures
        final(s)@ == old(s)@.push(c),
{
    s.push(c)
}

impl ZapString {
    /// A compact string with the characters of `s`.
    pub fn new(s: &str) -> (r: ZapString)
        ensures
            r@ == s@,
    {
        smart_from_str(s)
    }

    /// The text as a string slice.
    pub fn as_str(&self) -> (r: &str)
        ensures
            r@ == self@,
    {
        smart_as_str(self)
    }

    /// The text as an owned `String`.
    pub fn to_std(&self) -> (r: String)
        ensures
            r@ == self@,
    {
        String::from_str(smart_as_str(self))
    }

    /// Whether two compact strings hold the same text.
    pub fn same_text(&self, other: &ZapString) -> (r: bool)
        ensures
            r == (self@ == other@),
    {
        str_eq(smart_as_str(self), smart_as_str(other))
    }
}

impl Clone for ZapString {
    fn clone(&self) -> (r: Self)
        ensures
            r == *self,
    {
        smart_clone(self)
    }
}

/// The characters of `s`, one by one.
pub fn chars_of(s: &str) -> (v: Vec<char>)
    ensures
        v@ == s@,
{
    let mut v: Vec<char> = Vec::new();
    for c in it: s.chars()
        invariant
            it.seq() == s@,
            v@ == s@.take(it.index()),
    {
        proof {
            assert(s@.take(it.index() + 1) == s@.take(it.index()).push(s@[it.index()]));
        }
        v.push(c);
    }
    proof {
        assert(s@.take(s@.len() as int) == s@);
    }
    v
}

/// A `String` made of the characters of `v`.
pub fn string_from_chars(v: &Vec<char>) -> (s: String)
    ensures
        s@ == v@,
{
    let mut s = String::new();
    let mut i: usize = 0;
    while i < v.len()
        invariant
            i <= v.len(),
            s@ == v@.take(i as int),
        decreases v.len() - i,
    {
        proof {
            assert(v@.take(i + 1) == v@.take(i as int).push(v@[i as int]));
        }
        string_push(&mut s, v[i]);
        i += 1;
    }
    proof {
        assert(v@.take(v@.len() as int) == v@);
    }
    s
}

/// Whether two string slices hold the same text.
pub fn str_eq(a: &str, b: &str) -> (r: bool)
    ensures
        r == (a@ == b@),
{
    let x = chars_of(a);
    let y = chars_of(b);
    chars_eq(&x, &y)
}

/// Whether two character vectors hold the same text.
pub fn chars_eq(a: &Vec<char>, b: &Vec<char>) -> (r: bool)
    ensures
        r == (a@ == b@),
{
    if a.len() != b.len() {
        return false;
    }
    let mut i: usize = 0;
    while i < a.len()
        invariant
            i <= a.len(),
            a.len() == b.len(),
            a@.take(i as int) == b@.take(i as int),
        decreases a.len() - i,
    {
        if a[i] != b[i] {
            proof {
                assert(a@[i as int] != b@[i as int]);
            }
            return false;
        }
        proof {
            assert(a@.take(i + 1) == a@.take(i as int).push(a@[i as int]));
            assert(b@.take(i + 1) == b@.take(i as int).push(b@[i as int]));
        }
        i += 1;
    }
    proof {
        assert(a@.take(a@.len() as int) == a@);
        assert(b@.take(b@.len() as int) == b@);
    }
    true
}

/// The decimal digits of `n`, most significant first, as a specification.
pub open spec fn decimal(n: nat) -> Seq<char>
    decreases n,
{
    if n < 10 {
        seq![digit_char(n)]
    } else {
        decimal(n / 10).push(digit_char(n % 10))
    }
}

/// The character of one decimal digit.
pub open spec fn digit_char(d: nat) -> char {
    if d == 0 {
        '0'
    } else if d == 1 {
        '1'
    } else if d == 2 {
        '2'
    } else if d == 3 {
        '3'
    } else if d == 4 {
        '4'
    } else if d == 5 {
        '5'
    } else if d == 6 {
        '6'
    } else if d == 7 {
        '7'
    } else if d == 8 {
        '8'
    } else {
        '9'
    }
}

fn digit_of(d: u32) -> (c: char)
    requires
        d < 10,
    ensures
        c == digit_char(d as nat),
{
    if d == 0 {
        '0'
    } else if d == 1 {
        '1'
    } else if d == 2 {
        '2'
    } else if d == 3 {
        '3'
    } else if d == 4 {
        '4'
    } else if d == 5 {
        '5'
    } else if d == 6 {
        '6'
    } else if d == 7 {
        '7'
    } else if d == 8 {
        '8'
    } else {
        '9'
    }
}

/// Appends the decimal digits of `n` to `out`.
pub fn push_decimal(out: &mut Vec<char>, n: u32)
    ensures
        final(out)@ == old(out)@ + decimal(n as nat),
    decreases n,
{
    if n < 10 {
        out.push(digit_of(n));
        proof {
            assert(final(out)@ == old(out)@ + seq![digit_char(n as nat)]);
        }
    } else {
        push_decimal(out, n / 10);
        out.push(digit_of(n % 10));
        proof {
            assert(out@ == old(out)@ + decimal((n / 10) as nat).push(digit_char((n % 10) as nat)));
        }
    }
}

/// Appends the characters of `s` to `out`.
pub fn push_str(out: &mut Vec<char>, s: &str)
    ensures
        final(out)@ == old(out)@ + s@,
{
    let mut piece = chars_of(s);
    out.append(&mut piece);
}

} // verus!
