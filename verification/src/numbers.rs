//! Numbers are IEEE 754 binary64 values, carried as their 64 bits.
//!
//! The library compares numbers itself. Whatever else is done with them
//! (reading a literal, writing one out, arithmetic) is done by the host, which
//! hands the library three functions in a [`Numbers`] value.

use vstd::prelude::*;

verus! {

/// The bits of the number zero.
pub const ZERO: u64 = 0;

/// The arithmetic operations that the host performs on two numbers.
#[derive(Clone, Copy, PartialEq, Eq, Structural, Debug)]
pub enum Arith {
    Add,
    Sub,
    Mul,
}

/// Whether `bits` is a NaN: all exponent bits set and a fraction that is not
/// zero.
pub open spec fn is_nan(bits: u64) -> bool {
    (bits & 0x7fff_ffff_ffff_ffff) > 0x7ff0_0000_0000_0000
}

/// Equality of two numbers: a NaN equals nothing, the two zeros are equal, and
/// any other two numbers are equal where their bits are.
pub open spec fn number_eq(a: u64, b: u64) -> bool {
    !is_nan(a) && !is_nan(b) && (a == b || ((a | b) & 0x7fff_ffff_ffff_ffff) == 0)
}

/// Compares two numbers given by their bits.
pub fn numbers_equal(a: u64, b: u64) -> (r: bool)
    ensures
        r == number_eq(a, b),
{
    let a_nan = (a & 0x7fff_ffff_ffff_ffff) > 0x7ff0_0000_0000_0000;
    let b_nan = (b & 0x7fff_ffff_ffff_ffff) > 0x7ff0_0000_0000_0000;
    !a_nan && !b_nan && (a == b || ((a | b) & 0x7fff_ffff_ffff_ffff) == 0)
}

/// The host's number functions.
///
/// * `parse` reads a number literal: `Some` of its bits where the text is a
///   number, `None` where it is not;
/// * `show` writes a number out;
/// * `arith` performs one arithmetic operation on two numbers.
pub struct Numbers<P, S, A> {
    pub parse: P,
    pub show: S,
    pub arith: A,
}

impl<P: Fn(&str) -> Option<u64>, S: Fn(u64) -> String, A: Fn(Arith, u64, u64) -> u64> Numbers<
    P,
    S,
    A,
> {
    /// The three functions accept every input, and each is a function of its
    /// arguments: the same text, number or operands always give the same answer.
    pub open spec fn wf(&self) -> bool {
        &&& forall|t: &str| #[trigger] self.parse.requires((t,))
        &&& forall|n: u64| #[trigger] self.show.requires((n,))
        &&& forall|op: Arith, a: u64, b: u64| #[trigger] self.arith.requires((op, a, b))
        &&& forall|t1: &str, t2: &str, r1: Option<u64>, r2: Option<u64>|
            t1@ == t2@ && #[trigger] self.parse.ensures((t1,), r1) && #[trigger] self.parse.ensures(
                (t2,),
                r2,
            ) ==> r1 == r2
        &&& forall|n: u64, r1: String, r2: String|
            #[trigger] self.show.ensures((n,), r1) && #[trigger] self.show.ensures((n,), r2)
                ==> r1@ == r2@
        &&& forall|op: Arith, a: u64, b: u64, r1: u64, r2: u64|
            #[trigger] self.arith.ensures((op, a, b), r1) && #[trigger] self.arith.ensures(
                (op, a, b),
                r2,
            ) ==> r1 == r2
    }

    /// `parse` may answer `r` for `text`.
    pub open spec fn parse_gives(&self, text: Seq<char>, r: Option<u64>) -> bool {
        exists|t: &str| t@ == text && #[trigger] self.parse.ensures((t,), r)
    }

    /// `show` may write `s` for the number `n`.
    pub open spec fn show_gives(&self, n: u64, s: Seq<char>) -> bool {
        exists|r: String| r@ == s && #[trigger] self.show.ensures((n,), r)
    }

    /// What `parse` answers for `text`.
    pub open spec fn parsed(&self, text: Seq<char>) -> Option<u64> {
        choose|r: Option<u64>| #[trigger] self.parse_gives(text, r)
    }

    /// What `show` writes for the number `n`.
    pub open spec fn shown(&self, n: u64) -> Seq<char> {
        choose|s: Seq<char>| #[trigger] self.show_gives(n, s)
    }

    /// `parse` as a function from texts to answers.
    pub open spec fn parser(&self) -> spec_fn(Seq<char>) -> Option<u64> {
        |text: Seq<char>| self.parsed(text)
    }

    /// `show` as a function from numbers to texts.
    pub open spec fn printer(&self) -> spec_fn(u64) -> Seq<char> {
        |n: u64| self.shown(n)
    }

    /// `arith` as a function from an operation and two numbers to a number.
    pub open spec fn calculator(&self) -> spec_fn(Arith, u64, u64) -> u64 {
        |op: Arith, a: u64, b: u64| self.computed(op, a, b)
    }

    /// What `arith` answers for `op` on `a` and `b`.
    pub open spec fn computed(&self, op: Arith, a: u64, b: u64) -> u64 {
        choose|r: u64| self.arith.ensures((op, a, b), r)
    }

    /// Asks the host to read `text` as a number.
    pub fn parse_number(&self, text: &str) -> (r: Option<u64>)
        requires
            self.wf(),
        ensures
            r == self.parsed(text@),
    {
        let r = (self.parse)(text);
        proof {
            assert(self.parse.ensures((text,), r));
            assert(self.parse_gives(text@, r));
            assert(self.parse_gives(text@, self.parsed(text@)));
        }
        r
    }

    /// Asks the host to write the number `n` out.
    pub fn show_number(&self, n: u64) -> (r: String)
        requires
            self.wf(),
        ensures
            r@ == self.shown(n),
    {
        let r = (self.show)(n);
        proof {
            assert(self.show.ensures((n,), r));
            assert(self.show_gives(n, r@));
            assert(self.show_gives(n, self.shown(n)));
        }
        r
    }

    /// Asks the host for `op` on `a` and `b`.
    pub fn compute(&self, op: Arith, a: u64, b: u64) -> (r: u64)
        requires
            self.wf(),
        ensures
            r == self.computed(op, a, b),
    {
        let r = (self.arith)(op, a, b);
        proof {
            assert(self.arith.ensures((op, a, b), r));
        }
        r
    }
}

} // verus!
