//! Words, the operations on them, and the formulas built from these operations.

use vstd::prelude::*;

verus! {

/// 0.0
pub const ZERO: u32 = 0x0000_0000;
/// 0.25
pub const QUARTER: u32 = 0x3e80_0000;
/// 0.5
pub const HALF: u32 = 0x3f00_0000;
/// 1.0
pub const ONE: u32 = 0x3f80_0000;
/// 1.5
pub const ONE_AND_HALF: u32 = 0x3fc0_0000;
/// 2.0
pub const TWO: u32 = 0x4000_0000;
/// -1.0
pub const MINUS_ONE: u32 = 0xbf80_0000;
/// 64.0
pub const SIXTY_FOUR: u32 = 0x4280_0000;

/// The operations of single-precision arithmetic, on words.
///
/// Nothing is asked of an implementation. What the library computes is stated
/// through `call_ensures` of these methods: each formula is evaluated by
/// exactly the operations it is written with, whatever these return.
pub trait Arithmetic {
    /// The word nearest to a natural number.
    fn from_natural(&self, n: u64) -> u32;

    /// The word nearest to an integer.
    fn from_integer(&self, n: i32) -> u32;

    /// The word rounded towards zero, saturating at the limits of `usize`.
    fn to_natural(&self, a: u32) -> usize;

    fn neg(&self, a: u32) -> u32;

    fn sin(&self, a: u32) -> u32;

    fn exp(&self, a: u32) -> u32;

    /// The part behind the decimal point.
    fn fract(&self, a: u32) -> u32;

    fn plus(&self, a: u32, b: u32) -> u32;

    fn minus(&self, a: u32, b: u32) -> u32;

    fn times(&self, a: u32, b: u32) -> u32;

    fn over(&self, a: u32, b: u32) -> u32;

    /// The greater of two words.
    fn max(&self, a: u32, b: u32) -> u32;

    /// `a` to the power `b`.
    fn powf(&self, a: u32, b: u32) -> u32;

    /// `a` to an integer power.
    fn powi(&self, a: u32, n: i32) -> u32;

    /// `a` limited to the range from `low` to `high`.
    fn clamp(&self, a: u32, low: u32, high: u32) -> u32;

    fn less(&self, a: u32, b: u32) -> bool;
}

/// A formula over words and whole numbers.
pub enum Expr {
    Word(u32),
    Natural(u64),
    Integer(i32),
    Neg(Box<Expr>),
    Sin(Box<Expr>),
    Exp(Box<Expr>),
    Fract(Box<Expr>),
    Plus(Box<Expr>, Box<Expr>),
    Minus(Box<Expr>, Box<Expr>),
    Times(Box<Expr>, Box<Expr>),
    Over(Box<Expr>, Box<Expr>),
    Max(Box<Expr>, Box<Expr>),
    Powf(Box<Expr>, Box<Expr>),
    Powi(Box<Expr>, i32),
    Clamp(Box<Expr>, u32, u32),
    /// If the first is less than the second: the third, else the fourth.
    IfLess(Box<Expr>, Box<Expr>, Box<Expr>, Box<Expr>),
}

/// The formula that is the word `w` itself.
pub open spec fn word(w: u32) -> Expr {
    Expr::Word(w)
}

/// The formula that is the natural number `n`.
pub open spec fn natural(n: int) -> Expr {
    Expr::Natural(n as u64)
}

impl Expr {
    pub open spec fn neg(self) -> Expr {
        Expr::Neg(Box::new(self))
    }

    pub open spec fn sin(self) -> Expr {
        Expr::Sin(Box::new(self))
    }

    pub open spec fn exp(self) -> Expr {
        Expr::Exp(Box::new(self))
    }

    pub open spec fn fract(self) -> Expr {
        Expr::Fract(Box::new(self))
    }

    pub open spec fn plus(self, other: Expr) -> Expr {
        Expr::Plus(Box::new(self), Box::new(other))
    }

    pub open spec fn minus(self, other: Expr) -> Expr {
        Expr::Minus(Box::new(self), Box::new(other))
    }

    pub open spec fn times(self, other: Expr) -> Expr {
        Expr::Times(Box::new(self), Box::new(other))
    }

    pub open spec fn over(self, other: Expr) -> Expr {
        Expr::Over(Box::new(self), Box::new(other))
    }

    pub open spec fn max(self, other: Expr) -> Expr {
        Expr::Max(Box::new(self), Box::new(other))
    }

    pub open spec fn powf(self, other: Expr) -> Expr {
        Expr::Powf(Box::new(self), Box::new(other))
    }

    pub open spec fn powi(self, n: i32) -> Expr {
        Expr::Powi(Box::new(self), n)
    }

    pub open spec fn clamp(self, low: u32, high: u32) -> Expr {
        Expr::Clamp(Box::new(self), low, high)
    }

    pub open spec fn if_less(self, other: Expr, yes: Expr, no: Expr) -> Expr {
        Expr::IfLess(Box::new(self), Box::new(other), Box::new(yes), Box::new(no))
    }
}

/// Whether the operations of `ar` can take the formula `e` to the word `r`.
pub open spec fn evaluates<A: Arithmetic>(ar: A, e: Expr, r: u32) -> bool
    decreases e,
{
    match e {
        Expr::Word(w) => r == w,
        Expr::Natural(n) => call_ensures(A::from_natural, (&ar, n), r),
        Expr::Integer(n) => call_ensures(A::from_integer, (&ar, n), r),
        Expr::Neg(x) => exists|a: u32|
            evaluates(ar, *x, a) && #[trigger] call_ensures(A::neg, (&ar, a), r),
        Expr::Sin(x) => exists|a: u32|
            evaluates(ar, *x, a) && #[trigger] call_ensures(A::sin, (&ar, a), r),
        Expr::Exp(x) => exists|a: u32|
            evaluates(ar, *x, a) && #[trigger] call_ensures(A::exp, (&ar, a), r),
        Expr::Fract(x) => exists|a: u32|
            evaluates(ar, *x, a) && #[trigger] call_ensures(A::fract, (&ar, a), r),
        Expr::Plus(x, y) => exists|a: u32, b: u32|
            evaluates(ar, *x, a) && evaluates(ar, *y, b) && #[trigger] call_ensures(
                A::plus,
                (&ar, a, b),
                r,
            ),
        Expr::Minus(x, y) => exists|a: u32, b: u32|
            evaluates(ar, *x, a) && evaluates(ar, *y, b) && #[trigger] call_ensures(
                A::minus,
                (&ar, a, b),
                r,
            ),
        Expr::Times(x, y) => exists|a: u32, b: u32|
            evaluates(ar, *x, a) && evaluates(ar, *y, b) && #[trigger] call_ensures(
                A::times,
                (&ar, a, b),
                r,
            ),
        Expr::Over(x, y) => exists|a: u32, b: u32|
            evaluates(ar, *x, a) && evaluates(ar, *y, b) && #[trigger] call_ensures(
                A::over,
                (&ar, a, b),
                r,
            ),
        Expr::Max(x, y) => exists|a: u32, b: u32|
            evaluates(ar, *x, a) && evaluates(ar, *y, b) && #[trigger] call_ensures(
                A::max,
                (&ar, a, b),
                r,
            ),
        Expr::Powf(x, y) => exists|a: u32, b: u32|
            evaluates(ar, *x, a) && evaluates(ar, *y, b) && #[trigger] call_ensures(
                A::powf,
                (&ar, a, b),
                r,
            ),
        Expr::Powi(x, n) => exists|a: u32|
            evaluates(ar, *x, a) && #[trigger] call_ensures(A::powi, (&ar, a, n), r),
        Expr::Clamp(x, low, high) => exists|a: u32|
            evaluates(ar, *x, a) && #[trigger] call_ensures(A::clamp, (&ar, a, low, high), r),
        Expr::IfLess(x, y, yes, no) => exists|a: u32, b: u32, less: bool|
            {
                &&& evaluates(ar, *x, a)
                &&& evaluates(ar, *y, b)
                &&& #[trigger] call_ensures(A::less, (&ar, a, b), less)
                &&& if less {
                    evaluates(ar, *yes, r)
                } else {
                    evaluates(ar, *no, r)
                }
            },
    }
}

/// Whether the operations of `ar` can take the formula `e` to the whole number `n`.
pub open spec fn counts<A: Arithmetic>(ar: A, e: Expr, n: usize) -> bool {
    exists|a: u32|
        evaluates(ar, e, a) && #[trigger] call_ensures(A::to_natural, (&ar, a), n)
}

/// A word together with the formula that it was computed by.
#[derive(Clone, Copy)]
pub struct Term {
    pub word: u32,
    pub expr: Ghost<Expr>,
}

impl Term {
    /// The word is a value of the formula.
    pub open spec fn holds<A: Arithmetic>(self, ar: A) -> bool {
        evaluates(ar, self.expr@, self.word)
    }

    pub fn word<A: Arithmetic>(ar: &A, w: u32) -> (r: Term)
        ensures
            r.holds(*ar),
            r.expr@ == word(w),
            r.word == w,
    {
        Term { word: w, expr: Ghost(word(w)) }
    }

    pub fn natural<A: Arithmetic>(ar: &A, n: u64) -> (r: Term)
        ensures
            r.holds(*ar),
            r.expr@ == natural(n as int),
    {
        Term { word: ar.from_natural(n), expr: Ghost(natural(n as int)) }
    }

    pub fn integer<A: Arithmetic>(ar: &A, n: i32) -> (r: Term)
        ensures
            r.holds(*ar),
            r.expr@ == Expr::Integer(n),
    {
        Term { word: ar.from_integer(n), expr: Ghost(Expr::Integer(n)) }
    }

    pub fn neg<A: Arithmetic>(self, ar: &A) -> (r: Term)
        requires
            self.holds(*ar),
        ensures
            r.holds(*ar),
            r.expr@ == self.expr@.neg(),
    {
        Term { word: ar.neg(self.word), expr: Ghost(self.expr@.neg()) }
    }

    pub fn sin<A: Arithmetic>(self, ar: &A) -> (r: Term)
        requires
            self.holds(*ar),
        ensures
            r.holds(*ar),
            r.expr@ == self.expr@.sin(),
    {
        Term { word: ar.sin(self.word), expr: Ghost(self.expr@.sin()) }
    }

    pub fn exp<A: Arithmetic>(self, ar: &A) -> (r: Term)
        requires
            self.holds(*ar),
        ensures
            r.holds(*ar),
            r.expr@ == self.expr@.exp(),
    {
        Term { word: ar.exp(self.word), expr: Ghost(self.expr@.exp()) }
    }

    pub fn fract<A: Arithmetic>(self, ar: &A) -> (r: Term)
        requires
            self.holds(*ar),
        ensures
            r.holds(*ar),
            r.expr@ == self.expr@.fract(),
    {
        Term { word: ar.fract(self.word), expr: Ghost(self.expr@.fract()) }
    }

    pub fn plus<A: Arithmetic>(self, ar: &A, other: Term) -> (r: Term)
        requires
            self.holds(*ar),
            other.holds(*ar),
        ensures
            r.holds(*ar),
            r.expr@ == self.expr@.plus(other.expr@),
    {
        Term { word: ar.plus(self.word, other.word), expr: Ghost(self.expr@.plus(other.expr@)) }
    }

    pub fn minus<A: Arithmetic>(self, ar: &A, other: Term) -> (r: Term)
        requires
            self.holds(*ar),
            other.holds(*ar),
        ensures
            r.holds(*ar),
            r.expr@ == self.expr@.minus(other.expr@),
    {
        Term { word: ar.minus(self.word, other.word), expr: Ghost(self.expr@.minus(other.expr@)) }
    }

    pub fn times<A: Arithmetic>(self, ar: &A, other: Term) -> (r: Term)
        requires
            self.holds(*ar),
            other.holds(*ar),
        ensures
            r.holds(*ar),
            r.expr@ == self.expr@.times(other.expr@),
    {
        Term { word: ar.times(self.word, other.word), expr: Ghost(self.expr@.times(other.expr@)) }
    }

    pub fn over<A: Arithmetic>(self, ar: &A, other: Term) -> (r: Term)
        requires
            self.holds(*ar),
            other.holds(*ar),
        ensures
            r.holds(*ar),
            r.expr@ == self.expr@.over(other.expr@),
    {
        Term { word: ar.over(self.word, other.word), expr: Ghost(self.expr@.over(other.expr@)) }
    }

    pub fn max<A: Arithmetic>(self, ar: &A, other: Term) -> (r: Term)
        requires
            self.holds(*ar),
            other.holds(*ar),
        ensures
            r.holds(*ar),
            r.expr@ == self.expr@.max(other.expr@),
    {
        Term { word: ar.max(self.word, other.word), expr: Ghost(self.expr@.max(other.expr@)) }
    }

    pub fn powf<A: Arithmetic>(self, ar: &A, other: Term) -> (r: Term)
        requires
            self.holds(*ar),
            other.holds(*ar),
        ensures
            r.holds(*ar),
            r.expr@ == self.expr@.powf(other.expr@),
    {
        Term { word: ar.powf(self.word, other.word), expr: Ghost(self.expr@.powf(other.expr@)) }
    }

    pub fn powi<A: Arithmetic>(self, ar: &A, n: i32) -> (r: Term)
        requires
            self.holds(*ar),
        ensures
            r.holds(*ar),
            r.expr@ == self.expr@.powi(n),
    {
        Term { word: ar.powi(self.word, n), expr: Ghost(self.expr@.powi(n)) }
    }

    pub fn clamp<A: Arithmetic>(self, ar: &A, low: u32, high: u32) -> (r: Term)
        requires
            self.holds(*ar),
        ensures
            r.holds(*ar),
            r.expr@ == self.expr@.clamp(low, high),
    {
        Term { word: ar.clamp(self.word, low, high), expr: Ghost(self.expr@.clamp(low, high)) }
    }

    /// `yes` if the word is less than that of `other`, else `no`.
    pub fn if_less<A: Arithmetic>(self, ar: &A, other: Term, yes: Term, no: Term) -> (r: Term)
        requires
            self.holds(*ar),
            other.holds(*ar),
            yes.holds(*ar),
            no.holds(*ar),
        ensures
            r.holds(*ar),
            r.expr@ == self.expr@.if_less(other.expr@, yes.expr@, no.expr@),
    {
        let less: bool = ar.less(self.word, other.word);
        let chosen: Term = if less {
            yes
        } else {
            no
        };
        Term {
            word: chosen.word,
            expr: Ghost(self.expr@.if_less(other.expr@, yes.expr@, no.expr@)),
        }
    }

    pub fn count<A: Arithmetic>(self, ar: &A) -> (n: usize)
        requires
            self.holds(*ar),
        ensures
            counts(*ar, self.expr@, n),
    {
        ar.to_natural(self.word)
    }
}

} // verus!
