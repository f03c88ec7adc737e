//! Single-precision numbers as their IEEE 754 bit patterns.
//!
//! Which of two numbers is greater, and what is not a number, follows from the bits. The arithmetic
//! itself is handed in: everything above it is stated for whatever arithmetic that is.

use vstd::prelude::*;

use crate::perf::Op;

verus! {

/// The bit pattern of 0.
pub const ZERO: u32 = 0;

/// The bit pattern of -0.
pub const NEGATIVE_ZERO: u32 = 0x8000_0000;

/// The bit pattern of 1.
pub const ONE: u32 = 0x3F80_0000;

/// The bit pattern of -2.
pub const MINUS_TWO: u32 = 0xC000_0000;

/// The bit pattern of negative infinity.
pub const NEGATIVE_INFINITY: u32 = 0xFF80_0000;

/// The bits without the sign.
pub open spec fn magnitude(x: u32) -> int {
    if x >= 0x8000_0000 {
        x - 0x8000_0000
    } else {
        x as int
    }
}

/// Whether the pattern is none of a number.
pub open spec fn is_nan(x: u32) -> bool {
    magnitude(x) > 0x7F80_0000
}

/// Whether the pattern is that of a finite number.
pub open spec fn is_finite(x: u32) -> bool {
    magnitude(x) < 0x7F80_0000
}

/// Where the number stands among all numbers. The two zeros stand at one place.
pub open spec fn rank(x: u32) -> int {
    if x >= 0x8000_0000 {
        -magnitude(x)
    } else {
        magnitude(x)
    }
}

/// Whether `a < b`, as numbers.
pub open spec fn less(a: u32, b: u32) -> bool {
    !is_nan(a) && !is_nan(b) && rank(a) < rank(b)
}

/// Whether `a == b`, as numbers.
pub open spec fn equal(a: u32, b: u32) -> bool {
    !is_nan(a) && !is_nan(b) && rank(a) == rank(b)
}

/// The greater of two numbers. Against what is not a number, the other.
pub open spec fn greater_of(a: u32, b: u32) -> u32 {
    if is_nan(b) {
        a
    } else if is_nan(a) || less(a, b) {
        b
    } else {
        a
    }
}

/// The number with the other sign.
pub open spec fn negated(x: u32) -> u32 {
    if x >= 0x8000_0000 {
        (x - 0x8000_0000) as u32
    } else {
        (x + 0x8000_0000) as u32
    }
}

/// Whether the pattern is none of a number.
pub fn nan(x: u32) -> (r: bool)
    ensures
        r == is_nan(x),
{
    if x >= 0x8000_0000 {
        x - 0x8000_0000 > 0x7F80_0000
    } else {
        x > 0x7F80_0000
    }
}

/// Where the number stands among all numbers.
pub fn rank_of(x: u32) -> (r: i64)
    ensures
        r == rank(x),
{
    if x >= 0x8000_0000 {
        0x8000_0000 - (x as i64)
    } else {
        x as i64
    }
}

/// Whether `a < b`, as numbers.
pub fn is_less(a: u32, b: u32) -> (r: bool)
    ensures
        r == less(a, b),
{
    !nan(a) && !nan(b) && rank_of(a) < rank_of(b)
}

/// Whether `a == b`, as numbers.
pub fn is_equal(a: u32, b: u32) -> (r: bool)
    ensures
        r == equal(a, b),
{
    !nan(a) && !nan(b) && rank_of(a) == rank_of(b)
}

/// The greater of two numbers. Against what is not a number, the other.
pub fn greater(a: u32, b: u32) -> (r: u32)
    ensures
        r == greater_of(a, b),
{
    if nan(b) {
        a
    } else if nan(a) || is_less(a, b) {
        b
    } else {
        a
    }
}

/// The number with the other sign.
pub fn negate(x: u32) -> (r: u32)
    ensures
        r == negated(x),
{
    if x >= 0x8000_0000 {
        x - 0x8000_0000
    } else {
        x + 0x8000_0000
    }
}

/// The arithmetic of single-precision numbers, and a place to note which work begins and ends.
pub trait Arithmetic: Sync {
    /// Whether every operation has one result.
    spec fn wf(&self) -> bool;

    /// `a + b`
    spec fn sum(&self, a: u32, b: u32) -> u32;

    /// `a - b`
    spec fn difference(&self, a: u32, b: u32) -> u32;

    /// `a * b`
    spec fn product(&self, a: u32, b: u32) -> u32;

    /// `a / b`
    spec fn quotient(&self, a: u32, b: u32) -> u32;

    /// `a` to the power `b`
    spec fn power(&self, a: u32, b: u32) -> u32;

    /// The exponential function.
    spec fn exponential(&self, a: u32) -> u32;

    /// The square root.
    spec fn root(&self, a: u32) -> u32;

    /// The sine.
    spec fn sine(&self, a: u32) -> u32;

    /// The cosine.
    spec fn cosine(&self, a: u32) -> u32;

    /// The number nearest to a natural number.
    spec fn natural(&self, n: usize) -> u32;

    /// The number nearest to an integer.
    spec fn integer(&self, n: i32) -> u32;

    /// The number with this half-precision pattern.
    spec fn widened(&self, h: u16) -> u32;

    /// Adds.
    fn plus(&self, a: u32, b: u32) -> (r: u32)
        requires
            self.wf(),
        ensures
            r == self.sum(a, b),
    ;

    /// Subtracts.
    fn minus(&self, a: u32, b: u32) -> (r: u32)
        requires
            self.wf(),
        ensures
            r == self.difference(a, b),
    ;

    /// Multiplies.
    fn times(&self, a: u32, b: u32) -> (r: u32)
        requires
            self.wf(),
        ensures
            r == self.product(a, b),
    ;

    /// Divides.
    fn over(&self, a: u32, b: u32) -> (r: u32)
        requires
            self.wf(),
        ensures
            r == self.quotient(a, b),
    ;

    /// Raises to a power.
    fn raised(&self, a: u32, b: u32) -> (r: u32)
        requires
            self.wf(),
        ensures
            r == self.power(a, b),
    ;

    /// Takes the exponential.
    fn exp(&self, a: u32) -> (r: u32)
        requires
            self.wf(),
        ensures
            r == self.exponential(a),
    ;

    /// Takes the square root.
    fn sqrt(&self, a: u32) -> (r: u32)
        requires
            self.wf(),
        ensures
            r == self.root(a),
    ;

    /// Takes the sine.
    fn sin(&self, a: u32) -> (r: u32)
        requires
            self.wf(),
        ensures
            r == self.sine(a),
    ;

    /// Takes the cosine.
    fn cos(&self, a: u32) -> (r: u32)
        requires
            self.wf(),
        ensures
            r == self.cosine(a),
    ;

    /// Turns a natural number into a floating-point number.
    fn from_usize(&self, n: usize) -> (r: u32)
        requires
            self.wf(),
        ensures
            r == self.natural(n),
    ;

    /// Turns an integer into a floating-point number.
    fn from_i32(&self, n: i32) -> (r: u32)
        requires
            self.wf(),
        ensures
            r == self.integer(n),
    ;

    /// Turns a half-precision number into one of single precision.
    fn from_half(&self, h: u16) -> (r: u32)
        requires
            self.wf(),
        ensures
            r == self.widened(h),
    ;

    /// Notes that a kind of work begins, or ends.
    fn mark(&self, op: Op, begins: bool)
        requires
            self.wf(),
    ;
}

/// An arithmetic made of functions.
pub struct FloatOps<Add, Sub, Mul, Div, Pow, Exp, Sqrt, Sin, Cos, Nat, Int, Half, Mark> {
    pub add: Add,
    pub sub: Sub,
    pub mul: Mul,
    pub div: Div,
    pub powf: Pow,
    pub exp: Exp,
    pub sqrt: Sqrt,
    pub sin: Sin,
    pub cos: Cos,
    pub from_usize: Nat,
    pub from_i32: Int,
    pub from_half: Half,
    pub mark: Mark,
}

/// Whether the function of two numbers has one result for all of them.
pub open spec fn is_binary<G: Fn(u32, u32) -> u32>(g: G) -> bool {
    &&& forall|a: u32, b: u32| call_requires(g, (a, b))
    &&& forall|a: u32, b: u32, r: u32, s: u32| call_ensures(g, (a, b), r) && call_ensures(g, (a, b), s) ==> r == s
}

/// Whether the function of one number has one result for all of them.
pub open spec fn is_unary<G: Fn(u32) -> u32>(g: G) -> bool {
    &&& forall|a: u32| call_requires(g, (a,))
    &&& forall|a: u32, r: u32, s: u32| call_ensures(g, (a,), r) && call_ensures(g, (a,), s) ==> r == s
}

/// The result of a function of two numbers.
pub open spec fn binary<G: Fn(u32, u32) -> u32>(g: G, a: u32, b: u32) -> u32 {
    choose|r: u32| call_ensures(g, (a, b), r)
}

/// The result of a function of one number.
pub open spec fn unary<G: Fn(u32) -> u32>(g: G, a: u32) -> u32 {
    choose|r: u32| call_ensures(g, (a,), r)
}

impl<Add, Sub, Mul, Div, Pow, Exp, Sqrt, Sin, Cos, Nat, Int, Half, Mark> Arithmetic for FloatOps<
    Add,
    Sub,
    Mul,
    Div,
    Pow,
    Exp,
    Sqrt,
    Sin,
    Cos,
    Nat,
    Int,
    Half,
    Mark,
> where
    Add: Fn(u32, u32) -> u32 + Sync,
    Sub: Fn(u32, u32) -> u32 + Sync,
    Mul: Fn(u32, u32) -> u32 + Sync,
    Div: Fn(u32, u32) -> u32 + Sync,
    Pow: Fn(u32, u32) -> u32 + Sync,
    Exp: Fn(u32) -> u32 + Sync,
    Sqrt: Fn(u32) -> u32 + Sync,
    Sin: Fn(u32) -> u32 + Sync,
    Cos: Fn(u32) -> u32 + Sync,
    Nat: Fn(usize) -> u32 + Sync,
    Int: Fn(i32) -> u32 + Sync,
    Half: Fn(u16) -> u32 + Sync,
    Mark: Fn(Op, bool) + Sync,
 {
    open spec fn wf(&self) -> bool {
        &&& is_binary(self.add)
        &&& is_binary(self.sub)
        &&& is_binary(self.mul)
        &&& is_binary(self.div)
        &&& is_binary(self.powf)
        &&& is_unary(self.exp)
        &&& is_unary(self.sqrt)
        &&& is_unary(self.sin)
        &&& is_unary(self.cos)
        &&& forall|n: usize| call_requires(self.from_usize, (n,))
        &&& forall|n: usize, r: u32, s: u32| call_ensures(self.from_usize, (n,), r) && call_ensures(self.from_usize, (n,), s) ==> r == s
        &&& forall|n: i32| call_requires(self.from_i32, (n,))
        &&& forall|n: i32, r: u32, s: u32| call_ensures(self.from_i32, (n,), r) && call_ensures(self.from_i32, (n,), s) ==> r == s
        &&& forall|h: u16| call_requires(self.from_half, (h,))
        &&& forall|h: u16, r: u32, s: u32| call_ensures(self.from_half, (h,), r) && call_ensures(self.from_half, (h,), s) ==> r == s
        &&& forall|op: Op, begins: bool| call_requires(self.mark, (op, begins))
    }

    open spec fn sum(&self, a: u32, b: u32) -> u32 {
        binary(self.add, a, b)
    }

    open spec fn difference(&self, a: u32, b: u32) -> u32 {
        binary(self.sub, a, b)
    }

    open spec fn product(&self, a: u32, b: u32) -> u32 {
        binary(self.mul, a, b)
    }

    open spec fn quotient(&self, a: u32, b: u32) -> u32 {
        binary(self.div, a, b)
    }

    open spec fn power(&self, a: u32, b: u32) -> u32 {
        binary(self.powf, a, b)
    }

    open spec fn exponential(&self, a: u32) -> u32 {
        unary(self.exp, a)
    }

    open spec fn root(&self, a: u32) -> u32 {
        unary(self.sqrt, a)
    }

    open spec fn sine(&self, a: u32) -> u32 {
        unary(self.sin, a)
    }

    open spec fn cosine(&self, a: u32) -> u32 {
        unary(self.cos, a)
    }

    open spec fn natural(&self, n: usize) -> u32 {
        choose|r: u32| call_ensures(self.from_usize, (n,), r)
    }

    open spec fn integer(&self, n: i32) -> u32 {
        choose|r: u32| call_ensures(self.from_i32, (n,), r)
    }

    open spec fn widened(&self, h: u16) -> u32 {
        choose|r: u32| call_ensures(self.from_half, (h,), r)
    }

    fn plus(&self, a: u32, b: u32) -> (r: u32) {
        (self.add)(a, b)
    }

    fn minus(&self, a: u32, b: u32) -> (r: u32) {
        (self.sub)(a, b)
    }

    fn times(&self, a: u32, b: u32) -> (r: u32) {
        (self.mul)(a, b)
    }

    fn over(&self, a: u32, b: u32) -> (r: u32) {
        (self.div)(a, b)
    }

    fn raised(&self, a: u32, b: u32) -> (r: u32) {
        (self.powf)(a, b)
    }

    fn exp(&self, a: u32) -> (r: u32) {
        (self.exp)(a)
    }

    fn sqrt(&self, a: u32) -> (r: u32) {
        (self.sqrt)(a)
    }

    fn sin(&self, a: u32) -> (r: u32) {
        (self.sin)(a)
    }

    fn cos(&self, a: u32) -> (r: u32) {
        (self.cos)(a)
    }

    fn from_usize(&self, n: usize) -> (r: u32) {
        (self.from_usize)(n)
    }

    fn from_i32(&self, n: i32) -> (r: u32) {
        (self.from_i32)(n)
    }

    fn from_half(&self, h: u16) -> (r: u32) {
        (self.from_half)(h)
    }

    fn mark(&self, op: Op, begins: bool) {
        (self.mark)(op, begins);
    }
}

} // verus!
