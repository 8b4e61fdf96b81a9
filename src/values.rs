use vstd::prelude::*;
use core::ops::Sub;
use crate::text::{push_char, push_signed_decimal, signed_decimal};

verus! {

/// A number of the expression algebra.
#[derive(Clone, Copy, Debug, PartialEq, Eq, Structural)]
pub enum Value {
    Natural(i32),
    Imaginary(i32),
    Complex(i32, i32),
    Undefined,
}

/// Whether an integer fits the 32-bit width that values are stored in.
pub open spec fn fits(n: int) -> bool {
    i32::MIN <= n <= i32::MAX
}

/// The real and imaginary parts of a value, or `None` for `Undefined`.
pub open spec fn parts(v: Value) -> Option<(int, int)> {
    match v {
        Value::Natural(n) => Some((n as int, 0)),
        Value::Imaginary(n) => Some((0, n as int)),
        Value::Complex(r, i) => Some((r as int, i as int)),
        Value::Undefined => None,
    }
}

/// The canonical value with the given parts: a zero imaginary part gives a
/// `Natural`, else a zero real part gives an `Imaginary`; parts that do not
/// fit 32 bits give `Undefined`.
pub open spec fn canonical(r: int, i: int) -> Value {
    if !fits(r) || !fits(i) {
        Value::Undefined
    } else if i == 0 {
        Value::Natural(r as i32)
    } else if r == 0 {
        Value::Imaginary(i as i32)
    } else {
        Value::Complex(r as i32, i as i32)
    }
}

pub open spec fn spec_add(a: Value, b: Value) -> Value {
    match (parts(a), parts(b)) {
        (Some((ar, ai)), Some((br, bi))) => canonical(ar + br, ai + bi),
        _ => Value::Undefined,
    }
}

pub open spec fn spec_sub(a: Value, b: Value) -> Value {
    match (parts(a), parts(b)) {
        (Some((ar, ai)), Some((br, bi))) => canonical(ar - br, ai - bi),
        _ => Value::Undefined,
    }
}

pub open spec fn spec_mul(a: Value, b: Value) -> Value {
    match (parts(a), parts(b)) {
        (Some((ar, ai)), Some((br, bi))) => canonical(ar * br - ai * bi, ar * bi + br * ai),
        _ => Value::Undefined,
    }
}

pub open spec fn magnitude(n: int) -> int {
    if n < 0 {
        -n
    } else {
        n
    }
}

/// Integer division that truncates toward zero.
pub open spec fn trunc_div(x: int, d: int) -> int {
    let q = magnitude(x) / magnitude(d);
    if (x < 0) == (d < 0) {
        q
    } else {
        -q
    }
}

/// Division by a non-zero `Natural` divides both parts; any other divisor
/// gives `Undefined`.
pub open spec fn spec_div(a: Value, b: Value) -> Value {
    match (parts(a), b) {
        (Some((ar, ai)), Value::Natural(n)) => if n == 0 {
            Value::Undefined
        } else {
            canonical(trunc_div(ar, n as int), trunc_div(ai, n as int))
        },
        _ => Value::Undefined,
    }
}

pub open spec fn spec_neg(a: Value) -> Value {
    spec_sub(Value::Natural(0), a)
}

/// The text of a value: `3`, `3i`, `3 + 4i` or `undefined`.
pub open spec fn value_text(v: Value) -> Seq<char> {
    match v {
        Value::Natural(n) => signed_decimal(n as int),
        Value::Imaginary(n) => signed_decimal(n as int).push('i'),
        Value::Complex(r, i) => signed_decimal(r as int) + seq![' ', '+', ' '] + signed_decimal(
            i as int,
        ).push('i'),
        Value::Undefined => seq!['u', 'n', 'd', 'e', 'f', 'i', 'n', 'e', 'd'],
    }
}

impl Value {
    /// The text of the value: `3`, `3i`, `3 + 4i` or `undefined`.
    pub fn to_string(&self) -> (r: String)
        ensures
            r@ == value_text(*self),
    {
        let mut s = String::new();
        match *self {
            Value::Natural(n) => push_signed_decimal(&mut s, n),
            Value::Imaginary(n) => {
                push_signed_decimal(&mut s, n);
                push_char(&mut s, 'i');
            },
            Value::Complex(r, i) => {
                push_signed_decimal(&mut s, r);
                push_char(&mut s, ' ');
                push_char(&mut s, '+');
                push_char(&mut s, ' ');
                push_signed_decimal(&mut s, i);
                push_char(&mut s, 'i');
            },
            Value::Undefined => {
                push_char(&mut s, 'u');
                push_char(&mut s, 'n');
                push_char(&mut s, 'd');
                push_char(&mut s, 'e');
                push_char(&mut s, 'f');
                push_char(&mut s, 'i');
                push_char(&mut s, 'n');
                push_char(&mut s, 'e');
                push_char(&mut s, 'd');
            },
        }
        proof {
            assert(s@ =~= value_text(*self));
        }
        s
    }

    /// Lifts a value to its `Complex` form; `Undefined` stays as it is.
    pub fn complex(self) -> (r: Self)
        ensures
            r == (match parts(self) {
                Some((re, im)) => Value::Complex(re as i32, im as i32),
                None => Value::Undefined,
            }),
    {
        match self {
            Value::Natural(n) => Value::Complex(n, 0),
            Value::Imaginary(n) => Value::Complex(0, n),
            Value::Complex(_, _) => self,
            _ => Value::Undefined,
        }
    }

    /// Reduces a value to its canonical form.
    pub fn simple(self) -> (r: Self)
        ensures
            r == (match self {
                Value::Complex(re, im) => canonical(re as int, im as int),
                _ => self,
            }),
    {
        if let Value::Complex(r, i) = self {
            if i == 0 {
                Value::Natural(r)
            } else if r == 0 {
                Value::Imaginary(i)
            } else {
                self
            }
        } else {
            self
        }
    }
}

/// The value with the given 64-bit parts, reduced to canonical form, or
/// `Undefined` where a part does not fit 32 bits.
fn from_wide_parts(r: i128, i: i128) -> (v: Value)
    ensures
        v == canonical(r as int, i as int),
{
    if r < i32::MIN as i128 || r > i32::MAX as i128 || i < i32::MIN as i128 || i > i32::MAX
        as i128 {
        Value::Undefined
    } else {
        Value::Complex(r as i32, i as i32).simple()
    }
}

impl core::ops::Add for Value {
    type Output = Value;

    fn add(self, rhs: Value) -> (r: Value) {
        let (left, right) = (self.complex(), rhs.complex());
        match (left, right) {
            (Value::Complex(lr, li), Value::Complex(rr, ri)) => {
                from_wide_parts(lr as i128 + rr as i128, li as i128 + ri as i128)
            },
            _ => Value::Undefined,
        }
    }
}

impl vstd::std_specs::ops::AddSpecImpl for Value {
    open spec fn obeys_add_spec() -> bool {
        true
    }

    open spec fn add_req(self, rhs: Value) -> bool {
        true
    }

    open spec fn add_spec(self, rhs: Value) -> Value {
        spec_add(self, rhs)
    }
}

impl core::ops::Sub for Value {
    type Output = Value;

    fn sub(self, rhs: Value) -> (r: Value) {
        let (left, right) = (self.complex(), rhs.complex());
        match (left, right) {
            (Value::Complex(lr, li), Value::Complex(rr, ri)) => {
                from_wide_parts(lr as i128 - rr as i128, li as i128 - ri as i128)
            },
            _ => Value::Undefined,
        }
    }
}

impl vstd::std_specs::ops::SubSpecImpl for Value {
    open spec fn obeys_sub_spec() -> bool {
        true
    }

    open spec fn sub_req(self, rhs: Value) -> bool {
        true
    }

    open spec fn sub_spec(self, rhs: Value) -> Value {
        spec_sub(self, rhs)
    }
}

impl core::ops::Neg for Value {
    type Output = Value;

    fn neg(self) -> (r: Value) {
        Value::Natural(0).complex().sub(self)
    }
}

impl vstd::std_specs::ops::NegSpecImpl for Value {
    open spec fn obeys_neg_spec() -> bool {
        true
    }

    open spec fn neg_req(self) -> bool {
        true
    }

    open spec fn neg_spec(self) -> Value {
        spec_neg(self)
    }
}

/// The product of two 32-bit integers, widened.
fn wide_product(a: i32, b: i32) -> (p: i128)
    ensures
        p == a as int * b as int,
        -0x4000_0000_0000_0000 <= p <= 0x4000_0000_0000_0000,
{
    assert(-0x4000_0000_0000_0000 <= a as int * b as int <= 0x4000_0000_0000_0000) by (nonlinear_arith)
        requires
            i32::MIN <= a <= i32::MAX,
            i32::MIN <= b <= i32::MAX,
    ;
    a as i128 * b as i128
}

impl core::ops::Mul for Value {
    type Output = Value;

    fn mul(self, rhs: Value) -> (r: Value) {
        let (left, right) = (self.complex(), rhs.complex());
        match (left, right) {
            (Value::Complex(lr, li), Value::Complex(rr, ri)) => {
                from_wide_parts(
                    wide_product(lr, rr) - wide_product(li, ri),
                    wide_product(lr, ri) + wide_product(rr, li),
                )
            },
            _ => Value::Undefined,
        }
    }
}

impl vstd::std_specs::ops::MulSpecImpl for Value {
    open spec fn obeys_mul_spec() -> bool {
        true
    }

    open spec fn mul_req(self, rhs: Value) -> bool {
        true
    }

    open spec fn mul_spec(self, rhs: Value) -> Value {
        spec_mul(self, rhs)
    }
}

/// The quotient of `x` by `d`, truncated toward zero, or `None` where `d` is
/// zero or the quotient does not fit 32 bits.
fn quotient(x: i32, d: i32) -> (q: Option<i32>)
    ensures
        q == (if d == 0 || !fits(trunc_div(x as int, d as int)) {
            None
        } else {
            Some(trunc_div(x as int, d as int) as i32)
        }),
{
    x.checked_div(d)
}

impl core::ops::Div for Value {
    type Output = Value;

    fn div(self, rhs: Value) -> (r: Value) {
        let (left, right) = (self.complex(), rhs);
        match (left, right) {
            (Value::Complex(re, im), Value::Natural(n)) => {
                if n == 0 {
                    return Value::Undefined;
                }
                match (quotient(re, n), quotient(im, n)) {
                    (Some(r), Some(i)) => Value::Complex(r, i).simple(),
                    _ => Value::Undefined,
                }
            },
            _ => Value::Undefined,
        }
    }
}

impl vstd::std_specs::ops::DivSpecImpl for Value {
    open spec fn obeys_div_spec() -> bool {
        true
    }

    open spec fn div_req(self, rhs: Value) -> bool {
        true
    }

    open spec fn div_spec(self, rhs: Value) -> Value {
        spec_div(self, rhs)
    }
}

} // verus!
