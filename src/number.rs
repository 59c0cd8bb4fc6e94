//! JSON numbers: a non-negative integer, a negative integer, or a float
//! kept as its IEEE-754 bit pattern.
use vstd::prelude::*;
use crate::text::{decimal_of, push_decimal, signed_decimal_of, string_from_chars};

verus! {

/// The stored form of a number.
#[derive(Clone, Copy, Debug, PartialEq, Eq, Structural, Hash)]
pub enum N {
    /// A non-negative integer.
    PosInt(u64),
    /// A negative integer (always below zero when built by `Number`).
    NegInt(i64),
    /// A float, as the bit pattern of an `f64`.
    Float(u64),
}

/// A JSON number.
#[derive(Clone, Copy, Debug, PartialEq, Eq, Structural, Hash)]
pub struct Number {
    pub n: N,
}

impl Number {
    /// Well-formed: a negative integer is below zero.
    pub open spec fn wf(&self) -> bool {
        self.n matches N::NegInt(i) ==> i < 0
    }

    /// The integer value, when the number is an integer.
    pub open spec fn int_value(&self) -> Option<int> {
        match self.n {
            N::PosInt(u) => Some(u as int),
            N::NegInt(i) => Some(i as int),
            N::Float(_) => None,
        }
    }

    /// The value as `u64`, when it is a non-negative integer.
    pub open spec fn as_u64_spec(&self) -> Option<u64> {
        match self.n {
            N::PosInt(u) => Some(u),
            _ => None,
        }
    }

    /// The value as `i64`, when it is an integer in range.
    pub open spec fn as_i64_spec(&self) -> Option<i64> {
        match self.n {
            N::PosInt(u) => if u <= i64::MAX {
                Some(u as i64)
            } else {
                None
            },
            N::NegInt(i) => Some(i),
            N::Float(_) => None,
        }
    }

    /// The stored form.
    pub fn kind(&self) -> (r: N)
        ensures
            r == self.n,
    {
        self.n
    }

    /// A non-negative integer.
    pub fn from_u64(v: u64) -> (r: Number)
        ensures
            r.n == N::PosInt(v),
            r.wf(),
    {
        Number { n: N::PosInt(v) }
    }

    /// A signed integer: stored as non-negative when it is, else as negative.
    pub fn from_i64(v: i64) -> (r: Number)
        ensures
            r.n == (if v >= 0 {
                N::PosInt(v as u64)
            } else {
                N::NegInt(v)
            }),
            r.int_value() == Some(v as int),
            r.wf(),
    {
        if v >= 0 {
            Number { n: N::PosInt(v as u64) }
        } else {
            Number { n: N::NegInt(v) }
        }
    }

    /// A float, given as the bit pattern of an `f64`.
    pub fn from_f64_bits(bits: u64) -> (r: Number)
        ensures
            r.n == N::Float(bits),
            r.wf(),
    {
        Number { n: N::Float(bits) }
    }

    /// Whether the number is an integer in `0..=u64::MAX`.
    pub fn is_u64(&self) -> (r: bool)
        ensures
            r == (self.n is PosInt),
    {
        matches!(self.n, N::PosInt(_))
    }

    /// Whether the number is an integer in `i64::MIN..=i64::MAX`.
    pub fn is_i64(&self) -> (r: bool)
        ensures
            r == (match self.n {
                N::PosInt(u) => u <= i64::MAX,
                N::NegInt(_) => true,
                N::Float(_) => false,
            }),
    {
        match self.n {
            N::PosInt(u) => u <= i64::MAX as u64,
            N::NegInt(_) => true,
            N::Float(_) => false,
        }
    }

    /// Whether the number is stored as a float.
    pub fn is_f64(&self) -> (r: bool)
        ensures
            r == (self.n is Float),
    {
        matches!(self.n, N::Float(_))
    }

    /// The value as `u64`, when it is a non-negative integer.
    pub fn as_u64(&self) -> (r: Option<u64>)
        ensures
            r == self.as_u64_spec(),
    {
        match self.n {
            N::PosInt(u) => Some(u),
            _ => None,
        }
    }

    /// The value as `i64`, when it is an integer in range.
    pub fn as_i64(&self) -> (r: Option<i64>)
        ensures
            r == self.as_i64_spec(),
    {
        match self.n {
            N::PosInt(u) => if u <= i64::MAX as u64 {
                Some(u as i64)
            } else {
                None
            },
            N::NegInt(i) => Some(i),
            N::Float(_) => None,
        }
    }

    /// The bit pattern of the float, when the number is stored as one.
    pub fn float_bits(&self) -> (r: Option<u64>)
        ensures
            r == (match self.n {
                N::Float(b) => Some(b),
                _ => None,
            }),
    {
        match self.n {
            N::Float(b) => Some(b),
            _ => None,
        }
    }

    /// The decimal text of an integer ("-123" for minus one hundred
    /// twenty-three); `None` for a float, whose printing belongs to the
    /// codec.
    pub fn integer_text(&self) -> (r: Option<String>)
        ensures
            match self.int_value() {
                Some(v) => r is Some && r->0@ == signed_decimal_of(v),
                None => r is None,
            },
    {
        match self.n {
            N::PosInt(u) => {
                let mut cs: Vec<char> = Vec::new();
                push_decimal(&mut cs, u);
                assert(cs@ =~= decimal_of(u as nat));
                Some(string_from_chars(&cs))
            },
            N::NegInt(i) => {
                let mut cs: Vec<char> = Vec::new();
                if i < 0 {
                    cs.push('-');
                    let magnitude: u64 = if i == i64::MIN {
                        9223372036854775808u64
                    } else {
                        (-i) as u64
                    };
                    push_decimal(&mut cs, magnitude);
                    assert(cs@ =~= seq!['-'] + decimal_of((-(i as int)) as nat));
                } else {
                    push_decimal(&mut cs, i as u64);
                    assert(cs@ =~= decimal_of(i as nat));
                }
                Some(string_from_chars(&cs))
            },
            N::Float(_) => None,
        }
    }
}

impl From<u64> for Number {
    fn from(v: u64) -> (r: Number) {
        Number::from_u64(v)
    }
}

impl vstd::std_specs::convert::FromSpecImpl<u64> for Number {
    open spec fn obeys_from_spec() -> bool {
        true
    }

    open spec fn from_spec(v: u64) -> Number {
        Number { n: N::PosInt(v) }
    }
}

impl From<i64> for Number {
    fn from(v: i64) -> (r: Number) {
        Number::from_i64(v)
    }
}

impl vstd::std_specs::convert::FromSpecImpl<i64> for Number {
    open spec fn obeys_from_spec() -> bool {
        true
    }

    open spec fn from_spec(v: i64) -> Number {
        if v >= 0 {
            Number { n: N::PosInt(v as u64) }
        } else {
            Number { n: N::NegInt(v) }
        }
    }
}

} // verus!
