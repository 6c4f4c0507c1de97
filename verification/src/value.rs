//! Scalar values, and the conversions between them.
//!
//! A floating-point payload is held as the bits of its IEEE 754 encoding, so
//! that every value of the data model can be compared and copied exactly.

use crate::ids::DataType;
use vstd::arithmetic::power2::{lemma2_to64, lemma2_to64_rest, lemma_pow2_strictly_increases, lemma_pow2_unfold, pow2};
use vstd::prelude::*;

verus! {

/// What a `Value` is in contracts.
pub enum ValueView {
    Str(Seq<char>),
    Int(i64),
    Uint(u64),
    F64(u64),
    F32(u32),
    Counter(i64),
    Timestamp(i64),
    Boolean(bool),
    Null,
}

/// A scalar payload. `F64` and `F32` hold the bits of the number.
#[derive(Clone, Debug, PartialEq)]
pub enum Value {
    Str(String),
    Int(i64),
    Uint(u64),
    F64(u64),
    F32(u32),
    Counter(i64),
    Timestamp(i64),
    Boolean(bool),
    Null,
}

impl View for Value {
    type V = ValueView;

    open spec fn view(&self) -> ValueView {
        match self {
            Value::Str(s) => ValueView::Str(s@),
            Value::Int(n) => ValueView::Int(*n),
            Value::Uint(n) => ValueView::Uint(*n),
            Value::F64(b) => ValueView::F64(*b),
            Value::F32(b) => ValueView::F32(*b),
            Value::Counter(n) => ValueView::Counter(*n),
            Value::Timestamp(n) => ValueView::Timestamp(*n),
            Value::Boolean(b) => ValueView::Boolean(*b),
            Value::Null => ValueView::Null,
        }
    }
}

/// The signed integer with the same 64 bits as `n`.
pub open spec fn reinterpret_u64(n: u64) -> i64 {
    if n <= i64::MAX {
        n as i64
    } else {
        (n - 0x1_0000_0000_0000_0000) as i64
    }
}

/// The integer nearest to zero-ward of `mant * 2^e`, negated if `negative`,
/// and held to the range of `i64`.
pub open spec fn scaled_to_i64(negative: bool, mant: int, e: int) -> i64 {
    let mag: int = if e >= 0 {
        mant * pow2(e as nat)
    } else {
        mant / (pow2((-e) as nat) as int)
    };
    if negative {
        if mag >= 0x8000_0000_0000_0000 {
            i64::MIN
        } else {
            (-mag) as i64
        }
    } else {
        if mag > i64::MAX {
            i64::MAX
        } else {
            mag as i64
        }
    }
}

/// The integer that a double with these bits is cast to: truncated towards
/// zero, held to the range of `i64`, zero for a NaN.
pub open spec fn f64_bits_to_i64(bits: u64) -> i64 {
    let negative = bits >= 0x8000_0000_0000_0000;
    let exp = (bits / 0x10_0000_0000_0000) % 0x800;
    let frac = bits % 0x10_0000_0000_0000;
    if exp == 0x7ff {
        if frac != 0 {
            0
        } else if negative {
            i64::MIN
        } else {
            i64::MAX
        }
    } else if exp == 0 {
        scaled_to_i64(negative, frac as int, -1074)
    } else {
        scaled_to_i64(negative, frac + 0x10_0000_0000_0000, exp - 1075)
    }
}

/// The integer that a single-precision float with these bits is cast to.
pub open spec fn f32_bits_to_i64(bits: u32) -> i64 {
    let negative = bits >= 0x8000_0000;
    let exp = (bits / 0x80_0000) % 0x100;
    let frac = bits % 0x80_0000;
    if exp == 0xff {
        if frac != 0 {
            0
        } else if negative {
            i64::MIN
        } else {
            i64::MAX
        }
    } else if exp == 0 {
        scaled_to_i64(negative, frac as int, -149)
    } else {
        scaled_to_i64(negative, frac + 0x80_0000, exp - 150)
    }
}

/// What `Value::to_i64` returns.
pub open spec fn value_to_i64(v: ValueView) -> Option<i64> {
    match v {
        ValueView::Int(n) => Some(n),
        ValueView::Uint(n) => Some(reinterpret_u64(n)),
        ValueView::F32(b) => Some(f32_bits_to_i64(b)),
        ValueView::F64(b) => Some(f64_bits_to_i64(b)),
        ValueView::Counter(n) => Some(n),
        ValueView::Timestamp(n) => Some(n),
        _ => None,
    }
}

/// What `Value::from` returns: the value read as its data type asks.
pub open spec fn value_from(val: Option<ValueView>, datatype: Option<DataType>) -> Option<
    ValueView,
> {
    match datatype {
        Some(DataType::Counter) => match val {
            Some(v) => match value_to_i64(v) {
                Some(n) => Some(ValueView::Counter(n)),
                None => None,
            },
            None => None,
        },
        Some(DataType::Timestamp) => match val {
            Some(v) => match value_to_i64(v) {
                Some(n) => Some(ValueView::Timestamp(n)),
                None => None,
            },
            None => None,
        },
        _ => val,
    }
}

/// The view of an optional value.
pub open spec fn opt_value_view(v: Option<Value>) -> Option<ValueView> {
    match v {
        Some(x) => Some(x@),
        None => None,
    }
}

/// Two to the power of `k`.
fn power_of_two(k: u32) -> (p: u64)
    requires
        k <= 62,
    ensures
        p == pow2(k as nat),
        p <= 0x4000_0000_0000_0000,
{
    let mut p: u64 = 1;
    let mut i: u32 = 0;
    proof {
        lemma2_to64();
        lemma2_to64_rest();
    }
    while i < k
        invariant
            i <= k <= 62,
            p == pow2(i as nat),
            pow2(62) == 0x4000_0000_0000_0000,
        decreases k - i,
    {
        proof {
            lemma_pow2_unfold((i + 1) as nat);
            if i + 1 < 62 {
                lemma_pow2_strictly_increases((i + 1) as nat, 62);
            }
        }
        p = p * 2;
        i = i + 1;
    }
    proof {
        if k < 62 {
            lemma_pow2_strictly_increases(k as nat, 62);
        }
    }
    p
}

/// The integer part of `mant * 2^e`, negated if `negative`, held to the range of `i64`.
fn scale_to_i64(negative: bool, mant: u64, e: i32) -> (r: i64)
    requires
        mant < 0x20_0000_0000_0000,
        -1100 <= e <= 1100,
    ensures
        r == scaled_to_i64(negative, mant as int, e as int),
{
    // The magnitude, held at 2^63 when it is that or more.
    let top: u64 = 0x8000_0000_0000_0000;
    let mag: u64;
    proof {
        lemma2_to64();
        lemma2_to64_rest();
    }
    if e >= 0 {
        if mant == 0 {
            mag = 0;
            assert(mant * pow2(e as nat) == 0) by (nonlinear_arith)
                requires
                    mant == 0,
            ;
        } else if e >= 63 {
            mag = top;
            proof {
                if e > 63 {
                    lemma_pow2_strictly_increases(63, e as nat);
                }
                assert(mant * pow2(e as nat) >= 0x8000_0000_0000_0000) by (nonlinear_arith)
                    requires
                        mant >= 1,
                        pow2(e as nat) >= 0x8000_0000_0000_0000,
                ;
            }
        } else {
            let p = power_of_two(e as u32);
            assert(mant * p < 0x8_0000_0000_0000_0000_0000_0000_0000) by (nonlinear_arith)
                requires
                    mant < 0x20_0000_0000_0000,
                    p <= 0x4000_0000_0000_0000,
            ;
            let prod: u128 = (mant as u128) * (p as u128);
            if prod >= 0x8000_0000_0000_0000 {
                mag = top;
            } else {
                mag = prod as u64;
            }
        }
    } else {
        let sh: i32 = -e;
        if sh >= 53 {
            mag = 0;
            proof {
                if sh > 53 {
                    lemma_pow2_strictly_increases(53, sh as nat);
                }
                assert(pow2(53) == 0x20_0000_0000_0000);
                let d = pow2(sh as nat) as int;
                assert((mant as int) / d == 0) by (nonlinear_arith)
                    requires
                        0 <= mant < d,
                ;
            }
        } else {
            let p = power_of_two(sh as u32);
            mag = mant / p;
        }
    }
    if negative {
        if mag >= top {
            i64::MIN
        } else {
            -(mag as i64)
        }
    } else {
        if mag >= top {
            i64::MAX
        } else {
            mag as i64
        }
    }
}

/// Casts the double with the given bits to `i64`.
pub fn f64_to_i64(bits: u64) -> (r: i64)
    ensures
        r == f64_bits_to_i64(bits),
{
    let negative = bits >= 0x8000_0000_0000_0000;
    let exp: u64 = (bits / 0x10_0000_0000_0000) % 0x800;
    let frac: u64 = bits % 0x10_0000_0000_0000;
    if exp == 0x7ff {
        if frac != 0 {
            0
        } else if negative {
            i64::MIN
        } else {
            i64::MAX
        }
    } else if exp == 0 {
        scale_to_i64(negative, frac, -1074)
    } else {
        scale_to_i64(negative, frac + 0x10_0000_0000_0000, (exp as i32) - 1075)
    }
}

/// Casts the single-precision float with the given bits to `i64`.
pub fn f32_to_i64(bits: u32) -> (r: i64)
    ensures
        r == f32_bits_to_i64(bits),
{
    let negative = bits >= 0x8000_0000;
    let exp: u32 = (bits / 0x80_0000) % 0x100;
    let frac: u32 = bits % 0x80_0000;
    if exp == 0xff {
        if frac != 0 {
            0
        } else if negative {
            i64::MIN
        } else {
            i64::MAX
        }
    } else if exp == 0 {
        scale_to_i64(negative, frac as u64, -149)
    } else {
        scale_to_i64(negative, (frac + 0x80_0000) as u64, (exp as i32) - 150)
    }
}

impl Value {
    /// Reads `val` as `datatype` asks: a counter or a timestamp is made from
    /// any value that has an integer reading, and from no other.
    pub fn from(val: Option<Value>, datatype: Option<DataType>) -> (r: Option<Value>)
        ensures
            opt_value_view(r) == value_from(opt_value_view(val), datatype),
    {
        match datatype {
            Some(DataType::Counter) => match val {
                Some(v) => match v.to_i64() {
                    Some(n) => Some(Value::Counter(n)),
                    None => None,
                },
                None => None,
            },
            Some(DataType::Timestamp) => match val {
                Some(v) => match v.to_i64() {
                    Some(n) => Some(Value::Timestamp(n)),
                    None => None,
                },
                None => None,
            },
            _ => val,
        }
    }

    /// If this value can be read as an `i64`, that reading.
    pub fn to_i64(&self) -> (r: Option<i64>)
        ensures
            r == value_to_i64(self@),
    {
        match self {
            Value::Int(n) => Some(*n),
            Value::Uint(n) => {
                if *n <= 0x7fff_ffff_ffff_ffff {
                    Some(*n as i64)
                } else {
                    Some(((*n - 0x8000_0000_0000_0000) as i64) + i64::MIN)
                }
            },
            Value::F32(b) => Some(f32_to_i64(*b)),
            Value::F64(b) => Some(f64_to_i64(*b)),
            Value::Counter(n) => Some(*n),
            Value::Timestamp(n) => Some(*n),
            _ => None,
        }
    }

    /// A copy that holds the same value.
    pub fn duplicate(&self) -> (r: Value)
        ensures
            r@ == self@,
    {
        match self {
            Value::Str(s) => Value::Str(s.clone()),
            Value::Int(n) => Value::Int(*n),
            Value::Uint(n) => Value::Uint(*n),
            Value::F64(b) => Value::F64(*b),
            Value::F32(b) => Value::F32(*b),
            Value::Counter(n) => Value::Counter(*n),
            Value::Timestamp(n) => Value::Timestamp(*n),
            Value::Boolean(b) => Value::Boolean(*b),
            Value::Null => Value::Null,
        }
    }
}

} // verus!
