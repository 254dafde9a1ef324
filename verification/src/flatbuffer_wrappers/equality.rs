//! When two values are equal.
//!
//! Floating-point numbers, which are held as bits, compare as numbers: a value that is not a
//! number equals nothing, and the two zeros are equal.

use bytes::Bytes;
use vstd::prelude::*;
use vstd::std_specs::cmp::{PartialEqSpec, PartialEqSpecImpl};

use super::function_types::{ParameterValue, ReturnValue, ValueView};
use super::values;
use crate::octets;
use crate::text::same_text;

verus! {

/// The bits of an f32 that is not a number.
pub open spec fn float_nan(bits: u32) -> bool {
    bits % 0x8000_0000 > 0x7f80_0000
}

/// The bits of an f64 that is not a number.
pub open spec fn double_nan(bits: u64) -> bool {
    bits % 0x8000_0000_0000_0000 > 0x7ff0_0000_0000_0000
}

/// Whether two f32, given by their bits, are equal.
pub open spec fn float_eq(a: u32, b: u32) -> bool {
    &&& !float_nan(a)
    &&& !float_nan(b)
    &&& a == b || (a % 0x8000_0000 == 0 && b % 0x8000_0000 == 0)
}

/// Whether two f64, given by their bits, are equal.
pub open spec fn double_eq(a: u64, b: u64) -> bool {
    &&& !double_nan(a)
    &&& !double_nan(b)
    &&& a == b || (a % 0x8000_0000_0000_0000 == 0 && b % 0x8000_0000_0000_0000 == 0)
}

/// Whether two parameters are equal. Chunks are compared one by one.
pub open spec fn parameter_eq(a: ParameterValue, b: ParameterValue) -> bool {
    match (a, b) {
        (ParameterValue::Int(x), ParameterValue::Int(y)) => x == y,
        (ParameterValue::UInt(x), ParameterValue::UInt(y)) => x == y,
        (ParameterValue::Long(x), ParameterValue::Long(y)) => x == y,
        (ParameterValue::ULong(x), ParameterValue::ULong(y)) => x == y,
        (ParameterValue::Float(x), ParameterValue::Float(y)) => float_eq(x, y),
        (ParameterValue::Double(x), ParameterValue::Double(y)) => double_eq(x, y),
        (ParameterValue::String(x), ParameterValue::String(y)) => x@ == y@,
        (ParameterValue::Bool(x), ParameterValue::Bool(y)) => x == y,
        (ParameterValue::VecBytes(x), ParameterValue::VecBytes(y)) => x@ == y@,
        (ParameterValue::ByteChunks(x), ParameterValue::ByteChunks(y)) => octets::all_octets(x@)
            == octets::all_octets(y@),
        _ => false,
    }
}

/// Whether two return values are equal. Chunks are compared one by one.
pub open spec fn return_eq(a: ReturnValue, b: ReturnValue) -> bool {
    match (a, b) {
        (ReturnValue::Int(x), ReturnValue::Int(y)) => x == y,
        (ReturnValue::UInt(x), ReturnValue::UInt(y)) => x == y,
        (ReturnValue::Long(x), ReturnValue::Long(y)) => x == y,
        (ReturnValue::ULong(x), ReturnValue::ULong(y)) => x == y,
        (ReturnValue::Float(x), ReturnValue::Float(y)) => float_eq(x, y),
        (ReturnValue::Double(x), ReturnValue::Double(y)) => double_eq(x, y),
        (ReturnValue::String(x), ReturnValue::String(y)) => x@ == y@,
        (ReturnValue::Bool(x), ReturnValue::Bool(y)) => x == y,
        (ReturnValue::Void, ReturnValue::Void) => true,
        (ReturnValue::VecBytes(x), ReturnValue::VecBytes(y)) => x@ == y@,
        (ReturnValue::ByteChunks(x), ReturnValue::ByteChunks(y)) => octets::all_octets(x@)
            == octets::all_octets(y@),
        _ => false,
    }
}

/// Compare two f32 by their bits.
fn same_float(a: u32, b: u32) -> (equal: bool)
    ensures
        equal == float_eq(a, b),
{
    let x: u32 = a % 0x8000_0000;
    let y: u32 = b % 0x8000_0000;
    x <= 0x7f80_0000 && y <= 0x7f80_0000 && (a == b || (x == 0 && y == 0))
}

/// Compare two f64 by their bits.
fn same_double(a: u64, b: u64) -> (equal: bool)
    ensures
        equal == double_eq(a, b),
{
    let x: u64 = a % 0x8000_0000_0000_0000;
    let y: u64 = b % 0x8000_0000_0000_0000;
    x <= 0x7ff0_0000_0000_0000 && y <= 0x7ff0_0000_0000_0000 && (a == b || (x == 0 && y == 0))
}

fn same_bytes(a: &[u8], b: &[u8]) -> (equal: bool)
    ensures
        equal == (a@ == b@),
{
    if a.len() != b.len() {
        return false;
    }
    let mut i: usize = 0;
    while i < a.len()
        invariant
            a@.len() == b@.len(),
            i <= a@.len(),
            forall|k: int| 0 <= k < i ==> a@[k] == b@[k],
        decreases a@.len() - i,
    {
        if a[i] != b[i] {
            return false;
        }
        i += 1;
    }
    proof {
        assert(a@ =~= b@);
    }
    true
}

fn same_chunks(a: &[Bytes], b: &[Bytes]) -> (equal: bool)
    ensures
        equal == (octets::all_octets(a@) == octets::all_octets(b@)),
{
    let ghost x = octets::all_octets(a@);
    let ghost y = octets::all_octets(b@);
    if a.len() != b.len() {
        proof {
            assert(x.len() != y.len());
        }
        return false;
    }
    let mut i: usize = 0;
    while i < a.len()
        invariant
            x == octets::all_octets(a@),
            y == octets::all_octets(b@),
            a@.len() == b@.len(),
            i <= a@.len(),
            forall|k: int| 0 <= k < i ==> x[k] == y[k],
        decreases a@.len() - i,
    {
        if !same_bytes(octets::bytes_as_slice(&a[i]), octets::bytes_as_slice(&b[i])) {
            proof {
                assert(x[i as int] != y[i as int]);
            }
            return false;
        }
        i += 1;
    }
    proof {
        assert(x =~= y);
    }
    true
}

impl PartialEq for ParameterValue {
    fn eq(&self, other: &ParameterValue) -> (equal: bool) {
        match (self, other) {
            (ParameterValue::Int(x), ParameterValue::Int(y)) => *x == *y,
            (ParameterValue::UInt(x), ParameterValue::UInt(y)) => *x == *y,
            (ParameterValue::Long(x), ParameterValue::Long(y)) => *x == *y,
            (ParameterValue::ULong(x), ParameterValue::ULong(y)) => *x == *y,
            (ParameterValue::Float(x), ParameterValue::Float(y)) => same_float(*x, *y),
            (ParameterValue::Double(x), ParameterValue::Double(y)) => same_double(*x, *y),
            (ParameterValue::String(x), ParameterValue::String(y)) => same_text(
                x.as_str(),
                y.as_str(),
            ),
            (ParameterValue::Bool(x), ParameterValue::Bool(y)) => *x == *y,
            (ParameterValue::VecBytes(x), ParameterValue::VecBytes(y)) => same_bytes(
                x.as_slice(),
                y.as_slice(),
            ),
            (ParameterValue::ByteChunks(x), ParameterValue::ByteChunks(y)) => same_chunks(
                x.as_slice(),
                y.as_slice(),
            ),
            _ => false,
        }
    }
}

impl PartialEqSpecImpl for ParameterValue {
    open spec fn obeys_eq_spec() -> bool {
        true
    }

    open spec fn eq_spec(&self, other: &ParameterValue) -> bool {
        parameter_eq(*self, *other)
    }
}

impl PartialEq for ReturnValue {
    fn eq(&self, other: &ReturnValue) -> (equal: bool) {
        match (self, other) {
            (ReturnValue::Int(x), ReturnValue::Int(y)) => *x == *y,
            (ReturnValue::UInt(x), ReturnValue::UInt(y)) => *x == *y,
            (ReturnValue::Long(x), ReturnValue::Long(y)) => *x == *y,
            (ReturnValue::ULong(x), ReturnValue::ULong(y)) => *x == *y,
            (ReturnValue::Float(x), ReturnValue::Float(y)) => same_float(*x, *y),
            (ReturnValue::Double(x), ReturnValue::Double(y)) => same_double(*x, *y),
            (ReturnValue::String(x), ReturnValue::String(y)) => same_text(x.as_str(), y.as_str()),
            (ReturnValue::Bool(x), ReturnValue::Bool(y)) => *x == *y,
            (ReturnValue::Void, ReturnValue::Void) => true,
            (ReturnValue::VecBytes(x), ReturnValue::VecBytes(y)) => same_bytes(
                x.as_slice(),
                y.as_slice(),
            ),
            (ReturnValue::ByteChunks(x), ReturnValue::ByteChunks(y)) => same_chunks(
                x.as_slice(),
                y.as_slice(),
            ),
            _ => false,
        }
    }
}

impl PartialEqSpecImpl for ReturnValue {
    open spec fn obeys_eq_spec() -> bool {
        true
    }

    open spec fn eq_spec(&self, other: &ReturnValue) -> bool {
        return_eq(*self, *other)
    }
}

/// Whether two values hold equal numbers, or the same text or bytes.
pub open spec fn value_eq(a: ValueView, b: ValueView) -> bool {
    match (a, b) {
        (ValueView::Float(x), ValueView::Float(y)) => float_eq(x, y),
        (ValueView::Double(x), ValueView::Double(y)) => double_eq(x, y),
        _ => a == b,
    }
}

/// What a table keeps of a value equals the value, unless that is not a number.
pub proof fn law_kept_value_is_equal(value: ValueView)
    requires
        !(value matches ValueView::Float(bits) && float_nan(bits)),
        !(value matches ValueView::Double(bits) && double_nan(bits)),
    ensures
        value_eq(values::kept(value), value),
{
}

/// Values are compared by what they hold: equal parameters hold equal values, and so do equal
/// return values; chunks are compared one by one.
pub proof fn law_values_are_compared_by_what_they_hold(
    a: ParameterValue,
    b: ParameterValue,
    c: ReturnValue,
    d: ReturnValue,
)
    ensures
        PartialEqSpec::eq_spec(&a, &b) ==> value_eq(a@, b@),
        value_eq(a@, b@) && !(a is ByteChunks) ==> PartialEqSpec::eq_spec(&a, &b),
        a is ByteChunks && a == b ==> PartialEqSpec::eq_spec(&a, &b),
        PartialEqSpec::eq_spec(&c, &d) ==> value_eq(c@, d@),
        value_eq(c@, d@) && !(c is ByteChunks) ==> PartialEqSpec::eq_spec(&c, &d),
        c is ByteChunks && c == d ==> PartialEqSpec::eq_spec(&c, &d),
{
}

} // verus!
