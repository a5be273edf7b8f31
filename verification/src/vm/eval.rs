//! The value-level semantics of SQL operators.

use vstd::prelude::*;
use crate::types::{Value, ValueV, Order, value_order, arc_chars, text_value, copy_value,
    compare_values, lemma_value_order_antisym, lemma_value_order_equal};
use crate::text::{int_text, text_int_value, int_to_text, parse_text_int, fts_spec, fts_match};
use crate::sql::ast::{BinaryOperator, UnaryOperator};
use crate::error::{KkdbError, ErrorKind};

verus! {

pub open spec fn bool_v(b: bool) -> ValueV {
    ValueV::Int(if b { 1 } else { 0 })
}

pub open spec fn in_i64(x: int) -> bool {
    i64::MIN <= x <= i64::MAX
}

/// Truth of a value in a condition: NULL is unknown, numbers are true when
/// non-zero, text by the integer at its start, blobs are false.
pub open spec fn truth(v: ValueV) -> Option<bool> {
    match v {
        ValueV::Null => None,
        ValueV::Int(i) => Some(i != 0),
        ValueV::Text(s) => Some(text_int_value(s) != 0),
        ValueV::Blob(_) => Some(false),
    }
}

/// The text of a value as used by `||` and `LENGTH`.
pub open spec fn value_text(v: ValueV) -> Seq<char> {
    match v {
        ValueV::Null => Seq::empty(),
        ValueV::Int(i) => int_text(i),
        ValueV::Text(s) => s,
        ValueV::Blob(b) => Seq::new(b.len(), |k: int| (b[k] as char)),
    }
}

/// Quotient rounded toward zero.
pub open spec fn trunc_div(x: int, d: int) -> int {
    if x == 0 { 0 }
    else if x > 0 && d > 0 { x / d }
    else if x < 0 && d < 0 { (x * -1) / (d * -1) }
    else if x < 0 { ((x * -1) / d) * -1 }
    else { (x / (d * -1)) * -1 }
}

/// Remainder with the sign of the dividend.
pub open spec fn trunc_rem(x: int, d: int) -> int {
    if x == 0 { 0 }
    else if x > 0 && d > 0 { x % d }
    else if x < 0 && d < 0 { ((x * -1) % (d * -1)) * -1 }
    else if x < 0 { ((x * -1) % d) * -1 }
    else { x % (d * -1) }
}

pub open spec fn int_result(x: int) -> Option<ValueV> {
    if in_i64(x) { Some(ValueV::Int(x)) } else { None }
}

pub open spec fn is_comparison(op: BinaryOperator) -> bool {
    match op {
        BinaryOperator::Equal | BinaryOperator::NotEqual | BinaryOperator::LessThan
        | BinaryOperator::LessThanOrEqual | BinaryOperator::GreaterThan
        | BinaryOperator::GreaterThanOrEqual => true,
        _ => false,
    }
}

/// Whether an ordering satisfies a comparison operator.
pub open spec fn order_satisfies(op: BinaryOperator, o: Order) -> bool {
    match op {
        BinaryOperator::Equal => o == Order::Equal,
        BinaryOperator::NotEqual => o != Order::Equal,
        BinaryOperator::LessThan => o == Order::Less,
        BinaryOperator::LessThanOrEqual => o != Order::Greater,
        BinaryOperator::GreaterThan => o == Order::Greater,
        BinaryOperator::GreaterThanOrEqual => o != Order::Less,
        _ => false,
    }
}

/// Result of `a op b`; `None` when an integer result does not fit in 64 bits.
pub open spec fn binop_spec(op: BinaryOperator, a: ValueV, b: ValueV) -> Option<ValueV> {
    match op {
        BinaryOperator::And => Some(
            if truth(a) == Some(false) || truth(b) == Some(false) { bool_v(false) }
            else if truth(a) == Some(true) && truth(b) == Some(true) { bool_v(true) }
            else { ValueV::Null }),
        BinaryOperator::Or => Some(
            if truth(a) == Some(true) || truth(b) == Some(true) { bool_v(true) }
            else if truth(a) == Some(false) && truth(b) == Some(false) { bool_v(false) }
            else { ValueV::Null }),
        _ => {
            if a is Null || b is Null {
                Some(ValueV::Null)
            } else {
                match op {
                    BinaryOperator::Xor => Some(bool_v(truth(a) != truth(b))),
                    BinaryOperator::Concat => Some(ValueV::Text(value_text(a) + value_text(b))),
                    BinaryOperator::FtsMatch => match (a, b) {
                        (ValueV::Text(x), ValueV::Text(y)) => Some(bool_v(fts_spec(x, y))),
                        _ => Some(bool_v(false)),
                    },
                    _ => {
                        if is_comparison(op) {
                            Some(bool_v(order_satisfies(op, value_order(a, b))))
                        } else {
                            match (a, b) {
                                (ValueV::Int(x), ValueV::Int(y)) => int_binop_spec(op, x, y),
                                _ => Some(ValueV::Null),
                            }
                        }
                    },
                }
            }
        },
    }
}

/// Arithmetic and bitwise operators on two integers.
pub open spec fn int_binop_spec(op: BinaryOperator, x: int, y: int) -> Option<ValueV> {
    match op {
        BinaryOperator::Add => int_result(x + y),
        BinaryOperator::Subtract => int_result(x - y),
        BinaryOperator::Multiply => int_result(x * y),
        BinaryOperator::Divide => if y == 0 { Some(ValueV::Null) } else { int_result(trunc_div(x, y)) },
        BinaryOperator::Modulo => if y == 0 { Some(ValueV::Null) } else { int_result(trunc_rem(x, y)) },
        BinaryOperator::BitwiseAnd => Some(ValueV::Int(((x as i64) & (y as i64)) as int)),
        BinaryOperator::BitwiseOr => Some(ValueV::Int(((x as i64) | (y as i64)) as int)),
        BinaryOperator::BitwiseXor => Some(ValueV::Int(((x as i64) ^ (y as i64)) as int)),
        BinaryOperator::ShiftLeft =>
            if y < 0 { Some(ValueV::Null) }
            else if y >= 64 { Some(ValueV::Int(0)) }
            else { Some(ValueV::Int((x as i64).wrapping_shl(y as u32) as int)) },
        BinaryOperator::ShiftRight =>
            if y < 0 { Some(ValueV::Null) }
            else if y >= 64 { Some(ValueV::Int(if x < 0 { -1 } else { 0 })) }
            else { Some(ValueV::Int((x as i64).wrapping_shr(y as u32) as int)) },
        _ => Some(ValueV::Null),
    }
}

/// Result of a unary operator; `None` when negation overflows.
pub open spec fn unop_spec(op: UnaryOperator, a: ValueV) -> Option<ValueV> {
    match op {
        UnaryOperator::Not => Some(match truth(a) { None => ValueV::Null, Some(t) => bool_v(!t) }),
        UnaryOperator::Plus => Some(a),
        UnaryOperator::Minus => match a {
            ValueV::Int(x) => int_result(-x),
            _ => Some(ValueV::Null),
        },
        UnaryOperator::BitNot => match a {
            ValueV::Int(x) => Some(ValueV::Int((!(x as i64)) as int)),
            _ => Some(ValueV::Null),
        },
    }
}

fn overflow() -> (e: KkdbError)
    ensures e.kind == ErrorKind::Overflow, e.message@ == "integer overflow"@,
{
    KkdbError::new(ErrorKind::Overflow, "integer overflow")
}

/// Truth of a value as a condition.
pub fn truth_of(v: &Value) -> (r: Option<bool>)
    ensures r == truth(v@),
{
    match v {
        Value::Null => None,
        Value::Integer(i) => Some(*i != 0),
        Value::Text(t) => {
            let cs = arc_chars(t);
            match parse_text_int(&cs) {
                Some(x) => Some(x != 0),
                None => Some(true),
            }
        },
        Value::Blob(_) => Some(false),
    }
}

/// Whether a value counts as true in WHERE, HAVING, ON and CASE.
pub fn is_true(v: &Value) -> (r: bool)
    ensures r == (truth(v@) == Some(true)),
{
    match truth_of(v) {
        Some(b) => b,
        None => false,
    }
}

pub fn bool_value(b: bool) -> (r: Value)
    ensures r@ == bool_v(b),
{
    Value::Integer(if b { 1 } else { 0 })
}

/// The text of a value (see `value_text`).
pub fn text_of(v: &Value) -> (r: Vec<char>)
    ensures r@ == value_text(v@),
{
    match v {
        Value::Null => Vec::new(),
        Value::Integer(i) => int_to_text(*i),
        Value::Text(t) => arc_chars(t),
        Value::Blob(b) => {
            let mut out: Vec<char> = Vec::new();
            let mut k: usize = 0;
            while k < b.len()
                invariant k <= b.len(), out@.len() == k, forall|q: int| 0 <= q < k ==> #[trigger] out@[q] == (b@[q] as char),
                decreases b.len() - k,
            {
                out.push(b[k] as char);
                k += 1;
            }
            assert(out@ =~= value_text(v@));
            out
        },
    }
}

fn int_binop(op: BinaryOperator, x: i64, y: i64) -> (r: Result<Value, KkdbError>)
    ensures
        r is Ok <==> int_binop_spec(op, x as int, y as int) is Some,
        r matches Ok(v) ==> int_binop_spec(op, x as int, y as int) == Some(v@),
{
    match op {
        BinaryOperator::Add => match x.checked_add(y) { Some(z) => Ok(Value::Integer(z)), None => Err(overflow()) },
        BinaryOperator::Subtract => match x.checked_sub(y) { Some(z) => Ok(Value::Integer(z)), None => Err(overflow()) },
        BinaryOperator::Multiply => match x.checked_mul(y) { Some(z) => Ok(Value::Integer(z)), None => Err(overflow()) },
        BinaryOperator::Divide => {
            if y == 0 {
                Ok(Value::Null)
            } else {
                match x.checked_div(y) { Some(z) => Ok(Value::Integer(z)), None => Err(overflow()) }
            }
        },
        BinaryOperator::Modulo => {
            if y == 0 {
                Ok(Value::Null)
            } else if y == -1 {
                Ok(Value::Integer(0))
            } else {
                match x.checked_rem(y) { Some(z) => Ok(Value::Integer(z)), None => Err(overflow()) }
            }
        },
        BinaryOperator::BitwiseAnd => Ok(Value::Integer(x & y)),
        BinaryOperator::BitwiseOr => Ok(Value::Integer(x | y)),
        BinaryOperator::BitwiseXor => Ok(Value::Integer(x ^ y)),
        BinaryOperator::ShiftLeft => {
            if y < 0 { Ok(Value::Null) } else if y >= 64 { Ok(Value::Integer(0)) } else { Ok(Value::Integer(x.wrapping_shl(y as u32))) }
        },
        BinaryOperator::ShiftRight => {
            if y < 0 {
                Ok(Value::Null)
            } else if y >= 64 {
                Ok(Value::Integer(if x < 0 { -1 } else { 0 }))
            } else {
                Ok(Value::Integer(x.wrapping_shr(y as u32)))
            }
        },
        _ => Ok(Value::Null),
    }
}

fn compare_op(op: BinaryOperator, a: &Value, b: &Value) -> (r: Value)
    requires is_comparison(op),
    ensures r@ == bool_v(order_satisfies(op, value_order(a@, b@))),
{
    let o = compare_values(a, b);
    let res = match op {
        BinaryOperator::Equal => o == Order::Equal,
        BinaryOperator::NotEqual => o != Order::Equal,
        BinaryOperator::LessThan => o == Order::Less,
        BinaryOperator::LessThanOrEqual => o != Order::Greater,
        BinaryOperator::GreaterThan => o == Order::Greater,
        _ => o != Order::Less,
    };
    bool_value(res)
}

fn is_comparison_op(op: BinaryOperator) -> (r: bool)
    ensures r == is_comparison(op),
{
    match op {
        BinaryOperator::Equal | BinaryOperator::NotEqual | BinaryOperator::LessThan
        | BinaryOperator::LessThanOrEqual | BinaryOperator::GreaterThan
        | BinaryOperator::GreaterThanOrEqual => true,
        _ => false,
    }
}

/// Applies a binary operator to two values.
pub fn binary_op(op: BinaryOperator, a: &Value, b: &Value) -> (r: Result<Value, KkdbError>)
    ensures
        r is Ok <==> binop_spec(op, a@, b@) is Some,
        r matches Ok(v) ==> binop_spec(op, a@, b@) == Some(v@),
{
    match op {
        BinaryOperator::And => {
            let ta = truth_of(a);
            let tb = truth_of(b);
            if ta == Some(false) || tb == Some(false) {
                Ok(bool_value(false))
            } else if ta == Some(true) && tb == Some(true) {
                Ok(bool_value(true))
            } else {
                Ok(Value::Null)
            }
        },
        BinaryOperator::Or => {
            let ta = truth_of(a);
            let tb = truth_of(b);
            if ta == Some(true) || tb == Some(true) {
                Ok(bool_value(true))
            } else if ta == Some(false) && tb == Some(false) {
                Ok(bool_value(false))
            } else {
                Ok(Value::Null)
            }
        },
        _ => {
            if crate::types::is_null(a) || crate::types::is_null(b) {
                return Ok(Value::Null);
            }
            match op {
                BinaryOperator::Xor => {
                    let ta = truth_of(a);
                    let tb = truth_of(b);
                    Ok(bool_value(ta != tb))
                },
                BinaryOperator::Concat => {
                    let mut x = text_of(a);
                    let y = text_of(b);
                    let ghost x0 = x@;
                    let mut k: usize = 0;
                    while k < y.len()
                        invariant k <= y.len(), x@ == x0 + y@.take(k as int),
                        decreases y.len() - k,
                    {
                        x.push(y[k]);
                        k += 1;
                        assert(x@ =~= x0 + y@.take(k as int));
                    }
                    assert(y@.take(y.len() as int) =~= y@);
                    Ok(text_value(&x))
                },
                BinaryOperator::FtsMatch => match (a, b) {
                    (Value::Text(x), Value::Text(y)) => {
                        let xs = arc_chars(x);
                        let ys = arc_chars(y);
                        Ok(bool_value(fts_match(&xs, &ys)))
                    },
                    _ => Ok(bool_value(false)),
                },
                _ => {
                    if is_comparison_op(op) {
                        Ok(compare_op(op, a, b))
                    } else {
                        match (a, b) {
                            (Value::Integer(x), Value::Integer(y)) => int_binop(op, *x, *y),
                            _ => Ok(Value::Null),
                        }
                    }
                },
            }
        },
    }
}

/// Applies a unary operator to a value.
pub fn unary_op(op: UnaryOperator, a: &Value) -> (r: Result<Value, KkdbError>)
    ensures
        r is Ok <==> unop_spec(op, a@) is Some,
        r matches Ok(v) ==> unop_spec(op, a@) == Some(v@),
{
    match op {
        UnaryOperator::Not => match truth_of(a) {
            None => Ok(Value::Null),
            Some(t) => Ok(bool_value(!t)),
        },
        UnaryOperator::Plus => Ok(copy_value(a)),
        UnaryOperator::Minus => match a {
            Value::Integer(x) => {
                if *x == i64::MIN {
                    Err(overflow())
                } else {
                    Ok(Value::Integer(-*x))
                }
            },
            _ => Ok(Value::Null),
        },
        UnaryOperator::BitNot => match a {
            Value::Integer(x) => Ok(Value::Integer(!*x)),
            _ => Ok(Value::Null),
        },
    }
}

/// The comparison that holds after swapping its operands; `None` for other operators.
pub open spec fn flip_spec(op: BinaryOperator) -> Option<BinaryOperator> {
    match op {
        BinaryOperator::Equal => Some(BinaryOperator::Equal),
        BinaryOperator::NotEqual => Some(BinaryOperator::NotEqual),
        BinaryOperator::LessThan => Some(BinaryOperator::GreaterThan),
        BinaryOperator::LessThanOrEqual => Some(BinaryOperator::GreaterThanOrEqual),
        BinaryOperator::GreaterThan => Some(BinaryOperator::LessThan),
        BinaryOperator::GreaterThanOrEqual => Some(BinaryOperator::LessThanOrEqual),
        _ => None,
    }
}

pub fn flip_comparison(op: &BinaryOperator) -> (r: Option<BinaryOperator>)
    ensures r == flip_spec(*op),
{
    match op {
        BinaryOperator::Equal => Some(BinaryOperator::Equal),
        BinaryOperator::NotEqual => Some(BinaryOperator::NotEqual),
        BinaryOperator::LessThan => Some(BinaryOperator::GreaterThan),
        BinaryOperator::LessThanOrEqual => Some(BinaryOperator::GreaterThanOrEqual),
        BinaryOperator::GreaterThan => Some(BinaryOperator::LessThan),
        BinaryOperator::GreaterThanOrEqual => Some(BinaryOperator::LessThanOrEqual),
        _ => None,
    }
}

/// Swapping the operands of a comparison and flipping the operator gives the same result.
pub proof fn law_flip_comparison(op: BinaryOperator, a: ValueV, b: ValueV)
    requires flip_spec(op) is Some,
    ensures binop_spec(op, a, b) == binop_spec(flip_spec(op)->0, b, a),
{
    lemma_value_order_antisym(a, b);
}

/// Flipping a comparison twice gives it back.
pub proof fn law_flip_involutive(op: BinaryOperator)
    requires flip_spec(op) is Some,
    ensures flip_spec(flip_spec(op)->0) == Some(op),
{
}

/// AND and OR are commutative, also with NULL operands.
pub proof fn law_and_or_commute(a: ValueV, b: ValueV)
    ensures
        binop_spec(BinaryOperator::And, a, b) == binop_spec(BinaryOperator::And, b, a),
        binop_spec(BinaryOperator::Or, a, b) == binop_spec(BinaryOperator::Or, b, a),
{
}

/// A false operand makes AND false and a true operand makes OR true, even
/// when the other operand is NULL.
pub proof fn law_and_or_dominance(a: ValueV, b: ValueV)
    ensures
        truth(a) == Some(false) ==> binop_spec(BinaryOperator::And, a, b) == Some(bool_v(false)),
        truth(a) == Some(true) ==> binop_spec(BinaryOperator::Or, a, b) == Some(bool_v(true)),
        truth(a) == Some(true) && b is Null ==> binop_spec(BinaryOperator::And, a, b) == Some(ValueV::Null),
        truth(a) == Some(false) && b is Null ==> binop_spec(BinaryOperator::Or, a, b) == Some(ValueV::Null),
{
}

/// Every operator other than AND and OR gives NULL when an operand is NULL.
pub proof fn law_null_propagation(op: BinaryOperator, a: ValueV)
    requires op != BinaryOperator::And, op != BinaryOperator::Or,
    ensures binop_spec(op, ValueV::Null, a) == Some(ValueV::Null), binop_spec(op, a, ValueV::Null) == Some(ValueV::Null),
{
}

/// `=` on non-NULL values is true exactly for equal values.
pub proof fn law_equal_iff_same(a: ValueV, b: ValueV)
    requires !(a is Null), !(b is Null),
    ensures binop_spec(BinaryOperator::Equal, a, b) == Some(bool_v(a == b)),
{
    lemma_value_order_equal(a, b);
}

} // verus!
