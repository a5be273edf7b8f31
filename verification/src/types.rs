//! SQL values and their mathematical model.

use vstd::prelude::*;
use std::sync::Arc;

verus! {

/// A value stored in a table cell or produced by an expression.
#[derive(Debug, Clone, PartialEq)]
pub enum Value {
    Null,
    Integer(i64),
    Text(Arc<str>),
    Blob(Vec<u8>),
}

/// The mathematical model of a [`Value`].
pub enum ValueV {
    Null,
    Int(int),
    Text(Seq<char>),
    Blob(Seq<u8>),
}

/// The characters held by a shared string.
pub open spec fn arc_text(s: &Arc<str>) -> Seq<char> {
    (**s)@
}

impl View for Value {
    type V = ValueV;

    open spec fn view(&self) -> ValueV {
        match self {
            Value::Null => ValueV::Null,
            Value::Integer(i) => ValueV::Int(*i as int),
            Value::Text(t) => ValueV::Text(arc_text(t)),
            Value::Blob(b) => ValueV::Blob(b@),
        }
    }
}

/// Three-way result of an ordering comparison.
#[derive(Debug, Clone, Copy, PartialEq, Eq, Structural)]
pub enum Order {
    Less,
    Equal,
    Greater,
}

impl Order {
    pub open spec fn reverse(self) -> Order {
        match self {
            Order::Less => Order::Greater,
            Order::Equal => Order::Equal,
            Order::Greater => Order::Less,
        }
    }
}

/// Order of two integers.
pub open spec fn int_order(a: int, b: int) -> Order {
    if a < b { Order::Less } else if a == b { Order::Equal } else { Order::Greater }
}

/// Lexicographic order of two character sequences, by code point.
pub open spec fn chars_order(a: Seq<char>, b: Seq<char>) -> Order
    decreases a.len(),
{
    if a.len() == 0 {
        if b.len() == 0 { Order::Equal } else { Order::Less }
    } else if b.len() == 0 {
        Order::Greater
    } else if a[0] < b[0] {
        Order::Less
    } else if a[0] > b[0] {
        Order::Greater
    } else {
        chars_order(a.drop_first(), b.drop_first())
    }
}

/// Lexicographic order of two byte sequences.
pub open spec fn bytes_order(a: Seq<u8>, b: Seq<u8>) -> Order
    decreases a.len(),
{
    if a.len() == 0 {
        if b.len() == 0 { Order::Equal } else { Order::Less }
    } else if b.len() == 0 {
        Order::Greater
    } else if a[0] < b[0] {
        Order::Less
    } else if a[0] > b[0] {
        Order::Greater
    } else {
        bytes_order(a.drop_first(), b.drop_first())
    }
}

/// Storage class rank: NULL sorts before numbers, numbers before text, text before blobs.
pub open spec fn class_rank(v: ValueV) -> int {
    match v {
        ValueV::Null => 0,
        ValueV::Int(_) => 1,
        ValueV::Text(_) => 2,
        ValueV::Blob(_) => 3,
    }
}

/// The total order on values used by ORDER BY, DISTINCT, MIN/MAX and comparisons.
pub open spec fn value_order(a: ValueV, b: ValueV) -> Order {
    match (a, b) {
        (ValueV::Int(x), ValueV::Int(y)) => int_order(x, y),
        (ValueV::Text(x), ValueV::Text(y)) => chars_order(x, y),
        (ValueV::Blob(x), ValueV::Blob(y)) => bytes_order(x, y),
        _ => int_order(class_rank(a), class_rank(b)),
    }
}

pub proof fn lemma_chars_order_antisym(a: Seq<char>, b: Seq<char>)
    ensures chars_order(a, b) == chars_order(b, a).reverse(),
    decreases a.len(),
{
    if a.len() > 0 && b.len() > 0 && a[0] == b[0] {
        lemma_chars_order_antisym(a.drop_first(), b.drop_first());
    }
}

pub proof fn lemma_chars_order_equal(a: Seq<char>, b: Seq<char>)
    ensures chars_order(a, b) == Order::Equal <==> a == b,
    decreases a.len(),
{
    if a.len() > 0 && b.len() > 0 && a[0] == b[0] {
        lemma_chars_order_equal(a.drop_first(), b.drop_first());
        if a.drop_first() == b.drop_first() {
            assert(a =~= seq![a[0]] + a.drop_first());
            assert(b =~= seq![b[0]] + b.drop_first());
        }
    }
    if a.len() > 0 && b.len() > 0 && a == b {
        assert(a[0] == b[0]);
    }
    if a.len() == 0 && b.len() == 0 {
        assert(a =~= b);
    }
}

pub proof fn lemma_bytes_order_antisym(a: Seq<u8>, b: Seq<u8>)
    ensures bytes_order(a, b) == bytes_order(b, a).reverse(),
    decreases a.len(),
{
    if a.len() > 0 && b.len() > 0 && a[0] == b[0] {
        lemma_bytes_order_antisym(a.drop_first(), b.drop_first());
    }
}

pub proof fn lemma_bytes_order_equal(a: Seq<u8>, b: Seq<u8>)
    ensures bytes_order(a, b) == Order::Equal <==> a == b,
    decreases a.len(),
{
    if a.len() > 0 && b.len() > 0 && a[0] == b[0] {
        lemma_bytes_order_equal(a.drop_first(), b.drop_first());
        if a.drop_first() == b.drop_first() {
            assert(a =~= seq![a[0]] + a.drop_first());
            assert(b =~= seq![b[0]] + b.drop_first());
        }
    }
    if a.len() > 0 && b.len() > 0 && a == b {
        assert(a[0] == b[0]);
    }
    if a.len() == 0 && b.len() == 0 {
        assert(a =~= b);
    }
}

/// Swapping the operands of a comparison reverses its result.
pub proof fn lemma_value_order_antisym(a: ValueV, b: ValueV)
    ensures value_order(a, b) == value_order(b, a).reverse(),
{
    match (a, b) {
        (ValueV::Text(x), ValueV::Text(y)) => lemma_chars_order_antisym(x, y),
        (ValueV::Blob(x), ValueV::Blob(y)) => lemma_bytes_order_antisym(x, y),
        _ => {},
    }
}

/// Two values compare equal exactly when they are the same value.
pub proof fn lemma_value_order_equal(a: ValueV, b: ValueV)
    ensures value_order(a, b) == Order::Equal <==> a == b,
{
    match (a, b) {
        (ValueV::Text(x), ValueV::Text(y)) => lemma_chars_order_equal(x, y),
        (ValueV::Blob(x), ValueV::Blob(y)) => lemma_bytes_order_equal(x, y),
        _ => {},
    }
}

/// Lexicographic order on characters is transitive.
pub proof fn lemma_chars_order_less_trans(a: Seq<char>, b: Seq<char>, c: Seq<char>)
    requires chars_order(a, b) == Order::Less, chars_order(b, c) == Order::Less,
    ensures chars_order(a, c) == Order::Less,
    decreases a.len(),
{
    if a.len() > 0 && b.len() > 0 && c.len() > 0 && a[0] == b[0] && b[0] == c[0] {
        lemma_chars_order_less_trans(a.drop_first(), b.drop_first(), c.drop_first());
    }
}

/// Lexicographic order on bytes is transitive.
pub proof fn lemma_bytes_order_less_trans(a: Seq<u8>, b: Seq<u8>, c: Seq<u8>)
    requires bytes_order(a, b) == Order::Less, bytes_order(b, c) == Order::Less,
    ensures bytes_order(a, c) == Order::Less,
    decreases a.len(),
{
    if a.len() > 0 && b.len() > 0 && c.len() > 0 && a[0] == b[0] && b[0] == c[0] {
        lemma_bytes_order_less_trans(a.drop_first(), b.drop_first(), c.drop_first());
    }
}

/// The order on values is transitive.
pub proof fn lemma_value_order_less_trans(a: ValueV, b: ValueV, c: ValueV)
    requires value_order(a, b) == Order::Less, value_order(b, c) == Order::Less,
    ensures value_order(a, c) == Order::Less,
{
    match (a, b, c) {
        (ValueV::Text(x), ValueV::Text(y), ValueV::Text(z)) => lemma_chars_order_less_trans(x, y, z),
        (ValueV::Blob(x), ValueV::Blob(y), ValueV::Blob(z)) => lemma_bytes_order_less_trans(x, y, z),
        _ => {},
    }
}

#[verifier::external_body]
fn share_str(s: &Arc<str>) -> (r: Arc<str>)
    ensures arc_text(&r) == arc_text(s),
{
    Arc::clone(s)
}

#[verifier::external_body]
fn string_from_chars(v: &Vec<char>) -> (r: String)
    ensures r@ == v@,
{
    String::from_iter(v.iter())
}

#[verifier::external_body]
pub(crate) fn arc_from_str(s: &str) -> (r: Arc<str>)
    ensures arc_text(&r) == s@,
{
    Arc::from(s)
}

/// The characters of a string slice.
pub fn str_chars(s: &str) -> (r: Vec<char>)
    ensures r@ == s@,
{
    let mut v: Vec<char> = Vec::new();
    for c in it: s.chars()
        invariant v@ == it.seq().take(it.index() as int),
    {
        v.push(c);
    }
    v
}

/// The characters of a shared string.
pub fn arc_chars(t: &Arc<str>) -> (r: Vec<char>)
    ensures r@ == arc_text(t),
{
    let st: &str = &**t;
    str_chars(st)
}

/// A string holding the given characters.
pub fn chars_to_string(v: &Vec<char>) -> (r: String)
    ensures r@ == v@,
{
    string_from_chars(v)
}

/// A text value holding the given characters.
pub fn text_value(v: &Vec<char>) -> (r: Value)
    ensures r@ == ValueV::Text(v@),
{
    let s = string_from_chars(v);
    Value::Text(arc_from_str(s.as_str()))
}

/// A copy of a byte vector.
pub fn copy_bytes(b: &Vec<u8>) -> (r: Vec<u8>)
    ensures r@ == b@,
{
    let mut out: Vec<u8> = Vec::new();
    let mut i: usize = 0;
    while i < b.len()
        invariant i <= b.len(), out@ == b@.take(i as int),
        decreases b.len() - i,
    {
        out.push(b[i]);
        i += 1;
        assert(out@ =~= b@.take(i as int));
    }
    assert(b@.take(b.len() as int) =~= b@);
    out
}

/// A copy of a character vector.
pub fn copy_chars(b: &Vec<char>) -> (r: Vec<char>)
    ensures r@ == b@,
{
    let mut out: Vec<char> = Vec::new();
    let mut i: usize = 0;
    while i < b.len()
        invariant i <= b.len(), out@ == b@.take(i as int),
        decreases b.len() - i,
    {
        out.push(b[i]);
        i += 1;
        assert(out@ =~= b@.take(i as int));
    }
    assert(b@.take(b.len() as int) =~= b@);
    out
}

/// A copy of a value.
pub fn copy_value(v: &Value) -> (r: Value)
    ensures r@ == v@,
{
    match v {
        Value::Null => Value::Null,
        Value::Integer(i) => Value::Integer(*i),
        Value::Text(t) => Value::Text(share_str(t)),
        Value::Blob(b) => Value::Blob(copy_bytes(b)),
    }
}

/// A copy of a row of values.
pub fn copy_row(r: &Vec<Value>) -> (out: Vec<Value>)
    ensures out@.len() == r@.len(), forall|i: int| 0 <= i < r@.len() ==> #[trigger] out@[i]@ == r@[i]@,
{
    let mut out: Vec<Value> = Vec::new();
    let mut i: usize = 0;
    while i < r.len()
        invariant i <= r.len(), out@.len() == i,
            forall|k: int| 0 <= k < i ==> #[trigger] out@[k]@ == r@[k]@,
        decreases r.len() - i,
    {
        out.push(copy_value(&r[i]));
        i += 1;
    }
    out
}

/// Lexicographic comparison of character vectors.
pub fn compare_chars(a: &Vec<char>, b: &Vec<char>) -> (r: Order)
    ensures r == chars_order(a@, b@),
{
    let mut i: usize = 0;
    assert(a@.skip(0) =~= a@ && b@.skip(0) =~= b@);
    while i < a.len() && i < b.len()
        invariant
            i <= a.len(), i <= b.len(),
            chars_order(a@, b@) == chars_order(a@.skip(i as int), b@.skip(i as int)),
        decreases a.len() - i,
    {
        let x = a[i];
        let y = b[i];
        assert(a@.skip(i as int)[0] == x && b@.skip(i as int)[0] == y);
        if x < y {
            return Order::Less;
        } else if x > y {
            return Order::Greater;
        }
        assert(a@.skip(i as int).drop_first() =~= a@.skip(i + 1));
        assert(b@.skip(i as int).drop_first() =~= b@.skip(i + 1));
        i += 1;
    }
    if i < b.len() {
        Order::Less
    } else if i < a.len() {
        Order::Greater
    } else {
        Order::Equal
    }
}

/// Lexicographic comparison of byte vectors.
pub fn compare_bytes(a: &Vec<u8>, b: &Vec<u8>) -> (r: Order)
    ensures r == bytes_order(a@, b@),
{
    let mut i: usize = 0;
    assert(a@.skip(0) =~= a@ && b@.skip(0) =~= b@);
    while i < a.len() && i < b.len()
        invariant
            i <= a.len(), i <= b.len(),
            bytes_order(a@, b@) == bytes_order(a@.skip(i as int), b@.skip(i as int)),
        decreases a.len() - i,
    {
        let x = a[i];
        let y = b[i];
        assert(a@.skip(i as int)[0] == x && b@.skip(i as int)[0] == y);
        if x < y {
            return Order::Less;
        } else if x > y {
            return Order::Greater;
        }
        assert(a@.skip(i as int).drop_first() =~= a@.skip(i + 1));
        assert(b@.skip(i as int).drop_first() =~= b@.skip(i + 1));
        i += 1;
    }
    if i < b.len() {
        Order::Less
    } else if i < a.len() {
        Order::Greater
    } else {
        Order::Equal
    }
}

fn rank_of(v: &Value) -> (r: u8)
    ensures r as int == class_rank(v@),
{
    match v {
        Value::Null => 0,
        Value::Integer(_) => 1,
        Value::Text(_) => 2,
        Value::Blob(_) => 3,
    }
}

/// Compares two values in the total order of [`value_order`].
pub fn compare_values(a: &Value, b: &Value) -> (r: Order)
    ensures r == value_order(a@, b@),
{
    match (a, b) {
        (Value::Integer(x), Value::Integer(y)) => {
            if *x < *y { Order::Less } else if *x == *y { Order::Equal } else { Order::Greater }
        },
        (Value::Text(x), Value::Text(y)) => {
            let xa = arc_chars(x);
            let ya = arc_chars(y);
            compare_chars(&xa, &ya)
        },
        (Value::Blob(x), Value::Blob(y)) => compare_bytes(x, y),
        _ => {
            let ra = rank_of(a);
            let rb = rank_of(b);
            if ra < rb { Order::Less } else if ra == rb { Order::Equal } else { Order::Greater }
        },
    }
}

/// Whether two values are the same value.
pub fn values_equal(a: &Value, b: &Value) -> (r: bool)
    ensures r == (a@ == b@),
{
    proof { lemma_value_order_equal(a@, b@); }
    compare_values(a, b) == Order::Equal
}

/// Whether a value is NULL.
pub fn is_null(v: &Value) -> (r: bool)
    ensures r == (v@ is Null),
{
    match v {
        Value::Null => true,
        _ => false,
    }
}

} // verus!
