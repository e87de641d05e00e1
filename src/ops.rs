//! Primitive operators on values.
use vstd::prelude::*;
use crate::value::{DECIMAL_UNIT, ProgramError, Term, Value, lemma_item_smaller, lemma_models, model, models, value_size};
use crate::bigint::BigInt;
use crate::literal::{fits_i128, int_literal, decimal_literal, parse_int_literal, parse_decimal_literal};
use crate::text::{split_spaces, split_on_spaces, texts};

verus! {

pub open spec fn is_number(t: Term) -> bool {
    t is Int || t is Float
}

/// The exact value of a number, in billionths.
pub open spec fn billionths(t: Term) -> int {
    match t {
        Term::Int(i) => i * (DECIMAL_UNIT as int),
        Term::Float(u) => u as int,
        _ => 0,
    }
}

/// A number as a decimal operand: an integer whose billionths do not fit is refused.
pub open spec fn decimal_operand(t: Term) -> Option<int> {
    if is_number(t) && fits_i128(billionths(t)) {
        Some(billionths(t))
    } else {
        None
    }
}

/// An integer result: exact, whatever its size.
pub open spec fn int_result(x: int) -> Result<Term, ProgramError> {
    Ok(Term::Int(x))
}

pub open spec fn float_result(x: int) -> Result<Term, ProgramError> {
    if fits_i128(x) {
        Ok(Term::Float(x as i128))
    } else {
        Err(ProgramError::InvalidOperation)
    }
}

/// Division truncated toward zero.
pub open spec fn trunc_div(x: int, d: int) -> int {
    if x >= 0 {
        if d > 0 { x / d } else { -(x / (-d)) }
    } else {
        if d > 0 { -((-x) / d) } else { (-x) / (-d) }
    }
}

/// Which arithmetic operator is meant.
pub enum Arith {
    Add,
    Sub,
    Mul,
}

pub open spec fn arith_int(op: Arith, a: int, b: int) -> int {
    match op {
        Arith::Add => a + b,
        Arith::Sub => a - b,
        Arith::Mul => a * b,
    }
}

/// `l + r`, `l - r`, `l * r`: integers stay integers, a decimal operand makes a decimal.
pub open spec fn arith_spec(op: Arith, l: Term, r: Term) -> Result<Term, ProgramError> {
    if !is_number(l) || !is_number(r) {
        Err(ProgramError::ExpectedNumber)
    } else if let (Term::Int(a), Term::Int(b)) = (l, r) {
        int_result(arith_int(op, a, b))
    } else {
        match (decimal_operand(l), decimal_operand(r)) {
            (Some(a), Some(b)) => match op {
                Arith::Mul => if fits_i128(a * b) {
                    float_result(trunc_div(a * b, DECIMAL_UNIT as int))
                } else {
                    Err(ProgramError::InvalidOperation)
                },
                _ => float_result(arith_int(op, a, b)),
            },
            _ => Err(ProgramError::InvalidOperation),
        }
    }
}

/// `l / r`: always a decimal.
pub open spec fn divide_spec(l: Term, r: Term) -> Result<Term, ProgramError> {
    if !is_number(l) || !is_number(r) {
        Err(ProgramError::ExpectedNumber)
    } else {
        match (decimal_operand(l), decimal_operand(r)) {
            (Some(a), Some(b)) => if b != 0 && fits_i128(a * (DECIMAL_UNIT as int)) {
                float_result(trunc_div(a * (DECIMAL_UNIT as int), b))
            } else {
                Err(ProgramError::InvalidOperation)
            },
            _ => Err(ProgramError::InvalidOperation),
        }
    }
}

/// The integer part of a number.
pub open spec fn whole_part(t: Term) -> int {
    match t {
        Term::Int(i) => i,
        Term::Float(u) => trunc_div(u as int, DECIMAL_UNIT as int),
        _ => 0,
    }
}

/// `l div r`: both operands truncated to integers, then divided toward zero.
pub open spec fn int_divide_spec(l: Term, r: Term) -> Result<Term, ProgramError> {
    if !is_number(l) || !is_number(r) {
        Err(ProgramError::ExpectedNumber)
    } else if whole_part(r) == 0 {
        Err(ProgramError::InvalidOperation)
    } else {
        int_result(trunc_div(whole_part(l), whole_part(r)))
    }
}

/// `l < r` (or `l > r` when `greater`), on the exact values.
pub open spec fn compare_spec(greater: bool, l: Term, r: Term) -> Result<Term, ProgramError> {
    if !is_number(l) || !is_number(r) {
        Err(ProgramError::ExpectedNumber)
    } else if greater {
        Ok(Term::Boolean(billionths(l) > billionths(r)))
    } else {
        Ok(Term::Boolean(billionths(l) < billionths(r)))
    }
}

/// Structural equality, numbers compared by exact value: lists are the same when they
/// have the same length and their items are the same pairwise.
pub open spec fn same(l: Term, r: Term) -> bool
    decreases l,
{
    if is_number(l) && is_number(r) {
        billionths(l) == billionths(r)
    } else {
        match (l, r) {
            (Term::Boolean(a), Term::Boolean(b)) => a == b,
            (Term::Text(a), Term::Text(b)) => a == b,
            (Term::Quotation(a), Term::Quotation(b)) => a == b,
            (Term::List(a), Term::List(b)) => a.len() == b.len() && same_items(a, b),
            _ => false,
        }
    }
}

pub open spec fn same_items(a: Seq<Term>, b: Seq<Term>) -> bool
    decreases a,
{
    if a.len() == 0 || b.len() == 0 {
        true
    } else {
        same_items(a.drop_last(), b.drop_last()) && same(a.last(), b.last())
    }
}

/// Kinds that `==` compares: numbers, truth values, texts and lists.
pub open spec fn comparable(l: Term, r: Term) -> bool {
    (is_number(l) && is_number(r)) || (l is Boolean && r is Boolean) || (l is Text && r is Text)
        || (l is List && r is List)
}

pub open spec fn equal_spec(l: Term, r: Term) -> Result<Term, ProgramError> {
    if comparable(l, r) {
        Ok(Term::Boolean(same(l, r)))
    } else {
        Err(ProgramError::InvalidOperation)
    }
}

/// Which logic operator is meant.
pub enum Logic {
    And,
    Or,
}

pub open spec fn logic_spec(op: Logic, l: Term, r: Term) -> Result<Term, ProgramError> {
    match (l, r) {
        (Term::Boolean(a), Term::Boolean(b)) => Ok(Term::Boolean(
            match op {
                Logic::And => a && b,
                Logic::Or => a || b,
            },
        )),
        _ => Err(ProgramError::ExpectedBool),
    }
}

pub open spec fn not_spec(t: Term) -> Result<Term, ProgramError> {
    match t {
        Term::Boolean(b) => Ok(Term::Boolean(!b)),
        _ => Err(ProgramError::ExpectedBool),
    }
}


pub open spec fn head_spec(t: Term) -> Result<Term, ProgramError> {
    match t {
        Term::List(l) => if l.len() > 0 { Ok(l[0]) } else { Err(ProgramError::InvalidOperation) },
        _ => Err(ProgramError::ExpectedList),
    }
}

pub open spec fn tail_spec(t: Term) -> Result<Term, ProgramError> {
    match t {
        Term::List(l) => if l.len() > 0 {
            Ok(Term::List(l.skip(1)))
        } else {
            Err(ProgramError::InvalidOperation)
        },
        _ => Err(ProgramError::ExpectedList),
    }
}

pub open spec fn empty_spec(t: Term) -> Result<Term, ProgramError> {
    match t {
        Term::List(l) => Ok(Term::Boolean(l.len() == 0)),
        _ => Err(ProgramError::ExpectedList),
    }
}

/// `x l cons`: `x` put in front of the list `l`.
pub open spec fn cons_spec(x: Term, l: Term) -> Result<Term, ProgramError> {
    match l {
        Term::List(items) => Ok(Term::List(seq![x] + items)),
        _ => Err(ProgramError::ExpectedList),
    }
}

/// `a b append`: the items of `a`, then those of `b`.
pub open spec fn append_spec(a: Term, b: Term) -> Result<Term, ProgramError> {
    match (a, b) {
        (Term::List(x), Term::List(y)) => Ok(Term::List(x + y)),
        _ => Err(ProgramError::ExpectedList),
    }
}

/// Items of a list, characters of a text, or words of a quotation.
pub open spec fn length_spec(t: Term) -> Result<Term, ProgramError> {
    match t {
        Term::List(l) => Ok(Term::Int(l.len() as int)),
        Term::Text(s) => Ok(Term::Int(s.len() as int)),
        Term::Quotation(s) => Ok(Term::Int(split_spaces(s).len() as int)),
        _ => Err(ProgramError::InvalidOperation),
    }
}

/// The space-separated pieces of a text, each a text.
pub open spec fn words_spec(t: Term) -> Result<Term, ProgramError> {
    match t {
        Term::Text(s) => Ok(Term::List(split_spaces(s).map_values(|w: Seq<char>| Term::Text(w)))),
        _ => Err(ProgramError::ExpectedString),
    }
}

pub open spec fn parse_integer_spec(t: Term) -> Result<Term, ProgramError> {
    match t {
        Term::Text(s) => match int_literal(s) {
            Some(i) => Ok(Term::Int(i)),
            None => Err(ProgramError::InvalidOperation),
        },
        _ => Err(ProgramError::ExpectedString),
    }
}

/// A text read as a decimal; a plain integer is read as a decimal too.
pub open spec fn parse_float_spec(t: Term) -> Result<Term, ProgramError> {
    match t {
        Term::Text(s) => match decimal_literal(s) {
            Some(u) => Ok(Term::Float(u)),
            None => match int_literal(s) {
                Some(i) => float_result(i * (DECIMAL_UNIT as int)),
                None => Err(ProgramError::InvalidOperation),
            },
        },
        _ => Err(ProgramError::ExpectedString),
    }
}

/// The model of an operator's outcome.
pub open spec fn lift(r: Result<Value, ProgramError>) -> Result<Term, ProgramError> {
    match r {
        Ok(v) => Ok(v@),
        Err(e) => Err(e),
    }
}

fn checked_float(x: Option<i128>) -> (r: Result<Value, ProgramError>)
    ensures
        r matches Ok(v) ==> x == Some(v->Float_0) && v is Float,
        r is Err ==> x is None && r == Err::<Value, ProgramError>(ProgramError::InvalidOperation),
{
    match x {
        Some(i) => Ok(Value::Float(i)),
        None => Err(ProgramError::InvalidOperation),
    }
}

/// A number in billionths, when that fits.
fn decimal_of(v: &Value) -> (r: Option<i128>)
    requires
        is_number(v@),
    ensures
        r matches Some(x) ==> decimal_operand(v@) == Some(x as int),
        r is None ==> decimal_operand(v@) is None,
{
    match v {
        Value::Int(i) => match i.to_i128() {
            Some(x) => x.checked_mul(DECIMAL_UNIT),
            None => None,
        },
        Value::Float(u) => Some(*u),
        _ => None,
    }
}

fn is_num(v: &Value) -> (r: bool)
    ensures
        r == is_number(v@),
{
    match v {
        Value::Int(_) | Value::Float(_) => true,
        _ => false,
    }
}

/// Division truncated toward zero, when the divisor is not zero and the result fits.
fn trunc_divide(x: i128, d: i128) -> (r: Option<i128>)
    ensures
        r == (if d != 0 && fits_i128(trunc_div(x as int, d as int)) {
            Some(trunc_div(x as int, d as int) as i128)
        } else {
            None::<i128>
        }),
{
    x.checked_div(d)
}

/// `l + r`, `l - r` or `l * r`.
pub fn arith(op: Arith, l: Value, r: Value) -> (res: Result<Value, ProgramError>)
    ensures
        lift(res) == arith_spec(op, l@, r@),
{
    if !is_num(&l) || !is_num(&r) {
        return Err(ProgramError::ExpectedNumber);
    }
    if let (Value::Int(a), Value::Int(b)) = (&l, &r) {
        return Ok(Value::Int(
            match op {
                Arith::Add => a.add(b),
                Arith::Sub => a.sub(b),
                Arith::Mul => a.mul(b),
            },
        ));
    }
    match (decimal_of(&l), decimal_of(&r)) {
        (Some(a), Some(b)) => match op {
            Arith::Add => checked_float(a.checked_add(b)),
            Arith::Sub => checked_float(a.checked_sub(b)),
            Arith::Mul => match a.checked_mul(b) {
                Some(p) => checked_float(trunc_divide(p, DECIMAL_UNIT)),
                None => Err(ProgramError::InvalidOperation),
            },
        },
        _ => Err(ProgramError::InvalidOperation),
    }
}

/// `l / r`.
pub fn divide(l: Value, r: Value) -> (res: Result<Value, ProgramError>)
    ensures
        lift(res) == divide_spec(l@, r@),
{
    if !is_num(&l) || !is_num(&r) {
        return Err(ProgramError::ExpectedNumber);
    }
    match (decimal_of(&l), decimal_of(&r)) {
        (Some(a), Some(b)) => {
            if b == 0 {
                return Err(ProgramError::InvalidOperation);
            }
            match a.checked_mul(DECIMAL_UNIT) {
                Some(p) => checked_float(trunc_divide(p, b)),
                None => Err(ProgramError::InvalidOperation),
            }
        },
        _ => Err(ProgramError::InvalidOperation),
    }
}

fn whole_of(v: &Value) -> (r: BigInt)
    requires
        is_number(v@),
    ensures
        r.value() == whole_part(v@),
{
    match v {
        Value::Int(i) => i.copy(),
        Value::Float(u) => {
            let q = trunc_divide(*u, DECIMAL_UNIT);
            match q {
                Some(w) => BigInt::from_i128(w),
                None => BigInt::from_i128(0),
            }
        },
        _ => BigInt::from_i128(0),
    }
}

/// `l div r`.
pub fn int_divide(l: Value, r: Value) -> (res: Result<Value, ProgramError>)
    ensures
        lift(res) == int_divide_spec(l@, r@),
{
    if !is_num(&l) || !is_num(&r) {
        return Err(ProgramError::ExpectedNumber);
    }
    let a = whole_of(&l);
    let b = whole_of(&r);
    match a.trunc_div(&b) {
        Some(q) => Ok(Value::Int(q)),
        None => Err(ProgramError::InvalidOperation),
    }
}

/// Orders two numbers by exact value: -1, 0 or 1.
fn order(l: &Value, r: &Value) -> (c: i8)
    requires
        is_number(l@),
        is_number(r@),
    ensures
        c == -1 <==> billionths(l@) < billionths(r@),
        c == 0 <==> billionths(l@) == billionths(r@),
        c == 1 <==> billionths(l@) > billionths(r@),
{
    match (l, r) {
        (Value::Int(a), Value::Int(b)) => a.compare(b),
        _ => match (decimal_of(l), decimal_of(r)) {
            (Some(a), Some(b)) => {
                if a < b { -1 } else if a == b { 0 } else { 1 }
            },
            (None, Some(_)) => {
                if let Value::Int(a) = l {
                    if a.is_negative() { -1 } else { 1 }
                } else {
                    0
                }
            },
            (_, None) => {
                if let Value::Int(b) = r {
                    if b.is_negative() { 1 } else { -1 }
                } else {
                    0
                }
            },
        },
    }
}

/// `l < r`, or `l > r` when `greater`.
pub fn compare(greater: bool, l: Value, r: Value) -> (res: Result<Value, ProgramError>)
    ensures
        lift(res) == compare_spec(greater, l@, r@),
{
    if !is_num(&l) || !is_num(&r) {
        return Err(ProgramError::ExpectedNumber);
    }
    let c = order(&l, &r);
    if greater {
        Ok(Value::Boolean(c == 1))
    } else {
        Ok(Value::Boolean(c == -1))
    }
}

fn same_chars(a: &Vec<char>, b: &Vec<char>) -> (r: bool)
    ensures
        r == (a@ == b@),
{
    if a.len() != b.len() {
        return false;
    }
    let mut i: usize = 0;
    while i < a.len()
        invariant
            i <= a@.len() == b@.len(),
            a@.subrange(0, i as int) == b@.subrange(0, i as int),
        decreases a@.len() - i,
    {
        if a[i] != b[i] {
            return false;
        }
        assert(a@.subrange(0, i + 1) =~= a@.subrange(0, i as int).push(a@[i as int]));
        assert(b@.subrange(0, i + 1) =~= b@.subrange(0, i as int).push(b@[i as int]));
        i = i + 1;
    }
    assert(a@.subrange(0, i as int) =~= a@);
    assert(b@.subrange(0, i as int) =~= b@);
    true
}

/// Whether two values are the same, numbers compared by exact value.
pub fn same_values(l: &Value, r: &Value) -> (b: bool)
    ensures
        b == same(l@, r@),
    decreases value_size(*l),
{
    if is_num(l) && is_num(r) {
        return order(l, r) == 0;
    }
    match (l, r) {
        (Value::Boolean(a), Value::Boolean(b)) => *a == *b,
        (Value::Text(a), Value::Text(b)) => same_chars(a, b),
        (Value::Quotation(a), Value::Quotation(b)) => same_chars(a, b),
        (Value::List(a), Value::List(b)) => {
            proof {
                lemma_models(a@);
                lemma_models(b@);
            }
            if a.len() != b.len() {
                return false;
            }
            let mut i: usize = 0;
            assert(models(a@).take(0) =~= Seq::<Term>::empty());
            while i < a.len()
                invariant
                    i <= a@.len() == b@.len(),
                    *l == Value::List(*a),
                    *r == Value::List(*b),
                    models(a@).len() == a@.len(),
                    models(b@).len() == b@.len(),
                    forall|j: int| 0 <= j < a@.len() ==> #[trigger] models(a@)[j] == model(a@[j]),
                    forall|j: int| 0 <= j < b@.len() ==> #[trigger] models(b@)[j] == model(b@[j]),
                    same_items(models(a@).take(i as int), models(b@).take(i as int)),
                decreases a@.len() - i,
            {
                proof {
                    lemma_item_smaller(a@, i as int);
                }
                let e = same_values(&a[i], &b[i]);
                if !e {
                    proof {
                        if same_items(models(a@), models(b@)) {
                            lemma_same_items_prefix(models(a@), models(b@), i as int);
                        }
                    }
                    return false;
                }
                assert(models(a@).take(i + 1).drop_last() =~= models(a@).take(i as int));
                assert(models(b@).take(i + 1).drop_last() =~= models(b@).take(i as int));
                i = i + 1;
            }
            assert(models(a@).take(i as int) =~= models(a@));
            assert(models(b@).take(i as int) =~= models(b@));
            true
        },
        _ => false,
    }
}

/// Lists that are the same agree on each item.
pub proof fn lemma_same_items_prefix(a: Seq<Term>, b: Seq<Term>, i: int)
    requires
        a.len() == b.len(),
        0 <= i < a.len(),
        same_items(a, b),
    ensures
        same(a[i], b[i]),
    decreases a.len(),
{
    if i < a.len() - 1 {
        lemma_same_items_prefix(a.drop_last(), b.drop_last(), i);
    }
}

fn comparable_values(l: &Value, r: &Value) -> (b: bool)
    ensures
        b == comparable(l@, r@),
{
    match (l, r) {
        (Value::Int(_), Value::Int(_)) | (Value::Int(_), Value::Float(_))
        | (Value::Float(_), Value::Int(_)) | (Value::Float(_), Value::Float(_))
        | (Value::Boolean(_), Value::Boolean(_)) | (Value::Text(_), Value::Text(_))
        | (Value::List(_), Value::List(_)) => true,
        _ => false,
    }
}

/// `l == r`.
pub fn equal(l: Value, r: Value) -> (res: Result<Value, ProgramError>)
    ensures
        lift(res) == equal_spec(l@, r@),
{
    if comparable_values(&l, &r) {
        Ok(Value::Boolean(same_values(&l, &r)))
    } else {
        Err(ProgramError::InvalidOperation)
    }
}

/// `l && r` or `l || r`.
pub fn logic(op: Logic, l: Value, r: Value) -> (res: Result<Value, ProgramError>)
    ensures
        lift(res) == logic_spec(op, l@, r@),
{
    match (l, r) {
        (Value::Boolean(a), Value::Boolean(b)) => Ok(Value::Boolean(
            match op {
                Logic::And => a && b,
                Logic::Or => a || b,
            },
        )),
        _ => Err(ProgramError::ExpectedBool),
    }
}

/// `not t`.
pub fn not(t: Value) -> (res: Result<Value, ProgramError>)
    ensures
        lift(res) == not_spec(t@),
{
    match t {
        Value::Boolean(b) => Ok(Value::Boolean(!b)),
        _ => Err(ProgramError::ExpectedBool),
    }
}


/// `l head`.
pub fn head(t: Value) -> (res: Result<Value, ProgramError>)
    ensures
        lift(res) == head_spec(t@),
{
    match t {
        Value::List(mut l) => {
            proof {
                lemma_models(l@);
            }
            if l.len() == 0 {
                Err(ProgramError::InvalidOperation)
            } else {
                Ok(l.remove(0))
            }
        },
        _ => Err(ProgramError::ExpectedList),
    }
}

/// `l tail`.
pub fn tail(t: Value) -> (res: Result<Value, ProgramError>)
    ensures
        lift(res) == tail_spec(t@),
{
    match t {
        Value::List(mut l) => {
            proof {
                lemma_models(l@);
            }
            if l.len() == 0 {
                Err(ProgramError::InvalidOperation)
            } else {
                let ghost before = l@;
                let _first = l.remove(0);
                proof {
                    lemma_models(l@);
                    assert(models(l@) =~= models(before).skip(1));
                }
                Ok(Value::List(l))
            }
        },
        _ => Err(ProgramError::ExpectedList),
    }
}

/// `l empty`.
pub fn empty(t: Value) -> (res: Result<Value, ProgramError>)
    ensures
        lift(res) == empty_spec(t@),
{
    match t {
        Value::List(l) => {
            proof {
                lemma_models(l@);
            }
            Ok(Value::Boolean(l.len() == 0))
        },
        _ => Err(ProgramError::ExpectedList),
    }
}

/// `x l cons`.
pub fn cons(x: Value, l: Value) -> (res: Result<Value, ProgramError>)
    ensures
        lift(res) == cons_spec(x@, l@),
{
    match l {
        Value::List(mut items) => {
            let ghost before = items@;
            let ghost m = x@;
            items.insert(0, x);
            proof {
                lemma_models(before);
                lemma_models(items@);
                assert(models(items@) =~= seq![m] + models(before));
            }
            Ok(Value::List(items))
        },
        _ => Err(ProgramError::ExpectedList),
    }
}

/// `a b append`.
pub fn append(a: Value, b: Value) -> (res: Result<Value, ProgramError>)
    ensures
        lift(res) == append_spec(a@, b@),
{
    match (a, b) {
        (Value::List(mut x), Value::List(mut y)) => {
            let ghost xs = x@;
            let ghost ys = y@;
            x.append(&mut y);
            proof {
                lemma_models(xs);
                lemma_models(ys);
                lemma_models(x@);
                assert(models(x@) =~= models(xs) + models(ys));
            }
            Ok(Value::List(x))
        },
        _ => Err(ProgramError::ExpectedList),
    }
}

/// `t length`.
pub fn length(t: Value) -> (res: Result<Value, ProgramError>)
    ensures
        lift(res) == length_spec(t@),
{
    match t {
        Value::List(l) => {
            proof {
                lemma_models(l@);
            }
            Ok(Value::Int(BigInt::from_i128(l.len() as i128)))
        },
        Value::Text(s) => Ok(Value::Int(BigInt::from_i128(s.len() as i128))),
        Value::Quotation(s) => {
            let w = split_on_spaces(&s);
            assert(texts(w@).len() == w@.len());
            Ok(Value::Int(BigInt::from_i128(w.len() as i128)))
        },
        _ => Err(ProgramError::InvalidOperation),
    }
}

/// `t words`.
pub fn words(t: Value) -> (res: Result<Value, ProgramError>)
    ensures
        lift(res) == words_spec(t@),
{
    match t {
        Value::Text(s) => {
            let w = split_on_spaces(&s);
            let ghost pieces = texts(w@);
            let mut items: Vec<Value> = Vec::new();
            let ghost target = split_spaces(s@).map_values(|p: Seq<char>| Term::Text(p));
            let n = w.len();
            let mut i: usize = 0;
            while i < n
                invariant
                    n == w@.len(),
                    i <= n,
                    pieces == texts(w@),
                    pieces == split_spaces(s@),
                    target == pieces.map_values(|p: Seq<char>| Term::Text(p)),
                    models(items@) == target.take(i as int),
                decreases n - i,
            {
                let ghost prev = items@;
                let piece = w[i].clone();
                assert(piece@ == pieces[i as int]);
                items.push(Value::Text(piece));
                proof {
                    assert(items@.drop_last() =~= prev);
                    assert(model(items@.last()) == Term::Text(pieces[i as int]));
                    assert(models(items@) == models(prev).push(Term::Text(pieces[i as int])));
                    assert(target.take(i + 1) =~= target.take(i as int).push(Term::Text(pieces[i as int])));
                }
                i = i + 1;
            }
            assert(target.take(i as int) =~= target);
            Ok(Value::List(items))
        },
        _ => Err(ProgramError::ExpectedString),
    }
}

/// `t parseInteger`.
pub fn parse_integer(t: Value) -> (res: Result<Value, ProgramError>)
    ensures
        lift(res) == parse_integer_spec(t@),
{
    match t {
        Value::Text(s) => match parse_int_literal(&s) {
            Some(i) => Ok(Value::Int(i)),
            None => Err(ProgramError::InvalidOperation),
        },
        _ => Err(ProgramError::ExpectedString),
    }
}

/// `t parseFloat`.
pub fn parse_float(t: Value) -> (res: Result<Value, ProgramError>)
    ensures
        lift(res) == parse_float_spec(t@),
{
    match t {
        Value::Text(s) => match parse_decimal_literal(&s) {
            Some(u) => Ok(Value::Float(u)),
            None => match parse_int_literal(&s) {
                Some(i) => match i.to_i128() {
                    Some(x) => checked_float(x.checked_mul(DECIMAL_UNIT)),
                    None => Err(ProgramError::InvalidOperation),
                },
                None => Err(ProgramError::InvalidOperation),
            },
        },
        _ => Err(ProgramError::ExpectedString),
    }
}

} // verus!
