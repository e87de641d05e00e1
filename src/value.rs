//! Values of the language and their canonical text.
use vstd::prelude::*;
use crate::text::append_chars;
use crate::bigint::BigInt;

verus! {

/// Number of fractional decimal digits a decimal value carries.
pub const FRACTION_DIGITS: u32 = 9;

/// The unit of a decimal value: its payload counts billionths.
pub const DECIMAL_UNIT: i128 = 1_000_000_000;

/// Errors a program can run into.
#[derive(Debug, Clone, Copy, PartialEq, Eq, Structural)]
pub enum ProgramError {
    InvalidOperation,
    IncompleteList,
    IncompleteString,
    IncompleteQuotation,
    StackEmpty,
    ExpectedBool,
    ExpectedList,
    ExpectedNumber,
    ExpectedString,
    /// Evaluations nested deeper than the interpreter allows.
    RecursionLimit,
}

/// The mathematical model of a value.
pub enum Term {
    Int(int),
    Float(i128),
    Boolean(bool),
    List(Seq<Term>),
    Text(Seq<char>),
    Quotation(Seq<char>),
}

/// A value of the language.
#[derive(Debug)]
pub enum Value {
    /// A signed integer of any size.
    Int(BigInt),
    /// A decimal number with nine fractional digits, held as a count of billionths.
    Float(i128),
    Boolean(bool),
    List(Vec<Value>),
    /// Text, without white space at either end.
    Text(Vec<char>),
    /// Unevaluated program text.
    Quotation(Vec<char>),
}

pub open spec fn digit_char(d: nat) -> char {
    if d == 0 { '0' }
    else if d == 1 { '1' }
    else if d == 2 { '2' }
    else if d == 3 { '3' }
    else if d == 4 { '4' }
    else if d == 5 { '5' }
    else if d == 6 { '6' }
    else if d == 7 { '7' }
    else if d == 8 { '8' }
    else { '9' }
}

/// Decimal digits of `n`, most significant first, without leading zeros.
pub open spec fn digits_of(n: nat) -> Seq<char>
    decreases n,
{
    if n < 10 {
        seq![digit_char(n)]
    } else {
        digits_of(n / 10).push(digit_char(n % 10))
    }
}

/// The last `w` decimal digits of `n`, padded with zeros on the left.
pub open spec fn padded_digits(n: nat, w: nat) -> Seq<char>
    decreases w,
{
    if w == 0 {
        Seq::empty()
    } else {
        padded_digits(n / 10, (w - 1) as nat).push(digit_char(n % 10))
    }
}

/// The fractional digits `n` of width `w`, trailing zeros removed but one digit kept.
pub open spec fn fraction_text(n: nat, w: nat) -> Seq<char>
    decreases w,
{
    if w > 1 && n % 10 == 0 {
        fraction_text(n / 10, (w - 1) as nat)
    } else {
        padded_digits(n, w)
    }
}

pub open spec fn abs(i: int) -> nat {
    if i < 0 { (-i) as nat } else { i as nat }
}

pub open spec fn sign_text(i: int) -> Seq<char> {
    if i < 0 { seq!['-'] } else { Seq::empty() }
}

/// Plain decimal text of an integer.
pub open spec fn int_text(i: int) -> Seq<char> {
    sign_text(i) + digits_of(abs(i))
}

/// Text of a decimal number given in billionths: at least one fractional digit.
pub open spec fn float_text(u: int) -> Seq<char> {
    sign_text(u) + digits_of(abs(u) / (DECIMAL_UNIT as nat)) + seq!['.']
        + fraction_text(abs(u) % (DECIMAL_UNIT as nat), FRACTION_DIGITS as nat)
}

pub open spec fn bool_text(b: bool) -> Seq<char> {
    if b { seq!['T', 'r', 'u', 'e'] } else { seq!['F', 'a', 'l', 's', 'e'] }
}

/// Canonical text of a value.
pub open spec fn text_of(v: Term) -> Seq<char>
    decreases v,
{
    match v {
        Term::Int(i) => int_text(i),
        Term::Float(u) => float_text(u as int),
        Term::Boolean(b) => bool_text(b),
        Term::List(l) => {
            if l.len() == 0 {
                seq!['[', ' ', ']']
            } else {
                seq!['['] + items_text(l) + seq![']']
            }
        },
        Term::Text(s) => seq!['"', ' '] + s + seq![' ', '"'],
        Term::Quotation(s) => s,
    }
}

/// Texts of the values, joined by commas.
pub open spec fn items_text(s: Seq<Term>) -> Seq<char>
    decreases s,
{
    if s.len() == 0 {
        Seq::empty()
    } else if s.len() == 1 {
        text_of(s[0])
    } else {
        items_text(s.drop_last()) + seq![','] + text_of(s.last())
    }
}


/// The model of a value.
pub open spec fn model(v: Value) -> Term
    decreases v,
{
    match v {
        Value::Int(i) => Term::Int(i.value()),
        Value::Float(u) => Term::Float(u),
        Value::Boolean(b) => Term::Boolean(b),
        Value::List(l) => Term::List(models(l@)),
        Value::Text(s) => Term::Text(s@),
        Value::Quotation(s) => Term::Quotation(s@),
    }
}

/// The models of a sequence of values.
pub open spec fn models(s: Seq<Value>) -> Seq<Term>
    decreases s,
{
    if s.len() == 0 {
        Seq::empty()
    } else {
        models(s.drop_last()).push(model(s.last()))
    }
}

impl View for Value {
    type V = Term;

    open spec fn view(&self) -> Term {
        model(*self)
    }
}

pub proof fn lemma_models(s: Seq<Value>)
    ensures
        models(s).len() == s.len(),
        forall|i: int| 0 <= i < s.len() ==> #[trigger] models(s)[i] == model(s[i]),
    decreases s.len(),
{
    if s.len() > 0 {
        lemma_models(s.drop_last());
    }
}

pub proof fn lemma_models_push(s: Seq<Value>, v: Value)
    ensures
        models(s.push(v)) == models(s).push(model(v)),
{
    assert(s.push(v).drop_last() =~= s);
}

pub proof fn lemma_models_concat(a: Seq<Value>, b: Seq<Value>)
    ensures
        models(a + b) == models(a) + models(b),
    decreases b.len(),
{
    if b.len() == 0 {
        assert(a + b =~= a);
        assert(models(a) + models(b) =~= models(a));
    } else {
        lemma_models_concat(a, b.drop_last());
        assert((a + b).drop_last() =~= a + b.drop_last());
        assert(models(a) + models(b) =~= (models(a) + models(b.drop_last())).push(model(b.last())));
    }
}

/// Number of nodes in a value's tree.
pub open spec fn value_size(v: Value) -> nat
    decreases v,
{
    match v {
        Value::List(l) => 1 + items_size(l@),
        _ => 1,
    }
}

pub open spec fn items_size(s: Seq<Value>) -> nat
    decreases s,
{
    if s.len() == 0 {
        0
    } else {
        items_size(s.drop_last()) + value_size(s.last())
    }
}

/// An item of a list is smaller than all the items together.
pub proof fn lemma_item_smaller(s: Seq<Value>, i: int)
    requires
        0 <= i < s.len(),
    ensures
        value_size(s[i]) <= items_size(s),
    decreases s.len(),
{
    if i < s.len() - 1 {
        lemma_item_smaller(s.drop_last(), i);
    }
}

/// The character of a decimal digit.
pub fn digit_to_char(d: u128) -> (c: char)
    requires
        d < 10,
    ensures
        c == digit_char(d as nat),
{
    if d == 0 { '0' }
    else if d == 1 { '1' }
    else if d == 2 { '2' }
    else if d == 3 { '3' }
    else if d == 4 { '4' }
    else if d == 5 { '5' }
    else if d == 6 { '6' }
    else if d == 7 { '7' }
    else if d == 8 { '8' }
    else { '9' }
}

/// Magnitude of a signed integer, without overflow at the most negative value.
pub fn magnitude(i: i128) -> (r: u128)
    ensures
        r as int == abs(i as int),
{
    if i < 0 {
        ((-(i + 1)) as u128) + 1
    } else {
        i as u128
    }
}

fn push_digits(out: &mut Vec<char>, n: u128)
    ensures
        final(out)@ == old(out)@ + digits_of(n as nat),
    decreases n,
{
    if n < 10 {
        out.push(digit_to_char(n));
        assert(final(out)@ =~= old(out)@ + digits_of(n as nat));
    } else {
        push_digits(out, n / 10);
        out.push(digit_to_char(n % 10));
        assert(final(out)@ =~= old(out)@ + digits_of(n as nat));
    }
}

fn push_padded(out: &mut Vec<char>, n: u128, w: u32)
    ensures
        final(out)@ == old(out)@ + padded_digits(n as nat, w as nat),
    decreases w,
{
    if w == 0 {
        assert(final(out)@ =~= old(out)@ + padded_digits(n as nat, w as nat));
    } else {
        push_padded(out, n / 10, w - 1);
        out.push(digit_to_char(n % 10));
        assert(final(out)@ =~= old(out)@ + padded_digits(n as nat, w as nat));
    }
}

fn push_fraction(out: &mut Vec<char>, n: u128, w: u32)
    ensures
        final(out)@ == old(out)@ + fraction_text(n as nat, w as nat),
    decreases w,
{
    if w > 1 && n % 10 == 0 {
        push_fraction(out, n / 10, w - 1);
    } else {
        push_padded(out, n, w);
    }
}

fn push_sign(out: &mut Vec<char>, i: i128)
    ensures
        final(out)@ == old(out)@ + sign_text(i as int),
{
    if i < 0 {
        out.push('-');
    }
    assert(final(out)@ =~= old(out)@ + sign_text(i as int));
}

/// Appends the canonical text of `v` to `out`.
pub fn write_value(out: &mut Vec<char>, v: &Value)
    ensures
        final(out)@ == old(out)@ + text_of(v@),
    decreases value_size(*v),
{
    match v {
        Value::Int(i) => {
            i.write_text(out);
        },
        Value::Float(u) => {
            let m = magnitude(*u);
            push_sign(out, *u);
            push_digits(out, m / (DECIMAL_UNIT as u128));
            out.push('.');
            push_fraction(out, m % (DECIMAL_UNIT as u128), FRACTION_DIGITS);
            assert(final(out)@ =~= old(out)@ + text_of(v@));
        },
        Value::Boolean(b) => {
            if *b {
                out.push('T');
                out.push('r');
                out.push('u');
                out.push('e');
            } else {
                out.push('F');
                out.push('a');
                out.push('l');
                out.push('s');
                out.push('e');
            }
            assert(final(out)@ =~= old(out)@ + text_of(v@));
        },
        Value::List(l) => {
            out.push('[');
            proof {
                lemma_models(l@);
            }
            if l.len() == 0 {
                out.push(' ');
            } else {
                let ghost start = out@;
                let mut i: usize = 0;
                while i < l.len()
                    invariant
                        i <= l@.len(),
                        l@.len() > 0,
                        *v == Value::List(*l),
                        out@ == start + items_text(models(l@).subrange(0, i as int)),
                    decreases l@.len() - i,
                {
                    if i > 0 {
                        out.push(',');
                    }
                    proof {
                        lemma_item_smaller(l@, i as int);
                    }
                    write_value(out, &l[i]);
                    proof {
                        lemma_models(l@);
                        let s = models(l@).subrange(0, i + 1);
                        assert(s.drop_last() =~= models(l@).subrange(0, i as int));
                        assert(s.last() == model(l@[i as int]));
                        if i == 0 {
                            assert(items_text(models(l@).subrange(0, i as int)) =~= Seq::empty());
                        }
                    }
                    i = i + 1;
                    assert(out@ =~= start + items_text(models(l@).subrange(0, i as int)));
                }
                proof {
                    lemma_models(l@);
                }
                assert(models(l@).subrange(0, i as int) =~= models(l@));
            }
            out.push(']');
            assert(final(out)@ =~= old(out)@ + text_of(v@));
        },
        Value::Text(s) => {
            out.push('"');
            out.push(' ');
            append_chars(out, s);
            out.push(' ');
            out.push('"');
            assert(final(out)@ =~= old(out)@ + text_of(v@));
        },
        Value::Quotation(s) => {
            append_chars(out, s);
        },
    }
}

/// A copy of `v`.
pub fn copy_value(v: &Value) -> (r: Value)
    ensures
        r@ == v@,
    decreases value_size(*v),
{
    match v {
        Value::Int(i) => Value::Int(i.copy()),
        Value::Float(u) => Value::Float(*u),
        Value::Boolean(b) => Value::Boolean(*b),
        Value::List(l) => {
            let mut items: Vec<Value> = Vec::new();
            let mut i: usize = 0;
            while i < l.len()
                invariant
                    i <= l@.len(),
                    *v == Value::List(*l),
                    models(items@) == models(l@.subrange(0, i as int)),
                decreases l@.len() - i,
            {
                proof {
                    lemma_item_smaller(l@, i as int);
                }
                let c = copy_value(&l[i]);
                let ghost prev = items@;
                items.push(c);
                proof {
                    assert(items@.drop_last() =~= prev);
                    let t = l@.subrange(0, i + 1);
                    assert(t.drop_last() =~= l@.subrange(0, i as int));
                    assert(t.last() == l@[i as int]);
                }
                i = i + 1;
            }
            assert(l@.subrange(0, i as int) =~= l@);
            Value::List(items)
        },
        Value::Text(s) => Value::Text(s.clone()),
        Value::Quotation(s) => Value::Quotation(s.clone()),
    }
}

/// The canonical text of `v`.
pub fn format_value(v: &Value) -> (r: Vec<char>)
    ensures
        r@ == text_of(v@),
{
    let mut out: Vec<char> = Vec::new();
    write_value(&mut out, v);
    assert(out@ =~= text_of(v@));
    out
}

} // verus!
