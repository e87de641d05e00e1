//! Laws of the language: canonical texts read back as the values they show, lone
//! literals evaluate to themselves, and `==` compares numbers by value.
use vstd::prelude::*;
use crate::value::{
    ProgramError, DECIMAL_UNIT, Term, abs, digit_char, digits_of, float_text,
    fraction_text, int_text, padded_digits, sign_text, text_of,
};
use crate::text::{is_blank, split_spaces, trim, trim_end, trim_start};
use crate::tokens::{is_opener, list_spec, literal_spec, plain_literal, string_body, tokens_of};
use crate::eval_spec::{eval_spec, finish_spec, reported, run_spec, step_spec};
use crate::machine::{binary_spec, primitive_spec};
use crate::ops::equal_spec;
use crate::ops::{billionths, is_number};
use crate::literal::{
    exponent_decimal, has_exponent, plain_decimal,
    all_digits, decimal_literal, digit_value, digits_value, fraction_digits,
    has_sign, int_literal, is_digit, is_negative, leading_digits, pow10, unsigned_part,
};

verus! {

proof fn lemma_digit_char(d: nat)
    requires
        d < 10,
    ensures
        is_digit(digit_char(d)),
        digit_value(digit_char(d)) == d,
{
}

/// The digits of a number read back as that number.
pub proof fn lemma_digits_round_trip(n: nat)
    ensures
        all_digits(digits_of(n)),
        digits_value(digits_of(n)) == n,
        digits_of(n).len() >= 1,
    decreases n,
{
    if n < 10 {
        lemma_digit_char(n);
        let s = digits_of(n);
        assert(s.drop_last() =~= Seq::<char>::empty());
        assert(s.last() == digit_char(n));
        assert(digits_value(s) == digits_value(s.drop_last()) * 10 + digit_value(s.last()));
    } else {
        lemma_digits_round_trip(n / 10);
        lemma_digit_char(n % 10);
        let s = digits_of(n);
        assert(s.drop_last() =~= digits_of(n / 10));
        assert(s.last() == digit_char(n % 10));
        assert(digits_value(s) == digits_value(s.drop_last()) * 10 + digit_value(s.last()));
        vstd::arithmetic::div_mod::lemma_fundamental_div_mod(n as int, 10);
        assert forall|i: int| 0 <= i < s.len() implies is_digit(#[trigger] s[i]) by {
            if i < s.len() - 1 {
                assert(s[i] == digits_of(n / 10)[i]);
            }
        }
    }
}

proof fn lemma_padded(n: nat, w: nat)
    ensures
        padded_digits(n, w).len() == w,
        all_digits(padded_digits(n, w)),
        n < pow10(w) ==> digits_value(padded_digits(n, w)) == n,
    decreases w,
{
    if w > 0 {
        lemma_padded(n / 10, (w - 1) as nat);
        lemma_digit_char(n % 10);
        let s = padded_digits(n, w);
        assert(s.drop_last() =~= padded_digits(n / 10, (w - 1) as nat));
        assert forall|i: int| 0 <= i < s.len() implies is_digit(#[trigger] s[i]) by {
            if i < s.len() - 1 {
                assert(s[i] == padded_digits(n / 10, (w - 1) as nat)[i]);
            }
        }
    }
}

pub open spec fn zeros(k: nat) -> Seq<char> {
    Seq::new(k, |i: int| '0')
}

/// Trimmed fractional digits, padded back with zeros, are the full-width digits.
proof fn lemma_fraction_text(n: nat, w: nat)
    requires
        w >= 1,
    ensures
        1 <= fraction_text(n, w).len() <= w,
        fraction_text(n, w) + zeros((w - fraction_text(n, w).len()) as nat) == padded_digits(n, w),
    decreases w,
{
    if w > 1 && n % 10 == 0 {
        lemma_fraction_text(n / 10, (w - 1) as nat);
        let f = fraction_text(n / 10, (w - 1) as nat);
        let k = (w - 1 - f.len()) as nat;
        assert(padded_digits(n, w) == padded_digits(n / 10, (w - 1) as nat).push(digit_char(0)));
        assert(f + zeros(k + 1) =~= (f + zeros(k)).push('0'));
    } else {
        lemma_padded(n, w);
        assert(padded_digits(n, w) + zeros(0) =~= padded_digits(n, w));
    }
}

proof fn lemma_leading_digits_all(a: Seq<char>, b: Seq<char>)
    requires
        all_digits(a),
    ensures
        leading_digits(a + b) == a.len() + leading_digits(b),
    decreases a.len(),
{
    if a.len() > 0 {
        assert((a + b)[0] == a[0]);
        assert((a + b).skip(1) =~= a.skip(1) + b);
        assert(all_digits(a.skip(1))) by {
            assert forall|i: int| 0 <= i < a.skip(1).len() implies is_digit(#[trigger] a.skip(1)[i]) by {
                assert(a.skip(1)[i] == a[i + 1]);
            }
        }
        lemma_leading_digits_all(a.skip(1), b);
    } else {
        assert(a + b =~= b);
    }
}

proof fn lemma_sign_split(i: int, body: Seq<char>)
    requires
        body.len() >= 1,
        is_digit(body[0]),
    ensures
        unsigned_part(sign_text(i) + body) == body,
        is_negative(sign_text(i) + body) == (i < 0),
{
    let s = sign_text(i) + body;
    if i < 0 {
        assert(s[0] == '-');
        assert(s.skip(1) =~= body);
    } else {
        assert(s =~= body);
    }
}

/// An integer's text reads back as that integer, as an integer literal and as no decimal.
pub proof fn lemma_int_text_reads_back(i: int)
    ensures
        int_literal(int_text(i)) == Some(i),
        decimal_literal(int_text(i)) is None,
{
    let d = digits_of(abs(i));
    lemma_digits_round_trip(abs(i));
    lemma_sign_split(i, d);
    lemma_leading_digits_all(d, Seq::empty());
    assert(d + Seq::<char>::empty() =~= d);
}

/// Trimmed fractional digits are digits, and read back as the same billionths.
proof fn lemma_fraction_reads_back(f: nat)
    requires
        f < 1_000_000_000,
    ensures
        all_digits(fraction_text(f, 9)),
        1 <= fraction_text(f, 9).len() <= 9,
        digits_value(fraction_digits(fraction_text(f, 9))) == f,
{
    let ft = fraction_text(f, 9);
    lemma_fraction_text(f, 9);
    lemma_padded(f, 9);
    reveal_with_fuel(pow10, 10);
    let p = padded_digits(f, 9);
    assert(fraction_digits(ft) =~= ft + zeros((9 - ft.len()) as nat));
    assert forall|j: int| 0 <= j < ft.len() implies is_digit(#[trigger] ft[j]) by {
        assert(p[j] == (ft + zeros((9 - ft.len()) as nat))[j]);
    }
}

/// A decimal's text reads back as that decimal.
pub proof fn lemma_float_text_reads_back(u: i128)
    ensures
        decimal_literal(float_text(u as int)) == Some(u),
{
    let m = abs(u as int);
    let w = m / (DECIMAL_UNIT as nat);
    let f = m % (DECIMAL_UNIT as nat);
    let d = digits_of(w);
    let ft = fraction_text(f, 9);
    lemma_digits_round_trip(w);
    lemma_fraction_reads_back(f);
    let body = d + seq!['.'] + ft;
    assert(float_text(u as int) =~= sign_text(u as int) + body);
    lemma_sign_split(u as int, body);
    assert(body =~= d + (seq!['.'] + ft));
    lemma_leading_digits_all(d, seq!['.'] + ft);
    assert(!is_digit((seq!['.'] + ft)[0]));
    let k = d.len() as int;
    assert(body.take(k) =~= d);
    assert(body.skip(k + 1) =~= ft);
    assert(DECIMAL_UNIT as nat == 1_000_000_000);
    vstd::arithmetic::div_mod::lemma_fundamental_div_mod(m as int, 1_000_000_000);
    assert(w * (DECIMAL_UNIT as nat) + f == m);
}


/// Text with no blank character in it, space included.
pub open spec fn unbroken(s: Seq<char>) -> bool {
    s.len() >= 1 && forall|i: int| 0 <= i < s.len() ==> !is_blank(#[trigger] s[i])
}

proof fn lemma_split_unbroken(s: Seq<char>)
    requires
        forall|i: int| 0 <= i < s.len() ==> #[trigger] s[i] != ' ',
    ensures
        split_spaces(s) == seq![s],
    decreases s.len(),
{
    if s.len() > 0 {
        let p = s.drop_last();
        assert forall|i: int| 0 <= i < p.len() implies #[trigger] p[i] != ' ' by {
            assert(p[i] == s[i]);
        }
        lemma_split_unbroken(p);
        assert(p.push(s.last()) =~= s);
        assert(seq![p].update(0, p.push(s.last())) =~= seq![s]);
    } else {
        assert(s =~= Seq::<char>::empty());
        assert(seq![Seq::<char>::empty()] =~= seq![s]);
    }
}

/// Splitting at a space splits the two sides apart.
proof fn lemma_split_concat(x: Seq<char>, y: Seq<char>)
    ensures
        split_spaces(x + seq![' '] + y) == split_spaces(x) + split_spaces(y),
    decreases y.len(),
{
    crate::text::lemma_split_nonempty(y);
    let xs = x + seq![' '];
    if y.len() == 0 {
        assert(x + seq![' '] + y =~= xs);
        assert(xs.drop_last() =~= x);
        assert(split_spaces(x).push(Seq::empty()) =~= split_spaces(x) + split_spaces(y));
    } else {
        let y1 = y.drop_last();
        lemma_split_concat(x, y1);
        crate::text::lemma_split_nonempty(y1);
        assert((x + seq![' '] + y).drop_last() =~= x + seq![' '] + y1);
        assert((x + seq![' '] + y).last() == y.last());
        let a = split_spaces(x);
        let b = split_spaces(y1);
        if y.last() == ' ' {
            assert((a + b).push(Seq::empty()) =~= a + b.push(Seq::empty()));
        } else {
            let r = a + b;
            assert(r.update(r.len() - 1, r.last().push(y.last())) =~= a + b.update(b.len() - 1, b.last().push(y.last())));
        }
    }
}

proof fn lemma_tokens_unbroken(t: Seq<char>)
    requires
        unbroken(t),
    ensures
        tokens_of(t) == seq![t],
{
    assert(trim_start(t) == t);
    assert(trim_end(t) == t);
    assert(trim(t) == t);
    lemma_split_unbroken(t);
}

/// A lone token that is a literal by itself evaluates to its value, reporting nothing.
pub proof fn lemma_single_literal(t: Seq<char>, depth: nat)
    requires
        unbroken(t),
        plain_literal(t) is Some,
        depth >= 1,
    ensures
        eval_spec(t, depth) == (Ok::<Term, ProgramError>(plain_literal(t)->0), Seq::<ProgramError>::empty()),
{
    lemma_tokens_unbroken(t);
    assert(Seq::<ProgramError>::empty() + Seq::<ProgramError>::empty() =~= Seq::<ProgramError>::empty());
    let v = plain_literal(t)->0;
    let rest = seq![t];
    assert(!is_opener(t)) by {
        if is_opener(t) {
            assert(plain_literal(t) is None) by {
                reveal_strlit("True");
                reveal_strlit("False");
                assert(t.len() == 1);
            }
        }
    }
    assert(rest.skip(1) =~= Seq::<Seq<char>>::empty());
    assert(Seq::<Seq<char>>::empty().skip(0) =~= Seq::<Seq<char>>::empty());
    assert(literal_spec(t, Seq::empty()) == Some(Ok::<(Term, nat), ProgramError>((v, 0nat))));
    assert(step_spec(t, Seq::empty(), Seq::empty(), depth) == (Ok::<(Seq<Seq<char>>, Seq<Term>, Option<ProgramError>), ProgramError>((Seq::<Seq<char>>::empty(), seq![v], None)), Seq::<ProgramError>::empty()));
    assert(finish_spec(seq![v], None, depth) == (Ok::<Term, ProgramError>(v), Seq::<ProgramError>::empty()));
}


proof fn lemma_sign_digits_unbroken(t: Seq<char>, body: Seq<char>)
    requires
        body.len() >= 1,
        body == unsigned_part(t),
        forall|j: int| 0 <= j < body.len() ==> !is_blank(#[trigger] body[j]),
    ensures
        unbroken(t),
{
    assert forall|i: int| 0 <= i < t.len() implies !is_blank(#[trigger] t[i]) by {
        if has_sign(t) {
            if i > 0 {
                assert(t[i] == body[i - 1]);
            }
        } else {
            assert(t[i] == body[i]);
        }
    }
}

/// A numeric literal has no blank in it.
proof fn lemma_numeric_unbroken(t: Seq<char>)
    requires
        int_literal(t) is Some || decimal_literal(t) is Some,
    ensures
        unbroken(t),
    decreases t.len(),
{
    let body = unsigned_part(t);
    if int_literal(t) is Some {
        assert forall|j: int| 0 <= j < body.len() implies !is_blank(#[trigger] body[j]) by {
            assert(is_digit(body[j]));
        }
        lemma_sign_digits_unbroken(t, body);
    } else if !has_exponent(t) {
        assert(plain_decimal(t) is Some);
        let k = leading_digits(body) as int;
        crate::literal::lemma_leading_digits(body);
        let frac = body.skip(k + 1);
        assert forall|j: int| 0 <= j < body.len() implies !is_blank(#[trigger] body[j]) by {
            if j < k {
                assert(body[j] == body.take(k)[j]);
                assert(is_digit(body.take(k)[j]));
            } else if j > k {
                assert(body[j] == frac[j - k - 1]);
                assert(is_digit(frac[j - k - 1]));
            }
        }
        lemma_sign_digits_unbroken(t, body);
    } else {
        assert(exponent_decimal(t) is Some);
        let k = leading_digits(body) as int;
        crate::literal::lemma_leading_digits(body);
        let r = body.skip(k + 1);
        let f = leading_digits(r) as int;
        crate::literal::lemma_leading_digits(r);
        let tail = r.skip(f + 1);
        assert(int_literal(tail) is Some);
        lemma_numeric_unbroken(tail);
        assert forall|j: int| 0 <= j < body.len() implies !is_blank(#[trigger] body[j]) by {
            if j < k {
                assert(body[j] == body.take(k)[j]);
                assert(is_digit(body.take(k)[j]));
            } else if j > k {
                assert(body[j] == r[j - k - 1]);
                if j - k - 1 < f {
                    assert(r[j - k - 1] == r.take(f)[j - k - 1]);
                    assert(is_digit(r.take(f)[j - k - 1]));
                } else if j - k - 1 > f {
                    assert(r[j - k - 1] == tail[j - k - 2 - f]);
                }
            }
        }
        lemma_sign_digits_unbroken(t, body);
    }
}

/// The text of a number, or of a truth value, is one token that reads back as the value.
proof fn lemma_plain_text(v: Term)
    requires
        is_number(v) || v is Boolean,
    ensures
        unbroken(text_of(v)),
        plain_literal(text_of(v)) == Some(v),
{
    reveal_strlit("True");
    reveal_strlit("False");
    match v {
        Term::Int(i) => {
            lemma_int_text_reads_back(i);
            lemma_numeric_unbroken(text_of(v));
        },
        Term::Float(u) => {
            lemma_float_text_reads_back(u);
            lemma_numeric_unbroken(text_of(v));
        },
        Term::Boolean(b) => {
            let t = text_of(v);
            assert(decimal_literal(t) is None) by {
                assert(!has_sign(t));
                assert(unsigned_part(t) == t);
                assert(leading_digits(t) == 0);
            }
            assert(int_literal(t) is None) by {
                assert(!is_digit(unsigned_part(t)[0]));
            }
            if b {
                assert(t =~= "True"@);
            } else {
                assert(t =~= "False"@);
                assert(t != "True"@);
            }
        },
        _ => {},
    }
}

/// A numeric token evaluated alone gives the number it denotes; that number's canonical
/// text is again one token denoting it, and evaluating that text gives it back.
pub proof fn law_numeric_token(t: Seq<char>, depth: nat)
    requires
        int_literal(t) is Some || decimal_literal(t) is Some,
        depth >= 1,
    ensures
        eval_spec(t, depth) == (Ok::<Term, ProgramError>(plain_literal(t)->0), Seq::<ProgramError>::empty()),
        is_number(plain_literal(t)->0),
        decimal_literal(t) is None ==> plain_literal(t)->0 == Term::Int(int_literal(t)->0),
        decimal_literal(t) is Some ==> plain_literal(t)->0 == Term::Float(decimal_literal(t)->0),
        plain_literal(text_of(plain_literal(t)->0)) == plain_literal(t),
        eval_spec(text_of(plain_literal(t)->0), depth) == eval_spec(t, depth),
{
    lemma_numeric_unbroken(t);
    lemma_single_literal(t, depth);
    lemma_plain_text(plain_literal(t)->0);
    lemma_single_literal(text_of(plain_literal(t)->0), depth);
}

/// Words joined by single spaces.
pub open spec fn join_words(w: Seq<Seq<char>>) -> Seq<char>
    decreases w.len(),
{
    if w.len() == 0 {
        Seq::empty()
    } else if w.len() == 1 {
        w[0]
    } else {
        join_words(w.drop_last()) + seq![' '] + w.last()
    }
}

/// Text with no blank character in it; it may be empty.
pub open spec fn blank_free(s: Seq<char>) -> bool {
    forall|i: int| 0 <= i < s.len() ==> !is_blank(#[trigger] s[i])
}

/// Words that a text literal reads back: none with a blank inside, none a lone `"`, the
/// first and the last not empty. Empty words between them stand for repeated spaces.
pub open spec fn words_ok(w: Seq<Seq<char>>) -> bool {
    &&& w.len() >= 1
    &&& forall|k: int| 0 <= k < w.len() ==> blank_free(#[trigger] w[k]) && w[k] != seq!['"']
    &&& w[0].len() >= 1
    &&& w.last().len() >= 1
}

/// Values whose canonical text is read back by the reader: numbers, truth values, the
/// empty list, and texts made of words.
pub open spec fn reenterable(v: Term) -> bool {
    is_number(v) || v is Boolean || v == Term::List(Seq::empty()) || (v is Text && (
        v->Text_0.len() == 0 || exists|w: Seq<Seq<char>>| words_ok(w) && v->Text_0 == join_words(w)))
}

/// Words each preceded by a space, front to back.
spec fn spaced_words(w: Seq<Seq<char>>) -> Seq<char>
    decreases w.len(),
{
    if w.len() == 0 {
        Seq::empty()
    } else {
        seq![' '] + w[0] + spaced_words(w.skip(1))
    }
}

proof fn lemma_split_join(w: Seq<Seq<char>>)
    requires
        w.len() >= 1,
        forall|k: int| 0 <= k < w.len() ==> blank_free(#[trigger] w[k]),
    ensures
        split_spaces(join_words(w)) == w,
    decreases w.len(),
{
    if w.len() == 1 {
        assert(blank_free(w[0]));
        lemma_split_unbroken(w[0]);
        assert(seq![w[0]] =~= w);
    } else {
        let p = w.drop_last();
        assert forall|k: int| 0 <= k < p.len() implies blank_free(#[trigger] p[k]) by {
            assert(p[k] == w[k]);
        }
        lemma_split_join(p);
        let x = w.last();
        assert(blank_free(w[w.len() - 1]));
        lemma_split_unbroken(x);
        lemma_split_concat(join_words(p), x);
        assert(p + seq![x] =~= w);
    }
}

proof fn lemma_join_front(w: Seq<Seq<char>>)
    requires
        w.len() >= 1,
        w[0].len() >= 1,
    ensures
        join_words(w).len() >= 1,
        join_words(w)[0] == w[0][0],
    decreases w.len(),
{
    if w.len() > 1 {
        let p = w.drop_last();
        assert(p[0] == w[0]);
        lemma_join_front(p);
        assert((join_words(p) + seq![' '] + w.last())[0] == join_words(p)[0]);
    }
}

proof fn lemma_join_back(w: Seq<Seq<char>>)
    requires
        w.len() >= 1,
        w.last().len() >= 1,
    ensures
        join_words(w).len() >= 1,
        join_words(w).last() == w.last().last(),
{
    if w.len() > 1 {
        let p = w.drop_last();
        let j = join_words(p) + seq![' '] + w.last();
        assert(j.last() == w.last().last());
    }
}

proof fn lemma_string_body_words(w: Seq<Seq<char>>)
    requires
        forall|k: int| 0 <= k < w.len() ==> blank_free(#[trigger] w[k]) && w[k] != seq!['"'],
    ensures
        string_body(w + seq![seq!['"']]) == Some((spaced_words(w), (w.len() + 1) as nat)),
    decreases w.len(),
{
    let q = seq!['"'];
    if w.len() == 0 {
        assert(w + seq![q] =~= seq![q]);
    } else {
        let t = w.skip(1);
        assert forall|k: int| 0 <= k < t.len() implies blank_free(#[trigger] t[k]) && t[k] != seq!['"'] by {
            assert(t[k] == w[k + 1]);
        }
        lemma_string_body_words(t);
        assert((w + seq![q]).skip(1) =~= t + seq![q]);
        assert((w + seq![q])[0] == w[0]);
        assert(w[0] != q);
    }
}

proof fn lemma_spaced_push(w: Seq<Seq<char>>, x: Seq<char>)
    ensures
        spaced_words(w.push(x)) == spaced_words(w) + seq![' '] + x,
    decreases w.len(),
{
    if w.len() == 0 {
        assert(w.push(x).skip(1) =~= Seq::<Seq<char>>::empty());
        assert(spaced_words(Seq::<Seq<char>>::empty()) == Seq::<char>::empty());
        assert(seq![' '] + x + Seq::<char>::empty() =~= Seq::<char>::empty() + seq![' '] + x);
    } else {
        lemma_spaced_push(w.skip(1), x);
        assert(w.push(x).skip(1) =~= w.skip(1).push(x));
        assert(w.push(x)[0] == w[0]);
        assert(seq![' '] + w[0] + (spaced_words(w.skip(1)) + seq![' '] + x) =~= (seq![' '] + w[0] + spaced_words(w.skip(1))) + seq![' '] + x);
    }
}

proof fn lemma_spaced_join(w: Seq<Seq<char>>)
    requires
        w.len() >= 1,
    ensures
        spaced_words(w) == seq![' '] + join_words(w),
    decreases w.len(),
{
    if w.len() == 1 {
        assert(w.skip(1) =~= Seq::<Seq<char>>::empty());
        assert(spaced_words(Seq::<Seq<char>>::empty()) == Seq::<char>::empty());
        assert(seq![' '] + w[0] + Seq::<char>::empty() =~= seq![' '] + w[0]);
    } else {
        let p = w.drop_last();
        lemma_spaced_join(p);
        lemma_spaced_push(p, w.last());
        assert(p.push(w.last()) =~= w);
        assert(seq![' '] + join_words(p) + seq![' '] + w.last() =~= seq![' '] + (join_words(p) + seq![' '] + w.last()));
    }
}

/// The single lone-literal step of a whole line ends in that literal.
proof fn lemma_one_literal_line(toks: Seq<Seq<char>>, v: Term, depth: nat)
    requires
        depth >= 1,
        toks.len() >= 1,
        literal_spec(toks[0], toks.skip(1)) == Some(Ok::<(Term, nat), ProgramError>((v, (toks.len() - 1) as nat))),
        !(v is Quotation),
    ensures
        run_spec(toks, Seq::empty(), None, depth) == (Ok::<Term, ProgramError>(v), Seq::<ProgramError>::empty()),
{
    let e = Seq::<Seq<char>>::empty();
    assert(toks.skip(1).skip(toks.len() - 1) =~= e);
    assert(Seq::<Term>::empty().push(v) =~= seq![v]);
    assert(step_spec(toks[0], toks.skip(1), Seq::empty(), depth) == (Ok::<(Seq<Seq<char>>, Seq<Term>, Option<ProgramError>), ProgramError>((e, seq![v], None)), Seq::<ProgramError>::empty()));
    assert(finish_spec(seq![v], None, depth) == (Ok::<Term, ProgramError>(v), Seq::<ProgramError>::empty()));
    assert(run_spec(e, seq![v], None, depth) == (Ok::<Term, ProgramError>(v), Seq::<ProgramError>::empty()));
    assert(Seq::<ProgramError>::empty() + Seq::<ProgramError>::empty() =~= Seq::<ProgramError>::empty());
}

proof fn lemma_empty_list_round_trip(depth: nat)
    requires
        depth >= 1,
    ensures
        eval_spec(text_of(Term::List(Seq::empty())), depth) == (Ok::<Term, ProgramError>(Term::List(Seq::empty())), Seq::<ProgramError>::empty()),
{
    let t = text_of(Term::List(Seq::empty()));
    let open = seq!['['];
    let close = seq![']'];
    assert(t =~= open + seq![' '] + close);
    lemma_split_concat(open, close);
    lemma_split_unbroken(open);
    lemma_split_unbroken(close);
    assert(trim_start(t) == t);
    assert(trim_end(t) == t);
    let toks = seq![open, close];
    assert(tokens_of(t) =~= toks);
    assert(toks.skip(1) =~= seq![close]);
    assert(list_spec(seq![close]) == Ok::<(Term, nat), ProgramError>((Term::List(Seq::empty()), 1nat)));
    lemma_one_literal_line(toks, Term::List(Seq::empty()), depth);
}

proof fn lemma_text_round_trip(s: Seq<char>, depth: nat)
    requires
        depth >= 1,
        s.len() == 0 || exists|w: Seq<Seq<char>>| words_ok(w) && s == join_words(w),
    ensures
        eval_spec(text_of(Term::Text(s)), depth) == (Ok::<Term, ProgramError>(Term::Text(s)), Seq::<ProgramError>::empty()),
{
    let q = seq!['"'];
    let t = text_of(Term::Text(s));
    assert(t =~= q + seq![' '] + (s + seq![' '] + q));
    lemma_split_concat(q, s + seq![' '] + q);
    lemma_split_concat(s, q);
    lemma_split_unbroken(q);
    assert(trim_start(t) == t);
    assert(trim_end(t) == t);
    if s.len() == 0 {
        assert(split_spaces(s) =~= seq![Seq::<char>::empty()]);
        let toks = seq![q, Seq::<char>::empty(), q];
        assert(tokens_of(t) =~= toks);
        assert(toks.skip(1) =~= seq![Seq::<char>::empty(), q]);
        assert(seq![Seq::<char>::empty(), q].skip(1) =~= seq![q]);
        let r2 = seq![Seq::<char>::empty(), q];
        assert(string_body(seq![q]) == Some((Seq::<char>::empty(), 1nat)));
        assert(r2[0].len() == 0);
        assert(r2[0] != q);
        assert(r2.skip(1) =~= seq![q]);
        let sp = seq![' '];
        assert(seq![' '] + r2[0] + Seq::<char>::empty() =~= sp);
        assert(string_body(r2) == Some((sp, 2nat)));
        assert(s =~= Seq::<char>::empty());
        assert(sp.skip(1) =~= Seq::<char>::empty());
        assert(sp[0] == ' ');
        assert(is_blank(sp[0]));
        assert(trim_start(Seq::<char>::empty()) == Seq::<char>::empty());
        assert(trim_start(sp) == trim_start(sp.skip(1)));
        assert(trim_start(sp) == Seq::<char>::empty());
        assert(trim(sp) == Seq::<char>::empty());
        assert(literal_spec(q, r2) == Some(Ok::<(Term, nat), ProgramError>((Term::Text(s), 2nat))));
        assert(trim_start(Seq::<char>::empty()) == Seq::<char>::empty());
        assert(trim_end(Seq::<char>::empty()) == Seq::<char>::empty());
        lemma_one_literal_line(toks, Term::Text(s), depth);
    } else {
        let w = choose|w: Seq<Seq<char>>| words_ok(w) && s == join_words(w);
        lemma_split_join(w);
        lemma_join_front(w);
        lemma_join_back(w);
        let toks = seq![q] + (w + seq![q]);
        assert(tokens_of(t) =~= toks);
        assert(toks.skip(1) =~= w + seq![q]);
        assert(toks[0] == q);
        lemma_string_body_words(w);
        lemma_spaced_join(w);
        let b = seq![' '] + s;
        assert(b.skip(1) =~= s);
        assert(trim_start(b) == trim_start(s));
        assert(trim_start(s) == s);
        assert(trim_end(s) == s);
        lemma_one_literal_line(toks, Term::Text(s), depth);
    }
}

/// A value whose canonical text the reader takes back (a number, a truth value, the empty
/// list, or a text made of words) evaluates back from that text, reporting nothing.
pub proof fn law_round_trip(v: Term, depth: nat)
    requires
        reenterable(v),
        depth >= 1,
    ensures
        eval_spec(text_of(v), depth) == (Ok::<Term, ProgramError>(v), Seq::<ProgramError>::empty()),
{
    if is_number(v) || v is Boolean {
        lemma_plain_text(v);
        lemma_single_literal(text_of(v), depth);
    } else if v == Term::List(Seq::empty()) {
        lemma_empty_list_round_trip(depth);
    } else {
        lemma_text_round_trip(v->Text_0, depth);
    }
}

/// A line whose result the reader takes back gives, when the result's text is evaluated
/// again, the same value and so the same text.
pub proof fn law_idempotent(line: Seq<char>, depth: nat, again: nat)
    requires
        eval_spec(line, depth).0 is Ok,
        reenterable(eval_spec(line, depth).0->Ok_0),
        again >= 1,
    ensures
        eval_spec(text_of(eval_spec(line, depth).0->Ok_0), again).0 == eval_spec(line, depth).0,
{
    law_round_trip(eval_spec(line, depth).0->Ok_0, again);
}

proof fn lemma_step_plain(t: Seq<char>, rest: Seq<Seq<char>>, s: Seq<Term>, depth: nat)
    requires
        unbroken(t),
        plain_literal(t) is Some,
    ensures
        step_spec(t, rest, s, depth) == (Ok::<(Seq<Seq<char>>, Seq<Term>, Option<ProgramError>), ProgramError>(
            (rest, s.push(plain_literal(t)->0), None),
        ), Seq::<ProgramError>::empty()),
{
    assert(!is_opener(t)) by {
        if is_opener(t) {
            reveal_strlit("True");
            reveal_strlit("False");
            assert(t.len() == 1);
        }
    }
    assert(rest.skip(0) =~= rest);
}

proof fn lemma_tokens_of_equality(ta: Seq<char>, tb: Seq<char>)
    requires
        unbroken(ta),
        unbroken(tb),
    ensures
        tokens_of(ta + seq![' '] + tb + seq![' '] + "=="@) == seq![ta, tb, "=="@],
        unbroken("=="@),
        plain_literal("=="@) is None,
{
    reveal_strlit("==");
    reveal_strlit("True");
    reveal_strlit("False");
    let eq = "=="@;
    let line = ta + seq![' '] + tb + seq![' '] + eq;
    assert(line =~= ta + seq![' '] + (tb + seq![' '] + eq));
    lemma_split_concat(ta, tb + seq![' '] + eq);
    lemma_split_concat(tb, eq);
    lemma_split_unbroken(ta);
    lemma_split_unbroken(tb);
    lemma_split_unbroken(eq);
    assert(line[0] == ta[0]);
    assert(trim_start(line) == line);
    assert(trim_end(line) == line);
    assert(tokens_of(line) =~= seq![ta, tb, eq]);
    assert(plain_literal(eq) is None) by {
        assert(unsigned_part(eq) == eq);
        assert(leading_digits(eq) == 0);
    }
}

proof fn lemma_step_equality(a: Term, b: Term, depth: nat)
    requires
        is_number(a),
        is_number(b),
    ensures
        step_spec("=="@, Seq::empty(), seq![a, b], depth) == (Ok::<(Seq<Seq<char>>, Seq<Term>, Option<ProgramError>), ProgramError>(
            (Seq::empty(), seq![Term::Boolean(billionths(a) == billionths(b))], None),
        ), Seq::<ProgramError>::empty()),
{
    reveal_strlit("==");
    reveal_strlit("True");
    reveal_strlit("False");
    let eq = "=="@;
    let s2 = seq![a, b];
    let r = Term::Boolean(billionths(a) == billionths(b));
    assert(plain_literal(eq) is None) by {
        assert(unsigned_part(eq) == eq);
        assert(leading_digits(eq) == 0);
    }
    reveal_strlit("+");
    reveal_strlit("-");
    reveal_strlit("*");
    reveal_strlit("/");
    reveal_strlit("div");
    reveal_strlit("<");
    reveal_strlit(">");
    assert(eq != "+"@ && eq != "-"@ && eq != "*"@ && eq != "/"@ && eq != "div"@ && eq != "<"@ && eq != ">"@) by {
        assert(eq[0] != "+"@[0]);
        assert(eq[0] != "-"@[0]);
        assert(eq[0] != "*"@[0]);
        assert(eq[0] != "/"@[0]);
        assert(eq[0] != "div"@[0]);
        assert(eq[0] != "<"@[0]);
        assert(eq[0] != ">"@[0]);
    }
    assert(literal_spec(eq, Seq::empty()) is None);
    assert(binary_spec(eq, a, b) == Some(equal_spec(a, b)));
    assert(equal_spec(a, b) == Ok::<Term, ProgramError>(r));
    assert(s2.drop_last().drop_last() =~= Seq::<Term>::empty());
    assert(Seq::<Term>::empty().push(r) =~= seq![r]);
    assert(primitive_spec(eq, s2) == Some((seq![r], None::<ProgramError>)));
    assert(reported(None) =~= Seq::<ProgramError>::empty());
}

/// `a b ==` on two numbers is true exactly when they are equal as numbers, integers and
/// decimals compared by value.
pub proof fn law_numeric_equality(a: Term, b: Term, depth: nat)
    requires
        is_number(a),
        is_number(b),
        depth >= 1,
    ensures
        eval_spec(text_of(a) + seq![' '] + text_of(b) + seq![' '] + "=="@, depth)
            == (Ok::<Term, ProgramError>(Term::Boolean(billionths(a) == billionths(b))), Seq::<ProgramError>::empty()),
{
    let ta = text_of(a);
    let tb = text_of(b);
    let eq = "=="@;
    lemma_plain_text(a);
    lemma_plain_text(b);
    lemma_tokens_of_equality(ta, tb);
    let toks = seq![ta, tb, eq];
    let e = Seq::<Seq<char>>::empty();
    assert(toks.skip(1) =~= seq![tb, eq]);
    assert(seq![tb, eq].skip(1) =~= seq![eq]);
    assert(seq![eq].skip(1) =~= e);
    let s1 = seq![a];
    let s2 = seq![a, b];
    assert(Seq::<Term>::empty().push(a) =~= s1);
    assert(s1.push(b) =~= s2);
    lemma_step_plain(ta, seq![tb, eq], Seq::empty(), depth);
    lemma_step_plain(tb, seq![eq], s1, depth);
    lemma_step_equality(a, b, depth);
    let r = Term::Boolean(billionths(a) == billionths(b));
    let done = (Ok::<Term, ProgramError>(r), Seq::<ProgramError>::empty());
    assert(Seq::<ProgramError>::empty() + Seq::<ProgramError>::empty() =~= Seq::<ProgramError>::empty());
    assert(finish_spec(seq![r], None, depth) == done);
    assert(run_spec(e, seq![r], None, depth) == done);
    assert(run_spec(seq![eq], s2, None, depth) == done);
    assert(run_spec(seq![tb, eq], s1, None, depth) == done);
    assert(run_spec(toks, Seq::empty(), None, depth) == done);
}

} // verus!
