//! Integers of any size, held as a sign and decimal digits.
use vstd::prelude::*;
use crate::ops::trunc_div;
use crate::literal::{apply_sign, fits_i128, signed};
use crate::value::{digit_char, digit_to_char, digits_of, int_text, magnitude};

verus! {

/// The number that decimal digits denote, most significant first.
pub open spec fn mag_value(s: Seq<u8>) -> nat
    decreases s.len(),
{
    if s.len() == 0 {
        0
    } else {
        mag_value(s.drop_last()) * 10 + s.last() as nat
    }
}

/// Every entry is a decimal digit.
pub open spec fn digits_ok(s: Seq<u8>) -> bool {
    forall|i: int| 0 <= i < s.len() ==> #[trigger] s[i] < 10
}

/// The number the first `i` digits denote.
pub open spec fn pv(s: Seq<u8>, i: int) -> nat {
    mag_value(s.take(i))
}

proof fn lemma_pv_step(s: Seq<u8>, i: int)
    requires
        0 < i <= s.len(),
    ensures
        pv(s, i) == pv(s, i - 1) * 10 + s[i - 1] as nat,
{
    assert(s.take(i).drop_last() =~= s.take(i - 1));
}

proof fn lemma_pv_all(s: Seq<u8>)
    ensures
        pv(s, s.len() as int) == mag_value(s),
{
    assert(s.take(s.len() as int) =~= s);
}

proof fn lemma_pv_zero(s: Seq<u8>)
    ensures
        pv(s, 0) == 0,
{
    assert(s.take(0) =~= Seq::<u8>::empty());
}

proof fn lemma_push_value(s: Seq<u8>, d: u8)
    ensures
        mag_value(s.push(d)) == mag_value(s) * 10 + d as nat,
{
    assert(s.push(d).drop_last() =~= s);
}

proof fn lemma_pv_monotone(s: Seq<u8>, i: int)
    requires
        0 <= i <= s.len(),
    ensures
        pv(s, i) <= mag_value(s),
    decreases s.len() - i,
{
    if i < s.len() {
        lemma_pv_monotone(s, i + 1);
        lemma_pv_step(s, i + 1);
    } else {
        lemma_pv_all(s);
    }
}

/// The last of the first `i` digits; zero when `i` is zero.
spec fn digit_before(s: Seq<u8>, i: int) -> nat {
    if i > 0 { s[i - 1] as nat } else { 0 }
}

/// `i - 1`, or zero when `i` is zero.
spec fn before(i: int) -> int {
    if i > 0 { i - 1 } else { 0 }
}

proof fn lemma_split(s: Seq<u8>, i: int)
    requires
        0 <= i <= s.len(),
    ensures
        pv(s, i) == pv(s, before(i)) * 10 + digit_before(s, i),
{
    if i > 0 {
        lemma_pv_step(s, i);
    } else {
        lemma_pv_zero(s);
    }
}

/// Sum of the first `i` digits of `a`, the first `j` of `b`, and a carry.
fn mag_add(a: &Vec<u8>, i: usize, b: &Vec<u8>, j: usize, c: u8) -> (r: Vec<u8>)
    requires
        i <= a@.len(),
        j <= b@.len(),
        digits_ok(a@),
        digits_ok(b@),
        c <= 1,
    ensures
        digits_ok(r@),
        mag_value(r@) == pv(a@, i as int) + pv(b@, j as int) + c,
    decreases i + j,
{
    if i == 0 && j == 0 {
        proof {
            lemma_pv_zero(a@);
            lemma_pv_zero(b@);
        }
        let mut r: Vec<u8> = Vec::new();
        if c > 0 {
            r.push(c);
        }
        proof {
            lemma_push_value(Seq::<u8>::empty(), c);
            assert(Seq::<u8>::empty().push(c) =~= r@ || c == 0);
        }
        return r;
    }
    let la: u8 = if i > 0 { a[i - 1] } else { 0 };
    let lb: u8 = if j > 0 { b[j - 1] } else { 0 };
    let t: u8 = la + lb + c;
    let ni: usize = if i > 0 { i - 1 } else { 0 };
    let nj: usize = if j > 0 { j - 1 } else { 0 };
    let mut r = mag_add(a, ni, b, nj, t / 10);
    let ghost r0 = r@;
    r.push(t % 10);
    proof {
        lemma_split(a@, i as int);
        lemma_split(b@, j as int);
        lemma_push_value(r0, t % 10);
    }
    r
}

/// Compares the first `i` digits of `a` with the first `j` of `b`: -1, 0 or 1.
fn mag_cmp(a: &Vec<u8>, i: usize, b: &Vec<u8>, j: usize) -> (c: i8)
    requires
        i <= a@.len(),
        j <= b@.len(),
        digits_ok(a@),
        digits_ok(b@),
    ensures
        c == -1 <==> pv(a@, i as int) < pv(b@, j as int),
        c == 0 <==> pv(a@, i as int) == pv(b@, j as int),
        c == 1 <==> pv(a@, i as int) > pv(b@, j as int),
    decreases i + j,
{
    if i == 0 && j == 0 {
        proof {
            lemma_pv_zero(a@);
            lemma_pv_zero(b@);
        }
        return 0;
    }
    let la: u8 = if i > 0 { a[i - 1] } else { 0 };
    let lb: u8 = if j > 0 { b[j - 1] } else { 0 };
    let ni: usize = if i > 0 { i - 1 } else { 0 };
    let nj: usize = if j > 0 { j - 1 } else { 0 };
    let r = mag_cmp(a, ni, b, nj);
    proof {
        lemma_split(a@, i as int);
        lemma_split(b@, j as int);
    }
    if r != 0 {
        r
    } else if la < lb {
        -1
    } else if la == lb {
        0
    } else {
        1
    }
}

/// The first `i` digits of `a` less the first `j` of `b` and a borrow.
fn mag_sub(a: &Vec<u8>, i: usize, b: &Vec<u8>, j: usize, w: u8) -> (r: Vec<u8>)
    requires
        i <= a@.len(),
        j <= b@.len(),
        digits_ok(a@),
        digits_ok(b@),
        w <= 1,
        pv(a@, i as int) >= pv(b@, j as int) + w,
    ensures
        digits_ok(r@),
        mag_value(r@) == pv(a@, i as int) - pv(b@, j as int) - w,
    decreases i + j,
{
    proof {
        lemma_split(a@, i as int);
        lemma_split(b@, j as int);
    }
    if i == 0 && j == 0 {
        proof {
            lemma_pv_zero(a@);
            lemma_pv_zero(b@);
            assert(mag_value(Seq::<u8>::empty()) == 0);
        }
        return Vec::new();
    }
    let la: u8 = if i > 0 { a[i - 1] } else { 0 };
    let lb: u8 = if j > 0 { b[j - 1] } else { 0 };
    let ni: usize = if i > 0 { i - 1 } else { 0 };
    let nj: usize = if j > 0 { j - 1 } else { 0 };
    let (d, w2): (u8, u8) = if la >= lb + w { (la - lb - w, 0) } else { (la + 10 - lb - w, 1) };
    let mut r = mag_sub(a, ni, b, nj, w2);
    let ghost r0 = r@;
    r.push(d);
    proof {
        lemma_push_value(r0, d);
    }
    r
}

fn mag_sum(a: &Vec<u8>, b: &Vec<u8>) -> (r: Vec<u8>)
    requires
        digits_ok(a@),
        digits_ok(b@),
    ensures
        digits_ok(r@),
        mag_value(r@) == mag_value(a@) + mag_value(b@),
{
    proof {
        lemma_pv_all(a@);
        lemma_pv_all(b@);
    }
    mag_add(a, a.len(), b, b.len(), 0)
}

fn mag_diff(a: &Vec<u8>, b: &Vec<u8>) -> (r: Vec<u8>)
    requires
        digits_ok(a@),
        digits_ok(b@),
        mag_value(a@) >= mag_value(b@),
    ensures
        digits_ok(r@),
        mag_value(r@) == mag_value(a@) - mag_value(b@),
{
    proof {
        lemma_pv_all(a@);
        lemma_pv_all(b@);
    }
    mag_sub(a, a.len(), b, b.len(), 0)
}

fn mag_compare(a: &Vec<u8>, b: &Vec<u8>) -> (c: i8)
    requires
        digits_ok(a@),
        digits_ok(b@),
    ensures
        c == -1 <==> mag_value(a@) < mag_value(b@),
        c == 0 <==> mag_value(a@) == mag_value(b@),
        c == 1 <==> mag_value(a@) > mag_value(b@),
{
    proof {
        lemma_pv_all(a@);
        lemma_pv_all(b@);
    }
    mag_cmp(a, a.len(), b, b.len())
}

fn push_digit(s: &mut Vec<u8>, d: u8)
    requires
        digits_ok(old(s)@),
        d < 10,
    ensures
        digits_ok(final(s)@),
        mag_value(final(s)@) == mag_value(old(s)@) * 10 + d,
{
    let ghost s0 = s@;
    s.push(d);
    proof {
        lemma_push_value(s0, d);
    }
}

/// Product of two digit strings.
fn mag_mul(a: &Vec<u8>, b: &Vec<u8>) -> (r: Vec<u8>)
    requires
        digits_ok(a@),
        digits_ok(b@),
    ensures
        digits_ok(r@),
        mag_value(r@) == mag_value(a@) * mag_value(b@),
{
    let mut acc: Vec<u8> = Vec::new();
    let mut i: usize = 0;
    proof {
        lemma_pv_zero(b@);
    }
    while i < b.len()
        invariant
            i <= b@.len(),
            digits_ok(a@),
            digits_ok(b@),
            digits_ok(acc@),
            mag_value(acc@) == mag_value(a@) * pv(b@, i as int),
        decreases b@.len() - i,
    {
        push_digit(&mut acc, 0);
        let d = b[i];
        let ghost base = mag_value(acc@);
        let mut k: u8 = 0;
        while k < d
            invariant
                k <= d,
                d < 10,
                digits_ok(a@),
                digits_ok(acc@),
                mag_value(acc@) == base + k * mag_value(a@),
            decreases d - k,
        {
            acc = mag_sum(&acc, a);
            assert(base + k * mag_value(a@) + mag_value(a@) == base + (k + 1) * mag_value(a@)) by (nonlinear_arith);
            k = k + 1;
        }
        proof {
            lemma_pv_step(b@, i + 1);
            let x = mag_value(a@);
            let y = pv(b@, i as int);
            assert(x * y * 10 + d * x == x * (y * 10 + d)) by (nonlinear_arith);
        }
        i = i + 1;
    }
    proof {
        lemma_pv_all(b@);
    }
    acc
}

/// Quotient and remainder of two digit strings, the divisor not zero.
fn mag_divmod(a: &Vec<u8>, b: &Vec<u8>) -> (r: (Vec<u8>, Vec<u8>))
    requires
        digits_ok(a@),
        digits_ok(b@),
        mag_value(b@) > 0,
    ensures
        digits_ok(r.0@),
        digits_ok(r.1@),
        mag_value(a@) == mag_value(r.0@) * mag_value(b@) + mag_value(r.1@),
        mag_value(r.1@) < mag_value(b@),
{
    let ghost bv = mag_value(b@);
    let mut q: Vec<u8> = Vec::new();
    let mut rem: Vec<u8> = Vec::new();
    let mut i: usize = 0;
    proof {
        lemma_pv_zero(a@);
        assert(mag_value(q@) == 0);
        assert(mag_value(rem@) == 0);
        assert(mag_value(q@) * bv == 0) by (nonlinear_arith)
            requires
                mag_value(q@) == 0,
        ;
    }
    while i < a.len()
        invariant
            i <= a@.len(),
            digits_ok(a@),
            digits_ok(b@),
            digits_ok(q@),
            digits_ok(rem@),
            bv == mag_value(b@),
            bv > 0,
            pv(a@, i as int) == mag_value(q@) * bv + mag_value(rem@),
            mag_value(rem@) < bv,
        decreases a@.len() - i,
    {
        let ghost qv = mag_value(q@);
        let ghost rv = mag_value(rem@);
        push_digit(&mut rem, a[i]);
        let ghost r0 = mag_value(rem@);
        assert(r0 < 10 * bv);
        let mut d: u8 = 0;
        while mag_compare(&rem, b) >= 0
            invariant
                digits_ok(b@),
                digits_ok(rem@),
                bv == mag_value(b@),
                bv > 0,
                r0 < 10 * bv,
                mag_value(rem@) + d * bv == r0,
                d < 10,
            decreases mag_value(rem@),
        {
            rem = mag_diff(&rem, b);
            assert((d + 1) * bv <= r0) by (nonlinear_arith)
                requires
                    mag_value(rem@) + bv + d * bv == r0,
            ;
            assert(d + 1 < 10) by (nonlinear_arith)
                requires
                    (d + 1) * bv <= r0,
                    r0 < 10 * bv,
                    bv > 0,
            ;
            d = d + 1;
            assert(mag_value(rem@) + d * bv == r0) by (nonlinear_arith)
                requires
                    mag_value(rem@) + bv + (d - 1) * bv == r0,
            ;
        }
        push_digit(&mut q, d);
        proof {
            lemma_pv_step(a@, i + 1);
            assert(pv(a@, i + 1) == (qv * 10 + d) * bv + mag_value(rem@)) by (nonlinear_arith)
                requires
                    pv(a@, i + 1) == pv(a@, i as int) * 10 + a@[i as int],
                    pv(a@, i as int) == qv * bv + rv,
                    r0 == rv * 10 + a@[i as int],
                    mag_value(rem@) + d * bv == r0,
            ;
        }
        i = i + 1;
    }
    proof {
        lemma_pv_all(a@);
    }
    (q, rem)
}


/// The characters of decimal digits.
pub open spec fn mag_chars(s: Seq<u8>) -> Seq<char> {
    Seq::new(s.len(), |i: int| digit_char(s[i] as nat))
}

proof fn lemma_all_zero(s: Seq<u8>)
    requires
        forall|j: int| 0 <= j < s.len() ==> #[trigger] s[j] == 0,
    ensures
        mag_value(s) == 0,
    decreases s.len(),
{
    if s.len() > 0 {
        lemma_all_zero(s.drop_last());
    }
}

proof fn lemma_skip_zeros(s: Seq<u8>, k: int)
    requires
        0 <= k <= s.len(),
        forall|j: int| 0 <= j < k ==> #[trigger] s[j] == 0,
    ensures
        mag_value(s) == mag_value(s.skip(k)),
    decreases s.len(),
{
    if s.len() == k {
        lemma_all_zero(s);
        assert(s.skip(k) =~= Seq::<u8>::empty());
    } else {
        lemma_skip_zeros(s.drop_last(), k);
        assert(s.drop_last().skip(k) =~= s.skip(k).drop_last());
    }
}

/// Digits without a leading zero print as the number they denote.
proof fn lemma_lead_digits(t: Seq<u8>)
    requires
        t.len() >= 1,
        t[0] != 0,
        digits_ok(t),
    ensures
        mag_value(t) >= 1,
        digits_of(mag_value(t)) == mag_chars(t),
    decreases t.len(),
{
    if t.len() == 1 {
        assert(t.drop_last() =~= Seq::<u8>::empty());
        assert(mag_value(Seq::<u8>::empty()) == 0);
        assert(mag_value(t.drop_last()) == 0);
        assert(t.last() == t[0]);
        assert(mag_value(t) == t[0] as nat);
        assert(t[0] < 10);
        assert(digits_of(mag_value(t)) == seq![digit_char(t[0] as nat)]);
        assert(mag_chars(t) =~= seq![digit_char(t[0] as nat)]);
    } else {
        let p = t.drop_last();
        lemma_lead_digits(p);
        let n = mag_value(t);
        assert(n / 10 == mag_value(p));
        assert(t.last() < 10);
        assert(n % 10 == t.last() as nat);
        assert(n >= 10);
        assert(digits_of(n) == digits_of(n / 10).push(digit_char(n % 10)));
        assert(mag_chars(t) =~= mag_chars(p).push(digit_char(t.last() as nat)));
    }
}

/// An integer of any size: a sign and its decimal digits, most significant first.
#[derive(Debug)]
pub struct BigInt {
    negative: bool,
    digits: Vec<u8>,
}

impl BigInt {
    #[verifier::type_invariant]
    spec fn inv(&self) -> bool {
        digits_ok(self.digits@)
    }

    /// The integer's value.
    pub closed spec fn value(&self) -> int {
        if self.negative {
            -(mag_value(self.digits@) as int)
        } else {
            mag_value(self.digits@) as int
        }
    }

    /// The integer with the given sign and digits.
    pub fn from_digits(negative: bool, digits: Vec<u8>) -> (r: BigInt)
        requires
            digits_ok(digits@),
        ensures
            r.value() == signed(negative, mag_value(digits@)),
    {
        BigInt { negative, digits }
    }

    /// The integer `x`.
    pub fn from_i128(x: i128) -> (r: BigInt)
        ensures
            r.value() == x as int,
    {
        let m = magnitude(x);
        BigInt { negative: x < 0, digits: mag_of(m) }
    }

    /// A copy.
    pub fn copy(&self) -> (r: BigInt)
        ensures
            r.value() == self.value(),
    {
        proof {
            use_type_invariant(self);
        }
        BigInt { negative: self.negative, digits: self.digits.clone() }
    }

    fn negated(&self) -> (r: BigInt)
        ensures
            r.value() == -self.value(),
    {
        proof {
            use_type_invariant(self);
        }
        BigInt { negative: !self.negative, digits: self.digits.clone() }
    }

    /// `self + o`.
    pub fn add(&self, o: &BigInt) -> (r: BigInt)
        ensures
            r.value() == self.value() + o.value(),
    {
        proof {
            use_type_invariant(self);
            use_type_invariant(o);
        }
        if self.negative == o.negative {
            BigInt { negative: self.negative, digits: mag_sum(&self.digits, &o.digits) }
        } else if mag_compare(&self.digits, &o.digits) >= 0 {
            BigInt { negative: self.negative, digits: mag_diff(&self.digits, &o.digits) }
        } else {
            BigInt { negative: o.negative, digits: mag_diff(&o.digits, &self.digits) }
        }
    }

    /// `self - o`.
    pub fn sub(&self, o: &BigInt) -> (r: BigInt)
        ensures
            r.value() == self.value() - o.value(),
    {
        self.add(&o.negated())
    }

    /// `self * o`.
    pub fn mul(&self, o: &BigInt) -> (r: BigInt)
        ensures
            r.value() == self.value() * o.value(),
    {
        proof {
            use_type_invariant(self);
            use_type_invariant(o);
        }
        let d = mag_mul(&self.digits, &o.digits);
        let r = BigInt { negative: self.negative != o.negative, digits: d };
        proof {
            let a = mag_value(self.digits@) as int;
            let b = mag_value(o.digits@) as int;
            assert((-a) * (-b) == a * b) by (nonlinear_arith);
            assert((-a) * b == -(a * b)) by (nonlinear_arith);
            assert(a * (-b) == -(a * b)) by (nonlinear_arith);
        }
        r
    }

    /// Whether the value is zero.
    pub fn is_zero(&self) -> (r: bool)
        ensures
            r == (self.value() == 0),
    {
        proof {
            use_type_invariant(self);
        }
        let empty: Vec<u8> = Vec::new();
        proof {
            assert(mag_value(empty@) == 0);
        }
        mag_compare(&self.digits, &empty) == 0
    }

    /// Whether the value is below zero.
    pub fn is_negative(&self) -> (r: bool)
        ensures
            r == (self.value() < 0),
    {
        self.negative && !self.is_zero()
    }

    /// Whether the value is at least one.
    pub fn is_positive(&self) -> (r: bool)
        ensures
            r == (self.value() >= 1),
    {
        !self.negative && !self.is_zero()
    }

    /// The quotient truncated toward zero; `None` when `o` is zero.
    pub fn trunc_div(&self, o: &BigInt) -> (r: Option<BigInt>)
        ensures
            o.value() == 0 ==> r is None,
            o.value() != 0 ==> (r matches Some(q) && q.value() == trunc_div(self.value(), o.value())),
    {
        if o.is_zero() {
            return None;
        }
        proof {
            use_type_invariant(self);
            use_type_invariant(o);
        }
        let (q, rem) = mag_divmod(&self.digits, &o.digits);
        let r = BigInt { negative: self.negative != o.negative, digits: q };
        proof {
            let a = mag_value(self.digits@) as int;
            let b = mag_value(o.digits@) as int;
            let qv = mag_value(q@) as int;
            vstd::arithmetic::div_mod::lemma_fundamental_div_mod_converse(a, b, qv, mag_value(rem@) as int);
            if a == 0 {
                assert(qv == 0) by (nonlinear_arith)
                    requires
                        0 == qv * b + mag_value(rem@),
                        b > 0,
                        qv >= 0,
                ;
                assert(0int / b == 0);
            }
        }
        Some(r)
    }

    /// Orders two integers: -1, 0 or 1.
    pub fn compare(&self, o: &BigInt) -> (c: i8)
        ensures
            c == -1 <==> self.value() < o.value(),
            c == 0 <==> self.value() == o.value(),
            c == 1 <==> self.value() > o.value(),
    {
        let d = self.sub(o);
        if d.is_zero() {
            0
        } else if d.is_negative() {
            -1
        } else {
            1
        }
    }

    /// The value as an `i128`, when it fits.
    pub fn to_i128(&self) -> (r: Option<i128>)
        ensures
            fits_i128(self.value()) ==> r == Some(self.value() as i128),
            !fits_i128(self.value()) ==> r is None,
    {
        proof {
            use_type_invariant(self);
        }
        let mut acc: u128 = 0;
        let mut i: usize = 0;
        proof {
            lemma_pv_zero(self.digits@);
        }
        while i < self.digits.len()
            invariant
                i <= self.digits@.len(),
                digits_ok(self.digits@),
                acc == pv(self.digits@, i as int),
            decreases self.digits@.len() - i,
        {
            proof {
                lemma_pv_step(self.digits@, i + 1);
                lemma_pv_monotone(self.digits@, i + 1);
            }
            let d = self.digits[i] as u128;
            match acc.checked_mul(10) {
                Some(m) => match m.checked_add(d) {
                    Some(n) => {
                        acc = n;
                    },
                    None => {
                        return None;
                    },
                },
                None => {
                    return None;
                },
            }
            i = i + 1;
        }
        proof {
            lemma_pv_all(self.digits@);
        }
        apply_sign(self.negative, acc)
    }

    /// Appends the value's decimal text.
    pub fn write_text(&self, out: &mut Vec<char>)
        ensures
            final(out)@ == old(out)@ + int_text(self.value()),
    {
        proof {
            use_type_invariant(self);
        }
        let s = &self.digits;
        let mut k: usize = 0;
        while k < s.len() && s[k] == 0
            invariant
                k <= s@.len(),
                forall|j: int| 0 <= j < k ==> #[trigger] s@[j] == 0,
            decreases s@.len() - k,
        {
            k = k + 1;
        }
        proof {
            lemma_skip_zeros(s@, k as int);
        }
        if k == s.len() {
            out.push('0');
            proof {
                assert(s@.skip(k as int) =~= Seq::<u8>::empty());
                assert(int_text(self.value()) =~= seq!['0']);
            }
            return;
        }
        proof {
            lemma_lead_digits(s@.skip(k as int));
        }
        if self.negative {
            out.push('-');
        }
        let ghost o1 = out@;
        let mut j: usize = k;
        while j < s.len()
            invariant
                k <= j <= s@.len(),
                digits_ok(s@),
                out@ == o1 + mag_chars(s@.subrange(k as int, j as int)),
            decreases s@.len() - j,
        {
            out.push(digit_to_char(s[j] as u128));
            assert(mag_chars(s@.subrange(k as int, j + 1)) =~= mag_chars(s@.subrange(k as int, j as int)).push(digit_char(s@[j as int] as nat)));
            j = j + 1;
        }
        assert(s@.subrange(k as int, j as int) =~= s@.skip(k as int));
        assert(final(out)@ =~= old(out)@ + int_text(self.value()));
    }
}

/// The digits of `n`.
fn mag_of(n: u128) -> (r: Vec<u8>)
    ensures
        digits_ok(r@),
        mag_value(r@) == n,
    decreases n,
{
    if n < 10 {
        let mut r: Vec<u8> = Vec::new();
        push_digit(&mut r, n as u8);
        r
    } else {
        let mut r = mag_of(n / 10);
        push_digit(&mut r, (n % 10) as u8);
        r
    }
}

} // verus!
