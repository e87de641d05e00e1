//! Number literals: integers and decimals.
use vstd::prelude::*;
use crate::value::DECIMAL_UNIT;
use crate::bigint::{BigInt, digits_ok, mag_value};

verus! {

pub open spec fn is_digit(c: char) -> bool {
    '0' <= c <= '9'
}

pub open spec fn digit_value(c: char) -> nat {
    if c == '1' { 1 }
    else if c == '2' { 2 }
    else if c == '3' { 3 }
    else if c == '4' { 4 }
    else if c == '5' { 5 }
    else if c == '6' { 6 }
    else if c == '7' { 7 }
    else if c == '8' { 8 }
    else if c == '9' { 9 }
    else { 0 }
}

pub open spec fn all_digits(s: Seq<char>) -> bool {
    forall|i: int| 0 <= i < s.len() ==> is_digit(#[trigger] s[i])
}

/// The number that a string of decimal digits denotes.
pub open spec fn digits_value(s: Seq<char>) -> nat
    decreases s.len(),
{
    if s.len() == 0 {
        0
    } else {
        digits_value(s.drop_last()) * 10 + digit_value(s.last())
    }
}

pub open spec fn fits_i128(x: int) -> bool {
    i128::MIN <= x <= i128::MAX
}

pub open spec fn has_sign(s: Seq<char>) -> bool {
    s.len() > 0 && (s[0] == '-' || s[0] == '+')
}

pub open spec fn is_negative(s: Seq<char>) -> bool {
    s.len() > 0 && s[0] == '-'
}

/// `s` without its leading sign, if any.
pub open spec fn unsigned_part(s: Seq<char>) -> Seq<char> {
    if has_sign(s) { s.skip(1) } else { s }
}

pub open spec fn signed(neg: bool, m: nat) -> int {
    if neg { -m } else { m as int }
}

/// The integer an integer literal denotes: an optional sign and one or more digits.
pub open spec fn int_literal(s: Seq<char>) -> Option<int> {
    if unsigned_part(s).len() > 0 && all_digits(unsigned_part(s)) {
        Some(signed(is_negative(s), digits_value(unsigned_part(s))))
    } else {
        None
    }
}

/// Number of digits `s` starts with.
pub open spec fn leading_digits(s: Seq<char>) -> nat
    decreases s.len(),
{
    if s.len() > 0 && is_digit(s[0]) {
        1 + leading_digits(s.skip(1))
    } else {
        0
    }
}

pub open spec fn pow10(n: nat) -> nat
    decreases n,
{
    if n == 0 { 1 } else { 10 * pow10((n - 1) as nat) }
}

/// The first nine fractional digits, padded with zeros.
pub open spec fn fraction_digits(f: Seq<char>) -> Seq<char> {
    Seq::new(9, |i: int| if i < f.len() { f[i] } else { '0' })
}

/// Billionths that fractional digits denote, digits past the ninth dropped.
pub open spec fn fraction_value(f: Seq<char>) -> nat {
    digits_value(fraction_digits(f))
}

/// The billionths a decimal literal without exponent denotes: an optional sign, digits,
/// a point and digits, with at least one digit in all.
pub open spec fn plain_decimal(s: Seq<char>) -> Option<i128> {
    let body = unsigned_part(s);
    let k = leading_digits(body) as int;
    let whole = body.take(k);
    let frac = body.skip(k + 1);
    let v = signed(is_negative(s), digits_value(whole) * (DECIMAL_UNIT as nat) + fraction_value(frac));
    if k < body.len() && body[k] == '.' && all_digits(frac) && k + frac.len() > 0 && fits_i128(v) {
        Some(v as i128)
    } else {
        None
    }
}

/// `m` times ten to the `k`, truncated toward zero when `k` is negative.
pub open spec fn scale(m: nat, k: int) -> nat {
    if k >= 0 {
        m * pow10(k as nat)
    } else {
        m / pow10((-k) as nat)
    }
}

/// Whether a literal has an exponent: digits, a point, digits, then `e` or `E`.
pub open spec fn has_exponent(s: Seq<char>) -> bool {
    let body = unsigned_part(s);
    let k = leading_digits(body) as int;
    let r = body.skip(k + 1);
    let f = leading_digits(r) as int;
    k < body.len() && body[k] == '.' && f < r.len() && (r[f] == 'e' || r[f] == 'E')
}

/// The billionths a decimal literal with exponent denotes: its digits read as one
/// number, scaled by the exponent less the count of fractional digits (plus nine),
/// truncated toward zero.
pub open spec fn exponent_decimal(s: Seq<char>) -> Option<i128> {
    let body = unsigned_part(s);
    let k = leading_digits(body) as int;
    let r = body.skip(k + 1);
    let f = leading_digits(r) as int;
    let mant = body.take(k) + r.take(f);
    match int_literal(r.skip(f + 1)) {
        Some(e) => {
            let v = signed(is_negative(s), scale(digits_value(mant), 9 + e - f));
            if mant.len() > 0 && fits_i128(v) {
                Some(v as i128)
            } else {
                None
            }
        },
        None => None,
    }
}

/// The billionths a decimal literal denotes: an optional sign, digits, a point and
/// digits, with at least one digit in all, then optionally `e` or `E` and an integer
/// exponent.
pub open spec fn decimal_literal(s: Seq<char>) -> Option<i128> {
    if has_exponent(s) {
        exponent_decimal(s)
    } else {
        plain_decimal(s)
    }
}

pub proof fn lemma_pow10_positive(n: nat)
    ensures
        pow10(n) >= 1,
    decreases n,
{
    if n > 0 {
        lemma_pow10_positive((n - 1) as nat);
    }
}

pub proof fn lemma_pow10_monotone(a: nat, b: nat)
    requires
        a <= b,
    ensures
        pow10(a) <= pow10(b),
    decreases b - a,
{
    lemma_pow10_positive(a);
    if a < b {
        lemma_pow10_monotone(a, (b - 1) as nat);
    }
}

/// A string of `n` digits denotes less than ten to the `n`.
pub proof fn lemma_digits_below(s: Seq<char>)
    ensures
        digits_value(s) < pow10(s.len()),
    decreases s.len(),
{
    if s.len() > 0 {
        lemma_digits_below(s.drop_last());
        assert(digit_value(s.last()) <= 9);
    }
}

pub proof fn lemma_digits_monotone(s: Seq<char>, k: int)
    requires
        0 <= k <= s.len(),
    ensures
        digits_value(s.take(k)) <= digits_value(s),
    decreases s.len() - k,
{
    if k < s.len() {
        lemma_digits_monotone(s, k + 1);
        assert(s.take(k + 1).drop_last() =~= s.take(k));
    } else {
        assert(s.take(k) =~= s);
    }
}

pub proof fn lemma_leading_digits(s: Seq<char>)
    ensures
        leading_digits(s) <= s.len(),
        all_digits(s.take(leading_digits(s) as int)),
        leading_digits(s) < s.len() ==> !is_digit(s[leading_digits(s) as int]),
    decreases s.len(),
{
    if s.len() > 0 && is_digit(s[0]) {
        lemma_leading_digits(s.skip(1));
        let k = leading_digits(s) as int;
        assert forall|i: int| 0 <= i < k implies is_digit(#[trigger] s.take(k)[i]) by {
            if i > 0 {
                assert(s.take(k)[i] == s.skip(1).take(k - 1)[i - 1]);
            }
        }
    }
}

fn digit_of(c: char) -> (r: u128)
    ensures
        r == digit_value(c),
{
    if c == '1' { 1 }
    else if c == '2' { 2 }
    else if c == '3' { 3 }
    else if c == '4' { 4 }
    else if c == '5' { 5 }
    else if c == '6' { 6 }
    else if c == '7' { 7 }
    else if c == '8' { 8 }
    else if c == '9' { 9 }
    else { 0 }
}

fn char_is_digit(c: char) -> (r: bool)
    ensures
        r == is_digit(c),
{
    '0' <= c && c <= '9'
}

/// Value of the digits `s[from..to]`, or `None` when it exceeds `u128`.
fn digits_in(s: &Vec<char>, from: usize, to: usize) -> (r: Option<u128>)
    requires
        from <= to <= s@.len(),
    ensures
        r == (if digits_value(s@.subrange(from as int, to as int)) <= u128::MAX {
            Some(digits_value(s@.subrange(from as int, to as int)) as u128)
        } else {
            None::<u128>
        }),
{
    let ghost t = s@.subrange(from as int, to as int);
    let mut acc: u128 = 0;
    let mut i: usize = from;
    assert(t.take(0) =~= Seq::<char>::empty());
    while i < to
        invariant
            from <= i <= to <= s@.len(),
            t == s@.subrange(from as int, to as int),
            acc == digits_value(t.take(i - from)),
        decreases to - i,
    {
        assert(t.take(i - from + 1).drop_last() =~= t.take(i - from));
        let d = digit_of(s[i]);
        match acc.checked_mul(10) {
            Some(m) => match m.checked_add(d) {
                Some(n) => {
                    acc = n;
                },
                None => {
                    proof {
                        lemma_digits_monotone(t, i - from + 1);
                    }
                    return None;
                },
            },
            None => {
                proof {
                    lemma_digits_monotone(t, i - from + 1);
                }
                return None;
            },
        }
        i = i + 1;
    }
    assert(t.take(i - from) =~= t);
    Some(acc)
}

fn all_digits_in(s: &Vec<char>, from: usize, to: usize) -> (r: bool)
    requires
        from <= to <= s@.len(),
    ensures
        r == all_digits(s@.subrange(from as int, to as int)),
{
    let mut i: usize = from;
    while i < to
        invariant
            from <= i <= to <= s@.len(),
            forall|j: int| from <= j < i ==> is_digit(#[trigger] s@[j]),
        decreases to - i,
    {
        if !char_is_digit(s[i]) {
            assert(!is_digit(s@.subrange(from as int, to as int)[i - from]));
            return false;
        }
        i = i + 1;
    }
    assert forall|j: int| 0 <= j < to - from implies is_digit(
        #[trigger] s@.subrange(from as int, to as int)[j],
    ) by {
        assert(s@.subrange(from as int, to as int)[j] == s@[from + j]);
    }
    true
}

/// Applies a sign to a magnitude when the result fits.
pub fn apply_sign(neg: bool, m: u128) -> (r: Option<i128>)
    ensures
        r == (if fits_i128(signed(neg, m as nat)) {
            Some(signed(neg, m as nat) as i128)
        } else {
            None::<i128>
        }),
{
    if neg {
        if m <= 170141183460469231731687303715884105727u128 {
            Some(-(m as i128))
        } else if m == 170141183460469231731687303715884105728u128 {
            Some(-170141183460469231731687303715884105727i128 - 1)
        } else {
            None
        }
    } else {
        if m <= 170141183460469231731687303715884105727u128 {
            Some(m as i128)
        } else {
            None
        }
    }
}

/// Where the unsigned part of a literal starts.
fn body_start(s: &Vec<char>) -> (r: usize)
    ensures
        r <= s@.len(),
        s@.skip(r as int) == unsigned_part(s@),
{
    if s.len() > 0 && (s[0] == '-' || s[0] == '+') {
        1
    } else {
        assert(s@.skip(0) =~= s@);
        0
    }
}

/// Billionths that the fractional digits `s[from..]` denote.
fn fraction_in(s: &Vec<char>, from: usize) -> (r: u128)
    requires
        from <= s@.len(),
    ensures
        r == fraction_value(s@.skip(from as int)),
        r < 1_000_000_000,
{
    let ghost f = fraction_digits(s@.skip(from as int));
    let mut acc: u128 = 0;
    let mut i: usize = 0;
    assert(f.take(0) =~= Seq::<char>::empty());
    while i < 9
        invariant
            from <= s@.len(),
            i <= 9,
            f == fraction_digits(s@.skip(from as int)),
            acc == digits_value(f.take(i as int)),
            acc < pow10(i as nat),
            pow10(i as nat) <= 1_000_000_000,
        decreases 9 - i,
    {
        assert(f.take(i + 1).drop_last() =~= f.take(i as int));
        let c = if i < s.len() - from { s[from + i] } else { '0' };
        assert(c == f[i as int]);
        let d = digit_of(c);
        proof {
            reveal_with_fuel(pow10, 10);
        }
        acc = acc * 10 + d;
        i = i + 1;
    }
    assert(f.take(9) =~= f);
    acc
}

/// Number of digits from `from` on.
fn digits_from(s: &Vec<char>, from: usize) -> (r: usize)
    requires
        from <= s@.len(),
    ensures
        from <= r <= s@.len(),
        r - from == leading_digits(s@.skip(from as int)),
{
    let mut j: usize = from;
    while j < s.len() && char_is_digit(s[j])
        invariant
            from <= j <= s@.len(),
            leading_digits(s@.skip(from as int)) == (j - from) + leading_digits(s@.skip(j as int)),
        decreases s@.len() - j,
    {
        assert(s@.skip(j as int).skip(1) =~= s@.skip(j + 1));
        j = j + 1;
    }
    j
}

/// Reads a decimal literal without exponent into billionths.
fn parse_plain_decimal(s: &Vec<char>) -> (r: Option<i128>)
    ensures
        r == plain_decimal(s@),
{
    let start = body_start(s);
    let neg = s.len() > 0 && s[0] == '-';
    let ghost body = unsigned_part(s@);
    let k = digits_from(s, start);
    assert(body.take(k - start) =~= s@.subrange(start as int, k as int));
    if k == s.len() || s[k] != '.' {
        return None;
    }
    assert(body.skip(k - start + 1) =~= s@.subrange(k + 1, s@.len() as int));
    assert(body.skip(k - start + 1) =~= s@.skip(k + 1));
    if !all_digits_in(s, k + 1, s.len()) {
        return None;
    }
    if k - start + (s.len() - k - 1) == 0 {
        return None;
    }
    let frac = fraction_in(s, k + 1);
    match digits_in(s, start, k) {
        Some(w) => match w.checked_mul(1_000_000_000) {
            Some(m) => match m.checked_add(frac) {
                Some(t) => apply_sign(neg, t),
                None => None,
            },
            None => None,
        },
        None => None,
    }
}

/// Copies `s[from..to]`.
fn chars_between(s: &Vec<char>, from: usize, to: usize) -> (r: Vec<char>)
    requires
        from <= to <= s@.len(),
    ensures
        r@ == s@.subrange(from as int, to as int),
{
    let mut r: Vec<char> = Vec::new();
    let mut i: usize = from;
    while i < to
        invariant
            from <= i <= to <= s@.len(),
            r@ == s@.subrange(from as int, i as int),
        decreases to - i,
    {
        r.push(s[i]);
        i = i + 1;
        assert(r@ =~= s@.subrange(from as int, i as int));
    }
    r
}

/// Ten to the `n`.
fn power_of_ten(n: usize) -> (r: BigInt)
    ensures
        r.value() == pow10(n as nat),
{
    let ten = BigInt::from_i128(10);
    let mut r = BigInt::from_i128(1);
    let mut i: usize = 0;
    while i < n
        invariant
            i <= n,
            ten.value() == 10,
            r.value() == pow10(i as nat),
        decreases n - i,
    {
        r = r.mul(&ten);
        i = i + 1;
        assert(pow10(i as nat) == 10 * pow10((i - 1) as nat));
    }
    r
}

/// `m` scaled by ten to the `k`, truncated toward zero; `None` when that is too large
/// for an `i128` of either sign.
fn scaled(m: &BigInt, k: &BigInt, len: usize) -> (r: Option<BigInt>)
    requires
        0 <= m.value() < pow10(len as nat),
    ensures
        r matches Some(b) ==> b.value() == scale(m.value() as nat, k.value()),
        r is None ==> scale(m.value() as nat, k.value()) > 170141183460469231731687303715884105728,
{
    let ghost mv = m.value() as nat;
    let ghost kv = k.value();
    if m.is_zero() {
        proof {
            if kv < 0 {
                lemma_pow10_positive((-kv) as nat);
                vstd::arithmetic::div_mod::lemma_basic_div(0, pow10((-kv) as nat) as int);
            }
        }
        return Some(BigInt::from_i128(0));
    }
    if k.is_negative() {
        let d = BigInt::from_i128(0).sub(k);
        let lb = BigInt::from_i128(len as i128);
        if d.compare(&lb) == 1 {
            proof {
                lemma_pow10_monotone(len as nat, (-kv) as nat);
                vstd::arithmetic::div_mod::lemma_basic_div(mv as int, pow10((-kv) as nat) as int);
            }
            return Some(BigInt::from_i128(0));
        }
        let dd = match d.to_i128() {
            Some(v) => v as usize,
            None => 0,
        };
        let p = power_of_ten(dd);
        proof {
            lemma_pow10_positive(dd as nat);
        }
        return m.trunc_div(&p);
    }
    let ten = BigInt::from_i128(10);
    let one = BigInt::from_i128(1);
    let mut cur = m.copy();
    let mut rem = k.copy();
    proof {
        assert(pow10(0) == 1);
        assert(mv * pow10(0) == mv);
    }
    while rem.is_positive()
        invariant
            ten.value() == 10,
            one.value() == 1,
            0 <= rem.value() <= kv,
            kv == k.value(),
            mv == m.value(),
            cur.value() == mv * pow10((kv - rem.value()) as nat),
        decreases rem.value(),
    {
        let ghost done = (kv - rem.value()) as nat;
        if cur.to_i128().is_none() {
            proof {
                lemma_pow10_monotone(done + 1, kv as nat);
                let p = pow10(done);
                let p1 = pow10(done + 1);
                let pk = pow10(kv as nat);
                assert(p1 == 10 * p);
                assert(mv * pk >= mv * p1) by (nonlinear_arith)
                    requires
                        pk >= p1,
                ;
                assert(mv * p1 == 10 * (mv * p)) by (nonlinear_arith)
                    requires
                        p1 == 10 * p,
                ;
                lemma_pow10_positive(done);
                assert(mv * p >= 0) by (nonlinear_arith)
                    requires
                        p >= 1,
                ;
                assert(!fits_i128(cur.value()));
                assert(cur.value() >= 170141183460469231731687303715884105728);
                assert(kv >= 0);
                assert(scale(mv, kv) == mv * pk);
                assert(cur.value() == mv * p);
                assert(scale(mv, kv) >= 10 * cur.value());
                assert(scale(mv, kv) > 170141183460469231731687303715884105728);
            }
            return None;
        }
        cur = cur.mul(&ten);
        rem = rem.sub(&one);
        proof {
            assert(pow10(done + 1) == 10 * pow10(done));
            assert(mv * pow10(done) * 10 == mv * pow10(done + 1)) by (nonlinear_arith)
                requires
                    pow10(done + 1) == 10 * pow10(done),
            ;
        }
    }
    Some(cur)
}

/// Reads a decimal literal with exponent; `k` is where its point stands and `e` where
/// its exponent mark stands.
#[verifier::rlimit(60)]
fn parse_exponent_decimal(s: &Vec<char>, start: usize, k: usize, e: usize) -> (r: Option<i128>)
    requires
        start <= k < e < s@.len(),
        s@.skip(start as int) == unsigned_part(s@),
        k - start == leading_digits(s@.skip(start as int)),
        e - (k + 1) == leading_digits(s@.skip(k + 1)),
        s@[k as int] == '.',
    ensures
        r == exponent_decimal(s@),
{
    let ghost body = unsigned_part(s@);
    let ghost kk = (k - start) as int;
    let ghost rr = body.skip(kk + 1);
    let ghost f = (e - k - 1) as int;
    assert(rr =~= s@.skip(k + 1));
    let neg = s.len() > 0 && s[0] == '-';
    let mut mant = chars_between(s, start, k);
    let frac = chars_between(s, k + 1, e);
    crate::text::append_chars(&mut mant, &frac);
    assert(mant@ =~= body.take(kk) + rr.take(f));
    let tail = chars_between(s, e + 1, s.len());
    assert(tail@ =~= rr.skip(f + 1));
    if mant.len() == 0 {
        return None;
    }
    proof {
        lemma_leading_digits(body);
        lemma_leading_digits(rr);
        assert forall|i: int| 0 <= i < mant@.len() implies is_digit(#[trigger] mant@[i]) by {
            if i < kk {
                assert(mant@[i] == body.take(kk)[i]);
            } else {
                assert(mant@[i] == rr.take(f)[i - kk]);
            }
        }
        assert(!has_sign(mant@));
        assert(unsigned_part(mant@) == mant@);
        lemma_digits_below(mant@);
    }
    let m = match parse_int_literal(&mant) {
        Some(m) => m,
        None => {
            return None;
        },
    };
    let x = match parse_int_literal(&tail) {
        Some(x) => x,
        None => {
            return None;
        },
    };
    let ghost mv = digits_value(mant@);
    assert(m.value() == mv);
    let kexp = x.add(&BigInt::from_i128(9)).sub(&BigInt::from_i128((e - k - 1) as i128));
    let ghost kv = kexp.value();
    let magnitude = match scaled(&m, &kexp, mant.len()) {
        Some(b) => b,
        None => {
            return None;
        },
    };
    assert(magnitude.value() == scale(mv, kv));
    let v = if neg { BigInt::from_i128(0).sub(&magnitude) } else { magnitude };
    v.to_i128()
}

/// Reads a decimal literal into billionths.
#[verifier::rlimit(60)]
pub fn parse_decimal_literal(s: &Vec<char>) -> (r: Option<i128>)
    ensures
        r == decimal_literal(s@),
{
    let start = body_start(s);
    let k = digits_from(s, start);
    if k < s.len() && s[k] == '.' {
        let e = digits_from(s, k + 1);
        proof {
            assert(unsigned_part(s@).skip(k - start + 1) =~= s@.skip(k + 1));
        }
        proof {
            assert(unsigned_part(s@)[k - start] == s@[k as int]);
            if e < s@.len() {
                assert(s@.skip(k + 1)[e - k - 1] == s@[e as int]);
            }
        }
        if e < s.len() && (s[e] == 'e' || s[e] == 'E') {
            return parse_exponent_decimal(s, start, k, e);
        }
    } else {
        proof {
            if k < s@.len() {
                assert(unsigned_part(s@)[k - start] == s@[k as int]);
            }
        }
    }
    parse_plain_decimal(s)
}

/// Reads an integer literal.
pub fn parse_int_literal(s: &Vec<char>) -> (r: Option<BigInt>)
    ensures
        r matches Some(b) ==> int_literal(s@) == Some(b.value()),
        r is None ==> int_literal(s@) is None,
{
    let start = body_start(s);
    let neg = s.len() > 0 && s[0] == '-';
    assert(s@.subrange(start as int, s@.len() as int) =~= unsigned_part(s@));
    if start == s.len() || !all_digits_in(s, start, s.len()) {
        return None;
    }
    let mut digits: Vec<u8> = Vec::new();
    let mut j: usize = start;
    assert(s@.subrange(start as int, start as int) =~= Seq::<char>::empty());
    while j < s.len()
        invariant
            start <= j <= s@.len(),
            all_digits(s@.subrange(start as int, s@.len() as int)),
            digits_ok(digits@),
            mag_value(digits@) == digits_value(s@.subrange(start as int, j as int)),
        decreases s@.len() - j,
    {
        assert(is_digit(s@.subrange(start as int, s@.len() as int)[j - start]));
        let d = digit_of(s[j]);
        let ghost d0 = digits@;
        digits.push(d as u8);
        proof {
            assert(digits@.drop_last() =~= d0);
            assert(s@.subrange(start as int, j + 1).drop_last() =~= s@.subrange(start as int, j as int));
            assert forall|i: int| 0 <= i < digits@.len() implies #[trigger] digits@[i] < 10 by {
                if i < d0.len() {
                    assert(digits@[i] == d0[i]);
                }
            }
        }
        j = j + 1;
    }
    Some(BigInt::from_digits(neg, digits))
}

} // verus!
