//! Decimal numerals with a fraction and an exponent, read to the nearest double.

use crate::big::{big, lemma_endless, minus, nearest_double, raised, scaled};
use crate::double::{infinite, lemma_vanishes, nothing_over, ratio, unit, Double};
use crate::figures::Signed;
use crate::text::{
    append_chars, ascii_lower, ascii_lowered, chars_of, dec, digit, digit_char, find_char,
    lemma_find_char, same_text,
};
use vstd::arithmetic::power2::{
    lemma_pow2_adds, lemma_pow2_pos, lemma_pow2_strictly_increases, lemma_pow2_unfold, pow2,
};
use vstd::prelude::*;
use vstd::string::*;

verus! {

/// Whether a character is a decimal digit.
pub open spec fn is_digit(c: char) -> bool {
    '0' <= c <= '9'
}

/// The value of a decimal digit.
pub open spec fn digit_value(c: char) -> nat {
    (c as int - '0' as int) as nat
}

/// Whether every character is a digit.
pub open spec fn all_digits(s: Seq<char>) -> bool {
    forall|i: int| 0 <= i < s.len() ==> is_digit(#[trigger] s[i])
}

/// The number that digits stand for.
pub open spec fn number(s: Seq<char>) -> nat
    decreases s.len(),
{
    if s.len() == 0 {
        0
    } else {
        10 * number(s.drop_last()) + digit_value(s.last())
    }
}

/// The text without a sign in front, and whether that was a minus.
pub open spec fn unsigned(s: Seq<char>) -> (bool, Seq<char>) {
    if s.len() > 0 && s[0] == '-' {
        (true, s.skip(1))
    } else if s.len() > 0 && s[0] == '+' {
        (false, s.skip(1))
    } else {
        (false, s)
    }
}

/// The value of an exponent: digits with or without a sign.
pub open spec fn exponent_of(s: Seq<char>) -> Option<int> {
    let (negative, digits) = unsigned(s);
    if digits.len() == 0 || !all_digits(digits) {
        None
    } else if negative {
        Some(-(number(digits) as int))
    } else {
        Some(number(digits) as int)
    }
}

/// The digits in front of the point, and those behind it.
pub open spec fn point_parts(s: Seq<char>) -> (Seq<char>, Seq<char>) {
    let dot = find_char(s, '.') as int;
    if dot < s.len() {
        (s.take(dot), s.skip(dot + 1))
    } else {
        (s, Seq::empty())
    }
}

/// The double nearest to `n` times ten to the power of `e`.
pub open spec fn decimal_of(n: nat, e: int) -> nat {
    if e >= 0 {
        ratio(n * ten_to(e as nat), 1)
    } else {
        ratio(n, ten_to((0 - e) as nat))
    }
}

/// The value of a numeral without sign: digits with at most one point among them
/// and at least one digit, and an exponent behind an `e`.
pub open spec fn magnitude(s: Seq<char>) -> Option<nat> {
    let e = find_char(s, 'e') as int;
    let (whole, frac) = point_parts(s.take(e));
    let exponent = if e < s.len() {
        exponent_of(s.skip(e + 1))
    } else {
        Some(0)
    };
    match exponent {
        None => None,
        Some(x) => if all_digits(whole) && all_digits(frac) && whole.len() + frac.len() > 0 {
            Some(decimal_of(number(whole + frac), x - frac.len()))
        } else {
            None
        },
    }
}

/// What a text says as a numeral.
#[derive(Debug, Clone, Copy, PartialEq, Eq)]
pub enum Reading {
    Value(Signed),
    /// The word for what is not a number.
    Unknown,
    /// No numeral.
    Malformed,
}

/// The value of a reading.
pub enum ReadingView {
    Value(int),
    Unknown,
    Malformed,
}

impl View for Reading {
    type V = ReadingView;

    open spec fn view(&self) -> ReadingView {
        match self {
            Reading::Value(x) => ReadingView::Value(x@),
            Reading::Unknown => ReadingView::Unknown,
            Reading::Malformed => ReadingView::Malformed,
        }
    }
}

/// A size with a sign.
pub open spec fn with_sign(negative: bool, n: nat) -> int {
    if negative {
        -(n as int)
    } else {
        n as int
    }
}

/// What a text says as a numeral: the nearest double. Signs, exponents and the
/// words `inf`, `infinity` and `nan` in any case are read as `f64::from_str` reads
/// them.
pub open spec fn reading_of(s: Seq<char>) -> ReadingView {
    let (negative, body) = unsigned(ascii_lowered(s));
    if body == "nan"@ {
        ReadingView::Unknown
    } else if body == "inf"@ || body == "infinity"@ {
        ReadingView::Value(with_sign(negative, infinite()))
    } else {
        match magnitude(body) {
            None => ReadingView::Malformed,
            Some(n) => ReadingView::Value(with_sign(negative, n)),
        }
    }
}

// ---- reading ----

fn lower(c: char) -> (r: char)
    ensures
        r == ascii_lower(c),
{
    if 'A' <= c && c <= 'Z' {
        ((c as u8) + 32) as char
    } else {
        c
    }
}

/// The characters of a text with ASCII capitals turned into small letters.
pub fn lowered(s: &str) -> (r: Vec<char>)
    ensures
        r@ == ascii_lowered(s@),
{
    let v = chars_of(s);
    let mut out: Vec<char> = Vec::new();
    let mut i: usize = 0;
    while i < v.len()
        invariant
            v@ == s@,
            i <= v@.len(),
            out@.len() == i,
            forall|k: int| 0 <= k < i ==> out@[k] == ascii_lower(v@[k]),
        decreases v@.len() - i,
    {
        out.push(lower(v[i]));
        i += 1;
    }
    assert(out@ =~= ascii_lowered(s@));
    out
}

fn only_digits(v: &Vec<char>, from: usize, to: usize) -> (r: bool)
    requires
        from <= to <= v@.len(),
    ensures
        r == all_digits(v@.subrange(from as int, to as int)),
{
    let ghost s = v@.subrange(from as int, to as int);
    let mut i: usize = from;
    while i < to
        invariant
            from <= i <= to <= v@.len(),
            s == v@.subrange(from as int, to as int),
            forall|k: int| 0 <= k < i - from ==> is_digit(#[trigger] s[k]),
        decreases to - i,
    {
        if v[i] < '0' || v[i] > '9' {
            assert(!is_digit(s[i - from]));
            return false;
        }
        i += 1;
    }
    true
}

/// The number that digits stand for, as far as it does not exceed `cap`.
fn number_capped(v: &Vec<char>, from: usize, to: usize, cap: u128) -> (r: u128)
    requires
        from <= to <= v@.len(),
        all_digits(v@.subrange(from as int, to as int)),
        cap <= 1_000_000_000_000_000_000_000_000_000_000,
    ensures
        r <= cap,
        number(v@.subrange(from as int, to as int)) <= cap ==> r == number(
            v@.subrange(from as int, to as int),
        ),
        number(v@.subrange(from as int, to as int)) > cap ==> r == cap,
{
    let ghost s = v@.subrange(from as int, to as int);
    let mut acc: u128 = 0;
    let mut i: usize = from;
    assert(s.take(0) =~= Seq::<char>::empty());
    while i < to
        invariant
            from <= i <= to <= v@.len(),
            s == v@.subrange(from as int, to as int),
            all_digits(s),
            cap <= 1_000_000_000_000_000_000_000_000_000_000,
            acc <= cap,
            number(s.take(i - from)) <= cap ==> acc == number(s.take(i - from)),
            number(s.take(i - from)) > cap ==> acc == cap,
        decreases to - i,
    {
        let ghost before = s.take(i - from);
        let ghost after = s.take(i + 1 - from);
        assert(after.drop_last() =~= before);
        assert(after.last() == v@[i as int]);
        assert(is_digit(s[i - from]));
        let d: u128 = (v[i] as u8 - '0' as u8) as u128;
        let next: u128 = 10 * acc + d;
        acc = if next <= cap {
            next
        } else {
            cap
        };
        i += 1;
    }
    assert(s.take(i - from) =~= s);
    acc
}

/// The number that the digits `v[from..to]` stand for, as far as it does not
/// exceed ten to the thirty.
pub fn read_number(v: &Vec<char>, from: usize, to: usize) -> (r: Option<u128>)
    requires
        from <= to <= v@.len(),
    ensures
        ({
            let s = v@.subrange(from as int, to as int);
            if s.len() == 0 || !all_digits(s) {
                r is None
            } else {
                &&& r is Some
                &&& r->Some_0 <= 1_000_000_000_000_000_000_000_000_000_000
                &&& r->Some_0 == number(s) || (r->Some_0
                    == 1_000_000_000_000_000_000_000_000_000_000 && number(s) > r->Some_0)
            }
        }),
{
    if from == to || !only_digits(v, from, to) {
        return None;
    }
    Some(number_capped(v, from, to, 1_000_000_000_000_000_000_000_000_000_000))
}

/// The value of an exponent, as far as it is told apart.
fn read_exponent(v: &Vec<char>, from: usize) -> (r: Option<i128>)
    requires
        from <= v@.len(),
    ensures
        match exponent_of(v@.skip(from as int)) {
            None => r is None,
            Some(x) => r matches Some(n) && -1_000_000_000_000_000_000_000_000_000_000 <= n
                <= 1_000_000_000_000_000_000_000_000_000_000 && (n == x || (n
                == 1_000_000_000_000_000_000_000_000_000_000 && x > n) || (n
                == -1_000_000_000_000_000_000_000_000_000_000 && x < n)),
        },
{
    let ghost s = v@.skip(from as int);
    let n: usize = v.len();
    let negative = from < n && v[from] == '-';
    let start: usize = if from < n && (v[from] == '-' || v[from] == '+') {
        from + 1
    } else {
        from
    };
    proof {
        if from < n {
            assert(s[0] == v@[from as int]);
            assert(s.skip(1) =~= v@.skip(from + 1));
        }
        assert(unsigned(s).1 =~= v@.subrange(start as int, n as int));
        assert(unsigned(s).0 == negative);
    }
    let size: u128 = match read_number(v, start, n) {
        None => {
            return None;
        },
        Some(m) => m,
    };
    if negative {
        Some(-(size as i128))
    } else {
        Some(size as i128)
    }
}

/// Digits stand for less than a one with as many zeros.
proof fn lemma_number_bound(s: Seq<char>)
    requires
        all_digits(s),
    ensures
        number(s) < ten_to(s.len()),
    decreases s.len(),
{
    if s.len() > 0 {
        assert(is_digit(s[s.len() - 1]));
        assert(all_digits(s.drop_last())) by {
            assert forall|i: int| 0 <= i < s.len() - 1 implies is_digit(
                #[trigger] s.drop_last()[i],
            ) by {
                assert(is_digit(s[i]));
            }
        }
        lemma_number_bound(s.drop_last());
    }
}

proof fn lemma_tens(a: nat, b: nat)
    ensures
        ten_to(a + b) == ten_to(a) * ten_to(b),
        ten_to(a) > 0,
        ten_to(a) >= pow2(3 * a),
    decreases a,
{
    vstd::arithmetic::power2::lemma2_to64();
    if a == 0 {
        assert(1 * ten_to(b) == ten_to(b));
    } else {
        let c = (a - 1) as nat;
        lemma_tens(c, b);
        assert(ten_to(a + b) == 10 * ten_to((a + b - 1) as nat));
        assert((a + b - 1) as nat == c + b);
        let (x, y) = (ten_to(c), ten_to(b));
        assert(10 * (x * y) == (10 * x) * y) by (nonlinear_arith);
        lemma_pow2_adds(3, 3 * c);
        assert(3 + 3 * c == 3 * a);
    }
}

/// A number with so many zeros behind it is infinite.
proof fn lemma_far_above(n: nat, e: int)
    requires
        n > 0,
        e >= 400,
    ensures
        decimal_of(n, e) == infinite(),
{
    let t = ten_to(e as nat);
    lemma_tens(400, (e - 400) as nat);
    lemma_tens((e - 400) as nat, 0);
    let (x, y) = (ten_to(400), ten_to((e - 400) as nat));
    lemma_pow2_strictly_increases(1024, 1200);
    lemma_pow2_adds(1024, 1074);
    let u = unit();
    let f = pow2(1024);
    assert((n * t) * u >= 1 * (f * u)) by (nonlinear_arith)
        requires
            n >= 1,
            t == x * y,
            x >= f,
            y >= 1,
            u >= 0,
    {
        assert(x * y >= f);
        assert(n * t >= f);
    }
    lemma_endless((n * t) * u, 1);
}

/// A number so far behind the point vanishes.
proof fn lemma_far_below(n: nat, len: nat, e: int)
    requires
        n < ten_to(len),
        e < -(len + 400),
    ensures
        decimal_of(n, e) == 0,
{
    let down = (0 - e) as nat;
    let rest = (down - len - 400) as nat;
    lemma_tens(len + 400, rest);
    lemma_tens(len, 400);
    lemma_tens(400, 0);
    lemma_tens(rest, 0);
    lemma_pow2_strictly_increases(1075, 1200);
    lemma_pow2_unfold(1075);
    lemma_pow2_pos(1074);
    let (a, b, c) = (ten_to(len), ten_to(400), ten_to(rest));
    let u = unit();
    let d = ten_to(down);
    assert((len + 400) + rest == down);
    assert(2 * (n * u) < d) by (nonlinear_arith)
        requires
            d == (a * b) * c,
            n < a,
            b >= 2 * u,
            c >= 1,
            u > 0,
            n >= 0,
    {
        assert(a * b >= (n + 1) * b);
        assert((n + 1) * b >= (n + 1) * (2 * u));
        assert((n + 1) * (2 * u) == 2 * (n * u) + 2 * u);
        assert((a * b) * c >= a * b);
    }
    vstd::arithmetic::power2::lemma2_to64();
    assert(d * 1 == d);
    lemma_vanishes(n * u, d, n * u, d, 0);
}

/// The number that digits stand for.
fn read_digits(digits: &Vec<char>) -> (r: Vec<u32>)
    requires
        all_digits(digits@),
    ensures
        big(r@) == number(digits@),
{
    let mut r: Vec<u32> = Vec::new();
    let mut i: usize = 0;
    assert(digits@.take(0) =~= Seq::<char>::empty());
    while i < digits.len()
        invariant
            i <= digits@.len(),
            all_digits(digits@),
            big(r@) == number(digits@.take(i as int)),
        decreases digits@.len() - i,
    {
        proof {
            let t = digits@.take(i + 1);
            assert(t.drop_last() =~= digits@.take(i as int));
            assert(is_digit(digits@[i as int]));
        }
        r = scaled(&r, 10, digits[i] as u32 - '0' as u32);
        i += 1;
    }
    assert(digits@.take(i as int) =~= digits@);
    r
}

/// The double nearest to digits times ten to the power of `e`.
fn read_decimal(digits: &Vec<char>, e: i128, exact: Ghost<int>) -> (r: Double)
    requires
        all_digits(digits@),
        e == exact@ || (e > 400_000_000_000_000_000_000_000_000_000 && exact@ > e) || (e
            < -400_000_000_000_000_000_000_000_000_000 && exact@ < e),
        -0x4000_0000_0000_0000_0000_0000_0000_0000 < e
            < 0x4000_0000_0000_0000_0000_0000_0000_0000,
    ensures
        r@ == decimal_of(number(digits@), exact@),
{
    let n = read_digits(digits);
    let nothing: Vec<u32> = Vec::new();
    let len: usize = digits.len();
    proof {
        lemma_number_bound(digits@);
    }
    if minus(&nothing, &n).is_some() {
        proof {
            assert(0 * ten_to(exact@ as nat) == 0);
            nothing_over(1);
            if exact@ < 0 {
                lemma_tens((0 - exact@) as nat, 0);
                nothing_over(ten_to((0 - exact@) as nat));
            }
        }
        return Double::zero();
    }
    if e >= 400 {
        proof {
            lemma_far_above(number(digits@), exact@);
        }
        return Double::infinity();
    }
    if e < -(len as i128) - 400 {
        proof {
            lemma_far_below(number(digits@), digits@.len(), exact@);
        }
        return Double::zero();
    }
    let mut one: Vec<u32> = Vec::new();
    one = scaled(&one, 1, 1);
    if e >= 0 {
        let num = raised(&with_zeros(&n, e as u128), 1074);
        nearest_double(&num, &one)
    } else {
        let places: u128 = (0 - e) as u128;
        let den = with_zeros(&one, places);
        proof {
            lemma_tens((0 - e) as nat, 0);
            assert(1 * ten_to((0 - e) as nat) == ten_to((0 - e) as nat));
        }
        nearest_double(&raised(&n, 1074), &den)
    }
}

/// Ten to the power of `k`, times a number.
fn with_zeros(v: &Vec<u32>, k: u128) -> (r: Vec<u32>)
    ensures
        big(r@) == big(v@) * ten_to(k as nat),
{
    let mut r: Vec<u32> = scaled(v, 1, 0);
    let mut i: u128 = 0;
    assert(big(v@) * 1 == big(v@));
    while i < k
        invariant
            i <= k,
            big(r@) == big(v@) * ten_to(i as nat),
        decreases k - i,
    {
        proof {
            let (n, t) = (big(v@), ten_to(i as nat));
            assert(ten_to((i + 1) as nat) == 10 * t);
            assert(n * (10 * t) == (n * t) * 10) by (nonlinear_arith);
        }
        r = scaled(&r, 10, 0);
        i += 1;
    }
    r
}

/// The value of a numeral without sign, from `from` on.
fn read_magnitude(v: &Vec<char>, from: usize) -> (r: Option<Double>)
    requires
        from <= v@.len(),
    ensures
        match magnitude(v@.skip(from as int)) {
            None => r is None,
            Some(n) => r matches Some(x) && x@ == n,
        },
{
    let ghost s = v@.skip(from as int);
    let n: usize = v.len();
    let e: usize = crate::text::find_from(v, from, 'e');
    let exponent: i128 = if e < n {
        assert(s.skip(e - from + 1) =~= v@.skip(e + 1));
        match read_exponent(v, e + 1) {
            None => {
                return None;
            },
            Some(x) => x,
        }
    } else {
        0
    };
    let ghost exact: int = if e < n {
        exponent_of(s.skip(e - from + 1))->Some_0
    } else {
        0
    };
    let ghost mant = s.take(e - from);
    assert(mant =~= v@.subrange(from as int, e as int));
    let dot: usize = crate::text::find_in(v, from, e, '.');
    let start: usize = if dot < e {
        dot + 1
    } else {
        e
    };
    proof {
        let (whole, frac) = point_parts(mant);
        assert(whole =~= v@.subrange(from as int, dot as int));
        assert(frac =~= v@.subrange(start as int, e as int));
    }
    if !only_digits(v, from, dot) || !only_digits(v, start, e) {
        return None;
    }
    if dot - from == 0 && e - start == 0 {
        return None;
    }
    let mut digits: Vec<char> = Vec::new();
    append_chars(&mut digits, v, from, dot);
    append_chars(&mut digits, v, start, e);
    let power: i128 = exponent - (e - start) as i128;
    proof {
        let (whole, frac) = point_parts(mant);
        assert(digits@ =~= whole + frac);
        assert forall|i: int| 0 <= i < digits@.len() implies is_digit(#[trigger] digits@[i]) by {
            if i < whole.len() {
                assert(is_digit(whole[i]));
            } else {
                assert(is_digit(frac[i - whole.len()]));
            }
        }
    }
    Some(read_decimal(&digits, power, Ghost(exact - (e - start))))
}

/// Reads a numeral.
pub fn read_double(s: &str) -> (r: Reading)
    ensures
        r@ == reading_of(s@),
{
    let v = lowered(s);
    let n: usize = v.len();
    let negative = n > 0 && v[0] == '-';
    let start: usize = if n > 0 && (v[0] == '-' || v[0] == '+') {
        1
    } else {
        0
    };
    let body = crate::text::string_of_range(&v, start, n);
    proof {
        assert(v@.skip(start as int) =~= v@.subrange(start as int, n as int));
        assert(unsigned(v@).1 =~= v@.skip(start as int));
    }
    if same_text(body.as_str(), "nan") {
        return Reading::Unknown;
    }
    if same_text(body.as_str(), "inf") || same_text(body.as_str(), "infinity") {
        return Reading::Value(Signed { negative, size: Double::infinity() });
    }
    match read_magnitude(&v, start) {
        None => Reading::Malformed,
        Some(size) => Reading::Value(Signed { negative, size }),
    }
}

// ---- writing ----

/// Ten to the power of `n`.
pub open spec fn ten_to(n: nat) -> nat
    decreases n,
{
    if n == 0 {
        1
    } else {
        10 * ten_to((n - 1) as nat)
    }
}

/// The last `k` digits of a number, with zeros in front.
pub open spec fn last_digits(n: nat, k: nat) -> Seq<char>
    decreases k,
{
    if k == 0 {
        Seq::empty()
    } else {
        last_digits(n / 10, (k - 1) as nat).push(digit_char(n % 10))
    }
}

/// A number in units of ten to the minus `decimals`, written with its point.
pub open spec fn pointed(n: nat, decimals: nat) -> Seq<char> {
    if decimals == 0 {
        dec(n)
    } else {
        dec(n / ten_to(decimals)) + "."@ + last_digits(n % ten_to(decimals), decimals)
    }
}

/// The whole number nearest to `n / unit`, the even one in the middle of two.
pub open spec fn nearest(n: nat, unit: nat) -> nat {
    let q = n / unit;
    let over = 2 * (n % unit);
    if over > unit || over == unit && q % 2 == 1 {
        q + 1
    } else {
        q
    }
}

/// Ten to the power of `n`.
pub fn power(n: u32) -> (r: u64)
    requires
        n <= 19,
    ensures
        r == ten_to(n as nat),
        1 <= r <= 10_000_000_000_000_000_000,
    decreases n,
{
    if n == 0 {
        1
    } else {
        let before: u64 = power(n - 1);
        proof {
            lemma_power_bound((n - 1) as nat);
        }
        10 * before
    }
}

proof fn lemma_power_bound(n: nat)
    requires
        n <= 18,
    ensures
        10 * ten_to(n) <= 10_000_000_000_000_000_000,
{
    reveal_with_fuel(ten_to, 19);
    lemma_powers_grow(n, 18);
}

proof fn lemma_powers_grow(a: nat, b: nat)
    requires
        a <= b,
    ensures
        ten_to(a) <= ten_to(b),
    decreases b,
{
    if a < b {
        lemma_powers_grow(a, (b - 1) as nat);
    }
}

/// Writes the last `k` digits of a number, with zeros in front.
pub fn write_last_digits(n: u64, k: u32) -> (r: String)
    ensures
        r@ == last_digits(n as nat, k as nat),
    decreases k,
{
    if k == 0 {
        let out = String::new();
        assert(out@ =~= last_digits(n as nat, 0));
        out
    } else {
        let mut out = write_last_digits(n / 10, k - 1);
        out.push(digit(n % 10));
        out
    }
}

// ---- laws ----

/// The decimal numeral of a number is digits, does not start with a zero unless
/// it is zero, and reads back as that number.
pub proof fn numerals_read_back(n: nat)
    ensures
        all_digits(dec(n)),
        dec(n).len() > 0,
        number(dec(n)) == n,
        n > 0 ==> dec(n)[0] != '0',
    decreases n,
{
    let d = dec(n);
    if n < 10 {
        assert(d.drop_last() =~= Seq::<char>::empty());
        assert(number(d.drop_last()) == 0);
    } else {
        numerals_read_back(n / 10);
        assert(d.drop_last() =~= dec(n / 10));
        assert(d[0] == dec(n / 10)[0]);
        assert forall|i: int| 0 <= i < d.len() implies is_digit(#[trigger] d[i]) by {
            if i < d.len() - 1 {
                assert(d[i] == dec(n / 10)[i]);
            }
        }
    }
}

/// A numeral of digits alone is read as the whole number it stands for.
pub proof fn whole_numerals_are_read(n: nat)
    requires
        n <= 0x20_0000_0000_0000,
    ensures
        reading_of(dec(n)) == ReadingView::Value((n * unit()) as int),
{
    let s = dec(n);
    numerals_read_back(n);
    assert forall|i: int| 0 <= i < s.len() implies #[trigger] ascii_lowered(s)[i] == s[i] by {
        assert(is_digit(s[i]));
    }
    assert(ascii_lowered(s) =~= s);
    assert(is_digit(s[0]));
    reveal_strlit("nan");
    reveal_strlit("inf");
    reveal_strlit("infinity");
    lemma_find_char(s, 'e');
    assert(find_char(s, 'e') == s.len()) by {
        if find_char(s, 'e') < s.len() {
            assert(is_digit(s[find_char(s, 'e') as int]));
        }
    }
    assert(s.take(s.len() as int) =~= s);
    lemma_find_char(s, '.');
    assert(find_char(s, '.') == s.len()) by {
        if find_char(s, '.') < s.len() {
            assert(is_digit(s[find_char(s, '.') as int]));
        }
    }
    assert(s + Seq::<char>::empty() =~= s);
    assert(ten_to(0) == 1);
    assert(n * 1 == n);
    crate::double::small_is_whole(n);
}

} // verus!
