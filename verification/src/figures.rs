//! Doubles as text, and doubles with a sign.

use vstd::arithmetic::power2::{lemma_pow2_pos, lemma_pow2_unfold, pow2};
use vstd::prelude::*;

use crate::double::{
    double, infinite, lemma_nearest, lemma_same_quotient, nothing_over, nothing_times, one_is_whole,
    over, ratio, times, unit, whole, whole_is_positive, Double, TOP,
};
use crate::numeral::{
    all_digits, is_digit, last_digits, nearest, number, pointed, power, ten_to, write_last_digits,
};
use crate::text::{dec, decimal, digit, digit_char};

verus! {

/// A double written with a fixed number of decimals, rounded to the nearest and
/// to an even digit in the middle.
pub open spec fn fixed(n: nat, decimals: nat) -> Seq<char> {
    if n >= infinite() {
        "inf"@
    } else {
        pointed(nearest(n * ten_to(decimals), unit()), decimals)
    }
}

/// The same with a sign.
pub open spec fn fixed_signed(n: int, decimals: nat) -> Seq<char> {
    if n < 0 {
        "-"@ + fixed((0 - n) as nat, decimals)
    } else {
        fixed(n as nat, decimals)
    }
}

/// Whether a double reads back from its text with this many decimals.
pub open spec fn reads_back(n: nat, decimals: nat) -> bool {
    ratio(nearest(n * ten_to(decimals), unit()), ten_to(decimals)) == n
}

/// The least number of decimals, from `d` on, with which a double reads back;
/// the nineteenth is the last.
pub open spec fn decimals_from(n: nat, d: nat) -> nat
    decreases 19 - d,
{
    if d >= 19 || reads_back(n, d) {
        d
    } else {
        decimals_from(n, d + 1)
    }
}

/// A double written with no more decimals than it takes to read it back.
pub open spec fn plain(n: nat) -> Seq<char> {
    if n >= TOP * unit() {
        fixed(n, 0)
    } else {
        pointed(nearest(n * ten_to(decimals_from(n, 0)), unit()), decimals_from(n, 0))
    }
}

/// The same with a sign.
pub open spec fn plain_signed(n: int) -> Seq<char> {
    if n < 0 {
        "-"@ + plain((0 - n) as nat)
    } else {
        plain(n as nat)
    }
}

/// The number that digits stand for, the lowest first.
spec fn from_lowest(v: Seq<u8>) -> nat
    decreases v.len(),
{
    if v.len() == 0 {
        0
    } else {
        v.first() as nat + 10 * from_lowest(v.drop_first())
    }
}

spec fn digits_only(v: Seq<u8>) -> bool {
    forall|i: int| 0 <= i < v.len() ==> v[i] < 10
}

/// Twice the digits from `i` on, and a carry.
fn double_from(v: &Vec<u8>, i: usize, carry: u8, out: &mut Vec<u8>)
    requires
        i <= v@.len(),
        carry <= 1,
        digits_only(v@),
        digits_only(old(out)@),
        v@.len() > 0 ==> v@.last() > 0,
    ensures
        digits_only(final(out)@),
        final(out)@.len() >= old(out)@.len(),
        final(out)@.take(old(out)@.len() as int) == old(out)@,
        from_lowest(final(out)@.skip(old(out)@.len() as int)) == 2 * from_lowest(v@.skip(i as int))
            + carry,
        i < v@.len() || carry > 0 ==> final(out)@.len() > old(out)@.len() && final(out)@.last() > 0,
        i == v@.len() && carry == 0 ==> final(out)@ == old(out)@,
    decreases v@.len() - i,
{
    let ghost start = out@;
    let ghost rest = v@.skip(i as int);
    if i == v.len() {
        assert(rest.len() == 0);
        if carry > 0 {
            out.push(carry);
            proof {
                let tail = out@.skip(start.len() as int);
                assert(tail =~= seq![carry]);
                assert(tail.drop_first().len() == 0);
                reveal_with_fuel(from_lowest, 2);
                assert(out@.take(start.len() as int) =~= start);
            }
        } else {
            assert(out@.take(start.len() as int) =~= start);
            assert(out@.skip(start.len() as int).len() == 0);
        }
        return;
    }
    let twice: u8 = 2 * v[i] + carry;
    out.push(twice % 10);
    let ghost mid = out@;
    double_from(v, i + 1, twice / 10, out);
    proof {
        let tail = out@.skip(start.len() as int);
        assert(out@.take(mid.len() as int) == mid);
        assert(out@[start.len() as int] == mid[start.len() as int]) by {
            assert(out@.take(mid.len() as int)[start.len() as int] == mid[start.len() as int]);
        }
        assert(out@.take(start.len() as int) =~= start) by {
            assert forall|k: int| 0 <= k < start.len() implies out@[k] == start[k] by {
                assert(out@.take(mid.len() as int)[k] == mid[k]);
            }
        }
        assert(tail.drop_first() =~= out@.skip(mid.len() as int));
        assert(tail.first() == twice % 10);
        assert(rest.drop_first() =~= v@.skip(i + 1));
        assert(rest.first() == v@[i as int]);
        if i + 1 == v@.len() && twice / 10 == 0 {
            assert(v@.last() == v@[i as int]);
            assert(out@.last() == twice % 10);
        }
    }
}

/// Digits that do not start with a zero write their number.
proof fn lemma_written(v: Seq<u8>, text: Seq<char>)
    requires
        digits_only(v),
        v.len() > 0,
        v.last() > 0,
        text.len() == v.len(),
        forall|k: int| 0 <= k < v.len() ==> text[k] == digit_char(v[v.len() - 1 - k] as nat),
    ensures
        text == dec(from_lowest(v)),
        from_lowest(v) > 0,
    decreases v.len(),
{
    let rest = v.drop_first();
    if v.len() == 1 {
        reveal_with_fuel(from_lowest, 2);
        assert(text =~= seq![digit_char(v[0] as nat)]);
    } else {
        assert(rest.last() == v.last());
        let front = text.drop_last();
        assert forall|k: int| 0 <= k < rest.len() implies front[k] == digit_char(
            rest[rest.len() - 1 - k] as nat,
        ) by {
            assert(text[k] == digit_char(v[v.len() - 1 - k] as nat));
        }
        lemma_written(rest, front);
        let low = v.first() as nat;
        let high = from_lowest(rest);
        assert(text.last() == digit_char(low));
        assert(text =~= front.push(digit_char(low)));
    }
}

/// Writes a number that has been doubled `k` times.
fn write_doubled(m: u64, k: u32) -> (r: String)
    requires
        m > 0,
    ensures
        r@ == dec(m as nat * pow2(k as nat)),
{
    let mut v: Vec<u8> = lowest_first(m);
    let mut i: u32 = 0;
    proof {
        vstd::arithmetic::power2::lemma2_to64();
        assert(m * 1 == m);
    }
    while i < k
        invariant
            i <= k,
            digits_only(v@),
            v@.len() > 0,
            v@.last() > 0,
            from_lowest(v@) == m * pow2(i as nat),
        decreases k - i,
    {
        let mut out: Vec<u8> = Vec::new();
        double_from(&v, 0, 0, &mut out);
        proof {
            assert(v@.skip(0) =~= v@);
            assert(out@.skip(0) =~= out@);
            lemma_pow2_unfold((i + 1) as nat);
            let h = pow2(i as nat);
            assert(m * (2 * h) == 2 * (m * h)) by (nonlinear_arith);
        }
        v = out;
        i += 1;
    }
    let mut text = String::new();
    let mut j: usize = v.len();
    while j > 0
        invariant
            j <= v@.len(),
            digits_only(v@),
            text@.len() == v@.len() - j,
            forall|q: int|
                0 <= q < text@.len() ==> text@[q] == digit_char(v@[v@.len() - 1 - q] as nat),
        decreases j,
    {
        j -= 1;
        text.push(digit(v[j] as u64));
    }
    proof {
        lemma_written(v@, text@);
    }
    text
}

/// The digits of a number, the lowest first.
fn lowest_first(n: u64) -> (r: Vec<u8>)
    requires
        n > 0,
    ensures
        digits_only(r@),
        r@.len() > 0,
        r@.last() > 0,
        from_lowest(r@) == n,
{
    let mut v: Vec<u8> = Vec::new();
    let mut rest: u64 = n;
    let ghost mut scale: nat = 1;
    assert(scale * rest == rest);
    while rest > 0
        invariant
            digits_only(v@),
            from_lowest(v@) + scale * rest == n,
            scale == ten_to(v@.len()),
            rest == 0 ==> v@.len() > 0 && v@.last() > 0,
        decreases rest,
    {
        let low: u8 = (rest % 10) as u8;
        let ghost before = v@;
        let high: u64 = rest / 10;
        proof {
            lemma_next_digit(before, low);
            assert(scale * rest == scale * low + (10 * scale) * high) by (nonlinear_arith)
                requires
                    rest == 10 * high + low,
            ;
            scale = 10 * scale;
        }
        v.push(low);
        rest = high;
        assert(rest == 0 ==> low > 0);
    }
    assert(scale * 0 == 0);
    v
}

/// A further digit counts in the next power of ten.
proof fn lemma_next_digit(v: Seq<u8>, low: u8)
    ensures
        from_lowest(v.push(low)) == from_lowest(v) + ten_to(v.len()) * low,
    decreases v.len(),
{
    let w = v.push(low);
    if v.len() == 0 {
        reveal_with_fuel(from_lowest, 2);
        assert(w.drop_first().len() == 0);
        assert(w.first() == low);
        assert(ten_to(0) * low == low) by (nonlinear_arith)
            requires
                ten_to(0) == 1,
        ;
    } else {
        assert(w.drop_first() =~= v.drop_first().push(low));
        assert(w.first() == v.first());
        lemma_next_digit(v.drop_first(), low);
        let t = ten_to((v.len() - 1) as nat);
        assert(ten_to(v.len()) == 10 * t);
        assert((10 * t) * low == 10 * (t * low)) by (nonlinear_arith);
    }
}

/// Writes a number in units of ten to the minus `decimals` with its point.
fn show_pointed(q: u128, decimals: u32) -> (r: String)
    requires
        decimals <= 19,
        q as nat / ten_to(decimals as nat) <= u64::MAX,
    ensures
        r@ == pointed(q as nat, decimals as nat),
{
    let one: u64 = power(decimals);
    if decimals == 0 {
        assert(q / 1 == q);
        return decimal(q as u64);
    }
    let mut out = decimal((q / (one as u128)) as u64);
    out.append(".");
    out.append(write_last_digits((q % (one as u128)) as u64, decimals).as_str());
    out
}

/// A quotient of what was scaled is small.
proof fn lemma_scaled_fits(q: nat, t: nat)
    requires
        t > 0,
        q <= TOP * t,
    ensures
        q / t <= u64::MAX,
{
    assert(q / t <= TOP) by (nonlinear_arith)
        requires
            t > 0,
            q <= TOP * t,
    ;
}

/// A whole number is its own rounding, with zeros behind the point.
proof fn lemma_whole_scaled(w: nat, t: nat)
    requires
        t > 0,
    ensures
        nearest((w * unit()) * t, unit()) == w * t,
        (w * t) / t == w,
        (w * t) % t == 0,
{
    lemma_pow2_pos(1074);
    let u = unit();
    assert((w * u) * t == (w * t) * u) by (nonlinear_arith);
    vstd::arithmetic::div_mod::lemma_div_multiples_vanish((w * t) as int, u as int);
    vstd::arithmetic::div_mod::lemma_mod_multiples_basic((w * t) as int, u as int);
    vstd::arithmetic::div_mod::lemma_div_multiples_vanish(w as int, t as int);
    vstd::arithmetic::div_mod::lemma_mod_multiples_basic(w as int, t as int);
    assert(u * (w * t) == (w * t) * u) by (nonlinear_arith);
    assert(t * w == w * t) by (nonlinear_arith);
}

/// Writes a double with a fixed number of decimals.
pub fn show_fixed(x: Double, decimals: u32) -> (r: String)
    requires
        decimals <= 19,
    ensures
        r@ == fixed(x@, decimals as nat),
{
    if !x.less(Double::infinity()) {
        return "inf".to_owned();
    }
    let one: u64 = power(decimals);
    match x.scaled(one) {
        Some(q) => {
            proof {
                lemma_scaled_fits(q as nat, one as nat);
            }
            show_pointed(q, decimals)
        },
        None => {
            let (m, k) = x.large_parts();
            proof {
                let w = m as nat * pow2(k as nat);
                lemma_whole_scaled(w, one as nat);
                if m == 0 {
                    assert(0 * pow2(k as nat) == 0);
                    assert(0 * unit() == 0);
                    lemma_pow2_pos(1074);
                    assert(TOP * unit() > 0) by (nonlinear_arith)
                        requires
                            unit() > 0,
                            TOP == 0x20_0000_0000_0000,
                    ;
                }
            }
            let mut out = write_doubled(m, k);
            if decimals > 0 {
                out.append(".");
                out.append(write_last_digits(0, decimals).as_str());
            } else {
                proof {
                    let w = m as nat * pow2(k as nat);
                    assert(w * 1 == w) by (nonlinear_arith);
                }
            }
            out
        },
    }
}

/// Writes a double with no more decimals than it takes to read it back.
pub fn show_plain(x: Double) -> (r: String)
    ensures
        r@ == plain(x@),
{
    let mut d: u32 = 0;
    loop
        invariant
            d <= 19,
            decimals_from(x@, d as nat) == decimals_from(x@, 0),
        decreases 19 - d,
    {
        let one: u64 = power(d);
        match x.scaled(one) {
            Some(q) => {
                proof {
                    lemma_scaled_fits(q as nat, one as nat);
                    assert(TOP * one < 0x100_0000_0000_0000_0000_0000_0000_0000) by (nonlinear_arith)
                        requires
                            TOP == 0x20_0000_0000_0000,
                            one <= 10_000_000_000_000_000_000,
                    ;
                }
                let back = Double::of_ratio(q, one);
                if d == 19 || !(back.less(x) || x.less(back)) {
                    return show_pointed(q, d);
                }
                d += 1;
            },
            None => {
                return show_fixed(x, 0);
            },
        }
    }
}

/// The sum of two doubles with a sign.
pub open spec fn plus_signed(a: int, b: int) -> int {
    if a + b < 0 {
        -(double((0 - (a + b)) as nat, 1) as int)
    } else {
        double((a + b) as nat, 1) as int
    }
}

/// The sum of doubles with a sign, taken from the first on.
pub open spec fn total_signed(s: Seq<int>) -> int
    decreases s.len(),
{
    if s.len() == 0 {
        0
    } else {
        plus_signed(total_signed(s.drop_last()), s.last())
    }
}

/// The mean of doubles with a sign; nothing of none.
pub open spec fn average_signed(s: Seq<int>) -> Option<int> {
    if s.len() == 0 {
        None
    } else {
        let t = total_signed(s);
        let n = whole(s.len());
        Some(
            if t < 0 {
                -(over((0 - t) as nat, n) as int)
            } else {
                over(t as nat, n) as int
            },
        )
    }
}

/// A double with a sign.
#[derive(Clone, Copy, PartialEq, Eq, Debug)]
pub struct Signed {
    pub negative: bool,
    pub size: Double,
}

impl View for Signed {
    type V = int;

    open spec fn view(&self) -> int {
        if self.negative {
            -(self.size@ as int)
        } else {
            self.size@ as int
        }
    }
}

impl Signed {
    /// A double without a sign.
    pub fn of(size: Double) -> (r: Signed)
        ensures
            r@ == size@,
    {
        Signed { negative: false, size }
    }

    /// Whether this is the smaller of two.
    pub fn less(self, other: Signed) -> (r: bool)
        ensures
            r == (self@ < other@),
    {
        if self.negative {
            if other.negative {
                other.size.less(self.size)
            } else {
                Double::zero().less(self.size) || Double::zero().less(other.size)
            }
        } else if other.negative {
            false
        } else {
            self.size.less(other.size)
        }
    }

    /// The sum of two.
    pub fn plus(self, other: Signed) -> (r: Signed)
        ensures
            r@ == plus_signed(self@, other@),
    {
        if self.negative == other.negative {
            let r = Signed { negative: self.negative, size: self.size.plus(other.size) };
            proof {
                if self@ + other@ == 0 {
                    crate::double::doubles_are_exact(0, 0);
                    assert(0 * pow2(0) == 0);
                }
            }
            r
        } else {
            let (pos, neg) = if self.negative {
                (other.size, self.size)
            } else {
                (self.size, other.size)
            };
            let negative = pos.less(neg);
            Signed { negative, size: pos.apart(neg) }
        }
    }

    /// Writes this with a fixed number of decimals.
    pub fn show(self, decimals: u32) -> (r: String)
        requires
            decimals <= 19,
        ensures
            r@ == fixed_signed(self@, decimals as nat),
    {
        let text = show_fixed(self.size, decimals);
        if self.negative && Double::zero().less(self.size) {
            let mut out = "-".to_owned();
            out.append(text.as_str());
            out
        } else {
            text
        }
    }

    /// Writes this with no more decimals than it takes to read it back.
    pub fn show_plain(self) -> (r: String)
        ensures
            r@ == plain_signed(self@),
    {
        let text = show_plain(self.size);
        if self.negative && Double::zero().less(self.size) {
            let mut out = "-".to_owned();
            out.append(text.as_str());
            out
        } else {
            text
        }
    }
}

/// What a double with a sign is.
pub open spec fn signed_views(v: Seq<Signed>) -> Seq<int> {
    v.map_values(|x: Signed| x@)
}

/// The mean of doubles with a sign; nothing of none.
pub fn mean_signed(v: &Vec<Signed>) -> (r: Option<Signed>)
    ensures
        match r {
            Some(x) => average_signed(signed_views(v@)) == Some(x@),
            None => average_signed(signed_views(v@)) is None,
        },
{
    if v.len() == 0 {
        return None;
    }
    let mut sum = Signed::of(Double::zero());
    let mut i: usize = 0;
    let ghost all = signed_views(v@);
    assert(all.take(0).len() == 0);
    while i < v.len()
        invariant
            i <= v@.len(),
            all == signed_views(v@),
            sum@ == total_signed(all.take(i as int)),
        decreases v@.len() - i,
    {
        proof {
            let t = all.take(i + 1);
            assert(t.drop_last() =~= all.take(i as int));
            assert(t.last() == v@[i as int]@);
        }
        sum = sum.plus(v[i]);
        i += 1;
    }
    assert(all.take(i as int) =~= all);
    let n = Double::of(v.len() as u64);
    proof {
        whole_is_positive(v@.len());
    }
    let size = sum.size.over(n);
    proof {
        if sum.size@ == 0 {
            assert(0 * unit() == 0);
            nothing_over(n@);
        }
    }
    Some(Signed { negative: sum.negative, size })
}

/// The product of a double with a sign and one without.
pub open spec fn times_signed(a: int, b: nat) -> int {
    if a < 0 {
        -(times((0 - a) as nat, b) as int)
    } else {
        times(a as nat, b) as int
    }
}

impl Signed {
    /// The product with a double without a sign.
    pub fn times(self, other: Double) -> (r: Signed)
        ensures
            r@ == times_signed(self@, other@),
    {
        proof {
            if self.size@ == 0 {
                nothing_times(other@);
            }
        }
        Signed { negative: self.negative, size: self.size.times(other) }
    }
}

// ---- laws ----

proof fn lemma_last_digits(n: nat, k: nat)
    requires
        n < ten_to(k),
    ensures
        last_digits(n, k).len() == k,
        all_digits(last_digits(n, k)),
        number(last_digits(n, k)) == n,
    decreases k,
{
    if k > 0 {
        lemma_last_digits(n / 10, (k - 1) as nat);
        let before = last_digits(n / 10, (k - 1) as nat);
        let d = last_digits(n, k);
        assert(d.drop_last() =~= before);
        assert forall|i: int| 0 <= i < d.len() implies is_digit(#[trigger] d[i]) by {
            if i < before.len() {
                assert(d[i] == before[i]);
            }
        }
    }
}

/// A figure is shown as a whole number, a point and so many digits, and what they
/// stand for is off by no more than half of the last digit.
pub proof fn figures_are_shown_to_the_nearest(n: nat, k: nat) -> (r: (nat, Seq<char>))
    requires
        n < infinite(),
        k > 0,
    ensures
        fixed(n, k) == dec(r.0) + "."@ + r.1,
        r.1.len() == k,
        all_digits(r.1),
        ({
            let shown = r.0 * ten_to(k) + number(r.1);
            2 * (shown * unit()) <= 2 * (n * ten_to(k)) + unit() && 2 * (n * ten_to(k)) <= 2 * (shown
                * unit()) + unit()
        }),
{
    let t = ten_to(k);
    let u = unit();
    lemma_pow2_pos(1074);
    lemma_ten_to_positive(k);
    let q = nearest(n * t, u);
    lemma_nearest(n * t, u);
    let w = q / t;
    let m = q % t;
    vstd::arithmetic::div_mod::lemma_fundamental_div_mod(q as int, t as int);
    vstd::arithmetic::div_mod::lemma_mod_bound(q as int, t as int);
    lemma_last_digits(m, k);
    assert(w * t == t * w) by (nonlinear_arith);
    assert((2 * q + 1) * u == 2 * (q * u) + u && (2 * q - 1) * u == 2 * (q * u) - u)
        by (nonlinear_arith);
    (w, last_digits(m, k))
}

proof fn lemma_ten_to_positive(k: nat)
    ensures
        ten_to(k) > 0,
    decreases k,
{
    if k > 0 {
        lemma_ten_to_positive((k - 1) as nat);
    }
}

/// A figure below zero is shown like the one above it, with a minus in front.
pub proof fn signs_are_shown(n: int, k: nat)
    requires
        n > 0,
    ensures
        fixed_signed(0 - n, k) == "-"@ + fixed_signed(n, k),
        plain_signed(0 - n) == "-"@ + plain_signed(n),
{
}

/// One value is its own mean, above zero and below.
pub proof fn one_value_is_its_mean(n: nat)
    requires
        double(n, 1) == n,
    ensures
        average_signed(seq![n as int]) == Some(n as int),
        average_signed(seq![0 - n as int]) == Some(0 - n as int),
{
    let u = unit();
    lemma_pow2_pos(1074);
    one_is_whole();
    lemma_same_quotient(n, 1, u, TOP as nat);
    assert(1 * u == u);
    assert(seq![n as int].drop_last() =~= Seq::<int>::empty());
    assert(seq![0 - n as int].drop_last() =~= Seq::<int>::empty());
    assert(total_signed(Seq::<int>::empty()) == 0);
    assert(over(n, whole(1)) == n);
}

} // verus!
