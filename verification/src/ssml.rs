//! A deliberately small SSML subset.
//!
//! Supported: optional `<speak>` wrapper, `<break time="500ms"/>` and
//! `<break time="2s"/>` as explicit silences, and XML entity unescaping. All
//! other tags are stripped, and their text content is kept, which keeps
//! provider SSML from breaking the cache key: text stays normalized.

use crate::audio::{WavAudio, WavView};
use crate::double::{
    doubles_keep_the_order, lemma_same_quotient, over, small_is_whole, times, unit, whole,
    whole_is_positive, Double, TOP,
};
use crate::figures::{times_signed, Signed};
use crate::numeral::{
    all_digits, is_digit, numerals_read_back, read_double, reading_of, whole_numerals_are_read,
    Reading, ReadingView,
};
use crate::text::{
    append_chars, chars_of, dec, find_char, find_from, find_in, has_char, has_prefix,
    lemma_find_char, replace_all, replaced, starts_with, string_of_range, trim_bounds, trim_range,
    trimmed, whitespace, without_slashes,
};
use vstd::arithmetic::power2::{lemma2_to64, lemma_pow2_adds, lemma_pow2_pos, pow2};
use vstd::prelude::*;
use vstd::string::*;

verus! {

/// A piece of a request: words to be spoken, or a pause.
#[derive(Debug, PartialEq)]
pub enum Segment {
    Text(String),
    /// Milliseconds.
    Break(Signed),
}

/// The value of a segment.
pub enum SegmentView {
    Text(Seq<char>),
    Break(int),
}

impl View for Segment {
    type V = SegmentView;

    open spec fn view(&self) -> SegmentView {
        match self {
            Segment::Text(t) => SegmentView::Text(t@),
            Segment::Break(ms) => SegmentView::Break(ms@),
        }
    }
}

/// The values of a sequence of segments.
pub open spec fn segment_views(v: Seq<Segment>) -> Seq<SegmentView> {
    Seq::new(v.len(), |i: int| v[i]@)
}

// ---- entities ----

/// A text with its XML entities resolved, the ampersand last.
pub open spec fn unescaped(s: Seq<char>) -> Seq<char> {
    let a = replaced(s, "&lt;"@, "<"@);
    let b = replaced(a, "&gt;"@, ">"@);
    let c = replaced(b, "&quot;"@, "\""@);
    let d = replaced(c, "&apos;"@, "'"@);
    replaced(d, "&amp;"@, "&"@)
}

/// Resolves the XML entities of a text.
pub fn unescape(s: &str) -> (r: String)
    ensures
        r@ == unescaped(s@),
{
    proof {
        reveal_strlit("&lt;");
        reveal_strlit("&gt;");
        reveal_strlit("&quot;");
        reveal_strlit("&apos;");
        reveal_strlit("&amp;");
    }
    let a = replace_all(s, "&lt;", "<");
    let b = replace_all(a.as_str(), "&gt;", ">");
    let c = replace_all(b.as_str(), "&quot;", "\"");
    let d = replace_all(c.as_str(), "&apos;", "'");
    replace_all(d.as_str(), "&amp;", "&")
}

// ---- breaks ----

/// What stands behind the first quote, up to the second or to the end.
pub open spec fn quoted(s: Seq<char>, quote: char) -> Option<Seq<char>> {
    let k = find_char(s, quote) as int;
    if k < s.len() {
        let rest = s.skip(k + 1);
        Some(rest.take(find_char(rest, quote) as int))
    } else {
        None
    }
}

/// Whether a text ends with another.
pub open spec fn ends_with(s: Seq<char>, tail: Seq<char>) -> bool {
    tail.len() <= s.len() && s.skip(s.len() - tail.len()) == tail
}

/// A reading as the length of a pause: what is not a number is none.
pub open spec fn pause_read(r: ReadingView) -> Option<int> {
    match r {
        ReadingView::Value(x) => Some(x),
        ReadingView::Unknown => Some(0),
        ReadingView::Malformed => None,
    }
}

/// The value of the length of a pause.
pub open spec fn opt_pause(p: Option<Signed>) -> Option<int> {
    match p {
        Some(ms) => Some(ms@),
        None => None,
    }
}

fn as_pause(r: Reading) -> (p: Option<Signed>)
    ensures
        opt_pause(p) == pause_read(r@),
{
    match r {
        Reading::Value(x) => Some(x),
        Reading::Unknown => Some(Signed::of(Double::zero())),
        Reading::Malformed => None,
    }
}

/// The length of a pause in milliseconds: as it stands, or in seconds with an
/// `s`.
pub open spec fn pause_of(v: Seq<char>) -> Option<int> {
    if ends_with(v, "ms"@) {
        pause_read(reading_of(trimmed(v.take(v.len() - 2))))
    } else if ends_with(v, "s"@) {
        match pause_read(reading_of(trimmed(v.take(v.len() - 1)))) {
            Some(s) => Some(times_signed(s, whole(1000))),
            None => None,
        }
    } else {
        pause_read(reading_of(trimmed(v)))
    }
}

/// Whether a tag has a name: the name stands first, and white space behind it
/// where anything follows.
pub open spec fn is_named(tag: Seq<char>, name: Seq<char>) -> bool {
    starts_with(tag, name) && (tag.len() == name.len() || whitespace(tag[name.len() as int]))
}

/// The pause that a tag stands for, if it is a break with a length that can be
/// read. A break without a length is 250 ms long.
pub open spec fn break_of(tag: Seq<char>) -> Option<int> {
    let t = without_slashes(trimmed(tag));
    if !is_named(t, "break"@) {
        None
    } else {
        match quoted(t, '"') {
            Some(v) => pause_of(v),
            None => match quoted(t, '\'') {
                Some(v) => pause_of(v),
                None => Some(whole(250) as int),
            },
        }
    }
}

/// What stands between quotes in `v[from..to]`.
fn quoted_range(v: &Vec<char>, from: usize, to: usize, quote: char) -> (r: Option<(usize, usize)>)
    requires
        from <= to <= v@.len(),
    ensures
        match r {
            Some((a, b)) => from <= a <= b <= to && quoted(
                v@.subrange(from as int, to as int),
                quote,
            ) == Some(v@.subrange(a as int, b as int)),
            None => quoted(v@.subrange(from as int, to as int), quote) is None,
        },
{
    let ghost s = v@.subrange(from as int, to as int);
    let a: usize = find_in(v, from, to, quote);
    if a >= to {
        return None;
    }
    let b: usize = find_in(v, a + 1, to, quote);
    proof {
        assert(s.skip(a - from + 1) =~= v@.subrange(a + 1, to as int));
        assert(s.skip(a - from + 1).take(b - a - 1) =~= v@.subrange(a + 1, b as int));
    }
    Some((a + 1, b))
}

/// The length of a pause.
fn parse_pause(v: &Vec<char>, from: usize, to: usize) -> (r: Option<Signed>)
    requires
        from <= to <= v@.len(),
    ensures
        opt_pause(r) == pause_of(v@.subrange(from as int, to as int)),
{
    let ghost s = v@.subrange(from as int, to as int);
    let n: usize = to - from;
    proof {
        reveal_strlit("ms");
        reveal_strlit("s");
        if n >= 2 {
            assert(s.skip(n - 2) =~= seq![v@[to - 2], v@[to - 1]]);
            assert("ms"@ =~= seq!['m', 's']);
            assert(s.take(n - 2) =~= v@.subrange(from as int, to - 2));
            if ends_with(s, "ms"@) {
                assert(s.skip(n - 2)[0] == 'm' && s.skip(n - 2)[1] == 's');
            }
        }
        if n >= 1 {
            assert(s.skip(n - 1) =~= seq![v@[to - 1]]);
            assert("s"@ =~= seq!['s']);
            assert(s.take(n - 1) =~= v@.subrange(from as int, to - 1));
            if ends_with(s, "s"@) {
                assert(s.skip(n - 1)[0] == 's');
            }
        }
    }
    if n >= 2 && v[to - 2] == 'm' && v[to - 1] == 's' {
        assert(s.skip(n - 2) =~= "ms"@);
        as_pause(read_double(trim_range(v, from, to - 2).as_str()))
    } else if n >= 1 && v[to - 1] == 's' {
        assert(s.skip(n - 1) =~= "s"@);
        match as_pause(read_double(trim_range(v, from, to - 1).as_str())) {
            Some(seconds) => Some(seconds.times(Double::of(1000))),
            None => None,
        }
    } else {
        as_pause(read_double(trim_range(v, from, to).as_str()))
    }
}

/// The pause that the tag `v[from..to]` stands for.
fn parse_break(v: &Vec<char>, from: usize, to: usize) -> (r: Option<Signed>)
    requires
        from <= to <= v@.len(),
    ensures
        opt_pause(r) == break_of(v@.subrange(from as int, to as int)),
{
    let (a, last) = trim_bounds(v, from, to);
    let ghost given = v@.subrange(a as int, last as int);
    let mut b: usize = last;
    while b > a && v[b - 1] == '/'
        invariant
            a <= b <= last <= v@.len(),
            given == v@.subrange(a as int, last as int),
            without_slashes(v@.subrange(a as int, b as int)) == without_slashes(given),
        decreases b,
    {
        let ghost t = v@.subrange(a as int, b as int);
        assert(t.last() == v@[b - 1]);
        assert(t.drop_last() =~= v@.subrange(a as int, b - 1));
        b -= 1;
    }
    let ghost t = v@.subrange(a as int, b as int);
    proof {
        if b > a {
            assert(t.last() == v@[b - 1]);
        }
    }
    let tag = chars_of(string_of_range(v, a, b).as_str());
    proof {
        reveal_strlit("break");
    }
    if !has_prefix(&tag, "break") || (tag.len() > 5 && !tag[5].is_whitespace()) {
        return None;
    }
    match quoted_range(v, a, b, '"') {
        Some((x, y)) => parse_pause(v, x, y),
        None => match quoted_range(v, a, b, '\'') {
            Some((x, y)) => parse_pause(v, x, y),
            None => Some(Signed::of(Double::of(250))),
        },
    }
}

// ---- segments ----

/// A text as a segment, unless there is nothing in it.
pub open spec fn text_segment(text: Seq<char>) -> Seq<SegmentView> {
    let t = unescaped(trimmed(text));
    if t.len() == 0 {
        Seq::empty()
    } else {
        seq![SegmentView::Text(t)]
    }
}

/// The segments of `rest` behind a text that was already read. A tag runs from
/// a `<` to the next `>` behind it; one that is never closed is text.
pub open spec fn segments_from(text: Seq<char>, rest: Seq<char>) -> Seq<SegmentView>
    decreases rest.len(),
    via segments_shrink
{
    let lt = find_char(rest, '<') as int;
    let tail = rest.skip(lt + 1);
    let gt = find_char(tail, '>') as int;
    if lt >= rest.len() || gt >= tail.len() {
        text_segment(text + rest)
    } else {
        let before = text + rest.take(lt);
        match break_of(tail.take(gt)) {
            Some(pause) => text_segment(before) + seq![SegmentView::Break(pause)] + segments_from(
                Seq::empty(),
                tail.skip(gt + 1),
            ),
            None => segments_from(before, tail.skip(gt + 1)),
        }
    }
}

#[via_fn]
proof fn segments_shrink(text: Seq<char>, rest: Seq<char>) {
    let lt = find_char(rest, '<') as int;
    lemma_find_char(rest, '<');
    if lt < rest.len() {
        lemma_find_char(rest.skip(lt + 1), '>');
    }
}

/// The segments of a request. One without tags is text as it stands.
pub open spec fn segmented_input(input: Seq<char>) -> Seq<SegmentView> {
    if !input.contains('<') {
        seq![SegmentView::Text(input)]
    } else {
        let out = segments_from(Seq::empty(), input);
        if out.len() == 0 {
            seq![SegmentView::Text(Seq::empty())]
        } else {
            out
        }
    }
}

/// An input without tags is one segment, unchanged.
pub proof fn untagged_input_is_kept(input: Seq<char>)
    requires
        !input.contains('<'),
    ensures
        segmented_input(input) == seq![SegmentView::Text(input)],
{
    lemma_find_char(input, '<');
}

proof fn lemma_first_char(a: Seq<char>, c: char, b: Seq<char>)
    requires
        !a.contains(c),
    ensures
        find_char(a + seq![c] + b, c) == a.len(),
    decreases a.len(),
{
    let s = a + seq![c] + b;
    if a.len() > 0 {
        assert(s[0] == a[0]);
        assert(a.contains(a[0]));
        let t = a.skip(1);
        assert forall|x: char| t.contains(x) implies a.contains(x) by {
            let i = choose|i: int| 0 <= i < t.len() && t[i] == x;
            assert(a[i + 1] == x);
        }
        lemma_first_char(t, c, b);
        assert(s.skip(1) =~= t + seq![c] + b);
    } else {
        assert(s[0] == c);
    }
}

/// What stands in front of the first tag is text, whatever signs it holds: where
/// the tag is a break, the text ends there, and goes on behind it.
pub proof fn text_in_front_of_a_break_is_kept(
    before: Seq<char>,
    tag: Seq<char>,
    rest: Seq<char>,
    pause: int,
)
    requires
        !before.contains('<'),
        !tag.contains('>'),
        break_of(tag) == Some(pause),
    ensures
        segmented_input(before + seq!['<'] + (tag + seq!['>'] + rest)) == text_segment(before)
            + seq![SegmentView::Break(pause)] + segments_from(Seq::empty(), rest),
{
    let tail = tag + seq!['>'] + rest;
    let input = before + seq!['<'] + tail;
    lemma_first_char(before, '<', tail);
    lemma_first_char(tag, '>', rest);
    let lt = before.len() as int;
    let gt = tag.len() as int;
    assert(input[lt] == '<');
    assert(input.skip(lt + 1) =~= tail);
    assert(input.take(lt) =~= before);
    assert(tail.take(gt) =~= tag);
    assert(tail.skip(gt + 1) =~= rest);
    assert(Seq::<char>::empty() + before =~= before);
}

fn flush_text(text: &Vec<char>, out: &mut Vec<Segment>)
    ensures
        segment_views(final(out)@) == segment_views(old(out)@) + text_segment(text@),
{
    let ghost before = segment_views(out@);
    let t = unescape(trim_range(text, 0, text.len()).as_str());
    assert(text@.subrange(0, text@.len() as int) =~= text@);
    if !t.as_str().is_empty() {
        out.push(Segment::Text(t));
        assert(segment_views(out@) =~= before + seq![SegmentView::Text(t@)]);
    } else {
        assert(before + Seq::<SegmentView>::empty() =~= before);
    }
}

/// Parses SSML-ish input into text and break segments.
pub fn parse(input: &str) -> (r: Vec<Segment>)
    ensures
        segment_views(r@) == segmented_input(input@),
{
    let v = chars_of(input);
    let n: usize = v.len();
    let mut out: Vec<Segment> = Vec::new();
    if !has_char(&v, '<') {
        out.push(Segment::Text(input.to_owned()));
        assert(segment_views(out@) =~= seq![SegmentView::Text(input@)]);
        return out;
    }
    let ghost all = segments_from(Seq::empty(), input@);
    let mut text: Vec<char> = Vec::new();
    let mut i: usize = 0;
    let mut open = true;
    proof {
        assert(v@.skip(0) =~= v@);
        assert(text@ =~= Seq::<char>::empty());
        assert(segment_views(out@) + all =~= all);
    }
    while open
        invariant
            n == v@.len(),
            v@ == input@,
            i <= n,
            open ==> segment_views(out@) + segments_from(text@, v@.skip(i as int)) == all,
            !open ==> segment_views(out@) + text_segment(text@ + v@.skip(i as int)) == all,
        decreases n - i, (if open { 1int } else { 0int }),
    {
        let ghost rest = v@.skip(i as int);
        let lt: usize = find_from(&v, i, '<');
        if lt >= n {
            open = false;
            continue;
        }
        let ghost tail = rest.skip(lt - i + 1);
        assert(tail =~= v@.skip(lt + 1));
        let gt: usize = find_from(&v, lt + 1, '>');
        if gt >= n {
            open = false;
        } else {
            proof {
                assert(rest.take(lt - i) =~= v@.subrange(i as int, lt as int));
                assert(tail.take(gt - lt - 1) =~= v@.subrange(lt + 1, gt as int));
                assert(tail.skip(gt - lt) =~= v@.skip(gt + 1));
            }
            append_chars(&mut text, &v, i, lt);
            match parse_break(&v, lt + 1, gt) {
                Some(pause) => {
                    let ghost first = segment_views(out@);
                    let ghost said = text_segment(text@);
                    flush_text(&text, &mut out);
                    let ghost second = segment_views(out@);
                    out.push(Segment::Break(pause));
                    text = Vec::new();
                    proof {
                        let b = seq![SegmentView::Break(pause@)];
                        let tail = segments_from(Seq::empty(), v@.skip(gt + 1));
                        assert(text@ =~= Seq::<char>::empty());
                        assert(segment_views(out@) =~= second + b);
                        assert((first + said + b) + tail =~= first + (said + b + tail));
                    }
                },
                None => {},
            }
            i = gt + 1;
        }
    }
    append_chars(&mut text, &v, i, n);
    assert(v@.subrange(i as int, n as int) =~= v@.skip(i as int));
    flush_text(&text, &mut out);
    if out.len() == 0 {
        out.push(Segment::Text(String::new()));
        assert(segment_views(out@) =~= seq![SegmentView::Text(Seq::empty())]);
    }
    out
}

// ---- silence ----

/// How many samples a pause of so many milliseconds lasts.
pub open spec fn silence_len(ms: int, sample_rate: u32) -> nat {
    if ms <= 0 {
        0
    } else {
        let n = over(times(whole(sample_rate as nat), ms as nat), whole(1000)) / unit();
        if n <= usize::MAX {
            n
        } else {
            usize::MAX as nat
        }
    }
}

/// Milliseconds of silence as samples.
pub fn silence(ms: Signed, sample_rate: u32) -> (r: WavAudio)
    ensures
        r@ == (WavView {
            samples: Seq::new(silence_len(ms@, sample_rate), |i: int| 0i16),
            sample_rate,
        }),
{
    let n: usize = if ms.negative || !Double::zero().less(ms.size) {
        0
    } else {
        proof {
            whole_is_positive(1000);
        }
        let wide: u64 = Double::of(sample_rate as u64).times(ms.size).over(
            Double::of(1000),
        ).to_floor();
        if wide <= usize::MAX as u64 {
            wide as usize
        } else {
            usize::MAX
        }
    };
    let mut samples: Vec<i16> = Vec::new();
    let mut i: usize = 0;
    while i < n
        invariant
            i <= n,
            samples@ == Seq::new(i as nat, |k: int| 0i16),
        decreases n - i,
    {
        samples.push(0);
        i += 1;
        assert(samples@ =~= Seq::new(i as nat, |k: int| 0i16));
    }
    let r = WavAudio::new(samples, sample_rate);
    assert(r@.samples =~= Seq::new(silence_len(ms@, sample_rate), |i: int| 0i16));
    r
}

/// A pause of so many sixteenths of a millisecond has one sample for each of them
/// at 16 kHz.
proof fn lemma_sixteenths(k: nat)
    requires
        0 < k <= 0xffff_ffff,
    ensures
        silence_len((k * pow2(1070)) as int, 16_000) == k,
        16 * (k * pow2(1070)) == k * unit(),
{
    let (p, u) = (pow2(1070), unit());
    lemma2_to64();
    lemma_pow2_pos(1070);
    lemma_pow2_adds(4, 1070);
    assert(u == 16 * p);
    assert(16 * (k * p) == k * u) by (nonlinear_arith)
        requires
            u == 16 * p,
    ;
    small_is_whole(16_000);
    small_is_whole(1000);
    let ms = k * p;
    assert(ms > 0) by (nonlinear_arith)
        requires
            k > 0,
            p > 0,
            ms == k * p,
    ;
    let thousands = 1000 * k;
    lemma_same_quotient(thousands * u, 1, u, TOP as nat);
    assert((16_000 * u) * ms == (thousands * u) * u) by (nonlinear_arith)
        requires
            16 * ms == k * u,
            thousands == 1000 * k,
    {
        assert((16_000 * u) * ms == 1000 * u * (16 * ms));
        assert(1000 * u * (k * u) == (1000 * k * u) * u);
    }
    assert(1 * u == u);
    small_is_whole(thousands);
    assert(times(whole(16_000), ms) == thousands * u);
    let d = 1000 * u;
    lemma_same_quotient(k * u, 1, d, TOP as nat);
    assert((thousands * u) * u == (k * u) * d) by (nonlinear_arith)
        requires
            thousands == 1000 * k,
            d == 1000 * u,
    ;
    assert(1 * d == d);
    assert(d > 0);
    small_is_whole(k);
    assert(over(thousands * u, d) == k * u);
    assert(k * u / u == k) by {
        vstd::arithmetic::div_mod::lemma_div_multiples_vanish(k as int, u as int);
        assert(u * k == k * u) by (nonlinear_arith);
    }
}

/// A longer pause is no shorter in samples.
proof fn lemma_pauses_keep_the_order(a: int, b: int, rate: u32)
    requires
        a <= b,
    ensures
        silence_len(a, rate) <= silence_len(b, rate),
{
    if a > 0 {
        let w = whole(rate as nat);
        lemma_pow2_pos(1074);
        whole_is_positive(1000);
        assert(w * a <= w * b) by (nonlinear_arith)
            requires
                a <= b,
        ;
        doubles_keep_the_order(w * a as nat, w * b as nat, unit());
        let (x, y) = (times(w, a as nat), times(w, b as nat));
        assert(x * unit() <= y * unit()) by (nonlinear_arith)
            requires
                x <= y,
        ;
        doubles_keep_the_order(x * unit(), y * unit(), whole(1000));
        vstd::arithmetic::div_mod::lemma_div_is_ordered(
            over(x, whole(1000)) as int,
            over(y, whole(1000)) as int,
            unit() as int,
        );
    }
}

/// A pause lasts as long as it says: at 16 kHz it has sixteen samples for each of
/// its milliseconds, and one more or less only where that is not a whole number.
pub proof fn pauses_last_their_time(ms: int)
    requires
        16 * ms < 0xffff_ffff * unit(),
    ensures
        ms <= 0 ==> silence_len(ms, 16_000) == 0,
        ms > 0 ==> ({
            let n = silence_len(ms, 16_000);
            &&& 16 * ms < (n + 1) * unit()
            &&& n * unit() <= 16 * ms + unit()
            &&& forall|k: nat| 16 * ms == #[trigger] (k * unit()) ==> n == k
        }),
{
    if ms > 0 {
        let (p, u) = (pow2(1070), unit());
        let n = silence_len(ms, 16_000);
        lemma2_to64();
        lemma_pow2_pos(1070);
        lemma_pow2_adds(4, 1070);
        assert(u == 16 * p);
        let k = (ms / (p as int)) as nat;
        vstd::arithmetic::div_mod::lemma_fundamental_div_mod(ms, p as int);
        vstd::arithmetic::div_mod::lemma_mod_bound(ms, p as int);
        assert(k * p <= ms < (k + 1) * p) by (nonlinear_arith)
            requires
                ms == p * k + ms % (p as int),
                0 <= ms % (p as int) < p,
        ;
        assert(k < 0xffff_ffff) by (nonlinear_arith)
            requires
                k * p <= ms,
                16 * ms < 0xffff_ffff * u,
                u == 16 * p,
                p > 0,
        ;
        lemma_sixteenths(k + 1);
        lemma_pauses_keep_the_order(ms, ((k + 1) * p) as int, 16_000);
        if k > 0 {
            lemma_sixteenths(k);
            lemma_pauses_keep_the_order((k * p) as int, ms, 16_000);
        }
        assert(k <= n <= k + 1);
        assert(16 * (k * p) == k * u && 16 * ((k + 1) * p) == (k + 1) * u) by (nonlinear_arith)
            requires
                u == 16 * p,
        ;
        assert((k + 1) * u <= (n + 1) * u && n * u <= (k + 1) * u) by (nonlinear_arith)
            requires
                k <= n <= k + 1,
        ;
        assert((k + 1) * u == k * u + u) by (nonlinear_arith);
        assert forall|j: nat| 16 * ms == #[trigger] (j * u) implies n == j by {
            assert(j * p == ms && j > 0 && j <= 0xffff_ffff) by (nonlinear_arith)
                requires
                    16 * ms == j * u,
                    u == 16 * p,
                    ms > 0,
                    p > 0,
                    16 * ms < 0xffff_ffff * u,
            {
                assert(16 * ms == 16 * (j * p));
            }
            lemma_sixteenths(j);
        }
    }
}

/// A text of digits has no white space around it.
proof fn lemma_digits_are_trimmed(s: Seq<char>)
    requires
        all_digits(s),
        s.len() > 0,
    ensures
        trimmed(s) == s,
{
    assert(is_digit(s[0]) && is_digit(s[s.len() - 1]));
    assert(s.last() == s[s.len() - 1]);
}

/// A break says how long it is in milliseconds, with or without their unit, or in
/// seconds of a thousand milliseconds each.
pub proof fn breaks_are_read_in_their_unit(n: nat)
    requires
        1000 * n <= TOP,
    ensures
        pause_of(dec(n)) == Some((n * unit()) as int),
        pause_of(dec(n) + "ms"@) == Some((n * unit()) as int),
        pause_of(dec(n) + "s"@) == Some(((1000 * n) * unit()) as int),
{
    let s = dec(n);
    let u = unit();
    numerals_read_back(n);
    whole_numerals_are_read(n);
    lemma_digits_are_trimmed(s);
    reveal_strlit("ms");
    reveal_strlit("s");
    assert(is_digit(s[s.len() - 1]));
    assert(!ends_with(s, "s"@)) by {
        if ends_with(s, "s"@) {
            assert(s.skip(s.len() - 1)[0] == s[s.len() - 1]);
        }
    }
    assert(!ends_with(s, "ms"@)) by {
        if ends_with(s, "ms"@) {
            assert(s.skip(s.len() - 2)[1] == s[s.len() - 1]);
        }
    }
    let a = s + "ms"@;
    assert(a.skip(a.len() - 2) =~= "ms"@);
    assert(a.take(a.len() - 2) =~= s);
    let b = s + "s"@;
    assert(b.skip(b.len() - 1) =~= "s"@);
    assert(b.take(b.len() - 1) =~= s);
    assert(!ends_with(b, "ms"@)) by {
        if ends_with(b, "ms"@) {
            assert(b.skip(b.len() - 2)[0] == s[s.len() - 1]);
        }
    }
    // A thousand times a whole number of units is exact.
    small_is_whole(1000);
    small_is_whole(1000 * n);
    lemma_pow2_pos(1074);
    lemma_same_quotient((1000 * n) * u, 1, u, TOP as nat);
    assert((n * u) * (1000 * u) == ((1000 * n) * u) * u) by (nonlinear_arith);
    assert(1 * u == u);
}

/// A break without a length is a quarter of a second.
pub proof fn bare_breaks_are_short(tag: Seq<char>)
    requires
        is_named(without_slashes(trimmed(tag)), "break"@),
        !without_slashes(trimmed(tag)).contains('"'),
        !without_slashes(trimmed(tag)).contains('\''),
    ensures
        break_of(tag) == Some((250 * unit()) as int),
{
    let t = without_slashes(trimmed(tag));
    lemma_find_char(t, '"');
    lemma_find_char(t, '\'');
    small_is_whole(250);
}

/// The length of a break is what stands in its quotes.
pub proof fn breaks_say_their_length(v: Seq<char>)
    requires
        !v.contains('"'),
    ensures
        break_of("break time=\""@ + v + "\""@) == pause_of(v),
        break_of("break time=\""@ + v + "\"/"@) == pause_of(v),
{
    reveal_strlit("break");
    reveal_strlit("break time=\"");
    reveal_strlit("\"");
    reveal_strlit("\"/");
    let front = "break time="@;
    reveal_strlit("break time=");
    let t = "break time=\""@ + v + "\""@;
    let closed = "break time=\""@ + v + "\"/"@;
    assert(t[0] == 'b' && t.last() == '"');
    assert(trimmed(t) == t);
    assert(without_slashes(t) == t);
    assert(closed[0] == 'b' && closed.last() == '/');
    assert(trimmed(closed) == closed);
    assert(closed.drop_last() =~= t);
    assert(without_slashes(closed) == without_slashes(closed.drop_last()));
    assert(t.take(5) =~= "break"@);
    assert(t[5] == ' ');
    assert(is_named(t, "break"@));
    let rest = v + seq!['"'] + Seq::<char>::empty();
    assert(!front.contains('"'));
    lemma_first_char(front, '"', rest);
    assert(front + seq!['"'] + rest =~= t);
    assert(t.skip(front.len() as int + 1) =~= rest);
    lemma_first_char(v, '"', Seq::empty());
    assert(rest.take(v.len() as int) =~= v);
}

/// Where a text says `<break time="2s"/>`, it falls silent for two seconds between
/// what stands before and what stands behind, and so for every number.
pub proof fn breaks_part_the_text(before: Seq<char>, n: nat, rest: Seq<char>)
    requires
        !before.contains('<'),
        1000 * n <= TOP,
    ensures
        segmented_input(
            before + seq!['<'] + ("break time=\""@ + (dec(n) + "s"@) + "\"/"@ + seq!['>'] + rest),
        ) == text_segment(before) + seq![SegmentView::Break(((1000 * n) * unit()) as int)]
            + segments_from(Seq::empty(), rest),
        segmented_input(
            before + seq!['<'] + ("break time=\""@ + (dec(n) + "ms"@) + "\"/"@ + seq!['>'] + rest),
        ) == text_segment(before) + seq![SegmentView::Break((n * unit()) as int)] + segments_from(
            Seq::empty(),
            rest,
        ),
{
    reveal_strlit("break time=\"");
    reveal_strlit("\"/");
    reveal_strlit("s");
    reveal_strlit("ms");
    numerals_read_back(n);
    breaks_are_read_in_their_unit(n);
    lemma_plain_number(n, "s"@);
    lemma_plain_number(n, "ms"@);
    breaks_say_their_length(dec(n) + "s"@);
    breaks_say_their_length(dec(n) + "ms"@);
    text_in_front_of_a_break_is_kept(
        before,
        "break time=\""@ + (dec(n) + "s"@) + "\"/"@,
        rest,
        ((1000 * n) * unit()) as int,
    );
    text_in_front_of_a_break_is_kept(
        before,
        "break time=\""@ + (dec(n) + "ms"@) + "\"/"@,
        rest,
        (n * unit()) as int,
    );
}

/// A number with its unit holds no quote, and its tag is not closed early.
proof fn lemma_plain_number(n: nat, unit_name: Seq<char>)
    requires
        !unit_name.contains('"'),
        !unit_name.contains('>'),
    ensures
        !(dec(n) + unit_name).contains('"'),
        !("break time=\""@ + (dec(n) + unit_name) + "\"/"@).contains('>'),
{
    reveal_strlit("break time=\"");
    reveal_strlit("\"/");
    numerals_read_back(n);
    let v = dec(n) + unit_name;
    assert forall|i: int| 0 <= i < v.len() implies v[i] != '"' && v[i] != '>' by {
        if i < dec(n).len() {
            assert(is_digit(dec(n)[i]));
        } else {
            assert(unit_name.contains(unit_name[i - dec(n).len()]));
        }
    }
    let t = "break time=\""@ + v + "\"/"@;
    assert forall|i: int| 0 <= i < t.len() implies t[i] != '>' by {
        if 12 <= i < 12 + v.len() {
            assert(t[i] == v[i - 12]);
        }
    }
}

proof fn lemma_nothing_replaced(s: Seq<char>, pat: Seq<char>, with: Seq<char>)
    requires
        !s.contains('&'),
        pat.len() > 0,
        pat[0] == '&',
    ensures
        replaced(s, pat, with) == s,
    decreases s.len(),
{
    if s.len() > 0 {
        assert(s.contains(s[0]));
        if starts_with(s, pat) {
            assert(s[0] == pat[0]);
        }
        let t = s.skip(1);
        assert forall|c: char| t.contains(c) implies s.contains(c) by {
            let i = choose|i: int| 0 <= i < t.len() && t[i] == c;
            assert(s[i + 1] == c);
        }
        lemma_nothing_replaced(t, pat, with);
        assert(replaced(s, pat, with) =~= s);
    }
}

/// Text without entities is spoken as it stands, without the white space around
/// it.
pub proof fn plain_text_is_spoken(text: Seq<char>)
    requires
        !trimmed(text).contains('&'),
        trimmed(text).len() > 0,
    ensures
        text_segment(text) == seq![SegmentView::Text(trimmed(text))],
{
    reveal_strlit("&lt;");
    reveal_strlit("&gt;");
    reveal_strlit("&quot;");
    reveal_strlit("&apos;");
    reveal_strlit("&amp;");
    let t = trimmed(text);
    lemma_nothing_replaced(t, "&lt;"@, "<"@);
    lemma_nothing_replaced(t, "&gt;"@, ">"@);
    lemma_nothing_replaced(t, "&quot;"@, "\""@);
    lemma_nothing_replaced(t, "&apos;"@, "'"@);
    lemma_nothing_replaced(t, "&amp;"@, "&"@);
}

/// A tag that is no break is dropped, and the text around it is kept together.
pub proof fn other_tags_are_dropped(before: Seq<char>, tag: Seq<char>, rest: Seq<char>)
    requires
        !before.contains('<'),
        !tag.contains('>'),
        break_of(tag) is None,
        !rest.contains('<'),
        text_segment(before + rest).len() > 0,
    ensures
        segmented_input(before + seq!['<'] + (tag + seq!['>'] + rest)) == text_segment(
            before + rest,
        ),
{
    let tail = tag + seq!['>'] + rest;
    let input = before + seq!['<'] + tail;
    lemma_first_char(before, '<', tail);
    lemma_first_char(tag, '>', rest);
    let lt = before.len() as int;
    let gt = tag.len() as int;
    assert(input[lt] == '<');
    assert(input.skip(lt + 1) =~= tail);
    assert(input.take(lt) =~= before);
    assert(tail.take(gt) =~= tag);
    assert(tail.skip(gt + 1) =~= rest);
    assert(Seq::<char>::empty() + before =~= before);
    lemma_find_char(rest, '<');
    assert(segments_from(before, rest) == text_segment(before + rest));
}

} // verus!
