//! Text primitives over sequences of characters.

use vstd::prelude::*;
use vstd::string::*;

verus! {

/// `String::push` appends one character at the end.
pub assume_specification[ String::push ](s: &mut String, c: char)
    ensures
        final(s)@ == old(s)@.push(c),
;

/// The characters of a string slice.
pub fn chars_of(s: &str) -> (r: Vec<char>)
    ensures
        r@ == s@,
{
    let mut out: Vec<char> = Vec::new();
    for c in it: s.chars()
        invariant
            out@ == it.seq().take(it.index()),
            it.seq() == s@,
    {
        out.push(c);
    }
    assert(out@ =~= s@);
    out
}

/// The string made of the characters `start..end` of a vector.
pub fn string_of_range(v: &Vec<char>, start: usize, end: usize) -> (r: String)
    requires
        start <= end <= v@.len(),
    ensures
        r@ == v@.subrange(start as int, end as int),
{
    let mut out = String::new();
    let mut i: usize = start;
    while i < end
        invariant
            start <= i <= end <= v@.len(),
            out@ == v@.subrange(start as int, i as int),
        decreases end - i,
    {
        out.push(v[i]);
        i += 1;
        assert(out@ =~= v@.subrange(start as int, i as int));
    }
    out
}

/// The string made of all the characters of a vector.
pub fn string_of(v: &Vec<char>) -> (r: String)
    ensures
        r@ == v@,
{
    let r = string_of_range(v, 0, v.len());
    assert(r@ =~= v@);
    r
}

/// Whether two vectors hold the same characters.
pub fn same_chars(a: &Vec<char>, b: &Vec<char>) -> (r: bool)
    ensures
        r == (a@ == b@),
{
    if a.len() != b.len() {
        return false;
    }
    let mut i: usize = 0;
    while i < a.len()
        invariant
            a@.len() == b@.len(),
            i <= a@.len(),
            forall|k: int| 0 <= k < i ==> a@[k] == b@[k],
        decreases a@.len() - i,
    {
        if a[i] != b[i] {
            return false;
        }
        i += 1;
    }
    assert(a@ =~= b@);
    true
}

/// Whether two strings hold the same text.
pub fn same_text(a: &str, b: &str) -> (r: bool)
    ensures
        r == (a@ == b@),
{
    same_chars(&chars_of(a), &chars_of(b))
}

// ---- decimal numerals ----

/// The decimal digit with value `d`.
pub open spec fn digit_char(d: nat) -> char {
    (('0' as nat) + d) as char
}

/// The decimal numeral of `n`, without leading zeros.
pub open spec fn dec(n: nat) -> Seq<char>
    decreases n,
{
    if n < 10 {
        seq![digit_char(n)]
    } else {
        dec(n / 10).push(digit_char(n % 10))
    }
}

/// The digit with value `d`.
pub fn digit(d: u64) -> (c: char)
    requires
        d < 10,
    ensures
        c == digit_char(d as nat),
{
    (('0' as u8) + (d as u8)) as char
}

/// The decimal numeral of `n`.
pub fn decimal(n: u64) -> (r: String)
    ensures
        r@ == dec(n as nat),
    decreases n,
{
    if n < 10 {
        let mut out = String::new();
        out.push(digit(n));
        assert(out@ =~= dec(n as nat));
        out
    } else {
        let mut out = decimal(n / 10);
        out.push(digit(n % 10));
        out
    }
}

// ---- characters ----

/// Whether a character belongs to ASCII.
pub open spec fn ascii(c: char) -> bool {
    c <= '\u{7f}'
}

pub open spec fn ascii_letter(c: char) -> bool {
    'a' <= c <= 'z' || 'A' <= c <= 'Z'
}

/// The lowercase form of an ASCII letter; other characters are kept.
pub open spec fn ascii_lower(c: char) -> char {
    if 'A' <= c <= 'Z' {
        ((c as nat) + 32) as char
    } else {
        c
    }
}

/// A text with its ASCII letters in lowercase.
pub open spec fn ascii_lowered(s: Seq<char>) -> Seq<char> {
    Seq::new(s.len(), |i: int| ascii_lower(s[i]))
}

/// Whether a character is white space: the space, the five control characters
/// from tab to carriage return, and the spaces and separators of Unicode.
pub open spec fn whitespace(c: char) -> bool {
    ||| c == ' '
    ||| '\t' <= c <= '\r'
    ||| c == '\u{85}'
    ||| c == '\u{a0}'
    ||| c == '\u{1680}'
    ||| '\u{2000}' <= c <= '\u{200a}'
    ||| c == '\u{2028}'
    ||| c == '\u{2029}'
    ||| c == '\u{202f}'
    ||| c == '\u{205f}'
    ||| c == '\u{3000}'
}

/// `char::is_whitespace` holds of the characters that have the property
/// `White_Space` in Unicode, and of no others.
pub assume_specification[ char::is_whitespace ](c: char) -> (r: bool)
    ensures
        r == whitespace(c),
;

/// Whether a character beyond ASCII is alphabetic or numeric in the sense of
/// Unicode.
pub uninterp spec fn unicode_alphanumeric(c: char) -> bool;

/// Whether a character is alphabetic or numeric. White space never is.
pub open spec fn alphanumeric(c: char) -> bool {
    if ascii(c) {
        ascii_letter(c) || '0' <= c <= '9'
    } else {
        unicode_alphanumeric(c) && !whitespace(c)
    }
}

/// `char::is_alphanumeric` holds of the letters and digits of ASCII and of no
/// other ASCII character. Beyond ASCII it is a function of the character, and
/// holds of no white space: what is alphabetic is a letter, a mark or a symbol,
/// what is numeric is a number, and white space is a separator or a control.
pub assume_specification[ char::is_alphanumeric ](c: char) -> (r: bool)
    ensures
        r == if ascii(c) {
            ascii_letter(c) || '0' <= c <= '9'
        } else {
            unicode_alphanumeric(c) && !whitespace(c)
        },
;

/// Whether a text is ASCII throughout.
pub open spec fn ascii_text(s: Seq<char>) -> bool {
    forall|i: int| 0 <= i < s.len() ==> ascii(#[trigger] s[i])
}

/// The lowercase form of a text that is not ASCII throughout, in the sense of
/// Unicode.
pub uninterp spec fn unicode_lowercase(s: Seq<char>) -> Seq<char>;

/// The lowercase form of a text.
pub open spec fn lowercase(s: Seq<char>) -> Seq<char> {
    if ascii_text(s) {
        ascii_lowered(s)
    } else {
        unicode_lowercase(s)
    }
}

/// `str::to_lowercase` maps the letters of an ASCII text one by one, and is a
/// function of any other text.
pub assume_specification[ str::to_lowercase ](s: &str) -> (r: String)
    ensures
        r@ == if ascii_text(s@) {
            ascii_lowered(s@)
        } else {
            unicode_lowercase(s@)
        },
;

// ---- words ----

/// The texts of a sequence of strings.
pub open spec fn texts(v: Seq<String>) -> Seq<Seq<char>> {
    Seq::new(v.len(), |i: int| v[i]@)
}

/// The length of the run of characters before the first white space.
pub open spec fn run(s: Seq<char>) -> nat
    decreases s.len(),
{
    if s.len() == 0 || whitespace(s[0]) {
        0
    } else {
        1 + run(s.skip(1))
    }
}

pub proof fn lemma_run(s: Seq<char>)
    ensures
        run(s) <= s.len(),
        forall|i: int| 0 <= i < run(s) ==> !whitespace(#[trigger] s[i]),
        run(s) < s.len() ==> whitespace(s[run(s) as int]),
    decreases s.len(),
{
    if s.len() > 0 && !whitespace(s[0]) {
        let t = s.skip(1);
        lemma_run(t);
        assert forall|i: int| 0 <= i < run(s) implies !whitespace(#[trigger] s[i]) by {
            if i > 0 {
                assert(s[i] == t[i - 1]);
            }
        }
        if run(s) < s.len() {
            assert(s[run(s) as int] == t[run(t) as int]);
        }
    }
}

/// The runs of a text between white space, in order.
pub open spec fn words_of(s: Seq<char>) -> Seq<Seq<char>>
    decreases s.len(),
    via words_of_shrinks
{
    if s.len() == 0 {
        Seq::empty()
    } else if whitespace(s[0]) {
        words_of(s.skip(1))
    } else {
        seq![s.take(run(s) as int)] + words_of(s.skip(run(s) as int))
    }
}

#[via_fn]
proof fn words_of_shrinks(s: Seq<char>) {
    lemma_run(s);
}

/// The total length of a sequence of texts.
pub open spec fn total_len(ws: Seq<Seq<char>>) -> nat
    decreases ws.len(),
{
    if ws.len() == 0 {
        0
    } else {
        total_len(ws.drop_last()) + ws.last().len()
    }
}

pub proof fn lemma_total_len_append(a: Seq<Seq<char>>, b: Seq<Seq<char>>)
    ensures
        total_len(a + b) == total_len(a) + total_len(b),
    decreases b.len(),
{
    if b.len() == 0 {
        assert(a + b =~= a);
    } else {
        lemma_total_len_append(a, b.drop_last());
        assert((a + b).drop_last() =~= a + b.drop_last());
    }
}

/// A part of a sequence is no longer in total than the whole.
pub proof fn lemma_total_len_part(ws: Seq<Seq<char>>, i: int, j: int)
    requires
        0 <= i <= j <= ws.len(),
    ensures
        total_len(ws.subrange(i, j)) <= total_len(ws),
        total_len(ws.take(i)) + total_len(ws.subrange(i, j)) == total_len(ws.take(j)),
{
    assert(ws.take(i) + ws.subrange(i, j) =~= ws.take(j));
    assert(ws.take(j) + ws.skip(j) =~= ws);
    lemma_total_len_append(ws.take(i), ws.subrange(i, j));
    lemma_total_len_append(ws.take(j), ws.skip(j));
}

/// The words of a text are not empty, hold no white space, and are together
/// no longer than the text, with a character between each two of them.
pub proof fn words_are_words(s: Seq<char>)
    ensures
        total_len(words_of(s)) + words_of(s).len() <= s.len() + 1,
        s.len() == 0 || whitespace(s[0]) ==> total_len(words_of(s)) + words_of(s).len() <= s.len(),
        forall|i: int| 0 <= i < words_of(s).len() ==> (#[trigger] words_of(s)[i]).len() > 0,
        forall|i: int, k: int|
            0 <= i < words_of(s).len() && 0 <= k < words_of(s)[i].len() ==> !whitespace(
                #[trigger] words_of(s)[i][k],
            ),
    decreases s.len(),
{
    lemma_run(s);
    if s.len() > 0 {
        if whitespace(s[0]) {
            words_are_words(s.skip(1));
        } else {
            let k = run(s) as int;
            let first = seq![s.take(k)];
            let rest = words_of(s.skip(k));
            words_are_words(s.skip(k));
            if k < s.len() {
                assert(s.skip(k)[0] == s[k]);
            }
            lemma_total_len_append(first, rest);
            assert(first.drop_last() =~= Seq::<Seq<char>>::empty());
            assert(total_len(first) == k) by {
                reveal_with_fuel(total_len, 2);
            }
            assert forall|i: int| 0 <= i < words_of(s).len() implies (#[trigger] words_of(
                s,
            )[i]).len() > 0 by {
                if i > 0 {
                    assert(words_of(s)[i] == rest[i - 1]);
                }
            }
            assert forall|i: int, k: int|
                0 <= i < words_of(s).len() && 0 <= k < words_of(s)[i].len() implies !whitespace(
                #[trigger] words_of(s)[i][k],
            ) by {
                if i > 0 {
                    assert(words_of(s)[i] == rest[i - 1]);
                    assert(!whitespace(rest[i - 1][k]));
                } else {
                    assert(words_of(s)[0][k] == s[k]);
                }
            }
        }
    }
}

/// The words of a vector of characters.
pub fn split_chars(v: &Vec<char>) -> (r: Vec<String>)
    ensures
        texts(r@) == words_of(v@),
{
    let mut out: Vec<String> = Vec::new();
    let n: usize = v.len();
    let mut i: usize = 0;
    assert(v@.skip(0) =~= v@);
    assert(texts(out@) + words_of(v@) =~= words_of(v@));
    while i < n
        invariant
            n == v@.len(),
            i <= n,
            texts(out@) + words_of(v@.skip(i as int)) == words_of(v@),
        decreases n - i,
    {
        let ghost s = v@.skip(i as int);
        if v[i].is_whitespace() {
            assert(s.skip(1) =~= v@.skip(i + 1));
            i += 1;
        } else {
            let start: usize = i;
            while i < n && !v[i].is_whitespace()
                invariant
                    n == v@.len(),
                    start <= i <= n,
                    s == v@.skip(start as int),
                    run(s) == (i - start) + run(v@.skip(i as int)),
                decreases n - i,
            {
                let ghost t = v@.skip(i as int);
                assert(t[0] == v@[i as int]);
                assert(t.skip(1) =~= v@.skip(i + 1));
                i += 1;
            }
            proof {
                if i < n {
                    assert(v@.skip(i as int)[0] == v@[i as int]);
                }
                assert(run(v@.skip(i as int)) == 0);
                assert(run(s) > 0);
            }
            let word = string_of_range(v, start, i);
            let ghost before = texts(out@);
            out.push(word);
            proof {
                assert(word@ =~= s.take(run(s) as int));
                assert(s.skip(run(s) as int) =~= v@.skip(i as int));
                assert(texts(out@) =~= before + seq![word@]);
                assert((before + seq![word@]) + words_of(v@.skip(i as int)) =~= before + (seq![
                    word@,
                ] + words_of(v@.skip(i as int))));
            }
        }
    }
    assert(texts(out@) + Seq::<Seq<char>>::empty() =~= texts(out@));
    out
}

/// The words of a text, as `str::split_whitespace` gives them.
pub fn split_words(s: &str) -> (r: Vec<String>)
    ensures
        texts(r@) == words_of(s@),
{
    split_chars(&chars_of(s))
}

/// Words with one space between them.
pub open spec fn spoken(ws: Seq<Seq<char>>) -> Seq<char>
    decreases ws.len(),
{
    if ws.len() == 0 {
        Seq::empty()
    } else if ws.len() == 1 {
        ws[0]
    } else {
        spoken(ws.drop_last()) + seq![' '] + ws.last()
    }
}

/// Two runs of words, one behind the other, with one space between them.
pub proof fn lemma_spoken_append(a: Seq<Seq<char>>, b: Seq<Seq<char>>)
    requires
        a.len() > 0,
        b.len() > 0,
    ensures
        spoken(a + b) == spoken(a) + seq![' '] + spoken(b),
    decreases b.len(),
{
    assert((a + b).last() == b.last());
    if b.len() == 1 {
        assert((a + b).drop_last() =~= a);
    } else {
        lemma_spoken_append(a, b.drop_last());
        assert((a + b).drop_last() =~= a + b.drop_last());
        assert(spoken(a + b) =~= spoken(a) + seq![' '] + spoken(b));
    }
}

/// Whether a text has no white space but single spaces between its words.
pub open spec fn single_spaced(s: Seq<char>) -> bool {
    forall|i: int|
        0 <= i < s.len() && whitespace(#[trigger] s[i]) ==> s[i] == ' ' && 0 < i < s.len() - 1
            && !whitespace(s[i - 1]) && !whitespace(s[i + 1])
}

/// A text whose words stand one space apart is its words, spoken.
pub proof fn lemma_single_spaced(s: Seq<char>)
    requires
        single_spaced(s),
    ensures
        spoken(words_of(s)) == s,
        s.len() > 0 ==> words_of(s).len() > 0,
    decreases s.len(),
{
    if s.len() > 0 {
        assert(!whitespace(s[0]));
        lemma_run(s);
        let k = run(s) as int;
        let first = seq![s.take(k)];
        let rest = words_of(s.skip(k));
        if k == s.len() {
            assert(s.skip(k) =~= Seq::<char>::empty());
            assert(first + rest =~= first);
            assert(s.take(k) =~= s);
        } else {
            assert(whitespace(s[k]));
            let tail = s.skip(k + 1);
            assert(s.skip(k)[0] == s[k]);
            assert(s.skip(k).skip(1) =~= tail);
            assert(single_spaced(tail)) by {
                assert forall|i: int| 0 <= i < tail.len() && whitespace(#[trigger] tail[i]) implies
                    tail[i] == ' ' && 0 < i < tail.len() - 1 && !whitespace(tail[i - 1])
                    && !whitespace(tail[i + 1]) by {
                    assert(tail[i] == s[k + 1 + i]);
                    assert(whitespace(s[k + 1 + i]));
                    assert(!whitespace(s[k + 1 + i - 1]));
                    assert(!whitespace(s[k + 1 + i + 1]));
                }
            }
            lemma_single_spaced(tail);
            lemma_spoken_append(first, rest);
            assert(spoken(first + rest) =~= s);
        }
    }
}

/// The words `start..end` with one space between them.
pub fn join_words(ws: &Vec<String>, start: usize, end: usize) -> (r: String)
    requires
        start <= end <= ws@.len(),
    ensures
        r@ == spoken(texts(ws@).subrange(start as int, end as int)),
{
    let ghost all = texts(ws@);
    let mut out = String::new();
    let mut i: usize = start;
    assert(out@ =~= spoken(all.subrange(start as int, start as int)));
    while i < end
        invariant
            all == texts(ws@),
            start <= i <= end <= ws@.len(),
            out@ == spoken(all.subrange(start as int, i as int)),
        decreases end - i,
    {
        let ghost before = out@;
        let ghost now = all.subrange(start as int, i + 1);
        if i > start {
            out.push(' ');
            assert(out@ =~= before + seq![' ']);
        }
        out.append(ws[i].as_str());
        proof {
            assert(now.last() == ws@[i as int]@);
            assert(now.drop_last() =~= all.subrange(start as int, i as int));
            if i == start {
                assert(out@ =~= ws@[i as int]@);
            }
        }
        i += 1;
    }
    out
}

/// The number of characters of a string.
pub fn char_count(s: &str) -> (r: usize)
    ensures
        r == s@.len(),
{
    chars_of(s).len()
}

// ---- trimming ----

/// A text without the white space it starts with.
pub open spec fn trimmed_start(s: Seq<char>) -> Seq<char>
    decreases s.len(),
{
    if s.len() > 0 && whitespace(s[0]) {
        trimmed_start(s.skip(1))
    } else {
        s
    }
}

/// A text without the white space it ends with.
pub open spec fn trimmed_end(s: Seq<char>) -> Seq<char>
    decreases s.len(),
{
    if s.len() > 0 && whitespace(s.last()) {
        trimmed_end(s.drop_last())
    } else {
        s
    }
}

/// A text without white space around it.
pub open spec fn trimmed(s: Seq<char>) -> Seq<char> {
    trimmed_end(trimmed_start(s))
}

/// The bounds of a vector of characters without white space around them.
pub fn trim_bounds(v: &Vec<char>, from: usize, to: usize) -> (r: (usize, usize))
    requires
        from <= to <= v@.len(),
    ensures
        from <= r.0 <= r.1 <= to,
        v@.subrange(r.0 as int, r.1 as int) == trimmed(v@.subrange(from as int, to as int)),
{
    let mut start: usize = from;
    let ghost whole = v@.subrange(from as int, to as int);
    while start < to && v[start].is_whitespace()
        invariant
            from <= start <= to <= v@.len(),
            trimmed_start(v@.subrange(start as int, to as int)) == trimmed_start(whole),
        decreases to - start,
    {
        let ghost t = v@.subrange(start as int, to as int);
        assert(t[0] == v@[start as int]);
        assert(t.skip(1) =~= v@.subrange(start + 1, to as int));
        start += 1;
    }
    let ghost left = v@.subrange(start as int, to as int);
    proof {
        if start < to {
            assert(left[0] == v@[start as int]);
        }
        assert(left == trimmed_start(whole));
    }
    let mut end: usize = to;
    while end > start && v[end - 1].is_whitespace()
        invariant
            from <= start <= end <= to <= v@.len(),
            trimmed_end(v@.subrange(start as int, end as int)) == trimmed_end(left),
        decreases end,
    {
        let ghost t = v@.subrange(start as int, end as int);
        assert(t.last() == v@[end - 1]);
        assert(t.drop_last() =~= v@.subrange(start as int, end - 1));
        end -= 1;
    }
    proof {
        let t = v@.subrange(start as int, end as int);
        if end > start {
            assert(t.last() == v@[end - 1]);
        }
    }
    (start, end)
}

/// The text `from..to` without white space around it, as `str::trim` gives it.
pub fn trim_range(v: &Vec<char>, from: usize, to: usize) -> (r: String)
    requires
        from <= to <= v@.len(),
    ensures
        r@ == trimmed(v@.subrange(from as int, to as int)),
{
    let b = trim_bounds(v, from, to);
    string_of_range(v, b.0, b.1)
}

/// A text without the slashes it ends with.
pub open spec fn without_slashes(s: Seq<char>) -> Seq<char>
    decreases s.len(),
{
    if s.len() > 0 && s.last() == '/' {
        without_slashes(s.drop_last())
    } else {
        s
    }
}

// ---- lines ----

/// The position of the first `c`, or the length where there is none.
pub open spec fn find_char(s: Seq<char>, c: char) -> nat
    decreases s.len(),
{
    if s.len() == 0 || s[0] == c {
        0
    } else {
        1 + find_char(s.skip(1), c)
    }
}

pub proof fn lemma_find_char(s: Seq<char>, c: char)
    ensures
        find_char(s, c) <= s.len(),
        forall|i: int| 0 <= i < find_char(s, c) ==> #[trigger] s[i] != c,
        find_char(s, c) < s.len() ==> s[find_char(s, c) as int] == c,
    decreases s.len(),
{
    if s.len() > 0 && s[0] != c {
        let t = s.skip(1);
        lemma_find_char(t, c);
        assert forall|i: int| 0 <= i < find_char(s, c) implies #[trigger] s[i] != c by {
            if i > 0 {
                assert(s[i] == t[i - 1]);
            }
        }
        if find_char(s, c) < s.len() {
            assert(s[find_char(s, c) as int] == t[find_char(t, c) as int]);
        }
    }
}

/// The position of the first `c` from `from` on, or the end.
pub fn find_from(v: &Vec<char>, from: usize, c: char) -> (r: usize)
    requires
        from <= v@.len(),
    ensures
        r == from + find_char(v@.skip(from as int), c),
        from <= r <= v@.len(),
{
    let n: usize = v.len();
    let mut i: usize = from;
    while i < n && v[i] != c
        invariant
            n == v@.len(),
            from <= i <= n,
            find_char(v@.skip(from as int), c) == (i - from) + find_char(v@.skip(i as int), c),
        decreases n - i,
    {
        let ghost t = v@.skip(i as int);
        assert(t[0] == v@[i as int]);
        assert(t.skip(1) =~= v@.skip(i + 1));
        i += 1;
    }
    proof {
        if i < n {
            assert(v@.skip(i as int)[0] == v@[i as int]);
        }
    }
    i
}

/// A line without the carriage return in front of its line feed.
pub open spec fn without_return(line: Seq<char>) -> Seq<char> {
    if line.len() > 0 && line.last() == '\r' {
        line.drop_last()
    } else {
        line
    }
}

/// The lines of a text. A line ends at a line feed, or at a carriage return
/// and a line feed; the last line may end without.
pub open spec fn lines_of(s: Seq<char>) -> Seq<Seq<char>>
    decreases s.len(),
    via lines_of_shrinks
{
    if s.len() == 0 {
        Seq::empty()
    } else {
        let k = find_char(s, '\n') as int;
        if k < s.len() {
            seq![without_return(s.take(k))] + lines_of(s.skip(k + 1))
        } else {
            seq![s]
        }
    }
}

#[via_fn]
proof fn lines_of_shrinks(s: Seq<char>) {
    lemma_find_char(s, '\n');
}

/// The lines of a text, as `str::lines` gives them.
pub fn split_lines(s: &str) -> (r: Vec<String>)
    ensures
        texts(r@) == lines_of(s@),
{
    let v = chars_of(s);
    let n: usize = v.len();
    let mut out: Vec<String> = Vec::new();
    let mut i: usize = 0;
    assert(v@.skip(0) =~= v@);
    assert(texts(out@) + lines_of(v@) =~= lines_of(v@));
    while i < n
        invariant
            n == v@.len(),
            i <= n,
            texts(out@) + lines_of(v@.skip(i as int)) == lines_of(v@),
        decreases n - i,
    {
        let ghost t = v@.skip(i as int);
        let ghost before = texts(out@);
        let k: usize = find_from(&v, i, '\n');
        if k < n {
            let end: usize = if k > i && v[k - 1] == '\r' {
                k - 1
            } else {
                k
            };
            let line = string_of_range(&v, i, end);
            out.push(line);
            proof {
                let raw = t.take(k - i);
                if k > i {
                    assert(raw.last() == v@[k - 1]);
                }
                assert(line@ =~= without_return(raw));
                assert(t.skip(k - i + 1) =~= v@.skip(k + 1));
                assert(texts(out@) =~= before + seq![line@]);
                assert((before + seq![line@]) + lines_of(v@.skip(k + 1)) =~= before + (seq![line@]
                    + lines_of(v@.skip(k + 1))));
            }
            i = k + 1;
        } else {
            let line = string_of_range(&v, i, n);
            out.push(line);
            proof {
                assert(line@ =~= t);
                assert(texts(out@) =~= before + seq![line@]);
                assert(v@.skip(n as int) =~= Seq::<char>::empty());
                assert(texts(out@) + Seq::<Seq<char>>::empty() =~= texts(out@));
            }
            i = n;
        }
    }
    assert(v@.skip(i as int) =~= Seq::<char>::empty());
    assert(texts(out@) + Seq::<Seq<char>>::empty() =~= texts(out@));
    out
}

/// Whether a text starts with another.
pub open spec fn starts_with(s: Seq<char>, head: Seq<char>) -> bool {
    head.len() <= s.len() && s.take(head.len() as int) == head
}

/// Whether the characters start with `head`.
pub fn has_prefix(v: &Vec<char>, head: &str) -> (r: bool)
    ensures
        r == starts_with(v@, head@),
{
    let h = chars_of(head);
    if h.len() > v.len() {
        return false;
    }
    let mut i: usize = 0;
    while i < h.len()
        invariant
            h@ == head@,
            h@.len() <= v@.len(),
            i <= h@.len(),
            forall|k: int| 0 <= k < i ==> v@[k] == h@[k],
        decreases h@.len() - i,
    {
        if v[i] != h[i] {
            assert(v@.take(h@.len() as int)[i as int] != h@[i as int]);
            return false;
        }
        i += 1;
    }
    assert(v@.take(h@.len() as int) =~= h@);
    true
}

/// Whether a character occurs.
pub fn has_char(v: &Vec<char>, c: char) -> (r: bool)
    ensures
        r == v@.contains(c),
{
    let k: usize = find_from(v, 0, c);
    proof {
        assert(v@.skip(0) =~= v@);
        lemma_find_char(v@, c);
        if k < v@.len() {
            assert(v@[k as int] == c);
        } else if v@.contains(c) {
            let i = choose|i: int| 0 <= i < v@.len() && v@[i] == c;
            assert(v@[i] != c);
        }
    }
    k < v.len()
}

/// The position of the first `c` in `v[from..to]`, or `to`.
pub fn find_in(v: &Vec<char>, from: usize, to: usize, c: char) -> (r: usize)
    requires
        from <= to <= v@.len(),
    ensures
        from <= r <= to,
        r == from + find_char(v@.subrange(from as int, to as int), c),
{
    let ghost s = v@.subrange(from as int, to as int);
    let mut i: usize = from;
    assert(s.skip(0) =~= s);
    while i < to && v[i] != c
        invariant
            from <= i <= to <= v@.len(),
            s == v@.subrange(from as int, to as int),
            find_char(s, c) == (i - from) + find_char(s.skip(i - from), c),
        decreases to - i,
    {
        let ghost t = s.skip(i - from);
        assert(t[0] == v@[i as int]);
        assert(t.skip(1) =~= s.skip(i + 1 - from));
        i += 1;
    }
    proof {
        if i < to {
            assert(s.skip(i - from)[0] == v@[i as int]);
        }
    }
    i
}

/// Appends the characters `from..to`.
pub fn append_chars(out: &mut Vec<char>, v: &Vec<char>, from: usize, to: usize)
    requires
        from <= to <= v@.len(),
    ensures
        final(out)@ == old(out)@ + v@.subrange(from as int, to as int),
{
    let mut i: usize = from;
    while i < to
        invariant
            from <= i <= to <= v@.len(),
            out@ == old(out)@ + v@.subrange(from as int, i as int),
        decreases to - i,
    {
        out.push(v[i]);
        i += 1;
        assert(out@ =~= old(out)@ + v@.subrange(from as int, i as int));
    }
}

// ---- replacing ----

/// A text with every occurrence of `pat`, from left to right and without
/// overlaps, replaced.
pub open spec fn replaced(s: Seq<char>, pat: Seq<char>, with: Seq<char>) -> Seq<char>
    decreases s.len(),
{
    if s.len() == 0 {
        Seq::empty()
    } else if pat.len() > 0 && starts_with(s, pat) {
        with + replaced(s.skip(pat.len() as int), pat, with)
    } else {
        seq![s[0]] + replaced(s.skip(1), pat, with)
    }
}

/// Whether `head` stands at `at`.
fn stands_at(v: &Vec<char>, at: usize, head: &Vec<char>) -> (r: bool)
    requires
        at <= v@.len(),
    ensures
        r == starts_with(v@.skip(at as int), head@),
{
    let n: usize = head.len();
    let len: usize = v.len();
    if n > len - at {
        return false;
    }
    let mut i: usize = 0;
    while i < n
        invariant
            n == head@.len(),
            len == v@.len(),
            at + n <= len,
            i <= n,
            forall|k: int| 0 <= k < i ==> v@[at + k] == head@[k],
        decreases n - i,
    {
        if v[at + i] != head[i] {
            assert(v@.skip(at as int).take(n as int)[i as int] != head@[i as int]);
            return false;
        }
        i += 1;
    }
    assert(v@.skip(at as int).take(n as int) =~= head@);
    true
}

/// Replaces every occurrence of `pat`, as `str::replace` does.
pub fn replace_all(s: &str, pat: &str, with: &str) -> (r: String)
    requires
        pat@.len() > 0,
    ensures
        r@ == replaced(s@, pat@, with@),
{
    let v = chars_of(s);
    let p = chars_of(pat);
    let n: usize = v.len();
    let mut out = String::new();
    let mut i: usize = 0;
    assert(v@.skip(0) =~= v@);
    assert(out@ + replaced(v@, pat@, with@) =~= replaced(v@, pat@, with@));
    while i < n
        invariant
            n == v@.len(),
            v@ == s@,
            p@ == pat@,
            pat@.len() > 0,
            i <= n,
            out@ + replaced(v@.skip(i as int), pat@, with@) == replaced(s@, pat@, with@),
        decreases n - i,
    {
        let ghost t = v@.skip(i as int);
        let ghost before = out@;
        if stands_at(&v, i, &p) {
            out.append(with);
            proof {
                assert(t.skip(pat@.len() as int) =~= v@.skip(i + pat@.len()));
                let tail = replaced(v@.skip(i + pat@.len()), pat@, with@);
                assert((before + with@) + tail =~= before + (with@ + tail));
            }
            i += p.len();
        } else {
            out.push(v[i]);
            proof {
                assert(t[0] == v@[i as int]);
                assert(t.skip(1) =~= v@.skip(i + 1));
                let tail = replaced(v@.skip(i + 1), pat@, with@);
                assert(before.push(v@[i as int]) + tail =~= before + (seq![t[0]] + tail));
            }
            i += 1;
        }
    }
    assert(out@ + Seq::<char>::empty() =~= out@);
    out
}

// ---- laws ----

/// Whether a text is white space throughout.
pub open spec fn blank(s: Seq<char>) -> bool {
    forall|i: int| 0 <= i < s.len() ==> whitespace(#[trigger] s[i])
}

proof fn lemma_trimmed_start(s: Seq<char>) -> (a: Seq<char>)
    ensures
        s == a + trimmed_start(s),
        blank(a),
        trimmed_start(s).len() > 0 ==> !whitespace(trimmed_start(s)[0]),
    decreases s.len(),
{
    if s.len() > 0 && whitespace(s[0]) {
        let b = lemma_trimmed_start(s.skip(1));
        let a = seq![s[0]] + b;
        assert(s =~= seq![s[0]] + s.skip(1));
        assert(s =~= a + trimmed_start(s));
        assert forall|i: int| 0 <= i < a.len() implies whitespace(#[trigger] a[i]) by {
            if i > 0 {
                assert(a[i] == b[i - 1]);
            }
        }
        a
    } else {
        assert(s =~= Seq::<char>::empty() + s);
        Seq::empty()
    }
}

proof fn lemma_trimmed_end(s: Seq<char>) -> (b: Seq<char>)
    ensures
        s == trimmed_end(s) + b,
        blank(b),
        trimmed_end(s).len() > 0 ==> !whitespace(trimmed_end(s).last()) && trimmed_end(s)[0]
            == s[0],
    decreases s.len(),
{
    if s.len() > 0 && whitespace(s.last()) {
        let c = lemma_trimmed_end(s.drop_last());
        let b = c.push(s.last());
        assert(s =~= s.drop_last().push(s.last()));
        assert(s =~= trimmed_end(s) + b);
        assert forall|i: int| 0 <= i < b.len() implies whitespace(#[trigger] b[i]) by {
            if i < c.len() {
                assert(b[i] == c[i]);
            }
        }
        b
    } else {
        assert(s =~= s + Seq::<char>::empty());
        Seq::empty()
    }
}

/// Trimming drops the white space around a text and nothing else.
pub proof fn trimming_drops_white_space(s: Seq<char>) -> (r: (Seq<char>, Seq<char>))
    ensures
        s == r.0 + trimmed(s) + r.1,
        blank(r.0),
        blank(r.1),
        trimmed(s).len() > 0 ==> !whitespace(trimmed(s)[0]) && !whitespace(trimmed(s).last()),
{
    let a = lemma_trimmed_start(s);
    let b = lemma_trimmed_end(trimmed_start(s));
    assert(s =~= a + trimmed(s) + b);
    (a, b)
}

/// A line ends where the next one begins, and has neither its newline nor a
/// return in front of that.
pub proof fn lines_end_at_newlines(line: Seq<char>, rest: Seq<char>)
    requires
        !line.contains('\n'),
    ensures
        lines_of(line + seq!['\n'] + rest) == seq![without_return(line)] + lines_of(rest),
        line.len() > 0 && line.last() == '\r' ==> without_return(line) == line.drop_last(),
        line.len() > 0 && line.last() != '\r' ==> without_return(line) == line,
{
    let s = line + seq!['\n'] + rest;
    lemma_find_char(s, '\n');
    let k = find_char(s, '\n') as int;
    assert(s[line.len() as int] == '\n');
    assert(k == line.len()) by {
        if k < line.len() {
            assert(line[k] == '\n');
        }
    }
    assert(s.take(k) =~= line);
    assert(s.skip(k + 1) =~= rest);
}

} // verus!
