//! Benchmark corpora: the utterances they hold, how they are split and expanded,
//! and the request stream that is drawn from them.

use crate::numeral::{all_digits, is_digit};
use crate::text::{
    chars_of, digit_char, lines_of, replace_all, replaced, same_text, split_lines, texts,
    trim_range, trimmed,
};
use crate::units::{normalize, normalized};
use vstd::prelude::*;
use vstd::string::*;

verus! {

/// A named list of utterances.
pub struct Corpus {
    pub name: String,
    pub utterances: Vec<String>,
}

/// The value of a corpus.
#[verifier::ext_equal]
pub struct CorpusView {
    pub name: Seq<char>,
    pub utterances: Seq<Seq<char>>,
}

impl View for Corpus {
    type V = CorpusView;

    open spec fn view(&self) -> CorpusView {
        CorpusView { name: self.name@, utterances: texts(self.utterances@) }
    }
}

/// The values of a sequence of corpora.
pub open spec fn corpus_views(v: Seq<Corpus>) -> Seq<CorpusView> {
    Seq::new(v.len(), |i: int| v[i]@)
}

// ---- reading ----

/// The utterances of lines: what is left of each without white space around it,
/// leaving out empty lines and comments.
pub open spec fn utterances_of(lines: Seq<Seq<char>>) -> Seq<Seq<char>>
    decreases lines.len(),
{
    if lines.len() == 0 {
        Seq::empty()
    } else {
        let before = utterances_of(lines.drop_last());
        let line = trimmed(lines.last());
        if line.len() == 0 || line[0] == '#' {
            before
        } else {
            before.push(line)
        }
    }
}

/// Reads a corpus: one utterance to a line, `#` for comments.
pub fn read_corpus(name: &str, text: &str) -> (r: Corpus)
    ensures
        r@ == (CorpusView { name: name@, utterances: utterances_of(lines_of(text@)) }),
{
    let lines = split_lines(text);
    let ghost all = lines_of(text@);
    let mut out: Vec<String> = Vec::new();
    let mut i: usize = 0;
    assert(texts(lines@).len() == lines@.len());
    assert(all.take(0) =~= Seq::<Seq<char>>::empty());
    assert(texts(out@) =~= utterances_of(all.take(0)));
    while i < lines.len()
        invariant
            texts(lines@) == all,
            lines@.len() == all.len(),
            i <= lines@.len(),
            texts(out@) == utterances_of(all.take(i as int)),
        decreases lines@.len() - i,
    {
        let ghost before = texts(out@);
        assert(all[i as int] == lines@[i as int]@);
        assert(all.take(i + 1).drop_last() =~= all.take(i as int));
        assert(all.take(i + 1).last() == all[i as int]);
        let v = chars_of(lines[i].as_str());
        let line = trim_range(&v, 0, v.len());
        assert(v@.subrange(0, v@.len() as int) =~= v@);
        let t = chars_of(line.as_str());
        if t.len() > 0 && t[0] != '#' {
            out.push(line);
            assert(texts(out@) =~= before.push(t@));
        }
        i += 1;
    }
    assert(all.take(i as int) =~= all);
    Corpus { name: name.to_owned(), utterances: out }
}

/// The position of the corpus with a name, or the length.
pub open spec fn corpus_spot(v: Seq<CorpusView>, name: Seq<char>) -> nat
    decreases v.len(),
{
    if v.len() == 0 || v[0].name == name {
        0
    } else {
        1 + corpus_spot(v.skip(1), name)
    }
}

/// The utterances of the corpus with a name, or none.
pub open spec fn utterances_in(v: Seq<CorpusView>, name: Seq<char>) -> Seq<Seq<char>> {
    let k = corpus_spot(v, name) as int;
    if k < v.len() {
        v[k].utterances
    } else {
        Seq::empty()
    }
}

/// The position of the corpus with a name, or the length.
pub fn find_corpus(corpora: &Vec<Corpus>, name: &str) -> (r: usize)
    ensures
        r == corpus_spot(corpus_views(corpora@), name@),
        r <= corpora@.len(),
{
    let ghost all = corpus_views(corpora@);
    let mut i: usize = 0;
    assert(all.skip(0) =~= all);
    while i < corpora.len()
        invariant
            all == corpus_views(corpora@),
            i <= corpora@.len(),
            corpus_spot(all, name@) == i + corpus_spot(all.skip(i as int), name@),
        decreases corpora@.len() - i,
    {
        assert(all.skip(i as int)[0] == corpora@[i as int]@);
        assert(all.skip(i as int).skip(1) =~= all.skip(i + 1));
        if same_text(corpora[i].name.as_str(), name) {
            return i;
        }
        i += 1;
    }
    i
}

// ---- splitting ----

/// Every fifth line, or all the others.
pub open spec fn every_fifth(lines: Seq<Seq<char>>, fifth: bool) -> Seq<Seq<char>>
    decreases lines.len(),
{
    if lines.len() == 0 {
        Seq::empty()
    } else {
        let before = every_fifth(lines.drop_last(), fifth);
        if ((lines.len() - 1) % 5 == 4) == fifth {
            before.push(lines.last())
        } else {
            before
        }
    }
}

/// Splits lines for training and evaluation: every fifth line is for
/// evaluation.
pub fn split_lines_by_fifth(lines: &Vec<String>, fifth: bool) -> (r: Vec<String>)
    ensures
        texts(r@) == every_fifth(texts(lines@), fifth),
{
    let ghost all = texts(lines@);
    let mut out: Vec<String> = Vec::new();
    let mut i: usize = 0;
    assert(all.take(0) =~= Seq::<Seq<char>>::empty());
    assert(texts(out@) =~= every_fifth(all.take(0), fifth));
    while i < lines.len()
        invariant
            all == texts(lines@),
            i <= lines@.len(),
            texts(out@) == every_fifth(all.take(i as int), fifth),
        decreases lines@.len() - i,
    {
        let ghost before = texts(out@);
        assert(all.take(i + 1).drop_last() =~= all.take(i as int));
        assert(all.take(i + 1).last() == lines@[i as int]@);
        if (i % 5 == 4) == fifth {
            out.push(lines[i].clone());
            assert(texts(out@) =~= before.push(lines@[i as int]@));
        }
        i += 1;
    }
    assert(all.take(i as int) =~= all);
    out
}

/// No line is lost or doubled by the split.
pub proof fn splitting_keeps_every_line(lines: Seq<Seq<char>>)
    ensures
        every_fifth(lines, true).len() + every_fifth(lines, false).len() == lines.len(),
        every_fifth(lines, true).len() == lines.len() / 5,
    decreases lines.len(),
{
    if lines.len() > 0 {
        splitting_keeps_every_line(lines.drop_last());
    }
}

// ---- draws ----

/// The next state of the generator that draws are made from.
pub open spec fn next_state(s: u64) -> u64 {
    ((s as nat * 6364136223846793005 + 1442695040888963407) % 0x1_0000_0000_0000_0000) as u64
}

fn step(s: u64) -> (r: u64)
    ensures
        r == next_state(s),
{
    assert(s as nat * 6364136223846793005 <= 0xffff_ffff_ffff_ffff * 6364136223846793005)
        by (nonlinear_arith)
        requires
            0 <= s <= 0xffff_ffff_ffff_ffff,
    ;
    let wide: u128 = s as u128 * 6364136223846793005 + 1442695040888963407;
    (wide % 0x1_0000_0000_0000_0000) as u64
}

/// The number drawn in a state.
pub open spec fn drawn(s: u64) -> nat {
    s as nat / 0x2_0000_0000
}

fn draw(s: u64) -> (r: usize)
    ensures
        r == drawn(s),
        r < 0x8000_0000,
{
    (s / 0x2_0000_0000) as usize
}

// ---- the replay stream ----

/// The lines that requests are drawn from: the head, and the long tail.
pub struct Urn {
    pub head: Seq<Seq<char>>,
    pub tail: Seq<Seq<char>>,
}

/// What is drawn next, if anything, and the state after it: three of four
/// requests come from the head.
pub open spec fn picked(u: Urn, s: u64) -> (Option<Seq<char>>, u64) {
    let a = if u.head.len() > 0 {
        next_state(s)
    } else {
        s
    };
    let b = next_state(a);
    if u.head.len() > 0 && drawn(a) % 100 < 75 {
        (Some(u.head[(drawn(b) % u.head.len()) as int]), b)
    } else if u.tail.len() > 0 {
        (Some(u.tail[(drawn(b) % u.tail.len()) as int]), b)
    } else {
        (None, a)
    }
}

/// The first `n` requests, and the state after them.
pub open spec fn stream_of(u: Urn, n: nat) -> (Seq<Seq<char>>, u64)
    decreases n,
{
    if n == 0 {
        (Seq::empty(), 7)
    } else {
        let (before, s) = stream_of(u, (n - 1) as nat);
        let (next, t) = picked(u, s);
        match next {
            Some(x) => (before.push(x), t),
            None => (before, t),
        }
    }
}

/// What is drawn from a set of corpora: the first ten lines of the support corpus
/// are the head, and its other lines follow the long tail.
pub open spec fn urn_of(corpora: Seq<CorpusView>) -> Urn {
    let support = utterances_in(corpora, "support_repetitive"@);
    let n = if support.len() <= 10 {
        support.len() as int
    } else {
        10
    };
    Urn {
        head: support.take(n),
        tail: utterances_in(corpora, "long_tail"@) + support.skip(n),
    }
}

/// Appends copies of the lines `from..to`.
fn append_lines(out: &mut Vec<String>, lines: &Vec<String>, from: usize, to: usize)
    requires
        from <= to <= lines@.len(),
    ensures
        texts(final(out)@) == texts(old(out)@) + texts(lines@).subrange(from as int, to as int),
{
    let ghost first = texts(out@);
    let ghost all = texts(lines@);
    let mut i: usize = from;
    assert(texts(out@) =~= first + all.subrange(from as int, from as int));
    while i < to
        invariant
            all == texts(lines@),
            from <= i <= to <= lines@.len(),
            texts(out@) == first + all.subrange(from as int, i as int),
        decreases to - i,
    {
        let ghost before = texts(out@);
        out.push(lines[i].clone());
        i += 1;
        assert(texts(out@) =~= before.push(all[i - 1]));
        assert(texts(out@) =~= first + all.subrange(from as int, i as int));
    }
}

/// Zipf-ish request stream: three of four requests come from the first ten lines
/// of the support corpus, the others from the long tail. The same corpora give the
/// same stream.
pub fn replay_stream(corpora: &Vec<Corpus>, n: usize) -> (r: Vec<String>)
    ensures
        texts(r@) == stream_of(urn_of(corpus_views(corpora@)), n as nat).0,
{
    let ghost all = corpus_views(corpora@);
    let ghost u = urn_of(all);
    let mut head: Vec<String> = Vec::new();
    let mut tail: Vec<String> = Vec::new();
    let t: usize = find_corpus(corpora, "long_tail");
    if t < corpora.len() {
        assert(all[t as int] == corpora@[t as int]@);
        append_lines(&mut tail, &corpora[t].utterances, 0, corpora[t].utterances.len());
    }
    let ghost long = utterances_in(all, "long_tail"@);
    assert(texts(tail@) =~= long);
    let k: usize = find_corpus(corpora, "support_repetitive");
    let ghost support = utterances_in(all, "support_repetitive"@);
    if k < corpora.len() {
        assert(all[k as int] == corpora@[k as int]@);
        let lines = &corpora[k].utterances;
        let len: usize = lines.len();
        let ten: usize = if len <= 10 {
            len
        } else {
            10
        };
        append_lines(&mut head, lines, 0, ten);
        append_lines(&mut tail, lines, ten, len);
        assert(support.subrange(ten as int, len as int) =~= support.skip(ten as int));
        assert(texts(head@) =~= support.take(ten as int));
    } else {
        assert(texts(head@) =~= support.take(0));
        assert(long + support.skip(0) =~= long);
    }
    assert(texts(head@) =~= u.head);
    assert(texts(tail@) =~= u.tail);
    let mut out: Vec<String> = Vec::new();
    let mut state: u64 = 7;
    let mut i: usize = 0;
    assert(texts(out@) =~= Seq::<Seq<char>>::empty());
    while i < n
        invariant
            texts(head@) == u.head,
            texts(tail@) == u.tail,
            i <= n,
            (texts(out@), state) == stream_of(u, i as nat),
        decreases n - i,
    {
        let ghost before = texts(out@);
        let ghost s = state;
        assert(u.head.len() == head@.len());
        assert(u.tail.len() == tail@.len());
        let mut from_head = false;
        if head.len() > 0 {
            state = step(state);
            from_head = draw(state) % 100 < 75;
        }
        if from_head {
            state = step(state);
            let at: usize = draw(state) % head.len();
            assert(u.head[at as int] == head@[at as int]@);
            out.push(head[at].clone());
            assert(texts(out@) =~= before.push(u.head[at as int]));
        } else if tail.len() > 0 {
            state = step(state);
            let at: usize = draw(state) % tail.len();
            assert(u.tail[at as int] == tail@[at as int]@);
            out.push(tail[at].clone());
            assert(texts(out@) =~= before.push(u.tail[at as int]));
        }
        i += 1;
    }
    out
}

/// Every request of a stream is one of the lines it is drawn from, and there are
/// as many as were asked for, unless there is nothing to draw from.
pub proof fn requests_come_from_the_corpora(u: Urn, n: nat)
    ensures
        forall|i: int|
            0 <= i < stream_of(u, n).0.len() ==> u.head.contains(#[trigger] stream_of(u, n).0[i])
                || u.tail.contains(stream_of(u, n).0[i]),
        u.tail.len() > 0 ==> stream_of(u, n).0.len() == n,
        u.head.len() == 0 && u.tail.len() == 0 ==> stream_of(u, n).0.len() == 0,
    decreases n,
{
    if n > 0 {
        requests_come_from_the_corpora(u, (n - 1) as nat);
        let (before, s) = stream_of(u, (n - 1) as nat);
        let now = stream_of(u, n).0;
        let (next, t) = picked(u, s);
        let b = next_state(
            if u.head.len() > 0 {
                next_state(s)
            } else {
                s
            },
        );
        assert forall|i: int| 0 <= i < now.len() implies u.head.contains(#[trigger] now[i])
            || u.tail.contains(now[i]) by {
            if i < before.len() {
                assert(now[i] == before[i]);
            } else {
                if u.head.len() > 0 {
                    let at = (drawn(b) % u.head.len()) as int;
                    assert(0 <= at < u.head.len());
                    assert(u.head.contains(u.head[at]));
                }
                if u.tail.len() > 0 {
                    let at = (drawn(b) % u.tail.len()) as int;
                    assert(0 <= at < u.tail.len());
                    assert(u.tail.contains(u.tail[at]));
                }
            }
        }
    }
}

// ---- templates ----

/// `n` digits drawn after a state, and the state after them.
pub open spec fn drawn_digits(s: u64, n: nat) -> (Seq<char>, u64)
    decreases n,
{
    if n == 0 {
        (Seq::empty(), s)
    } else {
        let (before, t) = drawn_digits(s, (n - 1) as nat);
        let next = next_state(t);
        (before.push(digit_char(drawn(next) % 10)), next)
    }
}

/// How many digits are drawn in a state: three to seven.
pub open spec fn digit_count(s: u64) -> nat {
    3 + (s as nat / 0x800_0000_0000_0000) % 5
}

/// The first `m` expansions of templates, thirteen for each, and the state after
/// them.
pub open spec fn expansions(templates: Seq<Seq<char>>, m: nat) -> (Seq<Seq<char>>, u64)
    decreases m,
{
    if m == 0 {
        (Seq::empty(), 42)
    } else {
        let (before, s) = expansions(templates, (m - 1) as nat);
        let t = next_state(s);
        let (digits, after) = drawn_digits(t, digit_count(t));
        let template = templates[(m - 1) / 13];
        (before.push(normalized(replaced(template, "{n}"@, digits))), after)
    }
}

fn draw_digits(s: u64, n: u64) -> (r: (String, u64))
    ensures
        (r.0@, r.1) == drawn_digits(s, n as nat),
{
    let mut out = String::new();
    let mut state: u64 = s;
    let mut i: u64 = 0;
    while i < n
        invariant
            i <= n,
            (out@, state) == drawn_digits(s, i as nat),
        decreases n - i,
    {
        state = step(state);
        let d: usize = draw(state) % 10;
        out.push(crate::text::digit(d as u64));
        i += 1;
    }
    (out, state)
}

/// Deterministic `{n}` expansions of alignment templates: thirteen for each.
pub fn expand_templates(templates: &Vec<String>) -> (r: Vec<String>)
    ensures
        texts(r@) == expansions(texts(templates@), 13 * templates@.len()).0,
{
    let ghost all = texts(templates@);
    let mut out: Vec<String> = Vec::new();
    let mut state: u64 = 42;
    let mut k: usize = 0;
    proof {
        reveal_strlit("{n}");
        assert(texts(out@) =~= Seq::<Seq<char>>::empty());
    }
    while k < templates.len()
        invariant
            "{n}"@.len() > 0,
            all == texts(templates@),
            k <= templates@.len(),
            (texts(out@), state) == expansions(all, 13 * k as nat),
        decreases templates@.len() - k,
    {
        let mut j: u32 = 0;
        while j < 13
            invariant
                "{n}"@.len() > 0,
                all == texts(templates@),
                k < templates@.len(),
                j <= 13,
                (texts(out@), state) == expansions(all, (13 * k + j) as nat),
            decreases 13 - j,
        {
            let ghost before = texts(out@);
            let ghost m = (13 * k + j + 1) as nat;
            state = step(state);
            let count: u64 = 3 + (state / 0x800_0000_0000_0000) % 5;
            let (digits, after) = draw_digits(state, count);
            state = after;
            let text = normalize(
                replace_all(templates[k].as_str(), "{n}", digits.as_str()).as_str(),
            );
            out.push(text);
            proof {
                assert((m - 1) / 13 == k);
                assert(all[k as int] == templates@[k as int]@);
                assert(texts(out@) =~= before.push(text@));
            }
            j += 1;
        }
        k += 1;
    }
    out
}

/// Every template is expanded thirteen times.
pub proof fn expansions_are_complete(templates: Seq<Seq<char>>, m: nat)
    ensures
        expansions(templates, m).0.len() == m,
    decreases m,
{
    if m > 0 {
        expansions_are_complete(templates, (m - 1) as nat);
    }
}

/// Every fifth line is for evaluation, and the others are for training, in the
/// order in which they stand.
pub proof fn every_fifth_line_is_held_out(lines: Seq<Seq<char>>, i: int)
    requires
        0 <= i < lines.len(),
    ensures
        i % 5 == 4 ==> i / 5 < every_fifth(lines, true).len() && every_fifth(lines, true)[i / 5]
            == lines[i],
        i % 5 != 4 ==> i - i / 5 < every_fifth(lines, false).len() && every_fifth(lines, false)[i
            - i / 5] == lines[i],
    decreases lines.len(),
{
    splitting_keeps_every_line(lines);
    let t = lines.drop_last();
    splitting_keeps_every_line(t);
    if i < lines.len() - 1 {
        every_fifth_line_is_held_out(t, i);
        assert(t[i] == lines[i]);
    } else {
        assert(lines.last() == lines[i]);
        assert(every_fifth(t, true).len() == i / 5);
    }
}

/// Requests are drawn from every line of the two corpora, the first ten lines of
/// the repetitive one apart from the rest.
pub proof fn every_line_can_be_drawn(corpora: Seq<CorpusView>, line: Seq<char>)
    ensures
        utterances_in(corpora, "support_repetitive"@).contains(line) || utterances_in(
            corpora,
            "long_tail"@,
        ).contains(line) <==> urn_of(corpora).head.contains(line) || urn_of(
            corpora,
        ).tail.contains(line),
        urn_of(corpora).head.len() <= 10,
        forall|i: int|
            0 <= i < urn_of(corpora).head.len() ==> #[trigger] urn_of(corpora).head[i]
                == utterances_in(corpora, "support_repetitive"@)[i],
{
    let support = utterances_in(corpora, "support_repetitive"@);
    let long = utterances_in(corpora, "long_tail"@);
    let u = urn_of(corpora);
    let n = u.head.len() as int;
    if support.contains(line) {
        let i = choose|i: int| 0 <= i < support.len() && support[i] == line;
        if i < n {
            assert(u.head[i] == line);
        } else {
            assert(u.tail[long.len() + i - n] == line);
        }
    }
    if long.contains(line) {
        let i = choose|i: int| 0 <= i < long.len() && long[i] == line;
        assert(u.tail[i] == line);
    }
    if u.head.contains(line) {
        let i = choose|i: int| 0 <= i < u.head.len() && u.head[i] == line;
        assert(support[i] == line);
    }
    if u.tail.contains(line) {
        let i = choose|i: int| 0 <= i < u.tail.len() && u.tail[i] == line;
        if i < long.len() {
            assert(long[i] == line);
        } else {
            assert(support[i - long.len() + n] == line);
        }
    }
}

/// Whether a text is a template with digits, three to seven of them, in place of
/// its number.
pub open spec fn is_filled(template: Seq<char>, text: Seq<char>) -> bool {
    exists|digits: Seq<char>|
        3 <= digits.len() <= 7 && all_digits(digits) && text == normalized(
            #[trigger] replaced(template, "{n}"@, digits),
        )
}

proof fn lemma_digits_are_drawn(s: u64, n: nat)
    ensures
        drawn_digits(s, n).0.len() == n,
        all_digits(drawn_digits(s, n).0),
    decreases n,
{
    if n > 0 {
        lemma_digits_are_drawn(s, (n - 1) as nat);
        let before = drawn_digits(s, (n - 1) as nat).0;
        let now = drawn_digits(s, n).0;
        assert forall|i: int| 0 <= i < now.len() implies is_digit(#[trigger] now[i]) by {
            if i < before.len() {
                assert(now[i] == before[i]);
            }
        }
    }
}

/// Every expansion is one of its template, with a number of three to seven digits
/// in place of `{n}`: thirteen of the first template, then thirteen of the next.
pub proof fn expansions_fill_their_templates(templates: Seq<Seq<char>>, m: nat, i: int)
    requires
        0 <= i < m,
    ensures
        is_filled(templates[i / 13], expansions(templates, m).0[i]),
    decreases m,
{
    expansions_are_complete(templates, m);
    expansions_are_complete(templates, (m - 1) as nat);
    let (before, s) = expansions(templates, (m - 1) as nat);
    if i < m - 1 {
        expansions_fill_their_templates(templates, (m - 1) as nat, i);
        assert(expansions(templates, m).0[i] == before[i]);
    } else {
        let t = next_state(s);
        lemma_digits_are_drawn(t, digit_count(t));
        let digits = drawn_digits(t, digit_count(t)).0;
        assert(expansions(templates, m).0[i] == normalized(
            replaced(templates[i / 13], "{n}"@, digits),
        ));
    }
}

} // verus!
