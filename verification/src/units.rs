//! Linguistic unit levels and text normalization.

use crate::frac::Frac;
use crate::text::{
    alphanumeric, ascii, ascii_letter, ascii_lower, ascii_text, chars_of, lemma_single_spaced,
    lowercase, same_text, single_spaced, split_words, spoken, string_of, texts, total_len,
    trim_range, trimmed, trimmed_end, trimmed_start, whitespace, words_are_words, words_of,
};
use vstd::prelude::*;
use vstd::string::*;

verus! {

/// Granularity of a cached audio primitive. The composer always tries the
/// highest available level first (phrase > word > morpheme > diphone).
#[derive(Debug, Clone, Copy, PartialEq, Eq, Hash, PartialOrd, Ord, Structural)]
pub enum UnitLevel {
    Phrase,
    Word,
    Morpheme,
    /// A phoneme-pair transition slice (mid-left-phoneme to mid-right), the
    /// classic concatenative-synthesis unit. Its text key is stress-stripped:
    /// "OW+W".
    Diphone,
    Phoneme,
}

/// The name of a level.
pub open spec fn level_name(level: UnitLevel) -> Seq<char> {
    match level {
        UnitLevel::Phrase => "phrase"@,
        UnitLevel::Word => "word"@,
        UnitLevel::Morpheme => "morpheme"@,
        UnitLevel::Diphone => "diphone"@,
        UnitLevel::Phoneme => "phoneme"@,
    }
}

/// Levels have different names.
pub proof fn level_names_differ(a: UnitLevel, b: UnitLevel)
    ensures
        level_name(a) == level_name(b) ==> a == b,
{
    reveal_strlit("phrase");
    reveal_strlit("word");
    reveal_strlit("morpheme");
    reveal_strlit("diphone");
    reveal_strlit("phoneme");
    if level_name(a) == level_name(b) {
        assert(level_name(a).len() == level_name(b).len());
        assert(level_name(a)[0] == level_name(b)[0]);
        assert(level_name(a)[2] == level_name(b)[2]);
    }
}

impl UnitLevel {
    /// The name of the level.
    pub fn as_str(&self) -> (r: &'static str)
        ensures
            r@ == level_name(*self),
    {
        match self {
            UnitLevel::Phrase => "phrase",
            UnitLevel::Word => "word",
            UnitLevel::Morpheme => "morpheme",
            UnitLevel::Diphone => "diphone",
            UnitLevel::Phoneme => "phoneme",
        }
    }

    /// The level with the name `s`.
    pub fn from_str(s: &str) -> (r: core::result::Result<UnitLevel, String>)
        ensures
            match r {
                Ok(level) => s@ == level_name(level),
                Err(m) => (forall|level: UnitLevel| s@ != #[trigger] level_name(level)) && m@
                    == "unknown unit level: "@ + s@,
            },
    {
        if same_text(s, "phrase") {
            Ok(UnitLevel::Phrase)
        } else if same_text(s, "word") {
            Ok(UnitLevel::Word)
        } else if same_text(s, "morpheme") {
            Ok(UnitLevel::Morpheme)
        } else if same_text(s, "diphone") {
            Ok(UnitLevel::Diphone)
        } else if same_text(s, "phoneme") {
            Ok(UnitLevel::Phoneme)
        } else {
            let mut m = "unknown unit level: ".to_owned();
            m.append(s);
            assert forall|level: UnitLevel| s@ != #[trigger] level_name(level) by {
                match level {
                    UnitLevel::Phrase => {},
                    UnitLevel::Word => {},
                    UnitLevel::Morpheme => {},
                    UnitLevel::Diphone => {},
                    UnitLevel::Phoneme => {},
                }
            }
            Err(m)
        }
    }
}

// ---- normalization ----

/// Whether normalization keeps character `i`: letters, digits, and apostrophes
/// between two of them.
pub open spec fn keeps(s: Seq<char>, i: int) -> bool {
    ||| alphanumeric(s[i])
    ||| s[i] == '\'' && 0 < i && i + 1 < s.len() && alphanumeric(s[i - 1]) && alphanumeric(s[i + 1])
}

/// The first `n` characters with every run of dropped ones behind a kept one
/// turned into one space.
pub open spec fn spaced(s: Seq<char>, n: nat) -> Seq<char>
    decreases n,
{
    if n == 0 {
        Seq::empty()
    } else if keeps(s, n - 1) {
        spaced(s, (n - 1) as nat).push(s[n - 1])
    } else if n >= 2 && keeps(s, n - 2) {
        spaced(s, (n - 1) as nat).push(' ')
    } else {
        spaced(s, (n - 1) as nat)
    }
}

/// The normal form of a text that is already lowercase.
pub open spec fn collapsed(s: Seq<char>) -> Seq<char> {
    trimmed(spaced(s, s.len()))
}

/// The normal form of a text.
pub open spec fn normalized(s: Seq<char>) -> Seq<char> {
    collapsed(lowercase(s))
}

/// The words of a text in normal form.
pub open spec fn tokens(s: Seq<char>) -> Seq<Seq<char>> {
    words_of(normalized(s))
}

/// Strips punctuation (keeping apostrophes inside words) and collapses white
/// space, in a text that is already lowercase.
pub fn collapse(chars: &Vec<char>) -> (r: String)
    ensures
        r@ == collapsed(chars@),
{
    let mut out: Vec<char> = Vec::new();
    let n: usize = chars.len();
    let mut gap = true;
    let mut i: usize = 0;
    while i < n
        invariant
            n == chars@.len(),
            i <= n,
            out@ == spaced(chars@, i as nat),
            gap == (i == 0 || !keeps(chars@, i - 1)),
        decreases n - i,
    {
        let c = chars[i];
        if c.is_alphanumeric() {
            out.push(c);
            gap = false;
        } else if c == '\'' && i > 0 && chars[i - 1].is_alphanumeric() && n - i > 1 && chars[i
            + 1].is_alphanumeric() {
            out.push(c);
        } else {
            if !gap {
                out.push(' ');
            }
            gap = true;
        }
        i += 1;
    }
    let r = trim_range(&out, 0, out.len());
    assert(out@.subrange(0, out@.len() as int) =~= out@);
    r
}

/// Lowercase, strip punctuation (keeping intra-word apostrophes), collapse
/// white space. All cache keys are normalized text.
pub fn normalize(text: &str) -> (r: String)
    ensures
        r@ == normalized(text@),
{
    let lower = text.to_lowercase();
    collapse(&chars_of(lower.as_str()))
}

/// Normalized word tokens.
pub fn tokenize(text: &str) -> (r: Vec<String>)
    ensures
        texts(r@) == tokens(text@),
        total_len(texts(r@)) + r@.len() <= usize::MAX + 1,
{
    let n = normalize(text);
    let chars = chars_of(n.as_str());
    let len: usize = chars.len();
    proof {
        words_are_words(n@);
    }
    split_words(n.as_str())
}

/// Whether a text is in the form that normalization gives: letters and digits,
/// apostrophes between two of them, and single spaces between words.
pub open spec fn in_normal_form(c: Seq<char>) -> bool {
    forall|j: int| 0 <= j < c.len() ==> #[trigger] settled(c, j)
}

/// How a character of a text in normal form stands.
pub open spec fn settled(c: Seq<char>, j: int) -> bool {
    ||| alphanumeric(c[j])
    ||| (c[j] == '\'' || c[j] == ' ') && 0 < j < c.len() - 1 && alphanumeric(c[j - 1])
        && alphanumeric(c[j + 1])
}

/// How a character of a spaced text stands: as in a normal form, where what may
/// come behind the last character is left open.
spec fn stands(t: Seq<char>, j: int) -> bool {
    ||| alphanumeric(t[j])
    ||| (t[j] == '\'' || t[j] == ' ') && 0 < j && alphanumeric(t[j - 1]) && (j + 1 < t.len()
        ==> alphanumeric(t[j + 1]))
}

proof fn lemma_spaced(l: Seq<char>, n: nat)
    requires
        n <= l.len(),
    ensures
        ({
            let t = spaced(l, n);
            &&& forall|j: int| 0 <= j < t.len() ==> #[trigger] stands(t, j)
            &&& forall|j: int| 0 <= j < t.len() ==> #[trigger] t[j] == ' ' || l.contains(t[j])
            &&& if n > 0 && keeps(l, n - 1) {
                t.len() > 0 && t.last() == l[n - 1]
            } else {
                t.len() == 0 || t.last() == ' '
            }
        }),
    decreases n,
{
    if n > 0 {
        lemma_spaced(l, (n - 1) as nat);
        let before = spaced(l, (n - 1) as nat);
        let t = spaced(l, n);
        assert forall|j: int| 0 <= j < t.len() implies #[trigger] stands(t, j) by {
            if j < before.len() {
                assert(stands(before, j));
            }
            if before.len() > 0 {
                assert(stands(before, before.len() - 1));
            }
        }
        assert forall|j: int| 0 <= j < t.len() implies #[trigger] t[j] == ' ' || l.contains(
            t[j],
        ) by {
            if j < before.len() {
                assert(t[j] == before[j]);
            } else if keeps(l, n - 1) {
                assert(t[j] == l[n - 1]);
            }
        }
    }
}

/// The first letter or digit of a text is kept.
proof fn lemma_spaced_keeps(l: Seq<char>, n: nat, i: int)
    requires
        0 <= i < n <= l.len(),
        alphanumeric(l[i]),
    ensures
        spaced(l, n).contains(l[i]),
    decreases n,
{
    let t = spaced(l, n);
    let before = spaced(l, (n - 1) as nat);
    if i == n - 1 {
        assert(t.last() == l[i]);
    } else {
        lemma_spaced_keeps(l, (n - 1) as nat, i);
        let j = choose|j: int| 0 <= j < before.len() && before[j] == l[i];
        assert(t[j] == l[i]);
    }
}

/// What trimming leaves of a spaced text.
proof fn lemma_collapsed(l: Seq<char>)
    ensures
        ({
            let t = spaced(l, l.len());
            let c = collapsed(l);
            &&& c == t || t.len() > 0 && t.last() == ' ' && c == t.drop_last()
            &&& in_normal_form(c)
            &&& forall|j: int| 0 <= j < c.len() ==> #[trigger] c[j] == ' ' || l.contains(c[j])
            &&& forall|i: int|
                0 <= i < l.len() && alphanumeric(#[trigger] l[i]) ==> c.contains(l[i])
        }),
{
    let t = spaced(l, l.len());
    let c = collapsed(l);
    lemma_spaced(l, l.len());
    if t.len() > 0 {
        assert(stands(t, 0));
        assert(trimmed_start(t) == t);
        assert(stands(t, t.len() - 1));
        if t.last() == ' ' {
            let u = t.drop_last();
            assert(alphanumeric(u.last()));
            assert(trimmed_end(t) == trimmed_end(u));
            assert(c == u);
        } else if alphanumeric(t.last()) {
            assert(c == t);
        } else {
            // An apostrophe is kept only in front of a letter or digit.
            assert(keeps(l, l.len() - 1));
            assert(false);
        }
    }
    assert forall|j: int| 0 <= j < c.len() implies #[trigger] settled(c, j) by {
        assert(stands(t, j));
        if j + 1 == c.len() && c.len() < t.len() {
            assert(stands(t, j + 1));
        }
        if j + 1 < t.len() {
            assert(stands(t, j + 1));
        }
    }
    assert forall|j: int| 0 <= j < c.len() implies #[trigger] c[j] == ' ' || l.contains(c[j]) by {
        assert(c[j] == t[j]);
    }
    assert forall|i: int| 0 <= i < l.len() && alphanumeric(#[trigger] l[i]) implies c.contains(
        l[i],
    ) by {
        lemma_spaced_keeps(l, l.len(), i);
        let j = choose|j: int| 0 <= j < t.len() && t[j] == l[i];
        assert(c[j] == l[i]);
    }
}

/// A normal form holds letters and digits, apostrophes between two of them, and
/// single spaces between words, and nothing else.
pub proof fn normal_forms_have_one_shape(s: Seq<char>)
    ensures
        in_normal_form(normalized(s)),
{
    lemma_collapsed(lowercase(s));
}

/// A text in normal form is its own collapsed form.
proof fn lemma_settled(c: Seq<char>, n: nat)
    requires
        n <= c.len(),
        in_normal_form(c),
    ensures
        spaced(c, n) == c.take(n as int),
    decreases n,
{
    if n > 0 {
        lemma_settled(c, (n - 1) as nat);
        assert(settled(c, n - 1));
        if n > 1 {
            assert(settled(c, n - 2));
        }
        assert(spaced(c, n) =~= c.take(n as int));
    } else {
        assert(spaced(c, n) =~= c.take(n as int));
    }
}

/// A text in normal form that lowercasing leaves alone is its own normal form.
pub proof fn normal_forms_are_kept(c: Seq<char>)
    requires
        in_normal_form(c),
        lowercase(c) == c,
    ensures
        normalized(c) == c,
{
    lemma_settled(c, c.len());
    assert(c.take(c.len() as int) =~= c);
    if c.len() > 0 {
        assert(settled(c, 0));
        assert(settled(c, c.len() - 1));
    }
}

/// Lowercasing leaves the normal form of an ASCII text alone.
pub proof fn normal_forms_of_ascii_are_lowercase(s: Seq<char>)
    requires
        ascii_text(s),
    ensures
        ascii_text(normalized(s)),
        lowercase(normalized(s)) == normalized(s),
{
    let l = lowercase(s);
    let c = normalized(s);
    lemma_collapsed(l);
    assert forall|j: int| 0 <= j < c.len() implies ascii(#[trigger] c[j]) && ascii_lower(c[j])
        == c[j] by {
        if c[j] != ' ' {
            let i = choose|i: int| 0 <= i < l.len() && l[i] == c[j];
            assert(ascii(s[i]));
            assert(l[i] == ascii_lower(s[i]));
        }
    }
    assert(lowercase(c) =~= c);
}

/// Normalizing a normal form changes nothing: of an ASCII text, and of every
/// text whose normal form lowercasing leaves alone.
pub proof fn normal_forms_are_stable(s: Seq<char>)
    requires
        ascii_text(s) || lowercase(normalized(s)) == normalized(s),
    ensures
        normalized(normalized(s)) == normalized(s),
{
    normal_forms_have_one_shape(s);
    if ascii_text(s) {
        normal_forms_of_ascii_are_lowercase(s);
    }
    normal_forms_are_kept(normalized(s));
}

/// The words of a text in normal form, one space apart, are the text.
pub proof fn normal_forms_are_their_words(c: Seq<char>)
    requires
        in_normal_form(c),
    ensures
        spoken(words_of(c)) == c,
        c.len() > 0 ==> words_of(c).len() > 0,
{
    assert(single_spaced(c)) by {
        assert forall|i: int| 0 <= i < c.len() && whitespace(#[trigger] c[i]) implies c[i] == ' '
            && 0 < i < c.len() - 1 && !whitespace(c[i - 1]) && !whitespace(c[i + 1]) by {
            assert(settled(c, i));
        }
    }
    lemma_single_spaced(c);
}

/// The tokens of a text, one space apart, are its normal form. None of them is
/// empty or holds white space, and there are none exactly where the lowercase
/// form of the text has neither letter nor digit.
pub proof fn tokens_spell_the_normal_form(s: Seq<char>)
    ensures
        spoken(tokens(s)) == normalized(s),
        forall|i: int| 0 <= i < tokens(s).len() ==> (#[trigger] tokens(s)[i]).len() > 0,
        forall|i: int, k: int|
            0 <= i < tokens(s).len() && 0 <= k < tokens(s)[i].len() ==> !whitespace(
                #[trigger] tokens(s)[i][k],
            ),
        tokens(s).len() == 0 <==> forall|i: int|
            0 <= i < lowercase(s).len() ==> !alphanumeric(#[trigger] lowercase(s)[i]),
{
    let l = lowercase(s);
    let c = normalized(s);
    lemma_collapsed(l);
    normal_forms_are_their_words(c);
    words_are_words(c);
    if tokens(s).len() == 0 {
        assert forall|i: int| 0 <= i < l.len() implies !alphanumeric(#[trigger] l[i]) by {
            if alphanumeric(l[i]) {
                assert(c.contains(l[i]));
            }
        }
    } else {
        assert(settled(c, 0));
        assert(c[0] != ' ');
        let i = choose|i: int| 0 <= i < l.len() && l[i] == c[0];
        assert(alphanumeric(l[i]));
    }
}

/// Tokens are not empty.
pub proof fn tokens_are_not_empty(s: Seq<char>)
    ensures
        forall|i: int| 0 <= i < tokens(s).len() ==> (#[trigger] tokens(s)[i]).len() > 0,
{
    words_are_words(normalized(s));
}

// ---- morphemes ----

/// A longer word that may contain a stem, and the part of its audio that
/// approximates the stem.
#[verifier::ext_equal]
pub struct CandidateView {
    pub word: Seq<char>,
    pub from: Frac,
    pub to: Frac,
}

/// A word that starts with `stem_len` characters of a stem.
pub open spec fn suffixed(word: Seq<char>, stem_len: nat) -> CandidateView {
    CandidateView {
        word,
        from: Frac { num: 0, den: 1 },
        to: Frac { num: stem_len as u64, den: word.len() as u64 },
    }
}

pub open spec fn ascii_vowel(c: char) -> bool {
    c == 'a' || c == 'e' || c == 'i' || c == 'o' || c == 'u'
}

/// Whether the last letter doubles before "ing": run, running.
pub open spec fn doubles(word: Seq<char>) -> bool {
    word.len() > 0 && ascii_letter(word.last()) && !ascii_vowel(word.last())
}

/// Whether a final "e" drops before "ing": make, making.
pub open spec fn drops_e(word: Seq<char>) -> bool {
    word.len() > 1 && word.last() == 'e'
}

/// Longer words that may contain `word` as a stem, in the order in which they
/// are tried.
pub open spec fn morphemes(word: Seq<char>) -> Seq<CandidateView> {
    let n = word.len();
    let regular = seq![
        suffixed(word + seq!['s'], n),
        suffixed(word + seq!['e', 's'], n),
        suffixed(word + seq!['e', 'd'], n),
        suffixed(word + seq!['d'], n),
        suffixed(word + seq!['i', 'n', 'g'], n),
    ];
    let doubled = if doubles(word) {
        seq![suffixed(word + seq![word.last(), 'i', 'n', 'g'], n)]
    } else {
        Seq::empty()
    };
    let dropped = if drops_e(word) {
        seq![suffixed(word.drop_last() + seq!['i', 'n', 'g'], n)]
    } else {
        Seq::empty()
    };
    let un = seq!['u', 'n'] + word;
    let prefixed = CandidateView {
        word: un,
        from: Frac { num: 2, den: un.len() as u64 },
        to: Frac { num: 1, den: 1 },
    };
    (regular + doubled + dropped).push(prefixed)
}

/// A candidate for morpheme fallback: the word, and where the stem's audio
/// starts and ends in it.
pub struct Candidate {
    pub word: String,
    pub from: Frac,
    pub to: Frac,
}

impl View for Candidate {
    type V = CandidateView;

    open spec fn view(&self) -> CandidateView {
        CandidateView { word: self.word@, from: self.from, to: self.to }
    }
}

/// The values of a sequence of candidates.
pub open spec fn candidates(v: Seq<Candidate>) -> Seq<CandidateView> {
    Seq::new(v.len(), |i: int| v[i]@)
}

/// The first `keep` characters of `word` followed by up to four more.
fn form(word: &Vec<char>, keep: usize, tail: &Vec<char>) -> (r: Vec<char>)
    requires
        keep <= word@.len(),
    ensures
        r@ == word@.take(keep as int) + tail@,
{
    let mut out: Vec<char> = Vec::new();
    let mut i: usize = 0;
    while i < keep
        invariant
            i <= keep <= word@.len(),
            out@ == word@.take(i as int),
        decreases keep - i,
    {
        out.push(word[i]);
        i += 1;
        assert(out@ =~= word@.take(i as int));
    }
    let mut j: usize = 0;
    assert(out@ =~= word@.take(keep as int) + tail@.take(0));
    while j < tail.len()
        invariant
            j <= tail@.len(),
            out@ == word@.take(keep as int) + tail@.take(j as int),
        decreases tail@.len() - j,
    {
        out.push(tail[j]);
        j += 1;
        assert(out@ =~= word@.take(keep as int) + tail@.take(j as int));
    }
    assert(tail@.take(j as int) =~= tail@);
    out
}

/// The candidate `word` with its tail replaced.
fn with_tail(word: &Vec<char>, keep: usize, tail: Vec<char>) -> (r: Candidate)
    requires
        keep <= word@.len(),
    ensures
        r@ == suffixed(word@.take(keep as int) + tail@, word@.len()),
{
    let chars = form(word, keep, &tail);
    let stem: usize = word.len();
    let len: usize = chars.len();
    Candidate {
        word: string_of(&chars),
        from: Frac { num: 0, den: 1 },
        to: Frac { num: stem as u64, den: len as u64 },
    }
}

/// Candidates for morpheme fallback: longer cached words that may contain
/// `word` as a stem. The stem's place inside a candidate is estimated by the
/// proportion of characters.
pub fn morpheme_candidates(word: &str) -> (r: Vec<Candidate>)
    ensures
        candidates(r@) == morphemes(word@),
{
    let w = chars_of(word);
    let n: usize = w.len();
    let ghost s = word@;
    let mut out: Vec<Candidate> = Vec::new();
    assert(s.take(n as int) =~= s);
    let tail: Vec<char> = vec!['s'];
    assert(tail@ =~= seq!['s']);
    out.push(with_tail(&w, n, tail));
    let tail: Vec<char> = vec!['e', 's'];
    assert(tail@ =~= seq!['e', 's']);
    out.push(with_tail(&w, n, tail));
    let tail: Vec<char> = vec!['e', 'd'];
    assert(tail@ =~= seq!['e', 'd']);
    out.push(with_tail(&w, n, tail));
    let tail: Vec<char> = vec!['d'];
    assert(tail@ =~= seq!['d']);
    out.push(with_tail(&w, n, tail));
    let tail: Vec<char> = vec!['i', 'n', 'g'];
    assert(tail@ =~= seq!['i', 'n', 'g']);
    out.push(with_tail(&w, n, tail));
    let ghost regular = seq![
        suffixed(s + seq!['s'], s.len()),
        suffixed(s + seq!['e', 's'], s.len()),
        suffixed(s + seq!['e', 'd'], s.len()),
        suffixed(s + seq!['d'], s.len()),
        suffixed(s + seq!['i', 'n', 'g'], s.len()),
    ];
    assert(candidates(out@) =~= regular);
    let ghost mut so_far = regular;
    if n > 0 {
        let last = w[n - 1];
        let letter = ('a' <= last && last <= 'z') || ('A' <= last && last <= 'Z');
        let vowel = last == 'a' || last == 'e' || last == 'i' || last == 'o' || last == 'u';
        if letter && !vowel {
            let tail: Vec<char> = vec![last, 'i', 'n', 'g'];
            assert(tail@ =~= seq![s.last(), 'i', 'n', 'g']);
            out.push(with_tail(&w, n, tail));
            proof {
                so_far = so_far + seq![suffixed(s + seq![s.last(), 'i', 'n', 'g'], s.len())];
                assert(candidates(out@) =~= so_far);
            }
        }
        if last == 'e' && n > 1 {
            let tail: Vec<char> = vec!['i', 'n', 'g'];
            assert(tail@ =~= seq!['i', 'n', 'g']);
            out.push(with_tail(&w, n - 1, tail));
            proof {
                assert(s.take(n - 1) =~= s.drop_last());
                so_far = so_far + seq![suffixed(s.drop_last() + seq!['i', 'n', 'g'], s.len())];
                assert(candidates(out@) =~= so_far);
            }
        }
    }
    let prefix: Vec<char> = vec!['u', 'n'];
    let un = form(&prefix, 2, &w);
    let len: usize = un.len();
    out.push(
        Candidate {
            word: string_of(&un),
            from: Frac { num: 2, den: len as u64 },
            to: Frac { num: 1, den: 1 },
        },
    );
    proof {
        assert(un@ =~= seq!['u', 'n'] + s);
        assert(candidates(out@) =~= morphemes(s));
    }
    out
}

// ---- what normal forms keep ----

/// The letters and digits of a text.
pub open spec fn letters(s: Seq<char>) -> Seq<char>
    decreases s.len(),
{
    if s.len() == 0 {
        Seq::empty()
    } else if alphanumeric(s.last()) {
        letters(s.drop_last()).push(s.last())
    } else {
        letters(s.drop_last())
    }
}

proof fn lemma_letters_pushed(s: Seq<char>, c: char)
    ensures
        letters(s.push(c)) == (if alphanumeric(c) {
            letters(s).push(c)
        } else {
            letters(s)
        }),
{
    assert(s.push(c).drop_last() =~= s);
}

proof fn lemma_letters_spaced(l: Seq<char>, n: nat)
    requires
        n <= l.len(),
    ensures
        letters(spaced(l, n)) == letters(l.take(n as int)),
    decreases n,
{
    if n > 0 {
        lemma_letters_spaced(l, (n - 1) as nat);
        let before = spaced(l, (n - 1) as nat);
        assert(l.take(n as int).drop_last() =~= l.take(n - 1));
        assert(l.take(n as int).last() == l[n - 1]);
        lemma_letters_pushed(before, l[n - 1]);
        lemma_letters_pushed(before, ' ');
    }
}

/// Normalization keeps every letter and digit, in lowercase and in order.
pub proof fn letters_and_digits_are_kept(s: Seq<char>)
    ensures
        letters(normalized(s)) == letters(lowercase(s)),
{
    let l = lowercase(s);
    let t = spaced(l, l.len());
    lemma_letters_spaced(l, l.len());
    assert(l.take(l.len() as int) =~= l);
    lemma_collapsed(l);
}

proof fn lemma_spaced_front(a: Seq<char>, rest: Seq<char>, n: nat)
    requires
        n <= a.len(),
        in_normal_form(a),
    ensures
        spaced(a + rest, n) == a.take(n as int),
    decreases n,
{
    let l = a + rest;
    if n > 0 {
        lemma_spaced_front(a, rest, (n - 1) as nat);
        assert(settled(a, n - 1));
        assert(l[n - 1] == a[n - 1]);
        if n >= 2 {
            assert(settled(a, n - 2));
            assert(l[n - 2] == a[n - 2]);
        }
        if n < a.len() {
            assert(l[n as int] == a[n as int]);
        }
        assert(a.take(n as int) =~= a.take(n - 1).push(a[n - 1]));
    }
}

proof fn lemma_spaced_gap(a: Seq<char>, p: Seq<char>, b: Seq<char>, n: nat)
    requires
        0 < a.len(),
        in_normal_form(a),
        0 < n <= p.len(),
        forall|i: int| 0 <= i < p.len() ==> !alphanumeric(#[trigger] p[i]),
        p.len() == 1 ==> p[0] != '\'',
    ensures
        spaced(a + p + b, a.len() + n) == a.push(' '),
    decreases n,
{
    let l = a + p + b;
    let k = (a.len() + n) as int;
    assert(settled(a, a.len() - 1));
    assert(l[a.len() - 1] == a[a.len() - 1]);
    assert(l[k - 1] == p[n - 1]);
    assert(!keeps(l, k - 1)) by {
        if n >= 2 {
            assert(l[k - 2] == p[n - 2]);
        }
        if n < p.len() {
            assert(l[k] == p[n as int]);
        }
    }
    if n == 1 {
        lemma_spaced_front(a, p + b, a.len());
        assert(a + (p + b) =~= l);
        assert(a.take(a.len() as int) =~= a);
        assert(keeps(l, k - 2));
    } else {
        lemma_spaced_gap(a, p, b, (n - 1) as nat);
        assert(!keeps(l, k - 2)) by {
            assert(l[k - 2] == p[n - 2]);
            assert(l[k - 1] == p[n - 1]);
        }
    }
}

proof fn lemma_spaced_behind(a: Seq<char>, p: Seq<char>, b: Seq<char>, n: nat)
    requires
        0 < a.len(),
        in_normal_form(a),
        in_normal_form(b),
        0 < p.len(),
        n <= b.len(),
        forall|i: int| 0 <= i < p.len() ==> !alphanumeric(#[trigger] p[i]),
        p.len() == 1 ==> p[0] != '\'',
    ensures
        spaced(a + p + b, a.len() + p.len() + n) == a.push(' ') + b.take(n as int),
    decreases n,
{
    let l = a + p + b;
    let m = (a.len() + p.len()) as int;
    if n == 0 {
        lemma_spaced_gap(a, p, b, p.len());
        assert(b.take(0) =~= Seq::<char>::empty());
        assert(a.push(' ') + b.take(0) =~= a.push(' '));
    } else {
        lemma_spaced_behind(a, p, b, (n - 1) as nat);
        assert(settled(b, n - 1));
        assert(l[m + n - 1] == b[n - 1]);
        if n >= 2 {
            assert(l[m + n - 2] == b[n - 2]);
            assert(settled(b, n - 2));
        }
        if n < b.len() {
            assert(l[m + n] == b[n as int]);
            assert(settled(b, n as int));
        }
        if b[n - 1] == ' ' {
            assert(!keeps(l, m + n - 1));
            assert(keeps(l, m + n - 2));
        } else {
            assert(keeps(l, m + n - 1));
        }
        assert(a.push(' ') + b.take(n as int) =~= (a.push(' ') + b.take(n - 1)).push(b[n - 1]));
    }
}

/// Whatever stands between two words, but for an apostrophe alone, is one space
/// in the normal form.
pub proof fn punctuation_parts_words(a: Seq<char>, p: Seq<char>, b: Seq<char>)
    requires
        0 < a.len(),
        0 < b.len(),
        in_normal_form(a),
        in_normal_form(b),
        0 < p.len(),
        forall|i: int| 0 <= i < p.len() ==> !alphanumeric(#[trigger] p[i]),
        p.len() == 1 ==> p[0] != '\'',
        lowercase(a + p + b) == a + p + b,
    ensures
        normalized(a + p + b) == a + seq![' '] + b,
{
    let l = a + p + b;
    lemma_spaced_behind(a, p, b, b.len());
    assert(b.take(b.len() as int) =~= b);
    let t = a + seq![' '] + b;
    assert(spaced(l, l.len()) =~= t);
    assert(settled(a, 0) && settled(b, b.len() - 1));
    assert(t[0] == a[0] && t.last() == b[b.len() - 1]);
    assert(trimmed(t) == t);
}

/// White space and punctuation around a word are dropped.
pub proof fn punctuation_around_words_is_dropped(p: Seq<char>)
    requires
        forall|i: int| 0 <= i < p.len() ==> !alphanumeric(#[trigger] p[i]),
        lowercase(p) == p,
    ensures
        normalized(p).len() == 0,
{
    lemma_nothing_spaced(p, p.len());
}

proof fn lemma_nothing_spaced(p: Seq<char>, n: nat)
    requires
        n <= p.len(),
        forall|i: int| 0 <= i < p.len() ==> !alphanumeric(#[trigger] p[i]),
    ensures
        spaced(p, n).len() == 0,
    decreases n,
{
    if n > 0 {
        lemma_nothing_spaced(p, (n - 1) as nat);
        assert(!alphanumeric(p[n - 1]));
        if n >= 2 {
            assert(!alphanumeric(p[n - 2]));
        }
    }
}

/// Where a candidate is heard as a stem: the part of its characters that is taken.
pub open spec fn taken_part(c: CandidateView, a: int, b: int) -> bool {
    &&& 0 <= a <= b <= c.word.len()
    &&& a * c.from.den == c.from.num * c.word.len()
    &&& b * c.to.den == c.to.num * c.word.len()
}

/// A candidate spells its stem where it is taken from: all of it, or all but a
/// final `e` that gave way to the ending.
pub proof fn candidates_spell_their_stem(word: Seq<char>, i: int) -> (r: (int, int))
    requires
        0 < word.len() < 0x1_0000_0000,
        0 <= i < morphemes(word).len(),
    ensures
        taken_part(morphemes(word)[i], r.0, r.1),
        r.1 - r.0 == word.len(),
        ({
            let part = morphemes(word)[i].word.subrange(r.0, r.1);
            part == word || drops_e(word) && part.drop_last() == word.drop_last()
        }),
{
    let c = morphemes(word)[i];
    let n = word.len() as int;
    let un = seq!['u', 'n'] + word;
    let r: (int, int) = if i == morphemes(word).len() - 1 {
        (2, n + 2)
    } else {
        (0, n)
    };
    if i == morphemes(word).len() - 1 {
        assert(c.word == un);
        assert(un.subrange(2, n + 2) =~= word);
        assert(r.0 * c.from.den == c.from.num * c.word.len());
        assert(r.1 * c.to.den == c.to.num * c.word.len()) by (nonlinear_arith)
            requires
                r.1 == n + 2,
                c.to.den == 1,
                c.to.num == 1,
                c.word.len() == n + 2,
        ;
    } else {
        assert(c.from.num == 0 && c.to.num == n && c.to.den == c.word.len());
        assert(0 * c.from.den == 0 && 0 * c.word.len() == 0);
        assert(c.word.len() >= n);
        if c.word.take(n) == word {
            assert(c.word.subrange(0, n) =~= word);
        } else {
            let part = c.word.subrange(0, n);
            if drops_e(word) && c.word == word.drop_last() + seq!['i', 'n', 'g'] {
                assert(part.drop_last() =~= word.drop_last());
            } else {
                assert(c.word.take(n) =~= word);
            }
        }
    }
    r
}

/// The endings of a word are tried from the plainest on, its opposite last.
pub proof fn inflections_are_candidates(word: Seq<char>)
    ensures
        morphemes(word)[0].word == word + seq!['s'],
        morphemes(word)[1].word == word + seq!['e', 's'],
        morphemes(word)[2].word == word + seq!['e', 'd'],
        morphemes(word)[3].word == word + seq!['d'],
        morphemes(word)[4].word == word + seq!['i', 'n', 'g'],
        doubles(word) ==> morphemes(word)[5].word == word + seq![word.last(), 'i', 'n', 'g'],
        drops_e(word) ==> morphemes(word)[morphemes(word).len() - 2].word == word.drop_last()
            + seq!['i', 'n', 'g'],
        morphemes(word).last().word == seq!['u', 'n'] + word,
{
}

} // verus!
