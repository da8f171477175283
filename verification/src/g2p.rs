//! Grapheme-to-phoneme via a pronouncing dictionary (ARPAbet), with
//! deterministic fallbacks for words it does not hold.
//!
//! Fallback order per word: dictionary lookup, then character by character:
//! digits by their names ("42" -> "four" "two"), anything else by the entry of
//! the single character ("x" -> "EH1 K S"). A word of which nothing resolves
//! has no phonemes.

use crate::features::{fnv, fnv_of};
use crate::text::{
    chars_of, has_char, has_prefix, lines_of, same_text, split_chars, split_lines, starts_with,
    string_of, texts, words_of,
};
use vstd::prelude::*;
use vstd::string::*;
use vstd::utf8::encode_utf8;

verus! {

/// Buckets of the dictionary.
const BUCKETS: usize = 4096;

/// The entry that a dictionary line defines: `word PH1 PH2 ...`. Comments
/// (`;;;`), lines without phonemes, and alternate pronunciations (`word(2)`)
/// define none.
pub open spec fn definition(line: Seq<char>) -> Option<(Seq<char>, Seq<Seq<char>>)> {
    let ws = words_of(line);
    if starts_with(line, ";;;"@) || ws.len() < 2 || ws[0].contains('(') {
        None
    } else {
        Some((ws[0], ws.skip(1)))
    }
}

/// The entries of a dictionary file. The last line for a word wins.
pub open spec fn dictionary(lines: Seq<Seq<char>>) -> Map<Seq<char>, Seq<Seq<char>>>
    decreases lines.len(),
{
    if lines.len() == 0 {
        Map::empty()
    } else {
        match definition(lines.last()) {
            None => dictionary(lines.drop_last()),
            Some((word, phonemes)) => dictionary(lines.drop_last()).insert(word, phonemes),
        }
    }
}

/// One word and its phonemes.
struct Entry {
    word: String,
    phonemes: Vec<String>,
}

/// The position of the first entry for `w`, or the length.
spec fn place(b: Seq<Entry>, w: Seq<char>) -> nat
    decreases b.len(),
{
    if b.len() == 0 || b[0].word@ == w {
        0
    } else {
        1 + place(b.skip(1), w)
    }
}

proof fn lemma_place(b: Seq<Entry>, w: Seq<char>)
    ensures
        place(b, w) <= b.len(),
        forall|i: int| 0 <= i < place(b, w) ==> (#[trigger] b[i]).word@ != w,
        place(b, w) < b.len() ==> b[place(b, w) as int].word@ == w,
    decreases b.len(),
{
    if b.len() > 0 && b[0].word@ != w {
        let t = b.skip(1);
        lemma_place(t, w);
        assert forall|i: int| 0 <= i < place(b, w) implies (#[trigger] b[i]).word@ != w by {
            if i > 0 {
                assert(b[i] == t[i - 1]);
            }
        }
        if place(b, w) < b.len() {
            assert(b[place(b, w) as int] == t[place(t, w) as int]);
        }
    }
}

/// The first position is the only one with its properties.
proof fn lemma_place_unique(b: Seq<Entry>, w: Seq<char>, k: nat)
    requires
        k <= b.len(),
        forall|i: int| 0 <= i < k ==> (#[trigger] b[i]).word@ != w,
        k < b.len() ==> b[k as int].word@ == w,
    ensures
        place(b, w) == k,
{
    lemma_place(b, w);
    if place(b, w) < k {
        assert(b[place(b, w) as int].word@ != w);
    } else if k < place(b, w) {
        assert(b[k as int].word@ != w);
    }
}

/// What a bucket holds for `w`.
spec fn found(b: Seq<Entry>, w: Seq<char>) -> Option<Seq<Seq<char>>> {
    let k = place(b, w) as int;
    if k < b.len() {
        Some(texts(b[k].phonemes@))
    } else {
        None
    }
}

/// The bucket that a word belongs to.
spec fn slot_of(w: Seq<char>) -> int {
    fnv_of(encode_utf8(w)) as int % 4096
}

/// What a map holds for `w`.
spec fn held(m: Map<Seq<char>, Seq<Seq<char>>>, w: Seq<char>) -> Option<Seq<Seq<char>>> {
    if m.contains_key(w) {
        Some(m[w])
    } else {
        None
    }
}

/// The buckets hold exactly what the map holds.
spec fn represents(buckets: Seq<Vec<Entry>>, m: Map<Seq<char>, Seq<Seq<char>>>) -> bool {
    &&& buckets.len() == 4096
    &&& forall|w: Seq<char>|
        found(buckets[slot_of(w)]@, w) == #[trigger] held(m, w)
}

/// A pronouncing dictionary.
pub struct G2p {
    buckets: Vec<Vec<Entry>>,
    count: usize,
    model: Ghost<Map<Seq<char>, Seq<Seq<char>>>>,
}

impl View for G2p {
    type V = Map<Seq<char>, Seq<Seq<char>>>;

    closed spec fn view(&self) -> Map<Seq<char>, Seq<Seq<char>>> {
        self.model@
    }
}

/// The position of the first entry for `w`.
fn position(b: &Vec<Entry>, w: &str) -> (r: usize)
    ensures
        r == place(b@, w@),
        r <= b@.len(),
{
    let mut i: usize = 0;
    while i < b.len() && !same_text(b[i].word.as_str(), w)
        invariant
            i <= b@.len(),
            forall|k: int| 0 <= k < i ==> (#[trigger] b@[k]).word@ != w@,
        decreases b@.len() - i,
    {
        i += 1;
    }
    proof {
        lemma_place_unique(b@, w@, i as nat);
    }
    i
}

fn slot(w: &str) -> (r: usize)
    ensures
        r == slot_of(w@),
        r < 4096,
{
    (fnv(w) % 4096) as usize
}

/// Putting an entry in place of one for the same word, or behind all others,
/// changes what is held for that word alone.
proof fn lemma_put(b: Seq<Entry>, e: Entry, after: Seq<Entry>)
    requires
        ({
            let k = place(b, e.word@) as int;
            after == (if k < b.len() {
                b.update(k, e)
            } else {
                b.push(e)
            })
        }),
    ensures
        found(after, e.word@) == Some(texts(e.phonemes@)),
        forall|w: Seq<char>| w != e.word@ ==> #[trigger] found(after, w) == found(b, w),
{
    let k = place(b, e.word@) as int;
    lemma_place(b, e.word@);
    assert forall|i: int| 0 <= i < k implies (#[trigger] after[i]).word@ != e.word@ by {
        assert(after[i] == b[i]);
    }
    lemma_place_unique(after, e.word@, k as nat);
    assert forall|w: Seq<char>| w != e.word@ implies #[trigger] found(after, w) == found(b, w) by {
        lemma_place(b, w);
        let j = place(b, w) as int;
        assert forall|i: int| 0 <= i < j implies (#[trigger] after[i]).word@ != w by {
            if i < b.len() && i != k {
                assert(after[i] == b[i]);
            }
        }
        if j < b.len() {
            assert(j != k);
            assert(after[j] == b[j]);
            lemma_place_unique(after, w, j as nat);
        } else {
            assert forall|i: int| 0 <= i < after.len() implies (#[trigger] after[i]).word@ != w by {
                if i < b.len() && i != k {
                    assert(after[i] == b[i]);
                }
            }
            lemma_place_unique(after, w, after.len());
        }
    }
}

/// Copies the strings `from..` of a vector.
fn copy_from(v: &Vec<String>, from: usize) -> (r: Vec<String>)
    requires
        from <= v@.len(),
    ensures
        texts(r@) == texts(v@).skip(from as int),
{
    let mut out: Vec<String> = Vec::new();
    let mut i: usize = from;
    while i < v.len()
        invariant
            from <= i <= v@.len(),
            out@.len() == i - from,
            forall|k: int| 0 <= k < i - from ==> (#[trigger] out@[k])@ == v@[from + k]@,
        decreases v@.len() - i,
    {
        out.push(v[i].clone());
        i += 1;
    }
    assert(texts(out@) =~= texts(v@).skip(from as int));
    out
}

/// Reads one dictionary line.
fn read_line(line: &str) -> (r: Option<Entry>)
    ensures
        match r {
            None => definition(line@) is None,
            Some(e) => definition(line@) == Some((e.word@, texts(e.phonemes@))),
        },
{
    let chars = chars_of(line);
    if has_prefix(&chars, ";;;") {
        return None;
    }
    let parts = split_chars(&chars);
    if parts.len() < 2 {
        return None;
    }
    if has_char(&chars_of(parts[0].as_str()), '(') {
        return None;
    }
    let phonemes = copy_from(&parts, 1);
    assert(words_of(line@)[0] == parts@[0]@);
    Some(Entry { word: parts[0].clone(), phonemes })
}

/// The name of a digit.
pub open spec fn digit_name(c: char) -> Seq<char> {
    if c == '0' {
        "zero"@
    } else if c == '1' {
        "one"@
    } else if c == '2' {
        "two"@
    } else if c == '3' {
        "three"@
    } else if c == '4' {
        "four"@
    } else if c == '5' {
        "five"@
    } else if c == '6' {
        "six"@
    } else if c == '7' {
        "seven"@
    } else if c == '8' {
        "eight"@
    } else {
        "nine"@
    }
}

fn digit_word(c: char) -> (r: &'static str)
    ensures
        r@ == digit_name(c),
{
    if c == '0' {
        "zero"
    } else if c == '1' {
        "one"
    } else if c == '2' {
        "two"
    } else if c == '3' {
        "three"
    } else if c == '4' {
        "four"
    } else if c == '5' {
        "five"
    } else if c == '6' {
        "six"
    } else if c == '7' {
        "seven"
    } else if c == '8' {
        "eight"
    } else {
        "nine"
    }
}

/// The word that stands for a single character.
pub open spec fn char_key(c: char) -> Seq<char> {
    if '0' <= c <= '9' {
        digit_name(c)
    } else {
        seq![c]
    }
}

/// The phonemes of a word read character by character. Characters without an
/// entry are silent.
pub open spec fn spelled(m: Map<Seq<char>, Seq<Seq<char>>>, word: Seq<char>) -> Seq<Seq<char>>
    decreases word.len(),
{
    if word.len() == 0 {
        Seq::empty()
    } else {
        let key = char_key(word.last());
        if m.contains_key(key) {
            spelled(m, word.drop_last()) + m[key]
        } else {
            spelled(m, word.drop_last())
        }
    }
}

/// The phonemes of a word: its entry, or its characters one by one. None where
/// nothing resolves at all.
pub open spec fn pronunciation(m: Map<Seq<char>, Seq<Seq<char>>>, word: Seq<char>) -> Option<
    Seq<Seq<char>>,
> {
    if m.contains_key(word) {
        Some(m[word])
    } else if spelled(m, word).len() == 0 {
        None
    } else {
        Some(spelled(m, word))
    }
}

/// The texts of an optional list of strings.
pub open spec fn opt_texts(v: Option<Vec<String>>) -> Option<Seq<Seq<char>>> {
    match v {
        Some(v) => Some(texts(v@)),
        None => None,
    }
}

pub open spec fn stress_mark(c: char) -> bool {
    c == '0' || c == '1' || c == '2'
}

/// A phoneme without the stress digits it ends with.
pub open spec fn base_of(phoneme: Seq<char>) -> Seq<char>
    decreases phoneme.len(),
{
    if phoneme.len() > 0 && stress_mark(phoneme.last()) {
        base_of(phoneme.drop_last())
    } else {
        phoneme
    }
}

impl G2p {
    #[verifier::type_invariant]
    spec fn inv(self) -> bool {
        &&& represents(self.buckets@, self.model@)
        &&& self.model@.dom().finite()
        &&& self.count == self.model@.dom().len()
    }

    /// Parses a dictionary file (`word PH1 PH2 ...` per line, `;;;` comments,
    /// alternate pronunciations skipped).
    pub fn from_str(text: &str) -> (r: G2p)
        ensures
            r@ == dictionary(lines_of(text@)),
    {
        let lines = split_lines(text);
        let ghost all = texts(lines@);
        let mut buckets: Vec<Vec<Entry>> = Vec::new();
        let mut b: usize = 0;
        while b < BUCKETS
            invariant
                b <= 4096,
                buckets@.len() == b,
                forall|k: int| 0 <= k < b ==> (#[trigger] buckets@[k])@.len() == 0,
            decreases 4096 - b,
        {
            buckets.push(Vec::new());
            b += 1;
        }
        let ghost mut model: Map<Seq<char>, Seq<Seq<char>>> = Map::empty();
        let mut count: usize = 0;
        let mut i: usize = 0;
        assert(all.take(0) =~= Seq::<Seq<char>>::empty());
        assert forall|w: Seq<char>| found(buckets@[slot_of(w)]@, w) == #[trigger] held(model, w) by {
            assert(buckets@[slot_of(w)]@.len() == 0);
        }
        while i < lines.len()
            invariant
                all == texts(lines@),
                i <= lines@.len(),
                model == dictionary(all.take(i as int)),
                model.dom().finite(),
                count == model.dom().len(),
                count <= i,
                represents(buckets@, model),
            decreases lines@.len() - i,
        {
            proof {
                assert(all.take(i + 1).drop_last() =~= all.take(i as int));
                assert(all.take(i + 1).last() == lines@[i as int]@);
            }
            match read_line(lines[i].as_str()) {
                None => {},
                Some(e) => {
                    let s: usize = slot(e.word.as_str());
                    let k: usize = position(&buckets[s], e.word.as_str());
                    let ghost old_buckets = buckets@;
                    let ghost old_model = model;
                    let ghost word = e.word@;
                    let ghost phonemes = texts(e.phonemes@);
                    let ghost entry = e;
                    proof {
                        lemma_place(old_buckets[s as int]@, word);
                        assert(found(old_buckets[slot_of(word)]@, word) == held(old_model, word));
                        model = model.insert(word, phonemes);
                    }
                    if k < buckets[s].len() {
                        buckets[s][k] = e;
                    } else {
                        buckets[s].push(e);
                        count += 1;
                    }
                    proof {
                        lemma_put(old_buckets[s as int]@, entry, buckets@[s as int]@);
                        assert forall|w: Seq<char>| found(buckets@[slot_of(w)]@, w)
                            == #[trigger] held(model, w) by {
                            assert(found(old_buckets[slot_of(w)]@, w) == held(old_model, w));
                            if slot_of(w) != s {
                                assert(buckets@[slot_of(w)] == old_buckets[slot_of(w)]);
                            }
                        }
                        if !old_model.contains_key(word) {
                            assert(model.dom() =~= old_model.dom().insert(word));
                        } else {
                            assert(model.dom() =~= old_model.dom());
                        }
                    }
                },
            }
            i += 1;
        }
        assert(all.take(i as int) =~= all);
        G2p { buckets, count, model: Ghost(model) }
    }

    /// Parses a dictionary file.
    pub fn parse(text: &str) -> (r: G2p)
        ensures
            r@ == dictionary(lines_of(text@)),
    {
        G2p::from_str(text)
    }

    /// How many words the dictionary holds.
    pub fn len(&self) -> (r: usize)
        ensures
            r == self@.dom().len(),
    {
        proof {
            use_type_invariant(self);
        }
        self.count
    }

    /// Whether the dictionary has no entry.
    pub fn is_empty(&self) -> (r: bool)
        ensures
            r == (self@.dom().len() == 0),
    {
        proof {
            use_type_invariant(self);
        }
        self.count == 0
    }

    /// ARPAbet phonemes for a normalized (lowercase) word.
    pub fn lookup(&self, word: &str) -> (r: Option<&[String]>)
        ensures
            match r {
                Some(p) => self@.contains_key(word@) && texts(p@) == self@[word@],
                None => !self@.contains_key(word@),
            },
    {
        proof {
            use_type_invariant(self);
            assert(found(self.buckets@[slot_of(word@)]@, word@) == held(self.model@, word@));
        }
        let s: usize = slot(word);
        let k: usize = position(&self.buckets[s], word);
        if k < self.buckets[s].len() {
            Some(self.buckets[s][k].phonemes.as_slice())
        } else {
            None
        }
    }

    /// Dictionary-first lookup with deterministic fallbacks. None only where
    /// nothing resolves at all.
    pub fn phonemes(&self, word: &str) -> (r: Option<Vec<String>>)
        ensures
            opt_texts(r) == pronunciation(self@, word@),
    {
        if let Some(p) = self.lookup(word) {
            let mut out: Vec<String> = Vec::new();
            extend_texts(&mut out, p);
            assert(texts(out@) =~= self@[word@]);
            return Some(out);
        }
        let chars = chars_of(word);
        let mut out: Vec<String> = Vec::new();
        let mut i: usize = 0;
        assert(texts(out@) =~= spelled(self@, word@.take(0)));
        while i < chars.len()
            invariant
                chars@ == word@,
                i <= chars@.len(),
                texts(out@) == spelled(self@, word@.take(i as int)),
            decreases chars@.len() - i,
        {
            let c = chars[i];
            proof {
                assert(word@.take(i + 1).drop_last() =~= word@.take(i as int));
                assert(word@.take(i + 1).last() == c);
            }
            let piece = if '0' <= c && c <= '9' {
                self.lookup(digit_word(c))
            } else {
                let single: Vec<char> = vec![c];
                let key = string_of(&single);
                assert(key@ =~= seq![c]);
                self.lookup(key.as_str())
            };
            if let Some(p) = piece {
                extend_texts(&mut out, p);
            }
            i += 1;
        }
        assert(word@.take(i as int) =~= word@);
        if out.len() == 0 {
            None
        } else {
            Some(out)
        }
    }

    /// Strips the stress digit from a vowel phoneme ("AH0" -> "AH").
    pub fn base(phoneme: &str) -> (r: &str)
        ensures
            r@ == base_of(phoneme@),
    {
        let chars = chars_of(phoneme);
        let mut n: usize = chars.len();
        assert(phoneme@.take(n as int) =~= phoneme@);
        while n > 0 && (chars[n - 1] == '0' || chars[n - 1] == '1' || chars[n - 1] == '2')
            invariant
                chars@ == phoneme@,
                n <= chars@.len(),
                base_of(phoneme@.take(n as int)) == base_of(phoneme@),
            decreases n,
        {
            assert(phoneme@.take(n as int).last() == chars@[n - 1]);
            assert(phoneme@.take(n as int).drop_last() =~= phoneme@.take(n - 1));
            n -= 1;
        }
        proof {
            if n > 0 {
                assert(phoneme@.take(n as int).last() == chars@[n - 1]);
            }
            assert(phoneme@.subrange(0, n as int) =~= phoneme@.take(n as int));
        }
        phoneme.substring_char(0, n)
    }
}

/// Appends copies of strings.
pub fn extend_texts(out: &mut Vec<String>, more: &[String])
    ensures
        texts(final(out)@) == texts(old(out)@) + texts(more@),
{
    let mut i: usize = 0;
    assert(texts(out@) =~= texts(old(out)@) + texts(more@).take(0));
    while i < more.len()
        invariant
            i <= more@.len(),
            texts(out@) == texts(old(out)@) + texts(more@).take(i as int),
        decreases more@.len() - i,
    {
        let ghost before = out@;
        out.push(more[i].clone());
        assert(texts(out@) =~= texts(before).push(more@[i as int]@));
        assert(texts(out@) =~= texts(old(out)@) + texts(more@).take(i + 1));
        i += 1;
    }
    assert(texts(more@).take(i as int) =~= texts(more@));
}

// ---- laws ----

/// Whether a line defines a word: its first word is that word, without brackets,
/// its other words are the phonemes, and it is no comment.
pub open spec fn defines(line: Seq<char>, word: Seq<char>, phonemes: Seq<Seq<char>>) -> bool {
    &&& words_of(line) == seq![word] + phonemes
    &&& phonemes.len() > 0
    &&& !word.contains('(')
    &&& !(line.len() >= 3 && line[0] == ';' && line[1] == ';' && line[2] == ';')
}

proof fn lemma_defines(line: Seq<char>)
    ensures
        forall|word: Seq<char>, phonemes: Seq<Seq<char>>| #[trigger]
            defines(line, word, phonemes) <==> definition(line) == Some((word, phonemes)),
{
    reveal_strlit(";;;");
    let ws = words_of(line);
    assert(starts_with(line, ";;;"@) == (line.len() >= 3 && line[0] == ';' && line[1] == ';'
        && line[2] == ';')) by {
        if line.len() >= 3 {
            let head = line.take(3);
            assert(head[0] == line[0] && head[1] == line[1] && head[2] == line[2]);
            if line[0] == ';' && line[1] == ';' && line[2] == ';' {
                assert(head =~= ";;;"@);
            }
        }
    }
    assert forall|word: Seq<char>, phonemes: Seq<Seq<char>>| #[trigger]
        defines(line, word, phonemes) <==> definition(line) == Some((word, phonemes)) by {
        if defines(line, word, phonemes) {
            assert(ws.skip(1) =~= phonemes);
            assert(ws[0] == word);
        }
        if definition(line) == Some((word, phonemes)) {
            assert(seq![word] + phonemes =~= ws);
        }
    }
}

/// A dictionary knows a word by the last line that defines it, and knows no word
/// that no line defines.
pub proof fn dictionaries_hold_what_they_define(lines: Seq<Seq<char>>, word: Seq<char>)
    ensures
        ({
            let m = dictionary(lines);
            &&& m.contains_key(word) ==> exists|k: int|
                0 <= k < lines.len() && #[trigger] defines(lines[k], word, m[word])
            &&& forall|k: int, p: Seq<Seq<char>>|
                0 <= k < lines.len() && #[trigger] defines(lines[k], word, p) && (forall|
                    j: int,
                    q: Seq<Seq<char>>,
                |
                    k < j < lines.len() ==> !#[trigger] defines(lines[j], word, q))
                    ==> m.contains_key(word) && m[word] == p
        }),
    decreases lines.len(),
{
    let m = dictionary(lines);
    if lines.len() > 0 {
        let init = lines.drop_last();
        let last = lines.last();
        let n = lines.len() as int;
        dictionaries_hold_what_they_define(init, word);
        lemma_defines(last);
        if m.contains_key(word) {
            if definition(last) is Some && definition(last)->Some_0.0 == word {
                assert(defines(lines[n - 1], word, m[word]));
            } else {
                let k = choose|k: int|
                    0 <= k < init.len() && #[trigger] defines(
                        init[k],
                        word,
                        dictionary(init)[word],
                    );
                assert(defines(lines[k], word, m[word]));
            }
        }
        assert forall|k: int, p: Seq<Seq<char>>|
            0 <= k < n && #[trigger] defines(lines[k], word, p) && (forall|
                j: int,
                q: Seq<Seq<char>>,
            |
                k < j < n ==> !#[trigger] defines(lines[j], word, q)) implies m.contains_key(word)
            && m[word] == p by {
            if k < n - 1 {
                assert(defines(init[k], word, p));
                assert forall|j: int, q: Seq<Seq<char>>| k < j < init.len() implies !#[trigger]
                defines(init[j], word, q) by {
                    assert(!defines(lines[j], word, q));
                }
                if definition(last) is Some && definition(last)->Some_0.0 == word {
                    assert(!defines(lines[n - 1], word, definition(last)->Some_0.1));
                }
            }
        }
    }
}

/// A word that a dictionary does not know is read part by part: its phonemes are
/// those of its first characters followed by those of the rest. A digit is read as
/// its name.
pub proof fn unknown_words_are_spelled(
    m: Map<Seq<char>, Seq<Seq<char>>>,
    a: Seq<char>,
    b: Seq<char>,
)
    ensures
        m.contains_key(a) ==> pronunciation(m, a) == Some(m[a]),
        !m.contains_key(a) ==> pronunciation(m, a) == (if spelled(m, a).len() == 0 {
            None
        } else {
            Some(spelled(m, a))
        }),
        spelled(m, a + b) == spelled(m, a) + spelled(m, b),
        m.contains_key("seven"@) ==> spelled(m, seq!['7']) == m["seven"@],
        m.contains_key(seq!['x']) ==> spelled(m, seq!['x']) == m[seq!['x']],
    decreases b.len(),
{
    assert(seq!['7'].drop_last() =~= Seq::<char>::empty());
    assert(seq!['x'].drop_last() =~= Seq::<char>::empty());
    reveal_with_fuel(spelled, 2);
    if m.contains_key("seven"@) {
        assert(spelled(m, seq!['7']) =~= m["seven"@]);
    }
    if m.contains_key(seq!['x']) {
        assert(spelled(m, seq!['x']) =~= m[seq!['x']]);
    }
    if b.len() == 0 {
        assert(a + b =~= a);
        assert(spelled(m, a) + spelled(m, b) =~= spelled(m, a));
    } else {
        unknown_words_are_spelled(m, a, b.drop_last());
        assert((a + b).drop_last() =~= a + b.drop_last());
        assert((a + b).last() == b.last());
        let key = char_key(b.last());
        if m.contains_key(key) {
            assert(spelled(m, a) + (spelled(m, b.drop_last()) + m[key]) =~= (spelled(m, a)
                + spelled(m, b.drop_last())) + m[key]);
        }
    }
}

/// Stress is what a phoneme ends with: phonemes that differ in it alone have one
/// base, and a base ends with none.
pub proof fn bases_have_no_stress(p: Seq<char>, mark: char)
    ensures
        mark == '0' || mark == '1' || mark == '2' ==> base_of(p.push(mark)) == base_of(p),
        base_of(p).len() > 0 ==> base_of(p).last() != '0' && base_of(p).last() != '1' && base_of(
            p,
        ).last() != '2',
        p.len() > 0 && p.last() != '0' && p.last() != '1' && p.last() != '2' ==> base_of(p) == p,
    decreases p.len(),
{
    assert(p.push(mark).drop_last() =~= p);
    assert(p.push(mark).last() == mark);
    if p.len() > 0 {
        bases_have_no_stress(p.drop_last(), mark);
    }
}

} // verus!
