//! Speech providers, and the timetable of the offline mock.

use crate::audio::{WavAudio, WavView};
use crate::error::{outcome, ErrorView, Result};
use crate::features::{fnv, fnv_of};
use crate::text::{char_count, split_words, texts, words_of};
use vstd::prelude::*;
use vstd::string::*;
use vstd::utf8::encode_utf8;

verus! {

/// A provider of synthesized speech. What it is called and what it may answer
/// is for each provider to say.
pub trait TtsProvider {
    /// The name that units are recorded under.
    closed spec fn provider_name(&self) -> Seq<char> {
        arbitrary()
    }

    /// Whether a request for `text` in `voice` may be answered with `reply`.
    /// Two requests for the same text may be answered differently.
    open spec fn may_reply(
        &self,
        text: Seq<char>,
        voice: Seq<char>,
        reply: core::result::Result<WavView, ErrorView>,
    ) -> bool {
        true
    }

    fn name(&self) -> (r: &str)
        ensures
            r@ == self.provider_name(),
    ;

    fn synthesize(&self, text: &str, voice: &str) -> (r: Result<WavAudio>)
        ensures
            self.may_reply(text@, voice@, outcome(r)),
    ;

    /// Approximate USD per one million generated characters. A provider that says
    /// nothing of its price is free.
    fn cost_per_million_chars(&self) -> (r: u64)
        default_ensures
            r == 0,
    {
        0
    }
}

// ---- the mock's timetable ----

/// Silence behind every word, in milliseconds.
pub const GAP_MS: u64 = 60;

/// How long the mock speaks a word of `n` characters, in milliseconds.
pub open spec fn spoken_ms(n: nat) -> nat {
    if 90 * n < 180 {
        180
    } else if 90 * n > 900 {
        900
    } else {
        90 * n
    }
}

/// How long the mock speaks a word, in milliseconds.
pub fn word_duration_ms(word: &str) -> (r: u64)
    ensures
        r == spoken_ms(word@.len()),
        180 <= r <= 900,
{
    let n: usize = char_count(word);
    if n <= 2 {
        180
    } else if n >= 10 {
        900
    } else {
        90 * n as u64
    }
}

/// The pitch of a word in a voice, in Hz: 180 to 519, picked by a hash.
pub open spec fn pitch_of(voice: Seq<char>, word: Seq<char>) -> nat {
    (180 + fnv_of(encode_utf8(voice + seq![':'] + word)) % 340) as nat
}

/// The pitch at which the mock speaks a word, in hertz.
pub fn word_pitch(voice: &str, word: &str) -> (r: u32)
    ensures
        r == pitch_of(voice@, word@),
        180 <= r < 520,
{
    let mut key = voice.to_owned();
    key.append(":");
    key.append(word);
    proof {
        reveal_strlit(":");
        assert(key@ =~= voice@ + seq![':'] + word@);
    }
    180 + fnv(key.as_str()) % 340
}

/// Where the mock starts word `i`, in milliseconds.
pub open spec fn spoken_from(ws: Seq<Seq<char>>, i: nat) -> nat
    decreases i,
{
    if i == 0 {
        0
    } else {
        spoken_from(ws, (i - 1) as nat) + spoken_ms(ws[i - 1].len()) + 60
    }
}

/// A word with its start and end in milliseconds.
pub struct MockSpan {
    pub word: String,
    pub start_ms: u128,
    pub end_ms: u128,
}

/// The values of a sequence of spoken words.
pub open spec fn mock_spans(v: Seq<MockSpan>) -> Seq<(Seq<char>, nat, nat)> {
    Seq::new(v.len(), |i: int| (v[i].word@, v[i].start_ms as nat, v[i].end_ms as nat))
}

/// The words of a mock rendering of `text` with their starts and ends, gaps
/// excluded. The reference for alignment.
pub fn mock_word_spans(text: &str) -> (r: Vec<MockSpan>)
    ensures
        mock_spans(r@) == Seq::new(
            words_of(text@).len(),
            |i: int|
                (
                    words_of(text@)[i],
                    spoken_from(words_of(text@), i as nat),
                    spoken_from(words_of(text@), i as nat) + spoken_ms(words_of(text@)[i].len()),
                ),
        ),
{
    let words = split_words(text);
    let ghost ws = texts(words@);
    let mut out: Vec<MockSpan> = Vec::new();
    let mut cursor: u128 = 0;
    let mut i: usize = 0;
    while i < words.len()
        invariant
            ws == texts(words@),
            i <= words@.len(),
            cursor == spoken_from(ws, i as nat),
            cursor <= i * 960,
            out@.len() == i,
            forall|k: int|
                0 <= k < i ==> (#[trigger] out@[k]).word@ == ws[k] && out@[k].start_ms
                    == spoken_from(ws, k as nat) && out@[k].end_ms == spoken_from(ws, k as nat)
                    + spoken_ms(ws[k].len()),
        decreases words@.len() - i,
    {
        let word = words[i].clone();
        let ms: u64 = word_duration_ms(word.as_str());
        assert(word@ == ws[i as int]);
        out.push(MockSpan { word, start_ms: cursor, end_ms: cursor + ms as u128 });
        cursor = cursor + ms as u128 + GAP_MS as u128;
        i += 1;
    }
    assert(mock_spans(out@) =~= Seq::new(
        ws.len(),
        |k: int|
            (
                ws[k],
                spoken_from(ws, k as nat),
                spoken_from(ws, k as nat) + spoken_ms(ws[k].len()),
            ),
    ));
    out
}

// ---- laws ----

/// The mock speaks word after word, with sixty milliseconds of silence behind
/// each. A longer word takes no less time than a shorter one, and within bounds
/// every character takes ninety milliseconds.
pub proof fn words_are_spoken_one_by_one(ws: Seq<Seq<char>>, i: nat, m: nat, n: nat)
    requires
        m <= n,
    ensures
        spoken_from(ws, 0) == 0,
        spoken_from(ws, i + 1) - (spoken_from(ws, i) + spoken_ms(ws[i as int].len())) == 60,
        180 <= spoken_ms(m) <= spoken_ms(n) <= 900,
        2 <= m && n <= 10 ==> spoken_ms(n) - spoken_ms(m) == 90 * (n - m),
{
}

} // verus!
