//! Asking a provider for missing spans, and keeping what it answers.

use crate::audio::{wavs, WavAudio, WavView};
use crate::codec::AudioCodec;
use crate::error::{outcome, ErrorView, MimicError, Result};
use crate::g2p::G2p;
use crate::pipeline::{
    default_options, opt_dict, phoneme_lists, pronounce, pronounced, segment_and_store_words,
    segmented, utterance, IngestOptions, Utterance,
};
use crate::store::{opt_text, MimicStore, StoreView};
use crate::text::{join_words, lemma_total_len_part, spoken, texts, total_len};
use crate::tts::TtsProvider;
use vstd::prelude::*;

verus! {

/// A dictionary, where there is one.
pub type Dict = Option<Map<Seq<char>, Seq<Seq<char>>>>;

/// Words that a request is made of: none empty, and short enough to be
/// counted.
pub open spec fn well_sized(words: Seq<Seq<char>>) -> bool {
    &&& total_len(words) + words.len() <= usize::MAX + 1
    &&& forall|i: int| 0 <= i < words.len() ==> (#[trigger] words[i]).len() > 0
}

/// Spans of words, none empty.
pub open spec fn spans_within(spans: Seq<(nat, nat)>, n: nat) -> bool {
    forall|k: int| 0 <= k < spans.len() ==> (#[trigger] spans[k]).0 < spans[k].1 <= n
}

/// The words of a span with one space between them.
pub open spec fn span_text(words: Seq<Seq<char>>, span: (nat, nat)) -> Seq<char> {
    spoken(words.subrange(span.0 as int, span.1 as int))
}

/// The word before word `i`.
pub open spec fn word_before(words: Seq<Seq<char>>, i: int) -> Option<Seq<char>> {
    if i > 0 {
        Some(words[i - 1])
    } else {
        None
    }
}

/// The word at `i`, if there is one.
pub open spec fn word_at(words: Seq<Seq<char>>, i: int) -> Option<Seq<char>> {
    if i < words.len() {
        Some(words[i])
    } else {
        None
    }
}

/// The utterance that a provider's answer for a span is.
pub open spec fn span_utterance(
    words: Seq<Seq<char>>,
    span: (nat, nat),
    audio: WavView,
    voice: Seq<char>,
    provider: Seq<char>,
    dict: Dict,
) -> Utterance {
    let part = words.subrange(span.0 as int, span.1 as int);
    Utterance {
        words: part,
        phonemes: pronounced(part, dict),
        audio,
        voice,
        provider,
        prev: word_before(words, span.0 as int),
        next: word_at(words, span.1 as int),
        opts: default_options(),
    }
}

/// A reply of a provider.
pub type Reply = core::result::Result<WavView, ErrorView>;

/// Whether `replies` are what a provider may have answered to requests for
/// `spans`, one after the other until one fails.
pub open spec fn answered<T: TtsProvider + ?Sized>(
    tts: &T,
    words: Seq<Seq<char>>,
    spans: Seq<(nat, nat)>,
    voice: Seq<char>,
    replies: Seq<Reply>,
) -> bool {
    &&& replies.len() <= spans.len()
    &&& forall|k: int|
        0 <= k < replies.len() ==> tts.may_reply(
            span_text(words, spans[k]),
            voice,
            #[trigger] replies[k],
        )
    &&& forall|k: int| 0 <= k < replies.len() - 1 ==> #[trigger] replies[k] is Ok
    &&& replies.len() < spans.len() ==> replies.len() > 0 && replies.last() is Err
}

/// Whether all requests were answered with audio.
pub open spec fn all_spoken(spans: Seq<(nat, nat)>, replies: Seq<Reply>) -> bool {
    replies.len() == spans.len() && (replies.len() > 0 ==> replies.last() is Ok)
}

/// The audio of the replies.
pub open spec fn spoken_audio(replies: Seq<Reply>) -> Seq<WavView> {
    Seq::new(replies.len(), |k: int| replies[k]->Ok_0)
}

/// The store after the first `k` answers were kept.
pub open spec fn grown<C: AudioCodec + ?Sized>(
    s: StoreView,
    words: Seq<Seq<char>>,
    spans: Seq<(nat, nat)>,
    replies: Seq<Reply>,
    voice: Seq<char>,
    provider: Seq<char>,
    dict: Dict,
    k: nat,
    codec: &C,
) -> StoreView
    decreases k,
{
    if k == 0 {
        s
    } else {
        segmented(
            grown(s, words, spans, replies, voice, provider, dict, (k - 1) as nat, codec),
            span_utterance(
                words,
                spans[k - 1],
                replies[k - 1]->Ok_0,
                voice,
                provider,
                dict,
            ),
            codec,
        )
    }
}

/// How many replies were kept: all but one that failed.
pub open spec fn kept(replies: Seq<Reply>) -> nat {
    if replies.len() > 0 && replies.last() is Err {
        (replies.len() - 1) as nat
    } else {
        replies.len()
    }
}

/// What is kept depends on the replies so far alone.
proof fn lemma_grown_prefix<C: AudioCodec + ?Sized>(
    s: StoreView,
    words: Seq<Seq<char>>,
    spans: Seq<(nat, nat)>,
    a: Seq<Reply>,
    b: Seq<Reply>,
    voice: Seq<char>,
    provider: Seq<char>,
    dict: Dict,
    k: nat,
    codec: &C,
)
    requires
        k <= a.len(),
        k <= b.len(),
        forall|i: int| 0 <= i < k ==> #[trigger] a[i] == b[i],
    ensures
        grown(s, words, spans, a, voice, provider, dict, k, codec) == grown(
            s,
            words,
            spans,
            b,
            voice,
            provider,
            dict,
            k,
            codec,
        ),
    decreases k,
{
    if k > 0 {
        lemma_grown_prefix(s, words, spans, a, b, voice, provider, dict, (k - 1) as nat, codec);
        assert(a[k - 1] == b[k - 1]);
    }
}

/// The spans as pairs of machine integers.
pub open spec fn span_views(v: Seq<(usize, usize)>) -> Seq<(nat, nat)> {
    Seq::new(v.len(), |i: int| (v[i].0 as nat, v[i].1 as nat))
}

/// Copies the strings `from..to`.
pub fn copy_texts(v: &Vec<String>, from: usize, to: usize) -> (r: Vec<String>)
    requires
        from <= to <= v@.len(),
    ensures
        texts(r@) == texts(v@).subrange(from as int, to as int),
        r@.len() == to - from,
{
    let mut out: Vec<String> = Vec::new();
    let mut i: usize = from;
    while i < to
        invariant
            from <= i <= to <= v@.len(),
            out@.len() == i - from,
            forall|k: int| 0 <= k < i - from ==> (#[trigger] out@[k])@ == v@[from + k]@,
        decreases to - i,
    {
        out.push(v[i].clone());
        i += 1;
    }
    assert(texts(out@) =~= texts(v@).subrange(from as int, to as int));
    out
}

/// A span of a request can be aligned.
proof fn lemma_span_alignable(words: Seq<Seq<char>>, span: (nat, nat))
    requires
        well_sized(words),
        span.0 < span.1 <= words.len(),
    ensures
        ({
            let part = words.subrange(span.0 as int, span.1 as int);
            1 < total_len(part) + part.len() <= usize::MAX + 1
        }),
{
    let part = words.subrange(span.0 as int, span.1 as int);
    lemma_total_len_part(words, span.0 as int, span.1 as int);
    lemma_total_len_part(part, 0, 1);
    assert(part.subrange(0, 1) =~= seq![part[0]]);
    assert(seq![part[0]].drop_last() =~= Seq::<Seq<char>>::empty());
    assert(total_len(seq![part[0]]) == part[0].len()) by {
        reveal_with_fuel(total_len, 2);
    }
    assert(part[0] == words[span.0 as int]);
}

/// Asks for the spans one after the other, and keeps the words of each answer.
/// The first failure ends it.
pub fn speak_spans<T: TtsProvider + ?Sized, C: AudioCodec + ?Sized>(
    store: &mut MimicStore,
    tts: &T,
    words: &Vec<String>,
    spans: &Vec<(usize, usize)>,
    voice: &str,
    g2p: Option<&G2p>,
    codec: &C,
) -> (r: core::result::Result<Vec<WavAudio>, MimicError>)
    requires
        well_sized(texts(words@)),
        spans_within(span_views(spans@), words@.len()),
    ensures
        exists|replies: Seq<Reply>|
            {
                &&& #[trigger] answered(
                    tts,
                    texts(words@),
                    span_views(spans@),
                    voice@,
                    replies,
                )
                &&& final(store)@ == grown(
                    old(store)@,
                    texts(words@),
                    span_views(spans@),
                    replies,
                    voice@,
                    tts.provider_name(),
                    opt_dict(g2p),
                    kept(replies),
                    codec,
                )
                &&& match r {
                    Ok(audio) => all_spoken(span_views(spans@), replies) && wavs(audio@)
                        == spoken_audio(replies),
                    Err(e) => replies.len() > 0 && replies.last() == Reply::Err(e@),
                }
            },
{
    let ghost ws = texts(words@);
    let ghost sp = span_views(spans@);
    let ghost first = store@;
    let ghost provider = tts.provider_name();
    let ghost dict = opt_dict(g2p);
    let ghost mut replies: Seq<Reply> = Seq::empty();
    let mut out: Vec<WavAudio> = Vec::new();
    let n: usize = words.len();
    let mut k: usize = 0;
    assert(wavs(out@) =~= spoken_audio(replies));
    while k < spans.len()
        invariant
            ws == texts(words@),
            sp == span_views(spans@),
            n == words@.len(),
            first == old(store)@,
            well_sized(ws),
            spans_within(sp, n as nat),
            provider == tts.provider_name(),
            dict == opt_dict(g2p),
            k <= spans@.len(),
            replies.len() == k,
            forall|i: int| 0 <= i < k ==> #[trigger] replies[i] is Ok,
            forall|i: int|
                0 <= i < k ==> tts.may_reply(span_text(ws, sp[i]), voice@, #[trigger] replies[i]),
            wavs(out@) == spoken_audio(replies),
            store@ == grown(
                first,
                ws,
                sp,
                replies,
                voice@,
                provider,
                dict,
                k as nat,
                codec,
            ),
        decreases spans@.len() - k,
    {
        let (from, to) = spans[k];
        assert(sp[k as int] == (from as nat, to as nat));
        let text = join_words(words, from, to);
        let reply = tts.synthesize(text.as_str(), voice);
        let ghost before = replies;
        proof {
            replies = replies.push(outcome(reply));
            lemma_grown_prefix(
                first,
                ws,
                sp,
                before,
                replies,
                voice@,
                provider,
                dict,
                k as nat,
                codec,
            );
        }
        match reply {
            Err(e) => {
                assert(answered(tts, ws, sp, voice@, replies));
                return Err(e);
            },
            Ok(audio) => {
                let part = copy_texts(words, from, to);
                let phonemes = pronounce(&part, g2p);
                let prev: Option<&str> = if from > 0 {
                    Some(words[from - 1].as_str())
                } else {
                    None
                };
                let next: Option<&str> = if to < n {
                    Some(words[to].as_str())
                } else {
                    None
                };
                let opts = IngestOptions::default();
                let ghost u = span_utterance(
                    ws,
                    sp[k as int],
                    audio@,
                    voice@,
                    provider,
                    dict,
                );
                proof {
                    lemma_span_alignable(ws, sp[k as int]);
                    assert(phoneme_lists(phonemes@).len() == phonemes@.len());
                    assert(u == utterance(
                        part@,
                        phonemes@,
                        audio@,
                        voice@,
                        provider,
                        opt_text(prev),
                        opt_text(next),
                        opts,
                    ));
                }
                let _stored = segment_and_store_words(
                    store,
                    &part,
                    &phonemes,
                    &audio,
                    voice,
                    tts.name(),
                    prev,
                    next,
                    &opts,
                    codec,
                );
                let ghost heard = out@;
                out.push(audio);
                assert(wavs(out@) =~= wavs(heard).push(audio@));
                assert(spoken_audio(replies) =~= spoken_audio(before).push(audio@));
            },
        }
        k += 1;
    }
    assert(answered(tts, ws, sp, voice@, replies));
    Ok(out)
}

} // verus!
