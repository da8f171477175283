//! What an ingest keeps of an utterance: which stretch of its audio every word,
//! phoneme and transition is stored with, and between which neighbours.

use crate::align::{
    lemma_word_weights, phoneme_bounds, phonemes_cover_the_word, proportional,
    proportional_is_ascending, refinement, refinement_keeps_order, weight_before, word_weights,
    words_cover_the_audio, AlignMode,
};
use crate::audio::{end_to_end, parsed_wav, wav_round_trip, WavView};
use crate::codec::AudioCodec;
use crate::error::ErrorView;
use crate::g2p::{base_of, pronunciation};
use crate::laws::{extends, lemma_extends_transitive, lemma_node_kept, segmented_words_are_found};
use crate::measure::level;
use crate::pipeline::{
    alignable, bounds_of, default_options, diphone_record, ingested, ingested_utterance, linked,
    phoneme_record, pronounced, record, segmented, sounds, sounds_stored, unresolved, word_audio,
    word_record, word_sounds, words_stored, IngestOptions, Sounded, Utterance,
};
use crate::speak::{grown, span_utterance, Dict, Reply};
use crate::store::{unit_of, with_unit, NodeId, NodeView, Recorded, StoreView, UnitView};
use crate::text::{spoken, total_len};
use crate::units::{normalized, tokens, tokens_are_not_empty, UnitLevel};
use vstd::prelude::*;

verus! {

/// Whether a unit is kept with a recording: as a wav file that reads back as the
/// recording, as the tokens that it encodes to, or as both, as the options ask.
pub open spec fn keeps<C: AudioCodec + ?Sized>(
    w: UnitView,
    audio: WavView,
    opts: IngestOptions,
    codec: &C,
) -> bool {
    &&& w.sample_rate == audio.sample_rate
    &&& opts.write_wav ==> w.wav_path.len() > 0 && (w.wav matches Some(file) && (2
        * audio.samples.len() <= u32::MAX ==> parsed_wav(file) == Ok::<WavView, ErrorView>(audio)))
    &&& !opts.write_wav ==> w.wav is None
    &&& w.tokens == (if opts.codec_tokens {
        Some(codec.encoded(audio))
    } else {
        None
    })
}

/// The samples `from..to` of a recording.
pub open spec fn stretch_of(a: WavView, from: nat, to: nat) -> WavView {
    WavView { samples: a.samples.subrange(from as int, to as int), sample_rate: a.sample_rate }
}

/// The text that stands next to something, or nothing.
pub open spec fn beside(t: Option<Seq<char>>) -> Seq<char> {
    match t {
        Some(text) => text,
        None => Seq::empty(),
    }
}

proof fn lemma_kept<C: AudioCodec + ?Sized>(r: Recorded, at: nat, opts: IngestOptions, codec: &C)
    requires
        r.write_wav == opts.write_wav,
        r.tokens == (if opts.codec_tokens {
            Some(codec.encoded(r.audio))
        } else {
            None
        }),
    ensures
        keeps(unit_of(r, at), r.audio, opts, codec),
{
    if 2 * r.audio.samples.len() <= u32::MAX {
        wav_round_trip(r.audio);
    }
    reveal_strlit(".wav");
}

/// Whether boundaries run from the start of a recording to its end.
pub open spec fn cuts_up(b: Seq<nat>, n: nat, total: nat) -> bool {
    &&& b.len() == n + 1
    &&& b[0] == 0
    &&& b[n as int] == total
    &&& forall|i: int, j: int| 0 <= i <= j <= n ==> #[trigger] b[i] <= #[trigger] b[j]
}

/// Whether a unit is what is kept of word `i` of an utterance.
pub open spec fn is_word_of<C: AudioCodec + ?Sized>(
    w: UnitView,
    u: Utterance,
    i: int,
    from: nat,
    to: nat,
    codec: &C,
) -> bool {
    &&& w.level == UnitLevel::Word
    &&& w.text == u.words[i]
    &&& w.voice == u.voice
    &&& w.cache_domain == u.provider
    &&& w.context_prev == (if i > 0 {
        u.words[i - 1]
    } else {
        beside(u.prev)
    })
    &&& w.context_next == (if i < u.words.len() - 1 {
        u.words[i + 1]
    } else {
        beside(u.next)
    })
    &&& w.phonemes == (match u.phonemes[i] {
        Some(p) => spoken(p),
        None => u.words[i],
    })
    &&& keeps(w, stretch_of(u.audio, from, to), u.opts, codec)
}

/// Every word of an utterance is stored with its own stretch of the audio: the
/// stretches follow one another from the start to the end, so that none is left
/// out and none is heard twice. A word is stored between the words that it was
/// spoken between. Where boundaries are not refined, a word lasts as long as its
/// characters, and the space before it, are among those of the text; where they
/// are, no two of them are closer than 30 ms, except at the end.
pub proof fn words_keep_their_stretch<C: AudioCodec + ?Sized>(
    s: StoreView,
    u: Utterance,
    codec: &C,
) -> (b: Seq<nat>)
    requires
        alignable(u),
    ensures
        cuts_up(b, u.words.len(), u.audio.samples.len()),
        forall|i: int|
            0 <= i < u.words.len() ==> (#[trigger] segmented(s, u, codec).nodes[s.nodes.len()
                + i] matches NodeView::Unit(w) && is_word_of(w, u, i, b[i], b[i + 1], codec)),
        u.opts.align == AlignMode::Proportional ==> forall|i: int|
            0 < i <= u.words.len() ==> {
                let before = total_len(u.words.take(i)) + (i - 1);
                let all = total_len(u.words) + (u.words.len() - 1);
                &&& (#[trigger] b[i]) * all <= u.audio.samples.len() * before
                &&& u.audio.samples.len() * before < (b[i] + 1) * all
            },
        u.opts.align != AlignMode::Proportional ==> forall|i: int|
            0 < i < u.words.len() ==> (#[trigger] b[i]) == u.audio.samples.len() || b[i] >= b[i - 1]
                + u.audio.sample_rate * 30 / 1000,
{
    let b = bounds_of(u);
    let t = segmented(s, u, codec);
    let n = u.words.len();
    let total = u.audio.samples.len();
    words_cover_the_audio(u.audio.samples, u.audio.sample_rate, u.words, u.opts.align);
    assert forall|i: int, j: int| 0 <= i <= j <= n implies #[trigger] b[i] <= #[trigger] b[j] by {}
    assert forall|i: int| 0 <= i < n implies (#[trigger] t.nodes[s.nodes.len()
        + i] matches NodeView::Unit(w) && is_word_of(w, u, i, b[i], b[i + 1], codec)) by {
        segmented_words_are_found(s, u, i, codec);
        lemma_kept(word_record(u, i, codec), (s.nodes.len() + i) as nat, u.opts, codec);
        assert(word_audio(u, i) == stretch_of(u.audio, b[i], b[i + 1]));
    }
    let w = word_weights(u.words);
    lemma_word_weights(u.words, n);
    assert(u.words.take(n as int) =~= u.words);
    let sum = weight_before(w, n);
    match u.opts.align {
        AlignMode::Proportional => {
            assert forall|i: int| 0 < i <= n implies {
                let before = total_len(u.words.take(i)) + (i - 1);
                let all = total_len(u.words) + (n - 1);
                &&& (#[trigger] b[i]) * all <= total * before
                &&& total * before < (b[i] + 1) * all
            } by {
                lemma_word_weights(u.words, i as nat);
                let before = weight_before(w, i as nat);
                let x = (total * before) as int;
                vstd::arithmetic::div_mod::lemma_fundamental_div_mod(x, sum as int);
                vstd::arithmetic::div_mod::lemma_mod_bound(x, sum as int);
                let q = b[i] as int;
                assert(q == x / (sum as int));
                assert(q * sum <= x < (q + 1) * sum) by (nonlinear_arith)
                    requires
                        x == sum * q + x % (sum as int),
                        0 <= x % (sum as int) < sum,
                ;
            }
        },
        AlignMode::EnergyRefined { search_ns } => {
            let seeds = proportional(total, w);
            let how = refinement(u.audio.samples, u.audio.sample_rate, search_ns, 30);
            proportional_is_ascending(total, w);
            refinement_keeps_order(seeds, how);
        },
    }
    b
}

/// The recordings of words, one behind the other.
pub open spec fn stretches(a: WavView, b: Seq<nat>, n: nat) -> Seq<WavView> {
    Seq::new(n, |i: int| stretch_of(a, b[i], b[i + 1]))
}

/// What the words of an utterance are stored with is, one behind the other, the
/// audio of the utterance.
pub proof fn stretches_are_the_whole(a: WavView, b: Seq<nat>, n: nat)
    requires
        cuts_up(b, n, a.samples.len()),
    ensures
        end_to_end(stretches(a, b, n)) == a.samples,
{
    lemma_stretches(a, b, n, n);
    assert(a.samples.take(a.samples.len() as int) =~= a.samples);
}

proof fn lemma_stretches(a: WavView, b: Seq<nat>, n: nat, k: nat)
    requires
        cuts_up(b, n, a.samples.len()),
        k <= n,
    ensures
        end_to_end(stretches(a, b, k)) == a.samples.take(b[k as int] as int),
    decreases k,
{
    let all = stretches(a, b, k);
    if k > 0 {
        lemma_stretches(a, b, n, (k - 1) as nat);
        assert(all.drop_last() =~= stretches(a, b, (k - 1) as nat));
        assert(b[k - 1] <= b[k as int] <= b[n as int]);
        assert(a.samples.take(b[k as int] as int) =~= a.samples.take(b[k - 1] as int)
            + a.samples.subrange(b[k - 1] as int, b[k as int] as int));
    } else {
        assert(a.samples.take(0) =~= Seq::<i16>::empty());
    }
}

// ---- sounds ----

/// Where phoneme `k` is stored behind the words.
pub open spec fn phoneme_place(diphones: bool, k: int) -> int {
    if diphones && k > 0 {
        2 * k - 1
    } else {
        k
    }
}

/// Whether a unit is what is kept of phoneme `k`.
pub open spec fn is_phoneme_of<C: AudioCodec + ?Sized>(
    w: UnitView,
    u: Utterance,
    st: Seq<Sounded>,
    k: int,
    codec: &C,
) -> bool {
    &&& w.level == UnitLevel::Phoneme
    &&& w.text == st[k].phoneme
    &&& w.voice == u.voice
    &&& w.cache_domain == u.provider
    &&& w.context_prev == (if k > 0 {
        st[k - 1].phoneme
    } else {
        Seq::empty()
    })
    &&& w.context_next == (if k < st.len() - 1 {
        st[k + 1].phoneme
    } else {
        Seq::empty()
    })
    &&& keeps(w, stretch_of(u.audio, st[k].start, st[k].end), u.opts, codec)
}

/// Whether a unit is what is kept of the transition into phoneme `k`: from the
/// middle of one phoneme to the middle of the next.
pub open spec fn is_transition_of<C: AudioCodec + ?Sized>(
    w: UnitView,
    u: Utterance,
    st: Seq<Sounded>,
    k: int,
    codec: &C,
) -> bool {
    &&& w.level == UnitLevel::Diphone
    &&& w.text == base_of(st[k - 1].phoneme) + seq!['+'] + base_of(st[k].phoneme)
    &&& w.voice == u.voice
    &&& w.cache_domain == u.provider
    &&& w.context_prev == (if k > 1 {
        st[k - 2].phoneme
    } else {
        Seq::empty()
    })
    &&& w.context_next == (if k < st.len() - 1 {
        st[k + 1].phoneme
    } else {
        Seq::empty()
    })
    &&& keeps(
        w,
        stretch_of(
            u.audio,
            (st[k - 1].start + st[k - 1].end) / 2,
            (st[k].start + st[k].end) / 2,
        ),
        u.opts,
        codec,
    )
}

spec fn sounds_kept<C: AudioCodec + ?Sized>(
    t: Seq<NodeView>,
    first: int,
    u: Utterance,
    st: Seq<Sounded>,
    k: int,
    codec: &C,
) -> bool {
    &&& forall|j: int|
        0 <= j < k ==> (t[first + #[trigger] phoneme_place(
            u.opts.diphones,
            j,
        )] matches NodeView::Unit(w) && is_phoneme_of(w, u, st, j, codec))
    &&& u.opts.diphones ==> forall|j: int|
        0 < j < k ==> (#[trigger] t[first + 2 * j] matches NodeView::Unit(w) && is_transition_of(
            w,
            u,
            st,
            j,
            codec,
        ))
}

proof fn lemma_sound_places<C: AudioCodec + ?Sized>(
    s: StoreView,
    u: Utterance,
    st: Seq<Sounded>,
    k: nat,
    codec: &C,
)
    requires
        k <= st.len(),
    ensures
        ({
            let t = sounds_stored(s, u, st, k, codec).store;
            &&& t.nodes.len() == s.nodes.len() + phoneme_place(u.opts.diphones, k as int)
            &&& forall|i: int| 0 <= i < s.nodes.len() ==> #[trigger] t.nodes[i] == s.nodes[i]
            &&& sounds_kept(t.nodes, s.nodes.len() as int, u, st, k as int, codec)
        }),
    decreases k,
{
    if k > 0 {
        let first = s.nodes.len() as int;
        let d = u.opts.diphones;
        let j = k - 1;
        lemma_sound_places(s, u, st, j as nat, codec);
        let before = sounds_stored(s, u, st, j as nat, codec).store;
        let t = sounds_stored(s, u, st, k, codec).store;
        assert forall|i: int| 0 <= i < before.nodes.len() implies #[trigger] t.nodes[i]
            == before.nodes[i] by {}
        let r = phoneme_record(u, st, j, codec);
        let at = before.nodes.len();
        lemma_kept(r, at, u.opts, codec);
        assert(t.nodes[first + phoneme_place(d, j)] == NodeView::Unit(unit_of(r, at)));
        assert(is_phoneme_of(unit_of(r, at), u, st, j, codec));
        if d && j > 0 {
            let q = diphone_record(u, st, j, codec);
            lemma_kept(q, at + 1, u.opts, codec);
            assert(t.nodes[first + 2 * j] == NodeView::Unit(unit_of(q, at + 1)));
            reveal_strlit("+");
            assert("+"@ =~= seq!['+']);
            assert(is_transition_of(unit_of(q, at + 1), u, st, j, codec));
        }
        assert forall|i: int| 0 <= i < k implies (t.nodes[first + #[trigger] phoneme_place(
            d,
            i,
        )] matches NodeView::Unit(w) && is_phoneme_of(w, u, st, i, codec)) by {
            if i < j {
                assert(phoneme_place(d, i) < phoneme_place(d, j));
                assert(t.nodes[first + phoneme_place(d, i)] == before.nodes[first + phoneme_place(
                    d,
                    i,
                )]);
            }
        }
        if d {
            assert forall|i: int| 0 < i < k implies (#[trigger] t.nodes[first + 2
                * i] matches NodeView::Unit(w) && is_transition_of(w, u, st, i, codec)) by {
                if i < j {
                    assert(before.nodes[first + 2 * i] is Unit);
                    assert(t.nodes[first + 2 * i] == before.nodes[first + 2 * i]);
                }
            }
        }
    }
}

/// How many phonemes stand before word `n`.
pub open spec fn phonemes_before(u: Utterance, n: nat) -> nat
    decreases n,
{
    if n == 0 {
        0
    } else {
        phonemes_before(u, (n - 1) as nat) + (match u.phonemes[n - 1] {
            Some(p) => p.len(),
            None => 0,
        })
    }
}

/// Whether the sounds of word `i` are its phonemes, one behind the other from
/// where the word starts to where it ends.
pub open spec fn sounds_fill_word(
    u: Utterance,
    st: Seq<Sounded>,
    b: Seq<nat>,
    i: int,
) -> bool {
    let o = phonemes_before(u, i as nat) as int;
    u.phonemes[i] matches Some(p) ==> {
        &&& o + p.len() <= st.len()
        &&& forall|j: int| 0 <= j < p.len() ==> (#[trigger] st[o + j]).phoneme == p[j]
        &&& p.len() > 0 ==> st[o].start == b[i] && st[o + p.len() - 1].end == b[i + 1]
        &&& forall|j: int| 0 < j < p.len() ==> (#[trigger] st[o + j]).start == st[o + j - 1].end
        &&& forall|j: int| 0 <= j < p.len() ==> (#[trigger] st[o + j]).start <= st[o + j].end
    }
}

proof fn lemma_sounds_fill(u: Utterance, n: nat, i: int)
    requires
        alignable(u),
        n <= u.words.len(),
    ensures
        sounds(u, n).len() == phonemes_before(u, n),
        0 <= i < n ==> sounds_fill_word(u, sounds(u, n), bounds_of(u), i),
    decreases n,
{
    if n > 0 {
        lemma_sounds_fill(u, (n - 1) as nat, i);
        let st = sounds(u, n);
        let before = sounds(u, (n - 1) as nat);
        let here = word_sounds(u, n - 1);
        let b = bounds_of(u);
        let o = before.len() as int;
        words_cover_the_audio(u.audio.samples, u.audio.sample_rate, u.words, u.opts.align);
        if i == n - 1 {
            if let Some(p) = u.phonemes[i] {
                assert forall|j: int| 0 <= j < p.len() implies #[trigger] st[o + j]
                    == here[j] by {}
                if p.len() > 0 {
                    let a = word_audio(u, i);
                    assert(b[i] <= b[i + 1] <= u.audio.samples.len());
                    phonemes_cover_the_word(
                        a.samples,
                        a.sample_rate,
                        p.len(),
                        u.opts.phoneme_search_ns,
                    );
                    let pb = phoneme_bounds(
                        a.samples,
                        a.sample_rate,
                        p.len(),
                        u.opts.phoneme_search_ns,
                    );
                    assert(st[o + p.len() - 1] == here[p.len() - 1]);
                    assert(st[o + 0] == here[0]);
                    assert forall|j: int| 0 < j < p.len() implies (#[trigger] st[o + j]).start
                        == st[o + j - 1].end by {
                        assert(st[o + (j - 1)] == here[j - 1]);
                    }
                    assert forall|j: int| 0 <= j < p.len() implies (#[trigger] st[o + j]).start
                        <= st[o + j].end by {
                        assert(pb[j] <= pb[j + 1]);
                    }
                }
            }
        } else if 0 <= i < n - 1 {
            assert(sounds_fill_word(u, before, b, i));
            let q = phonemes_before(u, i as nat) as int;
            if let Some(p) = u.phonemes[i] {
                assert forall|j: int| 0 <= j < p.len() implies #[trigger] st[q + j] == before[q
                    + j] by {}
                if p.len() > 0 {
                    assert(st[q + 0] == before[q + 0]);
                    assert(st[q + (p.len() - 1)] == before[q + (p.len() - 1)]);
                }
                assert forall|j: int| 0 < j < p.len() implies (#[trigger] st[q + j]).start == st[q
                    + j - 1].end by {
                    assert(st[q + (j - 1)] == before[q + (j - 1)]);
                    assert(before[q + j].start == before[q + j - 1].end);
                }
                assert forall|j: int| 0 <= j < p.len() implies (#[trigger] st[q + j]).start
                    <= st[q + j].end by {
                    assert(before[q + j].start <= before[q + j].end);
                }
            }
        }
    }
}

/// Every phoneme of an utterance is stored with its own stretch of the audio: the
/// phonemes of a word follow one another from where the word starts to where it
/// ends. Every transition is stored from the middle of one phoneme to the middle
/// of the next, also across words. Both are stored between the phonemes that they
/// were spoken between.
pub proof fn sounds_keep_their_stretch<C: AudioCodec + ?Sized>(
    s: StoreView,
    u: Utterance,
    codec: &C,
) -> (r: (Seq<nat>, Seq<Sounded>))
    requires
        alignable(u),
    ensures
        ({
            let (b, st) = r;
            let first = s.nodes.len() + u.words.len();
            let t = segmented(s, u, codec).nodes;
            &&& cuts_up(b, u.words.len(), u.audio.samples.len())
            &&& forall|i: int|
                0 <= i < u.words.len() ==> (#[trigger] t[s.nodes.len() + i] matches NodeView::Unit(
                    w,
                ) && is_word_of(w, u, i, b[i], b[i + 1], codec))
            &&& st.len() == phonemes_before(u, u.words.len())
            &&& forall|i: int|
                0 <= i < u.words.len() ==> #[trigger] sounds_fill_word(u, st, b, i)
            &&& t.len() == first + phoneme_place(u.opts.diphones, st.len() as int)
            &&& forall|k: int|
                0 <= k < st.len() ==> (t[first + #[trigger] phoneme_place(
                    u.opts.diphones,
                    k,
                )] matches NodeView::Unit(w) && is_phoneme_of(w, u, st, k, codec))
            &&& u.opts.diphones ==> forall|k: int|
                0 < k < st.len() ==> (#[trigger] t[first + 2 * k] matches NodeView::Unit(w)
                    && is_transition_of(w, u, st, k, codec))
        }),
{
    let n = u.words.len();
    let b = bounds_of(u);
    let st = sounds(u, n);
    let w = words_stored(s, u, n, codec);
    let given = words_keep_their_stretch(s, u, codec);
    words_cover_the_audio(u.audio.samples, u.audio.sample_rate, u.words, u.opts.align);
    crate::laws::words_come_first(s, u, n, codec);
    lemma_sound_places(w, u, st, st.len(), codec);
    lemma_sounds_fill(u, n, 0);
    assert forall|i: int| 0 <= i < n implies #[trigger] sounds_fill_word(u, st, b, i) by {
        lemma_sounds_fill(u, n, i);
    }
    let t = segmented(s, u, codec).nodes;
    assert forall|i: int| 0 <= i < n implies (#[trigger] t[s.nodes.len()
        + i] matches NodeView::Unit(w) && is_word_of(w, u, i, b[i], b[i + 1], codec)) by {
        segmented_words_are_found(s, u, i, codec);
        lemma_kept(word_record(u, i, codec), (s.nodes.len() + i) as nat, u.opts, codec);
        assert(word_audio(u, i) == stretch_of(u.audio, b[i], b[i + 1]));
    }
    (b, st)
}

/// An ingest keeps a text as the phrase with the whole recording, and its words,
/// their phonemes and the transitions with their stretches of it. The phonemes
/// are those of the dictionary, where they are asked for.
pub proof fn ingests_keep_the_utterance<C: AudioCodec + ?Sized>(
    s: StoreView,
    text: Seq<char>,
    audio: WavView,
    voice: Seq<char>,
    provider: Seq<char>,
    opts: IngestOptions,
    dict: Dict,
    codec: &C,
) -> (r: (Seq<nat>, Seq<Sounded>))
    requires
        0 < tokens(text).len(),
        total_len(tokens(text)) + tokens(text).len() <= usize::MAX + 1,
    ensures
        ({
            let u = ingested_utterance(text, audio, voice, provider, opts, dict);
            let (b, st) = r;
            let at = s.nodes.len() as int;
            let words = tokens(text);
            let first = at + 1 + words.len();
            let t = ingested(s, text, u, codec).nodes;
            &&& u.words == words && u.audio == audio && u.voice == voice && u.provider == provider
            &&& u.opts == opts && u.prev is None && u.next is None
            &&& u.phonemes.len() == words.len()
            &&& forall|i: int|
                0 <= i < words.len() ==> #[trigger] u.phonemes[i] == (if opts.phonemes
                    && dict is Some {
                    pronunciation(dict->Some_0, words[i])
                } else {
                    None
                })
            &&& t[at] matches NodeView::Unit(w) && w.level == UnitLevel::Phrase && w.text
                == normalized(text) && w.voice == voice && w.cache_domain == provider
                && w.context_prev.len() == 0 && w.context_next.len() == 0 && keeps(
                w,
                audio,
                opts,
                codec,
            )
            &&& cuts_up(b, words.len(), audio.samples.len())
            &&& forall|i: int|
                0 <= i < words.len() ==> (#[trigger] t[at + 1 + i] matches NodeView::Unit(w)
                    && is_word_of(w, u, i, b[i], b[i + 1], codec))
            &&& forall|i: int| 0 <= i < words.len() ==> #[trigger] sounds_fill_word(u, st, b, i)
            &&& forall|k: int|
                0 <= k < st.len() ==> (t[first + #[trigger] phoneme_place(
                    opts.diphones,
                    k,
                )] matches NodeView::Unit(w) && is_phoneme_of(w, u, st, k, codec))
            &&& opts.diphones ==> forall|k: int|
                0 < k < st.len() ==> (#[trigger] t[first + 2 * k] matches NodeView::Unit(w)
                    && is_transition_of(w, u, st, k, codec))
            &&& t.len() == first + phoneme_place(opts.diphones, st.len() as int) + 1
            &&& t.last() == NodeView::VoiceDna {
                voice,
                samples: audio.samples.len() as u64,
                rms: level(audio.samples),
                provider,
            }
        }),
{
    let u = ingested_utterance(text, audio, voice, provider, opts, dict);
    let norm = normalized(text);
    let rec = record(u, UnitLevel::Phrase, norm, norm, audio, None, None, codec);
    let p = with_unit(s, rec);
    let at = s.nodes.len() as int;
    tokens_are_not_empty(text);
    assert(u.words[0].len() > 0);
    crate::text::lemma_total_len_part(u.words, 0, 1);
    assert(u.words.subrange(0, 1) =~= seq![u.words[0]]);
    assert(seq![u.words[0]].drop_last() =~= Seq::<Seq<char>>::empty());
    assert(total_len(seq![u.words[0]]) == u.words[0].len()) by {
        reveal_with_fuel(total_len, 2);
    }
    let r = sounds_keep_their_stretch(p, u, codec);
    let m = segmented(p, u, codec);
    crate::laws::segmenting_adds_words_and_sounds(p, u, codec);
    lemma_node_kept(p, m, at);
    lemma_kept(rec, s.nodes.len(), opts, codec);
    let t = ingested(s, text, u, codec).nodes;
    assert forall|i: int| 0 <= i < m.nodes.len() implies #[trigger] t[i] == m.nodes[i] by {}
    let (b, st) = r;
    let first = at + 1 + u.words.len();
    assert forall|i: int| 0 <= i < u.words.len() implies (#[trigger] t[at + 1
        + i] matches NodeView::Unit(w) && is_word_of(w, u, i, b[i], b[i + 1], codec)) by {
        assert(m.nodes[p.nodes.len() + i] is Unit);
    }
    assert forall|k: int| 0 <= k < st.len() implies (t[first + #[trigger] phoneme_place(
        opts.diphones,
        k,
    )] matches NodeView::Unit(w) && is_phoneme_of(w, u, st, k, codec)) by {
        assert(t[first + phoneme_place(opts.diphones, k)] == m.nodes[first + phoneme_place(
            opts.diphones,
            k,
        )]);
    }
    if opts.diphones {
        assert forall|k: int| 0 < k < st.len() implies (#[trigger] t[first + 2
            * k] matches NodeView::Unit(w) && is_transition_of(w, u, st, k, codec)) by {
            assert(m.nodes[first + 2 * k] is Unit);
        }
    }
    r
}

// ---- answers ----

proof fn lemma_grown_extends<C: AudioCodec + ?Sized>(
    s: StoreView,
    words: Seq<Seq<char>>,
    spans: Seq<(nat, nat)>,
    replies: Seq<Reply>,
    voice: Seq<char>,
    provider: Seq<char>,
    dict: Dict,
    j: nat,
    k: nat,
    codec: &C,
)
    requires
        j <= k,
    ensures
        extends(
            grown(s, words, spans, replies, voice, provider, dict, j, codec),
            grown(s, words, spans, replies, voice, provider, dict, k, codec),
        ),
    decreases k,
{
    let a = grown(s, words, spans, replies, voice, provider, dict, j, codec);
    if j < k {
        let b = grown(s, words, spans, replies, voice, provider, dict, (k - 1) as nat, codec);
        lemma_grown_extends(
            s,
            words,
            spans,
            replies,
            voice,
            provider,
            dict,
            j,
            (k - 1) as nat,
            codec,
        );
        let u = span_utterance(
            words,
            spans[k - 1],
            replies[k - 1]->Ok_0,
            voice,
            provider,
            dict,
        );
        crate::laws::segmenting_adds_words_and_sounds(b, u, codec);
        lemma_extends_transitive(a, b, segmented(b, u, codec));
    } else {
        assert(a.nodes.take(a.nodes.len() as int) =~= a.nodes);
        assert(a.edges.take(a.edges.len() as int) =~= a.edges);
    }
}

/// What a provider answers for a span of a request is kept: the words of the span
/// are stored one behind the other, with their stretches of the answer, in the
/// voice asked for, and between the words that they stand between in the request.
pub proof fn answers_are_kept_word_by_word<C: AudioCodec + ?Sized>(
    s: StoreView,
    words: Seq<Seq<char>>,
    spans: Seq<(nat, nat)>,
    replies: Seq<Reply>,
    voice: Seq<char>,
    provider: Seq<char>,
    dict: Dict,
    k: int,
    n: nat,
    codec: &C,
) -> (r: (int, Seq<nat>))
    requires
        0 <= k < n <= spans.len(),
        n <= replies.len(),
        replies[k] is Ok,
        spans[k].0 < spans[k].1 <= words.len(),
        1 < total_len(words.subrange(spans[k].0 as int, spans[k].1 as int)) + (spans[k].1
            - spans[k].0) <= usize::MAX + 1,
    ensures
        ({
            let t = grown(s, words, spans, replies, voice, provider, dict, n, codec).nodes;
            let (first, b) = r;
            let (from, to) = (spans[k].0 as int, spans[k].1 as int);
            let part = words.subrange(from, to);
            let u = Utterance {
                words: part,
                phonemes: pronounced(part, dict),
                audio: replies[k]->Ok_0,
                voice,
                provider,
                prev: if from > 0 {
                    Some(words[from - 1])
                } else {
                    None
                },
                next: if to < words.len() {
                    Some(words[to])
                } else {
                    None
                },
                opts: default_options(),
            };
            &&& s.nodes.len() <= first
            &&& first + part.len() <= t.len()
            &&& cuts_up(b, part.len(), u.audio.samples.len())
            &&& forall|i: int|
                0 <= i < part.len() ==> (#[trigger] t[first + i] matches NodeView::Unit(w)
                    && is_word_of(w, u, i, b[i], b[i + 1], codec))
        }),
{
    let before = grown(s, words, spans, replies, voice, provider, dict, k as nat, codec);
    let u = span_utterance(words, spans[k], replies[k]->Ok_0, voice, provider, dict);
    let b = words_keep_their_stretch(before, u, codec);
    let here = segmented(before, u, codec);
    let t = grown(s, words, spans, replies, voice, provider, dict, n, codec);
    lemma_grown_extends(
        s,
        words,
        spans,
        replies,
        voice,
        provider,
        dict,
        (k + 1) as nat,
        n,
        codec,
    );
    lemma_grown_extends(s, words, spans, replies, voice, provider, dict, 0, k as nat, codec);
    let first = before.nodes.len() as int;
    crate::laws::words_come_first(before, u, u.words.len(), codec);
    assert forall|i: int| 0 <= i < u.words.len() implies (#[trigger] t.nodes[first
        + i] matches NodeView::Unit(w) && is_word_of(w, u, i, b[i], b[i + 1], codec)) by {
        segmented_words_are_found(before, u, i, codec);
        assert(here.nodes[before.nodes.len() + i] is Unit);
        lemma_node_kept(here, t, first + i);
    }
    if u.words.len() > 0 {
        segmented_words_are_found(before, u, u.words.len() - 1, codec);
    }
    (first, b)
}

// ---- what follows what ----

/// Whether node `b` follows node `a`.
pub open spec fn follows(s: StoreView, a: int, b: int) -> bool {
    s.edges.contains((NodeId(a as u64), NodeId(b as u64)))
}

proof fn lemma_follows_kept(s: StoreView, t: StoreView, a: int, b: int)
    requires
        follows(s, a, b),
        s.edges.len() <= t.edges.len(),
        t.edges.take(s.edges.len() as int) == s.edges,
    ensures
        follows(t, a, b),
{
    let e = (NodeId(a as u64), NodeId(b as u64));
    let i = choose|i: int| 0 <= i < s.edges.len() && s.edges[i] == e;
    assert(t.edges.take(s.edges.len() as int)[i] == t.edges[i]);
    assert(t.edges[i] == e);
}

proof fn lemma_words_follow<C: AudioCodec + ?Sized>(s: StoreView, u: Utterance, n: nat, codec: &C)
    requires
        s.nodes.len() + n <= u64::MAX,
    ensures
        ({
            let t = words_stored(s, u, n, codec);
            &&& s.edges.len() <= t.edges.len()
            &&& forall|i: int|
                0 < i < n ==> #[trigger] follows(t, s.nodes.len() + i - 1, s.nodes.len() + i)
        }),
    decreases n,
{
    if n > 0 {
        lemma_words_follow(s, u, (n - 1) as nat, codec);
        crate::laws::words_come_first(s, u, (n - 1) as nat, codec);
        let before = words_stored(s, u, (n - 1) as nat, codec);
        let t = words_stored(s, u, n, codec);
        assert(t.edges.take(before.edges.len() as int) =~= before.edges);
        assert forall|i: int| 0 < i < n implies #[trigger] follows(
            t,
            s.nodes.len() + i - 1,
            s.nodes.len() + i,
        ) by {
            if i < n - 1 {
                lemma_follows_kept(before, t, s.nodes.len() + i - 1, s.nodes.len() + i);
            } else {
                assert(t.edges[t.edges.len() - 1] == (
                    NodeId((s.nodes.len() + i - 1) as u64),
                    NodeId((s.nodes.len() + i) as u64),
                ));
            }
        }
    }
}

#[verifier::rlimit(80)]
#[verifier::spinoff_prover]
proof fn lemma_sounds_follow<C: AudioCodec + ?Sized>(
    s: StoreView,
    u: Utterance,
    st: Seq<Sounded>,
    k: nat,
    codec: &C,
)
    requires
        s.nodes.len() + 2 * k <= u64::MAX,
    ensures
        ({
            let r = sounds_stored(s, u, st, k, codec);
            let d = u.opts.diphones;
            let at = s.nodes.len() as int;
            &&& r.store.nodes.len() == at + phoneme_place(d, k as int)
            &&& r.phoneme == (if k > 0 {
                Some(NodeId((at + phoneme_place(d, k - 1)) as u64))
            } else {
                None
            })
            &&& r.diphone == (if d && k > 1 {
                Some(NodeId((at + 2 * (k - 1)) as u64))
            } else {
                None
            })
            &&& s.edges.len() <= r.store.edges.len()
            &&& r.store.edges.take(s.edges.len() as int) == s.edges
            &&& forall|j: int|
                0 < j < k ==> follows(
                    r.store,
                    at + phoneme_place(d, j - 1),
                    at + #[trigger] phoneme_place(d, j),
                )
            &&& d ==> forall|j: int|
                1 < j < k ==> #[trigger] follows(r.store, at + 2 * (j - 1), at + 2 * j)
        }),
    decreases k,
{
    let d = u.opts.diphones;
    let at = s.nodes.len() as int;
    let r = sounds_stored(s, u, st, k, codec);
    if k == 0 {
        assert(r.store.edges.take(s.edges.len() as int) =~= s.edges);
    } else {
        lemma_sounds_follow(s, u, st, (k - 1) as nat, codec);
        let before = sounds_stored(s, u, st, (k - 1) as nat, codec);
        let pid = NodeId(before.store.nodes.len() as u64);
        let heard = linked(
            with_unit(before.store, phoneme_record(u, st, k - 1, codec)),
            before.phoneme,
            pid,
        );
        assert(heard.edges.take(before.store.edges.len() as int) =~= before.store.edges);
        assert(r.store.edges.take(before.store.edges.len() as int) =~= before.store.edges);
        assert(r.store.edges.take(heard.edges.len() as int) =~= heard.edges);
        assert(r.store.edges.take(s.edges.len() as int) =~= before.store.edges.take(
            s.edges.len() as int,
        ));
        assert forall|j: int| 0 < j < k implies follows(
            r.store,
            at + phoneme_place(d, j - 1),
            at + #[trigger] phoneme_place(d, j),
        ) by {
            if j < k - 1 {
                lemma_follows_kept(
                    before.store,
                    r.store,
                    at + phoneme_place(d, j - 1),
                    at + phoneme_place(d, j),
                );
            } else {
                assert(heard.edges[heard.edges.len() - 1] == (
                    NodeId((at + phoneme_place(d, j - 1)) as u64),
                    NodeId((at + phoneme_place(d, j)) as u64),
                ));
                lemma_follows_kept(
                    heard,
                    r.store,
                    at + phoneme_place(d, j - 1),
                    at + phoneme_place(d, j),
                );
            }
        }
        if d {
            assert forall|j: int| 1 < j < k implies #[trigger] follows(
                r.store,
                at + 2 * (j - 1),
                at + 2 * j,
            ) by {
                if j < k - 1 {
                    lemma_follows_kept(before.store, r.store, at + 2 * (j - 1), at + 2 * j);
                } else {
                    assert(r.store.edges[r.store.edges.len() - 1] == (
                        NodeId((at + 2 * (j - 1)) as u64),
                        NodeId((at + 2 * j) as u64),
                    ));
                }
            }
        }
    }
}

/// Every word follows the word before it, every sound the sound before it, and
/// every transition the transition before it.
pub proof fn units_follow_each_other<C: AudioCodec + ?Sized>(
    s: StoreView,
    u: Utterance,
    codec: &C,
)
    requires
        s.nodes.len() + u.words.len() + 2 * sounds(u, u.words.len()).len() <= u64::MAX,
    ensures
        ({
            let t = segmented(s, u, codec);
            let n = sounds(u, u.words.len()).len();
            let at = s.nodes.len() as int;
            let first = at + u.words.len();
            let d = u.opts.diphones;
            &&& forall|i: int| 0 < i < u.words.len() ==> #[trigger] follows(t, at + i - 1, at + i)
            &&& forall|j: int|
                0 < j < n ==> follows(
                    t,
                    first + phoneme_place(d, j - 1),
                    first + #[trigger] phoneme_place(d, j),
                )
            &&& d ==> forall|j: int|
                1 < j < n ==> #[trigger] follows(t, first + 2 * (j - 1), first + 2 * j)
        }),
{
    let n = u.words.len();
    let st = sounds(u, n);
    let w = words_stored(s, u, n, codec);
    let t = segmented(s, u, codec);
    let at = s.nodes.len() as int;
    lemma_words_follow(s, u, n, codec);
    crate::laws::words_come_first(s, u, n, codec);
    lemma_sounds_follow(w, u, st, st.len(), codec);
    assert forall|i: int| 0 < i < n implies #[trigger] follows(t, at + i - 1, at + i) by {
        lemma_follows_kept(w, t, at + i - 1, at + i);
    }
}

// ---- what could not be pronounced ----

/// Whether a word stands among the first `n` without phonemes.
pub open spec fn is_unpronounced(
    words: Seq<Seq<char>>,
    phonemes: Seq<Option<Seq<Seq<char>>>>,
    n: nat,
    word: Seq<char>,
) -> bool {
    exists|i: int| 0 <= i < n && #[trigger] words[i] == word && phonemes[i] is None
}

/// The words that are told as unresolved are those without phonemes, and no
/// others, in the order in which they were spoken.
pub proof fn unresolved_words_are_told(
    words: Seq<Seq<char>>,
    phonemes: Seq<Option<Seq<Seq<char>>>>,
    n: nat,
)
    ensures
        forall|i: int|
            0 <= i < n && phonemes[i] is None ==> unresolved(words, phonemes, n).contains(
                #[trigger] words[i],
            ),
        forall|k: int|
            0 <= k < unresolved(words, phonemes, n).len() ==> is_unpronounced(
                words,
                phonemes,
                n,
                #[trigger] unresolved(words, phonemes, n)[k],
            ),
        n > 0 && phonemes[n - 1] is None ==> unresolved(words, phonemes, n).last() == words[n - 1],
    decreases n,
{
    let now = unresolved(words, phonemes, n);
    if n > 0 {
        unresolved_words_are_told(words, phonemes, (n - 1) as nat);
        let before = unresolved(words, phonemes, (n - 1) as nat);
        assert forall|i: int| 0 <= i < n && phonemes[i] is None implies now.contains(
            #[trigger] words[i],
        ) by {
            if i < n - 1 {
                let k = choose|k: int| 0 <= k < before.len() && before[k] == words[i];
                assert(now[k] == words[i]);
            } else {
                assert(now[now.len() - 1] == words[i]);
            }
        }
        assert forall|k: int| 0 <= k < now.len() implies is_unpronounced(
            words,
            phonemes,
            n,
            #[trigger] now[k],
        ) by {
            if k < before.len() {
                assert(now[k] == before[k]);
                assert(is_unpronounced(words, phonemes, (n - 1) as nat, before[k]));
                let i = choose|i: int|
                    0 <= i < n - 1 && #[trigger] words[i] == before[k] && phonemes[i] is None;
                assert(words[i] == now[k]);
            } else {
                assert(words[n - 1] == now[k]);
            }
        }
    }
}

} // verus!
