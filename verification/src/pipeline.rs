//! Ingest and compose pipelines.
//!
//! Ingest decomposes a text with its audio into a phrase unit, word units,
//! phoneme units and diphone units. Compose resolves a request against the
//! cache at the highest available level (longest phrase, exact word, segment
//! of a longer word), synthesizes only the missing spans, splices everything,
//! and grows the cache with what was freshly generated.

use crate::align::{
    covering, phoneme_bounds, phoneme_spans, phonemes_cover_the_word, span_pairs, spans_between,
    word_bounds, word_spans, words_cover_the_audio, AlignMode, Span,
};
use crate::audio::{copy_samples, WavAudio, WavView};
use crate::codec::AudioCodec;
use crate::error::{ErrorView, MimicError, Result};
use crate::g2p::{base_of, opt_texts, pronunciation, G2p};
use crate::measure::level;
use crate::store::{
    opt_bytes, opt_text, with_edge, with_node, with_unit, MimicStore, NodeId, NodeView, Recorded,
    StoreView,
};
use crate::text::{join_words, spoken, texts, total_len};
use crate::units::{normalize, normalized, tokenize, tokens, tokens_are_not_empty, UnitLevel};
use vstd::prelude::*;
use vstd::string::*;

pub use crate::compose::compose;
pub use crate::report::ComposeReport;

verus! {

/// What an ingest stored.
#[derive(Debug)]
pub struct IngestReport {
    pub phrase_units: usize,
    pub word_units: usize,
    pub phoneme_units: usize,
    /// Words for which no phonemes could be resolved.
    pub unresolved_words: Vec<String>,
}

/// Ingest behavior knobs.
#[derive(Debug, Clone, Copy)]
pub struct IngestOptions {
    pub align: AlignMode,
    /// Insert phoneme-level units (requires a dictionary).
    pub phonemes: bool,
    /// Insert diphone transition units (requires `phonemes`).
    pub diphones: bool,
    /// Store codec token streams inline.
    pub codec_tokens: bool,
    /// Also write per-unit wav files.
    pub write_wav: bool,
    /// Search window for phoneme refinement inside words, in nanoseconds.
    pub phoneme_search_ns: u64,
}

/// Aligned, phonemes, diphones, codec tokens, no wav files.
pub open spec fn default_options() -> IngestOptions {
    IngestOptions {
        align: AlignMode::EnergyRefined { search_ns: 100_000_000 },
        phonemes: true,
        diphones: true,
        codec_tokens: true,
        write_wav: false,
        phoneme_search_ns: 25_000_000,
    }
}

impl Default for IngestOptions {
    fn default() -> (r: IngestOptions)
        ensures
            r == default_options(),
    {
        IngestOptions {
            align: AlignMode::EnergyRefined { search_ns: 100_000_000 },
            phonemes: true,
            diphones: true,
            codec_tokens: true,
            write_wav: false,
            phoneme_search_ns: 25_000_000,
        }
    }
}

impl IngestOptions {
    /// Proportional segmentation, no phoneme units, wav files.
    pub fn v1() -> (r: IngestOptions)
        ensures
            r == (IngestOptions {
                align: AlignMode::Proportional,
                phonemes: false,
                diphones: false,
                codec_tokens: false,
                write_wav: true,
                phoneme_search_ns: 0,
            }),
    {
        IngestOptions {
            align: AlignMode::Proportional,
            phonemes: false,
            diphones: false,
            codec_tokens: false,
            write_wav: true,
            phoneme_search_ns: 0,
        }
    }

    /// Alignment and phonemes, no diphone inventory, wav files.
    pub fn p1_legacy() -> (r: IngestOptions)
        ensures
            r == (IngestOptions {
                diphones: false,
                codec_tokens: false,
                write_wav: true,
                ..default_options()
            }),
    {
        IngestOptions {
            align: AlignMode::EnergyRefined { search_ns: 100_000_000 },
            phonemes: true,
            diphones: false,
            codec_tokens: false,
            write_wav: true,
            phoneme_search_ns: 25_000_000,
        }
    }

    /// Diphone inventory, but PCM files instead of tokens.
    pub fn p3_legacy() -> (r: IngestOptions)
        ensures
            r == (IngestOptions { codec_tokens: false, write_wav: true, ..default_options() }),
    {
        IngestOptions {
            align: AlignMode::EnergyRefined { search_ns: 100_000_000 },
            phonemes: true,
            diphones: true,
            codec_tokens: false,
            write_wav: true,
            phoneme_search_ns: 25_000_000,
        }
    }
}

// ---- segmentation ----

/// The phonemes of each word, where they could be resolved.
pub open spec fn phoneme_lists(v: Seq<Option<Vec<String>>>) -> Seq<Option<Seq<Seq<char>>>> {
    Seq::new(v.len(), |i: int| opt_texts(v[i]))
}

/// Words with the audio they were spoken in.
pub struct Utterance {
    pub words: Seq<Seq<char>>,
    pub phonemes: Seq<Option<Seq<Seq<char>>>>,
    pub audio: WavView,
    pub voice: Seq<char>,
    pub provider: Seq<char>,
    pub prev: Option<Seq<char>>,
    pub next: Option<Seq<char>>,
    pub opts: IngestOptions,
}

/// Words that can be aligned: as many phoneme lists as words, some text in
/// them, and weights that fit a machine word.
pub open spec fn alignable(u: Utterance) -> bool {
    &&& u.words.len() == u.phonemes.len()
    &&& u.words.len() > 0
    &&& 1 < total_len(u.words) + u.words.len() <= usize::MAX + 1
}

/// The part of the audio from sample `s` to sample `e`.
pub open spec fn cut(a: WavView, s: nat, e: nat) -> WavView {
    WavView { samples: a.samples.subrange(s as int, e as int), sample_rate: a.sample_rate }
}

/// The boundaries of the words.
pub open spec fn bounds_of(u: Utterance) -> Seq<nat> {
    word_bounds(u.audio.samples, u.audio.sample_rate, u.words, u.opts.align)
}

/// The audio of word `i`.
pub open spec fn word_audio(u: Utterance, i: int) -> WavView {
    cut(u.audio, bounds_of(u)[i], bounds_of(u)[i + 1])
}

/// The token stream that is stored with audio.
pub open spec fn stored_tokens<C: AudioCodec + ?Sized>(
    opts: IngestOptions,
    audio: WavView,
    codec: &C,
) -> Option<Seq<u8>> {
    if opts.codec_tokens {
        Some(codec.encoded(audio))
    } else {
        None
    }
}

/// What is recorded of a part of an utterance.
pub open spec fn record<C: AudioCodec + ?Sized>(
    u: Utterance,
    level: UnitLevel,
    text: Seq<char>,
    phonemes: Seq<char>,
    audio: WavView,
    prev: Option<Seq<char>>,
    next: Option<Seq<char>>,
    codec: &C,
) -> Recorded {
    Recorded {
        level,
        text,
        phonemes,
        voice: u.voice,
        audio,
        tokens: stored_tokens(u.opts, audio, codec),
        write_wav: u.opts.write_wav,
        prev,
        next,
        provider: u.provider,
    }
}

/// What is recorded of word `i`: its phonemes, or the word itself where they
/// are not known, and its neighbours.
pub open spec fn word_record<C: AudioCodec + ?Sized>(u: Utterance, i: int, codec: &C) -> Recorded {
    record(
        u,
        UnitLevel::Word,
        u.words[i],
        match u.phonemes[i] {
            Some(p) => spoken(p),
            None => u.words[i],
        },
        word_audio(u, i),
        if i > 0 {
            Some(u.words[i - 1])
        } else {
            u.prev
        },
        if i + 1 < u.words.len() {
            Some(u.words[i + 1])
        } else {
            u.next
        },
        codec,
    )
}

/// The store after the first `n` words, each linked to the one before it.
pub open spec fn words_stored<C: AudioCodec + ?Sized>(
    s: StoreView,
    u: Utterance,
    n: nat,
    codec: &C,
) -> StoreView
    decreases n,
{
    if n == 0 {
        s
    } else {
        let before = words_stored(s, u, (n - 1) as nat, codec);
        let here = before.nodes.len();
        let stored = with_unit(before, word_record(u, n - 1, codec));
        if n == 1 {
            stored
        } else {
            with_edge(stored, NodeId((here - 1) as u64), NodeId(here as u64))
        }
    }
}

/// A phoneme and where it sounds in the utterance.
pub struct Sounded {
    pub phoneme: Seq<char>,
    pub start: nat,
    pub end: nat,
}

/// The phonemes of word `i` with their places.
pub open spec fn word_sounds(u: Utterance, i: int) -> Seq<Sounded> {
    match u.phonemes[i] {
        None => Seq::empty(),
        Some(p) => {
            let from = bounds_of(u)[i];
            let a = word_audio(u, i);
            let b = phoneme_bounds(a.samples, a.sample_rate, p.len(), u.opts.phoneme_search_ns);
            Seq::new(
                p.len(),
                |j: int| Sounded { phoneme: p[j], start: from + b[j], end: from + b[j + 1] },
            )
        },
    }
}

/// The phonemes of the first `n` words with their places.
pub open spec fn sounds(u: Utterance, n: nat) -> Seq<Sounded>
    decreases n,
{
    if n == 0 {
        Seq::empty()
    } else {
        sounds(u, (n - 1) as nat) + word_sounds(u, n - 1)
    }
}

/// What is recorded of phoneme `k`: its neighbours may stand in other words.
pub open spec fn phoneme_record<C: AudioCodec + ?Sized>(
    u: Utterance,
    st: Seq<Sounded>,
    k: int,
    codec: &C,
) -> Recorded {
    record(
        u,
        UnitLevel::Phoneme,
        st[k].phoneme,
        st[k].phoneme,
        cut(u.audio, st[k].start, st[k].end),
        if k > 0 {
            Some(st[k - 1].phoneme)
        } else {
            None
        },
        if k + 1 < st.len() {
            Some(st[k + 1].phoneme)
        } else {
            None
        },
        codec,
    )
}

/// The middle of a phoneme.
pub open spec fn middle(s: Sounded) -> nat {
    (s.start + s.end) / 2
}

/// The key of a diphone: the stress-stripped phonemes on either side.
pub open spec fn diphone_key(left: Seq<char>, right: Seq<char>) -> Seq<char> {
    base_of(left) + "+"@ + base_of(right)
}

/// What is recorded of the transition into phoneme `k`: from the middle of the
/// phoneme before it to its own.
pub open spec fn diphone_record<C: AudioCodec + ?Sized>(
    u: Utterance,
    st: Seq<Sounded>,
    k: int,
    codec: &C,
) -> Recorded {
    record(
        u,
        UnitLevel::Diphone,
        diphone_key(st[k - 1].phoneme, st[k].phoneme),
        st[k - 1].phoneme + " "@ + st[k].phoneme,
        cut(u.audio, middle(st[k - 1]), middle(st[k])),
        if k > 1 {
            Some(st[k - 2].phoneme)
        } else {
            None
        },
        if k + 1 < st.len() {
            Some(st[k + 1].phoneme)
        } else {
            None
        },
        codec,
    )
}

/// A store while phonemes are added: the last phoneme and the last diphone.
#[verifier::ext_equal]
pub struct Sounding {
    pub store: StoreView,
    pub phoneme: Option<NodeId>,
    pub diphone: Option<NodeId>,
}

/// A store with an edge from `prev`, where there is one, to `next`.
pub open spec fn linked(s: StoreView, prev: Option<NodeId>, next: NodeId) -> StoreView {
    match prev {
        Some(p) => with_edge(s, p, next),
        None => s,
    }
}

/// The store after the first `k` phonemes: each linked to the one before it,
/// and each followed by the diphone that leads into it, itself linked to the
/// diphone before.
pub open spec fn sounds_stored<C: AudioCodec + ?Sized>(
    s: StoreView,
    u: Utterance,
    st: Seq<Sounded>,
    k: nat,
    codec: &C,
) -> Sounding
    decreases k,
{
    if k == 0 {
        Sounding { store: s, phoneme: None, diphone: None }
    } else {
        let before = sounds_stored(s, u, st, (k - 1) as nat, codec);
        let pid = NodeId(before.store.nodes.len() as u64);
        let heard = linked(
            with_unit(before.store, phoneme_record(u, st, k - 1, codec)),
            before.phoneme,
            pid,
        );
        if u.opts.diphones && k > 1 {
            let did = NodeId(heard.nodes.len() as u64);
            Sounding {
                store: linked(
                    with_unit(heard, diphone_record(u, st, k - 1, codec)),
                    before.diphone,
                    did,
                ),
                phoneme: Some(pid),
                diphone: Some(did),
            }
        } else {
            Sounding { store: heard, phoneme: Some(pid), diphone: before.diphone }
        }
    }
}

/// The store after an utterance: its words, then its phonemes and diphones.
pub open spec fn segmented<C: AudioCodec + ?Sized>(
    s: StoreView,
    u: Utterance,
    codec: &C,
) -> StoreView {
    let st = sounds(u, u.words.len());
    sounds_stored(words_stored(s, u, u.words.len(), codec), u, st, st.len(), codec).store
}

/// Sounds in order, within audio of `total` samples.
pub open spec fn in_order(st: Seq<Sounded>, total: nat) -> bool {
    &&& forall|i: int|
        0 <= i < st.len() ==> (#[trigger] st[i]).start <= st[i].end && st[i].end <= total
    &&& forall|i: int, j: int|
        0 <= i < j < st.len() ==> (#[trigger] st[i]).end <= (#[trigger] st[j]).start
}

/// The sounds of one word are in order and within the word.
proof fn lemma_word_sounds(u: Utterance, i: int)
    requires
        alignable(u),
        0 <= i < u.words.len(),
    ensures
        in_order(word_sounds(u, i), bounds_of(u)[i + 1]),
        forall|j: int|
            0 <= j < word_sounds(u, i).len() ==> bounds_of(u)[i] <= (#[trigger] word_sounds(
                u,
                i,
            )[j]).start,
        bounds_of(u)[i] <= bounds_of(u)[i + 1] <= u.audio.samples.len(),
{
    words_cover_the_audio(u.audio.samples, u.audio.sample_rate, u.words, u.opts.align);
    let b = bounds_of(u);
    assert(b[i] <= b[i + 1]);
    assert(b[i + 1] <= u.audio.samples.len());
    if let Some(p) = u.phonemes[i] {
        if p.len() > 0 {
            let a = word_audio(u, i);
            phonemes_cover_the_word(
                a.samples,
                a.sample_rate,
                p.len(),
                u.opts.phoneme_search_ns,
            );
            let pb = phoneme_bounds(a.samples, a.sample_rate, p.len(), u.opts.phoneme_search_ns);
            let st = word_sounds(u, i);
            assert forall|j: int| 0 <= j < st.len() implies (#[trigger] st[j]).start <= st[j].end
                && st[j].end <= b[i + 1] by {
                assert(pb[j] <= pb[j + 1]);
                assert(pb[j + 1] <= a.samples.len());
            }
            assert forall|j: int, k: int| 0 <= j < k < st.len() implies (#[trigger] st[j]).end <= (
            #[trigger] st[k]).start by {
                assert(pb[j + 1] <= pb[k]);
            }
        }
    }
}

/// The sounds of an utterance are in order and within its audio.
proof fn lemma_sounds_in_order(u: Utterance, n: nat)
    requires
        alignable(u),
        n <= u.words.len(),
    ensures
        in_order(sounds(u, n), bounds_of(u)[n as int]),
        bounds_of(u)[n as int] <= u.audio.samples.len(),
    decreases n,
{
    words_cover_the_audio(u.audio.samples, u.audio.sample_rate, u.words, u.opts.align);
    let b = bounds_of(u);
    assert(b[n as int] <= u.audio.samples.len());
    if n > 0 {
        lemma_sounds_in_order(u, (n - 1) as nat);
        lemma_word_sounds(u, n - 1);
        let before = sounds(u, (n - 1) as nat);
        let here = word_sounds(u, n - 1);
        let st = sounds(u, n);
        assert(b[n - 1] <= b[n as int]);
        assert forall|i: int| 0 <= i < st.len() implies (#[trigger] st[i]).start <= st[i].end
            && st[i].end <= b[n as int] by {
            if i < before.len() {
                assert(st[i] == before[i]);
            } else {
                assert(st[i] == here[i - before.len()]);
            }
        }
        assert forall|i: int, j: int| 0 <= i < j < st.len() implies (#[trigger] st[i]).end <= (
        #[trigger] st[j]).start by {
            if j < before.len() {
                assert(st[i] == before[i] && st[j] == before[j]);
            } else if i < before.len() {
                assert(st[i] == before[i] && st[j] == here[j - before.len()]);
            } else {
                assert(st[i] == here[i - before.len()] && st[j] == here[j - before.len()]);
            }
        }
    }
}

/// A phoneme and where it sounds in the utterance.
struct Sound {
    phoneme: String,
    start: usize,
    end: usize,
}

spec fn sound_views(v: Seq<Sound>) -> Seq<Sounded> {
    Seq::new(
        v.len(),
        |i: int|
            Sounded {
                phoneme: v[i].phoneme@,
                start: v[i].start as nat,
                end: v[i].end as nat,
            },
    )
}

/// The part of the audio from sample `s` to sample `e`.
fn cut_audio(a: &WavAudio, s: usize, e: usize) -> (r: WavAudio)
    requires
        s <= e <= a@.samples.len(),
    ensures
        r@ == cut(a@, s as nat, e as nat),
{
    WavAudio::new(copy_samples(&a.samples, s, e), a.sample_rate)
}

fn tokens_for<C: AudioCodec + ?Sized>(
    opts: &IngestOptions,
    audio: &WavAudio,
    codec: &C,
) -> (r: Option<Vec<u8>>)
    ensures
        opt_bytes(r) == stored_tokens(*opts, audio@, codec),
{
    if opts.codec_tokens {
        Some(codec.encode(audio))
    } else {
        None
    }
}

/// The utterance that the arguments of an ingest describe.
pub open spec fn utterance(
    words: Seq<String>,
    phonemes: Seq<Option<Vec<String>>>,
    audio: WavView,
    voice: Seq<char>,
    provider: Seq<char>,
    prev: Option<Seq<char>>,
    next: Option<Seq<char>>,
    opts: IngestOptions,
) -> Utterance {
    Utterance {
        words: texts(words),
        phonemes: phoneme_lists(phonemes),
        audio,
        voice,
        provider,
        prev,
        next,
        opts,
    }
}

/// The numbers that the next `n` nodes of a store get.
pub open spec fn next_ids(s: StoreView, n: nat) -> Seq<NodeId> {
    Seq::new(n, |i: int| NodeId((s.nodes.len() + i) as u64))
}

/// Appends the phonemes of one word with their places.
fn append_sounds(
    stream: &mut Vec<Sound>,
    phonemes: &Vec<String>,
    spans: &Vec<Span>,
    from: usize,
    seg: &WavAudio,
    search_ns: u64,
)
    requires
        phonemes@.len() > 0,
        from + seg@.samples.len() <= usize::MAX,
        span_pairs(spans@) == spans_between(
            phoneme_bounds(seg@.samples, seg@.sample_rate, phonemes@.len(), search_ns),
        ),
    ensures
        ({
            let b = phoneme_bounds(seg@.samples, seg@.sample_rate, phonemes@.len(), search_ns);
            sound_views(final(stream)@) == sound_views(old(stream)@) + Seq::new(
                phonemes@.len(),
                |j: int|
                    Sounded {
                        phoneme: texts(phonemes@)[j],
                        start: from as nat + b[j],
                        end: from as nat + b[j + 1],
                    },
            )
        }),
{
    let ghost b = phoneme_bounds(seg@.samples, seg@.sample_rate, phonemes@.len(), search_ns);
    proof {
        phonemes_cover_the_word(seg@.samples, seg@.sample_rate, phonemes@.len(), search_ns);
        assert(span_pairs(spans@).len() == spans@.len());
    }
    let n: usize = phonemes.len();
    let mut j: usize = 0;
    let ghost first = stream@;
    while j < n
        invariant
            n == phonemes@.len(),
            from + seg@.samples.len() <= usize::MAX,
            b == phoneme_bounds(seg@.samples, seg@.sample_rate, n as nat, search_ns),
            b.len() == n + 1,
            covering(b, seg@.samples.len()),
            spans@.len() == n,
            span_pairs(spans@) == spans_between(b),
            j <= n,
            stream@.len() == first.len() + j,
            forall|k: int| 0 <= k < first.len() ==> stream@[k] == first[k],
            forall|k: int|
                0 <= k < j ==> (#[trigger] stream@[first.len() + k]).phoneme@ == phonemes@[k]@
                    && stream@[first.len() + k].start == from + b[k] && stream@[first.len() + k].end
                    == from + b[k + 1],
        decreases n - j,
    {
        proof {
            assert(span_pairs(spans@)[j as int] == spans_between(b)[j as int]);
            assert(b[j as int] <= seg@.samples.len());
            assert(b[j + 1] <= seg@.samples.len());
        }
        let sp: Span = spans[j];
        stream.push(
            Sound { phoneme: phonemes[j].clone(), start: from + sp.start, end: from + sp.end },
        );
        j += 1;
    }
    assert(sound_views(stream@) =~= sound_views(first) + Seq::new(
        n as nat,
        |k: int|
            Sounded {
                phoneme: texts(phonemes@)[k],
                start: from as nat + b[k],
                end: from as nat + b[k + 1],
            },
    )) by {
        assert forall|k: int| 0 <= k < n implies (#[trigger] stream@[first.len() + k]).phoneme@
            == phonemes@[k]@ by {}
        assert forall|i: int| first.len() <= i < stream@.len() implies #[trigger] stream@[i]
            == stream@[first.len() + (i - first.len())] by {}
    }
}

/// Stores the words of an utterance, and returns their numbers and the stream
/// of their phonemes.
fn store_words<C: AudioCodec + ?Sized>(
    store: &mut MimicStore,
    words: &Vec<String>,
    word_phonemes: &Vec<Option<Vec<String>>>,
    audio: &WavAudio,
    voice: &str,
    provider: &str,
    outer_prev: Option<&str>,
    outer_next: Option<&str>,
    opts: &IngestOptions,
    codec: &C,
) -> (r: (Vec<NodeId>, Vec<Sound>))
    requires
        alignable(
            utterance(
                words@,
                word_phonemes@,
                audio@,
                voice@,
                provider@,
                opt_text(outer_prev),
                opt_text(outer_next),
                *opts,
            ),
        ),
    ensures
        ({
            let u = utterance(
                words@,
                word_phonemes@,
                audio@,
                voice@,
                provider@,
                opt_text(outer_prev),
                opt_text(outer_next),
                *opts,
            );
            &&& final(store)@ == words_stored(old(store)@, u, u.words.len(), codec)
            &&& r.0@ == next_ids(old(store)@, u.words.len())
            &&& sound_views(r.1@) == sounds(u, u.words.len())
        }),
{
    let ghost u = utterance(
        words@,
        word_phonemes@,
        audio@,
        voice@,
        provider@,
        opt_text(outer_prev),
        opt_text(outer_next),
        *opts,
    );
    let ghost b = bounds_of(u);
    let ghost first = store@;
    let spans = word_spans(audio, words.as_slice(), opts.align);
    proof {
        words_cover_the_audio(u.audio.samples, u.audio.sample_rate, u.words, u.opts.align);
        assert(span_pairs(spans@).len() == spans@.len());
    }
    let n: usize = words.len();
    let mut ids: Vec<NodeId> = Vec::new();
    let mut stream: Vec<Sound> = Vec::new();
    let mut i: usize = 0;
    assert(sound_views(stream@) =~= sounds(u, 0));
    while i < n
        invariant
            n == words@.len(),
            alignable(u),
            u == utterance(
                words@,
                word_phonemes@,
                audio@,
                voice@,
                provider@,
                opt_text(outer_prev),
                opt_text(outer_next),
                *opts,
            ),
            b == bounds_of(u),
            b.len() == n + 1,
            covering(b, audio@.samples.len()),
            spans@.len() == n,
            span_pairs(spans@) == spans_between(b),
            i <= n,
            store@ == words_stored(first, u, i as nat, codec),
            store@.nodes.len() == first.nodes.len() + i,
            ids@ == next_ids(first, i as nat),
            sound_views(stream@) == sounds(u, i as nat),
        decreases n - i,
    {
        proof {
            assert(span_pairs(spans@)[i as int] == spans_between(b)[i as int]);
            assert(b[i as int] <= b[i + 1]);
            assert(b[i + 1] <= audio@.samples.len());
            assert(u.words[i as int] == words@[i as int]@);
            assert(u.phonemes[i as int] == opt_texts(word_phonemes@[i as int]));
        }
        let span: Span = spans[i];
        let seg = cut_audio(audio, span.start, span.end);
        assert(seg@ == word_audio(u, i as int));
        let prev: Option<&str> = if i > 0 {
            Some(words[i - 1].as_str())
        } else {
            outer_prev
        };
        let next: Option<&str> = if n - i > 1 {
            Some(words[i + 1].as_str())
        } else {
            outer_next
        };
        let phonemes: String = match &word_phonemes[i] {
            Some(p) => {
                let joined = join_words(p, 0, p.len());
                assert(texts(p@).subrange(0, p@.len() as int) =~= texts(p@));
                joined
            },
            None => words[i].clone(),
        };
        let toks = tokens_for(opts, &seg, codec);
        let ghost before = store@;
        let id = store.insert_unit(
            UnitLevel::Word,
            words[i].as_str(),
            phonemes.as_str(),
            voice,
            &seg,
            toks,
            opts.write_wav,
            prev,
            next,
            provider,
        );
        assert(store@ == with_unit(before, word_record(u, i as int, codec)));
        if i > 0 {
            let last: NodeId = ids[i - 1];
            store.add_follows(last, id);
        }
        ids.push(id);
        assert(ids@ =~= next_ids(first, (i + 1) as nat));
        if let Some(p) = &word_phonemes[i] {
            if p.len() > 0 {
                let pspans = phoneme_spans(&seg, p.len(), opts.phoneme_search_ns);
                append_sounds(&mut stream, p, &pspans, span.start, &seg, opts.phoneme_search_ns);
                assert(sound_views(stream@) =~= sounds(u, i as nat) + word_sounds(u, i as int));
            } else {
                assert(word_sounds(u, i as int) =~= Seq::<Sounded>::empty());
                assert(sounds(u, (i + 1) as nat) =~= sounds(u, i as nat));
            }
        } else {
            assert(sounds(u, (i + 1) as nat) =~= sounds(u, i as nat));
        }
        i += 1;
    }
    (ids, stream)
}

/// Links `next` to the node before it, where there is one.
fn link(store: &mut MimicStore, prev: Option<NodeId>, next: NodeId)
    ensures
        final(store)@ == linked(old(store)@, prev, next),
{
    if let Some(p) = prev {
        store.add_follows(p, next);
    }
}

fn phoneme_text(stream: &Vec<Sound>, i: usize) -> (r: Option<&str>)
    ensures
        opt_text(r) == (if i < stream@.len() {
            Some(sound_views(stream@)[i as int].phoneme)
        } else {
            None
        }),
{
    if i < stream.len() {
        Some(stream[i].phoneme.as_str())
    } else {
        None
    }
}

/// Stores the phonemes and diphones of an utterance.
fn store_sounds<C: AudioCodec + ?Sized>(
    store: &mut MimicStore,
    stream: &Vec<Sound>,
    audio: &WavAudio,
    voice: &str,
    provider: &str,
    opts: &IngestOptions,
    codec: &C,
    u: Ghost<Utterance>,
)
    requires
        u@.audio == audio@,
        u@.voice == voice@,
        u@.provider == provider@,
        u@.opts == *opts,
        in_order(sound_views(stream@), audio@.samples.len()),
    ensures
        final(store)@ == sounds_stored(
            old(store)@,
            u@,
            sound_views(stream@),
            stream@.len(),
            codec,
        ).store,
{
    let ghost st = sound_views(stream@);
    let ghost first = store@;
    let n: usize = stream.len();
    let mut last_phoneme: Option<NodeId> = None;
    let mut last_diphone: Option<NodeId> = None;
    let mut k: usize = 0;
    while k < n
        invariant
            n == stream@.len(),
            st == sound_views(stream@),
            u@.audio == audio@,
            u@.voice == voice@,
            u@.provider == provider@,
            u@.opts == *opts,
            in_order(st, audio@.samples.len()),
            k <= n,
            sounds_stored(first, u@, st, k as nat, codec) == (Sounding {
                store: store@,
                phoneme: last_phoneme,
                diphone: last_diphone,
            }),
        decreases n - k,
    {
        let ghost before = store@;
        assert(st[k as int].start <= st[k as int].end);
        let seg = cut_audio(audio, stream[k].start, stream[k].end);
        let prev: Option<&str> = if k > 0 {
            phoneme_text(stream, k - 1)
        } else {
            None
        };
        let next: Option<&str> = phoneme_text(stream, k + 1);
        let toks = tokens_for(opts, &seg, codec);
        let text: &str = stream[k].phoneme.as_str();
        let pid = store.insert_unit(
            UnitLevel::Phoneme,
            text,
            text,
            voice,
            &seg,
            toks,
            opts.write_wav,
            prev,
            next,
            provider,
        );
        assert(store@ == with_unit(before, phoneme_record(u@, st, k as int, codec)));
        link(store, last_phoneme, pid);
        let ghost heard = store@;
        if opts.diphones && k > 0 {
            proof {
                assert(st[k - 1].start <= st[k - 1].end);
                assert(st[k - 1].end <= st[k as int].start);
                assert(st[k as int].end <= audio@.samples.len());
            }
            let left: &Sound = &stream[k - 1];
            let right: &Sound = &stream[k];
            let start: usize = left.start + (left.end - left.start) / 2;
            let end: usize = right.start + (right.end - right.start) / 2;
            let dseg = cut_audio(audio, start, end);
            let mut key = G2p::base(left.phoneme.as_str()).to_owned();
            key.append("+");
            key.append(G2p::base(right.phoneme.as_str()));
            let mut full = left.phoneme.clone();
            full.append(" ");
            full.append(right.phoneme.as_str());
            let dprev: Option<&str> = if k > 1 {
                phoneme_text(stream, k - 2)
            } else {
                None
            };
            let dtoks = tokens_for(opts, &dseg, codec);
            let did = store.insert_unit(
                UnitLevel::Diphone,
                key.as_str(),
                full.as_str(),
                voice,
                &dseg,
                dtoks,
                opts.write_wav,
                dprev,
                next,
                provider,
            );
            assert(store@ == with_unit(heard, diphone_record(u@, st, k as int, codec)));
            link(store, last_diphone, did);
            last_diphone = Some(did);
        }
        last_phoneme = Some(pid);
        k += 1;
    }
}

/// Stores the words of an utterance with their phonemes and the transitions
/// between them. Word spans come from the aligner. Phoneme context crosses
/// word boundaries. Returns the numbers of the word units and the number of
/// phoneme units.
pub fn segment_and_store_words<C: AudioCodec + ?Sized>(
    store: &mut MimicStore,
    words: &Vec<String>,
    word_phonemes: &Vec<Option<Vec<String>>>,
    audio: &WavAudio,
    voice: &str,
    provider: &str,
    outer_prev: Option<&str>,
    outer_next: Option<&str>,
    opts: &IngestOptions,
    codec: &C,
) -> (r: (Vec<NodeId>, usize))
    requires
        alignable(
            utterance(
                words@,
                word_phonemes@,
                audio@,
                voice@,
                provider@,
                opt_text(outer_prev),
                opt_text(outer_next),
                *opts,
            ),
        ),
    ensures
        ({
            let u = utterance(
                words@,
                word_phonemes@,
                audio@,
                voice@,
                provider@,
                opt_text(outer_prev),
                opt_text(outer_next),
                *opts,
            );
            &&& final(store)@ == segmented(old(store)@, u, codec)
            &&& r.0@ == next_ids(old(store)@, u.words.len())
            &&& r.1 == sounds(u, u.words.len()).len()
        }),
{
    let ghost u = utterance(
        words@,
        word_phonemes@,
        audio@,
        voice@,
        provider@,
        opt_text(outer_prev),
        opt_text(outer_next),
        *opts,
    );
    let (ids, stream) = store_words(
        store,
        words,
        word_phonemes,
        audio,
        voice,
        provider,
        outer_prev,
        outer_next,
        opts,
        codec,
    );
    proof {
        lemma_sounds_in_order(u, u.words.len());
        words_cover_the_audio(u.audio.samples, u.audio.sample_rate, u.words, u.opts.align);
        assert(sound_views(stream@).len() == stream@.len());
    }
    store_sounds(store, &stream, audio, voice, provider, opts, codec, Ghost(u));
    (ids, stream.len())
}

// ---- ingest ----

/// The entries of an optional dictionary.
pub open spec fn opt_dict(g: Option<&G2p>) -> Option<Map<Seq<char>, Seq<Seq<char>>>> {
    match g {
        Some(g) => Some(g@),
        None => None,
    }
}

/// The phonemes of each word, none without a dictionary.
pub open spec fn pronounced(
    words: Seq<Seq<char>>,
    dict: Option<Map<Seq<char>, Seq<Seq<char>>>>,
) -> Seq<Option<Seq<Seq<char>>>> {
    Seq::new(
        words.len(),
        |i: int|
            match dict {
                Some(m) => pronunciation(m, words[i]),
                None => None,
            },
    )
}

/// The phonemes of the words `start..end`.
pub fn pronounce(words: &Vec<String>, g2p: Option<&G2p>) -> (r: Vec<Option<Vec<String>>>)
    ensures
        phoneme_lists(r@) == pronounced(texts(words@), opt_dict(g2p)),
{
    let mut out: Vec<Option<Vec<String>>> = Vec::new();
    let mut i: usize = 0;
    while i < words.len()
        invariant
            i <= words@.len(),
            out@.len() == i,
            forall|k: int|
                0 <= k < i ==> opt_texts(#[trigger] out@[k]) == pronounced(
                    texts(words@),
                    opt_dict(g2p),
                )[k],
        decreases words@.len() - i,
    {
        let p: Option<Vec<String>> = match g2p {
            Some(g) => g.phonemes(words[i].as_str()),
            None => None,
        };
        out.push(p);
        i += 1;
    }
    assert(phoneme_lists(out@) =~= pronounced(texts(words@), opt_dict(g2p)));
    out
}

/// The words among the first `n` without phonemes.
pub open spec fn unresolved(
    words: Seq<Seq<char>>,
    phonemes: Seq<Option<Seq<Seq<char>>>>,
    n: nat,
) -> Seq<Seq<char>>
    decreases n,
{
    if n == 0 {
        Seq::empty()
    } else if phonemes[n - 1] is None {
        unresolved(words, phonemes, (n - 1) as nat).push(words[n - 1])
    } else {
        unresolved(words, phonemes, (n - 1) as nat)
    }
}

/// The utterance that an ingest stores.
pub open spec fn ingested_utterance(
    text: Seq<char>,
    audio: WavView,
    voice: Seq<char>,
    provider: Seq<char>,
    opts: IngestOptions,
    dict: Option<Map<Seq<char>, Seq<Seq<char>>>>,
) -> Utterance {
    Utterance {
        words: tokens(text),
        phonemes: pronounced(
            tokens(text),
            if opts.phonemes {
                dict
            } else {
                None
            },
        ),
        audio,
        voice,
        provider,
        prev: None,
        next: None,
        opts,
    }
}

/// The store after an ingest: the phrase, its words and sounds, and the voice.
pub open spec fn ingested<C: AudioCodec + ?Sized>(
    s: StoreView,
    text: Seq<char>,
    u: Utterance,
    codec: &C,
) -> StoreView {
    let phrase = record(
        u,
        UnitLevel::Phrase,
        normalized(text),
        normalized(text),
        u.audio,
        None,
        None,
        codec,
    );
    with_node(
        segmented(with_unit(s, phrase), u, codec),
        NodeView::VoiceDna {
            voice: u.voice,
            samples: u.audio.samples.len() as u64,
            rms: level(u.audio.samples),
            provider: u.provider,
        },
    )
}

/// Decomposes a text with its audio into the store.
pub fn ingest_with_options<C: AudioCodec + ?Sized>(
    store: &mut MimicStore,
    text: &str,
    audio: &WavAudio,
    voice: &str,
    provider: &str,
    opts: &IngestOptions,
    g2p: Option<&G2p>,
    codec: &C,
) -> (r: core::result::Result<IngestReport, MimicError>)
    ensures
        ({
            let u = ingested_utterance(text@, audio@, voice@, provider@, *opts, opt_dict(g2p));
            match r {
                Err(e) => tokens(text@).len() == 0 && e@ == ErrorView::NotFound("empty text"@)
                    && final(store)@ == old(store)@,
                Ok(rep) => {
                    &&& tokens(text@).len() > 0
                    &&& final(store)@ == ingested(old(store)@, text@, u, codec)
                    &&& rep.phrase_units == 1
                    &&& rep.word_units == u.words.len()
                    &&& rep.phoneme_units == sounds(u, u.words.len()).len()
                    &&& texts(rep.unresolved_words@) == (if opts.phonemes && g2p is Some {
                        unresolved(u.words, u.phonemes, u.words.len())
                    } else {
                        Seq::empty()
                    })
                },
            }
        }),
{
    let ghost u = ingested_utterance(text@, audio@, voice@, provider@, *opts, opt_dict(g2p));
    let norm = normalize(text);
    let words = tokenize(text);
    if words.len() == 0 {
        return Err(MimicError::NotFound("empty text".to_owned()));
    }
    let dict: Option<&G2p> = if opts.phonemes {
        g2p
    } else {
        None
    };
    let phonemes = pronounce(&words, dict);
    let toks = tokens_for(opts, audio, codec);
    let ghost first = store@;
    let _phrase = store.insert_unit(
        UnitLevel::Phrase,
        norm.as_str(),
        norm.as_str(),
        voice,
        audio,
        toks,
        opts.write_wav,
        None,
        None,
        provider,
    );
    proof {
        tokens_are_not_empty(text@);
        assert(tokens(text@)[0].len() > 0);
        crate::text::lemma_total_len_part(u.words, 0, 1);
        assert(u.words.subrange(0, 1) =~= seq![u.words[0]]);
        assert(seq![u.words[0]].drop_last() =~= Seq::<Seq<char>>::empty());
        assert(total_len(seq![u.words[0]]) == u.words[0].len()) by {
            reveal_with_fuel(total_len, 2);
        }
        assert(u.phonemes == phoneme_lists(phonemes@));
        assert(phoneme_lists(phonemes@).len() == phonemes@.len());
        assert(store@ == with_unit(
            first,
            record(
                u,
                UnitLevel::Phrase,
                normalized(text@),
                normalized(text@),
                u.audio,
                None,
                None,
                codec,
            ),
        ));
        assert(u == utterance(
            words@,
            phonemes@,
            audio@,
            voice@,
            provider@,
            opt_text(None),
            opt_text(None),
            *opts,
        ));
    }
    let (ids, phoneme_units) = segment_and_store_words(
        store,
        &words,
        &phonemes,
        audio,
        voice,
        provider,
        None,
        None,
        opts,
        codec,
    );
    let _dna = store.add_voice_dna(voice, audio, provider);
    let mut missing: Vec<String> = Vec::new();
    if opts.phonemes && g2p.is_some() {
        let mut i: usize = 0;
        assert(texts(missing@) =~= unresolved(u.words, u.phonemes, 0));
        while i < words.len()
            invariant
                u.words == texts(words@),
                u.phonemes == phoneme_lists(phonemes@),
                phonemes@.len() == words@.len(),
                i <= words@.len(),
                texts(missing@) == unresolved(u.words, u.phonemes, i as nat),
            decreases words@.len() - i,
        {
            if phonemes[i].is_none() {
                let ghost before = texts(missing@);
                missing.push(words[i].clone());
                assert(texts(missing@) =~= before.push(u.words[i as int]));
            }
            i += 1;
        }
    } else {
        assert(texts(missing@) =~= Seq::empty());
    }
    Ok(
        IngestReport {
            phrase_units: 1,
            word_units: ids.len(),
            phoneme_units,
            unresolved_words: missing,
        },
    )
}

/// Decomposes a text with its audio into the store, with default options.
pub fn ingest<C: AudioCodec + ?Sized>(
    store: &mut MimicStore,
    text: &str,
    audio: &WavAudio,
    voice: &str,
    provider: &str,
    g2p: Option<&G2p>,
    codec: &C,
) -> (r: core::result::Result<IngestReport, MimicError>)
    ensures
        ({
            let u = ingested_utterance(
                text@,
                audio@,
                voice@,
                provider@,
                default_options(),
                opt_dict(g2p),
            );
            match r {
                Err(e) => tokens(text@).len() == 0 && e@ == ErrorView::NotFound("empty text"@)
                    && final(store)@ == old(store)@,
                Ok(rep) => {
                    &&& tokens(text@).len() > 0
                    &&& final(store)@ == ingested(old(store)@, text@, u, codec)
                    &&& rep.phrase_units == 1
                    &&& rep.word_units == u.words.len()
                    &&& rep.phoneme_units == sounds(u, u.words.len()).len()
                    &&& texts(rep.unresolved_words@) == (if g2p is Some {
                        unresolved(u.words, u.phonemes, u.words.len())
                    } else {
                        Seq::empty()
                    })
                },
            }
        }),
{
    let opts = IngestOptions::default();
    ingest_with_options(store, text, audio, voice, provider, &opts, g2p, codec)
}

} // verus!
