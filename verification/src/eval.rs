//! The evaluation harness: which modes are compared, how one mode is run over a
//! corpus, and what its rows, its boundary statistics and its replay report say.
//!
//! Shares are in percent, money in dollars; times are measured in nanoseconds.

use crate::align::{span_pairs, spans_between, word_bounds, word_spans, AlignMode};
use crate::audio::{WavAudio, WavView};
use crate::codec::AudioCodec;
use crate::compose::{compose, composed, composed_view};
use crate::double::{
    doubles_keep_the_order, infinite, over, plus, times, unit, whole, whole_is_positive, Double,
};
use crate::edges::Medium;
use crate::error::{ErrorView, MimicError};
use crate::fade::{FadeCurve, Gains};
use crate::figures::{average_signed, mean_signed, signed_views, Signed};
use crate::g2p::G2p;
use crate::limits::{cap, capped, held, hold};
use crate::pipeline::{
    default_options, ingest_with_options, ingested, ingested_utterance, opt_dict, unresolved,
    IngestOptions,
};
use crate::providers::{cost_per_million_chars, list_price};
use crate::report::{percent, percent_of, ComposeReport, ReportView};
use crate::select::{compose_v3, compose_v3_with_medium, selected};
use crate::speak::Dict;
use crate::stats::{find_greatest, greatest, percentile, percentile_of};
use crate::store::{MimicStore, StoreView};
use crate::text::{chars_of, has_prefix, spoken, starts_with, texts, total_len, words_of};
use crate::tts::{mock_spans, mock_word_spans, spoken_from, spoken_ms, TtsProvider};
use crate::units::{tokenize, tokens, tokens_are_not_empty};
use vstd::prelude::*;
use vstd::string::*;

pub use crate::corpus::{expand_templates, replay_stream, Corpus};
pub use crate::gates::{check_gates, GateResult};
pub use crate::render::{to_json, to_markdown};
pub use crate::replay::run_replay;

verus! {

// ---- modes ----

/// Which composer a mode uses. The greedy one is frozen.
#[derive(Debug, Clone, Copy, PartialEq, Eq, Structural)]
pub enum ComposeMode {
    Greedy,
    ViterbiPcm,
    ViterbiTokens,
}

/// A mode of the pipeline that is evaluated.
pub struct Mode {
    pub name: String,
    pub opts: IngestOptions,
    pub compose_mode: ComposeMode,
    /// Whether words are looked up in the dictionary.
    pub with_dictionary: bool,
}

/// The value of a mode.
#[verifier::ext_equal]
pub struct ModeView {
    pub name: Seq<char>,
    pub opts: IngestOptions,
    pub compose_mode: ComposeMode,
    pub with_dictionary: bool,
}

impl View for Mode {
    type V = ModeView;

    open spec fn view(&self) -> ModeView {
        ModeView {
            name: self.name@,
            opts: self.opts,
            compose_mode: self.compose_mode,
            with_dictionary: self.with_dictionary,
        }
    }
}

/// The values of a sequence of modes.
pub open spec fn mode_views(v: Seq<Mode>) -> Seq<ModeView> {
    Seq::new(v.len(), |i: int| v[i]@)
}

/// The modes that are compared, the historical reference first.
pub open spec fn compared_modes() -> Seq<ModeView> {
    seq![
        ModeView {
            name: "v1-baseline"@,
            opts: IngestOptions {
                align: AlignMode::Proportional,
                phonemes: false,
                diphones: false,
                codec_tokens: false,
                write_wav: true,
                phoneme_search_ns: 0,
            },
            compose_mode: ComposeMode::Greedy,
            with_dictionary: false,
        },
        ModeView {
            name: "p1-legacy"@,
            opts: IngestOptions {
                diphones: false,
                codec_tokens: false,
                write_wav: true,
                ..default_options()
            },
            compose_mode: ComposeMode::Greedy,
            with_dictionary: true,
        },
        ModeView {
            name: "p3-legacy"@,
            opts: IngestOptions { codec_tokens: false, write_wav: true, ..default_options() },
            compose_mode: ComposeMode::ViterbiPcm,
            with_dictionary: true,
        },
        ModeView {
            name: "p4-current"@,
            opts: default_options(),
            compose_mode: ComposeMode::ViterbiTokens,
            with_dictionary: true,
        },
    ]
}

/// The modes that are compared.
pub fn modes() -> (r: Vec<Mode>)
    ensures
        mode_views(r@) == compared_modes(),
{
    let mut out: Vec<Mode> = Vec::new();
    out.push(
        Mode {
            name: "v1-baseline".to_owned(),
            opts: IngestOptions::v1(),
            compose_mode: ComposeMode::Greedy,
            with_dictionary: false,
        },
    );
    out.push(
        Mode {
            name: "p1-legacy".to_owned(),
            opts: IngestOptions::p1_legacy(),
            compose_mode: ComposeMode::Greedy,
            with_dictionary: true,
        },
    );
    out.push(
        Mode {
            name: "p3-legacy".to_owned(),
            opts: IngestOptions::p3_legacy(),
            compose_mode: ComposeMode::ViterbiPcm,
            with_dictionary: true,
        },
    );
    out.push(
        Mode {
            name: "p4-current".to_owned(),
            opts: IngestOptions::default(),
            compose_mode: ComposeMode::ViterbiTokens,
            with_dictionary: true,
        },
    );
    assert(mode_views(out@) =~= compared_modes());
    out
}

/// Whether a corpus is swept for coverage: templates feed the boundary gate
/// instead.
pub fn is_swept(corpus: &str) -> (r: bool)
    ensures
        r == !starts_with(corpus@, "alignment_"@),
{
    !has_prefix(&chars_of(corpus), "alignment_")
}

/// What composing a request in a mode may have done.
pub open spec fn composed_in<T: TtsProvider + ?Sized, C: AudioCodec + ?Sized>(
    mode: ComposeMode,
    before: StoreView,
    after: StoreView,
    r: core::result::Result<(WavView, ReportView), ErrorView>,
    tts: &T,
    text: Seq<char>,
    dict: Dict,
    codec: &C,
    t: Gains,
) -> bool {
    match mode {
        ComposeMode::Greedy => composed(before, after, r, tts, text, "default"@, dict, codec, t),
        ComposeMode::ViterbiPcm => selected(
            before,
            after,
            r,
            tts,
            text,
            "default"@,
            dict,
            Medium::Pcm,
            codec,
            t,
        ),
        ComposeMode::ViterbiTokens => selected(
            before,
            after,
            r,
            tts,
            text,
            "default"@,
            dict,
            Medium::Tokens,
            codec,
            t,
        ),
    }
}

/// Composes a request with the composer of a mode, in the default voice.
pub fn compose_in<T: TtsProvider + ?Sized, C: AudioCodec + ?Sized, F: FadeCurve + ?Sized>(
    mode: ComposeMode,
    store: &mut MimicStore,
    tts: &T,
    text: &str,
    g2p: Option<&G2p>,
    codec: &C,
    fades: &F,
) -> (r: core::result::Result<(WavAudio, ComposeReport), MimicError>)
    ensures
        composed_in(
            mode,
            old(store)@,
            final(store)@,
            composed_view(r),
            tts,
            text@,
            opt_dict(g2p),
            codec,
            fades.gains(),
        ),
{
    match mode {
        ComposeMode::Greedy => compose(store, tts, text, "default", g2p, codec, fades),
        ComposeMode::ViterbiPcm => compose_v3(store, tts, text, "default", g2p, codec, fades),
        ComposeMode::ViterbiTokens => compose_v3_with_medium(
            store,
            tts,
            text,
            "default",
            g2p,
            Medium::Tokens,
            codec,
            fades,
        ),
    }
}

// ---- training ----

/// What is trained with: who speaks the lines, and how they are stored.
pub struct Training<'a, T: TtsProvider + ?Sized, C: AudioCodec + ?Sized> {
    pub tts: &'a T,
    pub codec: &'a C,
    pub opts: IngestOptions,
    pub dict: Dict,
}

/// A line with the audio it was spoken in, as it is stored.
pub open spec fn trained_utterance<T: TtsProvider + ?Sized, C: AudioCodec + ?Sized>(
    x: Training<'_, T, C>,
    line: Seq<char>,
    audio: WavView,
) -> crate::pipeline::Utterance {
    ingested_utterance(line, audio, "default"@, x.tts.provider_name(), x.opts, x.dict)
}

/// The store after the first `k` lines were stored with the audio they were
/// spoken in.
pub open spec fn trained<T: TtsProvider + ?Sized, C: AudioCodec + ?Sized>(
    x: Training<'_, T, C>,
    s: StoreView,
    lines: Seq<Seq<char>>,
    audio: Seq<WavView>,
    k: nat,
) -> StoreView
    decreases k,
{
    if k == 0 {
        s
    } else {
        ingested(
            trained(x, s, lines, audio, (k - 1) as nat),
            lines[k - 1],
            trained_utterance(x, lines[k - 1], audio[k - 1]),
            x.codec,
        )
    }
}

/// The words among the first `k` lines whose phonemes could not be resolved.
pub open spec fn trained_unresolved<T: TtsProvider + ?Sized, C: AudioCodec + ?Sized>(
    x: Training<'_, T, C>,
    lines: Seq<Seq<char>>,
    audio: Seq<WavView>,
    k: nat,
) -> nat
    decreases k,
{
    if k == 0 {
        0
    } else {
        let u = trained_utterance(x, lines[k - 1], audio[k - 1]);
        held(
            trained_unresolved(x, lines, audio, (k - 1) as nat) + (if x.opts.phonemes
                && x.dict is Some {
                unresolved(u.words, u.phonemes, u.words.len()).len()
            } else {
                0
            }),
        )
    }
}

/// Whether the first lines may have been spoken as `audio`.
pub open spec fn lines_spoken<T: TtsProvider + ?Sized, C: AudioCodec + ?Sized>(
    x: Training<'_, T, C>,
    lines: Seq<Seq<char>>,
    audio: Seq<WavView>,
) -> bool {
    &&& audio.len() <= lines.len()
    &&& forall|k: int|
        0 <= k < audio.len() ==> x.tts.may_reply(
            lines[k],
            "default"@,
            Ok::<WavView, ErrorView>(#[trigger] audio[k]),
        ) && tokens(lines[k]).len() > 0
}

/// Whether a line may have stopped the training with a problem.
pub open spec fn line_failed<T: TtsProvider + ?Sized, C: AudioCodec + ?Sized>(
    x: Training<'_, T, C>,
    line: Seq<char>,
    e: ErrorView,
) -> bool {
    ||| x.tts.may_reply(line, "default"@, Err::<WavView, ErrorView>(e))
    ||| tokens(line).len() == 0 && e == ErrorView::NotFound("empty text"@)
}

/// What training may have done: the store it leaves, and how many words it could
/// not resolve, or why it stopped.
pub open spec fn training_done<T: TtsProvider + ?Sized, C: AudioCodec + ?Sized>(
    x: Training<'_, T, C>,
    before: StoreView,
    after: StoreView,
    lines: Seq<Seq<char>>,
    r: core::result::Result<nat, ErrorView>,
) -> bool {
    exists|audio: Seq<WavView>|
        {
            &&& #[trigger] lines_spoken(x, lines, audio)
            &&& after == trained(x, before, lines, audio, audio.len())
            &&& match r {
                Ok(n) => audio.len() == lines.len() && n == trained_unresolved(
                    x,
                    lines,
                    audio,
                    lines.len(),
                ),
                Err(e) => audio.len() < lines.len() && line_failed(
                    x,
                    lines[audio.len() as int],
                    e,
                ),
            }
        }
}

/// The value of a count, or of the problem with it.
pub open spec fn count_view(r: core::result::Result<usize, MimicError>) -> core::result::Result<
    nat,
    ErrorView,
> {
    match r {
        Ok(n) => Ok(n as nat),
        Err(e) => Err(e@),
    }
}

proof fn lemma_trained_prefix<T: TtsProvider + ?Sized, C: AudioCodec + ?Sized>(
    x: Training<'_, T, C>,
    s: StoreView,
    lines: Seq<Seq<char>>,
    a: Seq<WavView>,
    b: Seq<WavView>,
    k: nat,
)
    requires
        k <= a.len(),
        k <= b.len(),
        forall|i: int| 0 <= i < k ==> #[trigger] a[i] == b[i],
    ensures
        trained(x, s, lines, a, k) == trained(x, s, lines, b, k),
        trained_unresolved(x, lines, a, k) == trained_unresolved(x, lines, b, k),
    decreases k,
{
    if k > 0 {
        lemma_trained_prefix(x, s, lines, a, b, (k - 1) as nat);
        assert(a[k - 1] == b[k - 1]);
    }
}

/// Has lines spoken and stores them. Says how many words could not be resolved.
pub fn train<T: TtsProvider + ?Sized, C: AudioCodec + ?Sized>(
    store: &mut MimicStore,
    tts: &T,
    lines: &Vec<String>,
    opts: &IngestOptions,
    g2p: Option<&G2p>,
    codec: &C,
) -> (r: core::result::Result<usize, MimicError>)
    ensures
        training_done(
            Training { tts, codec, opts: *opts, dict: opt_dict(g2p) },
            old(store)@,
            final(store)@,
            texts(lines@),
            count_view(r),
        ),
{
    let ghost x = Training { tts, codec, opts: *opts, dict: opt_dict(g2p) };
    let ghost all = texts(lines@);
    let ghost first = store@;
    let ghost mut audio: Seq<WavView> = Seq::empty();
    let mut missing: usize = 0;
    let mut k: usize = 0;
    while k < lines.len()
        invariant
            x == (Training { tts, codec, opts: *opts, dict: opt_dict(g2p) }),
            all == texts(lines@),
            first == old(store)@,
            k <= lines@.len(),
            audio.len() == k,
            lines_spoken(x, all, audio),
            store@ == trained(x, first, all, audio, k as nat),
            missing == trained_unresolved(x, all, audio, k as nat),
        decreases lines@.len() - k,
    {
        let line = lines[k].as_str();
        assert(all[k as int] == line@);
        match tts.synthesize(line, "default") {
            Err(e) => {
                proof {
                    assert(line_failed(x, all[audio.len() as int], e@));
                }
                return Err(e);
            },
            Ok(a) => {
                let ghost av = a@;
                match ingest_with_options(store, line, &a, "default", tts.name(), opts, g2p, codec) {
                    Err(e) => {
                        proof {
                            assert(line_failed(x, all[audio.len() as int], e@));
                        }
                        return Err(e);
                    },
                    Ok(rep) => {
                        let here: usize = rep.unresolved_words.len();
                        missing = if missing <= usize::MAX - here {
                            missing + here
                        } else {
                            usize::MAX
                        };
                        proof {
                            let grown = audio.push(av);
                            assert(texts(rep.unresolved_words@).len() == here);
                            lemma_trained_prefix(x, first, all, grown, audio, k as nat);
                            assert forall|i: int| 0 <= i < grown.len() implies x.tts.may_reply(
                                all[i],
                                "default"@,
                                Ok::<WavView, ErrorView>(#[trigger] grown[i]),
                            ) && tokens(all[i]).len() > 0 by {
                                if i < k {
                                    assert(grown[i] == audio[i]);
                                }
                            }
                            audio = grown;
                        }
                    },
                }
            },
        }
        k += 1;
    }
    Ok(missing)
}

// ---- boundaries ----

/// How far a boundary at sample `end` is from the middle of the gap behind a word
/// that ends at `truth_ms`, in nanoseconds. At no sample rate at all it is as far
/// as can be told.
pub open spec fn boundary_error(end: nat, sample_rate: u32, truth_ms: nat) -> u64 {
    if sample_rate == 0 {
        u64::MAX
    } else {
        let got = (end * 1_000_000_000) / (sample_rate as nat);
        let want = (truth_ms + 30) * 1_000_000;
        if got >= want {
            capped((got - want) as nat)
        } else {
            capped((want - got) as nat)
        }
    }
}

fn measure_boundary(end: usize, sample_rate: u32, truth_ms: u128) -> (r: u64)
    requires
        truth_ms <= 1_000_000_000_000_000_000_000_000_000,
    ensures
        r == boundary_error(end as nat, sample_rate, truth_ms as nat),
{
    if sample_rate == 0 {
        return u64::MAX;
    }
    let got: u128 = (end as u128 * 1_000_000_000) / (sample_rate as u128);
    let want: u128 = (truth_ms + 30) * 1_000_000;
    let diff: u128 = if got >= want {
        got - want
    } else {
        want - got
    };
    cap(diff)
}

/// Where the mock ends word `i` of a clip, in milliseconds.
pub open spec fn mock_end(clip: Seq<char>, i: int) -> nat {
    spoken_from(words_of(clip), i as nat) + spoken_ms(words_of(clip)[i].len())
}

/// How far the boundaries between the words of a clip are from where the mock put
/// them.
pub open spec fn clip_errors_of(clip: Seq<char>, audio: WavView, mode: AlignMode) -> Seq<u64> {
    let words = tokens(clip);
    if words.len() < 2 {
        Seq::empty()
    } else {
        let b = word_bounds(audio.samples, audio.sample_rate, words, mode);
        Seq::new(
            (words.len() - 1) as nat,
            |i: int| boundary_error(b[i + 1], audio.sample_rate, mock_end(clip, i)),
        )
    }
}

/// Whether a clip is spoken in as many words as it is aligned in.
pub open spec fn is_alignable_clip(clip: Seq<char>) -> bool {
    tokens(clip).len() <= words_of(clip).len() + 1
}

/// How far the boundaries between the words of a clip are from where the mock put
/// them, in nanoseconds.
pub fn clip_errors(clip: &str, audio: &WavAudio, mode: AlignMode) -> (r: Vec<u64>)
    requires
        is_alignable_clip(clip@),
    ensures
        r@ == clip_errors_of(clip@, audio@, mode),
{
    let words = tokenize(clip);
    let n: usize = words.len();
    let mut out: Vec<u64> = Vec::new();
    if n < 2 {
        assert(out@ =~= clip_errors_of(clip@, audio@, mode));
        return out;
    }
    let ghost ws = tokens(clip@);
    proof {
        assert(texts(words@).len() == n);
        tokens_are_not_empty(clip@);
        crate::text::lemma_total_len_part(ws, 0, 1);
        assert(ws.subrange(0, 1) =~= seq![ws[0]]);
        assert(seq![ws[0]].drop_last() =~= Seq::<Seq<char>>::empty());
        reveal_with_fuel(total_len, 2);
        assert(total_len(seq![ws[0]]) == ws[0].len());
    }
    let truth = mock_word_spans(clip);
    let spans = word_spans(audio, words.as_slice(), mode);
    let ghost b = word_bounds(audio@.samples, audio@.sample_rate, ws, mode);
    proof {
        crate::align::words_cover_the_audio(audio@.samples, audio@.sample_rate, ws, mode);
        assert(span_pairs(spans@).len() == spans@.len());
        assert(mock_spans(truth@).len() == truth@.len());
    }
    let mut i: usize = 0;
    while i < n - 1
        invariant
            n >= 2,
            n == ws.len(),
            is_alignable_clip(clip@),
            ws == tokens(clip@),
            b.len() == n + 1,
            spans@.len() == n,
            span_pairs(spans@) == spans_between(b),
            truth@.len() == words_of(clip@).len(),
            mock_spans(truth@) == Seq::new(
                words_of(clip@).len(),
                |k: int|
                    (
                        words_of(clip@)[k],
                        spoken_from(words_of(clip@), k as nat),
                        spoken_from(words_of(clip@), k as nat) + spoken_ms(
                            words_of(clip@)[k].len(),
                        ),
                    ),
            ),
            i <= n - 1,
            out@.len() == i,
            forall|k: int|
                0 <= k < i ==> out@[k] == boundary_error(
                    b[k + 1],
                    audio@.sample_rate,
                    mock_end(clip@, k),
                ),
        decreases n - i,
    {
        assert(span_pairs(spans@)[i as int] == (b[i as int], b[i + 1]));
        assert(mock_spans(truth@)[i as int].2 == mock_end(clip@, i as int));
        proof {
            lemma_mock_bound(words_of(clip@), i as nat);
        }
        out.push(measure_boundary(spans[i].end, audio.sample_rate, truth[i].end_ms));
        i += 1;
    }
    assert(out@ =~= clip_errors_of(clip@, audio@, mode));
    out
}

proof fn lemma_mock_bound(ws: Seq<Seq<char>>, i: nat)
    ensures
        spoken_from(ws, i) <= 960 * i,
    decreases i,
{
    if i > 0 {
        lemma_mock_bound(ws, (i - 1) as nat);
    }
}

/// The errors of the first `k` clips, one clip after the other.
pub open spec fn errors_of(
    clips: Seq<Seq<char>>,
    audio: Seq<WavView>,
    mode: AlignMode,
    k: nat,
) -> Seq<u64>
    decreases k,
{
    if k == 0 {
        Seq::empty()
    } else {
        errors_of(clips, audio, mode, (k - 1) as nat) + clip_errors_of(
            clips[k - 1],
            audio[k - 1],
            mode,
        )
    }
}

/// Whether the first clips may have been spoken as `audio`. Clips without a
/// boundary are not spoken.
pub open spec fn clips_spoken<T: TtsProvider + ?Sized>(
    tts: &T,
    clips: Seq<Seq<char>>,
    audio: Seq<WavView>,
) -> bool {
    &&& audio.len() <= clips.len()
    &&& forall|k: int|
        0 <= k < audio.len() && tokens(clips[k]).len() >= 2 ==> tts.may_reply(
            clips[k],
            "default"@,
            Ok::<WavView, ErrorView>(#[trigger] audio[k]),
        )
}

/// What measuring boundaries may have given: the errors of all clips, or the
/// problem of a provider with one of them.
pub open spec fn boundaries_measured<T: TtsProvider + ?Sized>(
    tts: &T,
    clips: Seq<Seq<char>>,
    mode: AlignMode,
    r: core::result::Result<Seq<u64>, ErrorView>,
) -> bool {
    exists|audio: Seq<WavView>|
        {
            &&& #[trigger] clips_spoken(tts, clips, audio)
            &&& match r {
                Ok(errs) => audio.len() == clips.len() && errs == errors_of(
                    clips,
                    audio,
                    mode,
                    clips.len(),
                ),
                Err(e) => audio.len() < clips.len() && tts.may_reply(
                    clips[audio.len() as int],
                    "default"@,
                    Err::<WavView, ErrorView>(e),
                ),
            }
        }
}

proof fn lemma_errors_prefix(
    clips: Seq<Seq<char>>,
    a: Seq<WavView>,
    b: Seq<WavView>,
    mode: AlignMode,
    k: nat,
)
    requires
        k <= a.len(),
        k <= b.len(),
        forall|i: int| 0 <= i < k ==> #[trigger] a[i] == b[i],
    ensures
        errors_of(clips, a, mode, k) == errors_of(clips, b, mode, k),
    decreases k,
{
    if k > 0 {
        lemma_errors_prefix(clips, a, b, mode, (k - 1) as nat);
        assert(a[k - 1] == b[k - 1]);
    }
}

/// Word boundary errors of clips that a provider speaks, in nanoseconds.
pub fn boundary_errors<T: TtsProvider + ?Sized>(
    tts: &T,
    clips: &Vec<String>,
    mode: AlignMode,
) -> (r: core::result::Result<Vec<u64>, MimicError>)
    requires
        forall|k: int| 0 <= k < clips@.len() ==> is_alignable_clip((#[trigger] clips@[k])@),
    ensures
        boundaries_measured(
            tts,
            texts(clips@),
            mode,
            match r {
                Ok(v) => Ok(v@),
                Err(e) => Err(e@),
            },
        ),
{
    let ghost all = texts(clips@);
    let ghost mut audio: Seq<WavView> = Seq::empty();
    let mut out: Vec<u64> = Vec::new();
    let mut k: usize = 0;
    while k < clips.len()
        invariant
            forall|j: int| 0 <= j < clips@.len() ==> is_alignable_clip((#[trigger] clips@[j])@),
            all == texts(clips@),
            k <= clips@.len(),
            audio.len() == k,
            clips_spoken(tts, all, audio),
            out@ == errors_of(all, audio, mode, k as nat),
        decreases clips@.len() - k,
    {
        let clip = clips[k].as_str();
        assert(all[k as int] == clip@);
        let ghost before = audio;
        let words = tokenize(clip);
        assert(texts(words@).len() == words@.len());
        if words.len() < 2 {
            proof {
                audio = before.push(WavView { samples: Seq::empty(), sample_rate: 0 });
                assert(out@ + Seq::<u64>::empty() =~= out@);
            }
        } else {
            let a = match tts.synthesize(clip, "default") {
                Err(e) => {
                    return Err(e);
                },
                Ok(a) => a,
            };
            let mut errs = clip_errors(clip, &a, mode);
            out.append(&mut errs);
            proof {
                audio = before.push(a@);
            }
        }
        proof {
            lemma_errors_prefix(all, audio, before, mode, k as nat);
            assert forall|i: int|
                0 <= i < audio.len() && tokens(all[i]).len() >= 2 implies tts.may_reply(
                all[i],
                "default"@,
                Ok::<WavView, ErrorView>(#[trigger] audio[i]),
            ) by {
                if i < k {
                    assert(audio[i] == before[i]);
                }
            }
        }
        k += 1;
    }
    Ok(out)
}

/// Boundary statistics of a set of clips, in nanoseconds.
#[derive(Debug, Clone, Copy, PartialEq, Eq)]
pub struct BoundaryStats {
    pub clips: usize,
    pub boundaries: usize,
    pub median: u64,
    pub p90: u64,
    pub max: u64,
    pub baseline_median: u64,
}

/// The statistics of nothing.
pub open spec fn no_boundaries() -> BoundaryStats {
    BoundaryStats { clips: 0, boundaries: 0, median: 0, p90: 0, max: 0, baseline_median: 0 }
}

/// The statistics of boundary errors, next to those of the baseline.
pub open spec fn boundary_stats_of(clips: usize, errs: Seq<u64>, base: Seq<u64>) -> BoundaryStats {
    BoundaryStats {
        clips,
        boundaries: errs.len() as usize,
        median: percentile_of(errs, 50),
        p90: percentile_of(errs, 90),
        max: greatest(errs),
        baseline_median: percentile_of(base, 50),
    }
}

/// The statistics of boundary errors, next to those of the baseline.
pub fn boundary_stats(clips: usize, errs: &Vec<u64>, base: &Vec<u64>) -> (r: BoundaryStats)
    ensures
        r == boundary_stats_of(clips, errs@, base@),
{
    BoundaryStats {
        clips,
        boundaries: errs.len(),
        median: percentile(errs, 50),
        p90: percentile(errs, 90),
        max: find_greatest(errs),
        baseline_median: percentile(base, 50),
    }
}

// ---- rows ----

/// What a mode did over one corpus.
#[derive(Debug)]
pub struct ModeRow {
    pub mode: String,
    pub corpus: String,
    pub eval_utterances: usize,
    pub cache_hit_pct: Double,
    pub generated_chars: usize,
    pub total_chars: usize,
    /// Time to compose for the time of speech.
    pub rtf: Double,
    pub mean_seam: Double,
    pub unresolved_words: usize,
    pub units_total: usize,
    /// Codec fidelity over fully cached utterances, for token modes.
    pub stoi: Option<Signed>,
    /// Voice fidelity over fully cached utterances, for token modes.
    pub voice_fidelity: Option<Signed>,
    /// Inline token bytes, and the wav bytes they stand for, for token modes.
    pub token_bytes: u64,
    pub wav_bytes: u64,
}

/// The value of a row.
#[verifier::ext_equal]
pub struct RowView {
    pub mode: Seq<char>,
    pub corpus: Seq<char>,
    pub eval_utterances: usize,
    pub cache_hit_pct: nat,
    pub generated_chars: usize,
    pub total_chars: usize,
    pub rtf: nat,
    pub mean_seam: nat,
    pub unresolved_words: usize,
    pub units_total: usize,
    pub stoi: Option<int>,
    pub voice_fidelity: Option<int>,
    pub token_bytes: u64,
    pub wav_bytes: u64,
}

/// The value of an optional measurement.
pub open spec fn opt_signed(x: Option<Signed>) -> Option<int> {
    match x {
        Some(x) => Some(x@),
        None => None,
    }
}

impl View for ModeRow {
    type V = RowView;

    open spec fn view(&self) -> RowView {
        RowView {
            mode: self.mode@,
            corpus: self.corpus@,
            eval_utterances: self.eval_utterances,
            cache_hit_pct: self.cache_hit_pct@,
            generated_chars: self.generated_chars,
            total_chars: self.total_chars,
            rtf: self.rtf@,
            mean_seam: self.mean_seam@,
            unresolved_words: self.unresolved_words,
            units_total: self.units_total,
            stoi: opt_signed(self.stoi),
            voice_fidelity: opt_signed(self.voice_fidelity),
            token_bytes: self.token_bytes,
            wav_bytes: self.wav_bytes,
        }
    }
}

/// The values of a sequence of rows.
pub open spec fn row_views(v: Seq<ModeRow>) -> Seq<RowView> {
    Seq::new(v.len(), |i: int| v[i]@)
}

/// What is counted while a mode is run over a corpus.
#[derive(Debug)]
pub struct RowTally {
    pub generated_chars: usize,
    pub total_chars: usize,
    /// How long composing took, in seconds.
    pub wall: Double,
    /// How long the speech lasts, in seconds.
    pub spoken: Double,
    pub seams: Double,
    pub utterances: usize,
    pub stoi: Vec<Signed>,
    pub voice: Vec<Signed>,
}

/// The value of a tally.
#[verifier::ext_equal]
pub struct TallyView {
    pub generated_chars: nat,
    pub total_chars: nat,
    pub wall: nat,
    pub spoken: nat,
    pub seams: nat,
    pub utterances: nat,
    pub stoi: Seq<int>,
    pub voice: Seq<int>,
}

impl View for RowTally {
    type V = TallyView;

    open spec fn view(&self) -> TallyView {
        TallyView {
            generated_chars: self.generated_chars as nat,
            total_chars: self.total_chars as nat,
            wall: self.wall@,
            spoken: self.spoken@,
            seams: self.seams@,
            utterances: self.utterances as nat,
            stoi: signed_views(self.stoi@),
            voice: signed_views(self.voice@),
        }
    }
}

/// Nanoseconds in seconds: the whole ones, and the rest.
pub open spec fn seconds(nanos: nat) -> nat {
    plus(whole(nanos / 1_000_000_000), over(whole(nanos % 1_000_000_000), whole(1_000_000_000)))
}

/// Nanoseconds in seconds.
pub fn to_seconds(nanos: u64) -> (r: Double)
    ensures
        r@ == seconds(nanos as nat),
{
    proof {
        whole_is_positive(1_000_000_000);
    }
    Double::of(nanos / 1_000_000_000).plus(
        Double::of(nanos % 1_000_000_000).over(Double::of(1_000_000_000)),
    )
}

/// Nanoseconds that a clock measured, in milliseconds.
pub open spec fn elapsed_ms(nanos: nat) -> nat {
    times(seconds(nanos), whole(1000))
}

/// Nanoseconds that a clock measured, in milliseconds.
pub fn to_elapsed_ms(nanos: u64) -> (r: Double)
    ensures
        r@ == elapsed_ms(nanos as nat),
{
    to_seconds(nanos).times(Double::of(1000))
}

/// Nanoseconds that were computed, in milliseconds.
pub open spec fn exact_ms(nanos: nat) -> nat {
    over(whole(nanos), whole(1_000_000))
}

/// Nanoseconds that were computed, in milliseconds.
pub fn to_exact_ms(nanos: u64) -> (r: Double)
    ensures
        r@ == exact_ms(nanos as nat),
{
    proof {
        whole_is_positive(1_000_000);
    }
    Double::of(nanos).over(Double::of(1_000_000))
}

/// How long audio lasts, in seconds. What has no rate does not end.
pub open spec fn seconds_spoken(a: WavView) -> nat {
    if a.sample_rate == 0 {
        infinite()
    } else {
        over(
            over(times(whole(a.samples.len()), whole(1000)), whole(a.sample_rate as nat)),
            whole(1000),
        )
    }
}

fn measure_seconds(a: &WavAudio) -> (r: Double)
    ensures
        r@ == seconds_spoken(a@),
{
    if a.sample_rate == 0 {
        return Double::infinity();
    }
    proof {
        whole_is_positive(a.sample_rate as nat);
        whole_is_positive(1000);
    }
    let ms = Double::of(a.samples.len() as u64).times(Double::of(1000)).over(
        Double::of(a.sample_rate as u64),
    );
    ms.over(Double::of(1000))
}

/// The tally with one more utterance.
pub open spec fn tallied(t: TallyView, rep: ReportView, audio: WavView, wall: u64) -> TallyView {
    TallyView {
        generated_chars: held(t.generated_chars + rep.generated_chars),
        total_chars: held(t.total_chars + rep.total_chars),
        wall: plus(t.wall, seconds(wall as nat)),
        spoken: plus(t.spoken, seconds_spoken(audio)),
        seams: plus(t.seams, rep.mean_seam_discontinuity),
        utterances: held(t.utterances + 1),
        ..t
    }
}

/// What was not generated, in percent.
pub open spec fn coverage(generated: nat, total: nat) -> nat {
    if generated <= total {
        percent((total - generated) as nat, total)
    } else {
        0
    }
}

/// The row that a tally makes. Storage and fidelities are told of the modes that
/// compose from tokens only.
pub open spec fn row_of(
    t: TallyView,
    mode: ModeView,
    corpus: Seq<char>,
    unresolved: usize,
    units_total: usize,
    storage: (u128, u128),
) -> RowView {
    let of_tokens = mode.compose_mode == ComposeMode::ViterbiTokens;
    RowView {
        mode: mode.name,
        corpus,
        eval_utterances: t.utterances as usize,
        cache_hit_pct: coverage(t.generated_chars, t.total_chars),
        generated_chars: t.generated_chars as usize,
        total_chars: t.total_chars as usize,
        rtf: if t.spoken == 0 || t.spoken >= infinite() {
            0
        } else {
            over(t.wall, t.spoken)
        },
        mean_seam: if t.utterances == 0 {
            0
        } else {
            over(t.seams, whole(t.utterances))
        },
        unresolved_words: unresolved,
        units_total,
        stoi: if of_tokens {
            average_signed(t.stoi)
        } else {
            None
        },
        voice_fidelity: if of_tokens {
            average_signed(t.voice)
        } else {
            None
        },
        token_bytes: if of_tokens {
            capped(storage.0 as nat)
        } else {
            0
        },
        wav_bytes: if of_tokens {
            capped(storage.1 as nat)
        } else {
            0
        },
    }
}

fn measure_coverage(generated: usize, total: usize) -> (r: Double)
    ensures
        r@ == coverage(generated as nat, total as nat),
{
    if generated > total {
        return Double::zero();
    }
    percent_of(total - generated, total)
}

impl RowTally {
    /// A tally of nothing.
    pub fn new() -> (r: RowTally)
        ensures
            r@ == (TallyView {
                generated_chars: 0,
                total_chars: 0,
                wall: 0,
                spoken: 0,
                seams: 0,
                utterances: 0,
                stoi: Seq::empty(),
                voice: Seq::empty(),
            }),
    {
        let r = RowTally {
            generated_chars: 0,
            total_chars: 0,
            wall: Double::zero(),
            spoken: Double::zero(),
            seams: Double::zero(),
            utterances: 0,
            stoi: Vec::new(),
            voice: Vec::new(),
        };
        assert(r@.stoi =~= Seq::empty());
        assert(r@.voice =~= Seq::empty());
        r
    }

    /// Counts an utterance that took `wall` nanoseconds to compose.
    pub fn add(&mut self, rep: &ComposeReport, audio: &WavAudio, wall: u64)
        ensures
            final(self)@ == tallied(old(self)@, rep@, audio@, wall),
    {
        self.generated_chars = hold(self.generated_chars, rep.generated_chars);
        self.total_chars = hold(self.total_chars, rep.total_chars);
        self.wall = self.wall.plus(to_seconds(wall));
        self.spoken = self.spoken.plus(measure_seconds(audio));
        self.seams = self.seams.plus(rep.mean_seam_discontinuity);
        self.utterances = hold(self.utterances, 1);
    }

    /// Whether the fidelity of an utterance is measured: in token modes, where all
    /// of it came from the cache.
    pub fn is_measured(mode: ComposeMode, rep: &ComposeReport) -> (r: bool)
        ensures
            r == (mode == ComposeMode::ViterbiTokens && rep@.generated_chars == 0),
    {
        match mode {
            ComposeMode::ViterbiTokens => rep.generated_chars == 0,
            _ => false,
        }
    }

    /// Counts the fidelities of an utterance.
    pub fn measure(&mut self, stoi: Signed, voice: Signed)
        ensures
            final(self)@ == (TallyView {
                stoi: old(self)@.stoi.push(stoi@),
                voice: old(self)@.voice.push(voice@),
                ..old(self)@
            }),
    {
        let ghost before = self@;
        self.stoi.push(stoi);
        self.voice.push(voice);
        assert(self@.stoi =~= before.stoi.push(stoi@));
        assert(self@.voice =~= before.voice.push(voice@));
    }

    /// The row that the tally makes. `storage` holds the token bytes and the wav
    /// bytes of the store; they are told of the modes that compose from tokens.
    pub fn row(
        &self,
        mode: &Mode,
        corpus: &str,
        unresolved: usize,
        units_total: usize,
        storage: (u128, u128),
    ) -> (r: ModeRow)
        ensures
            r@ == row_of(self@, mode@, corpus@, unresolved, units_total, storage),
    {
        let endless = !self.spoken.less(Double::infinity());
        let rtf = if !Double::zero().less(self.spoken) || endless {
            Double::zero()
        } else {
            self.wall.over(self.spoken)
        };
        let mean_seam = if self.utterances == 0 {
            Double::zero()
        } else {
            proof {
                whole_is_positive(self.utterances as nat);
            }
            self.seams.over(Double::of(self.utterances as u64))
        };
        let of_tokens = mode.compose_mode == ComposeMode::ViterbiTokens;
        let (stoi, voice_fidelity): (Option<Signed>, Option<Signed>) = if of_tokens {
            (mean_signed(&self.stoi), mean_signed(&self.voice))
        } else {
            (None, None)
        };
        let (token_bytes, wav_bytes): (u64, u64) = if of_tokens {
            (cap(storage.0), cap(storage.1))
        } else {
            (0, 0)
        };
        ModeRow {
            mode: mode.name.clone(),
            corpus: corpus.to_owned(),
            eval_utterances: self.utterances,
            cache_hit_pct: measure_coverage(self.generated_chars, self.total_chars),
            generated_chars: self.generated_chars,
            total_chars: self.total_chars,
            rtf,
            mean_seam,
            unresolved_words: unresolved,
            units_total,
            stoi,
            voice_fidelity,
            token_bytes,
            wav_bytes,
        }
    }
}

// ---- replay ----

/// What a production-shaped workload did: steady-state coverage, compose latency,
/// and cost next to always asking a provider.
#[derive(Debug)]
pub struct ReplayReport {
    pub requests: usize,
    pub coverage_pct: Double,
    pub generated_chars: usize,
    pub total_chars: usize,
    pub p50: u64,
    pub p99: u64,
    pub mock_direct_p99: u64,
    pub simulated_cloud_p99: u64,
    pub est_cost: Double,
    pub always_cloud_cost: Double,
    pub provider_profile: String,
}

/// The value of a replay report.
#[verifier::ext_equal]
pub struct ReplayView {
    pub requests: usize,
    pub coverage_pct: nat,
    pub generated_chars: usize,
    pub total_chars: usize,
    pub p50: u64,
    pub p99: u64,
    pub mock_direct_p99: u64,
    pub simulated_cloud_p99: u64,
    pub est_cost: nat,
    pub always_cloud_cost: nat,
    pub provider_profile: Seq<char>,
}

impl View for ReplayReport {
    type V = ReplayView;

    open spec fn view(&self) -> ReplayView {
        ReplayView {
            requests: self.requests,
            coverage_pct: self.coverage_pct@,
            generated_chars: self.generated_chars,
            total_chars: self.total_chars,
            p50: self.p50,
            p99: self.p99,
            mock_direct_p99: self.mock_direct_p99,
            simulated_cloud_p99: self.simulated_cloud_p99,
            est_cost: self.est_cost@,
            always_cloud_cost: self.always_cloud_cost@,
            provider_profile: self.provider_profile@,
        }
    }
}

/// What a hosted provider takes for any request, in milliseconds.
pub const SIM_CLOUD_BASE_MS: u64 = 250;

/// What a hosted provider takes for each character, in milliseconds.
pub const SIM_CLOUD_PER_CHAR_MS: u64 = 8;

/// What a hosted provider takes for a request of so many characters, in
/// nanoseconds.
pub open spec fn simulated_latency(chars: nat) -> u64 {
    capped(((SIM_CLOUD_BASE_MS + SIM_CLOUD_PER_CHAR_MS * chars) * 1_000_000) as nat)
}

/// What is counted while a workload is replayed.
#[derive(Debug)]
pub struct ReplayTally {
    pub requests: usize,
    pub generated_chars: usize,
    pub total_chars: usize,
    pub latencies: Vec<u64>,
    pub direct: Vec<u64>,
    pub simulated: Vec<u64>,
}

/// The value of a replay tally.
#[verifier::ext_equal]
pub struct ReplayTallyView {
    pub requests: nat,
    pub generated_chars: nat,
    pub total_chars: nat,
    pub latencies: Seq<u64>,
    pub direct: Seq<u64>,
    pub simulated: Seq<u64>,
}

impl View for ReplayTally {
    type V = ReplayTallyView;

    open spec fn view(&self) -> ReplayTallyView {
        ReplayTallyView {
            requests: self.requests as nat,
            generated_chars: self.generated_chars as nat,
            total_chars: self.total_chars as nat,
            latencies: self.latencies@,
            direct: self.direct@,
            simulated: self.simulated@,
        }
    }
}

/// The tally with one more request.
pub open spec fn replay_tallied(
    t: ReplayTallyView,
    rep: ReportView,
    request: Seq<char>,
    latency: u64,
    direct: u64,
) -> ReplayTallyView {
    ReplayTallyView {
        requests: held(t.requests + 1),
        generated_chars: held(t.generated_chars + rep.generated_chars),
        total_chars: held(t.total_chars + rep.total_chars),
        latencies: t.latencies.push(latency),
        direct: t.direct.push(direct),
        simulated: t.simulated.push(simulated_latency(total_len(tokens(request)))),
    }
}

/// The report that a replay tally makes, at the prices of a provider.
pub open spec fn replay_report_of(t: ReplayTallyView, profile: Seq<char>) -> ReplayView {
    ReplayView {
        requests: t.requests as usize,
        coverage_pct: coverage(t.generated_chars, t.total_chars),
        generated_chars: t.generated_chars as usize,
        total_chars: t.total_chars as usize,
        p50: percentile_of(t.latencies, 50),
        p99: percentile_of(t.latencies, 99),
        mock_direct_p99: percentile_of(t.direct, 99),
        simulated_cloud_p99: percentile_of(t.simulated, 99),
        est_cost: cost_of(t.generated_chars, list_price(profile) as nat),
        always_cloud_cost: cost_of(t.total_chars, list_price(profile) as nat),
        provider_profile: profile,
    }
}

/// What so many characters cost at a price for a million of them.
pub open spec fn cost_of(chars: nat, dollars: nat) -> nat {
    times(over(whole(chars), whole(1_000_000)), whole(dollars))
}

fn price(chars: usize, dollars: u64) -> (r: Double)
    ensures
        r@ == cost_of(chars as nat, dollars as nat),
{
    proof {
        whole_is_positive(1_000_000);
    }
    Double::of(chars as u64).over(Double::of(1_000_000)).times(Double::of(dollars))
}

/// The characters of the words of a request.
fn request_chars(request: &str) -> (r: usize)
    ensures
        r == total_len(tokens(request@)),
{
    let words = tokenize(request);
    let ghost ws = texts(words@);
    let mut sum: usize = 0;
    let mut i: usize = 0;
    assert(ws.take(0) =~= Seq::<Seq<char>>::empty());
    while i < words.len()
        invariant
            ws == texts(words@),
            ws.len() == words@.len(),
            total_len(ws) <= usize::MAX,
            i <= words@.len(),
            sum == total_len(ws.take(i as int)),
        decreases words@.len() - i,
    {
        proof {
            assert(ws.take(i + 1).drop_last() =~= ws.take(i as int));
            assert(ws.take(i + 1).last() == words@[i as int]@);
            crate::text::lemma_total_len_part(ws, 0, i + 1);
            assert(ws.subrange(0, i + 1) =~= ws.take(i + 1));
        }
        sum += crate::text::char_count(words[i].as_str());
        i += 1;
    }
    assert(ws.take(i as int) =~= ws);
    sum
}

impl ReplayTally {
    /// A tally of nothing.
    pub fn new() -> (r: ReplayTally)
        ensures
            r@ == (ReplayTallyView {
                requests: 0,
                generated_chars: 0,
                total_chars: 0,
                latencies: Seq::empty(),
                direct: Seq::empty(),
                simulated: Seq::empty(),
            }),
    {
        ReplayTally {
            requests: 0,
            generated_chars: 0,
            total_chars: 0,
            latencies: Vec::new(),
            direct: Vec::new(),
            simulated: Vec::new(),
        }
    }

    /// Counts a request: how long it took to compose, and how long to have all of
    /// it spoken.
    pub fn add(&mut self, rep: &ComposeReport, request: &str, latency: u64, direct: u64)
        ensures
            final(self)@ == replay_tallied(old(self)@, rep@, request@, latency, direct),
    {
        let chars: usize = request_chars(request);
        let simulated: u64 = cap(
            (SIM_CLOUD_BASE_MS as u128 + SIM_CLOUD_PER_CHAR_MS as u128 * chars as u128) * 1_000_000,
        );
        self.requests = hold(self.requests, 1);
        self.generated_chars = hold(self.generated_chars, rep.generated_chars);
        self.total_chars = hold(self.total_chars, rep.total_chars);
        self.latencies.push(latency);
        self.direct.push(direct);
        self.simulated.push(simulated);
    }

    /// The report that the tally makes, at the prices of a provider.
    pub fn report(&self, provider_profile: &str) -> (r: ReplayReport)
        ensures
            r@ == replay_report_of(self@, provider_profile@),
    {
        let dollars: u64 = cost_per_million_chars(provider_profile);
        ReplayReport {
            requests: self.requests,
            coverage_pct: measure_coverage(self.generated_chars, self.total_chars),
            generated_chars: self.generated_chars,
            total_chars: self.total_chars,
            p50: percentile(&self.latencies, 50),
            p99: percentile(&self.latencies, 99),
            mock_direct_p99: percentile(&self.direct, 99),
            simulated_cloud_p99: percentile(&self.simulated, 99),
            est_cost: price(self.generated_chars, dollars),
            always_cloud_cost: price(self.total_chars, dollars),
            provider_profile: provider_profile.to_owned(),
        }
    }
}

/// A replay never costs more than always asking the provider.
pub proof fn replaying_costs_no_more(t: ReplayTallyView, profile: Seq<char>)
    requires
        t.generated_chars <= t.total_chars,
    ensures
        replay_report_of(t, profile).est_cost <= replay_report_of(t, profile).always_cloud_cost,
{
    let (a, b) = (t.generated_chars, t.total_chars);
    let (u, m, p) = (unit(), whole(1_000_000), whole(list_price(profile) as nat));
    whole_is_positive(1_000_000);
    vstd::arithmetic::power2::lemma_pow2_pos(1074);
    assert(a * u <= b * u) by (nonlinear_arith)
        requires
            a <= b,
    ;
    doubles_keep_the_order(a * u, b * u, 1);
    assert(whole(a) * u <= whole(b) * u) by (nonlinear_arith)
        requires
            whole(a) <= whole(b),
    ;
    doubles_keep_the_order(whole(a) * u, whole(b) * u, m);
    let (x, y) = (over(whole(a), m), over(whole(b), m));
    assert(x * p <= y * p) by (nonlinear_arith)
        requires
            x <= y,
    ;
    doubles_keep_the_order(x * p, y * p, u);
}

// ---- the whole report ----

/// The rows of all modes, the boundary statistics, the replay, and notes.
#[derive(Debug)]
pub struct EvalReport {
    pub rows: Vec<ModeRow>,
    pub boundary: BoundaryStats,
    pub replay: Option<ReplayReport>,
    pub notes: Vec<String>,
}

/// The value of an evaluation report.
#[verifier::ext_equal]
pub struct EvalView {
    pub rows: Seq<RowView>,
    pub boundary: BoundaryStats,
    pub replay: Option<ReplayView>,
    pub notes: Seq<Seq<char>>,
}

impl View for EvalReport {
    type V = EvalView;

    open spec fn view(&self) -> EvalView {
        EvalView {
            rows: row_views(self.rows@),
            boundary: self.boundary,
            replay: match self.replay {
                Some(r) => Some(r@),
                None => None,
            },
            notes: texts(self.notes@),
        }
    }
}

impl EvalReport {
    /// A report of nothing.
    pub fn new() -> (r: EvalReport)
        ensures
            r@ == (EvalView {
                rows: Seq::empty(),
                boundary: no_boundaries(),
                replay: None,
                notes: Seq::empty(),
            }),
    {
        let r = EvalReport {
            rows: Vec::new(),
            boundary: BoundaryStats {
                clips: 0,
                boundaries: 0,
                median: 0,
                p90: 0,
                max: 0,
                baseline_median: 0,
            },
            replay: None,
            notes: Vec::new(),
        };
        assert(r@.rows =~= Seq::empty());
        assert(r@.notes =~= Seq::empty());
        r
    }
}

/// What came of the optional external metrics.
pub enum External {
    /// They were not asked for.
    Skipped,
    /// They were asked for, but the script is not there.
    Missing,
    /// What the script printed.
    Output(String),
    /// Why the script did not run.
    Failed(String),
}

/// The value of what came of the external metrics.
pub enum ExternalView {
    Skipped,
    Missing,
    Output(Seq<char>),
    Failed(Seq<char>),
}

impl View for External {
    type V = ExternalView;

    open spec fn view(&self) -> ExternalView {
        match self {
            External::Skipped => ExternalView::Skipped,
            External::Missing => ExternalView::Missing,
            External::Output(t) => ExternalView::Output(t@),
            External::Failed(t) => ExternalView::Failed(t@),
        }
    }
}

/// What is noted of the external metrics.
pub open spec fn external_note(x: ExternalView) -> Seq<char> {
    match x {
        ExternalView::Output(t) => "external adapter: "@ + crate::text::trimmed(t),
        ExternalView::Failed(t) => "external adapter failed to run: "@ + t,
        ExternalView::Missing => "MIMIC_EVAL_EXTERNAL=1 but scripts/eval_external.py missing"@,
        ExternalView::Skipped =>
            "external metrics (UTMOS/NISQA, Whisper WER, SECS): SKIPPED \u{2014} set MIMIC_EVAL_EXTERNAL=1 with scripts/eval_external.py deps installed"@,
    }
}

/// What is noted of an evaluation: what was skipped for want of a corpus, and what
/// came of the external metrics.
pub open spec fn notes_of(has_templates: bool, has_support: bool, x: ExternalView) -> Seq<
    Seq<char>,
> {
    let a = if has_templates {
        Seq::<Seq<char>>::empty()
    } else {
        seq!["alignment_templates corpus not found; boundary gate skipped"@]
    };
    let b = if has_support {
        a
    } else {
        a.push("support_repetitive corpus not found; replay skipped"@)
    };
    b.push(external_note(x))
}

/// What is noted of an evaluation.
pub fn write_notes(has_templates: bool, has_support: bool, external: &External) -> (r: Vec<String>)
    ensures
        texts(r@) == notes_of(has_templates, has_support, external@),
{
    let mut out: Vec<String> = Vec::new();
    if !has_templates {
        out.push("alignment_templates corpus not found; boundary gate skipped".to_owned());
    }
    if !has_support {
        out.push("support_repetitive corpus not found; replay skipped".to_owned());
    }
    let note: String = match external {
        External::Output(t) => {
            let v = chars_of(t.as_str());
            let mut m = "external adapter: ".to_owned();
            assert(v@.subrange(0, v@.len() as int) =~= t@);
            m.append(crate::text::trim_range(&v, 0, v.len()).as_str());
            m
        },
        External::Failed(t) => {
            let mut m = "external adapter failed to run: ".to_owned();
            m.append(t.as_str());
            m
        },
        External::Missing => {
            "MIMIC_EVAL_EXTERNAL=1 but scripts/eval_external.py missing".to_owned()
        },
        External::Skipped => {
            "external metrics (UTMOS/NISQA, Whisper WER, SECS): SKIPPED \u{2014} set MIMIC_EVAL_EXTERNAL=1 with scripts/eval_external.py deps installed".to_owned()
        },
    };
    out.push(note);
    assert(texts(out@) =~= notes_of(has_templates, has_support, external@));
    out
}

} // verus!
