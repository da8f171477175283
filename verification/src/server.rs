//! What the speech service does with a request: its text is taken apart into
//! words and pauses, each piece is composed or kept silent, and the pieces are
//! spliced. Also who may use the planning service.

use crate::audio::{splice, spliced, wavs, WavAudio, WavView};
use crate::codec::AudioCodec;
use crate::compose::composed_view;
use crate::double::average;
use crate::edges::Medium;
use crate::error::{ErrorView, MimicError};
use crate::fade::{FadeCurve, Gains};
use crate::g2p::G2p;
use crate::laws::composing_accounts_for_every_character;
use crate::limits::{held, hold};
use crate::pipeline::opt_dict;
use crate::report::{hit_views, mean_seam, seams, ComposeReport, ReportView};
use crate::select::{compose_v3_with_medium, selected};
use crate::speak::Dict;
use crate::ssml::{
    parse, segment_views, segmented_input, silence, silence_len, Segment, SegmentView,
};
use crate::store::{MimicStore, StoreView};
use crate::text::{same_text, texts};
use crate::tts::TtsProvider;
use crate::{CROSSFADE_MS, SAMPLE_RATE};
use vstd::prelude::*;
use vstd::string::*;

verus! {

/// A piece of a response: its audio, and what composing it reported.
#[verifier::ext_equal]
pub struct Piece {
    pub audio: WavView,
    pub report: ReportView,
}

/// The report of nothing.
pub open spec fn nothing_said() -> ReportView {
    ReportView {
        total_chars: 0,
        cached_chars: 0,
        generated_chars: 0,
        tts_calls: Seq::empty(),
        hits: Seq::empty(),
        units: Seq::empty(),
        mean_seam_discontinuity: 0,
    }
}

/// A pause as audio.
pub open spec fn pause_audio(ms: int) -> WavView {
    WavView {
        samples: Seq::new(silence_len(ms, SAMPLE_RATE), |i: int| 0i16),
        sample_rate: SAMPLE_RATE,
    }
}

/// What a request is answered with: who speaks, in which voice, and how.
pub struct Speaking<'a, T: TtsProvider + ?Sized, C: AudioCodec + ?Sized> {
    pub tts: &'a T,
    pub codec: &'a C,
    pub voice: Seq<char>,
    pub dict: Dict,
    pub fades: Gains,
}

/// Whether a segment may have been said as a piece, which took the store from
/// one state to another.
pub open spec fn said_as<T: TtsProvider + ?Sized, C: AudioCodec + ?Sized>(
    x: Speaking<'_, T, C>,
    seg: SegmentView,
    before: StoreView,
    after: StoreView,
    piece: Piece,
) -> bool {
    match seg {
        SegmentView::Break(ms) => after == before && piece == (Piece {
            audio: pause_audio(ms),
            report: nothing_said(),
        }),
        SegmentView::Text(t) => composed_as(
            x,
            before,
            after,
            Ok((piece.audio, piece.report)),
            t,
        ),
    }
}

/// Whether the first segments may have been said as `pieces`, one after the
/// other, which took the store through `states`.
pub open spec fn said<T: TtsProvider + ?Sized, C: AudioCodec + ?Sized>(
    x: Speaking<'_, T, C>,
    segs: Seq<SegmentView>,
    states: Seq<StoreView>,
    pieces: Seq<Piece>,
) -> bool {
    &&& pieces.len() <= segs.len()
    &&& states.len() == pieces.len() + 1
    &&& forall|k: int|
        0 <= k < pieces.len() ==> said_as(
            x,
            segs[k],
            states[k],
            states[k + 1],
            #[trigger] pieces[k],
        )
}

/// Whether a text may have been composed from its token streams with a result.
#[verifier::opaque]
pub open spec fn composed_as<T: TtsProvider + ?Sized, C: AudioCodec + ?Sized>(
    x: Speaking<'_, T, C>,
    before: StoreView,
    after: StoreView,
    r: core::result::Result<(WavView, ReportView), ErrorView>,
    text: Seq<char>,
) -> bool {
    selected(before, after, r, x.tts, text, x.voice, x.dict, Medium::Tokens, x.codec, x.fades)
}

/// The reports of all pieces taken together.
pub open spec fn aggregated(pieces: Seq<Piece>) -> ReportView
    decreases pieces.len(),
{
    if pieces.len() == 0 {
        nothing_said()
    } else {
        let a = aggregated(pieces.drop_last());
        let b = pieces.last().report;
        ReportView {
            total_chars: held(a.total_chars + b.total_chars),
            cached_chars: held(a.cached_chars + b.cached_chars),
            generated_chars: held(a.generated_chars + b.generated_chars),
            tts_calls: a.tts_calls + b.tts_calls,
            hits: a.hits + b.hits,
            units: Seq::empty(),
            mean_seam_discontinuity: 0,
        }
    }
}

/// The audio of pieces.
pub open spec fn piece_audio(pieces: Seq<Piece>) -> Seq<WavView> {
    Seq::new(pieces.len(), |i: int| pieces[i].audio)
}

/// The report of a whole response.
pub open spec fn response_report(pieces: Seq<Piece>) -> ReportView {
    ReportView {
        mean_seam_discontinuity: average(seams(piece_audio(pieces))),
        ..aggregated(pieces)
    }
}

/// Whether the segment behind those that were said may have failed with a
/// problem.
pub open spec fn failed_behind<T: TtsProvider + ?Sized, C: AudioCodec + ?Sized>(
    x: Speaking<'_, T, C>,
    segs: Seq<SegmentView>,
    states: Seq<StoreView>,
    pieces: Seq<Piece>,
    after: StoreView,
    e: ErrorView,
) -> bool {
    &&& pieces.len() < segs.len()
    &&& segs[pieces.len() as int] matches SegmentView::Text(t) && composed_as(
        x,
        states.last(),
        after,
        Err(e),
        t,
    )
}

/// What answering a request may have done: its outcome and the store it leaves.
pub open spec fn ssml_composed<T: TtsProvider + ?Sized, C: AudioCodec + ?Sized>(
    x: Speaking<'_, T, C>,
    text: Seq<char>,
    before: StoreView,
    after: StoreView,
    r: core::result::Result<(WavView, ReportView), ErrorView>,
) -> bool {
    let segs = segmented_input(text);
    exists|states: Seq<StoreView>, pieces: Seq<Piece>|
        {
            &&& #[trigger] said(x, segs, states, pieces)
            &&& states[0] == before
            &&& match r {
                Ok((out, report)) => {
                    &&& pieces.len() == segs.len()
                    &&& after == states.last()
                    &&& spliced(piece_audio(pieces), CROSSFADE_MS, x.fades) == Ok::<
                        WavView,
                        ErrorView,
                    >(out)
                    &&& report == response_report(pieces)
                },
                Err(e) => {
                    ||| {
                        &&& pieces.len() == segs.len()
                        &&& after == states.last()
                        &&& spliced(piece_audio(pieces), CROSSFADE_MS, x.fades) == Err::<
                            WavView,
                            ErrorView,
                        >(e)
                    }
                    ||| failed_behind(x, segs, states, pieces, after, e)
                },
            }
        }
}

/// Adds a report to the reports taken together so far.
fn add_report(agg: &mut ComposeReport, rep: ComposeReport, pieces: Ghost<Seq<Piece>>, last: Ghost<
    Piece,
>)
    requires
        old(agg)@ == aggregated(pieces@),
        last@.report == rep@,
    ensures
        final(agg)@ == aggregated(pieces@.push(last@)),
{
    let ghost a = agg@;
    let ghost b = rep@;
    assert(pieces@.push(last@).drop_last() =~= pieces@);
    agg.total_chars = hold(agg.total_chars, rep.total_chars);
    agg.cached_chars = hold(agg.cached_chars, rep.cached_chars);
    agg.generated_chars = hold(agg.generated_chars, rep.generated_chars);
    let mut calls = rep.tts_calls;
    agg.tts_calls.append(&mut calls);
    let mut hits = rep.hits;
    agg.hits.append(&mut hits);
    proof {
        assert(texts(agg.tts_calls@) =~= a.tts_calls + b.tts_calls);
        assert(hit_views(agg.hits@) =~= a.hits + b.hits);
        assert(a.units =~= Seq::empty());
        lemma_aggregated_plain(pieces@);
    }
}

proof fn lemma_aggregated_plain(pieces: Seq<Piece>)
    ensures
        aggregated(pieces).units.len() == 0,
        aggregated(pieces).mean_seam_discontinuity == 0,
{
}

/// Composes a request with pauses in it.
pub fn compose_ssml<T: TtsProvider + ?Sized, C: AudioCodec + ?Sized, F: FadeCurve + ?Sized>(
    store: &mut MimicStore,
    tts: &T,
    g2p: Option<&G2p>,
    text: &str,
    voice: &str,
    codec: &C,
    fades: &F,
) -> (r: core::result::Result<(WavAudio, ComposeReport), MimicError>)
    ensures
        ssml_composed(
            Speaking { tts, codec, voice: voice@, dict: opt_dict(g2p), fades: fades.gains() },
            text@,
            old(store)@,
            final(store)@,
            composed_view(r),
        ),
{
    let ghost x = Speaking { tts, codec, voice: voice@, dict: opt_dict(g2p), fades: fades.gains() };
    let ghost first = store@;
    let segments = parse(text);
    let ghost segs = segment_views(segments@);
    let n: usize = segments.len();
    let mut parts: Vec<WavAudio> = Vec::new();
    let mut agg = ComposeReport::empty();
    let ghost mut pieces: Seq<Piece> = Seq::empty();
    let ghost mut states: Seq<StoreView> = seq![first];
    let mut k: usize = 0;
    assert(wavs(parts@) =~= piece_audio(pieces));
    while k < n
        invariant
            x == (Speaking { tts, codec, voice: voice@, dict: opt_dict(g2p), fades: fades.gains() }),
            segs == segment_views(segments@),
            segs == segmented_input(text@),
            n == segments@.len(),
            k <= n,
            first == old(store)@,
            said(x, segs, states, pieces),
            states[0] == first,
            states.last() == store@,
            pieces.len() == k,
            wavs(parts@) == piece_audio(pieces),
            agg@ == aggregated(pieces),
        decreases n - k,
    {
        let ghost mid = store@;
        let ghost before = wavs(parts@);
        assert(segs[k as int] == segments@[k as int]@);
        match &segments[k] {
            Segment::Text(t) => {
                match compose_v3_with_medium(
                    store,
                    tts,
                    t.as_str(),
                    voice,
                    g2p,
                    Medium::Tokens,
                    codec,
                    fades,
                ) {
                    Err(e) => {
                        proof {
                            reveal(composed_as);
                            assert(failed_behind(x, segs, states, pieces, store@, e@));
                        }
                        return Err(e);
                    },
                    Ok((audio, rep)) => {
                        let ghost last = Piece { audio: audio@, report: rep@ };
                        add_report(&mut agg, rep, Ghost(pieces), Ghost(last));
                        parts.push(audio);
                        proof {
                            assert(composed_as(
                                x,
                                mid,
                                store@,
                                Ok((last.audio, last.report)),
                                t@,
                            )) by {
                                reveal(composed_as);
                            }
                            lemma_said_more(x, segs, states, pieces, store@, last);
                            assert(wavs(parts@) =~= before.push(last.audio));
                            assert(piece_audio(pieces.push(last)) =~= piece_audio(pieces).push(
                                last.audio,
                            ));
                            pieces = pieces.push(last);
                    states = states.push(store@);
                        }
                    },
                }
            },
            Segment::Break(ms) => {
                let quiet = silence(*ms, SAMPLE_RATE);
                let ghost last = Piece { audio: quiet@, report: nothing_said() };
                let none = ComposeReport::empty();
                add_report(&mut agg, none, Ghost(pieces), Ghost(last));
                parts.push(quiet);
                proof {
                    lemma_said_more(x, segs, states, pieces, store@, last);
                    assert(wavs(parts@) =~= before.push(last.audio));
                    assert(piece_audio(pieces.push(last)) =~= piece_audio(pieces).push(
                        last.audio,
                    ));
                    pieces = pieces.push(last);
                    states = states.push(store@);
                }
            },
        }
        k += 1;
    }
    assert(segs.len() == n);
    agg.mean_seam_discontinuity = mean_seam(&parts);
    proof {
        lemma_aggregated_plain(pieces);
        assert(agg@ =~= response_report(pieces));
    }
    match splice(parts.as_slice(), CROSSFADE_MS, fades) {
        Err(e) => Err(e),
        Ok(out) => Ok((out, agg)),
    }
}

proof fn lemma_said_more<T: TtsProvider + ?Sized, C: AudioCodec + ?Sized>(
    x: Speaking<'_, T, C>,
    segs: Seq<SegmentView>,
    states: Seq<StoreView>,
    pieces: Seq<Piece>,
    after: StoreView,
    last: Piece,
)
    requires
        said(x, segs, states, pieces),
        pieces.len() < segs.len(),
        said_as(x, segs[pieces.len() as int], states.last(), after, last),
    ensures
        said(x, segs, states.push(after), pieces.push(last)),
{
    let s = states.push(after);
    let p = pieces.push(last);
    assert forall|k: int| 0 <= k < p.len() implies said_as(
        x,
        segs[k],
        s[k],
        s[k + 1],
        #[trigger] p[k],
    ) by {
        if k < pieces.len() {
            assert(said_as(x, segs[k], states[k], states[k + 1], pieces[k]));
        }
    }
}

/// A response accounts for every character of its text: each is either served
/// from the cache or generated, as long as they can be counted.
pub proof fn responses_account_for_every_character<
    T: TtsProvider + ?Sized,
    C: AudioCodec + ?Sized,
>(
    x: Speaking<'_, T, C>,
    segs: Seq<SegmentView>,
    states: Seq<StoreView>,
    pieces: Seq<Piece>,
)
    requires
        said(x, segs, states, pieces),
        aggregated(pieces).total_chars < usize::MAX,
    ensures
        aggregated(pieces).cached_chars + aggregated(pieces).generated_chars == aggregated(
            pieces,
        ).total_chars,
    decreases pieces.len(),
{
    if pieces.len() > 0 {
        let n = pieces.len() as int;
        let last = pieces.last();
        let p = pieces.drop_last();
        let s = states.drop_last();
        assert forall|k: int| 0 <= k < p.len() implies said_as(
            x,
            segs[k],
            s[k],
            s[k + 1],
            #[trigger] p[k],
        ) by {
            assert(said_as(x, segs[k], states[k], states[k + 1], pieces[k]));
        }
        responses_account_for_every_character(x, segs, s, p);
        assert(said_as(x, segs[n - 1], states[n - 1], states[n], pieces[n - 1]));
        lemma_piece_accounts(x, segs[n - 1], states[n - 1], states[n], last);
    }
}

proof fn lemma_piece_accounts<T: TtsProvider + ?Sized, C: AudioCodec + ?Sized>(
    x: Speaking<'_, T, C>,
    seg: SegmentView,
    before: StoreView,
    after: StoreView,
    piece: Piece,
)
    requires
        said_as(x, seg, before, after, piece),
    ensures
        piece.report.cached_chars + piece.report.generated_chars == piece.report.total_chars,
{
    if let SegmentView::Text(t) = seg {
        reveal(composed_as);
        composing_accounts_for_every_character(
            before,
            after,
            Ok((piece.audio, piece.report)),
            x.tts,
            t,
            x.voice,
            x.dict,
            Medium::Tokens,
            x.codec,
            x.fades,
        );
    }
}

// ---- who may use the planning service ----

/// Whether a request is let through: anyone may ask for `/health`, everything
/// else takes the token.
pub open spec fn lets_through(path: Seq<char>, header: Option<Seq<char>>, token: Seq<char>) -> bool {
    path == "/health"@ || header == Some("Bearer "@ + token)
}

/// Whether a request is let through.
pub fn authorized(path: &str, header: Option<&str>, token: &str) -> (r: bool)
    ensures
        r == lets_through(path@, crate::store::opt_text(header), token@),
{
    if same_text(path, "/health") {
        return true;
    }
    let mut expected = "Bearer ".to_owned();
    expected.append(token);
    match header {
        Some(h) => same_text(h, expected.as_str()),
        None => false,
    }
}

} // verus!
