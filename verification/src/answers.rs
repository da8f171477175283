//! What a response of the speech service says: its segments one behind the other,
//! words as they are composed and pauses as silence.

use crate::audio::{heard_one_by_one, part_fits, parts_are_heard_one_by_one, spliced, WavView};
use crate::codec::AudioCodec;
use crate::double::unit;
use crate::edges::Medium;
use crate::error::ErrorView;
use crate::report::ReportView;
use crate::select::selected;
use crate::server::{
    aggregated, composed_as, nothing_said, piece_audio, response_report, said, said_as,
    ssml_composed, Piece, Speaking,
};
use crate::ssml::{pauses_last_their_time, segmented_input, SegmentView};
use crate::store::StoreView;
use crate::tts::TtsProvider;
use vstd::arithmetic::power2::lemma_pow2_pos;
use vstd::prelude::*;

verus! {

/// Whether audio is a pause of so many milliseconds at 16 kHz: nothing but
/// silence, sixteen samples for each millisecond, and one more or less only where
/// that is not a whole number.
pub open spec fn is_pause(a: WavView, ms: int) -> bool {
    let n = a.samples.len();
    &&& a.sample_rate == 16_000
    &&& forall|i: int| 0 <= i < n ==> #[trigger] a.samples[i] == 0
    &&& ms <= 0 ==> n == 0
    &&& 0 < ms && 16 * ms < 0xffff_ffff * unit() ==> {
        &&& 16 * ms < (n + 1) * unit()
        &&& n * unit() <= 16 * ms + unit()
        &&& forall|k: nat| 16 * ms == #[trigger] (k * unit()) ==> n == k
    }
}

/// Whether audio says a segment: a pause, or a text as it was composed at some
/// time from token streams.
pub open spec fn says_segment<T: TtsProvider + ?Sized, C: AudioCodec + ?Sized>(
    x: Speaking<'_, T, C>,
    seg: SegmentView,
    audio: WavView,
) -> bool {
    match seg {
        SegmentView::Break(ms) => is_pause(audio, ms),
        SegmentView::Text(t) => exists|s: StoreView, after: StoreView, report: ReportView|
         #[trigger]
            selected(
                s,
                after,
                Ok((audio, report)),
                x.tts,
                t,
                x.voice,
                x.dict,
                Medium::Tokens,
                x.codec,
                x.fades,
            ),
    }
}

/// A pause in a response is silence of its length. It leaves the cache as it is,
/// and counts for nothing in the report.
pub proof fn breaks_are_silent<T: TtsProvider + ?Sized, C: AudioCodec + ?Sized>(
    x: Speaking<'_, T, C>,
    ms: int,
    before: StoreView,
    after: StoreView,
    piece: Piece,
)
    requires
        said_as(x, SegmentView::Break(ms), before, after, piece),
    ensures
        is_pause(piece.audio, ms),
        after == before,
        piece.report.total_chars == 0,
        piece.report.cached_chars == 0,
        piece.report.generated_chars == 0,
        piece.report.tts_calls.len() == 0,
        piece.report.hits.len() == 0,
{
    if 16 * ms < 0xffff_ffff * unit() {
        pauses_last_their_time(ms);
    } else {
        lemma_pow2_pos(1074);
    }
}

/// The samples of the pauses among the first `n` segments: sixteen for each
/// millisecond.
pub open spec fn pause_samples(segs: Seq<SegmentView>, n: nat) -> nat
    decreases n,
{
    if n == 0 {
        0
    } else {
        pause_samples(segs, (n - 1) as nat) + (match segs[n - 1] {
            SegmentView::Break(ms) => if ms > 0 {
                (16 * ms as nat) / unit()
            } else {
                0
            },
            SegmentView::Text(_) => 0,
        })
    }
}

proof fn lemma_pause_floor(ms: int, n: nat)
    requires
        ms > 0,
        16 * ms < (n + 1) * unit(),
    ensures
        (16 * ms as nat) / unit() <= n,
{
    let u = unit() as int;
    lemma_pow2_pos(1074);
    let q = (16 * ms) / u;
    assert(q <= n) by (nonlinear_arith)
        requires
            16 * ms < (n + 1) * u,
            u > 0,
            q == (16 * ms) / u,
    ;
}

/// Pauses and words that follow one another last at least as long as the pauses
/// alone, less a fade for each segment.
proof fn lemma_long_enough<T: TtsProvider + ?Sized, C: AudioCodec + ?Sized>(
    x: Speaking<'_, T, C>,
    segs: Seq<SegmentView>,
    out: Seq<i16>,
    parts: Seq<WavView>,
    at: Seq<nat>,
    fade: nat,
    n: nat,
)
    requires
        heard_one_by_one(out, parts, at, fade),
        parts.len() == segs.len(),
        n <= segs.len(),
        forall|k: int| 0 <= k < segs.len() ==> says_segment(x, #[trigger] segs[k], parts[k]),
        forall|k: int|
            0 <= k < segs.len() ==> (#[trigger] segs[k] matches SegmentView::Break(ms) ==> 16 * ms
                < 0xffff_ffff * unit()),
    ensures
        at[n as int] + n * fade >= pause_samples(segs, n),
    decreases n,
{
    if n > 0 {
        let k = n - 1;
        lemma_long_enough(x, segs, out, parts, at, fade, k as nat);
        assert(part_fits(parts, at, fade, k));
        assert(says_segment(x, segs[k], parts[k]));
        if let SegmentView::Break(ms) = segs[k] {
            if ms > 0 {
                lemma_pause_floor(ms, parts[k].samples.len());
            }
        }
        assert(n * fade == k * fade + fade) by (nonlinear_arith)
            requires
                k == n - 1,
        ;
    } else {
        assert(0 * fade == 0);
    }
}

/// A response says its segments in order, each of them: a text as it is composed,
/// and a break as silence of its length. What is joined is heard one behind the
/// other, so that a response lasts at least as long as its pauses, less a fade at
/// each join.
pub proof fn responses_say_their_segments<T: TtsProvider + ?Sized, C: AudioCodec + ?Sized>(
    x: Speaking<'_, T, C>,
    text: Seq<char>,
    before: StoreView,
    after: StoreView,
    out: WavView,
    report: ReportView,
) -> (r: (Seq<WavView>, Seq<nat>))
    requires
        ssml_composed(x, text, before, after, Ok((out, report))),
    ensures
        ({
            let (parts, at) = r;
            let segs = segmented_input(text);
            let fade = (out.sample_rate * 10 / 1000) as nat;
            &&& parts.len() == segs.len()
            &&& forall|k: int|
                0 <= k < segs.len() ==> says_segment(x, #[trigger] segs[k], parts[k])
            &&& segs.len() > 0 ==> heard_one_by_one(out.samples, parts, at, fade)
            &&& (forall|k: int|
                0 <= k < segs.len() ==> (#[trigger] segs[k] matches SegmentView::Break(ms) ==> 16
                    * ms < 0xffff_ffff * unit())) ==> out.samples.len() + segs.len() * fade
                >= pause_samples(segs, segs.len())
        }),
{
    let segs = segmented_input(text);
    let (states, pieces) = choose|states: Seq<StoreView>, pieces: Seq<Piece>|
        {
            &&& #[trigger] said(x, segs, states, pieces)
            &&& states[0] == before
            &&& pieces.len() == segs.len()
            &&& after == states.last()
            &&& spliced(piece_audio(pieces), crate::CROSSFADE_MS, x.fades) == Ok::<
                WavView,
                ErrorView,
            >(out)
            &&& report == response_report(pieces)
        };
    let parts = piece_audio(pieces);
    assert forall|k: int| 0 <= k < segs.len() implies says_segment(
        x,
        #[trigger] segs[k],
        parts[k],
    ) by {
        assert(said_as(x, segs[k], states[k], states[k + 1], pieces[k]));
        match segs[k] {
            SegmentView::Break(ms) => {
                breaks_are_silent(x, ms, states[k], states[k + 1], pieces[k]);
            },
            SegmentView::Text(t) => {
                reveal(composed_as);
                assert(selected(
                    states[k],
                    states[k + 1],
                    Ok((parts[k], pieces[k].report)),
                    x.tts,
                    t,
                    x.voice,
                    x.dict,
                    Medium::Tokens,
                    x.codec,
                    x.fades,
                ));
            },
        }
    }
    if segs.len() > 0 {
        let at = parts_are_heard_one_by_one(parts, 10, x.fades);
        let fade = (out.sample_rate * 10 / 1000) as nat;
        if forall|k: int|
            0 <= k < segs.len() ==> (#[trigger] segs[k] matches SegmentView::Break(ms) ==> 16 * ms
                < 0xffff_ffff * unit()) {
            lemma_long_enough(x, segs, out.samples, parts, at, fade, segs.len());
        }
        (parts, at)
    } else {
        (parts, Seq::empty())
    }
}

/// A response reports every piece: the counts of two parts of it add up, and the
/// calls and hits of the first part stand before those of the second.
pub proof fn responses_report_every_piece(front: Seq<Piece>, back: Seq<Piece>)
    requires
        aggregated(front + back).total_chars < usize::MAX,
        aggregated(front + back).cached_chars < usize::MAX,
        aggregated(front + back).generated_chars < usize::MAX,
    ensures
        ({
            let all = aggregated(front + back);
            let a = aggregated(front);
            let b = aggregated(back);
            &&& all.total_chars == a.total_chars + b.total_chars
            &&& all.cached_chars == a.cached_chars + b.cached_chars
            &&& all.generated_chars == a.generated_chars + b.generated_chars
            &&& all.tts_calls == a.tts_calls + b.tts_calls
            &&& all.hits == a.hits + b.hits
        }),
    decreases back.len(),
{
    let whole = front + back;
    if back.len() == 0 {
        assert(whole =~= front);
        assert(aggregated(front).tts_calls + Seq::empty() =~= aggregated(front).tts_calls);
        assert(aggregated(front).hits + Seq::empty() =~= aggregated(front).hits);
    } else {
        let t = back.drop_last();
        assert(whole.drop_last() =~= front + t);
        assert(whole.last() == back.last());
        responses_report_every_piece(front, t);
        let r = back.last().report;
        assert(aggregated(front).tts_calls + aggregated(t).tts_calls + r.tts_calls =~= aggregated(
            front,
        ).tts_calls + (aggregated(t).tts_calls + r.tts_calls));
        assert(aggregated(front).hits + aggregated(t).hits + r.hits =~= aggregated(front).hits + (
        aggregated(t).hits + r.hits));
    }
}

/// A response of one piece reports that piece.
pub proof fn one_piece_is_reported(p: Piece)
    requires
        p.report.total_chars <= usize::MAX,
        p.report.cached_chars <= usize::MAX,
        p.report.generated_chars <= usize::MAX,
    ensures
        aggregated(seq![p]).total_chars == p.report.total_chars,
        aggregated(seq![p]).cached_chars == p.report.cached_chars,
        aggregated(seq![p]).generated_chars == p.report.generated_chars,
        aggregated(seq![p]).tts_calls == p.report.tts_calls,
        aggregated(seq![p]).hits == p.report.hits,
{
    let one = seq![p];
    assert(one.drop_last() =~= Seq::<Piece>::empty());
    assert(one.last() == p);
    assert(aggregated(one.drop_last()) == nothing_said());
    assert(Seq::<Seq<char>>::empty() + p.report.tts_calls =~= p.report.tts_calls);
    assert(nothing_said().hits + p.report.hits =~= p.report.hits);
}

} // verus!
