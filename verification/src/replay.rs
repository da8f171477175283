//! Replaying a production-shaped workload against an empty cache, with a clock
//! around every request.

use crate::audio::{WavAudio, WavView};
use crate::codec::AudioCodec;
use crate::compose::composed_view;
use crate::corpus::{corpus_views, replay_stream, stream_of, urn_of, Corpus, CorpusView};
use crate::edges::Medium;
use crate::error::{ErrorView, MimicError};
use crate::eval::{
    replay_report_of, replay_tallied, ReplayReport, ReplayTally, ReplayTallyView, ReplayView,
};
use crate::fade::{FadeCurve, Gains};
use crate::g2p::G2p;
use crate::pipeline::opt_dict;
use crate::report::{ComposeReport, ReportView};
use crate::select::{compose_v3_with_medium, selected};
use crate::speak::Dict;
use crate::store::{MimicStore, StoreView};
use crate::text::texts;
use crate::tts::TtsProvider;
use vstd::prelude::*;
use vstd::string::*;

verus! {

/// How many requests an evaluation replays.
pub const REPLAY_REQUESTS: usize = 300;

/// The provider at whose prices an evaluation reckons.
pub const REPLAY_PROFILE: &'static str = "elevenlabs";

// ---- the clock ----

/// A moment of the clock, `std::time::Instant`.
#[verifier::external_type_specification]
#[verifier::external_body]
pub struct ExInstant(std::time::Instant);

/// `Instant::now` asks the clock. Nothing is claimed of the moment.
pub assume_specification[ std::time::Instant::now ]() -> (r: std::time::Instant)
;

/// `Instant::elapsed` asks the clock again. Nothing is claimed of what has passed.
pub assume_specification[ std::time::Instant::elapsed ](
    since: &std::time::Instant,
) -> (r: core::time::Duration)
;

/// `Duration::as_nanos` counts nanoseconds. Nothing is claimed of the number.
pub assume_specification[ core::time::Duration::as_nanos ](d: &core::time::Duration) -> (r: u128)
;

/// How long ago a moment was, in nanoseconds, as far as there is room.
fn nanos_since(start: &std::time::Instant) -> (r: u64) {
    let n: u128 = start.elapsed().as_nanos();
    if n <= 0xffff_ffff_ffff_ffff {
        n as u64
    } else {
        u64::MAX
    }
}

// ---- the replay ----

/// What a replay is made with.
pub struct Replay<'a, T: TtsProvider + ?Sized, C: AudioCodec + ?Sized> {
    pub tts: &'a T,
    pub codec: &'a C,
    pub dict: Dict,
    pub t: Gains,
}

/// How far a replay has come: the cache before the first request and after each,
/// what each request was answered with, what the provider said when asked for
/// all of it, and how long both took.
#[verifier::ext_equal]
pub struct Progress {
    pub states: Seq<StoreView>,
    pub answers: Seq<(WavView, ReportView)>,
    pub direct: Seq<WavView>,
    pub waits: Seq<(u64, u64)>,
}

/// A cache with nothing in it.
pub open spec fn empty_cache() -> StoreView {
    StoreView { nodes: Seq::empty(), edges: Seq::empty() }
}

/// Whether a request may be answered with `r`, and leave the cache as `after`.
#[verifier::opaque]
pub open spec fn answers_with<T: TtsProvider + ?Sized, C: AudioCodec + ?Sized>(
    x: Replay<'_, T, C>,
    request: Seq<char>,
    before: StoreView,
    after: StoreView,
    r: core::result::Result<(WavView, ReportView), ErrorView>,
) -> bool {
    selected(before, after, r, x.tts, request, "default"@, x.dict, Medium::Tokens, x.codec, x.t)
}

/// Whether request `k` was answered, from the cache that the requests before it
/// left behind, and spoken by the provider as a whole.
pub open spec fn answered_at<T: TtsProvider + ?Sized, C: AudioCodec + ?Sized>(
    x: Replay<'_, T, C>,
    stream: Seq<Seq<char>>,
    p: Progress,
    k: int,
) -> bool {
    &&& answers_with(x, stream[k], p.states[k], p.states[k + 1], Ok(p.answers[k]))
    &&& x.tts.may_reply(stream[k], "default"@, Ok(p.direct[k]))
}

/// Whether a replay has come this far: the first requests of the stream were
/// answered one after another, beginning with an empty cache.
pub open spec fn has_come<T: TtsProvider + ?Sized, C: AudioCodec + ?Sized>(
    x: Replay<'_, T, C>,
    stream: Seq<Seq<char>>,
    p: Progress,
) -> bool {
    &&& p.answers.len() <= stream.len()
    &&& p.states.len() == p.answers.len() + 1
    &&& p.direct.len() == p.answers.len()
    &&& p.waits.len() == p.answers.len()
    &&& p.states[0] == empty_cache()
    &&& forall|k: int| 0 <= k < p.answers.len() ==> #[trigger] answered_at(x, stream, p, k)
}

/// What is counted of the first `n` requests.
pub open spec fn counted(stream: Seq<Seq<char>>, p: Progress, n: nat) -> ReplayTallyView
    decreases n,
{
    if n == 0 {
        ReplayTallyView {
            requests: 0,
            generated_chars: 0,
            total_chars: 0,
            latencies: Seq::empty(),
            direct: Seq::empty(),
            simulated: Seq::empty(),
        }
    } else {
        replay_tallied(
            counted(stream, p, (n - 1) as nat),
            p.answers[n - 1].1,
            stream[n - 1],
            p.waits[n - 1].0,
            p.waits[n - 1].1,
        )
    }
}

/// Whether the request that follows fails with `e`: it cannot be composed, or the
/// provider does not speak it.
pub open spec fn fails_next<T: TtsProvider + ?Sized, C: AudioCodec + ?Sized>(
    x: Replay<'_, T, C>,
    request: Seq<char>,
    before: StoreView,
    e: ErrorView,
) -> bool {
    ||| exists|after: StoreView| #[trigger] answers_with(x, request, before, after, Err(e))
    ||| x.tts.may_reply(request, "default"@, Err(e))
}

/// Whether a replay may end with `r`: with the report of all requests, or with
/// the problem of the first that failed.
pub open spec fn replay_ends<T: TtsProvider + ?Sized, C: AudioCodec + ?Sized>(
    x: Replay<'_, T, C>,
    stream: Seq<Seq<char>>,
    profile: Seq<char>,
    r: core::result::Result<ReplayView, ErrorView>,
) -> bool {
    exists|p: Progress|
        {
            &&& #[trigger] has_come(x, stream, p)
            &&& match r {
                Ok(v) => p.answers.len() == stream.len() && v == replay_report_of(
                    counted(stream, p, stream.len()),
                    profile,
                ),
                Err(e) => p.answers.len() < stream.len() && fails_next(
                    x,
                    stream[p.answers.len() as int],
                    p.states.last(),
                    e,
                ),
            }
        }
}

/// The value of a replay report, or of the problem with it.
pub open spec fn replay_outcome(
    r: core::result::Result<ReplayReport, MimicError>,
) -> core::result::Result<ReplayView, ErrorView> {
    match r {
        Ok(v) => Ok(v@),
        Err(e) => Err(e@),
    }
}

/// The requests that are replayed.
pub open spec fn replayed_stream(corpora: Seq<CorpusView>, n: nat) -> Seq<Seq<char>> {
    stream_of(urn_of(corpora), n).0
}

/// What is counted goes by what has come, not by what follows.
proof fn lemma_counted_prefix(stream: Seq<Seq<char>>, a: Progress, b: Progress, n: nat)
    requires
        n <= a.answers.len(),
        n <= b.answers.len(),
        forall|i: int| 0 <= i < n ==> #[trigger] a.answers[i] == b.answers[i],
        forall|i: int| 0 <= i < n ==> #[trigger] a.waits[i] == b.waits[i],
    ensures
        counted(stream, a, n) == counted(stream, b, n),
    decreases n,
{
    if n > 0 {
        lemma_counted_prefix(stream, a, b, (n - 1) as nat);
        assert(a.answers[n - 1] == b.answers[n - 1]);
        assert(a.waits[n - 1] == b.waits[n - 1]);
    }
}

/// Composes the answer to a request from tokens.
fn answer<T: TtsProvider + ?Sized, C: AudioCodec + ?Sized, F: FadeCurve + ?Sized>(
    store: &mut MimicStore,
    tts: &T,
    request: &str,
    g2p: &G2p,
    codec: &C,
    fades: &F,
) -> (r: core::result::Result<(WavAudio, ComposeReport), MimicError>)
    ensures
        answers_with(
            Replay { tts, codec, dict: opt_dict(Some(g2p)), t: fades.gains() },
            request@,
            old(store)@,
            final(store)@,
            composed_view(r),
        ),
{
    reveal(answers_with);
    compose_v3_with_medium(
        store,
        tts,
        request,
        "default",
        Some(g2p),
        Medium::Tokens,
        codec,
        fades,
    )
}

/// Replays a production-shaped workload: coverage, latency, and cost next to
/// always asking a provider.
pub fn run_replay<T: TtsProvider + ?Sized, C: AudioCodec + ?Sized, F: FadeCurve + ?Sized>(
    corpora: &Vec<Corpus>,
    g2p: &G2p,
    requests: usize,
    provider_profile: &str,
    tts: &T,
    codec: &C,
    fades: &F,
) -> (r: core::result::Result<ReplayReport, MimicError>)
    ensures
        replay_ends(
            Replay { tts, codec, dict: opt_dict(Some(g2p)), t: fades.gains() },
            replayed_stream(corpus_views(corpora@), requests as nat),
            provider_profile@,
            replay_outcome(r),
        ),
{
    let ghost x = Replay { tts, codec, dict: opt_dict(Some(g2p)), t: fades.gains() };
    let stream = replay_stream(corpora, requests);
    let ghost all = texts(stream@);
    let mut store = MimicStore::new();
    let mut tally = ReplayTally::new();
    let ghost mut p = Progress {
        states: seq![empty_cache()],
        answers: Seq::empty(),
        direct: Seq::empty(),
        waits: Seq::empty(),
    };
    let mut k: usize = 0;
    while k < stream.len()
        invariant
            x == (Replay { tts, codec, dict: opt_dict(Some(g2p)), t: fades.gains() }),
            all == texts(stream@),
            all == replayed_stream(corpus_views(corpora@), requests as nat),
            k <= stream@.len(),
            p.answers.len() == k,
            has_come(x, all, p),
            store@ == p.states.last(),
            tally@ == counted(all, p, k as nat),
        decreases stream@.len() - k,
    {
        let request = stream[k].as_str();
        assert(all[k as int] == request@);
        let start = std::time::Instant::now();
        let composed = answer(&mut store, tts, request, g2p, codec, fades);
        let latency: u64 = nanos_since(&start);
        let (audio, rep) = match composed {
            Err(e) => {
                assert(fails_next(x, all[k as int], p.states.last(), e@));
                return Err(e);
            },
            Ok(pair) => pair,
        };
        let again = std::time::Instant::now();
        let spoken = tts.synthesize(request, "default");
        let direct: u64 = nanos_since(&again);
        let speech = match spoken {
            Err(e) => {
                assert(fails_next(x, all[k as int], p.states.last(), e@));
                return Err(e);
            },
            Ok(a) => a,
        };
        tally.add(&rep, request, latency, direct);
        proof {
            let q = Progress {
                states: p.states.push(store@),
                answers: p.answers.push((audio@, rep@)),
                direct: p.direct.push(speech@),
                waits: p.waits.push((latency, direct)),
            };
            lemma_counted_prefix(all, q, p, k as nat);
            assert forall|i: int| 0 <= i < q.answers.len() implies #[trigger] answered_at(
                x,
                all,
                q,
                i,
            ) by {
                if i < k {
                    assert(answered_at(x, all, p, i));
                    assert(q.states[i] == p.states[i] && q.states[i + 1] == p.states[i + 1]);
                    assert(q.answers[i] == p.answers[i] && q.direct[i] == p.direct[i]);
                } else {
                    assert(q.states[i] == p.states.last());
                }
            }
            p = q;
        }
        k += 1;
    }
    Ok(tally.report(provider_profile))
}

/// The clock decides nothing but the latencies: two replays with the same answers
/// report the same requests, coverage, characters, costs, and simulated latency.
pub proof fn the_clock_sets_only_latencies(
    stream: Seq<Seq<char>>,
    a: Progress,
    b: Progress,
    profile: Seq<char>,
)
    requires
        a.answers == b.answers,
        a.answers.len() == stream.len(),
    ensures
        ({
            let v = replay_report_of(counted(stream, a, stream.len()), profile);
            let w = replay_report_of(counted(stream, b, stream.len()), profile);
            &&& v.requests == w.requests
            &&& v.coverage_pct == w.coverage_pct
            &&& v.generated_chars == w.generated_chars
            &&& v.total_chars == w.total_chars
            &&& v.simulated_cloud_p99 == w.simulated_cloud_p99
            &&& v.est_cost == w.est_cost
            &&& v.always_cloud_cost == w.always_cloud_cost
            &&& v.provider_profile == w.provider_profile
        }),
{
    lemma_counted_alike(stream, a, b, stream.len());
}

proof fn lemma_counted_alike(stream: Seq<Seq<char>>, a: Progress, b: Progress, n: nat)
    requires
        a.answers == b.answers,
        n <= a.answers.len(),
    ensures
        ({
            let v = counted(stream, a, n);
            let w = counted(stream, b, n);
            &&& v.requests == w.requests
            &&& v.generated_chars == w.generated_chars
            &&& v.total_chars == w.total_chars
            &&& v.simulated == w.simulated
        }),
    decreases n,
{
    if n > 0 {
        lemma_counted_alike(stream, a, b, (n - 1) as nat);
    }
}

} // verus!
