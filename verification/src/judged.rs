//! What evaluations say of what they measured: shares, percentiles, prices, and
//! whether the gates are passed.

use crate::audio::WavView;
use crate::double::{
    doubles_keep_the_order, infinite, itself_over, lemma_same_quotient, nothing_is_whole,
    nothing_over, nothing_times, over, small_is_whole, times, unit, whole, whole_is_positive, TOP,
};
use crate::eval::{
    boundary_error, cost_of, coverage, elapsed_ms, exact_ms, replay_report_of, replay_tallied,
    row_of, simulated_latency, tallied, ComposeMode, EvalView, ModeView, ReplayTallyView, RowView,
    TallyView,
};
use crate::figures::average_signed;
use crate::gates::{
    codec_sums, gates_pass, longtail_spot, storage_ratio, CodecView, GatesView, ThresholdView,
};
use crate::providers::list_price;
use crate::report::{percent, ReportView};
use crate::stats::{below, percentile_of, percentile_rank, up_to};
use vstd::arithmetic::power2::lemma_pow2_pos;
use vstd::prelude::*;

verus! {

// ---- shares ----

proof fn lemma_quotient(k: nat, d: nat)
    requires
        0 < d,
        k * d <= TOP,
    ensures
        over((k * d) * unit(), d * unit()) == k * unit(),
{
    let u = unit();
    lemma_pow2_pos(1074);
    assert(k <= k * d) by (nonlinear_arith)
        requires
            d > 0,
    ;
    let e = d * u;
    assert(e > 0) by (nonlinear_arith)
        requires
            e == d * u,
            d > 0,
            u > 0,
    ;
    lemma_same_quotient(k * u, 1, e, TOP as nat);
    assert(1 * e == e);
    assert(((k * d) * u) * u == (k * u) * e) by (nonlinear_arith)
        requires
            e == d * u,
    ;
    small_is_whole(k);
}

proof fn lemma_product(a: nat, b: nat)
    requires
        a * b <= TOP,
        a <= TOP,
        b <= TOP,
    ensures
        times(whole(a), whole(b)) == (a * b) * unit(),
{
    let u = unit();
    lemma_pow2_pos(1074);
    small_is_whole(a);
    small_is_whole(b);
    lemma_same_quotient((a * b) * u, 1, u, TOP as nat);
    assert(1 * u == u);
    assert((a * u) * (b * u) == ((a * b) * u) * u) by (nonlinear_arith);
    small_is_whole(a * b);
}

/// Nothing of a total is none of it, all of it is a hundred percent, and a larger
/// part is no smaller a share.
pub proof fn shares_are_in_percent(a: nat, b: nat, total: nat)
    requires
        0 < total,
        100 * total <= 0x20_0000_0000_0000,
        a <= b <= total,
    ensures
        percent(0, total) == 0,
        percent(total, total) == 100 * unit(),
        percent(a, total) <= percent(b, total) <= 100 * unit(),
{
    let u = unit();
    lemma_pow2_pos(1074);
    nothing_is_whole();
    whole_is_positive(total);
    nothing_over(whole(total));
    nothing_times(whole(100));
    assert(whole(100) * whole(0) == 0 * whole(100)) by (nonlinear_arith)
        requires
            whole(0) == 0,
    ;
    lemma_product(100, total);
    lemma_quotient(100, total);
    small_is_whole(total);
    lemma_percent_order(a, b, total);
    lemma_percent_order(b, total, total);
}

proof fn lemma_percent_order(a: nat, b: nat, total: nat)
    requires
        0 < total,
        a <= b,
    ensures
        percent(a, total) <= percent(b, total),
{
    let u = unit();
    lemma_pow2_pos(1074);
    whole_is_positive(total);
    assert(a * u <= b * u) by (nonlinear_arith)
        requires
            a <= b,
    ;
    doubles_keep_the_order(a * u, b * u, 1);
    let h = whole(100);
    assert(h * whole(a) <= h * whole(b)) by (nonlinear_arith)
        requires
            whole(a) <= whole(b),
    ;
    doubles_keep_the_order(h * whole(a), h * whole(b), u);
    let (x, y) = (times(h, whole(a)), times(h, whole(b)));
    assert(x * u <= y * u) by (nonlinear_arith)
        requires
            x <= y,
    ;
    doubles_keep_the_order(x * u, y * u, whole(total));
}

/// What is covered is what was not generated: all where nothing was, nothing where
/// all was, and no less where less was.
pub proof fn coverage_is_what_was_not_generated(a: nat, b: nat, total: nat)
    requires
        0 < total,
        100 * total <= 0x20_0000_0000_0000,
        a <= b <= total,
    ensures
        coverage(0, total) == 100 * unit(),
        coverage(total, total) == 0,
        coverage(b, total) <= coverage(a, total),
{
    shares_are_in_percent((total - b) as nat, (total - a) as nat, total);
}

/// A million characters cost the price, and none cost nothing.
pub proof fn prices_are_for_a_million(dollars: nat)
    requires
        dollars <= 0x1_0000_0000,
    ensures
        cost_of(1_000_000, dollars) == dollars * unit(),
        cost_of(0, dollars) == 0,
{
    whole_is_positive(1_000_000);
    small_is_whole(1_000_000);
    lemma_quotient(1, 1_000_000);
    assert(1 * unit() == unit());
    crate::double::one_is_whole();
    lemma_product(1, dollars);
    nothing_is_whole();
    nothing_over(whole(1_000_000));
    nothing_times(whole(dollars));
}

/// A hosted provider is taken to answer after a quarter of a second and eight
/// milliseconds for each character.
pub proof fn hosted_providers_take_their_time(chars: nat)
    requires
        chars <= 0x1_0000_0000,
    ensures
        simulated_latency(chars) == 250_000_000 + 8_000_000 * chars,
{
}

/// A boundary is right in the middle of the gap, 30 ms behind the end of the word;
/// it is off by how far it is from there, on either side.
pub proof fn boundary_errors_are_distances(k: nat, off: nat, truth_ms: nat)
    requires
        truth_ms + k + off <= 0x1_0000_0000,
    ensures
        boundary_error(16 * (truth_ms + 30), 16_000, truth_ms) == 0,
        boundary_error(16 * (truth_ms + 30 + off), 16_000, truth_ms) == off * 1_000_000,
        k <= truth_ms ==> boundary_error(16 * (truth_ms + 30 - k) as nat, 16_000, truth_ms) == k
            * 1_000_000,
{
    lemma_sixteen(truth_ms + 30);
    lemma_sixteen(truth_ms + 30 + off);
    if k <= truth_ms {
        lemma_sixteen((truth_ms + 30 - k) as nat);
    }
}

proof fn lemma_sixteen(ms: nat)
    ensures
        ((16 * ms) * 1_000_000_000) / 16_000 == ms * 1_000_000,
{
    assert((16 * ms) * 1_000_000_000 == (ms * 1_000_000) * 16_000);
}

// ---- percentiles ----

proof fn lemma_counts(xs: Seq<u64>, v: u64)
    ensures
        below(xs, v) == xs.filter(|x: u64| x < v).len(),
        up_to(xs, v) == xs.filter(|x: u64| x <= v).len(),
    decreases xs.len(),
{
    reveal(Seq::filter);
    if xs.len() > 0 {
        lemma_counts(xs.drop_last(), v);
    }
}

/// A percentile is one of the values: where they are put in order, it stands at the
/// place that is as many hundredths of the way from the first to the last.
pub proof fn percentiles_stand_in_order(xs: Seq<u64>, p: nat) -> (k: nat)
    requires
        xs.len() > 0,
        p <= 100,
    ensures
        ({
            let v = percentile_of(xs, p);
            let n = xs.len();
            &&& xs.contains(v)
            &&& xs.filter(|x: u64| x < v).len() <= k < xs.filter(|x: u64| x <= v).len()
            &&& 2 * ((n - 1) * p) - 100 < 200 * k <= 2 * ((n - 1) * p) + 100
        }),
{
    let n = xs.len();
    let k = percentile_rank(n, p);
    let v = percentile_of(xs, p);
    let a = (n - 1) * p;
    assert(0 <= a <= (n - 1) * 100) by (nonlinear_arith)
        requires
            a == (n - 1) * p,
            0 <= p <= 100,
            n >= 1,
    ;
    crate::stats::every_rank_is_taken(xs, k);
    lemma_counts(xs, v);
    k
}

// ---- storage ----

/// Where recordings take so many times the bytes of their tokens, that is the
/// ratio.
pub proof fn storage_is_told_as_a_ratio(c: CodecView, k: nat)
    requires
        c.token_bytes > 0,
        c.wav_bytes == k * c.token_bytes,
        c.wav_bytes <= 0x20_0000_0000_0000,
    ensures
        storage_ratio(c) == k * unit(),
{
    let d = c.token_bytes as nat;
    assert(d <= TOP || k == 0) by (nonlinear_arith)
        requires
            k * d <= TOP,
    ;
    if k == 0 {
        assert(0 * d == 0);
        nothing_is_whole();
        whole_is_positive(d);
        nothing_over(whole(d));
        assert(0 * unit() == 0);
    } else {
        small_is_whole(d);
        small_is_whole(k * d);
        lemma_quotient(k, d);
    }
}

// ---- gates ----

/// Whether a value is at least a bound, where there is one.
pub open spec fn reaches(x: int, t: ThresholdView) -> bool {
    t matches ThresholdView::Number(v) ==> v <= x
}

/// Whether a value is at most a bound; not where the bound is no number.
pub open spec fn keeps_to(x: int, t: ThresholdView) -> bool {
    t matches ThresholdView::Number(v) && x <= v
}

/// Whether a mean is at least a bound, where anything was measured.
pub open spec fn mean_reaches(v: Seq<int>, t: ThresholdView) -> bool {
    average_signed(v) matches Some(m) ==> reaches(m, t)
}

/// The gates are passed exactly where boundaries were measured and are not too far
/// off, a replay covers enough and is faster than a hosted provider, the long tail
/// is covered, and tokens are small and true enough.
pub proof fn gates_hold_every_bound(e: EvalView, g: GatesView)
    ensures
        gates_pass(e, g) <==> {
            let k = longtail_spot(e.rows) as int;
            let c = codec_sums(e.rows);
            &&& e.boundary.boundaries > 0
            &&& keeps_to(exact_ms(e.boundary.median as nat) as int, g.max_median)
            &&& keeps_to(exact_ms(e.boundary.p90 as nat) as int, g.max_p90)
            &&& e.replay matches Some(r) && reaches(r.coverage_pct as int, g.min_coverage)
                && elapsed_ms(r.p99 as nat) < exact_ms(r.simulated_cloud_p99 as nat)
            &&& k < e.rows.len() && reaches(e.rows[k].cache_hit_pct as int, g.min_longtail)
            &&& c.rows > 0 ==> c.token_bytes > 0 && reaches(
                storage_ratio(c) as int,
                g.min_storage_ratio,
            ) && mean_reaches(c.stoi, g.min_stoi) && mean_reaches(c.voice, g.min_voice)
        },
{
}

/// The long tail is judged by the first row of the current mode over it.
pub proof fn the_long_tail_is_one_row(rows: Seq<RowView>)
    ensures
        ({
            let k = longtail_spot(rows) as int;
            &&& 0 <= k <= rows.len()
            &&& k < rows.len() ==> rows[k].mode == "p4-current"@ && rows[k].corpus == "long_tail"@
            &&& forall|i: int|
                0 <= i < k ==> (#[trigger] rows[i]).mode != "p4-current"@ || rows[i].corpus
                    != "long_tail"@
        }),
    decreases rows.len(),
{
    if rows.len() > 0 && !(rows[0].mode == "p4-current"@ && rows[0].corpus == "long_tail"@) {
        let rest = rows.skip(1);
        the_long_tail_is_one_row(rest);
        let k = longtail_spot(rows) as int;
        assert forall|i: int| 0 <= i < k implies (#[trigger] rows[i]).mode != "p4-current"@
            || rows[i].corpus != "long_tail"@ by {
            if i > 0 {
                assert(rows[i] == rest[i - 1]);
            }
        }
        if k < rows.len() {
            assert(rows[k] == rest[k - 1]);
        }
    }
}

// ---- tallies ----

/// A row is of its tally: it names its mode and corpus, counts what was counted,
/// and speech that took as long to make as to play has the factor one. Storage
/// is told of modes that compose from tokens only.
pub proof fn rows_are_of_their_tally(
    t: TallyView,
    mode: ModeView,
    corpus: Seq<char>,
    unresolved: usize,
    units_total: usize,
    storage: (u128, u128),
)
    requires
        t.utterances <= usize::MAX,
        t.generated_chars <= t.total_chars <= usize::MAX,
        storage.0 <= u64::MAX,
        storage.1 <= u64::MAX,
    ensures
        ({
            let r = row_of(t, mode, corpus, unresolved, units_total, storage);
            &&& r.mode == mode.name && r.corpus == corpus
            &&& r.eval_utterances == t.utterances
            &&& r.generated_chars == t.generated_chars && r.total_chars == t.total_chars
            &&& r.unresolved_words == unresolved && r.units_total == units_total
            &&& 0 < t.spoken < infinite() && t.wall == t.spoken ==> r.rtf == unit()
            &&& 0 < t.spoken < infinite() && t.wall == 0 ==> r.rtf == 0
            &&& 0 < t.utterances <= TOP && t.seams == whole(t.utterances) ==> r.mean_seam == unit()
            &&& mode.compose_mode == ComposeMode::ViterbiTokens ==> r.token_bytes == storage.0
                && r.wav_bytes == storage.1
            &&& mode.compose_mode != ComposeMode::ViterbiTokens ==> r.token_bytes == 0
                && r.wav_bytes == 0 && r.stoi is None && r.voice_fidelity is None
        }),
{
    if 0 < t.spoken {
        itself_over(t.spoken);
        nothing_over(t.spoken);
    }
    if 0 < t.utterances {
        whole_is_positive(t.utterances);
        itself_over(whole(t.utterances));
    }
}

/// A tally grows by what each utterance took.
pub proof fn tallies_add_up(t: TallyView, rep: ReportView, audio: WavView, wall: u64)
    requires
        t.utterances < usize::MAX,
        t.generated_chars + rep.generated_chars <= usize::MAX,
        t.total_chars + rep.total_chars <= usize::MAX,
    ensures
        ({
            let after = tallied(t, rep, audio, wall);
            &&& after.utterances - t.utterances == 1
            &&& after.generated_chars - t.generated_chars == rep.generated_chars
            &&& after.total_chars - t.total_chars == rep.total_chars
            &&& after.stoi == t.stoi && after.voice == t.voice
        }),
{
}

/// A replay that generated nothing cost nothing and is covered in full, while
/// always asking a provider costs its price for a million characters.
pub proof fn replays_are_priced(t: ReplayTallyView, profile: Seq<char>)
    requires
        t.total_chars == 1_000_000,
    ensures
        ({
            let r = replay_report_of(t, profile);
            &&& r.provider_profile == profile
            &&& r.always_cloud_cost == list_price(profile) * unit()
            &&& t.generated_chars == 0 ==> r.est_cost == 0 && r.coverage_pct == 100 * unit()
            &&& t.generated_chars == t.total_chars ==> r.est_cost == r.always_cloud_cost
                && r.coverage_pct == 0
        }),
{
    prices_are_for_a_million(list_price(profile) as nat);
    coverage_is_what_was_not_generated(0, 1_000_000, 1_000_000);
}

/// A replay counts every request, and keeps how long each took.
pub proof fn replays_count_their_requests(
    t: ReplayTallyView,
    rep: ReportView,
    request: Seq<char>,
    latency: u64,
    direct: u64,
)
    requires
        t.requests < usize::MAX,
        t.generated_chars + rep.generated_chars <= usize::MAX,
        t.total_chars + rep.total_chars <= usize::MAX,
    ensures
        ({
            let after = replay_tallied(t, rep, request, latency, direct);
            &&& after.requests - t.requests == 1
            &&& after.generated_chars - t.generated_chars == rep.generated_chars
            &&& after.total_chars - t.total_chars == rep.total_chars
            &&& after.latencies.last() == latency && after.latencies.drop_last() == t.latencies
            &&& after.direct.last() == direct && after.direct.drop_last() == t.direct
            &&& after.simulated.drop_last() == t.simulated
        }),
{
    let after = replay_tallied(t, rep, request, latency, direct);
    assert(after.latencies.drop_last() =~= t.latencies);
    assert(after.direct.drop_last() =~= t.direct);
    assert(after.simulated.drop_last() =~= t.simulated);
}

} // verus!
