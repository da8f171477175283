//! Provider-free cache planning.
//!
//! A plan says which spans of a text are cached and which are missing. The
//! caller brings audio for the missing spans and has the whole composed,
//! without any call to a provider.

use crate::audio::{parse_wav, parsed_wav, splice, spliced, wavs, WavAudio, WavView};
use crate::bytes::{pcm_range, pcm_samples};
use crate::codec::AudioCodec;
use crate::digest::{content_name, hash_hex, join_path, joined_path};
use crate::error::{outcome, ErrorView, MimicError};
use crate::fade::{FadeCurve, Gains};
use crate::g2p::G2p;
use crate::limits::{cap, capped};
use crate::manifest::{
    artifact_views, cache_domain, count_visible, domain_of, draft_spans, drafted, manifest_spans,
    planning, visible, ArtifactView, Drafting, RequestView, SpanView,
};
use crate::pipeline::{
    default_options, ingest_with_options, ingested, ingested_utterance, opt_dict, IngestOptions,
};
use crate::store::{MimicStore, StoreView};
use crate::text::{dec, decimal, same_text};
use crate::units::{normalize, normalized, tokens};
use crate::{CROSSFADE_MS, SAMPLE_RATE};
use vstd::prelude::*;
use vstd::string::*;
use vstd::utf8::*;

pub use crate::manifest::{Artifact, ManifestSpan, PlanRequest};

verus! {

/// How long a plan lives, in seconds.
pub const PLAN_TTL: u64 = 60;

/// Memory set aside for every composition, in bytes.
pub const RAM_HEADROOM: u64 = 16_777_216;

/// Bytes of audio that a generated character is estimated at.
pub const BYTES_PER_CHAR: u64 = 3_200;

/// What is known of a plan: how much of its text is cached, what it may cost,
/// and its spans.
#[derive(Debug, PartialEq, Eq)]
pub struct PlanResponse {
    pub plan_id: String,
    pub expires_at: u64,
    pub manifest_dir: String,
    pub total_chars: usize,
    pub cached_chars: usize,
    pub missing_chars: usize,
    pub estimated_ram_bytes: u64,
    pub estimated_storage_bytes: u64,
    pub spans: Vec<ManifestSpan>,
}

/// The value of a response.
#[verifier::ext_equal]
pub struct ResponseView {
    pub plan_id: Seq<char>,
    pub expires_at: u64,
    pub manifest_dir: Seq<char>,
    pub total_chars: nat,
    pub cached_chars: nat,
    pub missing_chars: nat,
    pub estimated_ram_bytes: u64,
    pub estimated_storage_bytes: u64,
    pub spans: Seq<SpanView>,
}

impl View for PlanResponse {
    type V = ResponseView;

    open spec fn view(&self) -> ResponseView {
        ResponseView {
            plan_id: self.plan_id@,
            expires_at: self.expires_at,
            manifest_dir: self.manifest_dir@,
            total_chars: self.total_chars as nat,
            cached_chars: self.cached_chars as nat,
            missing_chars: self.missing_chars as nat,
            estimated_ram_bytes: self.estimated_ram_bytes,
            estimated_storage_bytes: self.estimated_storage_bytes,
            spans: manifest_spans(self.spans@),
        }
    }
}

fn copy_spans(v: &Vec<ManifestSpan>) -> (r: Vec<ManifestSpan>)
    ensures
        manifest_spans(r@) == manifest_spans(v@),
{
    let mut out: Vec<ManifestSpan> = Vec::new();
    let mut i: usize = 0;
    while i < v.len()
        invariant
            i <= v@.len(),
            out@.len() == i,
            forall|k: int| 0 <= k < i ==> (#[trigger] out@[k])@ == v@[k]@,
        decreases v@.len() - i,
    {
        let span = v[i].clone();
        out.push(span);
        i += 1;
    }
    assert(manifest_spans(out@) =~= manifest_spans(v@));
    out
}

impl Clone for PlanResponse {
    fn clone(&self) -> (r: PlanResponse)
        ensures
            r@ == self@,
    {
        PlanResponse {
            plan_id: self.plan_id.clone(),
            expires_at: self.expires_at,
            manifest_dir: self.manifest_dir.clone(),
            total_chars: self.total_chars,
            cached_chars: self.cached_chars,
            missing_chars: self.missing_chars,
            estimated_ram_bytes: self.estimated_ram_bytes,
            estimated_storage_bytes: self.estimated_storage_bytes,
            spans: copy_spans(&self.spans),
        }
    }
}

// ---- estimates ----

/// The bytes of all cached spans.
pub open spec fn span_bytes(spans: Seq<SpanView>) -> nat
    decreases spans.len(),
{
    if spans.len() == 0 {
        0
    } else {
        span_bytes(spans.drop_last()) + spans.last().bytes as nat
    }
}

fn sum_bytes(spans: &Vec<ManifestSpan>) -> (r: u64)
    ensures
        r == capped(span_bytes(manifest_spans(spans@))),
{
    let ghost all = manifest_spans(spans@);
    let mut sum: u128 = 0;
    let mut i: usize = 0;
    assert(all.take(0) =~= Seq::<SpanView>::empty());
    while i < spans.len()
        invariant
            all == manifest_spans(spans@),
            i <= spans@.len(),
            sum == span_bytes(all.take(i as int)),
            sum <= i * 0xffff_ffff_ffff_ffff,
        decreases spans@.len() - i,
    {
        assert(all.take(i + 1).drop_last() =~= all.take(i as int));
        assert(all.take(i + 1).last() == spans@[i as int]@);
        sum = sum + spans[i].bytes as u128;
        i += 1;
    }
    assert(all.take(i as int) =~= all);
    cap(sum)
}

// ---- drafting a plan ----

/// What a plan is made of, apart from the text and the store: when, by which
/// process, and where.
pub struct Origin {
    pub now: u64,
    pub pid: u32,
    pub sequence: u64,
    pub runtime_root: Seq<char>,
    pub object_root: Seq<char>,
}

/// The identity of a plan.
pub open spec fn plan_name(o: Origin, text: Seq<char>) -> Seq<char> {
    content_name(
        encode_utf8(
            dec(o.now as nat) + ":"@ + dec(o.pid as nat) + ":"@ + dec(o.sequence as nat) + ":"@
                + text,
        ),
    )
}

/// What is not cached of a text.
pub open spec fn missing_chars(total: nat, cached: nat) -> nat {
    if cached <= total {
        (total - cached) as nat
    } else {
        0
    }
}

/// The response of a plan for a text in normal form.
pub open spec fn response_of(o: Origin, text: Seq<char>, d: Drafting) -> ResponseView {
    let id = plan_name(o, text);
    let missing = missing_chars(visible(text), d.cached);
    ResponseView {
        plan_id: id,
        expires_at: capped(o.now as nat + 60),
        manifest_dir: joined_path(o.runtime_root, id),
        total_chars: visible(text),
        cached_chars: d.cached,
        missing_chars: missing,
        estimated_ram_bytes: capped(
            RAM_HEADROOM as nat + span_bytes(d.spans) + 2 * (missing * BYTES_PER_CHAR as nat),
        ),
        estimated_storage_bytes: capped(missing * BYTES_PER_CHAR as nat),
        spans: d.spans,
    }
}

/// A plan that waits for its files to be laid out.
pub struct Draft {
    pub request: PlanRequest,
    pub response: PlanResponse,
    /// Where the links of the plan are gathered before it is in place.
    pub staging_dir: String,
    pub artifacts: Vec<Artifact>,
}

/// The value of a draft.
#[verifier::ext_equal]
pub struct DraftView {
    pub request: RequestView,
    pub response: ResponseView,
    pub staging_dir: Seq<char>,
    pub artifacts: Seq<ArtifactView>,
}

impl View for Draft {
    type V = DraftView;

    open spec fn view(&self) -> DraftView {
        DraftView {
            request: self.request@,
            response: self.response@,
            staging_dir: self.staging_dir@,
            artifacts: artifact_views(self.artifacts@),
        }
    }
}

/// The draft of a plan.
pub open spec fn draft_of<C: AudioCodec + ?Sized>(
    o: Origin,
    s: StoreView,
    request: RequestView,
    codec: &C,
) -> core::result::Result<DraftView, ErrorView> {
    let text = normalized(request.text);
    let x = planning(s.nodes, request.voice_id, domain_of(request), o.object_root);
    match drafted(x, text, codec) {
        Err(e) => Err(e),
        Ok(d) => Ok(
            DraftView {
                request,
                response: response_of(o, text, d),
                staging_dir: joined_path(o.runtime_root, "."@ + plan_name(o, text) + ".tmp"@),
                artifacts: d.artifacts,
            },
        ),
    }
}

// ---- pending plans ----

/// A plan that is in place, with the audio that was brought for it.
pub struct PendingPlan {
    pub request: PlanRequest,
    pub response: PlanResponse,
    pub injected: Vec<(String, WavAudio)>,
}

/// The value of a pending plan.
#[verifier::ext_equal]
pub struct PendingView {
    pub request: RequestView,
    pub response: ResponseView,
    pub injected: Seq<(Seq<char>, WavView)>,
}

/// The values of audio with the names of the spans it is for.
pub open spec fn injections(v: Seq<(String, WavAudio)>) -> Seq<(Seq<char>, WavView)> {
    Seq::new(v.len(), |i: int| (v[i].0@, v[i].1@))
}

impl View for PendingPlan {
    type V = PendingView;

    open spec fn view(&self) -> PendingView {
        PendingView {
            request: self.request@,
            response: self.response@,
            injected: injections(self.injected@),
        }
    }
}

/// The values of a sequence of plans.
pub open spec fn pending_views(v: Seq<PendingPlan>) -> Seq<PendingView> {
    Seq::new(v.len(), |i: int| v[i]@)
}

/// The position of the plan with an identity, or the length.
pub open spec fn plan_spot(plans: Seq<PendingView>, id: Seq<char>) -> nat
    decreases plans.len(),
{
    if plans.len() == 0 || plans[0].response.plan_id == id {
        0
    } else {
        1 + plan_spot(plans.skip(1), id)
    }
}

pub proof fn lemma_plan_spot(plans: Seq<PendingView>, id: Seq<char>)
    ensures
        plan_spot(plans, id) <= plans.len(),
        forall|i: int|
            0 <= i < plan_spot(plans, id) ==> (#[trigger] plans[i]).response.plan_id != id,
        plan_spot(plans, id) < plans.len() ==> plans[plan_spot(
            plans,
            id,
        ) as int].response.plan_id == id,
    decreases plans.len(),
{
    if plans.len() > 0 && plans[0].response.plan_id != id {
        let t = plans.skip(1);
        lemma_plan_spot(t, id);
        assert forall|i: int| 0 <= i < plan_spot(plans, id) implies (
        #[trigger] plans[i]).response.plan_id != id by {
            if i > 0 {
                assert(plans[i] == t[i - 1]);
            }
        }
        if plan_spot(plans, id) < plans.len() {
            assert(plans[plan_spot(plans, id) as int] == t[plan_spot(t, id) as int]);
        }
    }
}

/// Whether all plans have different identities.
pub open spec fn distinct_plans(plans: Seq<PendingView>) -> bool {
    forall|i: int, j: int|
        0 <= i < j < plans.len() ==> (#[trigger] plans[i]).response.plan_id != (
        #[trigger] plans[j]).response.plan_id
}

/// The plans that have not expired before `now`.
pub open spec fn live(plans: Seq<PendingView>, now: u64) -> Seq<PendingView>
    decreases plans.len(),
{
    if plans.len() == 0 {
        Seq::empty()
    } else if plans.last().response.expires_at < now {
        live(plans.drop_last(), now)
    } else {
        live(plans.drop_last(), now).push(plans.last())
    }
}

/// The directories of the plans that have expired before `now`.
pub open spec fn lapsed(plans: Seq<PendingView>, now: u64) -> Seq<Seq<char>>
    decreases plans.len(),
{
    if plans.len() == 0 {
        Seq::empty()
    } else if plans.last().response.expires_at < now {
        lapsed(plans.drop_last(), now).push(plans.last().response.manifest_dir)
    } else {
        lapsed(plans.drop_last(), now)
    }
}

/// Plans that are still live are among the plans, are not expired, and stay
/// distinct.
pub proof fn live_plans_are_unexpired(plans: Seq<PendingView>, now: u64)
    requires
        distinct_plans(plans),
    ensures
        distinct_plans(live(plans, now)),
        forall|i: int|
            0 <= i < live(plans, now).len() ==> plans.contains(#[trigger] live(plans, now)[i])
                && live(plans, now)[i].response.expires_at >= now,
        forall|i: int|
            0 <= i < plans.len() && (#[trigger] plans[i]).response.expires_at >= now ==> live(
                plans,
                now,
            ).contains(plans[i]),
    decreases plans.len(),
{
    if plans.len() > 0 {
        let init = plans.drop_last();
        assert forall|i: int, j: int| 0 <= i < j < init.len() implies (
        #[trigger] init[i]).response.plan_id != (#[trigger] init[j]).response.plan_id by {
            assert(init[i] == plans[i] && init[j] == plans[j]);
        }
        live_plans_are_unexpired(init, now);
        let before = live(init, now);
        let after = live(plans, now);
        assert forall|i: int| 0 <= i < after.len() implies plans.contains(#[trigger] after[i])
            && after[i].response.expires_at >= now by {
            if i < before.len() {
                assert(after[i] == before[i]);
                let k = choose|k: int| 0 <= k < init.len() && init[k] == before[i];
                assert(plans[k] == before[i]);
            } else {
                assert(plans[plans.len() - 1] == after[i]);
            }
        }
        assert forall|i: int, j: int| 0 <= i < j < after.len() implies (
        #[trigger] after[i]).response.plan_id != (#[trigger] after[j]).response.plan_id by {
            assert(after[i] == before[i]);
            if j < before.len() {
                assert(after[j] == before[j]);
            } else {
                let k = choose|k: int| 0 <= k < init.len() && init[k] == before[i];
                assert(plans[k] == before[i]);
                assert(plans[k].response.plan_id != plans[plans.len() - 1].response.plan_id);
            }
        }
        assert forall|i: int|
            0 <= i < plans.len() && (#[trigger] plans[i]).response.expires_at >= now implies after.contains(
            plans[i],
        ) by {
            if i < init.len() {
                assert(init[i] == plans[i]);
                let k = choose|k: int| 0 <= k < before.len() && before[k] == init[i];
                assert(after[k] == plans[i]);
            } else {
                assert(after[after.len() - 1] == plans[i]);
            }
        }
    }
}

/// Distinct plans stay distinct: where expired ones are dropped, where one is
/// put in place or changed, and where one is taken out.
pub proof fn plans_stay_distinct(m: ManagerView, p: PendingView, now: u64, k: int)
    requires
        distinct_plans(m.plans),
    ensures
        distinct_plans(reaped(m, now).plans),
        distinct_plans(with_plan(m, p).plans),
        0 <= k < m.plans.len() ==> distinct_plans(without_plan(m, k).plans),
{
    live_plans_are_unexpired(m.plans, now);
    lemma_plan_placed(m, p);
    if 0 <= k < m.plans.len() {
        let after = m.plans.remove(k);
        assert forall|i: int, j: int| 0 <= i < j < after.len() implies (
        #[trigger] after[i]).response.plan_id != (#[trigger] after[j]).response.plan_id by {
            let a = if i < k {
                i
            } else {
                i + 1
            };
            let b = if j < k {
                j
            } else {
                j + 1
            };
            assert(after[i] == m.plans[a] && after[j] == m.plans[b]);
        }
    }
}

// ---- the manager ----

/// Keeps the plans that are in place.
pub struct PlanManager {
    runtime_root: String,
    object_root: String,
    plans: Vec<PendingPlan>,
    sequence: u64,
    retired: Vec<String>,
}

/// The value of a manager: where plans and objects lie, the plans in place, the
/// number of plans drafted so far, and the directories that no plan needs any
/// more.
#[verifier::ext_equal]
pub struct ManagerView {
    pub runtime_root: Seq<char>,
    pub object_root: Seq<char>,
    pub plans: Seq<PendingView>,
    pub sequence: u64,
    pub retired: Seq<Seq<char>>,
}

impl View for PlanManager {
    type V = ManagerView;

    closed spec fn view(&self) -> ManagerView {
        ManagerView {
            runtime_root: self.runtime_root@,
            object_root: self.object_root@,
            plans: pending_views(self.plans@),
            sequence: self.sequence,
            retired: crate::text::texts(self.retired@),
        }
    }
}

/// The manager without the plans that have expired.
pub open spec fn reaped(m: ManagerView, now: u64) -> ManagerView {
    ManagerView {
        plans: live(m.plans, now),
        retired: m.retired + lapsed(m.plans, now),
        ..m
    }
}

/// The number after another, starting again behind the last.
pub open spec fn next_number(n: u64) -> u64 {
    if n == u64::MAX {
        0
    } else {
        (n + 1) as u64
    }
}

/// The manager with one more plan in place, or another one under its identity.
pub open spec fn with_plan(m: ManagerView, p: PendingView) -> ManagerView {
    let k = plan_spot(m.plans, p.response.plan_id) as int;
    ManagerView {
        plans: if k < m.plans.len() {
            m.plans.update(k, p)
        } else {
            m.plans.push(p)
        },
        ..m
    }
}

/// The manager without plan `k`.
pub open spec fn without_plan(m: ManagerView, k: int) -> ManagerView {
    ManagerView { plans: m.plans.remove(k), ..m }
}

/// The problem that there is no plan with an identity.
pub open spec fn no_plan(id: Seq<char>) -> ErrorView {
    ErrorView::NotFound("plan "@ + id + "; create a new plan and retry"@)
}

/// The problem that a plan has expired.
pub open spec fn expired_plan() -> ErrorView {
    ErrorView::NotFound("expired plan; create a new plan and retry"@)
}

/// The position of the audio for a span, or the length.
pub open spec fn injection_spot(v: Seq<(Seq<char>, WavView)>, id: Seq<char>) -> nat
    decreases v.len(),
{
    if v.len() == 0 || v[0].0 == id {
        0
    } else {
        1 + injection_spot(v.skip(1), id)
    }
}

/// Whether a manifest has a missing span with a name.
pub open spec fn wants(spans: Seq<SpanView>, id: Seq<char>) -> bool {
    exists|k: int|
        0 <= k < spans.len() && (#[trigger] spans[k]).span_id == id && spans[k].kind == "missing"@
}

/// What comes of bringing audio for a span: the manager after it, and the
/// problem if there is one. Audio may be brought twice, but not changed.
pub open spec fn injected(
    m: ManagerView,
    plan_id: Seq<char>,
    span_id: Seq<char>,
    body: Seq<u8>,
    now: u64,
) -> (ManagerView, core::result::Result<(), ErrorView>) {
    let k = plan_spot(m.plans, plan_id) as int;
    if k >= m.plans.len() {
        (m, Err(no_plan(plan_id)))
    } else {
        let p = m.plans[k];
        let audio = WavView { samples: pcm_samples(body), sample_rate: SAMPLE_RATE };
        let at = injection_spot(p.injected, span_id) as int;
        if now > p.response.expires_at {
            (m, Err(expired_plan()))
        } else if !wants(p.response.spans, span_id) {
            (
                m,
                Err(
                    ErrorView::NotFound(
                        "missing span "@ + span_id + "; create a new plan and retry"@,
                    ),
                ),
            )
        } else if body.len() % 2 != 0 {
            (
                m,
                Err(
                    ErrorView::Wav(
                        "PCM body has odd byte length; submit complete i16 samples"@,
                    ),
                ),
            )
        } else if at >= p.injected.len() {
            let brought = PendingView { injected: p.injected.push((span_id, audio)), ..p };
            (ManagerView { plans: m.plans.update(k, brought), ..m }, Ok(()))
        } else if p.injected[at].1 == audio {
            (m, Ok(()))
        } else {
            (
                m,
                Err(
                    ErrorView::Wav(
                        "idempotency conflict; create a new plan before changing audio"@,
                    ),
                ),
            )
        }
    }
}

/// What came of reading the file that a cached span links to.
pub enum Fetched {
    Bytes(Vec<u8>),
    /// The link leads out of the object root.
    Outside,
    /// The file could not be read, and why.
    Failed(String),
}

/// The value of a read.
pub enum FetchedView {
    Bytes(Seq<u8>),
    Outside,
    Failed(Seq<char>),
}

impl View for Fetched {
    type V = FetchedView;

    open spec fn view(&self) -> FetchedView {
        match self {
            Fetched::Bytes(b) => FetchedView::Bytes(b@),
            Fetched::Outside => FetchedView::Outside,
            Fetched::Failed(m) => FetchedView::Failed(m@),
        }
    }
}

/// The values of a sequence of reads.
pub open spec fn fetched_views(v: Seq<Fetched>) -> Seq<FetchedView> {
    Seq::new(v.len(), |i: int| v[i]@)
}

/// The read for span `k`. One that was never made counts as failed.
pub open spec fn fetched_at(v: Seq<FetchedView>, k: int) -> FetchedView {
    if k < v.len() {
        v[k]
    } else {
        FetchedView::Failed("artifact was not read"@)
    }
}

/// The audio of a cached span: the linked file, as long as it lies where it
/// should and holds what the manifest says.
pub open spec fn artifact_audio(span: SpanView, f: FetchedView) -> core::result::Result<
    WavView,
    ErrorView,
> {
    match f {
        FetchedView::Failed(m) => Err(ErrorView::Io(m)),
        FetchedView::Outside => Err(
            ErrorView::Wav("manifest link escaped object root; discard the plan and retry"@),
        ),
        FetchedView::Bytes(b) => if content_name(b) != crate::store::text_or_empty(span.sha256) {
            Err(ErrorView::Wav("artifact checksum mismatch; discard the plan and retry"@))
        } else {
            parsed_wav(b)
        },
    }
}

/// The audio brought for a missing span.
pub open spec fn injected_audio(p: PendingView, span: SpanView) -> core::result::Result<
    WavView,
    ErrorView,
> {
    let at = injection_spot(p.injected, span.span_id) as int;
    if at < p.injected.len() {
        Ok(p.injected[at].1)
    } else {
        Err(
            ErrorView::NotFound(
                "uninjected span "@ + span.span_id
                    + "; inject every missing span and try again"@,
            ),
        )
    }
}

/// A plan while its audio is gathered: the store, and the parts or the problem
/// met on the way.
#[verifier::ext_equal]
pub struct Gathering {
    pub store: StoreView,
    pub parts: core::result::Result<Seq<WavView>, ErrorView>,
}

/// How audio that was brought for a plan is stored.
pub open spec fn brought_options() -> IngestOptions {
    IngestOptions { codec_tokens: false, write_wav: true, ..default_options() }
}

/// The store with the audio that was brought for a span.
pub open spec fn span_ingested<C: AudioCodec + ?Sized>(
    s: StoreView,
    p: PendingView,
    span: SpanView,
    audio: WavView,
    dict: crate::speak::Dict,
    codec: &C,
) -> StoreView {
    ingested(
        s,
        span.text,
        ingested_utterance(
            span.text,
            audio,
            p.request.voice_id,
            domain_of(p.request),
            brought_options(),
            dict,
        ),
        codec,
    )
}

/// What span `k` of a plan contributes: the store after it, and its audio or
/// the problem with it.
#[verifier::opaque]
pub open spec fn span_gathered<C: AudioCodec + ?Sized>(
    p: PendingView,
    s: StoreView,
    fetched: Seq<FetchedView>,
    persist: bool,
    dict: crate::speak::Dict,
    k: int,
    codec: &C,
) -> (StoreView, core::result::Result<WavView, ErrorView>) {
    let span = p.response.spans[k];
    if span.kind == "cached"@ {
        (s, artifact_audio(span, fetched_at(fetched, k)))
    } else {
        match injected_audio(p, span) {
            Err(e) => (s, Err(e)),
            Ok(a) => if !persist {
                (s, Ok(a))
            } else if tokens(span.text).len() == 0 {
                (s, Err(ErrorView::NotFound("empty text"@)))
            } else {
                (span_ingested(s, p, span, a, dict, codec), Ok(a))
            },
        }
    }
}

/// What is gathered of the first `n` spans of a plan.
pub open spec fn gathered<C: AudioCodec + ?Sized>(
    p: PendingView,
    s: StoreView,
    fetched: Seq<FetchedView>,
    persist: bool,
    dict: crate::speak::Dict,
    n: nat,
    codec: &C,
) -> Gathering
    decreases n,
{
    if n == 0 {
        Gathering { store: s, parts: Ok(Seq::empty()) }
    } else {
        let before = gathered(p, s, fetched, persist, dict, (n - 1) as nat, codec);
        match before.parts {
            Err(e) => before,
            Ok(parts) => {
                let (after, part) = span_gathered(
                    p,
                    before.store,
                    fetched,
                    persist,
                    dict,
                    n - 1,
                    codec,
                );
                Gathering {
                    store: after,
                    parts: match part {
                        Err(e) => Err(e),
                        Ok(a) => Ok(parts.push(a)),
                    },
                }
            },
        }
    }
}

/// What is gathered of a plan, or why it cannot be: the manager and the store
/// after it, and the parts with the response of the plan.
pub open spec fn plan_gathered<C: AudioCodec + ?Sized>(
    m: ManagerView,
    s: StoreView,
    plan_id: Seq<char>,
    fetched: Seq<FetchedView>,
    persist: bool,
    dict: crate::speak::Dict,
    reaped_at: u64,
    now: u64,
    codec: &C,
) -> (
    ManagerView,
    StoreView,
    core::result::Result<(Seq<WavView>, ResponseView), ErrorView>,
) {
    let r = reaped(m, reaped_at);
    let k = plan_spot(r.plans, plan_id) as int;
    if k >= r.plans.len() {
        (r, s, Err(no_plan(plan_id)))
    } else {
        let p = r.plans[k];
        if now > p.response.expires_at {
            (without_plan(r, k), s, Err(expired_plan()))
        } else {
            let g = gathered(p, s, fetched, persist, dict, p.response.spans.len(), codec);
            (
                without_plan(r, k),
                g.store,
                match g.parts {
                    Err(e) => Err(e),
                    Ok(parts) => Ok((parts, p.response)),
                },
            )
        }
    }
}

/// The parts of a plan, ready to be spliced.
pub struct Gathered {
    pub parts: Vec<WavAudio>,
    pub response: PlanResponse,
}

/// The value of a gathered plan, or of the problem with it.
pub open spec fn gathered_view(
    r: core::result::Result<Gathered, MimicError>,
) -> core::result::Result<(Seq<WavView>, ResponseView), ErrorView> {
    match r {
        Ok(g) => Ok((wavs(g.parts@), g.response@)),
        Err(e) => Err(e@),
    }
}

/// The value of a composed plan, or of the problem with it.
pub open spec fn plan_composed_view(
    r: core::result::Result<(WavAudio, PlanResponse), MimicError>,
) -> core::result::Result<(WavView, ResponseView), ErrorView> {
    match r {
        Ok((a, p)) => Ok((a@, p@)),
        Err(e) => Err(e@),
    }
}

/// What comes of splicing the parts of a plan: the manager after it, and the
/// speech. The directory of a plan that was composed is not needed any more.
pub open spec fn plan_finished(
    m: ManagerView,
    parts: Seq<WavView>,
    response: ResponseView,
    t: Gains,
) -> (ManagerView, core::result::Result<(WavView, ResponseView), ErrorView>) {
    match spliced(parts, CROSSFADE_MS, t) {
        Err(e) => (m, Err(e)),
        Ok(a) => (
            ManagerView { retired: m.retired.push(response.manifest_dir), ..m },
            Ok((a, response)),
        ),
    }
}

// ---- operations ----

fn not_found(head: &str, id: &str, tail: &str) -> (r: MimicError)
    ensures
        r@ == ErrorView::NotFound(head@ + id@ + tail@),
{
    let mut m = head.to_owned();
    m.append(id);
    m.append(tail);
    MimicError::NotFound(m)
}

fn find_plan(plans: &Vec<PendingPlan>, id: &str) -> (r: usize)
    ensures
        r == plan_spot(pending_views(plans@), id@),
        r <= plans@.len(),
{
    let ghost all = pending_views(plans@);
    let mut i: usize = 0;
    assert(all.skip(0) =~= all);
    while i < plans.len()
        invariant
            all == pending_views(plans@),
            i <= plans@.len(),
            plan_spot(all, id@) == i + plan_spot(all.skip(i as int), id@),
        decreases plans@.len() - i,
    {
        assert(all.skip(i as int)[0] == plans@[i as int]@);
        assert(all.skip(i as int).skip(1) =~= all.skip(i + 1));
        if same_text(plans[i].response.plan_id.as_str(), id) {
            return i;
        }
        i += 1;
    }
    i
}

fn find_injection(v: &Vec<(String, WavAudio)>, id: &str) -> (r: usize)
    ensures
        r == injection_spot(injections(v@), id@),
        r <= v@.len(),
{
    let ghost all = injections(v@);
    let mut i: usize = 0;
    assert(all.skip(0) =~= all);
    while i < v.len()
        invariant
            all == injections(v@),
            i <= v@.len(),
            injection_spot(all, id@) == i + injection_spot(all.skip(i as int), id@),
        decreases v@.len() - i,
    {
        assert(all.skip(i as int)[0] == (v@[i as int].0@, v@[i as int].1@));
        assert(all.skip(i as int).skip(1) =~= all.skip(i + 1));
        if same_text(v[i].0.as_str(), id) {
            return i;
        }
        i += 1;
    }
    i
}

fn has_missing_span(spans: &Vec<ManifestSpan>, id: &str) -> (r: bool)
    ensures
        r == wants(manifest_spans(spans@), id@),
{
    let ghost all = manifest_spans(spans@);
    let mut i: usize = 0;
    while i < spans.len()
        invariant
            all == manifest_spans(spans@),
            i <= spans@.len(),
            forall|k: int|
                0 <= k < i ==> !((#[trigger] all[k]).span_id == id@ && all[k].kind == "missing"@),
        decreases spans@.len() - i,
    {
        assert(all[i as int] == spans@[i as int]@);
        if same_text(spans[i].span_id.as_str(), id) && same_text(
            spans[i].kind.as_str(),
            "missing",
        ) {
            return true;
        }
        i += 1;
    }
    false
}

/// Parts the plans that are live from the directories of those that are not.
fn part_lapsed(plans: Vec<PendingPlan>, now: u64, dirs: &mut Vec<String>) -> (r: Vec<PendingPlan>)
    ensures
        pending_views(r@) == live(pending_views(plans@), now),
        crate::text::texts(final(dirs)@) == crate::text::texts(old(dirs)@) + lapsed(
            pending_views(plans@),
            now,
        ),
{
    let ghost all = pending_views(plans@);
    let ghost first = crate::text::texts(dirs@);
    let n: usize = plans.len();
    let mut rest = plans;
    let mut keep: Vec<PendingPlan> = Vec::new();
    let mut i: usize = 0;
    assert(all.take(0) =~= Seq::<PendingView>::empty());
    assert(pending_views(keep@) =~= live(all.take(0), now));
    assert(crate::text::texts(dirs@) =~= first + lapsed(all.take(0), now));
    assert(pending_views(rest@) =~= all.skip(0));
    while i < n
        invariant
            n == all.len(),
            i <= n,
            pending_views(rest@) == all.skip(i as int),
            pending_views(keep@) == live(all.take(i as int), now),
            crate::text::texts(dirs@) == first + lapsed(all.take(i as int), now),
        decreases n - i,
    {
        assert(pending_views(rest@).len() == rest@.len());
        let ghost before = rest@;
        let p = rest.remove(0);
        proof {
            assert(pending_views(before)[0] == p@);
            assert(p@ == all[i as int]);
            assert forall|j: int| 0 <= j < rest@.len() implies rest@[j]@ == all[i + 1 + j] by {
                assert(rest@[j] == before[j + 1]);
                assert(pending_views(before)[j + 1] == all.skip(i as int)[j + 1]);
            }
            assert(pending_views(before).len() == before.len());
            assert(pending_views(rest@) =~= all.skip(i + 1));
            assert(all.take(i + 1).drop_last() =~= all.take(i as int));
            assert(all.take(i + 1).last() == p@);
        }
        let ghost kept = pending_views(keep@);
        let ghost gone = crate::text::texts(dirs@);
        if p.response.expires_at < now {
            dirs.push(p.response.manifest_dir);
            proof {
                assert(crate::text::texts(dirs@) =~= gone.push(p@.response.manifest_dir));
                assert(gone.push(p@.response.manifest_dir) =~= first + lapsed(
                    all.take(i + 1),
                    now,
                ));
            }
        } else {
            keep.push(p);
            assert(pending_views(keep@) =~= kept.push(p@));
        }
        i += 1;
    }
    assert(all.take(i as int) =~= all);
    keep
}

impl PlanManager {
    #[verifier::type_invariant]
    spec fn well_formed(self) -> bool {
        distinct_plans(pending_views(self.plans@))
    }

    /// A manager of plans below `runtime_root` whose files lie below
    /// `object_root`.
    pub fn new(runtime_root: String, object_root: String) -> (r: PlanManager)
        ensures
            r@ == (ManagerView {
                runtime_root: runtime_root@,
                object_root: object_root@,
                plans: Seq::empty(),
                sequence: 0,
                retired: Seq::empty(),
            }),
    {
        let r = PlanManager {
            runtime_root,
            object_root,
            plans: Vec::new(),
            sequence: 0,
            retired: Vec::new(),
        };
        assert(r@.plans =~= Seq::empty());
        assert(r@.retired =~= Seq::empty());
        r
    }

    /// The directories that no plan needs any more, each handed out once.
    pub fn take_retired(&mut self) -> (r: Vec<String>)
        ensures
            crate::text::texts(r@) == old(self)@.retired,
            final(self)@ == (ManagerView { retired: Seq::empty(), ..old(self)@ }),
    {
        proof {
            use_type_invariant(&*self);
        }
        let mut out: Vec<String> = Vec::new();
        core::mem::swap(&mut out, &mut self.retired);
        assert(self@.retired =~= Seq::empty());
        out
    }

    /// Drops the plans that have expired.
    pub fn reap(&mut self, now: u64)
        ensures
            final(self)@ == reaped(old(self)@, now),
    {
        proof {
            use_type_invariant(&*self);
            live_plans_are_unexpired(self@.plans, now);
        }
        let mut plans: Vec<PendingPlan> = Vec::new();
        let mut retired: Vec<String> = Vec::new();
        core::mem::swap(&mut plans, &mut self.plans);
        core::mem::swap(&mut retired, &mut self.retired);
        let keep = part_lapsed(plans, now, &mut retired);
        self.plans = keep;
        self.retired = retired;
    }

    /// The response of a plan that is in place. No two plans have one identity.
    pub fn response(&self, plan_id: &str) -> (r: Option<&PlanResponse>)
        ensures
            distinct_plans(self@.plans),
            ({
                let k = plan_spot(self@.plans, plan_id@) as int;
                match r {
                    Some(p) => k < self@.plans.len() && p@ == self@.plans[k].response,
                    None => k >= self@.plans.len(),
                }
            }),
    {
        proof {
            use_type_invariant(self);
        }
        let k: usize = find_plan(&self.plans, plan_id);
        if k < self.plans.len() {
            assert(self@.plans[k as int] == self.plans@[k as int]@);
            Some(&self.plans[k].response)
        } else {
            None
        }
    }

    /// Removes a plan. Says whether there was one.
    pub fn cancel(&mut self, plan_id: &str) -> (r: bool)
        ensures
            ({
                let k = plan_spot(old(self)@.plans, plan_id@) as int;
                &&& r == (k < old(self)@.plans.len())
                &&& final(self)@ == (if r {
                    ManagerView {
                        retired: old(self)@.retired.push(
                            old(self)@.plans[k].response.manifest_dir,
                        ),
                        ..without_plan(old(self)@, k)
                    }
                } else {
                    old(self)@
                })
            }),
    {
        match self.take_plan(plan_id) {
            None => false,
            Some(p) => {
                let ghost before = self@.retired;
                self.retire(p.response.manifest_dir);
                true
            },
        }
    }

    fn retire(&mut self, dir: String)
        ensures
            final(self)@ == (ManagerView { retired: old(self)@.retired.push(dir@), ..old(self)@ }),
    {
        proof {
            use_type_invariant(&*self);
        }
        let ghost first = self@;
        let mut retired: Vec<String> = Vec::new();
        core::mem::swap(&mut retired, &mut self.retired);
        retired.push(dir);
        self.retired = retired;
        assert(self@ =~= ManagerView { retired: first.retired.push(dir@), ..first });
    }

    /// Takes a plan out.
    fn take_plan(&mut self, plan_id: &str) -> (r: Option<PendingPlan>)
        ensures
            ({
                let k = plan_spot(old(self)@.plans, plan_id@) as int;
                match r {
                    Some(p) => k < old(self)@.plans.len() && p@ == old(self)@.plans[k]
                        && final(self)@ == without_plan(old(self)@, k),
                    None => k >= old(self)@.plans.len() && final(self)@ == old(self)@,
                }
            }),
    {
        proof {
            use_type_invariant(&*self);
        }
        let ghost first = self@;
        let k: usize = find_plan(&self.plans, plan_id);
        if k < self.plans.len() {
            let mut plans: Vec<PendingPlan> = Vec::new();
            core::mem::swap(&mut plans, &mut self.plans);
            assert(first.plans[k as int] == plans@[k as int]@);
            let p = plans.remove(k);
            proof {
                let after = pending_views(plans@);
                assert(after =~= first.plans.remove(k as int));
                assert forall|i: int, j: int| 0 <= i < j < after.len() implies (
                #[trigger] after[i]).response.plan_id != (#[trigger] after[j]).response.plan_id by {
                    let a = if i < k {
                        i
                    } else {
                        i + 1
                    };
                    let b = if j < k {
                        j
                    } else {
                        j + 1
                    };
                    assert(after[i] == first.plans[a] && after[j] == first.plans[b]);
                }
            }
            self.plans = plans;
            Some(p)
        } else {
            None
        }
    }
}

/// The identity of a plan.
fn name_plan(now: u64, pid: u32, sequence: u64, text: &str, o: Ghost<Origin>) -> (r: String)
    requires
        o@.now == now,
        o@.pid == pid,
        o@.sequence == sequence,
    ensures
        r@ == plan_name(o@, text@),
{
    let mut key = decimal(now);
    key.append(":");
    key.append(decimal(pid as u64).as_str());
    key.append(":");
    key.append(decimal(sequence).as_str());
    key.append(":");
    key.append(text);
    assert(key@ =~= dec(now as nat) + ":"@ + dec(pid as nat) + ":"@ + dec(sequence as nat) + ":"@
        + text@);
    hash_hex(key.as_str().as_bytes())
}

/// Estimates what a plan costs: the memory to compose it, and the storage for
/// what is generated.
fn estimate(missing: usize, cached_bytes: u64, o: Ghost<Seq<SpanView>>) -> (r: (u64, u64))
    requires
        cached_bytes == capped(span_bytes(o@)),
    ensures
        r.0 == capped(
            RAM_HEADROOM as nat + span_bytes(o@) + 2 * (missing as nat * BYTES_PER_CHAR as nat),
        ),
        r.1 == capped(missing as nat * BYTES_PER_CHAR as nat),
{
    let generated: u128 = missing as u128 * 3_200;
    let ram: u128 = 16_777_216 + cached_bytes as u128 + 2 * generated;
    (cap(ram), cap(generated))
}

impl PlanManager {
    /// Drafts a plan for a request against what is cached. The plan is in place
    /// only once it is committed, which is done after its files were laid out.
    pub fn create<C: AudioCodec + ?Sized>(
        &mut self,
        store: &MimicStore,
        request: PlanRequest,
        now: u64,
        pid: u32,
        codec: &C,
    ) -> (r: core::result::Result<Draft, MimicError>)
        ensures
            ({
                let m = reaped(old(self)@, now);
                let o = Origin {
                    now,
                    pid,
                    sequence: next_number(m.sequence),
                    runtime_root: m.runtime_root,
                    object_root: m.object_root,
                };
                if normalized(request@.text).len() == 0 {
                    &&& outcome(r) == Err::<DraftView, ErrorView>(
                        ErrorView::NotFound("empty text"@),
                    )
                    &&& final(self)@ == m
                } else {
                    &&& outcome(r) == draft_of(o, store@, request@, codec)
                    &&& final(self)@ == (ManagerView { sequence: o.sequence, ..m })
                }
            }),
    {
        self.reap(now);
        let ghost m = self@;
        let text = normalize(request.text.as_str());
        if text.as_str().is_empty() {
            return Err(MimicError::NotFound("empty text".to_owned()));
        }
        let sequence: u64 = if self.sequence == 0xffff_ffff_ffff_ffff {
            0
        } else {
            self.sequence + 1
        };
        self.count(sequence);
        let ghost o = Origin {
            now,
            pid,
            sequence,
            runtime_root: m.runtime_root,
            object_root: m.object_root,
        };
        let plan_id = name_plan(now, pid, sequence, text.as_str(), Ghost(o));
        let domain = cache_domain(&request);
        let d = match draft_spans(
            store,
            text.as_str(),
            request.voice_id.as_str(),
            domain.as_str(),
            self.object_root.as_str(),
            codec,
        ) {
            Err(e) => {
                return Err(e);
            },
            Ok(d) => d,
        };
        let mut staging = ".".to_owned();
        staging.append(plan_id.as_str());
        staging.append(".tmp");
        let staging_dir = join_path(self.runtime_root.as_str(), staging.as_str());
        let manifest_dir = join_path(self.runtime_root.as_str(), plan_id.as_str());
        let total_chars: usize = count_visible(text.as_str());
        let missing_chars: usize = if d.cached_chars <= total_chars {
            total_chars - d.cached_chars
        } else {
            0
        };
        let cached_bytes: u64 = sum_bytes(&d.spans);
        let (ram, storage) = estimate(missing_chars, cached_bytes, Ghost(d@.spans));
        let expires_at: u64 = cap(now as u128 + 60);
        let response = PlanResponse {
            plan_id,
            expires_at,
            manifest_dir,
            total_chars,
            cached_chars: d.cached_chars,
            missing_chars,
            estimated_ram_bytes: ram,
            estimated_storage_bytes: storage,
            spans: d.spans,
        };
        assert(response@ =~= response_of(o, text@, d@));
        let draft = Draft { request, response, staging_dir, artifacts: d.artifacts };
        Ok(draft)
    }

    fn count(&mut self, sequence: u64)
        ensures
            final(self)@ == (ManagerView { sequence, ..old(self)@ }),
    {
        proof {
            use_type_invariant(&*self);
        }
        self.sequence = sequence;
    }

    /// Puts a plan in place.
    pub fn commit(&mut self, draft: Draft) -> (r: PlanResponse)
        ensures
            r@ == draft@.response,
            final(self)@ == with_plan(
                old(self)@,
                PendingView {
                    request: draft@.request,
                    response: draft@.response,
                    injected: Seq::empty(),
                },
            ),
    {
        proof {
            use_type_invariant(&*self);
        }
        let ghost first = self@;
        let k: usize = find_plan(&self.plans, draft.response.plan_id.as_str());
        let response = draft.response.clone();
        let p = PendingPlan {
            request: draft.request,
            response: draft.response,
            injected: Vec::new(),
        };
        assert(p@.injected =~= Seq::empty());
        let ghost pv = p@;
        let mut plans: Vec<PendingPlan> = Vec::new();
        core::mem::swap(&mut plans, &mut self.plans);
        let n: usize = plans.len();
        if k < n {
            let _old = plans.remove(k);
            plans.insert(k, p);
            assert(pending_views(plans@) =~= first.plans.update(k as int, pv));
        } else {
            plans.push(p);
            assert(pending_views(plans@) =~= first.plans.push(pv));
        }
        proof {
            lemma_plan_placed(first, pv);
        }
        self.plans = plans;
        response
    }

    /// Brings audio for a missing span of a plan, as 16-bit samples.
    pub fn inject_pcm(&mut self, plan_id: &str, span_id: &str, body: &[u8], now: u64) -> (r:
        core::result::Result<(), MimicError>)
        ensures
            ({
                let (m, o) = injected(old(self)@, plan_id@, span_id@, body@, now);
                &&& final(self)@ == m
                &&& match r {
                    Ok(()) => o is Ok,
                    Err(e) => o == Err::<(), ErrorView>(e@),
                }
            }),
    {
        proof {
            use_type_invariant(&*self);
        }
        let ghost first = self@;
        let k: usize = find_plan(&self.plans, plan_id);
        if k >= self.plans.len() {
            return Err(not_found("plan ", plan_id, "; create a new plan and retry"));
        }
        let ghost p = first.plans[k as int];
        assert(p == self.plans@[k as int]@);
        if now > self.plans[k].response.expires_at {
            return Err(
                MimicError::NotFound("expired plan; create a new plan and retry".to_owned()),
            );
        }
        if !has_missing_span(&self.plans[k].response.spans, span_id) {
            return Err(not_found("missing span ", span_id, "; create a new plan and retry"));
        }
        if body.len() % 2 != 0 {
            return Err(
                MimicError::Wav(
                    "PCM body has odd byte length; submit complete i16 samples".to_owned(),
                ),
            );
        }
        let audio = WavAudio::new(pcm_range(body, 0, body.len()), SAMPLE_RATE);
        assert(body@.subrange(0, body@.len() as int) =~= body@);
        let at: usize = find_injection(&self.plans[k].injected, span_id);
        if at < self.plans[k].injected.len() {
            assert(p.injected[at as int] == (
                self.plans@[k as int].injected@[at as int].0@,
                self.plans@[k as int].injected@[at as int].1@,
            ));
            if self.plans[k].injected[at].1.same(&audio) {
                return Ok(());
            }
            return Err(
                MimicError::Wav(
                    "idempotency conflict; create a new plan before changing audio".to_owned(),
                ),
            );
        }
        let mut plans: Vec<PendingPlan> = Vec::new();
        core::mem::swap(&mut plans, &mut self.plans);
        let ghost av = audio@;
        let mut changed = plans.remove(k);
        changed.injected.push((span_id.to_owned(), audio));
        plans.insert(k, changed);
        proof {
            let brought = PendingView { injected: p.injected.push((span_id@, av)), ..p };
            assert(plans@[k as int]@ =~= brought);
            assert(pending_views(plans@) =~= first.plans.update(k as int, brought));
            let after = pending_views(plans@);
            assert forall|i: int, j: int| 0 <= i < j < after.len() implies (
            #[trigger] after[i]).response.plan_id != (#[trigger] after[j]).response.plan_id by {
                assert(after[i].response.plan_id == first.plans[i].response.plan_id);
                assert(after[j].response.plan_id == first.plans[j].response.plan_id);
            }
        }
        self.plans = plans;
        Ok(())
    }
}

proof fn lemma_plan_placed(m: ManagerView, p: PendingView)
    requires
        distinct_plans(m.plans),
    ensures
        distinct_plans(with_plan(m, p).plans),
{
    lemma_plan_spot(m.plans, p.response.plan_id);
    let k = plan_spot(m.plans, p.response.plan_id) as int;
    let after = with_plan(m, p).plans;
    assert forall|i: int, j: int| 0 <= i < j < after.len() implies (
    #[trigger] after[i]).response.plan_id != (#[trigger] after[j]).response.plan_id by {
        if i < m.plans.len() {
            assert(after[i].response.plan_id == m.plans[i].response.plan_id);
        }
        if j < m.plans.len() {
            assert(after[j].response.plan_id == m.plans[j].response.plan_id);
        }
    }
}

// ---- composing a plan ----

/// The audio of a cached span.
fn read_artifact(span: &ManifestSpan, fetched: &Vec<Fetched>, k: usize) -> (r: core::result::Result<
    WavAudio,
    MimicError,
>)
    ensures
        outcome(r) == artifact_audio(span@, fetched_at(fetched_views(fetched@), k as int)),
{
    assert(fetched_views(fetched@).len() == fetched@.len());
    if k >= fetched.len() {
        return Err(MimicError::Io("artifact was not read".to_owned()));
    }
    assert(fetched_views(fetched@)[k as int] == fetched@[k as int]@);
    match &fetched[k] {
        Fetched::Failed(m) => Err(MimicError::Io(m.clone())),
        Fetched::Outside => Err(
            MimicError::Wav(
                "manifest link escaped object root; discard the plan and retry".to_owned(),
            ),
        ),
        Fetched::Bytes(b) => {
            let name = hash_hex(b.as_slice());
            let same = match &span.sha256 {
                Some(d) => same_text(name.as_str(), d.as_str()),
                None => name.as_str().is_empty(),
            };
            if !same {
                return Err(
                    MimicError::Wav(
                        "artifact checksum mismatch; discard the plan and retry".to_owned(),
                    ),
                );
            }
            parse_wav(b)
        },
    }
}

/// The audio brought for a missing span.
fn read_injection(p: &PendingPlan, span: &ManifestSpan) -> (r: core::result::Result<
    WavAudio,
    MimicError,
>)
    ensures
        outcome(r) == injected_audio(p@, span@),
{
    let at: usize = find_injection(&p.injected, span.span_id.as_str());
    if at < p.injected.len() {
        assert(injections(p.injected@)[at as int] == (
            p.injected@[at as int].0@,
            p.injected@[at as int].1@,
        ));
        let audio = p.injected[at].1.clone();
        Ok(audio)
    } else {
        Err(
            not_found(
                "uninjected span ",
                span.span_id.as_str(),
                "; inject every missing span and try again",
            ),
        )
    }
}

/// The part that one span contributes. Audio that was brought for it is stored
/// where that is asked for.
fn gather_span<C: AudioCodec + ?Sized>(
    p: &PendingPlan,
    store: &mut MimicStore,
    g2p: &G2p,
    fetched: &Vec<Fetched>,
    persist: bool,
    k: usize,
    codec: &C,
) -> (r: core::result::Result<WavAudio, MimicError>)
    requires
        k < p@.response.spans.len(),
    ensures
        (final(store)@, outcome(r)) == span_gathered(
            p@,
            old(store)@,
            fetched_views(fetched@),
            persist,
            opt_dict(Some(g2p)),
            k as int,
            codec,
        ),
{
    reveal(span_gathered);
    let ghost sv = p@.response.spans[k as int];
    assert(sv == p.response.spans@[k as int]@);
    let span = &p.response.spans[k];
    if same_text(span.kind.as_str(), "cached") {
        return read_artifact(span, fetched, k);
    }
    let audio = match read_injection(p, span) {
        Err(e) => {
            return Err(e);
        },
        Ok(a) => a,
    };
    if persist {
        let opts = IngestOptions::p3_legacy();
        let domain = cache_domain(&p.request);
        match ingest_with_options(
            store,
            span.text.as_str(),
            &audio,
            p.request.voice_id.as_str(),
            domain.as_str(),
            &opts,
            Some(g2p),
            codec,
        ) {
            Err(e) => {
                return Err(e);
            },
            Ok(_) => {},
        }
    }
    Ok(audio)
}

/// A problem met early ends the gathering.
proof fn lemma_gathering_fails<C: AudioCodec + ?Sized>(
    p: PendingView,
    s: StoreView,
    fetched: Seq<FetchedView>,
    persist: bool,
    dict: crate::speak::Dict,
    k: nat,
    n: nat,
    codec: &C,
)
    requires
        k <= n,
        gathered(p, s, fetched, persist, dict, k, codec).parts is Err,
    ensures
        gathered(p, s, fetched, persist, dict, n, codec) == gathered(
            p,
            s,
            fetched,
            persist,
            dict,
            k,
            codec,
        ),
    decreases n,
{
    if k < n {
        lemma_gathering_fails(p, s, fetched, persist, dict, k, (n - 1) as nat, codec);
    }
}

/// The parts of all spans of a plan.
fn gather_spans<C: AudioCodec + ?Sized>(
    p: &PendingPlan,
    store: &mut MimicStore,
    g2p: &G2p,
    fetched: &Vec<Fetched>,
    persist: bool,
    codec: &C,
) -> (r: core::result::Result<Vec<WavAudio>, MimicError>)
    ensures
        ({
            let g = gathered(
                p@,
                old(store)@,
                fetched_views(fetched@),
                persist,
                opt_dict(Some(g2p)),
                p@.response.spans.len(),
                codec,
            );
            &&& final(store)@ == g.store
            &&& match r {
                Err(e) => g.parts == Err::<Seq<WavView>, ErrorView>(e@),
                Ok(v) => g.parts == Ok::<Seq<WavView>, ErrorView>(wavs(v@)),
            }
        }),
{
    let ghost pv = p@;
    let ghost first = store@;
    let ghost reads = fetched_views(fetched@);
    let ghost dict = opt_dict(Some(g2p));
    let n: usize = p.response.spans.len();
    let mut parts: Vec<WavAudio> = Vec::new();
    let mut k: usize = 0;
    assert(wavs(parts@) =~= Seq::<WavView>::empty());
    while k < n
        invariant
            pv == p@,
            first == old(store)@,
            reads == fetched_views(fetched@),
            dict == opt_dict(Some(g2p)),
            n == pv.response.spans.len(),
            k <= n,
            gathered(pv, first, reads, persist, dict, k as nat, codec) == (Gathering {
                store: store@,
                parts: Ok(wavs(parts@)),
            }),
        decreases n - k,
    {
        let ghost before = wavs(parts@);
        match gather_span(p, store, g2p, fetched, persist, k, codec) {
            Err(e) => {
                proof {
                    lemma_gathering_fails(
                        pv,
                        first,
                        reads,
                        persist,
                        dict,
                        (k + 1) as nat,
                        n as nat,
                        codec,
                    );
                }
                return Err(e);
            },
            Ok(audio) => {
                let ghost av = audio@;
                parts.push(audio);
                assert(wavs(parts@) =~= before.push(av));
            },
        }
        k += 1;
    }
    Ok(parts)
}

impl PlanManager {
    /// Takes a plan out and gathers its audio, storing what was brought for it
    /// where `persist` says so. `fetched` holds what came of reading the file
    /// that each span links to. The clock is read twice: before expired plans
    /// are dropped, and when this one is about to be used.
    pub fn gather<C: AudioCodec + ?Sized>(
        &mut self,
        store: &mut MimicStore,
        g2p: &G2p,
        plan_id: &str,
        persist: bool,
        fetched: &Vec<Fetched>,
        reaped_at: u64,
        now: u64,
        codec: &C,
    ) -> (r: core::result::Result<Gathered, MimicError>)
        ensures
            (final(self)@, final(store)@, gathered_view(r)) == plan_gathered(
                old(self)@,
                old(store)@,
                plan_id@,
                fetched_views(fetched@),
                persist,
                opt_dict(Some(g2p)),
                reaped_at,
                now,
                codec,
            ),
    {
        self.reap(reaped_at);
        let p = match self.take_plan(plan_id) {
            None => {
                return Err(not_found("plan ", plan_id, "; create a new plan and retry"));
            },
            Some(p) => p,
        };
        if now > p.response.expires_at {
            return Err(
                MimicError::NotFound("expired plan; create a new plan and retry".to_owned()),
            );
        }
        match gather_spans(&p, store, g2p, fetched, persist, codec) {
            Err(e) => Err(e),
            Ok(parts) => Ok(Gathered { parts, response: p.response }),
        }
    }

    /// Splices the parts of a plan.
    pub fn finish<F: FadeCurve + ?Sized>(
        &mut self,
        g: Gathered,
        fades: &F,
    ) -> (r: core::result::Result<(WavAudio, PlanResponse), MimicError>)
        ensures
            (final(self)@, plan_composed_view(r)) == plan_finished(
                old(self)@,
                wavs(g.parts@),
                g.response@,
                fades.gains(),
            ),
    {
        match splice(g.parts.as_slice(), CROSSFADE_MS, fades) {
            Err(e) => Err(e),
            Ok(audio) => {
                self.retire(g.response.manifest_dir.clone());
                Ok((audio, g.response))
            },
        }
    }

    /// Composes a plan: gathers its audio and splices it.
    pub fn compose<C: AudioCodec + ?Sized, F: FadeCurve + ?Sized>(
        &mut self,
        store: &mut MimicStore,
        g2p: &G2p,
        plan_id: &str,
        persist: bool,
        fetched: &Vec<Fetched>,
        reaped_at: u64,
        now: u64,
        codec: &C,
        fades: &F,
    ) -> (r: core::result::Result<(WavAudio, PlanResponse), MimicError>)
        ensures
            ({
                let (m, s, g) = plan_gathered(
                    old(self)@,
                    old(store)@,
                    plan_id@,
                    fetched_views(fetched@),
                    persist,
                    opt_dict(Some(g2p)),
                    reaped_at,
                    now,
                    codec,
                );
                &&& final(store)@ == s
                &&& match g {
                    Err(e) => final(self)@ == m && plan_composed_view(r) == Err::<
                        (WavView, ResponseView),
                        ErrorView,
                    >(e),
                    Ok((parts, response)) => (final(self)@, plan_composed_view(r))
                        == plan_finished(m, parts, response, fades.gains()),
                }
            }),
    {
        match self.gather(store, g2p, plan_id, persist, fetched, reaped_at, now, codec) {
            Err(e) => Err(e),
            Ok(g) => self.finish(g, fades),
        }
    }
}

/// A plan lives for a minute: it is kept for sixty seconds and not longer, as far
/// as the clock goes.
pub proof fn plans_live_a_minute(o: Origin, text: Seq<char>, d: Drafting, p: PendingView, at: u64)
    requires
        p.response == response_of(o, text, d),
        o.now + 60 <= u64::MAX,
    ensures
        live(seq![p], at).len() == (if at <= o.now + 60 {
            1nat
        } else {
            0nat
        }),
        lapsed(seq![p], at).len() == (if at <= o.now + 60 {
            0nat
        } else {
            1nat
        }),
{
    let one = seq![p];
    assert(one.drop_last() =~= Seq::<PendingView>::empty());
    assert(one.last() == p);
    assert(live(one.drop_last(), at).len() == 0);
    assert(lapsed(one.drop_last(), at).len() == 0);
}

} // verus!
