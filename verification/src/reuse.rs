//! What planning promises as a whole: plans are composed at most once, audio
//! that was brought for a plan is kept as it is, and is reused by later plans.

use crate::audio::{splicing_one_part_is_lossless, wav_bytes, wav_round_trip, WavView};
use crate::bytes::{pcm_bytes, pcm_round_trip, pcm_samples};
use crate::codec::AudioCodec;
use crate::digest::{content_name, hex_of, sha256_of};
use crate::error::ErrorView;
use crate::fade::Gains;
use crate::laws::{
    ingesting_adds_phrase_words_and_sounds, segmenting_adds_words_and_sounds,
    segmenting_records_one_voice,
};
use crate::limits::capped;
use crate::manifest::{
    cached_phrases_serve_whole_texts, cached_span, domain_of, drafted, first_reusable,
    lemma_visible_spoken, manifest_accounts_for_every_character, manifest_covers_the_text,
    manifest_texts, missing_visible, other_voices_serve_nothing, planning, reusable,
    spans_are_coalesced, spans_are_sound, unit_for, visible, Planning, RequestView, SpanView,
};
use crate::pipeline::{ingested_utterance, record, segmented};
use crate::plan::{
    artifact_audio, brought_options, distinct_plans, draft_of, gathered, injected, injected_audio,
    injection_spot, lemma_plan_spot, live, plan_finished, plan_gathered, plan_spot, reaped,
    span_bytes, span_gathered, span_ingested, wants, with_plan, without_plan, FetchedView,
    ManagerView, Origin, PendingView, ResponseView,
};
use crate::speak::Dict;
use crate::store::{
    audio_at, found_units_match, matches_key, matching, stored_audio_reads_back,
    stored_units_are_found, unit_of, with_unit, NodeId, NodeView, StoreView,
};
use crate::text::{spoken, total_len};
use crate::units::{normalized, tokens, tokens_spell_the_normal_form, UnitLevel};
use crate::{CROSSFADE_MS, SAMPLE_RATE};
use vstd::prelude::*;
use vstd::utf8::{encode_utf8, encode_utf8_decode_utf8};

verus! {

/// A plan that was taken out, to be composed or because it was cancelled, is
/// gone: nothing finds it again.
pub proof fn taken_plans_are_gone(m: ManagerView, id: Seq<char>)
    requires
        distinct_plans(m.plans),
        plan_spot(m.plans, id) < m.plans.len(),
    ensures
        ({
            let rest = without_plan(m, plan_spot(m.plans, id) as int).plans;
            plan_spot(rest, id) == rest.len()
        }),
{
    lemma_plan_spot(m.plans, id);
    let k = plan_spot(m.plans, id) as int;
    let rest = m.plans.remove(k);
    lemma_plan_spot(rest, id);
    let j = plan_spot(rest, id) as int;
    if j < rest.len() {
        if j < k {
            assert(rest[j] == m.plans[j]);
        } else {
            assert(rest[j] == m.plans[j + 1]);
            assert(m.plans[k].response.plan_id != m.plans[j + 1].response.plan_id);
        }
    }
}

proof fn lemma_injection_appended(v: Seq<(Seq<char>, WavView)>, id: Seq<char>, a: WavView)
    requires
        injection_spot(v, id) >= v.len(),
    ensures
        injection_spot(v.push((id, a)), id) == v.len(),
    decreases v.len(),
{
    let w = v.push((id, a));
    if v.len() > 0 {
        assert(w[0] == v[0]);
        assert(w.skip(1) =~= v.skip(1).push((id, a)));
        lemma_injection_appended(v.skip(1), id, a);
    }
}

proof fn lemma_updated_spot(plans: Seq<PendingView>, k: int, p: PendingView, id: Seq<char>)
    requires
        k == plan_spot(plans, id),
        0 <= k < plans.len(),
        p.response.plan_id == id,
    ensures
        plan_spot(plans.update(k, p), id) == k,
    decreases plans.len(),
{
    if k > 0 {
        let t = plans.skip(1);
        assert(plans.update(k, p).skip(1) =~= t.update(k - 1, p));
        lemma_updated_spot(t, k - 1, p, id);
    }
}

/// Bringing audio for a span is idempotent: bringing the same again changes
/// nothing and succeeds, and bringing anything else is refused.
pub proof fn bringing_audio_is_idempotent(
    m: ManagerView,
    plan_id: Seq<char>,
    span_id: Seq<char>,
    body: Seq<u8>,
    again: Seq<u8>,
    now: u64,
)
    requires
        injected(m, plan_id, span_id, body, now).1 is Ok,
        again.len() % 2 == 0,
    ensures
        ({
            let after = injected(m, plan_id, span_id, body, now).0;
            let second = injected(after, plan_id, span_id, again, now);
            &&& second.0 == after
            &&& second.1 is Ok <==> pcm_samples(again) == pcm_samples(body)
            &&& second.1 is Err ==> second.1 == Err::<(), ErrorView>(
                ErrorView::Wav("idempotency conflict; create a new plan before changing audio"@),
            )
        }),
{
    lemma_plan_spot(m.plans, plan_id);
    let k = plan_spot(m.plans, plan_id) as int;
    let p = m.plans[k];
    let audio = WavView { samples: pcm_samples(body), sample_rate: SAMPLE_RATE };
    if injection_spot(p.injected, span_id) >= p.injected.len() {
        let brought = PendingView { injected: p.injected.push((span_id, audio)), ..p };
        lemma_updated_spot(m.plans, k, brought, plan_id);
        lemma_injection_appended(p.injected, span_id, audio);
    }
}

/// The samples that were brought are the samples that are kept.
pub proof fn brought_audio_is_kept(
    m: ManagerView,
    plan_id: Seq<char>,
    span: SpanView,
    samples: Seq<i16>,
    now: u64,
)
    requires
        injected(m, plan_id, span.span_id, pcm_bytes(samples), now).1 is Ok,
    ensures
        ({
            let after = injected(m, plan_id, span.span_id, pcm_bytes(samples), now).0;
            let k = plan_spot(after.plans, plan_id) as int;
            &&& k < after.plans.len()
            &&& injected_audio(after.plans[k], span) == Ok::<WavView, ErrorView>(
                WavView { samples, sample_rate: SAMPLE_RATE },
            )
        }),
{
    pcm_round_trip(samples);
    lemma_plan_spot(m.plans, plan_id);
    let k = plan_spot(m.plans, plan_id) as int;
    let p = m.plans[k];
    let audio = WavView { samples, sample_rate: SAMPLE_RATE };
    if injection_spot(p.injected, span.span_id) >= p.injected.len() {
        let brought = PendingView { injected: p.injected.push((span.span_id, audio)), ..p };
        lemma_updated_spot(m.plans, k, brought, plan_id);
        lemma_injection_appended(p.injected, span.span_id, audio);
    }
}

/// A draft adds up: what is cached and what is missing of a text is all of it,
/// and the estimates follow from that. Spoken in order, the spans say the text
/// in normal form.
pub proof fn drafts_add_up<C: AudioCodec + ?Sized>(
    o: Origin,
    s: StoreView,
    request: RequestView,
    codec: &C,
)
    requires
        normalized(normalized(request.text)) == normalized(request.text) || unit_for(
            planning(s.nodes, request.voice_id, domain_of(request), o.object_root),
            UnitLevel::Phrase,
            normalized(request.text),
        ) is Some,
        draft_of(o, s, request, codec) is Ok,
    ensures
        ({
            let r = draft_of(o, s, request, codec)->Ok_0.response;
            let x = planning(s.nodes, request.voice_id, domain_of(request), o.object_root);
            &&& r.total_chars == visible(normalized(request.text))
            &&& r.cached_chars + r.missing_chars == r.total_chars
            &&& r.missing_chars == missing_visible(r.spans)
            &&& r.estimated_storage_bytes == capped(3200 * r.missing_chars)
            &&& r.estimated_ram_bytes == capped(
                16_777_216 + span_bytes(r.spans) + 6400 * r.missing_chars,
            )
            &&& r.expires_at == capped(o.now as nat + 60)
            &&& spoken(manifest_texts(r.spans)) == normalized(request.text)
            &&& spans_are_sound(x, r.spans)
            &&& spans_are_coalesced(r.spans)
        }),
{
    let x = planning(s.nodes, request.voice_id, domain_of(request), o.object_root);
    let text = normalized(request.text);
    let d = drafted(x, text, codec)->Ok_0;
    manifest_accounts_for_every_character(x, text, codec);
    manifest_covers_the_text(x, text, codec);
    tokens_spell_the_normal_form(text);
    assert(missing_visible(d.spans) * 3200 == 3200 * missing_visible(d.spans));
}

/// Composing a plan of which nothing was cached is lossless: its one span sounds
/// exactly as the audio that was brought for it, whether it is kept or not, and
/// the response is the one the plan was made with.
pub proof fn composing_what_was_brought_is_lossless<C: AudioCodec + ?Sized>(
    m: ManagerView,
    s: StoreView,
    plan_id: Seq<char>,
    fetched: Seq<FetchedView>,
    persist: bool,
    dict: Dict,
    reaped_at: u64,
    now: u64,
    audio: WavView,
    t: Gains,
    codec: &C,
)
    requires
        ({
            let plans = reaped(m, reaped_at).plans;
            let k = plan_spot(plans, plan_id) as int;
            let p = plans[k];
            let span = p.response.spans[0];
            &&& k < plans.len()
            &&& now <= p.response.expires_at
            &&& p.response.spans.len() == 1
            &&& span.kind != "cached"@
            &&& persist ==> tokens(span.text).len() > 0
            &&& injected_audio(p, span) == Ok::<WavView, ErrorView>(audio)
        }),
    ensures
        ({
            let plans = reaped(m, reaped_at).plans;
            let p = plans[plan_spot(plans, plan_id) as int];
            let (after, store, g) = plan_gathered(
                m,
                s,
                plan_id,
                fetched,
                persist,
                dict,
                reaped_at,
                now,
                codec,
            );
            &&& store == (if persist {
                span_ingested(s, p, p.response.spans[0], audio, dict, codec)
            } else {
                s
            })
            &&& g == Ok::<(Seq<WavView>, ResponseView), ErrorView>((seq![audio], p.response))
            &&& plan_finished(after, seq![audio], p.response, t).1 == Ok::<
                (WavView, ResponseView),
                ErrorView,
            >((audio, p.response))
        }),
{
    reveal(span_gathered);
    reveal_with_fuel(gathered, 2);
    assert(Seq::<WavView>::empty().push(audio) =~= seq![audio]);
    splicing_one_part_is_lossless(audio, CROSSFADE_MS, t);
}

/// The file that a cached span links to plays back as the audio of its unit, as
/// long as the file can declare its size.
pub proof fn linked_files_play_back(n: nat, text: Seq<char>, id: NodeId, audio: WavView)
    requires
        2 * audio.samples.len() <= u32::MAX,
    ensures
        artifact_audio(
            cached_span(n, text, id, wav_bytes(audio)),
            FetchedView::Bytes(wav_bytes(audio)),
        ) == Ok::<WavView, ErrorView>(audio),
{
    wav_round_trip(audio);
}

/// A file whose content has another digest than the manifest says is refused.
pub proof fn changed_files_are_refused(span: SpanView, bytes: Seq<u8>)
    requires
        span.sha256 matches Some(d) && content_name(bytes) != d,
    ensures
        artifact_audio(span, FetchedView::Bytes(bytes)) == Err::<WavView, ErrorView>(
            ErrorView::Wav("artifact checksum mismatch; discard the plan and retry"@),
        ),
{
}

/// Audio that was brought for a span and stored serves later plans for the same
/// text, in the same voice, model and settings: the whole text is cached then.
/// Where nothing served it before, it is served by exactly that audio.
pub proof fn brought_audio_is_reused<C: AudioCodec + ?Sized>(
    s: StoreView,
    p: PendingView,
    span: SpanView,
    audio: WavView,
    dict: Dict,
    object_root: Seq<char>,
    codec: &C,
)
    requires
        s.nodes.len() < u64::MAX,
        2 * audio.samples.len() <= u32::MAX,
    ensures
        ({
            let after = span_ingested(s, p, span, audio, dict, codec);
            let text = normalized(span.text);
            let before = planning(s.nodes, p.request.voice_id, domain_of(p.request), object_root);
            let x = planning(after.nodes, p.request.voice_id, domain_of(p.request), object_root);
            &&& unit_for(x, UnitLevel::Phrase, text) is Some
            &&& drafted(x, text, codec) matches Ok(d) ==> d.cached == visible(text)
                && d.spans.len() == 1 && d.spans[0].node_id is Some
            &&& unit_for(before, UnitLevel::Phrase, text) is None ==> {
                let id = NodeId(s.nodes.len() as u64);
                &&& unit_for(x, UnitLevel::Phrase, text) == Some(id)
                &&& audio_at(after.nodes, id, codec) == Ok::<WavView, ErrorView>(audio)
                &&& drafted(x, text, codec) is Ok
            }
        }),
{
    let after = span_ingested(s, p, span, audio, dict, codec);
    let text = normalized(span.text);
    let x = planning(after.nodes, p.request.voice_id, domain_of(p.request), object_root);
    let u = ingested_utterance(
        span.text,
        audio,
        p.request.voice_id,
        domain_of(p.request),
        brought_options(),
        dict,
    );
    let id = NodeId(s.nodes.len() as u64);
    let r = record(u, UnitLevel::Phrase, text, text, u.audio, None, None, codec);
    let first = with_unit(s, r);
    ingesting_adds_phrase_words_and_sounds(s, span.text, u, codec);
    segmenting_adds_words_and_sounds(first, u, codec);
    let middle = segmented(first, u, codec);
    assert(after.nodes.drop_last() =~= middle.nodes);
    assert(after.nodes[s.nodes.len() as int] == NodeView::Unit(unit_of(r, s.nodes.len()))) by {
        assert(middle.nodes.take(first.nodes.len() as int)[s.nodes.len() as int]
            == first.nodes[s.nodes.len() as int]);
        assert(after.nodes[s.nodes.len() as int] == middle.nodes[s.nodes.len() as int]);
    }
    lemma_keys_differ();
    assert(reusable(x, id));
    let ids = matching(after.nodes, UnitLevel::Phrase, text);
    let k = choose|k: int| 0 <= k < ids.len() && ids[k] == id;
    lemma_reusable_found(x, ids, k);
    if drafted(x, text, codec) is Ok {
        cached_phrases_serve_whole_texts(x, text, k, codec);
    }
    stored_audio_reads_back(s, r, codec);
    assert(first.nodes[s.nodes.len() as int] == after.nodes[s.nodes.len() as int]);
    let before = planning(s.nodes, p.request.voice_id, domain_of(p.request), object_root);
    let older = matching(s.nodes, UnitLevel::Phrase, text);
    if unit_for(before, UnitLevel::Phrase, text) is None {
        stored_units_are_found(s, r, UnitLevel::Phrase, text);
        assert(after.nodes.take(first.nodes.len() as int) =~= first.nodes) by {
            assert(middle.nodes.take(first.nodes.len() as int) =~= first.nodes);
            assert(after.nodes.take(first.nodes.len() as int) =~= middle.nodes.take(
                first.nodes.len() as int,
            ));
        }
        assert forall|i: int| first.nodes.len() <= i < after.nodes.len() implies !matches_key(
            after.nodes,
            i,
            UnitLevel::Phrase,
            text,
        ) by {
            if i < middle.nodes.len() {
                assert(after.nodes[i] == middle.nodes[i]);
            }
        }
        lemma_matching_kept(first.nodes, after.nodes, UnitLevel::Phrase, text);
        assert(ids == older.push(id));
        found_units_match(s.nodes, UnitLevel::Phrase, text);
        assert forall|i: int| 0 <= i < older.len() implies !reusable(x, #[trigger] older[i]) by {
            if reusable(x, older[i]) {
                assert(older[i].0 < s.nodes.len());
                assert(after.nodes[older[i].0 as int] == s.nodes[older[i].0 as int]) by {
                    assert(after.nodes.take(first.nodes.len() as int)[older[i].0 as int]
                        == first.nodes[older[i].0 as int]);
                }
                assert(reusable(before, older[i]));
                lemma_reusable_found(before, older, i);
            }
        }
        lemma_last_reusable(x, older, id);
    }
}

/// A plan whose whole text was brought and stored serves the next request for
/// it: all of that text is cached, in one span that links to the audio, and
/// nothing is missing.
pub proof fn stored_plans_serve_their_text<C: AudioCodec + ?Sized>(
    s: StoreView,
    p: PendingView,
    span: SpanView,
    audio: WavView,
    dict: Dict,
    o: Origin,
    codec: &C,
)
    requires
        s.nodes.len() < u64::MAX,
        2 * audio.samples.len() <= u32::MAX,
        normalized(span.text) == normalized(p.request.text),
        tokens(p.request.text).len() > 0,
        unit_for(
            planning(s.nodes, p.request.voice_id, domain_of(p.request), o.object_root),
            UnitLevel::Phrase,
            normalized(p.request.text),
        ) is None,
    ensures
        ({
            let after = span_ingested(s, p, span, audio, dict, codec);
            &&& draft_of(o, after, p.request, codec) is Ok
            &&& {
                let d = draft_of(o, after, p.request, codec)->Ok_0;
                &&& d.response.cached_chars == d.response.total_chars
                &&& d.response.cached_chars > 0
                &&& d.response.missing_chars == 0
                &&& d.response.spans == seq![
                    cached_span(
                        0,
                        normalized(p.request.text),
                        NodeId(s.nodes.len() as u64),
                        wav_bytes(audio),
                    ),
                ]
            }
        }),
{
    let text = normalized(p.request.text);
    brought_audio_is_reused(s, p, span, audio, dict, o.object_root, codec);
    tokens_spell_the_normal_form(p.request.text);
    let after = span_ingested(s, p, span, audio, dict, codec);
    let d = draft_of(o, after, p.request, codec)->Ok_0;
    assert(d.response.spans =~= seq![
        cached_span(0, text, NodeId(s.nodes.len() as u64), wav_bytes(audio)),
    ]);
    lemma_visible_spoken(tokens(p.request.text));
    assert(total_len(tokens(p.request.text)) > 0);
}

/// Audio that was brought in one voice, model and settings serves no request in
/// others: where nothing served them before, nothing of any text is cached in
/// them afterwards.
pub proof fn brought_audio_stays_in_its_voice<C: AudioCodec + ?Sized>(
    s: StoreView,
    p: PendingView,
    span: SpanView,
    audio: WavView,
    dict: Dict,
    o: Origin,
    other: RequestView,
    codec: &C,
)
    requires
        other.voice_id != p.request.voice_id || domain_of(other) != domain_of(p.request),
        forall|id: NodeId|
            !#[trigger] reusable(
                planning(s.nodes, other.voice_id, domain_of(other), o.object_root),
                id,
            ),
    ensures
        ({
            let after = span_ingested(s, p, span, audio, dict, codec);
            &&& draft_of(o, after, other, codec) is Ok
            &&& draft_of(o, after, other, codec)->Ok_0.response.cached_chars == 0
            &&& draft_of(o, after, other, codec)->Ok_0.artifacts.len() == 0
        }),
{
    lemma_brought_nodes(s, p, span, audio, dict, codec);
    lemma_nothing_reusable(
        s,
        span_ingested(s, p, span, audio, dict, codec),
        p.request,
        other,
        o.object_root,
    );
    lemma_nothing_drafted(o, span_ingested(s, p, span, audio, dict, codec), other, codec);
}

/// Nodes in one voice and domain leave nothing to be reused in another.
proof fn lemma_nothing_reusable(
    s: StoreView,
    t: StoreView,
    kept: RequestView,
    other: RequestView,
    object_root: Seq<char>,
)
    requires
        other.voice_id != kept.voice_id || domain_of(other) != domain_of(kept),
        s.nodes.len() < t.nodes.len(),
        forall|i: int| 0 <= i < s.nodes.len() ==> #[trigger] t.nodes[i] == s.nodes[i],
        forall|i: int|
            s.nodes.len() <= i < t.nodes.len() - 1 ==> (
            #[trigger] t.nodes[i] matches NodeView::Unit(u) && u.voice == kept.voice_id
                && u.cache_domain == domain_of(kept)),
        t.nodes.last() is VoiceDna,
        forall|id: NodeId|
            !#[trigger] reusable(
                planning(s.nodes, other.voice_id, domain_of(other), object_root),
                id,
            ),
    ensures
        forall|id: NodeId|
            !#[trigger] reusable(
                planning(t.nodes, other.voice_id, domain_of(other), object_root),
                id,
            ),
{
    let before = planning(s.nodes, other.voice_id, domain_of(other), object_root);
    let x = planning(t.nodes, other.voice_id, domain_of(other), object_root);
    lemma_keys_differ();
    assert forall|id: NodeId| !#[trigger] reusable(x, id) by {
        let i = id.0 as int;
        if i < s.nodes.len() {
            assert(t.nodes[i] == s.nodes[i]);
            assert(!reusable(before, id));
        } else if i < t.nodes.len() - 1 {
            assert(t.nodes[i] is Unit);
        }
    }
}

proof fn lemma_nothing_drafted<C: AudioCodec + ?Sized>(
    o: Origin,
    s: StoreView,
    request: RequestView,
    codec: &C,
)
    requires
        forall|id: NodeId|
            !#[trigger] reusable(
                planning(s.nodes, request.voice_id, domain_of(request), o.object_root),
                id,
            ),
    ensures
        draft_of(o, s, request, codec) is Ok,
        draft_of(o, s, request, codec)->Ok_0.response.cached_chars == 0,
        draft_of(o, s, request, codec)->Ok_0.artifacts.len() == 0,
{
    other_voices_serve_nothing(
        planning(s.nodes, request.voice_id, domain_of(request), o.object_root),
        normalized(request.text),
        codec,
    );
}

/// What storing brought audio leaves, and what it adds: units in the voice and
/// domain of the plan, and the features of the voice.
proof fn lemma_brought_nodes<C: AudioCodec + ?Sized>(
    s: StoreView,
    p: PendingView,
    span: SpanView,
    audio: WavView,
    dict: Dict,
    codec: &C,
)
    ensures
        ({
            let t = span_ingested(s, p, span, audio, dict, codec).nodes;
            &&& s.nodes.len() < t.len()
            &&& forall|i: int| 0 <= i < s.nodes.len() ==> #[trigger] t[i] == s.nodes[i]
            &&& forall|i: int|
                s.nodes.len() <= i < t.len() - 1 ==> (#[trigger] t[i] matches NodeView::Unit(u)
                    && u.voice == p.request.voice_id && u.cache_domain == domain_of(p.request))
            &&& t.last() is VoiceDna
        }),
{
    let t = span_ingested(s, p, span, audio, dict, codec).nodes;
    let u = ingested_utterance(
        span.text,
        audio,
        p.request.voice_id,
        domain_of(p.request),
        brought_options(),
        dict,
    );
    let text = normalized(span.text);
    let first = with_unit(s, record(u, UnitLevel::Phrase, text, text, u.audio, None, None, codec));
    let middle = segmented(first, u, codec);
    segmenting_adds_words_and_sounds(first, u, codec);
    segmenting_records_one_voice(first, u, codec);
    assert forall|i: int| 0 <= i < first.nodes.len() implies t[i] == first.nodes[i] by {
        assert(middle.nodes.take(first.nodes.len() as int)[i] == first.nodes[i]);
    }
    assert forall|i: int| 0 <= i < s.nodes.len() implies #[trigger] t[i] == s.nodes[i] by {
        assert(t[i] == first.nodes[i]);
    }
    assert forall|i: int| s.nodes.len() <= i < t.len() - 1 implies (
    #[trigger] t[i] matches NodeView::Unit(x) && x.voice == p.request.voice_id && x.cache_domain
        == domain_of(p.request)) by {
        if i < first.nodes.len() {
            assert(t[i] == first.nodes[i]);
        } else {
            assert(t[i] == middle.nodes[i]);
        }
    }
}

/// Nodes without a key leave what is found under it as it is.
proof fn lemma_matching_kept(
    s: Seq<NodeView>,
    t: Seq<NodeView>,
    level: UnitLevel,
    text: Seq<char>,
)
    requires
        s.len() <= t.len(),
        t.take(s.len() as int) == s,
        forall|i: int| s.len() <= i < t.len() ==> !matches_key(t, i, level, text),
    ensures
        matching(t, level, text) == matching(s, level, text),
    decreases t.len(),
{
    if t.len() == s.len() {
        assert(t =~= s);
    } else {
        let init = t.drop_last();
        assert(init.take(s.len() as int) =~= s);
        assert forall|i: int| s.len() <= i < init.len() implies !matches_key(
            init,
            i,
            level,
            text,
        ) by {
            assert(init[i] == t[i]);
            assert(!matches_key(t, i, level, text));
        }
        assert(!matches_key(t, t.len() - 1, level, text));
        lemma_matching_kept(s, init, level, text);
    }
}

proof fn lemma_last_reusable(x: Planning, older: Seq<NodeId>, id: NodeId)
    requires
        forall|i: int| 0 <= i < older.len() ==> !reusable(x, #[trigger] older[i]),
        reusable(x, id),
    ensures
        first_reusable(x, older.push(id)) == Some(id),
    decreases older.len(),
{
    let ids = older.push(id);
    if older.len() > 0 {
        assert(ids[0] == older[0]);
        let rest = older.skip(1);
        assert(ids.skip(1) =~= rest.push(id));
        assert forall|i: int| 0 <= i < rest.len() implies !reusable(x, #[trigger] rest[i]) by {
            assert(rest[i] == older[i + 1]);
        }
        lemma_last_reusable(x, rest, id);
    }
}

/// The keys of properties are different.
pub proof fn lemma_keys_differ()
    ensures
        "voice"@ != "text"@,
        "voice"@ != "level"@,
        "voice"@ != "phonemes"@,
        "voice"@ != "wav_path"@,
        "voice"@ != "duration_ms"@,
        "voice"@ != "sample_rate"@,
        "cache_domain"@ != "text"@,
        "cache_domain"@ != "level"@,
        "cache_domain"@ != "phonemes"@,
        "cache_domain"@ != "wav_path"@,
        "cache_domain"@ != "duration_ms"@,
        "cache_domain"@ != "sample_rate"@,
        "cache_domain"@ != "voice"@,
        "cache_domain"@ != "samples"@,
        "cache_domain"@ != "rms"@,
        "cache_domain"@ != "context_prev"@,
        "cache_domain"@ != "context_next"@,
{
    reveal_strlit("voice");
    reveal_strlit("text");
    reveal_strlit("level");
    reveal_strlit("phonemes");
    reveal_strlit("wav_path");
    reveal_strlit("duration_ms");
    reveal_strlit("sample_rate");
    reveal_strlit("samples");
    reveal_strlit("rms");
    reveal_strlit("cache_domain");
    reveal_strlit("context_prev");
    reveal_strlit("context_next");
    assert("voice"@[0] != "level"@[0]);
    assert("cache_domain"@.len() == 12);
    assert("wav_path"@.len() == 8);
    assert("samples"@.len() == 7);
    assert("rms"@.len() == 3);
    assert("sample_rate"@.len() == 11);
    assert("cache_domain"@[1] != "context_prev"@[1]);
    assert("cache_domain"@[1] != "context_next"@[1]);
}

proof fn lemma_reusable_found(x: Planning, ids: Seq<NodeId>, k: int)
    requires
        0 <= k < ids.len(),
        reusable(x, ids[k]),
    ensures
        first_reusable(x, ids) is Some,
    decreases ids.len(),
{
    if !reusable(x, ids[0]) {
        assert(ids.skip(1)[k - 1] == ids[k]);
        lemma_reusable_found(x, ids.skip(1), k - 1);
    }
}

/// The first plan with an identity is where it is found.
proof fn lemma_first_plan(plans: Seq<PendingView>, id: Seq<char>, k: int)
    requires
        0 <= k < plans.len(),
        plans[k].response.plan_id == id,
        forall|i: int| 0 <= i < k ==> (#[trigger] plans[i]).response.plan_id != id,
    ensures
        plan_spot(plans, id) == k,
{
    lemma_plan_spot(plans, id);
    let j = plan_spot(plans, id) as int;
    if j < k {
        assert(plans[j].response.plan_id != id);
    } else if k < j {
        assert(plans[k].response.plan_id != id);
    }
}

/// Plans without an identity have none with it that is live.
proof fn lemma_live_ids(plans: Seq<PendingView>, now: u64, id: Seq<char>)
    requires
        forall|i: int| 0 <= i < plans.len() ==> (#[trigger] plans[i]).response.plan_id != id,
    ensures
        forall|i: int|
            0 <= i < live(plans, now).len() ==> (#[trigger] live(
                plans,
                now,
            )[i]).response.plan_id != id,
    decreases plans.len(),
{
    if plans.len() > 0 {
        let init = plans.drop_last();
        assert forall|i: int| 0 <= i < init.len() implies (
        #[trigger] init[i]).response.plan_id != id by {
            assert(init[i] == plans[i]);
        }
        lemma_live_ids(init, now, id);
        let l = live(plans, now);
        let before = live(init, now);
        assert(plans[plans.len() - 1] == plans.last());
        assert forall|i: int| 0 <= i < l.len() implies (#[trigger] l[i]).response.plan_id != id by {
            if i < before.len() {
                assert(l[i] == before[i]);
            }
        }
    }
}

/// The first plan with an identity is found among the live ones, as long as it
/// has not expired.
proof fn lemma_live_plan(plans: Seq<PendingView>, now: u64, id: Seq<char>)
    requires
        plan_spot(plans, id) < plans.len(),
        plans[plan_spot(plans, id) as int].response.expires_at >= now,
    ensures
        ({
            let l = live(plans, now);
            let j = plan_spot(l, id) as int;
            j < l.len() && l[j] == plans[plan_spot(plans, id) as int]
        }),
    decreases plans.len(),
{
    let k = plan_spot(plans, id) as int;
    let init = plans.drop_last();
    let l = live(plans, now);
    lemma_plan_spot(plans, id);
    if k < init.len() {
        assert forall|i: int| 0 <= i < k implies (#[trigger] init[i]).response.plan_id != id by {
            assert(init[i] == plans[i]);
        }
        lemma_first_plan(init, id, k);
        lemma_live_plan(init, now, id);
        let before = live(init, now);
        let j = plan_spot(before, id) as int;
        lemma_plan_spot(before, id);
        assert(l[j] == before[j]);
        assert forall|i: int| 0 <= i < j implies (#[trigger] l[i]).response.plan_id != id by {
            assert(l[i] == before[i]);
        }
        lemma_first_plan(l, id, j);
    } else {
        assert forall|i: int| 0 <= i < init.len() implies (
        #[trigger] init[i]).response.plan_id != id by {
            assert(init[i] == plans[i]);
        }
        lemma_live_ids(init, now, id);
        let before = live(init, now);
        assert(plans.last() == plans[k]);
        assert(l == before.push(plans.last()));
        assert forall|i: int| 0 <= i < before.len() implies (#[trigger] l[i]).response.plan_id
            != id by {
            assert(l[i] == before[i]);
        }
        lemma_first_plan(l, id, before.len() as int);
    }
}

/// A plan that is put in place is found under its identity.
proof fn lemma_plan_in_place(m: ManagerView, p: PendingView)
    ensures
        ({
            let plans = with_plan(m, p).plans;
            let k = plan_spot(plans, p.response.plan_id) as int;
            k < plans.len() && plans[k] == p
        }),
{
    let id = p.response.plan_id;
    let k = plan_spot(m.plans, id) as int;
    let plans = with_plan(m, p).plans;
    lemma_plan_spot(m.plans, id);
    assert(plans[k] == p);
    assert forall|i: int| 0 <= i < k implies (#[trigger] plans[i]).response.plan_id != id by {
        assert(plans[i] == m.plans[i]);
    }
    lemma_first_plan(plans, id, k);
}

/// Where nothing may be reused, no unit is found.
proof fn lemma_none_reusable(x: Planning, ids: Seq<NodeId>)
    requires
        forall|id: NodeId| !#[trigger] reusable(x, id),
    ensures
        first_reusable(x, ids) is None,
    decreases ids.len(),
{
    if ids.len() > 0 {
        assert(!reusable(x, ids[0]));
        lemma_none_reusable(x, ids.skip(1));
    }
}

/// The audio that is brought for the one span of a plan is what its composing
/// gathers.
proof fn lemma_brought_and_gathered(
    m: ManagerView,
    p: PendingView,
    body: Seq<u8>,
    at: u64,
    reaped_at: u64,
)
    requires
        p.response.spans.len() == 1,
        p.response.spans[0].kind == "missing"@,
        p.injected.len() == 0,
        body.len() % 2 == 0,
        at <= p.response.expires_at,
        reaped_at <= p.response.expires_at,
    ensures
        ({
            let id = p.response.plan_id;
            let span = p.response.spans[0];
            let audio = WavView { samples: pcm_samples(body), sample_rate: SAMPLE_RATE };
            let (after, r) = injected(with_plan(m, p), id, span.span_id, body, at);
            let plans = reaped(after, reaped_at).plans;
            let k = plan_spot(plans, id) as int;
            &&& r is Ok
            &&& k < plans.len()
            &&& plans[k] == (PendingView { injected: seq![(span.span_id, audio)], ..p })
            &&& injected_audio(plans[k], span) == Ok::<WavView, ErrorView>(audio)
        }),
{
    let id = p.response.plan_id;
    let span = p.response.spans[0];
    let audio = WavView { samples: pcm_samples(body), sample_rate: SAMPLE_RATE };
    lemma_plan_in_place(m, p);
    let first = with_plan(m, p);
    let k = plan_spot(first.plans, id) as int;
    assert(wants(p.response.spans, span.span_id)) by {
        assert(p.response.spans[0].span_id == span.span_id);
    }
    let (after, r) = injected(first, id, span.span_id, body, at);
    let brought = PendingView { injected: p.injected.push((span.span_id, audio)), ..p };
    assert(brought.injected =~= seq![(span.span_id, audio)]);
    lemma_plan_spot(first.plans, id);
    assert(after.plans == first.plans.update(k, brought));
    assert forall|i: int| 0 <= i < k implies (#[trigger] after.plans[i]).response.plan_id != id by {
        assert(after.plans[i] == first.plans[i]);
    }
    lemma_first_plan(after.plans, id, k);
    lemma_live_plan(after.plans, reaped_at, id);
    reveal_with_fuel(injection_spot, 2);
}

/// Planning comes full circle. A request of which nothing is cached is planned as
/// one missing span. Once the plan is in place, its audio may be brought, and
/// composing it gives back exactly that audio. The next plan for the same request
/// has all of its characters cached, in one span that links to that audio, while
/// a request in another voice, model or settings has none.
pub proof fn plans_come_full_circle<C: AudioCodec + ?Sized>(
    m: ManagerView,
    s: StoreView,
    request: RequestView,
    other: RequestView,
    o: Origin,
    next: Origin,
    body: Seq<u8>,
    fetched: Seq<FetchedView>,
    dict: Dict,
    at: u64,
    reaped_at: u64,
    now: u64,
    t: Gains,
    codec: &C,
)
    requires
        s.nodes.len() < u64::MAX,
        body.len() % 2 == 0,
        body.len() <= u32::MAX,
        tokens(request.text).len() > 0,
        normalized(normalized(request.text)) == normalized(request.text),
        next.object_root == o.object_root,
        forall|id: NodeId|
            !#[trigger] reusable(
                planning(s.nodes, request.voice_id, domain_of(request), o.object_root),
                id,
            ),
        other.voice_id != request.voice_id || domain_of(other) != domain_of(request),
        forall|id: NodeId|
            !#[trigger] reusable(
                planning(s.nodes, other.voice_id, domain_of(other), o.object_root),
                id,
            ),
        at <= capped(o.now as nat + 60),
        reaped_at <= capped(o.now as nat + 60),
        now <= capped(o.now as nat + 60),
    ensures
        draft_of(o, s, request, codec) matches Ok(d) && {
            let r = d.response;
            let audio = WavView { samples: pcm_samples(body), sample_rate: SAMPLE_RATE };
            let p = PendingView { request, response: r, injected: Seq::empty() };
            let (brought, answer) = injected(
                with_plan(m, p),
                r.plan_id,
                r.spans[0].span_id,
                body,
                at,
            );
            let (after, store, parts) = plan_gathered(
                brought,
                s,
                r.plan_id,
                fetched,
                true,
                dict,
                reaped_at,
                now,
                codec,
            );
            &&& r.cached_chars == 0
            &&& r.spans.len() == 1
            &&& answer is Ok
            &&& parts == Ok::<(Seq<WavView>, ResponseView), ErrorView>((seq![audio], r))
            &&& plan_finished(after, seq![audio], r, t).1 == Ok::<
                (WavView, ResponseView),
                ErrorView,
            >((audio, r))
            &&& draft_of(next, store, request, codec) matches Ok(again) && {
                &&& again.response.cached_chars == again.response.total_chars
                &&& again.response.cached_chars > 0
                &&& again.response.missing_chars == 0
                &&& again.response.spans == seq![
                    cached_span(
                        0,
                        normalized(request.text),
                        NodeId(s.nodes.len() as u64),
                        wav_bytes(audio),
                    ),
                ]
            }
            &&& draft_of(next, store, other, codec) matches Ok(apart) && apart.response.cached_chars
                == 0 && apart.artifacts.len() == 0
        },
{
    let text = normalized(request.text);
    let x = planning(s.nodes, request.voice_id, domain_of(request), o.object_root);
    tokens_spell_the_normal_form(request.text);
    tokens_spell_the_normal_form(text);
    lemma_visible_spoken(tokens(request.text));
    assert(tokens(text).len() > 0) by {
        if tokens(text).len() == 0 {
            assert(tokens(text) =~= Seq::empty());
            lemma_visible_spoken(tokens(text));
        }
    }
    other_voices_serve_nothing(x, text, codec);
    let d = draft_of(o, s, request, codec)->Ok_0;
    let r = d.response;
    let span = r.spans[0];
    let audio = WavView { samples: pcm_samples(body), sample_rate: SAMPLE_RATE };
    let p = PendingView { request, response: r, injected: Seq::empty() };
    assert(span.text == text);
    lemma_brought_and_gathered(m, p, body, at, reaped_at);
    let brought = injected(with_plan(m, p), r.plan_id, span.span_id, body, at).0;
    let plans = reaped(brought, reaped_at).plans;
    let q = plans[plan_spot(plans, r.plan_id) as int];
    assert("missing"@ != "cached"@) by {
        reveal_strlit("missing");
        reveal_strlit("cached");
        assert("missing"@.len() != "cached"@.len());
    }
    composing_what_was_brought_is_lossless(
        brought,
        s,
        r.plan_id,
        fetched,
        true,
        dict,
        reaped_at,
        now,
        audio,
        t,
        codec,
    );
    lemma_none_reusable(x, matching(s.nodes, UnitLevel::Phrase, text));
    stored_plans_serve_their_text(s, q, span, audio, dict, next, codec);
    brought_audio_stays_in_its_voice(s, q, span, audio, dict, next, other, codec);
}

/// What is hashed of a request: its model and its settings, with a NUL between
/// them.
pub open spec fn hashed_of(r: RequestView) -> Seq<u8> {
    encode_utf8(r.model_id + seq!['\0'] + r.settings_key)
}

/// The first eight bytes of a digest in hexadecimal digits.
pub open spec fn short_digest(bytes: Seq<u8>) -> Seq<char> {
    hex_of(sha256_of(bytes)).take(16)
}

proof fn lemma_split_at_nul(a: Seq<char>, b: Seq<char>, c: Seq<char>, d: Seq<char>)
    requires
        !a.contains('\0'),
        !c.contains('\0'),
        a + seq!['\0'] + b == c + seq!['\0'] + d,
    ensures
        a == c,
        b == d,
{
    let s = a + seq!['\0'] + b;
    let t = c + seq!['\0'] + d;
    if a.len() < c.len() {
        assert(s[a.len() as int] == '\0');
        assert(t[a.len() as int] == c[a.len() as int]);
        assert(c.contains(c[a.len() as int]));
    } else if c.len() < a.len() {
        assert(t[c.len() as int] == '\0');
        assert(s[c.len() as int] == a[c.len() as int]);
        assert(a.contains(a[c.len() as int]));
    }
    assert(a =~= s.take(a.len() as int));
    assert(c =~= t.take(c.len() as int));
    assert(b =~= s.skip(a.len() as int + 1));
    assert(d =~= t.skip(c.len() as int + 1));
}

/// Requests share a domain where they agree in model and settings, whatever they
/// say and in whatever voice. Where they differ in either, and no model holds a
/// NUL, what is hashed of them differs, and so do their domains unless the digests
/// collide.
pub proof fn models_and_settings_have_their_own_domain(a: RequestView, b: RequestView)
    requires
        !a.model_id.contains('\0'),
        !b.model_id.contains('\0'),
    ensures
        a.model_id == b.model_id && a.settings_key == b.settings_key ==> domain_of(a) == domain_of(
            b,
        ),
        a.model_id != b.model_id || a.settings_key != b.settings_key ==> hashed_of(a) != hashed_of(
            b,
        ),
        short_digest(hashed_of(a)) != short_digest(hashed_of(b)) ==> domain_of(a) != domain_of(b),
{
    let x = a.model_id + seq!['\0'] + a.settings_key;
    let y = b.model_id + seq!['\0'] + b.settings_key;
    encode_utf8_decode_utf8(x);
    encode_utf8_decode_utf8(y);
    if x == y {
        lemma_split_at_nul(a.model_id, a.settings_key, b.model_id, b.settings_key);
    }
    let n = "voxd-elevenlabs:"@.len() as int;
    assert(domain_of(a).skip(n) =~= short_digest(hashed_of(a)));
    assert(domain_of(b).skip(n) =~= short_digest(hashed_of(b)));
}

/// Audio that was brought for one model and settings serves no request for
/// another model or other settings, as long as the digests of the two do not
/// collide: where nothing served it before, nothing of any text is cached for it
/// afterwards.
pub proof fn brought_audio_stays_with_its_model<C: AudioCodec + ?Sized>(
    s: StoreView,
    p: PendingView,
    span: SpanView,
    audio: WavView,
    dict: Dict,
    o: Origin,
    other: RequestView,
    codec: &C,
)
    requires
        !other.model_id.contains('\0'),
        !p.request.model_id.contains('\0'),
        other.model_id != p.request.model_id || other.settings_key != p.request.settings_key,
        hashed_of(other) != hashed_of(p.request) ==> short_digest(hashed_of(other))
            != short_digest(hashed_of(p.request)),
        forall|id: NodeId|
            !#[trigger] reusable(
                planning(s.nodes, other.voice_id, domain_of(other), o.object_root),
                id,
            ),
    ensures
        ({
            let after = span_ingested(s, p, span, audio, dict, codec);
            &&& draft_of(o, after, other, codec) is Ok
            &&& draft_of(o, after, other, codec)->Ok_0.response.cached_chars == 0
            &&& draft_of(o, after, other, codec)->Ok_0.artifacts.len() == 0
        }),
{
    models_and_settings_have_their_own_domain(other, p.request);
    brought_audio_stays_in_its_voice(s, p, span, audio, dict, o, other, codec);
}

} // verus!
