//! What a plan holds and what composing it says: every span is served by a
//! recording of its own words in the voice, model and settings asked for, or by
//! the audio that was brought for it.

use crate::audio::{
    heard_one_by_one, parsed_wav, parts_are_heard_one_by_one, wav_bytes, wav_round_trip, WavView,
};
use crate::codec::AudioCodec;
use crate::digest::{hex_of, sha256_of};
use crate::error::ErrorView;
use crate::fade::Gains;
use crate::manifest::{
    drafted, first_reusable, flushed, no_draft, planning, reusable, served, unit_for, visible,
    words_drafted, ArtifactView, Drafting, Planning, RequestView, SpanView,
};
use crate::plan::{
    draft_of, gathered, injection_spot, plan_finished, plan_gathered, plan_spot, reaped,
    span_gathered, FetchedView, ManagerView, Origin, PendingView, ResponseView,
};
use crate::reuse::lemma_keys_differ;
use crate::speak::Dict;
use crate::store::{audio_at, found_units_match, matches_key, matching, unit_at, NodeId, StoreView};
use crate::units::{normalized, tokens, UnitLevel};
use vstd::prelude::*;

verus! {

/// Whether a unit says a text at a level, in a voice and in a domain.
pub open spec fn says_in(
    x: Planning,
    id: NodeId,
    level: UnitLevel,
    text: Seq<char>,
) -> bool {
    unit_at(x.nodes, id) matches Some(u) && u.level == level && u.text == text && u.voice == x.voice
        && u.cache_domain == x.domain
}

/// Whether some unit says a text at a level, in a voice and in a domain.
pub open spec fn is_said_in(x: Planning, level: UnitLevel, text: Seq<char>) -> bool {
    exists|id: NodeId| says_in(x, id, level, text)
}

/// Whether a file serves a span: the span names a unit that says its text in the
/// voice and the domain asked for, and the file is the recording of that unit,
/// under the name, of the size and with the digest that the span gives.
pub open spec fn serves<C: AudioCodec + ?Sized>(
    x: Planning,
    span: SpanView,
    a: ArtifactView,
    codec: &C,
) -> bool {
    &&& span.node_id matches Some(n) && (says_in(x, NodeId(n), UnitLevel::Word, span.text)
        || says_in(x, NodeId(n), UnitLevel::Phrase, span.text)) && (audio_at(
        x.nodes,
        NodeId(n),
        codec,
    ) matches Ok(audio) && (2 * audio.samples.len() <= u32::MAX ==> parsed_wav(a.bytes) == Ok::<
        WavView,
        ErrorView,
    >(audio)))
    &&& span.sha256 == Some(hex_of(sha256_of(a.bytes)))
    &&& span.bytes == a.bytes.len() as u64
    &&& span.link == Some(a.link)
}

/// Whether one of several files serves a span.
pub open spec fn is_served<C: AudioCodec + ?Sized>(
    x: Planning,
    span: SpanView,
    files: Seq<ArtifactView>,
    codec: &C,
) -> bool {
    exists|j: int| 0 <= j < files.len() && #[trigger] serves(x, span, files[j], codec)
}

proof fn lemma_found<C: AudioCodec + ?Sized>(x: Planning, ids: Seq<NodeId>, codec: &C)
    ensures
        first_reusable(x, ids) matches Some(id) ==> ids.contains(id) && reusable(x, id),
    decreases ids.len(),
{
    if ids.len() > 0 {
        if reusable(x, ids[0]) {
            assert(ids.contains(ids[0]));
        } else {
            let rest = ids.skip(1);
            lemma_found(x, rest, codec);
            if let Some(id) = first_reusable(x, rest) {
                let k = choose|k: int| 0 <= k < rest.len() && rest[k] == id;
                assert(ids[k + 1] == id);
            }
        }
    }
}

/// What serves a text says it; and where anything does, something is found.
proof fn lemma_unit_for<C: AudioCodec + ?Sized>(
    x: Planning,
    level: UnitLevel,
    text: Seq<char>,
    codec: &C,
)
    requires
        x.nodes.len() <= u64::MAX,
    ensures
        match unit_for(x, level, text) {
            Some(id) => says_in(x, id, level, text),
            None => forall|id: NodeId| !#[trigger] says_in(x, id, level, text),
        },
{
    let ids = matching(x.nodes, level, text);
    found_units_match(x.nodes, level, text);
    lemma_found(x, ids, codec);
    lemma_keys_differ();
    match unit_for(x, level, text) {
        Some(id) => {
            let k = choose|k: int| 0 <= k < ids.len() && ids[k] == id;
            assert(matches_key(x.nodes, ids[k].0 as int, level, text));
        },
        None => {
            assert forall|id: NodeId| !#[trigger] says_in(x, id, level, text) by {
                if says_in(x, id, level, text) {
                    crate::laws::matching_units_are_found(x.nodes, id.0 as int, level, text);
                    assert(NodeId(id.0 as int as u64) == id);
                    let k = choose|k: int| 0 <= k < ids.len() && ids[k] == id;
                    lemma_none_before(x, ids, k);
                    assert(reusable(x, id));
                }
            }
        },
    }
}

proof fn lemma_none_before(x: Planning, ids: Seq<NodeId>, k: int)
    requires
        0 <= k < ids.len(),
        first_reusable(x, ids) is None,
    ensures
        !reusable(x, ids[k]),
    decreases ids.len(),
{
    if k > 0 {
        assert(ids.skip(1)[k - 1] == ids[k]);
        lemma_none_before(x, ids.skip(1), k - 1);
    }
}

spec fn all_served<C: AudioCodec + ?Sized>(x: Planning, d: Drafting, codec: &C) -> bool {
    forall|k: int|
        0 <= k < d.spans.len() && (#[trigger] d.spans[k]).node_id is Some ==> is_served(
            x,
            d.spans[k],
            d.artifacts,
            codec,
        )
}

proof fn lemma_served_more<C: AudioCodec + ?Sized>(
    x: Planning,
    d: Drafting,
    level: UnitLevel,
    text: Seq<char>,
    id: NodeId,
    audio: WavView,
    chars: nat,
    codec: &C,
)
    requires
        all_served(x, d, codec),
        level == UnitLevel::Word || level == UnitLevel::Phrase,
        says_in(x, id, level, text),
        audio_at(x.nodes, id, codec) == Ok::<WavView, ErrorView>(audio),
    ensures
        all_served(x, served(x, d, text, id, wav_bytes(audio), chars), codec),
{
    let e = served(x, d, text, id, wav_bytes(audio), chars);
    if 2 * audio.samples.len() <= u32::MAX {
        wav_round_trip(audio);
    }
    assert forall|k: int|
        0 <= k < e.spans.len() && (#[trigger] e.spans[k]).node_id is Some implies is_served(
        x,
        e.spans[k],
        e.artifacts,
        codec,
    ) by {
        if k < d.spans.len() {
            assert(e.spans[k] == d.spans[k]);
            if d.spans[k].node_id is Some {
                let j = choose|j: int|
                    0 <= j < d.artifacts.len() && #[trigger] serves(
                        x,
                        d.spans[k],
                        d.artifacts[j],
                        codec,
                    );
                assert(serves(x, e.spans[k], e.artifacts[j], codec));
            }
        } else {
            assert(serves(x, e.spans[k], e.artifacts[d.artifacts.len() as int], codec));
        }
    }
}

proof fn lemma_flushed_served<C: AudioCodec + ?Sized>(x: Planning, d: Drafting, codec: &C)
    requires
        all_served(x, d, codec),
    ensures
        all_served(x, flushed(d), codec),
{
    let e = flushed(d);
    assert forall|k: int|
        0 <= k < e.spans.len() && (#[trigger] e.spans[k]).node_id is Some implies is_served(
        x,
        e.spans[k],
        e.artifacts,
        codec,
    ) by {
        if k < d.spans.len() {
            assert(e.spans[k] == d.spans[k]);
        }
    }
}

/// The letters of those among the first `n` words that some unit says in the
/// voice and the domain asked for.
pub open spec fn letters_served(x: Planning, words: Seq<Seq<char>>, n: nat) -> nat
    decreases n,
{
    if n == 0 {
        0
    } else {
        letters_served(x, words, (n - 1) as nat) + (if is_said_in(x, UnitLevel::Word, words[n - 1]) {
            words[n - 1].len()
        } else {
            0
        })
    }
}

proof fn lemma_words_served<C: AudioCodec + ?Sized>(
    x: Planning,
    words: Seq<Seq<char>>,
    n: nat,
    codec: &C,
)
    requires
        x.nodes.len() <= u64::MAX,
        n <= words.len(),
        words_drafted(x, words, n, codec) is Ok,
    ensures
        all_served(x, words_drafted(x, words, n, codec)->Ok_0, codec),
        words_drafted(x, words, n, codec)->Ok_0.cached == letters_served(x, words, n),
    decreases n,
{
    if n > 0 {
        lemma_words_served(x, words, (n - 1) as nat, codec);
        let d = words_drafted(x, words, (n - 1) as nat, codec)->Ok_0;
        let word = words[n - 1];
        lemma_unit_for(x, UnitLevel::Word, word, codec);
        if let Some(id) = unit_for(x, UnitLevel::Word, word) {
            lemma_flushed_served(x, d, codec);
            let audio = audio_at(x.nodes, id, codec)->Ok_0;
            lemma_served_more(
                x,
                flushed(d),
                UnitLevel::Word,
                word,
                id,
                audio,
                word.len(),
                codec,
            );
            assert(says_in(x, id, UnitLevel::Word, word));
        }
    }
}

/// A plan serves nothing but what says it: every cached span of a draft names a
/// unit that says the text of the span in the voice, model and settings of the
/// request, and comes with the file of that recording. All that can be served is
/// served: the whole text where it is cached as a phrase, and otherwise every word
/// that is cached.
pub proof fn plans_serve_what_is_cached<C: AudioCodec + ?Sized>(
    o: Origin,
    s: StoreView,
    request: RequestView,
    codec: &C,
)
    requires
        s.nodes.len() <= u64::MAX,
        draft_of(o, s, request, codec) is Ok,
    ensures
        ({
            let d = draft_of(o, s, request, codec)->Ok_0;
            let text = normalized(request.text);
            let x = Planning {
                nodes: s.nodes,
                voice: request.voice_id,
                domain: crate::manifest::domain_of(request),
                object_root: o.object_root,
            };
            &&& forall|k: int|
                0 <= k < d.response.spans.len() && (
                #[trigger] d.response.spans[k]).node_id is Some ==> is_served(
                    x,
                    d.response.spans[k],
                    d.artifacts,
                    codec,
                )
            &&& d.response.cached_chars == (if is_said_in(x, UnitLevel::Phrase, text) {
                visible(text)
            } else {
                letters_served(x, tokens(text), tokens(text).len())
            })
        }),
{
    let text = normalized(request.text);
    let x = planning(s.nodes, request.voice_id, crate::manifest::domain_of(request), o.object_root);
    let d = drafted(x, text, codec)->Ok_0;
    lemma_unit_for(x, UnitLevel::Phrase, text, codec);
    match unit_for(x, UnitLevel::Phrase, text) {
        Some(id) => {
            let audio = audio_at(x.nodes, id, codec)->Ok_0;
            assert(says_in(x, id, UnitLevel::Phrase, text));
            assert(all_served(x, no_draft(), codec));
            lemma_served_more(
                x,
                no_draft(),
                UnitLevel::Phrase,
                text,
                id,
                audio,
                visible(text),
                codec,
            );
        },
        None => {
            let words = tokens(text);
            lemma_words_served(x, words, words.len(), codec);
            lemma_flushed_served(x, words_drafted(x, words, words.len(), codec)->Ok_0, codec);
        },
    }
    assert(all_served(x, d, codec));
}

// ---- composing ----

/// Whether a part says span `k` of a plan: for a cached span, the audio of a file
/// whose digest is the one that the span gives; for another, the audio that was
/// first brought under the name of the span.
pub open spec fn says_planned(
    p: PendingView,
    fetched: Seq<FetchedView>,
    k: int,
    part: WavView,
) -> bool {
    let span = p.response.spans[k];
    if span.kind == "cached"@ {
        &&& k < fetched.len()
        &&& fetched[k] matches FetchedView::Bytes(b) && span.sha256 == Some(hex_of(sha256_of(b)))
            && parsed_wav(b) == Ok::<WavView, ErrorView>(part)
    } else {
        exists|j: int|
            {
                &&& 0 <= j < p.injected.len()
                &&& (#[trigger] p.injected[j]) == (span.span_id, part)
                &&& forall|i: int| 0 <= i < j ==> (#[trigger] p.injected[i]).0 != span.span_id
            }
    }
}

proof fn lemma_injection(v: Seq<(Seq<char>, WavView)>, id: Seq<char>)
    ensures
        injection_spot(v, id) <= v.len(),
        injection_spot(v, id) < v.len() ==> v[injection_spot(v, id) as int].0 == id,
        forall|i: int| 0 <= i < injection_spot(v, id) ==> (#[trigger] v[i]).0 != id,
    decreases v.len(),
{
    if v.len() > 0 && v[0].0 != id {
        let rest = v.skip(1);
        lemma_injection(rest, id);
        let n = injection_spot(v, id);
        assert forall|i: int| 0 <= i < n implies (#[trigger] v[i]).0 != id by {
            if i > 0 {
                assert(v[i] == rest[i - 1]);
            }
        }
        if n < v.len() {
            assert(v[n as int] == rest[n - 1]);
        }
    }
}

proof fn lemma_span_said<C: AudioCodec + ?Sized>(
    p: PendingView,
    s: StoreView,
    fetched: Seq<FetchedView>,
    persist: bool,
    dict: Dict,
    k: int,
    codec: &C,
)
    requires
        0 <= k < p.response.spans.len(),
        forall|k: int|
            0 <= k < p.response.spans.len() ==> ((#[trigger] p.response.spans[k]).kind
                == "cached"@ ==> p.response.spans[k].sha256 is Some),
    ensures
        span_gathered(p, s, fetched, persist, dict, k, codec).1 matches Ok(part) ==> says_planned(
            p,
            fetched,
            k,
            part,
        ),
{
    reveal(span_gathered);
    let span = p.response.spans[k];
    reveal_strlit("artifact was not read");
    lemma_injection(p.injected, span.span_id);
    if let Ok(part) = span_gathered(p, s, fetched, persist, dict, k, codec).1 {
        if span.kind != "cached"@ {
            let j = injection_spot(p.injected, span.span_id) as int;
            assert(p.injected[j] == (span.span_id, part));
        }
    }
}

proof fn lemma_gathered_says<C: AudioCodec + ?Sized>(
    p: PendingView,
    s: StoreView,
    fetched: Seq<FetchedView>,
    persist: bool,
    dict: Dict,
    n: nat,
    codec: &C,
)
    requires
        n <= p.response.spans.len(),
        forall|k: int|
            0 <= k < p.response.spans.len() ==> ((#[trigger] p.response.spans[k]).kind
                == "cached"@ ==> p.response.spans[k].sha256 is Some),
    ensures
        gathered(p, s, fetched, persist, dict, n, codec).parts matches Ok(parts) ==> parts.len()
            == n && forall|k: int|
            0 <= k < n ==> says_planned(p, fetched, k, #[trigger] parts[k]),
    decreases n,
{
    if n > 0 {
        lemma_gathered_says(p, s, fetched, persist, dict, (n - 1) as nat, codec);
        let before = gathered(p, s, fetched, persist, dict, (n - 1) as nat, codec);
        if let Ok(parts) = before.parts {
            lemma_span_said(p, before.store, fetched, persist, dict, n - 1, codec);
            if let Ok(more) = gathered(p, s, fetched, persist, dict, n, codec).parts {
                assert forall|k: int| 0 <= k < n implies says_planned(
                    p,
                    fetched,
                    k,
                    #[trigger] more[k],
                ) by {
                    if k < n - 1 {
                        assert(more[k] == parts[k]);
                    }
                }
            }
        }
    }
}

/// A composed plan says its spans in order, one part for each: the linked file of
/// a cached span, unless it was changed, and what was brought for a missing one.
/// The parts are heard one behind the other.
pub proof fn plans_say_their_spans<C: AudioCodec + ?Sized>(
    m: ManagerView,
    s: StoreView,
    plan_id: Seq<char>,
    fetched: Seq<FetchedView>,
    persist: bool,
    dict: Dict,
    reaped_at: u64,
    now: u64,
    parts: Seq<WavView>,
    response: ResponseView,
    out: WavView,
    t: Gains,
    codec: &C,
) -> (at: Seq<nat>)
    requires
        plan_gathered(m, s, plan_id, fetched, persist, dict, reaped_at, now, codec).2 == Ok::<
            (Seq<WavView>, ResponseView),
            ErrorView,
        >((parts, response)),
        plan_finished(m, parts, response, t).1 == Ok::<(WavView, ResponseView), ErrorView>(
            (out, response),
        ),
        forall|k: int|
            0 <= k < response.spans.len() ==> ((#[trigger] response.spans[k]).kind == "cached"@
                ==> response.spans[k].sha256 is Some),
    ensures
        ({
            let plans = reaped(m, reaped_at).plans;
            let p = plans[plan_spot(plans, plan_id) as int];
            &&& p.response == response
            &&& now <= response.expires_at
            &&& parts.len() == response.spans.len()
            &&& forall|k: int|
                0 <= k < parts.len() ==> says_planned(p, fetched, k, #[trigger] parts[k])
            &&& parts.len() > 0 ==> heard_one_by_one(
                out.samples,
                parts,
                at,
                (out.sample_rate * 10 / 1000) as nat,
            )
        }),
{
    let plans = reaped(m, reaped_at).plans;
    let p = plans[plan_spot(plans, plan_id) as int];
    lemma_gathered_says(p, s, fetched, persist, dict, p.response.spans.len(), codec);
    if parts.len() > 0 {
        parts_are_heard_one_by_one(parts, 10, t)
    } else {
        Seq::empty()
    }
}

} // verus!
