//! What a composed request is made of, fragment by fragment: which recording each
//! of them plays, and why that one.

use crate::audio::{spliced, WavView};
use crate::codec::AudioCodec;
use crate::compose::{
    all_open, best_of, cached_candidate, claimed, composed, filled, finished, lemma_entries_at,
    lengths_tried,
    open_runs, open_slots, part_audio, parts_of, phrase_at, phrase_tried, phrases, plan,
    starts_tried, word_resolved, words_tried, PartView, Planned, Request, SlotView,
};
use crate::error::ErrorView;
use crate::fade::Gains;
use crate::frac::Frac;
use crate::heard::{
    cuts_keep_their_share, leads, lemma_cached_at, lemma_candidate, of_ordinary_length, says,
    starts_with_stem, storable, trails,
};
use crate::report::ReportView;
use crate::speak::{
    all_spoken, answered, grown, kept, span_text, spoken_audio, word_at, word_before, Dict, Reply,
};
use crate::store::{
    audio_at, context_score, fits_better, found_units_match, index_entries_are_complete, indexed,
    matches_key, matching, unit_at, NodeId, NodeView, StoreView,
};
use crate::tts::TtsProvider;
use crate::units::{morphemes, tokens, UnitLevel};
use vstd::prelude::*;

verus! {

/// Whether a unit was recorded behind a text.
pub open spec fn came_after(nodes: Seq<NodeView>, id: NodeId, text: Option<Seq<char>>) -> bool {
    unit_at(nodes, id) matches Some(u) && text == Some(u.context_prev)
}

/// Whether a unit was recorded in front of a text.
pub open spec fn came_before(nodes: Seq<NodeView>, id: NodeId, text: Option<Seq<char>>) -> bool {
    unit_at(nodes, id) matches Some(u) && text == Some(u.context_next)
}

/// How many of its neighbours in a request a unit was recorded next to.
pub open spec fn neighbours_met(q: Request, i: int, id: NodeId) -> int {
    let prev = if i > 0 {
        Some(q.words[i - 1])
    } else {
        None
    };
    let next = if i < q.words.len() - 1 {
        Some(q.words[i + 1])
    } else {
        None
    };
    (if came_after(q.nodes, id, prev) {
        1int
    } else {
        0
    }) + (if came_before(q.nodes, id, next) {
        1int
    } else {
        0
    })
}

/// Whether audio is the part of a longer word's recording that says a stem.
pub open spec fn says_stem<C: AudioCodec + ?Sized>(
    nodes: Seq<NodeView>,
    id: NodeId,
    stem: Seq<char>,
    audio: WavView,
    codec: &C,
) -> bool {
    &&& unit_at(nodes, id) matches Some(u) && u.level == UnitLevel::Word && (audio_at(
        nodes,
        id,
        codec,
    ) matches Ok(full) && (storable(full) ==> {
        ||| starts_with_stem(stem, u.text) && leads(audio, full, stem.len(), u.text.len())
        ||| u.text == seq!['u', 'n'] + stem && trails(audio, full, 2, u.text.len())
    }))
}

/// Whether a unit is the recording of word `i` that fits its neighbours best, and
/// the earliest of those that do.
pub open spec fn suits_best(q: Request, i: int, id: NodeId) -> bool {
    &&& says(q.nodes, id, UnitLevel::Word, q.words[i])
    &&& forall|other: NodeId| #[trigger]
        says(q.nodes, other, UnitLevel::Word, q.words[i]) ==> neighbours_met(q, i, id)
            > neighbours_met(q, i, other) || (neighbours_met(q, i, id) == neighbours_met(
            q,
            i,
            other,
        ) && id.0 <= other.0)
}

/// Whether the fragment at word `i` plays what it should: the recording of the
/// phrase that it names; the recording of the word that fits its neighbours best;
/// or, only where the word is not cached, the part of a longer word.
pub open spec fn plays_fragment<C: AudioCodec + ?Sized>(
    q: Request,
    i: int,
    p: PartView,
    codec: &C,
) -> bool {
    match p.level {
        UnitLevel::Phrase => exists|id: NodeId| #[trigger]
            says(q.nodes, id, UnitLevel::Phrase, p.text) && audio_at(q.nodes, id, codec) == Ok::<
                WavView,
                ErrorView,
            >(p.audio),
        UnitLevel::Word => p.text == q.words[i] && exists|id: NodeId| #[trigger]
            suits_best(q, i, id) && audio_at(q.nodes, id, codec) == Ok::<WavView, ErrorView>(
                p.audio,
            ),
        UnitLevel::Morpheme => {
            &&& p.text == q.words[i]
            &&& forall|id: NodeId| !#[trigger] says(q.nodes, id, UnitLevel::Word, q.words[i])
            &&& exists|id: NodeId| #[trigger] says_stem(q.nodes, id, p.text, p.audio, codec)
        },
        _ => false,
    }
}

spec fn all_play<C: AudioCodec + ?Sized>(q: Request, r: Planned, codec: &C) -> bool {
    r matches Ok(s) ==> s.len() == q.words.len() && forall|i: int|
        0 <= i < s.len() ==> (#[trigger] s[i] matches SlotView::Part(p) ==> plays_fragment(
            q,
            i,
            p,
            codec,
        ))
}

proof fn lemma_phrase_plays<C: AudioCodec + ?Sized>(
    q: Request,
    slots: Seq<SlotView>,
    len: nat,
    start: nat,
    codec: &C,
)
    requires
        q.nodes.len() <= u64::MAX,
        all_play(q, Ok(slots), codec),
    ensures
        all_play(q, phrase_tried(q, slots, len, start, codec), codec),
{
    let ph = phrases(q);
    let k = phrase_at(ph, q.words.subrange(start as int, (start + len) as int)) as int;
    if k < ph.len() {
        let index = indexed(q.nodes);
        lemma_entries_at(index, UnitLevel::Phrase, k);
        let j = choose|j: int|
            0 <= j < index.len() && ph[k] == ((#[trigger] index[j]).text, index[j].ids)
                && index[j].level == UnitLevel::Phrase;
        index_entries_are_complete(q.nodes);
        assert(index[j].ids == matching(q.nodes, UnitLevel::Phrase, ph[k].0));
        found_units_match(q.nodes, UnitLevel::Phrase, ph[k].0);
        let id = ph[k].1[0];
        assert(matches_key(q.nodes, id.0 as int, UnitLevel::Phrase, ph[k].0));
        assert(says(q.nodes, id, UnitLevel::Phrase, ph[k].0));
        if let Ok(after) = phrase_tried(q, slots, len, start, codec) {
            assert forall|i: int| 0 <= i < after.len() implies (
            #[trigger] after[i] matches SlotView::Part(p) ==> plays_fragment(q, i, p, codec)) by {
                if after == slots || i != start {
                    assert(after[i] is Part ==> after[i] == slots[i]);
                } else if let SlotView::Part(p) = after[i] {
                    assert(says(q.nodes, id, UnitLevel::Phrase, p.text));
                    assert(audio_at(q.nodes, id, codec) == Ok::<WavView, ErrorView>(p.audio));
                }
            }
        }
    }
}

proof fn lemma_starts_play<C: AudioCodec + ?Sized>(
    q: Request,
    slots: Seq<SlotView>,
    len: nat,
    m: nat,
    codec: &C,
)
    requires
        q.nodes.len() <= u64::MAX,
        all_play(q, Ok(slots), codec),
    ensures
        all_play(q, starts_tried(q, slots, len, m, codec), codec),
    decreases m,
{
    if m > 0 {
        lemma_starts_play(q, slots, len, (m - 1) as nat, codec);
        if let Ok(s) = starts_tried(q, slots, len, (m - 1) as nat, codec) {
            lemma_phrase_plays(q, s, len, (m - 1) as nat, codec);
        }
    }
}

proof fn lemma_lengths_play<C: AudioCodec + ?Sized>(q: Request, m: nat, codec: &C)
    requires
        q.nodes.len() <= u64::MAX,
    ensures
        all_play(q, lengths_tried(q, m, codec), codec),
    decreases m,
{
    if m > 0 {
        lemma_lengths_play(q, (m - 1) as nat, codec);
        if let Ok(s) = lengths_tried(q, (m - 1) as nat, codec) {
            lemma_starts_play(q, s, (q.words.len() - m + 1) as nat, m, codec);
        }
    } else {
        let s = open_slots(q.words.len());
        assert forall|i: int| 0 <= i < s.len() implies !(#[trigger] s[i] is Part) by {}
    }
}

/// The best of several units is among them, and none fits better.
proof fn lemma_best(
    nodes: Seq<NodeView>,
    ids: Seq<NodeId>,
    prev: Option<Seq<char>>,
    next: Option<Seq<char>>,
    n: nat,
) -> (id: NodeId)
    requires
        0 < n <= ids.len(),
    ensures
        ids.contains(id),
        forall|i: int| 0 <= i < n ==> fits_better(nodes, id, #[trigger] ids[i], prev, next),
    decreases n,
{
    if n == 1 {
        ids[0]
    } else {
        let best = lemma_best(nodes, ids, prev, next, (n - 1) as nat);
        let last = ids[n - 1];
        if fits_better(nodes, best, last, prev, next) {
            best
        } else {
            last
        }
    }
}

proof fn lemma_word_plays<C: AudioCodec + ?Sized>(q: Request, i: int, codec: &C)
    requires
        q.nodes.len() <= u64::MAX,
        0 <= i < q.words.len(),
        of_ordinary_length(q.words),
    ensures
        word_resolved(q, i, codec) matches Some(Ok(p)) ==> plays_fragment(q, i, p, codec),
{
    let w = q.words[i];
    let hits = matching(q.nodes, UnitLevel::Word, w);
    found_units_match(q.nodes, UnitLevel::Word, w);
    assert forall|other: NodeId| #[trigger]
        says(q.nodes, other, UnitLevel::Word, w) implies hits.contains(other) by {
        crate::laws::matching_units_are_found(q.nodes, other.0 as int, UnitLevel::Word, w);
        assert(NodeId(other.0 as int as u64) == other);
    }
    if hits.len() > 0 {
        let (prev, next) = (word_before(q.words, i), word_at(q.words, i + 1));
        let some = lemma_best(q.nodes, hits, prev, next, hits.len());
        let id = best_of(q.nodes, hits, prev, next);
        assert(hits.contains(id) && forall|k: int|
            0 <= k < hits.len() ==> fits_better(q.nodes, id, #[trigger] hits[k], prev, next));
        let at = choose|k: int| 0 <= k < hits.len() && hits[k] == id;
        assert(matches_key(q.nodes, hits[at].0 as int, UnitLevel::Word, w));
        assert(suits_best(q, i, id)) by {
            assert forall|other: NodeId| #[trigger]
                says(q.nodes, other, UnitLevel::Word, w) implies neighbours_met(q, i, id)
                > neighbours_met(q, i, other) || (neighbours_met(q, i, id) == neighbours_met(
                q,
                i,
                other,
            ) && id.0 <= other.0) by {
                let k = choose|k: int| 0 <= k < hits.len() && hits[k] == other;
                assert(fits_better(q.nodes, id, hits[k], prev, next));
                assert(context_score(q.nodes, id, prev, next) == neighbours_met(q, i, id));
                assert(context_score(q.nodes, other, prev, next) == neighbours_met(q, i, other));
            }
        }
        if let Some(Ok(p)) = word_resolved(q, i, codec) {
            assert(suits_best(q, i, id));
            assert(audio_at(q.nodes, id, codec) == Ok::<WavView, ErrorView>(p.audio));
            assert(plays_fragment(q, i, p, codec));
        }
    } else {
        assert forall|id: NodeId| !#[trigger] says(q.nodes, id, UnitLevel::Word, w) by {
            if says(q.nodes, id, UnitLevel::Word, w) {
                assert(hits.contains(id));
            }
        }
        let cands = morphemes(w);
        let k = cached_candidate(q.nodes, cands) as int;
        lemma_cached_at(q.nodes, cands);
        if k < cands.len() {
            let c = cands[k];
            let id = matching(q.nodes, UnitLevel::Word, c.word)[0];
            lemma_candidate(w, k);
            found_units_match(q.nodes, UnitLevel::Word, c.word);
            assert(matches_key(q.nodes, id.0 as int, UnitLevel::Word, c.word));
            if let Ok(full) = audio_at(q.nodes, id, codec) {
                if storable(full) {
                    if starts_with_stem(w, c.word) && c.from == (Frac { num: 0, den: 1 }) {
                        cuts_keep_their_share(full, c.to);
                    } else {
                        cuts_keep_their_share(full, c.from);
                    }
                }
                let p = word_resolved(q, i, codec)->Some_0->Ok_0;
                assert(says_stem(q.nodes, id, p.text, p.audio, codec));
                assert(plays_fragment(q, i, p, codec));
            }
        }
    }
}

proof fn lemma_words_play<C: AudioCodec + ?Sized>(
    q: Request,
    slots: Seq<SlotView>,
    m: nat,
    codec: &C,
)
    requires
        q.nodes.len() <= u64::MAX,
        of_ordinary_length(q.words),
        all_play(q, Ok(slots), codec),
        m <= q.words.len(),
    ensures
        all_play(q, words_tried(q, slots, m, codec), codec),
    decreases m,
{
    if m > 0 {
        lemma_words_play(q, slots, (m - 1) as nat, codec);
        lemma_word_plays(q, m - 1, codec);
        if let (Ok(s), Ok(after)) = (
            words_tried(q, slots, (m - 1) as nat, codec),
            words_tried(q, slots, m, codec),
        ) {
            assert forall|i: int| 0 <= i < after.len() implies (
            #[trigger] after[i] matches SlotView::Part(p) ==> plays_fragment(q, i, p, codec)) by {
                if i != m - 1 {
                    assert(after[i] == s[i]);
                }
            }
        }
    }
}

/// Every fragment that a request finds in the cache plays what it names, whatever
/// its level.
pub proof fn fragments_play_what_they_name<C: AudioCodec + ?Sized>(
    q: Request,
    slots: Seq<SlotView>,
    i: int,
    codec: &C,
)
    requires
        q.nodes.len() <= u64::MAX,
        of_ordinary_length(q.words),
        plan(q, codec) == Planned::Ok(slots),
        0 <= i < slots.len(),
    ensures
        slots[i] matches SlotView::Part(p) ==> plays_fragment(q, i, p, codec),
{
    let n = q.words.len();
    lemma_lengths_play(q, n, codec);
    lemma_words_play(q, lengths_tried(q, n, codec)->Ok_0, n, codec);
}

/// Whether a piece is what a fragment with a text and a level plays, or what a
/// provider may answer when asked for that text.
pub open spec fn says_hit<T: TtsProvider + ?Sized, C: AudioCodec + ?Sized>(
    q: Request,
    tts: &T,
    voice: Seq<char>,
    hit: (Seq<char>, UnitLevel),
    piece: WavView,
    codec: &C,
) -> bool {
    ||| exists|i: int|
        0 <= i < q.words.len() && #[trigger] plays_fragment(
            q,
            i,
            PartView { audio: piece, text: hit.0, level: hit.1 },
            codec,
        )
    ||| hit.1 == UnitLevel::Word && tts.may_reply(hit.0, voice, Ok(piece))
}

proof fn lemma_filled_plays<T: TtsProvider + ?Sized, C: AudioCodec + ?Sized>(
    q: Request,
    slots: Seq<SlotView>,
    tts: &T,
    voice: Seq<char>,
    replies: Seq<WavView>,
    k: nat,
    codec: &C,
)
    requires
        all_play(q, Ok(slots), codec),
        k <= open_runs(slots, 0).len(),
        replies.len() == open_runs(slots, 0).len(),
        forall|j: int|
            0 <= j < replies.len() ==> tts.may_reply(
                span_text(q.words, open_runs(slots, 0)[j]),
                voice,
                Ok(#[trigger] replies[j]),
            ),
    ensures
        filled(q.words, slots, replies, k).len() == slots.len(),
        forall|i: int|
            0 <= i < slots.len() ==> (#[trigger] filled(
                q.words,
                slots,
                replies,
                k,
            )[i] matches SlotView::Part(p) ==> says_hit(
                q,
                tts,
                voice,
                (p.text, p.level),
                p.audio,
                codec,
            )),
    decreases k,
{
    let after = filled(q.words, slots, replies, k);
    if k > 0 {
        lemma_filled_plays(q, slots, tts, voice, replies, (k - 1) as nat, codec);
        let before = filled(q.words, slots, replies, (k - 1) as nat);
        assert(tts.may_reply(
            span_text(q.words, open_runs(slots, 0)[k - 1]),
            voice,
            Ok(replies[k - 1]),
        ));
        assert forall|i: int| 0 <= i < slots.len() implies (
        #[trigger] after[i] matches SlotView::Part(p) ==> says_hit(
            q,
            tts,
            voice,
            (p.text, p.level),
            p.audio,
            codec,
        )) by {
            if after[i] is Part && i != open_runs(slots, 0)[k - 1].0 {
                assert(after[i] == before[i]);
            }
        }
    } else {
        assert forall|i: int| 0 <= i < slots.len() implies (
        #[trigger] after[i] matches SlotView::Part(p) ==> says_hit(
            q,
            tts,
            voice,
            (p.text, p.level),
            p.audio,
            codec,
        )) by {
            if let SlotView::Part(p) = after[i] {
                assert(plays_fragment(q, i, p, codec));
                assert(p == (PartView { audio: p.audio, text: p.text, level: p.level }));
            }
        }
    }
}

proof fn lemma_parts_say<T: TtsProvider + ?Sized, C: AudioCodec + ?Sized>(
    q: Request,
    slots: Seq<SlotView>,
    tts: &T,
    voice: Seq<char>,
    n: nat,
    codec: &C,
)
    requires
        n <= slots.len(),
        forall|i: int|
            0 <= i < slots.len() ==> (#[trigger] slots[i] matches SlotView::Part(p) ==> says_hit(
                q,
                tts,
                voice,
                (p.text, p.level),
                p.audio,
                codec,
            )),
    ensures
        forall|k: int|
            0 <= k < parts_of(slots, n).len() ==> says_hit(
                q,
                tts,
                voice,
                (parts_of(slots, n)[k].text, parts_of(slots, n)[k].level),
                (#[trigger] parts_of(slots, n)[k]).audio,
                codec,
            ),
    decreases n,
{
    if n > 0 {
        lemma_parts_say(q, slots, tts, voice, (n - 1) as nat, codec);
        let before = parts_of(slots, (n - 1) as nat);
        let all = parts_of(slots, n);
        assert forall|k: int| 0 <= k < all.len() implies says_hit(
            q,
            tts,
            voice,
            (all[k].text, all[k].level),
            (#[trigger] all[k]).audio,
            codec,
        ) by {
            if k < before.len() {
                assert(all[k] == before[k]);
            }
        }
    }
}

/// A composed request plays what its report names, hit by hit and in that order:
/// each hit is a recording in the cache that says its text, or what the provider
/// answered when asked for it. The pieces are joined with fades of 10 ms.
pub proof fn compositions_play_their_hits<T: TtsProvider + ?Sized, C: AudioCodec + ?Sized>(
    before: StoreView,
    after: StoreView,
    out: WavView,
    report: ReportView,
    tts: &T,
    text: Seq<char>,
    voice: Seq<char>,
    dict: Dict,
    codec: &C,
    t: Gains,
) -> (pieces: Seq<WavView>)
    requires
        before.nodes.len() <= u64::MAX,
        of_ordinary_length(tokens(text)),
        composed(before, after, Ok((out, report)), tts, text, voice, dict, codec, t),
    ensures
        pieces.len() == report.hits.len(),
        spliced(pieces, 10, t) == Ok::<WavView, ErrorView>(out),
        forall|k: int|
            0 <= k < pieces.len() ==> says_hit(
                Request { nodes: before.nodes, words: tokens(text) },
                tts,
                voice,
                report.hits[k],
                #[trigger] pieces[k],
                codec,
            ),
{
    let words = tokens(text);
    let q = Request { nodes: before.nodes, words };
    let slots = plan(q, codec)->Ok_0;
    let runs = open_runs(slots, 0);
    let r = Ok::<(WavView, ReportView), ErrorView>((out, report));
    let replies = choose|replies: Seq<Reply>|
        {
            &&& #[trigger] answered(tts, words, runs, voice, replies)
            &&& after == grown(
                before,
                words,
                runs,
                replies,
                voice,
                tts.provider_name(),
                dict,
                kept(replies),
                codec,
            )
            &&& if all_spoken(runs, replies) {
                r == finished(words, slots, spoken_audio(replies), t)
            } else {
                r == Err::<(WavView, ReportView), ErrorView>(replies.last()->Err_0)
            }
        };
    assert(all_spoken(runs, replies));
    let audio = spoken_audio(replies);
    assert forall|j: int| 0 <= j < audio.len() implies tts.may_reply(
        span_text(words, runs[j]),
        voice,
        Ok(#[trigger] audio[j]),
    ) by {
        assert(replies[j] is Ok);
        assert(tts.may_reply(span_text(words, runs[j]), voice, replies[j]));
    }
    let n = words.len();
    lemma_lengths_play(q, n, codec);
    lemma_words_play(q, lengths_tried(q, n, codec)->Ok_0, n, codec);
    lemma_filled_plays(q, slots, tts, voice, audio, runs.len(), codec);
    let done = filled(words, slots, audio, runs.len());
    lemma_parts_say(q, done, tts, voice, n, codec);
    let parts = parts_of(done, n);
    let pieces = part_audio(parts);
    assert forall|k: int| 0 <= k < pieces.len() implies says_hit(
        q,
        tts,
        voice,
        report.hits[k],
        #[trigger] pieces[k],
        codec,
    ) by {
        assert(pieces[k] == parts[k].audio);
    }
    pieces
}

// ---- longest first ----

/// Whether a cached phrase of `len` words stands at word `s`.
pub open spec fn phrase_stands(slots: Seq<SlotView>, s: int, len: nat) -> bool {
    &&& 0 <= s < slots.len()
    &&& slots[s] matches SlotView::Part(p) && p.level == UnitLevel::Phrase && tokens(p.text).len()
        == len
}

/// Whether a cached phrase of at least `len` words stands over one of the words
/// from `a` to `b`.
pub open spec fn taken_by_phrase(slots: Seq<SlotView>, a: int, b: int, len: nat) -> bool {
    exists|s: int, l: nat| #[trigger]
        phrase_stands(slots, s, l) && l >= len && s < b && a < s + l
}

proof fn lemma_taken(slots: Seq<SlotView>, a: int, b: int, len: nat, s: int, l: nat)
    requires
        phrase_stands(slots, s, l),
        l >= len,
        s < b,
        a < s + l,
    ensures
        taken_by_phrase(slots, a, b, len),
{
}

/// Phrases that stand in one row of slots stand in another.
spec fn phrases_stay(slots: Seq<SlotView>, after: Seq<SlotView>) -> bool {
    forall|s: int, l: nat| #[trigger]
        phrase_stands(slots, s, l) ==> phrase_stands(after, s, l)
}

proof fn lemma_stays(
    slots: Seq<SlotView>,
    after: Seq<SlotView>,
    a: int,
    b: int,
    len: nat,
    least: nat,
)
    requires
        phrases_stay(slots, after),
        taken_by_phrase(slots, a, b, len),
        least <= len,
    ensures
        taken_by_phrase(after, a, b, least),
{
    let (s, l) = choose|s: int, l: nat| #[trigger]
        phrase_stands(slots, s, l) && l >= len && s < b && a < s + l;
    assert(phrase_stands(after, s, l));
}

/// Every slot that is not open belongs to a phrase of at least `len` words.
spec fn filled_by(slots: Seq<SlotView>, len: nat) -> bool {
    forall|i: int|
        0 <= i < slots.len() && !(#[trigger] slots[i] is Open) ==> taken_by_phrase(
            slots,
            i,
            i + 1,
            len,
        )
}

proof fn lemma_phrase_tried_fills<C: AudioCodec + ?Sized>(
    q: Request,
    slots: Seq<SlotView>,
    len: nat,
    start: nat,
    codec: &C,
)
    requires
        slots.len() == q.words.len(),
        0 < len,
        start + len <= q.words.len(),
        filled_by(slots, len),
        phrase_tried(q, slots, len, start, codec) is Ok,
    ensures
        ({
            let after = phrase_tried(q, slots, len, start, codec)->Ok_0;
            let k = phrase_at(
                phrases(q),
                q.words.subrange(start as int, (start + len) as int),
            ) as int;
            &&& after.len() == slots.len()
            &&& filled_by(after, len)
            &&& phrases_stay(slots, after)
            &&& k < phrases(q).len() ==> taken_by_phrase(
                after,
                start as int,
                (start + len) as int,
                len,
            )
        }),
{
    let after = phrase_tried(q, slots, len, start, codec)->Ok_0;
    let ph = phrases(q);
    let span = q.words.subrange(start as int, (start + len) as int);
    let k = phrase_at(ph, span) as int;
    lemma_phrase_found(ph, span);
    if k < ph.len() && all_open(slots, start, len) {
        let part = PartView {
            audio: audio_at(q.nodes, ph[k].1[0], codec)->Ok_0,
            text: ph[k].0,
            level: UnitLevel::Phrase,
        };
        assert(after == claimed(slots, start, len, part));
        assert(tokens(part.text).len() == len);
        assert(phrase_stands(after, start as int, len));
        assert forall|s: int, l: nat| #[trigger] phrase_stands(slots, s, l) implies phrase_stands(
            after,
            s,
            l,
        ) by {
            assert(!(start <= s < start + len)) by {
                if start <= s < start + len {
                    assert(slots[s] is Open);
                }
            }
            assert(after[s] == slots[s]);
        }
        assert forall|i: int|
            0 <= i < after.len() && !(#[trigger] after[i] is Open) implies taken_by_phrase(
            after,
            i,
            i + 1,
            len,
        ) by {
            if start <= i < start + len {
                lemma_taken(after, i, i + 1, len, start as int, len);
            } else {
                assert(after[i] == slots[i]);
                lemma_stays(slots, after, i, i + 1, len, len);
            }
        }
        lemma_taken(after, start as int, (start + len) as int, len, start as int, len);
    } else {
        assert(after == slots);
        if k < ph.len() {
            let i = choose|i: int| start <= i < start + len && !(#[trigger] slots[i] is Open);
            assert(taken_by_phrase(slots, i, i + 1, len));
            let (s, l) = choose|s: int, l: nat| #[trigger]
                phrase_stands(slots, s, l) && l >= len && s < i + 1 && i < s + l;
            lemma_taken(slots, start as int, (start + len) as int, len, s, l);
        }
    }
}

proof fn lemma_phrase_found(ph: Seq<(Seq<char>, Seq<NodeId>)>, span: Seq<Seq<char>>)
    ensures
        phrase_at(ph, span) <= ph.len(),
        phrase_at(ph, span) < ph.len() ==> tokens(ph[phrase_at(ph, span) as int].0) == span,
        forall|j: int|
            0 <= j < ph.len() && tokens((#[trigger] ph[j]).0) == span ==> phrase_at(ph, span) <= j,
    decreases ph.len(),
{
    if ph.len() > 0 && tokens(ph[0].0) != span {
        let t = ph.skip(1);
        lemma_phrase_found(t, span);
        assert forall|j: int|
            0 <= j < ph.len() && tokens((#[trigger] ph[j]).0) == span implies phrase_at(ph, span)
            <= j by {
            assert(j > 0 && t[j - 1] == ph[j]);
        }
        if phrase_at(ph, span) < ph.len() {
            assert(ph[phrase_at(ph, span) as int] == t[phrase_at(t, span) as int]);
        }
    }
}

proof fn lemma_starts_tried_fill<C: AudioCodec + ?Sized>(
    q: Request,
    slots: Seq<SlotView>,
    len: nat,
    m: nat,
    codec: &C,
)
    requires
        slots.len() == q.words.len(),
        0 < len,
        m + len <= q.words.len() + 1,
        filled_by(slots, len),
        starts_tried(q, slots, len, m, codec) is Ok,
    ensures
        ({
            let after = starts_tried(q, slots, len, m, codec)->Ok_0;
            &&& after.len() == slots.len()
            &&& filled_by(after, len)
            &&& phrases_stay(slots, after)
            &&& forall|a: int|
                0 <= a < m && phrase_at(
                    phrases(q),
                    #[trigger] q.words.subrange(a, a + len),
                ) < phrases(q).len() ==> taken_by_phrase(after, a, a + len, len)
        }),
    decreases m,
{
    if m > 0 {
        lemma_starts_tried_fill(q, slots, len, (m - 1) as nat, codec);
        let before = starts_tried(q, slots, len, (m - 1) as nat, codec)->Ok_0;
        lemma_phrase_tried_fills(q, before, len, (m - 1) as nat, codec);
        let after = starts_tried(q, slots, len, m, codec)->Ok_0;
        assert forall|s: int, l: nat| #[trigger] phrase_stands(slots, s, l) implies phrase_stands(
            after,
            s,
            l,
        ) by {
            assert(phrase_stands(before, s, l));
        }
        assert forall|a: int|
            0 <= a < m && phrase_at(phrases(q), #[trigger] q.words.subrange(a, a + len)) < phrases(
                q,
            ).len() implies taken_by_phrase(after, a, a + len, len) by {
            if a < m - 1 {
                assert(taken_by_phrase(before, a, a + len, len));
                lemma_stays(before, after, a, a + len, len, len);
            }
        }
    }
}

proof fn lemma_lengths_tried_fill<C: AudioCodec + ?Sized>(q: Request, m: nat, codec: &C)
    requires
        m <= q.words.len(),
        lengths_tried(q, m, codec) is Ok,
    ensures
        ({
            let after = lengths_tried(q, m, codec)->Ok_0;
            let n = q.words.len();
            &&& after.len() == n
            &&& filled_by(after, (n - m + 1) as nat)
            &&& forall|a: int, b: int|
                0 <= a && n - m < b - a && b <= n && phrase_at(
                    phrases(q),
                    #[trigger] q.words.subrange(a, b),
                ) < phrases(q).len() ==> taken_by_phrase(after, a, b, (b - a) as nat)
        }),
    decreases m,
{
    let n = q.words.len();
    let after = lengths_tried(q, m, codec)->Ok_0;
    if m > 0 {
        lemma_lengths_tried_fill(q, (m - 1) as nat, codec);
        let before = lengths_tried(q, (m - 1) as nat, codec)->Ok_0;
        let len = (n - m + 1) as nat;
        assert(filled_by(before, len)) by {
            assert forall|i: int|
                0 <= i < before.len() && !(#[trigger] before[i] is Open) implies taken_by_phrase(
                before,
                i,
                i + 1,
                len,
            ) by {
                lemma_stays(before, before, i, i + 1, len + 1, len);
            }
        }
        lemma_starts_tried_fill(q, before, len, m, codec);
        assert forall|a: int, b: int|
            0 <= a && n - m < b - a && b <= n && phrase_at(
                phrases(q),
                #[trigger] q.words.subrange(a, b),
            ) < phrases(q).len() implies taken_by_phrase(after, a, b, (b - a) as nat) by {
            if b - a == len {
                assert(a + len == b);
            } else {
                assert(taken_by_phrase(before, a, b, (b - a) as nat));
                lemma_stays(before, after, a, b, (b - a) as nat, (b - a) as nat);
            }
        }
    }
}

proof fn lemma_words_tried_keep<C: AudioCodec + ?Sized>(
    q: Request,
    slots: Seq<SlotView>,
    m: nat,
    codec: &C,
)
    requires
        slots.len() == q.words.len(),
        m <= q.words.len(),
        words_tried(q, slots, m, codec) is Ok,
    ensures
        ({
            let after = words_tried(q, slots, m, codec)->Ok_0;
            &&& after.len() == slots.len()
            &&& phrases_stay(slots, after)
            &&& forall|i: int|
                0 <= i < m && #[trigger] after[i] is Open ==> matching(
                    q.nodes,
                    UnitLevel::Word,
                    q.words[i],
                ).len() == 0
        }),
    decreases m,
{
    if m > 0 {
        lemma_words_tried_keep(q, slots, (m - 1) as nat, codec);
        let before = words_tried(q, slots, (m - 1) as nat, codec)->Ok_0;
        let after = words_tried(q, slots, m, codec)->Ok_0;
        assert forall|s: int, l: nat| #[trigger] phrase_stands(slots, s, l) implies phrase_stands(
            after,
            s,
            l,
        ) by {
            assert(phrase_stands(before, s, l));
            assert(after[s] == before[s]);
        }
        assert forall|i: int| 0 <= i < m && #[trigger] after[i] is Open implies matching(
            q.nodes,
            UnitLevel::Word,
            q.words[i],
        ).len() == 0 by {
            if i < m - 1 {
                assert(before[i] is Open);
            }
        }
    }
}

/// The longest phrases are taken first: where the words from `a` to `b` are cached
/// as a phrase, one of them is taken by a phrase that is at least as long. No word
/// stays open that is cached as a word.
pub proof fn longest_phrases_come_first<C: AudioCodec + ?Sized>(
    q: Request,
    a: int,
    b: int,
    j: int,
    codec: &C,
)
    requires
        plan(q, codec) is Ok,
        0 <= a < b <= q.words.len(),
        0 <= j < phrases(q).len(),
        tokens(phrases(q)[j].0) == q.words.subrange(a, b),
    ensures
        taken_by_phrase(plan(q, codec)->Ok_0, a, b, (b - a) as nat),
        forall|i: int|
            0 <= i < q.words.len() && #[trigger] (plan(q, codec)->Ok_0)[i] is Open ==> matching(
                q.nodes,
                UnitLevel::Word,
                q.words[i],
            ).len() == 0,
{
    let n = q.words.len();
    let s = lengths_tried(q, n, codec)->Ok_0;
    lemma_lengths_tried_fill(q, n, codec);
    lemma_phrase_found(phrases(q), q.words.subrange(a, b));
    assert(taken_by_phrase(s, a, b, (b - a) as nat));
    lemma_words_tried_keep(q, s, n, codec);
    lemma_stays(s, plan(q, codec)->Ok_0, a, b, (b - a) as nat, (b - a) as nat);
}

} // verus!
