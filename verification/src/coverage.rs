//! What a composed request says: its fragments, one behind the other, are the
//! words that were asked for.

use crate::audio::WavView;
use crate::codec::AudioCodec;
use crate::compose::{
    all_open, claimed, composed, filled, finished, lemma_entries_at, lengths_tried, open_runs,
    open_slots, part_hits, parts_of, phrase_at, phrase_tried, phrases, plan, span_texts,
    starts_tried, words_tried, PartView, Planned, Request, SlotView,
};
use crate::edges::{built, built_edges_are_usable, Medium, Search};
use crate::error::ErrorView;
use crate::fade::Gains;
use crate::laws::{
    composing_keeps_the_cache, generated_spans_are_coalesced, in_a_run, runs_are_the_misses,
    segmenting_adds_words_and_sounds,
};
use crate::pipeline::{ingested, record, segmented, Utterance};
use crate::report::ReportView;
use crate::select::{realized, selected, selection, selection_is_contiguous, synth_spans};
use crate::speak::{all_spoken, answered, span_text, spoken_audio, Dict, Reply};
use crate::store::{
    index_entries_are_complete, indexed, matches_key, matching, with_unit,
    NodeId, NodeView, StoreView,
};
use crate::text::{lemma_spoken_append, spoken};
use crate::tts::TtsProvider;
use crate::units::{
    normalized, tokens, tokens_are_not_empty, tokens_spell_the_normal_form, UnitLevel,
};
use vstd::prelude::*;

verus! {

/// Whether the fragment at word `i` ends in front of word `e`: the words
/// between are covered, and word `e` is not.
spec fn ends_at(slots: Seq<SlotView>, i: int, e: int) -> bool {
    &&& 0 <= i < e <= slots.len()
    &&& forall|k: int| i < k < e ==> #[trigger] slots[k] is Covered
    &&& e < slots.len() ==> !(slots[e] is Covered)
}

/// The text of a fragment as it is said: of a phrase its words, one space apart.
pub open spec fn said(text: Seq<char>, level: UnitLevel) -> Seq<char> {
    if level == UnitLevel::Phrase {
        normalized(text)
    } else {
        text
    }
}

/// Whether every fragment says the words it covers, and every covered word
/// stands behind a fragment; and, where that is asked for, whether phrases are
/// named by their normal form.
spec fn is_tiled(words: Seq<Seq<char>>, slots: Seq<SlotView>, strict: bool) -> bool {
    &&& strict ==> forall|i: int|
        0 <= i < slots.len() && (#[trigger] slots[i] is Part) && slots[i]->Part_0.level
            == UnitLevel::Phrase ==> normalized(slots[i]->Part_0.text) == slots[i]->Part_0.text
    &&& slots.len() == words.len()
    &&& forall|i: int|
        0 <= i < slots.len() && (#[trigger] slots[i] is Covered) ==> i > 0 && !(
        slots[i - 1] is Open)
    &&& forall|i: int, e: int|
        #[trigger] ends_at(slots, i, e) && slots[i] is Part ==> said(
            slots[i]->Part_0.text,
            slots[i]->Part_0.level,
        ) == spoken(words.subrange(i, e))
}

/// A fragment over open words keeps the slots tiled.
proof fn lemma_claimed_tiled(
    words: Seq<Seq<char>>,
    slots: Seq<SlotView>,
    start: nat,
    len: nat,
    part: PartView,
    strict: bool,
)
    requires
        strict && part.level == UnitLevel::Phrase ==> normalized(part.text) == part.text,
        is_tiled(words, slots, strict),
        all_open(slots, start, len),
        len > 0,
        start + len <= slots.len(),
        said(part.text, part.level) == spoken(words.subrange(start as int, (start + len) as int)),
    ensures
        is_tiled(words, claimed(slots, start, len, part), strict),
{
    let after = claimed(slots, start, len, part);
    let last = (start + len) as int;
    assert(last < slots.len() ==> !(slots[last] is Covered)) by {
        if last < slots.len() {
            assert(slots[last - 1] is Open);
        }
    }
    assert forall|i: int| 0 <= i < after.len() && (#[trigger] after[i] is Covered) implies i > 0
        && !(after[i - 1] is Open) by {
        if !(start < i < last) {
            assert(slots[i] is Covered);
            if start < i - 1 < last || i - 1 == start {
            } else {
                assert(after[i - 1] == slots[i - 1]);
            }
        }
    }
    assert forall|i: int, e: int| #[trigger]
        ends_at(after, i, e) && after[i] is Part implies said(
        after[i]->Part_0.text,
        after[i]->Part_0.level,
    ) == spoken(words.subrange(i, e)) by {
        if i == start {
            if e < last {
                assert(after[e] is Covered);
            }
            if e > last {
                assert(after[last] is Covered);
            }
        } else {
            assert(!(start < i < last));
            assert(after[i] == slots[i]);
            if i < start && e > start {
                assert(after[start as int] is Covered);
            }
            assert forall|k: int| i < k < e implies #[trigger] slots[k] is Covered by {
                assert(after[k] is Covered);
            }
            if e < slots.len() && e == start {
                assert(slots[e] is Open);
            }
            assert(ends_at(slots, i, e));
        }
    }
}

proof fn lemma_phrase_found(ph: Seq<(Seq<char>, Seq<NodeId>)>, span: Seq<Seq<char>>)
    ensures
        phrase_at(ph, span) <= ph.len(),
        phrase_at(ph, span) < ph.len() ==> tokens(ph[phrase_at(ph, span) as int].0) == span,
    decreases ph.len(),
{
    if ph.len() > 0 && tokens(ph[0].0) != span {
        lemma_phrase_found(ph.skip(1), span);
    }
}

/// Whether every cached phrase is kept under a text in normal form.
pub open spec fn phrases_are_normal(q: Request) -> bool {
    forall|k: int|
        0 <= k < phrases(q).len() ==> normalized((#[trigger] phrases(q)[k]).0) == phrases(q)[k].0
}

spec fn planned_tiled(words: Seq<Seq<char>>, r: Planned, strict: bool) -> bool {
    r matches Ok(s) ==> is_tiled(words, s, strict)
}

proof fn lemma_phrase_tiled<C: AudioCodec + ?Sized>(
    q: Request,
    slots: Seq<SlotView>,
    len: nat,
    start: nat,
    strict: bool,
    codec: &C,
)
    requires
        strict ==> phrases_are_normal(q),
        is_tiled(q.words, slots, strict),
        len > 0,
        start + len <= slots.len(),
    ensures
        planned_tiled(q.words, phrase_tried(q, slots, len, start, codec), strict),
{
    let ph = phrases(q);
    let span = q.words.subrange(start as int, (start + len) as int);
    let k = phrase_at(ph, span) as int;
    lemma_phrase_found(ph, span);
    if k < ph.len() && all_open(slots, start, len) {
        tokens_spell_the_normal_form(ph[k].0);
        if let Ok(after) = phrase_tried(q, slots, len, start, codec) {
            let part = after[start as int]->Part_0;
            lemma_claimed_tiled(q.words, slots, start, len, part, strict);
            assert(after == claimed(slots, start, len, part));
        }
    }
}

proof fn lemma_starts_tiled<C: AudioCodec + ?Sized>(
    q: Request,
    slots: Seq<SlotView>,
    len: nat,
    m: nat,
    strict: bool,
    codec: &C,
)
    requires
        strict ==> phrases_are_normal(q),
        is_tiled(q.words, slots, strict),
        len > 0,
        m + len <= slots.len() + 1,
    ensures
        planned_tiled(q.words, starts_tried(q, slots, len, m, codec), strict),
    decreases m,
{
    if m > 0 {
        lemma_starts_tiled(q, slots, len, (m - 1) as nat, strict, codec);
        if let Ok(s) = starts_tried(q, slots, len, (m - 1) as nat, codec) {
            lemma_phrase_tiled(q, s, len, (m - 1) as nat, strict, codec);
        }
    }
}

proof fn lemma_lengths_tiled<C: AudioCodec + ?Sized>(
    q: Request,
    m: nat,
    strict: bool,
    codec: &C,
)
    requires
        strict ==> phrases_are_normal(q),
        m <= q.words.len(),
    ensures
        planned_tiled(q.words, lengths_tried(q, m, codec), strict),
    decreases m,
{
    if m > 0 {
        lemma_lengths_tiled(q, (m - 1) as nat, strict, codec);
        if let Ok(s) = lengths_tried(q, (m - 1) as nat, codec) {
            lemma_starts_tiled(q, s, (q.words.len() - m + 1) as nat, m, strict, codec);
        }
    } else {
        assert forall|i: int, e: int| #[trigger]
            ends_at(open_slots(q.words.len()), i, e) implies open_slots(
            q.words.len(),
        )[i] is Open by {}
    }
}

proof fn lemma_words_tiled<C: AudioCodec + ?Sized>(
    q: Request,
    slots: Seq<SlotView>,
    m: nat,
    strict: bool,
    codec: &C,
)
    requires
        is_tiled(q.words, slots, strict),
        m <= slots.len(),
    ensures
        planned_tiled(q.words, words_tried(q, slots, m, codec), strict),
    decreases m,
{
    if m > 0 {
        lemma_words_tiled(q, slots, (m - 1) as nat, strict, codec);
        let before = words_tried(q, slots, (m - 1) as nat, codec);
        let after = words_tried(q, slots, m, codec);
        if let (Ok(s), Ok(t)) = (before, after) {
            let i = (m - 1) as nat;
            if s[i as int] is Open && t != s {
                let part = t[i as int]->Part_0;
                assert(q.words.subrange(i as int, i as int + 1) =~= seq![q.words[i as int]]);
                assert(part.text == q.words[i as int]);
                lemma_claimed_tiled(q.words, s, i, 1, part, strict);
                assert(t =~= claimed(s, i, 1, part));
            }
        }
    }
}

/// Answering the first `k` misses leaves the others open, and the rest as it
/// was.
proof fn lemma_filled(
    words: Seq<Seq<char>>,
    slots: Seq<SlotView>,
    replies: Seq<WavView>,
    k: nat,
    strict: bool,
)
    requires
        is_tiled(words, slots, strict),
        k <= open_runs(slots, 0).len(),
    ensures
        is_tiled(words, filled(words, slots, replies, k), strict),
        forall|i: int|
            0 <= i < slots.len() ==> (#[trigger] filled(words, slots, replies, k)[i] is Open <==> (
            slots[i] is Open && !in_a_run(open_runs(slots, 0).take(k as int), i))),
    decreases k,
{
    let runs = open_runs(slots, 0);
    let after = filled(words, slots, replies, k);
    runs_are_the_misses(slots, 0);
    if k > 0 {
        lemma_filled(words, slots, replies, (k - 1) as nat, strict);
        let before = filled(words, slots, replies, (k - 1) as nat);
        let run = runs[k - 1];
        let part = PartView {
            audio: replies[k - 1],
            text: span_text(words, run),
            level: UnitLevel::Word,
        };
        let done = runs.take(k - 1);
        let more = runs.take(k as int);
        assert forall|i: int| run.0 <= i < run.1 implies #[trigger] before[i] is Open by {
            assert(in_a_run(runs, i)) by {
                assert(runs[k - 1].0 <= i < runs[k - 1].1);
            }
            assert(slots[i] is Open);
            if in_a_run(done, i) {
                let j = choose|j: int|
                    0 <= j < done.len() && (#[trigger] done[j]).0 <= i < done[j].1;
                assert(done[j] == runs[j]);
                assert(runs[j].1 < runs[k - 1].0);
            }
        }
        lemma_claimed_tiled(words, before, run.0, (run.1 - run.0) as nat, part, strict);
        assert forall|i: int| 0 <= i < slots.len() implies (#[trigger] after[i] is Open <==> (
        slots[i] is Open && !in_a_run(more, i))) by {
            if run.0 <= i < run.1 {
                assert(more[k - 1] == run);
            } else {
                assert(after[i] == before[i]);
                if in_a_run(more, i) {
                    let j = choose|j: int|
                        0 <= j < more.len() && (#[trigger] more[j]).0 <= i < more[j].1;
                    assert(done[j] == more[j]);
                }
                if in_a_run(done, i) {
                    let j = choose|j: int|
                        0 <= j < done.len() && (#[trigger] done[j]).0 <= i < done[j].1;
                    assert(done[j] == more[j]);
                }
            }
        }
    } else {
        assert forall|i: int| 0 <= i < slots.len() implies (#[trigger] after[i] is Open <==> (
        slots[i] is Open && !in_a_run(runs.take(0), i))) by {}
    }
}

/// The texts of fragments as they are said.
spec fn part_texts(parts: Seq<PartView>) -> Seq<Seq<char>> {
    Seq::new(parts.len(), |i: int| said(parts[i].text, parts[i].level))
}

/// Where no word is open, the fragments up to a word that none of them covers
/// say all the words before it.
proof fn lemma_parts_say(words: Seq<Seq<char>>, slots: Seq<SlotView>, n: nat, strict: bool)
    requires
        is_tiled(words, slots, strict),
        forall|i: int| 0 <= i < slots.len() ==> !(#[trigger] slots[i] is Open),
        n <= slots.len(),
        n < slots.len() ==> !(slots[n as int] is Covered),
    ensures
        spoken(part_texts(parts_of(slots, n))) == spoken(words.take(n as int)),
        strict ==> hits_are_normal(part_hits(parts_of(slots, n))),
        n > 0 ==> parts_of(slots, n).len() > 0,
    decreases n,
{
    if n > 0 {
        let start = lemma_fragment_start(words, slots, n, strict);
        lemma_parts_say(words, slots, start, strict);
        lemma_parts_between(slots, start, n);
        let part = slots[start as int]->Part_0;
        let front = parts_of(slots, start);
        assert(ends_at(slots, start as int, n as int));
        let text = said(part.text, part.level);
        assert(part_texts(parts_of(slots, n)) =~= part_texts(front) + seq![text]);
        let hits = part_hits(parts_of(slots, n));
        if strict {
            assert forall|i: int|
                0 <= i < hits.len() && (#[trigger] hits[i]).1 == UnitLevel::Phrase implies normalized(
                hits[i].0,
            ) == hits[i].0 by {
                if i < front.len() {
                    assert(hits[i] == part_hits(front)[i]);
                } else {
                    assert(slots[start as int] is Part);
                }
            }
        }
        let span = words.subrange(start as int, n as int);
        assert(words.take(n as int) =~= words.take(start as int) + span);
        if start > 0 {
            lemma_spoken_append(part_texts(front), seq![text]);
            lemma_spoken_append(words.take(start as int), span);
        } else {
            assert(part_texts(front) + seq![text] =~= seq![text]);
            assert(words.take(0) + span =~= span);
        }
    } else {
        assert(part_texts(parts_of(slots, 0)) =~= words.take(0));
    }
}

/// Where the fragment in front of word `n` starts.
proof fn lemma_fragment_start(
    words: Seq<Seq<char>>,
    slots: Seq<SlotView>,
    n: nat,
    strict: bool,
) -> (start: nat)
    requires
        is_tiled(words, slots, strict),
        forall|i: int| 0 <= i < slots.len() ==> !(#[trigger] slots[i] is Open),
        0 < n <= slots.len(),
    ensures
        start < n,
        slots[start as int] is Part,
        forall|k: int| start < k < n ==> #[trigger] slots[k] is Covered,
    decreases n,
{
    assert(!(slots[n - 1] is Open));
    if slots[n - 1] is Part {
        (n - 1) as nat
    } else {
        assert(slots[n - 1] is Covered);
        lemma_fragment_start(words, slots, (n - 1) as nat, strict)
    }
}

/// Covered words add no fragment.
proof fn lemma_parts_between(slots: Seq<SlotView>, start: nat, n: nat)
    requires
        start < n <= slots.len(),
        slots[start as int] is Part,
        forall|k: int| start < k < n ==> #[trigger] slots[k] is Covered,
    ensures
        parts_of(slots, n) == parts_of(slots, start).push(slots[start as int]->Part_0),
    decreases n,
{
    if n > start + 1 {
        assert(slots[n - 1] is Covered);
        lemma_parts_between(slots, start, (n - 1) as nat);
    }
}

/// The texts of the fragments that a report names.
pub open spec fn hit_texts(hits: Seq<(Seq<char>, UnitLevel)>) -> Seq<Seq<char>> {
    Seq::new(hits.len(), |i: int| hits[i].0)
}

/// Whether every phrase of a store is kept under a text in normal form.
pub open spec fn normal_phrases(nodes: Seq<NodeView>) -> bool {
    forall|i: int| 0 <= i < nodes.len() ==> normal_phrase(#[trigger] nodes[i])
}

/// Whether a node, where it is a phrase, is kept under a text in normal form.
pub open spec fn normal_phrase(node: NodeView) -> bool {
    match node {
        NodeView::Unit(u) => u.level == UnitLevel::Phrase ==> normalized(u.text) == u.text,
        _ => true,
    }
}

proof fn lemma_some_unit_matches(nodes: Seq<NodeView>, level: UnitLevel, text: Seq<char>)
    requires
        matching(nodes, level, text).len() > 0,
    ensures
        exists|i: int| 0 <= i < nodes.len() && #[trigger] matches_key(nodes, i, level, text),
    decreases nodes.len(),
{
    if !matches_key(nodes, nodes.len() - 1, level, text) {
        let init = nodes.drop_last();
        lemma_some_unit_matches(init, level, text);
        let i = choose|i: int| 0 <= i < init.len() && #[trigger] matches_key(init, i, level, text);
        assert(matches_key(nodes, i, level, text));
    }
}

proof fn lemma_phrases_normal(q: Request)
    requires
        normal_phrases(q.nodes),
    ensures
        phrases_are_normal(q),
{
    let index = indexed(q.nodes);
    let ph = phrases(q);
    index_entries_are_complete(q.nodes);
    assert forall|k: int| 0 <= k < ph.len() implies normalized((#[trigger] ph[k]).0) == ph[k].0 by {
        lemma_entries_at(index, UnitLevel::Phrase, k);
        let j = choose|j: int|
            0 <= j < index.len() && ph[k] == (index[j].text, index[j].ids) && index[j].level
                == UnitLevel::Phrase;
        lemma_some_unit_matches(q.nodes, UnitLevel::Phrase, ph[k].0);
        let i = choose|i: int|
            0 <= i < q.nodes.len() && #[trigger] matches_key(
                q.nodes,
                i,
                UnitLevel::Phrase,
                ph[k].0,
            );
        assert(normal_phrase(q.nodes[i]));
    }
}

/// Phrases stay under their normal form: a store starts without any, and
/// ingesting keeps each under one as long as normalizing it again changes
/// nothing.
pub proof fn phrases_stay_normal<C: AudioCodec + ?Sized>(
    s: StoreView,
    text: Seq<char>,
    u: Utterance,
    codec: &C,
)
    requires
        normal_phrases(s.nodes),
        normalized(normalized(text)) == normalized(text),
    ensures
        normal_phrases(Seq::empty()),
        normal_phrases(ingested(s, text, u, codec).nodes),
{
    let norm = normalized(text);
    let first = with_unit(s, record(u, UnitLevel::Phrase, norm, norm, u.audio, None, None, codec));
    let middle = segmented(first, u, codec);
    let t = ingested(s, text, u, codec);
    segmenting_adds_words_and_sounds(first, u, codec);
    assert forall|i: int| 0 <= i < t.nodes.len() implies normal_phrase(#[trigger] t.nodes[i]) by {
        if i < s.nodes.len() {
            assert(middle.nodes.take(first.nodes.len() as int)[i] == first.nodes[i]);
            assert(t.nodes[i] == s.nodes[i]);
            assert(normal_phrase(s.nodes[i]));
        } else if i < first.nodes.len() {
            assert(middle.nodes.take(first.nodes.len() as int)[i] == first.nodes[i]);
        } else if i < middle.nodes.len() {
            assert(t.nodes[i] == middle.nodes[i]);
        }
    }
}

/// Composing leaves phrases under their normal form, for it adds none.
pub proof fn composing_keeps_phrases_normal<T: TtsProvider + ?Sized, C: AudioCodec + ?Sized>(
    before: StoreView,
    after: StoreView,
    r: core::result::Result<(WavView, ReportView), ErrorView>,
    tts: &T,
    text: Seq<char>,
    voice: Seq<char>,
    dict: Dict,
    medium: Medium,
    codec: &C,
    t: Gains,
)
    requires
        composed(before, after, r, tts, text, voice, dict, codec, t) || selected(
            before,
            after,
            r,
            tts,
            text,
            voice,
            dict,
            medium,
            codec,
            t,
        ),
        normal_phrases(before.nodes),
    ensures
        normal_phrases(after.nodes),
{
    composing_keeps_the_cache(before, after, r, tts, text, voice, dict, medium, codec, t);
    assert forall|i: int| 0 <= i < after.nodes.len() implies normal_phrase(
        #[trigger] after.nodes[i],
    ) by {
        if i < before.nodes.len() {
            assert(after.nodes.take(before.nodes.len() as int)[i] == before.nodes[i]);
            assert(normal_phrase(before.nodes[i]));
        }
    }
}

/// The fragments that a report names, as they are said.
pub open spec fn hits_said(hits: Seq<(Seq<char>, UnitLevel)>) -> Seq<Seq<char>> {
    Seq::new(hits.len(), |i: int| said(hits[i].0, hits[i].1))
}

/// Whether the phrases among fragments are named by their normal form.
pub open spec fn hits_are_normal(hits: Seq<(Seq<char>, UnitLevel)>) -> bool {
    forall|i: int|
        0 <= i < hits.len() && (#[trigger] hits[i]).1 == UnitLevel::Phrase ==> normalized(
            hits[i].0,
        ) == hits[i].0
}

/// A composed request says what was asked for: its fragments, one behind the
/// other, say the text in normal form. Where the phrases among them are kept
/// under their normal form, as ingesting keeps them, the texts that the report
/// names are that form.
pub proof fn composed_hits_say_the_text<T: TtsProvider + ?Sized, C: AudioCodec + ?Sized>(
    before: StoreView,
    after: StoreView,
    r: core::result::Result<(WavView, ReportView), ErrorView>,
    tts: &T,
    text: Seq<char>,
    voice: Seq<char>,
    dict: Dict,
    codec: &C,
    t: Gains,
)
    requires
        composed(before, after, r, tts, text, voice, dict, codec, t),
        r is Ok,
    ensures
        spoken(hits_said(r->Ok_0.1.hits)) == normalized(text),
        hits_are_normal(r->Ok_0.1.hits) ==> spoken(hit_texts(r->Ok_0.1.hits)) == normalized(text),
        normal_phrases(before.nodes) ==> hits_are_normal(r->Ok_0.1.hits),
{
    let words = tokens(text);
    let q = Request { nodes: before.nodes, words };
    let slots = plan(q, codec)->Ok_0;
    let runs = open_runs(slots, 0);
    let replies = choose|replies: Seq<Reply>| #[trigger]
        answered(tts, words, runs, voice, replies) && (if all_spoken(runs, replies) {
            r == finished(words, slots, spoken_audio(replies), t)
        } else {
            r == Err::<(WavView, ReportView), ErrorView>(replies.last()->Err_0)
        });
    let full = filled(words, slots, spoken_audio(replies), runs.len());
    let strict = normal_phrases(before.nodes);
    if strict {
        lemma_phrases_normal(q);
    }
    lemma_lengths_tiled(q, words.len(), strict, codec);
    lemma_words_tiled(q, lengths_tried(q, words.len(), codec)->Ok_0, words.len(), strict, codec);
    lemma_filled(words, slots, spoken_audio(replies), runs.len(), strict);
    runs_are_the_misses(slots, 0);
    assert(runs.take(runs.len() as int) =~= runs);
    assert forall|i: int| 0 <= i < full.len() implies !(#[trigger] full[i] is Open) by {
        assert(slots[i] is Open ==> in_a_run(runs, i));
    }
    lemma_parts_say(words, full, words.len(), strict);
    let parts = parts_of(full, words.len());
    let hits = part_hits(parts);
    assert(hits_said(hits) =~= part_texts(parts));
    if hits_are_normal(hits) {
        assert forall|i: int| 0 <= i < hits.len() implies hit_texts(hits)[i] == hits_said(
            hits,
        )[i] by {
            assert(hits[i].1 == UnitLevel::Phrase ==> normalized(hits[i].0) == hits[i].0);
        }
        assert(hit_texts(hits) =~= hits_said(hits));
    }
    assert(words.take(words.len() as int) =~= words);
    tokens_spell_the_normal_form(text);
}

/// A provider is asked for every miss, once, in order, and in the voice of the
/// request: what it was asked for is what the report names, and each of these
/// is a run of words that the cache has nothing for, as long as it can be.
pub proof fn misses_are_asked_for_once<T: TtsProvider + ?Sized, C: AudioCodec + ?Sized>(
    before: StoreView,
    after: StoreView,
    r: core::result::Result<(WavView, ReportView), ErrorView>,
    tts: &T,
    text: Seq<char>,
    voice: Seq<char>,
    dict: Dict,
    codec: &C,
    t: Gains,
)
    requires
        composed(before, after, r, tts, text, voice, dict, codec, t),
        r is Ok,
    ensures
        ({
            let words = tokens(text);
            let slots = plan(Request { nodes: before.nodes, words }, codec)->Ok_0;
            let runs = open_runs(slots, 0);
            let calls = r->Ok_0.1.tts_calls;
            &&& calls == span_texts(words, runs)
            &&& exists|replies: Seq<WavView>|
                #![trigger replies.len()]
                {
                    &&& replies.len() == calls.len()
                    &&& forall|k: int|
                        0 <= k < calls.len() ==> tts.may_reply(
                            #[trigger] calls[k],
                            voice,
                            Ok(replies[k]),
                        )
                }
            &&& forall|i: int|
                0 <= i < slots.len() ==> (#[trigger] slots[i] is Open <==> in_a_run(runs, i))
            &&& forall|j: int, k: int|
                0 <= j < k < runs.len() ==> (#[trigger] runs[j]).1 < (#[trigger] runs[k]).0
        }),
{
    let words = tokens(text);
    let slots = plan(Request { nodes: before.nodes, words }, codec)->Ok_0;
    let runs = open_runs(slots, 0);
    let replies = choose|replies: Seq<Reply>| #[trigger]
        answered(tts, words, runs, voice, replies) && (if all_spoken(runs, replies) {
            r == finished(words, slots, spoken_audio(replies), t)
        } else {
            r == Err::<(WavView, ReportView), ErrorView>(replies.last()->Err_0)
        });
    runs_are_the_misses(slots, 0);
    let calls = r->Ok_0.1.tts_calls;
    let audio = spoken_audio(replies);
    assert(audio.len() == calls.len());
    assert forall|k: int| 0 <= k < calls.len() implies tts.may_reply(
        #[trigger] calls[k],
        voice,
        Ok(audio[k]),
    ) by {
        assert(tts.may_reply(span_text(words, runs[k]), voice, replies[k]));
        assert(replies[k] is Ok);
    }
}

/// A selection asks a provider for every span that it generates, once, in order,
/// and in the voice of the request: what it was asked for is what the report
/// names, and between two spans at least one word comes from the cache.
#[verifier::rlimit(60)]
#[verifier::spinoff_prover]
pub proof fn generated_spans_are_asked_for_once<T: TtsProvider + ?Sized, C: AudioCodec + ?Sized>(
    before: StoreView,
    after: StoreView,
    r: core::result::Result<(WavView, ReportView), ErrorView>,
    tts: &T,
    text: Seq<char>,
    voice: Seq<char>,
    dict: Dict,
    medium: Medium,
    codec: &C,
    t: Gains,
)
    requires
        selected(before, after, r, tts, text, voice, dict, medium, codec, t),
        r is Ok,
    ensures
        ({
            let words = tokens(text);
            let x = Search { q: Request { nodes: before.nodes, words }, dict, medium, t };
            let spans = synth_spans(selection(x, built(x, codec)->Ok_0), 0);
            let calls = r->Ok_0.1.tts_calls;
            &&& calls == span_texts(words, spans)
            &&& exists|replies: Seq<WavView>|
                #![trigger replies.len()]
                {
                    &&& replies.len() == calls.len()
                    &&& forall|k: int|
                        0 <= k < calls.len() ==> tts.may_reply(
                            #[trigger] calls[k],
                            voice,
                            Ok(replies[k]),
                        )
                }
            &&& forall|j: int, k: int|
                0 <= j < k < spans.len() ==> (#[trigger] spans[j]).1 < (#[trigger] spans[k]).0
        }),
{
    let words = tokens(text);
    let x = Search { q: Request { nodes: before.nodes, words }, dict, medium, t };
    let v = built(x, codec)->Ok_0;
    let p = selection(x, v);
    let spans = synth_spans(p, 0);
    let replies = choose|replies: Seq<Reply>| #[trigger]
        answered(tts, words, spans, voice, replies) && (if all_spoken(spans, replies) {
            r == realized(words, p, spoken_audio(replies), medium, codec, t)
        } else {
            r == Err::<(WavView, ReportView), ErrorView>(replies.last()->Err_0)
        });
    tokens_are_not_empty(text);
    assert(forall|j: int, k: int|
        0 <= j < k < spans.len() ==> (#[trigger] spans[j]).1 < (#[trigger] spans[k]).0) by {
        built_edges_are_usable(x, codec);
        selection_is_contiguous(x, v);
        generated_spans_are_coalesced(x, p, 0);
    }
    let calls = r->Ok_0.1.tts_calls;
    let audio = spoken_audio(replies);
    assert(audio.len() == calls.len());
    assert forall|k: int| 0 <= k < calls.len() implies tts.may_reply(
        #[trigger] calls[k],
        voice,
        Ok(audio[k]),
    ) by {
        assert(tts.may_reply(span_text(words, spans[k]), voice, replies[k]));
        assert(replies[k] is Ok);
    }
}

} // verus!
