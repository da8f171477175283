//! What was recorded is what is played back.

use crate::audio::{splicing_one_part_is_lossless, WavView};
use crate::codec::AudioCodec;
use crate::compose::{
    all_open, claimed, composed, lemma_entries_at, lengths_tried, open_runs, open_slots, part_audio,
    part_hits, parts_of, phrase_at, phrase_tried, phrases, plan, starts_tried, words_tried,
    PartView, Request, SlotView,
};
use crate::double::{plus, ratio, ratios_are_positive, times, units_do_not_vanish, whole};
use crate::edges::{
    built, built_edges_are_usable, every_request_has_a_path, followed, lattice_of, occurrences,
    phrase_edge, phrase_edges, synth_target, usable, word_edges, Built, EdgeView, Medium, Search,
};
use crate::error::ErrorView;
use crate::fade::Gains;
use crate::lattice::{chosen, is_complete, path_cost, Lattice};
use crate::laws::{
    cached_requests_ask_nobody, cached_selections_ask_nobody, in_a_run,
    ingesting_adds_phrase_words_and_sounds, lemma_node_kept, runs_are_the_misses,
    segmenting_adds_words_and_sounds,
};
use crate::pipeline::{ingested, record, segmented, Utterance};
use crate::report::ReportView;
use crate::select::{
    is_synth, selected, selection, selection_is_cheapest, selection_is_contiguous, synth_spans,
};
use crate::speak::Dict;
use crate::store::{
    audio_at, entries_at, found_units_match, ids_in, index_entries_are_complete,
    index_finds_every_unit, indexed, lemma_spot, matches_key, matching, spot,
    stored_audio_reads_back, stored_tokens_are_decoded, unit_at, with_unit, EntryView, NodeId,
    NodeView, StoreView,
};
use crate::tts::TtsProvider;
use crate::units::{normalized, tokens, UnitLevel};
use crate::CROSSFADE_MS;
use vstd::prelude::*;

verus! {

/// Whether every slot is taken.
spec fn taken(slots: Seq<SlotView>) -> bool {
    forall|i: int| 0 <= i < slots.len() ==> !(#[trigger] slots[i] is Open)
}

proof fn lemma_taken_stays<C: AudioCodec + ?Sized>(
    q: Request,
    slots: Seq<SlotView>,
    len: nat,
    m: nat,
    codec: &C,
)
    requires
        taken(slots),
        len > 0,
        m + len <= slots.len() + 1,
    ensures
        starts_tried(q, slots, len, m, codec) == Ok::<Seq<SlotView>, ErrorView>(slots),
    decreases m,
{
    if m > 0 {
        lemma_taken_stays(q, slots, len, (m - 1) as nat, codec);
        assert(!(slots[m - 1] is Open));
        assert(!all_open(slots, (m - 1) as nat, len));
    }
}

/// Once a phrase covers a whole request, nothing shorter is put in its place.
proof fn lemma_whole_phrase_stays<C: AudioCodec + ?Sized>(
    q: Request,
    slots: Seq<SlotView>,
    m: nat,
    codec: &C,
)
    requires
        0 < m <= q.words.len(),
        slots.len() == q.words.len(),
        taken(slots),
        lengths_tried(q, 1, codec) == Ok::<Seq<SlotView>, ErrorView>(slots),
    ensures
        lengths_tried(q, m, codec) == Ok::<Seq<SlotView>, ErrorView>(slots),
    decreases m,
{
    if m > 1 {
        lemma_whole_phrase_stays(q, slots, (m - 1) as nat, codec);
        lemma_taken_stays(q, slots, (q.words.len() - m + 1) as nat, m, codec);
    }
}

proof fn lemma_words_stay<C: AudioCodec + ?Sized>(
    q: Request,
    slots: Seq<SlotView>,
    m: nat,
    codec: &C,
)
    requires
        m <= slots.len(),
        taken(slots),
    ensures
        words_tried(q, slots, m, codec) == Ok::<Seq<SlotView>, ErrorView>(slots),
    decreases m,
{
    if m > 0 {
        lemma_words_stay(q, slots, (m - 1) as nat, codec);
        assert(!(slots[m - 1] is Open));
    }
}

proof fn lemma_one_part(n: nat, part: PartView, m: nat)
    requires
        m <= n,
    ensures
        parts_of(claimed(open_slots(n), 0, n, part), m) == if m == 0 {
            Seq::empty()
        } else {
            seq![part]
        },
    decreases m,
{
    let slots = claimed(open_slots(n), 0, n, part);
    if m > 0 {
        lemma_one_part(n, part, (m - 1) as nat);
        if m == 1 {
            assert(slots[0] == SlotView::Part(part));
            assert(parts_of(slots, 1) =~= seq![part]);
        } else {
            assert(slots[m - 1] is Covered);
        }
    }
}

/// A request with the words of a cached phrase is answered with the recording of
/// the phrase and nothing else: no provider is asked, and the cache stays as it
/// is.
pub proof fn cached_phrases_play_back<T: TtsProvider + ?Sized, C: AudioCodec + ?Sized>(
    before: StoreView,
    after: StoreView,
    r: core::result::Result<(WavView, ReportView), ErrorView>,
    tts: &T,
    text: Seq<char>,
    voice: Seq<char>,
    dict: Dict,
    audio: WavView,
    codec: &C,
    t: Gains,
)
    requires
        composed(before, after, r, tts, text, voice, dict, codec, t),
        tokens(text).len() > 0,
        ({
            let ph = phrases(Request { nodes: before.nodes, words: tokens(text) });
            let k = phrase_at(ph, tokens(text)) as int;
            k < ph.len() && audio_at(before.nodes, ph[k].1[0], codec) == Ok::<WavView, ErrorView>(
                audio,
            )
        }),
    ensures
        ({
            let ph = phrases(Request { nodes: before.nodes, words: tokens(text) });
            let phrase = ph[phrase_at(ph, tokens(text)) as int].0;
            &&& after == before
            &&& r is Ok
            &&& r->Ok_0.0 == audio
            &&& r->Ok_0.1.hits == seq![(phrase, UnitLevel::Phrase)]
            &&& r->Ok_0.1.tts_calls.len() == 0
            &&& r->Ok_0.1.generated_chars == 0
            &&& r->Ok_0.1.cached_chars == r->Ok_0.1.total_chars
        }),
{
    let words = tokens(text);
    let n = words.len();
    let q = Request { nodes: before.nodes, words };
    let ph = phrases(q);
    let k = phrase_at(ph, words) as int;
    let part = PartView { audio, text: ph[k].0, level: UnitLevel::Phrase };
    let slots = claimed(open_slots(n), 0, n, part);
    assert(words.subrange(0, n as int) =~= words);
    assert(all_open(open_slots(n), 0, n));
    assert(lengths_tried(q, 0, codec) == Ok::<Seq<SlotView>, ErrorView>(open_slots(n)));
    assert(starts_tried(q, open_slots(n), n, 0, codec) == Ok::<Seq<SlotView>, ErrorView>(
        open_slots(n),
    ));
    assert(starts_tried(q, open_slots(n), n, 1, codec) == phrase_tried(
        q,
        open_slots(n),
        n,
        0,
        codec,
    ));
    assert(lengths_tried(q, 1, codec) == Ok::<Seq<SlotView>, ErrorView>(slots));
    assert(taken(slots));
    lemma_whole_phrase_stays(q, slots, n, codec);
    lemma_words_stay(q, slots, n, codec);
    assert(plan(q, codec) == Ok::<Seq<SlotView>, ErrorView>(slots));
    let runs = open_runs(slots, 0);
    runs_are_the_misses(slots, 0);
    if runs.len() > 0 {
        assert(runs[0].0 < runs[0].1);
        assert(in_a_run(runs, runs[0].0 as int));
        assert(slots[runs[0].0 as int] is Open);
    }
    lemma_one_part(n, part, n);
    let parts = parts_of(slots, n);
    assert(part_audio(parts) =~= seq![audio]);
    assert(part_hits(parts) =~= seq![(ph[k].0, UnitLevel::Phrase)]);
    splicing_one_part_is_lossless(audio, CROSSFADE_MS, t);
    cached_requests_ask_nobody(before, after, r, tts, text, voice, dict, slots, codec, t);
}

// ---- from ingesting to composing ----

proof fn lemma_phrase_found(ph: Seq<(Seq<char>, Seq<NodeId>)>, span: Seq<Seq<char>>)
    ensures
        ({
            let k = phrase_at(ph, span) as int;
            &&& k <= ph.len()
            &&& k < ph.len() ==> tokens(ph[k].0) == span
            &&& forall|i: int| 0 <= i < k ==> tokens((#[trigger] ph[i]).0) != span
        }),
    decreases ph.len(),
{
    if ph.len() > 0 && tokens(ph[0].0) != span {
        let rest = ph.skip(1);
        lemma_phrase_found(rest, span);
        let k = phrase_at(ph, span) as int;
        assert forall|i: int| 0 <= i < k implies tokens((#[trigger] ph[i]).0) != span by {
            if i > 0 {
                assert(ph[i] == rest[i - 1]);
            }
        }
        if k < ph.len() {
            assert(ph[k] == rest[k - 1]);
        }
    }
}

/// The entries of a level are all listed.
proof fn lemma_entry_listed(index: Seq<EntryView>, level: UnitLevel, j: int) -> (k: int)
    requires
        0 <= j < index.len(),
        index[j].level == level,
    ensures
        0 <= k < entries_at(index, level).len(),
        entries_at(index, level)[k] == (index[j].text, index[j].ids),
    decreases index.len(),
{
    let init = index.drop_last();
    let before = entries_at(init, level);
    if j == index.len() - 1 {
        before.len() as int
    } else {
        assert(init[j] == index[j]);
        let k = lemma_entry_listed(init, level, j);
        assert(entries_at(index, level)[k] == before[k]);
        k
    }
}

/// Whether no cached phrase has the given words.
pub open spec fn no_phrase_says(nodes: Seq<NodeView>, words: Seq<Seq<char>>) -> bool {
    forall|i: int|
        0 <= i < nodes.len() ==> !(#[trigger] nodes[i] matches NodeView::Unit(x) && x.level
            == UnitLevel::Phrase && tokens(x.text) == words)
}

/// What a recording reads back as: itself where it is kept as a wav, and what its
/// tokens decode to otherwise.
pub open spec fn read_back<C: AudioCodec + ?Sized>(u: Utterance, codec: &C) -> Option<
    core::result::Result<WavView, ErrorView>,
> {
    if u.opts.write_wav {
        Some(Ok(u.audio))
    } else if u.opts.codec_tokens {
        Some(codec.decoded(codec.encoded(u.audio)))
    } else {
        None
    }
}

/// A text that is ingested and then composed is played back as it was recorded,
/// unless a phrase with the same words was cached before. A recording kept as a
/// wav plays back sample for sample, as long as the file can declare its size.
pub proof fn ingested_texts_play_back<T: TtsProvider + ?Sized, C: AudioCodec + ?Sized>(
    s: StoreView,
    text: Seq<char>,
    u: Utterance,
    after: StoreView,
    r: core::result::Result<(WavView, ReportView), ErrorView>,
    tts: &T,
    voice: Seq<char>,
    dict: Dict,
    audio: WavView,
    codec: &C,
    t: Gains,
)
    requires
        composed(ingested(s, text, u, codec), after, r, tts, text, voice, dict, codec, t),
        ingested(s, text, u, codec).nodes.len() <= u64::MAX,
        tokens(text).len() > 0,
        tokens(normalized(text)) == tokens(text),
        no_phrase_says(s.nodes, tokens(text)),
        read_back(u, codec) == Some(Ok::<WavView, ErrorView>(audio)),
        2 * u.audio.samples.len() <= u32::MAX,
    ensures
        after == ingested(s, text, u, codec),
        r is Ok,
        r->Ok_0.0 == audio,
        r->Ok_0.1.hits == seq![(normalized(text), UnitLevel::Phrase)],
        r->Ok_0.1.tts_calls.len() == 0,
        r->Ok_0.1.generated_chars == 0,
        r->Ok_0.1.cached_chars == r->Ok_0.1.total_chars,
{
    let words = tokens(text);
    let norm = normalized(text);
    let c = ingested(s, text, u, codec);
    let at = s.nodes.len();
    let rec = record(u, UnitLevel::Phrase, norm, norm, u.audio, None, None, codec);
    let p = with_unit(s, rec);
    let m = segmented(p, u, codec);
    segmenting_adds_words_and_sounds(p, u, codec);
    ingesting_adds_phrase_words_and_sounds(s, text, u, codec);
    lemma_node_kept(p, m, at as int);
    assert(c.nodes[at as int] == p.nodes[at as int]);
    if u.opts.write_wav {
        stored_audio_reads_back(s, rec, codec);
    } else {
        stored_tokens_are_decoded(s, rec, codec.encoded(u.audio), codec);
    }
    let id = NodeId(at as u64);
    assert(unit_at(c.nodes, id) == unit_at(p.nodes, id));
    assert(audio_at(c.nodes, id, codec) == Ok::<WavView, ErrorView>(audio));

    // a phrase with these words can only be the one just stored
    assert forall|i: int, x: Seq<char>|
        0 <= i < c.nodes.len() && #[trigger] matches_key(c.nodes, i, UnitLevel::Phrase, x)
            && tokens(x) == words implies i == at by {
        if i < at {
            lemma_node_kept(s, c, i);
            assert(!(s.nodes[i] matches NodeView::Unit(y) && y.level == UnitLevel::Phrase && tokens(
                y.text,
            ) == words));
        } else if i > at {
            if i < m.nodes.len() {
                assert(c.nodes[i] == m.nodes[i]);
            }
        }
    }
    let q = Request { nodes: c.nodes, words };
    let index = indexed(c.nodes);
    let ph = phrases(q);
    index_finds_every_unit(c.nodes, UnitLevel::Phrase, norm);
    index_entries_are_complete(c.nodes);
    lemma_spot(index, UnitLevel::Phrase, norm);
    let j = spot(index, UnitLevel::Phrase, norm) as int;
    assert(ids_in(index, UnitLevel::Phrase, norm).contains(id));
    let listed = lemma_entry_listed(index, UnitLevel::Phrase, j);
    assert(tokens(ph[listed].0) == words);
    lemma_phrase_found(ph, words);
    let k = phrase_at(ph, words) as int;
    lemma_entries_at(index, UnitLevel::Phrase, k);
    let e = choose|e: int|
        0 <= e < index.len() && ph[k] == ((#[trigger] index[e]).text, index[e].ids)
            && index[e].level == UnitLevel::Phrase;
    found_units_match(c.nodes, UnitLevel::Phrase, ph[k].0);
    assert(ph[k].1 == matching(c.nodes, UnitLevel::Phrase, ph[k].0));
    assert(matches_key(c.nodes, ph[k].1[0].0 as int, UnitLevel::Phrase, ph[k].0));
    assert(ph[k].1[0] == id);
    assert(ph[k].0 == norm);
    cached_phrases_play_back(c, after, r, tts, text, voice, dict, audio, codec, t);
}

// ---- selecting ----

proof fn lemma_in_first(a: Built, b: Built, e: EdgeView)
    requires
        followed(a, b) is Ok,
        a->Ok_0.contains(e),
    ensures
        followed(a, b)->Ok_0.contains(e),
{
    let i = choose|i: int| 0 <= i < a->Ok_0.len() && a->Ok_0[i] == e;
    assert(followed(a, b)->Ok_0[i] == e);
}

proof fn lemma_in_second(a: Built, b: Built, e: EdgeView)
    requires
        followed(a, b) is Ok,
        b->Ok_0.contains(e),
    ensures
        followed(a, b)->Ok_0.contains(e),
{
    let i = choose|i: int| 0 <= i < b->Ok_0.len() && b->Ok_0[i] == e;
    assert(followed(a, b)->Ok_0[a->Ok_0.len() + i] == e);
}

proof fn lemma_occurrence_listed<C: AudioCodec + ?Sized>(x: Search, k: int, m: nat, codec: &C)
    requires
        0 < m,
        occurrences(x, k, m, codec) is Ok,
        phrase_edge(x, k, 0, codec) is Ok,
        phrase_edge(x, k, 0, codec)->Ok_0.len() == 1,
    ensures
        occurrences(x, k, m, codec)->Ok_0.contains(phrase_edge(x, k, 0, codec)->Ok_0[0]),
    decreases m,
{
    let e = phrase_edge(x, k, 0, codec)->Ok_0[0];
    let before = occurrences(x, k, (m - 1) as nat, codec);
    let here = phrase_edge(x, k, (m - 1) as nat, codec);
    if m == 1 {
        assert(here->Ok_0[0] == e);
        lemma_in_second(before, here, e);
    } else {
        lemma_occurrence_listed(x, k, (m - 1) as nat, codec);
        lemma_in_first(before, here, e);
    }
}

proof fn lemma_phrase_listed<C: AudioCodec + ?Sized>(x: Search, k: int, m: nat, codec: &C)
    requires
        0 <= k < m,
        x.q.words.len() > 0,
        phrase_edges(x, m, codec) is Ok,
        phrase_edge(x, k, 0, codec) is Ok,
        phrase_edge(x, k, 0, codec)->Ok_0.len() == 1,
    ensures
        phrase_edges(x, m, codec)->Ok_0.contains(phrase_edge(x, k, 0, codec)->Ok_0[0]),
    decreases m,
{
    let e = phrase_edge(x, k, 0, codec)->Ok_0[0];
    let before = phrase_edges(x, (m - 1) as nat, codec);
    let here = occurrences(x, m - 1, x.q.words.len(), codec);
    if k == m - 1 {
        lemma_occurrence_listed(x, k, x.q.words.len(), codec);
        lemma_in_second(before, here, e);
    } else {
        lemma_phrase_listed(x, k, (m - 1) as nat, codec);
        lemma_in_first(before, here, e);
    }
}

/// The first phrase edge of a request is built only where its audio is read.
proof fn lemma_first_occurrence<C: AudioCodec + ?Sized>(x: Search, k: int, m: nat, codec: &C)
    requires
        0 < m,
        occurrences(x, k, m, codec) is Ok,
    ensures
        phrase_edge(x, k, 0, codec) is Ok,
    decreases m,
{
    if m > 1 {
        lemma_first_occurrence(x, k, (m - 1) as nat, codec);
    }
}

proof fn lemma_phrase_built<C: AudioCodec + ?Sized>(x: Search, k: int, m: nat, codec: &C)
    requires
        0 <= k < m,
        x.q.words.len() > 0,
        phrase_edges(x, m, codec) is Ok,
    ensures
        phrase_edge(x, k, 0, codec) is Ok,
    decreases m,
{
    if k == m - 1 {
        lemma_first_occurrence(x, k, x.q.words.len(), codec);
    } else {
        lemma_phrase_built(x, k, (m - 1) as nat, codec);
    }
}

/// A path that costs nothing has arcs that cost nothing.
proof fn lemma_free_arcs(l: Lattice, p: Seq<int>, i: int)
    requires
        0 <= i < p.len(),
        path_cost(l, p) == 0,
    ensures
        l.arcs[p[i]].target == 0,
    decreases p.len(),
{
    if p.len() > 1 {
        let init = p.drop_last();
        let c = path_cost(l, init);
        let j = (l.join)(p[p.len() - 2], p.last());
        let t = l.arcs[p.last()].target;
        if plus(c, j) + t > 0 {
            units_do_not_vanish(plus(c, j) + t);
        }
        if c + j > 0 {
            units_do_not_vanish(c + j);
        }
        if i < p.len() - 1 {
            assert(init[i] == p[i]);
            lemma_free_arcs(l, init, i);
        }
    }
}

/// Generating is never free.
proof fn lemma_generating_costs(chars: nat)
    ensures
        synth_target(chars) > 0,
{
    ratios_are_positive(1, 10);
    units_do_not_vanish(ratio(1, 10) + times(ratio(2, 10), whole(chars)));
}

proof fn lemma_nothing_to_generate(p: Seq<EdgeView>, i: nat)
    requires
        forall|k: int| 0 <= k < p.len() ==> !is_synth(#[trigger] p[k]),
    ensures
        synth_spans(p, i).len() == 0,
    decreases p.len() - i,
{
    if i < p.len() {
        lemma_nothing_to_generate(p, i + 1);
    }
}

/// A request with the words of a cached phrase costs nothing to select from the
/// cache, so a selection generates none of it: no provider is asked, and the
/// cache stays as it is.
pub proof fn selections_do_not_generate_cached_phrases<
    T: TtsProvider + ?Sized,
    C: AudioCodec + ?Sized,
>(
    before: StoreView,
    after: StoreView,
    r: core::result::Result<(WavView, ReportView), ErrorView>,
    tts: &T,
    text: Seq<char>,
    voice: Seq<char>,
    dict: Dict,
    medium: Medium,
    codec: &C,
    t: Gains,
)
    requires
        selected(before, after, r, tts, text, voice, dict, medium, codec, t),
        tokens(text).len() > 0,
        ({
            let ph = phrases(Request { nodes: before.nodes, words: tokens(text) });
            phrase_at(ph, tokens(text)) < ph.len()
        }),
    ensures
        after == before,
        r is Ok ==> r->Ok_0.1.tts_calls.len() == 0,
{
    let words = tokens(text);
    let n = words.len();
    let x = Search { q: Request { nodes: before.nodes, words }, dict, medium, t };
    let ph = phrases(x.q);
    let k = phrase_at(ph, words) as int;
    lemma_phrase_found(ph, words);
    if let Ok(v) = built(x, codec) {
        lemma_phrase_built(x, k, ph.len(), codec);
        assert(words.subrange(0, n as int) =~= words);
        let e = phrase_edge(x, k, 0, codec)->Ok_0[0];
        lemma_phrase_listed(x, k, ph.len(), codec);
        lemma_in_first(phrase_edges(x, ph.len(), codec), word_edges(x, n, codec), e);
        let j = choose|j: int| 0 <= j < v.len() && v[j] == e;
        let l = lattice_of(x, v);
        built_edges_are_usable(x, codec);
        let other = seq![j];
        assert(is_complete(l, other)) by {
            assert(other[0] == j);
            assert(other.last() == j);
        }
        assert(path_cost(l, other) == 0);
        selection_is_cheapest(x, v, other);
        selection_is_contiguous(x, v);
        let path = chosen(l)->Some_0;
        let p = selection(x, v);
        assert forall|i: int| 0 <= i < p.len() implies !is_synth(#[trigger] p[i]) by {
            lemma_free_arcs(l, path, i);
            lemma_generating_costs(p[i].chars);
            assert(usable(x, p[i]));
            assert(p[i] == v[path[i]]);
            every_request_has_a_path(x, v);
            assert(0 <= path[i] < l.arcs.len());
        }
        lemma_nothing_to_generate(p, 0);
    }
    cached_selections_ask_nobody(before, after, r, tts, text, voice, dict, medium, codec, t);
}

} // verus!
