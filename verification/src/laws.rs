//! What holds of the cache as a whole, whatever is stored in it and asked of
//! it.

use crate::audio::WavView;
use crate::codec::AudioCodec;
use crate::compose::{
    cached_candidate, characters_add_up, chars_where, composed, finished, lemma_entries_at,
    lengths_tried, open_runs, phrase_at, phrase_tried, phrases, plan, run_end, starts_tried,
    word_resolved, words_tried, Request, SlotView,
};
use crate::edges::{built, built_edges_are_usable, usable, EdgeView, Medium, Search};
use crate::error::ErrorView;
use crate::fade::Gains;
use crate::pipeline::{
    ingested, linked, record, segmented, sounds, sounds_stored, word_record, words_stored, Sounded,
    Utterance,
};
use crate::report::ReportView;
use crate::select::{
    contiguous, edge_characters_add_up, follows, is_synth, lemma_synth_end, selected, selection,
    selection_is_contiguous, synth_end, synth_spans,
};
use crate::speak::{all_spoken, answered, grown, kept, span_utterance, spoken_audio, Dict, Reply};
use crate::store::{
    count_level, entries_at, filed, found_units_match, index_entries_are_complete, indexed,
    matches_key, matching, unit_of, with_unit, EntryView, NodeId, NodeView, StoreView,
};
use crate::text::total_len;
use crate::tts::TtsProvider;
use crate::units::{morphemes, tokens, CandidateView, UnitLevel};
use vstd::prelude::*;

verus! {

// ---- growth ----

/// Whether a store holds all that another holds, at the same places.
pub open spec fn extends(s: StoreView, t: StoreView) -> bool {
    &&& s.nodes.len() <= t.nodes.len()
    &&& t.nodes.take(s.nodes.len() as int) == s.nodes
    &&& s.edges.len() <= t.edges.len()
    &&& t.edges.take(s.edges.len() as int) == s.edges
}

pub proof fn lemma_extends_transitive(a: StoreView, b: StoreView, c: StoreView)
    requires
        extends(a, b),
        extends(b, c),
    ensures
        extends(a, c),
{
    assert(c.nodes.take(a.nodes.len() as int) =~= b.nodes.take(a.nodes.len() as int)) by {
        assert forall|i: int| 0 <= i < a.nodes.len() implies c.nodes[i] == b.nodes[i] by {
            assert(c.nodes.take(b.nodes.len() as int)[i] == b.nodes[i]);
        }
    }
    assert(c.edges.take(a.edges.len() as int) =~= b.edges.take(a.edges.len() as int)) by {
        assert forall|i: int| 0 <= i < a.edges.len() implies c.edges[i] == b.edges[i] by {
            assert(c.edges.take(b.edges.len() as int)[i] == b.edges[i]);
        }
    }
}

pub proof fn lemma_node_kept(s: StoreView, t: StoreView, i: int)
    requires
        extends(s, t),
        0 <= i < s.nodes.len(),
    ensures
        t.nodes[i] == s.nodes[i],
{
    assert(t.nodes.take(s.nodes.len() as int)[i] == s.nodes[i]);
}

/// Whether the nodes that a store has beyond the first `n` are units of levels
/// below the phrase.
pub open spec fn no_phrase_from(t: StoreView, n: nat) -> bool {
    forall|i: int|
        n <= i < t.nodes.len() ==> (#[trigger] t.nodes[i] matches NodeView::Unit(u) && u.level
            != UnitLevel::Phrase)
}

/// Whether the nodes that a store has beyond the first `n` are units recorded
/// in a voice, in a domain.
pub open spec fn recorded_from(
    t: StoreView,
    n: nat,
    voice: Seq<char>,
    domain: Seq<char>,
) -> bool {
    forall|i: int|
        n <= i < t.nodes.len() ==> (#[trigger] t.nodes[i] matches NodeView::Unit(u) && u.voice
            == voice && u.cache_domain == domain)
}

/// Storing words adds one node for each of them.
pub proof fn words_come_first<C: AudioCodec + ?Sized>(
    s: StoreView,
    u: Utterance,
    n: nat,
    codec: &C,
)
    ensures
        words_stored(s, u, n, codec).nodes.len() == s.nodes.len() + n,
{
    lemma_words_stored(s, u, n, codec);
}

#[verifier::rlimit(50)]
#[verifier::spinoff_prover]
proof fn lemma_words_stored<C: AudioCodec + ?Sized>(s: StoreView, u: Utterance, n: nat, codec: &C)
    ensures
        extends(s, words_stored(s, u, n, codec)),
        words_stored(s, u, n, codec).nodes.len() == s.nodes.len() + n,
        forall|i: int|
            0 <= i < n ==> #[trigger] words_stored(s, u, n, codec).nodes[s.nodes.len() + i]
                == NodeView::Unit(unit_of(word_record(u, i, codec), (s.nodes.len() + i) as nat)),
        forall|level: UnitLevel| #[trigger]
            count_level(words_stored(s, u, n, codec).nodes, level) == count_level(s.nodes, level)
                + (if level == UnitLevel::Word {
                n
            } else {
                0
            }),
    decreases n,
{
    let t = words_stored(s, u, n, codec);
    if n == 0 {
        assert(t.nodes.take(s.nodes.len() as int) =~= s.nodes);
        assert(t.edges.take(s.edges.len() as int) =~= s.edges);
    } else {
        lemma_words_stored(s, u, (n - 1) as nat, codec);
        let before = words_stored(s, u, (n - 1) as nat, codec);
        assert(t.nodes.drop_last() =~= before.nodes);
        assert(before.nodes =~= t.nodes.take(before.nodes.len() as int));
        assert(before.edges =~= t.edges.take(before.edges.len() as int));
        lemma_unit_added(before, t, UnitLevel::Word);
        lemma_extends_transitive(s, before, t);
        assert forall|i: int| 0 <= i < n implies #[trigger] t.nodes[s.nodes.len() + i]
            == NodeView::Unit(unit_of(word_record(u, i, codec), (s.nodes.len() + i) as nat)) by {
            if i < n - 1 {
                lemma_node_kept(before, t, s.nodes.len() + i);
                assert(before.nodes[s.nodes.len() + i] == NodeView::Unit(
                    unit_of(word_record(u, i, codec), (s.nodes.len() + i) as nat),
                ));
            }
        }
    }
}

/// The number of transitions between `k` sounds.
pub open spec fn transitions(k: nat) -> nat {
    if k == 0 {
        0
    } else {
        (k - 1) as nat
    }
}

proof fn lemma_unit_added(s: StoreView, t: StoreView, level: UnitLevel)
    requires
        t.nodes.len() == s.nodes.len() + 1,
        t.nodes.drop_last() == s.nodes,
        t.nodes.last() matches NodeView::Unit(u) && u.level == level,
        s.edges.len() <= t.edges.len(),
        t.edges.take(s.edges.len() as int) == s.edges,
    ensures
        extends(s, t),
        forall|other: UnitLevel| #[trigger]
            count_level(t.nodes, other) == count_level(s.nodes, other) + (if other == level {
                1nat
            } else {
                0
            }),
        level != UnitLevel::Phrase ==> forall|n: nat|
            no_phrase_from(s, n) ==> #[trigger] no_phrase_from(t, n),
{
    assert(t.nodes.take(s.nodes.len() as int) =~= t.nodes.drop_last());
    if level != UnitLevel::Phrase {
        assert forall|n: nat| no_phrase_from(s, n) implies #[trigger] no_phrase_from(t, n) by {
            assert forall|i: int| n <= i < t.nodes.len() implies (
            #[trigger] t.nodes[i] matches NodeView::Unit(u) && u.level != UnitLevel::Phrase) by {
                if i < s.nodes.len() {
                    assert(t.nodes.drop_last()[i] == s.nodes[i]);
                }
            }
        }
    }
}

proof fn lemma_sounds_stored<C: AudioCodec + ?Sized>(
    s: StoreView,
    u: Utterance,
    st: Seq<Sounded>,
    k: nat,
    codec: &C,
)
    ensures
        extends(s, sounds_stored(s, u, st, k, codec).store),
        no_phrase_from(sounds_stored(s, u, st, k, codec).store, s.nodes.len()),
        forall|level: UnitLevel| #[trigger]
            count_level(sounds_stored(s, u, st, k, codec).store.nodes, level) == count_level(
                s.nodes,
                level,
            ) + (if level == UnitLevel::Phoneme {
                k
            } else if level == UnitLevel::Diphone && u.opts.diphones {
                transitions(k)
            } else {
                0
            }),
    decreases k,
{
    let t = sounds_stored(s, u, st, k, codec);
    if k == 0 {
        assert(t.store.nodes.take(s.nodes.len() as int) =~= s.nodes);
        assert(t.store.edges.take(s.edges.len() as int) =~= s.edges);
    } else {
        lemma_sounds_stored(s, u, st, (k - 1) as nat, codec);
        let before = sounds_stored(s, u, st, (k - 1) as nat, codec);
        let pid = NodeId(before.store.nodes.len() as u64);
        let heard = linked(
            with_unit(
                before.store,
                crate::pipeline::phoneme_record(u, st, k - 1, codec),
            ),
            before.phoneme,
            pid,
        );
        assert(heard.nodes.drop_last() =~= before.store.nodes);
        assert(heard.edges.take(before.store.edges.len() as int) =~= before.store.edges);
        lemma_unit_added(before.store, heard, UnitLevel::Phoneme);
        lemma_extends_transitive(s, before.store, heard);
        assert(no_phrase_from(heard, s.nodes.len()));
        if u.opts.diphones && k > 1 {
            assert(t.store.nodes.drop_last() =~= heard.nodes);
            assert(t.store.edges.take(heard.edges.len() as int) =~= heard.edges);
            lemma_unit_added(heard, t.store, UnitLevel::Diphone);
            lemma_extends_transitive(s, heard, t.store);
            assert(no_phrase_from(t.store, s.nodes.len()));
        }
    }
}

proof fn lemma_sounds_recorded<C: AudioCodec + ?Sized>(
    s: StoreView,
    u: Utterance,
    st: Seq<Sounded>,
    k: nat,
    codec: &C,
)
    ensures
        recorded_from(
            sounds_stored(s, u, st, k, codec).store,
            s.nodes.len(),
            u.voice,
            u.provider,
        ),
    decreases k,
{
    let t = sounds_stored(s, u, st, k, codec);
    if k > 0 {
        lemma_sounds_recorded(s, u, st, (k - 1) as nat, codec);
        let before = sounds_stored(s, u, st, (k - 1) as nat, codec).store;
        assert forall|i: int| s.nodes.len() <= i < t.store.nodes.len() implies (
        #[trigger] t.store.nodes[i] matches NodeView::Unit(x) && x.voice == u.voice
            && x.cache_domain == u.provider) by {
            if i < before.nodes.len() {
                assert(t.store.nodes[i] == before.nodes[i]);
            }
        }
    }
}

/// Everything that is stored of an utterance is recorded in its voice and in
/// its domain.
pub proof fn segmenting_records_one_voice<C: AudioCodec + ?Sized>(
    s: StoreView,
    u: Utterance,
    codec: &C,
)
    ensures
        recorded_from(segmented(s, u, codec), s.nodes.len(), u.voice, u.provider),
{
    let st = sounds(u, u.words.len());
    let w = words_stored(s, u, u.words.len(), codec);
    let t = segmented(s, u, codec);
    lemma_words_stored(s, u, u.words.len(), codec);
    lemma_sounds_stored(w, u, st, st.len(), codec);
    lemma_sounds_recorded(w, u, st, st.len(), codec);
    assert forall|i: int| s.nodes.len() <= i < t.nodes.len() implies (
    #[trigger] t.nodes[i] matches NodeView::Unit(x) && x.voice == u.voice && x.cache_domain
        == u.provider) by {
        if i < w.nodes.len() {
            lemma_node_kept(w, t, i);
            assert(w.nodes[s.nodes.len() + (i - s.nodes.len())] == NodeView::Unit(
                unit_of(
                    word_record(u, i - s.nodes.len(), codec),
                    (s.nodes.len() + (i - s.nodes.len())) as nat,
                ),
            ));
        }
    }
}

/// Storing an utterance changes nothing that was stored before, and adds its
/// words, its phonemes, and one diphone for each pair of neighbouring phonemes
/// across the whole utterance, where diphones are asked for.
pub proof fn segmenting_adds_words_and_sounds<C: AudioCodec + ?Sized>(
    s: StoreView,
    u: Utterance,
    codec: &C,
)
    ensures
        ({
            let t = segmented(s, u, codec);
            let heard = sounds(u, u.words.len()).len();
            &&& extends(s, t)
            &&& no_phrase_from(t, s.nodes.len())
            &&& forall|level: UnitLevel| #[trigger]
                count_level(t.nodes, level) == count_level(s.nodes, level) + (match level {
                    UnitLevel::Word => u.words.len(),
                    UnitLevel::Phoneme => heard,
                    UnitLevel::Diphone => if u.opts.diphones {
                        transitions(heard)
                    } else {
                        0
                    },
                    _ => 0,
                })
        }),
{
    let st = sounds(u, u.words.len());
    let w = words_stored(s, u, u.words.len(), codec);
    let t = segmented(s, u, codec);
    lemma_words_stored(s, u, u.words.len(), codec);
    lemma_sounds_stored(w, u, st, st.len(), codec);
    lemma_extends_transitive(s, w, t);
    assert forall|i: int| s.nodes.len() <= i < t.nodes.len() implies (
    #[trigger] t.nodes[i] matches NodeView::Unit(x) && x.level != UnitLevel::Phrase) by {
        if i < w.nodes.len() {
            lemma_node_kept(w, t, i);
            assert(w.nodes[s.nodes.len() + (i - s.nodes.len())] == NodeView::Unit(
                unit_of(
                    word_record(u, i - s.nodes.len(), codec),
                    (s.nodes.len() + (i - s.nodes.len())) as nat,
                ),
            ));
        }
    }
    assert forall|level: UnitLevel| #[trigger]
        count_level(t.nodes, level) == count_level(s.nodes, level) + (match level {
            UnitLevel::Word => u.words.len(),
            UnitLevel::Phoneme => st.len(),
            UnitLevel::Diphone => if u.opts.diphones {
                transitions(st.len())
            } else {
                0
            },
            _ => 0,
        }) by {
        assert(count_level(w.nodes, level) == count_level(s.nodes, level) + (if level
            == UnitLevel::Word {
            u.words.len()
        } else {
            0
        }));
    }
}

/// A node with a level and a text is among those found under them.
pub proof fn matching_units_are_found(
    nodes: Seq<NodeView>,
    i: int,
    level: UnitLevel,
    text: Seq<char>,
)
    requires
        0 <= i < nodes.len(),
        matches_key(nodes, i, level, text),
    ensures
        matching(nodes, level, text).contains(NodeId(i as u64)),
    decreases nodes.len(),
{
    let ids = matching(nodes, level, text);
    if i == nodes.len() - 1 {
        assert(ids[ids.len() - 1] == NodeId(i as u64));
    } else {
        let init = nodes.drop_last();
        assert(init[i] == nodes[i]);
        matching_units_are_found(init, i, level, text);
        let before = matching(init, level, text);
        let k = choose|k: int| 0 <= k < before.len() && before[k] == NodeId(i as u64);
        assert(ids[k] == before[k]);
    }
}

/// Every word of a stored utterance is found under its text, as the unit that
/// was recorded of it.
pub proof fn segmented_words_are_found<C: AudioCodec + ?Sized>(
    s: StoreView,
    u: Utterance,
    i: int,
    codec: &C,
)
    requires
        0 <= i < u.words.len(),
    ensures
        ({
            let t = segmented(s, u, codec);
            let at = s.nodes.len() + i;
            &&& at < t.nodes.len()
            &&& t.nodes[at] == NodeView::Unit(unit_of(word_record(u, i, codec), at as nat))
            &&& matching(t.nodes, UnitLevel::Word, u.words[i]).contains(NodeId(at as u64))
        }),
{
    let st = sounds(u, u.words.len());
    let w = words_stored(s, u, u.words.len(), codec);
    let t = segmented(s, u, codec);
    let at = s.nodes.len() + i;
    lemma_words_stored(s, u, u.words.len(), codec);
    lemma_sounds_stored(w, u, st, st.len(), codec);
    assert(w.nodes[s.nodes.len() + i] == NodeView::Unit(
        unit_of(word_record(u, i, codec), (s.nodes.len() + i) as nat),
    ));
    lemma_node_kept(w, t, at);
    matching_units_are_found(t.nodes, at, UnitLevel::Word, u.words[i]);
}

/// An ingest changes nothing that was stored before, stores the phrase under
/// its normalized text, every word, and what sounds in them.
pub proof fn ingesting_adds_phrase_words_and_sounds<C: AudioCodec + ?Sized>(
    s: StoreView,
    text: Seq<char>,
    u: Utterance,
    codec: &C,
)
    ensures
        ({
            let t = ingested(s, text, u, codec);
            let heard = sounds(u, u.words.len()).len();
            &&& extends(s, t)
            &&& matching(t.nodes, UnitLevel::Phrase, crate::units::normalized(text)).contains(
                NodeId(s.nodes.len() as u64),
            )
            &&& forall|i: int|
                0 <= i < u.words.len() ==> matching(
                    t.nodes,
                    UnitLevel::Word,
                    #[trigger] u.words[i],
                ).contains(NodeId((s.nodes.len() + 1 + i) as u64))
            &&& forall|level: UnitLevel| #[trigger]
                count_level(t.nodes, level) == count_level(s.nodes, level) + (match level {
                    UnitLevel::Phrase => 1,
                    UnitLevel::Word => u.words.len(),
                    UnitLevel::Phoneme => heard,
                    UnitLevel::Diphone => if u.opts.diphones {
                        transitions(heard)
                    } else {
                        0
                    },
                    _ => 0,
                })
        }),
{
    let norm = crate::units::normalized(text);
    let r = record(u, UnitLevel::Phrase, norm, norm, u.audio, None, None, codec);
    let p = with_unit(s, r);
    let m = segmented(p, u, codec);
    let t = ingested(s, text, u, codec);
    assert(p.nodes.drop_last() =~= s.nodes);
    assert(p.edges.take(s.edges.len() as int) =~= s.edges);
    lemma_unit_added(s, p, UnitLevel::Phrase);
    segmenting_adds_words_and_sounds(p, u, codec);
    assert(t.nodes.drop_last() =~= m.nodes);
    assert(t.nodes.take(m.nodes.len() as int) =~= m.nodes);
    assert(t.edges.take(m.edges.len() as int) =~= m.edges);
    lemma_extends_transitive(s, p, m);
    lemma_extends_transitive(s, m, t);
    lemma_node_kept(p, m, s.nodes.len() as int);
    matching_units_are_found(t.nodes, s.nodes.len() as int, UnitLevel::Phrase, norm);
    assert forall|i: int| 0 <= i < u.words.len() implies matching(
        t.nodes,
        UnitLevel::Word,
        #[trigger] u.words[i],
    ).contains(NodeId((s.nodes.len() + 1 + i) as u64)) by {
        segmented_words_are_found(p, u, i, codec);
        let at = p.nodes.len() + i;
        assert(t.nodes[at] == m.nodes[at]);
        matching_units_are_found(t.nodes, at, UnitLevel::Word, u.words[i]);
    }
    assert forall|level: UnitLevel| #[trigger]
        count_level(t.nodes, level) == count_level(s.nodes, level) + (match level {
            UnitLevel::Phrase => 1,
            UnitLevel::Word => u.words.len(),
            UnitLevel::Phoneme => sounds(u, u.words.len()).len(),
            UnitLevel::Diphone => if u.opts.diphones {
                transitions(sounds(u, u.words.len()).len())
            } else {
                0
            },
            _ => 0,
        }) by {
        assert(count_level(m.nodes, level) >= count_level(p.nodes, level));
        assert(count_level(p.nodes, level) >= count_level(s.nodes, level));
    }
}

// ---- misses ----

proof fn lemma_run_bounds(slots: Seq<SlotView>, i: nat)
    requires
        i <= slots.len(),
    ensures
        i <= run_end(slots, i) <= slots.len(),
        i < slots.len() && slots[i as int] is Open ==> i < run_end(slots, i),
        forall|k: int| i <= k < run_end(slots, i) ==> #[trigger] slots[k] is Open,
        run_end(slots, i) < slots.len() ==> !(slots[run_end(slots, i) as int] is Open),
    decreases slots.len() - i,
{
    if i < slots.len() && slots[i as int] is Open {
        lemma_run_bounds(slots, i + 1);
    }
}

/// Whether word `i` stands in one of the runs.
pub open spec fn in_a_run(runs: Seq<(nat, nat)>, i: int) -> bool {
    exists|k: int| 0 <= k < runs.len() && (#[trigger] runs[k]).0 <= i < runs[k].1
}

/// The misses of a request are exactly the words in its runs, and runs are
/// coalesced: between two of them at least one word comes from the cache.
pub proof fn runs_are_the_misses(slots: Seq<SlotView>, from: nat)
    requires
        from <= slots.len(),
    ensures
        ({
            let runs = open_runs(slots, from);
            &&& forall|i: int|
                from <= i < slots.len() ==> (#[trigger] slots[i] is Open <==> in_a_run(runs, i))
            &&& forall|k: int|
                0 <= k < runs.len() ==> from <= (#[trigger] runs[k]).0 < runs[k].1
                    <= slots.len()
            &&& forall|j: int, k: int|
                0 <= j < k < runs.len() ==> (#[trigger] runs[j]).1 < (#[trigger] runs[k]).0
        }),
    decreases slots.len() - from,
{
    let runs = open_runs(slots, from);
    if from < slots.len() {
        if slots[from as int] is Open {
            lemma_run_bounds(slots, from);
            let end = run_end(slots, from);
            let rest = open_runs(slots, end);
            runs_are_the_misses(slots, end);
            assert(runs[0] == (from, end));
            assert forall|k: int| 0 < k < runs.len() implies #[trigger] runs[k] == rest[k - 1] by {}
            assert forall|k: int| 0 <= k < runs.len() implies from <= (#[trigger] runs[k]).0
                < runs[k].1 <= slots.len() by {
                if k > 0 {
                    assert(runs[k] == rest[k - 1]);
                }
            }
            assert forall|j: int, k: int| 0 <= j < k < runs.len() implies (#[trigger] runs[j]).1 < (
            #[trigger] runs[k]).0 by {
                assert(runs[k] == rest[k - 1]);
                if j > 0 {
                    assert(runs[j] == rest[j - 1]);
                } else {
                    assert(rest[k - 1].0 >= end);
                    assert(slots[rest[k - 1].0 as int] is Open) by {
                        let i = rest[k - 1].0 as int;
                        assert(rest[k - 1].0 <= i < rest[k - 1].1);
                        assert(in_a_run(rest, i));
                    }
                }
            }
            assert forall|i: int| from <= i < slots.len() implies (#[trigger] slots[i] is Open
                <==> in_a_run(runs, i)) by {
                if i < end {
                    assert(runs[0].0 <= i < runs[0].1);
                } else {
                    if in_a_run(rest, i) {
                        let k = choose|k: int|
                            0 <= k < rest.len() && (#[trigger] rest[k]).0 <= i < rest[k].1;
                        assert(runs[k + 1] == rest[k]);
                    }
                    if in_a_run(runs, i) {
                        let k = choose|k: int|
                            0 <= k < runs.len() && (#[trigger] runs[k]).0 <= i < runs[k].1;
                        assert(k > 0);
                        assert(runs[k] == rest[k - 1]);
                    }
                }
            }
        } else {
            runs_are_the_misses(slots, from + 1);
            assert(runs == open_runs(slots, from + 1));
            assert forall|k: int| 0 <= k < runs.len() implies from <= (#[trigger] runs[k]).0
                < runs[k].1 <= slots.len() by {
                assert(from + 1 <= runs[k].0);
            }
            assert(!in_a_run(runs, from as int));
            assert forall|i: int| from <= i < slots.len() implies (#[trigger] slots[i] is Open
                <==> in_a_run(runs, i)) by {}
        }
    }
}

// ---- composing ----

proof fn lemma_grown<C: AudioCodec + ?Sized>(
    s: StoreView,
    words: Seq<Seq<char>>,
    spans: Seq<(nat, nat)>,
    replies: Seq<Reply>,
    voice: Seq<char>,
    provider: Seq<char>,
    dict: Dict,
    k: nat,
    codec: &C,
)
    ensures
        extends(s, grown(s, words, spans, replies, voice, provider, dict, k, codec)),
        no_phrase_from(
            grown(s, words, spans, replies, voice, provider, dict, k, codec),
            s.nodes.len(),
        ),
    decreases k,
{
    let t = grown(s, words, spans, replies, voice, provider, dict, k, codec);
    if k == 0 {
        assert(t.nodes.take(s.nodes.len() as int) =~= s.nodes);
        assert(t.edges.take(s.edges.len() as int) =~= s.edges);
    } else {
        lemma_grown(s, words, spans, replies, voice, provider, dict, (k - 1) as nat, codec);
        let b = grown(s, words, spans, replies, voice, provider, dict, (k - 1) as nat, codec);
        let u = span_utterance(words, spans[k - 1], replies[k - 1]->Ok_0, voice, provider, dict);
        segmenting_adds_words_and_sounds(b, u, codec);
        lemma_extends_transitive(s, b, t);
        assert forall|i: int| s.nodes.len() <= i < t.nodes.len() implies (
        #[trigger] t.nodes[i] matches NodeView::Unit(x) && x.level != UnitLevel::Phrase) by {
            if i < b.nodes.len() {
                lemma_node_kept(b, t, i);
            }
        }
    }
}

/// Composing changes nothing that was stored before, whatever a provider
/// answers, and adds no phrase.
pub proof fn composing_keeps_the_cache<T: TtsProvider + ?Sized, C: AudioCodec + ?Sized>(
    before: StoreView,
    after: StoreView,
    r: core::result::Result<(WavView, ReportView), ErrorView>,
    tts: &T,
    text: Seq<char>,
    voice: Seq<char>,
    dict: Dict,
    medium: Medium,
    codec: &C,
    t: Gains,
)
    requires
        composed(before, after, r, tts, text, voice, dict, codec, t) || selected(
            before,
            after,
            r,
            tts,
            text,
            voice,
            dict,
            medium,
            codec,
            t,
        ),
    ensures
        extends(before, after),
        no_phrase_from(after, before.nodes.len()),
{
    let words = tokens(text);
    assert(before.nodes.take(before.nodes.len() as int) =~= before.nodes);
    assert(before.edges.take(before.edges.len() as int) =~= before.edges);
    assert(extends(before, before));
    if words.len() > 0 && after != before {
        let q = Request { nodes: before.nodes, words };
        let x = Search { q, dict, medium, t };
        let name = tts.provider_name();
        if composed(before, after, r, tts, text, voice, dict, codec, t) {
            let runs = open_runs(plan(q, codec)->Ok_0, 0);
            let replies = choose|replies: Seq<Reply>| #[trigger]
                answered(tts, words, runs, voice, replies) && after == grown(
                    before,
                    words,
                    runs,
                    replies,
                    voice,
                    name,
                    dict,
                    kept(replies),
                    codec,
                );
            lemma_grown(before, words, runs, replies, voice, name, dict, kept(replies), codec);
        } else {
            let spans = synth_spans(selection(x, built(x, codec)->Ok_0), 0);
            let replies = choose|replies: Seq<Reply>| #[trigger]
                answered(tts, words, spans, voice, replies) && after == grown(
                    before,
                    words,
                    spans,
                    replies,
                    voice,
                    name,
                    dict,
                    kept(replies),
                    codec,
                );
            lemma_grown(before, words, spans, replies, voice, name, dict, kept(replies), codec);
        }
    }
}

/// A composed request accounts for every character: each is either served
/// from the cache or generated.
pub proof fn composing_accounts_for_every_character<
    T: TtsProvider + ?Sized,
    C: AudioCodec + ?Sized,
>(
    before: StoreView,
    after: StoreView,
    r: core::result::Result<(WavView, ReportView), ErrorView>,
    tts: &T,
    text: Seq<char>,
    voice: Seq<char>,
    dict: Dict,
    medium: Medium,
    codec: &C,
    t: Gains,
)
    requires
        composed(before, after, r, tts, text, voice, dict, codec, t) || selected(
            before,
            after,
            r,
            tts,
            text,
            voice,
            dict,
            medium,
            codec,
            t,
        ),
        r is Ok,
    ensures
        r->Ok_0.1.total_chars == total_len(tokens(text)),
        r->Ok_0.1.cached_chars + r->Ok_0.1.generated_chars == r->Ok_0.1.total_chars,
{
    let words = tokens(text);
    let q = Request { nodes: before.nodes, words };
    let x = Search { q, dict, medium, t };
    assert(words.take(words.len() as int) =~= words);
    if composed(before, after, r, tts, text, voice, dict, codec, t) {
        let slots = plan(q, codec)->Ok_0;
        characters_add_up(words, slots, words.len());
    } else {
        let v = built(x, codec)->Ok_0;
        let p = selection(x, v);
        crate::units::tokens_are_not_empty(text);
        built_edges_are_usable(x, codec);
        selection_is_contiguous(x, v);
        edge_characters_add_up(x, p, p.len());
        assert(p[p.len() - 1].end == words.len());
    }
}

/// A request that resolves in the cache throughout asks no provider for
/// anything and leaves the cache as it was.
pub proof fn cached_requests_ask_nobody<T: TtsProvider + ?Sized, C: AudioCodec + ?Sized>(
    before: StoreView,
    after: StoreView,
    r: core::result::Result<(WavView, ReportView), ErrorView>,
    tts: &T,
    text: Seq<char>,
    voice: Seq<char>,
    dict: Dict,
    slots: Seq<SlotView>,
    codec: &C,
    t: Gains,
)
    requires
        composed(before, after, r, tts, text, voice, dict, codec, t),
        plan(Request { nodes: before.nodes, words: tokens(text) }, codec) == Ok::<
            Seq<SlotView>,
            ErrorView,
        >(slots),
        slots.len() == tokens(text).len(),
        forall|i: int| 0 <= i < slots.len() ==> !(#[trigger] slots[i] is Open),
    ensures
        after == before,
        r is Ok ==> r->Ok_0.1.tts_calls.len() == 0 && r->Ok_0.1.generated_chars == 0
            && r->Ok_0.1.cached_chars == r->Ok_0.1.total_chars,
{
    let words = tokens(text);
    if words.len() > 0 {
        let runs = open_runs(slots, 0);
        runs_are_the_misses(slots, 0);
        if runs.len() > 0 {
            assert(runs[0].0 < runs[0].1);
            assert(in_a_run(runs, runs[0].0 as int));
            assert(slots[runs[0].0 as int] is Open);
        }
        let replies = choose|replies: Seq<Reply>| #[trigger]
            answered(tts, words, runs, voice, replies) && after == grown(
                before,
                words,
                runs,
                replies,
                voice,
                tts.provider_name(),
                dict,
                kept(replies),
                codec,
            );
        lemma_nothing_generated(words, slots, words.len());
        assert(words.take(words.len() as int) =~= words);
        characters_add_up(words, slots, words.len());
    }
}

proof fn lemma_nothing_generated(words: Seq<Seq<char>>, slots: Seq<SlotView>, n: nat)
    requires
        n <= slots.len(),
        forall|i: int| 0 <= i < slots.len() ==> !(#[trigger] slots[i] is Open),
    ensures
        chars_where(words, slots, true, n) == 0,
    decreases n,
{
    if n > 0 {
        lemma_nothing_generated(words, slots, (n - 1) as nat);
    }
}

/// The spans that a selection generates are coalesced: they come in order, and
/// between two of them at least one word comes from the cache.
pub proof fn generated_spans_are_coalesced(x: Search, p: Seq<EdgeView>, from: nat)
    requires
        contiguous(x, p),
        from <= p.len(),
    ensures
        ({
            let spans = synth_spans(p, from);
            &&& forall|k: int|
                0 <= k < spans.len() ==> p[from as int].start <= (#[trigger] spans[k]).0
                    < spans[k].1 <= x.q.words.len()
            &&& forall|j: int, k: int|
                0 <= j < k < spans.len() ==> (#[trigger] spans[j]).1 < (#[trigger] spans[k]).0
        }),
    decreases p.len() - from,
{
    let spans = synth_spans(p, from);
    if from < p.len() {
        assert(usable(x, p[from as int]));
        if is_synth(p[from as int]) {
            lemma_synth_end(p, from);
            let end = synth_end(p, from);
            lemma_edges_advance(x, p, from as int, end - 1);
            let rest = synth_spans(p, end);
            assert(spans[0] == (p[from as int].start, p[end - 1].end));
            generated_spans_are_coalesced(x, p, end);
            if end < p.len() {
                assert(follows(p, end as int));
                lemma_synth_end_stops(p, from);
                lemma_synth_spans_start(x, p, end);
            }
            assert forall|k: int| 0 < k < spans.len() implies #[trigger] spans[k] == rest[k
                - 1] by {}
            assert forall|k: int| 0 <= k < spans.len() implies p[from as int].start <= (
            #[trigger] spans[k]).0 < spans[k].1 <= x.q.words.len() by {
                if k > 0 {
                    assert(spans[k] == rest[k - 1]);
                }
            }
            assert forall|j: int, k: int| 0 <= j < k < spans.len() implies (
            #[trigger] spans[j]).1 < (#[trigger] spans[k]).0 by {
                assert(spans[k] == rest[k - 1]);
                if j > 0 {
                    assert(spans[j] == rest[j - 1]);
                }
            }
        } else {
            generated_spans_are_coalesced(x, p, from + 1);
            assert(spans == synth_spans(p, from + 1));
            if from + 1 < p.len() {
                assert(follows(p, (from + 1) as int));
            }
            assert forall|k: int| 0 <= k < spans.len() implies p[from as int].start <= (
            #[trigger] spans[k]).0 < spans[k].1 <= x.q.words.len() by {
                assert(p[(from + 1) as int].start <= spans[k].0);
            }
        }
    }
}

proof fn lemma_synth_end_stops(p: Seq<EdgeView>, i: nat)
    requires
        i <= p.len(),
    ensures
        synth_end(p, i) < p.len() ==> !is_synth(p[synth_end(p, i) as int]),
    decreases p.len() - i,
{
    if i < p.len() && is_synth(p[i as int]) {
        lemma_synth_end_stops(p, i + 1);
    }
}

/// Behind an edge from the cache, what is generated starts after it.
proof fn lemma_synth_spans_start(x: Search, p: Seq<EdgeView>, from: nat)
    requires
        contiguous(x, p),
        from < p.len(),
        !is_synth(p[from as int]),
    ensures
        forall|k: int|
            0 <= k < synth_spans(p, from).len() ==> p[from as int].start < (#[trigger] synth_spans(
                p,
                from,
            )[k]).0,
    decreases p.len() - from,
{
    assert(usable(x, p[from as int]));
    let spans = synth_spans(p, from + 1);
    assert(synth_spans(p, from) == spans);
    generated_spans_are_coalesced(x, p, from + 1);
    if from + 1 < p.len() {
        assert(follows(p, (from + 1) as int));
    }
    assert forall|k: int| 0 <= k < spans.len() implies p[from as int].start < (
    #[trigger] spans[k]).0 by {
        assert(p[(from + 1) as int].start <= spans[k].0);
    }
}

proof fn lemma_edges_advance(x: Search, p: Seq<EdgeView>, i: int, j: int)
    requires
        contiguous(x, p),
        0 <= i <= j < p.len(),
    ensures
        p[i].start < p[j].end <= x.q.words.len(),
    decreases j - i,
{
    assert(usable(x, p[j]));
    if i < j {
        lemma_edges_advance(x, p, i, j - 1);
        assert(follows(p, j));
    }
}

/// A request whose selection generates nothing asks no provider for anything
/// and leaves the cache as it was.
pub proof fn cached_selections_ask_nobody<T: TtsProvider + ?Sized, C: AudioCodec + ?Sized>(
    before: StoreView,
    after: StoreView,
    r: core::result::Result<(WavView, ReportView), ErrorView>,
    tts: &T,
    text: Seq<char>,
    voice: Seq<char>,
    dict: Dict,
    medium: Medium,
    codec: &C,
    t: Gains,
)
    requires
        selected(before, after, r, tts, text, voice, dict, medium, codec, t),
        ({
            let x = Search {
                q: Request { nodes: before.nodes, words: tokens(text) },
                dict,
                medium,
                t,
            };
            built(x, codec) matches Ok(v) ==> synth_spans(selection(x, v), 0).len() == 0
        }),
    ensures
        after == before,
        r is Ok ==> r->Ok_0.1.tts_calls.len() == 0,
{
    let words = tokens(text);
    let x = Search { q: Request { nodes: before.nodes, words }, dict, medium, t };
    if words.len() > 0 && built(x, codec) is Ok {
        let spans = synth_spans(selection(x, built(x, codec)->Ok_0), 0);
        let replies = choose|replies: Seq<Reply>| #[trigger]
            answered(tts, words, spans, voice, replies) && after == grown(
                before,
                words,
                spans,
                replies,
                voice,
                tts.provider_name(),
                dict,
                kept(replies),
                codec,
            );
    }
}

// ---- composing again ----

proof fn lemma_entry_replaced(index: Seq<EntryView>, k: int, e: EntryView, level: UnitLevel)
    requires
        0 <= k < index.len(),
        index[k].level != level,
        e.level != level,
    ensures
        entries_at(index.update(k, e), level) == entries_at(index, level),
    decreases index.len(),
{
    let after = index.update(k, e);
    if k == index.len() - 1 {
        assert(after.drop_last() =~= index.drop_last());
    } else {
        lemma_entry_replaced(index.drop_last(), k, e, level);
        assert(after.drop_last() =~= index.drop_last().update(k, e));
    }
}

proof fn lemma_spot_in(index: Seq<EntryView>, level: UnitLevel, text: Seq<char>)
    ensures
        crate::store::spot(index, level, text) < index.len() ==> index[crate::store::spot(
            index,
            level,
            text,
        ) as int].level == level,
    decreases index.len(),
{
    if index.len() > 0 && !crate::store::keyed(index[0], level, text) {
        lemma_spot_in(index.skip(1), level, text);
    }
}

proof fn lemma_phrases_kept(s: Seq<NodeView>, t: Seq<NodeView>)
    requires
        s.len() <= t.len(),
        t.take(s.len() as int) == s,
        forall|i: int|
            s.len() <= i < t.len() ==> (#[trigger] t[i] matches NodeView::Unit(u) && u.level
                != UnitLevel::Phrase),
    ensures
        entries_at(indexed(t), UnitLevel::Phrase) == entries_at(indexed(s), UnitLevel::Phrase),
    decreases t.len(),
{
    if t.len() == s.len() {
        assert(t =~= s);
    } else {
        let init = t.drop_last();
        assert(init.take(s.len() as int) =~= s);
        assert forall|i: int| s.len() <= i < init.len() implies (
        #[trigger] init[i] matches NodeView::Unit(u) && u.level != UnitLevel::Phrase) by {
            assert(init[i] == t[i]);
        }
        lemma_phrases_kept(s, init);
        let index = indexed(init);
        assert(t[t.len() - 1] == t.last());
        if let NodeView::Unit(u) = t.last() {
            let id = NodeId((t.len() - 1) as u64);
            let k = crate::store::spot(index, u.level, u.text) as int;
            let after = filed(index, u.level, u.text, id);
            if k < index.len() {
                lemma_spot_in(index, u.level, u.text);
                lemma_entry_replaced(
                    index,
                    k,
                    EntryView { level: u.level, text: u.text, ids: index[k].ids.push(id) },
                    UnitLevel::Phrase,
                );
            } else {
                assert(after.drop_last() =~= index);
            }
        }
    }
}

proof fn lemma_phrase_ids(nodes: Seq<NodeView>, k: int)
    requires
        nodes.len() <= u64::MAX,
        0 <= k < entries_at(indexed(nodes), UnitLevel::Phrase).len(),
    ensures
        entries_at(indexed(nodes), UnitLevel::Phrase)[k].1.len() > 0,
        entries_at(indexed(nodes), UnitLevel::Phrase)[k].1[0].0 < nodes.len(),
{
    lemma_entries_at(indexed(nodes), UnitLevel::Phrase, k);
    let j = choose|j: int|
        0 <= j < indexed(nodes).len() && entries_at(indexed(nodes), UnitLevel::Phrase)[k] == (
            (#[trigger] indexed(nodes)[j]).text,
            indexed(nodes)[j].ids,
        ) && indexed(nodes)[j].level == UnitLevel::Phrase;
    index_entries_are_complete(nodes);
    let e = indexed(nodes)[j];
    assert(e.ids == matching(nodes, e.level, e.text));
    found_units_match(nodes, e.level, e.text);
    assert(e.ids[0].0 < nodes.len());
}

proof fn lemma_same_phrase<C: AudioCodec + ?Sized>(
    before: StoreView,
    after: StoreView,
    words: Seq<Seq<char>>,
    slots: Seq<SlotView>,
    len: nat,
    start: nat,
    codec: &C,
)
    requires
        extends(before, after),
        no_phrase_from(after, before.nodes.len()),
        after.nodes.len() <= u64::MAX,
    ensures
        phrase_tried(Request { nodes: after.nodes, words }, slots, len, start, codec)
            == phrase_tried(Request { nodes: before.nodes, words }, slots, len, start, codec),
{
    lemma_phrases_kept(before.nodes, after.nodes);
    let ph = phrases(Request { nodes: before.nodes, words });
    let k = phrase_at(ph, words.subrange(start as int, (start + len) as int)) as int;
    if k < ph.len() {
        lemma_phrase_ids(before.nodes, k);
        lemma_node_kept(before, after, ph[k].1[0].0 as int);
    }
}

proof fn lemma_same_starts<C: AudioCodec + ?Sized>(
    before: StoreView,
    after: StoreView,
    words: Seq<Seq<char>>,
    slots: Seq<SlotView>,
    len: nat,
    m: nat,
    codec: &C,
)
    requires
        extends(before, after),
        no_phrase_from(after, before.nodes.len()),
        after.nodes.len() <= u64::MAX,
    ensures
        starts_tried(Request { nodes: after.nodes, words }, slots, len, m, codec)
            == starts_tried(Request { nodes: before.nodes, words }, slots, len, m, codec),
    decreases m,
{
    if m > 0 {
        lemma_same_starts(before, after, words, slots, len, (m - 1) as nat, codec);
        let r = starts_tried(
            Request { nodes: before.nodes, words },
            slots,
            len,
            (m - 1) as nat,
            codec,
        );
        if let Ok(s) = r {
            lemma_same_phrase(before, after, words, s, len, (m - 1) as nat, codec);
        }
    }
}

proof fn lemma_same_lengths<C: AudioCodec + ?Sized>(
    before: StoreView,
    after: StoreView,
    words: Seq<Seq<char>>,
    m: nat,
    codec: &C,
)
    requires
        extends(before, after),
        no_phrase_from(after, before.nodes.len()),
        after.nodes.len() <= u64::MAX,
    ensures
        lengths_tried(Request { nodes: after.nodes, words }, m, codec) == lengths_tried(
            Request { nodes: before.nodes, words },
            m,
            codec,
        ),
    decreases m,
{
    if m > 0 {
        lemma_same_lengths(before, after, words, (m - 1) as nat, codec);
        let r = lengths_tried(Request { nodes: before.nodes, words }, (m - 1) as nat, codec);
        if let Ok(s) = r {
            lemma_same_starts(
                before,
                after,
                words,
                s,
                (words.len() - m + 1) as nat,
                m,
                codec,
            );
        }
    }
}

/// Which words are left open after single words were tried.
proof fn lemma_words_tried<C: AudioCodec + ?Sized>(
    q: Request,
    slots: Seq<SlotView>,
    m: nat,
    codec: &C,
)
    requires
        m <= slots.len(),
        words_tried(q, slots, m, codec) is Ok,
    ensures
        ({
            let o = words_tried(q, slots, m, codec)->Ok_0;
            &&& o.len() == slots.len()
            &&& forall|i: int|
                0 <= i < m ==> (#[trigger] o[i] is Open <==> slots[i] is Open && word_resolved(
                    q,
                    i,
                    codec,
                ) is None)
            &&& forall|i: int| m <= i < slots.len() ==> #[trigger] o[i] == slots[i]
        }),
    decreases m,
{
    if m > 0 {
        lemma_words_tried(q, slots, (m - 1) as nat, codec);
        let b = words_tried(q, slots, (m - 1) as nat, codec)->Ok_0;
        let o = words_tried(q, slots, m, codec)->Ok_0;
        assert(b[m - 1] == slots[m - 1]);
        assert forall|i: int| 0 <= i < m implies (#[trigger] o[i] is Open <==> slots[i] is Open
            && word_resolved(q, i, codec) is None) by {
            if i < m - 1 {
                assert(o[i] == b[i]);
            }
        }
        assert forall|i: int| m <= i < slots.len() implies #[trigger] o[i] == slots[i] by {
            assert(o[i] == b[i]);
        }
    }
}

proof fn lemma_lengths_len<C: AudioCodec + ?Sized>(q: Request, m: nat, codec: &C)
    requires
        lengths_tried(q, m, codec) is Ok,
    ensures
        lengths_tried(q, m, codec)->Ok_0.len() == q.words.len(),
    decreases m,
{
    if m > 0 {
        lemma_lengths_len(q, (m - 1) as nat, codec);
        let s = lengths_tried(q, (m - 1) as nat, codec)->Ok_0;
        lemma_starts_len(q, s, (q.words.len() - m + 1) as nat, m, codec);
    }
}

proof fn lemma_starts_len<C: AudioCodec + ?Sized>(
    q: Request,
    slots: Seq<SlotView>,
    len: nat,
    m: nat,
    codec: &C,
)
    requires
        starts_tried(q, slots, len, m, codec) is Ok,
    ensures
        starts_tried(q, slots, len, m, codec)->Ok_0.len() == slots.len(),
    decreases m,
{
    if m > 0 {
        lemma_starts_len(q, slots, len, (m - 1) as nat, codec);
    }
}

/// What is found once is found ever after.
proof fn lemma_matching_grows(
    s: Seq<NodeView>,
    t: Seq<NodeView>,
    level: UnitLevel,
    text: Seq<char>,
)
    requires
        s.len() <= t.len(),
        t.take(s.len() as int) == s,
    ensures
        matching(s, level, text).len() <= matching(t, level, text).len(),
    decreases t.len(),
{
    if t.len() == s.len() {
        assert(t =~= s);
    } else {
        assert(t.drop_last().take(s.len() as int) =~= s);
        lemma_matching_grows(s, t.drop_last(), level, text);
    }
}

proof fn lemma_candidate_stays(
    s: Seq<NodeView>,
    t: Seq<NodeView>,
    cands: Seq<CandidateView>,
)
    requires
        s.len() <= t.len(),
        t.take(s.len() as int) == s,
        cached_candidate(s, cands) < cands.len(),
    ensures
        cached_candidate(t, cands) < cands.len(),
    decreases cands.len(),
{
    if cands.len() > 0 {
        lemma_matching_grows(s, t, UnitLevel::Word, cands[0].word);
        if matching(s, UnitLevel::Word, cands[0].word).len() == 0 && matching(
            t,
            UnitLevel::Word,
            cands[0].word,
        ).len() == 0 {
            lemma_candidate_stays(s, t, cands.skip(1));
        }
    }
}

/// The words of a span that was generated are found afterwards.
proof fn lemma_generated_words_found<C: AudioCodec + ?Sized>(
    s: StoreView,
    words: Seq<Seq<char>>,
    spans: Seq<(nat, nat)>,
    replies: Seq<Reply>,
    voice: Seq<char>,
    provider: Seq<char>,
    dict: Dict,
    k: nat,
    j: int,
    i: int,
    codec: &C,
)
    requires
        0 <= j < k <= spans.len(),
        spans[j].0 <= i < spans[j].1 <= words.len(),
    ensures
        matching(
            grown(s, words, spans, replies, voice, provider, dict, k, codec).nodes,
            UnitLevel::Word,
            words[i],
        ).len() > 0,
    decreases k,
{
    let b = grown(s, words, spans, replies, voice, provider, dict, (k - 1) as nat, codec);
    let t = grown(s, words, spans, replies, voice, provider, dict, k, codec);
    let u = span_utterance(words, spans[k - 1], replies[k - 1]->Ok_0, voice, provider, dict);
    if j == k - 1 {
        segmented_words_are_found(b, u, i - spans[j].0, codec);
        assert(u.words[i - spans[j].0] == words[i]);
    } else {
        lemma_generated_words_found(
            s,
            words,
            spans,
            replies,
            voice,
            provider,
            dict,
            (k - 1) as nat,
            j,
            i,
            codec,
        );
        segmenting_adds_words_and_sounds(b, u, codec);
        lemma_matching_grows(b.nodes, t.nodes, UnitLevel::Word, words[i]);
    }
}

/// The cache grows with use: once a request has been composed, composing it
/// again finds every word of it in the cache.
pub proof fn composed_requests_are_cached<T: TtsProvider + ?Sized, C: AudioCodec + ?Sized>(
    before: StoreView,
    after: StoreView,
    r: core::result::Result<(WavView, ReportView), ErrorView>,
    tts: &T,
    text: Seq<char>,
    voice: Seq<char>,
    dict: Dict,
    codec: &C,
    t: Gains,
)
    requires
        composed(before, after, r, tts, text, voice, dict, codec, t),
        r is Ok,
        after.nodes.len() <= u64::MAX,
    ensures
        plan(Request { nodes: after.nodes, words: tokens(text) }, codec) matches Ok(slots)
            ==> slots.len() == tokens(text).len() && forall|i: int|
            0 <= i < slots.len() ==> !(#[trigger] slots[i] is Open),
{
    let words = tokens(text);
    let n = words.len();
    let q = Request { nodes: before.nodes, words };
    let q2 = Request { nodes: after.nodes, words };
    let slots = plan(q, codec)->Ok_0;
    let runs = open_runs(slots, 0);
    let name = tts.provider_name();
    let replies = choose|replies: Seq<Reply>| #[trigger]
        answered(tts, words, runs, voice, replies) && after == grown(
            before,
            words,
            runs,
            replies,
            voice,
            name,
            dict,
            kept(replies),
            codec,
        ) && if all_spoken(runs, replies) {
            r == finished(words, slots, spoken_audio(replies), t)
        } else {
            r == Err::<(WavView, ReportView), ErrorView>(replies.last()->Err_0)
        };
    lemma_grown(before, words, runs, replies, voice, name, dict, kept(replies), codec);
    let first = lengths_tried(q, n, codec)->Ok_0;
    lemma_same_lengths(before, after, words, n, codec);
    lemma_lengths_len(q, n, codec);
    lemma_words_tried(q, first, n, codec);
    runs_are_the_misses(slots, 0);
    if plan(q2, codec) is Ok {
        lemma_words_tried(q2, first, n, codec);
        let again = plan(q2, codec)->Ok_0;
        assert forall|i: int| 0 <= i < again.len() implies !(#[trigger] again[i] is Open) by {
            if first[i] is Open {
                lemma_matching_grows(before.nodes, after.nodes, UnitLevel::Word, words[i]);
                if word_resolved(q, i, codec) is None {
                    assert(slots[i] is Open);
                    assert(in_a_run(runs, i));
                    let j = choose|j: int|
                        0 <= j < runs.len() && (#[trigger] runs[j]).0 <= i < runs[j].1;
                    lemma_generated_words_found(
                        before,
                        words,
                        runs,
                        replies,
                        voice,
                        name,
                        dict,
                        kept(replies),
                        j,
                        i,
                        codec,
                    );
                } else if matching(before.nodes, UnitLevel::Word, words[i]).len() == 0 {
                    lemma_candidate_stays(before.nodes, after.nodes, morphemes(words[i]));
                }
            }
        }
    }
}

/// A request that has been composed once is composed again without asking any
/// provider, and the cache stays as it is.
pub proof fn repeated_requests_ask_nobody<T: TtsProvider + ?Sized, C: AudioCodec + ?Sized>(
    before: StoreView,
    between: StoreView,
    after: StoreView,
    first: core::result::Result<(WavView, ReportView), ErrorView>,
    second: core::result::Result<(WavView, ReportView), ErrorView>,
    tts: &T,
    text: Seq<char>,
    voice: Seq<char>,
    dict: Dict,
    codec: &C,
    t: Gains,
)
    requires
        composed(before, between, first, tts, text, voice, dict, codec, t),
        first is Ok,
        composed(between, after, second, tts, text, voice, dict, codec, t),
        between.nodes.len() <= u64::MAX,
    ensures
        after == between,
        second is Ok ==> second->Ok_0.1.tts_calls.len() == 0 && second->Ok_0.1.generated_chars == 0
            && second->Ok_0.1.cached_chars == second->Ok_0.1.total_chars,
{
    composed_requests_are_cached(before, between, first, tts, text, voice, dict, codec, t);
    if let Ok(slots) = plan(Request { nodes: between.nodes, words: tokens(text) }, codec) {
        cached_requests_ask_nobody(
            between,
            after,
            second,
            tts,
            text,
            voice,
            dict,
            slots,
            codec,
            t,
        );
    }
}

} // verus!
