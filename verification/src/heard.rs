//! What is heard of the units of the cache: which part of which recording a
//! piece of speech is, and in what order pieces follow one another.

use crate::audio::{sliced, spliced, splicing_fails_on_the_first_other_rate, WavView};
use crate::chain::{
    chain_audio, chain_of, chain_to, chain_tokens, diphone_unit, first_frames, first_half,
    first_tokens, phoneme_unit, second_frames, second_half, token_chain_to,
};
use crate::codec::{
    concatenated, parsed_frames_are_whole, parsed_stream, sliced_tokens, slicing_keeps_frames,
    AudioCodec,
};
use crate::compose::{cached_candidate, lemma_entries_at, phrases, Request};
use crate::edges::{
    bare_edge, built, built_edges_are_usable, chain_edge, chain_in_medium, edges_for,
    every_request_has_a_path, followed, lattice_of, occurrences, phrase_edge, phrase_edges,
    stem_edge, synth_edge, unit_edge, usable, variant_edges, word_edges, word_target, Built,
    EdgeView, Medium, Search,
};
use crate::error::ErrorView;
use crate::fade::Gains;
use crate::frac::{
    all_of_a_length, fractions_mark_their_place, lemma_frac_bound, marks, none_of_a_length, Frac,
};
use crate::g2p::{base_of, pronunciation};
use crate::lattice::chosen;
use crate::pipeline::diphone_key;
use crate::report::ReportView;
use crate::select::{
    contiguous, follows, lemma_synth_end, played, realized, selected, selection,
    selection_is_contiguous, streamed, synth_end, synth_spans,
};
use crate::speak::{
    all_spoken, answered, grown, kept, span_text, spoken_audio, Dict, Reply,
};
use crate::store::{
    audio_at, found_units_match, index_entries_are_complete, indexed, matches_base, matches_key,
    matching, matching_base, tokens_at, unit_at, NodeId, NodeView, StoreView,
};
use crate::text::{spoken, total_len};
use crate::tts::TtsProvider;
use crate::units::{morphemes, tokens, CandidateView, UnitLevel};
use vstd::prelude::*;

verus! {

// ---- parts of a recording ----

/// Whether a piece is the start of a recording, up to `num / den` of it.
pub open spec fn leads(piece: WavView, full: WavView, num: nat, den: nat) -> bool {
    &&& piece.sample_rate == full.sample_rate
    &&& exists|m: nat| #[trigger]
        marks(m, num, den, full.samples.len()) && piece.samples == full.samples.take(m as int)
}

/// Whether a piece is the rest of a recording, from `num / den` of it on.
pub open spec fn trails(piece: WavView, full: WavView, num: nat, den: nat) -> bool {
    &&& piece.sample_rate == full.sample_rate
    &&& exists|m: nat| #[trigger]
        marks(m, num, den, full.samples.len()) && piece.samples == full.samples.skip(m as int)
}

/// A recording that a wav file can hold.
pub open spec fn storable(a: WavView) -> bool {
    a.samples.len() <= 0x1_0000_0000
}

/// What is cut off at a fraction is the start of the recording, and what is
/// kept from there on is the rest.
pub proof fn cuts_keep_their_share(a: WavView, f: Frac)
    requires
        f.num <= f.den <= 0x20_0000_0000_0000,
        f.den > 0,
        storable(a),
    ensures
        leads(sliced(a, Frac { num: 0, den: 1 }, f), a, f.num as nat, f.den as nat),
        trails(sliced(a, f, Frac { num: 1, den: 1 }), a, f.num as nat, f.den as nat),
{
    let n = a.samples.len();
    let m = crate::frac::frac_of(f, n);
    none_of_a_length(n);
    all_of_a_length(n);
    fractions_mark_their_place(f, n);
    lemma_frac_bound(f, n);
    assert(sliced(a, Frac { num: 0, den: 1 }, f).samples =~= a.samples.take(m as int));
    assert(sliced(a, f, Frac { num: 1, den: 1 }).samples =~= a.samples.skip(m as int));
}

// ---- diphone chains ----

/// Whether a unit is a phoneme that sounds like `p`, apart from stress.
pub open spec fn sounds_like(nodes: Seq<NodeView>, id: NodeId, p: Seq<char>) -> bool {
    unit_at(nodes, id) matches Some(u) && u.level == UnitLevel::Phoneme && base_of(u.text)
        == base_of(p)
}

/// Whether a unit is the transition from `left` to `right`, apart from stress.
pub open spec fn bridges(
    nodes: Seq<NodeView>,
    id: NodeId,
    left: Seq<char>,
    right: Seq<char>,
) -> bool {
    unit_at(nodes, id) matches Some(u) && u.level == UnitLevel::Diphone && u.text == base_of(left)
        + seq!['+'] + base_of(right)
}

/// Whether a piece is the first half of a phoneme's recording.
pub open spec fn opens<C: AudioCodec + ?Sized>(
    nodes: Seq<NodeView>,
    id: NodeId,
    p: Seq<char>,
    piece: WavView,
    codec: &C,
) -> bool {
    &&& sounds_like(nodes, id, p)
    &&& audio_at(nodes, id, codec) matches Ok(full) && (storable(full) ==> leads(
        piece,
        full,
        1,
        2,
    ))
}

/// Whether a piece is the second half of a phoneme's recording.
pub open spec fn closes<C: AudioCodec + ?Sized>(
    nodes: Seq<NodeView>,
    id: NodeId,
    p: Seq<char>,
    piece: WavView,
    codec: &C,
) -> bool {
    &&& sounds_like(nodes, id, p)
    &&& audio_at(nodes, id, codec) matches Ok(full) && (storable(full) ==> trails(
        piece,
        full,
        1,
        2,
    ))
}

/// Whether the transition from phoneme `k - 1` to phoneme `k` stands where it
/// should: as the recording of that diphone, or, where there is none that can be
/// read, as the second half of one phoneme and the first half of the other.
pub open spec fn crossed<C: AudioCodec + ?Sized>(
    nodes: Seq<NodeView>,
    ps: Seq<Seq<char>>,
    pieces: Seq<WavView>,
    at: Seq<int>,
    ids: Seq<NodeId>,
    k: int,
    codec: &C,
) -> bool {
    ||| {
        &&& at[k + 1] == at[k] + 1
        &&& bridges(nodes, ids[2 * k - at[k]], ps[k - 1], ps[k])
        &&& audio_at(nodes, ids[2 * k - at[k]], codec) == Ok::<WavView, ErrorView>(pieces[at[k]])
    }
    ||| {
        &&& at[k + 1] == at[k] + 2
        &&& forall|id: NodeId| #[trigger]
            bridges(nodes, id, ps[k - 1], ps[k]) ==> exists|other: NodeId| #[trigger]
                bridges(nodes, other, ps[k - 1], ps[k]) && audio_at(nodes, other, codec) is Err
        &&& exists|l: NodeId| #[trigger] closes(nodes, l, ps[k - 1], pieces[at[k]], codec)
        &&& exists|r: NodeId| #[trigger] opens(nodes, r, ps[k], pieces[at[k] + 1], codec)
    }
}

/// Whether pieces say phonemes in speaking order: the first half of the first
/// phoneme, every transition from one to the next, and the second half of the
/// last. Transition `k` starts at piece `at[k]`; units go with the pieces, but
/// for the halves that stand in for a transition.
pub open spec fn in_speaking_order<C: AudioCodec + ?Sized>(
    nodes: Seq<NodeView>,
    ps: Seq<Seq<char>>,
    pieces: Seq<WavView>,
    at: Seq<int>,
    ids: Seq<NodeId>,
    codec: &C,
) -> bool {
    let n = ps.len() as int;
    &&& n > 0
    &&& at.len() == n + 1
    &&& at[0] == 0
    &&& at[1] == 1
    &&& pieces.len() == at[n] + 1
    &&& ids.len() == 2 * n - at[n] + 1
    &&& opens(nodes, ids[0], ps[0], pieces[0], codec)
    &&& forall|k: int| 1 <= k < n ==> #[trigger] crossed(nodes, ps, pieces, at, ids, k, codec)
    &&& closes(nodes, ids.last(), ps.last(), pieces.last(), codec)
}

proof fn lemma_base_found(nodes: Seq<NodeView>, base: Seq<char>)
    requires
        nodes.len() <= u64::MAX,
    ensures
        forall|i: int|
            0 <= i < matching_base(nodes, base).len() ==> (#[trigger] matching_base(
                nodes,
                base,
            )[i]).0 < nodes.len() && matches_base(
                nodes,
                matching_base(nodes, base)[i].0 as int,
                base,
            ),
    decreases nodes.len(),
{
    if nodes.len() > 0 {
        let init = nodes.drop_last();
        lemma_base_found(init, base);
        let before = matching_base(init, base);
        let ids = matching_base(nodes, base);
        assert forall|i: int| 0 <= i < ids.len() implies (#[trigger] ids[i]).0 < nodes.len()
            && matches_base(nodes, ids[i].0 as int, base) by {
            if i < before.len() {
                assert(ids[i] == before[i]);
                assert(init[ids[i].0 as int] == nodes[ids[i].0 as int]);
            }
        }
    }
}

/// A phoneme that was found, and its halves.
proof fn lemma_halves<C: AudioCodec + ?Sized>(nodes: Seq<NodeView>, p: Seq<char>, codec: &C)
    requires
        nodes.len() <= u64::MAX,
        phoneme_unit(nodes, base_of(p), codec) is Some,
    ensures
        ({
            let (id, a) = phoneme_unit(nodes, base_of(p), codec)->Some_0;
            opens(nodes, id, p, first_half(a), codec) && closes(
                nodes,
                id,
                p,
                second_half(a),
                codec,
            )
        }),
{
    let (id, a) = phoneme_unit(nodes, base_of(p), codec)->Some_0;
    lemma_base_found(nodes, base_of(p));
    assert(id == matching_base(nodes, base_of(p))[0]);
    if storable(a) {
        cuts_keep_their_share(a, Frac { num: 1, den: 2 });
    }
}

proof fn lemma_plus_sign(left: Seq<char>, right: Seq<char>)
    ensures
        diphone_key(left, right) == base_of(left) + seq!['+'] + base_of(right),
{
    reveal_strlit("+");
    assert("+"@ =~= seq!['+']);
}

/// A diphone that was found, or why none was.
proof fn lemma_bridge<C: AudioCodec + ?Sized>(
    nodes: Seq<NodeView>,
    left: Seq<char>,
    right: Seq<char>,
    codec: &C,
)
    requires
        nodes.len() <= u64::MAX,
    ensures
        match diphone_unit(nodes, diphone_key(left, right), codec) {
            Some((id, a)) => bridges(nodes, id, left, right) && audio_at(nodes, id, codec) == Ok::<
                WavView,
                ErrorView,
            >(a),
            None => forall|id: NodeId| #[trigger]
                bridges(nodes, id, left, right) ==> exists|other: NodeId| #[trigger]
                    bridges(nodes, other, left, right) && audio_at(nodes, other, codec) is Err,
        },
{
    let key = diphone_key(left, right);
    lemma_plus_sign(left, right);
    found_units_match(nodes, UnitLevel::Diphone, key);
    let ids = matching(nodes, UnitLevel::Diphone, key);
    if ids.len() > 0 {
        assert(matches_key(nodes, ids[0].0 as int, UnitLevel::Diphone, key));
        assert(bridges(nodes, ids[0], left, right));
    }
    if diphone_unit(nodes, key, codec) is None {
        assert forall|id: NodeId| #[trigger] bridges(nodes, id, left, right) implies exists|
            other: NodeId,
        | #[trigger]
            bridges(nodes, other, left, right) && audio_at(nodes, other, codec) is Err by {
            crate::laws::matching_units_are_found(nodes, id.0 as int, UnitLevel::Diphone, key);
            assert(ids.len() > 0);
            assert(bridges(nodes, ids[0], left, right) && audio_at(nodes, ids[0], codec) is Err);
        }
    }
}

/// The places of the transitions in a chain up to the middle of phoneme `j`.
#[verifier::rlimit(60)]
#[verifier::spinoff_prover]
proof fn lemma_chain_places<C: AudioCodec + ?Sized>(
    nodes: Seq<NodeView>,
    ps: Seq<Seq<char>>,
    j: nat,
    codec: &C,
) -> (at: Seq<int>)
    requires
        nodes.len() <= u64::MAX,
        j < ps.len(),
        chain_to(nodes, ps, j, codec) is Some,
    ensures
        ({
            let c = chain_to(nodes, ps, j, codec)->Some_0;
            &&& at.len() == j + 2
            &&& at[0] == 0
            &&& at[1] == 1
            &&& c.pieces.len() == at[j as int + 1]
            &&& c.gaps == at[j as int + 1] - (j + 1)
            &&& c.nodes.len() == 2 * (j + 1) - at[j as int + 1]
            &&& opens(nodes, c.nodes[0], ps[0], c.pieces[0], codec)
            &&& forall|k: int|
                1 <= k <= j ==> #[trigger] crossed(nodes, ps, c.pieces, at, c.nodes, k, codec)
            &&& forall|k: int|
                0 <= k <= j ==> (#[trigger] at[k]) < c.pieces.len() && 0 <= at[k] && 2 * k - at[k]
                    <= c.nodes.len() && 2 * k - at[k] >= 0
            &&& c.nodes.len() > 0
        }),
    decreases j,
{
    let c = chain_to(nodes, ps, j, codec)->Some_0;
    if j == 0 {
        lemma_halves(nodes, ps[0], codec);
        seq![0int, 1]
    } else {
        let b = chain_to(nodes, ps, (j - 1) as nat, codec)->Some_0;
        let before = lemma_chain_places(nodes, ps, (j - 1) as nat, codec);
        lemma_bridge(nodes, ps[j - 1], ps[j as int], codec);
        let step: int = if diphone_unit(
            nodes,
            diphone_key(ps[j - 1], ps[j as int]),
            codec,
        ) is Some {
            1
        } else {
            lemma_halves(nodes, ps[j - 1], codec);
            lemma_halves(nodes, ps[j as int], codec);
            2
        };
        let at = before.push(before[j as int] + step);
        assert(c.pieces.len() == b.pieces.len() + step);
        assert(opens(nodes, b.nodes[0], ps[0], b.pieces[0], codec));
        assert(c.nodes[0] == b.nodes[0] && c.pieces[0] == b.pieces[0]);
        assert forall|k: int| 1 <= k <= j implies #[trigger] crossed(
            nodes,
            ps,
            c.pieces,
            at,
            c.nodes,
            k,
            codec,
        ) by {
            if k < j {
                assert(crossed(nodes, ps, b.pieces, before, b.nodes, k, codec));
                assert(0 <= before[k] < b.pieces.len());
                assert(before[k + 1] <= b.pieces.len()) by {
                    if k + 1 <= j - 1 {
                        assert(before[k + 1] < b.pieces.len());
                    }
                }
                assert(c.pieces[before[k]] == b.pieces[before[k]]);
                if before[k + 1] == before[k] + 2 {
                    assert(c.pieces[before[k] + 1] == b.pieces[before[k] + 1]);
                } else {
                    assert(2 * (k + 1) - before[k + 1] <= b.nodes.len()) by {
                        if k + 1 <= j - 1 {
                            assert(before[k + 1] < b.pieces.len());
                        }
                    }
                    assert(c.nodes[2 * k - before[k]] == b.nodes[2 * k - before[k]]);
                }
            } else if step == 1 {
                assert(c.nodes[2 * k - at[k]] == c.nodes.last());
                assert(c.pieces[at[k]] == c.pieces.last());
            } else {
                let l = phoneme_unit(nodes, base_of(ps[j - 1]), codec)->Some_0;
                let r = phoneme_unit(nodes, base_of(ps[j as int]), codec)->Some_0;
                assert(c.pieces[at[k]] == second_half(l.1));
                assert(c.pieces[at[k] + 1] == first_half(r.1));
                assert(closes(nodes, l.0, ps[k - 1], c.pieces[at[k]], codec));
                assert(opens(nodes, r.0, ps[k], c.pieces[at[k] + 1], codec));
            }
        }
        assert forall|k: int| 0 <= k <= j implies (#[trigger] at[k]) < c.pieces.len() && 0 <= at[k]
            && 2 * k - at[k] <= c.nodes.len() && 2 * k - at[k] >= 0 by {
            if k < j {
                assert(at[k] == before[k]);
            }
        }
        at
    }
}

/// A word assembled from diphones is heard in speaking order: the first half of
/// its first phoneme, the transition from each phoneme to the next, and the
/// second half of its last phoneme. The gaps are the transitions for which halves
/// of phonemes stand in.
pub proof fn chains_speak_in_order<C: AudioCodec + ?Sized>(
    nodes: Seq<NodeView>,
    ps: Seq<Seq<char>>,
    codec: &C,
    t: Gains,
)
    requires
        nodes.len() <= u64::MAX,
        chain_audio(nodes, ps, codec, t) is Some,
    ensures
        ({
            let (audio, gaps, ids) = chain_audio(nodes, ps, codec, t)->Some_0;
            exists|pieces: Seq<WavView>, at: Seq<int>|
                {
                    &&& #[trigger] in_speaking_order(nodes, ps, pieces, at, ids, codec)
                    &&& gaps == at[ps.len() as int] - ps.len()
                    &&& spliced(pieces, 2, t) == Ok::<WavView, ErrorView>(audio)
                }
        }),
{
    let (audio, gaps, ids) = chain_audio(nodes, ps, codec, t)->Some_0;
    let n = ps.len() as int;
    let c = chain_to(nodes, ps, (n - 1) as nat, codec)->Some_0;
    let at = lemma_chain_places(nodes, ps, (n - 1) as nat, codec);
    lemma_halves(nodes, ps.last(), codec);
    let whole = chain_of(nodes, ps, codec)->Some_0;
    let pieces = whole.pieces;
    assert(opens(nodes, c.nodes[0], ps[0], c.pieces[0], codec));
    assert(ids[0] == c.nodes[0] && pieces[0] == c.pieces[0]);
    assert forall|k: int| 1 <= k < n implies #[trigger] crossed(
        nodes,
        ps,
        pieces,
        at,
        ids,
        k,
        codec,
    ) by {
        assert(crossed(nodes, ps, c.pieces, at, c.nodes, k, codec));
        assert(0 <= at[k] < c.pieces.len());
        assert(at[k + 1] <= c.pieces.len()) by {
            if k + 1 < n {
                assert(at[k + 1] < c.pieces.len());
            }
        }
        assert(pieces[at[k]] == c.pieces[at[k]]);
        if at[k + 1] == at[k] + 2 {
            assert(pieces[at[k] + 1] == c.pieces[at[k] + 1]);
        } else {
            assert(2 * (k + 1) - at[k + 1] <= c.nodes.len()) by {
                if k + 1 < n {
                    assert(at[k + 1] < c.pieces.len());
                }
            }
            assert(ids[2 * k - at[k]] == c.nodes[2 * k - at[k]]);
        }
    }
    assert(in_speaking_order(nodes, ps, pieces, at, ids, codec));
}

proof fn lemma_base_complete(nodes: Seq<NodeView>, i: int, base: Seq<char>)
    requires
        0 <= i < nodes.len(),
        matches_base(nodes, i, base),
    ensures
        matching_base(nodes, base).len() > 0,
    decreases nodes.len(),
{
    if i < nodes.len() - 1 {
        let init = nodes.drop_last();
        assert(init[i] == nodes[i]);
        lemma_base_complete(init, i, base);
    }
}

/// Whether a phoneme is cached.
pub open spec fn is_heard(nodes: Seq<NodeView>, p: Seq<char>) -> bool {
    exists|id: NodeId| sounds_like(nodes, id, p)
}

/// Whether the transition into phoneme `k` is cached.
pub open spec fn is_bridged(nodes: Seq<NodeView>, ps: Seq<Seq<char>>, k: int) -> bool {
    exists|id: NodeId| #[trigger] bridges(nodes, id, ps[k - 1], ps[k])
}

/// Whether all phonemes and diphones can be read, at one rate.
pub open spec fn sounds_can_be_read<C: AudioCodec + ?Sized>(
    nodes: Seq<NodeView>,
    rate: u32,
    codec: &C,
) -> bool {
    forall|id: NodeId|
        (#[trigger] unit_at(nodes, id) matches Some(u) && (u.level == UnitLevel::Phoneme || u.level
            == UnitLevel::Diphone)) ==> (audio_at(nodes, id, codec) matches Ok(a) && a.sample_rate
            == rate)
}

proof fn lemma_phoneme_read<C: AudioCodec + ?Sized>(
    nodes: Seq<NodeView>,
    p: Seq<char>,
    rate: u32,
    codec: &C,
)
    requires
        nodes.len() <= u64::MAX,
        sounds_can_be_read(nodes, rate, codec),
        is_heard(nodes, p),
    ensures
        phoneme_unit(nodes, base_of(p), codec) matches Some((id, a)) && a.sample_rate == rate,
{
    let id = choose|id: NodeId| sounds_like(nodes, id, p);
    lemma_base_complete(nodes, id.0 as int, base_of(p));
    lemma_base_found(nodes, base_of(p));
    let first = matching_base(nodes, base_of(p))[0];
    assert(matches_base(nodes, first.0 as int, base_of(p)));
    assert(unit_at(nodes, first) is Some);
}

proof fn lemma_chain_read<C: AudioCodec + ?Sized>(
    nodes: Seq<NodeView>,
    ps: Seq<Seq<char>>,
    j: nat,
    rate: u32,
    codec: &C,
)
    requires
        nodes.len() <= u64::MAX,
        j < ps.len(),
        sounds_can_be_read(nodes, rate, codec),
        forall|k: int|
            0 <= k < ps.len() ==> is_heard(nodes, #[trigger] ps[k]),
    ensures
        chain_to(nodes, ps, j, codec) matches Some(c) && forall|i: int|
            0 <= i < c.pieces.len() ==> (#[trigger] c.pieces[i]).sample_rate == rate,
    decreases j,
{
    lemma_phoneme_read(nodes, ps[j as int], rate, codec);
    if j > 0 {
        lemma_chain_read(nodes, ps, (j - 1) as nat, rate, codec);
        lemma_phoneme_read(nodes, ps[j - 1], rate, codec);
        lemma_bridge(nodes, ps[j - 1], ps[j as int], codec);
        if let Some((id, _)) = diphone_unit(
            nodes,
            diphone_key(ps[j - 1], ps[j as int]),
            codec,
        ) {
            assert(unit_at(nodes, id) is Some);
        }
    }
}

/// A word is assembled from diphones wherever all its phonemes are cached, and
/// without a gap where all its transitions are cached as well: its units are then
/// the first phoneme, the transitions, and the last phoneme.
pub proof fn cached_sounds_are_chained<C: AudioCodec + ?Sized>(
    nodes: Seq<NodeView>,
    ps: Seq<Seq<char>>,
    rate: u32,
    codec: &C,
    t: Gains,
)
    requires
        nodes.len() <= u64::MAX,
        ps.len() > 0,
        sounds_can_be_read(nodes, rate, codec),
        forall|k: int|
            0 <= k < ps.len() ==> is_heard(nodes, #[trigger] ps[k]),
    ensures
        chain_audio(nodes, ps, codec, t) matches Some((audio, gaps, ids)) && {
            &&& audio.sample_rate == rate
            &&& (forall|k: int|
                1 <= k < ps.len() ==> #[trigger] is_bridged(nodes, ps, k)) ==> gaps == 0 && ids.len()
                == ps.len() + 1 && forall|k: int|
                1 <= k < ps.len() ==> bridges(nodes, #[trigger] ids[k], ps[k - 1], ps[k])
        },
{
    let n = ps.len() as int;
    lemma_chain_read(nodes, ps, (n - 1) as nat, rate, codec);
    lemma_phoneme_read(nodes, ps.last(), rate, codec);
    let c = chain_of(nodes, ps, codec)->Some_0;
    splicing_fails_on_the_first_other_rate(c.pieces, c.pieces.len() as int, 2, t);
    if forall|k: int|
        1 <= k < ps.len() ==> #[trigger] is_bridged(nodes, ps, k) {
        chains_speak_in_order(nodes, ps, codec, t);
        let (audio, gaps, ids) = chain_audio(nodes, ps, codec, t)->Some_0;
        let (pieces, at) = choose|pieces: Seq<WavView>, at: Seq<int>|
            {
                &&& #[trigger] in_speaking_order(nodes, ps, pieces, at, ids, codec)
                &&& gaps == at[n] - n
                &&& spliced(pieces, 2, t) == Ok::<WavView, ErrorView>(audio)
            };
        lemma_no_gaps(nodes, ps, pieces, at, ids, n, rate, codec);
        assert forall|k: int| 1 <= k < n implies bridges(
            nodes,
            #[trigger] ids[k],
            ps[k - 1],
            ps[k],
        ) by {
            lemma_no_gaps(nodes, ps, pieces, at, ids, k, rate, codec);
            lemma_no_gaps(nodes, ps, pieces, at, ids, k + 1, rate, codec);
            assert(crossed(nodes, ps, pieces, at, ids, k, codec));
        }
    }
}

proof fn lemma_no_gaps<C: AudioCodec + ?Sized>(
    nodes: Seq<NodeView>,
    ps: Seq<Seq<char>>,
    pieces: Seq<WavView>,
    at: Seq<int>,
    ids: Seq<NodeId>,
    k: int,
    rate: u32,
    codec: &C,
)
    requires
        sounds_can_be_read(nodes, rate, codec),
        in_speaking_order(nodes, ps, pieces, at, ids, codec),
        forall|k: int|
            1 <= k < ps.len() ==> #[trigger] is_bridged(nodes, ps, k),
        1 <= k <= ps.len(),
    ensures
        at[k] == k,
    decreases k,
{
    if k > 1 {
        lemma_no_gaps(nodes, ps, pieces, at, ids, k - 1, rate, codec);
        assert(crossed(nodes, ps, pieces, at, ids, k - 1, codec));
        assert(is_bridged(nodes, ps, k - 1));
        let id = choose|id: NodeId| #[trigger] bridges(nodes, id, ps[k - 2], ps[k - 1]);
        if at[k] == at[k - 1] + 2 {
            assert(bridges(nodes, id, ps[k - 2], ps[k - 1]));
            let other = choose|other: NodeId| #[trigger]
                bridges(nodes, other, ps[k - 2], ps[k - 1]) && audio_at(
                    nodes,
                    other,
                    codec,
                ) is Err;
            assert(unit_at(nodes, other) is Some);
        }
    }
}

// ---- diphone chains in tokens ----

/// Whether a stream holds the first frames of another, up to `num / den` of them.
pub open spec fn leads_in(piece: Seq<u8>, full: Seq<u8>, num: nat, den: nat) -> bool {
    &&& parsed_stream(full) matches Ok(v) && parsed_stream(piece) matches Ok(c) && c.sample_rate
        == v.sample_rate && exists|m: nat| #[trigger]
        marks(m, num, den, v.frames.len()) && c.frames == v.frames.take(m as int)
            && c.orig_samples == m * 320 % 0x1_0000_0000
}

/// Whether a stream holds the frames of another from `num / den` of them on.
pub open spec fn trails_in(piece: Seq<u8>, full: Seq<u8>, num: nat, den: nat) -> bool {
    &&& parsed_stream(full) matches Ok(v) && parsed_stream(piece) matches Ok(c) && c.sample_rate
        == v.sample_rate && exists|m: nat| #[trigger]
        marks(m, num, den, v.frames.len()) && c.frames == v.frames.skip(m as int)
            && c.orig_samples == (v.frames.len() - m) * 320 % 0x1_0000_0000
}

/// A stream that is cut at a fraction gives its first frames, and the rest.
pub proof fn token_cuts_keep_their_share(t: Seq<u8>, f: Frac)
    requires
        f.num <= f.den <= 0x20_0000_0000_0000,
        f.den > 0,
        parsed_stream(t) is Ok,
    ensures
        sliced_tokens(t, Frac { num: 0, den: 1 }, f) matches Ok(a) && leads_in(
            a,
            t,
            f.num as nat,
            f.den as nat,
        ),
        sliced_tokens(t, f, Frac { num: 1, den: 1 }) matches Ok(b) && trails_in(
            b,
            t,
            f.num as nat,
            f.den as nat,
        ),
{
    let v = parsed_stream(t)->Ok_0;
    let n = v.frames.len();
    parsed_frames_are_whole(t);
    let m = crate::frac::frac_of(f, n);
    none_of_a_length(n);
    all_of_a_length(n);
    fractions_mark_their_place(f, n);
    lemma_frac_bound(f, n);
    slicing_keeps_frames(t, Frac { num: 0, den: 1 }, f);
    slicing_keeps_frames(t, f, Frac { num: 1, den: 1 });
    let a = sliced_tokens(t, Frac { num: 0, den: 1 }, f)->Ok_0;
    let b = sliced_tokens(t, f, Frac { num: 1, den: 1 })->Ok_0;
    assert(parsed_stream(a)->Ok_0.frames =~= v.frames.take(m as int));
    assert(parsed_stream(b)->Ok_0.frames =~= v.frames.skip(m as int));
}

/// Whether a piece is the first half of a phoneme's frames.
pub open spec fn opens_tokens(
    nodes: Seq<NodeView>,
    id: NodeId,
    p: Seq<char>,
    piece: Seq<u8>,
) -> bool {
    sounds_like(nodes, id, p) && (tokens_at(nodes, id) matches Ok(full) && leads_in(
        piece,
        full,
        1,
        2,
    ))
}

/// Whether a piece is the second half of a phoneme's frames.
pub open spec fn closes_tokens(
    nodes: Seq<NodeView>,
    id: NodeId,
    p: Seq<char>,
    piece: Seq<u8>,
) -> bool {
    sounds_like(nodes, id, p) && (tokens_at(nodes, id) matches Ok(full) && trails_in(
        piece,
        full,
        1,
        2,
    ))
}

/// Whether the transition from phoneme `k - 1` to phoneme `k` stands where it
/// should in tokens: as the stream of that diphone, or, where there is none, as the
/// second half of one phoneme and the first half of the other.
pub open spec fn crossed_in_tokens(
    nodes: Seq<NodeView>,
    ps: Seq<Seq<char>>,
    pieces: Seq<Seq<u8>>,
    at: Seq<int>,
    ids: Seq<NodeId>,
    k: int,
) -> bool {
    ||| {
        &&& at[k + 1] == at[k] + 1
        &&& bridges(nodes, ids[2 * k - at[k]], ps[k - 1], ps[k])
        &&& tokens_at(nodes, ids[2 * k - at[k]]) == Ok::<Seq<u8>, ErrorView>(pieces[at[k]])
    }
    ||| {
        &&& at[k + 1] == at[k] + 2
        &&& forall|id: NodeId| #[trigger]
            bridges(nodes, id, ps[k - 1], ps[k]) ==> exists|other: NodeId| #[trigger]
                bridges(nodes, other, ps[k - 1], ps[k]) && tokens_at(nodes, other) is Err
        &&& exists|l: NodeId| #[trigger] closes_tokens(nodes, l, ps[k - 1], pieces[at[k]])
        &&& exists|r: NodeId| #[trigger] opens_tokens(nodes, r, ps[k], pieces[at[k] + 1])
    }
}

/// Whether streams say phonemes in speaking order: the first half of the first
/// phoneme, every transition from one to the next, and the second half of the
/// last. Transition `k` starts at piece `at[k]`; units go with the pieces, but
/// for the halves that stand in for a transition.
pub open spec fn in_token_order(
    nodes: Seq<NodeView>,
    ps: Seq<Seq<char>>,
    pieces: Seq<Seq<u8>>,
    at: Seq<int>,
    ids: Seq<NodeId>,
) -> bool {
    let n = ps.len() as int;
    &&& n > 0
    &&& at.len() == n + 1
    &&& at[0] == 0
    &&& at[1] == 1
    &&& pieces.len() == at[n] + 1
    &&& ids.len() == 2 * n - at[n] + 1
    &&& opens_tokens(nodes, ids[0], ps[0], pieces[0])
    &&& forall|k: int| 1 <= k < n ==> #[trigger] crossed_in_tokens(nodes, ps, pieces, at, ids, k)
    &&& closes_tokens(nodes, ids.last(), ps.last(), pieces.last())
}

/// The tokens of a phoneme that was found, and their halves.
proof fn lemma_token_halves(nodes: Seq<NodeView>, p: Seq<char>)
    requires
        nodes.len() <= u64::MAX,
        first_tokens(nodes, matching_base(nodes, base_of(p))) is Some,
    ensures
        ({
            let (id, t) = first_tokens(nodes, matching_base(nodes, base_of(p)))->Some_0;
            &&& first_frames(t) matches Ok(a) ==> opens_tokens(nodes, id, p, a)
            &&& second_frames(t) matches Ok(b) ==> closes_tokens(nodes, id, p, b)
        }),
{
    let (id, t) = first_tokens(nodes, matching_base(nodes, base_of(p)))->Some_0;
    lemma_base_found(nodes, base_of(p));
    assert(id == matching_base(nodes, base_of(p))[0]);
    if parsed_stream(t) is Ok {
        token_cuts_keep_their_share(t, Frac { num: 1, den: 2 });
    }
}

/// The tokens of a diphone that was found, or why none were.
proof fn lemma_token_bridge(
    nodes: Seq<NodeView>,
    left: Seq<char>,
    right: Seq<char>,
)
    requires
        nodes.len() <= u64::MAX,
    ensures
        match first_tokens(nodes, matching(nodes, UnitLevel::Diphone, diphone_key(left, right))) {
            Some((id, a)) => bridges(nodes, id, left, right) && tokens_at(nodes, id) == Ok::<
                Seq<u8>,
                ErrorView,
            >(a),
            None => forall|id: NodeId| #[trigger]
                bridges(nodes, id, left, right) ==> exists|other: NodeId| #[trigger]
                    bridges(nodes, other, left, right) && tokens_at(nodes, other) is Err,
        },
{
    let key = diphone_key(left, right);
    lemma_plus_sign(left, right);
    found_units_match(nodes, UnitLevel::Diphone, key);
    let ids = matching(nodes, UnitLevel::Diphone, key);
    if ids.len() > 0 {
        assert(matches_key(nodes, ids[0].0 as int, UnitLevel::Diphone, key));
        assert(bridges(nodes, ids[0], left, right));
    }
    if first_tokens(nodes, matching(nodes, UnitLevel::Diphone, key)) is None {
        assert forall|id: NodeId| #[trigger] bridges(nodes, id, left, right) implies exists|
            other: NodeId,
        | #[trigger]
            bridges(nodes, other, left, right) && tokens_at(nodes, other) is Err by {
            crate::laws::matching_units_are_found(nodes, id.0 as int, UnitLevel::Diphone, key);
            assert(ids.len() > 0);
            assert(bridges(nodes, ids[0], left, right) && tokens_at(nodes, ids[0]) is Err);
        }
    }
}

/// The places of the transitions in a token chain up to the middle of phoneme `j`.
#[verifier::rlimit(60)]
#[verifier::spinoff_prover]
proof fn lemma_token_places(
    nodes: Seq<NodeView>,
    ps: Seq<Seq<char>>,
    j: nat,
) -> (at: Seq<int>)
    requires
        nodes.len() <= u64::MAX,
        j < ps.len(),
        token_chain_to(nodes, ps, j) is Some,
    ensures
        ({
            let c = token_chain_to(nodes, ps, j)->Some_0;
            &&& at.len() == j + 2
            &&& at[0] == 0
            &&& at[1] == 1
            &&& c.pieces.len() == at[j as int + 1]
            &&& c.gaps == at[j as int + 1] - (j + 1)
            &&& c.nodes.len() == 2 * (j + 1) - at[j as int + 1]
            &&& opens_tokens(nodes, c.nodes[0], ps[0], c.pieces[0])
            &&& forall|k: int|
                1 <= k <= j ==> #[trigger] crossed_in_tokens(nodes, ps, c.pieces, at, c.nodes, k)
            &&& forall|k: int|
                0 <= k <= j ==> (#[trigger] at[k]) < c.pieces.len() && 0 <= at[k] && 2 * k - at[k]
                    <= c.nodes.len() && 2 * k - at[k] >= 0
            &&& c.nodes.len() > 0
        }),
    decreases j,
{
    let c = token_chain_to(nodes, ps, j)->Some_0;
    if j == 0 {
        lemma_token_halves(nodes, ps[0]);
        seq![0int, 1]
    } else {
        let b = token_chain_to(nodes, ps, (j - 1) as nat)->Some_0;
        let before = lemma_token_places(nodes, ps, (j - 1) as nat);
        lemma_token_bridge(nodes, ps[j - 1], ps[j as int]);
        let step: int = if first_tokens(
            nodes,
            matching(nodes, UnitLevel::Diphone, diphone_key(ps[j - 1], ps[j as int])),
        ) is Some {
            1
        } else {
            lemma_token_halves(nodes, ps[j - 1]);
            lemma_token_halves(nodes, ps[j as int]);
            2
        };
        let at = before.push(before[j as int] + step);
        assert(c.pieces.len() == b.pieces.len() + step);
        assert(opens_tokens(nodes, b.nodes[0], ps[0], b.pieces[0]));
        assert(c.nodes[0] == b.nodes[0] && c.pieces[0] == b.pieces[0]);
        assert forall|k: int| 1 <= k <= j implies #[trigger] crossed_in_tokens(
            nodes,
            ps,
            c.pieces,
            at,
            c.nodes,
            k,
        ) by {
            if k < j {
                assert(crossed_in_tokens(nodes, ps, b.pieces, before, b.nodes, k));
                assert(0 <= before[k] < b.pieces.len());
                assert(before[k + 1] <= b.pieces.len()) by {
                    if k + 1 <= j - 1 {
                        assert(before[k + 1] < b.pieces.len());
                    }
                }
                assert(c.pieces[before[k]] == b.pieces[before[k]]);
                if before[k + 1] == before[k] + 2 {
                    assert(c.pieces[before[k] + 1] == b.pieces[before[k] + 1]);
                } else {
                    assert(2 * (k + 1) - before[k + 1] <= b.nodes.len()) by {
                        if k + 1 <= j - 1 {
                            assert(before[k + 1] < b.pieces.len());
                        }
                    }
                    assert(c.nodes[2 * k - before[k]] == b.nodes[2 * k - before[k]]);
                }
            } else if step == 1 {
                assert(c.nodes[2 * k - at[k]] == c.nodes.last());
                assert(c.pieces[at[k]] == c.pieces.last());
            } else {
                let l = first_tokens(nodes, matching_base(nodes, base_of(ps[j - 1])))->Some_0;
                let r = first_tokens(nodes, matching_base(nodes, base_of(ps[j as int])))->Some_0;
                assert(c.pieces[at[k]] == second_frames(l.1)->Ok_0);
                assert(c.pieces[at[k] + 1] == first_frames(r.1)->Ok_0);
                assert(closes_tokens(nodes, l.0, ps[k - 1], c.pieces[at[k]]));
                assert(opens_tokens(nodes, r.0, ps[k], c.pieces[at[k] + 1]));
            }
        }
        assert forall|k: int| 0 <= k <= j implies (#[trigger] at[k]) < c.pieces.len() && 0 <= at[k]
            && 2 * k - at[k] <= c.nodes.len() && 2 * k - at[k] >= 0 by {
            if k < j {
                assert(at[k] == before[k]);
            }
        }
        at
    }
}

/// A word assembled from the tokens of diphones is said in speaking order: the
/// frames of the first half of its first phoneme, of the transition from each
/// phoneme to the next, and of the second half of its last phoneme.
pub proof fn token_chains_speak_in_order(
    nodes: Seq<NodeView>,
    ps: Seq<Seq<char>>,
)
    requires
        nodes.len() <= u64::MAX,
        chain_tokens(nodes, ps) is Some,
    ensures
        ({
            let (stream, gaps, ids) = chain_tokens(nodes, ps)->Some_0;
            exists|pieces: Seq<Seq<u8>>, at: Seq<int>|
                {
                    &&& #[trigger] in_token_order(nodes, ps, pieces, at, ids)
                    &&& gaps == at[ps.len() as int] - ps.len()
                    &&& concatenated(pieces) == Ok::<Seq<u8>, ErrorView>(stream)
                }
        }),
{
    let (stream, gaps, ids) = chain_tokens(nodes, ps)->Some_0;
    let n = ps.len() as int;
    let c = token_chain_to(nodes, ps, (n - 1) as nat)->Some_0;
    let at = lemma_token_places(nodes, ps, (n - 1) as nat);
    lemma_token_halves(nodes, ps.last());
    let last = first_tokens(nodes, matching_base(nodes, base_of(ps.last())))->Some_0;
    let pieces = c.pieces.push(second_frames(last.1)->Ok_0);
    assert(opens_tokens(nodes, c.nodes[0], ps[0], c.pieces[0]));
    assert(ids[0] == c.nodes[0] && pieces[0] == c.pieces[0]);
    assert forall|k: int| 1 <= k < n implies #[trigger] crossed_in_tokens(
        nodes,
        ps,
        pieces,
        at,
        ids,
        k,
    ) by {
        assert(crossed_in_tokens(nodes, ps, c.pieces, at, c.nodes, k));
        assert(0 <= at[k] < c.pieces.len());
        assert(at[k + 1] <= c.pieces.len()) by {
            if k + 1 < n {
                assert(at[k + 1] < c.pieces.len());
            }
        }
        assert(pieces[at[k]] == c.pieces[at[k]]);
        if at[k + 1] == at[k] + 2 {
            assert(pieces[at[k] + 1] == c.pieces[at[k] + 1]);
        } else {
            assert(2 * (k + 1) - at[k + 1] <= c.nodes.len()) by {
                if k + 1 < n {
                    assert(at[k + 1] < c.pieces.len());
                }
            }
            assert(ids[2 * k - at[k]] == c.nodes[2 * k - at[k]]);
        }
    }
    assert(in_token_order(nodes, ps, pieces, at, ids));
}

// ---- candidates of a search ----

/// Whether a unit has a level and a text.
pub open spec fn says(nodes: Seq<NodeView>, id: NodeId, level: UnitLevel, text: Seq<char>) -> bool {
    unit_at(nodes, id) matches Some(u) && u.level == level && u.text == text
}

/// The token stream of a unit: the one that is kept, or else its audio encoded.
pub open spec fn stream_of<C: AudioCodec + ?Sized>(
    nodes: Seq<NodeView>,
    id: NodeId,
    audio: WavView,
    codec: &C,
) -> Seq<u8> {
    match tokens_at(nodes, id) {
        Ok(t) => t,
        Err(_) => codec.encoded(audio),
    }
}

/// Whether an edge carries the whole recording of a unit.
pub open spec fn carries<C: AudioCodec + ?Sized>(
    x: Search,
    e: EdgeView,
    id: NodeId,
    codec: &C,
) -> bool {
    &&& e.audio matches Some(a) && audio_at(x.q.nodes, id, codec) == Ok::<WavView, ErrorView>(a) && (
    x.medium == Medium::Tokens ==> e.tokens == Some(stream_of(x.q.nodes, id, a, codec)))
}

/// Whether a longer word starts with a stem, apart from a final "e".
pub open spec fn starts_with_stem(stem: Seq<char>, word: Seq<char>) -> bool {
    &&& stem.len() <= word.len()
    &&& word.take(stem.len() as int) == stem || (stem.len() > 1 && stem.last() == 'e' && word.take(
        stem.len() - 1,
    ) == stem.drop_last())
}

/// Whether an edge carries the part of a longer word's recording that stands for
/// a stem: as much of its start as the stem has of its characters, or what
/// follows the two characters of "un". Tokens are cut in the same place.
pub open spec fn carries_stem<C: AudioCodec + ?Sized>(
    x: Search,
    e: EdgeView,
    id: NodeId,
    stem: Seq<char>,
    codec: &C,
) -> bool {
    &&& unit_at(x.q.nodes, id) matches Some(u) && audio_at(x.q.nodes, id, codec) matches Ok(full)
        && e.audio matches Some(a) && ({
        let n = u.text.len();
        let s = stream_of(x.q.nodes, id, full, codec);
        ||| {
            &&& starts_with_stem(stem, u.text)
            &&& storable(full) ==> leads(a, full, stem.len(), n)
            &&& x.medium == Medium::Tokens ==> (e.tokens matches Some(t) && leads_in(
                t,
                s,
                stem.len(),
                n,
            ))
        }
        ||| {
            &&& u.text == seq!['u', 'n'] + stem
            &&& storable(full) ==> trails(a, full, 2, n)
            &&& x.medium == Medium::Tokens ==> (e.tokens matches Some(t) && trails_in(t, s, 2, n))
        }
    })
}

/// Whether an edge carries a word assembled from diphones in speaking order.
pub open spec fn carries_chain<C: AudioCodec + ?Sized>(
    x: Search,
    e: EdgeView,
    ps: Seq<Seq<char>>,
    codec: &C,
) -> bool {
    &&& e.audio is Some
    &&& x.medium == Medium::Pcm ==> exists|pieces: Seq<WavView>, at: Seq<int>| #[trigger]
        in_speaking_order(x.q.nodes, ps, pieces, at, e.nodes, codec) && spliced(pieces, 2, x.t)
            == Ok::<WavView, ErrorView>(e.audio->Some_0)
    &&& x.medium == Medium::Tokens ==> (e.tokens matches Some(s) && codec.decoded(s) == Ok::<
        WavView,
        ErrorView,
    >(e.audio->Some_0) && exists|pieces: Seq<Seq<u8>>, at: Seq<int>| #[trigger]
        in_token_order(x.q.nodes, ps, pieces, at, e.nodes) && concatenated(pieces) == Ok::<
            Seq<u8>,
            ErrorView,
        >(s))
}

/// Whether an edge stands for the words that it spans: with the recording of a
/// phrase of just these words, or of the word; with the part of a longer word's
/// recording; with a chain of its phonemes; or with nothing, where the word is
/// left to a provider.
pub open spec fn stands_for_its_words<C: AudioCodec + ?Sized>(
    x: Search,
    e: EdgeView,
    codec: &C,
) -> bool {
    let ws = x.q.words;
    &&& e.start < e.end <= ws.len()
    &&& e.level == UnitLevel::Phrase || (e.end == e.start + 1 && e.text == ws[e.start as int])
    &&& match e.level {
        UnitLevel::Phrase => {
            &&& tokens(e.text) == ws.subrange(e.start as int, e.end as int)
            &&& e.nodes.len() > 0
            &&& says(x.q.nodes, e.nodes[0], UnitLevel::Phrase, e.text)
            &&& carries(x, e, e.nodes[0], codec)
        },
        UnitLevel::Word => if e.audio is None {
            e.nodes.len() == 0
        } else {
            &&& e.nodes.len() == 1
            &&& says(x.q.nodes, e.nodes[0], UnitLevel::Word, e.text)
            &&& carries(x, e, e.nodes[0], codec)
        },
        UnitLevel::Morpheme => {
            &&& e.nodes.len() == 1
            &&& unit_at(x.q.nodes, e.nodes[0]) matches Some(u) && u.level == UnitLevel::Word
            &&& carries_stem(x, e, e.nodes[0], e.text, codec)
        },
        UnitLevel::Diphone => x.dict matches Some(m) && (pronunciation(m, e.text) matches Some(ps)
            && carries_chain(x, e, ps, codec)),
        UnitLevel::Phoneme => false,
    }
}

/// Words of which the share of a stem can be told.
pub open spec fn of_ordinary_length(ws: Seq<Seq<char>>) -> bool {
    forall|i: int| 0 <= i < ws.len() ==> (#[trigger] ws[i]).len() + 4 <= 0x20_0000_0000_0000
}

spec fn all_stand<C: AudioCodec + ?Sized>(x: Search, r: Built, codec: &C) -> bool {
    r matches Ok(v) ==> forall|i: int|
        0 <= i < v.len() ==> stands_for_its_words(x, #[trigger] v[i], codec)
}

proof fn lemma_stand_followed<C: AudioCodec + ?Sized>(x: Search, a: Built, b: Built, codec: &C)
    requires
        all_stand(x, a, codec),
        all_stand(x, b, codec),
    ensures
        all_stand(x, followed(a, b), codec),
{
    if let (Ok(u), Ok(v)) = (a, b) {
        let both = u + v;
        assert forall|i: int| 0 <= i < both.len() implies stands_for_its_words(
            x,
            #[trigger] both[i],
            codec,
        ) by {
            if i < u.len() {
                assert(both[i] == u[i]);
            } else {
                assert(both[i] == v[i - u.len()]);
            }
        }
    }
}

proof fn lemma_unit_carried<C: AudioCodec + ?Sized>(x: Search, id: NodeId, e: EdgeView, codec: &C)
    ensures
        unit_edge(x, id, e, codec) matches Ok(v) ==> v.len() == 1 && carries(x, v[0], id, codec)
            && v[0] == (EdgeView { audio: v[0].audio, tokens: v[0].tokens, ..e }),
{
}

proof fn lemma_phrase_stands<C: AudioCodec + ?Sized>(x: Search, k: int, start: nat, codec: &C)
    requires
        x.q.nodes.len() <= u64::MAX,
        0 <= k < phrases(x.q).len(),
    ensures
        all_stand(x, phrase_edge(x, k, start, codec), codec),
{
    let ph = phrases(x.q)[k];
    let index = indexed(x.q.nodes);
    lemma_entries_at(index, UnitLevel::Phrase, k);
    let j = choose|j: int|
        0 <= j < index.len() && ph == ((#[trigger] index[j]).text, index[j].ids) && index[j].level
            == UnitLevel::Phrase;
    index_entries_are_complete(x.q.nodes);
    assert(index[j].ids == matching(x.q.nodes, UnitLevel::Phrase, ph.0));
    found_units_match(x.q.nodes, UnitLevel::Phrase, ph.0);
    assert(matches_key(x.q.nodes, ph.1[0].0 as int, UnitLevel::Phrase, ph.0));
    let len = tokens(ph.0).len();
    if start + len <= x.q.words.len() {
        lemma_unit_carried(
            x,
            ph.1[0],
            EdgeView {
                start,
                end: start + len,
                level: UnitLevel::Phrase,
                target: 0,
                audio: None,
                tokens: None,
                nodes: ph.1,
                chars: total_len(x.q.words.subrange(start as int, (start + len) as int)),
                text: ph.0,
            },
            codec,
        );
    }
}

proof fn lemma_occurrences_stand<C: AudioCodec + ?Sized>(x: Search, k: int, m: nat, codec: &C)
    requires
        x.q.nodes.len() <= u64::MAX,
        0 <= k < phrases(x.q).len(),
    ensures
        all_stand(x, occurrences(x, k, m, codec), codec),
    decreases m,
{
    if m > 0 {
        lemma_occurrences_stand(x, k, (m - 1) as nat, codec);
        lemma_phrase_stands(x, k, (m - 1) as nat, codec);
        lemma_stand_followed(
            x,
            occurrences(x, k, (m - 1) as nat, codec),
            phrase_edge(x, k, (m - 1) as nat, codec),
            codec,
        );
    }
}

proof fn lemma_phrases_stand<C: AudioCodec + ?Sized>(x: Search, k: nat, codec: &C)
    requires
        x.q.nodes.len() <= u64::MAX,
        k <= phrases(x.q).len(),
    ensures
        all_stand(x, phrase_edges(x, k, codec), codec),
    decreases k,
{
    if k > 0 {
        lemma_phrases_stand(x, (k - 1) as nat, codec);
        lemma_occurrences_stand(x, k - 1, x.q.words.len(), codec);
        lemma_stand_followed(
            x,
            phrase_edges(x, (k - 1) as nat, codec),
            occurrences(x, k - 1, x.q.words.len(), codec),
            codec,
        );
    }
}

proof fn lemma_variants_stand<C: AudioCodec + ?Sized>(x: Search, i: nat, m: nat, codec: &C)
    requires
        x.q.nodes.len() <= u64::MAX,
        i < x.q.words.len(),
        m <= matching(x.q.nodes, UnitLevel::Word, x.q.words[i as int]).len(),
    ensures
        all_stand(x, variant_edges(x, i, m, codec), codec),
    decreases m,
{
    if m > 0 {
        let w = x.q.words[i as int];
        let id = matching(x.q.nodes, UnitLevel::Word, w)[m - 1];
        lemma_variants_stand(x, i, (m - 1) as nat, codec);
        found_units_match(x.q.nodes, UnitLevel::Word, w);
        assert(matches_key(x.q.nodes, id.0 as int, UnitLevel::Word, w));
        let e = bare_edge(x, i, UnitLevel::Word, word_target(), seq![id]);
        lemma_unit_carried(x, id, e, codec);
        lemma_stand_followed(
            x,
            variant_edges(x, i, (m - 1) as nat, codec),
            unit_edge(x, id, e, codec),
            codec,
        );
    }
}

/// Where a stem stands in each candidate.
pub proof fn lemma_candidate(stem: Seq<char>, k: int)
    requires
        0 <= k < morphemes(stem).len(),
        stem.len() + 4 <= 0x20_0000_0000_0000,
    ensures
        ({
            let c = morphemes(stem)[k];
            let none = Frac { num: 0, den: 1 };
            let all = Frac { num: 1, den: 1 };
            &&& 0 < c.word.len() <= stem.len() + 4
            &&& ({
                ||| {
                    &&& starts_with_stem(stem, c.word)
                    &&& c.from == none
                    &&& c.to.num == stem.len()
                    &&& c.to.den == c.word.len()
                    &&& stem.len() <= c.word.len()
                }
                ||| {
                    &&& c.word == seq!['u', 'n'] + stem
                    &&& c.to == all
                    &&& c.from.num == 2
                    &&& c.from.den == c.word.len()
                }
            })
        }),
{
    let all = morphemes(stem);
    let c = all[k];
    if k == all.len() - 1 {
    } else if stem.len() > 1 && stem.last() == 'e' && k == all.len() - 2 {
        assert(c.word == stem.drop_last() + seq!['i', 'n', 'g']);
        assert(c.word.take(stem.len() - 1) =~= stem.drop_last());
    } else {
        assert(c.word.take(stem.len() as int) =~= stem);
    }
}

pub proof fn lemma_cached_at(nodes: Seq<NodeView>, cands: Seq<CandidateView>)
    ensures
        ({
            let k = cached_candidate(nodes, cands) as int;
            &&& k <= cands.len()
            &&& k < cands.len() ==> matching(nodes, UnitLevel::Word, cands[k].word).len() > 0
            &&& forall|i: int|
                0 <= i < k ==> matching(nodes, UnitLevel::Word, (#[trigger] cands[i]).word).len()
                    == 0
        }),
    decreases cands.len(),
{
    if cands.len() > 0 && matching(nodes, UnitLevel::Word, cands[0].word).len() == 0 {
        let rest = cands.skip(1);
        lemma_cached_at(nodes, rest);
        let k = cached_candidate(nodes, cands) as int;
        assert forall|i: int| 0 <= i < k implies matching(
            nodes,
            UnitLevel::Word,
            (#[trigger] cands[i]).word,
        ).len() == 0 by {
            if i > 0 {
                assert(cands[i] == rest[i - 1]);
            }
        }
        if k < cands.len() {
            assert(cands[k] == rest[k - 1]);
        }
    }
}

proof fn lemma_stem_stands<C: AudioCodec + ?Sized>(x: Search, i: nat, codec: &C)
    requires
        x.q.nodes.len() <= u64::MAX,
        i < x.q.words.len(),
        of_ordinary_length(x.q.words),
    ensures
        all_stand(x, stem_edge(x, i, codec), codec),
{
    let w = x.q.words[i as int];
    let cands = morphemes(w);
    let k = cached_candidate(x.q.nodes, cands) as int;
    lemma_cached_at(x.q.nodes, cands);
    if k < cands.len() {
        let c = cands[k];
        let id = matching(x.q.nodes, UnitLevel::Word, c.word)[0];
        lemma_candidate(w, k);
        found_units_match(x.q.nodes, UnitLevel::Word, c.word);
        assert(matches_key(x.q.nodes, id.0 as int, UnitLevel::Word, c.word));
        if let Ok(full) = audio_at(x.q.nodes, id, codec) {
            if storable(full) {
                if starts_with_stem(w, c.word) && c.from == (Frac { num: 0, den: 1 }) {
                    cuts_keep_their_share(full, c.to);
                } else {
                    cuts_keep_their_share(full, c.from);
                }
            }
            let s = stream_of(x.q.nodes, id, full, codec);
            if x.medium == Medium::Tokens && parsed_stream(s) is Ok {
                if starts_with_stem(w, c.word) && c.from == (Frac { num: 0, den: 1 }) {
                    token_cuts_keep_their_share(s, c.to);
                } else {
                    token_cuts_keep_their_share(s, c.from);
                }
            }
            if let Ok(v) = stem_edge(x, i, codec) {
                assert(v.len() == 1);
                assert(carries_stem(x, v[0], id, w, codec));
            }
        }
    }
}

proof fn lemma_chain_stands<C: AudioCodec + ?Sized>(x: Search, i: nat, codec: &C)
    requires
        x.q.nodes.len() <= u64::MAX,
        i < x.q.words.len(),
    ensures
        all_stand(x, Built::Ok(chain_edge(x, i, codec)), codec),
{
    let v = chain_edge(x, i, codec);
    if v.len() > 0 {
        let ps = pronunciation(x.dict->Some_0, x.q.words[i as int])->Some_0;
        lemma_chain_carried(x, v[0], ps, codec);
    }
}

proof fn lemma_chain_carried<C: AudioCodec + ?Sized>(
    x: Search,
    e: EdgeView,
    ps: Seq<Seq<char>>,
    codec: &C,
)
    requires
        x.q.nodes.len() <= u64::MAX,
        chain_in_medium(x, ps, codec) matches Some((a, t, _, ids)) && e.audio == Some(a)
            && e.tokens == t && e.nodes == ids,
    ensures
        carries_chain(x, e, ps, codec),
{
    match x.medium {
        Medium::Pcm => {
            chains_speak_in_order(x.q.nodes, ps, codec, x.t);
            let (audio, gaps, ids) = chain_audio(x.q.nodes, ps, codec, x.t)->Some_0;
            assert(e.nodes == ids && e.audio == Some(audio));
        },
        Medium::Tokens => {
            token_chains_speak_in_order(x.q.nodes, ps);
            let (stream, gaps, ids) = chain_tokens(x.q.nodes, ps)->Some_0;
            assert(e.nodes == ids && e.tokens == Some(stream));
        },
    }
}

proof fn lemma_word_stands<C: AudioCodec + ?Sized>(x: Search, i: nat, codec: &C)
    requires
        x.q.nodes.len() <= u64::MAX,
        i < x.q.words.len(),
        of_ordinary_length(x.q.words),
    ensures
        all_stand(x, edges_for(x, i, codec), codec),
{
    let hits = matching(x.q.nodes, UnitLevel::Word, x.q.words[i as int]).len();
    let variants = variant_edges(x, i, hits, codec);
    let stem = stem_edge(x, i, codec);
    let chain = Built::Ok(chain_edge(x, i, codec));
    let synth = Built::Ok(seq![synth_edge(x, i)]);
    lemma_variants_stand(x, i, hits, codec);
    lemma_stem_stands(x, i, codec);
    lemma_chain_stands(x, i, codec);
    assert(all_stand(x, synth, codec));
    lemma_stand_followed(x, variants, stem, codec);
    lemma_stand_followed(x, chain, synth, codec);
    assert(chain_edge(x, i, codec) + seq![synth_edge(x, i)] =~= chain_edge(x, i, codec).push(
        synth_edge(x, i),
    ));
    lemma_stand_followed(x, followed(variants, stem), followed(chain, synth), codec);
}

proof fn lemma_words_stand<C: AudioCodec + ?Sized>(x: Search, n: nat, codec: &C)
    requires
        x.q.nodes.len() <= u64::MAX,
        n <= x.q.words.len(),
        of_ordinary_length(x.q.words),
    ensures
        all_stand(x, word_edges(x, n, codec), codec),
    decreases n,
{
    if n > 0 {
        lemma_words_stand(x, (n - 1) as nat, codec);
        lemma_word_stands(x, (n - 1) as nat, codec);
        lemma_stand_followed(
            x,
            word_edges(x, (n - 1) as nat, codec),
            edges_for(x, (n - 1) as nat, codec),
            codec,
        );
    }
}

/// Every candidate of a search stands for the words that it spans, whatever its
/// level: a morpheme plays just the part of a longer word that says the stem, and
/// a chain plays the transitions of the word in speaking order.
pub proof fn candidates_stand_for_their_words<C: AudioCodec + ?Sized>(
    x: Search,
    v: Seq<EdgeView>,
    i: int,
    codec: &C,
)
    requires
        x.q.nodes.len() <= u64::MAX,
        of_ordinary_length(x.q.words),
        built(x, codec) == Built::Ok(v),
        0 <= i < v.len(),
    ensures
        stands_for_its_words(x, v[i], codec),
{
    let a = phrase_edges(x, phrases(x.q).len(), codec);
    let b = word_edges(x, x.q.words.len(), codec);
    lemma_phrases_stand(x, phrases(x.q).len(), codec);
    lemma_words_stand(x, x.q.words.len(), codec);
    lemma_stand_followed(x, a, b, codec);
}

/// A morpheme is shorter than the word that it is taken from, by a sample at
/// least, wherever the rest of that word lasts longer than a sample.
pub proof fn stems_are_shorter_than_their_words<C: AudioCodec + ?Sized>(
    x: Search,
    e: EdgeView,
    codec: &C,
)
    requires
        stands_for_its_words(x, e, codec),
        e.level == UnitLevel::Morpheme,
    ensures
        ({
            let id = e.nodes[0];
            let n = unit_at(x.q.nodes, id)->Some_0.text.len();
            let full = audio_at(x.q.nodes, id, codec)->Ok_0.samples.len();
            let stem = e.text.len();
            storable(audio_at(x.q.nodes, id, codec)->Ok_0) && (n - stem) * full > n && 2 * full > n
                ==> e.audio->Some_0.samples.len() < full
        }),
{
    let id = e.nodes[0];
    let u = unit_at(x.q.nodes, id)->Some_0;
    let n = u.text.len();
    let whole = audio_at(x.q.nodes, id, codec)->Ok_0;
    let full = whole.samples.len();
    let stem = e.text.len();
    let a = e.audio->Some_0;
    if storable(whole) && (n - stem) * full > n && 2 * full > n {
        assert((n - stem) * full == n * full - stem * full) by (nonlinear_arith);
        if starts_with_stem(e.text, u.text) && leads(a, whole, stem, n) {
            let m = choose|m: nat| #[trigger]
                marks(m, stem, n, full) && a.samples == whole.samples.take(m as int);
            assert(m < full) by (nonlinear_arith)
                requires
                    4 * (m * n) <= 4 * (stem * full) + 3 * n,
                    n * full - stem * full > n,
                    m <= full,
            ;
        } else {
            let m = choose|m: nat| #[trigger]
                marks(m, 2, n, full) && a.samples == whole.samples.skip(m as int);
            assert(m > 0) by (nonlinear_arith)
                requires
                    4 * (2 * full) <= 4 * (m * n) + 3 * n,
                    2 * full > n,
            ;
        }
    }
}

/// Whether there is an edge of a level over the words `start..end`.
pub open spec fn offers(v: Seq<EdgeView>, level: UnitLevel, start: nat, end: nat) -> bool {
    exists|k: int|
        0 <= k < v.len() && (#[trigger] v[k]).level == level && v[k].start == start && v[k].end
            == end && v[k].audio is Some
}

/// Whether there is an edge of one unit over word `i`.
pub open spec fn offers_unit(v: Seq<EdgeView>, id: NodeId, i: nat) -> bool {
    exists|k: int|
        0 <= k < v.len() && (#[trigger] v[k]).level == UnitLevel::Word && v[k].start == i
            && v[k].end == i + 1 && v[k].nodes == seq![id]
}

proof fn lemma_offers_more(a: Seq<EdgeView>, b: Seq<EdgeView>)
    ensures
        forall|level: UnitLevel, start: nat, end: nat|
            offers(a, level, start, end) || offers(b, level, start, end) ==> #[trigger] offers(
                a + b,
                level,
                start,
                end,
            ),
        forall|id: NodeId, i: nat|
            offers_unit(a, id, i) || offers_unit(b, id, i) ==> #[trigger] offers_unit(
                a + b,
                id,
                i,
            ),
{
    let both = a + b;
    assert forall|level: UnitLevel, start: nat, end: nat|
        offers(a, level, start, end) || offers(b, level, start, end) implies #[trigger] offers(
        both,
        level,
        start,
        end,
    ) by {
        if offers(a, level, start, end) {
            let k = choose|k: int|
                0 <= k < a.len() && (#[trigger] a[k]).level == level && a[k].start == start
                    && a[k].end == end && a[k].audio is Some;
            assert(both[k] == a[k]);
        } else {
            let k = choose|k: int|
                0 <= k < b.len() && (#[trigger] b[k]).level == level && b[k].start == start
                    && b[k].end == end && b[k].audio is Some;
            assert(both[a.len() + k] == b[k]);
        }
    }
    assert forall|id: NodeId, i: nat|
        offers_unit(a, id, i) || offers_unit(b, id, i) implies #[trigger] offers_unit(
        both,
        id,
        i,
    ) by {
        if offers_unit(a, id, i) {
            let k = choose|k: int|
                0 <= k < a.len() && (#[trigger] a[k]).level == UnitLevel::Word && a[k].start == i
                    && a[k].end == i + 1 && a[k].nodes == seq![id];
            assert(both[k] == a[k]);
        } else {
            let k = choose|k: int|
                0 <= k < b.len() && (#[trigger] b[k]).level == UnitLevel::Word && b[k].start == i
                    && b[k].end == i + 1 && b[k].nodes == seq![id];
            assert(both[a.len() + k] == b[k]);
        }
    }
}

proof fn lemma_variant_offered<C: AudioCodec + ?Sized>(
    x: Search,
    i: nat,
    m: nat,
    j: int,
    codec: &C,
)
    requires
        0 <= j < m,
        variant_edges(x, i, m, codec) is Ok,
    ensures
        offers_unit(
            variant_edges(x, i, m, codec)->Ok_0,
            matching(x.q.nodes, UnitLevel::Word, x.q.words[i as int])[j],
            i,
        ),
    decreases m,
{
    let id = matching(x.q.nodes, UnitLevel::Word, x.q.words[i as int])[m - 1];
    let before = variant_edges(x, i, (m - 1) as nat, codec);
    let e = bare_edge(x, i, UnitLevel::Word, word_target(), seq![id]);
    let here = unit_edge(x, id, e, codec);
    lemma_offers_more(before->Ok_0, here->Ok_0);
    if j < m - 1 {
        lemma_variant_offered(x, i, (m - 1) as nat, j, codec);
    } else {
        assert(here->Ok_0[0].nodes == seq![id]);
    }
}

/// What edges over word `i` alone are among all edges.
proof fn lemma_word_among_all<C: AudioCodec + ?Sized>(x: Search, i: nat, n: nat, codec: &C)
    requires
        i < n,
        word_edges(x, n, codec) is Ok,
    ensures
        edges_for(x, i, codec) is Ok,
        forall|level: UnitLevel, start: nat, end: nat|
            offers(edges_for(x, i, codec)->Ok_0, level, start, end) ==> #[trigger] offers(
                word_edges(x, n, codec)->Ok_0,
                level,
                start,
                end,
            ),
        forall|id: NodeId, k: nat|
            offers_unit(edges_for(x, i, codec)->Ok_0, id, k) ==> #[trigger] offers_unit(
                word_edges(x, n, codec)->Ok_0,
                id,
                k,
            ),
    decreases n,
{
    lemma_offers_more(
        word_edges(x, (n - 1) as nat, codec)->Ok_0,
        edges_for(x, (n - 1) as nat, codec)->Ok_0,
    );
    if i < n - 1 {
        lemma_word_among_all(x, i, (n - 1) as nat, codec);
    }
}

/// Every recording of a word is a candidate for it.
pub proof fn cached_words_are_candidates<C: AudioCodec + ?Sized>(
    x: Search,
    v: Seq<EdgeView>,
    i: nat,
    id: NodeId,
    codec: &C,
)
    requires
        built(x, codec) == Built::Ok(v),
        i < x.q.words.len(),
        says(x.q.nodes, id, UnitLevel::Word, x.q.words[i as int]),
    ensures
        offers_unit(v, id, i),
{
    let w = x.q.words[i as int];
    let ids = matching(x.q.nodes, UnitLevel::Word, w);
    crate::laws::matching_units_are_found(x.q.nodes, id.0 as int, UnitLevel::Word, w);
    let j = choose|j: int| 0 <= j < ids.len() && ids[j] == NodeId(id.0 as int as u64);
    assert(ids[j] == id);
    let n = x.q.words.len();
    lemma_word_among_all(x, i, n, codec);
    let variants = variant_edges(x, i, ids.len(), codec);
    lemma_variant_offered(x, i, ids.len(), j, codec);
    let stem = stem_edge(x, i, codec);
    lemma_offers_more(variants->Ok_0, stem->Ok_0);
    lemma_offers_more(
        variants->Ok_0 + stem->Ok_0,
        chain_edge(x, i, codec).push(synth_edge(x, i)),
    );
    lemma_offers_more(
        phrase_edges(x, phrases(x.q).len(), codec)->Ok_0,
        word_edges(x, n, codec)->Ok_0,
    );
}

/// Whether a word is a regular form of a stem: a plural, a past form, a participle
/// with the last letter doubled or a final "e" dropped, or a negation.
pub open spec fn is_form_of(word: Seq<char>, stem: Seq<char>) -> bool {
    ||| word == stem + seq!['s']
    ||| word == stem + seq!['e', 's']
    ||| word == stem + seq!['e', 'd']
    ||| word == stem + seq!['d']
    ||| word == stem + seq!['i', 'n', 'g']
    ||| stem.len() > 0 && 'a' <= stem.last() <= 'z' && stem.last() != 'a' && stem.last() != 'e'
        && stem.last() != 'i' && stem.last() != 'o' && stem.last() != 'u' && word == stem + seq![
        stem.last(),
        'i',
        'n',
        'g',
    ]
    ||| stem.len() > 1 && stem.last() == 'e' && word == stem.drop_last() + seq!['i', 'n', 'g']
    ||| word == seq!['u', 'n'] + stem
}

proof fn lemma_form_listed(word: Seq<char>, stem: Seq<char>) -> (k: int)
    requires
        is_form_of(word, stem),
    ensures
        0 <= k < morphemes(stem).len(),
        morphemes(stem)[k].word == word,
{
    let all = morphemes(stem);
    let n = all.len() as int;
    if word == stem + seq!['s'] {
        0
    } else if word == stem + seq!['e', 's'] {
        1
    } else if word == stem + seq!['e', 'd'] {
        2
    } else if word == stem + seq!['d'] {
        3
    } else if word == stem + seq!['i', 'n', 'g'] {
        4
    } else if word == seq!['u', 'n'] + stem {
        n - 1
    } else if stem.last() == 'e' {
        assert(all[n - 2].word == word);
        n - 2
    } else {
        assert(all[5].word == word);
        5
    }
}

/// A word is offered as a part of a longer word wherever a regular form of it is
/// cached.
pub proof fn cached_forms_are_candidates<C: AudioCodec + ?Sized>(
    x: Search,
    v: Seq<EdgeView>,
    i: nat,
    id: NodeId,
    word: Seq<char>,
    codec: &C,
)
    requires
        built(x, codec) == Built::Ok(v),
        i < x.q.words.len(),
        is_form_of(word, x.q.words[i as int]),
        says(x.q.nodes, id, UnitLevel::Word, word),
    ensures
        offers(v, UnitLevel::Morpheme, i, i + 1),
{
    let w = x.q.words[i as int];
    let j = lemma_form_listed(word, w);
    lemma_cached_at(x.q.nodes, morphemes(w));
    crate::laws::matching_units_are_found(x.q.nodes, id.0 as int, UnitLevel::Word, word);
    assert(cached_candidate(x.q.nodes, morphemes(w)) <= j) by {
        if cached_candidate(x.q.nodes, morphemes(w)) > j {
            assert(matching(x.q.nodes, UnitLevel::Word, morphemes(w)[j].word).len() == 0);
        }
    }
    let n = x.q.words.len();
    lemma_word_among_all(x, i, n, codec);
    let ids = matching(x.q.nodes, UnitLevel::Word, w);
    let variants = variant_edges(x, i, ids.len(), codec);
    let stem = stem_edge(x, i, codec);
    assert(stem->Ok_0[0].level == UnitLevel::Morpheme);
    lemma_offers_more(variants->Ok_0, stem->Ok_0);
    lemma_offers_more(
        variants->Ok_0 + stem->Ok_0,
        chain_edge(x, i, codec).push(synth_edge(x, i)),
    );
    lemma_offers_more(
        phrase_edges(x, phrases(x.q).len(), codec)->Ok_0,
        word_edges(x, n, codec)->Ok_0,
    );
}

/// A word is offered as a chain of diphones wherever a dictionary knows its
/// phonemes and all of them are cached.
pub proof fn cached_sounds_are_candidates<C: AudioCodec + ?Sized>(
    x: Search,
    v: Seq<EdgeView>,
    i: nat,
    ps: Seq<Seq<char>>,
    rate: u32,
    codec: &C,
)
    requires
        x.q.nodes.len() <= u64::MAX,
        built(x, codec) == Built::Ok(v),
        i < x.q.words.len(),
        x.medium == Medium::Pcm,
        x.dict matches Some(m) && pronunciation(m, x.q.words[i as int]) == Some(ps),
        ps.len() > 0,
        sounds_can_be_read(x.q.nodes, rate, codec),
        forall|k: int| 0 <= k < ps.len() ==> is_heard(x.q.nodes, #[trigger] ps[k]),
    ensures
        offers(v, UnitLevel::Diphone, i, i + 1),
{
    cached_sounds_are_chained(x.q.nodes, ps, rate, codec, x.t);
    let n = x.q.words.len();
    lemma_word_among_all(x, i, n, codec);
    let ids = matching(x.q.nodes, UnitLevel::Word, x.q.words[i as int]);
    let variants = variant_edges(x, i, ids.len(), codec);
    let stem = stem_edge(x, i, codec);
    let chain = chain_edge(x, i, codec);
    assert(chain[0].level == UnitLevel::Diphone);
    let synth = seq![synth_edge(x, i)];
    assert(chain + synth =~= chain.push(synth_edge(x, i)));
    lemma_offers_more(chain, synth);
    lemma_offers_more(variants->Ok_0 + stem->Ok_0, chain + synth);
    lemma_offers_more(
        phrase_edges(x, phrases(x.q).len(), codec)->Ok_0,
        word_edges(x, n, codec)->Ok_0,
    );
}

// ---- what a selection says ----

/// Whether a piece says the words of a span: it is the audio of a candidate for
/// them, or what a provider may answer when asked for them.
pub open spec fn says_span<T: TtsProvider + ?Sized, C: AudioCodec + ?Sized>(
    x: Search,
    tts: &T,
    voice: Seq<char>,
    piece: WavView,
    span: (nat, nat),
    codec: &C,
) -> bool {
    ||| exists|e: EdgeView| #[trigger]
        stands_for_its_words(x, e, codec) && e.start == span.0 && e.end == span.1 && e.audio
            == Some(piece)
    ||| tts.may_reply(
        spoken(x.q.words.subrange(span.0 as int, span.1 as int)),
        voice,
        Ok(piece),
    )
}

/// The same of a token stream.
pub open spec fn says_span_in_tokens<T: TtsProvider + ?Sized, C: AudioCodec + ?Sized>(
    x: Search,
    tts: &T,
    voice: Seq<char>,
    piece: Seq<u8>,
    span: (nat, nat),
    codec: &C,
) -> bool {
    ||| exists|e: EdgeView| #[trigger]
        stands_for_its_words(x, e, codec) && e.start == span.0 && e.end == span.1 && e.tokens
            == Some(piece)
    ||| exists|audio: WavView|
        piece == #[trigger] codec.encoded(audio) && tts.may_reply(
            spoken(x.q.words.subrange(span.0 as int, span.1 as int)),
            voice,
            Ok(audio),
        )
}

/// Whether spans follow one another from word `from` to word `to`.
pub open spec fn side_by_side(spans: Seq<(nat, nat)>, from: nat, to: nat) -> bool {
    &&& spans.len() == 0 ==> from == to
    &&& spans.len() > 0 ==> spans[0].0 == from && spans.last().1 == to
    &&& forall|i: int| 0 <= i < spans.len() ==> (#[trigger] spans[i]).0 < spans[i].1
    &&& forall|i: int| 0 < i < spans.len() ==> (#[trigger] spans[i]).0 == spans[i - 1].1
}

proof fn lemma_side_by_side(first: (nat, nat), rest: Seq<(nat, nat)>, to: nat)
    requires
        first.0 < first.1,
        side_by_side(rest, first.1, to),
    ensures
        side_by_side(seq![first] + rest, first.0, to),
{
    let all = seq![first] + rest;
    assert(rest.len() > 0 ==> all.last() == rest.last());
    assert forall|i: int| 0 <= i < all.len() implies (#[trigger] all[i]).0 < all[i].1 by {
        if i > 0 {
            assert(all[i] == rest[i - 1]);
        }
    }
    assert forall|i: int| 0 < i < all.len() implies (#[trigger] all[i]).0 == all[i - 1].1 by {
        assert(all[i] == rest[i - 1]);
        if i > 1 {
            assert(all[i - 1] == rest[i - 2]);
        }
    }
}

/// Whether replies from `r` on may answer the runs of generated edges from `i` on.
spec fn replies_match<T: TtsProvider + ?Sized>(
    x: Search,
    p: Seq<EdgeView>,
    i: nat,
    tts: &T,
    voice: Seq<char>,
    replies: Seq<WavView>,
    r: nat,
) -> bool {
    let spans = synth_spans(p, i);
    &&& replies.len() == r + spans.len()
    &&& forall|k: int|
        0 <= k < spans.len() ==> tts.may_reply(
            span_text(x.q.words, #[trigger] spans[k]),
            voice,
            Ok(replies[r + k]),
        )
}

spec fn all_said<T: TtsProvider + ?Sized, C: AudioCodec + ?Sized>(
    x: Search,
    tts: &T,
    voice: Seq<char>,
    pieces: Seq<WavView>,
    streams: Seq<Seq<u8>>,
    spans: Seq<(nat, nat)>,
    codec: &C,
) -> bool {
    &&& pieces.len() == spans.len()
    &&& streams.len() == spans.len()
    &&& forall|k: int|
        0 <= k < spans.len() ==> says_span(x, tts, voice, pieces[k], #[trigger] spans[k], codec)
    &&& x.medium == Medium::Tokens ==> forall|k: int|
        0 <= k < spans.len() ==> says_span_in_tokens(
            x,
            tts,
            voice,
            streams[k],
            #[trigger] spans[k],
            codec,
        )
}

proof fn lemma_all_said<T: TtsProvider + ?Sized, C: AudioCodec + ?Sized>(
    x: Search,
    tts: &T,
    voice: Seq<char>,
    piece: WavView,
    stream: Seq<u8>,
    span: (nat, nat),
    pieces: Seq<WavView>,
    streams: Seq<Seq<u8>>,
    spans: Seq<(nat, nat)>,
    codec: &C,
)
    requires
        says_span(x, tts, voice, piece, span, codec),
        x.medium == Medium::Tokens ==> says_span_in_tokens(x, tts, voice, stream, span, codec),
        all_said(x, tts, voice, pieces, streams, spans, codec),
    ensures
        all_said(
            x,
            tts,
            voice,
            seq![piece] + pieces,
            seq![stream] + streams,
            seq![span] + spans,
            codec,
        ),
{
    let a = seq![span] + spans;
    let b = seq![piece] + pieces;
    let c = seq![stream] + streams;
    assert forall|k: int| 0 <= k < a.len() implies says_span(
        x,
        tts,
        voice,
        b[k],
        #[trigger] a[k],
        codec,
    ) by {
        if k > 0 {
            assert(a[k] == spans[k - 1]);
        }
    }
    if x.medium == Medium::Tokens {
        assert forall|k: int| 0 <= k < a.len() implies says_span_in_tokens(
            x,
            tts,
            voice,
            c[k],
            #[trigger] a[k],
            codec,
        ) by {
            if k > 0 {
                assert(a[k] == spans[k - 1]);
            }
        }
    }
}

proof fn lemma_run_of_words(x: Search, p: Seq<EdgeView>, i: int, j: int)
    requires
        contiguous(x, p),
        0 <= i < j <= p.len(),
    ensures
        p[i].start < p[j - 1].end <= x.q.words.len(),
    decreases j - i,
{
    assert(usable(x, p[j - 1]));
    if i < j - 1 {
        lemma_run_of_words(x, p, i, j - 1);
        assert(follows(p, j - 1));
    }
}

#[verifier::rlimit(60)]
#[verifier::spinoff_prover]
proof fn lemma_played<T: TtsProvider + ?Sized, C: AudioCodec + ?Sized>(
    x: Search,
    p: Seq<EdgeView>,
    i: nat,
    tts: &T,
    voice: Seq<char>,
    replies: Seq<WavView>,
    r: nat,
    codec: &C,
) -> (spans: Seq<(nat, nat)>)
    requires
        contiguous(x, p),
        forall|k: int| 0 <= k < p.len() ==> stands_for_its_words(x, #[trigger] p[k], codec),
        i <= p.len(),
        replies_match(x, p, i, tts, voice, replies, r),
    ensures
        side_by_side(
            spans,
            if i < p.len() {
                p[i as int].start
            } else {
                x.q.words.len()
            },
            x.q.words.len(),
        ),
        all_said(
            x,
            tts,
            voice,
            played(p, i, replies, r),
            streamed(p, i, replies, r, codec),
            spans,
            codec,
        ),
    decreases p.len() - i,
{
    if i >= p.len() {
        Seq::empty()
    } else {
        let e = p[i as int];
        assert(usable(x, e));
        assert(stands_for_its_words(x, e, codec));
        let ws = x.q.words;
        match e.audio {
            Some(a) => {
                let rest = lemma_played(x, p, i + 1, tts, voice, replies, r, codec);
                if i + 1 < p.len() {
                    assert(follows(p, i as int + 1));
                }
                let span = (e.start, e.end);
                let stream = match e.tokens {
                    Some(t) => t,
                    None => codec.encoded(a),
                };
                assert(says_span(x, tts, voice, a, span, codec));
                lemma_side_by_side(span, rest, ws.len());
                lemma_all_said(
                    x,
                    tts,
                    voice,
                    a,
                    stream,
                    span,
                    played(p, i + 1, replies, r),
                    streamed(p, i + 1, replies, r, codec),
                    rest,
                    codec,
                );
                seq![span] + rest
            },
            None => {
                lemma_synth_end(p, i);
                let j = synth_end(p, i);
                assert(i < j) by {
                    lemma_synth_end(p, i + 1);
                }
                lemma_run_of_words(x, p, i as int, j as int);
                let span = (e.start, p[j - 1].end);
                let all = synth_spans(p, i);
                let later = synth_spans(p, j);
                assert(all == seq![span] + later);
                assert(all[0] == span);
                let said = replies[r as int];
                assert(tts.may_reply(span_text(ws, all[0]), voice, Ok(replies[r as int + 0])));
                assert(replies_match(x, p, j, tts, voice, replies, r + 1)) by {
                    assert forall|k: int| 0 <= k < later.len() implies tts.may_reply(
                        span_text(ws, #[trigger] later[k]),
                        voice,
                        Ok(replies[r + 1 + k]),
                    ) by {
                        assert(all[k + 1] == later[k]);
                        assert(r + (k + 1) == r + 1 + k);
                    }
                }
                let rest = lemma_played(x, p, j, tts, voice, replies, r + 1, codec);
                if j < p.len() {
                    assert(follows(p, j as int));
                }
                assert(says_span(x, tts, voice, said, span, codec));
                assert(says_span_in_tokens(x, tts, voice, codec.encoded(said), span, codec));
                lemma_side_by_side(span, rest, ws.len());
                lemma_all_said(
                    x,
                    tts,
                    voice,
                    said,
                    codec.encoded(said),
                    span,
                    played(p, j, replies, r + 1),
                    streamed(p, j, replies, r + 1, codec),
                    rest,
                    codec,
                );
                seq![span] + rest
            },
        }
    }
}

/// Whether audio says words in order: pieces for one span after the other, from
/// the first word to the last, joined with fades of 10 ms.
pub open spec fn says_words<T: TtsProvider + ?Sized, C: AudioCodec + ?Sized>(
    x: Search,
    tts: &T,
    voice: Seq<char>,
    out: WavView,
    pieces: Seq<WavView>,
    spans: Seq<(nat, nat)>,
    codec: &C,
) -> bool {
    &&& side_by_side(spans, 0, x.q.words.len())
    &&& pieces.len() == spans.len()
    &&& forall|k: int|
        0 <= k < spans.len() ==> says_span(x, tts, voice, pieces[k], #[trigger] spans[k], codec)
    &&& spliced(pieces, 10, x.t) == Ok::<WavView, ErrorView>(out)
}

/// The same in tokens: streams for one span after the other, joined and decoded
/// in one go.
pub open spec fn says_words_in_tokens<T: TtsProvider + ?Sized, C: AudioCodec + ?Sized>(
    x: Search,
    tts: &T,
    voice: Seq<char>,
    out: WavView,
    streams: Seq<Seq<u8>>,
    spans: Seq<(nat, nat)>,
    codec: &C,
) -> bool {
    &&& side_by_side(spans, 0, x.q.words.len())
    &&& streams.len() == spans.len()
    &&& forall|k: int|
        0 <= k < spans.len() ==> says_span_in_tokens(
            x,
            tts,
            voice,
            streams[k],
            #[trigger] spans[k],
            codec,
        )
    &&& concatenated(streams) matches Ok(all) && codec.decoded(all) == Ok::<WavView, ErrorView>(
        out,
    )
}

/// A composed request says its words, all of them and in order: every span is
/// said by a unit that stands for it or by what the provider answered for it.
#[verifier::rlimit(60)]
#[verifier::spinoff_prover]
pub proof fn compositions_say_their_words<T: TtsProvider + ?Sized, C: AudioCodec + ?Sized>(
    before: StoreView,
    after: StoreView,
    out: WavView,
    report: ReportView,
    tts: &T,
    text: Seq<char>,
    voice: Seq<char>,
    dict: Dict,
    medium: Medium,
    codec: &C,
    t: Gains,
)
    requires
        before.nodes.len() <= u64::MAX,
        of_ordinary_length(tokens(text)),
        selected(
            before,
            after,
            Ok((out, report)),
            tts,
            text,
            voice,
            dict,
            medium,
            codec,
            t,
        ),
    ensures
        ({
            let x = Search {
                q: Request { nodes: before.nodes, words: tokens(text) },
                dict,
                medium,
                t,
            };
            match medium {
                Medium::Pcm => exists|pieces: Seq<WavView>, spans: Seq<(nat, nat)>| #[trigger]
                    says_words(x, tts, voice, out, pieces, spans, codec),
                Medium::Tokens => exists|streams: Seq<Seq<u8>>, spans: Seq<(nat, nat)>| #[trigger]
                    says_words_in_tokens(x, tts, voice, out, streams, spans, codec),
            }
        }),
{
    let words = tokens(text);
    let x = Search { q: Request { nodes: before.nodes, words }, dict, medium, t };
    let v = built(x, codec)->Ok_0;
    let p = selection(x, v);
    let spans = synth_spans(p, 0);
    let r = Ok::<(WavView, ReportView), ErrorView>((out, report));
    let replies = choose|replies: Seq<Reply>|
        {
            &&& #[trigger] answered(tts, words, spans, voice, replies)
            &&& after == grown(
                before,
                words,
                spans,
                replies,
                voice,
                tts.provider_name(),
                dict,
                kept(replies),
                codec,
            )
            &&& if all_spoken(spans, replies) {
                r == realized(words, p, spoken_audio(replies), medium, codec, t)
            } else {
                r == Err::<(WavView, ReportView), ErrorView>(replies.last()->Err_0)
            }
        };
    assert(all_spoken(spans, replies));
    let audio = spoken_audio(replies);
    built_edges_are_usable(x, codec);
    selection_is_contiguous(x, v);
    every_request_has_a_path(x, v);
    let path = chosen(lattice_of(x, v))->Some_0;
    assert forall|k: int| 0 <= k < p.len() implies stands_for_its_words(
        x,
        #[trigger] p[k],
        codec,
    ) by {
        assert(0 <= path[k] < lattice_of(x, v).arcs.len());
        candidates_stand_for_their_words(x, v, path[k], codec);
    }
    assert(replies_match(x, p, 0, tts, voice, audio, 0)) by {
        assert forall|k: int| 0 <= k < spans.len() implies tts.may_reply(
            span_text(words, #[trigger] spans[k]),
            voice,
            Ok(audio[0 + k]),
        ) by {
            assert(replies[k] is Ok);
            assert(tts.may_reply(span_text(words, spans[k]), voice, replies[k]));
        }
    }
    let places = lemma_played(x, p, 0, tts, voice, audio, 0, codec);
    match medium {
        Medium::Pcm => {
            assert(says_words(x, tts, voice, out, played(p, 0, audio, 0), places, codec));
        },
        Medium::Tokens => {
            assert(says_words_in_tokens(
                x,
                tts,
                voice,
                out,
                streamed(p, 0, audio, 0, codec),
                places,
                codec,
            ));
        },
    }
}

} // verus!
