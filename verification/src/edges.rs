//! The candidate units of a request as edges over its words, and what they
//! cost.
//!
//! Edges per word span: cached phrase, cached word (every variant is a
//! separate edge, so that context fit is scored), morpheme segment, diphone
//! chain, and a synth edge (a provider call).
//!
//! Costs are doubles.

use crate::audio::{seam, seam_discontinuity, sliced, WavAudio, WavView};
use crate::chain::{chain_audio, chain_tokens, diphone_chain, diphone_chain_tokens};
use crate::codec::{slice_tokens, sliced_tokens, AudioCodec};
use crate::compose::{
    lemma_cached_candidate, list_phrases, phrase_pairs, phrases, phrases_known, stem_source,
    words_match, Phrase, Request,
};
use crate::double::{
    doubles_keep_the_order, exact_halves, infinite, plus, ratio, ratios_keep_the_order, times, unit,
    whole, Double,
};
use crate::error::{ErrorView, MimicError, Result};
use crate::fade::{FadeCurve, Gains};
use crate::g2p::{base_of, pronunciation, G2p};
use crate::lattice::{
    chosen, chosen_path_is_cheapest, forward, is_complete, steps_reach_the_end, Arc, Lattice,
};
use crate::pipeline::opt_dict;
use crate::speak::Dict;
use crate::store::{audio_at, context_of, matching, tokens_at, MimicStore, NodeId, NodeView};
use crate::text::{char_count, same_text, texts, total_len};
use crate::units::{
    candidates, morpheme_candidates, morphemes, tokens, Candidate, CandidateView, UnitLevel,
};
use vstd::prelude::*;
use vstd::string::*;

verus! {

// ---- cost model ----

/// The cost of a cached word.
pub open spec fn word_target() -> nat {
    ratio(1, 10)
}

/// The cost of a morpheme segment.
pub open spec fn morpheme_target() -> nat {
    ratio(45, 100)
}

/// The weight of the acoustic seam.
pub open spec fn join_acoustic() -> nat {
    ratio(1, 2)
}

/// A unit that was recorded behind another word.
pub open spec fn join_phonetic_word() -> nat {
    ratio(8, 100)
}

/// A unit that was recorded at the start of an utterance.
pub open spec fn join_initial_word() -> nat {
    times(join_phonetic_word(), ratio(75, 100))
}

/// A diphone that was recorded behind another phoneme.
pub open spec fn join_phonetic_diphone() -> nat {
    ratio(5, 100)
}

/// A cached unit behind generated audio.
pub open spec fn join_after_synth() -> nat {
    ratio(5, 100)
}

/// The cost of generating `chars` characters.
pub open spec fn synth_target(chars: nat) -> nat {
    plus(ratio(1, 10), times(ratio(2, 10), whole(chars)))
}

/// The cost of a diphone chain with `gaps` transitions substituted by phoneme
/// halves.
pub open spec fn chain_target(gaps: nat) -> nat {
    plus(ratio(85, 100), times(ratio(15, 100), whole(gaps)))
}

/// Targets prefer larger units: phrase, then word, then morpheme, then any
/// diphone chain.
pub proof fn larger_units_cost_less(gaps: nat)
    ensures
        0 < word_target() < morpheme_target() < chain_target(0) <= chain_target(gaps),
{
    exact_halves();
    ratios_keep_the_order(1, 16, 1, 10);
    ratios_keep_the_order(1, 10, 1, 4);
    ratios_keep_the_order(3, 8, 45, 100);
    ratios_keep_the_order(45, 100, 1, 2);
    ratios_keep_the_order(3, 4, 85, 100);
    let base = ratio(85, 100);
    let each = ratio(15, 100);
    doubles_keep_the_order(0, gaps * unit(), 1);
    assert(0 * unit() == 0);
    assert(each * whole(0) <= each * whole(gaps)) by (nonlinear_arith)
        requires
            whole(0) <= whole(gaps),
    ;
    doubles_keep_the_order(each * whole(0), each * whole(gaps), unit());
    doubles_keep_the_order(base + times(each, whole(0)), base + times(each, whole(gaps)), 1);
    doubles_keep_the_order(ratio(3, 4), base + times(each, whole(0)), 1);
}

fn synth_cost(chars: usize) -> (r: Double)
    ensures
        r@ == synth_target(chars as nat),
{
    Double::of_ratio(1, 10).plus(Double::of_ratio(2, 10).times(Double::of(chars as u64)))
}

fn chain_cost(gaps: usize) -> (r: Double)
    ensures
        r@ == chain_target(gaps as nat),
{
    Double::of_ratio(85, 100).plus(Double::of_ratio(15, 100).times(Double::of(gaps as u64)))
}

/// How compose realizes its output: PCM splice, or token-stream concatenation
/// with a single decode pass.
#[derive(Debug, Clone, Copy, PartialEq, Eq, Structural)]
pub enum Medium {
    Pcm,
    Tokens,
}

/// A candidate for a span of words.
pub struct Edge {
    pub start: usize,
    pub end: usize,
    pub level: UnitLevel,
    pub target: Double,
    /// None for a synth edge.
    pub audio: Option<WavAudio>,
    /// The token stream of the span (token medium only).
    pub tokens: Option<Vec<u8>>,
    pub nodes: Vec<NodeId>,
    pub chars: usize,
    pub text: String,
}

/// The value of an edge.
#[verifier::ext_equal]
pub struct EdgeView {
    pub start: nat,
    pub end: nat,
    pub level: UnitLevel,
    pub target: nat,
    pub audio: Option<WavView>,
    pub tokens: Option<Seq<u8>>,
    pub nodes: Seq<NodeId>,
    pub chars: nat,
    pub text: Seq<char>,
}

/// The value of optional audio.
pub open spec fn opt_audio(a: Option<WavAudio>) -> Option<WavView> {
    match a {
        Some(a) => Some(a@),
        None => None,
    }
}

impl View for Edge {
    type V = EdgeView;

    open spec fn view(&self) -> EdgeView {
        EdgeView {
            start: self.start as nat,
            end: self.end as nat,
            level: self.level,
            target: self.target@,
            audio: opt_audio(self.audio),
            tokens: crate::store::opt_bytes(self.tokens),
            nodes: self.nodes@,
            chars: self.chars as nat,
            text: self.text@,
        }
    }
}

/// The values of a sequence of edges.
pub open spec fn edge_views(v: Seq<Edge>) -> Seq<EdgeView> {
    Seq::new(v.len(), |i: int| v[i]@)
}

/// Edges, or the problem met while building them.
pub type Built = core::result::Result<Seq<EdgeView>, ErrorView>;

/// Edges followed by more, or the first problem.
pub open spec fn followed(a: Built, b: Built) -> Built {
    match a {
        Err(e) => Err(e),
        Ok(x) => match b {
            Err(e) => Err(e),
            Ok(y) => Ok(x + y),
        },
    }
}

// ---- joins ----

/// Whether a diphone edge was recorded behind another phoneme than the last
/// one of the word before.
pub open spec fn diphone_mismatch(
    nodes: Seq<NodeView>,
    words: Seq<Seq<char>>,
    dict: Dict,
    e: EdgeView,
) -> bool {
    match dict {
        None => false,
        Some(m) => if e.nodes.len() == 0 {
            false
        } else {
            match (pronunciation(m, words[e.start - 1]), context_of(nodes, e.nodes[0])) {
                (Some(p), Some(actual)) => p.len() > 0 && base_of(actual).len() > 0 && base_of(
                    p.last(),
                ) != base_of(actual),
                _ => false,
            }
        },
    }
}

/// What a phrase, word or morpheme edge costs for the word it follows.
pub open spec fn word_mismatch(
    nodes: Seq<NodeView>,
    words: Seq<Seq<char>>,
    e: EdgeView,
) -> Option<nat> {
    if e.nodes.len() == 0 {
        None
    } else {
        let context = crate::store::text_or_empty(context_of(nodes, e.nodes[0]));
        if context.len() == 0 {
            Some(join_initial_word())
        } else if context != words[e.start - 1] {
            Some(join_phonetic_word())
        } else {
            None
        }
    }
}

/// The cost of using edge `e` right behind edge `p`: the acoustic seam, and how
/// far the units' recorded contexts differ from the request. Generated audio
/// joins what is before it for free.
pub open spec fn join_of(
    nodes: Seq<NodeView>,
    words: Seq<Seq<char>>,
    dict: Dict,
    p: EdgeView,
    e: EdgeView,
) -> nat {
    match e.audio {
        None => 0,
        Some(b) => {
            let acoustic = match p.audio {
                None => join_after_synth(),
                Some(a) => times(join_acoustic(), seam(a, b)),
            };
            if e.start == 0 {
                acoustic
            } else {
                match e.level {
                    UnitLevel::Diphone => if diphone_mismatch(nodes, words, dict, e) {
                        plus(acoustic, join_phonetic_diphone())
                    } else {
                        acoustic
                    },
                    UnitLevel::Phoneme => acoustic,
                    _ => match word_mismatch(nodes, words, e) {
                        Some(extra) => plus(acoustic, extra),
                        None => acoustic,
                    },
                }
            }
        },
    }
}

/// The cost of playing edge `e` behind edge `p`.
pub fn join_cost(
    p: &Edge,
    e: &Edge,
    store: &MimicStore,
    words: &Vec<String>,
    g2p: Option<&G2p>,
) -> (r: Double)
    requires
        e.start <= words@.len(),
    ensures
        r@ == join_of(store@.nodes, texts(words@), opt_dict(g2p), p@, e@),
{
    let b: &WavAudio = match &e.audio {
        None => {
            return Double::zero();
        },
        Some(b) => b,
    };
    let acoustic = match &p.audio {
        None => Double::of_ratio(5, 100),
        Some(a) => Double::of_ratio(1, 2).times(seam_discontinuity(a, b)),
    };
    if e.start == 0 {
        return acoustic;
    }
    let before: &str = words[e.start - 1].as_str();
    assert(before@ == texts(words@)[e.start - 1]);
    match e.level {
        UnitLevel::Diphone => {
            let mut other: bool = false;
            if let Some(g) = g2p {
                if e.nodes.len() > 0 {
                    let wanted = g.phonemes(before);
                    let actual = store.context_prev(e.nodes[0]);
                    if let (Some(ps), Some(a)) = (wanted, actual) {
                        if ps.len() > 0 {
                            assert(texts(ps@).last() == ps@[ps@.len() - 1]@);
                            let have: &str = G2p::base(a);
                            if !have.is_empty() && !same_text(
                                G2p::base(ps[ps.len() - 1].as_str()),
                                have,
                            ) {
                                other = true;
                            }
                        }
                    }
                }
            }
            if other {
                acoustic.plus(Double::of_ratio(5, 100))
            } else {
                acoustic
            }
        },
        UnitLevel::Phoneme => acoustic,
        _ => {
            if e.nodes.len() == 0 {
                return acoustic;
            }
            let other = Double::of_ratio(8, 100);
            let initial = other.times(Double::of_ratio(75, 100));
            match store.context_prev(e.nodes[0]) {
                None => acoustic.plus(initial),
                Some(c) => {
                    if c.is_empty() {
                        acoustic.plus(initial)
                    } else if !same_text(c, before) {
                        acoustic.plus(other)
                    } else {
                        acoustic
                    }
                },
            }
        },
    }
}

// ---- edges ----

/// A search: the request, the dictionary, the medium, and the fades.
pub struct Search {
    pub q: Request,
    pub dict: Dict,
    pub medium: Medium,
    pub t: Gains,
}

/// The tokens of a unit: inline, or encoded from its audio.
pub open spec fn unit_tokens<C: AudioCodec + ?Sized>(
    nodes: Seq<NodeView>,
    id: NodeId,
    codec: &C,
) -> core::result::Result<Seq<u8>, ErrorView> {
    match tokens_at(nodes, id) {
        Ok(t) => Ok(t),
        Err(_) => match audio_at(nodes, id, codec) {
            Ok(a) => Ok(codec.encoded(a)),
            Err(e) => Err(e),
        },
    }
}

/// The tokens that an edge carries: none in the PCM medium.
pub open spec fn edge_tokens<C: AudioCodec + ?Sized>(
    x: Search,
    id: NodeId,
    codec: &C,
) -> core::result::Result<Option<Seq<u8>>, ErrorView> {
    match x.medium {
        Medium::Pcm => Ok(None),
        Medium::Tokens => match unit_tokens(x.q.nodes, id, codec) {
            Ok(t) => Ok(Some(t)),
            Err(e) => Err(e),
        },
    }
}

/// One edge with the audio and tokens of a unit.
pub open spec fn unit_edge<C: AudioCodec + ?Sized>(
    x: Search,
    id: NodeId,
    e: EdgeView,
    codec: &C,
) -> Built {
    match audio_at(x.q.nodes, id, codec) {
        Err(m) => Err(m),
        Ok(a) => match edge_tokens(x, id, codec) {
            Err(m) => Err(m),
            Ok(t) => Ok(seq![EdgeView { audio: Some(a), tokens: t, ..e }]),
        },
    }
}

/// The edge of cached phrase `k` at `start`, if the words there are its words.
pub open spec fn phrase_edge<C: AudioCodec + ?Sized>(
    x: Search,
    k: int,
    start: nat,
    codec: &C,
) -> Built {
    let ph = phrases(x.q)[k];
    let len = tokens(ph.0).len();
    let span = x.q.words.subrange(start as int, (start + len) as int);
    if len == 0 || start + len > x.q.words.len() || span != tokens(ph.0) {
        Ok(Seq::empty())
    } else {
        unit_edge(
            x,
            ph.1[0],
            EdgeView {
                start,
                end: start + len,
                level: UnitLevel::Phrase,
                target: 0,
                audio: None,
                tokens: None,
                nodes: ph.1,
                chars: total_len(span),
                text: ph.0,
            },
            codec,
        )
    }
}

/// The edges of cached phrase `k` at the first `m` starts.
pub open spec fn occurrences<C: AudioCodec + ?Sized>(
    x: Search,
    k: int,
    m: nat,
    codec: &C,
) -> Built
    decreases m,
{
    if m == 0 {
        Ok(Seq::empty())
    } else {
        followed(occurrences(x, k, (m - 1) as nat, codec), phrase_edge(x, k, (m - 1) as nat, codec))
    }
}

/// The edges of the first `k` cached phrases: every verbatim occurrence.
pub open spec fn phrase_edges<C: AudioCodec + ?Sized>(x: Search, k: nat, codec: &C) -> Built
    decreases k,
{
    if k == 0 {
        Ok(Seq::empty())
    } else {
        followed(
            phrase_edges(x, (k - 1) as nat, codec),
            occurrences(x, k - 1, x.q.words.len(), codec),
        )
    }
}

/// An edge over word `i` without audio.
pub open spec fn bare_edge(
    x: Search,
    i: nat,
    level: UnitLevel,
    target: nat,
    nodes: Seq<NodeId>,
) -> EdgeView {
    EdgeView {
        start: i,
        end: i + 1,
        level,
        target,
        audio: None,
        tokens: None,
        nodes,
        chars: x.q.words[i as int].len(),
        text: x.q.words[i as int],
    }
}

/// The edges of the first `m` cached variants of word `i`.
pub open spec fn variant_edges<C: AudioCodec + ?Sized>(
    x: Search,
    i: nat,
    m: nat,
    codec: &C,
) -> Built
    decreases m,
{
    if m == 0 {
        Ok(Seq::empty())
    } else {
        let id = matching(x.q.nodes, UnitLevel::Word, x.q.words[i as int])[m - 1];
        followed(
            variant_edges(x, i, (m - 1) as nat, codec),
            unit_edge(
                x,
                id,
                bare_edge(x, i, UnitLevel::Word, word_target(), seq![id]),
                codec,
            ),
        )
    }
}

/// The tokens of a segment of a unit.
pub open spec fn stem_tokens<C: AudioCodec + ?Sized>(
    x: Search,
    id: NodeId,
    c: CandidateView,
    codec: &C,
) -> core::result::Result<Option<Seq<u8>>, ErrorView> {
    match edge_tokens(x, id, codec) {
        Err(e) => Err(e),
        Ok(None) => Ok(None),
        Ok(Some(t)) => match sliced_tokens(t, c.from, c.to) {
            Err(e) => Err(e),
            Ok(s) => Ok(Some(s)),
        },
    }
}

/// The edge of a segment of a longer cached word, if there is one.
pub open spec fn stem_edge<C: AudioCodec + ?Sized>(x: Search, i: nat, codec: &C) -> Built {
    match stem_source(x.q.nodes, x.q.words[i as int]) {
        None => Ok(Seq::empty()),
        Some((c, ids)) => match audio_at(x.q.nodes, ids[0], codec) {
            Err(e) => Err(e),
            Ok(full) => match stem_tokens(x, ids[0], c, codec) {
                Err(e) => Err(e),
                Ok(t) => Ok(
                    seq![
                        EdgeView {
                            audio: Some(sliced(full, c.from, c.to)),
                            tokens: t,
                            ..bare_edge(
                                x,
                                i,
                                UnitLevel::Morpheme,
                                morpheme_target(),
                                seq![ids[0]],
                            )
                        },
                    ],
                ),
            },
        },
    }
}

/// The audio and tokens of a diphone chain in the medium of the search.
pub open spec fn chain_in_medium<C: AudioCodec + ?Sized>(
    x: Search,
    ps: Seq<Seq<char>>,
    codec: &C,
) -> Option<(WavView, Option<Seq<u8>>, nat, Seq<NodeId>)> {
    match x.medium {
        Medium::Pcm => match chain_audio(x.q.nodes, ps, codec, x.t) {
            None => None,
            Some((a, gaps, ids)) => Some((a, None, gaps, ids)),
        },
        Medium::Tokens => match chain_tokens(x.q.nodes, ps) {
            None => None,
            Some((s, gaps, ids)) => match codec.decoded(s) {
                Err(_) => None,
                Ok(a) => Some((a, Some(s), gaps, ids)),
            },
        },
    }
}

/// The edge of a diphone chain, if the word's phonemes are known and cached.
pub open spec fn chain_edge<C: AudioCodec + ?Sized>(x: Search, i: nat, codec: &C) -> Seq<EdgeView> {
    match x.dict {
        None => Seq::empty(),
        Some(m) => match pronunciation(m, x.q.words[i as int]) {
            None => Seq::empty(),
            Some(ps) => match chain_in_medium(x, ps, codec) {
                None => Seq::empty(),
                Some((a, t, gaps, ids)) => seq![
                    EdgeView {
                        audio: Some(a),
                        tokens: t,
                        ..bare_edge(x, i, UnitLevel::Diphone, chain_target(gaps), ids)
                    },
                ],
            },
        },
    }
}

/// The edge of generating word `i`.
pub open spec fn synth_edge(x: Search, i: nat) -> EdgeView {
    bare_edge(
        x,
        i,
        UnitLevel::Word,
        synth_target(x.q.words[i as int].len()),
        Seq::empty(),
    )
}

/// All edges over word `i` alone.
pub open spec fn edges_for<C: AudioCodec + ?Sized>(x: Search, i: nat, codec: &C) -> Built {
    let hits = matching(x.q.nodes, UnitLevel::Word, x.q.words[i as int]).len();
    followed(
        followed(variant_edges(x, i, hits, codec), stem_edge(x, i, codec)),
        Ok(chain_edge(x, i, codec).push(synth_edge(x, i))),
    )
}

/// All edges over single words among the first `n`.
pub open spec fn word_edges<C: AudioCodec + ?Sized>(x: Search, n: nat, codec: &C) -> Built
    decreases n,
{
    if n == 0 {
        Ok(Seq::empty())
    } else {
        followed(word_edges(x, (n - 1) as nat, codec), edges_for(x, (n - 1) as nat, codec))
    }
}

/// All edges of a search.
pub open spec fn built<C: AudioCodec + ?Sized>(x: Search, codec: &C) -> Built {
    followed(
        phrase_edges(x, phrases(x.q).len(), codec),
        word_edges(x, x.q.words.len(), codec),
    )
}

proof fn lemma_occurrences_error<C: AudioCodec + ?Sized>(
    x: Search,
    k: int,
    j: nat,
    m: nat,
    codec: &C,
)
    requires
        j <= m,
        occurrences(x, k, j, codec) is Err,
    ensures
        occurrences(x, k, m, codec) == occurrences(x, k, j, codec),
    decreases m,
{
    if j < m {
        lemma_occurrences_error(x, k, j, (m - 1) as nat, codec);
    }
}

proof fn lemma_phrase_edges_error<C: AudioCodec + ?Sized>(x: Search, j: nat, k: nat, codec: &C)
    requires
        j <= k,
        phrase_edges(x, j, codec) is Err,
    ensures
        phrase_edges(x, k, codec) == phrase_edges(x, j, codec),
    decreases k,
{
    if j < k {
        lemma_phrase_edges_error(x, j, (k - 1) as nat, codec);
    }
}

proof fn lemma_variants_error<C: AudioCodec + ?Sized>(
    x: Search,
    i: nat,
    j: nat,
    m: nat,
    codec: &C,
)
    requires
        j <= m,
        variant_edges(x, i, j, codec) is Err,
    ensures
        variant_edges(x, i, m, codec) == variant_edges(x, i, j, codec),
    decreases m,
{
    if j < m {
        lemma_variants_error(x, i, j, (m - 1) as nat, codec);
    }
}

proof fn lemma_word_edges_error<C: AudioCodec + ?Sized>(x: Search, j: nat, n: nat, codec: &C)
    requires
        j <= n,
        word_edges(x, j, codec) is Err,
    ensures
        word_edges(x, n, codec) == word_edges(x, j, codec),
    decreases n,
{
    if j < n {
        lemma_word_edges_error(x, j, (n - 1) as nat, codec);
    }
}

/// Whether appending to `before` gave `after`, as `part` says.
pub open spec fn appended(
    part: Built,
    before: Seq<EdgeView>,
    after: Seq<EdgeView>,
    r: core::result::Result<(), MimicError>,
) -> bool {
    match r {
        Ok(_) => part matches Ok(more) && after == before + more,
        Err(e) => part == Built::Err(e@),
    }
}

fn tokens_of_unit<C: AudioCodec + ?Sized>(
    store: &MimicStore,
    id: NodeId,
    medium: Medium,
    codec: &C,
    x: Ghost<Search>,
) -> (r: core::result::Result<Option<Vec<u8>>, MimicError>)
    requires
        x@.q.nodes == store@.nodes,
        x@.medium == medium,
    ensures
        match r {
            Ok(t) => edge_tokens(x@, id, codec) == Ok::<Option<Seq<u8>>, ErrorView>(
                crate::store::opt_bytes(t),
            ),
            Err(e) => edge_tokens(x@, id, codec) == Err::<Option<Seq<u8>>, ErrorView>(e@),
        },
{
    match medium {
        Medium::Pcm => Ok(None),
        Medium::Tokens => match store.get_tokens(id) {
            Ok(t) => Ok(Some(t)),
            Err(_) => match store.get_audio(id, codec) {
                Ok(a) => Ok(Some(codec.encode(&a))),
                Err(e) => Err(e),
            },
        },
    }
}

/// Appends the edge of one unit.
fn push_unit_edge<C: AudioCodec + ?Sized>(
    edges: &mut Vec<Edge>,
    store: &MimicStore,
    id: NodeId,
    edge: Edge,
    medium: Medium,
    codec: &C,
    x: Ghost<Search>,
) -> (r: core::result::Result<(), MimicError>)
    requires
        x@.q.nodes == store@.nodes,
        x@.medium == medium,
    ensures
        appended(
            unit_edge(x@, id, edge@, codec),
            edge_views(old(edges)@),
            edge_views(final(edges)@),
            r,
        ),
{
    match store.get_audio(id, codec) {
        Err(e) => Err(e),
        Ok(a) => match tokens_of_unit(store, id, medium, codec, x) {
            Err(e) => Err(e),
            Ok(t) => {
                let ghost before = edge_views(edges@);
                let full = Edge {
                    start: edge.start,
                    end: edge.end,
                    level: edge.level,
                    target: edge.target,
                    audio: Some(a),
                    tokens: t,
                    nodes: edge.nodes,
                    chars: edge.chars,
                    text: edge.text,
                };
                edges.push(full);
                assert(edge_views(edges@) =~= before + seq![full@]);
                Ok(())
            },
        },
    }
}

/// The characters of the words `from..to`.
pub fn count_chars(words: &Vec<String>, from: usize, to: usize) -> (r: usize)
    requires
        from <= to <= words@.len(),
        total_len(texts(words@)) <= usize::MAX,
    ensures
        r == total_len(texts(words@).subrange(from as int, to as int)),
{
    let ghost ws = texts(words@);
    let mut sum: usize = 0;
    let mut i: usize = from;
    assert(ws.subrange(from as int, from as int) =~= Seq::<Seq<char>>::empty());
    while i < to
        invariant
            ws == texts(words@),
            from <= i <= to <= words@.len(),
            total_len(ws) <= usize::MAX,
            sum == total_len(ws.subrange(from as int, i as int)),
        decreases to - i,
    {
        proof {
            let now = ws.subrange(from as int, i + 1);
            crate::text::lemma_total_len_part(ws, from as int, i + 1);
            assert(now.drop_last() =~= ws.subrange(from as int, i as int));
            assert(now.last() == words@[i as int]@);
        }
        sum += char_count(words[i].as_str());
        i += 1;
    }
    sum
}

/// Appends every occurrence of every cached phrase.
fn push_phrase_edges<C: AudioCodec + ?Sized>(
    edges: &mut Vec<Edge>,
    store: &MimicStore,
    words: &Vec<String>,
    medium: Medium,
    codec: &C,
    x: Ghost<Search>,
) -> (r: core::result::Result<(), MimicError>)
    requires
        x@.q == (Request { nodes: store@.nodes, words: texts(words@) }),
        x@.medium == medium,
        total_len(texts(words@)) <= usize::MAX,
        old(edges)@.len() == 0,
    ensures
        appended(
            phrase_edges(x@, phrases(x@.q).len(), codec),
            Seq::empty(),
            edge_views(final(edges)@),
            r,
        ),
{
    let ph = list_phrases(store);
    let n: usize = words.len();
    let mut k: usize = 0;
    assert(edge_views(edges@) =~= Seq::<EdgeView>::empty());
    assert(phrase_pairs(ph@).len() == ph@.len());
    while k < ph.len()
        invariant
            x@.q == (Request { nodes: store@.nodes, words: texts(words@) }),
            x@.medium == medium,
            n == words@.len(),
            total_len(texts(words@)) <= usize::MAX,
            phrase_pairs(ph@) == phrases(x@.q),
            ph@.len() == phrases(x@.q).len(),
            phrases_known(ph@),
            k <= ph@.len(),
            phrase_edges(x@, k as nat, codec) == Built::Ok(edge_views(edges@)),
        decreases ph@.len() - k,
    {
        let ghost round = edge_views(edges@);
        let p: &Phrase = &ph[k];
        let len: usize = p.words.len();
        proof {
            assert(phrases(x@.q)[k as int] == (p.text@, p.ids@));
            assert(texts(p.words@).len() == len);
            assert(round + Seq::<EdgeView>::empty() =~= round);
        }
        let mut start: usize = 0;
        while start < n
            invariant
                x@.q == (Request { nodes: store@.nodes, words: texts(words@) }),
                x@.medium == medium,
                n == words@.len(),
                total_len(texts(words@)) <= usize::MAX,
                k < ph@.len(),
                ph@.len() == phrases(x@.q).len(),
                p == ph@[k as int],
                phrases(x@.q)[k as int] == (p.text@, p.ids@),
                texts(p.words@) == tokens(p.text@),
                p.ids@.len() > 0,
                len == p.words@.len(),
                len == tokens(p.text@).len(),
                start <= n,
                phrase_edges(x@, k as nat, codec) == Built::Ok(round),
                occurrences(x@, k as int, start as nat, codec) matches Ok(more)
                    && edge_views(edges@) == round + more,
            decreases n - start,
        {
            let ghost before = edge_views(edges@);
            let ghost so_far = occurrences(x@, k as int, start as nat, codec)->Ok_0;
            if len > 0 && len <= n - start && words_match(words, start, &p.words) {
                let end: usize = start + len;
                let edge = Edge {
                    start,
                    end,
                    level: UnitLevel::Phrase,
                    target: Double::zero(),
                    audio: None,
                    tokens: None,
                    nodes: crate::store::copy_ids(&p.ids),
                    chars: count_chars(words, start, end),
                    text: p.text.clone(),
                };
                match push_unit_edge(edges, store, p.ids[0], edge, medium, codec, x) {
                    Err(e) => {
                        proof {
                            lemma_occurrences_error(
                                x@,
                                k as int,
                                (start + 1) as nat,
                                n as nat,
                                codec,
                            );
                            lemma_phrase_edges_error(
                                x@,
                                (k + 1) as nat,
                                phrases(x@.q).len(),
                                codec,
                            );
                        }
                        return Err(e);
                    },
                    Ok(_) => {
                        proof {
                            let one = unit_edge(x@, p.ids@[0], edge@, codec)->Ok_0;
                            assert((round + so_far) + one =~= round + (so_far + one));
                        }
                    },
                }
            } else {
                assert(so_far + Seq::<EdgeView>::empty() =~= so_far);
            }
            start += 1;
        }
        k += 1;
    }
    assert(Seq::<EdgeView>::empty() + edge_views(edges@) =~= edge_views(edges@));
    Ok(())
}

proof fn lemma_regrouped(
    first: Seq<EdgeView>,
    a: Seq<EdgeView>,
    b: Seq<EdgeView>,
    c: Seq<EdgeView>,
    last: EdgeView,
)
    ensures
        ((first + a) + b + c).push(last) == first + ((a + b) + c.push(last)),
{
    assert(((first + a) + b + c).push(last) =~= first + ((a + b) + c.push(last)));
}

/// Appends the edges over word `i` alone.
#[verifier::rlimit(40)]
fn push_word_edges<C: AudioCodec + ?Sized, F: FadeCurve + ?Sized>(
    edges: &mut Vec<Edge>,
    store: &MimicStore,
    words: &Vec<String>,
    i: usize,
    g2p: Option<&G2p>,
    medium: Medium,
    codec: &C,
    fades: &F,
    x: Ghost<Search>,
) -> (r: core::result::Result<(), MimicError>)
    requires
        x@ == (Search {
            q: Request { nodes: store@.nodes, words: texts(words@) },
            dict: opt_dict(g2p),
            medium,
            t: fades.gains(),
        }),
        i < words@.len(),
    ensures
        appended(
            edges_for(x@, i as nat, codec),
            edge_views(old(edges)@),
            edge_views(final(edges)@),
            r,
        ),
{
    let ghost first = edge_views(edges@);
    let ghost hits = matching(x@.q.nodes, UnitLevel::Word, x@.q.words[i as int]).len();
    match push_variants(edges, store, words, i, medium, codec, x) {
        Err(e) => {
            return Err(e);
        },
        Ok(_) => {},
    }
    let ghost variants = variant_edges(x@, i as nat, hits, codec)->Ok_0;
    match push_stem(edges, store, words, i, medium, codec, x) {
        Err(e) => {
            return Err(e);
        },
        Ok(_) => {},
    }
    let ghost stem = stem_edge(x@, i as nat, codec)->Ok_0;
    push_chain(edges, store, words, i, g2p, medium, codec, fades, x);
    let ghost chain = chain_edge(x@, i as nat, codec);
    let ghost before = edge_views(edges@);
    let n: usize = words.len();
    let chars: usize = char_count(words[i].as_str());
    assert(x@.q.words[i as int] == words@[i as int]@);
    let synth = Edge {
        start: i,
        end: i + 1,
        level: UnitLevel::Word,
        target: synth_cost(chars),
        audio: None,
        tokens: None,
        nodes: Vec::new(),
        chars,
        text: words[i].clone(),
    };
    edges.push(synth);
    proof {
        assert(synth@ =~= synth_edge(x@, i as nat));
        assert(edge_views(edges@) =~= before.push(synth@));
        lemma_regrouped(first, variants, stem, chain, synth@);
    }
    Ok(())
}

/// Appends the edges of all cached variants of word `i`.
fn push_variants<C: AudioCodec + ?Sized>(
    edges: &mut Vec<Edge>,
    store: &MimicStore,
    words: &Vec<String>,
    i: usize,
    medium: Medium,
    codec: &C,
    x: Ghost<Search>,
) -> (r: core::result::Result<(), MimicError>)
    requires
        x@.q == (Request { nodes: store@.nodes, words: texts(words@) }),
        x@.medium == medium,
        i < words@.len(),
    ensures
        appended(
            variant_edges(
                x@,
                i as nat,
                matching(x@.q.nodes, UnitLevel::Word, x@.q.words[i as int]).len(),
                codec,
            ),
            edge_views(old(edges)@),
            edge_views(final(edges)@),
            r,
        ),
{
    let ghost first = edge_views(edges@);
    let chars: usize = char_count(words[i].as_str());
    let ids = store.lookup_exact(UnitLevel::Word, words[i].as_str());
    assert(x@.q.words[i as int] == words@[i as int]@);
    assert(first + Seq::<EdgeView>::empty() =~= first);
    let n: usize = words.len();
    let mut m: usize = 0;
    while m < ids.len()
        invariant
            n == words@.len(),
            x@.q == (Request { nodes: store@.nodes, words: texts(words@) }),
            x@.medium == medium,
            i < words@.len(),
            x@.q.words[i as int] == words@[i as int]@,
            chars == words@[i as int]@.len(),
            ids@ == matching(x@.q.nodes, UnitLevel::Word, words@[i as int]@),
            m <= ids@.len(),
            variant_edges(x@, i as nat, m as nat, codec) matches Ok(more) && edge_views(edges@)
                == first + more,
        decreases ids@.len() - m,
    {
        let ghost so_far = variant_edges(x@, i as nat, m as nat, codec)->Ok_0;
        let id: NodeId = ids[m];
        let mut nodes: Vec<NodeId> = Vec::new();
        nodes.push(id);
        let edge = Edge {
            start: i,
            end: i + 1,
            level: UnitLevel::Word,
            target: Double::of_ratio(1, 10),
            audio: None,
            tokens: None,
            nodes,
            chars,
            text: words[i].clone(),
        };
        assert(edge@ =~= bare_edge(x@, i as nat, UnitLevel::Word, word_target(), seq![id]));
        match push_unit_edge(edges, store, id, edge, medium, codec, x) {
            Err(e) => {
                proof {
                    lemma_variants_error(x@, i as nat, (m + 1) as nat, ids@.len(), codec);
                }
                return Err(e);
            },
            Ok(_) => {
                proof {
                    let one = unit_edge(x@, id, edge@, codec)->Ok_0;
                    assert((first + so_far) + one =~= first + (so_far + one));
                }
            },
        }
        m += 1;
    }
    Ok(())
}

/// Appends the edge of a segment of a longer cached word, if there is one.
fn push_stem<C: AudioCodec + ?Sized>(
    edges: &mut Vec<Edge>,
    store: &MimicStore,
    words: &Vec<String>,
    i: usize,
    medium: Medium,
    codec: &C,
    x: Ghost<Search>,
) -> (r: core::result::Result<(), MimicError>)
    requires
        x@.q == (Request { nodes: store@.nodes, words: texts(words@) }),
        x@.medium == medium,
        i < words@.len(),
    ensures
        appended(
            stem_edge(x@, i as nat, codec),
            edge_views(old(edges)@),
            edge_views(final(edges)@),
            r,
        ),
{
    let ghost first = edge_views(edges@);
    let w: &str = words[i].as_str();
    assert(x@.q.words[i as int] == w@);
    let cands = morpheme_candidates(w);
    let ghost all = candidates(cands@);
    let n: usize = words.len();
    let mut k: usize = 0;
    while k < cands.len()
        invariant
            n == words@.len(),
            x@.q == (Request { nodes: store@.nodes, words: texts(words@) }),
            x@.medium == medium,
            i < words@.len(),
            x@.q.words[i as int] == w@,
            w@ == words@[i as int]@,
            first == edge_views(edges@),
            first == edge_views(old(edges)@),
            all == candidates(cands@),
            all == morphemes(w@),
            k <= cands@.len(),
            forall|j: int|
                0 <= j < k ==> matching(x@.q.nodes, UnitLevel::Word, (#[trigger] all[j]).word).len()
                    == 0,
        decreases cands@.len() - k,
    {
        let c: &Candidate = &cands[k];
        assert(all[k as int] == c@);
        let found = store.lookup_exact(UnitLevel::Word, c.word.as_str());
        if found.len() > 0 {
            proof {
                lemma_cached_candidate(x@.q.nodes, all, k as nat);
            }
            let id: NodeId = found[0];
            let full = match store.get_audio(id, codec) {
                Err(e) => {
                    return Err(e);
                },
                Ok(a) => a,
            };
            let toks: Option<Vec<u8>> = match tokens_of_unit(store, id, medium, codec, x) {
                Err(e) => {
                    return Err(e);
                },
                Ok(None) => None,
                Ok(Some(t)) => match slice_tokens(&t, c.from, c.to) {
                    Err(e) => {
                        return Err(e);
                    },
                    Ok(s) => Some(s),
                },
            };
            let mut nodes: Vec<NodeId> = Vec::new();
            nodes.push(id);
            assert(nodes@ =~= seq![id]);
            let edge = Edge {
                start: i,
                end: i + 1,
                level: UnitLevel::Morpheme,
                target: Double::of_ratio(45, 100),
                audio: Some(full.slice_frac(c.from, c.to)),
                tokens: toks,
                nodes,
                chars: char_count(w),
                text: words[i].clone(),
            };
            edges.push(edge);
            assert(edge_views(edges@) =~= first + seq![edge@]);
            return Ok(());
        }
        k += 1;
    }
    proof {
        lemma_cached_candidate(x@.q.nodes, all, k as nat);
        assert(first + Seq::<EdgeView>::empty() =~= first);
    }
    Ok(())
}

/// A diphone chain that was found.
struct Found {
    audio: WavAudio,
    tokens: Option<Vec<u8>>,
    gaps: usize,
    nodes: Vec<NodeId>,
}

fn find_chain<C: AudioCodec + ?Sized, F: FadeCurve + ?Sized>(
    store: &MimicStore,
    ps: &Vec<String>,
    medium: Medium,
    codec: &C,
    fades: &F,
    x: Ghost<Search>,
) -> (r: Option<Found>)
    requires
        x@.q.nodes == store@.nodes,
        x@.medium == medium,
        x@.t == fades.gains(),
    ensures
        match r {
            None => chain_in_medium(x@, texts(ps@), codec) is None,
            Some(c) => chain_in_medium(x@, texts(ps@), codec) == Some(
                (c.audio@, crate::store::opt_bytes(c.tokens), c.gaps as nat, c.nodes@),
            ),
        },
{
    match medium {
        Medium::Pcm => match diphone_chain(store, ps, codec, fades) {
            None => None,
            Some((audio, gaps, nodes)) => Some(Found { audio, tokens: None, gaps, nodes }),
        },
        Medium::Tokens => match diphone_chain_tokens(store, ps) {
            None => None,
            Some((s, gaps, nodes)) => match codec.decode(&s) {
                Err(_) => None,
                Ok(audio) => Some(Found { audio, tokens: Some(s), gaps, nodes }),
            },
        },
    }
}

/// Appends the edge of a diphone chain, if there is one.
#[verifier::rlimit(40)]
fn push_chain<C: AudioCodec + ?Sized, F: FadeCurve + ?Sized>(
    edges: &mut Vec<Edge>,
    store: &MimicStore,
    words: &Vec<String>,
    i: usize,
    g2p: Option<&G2p>,
    medium: Medium,
    codec: &C,
    fades: &F,
    x: Ghost<Search>,
)
    requires
        x@ == (Search {
            q: Request { nodes: store@.nodes, words: texts(words@) },
            dict: opt_dict(g2p),
            medium,
            t: fades.gains(),
        }),
        i < words@.len(),
    ensures
        edge_views(final(edges)@) == edge_views(old(edges)@) + chain_edge(x@, i as nat, codec),
{
    let ghost first = edge_views(edges@);
    let n: usize = words.len();
    assert(x@.q.words[i as int] == words@[i as int]@);
    assert(first + Seq::<EdgeView>::empty() =~= first);
    let g: &G2p = match g2p {
        None => {
            return;
        },
        Some(g) => g,
    };
    let ps = match g.phonemes(words[i].as_str()) {
        None => {
            return;
        },
        Some(p) => p,
    };
    let found = find_chain(store, &ps, medium, codec, fades, x);
    match found {
        None => {},
        Some(c) => {
            let Found { audio, tokens, gaps, nodes } = c;
            let edge = Edge {
                start: i,
                end: i + 1,
                level: UnitLevel::Diphone,
                target: chain_cost(gaps),
                audio: Some(audio),
                tokens,
                nodes,
                chars: char_count(words[i].as_str()),
                text: words[i].clone(),
            };
            edges.push(edge);
            assert(edge_views(edges@) =~= first + seq![edge@]);
        },
    }
}

/// Builds all edges of a request.
pub fn build_edges<C: AudioCodec + ?Sized, F: FadeCurve + ?Sized>(
    store: &MimicStore,
    words: &Vec<String>,
    g2p: Option<&G2p>,
    medium: Medium,
    codec: &C,
    fades: &F,
) -> (r: core::result::Result<Vec<Edge>, MimicError>)
    requires
        total_len(texts(words@)) <= usize::MAX,
    ensures
        ({
            let x = Search {
                q: Request { nodes: store@.nodes, words: texts(words@) },
                dict: opt_dict(g2p),
                medium,
                t: fades.gains(),
            };
            match r {
                Ok(edges) => built(x, codec) == Built::Ok(edge_views(edges@)),
                Err(e) => built(x, codec) == Built::Err(e@),
            }
        }),
{
    let ghost x = Search {
        q: Request { nodes: store@.nodes, words: texts(words@) },
        dict: opt_dict(g2p),
        medium,
        t: fades.gains(),
    };
    let mut edges: Vec<Edge> = Vec::new();
    match push_phrase_edges(&mut edges, store, words, medium, codec, Ghost(x)) {
        Err(e) => {
            return Err(e);
        },
        Ok(_) => {},
    }
    let ghost first = edge_views(edges@);
    proof {
        assert(Seq::<EdgeView>::empty() + first =~= first);
        assert(first + Seq::<EdgeView>::empty() =~= first);
    }
    let n: usize = words.len();
    let mut i: usize = 0;
    while i < n
        invariant
            x == (Search {
                q: Request { nodes: store@.nodes, words: texts(words@) },
                dict: opt_dict(g2p),
                medium,
                t: fades.gains(),
            }),
            n == words@.len(),
            phrase_edges(x, phrases(x.q).len(), codec) == Built::Ok(first),
            i <= n,
            word_edges(x, i as nat, codec) matches Ok(more) && edge_views(edges@) == first + more,
        decreases n - i,
    {
        let ghost so_far = word_edges(x, i as nat, codec)->Ok_0;
        match push_word_edges(&mut edges, store, words, i, g2p, medium, codec, fades, Ghost(x)) {
            Err(e) => {
                proof {
                    lemma_word_edges_error(x, (i + 1) as nat, n as nat, codec);
                }
                return Err(e);
            },
            Ok(_) => {
                proof {
                    let here = edges_for(x, i as nat, codec)->Ok_0;
                    assert((first + so_far) + here =~= first + (so_far + here));
                }
            },
        }
        i += 1;
    }
    Ok(edges)
}

// ---- what edges are good for ----

/// An edge that can be used in a search: it goes forward within the words,
/// counts their characters, and carries audio, and
/// tokens in the token medium, unless it generates a single word at the cost of
/// its characters.
pub open spec fn usable(x: Search, e: EdgeView) -> bool {
    &&& e.start < e.end <= x.q.words.len()
    &&& e.chars == total_len(x.q.words.subrange(e.start as int, e.end as int))
    &&& e.audio is None ==> e.end == e.start + 1 && e.target == synth_target(e.chars)
    &&& e.audio is Some && x.medium == Medium::Tokens ==> e.tokens is Some
}

/// Whether all edges can be used.
pub open spec fn all_usable(x: Search, v: Seq<EdgeView>) -> bool {
    forall|i: int| 0 <= i < v.len() ==> usable(x, #[trigger] v[i])
}

spec fn built_usable(x: Search, r: Built) -> bool {
    r matches Ok(v) ==> all_usable(x, v)
}

proof fn lemma_usable_followed(x: Search, a: Built, b: Built)
    requires
        built_usable(x, a),
        built_usable(x, b),
    ensures
        built_usable(x, followed(a, b)),
{
    if let (Ok(u), Ok(v)) = (a, b) {
        let both = u + v;
        assert forall|i: int| 0 <= i < both.len() implies usable(x, #[trigger] both[i]) by {
            if i < u.len() {
                assert(both[i] == u[i]);
            } else {
                assert(both[i] == v[i - u.len()]);
            }
        }
    }
}

proof fn lemma_single_word(words: Seq<Seq<char>>, i: nat)
    requires
        i < words.len(),
    ensures
        total_len(words.subrange(i as int, i as int + 1)) == words[i as int].len(),
{
    let one = words.subrange(i as int, i as int + 1);
    assert(one.drop_last() =~= Seq::<Seq<char>>::empty());
    assert(one.last() == words[i as int]);
    reveal_with_fuel(total_len, 2);
}

proof fn lemma_phrases_usable<C: AudioCodec + ?Sized>(x: Search, k: nat, codec: &C)
    ensures
        built_usable(x, phrase_edges(x, k, codec)),
    decreases k,
{
    if k > 0 {
        lemma_phrases_usable(x, (k - 1) as nat, codec);
        lemma_occurrences_usable(x, k - 1, x.q.words.len(), codec);
        lemma_usable_followed(
            x,
            phrase_edges(x, (k - 1) as nat, codec),
            occurrences(x, k - 1, x.q.words.len(), codec),
        );
    }
}

proof fn lemma_occurrences_usable<C: AudioCodec + ?Sized>(x: Search, k: int, m: nat, codec: &C)
    ensures
        built_usable(x, occurrences(x, k, m, codec)),
    decreases m,
{
    if m > 0 {
        lemma_occurrences_usable(x, k, (m - 1) as nat, codec);
        assert(built_usable(x, phrase_edge(x, k, (m - 1) as nat, codec)));
        lemma_usable_followed(
            x,
            occurrences(x, k, (m - 1) as nat, codec),
            phrase_edge(x, k, (m - 1) as nat, codec),
        );
    }
}

proof fn lemma_variants_usable<C: AudioCodec + ?Sized>(x: Search, i: nat, m: nat, codec: &C)
    requires
        i < x.q.words.len(),
    ensures
        built_usable(x, variant_edges(x, i, m, codec)),
    decreases m,
{
    if m > 0 {
        lemma_variants_usable(x, i, (m - 1) as nat, codec);
        lemma_single_word(x.q.words, i);
        let id = matching(x.q.nodes, UnitLevel::Word, x.q.words[i as int])[m - 1];
        let one = unit_edge(
            x,
            id,
            bare_edge(x, i, UnitLevel::Word, word_target(), seq![id]),
            codec,
        );
        assert(built_usable(x, one));
        lemma_usable_followed(x, variant_edges(x, i, (m - 1) as nat, codec), one);
    }
}

proof fn lemma_word_usable<C: AudioCodec + ?Sized>(x: Search, i: nat, codec: &C)
    requires
        i < x.q.words.len(),
    ensures
        built_usable(x, edges_for(x, i, codec)),
{
    let hits = matching(x.q.nodes, UnitLevel::Word, x.q.words[i as int]).len();
    lemma_single_word(x.q.words, i);
    lemma_variants_usable(x, i, hits, codec);
    let stem = stem_edge(x, i, codec);
    assert(built_usable(x, stem));
    lemma_usable_followed(x, variant_edges(x, i, hits, codec), stem);
    let rest = Built::Ok(chain_edge(x, i, codec).push(synth_edge(x, i)));
    assert(built_usable(x, rest));
    lemma_usable_followed(x, followed(variant_edges(x, i, hits, codec), stem), rest);
}

/// Whether an edge generates word `i`.
pub open spec fn generates(x: Search, v: Seq<EdgeView>, i: nat) -> bool {
    exists|k: int| 0 <= k < v.len() && #[trigger] v[k] == synth_edge(x, i)
}

proof fn lemma_words_usable<C: AudioCodec + ?Sized>(x: Search, n: nat, codec: &C)
    requires
        n <= x.q.words.len(),
    ensures
        built_usable(x, word_edges(x, n, codec)),
        word_edges(x, n, codec) matches Ok(v) ==> forall|i: nat|
            i < n ==> #[trigger] generates(x, v, i),
    decreases n,
{
    if n > 0 {
        let before = word_edges(x, (n - 1) as nat, codec);
        let here = edges_for(x, (n - 1) as nat, codec);
        lemma_words_usable(x, (n - 1) as nat, codec);
        lemma_word_usable(x, (n - 1) as nat, codec);
        lemma_usable_followed(x, before, here);
        if let (Ok(u), Ok(v)) = (before, here) {
            let both = u + v;
            assert forall|i: nat| i < n implies #[trigger] generates(x, both, i) by {
                if i < n - 1 {
                    assert(generates(x, u, i));
                    let k = choose|k: int| 0 <= k < u.len() && #[trigger] u[k] == synth_edge(x, i);
                    assert(both[k] == synth_edge(x, i));
                } else {
                    assert(v.last() == synth_edge(x, i));
                    assert(both[both.len() - 1] == synth_edge(x, i));
                }
            }
        }
    }
}

/// All edges of a search can be used, and every word can be generated.
pub proof fn built_edges_are_usable<C: AudioCodec + ?Sized>(x: Search, codec: &C)
    ensures
        built(x, codec) matches Ok(v) ==> all_usable(x, v) && forall|i: nat|
            i < x.q.words.len() ==> #[trigger] generates(x, v, i),
{
    let a = phrase_edges(x, phrases(x.q).len(), codec);
    let b = word_edges(x, x.q.words.len(), codec);
    lemma_phrases_usable(x, phrases(x.q).len(), codec);
    lemma_words_usable(x, x.q.words.len(), codec);
    lemma_usable_followed(x, a, b);
    if let (Ok(u), Ok(v)) = (a, b) {
        let both = u + v;
        assert forall|i: nat| i < x.q.words.len() implies #[trigger] generates(x, both, i) by {
            assert(generates(x, v, i));
            let k = choose|k: int| 0 <= k < v.len() && #[trigger] v[k] == synth_edge(x, i);
            assert(both[u.len() + k] == synth_edge(x, i));
        }
    }
}

/// The lattice of a search.
pub open spec fn lattice_of(x: Search, v: Seq<EdgeView>) -> Lattice {
    Lattice {
        arcs: Seq::new(
            v.len(),
            |k: int| Arc { start: v[k].start, end: v[k].end, target: v[k].target },
        ),
        join: |p: int, e: int| join_of(x.q.nodes, x.q.words, x.dict, v[p], v[e]),
        n: x.q.words.len(),
    }
}

/// A search always finds a path: every word can be generated.
pub proof fn every_request_has_a_path(x: Search, v: Seq<EdgeView>)
    requires
        x.q.words.len() > 0,
        all_usable(x, v),
        forall|i: nat| i < x.q.words.len() ==> #[trigger] generates(x, v, i),
    ensures
        forward(lattice_of(x, v)),
        chosen(lattice_of(x, v)) matches Some(p) && is_complete(lattice_of(x, v), p),
{
    let l = lattice_of(x, v);
    assert forall|i: int| 0 <= i < l.arcs.len() implies (#[trigger] l.arcs[i]).start
        < l.arcs[i].end by {
        assert(usable(x, v[i]));
    }
    let steps = Seq::new(
        l.n,
        |i: int| choose|k: int| 0 <= k < v.len() && #[trigger] v[k] == synth_edge(x, i as nat),
    );
    assert forall|i: int| 0 <= i < l.n implies 0 <= #[trigger] steps[i] < l.arcs.len()
        && l.arcs[steps[i]].start == i && l.arcs[steps[i]].end == i + 1 by {
        assert(generates(x, v, i as nat));
    }
    steps_reach_the_end(l, steps);
    chosen_path_is_cheapest(l);
}

// ---- what joins cost ----

/// What edges cost to join goes by how they sound together and by what they were
/// recorded behind. A provider's audio joins whatever is before it for free. Where
/// a unit was recorded behind the word that it follows, its join costs half of the
/// seam between the two.
pub proof fn joins_cost_half_of_their_seam(
    nodes: Seq<NodeView>,
    words: Seq<Seq<char>>,
    dict: Dict,
    p: EdgeView,
    e: EdgeView,
)
    ensures
        e.audio is None ==> join_of(nodes, words, dict, p, e) == 0,
        (p.audio matches Some(a) && e.audio matches Some(b) && seam(a, b) < infinite()
            && e.start > 0 && e.nodes.len() > 0 && (e.level == UnitLevel::Word || e.level
            == UnitLevel::Phrase || e.level == UnitLevel::Morpheme) && words[e.start - 1].len() > 0
            && context_of(nodes, e.nodes[0]) == Some(words[e.start - 1])) ==> {
            let cost = join_of(nodes, words, dict, p, e);
            let seam = seam(p.audio->Some_0, e.audio->Some_0);
            2 * cost <= seam + 1 && seam <= 2 * cost + 1
        },
{
    if let (Some(a), Some(b)) = (p.audio, e.audio) {
        let w = crate::audio::seam_window(a.sample_rate);
        let t = crate::audio::tail_of(a.samples, w);
        let h = crate::audio::head_of(b.samples, w);
        let sum = crate::double::apart(
            crate::measure::level(t),
            crate::measure::level(h),
        ) + crate::double::apart(
            crate::measure::crossing_rate(t),
            crate::measure::crossing_rate(h),
        );
        crate::double::halves_are_halves(sum, 1);
    }
}

/// A unit that was recorded behind the word that it is to follow joins no dearer
/// than one of the same sound that was not; one from the start of an utterance
/// joins no dearer than one that was recorded behind another word.
pub proof fn fitting_contexts_cost_less(
    nodes: Seq<NodeView>,
    words: Seq<Seq<char>>,
    dict: Dict,
    p: EdgeView,
    e: EdgeView,
    f: EdgeView,
)
    requires
        e.start == f.start,
        e.start > 0,
        e.audio == f.audio,
        e.level == f.level,
        e.level == UnitLevel::Word || e.level == UnitLevel::Phrase || e.level
            == UnitLevel::Morpheme,
        e.nodes.len() > 0,
        f.nodes.len() > 0,
        words[e.start - 1].len() > 0,
        p.audio matches Some(a) && (e.audio matches Some(b) ==> seam(a, b) < infinite()),
    ensures
        context_of(nodes, e.nodes[0]) == Some(words[e.start - 1]) ==> join_of(
            nodes,
            words,
            dict,
            p,
            e,
        ) <= join_of(nodes, words, dict, p, f),
        (context_of(nodes, e.nodes[0]) == Some(Seq::<char>::empty()) && (context_of(
            nodes,
            f.nodes[0],
        ) matches Some(c) && c.len() > 0 && c != words[f.start - 1])) ==> join_of(
            nodes,
            words,
            dict,
            p,
            e,
        ) <= join_of(nodes, words, dict, p, f),
{
    if let (Some(a), Some(b)) = (p.audio, e.audio) {
        let x = times(join_acoustic(), seam(a, b));
        lemma_initial_is_cheaper();
        vstd::arithmetic::power2::lemma_pow2_pos(1074);
        doubles_keep_the_order(x, x + join_initial_word(), 1);
        doubles_keep_the_order(x, x + join_phonetic_word(), 1);
        doubles_keep_the_order(x + join_initial_word(), x + join_phonetic_word(), 1);
        crate::double::doubles_stay(join_acoustic() * seam(a, b), unit());
    }
}

proof fn lemma_initial_is_cheaper()
    ensures
        join_initial_word() <= join_phonetic_word(),
{
    let y = join_phonetic_word();
    let r = ratio(75, 100);
    ratios_keep_the_order(75, 100, 1, 1);
    vstd::arithmetic::power2::lemma_pow2_pos(1074);
    crate::double::one_is_whole();
    assert(1 * unit() == unit());
    assert(ratio(1, 1) == unit());
    assert(y * r <= y * unit()) by (nonlinear_arith)
        requires
            r <= unit(),
    ;
    doubles_keep_the_order(y * r, y * unit(), unit());
    crate::double::lemma_same_quotient(y, 1, unit(), crate::double::TOP as nat);
    assert(1 * unit() == unit());
    crate::double::doubles_stay(8 * unit(), 100);
}

/// Generating a word costs more than playing it from the cache, and the more the
/// longer it is.
pub proof fn generating_costs_more(chars: nat, more: nat)
    requires
        chars <= more,
    ensures
        word_target() <= synth_target(chars) <= synth_target(more),
{
    let base = ratio(1, 10);
    let each = ratio(2, 10);
    let u = unit();
    assert(chars * u <= more * u) by (nonlinear_arith)
        requires
            chars <= more,
    ;
    doubles_keep_the_order(chars * u, more * u, 1);
    assert(each * whole(chars) <= each * whole(more)) by (nonlinear_arith)
        requires
            whole(chars) <= whole(more),
    ;
    vstd::arithmetic::power2::lemma_pow2_pos(1074);
    doubles_keep_the_order(each * whole(chars), each * whole(more), u);
    doubles_keep_the_order(base + times(each, whole(chars)), base + times(each, whole(more)), 1);
    doubles_keep_the_order(base, base + times(each, whole(chars)), 1);
    crate::double::doubles_stay(1 * u, 10);
}

} // verus!
