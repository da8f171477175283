//! The audio-primitive cache: an append-only graph of units.
//!
//! Each unit is a node whose properties carry text, level, prosody metadata
//! and the recorded audio: a wav file, a token stream, or both. Consecutive
//! units of an utterance are linked with `follows` edges. Nodes are written
//! once and numbered in the order of their insertion; a correction is a new
//! node. Exact text lookup is served by an index over level and text that is
//! rebuilt when a graph is restored.

use crate::audio::{
    duration_of, parse_wav, parsed_wav, to_wav_bytes, wav_bytes, wav_round_trip, WavAudio, WavView,
};
use crate::bytes::copy_range;
use crate::codec::{frames_for, frames_of, AudioCodec};
use crate::double::{over, times, whole, whole_is_positive, Double};
use crate::error::{outcome, ErrorView, MimicError, Result};
use crate::g2p::{base_of, G2p};
use crate::figures::{plain, show_plain};
use crate::measure::{crossing_rate, level};
use crate::text::{dec, decimal, same_text};
use crate::units::{level_name, UnitLevel};
use vstd::prelude::*;
use vstd::string::*;

verus! {

/// The number of a node.
#[derive(Debug, Clone, Copy, PartialEq, Eq, PartialOrd, Ord, Hash, Structural)]
pub struct NodeId(pub u64);

/// A cached audio unit.
pub struct Unit {
    pub level: UnitLevel,
    pub text: String,
    pub phonemes: String,
    pub voice: String,
    pub context_prev: String,
    pub context_next: String,
    /// The provider, or the cache domain, that the audio came from.
    pub cache_domain: String,
    pub duration_ms: u64,
    pub sample_rate: u32,
    /// The level, as a share of full scale.
    pub rms: Double,
    /// The pitch that the zero crossings stand for, in hertz.
    pub pitch_hz: Double,
    /// The name of the unit's wav file; empty where none was written.
    pub wav_path: String,
    /// The content of the wav file, where there is one.
    pub wav: Option<Vec<u8>>,
    /// The name of the codec of the token stream; empty where there is none.
    pub codec: String,
    pub frames: u64,
    pub tokens: Option<Vec<u8>>,
}

/// The value of a unit.
#[verifier::ext_equal]
pub struct UnitView {
    pub level: UnitLevel,
    pub text: Seq<char>,
    pub phonemes: Seq<char>,
    pub voice: Seq<char>,
    pub context_prev: Seq<char>,
    pub context_next: Seq<char>,
    pub cache_domain: Seq<char>,
    pub duration_ms: u64,
    pub sample_rate: u32,
    pub rms: nat,
    pub pitch_hz: nat,
    pub wav_path: Seq<char>,
    pub wav: Option<Seq<u8>>,
    pub codec: Seq<char>,
    pub frames: u64,
    pub tokens: Option<Seq<u8>>,
}

/// The bytes of an optional vector.
pub open spec fn opt_bytes(v: Option<Vec<u8>>) -> Option<Seq<u8>> {
    match v {
        Some(b) => Some(b@),
        None => None,
    }
}

impl View for Unit {
    type V = UnitView;

    open spec fn view(&self) -> UnitView {
        UnitView {
            level: self.level,
            text: self.text@,
            phonemes: self.phonemes@,
            voice: self.voice@,
            context_prev: self.context_prev@,
            context_next: self.context_next@,
            cache_domain: self.cache_domain@,
            duration_ms: self.duration_ms,
            sample_rate: self.sample_rate,
            rms: self.rms@,
            pitch_hz: self.pitch_hz@,
            wav_path: self.wav_path@,
            wav: opt_bytes(self.wav),
            codec: self.codec@,
            frames: self.frames,
            tokens: opt_bytes(self.tokens),
        }
    }
}

/// A node of the graph.
pub enum Node {
    Unit(Unit),
    /// A per-voice aggregate of an utterance.
    VoiceDna { voice: String, samples: u64, rms: Double, provider: String },
    /// A node that holds no unit.
    Other,
}

/// The value of a node.
pub enum NodeView {
    Unit(UnitView),
    VoiceDna { voice: Seq<char>, samples: u64, rms: nat, provider: Seq<char> },
    Other,
}

impl View for Node {
    type V = NodeView;

    open spec fn view(&self) -> NodeView {
        match self {
            Node::Unit(u) => NodeView::Unit(u@),
            Node::VoiceDna { voice, samples, rms, provider } => NodeView::VoiceDna {
                voice: voice@,
                samples: *samples,
                rms: rms@,
                provider: provider@,
            },
            Node::Other => NodeView::Other,
        }
    }
}

/// The values of a sequence of nodes.
pub open spec fn node_views(v: Seq<Node>) -> Seq<NodeView> {
    Seq::new(v.len(), |i: int| v[i]@)
}

/// The unit with number `id`, if that node is one.
pub open spec fn unit_at(nodes: Seq<NodeView>, id: NodeId) -> Option<UnitView> {
    if id.0 < nodes.len() {
        match nodes[id.0 as int] {
            NodeView::Unit(u) => Some(u),
            _ => None,
        }
    } else {
        None
    }
}

/// The text that a unit was recorded behind.
pub open spec fn context_of(nodes: Seq<NodeView>, id: NodeId) -> Option<Seq<char>> {
    match unit_at(nodes, id) {
        Some(u) => Some(u.context_prev),
        None => None,
    }
}

// ---- the exact index ----

/// The units with a level and a text, in the order of their insertion.
#[verifier::ext_equal]
pub struct EntryView {
    pub level: UnitLevel,
    pub text: Seq<char>,
    pub ids: Seq<NodeId>,
}

/// One entry of the exact index.
pub struct Entry {
    pub level: UnitLevel,
    pub text: String,
    pub ids: Vec<NodeId>,
}

impl View for Entry {
    type V = EntryView;

    open spec fn view(&self) -> EntryView {
        EntryView { level: self.level, text: self.text@, ids: self.ids@ }
    }
}

/// The values of a sequence of entries.
pub open spec fn entry_views(v: Seq<Entry>) -> Seq<EntryView> {
    Seq::new(v.len(), |i: int| v[i]@)
}

pub open spec fn keyed(e: EntryView, level: UnitLevel, text: Seq<char>) -> bool {
    e.level == level && e.text == text
}

/// The position of the entry for a level and a text, or the length.
pub open spec fn spot(index: Seq<EntryView>, level: UnitLevel, text: Seq<char>) -> nat
    decreases index.len(),
{
    if index.len() == 0 || keyed(index[0], level, text) {
        0
    } else {
        1 + spot(index.skip(1), level, text)
    }
}

pub proof fn lemma_spot(index: Seq<EntryView>, level: UnitLevel, text: Seq<char>)
    ensures
        spot(index, level, text) <= index.len(),
        forall|i: int|
            0 <= i < spot(index, level, text) ==> !keyed(#[trigger] index[i], level, text),
        spot(index, level, text) < index.len() ==> keyed(
            index[spot(index, level, text) as int],
            level,
            text,
        ),
    decreases index.len(),
{
    if index.len() > 0 && !keyed(index[0], level, text) {
        let t = index.skip(1);
        lemma_spot(t, level, text);
        assert forall|i: int| 0 <= i < spot(index, level, text) implies !keyed(
            #[trigger] index[i],
            level,
            text,
        ) by {
            if i > 0 {
                assert(index[i] == t[i - 1]);
            }
        }
        if spot(index, level, text) < index.len() {
            assert(index[spot(index, level, text) as int] == t[spot(t, level, text) as int]);
        }
    }
}

proof fn lemma_spot_unique(index: Seq<EntryView>, level: UnitLevel, text: Seq<char>, k: nat)
    requires
        k <= index.len(),
        forall|i: int| 0 <= i < k ==> !keyed(#[trigger] index[i], level, text),
        k < index.len() ==> keyed(index[k as int], level, text),
    ensures
        spot(index, level, text) == k,
{
    lemma_spot(index, level, text);
    let s = spot(index, level, text);
    if s < k {
        assert(!keyed(index[s as int], level, text));
    } else if k < s {
        assert(!keyed(index[k as int], level, text));
    }
}

/// The index with one more unit.
pub open spec fn filed(
    index: Seq<EntryView>,
    level: UnitLevel,
    text: Seq<char>,
    id: NodeId,
) -> Seq<EntryView> {
    let k = spot(index, level, text) as int;
    if k < index.len() {
        index.update(k, EntryView { level, text, ids: index[k].ids.push(id) })
    } else {
        index.push(EntryView { level, text, ids: seq![id] })
    }
}

/// The index over all units, its entries in the order in which their keys
/// first occur.
pub open spec fn indexed(nodes: Seq<NodeView>) -> Seq<EntryView>
    decreases nodes.len(),
{
    if nodes.len() == 0 {
        Seq::empty()
    } else {
        let before = indexed(nodes.drop_last());
        match nodes.last() {
            NodeView::Unit(u) => filed(
                before,
                u.level,
                u.text,
                NodeId((nodes.len() - 1) as u64),
            ),
            _ => before,
        }
    }
}

/// Whether node `i` is a unit with a level and a text.
pub open spec fn matches_key(
    nodes: Seq<NodeView>,
    i: int,
    level: UnitLevel,
    text: Seq<char>,
) -> bool {
    nodes[i] matches NodeView::Unit(u) && u.level == level && u.text == text
}

/// The numbers of all units with a level and a text, in ascending order.
pub open spec fn matching(nodes: Seq<NodeView>, level: UnitLevel, text: Seq<char>) -> Seq<NodeId>
    decreases nodes.len(),
{
    if nodes.len() == 0 {
        Seq::empty()
    } else if matches_key(nodes, nodes.len() - 1, level, text) {
        matching(nodes.drop_last(), level, text).push(NodeId((nodes.len() - 1) as u64))
    } else {
        matching(nodes.drop_last(), level, text)
    }
}

/// The numbers that an index holds for a level and a text.
pub open spec fn ids_in(index: Seq<EntryView>, level: UnitLevel, text: Seq<char>) -> Seq<NodeId> {
    let k = spot(index, level, text) as int;
    if k < index.len() {
        index[k].ids
    } else {
        Seq::empty()
    }
}

proof fn lemma_filed(
    index: Seq<EntryView>,
    level: UnitLevel,
    text: Seq<char>,
    id: NodeId,
    other_level: UnitLevel,
    other: Seq<char>,
)
    ensures
        ids_in(filed(index, level, text, id), level, text) == ids_in(index, level, text).push(id),
        (other_level != level || other != text) ==> ids_in(
            filed(index, level, text, id),
            other_level,
            other,
        ) == ids_in(index, other_level, other),
{
    let k = spot(index, level, text) as int;
    let after = filed(index, level, text, id);
    lemma_spot(index, level, text);
    assert forall|i: int| 0 <= i < k implies !keyed(#[trigger] after[i], level, text) by {
        assert(after[i] == index[i]);
    }
    lemma_spot_unique(after, level, text, k as nat);
    if k >= index.len() {
        assert(seq![id] =~= Seq::<NodeId>::empty().push(id));
    }
    if other_level != level || other != text {
        lemma_spot(index, other_level, other);
        let j = spot(index, other_level, other) as int;
        assert forall|i: int| 0 <= i < j implies !keyed(#[trigger] after[i], other_level, other) by {
            if i < index.len() && i != k {
                assert(after[i] == index[i]);
            }
        }
        if j < index.len() {
            assert(j != k);
            assert(after[j] == index[j]);
            lemma_spot_unique(after, other_level, other, j as nat);
        } else {
            assert forall|i: int| 0 <= i < after.len() implies !keyed(
                #[trigger] after[i],
                other_level,
                other,
            ) by {
                if i < index.len() && i != k {
                    assert(after[i] == index[i]);
                }
            }
            lemma_spot_unique(after, other_level, other, after.len());
        }
    }
}

/// The index finds exactly the units with a level and a text, in the order of
/// their insertion.
pub proof fn index_finds_every_unit(nodes: Seq<NodeView>, level: UnitLevel, text: Seq<char>)
    ensures
        ids_in(indexed(nodes), level, text) == matching(nodes, level, text),
    decreases nodes.len(),
{
    if nodes.len() > 0 {
        index_finds_every_unit(nodes.drop_last(), level, text);
        if let NodeView::Unit(u) = nodes.last() {
            lemma_filed(
                indexed(nodes.drop_last()),
                u.level,
                u.text,
                NodeId((nodes.len() - 1) as u64),
                level,
                text,
            );
        }
    }
}

/// Every entry of the index is the only one for its key, and holds all units
/// with that key, of which there is at least one.
pub proof fn index_entries_are_complete(nodes: Seq<NodeView>)
    ensures
        forall|k: int|
            0 <= k < indexed(nodes).len() ==> {
                let e = #[trigger] indexed(nodes)[k];
                e.ids == matching(nodes, e.level, e.text) && e.ids.len() > 0 && spot(
                    indexed(nodes),
                    e.level,
                    e.text,
                ) == k
            },
    decreases nodes.len(),
{
    if nodes.len() > 0 {
        let init = nodes.drop_last();
        let before = indexed(init);
        let after = indexed(nodes);
        index_entries_are_complete(init);
        if let NodeView::Unit(u) = nodes.last() {
            let s = spot(before, u.level, u.text) as int;
            lemma_spot(before, u.level, u.text);
            assert forall|k: int| 0 <= k < after.len() implies {
                let e = #[trigger] after[k];
                e.ids == matching(nodes, e.level, e.text) && e.ids.len() > 0 && spot(
                    after,
                    e.level,
                    e.text,
                ) == k
            } by {
                let e = after[k];
                assert forall|i: int| 0 <= i < k implies !keyed(
                    #[trigger] after[i],
                    e.level,
                    e.text,
                ) by {
                    if k < before.len() {
                        assert(spot(before, before[k].level, before[k].text) == k);
                        lemma_spot(before, before[k].level, before[k].text);
                        assert(!keyed(before[i], before[k].level, before[k].text));
                    } else {
                        assert(!keyed(before[i], u.level, u.text));
                    }
                }
                lemma_spot_unique(after, e.level, e.text, k as nat);
                index_finds_every_unit(nodes, e.level, e.text);
            }
        }
    }
}

/// Found units are units with the level and the text that was asked for, and
/// come in ascending order.
pub proof fn found_units_match(nodes: Seq<NodeView>, level: UnitLevel, text: Seq<char>)
    requires
        nodes.len() <= u64::MAX,
    ensures
        ({
            let ids = matching(nodes, level, text);
            &&& ids.len() <= nodes.len()
            &&& forall|i: int|
                0 <= i < ids.len() ==> (#[trigger] ids[i]).0 < nodes.len() && matches_key(
                    nodes,
                    ids[i].0 as int,
                    level,
                    text,
                )
            &&& forall|i: int, j: int|
                0 <= i < j < ids.len() ==> (#[trigger] ids[i]).0 < (#[trigger] ids[j]).0
        }),
    decreases nodes.len(),
{
    if nodes.len() > 0 {
        let init = nodes.drop_last();
        found_units_match(init, level, text);
        let before = matching(init, level, text);
        let ids = matching(nodes, level, text);
        assert forall|i: int| 0 <= i < ids.len() implies (#[trigger] ids[i]).0 < nodes.len()
            && matches_key(nodes, ids[i].0 as int, level, text) by {
            if i < before.len() {
                assert(ids[i] == before[i]);
                assert(init[ids[i].0 as int] == nodes[ids[i].0 as int]);
            }
        }
        assert forall|i: int, j: int| 0 <= i < j < ids.len() implies (#[trigger] ids[i]).0 < (
        #[trigger] ids[j]).0 by {
            assert(ids[i] == before[i]);
            if j < before.len() {
                assert(ids[j] == before[j]);
            }
        }
    }
}

// ---- the store ----

/// The value of a store: its nodes and its `follows` edges.
#[verifier::ext_equal]
pub struct StoreView {
    pub nodes: Seq<NodeView>,
    pub edges: Seq<(NodeId, NodeId)>,
}

/// The cache: nodes, edges, and the index over exact texts.
pub struct MimicStore {
    nodes: Vec<Node>,
    edges: Vec<(NodeId, NodeId)>,
    index: Vec<Entry>,
}

impl View for MimicStore {
    type V = StoreView;

    closed spec fn view(&self) -> StoreView {
        StoreView { nodes: node_views(self.nodes@), edges: self.edges@ }
    }
}

/// How many units of each level, nodes and edges a store holds.
#[derive(Debug, Default, Clone, Copy, PartialEq, Eq)]
pub struct StoreStats {
    pub phrases: usize,
    pub words: usize,
    pub morphemes: usize,
    pub diphones: usize,
    pub phonemes: usize,
    pub total_nodes: usize,
    pub total_edges: usize,
}

/// The text of an optional string.
pub open spec fn opt_text(s: Option<&str>) -> Option<Seq<char>> {
    match s {
        Some(t) => Some(t@),
        None => None,
    }
}

/// The text of an optional string, empty where there is none.
pub open spec fn text_or_empty(s: Option<Seq<char>>) -> Seq<char> {
    match s {
        Some(t) => t,
        None => Seq::empty(),
    }
}

/// What is recorded of a unit apart from its place in the graph.
#[verifier::ext_equal]
pub struct Recorded {
    pub level: UnitLevel,
    pub text: Seq<char>,
    pub phonemes: Seq<char>,
    pub voice: Seq<char>,
    pub audio: WavView,
    pub tokens: Option<Seq<u8>>,
    pub write_wav: bool,
    pub prev: Option<Seq<char>>,
    pub next: Option<Seq<char>>,
    pub provider: Seq<char>,
}

/// The pitch that the zero crossings of audio stand for, in hertz: half of what
/// crosses in a second.
pub open spec fn pitch_of(a: WavView) -> nat {
    over(times(crossing_rate(a.samples), whole(a.sample_rate as nat)), whole(2))
}

/// The unit that stands for a recording as node `at`.
pub open spec fn unit_of(r: Recorded, at: nat) -> UnitView {
    UnitView {
        level: r.level,
        text: r.text,
        phonemes: r.phonemes,
        voice: r.voice,
        context_prev: text_or_empty(r.prev),
        context_next: text_or_empty(r.next),
        cache_domain: r.provider,
        duration_ms: duration_of(r.audio.samples.len(), r.audio.sample_rate) as u64,
        sample_rate: r.audio.sample_rate,
        rms: level(r.audio.samples),
        pitch_hz: pitch_of(r.audio),
        wav_path: if r.write_wav {
            dec(at) + ".wav"@
        } else {
            Seq::empty()
        },
        wav: if r.write_wav {
            Some(wav_bytes(r.audio))
        } else {
            None
        },
        codec: if r.tokens is Some {
            "mimic-mct-v1"@
        } else {
            Seq::empty()
        },
        frames: if r.tokens is Some {
            frames_of(r.audio.samples.len()) as u64
        } else {
            0
        },
        tokens: r.tokens,
    }
}

/// A store with one more node.
pub open spec fn with_node(s: StoreView, n: NodeView) -> StoreView {
    StoreView { nodes: s.nodes.push(n), edges: s.edges }
}

/// A store with one more unit.
pub open spec fn with_unit(s: StoreView, r: Recorded) -> StoreView {
    with_node(s, NodeView::Unit(unit_of(r, s.nodes.len())))
}

/// A store with one more edge.
pub open spec fn with_edge(s: StoreView, prev: NodeId, next: NodeId) -> StoreView {
    StoreView { nodes: s.nodes, edges: s.edges.push((prev, next)) }
}

/// The number of units at a level.
pub open spec fn count_level(nodes: Seq<NodeView>, level: UnitLevel) -> nat
    decreases nodes.len(),
{
    if nodes.len() == 0 {
        0
    } else {
        count_level(nodes.drop_last(), level) + (if nodes.last() matches NodeView::Unit(u)
            && u.level == level {
            1nat
        } else {
            0nat
        })
    }
}

/// The texts of an index at one level, each with its units.
pub open spec fn entries_at(index: Seq<EntryView>, level: UnitLevel) -> Seq<
    (Seq<char>, Seq<NodeId>),
>
    decreases index.len(),
{
    if index.len() == 0 {
        Seq::empty()
    } else if index.last().level == level {
        entries_at(index.drop_last(), level).push((index.last().text, index.last().ids))
    } else {
        entries_at(index.drop_last(), level)
    }
}

/// The values of a sequence of texts with their units.
pub open spec fn entry_pairs(v: Seq<(String, Vec<NodeId>)>) -> Seq<(Seq<char>, Seq<NodeId>)> {
    Seq::new(v.len(), |i: int| (v[i].0@, v[i].1@))
}

/// Whether node `i` is a phoneme unit with a base symbol.
pub open spec fn matches_base(nodes: Seq<NodeView>, i: int, base: Seq<char>) -> bool {
    nodes[i] matches NodeView::Unit(u) && u.level == UnitLevel::Phoneme && base_of(u.text) == base
}

/// The numbers of all phoneme units with a base symbol, in ascending order.
pub open spec fn matching_base(nodes: Seq<NodeView>, base: Seq<char>) -> Seq<NodeId>
    decreases nodes.len(),
{
    if nodes.len() == 0 {
        Seq::empty()
    } else if matches_base(nodes, nodes.len() - 1, base) {
        matching_base(nodes.drop_last(), base).push(NodeId((nodes.len() - 1) as u64))
    } else {
        matching_base(nodes.drop_last(), base)
    }
}

/// How many neighbours a unit was recorded next to: one each for the previous
/// and the next text that agree.
pub open spec fn context_score(
    nodes: Seq<NodeView>,
    id: NodeId,
    prev: Option<Seq<char>>,
    next: Option<Seq<char>>,
) -> int {
    match unit_at(nodes, id) {
        None => 0,
        Some(u) => (if prev == Some(u.context_prev) {
            1int
        } else {
            0
        }) + (if next == Some(u.context_next) {
            1int
        } else {
            0
        }),
    }
}

/// Whether `a` fits a context better than `b`, the lower number first on a
/// tie.
pub open spec fn fits_better(
    nodes: Seq<NodeView>,
    a: NodeId,
    b: NodeId,
    prev: Option<Seq<char>>,
    next: Option<Seq<char>>,
) -> bool {
    let x = context_score(nodes, a, prev, next);
    let y = context_score(nodes, b, prev, next);
    x > y || (x == y && a.0 <= b.0)
}

/// The token stream of a unit.
pub open spec fn tokens_at(nodes: Seq<NodeView>, id: NodeId) -> core::result::Result<
    Seq<u8>,
    ErrorView,
> {
    if id.0 >= nodes.len() {
        Err(ErrorView::NotFound("node "@ + dec(id.0 as nat)))
    } else {
        match unit_at(nodes, id) {
            Some(UnitView { tokens: Some(t), .. }) => Ok(t),
            _ => Err(ErrorView::NotFound("node "@ + dec(id.0 as nat) + " has no tokens"@)),
        }
    }
}

/// The audio of a unit: its wav file, or else its decoded tokens.
pub open spec fn audio_at<C: AudioCodec + ?Sized>(
    nodes: Seq<NodeView>,
    id: NodeId,
    codec: &C,
) -> core::result::Result<WavView, ErrorView> {
    match unit_at(nodes, id) {
        None => Err(ErrorView::NotFound("node "@ + dec(id.0 as nat) + " has no wav_path"@)),
        Some(u) => if u.wav_path.len() > 0 && u.wav is Some {
            parsed_wav(u.wav->Some_0)
        } else {
            match tokens_at(nodes, id) {
                Err(e) => Err(e),
                Ok(t) => codec.decoded(t),
            }
        },
    }
}

/// A property of a node as text.
pub open spec fn property(nodes: Seq<NodeView>, id: NodeId, key: Seq<char>) -> Option<Seq<char>> {
    if id.0 >= nodes.len() {
        None
    } else {
        match nodes[id.0 as int] {
            NodeView::Unit(u) => unit_property(u, key),
            NodeView::VoiceDna { voice, samples, rms, provider: _ } => if key == "voice"@ {
                Some(voice)
            } else if key == "text"@ {
                Some("voice:"@ + voice)
            } else if key == "samples"@ {
                Some(dec(samples as nat))
            } else if key == "rms"@ {
                Some(plain(rms))
            } else {
                None
            },
            NodeView::Other => None,
        }
    }
}

/// A property of a unit as text.
pub open spec fn unit_property(u: UnitView, key: Seq<char>) -> Option<Seq<char>> {
    if key == "text"@ {
        Some(u.text)
    } else if key == "level"@ {
        Some(level_name(u.level))
    } else if key == "phonemes"@ {
        Some(u.phonemes)
    } else if key == "wav_path"@ {
        Some(u.wav_path)
    } else if key == "duration_ms"@ {
        Some(dec(u.duration_ms as nat))
    } else if key == "sample_rate"@ {
        Some(dec(u.sample_rate as nat))
    } else if key == "voice"@ {
        Some(u.voice)
    } else if key == "context_prev"@ {
        Some(u.context_prev)
    } else if key == "context_next"@ {
        Some(u.context_next)
    } else if key == "cache_domain"@ {
        Some(u.cache_domain)
    } else if key == "codec"@ && u.tokens is Some {
        Some(u.codec)
    } else if key == "frames"@ && u.tokens is Some {
        Some(dec(u.frames as nat))
    } else if key == "rms"@ {
        Some(plain(u.rms))
    } else if key == "pitch_hz"@ {
        Some(plain(u.pitch_hz))
    } else {
        None
    }
}

/// The bytes of all token streams.
pub open spec fn token_bytes(nodes: Seq<NodeView>) -> nat
    decreases nodes.len(),
{
    if nodes.len() == 0 {
        0
    } else {
        token_bytes(nodes.drop_last()) + (match nodes.last() {
            NodeView::Unit(UnitView { tokens: Some(t), .. }) => t.len(),
            _ => 0,
        })
    }
}

/// The bytes that wav files of all units would take at 16 kHz.
pub open spec fn wav_equivalent(nodes: Seq<NodeView>) -> nat
    decreases nodes.len(),
{
    if nodes.len() == 0 {
        0
    } else {
        wav_equivalent(nodes.drop_last()) + (match nodes.last() {
            NodeView::Unit(u) => 44 + u.duration_ms as nat * 32,
            _ => 0,
        })
    }
}

fn or_empty(s: Option<&str>) -> (r: String)
    ensures
        r@ == text_or_empty(opt_text(s)),
{
    match s {
        Some(t) => t.to_owned(),
        None => String::new(),
    }
}

/// The position of the entry for a level and a text.
fn spot_in(index: &Vec<Entry>, level: UnitLevel, text: &str) -> (r: usize)
    ensures
        r == spot(entry_views(index@), level, text@),
        r <= index@.len(),
{
    let ghost e = entry_views(index@);
    let mut i: usize = 0;
    while i < index.len() && !(index[i].level == level && same_text(index[i].text.as_str(), text))
        invariant
            e == entry_views(index@),
            i <= index@.len(),
            forall|k: int| 0 <= k < i ==> !keyed(#[trigger] e[k], level, text@),
        decreases index@.len() - i,
    {
        assert(e[i as int] == index@[i as int]@);
        i += 1;
    }
    proof {
        if i < index@.len() {
            assert(e[i as int] == index@[i as int]@);
        }
        lemma_spot_unique(e, level, text@, i as nat);
    }
    i
}

/// Adds a unit to the index.
fn file(index: &mut Vec<Entry>, level: UnitLevel, text: &str, id: NodeId)
    ensures
        entry_views(final(index)@) == filed(entry_views(old(index)@), level, text@, id),
{
    let ghost before = entry_views(index@);
    let k: usize = spot_in(index, level, text);
    if k < index.len() {
        proof {
            lemma_spot(before, level, text@);
            assert(before[k as int] == index@[k as int]@);
        }
        index[k].ids.push(id);
        assert(entry_views(index@) =~= filed(before, level, text@, id));
    } else {
        let mut ids: Vec<NodeId> = Vec::new();
        ids.push(id);
        index.push(Entry { level, text: text.to_owned(), ids });
        assert(ids@ =~= seq![id]);
        assert(entry_views(index@) =~= filed(before, level, text@, id));
    }
}

fn node_error(id: NodeId, tail: &str) -> (r: MimicError)
    ensures
        r@ == ErrorView::NotFound("node "@ + dec(id.0 as nat) + tail@),
{
    let mut m = "node ".to_owned();
    m.append(decimal(id.0).as_str());
    m.append(tail);
    MimicError::NotFound(m)
}

impl MimicStore {
    #[verifier::type_invariant]
    closed spec fn inv(self) -> bool {
        entry_views(self.index@) == indexed(node_views(self.nodes@))
    }

    /// An empty store.
    pub fn new() -> (r: MimicStore)
        ensures
            r@ == (StoreView { nodes: Seq::empty(), edges: Seq::empty() }),
    {
        let nodes: Vec<Node> = Vec::new();
        let index: Vec<Entry> = Vec::new();
        assert(node_views(nodes@) =~= Seq::empty());
        assert(entry_views(index@) =~= indexed(node_views(nodes@)));
        MimicStore { nodes, edges: Vec::new(), index }
    }

    /// A store with the nodes and edges of a saved graph, in their order. The
    /// index is rebuilt.
    pub fn restore(nodes: Vec<Node>, edges: Vec<(NodeId, NodeId)>) -> (r: MimicStore)
        ensures
            r@ == (StoreView { nodes: node_views(nodes@), edges: edges@ }),
    {
        let ghost all = node_views(nodes@);
        let mut index: Vec<Entry> = Vec::new();
        let mut i: usize = 0;
        assert(entry_views(index@) =~= indexed(all.take(0)));
        while i < nodes.len()
            invariant
                all == node_views(nodes@),
                i <= nodes@.len(),
                entry_views(index@) == indexed(all.take(i as int)),
            decreases nodes@.len() - i,
        {
            proof {
                assert(all.take(i + 1).drop_last() =~= all.take(i as int));
                assert(all.take(i + 1).last() == nodes@[i as int]@);
            }
            if let Node::Unit(u) = &nodes[i] {
                file(&mut index, u.level, u.text.as_str(), NodeId(i as u64));
            }
            i += 1;
        }
        assert(all.take(i as int) =~= all);
        MimicStore { nodes, edges, index }
    }

    /// Appends a node.
    fn add_node(&mut self, node: Node) -> (r: NodeId)
        ensures
            final(self)@ == with_node(old(self)@, node@),
            r.0 == old(self)@.nodes.len(),
    {
        proof {
            use_type_invariant(&*self);
        }
        let ghost before = node_views(self.nodes@);
        let mut taken = MimicStore::new();
        core::mem::swap(self, &mut taken);
        let MimicStore { mut nodes, edges, mut index } = taken;
        let len: usize = nodes.len();
        let id = NodeId(len as u64);
        if let Node::Unit(u) = &node {
            file(&mut index, u.level, u.text.as_str(), id);
        }
        nodes.push(node);
        proof {
            assert(node_views(nodes@) =~= before.push(node@));
            assert(before.push(node@).drop_last() =~= before);
        }
        *self = MimicStore { nodes, edges, index };
        id
    }

    /// Stores one audio unit: its wav file, its token stream, or both.
    pub fn insert_unit(
        &mut self,
        level: UnitLevel,
        text: &str,
        phonemes: &str,
        voice: &str,
        audio: &WavAudio,
        tokens: Option<Vec<u8>>,
        write_wav: bool,
        context_prev: Option<&str>,
        context_next: Option<&str>,
        provider: &str,
    ) -> (r: NodeId)
        ensures
            final(self)@ == with_unit(
                old(self)@,
                (Recorded {
                    level,
                    text: text@,
                    phonemes: phonemes@,
                    voice: voice@,
                    audio: audio@,
                    tokens: opt_bytes(tokens),
                    write_wav,
                    prev: opt_text(context_prev),
                    next: opt_text(context_next),
                    provider: provider@,
                }),
            ),
            r.0 == old(self)@.nodes.len(),
    {
        let at: usize = self.nodes.len();
        let wav_path = if write_wav {
            let mut name = decimal(at as u64);
            name.append(".wav");
            name
        } else {
            String::new()
        };
        let wav = if write_wav {
            Some(to_wav_bytes(audio))
        } else {
            None
        };
        let has_tokens = tokens.is_some();
        let codec = if has_tokens {
            "mimic-mct-v1".to_owned()
        } else {
            String::new()
        };
        let frames: u64 = if has_tokens {
            frames_for(audio.samples.len()) as u64
        } else {
            0
        };
        let unit = Unit {
            level,
            text: text.to_owned(),
            phonemes: phonemes.to_owned(),
            voice: voice.to_owned(),
            context_prev: or_empty(context_prev),
            context_next: or_empty(context_next),
            cache_domain: provider.to_owned(),
            duration_ms: audio.whole_ms() as u64,
            sample_rate: audio.sample_rate,
            rms: audio.rms(),
            pitch_hz: measure_pitch(audio),
            wav_path,
            wav,
            codec,
            frames,
            tokens,
        };
        self.add_node(Node::Unit(unit))
    }

    /// Links two consecutive units of one utterance.
    pub fn add_follows(&mut self, prev: NodeId, next: NodeId)
        ensures
            final(self)@ == with_edge(old(self)@, prev, next),
    {
        proof {
            use_type_invariant(&*self);
        }
        let mut taken = MimicStore::new();
        core::mem::swap(self, &mut taken);
        let MimicStore { nodes, mut edges, index } = taken;
        edges.push((prev, next));
        *self = MimicStore { nodes, edges, index };
    }

    /// Records a per-voice aggregate for an ingested utterance.
    pub fn add_voice_dna(&mut self, voice: &str, audio: &WavAudio, provider: &str) -> (r: NodeId)
        ensures
            final(self)@ == with_node(
                old(self)@,
                (NodeView::VoiceDna {
                    voice: voice@,
                    samples: audio@.samples.len() as u64,
                    rms: level(audio@.samples),
                    provider: provider@,
                }),
            ),
            r.0 == old(self)@.nodes.len(),
    {
        let n: usize = audio.samples.len();
        self.add_node(
            Node::VoiceDna {
                voice: voice.to_owned(),
                samples: n as u64,
                rms: audio.rms(),
                provider: provider.to_owned(),
            },
        )
    }

    /// The units with exactly a level and a normalized text, in the order of
    /// their insertion.
    pub fn lookup_exact(&self, level: UnitLevel, normalized_text: &str) -> (r: &[NodeId])
        ensures
            r@ == matching(self@.nodes, level, normalized_text@),
    {
        proof {
            use_type_invariant(self);
            index_finds_every_unit(self@.nodes, level, normalized_text@);
        }
        let k: usize = spot_in(&self.index, level, normalized_text);
        if k < self.index.len() {
            assert(entry_views(self.index@)[k as int] == self.index@[k as int]@);
            self.index[k].ids.as_slice()
        } else {
            let none: &[NodeId] = &[];
            assert(none@ =~= Seq::<NodeId>::empty());
            none
        }
    }

    /// All texts at a level with their units.
    pub fn units_for_level(&self, level: UnitLevel) -> (r: Vec<(String, Vec<NodeId>)>)
        ensures
            entry_pairs(r@) == entries_at(indexed(self@.nodes), level),
    {
        proof {
            use_type_invariant(self);
        }
        let ghost all = entry_views(self.index@);
        let mut out: Vec<(String, Vec<NodeId>)> = Vec::new();
        let mut i: usize = 0;
        assert(entry_pairs(out@) =~= entries_at(all.take(0), level));
        while i < self.index.len()
            invariant
                all == entry_views(self.index@),
                i <= self.index@.len(),
                entry_pairs(out@) == entries_at(all.take(i as int), level),
            decreases self.index@.len() - i,
        {
            proof {
                assert(all.take(i + 1).drop_last() =~= all.take(i as int));
                assert(all.take(i + 1).last() == self.index@[i as int]@);
            }
            if self.index[i].level == level {
                let ghost before = entry_pairs(out@);
                let text = self.index[i].text.clone();
                let ids = copy_ids(&self.index[i].ids);
                out.push((text, ids));
                assert(entry_pairs(out@) =~= before.push((text@, ids@)));
            }
            i += 1;
        }
        assert(all.take(i as int) =~= all);
        out
    }

    /// Phoneme units whose base (stress-stripped) symbol matches.
    pub fn phonemes_by_base(&self, base: &str) -> (r: Vec<NodeId>)
        ensures
            r@ == matching_base(self@.nodes, base@),
    {
        let ghost all = self@.nodes;
        let mut out: Vec<NodeId> = Vec::new();
        let mut i: usize = 0;
        assert(out@ =~= matching_base(all.take(0), base@));
        while i < self.nodes.len()
            invariant
                all == node_views(self.nodes@),
                i <= self.nodes@.len(),
                out@ == matching_base(all.take(i as int), base@),
            decreases self.nodes@.len() - i,
        {
            proof {
                assert(all.take(i + 1).drop_last() =~= all.take(i as int));
                assert(all.take(i + 1)[i as int] == self.nodes@[i as int]@);
            }
            if let Node::Unit(u) = &self.nodes[i] {
                if u.level == UnitLevel::Phoneme && same_text(G2p::base(u.text.as_str()), base) {
                    out.push(NodeId(i as u64));
                }
            }
            i += 1;
        }
        assert(all.take(i as int) =~= all);
        out
    }

    /// The node with a number.
    pub fn get_node(&self, id: NodeId) -> (r: Option<&Node>)
        ensures
            match r {
                Some(n) => id.0 < self@.nodes.len() && n@ == self@.nodes[id.0 as int],
                None => id.0 >= self@.nodes.len(),
            },
    {
        let n: usize = self.nodes.len();
        if id.0 < n as u64 {
            Some(&self.nodes[id.0 as usize])
        } else {
            None
        }
    }

    /// The unit with a number.
    fn get_unit(&self, id: NodeId) -> (r: Option<&Unit>)
        ensures
            match r {
                Some(u) => unit_at(self@.nodes, id) == Some(u@),
                None => unit_at(self@.nodes, id) is None,
            },
    {
        match self.get_node(id) {
            Some(Node::Unit(u)) => Some(u),
            _ => None,
        }
    }

    /// The text that a unit was recorded behind; empty at the start of an
    /// utterance.
    pub fn context_prev(&self, id: NodeId) -> (r: Option<&str>)
        ensures
            opt_text(r) == context_of(self@.nodes, id),
    {
        match self.get_unit(id) {
            Some(u) => Some(u.context_prev.as_str()),
            None => None,
        }
    }

    fn score(&self, id: NodeId, prev: Option<&str>, next: Option<&str>) -> (r: u8)
        ensures
            r == context_score(self@.nodes, id, opt_text(prev), opt_text(next)),
            r <= 2,
    {
        let mut n: u8 = 0;
        if let Some(u) = self.get_unit(id) {
            if let Some(p) = prev {
                if same_text(u.context_prev.as_str(), p) {
                    n += 1;
                }
            }
            if let Some(x) = next {
                if same_text(u.context_next.as_str(), x) {
                    n += 1;
                }
            }
        }
        n
    }

    /// Picks among duplicate cached units by how many neighbours match, the
    /// lowest number on a tie.
    pub fn best_context_match(
        &self,
        candidates: &[NodeId],
        prev: Option<&str>,
        next: Option<&str>,
    ) -> (r: Option<NodeId>)
        ensures
            match r {
                None => candidates@.len() == 0,
                Some(id) => candidates@.contains(id) && forall|i: int|
                    0 <= i < candidates@.len() ==> fits_better(
                        self@.nodes,
                        id,
                        #[trigger] candidates@[i],
                        opt_text(prev),
                        opt_text(next),
                    ),
            },
    {
        if candidates.len() == 0 {
            return None;
        }
        let mut best: NodeId = candidates[0];
        let mut top: u8 = self.score(best, prev, next);
        let mut i: usize = 1;
        assert(candidates@[0] == best);
        while i < candidates.len()
            invariant
                1 <= i <= candidates@.len(),
                candidates@.contains(best),
                top == context_score(self@.nodes, best, opt_text(prev), opt_text(next)),
                forall|k: int|
                    0 <= k < i ==> fits_better(
                        self@.nodes,
                        best,
                        #[trigger] candidates@[k],
                        opt_text(prev),
                        opt_text(next),
                    ),
            decreases candidates@.len() - i,
        {
            let id: NodeId = candidates[i];
            let score: u8 = self.score(id, prev, next);
            if score > top || (score == top && id.0 < best.0) {
                assert(candidates@[i as int] == id);
                best = id;
                top = score;
            }
            i += 1;
        }
        Some(best)
    }

    /// The token stream of a unit.
    pub fn get_tokens(&self, id: NodeId) -> (r: Result<Vec<u8>>)
        ensures
            outcome(r) == tokens_at(self@.nodes, id),
    {
        match self.get_node(id) {
            None => {
                let e = node_error(id, "");
                proof {
                    reveal_strlit("");
                    assert("node "@ + dec(id.0 as nat) + ""@ =~= "node "@ + dec(id.0 as nat));
                }
                Err(e)
            },
            Some(Node::Unit(Unit { tokens: Some(t), .. })) => {
                let copy = copy_range(t, 0, t.len());
                assert(copy@ =~= t@);
                Ok(copy)
            },
            Some(_) => Err(node_error(id, " has no tokens")),
        }
    }

    /// The audio of a unit: its wav file, or else its decoded tokens.
    pub fn get_audio<C: AudioCodec + ?Sized>(&self, id: NodeId, codec: &C) -> (r: Result<WavAudio>)
        ensures
            outcome(r) == audio_at(self@.nodes, id, codec),
    {
        match self.get_unit(id) {
            None => Err(node_error(id, " has no wav_path")),
            Some(u) => {
                if !u.wav_path.as_str().is_empty() {
                    if let Some(b) = &u.wav {
                        return parse_wav(b);
                    }
                }
                match self.get_tokens(id) {
                    Err(e) => Err(e),
                    Ok(t) => codec.decode(&t),
                }
            },
        }
    }

    /// The text of a node.
    pub fn get_text(&self, id: NodeId) -> (r: Option<String>)
        ensures
            match r {
                Some(t) => property(self@.nodes, id, "text"@) == Some(t@),
                None => property(self@.nodes, id, "text"@) is None,
            },
    {
        self.prop_string(id, "text")
    }

    /// A property of a node as text.
    pub fn prop_string(&self, id: NodeId, key: &str) -> (r: Option<String>)
        ensures
            match r {
                Some(t) => property(self@.nodes, id, key@) == Some(t@),
                None => property(self@.nodes, id, key@) is None,
            },
    {
        match self.get_node(id) {
            None => None,
            Some(Node::Other) => None,
            Some(Node::VoiceDna { voice, samples, rms, provider: _ }) => {
                if same_text(key, "voice") {
                    Some(voice.clone())
                } else if same_text(key, "text") {
                    let mut t = "voice:".to_owned();
                    t.append(voice.as_str());
                    Some(t)
                } else if same_text(key, "samples") {
                    Some(decimal(*samples))
                } else if same_text(key, "rms") {
                    Some(show_plain(*rms))
                } else {
                    None
                }
            },
            Some(Node::Unit(u)) => u.property_text(key),
        }
    }

    /// How many units of each level, nodes and edges there are.
    pub fn stats(&self) -> (r: StoreStats)
        ensures
            r.phrases == count_level(self@.nodes, UnitLevel::Phrase),
            r.words == count_level(self@.nodes, UnitLevel::Word),
            r.morphemes == count_level(self@.nodes, UnitLevel::Morpheme),
            r.diphones == count_level(self@.nodes, UnitLevel::Diphone),
            r.phonemes == count_level(self@.nodes, UnitLevel::Phoneme),
            r.total_nodes == self@.nodes.len(),
            r.total_edges == self@.edges.len(),
    {
        let ghost all = self@.nodes;
        let mut s = StoreStats {
            phrases: 0,
            words: 0,
            morphemes: 0,
            diphones: 0,
            phonemes: 0,
            total_nodes: self.nodes.len(),
            total_edges: self.edges.len(),
        };
        let mut i: usize = 0;
        assert(all.take(0) =~= Seq::<NodeView>::empty());
        while i < self.nodes.len()
            invariant
                all == node_views(self.nodes@),
                i <= self.nodes@.len(),
                s.phrases == count_level(all.take(i as int), UnitLevel::Phrase),
                s.words == count_level(all.take(i as int), UnitLevel::Word),
                s.morphemes == count_level(all.take(i as int), UnitLevel::Morpheme),
                s.diphones == count_level(all.take(i as int), UnitLevel::Diphone),
                s.phonemes == count_level(all.take(i as int), UnitLevel::Phoneme),
                s.phrases + s.words + s.morphemes + s.diphones + s.phonemes <= i,
                s.total_nodes == all.len(),
                s.total_edges == self.edges@.len(),
            decreases self.nodes@.len() - i,
        {
            proof {
                assert(all.take(i + 1).drop_last() =~= all.take(i as int));
                assert(all.take(i + 1).last() == self.nodes@[i as int]@);
            }
            if let Node::Unit(u) = &self.nodes[i] {
                match u.level {
                    UnitLevel::Phrase => {
                        s.phrases += 1;
                    },
                    UnitLevel::Word => {
                        s.words += 1;
                    },
                    UnitLevel::Morpheme => {
                        s.morphemes += 1;
                    },
                    UnitLevel::Diphone => {
                        s.diphones += 1;
                    },
                    UnitLevel::Phoneme => {
                        s.phonemes += 1;
                    },
                }
            }
            i += 1;
        }
        assert(all.take(i as int) =~= all);
        s
    }

    /// Storage accounting across all units: the bytes of token streams, and
    /// the bytes that wav files would take (44 + 2 per sample at 16 kHz).
    pub fn codec_storage(&self) -> (r: (u128, u128))
        ensures
            r.0 == token_bytes(self@.nodes),
            r.1 == (if wav_equivalent(self@.nodes) <= u128::MAX {
                wav_equivalent(self@.nodes)
            } else {
                u128::MAX as nat
            }),
    {
        let ghost all = self@.nodes;
        let mut tokens: u128 = 0;
        let mut wav: u128 = 0;
        let mut i: usize = 0;
        assert(all.take(0) =~= Seq::<NodeView>::empty());
        while i < self.nodes.len()
            invariant
                all == node_views(self.nodes@),
                i <= self.nodes@.len(),
                tokens == token_bytes(all.take(i as int)),
                wav == (if wav_equivalent(all.take(i as int)) <= u128::MAX {
                    wav_equivalent(all.take(i as int))
                } else {
                    u128::MAX as nat
                }),
                tokens <= i * 0xffff_ffff_ffff_ffff,
            decreases self.nodes@.len() - i,
        {
            let ghost k = i as nat;
            proof {
                assert(all.take(i + 1).drop_last() =~= all.take(i as int));
                assert(all.take(i + 1).last() == self.nodes@[i as int]@);
                assert(k * 0xffff_ffff_ffff_ffff <= 0xffff_ffff_ffff_fffe * 0xffff_ffff_ffff_ffff)
                    by (nonlinear_arith)
                    requires
                        k <= 0xffff_ffff_ffff_fffe,
                ;
            }
            if let Node::Unit(u) = &self.nodes[i] {
                let more: u128 = 44 + u.duration_ms as u128 * 32;
                wav = if wav <= u128::MAX - more {
                    wav + more
                } else {
                    u128::MAX
                };
                if let Some(t) = &u.tokens {
                    tokens += t.len() as u128;
                }
            }
            i += 1;
        }
        assert(all.take(i as int) =~= all);
        (tokens, wav)
    }

    /// How many nodes there are.
    pub fn node_count(&self) -> (r: usize)
        ensures
            r == self@.nodes.len(),
    {
        self.nodes.len()
    }

    /// The `follows` edges.
    pub fn edges(&self) -> (r: &[(NodeId, NodeId)])
        ensures
            r@ == self@.edges,
    {
        self.edges.as_slice()
    }
}

impl Unit {
    /// A property as text.
    fn property_text(&self, key: &str) -> (r: Option<String>)
        ensures
            match r {
                Some(t) => unit_property(self@, key@) == Some(t@),
                None => unit_property(self@, key@) is None,
            },
    {
        if same_text(key, "text") {
            Some(self.text.clone())
        } else if same_text(key, "level") {
            Some(self.level.as_str().to_owned())
        } else if same_text(key, "phonemes") {
            Some(self.phonemes.clone())
        } else if same_text(key, "wav_path") {
            Some(self.wav_path.clone())
        } else if same_text(key, "duration_ms") {
            Some(decimal(self.duration_ms))
        } else if same_text(key, "sample_rate") {
            Some(decimal(self.sample_rate as u64))
        } else if same_text(key, "voice") {
            Some(self.voice.clone())
        } else if same_text(key, "context_prev") {
            Some(self.context_prev.clone())
        } else if same_text(key, "context_next") {
            Some(self.context_next.clone())
        } else if same_text(key, "cache_domain") {
            Some(self.cache_domain.clone())
        } else if same_text(key, "codec") && self.tokens.is_some() {
            Some(self.codec.clone())
        } else if same_text(key, "frames") && self.tokens.is_some() {
            Some(decimal(self.frames))
        } else if same_text(key, "rms") {
            Some(show_plain(self.rms))
        } else if same_text(key, "pitch_hz") {
            Some(show_plain(self.pitch_hz))
        } else {
            None
        }
    }
}

/// The pitch that the zero crossings of audio stand for.
fn measure_pitch(audio: &WavAudio) -> (r: Double)
    ensures
        r@ == pitch_of(audio@),
{
    proof {
        whole_is_positive(2);
    }
    audio.zero_crossing_rate().times(Double::of(audio.sample_rate as u64)).over(Double::of(2))
}

/// A copy of a list of numbers.
pub fn copy_ids(v: &Vec<NodeId>) -> (r: Vec<NodeId>)
    ensures
        r@ == v@,
{
    let mut out: Vec<NodeId> = Vec::new();
    let mut i: usize = 0;
    while i < v.len()
        invariant
            i <= v@.len(),
            out@ == v@.take(i as int),
        decreases v@.len() - i,
    {
        out.push(v[i]);
        i += 1;
        assert(out@ =~= v@.take(i as int));
    }
    assert(out@ =~= v@);
    out
}

// ---- laws ----

/// A unit that was just stored is found under its level and text, after all
/// that were found before, and nothing else changes for other keys.
pub proof fn stored_units_are_found(s: StoreView, r: Recorded, level: UnitLevel, text: Seq<char>)
    ensures
        matching(with_unit(s, r).nodes, r.level, r.text) == matching(
            s.nodes,
            r.level,
            r.text,
        ).push(NodeId(s.nodes.len() as u64)),
        (level != r.level || text != r.text) ==> matching(with_unit(s, r).nodes, level, text)
            == matching(s.nodes, level, text),
{
    let after = with_unit(s, r).nodes;
    assert(after.drop_last() =~= s.nodes);
}

/// Nodes are written once: storing a unit changes no node before it.
pub proof fn storing_keeps_nodes(s: StoreView, r: Recorded, id: NodeId)
    requires
        id.0 < s.nodes.len(),
    ensures
        with_unit(s, r).nodes[id.0 as int] == s.nodes[id.0 as int],
        with_unit(s, r).edges == s.edges,
{
}

/// A unit stored with a wav file reads back as the audio that was stored, as
/// long as the file can declare its size.
pub proof fn stored_audio_reads_back<C: AudioCodec + ?Sized>(
    s: StoreView,
    r: Recorded,
    codec: &C,
)
    requires
        s.nodes.len() < u64::MAX,
        r.write_wav,
        2 * r.audio.samples.len() <= u32::MAX,
    ensures
        audio_at(with_unit(s, r).nodes, NodeId(s.nodes.len() as u64), codec) == Ok::<
            WavView,
            ErrorView,
        >(r.audio),
{
    wav_round_trip(r.audio);
    reveal_strlit(".wav");
}

/// A unit stored with tokens and no wav file reads back as what the codec
/// decodes them to.
pub proof fn stored_tokens_are_decoded<C: AudioCodec + ?Sized>(
    s: StoreView,
    r: Recorded,
    tokens: Seq<u8>,
    codec: &C,
)
    requires
        s.nodes.len() < u64::MAX,
        !r.write_wav,
        r.tokens == Some(tokens),
    ensures
        audio_at(with_unit(s, r).nodes, NodeId(s.nodes.len() as u64), codec) == codec.decoded(
            tokens,
        ),
{
}

// ---- what units are kept for ----

/// A unit is kept with what was recorded of it: its text and level, whose voice it
/// is, what it stood between and where it came from.
pub proof fn units_keep_what_was_recorded(s: StoreView, r: Recorded)
    requires
        s.nodes.len() <= u64::MAX,
    ensures
        unit_at(with_unit(s, r).nodes, NodeId(s.nodes.len() as u64)) matches Some(u) && u.level
            == r.level && u.text == r.text && u.phonemes == r.phonemes && u.voice == r.voice
            && u.cache_domain == r.provider && u.sample_rate == r.audio.sample_rate && u.tokens
            == r.tokens && (r.prev matches Some(p) ==> u.context_prev == p) && (r.next matches Some(
            n,
        ) ==> u.context_next == n) && (r.prev is None ==> u.context_prev.len() == 0) && (
        r.next is None ==> u.context_next.len() == 0),
        forall|id: NodeId|
            id.0 < s.nodes.len() ==> #[trigger] unit_at(with_unit(s, r).nodes, id) == unit_at(
                s.nodes,
                id,
            ),
{
    let nodes = with_unit(s, r).nodes;
    assert(nodes[s.nodes.len() as int] == NodeView::Unit(unit_of(r, s.nodes.len())));
}

/// A unit that was recorded between the same neighbours is picked before one
/// that was not, whatever their numbers.
pub proof fn neighbours_decide(
    nodes: Seq<NodeView>,
    id: NodeId,
    other: NodeId,
    prev: Seq<char>,
    next: Seq<char>,
)
    requires
        unit_at(nodes, id) matches Some(u) && u.context_prev == prev && u.context_next == next,
        unit_at(nodes, other) matches Some(u) ==> u.context_prev != prev || u.context_next != next,
    ensures
        fits_better(nodes, id, other, Some(prev), Some(next)),
        !fits_better(nodes, other, id, Some(prev), Some(next)),
{
}

/// Every unit is counted at one level.
pub proof fn every_unit_is_counted(nodes: Seq<NodeView>)
    requires
        forall|i: int| 0 <= i < nodes.len() ==> #[trigger] nodes[i] is Unit,
    ensures
        count_level(nodes, UnitLevel::Phrase) + count_level(nodes, UnitLevel::Word) + count_level(
            nodes,
            UnitLevel::Morpheme,
        ) + count_level(nodes, UnitLevel::Diphone) + count_level(nodes, UnitLevel::Phoneme)
            == nodes.len(),
    decreases nodes.len(),
{
    if nodes.len() > 0 {
        let t = nodes.drop_last();
        assert(nodes[nodes.len() - 1] is Unit);
        assert forall|i: int| 0 <= i < t.len() implies #[trigger] t[i] is Unit by {
            assert(t[i] == nodes[i]);
        }
        every_unit_is_counted(t);
    }
}

/// Storing a unit is accounted for: by the length of its token stream, and by
/// what its wav file takes, for whole seconds at 16 kHz.
pub proof fn storage_is_accounted_for(s: StoreView, r: Recorded, k: nat)
    requires
        r.audio.sample_rate == 16_000,
        r.audio.samples.len() == 16_000 * k,
        k <= 0x1000_0000,
    ensures
        r.tokens matches Some(t) ==> token_bytes(with_unit(s, r).nodes) == token_bytes(s.nodes)
            + t.len(),
        r.tokens is None ==> token_bytes(with_unit(s, r).nodes) == token_bytes(s.nodes),
        wav_equivalent(with_unit(s, r).nodes) == wav_equivalent(s.nodes) + 44 + 2
            * r.audio.samples.len(),
{
    let nodes = with_unit(s, r).nodes;
    assert(nodes.drop_last() =~= s.nodes);
    assert(nodes.last() == NodeView::Unit(unit_of(r, s.nodes.len())));
    crate::audio::seconds_last_a_thousand_milliseconds(16_000, k);
    let u = crate::double::unit();
    vstd::arithmetic::power2::lemma_pow2_pos(1074);
    let ms = 1000 * k;
    assert(crate::double::whole_part(ms * u) == ms) by {
        assert((2 * (ms * u) + u) / (2 * u) == ms) by (nonlinear_arith)
            requires
                u > 0,
        {
            vstd::arithmetic::div_mod::lemma_fundamental_div_mod_converse(
                (2 * (ms * u) + u) as int,
                (2 * u) as int,
                ms as int,
                u as int,
            );
        }
    }
}

/// A sound is found by its symbol without stress: the phonemes with that base are
/// listed, in the order in which they were stored, and nothing else is.
pub proof fn sounds_are_found_by_their_base(nodes: Seq<NodeView>, base: Seq<char>)
    requires
        nodes.len() <= u64::MAX,
    ensures
        forall|i: int|
            0 <= i < nodes.len() ==> (#[trigger] matching_base(nodes, base).contains(
                NodeId(i as u64),
            ) <==> (nodes[i] matches NodeView::Unit(u) && u.level == UnitLevel::Phoneme && base_of(
                u.text,
            ) == base)),
        forall|k: int|
            0 <= k < matching_base(nodes, base).len() ==> (#[trigger] matching_base(
                nodes,
                base,
            )[k]).0 < nodes.len(),
        forall|j: int, k: int|
            0 <= j < k < matching_base(nodes, base).len() ==> (#[trigger] matching_base(
                nodes,
                base,
            )[j]).0 < (#[trigger] matching_base(nodes, base)[k]).0,
    decreases nodes.len(),
{
    let now = matching_base(nodes, base);
    if nodes.len() > 0 {
        let t = nodes.drop_last();
        let n = nodes.len() - 1;
        let before = matching_base(t, base);
        sounds_are_found_by_their_base(t, base);
        assert forall|i: int| 0 <= i < nodes.len() implies (#[trigger] now.contains(
            NodeId(i as u64),
        ) <==> (nodes[i] matches NodeView::Unit(u) && u.level == UnitLevel::Phoneme && base_of(
            u.text,
        ) == base)) by {
            if i < n {
                assert(t[i] == nodes[i]);
                if before.contains(NodeId(i as u64)) {
                    let k = choose|k: int| 0 <= k < before.len() && before[k] == NodeId(i as u64);
                    assert(now[k] == before[k]);
                }
                if now.contains(NodeId(i as u64)) {
                    let k = choose|k: int| 0 <= k < now.len() && now[k] == NodeId(i as u64);
                    assert(k < before.len() && before[k] == now[k]);
                }
            } else {
                if matches_base(nodes, n, base) {
                    assert(now[now.len() - 1] == NodeId(n as u64));
                } else if now.contains(NodeId(i as u64)) {
                    let k = choose|k: int| 0 <= k < before.len() && before[k] == NodeId(i as u64);
                    assert(before[k].0 < t.len());
                }
            }
        }
    }
}

} // verus!
