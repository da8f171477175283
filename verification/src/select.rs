//! Unit selection: a target and join cost search over a lattice of candidate
//! units.
//!
//! The search minimizes the sum of target costs, join costs and the cost of
//! generated characters over whole paths, so that it trades cache cheapness
//! against seam quality globally instead of greedily. Consecutive synth edges
//! coalesce into one provider call.

use crate::audio::{seam, seam_discontinuity, splice, spliced, wavs, WavAudio, WavView};
use crate::bytes::{copy_range, read32};
use crate::chain::concat_rows;
use crate::codec::{concatenated, is_stream, rows, token_frames, AudioCodec};
use crate::compose::{composed_view, span_texts, Request};
use crate::double::{average, mean, views, Double};
use crate::edges::{
    all_usable, build_edges, built, built_edges_are_usable, edge_views, every_request_has_a_path,
    generates, lattice_of, usable, Edge, EdgeView, Search,
};
use crate::error::{ErrorView, MimicError, Result};
use crate::fade::{FadeCurve, Gains};
use crate::g2p::G2p;
use crate::lattice::{chosen, chosen_path_is_cheapest, is_complete, path_cost};
use crate::pipeline::opt_dict;
use crate::report::{hit_views, mean_seam, seams, ComposeReport, ReportView};
use crate::search::{indices, search};
use crate::speak::{
    all_spoken, answered, grown, kept, span_text, span_views, spans_within, speak_spans,
    spoken_audio, Dict, Reply,
};
use crate::store::{MimicStore, NodeId, StoreView};
use crate::text::{join_words, texts, total_len};
use crate::tts::TtsProvider;
use crate::units::{tokenize, tokens, tokens_are_not_empty, UnitLevel};
use crate::CROSSFADE_MS;
use vstd::prelude::*;

pub use crate::edges::Medium;

verus! {

// ---- realization ----

/// The edges of a path, in order.
pub open spec fn picked(v: Seq<EdgeView>, path: Seq<int>) -> Seq<EdgeView> {
    Seq::new(path.len(), |i: int| v[path[i]])
}

/// The edges that a search picks.
pub open spec fn selection(x: Search, v: Seq<EdgeView>) -> Seq<EdgeView> {
    picked(v, chosen(lattice_of(x, v))->Some_0)
}

/// Whether edge `i` starts where the edge before it ends.
pub open spec fn follows(p: Seq<EdgeView>, i: int) -> bool {
    p[i].start == p[i - 1].end
}

/// Edges that follow one another from the first word to the last.
pub open spec fn contiguous(x: Search, p: Seq<EdgeView>) -> bool {
    &&& p.len() > 0
    &&& all_usable(x, p)
    &&& p[0].start == 0
    &&& p.last().end == x.q.words.len()
    &&& forall|i: int| 0 < i < p.len() ==> #[trigger] follows(p, i)
}

/// A selection follows the words from the first to the last.
pub proof fn selection_is_contiguous(x: Search, v: Seq<EdgeView>)
    requires
        x.q.words.len() > 0,
        all_usable(x, v),
        forall|i: nat| i < x.q.words.len() ==> #[trigger] generates(x, v, i),
    ensures
        contiguous(x, selection(x, v)),
{
    every_request_has_a_path(x, v);
    let l = lattice_of(x, v);
    let path = chosen(l)->Some_0;
    let p = selection(x, v);
    assert forall|i: int| 0 <= i < p.len() implies usable(x, #[trigger] p[i]) by {
        assert(0 <= path[i] < l.arcs.len());
        assert(p[i] == v[path[i]]);
        assert(usable(x, v[path[i]]));
    }
    assert forall|i: int| 0 < i < p.len() implies #[trigger] follows(p, i) by {
        assert(l.arcs[path[i]].start == l.arcs[path[i - 1]].end);
        assert(0 <= path[i] < l.arcs.len());
        assert(0 <= path[i - 1] < l.arcs.len());
    }
    assert(0 <= path[0] < l.arcs.len());
    assert(0 <= path[path.len() - 1] < l.arcs.len());
}

/// The selection of a search costs no more than any other way through the
/// edges from the first word to the last.
pub proof fn selection_is_cheapest(x: Search, v: Seq<EdgeView>, other: Seq<int>)
    requires
        x.q.words.len() > 0,
        all_usable(x, v),
        forall|i: nat| i < x.q.words.len() ==> #[trigger] generates(x, v, i),
        is_complete(lattice_of(x, v), other),
    ensures
        chosen(lattice_of(x, v)) matches Some(p) && path_cost(lattice_of(x, v), p)
            <= path_cost(lattice_of(x, v), other),
{
    every_request_has_a_path(x, v);
    chosen_path_is_cheapest(lattice_of(x, v));
}

/// Whether an edge is generated.
pub open spec fn is_synth(e: EdgeView) -> bool {
    e.audio is None
}

/// The end of the run of generated edges at `i`.
pub open spec fn synth_end(p: Seq<EdgeView>, i: nat) -> nat
    decreases p.len() - i,
{
    if i < p.len() && is_synth(p[i as int]) {
        synth_end(p, i + 1)
    } else {
        i
    }
}

pub proof fn lemma_synth_end(p: Seq<EdgeView>, i: nat)
    requires
        i <= p.len(),
    ensures
        i <= synth_end(p, i) <= p.len(),
        i < p.len() && is_synth(p[i as int]) ==> i < synth_end(p, i),
    decreases p.len() - i,
{
    if i < p.len() && is_synth(p[i as int]) {
        lemma_synth_end(p, i + 1);
    }
}

/// The spans of words that are generated, each a maximal run of edges.
pub open spec fn synth_spans(p: Seq<EdgeView>, i: nat) -> Seq<(nat, nat)>
    decreases p.len() - i,
{
    if i >= p.len() {
        Seq::empty()
    } else if is_synth(p[i as int]) {
        proof {
            lemma_synth_end(p, i);
        }
        let j = synth_end(p, i);
        seq![(p[i as int].start, p[j - 1].end)] + synth_spans(p, j)
    } else {
        synth_spans(p, i + 1)
    }
}

/// The audio of the edges from `i` on, generated runs answered in order.
pub open spec fn played(p: Seq<EdgeView>, i: nat, replies: Seq<WavView>, r: nat) -> Seq<WavView>
    decreases p.len() - i,
{
    if i >= p.len() {
        Seq::empty()
    } else {
        match p[i as int].audio {
            Some(a) => seq![a] + played(p, i + 1, replies, r),
            None => {
                proof {
                    lemma_synth_end(p, i);
                }
                seq![replies[r as int]] + played(p, synth_end(p, i), replies, r + 1)
            },
        }
    }
}

/// The token streams of the edges from `i` on, generated runs answered in
/// order.
pub open spec fn streamed<C: AudioCodec + ?Sized>(
    p: Seq<EdgeView>,
    i: nat,
    replies: Seq<WavView>,
    r: nat,
    codec: &C,
) -> Seq<Seq<u8>>
    decreases p.len() - i,
{
    if i >= p.len() {
        Seq::empty()
    } else {
        match p[i as int].audio {
            Some(a) => seq![
                match p[i as int].tokens {
                    Some(t) => t,
                    None => codec.encoded(a),
                },
            ] + streamed(p, i + 1, replies, r, codec),
            None => {
                proof {
                    lemma_synth_end(p, i);
                }
                seq![codec.encoded(replies[r as int])] + streamed(
                    p,
                    synth_end(p, i),
                    replies,
                    r + 1,
                    codec,
                )
            },
        }
    }
}

/// The characters of the first `n` edges that are generated, or that are not.
pub open spec fn edge_chars(p: Seq<EdgeView>, synth: bool, n: nat) -> nat
    decreases n,
{
    if n == 0 {
        0
    } else {
        edge_chars(p, synth, (n - 1) as nat) + (if is_synth(p[n - 1]) == synth {
            p[n - 1].chars
        } else {
            0
        })
    }
}

/// Every character is either served from the cache or generated.
pub proof fn edge_characters_add_up(x: Search, p: Seq<EdgeView>, n: nat)
    requires
        contiguous(x, p),
        0 < n <= p.len(),
    ensures
        edge_chars(p, true, n) + edge_chars(p, false, n) == total_len(
            x.q.words.take(p[n - 1].end as int),
        ),
    decreases n,
{
    let ws = x.q.words;
    assert(usable(x, p[n - 1]));
    let from = p[n - 1].start as int;
    let to = p[n - 1].end as int;
    crate::text::lemma_total_len_part(ws, from, to);
    if n == 1 {
        assert(ws.take(0) =~= Seq::<Seq<char>>::empty());
        reveal_with_fuel(edge_chars, 2);
    } else {
        edge_characters_add_up(x, p, (n - 1) as nat);
        assert(follows(p, n - 1));
    }
}

/// The units among the first `n` edges that come from the cache: text and
/// level.
pub open spec fn edge_hits(p: Seq<EdgeView>, n: nat) -> Seq<(Seq<char>, UnitLevel)>
    decreases n,
{
    if n == 0 {
        Seq::empty()
    } else if is_synth(p[n - 1]) {
        edge_hits(p, (n - 1) as nat)
    } else {
        edge_hits(p, (n - 1) as nat).push((p[n - 1].text, p[n - 1].level))
    }
}

/// The nodes of the first `n` edges that come from the cache.
pub open spec fn edge_nodes(p: Seq<EdgeView>, n: nat) -> Seq<NodeId>
    decreases n,
{
    if n == 0 {
        Seq::empty()
    } else if is_synth(p[n - 1]) {
        edge_nodes(p, (n - 1) as nat)
    } else {
        edge_nodes(p, (n - 1) as nat) + p[n - 1].nodes
    }
}

/// The number of frames that a part declares.
pub open spec fn declared_frames(t: Seq<u8>) -> nat {
    if is_stream(t) {
        read32(t, 12) as nat
    } else {
        0
    }
}

/// Where the first `k` parts end in the decoded output.
pub open spec fn joint(parts: Seq<Seq<u8>>, k: nat) -> nat
    decreases k,
{
    if k == 0 {
        0
    } else {
        joint(parts, (k - 1) as nat) + declared_frames(parts[k - 1]) * 320
    }
}

/// A part of audio.
pub open spec fn stretch(a: WavView, from: int, to: int) -> WavView {
    WavView { samples: a.samples.subrange(from, to), sample_rate: a.sample_rate }
}

/// The seams of decoded output at the first `k` joints that have 10 ms on
/// either side.
pub open spec fn decoded_seams(out: WavView, parts: Seq<Seq<u8>>, k: nat) -> Seq<nat>
    decreases k,
{
    if k == 0 {
        Seq::empty()
    } else {
        let before = decoded_seams(out, parts, (k - 1) as nat);
        let at = joint(parts, k) as int;
        let w = (out.sample_rate / 100) as int;
        if at >= w && at + w <= out.samples.len() {
            before.push(seam(stretch(out, at - w, at), stretch(out, at, at + w)))
        } else {
            before
        }
    }
}

/// How many joints there are between parts.
pub open spec fn joints(n: nat) -> nat {
    if n == 0 {
        0
    } else {
        (n - 1) as nat
    }
}

/// The output and the mean seam of a selection whose misses were answered.
pub open spec fn rendered<C: AudioCodec + ?Sized>(
    p: Seq<EdgeView>,
    replies: Seq<WavView>,
    medium: Medium,
    codec: &C,
    t: Gains,
) -> core::result::Result<(WavView, nat), ErrorView> {
    match medium {
        Medium::Pcm => {
            let parts = played(p, 0, replies, 0);
            match spliced(parts, CROSSFADE_MS, t) {
                Err(e) => Err(e),
                Ok(out) => Ok((out, average(seams(parts)))),
            }
        },
        Medium::Tokens => {
            let parts = streamed(p, 0, replies, 0, codec);
            match concatenated(parts) {
                Err(e) => Err(e),
                Ok(stream) => match codec.decoded(stream) {
                    Err(e) => Err(e),
                    Ok(out) => Ok(
                        (out, average(decoded_seams(out, parts, joints(parts.len())))),
                    ),
                },
            }
        },
    }
}

/// The speech and the report of a selection whose misses were answered.
pub open spec fn realized<C: AudioCodec + ?Sized>(
    words: Seq<Seq<char>>,
    p: Seq<EdgeView>,
    replies: Seq<WavView>,
    medium: Medium,
    codec: &C,
    t: Gains,
) -> core::result::Result<(WavView, ReportView), ErrorView> {
    match rendered(p, replies, medium, codec, t) {
        Err(e) => Err(e),
        Ok((out, mean)) => Ok(
            (
                out,
                ReportView {
                    total_chars: total_len(words),
                    cached_chars: edge_chars(p, false, p.len()),
                    generated_chars: edge_chars(p, true, p.len()),
                    tts_calls: span_texts(words, synth_spans(p, 0)),
                    hits: edge_hits(p, p.len()),
                    units: edge_nodes(p, p.len()),
                    mean_seam_discontinuity: mean,
                },
            ),
        ),
    }
}

proof fn lemma_edges_advance(x: Search, p: Seq<EdgeView>, i: int, j: int)
    requires
        contiguous(x, p),
        0 <= i <= j < p.len(),
    ensures
        p[i].start < p[j].end <= x.q.words.len(),
    decreases j - i,
{
    assert(usable(x, p[j]));
    if i < j {
        lemma_edges_advance(x, p, i, j - 1);
        assert(follows(p, j));
    }
}

/// The edges of a path, moved out of the lattice.
fn pick(edges: &Vec<Edge>, path: &Vec<usize>) -> (r: Vec<Edge>)
    requires
        forall|i: int| 0 <= i < path@.len() ==> #[trigger] path@[i] < edges@.len(),
    ensures
        edge_views(r@) == picked(edge_views(edges@), indices(path@)),
{
    let mut out: Vec<Edge> = Vec::new();
    let mut i: usize = 0;
    while i < path.len()
        invariant
            forall|k: int| 0 <= k < path@.len() ==> #[trigger] path@[k] < edges@.len(),
            i <= path@.len(),
            out@.len() == i,
            forall|k: int| 0 <= k < i ==> (#[trigger] out@[k])@ == edges@[path@[k] as int]@,
        decreases path@.len() - i,
    {
        assert(path@[i as int] < edges@.len());
        out.push(copy_edge(&edges[path[i]]));
        i += 1;
    }
    assert(edge_views(out@) =~= picked(edge_views(edges@), indices(path@)));
    out
}

fn copy_edge(e: &Edge) -> (r: Edge)
    ensures
        r@ == e@,
{
    let audio: Option<WavAudio> = match &e.audio {
        Some(a) => Some(a.clone()),
        None => None,
    };
    let tokens: Option<Vec<u8>> = match &e.tokens {
        Some(t) => {
            let copy = copy_range(t, 0, t.len());
            assert(copy@ =~= t@);
            Some(copy)
        },
        None => None,
    };
    Edge {
        start: e.start,
        end: e.end,
        level: e.level,
        target: e.target,
        audio,
        tokens,
        nodes: crate::store::copy_ids(&e.nodes),
        chars: e.chars,
        text: e.text.clone(),
    }
}

/// The end of the run of generated edges at `start`.
fn end_of_run(p: &Vec<Edge>, start: usize) -> (r: usize)
    requires
        start < p@.len(),
        p@[start as int].audio is None,
    ensures
        r == synth_end(edge_views(p@), start as nat),
        start < r <= p@.len(),
{
    let ghost v = edge_views(p@);
    let n: usize = p.len();
    let mut i: usize = start + 1;
    assert(v[start as int] == p@[start as int]@);
    while i < n && p[i].audio.is_none()
        invariant
            n == p@.len(),
            v == edge_views(p@),
            start < i <= n,
            synth_end(v, start as nat) == synth_end(v, i as nat),
        decreases n - i,
    {
        assert(v[i as int] == p@[i as int]@);
        i += 1;
    }
    proof {
        if i < n {
            assert(v[i as int] == p@[i as int]@);
        }
    }
    i
}

proof fn lemma_span_appended(
    before: Seq<(nat, nat)>,
    here: (nat, nat),
    after: Seq<(nat, nat)>,
    rest: Seq<(nat, nat)>,
    n: nat,
)
    requires
        after =~= before.push(here),
        spans_within(before, n),
        here.0 < here.1 <= n,
    ensures
        after + rest == before + (seq![here] + rest),
        spans_within(after, n),
{
    assert(after + rest =~= before + (seq![here] + rest));
    assert forall|k: int| 0 <= k < after.len() implies (#[trigger] after[k]).0 < after[k].1
        <= n by {
        if k < before.len() {
            assert(after[k] == before[k]);
        }
    }
}

/// The spans of words that a selection generates.
fn list_synth_spans(p: &Vec<Edge>, x: Ghost<Search>) -> (r: Vec<(usize, usize)>)
    requires
        contiguous(x@, edge_views(p@)),
    ensures
        span_views(r@) == synth_spans(edge_views(p@), 0),
        spans_within(span_views(r@), x@.q.words.len()),
{
    let ghost v = edge_views(p@);
    let ghost words = x@.q.words.len();
    let n: usize = p.len();
    let mut out: Vec<(usize, usize)> = Vec::new();
    let mut i: usize = 0;
    assert(span_views(out@) + synth_spans(v, 0) =~= synth_spans(v, 0));
    while i < n
        invariant
            n == p@.len(),
            v == edge_views(p@),
            words == x@.q.words.len(),
            contiguous(x@, v),
            i <= n,
            span_views(out@) + synth_spans(v, i as nat) == synth_spans(v, 0),
            spans_within(span_views(out@), words),
        decreases n - i,
    {
        assert(v[i as int] == p@[i as int]@);
        if p[i].audio.is_none() {
            let end: usize = end_of_run(p, i);
            proof {
                assert(v[end - 1] == p@[end - 1]@);
                lemma_edges_advance(x@, v, i as int, end - 1);
            }
            let ghost before = span_views(out@);
            out.push((p[i].start, p[end - 1].end));
            proof {
                lemma_span_appended(
                    before,
                    (v[i as int].start, v[end - 1].end),
                    span_views(out@),
                    synth_spans(v, end as nat),
                    words,
                );
            }
            i = end;
        } else {
            i += 1;
        }
    }
    assert(span_views(out@) + Seq::<(nat, nat)>::empty() =~= span_views(out@));
    out
}

/// The number of generated runs from `i` on.
proof fn lemma_replies_in_range(p: Seq<EdgeView>, i: nat, r: nat, total: nat)
    requires
        i < p.len(),
        is_synth(p[i as int]),
        r + synth_spans(p, i).len() == total,
    ensures
        r < total,
        (r + 1) + synth_spans(p, synth_end(p, i)).len() == total,
{
}

/// The audio of a selection in speaking order.
fn gather_audio(p: &Vec<Edge>, replies: &Vec<WavAudio>) -> (r: Vec<WavAudio>)
    requires
        replies@.len() == synth_spans(edge_views(p@), 0).len(),
    ensures
        wavs(r@) == played(edge_views(p@), 0, wavs(replies@), 0),
{
    let ghost v = edge_views(p@);
    let ghost heard = wavs(replies@);
    let n: usize = p.len();
    let total: usize = replies.len();
    let mut out: Vec<WavAudio> = Vec::new();
    let mut i: usize = 0;
    let mut k: usize = 0;
    assert(wavs(out@) + played(v, 0, heard, 0) =~= played(v, 0, heard, 0));
    while i < n
        invariant
            n == p@.len(),
            v == edge_views(p@),
            heard == wavs(replies@),
            total == replies@.len(),
            i <= n,
            k + synth_spans(v, i as nat).len() == total,
            wavs(out@) + played(v, i as nat, heard, k as nat) == played(v, 0, heard, 0),
        decreases n - i,
    {
        assert(v[i as int] == p@[i as int]@);
        let ghost before = wavs(out@);
        match &p[i].audio {
            Some(a) => {
                let copy = a.clone();
                out.push(copy);
                proof {
                    assert(wavs(out@) =~= before.push(a@));
                    let rest = played(v, (i + 1) as nat, heard, k as nat);
                    assert(before.push(a@) + rest =~= before + (seq![a@] + rest));
                }
                i += 1;
            },
            None => {
                proof {
                    lemma_replies_in_range(v, i as nat, k as nat, total as nat);
                }
                let end: usize = end_of_run(p, i);
                let copy = replies[k].clone();
                out.push(copy);
                proof {
                    let a = heard[k as int];
                    assert(a == replies@[k as int]@);
                    assert(wavs(out@) =~= before.push(a));
                    let rest = played(v, end as nat, heard, (k + 1) as nat);
                    assert(before.push(a) + rest =~= before + (seq![a] + rest));
                }
                i = end;
                k += 1;
            },
        }
    }
    assert(wavs(out@) + Seq::<WavView>::empty() =~= wavs(out@));
    out
}

/// The token streams of a selection in speaking order.
fn gather_tokens<C: AudioCodec + ?Sized>(
    p: &Vec<Edge>,
    replies: &Vec<WavAudio>,
    codec: &C,
) -> (r: Vec<Vec<u8>>)
    requires
        replies@.len() == synth_spans(edge_views(p@), 0).len(),
    ensures
        rows(r@) == streamed(edge_views(p@), 0, wavs(replies@), 0, codec),
{
    let ghost v = edge_views(p@);
    let ghost heard = wavs(replies@);
    let n: usize = p.len();
    let total: usize = replies.len();
    let mut out: Vec<Vec<u8>> = Vec::new();
    let mut i: usize = 0;
    let mut k: usize = 0;
    assert(rows(out@) + streamed(v, 0, heard, 0, codec) =~= streamed(v, 0, heard, 0, codec));
    while i < n
        invariant
            n == p@.len(),
            v == edge_views(p@),
            heard == wavs(replies@),
            total == replies@.len(),
            i <= n,
            k + synth_spans(v, i as nat).len() == total,
            rows(out@) + streamed(v, i as nat, heard, k as nat, codec) == streamed(
                v,
                0,
                heard,
                0,
                codec,
            ),
        decreases n - i,
    {
        assert(v[i as int] == p@[i as int]@);
        let ghost before = rows(out@);
        match &p[i].audio {
            Some(a) => {
                let piece: Vec<u8> = match &p[i].tokens {
                    Some(t) => {
                        let copy = copy_range(t, 0, t.len());
                        assert(copy@ =~= t@);
                        copy
                    },
                    None => codec.encode(a),
                };
                out.push(piece);
                proof {
                    assert(rows(out@) =~= before.push(piece@));
                    let rest = streamed(v, (i + 1) as nat, heard, k as nat, codec);
                    assert(before.push(piece@) + rest =~= before + (seq![piece@] + rest));
                }
                i += 1;
            },
            None => {
                proof {
                    lemma_replies_in_range(v, i as nat, k as nat, total as nat);
                }
                let end: usize = end_of_run(p, i);
                let piece: Vec<u8> = codec.encode(&replies[k]);
                out.push(piece);
                proof {
                    assert(heard[k as int] == replies@[k as int]@);
                    assert(rows(out@) =~= before.push(piece@));
                    let rest = streamed(v, end as nat, heard, (k + 1) as nat, codec);
                    assert(before.push(piece@) + rest =~= before + (seq![piece@] + rest));
                }
                i = end;
                k += 1;
            },
        }
    }
    assert(rows(out@) + Seq::<Seq<u8>>::empty() =~= rows(out@));
    out
}

/// The mean seam of decoded output at the joints of its parts.
fn mean_decoded_seam(out: &WavAudio, parts: &Vec<Vec<u8>>) -> (r: Double)
    ensures
        r@ == average(decoded_seams(out@, rows(parts@), joints(parts@.len()))),
{
    let ghost all = rows(parts@);
    let n: usize = parts.len();
    let len: usize = out.samples.len();
    let w: usize = (out.sample_rate / 100) as usize;
    let mut list: Vec<Double> = Vec::new();
    let mut off: u128 = 0;
    let mut k: usize = 0;
    let last: usize = if n == 0 {
        0
    } else {
        n - 1
    };
    assert(views(list@) =~= decoded_seams(out@, all, 0));
    while k < last
        invariant
            all == rows(parts@),
            n == parts@.len(),
            last == joints(n as nat),
            len == out.samples@.len(),
            w == out.sample_rate / 100,
            k <= last,
            off == joint(all, k as nat),
            off <= k * 0x200_0000_0000,
            views(list@) == decoded_seams(out@, all, k as nat),
        decreases last - k,
    {
        let ghost before = views(list@);
        assert(all[k as int] == parts@[k as int]@);
        let frames: u32 = match token_frames(&parts[k]) {
            Ok(f) => f,
            Err(_) => 0,
        };
        off = off + frames as u128 * 320;
        if off >= w as u128 && off + w as u128 <= len as u128 {
            let at: usize = off as usize;
            let a = WavAudio::new(
                crate::audio::copy_samples(&out.samples, at - w, at),
                out.sample_rate,
            );
            let b = WavAudio::new(
                crate::audio::copy_samples(&out.samples, at, at + w),
                out.sample_rate,
            );
            let step = seam_discontinuity(&a, &b);
            list.push(step);
            assert(views(list@) =~= before.push(step@));
        }
        k += 1;
    }
    mean(&list)
}

/// Makes the speech and the report out of a selection and what a provider
/// answered for its generated spans.
fn realize<C: AudioCodec + ?Sized, F: FadeCurve + ?Sized>(
    words: &Vec<String>,
    p: &Vec<Edge>,
    replies: &Vec<WavAudio>,
    medium: Medium,
    codec: &C,
    fades: &F,
    x: Ghost<Search>,
) -> (r: core::result::Result<(WavAudio, ComposeReport), MimicError>)
    requires
        x@.q.words == texts(words@),
        contiguous(x@, edge_views(p@)),
        total_len(texts(words@)) <= usize::MAX,
        replies@.len() == synth_spans(edge_views(p@), 0).len(),
    ensures
        composed_view(r) == realized(
            texts(words@),
            edge_views(p@),
            wavs(replies@),
            medium,
            codec,
            fades.gains(),
        ),
{
    let ghost v = edge_views(p@);
    let ghost ws = texts(words@);
    let (out, mean_seam_discontinuity): (WavAudio, Double) = match medium {
        Medium::Pcm => {
            let parts = gather_audio(p, replies);
            let mean = mean_seam(&parts);
            match splice(parts.as_slice(), CROSSFADE_MS, fades) {
                Err(e) => {
                    return Err(e);
                },
                Ok(a) => (a, mean),
            }
        },
        Medium::Tokens => {
            let parts = gather_tokens(p, replies, codec);
            assert(rows(parts@).len() == parts@.len());
            let stream = match concat_rows(&parts) {
                Err(e) => {
                    return Err(e);
                },
                Ok(t) => t,
            };
            match codec.decode(&stream) {
                Err(e) => {
                    return Err(e);
                },
                Ok(a) => {
                    let mean = mean_decoded_seam(&a, &parts);
                    (a, mean)
                },
            }
        },
    };
    let report = tally(words, p, mean_seam_discontinuity, x);
    Ok((out, report))
}

/// Counts where the characters of a selection came from.
fn tally(
    words: &Vec<String>,
    p: &Vec<Edge>,
    mean_seam_discontinuity: Double,
    x: Ghost<Search>,
) -> (r: ComposeReport)
    requires
        x@.q.words == texts(words@),
        contiguous(x@, edge_views(p@)),
        total_len(texts(words@)) <= usize::MAX,
    ensures
        ({
            let v = edge_views(p@);
            r@ == (ReportView {
                total_chars: total_len(texts(words@)),
                cached_chars: edge_chars(v, false, v.len()),
                generated_chars: edge_chars(v, true, v.len()),
                tts_calls: span_texts(texts(words@), synth_spans(v, 0)),
                hits: edge_hits(v, v.len()),
                units: edge_nodes(v, v.len()),
                mean_seam_discontinuity: mean_seam_discontinuity@,
            })
        }),
{
    let ghost v = edge_views(p@);
    let ghost ws = texts(words@);
    let n: usize = p.len();
    let mut cached_chars: usize = 0;
    let mut generated_chars: usize = 0;
    let mut hits: Vec<(String, UnitLevel)> = Vec::new();
    let mut units: Vec<NodeId> = Vec::new();
    let mut i: usize = 0;
    assert(hit_views(hits@) =~= edge_hits(v, 0));
    assert(units@ =~= edge_nodes(v, 0));
    while i < n
        invariant
            n == p@.len(),
            v == edge_views(p@),
            ws == texts(words@),
            x@.q.words == ws,
            contiguous(x@, v),
            total_len(ws) <= usize::MAX,
            i <= n,
            cached_chars == edge_chars(v, false, i as nat),
            generated_chars == edge_chars(v, true, i as nat),
            hit_views(hits@) == edge_hits(v, i as nat),
            units@ == edge_nodes(v, i as nat),
        decreases n - i,
    {
        proof {
            assert(v[i as int] == p@[i as int]@);
            edge_characters_add_up(x@, v, (i + 1) as nat);
            assert(usable(x@, v[i as int]));
            let end = v[i as int].end as int;
            crate::text::lemma_total_len_part(ws, 0, end);
            assert(ws.subrange(0, end) =~= ws.take(end));
        }
        if p[i].audio.is_none() {
            generated_chars += p[i].chars;
        } else {
            cached_chars += p[i].chars;
            let ghost before = hit_views(hits@);
            let text = p[i].text.clone();
            hits.push((text, p[i].level));
            assert(hit_views(hits@) =~= before.push((v[i as int].text, v[i as int].level)));
            let mut more = crate::store::copy_ids(&p[i].nodes);
            units.append(&mut more);
        }
        i += 1;
    }
    let spans = list_synth_spans(p, x);
    let ghost sp = span_views(spans@);
    let mut calls: Vec<String> = Vec::new();
    let mut k: usize = 0;
    assert(sp.len() == spans@.len());
    while k < spans.len()
        invariant
            ws == texts(words@),
            sp == span_views(spans@),
            sp.len() == spans@.len(),
            spans_within(sp, ws.len()),
            k <= spans@.len(),
            calls@.len() == k,
            forall|j: int| 0 <= j < k ==> (#[trigger] calls@[j])@ == span_text(ws, sp[j]),
        decreases spans@.len() - k,
    {
        let (from, to) = spans[k];
        assert(sp[k as int] == (from as nat, to as nat));
        calls.push(join_words(words, from, to));
        k += 1;
    }
    assert(texts(calls@) =~= span_texts(ws, sp));
    proof {
        edge_characters_add_up(x@, v, n as nat);
        assert(ws.take(v.last().end as int) =~= ws);
    }
    ComposeReport {
        total_chars: cached_chars + generated_chars,
        cached_chars,
        generated_chars,
        tts_calls: calls,
        hits,
        units,
        mean_seam_discontinuity,
    }
}

// ---- compose ----

/// What a compose by unit selection may have done: its outcome and the store
/// it leaves.
pub open spec fn selected<T: TtsProvider + ?Sized, C: AudioCodec + ?Sized>(
    before: StoreView,
    after: StoreView,
    r: core::result::Result<(WavView, ReportView), ErrorView>,
    tts: &T,
    text: Seq<char>,
    voice: Seq<char>,
    dict: Dict,
    medium: Medium,
    codec: &C,
    t: Gains,
) -> bool {
    let words = tokens(text);
    if words.len() == 0 {
        r == Err::<(WavView, ReportView), ErrorView>(ErrorView::NotFound("empty text"@)) && after
            == before
    } else {
        let x = Search { q: Request { nodes: before.nodes, words }, dict, medium, t };
        match built(x, codec) {
            Err(e) => r == Err::<(WavView, ReportView), ErrorView>(e) && after == before,
            Ok(v) => {
                let p = selection(x, v);
                let spans = synth_spans(p, 0);
                exists|replies: Seq<Reply>|
                    {
                        &&& #[trigger] answered(tts, words, spans, voice, replies)
                        &&& after == grown(
                            before,
                            words,
                            spans,
                            replies,
                            voice,
                            tts.provider_name(),
                            dict,
                            kept(replies),
                            codec,
                        )
                        &&& if all_spoken(spans, replies) {
                            r == realized(words, p, spoken_audio(replies), medium, codec, t)
                        } else {
                            r == Err::<(WavView, ReportView), ErrorView>(replies.last()->Err_0)
                        }
                    }
            },
        }
    }
}

/// Unit-selection composer with a realization medium. `Tokens` concatenates
/// unit token streams and decodes once; `Pcm` crossfades waveforms.
pub fn compose_v3_with_medium<
    T: TtsProvider + ?Sized,
    C: AudioCodec + ?Sized,
    F: FadeCurve + ?Sized,
>(
    store: &mut MimicStore,
    tts: &T,
    text: &str,
    voice: &str,
    g2p: Option<&G2p>,
    medium: Medium,
    codec: &C,
    fades: &F,
) -> (r: core::result::Result<(WavAudio, ComposeReport), MimicError>)
    ensures
        selected(
            old(store)@,
            final(store)@,
            composed_view(r),
            tts,
            text@,
            voice@,
            opt_dict(g2p),
            medium,
            codec,
            fades.gains(),
        ),
{
    let words = tokenize(text);
    if words.len() == 0 {
        return Err(MimicError::NotFound("empty text".to_owned()));
    }
    let ghost x = Search {
        q: Request { nodes: store@.nodes, words: texts(words@) },
        dict: opt_dict(g2p),
        medium,
        t: fades.gains(),
    };
    proof {
        tokens_are_not_empty(text@);
        assert(texts(words@).len() == words@.len());
        built_edges_are_usable(x, codec);
    }
    let edges = match build_edges(store, &words, g2p, medium, codec, fades) {
        Err(e) => {
            return Err(e);
        },
        Ok(v) => v,
    };
    let ghost v = edge_views(edges@);
    proof {
        selection_is_contiguous(x, v);
        every_request_has_a_path(x, v);
    }
    let path = match search(store, &words, g2p, &edges, Ghost(x)) {
        Some(p) => p,
        None => {
            return Err(MimicError::NotFound("no path through lattice".to_owned()));
        },
    };
    proof {
        assert forall|i: int| 0 <= i < path@.len() implies #[trigger] path@[i] < edges@.len() by {
            assert(indices(path@)[i] == path@[i]);
            assert(0 <= indices(path@)[i] < lattice_of(x, v).arcs.len());
        }
    }
    let p = pick(&edges, &path);
    let spans = list_synth_spans(&p, Ghost(x));
    let replies = match speak_spans(store, tts, &words, &spans, voice, g2p, codec) {
        Err(e) => {
            return Err(e);
        },
        Ok(a) => a,
    };
    assert(wavs(replies@).len() == replies@.len());
    realize(&words, &p, &replies, medium, codec, fades, Ghost(x))
}

/// Unit-selection composer with PCM realization.
pub fn compose_v3<T: TtsProvider + ?Sized, C: AudioCodec + ?Sized, F: FadeCurve + ?Sized>(
    store: &mut MimicStore,
    tts: &T,
    text: &str,
    voice: &str,
    g2p: Option<&G2p>,
    codec: &C,
    fades: &F,
) -> (r: core::result::Result<(WavAudio, ComposeReport), MimicError>)
    ensures
        selected(
            old(store)@,
            final(store)@,
            composed_view(r),
            tts,
            text@,
            voice@,
            opt_dict(g2p),
            Medium::Pcm,
            codec,
            fades.gains(),
        ),
{
    compose_v3_with_medium(store, tts, text, voice, g2p, Medium::Pcm, codec, fades)
}

} // verus!
