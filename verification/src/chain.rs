//! Diphone chains: a word assembled from the transitions between its phonemes.
//!
//! A chain is the first half of the first phoneme, a diphone for every
//! transition, and the second half of the last phoneme. Where a diphone is not
//! cached, the halves of the phonemes on either side stand in for it.

use crate::audio::{sliced, splice, spliced, wavs, WavAudio, WavView};
use crate::codec::{
    concat_tokens, concatenated, rows, slice_tokens, sliced_tokens, slices, AudioCodec,
};
use crate::error::{outcome, ErrorView, Result};
use crate::fade::{FadeCurve, Gains};
use crate::frac::Frac;
use crate::g2p::{base_of, G2p};
use crate::pipeline::diphone_key;
use crate::store::{audio_at, matching, matching_base, tokens_at, MimicStore, NodeId, NodeView};
use crate::text::texts;
use crate::units::UnitLevel;
use vstd::prelude::*;
use vstd::string::*;

verus! {

/// The first half.
pub open spec fn first_half(a: WavView) -> WavView {
    sliced(a, Frac { num: 0, den: 1 }, Frac { num: 1, den: 2 })
}

/// The second half.
pub open spec fn second_half(a: WavView) -> WavView {
    sliced(a, Frac { num: 1, den: 2 }, Frac { num: 1, den: 1 })
}

/// The first cached phoneme unit with a base symbol, and its audio.
pub open spec fn phoneme_unit<C: AudioCodec + ?Sized>(
    nodes: Seq<NodeView>,
    base: Seq<char>,
    codec: &C,
) -> Option<(NodeId, WavView)> {
    let ids = matching_base(nodes, base);
    if ids.len() == 0 {
        None
    } else {
        match audio_at(nodes, ids[0], codec) {
            Ok(a) => Some((ids[0], a)),
            Err(_) => None,
        }
    }
}

/// The first cached diphone with a key, and its audio.
pub open spec fn diphone_unit<C: AudioCodec + ?Sized>(
    nodes: Seq<NodeView>,
    key: Seq<char>,
    codec: &C,
) -> Option<(NodeId, WavView)> {
    let ids = matching(nodes, UnitLevel::Diphone, key);
    if ids.len() == 0 {
        None
    } else {
        match audio_at(nodes, ids[0], codec) {
            Ok(a) => Some((ids[0], a)),
            Err(_) => None,
        }
    }
}

/// The pieces of a chain so far.
#[verifier::ext_equal]
pub struct Chain {
    pub pieces: Seq<WavView>,
    pub gaps: nat,
    pub nodes: Seq<NodeId>,
}

/// A chain up to the middle of phoneme `k`: the first half of the first
/// phoneme, then the diphones, with halves of phonemes for a missing one.
pub open spec fn chain_to<C: AudioCodec + ?Sized>(
    nodes: Seq<NodeView>,
    ps: Seq<Seq<char>>,
    k: nat,
    codec: &C,
) -> Option<Chain>
    decreases k,
{
    if k == 0 {
        match phoneme_unit(nodes, base_of(ps[0]), codec) {
            None => None,
            Some((id, a)) => Some(
                Chain { pieces: seq![first_half(a)], gaps: 0, nodes: seq![id] },
            ),
        }
    } else {
        match chain_to(nodes, ps, (k - 1) as nat, codec) {
            None => None,
            Some(c) => match diphone_unit(nodes, diphone_key(ps[k - 1], ps[k as int]), codec) {
                Some((id, a)) => Some(
                    Chain { pieces: c.pieces.push(a), gaps: c.gaps, nodes: c.nodes.push(id) },
                ),
                None => match (
                    phoneme_unit(nodes, base_of(ps[k - 1]), codec),
                    phoneme_unit(nodes, base_of(ps[k as int]), codec),
                ) {
                    (Some((_, l)), Some((_, r))) => Some(
                        Chain {
                            pieces: c.pieces.push(second_half(l)).push(first_half(r)),
                            gaps: c.gaps + 1,
                            nodes: c.nodes,
                        },
                    ),
                    _ => None,
                },
            },
        }
    }
}

/// The chain of a word: closed by the second half of the last phoneme.
pub open spec fn chain_of<C: AudioCodec + ?Sized>(
    nodes: Seq<NodeView>,
    ps: Seq<Seq<char>>,
    codec: &C,
) -> Option<Chain> {
    if ps.len() == 0 {
        None
    } else {
        match (
            chain_to(nodes, ps, (ps.len() - 1) as nat, codec),
            phoneme_unit(nodes, base_of(ps.last()), codec),
        ) {
            (Some(c), Some((id, a))) => Some(
                Chain {
                    pieces: c.pieces.push(second_half(a)),
                    gaps: c.gaps,
                    nodes: c.nodes.push(id),
                },
            ),
            _ => None,
        }
    }
}

/// The audio of a chain of diphones, with its gaps and units; none where a
/// phoneme that is needed is missing.
pub open spec fn chain_audio<C: AudioCodec + ?Sized>(
    nodes: Seq<NodeView>,
    ps: Seq<Seq<char>>,
    codec: &C,
    t: Gains,
) -> Option<(WavView, nat, Seq<NodeId>)> {
    match chain_of(nodes, ps, codec) {
        None => None,
        Some(c) => match spliced(c.pieces, 2, t) {
            Err(_) => None,
            Ok(a) => Some((a, c.gaps, c.nodes)),
        },
    }
}

fn half() -> (r: Frac)
    ensures
        r == (Frac { num: 1, den: 2 }),
{
    Frac { num: 1, den: 2 }
}

fn none() -> (r: Frac)
    ensures
        r == (Frac { num: 0, den: 1 }),
{
    Frac { num: 0, den: 1 }
}

fn whole() -> (r: Frac)
    ensures
        r == (Frac { num: 1, den: 1 }),
{
    Frac { num: 1, den: 1 }
}

/// The value of a found unit.
pub open spec fn found_view(r: Option<(NodeId, WavAudio)>) -> Option<(NodeId, WavView)> {
    match r {
        Some((id, a)) => Some((id, a@)),
        None => None,
    }
}

fn find_phoneme<C: AudioCodec + ?Sized>(store: &MimicStore, phoneme: &str, codec: &C) -> (r:
    Option<(NodeId, WavAudio)>)
    ensures
        found_view(r) == phoneme_unit(store@.nodes, base_of(phoneme@), codec),
{
    let ids = store.phonemes_by_base(G2p::base(phoneme));
    if ids.len() == 0 {
        return None;
    }
    let id: NodeId = ids[0];
    match store.get_audio(id, codec) {
        Ok(a) => Some((id, a)),
        Err(_) => None,
    }
}

fn key_of(left: &str, right: &str) -> (r: String)
    ensures
        r@ == diphone_key(left@, right@),
{
    let mut key = G2p::base(left).to_owned();
    key.append("+");
    key.append(G2p::base(right));
    key
}

fn find_diphone<C: AudioCodec + ?Sized>(
    store: &MimicStore,
    left: &str,
    right: &str,
    codec: &C,
) -> (r: Option<(NodeId, WavAudio)>)
    ensures
        found_view(r) == diphone_unit(store@.nodes, diphone_key(left@, right@), codec),
{
    let key = key_of(left, right);
    let ids = store.lookup_exact(UnitLevel::Diphone, key.as_str());
    if ids.len() == 0 {
        return None;
    }
    let id: NodeId = ids[0];
    match store.get_audio(id, codec) {
        Ok(a) => Some((id, a)),
        Err(_) => None,
    }
}

/// A chain that cannot go on stays so.
proof fn lemma_chain_broken<C: AudioCodec + ?Sized>(
    nodes: Seq<NodeView>,
    ps: Seq<Seq<char>>,
    j: nat,
    k: nat,
    codec: &C,
)
    requires
        j <= k,
        chain_to(nodes, ps, j, codec) is None,
    ensures
        chain_to(nodes, ps, k, codec) is None,
    decreases k,
{
    if j < k {
        lemma_chain_broken(nodes, ps, j, (k - 1) as nat, codec);
    }
}

/// Assembles the audio of one word from diphones.
#[verifier::rlimit(40)]
pub fn diphone_chain<C: AudioCodec + ?Sized, F: FadeCurve + ?Sized>(
    store: &MimicStore,
    phonemes: &Vec<String>,
    codec: &C,
    fades: &F,
) -> (r: Option<(WavAudio, usize, Vec<NodeId>)>)
    ensures
        match r {
            Some((a, gaps, ids)) => chain_audio(
                store@.nodes,
                texts(phonemes@),
                codec,
                fades.gains(),
            ) == Some((a@, gaps as nat, ids@)),
            None => chain_audio(store@.nodes, texts(phonemes@), codec, fades.gains()) is None,
        },
{
    let ghost nodes = store@.nodes;
    let ghost ps = texts(phonemes@);
    let n: usize = phonemes.len();
    if n == 0 {
        return None;
    }
    let mut pieces: Vec<WavAudio> = Vec::new();
    let mut ids: Vec<NodeId> = Vec::new();
    let mut gaps: usize = 0;
    assert(ps[0] == phonemes@[0]@);
    match find_phoneme(store, phonemes[0].as_str(), codec) {
        None => {
            proof {
                lemma_chain_broken(nodes, ps, 0, (n - 1) as nat, codec);
            }
            return None;
        },
        Some((id, a)) => {
            pieces.push(a.slice_frac(none(), half()));
            ids.push(id);
            assert(wavs(pieces@) =~= seq![first_half(a@)]);
            assert(ids@ =~= seq![id]);
        },
    }
    let mut k: usize = 0;
    while k < n - 1
        invariant
            nodes == store@.nodes,
            ps == texts(phonemes@),
            n == phonemes@.len(),
            n > 0,
            k <= n - 1,
            gaps <= k,
            chain_to(nodes, ps, k as nat, codec) == Some(
                Chain { pieces: wavs(pieces@), gaps: gaps as nat, nodes: ids@ },
            ),
        decreases n - k,
    {
        let left: &str = phonemes[k].as_str();
        let right: &str = phonemes[k + 1].as_str();
        assert(ps[k as int] == left@ && ps[k + 1] == right@);
        let ghost before = wavs(pieces@);
        match find_diphone(store, left, right, codec) {
            Some((id, a)) => {
                pieces.push(a);
                ids.push(id);
                assert(wavs(pieces@) =~= before.push(a@));
            },
            None => {
                let l = find_phoneme(store, left, codec);
                let r = find_phoneme(store, right, codec);
                match (l, r) {
                    (Some((_, la)), Some((_, ra))) => {
                        gaps += 1;
                        pieces.push(la.slice_frac(half(), whole()));
                        pieces.push(ra.slice_frac(none(), half()));
                        assert(wavs(pieces@) =~= before.push(second_half(la@)).push(
                            first_half(ra@),
                        ));
                    },
                    _ => {
                        proof {
                            lemma_chain_broken(nodes, ps, (k + 1) as nat, (n - 1) as nat, codec);
                        }
                        return None;
                    },
                }
            },
        }
        k += 1;
    }
    assert(ps.last() == phonemes@[n - 1]@);
    match find_phoneme(store, phonemes[n - 1].as_str(), codec) {
        None => None,
        Some((id, a)) => {
            let ghost before = wavs(pieces@);
            pieces.push(a.slice_frac(half(), whole()));
            ids.push(id);
            assert(wavs(pieces@) =~= before.push(second_half(a@)));
            match splice(pieces.as_slice(), 2, fades) {
                Err(_) => None,
                Ok(audio) => Some((audio, gaps, ids)),
            }
        },
    }
}

// ---- in tokens ----

/// The tokens of the first half of a stream's frames.
pub open spec fn first_frames(t: Seq<u8>) -> core::result::Result<Seq<u8>, ErrorView> {
    sliced_tokens(t, Frac { num: 0, den: 1 }, Frac { num: 1, den: 2 })
}

/// The tokens of the second half of a stream's frames.
pub open spec fn second_frames(t: Seq<u8>) -> core::result::Result<Seq<u8>, ErrorView> {
    sliced_tokens(t, Frac { num: 1, den: 2 }, Frac { num: 1, den: 1 })
}

/// The first of some units, and its tokens.
pub open spec fn first_tokens(nodes: Seq<NodeView>, ids: Seq<NodeId>) -> Option<
    (NodeId, Seq<u8>),
> {
    if ids.len() == 0 {
        None
    } else {
        match tokens_at(nodes, ids[0]) {
            Ok(t) => Some((ids[0], t)),
            Err(_) => None,
        }
    }
}

/// The pieces of a token chain so far.
#[verifier::ext_equal]
pub struct TokenChain {
    pub pieces: Seq<Seq<u8>>,
    pub gaps: nat,
    pub nodes: Seq<NodeId>,
}

/// A token chain up to the middle of phoneme `k`.
pub open spec fn token_chain_to(nodes: Seq<NodeView>, ps: Seq<Seq<char>>, k: nat) -> Option<
    TokenChain,
>
    decreases k,
{
    if k == 0 {
        match first_tokens(nodes, matching_base(nodes, base_of(ps[0]))) {
            None => None,
            Some((id, t)) => match first_frames(t) {
                Err(_) => None,
                Ok(h) => Some(TokenChain { pieces: seq![h], gaps: 0, nodes: seq![id] }),
            },
        }
    } else {
        match token_chain_to(nodes, ps, (k - 1) as nat) {
            None => None,
            Some(c) => match first_tokens(
                nodes,
                matching(nodes, UnitLevel::Diphone, diphone_key(ps[k - 1], ps[k as int])),
            ) {
                Some((id, t)) => Some(
                    TokenChain { pieces: c.pieces.push(t), gaps: c.gaps, nodes: c.nodes.push(id) },
                ),
                None => match (
                    first_tokens(nodes, matching_base(nodes, base_of(ps[k - 1]))),
                    first_tokens(nodes, matching_base(nodes, base_of(ps[k as int]))),
                ) {
                    (Some((_, l)), Some((_, r))) => match (second_frames(l), first_frames(r)) {
                        (Ok(x), Ok(y)) => Some(
                            TokenChain {
                                pieces: c.pieces.push(x).push(y),
                                gaps: c.gaps + 1,
                                nodes: c.nodes,
                            },
                        ),
                        _ => None,
                    },
                    _ => None,
                },
            },
        }
    }
}

/// The token stream of a chain of diphones, with its gaps and units.
pub open spec fn chain_tokens(nodes: Seq<NodeView>, ps: Seq<Seq<char>>) -> Option<
    (Seq<u8>, nat, Seq<NodeId>),
> {
    if ps.len() == 0 {
        None
    } else {
        match (
            token_chain_to(nodes, ps, (ps.len() - 1) as nat),
            first_tokens(nodes, matching_base(nodes, base_of(ps.last()))),
        ) {
            (Some(c), Some((id, t))) => match second_frames(t) {
                Err(_) => None,
                Ok(h) => match concatenated(c.pieces.push(h)) {
                    Err(_) => None,
                    Ok(stream) => Some((stream, c.gaps, c.nodes.push(id))),
                },
            },
            _ => None,
        }
    }
}

/// The value of found tokens.
pub open spec fn tokens_view(r: Option<(NodeId, Vec<u8>)>) -> Option<(NodeId, Seq<u8>)> {
    match r {
        Some((id, t)) => Some((id, t@)),
        None => None,
    }
}

fn tokens_of_first(store: &MimicStore, ids: &[NodeId]) -> (r: Option<(NodeId, Vec<u8>)>)
    ensures
        tokens_view(r) == first_tokens(store@.nodes, ids@),
{
    if ids.len() == 0 {
        return None;
    }
    let id: NodeId = ids[0];
    match store.get_tokens(id) {
        Ok(t) => Some((id, t)),
        Err(_) => None,
    }
}

fn phoneme_tokens(store: &MimicStore, phoneme: &str) -> (r: Option<(NodeId, Vec<u8>)>)
    ensures
        tokens_view(r) == first_tokens(
            store@.nodes,
            matching_base(store@.nodes, base_of(phoneme@)),
        ),
{
    let ids = store.phonemes_by_base(G2p::base(phoneme));
    tokens_of_first(store, ids.as_slice())
}

proof fn lemma_token_chain_broken(nodes: Seq<NodeView>, ps: Seq<Seq<char>>, j: nat, k: nat)
    requires
        j <= k,
        token_chain_to(nodes, ps, j) is None,
    ensures
        token_chain_to(nodes, ps, k) is None,
    decreases k,
{
    if j < k {
        lemma_token_chain_broken(nodes, ps, j, (k - 1) as nat);
    }
}

/// Concatenates token streams that are held one by one.
pub fn concat_rows(parts: &Vec<Vec<u8>>) -> (r: Result<Vec<u8>>)
    ensures
        outcome(r) == concatenated(rows(parts@)),
{
    let mut refs: Vec<&[u8]> = Vec::new();
    let mut i: usize = 0;
    while i < parts.len()
        invariant
            i <= parts@.len(),
            refs@.len() == i,
            forall|k: int| 0 <= k < i ==> (#[trigger] refs@[k])@ == parts@[k]@,
        decreases parts@.len() - i,
    {
        refs.push(parts[i].as_slice());
        i += 1;
    }
    assert(slices(refs@) =~= rows(parts@));
    concat_tokens(refs.as_slice())
}

/// Assembles the token stream of one word from diphones, without decoding.
#[verifier::rlimit(40)]
pub fn diphone_chain_tokens(store: &MimicStore, phonemes: &Vec<String>) -> (r: Option<
    (Vec<u8>, usize, Vec<NodeId>),
>)
    ensures
        match r {
            Some((t, gaps, ids)) => chain_tokens(store@.nodes, texts(phonemes@)) == Some(
                (t@, gaps as nat, ids@),
            ),
            None => chain_tokens(store@.nodes, texts(phonemes@)) is None,
        },
{
    let ghost nodes = store@.nodes;
    let ghost ps = texts(phonemes@);
    let n: usize = phonemes.len();
    if n == 0 {
        return None;
    }
    let mut pieces: Vec<Vec<u8>> = Vec::new();
    let mut ids: Vec<NodeId> = Vec::new();
    let mut gaps: usize = 0;
    assert(ps[0] == phonemes@[0]@);
    proof {
        if token_chain_to(nodes, ps, 0) is None {
            lemma_token_chain_broken(nodes, ps, 0, (n - 1) as nat);
        }
    }
    match phoneme_tokens(store, phonemes[0].as_str()) {
        None => {
            return None;
        },
        Some((id, t)) => match slice_tokens(&t, none(), half()) {
            Err(_) => {
                return None;
            },
            Ok(h) => {
                pieces.push(h);
                ids.push(id);
                assert(rows(pieces@) =~= seq![h@]);
                assert(ids@ =~= seq![id]);
            },
        },
    }
    let mut k: usize = 0;
    while k < n - 1
        invariant
            nodes == store@.nodes,
            ps == texts(phonemes@),
            n == phonemes@.len(),
            n > 0,
            k <= n - 1,
            gaps <= k,
            token_chain_to(nodes, ps, k as nat) == Some(
                TokenChain {
                    pieces: rows(pieces@),
                    gaps: gaps as nat,
                    nodes: ids@,
                },
            ),
        decreases n - k,
    {
        let left: &str = phonemes[k].as_str();
        let right: &str = phonemes[k + 1].as_str();
        assert(ps[k as int] == left@ && ps[k + 1] == right@);
        proof {
            if token_chain_to(nodes, ps, (k + 1) as nat) is None {
                lemma_token_chain_broken(nodes, ps, (k + 1) as nat, (n - 1) as nat);
            }
        }
        let ghost before = rows(pieces@);
        let key = key_of(left, right);
        let found = tokens_of_first(
            store,
            store.lookup_exact(UnitLevel::Diphone, key.as_str()),
        );
        match found {
            Some((id, t)) => {
                pieces.push(t);
                ids.push(id);
                assert(rows(pieces@) =~= before.push(t@));
            },
            None => {
                let l = phoneme_tokens(store, left);
                let r = phoneme_tokens(store, right);
                match (l, r) {
                    (Some((_, lt)), Some((_, rt))) => {
                        let x = slice_tokens(&lt, half(), whole());
                        let y = slice_tokens(&rt, none(), half());
                        match (x, y) {
                            (Ok(x), Ok(y)) => {
                                gaps += 1;
                                pieces.push(x);
                                pieces.push(y);
                                assert(rows(pieces@) =~= before.push(x@).push(y@));
                            },
                            _ => {
                                return None;
                            },
                        }
                    },
                    _ => {
                        return None;
                    },
                }
            },
        }
        k += 1;
    }
    assert(ps.last() == phonemes@[n - 1]@);
    match phoneme_tokens(store, phonemes[n - 1].as_str()) {
        None => None,
        Some((id, t)) => match slice_tokens(&t, half(), whole()) {
            Err(_) => None,
            Ok(h) => {
                let ghost before = rows(pieces@);
                pieces.push(h);
                ids.push(id);
                assert(rows(pieces@) =~= before.push(h@));
                match concat_rows(&pieces) {
                    Err(_) => None,
                    Ok(stream) => Some((stream, gaps, ids)),
                }
            },
        },
    }
}

} // verus!
