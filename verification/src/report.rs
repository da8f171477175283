//! What a compose reports: where its audio came from and how smooth it is.

use crate::audio::{seam, seam_discontinuity, wavs, WavAudio, WavView};
use crate::double::{average, mean, over, times, views, whole, whole_is_positive, Double};
use crate::store::NodeId;
use crate::text::texts;
use crate::units::UnitLevel;
use vstd::prelude::*;

verus! {

/// Where the audio of a compose came from.
#[derive(Debug)]
pub struct ComposeReport {
    pub total_chars: usize,
    pub cached_chars: usize,
    pub generated_chars: usize,
    pub tts_calls: Vec<String>,
    /// Resolved units in speaking order: unit text and level.
    pub hits: Vec<(String, UnitLevel)>,
    /// Nodes of the cached units used by unit selection; empty for the greedy
    /// path.
    pub units: Vec<NodeId>,
    /// Mean join discontinuity (level and zero-crossing steps) across splices.
    pub mean_seam_discontinuity: Double,
}

/// The value of a report.
#[verifier::ext_equal]
pub struct ReportView {
    pub total_chars: nat,
    pub cached_chars: nat,
    pub generated_chars: nat,
    pub tts_calls: Seq<Seq<char>>,
    pub hits: Seq<(Seq<char>, UnitLevel)>,
    pub units: Seq<NodeId>,
    pub mean_seam_discontinuity: nat,
}

/// The values of a sequence of hits.
pub open spec fn hit_views(v: Seq<(String, UnitLevel)>) -> Seq<(Seq<char>, UnitLevel)> {
    Seq::new(v.len(), |i: int| (v[i].0@, v[i].1))
}

impl View for ComposeReport {
    type V = ReportView;

    open spec fn view(&self) -> ReportView {
        ReportView {
            total_chars: self.total_chars as nat,
            cached_chars: self.cached_chars as nat,
            generated_chars: self.generated_chars as nat,
            tts_calls: texts(self.tts_calls@),
            hits: hit_views(self.hits@),
            units: self.units@,
            mean_seam_discontinuity: self.mean_seam_discontinuity@,
        }
    }
}

/// The share of a total in percent.
pub open spec fn percent(part: nat, total: nat) -> nat {
    if total == 0 {
        0
    } else {
        over(times(whole(100), whole(part)), whole(total))
    }
}

/// The share of a total in percent.
pub fn percent_of(part: usize, total: usize) -> (r: Double)
    ensures
        r@ == percent(part as nat, total as nat),
{
    if total == 0 {
        return Double::zero();
    }
    proof {
        whole_is_positive(total as nat);
    }
    Double::of(100).times(Double::of(part as u64)).over(Double::of(total as u64))
}

impl ComposeReport {
    /// A report of nothing.
    pub fn empty() -> (r: ComposeReport)
        ensures
            r@ == (ReportView {
                total_chars: 0,
                cached_chars: 0,
                generated_chars: 0,
                tts_calls: Seq::empty(),
                hits: Seq::empty(),
                units: Seq::empty(),
                mean_seam_discontinuity: 0,
            }),
    {
        let r = ComposeReport {
            total_chars: 0,
            cached_chars: 0,
            generated_chars: 0,
            tts_calls: Vec::new(),
            hits: Vec::new(),
            units: Vec::new(),
            mean_seam_discontinuity: Double::zero(),
        };
        assert(texts(r.tts_calls@) =~= Seq::empty());
        assert(hit_views(r.hits@) =~= Seq::empty());
        r
    }

    /// How much was served from the cache, in percent.
    pub fn cache_hit_pct(&self) -> (r: Double)
        ensures
            r@ == percent(self@.cached_chars, self@.total_chars),
    {
        percent_of(self.cached_chars, self.total_chars)
    }
}

/// The seams between consecutive parts.
pub open spec fn seams(parts: Seq<WavView>) -> Seq<nat> {
    Seq::new(
        if parts.len() == 0 {
            0
        } else {
            (parts.len() - 1) as nat
        },
        |i: int| seam(parts[i], parts[i + 1]),
    )
}

/// The mean seam between consecutive parts; 0 for one part.
pub fn mean_seam(parts: &Vec<WavAudio>) -> (r: Double)
    ensures
        r@ == average(seams(wavs(parts@))),
{
    let n: usize = parts.len();
    let mut list: Vec<Double> = Vec::new();
    let mut i: usize = 1;
    while i < n
        invariant
            n == parts@.len(),
            1 <= i,
            n > 0 ==> i <= n,
            n == 0 ==> i == 1,
            list@.len() == i - 1,
            forall|k: int|
                0 <= k < i - 1 ==> (#[trigger] list@[k])@ == seam(parts@[k]@, parts@[k + 1]@),
        decreases n - i,
    {
        list.push(seam_discontinuity(&parts[i - 1], &parts[i]));
        i += 1;
    }
    proof {
        let w = wavs(parts@);
        let s = views(list@);
        assert(s.len() == seams(w).len());
        assert forall|k: int| 0 <= k < s.len() implies s[k] == seams(w)[k] by {
            assert(list@[k]@ == seam(parts@[k]@, parts@[k + 1]@));
            assert(w[k] == parts@[k]@ && w[k + 1] == parts@[k + 1]@);
        }
        assert(s =~= seams(w));
    }
    mean(&list)
}

} // verus!
