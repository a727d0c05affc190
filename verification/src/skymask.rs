//! The skymask interval map: an ordered, non-overlapping list of angular
//! sub-intervals, each carrying the projected segment whose linear profile is
//! in effect there, and its samplers.

use vstd::prelude::*;
use rayon::iter::{IndexedParallelIterator, IntoParallelRefIterator, ParallelIterator};
use crate::geom::{Cand, wf_cand, interp, interp_exec};
use crate::ELEV_BOUND;

verus! {

/// One sub-interval `[lo, hi)` of the skyline, valued by the projected
/// segment `c` whose profile is in effect across it.
#[derive(Clone, Copy, PartialEq, Eq, Structural, Debug)]
pub struct Entry {
    pub lo: i64,
    pub hi: i64,
    pub c: Cand,
}

/// An exported skyline record: an angular range with the elevations in effect
/// at its two boundaries.
#[derive(Clone, Copy, PartialEq, Eq, Structural, Debug)]
pub struct SkyRecord {
    pub a_start: i64,
    pub a_end: i64,
    pub y_start: i64,
    pub y_end: i64,
}

/// Well-formedness of one entry: a nonempty range inside the span of its own
/// candidate, so the profile is only ever read where it is defined.
pub open spec fn wf_entry(e: Entry) -> bool {
    &&& wf_cand(e.c)
    &&& e.c.a0 <= e.lo
    &&& e.lo < e.hi
    &&& e.hi <= e.c.a1
}

/// Well-formedness of an entry sequence: every entry well formed, and the
/// ranges in ascending order without overlap.
pub open spec fn wf_mask_seq(s: Seq<Entry>) -> bool {
    &&& forall|i: int| 0 <= i < s.len() ==> wf_entry(#[trigger] s[i])
    &&& forall|i: int| 0 <= i < s.len() - 1 ==> (#[trigger] s[i]).hi <= s[i + 1].lo
}

/// Whether the range of entry `e` contains the angle `x`.
pub open spec fn entry_covers(e: Entry, x: int) -> bool {
    e.lo <= x < e.hi
}

/// Whether some entry of `s` contains the angle `x`.
pub open spec fn mask_covers(s: Seq<Entry>, x: int) -> bool {
    exists|i: int| 0 <= i < s.len() && entry_covers(#[trigger] s[i], x)
}

/// The elevation the skyline records at angle `x`: the profile of the entry
/// containing `x`, or zero in a gap.
pub open spec fn sample_seq(s: Seq<Entry>, x: int) -> int
    decreases s.len(),
{
    if s.len() == 0 {
        0
    } else if entry_covers(s[0], x) {
        interp(s[0].c, x)
    } else {
        sample_seq(s.drop_first(), x)
    }
}

/// Entries that stand apart in a well-formed sequence have ordered ranges.
pub proof fn lemma_mask_ordered(s: Seq<Entry>, i: int, j: int)
    requires
        wf_mask_seq(s),
        0 <= i < j < s.len(),
    ensures
        s[i].hi <= s[j].lo,
    decreases j - i,
{
    if j > i + 1 {
        lemma_mask_ordered(s, i, j - 1);
    }
}

/// No two distinct sub-intervals of a well-formed skyline overlap: an angle
/// contained in one is contained in no other.
pub proof fn lemma_no_overlap(s: Seq<Entry>, x: int, i: int, j: int)
    requires
        wf_mask_seq(s),
        0 <= i < s.len(),
        0 <= j < s.len(),
        i != j,
        entry_covers(s[i], x),
    ensures
        !entry_covers(s[j], x),
{
    if i < j {
        lemma_mask_ordered(s, i, j);
    } else {
        lemma_mask_ordered(s, j, i);
    }
}

/// Dropping the first entry keeps a mask sequence well formed.
pub proof fn lemma_wf_drop_first(s: Seq<Entry>)
    requires
        wf_mask_seq(s),
        s.len() > 0,
    ensures
        wf_mask_seq(s.drop_first()),
{
    let t = s.drop_first();
    assert forall|i: int| 0 <= i < t.len() implies wf_entry(#[trigger] t[i]) by {
        assert(t[i] == s[i + 1]);
    }
    assert forall|i: int| 0 <= i < t.len() - 1 implies (#[trigger] t[i]).hi <= t[i + 1].lo by {
        assert(t[i] == s[i + 1]);
        assert(t[i + 1] == s[i + 2]);
    }
}

/// Sampling an uncovered angle yields exactly zero.
pub proof fn lemma_sample_zero(s: Seq<Entry>, x: int)
    requires
        !mask_covers(s, x),
    ensures
        sample_seq(s, x) == 0,
    decreases s.len(),
{
    if s.len() > 0 {
        assert(!entry_covers(s[0], x));
        assert forall|i: int| 0 <= i < s.drop_first().len()
            implies !entry_covers(#[trigger] s.drop_first()[i], x) by {
            assert(s.drop_first()[i] == s[i + 1]);
        }
        lemma_sample_zero(s.drop_first(), x);
    }
}

/// Sampling an angle contained in entry `i` yields that entry's profile.
pub proof fn lemma_sample_at(s: Seq<Entry>, x: int, i: int)
    requires
        wf_mask_seq(s),
        0 <= i < s.len(),
        entry_covers(s[i], x),
    ensures
        sample_seq(s, x) == interp(s[i].c, x),
    decreases s.len(),
{
    if i == 0 {
    } else {
        if entry_covers(s[0], x) {
            lemma_no_overlap(s, x, 0, i);
        }
        lemma_wf_drop_first(s);
        assert(s.drop_first()[i - 1] == s[i]);
        lemma_sample_at(s.drop_first(), x, i - 1);
    }
}

/// The computed skyline: an ordered, non-overlapping interval map from
/// angular sub-ranges to linear elevation profiles.
pub struct Skymask {
    pub entries: Vec<Entry>,
}

impl Skymask {
    /// The invariant of every skyline this library computes.
    pub open spec fn wf(self) -> bool {
        wf_mask_seq(self.entries@)
    }

    /// The empty skyline: no obstruction anywhere.
    pub fn empty() -> (r: Skymask)
        ensures
            r.wf(),
            r.entries@.len() == 0,
    {
        Skymask { entries: Vec::new() }
    }

    /// The elevation in effect at angle `x`: the linear profile of the
    /// sub-interval containing `x`, or zero when no sub-interval does.
    pub fn evaluate_one(&self, x: i64) -> (y: i64)
        requires
            self.wf(),
        ensures
            y == sample_seq(self.entries@, x as int),
            -3 * ELEV_BOUND <= y <= 3 * ELEV_BOUND,
    {
        let n = self.entries.len();
        let mut i: usize = 0;
        while i < n
            invariant
                self.wf(),
                n == self.entries@.len(),
                0 <= i <= n,
                forall|j: int| 0 <= j < i ==> !entry_covers(#[trigger] self.entries@[j], x as int),
            decreases n - i,
        {
            let e = self.entries[i];
            if e.lo <= x && x < e.hi {
                let y = interp_exec(&e.c, x);
                proof {
                    lemma_sample_at(self.entries@, x as int, i as int);
                }
                return y;
            }
            i = i + 1;
        }
        proof {
            lemma_sample_zero(self.entries@, x as int);
        }
        0
    }

    /// Applies `evaluate_one` to every angle of `xs`, in order.
    pub fn evaluate_many(&self, xs: &Vec<i64>) -> (r: Vec<i64>)
        requires
            self.wf(),
        ensures
            r@.len() == xs@.len(),
            forall|k: int|
                0 <= k < xs@.len() ==> r@[k] == sample_seq(self.entries@, #[trigger] xs@[k] as int),
    {
        let mut r: Vec<i64> = Vec::new();
        let n = xs.len();
        let mut i: usize = 0;
        while i < n
            invariant
                self.wf(),
                n == xs@.len(),
                0 <= i <= n,
                r@.len() == i,
                forall|k: int|
                    0 <= k < i ==> r@[k] == sample_seq(self.entries@, #[trigger] xs@[k] as int),
            decreases n - i,
        {
            let y = self.evaluate_one(xs[i]);
            r.push(y);
            i = i + 1;
        }
        r
    }

    /// Semantically identical to `evaluate_many`; the lookups are fanned out
    /// over worker threads against the immutable map.
    pub fn evaluate_many_parallel(&self, xs: &Vec<i64>) -> (r: Vec<i64>)
        requires
            self.wf(),
        ensures
            r@.len() == xs@.len(),
            forall|k: int|
                0 <= k < xs@.len() ==> r@[k] == sample_seq(self.entries@, #[trigger] xs@[k] as int),
    {
        par_sample(self, xs)
    }

    /// The whole skyline as an ordered list of records: each sub-interval's
    /// angular range with the elevations in effect at its two boundaries.
    pub fn export(&self) -> (r: Vec<SkyRecord>)
        requires
            self.wf(),
        ensures
            r@.len() == self.entries@.len(),
            forall|k: int|
                0 <= k < r@.len() ==> {
                    let e = #[trigger] self.entries@[k];
                    r@[k] == (SkyRecord {
                        a_start: e.lo,
                        a_end: e.hi,
                        y_start: interp(e.c, e.lo as int) as i64,
                        y_end: interp(e.c, e.hi as int) as i64,
                    })
                },
    {
        let mut r: Vec<SkyRecord> = Vec::new();
        let n = self.entries.len();
        let mut i: usize = 0;
        while i < n
            invariant
                self.wf(),
                n == self.entries@.len(),
                0 <= i <= n,
                r@.len() == i,
                forall|k: int|
                    0 <= k < i ==> {
                        let e = #[trigger] self.entries@[k];
                        r@[k] == (SkyRecord {
                            a_start: e.lo,
                            a_end: e.hi,
                            y_start: interp(e.c, e.lo as int) as i64,
                            y_end: interp(e.c, e.hi as int) as i64,
                        })
                    },
            decreases n - i,
        {
            let e = self.entries[i];
            let y_start = interp_exec(&e.c, e.lo);
            let y_end = interp_exec(&e.c, e.hi);
            r.push(SkyRecord { a_start: e.lo, a_end: e.hi, y_start, y_end });
            i = i + 1;
        }
        r
    }
}

/// Sequential and parallel evaluation of the same angle sequence against the
/// same skyline return identical output sequences, element for element.
pub proof fn lemma_parallel_matches_sequential(
    m: Skymask,
    xs: Seq<i64>,
    seq_out: Seq<i64>,
    par_out: Seq<i64>,
)
    requires
        seq_out.len() == xs.len(),
        par_out.len() == xs.len(),
        forall|k: int| 0 <= k < xs.len() ==> seq_out[k] == sample_seq(m.entries@, #[trigger] xs[k] as int),
        forall|k: int| 0 <= k < xs.len() ==> par_out[k] == sample_seq(m.entries@, #[trigger] xs[k] as int),
    ensures
        seq_out =~= par_out,
{
    assert forall|k: int| 0 <= k < xs.len() implies seq_out[k] == par_out[k] by {
        assert(seq_out[k] == sample_seq(m.entries@, xs[k] as int));
        assert(par_out[k] == sample_seq(m.entries@, xs[k] as int));
    }
}

/// Relies on rayon's `par_iter`/`map`/`collect` over a vector: an indexed
/// parallel map collects its results in input order, each element mapped by
/// the verified `evaluate_one` against the shared read-only mask.
#[verifier::external_body]
fn par_sample(mask: &Skymask, xs: &Vec<i64>) -> (r: Vec<i64>)
    requires
        mask.wf(),
    ensures
        r@.len() == xs@.len(),
        forall|k: int|
            0 <= k < xs@.len() ==> r@[k] == sample_seq(mask.entries@, #[trigger] xs@[k] as int),
{
    xs.par_iter().map(|x: &i64| mask.evaluate_one(*x)).collect()
}

} // verus!
