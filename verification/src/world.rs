//! The world: the immutable segment store with the query parameters, and the
//! per-query skymask pipeline of pruning, projection, merge and sampling.

use vstd::prelude::*;
use crate::geom::{Cand, covers, interp, project, project_spec};
use crate::skymask::{Entry, Skymask, SkyRecord, wf_mask_seq, mask_covers, sample_seq, lemma_sample_zero};
use crate::envelope::{merge, all_wf, cand_covered};
use crate::{ANG_SCALE, COORD_BOUND};

verus! {

/// One obstruction segment: two planar endpoints with their absolute top
/// elevations over the shared ground datum.
#[derive(Clone, Copy, PartialEq, Eq, Structural, Debug)]
pub struct Seg {
    pub x1: i64,
    pub y1: i64,
    pub h1: i64,
    pub x2: i64,
    pub y2: i64,
    pub h2: i64,
}

/// Well-formedness of a segment: every coordinate within the bound.
pub open spec fn wf_seg(s: Seg) -> bool {
    &&& -COORD_BOUND <= s.x1 <= COORD_BOUND
    &&& -COORD_BOUND <= s.y1 <= COORD_BOUND
    &&& -COORD_BOUND <= s.h1 <= COORD_BOUND
    &&& -COORD_BOUND <= s.x2 <= COORD_BOUND
    &&& -COORD_BOUND <= s.y2 <= COORD_BOUND
    &&& -COORD_BOUND <= s.h2 <= COORD_BOUND
}

/// Whether the representative planar point of `s` (the midpoint of its
/// endpoints) lies within distance `r` of the observer, compared exactly on
/// the doubled lattice.
pub open spec fn rep_within(s: Seg, px: int, py: int, r: int) -> bool {
    let mx = s.x1 + s.x2 - 2 * px;
    let my = s.y1 + s.y2 - 2 * py;
    mx * mx + my * my <= 4 * r * r
}

/// The projection of `s` into observer-relative angular space.
pub open spec fn seg_cand(s: Seg, px: int, py: int) -> Option<Cand> {
    project_spec(s.x1 - px, s.y1 - py, s.h1 as int, s.x2 - px, s.y2 - py, s.h2 as int)
}

/// The candidate `s` contributes to a query at `(px, py)` with search radius
/// `maxd`: its projection if its representative point is within the radius,
/// else nothing.
pub open spec fn visible_cand(s: Seg, px: int, py: int, maxd: int) -> Option<Cand> {
    if rep_within(s, px, py, maxd) {
        seg_cand(s, px, py)
    } else {
        None
    }
}

/// Whether the contribution of `s` to the query covers the angle `x`.
pub open spec fn vis_covers(s: Seg, px: int, py: int, maxd: int, x: int) -> bool {
    match visible_cand(s, px, py, maxd) {
        Some(c) => covers(c, x),
        None => false,
    }
}

/// The world: the segment store, read-only after construction, and the two
/// adjustable query parameters.
pub struct World {
    pub segs: Vec<Seg>,
    pub max_dist: i64,
    pub eps: i64,
}

impl World {
    /// The invariant of a world: well-formed segments and parameters in
    /// range.
    pub open spec fn wf(self) -> bool {
        &&& forall|i: int| 0 <= i < self.segs@.len() ==> wf_seg(#[trigger] self.segs@[i])
        &&& 0 <= self.max_dist <= COORD_BOUND
        &&& 0 <= self.eps <= 4 * ANG_SCALE
    }

    /// Member `k` of `cs` is the contribution of some segment of the query.
    pub open spec fn cand_from_seg(self, px: int, py: int, cs: Seq<Cand>, k: int) -> bool {
        exists|i: int|
            0 <= i < self.segs@.len() && visible_cand(
                #[trigger] self.segs@[i],
                px,
                py,
                self.max_dist as int,
            ) == Some(cs[k])
    }

    /// The contribution of segment `i` appears among `cs`.
    pub open spec fn seg_in_cands(self, px: int, py: int, cs: Seq<Cand>, i: int) -> bool {
        exists|k: int|
            0 <= k < cs.len() && Some(#[trigger] cs[k]) == visible_cand(
                self.segs@[i],
                px,
                py,
                self.max_dist as int,
            )
    }

    /// Whether `cs` is exactly the candidate set of a query at `(px, py)`:
    /// every member is the contribution of some segment, and every
    /// contributing segment is represented.
    pub open spec fn is_query_cands(self, px: int, py: int, cs: Seq<Cand>) -> bool {
        &&& forall|k: int| 0 <= k < cs.len() ==> #[trigger] self.cand_from_seg(px, py, cs, k)
        &&& forall|i: int|
            0 <= i < self.segs@.len() && (#[trigger] visible_cand(
                self.segs@[i],
                px,
                py,
                self.max_dist as int,
            )) is Some ==> self.seg_in_cands(px, py, cs, i)
    }

    /// Whether `es` is the skyline of the query's candidate set `cs`: an
    /// ordered, non-overlapping map that covers what the candidates cover
    /// (exactly so when `eps` is zero) and records the upper envelope of
    /// their profiles at every candidate-covered angle.
    pub open spec fn query_skyline(self, px: int, py: int, cs: Seq<Cand>, es: Seq<Entry>) -> bool {
        &&& self.is_query_cands(px, py, cs)
        &&& all_wf(cs)
        &&& wf_mask_seq(es)
        &&& forall|x: int, i: int|
            0 <= i < cs.len() && #[trigger] covers(cs[i], x) ==> mask_covers(es, x)
        &&& forall|x: int, i: int|
            0 <= i < cs.len() && #[trigger] covers(cs[i], x) ==> sample_seq(es, x) >= interp(
                cs[i],
                x,
            )
        &&& forall|x: int|
            #[trigger] cand_covered(cs, x) ==> exists|i: int|
                0 <= i < cs.len() && covers(#[trigger] cs[i], x) && sample_seq(es, x) == interp(
                    cs[i],
                    x,
                )
        &&& self.eps == 0 ==> forall|x: int|
            #[trigger] mask_covers(es, x) ==> cand_covered(cs, x)
    }

    /// Whether `es` is a skyline of the query at `(px, py)`, for some
    /// candidate set of that query.
    pub open spec fn skyline_for(self, px: int, py: int, es: Seq<Entry>) -> bool {
        exists|cs: Seq<Cand>| #[trigger] self.query_skyline(px, py, cs, es)
    }

    /// Builds a world over a segment store.
    pub fn new(segs: Vec<Seg>, max_dist: i64, eps: i64) -> (r: World)
        requires
            forall|i: int| 0 <= i < segs@.len() ==> wf_seg(#[trigger] segs@[i]),
            0 <= max_dist <= COORD_BOUND,
            0 <= eps <= 4 * ANG_SCALE,
        ensures
            r.wf(),
            r.segs@ == segs@,
            r.max_dist == max_dist,
            r.eps == eps,
    {
        World { segs, max_dist, eps }
    }

    /// The current search radius.
    pub fn get_max_dist(&self) -> (r: i64)
        ensures
            r == self.max_dist,
    {
        self.max_dist
    }

    /// Adjusts the search radius between queries.
    pub fn set_max_dist(&mut self, v: i64)
        requires
            old(self).wf(),
            0 <= v <= COORD_BOUND,
        ensures
            final(self).wf(),
            final(self).max_dist == v,
            final(self).segs@ == old(self).segs@,
            final(self).eps == old(self).eps,
    {
        self.max_dist = v;
    }

    /// The current merge tolerance.
    pub fn get_eps(&self) -> (r: i64)
        ensures
            r == self.eps,
    {
        self.eps
    }

    /// Adjusts the merge tolerance between queries.
    pub fn set_eps(&mut self, v: i64)
        requires
            old(self).wf(),
            0 <= v <= 4 * ANG_SCALE,
        ensures
            final(self).wf(),
            final(self).eps == v,
            final(self).segs@ == old(self).segs@,
            final(self).max_dist == old(self).max_dist,
    {
        self.eps = v;
    }

    /// Prunes the segments near the observer and projects the survivors.
    fn candidates(&self, px: i64, py: i64) -> (r: Vec<Cand>)
        requires
            self.wf(),
            -COORD_BOUND <= px <= COORD_BOUND,
            -COORD_BOUND <= py <= COORD_BOUND,
        ensures
            all_wf(r@),
            self.is_query_cands(px as int, py as int, r@),
    {
        let n = self.segs.len();
        let mut r: Vec<Cand> = Vec::new();
        let mut i: usize = 0;
        while i < n
            invariant
                self.wf(),
                -COORD_BOUND <= px <= COORD_BOUND,
                -COORD_BOUND <= py <= COORD_BOUND,
                n == self.segs@.len(),
                0 <= i <= n,
                all_wf(r@),
                forall|k: int|
                    0 <= k < r@.len() ==> #[trigger] self.cand_from_seg(px as int, py as int, r@, k),
                forall|j: int|
                    0 <= j < i && (#[trigger] visible_cand(
                        self.segs@[j],
                        px as int,
                        py as int,
                        self.max_dist as int,
                    )) is Some ==> self.seg_in_cands(px as int, py as int, r@, j),
            decreases n - i,
        {
            let s = self.segs[i];
            let mx = s.x1 + s.x2 - 2 * px;
            let my = s.y1 + s.y2 - 2 * py;
            proof {
                assert(0 <= mx * mx <= 16_000_000_000_000 && 0 <= my * my
                    <= 16_000_000_000_000 && 0 <= 4 * (self.max_dist as int) * (
                self.max_dist as int) <= 4_000_000_000_000) by (nonlinear_arith)
                    requires
                        -4_000_000 <= mx <= 4_000_000,
                        -4_000_000 <= my <= 4_000_000,
                        0 <= self.max_dist <= 1_000_000,
                ;
            }
            if mx * mx + my * my <= 4 * self.max_dist * self.max_dist {
                let ghost pre = r@;
                match project(s.x1 - px, s.y1 - py, s.h1, s.x2 - px, s.y2 - py, s.h2) {
                    Some(c) => {
                        r.push(c);
                        proof {
                            let gi = i as int;
                            let vc = visible_cand(
                                self.segs@[gi],
                                px as int,
                                py as int,
                                self.max_dist as int,
                            );
                            assert(rep_within(
                                self.segs@[gi],
                                px as int,
                                py as int,
                                self.max_dist as int,
                            ));
                            assert(vc == Some(c));
                            assert(r@ =~= pre.push(c));
                            assert forall|k: int| 0 <= k < r@.len() implies #[trigger] self.cand_from_seg(px as int, py as int, r@, k) by {
                                if k < pre.len() {
                                    assert(self.cand_from_seg(px as int, py as int, pre, k));
                                    let j0 = choose|j: int|
                                        0 <= j < self.segs@.len() && visible_cand(
                                            #[trigger] self.segs@[j],
                                            px as int,
                                            py as int,
                                            self.max_dist as int,
                                        ) == Some(pre[k]);
                                    assert(r@[k] == pre[k]);
                                    assert(visible_cand(
                                        self.segs@[j0],
                                        px as int,
                                        py as int,
                                        self.max_dist as int,
                                    ) == Some(r@[k]));
                                } else {
                                    assert(r@[k] == c);
                                    assert(visible_cand(
                                        self.segs@[gi],
                                        px as int,
                                        py as int,
                                        self.max_dist as int,
                                    ) == Some(r@[k]));
                                }
                            }
                            assert forall|j: int|
                                0 <= j < i + 1 && (#[trigger] visible_cand(
                                    self.segs@[j],
                                    px as int,
                                    py as int,
                                    self.max_dist as int,
                                )) is Some implies self.seg_in_cands(px as int, py as int, r@, j) by {
                                if j < i {
                                    assert(self.seg_in_cands(px as int, py as int, pre, j));
                                    let k0 = choose|k: int|
                                        0 <= k < pre.len() && Some(#[trigger] pre[k])
                                            == visible_cand(
                                            self.segs@[j],
                                            px as int,
                                            py as int,
                                            self.max_dist as int,
                                        );
                                    assert(r@[k0] == pre[k0]);
                                    assert(Some(r@[k0]) == visible_cand(
                                        self.segs@[j],
                                        px as int,
                                        py as int,
                                        self.max_dist as int,
                                    ));
                                } else {
                                    assert(Some(r@[r@.len() - 1]) == visible_cand(
                                        self.segs@[j],
                                        px as int,
                                        py as int,
                                        self.max_dist as int,
                                    ));
                                }
                            }
                        }
                    },
                    None => {
                        proof {
                            assert(visible_cand(
                                self.segs@[i as int],
                                px as int,
                                py as int,
                                self.max_dist as int,
                            ) is None);
                        }
                    },
                }
            } else {
                proof {
                    assert(!rep_within(
                        self.segs@[i as int],
                        px as int,
                        py as int,
                        self.max_dist as int,
                    ));
                }
            }
            i = i + 1;
        }
        proof {
            assert(self.is_query_cands(px as int, py as int, r@));
        }
        r
    }

    /// Computes the skyline of the query at `(px, py)`: prunes, projects and
    /// merges, fresh for every call.
    pub fn calc_skymask(&self, px: i64, py: i64) -> (r: Skymask)
        requires
            self.wf(),
            -COORD_BOUND <= px <= COORD_BOUND,
            -COORD_BOUND <= py <= COORD_BOUND,
        ensures
            r.wf(),
            self.skyline_for(px as int, py as int, r.entries@),
    {
        let cands = self.candidates(px, py);
        let r = merge(&cands, self.eps);
        proof {
            assert(self.query_skyline(px as int, py as int, cands@, r.entries@));
        }
        r
    }

    /// The full skyline of the query as an ordered list of records.
    pub fn skymask(&self, px: i64, py: i64) -> (r: Vec<SkyRecord>)
        requires
            self.wf(),
            -COORD_BOUND <= px <= COORD_BOUND,
            -COORD_BOUND <= py <= COORD_BOUND,
        ensures
            exists|es: Seq<Entry>|
                {
                    &&& #[trigger] self.skyline_for(px as int, py as int, es)
                    &&& r@.len() == es.len()
                    &&& forall|k: int|
                        0 <= k < es.len() ==> (#[trigger] r@[k]) == (SkyRecord {
                            a_start: es[k].lo,
                            a_end: es[k].hi,
                            y_start: interp(es[k].c, es[k].lo as int) as i64,
                            y_end: interp(es[k].c, es[k].hi as int) as i64,
                        })
                },
    {
        let m = self.calc_skymask(px, py);
        let r = m.export();
        proof {
            assert(self.skyline_for(px as int, py as int, m.entries@));
        }
        r
    }

    /// Samples the skyline of the query at each angle of `xs`, in order.
    pub fn skymask_samples(&self, px: i64, py: i64, xs: &Vec<i64>) -> (r: Vec<i64>)
        requires
            self.wf(),
            -COORD_BOUND <= px <= COORD_BOUND,
            -COORD_BOUND <= py <= COORD_BOUND,
        ensures
            r@.len() == xs@.len(),
            exists|es: Seq<Entry>|
                {
                    &&& #[trigger] self.skyline_for(px as int, py as int, es)
                    &&& forall|k: int|
                        0 <= k < xs@.len() ==> r@[k] == sample_seq(es, #[trigger] xs@[k] as int)
                },
    {
        let m = self.calc_skymask(px, py);
        let r = m.evaluate_many(xs);
        proof {
            assert(self.skyline_for(px as int, py as int, m.entries@));
        }
        r
    }

    /// As `skymask_samples`, with the lookups fanned out over worker
    /// threads; the output order and values are identical.
    pub fn skymask_par_samples(&self, px: i64, py: i64, xs: &Vec<i64>) -> (r: Vec<i64>)
        requires
            self.wf(),
            -COORD_BOUND <= px <= COORD_BOUND,
            -COORD_BOUND <= py <= COORD_BOUND,
        ensures
            r@.len() == xs@.len(),
            exists|es: Seq<Entry>|
                {
                    &&& #[trigger] self.skyline_for(px as int, py as int, es)
                    &&& forall|k: int|
                        0 <= k < xs@.len() ==> r@[k] == sample_seq(es, #[trigger] xs@[k] as int)
                },
    {
        let m = self.calc_skymask(px, py);
        let r = m.evaluate_many_parallel(xs);
        proof {
            assert(self.skyline_for(px as int, py as int, m.entries@));
        }
        r
    }
}

/// Radius monotonicity: holding the observer and the segments fixed,
/// enlarging the search radius never removes a covered region of an
/// exact-tolerance skyline; every angle the smaller query covers, the larger
/// query covers too.
pub proof fn lemma_radius_monotonic(
    w1: World,
    w2: World,
    px: int,
    py: int,
    es1: Seq<Entry>,
    es2: Seq<Entry>,
    x: int,
)
    requires
        w1.segs@ == w2.segs@,
        w1.eps == 0,
        0 <= w1.max_dist <= w2.max_dist,
        w1.skyline_for(px, py, es1),
        w2.skyline_for(px, py, es2),
        mask_covers(es1, x),
    ensures
        mask_covers(es2, x),
{
    let cs1 = choose|cs: Seq<Cand>| #[trigger] w1.query_skyline(px, py, cs, es1);
    let cs2 = choose|cs: Seq<Cand>| #[trigger] w2.query_skyline(px, py, cs, es2);
    assert(cand_covered(cs1, x));
    let k = choose|k: int| 0 <= k < cs1.len() && covers(#[trigger] cs1[k], x);
    assert(w1.cand_from_seg(px, py, cs1, k));
    let i = choose|i: int|
        0 <= i < w1.segs@.len() && visible_cand(
            #[trigger] w1.segs@[i],
            px,
            py,
            w1.max_dist as int,
        ) == Some(cs1[k]);
    let sg = w1.segs@[i];
    assert(rep_within(sg, px, py, w1.max_dist as int));
    let mx = sg.x1 + sg.x2 - 2 * px;
    let my = sg.y1 + sg.y2 - 2 * py;
    assert(mx * mx + my * my <= 4 * (w2.max_dist as int) * (w2.max_dist as int))
        by (nonlinear_arith)
        requires
            mx * mx + my * my <= 4 * (w1.max_dist as int) * (w1.max_dist as int),
            0 <= w1.max_dist as int <= w2.max_dist as int,
    ;
    assert(rep_within(sg, px, py, w2.max_dist as int));
    assert(visible_cand(w2.segs@[i], px, py, w2.max_dist as int) == Some(cs1[k]));
    assert(w2.seg_in_cands(px, py, cs2, i));
    let k2 = choose|k2: int|
        0 <= k2 < cs2.len() && Some(#[trigger] cs2[k2]) == visible_cand(
            w2.segs@[i],
            px,
            py,
            w2.max_dist as int,
        );
    assert(cs2[k2] == cs1[k]);
    assert(covers(cs2[k2], x));
}

/// Determinism under reordering: two skylines of the same query, against
/// segment stores holding the same segments in any order and with `eps`
/// zero, cover the same angles and sample to identical elevations
/// everywhere.
pub proof fn lemma_skyline_deterministic(
    w1: World,
    w2: World,
    px: int,
    py: int,
    es1: Seq<Entry>,
    es2: Seq<Entry>,
    x: int,
)
    requires
        forall|g: Seg| w1.segs@.contains(g) <==> w2.segs@.contains(g),
        w1.max_dist == w2.max_dist,
        w1.eps == 0,
        w2.eps == 0,
        w1.skyline_for(px, py, es1),
        w2.skyline_for(px, py, es2),
    ensures
        mask_covers(es1, x) == mask_covers(es2, x),
        sample_seq(es1, x) == sample_seq(es2, x),
{
    if mask_covers(es1, x) {
        lemma_skyline_le(w1, w2, px, py, es1, es2, x);
    }
    if mask_covers(es2, x) {
        lemma_skyline_le(w2, w1, px, py, es2, es1, x);
    }
    if !mask_covers(es1, x) && !mask_covers(es2, x) {
        lemma_sample_zero(es1, x);
        lemma_sample_zero(es2, x);
    }
}

/// One direction of determinism: an angle covered by the first skyline is
/// covered by the second, whose sample there is at least the first's.
proof fn lemma_skyline_le(
    w1: World,
    w2: World,
    px: int,
    py: int,
    es1: Seq<Entry>,
    es2: Seq<Entry>,
    x: int,
)
    requires
        forall|g: Seg| w1.segs@.contains(g) <==> w2.segs@.contains(g),
        w1.max_dist == w2.max_dist,
        w1.eps == 0,
        w1.skyline_for(px, py, es1),
        w2.skyline_for(px, py, es2),
        mask_covers(es1, x),
    ensures
        mask_covers(es2, x),
        sample_seq(es2, x) >= sample_seq(es1, x),
{
    let cs1 = choose|cs: Seq<Cand>| #[trigger] w1.query_skyline(px, py, cs, es1);
    let cs2 = choose|cs: Seq<Cand>| #[trigger] w2.query_skyline(px, py, cs, es2);
    assert(cand_covered(cs1, x));
    let k = choose|k: int|
        0 <= k < cs1.len() && covers(#[trigger] cs1[k], x) && sample_seq(es1, x) == interp(
            cs1[k],
            x,
        );
    assert(w1.cand_from_seg(px, py, cs1, k));
    let i = choose|i: int|
        0 <= i < w1.segs@.len() && visible_cand(
            #[trigger] w1.segs@[i],
            px,
            py,
            w1.max_dist as int,
        ) == Some(cs1[k]);
    let sg = w1.segs@[i];
    assert(w1.segs@.contains(sg));
    assert(w2.segs@.contains(sg));
    let i2 = choose|i2: int| 0 <= i2 < w2.segs@.len() && w2.segs@[i2] == sg;
    assert(visible_cand(w2.segs@[i2], px, py, w2.max_dist as int) == Some(cs1[k]));
    assert(w2.seg_in_cands(px, py, cs2, i2));
    let k2 = choose|k2: int|
        0 <= k2 < cs2.len() && Some(#[trigger] cs2[k2]) == visible_cand(
            w2.segs@[i2],
            px,
            py,
            w2.max_dist as int,
        );
    assert(cs2[k2] == cs1[k]);
    assert(covers(cs2[k2], x));
    assert(sample_seq(es2, x) >= interp(cs2[k2], x));
}

/// Zero-default: with exact tolerance, sampling an angle that no covering
/// contribution reaches returns exactly zero.
pub proof fn lemma_zero_default(w: World, px: int, py: int, es: Seq<Entry>, x: int)
    requires
        w.eps == 0,
        w.skyline_for(px, py, es),
        forall|i: int|
            0 <= i < w.segs@.len() ==> !vis_covers(
                #[trigger] w.segs@[i],
                px,
                py,
                w.max_dist as int,
                x,
            ),
    ensures
        !mask_covers(es, x),
        sample_seq(es, x) == 0,
{
    let cs = choose|cs: Seq<Cand>| #[trigger] w.query_skyline(px, py, cs, es);
    if mask_covers(es, x) {
        assert(cand_covered(cs, x));
        let k = choose|k: int| 0 <= k < cs.len() && covers(#[trigger] cs[k], x);
        assert(w.cand_from_seg(px, py, cs, k));
        let i = choose|i: int|
            0 <= i < w.segs@.len() && visible_cand(
                #[trigger] w.segs@[i],
                px,
                py,
                w.max_dist as int,
            ) == Some(cs[k]);
        assert(vis_covers(w.segs@[i], px, py, w.max_dist as int, x));
    }
    lemma_sample_zero(es, x);
}

/// Coverage monotonicity: at an angle reached by at least one covering
/// contribution, the skyline covers the angle and samples to the maximum of
/// the covering profiles — at least every one of them, and equal to one.
pub proof fn lemma_upper_envelope(w: World, px: int, py: int, es: Seq<Entry>, x: int)
    requires
        w.skyline_for(px, py, es),
        exists|i: int|
            0 <= i < w.segs@.len() && #[trigger] vis_covers(
                w.segs@[i],
                px,
                py,
                w.max_dist as int,
                x,
            ),
    ensures
        mask_covers(es, x),
        forall|i: int, c: Cand|
            #![trigger visible_cand(w.segs@[i], px, py, w.max_dist as int), covers(c, x)]
            0 <= i < w.segs@.len() && visible_cand(w.segs@[i], px, py, w.max_dist as int) == Some(
                c,
            ) && covers(c, x) ==> sample_seq(es, x) >= interp(c, x),
        exists|i: int, c: Cand|
            #![trigger visible_cand(w.segs@[i], px, py, w.max_dist as int), covers(c, x)]
            0 <= i < w.segs@.len() && visible_cand(w.segs@[i], px, py, w.max_dist as int) == Some(
                c,
            ) && covers(c, x) && sample_seq(es, x) == interp(c, x),
{
    let cs = choose|cs: Seq<Cand>| #[trigger] w.query_skyline(px, py, cs, es);
    let i0 = choose|i: int|
        0 <= i < w.segs@.len() && #[trigger] vis_covers(w.segs@[i], px, py, w.max_dist as int, x);
    let c0 = visible_cand(w.segs@[i0], px, py, w.max_dist as int)->Some_0;
    assert(w.seg_in_cands(px, py, cs, i0));
    let k0 = choose|k: int|
        0 <= k < cs.len() && Some(#[trigger] cs[k]) == visible_cand(
            w.segs@[i0],
            px,
            py,
            w.max_dist as int,
        );
    assert(cs[k0] == c0);
    assert(covers(cs[k0], x));
    assert(mask_covers(es, x));
    assert forall|i: int, c: Cand|
        #![trigger visible_cand(w.segs@[i], px, py, w.max_dist as int), covers(c, x)]
        0 <= i < w.segs@.len() && visible_cand(w.segs@[i], px, py, w.max_dist as int) == Some(c)
            && covers(c, x) implies sample_seq(es, x) >= interp(c, x) by {
        assert(w.seg_in_cands(px, py, cs, i));
        let k = choose|k: int|
            0 <= k < cs.len() && Some(#[trigger] cs[k]) == visible_cand(
                w.segs@[i],
                px,
                py,
                w.max_dist as int,
            );
        assert(cs[k] == c);
        assert(covers(cs[k], x));
        assert(sample_seq(es, x) >= interp(cs[k], x));
    }
    assert(cand_covered(cs, x));
    let kw = choose|k: int|
        0 <= k < cs.len() && covers(#[trigger] cs[k], x) && sample_seq(es, x) == interp(cs[k], x);
    assert(w.cand_from_seg(px, py, cs, kw));
    let iw = choose|i: int|
        0 <= i < w.segs@.len() && visible_cand(
            #[trigger] w.segs@[i],
            px,
            py,
            w.max_dist as int,
        ) == Some(cs[kw]);
    assert(0 <= iw < w.segs@.len() && visible_cand(w.segs@[iw], px, py, w.max_dist as int)
        == Some(cs[kw]) && covers(cs[kw], x) && sample_seq(es, x) == interp(cs[kw], x));
}

} // verus!
