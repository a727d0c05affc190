//! The skyline merger: folds any number of projected segments into one
//! ordered, non-overlapping interval map recording, at every covered angle,
//! the upper envelope of the candidates' elevation profiles.
//!
//! The merge sweeps the cells between consecutive candidate boundaries.  In a
//! cell every candidate either covers all of it or none of it; a cell is split
//! recursively until one candidate is greatest at both cell ends, and that
//! candidate then dominates the whole piece, since the difference of two
//! linear profiles is linear.

use vstd::prelude::*;
use crate::geom::{Cand, wf_cand, covers, den, num_at, interp, ge_at, ge_at_exec, lemma_dominance, lemma_ge_at_interp};
use crate::skymask::{Entry, Skymask, wf_entry, wf_mask_seq, entry_covers, mask_covers, sample_seq, lemma_sample_at};
use crate::{ANG_MIN, ANG_MAX, ANG_SCALE};

verus! {

/// Every candidate of the sequence is well formed.
pub open spec fn all_wf(cands: Seq<Cand>) -> bool {
    forall|i: int| 0 <= i < cands.len() ==> wf_cand(#[trigger] cands[i])
}

/// Whether candidate `c` spans the whole cell `[lo, hi)`.
pub open spec fn covers_cell(c: Cand, lo: int, hi: int) -> bool {
    c.a0 <= lo && hi <= c.a1
}

/// Whether some candidate of the sequence covers the angle `x`.
pub open spec fn cand_covered(cands: Seq<Cand>, x: int) -> bool {
    exists|i: int| 0 <= i < cands.len() && covers(#[trigger] cands[i], x)
}

/// The profile of `e` is, at every angle of its range, at least the profile
/// of every candidate covering that angle.
pub open spec fn entry_dominates(e: Entry, cands: Seq<Cand>) -> bool {
    forall|x: int, i: int|
        e.lo <= x < e.hi && 0 <= i < cands.len() && #[trigger] covers(cands[i], x) ==> ge_at(
            e.c,
            cands[i],
            x,
        )
}

/// The value of `e` is one of the candidates.
pub open spec fn entry_from(e: Entry, cands: Seq<Cand>) -> bool {
    exists|i: int| 0 <= i < cands.len() && #[trigger] cands[i] == e.c
}

/// A strictly ascending sequence of angles.
pub open spec fn strictly_sorted(s: Seq<i64>) -> bool {
    forall|i: int, j: int| 0 <= i < j < s.len() ==> s[i] < s[j]
}

/// All members of the sequence lie in the angular domain.
pub open spec fn in_domain(s: Seq<i64>) -> bool {
    forall|k: int| 0 <= k < s.len() ==> ANG_MIN <= #[trigger] s[k] <= ANG_MAX
}

/// Inserts `x` into the strictly sorted `v`, keeping it strictly sorted; a
/// value already present is left alone.
fn insert_unique(v: &mut Vec<i64>, x: i64)
    requires
        strictly_sorted(old(v)@),
        in_domain(old(v)@),
        ANG_MIN <= x <= ANG_MAX,
    ensures
        strictly_sorted(final(v)@),
        in_domain(final(v)@),
        forall|a: i64| final(v)@.contains(a) <==> (old(v)@.contains(a) || a == x),
{
    let n = v.len();
    let mut p: usize = 0;
    while p < n && v[p] < x
        invariant
            strictly_sorted(v@),
            n == v@.len(),
            0 <= p <= n,
            forall|j: int| 0 <= j < p ==> v@[j] < x,
            v@ == old(v)@,
        decreases n - p,
    {
        p = p + 1;
    }
    if p < n && v[p] == x {
        proof {
            assert(v@.contains(x));
        }
        return ;
    }
    let ghost pre = v@;
    v.insert(p, x);
    proof {
        let s = v@;
        assert(s == pre.insert(p as int, x));
        assert forall|i: int, j: int| 0 <= i < j < s.len() implies s[i] < s[j] by {
            if j < p {
                assert(s[i] == pre[i] && s[j] == pre[j]);
            } else if i > p {
                assert(s[i] == pre[i - 1] && s[j] == pre[j - 1]);
            } else if i < p && j == p {
                assert(s[i] == pre[i] && s[j] == x);
            } else if i == p {
                assert(s[i] == x && s[j] == pre[j - 1]);
                assert(pre[j - 1] >= pre[p as int]);
                assert(pre[p as int] != x);
            } else {
                assert(i < p && j > p);
                assert(s[i] == pre[i] && s[j] == pre[j - 1]);
                assert(pre[j - 1] >= pre[p as int]);
            }
        }
        assert forall|a: i64| s.contains(a) implies (pre.contains(a) || a == x) by {
            let k = choose|k: int| 0 <= k < s.len() && s[k] == a;
            if k < p {
                assert(pre[k] == a);
            } else if k > p {
                assert(pre[k - 1] == a);
            }
        }
        assert forall|a: i64| pre.contains(a) || a == x implies s.contains(a) by {
            if a == x {
                assert(s[p as int] == x);
            } else if pre.contains(a) {
                let k = choose|k: int| 0 <= k < pre.len() && pre[k] == a;
                if k < p {
                    assert(s[k] == a);
                } else {
                    assert(s[k + 1] == a);
                }
            }
        }
        assert forall|k: int| 0 <= k < s.len() implies ANG_MIN <= #[trigger] s[k] <= ANG_MAX by {
            if k < p {
                assert(s[k] == pre[k]);
            } else if k > p {
                assert(s[k] == pre[k - 1]);
            }
        }
    }
}

/// Collects the sorted set of the candidates' angular boundaries.
fn collect_breakpoints(cands: &Vec<Cand>) -> (bp: Vec<i64>)
    requires
        all_wf(cands@),
    ensures
        strictly_sorted(bp@),
        in_domain(bp@),
        forall|i: int|
            0 <= i < cands@.len() ==> bp@.contains(#[trigger] cands@[i].a0) && bp@.contains(
                cands@[i].a1,
            ),
{
    let mut bp: Vec<i64> = Vec::new();
    let n = cands.len();
    let mut i: usize = 0;
    while i < n
        invariant
            all_wf(cands@),
            n == cands@.len(),
            0 <= i <= n,
            strictly_sorted(bp@),
            in_domain(bp@),
            forall|k: int|
                0 <= k < i ==> bp@.contains(#[trigger] cands@[k].a0) && bp@.contains(cands@[k].a1),
        decreases n - i,
    {
        let c = cands[i];
        insert_unique(&mut bp, c.a0);
        insert_unique(&mut bp, c.a1);
        i = i + 1;
    }
    bp
}

/// The rational profile comparison at a fixed angle is transitive.
pub proof fn lemma_ge_at_trans(a: Cand, b: Cand, c: Cand, x: int)
    requires
        wf_cand(a),
        wf_cand(b),
        wf_cand(c),
        ge_at(a, b, x),
        ge_at(b, c, x),
    ensures
        ge_at(a, c, x),
{
    let na = num_at(a, x);
    let nb = num_at(b, x);
    let nc = num_at(c, x);
    let da = den(a);
    let db = den(b);
    let dc = den(c);
    assert(na * dc >= nc * da) by (nonlinear_arith)
        requires
            na * db >= nb * da,
            nb * dc >= nc * db,
            1 <= da,
            1 <= db,
            1 <= dc,
    ;
}

/// The candidate covering the cell `[lo, hi)` whose exact profile at angle
/// `x` is greatest.
fn best_at(cands: &Vec<Cand>, lo: i64, hi: i64, x: i64) -> (w: Cand)
    requires
        all_wf(cands@),
        ANG_MIN <= lo < hi <= ANG_MAX,
        ANG_MIN <= x <= ANG_MAX,
        exists|i: int|
            0 <= i < cands@.len() && covers_cell(#[trigger] cands@[i], lo as int, hi as int),
    ensures
        wf_cand(w),
        exists|i: int| 0 <= i < cands@.len() && #[trigger] cands@[i] == w,
        covers_cell(w, lo as int, hi as int),
        forall|i: int|
            0 <= i < cands@.len() && covers_cell(#[trigger] cands@[i], lo as int, hi as int)
                ==> ge_at(w, cands@[i], x as int),
{
    let n = cands.len();
    let mut best: Option<Cand> = None;
    let mut i: usize = 0;
    while i < n
        invariant
            all_wf(cands@),
            n == cands@.len(),
            0 <= i <= n,
            ANG_MIN <= lo < hi <= ANG_MAX,
            ANG_MIN <= x <= ANG_MAX,
            match best {
                Some(w) => {
                    &&& wf_cand(w)
                    &&& exists|k: int| 0 <= k < cands@.len() && #[trigger] cands@[k] == w
                    &&& covers_cell(w, lo as int, hi as int)
                    &&& forall|k: int|
                        0 <= k < i && covers_cell(#[trigger] cands@[k], lo as int, hi as int)
                            ==> ge_at(w, cands@[k], x as int)
                },
                None => forall|k: int|
                    0 <= k < i ==> !covers_cell(#[trigger] cands@[k], lo as int, hi as int),
            },
        decreases n - i,
    {
        let c = cands[i];
        if c.a0 <= lo && hi <= c.a1 {
            match best {
                None => {
                    best = Some(c);
                },
                Some(w) => {
                    if ge_at_exec(&c, &w, x) {
                        proof {
                            assert forall|k: int|
                                0 <= k < i + 1 && covers_cell(
                                    #[trigger] cands@[k],
                                    lo as int,
                                    hi as int,
                                ) implies ge_at(c, cands@[k], x as int) by {
                                if k < i {
                                    lemma_ge_at_trans(c, w, cands@[k], x as int);
                                }
                            }
                        }
                        best = Some(c);
                    }
                },
            }
        }
        i = i + 1;
    }
    match best {
        Some(w) => w,
        None => unreached(),
    }
}

/// The closure property of a cell: any candidate covering any angle of
/// `[lo, hi)` covers the whole cell.
pub open spec fn cell_closed(cands: Seq<Cand>, lo: int, hi: int) -> bool {
    forall|i: int, x: int|
        0 <= i < cands.len() && lo <= x < hi && #[trigger] covers(cands[i], x) ==> covers_cell(
            cands[i],
            lo,
            hi,
        )
}

/// Appends the winning entry of one fully resolved piece `[lo, hi)`.
fn emit_leaf(cands: &Vec<Cand>, lo: i64, hi: i64, w: Cand, out: &mut Vec<Entry>)
    requires
        all_wf(cands@),
        ANG_MIN <= lo < hi <= ANG_MAX,
        cell_closed(cands@, lo as int, hi as int),
        wf_cand(w),
        covers_cell(w, lo as int, hi as int),
        exists|i: int| 0 <= i < cands@.len() && #[trigger] cands@[i] == w,
        forall|i: int|
            0 <= i < cands@.len() && covers_cell(#[trigger] cands@[i], lo as int, hi as int)
                ==> ge_at(w, cands@[i], lo as int) && ge_at(w, cands@[i], hi - 1),
        wf_mask_seq(old(out)@),
        forall|j: int| 0 <= j < old(out)@.len() ==> (#[trigger] old(out)@[j]).hi <= lo,
    ensures
        final(out)@.len() > old(out)@.len(),
        final(out)@.subrange(0, old(out)@.len() as int) == old(out)@,
        wf_mask_seq(final(out)@),
        forall|j: int|
            old(out)@.len() <= j < final(out)@.len() ==> lo <= (#[trigger] final(out)@[j]).lo
                && final(out)@[j].hi <= hi && entry_dominates(final(out)@[j], cands@)
                && entry_from(final(out)@[j], cands@),
        forall|x: int| lo <= x < hi ==> #[trigger] mask_covers(final(out)@, x),
        forall|x: int| #[trigger] mask_covers(old(out)@, x) ==> mask_covers(final(out)@, x),
{
    let e = Entry { lo, hi, c: w };
    let ghost pre = out@;
    out.push(e);
    proof {
        let s = out@;
        let n = pre.len() as int;
        assert(s =~= pre.push(e));
        assert(s.subrange(0, n) =~= pre);
        assert(wf_entry(e));
        assert forall|j: int| 0 <= j < s.len() implies wf_entry(#[trigger] s[j]) by {
            if j < n {
                assert(s[j] == pre[j]);
            }
        }
        assert forall|j: int| 0 <= j < s.len() - 1 implies (#[trigger] s[j]).hi <= s[j + 1].lo by {
            if j < n - 1 {
                assert(s[j] == pre[j] && s[j + 1] == pre[j + 1]);
            } else {
                assert(s[j] == pre[j] && s[j + 1] == e);
            }
        }
        assert forall|x: int, i: int|
            e.lo <= x < e.hi && 0 <= i < cands@.len() && #[trigger] covers(cands@[i], x)
            implies ge_at(e.c, cands@[i], x) by {
            assert(covers_cell(cands@[i], lo as int, hi as int));
            lemma_dominance(w, cands@[i], lo as int, hi - 1, x);
        }
        assert(entry_dominates(e, cands@));
        assert(entry_from(e, cands@));
        assert forall|x: int| lo <= x < hi implies #[trigger] mask_covers(s, x) by {
            assert(entry_covers(s[n], x));
        }
        assert forall|x: int| #[trigger] mask_covers(pre, x) implies mask_covers(s, x) by {
            let j = choose|j: int| 0 <= j < pre.len() && entry_covers(pre[j], x);
            assert(entry_covers(s[j], x));
        }
    }
}

/// Resolves the cell `[lo, hi)` into winning entries, splitting it until one
/// candidate is greatest at both ends of a piece.
#[verifier::rlimit(100)]
#[verifier::spinoff_prover]
fn emit_cell(cands: &Vec<Cand>, lo: i64, hi: i64, out: &mut Vec<Entry>)
    requires
        all_wf(cands@),
        ANG_MIN <= lo < hi <= ANG_MAX,
        cell_closed(cands@, lo as int, hi as int),
        exists|i: int|
            0 <= i < cands@.len() && covers_cell(#[trigger] cands@[i], lo as int, hi as int),
        wf_mask_seq(old(out)@),
        forall|j: int| 0 <= j < old(out)@.len() ==> (#[trigger] old(out)@[j]).hi <= lo,
    ensures
        final(out)@.len() > old(out)@.len(),
        final(out)@.subrange(0, old(out)@.len() as int) == old(out)@,
        wf_mask_seq(final(out)@),
        forall|j: int|
            old(out)@.len() <= j < final(out)@.len() ==> lo <= (#[trigger] final(out)@[j]).lo
                && final(out)@[j].hi <= hi && entry_dominates(final(out)@[j], cands@)
                && entry_from(final(out)@[j], cands@),
        forall|x: int| lo <= x < hi ==> #[trigger] mask_covers(final(out)@, x),
        forall|x: int| #[trigger] mask_covers(old(out)@, x) ==> mask_covers(final(out)@, x),
    decreases hi - lo,
{
    let wl = best_at(cands, lo, hi, lo);
    if hi - lo == 1 {
        emit_leaf(cands, lo, hi, wl, out);
    } else {
        let wh = best_at(cands, lo, hi, hi - 1);
        if wl == wh {
            emit_leaf(cands, lo, hi, wl, out);
        } else {
            let half = (((hi - lo) as u64) / 2) as i64;
            let mid = lo + half;
            proof {
                assert(lo < mid < hi);
                assert forall|i: int, x: int|
                    0 <= i < cands@.len() && lo <= x < mid && #[trigger] covers(cands@[i], x)
                    implies covers_cell(cands@[i], lo as int, mid as int) by {
                    assert(covers_cell(cands@[i], lo as int, hi as int));
                }
                assert forall|i: int, x: int|
                    0 <= i < cands@.len() && mid <= x < hi && #[trigger] covers(cands@[i], x)
                    implies covers_cell(cands@[i], mid as int, hi as int) by {
                    assert(covers_cell(cands@[i], lo as int, hi as int));
                }
                let i0 = choose|i: int|
                    0 <= i < cands@.len() && covers_cell(#[trigger] cands@[i], lo as int, hi as int);
                assert(covers_cell(cands@[i0], lo as int, mid as int));
                assert(covers_cell(cands@[i0], mid as int, hi as int));
            }
            let ghost pre = out@;
            emit_cell(cands, lo, mid, out);
            let ghost mid_seq = out@;
            proof {
                assert forall|j: int| 0 <= j < mid_seq.len() implies (#[trigger] mid_seq[j]).hi
                    <= mid by {
                    if j < pre.len() {
                        assert(mid_seq[j] == pre[j]);
                        assert(pre[j].hi <= lo);
                    }
                }
            }
            emit_cell(cands, mid, hi, out);
            proof {
                let s = out@;
                let n0 = pre.len() as int;
                let n1 = mid_seq.len() as int;
                assert forall|k: int| 0 <= k < n0 implies s[k] == pre[k] by {
                    assert(mid_seq[k] == pre[k]);
                    assert(s[k] == mid_seq[k]);
                }
                assert(s.subrange(0, n0) =~= pre);
                assert forall|j: int|
                    n0 <= j < s.len() implies lo <= (#[trigger] s[j]).lo && s[j].hi <= hi
                        && entry_dominates(s[j], cands@) && entry_from(s[j], cands@) by {
                    if j < n1 {
                        assert(s[j] == mid_seq[j]);
                    }
                }
                assert forall|x: int| lo <= x < hi implies #[trigger] mask_covers(s, x) by {
                    if x < mid {
                        assert(mask_covers(mid_seq, x));
                    }
                }
            }
        }
    }
}

/// A prefix of a well-formed entry sequence is well formed.
pub proof fn lemma_wf_prefix(s: Seq<Entry>, m: int)
    requires
        wf_mask_seq(s),
        0 <= m <= s.len(),
    ensures
        wf_mask_seq(s.subrange(0, m)),
{
    let t = s.subrange(0, m);
    assert forall|i: int| 0 <= i < t.len() implies wf_entry(#[trigger] t[i]) by {
        assert(t[i] == s[i]);
    }
    assert forall|i: int| 0 <= i < t.len() - 1 implies (#[trigger] t[i]).hi <= t[i + 1].lo by {
        assert(t[i] == s[i] && t[i + 1] == s[i + 1]);
    }
}

/// Whether any candidate covers the whole cell `[lo, hi)`.
fn any_covering(cands: &Vec<Cand>, lo: i64, hi: i64) -> (r: bool)
    ensures
        r == exists|i: int|
            0 <= i < cands@.len() && covers_cell(#[trigger] cands@[i], lo as int, hi as int),
{
    let n = cands.len();
    let mut i: usize = 0;
    while i < n
        invariant
            n == cands@.len(),
            0 <= i <= n,
            forall|k: int| 0 <= k < i ==> !covers_cell(#[trigger] cands@[k], lo as int, hi as int),
        decreases n - i,
    {
        let c = cands[i];
        if c.a0 <= lo && hi <= c.a1 {
            return true;
        }
        i = i + 1;
    }
    false
}

/// Appending an entry that starts at or after the end of a well-formed
/// sequence keeps it well formed and extends its samples.
proof fn lemma_append_entry(pre: Seq<Entry>, e: Entry, sub0: Seq<Entry>, sub1: Seq<Entry>)
    requires
        wf_mask_seq(pre),
        wf_mask_seq(sub0),
        wf_mask_seq(sub1),
        sub1 == sub0.push(e),
        wf_entry(e),
        pre.len() > 0 ==> pre.last().hi <= e.lo,
        forall|x: int|
            #[trigger] mask_covers(sub0, x) ==> mask_covers(pre, x) && sample_seq(pre, x)
                == sample_seq(sub0, x),
    ensures
        wf_mask_seq(pre.push(e)),
        forall|x: int|
            #[trigger] mask_covers(sub1, x) ==> mask_covers(pre.push(e), x) && sample_seq(
                pre.push(e),
                x,
            ) == sample_seq(sub1, x),
        forall|x: int|
            #[trigger] mask_covers(pre.push(e), x) ==> mask_covers(pre, x) || entry_covers(e, x),
{
    let out = pre.push(e);
    assert forall|i: int| 0 <= i < out.len() implies wf_entry(#[trigger] out[i]) by {
        if i < pre.len() {
            assert(out[i] == pre[i]);
        }
    }
    assert forall|i: int| 0 <= i < out.len() - 1 implies (#[trigger] out[i]).hi <= out[i + 1].lo by {
        assert(out[i] == pre[i]);
        if i < pre.len() - 1 {
            assert(out[i + 1] == pre[i + 1]);
        } else {
            assert(out[i + 1] == e);
        }
    }
    assert forall|x: int| #[trigger] mask_covers(sub1, x) implies mask_covers(out, x) && sample_seq(
        out,
        x,
    ) == sample_seq(sub1, x) by {
        let j = choose|j: int| 0 <= j < sub1.len() && entry_covers(sub1[j], x);
        if j < sub0.len() {
            assert(entry_covers(sub0[j], x));
            assert(mask_covers(sub0, x));
            let jo = choose|jo: int| 0 <= jo < pre.len() && entry_covers(pre[jo], x);
            lemma_sample_at(pre, x, jo);
            assert(entry_covers(out[jo], x));
            lemma_sample_at(out, x, jo);
            lemma_sample_at(sub0, x, j);
            lemma_sample_at(sub1, x, j);
        } else {
            assert(sub1[j] == e);
            assert(entry_covers(out[pre.len() as int], x));
            lemma_sample_at(out, x, pre.len() as int);
            lemma_sample_at(sub1, x, j);
        }
    }
    assert forall|x: int| #[trigger] mask_covers(out, x) implies mask_covers(pre, x)
        || entry_covers(e, x) by {
        let j = choose|j: int| 0 <= j < out.len() && entry_covers(out[j], x);
        if j < pre.len() {
            assert(entry_covers(pre[j], x));
        } else {
            assert(out[j] == e);
        }
    }
}

/// Extending the last entry of a well-formed sequence across a gap to absorb
/// a following entry with the same profile keeps it well formed and extends
/// its samples.
proof fn lemma_merge_last(pre: Seq<Entry>, e: Entry, m: Entry, sub0: Seq<Entry>, sub1: Seq<Entry>)
    requires
        wf_mask_seq(pre),
        wf_mask_seq(sub0),
        wf_mask_seq(sub1),
        sub1 == sub0.push(e),
        wf_entry(e),
        pre.len() > 0,
        pre.last().hi <= e.lo,
        m.lo == pre.last().lo,
        m.hi == e.hi,
        m.c == pre.last().c,
        m.c == e.c,
        forall|x: int|
            #[trigger] mask_covers(sub0, x) ==> mask_covers(pre, x) && sample_seq(pre, x)
                == sample_seq(sub0, x),
    ensures
        wf_mask_seq(pre.update(pre.len() - 1, m)),
        forall|x: int|
            #[trigger] mask_covers(sub1, x) ==> mask_covers(pre.update(pre.len() - 1, m), x)
                && sample_seq(pre.update(pre.len() - 1, m), x) == sample_seq(sub1, x),
        forall|x: int|
            #[trigger] mask_covers(pre.update(pre.len() - 1, m), x) ==> mask_covers(pre, x)
                || pre.last().hi <= x < e.hi,
{
    let li = pre.len() - 1;
    let out = pre.update(li, m);
    assert(wf_entry(pre[li]));
    assert(wf_entry(m));
    assert forall|i: int| 0 <= i < out.len() implies wf_entry(#[trigger] out[i]) by {
        if i < li {
            assert(out[i] == pre[i]);
        }
    }
    assert forall|i: int| 0 <= i < out.len() - 1 implies (#[trigger] out[i]).hi <= out[i + 1].lo by {
        assert(out[i] == pre[i]);
        if i < li - 1 {
            assert(out[i + 1] == pre[i + 1]);
        } else {
            assert(out[i + 1] == m);
            assert(pre[i].hi <= pre[li].lo);
        }
    }
    assert forall|x: int| #[trigger] mask_covers(sub1, x) implies mask_covers(out, x) && sample_seq(
        out,
        x,
    ) == sample_seq(sub1, x) by {
        let j = choose|j: int| 0 <= j < sub1.len() && entry_covers(sub1[j], x);
        if j < sub0.len() {
            assert(entry_covers(sub0[j], x));
            assert(mask_covers(sub0, x));
            let jo = choose|jo: int| 0 <= jo < pre.len() && entry_covers(pre[jo], x);
            lemma_sample_at(pre, x, jo);
            if jo < li {
                assert(entry_covers(out[jo], x));
                lemma_sample_at(out, x, jo);
            } else {
                assert(entry_covers(m, x));
                assert(entry_covers(out[li], x));
                lemma_sample_at(out, x, li);
            }
            lemma_sample_at(sub0, x, j);
            lemma_sample_at(sub1, x, j);
        } else {
            assert(sub1[j] == e);
            assert(entry_covers(m, x));
            assert(entry_covers(out[li], x));
            lemma_sample_at(out, x, li);
            lemma_sample_at(sub1, x, j);
        }
    }
    assert forall|x: int| #[trigger] mask_covers(out, x) implies mask_covers(pre, x)
        || pre.last().hi <= x < e.hi by {
        let j = choose|j: int| 0 <= j < out.len() && entry_covers(out[j], x);
        if j < li {
            assert(entry_covers(pre[j], x));
        } else {
            assert(out[j] == m);
            if x < pre.last().hi {
                assert(entry_covers(pre[li], x));
            }
        }
    }
}

/// Coalesces touching sub-intervals that carry the same profile: a boundary
/// gap of at most `eps` between two entries with one candidate value is
/// closed, and the profile extended across it.
#[verifier::rlimit(100)]
#[verifier::spinoff_prover]
fn coalesce(inp: Vec<Entry>, eps: i64) -> (out: Vec<Entry>)
    requires
        wf_mask_seq(inp@),
        0 <= eps <= 4 * ANG_SCALE,
    ensures
        wf_mask_seq(out@),
        forall|x: int|
            #[trigger] mask_covers(inp@, x) ==> mask_covers(out@, x) && sample_seq(out@, x)
                == sample_seq(inp@, x),
        eps == 0 ==> forall|x: int| #[trigger] mask_covers(out@, x) ==> mask_covers(inp@, x),
{
    let n = inp.len();
    let mut out: Vec<Entry> = Vec::new();
    let mut k: usize = 0;
    while k < n
        invariant
            wf_mask_seq(inp@),
            0 <= eps <= 4 * ANG_SCALE,
            n == inp@.len(),
            0 <= k <= n,
            wf_mask_seq(out@),
            k == 0 ==> out@.len() == 0,
            k > 0 ==> out@.len() > 0 && out@.last().hi == inp@[k - 1].hi,
            forall|x: int|
                #[trigger] mask_covers(inp@.subrange(0, k as int), x) ==> mask_covers(out@, x)
                    && sample_seq(out@, x) == sample_seq(inp@.subrange(0, k as int), x),
            eps == 0 ==> forall|x: int|
                #[trigger] mask_covers(out@, x) ==> mask_covers(inp@.subrange(0, k as int), x),
        decreases n - k,
    {
        let e = inp[k];
        let ghost sub0 = inp@.subrange(0, k as int);
        let ghost sub1 = inp@.subrange(0, k as int + 1);
        proof {
            lemma_wf_prefix(inp@, k as int);
            lemma_wf_prefix(inp@, k as int + 1);
            assert(sub1 =~= sub0.push(e));
            assert(wf_entry(inp@[k as int]));
            if k > 0 {
                assert(inp@[k - 1].hi <= inp@[k as int].lo);
            }
        }
        let ghost pre = out@;
        let mut merged = false;
        if out.len() > 0 {
            let last = out[out.len() - 1];
            if last.c == e.c && e.lo - last.hi <= eps {
                let m = Entry { lo: last.lo, hi: e.hi, c: last.c };
                out.pop();
                out.push(m);
                merged = true;
                proof {
                    assert(out@ =~= pre.update(pre.len() - 1, m));
                    lemma_merge_last(pre, e, m, sub0, sub1);
                    if eps == 0 {
                        assert(e.lo == last.hi);
                        assert forall|x: int| #[trigger] mask_covers(out@, x) implies mask_covers(
                            sub1,
                            x,
                        ) by {
                            if mask_covers(pre, x) {
                                let js = choose|js: int|
                                    0 <= js < sub0.len() && entry_covers(sub0[js], x);
                                assert(entry_covers(sub1[js], x));
                            } else {
                                assert(pre.last().hi <= x < e.hi);
                                assert(entry_covers(sub1[k as int], x));
                            }
                        }
                    }
                }
            }
        }
        if !merged {
            out.push(e);
            proof {
                lemma_append_entry(pre, e, sub0, sub1);
                if eps == 0 {
                    assert forall|x: int| #[trigger] mask_covers(out@, x) implies mask_covers(
                        sub1,
                        x,
                    ) by {
                        if mask_covers(pre, x) {
                            let js = choose|js: int|
                                0 <= js < sub0.len() && entry_covers(sub0[js], x);
                            assert(entry_covers(sub1[js], x));
                        } else {
                            assert(entry_covers(e, x));
                            assert(entry_covers(sub1[k as int], x));
                        }
                    }
                }
            }
        }
        k = k + 1;
    }
    proof {
        assert(inp@.subrange(0, n as int) =~= inp@);
    }
    out
}

/// Between two consecutive breakpoints every candidate covers all of the
/// cell or none of it: every candidate boundary is itself a breakpoint.
proof fn lemma_cell_closed(cands: Seq<Cand>, bp: Seq<i64>, t: int)
    requires
        all_wf(cands),
        strictly_sorted(bp),
        forall|i: int|
            0 <= i < cands.len() ==> bp.contains(#[trigger] cands[i].a0) && bp.contains(
                cands[i].a1,
            ),
        0 <= t,
        t + 1 < bp.len(),
    ensures
        cell_closed(cands, bp[t] as int, bp[t + 1] as int),
{
    let lo = bp[t] as int;
    let hi = bp[t + 1] as int;
    assert forall|i: int, x: int|
        0 <= i < cands.len() && lo <= x < hi && #[trigger] covers(cands[i], x)
        implies covers_cell(cands[i], lo, hi) by {
        let c = cands[i];
        let k0 = choose|k: int| 0 <= k < bp.len() && bp[k] == c.a0;
        if c.a0 > lo {
            assert(bp[k0] > bp[t]);
            assert(k0 > t) by {
                if k0 < t {
                    assert(bp[k0] < bp[t]);
                }
            }
            assert(k0 >= t + 1);
            if k0 > t + 1 {
                assert(bp[t + 1] < bp[k0]);
            }
            assert(c.a0 >= hi);
            assert(false);
        }
        let k1 = choose|k: int| 0 <= k < bp.len() && bp[k] == c.a1;
        assert(bp[k1] > bp[t]);
        assert(k1 > t) by {
            if k1 < t {
                assert(bp[k1] < bp[t]);
            }
        }
        assert(k1 >= t + 1);
        if k1 > t + 1 {
            assert(bp[t + 1] < bp[k1]);
        }
        assert(c.a1 >= hi);
    }
}

/// Folds any number of projected segments, in any order, into the skyline:
/// an ordered, non-overlapping map that records, at every covered angle, the
/// upper envelope of the covering profiles, coalesced with tolerance `eps`.
#[verifier::rlimit(100)]
#[verifier::spinoff_prover]
pub fn merge(cands: &Vec<Cand>, eps: i64) -> (r: Skymask)
    requires
        all_wf(cands@),
        0 <= eps <= 4 * ANG_SCALE,
    ensures
        r.wf(),
        forall|x: int, i: int|
            0 <= i < cands@.len() && #[trigger] covers(cands@[i], x) ==> mask_covers(
                r.entries@,
                x,
            ),
        forall|x: int, i: int|
            0 <= i < cands@.len() && #[trigger] covers(cands@[i], x) ==> sample_seq(r.entries@, x)
                >= interp(cands@[i], x),
        forall|x: int|
            #[trigger] cand_covered(cands@, x) ==> exists|i: int|
                0 <= i < cands@.len() && covers(#[trigger] cands@[i], x) && sample_seq(
                    r.entries@,
                    x,
                ) == interp(cands@[i], x),
        eps == 0 ==> forall|x: int|
            #[trigger] mask_covers(r.entries@, x) ==> cand_covered(cands@, x),
{
    let bp = collect_breakpoints(cands);
    let nb = bp.len();
    let mut raw: Vec<Entry> = Vec::new();
    let mut t: usize = 0;
    while t + 1 < nb
        invariant
            all_wf(cands@),
            strictly_sorted(bp@),
            in_domain(bp@),
            forall|i: int|
                0 <= i < cands@.len() ==> bp@.contains(#[trigger] cands@[i].a0) && bp@.contains(
                    cands@[i].a1,
                ),
            nb == bp@.len(),
            nb == 0 ==> t == 0,
            nb > 0 ==> 0 <= t < nb,
            wf_mask_seq(raw@),
            forall|j: int|
                0 <= j < raw@.len() ==> entry_dominates(#[trigger] raw@[j], cands@) && entry_from(
                    raw@[j],
                    cands@,
                ),
            nb > 0 ==> forall|j: int|
                0 <= j < raw@.len() ==> (#[trigger] raw@[j]).hi <= bp@[t as int],
            forall|x: int, i: int|
                0 <= i < cands@.len() && #[trigger] covers(cands@[i], x) && nb > 0
                    && x < bp@[t as int] ==> mask_covers(raw@, x),
        decreases nb - t,
    {
        let lo = bp[t];
        let hi = bp[t + 1];
        proof {
            lemma_cell_closed(cands@, bp@, t as int);
        }
        if any_covering(cands, lo, hi) {
            let ghost pre = raw@;
            emit_cell(cands, lo, hi, &mut raw);
            proof {
                assert forall|j: int| 0 <= j < raw@.len() implies (#[trigger] raw@[j]).hi <= bp@[t
                    + 1] by {
                    if j < pre.len() {
                        assert(raw@[j] == pre[j]);
                        assert(pre[j].hi <= bp@[t as int]);
                    }
                }
                assert forall|j: int| 0 <= j < raw@.len() implies entry_dominates(
                    #[trigger] raw@[j],
                    cands@,
                ) && entry_from(raw@[j], cands@) by {
                    if j < pre.len() {
                        assert(raw@[j] == pre[j]);
                    }
                }
                assert forall|x: int, i: int|
                    0 <= i < cands@.len() && #[trigger] covers(cands@[i], x) && x < bp@[t + 1]
                    implies mask_covers(raw@, x) by {
                    if x < bp@[t as int] {
                        assert(mask_covers(pre, x));
                    } else {
                        assert(lo <= x < hi);
                    }
                }
            }
        } else {
            proof {
                assert forall|x: int, i: int|
                    0 <= i < cands@.len() && #[trigger] covers(cands@[i], x) && x < bp@[t + 1]
                    implies mask_covers(raw@, x) by {
                    if x < bp@[t as int] {
                    } else {
                        assert(covers_cell(cands@[i], lo as int, hi as int));
                        assert(false);
                    }
                }
            }
        }
        t = t + 1;
    }
    proof {
        assert forall|x: int, i: int|
            0 <= i < cands@.len() && #[trigger] covers(cands@[i], x) implies mask_covers(
            raw@,
            x,
        ) by {
            let c = cands@[i];
            let k0 = choose|k: int| 0 <= k < bp@.len() && bp@[k] == c.a0;
            let k1 = choose|k: int| 0 <= k < bp@.len() && bp@[k] == c.a1;
            assert(bp@[k0] != bp@[k1]);
            assert(k0 != k1);
            assert(nb >= 2);
            assert(t == nb - 1);
            assert(k1 <= t);
            if k1 < t {
                assert(bp@[k1] < bp@[t as int]);
            }
            assert(x < c.a1 <= bp@[t as int]);
        }
    }
    let ghost rawseq = raw@;
    let entries = coalesce(raw, eps);
    proof {
        assert forall|x: int| #[trigger] mask_covers(rawseq, x) implies cand_covered(cands@, x) by {
            let j = choose|j: int| 0 <= j < rawseq.len() && entry_covers(rawseq[j], x);
            let e = rawseq[j];
            assert(wf_entry(e));
            assert(covers(e.c, x));
            assert(entry_from(e, cands@));
            let i = choose|i: int| 0 <= i < cands@.len() && #[trigger] cands@[i] == e.c;
            assert(covers(cands@[i], x));
        }
        assert forall|x: int, i: int|
            0 <= i < cands@.len() && #[trigger] covers(cands@[i], x) implies sample_seq(
            entries@,
            x,
        ) >= interp(cands@[i], x) by {
            assert(mask_covers(rawseq, x));
            let j = choose|j: int| 0 <= j < rawseq.len() && entry_covers(rawseq[j], x);
            lemma_sample_at(rawseq, x, j);
            assert(entry_dominates(rawseq[j], cands@));
            assert(ge_at(rawseq[j].c, cands@[i], x));
            lemma_ge_at_interp(rawseq[j].c, cands@[i], x);
        }
        assert forall|x: int| #[trigger] cand_covered(cands@, x) implies exists|i: int|
            0 <= i < cands@.len() && covers(#[trigger] cands@[i], x) && sample_seq(entries@, x)
                == interp(cands@[i], x) by {
            let i0 = choose|i: int| 0 <= i < cands@.len() && covers(#[trigger] cands@[i], x);
            assert(mask_covers(rawseq, x));
            let j = choose|j: int| 0 <= j < rawseq.len() && entry_covers(rawseq[j], x);
            lemma_sample_at(rawseq, x, j);
            let e = rawseq[j];
            assert(wf_entry(e));
            assert(covers(e.c, x));
            let iw = choose|i: int| 0 <= i < cands@.len() && #[trigger] cands@[i] == e.c;
            assert(sample_seq(entries@, x) == sample_seq(rawseq, x));
            assert(covers(cands@[iw], x) && sample_seq(entries@, x) == interp(cands@[iw], x));
        }
    }
    Skymask { entries }
}

} // verus!
