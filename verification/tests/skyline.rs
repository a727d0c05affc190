use skymask::envelope::merge;
use skymask::geom::Cand;
use skymask::world::{Seg, World};

fn one_seg_world(seg: Seg, max_dist: i64, eps: i64) -> World {
    World::new(vec![seg], max_dist, eps)
}

#[test]
fn single_segment_gives_one_coalesced_interval() {
    let w = one_seg_world(
        Seg { x1: 10, y1: 0, h1: 5, x2: 0, y2: 10, h2: 5 },
        100,
        0,
    );
    let records = w.skymask(0, 0);
    assert_eq!(records.len(), 1);
    assert_eq!(records[0].a_start, 0);
    assert_eq!(records[0].a_end, 1_000_000);
    assert_eq!(records[0].y_start, 500_000);
    assert_eq!(records[0].y_end, 500_000);
    let mask = w.calc_skymask(0, 0);
    let mid = mask.evaluate_one(500_000);
    assert!(records[0].y_start <= mid && mid <= records[0].y_end);
    assert_eq!(mask.evaluate_one(-1), 0);
    assert_eq!(mask.evaluate_one(1_000_000), 0);
}

#[test]
fn sloped_profile_interpolates_linearly() {
    let w = one_seg_world(
        Seg { x1: 10, y1: 0, h1: 5, x2: 0, y2: 10, h2: 10 },
        100,
        0,
    );
    let mask = w.calc_skymask(0, 0);
    assert_eq!(mask.evaluate_one(0), 500_000);
    assert_eq!(mask.evaluate_one(500_000), 750_000);
    assert_eq!(mask.evaluate_one(999_999), 999_999);
    let records = w.skymask(0, 0);
    assert_eq!(records.len(), 1);
    assert_eq!(records[0].y_start, 500_000);
    assert_eq!(records[0].y_end, 1_000_000);
}

#[test]
fn crossing_profiles_take_the_upper_envelope() {
    let c1 = Cand { a0: 0, a1: 100, y0: 0, y1: 100 };
    let c2 = Cand { a0: 0, a1: 100, y0: 100, y1: 0 };
    let mask = merge(&vec![c1, c2], 0);
    assert_eq!(mask.evaluate_one(25), 75);
    assert_eq!(mask.evaluate_one(50), 50);
    assert_eq!(mask.evaluate_one(75), 75);
    assert_eq!(mask.evaluate_one(99), 99);
    assert_eq!(mask.evaluate_one(0), 100);
}

#[test]
fn merged_intervals_never_overlap() {
    let c1 = Cand { a0: 0, a1: 100, y0: 0, y1: 100 };
    let c2 = Cand { a0: 0, a1: 100, y0: 100, y1: 0 };
    let c3 = Cand { a0: 50, a1: 150, y0: 30, y1: 30 };
    let mask = merge(&vec![c1, c2, c3], 0);
    let records = mask.export();
    assert!(records.len() >= 1);
    for k in 0..records.len() {
        assert!(records[k].a_start < records[k].a_end);
        if k + 1 < records.len() {
            assert!(records[k].a_end <= records[k + 1].a_start);
        }
    }
}

#[test]
fn occluded_candidate_splits_coalesce_back() {
    let c1 = Cand { a0: 0, a1: 300, y0: 10, y1: 10 };
    let c2 = Cand { a0: 100, a1: 200, y0: 5, y1: 5 };
    let mask = merge(&vec![c1, c2], 0);
    let records = mask.export();
    assert_eq!(records.len(), 1);
    assert_eq!(records[0].a_start, 0);
    assert_eq!(records[0].a_end, 300);
    assert_eq!(mask.evaluate_one(150), 10);
}

#[test]
fn empty_world_samples_to_zero() {
    let w = World::new(vec![], 100, 0);
    let records = w.skymask(0, 0);
    assert_eq!(records.len(), 0);
    let mask = w.calc_skymask(0, 0);
    assert_eq!(mask.evaluate_one(0), 0);
    assert_eq!(mask.evaluate_one(123_456), 0);
}

#[test]
fn degenerate_segment_is_skipped() {
    let w = one_seg_world(
        Seg { x1: 0, y1: 0, h1: 5, x2: 10, y2: 0, h2: 5 },
        100,
        0,
    );
    assert_eq!(w.skymask(0, 0).len(), 0);
}

#[test]
fn gap_between_obstructions_samples_to_zero() {
    let a = Seg { x1: 10, y1: 0, h1: 5, x2: 0, y2: 10, h2: 5 };
    let b = Seg { x1: -10, y1: 0, h1: 5, x2: 0, y2: -10, h2: 5 };
    let w = World::new(vec![a, b], 100, 0);
    let mask = w.calc_skymask(0, 0);
    assert!(mask.evaluate_one(500_000) > 0);
    assert_eq!(mask.evaluate_one(1_500_000), 500_000);
    assert_eq!(mask.evaluate_one(2_500_000), 0);
}

#[test]
fn sequential_and_parallel_sampling_agree() {
    let w = World::new(
        vec![
            Seg { x1: 10, y1: 0, h1: 5, x2: 0, y2: 10, h2: 10 },
            Seg { x1: 5, y1: 0, h1: 3, x2: 0, y2: 5, h2: 3 },
        ],
        100,
        0,
    );
    let xs: Vec<i64> = vec![-2_000_000, -1, 0, 250_000, 500_000, 750_000, 999_999, 1_000_000, 2_999_999];
    let seq_out = w.skymask_samples(0, 0, &xs);
    let par_out = w.skymask_par_samples(0, 0, &xs);
    assert_eq!(seq_out.len(), xs.len());
    assert_eq!(par_out.len(), xs.len());
    for k in 0..xs.len() {
        assert_eq!(seq_out[k], par_out[k]);
    }
}

#[test]
fn segment_order_does_not_change_the_skyline() {
    let a = Seg { x1: 10, y1: 0, h1: 5, x2: 0, y2: 10, h2: 5 };
    let b = Seg { x1: 5, y1: 0, h1: 5, x2: 0, y2: 5, h2: 5 };
    let w1 = World::new(vec![a, b], 100, 0);
    let w2 = World::new(vec![b, a], 100, 0);
    let r1 = w1.skymask(0, 0);
    let r2 = w2.skymask(0, 0);
    assert_eq!(r1.len(), r2.len());
    for k in 0..r1.len() {
        assert_eq!(r1[k], r2[k]);
    }
    assert_eq!(r1.len(), 1);
    assert_eq!(r1[0].y_start, 1_000_000);
}

#[test]
fn larger_radius_only_adds_coverage() {
    let b = Seg { x1: 5, y1: 0, h1: 5, x2: 0, y2: 5, h2: 5 };
    let near = one_seg_world(b, 3, 0);
    let far = one_seg_world(b, 4, 0);
    let m_near = near.calc_skymask(0, 0);
    let m_far = far.calc_skymask(0, 0);
    assert_eq!(m_near.evaluate_one(500_000), 0);
    assert_eq!(m_far.evaluate_one(500_000), 1_000_000);
    assert_eq!(near.skymask(0, 0).len(), 0);
    assert_eq!(far.skymask(0, 0).len(), 1);
}

#[test]
fn observer_translation_shifts_the_query() {
    let s = Seg { x1: 20, y1: 10, h1: 5, x2: 10, y2: 20, h2: 5 };
    let w = World::new(vec![s], 100, 0);
    let shifted = w.skymask(10, 10);
    let base = World::new(
        vec![Seg { x1: 10, y1: 0, h1: 5, x2: 0, y2: 10, h2: 5 }],
        100,
        0,
    )
    .skymask(0, 0);
    assert_eq!(shifted.len(), base.len());
    for k in 0..base.len() {
        assert_eq!(shifted[k], base[k]);
    }
}

#[test]
fn parameters_can_be_adjusted_between_queries() {
    let b = Seg { x1: 5, y1: 0, h1: 5, x2: 0, y2: 5, h2: 5 };
    let mut w = one_seg_world(b, 3, 0);
    assert_eq!(w.get_max_dist(), 3);
    assert_eq!(w.get_eps(), 0);
    assert_eq!(w.skymask(0, 0).len(), 0);
    w.set_max_dist(100);
    w.set_eps(2);
    assert_eq!(w.get_max_dist(), 100);
    assert_eq!(w.get_eps(), 2);
    assert_eq!(w.skymask(0, 0).len(), 1);
}

#[test]
fn evaluate_many_preserves_order_and_length() {
    let w = one_seg_world(
        Seg { x1: 10, y1: 0, h1: 5, x2: 0, y2: 10, h2: 10 },
        100,
        0,
    );
    let mask = w.calc_skymask(0, 0);
    let xs: Vec<i64> = vec![500_000, -5, 0];
    let out = mask.evaluate_many(&xs);
    assert_eq!(out, vec![750_000, 0, 500_000]);
}

#[test]
fn below_datum_obstruction_keeps_exact_floors() {
    let w = World::new(
        vec![Seg { x1: 10, y1: 0, h1: -5, x2: 0, y2: 10, h2: -2 }],
        100,
        0,
    );
    let mask = w.calc_skymask(0, 0);
    assert_eq!(mask.evaluate_one(0), -500_000);
    assert_eq!(mask.evaluate_one(999_999), -200_001);
    assert_eq!(mask.evaluate_one(500_000), -350_000);
    assert_eq!(mask.evaluate_one(2_000_000), 0);
}
