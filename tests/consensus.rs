use ellipse_detect::consensus::{
    count_inliers, draw_sample, filter_contours_by_length, gather_near, peel_inliers,
    robust_fit_ellipse, MIN_POINTS,
    PAIR_ATTEMPTS, SAMPLES_PER_ROUND, SEED_PAIRS,
};

// A toy model: a point is (label, position); the "ellipse" fitted to a
// sample is the label of its first point, and a point is an inlier of an
// ellipse when it carries its label.
type Pt = (u32, u32);

fn contour(groups: &[(u32, u32)]) -> Vec<Pt> {
    let mut pts = Vec::new();
    for &(label, count) in groups {
        for i in 0..count {
            pts.push((label, i));
        }
    }
    pts
}

fn pair_ok(a: Pt, b: Pt) -> bool {
    a.0 == b.0 && a.1 != b.1
}

fn near(seed: Pt, p: Pt) -> bool {
    seed.0 == p.0 && seed.1.abs_diff(p.1) <= 2
}

fn fit_label(s: &Vec<Pt>) -> Option<u32> {
    s.first().map(|p| p.0)
}

fn run(pts: &Vec<Pt>, in_range: bool, min_support: usize, seed: u64) -> Vec<u32> {
    let mut rng = fastrand::Rng::with_seed(seed);
    robust_fit_ellipse(
        pts,
        in_range,
        &mut rng,
        pair_ok,
        near,
        fit_label,
        |_e: u32| true,
        |e: u32, p: Pt| p.0 == e,
        move |_e: u32, c: usize| c >= min_support,
        |_e1: u32, c1: usize, _e2: u32, c2: usize| c1 >= c2,
    )
}

#[test]
fn constants_follow_the_sampling_rule() {
    assert_eq!(MIN_POINTS, 30);
    assert_eq!(SEED_PAIRS, 3);
    assert_eq!(SAMPLES_PER_ROUND, 496);
    assert!(PAIR_ATTEMPTS > 0);
}

#[test]
fn fewer_than_thirty_points_yield_nothing() {
    let pts = contour(&[(1, 29)]);
    assert_eq!(run(&pts, true, 1, 1), Vec::<u32>::new());
}

#[test]
fn thirty_points_are_enough_for_a_round() {
    let pts = contour(&[(1, 30)]);
    assert_eq!(run(&pts, true, 1, 1), vec![1]);
}

#[test]
fn centroid_outside_the_ring_yields_nothing_without_fitting() {
    let pts = contour(&[(1, 100)]);
    let mut rng = fastrand::Rng::with_seed(3);
    let found: Vec<u32> = robust_fit_ellipse(
        &pts,
        false,
        &mut rng,
        pair_ok,
        near,
        |_s: &Vec<Pt>| -> Option<u32> { panic!("no fit may be attempted") },
        |_e: u32| true,
        |e: u32, p: Pt| p.0 == e,
        |_e: u32, c: usize| c >= 1,
        |_e1: u32, c1: usize, _e2: u32, c2: usize| c1 >= c2,
    );
    assert!(found.is_empty());
}

#[test]
fn peeling_finds_each_shape_once_fittest_first() {
    let pts = contour(&[(2, 35), (1, 40)]);
    assert_eq!(run(&pts, true, 10, 7), vec![1, 2]);
}

#[test]
fn a_shape_left_with_too_few_points_is_not_found() {
    let pts = contour(&[(1, 40), (2, 29)]);
    assert_eq!(run(&pts, true, 10, 11), vec![1]);
}

#[test]
fn no_candidate_reaching_the_fitness_yields_nothing() {
    let pts = contour(&[(1, 40)]);
    assert_eq!(run(&pts, true, 41, 5), Vec::<u32>::new());
}

#[test]
fn implausible_fits_are_discarded() {
    let pts = contour(&[(1, 40), (2, 40)]);
    let mut rng = fastrand::Rng::with_seed(13);
    let found = robust_fit_ellipse(
        &pts,
        true,
        &mut rng,
        pair_ok,
        near,
        fit_label,
        |e: u32| e != 1,
        |e: u32, p: Pt| p.0 == e,
        |_e: u32, c: usize| c >= 10,
        |_e1: u32, c1: usize, _e2: u32, c2: usize| c1 >= c2,
    );
    assert_eq!(found, vec![2]);
}

#[test]
fn a_round_that_removes_nothing_ends_the_search() {
    // The inlier test never matches, yet every fit is accepted: one ellipse
    // is found, nothing is peeled, and the search stops.
    let pts = contour(&[(1, 40)]);
    let mut rng = fastrand::Rng::with_seed(17);
    let found = robust_fit_ellipse(
        &pts,
        true,
        &mut rng,
        pair_ok,
        near,
        fit_label,
        |_e: u32| true,
        |_e: u32, _p: Pt| false,
        |_e: u32, _c: usize| true,
        |_e1: u32, c1: usize, _e2: u32, c2: usize| c1 >= c2,
    );
    assert_eq!(found, vec![1]);
}

#[test]
fn unreachable_seed_pairs_skip_every_sample() {
    let pts = contour(&[(1, 40)]);
    let mut rng = fastrand::Rng::with_seed(19);
    let found = robust_fit_ellipse(
        &pts,
        true,
        &mut rng,
        |_a: Pt, _b: Pt| false,
        near,
        fit_label,
        |_e: u32| true,
        |e: u32, p: Pt| p.0 == e,
        |_e: u32, c: usize| c >= 1,
        |_e1: u32, c1: usize, _e2: u32, c2: usize| c1 >= c2,
    );
    assert!(found.is_empty());
}

#[test]
fn ties_go_to_the_later_candidate() {
    // Every candidate has the same support, so the last candidate of the
    // round wins; with a single label that is label 1 either way.
    let pts = contour(&[(1, 40)]);
    let mut rng = fastrand::Rng::with_seed(23);
    let found = robust_fit_ellipse(
        &pts,
        true,
        &mut rng,
        pair_ok,
        near,
        fit_label,
        |_e: u32| true,
        |e: u32, p: Pt| p.0 == e,
        |_e: u32, c: usize| c >= 1,
        |_e1: u32, _c1: usize, _e2: u32, _c2: usize| true,
    );
    assert_eq!(found, vec![1]);
}

#[test]
fn peel_keeps_the_points_that_are_not_inliers_in_order() {
    let pts: Vec<Pt> = vec![(1, 0), (2, 1), (1, 2), (3, 3), (2, 4)];
    let rest = peel_inliers(&pts, 2u32, &|e: u32, p: Pt| p.0 == e);
    assert_eq!(rest, vec![(1, 0), (1, 2), (3, 3)]);
}

#[test]
fn count_inliers_counts_the_matching_points() {
    let pts: Vec<Pt> = vec![(1, 0), (2, 1), (1, 2), (3, 3), (2, 4)];
    assert_eq!(count_inliers(&pts, 1u32, &|e: u32, p: Pt| p.0 == e), 2);
    assert_eq!(count_inliers(&pts, 7u32, &|e: u32, p: Pt| p.0 == e), 0);
    assert_eq!(count_inliers(&Vec::<Pt>::new(), 1u32, &|e: u32, p: Pt| p.0 == e), 0);
}

#[test]
fn gather_near_appends_points_near_either_seed() {
    let pts: Vec<Pt> = contour(&[(1, 10)]);
    let mut sample = vec![(9, 9)];
    gather_near(&pts, (1, 0), (1, 9), &near, &mut sample);
    assert_eq!(sample, vec![(9, 9), (1, 0), (1, 1), (1, 2), (1, 7), (1, 8), (1, 9)]);
}

#[test]
fn a_sample_gathers_three_seed_pairs() {
    // Every pair is accepted and every point is near every seed, so each of
    // the three pairs brings the whole contour.
    let pts: Vec<Pt> = contour(&[(1, 4)]);
    let mut rng = fastrand::Rng::with_seed(29);
    let s = draw_sample(&pts, &mut rng, &|_a: Pt, _b: Pt| true, &|_s: Pt, _p: Pt| true).unwrap();
    assert_eq!(s.len(), 3 * pts.len());
    assert_eq!(&s[0..4], &pts[..]);
}

#[test]
fn a_sample_is_skipped_when_no_pair_is_acceptable() {
    let pts: Vec<Pt> = contour(&[(1, 4)]);
    let mut rng = fastrand::Rng::with_seed(31);
    assert!(draw_sample(&pts, &mut rng, &|_a: Pt, _b: Pt| false, &near).is_none());
}

#[test]
fn every_predicate_accepting_finds_an_ellipse() {
    let pts = contour(&[(4, 30)]);
    let mut rng = fastrand::Rng::with_seed(37);
    let found = robust_fit_ellipse(
        &pts,
        true,
        &mut rng,
        |_a: Pt, _b: Pt| true,
        |_s: Pt, _p: Pt| true,
        |s: &Vec<Pt>| Some(s.len()),
        |_e: usize| true,
        |_e: usize, _p: Pt| true,
        |_e: usize, _c: usize| true,
        |_e1: usize, _c1: usize, _e2: usize, _c2: usize| true,
    );
    // Every sample gathers the whole contour once per seed pair, and every
    // point is an inlier, so the single round peels everything.
    assert_eq!(found, vec![3 * 30]);
}

#[test]
fn a_single_point_contour_draws_its_only_index() {
    let pts: Vec<Pt> = vec![(5, 5)];
    let mut rng = fastrand::Rng::with_seed(41);
    let s = draw_sample(&pts, &mut rng, &|_a: Pt, _b: Pt| true, &|_s: Pt, _p: Pt| true).unwrap();
    assert_eq!(s, vec![(5, 5), (5, 5), (5, 5)]);
}

#[test]
fn contours_are_kept_by_inclusive_length_bounds() {
    let contours: Vec<Vec<u8>> = vec![vec![1; 2], vec![2; 3], vec![3; 5], vec![4; 6], vec![5; 4]];
    let kept = filter_contours_by_length(contours, 3, 5);
    assert_eq!(kept, vec![vec![2; 3], vec![3; 5], vec![5; 4]]);
    assert!(filter_contours_by_length(vec![vec![0u8; 4]], 5, 3).is_empty());
}

#[test]
fn peeled_points_count_no_inlier_and_peeling_removes_the_count() {
    let pts: Vec<Pt> = contour(&[(1, 7), (2, 5), (1, 3)]);
    let is_inlier = |e: u32, p: Pt| p.0 == e;
    let counted = count_inliers(&pts, 1u32, &is_inlier);
    let rest = peel_inliers(&pts, 1u32, &is_inlier);
    assert_eq!(counted, 10);
    assert_eq!(rest.len() + counted, pts.len());
    assert_eq!(count_inliers(&rest, 1u32, &is_inlier), 0);
    assert_eq!(peel_inliers(&rest, 1u32, &is_inlier), rest);
}

#[test]
fn centroid_outside_the_ring_leaves_the_generator_untouched() {
    let pts = contour(&[(1, 100)]);
    let mut rng = fastrand::Rng::with_seed(43);
    let found = run_with(&pts, false, &mut rng);
    assert!(found.is_empty());
    assert_eq!(rng, fastrand::Rng::with_seed(43));
}

fn run_with(pts: &Vec<Pt>, in_range: bool, rng: &mut fastrand::Rng) -> Vec<u32> {
    robust_fit_ellipse(
        pts,
        in_range,
        rng,
        pair_ok,
        near,
        fit_label,
        |_e: u32| true,
        |e: u32, p: Pt| p.0 == e,
        |_e: u32, c: usize| c >= 1,
        |_e1: u32, c1: usize, _e2: u32, c2: usize| c1 >= c2,
    )
}

#[test]
fn the_fittest_accepted_candidate_is_kept() {
    // Label 3 has the most points but is not plausible; of the rest, label 2
    // has more support than label 1 and is kept first.
    let pts = contour(&[(1, 31), (2, 45), (3, 60)]);
    let mut rng = fastrand::Rng::with_seed(47);
    let found = robust_fit_ellipse(
        &pts,
        true,
        &mut rng,
        pair_ok,
        near,
        fit_label,
        |e: u32| e != 3,
        |e: u32, p: Pt| p.0 == e,
        |_e: u32, c: usize| c >= 10,
        |_e1: u32, c1: usize, _e2: u32, c2: usize| c1 >= c2,
    );
    assert_eq!(found, vec![2, 1]);
}

#[test]
fn support_is_counted_among_the_points_still_left() {
    // Fit enough only with exactly 40 inliers: label 1 qualifies in the
    // first round; label 2 has 40 points too but shares them with nothing,
    // so it also qualifies once label 1 is peeled.
    let pts = contour(&[(1, 40), (2, 40)]);
    let mut rng = fastrand::Rng::with_seed(53);
    let found = robust_fit_ellipse(
        &pts,
        true,
        &mut rng,
        pair_ok,
        near,
        fit_label,
        |_e: u32| true,
        |e: u32, p: Pt| p.0 == e,
        |_e: u32, c: usize| c == 40,
        |_e1: u32, c1: usize, _e2: u32, c2: usize| c1 >= c2,
    );
    assert_eq!(found.len(), 2);
    assert!(found.contains(&1) && found.contains(&2));
}

#[test]
fn no_count_fit_enough_yields_nothing() {
    let pts = contour(&[(1, 40)]);
    assert_eq!(run(&pts, true, 41, 59), Vec::<u32>::new());
}

#[test]
fn the_result_is_bounded_by_the_points_per_round() {
    // Each round peels one point; rounds stop once 29 points remain.
    let pts = contour(&[(0, 33)]);
    let mut rng = fastrand::Rng::with_seed(61);
    let found = robust_fit_ellipse(
        &pts,
        true,
        &mut rng,
        |_a: Pt, _b: Pt| true,
        |_s: Pt, _p: Pt| true,
        |s: &Vec<Pt>| Some(s[0].1),
        |_e: u32| true,
        |e: u32, p: Pt| p.1 == e,
        |_e: u32, c: usize| c >= 1,
        |_e1: u32, _c1: usize, _e2: u32, _c2: usize| true,
    );
    assert_eq!(found.len(), 33 - 29);
    assert!(found.len() + 29 <= pts.len());
}

#[test]
fn a_sample_is_the_union_of_its_three_pairs_neighbourhoods() {
    let pts: Vec<Pt> = contour(&[(1, 20)]);
    let mut rng = fastrand::Rng::with_seed(67);
    let s = draw_sample(&pts, &mut rng, &pair_ok, &near).unwrap();
    // Each pair contributes between 2 and 10 points, all of label 1.
    assert!(s.len() >= 6 && s.len() <= 30);
    assert!(s.iter().all(|p| p.0 == 1));
}

#[test]
fn each_result_has_support_among_the_points_left_by_earlier_results() {
    let pts = contour(&[(1, 40), (2, 35)]);
    let found = run(&pts, true, 1, 71);
    assert_eq!(found, vec![1, 2]);
    let mut left = pts.clone();
    for &e in &found {
        assert!(count_inliers(&left, e, &|e: u32, p: Pt| p.0 == e) > 0);
        left = peel_inliers(&left, e, &|e: u32, p: Pt| p.0 == e);
    }
}
