//! The random sample-and-consensus search that peels ellipses off one
//! contour. It is generic over the point and ellipse types: the geometry
//! (fitting, distances, the plausibility filter, fitness) comes in as
//! predicates, and the contracts speak of what those predicates answered.
use vstd::prelude::*;

use crate::random::draw_index;

verus! {

/// Rounds stop once fewer points than this remain.
pub const MIN_POINTS: usize = 30;

/// Samples drawn in each round: the number of draws that meet a sample free
/// of outliers with probability `1 - 0.6^5`, when 60% of the points are
/// outliers and a fit takes five points, doubled as a margin; that is
/// `2 * log(0.6^5) / log(1 - 0.4^5)`, rounded down.
pub const SAMPLES_PER_ROUND: usize = 496;

/// Seed pairs gathered into one sample.
pub const SEED_PAIRS: usize = 3;

/// Draws allowed to find one acceptable seed pair before the sample is skipped.
pub const PAIR_ATTEMPTS: usize = 1000;

/// `p` is a point of `points` that lies near one seed of an accepted pair of
/// points of `points`.
pub open spec fn gathered_point<P, G: Fn(P, P) -> bool, N: Fn(P, P) -> bool>(
    points: Seq<P>,
    pair_ok: G,
    near: N,
    p: P,
) -> bool {
    &&& points.contains(p)
    &&& exists|a: P, b: P|
        #![trigger pair_ok.ensures((a, b), true), near.ensures((a, p), true)]
        points.contains(a) && points.contains(b) && pair_ok.ensures((a, b), true) && (near.ensures(
            (a, p),
            true,
        ) || near.ensures((b, p), true))
}

/// `e` is what `fit` returned on some sample of points of `points`.
pub open spec fn fitted_from<P, E, T: Fn(&Vec<P>) -> Option<E>>(fit: T, e: E, points: Seq<P>) -> bool {
    exists|s: Vec<P>|
        #![trigger fit.ensures((&s,), Some(e))]
        (forall|k: int| 0 <= k < s.len() ==> points.contains(#[trigger] s[k])) && fit.ensures(
            (&s,),
            Some(e),
        )
}

/// `pred` gives the same answer whenever it is asked the same question.
pub open spec fn answers_alike<P, E, I: Fn(E, P) -> bool>(pred: I) -> bool {
    forall|e: E, p: P, b1: bool, b2: bool|
        #![trigger pred.ensures((e, p), b1), pred.ensures((e, p), b2)]
        pred.ensures((e, p), b1) && pred.ensures((e, p), b2) ==> b1 == b2
}

/// `fit_enough` never accepts an ellipse that no point supports.
pub open spec fn rejects_no_support<E, S: Fn(E, usize) -> bool>(fit_enough: S) -> bool {
    forall|e: E, b: bool| #[trigger] fit_enough.ensures((e, 0usize), b) ==> !b
}

/// `fit_enough` accepted `e` with some count of inliers.
pub open spec fn accepted<E, S: Fn(E, usize) -> bool>(fit_enough: S, e: E) -> bool {
    exists|c: usize| fit_enough.ensures((e, c), true)
}

/// The number of points of `points` that `inlier` can place on the outline of `e`.
pub open spec fn inlier_count<P, E, I: Fn(E, P) -> bool>(points: Seq<P>, e: E, inlier: I) -> nat
    decreases points.len(),
{
    if points.len() == 0 {
        0
    } else {
        inlier_count(points.drop_last(), e, inlier) + (if inlier.ensures((e, points.last()), true) {
            1nat
        } else {
            0nat
        })
    }
}

/// The points of `points`, in their order, that `inlier` cannot place on the
/// outline of `e`.
pub open spec fn outliers_of<P, E, I: Fn(E, P) -> bool>(points: Seq<P>, e: E, inlier: I) -> Seq<P>
    decreases points.len(),
{
    if points.len() == 0 {
        Seq::empty()
    } else if inlier.ensures((e, points.last()), true) {
        outliers_of(points.drop_last(), e, inlier)
    } else {
        outliers_of(points.drop_last(), e, inlier).push(points.last())
    }
}

/// The points of `points`, in their order, that `near` can place near seed
/// `a` or near seed `b`.
pub open spec fn near_either<P, N: Fn(P, P) -> bool>(points: Seq<P>, a: P, b: P, near: N) -> Seq<P>
    decreases points.len(),
{
    if points.len() == 0 {
        Seq::empty()
    } else if near.ensures((a, points.last()), true) || near.ensures((b, points.last()), true) {
        near_either(points.drop_last(), a, b, near).push(points.last())
    } else {
        near_either(points.drop_last(), a, b, near)
    }
}

/// Peeling leaves nothing to peel: none of the points that remain once the
/// inliers of `e` are removed is an inlier of `e`.
pub proof fn lemma_peeled_points_hold_no_inlier<P, E, I: Fn(E, P) -> bool>(points: Seq<P>, e: E, inlier: I)
    ensures
        inlier_count(outliers_of(points, e, inlier), e, inlier) == 0,
    decreases points.len(),
{
    if points.len() > 0 {
        let rest = outliers_of(points.drop_last(), e, inlier);
        lemma_peeled_points_hold_no_inlier(points.drop_last(), e, inlier);
        if !inlier.ensures((e, points.last()), true) {
            assert(rest.push(points.last()).drop_last() =~= rest);
        }
    }
}

/// Peeling removes exactly the points that are counted as inliers.
pub proof fn lemma_peel_removes_the_counted_inliers<P, E, I: Fn(E, P) -> bool>(points: Seq<P>, e: E, inlier: I)
    ensures
        outliers_of(points, e, inlier).len() + inlier_count(points, e, inlier) == points.len(),
    decreases points.len(),
{
    if points.len() > 0 {
        lemma_peel_removes_the_counted_inliers(points.drop_last(), e, inlier);
    }
}

/// The points of `points` left, in their order, once the inliers of each
/// ellipse of `es` are removed in turn.
pub open spec fn left_after<P, E, I: Fn(E, P) -> bool>(points: Seq<P>, es: Seq<E>, inlier: I) -> Seq<P>
    decreases es.len(),
{
    if es.len() == 0 {
        points
    } else {
        outliers_of(left_after(points, es.drop_last(), inlier), es.last(), inlier)
    }
}

/// Every seed pair is accepted, every fit succeeds and passes the filter, and
/// every count of inliers is fit enough.
pub open spec fn every_test_passes<
    P,
    E,
    G: Fn(P, P) -> bool,
    T: Fn(&Vec<P>) -> Option<E>,
    A: Fn(E) -> bool,
    S: Fn(E, usize) -> bool,
>(pair_ok: G, fit: T, plausible: A, fit_enough: S) -> bool {
    &&& forall|a: P, b: P, x: bool| pair_ok.ensures((a, b), x) ==> x
    &&& forall|s: &Vec<P>, x: Option<E>| fit.ensures((s,), x) ==> x is Some
    &&& forall|e: E, x: bool| plausible.ensures((e,), x) ==> x
    &&& forall|e: E, c: usize, x: bool| fit_enough.ensures((e, c), x) ==> x
}

/// Every pair of `seeds` is a pair of points of `points` that `pair_ok` accepted.
pub open spec fn accepted_seeds<P, G: Fn(P, P) -> bool>(points: Seq<P>, seeds: Seq<(P, P)>, pair_ok: G) -> bool {
    forall|k: int|
        0 <= k < seeds.len() ==> points.contains(#[trigger] seeds[k].0) && points.contains(seeds[k].1)
            && pair_ok.ensures((seeds[k].0, seeds[k].1), true)
}

/// The sample gathered around `seeds`: for each pair in order, the points of
/// `points` near either of its seeds.
pub open spec fn gathered_all<P, N: Fn(P, P) -> bool>(points: Seq<P>, seeds: Seq<(P, P)>, near: N) -> Seq<P>
    decreases seeds.len(),
{
    if seeds.len() == 0 {
        Seq::empty()
    } else {
        gathered_all(points, seeds.drop_last(), near) + near_either(points, seeds.last().0, seeds.last().1, near)
    }
}

/// The number of points of `points` that `inlier` places on the outline of `e`.
pub fn count_inliers<P: Copy, E: Copy, I: Fn(E, P) -> bool>(points: &Vec<P>, e: E, inlier: &I) -> (r: usize)
    requires
        forall|p: P| inlier.requires((e, p)),
    ensures
        r <= points.len(),
        r > 0 ==> exists|k: int| 0 <= k < points.len() && #[trigger] inlier.ensures((e, points[k]), true),
        answers_alike(*inlier) ==> r == inlier_count(points@, e, *inlier),
{
    let mut n: usize = 0;
    let mut i: usize = 0;
    while i < points.len()
        invariant
            n <= i <= points.len(),
            forall|p: P| inlier.requires((e, p)),
            n > 0 ==> exists|k: int| 0 <= k < i && #[trigger] inlier.ensures((e, points[k]), true),
            answers_alike(*inlier) ==> n == inlier_count(points@.subrange(0, i as int), e, *inlier),
        decreases points.len() - i,
    {
        assert(points@.subrange(0, i + 1).drop_last() =~= points@.subrange(0, i as int));
        if inlier(e, points[i]) {
            n = n + 1;
        }
        i = i + 1;
    }
    assert(points@.subrange(0, i as int) =~= points@);
    n
}

/// Appends to `sample` each point of `points` that `near` places near seed
/// `a` or near seed `b`, in their order.
pub fn gather_near<P: Copy, N: Fn(P, P) -> bool>(points: &Vec<P>, a: P, b: P, near: &N, sample: &mut Vec<P>)
    requires
        forall|s: P, p: P| near.requires((s, p)),
    ensures
        final(sample).len() >= old(sample).len(),
        final(sample)@.subrange(0, old(sample).len() as int) == old(sample)@,
        forall|k: int|
            old(sample).len() <= k < final(sample).len() ==> points@.contains(#[trigger] final(sample)[k]),
        forall|k: int|
            old(sample).len() <= k < final(sample).len() ==> near.ensures((a, #[trigger] final(sample)[k]), true)
                || near.ensures((b, final(sample)[k]), true),
        answers_alike(*near) ==> final(sample)@ == old(sample)@ + near_either(points@, a, b, *near),
{
    let ghost start = sample@;
    let mut i: usize = 0;
    while i < points.len()
        invariant
            i <= points.len(),
            forall|s: P, p: P| near.requires((s, p)),
            sample.len() >= start.len(),
            sample@.subrange(0, start.len() as int) == start,
            forall|k: int| start.len() <= k < sample.len() ==> points@.contains(#[trigger] sample[k]),
            forall|k: int|
                start.len() <= k < sample.len() ==> near.ensures((a, #[trigger] sample[k]), true)
                    || near.ensures((b, sample[k]), true),
            answers_alike(*near) ==> sample@ == start + near_either(points@.subrange(0, i as int), a, b, *near),
        decreases points.len() - i,
    {
        let p = points[i];
        assert(points@.subrange(0, i + 1).drop_last() =~= points@.subrange(0, i as int));
        if near(a, p) || near(b, p) {
            sample.push(p);
            assert(sample@.subrange(0, start.len() as int) =~= start);
            assert(sample[sample.len() - 1] == points[i as int]);
            assert(answers_alike(*near) ==> sample@ =~= start + near_either(
                points@.subrange(0, i + 1),
                a,
                b,
                *near,
            ));
        }
        i = i + 1;
    }
    assert(points@.subrange(0, i as int) =~= points@);
}

/// Draws index pairs of `points` until `pair_ok` accepts one, at most
/// `PAIR_ATTEMPTS` times; `None` when every draw was refused.
fn draw_seed_pair<P: Copy, G: Fn(P, P) -> bool>(points: &Vec<P>, rng: &mut fastrand::Rng, pair_ok: &G) -> (r:
    Option<(P, P)>)
    requires
        points.len() > 0,
        forall|a: P, b: P| pair_ok.requires((a, b)),
    ensures
        r matches Some((a, b)) ==> points@.contains(a) && points@.contains(b) && pair_ok.ensures((a, b), true),
        (forall|a: P, b: P, x: bool| pair_ok.ensures((a, b), x) ==> x) ==> r is Some,
{
    let mut attempt: usize = 0;
    while attempt < PAIR_ATTEMPTS
        invariant
            points.len() > 0,
            forall|a: P, b: P| pair_ok.requires((a, b)),
            (forall|a: P, b: P, x: bool| pair_ok.ensures((a, b), x) ==> x) ==> attempt == 0,
        decreases PAIR_ATTEMPTS - attempt,
    {
        let i = draw_index(rng, points.len());
        let j = draw_index(rng, points.len());
        let a = points[i];
        let b = points[j];
        if pair_ok(a, b) {
            assert(points[i as int] == a && points[j as int] == b);
            return Some((a, b));
        }
        attempt = attempt + 1;
    }
    None
}

/// One sample: for each of `SEED_PAIRS` accepted seed pairs, every point of
/// `points` near either seed. `None` when a seed pair could not be found.
pub fn draw_sample<P: Copy, G: Fn(P, P) -> bool, N: Fn(P, P) -> bool>(
    points: &Vec<P>,
    rng: &mut fastrand::Rng,
    pair_ok: &G,
    near: &N,
) -> (r: Option<Vec<P>>)
    requires
        points.len() > 0,
        forall|a: P, b: P| pair_ok.requires((a, b)),
        forall|s: P, p: P| near.requires((s, p)),
    ensures
        r matches Some(s) ==> forall|k: int|
            0 <= k < s.len() ==> gathered_point(points@, *pair_ok, *near, #[trigger] s[k]),
        r matches Some(s) ==> exists|seeds: Seq<(P, P)>|
            seeds.len() == SEED_PAIRS && accepted_seeds(points@, seeds, *pair_ok) && (answers_alike(*near)
                ==> s@ == gathered_all(points@, seeds, *near)),
        (forall|a: P, b: P, x: bool| pair_ok.ensures((a, b), x) ==> x) ==> r is Some,
        (forall|a: P, b: P, x: bool| pair_ok.ensures((a, b), x) ==> !x) ==> r is None,
{
    let mut sample: Vec<P> = Vec::new();
    let mut pairs: usize = 0;
    let ghost mut seeds: Seq<(P, P)> = Seq::empty();
    while pairs < SEED_PAIRS
        invariant
            points.len() > 0,
            forall|a: P, b: P| pair_ok.requires((a, b)),
            forall|s: P, p: P| near.requires((s, p)),
            forall|k: int| 0 <= k < sample.len() ==> gathered_point(points@, *pair_ok, *near, #[trigger] sample[k]),
            pairs <= SEED_PAIRS,
            seeds.len() == pairs,
            accepted_seeds(points@, seeds, *pair_ok),
            answers_alike(*near) ==> sample@ == gathered_all(points@, seeds, *near),
            (forall|a: P, b: P, x: bool| pair_ok.ensures((a, b), x) ==> !x) ==> pairs == 0,
        decreases SEED_PAIRS - pairs,
    {
        match draw_seed_pair(points, rng, pair_ok) {
            None => {
                return None;
            },
            Some((a, b)) => {
                let ghost before = sample@;
                gather_near(points, a, b, near, &mut sample);
                assert forall|k: int| 0 <= k < sample.len() implies gathered_point(
                    points@,
                    *pair_ok,
                    *near,
                    #[trigger] sample[k],
                ) by {
                    if k < before.len() {
                        assert(sample@.subrange(0, before.len() as int)[k] == sample[k]);
                    } else {
                        assert(near.ensures((a, sample[k]), true) || near.ensures((b, sample[k]), true));
                        assert(pair_ok.ensures((a, b), true));
                    }
                }
                proof {
                    let old_seeds = seeds;
                    seeds = seeds.push((a, b));
                    assert(seeds.drop_last() =~= old_seeds);
                    assert forall|k: int| 0 <= k < seeds.len() implies points@.contains(#[trigger] seeds[k].0)
                        && points@.contains(seeds[k].1) && pair_ok.ensures((seeds[k].0, seeds[k].1), true) by {
                        if k < old_seeds.len() {
                            assert(seeds[k] == old_seeds[k]);
                        }
                    }
                }
            },
        }
        pairs = pairs + 1;
    }
    Some(sample)
}

/// The points of `points` that `inlier` does not place on the outline of `e`,
/// in their order.
pub fn peel_inliers<P: Copy, E: Copy, F: Fn(E, P) -> bool>(points: &Vec<P>, e: E, inlier: &F) -> (r: Vec<P>)
    requires
        forall|p: P| inlier.requires((e, p)),
    ensures
        r.len() <= points.len(),
        forall|k: int| 0 <= k < r.len() ==> points@.contains(#[trigger] r[k]),
        forall|k: int| 0 <= k < r.len() ==> inlier.ensures((e, #[trigger] r[k]), false),
        forall|k: int|
            0 <= k < points.len() ==> r@.contains(#[trigger] points[k]) || inlier.ensures(
                (e, points[k]),
                true,
            ),
        answers_alike(*inlier) ==> r@ == outliers_of(points@, e, *inlier),
{
    let mut kept: Vec<P> = Vec::new();
    let mut i: usize = 0;
    while i < points.len()
        invariant
            i <= points.len(),
            kept.len() <= i,
            forall|p: P| inlier.requires((e, p)),
            forall|k: int| 0 <= k < kept.len() ==> points@.contains(#[trigger] kept[k]),
            forall|k: int| 0 <= k < kept.len() ==> inlier.ensures((e, #[trigger] kept[k]), false),
            forall|k: int|
                0 <= k < i ==> kept@.contains(#[trigger] points[k]) || inlier.ensures(
                    (e, points[k]),
                    true,
                ),
            answers_alike(*inlier) ==> kept@ == outliers_of(points@.subrange(0, i as int), e, *inlier),
        decreases points.len() - i,
    {
        let p = points[i];
        assert(points@.subrange(0, i + 1).drop_last() =~= points@.subrange(0, i as int));
        if !inlier(e, p) {
            let ghost before = kept@;
            kept.push(p);
            assert(kept@[kept.len() - 1] == p);
            assert forall|k: int| 0 <= k < i && before.contains(points[k]) implies kept@.contains(
                points[k],
            ) by {
                let j = choose|j: int| 0 <= j < before.len() && before[j] == points[k];
                assert(kept@[j] == points[k]);
            }
        }
        i = i + 1;
    }
    assert(points@.subrange(0, i as int) =~= points@);
    kept
}

/// The candidate of `candidates` to keep: among those that `fit_enough`
/// accepts with their support, the last one that `at_least_as_fit` ranks at
/// least as fit as every earlier such one; `None` when none is accepted.
fn select_fittest<E: Copy, S: Fn(E, usize) -> bool, C: Fn(E, usize, E, usize) -> bool>(
    candidates: &Vec<E>,
    support: &Vec<usize>,
    fit_enough: &S,
    at_least_as_fit: &C,
) -> (r: Option<usize>)
    requires
        candidates.len() == support.len(),
        forall|e: E, c: usize| fit_enough.requires((e, c)),
        forall|e1: E, c1: usize, e2: E, c2: usize| at_least_as_fit.requires((e1, c1, e2, c2)),
    ensures
        r matches Some(i) ==> i < candidates.len() && fit_enough.ensures((candidates[i as int], support[i as int]), true),
        candidates.len() > 0 && (forall|e: E, c: usize, x: bool| fit_enough.ensures((e, c), x) ==> x) ==> r is Some,
        r is None ==> forall|j: int|
            0 <= j < candidates.len() ==> fit_enough.ensures((#[trigger] candidates[j], support[j]), false),
        r matches Some(i) ==> forall|j: int|
            i < j < candidates.len() ==> fit_enough.ensures((#[trigger] candidates[j], support[j]), false)
                || at_least_as_fit.ensures((candidates[j], support[j], candidates[i as int], support[i as int]), false),
{
    let mut best: Option<usize> = None;
    let mut i: usize = 0;
    while i < candidates.len()
        invariant
            i <= candidates.len(),
            candidates.len() == support.len(),
            forall|e: E, c: usize| fit_enough.requires((e, c)),
            forall|e1: E, c1: usize, e2: E, c2: usize| at_least_as_fit.requires((e1, c1, e2, c2)),
            best matches Some(b) ==> b < i && fit_enough.ensures((candidates[b as int], support[b as int]), true),
            i > 0 && (forall|e: E, c: usize, x: bool| fit_enough.ensures((e, c), x) ==> x) ==> best is Some,
            best is None ==> forall|j: int|
                0 <= j < i ==> fit_enough.ensures((#[trigger] candidates[j], support[j]), false),
            best matches Some(b) ==> forall|j: int|
                b < j < i ==> fit_enough.ensures((#[trigger] candidates[j], support[j]), false)
                    || at_least_as_fit.ensures(
                    (candidates[j], support[j], candidates[b as int], support[b as int]),
                    false,
                ),
        decreases candidates.len() - i,
    {
        if fit_enough(candidates[i], support[i]) {
            match best {
                None => {
                    best = Some(i);
                },
                Some(b) => {
                    if at_least_as_fit(candidates[i], support[i], candidates[b], support[b]) {
                        best = Some(i);
                    }
                },
            }
        }
        i = i + 1;
    }
    best
}

/// Finds the ellipses on one contour by random sampling and consensus.
///
/// Nothing is found when the contour's centroid lies outside the detection
/// ring (`centroid_in_range` is false) or the contour has fewer than
/// `MIN_POINTS` points. Otherwise rounds run on the points that remain, all of
/// the contour at first. A round draws `SAMPLES_PER_ROUND` samples (see
/// `draw_sample`; a sample whose seed pair cannot be found is skipped), fits
/// each with `fit`, keeps the fits that `plausible` accepts, and counts each
/// one's inliers among the remaining points. Of the candidates that
/// `fit_enough` accepts with their count, the fittest by `at_least_as_fit`
/// (the later one on ties) is appended to the result and its inliers are
/// removed. Rounds stop when fewer than `MIN_POINTS` points remain, when no
/// candidate is accepted, or when a round removed no point.
///
/// The predicates: `pair_ok(a, b)` accepts two seed points as a pair (their
/// distance lies strictly between two and ten sampling radii); `near(seed, p)`
/// places `p` within the sampling radius of `seed`; `fit` fits an ellipse to
/// a sample or fails; `plausible` is the filter on length, width and aspect
/// ratio; `inlier(e, p)` places `p` within the inlier distance of the outline
/// of `e`; `fit_enough(e, c)` says whether `c` inliers give `e` the minimum
/// fitness; `at_least_as_fit(e1, c1, e2, c2)` ranks `e1` with `c1` inliers at
/// least as fit as `e2` with `c2`.
#[verifier::rlimit(50)]
pub fn robust_fit_ellipse<
    P: Copy,
    E: Copy,
    G: Fn(P, P) -> bool,
    N: Fn(P, P) -> bool,
    T: Fn(&Vec<P>) -> Option<E>,
    A: Fn(E) -> bool,
    I: Fn(E, P) -> bool,
    S: Fn(E, usize) -> bool,
    C: Fn(E, usize, E, usize) -> bool,
>(
    cont: &Vec<P>,
    centroid_in_range: bool,
    rng: &mut fastrand::Rng,
    pair_ok: G,
    near: N,
    fit: T,
    plausible: A,
    inlier: I,
    fit_enough: S,
    at_least_as_fit: C,
) -> (r: Vec<E>)
    requires
        forall|a: P, b: P| pair_ok.requires((a, b)),
        forall|s: P, p: P| near.requires((s, p)),
        forall|s: &Vec<P>| fit.requires((s,)),
        forall|e: E| plausible.requires((e,)),
        forall|e: E, p: P| inlier.requires((e, p)),
        forall|e: E, c: usize| fit_enough.requires((e, c)),
        forall|e1: E, c1: usize, e2: E, c2: usize| at_least_as_fit.requires((e1, c1, e2, c2)),
    ensures
        !centroid_in_range ==> r.len() == 0,
        cont.len() < MIN_POINTS ==> r.len() == 0,
        r.len() <= cont.len(),
        forall|i: int| 0 <= i < r.len() ==> plausible.ensures((#[trigger] r[i],), true),
        forall|i: int| 0 <= i < r.len() ==> fitted_from(fit, #[trigger] r[i], cont@),
        forall|i: int| 0 <= i < r.len() ==> accepted(fit_enough, #[trigger] r[i]),
        answers_alike(inlier) && rejects_no_support(fit_enough) ==> forall|i: int, j: int|
            0 <= i < j < r.len() ==> r[i] != r[j],
        centroid_in_range && cont.len() >= MIN_POINTS && (forall|a: P, b: P, x: bool| pair_ok.ensures((a, b), x) ==> x)
            && (forall|s: &Vec<P>, x: Option<E>| fit.ensures((s,), x) ==> x is Some)
            && (forall|e: E, x: bool| plausible.ensures((e,), x) ==> x)
            && (forall|e: E, c: usize, x: bool| fit_enough.ensures((e, c), x) ==> x) ==> r.len() >= 1,
        (forall|e: E, p: P, x: bool| inlier.ensures((e, p), x) ==> x) ==> r.len() <= 1,
        answers_alike(inlier) && rejects_no_support(fit_enough) ==> forall|i: int|
            0 <= i < r.len() ==> inlier_count(left_after(cont@, r@.take(i), inlier), #[trigger] r[i], inlier) > 0,
        !centroid_in_range ==> *final(rng) == *old(rng),
        r.len() > 0 ==> r.len() + MIN_POINTS <= cont.len() + 1,
        (forall|a: P, b: P, x: bool| pair_ok.ensures((a, b), x) ==> !x) ==> r.len() == 0,
        forall|e: E| (forall|x: bool| plausible.ensures((e,), x) ==> !x) ==> !r@.contains(e),
        answers_alike(inlier) ==> forall|i: int|
            0 <= i < r.len() ==> fit_enough.ensures(
                (#[trigger] r[i], inlier_count(left_after(cont@, r@.take(i), inlier), r[i], inlier) as usize),
                true,
            ),
        centroid_in_range && answers_alike(inlier) && every_test_passes(pair_ok, fit, plausible, fit_enough)
            ==> left_after(cont@, r@, inlier).len() < MIN_POINTS || (r.len() > 0 && left_after(
            cont@,
            r@,
            inlier,
        ).len() == left_after(cont@, r@.drop_last(), inlier).len()),
{
    let mut found: Vec<E> = Vec::new();
    if !centroid_in_range {
        return found;
    }
    let mut remaining: Vec<P> = Vec::new();
    let mut i: usize = 0;
    while i < cont.len()
        invariant
            i <= cont.len(),
            remaining@ == cont@.subrange(0, i as int),
        decreases cont.len() - i,
    {
        remaining.push(cont[i]);
        i = i + 1;
    }
    assert(remaining@ =~= cont@);
    loop
        invariant_except_break
            found.len() + remaining.len() <= cont.len(),
        invariant
            forall|a: P, b: P| pair_ok.requires((a, b)),
            forall|s: P, p: P| near.requires((s, p)),
            forall|s: &Vec<P>| fit.requires((s,)),
            forall|e: E| plausible.requires((e,)),
            forall|e: E, p: P| inlier.requires((e, p)),
            forall|e: E, c: usize| fit_enough.requires((e, c)),
            forall|e1: E, c1: usize, e2: E, c2: usize| at_least_as_fit.requires((e1, c1, e2, c2)),
            cont.len() < MIN_POINTS ==> found.len() == 0,
            forall|k: int| 0 <= k < remaining.len() ==> cont@.contains(#[trigger] remaining[k]),
            forall|i: int| 0 <= i < found.len() ==> plausible.ensures((#[trigger] found[i],), true),
            forall|i: int| 0 <= i < found.len() ==> fitted_from(fit, #[trigger] found[i], cont@),
            forall|i: int| 0 <= i < found.len() ==> accepted(fit_enough, #[trigger] found[i]),
            forall|i: int, k: int|
                0 <= i < found.len() && 0 <= k < remaining.len() ==> inlier.ensures(
                    (#[trigger] found[i], #[trigger] remaining[k]),
                    false,
                ),
            answers_alike(inlier) && rejects_no_support(fit_enough) ==> forall|i: int, j: int|
                0 <= i < j < found.len() ==> found[i] != found[j],
            cont.len() >= MIN_POINTS && (forall|a: P, b: P, x: bool| pair_ok.ensures((a, b), x) ==> x)
                && (forall|s: &Vec<P>, x: Option<E>| fit.ensures((s,), x) ==> x is Some)
                && (forall|e: E, x: bool| plausible.ensures((e,), x) ==> x)
                && (forall|e: E, c: usize, x: bool| fit_enough.ensures((e, c), x) ==> x) ==> found.len() >= 1 || remaining@ == cont@,
            (forall|e: E, p: P, x: bool| inlier.ensures((e, p), x) ==> x) ==> found.len() == 0 || (found.len()
                == 1 && remaining.len() == 0),
            found.len() > 0 ==> found.len() + MIN_POINTS <= cont.len() + 1,
            (forall|a: P, b: P, x: bool| pair_ok.ensures((a, b), x) ==> !x) ==> found.len() == 0,
            answers_alike(inlier) && rejects_no_support(fit_enough) ==> forall|i: int|
                0 <= i < found.len() ==> inlier_count(
                    left_after(cont@, found@.take(i), inlier),
                    #[trigger] found[i],
                    inlier,
                ) > 0,
            answers_alike(inlier) ==> remaining@ == left_after(cont@, found@, inlier),
            answers_alike(inlier) ==> forall|i: int|
                0 <= i < found.len() ==> fit_enough.ensures(
                    (
                        #[trigger] found[i],
                        inlier_count(left_after(cont@, found@.take(i), inlier), found[i], inlier) as usize,
                    ),
                    true,
                ),
        ensures
            found.len() > 0 ==> found.len() + MIN_POINTS <= cont.len() + 1,
            answers_alike(inlier) && every_test_passes(pair_ok, fit, plausible, fit_enough)
                ==> remaining.len() < MIN_POINTS || (found.len() > 0 && remaining.len() == left_after(
                cont@,
                found@.drop_last(),
                inlier,
            ).len()),
            found.len() <= cont.len(),
            cont.len() < MIN_POINTS ==> found.len() == 0,
            cont.len() >= MIN_POINTS && (forall|a: P, b: P, x: bool| pair_ok.ensures((a, b), x) ==> x)
                && (forall|s: &Vec<P>, x: Option<E>| fit.ensures((s,), x) ==> x is Some)
                && (forall|e: E, x: bool| plausible.ensures((e,), x) ==> x)
                && (forall|e: E, c: usize, x: bool| fit_enough.ensures((e, c), x) ==> x) ==> found.len() >= 1,
            (forall|e: E, p: P, x: bool| inlier.ensures((e, p), x) ==> x) ==> found.len() <= 1,
        decreases remaining.len(),
    {
        if remaining.len() < MIN_POINTS {
            break;
        }
        let mut candidates: Vec<E> = Vec::new();
        let mut n: usize = 0;
        while n < SAMPLES_PER_ROUND
            invariant
                remaining.len() >= MIN_POINTS,
                forall|a: P, b: P| pair_ok.requires((a, b)),
                forall|s: P, p: P| near.requires((s, p)),
                forall|s: &Vec<P>| fit.requires((s,)),
                forall|e: E| plausible.requires((e,)),
                forall|k: int| 0 <= k < remaining.len() ==> cont@.contains(#[trigger] remaining[k]),
                candidates.len() <= n <= SAMPLES_PER_ROUND,
                forall|i: int| 0 <= i < candidates.len() ==> plausible.ensures((#[trigger] candidates[i],), true),
                forall|i: int| 0 <= i < candidates.len() ==> fitted_from(fit, #[trigger] candidates[i], cont@),
                (forall|a: P, b: P, x: bool| pair_ok.ensures((a, b), x) ==> x) && (forall|
                    s: &Vec<P>,
                    x: Option<E>,
                | fit.ensures((s,), x) ==> x is Some) && (forall|e: E, x: bool| plausible.ensures((e,), x) ==> x)
                    ==> candidates.len() == n,
                (forall|a: P, b: P, x: bool| pair_ok.ensures((a, b), x) ==> !x) ==> candidates.len() == 0,
            decreases SAMPLES_PER_ROUND - n,
        {
            if let Some(sample) = draw_sample(&remaining, rng, &pair_ok, &near) {
                if let Some(e) = fit(&sample) {
                    if plausible(e) {
                        assert forall|k: int| 0 <= k < sample.len() implies cont@.contains(
                            #[trigger] sample[k],
                        ) by {
                            assert(gathered_point(remaining@, pair_ok, near, sample[k]));
                            let m = choose|m: int| 0 <= m < remaining.len() && remaining[m] == sample[k];
                            assert(cont@.contains(remaining[m]));
                        }
                        assert(fitted_from(fit, e, cont@));
                        candidates.push(e);
                        assert(candidates[candidates.len() - 1] == e);
                    }
                }
            }
            n = n + 1;
        }
        let mut support: Vec<usize> = Vec::new();
        let mut m: usize = 0;
        while m < candidates.len()
            invariant
                m <= candidates.len(),
                support.len() == m,
                forall|e: E, p: P| inlier.requires((e, p)),
                forall|i: int|
                    0 <= i < m ==> (support[i] > 0 ==> exists|k: int|
                        0 <= k < remaining.len() && #[trigger] inlier.ensures(
                            (candidates[i], remaining[k]),
                            true,
                        )),
                answers_alike(inlier) ==> forall|i: int|
                    0 <= i < m ==> support[i] == inlier_count(remaining@, #[trigger] candidates[i], inlier),
            decreases candidates.len() - m,
        {
            let c = count_inliers(&remaining, candidates[m], &inlier);
            support.push(c);
            m = m + 1;
        }
        let best = match select_fittest(&candidates, &support, &fit_enough, &at_least_as_fit) {
            None => {
                break;
            },
            Some(b) => b,
        };
        let e = candidates[best];
        let rest = peel_inliers(&remaining, e, &inlier);
        if rest.len() > 0 {
            assert(inlier.ensures((e, rest[0]), false));
        }
        proof {
            if answers_alike(inlier) && rejects_no_support(fit_enough) {
                assert(support[best as int] > 0);
                let k = choose|k: int|
                    0 <= k < remaining.len() && #[trigger] inlier.ensures((e, remaining[k]), true);
                assert forall|i: int| 0 <= i < found.len() implies found[i] != e by {
                    assert(inlier.ensures((found[i], remaining[k]), false));
                }
            }
        }
        let ghost before = found@;
        found.push(e);
        assert(found@ == before.push(e));
        proof {
            assert(found@.drop_last() =~= before);
            if answers_alike(inlier) {
                assert(found@.take(before.len() as int) =~= before);
                assert forall|i: int| 0 <= i < found.len() implies fit_enough.ensures(
                    (
                        #[trigger] found[i],
                        inlier_count(left_after(cont@, found@.take(i), inlier), found[i], inlier) as usize,
                    ),
                    true,
                ) by {
                    if i < before.len() {
                        assert(found@.take(i) =~= before.take(i));
                        assert(found[i] == before[i]);
                    } else {
                        assert(support[best as int] == inlier_count(remaining@, e, inlier));
                    }
                }
                if rejects_no_support(fit_enough) {
                    assert forall|i: int| 0 <= i < found.len() implies inlier_count(
                        left_after(cont@, found@.take(i), inlier),
                        #[trigger] found[i],
                        inlier,
                    ) > 0 by {
                        if i < before.len() {
                            assert(found@.take(i) =~= before.take(i));
                            assert(found[i] == before[i]);
                        } else {
                            assert(support[best as int] > 0);
                        }
                    }
                }
                assert(rest@ == left_after(cont@, found@, inlier));
            }
        }
        assert(fit_enough.ensures((found[found.len() - 1], support[best as int]), true));
        assert forall|i: int| 0 <= i < found.len() implies accepted(fit_enough, #[trigger] found[i]) by {
            if i < before.len() {
                assert(found[i] == before[i]);
            } else {
                assert(fit_enough.ensures((found[i], support[best as int]), true));
            }
        }
        assert forall|i: int, k: int| 0 <= i < found.len() && 0 <= k < rest.len() implies inlier.ensures(
            (#[trigger] found[i], #[trigger] rest[k]),
            false,
        ) by {
            if i < before.len() {
                let m = choose|m: int| 0 <= m < remaining.len() && remaining[m] == rest[k];
                assert(inlier.ensures((found[i], remaining[m]), false));
            }
        }
        assert forall|k: int| 0 <= k < rest.len() implies cont@.contains(#[trigger] rest[k]) by {
            let m = choose|m: int| 0 <= m < remaining.len() && remaining[m] == rest[k];
            assert(cont@.contains(remaining[m]));
        }
        let removed_none = rest.len() == remaining.len();
        remaining = rest;
        if removed_none {
            break;
        }
    }
    found
}

/// The contours, in their order, whose point count lies within
/// `[min_points, max_points]`, bounds included.
pub fn filter_contours_by_length<P>(contours: Vec<Vec<P>>, min_points: usize, max_points: usize) -> (r: Vec<
    Vec<P>,
>)
    ensures
        r@ == contours@.filter(|c: Vec<P>| min_points <= c.len() <= max_points),
{
    let ghost all = contours@;
    let ghost pred = |c: Vec<P>| min_points <= c.len() <= max_points;
    let mut kept: Vec<Vec<P>> = Vec::new();
    for c in it: contours
        invariant
            it.seq() == all,
            pred == (|c: Vec<P>| min_points <= c.len() <= max_points),
            kept@ == all.subrange(0, it.index() as int).filter(pred),
    {
        let ghost i = it.index() as int;
        proof {
            assert(all.subrange(0, i + 1) =~= all.subrange(0, i) + seq![all[i]]);
            Seq::filter_distributes_over_add(all.subrange(0, i), seq![all[i]], pred);
            reveal_with_fuel(Seq::filter, 2);
            assert(seq![all[i]].drop_last() =~= Seq::<Vec<P>>::empty());
            assert(c == all[i]);
            if pred(all[i]) {
                assert(seq![all[i]].filter(pred) =~= seq![all[i]]);
            } else {
                assert(seq![all[i]].filter(pred) =~= Seq::<Vec<P>>::empty());
            }
        }
        let ghost before = kept@;
        let n = c.len();
        if min_points <= n && n <= max_points {
            kept.push(c);
            assert(pred(all[i]));
            assert(kept@ =~= before + seq![all[i]]);
        } else {
            assert(!pred(all[i]));
            assert(kept@ =~= before + Seq::<Vec<P>>::empty());
        }
    }
    assert(all.subrange(0, all.len() as int) =~= all);
    kept
}

} // verus!
