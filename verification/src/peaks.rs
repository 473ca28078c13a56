use crate::image::{lemma_index_in_bounds, lemma_place_of_index, luminances, Grid, Image};
use crate::scalar::{zero, Luminance, Scalar};
use crate::sort::{is_ordering, ordering, precedes, stable_order};
use vstd::prelude::*;

verus! {

/// Those of the first `n` cells that are brighter than zero, in the order in
/// which they stand.
pub open spec fn positive_values<S: Scalar>(cells: Seq<S>, n: nat) -> Seq<S>
    decreases n,
{
    if n == 0 {
        Seq::empty()
    } else {
        let rest = positive_values(cells, (n - 1) as nat);
        if cells[n - 1].rank() > zero::<S>().rank() {
            rest.push(cells[n - 1])
        } else {
            rest
        }
    }
}

/// The place, among `count` values in ascending order, of the value at the
/// given share of the way from the first to the last: the whole part of
/// `(count - 1) * numerator / denominator`.
pub open spec fn threshold_place(count: nat, numerator: u64, denominator: u64) -> int {
    ((count - 1) * numerator) / (denominator as int)
}

/// The adaptive threshold of a grid: the positive brightness that stands at
/// the given share of the way through all positive brightness in ascending
/// order, or zero where nothing is positive.
pub open spec fn adaptive_threshold<S: Scalar>(
    grid: Grid<S>,
    numerator: u64,
    denominator: u64,
) -> S {
    let positive = positive_values(grid.cells, grid.cells.len());
    if positive.len() == 0 {
        zero()
    } else {
        positive[ordering(positive, false)[threshold_place(
            positive.len(),
            numerator,
            denominator,
        )] as int]
    }
}

/// Every one of the positive values is brighter than zero, and is one of
/// the cells.
pub proof fn lemma_positive_values_are_positive<S: Scalar>(cells: Seq<S>, n: nat, m: int)
    requires
        n <= cells.len(),
        0 <= m < positive_values(cells, n).len(),
    ensures
        positive_values(cells, n)[m].rank() > zero::<S>().rank(),
        cells.contains(positive_values(cells, n)[m]),
    decreases n,
{
    let rest = positive_values(cells, (n - 1) as nat);
    if m < rest.len() {
        lemma_positive_values_are_positive(cells, (n - 1) as nat, m);
    } else {
        assert(cells[n - 1] == positive_values(cells, n)[m]);
    }
}

/// The place is one of the `count` places.
pub proof fn lemma_threshold_place_in_range(count: nat, numerator: u64, denominator: u64)
    requires
        count > 0,
        denominator > 0,
        numerator <= denominator,
    ensures
        0 <= threshold_place(count, numerator, denominator) < count,
{
    let c = (count - 1) as int;
    let n = numerator as int;
    let d = denominator as int;
    assert(0 <= c * n <= c * d) by (nonlinear_arith)
        requires
            0 <= c,
            0 <= n <= d,
    ;
    vstd::arithmetic::div_mod::lemma_div_is_ordered(c * n, c * d, d);
    vstd::arithmetic::div_mod::lemma_div_multiples_vanish(c, d);
    vstd::arithmetic::div_mod::lemma_div_pos_is_pos(c * n, d);
    assert(c * d == d * c) by (nonlinear_arith);
}

/// The adaptive threshold of an image.
///
/// The share is `numerator / denominator`, between 0 and 1. Where no sample
/// is brighter than zero the threshold is zero.
pub fn compute_adaptive_threshold<In: Luminance>(
    image: &Image<In>,
    numerator: u64,
    denominator: u64,
) -> (threshold: In::Value)
    requires
        denominator > 0,
        numerator <= denominator,
    ensures
        threshold == adaptive_threshold(luminances(image), numerator, denominator),
        threshold.rank() >= zero::<In::Value>().rank(),
        threshold == zero::<In::Value>() || luminances(image).cells.contains(threshold),
{
    let ghost cells = luminances(image).cells;
    let nought = In::Value::from_usize(0);
    let mut values: Vec<In::Value> = Vec::new();
    let mut i: usize = 0;
    while i < image.pixels.len()
        invariant
            i <= image.pixels@.len(),
            cells == luminances(image).cells,
            nought == zero::<In::Value>(),
            values@ == positive_values(cells, i as nat),
        decreases image.pixels@.len() - i,
    {
        let v = image.pixels[i].luminance();
        if !v.le(nought) {
            values.push(v);
        }
        i += 1;
    }
    if values.len() == 0 {
        return nought;
    }
    let order = stable_order(&values, false);
    proof {
        lemma_threshold_place_in_range(values@.len(), numerator, denominator);
    }
    let last: u128 = (values.len() - 1) as u128;
    assert(last * numerator <= 0xffff_ffff_ffff_ffff * 0xffff_ffff_ffff_ffff) by (nonlinear_arith)
        requires
            0 <= last <= 0xffff_ffff_ffff_ffff,
            0 <= numerator <= 0xffff_ffff_ffff_ffff,
    ;
    let place: u128 = last * (numerator as u128) / (denominator as u128);
    let place: usize = place as usize;
    proof {
        lemma_positive_values_are_positive(cells, cells.len(), order@[place as int] as int);
    }
    values[order[place]]
}

/// Whether the cell at index `i` is a peak: as bright as the largest in its
/// neighbourhood, and no darker than the threshold.
pub open spec fn is_peak<S: Scalar>(image: Grid<S>, max: Grid<S>, threshold: S, i: int) -> bool {
    image.cells[i].rank() == max.cells[i].rank() && max.cells[i].rank() >= threshold.rank()
}

/// Whether the cell in column `x` of row `y` is a peak.
pub open spec fn is_peak_at<S: Scalar>(
    image: Grid<S>,
    max: Grid<S>,
    threshold: S,
    x: int,
    y: int,
) -> bool {
    is_peak(image, max, threshold, y * image.width + x)
}

/// The peaks among the first `n` cells, in the order in which they stand:
/// of each its column, its row and its brightness.
pub open spec fn peak_candidates<S: Scalar>(
    image: Grid<S>,
    max: Grid<S>,
    threshold: S,
    n: nat,
) -> Seq<(usize, usize, S)>
    decreases n,
{
    if n == 0 {
        Seq::empty()
    } else {
        let rest = peak_candidates(image, max, threshold, (n - 1) as nat);
        let i = n - 1;
        if is_peak(image, max, threshold, i) {
            rest.push(
                ((i % (image.width as int)) as usize, (i / (image.width as int)) as usize, max.cells[i]),
            )
        } else {
            rest
        }
    }
}

/// The brightness of each point.
pub open spec fn brightness_of<S>(points: Seq<(usize, usize, S)>) -> Seq<S> {
    Seq::new(points.len(), |i: int| points[i].2)
}

/// The feature points of an image: its peaks, the brightest first, peaks of
/// like brightness in the order in which they stand in the image.
pub open spec fn peaks<S: Scalar>(
    image: Grid<S>,
    max: Grid<S>,
    numerator: u64,
    denominator: u64,
) -> Seq<(usize, usize, S)> {
    let threshold = adaptive_threshold(image, numerator, denominator);
    let candidates = peak_candidates(image, max, threshold, image.cells.len());
    let order = ordering(brightness_of(candidates), true);
    Seq::new(candidates.len(), |i: int| candidates[order[i] as int])
}

/// The index of the place of a point in a raster of the given width, stored
/// row by row.
pub open spec fn place_of<S>(point: (usize, usize, S), width: nat) -> int {
    point.1 * width + point.0
}

/// Every candidate is a place of the grid, holds the brightness of the
/// dilated grid at that place, and passes both tests of a peak.
pub proof fn lemma_candidates_are_peaks<S: Scalar>(
    image: Grid<S>,
    max: Grid<S>,
    threshold: S,
    n: nat,
    m: int,
)
    requires
        image.well_formed(),
        max.well_formed(),
        image.width == max.width,
        image.height == max.height,
        image.width <= usize::MAX,
        image.height <= usize::MAX,
        n <= image.cells.len(),
        0 <= m < peak_candidates(image, max, threshold, n).len(),
    ensures
        ({
            let c = peak_candidates(image, max, threshold, n)[m];
            &&& c.0 < image.width
            &&& c.1 < image.height
            &&& 0 <= place_of(c, image.width) < n
            &&& is_peak(image, max, threshold, place_of(c, image.width))
            &&& c.2 == max.at(c.0 as int, c.1 as int)
            &&& image.at(c.0 as int, c.1 as int).rank() == c.2.rank()
            &&& c.2.rank() >= threshold.rank()
        }),
    decreases n,
{
    let rest = peak_candidates(image, max, threshold, (n - 1) as nat);
    if m < rest.len() {
        lemma_candidates_are_peaks(image, max, threshold, (n - 1) as nat, m);
    } else {
        let i = n - 1;
        let w = image.width as int;
        let h = image.height as int;
        assert(w > 0) by (nonlinear_arith)
            requires
                0 <= i < w * h,
                w >= 0,
        ;
        vstd::arithmetic::div_mod::lemma_fundamental_div_mod(i, w);
        vstd::arithmetic::div_mod::lemma_mod_bound(i, w);
        vstd::arithmetic::div_mod::lemma_div_pos_is_pos(i, w);
        assert(i / w < h) by (nonlinear_arith)
            requires
                i == w * (i / w) + i % w,
                0 <= i % w < w,
                i < w * h,
                0 <= i / w,
        ;
        assert((i / w) * w + i % w == i) by (nonlinear_arith)
            requires
                i == w * (i / w) + i % w,
        ;
    }
}

/// The candidates stand in the order of their places in the image.
pub proof fn lemma_candidates_stand_in_order<S: Scalar>(
    image: Grid<S>,
    max: Grid<S>,
    threshold: S,
    n: nat,
    a: int,
    b: int,
)
    requires
        image.well_formed(),
        max.well_formed(),
        image.width == max.width,
        image.height == max.height,
        image.width <= usize::MAX,
        image.height <= usize::MAX,
        n <= image.cells.len(),
        0 <= a < b < peak_candidates(image, max, threshold, n).len(),
    ensures
        place_of(peak_candidates(image, max, threshold, n)[a], image.width) < place_of(
            peak_candidates(image, max, threshold, n)[b],
            image.width,
        ),
    decreases n,
{
    let rest = peak_candidates(image, max, threshold, (n - 1) as nat);
    if b < rest.len() {
        lemma_candidates_stand_in_order(image, max, threshold, (n - 1) as nat, a, b);
    } else {
        lemma_candidates_are_peaks(image, max, threshold, (n - 1) as nat, a);
        let i = n - 1;
        let w = image.width as int;
        assert(w > 0) by (nonlinear_arith)
            requires
                0 <= i < w * image.height,
                w >= 0,
        ;
        vstd::arithmetic::div_mod::lemma_fundamental_div_mod(i, w);
        vstd::arithmetic::div_mod::lemma_mod_bound(i, w);
        vstd::arithmetic::div_mod::lemma_div_pos_is_pos(i, w);
        assert(i / w < image.height) by (nonlinear_arith)
            requires
                i == w * (i / w) + i % w,
                0 <= i % w < w,
                i < w * image.height,
                0 <= i / w,
        ;
        assert((i / w) * w + i % w == i) by (nonlinear_arith)
            requires
                i == w * (i / w) + i % w,
        ;
        assert(place_of(peak_candidates(image, max, threshold, n)[b], image.width) == i);
    }
}

/// Every peak among the first `n` cells is a candidate.
pub proof fn lemma_every_peak_is_a_candidate<S: Scalar>(
    image: Grid<S>,
    max: Grid<S>,
    threshold: S,
    n: nat,
    i: int,
)
    requires
        image.well_formed(),
        max.well_formed(),
        image.width == max.width,
        image.height == max.height,
        image.width <= usize::MAX,
        image.height <= usize::MAX,
        n <= image.cells.len(),
        0 <= i < n,
        is_peak(image, max, threshold, i),
    ensures
        exists|m: int|
            0 <= m < peak_candidates(image, max, threshold, n).len() && place_of(
                #[trigger] peak_candidates(image, max, threshold, n)[m],
                image.width,
            ) == i,
    decreases n,
{
    let rest = peak_candidates(image, max, threshold, (n - 1) as nat);
    let all = peak_candidates(image, max, threshold, n);
    if i < n - 1 {
        lemma_every_peak_is_a_candidate(image, max, threshold, (n - 1) as nat, i);
        let m = choose|m: int|
            0 <= m < rest.len() && place_of(#[trigger] rest[m], image.width) == i;
        assert(all[m] == rest[m]);
    } else {
        let m = rest.len() as int;
        let w = image.width as int;
        assert(w > 0) by (nonlinear_arith)
            requires
                0 <= i < w * image.height,
                w >= 0,
        ;
        vstd::arithmetic::div_mod::lemma_fundamental_div_mod(i, w);
        vstd::arithmetic::div_mod::lemma_mod_bound(i, w);
        vstd::arithmetic::div_mod::lemma_div_pos_is_pos(i, w);
        assert(i / w < image.height) by (nonlinear_arith)
            requires
                i == w * (i / w) + i % w,
                0 <= i % w < w,
                i < w * image.height,
                0 <= i / w,
        ;
        assert((i / w) * w + i % w == i) by (nonlinear_arith)
            requires
                i == w * (i / w) + i % w,
        ;
        assert(place_of(all[m], image.width) == i);
    }
}

/// The feature points of an image, given the image and its dilation.
///
/// A sample is a peak where it is as bright as the dilated image at its
/// place and no darker than the adaptive threshold of the image. Every peak
/// is returned, once, with its column, its row and its brightness. The peaks
/// come with the brightest first; peaks of like brightness come in the order
/// in which they stand in the image.
pub fn peak_local_max<In1, In2>(
    image: &Image<In1>,
    max: &Image<In2>,
    numerator: u64,
    denominator: u64,
) -> (points: Vec<(usize, usize, In1::Value)>) where
    In1: Luminance,
    In2: Luminance<Value = In1::Value>,

    requires
        image.well_formed(),
        max.well_formed(),
        image.width == max.width,
        image.height == max.height,
        denominator > 0,
        numerator <= denominator,
    ensures
        points@ == peaks(luminances(image), luminances(max), numerator, denominator),
        forall|i: int|
            0 <= i < points@.len() ==> {
                let p = #[trigger] points@[i];
                &&& p.0 < image.width
                &&& p.1 < image.height
                &&& p.2 == luminances(max).at(p.0 as int, p.1 as int)
                &&& luminances(image).at(p.0 as int, p.1 as int).rank() == p.2.rank()
                &&& p.2.rank() >= adaptive_threshold(
                    luminances(image),
                    numerator,
                    denominator,
                ).rank()
            },
        forall|i: int, j: int|
            0 <= i < j < points@.len() ==> {
                let p = #[trigger] points@[i];
                let q = #[trigger] points@[j];
                p.2.rank() > q.2.rank() || (p.2.rank() == q.2.rank() && place_of(
                    p,
                    image.width as nat,
                ) < place_of(q, image.width as nat))
            },
        forall|x: int, y: int|
            0 <= x < image.width && 0 <= y < image.height && #[trigger] is_peak_at(
                luminances(image),
                luminances(max),
                adaptive_threshold(luminances(image), numerator, denominator),
                x,
                y,
            ) ==> exists|i: int|
                0 <= i < points@.len() && #[trigger] points@[i] == (
                    x as usize,
                    y as usize,
                    luminances(max).at(x, y),
                ),
{
    let ghost grid = luminances(image);
    let ghost top = luminances(max);
    let threshold = compute_adaptive_threshold(image, numerator, denominator);
    let width: usize = image.width;
    let mut candidates: Vec<(usize, usize, In1::Value)> = Vec::new();
    let mut values: Vec<In1::Value> = Vec::new();
    let mut i: usize = 0;
    while i < image.pixels.len()
        invariant
            image.well_formed(),
            max.well_formed(),
            image.width == max.width,
            image.height == max.height,
            width == image.width,
            grid == luminances(image),
            top == luminances(max),
            i <= image.pixels@.len(),
            candidates@ == peak_candidates(grid, top, threshold, i as nat),
            values@ == brightness_of(candidates@),
        decreases image.pixels@.len() - i,
    {
        assert(width > 0) by (nonlinear_arith)
            requires
                0 <= i < width * image.height,
        ;
        let in_l = image.pixels[i].luminance();
        let max_l = max.pixels[i].luminance();
        if in_l.le(max_l) && max_l.le(in_l) && threshold.le(max_l) {
            candidates.push((i % width, i / width, max_l));
            values.push(max_l);
            assert(values@ =~= brightness_of(candidates@));
        }
        i += 1;
    }
    let order = stable_order(&values, true);
    let mut points: Vec<(usize, usize, In1::Value)> = Vec::new();
    let mut k: usize = 0;
    while k < order.len()
        invariant
            order@.len() == candidates@.len(),
            values@ == brightness_of(candidates@),
            is_ordering(order@, values@, true),
            k <= order@.len(),
            points@.len() == k,
            forall|t: int| 0 <= t < k ==> points@[t] == candidates@[order@[t] as int],
        decreases order@.len() - k,
    {
        points.push(candidates[order[k]]);
        k += 1;
    }
    proof {
        assert(points@ =~= peaks(grid, top, numerator, denominator));
        assert forall|a: int| 0 <= a < points@.len() implies {
            let p = #[trigger] points@[a];
            &&& p.0 < image.width
            &&& p.1 < image.height
            &&& p.2 == top.at(p.0 as int, p.1 as int)
            &&& grid.at(p.0 as int, p.1 as int).rank() == p.2.rank()
            &&& p.2.rank() >= threshold.rank()
        } by {
            lemma_candidates_are_peaks(
                grid,
                top,
                threshold,
                grid.cells.len(),
                order@[a] as int,
            );
        }
        assert forall|a: int, b: int| 0 <= a < b < points@.len() implies {
            let p = #[trigger] points@[a];
            let q = #[trigger] points@[b];
            p.2.rank() > q.2.rank() || (p.2.rank() == q.2.rank() && place_of(
                p,
                image.width as nat,
            ) < place_of(q, image.width as nat))
        } by {
            assert(precedes(values@, true, order@[a] as int, order@[b] as int));
            if order@[a] < order@[b] {
                lemma_candidates_stand_in_order(
                    grid,
                    top,
                    threshold,
                    grid.cells.len(),
                    order@[a] as int,
                    order@[b] as int,
                );
            }
        }
        assert forall|x: int, y: int|
            0 <= x < image.width && 0 <= y < image.height && #[trigger] is_peak_at(
                grid,
                top,
                threshold,
                x,
                y,
            ) implies exists|i: int|
            0 <= i < points@.len() && #[trigger] points@[i] == (
                x as usize,
                y as usize,
                top.at(x, y),
            ) by {
            let i = y * image.width + x;
            lemma_index_in_bounds(x, y, image.width as int, image.height as int);
            lemma_place_of_index(x, y, image.width as int);
            lemma_every_peak_is_a_candidate(grid, top, threshold, grid.cells.len(), i);
            let m = choose|m: int|
                0 <= m < candidates@.len() && place_of(
                    #[trigger] peak_candidates(grid, top, threshold, grid.cells.len())[m],
                    grid.width,
                ) == i;
            lemma_candidates_are_peaks(grid, top, threshold, grid.cells.len(), m);
            let c = candidates@[m];
            assert(c.1 * image.width + c.0 == y * image.width + x);
            vstd::arithmetic::div_mod::lemma_fundamental_div_mod_converse(
                i,
                image.width as int,
                c.1 as int,
                c.0 as int,
            );
            assert(c.0 == x && c.1 == y);
            assert(order@.contains(m as usize));
            let k = choose|k: int| 0 <= k < order@.len() && order@[k] == m as usize;
            assert(points@[k] == c);
            assert(top.at(x, y) == c.2);
        }
    }
    points
}

} // verus!
