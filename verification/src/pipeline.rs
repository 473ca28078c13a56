use crate::image::{lemma_index_in_bounds, lemma_place_of_index, luminances, Grid, Image};
use crate::kernel::{is_blob_response, kernel_side, laplacian_of_gaussian};
use crate::peaks::{peak_local_max, peaks};
use crate::process::{dilate, dilated, samples_of};
use crate::scalar::{zero, FromLuminance, Luminance, Scalar};
use vstd::prelude::*;

verus! {

/// The share of the way through the positive blob response at which the
/// threshold for peaks is taken: 9999 parts in 10000.
pub const PERCENTILE_NUMERATOR: u64 = 9999;

/// The parts that make the whole way.
pub const PERCENTILE_DENOMINATOR: u64 = 10000;

/// The side of the square that marks a feature point.
pub const MARKER_SIDE: usize = 5;

/// `factor * numerator / denominator`, rounded up to a whole number.
pub open spec fn scaled_ceiling(factor: u64, numerator: u64, denominator: u64) -> int {
    (factor * numerator + denominator - 1) / (denominator as int)
}

/// `scaled_ceiling` is the least whole number that is no smaller than the
/// fraction.
pub proof fn lemma_scaled_ceiling_is_least(factor: u64, numerator: u64, denominator: u64)
    requires
        denominator > 0,
    ensures
        factor * numerator <= scaled_ceiling(factor, numerator, denominator) * denominator,
        (scaled_ceiling(factor, numerator, denominator) - 1) * denominator < factor * numerator,
{
    let a = factor * numerator + denominator - 1;
    let d = denominator as int;
    vstd::arithmetic::div_mod::lemma_fundamental_div_mod(a, d);
    vstd::arithmetic::div_mod::lemma_mod_bound(a, d);
    let q = a / d;
    assert(q * d == d * q) by (nonlinear_arith);
    assert((q - 1) * d == q * d - d) by (nonlinear_arith);
}

/// A larger factor gives no smaller a ceiling, and no ceiling is negative.
pub proof fn lemma_scaled_ceiling_grows(
    smaller: u64,
    larger: u64,
    numerator: u64,
    denominator: u64,
)
    requires
        denominator > 0,
        smaller <= larger,
    ensures
        0 <= scaled_ceiling(smaller, numerator, denominator) <= scaled_ceiling(
            larger,
            numerator,
            denominator,
        ),
{
    let d = denominator as int;
    assert(0 <= smaller * numerator <= larger * numerator) by (nonlinear_arith)
        requires
            0 <= smaller <= larger,
            0 <= numerator,
    ;
    vstd::arithmetic::div_mod::lemma_div_is_ordered(
        smaller * numerator + d - 1,
        larger * numerator + d - 1,
        d,
    );
    vstd::arithmetic::div_mod::lemma_div_pos_is_pos(smaller * numerator + d - 1, d);
}

/// `factor * numerator / denominator`, rounded up to a whole number.
fn ceiling_of(factor: u64, numerator: u64, denominator: u64) -> (r: usize)
    requires
        denominator > 0,
        scaled_ceiling(factor, numerator, denominator) <= usize::MAX,
    ensures
        r == scaled_ceiling(factor, numerator, denominator),
{
    assert(factor * numerator <= 0xffff_ffff_ffff_ffff * 0xffff_ffff_ffff_ffff) by (nonlinear_arith)
        requires
            0 <= factor <= 0xffff_ffff_ffff_ffff,
            0 <= numerator <= 0xffff_ffff_ffff_ffff,
    ;
    let wide: u128 = (factor as u128) * (numerator as u128) + (denominator as u128 - 1);
    (wide / (denominator as u128)) as usize
}

/// The width that the smoothing kernel has to cover for a blur of scale
/// `numerator / denominator`: six times the scale, rounded up.
pub fn kernel_span(sigma_numerator: u64, sigma_denominator: u64) -> (span: usize)
    requires
        sigma_denominator > 0,
        scaled_ceiling(6, sigma_numerator, sigma_denominator) <= usize::MAX,
    ensures
        span == scaled_ceiling(6, sigma_numerator, sigma_denominator),
{
    ceiling_of(6, sigma_numerator, sigma_denominator)
}

/// The side of the dilation window for a blur of scale
/// `numerator / denominator`: three times the scale, rounded up.
pub fn dilation_size(sigma_numerator: u64, sigma_denominator: u64) -> (size: usize)
    requires
        sigma_denominator > 0,
        scaled_ceiling(3, sigma_numerator, sigma_denominator) <= usize::MAX,
    ensures
        size == scaled_ceiling(3, sigma_numerator, sigma_denominator),
{
    ceiling_of(3, sigma_numerator, sigma_denominator)
}

/// The coordinate `d` steps after `p`, moved back onto the last place of an
/// axis of the given extent where it lies beyond it.
pub open spec fn stepped(p: int, d: int, extent: int) -> int {
    if p + d > extent - 1 {
        extent - 1
    } else {
        p + d
    }
}

/// Whether the first `count` steps from `p` reach coordinate `c`.
pub open spec fn reached(p: int, count: int, extent: int, c: int) -> bool {
    count > 0 && stepped(p, 0, extent) <= c <= stepped(p, count - 1, extent)
}

/// Whether the marker of a point covers place (`cx`, `cy`): the marker is a
/// square of side `MARKER_SIDE` that starts on the point and is pushed back
/// onto the image where it would leave it.
pub open spec fn covers<S>(
    point: (usize, usize, S),
    width: usize,
    height: usize,
    cx: int,
    cy: int,
) -> bool {
    reached(point.0 as int, MARKER_SIDE as int, width as int, cx) && reached(
        point.1 as int,
        MARKER_SIDE as int,
        height as int,
        cy,
    )
}

/// The sample at place (`cx`, `cy`) once the first `n` points are marked on
/// a dark raster: made from the brightness of the last point whose marker
/// covers the place, or from zero where none does.
pub open spec fn marked_cell<Out: FromLuminance>(
    points: Seq<(usize, usize, Out::Value)>,
    width: usize,
    height: usize,
    cx: int,
    cy: int,
    n: nat,
) -> Out
    decreases n,
{
    if n == 0 {
        Out::spec_from_luminance(zero())
    } else if covers(points[n - 1], width, height, cx, cy) {
        Out::spec_from_luminance(points[n - 1].2)
    } else {
        marked_cell::<Out>(points, width, height, cx, cy, (n - 1) as nat)
    }
}

/// The raster of the given size with every point marked on it.
pub open spec fn marked<Out: FromLuminance>(
    points: Seq<(usize, usize, Out::Value)>,
    width: usize,
    height: usize,
) -> Seq<Out> {
    Seq::new(
        (width * height) as nat,
        |i: int|
            marked_cell::<Out>(
                points,
                width,
                height,
                i % (width as int),
                i / (width as int),
                points.len(),
            ),
    )
}

/// The coordinate `d` steps after `p`, kept on the axis.
fn step(p: usize, d: usize, extent: usize) -> (r: usize)
    requires
        extent > 0,
    ensures
        r == stepped(p as int, d as int, extent as int),
        r < extent,
{
    if p >= extent - 1 {
        extent - 1
    } else if d >= extent - 1 - p {
        extent - 1
    } else {
        p + d
    }
}

/// A dark raster of the given size on which every point is marked by a
/// square of its brightness; where markers overlap, the later point shows.
pub fn mark_points<Out: FromLuminance + Copy>(
    width: usize,
    height: usize,
    points: &[(usize, usize, Out::Value)],
) -> (image: Image<Out>)
    requires
        width * height <= usize::MAX,
        points@.len() > 0 ==> width > 0 && height > 0,
    ensures
        image.well_formed(),
        image.width == width,
        image.height == height,
        image.pixels@ == marked::<Out>(points@, width, height),
{
    let dark: Out = Out::from_luminance(<Out::Value>::from_usize(0));
    let total: usize = width * height;
    let mut pixels: Vec<Out> = Vec::new();
    let mut i: usize = 0;
    while i < total
        invariant
            i <= total,
            pixels@.len() == i,
            forall|t: int| 0 <= t < i ==> pixels@[t] == dark,
        decreases total - i,
    {
        pixels.push(dark);
        i += 1;
    }
    let mut m: usize = 0;
    while m < points.len()
        invariant
            total == width * height,
            points@.len() > 0 ==> width > 0 && height > 0,
            m <= points@.len(),
            pixels@.len() == total,
            forall|t: int|
                0 <= t < total ==> #[trigger] pixels@[t] == marked_cell::<Out>(
                    points@,
                    width,
                    height,
                    t % (width as int),
                    t / (width as int),
                    m as nat,
                ),
        decreases points@.len() - m,
    {
        let (px, py, l) = points[m];
        let colour: Out = Out::from_luminance(l);
        let mut dy: usize = 0;
        while dy < MARKER_SIDE
            invariant
                total == width * height,
                width > 0,
                height > 0,
                m < points@.len(),
                points@[m as int] == (px, py, l),
                colour == Out::spec_from_luminance(l),
                dy <= MARKER_SIDE,
                pixels@.len() == total,
                forall|t: int|
                    0 <= t < total ==> #[trigger] pixels@[t] == (if reached(
                        px as int,
                        MARKER_SIDE as int,
                        width as int,
                        t % (width as int),
                    ) && reached(py as int, dy as int, height as int, t / (width as int)) {
                        colour
                    } else {
                        marked_cell::<Out>(
                            points@,
                            width,
                            height,
                            t % (width as int),
                            t / (width as int),
                            m as nat,
                        )
                    }),
            decreases MARKER_SIDE - dy,
        {
            let y: usize = step(py, dy, height);
            let mut dx: usize = 0;
            while dx < MARKER_SIDE
                invariant
                    total == width * height,
                    width > 0,
                    height > 0,
                    m < points@.len(),
                    points@[m as int] == (px, py, l),
                    colour == Out::spec_from_luminance(l),
                    dy < MARKER_SIDE,
                    dx <= MARKER_SIDE,
                    y == stepped(py as int, dy as int, height as int),
                    y < height,
                    pixels@.len() == total,
                    forall|t: int|
                        0 <= t < total ==> #[trigger] pixels@[t] == (if (reached(
                            px as int,
                            MARKER_SIDE as int,
                            width as int,
                            t % (width as int),
                        ) && reached(py as int, dy as int, height as int, t / (width as int)))
                            || (reached(px as int, dx as int, width as int, t % (width as int))
                            && t / (width as int) == y) {
                            colour
                        } else {
                            marked_cell::<Out>(
                                points@,
                                width,
                                height,
                                t % (width as int),
                                t / (width as int),
                                m as nat,
                            )
                        }),
                decreases MARKER_SIDE - dx,
            {
                let x: usize = step(px, dx, width);
                proof {
                    lemma_index_in_bounds(x as int, y as int, width as int, height as int);
                    lemma_place_of_index(x as int, y as int, width as int);
                }
                let at: usize = y * width + x;
                let ghost before = pixels@;
                pixels.set(at, colour);
                proof {
                    assert forall|t: int| 0 <= t < total implies #[trigger] pixels@[t] == (if (
                    reached(px as int, MARKER_SIDE as int, width as int, t % (width as int))
                        && reached(py as int, dy as int, height as int, t / (width as int))) || (
                    reached(px as int, dx + 1, width as int, t % (width as int)) && t / (
                    width as int) == y) {
                        colour
                    } else {
                        marked_cell::<Out>(
                            points@,
                            width,
                            height,
                            t % (width as int),
                            t / (width as int),
                            m as nat,
                        )
                    }) by {
                        if t != at {
                            assert(pixels@[t] == before[t]);
                            vstd::arithmetic::div_mod::lemma_fundamental_div_mod(t, width as int);
                            assert((t / (width as int)) * width == width * (t / (width as int)))
                                by (nonlinear_arith);
                        }
                    }
                }
                dx += 1;
            }
            dy += 1;
        }
        m += 1;
    }
    let image = Image { pixels, width, height };
    proof {
        assert(image.pixels@ =~= marked::<Out>(points@, width, height));
    }
    image
}

/// The raster whose samples are made from the brightness of the samples of
/// `image`.
pub fn from_luminances<In, Out>(image: &Image<In>) -> (output: Image<Out>) where
    In: Luminance,
    Out: FromLuminance<Value = In::Value>,

    ensures
        output.width == image.width,
        output.height == image.height,
        output.pixels@ == samples_of::<Out>(luminances(image)),
{
    let mut pixels: Vec<Out> = Vec::new();
    let mut i: usize = 0;
    while i < image.pixels.len()
        invariant
            i <= image.pixels@.len(),
            pixels@.len() == i,
            forall|t: int|
                0 <= t < i ==> pixels@[t] == Out::spec_from_luminance(
                    image.pixels@[t].spec_luminance(),
                ),
        decreases image.pixels@.len() - i,
    {
        pixels.push(Out::from_luminance(image.pixels[i].luminance()));
        i += 1;
    }
    let output = Image { pixels, width: image.width, height: image.height };
    proof {
        assert(output.pixels@ =~= samples_of::<Out>(luminances(image)));
    }
    output
}

/// What the stages of feature detection make of one image.
pub struct ProcessedImage<In, Out, S> {
    /// The image as it was given.
    pub raw: Image<In>,
    /// The blob response.
    pub log: Image<Out>,
    /// The dilated blob response.
    pub dilate: Image<Out>,
    /// A dark raster with a marker on every feature point.
    pub local_max: Image<Out>,
    /// The feature points, the brightest first.
    pub local_max_points: Vec<(usize, usize, S)>,
}

/// Whether `processed` holds what feature detection makes of `image` at a
/// blur of scale `sigma_numerator / sigma_denominator`.
pub open spec fn is_processed<In: Luminance, Out: FromLuminance<Value = In::Value>, F: Fn(usize) -> In::Value>(
    processed: ProcessedImage<In, Out, In::Value>,
    image: &Image<In>,
    sigma_numerator: u64,
    sigma_denominator: u64,
    density: F,
) -> bool {
    let span = scaled_ceiling(6, sigma_numerator, sigma_denominator);
    let size = scaled_ceiling(3, sigma_numerator, sigma_denominator);
    let width = image.width - (kernel_side(span) - 1) - 2;
    let height = image.height - (kernel_side(span) - 1) - 2;
    &&& processed.raw.width == image.width
    &&& processed.raw.height == image.height
    &&& processed.raw.pixels@ == image.pixels@
    &&& processed.log.width == width
    &&& processed.log.height == height
    &&& processed.dilate.width == width
    &&& processed.dilate.height == height
    &&& processed.local_max.width == width
    &&& processed.local_max.height == height
    &&& exists|response: Grid<In::Value>|
        {
            &&& is_blob_response(response, luminances(image), span as usize, density)
            &&& processed.log.pixels@ == #[trigger] samples_of::<Out>(response)
            &&& processed.dilate.pixels@ == samples_of::<Out>(dilated(response, size as usize))
            &&& processed.local_max_points@ == peaks(
                response,
                dilated(response, size as usize),
                PERCENTILE_NUMERATOR,
                PERCENTILE_DENOMINATOR,
            )
            &&& processed.local_max.pixels@ == marked::<Out>(
                processed.local_max_points@,
                width as usize,
                height as usize,
            )
        }
}

/// Whether feature detection can be run on `image` at a blur of scale
/// `sigma_numerator / sigma_denominator`: the image has a sample for every
/// place, and both kernels fit on it one after the other.
pub open spec fn can_process<In>(image: &Image<In>, sigma_numerator: u64, sigma_denominator: u64) -> bool {
    &&& image.well_formed()
    &&& sigma_denominator > 0
    &&& kernel_side(scaled_ceiling(6, sigma_numerator, sigma_denominator)) + 2 <= image.width
    &&& kernel_side(scaled_ceiling(6, sigma_numerator, sigma_denominator)) + 2 <= image.height
}

/// Whether feature detection can be run on `image` at the given blur scale.
pub fn is_processable<In>(image: &Image<In>, sigma_numerator: u64, sigma_denominator: u64) -> (b:
    bool)
    ensures
        b == can_process(image, sigma_numerator, sigma_denominator),
{
    if sigma_denominator == 0 || !image.is_well_formed() {
        return false;
    }
    assert(6 * sigma_numerator <= 6 * 0xffff_ffff_ffff_ffff) by (nonlinear_arith)
        requires
            0 <= sigma_numerator <= 0xffff_ffff_ffff_ffff,
    ;
    let wide: u128 = 6 * (sigma_numerator as u128) + (sigma_denominator as u128 - 1);
    let span: u128 = wide / (sigma_denominator as u128);
    let side: u128 = if span % 2 == 1 {
        span
    } else {
        span + 1
    };
    side + 2 <= image.width as u128 && side + 2 <= image.height as u128
}

/// Feature detection on one image: its blob response at the given blur
/// scale, the dilation of the response, the feature points, and a raster
/// that shows them.
///
/// `density` gives the weight of a place of the smoothing kernel from the
/// square of its distance from the centre, for the same blur scale.
pub fn process_image<In, Out, F>(
    image: &Image<In>,
    sigma_numerator: u64,
    sigma_denominator: u64,
    density: F,
) -> (processed: ProcessedImage<In, Out, In::Value>) where
    In: Luminance,
    Out: FromLuminance<Value = In::Value> + Copy,
    F: Fn(usize) -> In::Value,

    requires
        can_process(image, sigma_numerator, sigma_denominator),
        forall|d: usize| call_requires(density, (d,)),
    ensures
        is_processed(processed, image, sigma_numerator, sigma_denominator, density),
{
    proof {
        lemma_scaled_ceiling_grows(3, 6, sigma_numerator, sigma_denominator);
    }
    let span: usize = kernel_span(sigma_numerator, sigma_denominator);
    let size: usize = dilation_size(sigma_numerator, sigma_denominator);
    let mut raw_pixels: Vec<In> = Vec::new();
    let mut i: usize = 0;
    while i < image.pixels.len()
        invariant
            i <= image.pixels@.len(),
            raw_pixels@ == image.pixels@.take(i as int),
        decreases image.pixels@.len() - i,
    {
        raw_pixels.push(image.pixels[i]);
        proof {
            assert(raw_pixels@ =~= image.pixels@.take(i + 1));
        }
        i += 1;
    }
    proof {
        assert(raw_pixels@ =~= image.pixels@);
    }
    let raw = Image { pixels: raw_pixels, width: image.width, height: image.height };
    let response: Image<In::Value> = laplacian_of_gaussian(image, span, density);
    let widest: Image<In::Value> = dilate(&response, size);
    let local_max_points = peak_local_max(
        &response,
        &widest,
        PERCENTILE_NUMERATOR,
        PERCENTILE_DENOMINATOR,
    );
    let log: Image<Out> = from_luminances(&response);
    let dilate: Image<Out> = from_luminances(&widest);
    let cells: usize = response.pixels.len();
    proof {
        assert(response.width * response.height == cells);
        if local_max_points@.len() > 0 {
            let p = local_max_points@[0];
            assert(p.0 < response.width && p.1 < response.height);
        }
    }
    let local_max: Image<Out> = mark_points(
        response.width,
        response.height,
        local_max_points.as_slice(),
    );
    let processed = ProcessedImage { raw, log, dilate, local_max, local_max_points };
    proof {
        let grid = luminances(&response);
        let found = choose|found: Grid<In::Value>|
            is_blob_response(found, luminances(image), span, density) && response.pixels@
                == samples_of::<In::Value>(found);
        assert(grid.cells =~= found.cells);
        assert(grid == found);
        assert(luminances(&widest).cells =~= dilated(grid, size).cells);
        assert(luminances(&widest) == dilated(grid, size));
    }
    processed
}

} // verus!
