use crate::image::{lemma_place_of_index, luminances, Grid, Image};
use crate::process::{conv, convolved, samples_of};
use crate::scalar::{zero, FromLuminance, Luminance, Scalar};
use vstd::prelude::*;

verus! {

/// The side of the smoothing kernel for a given span: the span itself where
/// it is odd, the next number where it is even, so that the kernel has a
/// centre.
pub open spec fn kernel_side(span: int) -> int {
    if span % 2 == 1 {
        span
    } else {
        span + 1
    }
}

/// The squared distance of place (`x`, `y`) from the centre of a square
/// kernel of the given side.
pub open spec fn squared_offset(side: int, x: int, y: int) -> int {
    let c = side / 2;
    (x - c) * (x - c) + (y - c) * (y - c)
}

/// The squared distance from the centre of the place with the given index
/// in a square kernel stored row by row.
pub open spec fn squared_offset_of(side: int, i: int) -> usize {
    #[verifier::truncate]
    (squared_offset(side, i % side, i / side) as usize)
}

/// The sum of the first `n` weights, added one after another from zero.
pub open spec fn total<S: Scalar>(weights: Seq<S>, n: nat) -> S
    decreases n,
{
    if n == 0 {
        zero()
    } else {
        total(weights, (n - 1) as nat).spec_plus(weights[n - 1])
    }
}

/// Each weight divided by the sum of all of them.
pub open spec fn normalized_weights<S: Scalar>(weights: Seq<S>) -> Seq<S> {
    Seq::new(weights.len(), |i: int| weights[i].spec_over(total(weights, weights.len())))
}

/// Whether `raw` holds, for every place of a square kernel of the given
/// side, a value that `density` gives for the squared distance of the place
/// from the centre.
pub open spec fn samples_density<S: Scalar, F: Fn(usize) -> S>(
    raw: Seq<S>,
    side: int,
    density: F,
) -> bool {
    &&& raw.len() == side * side
    &&& forall|i: int|
        0 <= i < raw.len() ==> call_ensures(
            density,
            (squared_offset_of(side, i),),
            #[trigger] raw[i],
        )
}

/// Whether `cells` is a smoothing kernel of the given side made with
/// `density`: the values of `density` over the square, divided by their sum.
pub open spec fn is_smoothing_kernel<S: Scalar, F: Fn(usize) -> S>(
    cells: Seq<S>,
    side: int,
    density: F,
) -> bool {
    exists|raw: Seq<S>| samples_density(raw, side, density) && cells == normalized_weights(raw)
}

/// A square smoothing kernel, normalized so that its weights are shares of
/// their sum, together with its side.
///
/// `span` is the width that the kernel has to cover; the side is the least
/// odd number that is no smaller. `density` gives the weight of a place from
/// the square of its distance from the centre; with the density of a normal
/// distribution the kernel is a Gaussian one. Every weight is divided by the
/// sum of all of them, which makes up for what the square cuts off.
pub fn generate_gaussian_kernel<S: Scalar, F: Fn(usize) -> S>(span: usize, density: F) -> (kernel: (
    Vec<S>,
    usize,
))
    requires
        kernel_side(span as int) * kernel_side(span as int) <= usize::MAX,
        forall|d: usize| call_requires(density, (d,)),
    ensures
        kernel.1 == kernel_side(span as int),
        kernel.1 % 2 == 1,
        span <= kernel.1 <= span + 1,
        kernel.0@.len() == kernel.1 * kernel.1,
        is_smoothing_kernel(kernel.0@, kernel.1 as int, density),
{
    proof {
        let s = kernel_side(span as int);
        assert(s <= s * s) by (nonlinear_arith)
            requires
                s >= 1,
        ;
    }
    let side: usize = if span % 2 == 1 {
        span
    } else {
        span + 1
    };
    let half: usize = side / 2;
    let mut raw: Vec<S> = Vec::new();
    let mut sum: S = S::from_usize(0);
    let mut y: usize = 0;
    while y < side
        invariant
            side == kernel_side(span as int),
            side * side <= usize::MAX,
            half == side / 2,
            y <= side,
            forall|d: usize| call_requires(density, (d,)),
            raw@.len() == y * side,
            forall|i: int|
                0 <= i < raw@.len() ==> call_ensures(
                    density,
                    (squared_offset_of(side as int, i),),
                    #[trigger] raw@[i],
                ),
            sum == total(raw@, raw@.len()),
        decreases side - y,
    {
        let dy: usize = if y >= half {
            y - half
        } else {
            half - y
        };
        proof {
            assert(dy * dy == (y - half) * (y - half)) by (nonlinear_arith)
                requires
                    dy == y - half || dy == half - y,
            ;
        }
        let mut x: usize = 0;
        while x < side
            invariant
                side == kernel_side(span as int),
                side * side <= usize::MAX,
                half == side / 2,
                y < side,
                x <= side,
                dy <= half,
                dy * dy == (y - half) * (y - half),
                forall|d: usize| call_requires(density, (d,)),
                raw@.len() == y * side + x,
                forall|i: int|
                    0 <= i < raw@.len() ==> call_ensures(
                        density,
                        (squared_offset_of(side as int, i),),
                        #[trigger] raw@[i],
                    ),
                sum == total(raw@, raw@.len()),
            decreases side - x,
        {
            let dx: usize = if x >= half {
                x - half
            } else {
                half - x
            };
            proof {
                assert(dx * dx == (x - half) * (x - half)) by (nonlinear_arith)
                    requires
                        dx == x - half || dx == half - x,
                ;
                assert(dx * dx + dy * dy <= side * side) by (nonlinear_arith)
                    requires
                        0 <= dx <= half,
                        0 <= dy <= half,
                        2 * half <= side,
                ;
                assert(dx * dx <= dx * dx + dy * dy) by (nonlinear_arith);
                lemma_place_of_index(x as int, y as int, side as int);
            }
            let d2: usize = dx * dx + dy * dy;
            let weight: S = density(d2);
            let ghost before = raw@;
            raw.push(weight);
            sum = sum.plus(weight);
            proof {
                assert(raw@.drop_last() =~= before);
                assert(total(raw@, before.len()) == total(before, before.len())) by {
                    lemma_total_of_prefix(raw@, before, before.len());
                }
            }
            x += 1;
        }
        proof {
            assert((y + 1) * side == y * side + side) by (nonlinear_arith);
        }
        y += 1;
    }
    let mut kernel: Vec<S> = Vec::new();
    let mut i: usize = 0;
    while i < raw.len()
        invariant
            i <= raw@.len(),
            kernel@.len() == i,
            sum == total(raw@, raw@.len()),
            forall|t: int| 0 <= t < i ==> kernel@[t] == raw@[t].spec_over(sum),
        decreases raw@.len() - i,
    {
        kernel.push(raw[i].over(sum));
        i += 1;
    }
    proof {
        assert(kernel@ =~= normalized_weights(raw@));
        assert(samples_density(raw@, side as int, density));
    }
    (kernel, side)
}

/// The sum of the first weights of a list depends on those weights alone.
proof fn lemma_total_of_prefix<S: Scalar>(longer: Seq<S>, shorter: Seq<S>, n: nat)
    requires
        n <= shorter.len() <= longer.len(),
        forall|i: int| 0 <= i < shorter.len() ==> longer[i] == shorter[i],
    ensures
        total(longer, n) == total(shorter, n),
    decreases n,
{
    if n > 0 {
        lemma_total_of_prefix(longer, shorter, (n - 1) as nat);
    }
}

/// The discrete Laplace operator: a 3-by-3 kernel with 4 in the middle, -1
/// beside, above and below it, and 0 in the corners.
pub open spec fn laplacian<S: Scalar>() -> Grid<S> {
    let o = zero::<S>();
    let n = zero::<S>().spec_minus(S::spec_from_usize(1));
    let c = S::spec_from_usize(4);
    Grid { cells: seq![o, n, o, n, c, n, o, n, o], width: 3, height: 3 }
}

/// The Laplace operator as a raster.
pub fn laplacian_kernel<S: Scalar>() -> (kernel: Image<S>)
    ensures
        kernel.well_formed(),
        luminances(&kernel) == laplacian::<S>(),
{
    let o = S::from_usize(0);
    let n = S::from_usize(0).minus(S::from_usize(1));
    let c = S::from_usize(4);
    let mut pixels: Vec<S> = Vec::new();
    pixels.push(o);
    pixels.push(n);
    pixels.push(o);
    pixels.push(n);
    pixels.push(c);
    pixels.push(n);
    pixels.push(o);
    pixels.push(n);
    pixels.push(o);
    let kernel = Image { pixels, width: 3, height: 3 };
    proof {
        assert(luminances(&kernel).cells =~= laplacian::<S>().cells);
    }
    kernel
}

/// Whether `response` is the blob response of `input`: `input` smoothed with
/// a normalized kernel that covers `span` and is made with `density`, then
/// taken through the Laplace operator.
pub open spec fn is_blob_response<S: Scalar, F: Fn(usize) -> S>(
    response: Grid<S>,
    input: Grid<S>,
    span: usize,
    density: F,
) -> bool {
    exists|smoothing: Grid<S>|
        {
            &&& smoothing.width == kernel_side(span as int)
            &&& smoothing.height == kernel_side(span as int)
            &&& is_smoothing_kernel(smoothing.cells, kernel_side(span as int), density)
            &&& response == convolved(convolved(input, smoothing), laplacian())
        }
}

/// The blob response of an image: the image smoothed with a normalized
/// kernel, then taken through the Laplace operator.
///
/// Both passes keep only the places on which the whole kernel fits, so the
/// output is smaller than the input by the side of the smoothing kernel
/// less one, and by two more, along each axis.
pub fn laplacian_of_gaussian<In, Out, F>(image: &Image<In>, span: usize, density: F) -> (output:
    Image<Out>) where
    In: Luminance,
    Out: FromLuminance<Value = In::Value>,
    F: Fn(usize) -> In::Value,

    requires
        image.well_formed(),
        kernel_side(span as int) + 2 <= image.width,
        kernel_side(span as int) + 2 <= image.height,
        forall|d: usize| call_requires(density, (d,)),
    ensures
        output.well_formed(),
        output.width == image.width - (kernel_side(span as int) - 1) - 2,
        output.height == image.height - (kernel_side(span as int) - 1) - 2,
        exists|response: Grid<In::Value>|
            is_blob_response(response, luminances(image), span, density) && output.pixels@
                == samples_of::<Out>(response),
{
    let len: usize = image.pixels.len();
    proof {
        let s = kernel_side(span as int);
        let w = image.width as int;
        let h = image.height as int;
        assert(w * h == len);
        assert(s * s <= w * h) by (nonlinear_arith)
            requires
                0 <= s <= w,
                s <= h,
        ;
        assert((w - s + 1) * (h - s + 1) <= w * h) by (nonlinear_arith)
            requires
                1 <= s <= w,
                s <= h,
        ;
        assert((w - s + 1 - 3 + 1) * (h - s + 1 - 3 + 1) <= (w - s + 1) * (h - s + 1))
            by (nonlinear_arith)
            requires
                s + 2 <= w,
                s + 2 <= h,
        ;
    }
    let (weights, side) = generate_gaussian_kernel(span, density);
    let gaussian_kernel: Image<In::Value> = Image { pixels: weights, width: side, height: side };
    let laplacian_kernel: Image<In::Value> = laplacian_kernel();
    let gaussian_image: Image<In::Value> = conv(image, &gaussian_kernel);
    let output: Image<Out> = conv(&gaussian_image, &laplacian_kernel);
    proof {
        let smoothing = luminances(&gaussian_kernel);
        assert(smoothing.cells =~= gaussian_kernel.pixels@);
        let mid = convolved(luminances(image), smoothing);
        assert(luminances(&gaussian_image).cells =~= mid.cells);
        assert(luminances(&gaussian_image) == mid);
        let response = convolved(mid, laplacian());
        assert(is_blob_response(response, luminances(image), span, density));
        assert(output.pixels@ == samples_of::<Out>(response));
    }
    output
}

} // verus!
