use crate::image::{lemma_index_in_bounds, lemma_place_of_index, luminance_at, luminances, Grid, Image};
use crate::scalar::{larger, zero, FromLuminance, Luminance, Scalar};
use vstd::prelude::*;

verus! {

/// `acc` plus the first `n` products of row `fy` of the kernel, laid with
/// its corner on place (`ox`, `oy`) of the input, taken from left to right.
pub open spec fn row_sum<S: Scalar>(
    input: Grid<S>,
    kernel: Grid<S>,
    ox: int,
    oy: int,
    fy: int,
    n: nat,
    acc: S,
) -> S
    decreases n,
{
    if n == 0 {
        acc
    } else {
        let fx = n - 1;
        row_sum(input, kernel, ox, oy, fy, (n - 1) as nat, acc).spec_plus(
            input.at(ox + fx, oy + fy).spec_times(kernel.at(fx, fy)),
        )
    }
}

/// The sum of the products over the first `m` rows of the kernel, laid with
/// its corner on place (`ox`, `oy`) of the input: it starts from zero and
/// adds row after row, each from left to right.
pub open spec fn footprint_sum<S: Scalar>(
    input: Grid<S>,
    kernel: Grid<S>,
    ox: int,
    oy: int,
    m: nat,
) -> S
    decreases m,
{
    if m == 0 {
        zero()
    } else {
        row_sum(
            input,
            kernel,
            ox,
            oy,
            m - 1,
            kernel.width,
            footprint_sum(input, kernel, ox, oy, (m - 1) as nat),
        )
    }
}

/// The valid-region correlation of `input` with `kernel`: one cell for every
/// place on which the whole kernel fits.
pub open spec fn convolved<S: Scalar>(input: Grid<S>, kernel: Grid<S>) -> Grid<S> {
    let width = (input.width - kernel.width + 1) as nat;
    let height = (input.height - kernel.height + 1) as nat;
    Grid {
        cells: Seq::new(
            width * height,
            |i: int| footprint_sum(input, kernel, i % (width as int), i / (width as int), kernel.height),
        ),
        width,
        height,
    }
}

/// The samples made from the brightness of each cell.
pub open spec fn samples_of<Out: FromLuminance>(grid: Grid<Out::Value>) -> Seq<Out> {
    Seq::new(grid.cells.len(), |i: int| Out::spec_from_luminance(grid.cells[i]))
}

/// Valid-region correlation of a raster with a kernel raster.
///
/// The output has one sample for every place on which the whole kernel fits,
/// and each is made from the sum over the kernel's footprint of the products
/// of the brightness of the input and of the kernel.
pub fn conv<In1, In2, Out>(i1: &Image<In1>, i2: &Image<In2>) -> (output: Image<Out>) where
    In1: Luminance,
    In2: Luminance<Value = In1::Value>,
    Out: FromLuminance<Value = In1::Value>,

    requires
        i1.well_formed(),
        i2.well_formed(),
        i2.width <= i1.width,
        i2.height <= i1.height,
        (i1.width - i2.width + 1) * (i1.height - i2.height + 1) <= usize::MAX,
    ensures
        output.well_formed(),
        output.width == i1.width - i2.width + 1,
        output.height == i1.height - i2.height + 1,
        output.pixels@ == samples_of::<Out>(convolved(luminances(i1), luminances(i2))),
{
    let ghost input = luminances(i1);
    let ghost kernel = luminances(i2);
    let ghost ow = i1.width - i2.width + 1;
    let ghost oh = i1.height - i2.height + 1;
    proof {
        assert(ow <= ow * oh && oh <= ow * oh) by (nonlinear_arith)
            requires
                ow >= 1,
                oh >= 1,
        ;
    }
    let out_height: usize = i1.height - i2.height + 1;
    let out_width: usize = i1.width - i2.width + 1;
    let mut pixels: Vec<Out> = Vec::new();
    let mut oy: usize = 0;
    while oy < out_height
        invariant
            i1.well_formed(),
            i2.well_formed(),
            i2.width <= i1.width,
            i2.height <= i1.height,
            out_width == ow,
            out_height == oh,
            ow == i1.width - i2.width + 1,
            oh == i1.height - i2.height + 1,
            input == luminances(i1),
            kernel == luminances(i2),
            oy <= out_height,
            pixels@.len() == oy * out_width,
            forall|i: int|
                0 <= i < pixels@.len() ==> #[trigger] pixels@[i] == Out::spec_from_luminance(
                    footprint_sum(input, kernel, i % ow, i / ow, kernel.height),
                ),
        decreases out_height - oy,
    {
        let mut ox: usize = 0;
        while ox < out_width
            invariant
                i1.well_formed(),
                i2.well_formed(),
                i2.width <= i1.width,
                i2.height <= i1.height,
                out_width == ow,
                out_height == oh,
                ow == i1.width - i2.width + 1,
                oh == i1.height - i2.height + 1,
                input == luminances(i1),
                kernel == luminances(i2),
                oy < out_height,
                ox <= out_width,
                pixels@.len() == oy * out_width + ox,
                forall|i: int|
                    0 <= i < pixels@.len() ==> #[trigger] pixels@[i] == Out::spec_from_luminance(
                        footprint_sum(input, kernel, i % ow, i / ow, kernel.height),
                    ),
            decreases out_width - ox,
        {
            let mut result: In1::Value = In1::Value::from_usize(0);
            let mut fy: usize = 0;
            while fy < i2.height
                invariant
                    i1.well_formed(),
                    i2.well_formed(),
                    input == luminances(i1),
                    kernel == luminances(i2),
                    ox + i2.width <= i1.width,
                    oy + i2.height <= i1.height,
                    fy <= i2.height,
                    result == footprint_sum(input, kernel, ox as int, oy as int, fy as nat),
                decreases i2.height - fy,
            {
                let ghost before = result;
                let mut fx: usize = 0;
                while fx < i2.width
                    invariant
                        i1.well_formed(),
                        i2.well_formed(),
                        input == luminances(i1),
                        kernel == luminances(i2),
                        ox + i2.width <= i1.width,
                        oy + i2.height <= i1.height,
                        fy < i2.height,
                        fx <= i2.width,
                        result == row_sum(
                            input,
                            kernel,
                            ox as int,
                            oy as int,
                            fy as int,
                            fx as nat,
                            before,
                        ),
                    decreases i2.width - fx,
                {
                    let a = luminance_at(i1, ox + fx, oy + fy);
                    let b = luminance_at(i2, fx, fy);
                    result = result.plus(a.times(b));
                    fx += 1;
                }
                fy += 1;
            }
            proof {
                lemma_place_of_index(ox as int, oy as int, ow as int);
                lemma_index_in_bounds(ox as int, oy as int, ow as int, oh as int);
            }
            pixels.push(Out::from_luminance(result));
            ox += 1;
        }
        proof {
            assert((oy + 1) * out_width == oy * out_width + out_width) by (nonlinear_arith);
        }
        oy += 1;
    }
    let output = Image { pixels, width: out_width, height: out_height };
    proof {
        let grid = convolved(input, kernel);
        assert(grid.width == ow && grid.height == oh);
        assert(oh * ow == ow * oh) by (nonlinear_arith);
        assert(output.pixels@ =~= samples_of::<Out>(grid));
    }
    output
}

/// The first coordinate that a window of the given half-width around `c`
/// reaches: coordinates before the edge are moved onto it.
pub open spec fn window_low(c: int, half: int) -> int {
    if c - half < 0 {
        0
    } else {
        c - half
    }
}

/// The last coordinate that a window of the given half-width around `c`
/// reaches along an axis of the given extent.
pub open spec fn window_high(c: int, half: int, extent: int) -> int {
    if c + half > extent - 1 {
        extent - 1
    } else {
        c + half
    }
}

/// A coordinate moved onto the nearest place of an axis of the given extent.
pub open spec fn clamped(c: int, extent: int) -> int {
    if c < 0 {
        0
    } else if c > extent - 1 {
        extent - 1
    } else {
        c
    }
}

/// The largest of `acc` and the first `n` cells of row `y` from column `x0`
/// on.
pub open spec fn row_max<S: Scalar>(grid: Grid<S>, y: int, x0: int, n: nat, acc: S) -> S
    decreases n,
{
    if n == 0 {
        acc
    } else {
        larger(row_max(grid, y, x0, (n - 1) as nat, acc), grid.at(x0 + n - 1, y))
    }
}

/// The largest of `acc` and the cells of the first `m` rows from row `y0`
/// on, each row taken over `columns` cells from column `x0` on.
pub open spec fn rows_max<S: Scalar>(
    grid: Grid<S>,
    x0: int,
    columns: nat,
    y0: int,
    m: nat,
    acc: S,
) -> S
    decreases m,
{
    if m == 0 {
        acc
    } else {
        row_max(
            grid,
            y0 + m - 1,
            x0,
            columns,
            rows_max(grid, x0, columns, y0, (m - 1) as nat, acc),
        )
    }
}

/// The largest brightness in the square window of the given half-width
/// around place (`x`, `y`), the window cut off at the edges of the grid.
pub open spec fn dilated_at<S: Scalar>(grid: Grid<S>, half: int, x: int, y: int) -> S {
    let x0 = window_low(x, half);
    let x1 = window_high(x, half, grid.width as int);
    let y0 = window_low(y, half);
    let y1 = window_high(y, half, grid.height as int);
    rows_max(grid, x0, (x1 - x0 + 1) as nat, y0, (y1 - y0 + 1) as nat, grid.at(x0, y0))
}

/// The flat dilation of a grid by a square window of side `size`.
pub open spec fn dilated<S: Scalar>(grid: Grid<S>, size: usize) -> Grid<S> {
    Grid {
        cells: Seq::new(
            grid.width * grid.height,
            |i: int|
                dilated_at(grid, (size / 2) as int, i % (grid.width as int), i / (grid.width as int)),
        ),
        width: grid.width,
        height: grid.height,
    }
}

/// Flat dilation: every sample is made from the largest brightness in the
/// square window of side `size` around its place.
///
/// Window coordinates beyond an edge are moved onto the edge, so the window
/// around a place reaches the rows and columns from `window_low` to
/// `window_high`. The output has the dimensions of the input.
pub fn dilate<In, Out>(image: &Image<In>, size: usize) -> (output: Image<Out>) where
    In: Luminance,
    Out: FromLuminance<Value = In::Value>,

    requires
        image.well_formed(),
    ensures
        output.well_formed(),
        output.width == image.width,
        output.height == image.height,
        output.pixels@ == samples_of::<Out>(dilated(luminances(image), size)),
{
    let ghost grid = luminances(image);
    let width: usize = image.width;
    let height: usize = image.height;
    let half: usize = size / 2;
    let mut pixels: Vec<Out> = Vec::new();
    let mut oy: usize = 0;
    while oy < height
        invariant
            image.well_formed(),
            width == image.width,
            height == image.height,
            half == size / 2,
            grid == luminances(image),
            oy <= height,
            pixels@.len() == oy * width,
            forall|i: int|
                0 <= i < pixels@.len() ==> #[trigger] pixels@[i] == Out::spec_from_luminance(
                    dilated_at(grid, half as int, i % (width as int), i / (width as int)),
                ),
        decreases height - oy,
    {
        let y0: usize = if oy >= half {
            oy - half
        } else {
            0
        };
        let y1: usize = if half > height - 1 - oy {
            height - 1
        } else {
            oy + half
        };
        let mut ox: usize = 0;
        while ox < width
            invariant
                image.well_formed(),
                width == image.width,
                height == image.height,
                half == size / 2,
                grid == luminances(image),
                oy < height,
                ox <= width,
                y0 == window_low(oy as int, half as int),
                y1 == window_high(oy as int, half as int, height as int),
                pixels@.len() == oy * width + ox,
                forall|i: int|
                    0 <= i < pixels@.len() ==> #[trigger] pixels@[i] == Out::spec_from_luminance(
                        dilated_at(grid, half as int, i % (width as int), i / (width as int)),
                    ),
            decreases width - ox,
        {
            let x0: usize = if ox >= half {
                ox - half
            } else {
                0
            };
            let x1: usize = if half > width - 1 - ox {
                width - 1
            } else {
                ox + half
            };
            let ghost first = grid.at(x0 as int, y0 as int);
            let mut result: In::Value = luminance_at(image, x0, y0);
            let mut y: usize = y0;
            while y <= y1
                invariant
                    image.well_formed(),
                    width == image.width,
                    height == image.height,
                    grid == luminances(image),
                    x0 <= x1 < width,
                    y0 <= y <= y1 + 1,
                    y1 < height,
                    result == rows_max(
                        grid,
                        x0 as int,
                        (x1 - x0 + 1) as nat,
                        y0 as int,
                        (y - y0) as nat,
                        first,
                    ),
                decreases y1 + 1 - y,
            {
                let ghost before = result;
                let mut x: usize = x0;
                while x <= x1
                    invariant
                        image.well_formed(),
                        width == image.width,
                        height == image.height,
                        grid == luminances(image),
                        x0 <= x <= x1 + 1,
                        x1 < width,
                        y < height,
                        result == row_max(grid, y as int, x0 as int, (x - x0) as nat, before),
                    decreases x1 + 1 - x,
                {
                    let sample = luminance_at(image, x, y);
                    if !sample.le(result) {
                        result = sample;
                    }
                    x += 1;
                }
                y += 1;
            }
            proof {
                lemma_place_of_index(ox as int, oy as int, width as int);
                lemma_index_in_bounds(ox as int, oy as int, width as int, height as int);
            }
            pixels.push(Out::from_luminance(result));
            ox += 1;
        }
        proof {
            assert((oy + 1) * width == oy * width + width) by (nonlinear_arith);
        }
        oy += 1;
    }
    let output = Image { pixels, width, height };
    proof {
        assert(height * width == width * height) by (nonlinear_arith);
        assert(output.pixels@ =~= samples_of::<Out>(dilated(grid, size)));
    }
    output
}

/// The offsets of a window reach, once clamped, exactly the coordinates from
/// `window_low` to `window_high`.
pub proof fn lemma_window_is_clamped_offsets(c: int, half: int, extent: int)
    requires
        0 <= c < extent,
        0 <= half,
    ensures
        forall|f: int|
            -half <= f <= half ==> window_low(c, half) <= #[trigger] clamped(c + f, extent)
                <= window_high(c, half, extent),
        forall|p: int|
            window_low(c, half) <= p <= window_high(c, half, extent) ==> -half <= p - c <= half
                && #[trigger] clamped(c + (p - c), extent) == p,
{
}

/// `row_max` is no smaller than what it started from and than each cell it
/// went over, and it is one of them.
pub proof fn lemma_row_max_bounds<S: Scalar>(grid: Grid<S>, y: int, x0: int, n: nat, acc: S)
    ensures
        row_max(grid, y, x0, n, acc).rank() >= acc.rank(),
        forall|cx: int|
            x0 <= cx < x0 + n ==> row_max(grid, y, x0, n, acc).rank() >= (#[trigger] grid.at(
                cx,
                y,
            )).rank(),
        row_max(grid, y, x0, n, acc) == acc || exists|cx: int|
            x0 <= cx < x0 + n && row_max(grid, y, x0, n, acc) == #[trigger] grid.at(cx, y),
    decreases n,
{
    if n > 0 {
        lemma_row_max_bounds(grid, y, x0, (n - 1) as nat, acc);
        let rest = row_max(grid, y, x0, (n - 1) as nat, acc);
        let last = grid.at(x0 + n - 1, y);
        let r = row_max(grid, y, x0, n, acc);
        assert(r == larger(rest, last));
        if r == last {
            assert(x0 <= x0 + n - 1 < x0 + n && r == grid.at(x0 + n - 1, y));
        } else if rest != acc {
            let cx = choose|cx: int| x0 <= cx < x0 + n - 1 && rest == #[trigger] grid.at(cx, y);
            assert(x0 <= cx < x0 + n && r == grid.at(cx, y));
        }
    }
}

/// `rows_max` is no smaller than what it started from and than each cell it
/// went over, and it is one of them.
pub proof fn lemma_rows_max_bounds<S: Scalar>(
    grid: Grid<S>,
    x0: int,
    columns: nat,
    y0: int,
    m: nat,
    acc: S,
)
    ensures
        rows_max(grid, x0, columns, y0, m, acc).rank() >= acc.rank(),
        forall|cx: int, cy: int|
            x0 <= cx < x0 + columns && y0 <= cy < y0 + m ==> rows_max(
                grid,
                x0,
                columns,
                y0,
                m,
                acc,
            ).rank() >= (#[trigger] grid.at(cx, cy)).rank(),
        rows_max(grid, x0, columns, y0, m, acc) == acc || exists|cx: int, cy: int|
            x0 <= cx < x0 + columns && y0 <= cy < y0 + m && rows_max(
                grid,
                x0,
                columns,
                y0,
                m,
                acc,
            ) == #[trigger] grid.at(cx, cy),
    decreases m,
{
    if m > 0 {
        lemma_rows_max_bounds(grid, x0, columns, y0, (m - 1) as nat, acc);
        let rest = rows_max(grid, x0, columns, y0, (m - 1) as nat, acc);
        let y = y0 + m - 1;
        lemma_row_max_bounds(grid, y, x0, columns, rest);
        let r = rows_max(grid, x0, columns, y0, m, acc);
        assert(r == row_max(grid, y, x0, columns, rest));
        if r == rest {
            if rest != acc {
                let (cx, cy) = choose|cx: int, cy: int|
                    x0 <= cx < x0 + columns && y0 <= cy < y0 + m - 1 && rest == #[trigger] grid.at(
                        cx,
                        cy,
                    );
                assert(x0 <= cx < x0 + columns && y0 <= cy < y0 + m && r == grid.at(cx, cy));
            }
        } else {
            let cx = choose|cx: int| x0 <= cx < x0 + columns && r == #[trigger] grid.at(cx, y);
            assert(x0 <= cx < x0 + columns && y0 <= y < y0 + m && r == grid.at(cx, y));
        }
    }
}

/// Whether place (`cx`, `cy`) lies in the window of the given half-width
/// around place (`x`, `y`) of the grid.
pub open spec fn in_window<S>(grid: Grid<S>, half: int, x: int, y: int, cx: int, cy: int) -> bool {
    &&& window_low(x, half) <= cx <= window_high(x, half, grid.width as int)
    &&& window_low(y, half) <= cy <= window_high(y, half, grid.height as int)
}

/// The dilated brightness at a place is the largest in its window: no cell
/// of the window is brighter, and one of them is as bright.
pub proof fn lemma_dilated_is_window_max<S: Scalar>(grid: Grid<S>, half: int, x: int, y: int)
    requires
        0 <= x < grid.width,
        0 <= y < grid.height,
        0 <= half,
    ensures
        forall|cx: int, cy: int|
            in_window(grid, half, x, y, cx, cy) ==> dilated_at(grid, half, x, y).rank() >= (
            #[trigger] grid.at(cx, cy)).rank(),
        exists|cx: int, cy: int|
            in_window(grid, half, x, y, cx, cy) && dilated_at(grid, half, x, y) == #[trigger] grid.at(
                cx,
                cy,
            ),
{
    let x0 = window_low(x, half);
    let x1 = window_high(x, half, grid.width as int);
    let y0 = window_low(y, half);
    let y1 = window_high(y, half, grid.height as int);
    let first = grid.at(x0, y0);
    lemma_rows_max_bounds(grid, x0, (x1 - x0 + 1) as nat, y0, (y1 - y0 + 1) as nat, first);
    let r = dilated_at(grid, half, x, y);
    if r == first {
        assert(in_window(grid, half, x, y, x0, y0) && r == grid.at(x0, y0));
    } else {
        let (cx, cy) = choose|cx: int, cy: int|
            x0 <= cx < x0 + (x1 - x0 + 1) && y0 <= cy < y0 + (y1 - y0 + 1) && r == #[trigger] grid.at(
                cx,
                cy,
            );
        assert(in_window(grid, half, x, y, cx, cy) && r == grid.at(cx, cy));
    }
}

/// The cell of the dilated grid at a place is the largest brightness in the
/// window around that place.
pub proof fn lemma_dilated_cell<S: Scalar>(grid: Grid<S>, size: usize, x: int, y: int)
    requires
        0 <= x < grid.width,
        0 <= y < grid.height,
    ensures
        dilated(grid, size).at(x, y) == dilated_at(grid, (size / 2) as int, x, y),
{
    lemma_place_of_index(x, y, grid.width as int);
    lemma_index_in_bounds(x, y, grid.width as int, grid.height as int);
}

/// Dilation never darkens: at every place the dilated brightness is no
/// smaller than the brightness that was there.
pub proof fn lemma_dilation_never_darkens<S: Scalar>(grid: Grid<S>, size: usize, x: int, y: int)
    requires
        0 <= x < grid.width,
        0 <= y < grid.height,
    ensures
        dilated(grid, size).at(x, y).rank() >= grid.at(x, y).rank(),
{
    let half = (size / 2) as int;
    lemma_dilated_cell(grid, size, x, y);
    lemma_dilated_is_window_max(grid, half, x, y);
    assert(in_window(grid, half, x, y, x, y));
}

/// A larger window never darkens: at every place the brightness dilated by
/// the larger size is no smaller than that dilated by the smaller size.
pub proof fn lemma_dilation_grows_with_size<S: Scalar>(
    grid: Grid<S>,
    smaller: usize,
    larger_size: usize,
    x: int,
    y: int,
)
    requires
        0 <= x < grid.width,
        0 <= y < grid.height,
        smaller <= larger_size,
    ensures
        dilated(grid, smaller).at(x, y).rank() <= dilated(grid, larger_size).at(x, y).rank(),
{
    let half1 = (smaller / 2) as int;
    let half2 = (larger_size / 2) as int;
    lemma_dilated_cell(grid, smaller, x, y);
    lemma_dilated_cell(grid, larger_size, x, y);
    lemma_dilated_is_window_max(grid, half1, x, y);
    lemma_dilated_is_window_max(grid, half2, x, y);
    let (cx, cy) = choose|cx: int, cy: int|
        in_window(grid, half1, x, y, cx, cy) && dilated_at(grid, half1, x, y) == #[trigger] grid.at(
            cx,
            cy,
        );
    assert(in_window(grid, half2, x, y, cx, cy));
}

} // verus!
