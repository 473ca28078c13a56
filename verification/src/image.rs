use crate::scalar::Luminance;
use vstd::prelude::*;

verus! {

/// A grid of samples, stored row by row.
#[derive(Debug, Clone)]
pub struct Image<T> {
    pub pixels: Vec<T>,
    pub width: usize,
    pub height: usize,
}

/// The brightness of every sample of a raster, row by row: what the
/// contracts of the filters speak of.
pub struct Grid<S> {
    pub cells: Seq<S>,
    pub width: nat,
    pub height: nat,
}

impl<S> Grid<S> {
    /// There is one cell for every place of the grid.
    pub open spec fn well_formed(self) -> bool {
        self.cells.len() == self.width * self.height
    }

    /// The cell in column `x` of row `y`.
    pub open spec fn at(self, x: int, y: int) -> S {
        self.cells[y * self.width + x]
    }
}

impl<T> Image<T> {
    /// There is one sample for every place of the raster.
    pub open spec fn well_formed(&self) -> bool {
        self.pixels@.len() == self.width * self.height
    }

    /// Whether there is one sample for every place of the raster.
    pub fn is_well_formed(&self) -> (b: bool)
        ensures
            b == self.well_formed(),
    {
        let len: usize = self.pixels.len();
        if self.width == 0 || self.height == 0 {
            proof {
                assert(self.width * self.height == 0) by (nonlinear_arith)
                    requires
                        self.width == 0 || self.height == 0,
                ;
            }
            len == 0
        } else if self.width > len / self.height {
            proof {
                let w = self.width as int;
                let h = self.height as int;
                let q = len as int / h;
                vstd::arithmetic::div_mod::lemma_fundamental_div_mod(len as int, h);
                vstd::arithmetic::div_mod::lemma_mod_bound(len as int, h);
                assert(w * h >= (q + 1) * h) by (nonlinear_arith)
                    requires
                        w >= q + 1,
                        h > 0,
                ;
                assert((q + 1) * h == h * q + h) by (nonlinear_arith);
            }
            false
        } else {
            proof {
                let w = self.width as int;
                let h = self.height as int;
                let q = len as int / h;
                vstd::arithmetic::div_mod::lemma_fundamental_div_mod(len as int, h);
                vstd::arithmetic::div_mod::lemma_mod_bound(len as int, h);
                assert(w * h <= q * h) by (nonlinear_arith)
                    requires
                        0 <= w <= q,
                        h > 0,
                ;
                assert(q * h == h * q) by (nonlinear_arith);
            }
            self.width * self.height == len
        }
    }
}

/// The brightness of every sample of `image`.
pub open spec fn luminances<T: Luminance>(image: &Image<T>) -> Grid<T::Value> {
    Grid {
        cells: Seq::new(image.pixels@.len(), |i: int| image.pixels@[i].spec_luminance()),
        width: image.width as nat,
        height: image.height as nat,
    }
}

/// A place inside a grid of `w` columns and `h` rows has its index inside
/// the row-major storage.
pub proof fn lemma_index_in_bounds(x: int, y: int, w: int, h: int)
    requires
        0 <= x < w,
        0 <= y < h,
    ensures
        0 <= y * w <= y * w + x < w * h,
        (y + 1) * w <= w * h,
{
    assert(y * w >= 0) by (nonlinear_arith)
        requires
            y >= 0,
            w >= 0,
    ;
    assert((y + 1) * w <= h * w) by (nonlinear_arith)
        requires
            y + 1 <= h,
            w >= 0,
    ;
    assert((y + 1) * w == y * w + w) by (nonlinear_arith);
    assert(h * w == w * h) by (nonlinear_arith);
}

/// The index of a place determines the place.
pub proof fn lemma_place_of_index(x: int, y: int, w: int)
    requires
        0 <= x < w,
        0 <= y,
    ensures
        (y * w + x) % w == x,
        (y * w + x) / w == y,
{
    vstd::arithmetic::div_mod::lemma_fundamental_div_mod_converse(y * w + x, w, y, x);
}

/// The brightness of the sample in column `x` of row `y`.
pub fn luminance_at<T: Luminance>(image: &Image<T>, x: usize, y: usize) -> (l: T::Value)
    requires
        image.well_formed(),
        x < image.width,
        y < image.height,
    ensures
        l == luminances(image).at(x as int, y as int),
{
    let len: usize = image.pixels.len();
    proof {
        lemma_index_in_bounds(x as int, y as int, image.width as int, image.height as int);
        assert(y * image.width + x < len);
    }
    image.pixels[y * image.width + x].luminance()
}

} // verus!
