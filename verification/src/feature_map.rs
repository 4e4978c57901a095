//! The feature-map buffer: the planes of an image at any stage of the
//! pipeline, with their padding and row strides.

use crate::grid::{grid_of, has_shape, lemma_grids_equal, planar_grid, Grid};
use crate::layout::{clamped, plane_at};
use vstd::prelude::*;

verus! {

/// How the planes of a buffer are to be read.
#[derive(Clone, Copy, Debug, PartialEq, Eq, Structural)]
pub enum ColorSpace {
    /// A red, a green and a blue plane.
    RGB,
    /// A luma plane and two chroma planes of full resolution.
    I444,
}

/// A set of planes of equal extent.
///
/// `width` and `height` give the valid region. Around it each plane holds
/// `padding` more samples on every side, so a plane has `height + 2 * padding`
/// rows of `width + 2 * padding` samples; row `y` of plane `p` starts at
/// `y * strides[p]` in `data[p]`.
#[derive(Clone, Debug)]
pub struct Image<T> {
    /// The columns of the valid region.
    pub width: usize,
    /// The rows of the valid region.
    pub height: usize,
    /// How the first three planes are to be read.
    pub color_space: ColorSpace,
    /// The samples of each plane, row by row.
    pub data: Vec<Vec<T>>,
    /// For each plane, the samples from the start of one row to the start of
    /// the next.
    pub strides: Vec<usize>,
    /// The samples around the valid region, the same on every side.
    pub padding: usize,
    /// Every stride is a multiple of the alignment; 1 leaves it free.
    pub alignment: usize,
}

impl<T: Copy> Image<T> {
    /// The number of samples in a row, padding included.
    pub open spec fn full_width(&self) -> int {
        self.width + 2 * self.padding
    }

    /// The number of rows, padding included.
    pub open spec fn full_height(&self) -> int {
        self.height + 2 * self.padding
    }

    /// Every plane has a stride that holds a full row and is a multiple of the
    /// alignment, and a buffer of exactly `full_height` rows of that stride.
    pub open spec fn wf(&self) -> bool {
        &&& self.alignment >= 1
        &&& self.strides.len() == self.data.len()
        &&& self.full_width() <= usize::MAX
        &&& self.full_height() <= usize::MAX
        &&& forall|p: int|
            0 <= p < self.data.len() ==> {
                &&& (#[trigger] self.strides[p]) >= self.full_width()
                &&& self.strides[p] % self.alignment == 0
            }
        &&& forall|p: int|
            0 <= p < self.data.len() ==> (#[trigger] self.data[p]).len() == self.full_height()
                * self.strides[p]
    }

    /// The sample of plane `p` at row `y` and column `x`, counted from the
    /// corner of the padded plane.
    pub open spec fn sample(&self, p: int, y: int, x: int) -> T {
        plane_at(self.data[p]@, self.strides[p] as int, y, x)
    }

    /// The sample of plane `p` at row `y` and column `x` of the valid region.
    pub open spec fn pixel(&self, p: int, y: int, x: int) -> T {
        self.sample(p, y + self.padding, x + self.padding)
    }

    /// All samples of the buffer, padding included.
    pub open spec fn grid(&self) -> Grid<T> {
        planar_grid(self.data@, self.strides@, self.full_width(), self.full_height())
    }

    /// The samples of the valid region.
    pub open spec fn valid_grid(&self) -> Grid<T> {
        grid_of(
            self.data.len() as int,
            self.height as int,
            self.width as int,
            |p: int, y: int, x: int| self.pixel(p, y, x),
        )
    }

    /// The row of the valid region that is nearest to row `y`, both counted
    /// from the corner of the padded plane.
    pub open spec fn nearest_row(&self, y: int) -> int {
        clamped(y, self.padding as int, self.padding + self.height - 1)
    }

    /// The column of the valid region that is nearest to column `x`, both
    /// counted from the corner of the padded plane.
    pub open spec fn nearest_column(&self, x: int) -> int {
        clamped(x, self.padding as int, self.padding + self.width - 1)
    }

    /// The two buffers have the same extent, padding, alignment, color space,
    /// plane count and strides.
    pub open spec fn same_layout(&self, other: &Image<T>) -> bool {
        &&& self.width == other.width
        &&& self.height == other.height
        &&& self.color_space == other.color_space
        &&& self.padding == other.padding
        &&& self.alignment == other.alignment
        &&& self.strides@ == other.strides@
        &&& self.data.len() == other.data.len()
    }

    /// The grid of all samples has the shape of the padded planes.
    pub proof fn lemma_grid_shape(&self)
        requires
            self.wf(),
        ensures
            has_shape(self.grid(), self.data.len() as int, self.full_height(), self.full_width()),
            has_shape(
                self.valid_grid(),
                self.data.len() as int,
                self.height as int,
                self.width as int,
            ),
            forall|p: int, y: int, x: int|
                0 <= p < self.data.len() && 0 <= y < self.full_height() && 0 <= x
                    < self.full_width() ==> #[trigger] self.grid()[p][y][x] == self.sample(p, y, x),
            forall|p: int, y: int, x: int|
                0 <= p < self.data.len() && 0 <= y < self.height && 0 <= x < self.width
                    ==> #[trigger] self.valid_grid()[p][y][x] == self.pixel(p, y, x),
            self.padding == 0 ==> self.grid() == self.valid_grid(),
    {
        if self.padding == 0 {
            assert forall|p: int, y: int, x: int|
                0 <= p < self.data.len() && 0 <= y < self.height && 0 <= x
                    < self.width implies #[trigger] self.grid()[p][y][x]
                == self.valid_grid()[p][y][x] by {
                assert(self.grid()[p][y][x] == self.sample(p, y, x));
            }
            lemma_grids_equal(
                self.grid(),
                self.valid_grid(),
                self.data.len() as int,
                self.height as int,
                self.width as int,
            );
        }
    }

    /// Decides [`Image::wf`].
    pub fn is_well_formed(&self) -> (r: bool)
        ensures
            r == self.wf(),
    {
        if self.alignment == 0 || self.strides.len() != self.data.len() {
            return false;
        }
        let twice = match self.padding.checked_mul(2) {
            Some(n) => n,
            None => {
                return false;
            },
        };
        let full_width = match self.width.checked_add(twice) {
            Some(n) => n,
            None => {
                return false;
            },
        };
        let full_height = match self.height.checked_add(twice) {
            Some(n) => n,
            None => {
                return false;
            },
        };
        let mut p: usize = 0;
        while p < self.data.len()
            invariant
                p <= self.data.len(),
                self.alignment >= 1,
                self.strides.len() == self.data.len(),
                full_width == self.full_width(),
                full_height == self.full_height(),
                forall|q: int|
                    0 <= q < p ==> {
                        &&& (#[trigger] self.strides[q]) >= self.full_width()
                        &&& self.strides[q] % self.alignment == 0
                    },
                forall|q: int|
                    0 <= q < p ==> (#[trigger] self.data[q]).len() == self.full_height()
                        * self.strides[q],
            decreases self.data.len() - p,
        {
            let stride = self.strides[p];
            if stride < full_width || stride % self.alignment != 0 {
                return false;
            }
            match full_height.checked_mul(stride) {
                Some(n) => {
                    if self.data[p].len() != n {
                        return false;
                    }
                },
                None => {
                    assert(self.data[p as int].len() <= usize::MAX);
                    return false;
                },
            }
            p += 1;
        }
        true
    }
}

} // verus!
