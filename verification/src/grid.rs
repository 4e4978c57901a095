//! Grids: the samples of a set of planes by plane, row and column, as the
//! contracts of the library speak of them.

use crate::layout::{clamped, plane_at};
use vstd::prelude::*;

verus! {

/// The samples of a set of planes, by plane, row and column.
pub type Grid<T> = Seq<Seq<Seq<T>>>;

/// The grid of `planes` planes of `h` rows of `w` samples in which `f` gives
/// the sample of a plane at a row and column.
pub open spec fn grid_of<T>(planes: int, h: int, w: int, f: spec_fn(int, int, int) -> T) -> Grid<
    T,
> {
    Seq::new(
        planes as nat,
        |p: int| Seq::new(h as nat, |y: int| Seq::new(w as nat, |x: int| f(p, y, x))),
    )
}

/// A grid has `planes` planes of `h` rows of `w` samples.
pub open spec fn has_shape<T>(g: Grid<T>, planes: int, h: int, w: int) -> bool {
    &&& g.len() == planes
    &&& forall|p: int| 0 <= p < g.len() ==> (#[trigger] g[p]).len() == h
    &&& forall|p: int, y: int|
        0 <= p < g.len() && 0 <= y < g[p].len() ==> (#[trigger] g[p][y]).len() == w
}

/// Two grids of one shape that agree in every sample are equal.
pub proof fn lemma_grids_equal<T>(a: Grid<T>, b: Grid<T>, planes: int, h: int, w: int)
    requires
        has_shape(a, planes, h, w),
        has_shape(b, planes, h, w),
        forall|p: int, y: int, x: int|
            0 <= p < planes && 0 <= y < h && 0 <= x < w ==> #[trigger] a[p][y][x] == b[p][y][x],
    ensures
        a == b,
{
    assert forall|p: int| 0 <= p < a.len() implies a[p] == b[p] by {
        assert forall|y: int| 0 <= y < a[p].len() implies a[p][y] == b[p][y] by {
            assert(a[p][y].len() == b[p][y].len());
            assert(a[p][y] =~= b[p][y]);
        }
        assert(a[p] =~= b[p]);
    }
    assert(a =~= b);
}

/// The first `h` rows of `w` samples of each plane, where plane `p` is stored
/// row by row with stride `strides[p]`.
pub open spec fn planar_grid<T>(planes: Seq<Vec<T>>, strides: Seq<usize>, w: int, h: int) -> Grid<
    T,
> {
    Seq::new(
        planes.len(),
        |p: int|
            Seq::new(
                h as nat,
                |y: int| Seq::new(w as nat, |x: int| plane_at(planes[p]@, strides[p] as int, y, x)),
            ),
    )
}

/// Every plane has a stride of at least `w` and holds exactly `h` rows of its
/// stride.
pub open spec fn planes_hold<T>(planes: Seq<Vec<T>>, strides: Seq<usize>, w: int, h: int) -> bool {
    &&& strides.len() == planes.len()
    &&& forall|p: int| 0 <= p < planes.len() ==> (#[trigger] strides[p]) >= w
    &&& forall|p: int|
        0 <= p < planes.len() ==> (#[trigger] planes[p]).len() == h * strides[p]
}

/// A grid of `h` rows of `w` samples, enlarged to twice the rows and columns:
/// each sample covers a block of two rows and two columns.
pub open spec fn doubled<T>(g: Grid<T>, h: int, w: int) -> Grid<T> {
    grid_of(g.len() as int, 2 * h, 2 * w, |p: int, y: int, x: int| g[p][y / 2][x / 2])
}

/// A grid of `h` rows of `w` samples with `padding` samples around it on
/// every side, each a copy of the nearest sample of the grid.
pub open spec fn replicated<T>(g: Grid<T>, h: int, w: int, padding: int) -> Grid<T> {
    grid_of(
        g.len() as int,
        h + 2 * padding,
        w + 2 * padding,
        |p: int, y: int, x: int| g[p][clamped(y - padding, 0, h - 1)][clamped(x - padding, 0, w - 1)],
    )
}

} // verus!
