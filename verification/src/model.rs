//! Layer descriptors and models.

use vstd::prelude::*;

verus! {

/// One 3x3 convolution layer: for each output plane a bias and, for each input
/// plane, a 3x3 kernel in row-major order (`weight[out][in][row][column]`).
#[allow(non_snake_case)]
#[derive(Clone, Debug)]
pub struct Layer<T> {
    /// The planes that the layer takes.
    pub nInputPlane: u32,
    /// The planes that the layer gives.
    pub nOutputPlane: u32,
    /// The width of a kernel, always 3.
    pub kW: u32,
    /// The height of a kernel, always 3.
    pub kH: u32,
    /// One bias for each output plane.
    pub bias: Vec<T>,
    /// For each output plane and each input plane, the three rows of three
    /// taps of a kernel.
    pub weight: Vec<Vec<Vec<Vec<T>>>>,
}

/// An ordered sequence of layers, applied from the first to the last.
pub type Model<T> = Vec<Layer<T>>;

impl<T: Copy> Layer<T> {
    /// The dimensions of `bias` and `weight` are those that the plane counts
    /// announce, and every kernel is 3x3.
    pub open spec fn wf(&self) -> bool {
        &&& self.kW == 3
        &&& self.kH == 3
        &&& self.bias.len() == self.nOutputPlane
        &&& self.weight.len() == self.nOutputPlane
        &&& forall|o: int|
            0 <= o < self.weight.len() ==> kernels_ok(
                #[trigger] self.weight[o]@,
                self.nInputPlane as int,
            )
    }

    /// The nine taps of the kernel from input plane `i` to output plane `o`,
    /// row by row.
    pub open spec fn kernel(&self, o: int, i: int) -> Seq<T> {
        taps(self.weight[o][i]@)
    }

    /// Decides [`Layer::wf`].
    pub fn is_well_formed(&self) -> (r: bool)
        ensures
            r == self.wf(),
    {
        if self.kW != 3 || self.kH != 3 {
            return false;
        }
        if self.bias.len() != self.nOutputPlane as usize || self.weight.len()
            != self.nOutputPlane as usize {
            return false;
        }
        let n_out = self.weight.len();
        let mut o: usize = 0;
        while o < n_out
            invariant
                o <= n_out,
                n_out == self.weight.len(),
                forall|p: int|
                    0 <= p < o ==> kernels_ok(#[trigger] self.weight[p]@, self.nInputPlane as int),
            decreases n_out - o,
        {
            let per_out = &self.weight[o];
            if per_out.len() != self.nInputPlane as usize {
                return false;
            }
            let mut i: usize = 0;
            while i < per_out.len()
                invariant
                    i <= per_out.len(),
                    o < self.weight.len(),
                    per_out == &self.weight[o as int],
                    forall|q: int| 0 <= q < i ==> kernel_ok(#[trigger] per_out[q]@),
                decreases per_out.len() - i,
            {
                let k = &per_out[i];
                if k.len() != 3 || k[0].len() != 3 || k[1].len() != 3 || k[2].len() != 3 {
                    assert(!kernel_ok(per_out[i as int]@));
                    assert(!kernels_ok(self.weight[o as int]@, self.nInputPlane as int));
                    return false;
                }
                i += 1;
            }
            o += 1;
        }
        true
    }
}

/// The nine taps of a kernel, row by row.
pub open spec fn taps<T>(k: Seq<Vec<T>>) -> Seq<T> {
    seq![k[0][0], k[0][1], k[0][2], k[1][0], k[1][1], k[1][2], k[2][0], k[2][1], k[2][2]]
}

/// A kernel has three rows of three taps.
pub open spec fn kernel_ok<T>(k: Seq<Vec<T>>) -> bool {
    &&& k.len() == 3
    &&& forall|r: int| 0 <= r < 3 ==> (#[trigger] k[r]).len() == 3
}

/// One output plane has a 3x3 kernel for each of the `n_in` input planes.
pub open spec fn kernels_ok<T>(per_out: Seq<Vec<Vec<T>>>, n_in: int) -> bool {
    &&& per_out.len() == n_in
    &&& forall|i: int| 0 <= i < per_out.len() ==> kernel_ok(#[trigger] per_out[i]@)
}

/// The layers form a model: there is at least one, each is well formed, and
/// each takes as many planes as the one before it gives.
pub open spec fn chained<T: Copy>(layers: Seq<Layer<T>>) -> bool {
    &&& layers.len() >= 1
    &&& forall|k: int| 0 <= k < layers.len() ==> (#[trigger] layers[k]).wf()
    &&& forall|k: int|
        1 <= k < layers.len() ==> (#[trigger] layers[k]).nInputPlane == layers[k
            - 1].nOutputPlane
}

/// Decides [`chained`].
pub fn is_chained<T: Copy>(model: &Model<T>) -> (r: bool)
    ensures
        r == chained(model@),
{
    if model.len() == 0 {
        return false;
    }
    let mut k: usize = 0;
    while k < model.len()
        invariant
            k <= model.len(),
            forall|i: int| 0 <= i < k ==> (#[trigger] model@[i]).wf(),
            forall|i: int|
                1 <= i < k ==> (#[trigger] model@[i]).nInputPlane == model@[i - 1].nOutputPlane,
        decreases model.len() - k,
    {
        if !model[k].is_well_formed() {
            return false;
        }
        if k > 0 && model[k].nInputPlane != model[k - 1].nOutputPlane {
            return false;
        }
        k += 1;
    }
    true
}

} // verus!
