use vstd::prelude::*;

use crate::gpu::GpuAvailability;
use crate::layout::flat_index;

verus! {

/// Cell `(i, j)` of an `nx × ny` grid lies on its edge.
pub open spec fn on_boundary(i: int, j: int, nx: int, ny: int) -> bool {
    i == 0 || i == nx - 1 || j == 0 || j == ny - 1
}

/// The edge cells of a grid are those in its first or last row or column.
pub proof fn law_boundary_cells(i: int, j: int, nx: int, ny: int)
    ensures
        on_boundary(i, j, nx, ny) <==> (i == 0 || i == nx - 1 || j == 0 || j == ny - 1),
{
}

/// Two cells of a row-major layout share an offset only when they are the
/// same cell.
proof fn lemma_flat_index_injective(i1: int, j1: int, i2: int, j2: int, w: int)
    requires
        0 <= i1,
        0 <= i2,
        0 <= j1 < w,
        0 <= j2 < w,
        flat_index(i1, j1, w) == flat_index(i2, j2, w),
    ensures
        i1 == i2,
        j1 == j2,
{
    if i1 < i2 {
        assert(i1 * w + j1 < i2 * w + j2) by (nonlinear_arith)
            requires
                i1 < i2,
                0 <= j1 < w,
                0 <= j2,
        ;
    } else if i2 < i1 {
        assert(i2 * w + j2 < i1 * w + j1) by (nonlinear_arith)
            requires
                i2 < i1,
                0 <= j2 < w,
                0 <= j1,
        ;
    }
}

/// Cells of an `nx × ny` layout lie inside it.
proof fn lemma_cell_inside(i: int, j: int, nx: int, ny: int)
    requires
        0 <= i < nx,
        0 <= j < ny,
    ensures
        0 <= flat_index(i, j, ny) < nx * ny,
{
    assert(0 <= i * ny + j < nx * ny) by (nonlinear_arith)
        requires
            0 <= i < nx,
            0 <= j < ny,
    ;
}

/// Sets every edge cell of the row-major `nx × ny` grid held in `data` to
/// `value` (Dirichlet boundary conditions); other entries are unchanged.
pub fn set_boundary<T: Copy>(data: &mut Vec<T>, nx: usize, ny: usize, value: T)
    requires
        (nx == 0) == (ny == 0),
        nx * ny <= old(data)@.len(),
    ensures
        final(data)@.len() == old(data)@.len(),
        forall|i: int, j: int|
            0 <= i < nx && 0 <= j < ny ==> #[trigger] final(data)@[flat_index(i, j, ny as int)] == (
            if on_boundary(i, j, nx as int, ny as int) {
                value
            } else {
                old(data)@[flat_index(i, j, ny as int)]
            }),
        forall|k: int| nx * ny <= k < old(data)@.len() ==> #[trigger] final(data)@[k] == old(data)@[k],
{
    let ghost orig = data@;
    let len = data.len();
    let mut i: usize = 0;
    while i < nx
        invariant
            (nx == 0) == (ny == 0),
            nx * ny <= orig.len(),
            data@.len() == orig.len(),
            orig.len() == len,
            i <= nx,
            forall|i2: int, j: int|
                0 <= i2 < nx && 0 <= j < ny ==> #[trigger] data@[flat_index(i2, j, ny as int)] == (
                if i2 < i && (j == 0 || j == ny - 1) {
                    value
                } else {
                    orig[flat_index(i2, j, ny as int)]
                }),
            forall|k: int| nx * ny <= k < orig.len() ==> #[trigger] data@[k] == orig[k],
        decreases nx - i,
    {
        proof {
            lemma_cell_inside(i as int, 0, nx as int, ny as int);
            lemma_cell_inside(i as int, ny - 1, nx as int, ny as int);
        }
        let ghost before = data@;
        data.set(i * ny, value);
        let ghost middle = data@;
        data.set(i * ny + ny - 1, value);
        proof {
            assert forall|i2: int, j: int|
                0 <= i2 < nx && 0 <= j < ny implies #[trigger] data@[flat_index(i2, j, ny as int)]
                == (if i2 < i + 1 && (j == 0 || j == ny - 1) {
                value
            } else {
                orig[flat_index(i2, j, ny as int)]
            }) by {
                lemma_cell_inside(i2, j, nx as int, ny as int);
                let f = flat_index(i2, j, ny as int);
                if f == flat_index(i as int, 0, ny as int) {
                    lemma_flat_index_injective(i2, j, i as int, 0, ny as int);
                } else if f == flat_index(i as int, ny - 1, ny as int) {
                    lemma_flat_index_injective(i2, j, i as int, ny - 1, ny as int);
                } else {
                    assert(data@[f] == before[f]);
                    if i2 == i && (j == 0 || j == ny - 1) {
                        assert(false);
                    }
                }
            }
            assert forall|k: int| nx * ny <= k < orig.len() implies #[trigger] data@[k] == orig[k] by {
                assert(data@[k] == before[k]);
            }
        }
        i = i + 1;
    }
    let mut j: usize = 0;
    while j < ny
        invariant
            (nx == 0) == (ny == 0),
            nx * ny <= orig.len(),
            data@.len() == orig.len(),
            orig.len() == len,
            j <= ny,
            forall|i2: int, j2: int|
                0 <= i2 < nx && 0 <= j2 < ny ==> #[trigger] data@[flat_index(i2, j2, ny as int)] == (
                if (j2 == 0 || j2 == ny - 1) || (j2 < j && (i2 == 0 || i2 == nx - 1)) {
                    value
                } else {
                    orig[flat_index(i2, j2, ny as int)]
                }),
            forall|k: int| nx * ny <= k < orig.len() ==> #[trigger] data@[k] == orig[k],
        decreases ny - j,
    {
        proof {
            lemma_cell_inside(0, j as int, nx as int, ny as int);
            lemma_cell_inside(nx - 1, j as int, nx as int, ny as int);
            assert(flat_index(0, j as int, ny as int) == j);
        }
        let ghost before = data@;
        data.set(j, value);
        data.set((nx - 1) * ny + j, value);
        proof {
            assert forall|i2: int, j2: int|
                0 <= i2 < nx && 0 <= j2 < ny implies #[trigger] data@[flat_index(i2, j2, ny as int)]
                == (if (j2 == 0 || j2 == ny - 1) || (j2 < j + 1 && (i2 == 0 || i2 == nx - 1)) {
                value
            } else {
                orig[flat_index(i2, j2, ny as int)]
            }) by {
                lemma_cell_inside(i2, j2, nx as int, ny as int);
                let f = flat_index(i2, j2, ny as int);
                if f == flat_index(0, j as int, ny as int) {
                    lemma_flat_index_injective(i2, j2, 0, j as int, ny as int);
                } else if f == flat_index(nx - 1, j as int, ny as int) {
                    lemma_flat_index_injective(i2, j2, nx - 1, j as int, ny as int);
                } else {
                    assert(data@[f] == before[f]);
                    if j2 == j && (i2 == 0 || i2 == nx - 1) {
                        assert(false);
                    }
                }
            }
            assert forall|k: int| nx * ny <= k < orig.len() implies #[trigger] data@[k] == orig[k] by {
                assert(data@[k] == before[k]);
            }
        }
        j = j + 1;
    }
}

/// PDE bridge dispatching grid operations.
pub struct PdeBridge {
    gpu_avail: bool,
}

impl PdeBridge {
    pub fn new(avail: &GpuAvailability) -> (r: Self)
        ensures
            r.uses_gpu() == avail.gpu_available,
    {
        PdeBridge { gpu_avail: avail.gpu_available }
    }

    /// Whether the probe that made this bridge found a GPU.
    pub closed spec fn uses_gpu(&self) -> bool {
        self.gpu_avail
    }
}

} // verus!
