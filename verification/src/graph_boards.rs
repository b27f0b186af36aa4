use vstd::prelude::*;
use crate::game::MAX_CELLS;

verus! {

/// The mines of a sphere of `num_faces` faces: as asked, but at most all
/// faces but ten.
pub fn sphere_mines(num_faces: usize, mines: usize) -> (m: usize)
    ensures
        m == if num_faces < 10 {
            0
        } else if mines < num_faces - 10 {
            mines as int
        } else {
            num_faces - 10
        },
{
    let cap = if num_faces < 10 { 0 } else { num_faces - 10 };
    if mines < cap {
        mines
    } else {
        cap
    }
}

/// The mines of a hyperbolic board of `n` cells for the `wanted` number
/// that its density gives: at least five, at most all cells but ten.
pub fn hyperbolic_mines(n: usize, wanted: usize) -> (m: usize)
    requires
        n >= 15,
    ensures
        m == if wanted < 5 {
            5
        } else if wanted > n - 10 {
            n - 10
        } else {
            wanted as int
        },
{
    if wanted < 5 {
        5
    } else if wanted > n - 10 {
        n - 10
    } else {
        wanted
    }
}

/// The mines of a Voronoi board of `n` cells: at least one, at most all
/// cells but nine.
pub fn voronoi_mines(n: usize, mines: usize) -> (m: usize)
    requires
        n >= 10,
    ensures
        m == if mines < 1 {
            1
        } else if mines > n - 9 {
            n - 9
        } else {
            mines as int
        },
{
    if mines < 1 {
        1
    } else if mines > n - 9 {
        n - 9
    } else {
        mines
    }
}

/// The mines of an `sx` by `sy` by `sz` cube: as asked, but at most all
/// cells but 28 (the clicked cell's 3x3x3 block stays free).
pub fn cube_mines(total: usize, mines: usize) -> (m: usize)
    ensures
        m == if total < 28 {
            0
        } else if mines < total - 28 {
            mines as int
        } else {
            total - 28
        },
{
    let cap = if total < 28 { 0 } else { total - 28 };
    if mines < cap {
        mines
    } else {
        cap
    }
}

/// The index of cell (`x`, `y`, `z`) of a cube `sx` wide and `sy` deep.
pub open spec fn cube_index(sx: int, sy: int, x: int, y: int, z: int) -> int {
    (z * sy + y) * sx + x
}

/// The offset of the `k`-th of the 27 cells of a 3x3x3 block, each
/// coordinate plus one, in scan order (z, then y, then x).
pub open spec fn block_offset(k: int) -> (int, int, int) {
    (k % 3, (k / 3) % 3, k / 9)
}

/// The neighbours of (`x`, `y`, `z`) among the first `k` cells of its block,
/// as indices, in scan order.
pub open spec fn cube_nbrs(sx: int, sy: int, sz: int, x: int, y: int, z: int, k: int) -> Seq<usize>
    decreases k,
{
    if k <= 0 {
        Seq::empty()
    } else {
        let rest = cube_nbrs(sx, sy, sz, x, y, z, k - 1);
        let o = block_offset(k - 1);
        let (nx, ny, nz) = (x + o.0 - 1, y + o.1 - 1, z + o.2 - 1);
        if k - 1 != 13 && 0 <= nx < sx && 0 <= ny < sy && 0 <= nz < sz {
            rest.push(cube_index(sx, sy, nx, ny, nz) as usize)
        } else {
            rest
        }
    }
}

/// The neighbour lists of an `sx` by `sy` by `sz` cube: every cell touches
/// the up to 26 others of its 3x3x3 block, listed in scan order.
pub fn cube_adjacency(sx: usize, sy: usize, sz: usize) -> (adj: Vec<Vec<usize>>)
    requires
        sx * sy * sz <= MAX_CELLS,
    ensures
        adj@.len() == sx * sy * sz,
        forall|x: int, y: int, z: int|
            0 <= x < sx && 0 <= y < sy && 0 <= z < sz ==> #[trigger] adj@[cube_index(sx as int, sy as int, x, y, z)]@
                == cube_nbrs(sx as int, sy as int, sz as int, x, y, z, 27),
        forall|i: int| 0 <= i < adj@.len() ==> (#[trigger] adj@[i])@.len() <= 27,
        forall|i: int, j: int| 0 <= i < adj@.len() && 0 <= j < adj@[i]@.len() ==> #[trigger] adj@[i]@[j] < adj@.len(),
{
    let mut adj: Vec<Vec<usize>> = Vec::new();
    assert(0 * sy * sx == 0) by (nonlinear_arith);
    for z in 0..sz
        invariant
            sx * sy * sz <= MAX_CELLS,
            adj@.len() == z * sy * sx,
            forall|i: int| 0 <= i < adj@.len() ==> (#[trigger] adj@[i])@.len() <= 27,
            forall|i: int, j: int| 0 <= i < adj@.len() && 0 <= j < adj@[i]@.len() ==> #[trigger] adj@[i]@[j] < sx * sy * sz,
            forall|x: int, y: int, zz: int|
                0 <= x < sx && 0 <= y < sy && 0 <= zz < z ==> #[trigger] adj@[cube_index(sx as int, sy as int, x, y, zz)]@
                    == cube_nbrs(sx as int, sy as int, sz as int, x, y, zz, 27),
    {
        for y in 0..sy
            invariant
                sx * sy * sz <= MAX_CELLS,
                z < sz,
                adj@.len() == (z * sy + y) * sx,
                forall|i: int| 0 <= i < adj@.len() ==> (#[trigger] adj@[i])@.len() <= 27,
                forall|i: int, j: int| 0 <= i < adj@.len() && 0 <= j < adj@[i]@.len() ==> #[trigger] adj@[i]@[j] < sx * sy * sz,
                forall|x: int, yy: int, zz: int|
                    0 <= x < sx && 0 <= yy < sy && 0 <= zz < sz && (zz < z || (zz == z && yy < y)) ==> #[trigger] adj@[cube_index(sx as int, sy as int, x, yy, zz)]@
                        == cube_nbrs(sx as int, sy as int, sz as int, x, yy, zz, 27),
        {
            for x in 0..sx
                invariant
                    sx * sy * sz <= MAX_CELLS,
                    z < sz,
                    y < sy,
                    adj@.len() == (z * sy + y) * sx + x,
                    forall|i: int| 0 <= i < adj@.len() ==> (#[trigger] adj@[i])@.len() <= 27,
                    forall|i: int, j: int| 0 <= i < adj@.len() && 0 <= j < adj@[i]@.len() ==> #[trigger] adj@[i]@[j] < sx * sy * sz,
                    forall|xx: int, yy: int, zz: int|
                        0 <= xx < sx && 0 <= yy < sy && 0 <= zz < sz && (zz < z || (zz == z && yy < y) || (zz == z && yy == y && xx < x))
                            ==> #[trigger] adj@[cube_index(sx as int, sy as int, xx, yy, zz)]@ == cube_nbrs(sx as int, sy as int, sz as int, xx, yy, zz, 27),
            {
                proof {
                    cube_index_bounds(sx as int, sy as int, sz as int, x as int, y as int, z as int);
                }
                let l = cube_cell_nbrs(sx, sy, sz, x, y, z);
                let ghost before = adj@;
                adj.push(l);
                proof {
                    assert forall|i: int, j: int| 0 <= i < adj@.len() && 0 <= j < adj@[i]@.len() implies #[trigger] adj@[i]@[j] < sx * sy * sz by {
                        if i < before.len() {
                            assert(adj@[i] == before[i]);
                        }
                    }
                    assert forall|xx: int, yy: int, zz: int|
                        0 <= xx < sx && 0 <= yy < sy && 0 <= zz < sz && (zz < z || (zz == z && yy < y) || (zz == z && yy == y && xx < x + 1))
                            implies #[trigger] adj@[cube_index(sx as int, sy as int, xx, yy, zz)]@ == cube_nbrs(sx as int, sy as int, sz as int, xx, yy, zz, 27) by {
                        cube_index_order(sx as int, sy as int, xx, yy, zz, x as int, y as int, z as int);
                        if (xx, yy, zz) != (x as int, y as int, z as int) {
                            assert(adj@[cube_index(sx as int, sy as int, xx, yy, zz)] == before[cube_index(sx as int, sy as int, xx, yy, zz)]);
                        }
                    }
                }
            }
            assert((z * sy + y) * sx + sx == (z * sy + (y + 1)) * sx) by (nonlinear_arith);
        }
        assert((z * sy + sy) * sx == (z + 1) * sy * sx) by (nonlinear_arith);
    }
    assert(sz * sy * sx == sx * sy * sz) by (nonlinear_arith);
    adj
}

/// Indices of earlier cells in scan order are smaller.
proof fn cube_index_order(sx: int, sy: int, xx: int, yy: int, zz: int, x: int, y: int, z: int)
    requires
        0 <= xx < sx,
        0 <= yy < sy,
        0 <= x < sx,
        0 <= y < sy,
        0 <= zz,
        0 <= z,
        zz < z || (zz == z && yy < y) || (zz == z && yy == y && xx <= x),
    ensures
        cube_index(sx, sy, xx, yy, zz) <= cube_index(sx, sy, x, y, z),
        cube_index(sx, sy, xx, yy, zz) == cube_index(sx, sy, x, y, z) ==> (xx, yy, zz) == (x, y, z),
{
    if zz < z {
        assert((zz * sy + yy) * sx + xx < (z * sy + y) * sx + x) by (nonlinear_arith)
            requires 0 <= xx < sx, 0 <= yy < sy, 0 <= x, 0 <= y, 0 <= zz < z;
    } else if yy < y {
        assert((zz * sy + yy) * sx + xx < (z * sy + y) * sx + x) by (nonlinear_arith)
            requires 0 <= xx < sx, 0 <= yy < y, 0 <= x, zz == z;
    }
}

/// The index of a cell of the cube lies below the number of cells.
proof fn cube_index_bounds(sx: int, sy: int, sz: int, x: int, y: int, z: int)
    requires
        0 <= x < sx,
        0 <= y < sy,
        0 <= z < sz,
    ensures
        0 <= cube_index(sx, sy, x, y, z) < sx * sy * sz,
        cube_index(sx, sy, x, y, z) + 1 <= sx * sy * sz,
{
    assert(0 <= (z * sy + y) * sx + x) by (nonlinear_arith)
        requires 0 <= x < sx, 0 <= y < sy, 0 <= z < sz;
    assert((z * sy + y) * sx + x < sx * sy * sz) by (nonlinear_arith)
        requires 0 <= x < sx, 0 <= y < sy, 0 <= z < sz;
}

/// The neighbour list of one cell of the cube.
fn cube_cell_nbrs(sx: usize, sy: usize, sz: usize, x: usize, y: usize, z: usize) -> (l: Vec<usize>)
    requires
        sx * sy * sz <= MAX_CELLS,
        x < sx,
        y < sy,
        z < sz,
    ensures
        l@ == cube_nbrs(sx as int, sy as int, sz as int, x as int, y as int, z as int, 27),
        forall|i: int| 0 <= i < l@.len() ==> (#[trigger] l@[i]) < sx * sy * sz,
        l@.len() <= 27,
{
    let mut l: Vec<usize> = Vec::new();
    assert(sx <= MAX_CELLS && sy <= MAX_CELLS && sz <= MAX_CELLS) by (nonlinear_arith)
        requires sx * sy * sz <= MAX_CELLS, x < sx, y < sy, z < sz;
    for k in 0..27usize
        invariant
            sx * sy * sz <= MAX_CELLS,
            x < sx,
            y < sy,
            z < sz,
            sx <= MAX_CELLS && sy <= MAX_CELLS && sz <= MAX_CELLS,
            l@ == cube_nbrs(sx as int, sy as int, sz as int, x as int, y as int, z as int, k as int),
            forall|i: int| 0 <= i < l@.len() ==> (#[trigger] l@[i]) < sx * sy * sz,
            l@.len() <= k,
    {
        let ox = k % 3;
        let oy = (k / 3) % 3;
        let oz = k / 9;
        assert(block_offset(k as int) == (ox as int, oy as int, oz as int));
        if k != 13 && !(ox == 0 && x == 0) && !(oy == 0 && y == 0) && !(oz == 0 && z == 0) && x + ox - 1 < sx
            && y + oy - 1 < sy && z + oz - 1 < sz {
            let nx = x + ox - 1;
            let ny = y + oy - 1;
            let nz = z + oz - 1;
            proof {
                cube_index_bounds(sx as int, sy as int, sz as int, nx as int, ny as int, nz as int);
                assert((nz * sy + ny) * sx + nx < sx * sy * sz);
                assert(nz * sy <= sx * sy * sz) by (nonlinear_arith)
                    requires nz < sz, sx >= 1, sy >= 1, nx < sx, ny < sy;
                assert(nz * sy + ny <= sx * sy * sz) by (nonlinear_arith)
                    requires nz < sz, sx >= 1, ny < sy, nx < sx;
                assert((nz * sy + ny) * sx <= sx * sy * sz) by (nonlinear_arith)
                    requires nz < sz, ny < sy, nx < sx;
            }
            l.push((nz * sy + ny) * sx + nx);
        }
    }
    l
}

/// Whether two triangles share a corner.
pub open spec fn share_corner(a: [usize; 3], b: [usize; 3]) -> bool {
    exists|i: int, j: int| 0 <= i < 3 && 0 <= j < 3 && #[trigger] a@[i] == #[trigger] b@[j]
}

/// The faces among the first `k` that share a corner with face `fi`, other
/// than `fi` itself, in increasing order.
pub open spec fn face_nbrs(faces: Seq<[usize; 3]>, fi: int, k: int) -> Seq<usize>
    decreases k,
{
    if k <= 0 {
        Seq::empty()
    } else if k - 1 != fi && share_corner(faces[fi], faces[k - 1]) {
        face_nbrs(faces, fi, k - 1).push((k - 1) as usize)
    } else {
        face_nbrs(faces, fi, k - 1)
    }
}

/// Whether two triangles share a corner.
fn shares_corner(a: &[usize; 3], b: &[usize; 3]) -> (r: bool)
    ensures
        r == share_corner(*a, *b),
{
    let mut i: usize = 0;
    while i < 3
        invariant
            0 <= i <= 3,
            forall|p: int, q: int| 0 <= p < i && 0 <= q < 3 ==> a@[p] != b@[q],
        decreases 3 - i,
    {
        let mut j: usize = 0;
        while j < 3
            invariant
                0 <= i < 3,
                0 <= j <= 3,
                forall|p: int, q: int| 0 <= p < i && 0 <= q < 3 ==> a@[p] != b@[q],
                forall|q: int| 0 <= q < j ==> a@[i as int] != b@[q],
            decreases 3 - j,
        {
            if a[i] == b[j] {
                assert(a@[i as int] == b@[j as int]);
                return true;
            }
            j = j + 1;
        }
        i = i + 1;
    }
    false
}

/// The neighbour lists of the faces of a triangle mesh: two faces touch
/// when they share a corner; each list is in increasing order.
pub fn face_adjacency(faces: &Vec<[usize; 3]>) -> (adj: Vec<Vec<usize>>)
    ensures
        adj@.len() == faces@.len(),
        forall|fi: int| 0 <= fi < faces@.len() ==> #[trigger] adj@[fi]@ == face_nbrs(faces@, fi, faces@.len() as int),
        forall|i: int, j: int| 0 <= i < adj@.len() && 0 <= j < adj@[i]@.len() ==> #[trigger] adj@[i]@[j] < adj@.len(),
{
    let n = faces.len();
    let mut adj: Vec<Vec<usize>> = Vec::new();
    for fi in 0..n
        invariant
            n == faces@.len(),
            adj@.len() == fi,
            forall|f: int| 0 <= f < fi ==> #[trigger] adj@[f]@ == face_nbrs(faces@, f, n as int),
            forall|i: int, j: int| 0 <= i < adj@.len() && 0 <= j < adj@[i]@.len() ==> #[trigger] adj@[i]@[j] < n,
    {
        let mut l: Vec<usize> = Vec::new();
        for fj in 0..n
            invariant
                n == faces@.len(),
                fi < n,
                l@ == face_nbrs(faces@, fi as int, fj as int),
                forall|j: int| 0 <= j < l@.len() ==> #[trigger] l@[j] < fj,
        {
            if fj != fi && shares_corner(&faces[fi], &faces[fj]) {
                l.push(fj);
            }
        }
        let ghost before = adj@;
        adj.push(l);
        proof {
            assert forall|i: int, j: int| 0 <= i < adj@.len() && 0 <= j < adj@[i]@.len() implies #[trigger] adj@[i]@[j] < n by {
                if i < before.len() {
                    assert(adj@[i] == before[i]);
                }
            }
        }
    }
    adj
}

} // verus!
