use vstd::prelude::*;

use crate::error::WkwError;
use crate::header::VoxelType;
use crate::vec3::Box3;
use crate::vec3::Vec3;

verus! {

/// The linear index of voxel (x, y, z) in a fortran-order grid whose two
/// fastest extents are `sx` and `sy`: x runs fastest.
pub open spec fn flin(sx: int, sy: int, x: int, y: int, z: int) -> int {
    x + sx * (y + sy * z)
}

/// The linear voxel index in a shaped grid, honouring the storage order.
pub open spec fn lin(shape: Vec3, c_order: bool, x: int, y: int, z: int) -> int {
    if c_order {
        flin(shape.z as int, shape.y as int, z, y, x)
    } else {
        flin(shape.x as int, shape.y as int, x, y, z)
    }
}

/// A voxel of a grid has a linear index inside the grid volume.
pub proof fn lemma_flin_bound(sx: int, sy: int, sz: int, x: int, y: int, z: int)
    requires
        0 <= x < sx,
        0 <= y < sy,
        0 <= z < sz,
    ensures
        0 <= flin(sx, sy, x, y, z) < sx * sy * sz,
{
    assert(0 <= x + sx * (y + sy * z) < sx * sy * sz) by (nonlinear_arith)
        requires
            0 <= x < sx && 0 <= y < sy && 0 <= z < sz,
    ;
}

/// Two distinct voxels of a grid have distinct linear indices.
pub proof fn lemma_flin_inj(
    sx: int,
    sy: int,
    x1: int,
    y1: int,
    z1: int,
    x2: int,
    y2: int,
    z2: int,
)
    requires
        0 <= x1 < sx,
        0 <= y1 < sy,
        0 <= x2 < sx,
        0 <= y2 < sy,
        0 <= z1,
        0 <= z2,
        flin(sx, sy, x1, y1, z1) == flin(sx, sy, x2, y2, z2),
    ensures
        x1 == x2 && y1 == y2 && z1 == z2,
{
    let q = flin(sx, sy, x1, y1, z1);
    assert(0 <= y1 + sy * z1) by (nonlinear_arith)
        requires
            0 <= y1 && 0 <= z1 && 0 <= sy,
    ;
    assert(0 <= y2 + sy * z2) by (nonlinear_arith)
        requires
            0 <= y2 && 0 <= z2 && 0 <= sy,
    ;
    vstd::arithmetic::div_mod::lemma_fundamental_div_mod_converse(
        q,
        sx,
        y1 + sy * z1,
        x1,
    );
    vstd::arithmetic::div_mod::lemma_fundamental_div_mod_converse(
        q,
        sx,
        y2 + sy * z2,
        x2,
    );
    assert(x1 == x2 && y1 + sy * z1 == y2 + sy * z2);
    vstd::arithmetic::div_mod::lemma_fundamental_div_mod_converse(
        y1 + sy * z1,
        sy,
        z1,
        y1,
    );
    vstd::arithmetic::div_mod::lemma_fundamental_div_mod_converse(
        y1 + sy * z1,
        sy,
        z2,
        y2,
    );
}

/// Every linear index below the grid volume belongs to exactly one voxel.
pub proof fn lemma_flin_surj(sx: int, sy: int, sz: int, q: int)
    requires
        0 <= q < sx * sy * sz,
        sx >= 1,
        sy >= 1,
        sz >= 1,
    ensures
        exists|x: int, y: int, z: int|
            0 <= x < sx && 0 <= y < sy && 0 <= z < sz && flin(sx, sy, x, y, z) == q,
{
    let x = q % sx;
    let rest = q / sx;
    let y = rest % sy;
    let z = rest / sy;
    vstd::arithmetic::div_mod::lemma_fundamental_div_mod(q, sx);
    vstd::arithmetic::div_mod::lemma_fundamental_div_mod(rest, sy);
    vstd::arithmetic::div_mod::lemma_mod_bound(q, sx);
    vstd::arithmetic::div_mod::lemma_mod_bound(rest, sy);
    assert(q == x + sx * (y + sy * z)) by (nonlinear_arith)
        requires
            q == sx * rest + x && rest == sy * z + y,
    ;
    assert(rest < sy * sz) by (nonlinear_arith)
        requires
            q < sx * sy * sz && q == sx * rest + x && 0 <= x && sx >= 1,
    ;
    assert(z < sz) by (nonlinear_arith)
        requires
            rest < sy * sz && rest == sy * z + y && 0 <= y && sy >= 1,
    ;
    assert(0 <= rest) by (nonlinear_arith)
        requires
            q == sx * rest + x && 0 <= q && x < sx && sx >= 1,
    ;
    assert(0 <= z) by (nonlinear_arith)
        requires
            rest == sy * z + y && 0 <= rest && y < sy && sy >= 1,
    ;
    assert(flin(sx, sy, x, y, z) == q);
}

/// A byte of a voxel lies in the byte run of a stripe of `w` voxels exactly
/// when the voxel's index lies in the stripe's index range.
pub proof fn lemma_byte_in_stripe(a: int, b: int, w: int, vs: int, k: int)
    requires
        vs >= 1,
        0 <= k < vs,
        w >= 0,
        0 <= a,
        0 <= b,
    ensures
        (a * vs <= b * vs + k < (a + w) * vs) <==> (a <= b < a + w),
{
    assert((a * vs <= b * vs + k < (a + w) * vs) <==> (a <= b < a + w)) by (nonlinear_arith)
        requires
            vs >= 1 && 0 <= k < vs && w >= 0 && 0 <= a && 0 <= b,
    ;
}

/// Copy `n` bytes from `src` at `si` into `dst` at `di`; everything outside
/// the written run keeps its value.
pub(crate) fn copy_bytes(dst: &mut Vec<u8>, di: usize, src: &Vec<u8>, si: usize, n: usize)
    requires
        di + n <= old(dst)@.len(),
        si + n <= src@.len(),
    ensures
        final(dst)@.len() == old(dst)@.len(),
        forall|j: int| di <= j < di + n ==> final(dst)@[j] == src@[si + (j - di)],
        forall|j: int|
            0 <= j < old(dst)@.len() && !(di <= j < di + n) ==> final(dst)@[j] == old(dst)@[j],
{
    let dlen = dst.len();
    let slen = src.len();
    let mut i: usize = 0;
    while i < n
        invariant
            i <= n,
            di + n <= dst@.len(),
            si + n <= src@.len(),
            dst@.len() <= usize::MAX,
            src@.len() <= usize::MAX,
            dst@.len() == old(dst)@.len(),
            forall|j: int| di <= j < di + i ==> dst@[j] == src@[si + (j - di)],
            forall|j: int|
                0 <= j < old(dst)@.len() && !(di <= j < di + i) ==> dst@[j] == old(dst)@[j],
        decreases n - i,
    {
        let b = src[si + i];
        dst.set(di + i, b);
        i = i + 1;
    }
}

/// A shape-typed, voxel-typed, storage-order-aware rectangular view over a
/// flat byte buffer.
pub struct Mat {
    pub data: Vec<u8>,
    pub shape: Vec3,
    pub voxel_size: usize,
    pub voxel_type: VoxelType,
    pub data_in_c_order: bool,
}

impl Mat {
    /// The number of voxels of the matrix.
    pub open spec fn numel(self) -> int {
        self.shape.spec_product()
    }

    /// The buffer length matches the shape, and a voxel is a whole number of
    /// elements.
    pub open spec fn wf(self) -> bool {
        &&& self.data@.len() == self.numel() * self.voxel_size
        &&& self.voxel_size as int % self.voxel_type.spec_size() == 0
    }

    /// The byte of channel-offset `k` of the voxel at (x, y, z).
    pub open spec fn voxel_byte(self, x: int, y: int, z: int, k: int) -> u8 {
        self.data@[lin(self.shape, self.data_in_c_order, x, y, z) * self.voxel_size + k]
    }

    /// Build a matrix view over a byte buffer.
    pub fn new(
        data: Vec<u8>,
        shape: Vec3,
        voxel_size: usize,
        voxel_type: VoxelType,
        data_in_c_order: bool,
    ) -> (r: Result<Mat, WkwError>)
        requires
            shape.spec_product() * voxel_size <= usize::MAX,
            shape.spec_product() <= usize::MAX,
        ensures
            r is Ok <==> data@.len() == shape.spec_product() * voxel_size && voxel_size as int
                % voxel_type.spec_size() == 0,
            r matches Ok(m) ==> m == (Mat { data, shape, voxel_size, voxel_type, data_in_c_order })
                && m.wf(),
            data@.len() != shape.spec_product() * voxel_size ==> r == Err::<Mat, WkwError>(
                WkwError::ShapeMismatch,
            ),
            data@.len() == shape.spec_product() * voxel_size && voxel_size as int
                % voxel_type.spec_size() != 0 ==> r == Err::<Mat, WkwError>(
                WkwError::VoxelSizeMismatch,
            ),
    {
        let numel = mat_numel(shape);
        proof {
            if shape.z > 0 {
                assert(shape.x as int * shape.y as int <= shape.spec_product())
                    by (nonlinear_arith)
                    requires
                        shape.z >= 1,
                ;
            }
            assert(numel * voxel_size == shape.spec_product() * voxel_size);
        }
        let expected_len = numel * voxel_size;
        if data.len() != expected_len {
            return Err(WkwError::ShapeMismatch);
        }
        if voxel_size % voxel_type.size() != 0 {
            return Err(WkwError::VoxelSizeMismatch);
        }
        Ok(Mat { data, shape, voxel_size, voxel_type, data_in_c_order })
    }

    /// Borrow the underlying bytes.
    pub fn as_slice(&self) -> (r: &[u8])
        ensures
            r@ == self.data@,
    {
        self.data.as_slice()
    }

    /// Give the underlying byte buffer back.
    pub fn into_bytes(self) -> (r: Vec<u8>)
        ensures
            r@ == self.data@,
    {
        self.data
    }

    /// The byte position of the voxel at `pos`.
    pub fn offset(&self, pos: Vec3) -> (r: usize)
        requires
            self.wf(),
            self.voxel_size >= 1,
            pos.all_lt(self.shape),
        ensures
            r == lin(self.shape, self.data_in_c_order, pos.x as int, pos.y as int, pos.z as int)
                * self.voxel_size,
            r + self.voxel_size <= self.data@.len(),
    {
        proof {
            vstd::std_specs::vec::axiom_spec_len(&self.data);
            if self.data_in_c_order {
                lemma_flin_bound(
                    self.shape.z as int,
                    self.shape.y as int,
                    self.shape.x as int,
                    pos.z as int,
                    pos.y as int,
                    pos.x as int,
                );
                assert(self.shape.z as int * self.shape.y as int * self.shape.x as int
                    == self.numel()) by (nonlinear_arith);
            } else {
                lemma_flin_bound(
                    self.shape.x as int,
                    self.shape.y as int,
                    self.shape.z as int,
                    pos.x as int,
                    pos.y as int,
                    pos.z as int,
                );
            }
            let q = lin(
                self.shape,
                self.data_in_c_order,
                pos.x as int,
                pos.y as int,
                pos.z as int,
            );
            assert((q + 1) * self.voxel_size <= self.numel() * self.voxel_size)
                by (nonlinear_arith)
                requires
                    q + 1 <= self.numel() && self.voxel_size >= 0,
            ;
            assert(q * self.voxel_size + self.voxel_size == (q + 1) * self.voxel_size)
                by (nonlinear_arith);
            assert(q <= q * self.voxel_size) by (nonlinear_arith)
                requires
                    self.voxel_size >= 1 && q >= 0,
            ;
        }
        let offset_vx: usize = if self.data_in_c_order {
            flin_usize(
                self.shape.z as usize,
                self.shape.y as usize,
                pos.z as usize,
                pos.y as usize,
                pos.x as usize,
            )
        } else {
            flin_usize(
                self.shape.x as usize,
                self.shape.y as usize,
                pos.x as usize,
                pos.y as usize,
                pos.z as usize,
            )
        };
        offset_vx * self.voxel_size
    }

}

/// The fortran linear index, as executable code.
fn flin_usize(sx: usize, sy: usize, x: usize, y: usize, z: usize) -> (r: usize)
    requires
        x < sx,
        y < sy,
        flin(sx as int, sy as int, x as int, y as int, z as int) <= usize::MAX,
    ensures
        r == flin(sx as int, sy as int, x as int, y as int, z as int),
{
    proof {
        assert(sy * z <= y + sy * z && y + sy * z <= sx * (y + sy * z) && sx * (y + sy * z) <= x
            + sx * (y + sy * z)) by (nonlinear_arith)
            requires
                sx >= 1 && sy >= 1 && x >= 0 && y >= 0 && z >= 0,
        ;
    }
    x + sx * (y + sy * z)
}

/// The voxel count of a shape, as executable code.
fn mat_numel(shape: Vec3) -> (r: usize)
    requires
        shape.spec_product() <= usize::MAX,
    ensures
        r == shape.spec_product(),
{
    if shape.x == 0 || shape.y == 0 || shape.z == 0 {
        proof {
            assert(shape.spec_product() == 0) by (nonlinear_arith)
                requires
                    shape.x == 0 || shape.y == 0 || shape.z == 0,
            ;
        }
        0
    } else {
        proof {
            assert(shape.x as int * shape.y as int <= shape.spec_product()) by (nonlinear_arith)
                requires
                    shape.z >= 1 && shape.x >= 0 && shape.y >= 0,
            ;
        }
        shape.x as usize * shape.y as usize * shape.z as usize
    }
}


/// Byte `k` of the voxel at (x, y, z) of a flat fortran-order grid buffer.
pub open spec fn grid_byte(
    s: Seq<u8>,
    sx: int,
    sy: int,
    vs: int,
    x: int,
    y: int,
    z: int,
    k: int,
) -> u8 {
    s[flin(sx, sy, x, y, z) * vs + k]
}

/// The byte index of the voxel `x` places into a stripe equals the stripe
/// base plus `x` voxel strides.
proof fn lemma_stripe_index(sx: int, sy: int, x0: int, y: int, z: int, x: int, vs: int, k: int)
    ensures
        flin(sx, sy, x0 + x, y, z) * vs + k == flin(sx, sy, x0, y, z) * vs + x * vs + k,
{
    assert((x0 + x + sx * (y + sy * z)) * vs == (x0 + sx * (y + sy * z)) * vs + x * vs)
        by (nonlinear_arith);
}

/// Copy a `wx` by `wy` by `wz` box of voxels of `vs` bytes each between two
/// fortran-order grids: `dst` is a `dsx` by `dsy` by `dsz` grid and receives
/// the box at (dx, dy, dz); `src` is a `ssx` by `ssy` by `ssz` grid and gives
/// the box at (sx, sy, sz).  Voxels outside the written box keep their bytes.
#[verifier::rlimit(30)]
fn copy_box(
    dst: &mut Vec<u8>,
    dsx: usize,
    dsy: usize,
    dsz: usize,
    dx: usize,
    dy: usize,
    dz: usize,
    src: &Vec<u8>,
    ssx: usize,
    ssy: usize,
    ssz: usize,
    sx: usize,
    sy: usize,
    sz: usize,
    wx: usize,
    wy: usize,
    wz: usize,
    vs: usize,
)
    requires
        old(dst)@.len() == dsx * dsy * dsz * vs,
        src@.len() == ssx * ssy * ssz * vs,
        dx + wx <= dsx,
        dy + wy <= dsy,
        dz + wz <= dsz,
        sx + wx <= ssx,
        sy + wy <= ssy,
        sz + wz <= ssz,
    ensures
        final(dst)@.len() == old(dst)@.len(),
        forall|x: int, y: int, z: int, k: int|
            0 <= x < wx && 0 <= y < wy && 0 <= z < wz && 0 <= k < vs ==> #[trigger] grid_byte(
                final(dst)@,
                dsx as int,
                dsy as int,
                vs as int,
                dx + x,
                dy + y,
                dz + z,
                k,
            ) == grid_byte(src@, ssx as int, ssy as int, vs as int, sx + x, sy + y, sz + z, k),
        forall|px: int, py: int, pz: int, k: int|
            0 <= px < dsx && 0 <= py < dsy && 0 <= pz < dsz && 0 <= k < vs && !(dx <= px < dx + wx
                && dy <= py < dy + wy && dz <= pz < dz + wz) ==> #[trigger] grid_byte(
                final(dst)@,
                dsx as int,
                dsy as int,
                vs as int,
                px,
                py,
                pz,
                k,
            ) == grid_byte(old(dst)@, dsx as int, dsy as int, vs as int, px, py, pz, k),
{
    if wx == 0 || wy == 0 || wz == 0 || vs == 0 {
        return ;
    }
    let dlen = dst.len();
    let slen = src.len();
    proof {
        assert(wx * vs <= dsx * dsy * dsz * vs && dsx * dsy * dsz * vs <= usize::MAX)
            by (nonlinear_arith)
            requires
                wx <= dsx && dsy >= 1 && dsz >= 1 && vs >= 0 && dsx >= 0 && dsx * dsy * dsz * vs
                    == dlen && dlen <= usize::MAX,
        ;
    }
    let stripe = wx * vs;
    let mut cz: usize = 0;
    while cz < wz
        invariant
            cz <= wz,
            wx >= 1 && wy >= 1 && wz >= 1 && vs >= 1,
            stripe == wx * vs,
            dst@.len() == dlen && dlen == dsx * dsy * dsz * vs && dlen <= usize::MAX,
            src@.len() == slen && slen == ssx * ssy * ssz * vs && slen <= usize::MAX,
            dst@.len() == old(dst)@.len(),
            dx + wx <= dsx && dy + wy <= dsy && dz + wz <= dsz,
            sx + wx <= ssx && sy + wy <= ssy && sz + wz <= ssz,
            forall|x: int, y: int, z: int, k: int|
                0 <= x < wx && 0 <= y < wy && 0 <= z < cz && 0 <= k < vs ==> #[trigger] grid_byte(
                    dst@,
                    dsx as int,
                    dsy as int,
                    vs as int,
                    dx + x,
                    dy + y,
                    dz + z,
                    k,
                ) == grid_byte(src@, ssx as int, ssy as int, vs as int, sx + x, sy + y, sz + z, k),
            forall|px: int, py: int, pz: int, k: int|
                0 <= px < dsx && 0 <= py < dsy && 0 <= pz < dsz && 0 <= k < vs && !(dx <= px < dx
                    + wx && dy <= py < dy + wy && dz <= pz < dz + cz) ==> #[trigger] grid_byte(
                    dst@,
                    dsx as int,
                    dsy as int,
                    vs as int,
                    px,
                    py,
                    pz,
                    k,
                ) == grid_byte(old(dst)@, dsx as int, dsy as int, vs as int, px, py, pz, k),
        decreases wz - cz,
    {
        let mut cy: usize = 0;
        while cy < wy
            invariant
                cy <= wy && cz < wz,
                wx >= 1 && wy >= 1 && wz >= 1 && vs >= 1,
                stripe == wx * vs,
                dst@.len() == dlen && dlen == dsx * dsy * dsz * vs && dlen <= usize::MAX,
                src@.len() == slen && slen == ssx * ssy * ssz * vs && slen <= usize::MAX,
                dst@.len() == old(dst)@.len(),
                dx + wx <= dsx && dy + wy <= dsy && dz + wz <= dsz,
                sx + wx <= ssx && sy + wy <= ssy && sz + wz <= ssz,
                forall|x: int, y: int, z: int, k: int|
                    0 <= x < wx && 0 <= y < wy && 0 <= z < cz && 0 <= k < vs ==> #[trigger]
                        grid_byte(
                        dst@,
                        dsx as int,
                        dsy as int,
                        vs as int,
                        dx + x,
                        dy + y,
                        dz + z,
                        k,
                    ) == grid_byte(
                        src@,
                        ssx as int,
                        ssy as int,
                        vs as int,
                        sx + x,
                        sy + y,
                        sz + z,
                        k,
                    ),
                forall|x: int, y: int, k: int|
                    0 <= x < wx && 0 <= y < cy && 0 <= k < vs ==> #[trigger] grid_byte(
                        dst@,
                        dsx as int,
                        dsy as int,
                        vs as int,
                        dx + x,
                        dy + y,
                        dz + cz,
                        k,
                    ) == grid_byte(
                        src@,
                        ssx as int,
                        ssy as int,
                        vs as int,
                        sx + x,
                        sy + y,
                        sz + cz,
                        k,
                    ),
                forall|px: int, py: int, pz: int, k: int|
                    0 <= px < dsx && 0 <= py < dsy && 0 <= pz < dsz && 0 <= k < vs && !(dx <= px
                        < dx + wx && dy <= py < dy + wy && (dz <= pz < dz + cz || (pz == dz + cz
                        && py < dy + cy))) ==> #[trigger] grid_byte(
                        dst@,
                        dsx as int,
                        dsy as int,
                        vs as int,
                        px,
                        py,
                        pz,
                        k,
                    ) == grid_byte(old(dst)@, dsx as int, dsy as int, vs as int, px, py, pz, k),
            decreases wy - cy,
        {
            proof {
                lemma_flin_bound(
                    dsx as int,
                    dsy as int,
                    dsz as int,
                    dx as int,
                    dy + cy,
                    dz + cz,
                );
                lemma_flin_bound(
                    ssx as int,
                    ssy as int,
                    ssz as int,
                    sx as int,
                    sy + cy,
                    sz + cz,
                );
                let dq0 = flin(dsx as int, dsy as int, dx as int, dy + cy, dz + cz);
                let sq0 = flin(ssx as int, ssy as int, sx as int, sy + cy, sz + cz);
                assert(dq0 <= dsx * dsy * dsz * vs && sq0 <= ssx * ssy * ssz * vs)
                    by (nonlinear_arith)
                    requires
                        0 <= dq0 < dsx * dsy * dsz && 0 <= sq0 < ssx * ssy * ssz && vs >= 1,
                ;
                lemma_flin_bound(
                    dsx as int,
                    dsy as int,
                    dsz as int,
                    dx + wx - 1,
                    dy + cy,
                    dz + cz,
                );
                lemma_flin_bound(
                    ssx as int,
                    ssy as int,
                    ssz as int,
                    sx + wx - 1,
                    sy + cy,
                    sz + cz,
                );
                lemma_stripe_index(
                    dsx as int,
                    dsy as int,
                    dx as int,
                    dy + cy,
                    dz + cz,
                    wx - 1,
                    vs as int,
                    0,
                );
                lemma_stripe_index(
                    ssx as int,
                    ssy as int,
                    sx as int,
                    sy + cy,
                    sz + cz,
                    wx - 1,
                    vs as int,
                    0,
                );
                let dq = flin(dsx as int, dsy as int, dx as int, dy + cy, dz + cz);
                let sq = flin(ssx as int, ssy as int, sx as int, sy + cy, sz + cz);
                assert((dq + wx) * vs <= dsx * dsy * dsz * vs && dq * vs + wx * vs == (dq + wx)
                    * vs && 0 <= dq * vs) by (nonlinear_arith)
                    requires
                        0 <= dq && dq + wx <= dsx * dsy * dsz && vs >= 0 && dsx * dsy * dsz >= 0,
                ;
                assert((sq + wx) * vs <= ssx * ssy * ssz * vs && sq * vs + wx * vs == (sq + wx)
                    * vs && 0 <= sq * vs) by (nonlinear_arith)
                    requires
                        0 <= sq && sq + wx <= ssx * ssy * ssz && vs >= 0 && ssx * ssy * ssz >= 0,
                ;
            }
            let db = flin_usize(dsx, dsy, dx, dy + cy, dz + cz);
            let sb = flin_usize(ssx, ssy, sx, sy + cy, sz + cz);
            let di = db * vs;
            let si = sb * vs;
            let ghost pre = dst@;
            copy_bytes(dst, di, src, si, stripe);
            proof {
                let dq = flin(dsx as int, dsy as int, dx as int, dy + cy, dz + cz);
                let sq = flin(ssx as int, ssy as int, sx as int, sy + cy, sz + cz);
                assert forall|x: int, k: int| 0 <= x < wx && 0 <= k < vs implies #[trigger]
                    grid_byte(dst@, dsx as int, dsy as int, vs as int, dx + x, dy + cy, dz + cz, k)
                    == grid_byte(
                    src@,
                    ssx as int,
                    ssy as int,
                    vs as int,
                    sx + x,
                    sy + cy,
                    sz + cz,
                    k,
                ) by {
                    lemma_stripe_index(
                        dsx as int,
                        dsy as int,
                        dx as int,
                        dy + cy,
                        dz + cz,
                        x,
                        vs as int,
                        k,
                    );
                    lemma_stripe_index(
                        ssx as int,
                        ssy as int,
                        sx as int,
                        sy + cy,
                        sz + cz,
                        x,
                        vs as int,
                        k,
                    );
                    assert(0 <= x * vs + k < wx * vs) by (nonlinear_arith)
                        requires
                            0 <= x && x + 1 <= wx && 0 <= k < vs && vs >= 1,
                    ;
                }
                assert forall|px: int, py: int, pz: int, k: int|
                    0 <= px < dsx && 0 <= py < dsy && 0 <= pz < dsz && 0 <= k < vs && !(dy + cy
                        == py && dz + cz == pz && dx <= px < dx + wx) implies #[trigger] grid_byte(
                    dst@,
                    dsx as int,
                    dsy as int,
                    vs as int,
                    px,
                    py,
                    pz,
                    k,
                ) == grid_byte(pre, dsx as int, dsy as int, vs as int, px, py, pz, k) by {
                    let pq = flin(dsx as int, dsy as int, px, py, pz);
                    lemma_flin_bound(dsx as int, dsy as int, dsz as int, px, py, pz);
                    lemma_byte_in_stripe(dq, pq, wx as int, vs as int, k);
                    let vol = dsx as int * dsy as int * dsz as int;
                    assert(0 <= pq * vs && pq * vs + k < vol * vs) by (nonlinear_arith)
                        requires
                            0 <= pq && pq + 1 <= vol && 0 <= k < vs,
                    ;
                    assert(dq * vs + wx * vs == (dq + wx) * vs) by (nonlinear_arith);
                    if dq <= pq < dq + wx {
                        lemma_stripe_index(
                            dsx as int,
                            dsy as int,
                            dx as int,
                            dy + cy,
                            dz + cz,
                            pq - dq,
                            vs as int,
                            0,
                        );
                        lemma_flin_inj(
                            dsx as int,
                            dsy as int,
                            px,
                            py,
                            pz,
                            dx + (pq - dq),
                            dy + cy,
                            dz + cz,
                        );
                    }
                }
            }
            cy = cy + 1;
        }
        cz = cz + 1;
    }
}


/// The two matrices agree in everything but their bytes.
pub open spec fn same_view(a: Mat, b: Mat) -> bool {
    &&& a.shape == b.shape
    &&& a.voxel_size == b.voxel_size
    &&& a.voxel_type == b.voxel_type
    &&& a.data_in_c_order == b.data_in_c_order
    &&& a.data@.len() == b.data@.len()
}

/// Every voxel of the `w`-sized region at `dst_pos` of `nu` holds the bytes
/// of the corresponding voxel of the region at `src_min` of `src`.
pub open spec fn region_copied(nu: Mat, src: Mat, dst_pos: Vec3, src_min: Vec3, w: Vec3) -> bool {
    forall|x: int, y: int, z: int, k: int|
        0 <= x < w.x && 0 <= y < w.y && 0 <= z < w.z && 0 <= k < nu.voxel_size
            ==> #[trigger] nu.voxel_byte(dst_pos.x + x, dst_pos.y + y, dst_pos.z + z, k)
            == src.voxel_byte(src_min.x + x, src_min.y + y, src_min.z + z, k)
}

/// Every voxel of `nu` outside the `w`-sized region at `dst_pos` holds the
/// bytes it holds in `ol`.
pub open spec fn region_untouched(nu: Mat, ol: Mat, dst_pos: Vec3, w: Vec3) -> bool {
    forall|px: int, py: int, pz: int, k: int|
        0 <= px < nu.shape.x && 0 <= py < nu.shape.y && 0 <= pz < nu.shape.z && 0 <= k
            < nu.voxel_size && !(dst_pos.x <= px < dst_pos.x + w.x && dst_pos.y <= py < dst_pos.y
            + w.y && dst_pos.z <= pz < dst_pos.z + w.z) ==> #[trigger] nu.voxel_byte(px, py, pz, k)
            == ol.voxel_byte(px, py, pz, k)
}

impl Mat {
    /// The matrices can exchange voxels: equal voxel size and type.
    pub open spec fn compatible(self, src: Mat) -> bool {
        self.voxel_size == src.voxel_size && self.voxel_type == src.voxel_type
    }

    /// Copy the voxels of `src_box` of `src` to the region of the same width
    /// at `dst_pos`; both matrices must share the storage order, and every
    /// voxel outside the written region keeps its bytes.
    pub fn copy_from(&mut self, dst_pos: Vec3, src: &Mat, src_box: Box3) -> (r: Result<
        (),
        WkwError,
    >)
        requires
            old(self).wf(),
            src.wf(),
            src_box.wf(),
        ensures
            final(self).wf(),
            same_view(*final(self), *old(self)),
            r is Ok <==> {
                &&& old(self).voxel_size == src.voxel_size
                &&& old(self).voxel_type == src.voxel_type
                &&& src_box.max.all_le(src.shape)
                &&& dst_pos.x + src_box.max.x - src_box.min.x <= old(self).shape.x
                &&& dst_pos.y + src_box.max.y - src_box.min.y <= old(self).shape.y
                &&& dst_pos.z + src_box.max.z - src_box.min.z <= old(self).shape.z
                &&& old(self).data_in_c_order == src.data_in_c_order
            },
            r is Ok ==> region_copied(
                *final(self),
                *src,
                dst_pos,
                src_box.min,
                Vec3 {
                    x: (src_box.max.x - src_box.min.x) as u32,
                    y: (src_box.max.y - src_box.min.y) as u32,
                    z: (src_box.max.z - src_box.min.z) as u32,
                },
            ) && region_untouched(
                *final(self),
                *old(self),
                dst_pos,
                Vec3 {
                    x: (src_box.max.x - src_box.min.x) as u32,
                    y: (src_box.max.y - src_box.min.y) as u32,
                    z: (src_box.max.z - src_box.min.z) as u32,
                },
            ),
            r is Err ==> *final(self) == *old(self),
            r is Err ==> (r == Err::<(), WkwError>(WkwError::VoxelSizeMismatch) || r == Err::<
                (),
                WkwError,
            >(WkwError::VoxelTypeMismatch) || r == Err::<(), WkwError>(WkwError::OutOfBounds) || r
                == Err::<(), WkwError>(WkwError::OrderMismatch)),
    {
        if self.voxel_size != src.voxel_size {
            return Err(WkwError::VoxelSizeMismatch);
        }
        if !voxel_type_eq(self.voxel_type, src.voxel_type) {
            return Err(WkwError::VoxelTypeMismatch);
        }
        if !src_box.max().le(src.shape) {
            return Err(WkwError::OutOfBounds);
        }
        let w = src_box.width();
        if dst_pos.x as u64 + w.x as u64 > self.shape.x as u64 || dst_pos.y as u64 + w.y as u64
            > self.shape.y as u64 || dst_pos.z as u64 + w.z as u64 > self.shape.z as u64 {
            return Err(WkwError::OutOfBounds);
        }
        if self.data_in_c_order != src.data_in_c_order {
            return Err(WkwError::OrderMismatch);
        }
        let ghost pre = *self;
        let s0 = src_box.min();
        proof {
            lemma_shape_product_flip(self.shape);
            lemma_shape_product_flip(src.shape);
        }
        if self.data_in_c_order {
            copy_box(
                &mut self.data,
                self.shape.z as usize,
                self.shape.y as usize,
                self.shape.x as usize,
                dst_pos.z as usize,
                dst_pos.y as usize,
                dst_pos.x as usize,
                &src.data,
                src.shape.z as usize,
                src.shape.y as usize,
                src.shape.x as usize,
                s0.z as usize,
                s0.y as usize,
                s0.x as usize,
                w.z as usize,
                w.y as usize,
                w.x as usize,
                self.voxel_size,
            );
            proof {
                let nu = *self;
                let vs = self.voxel_size as int;
                assert forall|x: int, y: int, z: int, k: int|
                    0 <= x < w.x && 0 <= y < w.y && 0 <= z < w.z && 0 <= k < vs implies #[trigger]
                    nu.voxel_byte(dst_pos.x + x, dst_pos.y + y, dst_pos.z + z, k)
                    == src.voxel_byte(s0.x + x, s0.y + y, s0.z + z, k) by {
                    assert(grid_byte(
                        nu.data@,
                        pre.shape.z as usize as int,
                        pre.shape.y as usize as int,
                        self.voxel_size as int,
                        dst_pos.z as usize + z,
                        dst_pos.y as usize + y,
                        dst_pos.x as usize + x,
                        k,
                    ) == grid_byte(
                        src.data@,
                        src.shape.z as usize as int,
                        src.shape.y as usize as int,
                        self.voxel_size as int,
                        s0.z as usize + z,
                        s0.y as usize + y,
                        s0.x as usize + x,
                        k,
                    ));
                }
                assert forall|px: int, py: int, pz: int, k: int|
                    0 <= px < nu.shape.x && 0 <= py < nu.shape.y && 0 <= pz < nu.shape.z && 0 <= k
                        < vs && !(dst_pos.x <= px < dst_pos.x + w.x && dst_pos.y <= py < dst_pos.y
                        + w.y && dst_pos.z <= pz < dst_pos.z + w.z) implies #[trigger]
                    nu.voxel_byte(px, py, pz, k) == pre.voxel_byte(px, py, pz, k) by {
                    assert(grid_byte(
                        nu.data@,
                        pre.shape.z as usize as int,
                        pre.shape.y as usize as int,
                        self.voxel_size as int,
                        pz,
                        py,
                        px,
                        k,
                    ) == grid_byte(
                        pre.data@,
                        pre.shape.z as usize as int,
                        pre.shape.y as usize as int,
                        self.voxel_size as int,
                        pz,
                        py,
                        px,
                        k,
                    ));
                }
            }
        } else {
            copy_box(
                &mut self.data,
                self.shape.x as usize,
                self.shape.y as usize,
                self.shape.z as usize,
                dst_pos.x as usize,
                dst_pos.y as usize,
                dst_pos.z as usize,
                &src.data,
                src.shape.x as usize,
                src.shape.y as usize,
                src.shape.z as usize,
                s0.x as usize,
                s0.y as usize,
                s0.z as usize,
                w.x as usize,
                w.y as usize,
                w.z as usize,
                self.voxel_size,
            );
            proof {
                let nu = *self;
                let vs = self.voxel_size as int;
                assert forall|x: int, y: int, z: int, k: int|
                    0 <= x < w.x && 0 <= y < w.y && 0 <= z < w.z && 0 <= k < vs implies #[trigger]
                    nu.voxel_byte(dst_pos.x + x, dst_pos.y + y, dst_pos.z + z, k)
                    == src.voxel_byte(s0.x + x, s0.y + y, s0.z + z, k) by {
                    assert(grid_byte(
                        nu.data@,
                        pre.shape.x as usize as int,
                        pre.shape.y as usize as int,
                        self.voxel_size as int,
                        dst_pos.x as usize + x,
                        dst_pos.y as usize + y,
                        dst_pos.z as usize + z,
                        k,
                    ) == grid_byte(
                        src.data@,
                        src.shape.x as usize as int,
                        src.shape.y as usize as int,
                        self.voxel_size as int,
                        s0.x as usize + x,
                        s0.y as usize + y,
                        s0.z as usize + z,
                        k,
                    ));
                }
                assert forall|px: int, py: int, pz: int, k: int|
                    0 <= px < nu.shape.x && 0 <= py < nu.shape.y && 0 <= pz < nu.shape.z && 0 <= k
                        < vs && !(dst_pos.x <= px < dst_pos.x + w.x && dst_pos.y <= py < dst_pos.y
                        + w.y && dst_pos.z <= pz < dst_pos.z + w.z) implies #[trigger]
                    nu.voxel_byte(px, py, pz, k) == pre.voxel_byte(px, py, pz, k) by {
                    assert(grid_byte(
                        nu.data@,
                        pre.shape.x as usize as int,
                        pre.shape.y as usize as int,
                        self.voxel_size as int,
                        px,
                        py,
                        pz,
                        k,
                    ) == grid_byte(
                        pre.data@,
                        pre.shape.x as usize as int,
                        pre.shape.y as usize as int,
                        self.voxel_size as int,
                        px,
                        py,
                        pz,
                        k,
                    ));
                }
            }
        }
        Ok(())
    }
}

/// Compare voxel types as executable code.
pub fn voxel_type_eq(a: VoxelType, b: VoxelType) -> (r: bool)
    ensures
        r == (a == b),
{
    a.size() == b.size() && type_rank(a) == type_rank(b)
}

/// A discriminating rank for voxel types of equal element size.
fn type_rank(a: VoxelType) -> (r: u8)
    ensures
        r == a.spec_code(),
{
    match a {
        VoxelType::U8 => 1,
        VoxelType::U16 => 2,
        VoxelType::U32 => 3,
        VoxelType::U64 => 4,
        VoxelType::F32 => 5,
        VoxelType::F64 => 6,
        VoxelType::I8 => 7,
        VoxelType::I16 => 8,
        VoxelType::I32 => 9,
        VoxelType::I64 => 10,
    }
}

/// The voxel count of a shape equals the voxel count of its flip.
proof fn lemma_shape_product_flip(shape: Vec3)
    ensures
        shape.spec_product() == shape.z as int * shape.y as int * shape.x as int,
        shape.spec_product() >= 0,
{
    assert(shape.x as int * shape.y as int * shape.z as int == shape.z as int * shape.y as int
        * shape.x as int && shape.x as int * shape.y as int * shape.z as int >= 0)
        by (nonlinear_arith);
}


/// Transpose a box of voxels between two grids over the same shape: `dst`
/// stores x fastest with extents (sx, sy, sz), `src` stores z fastest.
/// Voxels outside the box keep their bytes.
#[verifier::rlimit(30)]
fn transpose_box(
    dst: &mut Vec<u8>,
    src: &Vec<u8>,
    sx: usize,
    sy: usize,
    sz: usize,
    bx0: usize,
    by0: usize,
    bz0: usize,
    bx1: usize,
    by1: usize,
    bz1: usize,
    vs: usize,
)
    requires
        old(dst)@.len() == sx * sy * sz * vs,
        src@.len() == sz * sy * sx * vs,
        bx0 <= bx1 <= sx,
        by0 <= by1 <= sy,
        bz0 <= bz1 <= sz,
    ensures
        final(dst)@.len() == old(dst)@.len(),
        forall|x: int, y: int, z: int, k: int|
            bx0 <= x < bx1 && by0 <= y < by1 && bz0 <= z < bz1 && 0 <= k < vs ==> #[trigger]
                grid_byte(final(dst)@, sx as int, sy as int, vs as int, x, y, z, k) == grid_byte(
                src@,
                sz as int,
                sy as int,
                vs as int,
                z,
                y,
                x,
                k,
            ),
        forall|x: int, y: int, z: int, k: int|
            0 <= x < sx && 0 <= y < sy && 0 <= z < sz && 0 <= k < vs && !(bx0 <= x < bx1 && by0
                <= y < by1 && bz0 <= z < bz1) ==> #[trigger] grid_byte(
                final(dst)@,
                sx as int,
                sy as int,
                vs as int,
                x,
                y,
                z,
                k,
            ) == grid_byte(old(dst)@, sx as int, sy as int, vs as int, x, y, z, k),
{
    if bx0 == bx1 || by0 == by1 || bz0 == bz1 || vs == 0 {
        return ;
    }
    let dlen = dst.len();
    let slen = src.len();
    let mut cz: usize = bz0;
    while cz < bz1
        invariant
            bz0 <= cz <= bz1,
            bx0 < bx1 <= sx && by0 < by1 <= sy && bz0 < bz1 <= sz && vs >= 1,
            dst@.len() == dlen && dlen == sx * sy * sz * vs && dlen <= usize::MAX,
            src@.len() == slen && slen == sz * sy * sx * vs && slen <= usize::MAX,
            dst@.len() == old(dst)@.len(),
            forall|x: int, y: int, z: int, k: int|
                bx0 <= x < bx1 && by0 <= y < by1 && bz0 <= z < cz && 0 <= k < vs ==> #[trigger]
                    grid_byte(dst@, sx as int, sy as int, vs as int, x, y, z, k) == grid_byte(
                    src@,
                    sz as int,
                    sy as int,
                    vs as int,
                    z,
                    y,
                    x,
                    k,
                ),
            forall|x: int, y: int, z: int, k: int|
                0 <= x < sx && 0 <= y < sy && 0 <= z < sz && 0 <= k < vs && !(bx0 <= x < bx1 && by0
                    <= y < by1 && bz0 <= z < cz) ==> #[trigger] grid_byte(
                    dst@,
                    sx as int,
                    sy as int,
                    vs as int,
                    x,
                    y,
                    z,
                    k,
                ) == grid_byte(old(dst)@, sx as int, sy as int, vs as int, x, y, z, k),
        decreases bz1 - cz,
    {
        let mut cy: usize = by0;
        while cy < by1
            invariant
                by0 <= cy <= by1 && bz0 <= cz < bz1,
                bx0 < bx1 <= sx && by0 < by1 <= sy && bz0 < bz1 <= sz && vs >= 1,
                dst@.len() == dlen && dlen == sx * sy * sz * vs && dlen <= usize::MAX,
                src@.len() == slen && slen == sz * sy * sx * vs && slen <= usize::MAX,
                dst@.len() == old(dst)@.len(),
                forall|x: int, y: int, z: int, k: int|
                    bx0 <= x < bx1 && by0 <= y < by1 && bz0 <= z < cz && 0 <= k < vs ==> #[trigger]
                        grid_byte(dst@, sx as int, sy as int, vs as int, x, y, z, k) == grid_byte(
                        src@,
                        sz as int,
                        sy as int,
                        vs as int,
                        z,
                        y,
                        x,
                        k,
                    ),
                forall|x: int, y: int, k: int|
                    bx0 <= x < bx1 && by0 <= y < cy && 0 <= k < vs ==> #[trigger] grid_byte(
                        dst@,
                        sx as int,
                        sy as int,
                        vs as int,
                        x,
                        y,
                        cz as int,
                        k,
                    ) == grid_byte(src@, sz as int, sy as int, vs as int, cz as int, y, x, k),
                forall|x: int, y: int, z: int, k: int|
                    0 <= x < sx && 0 <= y < sy && 0 <= z < sz && 0 <= k < vs && !(bx0 <= x < bx1
                        && by0 <= y < by1 && (bz0 <= z < cz || (z == cz && by0 <= y < cy)))
                        ==> #[trigger] grid_byte(dst@, sx as int, sy as int, vs as int, x, y, z, k)
                        == grid_byte(old(dst)@, sx as int, sy as int, vs as int, x, y, z, k),
            decreases by1 - cy,
        {
            let mut cx: usize = bx0;
            while cx < bx1
                invariant
                    bx0 <= cx <= bx1 && by0 <= cy < by1 && bz0 <= cz < bz1,
                    bx0 < bx1 <= sx && by0 < by1 <= sy && bz0 < bz1 <= sz && vs >= 1,
                    dst@.len() == dlen && dlen == sx * sy * sz * vs && dlen <= usize::MAX,
                    src@.len() == slen && slen == sz * sy * sx * vs && slen <= usize::MAX,
                    dst@.len() == old(dst)@.len(),
                    forall|x: int, y: int, z: int, k: int|
                        bx0 <= x < bx1 && by0 <= y < by1 && bz0 <= z < cz && 0 <= k < vs
                            ==> #[trigger] grid_byte(dst@, sx as int, sy as int, vs as int, x, y, z, k)
                            == grid_byte(src@, sz as int, sy as int, vs as int, z, y, x, k),
                    forall|x: int, y: int, k: int|
                        bx0 <= x < bx1 && by0 <= y < cy && 0 <= k < vs ==> #[trigger] grid_byte(
                            dst@,
                            sx as int,
                            sy as int,
                            vs as int,
                            x,
                            y,
                            cz as int,
                            k,
                        ) == grid_byte(src@, sz as int, sy as int, vs as int, cz as int, y, x, k),
                    forall|x: int, k: int|
                        bx0 <= x < cx && 0 <= k < vs ==> #[trigger] grid_byte(
                            dst@,
                            sx as int,
                            sy as int,
                            vs as int,
                            x,
                            cy as int,
                            cz as int,
                            k,
                        ) == grid_byte(
                            src@,
                            sz as int,
                            sy as int,
                            vs as int,
                            cz as int,
                            cy as int,
                            x,
                            k,
                        ),
                    forall|x: int, y: int, z: int, k: int|
                        0 <= x < sx && 0 <= y < sy && 0 <= z < sz && 0 <= k < vs && !(bx0 <= x
                            < bx1 && by0 <= y < by1 && (bz0 <= z < cz || (z == cz && (by0 <= y < cy
                            || (y == cy && bx0 <= x < cx))))) ==> #[trigger] grid_byte(
                            dst@,
                            sx as int,
                            sy as int,
                            vs as int,
                            x,
                            y,
                            z,
                            k,
                        ) == grid_byte(old(dst)@, sx as int, sy as int, vs as int, x, y, z, k),
                decreases bx1 - cx,
            {
                proof {
                    lemma_flin_bound(sx as int, sy as int, sz as int, cx as int, cy as int, cz as int);
                    lemma_flin_bound(sz as int, sy as int, sx as int, cz as int, cy as int, cx as int);
                    let dq = flin(sx as int, sy as int, cx as int, cy as int, cz as int);
                    let sq = flin(sz as int, sy as int, cz as int, cy as int, cx as int);
                    assert((dq + 1) * vs <= sx * sy * sz * vs && dq * vs + vs == (dq + 1) * vs && 0
                        <= dq * vs && dq <= dq * vs) by (nonlinear_arith)
                        requires
                            0 <= dq && dq + 1 <= sx * sy * sz && vs >= 1 && sx * sy * sz >= 0,
                    ;
                    assert((sq + 1) * vs <= sz * sy * sx * vs && sq * vs + vs == (sq + 1) * vs && 0
                        <= sq * vs && sq <= sq * vs) by (nonlinear_arith)
                        requires
                            0 <= sq && sq + 1 <= sz * sy * sx && vs >= 1 && sz * sy * sx >= 0,
                    ;
                }
                let db = flin_usize(sx, sy, cx, cy, cz);
                let sb = flin_usize(sz, sy, cz, cy, cx);
                let di = db * vs;
                let si = sb * vs;
                let ghost pre = dst@;
                copy_bytes(dst, di, src, si, vs);
                proof {
                    let dq = flin(sx as int, sy as int, cx as int, cy as int, cz as int);
                    assert forall|k: int| 0 <= k < vs implies #[trigger] grid_byte(
                        dst@,
                        sx as int,
                        sy as int,
                        vs as int,
                        cx as int,
                        cy as int,
                        cz as int,
                        k,
                    ) == grid_byte(
                        src@,
                        sz as int,
                        sy as int,
                        vs as int,
                        cz as int,
                        cy as int,
                        cx as int,
                        k,
                    ) by {
                    }
                    assert forall|x: int, y: int, z: int, k: int|
                        0 <= x < sx && 0 <= y < sy && 0 <= z < sz && 0 <= k < vs && !(x == cx && y
                            == cy && z == cz) implies #[trigger] grid_byte(
                        dst@,
                        sx as int,
                        sy as int,
                        vs as int,
                        x,
                        y,
                        z,
                        k,
                    ) == grid_byte(pre, sx as int, sy as int, vs as int, x, y, z, k) by {
                        let pq = flin(sx as int, sy as int, x, y, z);
                        lemma_flin_bound(sx as int, sy as int, sz as int, x, y, z);
                        lemma_byte_in_stripe(dq, pq, 1, vs as int, k);
                        let vol = sx as int * sy as int * sz as int;
                        assert(0 <= pq * vs && pq * vs + k < vol * vs) by (nonlinear_arith)
                            requires
                                0 <= pq && pq + 1 <= vol && 0 <= k < vs,
                        ;
                        assert(dq * vs + vs == (dq + 1) * vs) by (nonlinear_arith);
                        if dq <= pq < dq + 1 {
                            lemma_flin_inj(sx as int, sy as int, x, y, z, cx as int, cy as int, cz as int);
                        }
                    }
                }
                cx = cx + 1;
            }
            cy = cy + 1;
        }
        cz = cz + 1;
    }
}

impl Mat {
    /// Transpose the voxels of `src_bbox` from this row-major matrix into a
    /// column-major buffer over the same shape; voxels of the buffer outside
    /// the box keep their bytes.
    pub fn copy_as_fortran_order(&self, buffer: &mut Mat, src_bbox: Box3) -> (r: Result<
        (),
        WkwError,
    >)
        requires
            self.wf(),
            old(buffer).wf(),
            src_bbox.wf(),
        ensures
            final(buffer).wf(),
            same_view(*final(buffer), *old(buffer)),
            r is Ok <==> {
                &&& self.data_in_c_order
                &&& !old(buffer).data_in_c_order
                &&& self.voxel_size == old(buffer).voxel_size
                &&& self.voxel_type == old(buffer).voxel_type
                &&& self.shape == old(buffer).shape
                &&& src_bbox.max.all_le(self.shape)
            },
            r is Err ==> *final(buffer) == *old(buffer),
            r is Ok ==> forall|x: int, y: int, z: int, k: int|
                src_bbox.min.x <= x < src_bbox.max.x && src_bbox.min.y <= y < src_bbox.max.y
                    && src_bbox.min.z <= z < src_bbox.max.z && 0 <= k < self.voxel_size
                    ==> #[trigger] final(buffer).voxel_byte(x, y, z, k) == self.voxel_byte(
                    x,
                    y,
                    z,
                    k,
                ),
            r is Ok ==> forall|x: int, y: int, z: int, k: int|
                0 <= x < self.shape.x && 0 <= y < self.shape.y && 0 <= z < self.shape.z && 0 <= k
                    < self.voxel_size && !(src_bbox.min.x <= x < src_bbox.max.x && src_bbox.min.y
                    <= y < src_bbox.max.y && src_bbox.min.z <= z < src_bbox.max.z) ==> #[trigger]
                    final(buffer).voxel_byte(x, y, z, k) == old(buffer).voxel_byte(x, y, z, k),
    {
        if !self.data_in_c_order || buffer.data_in_c_order {
            return Err(WkwError::OrderMismatch);
        }
        if self.voxel_size != buffer.voxel_size {
            return Err(WkwError::VoxelSizeMismatch);
        }
        if !voxel_type_eq(self.voxel_type, buffer.voxel_type) {
            return Err(WkwError::VoxelTypeMismatch);
        }
        if !(self.shape.x == buffer.shape.x && self.shape.y == buffer.shape.y && self.shape.z
            == buffer.shape.z) {
            return Err(WkwError::ShapeMismatch);
        }
        if !src_bbox.max().le(self.shape) {
            return Err(WkwError::OutOfBounds);
        }
        let ghost pre = *buffer;
        let b0 = src_bbox.min();
        let b1 = src_bbox.max();
        proof {
            lemma_shape_product_flip(self.shape);
        }
        transpose_box(
            &mut buffer.data,
            &self.data,
            self.shape.x as usize,
            self.shape.y as usize,
            self.shape.z as usize,
            b0.x as usize,
            b0.y as usize,
            b0.z as usize,
            b1.x as usize,
            b1.y as usize,
            b1.z as usize,
            self.voxel_size,
        );
        proof {
            let nu = *buffer;
            let vs = self.voxel_size as int;
            assert forall|x: int, y: int, z: int, k: int|
                b0.x <= x < b1.x && b0.y <= y < b1.y && b0.z <= z < b1.z && 0 <= k
                    < vs implies #[trigger] nu.voxel_byte(x, y, z, k) == self.voxel_byte(
                x,
                y,
                z,
                k,
            ) by {
                assert(grid_byte(
                    nu.data@,
                    self.shape.x as usize as int,
                    self.shape.y as usize as int,
                    self.voxel_size as int,
                    x,
                    y,
                    z,
                    k,
                ) == grid_byte(
                    self.data@,
                    self.shape.z as usize as int,
                    self.shape.y as usize as int,
                    self.voxel_size as int,
                    z,
                    y,
                    x,
                    k,
                ));
            }
            assert forall|x: int, y: int, z: int, k: int|
                0 <= x < self.shape.x && 0 <= y < self.shape.y && 0 <= z < self.shape.z && 0 <= k
                    < vs && !(b0.x <= x < b1.x && b0.y <= y < b1.y && b0.z <= z
                    < b1.z) implies #[trigger] nu.voxel_byte(x, y, z, k) == pre.voxel_byte(
                x,
                y,
                z,
                k,
            ) by {
                assert(grid_byte(
                    nu.data@,
                    self.shape.x as usize as int,
                    self.shape.y as usize as int,
                    self.voxel_size as int,
                    x,
                    y,
                    z,
                    k,
                ) == grid_byte(
                    pre.data@,
                    self.shape.x as usize as int,
                    self.shape.y as usize as int,
                    self.voxel_size as int,
                    x,
                    y,
                    z,
                    k,
                ));
            }
        }
        Ok(())
    }
}

/// Transposing a matrix from row-major to column-major order and back again
/// restores the original bytes: if `b` holds the voxels of `a` over the full
/// shape, and `c` holds the voxels of `b` over the full shape, then `c` and
/// `a` hold the same bytes.
pub proof fn lemma_transpose_round_trip(a: Mat, b: Mat, c: Mat)
    requires
        a.wf(),
        a.data_in_c_order,
        c.shape == a.shape && c.voxel_size == a.voxel_size && c.data_in_c_order,
        c.data@.len() == a.data@.len(),
        forall|x: int, y: int, z: int, k: int|
            0 <= x < a.shape.x && 0 <= y < a.shape.y && 0 <= z < a.shape.z && 0 <= k
                < a.voxel_size ==> #[trigger] b.voxel_byte(x, y, z, k) == a.voxel_byte(x, y, z, k),
        forall|x: int, y: int, z: int, k: int|
            0 <= x < a.shape.x && 0 <= y < a.shape.y && 0 <= z < a.shape.z && 0 <= k
                < a.voxel_size ==> #[trigger] c.voxel_byte(x, y, z, k) == b.voxel_byte(x, y, z, k),
    ensures
        c.data@ == a.data@,
{
    let vs = a.voxel_size as int;
    let sxz = a.shape.z as int;
    let sy = a.shape.y as int;
    let sxx = a.shape.x as int;
    lemma_shape_product_flip(a.shape);
    if vs == 0 {
        assert(c.data@ =~= a.data@);
    } else {
        assert forall|j: int| 0 <= j < a.data@.len() implies c.data@[j] == a.data@[j] by {
            let q = j / vs;
            let k = j % vs;
            vstd::arithmetic::div_mod::lemma_fundamental_div_mod(j, vs);
            vstd::arithmetic::div_mod::lemma_mod_bound(j, vs);
            assert(0 <= q < sxz * sy * sxx) by (nonlinear_arith)
                requires
                    0 <= j < sxz * sy * sxx * vs && j == vs * q + k && 0 <= k < vs && vs >= 1,
            ;
            assert(sxz >= 1 && sy >= 1 && sxx >= 1) by (nonlinear_arith)
                requires
                    0 < sxz * sy * sxx * vs && sxz >= 0 && sy >= 0 && sxx >= 0 && vs >= 0,
            ;
            lemma_flin_surj(sxz, sy, sxx, q);
            let (zc, yc, xc) = choose|zc: int, yc: int, xc: int|
                0 <= zc < sxz && 0 <= yc < sy && 0 <= xc < sxx && flin(sxz, sy, zc, yc, xc) == q;
            assert(q * vs + k == j) by (nonlinear_arith)
                requires
                    j == vs * q + k,
            ;
            assert(c.voxel_byte(xc, yc, zc, k) == a.voxel_byte(xc, yc, zc, k));
            assert(a.voxel_byte(xc, yc, zc, k) == a.data@[j]);
            assert(c.voxel_byte(xc, yc, zc, k) == c.data@[j]);
        }
        assert(c.data@ =~= a.data@);
    }
}


/// Byte `k` of channel `c` of the item at (x, y, z) of a planar buffer:
/// channel planes of `svol` items of `is` bytes each.
pub open spec fn planar_byte(
    s: Seq<u8>,
    ssx: int,
    ssy: int,
    svol: int,
    is: int,
    x: int,
    y: int,
    z: int,
    c: int,
    k: int,
) -> u8 {
    s[(c * svol + flin(ssx, ssy, x, y, z)) * is + k]
}

/// Byte `k` of channel `c` of an interleaved voxel whose bytes start at `dbase`.
pub open spec fn chan_byte(s: Seq<u8>, dbase: int, is: int, c: int, k: int) -> u8 {
    s[dbase + c * is + k]
}

/// Gather the `nc` channels of one voxel from a planar source: channel `c`
/// comes from plane `c` at item `q`; the voxel's `nc * is` destination bytes
/// start at `dbase`, and everything outside that run keeps its value.
fn copy_voxel_channels(
    dst: &mut Vec<u8>,
    dbase: usize,
    src: &Vec<u8>,
    q: usize,
    svol: usize,
    nc: usize,
    is: usize,
)
    requires
        dbase + nc * is <= old(dst)@.len(),
        q < svol,
        src@.len() == svol * nc * is,
    ensures
        final(dst)@.len() == old(dst)@.len(),
        forall|c: int, k: int|
            0 <= c < nc && 0 <= k < is ==> #[trigger] chan_byte(final(dst)@, dbase as int, is as int, c, k)
                == src@[(c * svol + q) * is + k],
        forall|j: int|
            0 <= j < old(dst)@.len() && !(dbase <= j < dbase + nc * is) ==> final(dst)@[j] == old(
                dst,
            )@[j],
{
    if is == 0 {
        return ;
    }
    let dlen = dst.len();
    let slen = src.len();
    let mut c: usize = 0;
    while c < nc
        invariant
            c <= nc,
            dbase + nc * is <= dst@.len(),
            q < svol,
            is >= 1,
            src@.len() == slen && slen == svol * nc * is && slen <= usize::MAX,
            dst@.len() == dlen && dlen <= usize::MAX,
            dst@.len() == old(dst)@.len(),
            forall|e: int, k: int|
                0 <= e < c && 0 <= k < is ==> #[trigger] chan_byte(dst@, dbase as int, is as int, e, k)
                    == src@[(e * svol + q) * is + k],
            forall|j: int|
                0 <= j < old(dst)@.len() && !(dbase <= j < dbase + c * is) ==> dst@[j] == old(
                    dst,
                )@[j],
        decreases nc - c,
    {
        proof {
            assert(0 <= c * is && c * is + is <= nc * is && (c + 1) * is == c * is + is)
                by (nonlinear_arith)
                requires
                    0 <= c && c + 1 <= nc && is >= 0,
            ;
            assert(0 <= (c * svol + q) * is && (c * svol + q) * is + is <= svol * nc * is && (c
                * svol + q + 1) * is == (c * svol + q) * is + is && c * svol + q <= (c * svol + q)
                * is && c * svol <= c * svol + q) by (nonlinear_arith)
                requires
                    0 <= c && c + 1 <= nc && 0 <= q && q + 1 <= svol && is >= 1,
            ;
        }
        let di = dbase + c * is;
        let si = (c * svol + q) * is;
        let ghost pre = dst@;
        copy_bytes(dst, di, src, si, is);
        proof {
            assert forall|e: int, k: int| 0 <= e < c + 1 && 0 <= k < is implies #[trigger]
                chan_byte(dst@, dbase as int, is as int, e, k) == src@[(e * svol + q) * is
                + k] by {
                if e < c {
                    assert(0 <= e * is && e * is + k < c * is && c * is <= nc * is)
                        by (nonlinear_arith)
                        requires
                            0 <= e && e + 1 <= c && c <= nc && 0 <= k < is,
                    ;
                    assert(chan_byte(pre, dbase as int, is as int, e, k) == src@[(e * svol + q)
                        * is + k]);
                    assert(dst@[dbase + e * is + k] == pre[dbase + e * is + k]);
                } else {
                    assert(e * is + k - (c * is) == k);
                }
            }
        }
        c = c + 1;
    }
}


/// Scatter a box of multi-channel voxels from a planar (channels-last)
/// source grid into an interleaved (channels-first) destination grid, both
/// in the same fortran-order coordinate convention.  Voxels outside the
/// written box keep their bytes.
#[verifier::rlimit(40)]
fn channels_box(
    dst: &mut Vec<u8>,
    dsx: usize,
    dsy: usize,
    dsz: usize,
    dx: usize,
    dy: usize,
    dz: usize,
    src: &Vec<u8>,
    ssx: usize,
    ssy: usize,
    ssz: usize,
    sx: usize,
    sy: usize,
    sz: usize,
    wx: usize,
    wy: usize,
    wz: usize,
    nc: usize,
    is: usize,
)
    requires
        old(dst)@.len() == dsx * dsy * dsz * (nc * is),
        src@.len() == (ssx * ssy * ssz) * nc * is,
        dx + wx <= dsx,
        dy + wy <= dsy,
        dz + wz <= dsz,
        sx + wx <= ssx,
        sy + wy <= ssy,
        sz + wz <= ssz,
        nc * is <= usize::MAX,
    ensures
        final(dst)@.len() == old(dst)@.len(),
        forall|x: int, y: int, z: int, c: int, k: int|
            0 <= x < wx && 0 <= y < wy && 0 <= z < wz && 0 <= c < nc && 0 <= k < is
                ==> #[trigger] grid_byte(
                final(dst)@,
                dsx as int,
                dsy as int,
                (nc * is) as int,
                dx + x,
                dy + y,
                dz + z,
                c * is + k,
            ) == planar_byte(
                src@,
                ssx as int,
                ssy as int,
                (ssx * ssy * ssz) as int,
                is as int,
                sx + x,
                sy + y,
                sz + z,
                c,
                k,
            ),
        forall|px: int, py: int, pz: int, kk: int|
            0 <= px < dsx && 0 <= py < dsy && 0 <= pz < dsz && 0 <= kk < nc * is && !(dx <= px < dx
                + wx && dy <= py < dy + wy && dz <= pz < dz + wz) ==> #[trigger] grid_byte(
                final(dst)@,
                dsx as int,
                dsy as int,
                (nc * is) as int,
                px,
                py,
                pz,
                kk,
            ) == grid_byte(old(dst)@, dsx as int, dsy as int, (nc * is) as int, px, py, pz, kk),
{
    if wx == 0 || wy == 0 || wz == 0 || nc == 0 || is == 0 {
        return ;
    }
    let dlen = dst.len();
    let slen = src.len();
    proof {
        assert(ssx * ssy * ssz >= 1 && ssx * ssy <= ssx * ssy * ssz && ssx * ssy * ssz <= (ssx
            * ssy * ssz) * nc * is && (ssx * ssy * ssz) * nc * is == (ssx * ssy * ssz) * (nc
            * is) && nc * is >= 1) by (nonlinear_arith)
            requires
                ssx >= 1 && ssy >= 1 && ssz >= 1 && nc >= 1 && is >= 1,
        ;
    }
    let vs = nc * is;
    let svol = ssx * ssy * ssz;
    let mut cz: usize = 0;
    while cz < wz
        invariant
            cz <= wz,
            wx >= 1 && wy >= 1 && wz >= 1 && nc >= 1 && is >= 1 && vs >= 1,
            vs == nc * is && svol == ssx * ssy * ssz,
            dst@.len() == dlen && dlen == dsx * dsy * dsz * vs && dlen <= usize::MAX,
            src@.len() == slen && slen == svol * nc * is && slen <= usize::MAX,
            dst@.len() == old(dst)@.len(),
            dx + wx <= dsx && dy + wy <= dsy && dz + wz <= dsz,
            sx + wx <= ssx && sy + wy <= ssy && sz + wz <= ssz,
            forall|x: int, y: int, z: int, c: int, k: int|
                0 <= x < wx && 0 <= y < wy && 0 <= z < cz && 0 <= c < nc && 0 <= k < is
                    ==> #[trigger] grid_byte(
                    dst@,
                    dsx as int,
                    dsy as int,
                    vs as int,
                    dx + x,
                    dy + y,
                    dz + z,
                    c * is + k,
                ) == planar_byte(
                    src@,
                    ssx as int,
                    ssy as int,
                    svol as int,
                    is as int,
                    sx + x,
                    sy + y,
                    sz + z,
                    c,
                    k,
                ),
            forall|px: int, py: int, pz: int, kk: int|
                0 <= px < dsx && 0 <= py < dsy && 0 <= pz < dsz && 0 <= kk < vs && !(dx <= px < dx
                    + wx && dy <= py < dy + wy && dz <= pz < dz + cz) ==> #[trigger] grid_byte(
                    dst@,
                    dsx as int,
                    dsy as int,
                    vs as int,
                    px,
                    py,
                    pz,
                    kk,
                ) == grid_byte(old(dst)@, dsx as int, dsy as int, vs as int, px, py, pz, kk),
        decreases wz - cz,
    {
        let mut cy: usize = 0;
        while cy < wy
            invariant
                cy <= wy && cz < wz,
                wx >= 1 && wy >= 1 && wz >= 1 && nc >= 1 && is >= 1 && vs >= 1,
                vs == nc * is && svol == ssx * ssy * ssz,
                dst@.len() == dlen && dlen == dsx * dsy * dsz * vs && dlen <= usize::MAX,
                src@.len() == slen && slen == svol * nc * is && slen <= usize::MAX,
                dst@.len() == old(dst)@.len(),
                dx + wx <= dsx && dy + wy <= dsy && dz + wz <= dsz,
                sx + wx <= ssx && sy + wy <= ssy && sz + wz <= ssz,
                forall|x: int, y: int, z: int, c: int, k: int|
                    0 <= x < wx && 0 <= y < wy && 0 <= z < cz && 0 <= c < nc && 0 <= k < is
                        ==> #[trigger] grid_byte(
                        dst@,
                        dsx as int,
                        dsy as int,
                        vs as int,
                        dx + x,
                        dy + y,
                        dz + z,
                        c * is + k,
                    ) == planar_byte(
                        src@,
                        ssx as int,
                        ssy as int,
                        svol as int,
                        is as int,
                        sx + x,
                        sy + y,
                        sz + z,
                        c,
                        k,
                    ),
                forall|x: int, y: int, c: int, k: int|
                    0 <= x < wx && 0 <= y < cy && 0 <= c < nc && 0 <= k < is ==> #[trigger]
                        grid_byte(
                        dst@,
                        dsx as int,
                        dsy as int,
                        vs as int,
                        dx + x,
                        dy + y,
                        dz + cz,
                        c * is + k,
                    ) == planar_byte(
                        src@,
                        ssx as int,
                        ssy as int,
                        svol as int,
                        is as int,
                        sx + x,
                        sy + y,
                        sz + cz,
                        c,
                        k,
                    ),
                forall|px: int, py: int, pz: int, kk: int|
                    0 <= px < dsx && 0 <= py < dsy && 0 <= pz < dsz && 0 <= kk < vs && !(dx <= px
                        < dx + wx && dy <= py < dy + wy && (dz <= pz < dz + cz || (pz == dz + cz
                        && py < dy + cy))) ==> #[trigger] grid_byte(
                        dst@,
                        dsx as int,
                        dsy as int,
                        vs as int,
                        px,
                        py,
                        pz,
                        kk,
                    ) == grid_byte(old(dst)@, dsx as int, dsy as int, vs as int, px, py, pz, kk),
            decreases wy - cy,
        {
            let mut cx: usize = 0;
            while cx < wx
                invariant
                    cx <= wx && cy < wy && cz < wz,
                    wx >= 1 && wy >= 1 && wz >= 1 && nc >= 1 && is >= 1 && vs >= 1,
                    vs == nc * is && svol == ssx * ssy * ssz,
                    dst@.len() == dlen && dlen == dsx * dsy * dsz * vs && dlen <= usize::MAX,
                    src@.len() == slen && slen == svol * nc * is && slen <= usize::MAX,
                    dst@.len() == old(dst)@.len(),
                    dx + wx <= dsx && dy + wy <= dsy && dz + wz <= dsz,
                    sx + wx <= ssx && sy + wy <= ssy && sz + wz <= ssz,
                    forall|x: int, y: int, z: int, c: int, k: int|
                        0 <= x < wx && 0 <= y < wy && 0 <= z < cz && 0 <= c < nc && 0 <= k < is
                            ==> #[trigger] grid_byte(
                            dst@,
                            dsx as int,
                            dsy as int,
                            vs as int,
                            dx + x,
                            dy + y,
                            dz + z,
                            c * is + k,
                        ) == planar_byte(
                            src@,
                            ssx as int,
                            ssy as int,
                            svol as int,
                            is as int,
                            sx + x,
                            sy + y,
                            sz + z,
                            c,
                            k,
                        ),
                    forall|x: int, y: int, c: int, k: int|
                        0 <= x < wx && 0 <= y < cy && 0 <= c < nc && 0 <= k < is ==> #[trigger]
                            grid_byte(
                            dst@,
                            dsx as int,
                            dsy as int,
                            vs as int,
                            dx + x,
                            dy + y,
                            dz + cz,
                            c * is + k,
                        ) == planar_byte(
                            src@,
                            ssx as int,
                            ssy as int,
                            svol as int,
                            is as int,
                            sx + x,
                            sy + y,
                            sz + cz,
                            c,
                            k,
                        ),
                    forall|x: int, c: int, k: int|
                        0 <= x < cx && 0 <= c < nc && 0 <= k < is ==> #[trigger] grid_byte(
                            dst@,
                            dsx as int,
                            dsy as int,
                            vs as int,
                            dx + x,
                            dy + cy,
                            dz + cz,
                            c * is + k,
                        ) == planar_byte(
                            src@,
                            ssx as int,
                            ssy as int,
                            svol as int,
                            is as int,
                            sx + x,
                            sy + cy,
                            sz + cz,
                            c,
                            k,
                        ),
                    forall|px: int, py: int, pz: int, kk: int|
                        0 <= px < dsx && 0 <= py < dsy && 0 <= pz < dsz && 0 <= kk < vs && !(dx
                            <= px < dx + wx && dy <= py < dy + wy && (dz <= pz < dz + cz || (pz
                            == dz + cz && (py < dy + cy || (py == dy + cy && dx <= px < dx
                            + cx))))) ==> #[trigger] grid_byte(
                            dst@,
                            dsx as int,
                            dsy as int,
                            vs as int,
                            px,
                            py,
                            pz,
                            kk,
                        ) == grid_byte(old(dst)@, dsx as int, dsy as int, vs as int, px, py, pz, kk),
                decreases wx - cx,
            {
                proof {
                    lemma_flin_bound(
                        dsx as int,
                        dsy as int,
                        dsz as int,
                        dx + cx,
                        dy + cy,
                        dz + cz,
                    );
                    lemma_flin_bound(
                        ssx as int,
                        ssy as int,
                        ssz as int,
                        sx + cx,
                        sy + cy,
                        sz + cz,
                    );
                    let dq = flin(dsx as int, dsy as int, dx + cx, dy + cy, dz + cz);
                    assert((dq + 1) * vs <= dsx * dsy * dsz * vs && dq * vs + vs == (dq + 1) * vs
                        && 0 <= dq * vs && dq <= dq * vs) by (nonlinear_arith)
                        requires
                            0 <= dq && dq + 1 <= dsx * dsy * dsz && vs >= 1 && dsx * dsy * dsz
                                >= 0,
                    ;
                    assert(flin(ssx as int, ssy as int, sx + cx, sy + cy, sz + cz) < svol);
                }
                let dbase = flin_usize(dsx, dsy, dx + cx, dy + cy, dz + cz) * vs;
                let q = flin_usize(ssx, ssy, sx + cx, sy + cy, sz + cz);
                let ghost pre = dst@;
                copy_voxel_channels(dst, dbase, src, q, svol, nc, is);
                proof {
                    let dq = flin(dsx as int, dsy as int, dx + cx, dy + cy, dz + cz);
                    assert forall|c: int, k: int| 0 <= c < nc && 0 <= k < is implies #[trigger]
                        grid_byte(
                        dst@,
                        dsx as int,
                        dsy as int,
                        vs as int,
                        dx + cx,
                        dy + cy,
                        dz + cz,
                        c * is + k,
                    ) == planar_byte(
                        src@,
                        ssx as int,
                        ssy as int,
                        svol as int,
                        is as int,
                        sx + cx,
                        sy + cy,
                        sz + cz,
                        c,
                        k,
                    ) by {
                        assert(chan_byte(dst@, dbase as int, is as int, c, k) == src@[(c * svol
                            + q) * is + k]);
                    }
                    assert forall|px: int, py: int, pz: int, kk: int|
                        0 <= px < dsx && 0 <= py < dsy && 0 <= pz < dsz && 0 <= kk < vs && !(px
                            == dx + cx && py == dy + cy && pz == dz + cz) implies #[trigger]
                        grid_byte(
                        dst@,
                        dsx as int,
                        dsy as int,
                        vs as int,
                        px,
                        py,
                        pz,
                        kk,
                    ) == grid_byte(pre, dsx as int, dsy as int, vs as int, px, py, pz, kk) by {
                        let pq = flin(dsx as int, dsy as int, px, py, pz);
                        lemma_flin_bound(dsx as int, dsy as int, dsz as int, px, py, pz);
                        lemma_byte_in_stripe(dq, pq, 1, vs as int, kk);
                        let vol = dsx as int * dsy as int * dsz as int;
                        assert(0 <= pq * vs && pq * vs + kk < vol * vs) by (nonlinear_arith)
                            requires
                                0 <= pq && pq + 1 <= vol && 0 <= kk < vs,
                        ;
                        assert(dq * vs + vs == (dq + 1) * vs) by (nonlinear_arith);
                        if dq <= pq < dq + 1 {
                            lemma_flin_inj(
                                dsx as int,
                                dsy as int,
                                px,
                                py,
                                pz,
                                dx + cx,
                                dy + cy,
                                dz + cz,
                            );
                        }
                    }
                    assert forall|px: int, py: int, pz: int, c: int, k: int|
                        0 <= px < dsx && 0 <= py < dsy && 0 <= pz < dsz && 0 <= c < nc && 0 <= k
                            < is && !(px == dx + cx && py == dy + cy && pz == dz
                            + cz) implies #[trigger] grid_byte(
                        dst@,
                        dsx as int,
                        dsy as int,
                        vs as int,
                        px,
                        py,
                        pz,
                        c * is + k,
                    ) == grid_byte(pre, dsx as int, dsy as int, vs as int, px, py, pz, c * is
                        + k) by {
                        assert(0 <= c * is + k < nc * is) by (nonlinear_arith)
                            requires
                                0 <= c && c + 1 <= nc && 0 <= k < is,
                        ;
                    }
                }
                cx = cx + 1;
            }
            cy = cy + 1;
        }
        cz = cz + 1;
    }
}


impl Mat {
    /// Byte `k` of channel `c` of the voxel at (x, y, z), when the buffer
    /// stores channels last: one full volume plane per channel.
    pub open spec fn channel_plane_byte(self, x: int, y: int, z: int, c: int, k: int) -> u8 {
        self.data@[(c * self.numel() + lin(self.shape, self.data_in_c_order, x, y, z))
            * self.voxel_type.spec_size() + k]
    }

    /// The interleaved channel bytes of every written voxel come from the
    /// per-channel planes of the source region.
    pub open spec fn channels_copied(self, src: Mat, dst_pos: Vec3, src_min: Vec3, w: Vec3) -> bool {
        forall|x: int, y: int, z: int, c: int, k: int|
            0 <= x < w.x && 0 <= y < w.y && 0 <= z < w.z && 0 <= c < self.voxel_size as int
                / self.voxel_type.spec_size() && 0 <= k < self.voxel_type.spec_size()
                ==> #[trigger] self.voxel_byte(
                dst_pos.x + x,
                dst_pos.y + y,
                dst_pos.z + z,
                c * self.voxel_type.spec_size() + k,
            ) == src.channel_plane_byte(src_min.x + x, src_min.y + y, src_min.z + z, c, k)
    }

    /// Copy a box from a channels-last source into this channels-first
    /// matrix, shuffling the scalars of each voxel; both matrices must share
    /// the storage order, and voxels outside the written region keep their
    /// bytes.
    pub fn copy_from_and_put_channels_last(
        &mut self,
        dst_pos: Vec3,
        src: &Mat,
        src_box: Box3,
    ) -> (r: Result<(), WkwError>)
        requires
            old(self).wf(),
            src.wf(),
            src_box.wf(),
            old(self).voxel_size >= 1,
        ensures
            final(self).wf(),
            same_view(*final(self), *old(self)),
            r is Ok <==> {
                &&& old(self).voxel_size == src.voxel_size
                &&& old(self).voxel_type == src.voxel_type
                &&& src_box.max.all_le(src.shape)
                &&& dst_pos.x + src_box.max.x - src_box.min.x <= old(self).shape.x
                &&& dst_pos.y + src_box.max.y - src_box.min.y <= old(self).shape.y
                &&& dst_pos.z + src_box.max.z - src_box.min.z <= old(self).shape.z
                &&& old(self).data_in_c_order == src.data_in_c_order
            },
            r is Ok ==> final(self).channels_copied(
                *src,
                dst_pos,
                src_box.min,
                Vec3 {
                    x: (src_box.max.x - src_box.min.x) as u32,
                    y: (src_box.max.y - src_box.min.y) as u32,
                    z: (src_box.max.z - src_box.min.z) as u32,
                },
            ) && region_untouched(
                *final(self),
                *old(self),
                dst_pos,
                Vec3 {
                    x: (src_box.max.x - src_box.min.x) as u32,
                    y: (src_box.max.y - src_box.min.y) as u32,
                    z: (src_box.max.z - src_box.min.z) as u32,
                },
            ),
            r is Err ==> *final(self) == *old(self),
    {
        if self.voxel_size != src.voxel_size {
            return Err(WkwError::VoxelSizeMismatch);
        }
        if !voxel_type_eq(self.voxel_type, src.voxel_type) {
            return Err(WkwError::VoxelTypeMismatch);
        }
        if !src_box.max().le(src.shape) {
            return Err(WkwError::OutOfBounds);
        }
        let w = src_box.width();
        if dst_pos.x as u64 + w.x as u64 > self.shape.x as u64 || dst_pos.y as u64 + w.y as u64
            > self.shape.y as u64 || dst_pos.z as u64 + w.z as u64 > self.shape.z as u64 {
            return Err(WkwError::OutOfBounds);
        }
        if self.data_in_c_order != src.data_in_c_order {
            return Err(WkwError::OrderMismatch);
        }
        let is = self.voxel_type.size();
        let nc = self.voxel_size / is;
        proof {
            assert(self.voxel_type.spec_size() >= 1);
            vstd::arithmetic::div_mod::lemma_fundamental_div_mod(
                self.voxel_size as int,
                self.voxel_type.spec_size(),
            );
            assert(nc == self.voxel_size as int / self.voxel_type.spec_size());
            assert(nc * is == self.voxel_size) by (nonlinear_arith)
                requires
                    self.voxel_size as int == self.voxel_type.spec_size() * (
                    self.voxel_size as int / self.voxel_type.spec_size()) && nc
                        == self.voxel_size as int / self.voxel_type.spec_size() && is as int
                        == self.voxel_type.spec_size(),
            ;
            lemma_shape_product_flip(self.shape);
            lemma_shape_product_flip(src.shape);
            assert(src.numel() * self.voxel_size == src.numel() * nc * is) by (nonlinear_arith)
                requires
                    nc * is == self.voxel_size,
            ;
            assert(self.numel() * self.voxel_size == self.numel() * (nc * is));
        }
        let ghost pre = *self;
        let s0 = src_box.min();
        if self.data_in_c_order {
            channels_box(
                &mut self.data,
                self.shape.z as usize,
                self.shape.y as usize,
                self.shape.x as usize,
                dst_pos.z as usize,
                dst_pos.y as usize,
                dst_pos.x as usize,
                &src.data,
                src.shape.z as usize,
                src.shape.y as usize,
                src.shape.x as usize,
                s0.z as usize,
                s0.y as usize,
                s0.x as usize,
                w.z as usize,
                w.y as usize,
                w.x as usize,
                nc,
                is,
            );
            proof {
                let nu = *self;
                assert forall|x: int, y: int, z: int, c: int, k: int|
                    0 <= x < w.x && 0 <= y < w.y && 0 <= z < w.z && 0 <= c < nc && 0 <= k
                        < is implies #[trigger] nu.voxel_byte(
                    dst_pos.x + x,
                    dst_pos.y + y,
                    dst_pos.z + z,
                    c * is + k,
                ) == src.channel_plane_byte(s0.x + x, s0.y + y, s0.z + z, c, k) by {
                    assert(grid_byte(
                        nu.data@,
                        pre.shape.z as usize as int,
                        pre.shape.y as usize as int,
                        (nc * is) as int,
                        dst_pos.z as usize + z,
                        dst_pos.y as usize + y,
                        dst_pos.x as usize + x,
                        c * is as int + k,
                    ) == planar_byte(
                        src.data@,
                        src.shape.z as usize as int,
                        src.shape.y as usize as int,
                        (src.shape.z as usize * src.shape.y as usize * src.shape.x as usize) as int,
                        is as int,
                        s0.z as usize + z,
                        s0.y as usize + y,
                        s0.x as usize + x,
                        c,
                        k,
                    ));
                    assert(src.shape.z as usize * src.shape.y as usize * src.shape.x as usize
                        == src.numel());
                }
                assert forall|px: int, py: int, pz: int, k: int|
                    0 <= px < nu.shape.x && 0 <= py < nu.shape.y && 0 <= pz < nu.shape.z && 0 <= k
                        < nu.voxel_size && !(dst_pos.x <= px < dst_pos.x + w.x && dst_pos.y <= py
                        < dst_pos.y + w.y && dst_pos.z <= pz < dst_pos.z + w.z) implies #[trigger]
                    nu.voxel_byte(px, py, pz, k) == pre.voxel_byte(px, py, pz, k) by {
                    assert(grid_byte(
                        nu.data@,
                        pre.shape.z as usize as int,
                        pre.shape.y as usize as int,
                        (nc * is) as int,
                        pz,
                        py,
                        px,
                        k,
                    ) == grid_byte(
                        pre.data@,
                        pre.shape.z as usize as int,
                        pre.shape.y as usize as int,
                        (nc * is) as int,
                        pz,
                        py,
                        px,
                        k,
                    ));
                }
            }
        } else {
            channels_box(
                &mut self.data,
                self.shape.x as usize,
                self.shape.y as usize,
                self.shape.z as usize,
                dst_pos.x as usize,
                dst_pos.y as usize,
                dst_pos.z as usize,
                &src.data,
                src.shape.x as usize,
                src.shape.y as usize,
                src.shape.z as usize,
                s0.x as usize,
                s0.y as usize,
                s0.z as usize,
                w.x as usize,
                w.y as usize,
                w.z as usize,
                nc,
                is,
            );
            proof {
                let nu = *self;
                assert forall|x: int, y: int, z: int, c: int, k: int|
                    0 <= x < w.x && 0 <= y < w.y && 0 <= z < w.z && 0 <= c < nc && 0 <= k
                        < is implies #[trigger] nu.voxel_byte(
                    dst_pos.x + x,
                    dst_pos.y + y,
                    dst_pos.z + z,
                    c * is + k,
                ) == src.channel_plane_byte(s0.x + x, s0.y + y, s0.z + z, c, k) by {
                    assert(grid_byte(
                        nu.data@,
                        pre.shape.x as usize as int,
                        pre.shape.y as usize as int,
                        (nc * is) as int,
                        dst_pos.x as usize + x,
                        dst_pos.y as usize + y,
                        dst_pos.z as usize + z,
                        c * is as int + k,
                    ) == planar_byte(
                        src.data@,
                        src.shape.x as usize as int,
                        src.shape.y as usize as int,
                        (src.shape.x as usize * src.shape.y as usize * src.shape.z as usize) as int,
                        is as int,
                        s0.x as usize + x,
                        s0.y as usize + y,
                        s0.z as usize + z,
                        c,
                        k,
                    ));
                    assert(src.shape.x as usize * src.shape.y as usize * src.shape.z as usize
                        == src.numel());
                }
                assert forall|px: int, py: int, pz: int, k: int|
                    0 <= px < nu.shape.x && 0 <= py < nu.shape.y && 0 <= pz < nu.shape.z && 0 <= k
                        < nu.voxel_size && !(dst_pos.x <= px < dst_pos.x + w.x && dst_pos.y <= py
                        < dst_pos.y + w.y && dst_pos.z <= pz < dst_pos.z + w.z) implies #[trigger]
                    nu.voxel_byte(px, py, pz, k) == pre.voxel_byte(px, py, pz, k) by {
                    assert(grid_byte(
                        nu.data@,
                        pre.shape.x as usize as int,
                        pre.shape.y as usize as int,
                        (nc * is) as int,
                        px,
                        py,
                        pz,
                        k,
                    ) == grid_byte(
                        pre.data@,
                        pre.shape.x as usize as int,
                        pre.shape.y as usize as int,
                        (nc * is) as int,
                        px,
                        py,
                        pz,
                        k,
                    ));
                }
            }
        }
        Ok(())
    }
}


impl Mat {
    /// Copy a box into this column-major matrix from a source in either
    /// storage order.  A row-major source is staged through the caller's
    /// intermediate buffer — transposed, and for multi-channel voxels also
    /// shuffled from channel planes into interleaved voxels; a column-major
    /// source is copied directly.
    pub fn copy_from_order_agnostic(
        &mut self,
        dst_pos: Vec3,
        src: &Mat,
        src_box: Box3,
        intermediate_buffer: &mut Mat,
    ) -> (r: Result<(), WkwError>)
        requires
            old(self).wf(),
            src.wf(),
            src_box.wf(),
            old(intermediate_buffer).wf(),
            old(self).voxel_size >= 1,
        ensures
            final(self).wf(),
            same_view(*final(self), *old(self)),
            final(intermediate_buffer).wf(),
            same_view(*final(intermediate_buffer), *old(intermediate_buffer)),
            r is Ok <==> {
                &&& old(self).voxel_size == src.voxel_size
                &&& old(self).voxel_type == src.voxel_type
                &&& !old(self).data_in_c_order
                &&& src_box.max.all_le(src.shape)
                &&& dst_pos.x + src_box.max.x - src_box.min.x <= old(self).shape.x
                &&& dst_pos.y + src_box.max.y - src_box.min.y <= old(self).shape.y
                &&& dst_pos.z + src_box.max.z - src_box.min.z <= old(self).shape.z
                &&& (src.data_in_c_order ==> old(intermediate_buffer).voxel_size == old(
                    self,
                ).voxel_size && old(intermediate_buffer).voxel_type == old(self).voxel_type && old(
                    intermediate_buffer,
                ).data_in_c_order && old(intermediate_buffer).shape == old(self).shape)
            },
            r is Err ==> *final(self) == *old(self),
            r is Ok && !src.data_in_c_order ==> region_copied(
                *final(self),
                *src,
                dst_pos,
                src_box.min,
                spec_width(src_box),
            ) && region_untouched(*final(self), *old(self), dst_pos, spec_width(src_box)),
            r is Ok && src.data_in_c_order && old(self).voxel_size == src.voxel_type.spec_size()
                ==> region_copied(
                *final(self),
                *src,
                dst_pos,
                src_box.min,
                spec_width(src_box),
            ) && region_untouched(*final(self), *old(self), dst_pos, spec_width(src_box)),
            r is Ok && src.data_in_c_order && old(self).voxel_size != src.voxel_type.spec_size()
                ==> final(self).channels_copied(*src, dst_pos, src_box.min, spec_width(src_box))
                && region_untouched(*final(self), *old(self), dst_pos, spec_width(src_box)),
    {
        if self.data_in_c_order {
            return Err(WkwError::OrderMismatch);
        }
        if !src.data_in_c_order {
            return self.copy_from(dst_pos, src, src_box);
        }
        if self.voxel_size != src.voxel_size {
            return Err(WkwError::VoxelSizeMismatch);
        }
        if !voxel_type_eq(self.voxel_type, src.voxel_type) {
            return Err(WkwError::VoxelTypeMismatch);
        }
        if intermediate_buffer.voxel_size != self.voxel_size {
            return Err(WkwError::VoxelSizeMismatch);
        }
        let is = self.voxel_type.size();
        let single = self.voxel_size == is;
        if single {
            match intermediate_buffer.copy_from(dst_pos, src, src_box) {
                Ok(_) => (),
                Err(e) => {
                    return Err(e);
                },
            }
        } else {
            match intermediate_buffer.copy_from_and_put_channels_last(dst_pos, src, src_box) {
                Ok(_) => (),
                Err(e) => {
                    return Err(e);
                },
            }
        }
        let w = src_box.width();
        proof {
            assert(dst_pos.x + w.x <= intermediate_buffer.shape.x);
        }
        let dst_bbox = match Box3::new(dst_pos, dst_pos.add(w)) {
            Ok(b) => b,
            Err(e) => {
                return Err(e);
            },
        };
        let ghost mid = *intermediate_buffer;
        let ghost pre = *self;
        match intermediate_buffer.copy_as_fortran_order(self, dst_bbox) {
            Ok(_) => (),
            Err(e) => {
                return Err(e);
            },
        }
        proof {
            let nu = *self;
            let s0 = src_box.min;
            if single {
                assert forall|x: int, y: int, z: int, k: int|
                    0 <= x < w.x && 0 <= y < w.y && 0 <= z < w.z && 0 <= k
                        < nu.voxel_size implies #[trigger] nu.voxel_byte(
                    dst_pos.x + x,
                    dst_pos.y + y,
                    dst_pos.z + z,
                    k,
                ) == src.voxel_byte(s0.x + x, s0.y + y, s0.z + z, k) by {
                    assert(nu.voxel_byte(dst_pos.x + x, dst_pos.y + y, dst_pos.z + z, k)
                        == mid.voxel_byte(dst_pos.x + x, dst_pos.y + y, dst_pos.z + z, k));
                    assert(mid.voxel_byte(dst_pos.x + x, dst_pos.y + y, dst_pos.z + z, k)
                        == src.voxel_byte(s0.x + x, s0.y + y, s0.z + z, k));
                }
            } else {
                let isz = self.voxel_type.spec_size();
                assert forall|x: int, y: int, z: int, c: int, k: int|
                    0 <= x < w.x && 0 <= y < w.y && 0 <= z < w.z && 0 <= c < nu.voxel_size as int
                        / isz && 0 <= k < isz implies #[trigger] nu.voxel_byte(
                    dst_pos.x + x,
                    dst_pos.y + y,
                    dst_pos.z + z,
                    c * isz + k,
                ) == src.channel_plane_byte(s0.x + x, s0.y + y, s0.z + z, c, k) by {
                    vstd::arithmetic::div_mod::lemma_fundamental_div_mod(
                        nu.voxel_size as int,
                        isz,
                    );
                    assert(0 <= c * isz + k < nu.voxel_size) by (nonlinear_arith)
                        requires
                            0 <= c && 0 <= k < isz && c + 1 <= nu.voxel_size as int / isz
                                && nu.voxel_size as int % isz == 0 && isz >= 1 && (
                            nu.voxel_size as int / isz) * isz + nu.voxel_size as int % isz
                                == nu.voxel_size,
                    ;
                    assert(nu.voxel_byte(dst_pos.x + x, dst_pos.y + y, dst_pos.z + z, c * isz + k)
                        == mid.voxel_byte(dst_pos.x + x, dst_pos.y + y, dst_pos.z + z, c * isz
                        + k));
                    assert(mid.voxel_byte(dst_pos.x + x, dst_pos.y + y, dst_pos.z + z, c * isz
                        + k) == src.channel_plane_byte(s0.x + x, s0.y + y, s0.z + z, c, k));
                }
            }
        }
        Ok(())
    }
}

/// The width of a box, as a spec value.
pub open spec fn spec_width(b: Box3) -> Vec3 {
    Vec3 { x: (b.max.x - b.min.x) as u32, y: (b.max.y - b.min.y) as u32, z: (b.max.z - b.min.z) as u32 }
}


impl Mat {
    /// A column-major copy of this row-major matrix: same shape and types,
    /// holding the same logical voxels.  A multi-channel source is read as
    /// channel planes (the host-buffer convention) and interleaved.
    pub fn to_fortran_order(&self) -> (r: Result<Mat, WkwError>)
        requires
            self.wf(),
            self.voxel_size >= 1,
            self.data_in_c_order,
        ensures
            r is Ok,
            r matches Ok(m) ==> {
                &&& m.wf()
                &&& !m.data_in_c_order
                &&& m.shape == self.shape
                &&& m.voxel_size == self.voxel_size
                &&& m.voxel_type == self.voxel_type
            },
            r matches Ok(m) ==> (self.voxel_size == self.voxel_type.spec_size() ==> forall|
                x: int,
                y: int,
                z: int,
                k: int,
            |
                0 <= x < self.shape.x && 0 <= y < self.shape.y && 0 <= z < self.shape.z && 0 <= k
                    < self.voxel_size ==> #[trigger] m.voxel_byte(x, y, z, k) == self.voxel_byte(
                    x,
                    y,
                    z,
                    k,
                )),
            r matches Ok(m) ==> (self.voxel_size != self.voxel_type.spec_size() ==> forall|
                x: int,
                y: int,
                z: int,
                c: int,
                k: int,
            |
                0 <= x < self.shape.x && 0 <= y < self.shape.y && 0 <= z < self.shape.z && 0 <= c
                    < self.voxel_size as int / self.voxel_type.spec_size() && 0 <= k
                    < self.voxel_type.spec_size() ==> #[trigger] m.voxel_byte(
                    x,
                    y,
                    z,
                    c * self.voxel_type.spec_size() + k,
                ) == self.channel_plane_byte(x, y, z, c, k)),
    {
        let n = self.data.len();
        let full = Box3 { min: Vec3 { x: 0, y: 0, z: 0 }, max: self.shape };
        proof {
            vstd::std_specs::vec::axiom_spec_len(&self.data);
            assert(self.numel() <= self.numel() * self.voxel_size) by (nonlinear_arith)
                requires
                    self.voxel_size >= 1 && self.numel() >= 0,
            ;
        }
        let mut out = match Mat::new(
            vec![0u8; n],
            self.shape,
            self.voxel_size,
            self.voxel_type,
            false,
        ) {
            Ok(m) => m,
            Err(e) => {
                proof {
                    assert(false);
                }
                return Err(e);
            },
        };
        let is = self.voxel_type.size();
        if self.voxel_size == is {
            let tr = self.copy_as_fortran_order(&mut out, full);
            match tr {
                Ok(_) => (),
                Err(e) => {
                    proof {
                        assert(false);
                    }
                    return Err(e);
                },
            }
            return Ok(out);
        }
        let mut inter = match Mat::new(
            vec![0u8; n],
            self.shape,
            self.voxel_size,
            self.voxel_type,
            true,
        ) {
            Ok(m) => m,
            Err(e) => {
                proof {
                    assert(false);
                }
                return Err(e);
            },
        };
        let sh = inter.copy_from_and_put_channels_last(Vec3 { x: 0, y: 0, z: 0 }, self, full);
        match sh {
            Ok(_) => (),
            Err(e) => {
                proof {
                    assert(false);
                }
                return Err(e);
            },
        }
        let ghost mid = inter;
        let tr = inter.copy_as_fortran_order(&mut out, full);
        match tr {
            Ok(_) => (),
            Err(e) => {
                proof {
                    assert(false);
                }
                return Err(e);
            },
        }
        proof {
            let isz = self.voxel_type.spec_size();
            assert forall|x: int, y: int, z: int, c: int, k: int|
                0 <= x < self.shape.x && 0 <= y < self.shape.y && 0 <= z < self.shape.z && 0 <= c
                    < self.voxel_size as int / isz && 0 <= k < isz implies #[trigger]
                out.voxel_byte(x, y, z, c * isz + k) == self.channel_plane_byte(x, y, z, c, k) by {
                vstd::arithmetic::div_mod::lemma_fundamental_div_mod(
                    self.voxel_size as int,
                    isz,
                );
                assert(0 <= c * isz + k < self.voxel_size) by (nonlinear_arith)
                    requires
                        0 <= c && 0 <= k < isz && c + 1 <= self.voxel_size as int / isz
                            && self.voxel_size as int % isz == 0 && isz >= 1 && (
                        self.voxel_size as int / isz) * isz + self.voxel_size as int % isz
                            == self.voxel_size,
                ;
                assert(out.voxel_byte(x, y, z, c * isz + k) == mid.voxel_byte(
                    x,
                    y,
                    z,
                    c * isz + k,
                ));
                assert(mid.voxel_byte(x + 0, y + 0, z + 0, c * isz + k)
                    == self.channel_plane_byte(0 + x, 0 + y, 0 + z, c, k));
            }
        }
        Ok(out)
    }
}

} // verus!
