use vstd::prelude::*;

use crate::error::WkwError;
use crate::file::lemma_block_coords;
use crate::file::lemma_block_of;
use crate::file::region_end;
use crate::file::File;
use crate::header::BlockType;
use crate::header::Header;
use crate::mat::Mat;
use crate::vec3::pow2i;
use crate::vec3::Box3;
use crate::vec3::Vec3;

verus! {

/// One cube file of a dataset, at its integer file coordinates.
pub struct FileEntry {
    pub id: Vec3,
    pub file: File,
}

/// A dataset: a common header and the cube files written so far, each at its
/// file coordinates.  Reading and writing an arbitrary box routes through
/// the files it overlaps; files that were never written stay absent.
pub struct Dataset {
    pub header: Header,
    pub files: Vec<FileEntry>,
}

impl Dataset {
    /// The dataset header is well formed, bare (no data offset, no jump
    /// table), and every file matches its geometry.
    pub open spec fn wf(self) -> bool {
        &&& self.header.wf()
        &&& self.header.data_offset == 0
        &&& self.header.jump_table is None
        &&& forall|i: int|
            0 <= i < self.files@.len() ==> (#[trigger] self.files@[i]).file.wf()
                && self.files@[i].file.header.version == self.header.version
                && self.files@[i].file.header.block_len_log2 == self.header.block_len_log2
                && self.files@[i].file.header.file_len_log2 == self.header.file_len_log2
                && self.files@[i].file.header.block_type == self.header.block_type
                && self.files@[i].file.header.voxel_type == self.header.voxel_type
                && self.files@[i].file.header.voxel_size == self.header.voxel_size
        &&& forall|i: int, j: int|
            0 <= i < j < self.files@.len() ==> (#[trigger] self.files@[i]).id != (
            #[trigger] self.files@[j]).id
    }

    /// The coordinates of the file that holds the voxel at (x, y, z).
    pub open spec fn file_id_of(self, x: int, y: int, z: int) -> Vec3 {
        let f = self.header.spec_file_len_vx();
        Vec3 { x: (x / f) as u32, y: (y / f) as u32, z: (z / f) as u32 }
    }

    /// Some file of the dataset holds the voxel at (x, y, z).
    pub open spec fn has_file_at(self, x: int, y: int, z: int) -> bool {
        exists|i: int|
            0 <= i < self.files@.len() && (#[trigger] self.files@[i]).id == self.file_id_of(
                x,
                y,
                z,
            )
    }

    /// The entry of the file that holds the voxel at (x, y, z).
    pub open spec fn entry_at(self, x: int, y: int, z: int) -> int {
        choose|i: int|
            0 <= i < self.files@.len() && (#[trigger] self.files@[i]).id == self.file_id_of(
                x,
                y,
                z,
            )
    }

    /// The voxel's file is present and its block content is known.
    pub open spec fn voxel_known_at(self, x: int, y: int, z: int) -> bool {
        let f = self.header.spec_file_len_vx();
        self.has_file_at(x, y, z) && self.files@[self.entry_at(x, y, z)].file.voxel_known(
            x % f,
            y % f,
            z % f,
        )
    }

    /// Byte `k` of the voxel at (x, y, z) of the dataset.
    pub open spec fn voxel_byte_at(self, x: int, y: int, z: int, k: int) -> u8 {
        let f = self.header.spec_file_len_vx();
        self.files@[self.entry_at(x, y, z)].file.file_voxel_byte(x % f, y % f, z % f, k)
    }

    /// Whether the header may stand over a dataset.
    fn header_acceptable(header: &Header) -> (r: bool)
        ensures
            r == (header.wf() && header.data_offset == 0 && header.jump_table is None),
    {
        (header.version == 1 || header.version == 2) && header.block_len_log2 <= 15
            && header.file_len_log2 <= 15 && header.block_len_log2 as u32
            + header.file_len_log2 as u32 <= 18 && header.voxel_size >= 1 && header.voxel_size
            as usize % header.voxel_type.size() == 0 && header.data_offset == 0 && match &header
            .jump_table {
            Some(_) => false,
            None => true,
        }
    }

    /// Open a dataset whose parsed header file is at hand; it starts with no
    /// files loaded.
    pub fn new(header: Header) -> (r: Result<Dataset, WkwError>)
        ensures
            r is Ok <==> (header.wf() && header.data_offset == 0 && header.jump_table is None),
            r matches Ok(d) ==> d.wf() && d.header == header && d.files@.len() == 0,
            r is Err ==> r == Err::<Dataset, WkwError>(WkwError::HeaderInvalid),
    {
        if !Self::header_acceptable(&header) {
            return Err(WkwError::HeaderInvalid);
        }
        Ok(Dataset { header, files: Vec::new() })
    }

    /// Create a dataset from a template header: the stored dataset header
    /// drops any data offset and jump table the template carried.
    pub fn create(header: Header) -> (r: Result<Dataset, WkwError>)
        ensures
            r is Ok <==> header.wf(),
            r matches Ok(d) ==> d.wf() && d.files@.len() == 0 && d.header.version
                == header.version && d.header.block_len_log2 == header.block_len_log2
                && d.header.file_len_log2 == header.file_len_log2 && d.header.block_type
                == header.block_type && d.header.voxel_type == header.voxel_type
                && d.header.voxel_size == header.voxel_size && d.header.data_offset == 0
                && d.header.jump_table is None,
            r is Err ==> r == Err::<Dataset, WkwError>(WkwError::HeaderInvalid),
    {
        let bare = Header {
            version: header.version,
            block_len_log2: header.block_len_log2,
            file_len_log2: header.file_len_log2,
            block_type: header.block_type,
            voxel_type: header.voxel_type,
            voxel_size: header.voxel_size,
            data_offset: 0,
            jump_table: None,
        };
        Self::new(bare)
    }

    /// The compressed twin of this dataset: same geometry, LZ4HC blocks, no
    /// files yet.
    pub fn compress(&self) -> (r: Result<Dataset, WkwError>)
        requires
            self.wf(),
        ensures
            r matches Ok(d) ==> d.wf() && d.files@.len() == 0 && d.header.block_type
                == BlockType::LZ4HC && d.header.version == self.header.version
                && d.header.block_len_log2 == self.header.block_len_log2
                && d.header.file_len_log2 == self.header.file_len_log2 && d.header.voxel_type
                == self.header.voxel_type && d.header.voxel_size == self.header.voxel_size,
            r is Ok,
    {
        let twin = Header {
            version: self.header.version,
            block_len_log2: self.header.block_len_log2,
            file_len_log2: self.header.file_len_log2,
            block_type: BlockType::LZ4HC,
            voxel_type: self.header.voxel_type,
            voxel_size: self.header.voxel_size,
            data_offset: 0,
            jump_table: None,
        };
        Self::new(twin)
    }

    /// The dataset header.
    pub fn header(&self) -> (r: &Header)
        ensures
            r == self.header,
    {
        &self.header
    }

    /// The position of the file with the given coordinates, if present.
    fn find_file(&self, id: Vec3) -> (r: Option<usize>)
        ensures
            r matches Some(i) ==> i < self.files@.len() && self.files@[i as int].id == id,
            r is None ==> forall|i: int|
                0 <= i < self.files@.len() ==> (#[trigger] self.files@[i]).id != id,
    {
        let n = self.files.len();
        let mut i: usize = 0;
        while i < n
            invariant
                i <= n,
                n == self.files@.len(),
                forall|j: int| 0 <= j < i ==> (#[trigger] self.files@[j]).id != id,
            decreases n - i,
        {
            let e = &self.files[i];
            if e.id.x == id.x && e.id.y == id.y && e.id.z == id.z {
                return Some(i);
            }
            i = i + 1;
        }
        None
    }

    /// Read the box of `mat.shape` voxels at `src_pos` into `mat`, file by
    /// file in ascending file coordinates.  Every voxel whose file is
    /// present and whose block content is known arrives byte for byte;
    /// voxels whose region maps to no present file keep the caller's bytes
    /// (absent files are sparse, the library never zero-fills); and the
    /// read succeeds whenever the blocks it touches in present files are
    /// known — always, for a raw dataset.
    #[verifier::rlimit(100)]
    pub fn read_mat(&self, src_pos: Vec3, mat: &mut Mat) -> (r: Result<usize, WkwError>)
        requires
            self.wf(),
            old(mat).wf(),
            !old(mat).data_in_c_order,
            old(mat).voxel_size == self.header.voxel_size,
            old(mat).voxel_type == self.header.voxel_type,
            old(mat).shape.x >= 1 && old(mat).shape.y >= 1 && old(mat).shape.z >= 1,
            src_pos.x + old(mat).shape.x + self.header.spec_file_len_vx() <= 0x100000000,
            src_pos.y + old(mat).shape.y + self.header.spec_file_len_vx() <= 0x100000000,
            src_pos.z + old(mat).shape.z + self.header.spec_file_len_vx() <= 0x100000000,
            self.header.spec_block_size() <= 0x7fffffff,
        ensures
            final(mat).wf(),
            crate::mat::same_view(*final(mat), *old(mat)),
            r is Ok ==> (forall|x: int, y: int, z: int, k: int|
                #![trigger final(mat).voxel_byte(x - src_pos.x, y - src_pos.y, z - src_pos.z, k)]
                src_pos.x <= x < src_pos.x + old(mat).shape.x && src_pos.y <= y < src_pos.y + old(
                    mat,
                ).shape.y && src_pos.z <= z < src_pos.z + old(mat).shape.z && 0 <= k < old(
                    mat,
                ).voxel_size && self.voxel_known_at(x, y, z) ==> final(mat).voxel_byte(
                    x - src_pos.x,
                    y - src_pos.y,
                    z - src_pos.z,
                    k,
                ) == self.voxel_byte_at(x, y, z, k)),
            r is Ok ==> (forall|x: int, y: int, z: int, k: int|
                #![trigger final(mat).voxel_byte(x - src_pos.x, y - src_pos.y, z - src_pos.z, k)]
                src_pos.x <= x < src_pos.x + old(mat).shape.x && src_pos.y <= y < src_pos.y + old(
                    mat,
                ).shape.y && src_pos.z <= z < src_pos.z + old(mat).shape.z && 0 <= k < old(
                    mat,
                ).voxel_size && !self.has_file_at(x, y, z) ==> final(mat).voxel_byte(
                    x - src_pos.x,
                    y - src_pos.y,
                    z - src_pos.z,
                    k,
                ) == old(mat).voxel_byte(x - src_pos.x, y - src_pos.y, z - src_pos.z, k)),
            (forall|x: int, y: int, z: int|
                src_pos.x <= x < src_pos.x + old(mat).shape.x && src_pos.y <= y < src_pos.y + old(
                    mat,
                ).shape.y && src_pos.z <= z < src_pos.z + old(mat).shape.z && #[trigger]
                    self.has_file_at(x, y, z) ==> self.voxel_known_at(x, y, z)) ==> r is Ok,
    {
        let ghost pre = *mat;
        proof {
            crate::header::lemma_file_geometry(self.header);
            lemma_file_shift(self.header);
        }
        let fvl = self.header.file_len_vx_log2() as u32;
        let flv = self.header.file_len_vx();
        let bbox = match Box3::new(src_pos, src_pos.add(mat.shape)) {
            Ok(b) => b,
            Err(e) => {
                proof {
                    assert(false);
                }
                return Err(e);
            },
        };
        let fmin = src_pos.shr(fvl);
        let fmax = bbox.max().sub(Vec3::splat(1)).shr(fvl).add(Vec3::splat(1));
        proof {
            vstd::arithmetic::div_mod::lemma_div_is_ordered(
                src_pos.x as int,
                bbox.max.x - 1,
                flv as int,
            );
            vstd::arithmetic::div_mod::lemma_div_is_ordered(
                src_pos.y as int,
                bbox.max.y - 1,
                flv as int,
            );
            vstd::arithmetic::div_mod::lemma_div_is_ordered(
                src_pos.z as int,
                bbox.max.z - 1,
                flv as int,
            );
        }
        proof {
            assert forall|x: int, y: int, z: int, k: int|
                #![trigger mat.voxel_byte(x - src_pos.x, y - src_pos.y, z - src_pos.z, k)]
                src_pos.x <= x < bbox.max.x && src_pos.y <= y < bbox.max.y && src_pos.z <= z
                    < bbox.max.z && 0 <= k < pre.voxel_size implies !file_done(
                self.file_id_of(x, y, z),
                fmin,
            ) by {
                lemma_voxel_file_range(self.header, src_pos, bbox.max, fmin, fmax, x, y, z);
            }
        }
        let mut cur_z = fmin.z;
        while cur_z < fmax.z
            invariant
                read_loop_inv(
                    *self,
                    *mat,
                    pre,
                    src_pos,
                    bbox,
                    fmin,
                    fmax,
                    fvl,
                    flv,
                    Vec3 { x: fmin.x, y: fmin.y, z: cur_z },
                ),
                pre == *old(mat),
                fmin.z <= cur_z <= fmax.z,
            decreases fmax.z - cur_z,
        {
            let mut cur_y = fmin.y;
            while cur_y < fmax.y
                invariant
                    read_loop_inv(
                        *self,
                        *mat,
                        pre,
                        src_pos,
                        bbox,
                        fmin,
                        fmax,
                        fvl,
                        flv,
                        Vec3 { x: fmin.x, y: cur_y, z: cur_z },
                    ),
                    pre == *old(mat),
                    fmin.y <= cur_y <= fmax.y,
                    fmin.z <= cur_z < fmax.z,
                decreases fmax.y - cur_y,
            {
                let mut cur_x = fmin.x;
                while cur_x < fmax.x
                    invariant
                        read_loop_inv(
                            *self,
                            *mat,
                            pre,
                            src_pos,
                            bbox,
                            fmin,
                            fmax,
                            fvl,
                            flv,
                            Vec3 { x: cur_x, y: cur_y, z: cur_z },
                        ),
                        pre == *old(mat),
                        fmin.x <= cur_x <= fmax.x,
                        fmin.y <= cur_y < fmax.y,
                        fmin.z <= cur_z < fmax.z,
                    decreases fmax.x - cur_x,
                {
                    let cur_id = Vec3 { x: cur_x, y: cur_y, z: cur_z };
                    let ghost mat_before = *mat;
                    proof {
                        lemma_file_box(self.header, cur_id, src_pos, bbox.max, fmin, fmax);
                    }
                    match self.find_file(cur_id) {
                        None => {
                            proof {
                                lemma_read_step_absent(
                                    *self,
                                    *mat,
                                    pre,
                                    src_pos,
                                    bbox,
                                    fmin,
                                    fmax,
                                    fvl,
                                    flv,
                                    cur_id,
                                );
                            }
                        },
                        Some(fi) => {
                            let fbase = cur_id.shl(fvl);
                            let fpast = cur_id.add(Vec3::splat(1)).shl(fvl);
                            let fbox = match Box3::new(fbase, fpast) {
                                Ok(b) => b,
                                Err(e) => {
                                    proof {
                                        assert(false);
                                    }
                                    return Err(e);
                                },
                            };
                            let cur_box = fbox.intersect(bbox);
                            proof {
                                assert(self.files@[fi as int].file.wf());
                                assert(self.files@[fi as int].file.header.spec_block_size()
                                    == self.header.spec_block_size());
                                assert(self.files@[fi as int].file.header.spec_file_len_vx()
                                    == self.header.spec_file_len_vx());
                                assert(cur_box.min.x >= fbase.x && cur_box.min.y >= fbase.y
                                    && cur_box.min.z >= fbase.z);
                                assert(cur_box.min.x >= src_pos.x && cur_box.min.y >= src_pos.y
                                    && cur_box.min.z >= src_pos.z);
                                assert(cur_box.min.x < fpast.x && cur_box.min.y < fpast.y
                                    && cur_box.min.z < fpast.z);
                                assert(cur_box.min.x <= bbox.max.x && cur_box.min.y <= bbox.max.y
                                    && cur_box.min.z <= bbox.max.z);
                                assert(fpast.x - fbase.x == flv && fpast.y - fbase.y == flv
                                    && fpast.z - fbase.z == flv) by (nonlinear_arith)
                                    requires
                                        fbase.x == cur_id.x * flv && fpast.x == (cur_id.x + 1)
                                            * flv && fbase.y == cur_id.y * flv && fpast.y == (
                                        cur_id.y + 1) * flv && fbase.z == cur_id.z * flv
                                            && fpast.z == (cur_id.z + 1) * flv,
                                ;
                            }
                            let cur_src_pos = cur_box.min().sub(fbase);
                            let cur_dst_pos = cur_box.min().sub(src_pos);
                            let entry = &self.files[fi];
                            let rr = entry.file.read_mat(cur_src_pos, mat, cur_dst_pos);
                            let ghost rex = region_end(
                                flv as int,
                                cur_src_pos.x,
                                pre.shape.x,
                                cur_dst_pos.x,
                            );
                            let ghost rey = region_end(
                                flv as int,
                                cur_src_pos.y,
                                pre.shape.y,
                                cur_dst_pos.y,
                            );
                            let ghost rez = region_end(
                                flv as int,
                                cur_src_pos.z,
                                pre.shape.z,
                                cur_dst_pos.z,
                            );
                            proof {
                                assert(rex == cur_box.max.x - fbase.x && rey == cur_box.max.y
                                    - fbase.y && rez == cur_box.max.z - fbase.z);
                            }
                            match rr {
                                Ok(_) => (),
                                Err(e) => {
                                    proof {
                                        let fl = self.files@[fi as int].file;
                                        if forall|a: int, b: int, c: int|
                                            cur_src_pos.x <= a < rex && cur_src_pos.y <= b < rey
                                                && cur_src_pos.z <= c < rez ==> #[trigger]
                                                fl.voxel_known(a, b, c) {
                                            assert(false);
                                        }
                                        let (wa, wb, wc) = choose|a: int, b: int, c: int|
                                            cur_src_pos.x <= a < rex && cur_src_pos.y <= b < rey
                                                && cur_src_pos.z <= c < rez && !(#[trigger]
                                            fl.voxel_known(a, b, c));
                                        lemma_read_step_err(
                                            *self,
                                            pre,
                                            src_pos,
                                            bbox,
                                            flv,
                                            cur_id,
                                            fi as int,
                                            fbase,
                                            fbase.x + wa,
                                            fbase.y + wb,
                                            fbase.z + wc,
                                        );
                                    }
                                    return Err(e);
                                },
                            }
                            proof {
                                assert forall|x: int, y: int, z: int|
                                    0 <= x < 0x100000000 && 0 <= y < 0x100000000 && 0 <= z
                                        < 0x100000000 implies (#[trigger] cur_box.contains(
                                    Vec3 { x: x as u32, y: y as u32, z: z as u32 },
                                ) <==> (fbase.x <= x < fpast.x && fbase.y <= y < fpast.y
                                    && fbase.z <= z < fpast.z && src_pos.x <= x < bbox.max.x
                                    && src_pos.y <= y < bbox.max.y && src_pos.z <= z
                                    < bbox.max.z)) by {
                                    crate::vec3::lemma_intersect_contains(
                                        fbox,
                                        bbox,
                                        Vec3 { x: x as u32, y: y as u32, z: z as u32 },
                                    );
                                }
                                lemma_read_step_present(
                                    *self,
                                    *mat,
                                    mat_before,
                                    pre,
                                    src_pos,
                                    bbox,
                                    fmin,
                                    fmax,
                                    fvl,
                                    flv,
                                    cur_id,
                                    fi as int,
                                    fbase,
                                    fpast,
                                    cur_box,
                                );
                            }
                        },
                    }
                    cur_x = cur_x + 1;
                }
                proof {
                    lemma_read_inv_roll(
                        *self,
                        *mat,
                        pre,
                        src_pos,
                        bbox,
                        fmin,
                        fmax,
                        fvl,
                        flv,
                        Vec3 { x: fmax.x, y: cur_y, z: cur_z },
                        Vec3 { x: fmin.x, y: (cur_y + 1) as u32, z: cur_z },
                    );
                }
                cur_y = cur_y + 1;
            }
            proof {
                lemma_read_inv_roll(
                    *self,
                    *mat,
                    pre,
                    src_pos,
                    bbox,
                    fmin,
                    fmax,
                    fvl,
                    flv,
                    Vec3 { x: fmin.x, y: fmax.y, z: cur_z },
                    Vec3 { x: fmin.x, y: fmin.y, z: (cur_z + 1) as u32 },
                );
            }
            cur_z = cur_z + 1;
        }
        proof {
            assert forall|x: int, y: int, z: int, k: int|
                #![trigger mat.voxel_byte(x - src_pos.x, y - src_pos.y, z - src_pos.z, k)]
                src_pos.x <= x < src_pos.x + pre.shape.x && src_pos.y <= y < src_pos.y
                    + pre.shape.y && src_pos.z <= z < src_pos.z + pre.shape.z && 0 <= k
                    < pre.voxel_size implies ((self.voxel_known_at(x, y, z) ==> mat.voxel_byte(
                x - src_pos.x,
                y - src_pos.y,
                z - src_pos.z,
                k,
            ) == self.voxel_byte_at(x, y, z, k)) && (!self.has_file_at(x, y, z)
                ==> mat.voxel_byte(x - src_pos.x, y - src_pos.y, z - src_pos.z, k)
                == pre.voxel_byte(x - src_pos.x, y - src_pos.y, z - src_pos.z, k))) by {
                lemma_voxel_file_range(self.header, src_pos, bbox.max, fmin, fmax, x, y, z);
                assert(file_done(
                    (Vec3 {
                        x: (x / flv as int) as u32,
                        y: (y / flv as int) as u32,
                        z: (z / flv as int) as u32,
                    }),
                    (Vec3 { x: fmin.x, y: fmin.y, z: fmax.z }),
                ));
            }
        }
        Ok(1)
    }

    /// Write the box of `mat.shape` voxels of `mat` at `dst_pos`, file by
    /// file in ascending file coordinates, creating files as needed.  A
    /// matrix whose voxel type or size disagrees with the header is
    /// rejected, and a write to a compressed dataset that is not aligned to
    /// whole file cubes is rejected; either rejection leaves the dataset
    /// untouched.  On success every voxel of the region is in the dataset,
    /// byte for byte; files outside the region keep their entries; a write
    /// to a raw dataset always succeeds, and to a compressed one whenever
    /// the block size is below the codec's input cap.  A row-major source
    /// is staged through a column-major copy; a row-major multi-channel
    /// source is read as channel planes, per the host-buffer convention.
    #[verifier::rlimit(100)]
    pub fn write_mat(&mut self, dst_pos: Vec3, mat: &Mat) -> (r: Result<usize, WkwError>)
        requires
            old(self).wf(),
            mat.wf(),
            mat.shape.x >= 1 && mat.shape.y >= 1 && mat.shape.z >= 1,
            dst_pos.x + mat.shape.x + old(self).header.spec_file_len_vx() <= 0x100000000,
            dst_pos.y + mat.shape.y + old(self).header.spec_file_len_vx() <= 0x100000000,
            dst_pos.z + mat.shape.z + old(self).header.spec_file_len_vx() <= 0x100000000,
            old(self).header.spec_block_size() <= 0x7fffffff,
            old(self).header.spec_file_size() <= usize::MAX,
            old(self).header.spec_file_vol() <= usize::MAX,
        ensures
            final(self).wf(),
            final(self).header == old(self).header,
            mat.voxel_type != old(self).header.voxel_type ==> r == Err::<usize, WkwError>(
                WkwError::VoxelTypeMismatch,
            ) && *final(self) == *old(self),
            mat.voxel_type == old(self).header.voxel_type && mat.voxel_size
                != old(self).header.voxel_size ==> r == Err::<usize, WkwError>(
                WkwError::VoxelSizeMismatch,
            ) && *final(self) == *old(self),
            mat.voxel_type == old(self).header.voxel_type && mat.voxel_size == old(
                self,
            ).header.voxel_size && old(self).header.block_type.is_compressed() && !(dst_pos.x
                as int % old(self).header.spec_file_len_vx() == 0 && dst_pos.y as int % old(
                self,
            ).header.spec_file_len_vx() == 0 && dst_pos.z as int % old(
                self,
            ).header.spec_file_len_vx() == 0 && mat.shape.x as int % old(
                self,
            ).header.spec_file_len_vx() == 0 && mat.shape.y as int % old(
                self,
            ).header.spec_file_len_vx() == 0 && mat.shape.z as int % old(
                self,
            ).header.spec_file_len_vx() == 0) ==> r == Err::<usize, WkwError>(
                WkwError::CompressedWriteAlignment,
            ) && *final(self) == *old(self),
            mat.voxel_type == old(self).header.voxel_type && mat.voxel_size == old(
                self,
            ).header.voxel_size && !old(self).header.block_type.is_compressed() ==> r is Ok,
            mat.voxel_type == old(self).header.voxel_type && mat.voxel_size == old(
                self,
            ).header.voxel_size && old(self).header.block_type.is_compressed() && (dst_pos.x
                as int % old(self).header.spec_file_len_vx() == 0 && dst_pos.y as int % old(
                self,
            ).header.spec_file_len_vx() == 0 && dst_pos.z as int % old(
                self,
            ).header.spec_file_len_vx() == 0 && mat.shape.x as int % old(
                self,
            ).header.spec_file_len_vx() == 0 && mat.shape.y as int % old(
                self,
            ).header.spec_file_len_vx() == 0 && mat.shape.z as int % old(
                self,
            ).header.spec_file_len_vx() == 0) && old(self).header.spec_block_size()
                <= 0x7e000000 ==> r is Ok,
            r is Ok ==> (forall|x: int, y: int, z: int|
                #![trigger final(self).voxel_known_at(x, y, z)]
                dst_pos.x <= x < dst_pos.x + mat.shape.x && dst_pos.y <= y < dst_pos.y
                    + mat.shape.y && dst_pos.z <= z < dst_pos.z + mat.shape.z ==> final(self).voxel_known_at(x, y, z)),
            r is Ok && (!mat.data_in_c_order || mat.voxel_size == mat.voxel_type.spec_size())
                ==> (forall|x: int, y: int, z: int, k: int|
                #![trigger final(self).voxel_byte_at(x, y, z, k)]
                dst_pos.x <= x < dst_pos.x + mat.shape.x && dst_pos.y <= y < dst_pos.y
                    + mat.shape.y && dst_pos.z <= z < dst_pos.z + mat.shape.z && 0 <= k
                    < mat.voxel_size ==> final(self).voxel_byte_at(x, y, z, k)
                    == mat.voxel_byte(x - dst_pos.x, y - dst_pos.y, z - dst_pos.z, k)),
            r is Ok && mat.data_in_c_order && mat.voxel_size != mat.voxel_type.spec_size()
                ==> (forall|x: int, y: int, z: int, c: int, k: int|
                #![trigger final(self).voxel_byte_at(x, y, z, c * mat.voxel_type.spec_size() + k)]
                dst_pos.x <= x < dst_pos.x + mat.shape.x && dst_pos.y <= y < dst_pos.y
                    + mat.shape.y && dst_pos.z <= z < dst_pos.z + mat.shape.z && 0 <= c
                    < mat.voxel_size as int / mat.voxel_type.spec_size() && 0 <= k
                    < mat.voxel_type.spec_size() ==> final(self).voxel_byte_at(
                    x,
                    y,
                    z,
                    c * mat.voxel_type.spec_size() + k,
                ) == mat.channel_plane_byte(x - dst_pos.x, y - dst_pos.y, z - dst_pos.z, c, k)),
            final(self).files@.len() >= old(self).files@.len(),
            forall|i: int|
                0 <= i < old(self).files@.len() ==> (#[trigger] final(self).files@[i]).id == old(
                    self,
                ).files@[i].id,
            forall|i: int|
                0 <= i < old(self).files@.len() && !(dst_pos.x as int / old(
                    self,
                ).header.spec_file_len_vx() <= old(self).files@[i].id.x < (dst_pos.x
                    + mat.shape.x - 1) / old(self).header.spec_file_len_vx() + 1 && dst_pos.y
                    as int / old(self).header.spec_file_len_vx() <= old(self).files@[i].id.y < (
                dst_pos.y + mat.shape.y - 1) / old(self).header.spec_file_len_vx() + 1
                    && dst_pos.z as int / old(self).header.spec_file_len_vx() <= old(
                    self,
                ).files@[i].id.z < (dst_pos.z + mat.shape.z - 1) / old(
                    self,
                ).header.spec_file_len_vx() + 1) ==> (#[trigger] final(self).files@[i]) == old(
                    self,
                ).files@[i],
    {
        if !crate::mat::voxel_type_eq(mat.voxel_type, self.header.voxel_type) {
            return Err(WkwError::VoxelTypeMismatch);
        }
        if mat.voxel_size != self.header.voxel_size as usize {
            return Err(WkwError::VoxelSizeMismatch);
        }
        let flv0 = self.header.file_len_vx();
        proof {
            crate::header::lemma_file_geometry(self.header);
            lemma_file_shift(self.header);
        }
        if self.header.block_type.compressed() {
            let aligned = dst_pos.x % flv0 == 0 && dst_pos.y % flv0 == 0 && dst_pos.z % flv0 == 0
                && mat.shape.x % flv0 == 0 && mat.shape.y % flv0 == 0 && mat.shape.z % flv0 == 0;
            if !aligned {
                return Err(WkwError::CompressedWriteAlignment);
            }
        }
        if !mat.data_in_c_order {
            return self.write_mat_inner(dst_pos, mat);
        }
        let staged = match mat.to_fortran_order() {
            Ok(m) => m,
            Err(e) => {
                proof {
                    assert(false);
                }
                return Err(e);
            },
        };
        let r = self.write_mat_inner(dst_pos, &staged);
        proof {
            if r is Ok {
                let isz = mat.voxel_type.spec_size();
                if mat.voxel_size == isz {
                    assert forall|x: int, y: int, z: int, k: int|
                        #![trigger self.voxel_byte_at(x, y, z, k)]
                        dst_pos.x <= x < dst_pos.x + mat.shape.x && dst_pos.y <= y < dst_pos.y
                            + mat.shape.y && dst_pos.z <= z < dst_pos.z + mat.shape.z && 0 <= k
                            < mat.voxel_size implies self.voxel_byte_at(x, y, z, k)
                        == mat.voxel_byte(x - dst_pos.x, y - dst_pos.y, z - dst_pos.z, k) by {
                        assert(self.voxel_byte_at(x, y, z, k) == staged.voxel_byte(
                            x - dst_pos.x,
                            y - dst_pos.y,
                            z - dst_pos.z,
                            k,
                        ));
                    }
                } else {
                    assert forall|x: int, y: int, z: int, c: int, k: int|
                        #![trigger self.voxel_byte_at(x, y, z, c * mat.voxel_type.spec_size() + k)]
                        dst_pos.x <= x < dst_pos.x + mat.shape.x && dst_pos.y <= y < dst_pos.y
                            + mat.shape.y && dst_pos.z <= z < dst_pos.z + mat.shape.z && 0 <= c
                            < mat.voxel_size as int / isz && 0 <= k < isz implies
                        self.voxel_byte_at(x, y, z, c * isz + k) == mat.channel_plane_byte(
                        x - dst_pos.x,
                        y - dst_pos.y,
                        z - dst_pos.z,
                        c,
                        k,
                    ) by {
                        vstd::arithmetic::div_mod::lemma_fundamental_div_mod(
                            mat.voxel_size as int,
                            isz,
                        );
                        assert(0 <= c * isz + k < mat.voxel_size) by (nonlinear_arith)
                            requires
                                0 <= c && 0 <= k < isz && c + 1 <= mat.voxel_size as int / isz
                                    && mat.voxel_size as int % isz == 0 && isz >= 1 && (
                                mat.voxel_size as int / isz) * isz + mat.voxel_size as int % isz
                                    == mat.voxel_size,
                        ;
                        assert(self.voxel_byte_at(x, y, z, c * isz + k) == staged.voxel_byte(
                            x - dst_pos.x,
                            y - dst_pos.y,
                            z - dst_pos.z,
                            c * isz + k,
                        ));
                        assert(staged.voxel_byte(
                            x - dst_pos.x,
                            y - dst_pos.y,
                            z - dst_pos.z,
                            c * isz + k,
                        ) == mat.channel_plane_byte(
                            x - dst_pos.x,
                            y - dst_pos.y,
                            z - dst_pos.z,
                            c,
                            k,
                        ));
                    }
                }
            }
        }
        r
    }

    /// The column-major write loop behind `write_mat`.
    #[verifier::rlimit(100)]
    fn write_mat_inner(&mut self, dst_pos: Vec3, mat: &Mat) -> (r: Result<usize, WkwError>)
        requires
            old(self).wf(),
            mat.wf(),
            !mat.data_in_c_order,
            mat.voxel_size == old(self).header.voxel_size,
            mat.voxel_type == old(self).header.voxel_type,
            mat.shape.x >= 1 && mat.shape.y >= 1 && mat.shape.z >= 1,
            dst_pos.x + mat.shape.x + old(self).header.spec_file_len_vx() <= 0x100000000,
            dst_pos.y + mat.shape.y + old(self).header.spec_file_len_vx() <= 0x100000000,
            dst_pos.z + mat.shape.z + old(self).header.spec_file_len_vx() <= 0x100000000,
            old(self).header.spec_block_size() <= 0x7fffffff,
            old(self).header.spec_file_size() <= usize::MAX,
            old(self).header.spec_file_vol() <= usize::MAX,
            old(self).header.block_type.is_compressed() ==> dst_pos.x as int % old(
                self,
            ).header.spec_file_len_vx() == 0 && dst_pos.y as int % old(
                self,
            ).header.spec_file_len_vx() == 0 && dst_pos.z as int % old(
                self,
            ).header.spec_file_len_vx() == 0 && mat.shape.x as int % old(
                self,
            ).header.spec_file_len_vx() == 0 && mat.shape.y as int % old(
                self,
            ).header.spec_file_len_vx() == 0 && mat.shape.z as int % old(
                self,
            ).header.spec_file_len_vx() == 0,
        ensures
            final(self).wf(),
            final(self).header == old(self).header,
            !old(self).header.block_type.is_compressed() ==> r is Ok,
            old(self).header.block_type.is_compressed() && old(self).header.spec_block_size()
                <= 0x7e000000 ==> r is Ok,
            r is Ok ==> (forall|x: int, y: int, z: int|
                #![trigger final(self).voxel_known_at(x, y, z)]
                dst_pos.x <= x < dst_pos.x + mat.shape.x && dst_pos.y <= y < dst_pos.y
                    + mat.shape.y && dst_pos.z <= z < dst_pos.z + mat.shape.z ==> final(self).voxel_known_at(x, y, z)),
            r is Ok ==> (forall|x: int, y: int, z: int, k: int|
                #![trigger final(self).voxel_byte_at(x, y, z, k)]
                dst_pos.x <= x < dst_pos.x + mat.shape.x && dst_pos.y <= y < dst_pos.y
                    + mat.shape.y && dst_pos.z <= z < dst_pos.z + mat.shape.z && 0 <= k
                    < mat.voxel_size ==> final(self).voxel_byte_at(x, y, z, k)
                    == mat.voxel_byte(x - dst_pos.x, y - dst_pos.y, z - dst_pos.z, k)),
            final(self).files@.len() >= old(self).files@.len(),
            forall|i: int|
                0 <= i < old(self).files@.len() ==> (#[trigger] final(self).files@[i]).id == old(
                    self,
                ).files@[i].id,
            forall|i: int|
                0 <= i < old(self).files@.len() && !(dst_pos.x as int / old(
                    self,
                ).header.spec_file_len_vx() <= old(self).files@[i].id.x < (dst_pos.x
                    + mat.shape.x - 1) / old(self).header.spec_file_len_vx() + 1 && dst_pos.y
                    as int / old(self).header.spec_file_len_vx() <= old(self).files@[i].id.y < (
                dst_pos.y + mat.shape.y - 1) / old(self).header.spec_file_len_vx() + 1
                    && dst_pos.z as int / old(self).header.spec_file_len_vx() <= old(
                    self,
                ).files@[i].id.z < (dst_pos.z + mat.shape.z - 1) / old(
                    self,
                ).header.spec_file_len_vx() + 1) ==> (#[trigger] final(self).files@[i]) == old(
                    self,
                ).files@[i],
    {
        let ghost dpre = *self;
        proof {
            crate::header::lemma_file_geometry(self.header);
            lemma_file_shift(self.header);
        }
        let fvl = self.header.file_len_vx_log2() as u32;
        let flv = self.header.file_len_vx();
        let bbox = match Box3::new(dst_pos, dst_pos.add(mat.shape)) {
            Ok(b) => b,
            Err(e) => {
                proof {
                    assert(false);
                }
                return Err(e);
            },
        };
        let fmin = dst_pos.shr(fvl);
        let fmax = bbox.max().sub(Vec3::splat(1)).shr(fvl).add(Vec3::splat(1));
        proof {
            vstd::arithmetic::div_mod::lemma_div_is_ordered(
                dst_pos.x as int,
                bbox.max.x - 1,
                flv as int,
            );
            vstd::arithmetic::div_mod::lemma_div_is_ordered(
                dst_pos.y as int,
                bbox.max.y - 1,
                flv as int,
            );
            vstd::arithmetic::div_mod::lemma_div_is_ordered(
                dst_pos.z as int,
                bbox.max.z - 1,
                flv as int,
            );
            assert forall|x: int, y: int, z: int|
                dst_pos.x <= x < bbox.max.x && dst_pos.y <= y < bbox.max.y && dst_pos.z <= z
                    < bbox.max.z implies !file_done(#[trigger] self.file_id_of(x, y, z), fmin) by {
                lemma_voxel_file_range(self.header, dst_pos, bbox.max, fmin, fmax, x, y, z);
            }
        }
        let mut cur_z = fmin.z;
        while cur_z < fmax.z
            invariant
                write_loop_inv(
                    *self,
                    dpre,
                    *mat,
                    dst_pos,
                    bbox,
                    fmin,
                    fmax,
                    fvl,
                    flv,
                    Vec3 { x: fmin.x, y: fmin.y, z: cur_z },
                ),
                dpre == *old(self),
                fmin.z <= cur_z <= fmax.z,
            decreases fmax.z - cur_z,
        {
            let mut cur_y = fmin.y;
            while cur_y < fmax.y
                invariant
                    write_loop_inv(
                        *self,
                        dpre,
                        *mat,
                        dst_pos,
                        bbox,
                        fmin,
                        fmax,
                        fvl,
                        flv,
                        Vec3 { x: fmin.x, y: cur_y, z: cur_z },
                    ),
                    dpre == *old(self),
                    fmin.y <= cur_y <= fmax.y,
                    fmin.z <= cur_z < fmax.z,
                decreases fmax.y - cur_y,
            {
                let mut cur_x = fmin.x;
                while cur_x < fmax.x
                    invariant
                        write_loop_inv(
                            *self,
                            dpre,
                            *mat,
                            dst_pos,
                            bbox,
                            fmin,
                            fmax,
                            fvl,
                            flv,
                            Vec3 { x: cur_x, y: cur_y, z: cur_z },
                        ),
                        dpre == *old(self),
                        fmin.x <= cur_x <= fmax.x,
                        fmin.y <= cur_y < fmax.y,
                        fmin.z <= cur_z < fmax.z,
                    decreases fmax.x - cur_x,
                {
                    let cur_id = Vec3 { x: cur_x, y: cur_y, z: cur_z };
                    let ghost d_entry = *self;
                    proof {
                        lemma_file_box(self.header, cur_id, dst_pos, bbox.max, fmin, fmax);
                    }
                    let fi = match self.find_file(cur_id) {
                        Some(fi) => fi,
                        None => {
                            let fresh = File::create(&self.header);
                            let n = self.files.len();
                            self.files.push(FileEntry { id: cur_id, file: fresh });
                            n
                        },
                    };
                    let fbase = cur_id.shl(fvl);
                    let fpast = cur_id.add(Vec3::splat(1)).shl(fvl);
                    let fbox = match Box3::new(fbase, fpast) {
                        Ok(b) => b,
                        Err(e) => {
                            proof {
                                assert(false);
                            }
                            return Err(e);
                        },
                    };
                    let cur_box = fbox.intersect(bbox);
                    proof {
                        assert(self.files@[fi as int].id == cur_id);
                        assert(self.files@[fi as int].file.wf());
                        assert(self.files@[fi as int].file.header.spec_block_size()
                            == self.header.spec_block_size());
                        assert(self.files@[fi as int].file.header.spec_file_len_vx()
                            == self.header.spec_file_len_vx());
                        assert(self.files@[fi as int].file.header.spec_file_size()
                            == self.header.spec_file_size());
                        assert(cur_box.min.x >= fbase.x && cur_box.min.y >= fbase.y
                            && cur_box.min.z >= fbase.z);
                        assert(cur_box.min.x >= dst_pos.x && cur_box.min.y >= dst_pos.y
                            && cur_box.min.z >= dst_pos.z);
                        assert(cur_box.min.x < fpast.x && cur_box.min.y < fpast.y && cur_box.min.z
                            < fpast.z);
                        assert(cur_box.min.x <= bbox.max.x && cur_box.min.y <= bbox.max.y
                            && cur_box.min.z <= bbox.max.z);
                        assert(fpast.x - fbase.x == flv && fpast.y - fbase.y == flv && fpast.z
                            - fbase.z == flv) by (nonlinear_arith)
                            requires
                                fbase.x == cur_id.x * flv && fpast.x == (cur_id.x + 1) * flv
                                    && fbase.y == cur_id.y * flv && fpast.y == (cur_id.y + 1)
                                    * flv && fbase.z == cur_id.z * flv && fpast.z == (cur_id.z
                                    + 1) * flv,
                        ;
                        if self.header.block_type.is_compressed() {
                            lemma_aligned_covers(
                                self.header,
                                cur_id,
                                dst_pos,
                                mat.shape,
                                bbox.max,
                                fmin,
                                fmax,
                            );
                        }
                    }
                    let cur_dst_pos = cur_box.min().sub(fbase);
                    let cur_src_pos = cur_box.min().sub(dst_pos);
                    let ghost d_mid = *self;
                    let entry = vstd::std_specs::vec::vec_index_mut(&mut self.files, fi);
                    let wr = entry.file.write_mat(cur_dst_pos, mat, cur_src_pos);
                    match wr {
                        Ok(_) => (),
                        Err(e) => {
                            proof {
                                if !self.header.block_type.is_compressed() {
                                    assert(false);
                                }
                                if self.header.block_type.is_compressed()
                                    && self.header.spec_block_size() <= 0x7e000000 {
                                    assert(false);
                                }
                                lemma_write_err_preserves(
                                    *self,
                                    d_mid,
                                    d_entry,
                                    dpre,
                                    *mat,
                                    dst_pos,
                                    bbox,
                                    fmin,
                                    fmax,
                                    fvl,
                                    flv,
                                    cur_id,
                                    fi as int,
                                );
                            }
                            return Err(e);
                        },
                    }
                    proof {
                        let ghost rex = region_end(
                            flv as int,
                            cur_dst_pos.x,
                            mat.shape.x,
                            cur_src_pos.x,
                        );
                        assert(rex == cur_box.max.x - fbase.x);
                        assert(region_end(flv as int, cur_dst_pos.y, mat.shape.y, cur_src_pos.y)
                            == cur_box.max.y - fbase.y);
                        assert(region_end(flv as int, cur_dst_pos.z, mat.shape.z, cur_src_pos.z)
                            == cur_box.max.z - fbase.z);
                        assert forall|x: int, y: int, z: int|
                            0 <= x < 0x100000000 && 0 <= y < 0x100000000 && 0 <= z
                                < 0x100000000 implies (#[trigger] cur_box.contains(
                            Vec3 { x: x as u32, y: y as u32, z: z as u32 },
                        ) <==> (fbase.x <= x < fpast.x && fbase.y <= y < fpast.y && fbase.z <= z
                            < fpast.z && dst_pos.x <= x < bbox.max.x && dst_pos.y <= y
                            < bbox.max.y && dst_pos.z <= z < bbox.max.z)) by {
                            crate::vec3::lemma_intersect_contains(
                                fbox,
                                bbox,
                                Vec3 { x: x as u32, y: y as u32, z: z as u32 },
                            );
                        }
                        lemma_write_step_file(
                            *self,
                            d_mid,
                            d_entry,
                            dpre,
                            *mat,
                            dst_pos,
                            bbox,
                            fmin,
                            fmax,
                            fvl,
                            flv,
                            cur_id,
                            fi as int,
                            fbase,
                            fpast,
                            cur_box,
                        );
                    }
                    cur_x = cur_x + 1;
                }
                proof {
                    lemma_write_inv_roll(
                        *self,
                        dpre,
                        *mat,
                        dst_pos,
                        bbox,
                        fmin,
                        fmax,
                        fvl,
                        flv,
                        Vec3 { x: fmax.x, y: cur_y, z: cur_z },
                        Vec3 { x: fmin.x, y: (cur_y + 1) as u32, z: cur_z },
                    );
                }
                cur_y = cur_y + 1;
            }
            proof {
                lemma_write_inv_roll(
                    *self,
                    dpre,
                    *mat,
                    dst_pos,
                    bbox,
                    fmin,
                    fmax,
                    fvl,
                    flv,
                    Vec3 { x: fmin.x, y: fmax.y, z: cur_z },
                    Vec3 { x: fmin.x, y: fmin.y, z: (cur_z + 1) as u32 },
                );
            }
            cur_z = cur_z + 1;
        }
        proof {
            assert forall|x: int, y: int, z: int|
                dst_pos.x <= x < dst_pos.x + mat.shape.x && dst_pos.y <= y < dst_pos.y
                    + mat.shape.y && dst_pos.z <= z < dst_pos.z + mat.shape.z implies file_done(
                #[trigger] self.file_id_of(x, y, z),
                (Vec3 { x: fmin.x, y: fmin.y, z: fmax.z }),
            ) by {
                lemma_voxel_file_range(self.header, dst_pos, bbox.max, fmin, fmax, x, y, z);
            }
        }
        Ok(1)
    }

}



/// What holds at every boundary of the write scan: the context facts; every
/// voxel of the request box whose file is done holds the source bytes and is
/// known; entries whose coordinates are not yet done (or out of range) are
/// exactly the original entries.
pub open spec fn write_loop_inv(
    d: Dataset,
    dpre: Dataset,
    mat: Mat,
    dst_pos: Vec3,
    bbox: Box3,
    fmin: Vec3,
    fmax: Vec3,
    fvl: u32,
    flv: u32,
    cur: Vec3,
) -> bool {
    &&& d.wf()
    &&& d.header == dpre.header
    &&& dpre.wf()
    &&& mat.wf()
    &&& !mat.data_in_c_order
    &&& mat.voxel_size == d.header.voxel_size
    &&& mat.voxel_type == d.header.voxel_type
    &&& mat.shape.x >= 1 && mat.shape.y >= 1 && mat.shape.z >= 1
    &&& d.header.spec_block_size() <= 0x7fffffff
    &&& d.header.spec_file_size() <= usize::MAX
    &&& d.header.spec_file_vol() <= usize::MAX
    &&& fvl == d.header.block_len_log2 + d.header.file_len_log2
    &&& flv == d.header.spec_file_len_vx()
    &&& flv >= 1
    &&& pow2i(fvl as nat) == flv
    &&& bbox.min == dst_pos
    &&& bbox.max.x == dst_pos.x + mat.shape.x && bbox.max.y == dst_pos.y + mat.shape.y
        && bbox.max.z == dst_pos.z + mat.shape.z
    &&& bbox.wf()
    &&& bbox.max.x + flv <= 0x100000000 && bbox.max.y + flv <= 0x100000000 && bbox.max.z + flv
        <= 0x100000000
    &&& fmin.x == dst_pos.x as int / flv as int
    &&& fmin.y == dst_pos.y as int / flv as int
    &&& fmin.z == dst_pos.z as int / flv as int
    &&& fmax.x == (bbox.max.x - 1) / flv as int + 1
    &&& fmax.y == (bbox.max.y - 1) / flv as int + 1
    &&& fmax.z == (bbox.max.z - 1) / flv as int + 1
    &&& fmin.x < fmax.x && fmin.y < fmax.y && fmin.z < fmax.z
    &&& (d.header.block_type.is_compressed() ==> dst_pos.x as int % flv as int == 0 && dst_pos.y
        as int % flv as int == 0 && dst_pos.z as int % flv as int == 0 && mat.shape.x as int
        % flv as int == 0 && mat.shape.y as int % flv as int == 0 && mat.shape.z as int
        % flv as int == 0)
    &&& (forall|x: int, y: int, z: int|
        #![trigger d.voxel_known_at(x, y, z)]
        dst_pos.x <= x < bbox.max.x && dst_pos.y <= y < bbox.max.y && dst_pos.z <= z < bbox.max.z
            && file_done(d.file_id_of(x, y, z), cur) ==> d.voxel_known_at(x, y, z))
    &&& (forall|x: int, y: int, z: int, k: int|
        #![trigger d.voxel_byte_at(x, y, z, k)]
        dst_pos.x <= x < bbox.max.x && dst_pos.y <= y < bbox.max.y && dst_pos.z <= z < bbox.max.z
            && 0 <= k < mat.voxel_size && file_done(d.file_id_of(x, y, z), cur)
            ==> d.voxel_byte_at(x, y, z, k) == mat.voxel_byte(
            x - dst_pos.x,
            y - dst_pos.y,
            z - dst_pos.z,
            k,
        ))
    &&& d.files@.len() >= dpre.files@.len()
    &&& (forall|i: int|
        0 <= i < dpre.files@.len() ==> (#[trigger] d.files@[i]).id == dpre.files@[i].id)
    &&& (forall|i: int|
        0 <= i < d.files@.len() && !(fmin.all_le((#[trigger] d.files@[i]).id)
            && d.files@[i].id.all_lt(fmax) && file_done(d.files@[i].id, cur)) ==> i
            < dpre.files@.len() && d.files@[i] == dpre.files@[i])
}

/// One mutation step of the write scan seen at the entries: the entry at
/// `fi` carries the coordinates `cur` (found, or freshly created at the
/// end) and every other entry is untouched.
pub open spec fn entry_step(d_entry: Dataset, d_mid: Dataset, cur: Vec3, fi: int) -> bool {
    &&& d_mid.header == d_entry.header
    &&& 0 <= fi < d_mid.files@.len()
    &&& d_mid.files@[fi].id == cur
    &&& (forall|j: int|
        0 <= j < d_mid.files@.len() && j != fi ==> j < d_entry.files@.len()
            && #[trigger] d_mid.files@[j] == d_entry.files@[j])
    &&& (d_mid.files@.len() == d_entry.files@.len() || (d_mid.files@.len()
        == d_entry.files@.len() + 1 && fi == d_entry.files@.len()))
    &&& (fi < d_entry.files@.len() ==> d_entry.files@[fi].id == cur)
    &&& (fi == d_entry.files@.len() ==> (forall|i: int|
        0 <= i < d_entry.files@.len() ==> (#[trigger] d_entry.files@[i]).id != cur))
    &&& d_mid.files@[fi].file.wf()
    &&& d_mid.files@[fi].file.header.version == d_mid.header.version
    &&& d_mid.files@[fi].file.header.block_len_log2 == d_mid.header.block_len_log2
    &&& d_mid.files@[fi].file.header.file_len_log2 == d_mid.header.file_len_log2
    &&& d_mid.files@[fi].file.header.block_type == d_mid.header.block_type
    &&& d_mid.files@[fi].file.header.voxel_type == d_mid.header.voxel_type
    &&& d_mid.files@[fi].file.header.voxel_size == d_mid.header.voxel_size
}

/// A mutation step keeps the dataset well formed and every entry other than
/// the one at `cur` exactly as it was originally.
proof fn lemma_write_mid(
    d_mid: Dataset,
    d_entry: Dataset,
    dpre: Dataset,
    mat: Mat,
    dst_pos: Vec3,
    bbox: Box3,
    fmin: Vec3,
    fmax: Vec3,
    fvl: u32,
    flv: u32,
    cur: Vec3,
    fi: int,
)
    requires
        write_loop_inv(d_entry, dpre, mat, dst_pos, bbox, fmin, fmax, fvl, flv, cur),
        entry_step(d_entry, d_mid, cur, fi),
    ensures
        d_mid.wf(),
        d_mid.files@.len() >= dpre.files@.len(),
        forall|i: int|
            0 <= i < dpre.files@.len() ==> (#[trigger] d_mid.files@[i]).id == dpre.files@[i].id,
        forall|i: int|
            0 <= i < d_mid.files@.len() && !(fmin.all_le((#[trigger] d_mid.files@[i]).id)
                && d_mid.files@[i].id.all_lt(fmax) && file_done(d_mid.files@[i].id, cur)
                || d_mid.files@[i].id == cur) ==> i < dpre.files@.len() && d_mid.files@[i]
                == dpre.files@[i],
{
    assert forall|i: int, j: int|
        0 <= i < j < d_mid.files@.len() implies (#[trigger] d_mid.files@[i]).id != (
    #[trigger] d_mid.files@[j]).id by {
        if j == fi {
            if fi < d_entry.files@.len() {
                assert(d_entry.files@[i].id != d_entry.files@[fi].id);
            } else {
                assert(d_entry.files@[i].id != cur);
            }
        } else if i == fi {
            if fi < d_entry.files@.len() {
                assert(d_entry.files@[fi].id != d_entry.files@[j].id);
            } else {
                assert(false);
            }
        } else {
            assert(d_entry.files@[i].id != d_entry.files@[j].id);
        }
    }
    assert forall|i: int| 0 <= i < d_mid.files@.len() implies (#[trigger] d_mid.files@[i]).file.wf()
        && d_mid.files@[i].file.header.version == d_mid.header.version
        && d_mid.files@[i].file.header.block_len_log2 == d_mid.header.block_len_log2
        && d_mid.files@[i].file.header.file_len_log2 == d_mid.header.file_len_log2
        && d_mid.files@[i].file.header.block_type == d_mid.header.block_type
        && d_mid.files@[i].file.header.voxel_type == d_mid.header.voxel_type
        && d_mid.files@[i].file.header.voxel_size == d_mid.header.voxel_size by {
        if i != fi {
            assert(d_mid.files@[i] == d_entry.files@[i]);
        }
    }
}

/// The write invariant rolls over between equivalent scan boundaries.
proof fn lemma_write_inv_roll(
    d: Dataset,
    dpre: Dataset,
    mat: Mat,
    dst_pos: Vec3,
    bbox: Box3,
    fmin: Vec3,
    fmax: Vec3,
    fvl: u32,
    flv: u32,
    cur_a: Vec3,
    cur_b: Vec3,
)
    requires
        write_loop_inv(d, dpre, mat, dst_pos, bbox, fmin, fmax, fvl, flv, cur_a),
        forall|id: Vec3|
            fmin.all_le(id) && id.all_lt(fmax) ==> (#[trigger] file_done(id, cur_a) <==> file_done(
                id,
                cur_b,
            )),
    ensures
        write_loop_inv(d, dpre, mat, dst_pos, bbox, fmin, fmax, fvl, flv, cur_b),
{
    assert forall|x: int, y: int, z: int|
        #![trigger d.voxel_known_at(x, y, z)]
        dst_pos.x <= x < bbox.max.x && dst_pos.y <= y < bbox.max.y && dst_pos.z <= z < bbox.max.z
            && file_done(d.file_id_of(x, y, z), cur_b) implies d.voxel_known_at(x, y, z) by {
        lemma_voxel_file_range(d.header, dst_pos, bbox.max, fmin, fmax, x, y, z);
        let id = d.file_id_of(x, y, z);
        assert(fmin.all_le(id) && id.all_lt(fmax));
        assert(file_done(id, cur_a) <==> file_done(id, cur_b));
    }
    assert forall|x: int, y: int, z: int, k: int|
        #![trigger d.voxel_byte_at(x, y, z, k)]
        dst_pos.x <= x < bbox.max.x && dst_pos.y <= y < bbox.max.y && dst_pos.z <= z < bbox.max.z
            && 0 <= k < mat.voxel_size && file_done(d.file_id_of(x, y, z), cur_b) implies
        d.voxel_byte_at(x, y, z, k) == mat.voxel_byte(
        x - dst_pos.x,
        y - dst_pos.y,
        z - dst_pos.z,
        k,
    ) by {
        lemma_voxel_file_range(d.header, dst_pos, bbox.max, fmin, fmax, x, y, z);
        let id = d.file_id_of(x, y, z);
        assert(fmin.all_le(id) && id.all_lt(fmax));
        assert(file_done(id, cur_a) <==> file_done(id, cur_b));
    }
    assert forall|i: int|
        0 <= i < d.files@.len() && !(fmin.all_le((#[trigger] d.files@[i]).id)
            && d.files@[i].id.all_lt(fmax) && file_done(d.files@[i].id, cur_b)) implies i
        < dpre.files@.len() && d.files@[i] == dpre.files@[i] by {
        if fmin.all_le(d.files@[i].id) && d.files@[i].id.all_lt(fmax) {
            assert(file_done(d.files@[i].id, cur_a) <==> file_done(d.files@[i].id, cur_b));
        }
    }
}

/// A failed per-file write still leaves every entry outside the done set as
/// it was, the dataset well formed, and the header untouched.
proof fn lemma_write_err_preserves(
    d_after: Dataset,
    d_mid: Dataset,
    d_entry: Dataset,
    dpre: Dataset,
    mat: Mat,
    dst_pos: Vec3,
    bbox: Box3,
    fmin: Vec3,
    fmax: Vec3,
    fvl: u32,
    flv: u32,
    cur: Vec3,
    fi: int,
)
    requires
        write_loop_inv(d_entry, dpre, mat, dst_pos, bbox, fmin, fmax, fvl, flv, cur),
        entry_step(d_entry, d_mid, cur, fi),
        fmin.all_le(cur),
        cur.all_lt(fmax),
        d_after.header == d_mid.header,
        d_after.files@.len() == d_mid.files@.len(),
        forall|j: int|
            0 <= j < d_after.files@.len() && j != fi ==> (#[trigger] d_after.files@[j])
                == d_mid.files@[j],
        d_after.files@[fi] == d_mid.files@[fi],
    ensures
        d_after.wf(),
        d_after.header == dpre.header,
        d_after.files@.len() >= dpre.files@.len(),
        forall|i: int|
            0 <= i < dpre.files@.len() ==> (#[trigger] d_after.files@[i]).id
                == dpre.files@[i].id,
        forall|i: int|
            0 <= i < dpre.files@.len() && !(fmin.all_le(dpre.files@[i].id)
                && dpre.files@[i].id.all_lt(fmax)) ==> (#[trigger] d_after.files@[i])
                == dpre.files@[i],
{
    lemma_write_mid(d_mid, d_entry, dpre, mat, dst_pos, bbox, fmin, fmax, fvl, flv, cur, fi);
    assert(d_after.files@ =~= d_mid.files@);
    assert forall|i: int|
        0 <= i < dpre.files@.len() && !(fmin.all_le(dpre.files@[i].id)
            && dpre.files@[i].id.all_lt(fmax)) implies (#[trigger] d_after.files@[i])
        == dpre.files@[i] by {
        assert(d_mid.files@[i].id == dpre.files@[i].id);
        if i == fi {
            assert(dpre.files@[i].id == cur);
            assert(false);
        } else {
            assert(d_mid.files@[i] == d_entry.files@[i]);
        }
    }
}

/// One step of the write scan: after the per-file write, the voxels of the
/// file at `cur` hold the source bytes, everything else is as before.
#[verifier::rlimit(100)]
proof fn lemma_write_step_file(
    d_after: Dataset,
    d_mid: Dataset,
    d_entry: Dataset,
    dpre: Dataset,
    mat: Mat,
    dst_pos: Vec3,
    bbox: Box3,
    fmin: Vec3,
    fmax: Vec3,
    fvl: u32,
    flv: u32,
    cur: Vec3,
    fi: int,
    fbase: Vec3,
    fpast: Vec3,
    cur_box: Box3,
)
    requires
        write_loop_inv(d_entry, dpre, mat, dst_pos, bbox, fmin, fmax, fvl, flv, cur),
        entry_step(d_entry, d_mid, cur, fi),
        fmin.all_le(cur),
        cur.all_lt(fmax),
        fbase.x == cur.x * flv && fbase.y == cur.y * flv && fbase.z == cur.z * flv,
        fpast.x == fbase.x + flv && fpast.y == fbase.y + flv && fpast.z == fbase.z + flv,
        cur_box.wf(),
        fbase.all_le(cur_box.min),
        dst_pos.all_le(cur_box.min),
        cur_box.min.all_lt(fpast),
        cur_box.max.x <= fpast.x && cur_box.max.y <= fpast.y && cur_box.max.z <= fpast.z,
        cur_box.max.x <= bbox.max.x && cur_box.max.y <= bbox.max.y && cur_box.max.z
            <= bbox.max.z,
        forall|x: int, y: int, z: int|
            0 <= x < 0x100000000 && 0 <= y < 0x100000000 && 0 <= z < 0x100000000
                ==> (#[trigger] cur_box.contains(Vec3 { x: x as u32, y: y as u32, z: z as u32 })
                <==> (fbase.x <= x < fpast.x && fbase.y <= y < fpast.y && fbase.z <= z < fpast.z
                && dst_pos.x <= x < bbox.max.x && dst_pos.y <= y < bbox.max.y && dst_pos.z <= z
                < bbox.max.z)),
        d_after.header == d_mid.header,
        d_after.files@.len() == d_mid.files@.len(),
        forall|j: int|
            0 <= j < d_after.files@.len() && j != fi ==> (#[trigger] d_after.files@[j])
                == d_mid.files@[j],
        d_after.files@[fi].id == cur,
        d_after.files@[fi].file.wf(),
        d_after.files@[fi].file.header.version == d_after.header.version,
        d_after.files@[fi].file.header.block_len_log2 == d_after.header.block_len_log2,
        d_after.files@[fi].file.header.file_len_log2 == d_after.header.file_len_log2,
        d_after.files@[fi].file.header.block_type == d_after.header.block_type,
        d_after.files@[fi].file.header.voxel_type == d_after.header.voxel_type,
        d_after.files@[fi].file.header.voxel_size == d_after.header.voxel_size,
        forall|x: int, y: int, z: int|
            #![trigger d_after.files@[fi].file.voxel_known(x, y, z)]
            cur_box.min.x - fbase.x <= x < cur_box.max.x - fbase.x && cur_box.min.y - fbase.y
                <= y < cur_box.max.y - fbase.y && cur_box.min.z - fbase.z <= z < cur_box.max.z
                - fbase.z ==> d_after.files@[fi].file.voxel_known(x, y, z),
        forall|x: int, y: int, z: int, k: int|
            #![trigger d_after.files@[fi].file.file_voxel_byte(x, y, z, k)]
            cur_box.min.x - fbase.x <= x < cur_box.max.x - fbase.x && cur_box.min.y - fbase.y
                <= y < cur_box.max.y - fbase.y && cur_box.min.z - fbase.z <= z < cur_box.max.z
                - fbase.z && 0 <= k < mat.voxel_size ==> d_after.files@[fi].file.file_voxel_byte(
                x,
                y,
                z,
                k,
            ) == mat.voxel_byte(
                x - (cur_box.min.x - fbase.x) + (cur_box.min.x - dst_pos.x),
                y - (cur_box.min.y - fbase.y) + (cur_box.min.y - dst_pos.y),
                z - (cur_box.min.z - fbase.z) + (cur_box.min.z - dst_pos.z),
                k,
            ),
    ensures
        write_loop_inv(
            d_after,
            dpre,
            mat,
            dst_pos,
            bbox,
            fmin,
            fmax,
            fvl,
            flv,
            Vec3 { x: (cur.x + 1) as u32, y: cur.y, z: cur.z },
        ),
{
    let nxt = Vec3 { x: (cur.x + 1) as u32, y: cur.y, z: cur.z };
    let f = flv as int;
    lemma_write_mid(d_mid, d_entry, dpre, mat, dst_pos, bbox, fmin, fmax, fvl, flv, cur, fi);
    assert forall|i: int, j: int|
        0 <= i < j < d_after.files@.len() implies (#[trigger] d_after.files@[i]).id != (
    #[trigger] d_after.files@[j]).id by {
        assert(d_after.files@[i].id == d_mid.files@[i].id);
        assert(d_after.files@[j].id == d_mid.files@[j].id);
        assert(d_mid.files@[i].id != d_mid.files@[j].id);
    }
    assert forall|i: int|
        0 <= i < d_after.files@.len() implies (#[trigger] d_after.files@[i]).file.wf()
        && d_after.files@[i].file.header.version == d_after.header.version
        && d_after.files@[i].file.header.block_len_log2 == d_after.header.block_len_log2
        && d_after.files@[i].file.header.file_len_log2 == d_after.header.file_len_log2
        && d_after.files@[i].file.header.block_type == d_after.header.block_type
        && d_after.files@[i].file.header.voxel_type == d_after.header.voxel_type
        && d_after.files@[i].file.header.voxel_size == d_after.header.voxel_size by {
        if i != fi {
            assert(d_after.files@[i] == d_mid.files@[i]);
        }
    }
    assert(d_after.wf());
    assert forall|x: int, y: int, z: int|
        #![trigger d_after.voxel_known_at(x, y, z)]
        dst_pos.x <= x < bbox.max.x && dst_pos.y <= y < bbox.max.y && dst_pos.z <= z < bbox.max.z
            && file_done(d_after.file_id_of(x, y, z), nxt) implies d_after.voxel_known_at(
        x,
        y,
        z,
    ) by {
        lemma_write_voxel_step(
            d_after,
            d_mid,
            d_entry,
            dpre,
            mat,
            dst_pos,
            bbox,
            fmin,
            fmax,
            fvl,
            flv,
            cur,
            fi,
            fbase,
            fpast,
            cur_box,
            x,
            y,
            z,
            0,
        );
    }
    assert forall|x: int, y: int, z: int, k: int|
        #![trigger d_after.voxel_byte_at(x, y, z, k)]
        dst_pos.x <= x < bbox.max.x && dst_pos.y <= y < bbox.max.y && dst_pos.z <= z < bbox.max.z
            && 0 <= k < mat.voxel_size && file_done(d_after.file_id_of(x, y, z), nxt) implies
        d_after.voxel_byte_at(x, y, z, k) == mat.voxel_byte(
        x - dst_pos.x,
        y - dst_pos.y,
        z - dst_pos.z,
        k,
    ) by {
        lemma_write_voxel_step(
            d_after,
            d_mid,
            d_entry,
            dpre,
            mat,
            dst_pos,
            bbox,
            fmin,
            fmax,
            fvl,
            flv,
            cur,
            fi,
            fbase,
            fpast,
            cur_box,
            x,
            y,
            z,
            k,
        );
    }
    assert forall|i: int|
        0 <= i < d_after.files@.len() && !(fmin.all_le((#[trigger] d_after.files@[i]).id)
            && d_after.files@[i].id.all_lt(fmax) && file_done(d_after.files@[i].id, nxt)) implies
        i < dpre.files@.len() && d_after.files@[i] == dpre.files@[i] by {
        assert(d_after.files@[i].id != cur) by {
            if d_after.files@[i].id == cur {
                if i != fi {
                    assert(d_after.files@[i].id != d_after.files@[fi].id);
                }
            }
        }
        assert(d_after.files@[i] == d_mid.files@[i]);
        if fi < d_entry.files@.len() || i != fi {
            assert(d_mid.files@[i] == d_entry.files@[i]);
        }
        assert(!(fmin.all_le(d_entry.files@[i].id) && d_entry.files@[i].id.all_lt(fmax)
            && file_done(d_entry.files@[i].id, cur)));
    }
}

/// The voxel view after one write step: voxels of the file at `cur` come
/// from the source, all other done voxels keep their already-written bytes.
#[verifier::rlimit(100)]
proof fn lemma_write_voxel_step(
    d_after: Dataset,
    d_mid: Dataset,
    d_entry: Dataset,
    dpre: Dataset,
    mat: Mat,
    dst_pos: Vec3,
    bbox: Box3,
    fmin: Vec3,
    fmax: Vec3,
    fvl: u32,
    flv: u32,
    cur: Vec3,
    fi: int,
    fbase: Vec3,
    fpast: Vec3,
    cur_box: Box3,
    x: int,
    y: int,
    z: int,
    k: int,
)
    requires
        write_loop_inv(d_entry, dpre, mat, dst_pos, bbox, fmin, fmax, fvl, flv, cur),
        entry_step(d_entry, d_mid, cur, fi),
        fmin.all_le(cur),
        cur.all_lt(fmax),
        fbase.x == cur.x * flv && fbase.y == cur.y * flv && fbase.z == cur.z * flv,
        fpast.x == fbase.x + flv && fpast.y == fbase.y + flv && fpast.z == fbase.z + flv,
        cur_box.wf(),
        fbase.all_le(cur_box.min),
        dst_pos.all_le(cur_box.min),
        cur_box.min.all_lt(fpast),
        cur_box.max.x <= fpast.x && cur_box.max.y <= fpast.y && cur_box.max.z <= fpast.z,
        cur_box.max.x <= bbox.max.x && cur_box.max.y <= bbox.max.y && cur_box.max.z
            <= bbox.max.z,
        forall|a: int, b: int, c: int|
            0 <= a < 0x100000000 && 0 <= b < 0x100000000 && 0 <= c < 0x100000000
                ==> (#[trigger] cur_box.contains(Vec3 { x: a as u32, y: b as u32, z: c as u32 })
                <==> (fbase.x <= a < fpast.x && fbase.y <= b < fpast.y && fbase.z <= c < fpast.z
                && dst_pos.x <= a < bbox.max.x && dst_pos.y <= b < bbox.max.y && dst_pos.z <= c
                < bbox.max.z)),
        d_after.header == d_mid.header,
        d_after.files@.len() == d_mid.files@.len(),
        forall|j: int|
            0 <= j < d_after.files@.len() && j != fi ==> (#[trigger] d_after.files@[j])
                == d_mid.files@[j],
        d_after.files@[fi].id == cur,
        d_after.wf(),
        forall|a: int, b: int, c: int|
            #![trigger d_after.files@[fi].file.voxel_known(a, b, c)]
            cur_box.min.x - fbase.x <= a < cur_box.max.x - fbase.x && cur_box.min.y - fbase.y
                <= b < cur_box.max.y - fbase.y && cur_box.min.z - fbase.z <= c < cur_box.max.z
                - fbase.z ==> d_after.files@[fi].file.voxel_known(a, b, c),
        forall|a: int, b: int, c: int, kk: int|
            #![trigger d_after.files@[fi].file.file_voxel_byte(a, b, c, kk)]
            cur_box.min.x - fbase.x <= a < cur_box.max.x - fbase.x && cur_box.min.y - fbase.y
                <= b < cur_box.max.y - fbase.y && cur_box.min.z - fbase.z <= c < cur_box.max.z
                - fbase.z && 0 <= kk < mat.voxel_size
                ==> d_after.files@[fi].file.file_voxel_byte(a, b, c, kk) == mat.voxel_byte(
                a - (cur_box.min.x - fbase.x) + (cur_box.min.x - dst_pos.x),
                b - (cur_box.min.y - fbase.y) + (cur_box.min.y - dst_pos.y),
                c - (cur_box.min.z - fbase.z) + (cur_box.min.z - dst_pos.z),
                kk,
            ),
        dst_pos.x <= x < bbox.max.x,
        dst_pos.y <= y < bbox.max.y,
        dst_pos.z <= z < bbox.max.z,
        0 <= k < mat.voxel_size,
        file_done(
            d_after.file_id_of(x, y, z),
            Vec3 { x: (cur.x + 1) as u32, y: cur.y, z: cur.z },
        ),
    ensures
        d_after.voxel_known_at(x, y, z),
        d_after.voxel_byte_at(x, y, z, k) == mat.voxel_byte(
            x - dst_pos.x,
            y - dst_pos.y,
            z - dst_pos.z,
            k,
        ),
{
    let f = flv as int;
    lemma_voxel_file_range(d_after.header, dst_pos, bbox.max, fmin, fmax, x, y, z);
    let id = d_after.file_id_of(x, y, z);
    assert((cur.x + 1) * f == cur.x * f + f && (cur.y + 1) * f == cur.y * f + f && (cur.z + 1)
        * f == cur.z * f + f) by (nonlinear_arith);
    if id == cur {
        lemma_entry_at(d_after, fi, x, y, z);
        lemma_block_of(f, x, cur.x as int);
        lemma_block_of(f, y, cur.y as int);
        lemma_block_of(f, z, cur.z as int);
        assert(cur_box.contains(Vec3 { x: x as u32, y: y as u32, z: z as u32 }));
        let lx = x - fbase.x;
        let ly = y - fbase.y;
        let lz = z - fbase.z;
        assert(x % f == lx && y % f == ly && z % f == lz);
        assert(d_after.files@[fi].file.voxel_known(lx, ly, lz));
        assert(d_after.files@[fi].file.file_voxel_byte(lx, ly, lz, k) == mat.voxel_byte(
            lx - (cur_box.min.x - fbase.x) + (cur_box.min.x - dst_pos.x),
            ly - (cur_box.min.y - fbase.y) + (cur_box.min.y - dst_pos.y),
            lz - (cur_box.min.z - fbase.z) + (cur_box.min.z - dst_pos.z),
            k,
        ));
        assert(lx - (cur_box.min.x - fbase.x) + (cur_box.min.x - dst_pos.x) == x - dst_pos.x);
    } else {
        assert(file_done(id, cur));
        assert(d_entry.voxel_known_at(x, y, z));
        assert(d_entry.voxel_byte_at(x, y, z, k) == mat.voxel_byte(
            x - dst_pos.x,
            y - dst_pos.y,
            z - dst_pos.z,
            k,
        ));
        let j = d_entry.entry_at(x, y, z);
        assert(d_entry.files@[j].id == id);
        assert(j != fi || d_mid.files@.len() == d_entry.files@.len()) by {
            if j == fi && fi == d_entry.files@.len() {
                assert(false);
            }
        }
        assert(d_after.files@[j].id == id && d_after.files@[j].file == d_entry.files@[j].file)
            by {
            if j == fi {
                assert(d_entry.files@[fi].id == cur);
                assert(false);
            } else {
                assert(d_mid.files@[j] == d_entry.files@[j]);
                assert(d_after.files@[j] == d_mid.files@[j]);
            }
        }
        lemma_entry_at(d_after, j, x, y, z);
    }
}


/// Read-after-write at the dataset level: when a write has placed a matrix
/// at `pos` (every region voxel known and holding the matrix's bytes), and
/// a read of the same region has filled a second matrix of the same shape,
/// the second matrix holds the first one's buffer, byte for byte.
pub proof fn lemma_dataset_read_after_write(d: Dataset, m: Mat, m2: Mat, pos: Vec3)
    requires
        m.wf(),
        m2.wf(),
        !m.data_in_c_order,
        !m2.data_in_c_order,
        m2.shape == m.shape,
        m2.voxel_size == m.voxel_size,
        pos.x + m.shape.x <= 0x100000000,
        pos.y + m.shape.y <= 0x100000000,
        pos.z + m.shape.z <= 0x100000000,
        forall|x: int, y: int, z: int|
            pos.x <= x < pos.x + m.shape.x && pos.y <= y < pos.y + m.shape.y && pos.z <= z
                < pos.z + m.shape.z ==> #[trigger] d.voxel_known_at(x, y, z),
        forall|x: int, y: int, z: int, k: int|
            #![trigger d.voxel_byte_at(x, y, z, k)]
            pos.x <= x < pos.x + m.shape.x && pos.y <= y < pos.y + m.shape.y && pos.z <= z
                < pos.z + m.shape.z && 0 <= k < m.voxel_size ==> d.voxel_byte_at(x, y, z, k)
                == m.voxel_byte(x - pos.x, y - pos.y, z - pos.z, k),
        forall|x: int, y: int, z: int, k: int|
            #![trigger m2.voxel_byte(x - pos.x, y - pos.y, z - pos.z, k)]
            pos.x <= x < pos.x + m.shape.x && pos.y <= y < pos.y + m.shape.y && pos.z <= z
                < pos.z + m.shape.z && 0 <= k < m.voxel_size && d.voxel_known_at(x, y, z)
                ==> m2.voxel_byte(x - pos.x, y - pos.y, z - pos.z, k) == d.voxel_byte_at(
                x,
                y,
                z,
                k,
            ),
    ensures
        m2.data@ == m.data@,
{
    let vs = m.voxel_size as int;
    let sx = m.shape.x as int;
    let sy = m.shape.y as int;
    let sz = m.shape.z as int;
    if vs == 0 || m.numel() == 0 {
        assert(m.numel() * vs == 0) by (nonlinear_arith)
            requires
                vs == 0 || m.numel() == 0,
        ;
        assert(m2.data@ =~= m.data@);
    } else {
        assert(sx >= 1 && sy >= 1 && sz >= 1) by (nonlinear_arith)
            requires
                sx * sy * sz != 0 && sx >= 0 && sy >= 0 && sz >= 0,
        ;
        assert forall|j: int| 0 <= j < m.data@.len() implies m2.data@[j] == m.data@[j] by {
            let q = j / vs;
            let k = j % vs;
            vstd::arithmetic::div_mod::lemma_fundamental_div_mod(j, vs);
            vstd::arithmetic::div_mod::lemma_mod_bound(j, vs);
            assert(0 <= q < sx * sy * sz) by (nonlinear_arith)
                requires
                    0 <= j < sx * sy * sz * vs && j == vs * q + k && 0 <= k < vs && vs >= 1,
            ;
            crate::mat::lemma_flin_surj(sx, sy, sz, q);
            let (a, b, c) = choose|a: int, b: int, c: int|
                0 <= a < sx && 0 <= b < sy && 0 <= c < sz && crate::mat::flin(sx, sy, a, b, c)
                    == q;
            assert(q * vs + k == j) by (nonlinear_arith)
                requires
                    j == vs * q + k,
            ;
            assert(d.voxel_known_at(pos.x + a, pos.y + b, pos.z + c));
            assert(m2.voxel_byte(
                (pos.x + a) - pos.x,
                (pos.y + b) - pos.y,
                (pos.z + c) - pos.z,
                k,
            ) == d.voxel_byte_at(pos.x + a, pos.y + b, pos.z + c, k));
            assert(d.voxel_byte_at(pos.x + a, pos.y + b, pos.z + c, k) == m.voxel_byte(
                (pos.x + a) - pos.x,
                (pos.y + b) - pos.y,
                (pos.z + c) - pos.z,
                k,
            ));
            assert((pos.x + a) - pos.x == a && (pos.y + b) - pos.y == b && (pos.z + c) - pos.z
                == c);
            assert(m.voxel_byte(a, b, c, k) == m.data@[j]);
            assert(m2.voxel_byte(a, b, c, k) == m2.data@[j]);
        }
        assert(m2.data@ =~= m.data@);
    }
}

/// File coordinates already processed when the scan stands at `cur`: all of
/// the earlier planes, the earlier rows of the current plane, and the
/// earlier positions of the current row.
pub open spec fn file_done(id: Vec3, cur: Vec3) -> bool {
    id.z < cur.z || (id.z == cur.z && (id.y < cur.y || (id.y == cur.y && id.x < cur.x)))
}

/// What holds at every boundary of the read scan: the context facts, and
/// for every voxel of the request box — copied if its file is done and its
/// content known, equal to the caller's bytes if its file is done but
/// absent, and untouched if its file is not yet done.
pub open spec fn read_loop_inv(
    d: Dataset,
    mat: Mat,
    pre: Mat,
    src_pos: Vec3,
    bbox: Box3,
    fmin: Vec3,
    fmax: Vec3,
    fvl: u32,
    flv: u32,
    cur: Vec3,
) -> bool {
    &&& d.wf()
    &&& mat.wf()
    &&& crate::mat::same_view(mat, pre)
    &&& mat.shape == pre.shape && mat.voxel_size == pre.voxel_size && mat.voxel_type
        == pre.voxel_type && mat.data_in_c_order == pre.data_in_c_order
    &&& !pre.data_in_c_order
    &&& pre.voxel_size == d.header.voxel_size
    &&& pre.voxel_type == d.header.voxel_type
    &&& pre.shape.x >= 1 && pre.shape.y >= 1 && pre.shape.z >= 1
    &&& d.header.spec_block_size() <= 0x7fffffff
    &&& fvl == d.header.block_len_log2 + d.header.file_len_log2
    &&& flv == d.header.spec_file_len_vx()
    &&& flv >= 1
    &&& pow2i(fvl as nat) == flv
    &&& bbox.min == src_pos
    &&& bbox.max.x == src_pos.x + pre.shape.x && bbox.max.y == src_pos.y + pre.shape.y
        && bbox.max.z == src_pos.z + pre.shape.z
    &&& bbox.wf()
    &&& bbox.max.x + flv <= 0x100000000 && bbox.max.y + flv <= 0x100000000 && bbox.max.z + flv
        <= 0x100000000
    &&& fmin.x == src_pos.x as int / flv as int
    &&& fmin.y == src_pos.y as int / flv as int
    &&& fmin.z == src_pos.z as int / flv as int
    &&& fmax.x == (bbox.max.x - 1) / flv as int + 1
    &&& fmax.y == (bbox.max.y - 1) / flv as int + 1
    &&& fmax.z == (bbox.max.z - 1) / flv as int + 1
    &&& fmin.x < fmax.x && fmin.y < fmax.y && fmin.z < fmax.z
    &&& forall|x: int, y: int, z: int, k: int|
        #![trigger mat.voxel_byte(x - src_pos.x, y - src_pos.y, z - src_pos.z, k)]
        src_pos.x <= x < bbox.max.x && src_pos.y <= y < bbox.max.y && src_pos.z <= z < bbox.max.z
            && 0 <= k < pre.voxel_size ==> ((file_done(d.file_id_of(x, y, z), cur)
            && d.voxel_known_at(x, y, z) ==> mat.voxel_byte(
            x - src_pos.x,
            y - src_pos.y,
            z - src_pos.z,
            k,
        ) == d.voxel_byte_at(x, y, z, k)) && (file_done(d.file_id_of(x, y, z), cur)
            && !d.has_file_at(x, y, z) ==> mat.voxel_byte(
            x - src_pos.x,
            y - src_pos.y,
            z - src_pos.z,
            k,
        ) == pre.voxel_byte(x - src_pos.x, y - src_pos.y, z - src_pos.z, k)) && (!file_done(
            d.file_id_of(x, y, z),
            cur,
        ) ==> mat.voxel_byte(x - src_pos.x, y - src_pos.y, z - src_pos.z, k) == pre.voxel_byte(
            x - src_pos.x,
            y - src_pos.y,
            z - src_pos.z,
            k,
        )))
}

/// A voxel of the request box lands in a file of the scanned coordinate
/// range, and its in-file coordinates are its remainders.
proof fn lemma_voxel_file_range(
    h: Header,
    base: Vec3,
    past: Vec3,
    fmin: Vec3,
    fmax: Vec3,
    x: int,
    y: int,
    z: int,
)
    requires
        h.wf(),
        base.all_lt(past),
        fmin.x == base.x as int / h.spec_file_len_vx(),
        fmin.y == base.y as int / h.spec_file_len_vx(),
        fmin.z == base.z as int / h.spec_file_len_vx(),
        fmax.x == (past.x - 1) / h.spec_file_len_vx() + 1,
        fmax.y == (past.y - 1) / h.spec_file_len_vx() + 1,
        fmax.z == (past.z - 1) / h.spec_file_len_vx() + 1,
        base.x <= x < past.x,
        base.y <= y < past.y,
        base.z <= z < past.z,
        past.x <= u32::MAX && past.y <= u32::MAX && past.z <= u32::MAX,
    ensures
        fmin.x <= x / h.spec_file_len_vx() < fmax.x,
        fmin.y <= y / h.spec_file_len_vx() < fmax.y,
        fmin.z <= z / h.spec_file_len_vx() < fmax.z,
        0 <= x / h.spec_file_len_vx() <= u32::MAX,
        0 <= y / h.spec_file_len_vx() <= u32::MAX,
        0 <= z / h.spec_file_len_vx() <= u32::MAX,
        x % h.spec_file_len_vx() == x - (x / h.spec_file_len_vx()) * h.spec_file_len_vx(),
        y % h.spec_file_len_vx() == y - (y / h.spec_file_len_vx()) * h.spec_file_len_vx(),
        z % h.spec_file_len_vx() == z - (z / h.spec_file_len_vx()) * h.spec_file_len_vx(),
        0 <= x % h.spec_file_len_vx() < h.spec_file_len_vx(),
        0 <= y % h.spec_file_len_vx() < h.spec_file_len_vx(),
        0 <= z % h.spec_file_len_vx() < h.spec_file_len_vx(),
{
    lemma_file_shift(h);
    let f = h.spec_file_len_vx();
    vstd::arithmetic::div_mod::lemma_div_is_ordered(base.x as int, x, f);
    vstd::arithmetic::div_mod::lemma_div_is_ordered(base.y as int, y, f);
    vstd::arithmetic::div_mod::lemma_div_is_ordered(base.z as int, z, f);
    vstd::arithmetic::div_mod::lemma_div_is_ordered(x, past.x - 1, f);
    vstd::arithmetic::div_mod::lemma_div_is_ordered(y, past.y - 1, f);
    vstd::arithmetic::div_mod::lemma_div_is_ordered(z, past.z - 1, f);
    vstd::arithmetic::div_mod::lemma_fundamental_div_mod(x, f);
    vstd::arithmetic::div_mod::lemma_fundamental_div_mod(y, f);
    vstd::arithmetic::div_mod::lemma_fundamental_div_mod(z, f);
    vstd::arithmetic::div_mod::lemma_mod_bound(x, f);
    vstd::arithmetic::div_mod::lemma_mod_bound(y, f);
    vstd::arithmetic::div_mod::lemma_mod_bound(z, f);
    assert(x % f == x - (x / f) * f && y % f == y - (y / f) * f && z % f == z - (z / f) * f)
        by (nonlinear_arith)
        requires
            x == f * (x / f) + x % f && y == f * (y / f) + y % f && z == f * (z / f) + z % f,
    ;
    vstd::arithmetic::div_mod::lemma_div_is_ordered(0, x, f);
    vstd::arithmetic::div_mod::lemma_div_is_ordered(0, y, f);
    vstd::arithmetic::div_mod::lemma_div_is_ordered(0, z, f);
    vstd::arithmetic::div_mod::lemma_div_is_ordered(x, u32::MAX as int, f);
    vstd::arithmetic::div_mod::lemma_div_is_ordered(y, u32::MAX as int, f);
    vstd::arithmetic::div_mod::lemma_div_is_ordered(z, u32::MAX as int, f);
    vstd::arithmetic::div_mod::lemma_div_is_ordered(0, 0, f);
    assert(u32::MAX as int / f <= u32::MAX) by (nonlinear_arith)
        requires
            f >= 1,
    ;
}

/// The invariant rolls over from one scan boundary to an equivalent one:
/// the two cursors settle the same set of in-range file coordinates.
proof fn lemma_read_inv_roll(
    d: Dataset,
    mat: Mat,
    pre: Mat,
    src_pos: Vec3,
    bbox: Box3,
    fmin: Vec3,
    fmax: Vec3,
    fvl: u32,
    flv: u32,
    cur_a: Vec3,
    cur_b: Vec3,
)
    requires
        read_loop_inv(d, mat, pre, src_pos, bbox, fmin, fmax, fvl, flv, cur_a),
        forall|id: Vec3|
            fmin.all_le(id) && id.all_lt(fmax) ==> (#[trigger] file_done(id, cur_a) <==> file_done(
                id,
                cur_b,
            )),
    ensures
        read_loop_inv(d, mat, pre, src_pos, bbox, fmin, fmax, fvl, flv, cur_b),
{
    assert forall|x: int, y: int, z: int, k: int|
        #![trigger mat.voxel_byte(x - src_pos.x, y - src_pos.y, z - src_pos.z, k)]
        src_pos.x <= x < bbox.max.x && src_pos.y <= y < bbox.max.y && src_pos.z <= z < bbox.max.z
            && 0 <= k < pre.voxel_size implies ((file_done(d.file_id_of(x, y, z), cur_b)
            && d.voxel_known_at(x, y, z) ==> mat.voxel_byte(
        x - src_pos.x,
        y - src_pos.y,
        z - src_pos.z,
        k,
    ) == d.voxel_byte_at(x, y, z, k)) && (file_done(d.file_id_of(x, y, z), cur_b)
            && !d.has_file_at(x, y, z) ==> mat.voxel_byte(
        x - src_pos.x,
        y - src_pos.y,
        z - src_pos.z,
        k,
    ) == pre.voxel_byte(x - src_pos.x, y - src_pos.y, z - src_pos.z, k)) && (!file_done(
        d.file_id_of(x, y, z),
        cur_b,
    ) ==> mat.voxel_byte(x - src_pos.x, y - src_pos.y, z - src_pos.z, k) == pre.voxel_byte(
        x - src_pos.x,
        y - src_pos.y,
        z - src_pos.z,
        k,
    ))) by {
        lemma_voxel_file_range(d.header, src_pos, bbox.max, fmin, fmax, x, y, z);
        let id = d.file_id_of(x, y, z);
        assert(fmin.all_le(id) && id.all_lt(fmax));
        assert(file_done(id, cur_a) <==> file_done(id, cur_b));
    }
}


/// One absent step of the read scan: the file at `cur` does not exist, so
/// its voxels keep the caller's bytes and the scan moves on.
proof fn lemma_read_step_absent(
    d: Dataset,
    mat: Mat,
    pre: Mat,
    src_pos: Vec3,
    bbox: Box3,
    fmin: Vec3,
    fmax: Vec3,
    fvl: u32,
    flv: u32,
    cur: Vec3,
)
    requires
        read_loop_inv(d, mat, pre, src_pos, bbox, fmin, fmax, fvl, flv, cur),
        fmin.all_le(cur),
        cur.all_lt(fmax),
        forall|i: int| 0 <= i < d.files@.len() ==> (#[trigger] d.files@[i]).id != cur,
    ensures
        read_loop_inv(
            d,
            mat,
            pre,
            src_pos,
            bbox,
            fmin,
            fmax,
            fvl,
            flv,
            Vec3 { x: (cur.x + 1) as u32, y: cur.y, z: cur.z },
        ),
{
    let nxt = Vec3 { x: (cur.x + 1) as u32, y: cur.y, z: cur.z };
    assert forall|x: int, y: int, z: int, k: int|
        #![trigger mat.voxel_byte(x - src_pos.x, y - src_pos.y, z - src_pos.z, k)]
        src_pos.x <= x < bbox.max.x && src_pos.y <= y < bbox.max.y && src_pos.z <= z < bbox.max.z
            && 0 <= k < pre.voxel_size implies ((file_done(d.file_id_of(x, y, z), nxt)
            && d.voxel_known_at(x, y, z) ==> mat.voxel_byte(
        x - src_pos.x,
        y - src_pos.y,
        z - src_pos.z,
        k,
    ) == d.voxel_byte_at(x, y, z, k)) && (file_done(d.file_id_of(x, y, z), nxt)
            && !d.has_file_at(x, y, z) ==> mat.voxel_byte(
        x - src_pos.x,
        y - src_pos.y,
        z - src_pos.z,
        k,
    ) == pre.voxel_byte(x - src_pos.x, y - src_pos.y, z - src_pos.z, k)) && (!file_done(
        d.file_id_of(x, y, z),
        nxt,
    ) ==> mat.voxel_byte(x - src_pos.x, y - src_pos.y, z - src_pos.z, k) == pre.voxel_byte(
        x - src_pos.x,
        y - src_pos.y,
        z - src_pos.z,
        k,
    ))) by {
        lemma_voxel_file_range(d.header, src_pos, bbox.max, fmin, fmax, x, y, z);
        let id = d.file_id_of(x, y, z);
        if !file_done(id, cur) && file_done(id, nxt) {
            assert(id == cur);
            assert(!d.has_file_at(x, y, z));
        }
    }
}

/// A failed per-file read exposes a voxel whose file is present but whose
/// block content is unknown, refuting the all-known premise.
proof fn lemma_read_step_err(
    d: Dataset,
    pre: Mat,
    src_pos: Vec3,
    bbox: Box3,
    flv: u32,
    cur: Vec3,
    fi: int,
    fbase: Vec3,
    vx: int,
    vy: int,
    vz: int,
)
    requires
        d.wf(),
        flv == d.header.spec_file_len_vx(),
        flv >= 1,
        0 <= fi < d.files@.len(),
        d.files@[fi].id == cur,
        fbase.x == cur.x * flv && fbase.y == cur.y * flv && fbase.z == cur.z * flv,
        src_pos.x <= vx < bbox.max.x,
        src_pos.y <= vy < bbox.max.y,
        src_pos.z <= vz < bbox.max.z,
        bbox.min == src_pos,
        fbase.x <= vx < fbase.x + flv,
        fbase.y <= vy < fbase.y + flv,
        fbase.z <= vz < fbase.z + flv,
        !d.files@[fi].file.voxel_known(vx - fbase.x, vy - fbase.y, vz - fbase.z),
    ensures
        !(forall|x: int, y: int, z: int|
            src_pos.x <= x < bbox.max.x && src_pos.y <= y < bbox.max.y && src_pos.z <= z
                < bbox.max.z && #[trigger] d.has_file_at(x, y, z) ==> d.voxel_known_at(x, y, z)),
{
    lemma_file_shift(d.header);
    let f = flv as int;
    assert((cur.x + 1) * f == cur.x * f + f && (cur.y + 1) * f == cur.y * f + f && (cur.z + 1)
        * f == cur.z * f + f) by (nonlinear_arith);
    lemma_block_of(f, vx, cur.x as int);
    lemma_block_of(f, vy, cur.y as int);
    lemma_block_of(f, vz, cur.z as int);
    lemma_block_coords(f, vx);
    lemma_block_coords(f, vy);
    lemma_block_coords(f, vz);
    assert(d.file_id_of(vx, vy, vz) == cur);
    lemma_entry_at(d, fi, vx, vy, vz);
    assert(d.has_file_at(vx, vy, vz));
    assert(vx % f == vx - fbase.x && vy % f == vy - fbase.y && vz % f == vz - fbase.z);
    assert(!d.voxel_known_at(vx, vy, vz));
}

/// One present step of the read scan: after the per-file read, the voxels
/// of the file at `cur` with known content hold their file bytes, and all
/// other voxels of the matrix are as they were.
#[verifier::rlimit(100)]
proof fn lemma_read_step_present(
    d: Dataset,
    mat: Mat,
    mat_before: Mat,
    pre: Mat,
    src_pos: Vec3,
    bbox: Box3,
    fmin: Vec3,
    fmax: Vec3,
    fvl: u32,
    flv: u32,
    cur: Vec3,
    fi: int,
    fbase: Vec3,
    fpast: Vec3,
    cur_box: Box3,
)
    requires
        read_loop_inv(d, mat_before, pre, src_pos, bbox, fmin, fmax, fvl, flv, cur),
        fmin.all_le(cur),
        cur.all_lt(fmax),
        0 <= fi < d.files@.len(),
        d.files@[fi].id == cur,
        fbase.x == cur.x * flv && fbase.y == cur.y * flv && fbase.z == cur.z * flv,
        fpast.x == fbase.x + flv && fpast.y == fbase.y + flv && fpast.z == fbase.z + flv,
        cur_box.wf(),
        fbase.all_le(cur_box.min),
        src_pos.all_le(cur_box.min),
        cur_box.min.all_lt(fpast),
        cur_box.max.x <= fpast.x && cur_box.max.y <= fpast.y && cur_box.max.z <= fpast.z,
        cur_box.max.x <= bbox.max.x && cur_box.max.y <= bbox.max.y && cur_box.max.z
            <= bbox.max.z,
        forall|x: int, y: int, z: int|
            0 <= x < 0x100000000 && 0 <= y < 0x100000000 && 0 <= z < 0x100000000
                ==> (#[trigger] cur_box.contains(Vec3 { x: x as u32, y: y as u32, z: z as u32 })
                <==> (fbase.x <= x < fpast.x && fbase.y <= y < fpast.y && fbase.z <= z < fpast.z
                && src_pos.x <= x < bbox.max.x && src_pos.y <= y < bbox.max.y && src_pos.z <= z
                < bbox.max.z)),
        mat.wf(),
        crate::mat::same_view(mat, mat_before),
        mat.shape == mat_before.shape && mat.voxel_size == mat_before.voxel_size
            && mat.voxel_type == mat_before.voxel_type && mat.data_in_c_order
            == mat_before.data_in_c_order,
        forall|x: int, y: int, z: int, k: int|
            #![trigger mat.voxel_byte(x - (cur_box.min.x - fbase.x) + (cur_box.min.x - src_pos.x), y - (cur_box.min.y - fbase.y) + (cur_box.min.y - src_pos.y), z - (cur_box.min.z - fbase.z) + (cur_box.min.z - src_pos.z), k)]
            cur_box.min.x - fbase.x <= x < cur_box.max.x - fbase.x && cur_box.min.y - fbase.y
                <= y < cur_box.max.y - fbase.y && cur_box.min.z - fbase.z <= z < cur_box.max.z
                - fbase.z && 0 <= k < pre.voxel_size && d.files@[fi].file.voxel_known(x, y, z)
                ==> mat.voxel_byte(
                x - (cur_box.min.x - fbase.x) + (cur_box.min.x - src_pos.x),
                y - (cur_box.min.y - fbase.y) + (cur_box.min.y - src_pos.y),
                z - (cur_box.min.z - fbase.z) + (cur_box.min.z - src_pos.z),
                k,
            ) == d.files@[fi].file.file_voxel_byte(x, y, z, k),
        forall|qx: int, qy: int, qz: int, k: int|
            0 <= qx < pre.shape.x && 0 <= qy < pre.shape.y && 0 <= qz < pre.shape.z && 0 <= k
                < pre.voxel_size && !(cur_box.min.x - src_pos.x <= qx < cur_box.max.x - src_pos.x
                && cur_box.min.y - src_pos.y <= qy < cur_box.max.y - src_pos.y && cur_box.min.z
                - src_pos.z <= qz < cur_box.max.z - src_pos.z) ==> #[trigger] mat.voxel_byte(
                qx,
                qy,
                qz,
                k,
            ) == mat_before.voxel_byte(qx, qy, qz, k),
    ensures
        read_loop_inv(
            d,
            mat,
            pre,
            src_pos,
            bbox,
            fmin,
            fmax,
            fvl,
            flv,
            Vec3 { x: (cur.x + 1) as u32, y: cur.y, z: cur.z },
        ),
{
    let nxt = Vec3 { x: (cur.x + 1) as u32, y: cur.y, z: cur.z };
    let f = flv as int;
    assert forall|x: int, y: int, z: int, k: int|
        #![trigger mat.voxel_byte(x - src_pos.x, y - src_pos.y, z - src_pos.z, k)]
        src_pos.x <= x < bbox.max.x && src_pos.y <= y < bbox.max.y && src_pos.z <= z < bbox.max.z
            && 0 <= k < pre.voxel_size implies ((file_done(d.file_id_of(x, y, z), nxt)
            && d.voxel_known_at(x, y, z) ==> mat.voxel_byte(
        x - src_pos.x,
        y - src_pos.y,
        z - src_pos.z,
        k,
    ) == d.voxel_byte_at(x, y, z, k)) && (file_done(d.file_id_of(x, y, z), nxt)
            && !d.has_file_at(x, y, z) ==> mat.voxel_byte(
        x - src_pos.x,
        y - src_pos.y,
        z - src_pos.z,
        k,
    ) == pre.voxel_byte(x - src_pos.x, y - src_pos.y, z - src_pos.z, k)) && (!file_done(
        d.file_id_of(x, y, z),
        nxt,
    ) ==> mat.voxel_byte(x - src_pos.x, y - src_pos.y, z - src_pos.z, k) == pre.voxel_byte(
        x - src_pos.x,
        y - src_pos.y,
        z - src_pos.z,
        k,
    ))) by {
        lemma_voxel_file_range(d.header, src_pos, bbox.max, fmin, fmax, x, y, z);
        let id = d.file_id_of(x, y, z);
        if id == cur {
            lemma_entry_at(d, fi, x, y, z);
            assert((cur.x + 1) * f == cur.x * f + f && (cur.y + 1) * f == cur.y * f + f && (cur.z
                + 1) * f == cur.z * f + f) by (nonlinear_arith);
            lemma_block_of(f, x, cur.x as int);
            lemma_block_of(f, y, cur.y as int);
            lemma_block_of(f, z, cur.z as int);
            assert(cur_box.contains(Vec3 { x: x as u32, y: y as u32, z: z as u32 }));
            if d.voxel_known_at(x, y, z) {
                let lx = x - fbase.x;
                let ly = y - fbase.y;
                let lz = z - fbase.z;
                assert(x % f == lx && y % f == ly && z % f == lz);
                assert(d.files@[fi].file.voxel_known(lx, ly, lz));
                assert(mat.voxel_byte(
                    lx - (cur_box.min.x - fbase.x) + (cur_box.min.x - src_pos.x),
                    ly - (cur_box.min.y - fbase.y) + (cur_box.min.y - src_pos.y),
                    lz - (cur_box.min.z - fbase.z) + (cur_box.min.z - src_pos.z),
                    k,
                ) == d.files@[fi].file.file_voxel_byte(lx, ly, lz, k));
                assert(lx - (cur_box.min.x - fbase.x) + (cur_box.min.x - src_pos.x) == x
                    - src_pos.x);
            }
        } else {
            // a voxel of another file: its matrix position was untouched
            assert(!cur_box.contains(Vec3 { x: x as u32, y: y as u32, z: z as u32 })) by {
                assert((cur.x + 1) * f == cur.x * f + f && (cur.y + 1) * f == cur.y * f + f && (
                cur.z + 1) * f == cur.z * f + f) by (nonlinear_arith);
                lemma_block_of(f, x, cur.x as int);
                lemma_block_of(f, y, cur.y as int);
                lemma_block_of(f, z, cur.z as int);
                assert(id.x != cur.x || id.y != cur.y || id.z != cur.z);
            }
            assert(mat.voxel_byte(x - src_pos.x, y - src_pos.y, z - src_pos.z, k)
                == mat_before.voxel_byte(x - src_pos.x, y - src_pos.y, z - src_pos.z, k));
            if !file_done(id, cur) && file_done(id, nxt) {
                assert(id == cur);
            }
        }
    }
}

/// With unique file coordinates, the entry holding a voxel is the one whose
/// coordinates match, and no other.
proof fn lemma_entry_at(d: Dataset, i: int, x: int, y: int, z: int)
    requires
        forall|a: int, b: int|
            0 <= a < b < d.files@.len() ==> (#[trigger] d.files@[a]).id != (
            #[trigger] d.files@[b]).id,
        0 <= i < d.files@.len(),
        d.files@[i].id == d.file_id_of(x, y, z),
    ensures
        d.has_file_at(x, y, z),
        d.entry_at(x, y, z) == i,
{
    assert(d.has_file_at(x, y, z));
    let j = d.entry_at(x, y, z);
    if i < j {
        assert(d.files@[i].id != d.files@[j].id);
    } else if j < i {
        assert(d.files@[j].id != d.files@[i].id);
    }
}

/// The voxel edge of a file relates shift, power and geometry.
proof fn lemma_file_shift(h: Header)
    requires
        h.wf(),
    ensures
        pow2i((h.block_len_log2 + h.file_len_log2) as nat) == h.spec_file_len_vx(),
        h.spec_file_len_vx() >= 1,
        h.spec_file_len_vx() <= 0x40000,
{
    vstd::arithmetic::power2::lemma_pow2_pos((h.block_len_log2 + h.file_len_log2) as nat);
    crate::header::lemma_pow2_le((h.block_len_log2 + h.file_len_log2) as nat, 18);
    vstd::arithmetic::power2::lemma2_to64();
}

/// A file coordinate taken from the overlap range meets the request box:
/// its cube starts at or before the box end and ends past the box start.
proof fn lemma_file_box(h: Header, id: Vec3, base: Vec3, past: Vec3, fmin: Vec3, fmax: Vec3)
    requires
        h.wf(),
        base.all_lt(past),
        fmin.x == base.x as int / h.spec_file_len_vx(),
        fmin.y == base.y as int / h.spec_file_len_vx(),
        fmin.z == base.z as int / h.spec_file_len_vx(),
        fmax.x == (past.x - 1) / h.spec_file_len_vx() + 1,
        fmax.y == (past.y - 1) / h.spec_file_len_vx() + 1,
        fmax.z == (past.z - 1) / h.spec_file_len_vx() + 1,
        fmin.all_le(id),
        id.all_lt(fmax),
        past.x + h.spec_file_len_vx() <= 0x100000000,
        past.y + h.spec_file_len_vx() <= 0x100000000,
        past.z + h.spec_file_len_vx() <= 0x100000000,
    ensures
        id.x * h.spec_file_len_vx() <= past.x - 1,
        id.y * h.spec_file_len_vx() <= past.y - 1,
        id.z * h.spec_file_len_vx() <= past.z - 1,
        base.x < (id.x + 1) * h.spec_file_len_vx(),
        base.y < (id.y + 1) * h.spec_file_len_vx(),
        base.z < (id.z + 1) * h.spec_file_len_vx(),
        id.x * h.spec_file_len_vx() <= u32::MAX && (id.x + 1) * h.spec_file_len_vx()
            <= u32::MAX,
        id.y * h.spec_file_len_vx() <= u32::MAX && (id.y + 1) * h.spec_file_len_vx()
            <= u32::MAX,
        id.z * h.spec_file_len_vx() <= u32::MAX && (id.z + 1) * h.spec_file_len_vx()
            <= u32::MAX,
        id.x * h.spec_file_len_vx() >= 0 && id.y * h.spec_file_len_vx() >= 0 && id.z
            * h.spec_file_len_vx() >= 0,
        id.x * h.spec_file_len_vx() < (id.x + 1) * h.spec_file_len_vx(),
        id.y * h.spec_file_len_vx() < (id.y + 1) * h.spec_file_len_vx(),
        id.z * h.spec_file_len_vx() < (id.z + 1) * h.spec_file_len_vx(),
{
    lemma_file_shift(h);
    assert(id.x * h.spec_file_len_vx() < (id.x + 1) * h.spec_file_len_vx() && id.y
        * h.spec_file_len_vx() < (id.y + 1) * h.spec_file_len_vx() && id.z
        * h.spec_file_len_vx() < (id.z + 1) * h.spec_file_len_vx()) by (nonlinear_arith)
        requires
            h.spec_file_len_vx() >= 1 && id.x >= 0 && id.y >= 0 && id.z >= 0,
    ;
    let f = h.spec_file_len_vx();
    vstd::arithmetic::div_mod::lemma_fundamental_div_mod(base.x as int, f);
    vstd::arithmetic::div_mod::lemma_fundamental_div_mod(base.y as int, f);
    vstd::arithmetic::div_mod::lemma_fundamental_div_mod(base.z as int, f);
    vstd::arithmetic::div_mod::lemma_mod_bound(base.x as int, f);
    vstd::arithmetic::div_mod::lemma_mod_bound(base.y as int, f);
    vstd::arithmetic::div_mod::lemma_mod_bound(base.z as int, f);
    vstd::arithmetic::div_mod::lemma_fundamental_div_mod(past.x - 1, f);
    vstd::arithmetic::div_mod::lemma_fundamental_div_mod(past.y - 1, f);
    vstd::arithmetic::div_mod::lemma_fundamental_div_mod(past.z - 1, f);
    vstd::arithmetic::div_mod::lemma_mod_bound(past.x - 1, f);
    vstd::arithmetic::div_mod::lemma_mod_bound(past.y - 1, f);
    vstd::arithmetic::div_mod::lemma_mod_bound(past.z - 1, f);
    assert(id.x * f <= ((past.x - 1) / f) * f && ((past.x - 1) / f) * f <= past.x - 1 && base.x
        < (base.x as int / f + 1) * f && (base.x as int / f + 1) * f <= (id.x + 1) * f && (id.x
        + 1) * f <= ((past.x - 1) / f + 1) * f && ((past.x - 1) / f + 1) * f <= past.x - 1 + f)
        by (nonlinear_arith)
        requires
            f >= 1 && 0 <= id.x && base.x as int / f <= id.x && id.x <= (past.x - 1) / f
                && base.x == f * (base.x as int / f) + base.x as int % f && 0 <= base.x as int % f
                < f && past.x - 1 == f * ((past.x - 1) / f) + (past.x - 1) % f && 0 <= (past.x
                - 1) % f < f,
    ;
    assert(id.y * f <= ((past.y - 1) / f) * f && ((past.y - 1) / f) * f <= past.y - 1 && base.y
        < (base.y as int / f + 1) * f && (base.y as int / f + 1) * f <= (id.y + 1) * f && (id.y
        + 1) * f <= ((past.y - 1) / f + 1) * f && ((past.y - 1) / f + 1) * f <= past.y - 1 + f)
        by (nonlinear_arith)
        requires
            f >= 1 && 0 <= id.y && base.y as int / f <= id.y && id.y <= (past.y - 1) / f
                && base.y == f * (base.y as int / f) + base.y as int % f && 0 <= base.y as int % f
                < f && past.y - 1 == f * ((past.y - 1) / f) + (past.y - 1) % f && 0 <= (past.y
                - 1) % f < f,
    ;
    assert(id.z * f <= ((past.z - 1) / f) * f && ((past.z - 1) / f) * f <= past.z - 1 && base.z
        < (base.z as int / f + 1) * f && (base.z as int / f + 1) * f <= (id.z + 1) * f && (id.z
        + 1) * f <= ((past.z - 1) / f + 1) * f && ((past.z - 1) / f + 1) * f <= past.z - 1 + f)
        by (nonlinear_arith)
        requires
            f >= 1 && 0 <= id.z && base.z as int / f <= id.z && id.z <= (past.z - 1) / f
                && base.z == f * (base.z as int / f) + base.z as int % f && 0 <= base.z as int % f
                < f && past.z - 1 == f * ((past.z - 1) / f) + (past.z - 1) % f && 0 <= (past.z
                - 1) % f < f,
    ;
}

/// Under whole-cube alignment, every overlapped file cube lies entirely
/// inside the request box.
proof fn lemma_aligned_covers(
    h: Header,
    id: Vec3,
    base: Vec3,
    shape: Vec3,
    past: Vec3,
    fmin: Vec3,
    fmax: Vec3,
)
    requires
        h.wf(),
        base.all_lt(past),
        past.x == base.x + shape.x && past.y == base.y + shape.y && past.z == base.z + shape.z,
        base.x as int % h.spec_file_len_vx() == 0,
        base.y as int % h.spec_file_len_vx() == 0,
        base.z as int % h.spec_file_len_vx() == 0,
        shape.x as int % h.spec_file_len_vx() == 0,
        shape.y as int % h.spec_file_len_vx() == 0,
        shape.z as int % h.spec_file_len_vx() == 0,
        fmin.x == base.x as int / h.spec_file_len_vx(),
        fmin.y == base.y as int / h.spec_file_len_vx(),
        fmin.z == base.z as int / h.spec_file_len_vx(),
        fmax.x == (past.x - 1) / h.spec_file_len_vx() + 1,
        fmax.y == (past.y - 1) / h.spec_file_len_vx() + 1,
        fmax.z == (past.z - 1) / h.spec_file_len_vx() + 1,
        fmin.all_le(id),
        id.all_lt(fmax),
    ensures
        base.x <= id.x * h.spec_file_len_vx(),
        base.y <= id.y * h.spec_file_len_vx(),
        base.z <= id.z * h.spec_file_len_vx(),
        (id.x + 1) * h.spec_file_len_vx() <= past.x,
        (id.y + 1) * h.spec_file_len_vx() <= past.y,
        (id.z + 1) * h.spec_file_len_vx() <= past.z,
{
    lemma_file_shift(h);
    let f = h.spec_file_len_vx();
    vstd::arithmetic::div_mod::lemma_fundamental_div_mod(base.x as int, f);
    vstd::arithmetic::div_mod::lemma_fundamental_div_mod(base.y as int, f);
    vstd::arithmetic::div_mod::lemma_fundamental_div_mod(base.z as int, f);
    vstd::arithmetic::div_mod::lemma_fundamental_div_mod(past.x - 1, f);
    vstd::arithmetic::div_mod::lemma_fundamental_div_mod(past.y - 1, f);
    vstd::arithmetic::div_mod::lemma_fundamental_div_mod(past.z - 1, f);
    vstd::arithmetic::div_mod::lemma_mod_bound(past.x - 1, f);
    vstd::arithmetic::div_mod::lemma_mod_bound(past.y - 1, f);
    vstd::arithmetic::div_mod::lemma_mod_bound(past.z - 1, f);
    vstd::arithmetic::div_mod::lemma_mod_adds(base.x as int, shape.x as int, f);
    vstd::arithmetic::div_mod::lemma_mod_adds(base.y as int, shape.y as int, f);
    vstd::arithmetic::div_mod::lemma_mod_adds(base.z as int, shape.z as int, f);
    assert(base.x <= id.x * f && (id.x + 1) * f <= past.x) by (nonlinear_arith)
        requires
            f >= 1 && base.x as int % f == 0 && past.x as int % f == 0 && base.x as int / f
                <= id.x && id.x <= (past.x - 1) / f && base.x == f * (base.x as int / f) && past.x
                - 1 == f * ((past.x - 1) / f) + (past.x - 1) % f && 0 <= (past.x - 1) % f < f
                && past.x >= 1,
    ;
    assert(base.y <= id.y * f && (id.y + 1) * f <= past.y) by (nonlinear_arith)
        requires
            f >= 1 && base.y as int % f == 0 && past.y as int % f == 0 && base.y as int / f
                <= id.y && id.y <= (past.y - 1) / f && base.y == f * (base.y as int / f) && past.y
                - 1 == f * ((past.y - 1) / f) + (past.y - 1) % f && 0 <= (past.y - 1) % f < f
                && past.y >= 1,
    ;
    assert(base.z <= id.z * f && (id.z + 1) * f <= past.z) by (nonlinear_arith)
        requires
            f >= 1 && base.z as int % f == 0 && past.z as int % f == 0 && base.z as int / f
                <= id.z && id.z <= (past.z - 1) / f && base.z == f * (base.z as int / f) && past.z
                - 1 == f * ((past.z - 1) / f) + (past.z - 1) % f && 0 <= (past.z - 1) % f < f
                && past.z >= 1,
    ;
}

} // verus!
