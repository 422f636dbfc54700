use vstd::prelude::*;

use crate::error::WkwError;
use crate::header::read_jump_table;
use crate::header::Header;
use crate::lz4::lz4_hc_of;
use crate::mat::flin;
use crate::mat::Mat;
use crate::morton::spec_decode;
use crate::morton::spec_encode;
use crate::vec3::pow2i;
use crate::vec3::Box3;
use crate::vec3::Vec3;

verus! {

/// One on-disk cube file: its header (with jump table when compressed) and
/// the bytes of its block region.  For a compressed file, the ghost map
/// remembers the uncompressed contents of the blocks this process wrote, so
/// that reading them back can be reasoned about.
pub struct File {
    pub header: Header,
    pub body: Vec<u8>,
    pub known: Ghost<Map<int, Seq<u8>>>,
}

impl File {
    /// Blocks per file.
    pub open spec fn vol(self) -> int {
        self.header.spec_file_vol()
    }

    /// Bytes per uncompressed block.
    pub open spec fn bs(self) -> int {
        self.header.spec_block_size()
    }

    /// Where the bytes of block `i` start inside the body.
    pub open spec fn seg_start(self, i: int) -> int {
        self.header.spec_block_offset(i) - self.header.data_offset
    }

    /// Where the bytes of block `i` end inside the body.
    pub open spec fn seg_past(self, i: int) -> int {
        self.header.spec_block_past(i) - self.header.data_offset
    }

    /// A compressed file that was created but never written: a zeroed jump
    /// table and no block bytes.
    pub open spec fn is_fresh(self) -> bool {
        &&& self.header.block_type.is_compressed()
        &&& self.header.jump_table matches Some(t) && (forall|i: int|
            0 <= i < t@.len() ==> t@[i] == 0)
        &&& self.body@.len() == 0
        &&& self.known@.dom() == Set::<int>::empty()
    }

    /// The jump table cuts the body into consecutive segments: entries grow
    /// monotonically from the data offset, and the last entry marks the end
    /// of the body.
    pub open spec fn segments_ok(self) -> bool {
        &&& self.header.jump_table matches Some(t) && {
            &&& self.header.data_offset <= t@[0]
            &&& (forall|i: int| 1 <= i < t@.len() ==> t@[i - 1] <= #[trigger] t@[i])
            &&& self.body@.len() == t@[self.vol() - 1] - self.header.data_offset
        }
    }

    /// The header places itself where the version says: at the start for
    /// version one, at the tail (data offset zero) for version two.
    pub open spec fn offset_expected(self) -> bool {
        self.header.data_offset == if self.header.version == 2 {
            0int
        } else {
            self.header.spec_size_on_disk()
        }
    }

    /// Every known block lies in the file, has one block of bytes, and for a
    /// compressed file its body segment is the compression of its content.
    pub open spec fn known_ok(self) -> bool {
        &&& forall|i: int|
            #[trigger] self.known@.dom().contains(i) ==> 0 <= i < self.vol()
                && self.known@[i].len() == self.bs()
        &&& (self.header.block_type.is_compressed() ==> (forall|i: int|
            #[trigger] self.known@.dom().contains(i) ==> self.segments_ok() && 0
                <= self.seg_start(i) <= self.seg_past(i) <= self.body@.len()
                && self.body@.subrange(self.seg_start(i), self.seg_past(i)) == lz4_hc_of(
                self.known@[i],
            )))
    }

    /// The whole in-memory file is consistent.
    pub open spec fn wf(self) -> bool {
        &&& self.header.wf()
        &&& self.header.jump_wf()
        &&& self.offset_expected()
        &&& (self.header.block_type.is_compressed() ==> (self.is_fresh() || self.segments_ok()))
        &&& (!self.header.block_type.is_compressed() ==> self.body@.len()
            == self.header.spec_file_size())
        &&& self.known_ok()
    }

    /// What block `i` holds, where that is known: always for a raw file, and
    /// for the blocks this process wrote for a compressed one.
    pub open spec fn block_content(self, i: int) -> Option<Seq<u8>> {
        if !self.header.block_type.is_compressed() {
            Some(self.body@.subrange(i * self.bs(), (i + 1) * self.bs()))
        } else if self.known@.dom().contains(i) {
            Some(self.known@[i])
        } else {
            None
        }
    }

    /// A new file for a dataset with the given header: raw files hold all
    /// zeros; compressed files start fresh, with header and jump table
    /// written only by the first whole-cube write.
    pub fn create(template: &Header) -> (r: File)
        requires
            template.wf(),
            template.spec_file_vol() <= usize::MAX,
            template.spec_file_size() <= usize::MAX,
        ensures
            r.wf(),
            r.header.fresh_from(*template, template.block_type),
            r.known@ == Map::<int, Seq<u8>>::empty(),
            !r.header.block_type.is_compressed() ==> r.body@ == Seq::new(
                r.header.spec_file_size() as nat,
                |i: int| 0u8,
            ),
            r.header.block_type.is_compressed() ==> r.is_fresh(),
    {
        let header = Header::from_template(template);
        let body: Vec<u8> = if header.block_type.compressed() {
            Vec::new()
        } else {
            let n = header.file_size();
            let v = vec![0u8; n as usize];
            v
        };
        let r = File { header, body, known: Ghost(Map::empty()) };
        proof {
            if !r.header.block_type.is_compressed() {
                assert(r.body@ =~= Seq::new(r.header.spec_file_size() as nat, |i: int| 0u8));
            }
            assert(r.known@.dom() =~= Set::<int>::empty());
        }
        r
    }

    /// Where the sixteen header bytes of a cube file sit: at the start for
    /// version one, at the tail for version two.
    pub open spec fn spec_header_pos(dh: Header, bytes: Seq<u8>) -> int {
        if dh.version == 2 {
            bytes.len() - dh.spec_size_on_disk()
        } else {
            0int
        }
    }

    /// The byte images that `open` accepts: long enough to hold the header,
    /// a valid header of the dataset's version with the data offset its
    /// version prescribes, and a body region that agrees with the header —
    /// exactly the file size for a raw file, and for a compressed file a
    /// readable jump table that grows monotonically from the data offset up
    /// to the end of the block region.
    pub open spec fn spec_accepts(dh: Header, bytes: Seq<u8>) -> bool {
        let pos = Self::spec_header_pos(dh, bytes);
        &&& (dh.version == 2 ==> bytes.len() >= dh.spec_size_on_disk())
        &&& bytes.len() >= pos + 16
        &&& crate::header::valid_header_bytes(bytes.subrange(pos, pos + 16))
        &&& {
            let h = crate::header::parse_header(bytes.subrange(pos, pos + 16));
            &&& h.version == dh.version
            &&& h.data_offset == (if dh.version == 2 {
                0int
            } else {
                h.spec_size_on_disk()
            })
            &&& if !h.block_type.is_compressed() {
                h.spec_file_size() + 16 <= usize::MAX && bytes.len() == 16 + h.spec_file_size()
            } else {
                let t = crate::header::jump_entries(bytes, pos + 16, h.spec_file_vol() as nat);
                &&& pos + 16 + 8 * h.spec_file_vol() <= bytes.len()
                &&& h.data_offset <= t[0]
                &&& (forall|i: int| 1 <= i < t.len() ==> t[i - 1] <= #[trigger] t[i])
                &&& t[h.spec_file_vol() - 1] == (if dh.version == 2 {
                    pos
                } else {
                    bytes.len() as int
                })
            }
        }
    }

    /// Parse a cube file from its on-disk bytes.  The dataset header decides
    /// where the file header lives: at the start for version one, at the
    /// tail for version two.  Every well-formed image is accepted, and the
    /// result adopts exactly the header, jump table and block bytes of the
    /// image.
    #[verifier::rlimit(100)]
    pub fn open(dataset_header: &Header, bytes: &Vec<u8>) -> (r: Result<File, WkwError>)
        requires
            dataset_header.wf(),
        ensures
            r is Ok <==> Self::spec_accepts(*dataset_header, bytes@),
            r matches Ok(f) ==> {
                &&& f.wf()
                &&& f.known@ == Map::<int, Seq<u8>>::empty()
                &&& f.header.version == dataset_header.version
            },
            r matches Ok(f) ==> {
                let pos = Self::spec_header_pos(*dataset_header, bytes@);
                let h = crate::header::parse_header(bytes@.subrange(pos, pos + 16));
                &&& f.header.version == h.version
                &&& f.header.block_len_log2 == h.block_len_log2
                &&& f.header.file_len_log2 == h.file_len_log2
                &&& f.header.block_type == h.block_type
                &&& f.header.voxel_type == h.voxel_type
                &&& f.header.voxel_size == h.voxel_size
                &&& f.header.data_offset == h.data_offset
                &&& (!h.block_type.is_compressed() ==> f.header.jump_table is None && f.body@
                    == bytes@.subrange(
                    (if dataset_header.version == 2 {
                        0int
                    } else {
                        16int
                    }),
                    (if dataset_header.version == 2 {
                        0int
                    } else {
                        16int
                    }) + h.spec_file_size(),
                ))
                &&& (h.block_type.is_compressed() ==> ((f.header.jump_table matches Some(t) && t@
                    == crate::header::jump_entries(bytes@, pos + 16, h.spec_file_vol() as nat))
                    && f.body@ == bytes@.subrange(
                    (if dataset_header.version == 2 {
                        0int
                    } else {
                        h.data_offset as int
                    }),
                    (if dataset_header.version == 2 {
                        0int
                    } else {
                        h.data_offset as int
                    }) + (crate::header::jump_entries(
                        bytes@,
                        pos + 16,
                        h.spec_file_vol() as nat,
                    )[h.spec_file_vol() - 1] - h.data_offset),
                )))
            },
    {
        let n = bytes.len();
        let two = dataset_header.version == 2;
        let header_pos: usize = if two {
            let need = dataset_header.size_on_disk();
            if (n as u64) < need {
                return Err(WkwError::HeaderIo);
            }
            n - need as usize
        } else {
            if n < 16 {
                return Err(WkwError::HeaderIo);
            }
            0
        };
        if n < header_pos + 16 {
            return Err(WkwError::HeaderIo);
        }
        let mut h = match Header::from_bytes(bytes, header_pos) {
            Ok(h) => h,
            Err(e) => {
                return Err(e);
            },
        };
        if h.version != dataset_header.version {
            return Err(WkwError::HeaderInvalid);
        }
        let expected_offset: u64 = if two {
            0
        } else {
            h.size_on_disk()
        };
        if h.data_offset != expected_offset {
            return Err(WkwError::HeaderInvalid);
        }
        if !h.block_type.compressed() {
            // raw: header region of sixteen bytes plus the block bytes
            let fsize = h.file_size();
            if fsize > usize::MAX as u64 - 16 || n != 16 + fsize as usize {
                return Err(WkwError::HeaderIo);
            }
            let body_start: usize = if two {
                0
            } else {
                16
            };
            let body = copy_range(bytes, body_start, fsize as usize);
            let f = File { header: h, body, known: Ghost(Map::empty()) };
            proof {
                assert(f.known@ =~= Map::<int, Seq<u8>>::empty());
                assert(f.wf());
            }
            return Ok(f);
        }
        Self::open_compressed(dataset_header, bytes, header_pos, h)
    }

    /// The compressed arm of `open`: read and check the jump table, then
    /// adopt the block region it delimits.
    #[verifier::rlimit(100)]
    fn open_compressed(
        dataset_header: &Header,
        bytes: &Vec<u8>,
        header_pos: usize,
        h: Header,
    ) -> (r: Result<File, WkwError>)
        requires
            dataset_header.wf(),
            header_pos == Self::spec_header_pos(*dataset_header, bytes@),
            header_pos + 16 <= bytes@.len(),
            dataset_header.version == 2 ==> bytes@.len() >= dataset_header.spec_size_on_disk(),
            crate::header::valid_header_bytes(
                bytes@.subrange(header_pos as int, header_pos + 16),
            ),
            h == crate::header::parse_header(
                bytes@.subrange(header_pos as int, header_pos + 16),
            ),
            h.wf(),
            h.version == dataset_header.version,
            h.data_offset == (if dataset_header.version == 2 {
                0int
            } else {
                h.spec_size_on_disk()
            }),
            h.block_type.is_compressed(),
        ensures
            r is Ok <==> Self::spec_accepts(*dataset_header, bytes@),
            r matches Ok(f) ==> {
                &&& f.wf()
                &&& f.known@ == Map::<int, Seq<u8>>::empty()
                &&& f.header.version == dataset_header.version
            },
            r matches Ok(f) ==> {
                let pos = Self::spec_header_pos(*dataset_header, bytes@);
                let hh = crate::header::parse_header(bytes@.subrange(pos, pos + 16));
                &&& f.header.version == hh.version
                &&& f.header.block_len_log2 == hh.block_len_log2
                &&& f.header.file_len_log2 == hh.file_len_log2
                &&& f.header.block_type == hh.block_type
                &&& f.header.voxel_type == hh.voxel_type
                &&& f.header.voxel_size == hh.voxel_size
                &&& f.header.data_offset == hh.data_offset
                &&& ((f.header.jump_table matches Some(t) && t@ == crate::header::jump_entries(
                    bytes@,
                    pos + 16,
                    hh.spec_file_vol() as nat,
                )) && f.body@ == bytes@.subrange(
                    (if dataset_header.version == 2 {
                        0int
                    } else {
                        hh.data_offset as int
                    }),
                    (if dataset_header.version == 2 {
                        0int
                    } else {
                        hh.data_offset as int
                    }) + (crate::header::jump_entries(
                        bytes@,
                        pos + 16,
                        hh.spec_file_vol() as nat,
                    )[hh.spec_file_vol() - 1] - hh.data_offset),
                ))
            },
    {
        let mut h = h;
        let n = bytes.len();
        let two = dataset_header.version == 2;
        // read the jump table behind the sixteen header bytes
        let vol = h.file_vol();
        proof {
            crate::header::lemma_file_geometry(h);
        }
        let t = match read_jump_table(bytes, header_pos + 16, vol) {
            Ok(t) => t,
            Err(e) => {
                return Err(e);
            },
        };
        // entries must grow monotonically from the data offset
        let mut prev: u64 = h.data_offset;
        let mut i: usize = 0;
        while i < t.len()
            invariant
                i <= t@.len(),
                t@.len() == vol,
                vol >= 1,
                prev == if i == 0 {
                    h.data_offset
                } else {
                    t@[i - 1]
                },
                h.data_offset <= prev,
                i > 0 ==> h.data_offset <= t@[0],
                forall|e: int| 1 <= e < i ==> t@[e - 1] <= #[trigger] t@[e],
                header_pos == Self::spec_header_pos(*dataset_header, bytes@),
                header_pos + 16 <= bytes@.len(),
                dataset_header.version == 2 ==> bytes@.len()
                    >= dataset_header.spec_size_on_disk(),
                h == crate::header::parse_header(
                    bytes@.subrange(header_pos as int, header_pos + 16),
                ),
                h.block_type.is_compressed(),
                vol == h.spec_file_vol(),
                t@ == crate::header::jump_entries(bytes@, header_pos + 16, vol as nat),
            decreases t@.len() - i,
        {
            if t[i] < prev {
                return Err(WkwError::CorruptJumpTable);
            }
            prev = t[i];
            i = i + 1;
        }
        // the body runs from the data offset to the last entry
        let last = t[(vol - 1) as usize];
        let body_start: usize = if two {
            0
        } else {
            h.data_offset as usize
        };
        let expected_end: u64 = if two {
            header_pos as u64
        } else {
            n as u64
        };
        if last != expected_end {
            return Err(WkwError::CorruptJumpTable);
        }
        let blen = (last - h.data_offset) as usize;
        if body_start > n || blen > n - body_start {
            proof {
                assert(false);
            }
            return Err(WkwError::CorruptJumpTable);
        }
        let body = copy_range(bytes, body_start, blen);
        h.jump_table = Some(t);
        let f = File { header: h, body, known: Ghost(Map::empty()) };
        proof {
            assert(f.known@ =~= Map::<int, Seq<u8>>::empty());
            assert(f.segments_ok());
            assert(f.header.wf());
            assert(f.header.jump_wf());
            assert(forall|i: int| !f.known@.dom().contains(i));
            assert(f.wf());
            assert(f.header.version == dataset_header.version);
        }
        Ok(f)
    }

    /// Serialize the file: header and jump table at the start for version
    /// one, behind the block bytes for version two.
    pub fn to_bytes(&self) -> (r: Vec<u8>)
        requires
            self.wf(),
        ensures
            self.header.version != 2 ==> r@ == self.header.spec_bytes() + spec_jump_bytes(
                self.header,
            ) + self.body@,
            self.header.version == 2 ==> r@ == self.body@ + self.header.spec_bytes()
                + spec_jump_bytes(self.header),
    {
        let mut head = self.header.write_bytes();
        if self.header.version != 2 {
            let mut r = head;
            append_bytes(&mut r, &self.body);
            proof {
                assert(r@ =~= self.header.spec_bytes() + spec_jump_bytes(self.header)
                    + self.body@);
            }
            r
        } else {
            let mut r = copy_range(&self.body, 0, self.body.len());
            append_bytes(&mut r, &head);
            proof {
                assert(r@ =~= self.body@ + self.header.spec_bytes() + spec_jump_bytes(
                    self.header,
                ));
            }
            r
        }
    }

    /// Read block `idx`: a slice of the body for a raw file, a decompressed
    /// segment for a compressed one.  Success is owed for every block of a
    /// raw file; for a compressed file, reading a block whose content is
    /// known yields exactly that content.
    pub fn read_block(&self, idx: u64) -> (r: Result<Vec<u8>, WkwError>)
        requires
            self.wf(),
            self.bs() <= 0x7fffffff,
        ensures
            idx >= self.vol() ==> r == Err::<Vec<u8>, WkwError>(WkwError::BlockIndexOutOfBounds),
            idx < self.vol() && !self.header.block_type.is_compressed() ==> (r matches Ok(v)
                && v@ == self.block_content(idx as int).unwrap()),
            (idx < self.vol() && self.block_content(idx as int) matches Some(c)) ==> (r matches Ok(
                v,
            ) && v@ == self.block_content(idx as int).unwrap()),
            r matches Ok(v) ==> v@.len() == self.bs(),
            r matches Ok(v) ==> (self.header.block_type.is_compressed() && idx < self.vol()
                && self.segments_ok() ==> (forall|orig: Seq<u8>|
                #[trigger] crate::lz4::lz4_hc_of(orig) == self.body@.subrange(
                    self.seg_start(idx as int),
                    self.seg_past(idx as int),
                ) && orig.len() == self.bs() ==> v@ == orig)),
    {
        let vol = self.file_vol();
        if idx >= vol {
            return Err(WkwError::BlockIndexOutOfBounds);
        }
        let bs = self.header.block_size();
        let blen = self.body.len();
        if !self.header.block_type.compressed() {
            proof {
                crate::header::lemma_file_geometry(self.header);
                lemma_mul_bounds_file(idx as int, vol as int, bs as int);
            }
            let start = (idx * bs) as usize;
            let r = copy_range(&self.body, start, bs as usize);
            proof {
                assert((idx as int + 1) * bs as int == idx as int * bs as int + bs as int)
                    by (nonlinear_arith);
            }
            return Ok(r);
        }
        let size_on_disk = match self.header.block_size_on_disk(idx) {
            Ok(s) => s,
            Err(e) => {
                return Err(e);
            },
        };
        let start_abs = match self.header.block_offset(idx) {
            Ok(o) => o,
            Err(e) => {
                return Err(e);
            },
        };
        proof {
            if self.known@.dom().contains(idx as int) {
                assert(self.segments_ok());
            }
            if !self.segments_ok() {
                assert(self.is_fresh());
            }
        }
        if start_abs < self.header.data_offset {
            return Err(WkwError::CorruptJumpTable);
        }
        let start = start_abs - self.header.data_offset;
        let blen = self.body.len();
        if start > blen as u64 || size_on_disk > blen as u64 - start {
            return Err(WkwError::CorruptJumpTable);
        }
        let seg = copy_range(&self.body, start as usize, size_on_disk as usize);
        let raw = match crate::lz4::decompress_safe(&seg, bs as usize) {
            Ok(v) => v,
            Err(e) => {
                return Err(e);
            },
        };
        if raw.len() as u64 != bs {
            return Err(WkwError::DecompressLength);
        }
        proof {
            if self.known@.dom().contains(idx as int) {
                assert(seg@ =~= self.body@.subrange(
                    self.seg_start(idx as int),
                    self.seg_past(idx as int),
                ));
                assert(lz4_hc_of(self.known@[idx as int]) == seg@);
            }
            if self.segments_ok() {
                assert(seg@ =~= self.body@.subrange(
                    self.seg_start(idx as int),
                    self.seg_past(idx as int),
                ));
            }
        }
        Ok(raw)
    }

    /// Overwrite block `idx` of a raw file with the given bytes; all other
    /// blocks and the header keep their state.
    #[verifier::rlimit(60)]
    pub fn write_block_raw(&mut self, idx: u64, data: &Vec<u8>) -> (r: Result<(), WkwError>)
        requires
            old(self).wf(),
            !old(self).header.block_type.is_compressed(),
            data@.len() == old(self).bs(),
        ensures
            final(self).wf(),
            final(self).header == old(self).header,
            final(self).known@ == old(self).known@,
            final(self).body@.len() == old(self).body@.len(),
            idx >= old(self).vol() ==> r == Err::<(), WkwError>(WkwError::BlockIndexOutOfBounds)
                && *final(self) == *old(self),
            idx < old(self).vol() ==> r is Ok && final(self).block_content(idx as int) == Some(
                data@,
            ) && (forall|j: int|
                0 <= j < old(self).vol() && j != idx ==> final(self).block_content(j) == old(
                    self,
                ).block_content(j)),
    {
        let vol = self.file_vol();
        if idx >= vol {
            return Err(WkwError::BlockIndexOutOfBounds);
        }
        let bs = self.header.block_size();
        let blen = self.body.len();
        proof {
            crate::header::lemma_file_geometry(self.header);
            lemma_mul_bounds_file(idx as int, vol as int, bs as int);
        }
        let start = (idx * bs) as usize;
        crate::mat::copy_bytes(&mut self.body, start, data, 0, bs as usize);
        proof {
            assert((idx as int + 1) * bs as int == idx as int * bs as int + bs as int)
                by (nonlinear_arith);
            assert(final(self).block_content(idx as int) == Some(data@)) by {
                assert(self.body@.subrange(idx as int * bs as int, idx as int * bs as int
                    + bs as int) =~= data@);
            }
            assert forall|j: int| 0 <= j < vol && j != idx implies self.block_content(j) == old(
                self,
            ).block_content(j) by {
                lemma_mul_bounds_file(j, vol as int, bs as int);
                assert((j + 1) * bs as int == j * bs as int + bs as int) by (nonlinear_arith);
                assert(j < idx ==> (j + 1) * bs as int <= idx as int * bs as int)
                    by (nonlinear_arith);
                assert(j > idx ==> (idx as int + 1) * bs as int <= j * bs as int)
                    by (nonlinear_arith);
                assert(self.body@.subrange(j * bs as int, (j + 1) * bs as int) =~= old(
                    self,
                ).body@.subrange(j * bs as int, (j + 1) * bs as int));
            }
            assert forall|i: int| #[trigger]
                self.known@.dom().contains(i) implies 0 <= i < self.vol() && self.known@[i].len()
                == self.bs() by {
                assert(old(self).known@.dom().contains(i));
                assert(old(self).known@[i].len() == old(self).bs());
            }
            lemma_wf_raw(*self);
        }
        Ok(())
    }

    /// Voxels per file edge, forwarded from the header.
    pub fn file_vol(&self) -> (r: u64)
        requires
            self.wf(),
        ensures
            r == self.vol(),
    {
        self.header.file_vol()
    }
}

/// A raw file is consistent when its parts are.
proof fn lemma_wf_raw(f: File)
    requires
        f.header.wf(),
        f.header.jump_wf(),
        !f.header.block_type.is_compressed(),
        f.offset_expected(),
        f.body@.len() == f.header.spec_file_size(),
        forall|i: int|
            #[trigger] f.known@.dom().contains(i) ==> 0 <= i < f.vol() && f.known@[i].len()
                == f.bs(),
    ensures
        f.wf(),
{
}


/// A block index below the file volume gives in-range byte offsets.
proof fn lemma_mul_bounds_file(i: int, vol: int, bs: int)
    requires
        0 <= i < vol,
        bs >= 0,
    ensures
        0 <= i * bs,
        (i + 1) * bs <= vol * bs,
        i * bs + bs == (i + 1) * bs,
        i * bs <= i * bs + bs,
{
    assert(0 <= i * bs && (i + 1) * bs <= vol * bs && i * bs + bs == (i + 1) * bs)
        by (nonlinear_arith)
        requires
            0 <= i < vol && bs >= 0,
    ;
}

/// Copy `n` bytes at `start` out of a buffer.
pub fn copy_range(src: &Vec<u8>, start: usize, n: usize) -> (r: Vec<u8>)
    requires
        start + n <= src@.len(),
    ensures
        r@ == src@.subrange(start as int, start + n),
{
    let slen = src.len();
    let mut r: Vec<u8> = Vec::new();
    let mut i: usize = 0;
    while i < n
        invariant
            i <= n,
            start + n <= src@.len() <= usize::MAX,
            r@.len() == i,
            forall|j: int| 0 <= j < i ==> r@[j] == src@[start + j],
        decreases n - i,
    {
        r.push(src[start + i]);
        i = i + 1;
    }
    proof {
        assert(r@ =~= src@.subrange(start as int, start + n));
    }
    r
}

/// Append all bytes of `more` to `out`.
pub fn append_bytes(out: &mut Vec<u8>, more: &Vec<u8>)
    ensures
        final(out)@ == old(out)@ + more@,
{
    let ghost base = out@;
    let mut i: usize = 0;
    while i < more.len()
        invariant
            i <= more@.len(),
            out@ == base + more@.subrange(0, i as int),
        decreases more@.len() - i,
    {
        out.push(more[i]);
        proof {
            assert(base + more@.subrange(0, i + 1) =~= (base + more@.subrange(0, i as int)).push(
                more@[i as int],
            ));
        }
        i = i + 1;
    }
    proof {
        assert(more@.subrange(0, more@.len() as int) =~= more@);
    }
}

/// The serialized jump table of a header, or nothing when none is attached.
pub open spec fn spec_jump_bytes(h: Header) -> Seq<u8> {
    match h.jump_table {
        Some(t) => crate::header::jump_bytes(t@),
        None => Seq::empty(),
    }
}


impl File {
    /// The Morton index of the block that holds the voxel at (x, y, z).
    pub open spec fn block_index_of(self, x: int, y: int, z: int) -> int {
        let bl = self.header.spec_block_len();
        spec_encode(
            Vec3 { x: (x / bl) as u32, y: (y / bl) as u32, z: (z / bl) as u32 },
        ) as int
    }

    /// The content of the voxel's block is known.
    pub open spec fn voxel_known(self, x: int, y: int, z: int) -> bool {
        self.block_content(self.block_index_of(x, y, z)) is Some
    }

    /// Byte `k` of the voxel at (x, y, z) of the file.
    pub open spec fn file_voxel_byte(self, x: int, y: int, z: int, k: int) -> u8 {
        let bl = self.header.spec_block_len();
        let c = self.block_content(self.block_index_of(x, y, z)).unwrap();
        c[flin(bl, bl, x % bl, y % bl, z % bl) * self.header.voxel_size + k]
    }
}

/// Division and remainder by the block edge split a coordinate.
pub(crate) proof fn lemma_block_coords(bl: int, x: int)
    requires
        bl >= 1,
        0 <= x,
    ensures
        0 <= x / bl,
        (x / bl) * bl <= x < (x / bl + 1) * bl,
        x % bl == x - (x / bl) * bl,
        0 <= x % bl < bl,
{
    vstd::arithmetic::div_mod::lemma_fundamental_div_mod(x, bl);
    vstd::arithmetic::div_mod::lemma_mod_bound(x, bl);
    assert((x / bl) * bl <= x < (x / bl + 1) * bl && x % bl == x - (x / bl) * bl && 0 <= x / bl)
        by (nonlinear_arith)
        requires
            x == bl * (x / bl) + x % bl && 0 <= x % bl < bl && bl >= 1 && x >= 0,
    ;
}

/// A coordinate sits in block `c` exactly when it lies in that block's run.
pub(crate) proof fn lemma_block_of(bl: int, x: int, c: int)
    requires
        bl >= 1,
        0 <= x,
        0 <= c,
    ensures
        (x / bl == c) <==> (c * bl <= x < (c + 1) * bl),
{
    lemma_block_coords(bl, x);
    if c * bl <= x < (c + 1) * bl {
        assert((c + 1) * bl == c * bl + bl) by (nonlinear_arith);
        vstd::arithmetic::div_mod::lemma_fundamental_div_mod_converse(x, bl, c, x - c * bl);
    }
}

/// The last voxel of a file lies in the last block: dividing the largest
/// in-file coordinate by the block edge gives the largest block coordinate.
proof fn lemma_last_block(h: Header)
    requires
        h.wf(),
    ensures
        (h.spec_file_len_vx() - 1) / h.spec_block_len() == h.spec_file_len() - 1,
        h.spec_block_len() * h.spec_file_len() == h.spec_file_len_vx(),
        h.spec_block_len() >= 1,
        h.spec_file_len() >= 1,
        h.spec_file_len_vx() >= 1,
{
    vstd::arithmetic::power2::lemma_pow2_pos(h.block_len_log2 as nat);
    vstd::arithmetic::power2::lemma_pow2_pos(h.file_len_log2 as nat);
    vstd::arithmetic::power2::lemma_pow2_pos((h.block_len_log2 + h.file_len_log2) as nat);
    vstd::arithmetic::power2::lemma_pow2_adds(
        h.block_len_log2 as nat,
        h.file_len_log2 as nat,
    );
    let bl = h.spec_block_len();
    let fl = h.spec_file_len();
    assert(bl * fl - 1 == (fl - 1) * bl + (bl - 1)) by (nonlinear_arith);
    vstd::arithmetic::div_mod::lemma_fundamental_div_mod_converse(
        bl * fl - 1,
        bl,
        fl - 1,
        bl - 1,
    );
}


/// Where a read or write region ends along one axis: the request runs to the
/// matrix edge but is clipped to the file edge.
pub open spec fn region_end(flv: int, sp: u32, sh: u32, dp: u32) -> int {
    if sp + sh - dp <= flv {
        sp + sh - dp
    } else {
        flv
    }
}

impl File {
    /// Copy the voxels of the box from `src_pos` up to the file or matrix
    /// edge into `dst_mat` at `dst_pos`, walking the file's blocks in Morton
    /// order.  Every voxel whose block content is known arrives byte for
    /// byte; matrix voxels outside the written region keep their bytes; and
    /// the read succeeds whenever all blocks it touches are known — always,
    /// for a raw file.
    #[verifier::rlimit(100)]
    pub fn read_mat(&self, src_pos: Vec3, dst_mat: &mut Mat, dst_pos: Vec3) -> (r: Result<
        usize,
        WkwError,
    >)
        requires
            self.wf(),
            old(dst_mat).wf(),
            !old(dst_mat).data_in_c_order,
            old(dst_mat).voxel_size == self.header.voxel_size,
            old(dst_mat).voxel_type == self.header.voxel_type,
            src_pos.x < self.header.spec_file_len_vx(),
            src_pos.y < self.header.spec_file_len_vx(),
            src_pos.z < self.header.spec_file_len_vx(),
            dst_pos.all_le(old(dst_mat).shape),
            self.bs() <= 0x7fffffff,
        ensures
            final(dst_mat).wf(),
            crate::mat::same_view(*final(dst_mat), *old(dst_mat)),
            final(dst_mat).data_in_c_order == old(dst_mat).data_in_c_order,
            r is Ok ==> (forall|x: int, y: int, z: int, k: int|
                #![trigger final(dst_mat).voxel_byte(x - src_pos.x + dst_pos.x, y - src_pos.y + dst_pos.y, z - src_pos.z + dst_pos.z, k)]
                {
                    let flv = self.header.spec_file_len_vx();
                    let m = *old(dst_mat);
                    src_pos.x <= x < region_end(flv, src_pos.x, m.shape.x, dst_pos.x) && src_pos.y
                        <= y < region_end(flv, src_pos.y, m.shape.y, dst_pos.y) && src_pos.z <= z
                        < region_end(flv, src_pos.z, m.shape.z, dst_pos.z) && 0 <= k
                        < m.voxel_size && self.voxel_known(x, y, z) ==> final(dst_mat).voxel_byte(
                        x - src_pos.x + dst_pos.x,
                        y - src_pos.y + dst_pos.y,
                        z - src_pos.z + dst_pos.z,
                        k,
                    ) == self.file_voxel_byte(x, y, z, k)
                }),
            r is Ok ==> (forall|qx: int, qy: int, qz: int, k: int|
                {
                    let flv = self.header.spec_file_len_vx();
                    let m = *old(dst_mat);
                    0 <= qx < m.shape.x && 0 <= qy < m.shape.y && 0 <= qz < m.shape.z && 0 <= k
                        < m.voxel_size && !(dst_pos.x <= qx < region_end(
                        flv,
                        src_pos.x,
                        m.shape.x,
                        dst_pos.x,
                    ) - src_pos.x + dst_pos.x && dst_pos.y <= qy < region_end(
                        flv,
                        src_pos.y,
                        m.shape.y,
                        dst_pos.y,
                    ) - src_pos.y + dst_pos.y && dst_pos.z <= qz < region_end(
                        flv,
                        src_pos.z,
                        m.shape.z,
                        dst_pos.z,
                    ) - src_pos.z + dst_pos.z) ==> #[trigger] final(dst_mat).voxel_byte(
                        qx,
                        qy,
                        qz,
                        k,
                    ) == old(dst_mat).voxel_byte(qx, qy, qz, k)
                }),
            (forall|x: int, y: int, z: int|
                {
                    let flv = self.header.spec_file_len_vx();
                    let m = *old(dst_mat);
                    (src_pos.x <= x < region_end(flv, src_pos.x, m.shape.x, dst_pos.x)
                        && src_pos.y <= y < region_end(flv, src_pos.y, m.shape.y, dst_pos.y)
                        && src_pos.z <= z < region_end(flv, src_pos.z, m.shape.z, dst_pos.z))
                        ==> #[trigger] self.voxel_known(x, y, z)
                }) ==> r is Ok,
    {
        let ghost pre = *dst_mat;
        proof {
            lemma_last_block(self.header);
            crate::header::lemma_file_geometry(self.header);
        }
        let flv = self.header.file_len_vx();
        let ex = end_coord(flv, src_pos.x, dst_mat.shape.x, dst_pos.x);
        let ey = end_coord(flv, src_pos.y, dst_mat.shape.y, dst_pos.y);
        let ez = end_coord(flv, src_pos.z, dst_mat.shape.z, dst_pos.z);
        let src_end = Vec3 { x: ex, y: ey, z: ez };
        let src_box = match Box3::new(src_pos, src_end) {
            Ok(b) => b,
            Err(e) => {
                proof {
                    assert(false);
                }
                return Err(e);
            },
        };
        if src_box.is_empty() {
            return Ok(1);
        }
        let bl_log2 = self.header.block_len_log2 as u32;
        let fl_log2 = self.header.file_len_log2 as u32;
        let bl = self.header.block_len() as u32;
        proof {
            crate::morton::shl1_is_pow2_u32(bl_log2);
            let blk = self.header.spec_block_len();
            vstd::arithmetic::div_mod::lemma_div_is_ordered(src_pos.x as int, src_end.x - 1, blk);
            vstd::arithmetic::div_mod::lemma_div_is_ordered(src_pos.y as int, src_end.y - 1, blk);
            vstd::arithmetic::div_mod::lemma_div_is_ordered(src_pos.z as int, src_end.z - 1, blk);
            vstd::arithmetic::div_mod::lemma_div_is_ordered(
                src_end.x - 1,
                self.header.spec_file_len_vx() - 1,
                blk,
            );
            vstd::arithmetic::div_mod::lemma_div_is_ordered(
                src_end.y - 1,
                self.header.spec_file_len_vx() - 1,
                blk,
            );
            vstd::arithmetic::div_mod::lemma_div_is_ordered(
                src_end.z - 1,
                self.header.spec_file_len_vx() - 1,
                blk,
            );
            lemma_block_coords(blk, src_pos.x as int);
            lemma_block_coords(blk, src_pos.y as int);
            lemma_block_coords(blk, src_pos.z as int);
            lemma_block_coords(blk, src_end.x - 1);
            lemma_block_coords(blk, src_end.y - 1);
            lemma_block_coords(blk, src_end.z - 1);
        }
        let sbb = match Box3::new(
            src_pos.shr(bl_log2),
            src_box.max().sub(Vec3::splat(1)).shr(bl_log2).add(Vec3::splat(1)),
        ) {
            Ok(b) => b,
            Err(e) => {
                proof {
                    assert(false);
                }
                return Err(e);
            },
        };
        proof {
            crate::header::lemma_pow2_le(
                self.header.file_len_log2 as nat,
                (self.header.block_len_log2 + self.header.file_len_log2) as nat,
            );
        }
        let mut it = match crate::morton::Iter::new(fl_log2, sbb) {
            Ok(i) => i,
            Err(e) => {
                proof {
                    assert(false);
                }
                return Err(e);
            },
        };
        let vs = self.header.voxel_size as usize;
        proof {
            assert(self.header.spec_file_len() * bl as int == flv) by (nonlinear_arith)
                requires
                    bl as int * self.header.spec_file_len() == flv,
            ;
        }
        loop
            invariant_except_break
                it.wf(),
                it.log2 == fl_log2,
                it.bbox == sbb,
                self.wf(),
                self.bs() <= 0x7fffffff,
                dst_mat.wf(),
                crate::mat::same_view(*dst_mat, pre),
                pre == *old(dst_mat),
                dst_mat.shape == pre.shape && dst_mat.voxel_size == pre.voxel_size
                    && dst_mat.voxel_type == pre.voxel_type && dst_mat.data_in_c_order
                    == pre.data_in_c_order,
                !pre.data_in_c_order,
                pre.voxel_size == self.header.voxel_size,
                pre.voxel_type == self.header.voxel_type,
                dst_pos.all_le(pre.shape),
                flv == self.header.spec_file_len_vx(),
                bl == self.header.spec_block_len(),
                bl_log2 == self.header.block_len_log2,
                fl_log2 == self.header.file_len_log2,
                src_end.x == region_end(flv as int, src_pos.x, pre.shape.x, dst_pos.x),
                src_end.y == region_end(flv as int, src_pos.y, pre.shape.y, dst_pos.y),
                src_end.z == region_end(flv as int, src_pos.z, pre.shape.z, dst_pos.z),
                src_box == (Box3 { min: src_pos, max: src_end }),
                src_pos.all_lt(src_end),
                src_end.x <= flv && src_end.y <= flv && src_end.z <= flv,
                sbb.min.x == src_pos.x as int / bl as int,
                sbb.min.y == src_pos.y as int / bl as int,
                sbb.min.z == src_pos.z as int / bl as int,
                sbb.max.x == (src_end.x - 1) / bl as int + 1,
                sbb.max.y == (src_end.y - 1) / bl as int + 1,
                sbb.max.z == (src_end.z - 1) / bl as int + 1,
                sbb.max.x <= self.header.spec_file_len(),
                sbb.max.y <= self.header.spec_file_len(),
                sbb.max.z <= self.header.spec_file_len(),
                self.header.spec_file_len() * bl as int == flv,
                (flv - 1) as int / (bl as int) == self.header.spec_file_len() - 1,
                bl >= 1,
                vs == self.header.voxel_size,
                forall|x: int, y: int, z: int, k: int|
                    #![trigger dst_mat.voxel_byte(x - src_pos.x + dst_pos.x, y - src_pos.y + dst_pos.y, z - src_pos.z + dst_pos.z, k)]
                    src_pos.x <= x < src_end.x && src_pos.y <= y < src_end.y && src_pos.z <= z
                        < src_end.z && 0 <= k < pre.voxel_size && it.yielded@.contains(
                        self.block_index_of(x, y, z) as u64,
                    ) && self.voxel_known(x, y, z) ==> dst_mat.voxel_byte(
                        x - src_pos.x + dst_pos.x,
                        y - src_pos.y + dst_pos.y,
                        z - src_pos.z + dst_pos.z,
                        k,
                    ) == self.file_voxel_byte(x, y, z, k),
                forall|qx: int, qy: int, qz: int, k: int|
                    0 <= qx < pre.shape.x && 0 <= qy < pre.shape.y && 0 <= qz < pre.shape.z && 0
                        <= k < pre.voxel_size && !(dst_pos.x <= qx < src_end.x - src_pos.x
                        + dst_pos.x && dst_pos.y <= qy < src_end.y - src_pos.y + dst_pos.y
                        && dst_pos.z <= qz < src_end.z - src_pos.z + dst_pos.z) ==> #[trigger]
                        dst_mat.voxel_byte(qx, qy, qz, k) == pre.voxel_byte(qx, qy, qz, k),
            ensures
                dst_mat.wf(),
                crate::mat::same_view(*dst_mat, pre),
                dst_mat.shape == pre.shape && dst_mat.voxel_size == pre.voxel_size
                    && dst_mat.voxel_type == pre.voxel_type && dst_mat.data_in_c_order
                    == pre.data_in_c_order,
                forall|kk: u64|
                    #[trigger] crate::morton::in_query(fl_log2 as nat, sbb, kk)
                        ==> it.yielded@.contains(kk),
                forall|x: int, y: int, z: int, k: int|
                    #![trigger dst_mat.voxel_byte(x - src_pos.x + dst_pos.x, y - src_pos.y + dst_pos.y, z - src_pos.z + dst_pos.z, k)]
                    src_pos.x <= x < src_end.x && src_pos.y <= y < src_end.y && src_pos.z <= z
                        < src_end.z && 0 <= k < pre.voxel_size && it.yielded@.contains(
                        self.block_index_of(x, y, z) as u64,
                    ) && self.voxel_known(x, y, z) ==> dst_mat.voxel_byte(
                        x - src_pos.x + dst_pos.x,
                        y - src_pos.y + dst_pos.y,
                        z - src_pos.z + dst_pos.z,
                        k,
                    ) == self.file_voxel_byte(x, y, z, k),
                forall|qx: int, qy: int, qz: int, k: int|
                    0 <= qx < pre.shape.x && 0 <= qy < pre.shape.y && 0 <= qz < pre.shape.z && 0
                        <= k < pre.voxel_size && !(dst_pos.x <= qx < src_end.x - src_pos.x
                        + dst_pos.x && dst_pos.y <= qy < src_end.y - src_pos.y + dst_pos.y
                        && dst_pos.z <= qz < src_end.z - src_pos.z + dst_pos.z) ==> #[trigger]
                        dst_mat.voxel_byte(qx, qy, qz, k) == pre.voxel_byte(qx, qy, qz, k),
            decreases crate::morton::max_index(fl_log2 as nat) - it.idx,
        {
            let ghost it_prev = it;
            let next = it.next();
            match next {
                None => {
                    break ;
                },
                Some(cur_block_idx) => {
                    proof {
                        crate::morton::lemma_decode_bounds(cur_block_idx);
                    }
                    let ids = crate::morton::Morton::new(cur_block_idx).decode();
                    proof {
                        lemma_last_block(self.header);
                        let blk = bl as int;
                        assert(pow2i(bl_log2 as nat) == bl as int);
                        assert(ids.x < self.header.spec_file_len() && ids.y
                            < self.header.spec_file_len() && ids.z < self.header.spec_file_len());
                        assert((ids.x + 1) * blk <= self.header.spec_file_len_vx() && (ids.y + 1)
                            * blk <= self.header.spec_file_len_vx() && (ids.z + 1) * blk
                            <= self.header.spec_file_len_vx()) by (nonlinear_arith)
                            requires
                                ids.x + 1 <= self.header.spec_file_len() && ids.y + 1
                                    <= self.header.spec_file_len() && ids.z + 1
                                    <= self.header.spec_file_len() && blk >= 1
                                    && self.header.spec_file_len() * blk
                                    == self.header.spec_file_len_vx(),
                        ;
                        crate::header::lemma_pow2_le(
                            (self.header.block_len_log2 + self.header.file_len_log2) as nat,
                            18,
                        );
                        vstd::arithmetic::power2::lemma2_to64();
                        assert(ids.x * blk <= (ids.x + 1) * blk && ids.y * blk <= (ids.y + 1)
                            * blk && ids.z * blk <= (ids.z + 1) * blk) by (nonlinear_arith)
                            requires
                                blk >= 1 && ids.x >= 0 && ids.y >= 0 && ids.z >= 0,
                        ;
                    }
                    let bmin = ids.shl(bl_log2);
                    let bmax = ids.add(Vec3::splat(1)).shl(bl_log2);
                    let cur_block_box = match Box3::new(bmin, bmax) {
                        Ok(b) => b,
                        Err(e) => {
                            proof {
                                let blk = bl as int;
                                assert(ids.x * blk <= (ids.x + 1) * blk && ids.y * blk <= (ids.y
                                    + 1) * blk && ids.z * blk <= (ids.z + 1) * blk)
                                    by (nonlinear_arith)
                                    requires
                                        blk >= 1 && ids.x >= 0 && ids.y >= 0 && ids.z >= 0,
                                ;
                                assert(false);
                            }
                            return Err(e);
                        },
                    };
                    let cur_box = cur_block_box.intersect(src_box);
                    proof {
                        let blk = bl as int;
                        lemma_block_coords(blk, src_pos.x as int);
                        lemma_block_coords(blk, src_pos.y as int);
                        lemma_block_coords(blk, src_pos.z as int);
                        lemma_block_coords(blk, src_end.x - 1);
                        lemma_block_coords(blk, src_end.y - 1);
                        lemma_block_coords(blk, src_end.z - 1);
                        assert(ids.x as int * blk <= src_end.x - 1 && ids.y as int * blk
                            <= src_end.y - 1 && ids.z as int * blk <= src_end.z - 1)
                            by (nonlinear_arith)
                            requires
                                ids.x <= (src_end.x - 1) / blk && ids.y <= (src_end.y - 1) / blk
                                    && ids.z <= (src_end.z - 1) / blk && blk >= 1 && ((src_end.x
                                    - 1) / blk) * blk <= src_end.x - 1 && ((src_end.y - 1) / blk)
                                    * blk <= src_end.y - 1 && ((src_end.z - 1) / blk) * blk
                                    <= src_end.z - 1,
                        ;
                        assert(src_pos.x < (ids.x + 1) * blk && src_pos.y < (ids.y + 1) * blk
                            && src_pos.z < (ids.z + 1) * blk) by (nonlinear_arith)
                            requires
                                src_pos.x as int / blk <= ids.x && src_pos.y as int / blk <= ids.y
                                    && src_pos.z as int / blk <= ids.z && blk >= 1
                                    && (src_pos.x as int) < (src_pos.x as int / blk + 1) * blk
                                    && (src_pos.y as int) < (src_pos.y as int / blk + 1) * blk
                                    && (src_pos.z as int) < (src_pos.z as int / blk + 1) * blk,
                        ;
                        assert(bmax.x - bmin.x == blk && bmax.y - bmin.y == blk && bmax.z
                            - bmin.z == blk) by (nonlinear_arith)
                            requires
                                bmin.x == ids.x * blk && bmax.x == (ids.x + 1) * blk && bmin.y
                                    == ids.y * blk && bmax.y == (ids.y + 1) * blk && bmin.z
                                    == ids.z * blk && bmax.z == (ids.z + 1) * blk,
                        ;
                        assert(cur_box.min.x >= src_pos.x && cur_box.min.y >= src_pos.y
                            && cur_box.min.z >= src_pos.z);
                        assert(cur_box.min.x >= bmin.x && cur_box.min.y >= bmin.y && cur_box.min.z
                            >= bmin.z);
                        assert(cur_box.max.x <= bmax.x && cur_box.max.y <= bmax.y && cur_box.max.z
                            <= bmax.z);
                        assert(cur_box.max.x <= src_end.x && cur_box.max.y <= src_end.y
                            && cur_box.max.z <= src_end.z);
                        assert(!cur_box.spec_is_empty());
                    }
                    let cur_dst_pos = cur_box.min().sub(src_pos).add(dst_pos);
                    let cur_src_box = match Box3::new(
                        cur_box.min().sub(bmin),
                        cur_box.max().sub(bmin),
                    ) {
                        Ok(b) => b,
                        Err(e) => {
                            proof {
                                assert(false);
                            }
                            return Err(e);
                        },
                    };
                    let buf = match self.read_block(cur_block_idx) {
                        Ok(b) => b,
                        Err(e) => {
                            proof {
                                let px = cur_box.min.x as int;
                                let py = cur_box.min.y as int;
                                let pz = cur_box.min.z as int;
                                let blk = bl as int;
                                lemma_block_of(blk, px, ids.x as int);
                                lemma_block_of(blk, py, ids.y as int);
                                lemma_block_of(blk, pz, ids.z as int);
                                crate::header::lemma_pow2_le(
                                    3 * self.header.file_len_log2 as nat,
                                    45,
                                );
                                vstd::arithmetic::power2::lemma2_to64_rest();
                                crate::morton::lemma_encode_decode(cur_block_idx);
                                assert(self.block_index_of(px, py, pz) == cur_block_idx);
                                assert(!self.voxel_known(px, py, pz));
                            }
                            return Err(e);
                        },
                    };
                    proof {
                        lemma_block_cube(self.header);
                    }
                    let src_mat = match Mat::new(
                        buf,
                        Vec3 { x: bl, y: bl, z: bl },
                        vs,
                        self.header.voxel_type,
                        false,
                    ) {
                        Ok(m) => m,
                        Err(e) => {
                            proof {
                                lemma_block_cube(self.header);
                                assert(false);
                            }
                            return Err(e);
                        },
                    };
                    let ghost dst_before = *dst_mat;
                    let cpy = dst_mat.copy_from(cur_dst_pos, &src_mat, cur_src_box);
                    match cpy {
                        Ok(_) => (),
                        Err(e) => {
                            proof {
                                assert(false);
                            }
                            return Err(e);
                        },
                    }
                    proof {
                        let blk = bl as int;
                        assert forall|x: int, y: int, z: int, k: int|
                            #![trigger dst_mat.voxel_byte(x - src_pos.x + dst_pos.x, y - src_pos.y + dst_pos.y, z - src_pos.z + dst_pos.z, k)]
                            src_pos.x <= x < src_end.x && src_pos.y <= y < src_end.y && src_pos.z
                                <= z < src_end.z && 0 <= k < pre.voxel_size
                                && it.yielded@.contains(self.block_index_of(x, y, z) as u64)
                                && self.voxel_known(x, y, z) implies dst_mat.voxel_byte(
                            x - src_pos.x + dst_pos.x,
                            y - src_pos.y + dst_pos.y,
                            z - src_pos.z + dst_pos.z,
                            k,
                        ) == self.file_voxel_byte(x, y, z, k) by {
                            lemma_block_coords(blk, x);
                            lemma_block_coords(blk, y);
                            lemma_block_coords(blk, z);
                            let b = self.block_index_of(x, y, z);
                            let bv = Vec3 {
                                x: (x / blk) as u32,
                                y: (y / blk) as u32,
                                z: (z / blk) as u32,
                            };
                            vstd::arithmetic::div_mod::lemma_div_is_ordered(x, flv - 1, blk);
                            vstd::arithmetic::div_mod::lemma_div_is_ordered(y, flv - 1, blk);
                            vstd::arithmetic::div_mod::lemma_div_is_ordered(z, flv - 1, blk);
                            crate::morton::lemma_encode_in_cube(
                                bv,
                                self.header.file_len_log2 as u32,
                            );
                            if b == cur_block_idx {
                                assert(spec_decode(cur_block_idx as u64) == bv);
                                assert(ids == bv);
                                lemma_block_of(blk, x, ids.x as int);
                                lemma_block_of(blk, y, ids.y as int);
                                lemma_block_of(blk, z, ids.z as int);
                                let rx = x - cur_box.min.x;
                                let ry = y - cur_box.min.y;
                                let rz = z - cur_box.min.z;
                                assert(dst_mat.voxel_byte(
                                    cur_dst_pos.x + rx,
                                    cur_dst_pos.y + ry,
                                    cur_dst_pos.z + rz,
                                    k,
                                ) == src_mat.voxel_byte(
                                    cur_src_box.min.x + rx,
                                    cur_src_box.min.y + ry,
                                    cur_src_box.min.z + rz,
                                    k,
                                ));
                                assert(x % blk == x - ids.x as int * blk && y % blk == y
                                    - ids.y as int * blk && z % blk == z - ids.z as int * blk);
                            } else {
                                assert(it_prev.yielded@.contains(b as u64)) by {
                                    assert(it.yielded@.contains(b as u64));
                                    let wi = choose|wi: int|
                                        0 <= wi < it.yielded@.len() && it.yielded@[wi] == (
                                        b as u64);
                                    assert(0 <= wi < it.yielded@.len() && it.yielded@[wi] == (
                                    b as u64));
                                    assert(it.yielded@ == it_prev.yielded@.push(cur_block_idx));
                                    if wi < it.yielded@.len() - 1 {
                                        assert(it.yielded@[wi] == it_prev.yielded@[wi]);
                                        assert(it_prev.yielded@[wi] == b as u64);
                                    } else {
                                        assert(it.yielded@[wi] == cur_block_idx);
                                        assert(false);
                                    }
                                }
                                crate::morton::lemma_decode_encode(bv);
                                crate::header::lemma_pow2_le(
                                    3 * self.header.file_len_log2 as nat,
                                    45,
                                );
                                vstd::arithmetic::power2::lemma2_to64_rest();
                                crate::morton::lemma_encode_decode(cur_block_idx);
                                assert(bv != ids);
                                lemma_block_of(blk, x, ids.x as int);
                                lemma_block_of(blk, y, ids.y as int);
                                lemma_block_of(blk, z, ids.z as int);
                                assert(!(cur_box.min.x <= x - src_pos.x + dst_pos.x - dst_pos.x
                                    + src_pos.x < cur_box.max.x && true) || true);
                                assert(dst_before.voxel_byte(
                                    x - src_pos.x + dst_pos.x,
                                    y - src_pos.y + dst_pos.y,
                                    z - src_pos.z + dst_pos.z,
                                    k,
                                ) == self.file_voxel_byte(x, y, z, k));
                                assert(!(ids.x as int * blk <= x < (ids.x + 1) * blk && ids.y as int
                                    * blk <= y < (ids.y + 1) * blk && ids.z as int * blk <= z < (
                                ids.z + 1) * blk));
                                assert(dst_mat.voxel_byte(
                                    x - src_pos.x + dst_pos.x,
                                    y - src_pos.y + dst_pos.y,
                                    z - src_pos.z + dst_pos.z,
                                    k,
                                ) == dst_before.voxel_byte(
                                    x - src_pos.x + dst_pos.x,
                                    y - src_pos.y + dst_pos.y,
                                    z - src_pos.z + dst_pos.z,
                                    k,
                                ));
                            }
                        }
                        assert forall|qx: int, qy: int, qz: int, k: int|
                            0 <= qx < pre.shape.x && 0 <= qy < pre.shape.y && 0 <= qz
                                < pre.shape.z && 0 <= k < pre.voxel_size && !(dst_pos.x <= qx
                                < src_end.x - src_pos.x + dst_pos.x && dst_pos.y <= qy < src_end.y
                                - src_pos.y + dst_pos.y && dst_pos.z <= qz < src_end.z - src_pos.z
                                + dst_pos.z) implies #[trigger] dst_mat.voxel_byte(qx, qy, qz, k)
                            == pre.voxel_byte(qx, qy, qz, k) by {
                            assert(dst_mat.voxel_byte(qx, qy, qz, k) == dst_before.voxel_byte(
                                qx,
                                qy,
                                qz,
                                k,
                            ));
                        }
                    }
                },
            }
        }
        proof {
            let blk = bl as int;
            assert forall|x: int, y: int, z: int, k: int|
                #![trigger dst_mat.voxel_byte(x - src_pos.x + dst_pos.x, y - src_pos.y + dst_pos.y, z - src_pos.z + dst_pos.z, k)]
                src_pos.x <= x < src_end.x && src_pos.y <= y < src_end.y && src_pos.z <= z
                    < src_end.z && 0 <= k < pre.voxel_size && self.voxel_known(
                    x,
                    y,
                    z,
                ) implies dst_mat.voxel_byte(
                x - src_pos.x + dst_pos.x,
                y - src_pos.y + dst_pos.y,
                z - src_pos.z + dst_pos.z,
                k,
            ) == self.file_voxel_byte(x, y, z, k) by {
                lemma_block_coords(blk, x);
                lemma_block_coords(blk, y);
                lemma_block_coords(blk, z);
                vstd::arithmetic::div_mod::lemma_div_is_ordered(src_pos.x as int, x, blk);
                vstd::arithmetic::div_mod::lemma_div_is_ordered(src_pos.y as int, y, blk);
                vstd::arithmetic::div_mod::lemma_div_is_ordered(src_pos.z as int, z, blk);
                vstd::arithmetic::div_mod::lemma_div_is_ordered(x, src_end.x - 1, blk);
                vstd::arithmetic::div_mod::lemma_div_is_ordered(y, src_end.y - 1, blk);
                vstd::arithmetic::div_mod::lemma_div_is_ordered(z, src_end.z - 1, blk);
                let bv = Vec3 { x: (x / blk) as u32, y: (y / blk) as u32, z: (z / blk) as u32 };
                crate::morton::lemma_encode_in_cube(bv, self.header.file_len_log2 as u32);
                assert(sbb.contains(bv));
                assert(crate::morton::in_query(
                    fl_log2 as nat,
                    sbb,
                    crate::morton::spec_encode(bv),
                ));
                assert(it.yielded@.contains(self.block_index_of(x, y, z) as u64));
            }
        }
        Ok(1)
    }
}


/// The clipped end of a request region along one axis, as executable code.
fn end_coord(flv: u32, sp: u32, sh: u32, dp: u32) -> (r: u32)
    requires
        dp <= sh,
    ensures
        r == region_end(flv as int, sp, sh, dp),
{
    let e = sp as u64 + sh as u64 - dp as u64;
    if e > flv as u64 {
        flv
    } else {
        e as u32
    }
}

/// A block is a cube of the block edge, and its byte size multiplies out.
proof fn lemma_block_cube(h: Header)
    requires
        h.wf(),
    ensures
        (Vec3 {
            x: h.spec_block_len() as u32,
            y: h.spec_block_len() as u32,
            z: h.spec_block_len() as u32,
        }).spec_product() == h.spec_block_vol(),
        h.spec_block_vol() * h.voxel_size == h.spec_block_size(),
        h.spec_block_vol() <= h.spec_block_size(),
        h.spec_block_len() <= 0x8000,
{
    vstd::arithmetic::power2::lemma_pow2_adds(
        h.block_len_log2 as nat,
        h.block_len_log2 as nat,
    );
    vstd::arithmetic::power2::lemma_pow2_adds(
        (h.block_len_log2 + h.block_len_log2) as nat,
        h.block_len_log2 as nat,
    );
    vstd::arithmetic::power2::lemma_pow2_pos(h.block_len_log2 as nat);
    crate::header::lemma_pow2_le(h.block_len_log2 as nat, 15);
    vstd::arithmetic::power2::lemma2_to64();
    let bl = h.spec_block_len();
    assert(bl * bl * bl == h.spec_block_vol()) by (nonlinear_arith)
        requires
            bl * bl == pow2i((h.block_len_log2 + h.block_len_log2) as nat) && pow2i(
                (h.block_len_log2 + h.block_len_log2) as nat,
            ) * bl == pow2i(
                (h.block_len_log2 + h.block_len_log2 + h.block_len_log2) as nat,
            ) && h.spec_block_vol() == pow2i(3 * h.block_len_log2 as nat),
    ;
    assert(h.spec_block_vol() * h.voxel_size == h.spec_block_size()) by (nonlinear_arith)
        requires
            h.spec_block_size() == h.voxel_size * h.spec_block_vol(),
    ;
    assert(h.spec_block_vol() <= h.spec_block_vol() * h.voxel_size) by (nonlinear_arith)
        requires
            h.voxel_size >= 1 && h.spec_block_vol() >= 0,
    ;
}


impl File {
    /// The column-major write path: the box of voxels of `src_mat` from
    /// `src_pos` lands in the file at `dst_pos`, clipped to the file edge.
    fn write_mat_fortran(&mut self, dst_pos: Vec3, src_mat: &Mat, src_pos: Vec3) -> (r: Result<
        usize,
        WkwError,
    >)
        requires
            old(self).wf(),
            src_mat.wf(),
            !src_mat.data_in_c_order,
            src_mat.voxel_size == old(self).header.voxel_size,
            src_mat.voxel_type == old(self).header.voxel_type,
            dst_pos.x < old(self).header.spec_file_len_vx(),
            dst_pos.y < old(self).header.spec_file_len_vx(),
            dst_pos.z < old(self).header.spec_file_len_vx(),
            src_pos.all_le(src_mat.shape),
            old(self).bs() <= 0x7fffffff,
            old(self).header.spec_file_size() <= usize::MAX,
            old(self).header.block_type.is_compressed() ==> dst_pos == (Vec3 { x: 0, y: 0, z: 0 })
                && region_end(
                old(self).header.spec_file_len_vx(),
                0,
                src_mat.shape.x,
                src_pos.x,
            ) == old(self).header.spec_file_len_vx() && region_end(
                old(self).header.spec_file_len_vx(),
                0,
                src_mat.shape.y,
                src_pos.y,
            ) == old(self).header.spec_file_len_vx() && region_end(
                old(self).header.spec_file_len_vx(),
                0,
                src_mat.shape.z,
                src_pos.z,
            ) == old(self).header.spec_file_len_vx(),
        ensures
            final(self).wf(),
            final(self).header.version == old(self).header.version,
            final(self).header.block_len_log2 == old(self).header.block_len_log2,
            final(self).header.file_len_log2 == old(self).header.file_len_log2,
            final(self).header.block_type == old(self).header.block_type,
            final(self).header.voxel_type == old(self).header.voxel_type,
            final(self).header.voxel_size == old(self).header.voxel_size,
            final(self).header.data_offset == old(self).header.data_offset,
            !old(self).header.block_type.is_compressed() ==> r is Ok,
            old(self).header.block_type.is_compressed() && old(self).bs() <= 0x7e000000 ==> r
                is Ok,
            r is Err ==> *final(self) == *old(self),
            r is Ok ==> (forall|x: int, y: int, z: int, k: int|
                #![trigger final(self).file_voxel_byte(x, y, z, k)]
                {
                    let flv = old(self).header.spec_file_len_vx();
                    dst_pos.x <= x < region_end(flv, dst_pos.x, src_mat.shape.x, src_pos.x)
                        && dst_pos.y <= y < region_end(flv, dst_pos.y, src_mat.shape.y, src_pos.y)
                        && dst_pos.z <= z < region_end(flv, dst_pos.z, src_mat.shape.z, src_pos.z)
                        && 0 <= k < old(self).header.voxel_size ==> final(self).voxel_known(
                        x,
                        y,
                        z,
                    ) && final(self).file_voxel_byte(x, y, z, k) == src_mat.voxel_byte(
                        x - dst_pos.x + src_pos.x,
                        y - dst_pos.y + src_pos.y,
                        z - dst_pos.z + src_pos.z,
                        k,
                    )
                }),
            r is Ok ==> (forall|x: int, y: int, z: int|
                #![trigger final(self).voxel_known(x, y, z)]
                {
                    let flv = old(self).header.spec_file_len_vx();
                    dst_pos.x <= x < region_end(flv, dst_pos.x, src_mat.shape.x, src_pos.x)
                        && dst_pos.y <= y < region_end(flv, dst_pos.y, src_mat.shape.y, src_pos.y)
                        && dst_pos.z <= z < region_end(flv, dst_pos.z, src_mat.shape.z, src_pos.z)
                        ==> final(self).voxel_known(x, y, z)
                }),
            r is Ok && !old(self).header.block_type.is_compressed() ==> (forall|
                x: int,
                y: int,
                z: int,
                k: int,
            |
                #![trigger final(self).file_voxel_byte(x, y, z, k)]
                {
                    let flv = old(self).header.spec_file_len_vx();
                    0 <= x < flv && 0 <= y < flv && 0 <= z < flv && 0 <= k < old(
                        self,
                    ).header.voxel_size && !(dst_pos.x <= x < region_end(
                        flv,
                        dst_pos.x,
                        src_mat.shape.x,
                        src_pos.x,
                    ) && dst_pos.y <= y < region_end(flv, dst_pos.y, src_mat.shape.y, src_pos.y)
                        && dst_pos.z <= z < region_end(
                        flv,
                        dst_pos.z,
                        src_mat.shape.z,
                        src_pos.z,
                    )) ==> final(self).file_voxel_byte(x, y, z, k) == old(self).file_voxel_byte(
                        x,
                        y,
                        z,
                        k,
                    )
                }),
    {
        if self.header.block_type.compressed() {
            let r = self.write_mat_lz4(src_mat, src_pos);
            proof {
                if r is Ok {
                    let flv = old(self).header.spec_file_len_vx();
                    assert forall|x: int, y: int, z: int, k: int|
                        #![trigger self.file_voxel_byte(x, y, z, k)]
                        dst_pos.x <= x < region_end(flv, dst_pos.x, src_mat.shape.x, src_pos.x)
                            && dst_pos.y <= y < region_end(
                            flv,
                            dst_pos.y,
                            src_mat.shape.y,
                            src_pos.y,
                        ) && dst_pos.z <= z < region_end(flv, dst_pos.z, src_mat.shape.z, src_pos.z)
                            && 0 <= k < old(self).header.voxel_size implies self.voxel_known(
                        x,
                        y,
                        z,
                    ) && self.file_voxel_byte(x, y, z, k) == src_mat.voxel_byte(
                        x - dst_pos.x + src_pos.x,
                        y - dst_pos.y + src_pos.y,
                        z - dst_pos.z + src_pos.z,
                        k,
                    ) by {
                        assert(old(self).header.block_type.is_compressed());
                        assert(dst_pos == (Vec3 { x: 0, y: 0, z: 0 }));
                        assert(region_end(flv, 0, src_mat.shape.x, src_pos.x) == flv);
                        assert(self.voxel_known(x, y, z));
                        assert(self.file_voxel_byte(x, y, z, k) == src_mat.voxel_byte(
                            x + src_pos.x,
                            y + src_pos.y,
                            z + src_pos.z,
                            k,
                        ));
                        assert(x + src_pos.x == x - dst_pos.x + src_pos.x && y + src_pos.y == y
                            - dst_pos.y + src_pos.y && z + src_pos.z == z - dst_pos.z
                            + src_pos.z);
                    }
                }
            }
            r
        } else {
            self.write_mat_raw(dst_pos, src_mat, src_pos)
        }
    }
}


impl File {
    /// The raw write path: read-modify-write of every touched block, in
    /// Morton order.
    #[verifier::rlimit(100)]
    fn write_mat_raw(&mut self, dst_pos: Vec3, src_mat: &Mat, src_pos: Vec3) -> (r: Result<
        usize,
        WkwError,
    >)
        requires
            old(self).wf(),
            !old(self).header.block_type.is_compressed(),
            src_mat.wf(),
            !src_mat.data_in_c_order,
            src_mat.voxel_size == old(self).header.voxel_size,
            src_mat.voxel_type == old(self).header.voxel_type,
            dst_pos.x < old(self).header.spec_file_len_vx(),
            dst_pos.y < old(self).header.spec_file_len_vx(),
            dst_pos.z < old(self).header.spec_file_len_vx(),
            src_pos.all_le(src_mat.shape),
            old(self).bs() <= 0x7fffffff,
        ensures
            final(self).wf(),
            final(self).header == old(self).header,
            r is Ok,
            forall|x: int, y: int, z: int, k: int|
                #![trigger final(self).file_voxel_byte(x, y, z, k)]
                {
                    let flv = old(self).header.spec_file_len_vx();
                    dst_pos.x <= x < region_end(flv, dst_pos.x, src_mat.shape.x, src_pos.x)
                        && dst_pos.y <= y < region_end(flv, dst_pos.y, src_mat.shape.y, src_pos.y)
                        && dst_pos.z <= z < region_end(flv, dst_pos.z, src_mat.shape.z, src_pos.z)
                        && 0 <= k < old(self).header.voxel_size ==> final(self).voxel_known(
                        x,
                        y,
                        z,
                    ) && final(self).file_voxel_byte(x, y, z, k) == src_mat.voxel_byte(
                        x - dst_pos.x + src_pos.x,
                        y - dst_pos.y + src_pos.y,
                        z - dst_pos.z + src_pos.z,
                        k,
                    )
                },
            forall|x: int, y: int, z: int, k: int|
                #![trigger final(self).file_voxel_byte(x, y, z, k)]
                {
                    let flv = old(self).header.spec_file_len_vx();
                    0 <= x < flv && 0 <= y < flv && 0 <= z < flv && 0 <= k < old(
                        self,
                    ).header.voxel_size && !(dst_pos.x <= x < region_end(
                        flv,
                        dst_pos.x,
                        src_mat.shape.x,
                        src_pos.x,
                    ) && dst_pos.y <= y < region_end(flv, dst_pos.y, src_mat.shape.y, src_pos.y)
                        && dst_pos.z <= z < region_end(
                        flv,
                        dst_pos.z,
                        src_mat.shape.z,
                        src_pos.z,
                    )) ==> final(self).file_voxel_byte(x, y, z, k) == old(self).file_voxel_byte(
                        x,
                        y,
                        z,
                        k,
                    )
                },
    {
        let ghost fpre = *self;
        proof {
            lemma_last_block(self.header);
            crate::header::lemma_file_geometry(self.header);
        }
        let flv = self.header.file_len_vx();
        let ex = end_coord(flv, dst_pos.x, src_mat.shape.x, src_pos.x);
        let ey = end_coord(flv, dst_pos.y, src_mat.shape.y, src_pos.y);
        let ez = end_coord(flv, dst_pos.z, src_mat.shape.z, src_pos.z);
        let dst_end = Vec3 { x: ex, y: ey, z: ez };
        let dst_box = match Box3::new(dst_pos, dst_end) {
            Ok(b) => b,
            Err(e) => {
                proof {
                    assert(false);
                }
                return Err(e);
            },
        };
        if dst_box.is_empty() {
            return Ok(1);
        }
        let bl_log2 = self.header.block_len_log2 as u32;
        let fl_log2 = self.header.file_len_log2 as u32;
        let bl = self.header.block_len() as u32;
        proof {
            crate::morton::shl1_is_pow2_u32(bl_log2);
            let blk = self.header.spec_block_len();
            vstd::arithmetic::div_mod::lemma_div_is_ordered(dst_pos.x as int, dst_end.x - 1, blk);
            vstd::arithmetic::div_mod::lemma_div_is_ordered(dst_pos.y as int, dst_end.y - 1, blk);
            vstd::arithmetic::div_mod::lemma_div_is_ordered(dst_pos.z as int, dst_end.z - 1, blk);
            vstd::arithmetic::div_mod::lemma_div_is_ordered(
                dst_end.x - 1,
                self.header.spec_file_len_vx() - 1,
                blk,
            );
            vstd::arithmetic::div_mod::lemma_div_is_ordered(
                dst_end.y - 1,
                self.header.spec_file_len_vx() - 1,
                blk,
            );
            vstd::arithmetic::div_mod::lemma_div_is_ordered(
                dst_end.z - 1,
                self.header.spec_file_len_vx() - 1,
                blk,
            );
            lemma_block_coords(blk, dst_pos.x as int);
            lemma_block_coords(blk, dst_pos.y as int);
            lemma_block_coords(blk, dst_pos.z as int);
            lemma_block_coords(blk, dst_end.x - 1);
            lemma_block_coords(blk, dst_end.y - 1);
            lemma_block_coords(blk, dst_end.z - 1);
        }
        let sbb = match Box3::new(
            dst_pos.shr(bl_log2),
            dst_box.max().sub(Vec3::splat(1)).shr(bl_log2).add(Vec3::splat(1)),
        ) {
            Ok(b) => b,
            Err(e) => {
                proof {
                    assert(false);
                }
                return Err(e);
            },
        };
        proof {
            crate::header::lemma_pow2_le(
                self.header.file_len_log2 as nat,
                (self.header.block_len_log2 + self.header.file_len_log2) as nat,
            );
        }
        let mut it = match crate::morton::Iter::new(fl_log2, sbb) {
            Ok(i) => i,
            Err(e) => {
                proof {
                    assert(false);
                }
                return Err(e);
            },
        };
        let vs = self.header.voxel_size as usize;
        let bs = self.header.block_size();
        proof {
            assert(self.header.spec_file_len() * bl as int == flv) by (nonlinear_arith)
                requires
                    bl as int * self.header.spec_file_len() == flv,
            ;
        }
        loop
            invariant_except_break
                it.wf(),
                it.log2 == fl_log2,
                it.bbox == sbb,
                self.wf(),
                self.header == fpre.header,
                fpre.wf(),
                !self.header.block_type.is_compressed(),
                self.bs() <= 0x7fffffff,
                fpre == *old(self),
                src_mat.wf(),
                !src_mat.data_in_c_order,
                src_mat.voxel_size == self.header.voxel_size,
                src_mat.voxel_type == self.header.voxel_type,
                src_pos.all_le(src_mat.shape),
                flv == self.header.spec_file_len_vx(),
                bl == self.header.spec_block_len(),
                bl_log2 == self.header.block_len_log2,
                fl_log2 == self.header.file_len_log2,
                vs == self.header.voxel_size,
                bs == self.bs(),
                dst_end.x == region_end(flv as int, dst_pos.x, src_mat.shape.x, src_pos.x),
                dst_end.y == region_end(flv as int, dst_pos.y, src_mat.shape.y, src_pos.y),
                dst_end.z == region_end(flv as int, dst_pos.z, src_mat.shape.z, src_pos.z),
                dst_box == (Box3 { min: dst_pos, max: dst_end }),
                dst_pos.all_lt(dst_end),
                dst_end.x <= flv && dst_end.y <= flv && dst_end.z <= flv,
                sbb.min.x == dst_pos.x as int / bl as int,
                sbb.min.y == dst_pos.y as int / bl as int,
                sbb.min.z == dst_pos.z as int / bl as int,
                sbb.max.x == (dst_end.x - 1) / bl as int + 1,
                sbb.max.y == (dst_end.y - 1) / bl as int + 1,
                sbb.max.z == (dst_end.z - 1) / bl as int + 1,
                sbb.max.x <= self.header.spec_file_len(),
                sbb.max.y <= self.header.spec_file_len(),
                sbb.max.z <= self.header.spec_file_len(),
                self.header.spec_file_len() * bl as int == flv,
                (flv - 1) as int / (bl as int) == self.header.spec_file_len() - 1,
                bl >= 1,
                forall|x: int, y: int, z: int, k: int|
                    #![trigger self.file_voxel_byte(x, y, z, k)]
                    dst_pos.x <= x < dst_end.x && dst_pos.y <= y < dst_end.y && dst_pos.z <= z
                        < dst_end.z && 0 <= k < vs && it.yielded@.contains(
                        self.block_index_of(x, y, z) as u64,
                    ) ==> self.file_voxel_byte(x, y, z, k) == src_mat.voxel_byte(
                        x - dst_pos.x + src_pos.x,
                        y - dst_pos.y + src_pos.y,
                        z - dst_pos.z + src_pos.z,
                        k,
                    ),
                forall|x: int, y: int, z: int, k: int|
                    #![trigger self.file_voxel_byte(x, y, z, k)]
                    0 <= x < flv && 0 <= y < flv && 0 <= z < flv && 0 <= k < vs && !(dst_pos.x
                        <= x < dst_end.x && dst_pos.y <= y < dst_end.y && dst_pos.z <= z
                        < dst_end.z && it.yielded@.contains(self.block_index_of(x, y, z) as u64))
                        ==> self.file_voxel_byte(x, y, z, k) == fpre.file_voxel_byte(x, y, z, k),
            ensures
                self.wf(),
                self.header == fpre.header,
                !self.header.block_type.is_compressed(),
                forall|kk: u64|
                    #[trigger] crate::morton::in_query(fl_log2 as nat, sbb, kk)
                        ==> it.yielded@.contains(kk),
                forall|x: int, y: int, z: int, k: int|
                    #![trigger self.file_voxel_byte(x, y, z, k)]
                    dst_pos.x <= x < dst_end.x && dst_pos.y <= y < dst_end.y && dst_pos.z <= z
                        < dst_end.z && 0 <= k < vs && it.yielded@.contains(
                        self.block_index_of(x, y, z) as u64,
                    ) ==> self.file_voxel_byte(x, y, z, k) == src_mat.voxel_byte(
                        x - dst_pos.x + src_pos.x,
                        y - dst_pos.y + src_pos.y,
                        z - dst_pos.z + src_pos.z,
                        k,
                    ),
                forall|x: int, y: int, z: int, k: int|
                    #![trigger self.file_voxel_byte(x, y, z, k)]
                    0 <= x < flv && 0 <= y < flv && 0 <= z < flv && 0 <= k < vs && !(dst_pos.x
                        <= x < dst_end.x && dst_pos.y <= y < dst_end.y && dst_pos.z <= z
                        < dst_end.z && it.yielded@.contains(self.block_index_of(x, y, z) as u64))
                        ==> self.file_voxel_byte(x, y, z, k) == fpre.file_voxel_byte(x, y, z, k),
            decreases crate::morton::max_index(fl_log2 as nat) - it.idx,
        {
            let ghost it_prev = it;
            let next = it.next();
            match next {
                None => {
                    break ;
                },
                Some(cur_block_idx) => {
                    proof {
                        crate::morton::lemma_decode_bounds(cur_block_idx);
                    }
                    let ids = crate::morton::Morton::new(cur_block_idx).decode();
                    proof {
                        lemma_last_block(self.header);
                        let blk = bl as int;
                        assert(pow2i(bl_log2 as nat) == bl as int);
                        assert(ids.x < self.header.spec_file_len() && ids.y
                            < self.header.spec_file_len() && ids.z < self.header.spec_file_len());
                        assert((ids.x + 1) * blk <= self.header.spec_file_len_vx() && (ids.y + 1)
                            * blk <= self.header.spec_file_len_vx() && (ids.z + 1) * blk
                            <= self.header.spec_file_len_vx()) by (nonlinear_arith)
                            requires
                                ids.x + 1 <= self.header.spec_file_len() && ids.y + 1
                                    <= self.header.spec_file_len() && ids.z + 1
                                    <= self.header.spec_file_len() && blk >= 1
                                    && self.header.spec_file_len() * blk
                                    == self.header.spec_file_len_vx(),
                        ;
                        crate::header::lemma_pow2_le(
                            (self.header.block_len_log2 + self.header.file_len_log2) as nat,
                            18,
                        );
                        vstd::arithmetic::power2::lemma2_to64();
                        assert(ids.x * blk <= (ids.x + 1) * blk && ids.y * blk <= (ids.y + 1)
                            * blk && ids.z * blk <= (ids.z + 1) * blk) by (nonlinear_arith)
                            requires
                                blk >= 1 && ids.x >= 0 && ids.y >= 0 && ids.z >= 0,
                        ;
                    }
                    let bmin = ids.shl(bl_log2);
                    let bmax = ids.add(Vec3::splat(1)).shl(bl_log2);
                    let cur_block_box = match Box3::new(bmin, bmax) {
                        Ok(b) => b,
                        Err(e) => {
                            proof {
                                assert(false);
                            }
                            return Err(e);
                        },
                    };
                    let cur_box = cur_block_box.intersect(dst_box);
                    proof {
                        let blk = bl as int;
                        lemma_block_coords(blk, dst_pos.x as int);
                        lemma_block_coords(blk, dst_pos.y as int);
                        lemma_block_coords(blk, dst_pos.z as int);
                        lemma_block_coords(blk, dst_end.x - 1);
                        lemma_block_coords(blk, dst_end.y - 1);
                        lemma_block_coords(blk, dst_end.z - 1);
                        assert(ids.x as int * blk <= dst_end.x - 1 && ids.y as int * blk
                            <= dst_end.y - 1 && ids.z as int * blk <= dst_end.z - 1)
                            by (nonlinear_arith)
                            requires
                                ids.x <= (dst_end.x - 1) / blk && ids.y <= (dst_end.y - 1) / blk
                                    && ids.z <= (dst_end.z - 1) / blk && blk >= 1 && ((dst_end.x
                                    - 1) / blk) * blk <= dst_end.x - 1 && ((dst_end.y - 1) / blk)
                                    * blk <= dst_end.y - 1 && ((dst_end.z - 1) / blk) * blk
                                    <= dst_end.z - 1,
                        ;
                        assert(dst_pos.x < (ids.x + 1) * blk && dst_pos.y < (ids.y + 1) * blk
                            && dst_pos.z < (ids.z + 1) * blk) by (nonlinear_arith)
                            requires
                                dst_pos.x as int / blk <= ids.x && dst_pos.y as int / blk <= ids.y
                                    && dst_pos.z as int / blk <= ids.z && blk >= 1
                                    && (dst_pos.x as int) < (dst_pos.x as int / blk + 1) * blk
                                    && (dst_pos.y as int) < (dst_pos.y as int / blk + 1) * blk
                                    && (dst_pos.z as int) < (dst_pos.z as int / blk + 1) * blk,
                        ;
                        assert(bmax.x - bmin.x == blk && bmax.y - bmin.y == blk && bmax.z
                            - bmin.z == blk) by (nonlinear_arith)
                            requires
                                bmin.x == ids.x * blk && bmax.x == (ids.x + 1) * blk && bmin.y
                                    == ids.y * blk && bmax.y == (ids.y + 1) * blk && bmin.z
                                    == ids.z * blk && bmax.z == (ids.z + 1) * blk,
                        ;
                        assert(!cur_box.spec_is_empty());
                        assert(cur_box.min.x >= bmin.x && cur_box.min.y >= bmin.y && cur_box.min.z
                            >= bmin.z);
                        assert(cur_box.max.x <= bmax.x && cur_box.max.y <= bmax.y && cur_box.max.z
                            <= bmax.z);
                    }
                    let full = cur_box == cur_block_box;
                    let buf: Vec<u8> = if full {
                        let v = vec![0u8; bs as usize];
                        v
                    } else {
                        match self.read_block(cur_block_idx) {
                            Ok(b) => b,
                            Err(e) => {
                                proof {
                                    assert(false);
                                }
                                return Err(e);
                            },
                        }
                    };
                    proof {
                        lemma_block_cube(self.header);
                    }
                    let mut scratch = match Mat::new(
                        buf,
                        Vec3 { x: bl, y: bl, z: bl },
                        vs,
                        self.header.voxel_type,
                        false,
                    ) {
                        Ok(m) => m,
                        Err(e) => {
                            proof {
                                assert(false);
                            }
                            return Err(e);
                        },
                    };
                    let ghost scratch_pre = scratch;
                    let cur_dst_in_block = cur_box.min().sub(bmin);
                    let cur_src_box = match Box3::new(
                        cur_box.min().sub(dst_pos).add(src_pos),
                        cur_box.max().sub(dst_pos).add(src_pos),
                    ) {
                        Ok(b) => b,
                        Err(e) => {
                            proof {
                                assert(false);
                            }
                            return Err(e);
                        },
                    };
                    let cpy = scratch.copy_from(cur_dst_in_block, src_mat, cur_src_box);
                    match cpy {
                        Ok(_) => (),
                        Err(e) => {
                            proof {
                                assert(false);
                            }
                            return Err(e);
                        },
                    }
                    let ghost scratch_after = scratch;
                    let data = scratch.into_bytes();
                    let ghost self_before = *self;
                    let wrote = self.write_block_raw(cur_block_idx, &data);
                    match wrote {
                        Ok(_) => (),
                        Err(e) => {
                            proof {
                                assert(false);
                            }
                            return Err(e);
                        },
                    }
                    proof {
                        let blk = bl as int;
                        crate::header::lemma_pow2_le(3 * self.header.file_len_log2 as nat, 45);
                        crate::header::lemma_pow2_le(self.header.file_len_log2 as nat, 15);
                        crate::header::lemma_pow2_le(self.header.block_len_log2 as nat, 15);
                        vstd::arithmetic::power2::lemma2_to64();
                        vstd::arithmetic::power2::lemma2_to64_rest();
                        crate::morton::lemma_encode_decode(cur_block_idx);
                        assert(cur_box.min.x >= dst_pos.x && cur_box.min.y >= dst_pos.y
                            && cur_box.min.z >= dst_pos.z);
                        assert((Box3 {
                            min: Vec3 {
                                x: (ids.x * blk) as u32,
                                y: (ids.y * blk) as u32,
                                z: (ids.z * blk) as u32,
                            },
                            max: Vec3 {
                                x: ((ids.x + 1) * blk) as u32,
                                y: ((ids.y + 1) * blk) as u32,
                                z: ((ids.z + 1) * blk) as u32,
                            },
                        }) == cur_block_box);
                        assert forall|x: int, y: int, z: int|
                            0 <= x < 0x100000000 && 0 <= y < 0x100000000 && 0 <= z
                                < 0x100000000 implies (#[trigger] cur_box.contains(
                            Vec3 { x: x as u32, y: y as u32, z: z as u32 },
                        ) <==> (ids.x * blk <= x < (ids.x + 1) * blk && ids.y * blk <= y < (ids.y
                            + 1) * blk && ids.z * blk <= z < (ids.z + 1) * blk && dst_pos.x <= x
                            < dst_end.x && dst_pos.y <= y < dst_end.y && dst_pos.z <= z
                            < dst_end.z)) by {
                            crate::vec3::lemma_intersect_contains(
                                cur_block_box,
                                dst_box,
                                Vec3 { x: x as u32, y: y as u32, z: z as u32 },
                            );
                        }
                        lemma_write_step(
                            *self,
                            self_before,
                            fpre,
                            *src_mat,
                            scratch_pre,
                            scratch_after,
                            cur_block_idx,
                            ids,
                            cur_box,
                            dst_pos,
                            dst_end,
                            src_pos,
                            it_prev.yielded@,
                            it.yielded@,
                            flv as int,
                            blk,
                        );
                    }
                },
            }
        }
        proof {
            let blk = bl as int;
            assert forall|x: int, y: int, z: int, k: int|
                #![trigger self.file_voxel_byte(x, y, z, k)]
                dst_pos.x <= x < dst_end.x && dst_pos.y <= y < dst_end.y && dst_pos.z <= z
                    < dst_end.z && 0 <= k < vs implies self.file_voxel_byte(x, y, z, k)
                == src_mat.voxel_byte(
                x - dst_pos.x + src_pos.x,
                y - dst_pos.y + src_pos.y,
                z - dst_pos.z + src_pos.z,
                k,
            ) && self.voxel_known(x, y, z) by {
                lemma_block_coords(blk, x);
                lemma_block_coords(blk, y);
                lemma_block_coords(blk, z);
                vstd::arithmetic::div_mod::lemma_div_is_ordered(dst_pos.x as int, x, blk);
                vstd::arithmetic::div_mod::lemma_div_is_ordered(dst_pos.y as int, y, blk);
                vstd::arithmetic::div_mod::lemma_div_is_ordered(dst_pos.z as int, z, blk);
                vstd::arithmetic::div_mod::lemma_div_is_ordered(x, dst_end.x - 1, blk);
                vstd::arithmetic::div_mod::lemma_div_is_ordered(y, dst_end.y - 1, blk);
                vstd::arithmetic::div_mod::lemma_div_is_ordered(z, dst_end.z - 1, blk);
                let bv = Vec3 { x: (x / blk) as u32, y: (y / blk) as u32, z: (z / blk) as u32 };
                crate::morton::lemma_encode_in_cube(bv, self.header.file_len_log2 as u32);
                assert(sbb.contains(bv));
                assert(crate::morton::in_query(
                    fl_log2 as nat,
                    sbb,
                    crate::morton::spec_encode(bv),
                ));
                assert(it.yielded@.contains(self.block_index_of(x, y, z) as u64));
            }
        }
        Ok(1)
    }
}


/// One step of the raw write loop: after splicing the source region into
/// block `cur_block_idx` and writing it back, every region voxel of a
/// yielded block holds its source bytes and every other voxel of the file
/// holds its original bytes.
#[verifier::rlimit(100)]
proof fn lemma_write_step(
    cur: File,
    before: File,
    fpre: File,
    src: Mat,
    scratch_pre: Mat,
    scratch_after: Mat,
    cur_block_idx: u64,
    ids: Vec3,
    cur_box: Box3,
    dst_pos: Vec3,
    dst_end: Vec3,
    src_pos: Vec3,
    yielded_prev: Seq<u64>,
    yielded: Seq<u64>,
    flv: int,
    blk: int,
)
    requires
        cur.header == before.header,
        before.header == fpre.header,
        cur.wf(),
        !cur.header.block_type.is_compressed(),
        blk == cur.header.spec_block_len(),
        flv == cur.header.spec_file_len_vx(),
        cur.header.spec_file_len() * blk == flv,
        ids == spec_decode(cur_block_idx),
        cur_block_idx < 0x8000000000000000,
        spec_encode(ids) == cur_block_idx,
        ids.x < cur.header.spec_file_len(),
        ids.y < cur.header.spec_file_len(),
        ids.z < cur.header.spec_file_len(),
        cur_box.wf(),
        !cur_box.spec_is_empty(),
        ids.x * blk <= cur_box.min.x,
        ids.y * blk <= cur_box.min.y,
        ids.z * blk <= cur_box.min.z,
        cur_box.max.x <= (ids.x + 1) * blk,
        cur_box.max.y <= (ids.y + 1) * blk,
        cur_box.max.z <= (ids.z + 1) * blk,
        dst_pos.all_le(cur_box.min),
        cur_box.max.x <= dst_end.x,
        cur_box.max.y <= dst_end.y,
        cur_box.max.z <= dst_end.z,
        dst_end.x <= flv && dst_end.y <= flv && dst_end.z <= flv,
        dst_end.x - dst_pos.x + src_pos.x <= u32::MAX,
        dst_end.y - dst_pos.y + src_pos.y <= u32::MAX,
        dst_end.z - dst_pos.z + src_pos.z <= u32::MAX,
        1 <= blk <= 0x8000,
        flv <= 0x40000,
        cur.header.spec_file_len() <= 0x8000,
        forall|x: int, y: int, z: int|
            #![trigger cur_box.contains(Vec3 { x: x as u32, y: y as u32, z: z as u32 })]
            0 <= x < 0x100000000 && 0 <= y < 0x100000000 && 0 <= z < 0x100000000 ==> (cur_box.contains(
                Vec3 { x: x as u32, y: y as u32, z: z as u32 },
            ) <==> (ids.x * blk <= x < (ids.x + 1) * blk && ids.y * blk <= y < (ids.y + 1) * blk
                && ids.z * blk <= z < (ids.z + 1) * blk && dst_pos.x <= x < dst_end.x && dst_pos.y
                <= y < dst_end.y && dst_pos.z <= z < dst_end.z)),
        scratch_after.shape == (Vec3 { x: blk as u32, y: blk as u32, z: blk as u32 }),
        scratch_pre.shape == scratch_after.shape,
        scratch_after.voxel_size == cur.header.voxel_size,
        scratch_pre.voxel_size == scratch_after.voxel_size,
        !scratch_after.data_in_c_order,
        !scratch_pre.data_in_c_order,
        crate::mat::region_copied(
            scratch_after,
            src,
            Vec3 {
                x: (cur_box.min.x - ids.x * blk) as u32,
                y: (cur_box.min.y - ids.y * blk) as u32,
                z: (cur_box.min.z - ids.z * blk) as u32,
            },
            Vec3 {
                x: (cur_box.min.x - dst_pos.x + src_pos.x) as u32,
                y: (cur_box.min.y - dst_pos.y + src_pos.y) as u32,
                z: (cur_box.min.z - dst_pos.z + src_pos.z) as u32,
            },
            crate::mat::spec_width(cur_box),
        ),
        crate::mat::region_untouched(
            scratch_after,
            scratch_pre,
            Vec3 {
                x: (cur_box.min.x - ids.x * blk) as u32,
                y: (cur_box.min.y - ids.y * blk) as u32,
                z: (cur_box.min.z - ids.z * blk) as u32,
            },
            crate::mat::spec_width(cur_box),
        ),
        cur_box != (Box3 {
            min: Vec3 { x: (ids.x * blk) as u32, y: (ids.y * blk) as u32, z: (ids.z * blk) as u32 },
            max: Vec3 {
                x: ((ids.x + 1) * blk) as u32,
                y: ((ids.y + 1) * blk) as u32,
                z: ((ids.z + 1) * blk) as u32,
            },
        }) ==> before.block_content(cur_block_idx as int) == Some(scratch_pre.data@),
        cur.block_content(cur_block_idx as int) == Some(scratch_after.data@),
        forall|j: int|
            0 <= j < cur.vol() && j != cur_block_idx ==> #[trigger] cur.block_content(j)
                == before.block_content(j),
        yielded == yielded_prev.push(cur_block_idx),
        forall|x: int, y: int, z: int, k: int|
            #![trigger before.file_voxel_byte(x, y, z, k)]
            dst_pos.x <= x < dst_end.x && dst_pos.y <= y < dst_end.y && dst_pos.z <= z < dst_end.z
                && 0 <= k < cur.header.voxel_size && yielded_prev.contains(
                before.block_index_of(x, y, z) as u64,
            ) ==> before.file_voxel_byte(x, y, z, k) == src.voxel_byte(
                x - dst_pos.x + src_pos.x,
                y - dst_pos.y + src_pos.y,
                z - dst_pos.z + src_pos.z,
                k,
            ),
        forall|x: int, y: int, z: int, k: int|
            #![trigger before.file_voxel_byte(x, y, z, k)]
            0 <= x < flv && 0 <= y < flv && 0 <= z < flv && 0 <= k < cur.header.voxel_size && !(
            dst_pos.x <= x < dst_end.x && dst_pos.y <= y < dst_end.y && dst_pos.z <= z < dst_end.z
                && yielded_prev.contains(before.block_index_of(x, y, z) as u64))
                ==> before.file_voxel_byte(x, y, z, k) == fpre.file_voxel_byte(x, y, z, k),
    ensures
        forall|x: int, y: int, z: int, k: int|
            #![trigger cur.file_voxel_byte(x, y, z, k)]
            dst_pos.x <= x < dst_end.x && dst_pos.y <= y < dst_end.y && dst_pos.z <= z < dst_end.z
                && 0 <= k < cur.header.voxel_size && yielded.contains(
                cur.block_index_of(x, y, z) as u64,
            ) ==> cur.file_voxel_byte(x, y, z, k) == src.voxel_byte(
                x - dst_pos.x + src_pos.x,
                y - dst_pos.y + src_pos.y,
                z - dst_pos.z + src_pos.z,
                k,
            ),
        forall|x: int, y: int, z: int, k: int|
            #![trigger cur.file_voxel_byte(x, y, z, k)]
            0 <= x < flv && 0 <= y < flv && 0 <= z < flv && 0 <= k < cur.header.voxel_size && !(
            dst_pos.x <= x < dst_end.x && dst_pos.y <= y < dst_end.y && dst_pos.z <= z < dst_end.z
                && yielded.contains(cur.block_index_of(x, y, z) as u64)) ==> cur.file_voxel_byte(
                x,
                y,
                z,
                k,
            ) == fpre.file_voxel_byte(x, y, z, k),
{
    let vsz = cur.header.voxel_size as int;
    let fl = cur.header.spec_file_len();
    assert forall|x: int, y: int, z: int, k: int|
        #![trigger cur.file_voxel_byte(x, y, z, k)]
        dst_pos.x <= x < dst_end.x && dst_pos.y <= y < dst_end.y && dst_pos.z <= z < dst_end.z
            && 0 <= k < vsz && yielded.contains(
            cur.block_index_of(x, y, z) as u64,
        ) implies cur.file_voxel_byte(x, y, z, k) == src.voxel_byte(
        x - dst_pos.x + src_pos.x,
        y - dst_pos.y + src_pos.y,
        z - dst_pos.z + src_pos.z,
        k,
    ) by {
        lemma_block_coords(blk, x);
        lemma_block_coords(blk, y);
        lemma_block_coords(blk, z);
        vstd::arithmetic::div_mod::lemma_div_is_ordered(x, flv - 1, blk);
        vstd::arithmetic::div_mod::lemma_div_is_ordered(y, flv - 1, blk);
        vstd::arithmetic::div_mod::lemma_div_is_ordered(z, flv - 1, blk);
        lemma_last_block(cur.header);
        let b = cur.block_index_of(x, y, z);
        let bv = Vec3 { x: (x / blk) as u32, y: (y / blk) as u32, z: (z / blk) as u32 };
        crate::morton::lemma_encode_in_cube(bv, cur.header.file_len_log2 as u32);
        if b == cur_block_idx {
            assert(bv == ids);
            lemma_block_of(blk, x, ids.x as int);
            lemma_block_of(blk, y, ids.y as int);
            lemma_block_of(blk, z, ids.z as int);
            assert(0 <= ids.x * blk && (ids.x + 1) * blk <= 0x40000000 && 0 <= ids.y * blk && (
            ids.y + 1) * blk <= 0x40000000 && 0 <= ids.z * blk && (ids.z + 1) * blk
                <= 0x40000000) by (nonlinear_arith)
                requires
                    0 <= ids.x < 0x8000 && 0 <= ids.y < 0x8000 && 0 <= ids.z < 0x8000 && 1 <= blk
                        <= 0x8000,
            ;
            assert(cur_box.contains(Vec3 { x: x as u32, y: y as u32, z: z as u32 }));
            let qx = x - ids.x * blk;
            let qy = y - ids.y * blk;
            let qz = z - ids.z * blk;
            let dv = Vec3 {
                x: (cur_box.min.x - ids.x * blk) as u32,
                y: (cur_box.min.y - ids.y * blk) as u32,
                z: (cur_box.min.z - ids.z * blk) as u32,
            };
            let rx = x - cur_box.min.x;
            let ry = y - cur_box.min.y;
            let rz = z - cur_box.min.z;
            let sv = Vec3 {
                x: (cur_box.min.x - dst_pos.x + src_pos.x) as u32,
                y: (cur_box.min.y - dst_pos.y + src_pos.y) as u32,
                z: (cur_box.min.z - dst_pos.z + src_pos.z) as u32,
            };
            let w = crate::mat::spec_width(cur_box);
            assert(crate::mat::region_copied(scratch_after, src, dv, sv, w));
            assert(0 <= rx < w.x && 0 <= ry < w.y && 0 <= rz < w.z);
            assert(0 <= k < scratch_after.voxel_size);
            assert(scratch_after.voxel_byte(dv.x + rx, dv.y + ry, dv.z + rz, k)
                == src.voxel_byte(sv.x + rx, sv.y + ry, sv.z + rz, k));
            assert(sv.x == cur_box.min.x - dst_pos.x + src_pos.x && sv.y == cur_box.min.y
                - dst_pos.y + src_pos.y && sv.z == cur_box.min.z - dst_pos.z + src_pos.z);
            assert(scratch_after.voxel_byte(dv.x + rx, dv.y + ry, dv.z + rz, k)
                == src.voxel_byte(
                cur_box.min.x - dst_pos.x + src_pos.x + rx,
                cur_box.min.y - dst_pos.y + src_pos.y + ry,
                cur_box.min.z - dst_pos.z + src_pos.z + rz,
                k,
            ));
            assert(x % blk == qx && y % blk == qy && z % blk == qz);
            assert(dv.x + rx == qx && dv.y + ry == qy && dv.z + rz == qz);
            assert(cur.file_voxel_byte(x, y, z, k) == scratch_after.voxel_byte(qx, qy, qz, k));
        } else {
            lemma_push_contains(yielded_prev, cur_block_idx, b as u64);
            assert(cur.file_voxel_byte(x, y, z, k) == before.file_voxel_byte(x, y, z, k));
        }
    }
    assert forall|x: int, y: int, z: int, k: int|
        #![trigger cur.file_voxel_byte(x, y, z, k)]
        0 <= x < flv && 0 <= y < flv && 0 <= z < flv && 0 <= k < vsz && !(dst_pos.x <= x
            < dst_end.x && dst_pos.y <= y < dst_end.y && dst_pos.z <= z < dst_end.z
            && yielded.contains(cur.block_index_of(x, y, z) as u64)) implies cur.file_voxel_byte(
        x,
        y,
        z,
        k,
    ) == fpre.file_voxel_byte(x, y, z, k) by {
        lemma_block_coords(blk, x);
        lemma_block_coords(blk, y);
        lemma_block_coords(blk, z);
        vstd::arithmetic::div_mod::lemma_div_is_ordered(x, flv - 1, blk);
        vstd::arithmetic::div_mod::lemma_div_is_ordered(y, flv - 1, blk);
        vstd::arithmetic::div_mod::lemma_div_is_ordered(z, flv - 1, blk);
        lemma_last_block(cur.header);
        let b = cur.block_index_of(x, y, z);
        let bv = Vec3 { x: (x / blk) as u32, y: (y / blk) as u32, z: (z / blk) as u32 };
        crate::morton::lemma_encode_in_cube(bv, cur.header.file_len_log2 as u32);
        if b == cur_block_idx {
            assert(bv == ids);
            lemma_block_of(blk, x, ids.x as int);
            lemma_block_of(blk, y, ids.y as int);
            lemma_block_of(blk, z, ids.z as int);
            assert(0 <= ids.x * blk && (ids.x + 1) * blk <= 0x40000000 && 0 <= ids.y * blk && (
            ids.y + 1) * blk <= 0x40000000 && 0 <= ids.z * blk && (ids.z + 1) * blk
                <= 0x40000000) by (nonlinear_arith)
                requires
                    0 <= ids.x < 0x8000 && 0 <= ids.y < 0x8000 && 0 <= ids.z < 0x8000 && 1 <= blk
                        <= 0x8000,
            ;
            assert(yielded.contains(cur_block_idx)) by {
                assert(yielded[yielded.len() - 1] == cur_block_idx);
            }
            assert(!cur_box.contains(Vec3 { x: x as u32, y: y as u32, z: z as u32 }));
            let bbox = Box3 {
                min: Vec3 {
                    x: (ids.x * blk) as u32,
                    y: (ids.y * blk) as u32,
                    z: (ids.z * blk) as u32,
                },
                max: Vec3 {
                    x: ((ids.x + 1) * blk) as u32,
                    y: ((ids.y + 1) * blk) as u32,
                    z: ((ids.z + 1) * blk) as u32,
                },
            };
            assert(cur_box != bbox) by {
                assert(bbox.contains(Vec3 { x: x as u32, y: y as u32, z: z as u32 }));
            }
            let qx = x - ids.x * blk;
            let qy = y - ids.y * blk;
            let qz = z - ids.z * blk;
            let dv = Vec3 {
                x: (cur_box.min.x - ids.x * blk) as u32,
                y: (cur_box.min.y - ids.y * blk) as u32,
                z: (cur_box.min.z - ids.z * blk) as u32,
            };
            assert(!(dv.x <= qx < dv.x + (cur_box.max.x - cur_box.min.x) && dv.y <= qy < dv.y + (
            cur_box.max.y - cur_box.min.y) && dv.z <= qz < dv.z + (cur_box.max.z
                - cur_box.min.z)));
            assert(scratch_after.voxel_byte(qx, qy, qz, k) == scratch_pre.voxel_byte(
                qx,
                qy,
                qz,
                k,
            ));
            assert(cur.file_voxel_byte(x, y, z, k) == scratch_after.voxel_byte(qx, qy, qz, k));
            assert(before.file_voxel_byte(x, y, z, k) == scratch_pre.voxel_byte(qx, qy, qz, k));
            assert(before.file_voxel_byte(x, y, z, k) == fpre.file_voxel_byte(x, y, z, k));
        } else {
            assert(cur.file_voxel_byte(x, y, z, k) == before.file_voxel_byte(x, y, z, k));
            assert(!(dst_pos.x <= x < dst_end.x && dst_pos.y <= y < dst_end.y && dst_pos.z <= z
                < dst_end.z && yielded_prev.contains(b as u64))) by {
                if dst_pos.x <= x < dst_end.x && dst_pos.y <= y < dst_end.y && dst_pos.z <= z
                    < dst_end.z && yielded_prev.contains(b as u64) {
                    lemma_contains_push(yielded_prev, cur_block_idx, b as u64);
                }
            }
        }
    }
}

/// An element of a sequence other than a pushed value was present before.
proof fn lemma_push_contains(s: Seq<u64>, v: u64, x: u64)
    requires
        s.push(v).contains(x),
        x != v,
    ensures
        s.contains(x),
{
    let wi = choose|wi: int| 0 <= wi < s.push(v).len() && s.push(v)[wi] == x;
    if wi < s.len() {
        assert(s[wi] == x);
    }
}

/// A pushed sequence keeps its earlier elements.
proof fn lemma_contains_push(s: Seq<u64>, v: u64, x: u64)
    requires
        s.contains(x),
    ensures
        s.push(v).contains(x),
{
    let wi = choose|wi: int| 0 <= wi < s.len() && s[wi] == x;
    assert(s.push(v)[wi] == x);
}


impl File {
    /// The compressed write path: the whole cube is rebuilt block by block,
    /// each block compressed and appended, with the jump table rebuilt as
    /// the blocks are laid down.
    #[verifier::rlimit(100)]
    fn write_mat_lz4(&mut self, src_mat: &Mat, src_pos: Vec3) -> (r: Result<usize, WkwError>)
        requires
            old(self).wf(),
            old(self).header.block_type.is_compressed(),
            src_mat.wf(),
            !src_mat.data_in_c_order,
            src_mat.voxel_size == old(self).header.voxel_size,
            src_mat.voxel_type == old(self).header.voxel_type,
            src_pos.x + old(self).header.spec_file_len_vx() <= src_mat.shape.x,
            src_pos.y + old(self).header.spec_file_len_vx() <= src_mat.shape.y,
            src_pos.z + old(self).header.spec_file_len_vx() <= src_mat.shape.z,
            old(self).bs() <= 0x7fffffff,
            old(self).header.spec_file_size() <= usize::MAX,
        ensures
            final(self).wf(),
            final(self).header.version == old(self).header.version,
            final(self).header.block_len_log2 == old(self).header.block_len_log2,
            final(self).header.file_len_log2 == old(self).header.file_len_log2,
            final(self).header.block_type == old(self).header.block_type,
            final(self).header.voxel_type == old(self).header.voxel_type,
            final(self).header.voxel_size == old(self).header.voxel_size,
            final(self).header.data_offset == old(self).header.data_offset,
            r is Err ==> *final(self) == *old(self),
            r is Err ==> r == Err::<usize, WkwError>(WkwError::CompressFailed),
            old(self).bs() <= 0x7e000000 ==> r is Ok,
            r is Ok ==> (forall|x: int, y: int, z: int, k: int|
                #![trigger final(self).file_voxel_byte(x, y, z, k)]
                0 <= x < old(self).header.spec_file_len_vx() && 0 <= y < old(
                    self,
                ).header.spec_file_len_vx() && 0 <= z < old(self).header.spec_file_len_vx() && 0
                    <= k < old(self).header.voxel_size ==> final(self).voxel_known(x, y, z)
                    && final(self).file_voxel_byte(x, y, z, k) == src_mat.voxel_byte(
                    x + src_pos.x,
                    y + src_pos.y,
                    z + src_pos.z,
                    k,
                )),
            r is Ok ==> (forall|x: int, y: int, z: int|
                #![trigger final(self).voxel_known(x, y, z)]
                0 <= x < old(self).header.spec_file_len_vx() && 0 <= y < old(
                    self,
                ).header.spec_file_len_vx() && 0 <= z < old(self).header.spec_file_len_vx()
                    ==> final(self).voxel_known(x, y, z)),
    {
        proof {
            lemma_last_block(self.header);
            crate::header::lemma_file_geometry(self.header);
            lemma_block_cube(self.header);
        }
        let vol = self.header.file_vol();
        let bs = self.header.block_size();
        let vs = self.header.voxel_size as usize;
        let bl = self.header.block_len() as u32;
        let bl_log2 = self.header.block_len_log2 as u32;
        let off = self.header.data_offset;
        let flv = self.header.file_len_vx();
        proof {
            crate::morton::shl1_is_pow2_u32(bl_log2);
            assert(self.header.spec_file_len() * bl as int == flv) by (nonlinear_arith)
                requires
                    bl as int * self.header.spec_file_len() == flv,
            ;
            crate::header::lemma_pow2_le(3 * self.header.file_len_log2 as nat, 45);
            crate::header::lemma_pow2_le(
                (self.header.block_len_log2 + self.header.file_len_log2) as nat,
                18,
            );
            vstd::arithmetic::power2::lemma2_to64();
            vstd::arithmetic::power2::lemma2_to64_rest();
            assert(vol as int * (2 * bs + 16) == 2 * (vol as int * bs as int) + 16 * vol as int)
                by (nonlinear_arith);
            assert(vol as int * bs as int == self.header.spec_file_size()) by (nonlinear_arith)
                requires
                    vol as int * bs as int == self.header.spec_file_vol()
                        * self.header.spec_block_size() && self.header.spec_file_vol()
                        * self.header.spec_block_size() == self.header.spec_file_size(),
            ;
        }
        let mut new_body: Vec<u8> = Vec::new();
        let mut new_jump: Vec<u64> = Vec::new();
        let ghost mut new_known: Map<int, Seq<u8>> = Map::empty();
        let mut idx: u64 = 0;
        while idx < vol
            invariant
                self == old(self),
                self.wf(),
                self.header.block_type.is_compressed(),
                src_mat.wf(),
                !src_mat.data_in_c_order,
                src_mat.voxel_size == self.header.voxel_size,
                src_mat.voxel_type == self.header.voxel_type,
                src_pos.x + flv <= src_mat.shape.x && src_pos.y + flv <= src_mat.shape.y
                    && src_pos.z + flv <= src_mat.shape.z,
                idx <= vol,
                vol == self.header.spec_file_vol(),
                bs == self.bs(),
                bs <= 0x7fffffff,
                vs == self.header.voxel_size,
                bl == self.header.spec_block_len(),
                bl_log2 == self.header.block_len_log2,
                off == self.header.data_offset,
                flv == self.header.spec_file_len_vx(),
                self.header.spec_file_len() * bl as int == flv,
                (flv - 1) as int / (bl as int) == self.header.spec_file_len() - 1,
                bl >= 1,
                vol >= 1,
                vol <= 0x200000000000,
                flv <= 0x40000,
                self.header.spec_file_size() <= usize::MAX,
                self.header.spec_file_size() <= 0x4000000000000000,
                off <= 16 + 8 * 0x200000000000,
                new_jump@.len() == idx,
                new_body@.len() <= idx * (2 * bs as int + 16),
                vol as int * (2 * bs as int + 16) == 2 * self.header.spec_file_size() + 16
                    * vol as int,
                idx > 0 ==> off <= new_jump@[0],
                forall|i: int| 1 <= i < idx ==> new_jump@[i - 1] <= #[trigger] new_jump@[i],
                idx > 0 ==> new_jump@[idx - 1] == off + new_body@.len(),
                idx == 0 ==> new_body@.len() == 0,
                new_known.dom() =~= Set::new(|i: int| 0 <= i < idx),
                forall|i: int|
                    0 <= i < idx ==> #[trigger] seg_entry_ok(
                        new_known,
                        new_jump@,
                        new_body@,
                        off,
                        bs as int,
                        i,
                    ),
                forall|i: int, qx: int, qy: int, qz: int, kk: int|
                    #![trigger new_known[i][flin(bl as int, bl as int, qx, qy, qz) * vs + kk]]
                    0 <= i < idx && 0 <= qx < bl && 0 <= qy < bl && 0 <= qz < bl && 0 <= kk < vs
                        ==> new_known[i][flin(bl as int, bl as int, qx, qy, qz) * vs + kk]
                        == src_mat.voxel_byte(
                        spec_decode(i as u64).x * bl + qx + src_pos.x,
                        spec_decode(i as u64).y * bl + qy + src_pos.y,
                        spec_decode(i as u64).z * bl + qz + src_pos.z,
                        kk,
                    ),
            decreases vol - idx,
        {
            proof {
                crate::morton::lemma_decode_bounds(idx);
                crate::morton::lemma_decode_in_cube(idx, self.header.file_len_log2 as u32);
                lemma_block_cube(self.header);
                lemma_last_block(self.header);
                crate::header::lemma_file_geometry(self.header);
            }
            let ids = crate::morton::Morton::new(idx).decode();
            proof {
                let blk = bl as int;
                assert((ids.x + 1) * blk <= flv && (ids.y + 1) * blk <= flv && (ids.z + 1) * blk
                    <= flv) by (nonlinear_arith)
                    requires
                        ids.x + 1 <= self.header.spec_file_len() && ids.y + 1
                            <= self.header.spec_file_len() && ids.z + 1
                            <= self.header.spec_file_len() && blk >= 1
                            && self.header.spec_file_len() * blk == flv,
                ;
                assert(ids.x * blk <= (ids.x + 1) * blk && ids.y * blk <= (ids.y + 1) * blk
                    && ids.z * blk <= (ids.z + 1) * blk) by (nonlinear_arith)
                    requires
                        blk >= 1 && ids.x >= 0 && ids.y >= 0 && ids.z >= 0,
                ;
                assert(pow2i(bl_log2 as nat) == bl as int);
            }
            let bmin = ids.shl(bl_log2);
            let bmax = ids.add(Vec3::splat(1)).shl(bl_log2);
            proof {
                let blk = bl as int;
                assert(bmax.x - bmin.x == blk && bmax.y - bmin.y == blk && bmax.z - bmin.z == blk)
                    by (nonlinear_arith)
                    requires
                        bmin.x == ids.x * blk && bmax.x == (ids.x + 1) * blk && bmin.y == ids.y
                            * blk && bmax.y == (ids.y + 1) * blk && bmin.z == ids.z * blk
                            && bmax.z == (ids.z + 1) * blk,
                ;
            }
            let block_box = match Box3::new(bmin.add(src_pos), bmax.add(src_pos)) {
                Ok(b) => b,
                Err(e) => {
                    proof {
                        assert(false);
                    }
                    return Err(WkwError::CompressFailed);
                },
            };
            let zeros = vec![0u8; bs as usize];
            let mut scratch = match Mat::new(
                zeros,
                Vec3 { x: bl, y: bl, z: bl },
                vs,
                self.header.voxel_type,
                false,
            ) {
                Ok(m) => m,
                Err(e) => {
                    proof {
                        assert(false);
                    }
                    return Err(WkwError::CompressFailed);
                },
            };
            let cpy = scratch.copy_from(Vec3 { x: 0, y: 0, z: 0 }, src_mat, block_box);
            match cpy {
                Ok(_) => (),
                Err(e) => {
                    proof {
                        assert(false);
                    }
                    return Err(WkwError::CompressFailed);
                },
            }
            let ghost scratch_after = scratch;
            let data = scratch.into_bytes();
            let comp = match crate::lz4::compress_hc(&data) {
                Ok(c) => c,
                Err(_) => {
                    proof {
                        if self.bs() <= 0x7e000000 {
                            assert(false);
                        }
                    }
                    return Err(WkwError::CompressFailed);
                },
            };
            proof {
                assert(comp@.len() <= 2 * bs + 16) by (nonlinear_arith)
                    requires
                        comp@.len() <= bs as int + bs as int / 255 + 16 && bs >= 0 && bs as int
                            / 255 <= bs,
                ;
                assert((idx + 1) as int * (2 * bs as int + 16) == idx as int * (2 * bs as int
                    + 16) + (2 * bs as int + 16)) by (nonlinear_arith);
                assert(idx as int * (2 * bs as int + 16) <= vol as int * (2 * bs as int + 16))
                    by (nonlinear_arith)
                    requires
                        idx < vol && bs >= 0,
                ;
            }
            let ghost body_pre = new_body@;
            append_bytes(&mut new_body, &comp);
            proof {
                assert(new_body@.len() <= (idx + 1) as int * (2 * bs as int + 16));
                assert((idx + 1) as int * (2 * bs as int + 16) <= vol as int * (2 * bs as int
                    + 16)) by (nonlinear_arith)
                    requires
                        idx + 1 <= vol && bs >= 0,
                ;
                assert(new_body@.len() <= 2 * self.header.spec_file_size() + 16 * vol as int);
            }
            let ghost jump_before = new_jump@;
            let entry = off + new_body.len() as u64;
            new_jump.push(entry);
            proof {
                let known_pre = new_known;
                let jump_pre = jump_before;
                new_known = new_known.insert(idx as int, scratch_after.data@);
                assert(new_known.dom() =~= Set::new(|i: int| 0 <= i < idx + 1));
                assert(new_body@ == body_pre + comp@);
                lemma_lz4_append(
                    known_pre,
                    new_known,
                    jump_pre,
                    new_jump@,
                    body_pre,
                    new_body@,
                    comp@,
                    scratch_after.data@,
                    idx as int,
                    off,
                    bs as int,
                );
                let blk = bl as int;
                assert forall|qx: int, qy: int, qz: int, kk: int|
                    0 <= qx < bl && 0 <= qy < bl && 0 <= qz < bl && 0 <= kk
                        < vs implies #[trigger] new_known[idx as int][flin(blk, blk, qx, qy, qz)
                        * vs + kk] == src_mat.voxel_byte(
                    ids.x * blk + qx + src_pos.x,
                    ids.y * blk + qy + src_pos.y,
                    ids.z * blk + qz + src_pos.z,
                    kk,
                ) by {
                    assert(scratch_after.voxel_byte(0 + qx, 0 + qy, 0 + qz, kk)
                        == src_mat.voxel_byte(
                        bmin.x + src_pos.x + qx,
                        bmin.y + src_pos.y + qy,
                        bmin.z + src_pos.z + qz,
                        kk,
                    ));
                }
            }
            idx = idx + 1;
        }
        self.body = new_body;
        self.header.jump_table = Some(new_jump);
        self.known = Ghost(new_known);
        proof {
            assert(self.header.wf());
            assert(self.header.jump_wf());
            assert(self.segments_ok());
            assert forall|i: int| #[trigger]
                self.known@.dom().contains(i) implies 0 <= i < self.vol() && self.known@[i].len()
                == self.bs() by {
                assert(seg_entry_ok(new_known, new_jump@, new_body@, off, bs as int, i));
            }
            assert forall|i: int| #[trigger]
                self.known@.dom().contains(i) implies self.segments_ok() && 0 <= self.seg_start(i)
                <= self.seg_past(i) <= self.body@.len() && self.body@.subrange(
                self.seg_start(i),
                self.seg_past(i),
            ) == crate::lz4::lz4_hc_of(self.known@[i]) by {
                assert(seg_entry_ok(new_known, new_jump@, new_body@, off, bs as int, i));
                if i > 0 {
                    assert(1 <= i < vol);
                }
            }
            assert(self.wf());
            let blk = bl as int;
            assert forall|x: int, y: int, z: int, k: int|
                #![trigger self.file_voxel_byte(x, y, z, k)]
                0 <= x < flv && 0 <= y < flv && 0 <= z < flv && 0 <= k
                    < self.header.voxel_size implies self.voxel_known(x, y, z)
                && self.file_voxel_byte(x, y, z, k) == src_mat.voxel_byte(
                x + src_pos.x,
                y + src_pos.y,
                z + src_pos.z,
                k,
            ) by {
                lemma_block_coords(blk, x);
                lemma_block_coords(blk, y);
                lemma_block_coords(blk, z);
                vstd::arithmetic::div_mod::lemma_div_is_ordered(x, flv - 1, blk);
                vstd::arithmetic::div_mod::lemma_div_is_ordered(y, flv - 1, blk);
                vstd::arithmetic::div_mod::lemma_div_is_ordered(z, flv - 1, blk);
                lemma_last_block(self.header);
                let bv = Vec3 { x: (x / blk) as u32, y: (y / blk) as u32, z: (z / blk) as u32 };
                crate::morton::lemma_encode_in_cube(bv, self.header.file_len_log2 as u32);
                let b = self.block_index_of(x, y, z);
                assert(0 <= b < vol);
                assert(self.known@.dom().contains(b));
                assert(spec_decode(b as u64) == bv);
                assert(new_known[b][flin(blk, blk, x % blk, y % blk, z % blk) * vs + k]
                    == src_mat.voxel_byte(
                    bv.x * blk + x % blk + src_pos.x,
                    bv.y * blk + y % blk + src_pos.y,
                    bv.z * blk + z % blk + src_pos.z,
                    k,
                ));
            }
            assert forall|x: int, y: int, z: int|
                0 <= x < flv && 0 <= y < flv && 0 <= z < flv implies #[trigger] self.voxel_known(
                x,
                y,
                z,
            ) by {
                lemma_block_coords(blk, x);
                lemma_block_coords(blk, y);
                lemma_block_coords(blk, z);
                vstd::arithmetic::div_mod::lemma_div_is_ordered(x, flv - 1, blk);
                vstd::arithmetic::div_mod::lemma_div_is_ordered(y, flv - 1, blk);
                vstd::arithmetic::div_mod::lemma_div_is_ordered(z, flv - 1, blk);
                lemma_last_block(self.header);
                let bv = Vec3 { x: (x / blk) as u32, y: (y / blk) as u32, z: (z / blk) as u32 };
                crate::morton::lemma_encode_in_cube(bv, self.header.file_len_log2 as u32);
                assert(self.known@.dom().contains(self.block_index_of(x, y, z)));
            }
        }
        Ok(1)
    }
}



/// Segment `i` of a body under construction is consistent: one block of
/// bytes, compressed into the byte run that the jump entries delimit.
pub open spec fn seg_entry_ok(
    known: Map<int, Seq<u8>>,
    jump: Seq<u64>,
    body: Seq<u8>,
    off: u64,
    bs: int,
    i: int,
) -> bool {
    let st = if i == 0 {
        0int
    } else {
        jump[i - 1] - off
    };
    let pa = jump[i] - off;
    known[i].len() == bs && 0 <= st && st <= pa && pa <= body.len() && body.subrange(st, pa)
        == crate::lz4::lz4_hc_of(known[i])
}

/// Appending one compressed block extends the jump table and the body
/// consistently: all earlier segments keep their place and the new segment
/// is the compression of the staged block.
#[verifier::rlimit(60)]
proof fn lemma_lz4_append(
    known_pre: Map<int, Seq<u8>>,
    new_known: Map<int, Seq<u8>>,
    jump_pre: Seq<u64>,
    jump_new: Seq<u64>,
    body_pre: Seq<u8>,
    body_new: Seq<u8>,
    comp: Seq<u8>,
    scratch_data: Seq<u8>,
    idx: int,
    off: u64,
    bs: int,
)
    requires
        jump_pre.len() == idx,
        jump_new == jump_pre.push((off + body_new.len()) as u64),
        off + body_new.len() <= u64::MAX,
        body_new == body_pre + comp,
        comp == crate::lz4::lz4_hc_of(scratch_data),
        scratch_data.len() == bs,
        new_known == known_pre.insert(idx, scratch_data),
        idx >= 0,
        idx > 0 ==> off <= jump_pre[0],
        forall|i: int| 1 <= i < idx ==> jump_pre[i - 1] <= #[trigger] jump_pre[i],
        idx > 0 ==> jump_pre[idx - 1] == off + body_pre.len(),
        idx == 0 ==> body_pre.len() == 0,
        forall|i: int|
            0 <= i < idx ==> #[trigger] seg_entry_ok(known_pre, jump_pre, body_pre, off, bs, i),
    ensures
        idx + 1 > 0 ==> off <= jump_new[0],
        forall|i: int| 1 <= i < idx + 1 ==> jump_new[i - 1] <= #[trigger] jump_new[i],
        jump_new[idx] == off + body_new.len(),
        forall|i: int|
            0 <= i < idx + 1 ==> #[trigger] seg_entry_ok(new_known, jump_new, body_new, off, bs, i),
{
    assert forall|i: int| 0 <= i < idx + 1 implies #[trigger] seg_entry_ok(
        new_known,
        jump_new,
        body_new,
        off,
        bs,
        i,
    ) by {
        let st = if i == 0 {
            0int
        } else {
            jump_new[i - 1] - off
        };
        let pa = jump_new[i] - off;
        if i < idx {
            assert(seg_entry_ok(known_pre, jump_pre, body_pre, off, bs, i));
            assert(new_known[i] == known_pre[i]);
            assert(jump_new[i] == jump_pre[i]);
            if i > 0 {
                assert(jump_new[i - 1] == jump_pre[i - 1]);
            }
            assert(body_new.subrange(st, pa) =~= body_pre.subrange(st, pa));
        } else {
            assert(jump_new[idx] == off + body_new.len());
            if idx > 0 {
                assert(jump_new[idx - 1] == jump_pre[idx - 1]);
            }
            assert(st == body_pre.len() && pa == body_new.len());
            assert(body_new.subrange(st, pa) =~= comp);
            assert(new_known[idx] == scratch_data);
        }
    }
}

/// Jump entries grow monotonically across any gap.
proof fn lemma_jump_mono(jump: Seq<u64>, i: int, j: int, off: u64)
    requires
        0 <= i <= j < jump.len(),
        forall|e: int| 1 <= e < jump.len() ==> jump[e - 1] <= #[trigger] jump[e],
    ensures
        jump[i] <= jump[j],
    decreases j - i,
{
    if i < j {
        lemma_jump_mono(jump, i, j - 1, off);
    }
}


impl File {
    /// Build the compressed twin of a raw file: same voxels, LZ4HC blocks
    /// and a fresh jump table.
    pub fn compress(&self) -> (r: Result<File, WkwError>)
        requires
            self.wf(),
            !self.header.block_type.is_compressed(),
            self.bs() <= 0x7fffffff,
            self.header.spec_file_size() <= usize::MAX,
            self.header.spec_file_vol() <= usize::MAX,
        ensures
            r is Err ==> r == Err::<File, WkwError>(WkwError::CompressFailed),
            self.bs() <= 0x7e000000 ==> r is Ok,
            r matches Ok(out) ==> {
                &&& out.wf()
                &&& out.header.block_type == crate::header::BlockType::LZ4HC
                &&& out.header.version == self.header.version
                &&& out.header.block_len_log2 == self.header.block_len_log2
                &&& out.header.file_len_log2 == self.header.file_len_log2
                &&& out.header.voxel_type == self.header.voxel_type
                &&& out.header.voxel_size == self.header.voxel_size
            },
            r matches Ok(out) ==> (forall|x: int, y: int, z: int, k: int|
                #![trigger out.file_voxel_byte(x, y, z, k)]
                0 <= x < self.header.spec_file_len_vx() && 0 <= y
                    < self.header.spec_file_len_vx() && 0 <= z < self.header.spec_file_len_vx()
                    && 0 <= k < self.header.voxel_size ==> out.voxel_known(x, y, z)
                    && out.file_voxel_byte(x, y, z, k) == self.file_voxel_byte(x, y, z, k)),
    {
        proof {
            crate::header::lemma_file_geometry(self.header);
            lemma_last_block(self.header);
            lemma_file_cube(self.header);
        }
        let flv = self.header.file_len_vx();
        let fsize = self.header.file_size();
        let buf = vec![0u8; fsize as usize];
        let mut whole = match Mat::new(
            buf,
            Vec3 { x: flv, y: flv, z: flv },
            self.header.voxel_size as usize,
            self.header.voxel_type,
            false,
        ) {
            Ok(m) => m,
            Err(e) => {
                proof {
                    assert(false);
                }
                return Err(WkwError::CompressFailed);
            },
        };
        let zero = Vec3 { x: 0, y: 0, z: 0 };
        let rd = self.read_mat(zero, &mut whole, zero);
        match rd {
            Ok(_) => (),
            Err(e) => {
                proof {
                    assert forall|x: int, y: int, z: int|
                        0 <= x < region_end(
                            self.header.spec_file_len_vx(),
                            0,
                            flv,
                            0,
                        ) && 0 <= y < region_end(self.header.spec_file_len_vx(), 0, flv, 0) && 0
                        <= z < region_end(self.header.spec_file_len_vx(), 0, flv, 0) implies
                        #[trigger] self.voxel_known(x, y, z) by {}
                    assert(false);
                }
                return Err(WkwError::CompressFailed);
            },
        }
        let twin = Header::compress(&self.header);
        let mut out = File::create(&twin);
        let wr = out.write_mat(zero, &whole, zero);
        match wr {
            Ok(_) => (),
            Err(e) => {
                proof {
                    if self.bs() <= 0x7e000000 {
                        assert(false);
                    }
                }
                return Err(WkwError::CompressFailed);
            },
        }
        proof {
            assert forall|x: int, y: int, z: int, k: int|
                #![trigger out.file_voxel_byte(x, y, z, k)]
                0 <= x < self.header.spec_file_len_vx() && 0 <= y
                    < self.header.spec_file_len_vx() && 0 <= z < self.header.spec_file_len_vx()
                    && 0 <= k < self.header.voxel_size implies out.voxel_known(x, y, z)
                && out.file_voxel_byte(x, y, z, k) == self.file_voxel_byte(x, y, z, k) by {
                assert(self.voxel_known(x, y, z));
                assert(whole.voxel_byte(x - zero.x + zero.x, y - zero.y + zero.y, z - zero.z
                    + zero.z, k) == self.file_voxel_byte(x, y, z, k));
                assert(out.file_voxel_byte(x, y, z, k) == whole.voxel_byte(x, y, z, k));
            }
        }
        Ok(out)
    }
}

/// A file is a cube of the file edge, and its byte size multiplies out.
proof fn lemma_file_cube(h: Header)
    requires
        h.wf(),
    ensures
        (Vec3 {
            x: h.spec_file_len_vx() as u32,
            y: h.spec_file_len_vx() as u32,
            z: h.spec_file_len_vx() as u32,
        }).spec_product() == h.spec_file_vol_vx(),
        h.spec_file_vol_vx() * h.voxel_size == h.spec_file_size(),
        h.spec_file_vol_vx() <= h.spec_file_size(),
        h.spec_file_len_vx() <= 0x40000,
{
    let e = (h.block_len_log2 + h.file_len_log2) as nat;
    vstd::arithmetic::power2::lemma_pow2_adds(e, e);
    vstd::arithmetic::power2::lemma_pow2_adds(e + e, e);
    vstd::arithmetic::power2::lemma_pow2_pos(e);
    crate::header::lemma_pow2_le(e, 18);
    vstd::arithmetic::power2::lemma2_to64();
    let fl = h.spec_file_len_vx();
    assert(fl * fl * fl == h.spec_file_vol_vx()) by (nonlinear_arith)
        requires
            fl * fl == pow2i((e + e) as nat) && pow2i((e + e) as nat) * fl == pow2i(
                (e + e + e) as nat,
            ) && h.spec_file_vol_vx() == pow2i(3 * e),
    ;
    assert(h.spec_file_vol_vx() * h.voxel_size == h.spec_file_size()) by (nonlinear_arith)
        requires
            h.spec_file_size() == h.voxel_size * h.spec_file_vol_vx(),
    ;
    assert(h.spec_file_vol_vx() <= h.spec_file_vol_vx() * h.voxel_size) by (nonlinear_arith)
        requires
            h.voxel_size >= 1 && h.spec_file_vol_vx() >= 0,
    ;
}

/// Read-after-write: when a write has placed the bytes of a source matrix
/// into a region of a file, and a read of the same region has filled a
/// destination matrix from that file, then the destination holds the bytes
/// of the source, voxel for voxel.
pub proof fn lemma_read_after_write(
    f: File,
    src: Mat,
    dst: Mat,
    pos: Vec3,
    endv: Vec3,
    vsz: int,
)
    requires
        forall|x: int, y: int, z: int|
            pos.x <= x < endv.x && pos.y <= y < endv.y && pos.z <= z < endv.z ==> #[trigger]
                f.voxel_known(x, y, z),
        forall|x: int, y: int, z: int, k: int|
            #![trigger f.file_voxel_byte(x, y, z, k)]
            pos.x <= x < endv.x && pos.y <= y < endv.y && pos.z <= z < endv.z && 0 <= k < vsz
                ==> f.file_voxel_byte(x, y, z, k) == src.voxel_byte(
                x - pos.x,
                y - pos.y,
                z - pos.z,
                k,
            ),
        forall|x: int, y: int, z: int, k: int|
            #![trigger dst.voxel_byte(x - pos.x, y - pos.y, z - pos.z, k)]
            pos.x <= x < endv.x && pos.y <= y < endv.y && pos.z <= z < endv.z && 0 <= k < vsz
                && f.voxel_known(x, y, z) ==> dst.voxel_byte(x - pos.x, y - pos.y, z - pos.z, k)
                == f.file_voxel_byte(x, y, z, k),
    ensures
        forall|x: int, y: int, z: int, k: int|
            #![trigger dst.voxel_byte(x - pos.x, y - pos.y, z - pos.z, k)]
            pos.x <= x < endv.x && pos.y <= y < endv.y && pos.z <= z < endv.z && 0 <= k < vsz
                ==> dst.voxel_byte(x - pos.x, y - pos.y, z - pos.z, k) == src.voxel_byte(
                x - pos.x,
                y - pos.y,
                z - pos.z,
                k,
            ),
{
    assert forall|x: int, y: int, z: int, k: int|
        #![trigger dst.voxel_byte(x - pos.x, y - pos.y, z - pos.z, k)]
        pos.x <= x < endv.x && pos.y <= y < endv.y && pos.z <= z < endv.z && 0 <= k
            < vsz implies dst.voxel_byte(x - pos.x, y - pos.y, z - pos.z, k) == src.voxel_byte(
        x - pos.x,
        y - pos.y,
        z - pos.z,
        k,
    ) by {
        assert(f.voxel_known(x, y, z));
        assert(f.file_voxel_byte(x, y, z, k) == src.voxel_byte(x - pos.x, y - pos.y, z - pos.z, k));
    }
}


impl File {
    /// Write the box of voxels of `src_mat` from `src_pos` into the file at
    /// `dst_pos`, clipped to the file edge.  A raw file is updated block by
    /// block in Morton order, reading partially covered blocks first; every
    /// voxel of the region ends up byte for byte in the file and every other
    /// voxel keeps its bytes, and the write always succeeds.  A compressed
    /// file must be written as a whole cube, and cannot fail below the
    /// codec's input cap.  A row-major source is staged through a
    /// column-major copy; a row-major multi-channel source is read as
    /// channel planes, per the host-buffer convention.
    pub fn write_mat(&mut self, dst_pos: Vec3, src_mat: &Mat, src_pos: Vec3) -> (r: Result<
        usize,
        WkwError,
    >)
        requires
            old(self).wf(),
            src_mat.wf(),
            src_mat.voxel_size == old(self).header.voxel_size,
            src_mat.voxel_type == old(self).header.voxel_type,
            dst_pos.x < old(self).header.spec_file_len_vx(),
            dst_pos.y < old(self).header.spec_file_len_vx(),
            dst_pos.z < old(self).header.spec_file_len_vx(),
            src_pos.all_le(src_mat.shape),
            old(self).bs() <= 0x7fffffff,
            old(self).header.spec_file_size() <= usize::MAX,
            old(self).header.block_type.is_compressed() ==> dst_pos == (Vec3 { x: 0, y: 0, z: 0 })
                && region_end(
                old(self).header.spec_file_len_vx(),
                0,
                src_mat.shape.x,
                src_pos.x,
            ) == old(self).header.spec_file_len_vx() && region_end(
                old(self).header.spec_file_len_vx(),
                0,
                src_mat.shape.y,
                src_pos.y,
            ) == old(self).header.spec_file_len_vx() && region_end(
                old(self).header.spec_file_len_vx(),
                0,
                src_mat.shape.z,
                src_pos.z,
            ) == old(self).header.spec_file_len_vx(),
        ensures
            final(self).wf(),
            final(self).header.version == old(self).header.version,
            final(self).header.block_len_log2 == old(self).header.block_len_log2,
            final(self).header.file_len_log2 == old(self).header.file_len_log2,
            final(self).header.block_type == old(self).header.block_type,
            final(self).header.voxel_type == old(self).header.voxel_type,
            final(self).header.voxel_size == old(self).header.voxel_size,
            final(self).header.data_offset == old(self).header.data_offset,
            !old(self).header.block_type.is_compressed() ==> r is Ok,
            old(self).header.block_type.is_compressed() && old(self).bs() <= 0x7e000000 ==> r
                is Ok,
            r is Err ==> *final(self) == *old(self),
            r is Ok ==> (forall|x: int, y: int, z: int|
                #![trigger final(self).voxel_known(x, y, z)]
                {
                    let flv = old(self).header.spec_file_len_vx();
                    dst_pos.x <= x < region_end(flv, dst_pos.x, src_mat.shape.x, src_pos.x)
                        && dst_pos.y <= y < region_end(flv, dst_pos.y, src_mat.shape.y, src_pos.y)
                        && dst_pos.z <= z < region_end(flv, dst_pos.z, src_mat.shape.z, src_pos.z)
                        ==> final(self).voxel_known(x, y, z)
                }),
            r is Ok && (!src_mat.data_in_c_order || src_mat.voxel_size
                == src_mat.voxel_type.spec_size()) ==> (forall|x: int, y: int, z: int, k: int|
                #![trigger final(self).file_voxel_byte(x, y, z, k)]
                {
                    let flv = old(self).header.spec_file_len_vx();
                    dst_pos.x <= x < region_end(flv, dst_pos.x, src_mat.shape.x, src_pos.x)
                        && dst_pos.y <= y < region_end(flv, dst_pos.y, src_mat.shape.y, src_pos.y)
                        && dst_pos.z <= z < region_end(flv, dst_pos.z, src_mat.shape.z, src_pos.z)
                        && 0 <= k < old(self).header.voxel_size ==> final(self).file_voxel_byte(
                        x,
                        y,
                        z,
                        k,
                    ) == src_mat.voxel_byte(
                        x - dst_pos.x + src_pos.x,
                        y - dst_pos.y + src_pos.y,
                        z - dst_pos.z + src_pos.z,
                        k,
                    )
                }),
            r is Ok && src_mat.data_in_c_order && src_mat.voxel_size
                != src_mat.voxel_type.spec_size() ==> (forall|
                x: int,
                y: int,
                z: int,
                c: int,
                k: int,
            |
                #![trigger final(self).file_voxel_byte(x, y, z, c * src_mat.voxel_type.spec_size() + k)]
                {
                    let flv = old(self).header.spec_file_len_vx();
                    dst_pos.x <= x < region_end(flv, dst_pos.x, src_mat.shape.x, src_pos.x)
                        && dst_pos.y <= y < region_end(flv, dst_pos.y, src_mat.shape.y, src_pos.y)
                        && dst_pos.z <= z < region_end(flv, dst_pos.z, src_mat.shape.z, src_pos.z)
                        && 0 <= c < src_mat.voxel_size as int / src_mat.voxel_type.spec_size()
                        && 0 <= k < src_mat.voxel_type.spec_size() ==> final(self).file_voxel_byte(x, y, z, c * src_mat.voxel_type.spec_size() + k)
                        == src_mat.channel_plane_byte(
                        x - dst_pos.x + src_pos.x,
                        y - dst_pos.y + src_pos.y,
                        z - dst_pos.z + src_pos.z,
                        c,
                        k,
                    )
                }),
            r is Ok && !old(self).header.block_type.is_compressed() ==> (forall|
                x: int,
                y: int,
                z: int,
                k: int,
            |
                #![trigger final(self).file_voxel_byte(x, y, z, k)]
                {
                    let flv = old(self).header.spec_file_len_vx();
                    0 <= x < flv && 0 <= y < flv && 0 <= z < flv && 0 <= k < old(
                        self,
                    ).header.voxel_size && !(dst_pos.x <= x < region_end(
                        flv,
                        dst_pos.x,
                        src_mat.shape.x,
                        src_pos.x,
                    ) && dst_pos.y <= y < region_end(flv, dst_pos.y, src_mat.shape.y, src_pos.y)
                        && dst_pos.z <= z < region_end(
                        flv,
                        dst_pos.z,
                        src_mat.shape.z,
                        src_pos.z,
                    )) ==> final(self).file_voxel_byte(x, y, z, k) == old(self).file_voxel_byte(
                        x,
                        y,
                        z,
                        k,
                    )
                }),
    {
        if !src_mat.data_in_c_order {
            return self.write_mat_fortran(dst_pos, src_mat, src_pos);
        }
        let staged = match src_mat.to_fortran_order() {
            Ok(m) => m,
            Err(e) => {
                proof {
                    assert(false);
                }
                return Err(e);
            },
        };
        let r = self.write_mat_fortran(dst_pos, &staged, src_pos);
        proof {
            if r is Ok {
                let flv = old(self).header.spec_file_len_vx();
                let isz = src_mat.voxel_type.spec_size();
                if src_mat.voxel_size == isz {
                    assert forall|x: int, y: int, z: int, k: int|
                        #![trigger self.file_voxel_byte(x, y, z, k)]
                        dst_pos.x <= x < region_end(flv, dst_pos.x, src_mat.shape.x, src_pos.x)
                            && dst_pos.y <= y < region_end(
                            flv,
                            dst_pos.y,
                            src_mat.shape.y,
                            src_pos.y,
                        ) && dst_pos.z <= z < region_end(flv, dst_pos.z, src_mat.shape.z, src_pos.z)
                            && 0 <= k < old(self).header.voxel_size implies self.file_voxel_byte(
                        x,
                        y,
                        z,
                        k,
                    ) == src_mat.voxel_byte(
                        x - dst_pos.x + src_pos.x,
                        y - dst_pos.y + src_pos.y,
                        z - dst_pos.z + src_pos.z,
                        k,
                    ) by {
                        assert(self.file_voxel_byte(x, y, z, k) == staged.voxel_byte(
                            x - dst_pos.x + src_pos.x,
                            y - dst_pos.y + src_pos.y,
                            z - dst_pos.z + src_pos.z,
                            k,
                        ));
                        assert(staged.voxel_byte(
                            x - dst_pos.x + src_pos.x,
                            y - dst_pos.y + src_pos.y,
                            z - dst_pos.z + src_pos.z,
                            k,
                        ) == src_mat.voxel_byte(
                            x - dst_pos.x + src_pos.x,
                            y - dst_pos.y + src_pos.y,
                            z - dst_pos.z + src_pos.z,
                            k,
                        ));
                    }
                } else {
                    assert forall|x: int, y: int, z: int, c: int, k: int|
                        #![trigger self.file_voxel_byte(x, y, z, c * src_mat.voxel_type.spec_size() + k)]
                        dst_pos.x <= x < region_end(flv, dst_pos.x, src_mat.shape.x, src_pos.x)
                            && dst_pos.y <= y < region_end(
                            flv,
                            dst_pos.y,
                            src_mat.shape.y,
                            src_pos.y,
                        ) && dst_pos.z <= z < region_end(flv, dst_pos.z, src_mat.shape.z, src_pos.z)
                            && 0 <= c < src_mat.voxel_size as int / isz && 0 <= k
                            < isz implies self.file_voxel_byte(x, y, z, c * isz + k)
                        == src_mat.channel_plane_byte(
                        x - dst_pos.x + src_pos.x,
                        y - dst_pos.y + src_pos.y,
                        z - dst_pos.z + src_pos.z,
                        c,
                        k,
                    ) by {
                        vstd::arithmetic::div_mod::lemma_fundamental_div_mod(
                            src_mat.voxel_size as int,
                            isz,
                        );
                        assert(0 <= c * isz + k < src_mat.voxel_size) by (nonlinear_arith)
                            requires
                                0 <= c && 0 <= k < isz && c + 1 <= src_mat.voxel_size as int / isz
                                    && src_mat.voxel_size as int % isz == 0 && isz >= 1 && (
                                src_mat.voxel_size as int / isz) * isz + src_mat.voxel_size as int
                                    % isz == src_mat.voxel_size,
                        ;
                        assert(self.file_voxel_byte(x, y, z, c * isz + k) == staged.voxel_byte(
                            x - dst_pos.x + src_pos.x,
                            y - dst_pos.y + src_pos.y,
                            z - dst_pos.z + src_pos.z,
                            c * isz + k,
                        ));
                        assert(staged.voxel_byte(
                            x - dst_pos.x + src_pos.x,
                            y - dst_pos.y + src_pos.y,
                            z - dst_pos.z + src_pos.z,
                            c * isz + k,
                        ) == src_mat.channel_plane_byte(
                            x - dst_pos.x + src_pos.x,
                            y - dst_pos.y + src_pos.y,
                            z - dst_pos.z + src_pos.z,
                            c,
                            k,
                        ));
                    }
                }
            }
        }
        r
    }
}

} // verus!
