use vstd::prelude::*;

use crate::error::WkwError;
use crate::vec3::pow2i;

verus! {

/// How the blocks of a file are stored on disk.
#[derive(Clone, Copy, Debug, PartialEq, Eq, Structural)]
pub enum BlockType {
    Raw,
    LZ4,
    LZ4HC,
}

impl BlockType {
    /// Compressed files carry a jump table; raw files do not.
    pub open spec fn is_compressed(self) -> bool {
        self == BlockType::LZ4 || self == BlockType::LZ4HC
    }

    /// The on-disk code of the block type.
    pub open spec fn spec_code(self) -> u8 {
        match self {
            BlockType::Raw => 1,
            BlockType::LZ4 => 2,
            BlockType::LZ4HC => 3,
        }
    }

    pub fn compressed(&self) -> (r: bool)
        ensures
            r == self.is_compressed(),
    {
        match self {
            BlockType::Raw => false,
            BlockType::LZ4 => true,
            BlockType::LZ4HC => true,
        }
    }
}

/// The scalar type of one voxel channel.
#[derive(Clone, Copy, Debug, PartialEq, Eq, Structural)]
pub enum VoxelType {
    U8,
    U16,
    U32,
    U64,
    F32,
    F64,
    I8,
    I16,
    I32,
    I64,
}

impl VoxelType {
    /// The size of one element in bytes.
    pub open spec fn spec_size(self) -> int {
        match self {
            VoxelType::U8 | VoxelType::I8 => 1,
            VoxelType::U16 | VoxelType::I16 => 2,
            VoxelType::U32 | VoxelType::I32 => 4,
            VoxelType::U64 | VoxelType::I64 => 8,
            VoxelType::F32 => 4,
            VoxelType::F64 => 8,
        }
    }

    /// The on-disk code of the voxel type.
    pub open spec fn spec_code(self) -> u8 {
        match self {
            VoxelType::U8 => 1,
            VoxelType::U16 => 2,
            VoxelType::U32 => 3,
            VoxelType::U64 => 4,
            VoxelType::F32 => 5,
            VoxelType::F64 => 6,
            VoxelType::I8 => 7,
            VoxelType::I16 => 8,
            VoxelType::I32 => 9,
            VoxelType::I64 => 10,
        }
    }

    pub fn size(&self) -> (r: usize)
        ensures
            r == self.spec_size(),
    {
        match self {
            VoxelType::U8 | VoxelType::I8 => 1,
            VoxelType::U16 | VoxelType::I16 => 2,
            VoxelType::U32 | VoxelType::I32 => 4,
            VoxelType::U64 | VoxelType::I64 => 8,
            VoxelType::F32 => 4,
            VoxelType::F64 => 8,
        }
    }
}

/// The block type that belongs to an on-disk code.
pub open spec fn block_type_of_code(c: u8) -> BlockType {
    if c == 2 {
        BlockType::LZ4
    } else if c == 3 {
        BlockType::LZ4HC
    } else {
        BlockType::Raw
    }
}

/// The voxel type that belongs to an on-disk code.
pub open spec fn voxel_type_of_code(c: u8) -> VoxelType {
    if c == 2 {
        VoxelType::U16
    } else if c == 3 {
        VoxelType::U32
    } else if c == 4 {
        VoxelType::U64
    } else if c == 5 {
        VoxelType::F32
    } else if c == 6 {
        VoxelType::F64
    } else if c == 7 {
        VoxelType::I8
    } else if c == 8 {
        VoxelType::I16
    } else if c == 9 {
        VoxelType::I32
    } else if c == 10 {
        VoxelType::I64
    } else {
        VoxelType::U8
    }
}

/// The little-endian bytes of a 64-bit word.
pub open spec fn le64_bytes(x: u64) -> Seq<u8> {
    Seq::new(8, |i: int| ((x >> (8 * i) as u64) & 0xff) as u8)
}

/// The 64-bit word read from eight little-endian bytes.
pub open spec fn le64_of(s: Seq<u8>) -> u64 {
    (s[0] as u64) | ((s[1] as u64) << 8) | ((s[2] as u64) << 16) | ((s[3] as u64) << 24) | ((
    s[4] as u64) << 32) | ((s[5] as u64) << 40) | ((s[6] as u64) << 48) | ((s[7] as u64) << 56)
}

/// Reading back the little-endian bytes of a word gives the word.
pub proof fn lemma_le64_round_trip(x: u64)
    ensures
        le64_of(le64_bytes(x)) == x,
{
    let s = le64_bytes(x);
    assert((((x >> 0) & 0xff) as u8 as u64) | ((((x >> 8) & 0xff) as u8 as u64) << 8) | ((((x
        >> 16) & 0xff) as u8 as u64) << 16) | ((((x >> 24) & 0xff) as u8 as u64) << 24) | ((((x
        >> 32) & 0xff) as u8 as u64) << 32) | ((((x >> 40) & 0xff) as u8 as u64) << 40) | ((((x
        >> 48) & 0xff) as u8 as u64) << 48) | ((((x >> 56) & 0xff) as u8 as u64) << 56) == x)
        by (bit_vector);
    assert(s[0] == ((x >> 0) & 0xff) as u8);
    assert(s[1] == ((x >> 8) & 0xff) as u8);
    assert(s[2] == ((x >> 16) & 0xff) as u8);
    assert(s[3] == ((x >> 24) & 0xff) as u8);
    assert(s[4] == ((x >> 32) & 0xff) as u8);
    assert(s[5] == ((x >> 40) & 0xff) as u8);
    assert(s[6] == ((x >> 48) & 0xff) as u8);
    assert(s[7] == ((x >> 56) & 0xff) as u8);
}

/// The fixed 16-byte header of a dataset or of one cube file, together with
/// the jump table of a compressed file.
#[derive(Clone, Debug, PartialEq)]
pub struct Header {
    pub version: u8,
    pub block_len_log2: u8,
    pub file_len_log2: u8,
    pub block_type: BlockType,
    pub voxel_type: VoxelType,
    pub voxel_size: u8,
    pub data_offset: u64,
    pub jump_table: Option<Vec<u64>>,
}

impl Header {
    /// The bounds that make every derived size fit the machine words used
    /// here, besides the format's own rules: versions one and two, nibble
    /// exponents, and a voxel size that is a whole number of elements.
    pub open spec fn wf(self) -> bool {
        &&& self.version == 1 || self.version == 2
        &&& self.block_len_log2 <= 15
        &&& self.file_len_log2 <= 15
        &&& self.block_len_log2 + self.file_len_log2 <= 18
        &&& self.voxel_size >= 1
        &&& self.voxel_size as int % self.voxel_type.spec_size() == 0
    }

    /// A jump table is present exactly for compressed block types, with one
    /// entry per block of the file.
    pub open spec fn jump_wf(self) -> bool {
        match self.jump_table {
            Some(t) => self.block_type.is_compressed() && t.len() == self.spec_file_vol(),
            None => !self.block_type.is_compressed(),
        }
    }

    /// Voxels per block edge.
    pub open spec fn spec_block_len(self) -> int {
        pow2i(self.block_len_log2 as nat)
    }

    /// Voxels per block.
    pub open spec fn spec_block_vol(self) -> int {
        pow2i(3 * self.block_len_log2 as nat)
    }

    /// Bytes per block.
    pub open spec fn spec_block_size(self) -> int {
        self.voxel_size * self.spec_block_vol()
    }

    /// Blocks per file edge.
    pub open spec fn spec_file_len(self) -> int {
        pow2i(self.file_len_log2 as nat)
    }

    /// Blocks per file.
    pub open spec fn spec_file_vol(self) -> int {
        pow2i(3 * self.file_len_log2 as nat)
    }

    /// Voxels per file edge.
    pub open spec fn spec_file_len_vx(self) -> int {
        pow2i((self.block_len_log2 + self.file_len_log2) as nat)
    }

    /// Voxels per file.
    pub open spec fn spec_file_vol_vx(self) -> int {
        pow2i(3 * (self.block_len_log2 + self.file_len_log2) as nat)
    }

    /// Bytes of voxel data per file.
    pub open spec fn spec_file_size(self) -> int {
        self.voxel_size * self.spec_file_vol_vx()
    }

    /// Bytes of the header region: sixteen fixed bytes plus the jump table.
    pub open spec fn spec_size_on_disk(self) -> int {
        if self.block_type.is_compressed() {
            16 + 8 * self.spec_file_vol()
        } else {
            16
        }
    }

    /// The sixteen fixed header bytes.
    pub open spec fn spec_bytes(self) -> Seq<u8> {
        seq![
            0x57u8,
            0x4bu8,
            0x57u8,
            self.version,
            ((self.file_len_log2 << 4) | self.block_len_log2) as u8,
            self.block_type.spec_code(),
            self.voxel_type.spec_code(),
            self.voxel_size,
        ] + le64_bytes(self.data_offset)
    }

    /// The byte offsets that the header implies stay inside a 64-bit word.
    pub open spec fn offsets_ok(self) -> bool {
        self.data_offset + self.spec_file_vol() * self.spec_block_size() <= u64::MAX
    }
}

/// Sixteen bytes form a header this library accepts: the magic, a known
/// version, known block and voxel type codes, a voxel size that is a whole
/// positive number of elements, and exponents whose sum the machine words
/// used here can carry.
pub open spec fn valid_header_bytes(s: Seq<u8>) -> bool {
    &&& s[0] == 0x57 && s[1] == 0x4b && s[2] == 0x57
    &&& (s[3] == 1 || s[3] == 2)
    &&& 1 <= s[5] <= 3
    &&& 1 <= s[6] <= 10
    &&& s[7] >= 1
    &&& s[7] as int % voxel_type_of_code(s[6]).spec_size() == 0
    &&& (s[4] & 0xf) + (s[4] >> 4) <= 18
}

/// The header that sixteen bytes describe.
pub open spec fn parse_header(s: Seq<u8>) -> Header {
    Header {
        version: s[3],
        block_len_log2: s[4] & 0xf,
        file_len_log2: s[4] >> 4,
        block_type: block_type_of_code(s[5]),
        voxel_type: voxel_type_of_code(s[6]),
        voxel_size: s[7],
        data_offset: le64_of(s.subrange(8, 16)),
        jump_table: None,
    }
}

impl Header {
    /// Parse the sixteen fixed header bytes at `off`.
    pub fn from_bytes(bytes: &Vec<u8>, off: usize) -> (r: Result<Header, WkwError>)
        requires
            off + 16 <= bytes@.len(),
        ensures
            r is Ok <==> valid_header_bytes(bytes@.subrange(off as int, off + 16)),
            r matches Ok(h) ==> h == parse_header(bytes@.subrange(off as int, off + 16))
                && h.wf(),
            r is Err ==> r == Err::<Header, WkwError>(WkwError::HeaderInvalid),
    {
        let ghost w = bytes@.subrange(off as int, off + 16);
        let n = bytes.len();
        if !(bytes[off] == 0x57 && bytes[off + 1] == 0x4b && bytes[off + 2] == 0x57) {
            return Err(WkwError::HeaderInvalid);
        }
        let version = bytes[off + 3];
        if !(version == 1 || version == 2) {
            return Err(WkwError::HeaderInvalid);
        }
        let per_dim = bytes[off + 4];
        let block_len_log2 = per_dim & 0xf;
        let file_len_log2 = per_dim >> 4;
        proof {
            assert(block_len_log2 <= 15 && file_len_log2 <= 15) by (bit_vector)
                requires
                    block_len_log2 == per_dim & 0xf && file_len_log2 == per_dim >> 4,
            ;
        }
        if block_len_log2 as u32 + file_len_log2 as u32 > 18 {
            return Err(WkwError::HeaderInvalid);
        }
        let block_type = match bytes[off + 5] {
            1 => BlockType::Raw,
            2 => BlockType::LZ4,
            3 => BlockType::LZ4HC,
            _ => {
                return Err(WkwError::HeaderInvalid);
            },
        };
        let voxel_type = match bytes[off + 6] {
            1 => VoxelType::U8,
            2 => VoxelType::U16,
            3 => VoxelType::U32,
            4 => VoxelType::U64,
            5 => VoxelType::F32,
            6 => VoxelType::F64,
            7 => VoxelType::I8,
            8 => VoxelType::I16,
            9 => VoxelType::I32,
            10 => VoxelType::I64,
            _ => {
                return Err(WkwError::HeaderInvalid);
            },
        };
        let voxel_size = bytes[off + 7];
        if voxel_size < 1 || voxel_size as usize % voxel_type.size() != 0 {
            return Err(WkwError::HeaderInvalid);
        }
        let data_offset = read_le64(bytes, off + 8);
        proof {
            assert(w.subrange(8, 16) =~= bytes@.subrange(off + 8, off + 16));
        }
        Ok(Header {
            version,
            block_len_log2,
            file_len_log2,
            block_type,
            voxel_type,
            voxel_size,
            data_offset,
            jump_table: None,
        })
    }

    /// Serialize the sixteen fixed header bytes.
    pub fn to_bytes(&self) -> (r: Vec<u8>)
        requires
            self.block_len_log2 <= 15,
            self.file_len_log2 <= 15,
        ensures
            r@ == self.spec_bytes(),
            r@.len() == 16,
    {
        let mut r: Vec<u8> = Vec::new();
        r.push(0x57);
        r.push(0x4b);
        r.push(0x57);
        r.push(self.version);
        r.push((self.file_len_log2 << 4u8) | self.block_len_log2);
        r.push(match self.block_type {
            BlockType::Raw => 1,
            BlockType::LZ4 => 2,
            BlockType::LZ4HC => 3,
        });
        r.push(match self.voxel_type {
            VoxelType::U8 => 1,
            VoxelType::U16 => 2,
            VoxelType::U32 => 3,
            VoxelType::U64 => 4,
            VoxelType::F32 => 5,
            VoxelType::F64 => 6,
            VoxelType::I8 => 7,
            VoxelType::I16 => 8,
            VoxelType::I32 => 9,
            VoxelType::I64 => 10,
        });
        r.push(self.voxel_size);
        push_le64(&mut r, self.data_offset);
        proof {
            assert(r@ =~= self.spec_bytes());
        }
        r
    }
}

/// Parsing the serialized bytes of a well-formed header gives the header
/// back, with no jump table attached.
pub proof fn lemma_header_round_trip(h: Header)
    requires
        h.wf(),
    ensures
        valid_header_bytes(h.spec_bytes()),
        parse_header(h.spec_bytes()) == (Header { jump_table: None, ..h }),
{
    let s = h.spec_bytes();
    let b = h.block_len_log2;
    let f = h.file_len_log2;
    assert(((f << 4) | b) & 0xf == b && ((f << 4) | b) >> 4 == f) by (bit_vector)
        requires
            b <= 15 && f <= 15,
    ;
    assert(s[4] == ((f << 4) | b) as u8);
    assert(s.subrange(8, 16) =~= le64_bytes(h.data_offset));
    lemma_le64_round_trip(h.data_offset);
    assert(block_type_of_code(h.block_type.spec_code()) == h.block_type);
    assert(voxel_type_of_code(h.voxel_type.spec_code()) == h.voxel_type);
}

/// Read a 64-bit little-endian word at `off`.
pub fn read_le64(bytes: &Vec<u8>, off: usize) -> (r: u64)
    requires
        off + 8 <= bytes@.len(),
    ensures
        r == le64_of(bytes@.subrange(off as int, off + 8)),
{
    let n = bytes.len();
    let r = (bytes[off] as u64) | ((bytes[off + 1] as u64) << 8u64) | ((bytes[off + 2] as u64)
        << 16u64) | ((bytes[off + 3] as u64) << 24u64) | ((bytes[off + 4] as u64) << 32u64) | ((
    bytes[off + 5] as u64) << 40u64) | ((bytes[off + 6] as u64) << 48u64) | ((bytes[off
        + 7] as u64) << 56u64);
    proof {
        let w = bytes@.subrange(off as int, off + 8);
        assert(w[0] == bytes@[off as int] && w[1] == bytes@[off + 1] && w[2] == bytes@[off + 2]
            && w[3] == bytes@[off + 3] && w[4] == bytes@[off + 4] && w[5] == bytes@[off + 5]
            && w[6] == bytes@[off + 6] && w[7] == bytes@[off + 7]);
    }
    r
}

/// Append the eight little-endian bytes of a 64-bit word.
pub fn push_le64(out: &mut Vec<u8>, x: u64)
    ensures
        final(out)@ == old(out)@ + le64_bytes(x),
{
    let ghost base = out@;
    out.push((x & 0xff) as u8);
    out.push(((x >> 8u64) & 0xff) as u8);
    out.push(((x >> 16u64) & 0xff) as u8);
    out.push(((x >> 24u64) & 0xff) as u8);
    out.push(((x >> 32u64) & 0xff) as u8);
    out.push(((x >> 40u64) & 0xff) as u8);
    out.push(((x >> 48u64) & 0xff) as u8);
    out.push(((x >> 56u64) & 0xff) as u8);
    proof {
        assert(x & 0xff == (x >> 0) & 0xff) by (bit_vector);
        assert(out@ =~= base + le64_bytes(x));
    }
}


/// The concatenated little-endian bytes of the jump-table entries.
pub open spec fn jump_bytes(t: Seq<u64>) -> Seq<u8>
    decreases t.len(),
{
    if t.len() == 0 {
        Seq::empty()
    } else {
        jump_bytes(t.drop_last()) + le64_bytes(t.last())
    }
}

/// The jump-table entries read from `n` eight-byte groups at `off`.
pub open spec fn jump_entries(s: Seq<u8>, off: int, n: nat) -> Seq<u64> {
    Seq::new(n, |i: int| le64_of(s.subrange(off + 8 * i, off + 8 * i + 8)))
}

/// Powers of two up to 2^63, as executable code.
pub fn pow2_u64(k: u32) -> (r: u64)
    requires
        k <= 63,
    ensures
        r == pow2i(k as nat),
        r >= 1,
{
    proof {
        crate::morton::shl1_is_pow2(k as u64);
        vstd::arithmetic::power2::lemma_pow2_pos(k as nat);
    }
    1u64 << k
}

/// Powers of two do not shrink as the exponent grows.
pub proof fn lemma_pow2_le(a: nat, b: nat)
    requires
        a <= b,
    ensures
        pow2i(a) <= pow2i(b),
{
    if a < b {
        vstd::arithmetic::power2::lemma_pow2_strictly_increases(a, b);
    }
}

impl Header {
    /// Where block `i` starts in the file: behind the previous blocks for a
    /// raw file, at the previous jump entry for a compressed one.
    pub open spec fn spec_block_offset(self, i: int) -> int {
        if !self.block_type.is_compressed() {
            self.data_offset + i * self.spec_block_size()
        } else if i == 0 {
            self.data_offset as int
        } else {
            self.jump_table.unwrap()@[i - 1] as int
        }
    }

    pub fn block_len(&self) -> (r: u16)
        requires
            self.wf(),
        ensures
            r == self.spec_block_len(),
    {
        let v = pow2_u64(self.block_len_log2 as u32);
        proof {
            vstd::arithmetic::power2::lemma2_to64();
            lemma_pow2_le(self.block_len_log2 as nat, 15);
        }
        v as u16
    }

    pub fn block_vol(&self) -> (r: u64)
        requires
            self.wf(),
        ensures
            r == self.spec_block_vol(),
    {
        pow2_u64(3 * self.block_len_log2 as u32)
    }

    pub fn block_size(&self) -> (r: u64)
        requires
            self.wf(),
        ensures
            r == self.spec_block_size(),
    {
        let vol = self.block_vol();
        proof {
            lemma_pow2_le(3 * self.block_len_log2 as nat, 45);
            vstd::arithmetic::power2::lemma2_to64();
            vstd::arithmetic::power2::lemma2_to64_rest();
            assert(self.voxel_size as int * vol as int <= 255 * 0x200000000000)
                by (nonlinear_arith)
                requires
                    self.voxel_size <= 255 && vol <= 0x200000000000,
            ;
        }
        self.voxel_size as u64 * vol
    }

    pub fn file_len(&self) -> (r: u16)
        requires
            self.wf(),
        ensures
            r == self.spec_file_len(),
    {
        let v = pow2_u64(self.file_len_log2 as u32);
        proof {
            vstd::arithmetic::power2::lemma2_to64();
            lemma_pow2_le(self.file_len_log2 as nat, 15);
        }
        v as u16
    }

    pub fn file_vol(&self) -> (r: u64)
        requires
            self.wf(),
        ensures
            r == self.spec_file_vol(),
    {
        pow2_u64(3 * self.file_len_log2 as u32)
    }

    pub fn file_len_vx_log2(&self) -> (r: u8)
        requires
            self.wf(),
        ensures
            r == self.block_len_log2 + self.file_len_log2,
    {
        self.block_len_log2 + self.file_len_log2
    }

    pub fn file_len_vx(&self) -> (r: u32)
        requires
            self.wf(),
        ensures
            r == self.spec_file_len_vx(),
    {
        let v = pow2_u64(self.block_len_log2 as u32 + self.file_len_log2 as u32);
        proof {
            vstd::arithmetic::power2::lemma2_to64();
            lemma_pow2_le((self.block_len_log2 + self.file_len_log2) as nat, 18);
        }
        v as u32
    }

    pub fn file_vol_vx(&self) -> (r: u64)
        requires
            self.wf(),
        ensures
            r == self.spec_file_vol_vx(),
    {
        pow2_u64(3 * (self.block_len_log2 as u32 + self.file_len_log2 as u32))
    }

    pub fn file_size(&self) -> (r: u64)
        requires
            self.wf(),
        ensures
            r == self.spec_file_size(),
    {
        let vol = self.file_vol_vx();
        proof {
            lemma_pow2_le(3 * (self.block_len_log2 + self.file_len_log2) as nat, 54);
            vstd::arithmetic::power2::lemma2_to64();
            vstd::arithmetic::power2::lemma2_to64_rest();
            assert(self.voxel_size as int * vol as int <= 255 * 0x40000000000000)
                by (nonlinear_arith)
                requires
                    self.voxel_size <= 255 && vol <= 0x40000000000000,
            ;
        }
        self.voxel_size as u64 * vol
    }

    /// Bytes taken by the sixteen header bytes and the jump table, if any.
    pub fn size_on_disk(&self) -> (r: u64)
        requires
            self.wf(),
        ensures
            r == self.spec_size_on_disk(),
    {
        if self.block_type.compressed() {
            let vol = self.file_vol();
            proof {
                lemma_pow2_le(3 * self.file_len_log2 as nat, 45);
                vstd::arithmetic::power2::lemma2_to64();
                vstd::arithmetic::power2::lemma2_to64_rest();
            }
            16 + 8 * vol
        } else {
            16
        }
    }

    pub fn voxel_type_size(&self) -> (r: usize)
        ensures
            r == self.voxel_type.spec_size(),
    {
        self.voxel_type.size()
    }

    /// How many channels one voxel interleaves.
    pub fn num_channels(&self) -> (r: usize)
        requires
            self.wf(),
        ensures
            r == self.voxel_size as int / self.voxel_type.spec_size(),
            r >= 1,
    {
        let r = self.voxel_size as usize / self.voxel_type.size();
        proof {
            vstd::arithmetic::div_mod::lemma_fundamental_div_mod(
                self.voxel_size as int,
                self.voxel_type.spec_size(),
            );
        }
        r
    }

    pub fn is_multi_channel(&self) -> (r: bool)
        ensures
            r == (self.voxel_size as int > self.voxel_type.spec_size()),
    {
        self.voxel_size as usize > self.voxel_type.size()
    }

    /// A header for a fresh file inside a dataset: same geometry and types,
    /// with the data offset and jump table reinitialized.
    pub fn from_template(template: &Header) -> (r: Header)
        requires
            template.wf(),
            template.spec_file_vol() <= usize::MAX,
        ensures
            r.fresh_from(*template, template.block_type),
            r.wf(),
            r.jump_wf(),
    {
        Self::init_with(template, Self::clone_block_type(template))
    }

    /// The compressed twin of a header: same geometry and types, block type
    /// LZ4HC, data offset and jump table reinitialized.
    pub fn compress(template: &Header) -> (r: Header)
        requires
            template.wf(),
            template.spec_file_vol() <= usize::MAX,
        ensures
            r.fresh_from(*template, BlockType::LZ4HC),
            r.wf(),
            r.jump_wf(),
    {
        Self::init_with(template, BlockType::LZ4HC)
    }

    /// The header is a freshly initialized copy of the template: same
    /// geometry and types, the given block type, the data offset pointing
    /// just past the header region, and a zeroed jump table when compressed.
    pub open spec fn fresh_from(self, template: Header, bt: BlockType) -> bool {
        &&& self.version == template.version
        &&& self.block_len_log2 == template.block_len_log2
        &&& self.file_len_log2 == template.file_len_log2
        &&& self.voxel_type == template.voxel_type
        &&& self.voxel_size == template.voxel_size
        &&& self.block_type == bt
        &&& self.data_offset == if self.version == 2 {
            0
        } else {
            self.spec_size_on_disk()
        }
        &&& if bt.is_compressed() {
            self.jump_table matches Some(t) && t@ == Seq::new(
                self.spec_file_vol() as nat,
                |i: int| 0u64,
            )
        } else {
            self.jump_table is None
        }
    }

    fn clone_block_type(template: &Header) -> (r: BlockType)
        ensures
            r == template.block_type,
    {
        match template.block_type {
            BlockType::Raw => BlockType::Raw,
            BlockType::LZ4 => BlockType::LZ4,
            BlockType::LZ4HC => BlockType::LZ4HC,
        }
    }

    fn init_with(template: &Header, bt: BlockType) -> (r: Header)
        requires
            template.wf(),
            template.spec_file_vol() <= usize::MAX,
        ensures
            r.fresh_from(*template, bt),
            r.wf(),
            r.jump_wf(),
    {
        let mut h = Header {
            version: template.version,
            block_len_log2: template.block_len_log2,
            file_len_log2: template.file_len_log2,
            block_type: bt,
            voxel_type: template.voxel_type,
            voxel_size: template.voxel_size,
            data_offset: 0,
            jump_table: None,
        };
        h.data_offset = if h.version == 2 {
            0
        } else {
            h.size_on_disk()
        };
        if h.block_type.compressed() {
            let vol = h.file_vol();
            let t: Vec<u64> = vec![0u64; vol as usize];
            h.jump_table = Some(t);
        }
        proof {
            if h.block_type.is_compressed() {
                assert(h.jump_table->Some_0@ =~= Seq::new(
                    template.spec_file_vol() as nat,
                    |i: int| 0u64,
                ));
            }
        }
        h
    }

    /// Where block `block_idx` starts in the file.
    pub fn block_offset(&self, block_idx: u64) -> (r: Result<u64, WkwError>)
        requires
            self.wf(),
            self.jump_wf(),
            !self.block_type.is_compressed() ==> self.offsets_ok(),
        ensures
            r is Ok <==> block_idx < self.spec_file_vol(),
            r matches Ok(o) ==> o == self.spec_block_offset(block_idx as int),
            r is Err ==> r == Err::<u64, WkwError>(WkwError::BlockIndexOutOfBounds),
    {
        if block_idx >= self.file_vol() {
            return Err(WkwError::BlockIndexOutOfBounds);
        }
        match &self.jump_table {
            None => {
                let bs = self.block_size();
                proof {
                    vstd::arithmetic::mul::lemma_mul_inequality(
                        block_idx as int,
                        self.spec_file_vol(),
                        bs as int,
                    );
                }
                Ok(self.data_offset + block_idx * bs)
            },
            Some(t) => {
                if block_idx == 0 {
                    Ok(self.data_offset)
                } else {
                    Ok(t[(block_idx - 1) as usize])
                }
            },
        }
    }

    /// How many bytes block `block_idx` takes on disk.
    pub fn block_size_on_disk(&self, block_idx: u64) -> (r: Result<u64, WkwError>)
        requires
            self.wf(),
            self.jump_wf(),
            !self.block_type.is_compressed() ==> self.offsets_ok(),
        ensures
            block_idx >= self.spec_file_vol() ==> r == Err::<u64, WkwError>(
                WkwError::BlockIndexOutOfBounds,
            ),
            block_idx < self.spec_file_vol() ==> {
                let start = self.spec_block_offset(block_idx as int);
                let past = self.spec_block_past(block_idx as int);
                if start <= past {
                    r == Ok::<u64, WkwError>((past - start) as u64)
                } else {
                    r == Err::<u64, WkwError>(WkwError::CorruptJumpTable)
                }
            },
    {
        if block_idx >= self.file_vol() {
            return Err(WkwError::BlockIndexOutOfBounds);
        }
        match &self.jump_table {
            None => {
                let bs = self.block_size();
                proof {
                    vstd::arithmetic::mul::lemma_mul_is_distributive_add_other_way(
                        self.spec_block_size(),
                        block_idx as int,
                        1,
                    );
                }
                Ok(bs)
            },
            Some(t) => {
                let past = t[block_idx as usize];
                let start = if block_idx == 0 {
                    self.data_offset
                } else {
                    t[(block_idx - 1) as usize]
                };
                if past >= start {
                    Ok(past - start)
                } else {
                    Err(WkwError::CorruptJumpTable)
                }
            },
        }
    }

    /// Where block `i` ends in the file.
    pub open spec fn spec_block_past(self, i: int) -> int {
        if !self.block_type.is_compressed() {
            self.data_offset + (i + 1) * self.spec_block_size()
        } else {
            self.jump_table.unwrap()@[i] as int
        }
    }

    /// The largest number of bytes any block of this file can take on disk.
    pub fn max_block_size_on_disk(&self) -> (r: u64)
        requires
            self.wf(),
        ensures
            !self.block_type.is_compressed() ==> r == self.spec_block_size(),
            self.block_type.is_compressed() ==> r == crate::lz4::spec_compress_bound(
                self.spec_block_size(),
            ),
    {
        let bs = self.block_size();
        if self.block_type.compressed() {
            proof {
                lemma_pow2_le(3 * self.block_len_log2 as nat, 45);
                vstd::arithmetic::power2::lemma2_to64();
                vstd::arithmetic::power2::lemma2_to64_rest();
                let vol = self.spec_block_vol();
                assert(self.voxel_size as int * vol <= 255 * 0x200000000000)
                    by (nonlinear_arith)
                    requires
                        self.voxel_size <= 255 && 0 <= vol <= 0x200000000000,
                ;
            }
            crate::lz4::compress_bound(bs)
        } else {
            bs
        }
    }
}


impl Header {
    /// Parse a header region: the sixteen fixed bytes at `off`, followed by
    /// the jump table when the header describes a compressed cube file (a
    /// data offset of zero marks a bare dataset header, which carries none).
    pub fn read(bytes: &Vec<u8>, off: usize) -> (r: Result<Header, WkwError>)
        requires
            off + 16 <= bytes@.len(),
        ensures
            ({
                let w = bytes@.subrange(off as int, off + 16);
                let h = parse_header(w);
                &&& (r is Ok ==> valid_header_bytes(w))
                &&& (valid_header_bytes(w) ==> {
                    &&& (!(h.data_offset != 0 && h.block_type.is_compressed()) ==> r == Ok::<
                        Header,
                        WkwError,
                    >(h))
                    &&& (h.data_offset != 0 && h.block_type.is_compressed() ==> {
                        &&& (off + 16 + 8 * h.spec_file_vol() <= bytes@.len() ==> (r matches Ok(g)
                            && g == (Header {
                            jump_table: g.jump_table,
                            ..h
                        }) && (g.jump_table matches Some(t) && t@ == jump_entries(
                            bytes@,
                            off + 16,
                            h.spec_file_vol() as nat,
                        ))))
                        &&& (off + 16 + 8 * h.spec_file_vol() > bytes@.len() ==> r == Err::<
                            Header,
                            WkwError,
                        >(WkwError::JumpTableIo))
                    })
                })
                &&& (!valid_header_bytes(w) ==> r == Err::<Header, WkwError>(
                    WkwError::HeaderInvalid,
                ))
                &&& (r matches Ok(g) ==> g.wf())
                &&& (r matches Ok(g) ==> ((g.data_offset != 0
                    && g.block_type.is_compressed()) ==> g.jump_wf()))
            }),
    {
        let mut h = match Self::from_bytes(bytes, off) {
            Ok(h) => h,
            Err(e) => {
                return Err(e);
            },
        };
        if h.data_offset == 0 || !h.block_type.compressed() {
            return Ok(h);
        }
        let vol = h.file_vol();
        let n = bytes.len();
        if n < off + 16 || ((n - (off + 16)) as u64) / 8 < vol {
            return Err(WkwError::JumpTableIo);
        }
        let base = off + 16;
        let mut t: Vec<u64> = Vec::new();
        let mut i: usize = 0;
        proof {
            vstd::arithmetic::div_mod::lemma_fundamental_div_mod(
                (n - base) as int,
                8,
            );
        }
        while i < vol as usize
            invariant
                t@.len() == i,
                i <= vol,
                vol == h.spec_file_vol(),
                base + 8 * vol <= bytes@.len() <= usize::MAX,
                base + 16 <= usize::MAX + 16,
                forall|e: int|
                    0 <= e < i ==> t@[e] == le64_of(
                        bytes@.subrange(base + 8 * e, base + 8 * e + 8),
                    ),
            decreases vol - i,
        {
            let entry = read_le64(bytes, base + 8 * i);
            t.push(entry);
            i = i + 1;
        }
        proof {
            assert(t@ =~= jump_entries(bytes@, base as int, h.spec_file_vol() as nat));
        }
        h.jump_table = Some(t);
        Ok(h)
    }

    /// Serialize the whole header region: the sixteen fixed bytes followed
    /// by the jump table, if one is attached.
    pub fn write_bytes(&self) -> (r: Vec<u8>)
        requires
            self.block_len_log2 <= 15,
            self.file_len_log2 <= 15,
        ensures
            self.jump_table matches Some(t) ==> r@ == self.spec_bytes() + jump_bytes(t@),
            self.jump_table is None ==> r@ == self.spec_bytes(),
    {
        let mut r = self.to_bytes();
        match &self.jump_table {
            None => r,
            Some(t) => {
                let mut i: usize = 0;
                proof {
                    assert(t@.subrange(0, 0) =~= Seq::<u64>::empty());
                    assert(r@ =~= self.spec_bytes() + jump_bytes(t@.subrange(0, 0)));
                }
                while i < t.len()
                    invariant
                        i <= t@.len(),
                        r@ == self.spec_bytes() + jump_bytes(t@.subrange(0, i as int)),
                    decreases t@.len() - i,
                {
                    push_le64(&mut r, t[i]);
                    proof {
                        let pre = t@.subrange(0, i as int);
                        let cur = t@.subrange(0, i + 1);
                        assert(cur.drop_last() =~= pre);
                        assert(cur.last() == t@[i as int]);
                    }
                    i = i + 1;
                }
                proof {
                    assert(t@.subrange(0, t@.len() as int) =~= t@);
                }
                r
            },
        }
    }
}


/// Read `vol` jump-table entries at `off`.
pub(crate) fn read_jump_table(bytes: &Vec<u8>, off: usize, vol: u64) -> (r: Result<
    Vec<u64>,
    WkwError,
>)
    ensures
        r is Ok <==> off + 8 * vol <= bytes@.len(),
        r matches Ok(t) ==> t@ == jump_entries(bytes@, off as int, vol as nat) && t@.len() == vol,
        r is Err ==> r == Err::<Vec<u64>, WkwError>(WkwError::JumpTableIo),
{
    let n = bytes.len();
    if n < off || ((n - off) as u64) / 8 < vol {
        proof {
            vstd::arithmetic::div_mod::lemma_fundamental_div_mod((n - off) as int, 8);
            if n >= off && ((n - off) as u64) / 8 < vol {
                assert(n - off < 8 * vol);
            }
        }
        return Err(WkwError::JumpTableIo);
    }
    proof {
        vstd::arithmetic::div_mod::lemma_fundamental_div_mod((n - off) as int, 8);
    }
    let mut t: Vec<u64> = Vec::new();
    let mut i: usize = 0;
    while i < vol as usize
        invariant
            t@.len() == i,
            i <= vol,
            off + 8 * vol <= bytes@.len() <= usize::MAX,
            forall|e: int|
                0 <= e < i ==> t@[e] == le64_of(bytes@.subrange(off + 8 * e, off + 8 * e + 8)),
        decreases vol - i,
    {
        let entry = read_le64(bytes, off + 8 * i);
        t.push(entry);
        i = i + 1;
    }
    proof {
        assert(t@ =~= jump_entries(bytes@, off as int, vol as nat));
    }
    Ok(t)
}


/// The block region of a file is exactly the file volume of blocks: counts
/// and sizes multiply out, and none of them is zero.
pub proof fn lemma_file_geometry(h: Header)
    requires
        h.wf(),
    ensures
        h.spec_file_vol() * h.spec_block_size() == h.spec_file_size(),
        h.spec_block_size() >= 1,
        h.spec_file_vol() >= 1,
        h.spec_file_size() >= 1,
        h.spec_file_size() <= 0x4000000000000000,
        h.spec_block_size() <= 0x4000000000000000,
{
    vstd::arithmetic::power2::lemma_pow2_pos(3 * h.block_len_log2 as nat);
    vstd::arithmetic::power2::lemma_pow2_pos(3 * h.file_len_log2 as nat);
    vstd::arithmetic::power2::lemma_pow2_pos(3 * (h.block_len_log2 + h.file_len_log2) as nat);
    vstd::arithmetic::power2::lemma_pow2_adds(
        3 * h.file_len_log2 as nat,
        3 * h.block_len_log2 as nat,
    );
    let fv = h.spec_file_vol();
    let bv = h.spec_block_vol();
    let vsz = h.voxel_size as int;
    assert(fv * (vsz * bv) == vsz * (fv * bv)) by (nonlinear_arith);
    lemma_pow2_le(3 * (h.block_len_log2 + h.file_len_log2) as nat, 54);
    vstd::arithmetic::power2::lemma2_to64();
    vstd::arithmetic::power2::lemma2_to64_rest();
    assert(vsz * h.spec_file_vol_vx() <= 255 * 0x40000000000000) by (nonlinear_arith)
        requires
            vsz <= 255 && 0 <= h.spec_file_vol_vx() <= 0x40000000000000,
    ;
    lemma_pow2_le(3 * h.block_len_log2 as nat, 54);
    assert(vsz * bv <= 255 * 0x40000000000000) by (nonlinear_arith)
        requires
            vsz <= 255 && 0 <= bv <= 0x40000000000000,
    ;
    assert(vsz * bv >= 1 && vsz * h.spec_file_vol_vx() >= 1) by (nonlinear_arith)
        requires
            vsz >= 1 && bv >= 1 && h.spec_file_vol_vx() >= 1,
    ;
}

} // verus!
