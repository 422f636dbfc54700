use vstd::prelude::*;

use crate::error::WkwError;
use crate::vec3::pow2i;
use crate::vec3::Box3;
use crate::vec3::Vec3;

verus! {

/// Spread the low 21 bits of `x` into every third bit of the result.
pub open spec fn spread3(x: u64) -> u64 {
    let a = x & 0x1fffff;
    let b = (a | (a << 32)) & 0x1f00000000ffff;
    let c = (b | (b << 16)) & 0x1f0000ff0000ff;
    let d = (c | (c << 8)) & 0x100f00f00f00f00f;
    let e = (d | (d << 4)) & 0x10c30c30c30c30c3;
    (e | (e << 2)) & 0x1249249249249249
}

/// Gather every third bit of `m` back into the low 21 bits of the result.
pub open spec fn compact3(m: u64) -> u64 {
    let a = m & 0x1249249249249249;
    let b = (a | (a >> 2)) & 0x10c30c30c30c30c3;
    let c = (b | (b >> 4)) & 0x100f00f00f00f00f;
    let d = (c | (c >> 8)) & 0x1f0000ff0000ff;
    let e = (d | (d >> 16)) & 0x1f00000000ffff;
    (e | (e >> 32)) & 0x1fffff
}

/// The Morton index of a coordinate triple: the three spread words interleaved.
pub open spec fn spec_encode(v: Vec3) -> u64 {
    spread3(v.x as u64) | (spread3(v.y as u64) << 1) | (spread3(v.z as u64) << 2)
}

/// The coordinate triple of a Morton index.
pub open spec fn spec_decode(m: u64) -> Vec3 {
    Vec3 { x: compact3(m) as u32, y: compact3(m >> 1) as u32, z: compact3(m >> 2) as u32 }
}

/// Decoding inverts encoding on coordinates below 2^21.
pub proof fn lemma_decode_encode(v: Vec3)
    requires
        v.x < 0x200000,
        v.y < 0x200000,
        v.z < 0x200000,
    ensures
        spec_decode(spec_encode(v)) == v,
{
    let x = v.x as u64;
    let y = v.y as u64;
    let z = v.z as u64;
    let m = spec_encode(v);
    assert(compact3(m) == x && compact3(m >> 1) == y && compact3(m >> 2) == z) by (bit_vector)
        requires
            x < 0x200000 && y < 0x200000 && z < 0x200000,
            m == (spread3(x) | (spread3(y) << 1) | (spread3(z) << 2)),
    ;
}

/// Encoding inverts decoding on indices below 2^63.
pub proof fn lemma_encode_decode(m: u64)
    requires
        m < 0x8000000000000000,
    ensures
        spec_encode(spec_decode(m)) == m,
{
    assert(compact3(m) < 0x200000 && compact3(m >> 1) < 0x200000 && compact3(m >> 2) < 0x200000)
        by (bit_vector);
    assert(spec_decode(m).x as u64 == compact3(m));
    assert(spec_decode(m).y as u64 == compact3(m >> 1));
    assert(spec_decode(m).z as u64 == compact3(m >> 2));
    assert((spread3(compact3(m)) | (spread3(compact3(m >> 1)) << 1) | (spread3(
        compact3(m >> 2),
    ) << 2)) == m) by (bit_vector)
        requires
            m < 0x8000000000000000,
    ;
}

/// Decoded coordinates always lie below 2^21.
pub proof fn lemma_decode_bounds(m: u64)
    ensures
        spec_decode(m).x < 0x200000,
        spec_decode(m).y < 0x200000,
        spec_decode(m).z < 0x200000,
        spec_decode(m).x == compact3(m),
        spec_decode(m).y == compact3(m >> 1),
        spec_decode(m).z == compact3(m >> 2),
{
    assert(compact3(m) < 0x200000 && compact3(m >> 1) < 0x200000 && compact3(m >> 2) < 0x200000)
        by (bit_vector);
}

/// A Morton (Z-order) linear index.
#[derive(Clone, Copy, Debug, PartialEq, Eq, Structural)]
pub struct Morton(pub u64);

impl Morton {
    pub fn new(idx: u64) -> (r: Morton)
        ensures
            r.0 == idx,
    {
        Morton(idx)
    }

    pub fn value(&self) -> (r: u64)
        ensures
            r == self.0,
    {
        self.0
    }

    /// Interleave the bits of the three coordinates into one linear index.
    pub fn encode(v: &Vec3) -> (r: Morton)
        requires
            v.x < 0x200000,
            v.y < 0x200000,
            v.z < 0x200000,
        ensures
            r.0 == spec_encode(*v),
    {
        Morton(spread_bits(v.x) | (spread_bits(v.y) << 1u64) | (spread_bits(v.z) << 2u64))
    }

    /// Recover the three coordinates from the interleaved index.
    pub fn decode(&self) -> (r: Vec3)
        ensures
            r == spec_decode(self.0),
    {
        Vec3 { x: compact_bits(self.0), y: compact_bits(self.0 >> 1u64), z: compact_bits(self.0 >> 2u64) }
    }
}

/// Executable form of `spread3`.
fn spread_bits(x: u32) -> (r: u64)
    ensures
        r == spread3(x as u64),
{
    let a: u64 = (x as u64) & 0x1fffff;
    let b: u64 = (a | (a << 32u64)) & 0x1f00000000ffff;
    let c: u64 = (b | (b << 16u64)) & 0x1f0000ff0000ff;
    let d: u64 = (c | (c << 8u64)) & 0x100f00f00f00f00f;
    let e: u64 = (d | (d << 4u64)) & 0x10c30c30c30c30c3;
    (e | (e << 2u64)) & 0x1249249249249249
}

/// Executable form of `compact3`; the result always fits 21 bits.
fn compact_bits(m: u64) -> (r: u32)
    ensures
        r == compact3(m),
{
    let a: u64 = m & 0x1249249249249249;
    let b: u64 = (a | (a >> 2u64)) & 0x10c30c30c30c30c3;
    let c: u64 = (b | (b >> 4u64)) & 0x100f00f00f00f00f;
    let d: u64 = (c | (c >> 8u64)) & 0x1f0000ff0000ff;
    let e: u64 = (d | (d >> 16u64)) & 0x1f00000000ffff;
    let f: u64 = (e | (e >> 32u64)) & 0x1fffff;
    proof {
        assert(compact3(m) < 0x200000) by (bit_vector);
    }
    f as u32
}

/// The number of cells in a cube of side 2^s, as a shifted word.
pub open spec fn cell_count(s: u64) -> u64 {
    1u64 << ((3 * s) as u64)
}

/// The side of a cube, as a shifted word.
pub open spec fn side_len(s: u64) -> u64 {
    1u64 << s
}

/// A shift of one is the power of two, for shifts that fit a 32-bit word.
pub proof fn shl1_is_pow2_u32(k: u32)
    requires
        k <= 21,
    ensures
        (1u32 << k) == pow2i(k as nat),
{
    vstd::arithmetic::power2::lemma2_to64();
    vstd::arithmetic::power2::lemma_pow2_strictly_increases(k as nat, 22);
    vstd::bits::lemma_u32_shl_is_mul(1u32, k);
}

/// A shift of one is the power of two, for shifts that fit a 64-bit word.
pub proof fn shl1_is_pow2(k: u64)
    requires
        k < 64,
    ensures
        (1u64 << k) == pow2i(k as nat),
{
    vstd::bits::lemma_u64_pow2_no_overflow(k as nat);
    vstd::bits::lemma_u64_shl_is_mul(1u64, k);
}

/// Gathering every third bit distributes over bitwise or.
proof fn lemma_compact_or(a: u64, b: u64)
    ensures
        compact3(a | b) == compact3(a) | compact3(b),
        (a | b) >> 1 == (a >> 1) | (b >> 1),
        (a | b) >> 2 == (a >> 2) | (b >> 2),
{
    assert(compact3(a | b) == compact3(a) | compact3(b) && (a | b) >> 1 == (a >> 1) | (b >> 1) && (
    a | b) >> 2 == (a >> 2) | (b >> 2)) by (bit_vector);
}

/// An aligned word plus a small word is their bitwise or.
proof fn lemma_or_is_add(a: u64, b: u64, s: u64)
    requires
        s < 64,
        a & (((1u64 << s) - 1) as u64) == 0,
        b < (1u64 << s),
    ensures
        (a | b) == a + b,
{
    assert((a | b) == a + b) by (bit_vector)
        requires
            s < 64 && a & (((1u64 << s) - 1) as u64) == 0 && b < (1u64 << s),
    ;
}

/// The lanes of a word below 8^s are below 2^s.
proof fn lemma_compact_small(w: u64, s: u64)
    requires
        s <= 21,
        w < cell_count(s),
    ensures
        compact3(w) < side_len(s),
        compact3(w >> 1) < side_len(s),
        compact3(w >> 2) < side_len(s),
{
    assert(compact3(w) < side_len(s) && compact3(w >> 1) < side_len(s) && compact3(w >> 2)
        < side_len(s)) by (bit_vector)
        requires
            s <= 21 && w < cell_count(s),
    ;
}

/// The lanes of a multiple of 8^s are multiples of 2^s, in mask form.
proof fn lemma_compact_aligned(c: u64, s: u64)
    requires
        s <= 21,
        c & ((cell_count(s) - 1) as u64) == 0,
    ensures
        compact3(c) & ((side_len(s) - 1) as u64) == 0,
        compact3(c >> 1) & ((side_len(s) - 1) as u64) == 0,
        compact3(c >> 2) & ((side_len(s) - 1) as u64) == 0,
{
    assert(compact3(c) & ((side_len(s) - 1) as u64) == 0 && compact3(c >> 1) & ((side_len(s)
        - 1) as u64) == 0 && compact3(c >> 2) & ((side_len(s) - 1) as u64) == 0) by (bit_vector)
        requires
            s <= 21 && c & ((cell_count(s) - 1) as u64) == 0,
    ;
}

/// The three lanes of an aligned Morton range: every index inside a range of
/// 8^s indices that starts at a multiple of 8^s decodes into the axis-aligned
/// cube of side 2^s whose corner is the decoded range start, and that corner
/// is aligned to 2^s in every axis.
proof fn lemma_cube_lanes(c: u64, j: u64, s: u64)
    requires
        s <= 21,
        c & ((cell_count(s) - 1) as u64) == 0,
        c <= j,
        j < c + cell_count(s),
    ensures
        compact3(c) <= compact3(j) < compact3(c) + side_len(s),
        compact3(c >> 1) <= compact3(j >> 1) < compact3(c >> 1) + side_len(s),
        compact3(c >> 2) <= compact3(j >> 2) < compact3(c >> 2) + side_len(s),
{
    lemma_compact_aligned(c, s);
    let w = (j - c) as u64;
    assert(w < cell_count(s));
    lemma_or_is_add(c, w, (3 * s) as u64);
    assert(j == (c | w));
    lemma_compact_or(c, w);
    lemma_compact_or(c >> 1, w >> 1);
    lemma_compact_or(c >> 2, w >> 2);
    lemma_compact_small(w, s);
    lemma_or_is_add_small(compact3(c), compact3(w), s);
    lemma_or_is_add_small(compact3(c >> 1), compact3(w >> 1), s);
    lemma_or_is_add_small(compact3(c >> 2), compact3(w >> 2), s);
}

/// Combining an aligned lane with a small lane adds them.
proof fn lemma_or_is_add_small(a: u64, b: u64, s: u64)
    requires
        s <= 21,
        a & ((side_len(s) - 1) as u64) == 0,
        b < side_len(s),
    ensures
        (a | b) == a + b,
        a <= (a | b) < a + side_len(s),
{
    assert((a | b) == a + b) by (bit_vector)
        requires
            s <= 21 && a & (((1u64 << s) - 1) as u64) == 0 && b < (1u64 << s),
    ;
}

/// Encoding coordinates below 2^s gives an index below 8^s.
proof fn lemma_encode_range(x: u64, y: u64, z: u64, s: u64)
    requires
        s <= 21,
        x < side_len(s),
        y < side_len(s),
        z < side_len(s),
    ensures
        (spread3(x) | (spread3(y) << 1) | (spread3(z) << 2)) < cell_count(s),
{
    assert((spread3(x) | (spread3(y) << 1) | (spread3(z) << 2)) < cell_count(s)) by (bit_vector)
        requires
            s <= 21 && x < side_len(s) && y < side_len(s) && z < side_len(s),
    ;
}

/// The number of cells in the cube that an iterator with the given exponent walks.
pub open spec fn max_index(log2: nat) -> int {
    pow2i(3 * log2)
}

/// The index lies in the iterator's cube and decodes into the query box.
pub open spec fn in_query(log2: nat, bbox: Box3, k: u64) -> bool {
    k < max_index(log2) && bbox.contains(spec_decode(k))
}

/// The aligned-cube lemma, restated over decoded coordinates and powers of two.
pub proof fn lemma_cube_decode(c: u64, j: u64, s: u32)
    requires
        s <= 21,
        c as int % pow2i(3 * s as nat) == 0,
        c <= j,
        j < c + pow2i(3 * s as nat),
    ensures
        spec_decode(c).x <= spec_decode(j).x < spec_decode(c).x + pow2i(s as nat),
        spec_decode(c).y <= spec_decode(j).y < spec_decode(c).y + pow2i(s as nat),
        spec_decode(c).z <= spec_decode(j).z < spec_decode(c).z + pow2i(s as nat),
{
    shl1_is_pow2((3 * s) as u64);
    shl1_is_pow2(s as u64);
    lemma_decode_bounds(c);
    lemma_decode_bounds(j);
    vstd::bits::lemma_u64_low_bits_mask_is_mod(c, 3 * s as nat);
    vstd::arithmetic::power2::lemma_pow2_pos(3 * s as nat);
    assert(cell_count(s as u64) == pow2i(3 * s as nat));
    assert(vstd::bits::low_bits_mask(3 * s as nat) == (cell_count(s as u64) - 1) as u64);
    assert(c % (vstd::arithmetic::power2::pow2(3 * s as nat) as u64) == 0);
    assert(c & ((cell_count(s as u64) - 1) as u64) == 0);
    lemma_cube_lanes(c, j, s as u64);
    assert(side_len(s as u64) == pow2i(s as nat));
    assert(spec_decode(c).x == compact3(c) && spec_decode(c).y == compact3(c >> 1)
        && spec_decode(c).z == compact3(c >> 2));
    assert(spec_decode(j).x == compact3(j) && spec_decode(j).y == compact3(j >> 1)
        && spec_decode(j).z == compact3(j >> 2));
}

/// An aligned range that starts inside the cube ends inside it as well.
pub proof fn lemma_aligned_fits(c: u64, s: u32, log2: u32)
    requires
        s <= log2 <= 21,
        c as int % pow2i(3 * s as nat) == 0,
        c < max_index(log2 as nat),
    ensures
        c + pow2i(3 * s as nat) <= max_index(log2 as nat),
{
    let p = pow2i(3 * s as nat);
    let whole = pow2i(3 * log2 as nat);
    vstd::arithmetic::power2::lemma_pow2_pos(3 * s as nat);
    vstd::arithmetic::power2::lemma_pow2_pos(3 * (log2 - s) as nat);
    vstd::arithmetic::power2::lemma_pow2_adds(3 * s as nat, 3 * (log2 - s) as nat);
    let quot = pow2i(3 * (log2 - s) as nat);
    assert(whole == p * quot);
    let q = c as int / p;
    vstd::arithmetic::div_mod::lemma_fundamental_div_mod(c as int, p);
    assert(c == p * q);
    assert(q < quot) by (nonlinear_arith)
        requires
            p * q < p * quot && p > 0,
    ;
    assert(p * (q + 1) == p * q + p) by (nonlinear_arith);
    assert(p * (q + 1) <= p * quot) by (nonlinear_arith)
        requires
            q + 1 <= quot && p > 0,
    ;
}

/// Alignment to 8^s implies alignment to 8^(s-1).
pub proof fn lemma_align_weaken(c: u64, s: u32)
    requires
        1 <= s <= 21,
        c as int % pow2i(3 * s as nat) == 0,
    ensures
        c as int % pow2i(3 * (s - 1) as nat) == 0,
{
    let a = pow2i(3 * (s - 1) as nat);
    vstd::arithmetic::power2::lemma_pow2_pos(3 * (s - 1) as nat);
    vstd::arithmetic::power2::lemma2_to64();
    vstd::arithmetic::power2::lemma_pow2_adds(3 * (s - 1) as nat, 3);
    assert(pow2i(3 * s as nat) == a * 8);
    vstd::arithmetic::div_mod::lemma_mod_mod(c as int, a, 8);
}

/// An iterator over the Morton indices of the cells of a cube of side
/// 2^log2 that intersect a query box, in strictly ascending index order.
pub struct Iter {
    pub idx: u64,
    pub end: u64,
    pub log2: u32,
    pub bbox: Box3,
    /// The indices handed out so far.
    pub yielded: Ghost<Seq<u64>>,
}

impl Iter {
    pub open spec fn wf(self) -> bool {
        &&& self.log2 <= 21
        &&& self.bbox.wf()
        &&& self.bbox.max.x <= pow2i(self.log2 as nat)
        &&& self.bbox.max.y <= pow2i(self.log2 as nat)
        &&& self.bbox.max.z <= pow2i(self.log2 as nat)
        &&& self.idx <= self.end <= max_index(self.log2 as nat)
        &&& forall|k: u64|
            self.idx <= k < self.end ==> #[trigger] in_query(self.log2 as nat, self.bbox, k)
        &&& forall|i: int|
            0 <= i < self.yielded@.len() ==> in_query(
                self.log2 as nat,
                self.bbox,
                #[trigger] self.yielded@[i],
            ) && self.yielded@[i] < self.idx
        &&& forall|i: int, j: int|
            0 <= i < j < self.yielded@.len() ==> self.yielded@[i] < self.yielded@[j]
        &&& forall|k: u64|
            k < self.idx && #[trigger] in_query(self.log2 as nat, self.bbox, k)
                ==> self.yielded@.contains(k)
    }

    /// Build an iterator over the given cube for the given query box.
    pub fn new(log2: u32, bbox: Box3) -> (r: Result<Iter, WkwError>)
        requires
            log2 <= 21,
            bbox.wf(),
            bbox.max.x <= pow2i(log2 as nat),
            bbox.max.y <= pow2i(log2 as nat),
            bbox.max.z <= pow2i(log2 as nat),
        ensures
            r is Ok,
            r matches Ok(it) ==> it.wf() && it.log2 == log2 && it.bbox == bbox && it.yielded@
                =~= Seq::<u64>::empty(),
    {
        Ok(Iter { idx: 0, end: 0, log2, bbox, yielded: Ghost(Seq::empty()) })
    }

    /// Find the next contiguous run of in-query indices at or past `self.idx`,
    /// by walking maximal aligned sub-cubes.
    fn find_range(&self) -> (r: Option<(u64, u64)>)
        requires
            self.wf(),
        ensures
            r matches Some(se) ==> {
                &&& self.idx <= se.0 < se.1 <= max_index(self.log2 as nat)
                &&& forall|k: u64|
                    se.0 <= k < se.1 ==> #[trigger] in_query(self.log2 as nat, self.bbox, k)
                &&& forall|k: u64|
                    self.idx <= k < se.0 ==> !(#[trigger] in_query(self.log2 as nat, self.bbox, k))
            },
            r is None ==> forall|k: u64|
                self.idx <= k < max_index(self.log2 as nat) ==> !(#[trigger] in_query(
                    self.log2 as nat,
                    self.bbox,
                    k,
                )),
    {
        let max_idx = pow8(self.log2);
        let mut cur_idx = self.idx;
        let mut cur_log2 = alignment_of(cur_idx, self.log2);

        while cur_idx < max_idx
            invariant
                self.wf(),
                max_idx == max_index(self.log2 as nat),
                self.idx <= cur_idx,
                cur_log2 <= self.log2 <= 21,
                cur_idx as int % pow2i(3 * cur_log2 as nat) == 0,
                forall|k: u64|
                    self.idx <= k < cur_idx ==> !(#[trigger] in_query(
                        self.log2 as nat,
                        self.bbox,
                        k,
                    )),
            decreases max_idx - cur_idx, cur_log2,
        {
            proof {
                lemma_aligned_fits(cur_idx, cur_log2, self.log2);
            }
            let numel = pow8(cur_log2);
            let off = Morton::new(cur_idx).decode();
            proof {
                lemma_decode_bounds(cur_idx);
                shl1_is_pow2_u32(cur_log2);
            }
            let side = 1u32 << cur_log2;
            proof {
                vstd::arithmetic::power2::lemma2_to64();
                if cur_log2 < 21 {
                    vstd::arithmetic::power2::lemma_pow2_strictly_increases(
                        cur_log2 as nat,
                        21,
                    );
                }
                assert(side <= 0x200000);
            }
            let cube = Box3::from_shape(Vec3::splat(side)).translate(off);
            let inter = cube.intersect(self.bbox);

            if cube == inter {
                proof {
                    assert forall|k: u64| cur_idx <= k < cur_idx + numel implies #[trigger]
                        in_query(self.log2 as nat, self.bbox, k) by {
                        lemma_cube_decode(cur_idx, k, cur_log2);
                        lemma_intersect_contains_cube(cube, self.bbox, spec_decode(k));
                    }
                }
                return Some((cur_idx, cur_idx + numel));
            } else if !inter.is_empty() {
                proof {
                    if cur_log2 == 0 {
                        assert(side == 1);
                        assert(inter.min.x == cube.min.x && inter.max.x == cube.max.x);
                        assert(inter.min.y == cube.min.y && inter.max.y == cube.max.y);
                        assert(inter.min.z == cube.min.z && inter.max.z == cube.max.z);
                        assert(inter == cube);
                    }
                    lemma_align_weaken(cur_idx, cur_log2);
                }
                cur_log2 = cur_log2 - 1;
            } else {
                proof {
                    assert forall|k: u64| cur_idx <= k < cur_idx + numel implies !(#[trigger]
                        in_query(self.log2 as nat, self.bbox, k)) by {
                        lemma_cube_decode(cur_idx, k, cur_log2);
                        if in_query(self.log2 as nat, self.bbox, k) {
                            lemma_intersect_nonempty(cube, self.bbox, spec_decode(k));
                        }
                    }
                }
                cur_idx = cur_idx + numel;
                cur_log2 = alignment_of(cur_idx, self.log2);
            }
        }
        None
    }

    /// Yield the next in-query Morton index, in strictly ascending order; at
    /// exhaustion every in-query index has been yielded exactly once.
    pub fn next(&mut self) -> (r: Option<u64>)
        requires
            old(self).wf(),
        ensures
            final(self).wf(),
            final(self).log2 == old(self).log2,
            final(self).bbox == old(self).bbox,
            r matches Some(k) ==> {
                &&& in_query(old(self).log2 as nat, old(self).bbox, k)
                &&& final(self).yielded@ == old(self).yielded@.push(k)
                &&& old(self).idx <= k && final(self).idx == k + 1
                &&& forall|i: int|
                    0 <= i < old(self).yielded@.len() ==> old(self).yielded@[i] < k
            },
            r is None ==> *final(self) == *old(self) && (forall|k: u64|
                #[trigger] in_query(old(self).log2 as nat, old(self).bbox, k)
                    ==> old(self).yielded@.contains(k)),
    {
        if self.end == self.idx {
            match self.find_range() {
                Some((start, end)) => {
                    proof {
                        assert forall|k: u64|
                            k < start && #[trigger] in_query(self.log2 as nat, self.bbox, k)
                            implies self.yielded@.contains(k) by {
                            if k >= self.idx {
                                assert(!in_query(self.log2 as nat, self.bbox, k));
                            }
                        }
                    }
                    self.idx = start;
                    self.end = end;
                },
                None => {
                    proof {
                        assert forall|k: u64| #[trigger]
                            in_query(self.log2 as nat, self.bbox, k)
                            implies self.yielded@.contains(k) by {
                            if k >= self.idx {
                                assert(!in_query(self.log2 as nat, self.bbox, k));
                            }
                        }
                    }
                    return None;
                },
            }
        }
        let k = self.idx;
        let ghost prev = self.yielded@;
        self.idx = self.idx + 1;
        self.yielded = Ghost(self.yielded@.push(k));
        proof {
            assert(in_query(self.log2 as nat, self.bbox, k));
            assert(self.yielded@.last() == k);
            assert forall|j: u64|
                j < self.idx && #[trigger] in_query(self.log2 as nat, self.bbox, j)
                implies self.yielded@.contains(j) by {
                if j < k {
                    assert(prev.contains(j));
                    let wi = choose|wi: int| 0 <= wi < prev.len() && prev[wi] == j;
                    assert(self.yielded@[wi] == j);
                } else {
                    assert(self.yielded@[self.yielded@.len() - 1] == k);
                }
            }
        }
        Some(k)
    }
}

/// The query set of an iterator is exactly the set of Morton codes of the
/// points of the query box: an index is walked if and only if it is the code
/// of some box point.  Together with the `next` contract this pins the yield
/// sequence down to the strictly ascending enumeration of that set.
pub proof fn lemma_query_is_encode_image(log2: u32, bbox: Box3, k: u64)
    requires
        log2 <= 21,
        bbox.wf(),
        bbox.max.x <= pow2i(log2 as nat),
        bbox.max.y <= pow2i(log2 as nat),
        bbox.max.z <= pow2i(log2 as nat),
    ensures
        in_query(log2 as nat, bbox, k) <==> (exists|v: Vec3|
            #[trigger] bbox.contains(v) && spec_encode(v) == k),
{
    if log2 < 21 {
        vstd::arithmetic::power2::lemma_pow2_strictly_increases(3 * log2 as nat, 63);
        vstd::arithmetic::power2::lemma_pow2_strictly_increases(log2 as nat, 21);
    }
    vstd::arithmetic::power2::lemma2_to64();
    vstd::arithmetic::power2::lemma2_to64_rest();
    if in_query(log2 as nat, bbox, k) {
        lemma_encode_decode(k);
        assert(bbox.contains(spec_decode(k)) && spec_encode(spec_decode(k)) == k);
    }
    if exists|v: Vec3| #[trigger] bbox.contains(v) && spec_encode(v) == k {
        let v = choose|v: Vec3| #[trigger] bbox.contains(v) && spec_encode(v) == k;
        lemma_decode_encode(v);
        shl1_is_pow2(log2 as u64);
        shl1_is_pow2((3 * log2) as u64);
        lemma_encode_range(v.x as u64, v.y as u64, v.z as u64, log2 as u64);
        assert(in_query(log2 as nat, bbox, k));
    }
}

/// A coordinate triple below a cube side encodes into the cube's index
/// range, and decoding gives the triple back.
pub proof fn lemma_encode_in_cube(v: Vec3, log2: u32)
    requires
        log2 <= 21,
        v.x < pow2i(log2 as nat),
        v.y < pow2i(log2 as nat),
        v.z < pow2i(log2 as nat),
    ensures
        0 <= spec_encode(v) < pow2i(3 * log2 as nat),
        spec_decode(spec_encode(v)) == v,
{
    shl1_is_pow2(log2 as u64);
    shl1_is_pow2((3 * log2) as u64);
    if log2 < 21 {
        vstd::arithmetic::power2::lemma_pow2_strictly_increases(log2 as nat, 21);
    }
    vstd::arithmetic::power2::lemma2_to64();
    vstd::arithmetic::power2::lemma2_to64_rest();
    lemma_encode_range(v.x as u64, v.y as u64, v.z as u64, log2 as u64);
    lemma_decode_encode(v);
}

/// An index below a cube's cell count decodes into the cube.
pub proof fn lemma_decode_in_cube(m: u64, log2: u32)
    requires
        log2 <= 21,
        m < pow2i(3 * log2 as nat),
    ensures
        spec_decode(m).x < pow2i(log2 as nat),
        spec_decode(m).y < pow2i(log2 as nat),
        spec_decode(m).z < pow2i(log2 as nat),
{
    shl1_is_pow2(log2 as u64);
    shl1_is_pow2((3 * log2) as u64);
    lemma_decode_bounds(m);
    lemma_compact_small(m, log2 as u64);
}

/// A point of the intersection lies in both boxes.
proof fn lemma_intersect_nonempty(a: Box3, b: Box3, p: Vec3)
    requires
        a.wf(),
        b.wf(),
        a.spec_intersect(b).spec_is_empty(),
        a.contains(p),
    ensures
        !b.contains(p),
{
}

/// When a cube equals its intersection with a box, the cube lies in the box.
proof fn lemma_intersect_contains_cube(a: Box3, b: Box3, p: Vec3)
    requires
        a.wf(),
        b.wf(),
        a.spec_intersect(b) == a,
        a.contains(p),
    ensures
        b.contains(p),
{
}

/// 8^s as executable code.
fn pow8(s: u32) -> (r: u64)
    requires
        s <= 21,
    ensures
        r == pow2i(3 * s as nat),
        r >= 1,
{
    proof {
        shl1_is_pow2((3 * s) as u64);
        vstd::arithmetic::power2::lemma_pow2_pos(3 * s as nat);
    }
    1u64 << (3 * s)
}

/// The largest exponent `r <= log2` such that 8^r divides `idx`.
fn alignment_of(idx: u64, log2: u32) -> (r: u32)
    requires
        log2 <= 21,
    ensures
        r <= log2,
        idx as int % pow2i(3 * r as nat) == 0,
{
    let mut r: u32 = 0;
    proof {
        vstd::arithmetic::power2::lemma2_to64();
    }
    while r < log2 && idx % pow8(r + 1) == 0
        invariant
            r <= log2 <= 21,
            idx as int % pow2i(3 * r as nat) == 0,
        decreases log2 - r,
    {
        r = r + 1;
    }
    r
}

} // verus!
