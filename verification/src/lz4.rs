use vstd::prelude::*;

use crate::error::WkwError;

verus! {

/// The bytes that LZ4 high-compression produces for the given input bytes.
/// The codec is deterministic: the output depends on the input alone.
pub uninterp spec fn lz4_hc_of(src: Seq<u8>) -> Seq<u8>;

/// The documented worst-case size of an LZ4 block compressed from `n` bytes.
pub open spec fn spec_compress_bound(n: int) -> int {
    n + n / 255 + 16
}

/// The worst-case output size of compressing `input_size` bytes, as the LZ4
/// block format documents it.
pub fn compress_bound(input_size: u64) -> (r: u64)
    requires
        spec_compress_bound(input_size as int) <= u64::MAX,
    ensures
        r == spec_compress_bound(input_size as int),
{
    input_size + input_size / 255 + 16
}

/// Relies on lz4::block::compress with mode HIGHCOMPRESSION(9), the high
/// compression entry point of the LZ4 block codec: for a given input the
/// produced block depends on the input bytes alone, and its length never
/// exceeds the documented worst case of input length plus its 255th part
/// plus sixteen.  Compression cannot fail below the codec's input cap of
/// 0x7E000000 bytes, since the crate sizes the destination by that worst
/// case itself.
#[verifier::external_body]
pub(crate) fn compress_hc(src: &Vec<u8>) -> (r: Result<Vec<u8>, WkwError>)
    ensures
        r matches Ok(v) ==> v@ == lz4_hc_of(src@) && v@.len() <= spec_compress_bound(
            src@.len() as int,
        ),
        src@.len() <= 0x7e000000 ==> r is Ok,
{
    match lz4::block::compress(
        src.as_slice(),
        Some(lz4::block::CompressionMode::HIGHCOMPRESSION(9)),
        false,
    ) {
        Ok(v) => Ok(v),
        Err(_) => Err(WkwError::CompressFailed),
    }
}

/// Relies on lz4::block::decompress, the safe decoding entry point of the
/// LZ4 block codec: decoding never writes past the requested size, and the
/// codec is lossless, so decoding a block that the high compressor produced
/// from `raw_len` bytes yields those bytes again.
#[verifier::external_body]
pub(crate) fn decompress_safe(src: &Vec<u8>, raw_len: usize) -> (r: Result<Vec<u8>, WkwError>)
    requires
        raw_len <= 0x7fffffff,
    ensures
        r matches Ok(v) ==> v@.len() <= raw_len,
        r matches Ok(v) ==> forall|orig: Seq<u8>|
            #[trigger] lz4_hc_of(orig) == src@ && orig.len() == raw_len ==> v@ == orig,
        r is Err ==> forall|orig: Seq<u8>|
            !(#[trigger] lz4_hc_of(orig) == src@ && orig.len() == raw_len),
{
    match lz4::block::decompress(src.as_slice(), Some(raw_len as i32)) {
        Ok(v) => Ok(v),
        Err(_) => Err(WkwError::DecompressFailed),
    }
}

} // verus!
