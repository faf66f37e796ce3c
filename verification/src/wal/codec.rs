//! Checksums and compression of log objects.

use vstd::prelude::*;
use vstd::utf8::*;

verus! {

/// The CRC-32 checksum of a byte string, as `crc32fast::hash` computes it.
pub uninterp spec fn crc32(data: Seq<u8>) -> u32;

/// `crc32fast::hash`: the result depends on the bytes alone.
#[verifier::external_body]
pub(crate) fn crc32_hash(data: &[u8]) -> (checksum: u32)
    ensures
        checksum == crc32(data@),
{
    crc32fast::hash(data)
}

/// The zstd frame that `zstd::bulk::compress` makes of a byte string at a level, or `None` where
/// it fails.
pub uninterp spec fn zstd_frame(data: Seq<u8>, level: i32) -> Option<Seq<u8>>;

/// What a byte string decompresses to under `zstd::bulk::decompress` when it is given room enough,
/// or `None` where it is no zstd frame.
pub uninterp spec fn zstd_content(frame: Seq<u8>) -> Option<Seq<u8>>;

/// `zstd::bulk::compress`: the result depends on the bytes and the level alone, and compression
/// loses nothing: the frame decompresses to the bytes. The call reserves a little more than the
/// length of the data, so the data may fill half of the address space at most.
#[verifier::external_body]
pub(crate) fn zstd_compress(data: &[u8], level: i32) -> (frame: Option<Vec<u8>>)
    requires
        data@.len() <= isize::MAX / 2,
    ensures
        match frame {
            Some(frame) => zstd_frame(data@, level) == Some(frame@) && zstd_content(frame@)
                == Some(data@),
            None => zstd_frame(data@, level) is None,
        },
{
    zstd::bulk::compress(data, level).ok()
}

/// `zstd::bulk::decompress`: what it returns is the content of the frame, and it fails only where
/// there is no content or the content is longer than `capacity`. Left unsaid: whether a longer
/// content fails, since the buffer that is reserved may be larger than asked for, and the text of
/// a failure. The call reserves `capacity` bytes up front.
#[verifier::external_body]
pub(crate) fn zstd_decompress(frame: &[u8], capacity: usize) -> (content: Result<Vec<u8>, String>)
    requires
        capacity <= u32::MAX,
    ensures
        match content {
            Ok(content) => zstd_content(frame@) == Some(content@),
            Err(_) => zstd_content(frame@) matches Some(content) ==> content.len() > capacity,
        },
{
    zstd::bulk::decompress(frame, capacity).map_err(|error| error.to_string())
}

/// `String::from_utf8`: succeeds on valid UTF-8 alone, with the text that the bytes encode.
#[verifier::external_body]
pub(crate) fn string_from_utf8(bytes: Vec<u8>) -> (text: Option<String>)
    ensures
        match text {
            Some(text) => valid_utf8(bytes@) && text@ == decode_utf8(bytes@),
            None => !valid_utf8(bytes@),
        },
{
    String::from_utf8(bytes).ok()
}

} // verus!
