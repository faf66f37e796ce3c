//! The mathematical model of a log object: its parts, how they are laid out in bytes, and what a
//! byte string reads as.

use vstd::bytes::*;
use vstd::prelude::*;
use vstd::utf8::*;

#[allow(unused_imports)]
use super::codec;
use super::WalError;
#[allow(unused_imports)]
use crate::text;

verus! {

/// Who wrote an object and where it sits in the log.
pub struct HeaderModel {
    pub ingester_id: Seq<char>,
    pub epoch: u64,
    pub generation_id: u64,
    pub wal_id: u64,
    pub is_fence: bool,
}

/// A run of consecutive records of one queue.
pub struct BlockModel {
    pub queue_id: Seq<char>,
    pub first_position: u64,
    pub records: Seq<Seq<u8>>,
}

/// A footer entry.
pub struct MetaModel {
    pub queue_id: Seq<char>,
    pub first_position: u64,
    pub num_records: u32,
    pub byte_offset: u64,
    pub byte_len: u32,
}

/// What the footer of an object says.
pub struct FooterModel {
    pub header: HeaderModel,
    pub blocks: Seq<MetaModel>,
}

/// Why a byte string does not read as what it should.
pub enum Fault {
    /// The message of the error.
    Says(Seq<char>),
    /// The payload is no zstd frame.
    NotZstd,
    /// The payload decompresses to more than its block announces.
    TooLong,
}

/// Whether an error reports a fault.
pub open spec fn reports(error: WalError, fault: Fault) -> bool {
    match error {
        WalError::Corrupted(message) => match fault {
            Fault::Says(text) => message@ == text,
            Fault::NotZstd => "zstd decompression failed: "@.is_prefix_of(message@),
            Fault::TooLong => "zstd decompression failed: "@.is_prefix_of(message@) || message@
                == "uncompressed length mismatch"@,
        },
        _ => false,
    }
}

// ---- Layout ----

/// The four bytes in front of every header: `QWL3`.
pub open spec fn head_magic() -> Seq<u8> {
    seq![0x51u8, 0x57u8, 0x4cu8, 0x33u8]
}

/// The last four bytes of every object: `3LWQ`.
pub open spec fn tail_magic() -> Seq<u8> {
    seq![0x33u8, 0x4cu8, 0x57u8, 0x51u8]
}

/// A text with its length in front.
pub open spec fn text_bytes(text: Seq<char>) -> Seq<u8> {
    spec_u16_to_le_bytes(encode_utf8(text).len() as u16) + encode_utf8(text)
}

/// Whether the length of a text fits its field.
pub open spec fn text_fits(text: Seq<char>) -> bool {
    encode_utf8(text).len() <= u16::MAX
}

/// A header.
pub open spec fn header_bytes(header: HeaderModel) -> Seq<u8> {
    head_magic() + (seq![1u8] + (seq![
        if header.is_fence {
            1u8
        } else {
            0u8
        },
    ] + (spec_u64_to_le_bytes(header.epoch) + (spec_u64_to_le_bytes(header.generation_id) + (
    spec_u64_to_le_bytes(header.wal_id) + text_bytes(header.ingester_id))))))
}

/// The records of a block, each with its length in front.
pub open spec fn payload_bytes(records: Seq<Seq<u8>>) -> Seq<u8>
    decreases records.len(),
{
    if records.len() == 0 {
        seq![]
    } else {
        (spec_u32_to_le_bytes(records[0].len() as u32) + records[0]) + payload_bytes(
            records.skip(1),
        )
    }
}

/// The frame that stands for a payload, where the payload is large enough to be compressed and
/// compression makes it smaller.
pub open spec fn compressed(payload: Seq<u8>) -> Option<Seq<u8>> {
    if payload.len() >= 256 {
        match codec::zstd_frame(payload, 1) {
            Some(frame) => if frame.len() < payload.len() {
                Some(frame)
            } else {
                None
            },
            None => None,
        }
    } else {
        None
    }
}

/// The codec of a payload, and the payload as it is stored.
pub open spec fn stored(payload: Seq<u8>) -> (u8, Seq<u8>) {
    match compressed(payload) {
        Some(frame) => (1u8, frame),
        None => (0u8, payload),
    }
}

/// A block.
pub open spec fn block_bytes(block: BlockModel) -> Seq<u8> {
    let payload = payload_bytes(block.records);
    let (codec, stored) = stored(payload);
    text_bytes(block.queue_id) + (spec_u64_to_le_bytes(block.first_position) + (
    spec_u32_to_le_bytes(block.records.len() as u32) + (seq![codec] + (spec_u32_to_le_bytes(
        payload.len() as u32,
    ) + (spec_u32_to_le_bytes(stored.len() as u32) + (stored + spec_u32_to_le_bytes(
        codec::crc32(stored),
    )))))))
}

/// The blocks of an object, one behind the other.
pub open spec fn all_block_bytes(blocks: Seq<BlockModel>) -> Seq<u8>
    decreases blocks.len(),
{
    if blocks.len() == 0 {
        seq![]
    } else {
        all_block_bytes(blocks.drop_last()) + block_bytes(blocks.last())
    }
}

/// The footer entry of the `i`th block of an object whose blocks start at `start`.
pub open spec fn block_meta(start: int, blocks: Seq<BlockModel>, i: int) -> MetaModel {
    MetaModel {
        queue_id: blocks[i].queue_id,
        first_position: blocks[i].first_position,
        num_records: blocks[i].records.len() as u32,
        byte_offset: (start + all_block_bytes(blocks.take(i)).len()) as u64,
        byte_len: block_bytes(blocks[i]).len() as u32,
    }
}

/// The footer entries of the blocks of an object.
pub open spec fn block_metas(start: int, blocks: Seq<BlockModel>) -> Seq<MetaModel> {
    Seq::new(blocks.len(), |i: int| block_meta(start, blocks, i))
}

/// A footer entry in bytes.
pub open spec fn meta_bytes(meta: MetaModel) -> Seq<u8> {
    text_bytes(meta.queue_id) + (spec_u64_to_le_bytes(meta.first_position) + (spec_u32_to_le_bytes(
        meta.num_records,
    ) + (spec_u64_to_le_bytes(meta.byte_offset) + spec_u32_to_le_bytes(meta.byte_len))))
}

/// Footer entries, one behind the other.
pub open spec fn all_meta_bytes(metas: Seq<MetaModel>) -> Seq<u8>
    decreases metas.len(),
{
    if metas.len() == 0 {
        seq![]
    } else {
        meta_bytes(metas[0]) + all_meta_bytes(metas.skip(1))
    }
}

/// A footer.
pub open spec fn footer_bytes(footer: FooterModel) -> Seq<u8> {
    header_bytes(footer.header) + (spec_u32_to_le_bytes(footer.blocks.len() as u32)
        + all_meta_bytes(footer.blocks))
}

/// The trailer behind a footer.
pub open spec fn trailer_bytes(footer: Seq<u8>) -> Seq<u8> {
    spec_u32_to_le_bytes(footer.len() as u32) + (spec_u32_to_le_bytes(codec::crc32(footer))
        + tail_magic())
}

/// The header as it is written: an object without blocks is a fence.
pub open spec fn written_header(header: HeaderModel, blocks: Seq<BlockModel>) -> HeaderModel {
    HeaderModel { is_fence: header.is_fence || blocks.len() == 0, ..header }
}

/// The footer of an object.
pub open spec fn object_footer(header: HeaderModel, blocks: Seq<BlockModel>) -> FooterModel {
    let written = written_header(header, blocks);
    FooterModel {
        header: written,
        blocks: block_metas(header_bytes(written).len() as int, blocks),
    }
}

/// A whole object.
pub open spec fn object_bytes(header: HeaderModel, blocks: Seq<BlockModel>) -> Seq<u8> {
    let footer = footer_bytes(object_footer(header, blocks));
    header_bytes(written_header(header, blocks)) + all_block_bytes(blocks) + footer
        + trailer_bytes(footer)
}

// ---- Reading ----

/// The first `n` bytes and what is left.
pub open spec fn read_bytes(bytes: Seq<u8>, n: int) -> Result<(Seq<u8>, Seq<u8>), Fault> {
    if bytes.len() < n {
        Err(Fault::Says("unexpected end of data"@))
    } else {
        Ok((bytes.take(n), bytes.skip(n)))
    }
}

/// One byte.
pub open spec fn read_u8(bytes: Seq<u8>) -> Result<(u8, Seq<u8>), Fault> {
    match read_bytes(bytes, 1) {
        Ok((head, rest)) => Ok((head[0], rest)),
        Err(fault) => Err(fault),
    }
}

/// A number of four bytes.
pub open spec fn read_u32(bytes: Seq<u8>) -> Result<(u32, Seq<u8>), Fault> {
    match read_bytes(bytes, 4) {
        Ok((head, rest)) => Ok((spec_u32_from_le_bytes(head), rest)),
        Err(fault) => Err(fault),
    }
}

/// A number of eight bytes.
pub open spec fn read_u64(bytes: Seq<u8>) -> Result<(u64, Seq<u8>), Fault> {
    match read_bytes(bytes, 8) {
        Ok((head, rest)) => Ok((spec_u64_from_le_bytes(head), rest)),
        Err(fault) => Err(fault),
    }
}

/// A text with its length in front.
pub open spec fn read_text(bytes: Seq<u8>) -> Result<(Seq<char>, Seq<u8>), Fault> {
    match read_bytes(bytes, 2) {
        Err(fault) => Err(fault),
        Ok((len, rest)) => match read_bytes(rest, spec_u16_from_le_bytes(len) as int) {
            Err(fault) => Err(fault),
            Ok((text, rest)) => if valid_utf8(text) {
                Ok((decode_utf8(text), rest))
            } else {
                Err(Fault::Says("invalid UTF-8 string"@))
            },
        },
    }
}

/// A header.
pub open spec fn read_header(bytes: Seq<u8>) -> Result<(HeaderModel, Seq<u8>), Fault> {
    match read_bytes(bytes, 4) {
        Err(fault) => Err(fault),
        Ok((magic, rest)) => if magic != head_magic() {
            Err(Fault::Says("bad header magic"@))
        } else {
            match read_u8(rest) {
                Err(fault) => Err(fault),
                Ok((version, rest)) => if version != 1 {
                    Err(
                        Fault::Says(
                            "unsupported WAL format version "@ + text::decimal(version as nat),
                        ),
                    )
                } else {
                    read_header_fields(rest)
                },
            }
        },
    }
}

/// What follows the magic and the version of a header.
pub open spec fn read_header_fields(bytes: Seq<u8>) -> Result<(HeaderModel, Seq<u8>), Fault> {
    match read_u8(bytes) {
        Err(fault) => Err(fault),
        Ok((flags, rest)) => match read_u64(rest) {
            Err(fault) => Err(fault),
            Ok((epoch, rest)) => match read_u64(rest) {
                Err(fault) => Err(fault),
                Ok((generation_id, rest)) => match read_u64(rest) {
                    Err(fault) => Err(fault),
                    Ok((wal_id, rest)) => match read_text(rest) {
                        Err(fault) => Err(fault),
                        Ok((ingester_id, rest)) => Ok(
                            (
                                HeaderModel {
                                    ingester_id,
                                    epoch,
                                    generation_id,
                                    wal_id,
                                    is_fence: flags & 1 != 0,
                                },
                                rest,
                            ),
                        ),
                    },
                },
            },
        },
    }
}

/// Exactly `n` records, with nothing behind them.
pub open spec fn read_records(bytes: Seq<u8>, n: nat) -> Result<Seq<Seq<u8>>, Fault>
    decreases n,
{
    if n == 0 {
        if bytes.len() == 0 {
            Ok(seq![])
        } else {
            Err(Fault::Says("trailing bytes in block"@))
        }
    } else if bytes.len() < 4 {
        Err(Fault::Says("truncated record length"@))
    } else {
        let len = spec_u32_from_le_bytes(bytes.take(4)) as int;
        if 4 + len > bytes.len() {
            Err(Fault::Says("truncated record"@))
        } else {
            match read_records(bytes.skip(4 + len), (n - 1) as nat) {
                Ok(records) => Ok(seq![bytes.subrange(4, 4 + len)] + records),
                Err(fault) => Err(fault),
            }
        }
    }
}

/// What a stored payload holds.
pub open spec fn read_stored(codec: u8, stored: Seq<u8>, len: nat) -> Result<Seq<u8>, Fault> {
    if codec == 0 {
        if stored.len() == len {
            Ok(stored)
        } else {
            Err(Fault::Says("uncompressed length mismatch"@))
        }
    } else if codec == 1 {
        match codec::zstd_content(stored) {
            None => Err(Fault::NotZstd),
            Some(content) => if content.len() > len {
                Err(Fault::TooLong)
            } else if content.len() < len {
                Err(Fault::Says("uncompressed length mismatch"@))
            } else {
                Ok(content)
            },
        }
    } else {
        Err(Fault::Says("unknown codec "@ + text::decimal(codec as nat)))
    }
}

/// What a block holds, once its fields are read: `rest` follows the block.
pub open spec fn read_payload(
    queue_id: Seq<char>,
    first_position: u64,
    num_records: u32,
    codec: u8,
    len: u32,
    stored: Seq<u8>,
    checksum: u32,
    rest: Seq<u8>,
) -> Result<BlockModel, Fault> {
    if codec::crc32(stored) != checksum {
        Err(
            Fault::Says(
                "block checksum mismatch for queue `"@ + queue_id + "` at position "@ + text::decimal(
                    first_position as nat,
                ),
            ),
        )
    } else {
        match read_stored(codec, stored, len as nat) {
            Err(fault) => Err(fault),
            Ok(payload) => match read_records(payload, num_records as nat) {
                Err(fault) => Err(fault),
                Ok(records) => if rest.len() != 0 {
                    Err(Fault::Says("trailing bytes after block"@))
                } else {
                    Ok(BlockModel { queue_id, first_position, records })
                },
            },
        }
    }
}

/// A block that fills the bytes.
pub open spec fn read_block(bytes: Seq<u8>) -> Result<BlockModel, Fault> {
    match read_text(bytes) {
        Err(fault) => Err(fault),
        Ok((queue_id, rest)) => match read_u64(rest) {
            Err(fault) => Err(fault),
            Ok((first_position, rest)) => match read_u32(rest) {
                Err(fault) => Err(fault),
                Ok((num_records, rest)) => read_block_body(
                    queue_id,
                    first_position,
                    num_records,
                    rest,
                ),
            },
        },
    }
}

/// What follows the position fields of a block.
pub open spec fn read_block_body(
    queue_id: Seq<char>,
    first_position: u64,
    num_records: u32,
    bytes: Seq<u8>,
) -> Result<BlockModel, Fault> {
    match read_u8(bytes) {
        Err(fault) => Err(fault),
        Ok((codec, rest)) => match read_u32(rest) {
            Err(fault) => Err(fault),
            Ok((len, rest)) => match read_u32(rest) {
                Err(fault) => Err(fault),
                Ok((stored_len, rest)) => match read_bytes(rest, stored_len as int) {
                    Err(fault) => Err(fault),
                    Ok((stored, rest)) => match read_u32(rest) {
                        Err(fault) => Err(fault),
                        Ok((checksum, rest)) => read_payload(
                            queue_id,
                            first_position,
                            num_records,
                            codec,
                            len,
                            stored,
                            checksum,
                            rest,
                        ),
                    },
                },
            },
        },
    }
}

/// A footer entry.
pub open spec fn read_meta(bytes: Seq<u8>) -> Result<(MetaModel, Seq<u8>), Fault> {
    match read_text(bytes) {
        Err(fault) => Err(fault),
        Ok((queue_id, rest)) => match read_u64(rest) {
            Err(fault) => Err(fault),
            Ok((first_position, rest)) => match read_u32(rest) {
                Err(fault) => Err(fault),
                Ok((num_records, rest)) => match read_u64(rest) {
                    Err(fault) => Err(fault),
                    Ok((byte_offset, rest)) => match read_u32(rest) {
                        Err(fault) => Err(fault),
                        Ok((byte_len, rest)) => Ok(
                            (
                                MetaModel {
                                    queue_id,
                                    first_position,
                                    num_records,
                                    byte_offset,
                                    byte_len,
                                },
                                rest,
                            ),
                        ),
                    },
                },
            },
        },
    }
}

/// `n` footer entries.
pub open spec fn read_metas(bytes: Seq<u8>, n: nat) -> Result<(Seq<MetaModel>, Seq<u8>), Fault>
    decreases n,
{
    if n == 0 {
        Ok((seq![], bytes))
    } else {
        match read_meta(bytes) {
            Err(fault) => Err(fault),
            Ok((meta, rest)) => match read_metas(rest, (n - 1) as nat) {
                Err(fault) => Err(fault),
                Ok((metas, rest)) => Ok((seq![meta] + metas, rest)),
            },
        }
    }
}

/// A footer that fills the bytes.
pub open spec fn read_footer_body(bytes: Seq<u8>) -> Result<FooterModel, Fault> {
    match read_header(bytes) {
        Err(fault) => Err(fault),
        Ok((header, rest)) => match read_u32(rest) {
            Err(fault) => Err(fault),
            Ok((num_blocks, rest)) => match read_metas(rest, num_blocks as nat) {
                Err(fault) => Err(fault),
                Ok((blocks, rest)) => if rest.len() != 0 {
                    Err(Fault::Says("trailing bytes in footer"@))
                } else if header.is_fence && blocks.len() != 0 {
                    Err(Fault::Says("fence object with blocks"@))
                } else {
                    Ok(FooterModel { header, blocks })
                },
            },
        },
    }
}

/// The footer length that a trailer gives.
pub open spec fn trailer_footer_len(trailer: Seq<u8>) -> u32 {
    spec_u32_from_le_bytes(trailer.subrange(0, 4))
}

/// The footer checksum that a trailer gives.
pub open spec fn trailer_footer_crc(trailer: Seq<u8>) -> u32 {
    spec_u32_from_le_bytes(trailer.subrange(4, 8))
}

/// The footer of an object, from a byte string that ends with its footer and its trailer.
pub open spec fn read_footer(bytes: Seq<u8>) -> Result<FooterModel, Fault> {
    if bytes.len() < 12 {
        Err(Fault::Says("object too short"@))
    } else {
        let body = bytes.take(bytes.len() - 12);
        let trailer = bytes.skip(bytes.len() - 12);
        if trailer.skip(8) != tail_magic() {
            Err(Fault::Says("bad trailer magic"@))
        } else if trailer_footer_len(trailer) > body.len() {
            Err(Fault::Says("footer length exceeds provided bytes"@))
        } else {
            let footer = body.skip(body.len() - trailer_footer_len(trailer));
            if codec::crc32(footer) != trailer_footer_crc(trailer) {
                Err(Fault::Says("footer checksum mismatch"@))
            } else {
                read_footer_body(footer)
            }
        }
    }
}

/// Where the footer of an object of `object_len` bytes starts and ends, from its trailer.
pub open spec fn read_footer_range(object_len: int, trailer: Seq<u8>) -> Result<(int, int), Fault> {
    if trailer.len() != 12 {
        Err(
            Fault::Says(
                "expected 12-byte trailer, got "@ + text::decimal(trailer.len()) + " bytes"@,
            ),
        )
    } else if trailer.skip(8) != tail_magic() {
        Err(Fault::Says("bad trailer magic"@))
    } else if trailer_footer_len(trailer) > object_len - 12 {
        Err(
            Fault::Says(
                "footer length "@ + text::decimal(trailer_footer_len(trailer) as nat)
                    + " exceeds object length "@ + text::decimal(object_len as nat),
            ),
        )
    } else {
        Ok((object_len - 12 - trailer_footer_len(trailer), object_len - 12))
    }
}

/// The records of the block that a footer entry describes, from the bytes of the block.
pub open spec fn read_described_block(meta: MetaModel, bytes: Seq<u8>) -> Result<
    Seq<Seq<u8>>,
    Fault,
> {
    match read_block(bytes) {
        Err(fault) => Err(fault),
        Ok(block) => if block.queue_id != meta.queue_id || block.first_position
            != meta.first_position || block.records.len() as u32 != meta.num_records {
            Err(
                Fault::Says(
                    "block does not match footer entry for queue `"@ + meta.queue_id
                        + "` at position "@ + text::decimal(meta.first_position as nat),
                ),
            )
        } else {
            Ok(block.records)
        },
    }
}

/// The blocks that the first `n` footer entries describe, from the bytes of the object.
pub open spec fn read_described_blocks(object: Seq<u8>, metas: Seq<MetaModel>, n: nat) -> Result<
    Seq<BlockModel>,
    Fault,
>
    decreases n,
{
    if n == 0 {
        Ok(seq![])
    } else {
        match read_described_blocks(object, metas, (n - 1) as nat) {
            Err(fault) => Err(fault),
            Ok(blocks) => {
                let meta = metas[n - 1];
                if meta.byte_offset + meta.byte_len > object.len() {
                    Err(Fault::Says("block range out of bounds"@))
                } else {
                    match read_described_block(
                        meta,
                        object.subrange(
                            meta.byte_offset as int,
                            meta.byte_offset + meta.byte_len,
                        ),
                    ) {
                        Err(fault) => Err(fault),
                        Ok(records) => Ok(
                            blocks.push(
                                BlockModel {
                                    queue_id: meta.queue_id,
                                    first_position: meta.first_position,
                                    records,
                                },
                            ),
                        ),
                    }
                }
            },
        }
    }
}

/// The part of an object from its footer on.
pub open spec fn read_tail(object: Seq<u8>) -> Result<Seq<u8>, Fault> {
    if object.len() < 12 {
        Err(Fault::Says("object too short"@))
    } else {
        match read_footer_range(object.len() as int, object.skip(object.len() - 12)) {
            Err(fault) => Err(fault),
            Ok((start, _)) => Ok(object.skip(start)),
        }
    }
}

/// A whole object.
pub open spec fn read_object(object: Seq<u8>) -> Result<(HeaderModel, Seq<BlockModel>), Fault> {
    match read_tail(object) {
        Err(fault) => Err(fault),
        Ok(tail) => match read_footer(tail) {
            Err(fault) => Err(fault),
            Ok(footer) => match read_described_blocks(object, footer.blocks, footer.blocks.len()) {
                Err(fault) => Err(fault),
                Ok(blocks) => match read_header(object) {
                    Err(fault) => Err(fault),
                    Ok((header, _)) => if header != footer.header {
                        Err(Fault::Says("object header does not match footer header"@))
                    } else {
                        Ok((footer.header, blocks))
                    },
                },
            },
        },
    }
}

/// What cannot be read is always reported as a corrupted object, with the message of the fault where it
/// has one.
pub proof fn faults_are_reported_as_corruption(error: WalError, fault: Fault)
    ensures
        reports(error, fault) ==> error is Corrupted,
        reports(error, fault) ==> (fault matches Fault::Says(text) ==> error->Corrupted_0@ == text),
{
}

} // verus!
