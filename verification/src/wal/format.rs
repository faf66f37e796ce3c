//! WAL object format.
//!
//! ```text
//! header   : magic "QWL3" | version u8 | flags u8 | epoch u64 | generation_id u64 | wal_id u64
//!            | ingester_id_len u16 | ingester_id
//! block    : queue_id_len u16 | queue_id | first_position u64 | num_records u32 | codec u8
//!            | uncompressed_len u32 | payload_len u32 | payload | payload_crc32 u32
//! footer   : header (again) | num_blocks u32
//!            | { queue_id_len u16 | queue_id | first_position u64 | num_records u32
//!            |   byte_offset u64 | byte_len u32 }*
//! trailer  : footer_len u32 | footer_crc32 u32 | magic "3LWQ"
//! ```
//!
//! All integers are little-endian. A block payload is the concatenation of
//! `record_len u32 | record_bytes`, optionally zstd-compressed. Records within a block occupy
//! consecutive positions `first_position..first_position + num_records` of their queue.
//!
//! The footer repeats the header so that reading the tail of an object is enough to know who wrote
//! it, in which epoch, and which queue positions it holds.
//!
//! A *fence* object has the `FENCE` flag set and no blocks.

use std::ops::Range;

use bytes::Bytes;
use rayon::iter::{IntoParallelRefIterator, ParallelIterator};
use vstd::bytes::*;
use vstd::prelude::*;
use vstd::slice::*;
#[allow(unused_imports)]
use vstd::utf8::*;

#[allow(unused_imports)]
use super::codec;
use super::codec::{crc32_hash, string_from_utf8, zstd_compress, zstd_decompress};
#[allow(unused_imports)]
use super::layout;
use super::layout::{BlockModel, FooterModel, HeaderModel, MetaModel};
#[allow(unused_imports)]
use super::roundtrip;
use super::{WalError, WalId, WalResult};
#[allow(unused_imports)]
use crate::buffer;
use crate::buffer::{bytes_as_slice, bytes_from_vec, bytes_slice};
#[allow(unused_imports)]
use crate::text;
use crate::text::{decimal_string, same_text};

verus! {

/// Current format version.
pub const FORMAT_VERSION: u8 = 1;

/// Size of the fixed trailer at the end of every object.
pub const TRAILER_LEN: usize = 12;

const FLAG_FENCE: u8 = 1;

const CODEC_NONE: u8 = 0;

const CODEC_ZSTD: u8 = 1;

/// Payloads smaller than this are stored uncompressed.
const ZSTD_MIN_PAYLOAD_LEN: usize = 256;

/// Objects with at least this many record bytes have their blocks compressed in parallel.
const PARALLEL_ENCODE_MIN_LEN: usize = 1048576;

const ZSTD_LEVEL: i32 = 1;

/// Identifies who wrote an object and where it sits in the log.
#[derive(Clone, Debug, PartialEq, Eq)]
pub struct WalObjectHeader {
    /// Node id of the ingester owning the log.
    pub ingester_id: String,
    /// Writer epoch. Strictly increases each time ownership of the log changes. Issued by the
    /// log itself: `epoch of the tail object + 1` at fencing time.
    pub epoch: u64,
    /// Cluster generation id of the node that wrote the object. Informational: ties objects to a
    /// node incarnation in logs and metrics. Not used for ordering.
    pub generation_id: u64,
    /// Id of this object within the log.
    pub wal_id: WalId,
    /// Whether this object is a fence (no data, closes the log for earlier epochs).
    pub is_fence: bool,
}

impl View for WalObjectHeader {
    type V = HeaderModel;

    open spec fn view(&self) -> HeaderModel {
        HeaderModel {
            ingester_id: self.ingester_id@,
            epoch: self.epoch,
            generation_id: self.generation_id,
            wal_id: self.wal_id.0,
            is_fence: self.is_fence,
        }
    }
}

impl WalObjectHeader {
    /// Whether two headers say the same.
    pub fn same_as(&self, other: &WalObjectHeader) -> (same: bool)
        ensures
            same == (self@ == other@),
    {
        same_text(self.ingester_id.as_str(), other.ingester_id.as_str()) && self.epoch
            == other.epoch && self.generation_id == other.generation_id && self.wal_id.0
            == other.wal_id.0 && self.is_fence == other.is_fence
    }
}

/// A run of consecutive records of one queue, or a *queue marker*: a block with no records
/// recording that the queue was created. Markers make a queue's existence durable even when it
/// never held a record (or all of them were collected), so that a restarted ingester recovers
/// the queue and the control plane's view stays consistent.
#[derive(Clone, Debug, PartialEq, Eq)]
pub struct WalBlock {
    pub queue_id: String,
    /// Position of the first record. Meaningless (0) for a queue marker.
    pub first_position: u64,
    /// Opaque records. Empty for a marker.
    pub records: Vec<Bytes>,
}

impl View for WalBlock {
    type V = BlockModel;

    open spec fn view(&self) -> BlockModel {
        BlockModel {
            queue_id: self.queue_id@,
            first_position: self.first_position,
            records: buffer::contents(self.records@),
        }
    }
}

impl WalBlock {
    /// A block recording that `queue_id` exists, holding no records.
    pub fn queue_marker(queue_id: String) -> (marker: Self)
        ensures
            marker@ == (BlockModel { queue_id: queue_id@, first_position: 0, records: seq![] }),
    {
        let marker = Self { queue_id, first_position: 0, records: Vec::new() };
        assert(marker@.records =~= seq![]);
        marker
    }

    pub fn is_queue_marker(&self) -> (is: bool)
        ensures
            is == (self@.records.len() == 0),
    {
        self.records.len() == 0
    }

    /// Position of the last record. A queue marker has none.
    pub fn last_position(&self) -> (position: u64)
        requires
            self.records@.len() > 0,
            self.first_position + self.records@.len() <= u64::MAX,
        ensures
            position == self.first_position + self@.records.len() - 1,
    {
        self.first_position + self.records.len() as u64 - 1
    }
}

/// What each block of a list holds.
pub open spec fn block_models(blocks: Seq<WalBlock>) -> Seq<BlockModel> {
    Seq::new(blocks.len(), |i: int| blocks[i]@)
}

/// Footer entry describing a block.
#[derive(Clone, Debug, PartialEq, Eq)]
pub struct WalBlockMeta {
    pub queue_id: String,
    pub first_position: u64,
    pub num_records: u32,
    /// Offset of the block within the object.
    pub byte_offset: u64,
    /// Length of the block within the object.
    pub byte_len: u32,
}

impl View for WalBlockMeta {
    type V = MetaModel;

    open spec fn view(&self) -> MetaModel {
        MetaModel {
            queue_id: self.queue_id@,
            first_position: self.first_position,
            num_records: self.num_records,
            byte_offset: self.byte_offset,
            byte_len: self.byte_len,
        }
    }
}

impl MetaModel {
    /// Whether the positions of the block are numbers of the queue.
    pub open spec fn positions_fit(self) -> bool {
        self.first_position + self.num_records <= u64::MAX
    }

    /// Position of the last record of a block that has records.
    pub open spec fn last(self) -> int {
        self.first_position + self.num_records - 1
    }
}

impl WalBlockMeta {
    pub fn is_queue_marker(&self) -> (is: bool)
        ensures
            is == (self@.num_records == 0),
    {
        self.num_records == 0
    }

    /// Position of the last record in the block. A queue marker has none.
    pub fn last_position(&self) -> (position: u64)
        requires
            self.num_records > 0,
            self@.positions_fit(),
        ensures
            position == self@.last(),
    {
        self.first_position + self.num_records as u64 - 1
    }

    /// Whether the positions of the block are numbers of the queue.
    pub fn positions_fit(&self) -> (fit: bool)
        ensures
            fit == self@.positions_fit(),
    {
        self.num_records as u64 <= u64::MAX - self.first_position
    }

    /// Byte range of the block within the object.
    pub fn byte_range(&self) -> (range: Range<usize>)
        requires
            self.byte_offset + self.byte_len <= usize::MAX,
        ensures
            range.start == self.byte_offset,
            range.end == self.byte_offset + self.byte_len,
    {
        let start: usize = self.byte_offset as usize;
        start..start + self.byte_len as usize
    }
}

/// What each entry of a list says.
pub open spec fn meta_models(metas: Seq<WalBlockMeta>) -> Seq<MetaModel> {
    Seq::new(metas.len(), |i: int| metas[i]@)
}

/// Decoded footer of a WAL object.
#[derive(Clone, Debug, PartialEq, Eq)]
pub struct WalFooter {
    pub header: WalObjectHeader,
    pub blocks: Vec<WalBlockMeta>,
}

impl View for WalFooter {
    type V = FooterModel;

    open spec fn view(&self) -> FooterModel {
        FooterModel { header: self.header@, blocks: meta_models(self.blocks@) }
    }
}

impl FooterModel {
    /// Whether the positions of every block are numbers of its queue.
    pub open spec fn positions_fit(self) -> bool {
        forall|i: int| 0 <= i < self.blocks.len() ==> (#[trigger] self.blocks[i]).positions_fit()
    }

    /// Whether the object holds records of a queue at or after a position.
    pub open spec fn holds_records_after(self, queue_id: Seq<char>, position: u64) -> bool {
        exists|i: int|
            0 <= i < self.blocks.len() && (#[trigger] self.blocks[i]).queue_id == queue_id
                && self.blocks[i].num_records > 0 && self.blocks[i].last() >= position
    }
}

impl WalFooter {
    /// Whether the positions of every block are numbers of its queue.
    pub fn positions_fit(&self) -> (fit: bool)
        ensures
            fit == self@.positions_fit(),
    {
        let mut i: usize = 0;
        while i < self.blocks.len()
            invariant
                i <= self.blocks.len(),
                forall|j: int| 0 <= j < i ==> (#[trigger] self@.blocks[j]).positions_fit(),
            decreases self.blocks.len() - i,
        {
            if !self.blocks[i].positions_fit() {
                assert(!self@.blocks[i as int].positions_fit());
                return false;
            }
            i = i + 1;
        }
        true
    }

    /// Whether the object holds records for `queue_id` at or after `position_inclusive`.
    pub fn has_records_after(&self, queue_id: &str, position_inclusive: u64) -> (has: bool)
        requires
            self@.positions_fit(),
        ensures
            has == self@.holds_records_after(queue_id@, position_inclusive),
    {
        let mut i: usize = 0;
        while i < self.blocks.len()
            invariant
                i <= self.blocks.len(),
                self@.positions_fit(),
                forall|j: int|
                    0 <= j < i ==> !((#[trigger] self@.blocks[j]).queue_id == queue_id@
                        && self@.blocks[j].num_records > 0 && self@.blocks[j].last()
                        >= position_inclusive),
            decreases self.blocks.len() - i,
        {
            let meta = &self.blocks[i];
            assert(self@.blocks[i as int] == meta@);
            if same_text(meta.queue_id.as_str(), queue_id) && !meta.is_queue_marker()
                && meta.last_position() >= position_inclusive {
                return true;
            }
            i = i + 1;
        }
        false
    }
}

// ---- Encoding ----

/// The bytes of the payloads of all blocks before compression.
pub open spec fn total_payload_len(blocks: Seq<BlockModel>) -> nat
    decreases blocks.len(),
{
    if blocks.len() == 0 {
        0
    } else {
        total_payload_len(blocks.drop_last()) + layout::payload_bytes(blocks.last().records).len()
    }
}

/// Whether the ids of an object fit the format. The payloads may fill half of the address space at
/// most.
pub open spec fn encodable(header: HeaderModel, blocks: Seq<BlockModel>) -> bool {
    &&& layout::text_fits(header.ingester_id)
    &&& forall|i: int| 0 <= i < blocks.len() ==> layout::text_fits((#[trigger] blocks[i]).queue_id)
    &&& total_payload_len(blocks) <= isize::MAX / 2
}

/// Whether a block fits the format, and its payload the address space.
pub open spec fn block_encodable(block: BlockModel) -> bool {
    &&& layout::text_fits(block.queue_id)
    &&& layout::payload_bytes(block.records).len() <= isize::MAX / 2
}

proof fn lemma_payload_of_one_more(records: Seq<Seq<u8>>, record: Seq<u8>)
    ensures
        layout::payload_bytes(records.push(record)) == layout::payload_bytes(records) + (
        spec_u32_to_le_bytes(record.len() as u32) + record),
    decreases records.len(),
{
    let one = spec_u32_to_le_bytes(record.len() as u32) + record;
    if records.len() == 0 {
        reveal_with_fuel(layout::payload_bytes, 2);
        assert(records.push(record).skip(1) =~= seq![]);
        assert(layout::payload_bytes(records.push(record)) =~= one);
        assert(layout::payload_bytes(records) + one =~= one);
    } else {
        lemma_payload_of_one_more(records.skip(1), record);
        assert(records.push(record).skip(1) =~= records.skip(1).push(record));
        assert(layout::payload_bytes(records.push(record)) =~= layout::payload_bytes(records)
            + one);
    }
}

proof fn lemma_block_within_total(blocks: Seq<BlockModel>, i: int)
    requires
        0 <= i < blocks.len(),
    ensures
        layout::payload_bytes(blocks[i].records).len() <= total_payload_len(blocks),
    decreases blocks.len(),
{
    if i < blocks.len() - 1 {
        lemma_block_within_total(blocks.drop_last(), i);
    }
}

proof fn lemma_total_of_one_more(blocks: Seq<BlockModel>, n: int)
    requires
        0 <= n < blocks.len(),
    ensures
        total_payload_len(blocks.take(n + 1)) == total_payload_len(blocks.take(n))
            + layout::payload_bytes(blocks[n].records).len(),
        total_payload_len(blocks.take(n + 1)) <= total_payload_len(blocks),
    decreases blocks.len(),
{
    assert(blocks.take(n + 1).drop_last() =~= blocks.take(n));
    if n < blocks.len() - 1 {
        lemma_total_of_one_more(blocks.drop_last(), n);
        assert(blocks.drop_last().take(n + 1) =~= blocks.take(n + 1));
        assert(blocks.drop_last().take(n) =~= blocks.take(n));
    } else {
        assert(blocks.take(n + 1) =~= blocks);
    }
}

fn put_bytes(buffer: &mut Vec<u8>, bytes: &[u8])
    ensures
        final(buffer)@ == old(buffer)@ + bytes@,
{
    buffer.extend_from_slice(bytes);
    assert(buffer@ =~= old(buffer)@ + bytes@);
}

fn put_u8(buffer: &mut Vec<u8>, value: u8)
    ensures
        final(buffer)@ == old(buffer)@ + seq![value],
{
    buffer.push(value);
    assert(buffer@ =~= old(buffer)@ + seq![value]);
}

fn put_u32_le(buffer: &mut Vec<u8>, value: u32)
    ensures
        final(buffer)@ == old(buffer)@ + spec_u32_to_le_bytes(value),
{
    let bytes = u32_to_le_bytes(value);
    put_bytes(buffer, bytes.as_slice());
}

fn put_u64_le(buffer: &mut Vec<u8>, value: u64)
    ensures
        final(buffer)@ == old(buffer)@ + spec_u64_to_le_bytes(value),
{
    let bytes = u64_to_le_bytes(value);
    put_bytes(buffer, bytes.as_slice());
}

fn put_str(buffer: &mut Vec<u8>, value: &str)
    requires
        layout::text_fits(value@),
    ensures
        final(buffer)@ == old(buffer)@ + layout::text_bytes(value@),
{
    let text = value.as_bytes();
    let len = u16_to_le_bytes(text.len() as u16);
    put_bytes(buffer, len.as_slice());
    put_bytes(buffer, text);
    assert(buffer@ =~= old(buffer)@ + layout::text_bytes(value@));
}

fn encode_header(header: &WalObjectHeader, buffer: &mut Vec<u8>)
    requires
        layout::text_fits(header@.ingester_id),
    ensures
        final(buffer)@ == old(buffer)@ + layout::header_bytes(header@),
{
    let ghost before = buffer@;
    put_u8(buffer, 0x51);
    put_u8(buffer, 0x57);
    put_u8(buffer, 0x4c);
    put_u8(buffer, 0x33);
    assert(buffer@ =~= before + layout::head_magic());
    put_u8(buffer, FORMAT_VERSION);
    let flags: u8 = if header.is_fence {
        FLAG_FENCE
    } else {
        0
    };
    put_u8(buffer, flags);
    put_u64_le(buffer, header.epoch);
    put_u64_le(buffer, header.generation_id);
    put_u64_le(buffer, header.wal_id.0);
    put_str(buffer, header.ingester_id.as_str());
    assert(buffer@ =~= before + layout::header_bytes(header@));
}

fn encode_payload(records: &Vec<Bytes>) -> (payload: Vec<u8>)
    ensures
        payload@ == layout::payload_bytes(buffer::contents(records@)),
{
    let mut payload: Vec<u8> = Vec::new();
    let ghost all = buffer::contents(records@);
    let mut i: usize = 0;
    assert(all.take(0) =~= seq![]);
    while i < records.len()
        invariant
            i <= records.len(),
            all == buffer::contents(records@),
            payload@ == layout::payload_bytes(all.take(i as int)),
        decreases records.len() - i,
    {
        let record = bytes_as_slice(&records[i]);
        let ghost before = payload@;
        put_u32_le(&mut payload, record.len() as u32);
        put_bytes(&mut payload, record);
        proof {
            lemma_payload_of_one_more(all.take(i as int), record@);
            assert(all.take(i as int).push(record@) =~= all.take(i + 1));
            assert(payload@ =~= before + (spec_u32_to_le_bytes(record@.len() as u32) + record@));
        }
        i = i + 1;
    }
    assert(all.take(records.len() as int) =~= all);
    payload
}

/// Encodes a block. The stored payload always tells what the records were.
fn encode_block(block: &WalBlock) -> (bytes: Vec<u8>)
    requires
        block_encodable(block@),
    ensures
        bytes@ == layout::block_bytes(block@),
        roundtrip::payload_survives(block@),
{
    let payload = encode_payload(&block.records);
    let uncompressed_len: usize = payload.len();
    let mut codec: u8 = CODEC_NONE;
    let mut stored = payload;
    if stored.len() >= ZSTD_MIN_PAYLOAD_LEN {
        match zstd_compress(stored.as_slice(), ZSTD_LEVEL) {
            Some(compressed) => {
                if compressed.len() < stored.len() {
                    codec = CODEC_ZSTD;
                    stored = compressed;
                }
            },
            None => {},
        }
    }
    let ghost coded = layout::stored(layout::payload_bytes(block@.records));
    assert(coded == (codec, stored@));
    let mut buffer: Vec<u8> = Vec::new();
    put_str(&mut buffer, block.queue_id.as_str());
    put_u64_le(&mut buffer, block.first_position);
    put_u32_le(&mut buffer, block.records.len() as u32);
    put_u8(&mut buffer, codec);
    put_u32_le(&mut buffer, uncompressed_len as u32);
    put_u32_le(&mut buffer, stored.len() as u32);
    put_bytes(&mut buffer, stored.as_slice());
    put_u32_le(&mut buffer, crc32_hash(stored.as_slice()));
    assert(buffer@ =~= layout::block_bytes(block@));
    buffer
}

/// `rayon`'s parallel iterator over a slice, with `map` and `collect`: the results stand in the
/// order of the items, and each is a result of [`encode_block`] on its item.
#[verifier::external_body]
fn encode_blocks_in_parallel(blocks: &[WalBlock]) -> (encoded: Vec<Vec<u8>>)
    requires
        forall|i: int| 0 <= i < blocks@.len() ==> block_encodable((#[trigger] blocks@[i])@),
    ensures
        encoded@.len() == blocks@.len(),
        forall|i: int|
            0 <= i < blocks@.len() ==> call_ensures(
                encode_block,
                (&blocks@[i],),
                #[trigger] encoded@[i],
            ),
{
    blocks.par_iter().map(|block| encode_block(block)).collect()
}

fn encode_blocks(blocks: &[WalBlock]) -> (encoded: Vec<Vec<u8>>)
    requires
        forall|i: int| 0 <= i < blocks@.len() ==> block_encodable((#[trigger] blocks@[i])@),
    ensures
        encoded@.len() == blocks@.len(),
        forall|i: int|
            #![trigger encoded@[i]]
            0 <= i < blocks@.len() ==> encoded@[i]@ == layout::block_bytes(blocks@[i]@)
                && roundtrip::payload_survives(blocks@[i]@),
{
    let mut encoded: Vec<Vec<u8>> = Vec::new();
    let mut i: usize = 0;
    while i < blocks.len()
        invariant
            i <= blocks.len(),
            encoded@.len() == i,
            forall|j: int| 0 <= j < blocks@.len() ==> block_encodable((#[trigger] blocks@[j])@),
            forall|j: int|
                #![trigger encoded@[j]]
                0 <= j < i ==> encoded@[j]@ == layout::block_bytes(blocks@[j]@)
                    && roundtrip::payload_survives(blocks@[j]@),
        decreases blocks.len() - i,
    {
        let bytes = encode_block(&blocks[i]);
        let ghost before = encoded@;
        encoded.push(bytes);
        assert forall|j: int| #![trigger encoded@[j]] 0 <= j < i + 1 implies encoded@[j]@
            == layout::block_bytes(blocks@[j]@) && roundtrip::payload_survives(blocks@[j]@) by {
            if j < i {
                assert(encoded@[j] == before[j]);
            }
        }
        i = i + 1;
    }
    encoded
}

proof fn lemma_record_within_payload(records: Seq<Seq<u8>>, n: int)
    requires
        0 <= n < records.len(),
    ensures
        layout::payload_bytes(records.take(n + 1)).len() == layout::payload_bytes(
            records.take(n),
        ).len() + 4 + records[n].len(),
        layout::payload_bytes(records.take(n + 1)).len() <= layout::payload_bytes(records).len(),
    decreases records.len() - n,
{
    lemma_auto_spec_u32_to_from_le_bytes();
    assert(records.take(n).push(records[n]) =~= records.take(n + 1));
    lemma_payload_of_one_more(records.take(n), records[n]);
    if n + 1 < records.len() {
        lemma_record_within_payload(records, n + 1);
    } else {
        assert(records.take(n + 1) =~= records);
    }
}

/// The bytes of the records of a block, without what frames them.
fn records_len(records: &Vec<Bytes>) -> (len: usize)
    requires
        layout::payload_bytes(buffer::contents(records@)).len() <= isize::MAX / 2,
    ensures
        len == buffer::total_len(buffer::contents(records@)),
        len <= layout::payload_bytes(buffer::contents(records@)).len(),
{
    let ghost all = buffer::contents(records@);
    let mut len: usize = 0;
    let mut i: usize = 0;
    assert(all.take(0) =~= seq![]);
    while i < records.len()
        invariant
            i <= records.len(),
            all == buffer::contents(records@),
            layout::payload_bytes(all).len() <= isize::MAX / 2,
            len == buffer::total_len(all.take(i as int)),
            len <= layout::payload_bytes(all.take(i as int)).len(),
        decreases records.len() - i,
    {
        proof {
            lemma_record_within_payload(all, i as int);
            assert(all.take(i + 1).drop_last() =~= all.take(i as int));
        }
        len = len + bytes_as_slice(&records[i]).len();
        i = i + 1;
    }
    assert(all.take(records.len() as int) =~= all);
    len
}

/// The bytes of the records of blocks, counted together.
spec fn total_records_len(blocks: Seq<BlockModel>) -> nat
    decreases blocks.len(),
{
    if blocks.len() == 0 {
        0
    } else {
        total_records_len(blocks.drop_last()) + buffer::total_len(blocks.last().records)
    }
}

/// Whether there is enough work for blocks to be encoded in parallel.
fn encodes_in_parallel(blocks: &[WalBlock]) -> (parallel: bool)
    requires
        total_payload_len(block_models(blocks@)) <= isize::MAX / 2,
    ensures
        parallel == (blocks@.len() > 1 && total_records_len(block_models(blocks@))
            >= PARALLEL_ENCODE_MIN_LEN),
{
    let ghost models = block_models(blocks@);
    let mut total_len: usize = 0;
    let mut i: usize = 0;
    assert(models.take(0) =~= seq![]);
    while i < blocks.len()
        invariant
            i <= blocks.len(),
            models == block_models(blocks@),
            total_payload_len(models) <= isize::MAX / 2,
            total_len == total_records_len(models.take(i as int)),
            total_len <= total_payload_len(models.take(i as int)),
        decreases blocks.len() - i,
    {
        proof {
            lemma_total_of_one_more(models, i as int);
            lemma_block_within_total(models, i as int);
            assert(models[i as int] == blocks@[i as int]@);
            assert(models.take(i + 1).drop_last() =~= models.take(i as int));
        }
        total_len = total_len + records_len(&blocks[i].records);
        i = i + 1;
    }
    assert(models.take(blocks.len() as int) =~= models);
    blocks.len() > 1 && total_len >= PARALLEL_ENCODE_MIN_LEN
}

fn encode_footer(header: &WalObjectHeader, metas: &Vec<WalBlockMeta>) -> (footer: Vec<u8>)
    requires
        layout::text_fits(header@.ingester_id),
        forall|i: int| 0 <= i < metas@.len() ==> layout::text_fits((#[trigger] metas@[i])@.queue_id),
    ensures
        footer@ == layout::footer_bytes(
            (FooterModel { header: header@, blocks: meta_models(metas@) }),
        ),
{
    let mut footer: Vec<u8> = Vec::new();
    encode_header(header, &mut footer);
    put_u32_le(&mut footer, metas.len() as u32);
    let ghost front = footer@;
    let ghost models = meta_models(metas@);
    let mut i: usize = 0;
    assert(models.take(0) =~= seq![]);
    assert(front + layout::all_meta_bytes(models.take(0)) =~= front);
    while i < metas.len()
        invariant
            i <= metas.len(),
            models == meta_models(metas@),
            forall|j: int|
                0 <= j < metas@.len() ==> layout::text_fits((#[trigger] metas@[j])@.queue_id),
            footer@ == front + layout::all_meta_bytes(models.take(i as int)),
        decreases metas.len() - i,
    {
        let meta = &metas[i];
        let ghost before = footer@;
        put_str(&mut footer, meta.queue_id.as_str());
        put_u64_le(&mut footer, meta.first_position);
        put_u32_le(&mut footer, meta.num_records);
        put_u64_le(&mut footer, meta.byte_offset);
        put_u32_le(&mut footer, meta.byte_len);
        proof {
            assert(footer@ =~= before + layout::meta_bytes(meta@));
            lemma_metas_of_one_more(models.take(i as int), meta@);
            assert(models.take(i as int).push(meta@) =~= models.take(i + 1));
            assert(footer@ =~= front + layout::all_meta_bytes(models.take(i + 1)));
        }
        i = i + 1;
    }
    assert(models.take(metas.len() as int) =~= models);
    assert(footer@ =~= layout::footer_bytes(FooterModel { header: header@, blocks: models }));
    footer
}

proof fn lemma_metas_of_one_more(metas: Seq<MetaModel>, meta: MetaModel)
    ensures
        layout::all_meta_bytes(metas.push(meta)) == layout::all_meta_bytes(metas)
            + layout::meta_bytes(meta),
    decreases metas.len(),
{
    if metas.len() == 0 {
        reveal_with_fuel(layout::all_meta_bytes, 2);
        assert(metas.push(meta).skip(1) =~= seq![]);
        assert(layout::all_meta_bytes(metas.push(meta)) =~= layout::all_meta_bytes(metas)
            + layout::meta_bytes(meta));
    } else {
        lemma_metas_of_one_more(metas.skip(1), meta);
        assert(metas.push(meta).skip(1) =~= metas.skip(1).push(meta));
        assert(layout::all_meta_bytes(metas.push(meta)) =~= layout::all_meta_bytes(metas)
            + layout::meta_bytes(meta));
    }
}

/// Encodes a WAL object. An object whose lengths fit their fields, and which is no fence with
/// blocks, reads back: any tail of it that holds the footer and the trailer gives the footer, and
/// the whole gives the header and the blocks.
pub fn encode_wal_object(header: &WalObjectHeader, blocks: &[WalBlock]) -> (object: Bytes)
    requires
        encodable(header@, block_models(blocks@)),
    ensures
        buffer::bytes_content(object) == layout::object_bytes(header@, block_models(blocks@)),
        roundtrip::object_fits(header@, block_models(blocks@)) ==> layout::read_object(
            buffer::bytes_content(object),
        ) == Ok::<_, layout::Fault>(
            (layout::written_header(header@, block_models(blocks@)), block_models(blocks@)),
        ),
{
    let ghost models = block_models(blocks@);
    let written = WalObjectHeader {
        ingester_id: header.ingester_id.clone(),
        epoch: header.epoch,
        generation_id: header.generation_id,
        wal_id: header.wal_id,
        is_fence: header.is_fence || blocks.len() == 0,
    };
    assert(written@ == layout::written_header(header@, models));
    assert forall|i: int| 0 <= i < blocks@.len() implies block_encodable(
        (#[trigger] blocks@[i])@,
    ) by {
        assert(models[i] == blocks@[i]@);
        lemma_block_within_total(models, i);
    }
    let encoded = if encodes_in_parallel(blocks) {
        encode_blocks_in_parallel(blocks)
    } else {
        encode_blocks(blocks)
    };
    assert(forall|i: int|
        #![trigger encoded@[i]]
        0 <= i < blocks@.len() ==> encoded@[i]@ == layout::block_bytes(models[i])
            && roundtrip::payload_survives(models[i]));

    let mut buffer: Vec<u8> = Vec::new();
    encode_header(&written, &mut buffer);
    let ghost head = layout::header_bytes(written@);
    assert(buffer@ =~= head);
    let mut metas: Vec<WalBlockMeta> = Vec::new();
    let mut i: usize = 0;
    assert(models.take(0) =~= seq![]);
    assert(buffer@ =~= head + layout::all_block_bytes(models.take(0)));
    while i < blocks.len()
        invariant
            i <= blocks.len(),
            models == block_models(blocks@),
            encodable(header@, models),
            encoded@.len() == blocks@.len(),
            forall|j: int|
                #![trigger encoded@[j]]
                0 <= j < blocks@.len() ==> encoded@[j]@ == layout::block_bytes(models[j]),
            buffer@ == head + layout::all_block_bytes(models.take(i as int)),
            metas@.len() == i,
            forall|j: int|
                0 <= j < i ==> (#[trigger] metas@[j])@ == layout::block_meta(
                    head.len() as int,
                    models,
                    j,
                ),
        decreases blocks.len() - i,
    {
        let block = &blocks[i];
        let byte_offset: u64 = buffer.len() as u64;
        let block_bytes = &encoded[i];
        put_bytes(&mut buffer, block_bytes.as_slice());
        let meta = WalBlockMeta {
            queue_id: block.queue_id.clone(),
            first_position: block.first_position,
            num_records: block.records.len() as u32,
            byte_offset,
            byte_len: block_bytes.len() as u32,
        };
        proof {
            assert(models[i as int] == block@);
            assert(models.take(i + 1).drop_last() =~= models.take(i as int));
            assert(buffer@ =~= head + layout::all_block_bytes(models.take(i + 1)));
            assert(meta@ == layout::block_meta(head.len() as int, models, i as int));
        }
        metas.push(meta);
        i = i + 1;
    }
    assert(models.take(blocks@.len() as int) =~= models);
    assert(meta_models(metas@) =~= layout::block_metas(head.len() as int, models));
    let footer = encode_footer(&written, &metas);
    let ghost footer_model = layout::object_footer(header@, models);
    assert(footer@ == layout::footer_bytes(footer_model));
    put_bytes(&mut buffer, footer.as_slice());
    let ghost front = buffer@;
    put_u32_le(&mut buffer, footer.len() as u32);
    put_u32_le(&mut buffer, crc32_hash(footer.as_slice()));
    put_u8(&mut buffer, 0x33);
    put_u8(&mut buffer, 0x4c);
    put_u8(&mut buffer, 0x57);
    put_u8(&mut buffer, 0x51);
    proof {
        assert(buffer@ =~= front + layout::trailer_bytes(footer@));
        assert(buffer@ =~= layout::object_bytes(header@, models));
        if roundtrip::object_fits(header@, models) {
            assert forall|j: int| 0 <= j < models.len() implies roundtrip::payload_survives(
                #[trigger] models[j],
            ) by {
                assert(encoded@[j]@ == layout::block_bytes(models[j]));
            }
            roundtrip::object_reads_back(header@, models);
        }
    }
    bytes_from_vec(buffer)
}

/// Encodes a fence object.
pub fn encode_fence_object(
    ingester_id: &str,
    epoch: u64,
    generation_id: u64,
    wal_id: WalId,
) -> (object: Bytes)
    requires
        layout::text_fits(ingester_id@),
    ensures
        buffer::bytes_content(object) == layout::object_bytes(
            fence_header(ingester_id@, epoch, generation_id, wal_id.0),
            seq![],
        ),
        layout::read_object(buffer::bytes_content(object)) == Ok::<_, layout::Fault>(
            (
                fence_header(ingester_id@, epoch, generation_id, wal_id.0),
                Seq::<BlockModel>::empty(),
            ),
        ),
{
    let header = WalObjectHeader {
        ingester_id: ingester_id.to_owned(),
        epoch,
        generation_id,
        wal_id,
        is_fence: true,
    };
    let blocks: Vec<WalBlock> = Vec::new();
    assert(block_models(blocks@) =~= seq![]);
    proof {
        lemma_fence_fits(header@);
    }
    encode_wal_object(&header, blocks.as_slice())
}

/// The header of a fence.
pub open spec fn fence_header(
    ingester_id: Seq<char>,
    epoch: u64,
    generation_id: u64,
    wal_id: u64,
) -> HeaderModel {
    HeaderModel { ingester_id, epoch, generation_id, wal_id, is_fence: true }
}

proof fn lemma_fence_fits(header: HeaderModel)
    requires
        layout::text_fits(header.ingester_id),
    ensures
        roundtrip::object_fits(header, seq![]),
{
    lemma_auto_spec_u16_to_from_le_bytes();
    lemma_auto_spec_u32_to_from_le_bytes();
    lemma_auto_spec_u64_to_from_le_bytes();
    let written = layout::written_header(header, seq![]);
    let footer = layout::object_footer(header, seq![]);
    assert(spec_u64_to_le_bytes(written.epoch).len() == 8);
    assert(spec_u64_to_le_bytes(written.generation_id).len() == 8);
    assert(spec_u64_to_le_bytes(written.wal_id).len() == 8);
    assert(layout::text_bytes(written.ingester_id).len() <= 2 + u16::MAX);
    assert(layout::header_bytes(written).len() <= 32 + u16::MAX);
    assert(footer.blocks =~= seq![]);
    assert(layout::all_meta_bytes(footer.blocks).len() == 0);
    assert(spec_u32_to_le_bytes(footer.blocks.len() as u32).len() == 4);
    assert(layout::footer_bytes(footer).len() <= 36 + u16::MAX);
    let trailer = layout::trailer_bytes(layout::footer_bytes(footer));
    assert(trailer.len() == 12);
    assert(layout::all_block_bytes(seq![]).len() == 0);
}

// ---- Decoding ----

fn corrupted(message: &str) -> (error: WalError)
    ensures
        layout::reports(error, layout::Fault::Says(message@)),
{
    WalError::Corrupted(message.to_owned())
}

/// Bounds-checked little-endian reader.
struct Reader<'a> {
    rest: &'a [u8],
}

impl<'a> Reader<'a> {
    fn bytes(&mut self, len: usize) -> (read: WalResult<&'a [u8]>)
        ensures
            match read {
                Ok(head) => layout::read_bytes(old(self).rest@, len as int) == Ok::<
                    _,
                    layout::Fault,
                >((head@, final(self).rest@)),
                Err(error) => layout::read_bytes(old(self).rest@, len as int) matches Err(fault)
                    && layout::reports(error, fault),
            },
    {
        if self.rest.len() < len {
            return Err(corrupted("unexpected end of data"));
        }
        let ghost all = self.rest@;
        let (head, tail) = self.rest.split_at(len);
        self.rest = tail;
        assert(head@ =~= all.take(len as int));
        assert(tail@ =~= all.skip(len as int));
        Ok(head)
    }

    fn u8(&mut self) -> (read: WalResult<u8>)
        ensures
            match read {
                Ok(value) => layout::read_u8(old(self).rest@) == Ok::<_, layout::Fault>(
                    (value, final(self).rest@),
                ),
                Err(error) => layout::read_u8(old(self).rest@) matches Err(fault)
                    && layout::reports(error, fault),
            },
    {
        let head = self.bytes(1)?;
        Ok(head[0])
    }

    fn u32(&mut self) -> (read: WalResult<u32>)
        ensures
            match read {
                Ok(value) => layout::read_u32(old(self).rest@) == Ok::<_, layout::Fault>(
                    (value, final(self).rest@),
                ),
                Err(error) => layout::read_u32(old(self).rest@) matches Err(fault)
                    && layout::reports(error, fault),
            },
    {
        let head = self.bytes(4)?;
        Ok(u32_from_le_bytes(head))
    }

    fn u64(&mut self) -> (read: WalResult<u64>)
        ensures
            match read {
                Ok(value) => layout::read_u64(old(self).rest@) == Ok::<_, layout::Fault>(
                    (value, final(self).rest@),
                ),
                Err(error) => layout::read_u64(old(self).rest@) matches Err(fault)
                    && layout::reports(error, fault),
            },
    {
        let head = self.bytes(8)?;
        Ok(u64_from_le_bytes(head))
    }

    fn str(&mut self) -> (read: WalResult<String>)
        ensures
            match read {
                Ok(text) => layout::read_text(old(self).rest@) == Ok::<_, layout::Fault>(
                    (text@, final(self).rest@),
                ),
                Err(error) => layout::read_text(old(self).rest@) matches Err(fault)
                    && layout::reports(error, fault),
            },
    {
        let len_bytes = self.bytes(2)?;
        let len: usize = u16_from_le_bytes(len_bytes) as usize;
        let bytes = self.bytes(len)?;
        match string_from_utf8(slice_to_vec(bytes)) {
            Some(text) => Ok(text),
            None => Err(corrupted("invalid UTF-8 string")),
        }
    }
}

fn is_head_magic(bytes: &[u8]) -> (is: bool)
    requires
        bytes@.len() == 4,
    ensures
        is == (bytes@ == layout::head_magic()),
{
    let is = bytes[0] == 0x51 && bytes[1] == 0x57 && bytes[2] == 0x4c && bytes[3] == 0x33;
    assert(is ==> bytes@ =~= layout::head_magic());
    is
}

fn is_tail_magic(bytes: &[u8]) -> (is: bool)
    requires
        bytes@.len() == 4,
    ensures
        is == (bytes@ == layout::tail_magic()),
{
    let is = bytes[0] == 0x33 && bytes[1] == 0x4c && bytes[2] == 0x57 && bytes[3] == 0x51;
    assert(is ==> bytes@ =~= layout::tail_magic());
    is
}

fn decode_header(reader: &mut Reader<'_>) -> (read: WalResult<WalObjectHeader>)
    ensures
        match read {
            Ok(header) => layout::read_header(old(reader).rest@) == Ok::<_, layout::Fault>(
                (header@, final(reader).rest@),
            ),
            Err(error) => layout::read_header(old(reader).rest@) matches Err(fault)
                && layout::reports(error, fault),
        },
{
    let magic = reader.bytes(4)?;
    if !is_head_magic(magic) {
        return Err(corrupted("bad header magic"));
    }
    let version: u8 = reader.u8()?;
    if version != FORMAT_VERSION {
        let mut message = "unsupported WAL format version ".to_owned();
        message.append(decimal_string(version as u64).as_str());
        return Err(WalError::Corrupted(message));
    }
    let flags: u8 = reader.u8()?;
    let epoch: u64 = reader.u64()?;
    let generation_id: u64 = reader.u64()?;
    let wal_id: u64 = reader.u64()?;
    let ingester_id = reader.str()?;
    Ok(
        WalObjectHeader {
            ingester_id,
            epoch,
            generation_id,
            wal_id: WalId(wal_id),
            is_fence: flags & FLAG_FENCE != 0,
        },
    )
}

/// Decodes the trailer (last [`TRAILER_LEN`] bytes) and returns the byte range of the footer
/// within the object.
pub fn footer_range(object_len: u64, trailer: &[u8]) -> (read: WalResult<Range<usize>>)
    requires
        object_len <= usize::MAX,
    ensures
        match read {
            Ok(range) => layout::read_footer_range(object_len as int, trailer@) == Ok::<
                _,
                layout::Fault,
            >((range.start as int, range.end as int)),
            Err(error) => layout::read_footer_range(object_len as int, trailer@) matches Err(fault)
                && layout::reports(error, fault),
        },
{
    if trailer.len() != TRAILER_LEN {
        let mut message = "expected 12-byte trailer, got ".to_owned();
        message.append(decimal_string(trailer.len() as u64).as_str());
        message.append(" bytes");
        return Err(WalError::Corrupted(message));
    }
    let magic = slice_subrange(trailer, 8, 12);
    assert(magic@ =~= trailer@.skip(8));
    if !is_tail_magic(magic) {
        return Err(corrupted("bad trailer magic"));
    }
    let footer_len: u64 = u32_from_le_bytes(slice_subrange(trailer, 0, 4)) as u64;
    if object_len < TRAILER_LEN as u64 || footer_len > object_len - TRAILER_LEN as u64 {
        let mut message = "footer length ".to_owned();
        message.append(decimal_string(footer_len).as_str());
        message.append(" exceeds object length ");
        message.append(decimal_string(object_len).as_str());
        return Err(WalError::Corrupted(message));
    }
    let footer_end: u64 = object_len - TRAILER_LEN as u64;
    Ok((footer_end - footer_len) as usize..footer_end as usize)
}

fn decode_metas(reader: &mut Reader<'_>, num_blocks: u32) -> (read: WalResult<Vec<WalBlockMeta>>)
    ensures
        match read {
            Ok(metas) => layout::read_metas(old(reader).rest@, num_blocks as nat) == Ok::<
                _,
                layout::Fault,
            >((meta_models(metas@), final(reader).rest@)),
            Err(error) => layout::read_metas(old(reader).rest@, num_blocks as nat) matches Err(
                fault,
            ) && layout::reports(error, fault),
        },
{
    let ghost all = reader.rest@;
    let mut metas: Vec<WalBlockMeta> = Vec::new();
    let mut i: u32 = 0;
    assert(meta_models(metas@) =~= seq![]);
    assert(metas_continue(all, num_blocks as nat, seq![], all, num_blocks as nat)) by {
        lemma_prepend_nothing(layout::read_metas(all, num_blocks as nat));
    }
    while i < num_blocks
        invariant
            i <= num_blocks,
            all == old(reader).rest@,
            metas_continue(
                all,
                num_blocks as nat,
                meta_models(metas@),
                reader.rest@,
                (num_blocks - i) as nat,
            ),
        decreases num_blocks - i,
    {
        let ghost before = reader.rest@;
        let queue_id = reader.str()?;
        let first_position: u64 = reader.u64()?;
        let num_records: u32 = reader.u32()?;
        let byte_offset: u64 = reader.u64()?;
        let byte_len: u32 = reader.u32()?;
        let meta = WalBlockMeta { queue_id, first_position, num_records, byte_offset, byte_len };
        let ghost done = meta_models(metas@);
        metas.push(meta);
        proof {
            assert(meta_models(metas@) =~= done.push(meta@));
            match layout::read_metas(reader.rest@, (num_blocks - i - 1) as nat) {
                Ok((others, _)) => {
                    assert(done + (seq![meta@] + others) =~= done.push(meta@) + others);
                },
                Err(_) => {},
            }
        }
        i = i + 1;
    }
    assert(meta_models(metas@) + Seq::<MetaModel>::empty() =~= meta_models(metas@));
    Ok(metas)
}

/// Whether reading `n` entries from `all` comes down to having `done` and reading `left` more from
/// `rest`.
spec fn metas_continue(
    all: Seq<u8>,
    n: nat,
    done: Seq<MetaModel>,
    rest: Seq<u8>,
    left: nat,
) -> bool {
    layout::read_metas(all, n) == prepend_metas(done, layout::read_metas(rest, left))
}

spec fn prepend_metas(
    done: Seq<MetaModel>,
    read: Result<(Seq<MetaModel>, Seq<u8>), layout::Fault>,
) -> Result<(Seq<MetaModel>, Seq<u8>), layout::Fault> {
    match read {
        Ok((metas, rest)) => Ok((done + metas, rest)),
        Err(fault) => Err(fault),
    }
}

proof fn lemma_prepend_nothing(read: Result<(Seq<MetaModel>, Seq<u8>), layout::Fault>)
    ensures
        prepend_metas(seq![], read) == read,
{
    match read {
        Ok((metas, rest)) => {
            assert(Seq::<MetaModel>::empty() + metas =~= metas);
        },
        Err(_) => {},
    }
}

/// Decodes a footer given the bytes `footer | trailer` (i.e. the last `footer_len + TRAILER_LEN`
/// bytes of the object). Verifies the footer checksum.
pub fn decode_footer(footer_and_trailer: &[u8]) -> (read: WalResult<WalFooter>)
    ensures
        match read {
            Ok(footer) => layout::read_footer(footer_and_trailer@) == Ok::<_, layout::Fault>(
                footer@,
            ),
            Err(error) => layout::read_footer(footer_and_trailer@) matches Err(fault)
                && layout::reports(error, fault),
        },
{
    if footer_and_trailer.len() < TRAILER_LEN {
        return Err(corrupted("object too short"));
    }
    let (body, trailer) = footer_and_trailer.split_at(footer_and_trailer.len() - TRAILER_LEN);
    assert(body@ =~= footer_and_trailer@.take(footer_and_trailer@.len() - 12));
    assert(trailer@ =~= footer_and_trailer@.skip(footer_and_trailer@.len() - 12));
    let footer_len: usize = u32_from_le_bytes(slice_subrange(trailer, 0, 4)) as usize;
    let footer_crc: u32 = u32_from_le_bytes(slice_subrange(trailer, 4, 8));
    let magic = slice_subrange(trailer, 8, 12);
    assert(magic@ =~= trailer@.skip(8));
    if !is_tail_magic(magic) {
        return Err(corrupted("bad trailer magic"));
    }
    if footer_len > body.len() {
        return Err(corrupted("footer length exceeds provided bytes"));
    }
    let footer_bytes = slice_subrange(body, body.len() - footer_len, body.len());
    assert(footer_bytes@ =~= body@.skip(body@.len() - footer_len));
    if crc32_hash(footer_bytes) != footer_crc {
        return Err(corrupted("footer checksum mismatch"));
    }
    let mut reader = Reader { rest: footer_bytes };
    let header = decode_header(&mut reader)?;
    let num_blocks: u32 = reader.u32()?;
    let blocks = decode_metas(&mut reader, num_blocks)?;
    if reader.rest.len() != 0 {
        return Err(corrupted("trailing bytes in footer"));
    }
    if header.is_fence && blocks.len() != 0 {
        return Err(corrupted("fence object with blocks"));
    }
    Ok(WalFooter { header, blocks })
}

spec fn prepend_records(
    done: Seq<Seq<u8>>,
    read: Result<Seq<Seq<u8>>, layout::Fault>,
) -> Result<Seq<Seq<u8>>, layout::Fault> {
    match read {
        Ok(records) => Ok(done + records),
        Err(fault) => Err(fault),
    }
}

fn decode_records(payload: Vec<u8>, num_records: u32) -> (read: WalResult<Vec<Bytes>>)
    ensures
        match read {
            Ok(records) => layout::read_records(payload@, num_records as nat) == Ok::<
                _,
                layout::Fault,
            >(buffer::contents(records@)),
            Err(error) => layout::read_records(payload@, num_records as nat) matches Err(fault)
                && layout::reports(error, fault),
        },
{
    let ghost all = payload@;
    let len: usize = payload.len();
    let shared = bytes_from_vec(payload);
    let mut records: Vec<Bytes> = Vec::new();
    let mut offset: usize = 0;
    let mut i: u32 = 0;
    proof {
        assert(buffer::contents(records@) =~= seq![]);
        assert(all.skip(0) =~= all);
        match layout::read_records(all, num_records as nat) {
            Ok(rest) => {
                assert(Seq::<Seq<u8>>::empty() + rest =~= rest);
            },
            Err(_) => {},
        }
    }
    while i < num_records
        invariant
            i <= num_records,
            all == payload@,
            offset <= len == all.len(),
            buffer::bytes_content(shared) == all,
            layout::read_records(all, num_records as nat) == prepend_records(
                buffer::contents(records@),
                layout::read_records(all.skip(offset as int), (num_records - i) as nat),
            ),
        decreases num_records - i,
    {
        let ghost rest = all.skip(offset as int);
        if len - offset < 4 {
            return Err(corrupted("truncated record length"));
        }
        let bytes = bytes_as_slice(&shared);
        let len_bytes = slice_subrange(bytes, offset, offset + 4);
        assert(len_bytes@ =~= rest.take(4));
        let record_len: usize = u32_from_le_bytes(len_bytes) as usize;
        offset = offset + 4;
        if record_len > len - offset {
            return Err(corrupted("truncated record"));
        }
        let record = bytes_slice(&shared, offset, offset + record_len);
        let ghost done = buffer::contents(records@);
        let ghost content = buffer::bytes_content(record);
        records.push(record);
        offset = offset + record_len;
        proof {
            assert(content =~= rest.subrange(4, 4 + record_len));
            assert(rest.skip(4 + record_len) =~= all.skip(offset as int));
            assert(buffer::contents(records@) =~= done.push(content));
            match layout::read_records(all.skip(offset as int), (num_records - i - 1) as nat) {
                Ok(others) => {
                    assert(done + (seq![content] + others) =~= done.push(content) + others);
                },
                Err(_) => {},
            }
        }
        i = i + 1;
    }
    if offset != len {
        return Err(corrupted("trailing bytes in block"));
    }
    assert(buffer::contents(records@) + Seq::<Seq<u8>>::empty() =~= buffer::contents(records@));
    Ok(records)
}

fn decode_stored(codec: u8, stored: &[u8], uncompressed_len: u32) -> (read: WalResult<Vec<u8>>)
    ensures
        match read {
            Ok(payload) => layout::read_stored(codec, stored@, uncompressed_len as nat) == Ok::<
                _,
                layout::Fault,
            >(payload@),
            Err(error) => layout::read_stored(codec, stored@, uncompressed_len as nat) matches Err(
                fault,
            ) && layout::reports(error, fault),
        },
{
    let payload = if codec == CODEC_NONE {
        slice_to_vec(stored)
    } else if codec == CODEC_ZSTD {
        match zstd_decompress(stored, uncompressed_len as usize) {
            Ok(payload) => payload,
            Err(text) => {
                let mut message = "zstd decompression failed: ".to_owned();
                message.append(text.as_str());
                return Err(WalError::Corrupted(message));
            },
        }
    } else {
        let mut message = "unknown codec ".to_owned();
        message.append(decimal_string(codec as u64).as_str());
        return Err(WalError::Corrupted(message));
    };
    if payload.len() != uncompressed_len as usize {
        return Err(corrupted("uncompressed length mismatch"));
    }
    Ok(payload)
}

fn decode_block_inner(reader: &mut Reader<'_>) -> (read: WalResult<WalBlock>)
    ensures
        match read {
            Ok(block) => layout::read_block(old(reader).rest@) == Ok::<_, layout::Fault>(block@),
            Err(error) => layout::read_block(old(reader).rest@) matches Err(fault)
                && layout::reports(error, fault),
        },
{
    let queue_id = reader.str()?;
    let first_position: u64 = reader.u64()?;
    let num_records: u32 = reader.u32()?;
    let codec: u8 = reader.u8()?;
    let uncompressed_len: u32 = reader.u32()?;
    let payload_len: u32 = reader.u32()?;
    let stored = reader.bytes(payload_len as usize)?;
    let payload_crc: u32 = reader.u32()?;
    if crc32_hash(stored) != payload_crc {
        let mut message = "block checksum mismatch for queue `".to_owned();
        message.append(queue_id.as_str());
        message.append("` at position ");
        message.append(decimal_string(first_position).as_str());
        return Err(WalError::Corrupted(message));
    }
    let payload = decode_stored(codec, stored, uncompressed_len)?;
    let records = decode_records(payload, num_records)?;
    if reader.rest.len() != 0 {
        return Err(corrupted("trailing bytes after block"));
    }
    Ok(WalBlock { queue_id, first_position, records })
}

/// Decodes the records of a block from its bytes (the slice described by
/// [`WalBlockMeta::byte_range`]). Verifies the payload checksum and the block metadata.
pub fn decode_block(block_meta: &WalBlockMeta, block_bytes: &[u8]) -> (read: WalResult<Vec<Bytes>>)
    ensures
        match read {
            Ok(records) => layout::read_described_block(block_meta@, block_bytes@) == Ok::<
                _,
                layout::Fault,
            >(buffer::contents(records@)),
            Err(error) => layout::read_described_block(block_meta@, block_bytes@) matches Err(fault)
                && layout::reports(error, fault),
        },
{
    let mut reader = Reader { rest: block_bytes };
    let block = decode_block_inner(&mut reader)?;
    if !same_text(block.queue_id.as_str(), block_meta.queue_id.as_str()) || block.first_position
        != block_meta.first_position || block.records.len() as u32 != block_meta.num_records {
        let mut message = "block does not match footer entry for queue `".to_owned();
        message.append(block_meta.queue_id.as_str());
        message.append("` at position ");
        message.append(decimal_string(block_meta.first_position).as_str());
        return Err(WalError::Corrupted(message));
    }
    Ok(block.records)
}

fn tail_for_footer(bytes: &[u8]) -> (read: WalResult<&[u8]>)
    ensures
        match read {
            Ok(tail) => layout::read_tail(bytes@) == Ok::<_, layout::Fault>(tail@),
            Err(error) => layout::read_tail(bytes@) matches Err(fault) && layout::reports(
                error,
                fault,
            ),
        },
{
    if bytes.len() < TRAILER_LEN {
        return Err(corrupted("object too short"));
    }
    let trailer = slice_subrange(bytes, bytes.len() - TRAILER_LEN, bytes.len());
    assert(trailer@ =~= bytes@.skip(bytes@.len() - 12));
    let range = footer_range(bytes.len() as u64, trailer)?;
    let tail = slice_subrange(bytes, range.start, bytes.len());
    assert(tail@ =~= bytes@.skip(range.start as int));
    Ok(tail)
}

fn decode_described_blocks(bytes: &[u8], metas: &Vec<WalBlockMeta>) -> (read: WalResult<
    Vec<WalBlock>,
>)
    ensures
        match read {
            Ok(blocks) => layout::read_described_blocks(
                bytes@,
                meta_models(metas@),
                metas@.len(),
            ) == Ok::<_, layout::Fault>(block_models(blocks@)),
            Err(error) => layout::read_described_blocks(
                bytes@,
                meta_models(metas@),
                metas@.len(),
            ) matches Err(fault) && layout::reports(error, fault),
        },
{
    let mut blocks: Vec<WalBlock> = Vec::new();
    let ghost models = meta_models(metas@);
    let mut i: usize = 0;
    assert(block_models(blocks@) =~= seq![]);
    while i < metas.len()
        invariant
            i <= metas.len(),
            models == meta_models(metas@),
            layout::read_described_blocks(bytes@, models, i as nat) == Ok::<_, layout::Fault>(
                block_models(blocks@),
            ),
        decreases metas.len() - i,
    {
        let meta = &metas[i];
        assert(models[i as int] == meta@);
        let len: u64 = bytes.len() as u64;
        if meta.byte_offset > len || meta.byte_len as u64 > len - meta.byte_offset {
            proof {
                lemma_blocks_stop(bytes@, models, i as nat, metas@.len());
            }
            return Err(corrupted("block range out of bounds"));
        }
        let range = meta.byte_range();
        match decode_block(meta, slice_subrange(bytes, range.start, range.end)) {
            Err(error) => {
                proof {
                    lemma_blocks_stop(bytes@, models, i as nat, metas@.len());
                }
                return Err(error);
            },
            Ok(records) => {
                let ghost done = block_models(blocks@);
                let block = WalBlock {
                    queue_id: meta.queue_id.clone(),
                    first_position: meta.first_position,
                    records,
                };
                blocks.push(block);
                assert(block_models(blocks@) =~= done.push(block@));
            },
        }
        i = i + 1;
    }
    Ok(blocks)
}

/// A block that does not read stops the blocks behind it from being read.
proof fn lemma_blocks_stop(object: Seq<u8>, metas: Seq<MetaModel>, i: nat, n: nat)
    requires
        i < n,
        layout::read_described_blocks(object, metas, i + 1) is Err,
    ensures
        layout::read_described_blocks(object, metas, n) == layout::read_described_blocks(
            object,
            metas,
            i + 1,
        ),
    decreases n - i,
{
    if i + 1 < n {
        lemma_blocks_stop(object, metas, i, (n - 1) as nat);
    }
}

/// Decodes a whole object. Used for replay of small objects; production paths prefer
/// [`decode_footer`] and [`decode_block`].
pub fn decode_wal_object(bytes: &[u8]) -> (read: WalResult<(WalObjectHeader, Vec<WalBlock>)>)
    ensures
        match read {
            Ok((header, blocks)) => layout::read_object(bytes@) == Ok::<_, layout::Fault>(
                (header@, block_models(blocks@)),
            ),
            Err(error) => layout::read_object(bytes@) matches Err(fault) && layout::reports(
                error,
                fault,
            ),
        },
{
    let tail = tail_for_footer(bytes)?;
    let footer = decode_footer(tail)?;
    let blocks = decode_described_blocks(bytes, &footer.blocks)?;
    let mut head_reader = Reader { rest: bytes };
    let head = decode_header(&mut head_reader)?;
    if !head.same_as(&footer.header) {
        return Err(corrupted("object header does not match footer header"));
    }
    Ok((footer.header, blocks))
}

/// A fence says who wrote it, under which epoch and generation, and which slot it takes.
pub proof fn fences_say_who_fenced(ingester_id: Seq<char>, epoch: u64, generation_id: u64, wal_id: u64)
    ensures
        ({
            let header = fence_header(ingester_id, epoch, generation_id, wal_id);
            &&& header.is_fence
            &&& header.ingester_id == ingester_id
            &&& header.epoch == epoch
            &&& header.generation_id == generation_id
            &&& header.wal_id == wal_id
        }),
{
}

/// Blocks and footer entries are modelled one by one.
pub proof fn blocks_are_modelled_one_by_one(
    blocks: Seq<WalBlock>,
    metas: Seq<WalBlockMeta>,
    i: int,
)
    ensures
        block_models(blocks).len() == blocks.len(),
        meta_models(metas).len() == metas.len(),
        0 <= i < blocks.len() ==> ({
            let model = block_models(blocks)[i];
            model.queue_id == blocks[i].queue_id@ && model.first_position
                == blocks[i].first_position && model.records == buffer::contents(
                blocks[i].records@,
            )
        }),
        0 <= i < metas.len() ==> ({
            let model = meta_models(metas)[i];
            model.queue_id == metas[i].queue_id@ && model.first_position
                == metas[i].first_position && model.num_records == metas[i].num_records
                && model.byte_offset == metas[i].byte_offset && model.byte_len
                == metas[i].byte_len
        }),
{
}

/// The positions of a block run from its first, without a gap, one for each of its records.
pub proof fn positions_run_from_the_first(meta: MetaModel)
    ensures
        meta.last() - meta.first_position + 1 == meta.num_records,
        meta.positions_fit() <==> meta.last() < u64::MAX,
{
}

/// An object holds records of a queue at or behind a position exactly if one of its blocks is of that
/// queue and has a record at such a position. A block without records never counts.
pub proof fn objects_hold_records_at_their_positions(
    footer: FooterModel,
    queue_id: Seq<char>,
    position: u64,
    i: int,
    at: int,
)
    requires
        0 <= i < footer.blocks.len(),
    ensures
        footer.blocks[i].queue_id == queue_id && footer.blocks[i].first_position <= at
            < footer.blocks[i].first_position + footer.blocks[i].num_records && at >= position
            ==> footer.holds_records_after(queue_id, position),
        footer.holds_records_after(queue_id, position) ==> exists|j: int, held: int|
            0 <= j < footer.blocks.len() && #[trigger] holds_at(footer.blocks[j], queue_id, held)
                && held >= position,
{
    if footer.holds_records_after(queue_id, position) {
        let j = choose|j: int|
            0 <= j < footer.blocks.len() && (#[trigger] footer.blocks[j]).queue_id == queue_id
                && footer.blocks[j].num_records > 0 && footer.blocks[j].last() >= position;
        assert(holds_at(footer.blocks[j], queue_id, footer.blocks[j].last()));
    }
}

/// Whether a block holds the record of a queue at a position.
pub open spec fn holds_at(meta: MetaModel, queue_id: Seq<char>, position: int) -> bool {
    meta.queue_id == queue_id && meta.first_position <= position < meta.first_position
        + meta.num_records
}

} // verus!
