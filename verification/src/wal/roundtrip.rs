//! Reading gives back what was written.

use vstd::bytes::*;
use vstd::prelude::*;
use vstd::utf8::*;

#[allow(unused_imports)]
use super::codec;
#[allow(unused_imports)]
use super::layout;
use super::layout::{BlockModel, FooterModel, HeaderModel, MetaModel};

verus! {

/// Whether the payload of a block can be told from its stored form.
pub open spec fn payload_survives(block: BlockModel) -> bool {
    let payload = layout::payload_bytes(block.records);
    layout::compressed(payload) matches Some(frame) ==> codec::zstd_content(frame) == Some(payload)
}

/// Whether every length in a block fits its field.
pub open spec fn block_fits(block: BlockModel) -> bool {
    &&& layout::text_fits(block.queue_id)
    &&& block.records.len() <= u32::MAX
    &&& forall|i: int| 0 <= i < block.records.len() ==> (#[trigger] block.records[i]).len() <= u32::MAX
    &&& layout::payload_bytes(block.records).len() <= u32::MAX
    &&& layout::block_bytes(block).len() <= u32::MAX
}

/// Whether every length in an object fits its field, and the object is no fence with blocks.
pub open spec fn object_fits(header: HeaderModel, blocks: Seq<BlockModel>) -> bool {
    &&& layout::text_fits(header.ingester_id)
    &&& header.is_fence ==> blocks.len() == 0
    &&& forall|i: int| 0 <= i < blocks.len() ==> block_fits(#[trigger] blocks[i])
    &&& blocks.len() <= u32::MAX
    &&& layout::footer_bytes(layout::object_footer(header, blocks)).len() <= u32::MAX
    &&& layout::object_bytes(header, blocks).len() <= u64::MAX
}

proof fn lemma_front(head: Seq<u8>, rest: Seq<u8>)
    ensures
        layout::read_bytes(head + rest, head.len() as int) == Ok::<_, layout::Fault>((head, rest)),
{
    assert((head + rest).take(head.len() as int) =~= head);
    assert((head + rest).skip(head.len() as int) =~= rest);
}

proof fn lemma_read_u8(byte: u8, rest: Seq<u8>)
    ensures
        layout::read_u8(seq![byte] + rest) == Ok::<_, layout::Fault>((byte, rest)),
{
    lemma_front(seq![byte], rest);
}

proof fn lemma_read_u32(value: u32, rest: Seq<u8>)
    ensures
        layout::read_u32(spec_u32_to_le_bytes(value) + rest) == Ok::<_, layout::Fault>(
            (value, rest),
        ),
{
    lemma_auto_spec_u32_to_from_le_bytes();
    lemma_front(spec_u32_to_le_bytes(value), rest);
}

proof fn lemma_read_u64(value: u64, rest: Seq<u8>)
    ensures
        layout::read_u64(spec_u64_to_le_bytes(value) + rest) == Ok::<_, layout::Fault>(
            (value, rest),
        ),
{
    lemma_auto_spec_u64_to_from_le_bytes();
    lemma_front(spec_u64_to_le_bytes(value), rest);
}

proof fn lemma_read_text(text: Seq<char>, rest: Seq<u8>)
    requires
        layout::text_fits(text),
    ensures
        layout::read_text(layout::text_bytes(text) + rest) == Ok::<_, layout::Fault>((text, rest)),
{
    let body = encode_utf8(text);
    let len = spec_u16_to_le_bytes(body.len() as u16);
    lemma_auto_spec_u16_to_from_le_bytes();
    assert(len.len() == 2);
    assert((len + body) + rest =~= len + (body + rest));
    lemma_front(len, body + rest);
    lemma_front(body, rest);
    encode_utf8_valid_utf8(text);
    encode_utf8_decode_utf8(text);
}

proof fn lemma_read_header(header: HeaderModel, rest: Seq<u8>)
    requires
        layout::text_fits(header.ingester_id),
    ensures
        layout::read_header(layout::header_bytes(header) + rest) == Ok::<_, layout::Fault>(
            (header, rest),
        ),
{
    let name = layout::text_bytes(header.ingester_id);
    let wal_id = spec_u64_to_le_bytes(header.wal_id);
    let generation_id = spec_u64_to_le_bytes(header.generation_id);
    let epoch = spec_u64_to_le_bytes(header.epoch);
    let flags: u8 = if header.is_fence {
        1u8
    } else {
        0u8
    };
    let after_wal_id = name + rest;
    let after_generation = wal_id + after_wal_id;
    let after_epoch = generation_id + after_generation;
    let after_flags = epoch + after_epoch;
    let after_version = seq![flags] + after_flags;
    let after_magic = seq![1u8] + after_version;
    assert(layout::header_bytes(header) + rest =~= layout::head_magic() + after_magic);
    lemma_front(layout::head_magic(), after_magic);
    lemma_read_u8(1u8, after_version);
    lemma_read_u8(flags, after_flags);
    lemma_read_u64(header.epoch, after_epoch);
    lemma_read_u64(header.generation_id, after_generation);
    lemma_read_u64(header.wal_id, after_wal_id);
    lemma_read_text(header.ingester_id, rest);
    assert(1u8 & 1 != 0) by (bit_vector);
    assert(0u8 & 1 == 0) by (bit_vector);
}

proof fn lemma_read_records(records: Seq<Seq<u8>>)
    requires
        forall|i: int| 0 <= i < records.len() ==> (#[trigger] records[i]).len() <= u32::MAX,
    ensures
        layout::read_records(layout::payload_bytes(records), records.len()) == Ok::<
            _,
            layout::Fault,
        >(records),
    decreases records.len(),
{
    if records.len() > 0 {
        let first = records[0];
        let len = spec_u32_to_le_bytes(first.len() as u32);
        let rest = layout::payload_bytes(records.skip(1));
        let bytes = layout::payload_bytes(records);
        lemma_auto_spec_u32_to_from_le_bytes();
        assert(len.len() == 4);
        assert(bytes =~= len + (first + rest));
        assert(bytes.take(4) =~= len);
        assert(bytes.skip(4 + first.len() as int) =~= rest);
        assert(bytes.subrange(4, 4 + first.len() as int) =~= first);
        assert forall|i: int| 0 <= i < records.skip(1).len() implies (#[trigger] records.skip(
            1,
        )[i]).len() <= u32::MAX by {
            assert(records.skip(1)[i] == records[i + 1]);
        }
        lemma_read_records(records.skip(1));
        assert(seq![first] + records.skip(1) =~= records);
    } else {
        assert(records =~= seq![]);
    }
}

proof fn lemma_read_block(block: BlockModel)
    requires
        block_fits(block),
        payload_survives(block),
    ensures
        layout::read_block(layout::block_bytes(block)) == Ok::<_, layout::Fault>(block),
{
    let payload = layout::payload_bytes(block.records);
    let (codec, stored) = layout::stored(payload);
    let checksum = spec_u32_to_le_bytes(codec::crc32(stored));
    let none = Seq::<u8>::empty();
    let after_stored_len = stored + checksum;
    let after_len = spec_u32_to_le_bytes(stored.len() as u32) + after_stored_len;
    let after_codec = spec_u32_to_le_bytes(payload.len() as u32) + after_len;
    let after_count = seq![codec] + after_codec;
    let after_position = spec_u32_to_le_bytes(block.records.len() as u32) + after_count;
    let after_queue = spec_u64_to_le_bytes(block.first_position) + after_position;
    assert(layout::block_bytes(block) == layout::text_bytes(block.queue_id) + after_queue);
    lemma_read_text(block.queue_id, after_queue);
    lemma_read_u64(block.first_position, after_position);
    lemma_read_u32(block.records.len() as u32, after_count);
    lemma_read_u8(codec, after_codec);
    lemma_read_u32(payload.len() as u32, after_len);
    assert(stored.len() <= u32::MAX);
    lemma_read_u32(stored.len() as u32, after_stored_len);
    lemma_front(stored, checksum);
    assert(checksum + none =~= checksum);
    lemma_read_u32(codec::crc32(stored), none);
    lemma_read_records(block.records);
}

proof fn lemma_read_meta(meta: MetaModel, rest: Seq<u8>)
    requires
        layout::text_fits(meta.queue_id),
    ensures
        layout::read_meta(layout::meta_bytes(meta) + rest) == Ok::<_, layout::Fault>((meta, rest)),
{
    let after_offset = spec_u32_to_le_bytes(meta.byte_len) + rest;
    let after_count = spec_u64_to_le_bytes(meta.byte_offset) + after_offset;
    let after_position = spec_u32_to_le_bytes(meta.num_records) + after_count;
    let after_queue = spec_u64_to_le_bytes(meta.first_position) + after_position;
    assert(layout::meta_bytes(meta) + rest =~= layout::text_bytes(meta.queue_id) + after_queue);
    lemma_read_text(meta.queue_id, after_queue);
    lemma_read_u64(meta.first_position, after_position);
    lemma_read_u32(meta.num_records, after_count);
    lemma_read_u64(meta.byte_offset, after_offset);
    lemma_read_u32(meta.byte_len, rest);
}

proof fn lemma_read_metas(metas: Seq<MetaModel>, rest: Seq<u8>)
    requires
        forall|i: int| 0 <= i < metas.len() ==> layout::text_fits((#[trigger] metas[i]).queue_id),
    ensures
        layout::read_metas(layout::all_meta_bytes(metas) + rest, metas.len()) == Ok::<
            _,
            layout::Fault,
        >((metas, rest)),
    decreases metas.len(),
{
    if metas.len() == 0 {
        assert(layout::all_meta_bytes(metas) + rest =~= rest);
        assert(metas =~= seq![]);
    } else {
        let others = metas.skip(1);
        let after = layout::all_meta_bytes(others) + rest;
        assert(layout::all_meta_bytes(metas) + rest =~= layout::meta_bytes(metas[0]) + after);
        lemma_read_meta(metas[0], after);
        assert forall|i: int| 0 <= i < others.len() implies layout::text_fits(
            (#[trigger] others[i]).queue_id,
        ) by {
            assert(others[i] == metas[i + 1]);
        }
        lemma_read_metas(others, rest);
        assert(seq![metas[0]] + others =~= metas);
    }
}

/// Whether a footer reads back: every length in it fits its field, and it is no footer of a fence
/// with blocks.
pub open spec fn footer_fits(footer: FooterModel) -> bool {
    &&& layout::text_fits(footer.header.ingester_id)
    &&& footer.header.is_fence ==> footer.blocks.len() == 0
    &&& footer.blocks.len() <= u32::MAX
    &&& forall|i: int|
        0 <= i < footer.blocks.len() ==> layout::text_fits((#[trigger] footer.blocks[i]).queue_id)
    &&& layout::footer_bytes(footer).len() <= u32::MAX
}

/// The bytes of a footer and its trailer read as the footer, whatever stands in front of them.
pub proof fn footer_reads_back(front: Seq<u8>, footer: FooterModel)
    requires
        footer_fits(footer),
    ensures
        layout::read_footer(
            front + layout::footer_bytes(footer) + layout::trailer_bytes(
                layout::footer_bytes(footer),
            ),
        ) == Ok::<_, layout::Fault>(footer),
{
    let bytes = layout::footer_bytes(footer);
    let trailer = layout::trailer_bytes(bytes);
    let all = front + bytes + trailer;
    let len = spec_u32_to_le_bytes(bytes.len() as u32);
    let checksum = spec_u32_to_le_bytes(codec::crc32(bytes));
    lemma_auto_spec_u32_to_from_le_bytes();
    assert(len.len() == 4 && checksum.len() == 4);
    assert(trailer.subrange(0, 4) =~= len);
    assert(trailer.subrange(4, 8) =~= checksum);
    assert(trailer.skip(8) =~= layout::tail_magic());
    assert(trailer.len() == 12);
    assert(all.take(all.len() - 12) =~= front + bytes);
    assert(all.skip(all.len() - 12) =~= trailer);
    assert((front + bytes).skip(front.len() as int) =~= bytes);
    let metas = layout::all_meta_bytes(footer.blocks);
    let count = spec_u32_to_le_bytes(footer.blocks.len() as u32);
    let none = Seq::<u8>::empty();
    lemma_read_header(footer.header, count + metas);
    lemma_read_u32(footer.blocks.len() as u32, metas);
    assert(metas + none =~= metas);
    lemma_read_metas(footer.blocks, none);
}

proof fn lemma_object_footer_fits(header: HeaderModel, blocks: Seq<BlockModel>)
    requires
        object_fits(header, blocks),
    ensures
        footer_fits(layout::object_footer(header, blocks)),
{
    let footer = layout::object_footer(header, blocks);
    assert forall|i: int| 0 <= i < footer.blocks.len() implies layout::text_fits(
        (#[trigger] footer.blocks[i]).queue_id,
    ) by {
        assert(block_fits(blocks[i]));
    }
}

/// Any tail of an object that holds its footer and its trailer gives the footer, which repeats the
/// header and lists the blocks.
pub proof fn object_tail_gives_the_footer(header: HeaderModel, blocks: Seq<BlockModel>, start: int)
    requires
        object_fits(header, blocks),
        0 <= start <= layout::object_bytes(header, blocks).len() - layout::footer_bytes(
            layout::object_footer(header, blocks),
        ).len() - 12,
    ensures
        layout::read_footer(layout::object_bytes(header, blocks).skip(start)) == Ok::<
            _,
            layout::Fault,
        >(layout::object_footer(header, blocks)),
{
    let footer = layout::object_footer(header, blocks);
    let bytes = layout::footer_bytes(footer);
    let trailer = layout::trailer_bytes(bytes);
    let front = layout::header_bytes(layout::written_header(header, blocks))
        + layout::all_block_bytes(blocks);
    lemma_object_footer_fits(header, blocks);
    lemma_auto_spec_u32_to_from_le_bytes();
    assert(trailer.len() == 12);
    assert(layout::object_bytes(header, blocks).skip(start) =~= front.skip(start) + bytes
        + trailer);
    footer_reads_back(front.skip(start), footer);
}

proof fn lemma_block_in_place(blocks: Seq<BlockModel>, i: int)
    requires
        0 <= i < blocks.len(),
    ensures
        layout::all_block_bytes(blocks.take(i)).len() + layout::block_bytes(blocks[i]).len()
            <= layout::all_block_bytes(blocks).len(),
        layout::all_block_bytes(blocks).subrange(
            layout::all_block_bytes(blocks.take(i)).len() as int,
            layout::all_block_bytes(blocks.take(i)).len() as int + layout::block_bytes(
                blocks[i],
            ).len() as int,
        ) == layout::block_bytes(blocks[i]),
    decreases blocks.len(),
{
    let shorter = blocks.drop_last();
    if i == blocks.len() - 1 {
        assert(blocks.take(i) =~= shorter);
        assert(layout::all_block_bytes(blocks).subrange(
            layout::all_block_bytes(shorter).len() as int,
            layout::all_block_bytes(shorter).len() + layout::block_bytes(blocks[i]).len() as int,
        ) =~= layout::block_bytes(blocks[i]));
    } else {
        lemma_block_in_place(shorter, i);
        assert(shorter.take(i) =~= blocks.take(i));
        let a = layout::all_block_bytes(blocks.take(i)).len() as int;
        let b = a + layout::block_bytes(blocks[i]).len() as int;
        assert(layout::all_block_bytes(blocks).subrange(a, b) =~= layout::all_block_bytes(
            shorter,
        ).subrange(a, b));
    }
}

#[verifier::spinoff_prover]
#[verifier::rlimit(40)]
proof fn lemma_read_described_blocks(header: HeaderModel, blocks: Seq<BlockModel>, n: nat)
    requires
        object_fits(header, blocks),
        forall|i: int| 0 <= i < blocks.len() ==> payload_survives(#[trigger] blocks[i]),
        n <= blocks.len(),
    ensures
        layout::read_described_blocks(
            layout::object_bytes(header, blocks),
            layout::object_footer(header, blocks).blocks,
            n,
        ) == Ok::<_, layout::Fault>(blocks.take(n as int)),
    decreases n,
{
    if n == 0 {
        assert(blocks.take(0) =~= seq![]);
    } else {
        lemma_read_described_blocks(header, blocks, (n - 1) as nat);
        let object = layout::object_bytes(header, blocks);
        let i = n - 1;
        let head = layout::header_bytes(layout::written_header(header, blocks));
        let before = layout::all_block_bytes(blocks.take(i));
        let block = blocks[i];
        let meta = layout::object_footer(header, blocks).blocks[i];
        lemma_block_in_place(blocks, i);
        assert(block_fits(block));
        let start = head.len() + before.len();
        assert(start <= object.len());
        assert(meta.byte_offset == start);
        assert(meta.byte_len == layout::block_bytes(block).len());
        assert(object.subrange(start as int, start + meta.byte_len) =~= layout::all_block_bytes(
            blocks,
        ).subrange(before.len() as int, before.len() + meta.byte_len));
        lemma_read_block(block);
        assert(blocks.take(i).push(block) =~= blocks.take(n as int));
    }
}

proof fn lemma_read_tail(front: Seq<u8>, footer: Seq<u8>)
    requires
        footer.len() <= u32::MAX,
    ensures
        layout::read_tail(front + footer + layout::trailer_bytes(footer)) == Ok::<_, layout::Fault>(
            (front + footer + layout::trailer_bytes(footer)).skip(front.len() as int),
        ),
{
    let trailer = layout::trailer_bytes(footer);
    let object = front + footer + trailer;
    lemma_auto_spec_u32_to_from_le_bytes();
    assert(trailer.len() == 12);
    assert(object.skip(object.len() - 12) =~= trailer);
    assert(trailer.subrange(0, 4) =~= spec_u32_to_le_bytes(footer.len() as u32));
    assert(trailer.skip(8) =~= layout::tail_magic());
}

/// A whole object reads as the header and the blocks that were written, for every object whose
/// lengths fit their fields and whose payloads can be told from their stored form.
pub proof fn object_reads_back(header: HeaderModel, blocks: Seq<BlockModel>)
    requires
        object_fits(header, blocks),
        forall|i: int| 0 <= i < blocks.len() ==> payload_survives(#[trigger] blocks[i]),
    ensures
        layout::read_object(layout::object_bytes(header, blocks)) == Ok::<_, layout::Fault>(
            (layout::written_header(header, blocks), blocks),
        ),
{
    let object = layout::object_bytes(header, blocks);
    let footer = layout::object_footer(header, blocks);
    let bytes = layout::footer_bytes(footer);
    let head = layout::header_bytes(footer.header);
    let body = layout::all_block_bytes(blocks);
    let start = (head + body).len() as int;
    assert(layout::read_tail(object) == Ok::<_, layout::Fault>(object.skip(start))) by {
        lemma_read_tail(head + body, bytes);
    }
    assert(layout::read_footer(object.skip(start)) == Ok::<_, layout::Fault>(footer)) by {
        lemma_auto_spec_u32_to_from_le_bytes();
        assert(layout::trailer_bytes(bytes).len() == 12);
        object_tail_gives_the_footer(header, blocks, start);
    }
    assert(layout::read_described_blocks(object, footer.blocks, footer.blocks.len()) == Ok::<
        _,
        layout::Fault,
    >(blocks)) by {
        lemma_read_described_blocks(header, blocks, blocks.len());
        assert(blocks.take(blocks.len() as int) =~= blocks);
    }
    let rest = body + bytes + layout::trailer_bytes(bytes);
    assert(layout::read_header(object) == Ok::<_, layout::Fault>((footer.header, rest))) by {
        assert(object =~= head + rest);
        lemma_read_header(footer.header, rest);
    }
}

// ---- Where each field stands ----

/// A header starts with its magic and the version, then the flags, of which the first tells a fence,
/// the epoch, the generation, the object's id, and the name of the ingester behind its length. Numbers
/// stand with their lowest byte first.
pub proof fn header_fields_stand_in_order(header: HeaderModel)
    ensures
        ({
            let bytes = layout::header_bytes(header);
            let name = encode_utf8(header.ingester_id);
            &&& bytes.len() == 32 + name.len()
            &&& bytes.subrange(0, 4) == seq!['Q' as u8, 'W' as u8, 'L' as u8, '3' as u8]
            &&& bytes[4] == 1
            &&& header.is_fence ==> bytes[5] == 1
            &&& !header.is_fence ==> bytes[5] == 0
            &&& bytes.subrange(6, 14) == spec_u64_to_le_bytes(header.epoch)
            &&& bytes.subrange(14, 22) == spec_u64_to_le_bytes(header.generation_id)
            &&& bytes.subrange(22, 30) == spec_u64_to_le_bytes(header.wal_id)
            &&& bytes.subrange(30, 32) == spec_u16_to_le_bytes(name.len() as u16)
            &&& bytes.skip(32) == name
        }),
{
    lemma_auto_spec_u64_to_from_le_bytes();
    lemma_auto_spec_u16_to_from_le_bytes();
    let bytes = layout::header_bytes(header);
    let name = encode_utf8(header.ingester_id);
    assert(spec_u64_to_le_bytes(header.epoch).len() == 8);
    assert(spec_u64_to_le_bytes(header.generation_id).len() == 8);
    assert(spec_u64_to_le_bytes(header.wal_id).len() == 8);
    assert(spec_u16_to_le_bytes(name.len() as u16).len() == 2);
    assert(bytes.subrange(6, 14) =~= spec_u64_to_le_bytes(header.epoch));
    assert(bytes.subrange(14, 22) =~= spec_u64_to_le_bytes(header.generation_id));
    assert(bytes.subrange(22, 30) =~= spec_u64_to_le_bytes(header.wal_id));
    assert(bytes.subrange(30, 32) =~= spec_u16_to_le_bytes(name.len() as u16));
    assert(bytes.skip(32) =~= name);
    assert(bytes.subrange(0, 4) =~= seq!['Q' as u8, 'W' as u8, 'L' as u8, '3' as u8]);
}

/// A block starts with the name of its queue behind its length, then the position of its first record,
/// the number of records, the codec, the length of the payload and of its stored form, and that form.
/// It ends with the checksum of the stored form.
pub proof fn block_fields_stand_in_order(block: BlockModel)
    ensures
        ({
            let bytes = layout::block_bytes(block);
            let name = encode_utf8(block.queue_id);
            let n = name.len() as int;
            let payload = layout::payload_bytes(block.records);
            let (codec, stored) = layout::stored(payload);
            &&& bytes.len() == 27 + n + stored.len()
            &&& bytes.subrange(0, 2) == spec_u16_to_le_bytes(name.len() as u16)
            &&& bytes.subrange(2, 2 + n) == name
            &&& bytes.subrange(2 + n, 10 + n) == spec_u64_to_le_bytes(block.first_position)
            &&& bytes.subrange(10 + n, 14 + n) == spec_u32_to_le_bytes(block.records.len() as u32)
            &&& bytes[14 + n] == codec
            &&& bytes.subrange(15 + n, 19 + n) == spec_u32_to_le_bytes(payload.len() as u32)
            &&& bytes.subrange(19 + n, 23 + n) == spec_u32_to_le_bytes(stored.len() as u32)
            &&& bytes.subrange(23 + n, 23 + n + stored.len()) == stored
            &&& bytes.skip(23 + n + stored.len()) == spec_u32_to_le_bytes(codec::crc32(stored))
        }),
{
    lemma_auto_spec_u64_to_from_le_bytes();
    lemma_auto_spec_u32_to_from_le_bytes();
    lemma_auto_spec_u16_to_from_le_bytes();
    let bytes = layout::block_bytes(block);
    let name = encode_utf8(block.queue_id);
    let n = name.len() as int;
    let payload = layout::payload_bytes(block.records);
    let (codec, stored) = layout::stored(payload);
    assert(spec_u16_to_le_bytes(name.len() as u16).len() == 2);
    assert(spec_u64_to_le_bytes(block.first_position).len() == 8);
    assert(spec_u32_to_le_bytes(block.records.len() as u32).len() == 4);
    assert(spec_u32_to_le_bytes(payload.len() as u32).len() == 4);
    assert(spec_u32_to_le_bytes(stored.len() as u32).len() == 4);
    assert(spec_u32_to_le_bytes(codec::crc32(stored)).len() == 4);
    assert(bytes.subrange(0, 2) =~= spec_u16_to_le_bytes(name.len() as u16));
    assert(bytes.subrange(2, 2 + n) =~= name);
    assert(bytes.subrange(2 + n, 10 + n) =~= spec_u64_to_le_bytes(block.first_position));
    assert(bytes.subrange(10 + n, 14 + n) =~= spec_u32_to_le_bytes(block.records.len() as u32));
    assert(bytes.subrange(15 + n, 19 + n) =~= spec_u32_to_le_bytes(payload.len() as u32));
    assert(bytes.subrange(19 + n, 23 + n) =~= spec_u32_to_le_bytes(stored.len() as u32));
    assert(bytes.subrange(23 + n, 23 + n + stored.len()) =~= stored);
    assert(bytes.skip(23 + n + stored.len()) =~= spec_u32_to_le_bytes(codec::crc32(stored)));
}

/// A footer entry is the name of the queue behind its length, the position of the first record, the
/// number of records, and where the block stands and how long it is.
pub proof fn entry_fields_stand_in_order(meta: MetaModel)
    ensures
        ({
            let bytes = layout::meta_bytes(meta);
            let name = encode_utf8(meta.queue_id);
            let n = name.len() as int;
            &&& bytes.len() == 26 + n
            &&& bytes.subrange(0, 2) == spec_u16_to_le_bytes(name.len() as u16)
            &&& bytes.subrange(2, 2 + n) == name
            &&& bytes.subrange(2 + n, 10 + n) == spec_u64_to_le_bytes(meta.first_position)
            &&& bytes.subrange(10 + n, 14 + n) == spec_u32_to_le_bytes(meta.num_records)
            &&& bytes.subrange(14 + n, 22 + n) == spec_u64_to_le_bytes(meta.byte_offset)
            &&& bytes.subrange(22 + n, 26 + n) == spec_u32_to_le_bytes(meta.byte_len)
        }),
{
    lemma_auto_spec_u64_to_from_le_bytes();
    lemma_auto_spec_u32_to_from_le_bytes();
    lemma_auto_spec_u16_to_from_le_bytes();
    let bytes = layout::meta_bytes(meta);
    let name = encode_utf8(meta.queue_id);
    let n = name.len() as int;
    assert(spec_u16_to_le_bytes(name.len() as u16).len() == 2);
    assert(spec_u64_to_le_bytes(meta.first_position).len() == 8);
    assert(spec_u32_to_le_bytes(meta.num_records).len() == 4);
    assert(spec_u64_to_le_bytes(meta.byte_offset).len() == 8);
    assert(spec_u32_to_le_bytes(meta.byte_len).len() == 4);
    assert(bytes.subrange(0, 2) =~= spec_u16_to_le_bytes(name.len() as u16));
    assert(bytes.subrange(2, 2 + n) =~= name);
    assert(bytes.subrange(2 + n, 10 + n) =~= spec_u64_to_le_bytes(meta.first_position));
    assert(bytes.subrange(10 + n, 14 + n) =~= spec_u32_to_le_bytes(meta.num_records));
    assert(bytes.subrange(14 + n, 22 + n) =~= spec_u64_to_le_bytes(meta.byte_offset));
    assert(bytes.subrange(22 + n, 26 + n) =~= spec_u32_to_le_bytes(meta.byte_len));
}

/// An object starts with its header and ends with the length and the checksum of its footer, and the
/// trailer's magic. The footer stands right before them, and starts with the header again and the
/// number of blocks.
pub proof fn objects_end_with_their_footer(header: HeaderModel, blocks: Seq<BlockModel>)
    ensures
        ({
            let object = layout::object_bytes(header, blocks);
            let footer = layout::footer_bytes(layout::object_footer(header, blocks));
            let head = layout::header_bytes(layout::written_header(header, blocks));
            let end = object.len() as int;
            &&& end >= head.len() + footer.len() + 12
            &&& object.take(head.len() as int) == head
            &&& object.subrange(end - 12 - footer.len(), end - 12) == footer
            &&& object.subrange(end - 12, end - 8) == spec_u32_to_le_bytes(footer.len() as u32)
            &&& object.subrange(end - 8, end - 4) == spec_u32_to_le_bytes(codec::crc32(footer))
            &&& object.skip(end - 4) == seq!['3' as u8, 'L' as u8, 'W' as u8, 'Q' as u8]
            &&& footer.take(head.len() as int) == head
            &&& footer.subrange(head.len() as int, head.len() as int + 4) == spec_u32_to_le_bytes(
                blocks.len() as u32,
            )
        }),
{
    lemma_auto_spec_u32_to_from_le_bytes();
    let object = layout::object_bytes(header, blocks);
    let footer = layout::footer_bytes(layout::object_footer(header, blocks));
    let head = layout::header_bytes(layout::written_header(header, blocks));
    let end = object.len() as int;
    assert(spec_u32_to_le_bytes(footer.len() as u32).len() == 4);
    assert(spec_u32_to_le_bytes(codec::crc32(footer)).len() == 4);
    assert(spec_u32_to_le_bytes(blocks.len() as u32).len() == 4);
    assert(layout::object_footer(header, blocks).blocks.len() == blocks.len());
    assert(object.take(head.len() as int) =~= head);
    assert(object.subrange(end - 12 - footer.len(), end - 12) =~= footer);
    assert(object.subrange(end - 12, end - 8) =~= spec_u32_to_le_bytes(footer.len() as u32));
    assert(object.subrange(end - 8, end - 4) =~= spec_u32_to_le_bytes(codec::crc32(footer)));
    assert(object.skip(end - 4) =~= seq!['3' as u8, 'L' as u8, 'W' as u8, 'Q' as u8]);
    assert(footer.take(head.len() as int) =~= head);
    assert(footer.subrange(head.len() as int, head.len() as int + 4) =~= spec_u32_to_le_bytes(
        blocks.len() as u32,
    ));
}

/// Each footer entry describes the block of its rank: its queue, its first position and number of
/// records, and exactly the bytes of the object that hold it.
pub proof fn entries_describe_their_blocks(header: HeaderModel, blocks: Seq<BlockModel>, i: int)
    requires
        object_fits(header, blocks),
        0 <= i < blocks.len(),
    ensures
        ({
            let object = layout::object_bytes(header, blocks);
            let footer = layout::object_footer(header, blocks);
            let meta = footer.blocks[i];
            &&& footer.blocks.len() == blocks.len()
            &&& meta.queue_id == blocks[i].queue_id
            &&& meta.first_position == blocks[i].first_position
            &&& meta.num_records == blocks[i].records.len()
            &&& meta.byte_offset + meta.byte_len <= object.len()
            &&& object.subrange(meta.byte_offset as int, meta.byte_offset + meta.byte_len)
                == layout::block_bytes(blocks[i])
        }),
{
    let object = layout::object_bytes(header, blocks);
    let head = layout::header_bytes(layout::written_header(header, blocks));
    let before = layout::all_block_bytes(blocks.take(i));
    let meta = layout::object_footer(header, blocks).blocks[i];
    lemma_block_in_place(blocks, i);
    assert(block_fits(blocks[i]));
    let start = head.len() + before.len();
    assert(start <= object.len());
    assert(meta.byte_offset == start);
    assert(object.subrange(start as int, start + meta.byte_len) =~= layout::all_block_bytes(
        blocks,
    ).subrange(before.len() as int, before.len() + meta.byte_len));
}

/// A written object is a fence exactly if it is asked to be one or has no blocks. The rest of its header
/// is as given.
pub proof fn objects_without_blocks_are_fences(header: HeaderModel, blocks: Seq<BlockModel>)
    ensures
        ({
            let written = layout::written_header(header, blocks);
            &&& blocks.len() == 0 ==> written.is_fence
            &&& blocks.len() > 0 ==> written.is_fence == header.is_fence
            &&& header.is_fence ==> written.is_fence
            &&& written.ingester_id == header.ingester_id
            &&& written.epoch == header.epoch
            &&& written.generation_id == header.generation_id
            &&& written.wal_id == header.wal_id
        }),
{
}

/// Storing a payload never makes it longer, and a short one is stored as it is. The codec tells which
/// form was stored: one that is not the payload itself is its zstd frame, and shorter.
pub proof fn payloads_are_stored_in_the_shorter_form(payload: Seq<u8>)
    ensures
        ({
            let (codec, stored) = layout::stored(payload);
            &&& stored.len() <= payload.len()
            &&& codec == 0 || codec == 1
            &&& codec == 0 ==> stored == payload
            &&& codec == 1 ==> payload.len() >= 256 && stored.len() < payload.len()
                && codec::zstd_frame(payload, 1) == Some(stored)
            &&& payload.len() < 256 ==> codec == 0
            &&& payload.len() >= 256 && codec::zstd_frame(payload, 1) is Some
                && codec::zstd_frame(payload, 1)->0.len() < payload.len() ==> codec == 1
        }),
{
}

// ---- Nothing else is read ----

/// What is read stands at the front of what it is read from, and the rest is what follows it.
pub proof fn fields_are_read_from_the_front(bytes: Seq<u8>, n: int)
    requires
        0 <= n,
    ensures
        layout::read_bytes(bytes, n) is Ok <==> n <= bytes.len(),
        layout::read_bytes(bytes, n) matches Ok((head, rest)) ==> head.len() == n && head + rest
            == bytes,
        layout::read_u8(bytes) is Ok <==> bytes.len() >= 1,
        layout::read_u8(bytes) matches Ok((value, rest)) ==> seq![value] + rest == bytes,
        layout::read_u32(bytes) is Ok <==> bytes.len() >= 4,
        layout::read_u32(bytes) matches Ok((value, rest)) ==> spec_u32_to_le_bytes(value) + rest
            == bytes,
        layout::read_u64(bytes) is Ok <==> bytes.len() >= 8,
        layout::read_u64(bytes) matches Ok((value, rest)) ==> spec_u64_to_le_bytes(value) + rest
            == bytes,
        layout::read_text(bytes) matches Ok((text, rest)) ==> layout::text_fits(text)
            && layout::text_bytes(text) + rest == bytes,
{
    lemma_auto_spec_u64_to_from_le_bytes();
    lemma_auto_spec_u32_to_from_le_bytes();
    lemma_auto_spec_u16_to_from_le_bytes();
    if n <= bytes.len() {
        assert(bytes.take(n) + bytes.skip(n) =~= bytes);
    }
    if bytes.len() >= 1 {
        assert(seq![bytes.take(1)[0]] + bytes.skip(1) =~= bytes);
    }
    if bytes.len() >= 4 {
        assert(bytes.take(4) + bytes.skip(4) =~= bytes);
    }
    if bytes.len() >= 8 {
        assert(bytes.take(8) + bytes.skip(8) =~= bytes);
    }
    if bytes.len() >= 2 {
        let len = spec_u16_from_le_bytes(bytes.take(2)) as int;
        let rest = bytes.skip(2);
        if rest.len() >= len {
            let text = rest.take(len);
            if valid_utf8(text) {
                decode_utf8_encode_utf8(text);
                assert(spec_u16_to_le_bytes(len as u16) == bytes.take(2));
                assert(bytes.take(2) + text + rest.skip(len) =~= bytes);
            }
        }
    }
}

/// Records are read exactly from a payload made of them, all of it: each has its own length, and there
/// are as many as announced.
pub proof fn payloads_are_read_to_the_end(bytes: Seq<u8>, n: nat)
    ensures
        layout::read_records(bytes, n) matches Ok(records) ==> records.len() == n
            && layout::payload_bytes(records) == bytes,
    decreases n,
{
    lemma_auto_spec_u32_to_from_le_bytes();
    if n == 0 {
        if bytes.len() == 0 {
            assert(bytes =~= seq![]);
        }
    } else if bytes.len() >= 4 {
        let len = spec_u32_from_le_bytes(bytes.take(4)) as int;
        if 4 + len <= bytes.len() {
            payloads_are_read_to_the_end(bytes.skip(4 + len), (n - 1) as nat);
            if let Ok(rest) = layout::read_records(bytes.skip(4 + len), (n - 1) as nat) {
                let first = bytes.subrange(4, 4 + len);
                let records = seq![first] + rest;
                assert(records.skip(1) =~= rest);
                assert(spec_u32_to_le_bytes(first.len() as u32) == bytes.take(4));
                assert(bytes.take(4) + first + bytes.skip(4 + len) =~= bytes);
            }
        }
    }
}

/// The records of a payload are all read back, and with another number of them the payload is refused.
pub proof fn payloads_hold_as_many_records_as_announced(records: Seq<Seq<u8>>, n: nat)
    requires
        forall|i: int| 0 <= i < records.len() ==> (#[trigger] records[i]).len() <= u32::MAX,
    ensures
        layout::read_records(layout::payload_bytes(records), records.len()) == Ok::<
            _,
            layout::Fault,
        >(records),
        n != records.len() ==> layout::read_records(layout::payload_bytes(records), n) is Err,
    decreases records.len(),
{
    lemma_read_records(records);
    if n != records.len() && records.len() > 0 && n > 0 {
        let first = records[0];
        let len = spec_u32_to_le_bytes(first.len() as u32);
        let rest = layout::payload_bytes(records.skip(1));
        let bytes = layout::payload_bytes(records);
        lemma_auto_spec_u32_to_from_le_bytes();
        assert(len.len() == 4);
        assert(bytes =~= len + (first + rest));
        assert(bytes.take(4) =~= len);
        assert(bytes.skip(4 + first.len() as int) =~= rest);
        assert forall|i: int| 0 <= i < records.skip(1).len() implies (#[trigger] records.skip(
            1,
        )[i]).len() <= u32::MAX by {
            assert(records.skip(1)[i] == records[i + 1]);
        }
        payloads_hold_as_many_records_as_announced(records.skip(1), (n - 1) as nat);
    } else if n != records.len() && records.len() > 0 {
        lemma_auto_spec_u32_to_from_le_bytes();
        assert(spec_u32_to_le_bytes(records[0].len() as u32).len() == 4);
        assert(layout::payload_bytes(records).len() >= 4);
    }
}

/// A header is read only behind its magic and the version, and from a front that is as long as it.
pub proof fn only_headers_are_read(bytes: Seq<u8>)
    ensures
        bytes.len() >= 4 && bytes.take(4) != seq!['Q' as u8, 'W' as u8, 'L' as u8, '3' as u8]
            ==> layout::read_header(bytes) == Err::<(HeaderModel, Seq<u8>), _>(
            layout::Fault::Says("bad header magic"@),
        ),
        bytes.len() >= 5 && bytes[4] != 1 ==> layout::read_header(bytes) is Err,
        layout::read_header(bytes) matches Ok((header, rest)) ==> {
            &&& bytes.len() >= 32
            &&& layout::header_bytes(header).len() + rest.len() == bytes.len()
            &&& bytes.skip(bytes.len() - rest.len()) == rest
            &&& bytes.take(4) == seq!['Q' as u8, 'W' as u8, 'L' as u8, '3' as u8]
            &&& bytes[4] == 1
            &&& header.is_fence == (bytes[5] & 1 != 0)
            &&& spec_u64_to_le_bytes(header.epoch) == bytes.subrange(6, 14)
            &&& spec_u64_to_le_bytes(header.generation_id) == bytes.subrange(14, 22)
            &&& spec_u64_to_le_bytes(header.wal_id) == bytes.subrange(22, 30)
        },
{
    lemma_auto_spec_u64_to_from_le_bytes();
    assert(layout::head_magic() =~= seq!['Q' as u8, 'W' as u8, 'L' as u8, '3' as u8]);
    if let Ok((header, rest)) = layout::read_header(bytes) {
        let fields = bytes.skip(4).skip(1).skip(1);
        assert(fields =~= bytes.skip(6));
        assert(fields.take(8) =~= bytes.subrange(6, 14));
        assert(fields.skip(8).take(8) =~= bytes.subrange(14, 22));
        assert(fields.skip(8).skip(8).take(8) =~= bytes.subrange(22, 30));
        let tail = fields.skip(8).skip(8).skip(8);
        assert(tail =~= bytes.skip(30));
        fields_are_read_from_the_front(tail, 0);
        header_fields_stand_in_order(header);
        let text = layout::text_bytes(header.ingester_id);
        lemma_auto_spec_u16_to_from_le_bytes();
        assert(spec_u16_to_le_bytes(encode_utf8(header.ingester_id).len() as u16).len() == 2);
        assert((text + rest).skip(text.len() as int) =~= rest);
        assert(bytes.skip(30).skip(text.len() as int) =~= bytes.skip(bytes.len() - rest.len()));
    }
}

/// A stored form is read only with a codec that is known, and to a payload that has the announced
/// length.
pub proof fn payloads_have_the_announced_length(codec: u8, stored: Seq<u8>, len: nat)
    ensures
        layout::read_stored(codec, stored, len) matches Ok(payload) ==> payload.len() == len,
        codec == 0 ==> (layout::read_stored(codec, stored, len) is Ok <==> stored.len() == len),
        codec == 0 && stored.len() == len ==> layout::read_stored(codec, stored, len) == Ok::<
            _,
            layout::Fault,
        >(stored),
        codec == 1 ==> (layout::read_stored(codec, stored, len) is Ok <==> codec::zstd_content(
            stored,
        ) is Some && codec::zstd_content(stored)->0.len() == len),
        codec == 1 && layout::read_stored(codec, stored, len) is Ok ==> codec::zstd_content(stored)
            == Some(layout::read_stored(codec, stored, len)->Ok_0),
        codec > 1 ==> layout::read_stored(codec, stored, len) is Err,
{
}

/// A block whose stored form does not have its checksum is refused, and so is one with bytes behind
/// its checksum. Any other is read as its queue, its first position and the records of its payload.
pub proof fn corrupted_blocks_are_refused(
    queue_id: Seq<char>,
    first_position: u64,
    num_records: u32,
    codec: u8,
    len: u32,
    stored: Seq<u8>,
    checksum: u32,
    rest: Seq<u8>,
)
    ensures
        ({
            let read = layout::read_payload(
                queue_id,
                first_position,
                num_records,
                codec,
                len,
                stored,
                checksum,
                rest,
            );
            &&& checksum != codec::crc32(stored) ==> read == Err::<BlockModel, _>(
                layout::Fault::Says(
                    "block checksum mismatch for queue `"@ + queue_id + "` at position "@
                        + crate::text::decimal(first_position as nat),
                ),
            )
            &&& rest.len() > 0 ==> read is Err
            &&& read matches Ok(block) ==> block.queue_id == queue_id && block.first_position
                == first_position && block.records.len() == num_records && layout::read_stored(
                codec,
                stored,
                len as nat,
            ) == Ok::<_, layout::Fault>(layout::payload_bytes(block.records))
            &&& (checksum == codec::crc32(stored) && rest.len() == 0 && (layout::read_stored(
                codec,
                stored,
                len as nat,
            ) matches Ok(payload) && layout::read_records(payload, num_records as nat) is Ok))
                ==> read is Ok
        }),
{
    if let Ok(payload) = layout::read_stored(codec, stored, len as nat) {
        payloads_are_read_to_the_end(payload, num_records as nat);
    }
}

/// A block is read for a footer entry exactly if it can be read and is what the entry says: of its queue,
/// at its position, and with as many records.
pub proof fn only_the_described_block_is_read(meta: MetaModel, bytes: Seq<u8>)
    ensures
        ({
            let read = layout::read_described_block(meta, bytes);
            &&& layout::read_block(bytes) is Err ==> read is Err && read->Err_0
                == layout::read_block(bytes)->Err_0
            &&& layout::read_block(bytes) matches Ok(block) ==> {
                &&& block.queue_id != meta.queue_id ==> read is Err
                &&& block.first_position != meta.first_position ==> read is Err
                &&& block.records.len() as u32 != meta.num_records ==> read is Err
                &&& block.queue_id == meta.queue_id && block.first_position == meta.first_position
                    && block.records.len() as u32 == meta.num_records ==> read == Ok::<
                    _,
                    layout::Fault,
                >(block.records)
            }
        }),
{
}

/// The blocks of an object are read one for each footer entry, in order, each from the bytes that its
/// entry names. An entry that reaches behind the object is refused.
pub proof fn blocks_are_read_where_they_stand(
    object: Seq<u8>,
    metas: Seq<MetaModel>,
    n: nat,
    i: int,
)
    requires
        0 <= i < n <= metas.len(),
    ensures
        metas[i].byte_offset + metas[i].byte_len > object.len() ==> layout::read_described_blocks(
            object,
            metas,
            n,
        ) is Err,
        i == n - 1 && metas[i].byte_offset + metas[i].byte_len <= object.len()
            && layout::read_described_blocks(object, metas, i as nat) is Ok
            && layout::read_described_block(
            metas[i],
            object.subrange(
                metas[i].byte_offset as int,
                metas[i].byte_offset + metas[i].byte_len,
            ),
        ) is Ok ==> layout::read_described_blocks(object, metas, n) is Ok,
        layout::read_described_blocks(object, metas, n) matches Ok(blocks) ==> {
            &&& blocks.len() == n
            &&& blocks[i].queue_id == metas[i].queue_id
            &&& blocks[i].first_position == metas[i].first_position
            &&& layout::read_described_block(
                metas[i],
                object.subrange(
                    metas[i].byte_offset as int,
                    metas[i].byte_offset + metas[i].byte_len,
                ),
            ) == Ok::<_, layout::Fault>(blocks[i].records)
        },
    decreases n,
{
    if i < n - 1 {
        blocks_are_read_where_they_stand(object, metas, (n - 1) as nat, i);
    } else if n > 1 {
        blocks_are_read_where_they_stand(object, metas, (n - 1) as nat, 0);
    }
}

/// A footer is read only from bytes that end with the trailer's magic, and only if it has the length and
/// the checksum that the trailer gives. A footer with bytes to spare is refused, and so is a fence with
/// blocks.
pub proof fn corrupted_footers_are_refused(bytes: Seq<u8>)
    ensures
        bytes.len() < 12 ==> layout::read_footer(bytes) == Err::<FooterModel, _>(
            layout::Fault::Says("object too short"@),
        ),
        bytes.len() >= 12 && bytes.skip(bytes.len() - 4) != seq![
            '3' as u8,
            'L' as u8,
            'W' as u8,
            'Q' as u8,
        ] ==> layout::read_footer(bytes) == Err::<FooterModel, _>(
            layout::Fault::Says("bad trailer magic"@),
        ),
        bytes.len() >= 12 && bytes.skip(bytes.len() - 4) == seq![
            '3' as u8,
            'L' as u8,
            'W' as u8,
            'Q' as u8,
        ] ==> ({
            let end = bytes.len() as int;
            let len = spec_u32_from_le_bytes(bytes.subrange(end - 12, end - 8));
            let crc = spec_u32_from_le_bytes(bytes.subrange(end - 8, end - 4));
            &&& 12 + len > end ==> layout::read_footer(bytes) == Err::<FooterModel, _>(
                layout::Fault::Says("footer length exceeds provided bytes"@),
            )
            &&& 12 + len <= end && codec::crc32(bytes.subrange(end - 12 - len, end - 12)) != crc
                ==> layout::read_footer(bytes) == Err::<FooterModel, _>(
                layout::Fault::Says("footer checksum mismatch"@),
            )
            &&& 12 + len <= end && codec::crc32(bytes.subrange(end - 12 - len, end - 12)) == crc
                ==> layout::read_footer(bytes) == layout::read_footer_body(
                bytes.subrange(end - 12 - len, end - 12),
            )
        }),
        layout::read_footer(bytes) matches Ok(footer) ==> ({
            let end = bytes.len() as int;
            let len = spec_u32_from_le_bytes(bytes.subrange(end - 12, end - 8));
            let body = bytes.subrange(end - 12 - len, end - 12);
            &&& end >= 12 + len
            &&& bytes.skip(end - 4) == seq!['3' as u8, 'L' as u8, 'W' as u8, 'Q' as u8]
            &&& codec::crc32(body) == spec_u32_from_le_bytes(bytes.subrange(end - 8, end - 4))
            &&& layout::read_header(body) is Ok
            &&& layout::read_header(body)->Ok_0.0 == footer.header
            &&& footer.header.is_fence ==> footer.blocks.len() == 0
            &&& layout::read_u32(layout::read_header(body)->Ok_0.1) is Ok
            &&& layout::read_u32(layout::read_header(body)->Ok_0.1)->Ok_0.0 == footer.blocks.len()
        }),
{
    let end = bytes.len() as int;
    let body = bytes.take(end - 12);
    let trailer = bytes.skip(end - 12);
    let len = layout::trailer_footer_len(trailer);
    assert(layout::tail_magic() =~= seq!['3' as u8, 'L' as u8, 'W' as u8, 'Q' as u8]);
    if end >= 12 {
        assert(trailer.subrange(0, 4) =~= bytes.subrange(end - 12, end - 8));
        assert(trailer.subrange(4, 8) =~= bytes.subrange(end - 8, end - 4));
        assert(trailer.skip(8) =~= bytes.skip(end - 4));
        if 12 + len <= end {
            assert(body.skip(body.len() - len) =~= bytes.subrange(end - 12 - len, end - 12));
        }
    }
    if let Ok(footer) = layout::read_footer(bytes) {
        let (_, rest) = layout::read_header(bytes.subrange(end - 12 - len, end - 12))->Ok_0;
        let (n, rest) = layout::read_u32(rest)->Ok_0;
        entries_are_read_one_by_one(rest, n as nat);
    }
}

proof fn lemma_regroup(a: Seq<u8>, b: Seq<u8>, c: Seq<u8>)
    ensures
        (a + b) + c == a + (b + c),
{
    assert((a + b) + c =~= a + (b + c));
}

/// A footer entry is read from the front, and the rest is what follows it.
pub proof fn entry_is_read_from_the_front(bytes: Seq<u8>)
    ensures
        layout::read_meta(bytes) matches Ok((meta, rest)) ==> layout::meta_bytes(meta) + rest
            == bytes,
{
    if let Ok((meta, rest)) = layout::read_meta(bytes) {
        let (queue_id, r1) = layout::read_text(bytes)->Ok_0;
        let (first_position, r2) = layout::read_u64(r1)->Ok_0;
        let (num_records, r3) = layout::read_u32(r2)->Ok_0;
        let (byte_offset, r4) = layout::read_u64(r3)->Ok_0;
        let (byte_len, r5) = layout::read_u32(r4)->Ok_0;
        fields_are_read_from_the_front(bytes, 0);
        fields_are_read_from_the_front(r1, 0);
        fields_are_read_from_the_front(r2, 0);
        fields_are_read_from_the_front(r3, 0);
        fields_are_read_from_the_front(r4, 0);
        let p1 = layout::text_bytes(queue_id);
        let p2 = spec_u64_to_le_bytes(first_position);
        let p3 = spec_u32_to_le_bytes(num_records);
        let p4 = spec_u64_to_le_bytes(byte_offset);
        let p5 = spec_u32_to_le_bytes(byte_len);
        assert(layout::meta_bytes(meta) == p1 + (p2 + (p3 + (p4 + p5))));
        lemma_regroup(p4, p5, r5);
        lemma_regroup(p3, p4 + p5, r5);
        lemma_regroup(p2, p3 + (p4 + p5), r5);
        lemma_regroup(p1, p2 + (p3 + (p4 + p5)), r5);
    }
}

/// Footer entries are read from the front, as many as announced, and the rest is what follows them.
pub proof fn entries_are_read_one_by_one(bytes: Seq<u8>, n: nat)
    ensures
        layout::read_metas(bytes, n) matches Ok((metas, rest)) ==> metas.len() == n
            && layout::all_meta_bytes(metas) + rest == bytes,
    decreases n,
{
    if n > 0 {
        if let Ok((meta, rest)) = layout::read_meta(bytes) {
            entry_is_read_from_the_front(bytes);
            entries_are_read_one_by_one(rest, (n - 1) as nat);
            if let Ok((metas, last)) = layout::read_metas(rest, (n - 1) as nat) {
                let all = seq![meta] + metas;
                assert(all.skip(1) =~= metas);
                assert(layout::all_meta_bytes(all) + last =~= layout::meta_bytes(meta) + (
                layout::all_meta_bytes(metas) + last));
            }
        }
    } else {
        assert(layout::all_meta_bytes(seq![]) + bytes =~= bytes);
    }
}

/// The footer of an object of a given length stands right before the trailer, and is as long as the
/// trailer says, which cannot be longer than the object.
pub proof fn footers_stand_before_the_trailer(object_len: int, trailer: Seq<u8>)
    ensures
        layout::read_footer_range(object_len, trailer) is Ok <==> trailer.len() == 12
            && trailer.skip(8) == seq!['3' as u8, 'L' as u8, 'W' as u8, 'Q' as u8]
            && spec_u32_from_le_bytes(trailer.subrange(0, 4)) + 12 <= object_len,
        layout::read_footer_range(object_len, trailer) matches Ok((start, end)) ==> end + 12
            == object_len && end - start == spec_u32_from_le_bytes(trailer.subrange(0, 4)),
{
    assert(layout::tail_magic() =~= seq!['3' as u8, 'L' as u8, 'W' as u8, 'Q' as u8]);
}

/// An object is read only if it starts with the header that its footer repeats, and every block of its
/// footer can be read.
pub proof fn objects_agree_with_their_footer(object: Seq<u8>)
    ensures
        layout::read_object(object) matches Ok((header, blocks)) ==> {
            &&& layout::read_header(object) is Ok
            &&& layout::read_header(object)->Ok_0.0 == header
            &&& layout::read_tail(object) is Ok
            &&& layout::read_footer(layout::read_tail(object)->Ok_0) is Ok
            &&& layout::read_footer(layout::read_tail(object)->Ok_0)->Ok_0.header == header
            &&& layout::read_footer(layout::read_tail(object)->Ok_0)->Ok_0.blocks.len()
                == blocks.len()
        },
        object.len() < 12 ==> layout::read_tail(object) is Err,
        object.len() >= 12 ==> (layout::read_tail(object) is Ok <==> layout::read_footer_range(
            object.len() as int,
            object.skip(object.len() - 12),
        ) is Ok),
        layout::read_tail(object) matches Ok(tail) ==> tail.len() >= 12 && tail.len()
            <= object.len() && object.skip(object.len() - tail.len()) == tail,
{
    if let Ok(tail) = layout::read_tail(object) {
        footers_stand_before_the_trailer(object.len() as int, object.skip(object.len() - 12));
        if let Ok(footer) = layout::read_footer(tail) {
            if layout::read_object(object) is Ok && footer.blocks.len() > 0 {
                blocks_are_read_where_they_stand(
                    object,
                    footer.blocks,
                    footer.blocks.len(),
                    0,
                );
            }
        }
    }
}

} // verus!
