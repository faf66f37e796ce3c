//! The reference-counted byte buffer of the `bytes` crate, modelled by the bytes it holds.

use bytes::Bytes;
use vstd::prelude::*;

verus! {

/// The buffer type of the `bytes` crate. Nothing is known of its insides: [`bytes_content`] says
/// what a buffer holds.
#[verifier::external_type_specification]
#[verifier::external_body]
pub struct ExBytes(bytes::Bytes);

/// The bytes that a buffer holds.
pub uninterp spec fn bytes_content(buffer: Bytes) -> Seq<u8>;

/// What each buffer of a list holds.
pub open spec fn contents(buffers: Seq<Bytes>) -> Seq<Seq<u8>> {
    Seq::new(buffers.len(), |i: int| bytes_content(buffers[i]))
}

/// `<Bytes as Deref>::deref`: the slice holds exactly the buffer's bytes.
#[verifier::external_body]
pub(crate) fn bytes_as_slice(buffer: &Bytes) -> (slice: &[u8])
    ensures
        slice@ == bytes_content(*buffer),
{
    &buffer[..]
}

/// `<Bytes as From<Vec<u8>>>::from`: the buffer takes over the vector's bytes.
#[verifier::external_body]
pub(crate) fn bytes_from_vec(bytes: Vec<u8>) -> (buffer: Bytes)
    ensures
        bytes_content(buffer) == bytes@,
{
    Bytes::from(bytes)
}

/// `Bytes::slice`: the new buffer holds the bytes from `start` up to, not including, `end`.
/// The call panics on a range that is reversed or ends behind the buffer.
#[verifier::external_body]
pub(crate) fn bytes_slice(buffer: &Bytes, start: usize, end: usize) -> (part: Bytes)
    requires
        start <= end <= bytes_content(*buffer).len(),
    ensures
        bytes_content(part) == bytes_content(*buffer).subrange(start as int, end as int),
{
    buffer.slice(start..end)
}

/// `<Bytes as Clone>::clone`: the clone holds the same bytes.
pub assume_specification[ <Bytes as Clone>::clone ](shared: &Bytes) -> (copy: Bytes)
    ensures
        bytes_content(copy) == bytes_content(*shared),
;

/// The bytes of a list of byte strings, counted together.
pub open spec fn total_len(list: Seq<Seq<u8>>) -> nat
    decreases list.len(),
{
    if list.len() == 0 {
        0
    } else {
        total_len(list.drop_last()) + list.last().len()
    }
}

/// Lengths of two lists put one behind the other add up.
pub proof fn totals_add_up(a: Seq<Seq<u8>>, b: Seq<Seq<u8>>)
    ensures
        total_len(a + b) == total_len(a) + total_len(b),
    decreases b.len(),
{
    if b.len() == 0 {
        assert(a + b =~= a);
    } else {
        totals_add_up(a, b.drop_last());
        assert((a + b).drop_last() =~= a + b.drop_last());
    }
}

/// The bytes of a list of buffers, counted together.
pub fn buffers_len(buffers: &Vec<Bytes>) -> (len: u64)
    requires
        total_len(contents(buffers@)) <= u64::MAX,
    ensures
        len == total_len(contents(buffers@)),
{
    let ghost all = contents(buffers@);
    let mut len: u64 = 0;
    let mut i: usize = 0;
    assert(all.take(0) =~= seq![]);
    while i < buffers.len()
        invariant
            i <= buffers.len(),
            all == contents(buffers@),
            total_len(all) <= u64::MAX,
            len == total_len(all.take(i as int)),
        decreases buffers.len() - i,
    {
        proof {
            assert(all.take(i + 1).drop_last() =~= all.take(i as int));
            totals_add_up(all.take(i + 1), all.skip(i + 1));
            assert(all.take(i + 1) + all.skip(i + 1) =~= all);
        }
        len = len + bytes_as_slice(&buffers[i]).len() as u64;
        i = i + 1;
    }
    assert(all.take(buffers.len() as int) =~= all);
    len
}

/// The byte strings of a list, one behind the other.
pub open spec fn joined(list: Seq<Seq<u8>>) -> Seq<u8>
    decreases list.len(),
{
    if list.len() == 0 {
        seq![]
    } else {
        joined(list.drop_last()) + list.last()
    }
}

/// The lengths of the byte strings of a list, as they are sent.
pub open spec fn sent_lengths(list: Seq<Seq<u8>>) -> Seq<u32> {
    Seq::new(list.len(), |i: int| list[i].len() as u32)
}

/// Byte strings put one behind the other are as long as their lengths add up to.
pub proof fn joined_len(list: Seq<Seq<u8>>)
    ensures
        joined(list).len() == total_len(list),
    decreases list.len(),
{
    if list.len() > 0 {
        joined_len(list.drop_last());
    }
}

/// Adds a byte string to a batch.
pub(crate) fn add_to_batch(
    joint: &mut Vec<u8>,
    lengths: &mut Vec<u32>,
    buffer: &Bytes,
    Ghost(list): Ghost<Seq<Seq<u8>>>,
)
    requires
        old(joint)@ == joined(list),
        old(lengths)@ == sent_lengths(list),
    ensures
        final(joint)@ == joined(list.push(bytes_content(*buffer))),
        final(lengths)@ == sent_lengths(list.push(bytes_content(*buffer))),
{
    let bytes = bytes_as_slice(buffer);
    joint.extend_from_slice(bytes);
    lengths.push(bytes.len() as u32);
    proof {
        let longer = list.push(bytes_content(*buffer));
        assert(longer.drop_last() =~= list);
        assert(joint@ =~= joined(longer));
        assert(lengths@ =~= sent_lengths(longer));
    }
}

/// The contents of buffers are theirs, one for one.
pub proof fn contents_are_those_of_the_buffers(buffers: Seq<Bytes>, i: int)
    requires
        0 <= i < buffers.len(),
    ensures
        contents(buffers).len() == buffers.len(),
        contents(buffers)[i] == bytes_content(buffers[i]),
{
}

/// The length of a list grows by that of what is added to it, and that of an empty list is zero.
pub proof fn lengths_add_up(list: Seq<Seq<u8>>, added: Seq<u8>)
    ensures
        total_len(Seq::empty()) == 0,
        total_len(list.push(added)) == total_len(list) + added.len(),
{
    assert(list.push(added).drop_last() =~= list);
}

/// What was joined is found again: behind the bytes of those before it, with its own length.
pub proof fn joined_parts_are_found_again(list: Seq<Seq<u8>>, i: int)
    requires
        0 <= i < list.len(),
    ensures
        total_len(list.take(i)) + list[i].len() <= joined(list).len(),
        joined(list).subrange(
            total_len(list.take(i)) as int,
            total_len(list.take(i)) + list[i].len() as int,
        ) == list[i],
    decreases list.len(),
{
    let rest = list.drop_last();
    joined_len(list);
    joined_len(rest);
    if i < rest.len() {
        joined_parts_are_found_again(rest, i);
        assert(rest.take(i) =~= list.take(i));
        assert(joined(list).subrange(
            total_len(list.take(i)) as int,
            total_len(list.take(i)) + list[i].len() as int,
        ) =~= joined(rest).subrange(
            total_len(list.take(i)) as int,
            total_len(list.take(i)) + list[i].len() as int,
        ));
    } else {
        assert(list.take(i) =~= rest);
        assert(joined(list).subrange(
            total_len(rest) as int,
            total_len(rest) + list[i].len() as int,
        ) =~= list[i]);
    }
}

/// Lengths are sent as they are, as far as they can be.
pub proof fn lengths_are_sent_as_they_are(list: Seq<Seq<u8>>, i: int)
    requires
        0 <= i < list.len(),
        list[i].len() <= u32::MAX,
    ensures
        sent_lengths(list).len() == list.len(),
        sent_lengths(list)[i] == list[i].len(),
{
}

} // verus!
