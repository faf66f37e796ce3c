//! Fencing: closing an ingester's log so that its current writer can no longer append to it,
//! and claiming the next epoch.
//!
//! The epoch is issued by the log itself. The fencer reads the epoch of the tail object,
//! proposes `tail_epoch + 1`, and claims it by writing a fence object at `tail + 1` with a
//! conditional PUT. The PUT is the linearization point: of any number of concurrent fencers
//! proposing the same epoch, exactly one succeeds; the others read the winner's fence back and
//! give up. No clock and no external store are involved, so the protocol is the same whether the
//! log is reopened by the same node id or taken over by another node.
//!
//! Who *should* fence is decided elsewhere; this module only guarantees that whoever fences last is
//! the only one that can append.

use bytes::Bytes;
use vstd::prelude::*;

use super::format::encode_fence_object;
#[allow(unused_imports)]
use super::{layout, writer};
use super::layout::{BlockModel, HeaderModel};
use super::{StorageError, StorageErrorKind, WalError, WalId, WalResult};
#[allow(unused_imports)]
use crate::buffer;
#[allow(unused_imports)]
use crate::wal;

verus! {

/// A successfully written fence.
#[derive(Clone, Copy, Debug, PartialEq, Eq, Structural)]
pub struct Fence {
    /// Id of the fence object. The log is closed at this id; the new writer starts at
    /// `wal_id + 1`.
    pub wal_id: WalId,
    /// Epoch claimed by the fence, to be used by the new writer.
    pub epoch: u64,
}

/// Where the fencing of a log stands: what has to be done next, or how it ended.
#[derive(Debug)]
pub enum FenceState {
    /// Find the tail of the log behind this id.
    FindTail(WalId),
    /// Read the footer of the tail.
    ReadTail(WalId),
    /// Write the fence object to its slot if nothing is there yet.
    Claim(Fence),
    /// The slot is taken: read the footer of what is there.
    ReadTaken(Fence),
    /// The log is fenced.
    Fenced(Fence),
    /// Fencing failed. [`WalError::Fenced`] if another fencer claimed the slot with an epoch at
    /// least as high as the one proposed here: it now owns the log, and the caller must not.
    Failed(WalError),
}

/// Starts fencing a log.
///
/// `lower_bound` must be an id at or below the current tail such that all ids in
/// `lower_bound + 1..=tail` exist (e.g. the highest id from a listing, or zero for a log that was
/// never garbage collected).
pub fn fence_log(lower_bound: WalId) -> (state: FenceState)
    ensures
        state == FenceState::FindTail(lower_bound),
{
    FenceState::FindTail(lower_bound)
}

/// The fence that is proposed behind a tail of an epoch. An empty log has epoch zero.
pub open spec fn proposed(tail: WalId, tail_epoch: u64) -> Fence {
    Fence { wal_id: WalId((tail.0 + 1) as u64), epoch: (tail_epoch + 1) as u64 }
}

/// What follows the search for the tail.
pub open spec fn after_search(tail: WalResult<WalId>) -> FenceState {
    match tail {
        Err(error) => FenceState::Failed(error),
        Ok(tail) => if tail.0 == 0 {
            FenceState::Claim(proposed(tail, 0))
        } else {
            FenceState::ReadTail(tail)
        },
    }
}

/// What follows the read of the tail's epoch.
pub open spec fn after_tail(tail: WalId, epoch: WalResult<u64>) -> FenceState {
    match epoch {
        Ok(epoch) => FenceState::Claim(proposed(tail, epoch)),
        Err(error) => if error matches WalError::Storage(storage_error) && storage_error.kind
            == StorageErrorKind::NotFound {
            FenceState::FindTail(WalId(0))
        } else {
            FenceState::Failed(error)
        },
    }
}

/// The tail was looked for: read its epoch, or claim the first slot of an empty log.
pub fn tail_found(tail: WalResult<WalId>) -> (state: FenceState)
    ensures
        state == match tail {
            Err(error) => FenceState::Failed(error),
            Ok(tail) => if tail.0 > 0 {
                FenceState::ReadTail(tail)
            } else {
                FenceState::Claim(proposed(tail, 0))
            },
        },
        state == after_search(tail),
{
    match tail {
        Err(error) => FenceState::Failed(error),
        Ok(tail) => if tail.0 > 0 {
            FenceState::ReadTail(tail)
        } else {
            FenceState::Claim(Fence { wal_id: WalId(1), epoch: 1 })
        },
    }
}

/// The footer of the tail was read: claim the slot behind it. A tail that was collected between
/// the search and the read sends the search back to the start of the log.
pub fn tail_read(tail: WalId, epoch: WalResult<u64>) -> (state: FenceState)
    requires
        tail.0 < u64::MAX,
        epoch matches Ok(epoch) ==> epoch < u64::MAX,
    ensures
        state == match epoch {
            Ok(epoch) => FenceState::Claim(proposed(tail, epoch)),
            Err(WalError::Storage(error)) => if error.kind == StorageErrorKind::NotFound {
                FenceState::FindTail(WalId(0))
            } else {
                FenceState::Failed(WalError::Storage(error))
            },
            Err(error) => FenceState::Failed(error),
        },
        state == after_tail(tail, epoch),
{
    match epoch {
        Ok(epoch) => FenceState::Claim(Fence { wal_id: tail.next(), epoch: epoch + 1 }),
        Err(WalError::Storage(error)) => {
            if error.kind == StorageErrorKind::NotFound {
                FenceState::FindTail(WalId(0))
            } else {
                FenceState::Failed(WalError::Storage(error))
            }
        },
        Err(error) => FenceState::Failed(error),
    }
}

/// The object that claims a slot.
pub fn fence_object(ingester_id: &str, generation_id: u64, claim: &Fence) -> (object: Bytes)
    requires
        layout::text_fits(ingester_id@),
    ensures
        layout::read_object(buffer::bytes_content(object)) == Ok::<_, layout::Fault>(
            (
                wal::format::fence_header(
                    ingester_id@,
                    claim.epoch,
                    generation_id,
                    claim.wal_id.0,
                ),
                Seq::<BlockModel>::empty(),
            ),
        ),
        buffer::bytes_content(object) == layout::object_bytes(
            wal::format::fence_header(ingester_id@, claim.epoch, generation_id, claim.wal_id.0),
            seq![],
        ),
{
    encode_fence_object(ingester_id, claim.epoch, generation_id, claim.wal_id)
}

/// What follows the conditional PUT of a claim.
pub open spec fn after_claim(claim: Fence, written: Result<(), StorageError>) -> FenceState {
    match written {
        Ok(_) => FenceState::Fenced(claim),
        Err(error) => if error.kind == StorageErrorKind::AlreadyExists {
            FenceState::ReadTaken(claim)
        } else {
            FenceState::Failed(WalError::Storage(error))
        },
    }
}

/// The conditional PUT of a claim returned.
pub fn claim_written(claim: Fence, written: Result<(), StorageError>) -> (state: FenceState)
    ensures
        state == after_claim(claim, written),
{
    match written {
        Ok(_) => FenceState::Fenced(claim),
        Err(error) => {
            if error.kind == StorageErrorKind::AlreadyExists {
                FenceState::ReadTaken(claim)
            } else {
                FenceState::Failed(WalError::Storage(error))
            }
        },
    }
}

/// What follows a claim whose slot holds an object of the given epoch.
pub open spec fn after_taken(claim: Fence, found_epoch: u64) -> FenceState {
    if found_epoch >= claim.epoch {
        FenceState::Failed(WalError::Fenced)
    } else {
        FenceState::FindTail(claim.wal_id)
    }
}

/// The footer of the object in the claimed slot was read. Somebody wrote it between the search and
/// the PUT: either the writer that is being fenced (lower epoch: it is still alive, move up), or a
/// concurrent fencer that claimed the same or a higher epoch (this one lost).
pub fn taken_read(claim: Fence, found_epoch: WalResult<u64>) -> (state: FenceState)
    ensures
        state == match found_epoch {
            Err(error) => FenceState::Failed(error),
            Ok(found) => after_taken(claim, found),
        },
{
    match found_epoch {
        Err(error) => FenceState::Failed(error),
        Ok(found) => if found >= claim.epoch {
            FenceState::Failed(WalError::Fenced)
        } else {
            FenceState::FindTail(claim.wal_id)
        },
    }
}

// ---- Laws ----

/// The log is fenced only by a PUT that went through: a fencing ends as fenced exactly if the
/// conditional PUT of its claim succeeded, and then with that claim. A slot that is taken is looked
/// into, and any other failure of the storage is the failure of the fencing.
pub proof fn only_a_written_claim_fences(claim: Fence, written: Result<(), StorageError>)
    ensures
        after_claim(claim, written) is Fenced <==> written is Ok,
        after_claim(claim, written) matches FenceState::Fenced(fence) ==> fence == claim,
        after_claim(claim, written) is ReadTaken <==> (written matches Err(error) && error.kind
            == StorageErrorKind::AlreadyExists),
        after_claim(claim, written) matches FenceState::ReadTaken(fence) ==> fence == claim,
        written matches Err(error) && error.kind != StorageErrorKind::AlreadyExists ==> after_claim(
            claim,
            written,
        ) == FenceState::Failed(WalError::Storage(written->Err_0)),
{
}

/// A fence is proposed right behind the tail, with the epoch right behind that of the tail.
pub proof fn fences_are_proposed_right_behind_the_tail(tail: WalId, tail_epoch: u64)
    requires
        tail.0 < u64::MAX,
        tail_epoch < u64::MAX,
    ensures
        proposed(tail, tail_epoch).wal_id.0 - 1 == tail.0,
        proposed(tail, tail_epoch).epoch - 1 == tail_epoch,
{
}

/// A claim is only ever made right behind a tail whose epoch is known: an empty log has no tail to
/// read, and its first slot is claimed with the first epoch. What goes wrong on the way is passed on,
/// except that a tail that is gone is looked for again, from the start of the log.
pub proof fn claims_are_made_behind_a_known_tail(
    tail: WalResult<WalId>,
    found: WalId,
    epoch: WalResult<u64>,
)
    requires
        found.0 < u64::MAX,
        epoch matches Ok(epoch) ==> epoch < u64::MAX,
    ensures
        after_search(tail) matches FenceState::Claim(claim) ==> tail == Ok::<WalId, WalError>(
            WalId(0),
        ) && claim.wal_id.0 == 1 && claim.epoch == 1,
        tail matches Ok(id) && id.0 > 0 ==> after_search(tail) == FenceState::ReadTail(tail->Ok_0),
        tail matches Ok(id) && id.0 == 0 ==> after_search(tail) is Claim,
        tail is Err ==> after_search(tail) == FenceState::Failed(tail->Err_0),
        epoch is Ok <==> after_tail(found, epoch) is Claim,
        after_tail(found, epoch) matches FenceState::Claim(claim) ==> claim.wal_id.0 == found.0 + 1
            && claim.epoch == epoch->Ok_0 + 1,
        epoch matches Err(error) && (error matches WalError::Storage(storage_error)
            && storage_error.kind == StorageErrorKind::NotFound) ==> after_tail(found, epoch)
            == FenceState::FindTail(WalId(0)),
        epoch matches Err(error) && !(error matches WalError::Storage(storage_error)
            && storage_error.kind == StorageErrorKind::NotFound) ==> after_tail(found, epoch)
            == FenceState::Failed(epoch->Err_0),
{
}

/// A claim whose slot is taken never fences the log, whatever stands there: the fencer has lost to an
/// epoch that is not lower than its own, and looks further, behind the slot, past a lower one.
pub proof fn taken_slots_are_decided_by_their_epoch(claim: Fence, found_epoch: u64)
    ensures
        after_taken(claim, found_epoch) == FenceState::Failed(WalError::Fenced) <==> claim.epoch
            <= found_epoch,
        claim.epoch > found_epoch ==> (after_taken(claim, found_epoch) matches FenceState::FindTail(
            lower_bound,
        ) && lower_bound == claim.wal_id),
{
}

/// A claim fills a free slot, and none that is taken: what holds a slot is the first claim on it,
/// whatever came after it.
pub proof fn slots_keep_their_first_claim(claims: Seq<Fence>, n: nat)
    requires
        n <= claims.len(),
    ensures
        n == 0 ==> slot_after(claims, n) is None,
        n > 0 ==> slot_after(claims, n) == Some(claims[0]),
{
    if n > 0 {
        lemma_first_claim_holds(claims, n);
    }
}

/// The epochs of the objects of a log, from the first one on: an object never has an earlier epoch
/// than the object before it, and no object has epoch zero.
pub open spec fn epochs_in_order(epochs: Seq<u64>) -> bool {
    &&& forall|i: int, j: int| 0 <= i <= j < epochs.len() ==> epochs[i] <= epochs[j]
    &&& forall|i: int| 0 <= i < epochs.len() ==> 0 < #[trigger] epochs[i]
}

/// The epoch of the tail of a log, zero for an empty one.
pub open spec fn tail_epoch(epochs: Seq<u64>) -> u64 {
    if epochs.len() == 0 {
        0
    } else {
        epochs.last()
    }
}

/// A claim succeeds only in a slot that is free, so the tail that was read is still the tail: the
/// claimed epoch is higher than every epoch in the log, and the log stays in order.
pub proof fn fences_claim_increasing_epochs(epochs: Seq<u64>)
    requires
        epochs_in_order(epochs),
        tail_epoch(epochs) < u64::MAX,
        epochs.len() < u64::MAX,
    ensures
        ({
            let claim = proposed(WalId(epochs.len() as u64), tail_epoch(epochs));
            &&& claim.wal_id.0 == epochs.len() + 1
            &&& forall|i: int| 0 <= i < epochs.len() ==> #[trigger] epochs[i] < claim.epoch
            &&& epochs_in_order(epochs.push(claim.epoch))
        }),
{
}

/// Of two fencers that read the same tail, the one whose PUT comes second finds the slot taken with
/// its own epoch and is told that it is fenced. So is one that finds a later epoch there.
pub proof fn second_fencer_loses(tail: WalId, tail_epoch: u64, later: Fence)
    requires
        tail_epoch < u64::MAX,
        tail.0 < u64::MAX,
        later.epoch >= proposed(tail, tail_epoch).epoch,
    ensures
        after_taken(proposed(tail, tail_epoch), proposed(tail, tail_epoch).epoch)
            == FenceState::Failed(WalError::Fenced),
        after_taken(proposed(tail, tail_epoch), later.epoch) == FenceState::Failed(
            WalError::Fenced,
        ),
{
}

/// The writer that is being fenced is never taken for a fencer that won: its objects carry the
/// epoch of the tail or an earlier one, so the fencer looks for the tail behind them.
pub proof fn previous_writer_does_not_win(epochs: Seq<u64>, written: u64)
    requires
        epochs_in_order(epochs),
        tail_epoch(epochs) < u64::MAX,
        epochs.len() < u64::MAX,
        written <= tail_epoch(epochs),
    ensures
        ({
            let claim = proposed(WalId(epochs.len() as u64), tail_epoch(epochs));
            after_taken(claim, written) == FenceState::FindTail(claim.wal_id)
        }),
{
}

/// The fence that holds a slot, free at first, once the first `n` claims on it were made: a
/// conditional PUT fills a free slot and leaves one that is taken.
pub open spec fn slot_after(claims: Seq<Fence>, n: nat) -> Option<Fence>
    decreases n,
{
    if n == 0 {
        None
    } else {
        match slot_after(claims, (n - 1) as nat) {
            None => Some(claims[n - 1]),
            Some(fence) => Some(fence),
        }
    }
}

/// How a claim ends, given the claims on the slot that came before it.
pub open spec fn claim_end(claims: Seq<Fence>, i: int) -> FenceState {
    match slot_after(claims, i as nat) {
        None => after_claim(claims[i], Ok(())),
        Some(found) => after_taken(claims[i], found.epoch),
    }
}

/// Of any number of fencers that claim the slot behind the same tail, exactly one succeeds: the first
/// one. All others are told that they are fenced.
pub proof fn exactly_one_fencer_wins(tail: WalId, tail_epoch: u64, claims: Seq<Fence>)
    requires
        claims.len() > 0,
        forall|i: int| 0 <= i < claims.len() ==> #[trigger] claims[i] == proposed(tail, tail_epoch),
    ensures
        claim_end(claims, 0) == FenceState::Fenced(proposed(tail, tail_epoch)),
        forall|i: int|
            0 < i < claims.len() ==> #[trigger] claim_end(claims, i) == FenceState::Failed(
                WalError::Fenced,
            ),
{
    assert forall|i: int| 0 < i < claims.len() implies #[trigger] claim_end(claims, i)
        == FenceState::Failed(WalError::Fenced) by {
        lemma_first_claim_holds(claims, i as nat);
    }
}

proof fn lemma_first_claim_holds(claims: Seq<Fence>, n: nat)
    requires
        0 < n <= claims.len(),
    ensures
        slot_after(claims, n) == Some(claims[0]),
    decreases n,
{
    if n > 1 {
        lemma_first_claim_holds(claims, (n - 1) as nat);
    } else {
        assert(slot_after(claims, 0) is None);
    }
}

/// Once a fence stands in the slot that a writer is about to fill with records, the writer finds out
/// that it is fenced, whoever claimed the fence.
pub proof fn fence_stops_the_previous_writer(
    ours: HeaderModel,
    ingester_id: Seq<char>,
    generation_id: u64,
    fence: Fence,
)
    requires
        !ours.is_fence,
    ensures
        writer::disambiguated(
            ours,
            wal::format::fence_header(ingester_id, fence.epoch, generation_id, fence.wal_id.0),
        ) == Err::<(), WalError>(WalError::Fenced),
{
}

} // verus!
