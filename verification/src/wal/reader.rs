//! Reading one ingester's log: tail discovery, footers and per-queue replay.
//!
//! What has to be asked of the storage, and what its answers mean.

use std::ops::Range;

use bytes::Bytes;
use vstd::prelude::*;
use vstd::slice::*;

use super::format::{decode_footer, footer_range, WalBlockMeta, WalFooter, TRAILER_LEN};
#[allow(unused_imports)]
use super::layout;
use super::layout::MetaModel;
use super::{
    parse_wal_object_path, wal_object_path, StorageError, StorageErrorKind, WalError, WalId,
    WalResult,
};
#[allow(unused_imports)]
use crate::buffer;
use crate::text::{decimal_string, same_text};
#[allow(unused_imports)]
use crate::{text, wal};

verus! {

/// Bytes speculatively read from the end of an object to get its footer in one request.
/// Footers are ~50 bytes per block, so this covers objects with a few hundred blocks.
pub const SPECULATIVE_TAIL_LEN: u64 = 16384;

/// A listed WAL object.
#[derive(Clone, Copy, Debug, PartialEq, Eq, Structural)]
pub struct WalObjectRef {
    pub wal_id: WalId,
    pub num_bytes: u64,
}

/// A replayed record.
#[derive(Clone, Debug, PartialEq, Eq)]
pub struct WalRecord {
    pub queue_id: String,
    pub position: u64,
    pub record: Bytes,
}

// ---- Listing ----

/// A listed path with the size of the object.
pub struct ListedPath {
    pub path: String,
    pub num_bytes: u64,
}

/// The log objects among the first `n` listed paths.
pub open spec fn parsed_listing(listed: Seq<ListedPath>, n: nat) -> Seq<WalObjectRef>
    decreases n,
{
    if n == 0 {
        seq![]
    } else {
        let before = parsed_listing(listed, (n - 1) as nat);
        let last = listed[n - 1];
        match wal::object_id(last.path@) {
            Some(id) => before.push(WalObjectRef { wal_id: WalId(id), num_bytes: last.num_bytes }),
            None => before,
        }
    }
}

/// The objects of a list that carry an id, in the order of the list.
pub open spec fn with_id(objects: Seq<WalObjectRef>, id: u64) -> Seq<WalObjectRef> {
    objects.filter(|object: WalObjectRef| object.wal_id.0 == id)
}

/// Whether a list is in the order of its ids.
pub open spec fn in_id_order(objects: Seq<WalObjectRef>) -> bool {
    forall|i: int, j: int|
        0 <= i <= j < objects.len() ==> objects[i].wal_id.0 <= objects[j].wal_id.0
}

/// `<[T]>::sort_by_key` with the id as the key: a stable sort, so the result is in the order of the
/// ids, and objects with the same id keep their order.
#[verifier::external_body]
fn sort_by_wal_id(objects: &mut Vec<WalObjectRef>)
    ensures
        final(objects)@.len() == old(objects)@.len(),
        in_id_order(final(objects)@),
        forall|id: u64| #[trigger] with_id(final(objects)@, id) == with_id(old(objects)@, id),
{
    objects.sort_by_key(|object| object.wal_id.0);
}

/// The objects of a log, sorted by id, out of a listing of its directory.
pub fn list_objects(listed: &Vec<ListedPath>) -> (objects: Vec<WalObjectRef>)
    ensures
        in_id_order(objects@),
        objects@.len() == parsed_listing(listed@, listed@.len()).len(),
        forall|id: u64| #[trigger]
            with_id(objects@, id) == with_id(parsed_listing(listed@, listed@.len()), id),
{
    let mut objects: Vec<WalObjectRef> = Vec::new();
    let mut i: usize = 0;
    while i < listed.len()
        invariant
            i <= listed.len(),
            objects@ == parsed_listing(listed@, i as nat),
        decreases listed.len() - i,
    {
        match parse_wal_object_path(listed[i].path.as_str()) {
            Some(wal_id) => {
                objects.push(WalObjectRef { wal_id, num_bytes: listed[i].num_bytes });
            },
            None => {},
        }
        i = i + 1;
    }
    sort_by_wal_id(&mut objects);
    objects
}

// ---- Tail search ----

/// Two to the power of `exponent`.
pub open spec fn power_of_two(exponent: nat) -> nat
    decreases exponent,
{
    if exponent == 0 {
        1
    } else {
        2 * power_of_two((exponent - 1) as nat)
    }
}

/// How many ids are asked for at a time while the tail is being bracketed.
pub const ROUND_SIZE: u32 = 8;

/// How many powers of two are tried before the search gives up.
pub const MAX_EXP: u32 = 48;

/// Where a search for the tail of a log stands. Ids are counted from the start of the search.
#[derive(Clone, Copy, Debug, PartialEq, Eq, Structural)]
pub enum TailPhase {
    /// Every id at a power of two below `2^exponent` exists; `offset` is `2^exponent`.
    Doubling { exponent: u32, offset: u64 },
    /// The id before `left` exists, or is the start; the id at `right` does not.
    Halving { left: u64, right: u64 },
}

/// What the search needs next.
#[derive(Clone, Debug, PartialEq, Eq)]
pub enum TailStep {
    /// Ask whether these objects exist.
    Probe(Vec<WalId>),
    /// The highest existing id.
    Found(WalId),
    /// The tail lies too far out.
    GiveUp(WalError),
}

/// Finds the highest existing id in a log, or the start if no object above it exists.
///
/// The start must be a known lower bound such that all ids from behind it up to the tail exist
/// (fencing keeps live ids contiguous, and collection only deletes below the replay boundary).
/// Asks only for existence: a parallel exponential probe to bracket the tail, then a binary search,
/// which takes a number of requests logarithmic in the length of the gap.
#[derive(Clone, Copy, Debug, PartialEq, Eq, Structural)]
pub struct TailSearch {
    pub base: u64,
    pub phase: TailPhase,
}

impl TailSearch {
    /// What holds of every search.
    pub open spec fn well_formed(self) -> bool {
        &&& self.base + power_of_two(47) <= u64::MAX
        &&& match self.phase {
            TailPhase::Doubling { exponent, offset } => exponent <= MAX_EXP && exponent % 8 == 0
                && offset == power_of_two(exponent as nat),
            TailPhase::Halving { left, right } => 1 <= left <= right <= power_of_two(47),
        }
    }

    /// The highest id, once it is found.
    pub open spec fn found(self) -> Option<u64> {
        match self.phase {
            TailPhase::Halving { left, right } => if left >= right {
                Some((self.base + left - 1) as u64)
            } else {
                None
            },
            _ => None,
        }
    }

    /// Whether the search has tried every power of two.
    pub open spec fn gives_up(self) -> bool {
        self.phase matches TailPhase::Doubling { exponent, .. } && exponent >= MAX_EXP
    }

    /// The ids to ask for: the next powers of two, then the middle of the bracket.
    pub open spec fn probes(self) -> Seq<WalId> {
        match self.phase {
            TailPhase::Doubling { exponent, .. } => if exponent >= MAX_EXP {
                seq![]
            } else {
                Seq::new(
                    8,
                    |i: int| WalId((self.base + power_of_two((exponent + i) as nat)) as u64),
                )
            },
            TailPhase::Halving { left, right } => if left >= right {
                seq![]
            } else {
                seq![WalId((self.base + left + (right - left) / 2) as u64)]
            },
        }
    }

    /// The search once the first `n` probes are known to exist and the next one is known not to,
    /// or all of them exist.
    pub open spec fn after(self, n: int) -> TailSearch {
        match self.phase {
            TailPhase::Doubling { exponent, .. } => if n >= 8 {
                TailSearch {
                    base: self.base,
                    phase: TailPhase::Doubling {
                        exponent: (exponent + 8) as u32,
                        offset: power_of_two((exponent + 8) as nat) as u64,
                    },
                }
            } else {
                TailSearch {
                    base: self.base,
                    phase: TailPhase::Halving {
                        left: (offset_below((exponent + n) as nat) + 1) as u64,
                        right: power_of_two((exponent + n) as nat) as u64,
                    },
                }
            },
            TailPhase::Halving { left, right } => {
                let middle = left + (right - left) / 2;
                if n >= 1 {
                    TailSearch {
                        base: self.base,
                        phase: TailPhase::Halving { left: (middle + 1) as u64, right },
                    }
                } else {
                    TailSearch {
                        base: self.base,
                        phase: TailPhase::Halving { left, right: middle as u64 },
                    }
                }
            },
        }
    }

    /// Whether the search can still end at a tail that lies `tail` ids behind its start.
    pub open spec fn consistent_with(self, tail: int) -> bool {
        match self.phase {
            TailPhase::Doubling { exponent, .. } => offset_below(exponent as nat) <= tail,
            TailPhase::Halving { left, right } => left - 1 <= tail < right,
        }
    }

    /// Starts a search behind an id.
    pub fn new(start_after: WalId) -> (search: TailSearch)
        requires
            start_after.0 + power_of_two(47) <= u64::MAX,
        ensures
            search.well_formed(),
            search.base == start_after.0,
            forall|tail: int| 0 <= tail ==> #[trigger] search.consistent_with(tail),
    {
        TailSearch {
            base: start_after.0,
            phase: TailPhase::Doubling { exponent: 0, offset: 1 },
        }
    }

    /// What the search needs next.
    pub fn next_step(&self, ingester_id: &str) -> (step: TailStep)
        requires
            self.well_formed(),
        ensures
            match step {
                TailStep::Probe(ids) => ids@ == self.probes() && !self.gives_up()
                    && self.found() is None,
                TailStep::Found(id) => self.found() == Some(id.0),
                TailStep::GiveUp(error) => self.gives_up() && layout::reports(
                    error,
                    layout::Fault::Says(
                        "could not find the tail of WAL `"@ + ingester_id@
                            + "` after probing 2^48 ids"@,
                    ),
                ),
            },
    {
        match self.phase {
            TailPhase::Doubling { exponent, offset } => {
                if exponent >= MAX_EXP {
                    let mut message = "could not find the tail of WAL `".to_owned();
                    message.append(ingester_id);
                    message.append("` after probing 2^48 ids");
                    return TailStep::GiveUp(WalError::Corrupted(message));
                }
                let mut ids: Vec<WalId> = Vec::new();
                let mut next: u64 = offset;
                let mut i: u32 = 0;
                while i < ROUND_SIZE
                    invariant
                        i <= 8,
                        exponent + 8 <= 48,
                        self.base + power_of_two(47) <= u64::MAX,
                        next == power_of_two((exponent + i) as nat),
                        ids@ =~= Seq::new(
                            i as nat,
                            |j: int| WalId((self.base + power_of_two((exponent + j) as nat)) as u64),
                        ),
                    decreases 8 - i,
                {
                    proof {
                        lemma_power_grows((exponent + i) as nat, 47);
                        lemma_power_47();
                    }
                    ids.push(WalId(self.base + next));
                    next = next * 2;
                    i = i + 1;
                }
                TailStep::Probe(ids)
            },
            TailPhase::Halving { left, right } => {
                if left >= right {
                    TailStep::Found(WalId(self.base + (left - 1)))
                } else {
                    let middle: u64 = left + (right - left) / 2;
                    let mut ids: Vec<WalId> = Vec::new();
                    ids.push(WalId(self.base + middle));
                    assert(ids@ =~= self.probes());
                    TailStep::Probe(ids)
                }
            },
        }
    }

    /// Takes the answers to the probes of a round, in order. An error counts only when no earlier
    /// probe of the round was answered with "missing".
    pub fn observe(&mut self, answers: Vec<WalResult<bool>>) -> (observed: WalResult<()>)
        requires
            old(self).well_formed(),
            !old(self).gives_up(),
            old(self).found() is None,
            answers@.len() == old(self).probes().len(),
        ensures
            match observed {
                Ok(_) => final(self).well_formed() && *final(self) == old(self).after(
                    leading_hits(answers@) as int,
                ) && (leading_hits(answers@) < answers@.len() ==> answers@[leading_hits(
                    answers@,
                ) as int] is Ok),
                Err(error) => leading_hits(answers@) < answers@.len() && answers@[leading_hits(
                    answers@,
                ) as int] == Err::<bool, WalError>(error) && *final(self) == *old(self),
            },
    {
        let mut hits: usize = 0;
        let mut answers = answers;
        let ghost all = answers@;
        while hits < answers.len() && matches!(answers[hits], Ok(true))
            invariant
                hits <= answers@.len(),
                answers@ == all,
                forall|i: int| 0 <= i < hits ==> all[i] == Ok::<bool, WalError>(true),
            decreases answers@.len() - hits,
        {
            hits = hits + 1;
        }
        proof {
            lemma_leading_hits(all, hits as int);
        }
        if hits < answers.len() {
            match answers.swap_remove(hits) {
                Ok(_) => {},
                Err(error) => {
                    return Err(error);
                },
            }
        }
        let base: u64 = self.base;
        match self.phase {
            TailPhase::Doubling { exponent, offset } => {
                let mut below: u64 = offset / 2;
                let mut next: u64 = offset;
                let mut i: usize = 0;
                assert(below == offset_below(exponent as nat));
                while i < hits
                    invariant
                        i <= hits <= 8,
                        exponent + 8 <= 48,
                        next == power_of_two((exponent + i) as nat),
                        below == offset_below((exponent + i) as nat),
                    decreases hits - i,
                {
                    proof {
                        lemma_power_grows((exponent + i) as nat, 47);
                        lemma_power_47();
                    }
                    below = next;
                    next = next * 2;
                    i = i + 1;
                }
                if hits == 8 {
                    self.phase = TailPhase::Doubling { exponent: exponent + 8, offset: next };
                } else {
                    proof {
                        lemma_power_grows((exponent + hits) as nat, 47);
                        lemma_below_is_less((exponent + hits) as nat);
                    }
                    self.phase = TailPhase::Halving { left: below + 1, right: next };
                }
            },
            TailPhase::Halving { left, right } => {
                let middle: u64 = left + (right - left) / 2;
                if hits == 1 {
                    self.phase = TailPhase::Halving { left: middle + 1, right };
                } else {
                    self.phase = TailPhase::Halving { left, right: middle };
                }
            },
        }
        Ok(())
    }
}

/// The power of two before an exponent, or zero for the first one.
pub open spec fn offset_below(exponent: nat) -> nat {
    if exponent == 0 {
        0
    } else {
        power_of_two((exponent - 1) as nat)
    }
}

/// How many answers in front say that the object exists.
pub open spec fn leading_hits(answers: Seq<WalResult<bool>>) -> nat
    decreases answers.len(),
{
    if answers.len() > 0 && answers[0] == Ok::<bool, WalError>(true) {
        1 + leading_hits(answers.skip(1))
    } else {
        0
    }
}

proof fn lemma_leading_hits(answers: Seq<WalResult<bool>>, n: int)
    requires
        0 <= n <= answers.len(),
        forall|i: int| 0 <= i < n ==> answers[i] == Ok::<bool, WalError>(true),
        n < answers.len() ==> answers[n] != Ok::<bool, WalError>(true),
    ensures
        leading_hits(answers) == n,
    decreases n,
{
    if n > 0 {
        lemma_leading_hits(answers.skip(1), n - 1);
    }
}

proof fn lemma_power_grows(a: nat, b: nat)
    requires
        a <= b,
    ensures
        1 <= power_of_two(a) <= power_of_two(b),
    decreases b,
{
    if b > 0 {
        if a < b {
            lemma_power_grows(a, (b - 1) as nat);
        } else {
            lemma_power_grows((a - 1) as nat, (b - 1) as nat);
        }
    }
}

proof fn lemma_power_47()
    ensures
        power_of_two(47) == 0x8000_0000_0000,
{
    reveal_with_fuel(power_of_two, 48);
}

proof fn lemma_below_is_less(exponent: nat)
    ensures
        offset_below(exponent) < power_of_two(exponent),
{
    if exponent > 0 {
        lemma_power_grows(0, (exponent - 1) as nat);
    }
}

/// The answers that a log whose tail lies `tail` ids behind the start gives to the probes of a
/// round.
pub open spec fn truthful(search: TailSearch, tail: int, answers: Seq<WalResult<bool>>) -> bool {
    &&& answers.len() == search.probes().len()
    &&& forall|i: int|
        0 <= i < answers.len() ==> #[trigger] answers[i] == Ok::<bool, WalError>(
            search.probes()[i].0 <= search.base + tail,
        )
}

/// Truthful answers keep the search on the track of the tail, and every round uses up some of the
/// requests that are left.
pub proof fn search_keeps_track_of_the_tail(
    search: TailSearch,
    tail: int,
    answers: Seq<WalResult<bool>>,
)
    requires
        search.well_formed(),
        search.consistent_with(tail),
        search.found() is None,
        !search.gives_up(),
        truthful(search, tail, answers),
    ensures
        search.after(leading_hits(answers) as int).consistent_with(tail),
        requests_left(search.after(leading_hits(answers) as int), tail) + search.probes().len()
            <= requests_left(search, tail),
        search.probes().len() > 0,
{
    let hits = leading_hits(answers) as int;
    lemma_hits_are_hits(answers);
    match search.phase {
        TailPhase::Doubling { exponent, .. } => {
            lemma_power_47();
            assert(search.probes().len() == 8);
            if hits > 0 {
                let at = (exponent + hits - 1) as nat;
                lemma_power_grows(at, 47);
                assert(answers[hits - 1] == Ok::<bool, WalError>(true));
                assert(search.probes()[hits - 1].0 == search.base + power_of_two(at));
            }
            if hits < 8 {
                let at = (exponent + hits) as nat;
                lemma_power_grows(at, 47);
                assert(answers[hits] != Ok::<bool, WalError>(true));
                assert(search.probes()[hits].0 == search.base + power_of_two(at));
                lemma_below_is_less(at);
                lemma_bits_of_bracket(at, tail);
            }
        },
        TailPhase::Halving { left, right } => {
            let middle = left + (right - left) / 2;
            assert(search.probes()[0].0 == search.base + middle);
            assert(answers[0] == Ok::<bool, WalError>(search.probes()[0].0 <= search.base + tail));
            lemma_bits_halve(
                if hits >= 1 {
                    right - (middle + 1)
                } else {
                    middle - left
                },
                right - left,
            );
        },
    }
}

/// How many binary digits a number has.
pub open spec fn bits(n: int) -> nat
    decreases n,
{
    if n <= 0 {
        0
    } else {
        1 + bits(n / 2)
    }
}

/// A bound on the requests that a search for a tail still makes: two for each binary digit of the
/// length of the gap, and a round.
pub open spec fn requests_left(search: TailSearch, tail: int) -> int {
    match search.phase {
        TailPhase::Doubling { exponent, .. } => 2 * bits(tail) + 8 - exponent,
        TailPhase::Halving { left, right } => bits(right - left) as int,
    }
}

proof fn lemma_bits_halve(n: int, whole: int)
    requires
        0 <= n <= whole / 2,
        whole > 0,
    ensures
        bits(n) < bits(whole),
{
    lemma_bits_grow(n, whole / 2);
}

proof fn lemma_bits_grow(a: int, b: int)
    requires
        a <= b,
    ensures
        bits(a) <= bits(b),
    decreases b,
{
    if a > 0 {
        lemma_bits_grow(a / 2, b / 2);
    }
}

/// A number has `exponent` binary digits exactly if it lies below that power of two, and not below
/// the one before.
pub proof fn bits_count_powers(n: int, exponent: nat)
    requires
        offset_below(exponent) <= n < power_of_two(exponent),
    ensures
        bits(n) == exponent,
    decreases exponent,
{
    if exponent > 0 {
        lemma_power_grows(0, (exponent - 1) as nat);
        if exponent > 1 {
            bits_count_powers(n / 2, (exponent - 1) as nat);
        } else {
            assert(n == 1);
            assert(bits(0) == 0);
            assert(bits(n / 2) == 0);
        }
    }
}

proof fn lemma_bits_below(n: int, exponent: nat)
    requires
        n < power_of_two(exponent),
    ensures
        bits(n) <= exponent,
    decreases exponent,
{
    if n > 0 && exponent > 0 {
        lemma_bits_below(n / 2, (exponent - 1) as nat);
    }
}

proof fn lemma_bits_of_bracket(exponent: nat, tail: int)
    requires
        offset_below(exponent) <= tail < power_of_two(exponent),
    ensures
        bits(tail) == exponent,
        bits(power_of_two(exponent) - offset_below(exponent) - 1) <= exponent,
{
    bits_count_powers(tail, exponent);
    lemma_bits_below(power_of_two(exponent) - offset_below(exponent) - 1, exponent);
}

proof fn lemma_bits_at_least(n: int, exponent: nat)
    requires
        offset_below(exponent) <= n,
    ensures
        bits(n) >= exponent,
    decreases exponent,
{
    if exponent > 0 {
        lemma_power_grows(0, (exponent - 1) as nat);
        if exponent > 1 {
            lemma_bits_at_least(n / 2, (exponent - 1) as nat);
        }
    }
}

/// Whether a round of truthful answers leads from one search to the next.
pub open spec fn answered(search: TailSearch, tail: int, next: TailSearch) -> bool {
    &&& search.found() is None
    &&& !search.gives_up()
    &&& exists|answers: Seq<WalResult<bool>>| #[trigger]
        truthful(search, tail, answers) && next == search.after(leading_hits(answers) as int)
}

/// The requests of the first `n` rounds of a search, counted together.
pub open spec fn request_count(run: Seq<TailSearch>, n: nat) -> nat
    decreases n,
{
    if n == 0 {
        0
    } else {
        request_count(run, (n - 1) as nat) + run[n - 1].probes().len()
    }
}

/// The number of requests of a search is logarithmic in the length of the gap: at most two for each
/// binary digit of it, and a round of eight. The search keeps track of the tail all along.
pub proof fn search_takes_logarithmically_many_requests(run: Seq<TailSearch>, tail: int)
    requires
        0 <= tail,
        run.len() > 0,
        run[0].phase == (TailPhase::Doubling { exponent: 0, offset: 1 }),
        forall|i: int| 0 <= i < run.len() ==> (#[trigger] run[i]).well_formed(),
        forall|i: int|
            0 < i < run.len() ==> answered(#[trigger] run[i - 1], tail, run[i]),
    ensures
        run.last().consistent_with(tail),
        request_count(run, (run.len() - 1) as nat) <= 2 * bits(tail) + 8,
{
    lemma_requests_of_a_run(run, tail, (run.len() - 1) as nat);
    match run.last().phase {
        TailPhase::Doubling { exponent, .. } => {
            lemma_bits_at_least(tail, exponent as nat);
        },
        TailPhase::Halving { .. } => {},
    }
}

proof fn lemma_requests_of_a_run(run: Seq<TailSearch>, tail: int, n: nat)
    requires
        0 <= tail,
        n < run.len(),
        run[0].phase == (TailPhase::Doubling { exponent: 0, offset: 1 }),
        forall|i: int| 0 <= i < run.len() ==> (#[trigger] run[i]).well_formed(),
        forall|i: int|
            0 < i < run.len() ==> answered(#[trigger] run[i - 1], tail, run[i]),
    ensures
        run[n as int].consistent_with(tail),
        request_count(run, n) + requests_left(run[n as int], tail) <= 2 * bits(tail) + 8,
    decreases n,
{
    if n > 0 {
        lemma_requests_of_a_run(run, tail, (n - 1) as nat);
        let search = run[n - 1];
        assert(answered(search, tail, run[n as int]));
        let answers = choose|answers: Seq<WalResult<bool>>| #[trigger]
            truthful(search, tail, answers) && run[n as int] == search.after(
                leading_hits(answers) as int,
            );
        search_keeps_track_of_the_tail(search, tail, answers);
    }
}

proof fn lemma_hits_are_hits(answers: Seq<WalResult<bool>>)
    ensures
        leading_hits(answers) <= answers.len(),
        forall|i: int|
            0 <= i < leading_hits(answers) ==> #[trigger] answers[i] == Ok::<bool, WalError>(true),
        leading_hits(answers) < answers.len() ==> answers[leading_hits(answers) as int] != Ok::<
            bool,
            WalError,
        >(true),
    decreases answers.len(),
{
    if answers.len() > 0 && answers[0] == Ok::<bool, WalError>(true) {
        lemma_hits_are_hits(answers.skip(1));
        assert forall|i: int| 0 <= i < leading_hits(answers) implies #[trigger] answers[i] == Ok::<
            bool,
            WalError,
        >(true) by {
            if i > 0 {
                assert(answers[i] == answers.skip(1)[i - 1]);
            }
        }
    }
}

/// A search that kept track of the tail finds it, and gives up only on a tail that lies at least
/// `2^47` ids out.
pub proof fn search_finds_the_tail(search: TailSearch, tail: int)
    requires
        search.well_formed(),
        search.consistent_with(tail),
    ensures
        search.found() matches Some(id) ==> id == search.base + tail,
        search.gives_up() ==> tail >= power_of_two(47),
{
}

// ---- Footers ----

/// The range of an object to read first for its footer.
pub open spec fn first_footer_read(num_bytes: int) -> (int, int) {
    if num_bytes < SPECULATIVE_TAIL_LEN {
        (0, num_bytes)
    } else {
        (num_bytes - SPECULATIVE_TAIL_LEN, num_bytes)
    }
}

/// The first read that the footer of an object of `num_bytes` bytes takes.
pub fn footer_tail_range(ingester_id: &str, wal_id: WalId, num_bytes: u64) -> (range: WalResult<
    Range<usize>,
>)
    requires
        num_bytes <= usize::MAX,
    ensures
        match range {
            Ok(range) => num_bytes >= TRAILER_LEN && (range.start as int, range.end as int)
                == first_footer_read(num_bytes as int),
            Err(error) => num_bytes < TRAILER_LEN && layout::reports(
                error,
                layout::Fault::Says(
                    "WAL object `"@ + wal::object_path(ingester_id@, wal_id.0) + "` is too short ("@
                        + text::decimal(num_bytes as nat) + " bytes)"@,
                ),
            ),
        },
{
    if num_bytes < TRAILER_LEN as u64 {
        let mut message = "WAL object `".to_owned();
        message.append(wal_object_path(ingester_id, wal_id).as_str());
        message.append("` is too short (");
        message.append(decimal_string(num_bytes).as_str());
        message.append(" bytes)");
        return Err(WalError::Corrupted(message));
    }
    let tail_len: u64 = if num_bytes < SPECULATIVE_TAIL_LEN {
        num_bytes
    } else {
        SPECULATIVE_TAIL_LEN
    };
    Ok((num_bytes - tail_len) as usize..num_bytes as usize)
}

/// What the first read gave.
#[derive(Debug, PartialEq, Eq)]
pub enum FooterStep {
    /// The footer.
    Footer(WalFooter),
    /// The footer is larger than the first read: read this range, footer and trailer.
    Fetch(Range<usize>),
}

/// Reads the footer out of the tail of an object of `num_bytes` bytes, or says which range holds
/// it.
pub fn footer_from_tail(num_bytes: u64, tail: &[u8]) -> (step: WalResult<FooterStep>)
    requires
        TRAILER_LEN <= tail@.len() <= num_bytes <= usize::MAX,
    ensures
        match layout::read_footer_range(num_bytes as int, tail@.skip(tail@.len() - 12)) {
            Err(fault) => step matches Err(error) && layout::reports(error, fault),
            Ok((start, end)) => if end - start + 12 <= tail@.len() {
                match step {
                    Ok(FooterStep::Footer(footer)) => layout::read_footer(
                        tail@.skip(tail@.len() - (end - start) - 12),
                    ) == Ok::<_, layout::Fault>(footer@),
                    Ok(FooterStep::Fetch(_)) => false,
                    Err(error) => layout::read_footer(
                        tail@.skip(tail@.len() - (end - start) - 12),
                    ) matches Err(fault) && layout::reports(error, fault),
                }
            } else {
                step matches Ok(FooterStep::Fetch(range)) && range.start == start && range.end
                    == num_bytes
            },
        },
{
    let trailer = slice_subrange(tail, tail.len() - TRAILER_LEN, tail.len());
    assert(trailer@ =~= tail@.skip(tail@.len() - 12));
    let range = footer_range(num_bytes, trailer)?;
    let footer_len: usize = range.end - range.start;
    if footer_len <= tail.len() - TRAILER_LEN {
        let bytes = slice_subrange(tail, tail.len() - TRAILER_LEN - footer_len, tail.len());
        assert(bytes@ =~= tail@.skip(tail@.len() - footer_len - 12));
        let footer = decode_footer(bytes)?;
        return Ok(FooterStep::Footer(footer));
    }
    Ok(FooterStep::Fetch(range.start..num_bytes as usize))
}

/// How much of an object is read makes no difference to its footer, as long as the read ends with
/// the footer and the trailer.
pub proof fn footer_does_not_depend_on_the_read(object: Seq<u8>, start: int)
    requires
        object.len() >= 12,
        0 <= start <= object.len() - 12 - layout::trailer_footer_len(
            object.skip(object.len() - 12),
        ),
    ensures
        layout::read_footer(object.skip(start)) == layout::read_footer(object),
{
    let part = object.skip(start);
    let trailer = object.skip(object.len() - 12);
    let len = layout::trailer_footer_len(trailer) as int;
    assert(part.skip(part.len() - 12) =~= trailer);
    let whole_body = object.take(object.len() - 12);
    let part_body = part.take(part.len() - 12);
    assert(part_body.skip(part_body.len() - len) =~= whole_body.skip(whole_body.len() - len));
}

// ---- Replay ----

/// Whether a block holds records of a queue at or after a position.
pub open spec fn holds(meta: MetaModel, queue_id: Seq<char>, from: u64) -> bool {
    meta.queue_id == queue_id && meta.num_records > 0 && meta.last() >= from
}

/// Whether a block has to be read to replay a queue from a position.
pub fn replays_block(meta: &WalBlockMeta, queue_id: &str, from_position_inclusive: u64) -> (replays:
    bool)
    requires
        meta@.positions_fit(),
    ensures
        replays == holds(meta@, queue_id@, from_position_inclusive),
{
    same_text(meta.queue_id.as_str(), queue_id) && !meta.is_queue_marker() && meta.last_position()
        >= from_position_inclusive
}

/// What a replayed record says.
pub struct RecordModel {
    pub queue_id: Seq<char>,
    pub position: int,
    pub record: Seq<u8>,
}

/// What each replayed record of a list says.
pub open spec fn record_models(records: Seq<WalRecord>) -> Seq<RecordModel> {
    Seq::new(
        records.len(),
        |i: int|
            RecordModel {
                queue_id: records[i].queue_id@,
                position: records[i].position as int,
                record: buffer::bytes_content(records[i].record),
            },
    )
}

/// The records of a block at or after a position, among its first `n`.
pub open spec fn records_from(
    queue_id: Seq<char>,
    first: int,
    records: Seq<Seq<u8>>,
    from: int,
    n: nat,
) -> Seq<RecordModel>
    decreases n,
{
    if n == 0 {
        seq![]
    } else {
        let before = records_from(queue_id, first, records, from, (n - 1) as nat);
        let position = first + n - 1;
        if position >= from {
            before.push(RecordModel { queue_id, position, record: records[n - 1] })
        } else {
            before
        }
    }
}

/// Adds the records of a block at or after a position to what is replayed so far, behind it.
pub fn replay_block(
    replayed: &mut Vec<WalRecord>,
    queue_id: &str,
    first_position: u64,
    records: &Vec<Bytes>,
    from_position_inclusive: u64,
)
    requires
        first_position + records@.len() <= u64::MAX,
    ensures
        record_models(final(replayed)@) == record_models(old(replayed)@) + records_from(
            queue_id@,
            first_position as int,
            buffer::contents(records@),
            from_position_inclusive as int,
            records@.len(),
        ),
{
    let ghost before = record_models(replayed@);
    let ghost all = buffer::contents(records@);
    let mut i: usize = 0;
    assert(before + Seq::<RecordModel>::empty() =~= before);
    while i < records.len()
        invariant
            i <= records.len(),
            first_position + records@.len() <= u64::MAX,
            all == buffer::contents(records@),
            record_models(replayed@) == before + records_from(
                queue_id@,
                first_position as int,
                all,
                from_position_inclusive as int,
                i as nat,
            ),
        decreases records.len() - i,
    {
        let position: u64 = first_position + i as u64;
        let ghost so_far = record_models(replayed@);
        let ghost done = records_from(
            queue_id@,
            first_position as int,
            all,
            from_position_inclusive as int,
            i as nat,
        );
        if position >= from_position_inclusive {
            let record = WalRecord {
                queue_id: queue_id.to_owned(),
                position,
                record: records[i].clone(),
            };
            let ghost model = RecordModel {
                queue_id: queue_id@,
                position: position as int,
                record: all[i as int],
            };
            replayed.push(record);
            assert(record_models(replayed@) =~= so_far.push(model));
            assert(so_far.push(model) =~= before + done.push(model));
        }
        i = i + 1;
    }
}

/// A block of a queue that was read: its records stand at consecutive positions.
pub struct QueueBlock {
    pub first_position: u64,
    pub records: Vec<Bytes>,
}

/// The records of the first `n` blocks of a queue at or after a position, block by block.
pub open spec fn block_records(
    queue_id: Seq<char>,
    blocks: Seq<QueueBlock>,
    from: int,
    n: nat,
) -> Seq<RecordModel>
    decreases n,
{
    if n == 0 {
        seq![]
    } else {
        block_records(queue_id, blocks, from, (n - 1) as nat) + records_from(
            queue_id,
            blocks[n - 1].first_position as int,
            buffer::contents(blocks[n - 1].records@),
            from,
            blocks[n - 1].records@.len(),
        )
    }
}

/// Whether records stand in the order of their positions.
pub open spec fn in_position_order(records: Seq<RecordModel>) -> bool {
    forall|i: int, j: int|
        0 <= i < j < records.len() ==> (#[trigger] records[i]).position <= (
        #[trigger] records[j]).position
}

/// A list with a record put in front of those at later positions.
pub open spec fn put_in_place(list: Seq<RecordModel>, record: RecordModel) -> Seq<RecordModel>
    decreases list.len(),
{
    if list.len() == 0 || list.last().position <= record.position {
        list.push(record)
    } else {
        put_in_place(list.drop_last(), record).push(list.last())
    }
}

/// Records in the order of their positions. Records at the same position keep their order.
pub open spec fn by_position(records: Seq<RecordModel>) -> Seq<RecordModel>
    decreases records.len(),
{
    if records.len() == 0 {
        seq![]
    } else {
        put_in_place(by_position(records.drop_last()), records.last())
    }
}

/// Replays a queue: the records of its blocks at or after a position, in position order.
pub fn replay_queue(queue_id: &str, from_position_inclusive: u64, blocks: &Vec<QueueBlock>) -> (
    replayed: Vec<WalRecord>)
    requires
        forall|i: int|
            0 <= i < blocks@.len() ==> (#[trigger] blocks@[i]).first_position
                + blocks@[i].records@.len() <= u64::MAX,
    ensures
        record_models(replayed@) == by_position(
            block_records(
                queue_id@,
                blocks@,
                from_position_inclusive as int,
                blocks@.len(),
            ),
        ),
        in_position_order(record_models(replayed@)),
{
    let mut found: Vec<WalRecord> = Vec::new();
    assert(record_models(found@) =~= seq![]);
    let mut i: usize = 0;
    while i < blocks.len()
        invariant
            i <= blocks@.len(),
            forall|j: int|
                0 <= j < blocks@.len() ==> (#[trigger] blocks@[j]).first_position
                    + blocks@[j].records@.len() <= u64::MAX,
            record_models(found@) == block_records(
                queue_id@,
                blocks@,
                from_position_inclusive as int,
                i as nat,
            ),
        decreases blocks@.len() - i,
    {
        let block = &blocks[i];
        replay_block(
            &mut found,
            queue_id,
            block.first_position,
            &block.records,
            from_position_inclusive,
        );
        i = i + 1;
    }
    let ghost all = record_models(found@);
    let mut replayed: Vec<WalRecord> = Vec::new();
    assert(record_models(replayed@) =~= by_position(all.take(0)));
    let mut i: usize = 0;
    while i < found.len()
        invariant
            i <= found@.len(),
            all == record_models(found@),
            record_models(replayed@) == by_position(all.take(i as int)),
        decreases found@.len() - i,
    {
        let record = WalRecord {
            queue_id: found[i].queue_id.clone(),
            position: found[i].position,
            record: found[i].record.clone(),
        };
        let ghost so_far = record_models(replayed@);
        let ghost model = all[i as int];
        let mut at: usize = replayed.len();
        while at > 0 && replayed[at - 1].position > record.position
            invariant
                at <= replayed@.len(),
                so_far == record_models(replayed@),
                forall|j: int|
                    at <= j < so_far.len() ==> (#[trigger] so_far[j]).position > record.position,
            decreases at,
        {
            assert(so_far[at - 1].position == replayed@[at - 1].position);
            at = at - 1;
        }
        proof {
            assert(at > 0 ==> so_far[at - 1].position == replayed@[at - 1].position);
            lemma_place(so_far, model, at as int);
            assert(all.take(i + 1).drop_last() =~= all.take(i as int));
        }
        replayed.insert(at, record);
        assert(record_models(replayed@) =~= so_far.insert(at as int, model));
        i = i + 1;
    }
    proof {
        assert(all.take(i as int) =~= all);
        replayed_queues_are_in_position_order(all);
    }
    replayed
}

proof fn lemma_place(list: Seq<RecordModel>, record: RecordModel, at: int)
    requires
        0 <= at <= list.len(),
        at > 0 ==> list[at - 1].position <= record.position,
        forall|j: int| at <= j < list.len() ==> (#[trigger] list[j]).position > record.position,
    ensures
        put_in_place(list, record) == list.insert(at, record),
    decreases list.len(),
{
    if at == list.len() {
        assert(list.insert(at, record) =~= list.push(record));
    } else {
        let rest = list.drop_last();
        assert(at > 0 ==> rest[at - 1] == list[at - 1]);
        lemma_place(rest, record, at);
        assert(rest.insert(at, record).push(list.last()) =~= list.insert(at, record));
    }
}

proof fn lemma_put_in_place(list: Seq<RecordModel>, record: RecordModel)
    requires
        in_position_order(list),
    ensures
        in_position_order(put_in_place(list, record)),
        put_in_place(list, record).to_multiset() == list.to_multiset().insert(record),
        forall|i: int|
            0 <= i < put_in_place(list, record).len() ==> (#[trigger] put_in_place(
                list,
                record,
            )[i]).position <= if list.len() == 0 || list.last().position <= record.position {
                record.position
            } else {
                list.last().position
            },
    decreases list.len(),
{
    broadcast use vstd::seq_lib::group_to_multiset_ensures;

    if list.len() > 0 && list.last().position > record.position {
        let rest = list.drop_last();
        lemma_put_in_place(rest, record);
        assert(rest.push(list.last()) =~= list);
        assert(put_in_place(list, record).to_multiset() =~= list.to_multiset().insert(record));
        if rest.len() > 0 {
            assert(rest.last().position <= list.last().position);
        }
    } else if list.len() > 0 {
        assert forall|i: int| 0 <= i < list.len() implies (#[trigger] list[i]).position
            <= record.position by {
            if i < list.len() - 1 {
                assert(list[i].position <= list[list.len() - 1].position);
            }
        }
    }
}

/// A queue is replayed in position order, and every record that its blocks hold is replayed once for
/// each time that they hold it.
pub proof fn replayed_queues_are_in_position_order(records: Seq<RecordModel>)
    ensures
        in_position_order(by_position(records)),
        by_position(records).to_multiset() == records.to_multiset(),
    decreases records.len(),
{
    broadcast use vstd::seq_lib::group_to_multiset_ensures;

    if records.len() > 0 {
        let rest = records.drop_last();
        replayed_queues_are_in_position_order(rest);
        lemma_put_in_place(by_position(rest), records.last());
        assert(rest.push(records.last()) =~= records);
    } else {
        assert(records =~= seq![]);
    }
}

/// Replayed records are those of the block from the later of the two positions on, each at its
/// position, in order.
pub proof fn replay_gives_every_later_record(
    queue_id: Seq<char>,
    first: int,
    records: Seq<Seq<u8>>,
    from: int,
    n: nat,
)
    requires
        n <= records.len(),
    ensures
        ({
            let replayed = records_from(queue_id, first, records, from, n);
            let start = if from < first {
                first
            } else {
                from
            };
            &&& replayed.len() == if first + n > start {
                first + n - start
            } else {
                0
            }
            &&& forall|i: int|
                0 <= i < replayed.len() ==> (#[trigger] replayed[i]).position == start + i
                    && replayed[i].record == records[start - first + i] && replayed[i].queue_id
                    == queue_id
        }),
    decreases n,
{
    if n > 0 {
        replay_gives_every_later_record(queue_id, first, records, from, (n - 1) as nat);
    }
}

/// The number of leading hits: all answers before it are hits, and the one behind them is none.
pub proof fn leading_hits_end_at_the_first_miss(answers: Seq<WalResult<bool>>)
    ensures
        leading_hits(answers) <= answers.len(),
        forall|i: int|
            0 <= i < leading_hits(answers) ==> #[trigger] answers[i] == Ok::<bool, WalError>(true),
        leading_hits(answers) < answers.len() ==> answers[leading_hits(answers) as int] != Ok::<
            bool,
            WalError,
        >(true),
    decreases answers.len(),
{
    if answers.len() > 0 && answers[0] == Ok::<bool, WalError>(true) {
        let rest = answers.skip(1);
        leading_hits_end_at_the_first_miss(rest);
        assert forall|i: int| 0 <= i < leading_hits(answers) implies #[trigger] answers[i] == Ok::<
            bool,
            WalError,
        >(true) by {
            if i > 0 {
                assert(rest[i - 1] == answers[i]);
            }
        }
    }
}

/// A listing gives every object that its paths name, with the id of its own path and its own size,
/// and nothing else.
pub proof fn listings_hold_every_named_object(listed: Seq<ListedPath>, n: nat, object: WalObjectRef)
    requires
        n <= listed.len(),
    ensures
        parsed_listing(listed, n).contains(object) <==> exists|i: int|
            0 <= i < n && wal::object_id((#[trigger] listed[i]).path@) == Some(object.wal_id.0)
                && listed[i].num_bytes == object.num_bytes,
    decreases n,
{
    let all = parsed_listing(listed, n);
    if n == 0 {
        assert(!all.contains(object));
    } else {
        let before = parsed_listing(listed, (n - 1) as nat);
        let last = listed[n - 1];
        listings_hold_every_named_object(listed, (n - 1) as nat, object);
        if all.contains(object) {
            let k = choose|k: int| 0 <= k < all.len() && all[k] == object;
            if k < before.len() {
                assert(before[k] == object);
            } else {
                assert(listed[n - 1].num_bytes == object.num_bytes);
            }
        }
        if exists|i: int|
            0 <= i < n && wal::object_id((#[trigger] listed[i]).path@) == Some(object.wal_id.0)
                && listed[i].num_bytes == object.num_bytes {
            let i = choose|i: int|
                0 <= i < n && wal::object_id((#[trigger] listed[i]).path@) == Some(object.wal_id.0)
                    && listed[i].num_bytes == object.num_bytes;
            if i < n - 1 {
                let k = choose|k: int| 0 <= k < before.len() && before[k] == object;
                assert(all[k] == object);
            } else {
                assert(object == WalObjectRef { wal_id: object.wal_id, num_bytes: last.num_bytes });
                assert(all[all.len() - 1] == object);
            }
        }
    }
}

/// Lists that agree on the objects of every id, as a listing does that was put in order, hold the
/// same objects.
pub proof fn ordered_listings_hold_the_same_objects(
    objects: Seq<WalObjectRef>,
    parsed: Seq<WalObjectRef>,
    object: WalObjectRef,
)
    requires
        forall|id: u64| #[trigger] with_id(objects, id) == with_id(parsed, id),
    ensures
        objects.contains(object) <==> parsed.contains(object),
{
    let id = object.wal_id.0;
    let keep = |object: WalObjectRef| object.wal_id.0 == id;
    assert(with_id(objects, id) == objects.filter(keep));
    assert(with_id(parsed, id) == parsed.filter(keep));
    if objects.contains(object) {
        let i = choose|i: int| 0 <= i < objects.len() && objects[i] == object;
        objects.lemma_filter_contains(keep, i);
        lemma_filtered_object_is_contained(parsed, keep, object);
    }
    if parsed.contains(object) {
        let i = choose|i: int| 0 <= i < parsed.len() && parsed[i] == object;
        parsed.lemma_filter_contains(keep, i);
        lemma_filtered_object_is_contained(objects, keep, object);
    }
}

proof fn lemma_filtered_object_is_contained(
    objects: Seq<WalObjectRef>,
    keep: spec_fn(WalObjectRef) -> bool,
    object: WalObjectRef,
)
    requires
        objects.filter(keep).contains(object),
    ensures
        objects.contains(object),
    decreases objects.len(),
{
    reveal(Seq::filter);
    if objects.len() > 0 {
        let shorter = objects.drop_last();
        let before = shorter.filter(keep);
        let all = objects.filter(keep);
        let i = choose|i: int| 0 <= i < all.len() && all[i] == object;
        if i < before.len() {
            assert(before[i] == object);
            lemma_filtered_object_is_contained(shorter, keep, object);
            let j = choose|j: int| 0 <= j < shorter.len() && shorter[j] == object;
            assert(objects[j] == object);
        } else {
            assert(objects.last() == object);
        }
    }
}

/// In a listing that is in order, a later object never has a lower id.
pub proof fn ordered_listings_ascend(objects: Seq<WalObjectRef>, i: int, j: int)
    requires
        in_id_order(objects),
        0 <= i < j < objects.len(),
    ensures
        objects[i].wal_id.0 <= objects[j].wal_id.0,
{
}

/// The first read of a footer takes in the end of the object, and as much of it as is read on
/// speculation, or the whole object if it is shorter.
pub proof fn footers_are_read_from_the_end(num_bytes: int)
    requires
        0 <= num_bytes,
    ensures
        first_footer_read(num_bytes).1 == num_bytes,
        0 <= first_footer_read(num_bytes).0,
        num_bytes - first_footer_read(num_bytes).0 <= SPECULATIVE_TAIL_LEN,
        first_footer_read(num_bytes).0 > 0 ==> num_bytes - first_footer_read(num_bytes).0
            == SPECULATIVE_TAIL_LEN,
{
}

/// A block is replayed exactly if it is of the queue and one of its records is at or behind the
/// position: a marker never is.
pub proof fn blocks_are_replayed_for_a_record(meta: MetaModel, queue_id: Seq<char>, from: u64)
    ensures
        holds(meta, queue_id, from) <==> meta.queue_id == queue_id && exists|i: int|
            0 <= i < meta.num_records && #[trigger] (meta.first_position + i) >= from,
{
    if holds(meta, queue_id, from) {
        assert(meta.first_position + (meta.num_records - 1) >= from);
    }
}

/// The model of a record has its queue, its position and its bytes.
pub proof fn records_are_modelled_one_by_one(records: Seq<WalRecord>, i: int)
    requires
        0 <= i < records.len(),
    ensures
        record_models(records).len() == records.len(),
        record_models(records)[i].queue_id == records[i].queue_id@,
        record_models(records)[i].position == records[i].position,
        record_models(records)[i].record == buffer::bytes_content(records[i].record),
{
}

/// The blocks of a queue give every record at or behind a position, and no other: a record is among
/// those replayed exactly if a block has it there.
pub proof fn blocks_give_every_later_record(
    queue_id: Seq<char>,
    blocks: Seq<QueueBlock>,
    from: int,
    n: nat,
    record: RecordModel,
)
    requires
        n <= blocks.len(),
    ensures
        block_records(queue_id, blocks, from, n).contains(record) <==> record.queue_id == queue_id
            && record.position >= from && exists|b: int|
            0 <= b < n && (#[trigger] blocks[b]).first_position <= record.position
                < blocks[b].first_position + blocks[b].records@.len() && record.record
                == buffer::bytes_content(
                blocks[b].records@[record.position - blocks[b].first_position],
            ),
    decreases n,
{
    let all = block_records(queue_id, blocks, from, n);
    if n == 0 {
        assert(!all.contains(record));
    } else {
        let before = block_records(queue_id, blocks, from, (n - 1) as nat);
        let block = blocks[n - 1];
        let first = block.first_position as int;
        let contents = buffer::contents(block.records@);
        let added = records_from(queue_id, first, contents, from, block.records@.len());
        blocks_give_every_later_record(queue_id, blocks, from, (n - 1) as nat, record);
        replay_gives_every_later_record(queue_id, first, contents, from, block.records@.len());
        let start = if from < first {
            first
        } else {
            from
        };
        let wanted = record.queue_id == queue_id && record.position >= from;
        if all.contains(record) {
            let k = choose|k: int| 0 <= k < all.len() && all[k] == record;
            if k < before.len() {
                assert(before[k] == record);
            } else {
                assert(added[k - before.len()] == record);
                assert(contents[record.position - first] == buffer::bytes_content(
                    block.records@[record.position - first],
                ));
                assert(blocks[n - 1].first_position <= record.position);
            }
        }
        if wanted && exists|b: int|
            0 <= b < n && (#[trigger] blocks[b]).first_position <= record.position
                < blocks[b].first_position + blocks[b].records@.len() && record.record
                == buffer::bytes_content(
                blocks[b].records@[record.position - blocks[b].first_position],
            ) {
            let b = choose|b: int|
                0 <= b < n && (#[trigger] blocks[b]).first_position <= record.position
                    < blocks[b].first_position + blocks[b].records@.len() && record.record
                    == buffer::bytes_content(
                    blocks[b].records@[record.position - blocks[b].first_position],
                );
            if b < n - 1 {
                let k = choose|k: int| 0 <= k < before.len() && before[k] == record;
                assert(all[k] == record);
            } else {
                let k = record.position - start;
                assert(contents[record.position - first] == record.record);
                assert(added[k] == record);
                assert(all[before.len() + k] == record);
            }
        }
    }
}

/// Records at the same position are replayed in the order in which the blocks hold them.
pub proof fn replay_keeps_the_order_at_a_position(records: Seq<RecordModel>, position: int)
    ensures
        by_position(records).filter(|record: RecordModel| record.position == position)
            == records.filter(|record: RecordModel| record.position == position),
    decreases records.len(),
{
    let keep = |record: RecordModel| record.position == position;
    if records.len() == 0 {
        assert(by_position(records) =~= records);
    } else {
        let rest = records.drop_last();
        replay_keeps_the_order_at_a_position(rest, position);
        replayed_queues_are_in_position_order(rest);
        lemma_put_in_place_keeps_order(by_position(rest), records.last(), position);
        assert(by_position(rest).filter(keep) == rest.filter(keep));
        reveal(Seq::filter);
        assert(rest.push(records.last()) =~= records);
    }
}

proof fn lemma_put_in_place_keeps_order(list: Seq<RecordModel>, record: RecordModel, position: int)
    requires
        in_position_order(list),
    ensures
        put_in_place(list, record).filter(|r: RecordModel| r.position == position) == if record.position
            == position {
            list.filter(|r: RecordModel| r.position == position).push(record)
        } else {
            list.filter(|r: RecordModel| r.position == position)
        },
    decreases list.len(),
{
    reveal(Seq::filter);
    let keep = |r: RecordModel| r.position == position;
    if list.len() == 0 || list.last().position <= record.position {
        assert(list.push(record).drop_last() =~= list);
    } else {
        let rest = list.drop_last();
        lemma_put_in_place_keeps_order(rest, record, position);
        assert(put_in_place(list, record).drop_last() =~= put_in_place(rest, record));
        if record.position == position {
            assert(list.last().position > position);
        }
    }
}

/// Records that are in order ascend.
pub proof fn ordered_records_ascend(records: Seq<RecordModel>, i: int, j: int)
    requires
        in_position_order(records),
        0 <= i < j < records.len(),
    ensures
        records[i].position <= records[j].position,
{
}

/// Whether a deletion succeeded: a missing object is not an error.
pub fn deletion_outcome(deleted: Result<(), StorageError>) -> (outcome: WalResult<()>)
    ensures
        match deleted {
            Ok(_) => outcome is Ok,
            Err(error) => if error.kind == StorageErrorKind::NotFound {
                outcome is Ok
            } else {
                outcome == Err::<(), WalError>(WalError::Storage(error))
            },
        },
        outcome == deleted_or_gone(deleted),
{
    match deleted {
        Ok(_) => Ok(()),
        Err(error) => {
            if error.kind == StorageErrorKind::NotFound {
                Ok(())
            } else {
                Err(WalError::Storage(error))
            }
        },
    }
}

/// What comes of the deletion of an object.
pub open spec fn deleted_or_gone(deleted: Result<(), StorageError>) -> WalResult<()> {
    match deleted {
        Ok(()) => Ok(()),
        Err(error) => if error.kind == StorageErrorKind::NotFound {
            Ok(())
        } else {
            Err(WalError::Storage(error))
        },
    }
}

/// Deleting an object succeeds exactly if it is gone afterwards, be it that it was gone before. Any
/// other failure of the storage is passed on.
pub proof fn deletions_succeed_if_the_object_is_gone(deleted: Result<(), StorageError>)
    ensures
        deleted_or_gone(deleted) is Ok <==> deleted is Ok || deleted->Err_0.kind
            == StorageErrorKind::NotFound,
        deleted_or_gone(deleted) is Err ==> deleted_or_gone(deleted)->Err_0 == WalError::Storage(
            deleted->Err_0,
        ),
{
}

} // verus!
