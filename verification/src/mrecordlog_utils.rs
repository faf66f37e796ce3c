//! Records of a local write-ahead log: what a batch becomes, and how full the log is.

use bytes::Bytes;
use vstd::prelude::*;

use crate::position::Position;

verus! {

/// An append to a local log failed.
#[derive(Debug)]
pub enum AppendDocBatchError {
    Io(String),
    QueueNotFound(String),
}

/// An append error as a sentence.
pub open spec fn append_error_text(error: AppendDocBatchError) -> Seq<char> {
    match error {
        AppendDocBatchError::Io(message) => "IO error: "@ + message@,
        AppendDocBatchError::QueueNotFound(queue_id) => "WAL queue `"@ + queue_id@ + "` not found"@,
    }
}

impl AppendDocBatchError {
    /// The error as a sentence.
    pub fn to_text(&self) -> (text: String)
        ensures
            text@ == append_error_text(*self),
    {
        match self {
            AppendDocBatchError::Io(message) => {
                let mut text = "IO error: ".to_owned();
                text.append(message.as_str());
                text
            },
            AppendDocBatchError::QueueNotFound(queue_id) => {
                let mut text = "WAL queue `".to_owned();
                text.append(queue_id.as_str());
                text.append("` not found");
                text
            },
        }
    }
}

/// Lays out the records of a document batch that get written to the WAL: its encoded documents,
/// with the encoded commit record behind them when `force_commit` is set.
pub fn encode_doc_batch(docs: Vec<Bytes>, commit: Bytes, force_commit: bool) -> (records: Vec<Bytes>)
    ensures
        records@ == if force_commit {
            docs@.push(commit)
        } else {
            docs@
        },
{
    let mut records = docs;
    if force_commit {
        records.push(commit);
    }
    records
}

/// What a local log says about an append of some records at the end of a queue.
pub enum AppendOutcome {
    /// The offset of the last record.
    Appended(u64),
    Io(String),
    MissingQueue(String),
}

/// The position of the last record of an append.
pub fn append_encoded_mrecords(outcome: AppendOutcome) -> (position: Result<
    Position,
    AppendDocBatchError,
>)
    ensures
        position == match outcome {
            AppendOutcome::Appended(offset) => Ok::<Position, AppendDocBatchError>(
                Position::Offset(offset),
            ),
            AppendOutcome::Io(message) => Err(AppendDocBatchError::Io(message)),
            AppendOutcome::MissingQueue(queue_id) => Err(
                AppendDocBatchError::QueueNotFound(queue_id),
            ),
        },
{
    match outcome {
        AppendOutcome::Appended(offset) => Ok(Position::Offset(offset)),
        AppendOutcome::Io(message) => Err(AppendDocBatchError::Io(message)),
        AppendOutcome::MissingQueue(queue_id) => Err(AppendDocBatchError::QueueNotFound(queue_id)),
    }
}

/// The bytes that a local log takes up.
#[derive(Clone, Copy, Debug)]
pub struct LogUsage {
    pub disk_used_bytes: u64,
    pub memory_used_bytes: u64,
}

/// Error returned when the log does not have enough capacity to store some records.
#[derive(Clone, Copy, Debug, PartialEq, Eq, Structural)]
pub enum NotEnoughCapacityError {
    Disk { usage: u64, capacity: u64, requested: u64 },
    Memory { usage: u64, capacity: u64, requested: u64 },
}

/// What the check of the capacity of a log gives.
pub open spec fn capacity_check(
    usage: LogUsage,
    disk_capacity: u64,
    memory_capacity: u64,
    requested: u64,
) -> Result<(), NotEnoughCapacityError> {
    if usage.disk_used_bytes + requested > disk_capacity {
        Err(
            NotEnoughCapacityError::Disk {
                usage: usage.disk_used_bytes,
                capacity: disk_capacity,
                requested,
            },
        )
    } else if usage.memory_used_bytes + requested > memory_capacity {
        Err(
            NotEnoughCapacityError::Memory {
                usage: usage.memory_used_bytes,
                capacity: memory_capacity,
                requested,
            },
        )
    } else {
        Ok(())
    }
}

/// Checks whether the log has enough capacity to store some records, on disk first.
pub fn check_enough_capacity(
    usage: LogUsage,
    disk_capacity: u64,
    memory_capacity: u64,
    requested_capacity: u64,
) -> (checked: Result<(), NotEnoughCapacityError>)
    requires
        usage.disk_used_bytes + requested_capacity <= u64::MAX,
        usage.memory_used_bytes + requested_capacity <= u64::MAX,
    ensures
        checked == if usage.disk_used_bytes + requested_capacity > disk_capacity {
            Err::<(), _>(
                (NotEnoughCapacityError::Disk {
                    usage: usage.disk_used_bytes,
                    capacity: disk_capacity,
                    requested: requested_capacity,
                }),
            )
        } else if usage.memory_used_bytes + requested_capacity > memory_capacity {
            Err::<(), _>(
                (NotEnoughCapacityError::Memory {
                    usage: usage.memory_used_bytes,
                    capacity: memory_capacity,
                    requested: requested_capacity,
                }),
            )
        } else {
            Ok(())
        },
        checked == capacity_check(usage, disk_capacity, memory_capacity, requested_capacity),
{
    if usage.disk_used_bytes + requested_capacity > disk_capacity {
        return Err(
            NotEnoughCapacityError::Disk {
                usage: usage.disk_used_bytes,
                capacity: disk_capacity,
                requested: requested_capacity,
            },
        );
    }
    if usage.memory_used_bytes + requested_capacity > memory_capacity {
        return Err(
            NotEnoughCapacityError::Memory {
                usage: usage.memory_used_bytes,
                capacity: memory_capacity,
                requested: requested_capacity,
            },
        );
    }
    Ok(())
}

/// The positions that a queue holds, from `start` to `end` inclusive, if it holds any.
#[derive(Clone, Copy, Debug)]
pub struct QueueSummary {
    pub start: u64,
    pub end: Option<u64>,
}

/// The number of records between the ends of a queue. One whose records were all truncated ends
/// before it starts.
pub open spec fn queue_len(summary: QueueSummary) -> int {
    match summary.end {
        None => 0,
        Some(end) => if end >= summary.start {
            end - summary.start + 1
        } else {
            0
        },
    }
}

/// The number of records of the first `n` queues.
pub open spec fn queues_len(summaries: Seq<QueueSummary>, n: nat) -> int
    decreases n,
{
    if n == 0 {
        0
    } else {
        queues_len(summaries, (n - 1) as nat) + queue_len(summaries[n - 1])
    }
}

proof fn lemma_queues_len_grows(summaries: Seq<QueueSummary>, i: nat, n: nat)
    requires
        i <= n <= summaries.len(),
    ensures
        0 <= queues_len(summaries, i) <= queues_len(summaries, n),
    decreases n,
{
    if n > 0 {
        if i < n {
            lemma_queues_len_grows(summaries, i, (n - 1) as nat);
        } else {
            lemma_queues_len_grows(summaries, (n - 1) as nat, (n - 1) as nat);
        }
    }
}

/// Reports the WAL memory usage, disk usage, and total number of records, or `(0, 0, 0)` if the
/// WAL is not initialized.
pub fn wal_stats(usage: Option<LogUsage>, summaries: &Vec<QueueSummary>) -> (stats: (u64, u64, u64))
    requires
        queues_len(summaries@, summaries@.len()) <= u64::MAX,
    ensures
        match usage {
            None => stats == (0u64, 0u64, 0u64),
            Some(usage) => {
                &&& stats.0 == usage.memory_used_bytes
                &&& stats.1 == usage.disk_used_bytes
                &&& stats.2 == queues_len(summaries@, summaries@.len())
            },
        },
{
    let usage = match usage {
        Some(usage) => usage,
        None => return (0, 0, 0),
    };
    let mut num_records: u64 = 0;
    for i in 0..summaries.len()
        invariant
            num_records == queues_len(summaries@, i as nat),
            queues_len(summaries@, summaries@.len()) <= u64::MAX,
    {
        proof {
            lemma_queues_len_grows(summaries@, (i + 1) as nat, summaries@.len());
            lemma_queues_len_grows(summaries@, i as nat, i as nat);
        }
        let summary = summaries[i];
        if let Some(end) = summary.end {
            if end >= summary.start {
                num_records = num_records + (end - summary.start) + 1;
            }
        }
    }
    (usage.memory_used_bytes, usage.disk_used_bytes, num_records)
}

/// Records are taken exactly if what is used and what they need fits both the disk and the memory. A
/// disk that is full is reported first, and every report names the numbers it is about.
pub proof fn records_are_taken_where_they_fit(
    usage: LogUsage,
    disk_capacity: u64,
    memory_capacity: u64,
    requested: u64,
)
    ensures
        ({
            let checked = capacity_check(usage, disk_capacity, memory_capacity, requested);
            let fits_disk = usage.disk_used_bytes + requested <= disk_capacity;
            let fits_memory = usage.memory_used_bytes + requested <= memory_capacity;
            &&& checked is Ok <==> fits_disk && fits_memory
            &&& checked matches Err(NotEnoughCapacityError::Disk { usage: u, capacity, requested: r })
                ==> !fits_disk && u == usage.disk_used_bytes && capacity == disk_capacity && r
                == requested
            &&& checked matches Err(NotEnoughCapacityError::Memory { usage: u, capacity, requested: r })
                ==> fits_disk && !fits_memory && u == usage.memory_used_bytes && capacity
                == memory_capacity && r == requested
        }),
{
}

/// A queue holds the positions from its start to its end: its length is what leads from the one to the
/// other. It is empty if it has no end, or ends before it starts.
pub proof fn queues_reach_from_start_to_end(summary: QueueSummary)
    ensures
        queue_len(summary) >= 0,
        summary.end is None ==> queue_len(summary) == 0,
        summary.end matches Some(end) && end < summary.start ==> queue_len(summary) == 0,
        summary.end matches Some(end) && end >= summary.start ==> summary.start + queue_len(summary)
            - 1 == summary.end->0,
{
}

/// The records of several queues are counted queue by queue.
pub proof fn queue_lengths_add_up(summaries: Seq<QueueSummary>, n: nat)
    requires
        n < summaries.len(),
    ensures
        queues_len(summaries, 0) == 0,
        queues_len(summaries, n + 1) - queues_len(summaries, n) == queue_len(summaries[n as int]),
{
}

} // verus!
