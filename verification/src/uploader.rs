//! Concurrent upload of splits. Engines prepare, stage and store their own artifacts;
//! reservation, backpressure, cancellation, failure propagation and task ownership are decided
//! once.

use vstd::prelude::*;

verus! {

/// Which splits an uploader stores.
#[derive(Clone, Copy, Debug, PartialEq, Eq, Structural)]
pub enum UploaderType {
    IndexUploader,
    MergeUploader,
    DeleteUploader,
}

/// What an uploader has done.
#[derive(Clone, Copy, Debug, PartialEq, Eq, Structural)]
pub struct UploaderCounters {
    pub num_staged_splits: u64,
    pub num_uploaded_splits: u64,
}

impl Default for UploaderCounters {
    fn default() -> (counters: Self)
        ensures
            counters.num_staged_splits == 0,
            counters.num_uploaded_splits == 0,
    {
        UploaderCounters { num_staged_splits: 0, num_uploaded_splits: 0 }
    }
}

impl UploaderCounters {
    /// Counts splits that were staged.
    pub fn staged(&mut self, num_splits: usize)
        requires
            old(self).num_staged_splits + num_splits <= u64::MAX,
        ensures
            final(self).num_staged_splits == old(self).num_staged_splits + num_splits,
            final(self).num_uploaded_splits == old(self).num_uploaded_splits,
    {
        self.num_staged_splits = self.num_staged_splits + num_splits as u64;
    }

    /// Counts a split that was stored.
    pub fn uploaded(&mut self)
        requires
            old(self).num_uploaded_splits < u64::MAX,
        ensures
            final(self).num_uploaded_splits == old(self).num_uploaded_splits + 1,
            final(self).num_staged_splits == old(self).num_staged_splits,
    {
        self.num_uploaded_splits = self.num_uploaded_splits + 1;
    }
}

/// The name of a role.
pub open spec fn role_name(role: UploaderType) -> Seq<char> {
    match role {
        UploaderType::IndexUploader => "IndexUploader"@,
        UploaderType::MergeUploader => "MergeUploader"@,
        UploaderType::DeleteUploader => "DeleteUploader"@,
    }
}

/// The name of a Tantivy uploader: that of its role.
pub fn tantivy_actor_name(role: UploaderType) -> (name: String)
    ensures
        name@ == role_name(role),
{
    match role {
        UploaderType::IndexUploader => "IndexUploader".to_owned(),
        UploaderType::MergeUploader => "MergeUploader".to_owned(),
        UploaderType::DeleteUploader => "DeleteUploader".to_owned(),
    }
}

/// The name of a Parquet uploader.
pub fn parquet_actor_name(role: UploaderType) -> (name: String)
    ensures
        name@ == "ParquetUploader("@ + role_name(role) + ")"@,
{
    let mut name = "ParquetUploader(".to_owned();
    name.append(tantivy_actor_name(role).as_str());
    name.append(")");
    name
}

/// The number of batches that wait for a Tantivy uploader.
pub const TANTIVY_QUEUE_CAPACITY: usize = 0;

/// The number of batches that wait for a Parquet uploader.
pub const PARQUET_QUEUE_CAPACITY: usize = 3;

/// Separate ingest/merge capacity per engine. The first uploader of a role sets how many uploads
/// may run at a time; deletions share the capacity of merges.
pub struct UploadBudget {
    pub indexing: Option<usize>,
    pub merging: Option<usize>,
    pub indexing_label: String,
    pub merging_label: String,
}

impl UploadBudget {
    /// No capacity is set yet.
    pub fn new(indexing_label: String, merging_label: String) -> (budget: Self)
        ensures
            budget.indexing is None,
            budget.merging is None,
            budget.indexing_label == indexing_label,
            budget.merging_label == merging_label,
    {
        UploadBudget { indexing: None, merging: None, indexing_label, merging_label }
    }

    /// The capacity that a role has, if it is set.
    pub open spec fn capacity(self, role: UploaderType) -> Option<usize> {
        match role {
            UploaderType::IndexUploader => self.indexing,
            _ => self.merging,
        }
    }

    /// The label of a role.
    pub open spec fn label(self, role: UploaderType) -> Seq<char> {
        match role {
            UploaderType::IndexUploader => self.indexing_label@,
            _ => self.merging_label@,
        }
    }

    /// The capacity to acquire a permit from, and the label to report it under.
    pub fn acquire(&mut self, role: UploaderType, maximum: usize) -> (capacity: (usize, String))
        ensures
            capacity.0 == match old(self).capacity(role) {
                Some(set) => set,
                None => maximum,
            },
            capacity.1@ == old(self).label(role),
            final(self).capacity(role) == Some(capacity.0),
            forall|other: UploaderType|
                old(self).capacity(other) is Some ==> #[trigger] final(self).capacity(other)
                    == old(self).capacity(other),
            role is IndexUploader ==> final(self).merging == old(self).merging,
            !(role is IndexUploader) ==> final(self).indexing == old(self).indexing,
            final(self).indexing_label == old(self).indexing_label,
            final(self).merging_label == old(self).merging_label,
    {
        match role {
            UploaderType::IndexUploader => {
                let set: usize = match self.indexing {
                    Some(set) => set,
                    None => maximum,
                };
                self.indexing = Some(set);
                (set, self.indexing_label.clone())
            },
            _ => {
                let set: usize = match self.merging {
                    Some(set) => set,
                    None => maximum,
                };
                self.merging = Some(set);
                (set, self.merging_label.clone())
            },
        }
    }
}

// ---- One batch ----

/// What comes before the task of a batch.
#[derive(Clone, Copy, Debug, PartialEq, Eq, Structural)]
pub enum AdmissionStep {
    /// Look at the uploads that have ended since the last batch.
    EarlierUploads,
    /// Reserve the place of the batch in the publication order.
    Reserve,
    /// Wait for a permit.
    AcquirePermit,
    /// See whether the generation lives on.
    CheckKillSwitch,
    /// Spawn the task.
    Spawn,
    /// The batch is not uploaded, for the error of the step before.
    Refuse,
    /// The batch is not uploaded, because the generation was killed.
    Killed,
}

/// The step that follows one that succeeded or failed. The place in the publication order is
/// reserved before concurrent work starts, and the kill switch is looked at last.
pub fn after_admission_step(step: AdmissionStep, succeeded: bool) -> (next: AdmissionStep)
    ensures
        next == match step {
            AdmissionStep::EarlierUploads => if succeeded {
                AdmissionStep::Reserve
            } else {
                AdmissionStep::Refuse
            },
            AdmissionStep::Reserve => if succeeded {
                AdmissionStep::AcquirePermit
            } else {
                AdmissionStep::Refuse
            },
            AdmissionStep::AcquirePermit => if succeeded {
                AdmissionStep::CheckKillSwitch
            } else {
                AdmissionStep::Refuse
            },
            AdmissionStep::CheckKillSwitch => if succeeded {
                AdmissionStep::Spawn
            } else {
                AdmissionStep::Killed
            },
            _ => step,
        },
        next == admission_after(step, succeeded),
{
    match step {
        AdmissionStep::CheckKillSwitch => {
            if succeeded {
                AdmissionStep::Spawn
            } else {
                AdmissionStep::Killed
            }
        },
        AdmissionStep::Spawn => AdmissionStep::Spawn,
        AdmissionStep::Refuse => AdmissionStep::Refuse,
        AdmissionStep::Killed => AdmissionStep::Killed,
        _ => {
            if !succeeded {
                return AdmissionStep::Refuse;
            }
            match step {
                AdmissionStep::EarlierUploads => AdmissionStep::Reserve,
                AdmissionStep::Reserve => AdmissionStep::AcquirePermit,
                _ => AdmissionStep::CheckKillSwitch,
            }
        },
    }
}

/// What an upload task does next.
#[derive(Clone, Copy, Debug, PartialEq, Eq, Structural)]
pub enum UploadStep {
    /// Give the place in the publication order back.
    Discard,
    /// Prepare the splits.
    Prepare,
    /// Stage the splits with the metastore.
    Stage,
    /// Store the splits.
    Upload,
    /// Hand the publication over.
    Send,
    /// The task is done.
    Done,
    /// Fault the generation.
    Fault,
}

/// A task begins: its splits are dropped where their publish lock is dead.
pub fn begin_upload(lock_is_dead: bool) -> (step: UploadStep)
    ensures
        step == if lock_is_dead {
            UploadStep::Discard
        } else {
            UploadStep::Prepare
        },
        step == first_upload_step(lock_is_dead),
{
    if lock_is_dead {
        UploadStep::Discard
    } else {
        UploadStep::Prepare
    }
}

/// The step that follows one that succeeded or failed. Splits count as staged once the metastore
/// has taken them.
pub fn after_upload_step(
    step: UploadStep,
    succeeded: bool,
    num_splits: usize,
    counters: &mut UploaderCounters,
) -> (next: UploadStep)
    requires
        old(counters).num_staged_splits + num_splits <= u64::MAX,
    ensures
        next == if step is Done || step is Fault {
            step
        } else if !succeeded {
            UploadStep::Fault
        } else {
            match step {
                UploadStep::Prepare => UploadStep::Stage,
                UploadStep::Stage => UploadStep::Upload,
                UploadStep::Upload => UploadStep::Send,
                _ => UploadStep::Done,
            }
        },
        next == upload_after(step, succeeded),
        final(counters).num_uploaded_splits == old(counters).num_uploaded_splits,
        final(counters).num_staged_splits == old(counters).num_staged_splits + if step is Stage
            && succeeded {
            num_splits as int
        } else {
            0
        },
{
    match step {
        UploadStep::Done => UploadStep::Done,
        UploadStep::Fault => UploadStep::Fault,
        _ => {
            if !succeeded {
                return UploadStep::Fault;
            }
            match step {
                UploadStep::Prepare => UploadStep::Stage,
                UploadStep::Stage => {
                    counters.staged(num_splits);
                    UploadStep::Upload
                },
                UploadStep::Upload => UploadStep::Send,
                _ => UploadStep::Done,
            }
        },
    }
}

/// The fault of a generation in which an upload failed.
pub fn upload_fault(error: &str) -> (fault: String)
    ensures
        fault@ == "upload failed: "@ + error@,
{
    let mut fault = "upload failed: ".to_owned();
    fault.append(error);
    fault
}

/// The fault of a generation whose task is dropped: none once the task has completed. A panic or a
/// cancellation must fault the generation too, not just drop a place in the publication order
/// silently.
pub fn dropped_task_fault(completed: bool) -> (fault: Option<String>)
    ensures
        match fault {
            Some(fault) => !completed && fault@ == "upload task ended before completion"@,
            None => completed,
        },
{
    if completed {
        None
    } else {
        Some("upload task ended before completion".to_owned())
    }
}

/// Splits on their way have a place in the publication order that is given up or filled, or go to
/// the publisher directly.
#[derive(Clone, Copy, Debug, PartialEq, Eq, Structural)]
pub enum PublicationRoute {
    Sequencer,
    Publisher,
}

/// Gives a place up. Only a sequencer has to be told.
pub fn discard(route: PublicationRoute, sequencer_open: bool) -> (discarded: Result<(), String>)
    ensures
        match discarded {
            Ok(()) => route is Publisher || sequencer_open,
            Err(error) => route is Sequencer && !sequencer_open && error@
                == "failed to discard publication: sequencer is closed"@,
        },
{
    match route {
        PublicationRoute::Sequencer => {
            if sequencer_open {
                Ok(())
            } else {
                Err("failed to discard publication: sequencer is closed".to_owned())
            }
        },
        PublicationRoute::Publisher => Ok(()),
    }
}

/// Hands a publication to a sequencer.
pub fn deliver(sequencer_open: bool) -> (delivered: Result<(), String>)
    ensures
        match delivered {
            Ok(()) => sequencer_open,
            Err(error) => !sequencer_open && error@
                == "failed to deliver publication: sequencer is closed"@,
        },
{
    if sequencer_open {
        Ok(())
    } else {
        Err("failed to deliver publication: sequencer is closed".to_owned())
    }
}

// ---- Tasks that end ----

/// How an upload task ended.
#[derive(Debug)]
pub enum TaskEnd {
    Success,
    Failed(String),
    Cancelled(String),
    Panicked(String),
}

/// Whether the uploads that have ended since the last batch all succeeded: otherwise the first
/// failure among them is in the way of the next batch.
pub fn earlier_uploads(ends: &Vec<TaskEnd>) -> (succeeded: Result<(), String>)
    ensures
        match succeeded {
            Ok(()) => forall|i: int| 0 <= i < ends@.len() ==> #[trigger] ends@[i] is Success,
            Err(error) => exists|i: int|
                #![trigger ends@[i]]
                {
                    &&& 0 <= i < ends@.len()
                    &&& !(ends@[i] is Success)
                    &&& error@ == failure_text(ends@[i])
                    &&& forall|j: int| 0 <= j < i ==> #[trigger] ends@[j] is Success
                },
        },
{
    for i in 0..ends.len()
        invariant
            forall|j: int| 0 <= j < i ==> #[trigger] ends@[j] is Success,
    {
        match &ends[i] {
            TaskEnd::Success => {},
            TaskEnd::Failed(error) => {
                return Err(error.clone());
            },
            TaskEnd::Cancelled(error) => {
                return Err(error.clone());
            },
            TaskEnd::Panicked(error) => {
                return Err(error.clone());
            },
        }
    }
    Ok(())
}

/// What is known of the tasks of an uploader that shuts down.
pub struct Shutdown {
    /// Whether the uploader itself exits with success.
    pub exits_well: bool,
    /// Whether the remaining tasks have been cancelled.
    pub cancelling: bool,
    /// The first failure.
    pub failure: Option<String>,
    pub panicked: bool,
    /// How the tasks have ended so far.
    pub ends: Ghost<Seq<TaskEnd>>,
}

/// Whether the end of a task is a failure: cancelled tasks are not, once tasks are cancelled.
pub open spec fn is_failure(end: TaskEnd, cancelling: bool) -> bool {
    match end {
        TaskEnd::Success => false,
        TaskEnd::Cancelled(_) => !cancelling,
        _ => true,
    }
}

/// The text of a failure.
pub open spec fn failure_text(end: TaskEnd) -> Seq<char> {
    match end {
        TaskEnd::Success => seq![],
        TaskEnd::Failed(error) => error@,
        TaskEnd::Cancelled(error) => error@,
        TaskEnd::Panicked(error) => error@,
    }
}

/// Whether tasks are cancelled after the first `n` have ended.
pub open spec fn cancels(exits_well: bool, ends: Seq<TaskEnd>, n: nat) -> bool
    decreases n,
{
    if n == 0 {
        !exits_well
    } else {
        cancels(exits_well, ends, (n - 1) as nat) || is_failure(
            ends[n - 1],
            cancels(exits_well, ends, (n - 1) as nat),
        )
    }
}

/// The index of the first failure among the first `n` ends.
pub open spec fn first_failure(exits_well: bool, ends: Seq<TaskEnd>, n: nat) -> Option<int>
    decreases n,
{
    if n == 0 {
        None
    } else {
        match first_failure(exits_well, ends, (n - 1) as nat) {
            Some(i) => Some(i),
            None => if is_failure(ends[n - 1], cancels(exits_well, ends, (n - 1) as nat)) {
                Some(n - 1)
            } else {
                None
            },
        }
    }
}

/// Whether one of the first `n` tasks panicked.
pub open spec fn any_panic(ends: Seq<TaskEnd>, n: nat) -> bool
    decreases n,
{
    n > 0 && (any_panic(ends, (n - 1) as nat) || ends[n - 1] is Panicked)
}

impl Shutdown {
    /// The shutdown knows what the ends of the tasks say.
    pub open spec fn well_formed(self) -> bool {
        let ends = self.ends@;
        &&& self.cancelling == cancels(self.exits_well, ends, ends.len())
        &&& self.panicked == any_panic(ends, ends.len())
        &&& match self.failure {
            None => first_failure(self.exits_well, ends, ends.len()) is None,
            Some(error) => match first_failure(self.exits_well, ends, ends.len()) {
                Some(i) => error@ == failure_text(ends[i]),
                None => false,
            },
        }
    }

    /// Begins to shut down. Uploads of a generation that failed are cancelled at once.
    pub fn begin(exits_well: bool) -> (shutdown: Self)
        ensures
            shutdown.exits_well == exits_well,
            shutdown.ends@ == Seq::<TaskEnd>::empty(),
            shutdown.well_formed(),
    {
        Shutdown { exits_well, cancelling: !exits_well, failure: None, panicked: false, ends: Ghost(Seq::<TaskEnd>::empty()) }
    }

    /// Takes note of the end of a task, and says whether the remaining ones are to be cancelled
    /// now.
    pub fn task_ended(&mut self, end: &TaskEnd) -> (cancel: bool)
        requires
            old(self).well_formed(),
        ensures
            final(self).well_formed(),
            final(self).exits_well == old(self).exits_well,
            final(self).ends@ == old(self).ends@.push(*end),
            cancel == is_failure(*end, old(self).cancelling),
    {
        let ghost ends = self.ends@;
        let ghost after = ends.push(*end);
        self.ends = Ghost(after);
        let failure = match end {
            TaskEnd::Success => None,
            TaskEnd::Failed(error) => Some(error.clone()),
            TaskEnd::Cancelled(error) => {
                if self.cancelling {
                    None
                } else {
                    Some(error.clone())
                }
            },
            TaskEnd::Panicked(error) => {
                self.panicked = true;
                Some(error.clone())
            },
        };
        proof {
            lemma_prefix(self.exits_well, ends, after, ends.len());
        }
        match failure {
            None => false,
            Some(error) => {
                if self.failure.is_none() {
                    self.failure = Some(error);
                }
                self.cancelling = true;
                true
            },
        }
    }

    /// What the shutdown reports. A fault already ended a generation that failed, and its status
    /// stands; but a failure that is discovered while draining a generation that exits with
    /// success must still make it fail, and so must a panic.
    pub fn finish(self) -> (finished: Result<(), String>)
        requires
            self.well_formed(),
        ensures
            match finished {
                Ok(()) => first_failure(self.exits_well, self.ends@, self.ends@.len()) is None || (
                !self.exits_well && !any_panic(self.ends@, self.ends@.len())),
                Err(error) => match first_failure(self.exits_well, self.ends@, self.ends@.len()) {
                    Some(i) => error@ == failure_text(self.ends@[i]) && (self.exits_well
                        || any_panic(self.ends@, self.ends@.len())),
                    None => false,
                },
            },
    {
        match self.failure {
            Some(error) => {
                if self.exits_well || self.panicked {
                    Err(error)
                } else {
                    Ok(())
                }
            },
            None => Ok(()),
        }
    }
}

proof fn lemma_prefix(exits_well: bool, ends: Seq<TaskEnd>, longer: Seq<TaskEnd>, n: nat)
    requires
        n <= ends.len(),
        ends.len() <= longer.len(),
        forall|i: int| 0 <= i < ends.len() ==> ends[i] == longer[i],
    ensures
        cancels(exits_well, ends, n) == cancels(exits_well, longer, n),
        first_failure(exits_well, ends, n) == first_failure(exits_well, longer, n),
        any_panic(ends, n) == any_panic(longer, n),
        first_failure(exits_well, ends, n) is Some ==> 0 <= first_failure(exits_well, ends, n)->0
            < n,
    decreases n,
{
    if n > 0 {
        lemma_prefix(exits_well, ends, longer, (n - 1) as nat);
    }
}

/// An upload that fails while its uploader drains cannot be reported as a success: a failed or
/// panicked task is a failure, whatever came before it.
pub proof fn failure_while_draining_is_found(exits_well: bool, ends: Seq<TaskEnd>, at: int, n: nat)
    requires
        0 <= at < n <= ends.len(),
        ends[at] is Failed || ends[at] is Panicked,
    ensures
        first_failure(exits_well, ends, n) is Some,
        cancels(exits_well, ends, n),
    decreases n,
{
    if at < n - 1 {
        failure_while_draining_is_found(exits_well, ends, at, (n - 1) as nat);
    }
}

/// Draining keeps quiet about nothing else: when every task succeeds there is no failure.
pub proof fn successful_uploads_drain(exits_well: bool, ends: Seq<TaskEnd>, n: nat)
    requires
        n <= ends.len(),
        forall|i: int| 0 <= i < n ==> #[trigger] ends[i] is Success,
    ensures
        first_failure(exits_well, ends, n) is None,
        !any_panic(ends, n),
    decreases n,
{
    if n > 0 {
        successful_uploads_drain(exits_well, ends, (n - 1) as nat);
    }
}

/// The step before the task that follows another.
pub open spec fn admission_after(step: AdmissionStep, succeeded: bool) -> AdmissionStep {
    match (step, succeeded) {
        (AdmissionStep::EarlierUploads, true) => AdmissionStep::Reserve,
        (AdmissionStep::Reserve, true) => AdmissionStep::AcquirePermit,
        (AdmissionStep::AcquirePermit, true) => AdmissionStep::CheckKillSwitch,
        (AdmissionStep::CheckKillSwitch, true) => AdmissionStep::Spawn,
        (AdmissionStep::CheckKillSwitch, false) => AdmissionStep::Killed,
        (AdmissionStep::EarlierUploads, false) => AdmissionStep::Refuse,
        (AdmissionStep::Reserve, false) => AdmissionStep::Refuse,
        (AdmissionStep::AcquirePermit, false) => AdmissionStep::Refuse,
        _ => step,
    }
}

/// A batch is uploaded exactly if the uploads before it went well, it has a place in the publication
/// order and a permit, and the generation was not killed meanwhile. One that was killed is told from one
/// that is refused, and what was decided stays decided.
pub proof fn batches_are_admitted_step_by_step(
    earlier: bool,
    reserved: bool,
    permitted: bool,
    alive: bool,
    again: bool,
)
    ensures
        ({
            let first = admission_after(AdmissionStep::EarlierUploads, earlier);
            let second = admission_after(first, reserved);
            let third = admission_after(second, permitted);
            let last = admission_after(third, alive);
            &&& last is Spawn <==> earlier && reserved && permitted && alive
            &&& last is Killed <==> earlier && reserved && permitted && !alive
            &&& last is Refuse <==> !(earlier && reserved && permitted)
            &&& earlier ==> first is Reserve
            &&& earlier && reserved ==> second is AcquirePermit
            &&& earlier && reserved && permitted ==> third is CheckKillSwitch
            &&& admission_after(last, again) == last
        }),
{
}

/// How an upload task starts.
pub open spec fn first_upload_step(lock_is_dead: bool) -> UploadStep {
    if lock_is_dead {
        UploadStep::Discard
    } else {
        UploadStep::Prepare
    }
}

/// The step of an upload task that follows another.
pub open spec fn upload_after(step: UploadStep, succeeded: bool) -> UploadStep {
    match (step, succeeded) {
        (UploadStep::Done, _) => UploadStep::Done,
        (UploadStep::Fault, _) => UploadStep::Fault,
        (_, false) => UploadStep::Fault,
        (UploadStep::Prepare, true) => UploadStep::Stage,
        (UploadStep::Stage, true) => UploadStep::Upload,
        (UploadStep::Upload, true) => UploadStep::Send,
        (UploadStep::Send, true) => UploadStep::Done,
        (UploadStep::Discard, true) => UploadStep::Done,
    }
}

/// An upload is done exactly if its splits were prepared, staged, stored and handed over, in this order:
/// they are never stored before they are staged, nor handed over before they are stored. Any failure
/// faults the generation. A task whose lock is dead does nothing but give its place back.
pub proof fn uploads_are_staged_then_stored_then_sent(
    prepared: bool,
    staged: bool,
    stored: bool,
    sent: bool,
    again: bool,
)
    ensures
        ({
            let begun = first_upload_step(false);
            let first = upload_after(begun, prepared);
            let second = upload_after(first, staged);
            let third = upload_after(second, stored);
            let last = upload_after(third, sent);
            &&& begun is Prepare
            &&& first is Stage <==> prepared
            &&& second is Upload <==> prepared && staged
            &&& third is Send <==> prepared && staged && stored
            &&& last is Done <==> prepared && staged && stored && sent
            &&& last is Fault <==> !(prepared && staged && stored && sent)
            &&& upload_after(last, again) == last
        }),
        first_upload_step(true) is Discard,
        upload_after(first_upload_step(true), sent) is Done <==> sent,
        upload_after(first_upload_step(true), sent) is Fault <==> !sent,
{
}

/// Every end of a task but success is a failure, except that a task which is cancelled while the others
/// are being cancelled is none. A failure has the text of its error.
pub proof fn only_expected_cancellations_are_no_failure(error: String, cancelling: bool)
    ensures
        !is_failure(TaskEnd::Success, cancelling),
        is_failure(TaskEnd::Failed(error), cancelling),
        is_failure(TaskEnd::Panicked(error), cancelling),
        is_failure(TaskEnd::Cancelled(error), cancelling) <==> !cancelling,
        failure_text(TaskEnd::Failed(error)) == error@,
        failure_text(TaskEnd::Panicked(error)) == error@,
        failure_text(TaskEnd::Cancelled(error)) == error@,
{
}

/// The tasks that are left are cancelled exactly if the uploader does not exit well, or a task has ended
/// otherwise than in success. A panic is known exactly if a task ended in one.
pub proof fn failures_cancel_the_others(exits_well: bool, ends: Seq<TaskEnd>, n: nat)
    requires
        n <= ends.len(),
    ensures
        cancels(exits_well, ends, n) <==> !exits_well || exists|i: int|
            0 <= i < n && !((#[trigger] ends[i]) is Success),
        any_panic(ends, n) <==> exists|i: int| 0 <= i < n && (#[trigger] ends[i]) is Panicked,
    decreases n,
{
    if n > 0 {
        failures_cancel_the_others(exits_well, ends, (n - 1) as nat);
        assert(ends[n - 1] == ends[n - 1]);
    }
}

/// The failure of a shutdown is the first one: the first task that did not succeed if the uploader exits
/// well, and otherwise the first that failed or panicked.
pub proof fn the_first_failure_counts(exits_well: bool, ends: Seq<TaskEnd>, n: nat)
    requires
        n <= ends.len(),
    ensures
        first_failure(exits_well, ends, n) matches Some(i) ==> {
            &&& 0 <= i < n
            &&& exits_well ==> !(ends[i] is Success) && forall|j: int|
                0 <= j < i ==> (#[trigger] ends[j]) is Success
            &&& !exits_well ==> (ends[i] is Failed || ends[i] is Panicked) && forall|j: int|
                0 <= j < i ==> (#[trigger] ends[j]) is Success || ends[j] is Cancelled
        },
        first_failure(exits_well, ends, n) is None ==> forall|j: int|
            0 <= j < n ==> (#[trigger] ends[j]) is Success || (!exits_well && ends[j] is Cancelled),
    decreases n,
{
    if n > 0 {
        the_first_failure_counts(exits_well, ends, (n - 1) as nat);
        failures_cancel_the_others(exits_well, ends, (n - 1) as nat);
    }
}

/// The uploaders of merges and of deletions share one budget, and the indexing uploader has its own.
pub proof fn merging_and_deleting_share_a_budget(budget: UploadBudget)
    ensures
        budget.capacity(UploaderType::IndexUploader) == budget.indexing,
        budget.capacity(UploaderType::MergeUploader) == budget.merging,
        budget.capacity(UploaderType::DeleteUploader) == budget.merging,
        budget.label(UploaderType::IndexUploader) == budget.indexing_label@,
        budget.label(UploaderType::MergeUploader) == budget.merging_label@,
        budget.label(UploaderType::DeleteUploader) == budget.merging_label@,
{
}

/// Uploaders of different roles have different names.
pub proof fn roles_have_names_of_their_own(role: UploaderType, other: UploaderType)
    ensures
        role_name(role) == role_name(other) <==> role == other,
{
    reveal_strlit("IndexUploader");
    reveal_strlit("MergeUploader");
    reveal_strlit("DeleteUploader");
    assert("IndexUploader"@[0] == 'I');
    assert("MergeUploader"@[0] == 'M');
    assert("DeleteUploader"@[0] == 'D');
}

} // verus!
