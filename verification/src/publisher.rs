//! Engine-independent publication of splits. Engines supply metastore operations and merge
//! feedback; the decisions about locks, retries, failures and notifications are taken here.

use vstd::prelude::*;

verus! {

/// What a publisher has done.
#[derive(Clone, Copy, Debug, PartialEq, Eq, Structural)]
pub struct PublisherCounters {
    pub num_published_splits: u64,
    pub num_replace_operations: u64,
    pub num_empty_splits: u64,
}

impl Default for PublisherCounters {
    fn default() -> (counters: Self)
        ensures
            counters.num_published_splits == 0,
            counters.num_replace_operations == 0,
            counters.num_empty_splits == 0,
    {
        PublisherCounters {
            num_published_splits: 0,
            num_replace_operations: 0,
            num_empty_splits: 0,
        }
    }
}

/// The common publication envelope. `D` is a checkpoint delta. The merge task is kept alive
/// through metastore publication, source notification and planner feedback: dropping it earlier
/// can release in-flight merge inventory and permits.
pub struct SplitUpdate<S, D, T> {
    pub index_uid: String,
    pub new_splits: Vec<S>,
    pub replaced_split_ids: Vec<String>,
    pub checkpoint_delta_opt: Option<D>,
    pub merge_task: Option<T>,
}

/// What to do about a publication before the metastore is asked.
#[derive(Debug)]
pub enum PublishStart {
    /// Its publish lock is dead: drop it.
    Skip,
    /// It is not one of the publisher's: fail.
    Reject(String),
    /// Publish it.
    Publish,
}

/// Decides about a publication: one whose lock is dead is dropped without a look at it.
pub fn begin_publish(lock_is_alive: bool, validated: Result<(), String>) -> (start: PublishStart)
    ensures
        start == if !lock_is_alive {
            PublishStart::Skip
        } else {
            match validated {
                Ok(()) => PublishStart::Publish,
                Err(error) => PublishStart::Reject(error),
            }
        },
        start == publish_start(lock_is_alive, validated),
{
    if !lock_is_alive {
        return PublishStart::Skip;
    }
    match validated {
        Ok(()) => PublishStart::Publish,
        Err(error) => PublishStart::Reject(error),
    }
}

/// What is done about a publication before the metastore is asked.
pub open spec fn publish_start(lock_is_alive: bool, validated: Result<(), String>) -> PublishStart {
    match (lock_is_alive, validated) {
        (false, _) => PublishStart::Skip,
        (true, Ok(())) => PublishStart::Publish,
        (true, Err(error)) => PublishStart::Reject(error),
    }
}

/// The metastore is asked exactly for a publication whose lock is alive and that is valid. A dead
/// lock drops it, before anything else is looked at; an invalid one is rejected for its reason.
pub proof fn only_valid_publications_with_a_lock_are_published(
    lock_is_alive: bool,
    validated: Result<(), String>,
)
    ensures
        publish_start(lock_is_alive, validated) is Publish <==> lock_is_alive && validated is Ok,
        publish_start(lock_is_alive, validated) is Skip <==> !lock_is_alive,
        publish_start(lock_is_alive, validated) matches PublishStart::Reject(reason)
            ==> lock_is_alive && validated == Err::<(), String>(reason),
{
}

/// The seconds between an attempt to publish and the next, if there is one.
pub open spec fn publish_delay_secs(attempt: nat) -> Option<u64> {
    if attempt == 0 {
        Some(1)
    } else if attempt == 1 {
        Some(3)
    } else {
        None
    }
}

/// What the metastore replies to a publication.
#[derive(Debug)]
pub enum PublishReply {
    Published,
    /// The publish token was revoked.
    InvalidPublishToken(String),
    /// It failed otherwise.
    Failed(String),
}

/// What follows an attempt to publish.
#[derive(Debug)]
pub enum AttemptStep {
    Published,
    /// Load the token again after a wait, and try once more.
    Retry { delay_secs: u64 },
    /// Give up.
    GiveUp(PublishFailure),
}

/// A publication that failed.
#[derive(Debug)]
pub struct PublishFailure {
    pub invalid_publish_token: bool,
    pub error: String,
}

/// The step that follows an attempt: an assignment can refresh the token while an attempt is in
/// flight, so an attempt that fails for its token is repeated, while there is another to come.
pub open spec fn attempt_step(attempt: nat, reply: PublishReply) -> AttemptStep {
    match reply {
        PublishReply::Published => AttemptStep::Published,
        PublishReply::Failed(error) => AttemptStep::GiveUp(
            (PublishFailure { invalid_publish_token: false, error }),
        ),
        PublishReply::InvalidPublishToken(error) => match publish_delay_secs(attempt) {
            Some(delay_secs) => AttemptStep::Retry { delay_secs },
            None => AttemptStep::GiveUp((PublishFailure { invalid_publish_token: true, error })),
        },
    }
}

/// Decides what follows the attempt with this number, counted from zero.
pub fn after_attempt(attempt: usize, reply: PublishReply) -> (step: AttemptStep)
    ensures
        step == attempt_step(attempt as nat, reply),
{
    match reply {
        PublishReply::Published => AttemptStep::Published,
        PublishReply::Failed(error) => AttemptStep::GiveUp(
            PublishFailure { invalid_publish_token: false, error },
        ),
        PublishReply::InvalidPublishToken(error) => {
            if attempt == 0 {
                AttemptStep::Retry { delay_secs: 1 }
            } else if attempt == 1 {
                AttemptStep::Retry { delay_secs: 3 }
            } else {
                AttemptStep::GiveUp(PublishFailure { invalid_publish_token: true, error })
            }
        },
    }
}

/// Publication ends: after at most three attempts, whatever the metastore replies.
pub proof fn publication_is_tried_at_most_three_times(attempt: nat, reply: PublishReply)
    requires
        attempt_step(attempt, reply) is Retry,
    ensures
        attempt + 1 < 3,
{
}

/// Only a revoked token is worth another attempt.
pub proof fn other_failures_are_final(attempt: nat, reply: PublishReply)
    requires
        reply is Failed,
    ensures
        attempt_step(attempt, reply) is GiveUp,
{
}

/// What follows a publication that failed.
#[derive(Debug)]
pub enum FailureStep {
    /// Kill the publish lock, so that the source does not publish its final flush on a revoked
    /// token, and let the source exit with success.
    StopSource,
    /// Fail with this error.
    Fail(String),
}

/// Whom a publication is told to. These notifications are advisory: the commit is already durable,
/// and a recipient that is shutting down has a successor which reloads it.
#[derive(Clone, Copy, Debug, PartialEq, Eq, Structural)]
pub struct Feedback {
    /// The source may truncate up to the checkpoint.
    pub suggest_truncate: bool,
    /// The merge planner learns of the new splits.
    pub notify_planner: bool,
}

/// A publisher, with where it sends its feedback: `M` reaches a merge planner, `S` a source.
pub struct Publisher<M, S> {
    pub name: String,
    /// How many publications may wait; unbounded where there is no number.
    pub queue_capacity: Option<usize>,
    pub merge_planner: Option<M>,
    pub source: Option<S>,
    pub counters: PublisherCounters,
}

impl<M, S> Publisher<M, S> {
    /// A publisher that has done nothing yet.
    pub fn for_engine(
        name: String,
        queue_capacity: Option<usize>,
        merge_planner: Option<M>,
        source: Option<S>,
    ) -> (publisher: Self)
        ensures
            publisher.name == name,
            publisher.queue_capacity == queue_capacity,
            publisher.merge_planner == merge_planner,
            publisher.source == source,
            publisher.counters == (PublisherCounters {
                num_published_splits: 0,
                num_replace_operations: 0,
                num_empty_splits: 0,
            }),
    {
        Publisher {
            name,
            queue_capacity,
            merge_planner,
            source,
            counters: PublisherCounters::default(),
        }
    }

    /// Installs the feedback to a merge planner.
    pub fn with_merge_planner(self, merge_planner: M) -> (publisher: Self)
        ensures
            publisher == (Publisher { merge_planner: Some(merge_planner), ..self }),
    {
        let mut publisher = self;
        publisher.merge_planner = Some(merge_planner);
        publisher
    }

    /// Cuts the feedback to the merge planner, so a merge pipeline can finish draining.
    pub fn disconnect_merge_planner(&mut self)
        ensures
            *final(self) == (Publisher { merge_planner: None::<M>, ..*old(self) }),
    {
        self.merge_planner = None;
    }

    /// Decides about a publication that failed: a source whose token was revoked is stopped.
    pub fn after_failure(&self, failure: PublishFailure) -> (step: FailureStep)
        ensures
            match step {
                FailureStep::StopSource => failure.invalid_publish_token && self.source is Some,
                FailureStep::Fail(error) => !(failure.invalid_publish_token && self.source is Some)
                    && error@ == "failed to publish splits: "@ + failure.error@,
            },
    {
        if failure.invalid_publish_token && self.source.is_some() {
            return FailureStep::StopSource;
        }
        let mut error = "failed to publish splits: ".to_owned();
        error.append(failure.error.as_str());
        FailureStep::Fail(error)
    }

    /// Counts a publication that the metastore took, and says whom to tell.
    pub fn published<Split, D, T>(&mut self, update: &SplitUpdate<Split, D, T>) -> (feedback: Feedback)
        requires
            old(self).counters.num_published_splits < u64::MAX,
            old(self).counters.num_replace_operations < u64::MAX,
            old(self).counters.num_empty_splits < u64::MAX,
        ensures
            feedback.suggest_truncate == (old(self).source is Some
                && update.checkpoint_delta_opt is Some),
            feedback.notify_planner == (old(self).merge_planner is Some && update.new_splits@.len()
                > 0),
            final(self).name == old(self).name,
            final(self).queue_capacity == old(self).queue_capacity,
            final(self).merge_planner == old(self).merge_planner,
            final(self).source == old(self).source,
            final(self).counters == if update.new_splits@.len() == 0 {
                PublisherCounters {
                    num_empty_splits: (old(self).counters.num_empty_splits + 1) as u64,
                    ..old(self).counters
                }
            } else if update.replaced_split_ids@.len() > 0 {
                PublisherCounters {
                    num_replace_operations: (old(self).counters.num_replace_operations + 1) as u64,
                    ..old(self).counters
                }
            } else {
                PublisherCounters {
                    num_published_splits: (old(self).counters.num_published_splits + 1) as u64,
                    ..old(self).counters
                }
            },
            final(self).counters == counted_publication(
                old(self).counters,
                update.new_splits@.len(),
                update.replaced_split_ids@.len(),
            ),
    {
        let empty = update.new_splits.len() == 0;
        let feedback = Feedback {
            suggest_truncate: self.source.is_some() && update.checkpoint_delta_opt.is_some(),
            notify_planner: !empty && self.merge_planner.is_some(),
        };
        if empty {
            self.counters.num_empty_splits = self.counters.num_empty_splits + 1;
        } else if update.replaced_split_ids.len() > 0 {
            self.counters.num_replace_operations = self.counters.num_replace_operations + 1;
        } else {
            self.counters.num_published_splits = self.counters.num_published_splits + 1;
        }
        feedback
    }
}

/// The counters with one more publication.
pub open spec fn counted_publication(
    counters: PublisherCounters,
    num_new: nat,
    num_replaced: nat,
) -> PublisherCounters {
    if num_new == 0 {
        PublisherCounters {
            num_empty_splits: (counters.num_empty_splits + 1) as u64,
            ..counters
        }
    } else if num_replaced > 0 {
        PublisherCounters {
            num_replace_operations: (counters.num_replace_operations + 1) as u64,
            ..counters
        }
    } else {
        PublisherCounters {
            num_published_splits: (counters.num_published_splits + 1) as u64,
            ..counters
        }
    }
}

/// Every publication is counted once: as empty if it brings no split, as a replacement if it brings
/// splits in place of others, and as a publication if it only brings splits.
pub proof fn publications_are_counted_once(
    counters: PublisherCounters,
    num_new: nat,
    num_replaced: nat,
)
    requires
        counters.num_published_splits < u64::MAX,
        counters.num_replace_operations < u64::MAX,
        counters.num_empty_splits < u64::MAX,
    ensures
        ({
            let after = counted_publication(counters, num_new, num_replaced);
            let empty = after.num_empty_splits - counters.num_empty_splits;
            let replaced = after.num_replace_operations - counters.num_replace_operations;
            let published = after.num_published_splits - counters.num_published_splits;
            &&& empty + replaced + published == 1
            &&& empty >= 0 && replaced >= 0 && published >= 0
            &&& empty == 1 <==> num_new == 0
            &&& replaced == 1 <==> num_new > 0 && num_replaced > 0
        }),
{
}

/// A publication that the metastore took is done. One whose token was refused is tried again after
/// one second, then after three, and then given up; any other failure is final at once. What is given
/// up tells whether the token was the reason, and the error of the metastore.
pub proof fn only_refused_tokens_are_tried_again(attempt: nat, reply: PublishReply)
    ensures
        attempt_step(attempt, reply) is Published <==> reply is Published,
        attempt_step(attempt, reply) is Retry <==> reply is InvalidPublishToken && attempt < 2,
        attempt_step(attempt, reply) matches AttemptStep::Retry { delay_secs } ==> delay_secs == 1
            + 2 * attempt,
        attempt_step(attempt, reply) matches AttemptStep::GiveUp(failure) ==> (
        failure.invalid_publish_token <==> reply is InvalidPublishToken) && (reply
            == PublishReply::Failed(failure.error) || reply == PublishReply::InvalidPublishToken(
            failure.error,
        )),
{
}

} // verus!
