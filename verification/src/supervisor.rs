//! One lifecycle for indexing and merge pipelines, independent of the storage engine.
//!
//! Engines build actor graphs and report counters. The supervisor decides about generations,
//! health, retries and terminal states. A graph is installed only after a successful spawn.

use std::time::Duration;

use vstd::arithmetic::power2::pow2;
use vstd::prelude::*;

use crate::path;
#[allow(unused_imports)]
use crate::pipeline;
#[allow(unused_imports)]
use crate::pipeline::SourceStart;
use crate::pipeline::{Assignment, SourcePipeline};

verus! {

/// The time between two looks at a running pipeline, in seconds.
pub const SUPERVISE_INTERVAL_SECS: u64 = 1;

/// The length of a duration, in nanoseconds.
pub uninterp spec fn duration_nanos(duration: Duration) -> nat;

/// `std::time::Duration::from_secs`: a duration of that many whole seconds.
#[verifier::external_body]
fn duration_from_secs(secs: u64) -> (duration: Duration)
    ensures
        duration_nanos(duration) == secs * 1_000_000_000,
{
    Duration::from_secs(secs)
}

/// The seconds to wait before a retry: a power of two, at most ten minutes.
pub open spec fn retry_delay_secs(retry_count: nat) -> nat {
    if retry_count < 10 {
        pow2(retry_count)
    } else {
        600
    }
}

fn power_of_two(exponent: u64) -> (power: u64)
    requires
        exponent < 10,
    ensures
        power == pow2(exponent as nat),
        power <= 512,
{
    proof {
        vstd::arithmetic::power2::lemma2_to64();
    }
    let mut power: u64 = 1;
    let mut i: u64 = 0;
    while i < exponent
        invariant
            i <= exponent < 10,
            power == pow2(i as nat),
            power <= 512,
            pow2(9) == 512,
        decreases exponent - i,
    {
        proof {
            vstd::arithmetic::power2::lemma_pow2_unfold((i + 1) as nat);
            if i + 1 < 9 {
                vstd::arithmetic::power2::lemma_pow2_strictly_increases((i + 1) as nat, 9);
            }
        }
        power = power * 2;
        i = i + 1;
    }
    power
}

/// Exponential backoff in seconds, capped at ten minutes without overflow.
pub fn wait_duration_before_retry(retry_count: usize) -> (wait: Duration)
    ensures
        duration_nanos(wait) == retry_delay_secs(retry_count as nat) * 1_000_000_000,
{
    let secs: u64 = if retry_count < 10 {
        power_of_two(retry_count as u64)
    } else {
        600
    };
    duration_from_secs(secs)
}

/// The waits double until they reach ten minutes, and stay there.
pub proof fn retry_delays_double_up_to_the_limit(retry_count: nat)
    ensures
        retry_delay_secs(0) == 1,
        retry_count + 1 < 10 ==> retry_delay_secs(retry_count + 1) == 2 * retry_delay_secs(
            retry_count,
        ),
        retry_count >= 10 ==> retry_delay_secs(retry_count) == 600,
        1 <= retry_delay_secs(retry_count) <= retry_delay_secs(retry_count + 1) <= 600,
{
    vstd::arithmetic::power2::lemma2_to64();
    if retry_count + 1 < 10 {
        vstd::arithmetic::power2::lemma_pow2_unfold(retry_count + 1);
        if retry_count + 1 < 9 {
            vstd::arithmetic::power2::lemma_pow2_strictly_increases(retry_count + 1, 9);
        }
    }
    vstd::arithmetic::power2::lemma_pow2_pos(retry_count);
}

// ---- Actors of a generation ----

/// How an actor, or a whole generation, is doing.
#[derive(Clone, Copy, Debug, PartialEq, Eq, Structural)]
pub enum Health {
    /// It runs and makes progress.
    Healthy,
    /// It failed, or stopped making progress.
    FailureOrUnhealthy,
    /// It completed.
    Success,
}

/// The health of a generation: it failed if one of its actors did, it completed if all of them
/// did, and it runs otherwise.
pub open spec fn overall_health(actors: Seq<Health>) -> Health {
    if actors.contains(Health::FailureOrUnhealthy) {
        Health::FailureOrUnhealthy
    } else if actors.contains(Health::Healthy) {
        Health::Healthy
    } else {
        Health::Success
    }
}

/// Accounts for every actor in one pipeline generation, and for the time by which they must have
/// made progress. Times are in milliseconds of some clock.
#[derive(Clone, Copy, Debug, PartialEq, Eq, Structural)]
pub struct PipelineActors {
    pub num_actors: usize,
    pub next_progress_check: u64,
}

impl PipelineActors {
    /// Whether the actors must have made progress by now.
    pub open spec fn progress_due(self, now: u64) -> bool {
        now >= self.next_progress_check
    }

    /// No actor yet.
    pub fn new(now: u64, heartbeat: u64) -> (actors: Self)
        requires
            now + heartbeat <= u64::MAX,
        ensures
            actors.num_actors == 0,
            actors.next_progress_check == now + heartbeat,
    {
        PipelineActors { num_actors: 0, next_progress_check: now + heartbeat }
    }

    /// Registers an actor that was spawned.
    pub fn spawn(&mut self)
        requires
            old(self).num_actors < usize::MAX,
        ensures
            final(self).num_actors == old(self).num_actors + 1,
            final(self).next_progress_check == old(self).next_progress_check,
    {
        self.num_actors = self.num_actors + 1;
    }

    /// Whether no actor was spawned.
    pub fn is_empty(&self) -> (empty: bool)
        ensures
            empty == (self.num_actors == 0),
    {
        self.num_actors == 0
    }

    /// Construction can be slow. Gives even the last stage a full heartbeat after the graph is
    /// installed, rather than charging spawn time against its progress budget.
    pub fn start_supervising(&mut self, now: u64, heartbeat: u64)
        requires
            now + heartbeat <= u64::MAX,
        ensures
            final(self).num_actors == old(self).num_actors,
            final(self).next_progress_check == now + heartbeat,
    {
        self.next_progress_check = now + heartbeat;
    }

    /// Whether progress is to be checked now. If so, the next check comes a heartbeat later.
    pub fn check_progress(&mut self, now: u64, heartbeat: u64) -> (check: bool)
        requires
            now + heartbeat <= u64::MAX,
        ensures
            check == old(self).progress_due(now),
            final(self).num_actors == old(self).num_actors,
            final(self).next_progress_check == if check {
                (now + heartbeat) as u64
            } else {
                old(self).next_progress_check
            },
    {
        let check = now >= self.next_progress_check;
        if check {
            self.next_progress_check = now + heartbeat;
        }
        check
    }

    /// The health of the generation, from that of its actors.
    pub fn health(&self, actors: &Vec<Health>) -> (health: Health)
        requires
            actors@.len() == self.num_actors,
        ensures
            health == overall_health(actors@),
    {
        let mut health = Health::Success;
        let mut i: usize = 0;
        assert(actors@.take(0) =~= Seq::<Health>::empty());
        while i < actors.len()
            invariant
                i <= actors@.len(),
                health == overall_health(actors@.take(i as int)),
            decreases actors@.len() - i,
        {
            let actor = actors[i];
            proof {
                let before = actors@.take(i as int);
                let after = actors@.take(i + 1);
                assert(after =~= before.push(actor));
                assert(after[i as int] == actor);
                assert forall|h: Health| before.contains(h) implies after.contains(h) by {
                    let j = choose|j: int| 0 <= j < before.len() && before[j] == h;
                    assert(after[j] == h);
                }
                assert forall|h: Health| after.contains(h) && h != actor implies before.contains(
                    h,
                ) by {
                    let j = choose|j: int| 0 <= j < after.len() && after[j] == h;
                    assert(before[j] == h);
                }
            }
            if actor == Health::FailureOrUnhealthy {
                health = Health::FailureOrUnhealthy;
            } else if actor == Health::Healthy && health == Health::Success {
                health = Health::Healthy;
            }
            i = i + 1;
        }
        assert(actors@.take(actors@.len() as int) =~= actors@);
        health
    }
}

/// While actors are constructed no progress is asked of them: a generation that was installed at
/// `start` is not due for a check before a heartbeat has passed.
pub proof fn construction_time_is_not_charged(
    actors: PipelineActors,
    start: u64,
    heartbeat: u64,
    now: u64,
)
    requires
        actors.next_progress_check == start + heartbeat,
        start <= now < start + heartbeat,
    ensures
        !actors.progress_due(now),
{
}

// ---- Statistics and pipelines ----

/// Common lifecycle fields in the externally observable statistics.
pub trait PipelineStatistics: View + Sized {
    /// Statistics before anything was counted.
    spec fn nothing_yet() -> Self::V;

    /// Counters with these lifecycle fields.
    spec fn with_lifecycle(counters: Self::V, generation: usize, spawn_attempts: usize) -> Self::V;

    /// Empty statistics.
    fn empty() -> (statistics: Self)
        ensures
            statistics@ == Self::nothing_yet(),
    ;

    /// The same statistics once more.
    fn duplicate(&self) -> (statistics: Self)
        ensures
            statistics@ == self@,
    ;

    /// Sets the lifecycle fields.
    fn set_lifecycle(&mut self, generation: usize, spawn_attempts: usize)
        ensures
            final(self)@ == Self::with_lifecycle(old(self)@, generation, spawn_attempts),
    ;
}

/// The engine-specific part of a pipeline.
pub trait Pipeline: Sized {
    type Statistics: PipelineStatistics;

    /// Counters with the pipeline's dynamic metadata.
    spec fn with_metadata(&self, counters: <Self::Statistics as View>::V) -> <Self::Statistics as View>::V;

    /// The milliseconds between a failure and the next generation.
    spec fn restart_delay(&self) -> u64;

    /// The milliseconds between a failure and the next generation.
    fn restart_delay_millis(&self) -> (millis: u64)
        ensures
            millis == self.restart_delay(),
    ;

    /// Dynamic metadata (e.g. shard assignments) must be visible even while waiting to respawn.
    fn update_metadata(&self, statistics: &mut Self::Statistics)
        ensures
            final(statistics)@ == self.with_metadata(old(statistics)@),
    ;
}

/// A message that asks a stage of a merge graph to come to an end.
#[derive(Clone, Copy, Debug, PartialEq, Eq, Structural)]
pub enum DrainMessage {
    /// To the publisher: stop telling the planner of new splits.
    DisconnectMergePlanner,
    /// To the planner: run the final merges, then quit.
    RunFinalizeMergePolicyAndQuit,
}

/// Only merge graphs implement this capability. Draining disables restarts before breaking
/// feedback and asking the planner to finalize; it never cancels an in-flight merge.
pub trait DrainablePipeline: Pipeline {
    /// The messages that drain the graph, in the order in which they are sent.
    fn drain(&self) -> (messages: Vec<DrainMessage>)
        ensures
            messages@ == seq![
                DrainMessage::DisconnectMergePlanner,
                DrainMessage::RunFinalizeMergePolicyAndQuit,
            ],
    ;
}

/// Asks a merge pipeline to finish what it has begun, and to stop.
#[derive(Clone, Copy, Debug)]
pub struct FinishPendingMergesAndShutdownPipeline;

// ---- The supervisor ----

/// How an attempt to spawn a generation went.
pub enum SpawnOutcome<S> {
    /// The graph runs. With its actors comes what they and earlier generations have counted.
    Started(PipelineActors, S),
    /// The metastore no longer knows the index. All stages that were spawned have been stopped.
    Deleted,
    /// Spawning failed otherwise. All stages that were spawned have been stopped.
    Failed,
}

/// What the supervisor does next.
#[derive(Debug, PartialEq, Eq)]
pub enum SupervisorStep {
    /// Wait for the next message.
    Continue,
    /// Try to spawn a generation after this wait, as the given retry.
    Retry { retry_count: usize, wait: Duration },
    /// Spawn a generation after the pipeline's restart delay.
    Restart { delay_millis: u64 },
    /// Stop the generation's actors, and report what they counted.
    Stop,
    /// Send the drain messages.
    Drain,
    /// Exit with success.
    Exit,
    /// Exit with the error that the pipeline spawned no actors.
    NoActors,
    /// Exit with the error that the pipeline failed while draining.
    FailedWhileDraining,
}

/// The error text of a step that ends the supervisor in failure.
pub fn exit_error(step: &SupervisorStep) -> (text: Option<String>)
    ensures
        match text {
            Some(text) => {
                ||| *step is NoActors && text@ == "pipeline spawned no actors"@
                ||| *step is FailedWhileDraining && text@ == "pipeline failed while draining"@
            },
            None => !(*step is NoActors) && !(*step is FailedWhileDraining),
        },
{
    match step {
        SupervisorStep::NoActors => Some("pipeline spawned no actors".to_owned()),
        SupervisorStep::FailedWhileDraining => Some("pipeline failed while draining".to_owned()),
        _ => None,
    }
}

/// Supervises the generations of a pipeline.
pub struct PipelineSupervisor<P: Pipeline> {
    pub pipeline: P,
    /// The actors of the generation that runs.
    pub running: Option<PipelineActors>,
    /// The statistics of the generations that have ended.
    pub previous: P::Statistics,
    pub statistics: P::Statistics,
    pub generation: usize,
    pub spawn_attempts: usize,
    pub draining: bool,
}

impl<P: Pipeline> PipelineSupervisor<P> {
    /// Every generation came of an attempt.
    pub open spec fn well_formed(self) -> bool {
        &&& self.generation <= self.spawn_attempts
        &&& self.running is Some ==> self.generation > 0
    }

    /// Whether a request to spawn is followed: a pipeline that runs is not spawned twice, and one
    /// that drains never again.
    pub open spec fn spawns(self) -> bool {
        !self.draining && self.running is None
    }

    /// The statistics that are shown once `counters` were gathered.
    pub open spec fn shown(self, counters: <P::Statistics as View>::V) -> <P::Statistics as View>::V {
        self.pipeline.with_metadata(
            P::Statistics::with_lifecycle(counters, self.generation, self.spawn_attempts),
        )
    }

    /// A supervisor before its first generation.
    pub fn from_pipeline(pipeline: P) -> (supervisor: Self)
        ensures
            supervisor.well_formed(),
            supervisor.pipeline == pipeline,
            supervisor.running is None,
            supervisor.previous@ == P::Statistics::nothing_yet(),
            supervisor.statistics@ == pipeline.with_metadata(P::Statistics::nothing_yet()),
            supervisor.generation == 0,
            supervisor.spawn_attempts == 0,
            !supervisor.draining,
    {
        let mut statistics = P::Statistics::empty();
        pipeline.update_metadata(&mut statistics);
        PipelineSupervisor {
            pipeline,
            running: None,
            previous: P::Statistics::empty(),
            statistics,
            generation: 0,
            spawn_attempts: 0,
            draining: false,
        }
    }

    /// Refreshes the statistics. A generation that runs comes with what it and the earlier ones
    /// have counted.
    pub fn observe(&mut self, observed: Option<P::Statistics>)
        requires
            observed is Some == old(self).running is Some,
        ensures
            final(self).statistics@ == old(self).shown(
                match observed {
                    Some(observed) => observed@,
                    None => old(self).statistics@,
                },
            ),
            final(self).pipeline == old(self).pipeline,
            final(self).running == old(self).running,
            final(self).previous == old(self).previous,
            final(self).generation == old(self).generation,
            final(self).spawn_attempts == old(self).spawn_attempts,
            final(self).draining == old(self).draining,
    {
        if let Some(observed) = observed {
            self.statistics = observed;
        }
        let generation: usize = self.generation;
        let spawn_attempts: usize = self.spawn_attempts;
        self.statistics.set_lifecycle(generation, spawn_attempts);
        self.pipeline.update_metadata(&mut self.statistics);
    }

    /// Closes a generation whose actors have stopped: what they counted, finalizers included, is
    /// what later generations add to.
    pub fn stop(&mut self, observed: Option<P::Statistics>)
        requires
            old(self).well_formed(),
            observed is Some == old(self).running is Some,
        ensures
            final(self).well_formed(),
            final(self).statistics@ == old(self).shown(
                match observed {
                    Some(observed) => observed@,
                    None => old(self).statistics@,
                },
            ),
            final(self).previous@ == final(self).statistics@,
            final(self).running is None,
            final(self).pipeline == old(self).pipeline,
            final(self).generation == old(self).generation,
            final(self).spawn_attempts == old(self).spawn_attempts,
            final(self).draining == old(self).draining,
    {
        self.observe(observed);
        self.previous = self.statistics.duplicate();
        self.running = None;
    }

    /// Counts an attempt to spawn a generation, unless the request is not followed.
    pub fn begin_spawn(&mut self) -> (begun: bool)
        requires
            old(self).well_formed(),
            old(self).spawn_attempts < usize::MAX,
        ensures
            final(self).well_formed(),
            begun == old(self).spawns(),
            final(self).spawn_attempts == old(self).spawn_attempts + if begun {
                1int
            } else {
                0int
            },
            final(self).pipeline == old(self).pipeline,
            final(self).running == old(self).running,
            final(self).previous == old(self).previous,
            final(self).statistics == old(self).statistics,
            final(self).generation == old(self).generation,
            final(self).draining == old(self).draining,
    {
        if self.draining || self.running.is_some() {
            return false;
        }
        self.spawn_attempts = self.spawn_attempts + 1;
        true
    }

    /// Installs a generation that was spawned, stops for good where the index is gone, and asks
    /// for a retry, after the wait that goes with the number of retries, where spawning failed
    /// otherwise.
    pub fn end_spawn(
        &mut self,
        outcome: SpawnOutcome<P::Statistics>,
        retry_count: usize,
        now: u64,
        heartbeat: u64,
    ) -> (step: SupervisorStep)
        requires
            old(self).well_formed(),
            old(self).spawns(),
            old(self).generation < old(self).spawn_attempts,
            retry_count < usize::MAX,
            now + heartbeat <= u64::MAX,
        ensures
            final(self).well_formed(),
            final(self).pipeline == old(self).pipeline,
            final(self).previous == old(self).previous,
            final(self).spawn_attempts == old(self).spawn_attempts,
            final(self).draining == old(self).draining,
            match outcome {
                SpawnOutcome::Started(actors, observed) if actors.num_actors > 0 => {
                    &&& step is Continue
                    &&& final(self).generation == old(self).generation + 1
                    &&& final(self).running == Some(
                        (PipelineActors {
                            num_actors: actors.num_actors,
                            next_progress_check: (now + heartbeat) as u64,
                        }),
                    )
                    &&& final(self).statistics@ == final(self).shown(observed@)
                },
                SpawnOutcome::Started(_, _) => {
                    &&& step is NoActors
                    &&& final(self).generation == old(self).generation
                    &&& final(self).running is None
                    &&& final(self).statistics == old(self).statistics
                },
                SpawnOutcome::Deleted => {
                    &&& step is Exit
                    &&& final(self).generation == old(self).generation
                    &&& final(self).running is None
                    &&& final(self).statistics == old(self).statistics
                },
                SpawnOutcome::Failed => {
                    &&& step matches SupervisorStep::Retry { retry_count: retry, wait }
                        && retry == retry_count + 1 && duration_nanos(wait) == retry_delay_secs(
                        retry as nat,
                    ) * 1_000_000_000
                    &&& final(self).generation == old(self).generation
                    &&& final(self).running is None
                    &&& final(self).statistics@ == old(self).shown(old(self).statistics@)
                },
            },
    {
        match outcome {
            SpawnOutcome::Started(actors, observed) => {
                let mut actors = actors;
                if actors.is_empty() {
                    return SupervisorStep::NoActors;
                }
                self.generation = self.generation + 1;
                actors.start_supervising(now, heartbeat);
                self.running = Some(actors);
                self.observe(Some(observed));
                SupervisorStep::Continue
            },
            SpawnOutcome::Deleted => SupervisorStep::Exit,
            SpawnOutcome::Failed => {
                self.observe(None);
                let retry_count: usize = retry_count + 1;
                SupervisorStep::Retry { retry_count, wait: wait_duration_before_retry(retry_count) }
            },
        }
    }

    /// Looks at the health of the generation that runs, if one does.
    pub fn supervise(&self, health: Health) -> (step: SupervisorStep)
        ensures
            step == if self.running is None || health == Health::Healthy {
                SupervisorStep::Continue
            } else if health == Health::Success {
                SupervisorStep::Exit
            } else {
                SupervisorStep::Stop
            },
            step == supervised(self.running is Some, health),
    {
        if self.running.is_none() {
            return SupervisorStep::Continue;
        }
        match health {
            Health::Healthy => SupervisorStep::Continue,
            Health::Success => SupervisorStep::Exit,
            Health::FailureOrUnhealthy => SupervisorStep::Stop,
        }
    }

    /// Closes a generation that failed. Another one follows, unless the pipeline drains.
    pub fn fail(&mut self, observed: P::Statistics) -> (step: SupervisorStep)
        requires
            old(self).well_formed(),
            old(self).running is Some,
        ensures
            final(self).well_formed(),
            step == if old(self).draining {
                SupervisorStep::FailedWhileDraining
            } else {
                (SupervisorStep::Restart { delay_millis: old(self).pipeline.restart_delay() })
            },
            step == after_failure(old(self).draining, old(self).pipeline.restart_delay()),
            final(self).statistics@ == old(self).shown(observed@),
            final(self).previous@ == final(self).statistics@,
            final(self).running is None,
            final(self).pipeline == old(self).pipeline,
            final(self).generation == old(self).generation,
            final(self).spawn_attempts == old(self).spawn_attempts,
            final(self).draining == old(self).draining,
    {
        self.stop(Some(observed));
        if self.draining {
            return SupervisorStep::FailedWhileDraining;
        }
        SupervisorStep::Restart { delay_millis: self.pipeline.restart_delay_millis() }
    }
}

impl<P: DrainablePipeline> PipelineSupervisor<P> {
    /// Begins to drain. Without a generation there is nothing to finish; a second request changes
    /// nothing.
    pub fn finish_pending_merges(&mut self, _message: FinishPendingMergesAndShutdownPipeline) -> (step:
        SupervisorStep)
        requires
            old(self).well_formed(),
        ensures
            final(self).well_formed(),
            final(self).draining,
            step == if old(self).draining {
                SupervisorStep::Continue
            } else if old(self).running is None {
                SupervisorStep::Exit
            } else {
                SupervisorStep::Drain
            },
            step == draining_step(old(self).draining, old(self).running is Some),
            final(self).pipeline == old(self).pipeline,
            final(self).running == old(self).running,
            final(self).previous == old(self).previous,
            final(self).statistics == old(self).statistics,
            final(self).generation == old(self).generation,
            final(self).spawn_attempts == old(self).spawn_attempts,
    {
        if self.draining {
            return SupervisorStep::Continue;
        }
        self.draining = true;
        if self.running.is_none() {
            return SupervisorStep::Exit;
        }
        SupervisorStep::Drain
    }
}

impl<P: SourcePipeline> PipelineSupervisor<P> {
    /// Saves an assignment of shards, which later generations start with, and shows it. Whether
    /// the source that runs could be told of it makes no difference.
    pub fn assign_shards(&mut self, assignment: &Assignment, observed: Option<P::Statistics>)
        requires
            old(self).well_formed(),
            observed is Some == old(self).running is Some,
        ensures
            final(self).well_formed(),
            final(self).pipeline.assigned_shards() == path::texts(assignment.shard_ids@),
            final(self).pipeline.assigned_plan() == assignment.indexing_plan_id@,
            final(self).pipeline.token() == old(self).pipeline.token(),
            final(self).pipeline.fingerprint() == old(self).pipeline.fingerprint(),
            final(self).statistics@ == final(self).shown(
                match observed {
                    Some(observed) => observed@,
                    None => old(self).statistics@,
                },
            ),
            final(self).running == old(self).running,
            final(self).previous == old(self).previous,
            final(self).generation == old(self).generation,
            final(self).spawn_attempts == old(self).spawn_attempts,
            final(self).draining == old(self).draining,
    {
        self.pipeline.assign(assignment);
        self.observe(observed);
    }
}

/// Assignments and publish tokens survive restarts: a source that is started after its generation
/// failed, and another one was spawned, is started with those that the pipeline had before.
pub proof fn source_state_survives_restarts<P: SourcePipeline>(
    running: PipelineSupervisor<P>,
    failed: PipelineSupervisor<P>,
    begun: PipelineSupervisor<P>,
    restarted: PipelineSupervisor<P>,
    start: SourceStart,
)
    requires
        // What `fail`, `begin_spawn` and `end_spawn` keep, and what `start_source` gives.
        failed.pipeline == running.pipeline,
        begun.pipeline == failed.pipeline,
        restarted.pipeline == begun.pipeline,
        path::texts(start.assignment.shard_ids@) == restarted.pipeline.assigned_shards(),
        start.assignment.indexing_plan_id@ == restarted.pipeline.assigned_plan(),
        pipeline::text_opt(start.publish_token) == restarted.pipeline.token(),
    ensures
        path::texts(start.assignment.shard_ids@) == running.pipeline.assigned_shards(),
        start.assignment.indexing_plan_id@ == running.pipeline.assigned_plan(),
        pipeline::text_opt(start.publish_token) == running.pipeline.token(),
{
}

/// Draining is terminal: from then on no request to spawn is followed, and a generation that
/// fails is not restarted.
pub proof fn draining_is_terminal<P: Pipeline>(supervisor: PipelineSupervisor<P>)
    requires
        supervisor.draining,
    ensures
        !supervisor.spawns(),
{
}

/// A pipeline that runs is not spawned a second time.
pub proof fn running_pipelines_are_not_spawned_again<P: Pipeline>(supervisor: PipelineSupervisor<P>)
    requires
        supervisor.running is Some,
    ensures
        !supervisor.spawns(),
{
}

/// A generation is unhealthy if any of its actors is, has succeeded if all of them have, and is healthy
/// otherwise.
pub proof fn one_unhealthy_actor_is_enough(actors: Seq<Health>, i: int)
    ensures
        0 <= i < actors.len() && actors[i] is FailureOrUnhealthy ==> overall_health(actors)
            is FailureOrUnhealthy,
        overall_health(actors) is Success <==> forall|j: int|
            0 <= j < actors.len() ==> (#[trigger] actors[j]) is Success,
        (forall|j: int| 0 <= j < actors.len() ==> !((#[trigger] actors[j]) is FailureOrUnhealthy))
            && 0 <= i < actors.len() && actors[i] is Healthy ==> overall_health(actors) is Healthy,
{
    if forall|j: int| 0 <= j < actors.len() ==> (#[trigger] actors[j]) is Success {
        assert(!actors.contains(Health::FailureOrUnhealthy));
        assert(!actors.contains(Health::Healthy));
    }
    if 0 <= i < actors.len() {
        assert(actors.contains(actors[i]));
    }
    if overall_health(actors) is Success {
        assert forall|j: int| 0 <= j < actors.len() implies (#[trigger] actors[j]) is Success by {
            assert(actors.contains(actors[j]));
        }
    }
}

/// Progress is checked exactly from the time on that was set for the next check.
pub proof fn progress_is_due_in_time(actors: PipelineActors, now: u64, later: u64)
    requires
        now <= later,
    ensures
        now < actors.next_progress_check ==> !actors.progress_due(now),
        actors.progress_due(actors.next_progress_check),
        actors.progress_due(now) ==> actors.progress_due(later),
{
}

/// What the health of a generation calls for.
pub open spec fn supervised(is_running: bool, health: Health) -> SupervisorStep {
    match (is_running, health) {
        (false, _) => SupervisorStep::Continue,
        (true, Health::Healthy) => SupervisorStep::Continue,
        (true, Health::Success) => SupervisorStep::Exit,
        (true, Health::FailureOrUnhealthy) => SupervisorStep::Stop,
    }
}

/// The supervisor exits only when its generation has succeeded, and stops it only when it is unhealthy.
/// Without a generation there is nothing to supervise.
pub proof fn only_unhealthy_generations_are_stopped(is_running: bool, health: Health)
    ensures
        supervised(is_running, health) is Exit <==> is_running && health is Success,
        supervised(is_running, health) is Stop <==> is_running && health is FailureOrUnhealthy,
        supervised(is_running, health) is Continue <==> !is_running || health is Healthy,
{
}

/// What follows the failure of a generation.
pub open spec fn after_failure(draining: bool, restart_delay: u64) -> SupervisorStep {
    if draining {
        SupervisorStep::FailedWhileDraining
    } else {
        SupervisorStep::Restart { delay_millis: restart_delay }
    }
}

/// A generation that fails is restarted, after the delay of the pipeline, unless it is being drained:
/// that ends the supervisor with an error.
pub proof fn failed_generations_are_restarted(draining: bool, restart_delay: u64)
    ensures
        after_failure(draining, restart_delay) is Restart <==> !draining,
        after_failure(draining, restart_delay) matches SupervisorStep::Restart { delay_millis }
            ==> delay_millis == restart_delay,
        draining ==> after_failure(draining, restart_delay) is FailedWhileDraining,
{
}

/// What the wish to finish the pending merges calls for.
pub open spec fn draining_step(draining: bool, is_running: bool) -> SupervisorStep {
    match (draining, is_running) {
        (true, _) => SupervisorStep::Continue,
        (false, true) => SupervisorStep::Drain,
        (false, false) => SupervisorStep::Exit,
    }
}

/// A pipeline is drained once: the first wish drains the generation that runs, or ends the supervisor
/// if none does, and every later one changes nothing.
pub proof fn pipelines_are_drained_once(draining: bool, is_running: bool)
    ensures
        draining_step(draining, is_running) is Drain <==> !draining && is_running,
        draining_step(draining, is_running) is Exit <==> !draining && !is_running,
        draining ==> draining_step(draining, is_running) is Continue,
{
}

} // verus!
