//! The observer-facing state of a batch: one task per input, in the order
//! the inputs were added, each resolved at most once by the delivery of its
//! outcome.
use vstd::prelude::*;
use vstd::string::StringExecFns;
use crate::checksum::{checksum_hex, hex8};

verus! {

/// The outcome of checksumming one input: the checksum, or a message.
pub type Outcome = Result<u32, String>;

/// Where a task stands. `Pending` only ever turns into `Done`.
#[derive(Debug, PartialEq, Eq)]
pub enum TaskState {
    Pending,
    Done(Outcome),
}

/// One input and where its checksum stands.
#[derive(Debug, PartialEq, Eq)]
pub struct Task {
    pub identity: String,
    pub state: TaskState,
}

/// The state of a batch as a whole.
#[derive(Clone, Copy, Debug, PartialEq, Eq, Structural)]
pub enum OverallStatus {
    Ready,
    Calculating,
}

/// A task that waits for the outcome delivered under `id`.
pub open spec fn is_open(t: Task, id: Seq<char>) -> bool {
    t.identity@ == id && t.state is Pending
}

/// The first task that waits for `id`, or -1 when none does.
pub open spec fn first_open(tasks: Seq<Task>, id: Seq<char>) -> int
    decreases tasks.len(),
{
    if tasks.len() == 0 {
        -1
    } else if is_open(tasks[0], id) {
        0
    } else {
        let k = first_open(tasks.drop_first(), id);
        if k < 0 {
            -1
        } else {
            k + 1
        }
    }
}

/// The tasks after `outcome` is delivered under `id`: the first task that
/// waits for it is done with that outcome; with no such task nothing changes.
pub open spec fn deliver(tasks: Seq<Task>, id: Seq<char>, outcome: Outcome) -> Seq<Task> {
    let k = first_open(tasks, id);
    if k < 0 {
        tasks
    } else {
        tasks.update(k, Task { identity: tasks[k].identity, state: TaskState::Done(outcome) })
    }
}

/// An outcome on its way back from a worker: the generation of the set it
/// was dispatched under, the input it is for, and the outcome.
#[derive(Debug, PartialEq, Eq)]
pub struct Delivery {
    pub generation: u64,
    pub identity: String,
    pub outcome: Outcome,
}

/// The tasks after `d` arrives at a set of generation `current`: a delivery
/// dispatched under another generation changes nothing.
pub open spec fn deliver_tagged(tasks: Seq<Task>, current: u64, d: Delivery) -> Seq<Task> {
    if d.generation == current {
        deliver(tasks, d.identity@, d.outcome)
    } else {
        tasks
    }
}

/// Whether `d` resolves a task when it arrives at a set of generation
/// `current`.
pub open spec fn resolves(tasks: Seq<Task>, current: u64, d: Delivery) -> bool {
    d.generation == current && first_open(tasks, d.identity@) >= 0
}

/// The tasks after each of `deliveries` arrives in turn at a set of
/// generation `current`.
pub open spec fn deliver_all(tasks: Seq<Task>, current: u64, deliveries: Seq<Delivery>) -> Seq<
    Task,
>
    decreases deliveries.len(),
{
    if deliveries.len() == 0 {
        tasks
    } else {
        deliver_all(
            deliver_tagged(tasks, current, deliveries[0]),
            current,
            deliveries.drop_first(),
        )
    }
}

/// How many of `deliveries` find no task to resolve and are dropped.
pub open spec fn dropped_count(tasks: Seq<Task>, current: u64, deliveries: Seq<Delivery>) -> nat
    decreases deliveries.len(),
{
    if deliveries.len() == 0 {
        0
    } else {
        (if resolves(tasks, current, deliveries[0]) {
            0nat
        } else {
            1nat
        }) + dropped_count(
            deliver_tagged(tasks, current, deliveries[0]),
            current,
            deliveries.drop_first(),
        )
    }
}

/// A pending task for each identity, in order.
pub open spec fn pending_tasks(ids: Seq<String>) -> Seq<Task> {
    ids.map_values(|id: String| Task { identity: id, state: TaskState::Pending })
}

/// `Calculating` while any task is pending, `Ready` otherwise.
pub open spec fn status_of(tasks: Seq<Task>) -> OverallStatus {
    if exists|i: int| 0 <= i < tasks.len() && tasks[i].state is Pending {
        OverallStatus::Calculating
    } else {
        OverallStatus::Ready
    }
}

proof fn lemma_first_open(tasks: Seq<Task>, id: Seq<char>)
    ensures
        -1 <= first_open(tasks, id) < tasks.len(),
        first_open(tasks, id) >= 0 ==> is_open(tasks[first_open(tasks, id)], id),
        forall|j: int|
            0 <= j < tasks.len() && (first_open(tasks, id) < 0 || j < first_open(tasks, id))
                ==> !is_open(#[trigger] tasks[j], id),
    decreases tasks.len(),
{
    if tasks.len() > 0 {
        lemma_first_open(tasks.drop_first(), id);
        assert forall|j: int|
            0 < j < tasks.len() implies tasks[j] == tasks.drop_first()[j - 1] by {}
    }
}

/// The outcome of the first delivery under `id` dispatched under
/// generation `current`, if any.
pub open spec fn outcome_for(deliveries: Seq<Delivery>, current: u64, id: Seq<char>) -> Option<
    Outcome,
>
    decreases deliveries.len(),
{
    if deliveries.len() == 0 {
        None
    } else if deliveries[0].generation == current && deliveries[0].identity@ == id {
        Some(deliveries[0].outcome)
    } else {
        outcome_for(deliveries.drop_first(), current, id)
    }
}

/// No two of the identities are the same.
pub open spec fn distinct_identities(ids: Seq<String>) -> bool {
    forall|i: int, j: int| 0 <= i < j < ids.len() ==> ids[i]@ != ids[j]@
}

/// No two deliveries are made under the same identity.
pub open spec fn distinct_deliveries(deliveries: Seq<Delivery>) -> bool {
    forall|i: int, j: int|
        0 <= i < j < deliveries.len() ==> deliveries[i].identity@ != deliveries[j].identity@
}

/// No two tasks have the same identity.
pub open spec fn distinct_tasks(tasks: Seq<Task>) -> bool {
    forall|i: int, j: int| 0 <= i < j < tasks.len() ==> tasks[i].identity@ != tasks[j].identity@
}

proof fn lemma_deliver_distinct(tasks: Seq<Task>, id: Seq<char>, outcome: Outcome)
    requires
        distinct_tasks(tasks),
    ensures
        deliver(tasks, id, outcome).len() == tasks.len(),
        forall|i: int|
            0 <= i < tasks.len() ==> {
                let t = #[trigger] deliver(tasks, id, outcome)[i];
                &&& t.identity == tasks[i].identity
                &&& is_open(tasks[i], id) ==> t.state == TaskState::Done(outcome)
                &&& !is_open(tasks[i], id) ==> t == tasks[i]
            },
{
    lemma_first_open(tasks, id);
    let k = first_open(tasks, id);
    assert forall|i: int| 0 <= i < tasks.len() && is_open(tasks[i], id) implies i == k by {
        if k < 0 {
        } else if i < k {
        } else if i > k {
            assert(tasks[k].identity@ == tasks[i].identity@);
        }
    }
}

proof fn lemma_deliver_all_distinct(tasks: Seq<Task>, current: u64, deliveries: Seq<Delivery>)
    requires
        distinct_tasks(tasks),
    ensures
        deliver_all(tasks, current, deliveries).len() == tasks.len(),
        forall|i: int|
            0 <= i < tasks.len() ==> {
                let t = #[trigger] deliver_all(tasks, current, deliveries)[i];
                let o = outcome_for(deliveries, current, tasks[i].identity@);
                &&& t.identity == tasks[i].identity
                &&& (tasks[i].state is Pending && o is Some) ==> t.state == TaskState::Done(
                    o->Some_0,
                )
                &&& !(tasks[i].state is Pending && o is Some) ==> t.state == tasks[i].state
            },
    decreases deliveries.len(),
{
    if deliveries.len() > 0 {
        let d = deliveries[0];
        let next = deliver_tagged(tasks, current, d);
        let rest = deliveries.drop_first();
        lemma_deliver_distinct(tasks, d.identity@, d.outcome);
        assert(distinct_tasks(next)) by {
            assert forall|i: int, j: int| 0 <= i < j < next.len() implies next[i].identity@
                != next[j].identity@ by {
                assert(next[i].identity == tasks[i].identity);
                assert(next[j].identity == tasks[j].identity);
            }
        }
        lemma_deliver_all_distinct(next, current, rest);
        assert forall|i: int| 0 <= i < tasks.len() implies {
            let t = #[trigger] deliver_all(tasks, current, deliveries)[i];
            let o = outcome_for(deliveries, current, tasks[i].identity@);
            &&& t.identity == tasks[i].identity
            &&& (tasks[i].state is Pending && o is Some) ==> t.state == TaskState::Done(o->Some_0)
            &&& !(tasks[i].state is Pending && o is Some) ==> t.state == tasks[i].state
        } by {
            assert(next[i].identity == tasks[i].identity);
        }
    }
}

proof fn lemma_outcome_for_found(deliveries: Seq<Delivery>, current: u64, j: int)
    requires
        0 <= j < deliveries.len(),
        deliveries[j].generation == current,
    ensures
        outcome_for(deliveries, current, deliveries[j].identity@) is Some,
        distinct_deliveries(deliveries) ==> outcome_for(
            deliveries,
            current,
            deliveries[j].identity@,
        ) == Some(deliveries[j].outcome),
    decreases deliveries.len(),
{
    if j > 0 {
        let rest = deliveries.drop_first();
        assert(rest[j - 1] == deliveries[j]);
        lemma_outcome_for_found(rest, current, j - 1);
        if distinct_deliveries(deliveries) {
            assert(distinct_deliveries(rest)) by {
                assert forall|a: int, b: int| 0 <= a < b < rest.len() implies rest[a].identity@
                    != rest[b].identity@ by {
                    assert(rest[a] == deliveries[a + 1]);
                    assert(rest[b] == deliveries[b + 1]);
                }
            }
            assert(deliveries[0].identity@ != deliveries[j].identity@);
        }
    }
}

proof fn lemma_pending_tasks(ids: Seq<String>)
    requires
        distinct_identities(ids),
    ensures
        distinct_tasks(pending_tasks(ids)),
        pending_tasks(ids).len() == ids.len(),
        forall|i: int|
            0 <= i < ids.len() ==> (#[trigger] pending_tasks(ids)[i]).identity == ids[i]
                && pending_tasks(ids)[i].state is Pending,
{
}

/// Once every one of a batch of distinct inputs has had its outcome
/// delivered under the set's generation, in whatever order, every task is
/// done and the batch is ready.
pub proof fn lemma_batch_completes(ids: Seq<String>, current: u64, deliveries: Seq<Delivery>)
    requires
        distinct_identities(ids),
        deliveries.len() == ids.len(),
        forall|j: int| 0 <= j < deliveries.len() ==> (#[trigger] deliveries[j]).generation == current,
        forall|i: int|
            0 <= i < ids.len() ==> exists|j: int|
                0 <= j < deliveries.len() && #[trigger] deliveries[j].identity@ == #[trigger] ids[i]@,
    ensures
        deliver_all(pending_tasks(ids), current, deliveries).len() == ids.len(),
        forall|i: int|
            0 <= i < ids.len() ==> (#[trigger] deliver_all(
                pending_tasks(ids),
                current,
                deliveries,
            )[i]).state is Done,
        status_of(deliver_all(pending_tasks(ids), current, deliveries)) == OverallStatus::Ready,
{
    let tasks = pending_tasks(ids);
    let done = deliver_all(tasks, current, deliveries);
    lemma_pending_tasks(ids);
    lemma_deliver_all_distinct(tasks, current, deliveries);
    assert forall|i: int| 0 <= i < ids.len() implies (#[trigger] done[i]).state is Done by {
        let j = choose|j: int| 0 <= j < deliveries.len() && deliveries[j].identity@ == ids[i]@;
        lemma_outcome_for_found(deliveries, current, j);
        assert(tasks[i].identity == ids[i]);
    }
    assert(!exists|i: int| 0 <= i < done.len() && done[i].state is Pending);
}

/// Each input of a batch ends with exactly the outcome delivered for it,
/// whatever the others got: a failed input fails alone, the rest keep their
/// checksums, and the batch is ready.
pub proof fn lemma_outcomes_stay_apart(ids: Seq<String>, current: u64, deliveries: Seq<Delivery>)
    requires
        distinct_identities(ids),
        distinct_deliveries(deliveries),
        deliveries.len() == ids.len(),
        forall|j: int| 0 <= j < deliveries.len() ==> (#[trigger] deliveries[j]).generation == current,
        forall|i: int|
            0 <= i < ids.len() ==> exists|j: int|
                0 <= j < deliveries.len() && #[trigger] deliveries[j].identity@ == #[trigger] ids[i]@,
    ensures
        forall|i: int, j: int|
            0 <= i < ids.len() && 0 <= j < deliveries.len() && deliveries[j].identity@ == ids[i]@
                ==> #[trigger] deliver_all(pending_tasks(ids), current, deliveries)[i] == (Task {
                identity: ids[i],
                state: TaskState::Done(#[trigger] deliveries[j].outcome),
            }),
        status_of(deliver_all(pending_tasks(ids), current, deliveries)) == OverallStatus::Ready,
{
    let tasks = pending_tasks(ids);
    lemma_batch_completes(ids, current, deliveries);
    lemma_pending_tasks(ids);
    lemma_deliver_all_distinct(tasks, current, deliveries);
    assert forall|i: int, j: int|
        0 <= i < ids.len() && 0 <= j < deliveries.len() && deliveries[j].identity@ == ids[i]@
            implies #[trigger] deliver_all(tasks, current, deliveries)[i] == (Task {
            identity: ids[i],
            state: TaskState::Done(#[trigger] deliveries[j].outcome),
        }) by {
        lemma_outcome_for_found(deliveries, current, j);
        assert(tasks[i].identity == ids[i]);
    }
}

/// Deliveries dispatched under another generation than the set's are all
/// dropped and change nothing.
pub proof fn lemma_foreign_generation_ignored(
    tasks: Seq<Task>,
    current: u64,
    deliveries: Seq<Delivery>,
)
    requires
        forall|j: int| 0 <= j < deliveries.len() ==> (#[trigger] deliveries[j]).generation != current,
    ensures
        deliver_all(tasks, current, deliveries) == tasks,
        dropped_count(tasks, current, deliveries) == deliveries.len(),
    decreases deliveries.len(),
{
    if deliveries.len() > 0 {
        let rest = deliveries.drop_first();
        assert(deliveries[0].generation != current);
        assert forall|j: int| 0 <= j < rest.len() implies (#[trigger] rest[j]).generation
            != current by {
            assert(rest[j] == deliveries[j + 1]);
        }
        lemma_foreign_generation_ignored(tasks, current, rest);
    }
}

/// After a clear, which moves the set to a later generation, inputs added
/// again start pending and stay pending whatever arrives from workers
/// dispatched before the clear, even under an identity that is used again:
/// no earlier outcome comes back.
pub proof fn lemma_clear_drops_stale(ids: Seq<String>, current: u64, stale: Seq<Delivery>)
    requires
        forall|j: int| 0 <= j < stale.len() ==> (#[trigger] stale[j]).generation < current,
    ensures
        deliver_all(pending_tasks(ids), current, stale) == pending_tasks(ids),
        forall|i: int|
            0 <= i < ids.len() ==> (#[trigger] deliver_all(pending_tasks(ids), current, stale)[i])
                == (Task { identity: ids[i], state: TaskState::Pending }),
        dropped_count(pending_tasks(ids), current, stale) == stale.len(),
{
    assert forall|j: int| 0 <= j < stale.len() implies (#[trigger] stale[j]).generation
        != current by {
        assert(stale[j].generation < current);
    }
    lemma_foreign_generation_ignored(pending_tasks(ids), current, stale);
}

/// A task that is done stays done, with the same outcome, whatever is
/// delivered afterwards; deliveries never add or remove tasks.
pub proof fn lemma_done_is_final(tasks: Seq<Task>, current: u64, deliveries: Seq<Delivery>)
    ensures
        deliver_all(tasks, current, deliveries).len() == tasks.len(),
        forall|i: int|
            0 <= i < tasks.len() && tasks[i].state is Done ==> #[trigger] deliver_all(
                tasks,
                current,
                deliveries,
            )[i] == tasks[i],
    decreases deliveries.len(),
{
    if deliveries.len() > 0 {
        let d = deliveries[0];
        let next = deliver_tagged(tasks, current, d);
        lemma_first_open(tasks, d.identity@);
        lemma_done_is_final(next, current, deliveries.drop_first());
        assert forall|i: int| 0 <= i < tasks.len() && tasks[i].state is Done implies next[i]
            == tasks[i] by {
            assert(!is_open(tasks[i], d.identity@));
        }
    }
}

/// The checksum column of a task's row: the checksum once it is known,
/// a placeholder otherwise.
pub open spec fn checksum_text_of(state: TaskState) -> Seq<char> {
    match state {
        TaskState::Done(Ok(crc)) => hex8(crc),
        _ => "--"@,
    }
}

/// The status column of a task's row.
pub open spec fn status_text_of(state: TaskState) -> Seq<char> {
    match state {
        TaskState::Pending => "Calculating..."@,
        TaskState::Done(Ok(_)) => "OK"@,
        TaskState::Done(Err(message)) => message@,
    }
}

/// The text shown for the status of a batch.
pub open spec fn status_label_of(status: OverallStatus) -> Seq<char> {
    match status {
        OverallStatus::Ready => "Ready"@,
        OverallStatus::Calculating => "Calculating..."@,
    }
}

impl OverallStatus {
    /// The text shown for this status.
    pub fn label(&self) -> (r: String)
        ensures
            r@ == status_label_of(*self),
    {
        match self {
            OverallStatus::Ready => String::from_str("Ready"),
            OverallStatus::Calculating => String::from_str("Calculating..."),
        }
    }
}

impl Task {
    /// The checksum as shown beside the input.
    pub fn checksum_text(&self) -> (r: String)
        ensures
            r@ == checksum_text_of(self.state),
    {
        match &self.state {
            TaskState::Done(Ok(crc)) => checksum_hex(*crc),
            _ => String::from_str("--"),
        }
    }

    /// The status as shown beside the input.
    pub fn status_text(&self) -> (r: String)
        ensures
            r@ == status_text_of(self.state),
    {
        match &self.state {
            TaskState::Pending => String::from_str("Calculating..."),
            TaskState::Done(Ok(_)) => String::from_str("OK"),
            TaskState::Done(Err(message)) => message.clone(),
        }
    }
}

/// The ordered set of tasks of a batch, with its generation: a number
/// that only goes up, moved on by each clear, under which work is
/// dispatched and outcomes are accepted.
pub struct VerificationSet {
    tasks: Vec<Task>,
    generation: u64,
    cleared: bool,
}

impl View for VerificationSet {
    type V = Seq<Task>;

    closed spec fn view(&self) -> Seq<Task> {
        self.tasks@
    }
}

impl VerificationSet {
    /// The generation whose deliveries the set accepts.
    pub closed spec fn current_generation(&self) -> u64 {
        self.generation
    }

    /// Whether the set was cleared and nothing has been added since.
    pub closed spec fn is_cleared(&self) -> bool {
        self.cleared
    }

    /// A set with no tasks, at generation 0.
    pub fn new() -> (r: VerificationSet)
        ensures
            r@ == Seq::<Task>::empty(),
            r.current_generation() == 0,
            !r.is_cleared(),
    {
        VerificationSet { tasks: Vec::new(), generation: 0, cleared: false }
    }

    /// The tasks, in the order their inputs were added.
    pub fn tasks(&self) -> (r: &Vec<Task>)
        ensures
            r@ == self@,
    {
        &self.tasks
    }

    /// The generation whose deliveries the set accepts.
    pub fn generation(&self) -> (r: u64)
        ensures
            r == self.current_generation(),
    {
        self.generation
    }

    /// Appends a pending task for each identity, in the given order, and
    /// gives the generation under which their work is to be dispatched.
    pub fn add_pending(&mut self, identities: &Vec<String>) -> (generation: u64)
        ensures
            final(self)@ == old(self)@ + pending_tasks(identities@),
            generation == old(self).current_generation(),
            final(self).current_generation() == generation,
            !final(self).is_cleared(),
    {
        self.cleared = false;
        let ghost start = self.tasks@;
        let mut i: usize = 0;
        while i < identities.len()
            invariant
                i <= identities@.len(),
                self.generation == old(self).generation,
                !self.cleared,
                self.tasks@ == start + pending_tasks(identities@.take(i as int)),
            decreases identities@.len() - i,
        {
            let t = Task { identity: identities[i].clone(), state: TaskState::Pending };
            self.tasks.push(t);
            proof {
                assert(pending_tasks(identities@.take(i + 1)) =~= pending_tasks(
                    identities@.take(i as int),
                ).push(t));
                assert(self.tasks@ =~= start + pending_tasks(identities@.take(i + 1)));
            }
            i = i + 1;
        }
        proof {
            assert(identities@.take(i as int) =~= identities@);
        }
        self.generation
    }

    /// Resolves with `outcome` the first task that still waits under
    /// `identity`, provided the delivery was dispatched under the set's
    /// generation, and says whether it did. A delivery from an earlier
    /// generation, for an unknown identity, or for a task already done
    /// leaves the set as it was and gives `false`.
    pub fn apply_delivery(&mut self, generation: u64, identity: &String, outcome: Outcome) -> (applied: bool)
        ensures
            final(self)@ == (if generation == old(self).current_generation() {
                deliver(old(self)@, identity@, outcome)
            } else {
                old(self)@
            }),
            applied == (generation == old(self).current_generation() && exists|j: int|
                0 <= j < old(self)@.len() && is_open(#[trigger] old(self)@[j], identity@)),
            !applied ==> final(self)@ == old(self)@,
            final(self).current_generation() == old(self).current_generation(),
            final(self).is_cleared() == old(self).is_cleared(),
    {
        if generation != self.generation {
            return false;
        }
        let mut i: usize = 0;
        while i < self.tasks.len()
            invariant
                self.tasks@ == old(self).tasks@,
                self.generation == old(self).generation,
                self.cleared == old(self).cleared,
                generation == self.generation,
                i <= self.tasks@.len(),
                forall|j: int| 0 <= j < i ==> !is_open(#[trigger] self.tasks@[j], identity@),
            decreases self.tasks@.len() - i,
        {
            if self.tasks[i].identity == *identity && matches!(self.tasks[i].state, TaskState::Pending) {
                let ghost before = self.tasks@;
                self.tasks[i].state = TaskState::Done(outcome);
                proof {
                    let k = first_open(before, identity@);
                    lemma_first_open(before, identity@);
                    assert(k == i as int) by {
                        if k < 0 || k < i {
                            assert(!is_open(before[i as int], identity@));
                        } else if k > i {
                            assert(!is_open(before[i as int], identity@));
                        }
                    }
                    assert(self.tasks@ =~= deliver(before, identity@, outcome));
                    assert(is_open(before[i as int], identity@));
                }
                return true;
            }
            i = i + 1;
        }
        proof {
            lemma_first_open(self.tasks@, identity@);
        }
        false
    }

    /// Applies each delivery in turn, as `apply_delivery` does, and gives
    /// how many of them were dropped; the outcomes may come in any order.
    pub fn apply_deliveries(&mut self, deliveries: &Vec<Delivery>) -> (dropped: usize)
        ensures
            final(self)@ == deliver_all(old(self)@, old(self).current_generation(), deliveries@),
            dropped == dropped_count(old(self)@, old(self).current_generation(), deliveries@),
            final(self).current_generation() == old(self).current_generation(),
            final(self).is_cleared() == old(self).is_cleared(),
    {
        let ghost current = self.generation;
        let mut dropped: usize = 0;
        let mut i: usize = 0;
        proof {
            assert(deliveries@.skip(0) =~= deliveries@);
        }
        while i < deliveries.len()
            invariant
                i <= deliveries@.len(),
                dropped <= i,
                self.generation == current,
                self.cleared == old(self).cleared,
                current == old(self).generation,
                deliver_all(self@, current, deliveries@.skip(i as int)) == deliver_all(
                    old(self)@,
                    current,
                    deliveries@,
                ),
                dropped + dropped_count(self@, current, deliveries@.skip(i as int))
                    == dropped_count(old(self)@, current, deliveries@),
            decreases deliveries@.len() - i,
        {
            let d = &deliveries[i];
            let outcome: Outcome = match &d.outcome {
                Ok(crc) => Ok(*crc),
                Err(message) => Err(message.clone()),
            };
            proof {
                assert(deliveries@.skip(i as int)[0] == deliveries@[i as int]);
                assert(deliveries@.skip(i as int).drop_first() =~= deliveries@.skip(i + 1));
                lemma_first_open(self@, d.identity@);
            }
            let applied = self.apply_delivery(d.generation, &d.identity, outcome);
            if !applied {
                dropped = dropped + 1;
            }
            i = i + 1;
        }
        proof {
            assert(deliveries@.skip(i as int) =~= Seq::<Delivery>::empty());
        }
        dropped
    }

    /// Drops every task and moves to the next generation: outcomes that
    /// arrive later from work dispatched before find nothing waiting and are
    /// ignored, even under an identity that is added again.
    pub fn clear(&mut self)
        requires
            old(self).current_generation() < u64::MAX,
        ensures
            final(self)@ == Seq::<Task>::empty(),
            final(self).current_generation() == old(self).current_generation() + 1,
            final(self).is_cleared(),
    {
        self.tasks.clear();
        self.generation = self.generation + 1;
        self.cleared = true;
    }

    /// `Calculating` while any task is pending, `Ready` otherwise.
    pub fn overall_status(&self) -> (r: OverallStatus)
        ensures
            r == status_of(self@),
    {
        let mut i: usize = 0;
        while i < self.tasks.len()
            invariant
                i <= self.tasks@.len(),
                forall|j: int| 0 <= j < i ==> !(#[trigger] self.tasks@[j].state is Pending),
            decreases self.tasks@.len() - i,
        {
            if matches!(self.tasks[i].state, TaskState::Pending) {
                return OverallStatus::Calculating;
            }
            i = i + 1;
        }
        OverallStatus::Ready
    }

    /// The status line of the set: "Cleared" right after a clear, the
    /// label of the overall status otherwise.
    pub fn status_line(&self) -> (r: String)
        ensures
            r@ == (if self.is_cleared() {
                "Cleared"@
            } else {
                status_label_of(status_of(self@))
            }),
    {
        if self.cleared {
            String::from_str("Cleared")
        } else {
            self.overall_status().label()
        }
    }
}

} // verus!
