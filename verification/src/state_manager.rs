//! The scheduler's rules: which checker runs for which subscriber, when a
//! checker looks at the weather, and how long it sleeps between two looks.
//!
//! Nothing here waits, sleeps or talks to anyone. The scheduler hands out
//! plans, and a checker says what is due; the program around them cancels
//! and starts the tasks, asks the weather service and writes the ledger.

use crate::domain::{CheckError, Location};
use crate::record::Entry;
use rand::Rng;
use std::collections::HashMap;
use vstd::prelude::*;
use vstd::std_specs::hash::*;

verus! {

/// Seconds that must have passed since the last alert before the weather is
/// looked at again.
pub const COOL_DOWN_SECONDS: u64 = 14400;

/// The jitter added to a sleep is drawn from zero up to, not including, this
/// many seconds.
pub const JITTER_SECONDS: u64 = 60;

/// Whether a check is due at `now_sec`: only where there was an alert
/// before, and more than the cool-down has passed since. A subscriber who
/// was never alerted is never due.
pub open spec fn cooled_down(last_alerted_sec: Option<u64>, now_sec: u64) -> bool {
    match last_alerted_sec {
        Some(last) => now_sec - last > 14400,
        None => false,
    }
}

/// Whether a check is due at `now_sec`.
pub fn should_check(maybe_last_alerted_sec: Option<u64>, now_sec: u64) -> (due: bool)
    ensures
        due == cooled_down(maybe_last_alerted_sec, now_sec),
{
    match maybe_last_alerted_sec {
        Some(last) => now_sec > last && now_sec - last > COOL_DOWN_SECONDS,
        None => false,
    }
}

/// Draws the jitter for one sleep with `rand::thread_rng().gen_range(0..60)`.
///
/// Trusted: `Rng::gen_range` on a half-open range of integers returns a value
/// inside the range, here below sixty. Which one it is differs from call to
/// call, so nothing more is claimed. The range is not empty, which is all
/// that `gen_range` asks of it.
#[verifier::external_body]
fn draw_jitter() -> (jitter: u64)
    ensures
        jitter < JITTER_SECONDS,
{
    rand::thread_rng().gen_range(0..JITTER_SECONDS)
}

/// The length of a sleep: the base interval and the jitter drawn for it.
pub fn sleep_seconds(check_every_seconds: u64, jitter: u64) -> (seconds: u64)
    requires
        check_every_seconds + jitter <= u64::MAX,
    ensures
        seconds == check_every_seconds + jitter,
{
    check_every_seconds + jitter
}

/// What a checker asks of the weather service.
#[derive(Clone, Copy, Debug)]
pub struct CheckRequest {
    pub chat_id: i64,
    pub location: Location,
    pub now_sec: u64,
}

/// The state of the recurring check that runs for one subscriber.
#[derive(Clone, Copy, Debug)]
pub struct Checker {
    /// The number under which the scheduler knows this checker's task.
    pub task: u64,
    pub chat_id: i64,
    pub location: Location,
    /// When the subscriber was last alerted, in seconds since the epoch.
    pub last_alerted_sec: Option<u64>,
    pub check_every_seconds: u64,
}

impl Checker {
    /// Whether this checker looks at the weather when it wakes at `now_sec`.
    pub open spec fn due(&self, now_sec: u64) -> bool {
        cooled_down(self.last_alerted_sec, now_sec)
    }

    /// What to ask the weather service on waking at `now_sec`: the
    /// subscriber's place and the time where a check is due, nothing where
    /// it is not.
    pub fn wake(&self, now_sec: u64) -> (request: Option<CheckRequest>)
        ensures
            request == if self.due(now_sec) {
                Some(CheckRequest { chat_id: self.chat_id, location: self.location, now_sec })
            } else {
                None
            },
    {
        if should_check(self.last_alerted_sec, now_sec) {
            Some(CheckRequest { chat_id: self.chat_id, location: self.location, now_sec })
        } else {
            None
        }
    }

    /// Takes in what the weather service answered to the check made at
    /// `now_sec`. Where it saw the condition, the subscriber counts as
    /// alerted at `now_sec`, and that time is returned, to be written to the
    /// ledger. Where it saw none, or failed, nothing changes and nothing is
    /// to be written.
    pub fn check_and_alert(&mut self, now_sec: u64, alerted: &Result<bool, CheckError>) -> (update:
        Option<u64>)
        ensures
            update == if *alerted == Ok::<bool, CheckError>(true) {
                Some(now_sec)
            } else {
                None
            },
            *final(self) == if *alerted == Ok::<bool, CheckError>(true) {
                Checker { last_alerted_sec: Some(now_sec), ..*old(self) }
            } else {
                *old(self)
            },
    {
        let present = match alerted {
            Ok(present) => *present,
            Err(_) => false,
        };
        if present {
            self.last_alerted_sec = Some(now_sec);
            Some(now_sec)
        } else {
            None
        }
    }

    /// How long to sleep before waking again: the base interval and a
    /// jitter of under a minute, drawn anew each time.
    pub fn next_sleep(&self) -> (seconds: u64)
        requires
            self.check_every_seconds + JITTER_SECONDS <= u64::MAX,
        ensures
            self.check_every_seconds <= seconds < self.check_every_seconds + JITTER_SECONDS,
    {
        let jitter = draw_jitter();
        sleep_seconds(self.check_every_seconds, jitter)
    }
}

/// What the scheduler is asked to do.
pub enum Call {
    /// Watch the subscriber under `chat_id` at `location`, in place of
    /// whatever ran for the key before.
    Add { chat_id: i64, location: Location, last_alerted_sec: Option<u64> },
    /// Stop watching the subscriber under `chat_id`.
    Remove { chat_id: i64 },
}

impl Call {
    /// The subscriber that the call is about.
    pub open spec fn chat_id(self) -> i64 {
        match self {
            Call::Add { chat_id, .. } => chat_id,
            Call::Remove { chat_id } => chat_id,
        }
    }
}

/// What the scheduler knows: under each key the number of the task that
/// runs for it, and how many tasks it has started so far. Tasks are
/// numbered in the order in which they start.
#[verifier::ext_equal]
pub struct Registry {
    pub running: Map<i64, nat>,
    pub started: nat,
}

/// The scheduler after one more call.
pub open spec fn step(r: Registry, call: Call) -> Registry {
    match call {
        Call::Add { chat_id, .. } => Registry {
            running: r.running.insert(chat_id, r.started),
            started: r.started + 1,
        },
        Call::Remove { chat_id } => Registry {
            running: r.running.remove(chat_id),
            started: r.started,
        },
    }
}

/// The task that a call has cancelled: the one that ran for its key.
pub open spec fn aborted_by(r: Registry, call: Call) -> Option<nat> {
    if r.running.contains_key(call.chat_id()) {
        Some(r.running[call.chat_id()])
    } else {
        None
    }
}

/// The task that a call has started.
pub open spec fn started_by(r: Registry, call: Call) -> Option<nat> {
    match call {
        Call::Add { .. } => Some(r.started),
        Call::Remove { .. } => None,
    }
}

/// The scheduler after a run of calls, from a scheduler that knows nothing.
pub open spec fn run(calls: Seq<Call>) -> Registry
    decreases calls.len(),
{
    if calls.len() == 0 {
        Registry { running: Map::empty(), started: 0 }
    } else {
        step(run(calls.drop_last()), calls.last())
    }
}

/// The tasks that are active after a run of calls, each with the key it
/// runs for: those that a call has started and no later call has cancelled.
pub open spec fn active(calls: Seq<Call>) -> Map<nat, i64>
    decreases calls.len(),
{
    if calls.len() == 0 {
        Map::empty()
    } else {
        let before = run(calls.drop_last());
        let call = calls.last();
        let kept = match aborted_by(before, call) {
            Some(task) => active(calls.drop_last()).remove(task),
            None => active(calls.drop_last()),
        };
        match started_by(before, call) {
            Some(task) => kept.insert(task, call.chat_id()),
            None => kept,
        }
    }
}

/// The registry names exactly the active tasks, each under its key.
pub open spec fn mirrors(r: Registry, tasks: Map<nat, i64>) -> bool {
    &&& forall|k: i64| #[trigger]
        r.running.contains_key(k) ==> r.running[k] < r.started && tasks.contains_key(r.running[k])
            && tasks[r.running[k]] == k
    &&& forall|t: nat| #[trigger]
        tasks.contains_key(t) ==> t < r.started && r.running.contains_key(tasks[t])
            && r.running[tasks[t]] == t
}

/// After any run of calls the registry names exactly the active tasks.
pub proof fn lemma_registry_mirrors_active(calls: Seq<Call>)
    ensures
        mirrors(run(calls), active(calls)),
    decreases calls.len(),
{
    if calls.len() > 0 {
        let front = calls.drop_last();
        let call = calls.last();
        let r0 = run(front);
        let a0 = active(front);
        let r = run(calls);
        let a = active(calls);
        lemma_registry_mirrors_active(front);
        let key = call.chat_id();
        let kept = match aborted_by(r0, call) {
            Some(task) => a0.remove(task),
            None => a0,
        };
        assert forall|k: i64| #[trigger] r.running.contains_key(k) implies r.running[k] < r.started
            && a.contains_key(r.running[k]) && a[r.running[k]] == k by {
            if k != key {
                assert(r0.running.contains_key(k));
                let t = r0.running[k];
                assert(a0.contains_key(t) && a0[t] == k);
                if r0.running.contains_key(key) {
                    assert(a0[r0.running[key]] == key);
                }
                assert(kept.contains_key(t) && kept[t] == k);
            }
        }
        assert forall|t: nat| #[trigger] a.contains_key(t) implies t < r.started
            && r.running.contains_key(a[t]) && r.running[a[t]] == t by {
            if started_by(r0, call) == Some(t) {
            } else {
                assert(kept.contains_key(t));
                assert(a0.contains_key(t));
                assert(r0.running.contains_key(a0[t]) && r0.running[a0[t]] == t);
            }
        }
    }
}

/// One task to a subscriber: after any run of calls, two active tasks that
/// run for the same key are one and the same task.
pub proof fn lemma_single_task(calls: Seq<Call>, a: nat, b: nat)
    requires
        active(calls).contains_key(a),
        active(calls).contains_key(b),
        active(calls)[a] == active(calls)[b],
    ensures
        a == b,
{
    lemma_registry_mirrors_active(calls);
}

/// Every subscriber the scheduler watches has exactly one active task, the
/// one the registry names, and nobody else has any.
pub proof fn lemma_active_tasks_of(calls: Seq<Call>, chat_id: i64)
    ensures
        run(calls).running.contains_key(chat_id) <==> exists|t: nat|
            active(calls).contains_key(t) && #[trigger] active(calls)[t] == chat_id,
{
    lemma_registry_mirrors_active(calls);
    let r = run(calls);
    if r.running.contains_key(chat_id) {
        let t = r.running[chat_id];
        assert(active(calls).contains_key(t) && active(calls)[t] == chat_id);
    }
}

/// The cool-down gate: a checker whose subscriber was alerted 14399 seconds
/// ago, or exactly 14400, does not look at the weather; one whose subscriber
/// was alerted 14401 seconds ago does.
pub proof fn lemma_cool_down_gate(now_sec: u64)
    requires
        now_sec >= 14401,
    ensures
        !cooled_down(Some((now_sec - 14399) as u64), now_sec),
        !cooled_down(Some((now_sec - 14400) as u64), now_sec),
        cooled_down(Some((now_sec - 14401) as u64), now_sec),
{
}

/// The checker that starts for an `add`: it takes the next task number and
/// carries the time of the last alert that the call hands over.
pub open spec fn checker_of(
    r: Registry,
    check_every_seconds: u64,
    chat_id: i64,
    location: Location,
    last_alerted_sec: Option<u64>,
) -> Checker {
    Checker { task: r.started as u64, chat_id, location, last_alerted_sec, check_every_seconds }
}

/// The ledger after the plans of a run of calls were carried out on the
/// ledger `initial`: an `add` writes the subscriber's record afresh, without
/// a time of last alert; a `remove` takes the record out where a task ran
/// for the key, and leaves the ledger alone where none did.
pub open spec fn ledger_after(initial: Map<i64, Entry>, calls: Seq<Call>) -> Map<i64, Entry>
    decreases calls.len(),
{
    if calls.len() == 0 {
        initial
    } else {
        let before = ledger_after(initial, calls.drop_last());
        match calls.last() {
            Call::Add { chat_id, location, .. } => before.insert(chat_id, (location, None)),
            Call::Remove { chat_id } => if run(calls.drop_last()).running.contains_key(chat_id) {
                before.remove(chat_id)
            } else {
                before
            },
        }
    }
}

/// Every subscriber with a running task has a record in the ledger, whatever
/// the ledger held at first.
pub proof fn lemma_watched_are_recorded(initial: Map<i64, Entry>, calls: Seq<Call>, chat_id: i64)
    requires
        run(calls).running.contains_key(chat_id),
    ensures
        ledger_after(initial, calls).contains_key(chat_id),
    decreases calls.len(),
{
    if calls.len() > 0 {
        if calls.last().chat_id() != chat_id {
            assert(run(calls.drop_last()).running.contains_key(chat_id));
            lemma_watched_are_recorded(initial, calls.drop_last(), chat_id);
        }
    }
}

/// A subscriber who is removed has no task and, where one ran before, no
/// record either.
pub proof fn lemma_removed_is_gone(initial: Map<i64, Entry>, calls: Seq<Call>, chat_id: i64)
    ensures
        !run(calls.push(Call::Remove { chat_id })).running.contains_key(chat_id),
        run(calls).running.contains_key(chat_id) ==> !ledger_after(
            initial,
            calls.push(Call::Remove { chat_id }),
        ).contains_key(chat_id),
{
    let after = calls.push(Call::Remove { chat_id });
    assert(after.drop_last() == calls);
    assert(after.last() == Call::Remove { chat_id });
}

/// Replacing a subscriber without carrying the time of the last alert over
/// resets the cool-down: whatever ran and whatever was recorded for the key
/// before, the record now holds the new location and no time, and the
/// checker that starts is at no time due for a check.
pub proof fn lemma_replace_resets_cool_down(
    initial: Map<i64, Entry>,
    calls: Seq<Call>,
    check_every_seconds: u64,
    chat_id: i64,
    location: Location,
    now_sec: u64,
)
    ensures
        ledger_after(
            initial,
            calls.push(Call::Add { chat_id, location, last_alerted_sec: None }),
        ).contains_key(chat_id),
        ledger_after(
            initial,
            calls.push(Call::Add { chat_id, location, last_alerted_sec: None }),
        )[chat_id] == (location, None::<u64>),
        !checker_of(run(calls), check_every_seconds, chat_id, location, None).due(now_sec),
{
    let after = calls.push(Call::Add { chat_id, location, last_alerted_sec: None });
    assert(after.drop_last() == calls);
    assert(after.last() == Call::Add { chat_id, location, last_alerted_sec: None });
}

/// What is to be done for an `add`, in this order: cancel the task `abort`,
/// where there is one to cancel; write `create_record` to the ledger; start
/// the task of `start`.
#[derive(Clone, Copy, Debug)]
pub struct AddPlan {
    pub abort: Option<u64>,
    pub create_record: (i64, Location),
    pub start: Checker,
}

/// What is to be done for a `remove` of a subscriber who was watched, in
/// this order: cancel the task `abort`; take `remove_record` out of the
/// ledger.
#[derive(Clone, Copy, Debug)]
pub struct RemovePlan {
    pub abort: u64,
    pub remove_record: i64,
}

/// The scheduler: it knows which task runs for which subscriber, and says
/// what to cancel and what to start when subscribers come, move and go.
pub struct StateManager {
    check_every_seconds: u64,
    checkers: HashMap<i64, u64>,
    started: u64,
    history: Ghost<Seq<Call>>,
}

impl View for StateManager {
    type V = Registry;

    closed spec fn view(&self) -> Registry {
        Registry {
            running: Map::new(
                |k: i64| self.checkers@.contains_key(k),
                |k: i64| self.checkers@[k] as nat,
            ),
            started: self.started as nat,
        }
    }
}

impl StateManager {
    /// The calls that this scheduler has answered so far.
    pub closed spec fn history(&self) -> Seq<Call> {
        self.history@
    }

    /// The base interval between two looks of a checker, in seconds.
    pub closed spec fn interval(&self) -> u64 {
        self.check_every_seconds
    }

    /// The scheduler is what its calls have made of it.
    pub open spec fn wf(&self) -> bool {
        self@ == run(self.history())
    }

    /// A scheduler that watches nobody.
    pub fn new(check_every_seconds: u64) -> (manager: StateManager)
        ensures
            manager.wf(),
            manager.interval() == check_every_seconds,
            manager.history() == Seq::<Call>::empty(),
            manager@ == (Registry { running: Map::empty(), started: 0 }),
    {
        let manager = StateManager {
            check_every_seconds,
            checkers: HashMap::new(),
            started: 0,
            history: Ghost(Seq::empty()),
        };
        proof {
            assert(manager@.running =~= Map::<i64, nat>::empty());
        }
        manager
    }

    /// The base interval between two looks of a checker, in seconds.
    #[verifier::when_used_as_spec(interval)]
    pub fn check_every_seconds(&self) -> (seconds: u64)
        ensures
            seconds == self.interval(),
    {
        self.check_every_seconds
    }

    /// Whether one more task can be numbered.
    pub fn can_add(&self) -> (yes: bool)
        ensures
            yes == (self@.started < u64::MAX),
    {
        self.started < u64::MAX
    }

    /// The task that runs for `chat_id`, if one does.
    pub fn task_of(&self, chat_id: i64) -> (task: Option<u64>)
        ensures
            match task {
                Some(t) => self@.running.contains_key(chat_id) && self@.running[chat_id] == t,
                None => !self@.running.contains_key(chat_id),
            },
    {
        broadcast use group_hash_axioms;

        match self.checkers.get(&chat_id) {
            Some(task) => Some(*task),
            None => None,
        }
    }

    /// The number of subscribers that are watched.
    pub fn len(&self) -> (n: usize)
        ensures
            n == self@.running.dom().len(),
    {
        broadcast use group_hash_axioms;

        proof {
            assert(self@.running.dom() =~= self.checkers@.dom());
        }
        self.checkers.len()
    }

    /// Watches the subscriber under `chat_id` at `location`. A task that
    /// runs for the key is cancelled, the subscriber's record is written
    /// afresh, and a new task starts that carries `maybe_last_alerted_sec`
    /// as the time of the last alert. When this returns, the new task is
    /// the one task of the key.
    pub fn add(
        &mut self,
        chat_id: i64,
        location: Location,
        maybe_last_alerted_sec: Option<u64>,
    ) -> (plan: AddPlan)
        requires
            old(self).wf(),
            old(self)@.started < u64::MAX,
        ensures
            final(self).wf(),
            final(self).interval() == old(self).interval(),
            final(self).history() == old(self).history().push(
                Call::Add { chat_id, location, last_alerted_sec: maybe_last_alerted_sec },
            ),
            final(self)@ == step(
                old(self)@,
                Call::Add { chat_id, location, last_alerted_sec: maybe_last_alerted_sec },
            ),
            match plan.abort {
                Some(t) => aborted_by(
                    old(self)@,
                    Call::Add { chat_id, location, last_alerted_sec: maybe_last_alerted_sec },
                ) == Some(t as nat),
                None => aborted_by(
                    old(self)@,
                    Call::Add { chat_id, location, last_alerted_sec: maybe_last_alerted_sec },
                ) is None,
            },
            plan.create_record == (chat_id, location),
            plan.start == checker_of(
                old(self)@,
                old(self).interval(),
                chat_id,
                location,
                maybe_last_alerted_sec,
            ),
    {
        broadcast use group_hash_axioms;

        let ghost call = Call::Add { chat_id, location, last_alerted_sec: maybe_last_alerted_sec };
        let ghost before = self@;
        let ghost calls = self.history@;
        let abort = self.checkers.remove(&chat_id);
        let task = self.started;
        self.started = self.started + 1;
        self.checkers.insert(chat_id, task);
        self.history = Ghost(calls.push(call));
        proof {
            assert(self@.running =~= step(before, call).running);
            assert(calls.push(call).drop_last() =~= calls);
            assert(calls.push(call).last() == call);
        }
        AddPlan {
            abort,
            create_record: (chat_id, location),
            start: Checker {
                task,
                chat_id,
                location,
                last_alerted_sec: maybe_last_alerted_sec,
                check_every_seconds: self.check_every_seconds,
            },
        }
    }

    /// Stops watching the subscriber under `chat_id`. Where a task runs for
    /// the key, it is cancelled and the subscriber's record is taken out of
    /// the ledger. Where none runs, nothing changes and nothing is to be
    /// done.
    pub fn remove(&mut self, chat_id: i64) -> (plan: Option<RemovePlan>)
        requires
            old(self).wf(),
        ensures
            final(self).wf(),
            final(self).interval() == old(self).interval(),
            final(self).history() == old(self).history().push(Call::Remove { chat_id }),
            final(self)@ == step(old(self)@, Call::Remove { chat_id }),
            !old(self)@.running.contains_key(chat_id) ==> final(self)@ == old(self)@,
            !final(self)@.running.contains_key(chat_id),
            match plan {
                Some(p) => aborted_by(old(self)@, Call::Remove { chat_id }) == Some(p.abort as nat)
                    && p.remove_record == chat_id,
                None => aborted_by(old(self)@, Call::Remove { chat_id }) is None,
            },
    {
        broadcast use group_hash_axioms;

        let ghost call = Call::Remove { chat_id };
        let ghost before = self@;
        let ghost calls = self.history@;
        let abort = self.checkers.remove(&chat_id);
        self.history = Ghost(calls.push(call));
        proof {
            assert(self@.running =~= step(before, call).running);
            if !before.running.contains_key(chat_id) {
                assert(self@.running =~= before.running);
            }
            assert(calls.push(call).drop_last() =~= calls);
            assert(calls.push(call).last() == call);
        }
        match abort {
            Some(task) => Some(RemovePlan { abort: task, remove_record: chat_id }),
            None => None,
        }
    }
}

} // verus!
