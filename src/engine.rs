//! The decisions of one shuffle run, as a state machine: the caller performs
//! each step it is handed and reports how it went.
use vstd::prelude::*;

verus! {

/// How long before the present the masked clock may be set, in seconds.
pub const MASK_WINDOW_SECS: u64 = 10 * 24 * 60 * 60;

/// Relies on rand's `Rng::gen_range` over the thread-local generator: a value
/// in `0..bound`, which must not be empty.
#[verifier::external_body]
fn random_below(bound: u64) -> (r: u64)
    requires
        bound > 0,
    ensures
        r < bound,
{
    rand::Rng::gen_range(&mut rand::thread_rng(), 0..bound)
}

/// The instant `offset` seconds before `now`, or the epoch if that is earlier.
pub fn masked_instant(now: u64, offset: u64) -> (r: u64)
    ensures
        r == if offset <= now { now - offset } else { 0 },
{
    if offset <= now {
        now - offset
    } else {
        0
    }
}

/// A random instant of the `window` seconds before `now` (or `now` itself), to
/// set the clock to while files are written.
pub fn pick_mask_instant(now: u64, window: u64) -> (r: u64)
    ensures
        r <= now,
        r as int >= now as int - window as int,
{
    if window == 0 {
        return now;
    }
    masked_instant(now, random_below(window))
}

/// What to do next to resynchronise the clock.
#[derive(PartialEq, Eq, Structural, Clone, Copy, Debug)]
pub enum ResyncAction {
    /// Install the time-sync client first.
    Install,
    /// Resynchronise with the client.
    Sync,
    /// The client is missing and could not be installed: report it and stop.
    GiveUp,
}

/// The next resynchronisation step, given whether the time-sync client was
/// found and, once an installation was tried, whether it succeeded.
pub fn resync_action(client_present: bool, installed: Option<bool>) -> (r: ResyncAction)
    ensures
        r == if client_present {
            ResyncAction::Sync
        } else {
            match installed {
                None => ResyncAction::Install,
                Some(true) => ResyncAction::Sync,
                Some(false) => ResyncAction::GiveUp,
            }
        },
{
    if client_present {
        return ResyncAction::Sync;
    }
    match installed {
        None => ResyncAction::Install,
        Some(true) => ResyncAction::Sync,
        Some(false) => ResyncAction::GiveUp,
    }
}

/// How a run ended.
#[derive(PartialEq, Eq, Structural, Clone, Copy, Debug)]
pub enum Outcome {
    Completed,
    RootNotFound,
    Failed,
}

/// What the caller does next.
#[derive(PartialEq, Eq, Structural, Clone, Copy, Debug)]
pub enum Step {
    /// Tell whether the data root exists.
    CheckRoot,
    /// Tell whether the process holds elevated privilege.
    QueryPrivilege,
    /// Set the clock to a masked instant.
    MaskClock,
    /// List the subject directories and tell how many there are.
    ListSubjects,
    /// Consolidate the subject directory of this index.
    Consolidate(usize),
    /// Anonymize the subject directory of this index.
    Anonymize(usize),
    /// Resynchronise the clock with true time.
    RestoreClock,
    /// Nothing is left to do.
    Finish(Outcome),
}

/// What the caller reports about the step it performed.
#[derive(PartialEq, Eq, Structural, Clone, Copy, Debug)]
pub enum Event {
    Succeeded,
    Failed,
    Answered(bool),
    Listed(usize),
}

/// The state of one run.
#[derive(PartialEq, Eq, Structural, Clone, Copy, Debug)]
pub struct Engine {
    pub step: Step,
    /// The clock was masked, so a resynchronisation is owed.
    pub masked: bool,
    /// The resynchronisation was handed out.
    pub restored: bool,
    pub subjects: usize,
    /// A step of the pipeline failed.
    pub failed: bool,
}

/// The state reached when the subject directories are done with, or one of
/// them failed: resynchronise the clock if it was masked, else finish.
pub open spec fn wrap_up(e: Engine, failed: bool) -> Engine {
    if e.masked {
        Engine { step: Step::RestoreClock, failed, ..e }
    } else {
        Engine { step: Step::Finish(if failed { Outcome::Failed } else { Outcome::Completed }), failed, ..e }
    }
}

/// The state after `ev` is reported in state `e`.
pub open spec fn transition(e: Engine, ev: Event) -> Engine {
    match e.step {
        Step::CheckRoot => if ev == Event::Answered(true) {
            Engine { step: Step::QueryPrivilege, ..e }
        } else {
            Engine { step: Step::Finish(Outcome::RootNotFound), ..e }
        },
        Step::QueryPrivilege => if ev == Event::Answered(true) {
            Engine { step: Step::MaskClock, masked: true, ..e }
        } else {
            Engine { step: Step::ListSubjects, ..e }
        },
        Step::MaskClock => Engine { step: Step::ListSubjects, ..e },
        Step::ListSubjects => match ev {
            Event::Listed(n) => if n > 0 {
                Engine { step: Step::Consolidate(0), subjects: n, ..e }
            } else {
                wrap_up(Engine { subjects: 0, ..e }, false)
            },
            _ => wrap_up(e, true),
        },
        Step::Consolidate(i) => if ev == Event::Succeeded {
            Engine { step: Step::Anonymize(i), ..e }
        } else {
            wrap_up(e, true)
        },
        Step::Anonymize(i) => if ev != Event::Succeeded {
            wrap_up(e, true)
        } else if i + 1 < e.subjects {
            Engine { step: Step::Consolidate((i + 1) as usize), ..e }
        } else {
            wrap_up(e, false)
        },
        Step::RestoreClock => Engine {
            step: Step::Finish(if e.failed { Outcome::Failed } else { Outcome::Completed }),
            restored: true,
            ..e
        },
        Step::Finish(_) => e,
    }
}

/// The state after the events are reported one after the other from the start.
pub open spec fn run(events: Seq<Event>) -> Engine
    decreases events.len(),
{
    if events.len() == 0 {
        Engine::initial()
    } else {
        transition(run(events.drop_last()), events.last())
    }
}

/// What holds in every state a run reaches.
pub open spec fn reachable_inv(e: Engine) -> bool {
    &&& (e.masked && e.step is Finish) ==> e.restored
    &&& e.restored ==> e.masked && e.step is Finish
    &&& e.failed ==> (e.step is RestoreClock || e.step == Step::Finish(Outcome::Failed))
    &&& e.step is Consolidate ==> e.step->Consolidate_0 < e.subjects
    &&& e.step is Anonymize ==> e.step->Anonymize_0 < e.subjects
    &&& e.step is RestoreClock ==> e.masked && !e.restored
    &&& e.masked ==> !(e.step is CheckRoot || e.step is QueryPrivilege)
    &&& e.step == Step::Finish(Outcome::RootNotFound) ==> !e.masked
}

impl Engine {
    pub open spec fn initial() -> Engine {
        Engine { step: Step::CheckRoot, masked: false, restored: false, subjects: 0, failed: false }
    }

    /// A run that has done nothing yet: its first step is to check the data root.
    pub fn new() -> (r: Engine)
        ensures
            r == Engine::initial(),
    {
        Engine { step: Step::CheckRoot, masked: false, restored: false, subjects: 0, failed: false }
    }

    fn wrap_up(&self, failed: bool) -> (r: Engine)
        ensures
            r == wrap_up(*self, failed),
    {
        if self.masked {
            Engine { step: Step::RestoreClock, failed, ..*self }
        } else {
            let outcome = if failed {
                Outcome::Failed
            } else {
                Outcome::Completed
            };
            Engine { step: Step::Finish(outcome), failed, ..*self }
        }
    }

    /// The state after `ev` is reported for the current step.
    pub fn advance(&self, ev: Event) -> (r: Engine)
        ensures
            r == transition(*self, ev),
    {
        match self.step {
            Step::CheckRoot => if ev == Event::Answered(true) {
                Engine { step: Step::QueryPrivilege, ..*self }
            } else {
                Engine { step: Step::Finish(Outcome::RootNotFound), ..*self }
            },
            Step::QueryPrivilege => if ev == Event::Answered(true) {
                Engine { step: Step::MaskClock, masked: true, ..*self }
            } else {
                Engine { step: Step::ListSubjects, ..*self }
            },
            Step::MaskClock => Engine { step: Step::ListSubjects, ..*self },
            Step::ListSubjects => match ev {
                Event::Listed(n) => if n > 0 {
                    Engine { step: Step::Consolidate(0), subjects: n, ..*self }
                } else {
                    Engine { subjects: 0, ..*self }.wrap_up(false)
                },
                _ => self.wrap_up(true),
            },
            Step::Consolidate(i) => if ev == Event::Succeeded {
                Engine { step: Step::Anonymize(i), ..*self }
            } else {
                self.wrap_up(true)
            },
            Step::Anonymize(i) => if ev != Event::Succeeded {
                self.wrap_up(true)
            } else if i < self.subjects && i + 1 < self.subjects {
                Engine { step: Step::Consolidate(i + 1), ..*self }
            } else {
                self.wrap_up(false)
            },
            Step::RestoreClock => {
                let outcome = if self.failed {
                    Outcome::Failed
                } else {
                    Outcome::Completed
                };
                Engine { step: Step::Finish(outcome), restored: true, ..*self }
            },
            Step::Finish(_) => *self,
        }
    }
}

proof fn lemma_transition_keeps_inv(e: Engine, ev: Event)
    requires
        reachable_inv(e),
    ensures
        reachable_inv(transition(e, ev)),
{
}

/// What every run guarantees, whatever the caller reports: once the clock is
/// masked, the run cannot finish before the clock is resynchronised; a
/// resynchronisation is only handed out after a masking; after a failure only
/// the resynchronisation and the end remain; and a run that finds no data root
/// never touches the clock.
pub proof fn lemma_run_guarantees(events: Seq<Event>)
    ensures
        reachable_inv(run(events)),
    decreases events.len(),
{
    if events.len() > 0 {
        lemma_run_guarantees(events.drop_last());
        lemma_transition_keeps_inv(run(events.drop_last()), events.last());
    }
}

/// A run whose data root is missing ends at once, without masking the clock.
pub proof fn lemma_missing_root_stops_at_once(ev: Event)
    requires
        ev != Event::Answered(true),
    ensures
        transition(Engine::initial(), ev).step == Step::Finish(Outcome::RootNotFound),
        !transition(Engine::initial(), ev).masked,
{
}

} // verus!
