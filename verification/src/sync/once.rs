use vstd::prelude::*;

verus! {

/// The state of a one-time initialisation.
#[derive(PartialEq, Eq, Structural, Clone, Copy, Debug)]
pub enum Status {
    Uninit,
    Running,
    Completed,
    Panicked,
}

impl Status {
    /// The state's number in the status byte.
    pub open spec fn code(self) -> u8 {
        match self {
            Status::Uninit => 0,
            Status::Running => 1,
            Status::Completed => 2,
            Status::Panicked => 3,
        }
    }

    /// The state's number in the status byte.
    pub fn as_u8(self) -> (r: u8)
        ensures
            r == self.code(),
    {
        match self {
            Status::Uninit => 0,
            Status::Running => 1,
            Status::Completed => 2,
            Status::Panicked => 3,
        }
    }

    /// The state with number `val`, if there is one.
    pub fn from_u8(val: u8) -> (r: Option<Status>)
        ensures
            r matches Some(s) ==> s.code() == val,
            r is None <==> val > 3,
    {
        match val {
            0 => Some(Status::Uninit),
            1 => Some(Status::Running),
            2 => Some(Status::Completed),
            3 => Some(Status::Panicked),
            _ => None,
        }
    }

    /// The initialisation has run to its end.
    pub fn is_completed(self) -> (r: bool)
        ensures
            r == (self == Status::Completed),
    {
        self == Status::Completed
    }
}

/// An atomic compare-and-swap on a status that holds `cur`: the status after it, and `Ok` of
/// `cur` where it was `old` (and is now `new`), else `Err` of `cur`.
pub open spec fn cas(cur: Status, old: Status, new: Status) -> (Status, Result<Status, Status>) {
    if cur == old {
        (new, Ok(cur))
    } else {
        (cur, Err(cur))
    }
}

/// What a caller of a one-time initialisation does next.
#[derive(PartialEq, Eq, Structural, Clone, Copy, Debug)]
pub enum OnceAction {
    /// Run the initialisation, then mark the status completed.
    RunInit,
    /// Look at the status again.
    Retry,
    /// Return: the initialisation has been run.
    Return,
    /// Panic: the initialisation panicked.
    Panic,
    /// Try to take over an initialisation that panicked.
    TakeOver,
}

/// What `call_once` does after its compare-and-swap of `Uninit` for `Running` gave `observed`.
pub fn call_once_step(observed: Result<Status, Status>) -> (r: OnceAction)
    requires
        observed matches Ok(s) ==> s == Status::Uninit,
        observed != Err::<Status, Status>(Status::Uninit),
    ensures
        r == match observed {
            Ok(_) => OnceAction::RunInit,
            Err(Status::Running) => OnceAction::Retry,
            Err(Status::Completed) => OnceAction::Return,
            Err(_) => OnceAction::Panic,
        },
{
    match observed {
        Ok(Status::Uninit) => OnceAction::RunInit,
        Ok(_) | Err(Status::Uninit) => vstd::pervasive::unreached(),
        Err(Status::Running) => OnceAction::Retry,
        Err(Status::Completed) => OnceAction::Return,
        Err(Status::Panicked) => OnceAction::Panic,
    }
}

/// What `call_once_force` does after its compare-and-swap of `Uninit` for `Running` gave
/// `observed`: as `call_once`, but it takes over an initialisation that panicked.
pub fn call_once_force_step(observed: Result<Status, Status>) -> (r: OnceAction)
    requires
        observed matches Ok(s) ==> s == Status::Uninit,
        observed != Err::<Status, Status>(Status::Uninit),
    ensures
        r == match observed {
            Ok(_) => OnceAction::RunInit,
            Err(Status::Running) => OnceAction::Retry,
            Err(Status::Completed) => OnceAction::Return,
            Err(_) => OnceAction::TakeOver,
        },
{
    match observed {
        Ok(Status::Uninit) => OnceAction::RunInit,
        Ok(_) | Err(Status::Uninit) => vstd::pervasive::unreached(),
        Err(Status::Running) => OnceAction::Retry,
        Err(Status::Completed) => OnceAction::Return,
        Err(Status::Panicked) => OnceAction::TakeOver,
    }
}

/// What `call_once_force` does after its compare-and-swap of `Panicked` for `Running` gave
/// `observed`.
pub fn call_once_force_takeover_step(observed: Result<Status, Status>) -> (r: OnceAction)
    requires
        observed matches Ok(s) ==> s == Status::Panicked,
        observed != Err::<Status, Status>(Status::Panicked),
        observed != Err::<Status, Status>(Status::Uninit),
    ensures
        r == match observed {
            Ok(_) => OnceAction::RunInit,
            Err(Status::Running) => OnceAction::Retry,
            Err(_) => OnceAction::Return,
        },
{
    match observed {
        Ok(Status::Panicked) => OnceAction::RunInit,
        Ok(_) | Err(Status::Panicked) => vstd::pervasive::unreached(),
        Err(Status::Running) => OnceAction::Retry,
        Err(Status::Completed) => OnceAction::Return,
        Err(Status::Uninit) => vstd::pervasive::unreached(),
    }
}

/// What `wait` does on seeing `status`.
pub fn wait_step(status: Status) -> (r: OnceAction)
    ensures
        r == match status {
            Status::Uninit | Status::Running => OnceAction::Retry,
            Status::Completed => OnceAction::Return,
            Status::Panicked => OnceAction::Panic,
        },
{
    match status {
        Status::Uninit | Status::Running => OnceAction::Retry,
        Status::Completed => OnceAction::Return,
        Status::Panicked => OnceAction::Panic,
    }
}

/// What `wait_force` does on seeing `status`: it waits out an initialisation that panicked.
pub fn wait_force_step(status: Status) -> (r: OnceAction)
    ensures
        r == match status {
            Status::Completed => OnceAction::Return,
            _ => OnceAction::Retry,
        },
{
    match status {
        Status::Uninit | Status::Running | Status::Panicked => OnceAction::Retry,
        Status::Completed => OnceAction::Return,
    }
}

/// Two callers that each swap `Uninit` for `Running` on the same status, one after the other,
/// are not both told to run the initialisation.
pub proof fn lemma_single_initializer(s: Status)
    ensures
        ({
            let (s1, o1) = cas(s, Status::Uninit, Status::Running);
            let (s2, o2) = cas(s1, Status::Uninit, Status::Running);
            !(o1 is Ok && o2 is Ok)
        }),
{
}

/// Once the status is completed, every caller returns, and a compare-and-swap leaves it
/// completed.
pub proof fn lemma_completed_is_final(old: Status, new: Status)
    requires
        old != Status::Completed,
    ensures
        cas(Status::Completed, old, new).0 == Status::Completed,
        cas(Status::Completed, old, new).1 == Err::<Status, Status>(Status::Completed),
{
}

/// What a caller does to the status of a one-time initialisation: a compare-and-swap of
/// `Uninit` for `Running` (`call_once`'s step), or the store of `Completed` that ends a run of
/// the initialisation.
pub enum OnceEvent {
    Try,
    Finish,
}

/// The status after `events`, one after the other, from `s`, and how many of the callers were
/// told to run the initialisation (see `call_once_step`).
pub open spec fn run_events(s: Status, events: Seq<OnceEvent>) -> (Status, nat)
    decreases events.len(),
{
    if events.len() == 0 {
        (s, 0)
    } else {
        let (s1, n) = run_events(s, events.drop_last());
        match events.last() {
            OnceEvent::Try => {
                let (s2, o) = cas(s1, Status::Uninit, Status::Running);
                (
                    s2,
                    n + if o is Ok {
                        1nat
                    } else {
                        0nat
                    },
                )
            },
            OnceEvent::Finish => (Status::Completed, n),
        }
    }
}

proof fn lemma_run_events(s: Status, events: Seq<OnceEvent>)
    ensures
        s != Status::Uninit ==> run_events(s, events).0 != Status::Uninit && run_events(
            s,
            events,
        ).1 == 0,
        s == Status::Completed ==> run_events(s, events).0 == Status::Completed,
        run_events(s, events).1 <= 1,
        run_events(s, events).0 == Status::Uninit ==> run_events(s, events).1 == 0,
    decreases events.len(),
{
    if events.len() > 0 {
        lemma_run_events(s, events.drop_last());
    }
}

/// Running through a prefix of the events tells no more callers to run than running through all
/// of them.
proof fn lemma_run_events_prefix(s: Status, events: Seq<OnceEvent>, k: int)
    requires
        0 <= k <= events.len(),
    ensures
        run_events(s, events.take(k)).1 <= run_events(s, events).1,
    decreases events.len() - k,
{
    if k < events.len() {
        lemma_run_events_prefix(s, events, k + 1);
        assert(events.take(k + 1).drop_last() =~= events.take(k));
    } else {
        assert(events.take(k) =~= events);
    }
}

/// However many callers of `call_once` swap the status, one after the other, and wherever the
/// runs of the initialisation end: from a status not yet initialised, at most one caller is
/// told to run the initialisation, and exactly one where a caller tries first; from a completed
/// status, none is and the status stays completed.
pub proof fn lemma_one_initializer(events: Seq<OnceEvent>)
    ensures
        run_events(Status::Uninit, events).1 <= 1,
        events.len() > 0 && events[0] is Try ==> run_events(Status::Uninit, events).1 == 1,
        run_events(Status::Completed, events) == (Status::Completed, 0nat),
{
    lemma_run_events(Status::Uninit, events);
    lemma_run_events(Status::Completed, events);
    if events.len() > 0 && events[0] is Try {
        lemma_run_events_prefix(Status::Uninit, events, 1);
        let first = events.take(1);
        assert(first.len() == 1);
        assert(first.drop_last() =~= Seq::<OnceEvent>::empty());
        assert(run_events(Status::Uninit, first.drop_last()) == (Status::Uninit, 0nat));
        assert(first.last() is Try);
        assert(cas(Status::Uninit, Status::Uninit, Status::Running).1 is Ok);
        assert(run_events(Status::Uninit, first).1 == 1);
    }
}

/// A caller's compare-and-swap, the `k`-th of the events from a status not yet initialised,
/// sees the status completed, and so the caller returns (see `call_once_step`), exactly when a
/// run of the initialisation has ended before it; before that no caller returns.
pub proof fn lemma_return_after_completion(events: Seq<OnceEvent>, k: int)
    requires
        0 <= k <= events.len(),
    ensures
        (run_events(Status::Uninit, events.take(k)).0 == Status::Completed) <==> (exists|j: int|
            0 <= j < k && #[trigger] events[j] is Finish),
        k < events.len() ==> (cas(
            run_events(Status::Uninit, events.take(k)).0,
            Status::Uninit,
            Status::Running,
        ).1 == Err::<Status, Status>(Status::Completed) <==> exists|j: int|
            0 <= j < k && #[trigger] events[j] is Finish),
    decreases k,
{
    if k > 0 {
        lemma_return_after_completion(events, k - 1);
        let before = events.take(k - 1);
        assert(events.take(k).drop_last() =~= before);
        assert(events.take(k).last() == events[k - 1]);
        if events[k - 1] is Try {
            if exists|j: int| 0 <= j < k && #[trigger] events[j] is Finish {
                let j = choose|j: int| 0 <= j < k && #[trigger] events[j] is Finish;
                assert(j < k - 1);
            }
        }
    } else {
        assert(events.take(0) =~= Seq::<OnceEvent>::empty());
    }
}

} // verus!
