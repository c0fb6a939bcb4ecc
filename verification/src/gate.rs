//! Graceful shutdown gate.
//!
//! A sticky shutdown signal, tracked in-flight work, and a graceful drain phase
//! before forced shutdown. Work enters a [`Gate`] with a [`Permit`] and leaves it
//! again; once a graceful shutdown begins, nothing new is let in.
//!
//! Waiting happens outside. [`Gate::enter`] and [`Gate::wait_all_done`] take what
//! happened and say what to do next.
use std::sync::Arc;
use std::time::Duration;
use tokio::sync::watch;
use tokio::sync::Notify;
use vstd::prelude::*;
use crate::signal::observes;
use crate::signal::sends_into;
use crate::signal::values_sent;
use crate::signal::NotifyOnce;
use crate::signal::Signal;
use crate::time::nanos;

verus! {

#[derive(Debug)]
pub enum Error {
    ShuttingDown,
    AcquireTimeout(Duration),
    AtCapacity,
}

/// The right to be inside a [`Gate`]. One permit holds one slot, until it is given
/// back with [`Gate::leave`].
#[derive(Debug)]
pub struct Permit {
    gate: Arc<Notify>,
}

/// What a task that wants to enter has seen happen.
#[derive(Debug)]
pub enum EnterEvent {
    /// It asks to enter, for the first time or because a slot was released;
    /// `waited` is the time since it first asked.
    Asked { waited: Duration },
    /// While it waited, a graceful shutdown began.
    ShutDown,
    /// While it waited, its time ran out.
    TimedOut,
}

/// What a task that wants to enter does next.
#[derive(Debug)]
pub enum EnterAction {
    /// It is inside.
    Enter(Permit),
    /// It is turned away.
    Refuse(Error),
    /// It waits, at most this long, for a slot or for shutdown.
    Wait(Duration),
}

/// What a task that waits for a gate to drain has seen happen.
#[derive(Debug)]
pub enum DrainEvent {
    /// It begins to wait.
    Asked,
    /// All permits were given back.
    AllDone,
    /// The grace period ran out.
    TimedOut,
}

/// What a task that waits for a gate to drain does next.
#[derive(Debug)]
pub enum DrainAction {
    /// There is nothing to wait for any more.
    Finish,
    /// It waits for the permits, at most this long where a limit is given.
    Wait(Option<Duration>),
}

/// What a gate is, apart from the tasks that wait at it.
pub struct GateState {
    /// Permits in use.
    pub count: usize,
    /// How many permits there may be; `None` is unlimited.
    pub max_count: Option<usize>,
    /// How long to wait for a slot when at capacity.
    pub acquire_timeout: Duration,
    /// The grace period; `None` is indefinite.
    pub grace: Option<Duration>,
    /// A graceful shutdown has begun.
    pub graceful: bool,
    /// A forced shutdown was called.
    pub forced: bool,
}

impl GateState {
    /// A new gate.
    pub open spec fn opened(max_count: Option<usize>, acquire_timeout: Duration) -> Self {
        GateState {
            count: 0,
            max_count,
            acquire_timeout,
            grace: None,
            graceful: false,
            forced: false,
        }
    }

    /// There is a slot to take.
    pub open spec fn has_room(self) -> bool {
        match self.max_count {
            Some(max) => self.count < max,
            None => true,
        }
    }

    /// One more permit is in use. The counter wraps around.
    pub open spec fn entered(self) -> Self {
        GateState {
            count: if self.count == usize::MAX {
                0
            } else {
                (self.count + 1) as usize
            },
            ..self
        }
    }

    /// One permit is given back.
    pub open spec fn left(self) -> Self {
        GateState { count: (self.count - 1) as usize, ..self }
    }

    /// Giving a permit back frees a slot that others may wait for.
    pub open spec fn leaving_frees_slot(self) -> bool {
        self.max_count matches Some(max) && self.count - 1 < max
    }

    /// A graceful shutdown begins with this grace period.
    pub open spec fn graceful(self, grace: Option<Duration>) -> Self {
        GateState { grace, graceful: true, ..self }
    }

    /// A forced shutdown is called.
    pub open spec fn forced(self) -> Self {
        GateState { forced: true, ..self }
    }

    /// What asking to enter at once comes to.
    pub open spec fn tried(self, result: Result<Permit, Error>) -> bool {
        if self.graceful {
            result matches Err(e) && e is ShuttingDown
        } else if self.has_room() {
            result is Ok
        } else {
            result matches Err(e) && e is AtCapacity
        }
    }

    /// What a task that wants to enter does next.
    pub open spec fn enters(self, event: EnterEvent, action: EnterAction) -> bool {
        match event {
            EnterEvent::Asked { waited } => if self.graceful {
                action == EnterAction::Refuse(Error::ShuttingDown)
            } else if self.has_room() {
                action is Enter
            } else if nanos(waited) >= nanos(self.acquire_timeout) {
                action == EnterAction::Refuse(Error::AcquireTimeout(self.acquire_timeout))
            } else {
                action matches EnterAction::Wait(remaining) && nanos(remaining) == nanos(
                    self.acquire_timeout,
                ) - nanos(waited)
            },
            EnterEvent::ShutDown => action == EnterAction::Refuse(Error::ShuttingDown),
            EnterEvent::TimedOut => action == EnterAction::Refuse(
                Error::AcquireTimeout(self.acquire_timeout),
            ),
        }
    }

    /// What a task that waits for this gate to drain does next. Whoever was told
    /// that all is done asks again, as others may have entered since.
    pub open spec fn drains(self, event: DrainEvent, action: DrainAction) -> bool {
        if event is TimedOut || self.count == 0 {
            action is Finish
        } else {
            action == DrainAction::Wait(self.grace)
        }
    }
}

/// A gate: who is inside, who may enter, and whether it is closing.
#[derive(Debug)]
pub struct Gate {
    graceful: NotifyOnce,
    shutdown: NotifyOnce,
    released: Arc<Notify>,
    count: usize,
    all_done: Signal,
    grace_period: Option<Duration>,
    acquire_timeout: Duration,
    max_count: Option<usize>,
}

impl View for Gate {
    type V = GateState;

    closed spec fn view(&self) -> GateState {
        GateState {
            count: self.count,
            max_count: self.max_count,
            acquire_timeout: self.acquire_timeout,
            grace: self.grace_period,
            graceful: self.graceful.given(),
            forced: self.shutdown.given(),
        }
    }
}

impl Gate {
    /// The signals tell waiting tasks what this gate is. That all is done is
    /// signalled exactly while no permit is in use.
    pub closed spec fn well_formed(self) -> bool {
        &&& self.graceful.well_formed()
        &&& self.shutdown.well_formed()
        &&& self.all_done.well_formed()
        &&& self.all_done.up() == (self.count == 0)
    }

    /// `rx` waits for graceful shutdown to begin.
    pub closed spec fn signals_graceful(self, rx: watch::Receiver<bool>) -> bool {
        self.graceful.reaches(rx)
    }

    /// `rx` waits for forced shutdown.
    pub closed spec fn signals_forced(self, rx: watch::Receiver<bool>) -> bool {
        self.shutdown.reaches(rx)
    }

    /// `rx` waits for all permits to be given back.
    pub closed spec fn signals_all_done(self, rx: watch::Receiver<bool>) -> bool {
        self.all_done.reaches(rx)
    }

    /// What the tasks that wait for graceful shutdown were last told.
    pub closed spec fn told_graceful(self) -> bool {
        self.graceful.told()
    }

    /// What the tasks that wait for forced shutdown were last told.
    pub closed spec fn told_forced(self) -> bool {
        self.shutdown.told()
    }

    /// What the tasks that wait for all permits to be given back were last told.
    pub closed spec fn told_all_done(self) -> bool {
        self.all_done.told()
    }

    /// The tasks that wait were told what they wait for exactly when it is so.
    pub proof fn waiting_tasks_are_told(self)
        requires
            self.well_formed(),
        ensures
            self.told_graceful() == self@.graceful,
            self.told_forced() == self@.forced,
            self.told_all_done() == (self@.count == 0),
    {
        self.graceful.told_is_given();
        self.shutdown.told_is_given();
        self.all_done.told_is_up();
    }

    /// What wakes the tasks that wait for a slot.
    pub closed spec fn slot_signal(self) -> Arc<Notify> {
        self.released
    }

    /// The senders through which tasks are told that graceful shutdown began, that
    /// forced shutdown was called, and that no permit is in use.
    pub closed spec fn senders(self) -> (
        watch::Sender<bool>,
        watch::Sender<bool>,
        watch::Sender<bool>,
    ) {
        (self.graceful.sender(), self.shutdown.sender(), self.all_done.sender())
    }

    /// Tasks observe what they wait for and nothing else: the channel of each signal
    /// holds whether graceful shutdown began, forced shutdown was called, or no
    /// permit is in use.
    pub proof fn waiting_tasks_observe_what_they_wait_for(self, rx: watch::Receiver<bool>)
        requires
            self.well_formed(),
        ensures
            self.signals_graceful(rx) ==> observes(rx) == sends_into(self.senders().0),
            self.signals_forced(rx) ==> observes(rx) == sends_into(self.senders().1),
            self.signals_all_done(rx) ==> observes(rx) == sends_into(self.senders().2),
            values_sent(self.senders().0).len() > 0,
            values_sent(self.senders().1).len() > 0,
            values_sent(self.senders().2).len() > 0,
            values_sent(self.senders().0).last() == self@.graceful,
            values_sent(self.senders().1).last() == self@.forced,
            values_sent(self.senders().2).last() == (self@.count == 0),
    {
        self.graceful.waiting_tasks_observe_it(rx);
        self.shutdown.waiting_tasks_observe_it(rx);
        self.all_done.waiting_tasks_observe_it(rx);
    }

    /// Tasks that wait at one of the two wait at the other.
    pub open spec fn same_signals(self, other: Self) -> bool {
        &&& self.slot_signal() == other.slot_signal()
        &&& forall|rx: watch::Receiver<bool>| #[trigger]
            self.signals_graceful(rx) == other.signals_graceful(rx)
        &&& forall|rx: watch::Receiver<bool>| #[trigger]
            self.signals_forced(rx) == other.signals_forced(rx)
        &&& forall|rx: watch::Receiver<bool>| #[trigger]
            self.signals_all_done(rx) == other.signals_all_done(rx)
    }

    /// A new gate with optional max connections and acquire timeout.
    ///
    /// - `max_count`: maximum concurrent permits (`None` = unlimited)
    /// - `acquire_timeout`: how long to wait for a slot when at capacity
    pub fn new(max_count: Option<usize>, acquire_timeout: Duration) -> (gate: Self)
        ensures
            gate.well_formed(),
            gate@ == GateState::opened(max_count, acquire_timeout),
    {
        Gate {
            graceful: NotifyOnce::new(),
            shutdown: NotifyOnce::new(),
            released: Arc::new(Notify::new()),
            count: 0,
            all_done: Signal::new(true),
            grace_period: None,
            acquire_timeout,
            max_count,
        }
    }

    /// Takes a slot.
    fn permit(&mut self) -> (permit: Permit)
        requires
            old(self).well_formed(),
        ensures
            final(self).well_formed(),
            final(self)@ == old(self)@.entered(),
            final(self).same_signals(*old(self)),
            permit.is_for(*final(self)),
    {
        self.count = self.count.wrapping_add(1);
        let empty = self.count == 0;
        if self.all_done.is_up() != empty {
            self.all_done.set(empty);
        }
        assert(self.same_signals(*old(self))) by {
            assert forall|rx: watch::Receiver<bool>| #[trigger]
                self.signals_all_done(rx) == old(self).signals_all_done(rx) by {
                assert(self.all_done.reaches(rx) == old(self).all_done.reaches(rx));
            }
        }
        Permit { gate: self.released.clone() }
    }

    /// The current grace period (if any).
    pub fn grace_period(&self) -> (grace: Option<Duration>)
        ensures
            grace == self@.grace,
    {
        self.grace_period
    }

    /// The number of permits in use.
    pub fn count(&self) -> (count: usize)
        ensures
            count == self@.count,
    {
        self.count
    }

    /// Triggers a forced (hard) shutdown.
    pub fn force_shutdown(&mut self)
        requires
            old(self).well_formed(),
        ensures
            final(self).well_formed(),
            final(self)@ == old(self)@.forced(),
            final(self).same_signals(*old(self)),
    {
        self.shutdown.notify_waiters();
    }

    /// Begins a graceful shutdown phase and records the optional grace period.
    /// This does not imply a forced shutdown.
    ///
    /// `None` means indefinite grace period (critical tasks mode).
    pub fn graceful_shutdown(&mut self, duration: Option<Duration>)
        requires
            old(self).well_formed(),
        ensures
            final(self).well_formed(),
            final(self)@ == old(self)@.graceful(duration),
            final(self).same_signals(*old(self)),
    {
        self.grace_period = duration;
        self.graceful.notify_waiters();
    }

    pub fn is_shutting_down(&self) -> (closing: bool)
        ensures
            closing == self@.graceful,
    {
        self.graceful.is_notified()
    }

    /// A receiver to wait for the forced (hard) shutdown signal with. The signal
    /// is not given for a clean drain.
    pub fn wait_forced_shutdown(&self) -> (rx: watch::Receiver<bool>)
        requires
            self.well_formed(),
        ensures
            self.signals_forced(rx),
    {
        self.shutdown.notified()
    }

    /// A receiver to wait for graceful shutdown to begin with.
    pub fn wait_graceful_shutdown(&self) -> (rx: watch::Receiver<bool>)
        requires
            self.well_formed(),
        ensures
            self.signals_graceful(rx),
    {
        self.graceful.notified()
    }

    /// A receiver to wait for all permits to be given back with. It holds `true`
    /// while none is in use.
    pub fn wait_last_permit(&self) -> (rx: watch::Receiver<bool>)
        requires
            self.well_formed(),
        ensures
            self.signals_all_done(rx),
    {
        self.all_done.receiver()
    }

    /// What wakes the tasks that wait for a slot.
    pub fn wait_slot(&self) -> (signal: Arc<Notify>)
        ensures
            signal == self.slot_signal(),
    {
        self.released.clone()
    }

    /// Enters this gate, waiting up to the configured acquire timeout if this gate
    /// is currently at capacity.
    pub fn enter(&mut self, event: EnterEvent) -> (action: EnterAction)
        requires
            old(self).well_formed(),
        ensures
            final(self).well_formed(),
            old(self)@.enters(event, action),
            final(self)@ == if action is Enter {
                old(self)@.entered()
            } else {
                old(self)@
            },
            final(self).same_signals(*old(self)),
            action matches EnterAction::Enter(permit) ==> permit.is_for(*final(self)),
    {
        match event {
            EnterEvent::Asked { waited } => {
                if self.graceful.is_notified() {
                    return EnterAction::Refuse(Error::ShuttingDown);
                }
                let room = match self.max_count {
                    Some(max) => self.count < max,
                    None => true,
                };
                if room {
                    return EnterAction::Enter(self.permit());
                }
                if waited.as_nanos() >= self.acquire_timeout.as_nanos() {
                    return EnterAction::Refuse(Error::AcquireTimeout(self.acquire_timeout));
                }
                EnterAction::Wait(self.acquire_timeout.saturating_sub(waited))
            },
            EnterEvent::ShutDown => EnterAction::Refuse(Error::ShuttingDown),
            EnterEvent::TimedOut => EnterAction::Refuse(
                Error::AcquireTimeout(self.acquire_timeout),
            ),
        }
    }

    /// Tries to enter this gate at once, without waiting for capacity.
    pub fn try_enter(&mut self) -> (result: Result<Permit, Error>)
        requires
            old(self).well_formed(),
        ensures
            final(self).well_formed(),
            old(self)@.tried(result),
            final(self)@ == if result is Ok {
                old(self)@.entered()
            } else {
                old(self)@
            },
            final(self).same_signals(*old(self)),
            result matches Ok(permit) ==> permit.is_for(*final(self)),
    {
        if self.graceful.is_notified() {
            return Err(Error::ShuttingDown);
        }
        if let Some(max) = self.max_count {
            if self.count >= max {
                return Err(Error::AtCapacity);
            }
        }
        Ok(self.permit())
    }

    /// Gives a permit back. Signals that all is done where it was the last one,
    /// and wakes the tasks that wait for a slot where there is one now. Says
    /// whether there is.
    pub fn leave(&mut self, permit: Permit) -> (freed: bool)
        requires
            old(self).well_formed(),
            old(self)@.count > 0,
            permit.is_for(*old(self)),
        ensures
            final(self).well_formed(),
            final(self)@ == old(self)@.left(),
            final(self).told_all_done() == (final(self)@.count == 0),
            freed == old(self)@.leaving_frees_slot(),
            freed ==> call_ensures(Notify::notify_waiters, (&*old(self).slot_signal(),), ()),
            final(self).same_signals(*old(self)),
    {
        self.count = self.count - 1;
        if self.count == 0 {
            self.all_done.set(true);
        }
        proof {
            assert forall|rx: watch::Receiver<bool>| #[trigger]
                self.signals_all_done(rx) == old(self).signals_all_done(rx) by {
                assert(self.all_done.reaches(rx) == old(self).all_done.reaches(rx));
            }
            self.waiting_tasks_are_told();
        }
        let freed = match self.max_count {
            Some(max) => self.count < max,
            None => false,
        };
        if freed {
            self.released.notify_waiters();
        }
        freed
    }

    /// Waits until all permits are given back, respecting the grace period. If it
    /// runs out, this triggers [`Gate::force_shutdown`] and finishes at once;
    /// permits may then still be in use for a short time.
    pub fn wait_all_done(&mut self, event: DrainEvent) -> (action: DrainAction)
        requires
            old(self).well_formed(),
        ensures
            final(self).well_formed(),
            old(self)@.drains(event, action),
            final(self)@ == if event is TimedOut {
                old(self)@.forced()
            } else {
                old(self)@
            },
            final(self).same_signals(*old(self)),
    {
        match event {
            DrainEvent::TimedOut => {
                self.force_shutdown();
                DrainAction::Finish
            },
            _ => {
                if self.count == 0 {
                    DrainAction::Finish
                } else {
                    DrainAction::Wait(self.grace_period())
                }
            },
        }
    }
}

impl Permit {
    /// The slot signal that the permit carries, by which it knows its gate.
    pub closed spec fn slot_signal(self) -> Arc<Notify> {
        self.gate
    }

    /// The permit was taken at `gate`.
    pub open spec fn is_for(self, gate: Gate) -> bool {
        self.slot_signal() == gate.slot_signal()
    }

    /// Whether `gate`, which the permit is for, is closing.
    pub fn is_shutting_down(&self, gate: &Gate) -> (closing: bool)
        requires
            self.is_for(*gate),
        ensures
            closing == gate@.graceful,
    {
        gate.is_shutting_down()
    }

    /// A receiver to wait for graceful shutdown to begin with.
    pub fn wait_graceful_shutdown(&self, gate: &Gate) -> (rx: watch::Receiver<bool>)
        requires
            gate.well_formed(),
            self.is_for(*gate),
        ensures
            gate.signals_graceful(rx),
    {
        gate.wait_graceful_shutdown()
    }

    /// A receiver to wait for the forced (hard) shutdown signal with.
    pub fn wait_forced_shutdown(&self, gate: &Gate) -> (rx: watch::Receiver<bool>)
        requires
            gate.well_formed(),
            self.is_for(*gate),
        ensures
            gate.signals_forced(rx),
    {
        gate.wait_forced_shutdown()
    }
}

/// How long to wait for a slot unless told otherwise.
pub fn default_acquire_timeout() -> (timeout: Duration)
    ensures
        nanos(timeout) == 100_000_000,
{
    Duration::from_millis(100)
}

impl GateState {
    /// No more permits are in use than there may be.
    pub open spec fn within_capacity(self) -> bool {
        self.max_count matches Some(max) ==> self.count <= max
    }

    /// `n` permits are given back, one after another.
    pub open spec fn left_times(self, n: nat) -> Self
        decreases n,
    {
        if n == 0 {
            self
        } else {
            self.left_times((n - 1) as nat).left()
        }
    }
}

/// Every operation keeps the number of permits within the maximum.
pub proof fn capacity_is_kept(s: GateState, grace: Option<Duration>)
    requires
        s.within_capacity(),
    ensures
        forall|max: Option<usize>, timeout: Duration|
            (#[trigger] GateState::opened(max, timeout)).within_capacity(),
        s.has_room() ==> s.entered().within_capacity(),
        s.count > 0 ==> s.left().within_capacity(),
        s.graceful(grace).within_capacity(),
        s.forced().within_capacity(),
{
}

/// A closing gate lets nobody in, whether they ask at once or have waited.
pub proof fn closing_gate_admits_nobody(
    s: GateState,
    result: Result<Permit, Error>,
    event: EnterEvent,
    action: EnterAction,
)
    requires
        s.graceful,
        s.tried(result),
        s.enters(event, action),
    ensures
        result matches Err(e) && e is ShuttingDown,
        !(action is Enter),
        event is Asked ==> action == EnterAction::Refuse(Error::ShuttingDown),
{
}

/// Once a graceful shutdown has begun, no operation takes it back. The same
/// holds of a forced shutdown.
pub proof fn signals_are_sticky(s: GateState, grace: Option<Duration>)
    ensures
        s.graceful(grace).graceful,
        s.graceful ==> s.entered().graceful && s.left().graceful && s.forced().graceful,
        s.forced().forced,
        s.forced ==> s.entered().forced && s.left().forced && s.graceful(grace).forced,
{
}

/// Giving a permit back undoes taking it, where the counter does not wrap around.
pub proof fn leaving_undoes_entering(s: GateState)
    requires
        s.count < usize::MAX,
    ensures
        s.entered().count == s.count + 1,
        s.entered().left() == s,
{
}

/// Giving permits back counts down to the number left.
proof fn lemma_left_times(s: GateState, n: nat)
    requires
        n <= s.count,
    ensures
        s.left_times(n).count == s.count - n,
    decreases n,
{
    if n > 0 {
        lemma_left_times(s, (n - 1) as nat);
    }
}

/// A gate drains, closing or not: when as many permits are given back as are in
/// use, it is empty, and whoever waits for it to drain is done.
pub proof fn gate_drains(s: GateState, event: DrainEvent, action: DrainAction)
    requires
        s.left_times(s.count as nat).drains(event, action),
    ensures
        s.left_times(s.count as nat).count == 0,
        action is Finish,
{
    lemma_left_times(s, s.count as nat);
}

/// Whoever waits for a gate to drain stops only where no permit is in use or the
/// grace period ran out.
pub proof fn drain_waits_for_every_permit(s: GateState, event: DrainEvent, action: DrainAction)
    requires
        s.drains(event, action),
    ensures
        action is Finish ==> s.count == 0 || event is TimedOut,
        s.count > 0 && !(event is TimedOut) ==> action == DrainAction::Wait(s.grace),
{
}

/// The grace period reads back as it was given, and other operations keep it.
pub proof fn grace_period_reads_back(s: GateState, given: Option<Duration>)
    ensures
        s.graceful(given).grace == given,
        s.entered().grace == s.grace,
        s.left().grace == s.grace,
        s.forced().grace == s.grace,
{
}

/// A task waits for a slot no longer than the acquire timeout in all: who is told
/// to wait and then waits that long is not told to wait again.
pub proof fn waiting_ends(
    s: GateState,
    later: GateState,
    waited: Duration,
    remaining: Duration,
    waited_in_all: Duration,
    action: EnterAction,
)
    requires
        later.acquire_timeout == s.acquire_timeout,
        s.enters(EnterEvent::Asked { waited }, EnterAction::Wait(remaining)),
        nanos(waited_in_all) >= nanos(waited) + nanos(remaining),
        later.enters(EnterEvent::Asked { waited: waited_in_all }, action),
    ensures
        0 < nanos(remaining) <= nanos(s.acquire_timeout),
        !(action is Wait),
{
}

/// What happens at a gate, one thing at a time.
pub enum GateStep {
    /// A permit is taken.
    Entered,
    /// A permit is given back.
    Left,
    /// A graceful shutdown begins, with this grace period.
    Closing(Option<Duration>),
    /// A forced shutdown is called.
    Forced,
    /// Someone is turned away, waits, or only looks.
    Nothing,
}

impl GateState {
    /// What `step` makes of a gate. Permits are taken only from a gate that is open
    /// and has room, and given back only where one is in use.
    pub open spec fn steps(self, step: GateStep, after: Self) -> bool {
        match step {
            GateStep::Entered => !self.graceful && self.has_room() && after == self.entered(),
            GateStep::Left => self.count > 0 && after == self.left(),
            GateStep::Closing(grace) => after == self.graceful(grace),
            GateStep::Forced => after == self.forced(),
            GateStep::Nothing => after == self,
        }
    }
}

/// `states` are a gate from its making on, one more after each step.
pub open spec fn is_gate_history(
    max_count: Option<usize>,
    acquire_timeout: Duration,
    states: Seq<GateState>,
    steps: Seq<GateStep>,
) -> bool {
    &&& states.len() == steps.len() + 1
    &&& states[0] == GateState::opened(max_count, acquire_timeout)
    &&& forall|k: int|
        0 <= k < steps.len() ==> states[k].steps(#[trigger] steps[k], states[k + 1])
}

/// The permits that were taken and not given back.
pub open spec fn live_permits(steps: Seq<GateStep>) -> int
    decreases steps.len(),
{
    if steps.len() == 0 {
        0
    } else {
        live_permits(steps.drop_last()) + match steps.last() {
            GateStep::Entered => 1int,
            GateStep::Left => -1int,
            _ => 0int,
        }
    }
}

/// Asking to enter at once is a step of the history: a permit is taken, or nothing
/// happens.
pub proof fn trying_is_a_step(s: GateState, result: Result<Permit, Error>, after: GateState)
    requires
        s.tried(result),
        after == if result is Ok {
            s.entered()
        } else {
            s
        },
    ensures
        s.steps(
            if result is Ok {
                GateStep::Entered
            } else {
                GateStep::Nothing
            },
            after,
        ),
{
}

/// So is asking to enter with a wait.
pub proof fn entering_is_a_step(
    s: GateState,
    event: EnterEvent,
    action: EnterAction,
    after: GateState,
)
    requires
        s.enters(event, action),
        after == if action is Enter {
            s.entered()
        } else {
            s
        },
    ensures
        s.steps(
            if action is Enter {
                GateStep::Entered
            } else {
                GateStep::Nothing
            },
            after,
        ),
{
}

/// Over any history the count is the number of live permits, and that is never
/// above the maximum. Without a maximum this holds while no more permits are live
/// than the counter holds.
pub proof fn count_is_the_number_of_live_permits(
    max_count: Option<usize>,
    acquire_timeout: Duration,
    states: Seq<GateState>,
    steps: Seq<GateStep>,
)
    requires
        is_gate_history(max_count, acquire_timeout, states, steps),
        max_count is None ==> forall|n: int|
            0 <= n <= steps.len() ==> #[trigger] live_permits(steps.take(n)) <= usize::MAX,
    ensures
        states.last().count == live_permits(steps),
        states.last().max_count == max_count,
        max_count matches Some(max) ==> live_permits(steps) <= max,
    decreases steps.len(),
{
    assert(steps.take(steps.len() as int) == steps);
    if steps.len() > 0 {
        let fewer = steps.drop_last();
        let earlier = states.drop_last();
        assert(is_gate_history(max_count, acquire_timeout, earlier, fewer)) by {
            assert forall|k: int| 0 <= k < fewer.len() implies earlier[k].steps(
                #[trigger] fewer[k],
                earlier[k + 1],
            ) by {
                assert(fewer[k] == steps[k]);
            }
        }
        if max_count is None {
            assert forall|n: int| 0 <= n <= fewer.len() implies #[trigger] live_permits(
                fewer.take(n),
            ) <= usize::MAX by {
                assert(fewer.take(n) == steps.take(n));
            }
            assert(live_permits(steps.take(steps.len() as int)) <= usize::MAX);
        }
        count_is_the_number_of_live_permits(max_count, acquire_timeout, earlier, fewer);
        let last = steps.len() - 1;
        assert(states[last].steps(steps[last], states[last + 1]));
    }
}

/// A new gate is open, empty and unforced, with no grace period, and keeps the
/// limits that it was made with.
pub proof fn new_gate_is_open_and_empty(max_count: Option<usize>, acquire_timeout: Duration)
    ensures
        GateState::opened(max_count, acquire_timeout).count == 0,
        GateState::opened(max_count, acquire_timeout).max_count == max_count,
        GateState::opened(max_count, acquire_timeout).acquire_timeout == acquire_timeout,
        GateState::opened(max_count, acquire_timeout).grace is None,
        !GateState::opened(max_count, acquire_timeout).graceful,
        !GateState::opened(max_count, acquire_timeout).forced,
{
}

/// A permit counts for one, and taking or giving one back changes nothing else.
pub proof fn a_permit_counts_for_one(s: GateState)
    ensures
        s.count < usize::MAX ==> s.entered().count == s.count + 1,
        s.count == usize::MAX ==> s.entered().count == 0,
        s.entered().max_count == s.max_count,
        s.entered().acquire_timeout == s.acquire_timeout,
        s.entered().graceful == s.graceful,
        s.entered().forced == s.forced,
        s.entered().grace == s.grace,
        s.count > 0 ==> s.left().count == s.count - 1,
        s.left().max_count == s.max_count,
        s.left().acquire_timeout == s.acquire_timeout,
        s.left().graceful == s.graceful,
        s.left().forced == s.forced,
        s.left().grace == s.grace,
{
}

/// Shutting down changes nothing but what it is for: a graceful shutdown closes a
/// gate and records the grace period, a forced one is only called.
pub proof fn shutdown_keeps_accepted_work(s: GateState, grace: Option<Duration>)
    ensures
        s.graceful(grace).graceful,
        s.graceful(grace).grace == grace,
        s.graceful(grace).count == s.count,
        s.graceful(grace).max_count == s.max_count,
        s.graceful(grace).acquire_timeout == s.acquire_timeout,
        s.graceful(grace).forced == s.forced,
        s.forced().forced,
        s.forced().graceful == s.graceful,
        s.forced().grace == s.grace,
        s.forced().count == s.count,
        s.forced().max_count == s.max_count,
        s.forced().acquire_timeout == s.acquire_timeout,
{
}

/// Asking at once comes to a permit exactly at an open gate below its maximum. A
/// closing gate says so, whether or not it is full, and a full one says that.
pub proof fn permits_are_given_below_the_maximum(s: GateState, result: Result<Permit, Error>)
    requires
        s.tried(result),
    ensures
        result is Ok <==> !s.graceful && (s.max_count is None || s.count < s.max_count->0),
        s.graceful ==> (result matches Err(e) && e is ShuttingDown),
        !s.graceful && s.max_count is Some && s.count >= s.max_count->0 ==> (result matches Err(e)
            && e is AtCapacity),
{
}

/// A task that asks at an open gate without room waits, unless it has waited for
/// the acquire timeout already. It is told to wait for all that is left of the
/// timeout, however little it has waited so far.
pub proof fn full_gate_makes_tasks_wait(
    s: GateState,
    max: usize,
    waited: Duration,
    action: EnterAction,
)
    requires
        s.enters(EnterEvent::Asked { waited }, action),
        !s.graceful,
        s.max_count == Some(max),
        s.count >= max,
    ensures
        nanos(waited) < nanos(s.acquire_timeout) ==> (action matches EnterAction::Wait(remaining)
            && nanos(remaining) + nanos(waited) == nanos(s.acquire_timeout)),
        nanos(waited) >= nanos(s.acquire_timeout) ==> (action matches EnterAction::Refuse(e) && e
            == Error::AcquireTimeout(s.acquire_timeout)),
{
}

/// A task that asks at an open gate with room enters, however long it has waited;
/// at a closing gate it never does.
pub proof fn gate_with_room_lets_tasks_in(s: GateState, waited: Duration, action: EnterAction)
    requires
        s.enters(EnterEvent::Asked { waited }, action),
    ensures
        action is Enter <==> !s.graceful && (s.max_count is None || s.count < s.max_count->0),
        s.graceful ==> (action matches EnterAction::Refuse(e) && e is ShuttingDown),
{
}

/// Shutdown interrupts a wait at once, and a wait that runs out is refused with the
/// timeout, full or not.
pub proof fn waits_are_cut_short(s: GateState, closed: EnterAction, late: EnterAction)
    requires
        s.enters(EnterEvent::ShutDown, closed),
        s.enters(EnterEvent::TimedOut, late),
    ensures
        closed matches EnterAction::Refuse(e) && e is ShuttingDown,
        late matches EnterAction::Refuse(e) && e == Error::AcquireTimeout(s.acquire_timeout),
{
}

/// Asking at once and asking with a wait agree on who gets in.
pub proof fn both_ways_in_agree(
    s: GateState,
    result: Result<Permit, Error>,
    waited: Duration,
    action: EnterAction,
)
    requires
        s.tried(result),
        s.enters(EnterEvent::Asked { waited }, action),
    ensures
        result is Ok <==> action is Enter,
{
}

/// A gate with a maximum frees a slot when a permit is given back exactly where
/// fewer permits than the maximum are left; one without has no slots to wait for.
pub proof fn slots_are_freed_below_the_maximum(s: GateState)
    requires
        s.count > 0,
    ensures
        s.max_count is None ==> !s.leaving_frees_slot(),
        s.max_count is Some ==> (s.leaving_frees_slot() <==> s.count - 1 < s.max_count->0),
{
}

/// Whoever waits for a gate to drain is done exactly where no permit is in use or
/// the grace period ran out, and else waits for the grace period that was set.
pub proof fn drains_wait_for_the_grace_period(
    s: GateState,
    asked: DrainAction,
    told: DrainAction,
    late: DrainAction,
)
    requires
        s.drains(DrainEvent::Asked, asked),
        s.drains(DrainEvent::AllDone, told),
        s.drains(DrainEvent::TimedOut, late),
    ensures
        s.count == 0 ==> asked is Finish && told is Finish,
        s.count > 0 ==> (asked matches DrainAction::Wait(limit) && limit == s.grace),
        s.count > 0 ==> (told matches DrainAction::Wait(limit) && limit == s.grace),
        late is Finish,
{
}

/// A step changes the number of live permits by one or not at all, and nothing is
/// live at first.
pub proof fn live_permits_change_by_one(steps: Seq<GateStep>, grace: Option<Duration>)
    ensures
        live_permits(Seq::<GateStep>::empty()) == 0,
        live_permits(steps.push(GateStep::Entered)) == live_permits(steps) + 1,
        live_permits(steps.push(GateStep::Left)) == live_permits(steps) - 1,
        live_permits(steps.push(GateStep::Closing(grace))) == live_permits(steps),
        live_permits(steps.push(GateStep::Forced)) == live_permits(steps),
        live_permits(steps.push(GateStep::Nothing)) == live_permits(steps),
{
    assert(steps.push(GateStep::Entered).drop_last() =~= steps);
    assert(steps.push(GateStep::Left).drop_last() =~= steps);
    assert(steps.push(GateStep::Closing(grace)).drop_last() =~= steps);
    assert(steps.push(GateStep::Forced).drop_last() =~= steps);
    assert(steps.push(GateStep::Nothing).drop_last() =~= steps);
}

/// What keeps the signals keeps every task that waits: a receiver that was handed
/// out before still waits for the same, a slot is signalled where it was, and the
/// permits in use are still good.
pub proof fn tasks_that_wait_are_kept(
    before: Gate,
    after: Gate,
    rx: watch::Receiver<bool>,
    permit: Permit,
)
    requires
        after.same_signals(before),
    ensures
        before.signals_graceful(rx) <==> after.signals_graceful(rx),
        before.signals_forced(rx) <==> after.signals_forced(rx),
        before.signals_all_done(rx) <==> after.signals_all_done(rx),
        before.slot_signal() == after.slot_signal(),
        permit.is_for(before) <==> permit.is_for(after),
        permit.is_for(before) <==> permit.slot_signal() == before.slot_signal(),
{
    assert(after.signals_graceful(rx) == before.signals_graceful(rx));
    assert(after.signals_forced(rx) == before.signals_forced(rx));
    assert(after.signals_all_done(rx) == before.signals_all_done(rx));
}

} // verus!
