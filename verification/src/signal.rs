//! Signals that wake waiting tasks.
use tokio::sync::watch;
use tokio::sync::Notify;
use vstd::prelude::*;

verus! {

/// `tokio::sync::watch::Sender`, carried as an opaque value.
#[verifier::external_type_specification]
#[verifier::external_body]
#[verifier::reject_recursive_types(T)]
pub struct ExSender<T>(watch::Sender<T>);

/// `tokio::sync::watch::Receiver`, carried as an opaque value.
#[verifier::external_type_specification]
#[verifier::external_body]
#[verifier::reject_recursive_types(T)]
pub struct ExReceiver<T>(watch::Receiver<T>);

/// `tokio::sync::Notify`, carried as an opaque value.
#[verifier::external_type_specification]
#[verifier::external_body]
pub struct ExNotify(Notify);

/// The values put into a watch channel through this sender, oldest first,
/// starting with the one the channel was made with.
pub uninterp spec fn values_sent(tx: watch::Sender<bool>) -> Seq<bool>;

/// The channel that a sender sends into.
pub uninterp spec fn sends_into(tx: watch::Sender<bool>) -> nat;

/// The channel that a receiver observes.
pub uninterp spec fn observes(rx: watch::Receiver<bool>) -> nat;

/// Calls `watch::channel`. The claim is that `first` is the one value in the
/// channel so far, and that the receiver observes what the sender sends.
#[verifier::external_body]
fn open_channel(first: bool) -> (ends: (watch::Sender<bool>, watch::Receiver<bool>))
    ensures
        values_sent(ends.0) == seq![first],
        observes(ends.1) == sends_into(ends.0),
{
    watch::channel(first)
}

/// Calls `watch::Sender::send_replace`. The claim is that `value` becomes the
/// latest value put into the channel through this sender, and that it sends into
/// the same channel as before.
#[verifier::external_body]
fn send(tx: &mut watch::Sender<bool>, value: bool)
    ensures
        values_sent(*final(tx)) == values_sent(*old(tx)).push(value),
        sends_into(*final(tx)) == sends_into(*old(tx)),
{
    tx.send_replace(value);
}

/// Calls `watch::Receiver::clone`. The claim is that the result observes the same
/// channel. Which value it sees is left unsaid, as that depends on when it looks.
#[verifier::external_body]
fn another_receiver(rx: &watch::Receiver<bool>) -> (other: watch::Receiver<bool>)
    ensures
        observes(other) == observes(*rx),
{
    rx.clone()
}

/// `Notify::new`: nothing is claimed of the value.
pub assume_specification[ Notify::new ]() -> (notify: Notify);

/// `Notify::notify_waiters`: wakes the tasks that wait at this moment. Nothing is
/// claimed of the call, as its effect shows only in those tasks; contracts state
/// that it was made.
pub assume_specification[ Notify::notify_waiters ](notify: &Notify);

/// A signal that is up or down. All who wait for it to be up, now or later, see
/// it as it is.
#[derive(Debug)]
pub struct Signal {
    up: bool,
    tx: watch::Sender<bool>,
    rx: watch::Receiver<bool>,
}

impl Signal {
    /// Waiting tasks observe the channel, and it tells them what the signal is.
    pub closed spec fn well_formed(self) -> bool {
        &&& observes(self.rx) == sends_into(self.tx)
        &&& values_sent(self.tx).len() > 0
        &&& values_sent(self.tx).last() == self.up
    }

    /// Whether the signal is up.
    pub closed spec fn up(self) -> bool {
        self.up
    }

    /// The signal as waiting tasks were last told.
    pub closed spec fn told(self) -> bool {
        values_sent(self.tx).last()
    }

    /// `rx` waits for this signal: it observes the channel that the signal is
    /// sent into.
    pub closed spec fn reaches(self, rx: watch::Receiver<bool>) -> bool {
        observes(rx) == sends_into(self.tx)
    }

    /// The sender through which waiting tasks are told.
    pub closed spec fn sender(self) -> watch::Sender<bool> {
        self.tx
    }

    /// Whoever waits for the signal observes the channel that it is sent into, and
    /// the last value that was sent there is the signal as it is.
    pub proof fn waiting_tasks_observe_it(self, rx: watch::Receiver<bool>)
        requires
            self.well_formed(),
        ensures
            self.reaches(rx) ==> observes(rx) == sends_into(self.sender()),
            values_sent(self.sender()).len() > 0,
            values_sent(self.sender()).last() == self.up(),
    {
    }

    /// Waiting tasks were told what the signal is.
    pub proof fn told_is_up(self)
        requires
            self.well_formed(),
        ensures
            self.told() == self.up(),
    {
    }

    pub fn new(up: bool) -> (signal: Self)
        ensures
            signal.well_formed(),
            signal.up() == up,
    {
        let (tx, rx) = open_channel(up);
        Signal { up, tx, rx }
    }

    /// Puts the signal up or down and tells all who wait for it.
    pub fn set(&mut self, up: bool)
        requires
            old(self).well_formed(),
        ensures
            final(self).well_formed(),
            final(self).up() == up,
            forall|rx: watch::Receiver<bool>| #[trigger]
                final(self).reaches(rx) == old(self).reaches(rx),
    {
        self.up = up;
        send(&mut self.tx, up);
    }

    pub fn is_up(&self) -> (up: bool)
        ensures
            up == self.up(),
    {
        self.up
    }

    /// A receiver to wait for the signal with: it holds `true` while the signal
    /// is up.
    pub fn receiver(&self) -> (rx: watch::Receiver<bool>)
        requires
            self.well_formed(),
        ensures
            self.reaches(rx),
    {
        another_receiver(&self.rx)
    }
}

/// A sticky signal: once given, it stays given, and all who wait for it, now or
/// later, see it.
#[derive(Debug)]
pub struct NotifyOnce {
    signal: Signal,
}

impl NotifyOnce {
    /// Waiting tasks were told what the signal is.
    pub closed spec fn well_formed(self) -> bool {
        self.signal.well_formed()
    }

    /// Whether the signal is given.
    pub closed spec fn given(self) -> bool {
        self.signal.up()
    }

    /// The signal as waiting tasks were last told.
    pub closed spec fn told(self) -> bool {
        self.signal.told()
    }

    /// `rx` waits for this signal.
    pub closed spec fn reaches(self, rx: watch::Receiver<bool>) -> bool {
        self.signal.reaches(rx)
    }

    /// The sender through which waiting tasks are told.
    pub closed spec fn sender(self) -> watch::Sender<bool> {
        self.signal.sender()
    }

    /// Whoever waits for the signal observes the channel that it is sent into, and
    /// the last value that was sent there is whether it is given.
    pub proof fn waiting_tasks_observe_it(self, rx: watch::Receiver<bool>)
        requires
            self.well_formed(),
        ensures
            self.reaches(rx) ==> observes(rx) == sends_into(self.sender()),
            values_sent(self.sender()).len() > 0,
            values_sent(self.sender()).last() == self.given(),
    {
        self.signal.waiting_tasks_observe_it(rx);
    }

    /// Waiting tasks were told what the signal is.
    pub proof fn told_is_given(self)
        requires
            self.well_formed(),
        ensures
            self.told() == self.given(),
    {
        self.signal.told_is_up();
    }

    pub fn new() -> (signal: Self)
        ensures
            signal.well_formed(),
            !signal.given(),
    {
        NotifyOnce { signal: Signal::new(false) }
    }

    /// Gives the signal and wakes all who wait for it.
    pub fn notify_waiters(&mut self)
        requires
            old(self).well_formed(),
        ensures
            final(self).well_formed(),
            final(self).given(),
            forall|rx: watch::Receiver<bool>| #[trigger]
                final(self).reaches(rx) == old(self).reaches(rx),
    {
        self.signal.set(true);
        assert forall|rx: watch::Receiver<bool>| #[trigger]
            self.reaches(rx) == old(self).reaches(rx) by {
            assert(self.signal.reaches(rx) == old(self).signal.reaches(rx));
        }
    }

    pub fn is_notified(&self) -> (given: bool)
        ensures
            given == self.given(),
    {
        self.signal.is_up()
    }

    /// A receiver to wait for the signal with: it holds `true` once the signal is
    /// given.
    pub fn notified(&self) -> (rx: watch::Receiver<bool>)
        requires
            self.well_formed(),
        ensures
            self.reaches(rx),
    {
        self.signal.receiver()
    }
}

impl Default for NotifyOnce {
    fn default() -> (signal: Self)
        ensures
            signal.well_formed(),
            !signal.given(),
    {
        NotifyOnce::new()
    }
}

} // verus!
