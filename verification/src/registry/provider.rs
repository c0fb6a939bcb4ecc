//! The traits that services implement, and the calls the registry makes of
//! them.
//!
//! What a provider answers is its own affair. Contracts elsewhere speak of an
//! answer as one that the provider's method may give, and
//! [`answers_are_the_providers`] ties what is asked through a handle to the
//! methods of the provider behind it.
use std::any::TypeId;
use std::sync::Arc;
use tokio_util::sync::ReusableBoxFuture;
use vstd::prelude::*;
use crate::registry::error::Error;
use crate::registry::error::Result;
use crate::registry::identity::forget_type;
use crate::registry::identity::made_from;
use crate::registry::identity::type_id;
use crate::registry::identity::type_id_of;
use crate::registry::identity::AnyHandle;
use crate::registry::priority::NORMAL;

verus! {

/// `tokio_util::sync::ReusableBoxFuture`, carried as an opaque value: the
/// asynchronous work that a provider hands out. The registry never polls it.
#[verifier::external_type_specification]
#[verifier::external_body]
#[verifier::reject_recursive_types(T)]
pub struct ExReusableBoxFuture<'a, T>(ReusableBoxFuture<'a, T>);

/// What awaiting the work yields, of work that is done from the start.
pub uninterp spec fn yields(work: ReusableBoxFuture<'_, Result<()>>) -> Result<()>;

/// Calls `ReusableBoxFuture::new` with `std::future::ready`. The claim is that
/// awaiting the result yields `outcome`.
#[verifier::external_body]
pub(crate) fn ready_with<'a>(outcome: Result<()>) -> (work: ReusableBoxFuture<'a, Result<()>>)
    ensures
        yields(work) == outcome,
{
    ReusableBoxFuture::new(std::future::ready(outcome))
}

/// Type-based lifecycle ordering hints.
///
/// Numeric priorities still provide a coarse tie-breaker. `ProviderOrder` adds
/// explicit relationships between provider concrete types, so code can say "run
/// me before `T`" without relying on magic numbers or provider names.
#[derive(Clone, Debug)]
pub struct ProviderOrder {
    before: Vec<TypeId>,
    after: Vec<TypeId>,
}

impl ProviderOrder {
    /// The types to precede, in the order they were given.
    pub closed spec fn preceded(self) -> Seq<TypeId> {
        self.before@
    }

    /// The types to follow, in the order they were given.
    pub closed spec fn followed(self) -> Seq<TypeId> {
        self.after@
    }

    pub fn new() -> (order: Self)
        ensures
            order.preceded() == Seq::<TypeId>::empty(),
            order.followed() == Seq::<TypeId>::empty(),
    {
        ProviderOrder { before: Vec::new(), after: Vec::new() }
    }

    /// Adds: before the provider of type `T`.
    pub fn before<T: 'static>(self) -> (order: Self)
        ensures
            order.preceded() == self.preceded().push(type_id::<T>()),
            order.followed() == self.followed(),
    {
        let mut order = self;
        order.before.push(type_id_of::<T>());
        order
    }

    /// Adds: after the provider of type `T`.
    pub fn after<T: 'static>(self) -> (order: Self)
        ensures
            order.preceded() == self.preceded(),
            order.followed() == self.followed().push(type_id::<T>()),
    {
        let mut order = self;
        order.after.push(type_id_of::<T>());
        order
    }

    /// The types to precede and the types to follow.
    pub fn into_types(self) -> (types: (Vec<TypeId>, Vec<TypeId>))
        ensures
            types.0@ == self.preceded(),
            types.1@ == self.followed(),
    {
        (self.before, self.after)
    }

    pub fn before_types(&self) -> (types: &[TypeId])
        ensures
            types@ == self.preceded(),
    {
        self.before.as_slice()
    }

    pub fn after_types(&self) -> (types: &[TypeId])
        ensures
            types@ == self.followed(),
    {
        self.after.as_slice()
    }
}

impl Default for ProviderOrder {
    fn default() -> (order: Self)
        ensures
            order.preceded() == Seq::<TypeId>::empty(),
            order.followed() == Seq::<TypeId>::empty(),
    {
        ProviderOrder::new()
    }
}

/// Shared state that can be reloaded.
pub trait ReloadState: Send + Sync + Sized + 'static {
    fn reload<'a>(&'a self) -> (work: ReusableBoxFuture<'a, Result<()>>);
}

/// Anything that can hot-reload itself when config changes.
///
/// `reload()` is the same shape as `Provider::boot()`: re-read the config and
/// rebuild the runtime snapshot. Reload must NOT change which providers are
/// registered; it only refreshes the state of an already-registered provider.
pub trait Reloadable<S>: Send + Sync + 'static {
    /// Optional reload priority.
    ///
    /// Lower values run earlier among otherwise-ready providers. `None` means
    /// `priority::NORMAL`. Prefer `Provider::order()` for real dependency
    /// relationships.
    fn priority(&self) -> (priority: Option<u8>)
        default_ensures
            priority is None,
    {
        None
    }

    /// Reloads using the current shared state.
    fn reload<'a>(&'a self, state: &'a S) -> (work: ReusableBoxFuture<'a, Result<()>>);
}

/// Capability trait for providers that produce a long-running runtime task.
///
/// `run()` is the ONLY place in the lifecycle for long-running work. It must
/// NOT appear in `Provider::boot()`. A provider that is disabled at runtime
/// returns `Ok(())` at once instead of starting the long task.
pub trait Runnable<S>: Send + Sync + 'static {
    /// Runs the long-lived provider task.
    fn run(self: Arc<Self>, state: S) -> (work: ReusableBoxFuture<'static, Result<()>>);
}

/// Any service that can be registered in the registry.
///
/// Each provider lives in four explicit phases. Registration constructs it in a
/// placeholder state; `boot()` makes it usable, in lifecycle order, after every
/// registration; `Runnable::run()` is the only place for long-lived loops;
/// `shutdown()` is best-effort cleanup. Reload follows the same shape as boot.
pub trait Provider<S>: Send + Sync + 'static {
    /// Human-readable label for logs and diagnostics.
    fn name(&self) -> (name: &'static str)
        default_ensures
            name@ == "provider"@,
    {
        "provider"
    }

    /// Optional boot priority. Lower values run earlier among otherwise-ready
    /// providers. `None` means `priority::NORMAL`.
    fn boot_priority(&self) -> (priority: Option<u8>)
        default_ensures
            priority is None,
    {
        None
    }

    /// Optional runtime task start priority. Lower values run earlier. `None`
    /// means `priority::NORMAL`.
    fn run_priority(&self) -> (priority: Option<u8>)
        default_ensures
            priority is None,
    {
        None
    }

    /// Optional type-based boot and reload ordering hints.
    fn order(&self) -> (order: ProviderOrder)
        default_ensures
            order.preceded() == Seq::<TypeId>::empty(),
            order.followed() == Seq::<TypeId>::empty(),
    {
        ProviderOrder::new()
    }

    /// Bootstrap-time initialization. Does nothing unless implemented.
    fn boot<'a>(&'a self, state: &'a S) -> (work: ReusableBoxFuture<'a, Result<()>>)
        default_ensures
            yields(work) == Ok::<(), Error>(()),
    {
        ready_with(Ok(()))
    }

    /// Graceful-shutdown cleanup. Implementations should be idempotent because
    /// shutdown paths may be re-entered. Does nothing unless implemented.
    fn shutdown<'a>(&'a self, state: &'a S) -> (work: ReusableBoxFuture<'a, Result<()>>)
        default_ensures
            yields(work) == Ok::<(), Error>(()),
    {
        ready_with(Ok(()))
    }

    /// Synchronous preflight validation, to fail fast on bad config.
    fn validate(&self, state: &S) -> (outcome: Result<()>)
        default_ensures
            outcome == Ok::<(), Error>(()),
    {
        Ok(())
    }

    /// Downcast hook for typed resolve APIs.
    fn as_any(self: Arc<Self>) -> (any: AnyHandle) where Self: Sized
        default_ensures
            made_from(any, self),
    {
        forget_type(self)
    }

    /// Optional capability hook.
    fn as_reloadable(&self) -> (reloadable: Option<&dyn Reloadable<S>>)
        default_ensures
            reloadable is None,
    {
        None
    }

    /// Optional capability hook.
    fn as_runnable(self: Arc<Self>) -> (runnable: Option<Arc<dyn Runnable<S>>>)
        default_ensures
            runnable is None,
    {
        None
    }
}

/// A shared handle, through a pointer of type `P`.
pub struct Handle<P> {
    pub shared: P,
}

/// The pointer in a handle, where there is one.
pub open spec fn pointer_of<P>(handle: Option<Handle<P>>) -> Option<P> {
    match handle {
        Some(h) => Some(h.shared),
        None => None,
    }
}

/// A provider whose concrete type is forgotten.
pub type DynProvider<S> = Handle<Arc<dyn Provider<S>>>;

/// A runnable whose concrete type is forgotten.
pub type DynRunnable<S> = Handle<Arc<dyn Runnable<S>>>;

/// The provider may answer the name `name`.
pub open spec fn answers_name<S: 'static, P: Provider<S> + ?Sized>(
    handle: Handle<Arc<P>>,
    name: &'static str,
) -> bool {
    call_ensures(<P as Provider<S>>::name, (&*handle.shared,), name)
}

/// The provider may answer the boot priority `priority`.
pub open spec fn answers_boot_priority<S: 'static, P: Provider<S> + ?Sized>(
    handle: Handle<Arc<P>>,
    priority: Option<u8>,
) -> bool {
    call_ensures(<P as Provider<S>>::boot_priority, (&*handle.shared,), priority)
}

/// The provider may answer the run priority `priority`.
pub open spec fn answers_run_priority<S: 'static, P: Provider<S> + ?Sized>(
    handle: Handle<Arc<P>>,
    priority: Option<u8>,
) -> bool {
    call_ensures(<P as Provider<S>>::run_priority, (&*handle.shared,), priority)
}

/// The provider may answer the ordering hints `order`.
pub open spec fn answers_order<S: 'static, P: Provider<S> + ?Sized>(
    handle: Handle<Arc<P>>,
    order: ProviderOrder,
) -> bool {
    call_ensures(<P as Provider<S>>::order, (&*handle.shared,), order)
}

/// Validating the provider against `state` may come to `outcome`.
pub open spec fn answers_validation<S: 'static, P: Provider<S> + ?Sized>(
    handle: Handle<Arc<P>>,
    state: &S,
    outcome: Result<()>,
) -> bool {
    call_ensures(<P as Provider<S>>::validate, (&*handle.shared, state), outcome)
}

/// The provider may answer the reload capability `reloadable`.
pub open spec fn answers_reloadable<S: 'static, P: Provider<S> + ?Sized>(
    handle: Handle<Arc<P>>,
    reloadable: Option<&dyn Reloadable<S>>,
) -> bool {
    call_ensures(<P as Provider<S>>::as_reloadable, (&*handle.shared,), reloadable)
}

/// The reload capability may answer the priority `priority`.
pub open spec fn answers_reload_priority<S: 'static, R: Reloadable<S> + ?Sized>(
    reloadable: &R,
    priority: Option<u8>,
) -> bool {
    call_ensures(<R as Reloadable<S>>::priority, (reloadable,), priority)
}

/// The provider may answer the run capability `runnable`.
pub open spec fn answers_runnable<S: 'static, P: Provider<S> + ?Sized>(
    handle: Handle<Arc<P>>,
    runnable: Option<DynRunnable<S>>,
) -> bool {
    call_ensures(<P as Provider<S>>::as_runnable, (handle.shared,), pointer_of(runnable))
}

/// Booting the provider with `state` may hand out `work`.
pub open spec fn answers_boot<S: 'static, P: Provider<S> + ?Sized>(
    handle: Handle<Arc<P>>,
    state: &S,
    work: ReusableBoxFuture<'_, Result<()>>,
) -> bool {
    call_ensures(<P as Provider<S>>::boot, (&*handle.shared, state), work)
}

/// Shutting the provider down with `state` may hand out `work`.
pub open spec fn answers_shutdown<S: 'static, P: Provider<S> + ?Sized>(
    handle: Handle<Arc<P>>,
    state: &S,
    work: ReusableBoxFuture<'_, Result<()>>,
) -> bool {
    call_ensures(<P as Provider<S>>::shutdown, (&*handle.shared, state), work)
}

/// Asks a provider for its name.
pub fn name_of<S: 'static, P: Provider<S> + ?Sized>(handle: &Handle<Arc<P>>) -> (name: &'static str)
    ensures
        answers_name::<S, P>(*handle, name),
{
    handle.shared.name()
}

/// Asks a provider for its boot priority.
pub fn boot_priority_of<S: 'static, P: Provider<S> + ?Sized>(
    handle: &Handle<Arc<P>>,
) -> (priority: Option<u8>)
    ensures
        answers_boot_priority::<S, P>(*handle, priority),
{
    handle.shared.boot_priority()
}

/// Asks a provider for its run priority.
pub fn run_priority_of<S: 'static, P: Provider<S> + ?Sized>(
    handle: &Handle<Arc<P>>,
) -> (priority: Option<u8>)
    ensures
        answers_run_priority::<S, P>(*handle, priority),
{
    handle.shared.run_priority()
}

/// Asks a provider for its ordering hints.
pub fn order_of<S: 'static, P: Provider<S> + ?Sized>(
    handle: &Handle<Arc<P>>,
) -> (order: ProviderOrder)
    ensures
        answers_order::<S, P>(*handle, order),
{
    handle.shared.order()
}

/// Asks a provider to validate itself.
pub fn validate_with<S: 'static, P: Provider<S> + ?Sized>(
    handle: &Handle<Arc<P>>,
    state: &S,
) -> (outcome: Result<()>)
    ensures
        answers_validation::<S, P>(*handle, state, outcome),
{
    handle.shared.validate(state)
}

/// Asks a provider for its reload capability.
pub fn reloadable_of<S: 'static, P: Provider<S> + ?Sized>(handle: &Handle<Arc<P>>) -> (reloadable:
    Option<&dyn Reloadable<S>>)
    ensures
        answers_reloadable::<S, P>(*handle, reloadable),
{
    handle.shared.as_reloadable()
}

/// Asks a reload capability for its priority.
pub fn reload_priority_of<S: 'static, R: Reloadable<S> + ?Sized>(reloadable: &R) -> (priority:
    Option<u8>)
    ensures
        answers_reload_priority::<S, R>(reloadable, priority),
{
    reloadable.priority()
}

/// Asks a provider for its run capability.
pub fn runnable_of<S: 'static, P: Provider<S> + ?Sized>(handle: &Handle<Arc<P>>) -> (runnable:
    Option<DynRunnable<S>>)
    ensures
        answers_runnable::<S, P>(*handle, runnable),
{
    match handle.shared.clone().as_runnable() {
        Some(shared) => {
            let runnable = Handle { shared };
            Some(runnable)
        },
        None => None,
    }
}

/// Another handle to the same provider.
pub fn share<S: 'static>(handle: &DynProvider<S>) -> (other: DynProvider<S>)
    ensures
        other == *handle,
{
    let shared = handle.shared.clone();
    let other = Handle { shared };
    other
}

/// A provider with its concrete type forgotten.
pub open spec fn as_dyn<S: 'static, C: Provider<S>>(item: &C) -> &dyn Provider<S> {
    item
}

/// The handle points to `item`.
pub open spec fn points_to<S: 'static, C: Provider<S>>(
    handle: DynProvider<S>,
    item: Arc<C>,
) -> bool {
    &*handle.shared == as_dyn::<S, C>(&*item)
}

/// Coerces an `Arc<C>` to `Arc<dyn Provider<S>>`, the unsized coercion of
/// `std::sync::Arc`. The claim is that the result points to `item`, and that a call
/// through it is a call of `C`'s own method on `item`.
#[verifier::external_body]
fn unsize<S: 'static, C: Provider<S>>(item: Arc<C>) -> (handle: DynProvider<S>)
    ensures
        points_to(handle, item),
        forall|name: &'static str| #[trigger]
            answers_name(handle, name) ==> call_ensures(
                <C as Provider<S>>::name,
                (&*item,),
                name,
            ),
        forall|priority: Option<u8>| #[trigger]
            answers_boot_priority(handle, priority) ==> call_ensures(
                <C as Provider<S>>::boot_priority,
                (&*item,),
                priority,
            ),
        forall|priority: Option<u8>| #[trigger]
            answers_run_priority(handle, priority) ==> call_ensures(
                <C as Provider<S>>::run_priority,
                (&*item,),
                priority,
            ),
        forall|order: ProviderOrder| #[trigger]
            answers_order(handle, order) ==> call_ensures(
                <C as Provider<S>>::order,
                (&*item,),
                order,
            ),
        forall|state: &S, outcome: Result<()>| #[trigger]
            answers_validation(handle, state, outcome) ==> call_ensures(
                <C as Provider<S>>::validate,
                (&*item, state),
                outcome,
            ),
        forall|capability: Option<&dyn Reloadable<S>>| #[trigger]
            answers_reloadable(handle, capability) ==> call_ensures(
                <C as Provider<S>>::as_reloadable,
                (&*item,),
                capability,
            ),
        forall|capability: Option<DynRunnable<S>>| #[trigger]
            answers_runnable(handle, capability) ==> call_ensures(
                <C as Provider<S>>::as_runnable,
                (item,),
                pointer_of(capability),
            ),
        forall|state: &S, work: ReusableBoxFuture<'_, Result<()>>| #[trigger]
            answers_boot(handle, state, work) ==> call_ensures(
                <C as Provider<S>>::boot,
                (&*item, state),
                work,
            ),
        forall|state: &S, work: ReusableBoxFuture<'_, Result<()>>| #[trigger]
            answers_shutdown(handle, state, work) ==> call_ensures(
                <C as Provider<S>>::shutdown,
                (&*item, state),
                work,
            ),
{
    Handle { shared: item }
}

/// The handle leads to `item`.
pub closed spec fn leads_to<S: 'static, C: Provider<S>>(
    handle: DynProvider<S>,
    item: Arc<C>,
) -> bool {
    call_ensures(unsize::<S, C>, (item,), handle)
}

/// What is answered through a handle is what the provider it leads to answers.
pub proof fn answers_are_the_providers<S: 'static, C: Provider<S>>(
    handle: DynProvider<S>,
    item: Arc<C>,
)
    requires
        leads_to(handle, item),
    ensures
        forall|name: &'static str| #[trigger]
            answers_name(handle, name) ==> call_ensures(
                <C as Provider<S>>::name,
                (&*item,),
                name,
            ),
        forall|priority: Option<u8>| #[trigger]
            answers_boot_priority(handle, priority) ==> call_ensures(
                <C as Provider<S>>::boot_priority,
                (&*item,),
                priority,
            ),
        forall|priority: Option<u8>| #[trigger]
            answers_run_priority(handle, priority) ==> call_ensures(
                <C as Provider<S>>::run_priority,
                (&*item,),
                priority,
            ),
        forall|order: ProviderOrder| #[trigger]
            answers_order(handle, order) ==> call_ensures(
                <C as Provider<S>>::order,
                (&*item,),
                order,
            ),
        forall|state: &S, outcome: Result<()>| #[trigger]
            answers_validation(handle, state, outcome) ==> call_ensures(
                <C as Provider<S>>::validate,
                (&*item, state),
                outcome,
            ),
        forall|capability: Option<&dyn Reloadable<S>>| #[trigger]
            answers_reloadable(handle, capability) ==> call_ensures(
                <C as Provider<S>>::as_reloadable,
                (&*item,),
                capability,
            ),
        forall|capability: Option<DynRunnable<S>>| #[trigger]
            answers_runnable(handle, capability) ==> call_ensures(
                <C as Provider<S>>::as_runnable,
                (item,),
                pointer_of(capability),
            ),
        forall|state: &S, work: ReusableBoxFuture<'_, Result<()>>| #[trigger]
            answers_boot(handle, state, work) ==> call_ensures(
                <C as Provider<S>>::boot,
                (&*item, state),
                work,
            ),
        forall|state: &S, work: ReusableBoxFuture<'_, Result<()>>| #[trigger]
            answers_shutdown(handle, state, work) ==> call_ensures(
                <C as Provider<S>>::shutdown,
                (&*item, state),
                work,
            ),
{
}

/// A provider has one handle: two that lead to it are the same.
pub proof fn handles_to_one_provider_are_the_same<S: 'static, C: Provider<S>>(
    one: DynProvider<S>,
    two: DynProvider<S>,
    item: Arc<C>,
)
    requires
        leads_to(one, item),
        leads_to(two, item),
    ensures
        one == two,
        points_to(one, item),
{
}

/// A handle to `item` that forgets its concrete type.
pub fn handle_to<S: 'static, C: Provider<S>>(item: Arc<C>) -> (handle: DynProvider<S>)
    ensures
        leads_to(handle, item),
{
    unsize::<S, C>(item)
}

/// `priority` is what the provider's reload capability answers, or `None` where
/// it has none.
pub open spec fn reads_reload_priority<S: 'static>(
    handle: DynProvider<S>,
    priority: Option<u8>,
) -> bool {
    exists|capability: Option<&dyn Reloadable<S>>| #[trigger]
        answers_reloadable(handle, capability) && match capability {
            Some(reloadable) => answers_reload_priority::<S, dyn Reloadable<S>>(
                reloadable,
                priority,
            ),
            None => priority is None,
        }
}

/// `priority` is the provider's place in the lifecycle: its boot priority, else
/// its reload priority, else `NORMAL`.
pub open spec fn reads_lifecycle_priority<S: 'static>(
    handle: DynProvider<S>,
    priority: u8,
) -> bool {
    exists|boot: Option<u8>| #[trigger]
        answers_boot_priority(handle, boot) && match boot {
            Some(given) => priority == given,
            None => exists|reload: Option<u8>| #[trigger]
                reads_reload_priority(handle, reload) && priority == match reload {
                    Some(given) => given,
                    None => NORMAL,
                },
        }
}

/// The provider's place in the lifecycle.
pub fn lifecycle_priority<S: 'static>(handle: &DynProvider<S>) -> (priority: u8)
    ensures
        reads_lifecycle_priority(*handle, priority),
{
    let boot = boot_priority_of(handle);
    assert(answers_boot_priority(*handle, boot));
    match boot {
        Some(given) => given,
        None => {
            let capability = reloadable_of(handle);
            assert(answers_reloadable(*handle, capability));
            let reload = match capability {
                Some(reloadable) => reload_priority_of::<S, dyn Reloadable<S>>(reloadable),
                None => None,
            };
            assert(reads_reload_priority(*handle, reload));
            match reload {
                Some(given) => given,
                None => NORMAL,
            }
        },
    }
}

} // verus!
