//! Registering, resolving and ordering providers.
use std::any::TypeId;
use std::future::Future;
use std::sync::Arc;
use std::sync::Mutex;

use runtime_rs::registry::identity::recall_type;
use runtime_rs::registry::priority;
use runtime_rs::registry::provider::name_of;
use runtime_rs::registry::sweep::reload_verdict;
use runtime_rs::registry::sweep::Sweep;
use runtime_rs::Error;
use runtime_rs::Provider;
use runtime_rs::registry::ProviderOrder;
use runtime_rs::Registry;
use runtime_rs::ReloadState;
use runtime_rs::Reloadable;
use runtime_rs::Result;
use runtime_rs::Runnable;
use tokio_util::sync::ReusableBoxFuture;

#[derive(Default)]
struct State {
    log: Mutex<Vec<String>>,
    reject: Mutex<Option<&'static str>>,
}

impl State {
    fn note(&self, line: String) {
        self.log.lock().unwrap().push(line);
    }

    fn log(&self) -> Vec<String> {
        self.log.lock().unwrap().clone()
    }

    fn outcome(&self, name: &'static str) -> Result<()> {
        if *self.reject.lock().unwrap() == Some(name) {
            Err(Error::msg("rejected"))
        } else {
            Ok(())
        }
    }
}

impl ReloadState for State {
    fn reload<'a>(&'a self) -> ReusableBoxFuture<'a, Result<()>> {
        ReusableBoxFuture::new(async move { self.outcome("state") })
    }
}

fn wait_for<F: Future>(work: F) -> F::Output {
    tokio::runtime::Builder::new_current_thread().build().unwrap().block_on(work)
}

/// A provider that does everything and says so.
struct Db {
    port: u16,
}

impl Provider<State> for Db {
    fn name(&self) -> &'static str {
        "db"
    }

    fn boot<'a>(&'a self, state: &'a State) -> ReusableBoxFuture<'a, Result<()>> {
        ReusableBoxFuture::new(async move {
            state.note(String::from("boot db"));
            state.outcome("db")
        })
    }

    fn validate(&self, state: &State) -> Result<()> {
        state.note(String::from("validate db"));
        state.outcome("db")
    }

    fn as_reloadable(&self) -> Option<&dyn Reloadable<State>> {
        Some(self)
    }
}

impl Reloadable<State> for Db {
    fn reload<'a>(&'a self, state: &'a State) -> ReusableBoxFuture<'a, Result<()>> {
        ReusableBoxFuture::new(async move {
            state.note(String::from("reload db"));
            state.outcome("db")
        })
    }
}

/// A provider that depends on [`Db`] and runs.
struct Cache;

impl Provider<State> for Cache {
    fn name(&self) -> &'static str {
        "cache"
    }

    fn order(&self) -> ProviderOrder {
        ProviderOrder::new().after::<Db>()
    }

    fn validate(&self, state: &State) -> Result<()> {
        state.note(String::from("validate cache"));
        state.outcome("cache")
    }

    fn as_runnable(self: Arc<Self>) -> Option<Arc<dyn Runnable<State>>> {
        Some(self)
    }
}

impl Runnable<State> for Cache {
    fn run(self: Arc<Self>, state: State) -> ReusableBoxFuture<'static, Result<()>> {
        ReusableBoxFuture::new(async move { state.outcome("cache") })
    }
}

/// A provider that must precede [`Cache`], runs first and reloads.
struct Api;

impl Provider<State> for Api {
    fn name(&self) -> &'static str {
        "api"
    }

    fn run_priority(&self) -> Option<u8> {
        Some(priority::EARLY)
    }

    fn order(&self) -> ProviderOrder {
        ProviderOrder::new().before::<Cache>()
    }

    fn validate(&self, state: &State) -> Result<()> {
        state.note(String::from("validate api"));
        state.outcome("api")
    }

    fn as_reloadable(&self) -> Option<&dyn Reloadable<State>> {
        Some(self)
    }

    fn as_runnable(self: Arc<Self>) -> Option<Arc<dyn Runnable<State>>> {
        Some(self)
    }
}

impl Reloadable<State> for Api {
    fn priority(&self) -> Option<u8> {
        Some(priority::LATE)
    }

    fn reload<'a>(&'a self, _state: &'a State) -> ReusableBoxFuture<'a, Result<()>> {
        ReusableBoxFuture::new(async { Ok(()) })
    }
}

impl Runnable<State> for Api {
    fn run(self: Arc<Self>, _state: State) -> ReusableBoxFuture<'static, Result<()>> {
        ReusableBoxFuture::new(async { Ok(()) })
    }
}

/// A provider with nothing of its own.
struct Plain;

impl Provider<State> for Plain {}

struct Early;

impl Provider<State> for Early {
    fn name(&self) -> &'static str {
        "early"
    }

    fn boot_priority(&self) -> Option<u8> {
        Some(priority::EARLY)
    }

    fn run_priority(&self) -> Option<u8> {
        Some(priority::EARLY)
    }

    fn as_runnable(self: Arc<Self>) -> Option<Arc<dyn Runnable<State>>> {
        Some(self)
    }
}

impl Runnable<State> for Early {
    fn run(self: Arc<Self>, _state: State) -> ReusableBoxFuture<'static, Result<()>> {
        ReusableBoxFuture::new(async { Err(Error::recoverable("later")) })
    }
}

fn names(sweep: &mut Sweep<State>) -> Vec<&'static str> {
    let mut seen = Vec::new();
    while let Some(provider) = sweep.current() {
        seen.push(provider.shared.name());
        assert!(sweep.settled(Ok(())).is_none());
    }
    seen
}

#[test]
fn resolve_gives_back_what_was_registered() {
    let mut registry = Registry::<State>::new();
    let db = Arc::new(Db { port: 5432 });
    assert!(registry.resolve::<Db>().is_none());
    registry.insert(db.clone()).insert(Arc::new(Cache));
    let found = registry.resolve::<Db>().expect("registered");
    assert!(Arc::ptr_eq(&found, &db));
    assert_eq!(found.port, 5432);
    assert!(registry.resolve::<Cache>().is_some());
    assert!(registry.resolve::<Api>().is_none());
}

#[test]
fn resolving_survives_registration() {
    let mut registry = Registry::<State>::new();
    registry.insert(Arc::new(Db { port: 1 }));
    let before = registry.resolve::<Db>().unwrap();
    registry.insert(Arc::new(Api)).insert(Arc::new(Plain));
    let after = registry.resolve::<Db>().unwrap();
    assert!(Arc::ptr_eq(&before, &after));
}

#[test]
fn registering_again_changes_nothing() {
    let mut registry = Registry::<State>::default();
    registry.insert(Arc::new(Db { port: 1 })).insert(Arc::new(Db { port: 2 }));
    assert_eq!(registry.providers().len(), 1);
    assert_eq!(registry.resolve::<Db>().unwrap().port, 1);
}

#[test]
fn with_typed_runs_on_the_registered_value() {
    let mut registry = Registry::<State>::new();
    registry.insert(Arc::new(Db { port: 7 }));
    assert_eq!(registry.with_typed(|db: &Db| db.port + 1), Some(8));
    assert_eq!(registry.with_typed(|_: &Cache| 0), None);
}

#[test]
fn names_are_the_providers_own() {
    let mut registry = Registry::<State>::new();
    registry.insert(Arc::new(Cache)).insert(Arc::new(Plain)).insert(Arc::new(Db { port: 1 }));
    assert_eq!(registry.list_names(), vec!["cache", "provider", "db"]);
    let providers = registry.providers();
    assert_eq!(providers.len(), 3);
    assert_eq!(name_of(&providers[2]), "db");
}

#[test]
fn lifecycle_names_follow_hints_then_priority_then_registration() {
    let mut registry = Registry::<State>::new();
    registry
        .insert(Arc::new(Cache))
        .insert(Arc::new(Api))
        .insert(Arc::new(Plain))
        .insert(Arc::new(Db { port: 1 }))
        .insert(Arc::new(Early));
    // `api` takes its place from its reload priority, and `cache` waits for it.
    assert_eq!(
        registry.lifecycle_names().unwrap(),
        vec!["early", "provider", "db", "api", "cache"]
    );
}

#[test]
fn without_hints_priority_decides() {
    let mut registry = Registry::<State>::new();
    registry.insert(Arc::new(Api)).insert(Arc::new(Plain)).insert(Arc::new(Early));
    assert_eq!(registry.lifecycle_names().unwrap(), vec!["early", "provider", "api"]);
}

#[test]
fn hints_about_absent_types_and_about_oneself_count_for_nothing() {
    struct Selfish;
    impl Provider<State> for Selfish {
        fn order(&self) -> ProviderOrder {
            ProviderOrder::new().before::<Selfish>().after::<Selfish>().after::<Db>()
        }
    }
    let mut registry = Registry::<State>::new();
    registry.insert(Arc::new(Selfish));
    assert_eq!(registry.lifecycle_names().unwrap(), vec!["provider"]);
}

#[test]
fn plan_is_found_anew_after_registration() {
    let mut registry = Registry::<State>::new();
    registry.insert(Arc::new(Cache));
    assert_eq!(registry.lifecycle_names().unwrap(), vec!["cache"]);
    assert_eq!(registry.lifecycle_names().unwrap(), vec!["cache"]);
    registry.insert(Arc::new(Db { port: 1 }));
    assert_eq!(registry.lifecycle_names().unwrap(), vec!["db", "cache"]);
}

#[test]
fn order_found_on_a_snapshot_is_learned_unless_there_were_registrations() {
    let mut registry = Registry::<State>::new();
    registry.insert(Arc::new(Cache)).insert(Arc::new(Db { port: 3 }));
    let mut snapshot = registry.snapshot();
    assert_eq!(snapshot.resolve::<Db>().unwrap().port, 3);
    assert!(Arc::ptr_eq(
        &snapshot.resolve::<Db>().unwrap(),
        &registry.resolve::<Db>().unwrap()
    ));
    assert_eq!(snapshot.lifecycle_names().unwrap(), vec!["db", "cache"]);
    let unplanned = registry.snapshot();
    registry.learn(snapshot);
    registry.learn(unplanned);
    assert_eq!(registry.lifecycle_names().unwrap(), vec!["db", "cache"]);

    let mut late = registry.snapshot();
    assert_eq!(late.lifecycle_names().unwrap(), vec!["db", "cache"]);
    registry.insert(Arc::new(Early));
    registry.learn(late);
    assert_eq!(registry.lifecycle_names().unwrap(), vec!["early", "db", "cache"]);
}

#[test]
fn empty_registry_plans_nothing() {
    let mut registry = Registry::<State>::new();
    assert!(registry.lifecycle_names().unwrap().is_empty());
    assert!(registry.validate_all(&State::default()).is_ok());
    assert!(registry.boot_all().unwrap().current().is_none());
    assert!(registry.run_all().is_empty());
}

struct CycleA;
struct CycleB;

impl Provider<State> for CycleA {
    fn name(&self) -> &'static str {
        "cycle-a"
    }

    fn order(&self) -> ProviderOrder {
        ProviderOrder::new().after::<CycleB>()
    }
}

impl Provider<State> for CycleB {
    fn name(&self) -> &'static str {
        "cycle-b"
    }

    fn order(&self) -> ProviderOrder {
        ProviderOrder::new().after::<CycleA>()
    }
}

#[test]
fn cycles_are_named_and_stop_every_phase() {
    let message = "provider lifecycle order cycle detected: cycle-a, cycle-b";
    let mut registry = Registry::<State>::new();
    registry.insert(Arc::new(CycleA)).insert(Arc::new(Plain)).insert(Arc::new(CycleB));
    assert_eq!(registry.lifecycle_names().unwrap_err().to_string(), message);
    assert_eq!(registry.validate_all(&State::default()).unwrap_err().to_string(), message);
    assert_eq!(registry.boot_all().err().unwrap().to_string(), message);
    assert_eq!(registry.shutdown_all().err().unwrap().to_string(), message);
    assert_eq!(registry.reload_all(Ok(())).err().unwrap().to_string(), message);
}

#[test]
fn validation_stops_at_the_first_failure() {
    let mut registry = Registry::<State>::new();
    registry.insert(Arc::new(Cache)).insert(Arc::new(Api)).insert(Arc::new(Db { port: 1 }));
    let state = State::default();
    assert!(registry.validate_all(&state).is_ok());
    assert_eq!(state.log(), vec!["validate db", "validate api", "validate cache"]);

    let state = State::default();
    *state.reject.lock().unwrap() = Some("api");
    let e = registry.validate_all(&state).unwrap_err();
    assert_eq!(e.to_string(), "provider 'api' failed during validate: rejected");
    assert_eq!(state.log(), vec!["validate db", "validate api"]);
}

#[test]
fn phases_share_one_order() {
    let mut registry = Registry::<State>::new();
    registry.insert(Arc::new(Cache)).insert(Arc::new(Api)).insert(Arc::new(Db { port: 1 }));
    assert_eq!(names(&mut registry.boot_all().unwrap()), vec!["db", "api", "cache"]);
    assert_eq!(names(&mut registry.reload_all(Ok(())).unwrap()), vec!["db", "api", "cache"]);
    assert_eq!(names(&mut registry.shutdown_all().unwrap()), vec!["cache", "api", "db"]);
}

#[test]
fn boot_stops_at_the_first_failure() {
    let mut registry = Registry::<State>::new();
    registry.insert(Arc::new(Plain)).insert(Arc::new(Db { port: 1 })).insert(Arc::new(Cache));
    let state = State::default();
    *state.reject.lock().unwrap() = Some("db");
    let mut sweep = registry.boot_all().unwrap();
    let mut verdicts = Vec::new();
    while let Some(provider) = sweep.current() {
        let outcome = wait_for(provider.shared.boot(&state));
        verdicts.push(sweep.booted(outcome));
    }
    assert_eq!(verdicts.len(), 2);
    assert!(verdicts[0].is_ok());
    let e = verdicts.pop().unwrap().unwrap_err();
    assert_eq!(e.to_string(), "provider 'db' failed during boot: rejected");
    assert_eq!(state.log(), vec!["boot db"]);
}

#[test]
fn shutdown_goes_on_after_failures() {
    let mut registry = Registry::<State>::new();
    registry.insert(Arc::new(Plain)).insert(Arc::new(Cache));
    let mut sweep = registry.shutdown_all().unwrap();
    let first = sweep.current().unwrap();
    assert_eq!(first.shared.name(), "cache");
    let failure = sweep.settled(Err(Error::msg("stuck"))).unwrap();
    assert_eq!(failure.to_string(), "stuck");
    let second = sweep.current().unwrap();
    assert_eq!(second.shared.name(), "provider");
    assert!(wait_for(second.shared.shutdown(&State::default())).is_ok());
    assert!(sweep.settled(Ok(())).is_none());
    assert!(sweep.current().is_none());
}

#[test]
fn reload_passes_over_what_cannot_be_reloaded() {
    let mut registry = Registry::<State>::new();
    registry.insert(Arc::new(Plain)).insert(Arc::new(Db { port: 1 })).insert(Arc::new(Cache));
    let mut sweep = registry.reload_all(Ok(())).unwrap();
    let provider = sweep.current_reloadable().unwrap();
    assert_eq!(provider.shared.name(), "db");
    assert!(sweep.settled(Err(Error::msg("stale"))).is_some());
    assert!(sweep.current_reloadable().is_none());
    assert!(sweep.current().is_none());
}

#[test]
fn reload_stops_where_the_state_cannot_be_reloaded() {
    let mut registry = Registry::<State>::new();
    registry.insert(Arc::new(Db { port: 1 }));
    let state = State::default();
    *state.reject.lock().unwrap() = Some("state");
    let reloaded = wait_for(ReloadState::reload(&state));
    let e = registry.reload_all(reloaded).err().unwrap();
    assert_eq!(e.to_string(), "rejected");
    assert!(matches!(e, Error::Other(_)));
}

#[test]
fn reload_one_finds_the_provider_by_name() {
    let mut registry = Registry::<State>::new();
    registry.insert(Arc::new(Cache)).insert(Arc::new(Db { port: 1 }));
    let unknown = registry.reload_one("nobody").err().unwrap();
    assert_eq!(
        unknown.to_string(),
        "reload_by_name: no provider registered with name 'nobody'"
    );
    let fixed = registry.reload_one("cache").err().unwrap();
    assert_eq!(fixed.to_string(), "reload_by_name: provider 'cache' is not reloadable");

    let state = State::default();
    let provider = registry.reload_one("db").unwrap();
    let outcome = wait_for(provider.shared.as_reloadable().unwrap().reload(&state));
    assert!(reload_verdict(&provider, outcome).is_ok());
    assert_eq!(state.log(), vec!["reload db"]);

    *state.reject.lock().unwrap() = Some("db");
    let outcome = wait_for(provider.shared.as_reloadable().unwrap().reload(&state));
    let e = reload_verdict(&provider, outcome).unwrap_err();
    assert_eq!(e.to_string(), "reload of 'db' failed: rejected");
}

#[test]
fn names_in_order_are_the_listed_names_rearranged() {
    struct OtherPlain;
    impl Provider<State> for OtherPlain {}
    let mut registry = Registry::<State>::new();
    registry
        .insert(Arc::new(Cache))
        .insert(Arc::new(Plain))
        .insert(Arc::new(OtherPlain))
        .insert(Arc::new(Db { port: 1 }));
    let mut listed = registry.list_names();
    let mut in_order = registry.lifecycle_names().unwrap();
    assert_ne!(listed, in_order);
    listed.sort();
    in_order.sort();
    assert_eq!(listed, in_order);
    assert_eq!(listed, vec!["cache", "db", "provider", "provider"]);
}

#[test]
fn planning_in_between_makes_no_difference() {
    let mut one = Registry::<State>::new();
    let mut two = Registry::<State>::new();
    one.insert(Arc::new(Cache));
    two.insert(Arc::new(Cache));
    assert!(one.lifecycle_names().is_ok());
    one.insert(Arc::new(Db { port: 1 })).insert(Arc::new(Cache));
    two.insert(Arc::new(Db { port: 1 })).insert(Arc::new(Cache));
    assert!(one.validate_all(&State::default()).is_ok());
    one.insert(Arc::new(Early));
    two.insert(Arc::new(Early));
    assert_eq!(one.lifecycle_names().unwrap(), two.lifecycle_names().unwrap());
    assert_eq!(one.list_names(), vec!["cache", "db", "early"]);
}

#[test]
fn runnables_start_by_priority_and_name() {
    let mut registry = Registry::<State>::new();
    registry
        .insert(Arc::new(Cache))
        .insert(Arc::new(Early))
        .insert(Arc::new(Plain))
        .insert(Arc::new(Api));
    let tasks = registry.run_all();
    let started: Vec<&'static str> = tasks.iter().map(|task| task.name).collect();
    assert_eq!(started, vec!["api", "early", "cache"]);
    for task in tasks {
        let outcome = wait_for(task.runnable.shared.run(State::default()));
        if task.name == "early" {
            let e = outcome.unwrap_err().into_run(task.name);
            assert_eq!(e.to_string(), "runnable 'early' failed (recoverable): later");
        } else {
            assert!(outcome.is_ok());
        }
    }
}

#[test]
fn default_provider_does_nothing() {
    let state = State::default();
    assert_eq!(Provider::<State>::name(&Plain), "provider");
    assert_eq!(Provider::<State>::boot_priority(&Plain), None);
    assert_eq!(Provider::<State>::run_priority(&Plain), None);
    assert!(Plain.validate(&state).is_ok());
    assert!(Provider::<State>::as_reloadable(&Plain).is_none());
    assert!(Provider::<State>::as_runnable(Arc::new(Plain)).is_none());
    assert!(Provider::<State>::order(&Plain).before_types().is_empty());
    assert!(wait_for(Plain.boot(&state)).is_ok());
    assert!(wait_for(Plain.shutdown(&state)).is_ok());
    assert_eq!(Reloadable::<State>::priority(&Db { port: 1 }), None);
}

#[test]
fn as_any_gives_the_provider_back() {
    let db = Arc::new(Db { port: 9 });
    let any = Provider::<State>::as_any(db.clone());
    assert!(Arc::ptr_eq(&recall_type::<Db>(&any).unwrap(), &db));
    assert!(recall_type::<Cache>(&any).is_none());
}

#[test]
fn snapshot_stands_in_registration_order() {
    let mut registry = Registry::<State>::new();
    registry
        .insert(Arc::new(Cache))
        .insert(Arc::new(Early))
        .insert(Arc::new(Cache))
        .insert(Arc::new(Api));
    let nodes = registry.provider_entries_snapshot();
    let seen: Vec<(&'static str, u8)> = nodes.iter().map(|n| (n.name, n.priority)).collect();
    assert_eq!(seen, vec![("cache", 100), ("early", 50), ("api", 150)]);
    assert_eq!(nodes[0].type_id, TypeId::of::<Cache>());
    assert_eq!(nodes[0].after, vec![TypeId::of::<Db>()]);
    assert_eq!(nodes[2].before, vec![TypeId::of::<Cache>()]);
}

#[test]
fn hints_are_kept_in_the_order_given() {
    let order = ProviderOrder::default().before::<Db>().after::<Api>().before::<Cache>();
    assert_eq!(order.before_types(), &[TypeId::of::<Db>(), TypeId::of::<Cache>()]);
    assert_eq!(order.after_types(), &[TypeId::of::<Api>()]);
    let (before, after) = order.clone().into_types();
    assert_eq!(before.as_slice(), order.before_types());
    assert_eq!(after.as_slice(), order.after_types());
    assert!(ProviderOrder::new().before_types().is_empty());
    assert!(ProviderOrder::new().after_types().is_empty());
}

#[test]
fn priorities_have_their_values() {
    assert_eq!(
        [priority::FIRST, priority::EARLY, priority::NORMAL, priority::LATE, priority::LAST],
        [0, 50, 100, 150, 255]
    );
}
