//! Ordering of providers by type dependencies.
use std::sync::Arc;
use std::sync::Mutex;

use runtime_rs::registry::error::Result;
use runtime_rs::registry::provider::Provider;
use runtime_rs::registry::provider::ProviderOrder;
use runtime_rs::registry::Registry;

#[derive(Clone, Default)]
struct TestState {
    seen: Arc<Mutex<Vec<&'static str>>>,
}

struct DbProvider;
struct CacheProvider;
struct ApiProvider;

impl Provider<TestState> for DbProvider {
    fn name(&self) -> &'static str {
        "db"
    }

    fn validate(&self, state: &TestState) -> Result<()> {
        state.seen.lock().expect("test log poisoned").push("db");
        Ok(())
    }
}

impl Provider<TestState> for CacheProvider {
    fn name(&self) -> &'static str {
        "cache"
    }

    fn order(&self) -> ProviderOrder {
        ProviderOrder::new().after::<DbProvider>()
    }

    fn validate(&self, state: &TestState) -> Result<()> {
        state.seen.lock().expect("test log poisoned").push("cache");
        Ok(())
    }
}

impl Provider<TestState> for ApiProvider {
    fn name(&self) -> &'static str {
        "api"
    }

    fn order(&self) -> ProviderOrder {
        ProviderOrder::new().after::<CacheProvider>()
    }

    fn validate(&self, state: &TestState) -> Result<()> {
        state.seen.lock().expect("test log poisoned").push("api");
        Ok(())
    }
}

#[test]
fn lifecycle_order_uses_type_dependencies() {
    let state = TestState::default();
    let mut registry = Registry::<TestState>::new();

    registry
        .insert(Arc::new(ApiProvider))
        .insert(Arc::new(CacheProvider))
        .insert(Arc::new(DbProvider));

    registry.validate_all(&state).expect("validation should succeed");

    let seen = state.seen.lock().expect("test log poisoned").clone();
    assert_eq!(seen, vec!["db", "cache", "api"]);
}

struct CycleA;
struct CycleB;

impl Provider<TestState> for CycleA {
    fn name(&self) -> &'static str {
        "cycle-a"
    }

    fn order(&self) -> ProviderOrder {
        ProviderOrder::new().after::<CycleB>()
    }
}

impl Provider<TestState> for CycleB {
    fn name(&self) -> &'static str {
        "cycle-b"
    }

    fn order(&self) -> ProviderOrder {
        ProviderOrder::new().after::<CycleA>()
    }
}

#[test]
fn lifecycle_order_rejects_cycles() {
    let state = TestState::default();
    let mut registry = Registry::<TestState>::new();

    registry.insert(Arc::new(CycleA)).insert(Arc::new(CycleB));

    let err = registry.validate_all(&state).expect_err("cycle must be rejected");
    assert!(err.to_string().contains("provider lifecycle order cycle detected"));
}
