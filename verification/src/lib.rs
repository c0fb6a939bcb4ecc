//! Service composition for applications made of several services: a registry of
//! typed providers with one lifecycle order, a runtime for their long-running
//! tasks, and gates that drain accepted work on shutdown.
//!
//! Awaiting, spawning and sharing between tasks happen outside this crate. What
//! is here decides what is done next and keeps the state that the decision rests
//! on.
pub use crate::gate::Gate;
pub use crate::gate::Permit;
pub use crate::guard::Guard;
pub use crate::guard::GuardGroup;
pub use crate::registry::BoxError;
pub use crate::registry::Error;
pub use crate::registry::Provider;
pub use crate::registry::Registry;
pub use crate::registry::ReloadState;
pub use crate::registry::Reloadable;
pub use crate::registry::Result;
pub use crate::registry::Runnable;
pub use crate::runtime::Runtime;
pub use crate::state::SharedState;

pub mod count;
pub mod gate;
pub mod guard;
pub mod registry;
pub mod runtime;
pub mod signal;
pub mod state;
pub mod text;
pub mod time;
