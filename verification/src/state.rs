//! Shared application state.
use tokio_util::sync::CancellationToken;
use vstd::prelude::*;

verus! {

/// `tokio_util::sync::CancellationToken`, carried as an opaque value.
#[verifier::external_type_specification]
#[verifier::external_body]
pub struct ExCancellationToken(CancellationToken);

/// `CancellationToken::cancel`: cancels the token and its children. Nothing is
/// claimed of the call, as its effect shows only in what holders of the token
/// observe; contracts state that it was made.
pub assume_specification[ CancellationToken::cancel ](token: &CancellationToken);

/// `CancellationToken::is_cancelled`: nothing is claimed of the answer, as any
/// holder of the token may cancel it at any time.
pub assume_specification[ CancellationToken::is_cancelled ](token: &CancellationToken) -> (cancelled:
    bool);

/// Shared application state passed to providers and runtime tasks.
///
/// Applications keep ownership of their real state; this trait only says how the
/// runtime observes process shutdown. The recommended shape is a cheap cloneable
/// handle around a private inner value.
pub trait SharedState: Clone + Send + Sync + 'static {
    /// The token that is cancelled on shutdown.
    fn shutdown_token(&self) -> (token: CancellationToken);

    /// Begins shutdown.
    fn initiate_shutdown(&self)
        default_ensures
            exists|token: CancellationToken| #[trigger]
                call_ensures(Self::shutdown_token, (self,), token) && call_ensures(
                    CancellationToken::cancel,
                    (&token,),
                    (),
                ),
    {
        let token = self.shutdown_token();
        token.cancel();
    }

    /// Whether shutdown has begun.
    fn is_shutting_down(&self) -> (closing: bool)
        default_ensures
            exists|token: CancellationToken| #[trigger]
                call_ensures(Self::shutdown_token, (self,), token) && call_ensures(
                    CancellationToken::is_cancelled,
                    (&token,),
                    closing,
                ),
    {
        let token = self.shutdown_token();
        token.is_cancelled()
    }
}

} // verus!
