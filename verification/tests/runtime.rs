//! The runtime's decisions, and shared state.
use std::task::Poll;

use runtime_rs::runtime::Polled;
use runtime_rs::runtime::TaskEnd;
use runtime_rs::runtime::WaitAction;
use runtime_rs::runtime::WaitEvent;
use runtime_rs::BoxError;
use runtime_rs::Error;
use runtime_rs::Runtime;
use runtime_rs::SharedState;
use tokio_util::sync::CancellationToken;

struct Unit;

#[test]
fn shutdown_and_an_empty_runtime_end_the_wait() {
    let runtime = Runtime::<Unit>::default();
    assert!(matches!(
        runtime.wait_until_shutdown(WaitEvent::ShutDown),
        WaitAction::Stop(Ok(()))
    ));
    assert!(matches!(
        runtime.wait_until_shutdown(WaitEvent::NoTasks),
        WaitAction::Stop(Ok(()))
    ));
    assert!(matches!(runtime.drain(None), WaitAction::Stop(Ok(()))));
}

#[test]
fn clean_ends_are_gone_on_from() {
    let runtime = Runtime::<Unit>::default();
    assert!(matches!(
        runtime.wait_until_shutdown(WaitEvent::Ended(TaskEnd::Finished)),
        WaitAction::Continue(None)
    ));
    assert!(matches!(runtime.drain(Some(TaskEnd::Finished)), WaitAction::Continue(None)));
}

#[test]
fn only_recoverable_failures_are_survived() {
    let runtime = Runtime::<Unit>::default();
    let soft = || TaskEnd::Failed(Error::recoverable("later").into_run("cache"));
    for action in [
        runtime.wait_until_shutdown(WaitEvent::Ended(soft())),
        runtime.drain(Some(soft())),
    ] {
        match action {
            WaitAction::Continue(Some(e)) => {
                assert_eq!(e.to_string(), "runnable 'cache' failed (recoverable): later")
            }
            other => panic!("expected to go on, got {other:?}"),
        }
    }
    let hard = || TaskEnd::Failed(Error::msg("broken").into_run("db"));
    for action in [
        runtime.wait_until_shutdown(WaitEvent::Ended(hard())),
        runtime.drain(Some(hard())),
    ] {
        match action {
            WaitAction::Stop(Err(e)) => assert_eq!(e.to_string(), "runnable 'db' failed: broken"),
            other => panic!("expected to stop, got {other:?}"),
        }
    }
}

#[test]
fn lost_tasks_are_fatal() {
    let runtime = Runtime::<Unit>::default();
    let lost = || TaskEnd::Lost(BoxError::msg(String::from("task panicked")));
    for action in [
        runtime.wait_until_shutdown(WaitEvent::Ended(lost())),
        runtime.drain(Some(lost())),
    ] {
        match action {
            WaitAction::Stop(Err(Error::Other(source))) => {
                assert_eq!(source.to_string(), "task panicked")
            }
            other => panic!("expected to stop, got {other:?}"),
        }
    }
}

#[test]
fn aborted_tasks_stay_until_they_are_awaited() {
    let executor = tokio::runtime::Builder::new_current_thread().build().unwrap();
    executor.block_on(async {
        let mut runtime = Runtime::<Unit>::default();
        assert_eq!(runtime.len(), 0);
        for _ in 0..3 {
            runtime.tasks_mut().spawn(std::future::pending());
        }
        assert_eq!(runtime.len(), 3);
        assert!(!runtime.is_drained());
        runtime.abort_and_drain();
        assert_eq!(runtime.len(), 3);
        let mut ended = 0;
        while let Some(outcome) = runtime.tasks_mut().join_next().await {
            assert!(outcome.unwrap_err().is_cancelled());
            ended += 1;
        }
        assert_eq!(ended, 3);
        assert_eq!(runtime.len(), 0);
        assert!(runtime.is_drained());
        assert!(matches!(runtime.drain(None), WaitAction::Stop(Ok(()))));
    });
}

/// Looks for the end of a task until there is one or no task is left.
async fn next_end(runtime: &mut Runtime<Unit>) -> Option<TaskEnd> {
    std::future::poll_fn(|cx| match runtime.poll_end(cx) {
        Polled::Pending => Poll::Pending,
        Polled::Empty => Poll::Ready(None),
        Polled::Ended(end) => Poll::Ready(Some(end)),
    })
    .await
}

#[test]
fn draining_leaves_no_task() {
    let executor = tokio::runtime::Builder::new_current_thread().build().unwrap();
    executor.block_on(async {
        let mut runtime = Runtime::<Unit>::default();
        assert!(next_end(&mut runtime).await.is_none());
        runtime.tasks_mut().spawn(async { Ok(()) });
        runtime.tasks_mut().spawn(async { Err(Error::msg("broken").into_run("db")) });
        runtime.tasks_mut().spawn(std::future::pending());
        let mut finished = 0;
        let mut failed = Vec::new();
        for _ in 0..2 {
            match next_end(&mut runtime).await {
                Some(TaskEnd::Finished) => finished += 1,
                Some(TaskEnd::Failed(e)) => failed.push(e.to_string()),
                other => panic!("unexpected {other:?}"),
            }
        }
        assert_eq!(finished, 1);
        assert_eq!(failed, vec!["runnable 'db' failed: broken"]);
        assert_eq!(runtime.len(), 1);

        runtime.abort_and_drain();
        match next_end(&mut runtime).await {
            Some(TaskEnd::Lost(source)) => {
                let e = source.inner.downcast_ref::<tokio::task::JoinError>().unwrap();
                assert!(e.is_cancelled());
            }
            other => panic!("unexpected {other:?}"),
        }
        assert!(next_end(&mut runtime).await.is_none());
        assert!(runtime.is_drained());
        assert!(matches!(runtime.drain(None), WaitAction::Stop(Ok(()))));
    });
}

#[test]
fn looking_for_an_end_takes_nothing_where_there_is_none() {
    let executor = tokio::runtime::Builder::new_current_thread().build().unwrap();
    executor.block_on(async {
        let mut runtime = Runtime::<Unit>::default();
        runtime.tasks_mut().spawn(std::future::pending());
        let polled = std::future::poll_fn(|cx| Poll::Ready(runtime.poll_end(cx))).await;
        assert!(matches!(polled, Polled::Pending));
        assert_eq!(runtime.len(), 1);
    });
}

#[derive(Clone)]
struct App {
    token: CancellationToken,
}

impl SharedState for App {
    fn shutdown_token(&self) -> CancellationToken {
        self.token.clone()
    }
}

#[test]
fn shutdown_is_seen_by_all_holders_of_the_state() {
    let app = App { token: CancellationToken::new() };
    let other = app.clone();
    assert!(!app.is_shutting_down());
    other.initiate_shutdown();
    assert!(app.is_shutting_down());
    assert!(other.is_shutting_down());
    assert!(app.token.is_cancelled());
}
