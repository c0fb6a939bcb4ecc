//! The registry's error model.
use runtime_rs::BoxError;
use runtime_rs::Error;

fn cause(message: &str) -> BoxError {
    BoxError::msg(String::from(message))
}

#[test]
fn messages_read_as_given() {
    assert_eq!(Error::msg("no disk").to_string(), "no disk");
    assert_eq!(Error::msg(String::from("no net")).to_string(), "no net");
    assert!(matches!(Error::msg("x"), Error::Other(source) if source.to_string() == "x"));
    assert_eq!(Error::from(cause("lost")).to_string(), "lost");
}

#[test]
fn boxed_errors_can_be_walked() {
    let bad = "x".parse::<u8>().unwrap_err();
    let words = bad.to_string();
    let e = Error::from(BoxError { inner: Box::new(bad) }).into_boot("db");
    assert_eq!(e.to_string(), format!("provider 'db' failed during boot: {words}"));
    assert!(e.source().inner.downcast_ref::<std::num::ParseIntError>().is_some());
    assert_eq!(e.source().to_string(), words);
    assert!(cause("plain").inner.source().is_none());
}

#[test]
fn each_stage_has_its_wording() {
    let boot = Error::Boot { name: "db", source: cause("no disk") };
    assert_eq!(boot.to_string(), "provider 'db' failed during boot: no disk");
    let validate = Error::Validate { name: "db", source: cause("no disk") };
    assert_eq!(validate.to_string(), "provider 'db' failed during validate: no disk");
    let reload = Error::Reload { name: "db", source: cause("no disk") };
    assert_eq!(reload.to_string(), "reload of 'db' failed: no disk");
    let run = Error::Run { name: "db", source: cause("no disk") };
    assert_eq!(run.to_string(), "runnable 'db' failed: no disk");
    let recoverable = Error::Recoverable { name: "db", source: cause("no disk") };
    assert_eq!(recoverable.to_string(), "runnable 'db' failed (recoverable): no disk");
}

#[test]
fn anonymous_errors_get_the_stage_that_failed() {
    assert!(matches!(
        Error::msg("m").into_boot("db"),
        Error::Boot { name: "db", source } if source.to_string() == "m"
    ));
    assert!(matches!(
        Error::msg("m").into_validate("db"),
        Error::Validate { name: "db", source } if source.to_string() == "m"
    ));
    assert!(matches!(
        Error::msg("m").into_reload("db"),
        Error::Reload { name: "db", source } if source.to_string() == "m"
    ));
    assert!(matches!(
        Error::msg("m").into_run("db"),
        Error::Run { name: "db", source } if source.to_string() == "m"
    ));
}

#[test]
fn staged_errors_are_left_untouched() {
    let boot = Error::msg("m").into_boot("db");
    let again = boot.into_validate("x").into_reload("x").into_run("x").into_boot("x");
    assert_eq!(again.to_string(), "provider 'db' failed during boot: m");
}

#[test]
fn recoverable_errors_get_a_name_once() {
    let fresh = Error::recoverable("retry later");
    assert!(matches!(
        &fresh,
        Error::Recoverable { name: "", source } if source.to_string() == "retry later"
    ));
    let named = fresh.into_run("cache");
    assert_eq!(named.to_string(), "runnable 'cache' failed (recoverable): retry later");
    let again = named.into_run("other");
    assert_eq!(again.to_string(), "runnable 'cache' failed (recoverable): retry later");
    let elsewhere = Error::recoverable(String::from("m")).into_boot("db");
    assert!(matches!(elsewhere, Error::Recoverable { name: "", .. }));
}
