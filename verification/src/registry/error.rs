//! The registry's error model.
//!
//! Errors name the lifecycle stage they come from. A provider may return an
//! anonymous [`Error::Other`]; the registry then re-wraps it into the variant
//! of the stage that failed. An error that a provider already gave a stage is
//! left untouched.
use vstd::prelude::*;
use vstd::string::StringExecFns;

verus! {

/// `String::from` on a string slice: the result holds the characters of the
/// slice.
pub assume_specification<'a>[ <String as From<&'a str>>::from ](s: &str) -> (owned: String)
    ensures
        owned@ == s@,
;

/// Any error that a service fails with: `Box<dyn std::error::Error + Send + Sync>`,
/// carried as an opaque value. Its causes can be walked through `inner`.
#[verifier::external_body]
#[derive(Debug)]
pub struct BoxError {
    pub inner: Box<dyn std::error::Error + Send + Sync + 'static>,
}

/// Calls `ToString::to_string`, which goes by the error's own `Display`. Nothing is
/// claimed of the words by themselves, as any error may be in the box; [`boxed`]
/// states them for errors made from a message.
#[verifier::external_body]
fn words_of(e: &BoxError) -> String {
    e.inner.to_string()
}

/// Calls `From<String>` of `Box<dyn Error + Send + Sync>`. The claim is that the
/// error reads as the message whenever it is asked.
#[verifier::external_body]
fn boxed(message: String) -> (e: BoxError)
    ensures
        forall|words: String| #[trigger]
            call_ensures(words_of, (&e,), words) ==> words@ == message@,
{
    BoxError { inner: Box::from(message) }
}

impl BoxError {
    /// Asked for its words, the error may answer `words`.
    pub closed spec fn may_read(self, words: Seq<char>) -> bool {
        exists|answer: String| #[trigger] call_ensures(words_of, (&self,), answer) && answer@ == words
    }

    /// Asked for its words, the error answers `words` every time.
    pub open spec fn reads(self, words: Seq<char>) -> bool {
        forall|answer: Seq<char>| #[trigger] self.may_read(answer) ==> answer == words
    }

    /// An error that reads as the message.
    pub fn msg(message: String) -> (e: Self)
        ensures
            e.reads(message@),
    {
        boxed(message)
    }

    /// The error in words.
    pub fn to_string(&self) -> (words: String)
        ensures
            self.may_read(words@),
    {
        let words = words_of(self);
        assert(call_ensures(words_of, (self,), words));
        words
    }
}

pub type Result<T, E = Error> = std::result::Result<T, E>;

#[derive(Debug)]
pub enum Error {
    Boot { name: &'static str, source: BoxError },
    Validate { name: &'static str, source: BoxError },
    Reload { name: &'static str, source: BoxError },
    /// Fatal runnable failure (default). The runtime tears the worker down so
    /// the supervisor can respawn cleanly.
    Run { name: &'static str, source: BoxError },
    /// Recoverable runnable failure. The runtime logs it and keeps the worker
    /// serving: for best-effort tasks whose failure must not kill traffic.
    Recoverable { name: &'static str, source: BoxError },
    Other(BoxError),
}

impl Error {
    /// The error is anonymous and reads `text`.
    pub open spec fn says(self, text: Seq<char>) -> bool {
        self matches Error::Other(source) && source.reads(text)
    }

    /// What went wrong, whatever the stage.
    pub open spec fn cause(self) -> BoxError {
        match self {
            Error::Boot { name, source } => source,
            Error::Validate { name, source } => source,
            Error::Reload { name, source } => source,
            Error::Run { name, source } => source,
            Error::Recoverable { name, source } => source,
            Error::Other(source) => source,
        }
    }

    /// The error in words, where its cause reads `words`.
    pub open spec fn text(self, words: Seq<char>) -> Seq<char> {
        match self {
            Error::Boot { name, .. } => "provider '"@ + name@ + "' failed during boot: "@ + words,
            Error::Validate { name, .. } => "provider '"@ + name@ + "' failed during validate: "@
                + words,
            Error::Reload { name, .. } => "reload of '"@ + name@ + "' failed: "@ + words,
            Error::Run { name, .. } => "runnable '"@ + name@ + "' failed: "@ + words,
            Error::Recoverable { name, .. } => "runnable '"@ + name@ + "' failed (recoverable): "@
                + words,
            Error::Other(_) => words,
        }
    }

    /// The error with a stage: anonymous errors become boot failures of `name`.
    pub open spec fn booting(self, name: &'static str) -> Error {
        match self {
            Error::Other(source) => Error::Boot { name, source },
            other => other,
        }
    }

    /// Anonymous errors become validation failures of `name`.
    pub open spec fn validating(self, name: &'static str) -> Error {
        match self {
            Error::Other(source) => Error::Validate { name, source },
            other => other,
        }
    }

    /// Anonymous errors become reload failures of `name`.
    pub open spec fn reloading(self, name: &'static str) -> Error {
        match self {
            Error::Other(source) => Error::Reload { name, source },
            other => other,
        }
    }

    /// Anonymous errors become failures of the runnable `name`; recoverable
    /// ones without a name get it.
    pub open spec fn running(self, name: &'static str) -> Error {
        match self {
            Error::Other(source) => Error::Run { name, source },
            Error::Recoverable { name: given, source } => if given@.len() == 0 {
                Error::Recoverable { name, source }
            } else {
                self
            },
            other => other,
        }
    }

    /// Builds [`Error::Other`] from a message.
    pub fn msg<M: Into<String>>(s: M) -> (e: Self)
        ensures
            exists|message: String| #[trigger]
                call_ensures(<M as Into<String>>::into, (s,), message) && e.says(message@),
    {
        let message: String = s.into();
        assert(call_ensures(<M as Into<String>>::into, (s,), message));
        Error::Other(BoxError::msg(message))
    }

    /// Builds a recoverable runnable error from a message. The runtime logs it
    /// and lets the worker keep serving. The provider's name is filled in where
    /// the runnable is started, so callers only supply the message.
    pub fn recoverable<M: Into<String>>(s: M) -> (e: Self)
        ensures
            e matches Error::Recoverable { name, source } && name@ == Seq::<char>::empty()
                && exists|message: String| #[trigger]
                call_ensures(<M as Into<String>>::into, (s,), message) && source.reads(message@),
    {
        proof {
            reveal_strlit("");
        }
        assert(""@ =~= Seq::<char>::empty());
        let message: String = s.into();
        assert(call_ensures(<M as Into<String>>::into, (s,), message));
        Error::Recoverable { name: "", source: BoxError::msg(message) }
    }

    /// If the error is `Other`, re-wraps it as `Boot { name, source }`;
    /// otherwise leaves it untouched.
    pub fn into_boot(self, name: &'static str) -> (e: Self)
        ensures
            e == self.booting(name),
    {
        match self {
            Error::Other(source) => Error::Boot { name, source },
            other => other,
        }
    }

    /// If the error is `Other`, re-wraps it as `Validate { name, source }`;
    /// otherwise leaves it untouched.
    pub fn into_validate(self, name: &'static str) -> (e: Self)
        ensures
            e == self.validating(name),
    {
        match self {
            Error::Other(source) => Error::Validate { name, source },
            other => other,
        }
    }

    /// If the error is `Other`, re-wraps it as `Reload { name, source }`;
    /// otherwise leaves it untouched.
    pub fn into_reload(self, name: &'static str) -> (e: Self)
        ensures
            e == self.reloading(name),
    {
        match self {
            Error::Other(source) => Error::Reload { name, source },
            other => other,
        }
    }

    /// If the error is `Other`, re-wraps it as `Run { name, source }`. A
    /// recoverable error that has no name yet gets `name`, so that log lines
    /// stay attributed. Other errors are left untouched.
    pub fn into_run(self, name: &'static str) -> (e: Self)
        ensures
            e == self.running(name),
    {
        match self {
            Error::Other(source) => Error::Run { name, source },
            Error::Recoverable { name: given, source } => {
                if given.is_empty() {
                    Error::Recoverable { name, source }
                } else {
                    Error::Recoverable { name: given, source }
                }
            },
            other => other,
        }
    }

    /// What went wrong, whatever the stage.
    pub fn source(&self) -> (source: &BoxError)
        ensures
            *source == self.cause(),
    {
        match self {
            Error::Boot { source, .. } => source,
            Error::Validate { source, .. } => source,
            Error::Reload { source, .. } => source,
            Error::Run { source, .. } => source,
            Error::Recoverable { source, .. } => source,
            Error::Other(source) => source,
        }
    }

    /// The error in words.
    pub fn to_string(&self) -> (text: String)
        ensures
            exists|words: Seq<char>| #[trigger]
                self.cause().may_read(words) && text@ == self.text(words),
    {
        let words = self.source().to_string();
        let text = match self {
            Error::Boot { name, .. } => worded(
                "provider '",
                name,
                "' failed during boot: ",
                words.as_str(),
            ),
            Error::Validate { name, .. } => worded(
                "provider '",
                name,
                "' failed during validate: ",
                words.as_str(),
            ),
            Error::Reload { name, .. } => worded("reload of '", name, "' failed: ", words.as_str()),
            Error::Run { name, .. } => worded("runnable '", name, "' failed: ", words.as_str()),
            Error::Recoverable { name, .. } => worded(
                "runnable '",
                name,
                "' failed (recoverable): ",
                words.as_str(),
            ),
            Error::Other(_) => words.clone(),
        };
        assert(self.cause().may_read(words@) && text@ == self.text(words@));
        text
    }
}

/// An error about the provider `name`, in words.
fn worded(lead: &str, name: &str, what: &str, words: &str) -> (text: String)
    ensures
        text@ == lead@ + name@ + what@ + words@,
{
    let mut text = String::from(lead);
    text.append(name);
    text.append(what);
    text.append(words);
    text
}

impl From<BoxError> for Error {
    fn from(e: BoxError) -> (wrapped: Self) {
        Error::Other(e)
    }
}

impl vstd::std_specs::convert::FromSpecImpl<BoxError> for Error {
    open spec fn obeys_from_spec() -> bool {
        true
    }

    open spec fn from_spec(e: BoxError) -> Self {
        Error::Other(e)
    }
}

/// An error that has a stage is left untouched, whichever stage fails.
pub proof fn staged_errors_are_left_untouched(e: Error, name: &'static str)
    requires
        !(e is Other),
    ensures
        e.booting(name) == e,
        e.validating(name) == e,
        e.reloading(name) == e,
        !(e is Recoverable) ==> e.running(name) == e,
        e matches Error::Recoverable { name: given, .. } && given@.len() > 0 ==> e.running(name)
            == e,
{
}

/// An error gets its stage once: wrapping it again, in whichever stage, changes
/// nothing. A recoverable error that was named at its start keeps that name, where
/// it is one.
pub proof fn errors_get_one_stage(e: Error, name: &'static str, other: &'static str)
    ensures
        e.booting(name).booting(other) == e.booting(name),
        e.booting(name).validating(other) == e.booting(name),
        e.booting(name).reloading(other) == e.booting(name),
        e.validating(name).booting(other) == e.validating(name),
        e.validating(name).validating(other) == e.validating(name),
        e.validating(name).reloading(other) == e.validating(name),
        e.reloading(name).booting(other) == e.reloading(name),
        e.reloading(name).validating(other) == e.reloading(name),
        e.reloading(name).reloading(other) == e.reloading(name),
        e.running(name).booting(other) == e.running(name),
        e.running(name).validating(other) == e.running(name),
        e.running(name).reloading(other) == e.running(name),
        !(e is Recoverable) ==> e.booting(name).running(other) == e.booting(name)
            && e.validating(name).running(other) == e.validating(name) && e.reloading(
            name,
        ).running(other) == e.reloading(name) && e.running(name).running(other) == e.running(name),
        name@.len() > 0 ==> e.running(name).running(other) == e.running(name),
{
}

/// An anonymous error reads as what it says.
pub proof fn anonymous_errors_read_as_they_say(e: Error, said: Seq<char>, words: Seq<char>)
    requires
        e.says(said),
        e.cause().may_read(words),
    ensures
        e.text(words) == said,
{
}

/// Giving an error a stage keeps what went wrong, and recoverable errors stay
/// recoverable.
pub proof fn stages_keep_the_cause(e: Error, name: &'static str)
    ensures
        e.booting(name).cause() == e.cause(),
        e.validating(name).cause() == e.cause(),
        e.reloading(name).cause() == e.cause(),
        e.running(name).cause() == e.cause(),
        e is Recoverable <==> e.running(name) is Recoverable,
{
}

/// An anonymous error becomes a failure of the stage that it came from, with the
/// name given and its cause kept. A recoverable error without a name gets the name
/// of the runnable.
pub proof fn anonymous_errors_get_the_stage_that_failed(source: BoxError, name: &'static str)
    ensures
        Error::Other(source).booting(name) == (Error::Boot { name, source }),
        Error::Other(source).validating(name) == (Error::Validate { name, source }),
        Error::Other(source).reloading(name) == (Error::Reload { name, source }),
        Error::Other(source).running(name) == (Error::Run { name, source }),
        forall|given: &'static str|
            given@.len() == 0 ==> #[trigger] (Error::Recoverable { name: given, source }).running(
                name,
            ) == (Error::Recoverable { name, source }),
{
}

/// What an error reads as: where it came from, of whom, and what went wrong.
pub proof fn errors_name_their_stage_and_provider(
    name: &'static str,
    source: BoxError,
    words: Seq<char>,
)
    ensures
        (Error::Boot { name, source }).text(words) == "provider '"@ + name@
            + "' failed during boot: "@ + words,
        (Error::Validate { name, source }).text(words) == "provider '"@ + name@
            + "' failed during validate: "@ + words,
        (Error::Reload { name, source }).text(words) == "reload of '"@ + name@ + "' failed: "@
            + words,
        (Error::Run { name, source }).text(words) == "runnable '"@ + name@ + "' failed: "@ + words,
        (Error::Recoverable { name, source }).text(words) == "runnable '"@ + name@
            + "' failed (recoverable): "@ + words,
        Error::Other(source).text(words) == words,
        (Error::Boot { name, source }).cause() == source,
        (Error::Validate { name, source }).cause() == source,
        (Error::Reload { name, source }).cause() == source,
        (Error::Run { name, source }).cause() == source,
        (Error::Recoverable { name, source }).cause() == source,
        Error::Other(source).cause() == source,
{
}

/// Only anonymous errors say something, and what they say is all they ever read as.
pub proof fn what_is_said_is_all_there_is(e: Error, said: Seq<char>, words: Seq<char>)
    requires
        e.says(said),
    ensures
        e is Other,
        e->Other_0.may_read(words) ==> words == said,
{
}

} // verus!
