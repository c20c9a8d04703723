//! Getting a snapshot: whom to ask, how long to wait, and what to print.

use vstd::prelude::*;

use crate::text::push_text;

verus! {

// ---------------------------------------------------------------------------
// Asking the servers that run already
// ---------------------------------------------------------------------------

/// The next step on the way to a snapshot.
#[derive(Debug, Clone, Copy, PartialEq, Eq, Structural)]
pub enum FetchStep {
    /// Ask the server on this port, and add whether it gave a snapshot.
    Query(u16),
    /// The reply at this place is the snapshot.
    Answered(usize),
    /// No running server gives one: start a server for it.
    StartServer,
}

/// Whether the reply at the place `i` is the first that gives a snapshot.
pub open spec fn first_usable(usable: Seq<bool>, i: int) -> bool {
    &&& 0 <= i < usable.len()
    &&& usable[i]
    &&& forall|j: int| 0 <= j < i ==> !usable[j]
}

/// Fetches a snapshot from the servers on `ports`: the next step, after the servers
/// on the first of them were asked, and `usable` says which of their replies gave a
/// snapshot. The first snapshot is taken.
pub fn fetch_usage(ports: &Vec<u16>, usable: &Vec<bool>) -> (r: FetchStep)
    ensures
        match r {
            FetchStep::Answered(i) => first_usable(usable@, i as int),
            FetchStep::Query(port) => {
                &&& !usable@.contains(true)
                &&& usable@.len() < ports@.len()
                &&& port == ports@[usable@.len() as int]
            },
            FetchStep::StartServer => !usable@.contains(true) && usable@.len() >= ports@.len(),
        },
{
    let mut i: usize = 0;
    while i < usable.len()
        invariant
            i <= usable@.len(),
            forall|j: int| 0 <= j < i ==> !usable@[j],
        decreases usable@.len() - i,
    {
        if usable[i] {
            return FetchStep::Answered(i);
        }
        i = i + 1;
    }
    if usable.len() < ports.len() {
        FetchStep::Query(ports[usable.len()])
    } else {
        FetchStep::StartServer
    }
}

/// The reply that is taken gives a snapshot, and none before it does; so only one can be
/// taken, and one can be whenever any reply gives a snapshot.
pub proof fn first_snapshot_is_taken(usable: Seq<bool>, i: int, j: int)
    ensures
        first_usable(usable, i) ==> 0 <= i < usable.len() && usable[i] && (0 <= j < i
            ==> !usable[j]),
        0 <= i < usable.len() && usable[i] ==> exists|k: int| k <= i && first_usable(usable, k),
    decreases i,
{
    if 0 <= i < usable.len() && usable[i] {
        if exists|k: int| 0 <= k < i && usable[k] {
            let k = choose|k: int| 0 <= k < i && usable[k];
            first_snapshot_is_taken(usable, k, j);
        } else {
            assert(first_usable(usable, i));
        }
    }
}

// ---------------------------------------------------------------------------
// Waiting for a server that was started
// ---------------------------------------------------------------------------

/// Why waiting for a started server failed.
#[derive(Debug, Clone, Copy, PartialEq, Eq, Structural)]
pub enum WaitFailure {
    /// The process is gone, and no reply was usable.
    ExitedUnusable,
    /// The process is gone, and its server was never reached.
    ExitedUnreachable,
    /// Time is up, and no reply was usable.
    NeverUsable,
}

impl WaitFailure {
    /// The message that tells a user why waiting failed.
    pub open spec fn message_text(self) -> Seq<char> {
        match self {
            WaitFailure::ExitedUnusable => "agy exited before returning a usable response"@,
            WaitFailure::ExitedUnreachable => "agy exited before its server was reachable"@,
            WaitFailure::NeverUsable =>
                "agy server started but never returned a usable response"@,
        }
    }

    /// The message that tells a user why waiting failed.
    pub fn message(self) -> (r: String)
        ensures
            r@ == self.message_text(),
    {
        match self {
            WaitFailure::ExitedUnusable =>
                "agy exited before returning a usable response".to_owned(),
            WaitFailure::ExitedUnreachable =>
                "agy exited before its server was reachable".to_owned(),
            WaitFailure::NeverUsable =>
                "agy server started but never returned a usable response".to_owned(),
        }
    }
}

/// The next step of waiting for a started server.
#[derive(Debug)]
pub enum WaitStep<U, E> {
    /// The server gave a snapshot.
    Found(U),
    /// Waiting failed. The error is that of the last reply, if there was one.
    Failed(WaitFailure, Option<E>),
    /// Time is up, and the server was never reached: there is no snapshot.
    NotFound,
    /// Wait a little, and try again. The error is that of the last reply so far.
    Again(Option<E>),
}

/// The error of the last reply, after an attempt: `None` stands for an attempt that
/// did not reach the server.
pub open spec fn error_after<U, E>(
    last_error: Option<E>,
    attempt: Option<Result<U, E>>,
) -> Option<E> {
    match attempt {
        Some(Err(error)) => Some(error),
        _ => last_error,
    }
}

/// The next step of waiting, after an attempt: see [`wait_for_usage`].
pub open spec fn wait_step<U, E>(
    last_error: Option<E>,
    attempt: Option<Result<U, E>>,
    exited: bool,
    expired: bool,
) -> WaitStep<U, E> {
    let error = error_after(last_error, attempt);
    if let Some(Ok(usage)) = attempt {
        WaitStep::Found(usage)
    } else if exited {
        WaitStep::Failed(
            if error is Some {
                WaitFailure::ExitedUnusable
            } else {
                WaitFailure::ExitedUnreachable
            },
            error,
        )
    } else if expired {
        if error is Some {
            WaitStep::Failed(WaitFailure::NeverUsable, error)
        } else {
            WaitStep::NotFound
        }
    } else {
        WaitStep::Again(error)
    }
}

/// Polls a started server until it gives a snapshot, its process is gone, or time is
/// up: the next step, when `last_error` is the error of the last reply before this
/// attempt, `attempt` what the server replied now, if it was reached, and `exited` and
/// `expired` say whether its process is gone and time is up.
pub fn wait_for_usage<U, E>(
    last_error: Option<E>,
    attempt: Option<Result<U, E>>,
    exited: bool,
    expired: bool,
) -> (r: WaitStep<U, E>)
    ensures
        r == wait_step(last_error, attempt, exited, expired),
{
    let error: Option<E> = match attempt {
        Some(Ok(usage)) => return WaitStep::Found(usage),
        Some(Err(error)) => Some(error),
        None => last_error,
    };
    if exited {
        if error.is_some() {
            WaitStep::Failed(WaitFailure::ExitedUnusable, error)
        } else {
            WaitStep::Failed(WaitFailure::ExitedUnreachable, error)
        }
    } else if expired {
        if error.is_some() {
            WaitStep::Failed(WaitFailure::NeverUsable, error)
        } else {
            WaitStep::NotFound
        }
    } else {
        WaitStep::Again(error)
    }
}

/// What `attempts`, one after the other, come to, when the process lives and there is
/// time left until the last of them: it is made with `exited` and `expired`. `None`
/// stands for no attempt yet.
pub open spec fn wait_run<U, E>(
    attempts: Seq<Option<Result<U, E>>>,
    exited: bool,
    expired: bool,
) -> WaitStep<U, E>
    decreases attempts.len(),
{
    if attempts.len() == 0 {
        WaitStep::Again(None)
    } else {
        match wait_run(attempts.drop_last(), false, false) {
            WaitStep::Again(last_error) => wait_step(last_error, attempts.last(), exited, expired),
            done => done,
        }
    }
}

/// Waiting ends with the first snapshot that a server gives.
pub proof fn waiting_ends_with_the_first_snapshot<U, E>(
    attempts: Seq<Option<Result<U, E>>>,
    exited: bool,
    expired: bool,
    i: int,
)
    requires
        0 <= i < attempts.len(),
        attempts[i] matches Some(Ok(_)),
        forall|j: int| 0 <= j < i ==> !((#[trigger] attempts[j]) matches Some(Ok(_))),
    ensures
        wait_run(attempts, exited, expired) == WaitStep::<U, E>::Found(attempts[i]->0->Ok_0),
    decreases attempts.len(),
{
    let before = attempts.drop_last();
    if i < before.len() {
        assert(before[i] == attempts[i]);
        waiting_ends_with_the_first_snapshot(before, false, false, i);
    } else {
        assert forall|j: int| 0 <= j < before.len() implies !((#[trigger] before[j]) matches Some(
            Ok(_),
        )) by {
            assert(before[j] == attempts[j]);
        }
        failed_wait_tells_the_last_error(before, false, false);
    }
}

/// The error of the last reply among `attempts` that was not usable.
pub open spec fn last_error<U, E>(attempts: Seq<Option<Result<U, E>>>) -> Option<E>
    decreases attempts.len(),
{
    if attempts.len() == 0 {
        None
    } else {
        error_after(last_error(attempts.drop_last()), attempts.last())
    }
}

/// When no attempt gave a snapshot, waiting ends as soon as the process is gone or time
/// is up, and not before; what it tells is the error of the last reply. Only where time
/// is up and no server was reached, there is nothing to tell.
pub proof fn failed_wait_tells_the_last_error<U, E>(
    attempts: Seq<Option<Result<U, E>>>,
    exited: bool,
    expired: bool,
)
    requires
        forall|j: int|
            0 <= j < attempts.len() ==> !((#[trigger] attempts[j]) matches Some(Ok(_))),
    ensures
        attempts.len() > 0 ==> match wait_run(attempts, exited, expired) {
            WaitStep::Found(_) => false,
            WaitStep::Failed(_, error) => (exited || expired) && error == last_error(attempts),
            WaitStep::NotFound => expired && !exited && last_error(attempts) is None,
            WaitStep::Again(error) => !exited && !expired && error == last_error(attempts),
        },
        attempts.len() == 0 ==> wait_run(attempts, exited, expired) == WaitStep::<U, E>::Again(
            None,
        ),
    decreases attempts.len(),
{
    if attempts.len() > 0 {
        let before = attempts.drop_last();
        assert forall|j: int| 0 <= j < before.len() implies !((#[trigger] before[j]) matches Some(
            Ok(_),
        )) by {
            assert(before[j] == attempts[j]);
        }
        failed_wait_tells_the_last_error(before, false, false);
        assert(attempts.last() == attempts[attempts.len() - 1]);
    }
}

/// A wait that fails tells what went wrong: that the process is gone, after a reply that was
/// not usable or before any, or that time is up after such a reply. A process that is gone
/// counts before the time does.
pub proof fn failed_wait_tells_what_went_wrong<U, E>(
    last_error: Option<E>,
    attempt: Option<Result<U, E>>,
    exited: bool,
    expired: bool,
)
    ensures
        ({
            let step = wait_step(last_error, attempt, exited, expired);
            let replied = last_error is Some || attempt matches Some(Err(_));
            if let Some(Ok(usage)) = attempt {
                step == WaitStep::<U, E>::Found(usage)
            } else if exited && replied {
                step matches WaitStep::Failed(WaitFailure::ExitedUnusable, Some(_))
            } else if exited {
                step == WaitStep::<U, E>::Failed(WaitFailure::ExitedUnreachable, None)
            } else if expired && replied {
                step matches WaitStep::Failed(WaitFailure::NeverUsable, Some(_))
            } else if expired {
                step is NotFound
            } else {
                step is Again
            }
        }),
        attempt matches Some(Err(error)) ==> match wait_step(
            last_error,
            attempt,
            exited,
            expired,
        ) {
            WaitStep::Failed(_, told) => told == Some(error),
            WaitStep::Again(kept) => kept == Some(error),
            _ => false,
        },
        attempt is None ==> match wait_step(last_error, attempt, exited, expired) {
            WaitStep::Failed(_, told) => told == last_error,
            WaitStep::Again(kept) => kept == last_error,
            WaitStep::NotFound => last_error is None,
            WaitStep::Found(_) => false,
        },
{
}

/// Each failure has its message.
pub proof fn failures_have_messages()
    ensures
        WaitFailure::ExitedUnusable.message_text()
            == "agy exited before returning a usable response"@,
        WaitFailure::ExitedUnreachable.message_text()
            == "agy exited before its server was reachable"@,
        WaitFailure::NeverUsable.message_text()
            == "agy server started but never returned a usable response"@,
{
}

// ---------------------------------------------------------------------------
// Printing
// ---------------------------------------------------------------------------

/// What the command prints.
#[derive(Debug, Clone, Copy, PartialEq, Eq, Structural)]
pub enum UsageOutput {
    /// The JSON document `null`, on the standard output.
    Null,
    /// The hint of [`missing_usage_hint`], on the standard error output.
    Hint,
    /// The snapshot as a JSON document, on the standard output.
    Document,
    /// The snapshot as a report, on the standard output.
    Report,
}

/// What the command `antigravity usage [--json]` prints: `found` says whether there is
/// a snapshot, and `json` whether a JSON document was asked for.
pub fn run_antigravity_cli_usage(found: bool, json: bool) -> (r: UsageOutput)
    ensures
        r is Null <==> !found && json,
        r is Hint <==> !found && !json,
        r is Document <==> found && json,
        r is Report <==> found && !json,
{
    match (found, json) {
        (false, true) => UsageOutput::Null,
        (false, false) => UsageOutput::Hint,
        (true, true) => UsageOutput::Document,
        (true, false) => UsageOutput::Report,
    }
}

/// The hint for a user whose usage cannot be read.
pub fn missing_usage_hint() -> (r: String)
    ensures
        r@ == "Could not read Antigravity CLI usage.\n"@
            + "Ensure the `agy` CLI is installed and signed in (run `agy` once to sign in)."@,
{
    let mut r: String = String::new();
    push_text(&mut r, "Could not read Antigravity CLI usage.\n");
    push_text(
        &mut r,
        "Ensure the `agy` CLI is installed and signed in (run `agy` once to sign in).",
    );
    r
}

} // verus!
