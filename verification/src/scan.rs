//! Finding a live server: which log to read next, which port to probe, whom to ask.
//!
//! Each function here looks at what has been done so far and names the next step, so
//! that the caller only reads, probes, asks and waits.

use vstd::prelude::*;

verus! {

/// The next step of a search through the log files.
#[derive(Debug)]
pub enum ScanStep<R> {
    /// Read the log at this place, and add what it gives.
    ReadLog(usize),
    /// Probe the server on this port, and add whether it is up.
    Probe(u16),
    /// The search is over.
    Done(R),
}

// ---------------------------------------------------------------------------
// All servers
// ---------------------------------------------------------------------------

/// The next step of the search for all servers.
pub enum Discovery {
    ReadLog(nat),
    Probe(u16),
    Done(Seq<u16>),
}

/// The search for all servers, from the log at the place `i` on, when `used` answers
/// have been used and `ports` were found. A log that announces a port which was found
/// already, or none, needs no probe.
pub open spec fn discovery_from(
    logs: nat,
    announced: Seq<Option<u16>>,
    answers: Seq<bool>,
    i: nat,
    used: nat,
    ports: Seq<u16>,
) -> Discovery
    decreases logs - i,
{
    if i >= logs {
        Discovery::Done(ports)
    } else if i >= announced.len() {
        Discovery::ReadLog(i)
    } else if announced[i as int] is Some && !ports.contains(announced[i as int]->0) {
        let port = announced[i as int]->0;
        if used >= answers.len() {
            Discovery::Probe(port)
        } else {
            let found = if answers[used as int] {
                ports.push(port)
            } else {
                ports
            };
            discovery_from(logs, announced, answers, i + 1, used + 1, found)
        }
    } else {
        discovery_from(logs, announced, answers, i + 1, used, ports)
    }
}

/// The next step of the search for all servers among `logs` log files, when the first
/// of them announce the ports `announced` and the probes made so far were answered
/// with `answers`.
pub open spec fn discovery(
    logs: nat,
    announced: Seq<Option<u16>>,
    answers: Seq<bool>,
) -> Discovery {
    discovery_from(logs, announced, answers, 0, 0, Seq::empty())
}

/// Whether `port` is among `ports`.
fn contains_port(ports: &Vec<u16>, port: u16) -> (r: bool)
    ensures
        r == ports@.contains(port),
{
    let mut i: usize = 0;
    while i < ports.len()
        invariant
            i <= ports@.len(),
            forall|j: int| 0 <= j < i ==> ports@[j] != port,
        decreases ports@.len() - i,
    {
        if ports[i] == port {
            return true;
        }
        i = i + 1;
    }
    false
}

/// Discovers the HTTP ports of every reachable server: the next step, after the logs
/// read so far announced `announced` and the probes made so far gave `answers`.
pub fn discover_cli_http_ports(
    logs: usize,
    announced: &Vec<Option<u16>>,
    answers: &Vec<bool>,
) -> (r: ScanStep<Vec<u16>>)
    ensures
        discovery(logs as nat, announced@, answers@) == (match r {
            ScanStep::ReadLog(i) => Discovery::ReadLog(i as nat),
            ScanStep::Probe(port) => Discovery::Probe(port),
            ScanStep::Done(ports) => Discovery::Done(ports@),
        }),
{
    let mut ports: Vec<u16> = Vec::new();
    let mut used: usize = 0;
    let mut i: usize = 0;
    while i < logs
        invariant
            i <= logs,
            used <= answers@.len(),
            discovery(logs as nat, announced@, answers@) == discovery_from(
                logs as nat,
                announced@,
                answers@,
                i as nat,
                used as nat,
                ports@,
            ),
        decreases logs - i,
    {
        if i >= announced.len() {
            return ScanStep::ReadLog(i);
        }
        if let Some(port) = announced[i] {
            if !contains_port(&ports, port) {
                if used >= answers.len() {
                    return ScanStep::Probe(port);
                }
                if answers[used] {
                    ports.push(port);
                }
                used = used + 1;
            }
        }
        i = i + 1;
    }
    ScanStep::Done(ports)
}

// ---------------------------------------------------------------------------
// The server of one process
// ---------------------------------------------------------------------------

/// The next step of the search for the server of one process.
pub enum PidSearch {
    ReadLog(nat),
    Probe(u16),
    Done(Option<u16>),
}

/// The search for the server of one process, from the log at the place `i` on, when
/// `used` answers have been used. The first port that is up ends the search.
pub open spec fn pid_search_from(
    logs: nat,
    announced: Seq<Option<u16>>,
    answers: Seq<bool>,
    i: nat,
    used: nat,
) -> PidSearch
    decreases logs - i,
{
    if i >= logs {
        PidSearch::Done(None)
    } else if i >= announced.len() {
        PidSearch::ReadLog(i)
    } else if announced[i as int] is Some {
        if used >= answers.len() {
            PidSearch::Probe(announced[i as int]->0)
        } else if answers[used as int] {
            PidSearch::Done(announced[i as int])
        } else {
            pid_search_from(logs, announced, answers, i + 1, used + 1)
        }
    } else {
        pid_search_from(logs, announced, answers, i + 1, used)
    }
}

/// The next step of the search for the server of one process among `logs` log files,
/// when the first of them announce the ports `announced` for that process and the
/// probes made so far were answered with `answers`.
pub open spec fn pid_search(
    logs: nat,
    announced: Seq<Option<u16>>,
    answers: Seq<bool>,
) -> PidSearch {
    pid_search_from(logs, announced, answers, 0, 0)
}

/// The HTTP port of the running server whose log records a process id: the next step,
/// after the logs read so far announced `announced` for that process and the probes
/// made so far gave `answers`.
pub fn http_port_for_pid(
    logs: usize,
    announced: &Vec<Option<u16>>,
    answers: &Vec<bool>,
) -> (r: ScanStep<Option<u16>>)
    ensures
        pid_search(logs as nat, announced@, answers@) == (match r {
            ScanStep::ReadLog(i) => PidSearch::ReadLog(i as nat),
            ScanStep::Probe(port) => PidSearch::Probe(port),
            ScanStep::Done(port) => PidSearch::Done(port),
        }),
{
    let mut used: usize = 0;
    let mut i: usize = 0;
    while i < logs
        invariant
            i <= logs,
            used <= answers@.len(),
            pid_search(logs as nat, announced@, answers@) == pid_search_from(
                logs as nat,
                announced@,
                answers@,
                i as nat,
                used as nat,
            ),
        decreases logs - i,
    {
        if i >= announced.len() {
            return ScanStep::ReadLog(i);
        }
        if let Some(port) = announced[i] {
            if used >= answers.len() {
                return ScanStep::Probe(port);
            }
            if answers[used] {
                return ScanStep::Done(Some(port));
            }
            used = used + 1;
        }
        i = i + 1;
    }
    ScanStep::Done(None)
}

// ---------------------------------------------------------------------------
// Laws
// ---------------------------------------------------------------------------

/// Whether the probe at the place `j` of the search for all servers is one of `port`,
/// and was answered with yes.
pub open spec fn probe_succeeded(
    logs: nat,
    announced: Seq<Option<u16>>,
    answers: Seq<bool>,
    port: u16,
    j: int,
) -> bool {
    &&& 0 <= j < answers.len()
    &&& answers[j]
    &&& discovery(logs, announced, answers.take(j)) == Discovery::Probe(port)
}

proof fn lemma_discovery(
    logs: nat,
    announced: Seq<Option<u16>>,
    answers: Seq<bool>,
    i: nat,
    used: nat,
    ports: Seq<u16>,
    result: Seq<u16>,
    port: u16,
)
    requires
        used <= answers.len(),
        ports.no_duplicates(),
        discovery_from(logs, announced, answers, i, used, ports) == Discovery::Done(result),
    ensures
        result.no_duplicates(),
        result.contains(port) <==> ports.contains(port) || exists|j: int|
            #![trigger answers.take(j)]
            used <= j < answers.len() && answers[j] && discovery_from(
                logs,
                announced,
                answers.take(j),
                i,
                used,
                ports,
            ) == Discovery::Probe(port),
    decreases logs - i,
{
    if i >= logs {
    } else if announced[i as int] is Some && !ports.contains(announced[i as int]->0) {
        let here = announced[i as int]->0;
        let found = if answers[used as int] {
            ports.push(here)
        } else {
            ports
        };
        assert(found.no_duplicates());
        lemma_discovery(logs, announced, answers, i + 1, used + 1, found, result, port);
        assert(found.contains(port) <==> ports.contains(port) || (answers[used as int] && port
            == here)) by {
            if answers[used as int] {
                assert(found[found.len() - 1] == here);
                if ports.contains(port) {
                    assert(found[ports.index_of(port)] == port);
                }
            }
        }
        assert(discovery_from(logs, announced, answers.take(used as int), i, used, ports)
            == Discovery::Probe(here));
        assert forall|j: int| #![trigger answers.take(j)] used < j < answers.len() implies discovery_from(
            logs,
            announced,
            answers.take(j),
            i,
            used,
            ports,
        ) == discovery_from(logs, announced, answers.take(j), i + 1, used + 1, found) by {
            assert(answers.take(j)[used as int] == answers[used as int]);
        }
        if result.contains(port) && !ports.contains(port) {
            if found.contains(port) {
                let j = used as int;
                assert(answers[j] && discovery_from(
                    logs,
                    announced,
                    answers.take(j),
                    i,
                    used,
                    ports,
                ) == Discovery::Probe(port));
            } else {
                let j = choose|j: int|
                    #![trigger answers.take(j)]
                    used + 1 <= j < answers.len() && answers[j] && discovery_from(
                        logs,
                        announced,
                        answers.take(j),
                        i + 1,
                        used + 1,
                        found,
                    ) == Discovery::Probe(port);
                assert(discovery_from(logs, announced, answers.take(j), i, used, ports)
                    == Discovery::Probe(port));
            }
        }
    } else {
        lemma_discovery(logs, announced, answers, i + 1, used, ports, result, port);
        assert forall|j: int| #![trigger answers.take(j)] used <= j < answers.len() implies discovery_from(
            logs,
            announced,
            answers.take(j),
            i,
            used,
            ports,
        ) == discovery_from(logs, announced, answers.take(j), i + 1, used, ports) by {}
    }
}

/// The ports discovered are those, and only those, whose server answered a probe, and
/// none is listed twice.
pub proof fn discovered_ports_are_reachable(
    logs: nat,
    announced: Seq<Option<u16>>,
    answers: Seq<bool>,
    ports: Seq<u16>,
    port: u16,
)
    requires
        discovery(logs, announced, answers) == Discovery::Done(ports),
    ensures
        ports.no_duplicates(),
        ports.contains(port) <==> exists|j: int|
            probe_succeeded(logs, announced, answers, port, j),
{
    lemma_discovery(logs, announced, answers, 0, 0, Seq::empty(), ports, port);
    if ports.contains(port) {
        let j = choose|j: int|
            #![trigger answers.take(j)]
            0 <= j < answers.len() && answers[j] && discovery_from(
                logs,
                announced,
                answers.take(j),
                0,
                0,
                Seq::empty(),
            ) == Discovery::Probe(port);
        assert(probe_succeeded(logs, announced, answers, port, j));
    }
    if exists|j: int| probe_succeeded(logs, announced, answers, port, j) {
        let j = choose|j: int| probe_succeeded(logs, announced, answers, port, j);
        assert(answers.take(j) == answers.take(j));
    }
}

proof fn lemma_announced(
    logs: nat,
    announced: Seq<Option<u16>>,
    answers: Seq<bool>,
    i: nat,
    used: nat,
    ports: Seq<u16>,
    result: Seq<u16>,
    m: nat,
)
    requires
        used <= answers.len(),
        ports.no_duplicates(),
        discovery_from(logs, announced, answers, i, used, ports) == Discovery::Done(result),
        i <= m < logs,
        announced[m as int] is Some,
    ensures
        result.contains(announced[m as int]->0) || exists|j: int|
            #![trigger answers.take(j)]
            used <= j < answers.len() && !answers[j] && discovery_from(
                logs,
                announced,
                answers.take(j),
                i,
                used,
                ports,
            ) == Discovery::Probe(announced[m as int]->0),
    decreases logs - i,
{
    let port = announced[m as int]->0;
    if announced[i as int] is Some && !ports.contains(announced[i as int]->0) {
        let here = announced[i as int]->0;
        let found = if answers[used as int] {
            ports.push(here)
        } else {
            ports
        };
        assert(found.no_duplicates());
        assert(discovery_from(logs, announced, answers.take(used as int), i, used, ports)
            == Discovery::Probe(here));
        if i == m {
            if answers[used as int] {
                assert(found[found.len() - 1] == here);
                lemma_discovery(logs, announced, answers, i + 1, used + 1, found, result, port);
            }
        } else {
            lemma_announced(logs, announced, answers, i + 1, used + 1, found, result, m);
            if !result.contains(port) {
                let j = choose|j: int|
                    #![trigger answers.take(j)]
                    used + 1 <= j < answers.len() && !answers[j] && discovery_from(
                        logs,
                        announced,
                        answers.take(j),
                        i + 1,
                        used + 1,
                        found,
                    ) == Discovery::Probe(port);
                assert(answers.take(j)[used as int] == answers[used as int]);
                assert(discovery_from(logs, announced, answers.take(j), i, used, ports)
                    == Discovery::Probe(port));
            }
        }
    } else if i == m {
        lemma_discovery(logs, announced, answers, i + 1, used, ports, result, port);
    } else {
        lemma_announced(logs, announced, answers, i + 1, used, ports, result, m);
        if !result.contains(port) {
            let j = choose|j: int|
                #![trigger answers.take(j)]
                used <= j < answers.len() && !answers[j] && discovery_from(
                    logs,
                    announced,
                    answers.take(j),
                    i + 1,
                    used,
                    ports,
                ) == Discovery::Probe(port);
            assert(discovery_from(logs, announced, answers.take(j), i, used, ports)
                == Discovery::Probe(port));
        }
    }
}

/// Whether the probe at the place `j` of the search for all servers is one of `port`,
/// and was answered with no.
pub open spec fn probe_failed(
    logs: nat,
    announced: Seq<Option<u16>>,
    answers: Seq<bool>,
    port: u16,
    j: int,
) -> bool {
    &&& 0 <= j < answers.len()
    &&& !answers[j]
    &&& discovery(logs, announced, answers.take(j)) == Discovery::Probe(port)
}

/// No port is passed over: one that a log announces is among the ports discovered, or
/// its server did not answer a probe.
pub proof fn no_announced_port_is_passed_over(
    logs: nat,
    announced: Seq<Option<u16>>,
    answers: Seq<bool>,
    ports: Seq<u16>,
    m: nat,
)
    requires
        discovery(logs, announced, answers) == Discovery::Done(ports),
        m < logs,
        announced[m as int] is Some,
    ensures
        ports.contains(announced[m as int]->0) || exists|j: int|
            probe_failed(logs, announced, answers, announced[m as int]->0, j),
{
    let port = announced[m as int]->0;
    lemma_announced(logs, announced, answers, 0, 0, Seq::empty(), ports, m);
    if !ports.contains(port) {
        let j = choose|j: int|
            #![trigger answers.take(j)]
            0 <= j < answers.len() && !answers[j] && discovery_from(
                logs,
                announced,
                answers.take(j),
                0,
                0,
                Seq::empty(),
            ) == Discovery::Probe(port);
        assert(probe_failed(logs, announced, answers, port, j));
    }
}

proof fn lemma_pid_search(
    logs: nat,
    announced: Seq<Option<u16>>,
    answers: Seq<bool>,
    i: nat,
    used: nat,
    port: u16,
) -> (j: int)
    requires
        used <= answers.len(),
        pid_search_from(logs, announced, answers, i, used) == PidSearch::Done(Some(port)),
    ensures
        used <= j < answers.len(),
        answers[j],
        forall|k: int| used <= k < j ==> !answers[k],
        pid_search_from(logs, announced, answers.take(j), i, used) == PidSearch::Probe(port),
    decreases logs - i,
{
    if announced[i as int] is Some {
        if answers[used as int] {
            used as int
        } else {
            let j = lemma_pid_search(logs, announced, answers, i + 1, used + 1, port);
            assert(answers.take(j)[used as int] == answers[used as int]);
            j
        }
    } else {
        lemma_pid_search(logs, announced, answers, i + 1, used, port)
    }
}

/// The port found for a process is the first one probed whose server answered.
pub proof fn port_of_process_is_the_first_that_answers(
    logs: nat,
    announced: Seq<Option<u16>>,
    answers: Seq<bool>,
    port: u16,
) -> (j: int)
    requires
        pid_search(logs, announced, answers) == PidSearch::Done(Some(port)),
    ensures
        0 <= j < answers.len(),
        answers[j],
        forall|k: int| 0 <= k < j ==> !answers[k],
        pid_search(logs, announced, answers.take(j)) == PidSearch::Probe(port),
{
    lemma_pid_search(logs, announced, answers, 0, 0, port)
}

proof fn lemma_no_pid_search(
    logs: nat,
    announced: Seq<Option<u16>>,
    answers: Seq<bool>,
    i: nat,
    used: nat,
    m: nat,
) -> (j: int)
    requires
        used <= answers.len(),
        pid_search_from(logs, announced, answers, i, used) == PidSearch::Done(None),
        i <= m < logs,
        announced[m as int] is Some,
    ensures
        used <= j < answers.len(),
        !answers[j],
        pid_search_from(logs, announced, answers.take(j), i, used) == PidSearch::Probe(
            announced[m as int]->0,
        ),
    decreases logs - i,
{
    if announced[i as int] is Some {
        if i == m {
            used as int
        } else {
            let j = lemma_no_pid_search(logs, announced, answers, i + 1, used + 1, m);
            assert(answers.take(j)[used as int] == answers[used as int]);
            j
        }
    } else {
        lemma_no_pid_search(logs, announced, answers, i + 1, used, m)
    }
}

/// No port is found for a process only when every port that a log announces for it was
/// probed, and none answered.
pub proof fn no_port_of_process_is_passed_over(
    logs: nat,
    announced: Seq<Option<u16>>,
    answers: Seq<bool>,
    m: nat,
) -> (j: int)
    requires
        pid_search(logs, announced, answers) == PidSearch::Done(None),
        m < logs,
        announced[m as int] is Some,
    ensures
        0 <= j < answers.len(),
        !answers[j],
        pid_search(logs, announced, answers.take(j)) == PidSearch::Probe(announced[m as int]->0),
{
    lemma_no_pid_search(logs, announced, answers, 0, 0, m)
}

// ---------------------------------------------------------------------------
// Searches among servers that stay as they are
// ---------------------------------------------------------------------------

/// Whether the answer to a probe of the search for all servers tells whether the server
/// is up, when `up` says so of each port.
pub open spec fn probe_tells(step: Discovery, answer: bool, up: spec_fn(u16) -> bool) -> bool {
    step matches Discovery::Probe(port) ==> answer == up(port)
}

/// Whether the answer to a probe of the search for the server of one process tells whether
/// the server is up, when `up` says so of each port.
pub open spec fn pid_probe_tells(
    step: PidSearch,
    answer: bool,
    up: spec_fn(u16) -> bool,
) -> bool {
    step matches PidSearch::Probe(port) ==> answer == up(port)
}

/// Whether the answers to the probes of the search for all servers tell which servers
/// are up: `up` says so of each port.
pub open spec fn discovery_answers_tell(
    logs: nat,
    announced: Seq<Option<u16>>,
    answers: Seq<bool>,
    up: spec_fn(u16) -> bool,
) -> bool {
    forall|j: int|
        0 <= j < answers.len() ==> probe_tells(
            #[trigger] discovery(logs, announced, answers.take(j)),
            answers[j],
            up,
        )
}

/// Whether the answers to the probes of the search for the server of one process tell
/// which servers are up: `up` says so of each port.
pub open spec fn pid_search_answers_tell(
    logs: nat,
    announced: Seq<Option<u16>>,
    answers: Seq<bool>,
    up: spec_fn(u16) -> bool,
) -> bool {
    forall|j: int|
        0 <= j < answers.len() ==> pid_probe_tells(
            #[trigger] pid_search(logs, announced, answers.take(j)),
            answers[j],
            up,
        )
}

/// Whether the log at the place `m` is the first that announces `port`.
pub open spec fn first_log(announced: Seq<Option<u16>>, port: u16, m: int) -> bool {
    &&& 0 <= m < announced.len()
    &&& announced[m] == Some(port)
    &&& forall|k: int| 0 <= k < m ==> announced[k] != Some(port)
}

/// Whether one of the first `logs` logs announces `port`.
pub open spec fn announced_among(announced: Seq<Option<u16>>, logs: nat, port: u16) -> bool {
    exists|m: int| 0 <= m < logs && #[trigger] announced[m] == Some(port)
}

/// The ports that the first `logs` logs announce and that are up, each where it is
/// announced first.
spec fn up_ports(
    announced: Seq<Option<u16>>,
    logs: nat,
    up: spec_fn(u16) -> bool,
) -> Seq<u16>
    decreases logs,
{
    if logs == 0 {
        seq![]
    } else {
        let earlier = up_ports(announced, (logs - 1) as nat, up);
        match announced[logs - 1] {
            Some(port) => if up(port) && !earlier.contains(port) {
                earlier.push(port)
            } else {
                earlier
            },
            None => earlier,
        }
    }
}

proof fn lemma_discovery_finds_up_ports(
    logs: nat,
    announced: Seq<Option<u16>>,
    answers: Seq<bool>,
    up: spec_fn(u16) -> bool,
    i: nat,
    used: nat,
    result: Seq<u16>,
)
    requires
        i <= logs,
        used <= answers.len(),
        discovery_from(logs, announced, answers, i, used, up_ports(announced, i, up))
            == Discovery::Done(result),
        forall|j: int|
            used <= j < answers.len() ==> probe_tells(#[trigger] discovery_from(
                logs,
                announced,
                answers.take(j),
                i,
                used,
                up_ports(announced, i, up),
            ), answers[j], up),
    ensures
        result == up_ports(announced, logs, up),
        announced.len() >= logs || i == logs,
    decreases logs - i,
{
    let ports = up_ports(announced, i, up);
    if i < logs {
        let grown = up_ports(announced, i + 1, up);
        if announced[i as int] is Some && !ports.contains(announced[i as int]->0) {
            let here = announced[i as int]->0;
            assert(discovery_from(logs, announced, answers.take(used as int), i, used, ports)
                == Discovery::Probe(here));
            assert(answers[used as int] == up(here));
            assert forall|j: int|
                used + 1 <= j < answers.len() implies probe_tells(#[trigger] discovery_from(
                    logs,
                    announced,
                    answers.take(j),
                    i + 1,
                    used + 1,
                    grown,
                ), answers[j], up) by {
                assert(answers.take(j)[used as int] == answers[used as int]);
                assert(discovery_from(logs, announced, answers.take(j), i, used, ports)
                    == discovery_from(logs, announced, answers.take(j), i + 1, used + 1, grown));
            }
            lemma_discovery_finds_up_ports(logs, announced, answers, up, i + 1, used + 1, result);
        } else {
            assert(grown == ports);
            assert forall|j: int|
                used <= j < answers.len() implies probe_tells(#[trigger] discovery_from(
                    logs,
                    announced,
                    answers.take(j),
                    i + 1,
                    used,
                    grown,
                ), answers[j], up) by {
                assert(discovery_from(logs, announced, answers.take(j), i, used, ports)
                    == discovery_from(logs, announced, answers.take(j), i + 1, used, grown));
            }
            lemma_discovery_finds_up_ports(logs, announced, answers, up, i + 1, used, result);
        }
    }
}

proof fn lemma_up_ports(announced: Seq<Option<u16>>, logs: nat, up: spec_fn(u16) -> bool)
    requires
        logs <= announced.len(),
    ensures
        up_ports(announced, logs, up).no_duplicates(),
        forall|port: u16|
            #[trigger] up_ports(announced, logs, up).contains(port) <==> up(port)
                && announced_among(announced, logs, port),
        forall|a: int, b: int, m: int, n: int|
            0 <= a < b < up_ports(announced, logs, up).len() && #[trigger] first_log(
                announced,
                up_ports(announced, logs, up)[a],
                m,
            ) && #[trigger] first_log(announced, up_ports(announced, logs, up)[b], n) ==> m < n,
    decreases logs,
{
    if logs > 0 {
        let before = (logs - 1) as nat;
        let earlier = up_ports(announced, before, up);
        let ports = up_ports(announced, logs, up);
        let last = announced[logs - 1];
        lemma_up_ports(announced, before, up);
        assert forall|port: u16| announced_among(announced, logs, port) <==> (announced_among(
            announced,
            before,
            port,
        ) || last == Some(port)) by {
            if announced_among(announced, before, port) {
                let m = choose|m: int| 0 <= m < before && #[trigger] announced[m] == Some(port);
                assert(announced[m] == Some(port) && 0 <= m < logs);
            }
        }
        if ports != earlier {
            let new = last->0;
            assert(ports == earlier.push(new));
            assert forall|port: u16| #[trigger] ports.contains(port) <==> earlier.contains(port)
                || port == new by {
                assert(ports[ports.len() - 1] == new);
                if earlier.contains(port) {
                    assert(ports[earlier.index_of(port)] == port);
                }
            }
            assert forall|a: int, b: int, m: int, n: int|
                0 <= a < b < ports.len() && #[trigger] first_log(announced, ports[a], m)
                    && #[trigger] first_log(announced, ports[b], n) implies m < n by {
                assert(ports[a] == earlier[a]);
                if b < earlier.len() {
                    assert(ports[b] == earlier[b]);
                } else {
                    assert(earlier.contains(earlier[a]));
                    assert(!announced_among(announced, before, new));
                    let k = choose|k: int|
                        0 <= k < before && #[trigger] announced[k] == Some(earlier[a]);
                    assert(m <= k);
                    if n < before {
                        assert(announced[n] == Some(new));
                    }
                }
            }
        }
    }
}

/// When each answer tells whether the server on a port is up, the ports discovered are
/// those that a log announces and that are up: no others, none twice, and in the order
/// of the first logs that announce them.
pub proof fn discovered_ports_are_those_that_are_up(
    logs: nat,
    announced: Seq<Option<u16>>,
    answers: Seq<bool>,
    up: spec_fn(u16) -> bool,
    ports: Seq<u16>,
)
    requires
        discovery(logs, announced, answers) == Discovery::Done(ports),
        discovery_answers_tell(logs, announced, answers, up),
    ensures
        ports.no_duplicates(),
        forall|port: u16|
            #[trigger] ports.contains(port) <==> up(port) && announced_among(
                announced,
                logs,
                port,
            ),
        forall|a: int, b: int, m: int, n: int|
            0 <= a < b < ports.len() && #[trigger] first_log(announced, ports[a], m)
                && #[trigger] first_log(announced, ports[b], n) ==> m < n,
{
    assert(up_ports(announced, 0, up) =~= Seq::<u16>::empty());
    assert forall|j: int|
        0 <= j < answers.len() implies probe_tells(#[trigger] discovery_from(
            logs,
            announced,
            answers.take(j),
            0,
            0,
            up_ports(announced, 0, up),
        ), answers[j], up) by {
        assert(probe_tells(discovery(logs, announced, answers.take(j)), answers[j], up));
    }
    lemma_discovery_finds_up_ports(logs, announced, answers, up, 0, 0, ports);
    lemma_up_ports(announced, logs, up);
}

proof fn lemma_pid_search_finds_first_up(
    logs: nat,
    announced: Seq<Option<u16>>,
    answers: Seq<bool>,
    up: spec_fn(u16) -> bool,
    i: nat,
    used: nat,
    result: Option<u16>,
)
    requires
        used <= answers.len(),
        pid_search_from(logs, announced, answers, i, used) == PidSearch::Done(result),
        forall|k: int| 0 <= k < i && (#[trigger] announced[k]) is Some ==> !up(announced[k]->0),
        forall|j: int|
            used <= j < answers.len() ==> pid_probe_tells(#[trigger] pid_search_from(
                logs,
                announced,
                answers.take(j),
                i,
                used,
            ), answers[j], up),
    ensures
        match result {
            Some(port) => exists|m: int| first_up_log(announced, logs, up, port, m),
            None => forall|m: int|
                0 <= m < logs && (#[trigger] announced[m]) is Some ==> !up(announced[m]->0),
        },
    decreases logs - i,
{
    if i < logs {
        if announced[i as int] is Some {
            let here = announced[i as int]->0;
            assert(pid_search_from(logs, announced, answers.take(used as int), i, used)
                == PidSearch::Probe(here));
            assert(answers[used as int] == up(here));
            if answers[used as int] {
                assert(first_up_log(announced, logs, up, here, i as int));
            } else {
                assert forall|j: int|
                    used + 1 <= j < answers.len() implies pid_probe_tells(
                        #[trigger] pid_search_from(
                            logs,
                            announced,
                            answers.take(j),
                            i + 1,
                            used + 1,
                        ),
                        answers[j],
                        up,
                    ) by {
                    assert(answers.take(j)[used as int] == answers[used as int]);
                    assert(pid_search_from(logs, announced, answers.take(j), i, used)
                        == pid_search_from(logs, announced, answers.take(j), i + 1, used + 1));
                }
                lemma_pid_search_finds_first_up(
                    logs,
                    announced,
                    answers,
                    up,
                    i + 1,
                    used + 1,
                    result,
                );
            }
        } else {
            assert forall|j: int|
                used <= j < answers.len() implies pid_probe_tells(#[trigger] pid_search_from(
                    logs,
                    announced,
                    answers.take(j),
                    i + 1,
                    used,
                ), answers[j], up) by {
                assert(pid_search_from(logs, announced, answers.take(j), i, used)
                    == pid_search_from(logs, announced, answers.take(j), i + 1, used));
            }
            lemma_pid_search_finds_first_up(logs, announced, answers, up, i + 1, used, result);
        }
    }
}

/// Whether the log at the place `m` is the first of the first `logs` logs whose port is
/// up, and that port is `port`.
pub open spec fn first_up_log(
    announced: Seq<Option<u16>>,
    logs: nat,
    up: spec_fn(u16) -> bool,
    port: u16,
    m: int,
) -> bool {
    &&& 0 <= m < logs
    &&& announced[m] == Some(port)
    &&& up(port)
    &&& forall|k: int| 0 <= k < m && (#[trigger] announced[k]) is Some ==> !up(announced[k]->0)
}

/// When each answer tells whether the server on a port is up, the port found for a
/// process is that of the first log whose port is up, and none is found only where no log
/// has such a port.
pub proof fn port_of_process_is_that_of_the_first_log_that_is_up(
    logs: nat,
    announced: Seq<Option<u16>>,
    answers: Seq<bool>,
    up: spec_fn(u16) -> bool,
    result: Option<u16>,
)
    requires
        pid_search(logs, announced, answers) == PidSearch::Done(result),
        pid_search_answers_tell(logs, announced, answers, up),
    ensures
        match result {
            Some(port) => exists|m: int| first_up_log(announced, logs, up, port, m),
            None => forall|m: int|
                0 <= m < logs && (#[trigger] announced[m]) is Some ==> !up(announced[m]->0),
        },
{
    assert forall|j: int|
        0 <= j < answers.len() implies pid_probe_tells(#[trigger] pid_search_from(
            logs,
            announced,
            answers.take(j),
            0,
            0,
        ), answers[j], up) by {
        assert(pid_probe_tells(pid_search(logs, announced, answers.take(j)), answers[j], up));
    }
    lemma_pid_search_finds_first_up(logs, announced, answers, up, 0, 0, result);
}

// ---------------------------------------------------------------------------
// The order of the steps
// ---------------------------------------------------------------------------

proof fn lemma_discovery_steps(
    logs: nat,
    announced: Seq<Option<u16>>,
    answers: Seq<bool>,
    i: nat,
    used: nat,
    ports: Seq<u16>,
)
    requires
        i <= logs,
        used <= i,
        i <= announced.len() || i == 0,
    ensures
        match discovery_from(logs, announced, answers, i, used, ports) {
            Discovery::ReadLog(next) => next == announced.len() && next < logs,
            Discovery::Probe(port) => announced_among(announced, logs, port),
            Discovery::Done(_) => announced.len() >= logs,
        },
        announced.len() >= logs && answers.len() >= logs ==> discovery_from(
            logs,
            announced,
            answers,
            i,
            used,
            ports,
        ) is Done,
    decreases logs - i,
{
    if i < logs && i < announced.len() {
        if announced[i as int] is Some && !ports.contains(announced[i as int]->0) {
            let port = announced[i as int]->0;
            assert(announced[i as int] == Some(port));
            if used < answers.len() {
                let found = if answers[used as int] {
                    ports.push(port)
                } else {
                    ports
                };
                lemma_discovery_steps(logs, announced, answers, i + 1, used + 1, found);
            }
        } else {
            lemma_discovery_steps(logs, announced, answers, i + 1, used, ports);
        }
    }
}

/// The search for all servers reads each log once and in order, probes only ports that a log
/// announces, and ends: with the logs read and an answer for each, nothing is left to do.
pub proof fn discovery_takes_its_steps_in_order(
    logs: nat,
    announced: Seq<Option<u16>>,
    answers: Seq<bool>,
)
    ensures
        match discovery(logs, announced, answers) {
            Discovery::ReadLog(next) => next == announced.len() && next < logs,
            Discovery::Probe(port) => announced_among(announced, logs, port),
            Discovery::Done(_) => announced.len() >= logs,
        },
        announced.len() >= logs && answers.len() >= logs ==> discovery(
            logs,
            announced,
            answers,
        ) is Done,
{
    lemma_discovery_steps(logs, announced, answers, 0, 0, Seq::empty());
}

proof fn lemma_pid_search_steps(
    logs: nat,
    announced: Seq<Option<u16>>,
    answers: Seq<bool>,
    i: nat,
    used: nat,
)
    requires
        i <= logs,
        used <= i,
        i <= announced.len() || i == 0,
    ensures
        match pid_search_from(logs, announced, answers, i, used) {
            PidSearch::ReadLog(next) => next == announced.len() && next < logs,
            PidSearch::Probe(port) => announced_among(announced, logs, port),
            PidSearch::Done(Some(port)) => announced_among(announced, logs, port),
            PidSearch::Done(None) => announced.len() >= logs,
        },
        announced.len() >= logs && answers.len() >= logs ==> pid_search_from(
            logs,
            announced,
            answers,
            i,
            used,
        ) is Done,
    decreases logs - i,
{
    if i < logs && i < announced.len() {
        if announced[i as int] is Some {
            let port = announced[i as int]->0;
            assert(announced[i as int] == Some(port));
            if used < answers.len() && !answers[used as int] {
                lemma_pid_search_steps(logs, announced, answers, i + 1, used + 1);
            }
        } else {
            lemma_pid_search_steps(logs, announced, answers, i + 1, used);
        }
    }
}

/// The search for the server of one process reads each log once and in order, probes only
/// ports that a log announces, and ends.
pub proof fn pid_search_takes_its_steps_in_order(
    logs: nat,
    announced: Seq<Option<u16>>,
    answers: Seq<bool>,
)
    ensures
        match pid_search(logs, announced, answers) {
            PidSearch::ReadLog(next) => next == announced.len() && next < logs,
            PidSearch::Probe(port) => announced_among(announced, logs, port),
            PidSearch::Done(Some(port)) => announced_among(announced, logs, port),
            PidSearch::Done(None) => announced.len() >= logs,
        },
        announced.len() >= logs && answers.len() >= logs ==> pid_search(
            logs,
            announced,
            answers,
        ) is Done,
{
    lemma_pid_search_steps(logs, announced, answers, 0, 0);
}

} // verus!
