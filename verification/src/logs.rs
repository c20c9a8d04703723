//! The log files of the command line tool, and what their lines announce.

use vstd::prelude::*;
use vstd::slice::slice_subrange;
use vstd::utf8::*;

use crate::number::{self, parse_unsigned, take_digits};
use crate::stream::text_from_utf8;
use crate::text::{
    self, chars_of, ends_with, find_first, find_last, split_lines, starts_with, trimmed_end,
};

verus! {

/// How many of the newest log files to scan for a live port.
pub const LOG_SCAN_LIMIT: usize = 20;

/// How many bytes of a log file are read.
pub const MAX_LOG_BYTES: usize = 512 * 1024;

// ---------------------------------------------------------------------------
// What a line announces
// ---------------------------------------------------------------------------

/// The HTTP port that a log line announces: the number behind the last `at `, in a
/// line that ends in `for HTTP`, trailing white space aside. Zero is not a port.
pub open spec fn announced_port(line: Seq<char>) -> Option<u16> {
    let kept = text::trim_end(line);
    if !"for HTTP"@.is_suffix_of(kept) {
        None
    } else {
        match text::last_occurrence(kept, "at "@) {
            None => None,
            Some(k) => match number::unsigned_number(
                number::leading_digits(kept.skip(k + "at "@.len())),
                10,
                u16::MAX as int,
            ) {
                Some(n) => if n == 0 {
                    None
                } else {
                    Some(n as u16)
                },
                None => None,
            },
        }
    }
}

/// The process id that a log line announces: the number behind the first `with pid `.
pub open spec fn announced_pid(line: Seq<char>) -> Option<u32> {
    match text::first_occurrence(line, "with pid "@) {
        None => None,
        Some(k) => match number::unsigned_number(
            number::leading_digits(line.skip(k + "with pid "@.len())),
            10,
            u32::MAX as int,
        ) {
            Some(n) => Some(n as u32),
            None => None,
        },
    }
}

/// The last port that the lines announce.
pub open spec fn last_port(log: Seq<Seq<char>>) -> Option<u16>
    decreases log.len(),
{
    if log.len() == 0 {
        None
    } else if announced_port(log.last()) is Some {
        announced_port(log.last())
    } else {
        last_port(log.drop_last())
    }
}

/// The process that is active at the end of the lines: the last one announced.
pub open spec fn active_pid(log: Seq<Seq<char>>) -> Option<u32>
    decreases log.len(),
{
    if log.len() == 0 {
        None
    } else if announced_pid(log.last()) is Some {
        announced_pid(log.last())
    } else {
        active_pid(log.drop_last())
    }
}

/// The last port that the lines announce while the process `pid` is active.
pub open spec fn last_port_of_pid(log: Seq<Seq<char>>, pid: u32) -> Option<u16>
    decreases log.len(),
{
    if log.len() == 0 {
        None
    } else if active_pid(log) == Some(pid) && announced_port(log.last()) is Some {
        announced_port(log.last())
    } else {
        last_port_of_pid(log.drop_last(), pid)
    }
}

/// The port that the line announces.
fn port_in(line: &[char]) -> (r: Option<u16>)
    ensures
        r == announced_port(line@),
{
    let kept: &[char] = trimmed_end(line);
    if !ends_with(kept, chars_of("for HTTP").as_slice()) {
        return None;
    }
    let marker: Vec<char> = chars_of("at ");
    match find_last(kept, marker.as_slice()) {
        None => None,
        Some(k) => {
            let end: usize = kept.len();
            let tail: &[char] = slice_subrange(kept, k + marker.len(), end);
            assert(tail@ =~= kept@.skip(k + marker@.len()));
            match parse_unsigned(take_digits(tail), 10, u16::MAX as u64) {
                Some(n) => if n == 0 {
                    None
                } else {
                    Some(n as u16)
                },
                None => None,
            }
        },
    }
}

/// The process id that the line announces.
fn pid_in(line: &[char]) -> (r: Option<u32>)
    ensures
        r == announced_pid(line@),
{
    let marker: Vec<char> = chars_of("with pid ");
    match find_first(line, marker.as_slice()) {
        None => None,
        Some(k) => {
            let end: usize = line.len();
            let tail: &[char] = slice_subrange(line, k + marker.len(), end);
            assert(tail@ =~= line@.skip(k + marker@.len()));
            match parse_unsigned(take_digits(tail), 10, u32::MAX as u64) {
                Some(n) => Some(n as u32),
                None => None,
            }
        },
    }
}

/// The HTTP port a single log line announces, if any.
pub fn http_port_in_line(line: &str) -> (r: Option<u16>)
    ensures
        r == announced_port(line@),
{
    let chars: Vec<char> = chars_of(line);
    port_in(chars.as_slice())
}

/// The process id a single log line announces (`... with pid <N>`), if any.
pub fn pid_in_line(line: &str) -> (r: Option<u32>)
    ensures
        r == announced_pid(line@),
{
    let chars: Vec<char> = chars_of(line);
    pid_in(chars.as_slice())
}

/// Extracts the HTTP port from the contents of a log (last match wins).
pub fn parse_http_port_from(contents: &str) -> (r: Option<u16>)
    ensures
        r == last_port(text::lines(contents@)),
{
    let chars: Vec<char> = chars_of(contents);
    let log = split_lines(chars.as_slice());
    let ghost all = text::lines(contents@);
    let mut n: usize = log.len();
    assert(all.take(n as int) =~= all);
    while n > 0
        invariant
            n <= log@.len(),
            log@.len() == all.len(),
            all == text::lines(contents@),
            forall|i: int| 0 <= i < log@.len() ==> (#[trigger] log@[i])@ == all[i],
            last_port(all) == last_port(all.take(n as int)),
        decreases n,
    {
        assert(all.take(n as int).drop_last() =~= all.take(n - 1));
        assert(all.take(n as int).last() == all[n - 1]);
        let found: Option<u16> = port_in(log[n - 1]);
        if found.is_some() {
            return found;
        }
        n = n - 1;
    }
    None
}

/// The last HTTP port logged in `contents` while process `pid` was the active one.
pub fn http_port_for_pid_in(contents: &str, pid: u32) -> (r: Option<u16>)
    ensures
        r == last_port_of_pid(text::lines(contents@), pid),
{
    let chars: Vec<char> = chars_of(contents);
    let log = split_lines(chars.as_slice());
    let ghost all = text::lines(contents@);
    let mut current: Option<u32> = None;
    let mut port: Option<u16> = None;
    let mut i: usize = 0;
    while i < log.len()
        invariant
            i <= log@.len(),
            log@.len() == all.len(),
            all == text::lines(contents@),
            forall|j: int| 0 <= j < log@.len() ==> (#[trigger] log@[j])@ == all[j],
            current == active_pid(all.take(i as int)),
            port == last_port_of_pid(all.take(i as int), pid),
        decreases log@.len() - i,
    {
        assert(all.take(i + 1).drop_last() =~= all.take(i as int));
        assert(all.take(i + 1).last() == all[i as int]);
        let found: Option<u32> = pid_in(log[i]);
        if found.is_some() {
            current = found;
        }
        if let Some(active) = current {
            if active == pid {
                let announced: Option<u16> = port_in(log[i]);
                if announced.is_some() {
                    port = announced;
                }
            }
        }
        i = i + 1;
    }
    assert(all.take(all.len() as int) =~= all);
    port
}

// ---------------------------------------------------------------------------
// The bytes of a log file
// ---------------------------------------------------------------------------

/// The bytes of a log file that count: no more than the limit.
pub open spec fn capped(bytes: Seq<u8>) -> Seq<u8> {
    if bytes.len() <= MAX_LOG_BYTES {
        bytes
    } else {
        bytes.take(MAX_LOG_BYTES as int)
    }
}

/// The text of a log file, if the bytes that count are UTF-8.
pub open spec fn log_text(bytes: Seq<u8>) -> Option<Seq<char>> {
    if valid_utf8(capped(bytes)) {
        Some(decode_utf8(capped(bytes)))
    } else {
        None
    }
}

/// The text of a log file with the bytes `bytes`, bounded to a sane size.
pub fn read_log_capped(bytes: Vec<u8>) -> (r: Option<String>)
    ensures
        match r {
            Some(text) => log_text(bytes@) == Some(text@),
            None => log_text(bytes@) is None,
        },
{
    let mut kept: Vec<u8> = bytes;
    kept.truncate(MAX_LOG_BYTES);
    assert(kept@ =~= capped(bytes@));
    text_from_utf8(kept)
}

/// Extracts the HTTP port from the bytes of a log file.
pub fn parse_http_port(bytes: Vec<u8>) -> (r: Option<u16>)
    ensures
        r == (match log_text(bytes@) {
            Some(text) => last_port(text::lines(text)),
            None => None,
        }),
{
    match read_log_capped(bytes) {
        Some(text) => parse_http_port_from(text.as_str()),
        None => None,
    }
}

// ---------------------------------------------------------------------------
// Which files to read
// ---------------------------------------------------------------------------

/// A file in the log directory.
#[derive(Debug)]
pub struct LogEntry {
    /// The name of the file, if it is text.
    pub name: Option<String>,
    /// When the file was last changed, in nanoseconds since the epoch, if known.
    pub modified: Option<i128>,
}

/// Whether a file is a log of the command line tool: `cli-*.log`.
pub open spec fn is_cli_log(entry: LogEntry) -> bool {
    match entry.name {
        Some(name) => "cli-"@.is_prefix_of(name@) && ".log"@.is_suffix_of(name@),
        None => false,
    }
}

/// When a file counts as changed: at the epoch, when nothing is known.
pub open spec fn changed_at(entry: LogEntry) -> int {
    match entry.modified {
        Some(time) => time as int,
        None => 0,
    }
}

/// Whether the file at `a` goes before the one at `b`: it was changed later, or at
/// the same time and stands first.
pub open spec fn goes_before(entries: Seq<LogEntry>, a: int, b: int) -> bool {
    ||| changed_at(entries[a]) > changed_at(entries[b])
    ||| changed_at(entries[a]) == changed_at(entries[b]) && a < b
}

/// Whether `chosen` are the places of the newest logs among `entries`, the most
/// recent first, and as many as the limit allows.
pub open spec fn newest_logs(entries: Seq<LogEntry>, chosen: Seq<usize>) -> bool {
    &&& chosen.len() <= LOG_SCAN_LIMIT
    &&& forall|i: int|
        0 <= i < chosen.len() ==> (#[trigger] chosen[i]) < entries.len() && is_cli_log(
            entries[chosen[i] as int],
        )
    &&& forall|i: int, j: int|
        0 <= i < j < chosen.len() ==> goes_before(
            entries,
            (#[trigger] chosen[i]) as int,
            (#[trigger] chosen[j]) as int,
        )
    &&& forall|k: usize|
        k < entries.len() && is_cli_log(entries[k as int]) && !(#[trigger] chosen.contains(k)) ==> {
            &&& chosen.len() == LOG_SCAN_LIMIT
            &&& goes_before(entries, chosen.last() as int, k as int)
        }
}

/// Whether a file is a log of the command line tool.
pub fn entry_is_cli_log(entry: &LogEntry) -> (r: bool)
    ensures
        r == is_cli_log(*entry),
{
    match &entry.name {
        Some(name) => {
            let chars: Vec<char> = chars_of(name.as_str());
            starts_with(chars.as_slice(), chars_of("cli-").as_slice()) && ends_with(
                chars.as_slice(),
                chars_of(".log").as_slice(),
            )
        },
        None => false,
    }
}

/// When a file counts as changed.
fn entry_changed_at(entry: &LogEntry) -> (r: i128)
    ensures
        r == changed_at(*entry),
{
    match entry.modified {
        Some(time) => time,
        None => 0,
    }
}

/// Puts the log at `k`, the last one seen so far, into its place among `chosen`.
fn insert_log(entries: &Vec<LogEntry>, chosen: &mut Vec<usize>, k: usize)
    requires
        k < entries@.len(),
        newest_logs(entries@.take(k as int), old(chosen)@),
        is_cli_log(entries@[k as int]),
    ensures
        newest_logs(entries@.take(k + 1), final(chosen)@),
{
    let ghost before = chosen@;
    let ghost seen = entries@.take(k as int);
    let ghost all = entries@.take(k + 1);
    let time: i128 = entry_changed_at(&entries[k]);
    let mut place: usize = 0;
    proof {
        assert forall|i: int| 0 <= i < before.len() implies (#[trigger] before[i]) < k
            && is_cli_log(all[before[i] as int]) by {
            assert(all[before[i] as int] == seen[before[i] as int]);
        }
    }
    while place < chosen.len() && entry_changed_at(&entries[chosen[place]]) >= time
        invariant
            k < entries@.len(),
            place <= chosen@.len(),
            chosen@ == before,
            all == entries@.take(k + 1),
            time == changed_at(entries@[k as int]),
            forall|i: int| 0 <= i < before.len() ==> (#[trigger] before[i]) < k && is_cli_log(
                all[before[i] as int],
            ),
            forall|i: int|
                0 <= i < place ==> goes_before(all, (#[trigger] before[i]) as int, k as int),
        decreases chosen@.len() - place,
    {
        place = place + 1;
    }
    proof {
        assert forall|i: int, j: int| 0 <= i < j < before.len() implies goes_before(
            all,
            (#[trigger] before[i]) as int,
            (#[trigger] before[j]) as int,
        ) by {
            assert(goes_before(seen, before[i] as int, before[j] as int));
        }
        assert forall|i: int| place <= i < before.len() implies goes_before(
            all,
            k as int,
            (#[trigger] before[i]) as int,
        ) by {
            if place < i {
                assert(goes_before(all, before[place as int] as int, before[i] as int));
            }
        }
    }
    chosen.insert(place, k);
    let ghost grown = before.insert(place as int, k);
    proof {
        assert forall|i: int| 0 <= i < grown.len() implies (#[trigger] grown[i]) < all.len()
            && is_cli_log(all[grown[i] as int]) by {
            if i < place {
                assert(grown[i] == before[i]);
            } else if i > place {
                assert(grown[i] == before[i - 1]);
            }
        }
        assert forall|i: int, j: int| 0 <= i < j < grown.len() implies goes_before(
            all,
            (#[trigger] grown[i]) as int,
            (#[trigger] grown[j]) as int,
        ) by {
            let a = if i < place {
                before[i]
            } else if i == place {
                k
            } else {
                before[i - 1]
            };
            let b = if j < place {
                before[j]
            } else if j == place {
                k
            } else {
                before[j - 1]
            };
            assert(grown[i] == a && grown[j] == b);
        }
        assert forall|m: usize|
            m < all.len() && is_cli_log(all[m as int]) && !(#[trigger] grown.contains(m)) implies {
            &&& before.len() == LOG_SCAN_LIMIT
            &&& goes_before(all, before.last() as int, m as int)
        } by {
            assert(grown[place as int] == k);
            assert(m < k);
            assert(all[m as int] == seen[m as int]);
            if before.contains(m) {
                let at = before.index_of(m);
                if at < place {
                    assert(grown[at] == m);
                } else {
                    assert(grown[at + 1] == m);
                }
            }
            assert(goes_before(seen, before.last() as int, m as int));
        }
    }
    if chosen.len() > LOG_SCAN_LIMIT {
        chosen.pop();
        let ghost kept = grown.drop_last();
        proof {
            assert(chosen@ =~= kept);
            let limit = LOG_SCAN_LIMIT as int;
            assert(before.len() == limit);
            assert forall|m: usize|
                m < all.len() && is_cli_log(all[m as int]) && !(#[trigger] kept.contains(m)) implies {
                &&& kept.len() == LOG_SCAN_LIMIT
                &&& goes_before(all, kept.last() as int, m as int)
            } by {
                assert(goes_before(all, grown[limit - 1] as int, grown[limit] as int));
                if grown.contains(m) {
                    let at = grown.index_of(m);
                    if at < limit {
                        assert(kept[at] == m);
                    }
                } else {
                    assert(goes_before(all, before.last() as int, m as int));
                    if place < limit {
                        assert(grown[limit] == before[limit - 1]);
                    }
                }
            }
        }
    } else {
        assert forall|m: usize|
            m < all.len() && is_cli_log(all[m as int]) && !(#[trigger] grown.contains(m)) implies {
            &&& grown.len() == LOG_SCAN_LIMIT
            &&& goes_before(all, grown.last() as int, m as int)
        } by {
            assert(before.len() == LOG_SCAN_LIMIT);
        }
    }
}

/// The places of the newest logs of the command line tool among the files of the log
/// directory, most recent first.
pub fn recent_log_files(entries: &Vec<LogEntry>) -> (r: Vec<usize>)
    ensures
        newest_logs(entries@, r@),
{
    let mut chosen: Vec<usize> = Vec::new();
    let mut k: usize = 0;
    while k < entries.len()
        invariant
            k <= entries@.len(),
            newest_logs(entries@.take(k as int), chosen@),
        decreases entries@.len() - k,
    {
        if entry_is_cli_log(&entries[k]) {
            insert_log(entries, &mut chosen, k);
        } else {
            let ghost seen = entries@.take(k as int);
            let ghost all = entries@.take(k + 1);
            proof {
                assert forall|i: int| 0 <= i < chosen@.len() implies (#[trigger] chosen@[i])
                    < all.len() && is_cli_log(all[chosen@[i] as int]) by {
                    assert(all[chosen@[i] as int] == seen[chosen@[i] as int]);
                }
                assert forall|i: int, j: int| 0 <= i < j < chosen@.len() implies goes_before(
                    all,
                    (#[trigger] chosen@[i]) as int,
                    (#[trigger] chosen@[j]) as int,
                ) by {
                    assert(goes_before(seen, chosen@[i] as int, chosen@[j] as int));
                }
                assert forall|m: usize|
                    m < all.len() && is_cli_log(all[m as int]) && !(#[trigger] chosen@.contains(m)) implies {
                    &&& chosen@.len() == LOG_SCAN_LIMIT
                    &&& goes_before(all, chosen@.last() as int, m as int)
                } by {
                    assert(m < k);
                    assert(is_cli_log(seen[m as int]));
                    assert(goes_before(seen, chosen@.last() as int, m as int));
                }
            }
        }
        k = k + 1;
    }
    assert(entries@.take(entries@.len() as int) =~= entries@);
    chosen
}

// ---------------------------------------------------------------------------
// Laws
// ---------------------------------------------------------------------------

/// A port that was found is never zero.
pub proof fn found_port_is_not_zero(log: Seq<Seq<char>>, pid: u32)
    ensures
        last_port(log) != Some(0u16),
        last_port_of_pid(log, pid) != Some(0u16),
    decreases log.len(),
{
    if log.len() > 0 {
        lemma_announced_port_is_not_zero(log.last());
        found_port_is_not_zero(log.drop_last(), pid);
    }
}

proof fn lemma_announced_port_is_not_zero(line: Seq<char>)
    ensures
        announced_port(line) != Some(0u16),
{
    let kept = text::trim_end(line);
    if let Some(k) = text::last_occurrence(kept, "at "@) {
        let digits = number::leading_digits(kept.skip(k + "at "@.len()));
        number::lemma_unsigned_natural(digits, 10, u16::MAX as int);
    }
}

/// The last announcement wins: the port of a log is the one that a line announces and
/// that no later line replaces, and there is none when no line announces one.
pub proof fn last_announcement_wins(log: Seq<Seq<char>>)
    ensures
        match last_port(log) {
            Some(port) => exists|i: int|
                0 <= i < log.len() && announced_port(#[trigger] log[i]) == Some(port) && (forall|
                    j: int,
                |
                    i < j < log.len() ==> announced_port(#[trigger] log[j]) is None),
            None => forall|i: int| 0 <= i < log.len() ==> announced_port(#[trigger] log[i]) is None,
        },
    decreases log.len(),
{
    if log.len() > 0 {
        let n = log.len() - 1;
        let earlier = log.drop_last();
        if announced_port(log.last()) is Some {
            assert(announced_port(log[n]) == last_port(log));
        } else {
            last_announcement_wins(earlier);
            match last_port(earlier) {
                Some(port) => {
                    let i = choose|i: int|
                        0 <= i < earlier.len() && announced_port(#[trigger] earlier[i]) == Some(port)
                            && (forall|j: int|
                            i < j < earlier.len() ==> announced_port(#[trigger] earlier[j]) is None);
                    assert(announced_port(log[i]) == Some(port)) by {
                        assert(log[i] == earlier[i]);
                    }
                    assert forall|j: int| i < j < log.len() implies announced_port(
                        #[trigger] log[j],
                    ) is None by {
                        if j < n {
                            assert(log[j] == earlier[j]);
                        }
                    }
                },
                None => {
                    assert forall|i: int| 0 <= i < log.len() implies announced_port(
                        #[trigger] log[i],
                    ) is None by {
                        if i < n {
                            assert(log[i] == earlier[i]);
                        }
                    }
                },
            }
        }
    }
}

/// A port is paired with its own process: what is logged while other processes are
/// active does not change the port found for `pid`.
pub proof fn other_processes_do_not_matter(log: Seq<Seq<char>>, more: Seq<Seq<char>>, pid: u32)
    requires
        forall|n: int|
            0 < n <= more.len() ==> active_pid(#[trigger] (log + more.take(n))) != Some(pid),
    ensures
        last_port_of_pid(log + more, pid) == last_port_of_pid(log, pid),
    decreases more.len(),
{
    if more.len() == 0 {
        assert(log + more =~= log);
    } else {
        let fewer = more.drop_last();
        assert forall|n: int| 0 < n <= fewer.len() implies active_pid(
            #[trigger] (log + fewer.take(n)),
        ) != Some(pid) by {
            assert(fewer.take(n) =~= more.take(n));
        }
        other_processes_do_not_matter(log, fewer, pid);
        assert(more.take(more.len() as int) =~= more);
        assert((log + more).drop_last() =~= log + fewer);
    }
}

/// A port that is announced while `pid` is active is the one found for `pid`.
pub proof fn own_announcement_counts(log: Seq<Seq<char>>, line: Seq<char>, pid: u32)
    requires
        active_pid(log.push(line)) == Some(pid),
        announced_port(line) is Some,
    ensures
        last_port_of_pid(log.push(line), pid) == announced_port(line),
{
}

/// Only one choice of log files is the newest one.
pub proof fn newest_logs_are_unique(entries: Seq<LogEntry>, a: Seq<usize>, b: Seq<usize>)
    requires
        newest_logs(entries, a),
        newest_logs(entries, b),
    ensures
        a == b,
{
    lemma_newest_logs_agree(entries, a, b, a.len() as int);
    lemma_newest_logs_agree(entries, b, a, b.len() as int);
    assert(a =~= b);
}

proof fn lemma_newest_logs_agree(entries: Seq<LogEntry>, a: Seq<usize>, b: Seq<usize>, n: int)
    requires
        newest_logs(entries, a),
        newest_logs(entries, b),
        0 <= n <= a.len(),
    ensures
        n <= b.len(),
        forall|i: int| 0 <= i < n ==> a[i] == b[i],
    decreases n,
{
    if n > 0 {
        lemma_newest_logs_agree(entries, a, b, n - 1);
        let x = a[n - 1];
        assert(x < entries.len() && is_cli_log(entries[x as int]));
        if !b.contains(x) {
            assert(b.len() == LOG_SCAN_LIMIT);
            let y = b[n - 1];
            assert(goes_before(entries, b.last() as int, x as int));
            if n - 1 < b.len() - 1 {
                assert(goes_before(entries, b[n - 1] as int, b[b.len() - 1] as int));
            }
            assert(goes_before(entries, y as int, x as int));
            lemma_first_stays_ahead(entries, a, b, n - 1);
        } else {
            let at = b.index_of(x);
            if at < n - 1 {
                assert(a[at] == b[at]);
                assert(goes_before(entries, a[at] as int, a[n - 1] as int));
            } else if at > n - 1 {
                let y = b[n - 1];
                assert(goes_before(entries, b[n - 1] as int, b[at] as int));
                lemma_first_stays_ahead(entries, a, b, n - 1);
            }
        }
    }
}

/// The log that `b` has at the place `m` does not go before the one that `a` has
/// there, when the two agree before that place.
proof fn lemma_first_stays_ahead(entries: Seq<LogEntry>, a: Seq<usize>, b: Seq<usize>, m: int)
    requires
        newest_logs(entries, a),
        newest_logs(entries, b),
        0 <= m < a.len(),
        m < b.len(),
        forall|i: int| 0 <= i < m ==> a[i] == b[i],
    ensures
        !goes_before(entries, b[m] as int, a[m] as int),
{
    let y = b[m];
    assert(y < entries.len() && is_cli_log(entries[y as int]));
    if !a.contains(y) {
        assert(goes_before(entries, a.last() as int, y as int));
        if m < a.len() - 1 {
            assert(goes_before(entries, a[m] as int, a[a.len() - 1] as int));
        }
    } else {
        let at = a.index_of(y);
        if at < m {
            assert(b[at] == y);
            assert(goes_before(entries, b[at] as int, b[m] as int));
        } else if at > m {
            assert(goes_before(entries, a[m] as int, a[at] as int));
        }
    }
}

// ---------------------------------------------------------------------------
// Announcements as they are written
// ---------------------------------------------------------------------------

/// The place of the last occurrence, told by what stands there and behind it.
proof fn lemma_last_occurrence_is(s: Seq<char>, pattern: Seq<char>, k: int)
    requires
        0 <= k <= s.len() - pattern.len(),
        s.subrange(k, k + pattern.len()) == pattern,
        forall|e: int|
            k + pattern.len() < e <= s.len() ==> !pattern.is_suffix_of(#[trigger] s.take(e)),
    ensures
        text::last_occurrence(s, pattern) == Some(k),
    decreases s.len(),
{
    assert(s.take(s.len() as int) =~= s);
    if k + pattern.len() == s.len() {
        assert(pattern.is_suffix_of(s));
    } else {
        let shorter = s.drop_last();
        assert(!pattern.is_suffix_of(s));
        assert(shorter.subrange(k, k + pattern.len()) =~= pattern);
        assert forall|e: int| k + pattern.len() < e <= shorter.len() implies !pattern.is_suffix_of(
            #[trigger] shorter.take(e),
        ) by {
            assert(shorter.take(e) =~= s.take(e));
        }
        lemma_last_occurrence_is(shorter, pattern, k);
    }
}

/// The first occurrence stays the first when something is appended.
proof fn lemma_first_occurrence_stays(s: Seq<char>, more: Seq<char>, pattern: Seq<char>)
    requires
        text::first_occurrence(s, pattern) is Some,
    ensures
        text::first_occurrence(s, pattern)->0 >= 0,
        text::first_occurrence(s, pattern)->0 + pattern.len() <= s.len(),
        text::first_occurrence(s + more, pattern) == text::first_occurrence(s, pattern),
    decreases s.len(),
{
    if pattern.is_prefix_of(s) {
        assert(pattern.is_prefix_of(s + more));
    } else {
        lemma_first_occurrence_stays(s.drop_first(), more, pattern);
        assert((s + more).drop_first() =~= s.drop_first() + more);
        if pattern.is_prefix_of(s + more) {
            assert(pattern.is_prefix_of(s)) by {
                assert(s.subrange(0, pattern.len() as int) =~= (s + more).subrange(
                    0,
                    pattern.len() as int,
                ));
            }
        }
    }
}

/// The decimal digits at the start of a text, told by what stands behind them.
proof fn lemma_leading_digits_are(digits: Seq<char>, rest: Seq<char>)
    requires
        number::all_digits(digits, 10),
        rest.len() > 0 ==> !('0' <= rest[0] <= '9'),
    ensures
        number::leading_digits(digits + rest) == digits,
    decreases digits.len(),
{
    if digits.len() == 0 {
        assert(digits + rest =~= rest);
    } else {
        let others = digits.drop_first();
        assert(number::digit_of(digits[0]) < 10);
        assert forall|i: int| 0 <= i < others.len() implies number::digit_of(#[trigger] others[i])
            < 10 by {
            assert(others[i] == digits[i + 1]);
        }
        lemma_leading_digits_are(others, rest);
        assert((digits + rest).drop_first() =~= others + rest);
        assert(seq![digits[0]] + others =~= digits);
    }
}

proof fn lemma_digit_is_no_letter(c: char)
    requires
        number::digit_of(c) < 10,
    ensures
        c != ' ',
        c != 't',
{
}

/// A port that a server announces is found, whatever stands in front of the
/// announcement.
pub proof fn announced_port_is_found(prefix: Seq<char>, port: u16)
    requires
        port != 0,
    ensures
        announced_port(prefix + "at "@ + number::decimal(port as nat) + " for HTTP"@) == Some(
            port,
        ),
{
    reveal_strlit("at ");
    reveal_strlit(" for HTTP");
    reveal_strlit("for HTTP");
    let number = number::decimal(port as nat);
    let n = number.len() as int;
    let k = prefix.len() as int;
    let line = prefix + "at "@ + number + " for HTTP"@;
    number::digits_write_their_number(port as nat, 10);
    number::digits_read_back(port as nat, 10, u16::MAX as int);
    assert(line.last() == 'P');
    assert(text::trim_end(line) == line);
    assert("for HTTP"@.is_suffix_of(line)) by {
        assert(line.subrange(line.len() - 8, line.len() as int) =~= "for HTTP"@);
    }
    assert(line.subrange(k, k + 3) =~= "at "@);
    assert forall|i: int| k + 3 <= i < k + 3 + n implies number::digit_of(#[trigger] line[i]) < 10 by {
        assert(line[i] == number[i - k - 3]);
    }
    assert forall|i: int| k + 3 + n <= i < line.len() implies #[trigger] line[i] == (" for HTTP"@)[i
        - k - 3 - n] by {}
    assert forall|e: int| k + 3 < e <= line.len() implies !"at "@.is_suffix_of(
        #[trigger] line.take(e),
    ) by {
        if "at "@.is_suffix_of(line.take(e)) {
            let end = line.take(e);
            assert(end.subrange(e - 3, e) == "at "@);
            assert(end[e - 1] == end.subrange(e - 3, e)[2]);
            assert(end[e - 2] == end.subrange(e - 3, e)[1]);
            assert(line[e - 1] == ' ' && line[e - 2] == 't');
            if e - 1 < k + 3 + n {
                lemma_digit_is_no_letter(line[e - 1]);
            } else if e - 2 < k + 3 + n {
                lemma_digit_is_no_letter(line[e - 2]);
            } else {
                assert(line[e - 1] == (" for HTTP"@)[e - 1 - k - 3 - n]);
                assert(line[e - 2] == (" for HTTP"@)[e - 2 - k - 3 - n]);
            }
        }
    }
    lemma_last_occurrence_is(line, "at "@, k);
    lemma_leading_digits_are(number, " for HTTP"@);
    assert(line.skip(k + 3) =~= number + " for HTTP"@);
}

/// A process id that a server announces is found, unless it is announced earlier in the
/// line, whatever stands behind it that is no digit.
pub proof fn announced_pid_is_found(prefix: Seq<char>, pid: u32, suffix: Seq<char>)
    requires
        text::first_occurrence(prefix + "with pid "@, "with pid "@) == Some(prefix.len() as int),
        suffix.len() > 0 ==> !('0' <= suffix[0] <= '9'),
    ensures
        announced_pid(prefix + "with pid "@ + number::decimal(pid as nat) + suffix) == Some(pid),
{
    reveal_strlit("with pid ");
    let number = number::decimal(pid as nat);
    let start = prefix + "with pid "@;
    let line = start + number + suffix;
    number::digits_write_their_number(pid as nat, 10);
    number::digits_read_back(pid as nat, 10, u32::MAX as int);
    assert(line =~= start + (number + suffix));
    lemma_first_occurrence_stays(start, number + suffix, "with pid "@);
    lemma_leading_digits_are(number, suffix);
    assert(line.skip(start.len() as int) =~= number + suffix);
}

// ---------------------------------------------------------------------------
// What counts as an announcement, and as a log
// ---------------------------------------------------------------------------

/// A line announces a port only if it ends in `for HTTP`, white space behind it aside, and
/// `at ` stands somewhere in it. So the announcement of another protocol is none.
pub proof fn only_http_is_announced(line: Seq<char>, prefix: Seq<char>, port: nat)
    ensures
        announced_port(line) is Some ==> ({
            let kept = text::trim_end(line);
            &&& kept.len() >= 8
            &&& kept.skip(kept.len() - 8) == seq!['f', 'o', 'r', ' ', 'H', 'T', 'T', 'P']
            &&& exists|k: int| text::occurs_at(kept, "at "@, k)
        }),
        announced_port(prefix + "at "@ + number::decimal(port) + " for HTTPS (gRPC)"@) is None,
{
    reveal_strlit("for HTTP");
    reveal_strlit("at ");
    assert("for HTTP"@ =~= seq!['f', 'o', 'r', ' ', 'H', 'T', 'T', 'P']);
    let kept = text::trim_end(line);
    text::last_occurrence_is_the_last(kept, "at "@);
    if announced_port(line) is Some {
        let k = text::last_occurrence(kept, "at "@)->0;
        assert(text::occurs_at(kept, "at "@, k));
        assert(kept.skip(kept.len() - 8) =~= kept.subrange(kept.len() - 8, kept.len() as int));
    }
    reveal_strlit(" for HTTPS (gRPC)");
    let other = prefix + "at "@ + number::decimal(port) + " for HTTPS (gRPC)"@;
    assert(other.last() == ')');
    assert(text::trim_end(other) == other);
    if "for HTTP"@.is_suffix_of(other) {
        assert("for HTTP"@ =~= other.subrange(other.len() - 8, other.len() as int));
        assert(("for HTTP"@)[7] == other[other.len() - 1]);
    }
}

/// The number that plain digits write.
proof fn lemma_plain_number(digits: Seq<char>, max: int)
    requires
        number::plain_digits(digits),
    ensures
        number::number_value(digits, 10) >= 0,
        number::unsigned_number(digits, 10, max) == (if digits.len() > 0 && number::number_value(
            digits,
            10,
        ) <= max {
            Some(number::number_value(digits, 10))
        } else {
            None
        }),
{
    if digits.len() > 0 {
        assert forall|i: int| 0 <= i < digits.len() implies number::digit_of(#[trigger] digits[i])
            < 10 by {
            number::digits_are_these(digits[i]);
        }
        number::digits_write_an_unsigned_number(digits, 10, max);
        number::digits_write_an_unsigned_number(digits, 10, number::number_value(digits, 10));
        number::lemma_unsigned_natural(digits, 10, number::number_value(digits, 10));
    } else {
        if number::unsigned_number(digits, 10, max) is Some {
            number::only_digits_write_an_unsigned_number(digits, 10, max);
        }
        number::digits_count_by_their_place(digits, digits, 10);
        assert(digits =~= seq![]);
    }
}

/// The only place where nothing stands behind it is that of the last occurrence.
proof fn lemma_last_place(s: Seq<char>, pattern: Seq<char>, p: int)
    requires
        0 <= p <= s.len() - pattern.len(),
        s.subrange(p, p + pattern.len()) =~= pattern,
        forall|j: int| j > p ==> !#[trigger] text::occurs_at(s, pattern, j),
    ensures
        text::last_occurrence(s, pattern) == Some(p),
{
    assert(text::occurs_at(s, pattern, p));
    text::last_occurrence_is_the_last(s, pattern);
}

/// The only place where nothing stands before it is that of the first occurrence.
proof fn lemma_first_place(s: Seq<char>, pattern: Seq<char>, p: int)
    requires
        0 <= p <= s.len() - pattern.len(),
        s.subrange(p, p + pattern.len()) =~= pattern,
        forall|j: int| j < p ==> !#[trigger] text::occurs_at(s, pattern, j),
    ensures
        text::first_occurrence(s, pattern) == Some(p),
{
    assert(text::occurs_at(s, pattern, p));
    text::first_occurrence_is_the_first(s, pattern);
}

/// A text that ends in something else than white space loses only what follows it.
proof fn lemma_trim_end_of(kept: Seq<char>, after: Seq<char>)
    requires
        kept.len() > 0,
        !text::white_space(kept.last()),
        text::blank(after),
    ensures
        text::trim_end(kept + after) == kept,
{
    let (lead, core) = text::text_begins_with_white_space(kept);
    assert(core.len() > 0) by {
        if core.len() == 0 {
            assert(lead.last() == kept.last());
            assert(text::white_space(lead[lead.len() - 1]));
        }
    }
    assert(core.last() == kept.last());
    assert(kept + after =~= lead + core + after);
    text::trimming_removes_the_white_space_around(lead, core, after);
}

/// The port that a line announces is the number behind its last `at `, if it is from 1 to
/// 65535.
#[verifier::rlimit(40)]
pub proof fn port_stands_behind_the_last_at(
    prefix: Seq<char>,
    digits: Seq<char>,
    rest: Seq<char>,
    after: Seq<char>,
)
    requires
        number::plain_digits(digits),
        rest.len() >= 8,
        !(48 <= rest[0] as int <= 57),
        rest.skip(rest.len() - 8) == seq!['f', 'o', 'r', ' ', 'H', 'T', 'T', 'P'],
        forall|j: int|
            j > prefix.len() ==> !#[trigger] text::occurs_at(
                prefix + "at "@ + digits + rest,
                "at "@,
                j,
            ),
        text::blank(after),
    ensures
        ({
            let value = number::number_value(digits, 10);
            announced_port(prefix + "at "@ + digits + rest + after) == (if digits.len()
                > 0 && 0 < value <= 65535 {
                Some(value as u16)
            } else {
                None
            })
        }),
{
    reveal_strlit("for HTTP");
    reveal_strlit("at ");
    let at = "at "@;
    assert("for HTTP"@ =~= seq!['f', 'o', 'r', ' ', 'H', 'T', 'T', 'P']);
    let kept = prefix + at + digits + rest;
    assert(rest.skip(rest.len() - 8)[7] == rest.last());
    assert(kept.last() == 'P');
    lemma_trim_end_of(kept, after);
    assert("for HTTP"@.is_suffix_of(kept)) by {
        assert(kept.subrange(kept.len() - 8, kept.len() as int) =~= rest.skip(rest.len() - 8));
    }
    let p = prefix.len() as int;
    lemma_last_place(kept, at, p);
    assert(kept.skip(p + 3) =~= digits + rest);
    number::leading_digits_end_before_anything_else(digits, rest);
    lemma_plain_number(digits, 65535);
}

/// The process that a line announces is the number behind its first `with pid `, if it is
/// in the range of `u32`.
#[verifier::rlimit(40)]
pub proof fn pid_stands_behind_the_first_mark(
    prefix: Seq<char>,
    digits: Seq<char>,
    rest: Seq<char>,
)
    requires
        number::plain_digits(digits),
        rest.len() > 0 ==> !(48 <= rest[0] as int <= 57),
        forall|j: int|
            j < prefix.len() ==> !#[trigger] text::occurs_at(
                prefix + "with pid "@ + digits + rest,
                "with pid "@,
                j,
            ),
    ensures
        ({
            let value = number::number_value(digits, 10);
            announced_pid(prefix + "with pid "@ + digits + rest) == (if digits.len() > 0 && value
                <= 0xffff_ffff {
                Some(value as u32)
            } else {
                None
            })
        }),
{
    reveal_strlit("with pid ");
    let mark = "with pid "@;
    let line = prefix + mark + digits + rest;
    let p = prefix.len() as int;
    lemma_first_place(line, mark, p);
    assert(line.skip(p + mark.len()) =~= digits + rest);
    number::leading_digits_end_before_anything_else(digits, rest);
    lemma_plain_number(digits, 0xffff_ffff);
}

/// A line without the mark announces no process.
pub proof fn no_process_without_the_mark(line: Seq<char>)
    requires
        forall|j: int| !#[trigger] text::occurs_at(line, "with pid "@, j),
    ensures
        announced_pid(line) is None,
{
    text::first_occurrence_is_the_first(line, "with pid "@);
}

/// The active process is the one announced last, and there is none before the first
/// announcement.
pub proof fn active_process_is_the_one_announced_last(log: Seq<Seq<char>>, line: Seq<char>)
    ensures
        active_pid(seq![]) is None,
        active_pid(log.push(line)) == (match announced_pid(line) {
            Some(pid) => Some(pid),
            None => active_pid(log),
        }),
{
    assert(log.push(line).drop_last() =~= log);
}

/// A line changes the port of a process only when the process is active and the line
/// announces one; then that is its port.
pub proof fn port_of_a_process_is_its_last(log: Seq<Seq<char>>, line: Seq<char>, pid: u32)
    ensures
        last_port_of_pid(seq![], pid) is None,
        last_port(seq![]) is None,
        last_port_of_pid(log.push(line), pid) == (if active_pid(log.push(line)) == Some(pid)
            && announced_port(line) is Some {
            announced_port(line)
        } else {
            last_port_of_pid(log, pid)
        }),
        last_port(log.push(line)) == (if announced_port(line) is Some {
            announced_port(line)
        } else {
            last_port(log)
        }),
{
    assert(log.push(line).drop_last() =~= log);
}

/// A log is read up to 524288 bytes, and has a text if those are UTF-8.
pub proof fn log_is_read_up_to_its_limit(bytes: Seq<u8>, more: Seq<u8>)
    requires
        bytes.len() <= 524288,
        more.len() > 0 ==> bytes.len() == 524288,
    ensures
        valid_utf8(bytes) ==> log_text(bytes + more) == Some(decode_utf8(bytes)),
        !valid_utf8(bytes) ==> log_text(bytes + more) is None,
{
    assert(capped(bytes + more) =~= bytes);
}

/// A file is a log if its name is `cli-`, any text, and `.log`, and only then.
pub proof fn logs_are_named_so(entry: LogEntry)
    ensures
        is_cli_log(entry) <==> (entry.name is Some && exists|x: Seq<char>|
            entry.name->0@ == #[trigger] log_name(x)),
{
    reveal_strlit("cli-");
    reveal_strlit(".log");
    if let Some(name) = entry.name {
        let n = name@.len() as int;
        if is_cli_log(entry) {
            assert("cli-"@ =~= name@.subrange(0, 4));
            assert(".log"@ =~= name@.subrange(n - 4, n));
            assert(name@[3] == ("cli-"@)[3]);
            assert(n >= 8) by {
                if n < 8 {
                    assert(name@[3] == (".log"@)[3 - (n - 4)]);
                }
            }
            let x = name@.subrange(4, n - 4);
            assert(name@ =~= log_name(x)) by {
                assert forall|i: int| 0 <= i < n implies name@[i] == log_name(x)[i] by {
                    if i < 4 {
                        assert(name@[i] == ("cli-"@)[i]);
                    } else if i >= n - 4 {
                        assert(name@[i] == (".log"@)[i - (n - 4)]);
                    }
                }
            }
        }
        if exists|x: Seq<char>| name@ == #[trigger] log_name(x) {
            let x = choose|x: Seq<char>| name@ == #[trigger] log_name(x);
            assert(name@.subrange(0, 4) =~= "cli-"@);
            assert(name@.subrange(n - 4, n) =~= ".log"@);
        }
    }
}

/// The name of a log with the text `x` in it.
pub open spec fn log_name(x: Seq<char>) -> Seq<char> {
    seq!['c', 'l', 'i', '-'] + x + seq!['.', 'l', 'o', 'g']
}

/// The files chosen are logs, at most 20, each changed later than the next one or at the
/// same time and listed before it; and a log is left out only when 20 such go before it. A
/// file whose time is not known counts as changed at the time zero.
pub proof fn newest_logs_are_chosen(entries: Seq<LogEntry>, chosen: Seq<usize>)
    requires
        newest_logs(entries, chosen),
    ensures
        chosen.len() <= 20,
        forall|i: int|
            0 <= i < chosen.len() ==> (#[trigger] chosen[i]) < entries.len() && named_log(
                entries[chosen[i] as int],
            ),
        forall|i: int, j: int|
            0 <= i < j < chosen.len() ==> changed_first(
                entries,
                (#[trigger] chosen[i]) as int,
                (#[trigger] chosen[j]) as int,
            ),
        forall|k: usize|
            k < entries.len() && named_log(entries[k as int]) && !(#[trigger] chosen.contains(k))
                ==> chosen.len() == 20,
        forall|k: usize, i: int|
            k < entries.len() && named_log(entries[k as int]) && !(#[trigger] chosen.contains(k))
                && 0 <= i < 20 ==> changed_first(
                entries,
                (#[trigger] chosen[i]) as int,
                k as int,
            ),
{
    assert forall|i: int| 0 <= i < chosen.len() implies (#[trigger] chosen[i]) < entries.len()
        && named_log(entries[chosen[i] as int]) by {
        logs_are_named_so(entries[chosen[i] as int]);
    }
    assert forall|i: int, j: int| 0 <= i < j < chosen.len() implies changed_first(
        entries,
        (#[trigger] chosen[i]) as int,
        (#[trigger] chosen[j]) as int,
    ) by {
        assert(goes_before(entries, chosen[i] as int, chosen[j] as int));
    }
    assert forall|k: usize|
        k < entries.len() && named_log(entries[k as int]) && !(#[trigger] chosen.contains(
            k,
        )) implies chosen.len() == 20 by {
        logs_are_named_so(entries[k as int]);
    }
    assert forall|k: usize, i: int|
        k < entries.len() && named_log(entries[k as int]) && !(#[trigger] chosen.contains(k)) && 0
            <= i < 20 implies changed_first(
        entries,
        (#[trigger] chosen[i]) as int,
        k as int,
    ) by {
        logs_are_named_so(entries[k as int]);
        let last = chosen[chosen.len() - 1];
        assert(goes_before(entries, last as int, k as int));
        if i < chosen.len() - 1 {
            assert(goes_before(entries, chosen[i] as int, last as int));
        }
    }
}

/// Whether a file has the name of a log.
pub open spec fn named_log(entry: LogEntry) -> bool {
    entry.name is Some && exists|x: Seq<char>| entry.name->0@ == #[trigger] log_name(x)
}

/// Whether the file at `a` was changed after the one at `b`, or at the same time and is
/// listed first.
pub open spec fn changed_first(entries: Seq<LogEntry>, a: int, b: int) -> bool {
    let ta = if entries[a].modified is Some {
        entries[a].modified->0 as int
    } else {
        0
    };
    let tb = if entries[b].modified is Some {
        entries[b].modified->0 as int
    } else {
        0
    };
    ta > tb || (ta == tb && a < b)
}

} // verus!
