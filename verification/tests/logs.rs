use antigravity_cli::logs::{
    http_port_for_pid_in, http_port_in_line, parse_http_port, parse_http_port_from, pid_in_line,
    read_log_capped, recent_log_files, LogEntry, LOG_SCAN_LIMIT, MAX_LOG_BYTES,
};
use antigravity_cli::scan::{discover_cli_http_ports, http_port_for_pid, ScanStep};

fn entry(name: &str, modified: Option<i128>) -> LogEntry {
    LogEntry { name: Some(name.to_string()), modified }
}

#[test]
fn parse_http_port_picks_http_not_grpc() {
    let mut log = String::new();
    log.push_str("I0520 14:07:56.636760 server.go:485] Language server listening on random port at 38399 for HTTPS (gRPC)\n");
    log.push_str("I0520 14:07:56.636782 server.go:492] Language server listening on random port at 34163 for HTTP\n");

    assert_eq!(parse_http_port(log.into_bytes()), Some(34163));
}

#[test]
fn parse_http_port_absent_returns_none() {
    let log = "I0520 nothing relevant here\n".as_bytes().to_vec();
    assert_eq!(parse_http_port(log), None);
}

#[test]
fn parse_http_port_rejects_zero() {
    let log = "listening on random port at 0 for HTTP\n".as_bytes().to_vec();
    assert_eq!(parse_http_port(log), None);
}

#[test]
fn pid_in_line_reads_pid_marker() {
    let line =
        "I0520 14:07:56 server.go:1295] Starting language server process with pid 122021";
    assert_eq!(pid_in_line(line), Some(122021));
    assert_eq!(pid_in_line("nothing here"), None);
}

#[test]
fn http_port_for_pid_in_pairs_port_with_its_own_pid() {
    let log = "started with pid 100\n\
               listening on random port at 4000 for HTTP\n\
               restarted with pid 200\n\
               listening on random port at 5000 for HTTP\n";
    assert_eq!(http_port_for_pid_in(log, 100), Some(4000));
    assert_eq!(http_port_for_pid_in(log, 200), Some(5000));
    assert_eq!(http_port_for_pid_in(log, 999), None);
}

#[test]
fn port_lines_end_with_the_protocol() {
    assert_eq!(http_port_in_line("port at 80 for HTTP  \t"), Some(80));
    assert_eq!(http_port_in_line("port at 80 for HTTPS"), None);
    assert_eq!(http_port_in_line("port at 80 for HTTP."), None);
    assert_eq!(http_port_in_line("at 1 then at 2 for HTTP"), Some(2));
    assert_eq!(http_port_in_line("port at x80 for HTTP"), None);
    assert_eq!(http_port_in_line("port at 65535 for HTTP"), Some(65535));
    assert_eq!(http_port_in_line("port at 65536 for HTTP"), None);
    assert_eq!(http_port_in_line("port at +80 for HTTP"), None);
    assert_eq!(http_port_in_line("port 80 for HTTP"), None);
    assert_eq!(http_port_in_line("grüße at 8080 for HTTP\u{a0}"), Some(8080));
}

#[test]
fn the_first_pid_marker_counts() {
    assert_eq!(pid_in_line("with pid 1 with pid 2"), Some(1));
    assert_eq!(pid_in_line("with pid x with pid 2"), None);
    assert_eq!(pid_in_line("with pid 4294967295"), Some(4294967295));
    assert_eq!(pid_in_line("with pid 4294967296"), None);
    assert_eq!(pid_in_line("with pid "), None);
}

#[test]
fn the_last_port_of_a_log_wins() {
    let log = "at 1 for HTTP\r\nat 2 for HTTP\nnoise\nat 0 for HTTP";
    assert_eq!(parse_http_port_from(log), Some(2));
    assert_eq!(parse_http_port_from(""), None);
}

#[test]
fn a_line_may_name_the_process_and_the_port() {
    let log = "with pid 5 at 10 for HTTP\nwith pid 6\nat 11 for HTTP\nwith pid 5\nat 12 for HTTP\n";
    assert_eq!(http_port_for_pid_in(log, 5), Some(12));
    assert_eq!(http_port_for_pid_in(log, 6), Some(11));
    assert_eq!(http_port_for_pid_in("at 9 for HTTP\nwith pid 5\n", 5), None);
}

#[test]
fn logs_are_capped() {
    let mut log = vec![b'x'; MAX_LOG_BYTES - 14];
    log.extend_from_slice(b"\nat 7 for HTTP");
    assert_eq!(log.len(), MAX_LOG_BYTES);
    log.extend_from_slice(b"\nat 8 for HTTP");
    assert_eq!(read_log_capped(log.clone()).unwrap().len(), MAX_LOG_BYTES);
    assert_eq!(parse_http_port(log), Some(7));
    assert_eq!(read_log_capped(b"\xff".to_vec()), None);
    assert_eq!(read_log_capped("grüße".as_bytes().to_vec()), Some("grüße".to_string()));
    let mut cut = vec![b'x'; MAX_LOG_BYTES - 1];
    cut.extend_from_slice("ü".as_bytes());
    assert_eq!(read_log_capped(cut), None);
}

#[test]
fn the_newest_logs_come_first() {
    let entries = vec![
        entry("cli-a.log", Some(5)),
        entry("other.log", Some(100)),
        entry("cli-b.log", Some(9)),
        entry("cli-c.txt", Some(100)),
        LogEntry { name: None, modified: Some(100) },
        entry("cli-d.log", None),
        entry("cli-e.log", Some(9)),
        entry("cli-f.log", Some(-1)),
    ];
    assert_eq!(recent_log_files(&entries), vec![2, 6, 0, 5, 7]);
    assert_eq!(recent_log_files(&vec![]), Vec::<usize>::new());
}

#[test]
fn only_so_many_logs_are_scanned() {
    let entries: Vec<LogEntry> = (0..LOG_SCAN_LIMIT + 5)
        .map(|i| entry("cli-x.log", Some(i as i128)))
        .collect();
    let wanted: Vec<usize> = (5..LOG_SCAN_LIMIT + 5).rev().collect();
    assert_eq!(recent_log_files(&entries), wanted);
}

#[test]
fn names_may_overlap_at_the_dot() {
    assert_eq!(recent_log_files(&vec![entry("cli-.log", None)]), vec![0]);
    assert_eq!(recent_log_files(&vec![entry("cli.log", None)]), Vec::<usize>::new());
}

fn discover(logs: &[Option<u16>], up: &[u16]) -> (Vec<u16>, Vec<u16>) {
    let mut announced = Vec::new();
    let mut answers = Vec::new();
    let mut probed = Vec::new();
    loop {
        match discover_cli_http_ports(logs.len(), &announced, &answers) {
            ScanStep::ReadLog(i) => announced.push(logs[i]),
            ScanStep::Probe(port) => {
                probed.push(port);
                answers.push(up.contains(&port));
            }
            ScanStep::Done(ports) => return (ports, probed),
        }
    }
}

#[test]
fn every_reachable_port_is_discovered_once() {
    let logs = [Some(4000), None, Some(5000), Some(4000), Some(5000), Some(6000)];
    let (ports, probed) = discover(&logs, &[4000, 6000]);
    assert_eq!(ports, vec![4000, 6000]);
    assert_eq!(probed, vec![4000, 5000, 5000, 6000]);
    assert_eq!(discover(&[], &[]).0, Vec::<u16>::new());
}

#[test]
fn the_first_port_of_a_process_that_answers_is_taken() {
    let logs = [None, Some(4000), Some(5000), Some(6000)];
    let up = [5000u16, 6000];
    let mut announced = Vec::new();
    let mut answers = Vec::new();
    let mut steps = 0;
    let found = loop {
        steps += 1;
        match http_port_for_pid(logs.len(), &announced, &answers) {
            ScanStep::ReadLog(i) => announced.push(logs[i]),
            ScanStep::Probe(port) => answers.push(up.contains(&port)),
            ScanStep::Done(port) => break port,
        }
    };
    assert_eq!(found, Some(5000));
    assert_eq!(steps, 6);
    assert!(matches!(http_port_for_pid(0, &vec![], &vec![]), ScanStep::Done(None)));
}

fn port_of_process(logs: &[Option<u16>], up: &[u16]) -> Option<u16> {
    let mut announced = Vec::new();
    let mut answers = Vec::new();
    loop {
        match http_port_for_pid(logs.len(), &announced, &answers) {
            ScanStep::ReadLog(i) => announced.push(logs[i]),
            ScanStep::Probe(port) => answers.push(up.contains(&port)),
            ScanStep::Done(port) => return port,
        }
    }
}

#[test]
fn searches_find_what_is_announced_and_up() {
    let logs = [Some(3), None, Some(1), Some(2), Some(3), Some(2), Some(1)];
    for set in 0..8u16 {
        let up: Vec<u16> = (1..=3).filter(|port| set & (1 << (port - 1)) != 0).collect();
        let wanted: Vec<u16> = [3, 1, 2].into_iter().filter(|port| up.contains(port)).collect();
        assert_eq!(discover(&logs, &up).0, wanted);
        assert_eq!(port_of_process(&logs, &up), wanted.first().copied());
    }
}
