use antigravity_cli::fetch::{
    fetch_usage, missing_usage_hint, run_antigravity_cli_usage, wait_for_usage, FetchStep,
    UsageOutput, WaitFailure, WaitStep,
};
use antigravity_cli::paths::{
    antigravity_cli_dir, antigravity_cli_log_dir, get_antigravity_cli_dir, get_log_dir, PathError,
};
use antigravity_cli::process::{
    agy_is_installed, cleanup_target, drain_step, terminate_agy_group, DrainStep, ReadFailure,
    StopStep, ToolFile,
};
use antigravity_cli::text::is_white_space;
use std::path::PathBuf;

#[test]
fn directories_lie_below_the_home() {
    let home = PathBuf::from("home").join("user");
    assert_eq!(
        antigravity_cli_dir(Some(home.clone())).unwrap(),
        home.join(".gemini").join("antigravity-cli")
    );
    assert_eq!(
        antigravity_cli_log_dir(Some(home.clone())).unwrap(),
        home.join(".gemini").join("antigravity-cli").join("log")
    );
    assert_eq!(antigravity_cli_dir(None), Err(PathError::NoHomeDirectory));
    assert_eq!(antigravity_cli_log_dir(None), Err(PathError::NoHomeDirectory));
    assert_eq!(
        PathError::NoHomeDirectory.message(),
        "Could not determine home directory"
    );
}

#[test]
fn directories_of_the_current_user() {
    match dirs::home_dir() {
        Some(home) => {
            let dir = home.join(".gemini").join("antigravity-cli");
            assert_eq!(get_antigravity_cli_dir().unwrap(), dir);
            assert_eq!(get_log_dir().unwrap(), dir.join("log"));
        }
        None => {
            assert_eq!(get_antigravity_cli_dir(), Err(PathError::NoHomeDirectory));
            assert_eq!(get_log_dir(), Err(PathError::NoHomeDirectory));
        }
    }
}

#[test]
fn running_servers_are_asked_in_order() {
    let ports = vec![4000u16, 5000];
    assert_eq!(fetch_usage(&ports, &vec![]), FetchStep::Query(4000));
    assert_eq!(fetch_usage(&ports, &vec![true]), FetchStep::Answered(0));
    assert_eq!(fetch_usage(&ports, &vec![false]), FetchStep::Query(5000));
    assert_eq!(fetch_usage(&ports, &vec![false, true]), FetchStep::Answered(1));
    assert_eq!(fetch_usage(&ports, &vec![false, false]), FetchStep::StartServer);
    assert_eq!(fetch_usage(&vec![], &vec![]), FetchStep::StartServer);
}

type Step = WaitStep<u8, &'static str>;

fn wait(
    last: Option<&'static str>,
    attempt: Option<Result<u8, &'static str>>,
    exited: bool,
    expired: bool,
) -> Step {
    wait_for_usage(last, attempt, exited, expired)
}

#[test]
fn waiting_for_a_started_server() {
    assert!(matches!(wait(Some("old"), Some(Ok(1)), true, true), WaitStep::Found(1)));
    assert!(matches!(wait(None, None, false, false), WaitStep::Again(None)));
    assert!(matches!(wait(Some("old"), None, false, false), WaitStep::Again(Some("old"))));
    assert!(matches!(
        wait(Some("old"), Some(Err("new")), false, false),
        WaitStep::Again(Some("new"))
    ));
    assert!(matches!(
        wait(None, Some(Err("new")), true, true),
        WaitStep::Failed(WaitFailure::ExitedUnusable, Some("new"))
    ));
    assert!(matches!(
        wait(None, None, true, false),
        WaitStep::Failed(WaitFailure::ExitedUnreachable, None)
    ));
    assert!(matches!(
        wait(Some("old"), None, false, true),
        WaitStep::Failed(WaitFailure::NeverUsable, Some("old"))
    ));
    assert!(matches!(wait(None, None, false, true), WaitStep::NotFound));
}

#[test]
fn waiting_tells_what_went_wrong() {
    assert_eq!(
        WaitFailure::ExitedUnusable.message(),
        "agy exited before returning a usable response"
    );
    assert_eq!(
        WaitFailure::ExitedUnreachable.message(),
        "agy exited before its server was reachable"
    );
    assert_eq!(
        WaitFailure::NeverUsable.message(),
        "agy server started but never returned a usable response"
    );
}

#[test]
fn the_command_prints_one_of_four() {
    assert_eq!(run_antigravity_cli_usage(false, true), UsageOutput::Null);
    assert_eq!(run_antigravity_cli_usage(false, false), UsageOutput::Hint);
    assert_eq!(run_antigravity_cli_usage(true, true), UsageOutput::Document);
    assert_eq!(run_antigravity_cli_usage(true, false), UsageOutput::Report);
    assert_eq!(
        missing_usage_hint(),
        "Could not read Antigravity CLI usage.\n\
         Ensure the `agy` CLI is installed and signed in \
         (run `agy` once to sign in)."
    );
}

#[test]
fn the_tool_is_an_executable_file() {
    let file = |is_file: bool, mode: u32| Some(ToolFile { is_file, mode });
    assert!(!agy_is_installed(&vec![]));
    assert!(!agy_is_installed(&vec![None, file(false, 0o755), file(true, 0o644)]));
    assert!(agy_is_installed(&vec![None, file(true, 0o100)]));
    assert!(agy_is_installed(&vec![file(true, 0o010), None]));
    assert!(agy_is_installed(&vec![file(true, 0o100001)]));
}

#[test]
fn a_group_is_asked_before_it_is_killed() {
    assert_eq!(terminate_agy_group(0, false, false, false), StopStep::KillChild);
    assert_eq!(terminate_agy_group(77, false, true, true), StopStep::Terminate(-77));
    assert_eq!(terminate_agy_group(77, true, false, false), StopStep::Wait);
    assert_eq!(terminate_agy_group(77, true, true, false), StopStep::Kill(-77));
    assert_eq!(terminate_agy_group(77, true, false, true), StopStep::Kill(-77));
    for pid in [1u32, 0x7fff_ffff, 0x8000_0001, 0xffff_ffff] {
        assert_eq!(
            terminate_agy_group(pid, false, false, false),
            StopStep::Terminate(-(pid as i32))
        );
    }
}

#[test]
fn a_signal_kills_only_a_running_group() {
    assert_eq!(cleanup_target(77), Some(-77));
    assert_eq!(cleanup_target(0), None);
    assert_eq!(cleanup_target(-5), None);
}

#[test]
fn output_is_drained_until_it_ends() {
    assert_eq!(drain_step(Ok(5), true), DrainStep::Read);
    assert_eq!(drain_step(Ok(0), false), DrainStep::Stop);
    assert_eq!(drain_step(Err(ReadFailure::Interrupted), false), DrainStep::Read);
    assert_eq!(drain_step(Err(ReadFailure::WouldBlock), false), DrainStep::Wait);
    assert_eq!(drain_step(Err(ReadFailure::Other), false), DrainStep::Stop);
    assert_eq!(drain_step(Err(ReadFailure::Interrupted), true), DrainStep::Stop);
    assert_eq!(drain_step(Err(ReadFailure::WouldBlock), true), DrainStep::Stop);
}

#[test]
fn white_space_is_that_of_unicode() {
    for code in 0..=0x10ffffu32 {
        if let Some(c) = char::from_u32(code) {
            assert_eq!(is_white_space(c), c.is_whitespace());
        }
    }
}
