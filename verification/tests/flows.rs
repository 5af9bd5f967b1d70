use dupt::libdupt::commands::install::{build_lines_ok, Install, InstallAction, InstallEnd};
use dupt::libdupt::commands::pkginfo::{PkgInfo, PkgInfoAction};
use dupt::libdupt::commands::remove::{RemovalStep, Remove, RemoveAction, RemoveEnd};
use dupt::libdupt::commands::run::{Run, RunAction};
use dupt::libdupt::commands::{next_step, StepNext};
use dupt::libdupt::tools::{config_update, prepare_root_commands};
use dupt::libdupt::tools::paths;
use dupt::libdupt::commands::search::scan_ok;
use dupt::libdupt::tools::packages::{deps_scan_ok, files_scan_ok};
use dupt::libdupt::tools::{container_failure, listing_scan_ok};
use dupt::package::{Package, ProgramAction, PurgeAction, SetupAction};
use dupt::pkg_scan_ok;
use dupt::text::{head4_range, to_chars, trim_string, utf8_len};

fn install_of(names: &[&str], confirm: bool) -> Install {
    Install { names: names.iter().map(|s| s.to_string()).collect(), confirm }
}

fn remove_of(names: &[&str], confirm: bool) -> Remove {
    Remove { names: names.iter().map(|s| s.to_string()).collect(), confirm }
}

fn describe(a: &InstallAction) -> String {
    match a {
        InstallAction::Prepare => "prepare".to_string(),
        InstallAction::CheckInstalled(i) => format!("check {}", i),
        InstallAction::AnnounceSearch => "announce search".to_string(),
        InstallAction::Search(i) => format!("search {}", i),
        InstallAction::AnnounceFound => "announce found".to_string(),
        InstallAction::Confirm => "confirm".to_string(),
        InstallAction::Build(i) => format!("build {}", i),
        InstallAction::AnnounceCleaning => "announce cleaning".to_string(),
        InstallAction::Clean(i) => format!("clean {}", i),
        InstallAction::Stop(InstallEnd::AlreadyInstalled) => "stop installed".to_string(),
        InstallAction::Stop(InstallEnd::Aborted) => "stop aborted".to_string(),
        InstallAction::Stop(InstallEnd::Finished) => "stop finished".to_string(),
        InstallAction::Fail(e) => format!("fail {}", e),
    }
}

/// Runs an install, answering each step with `answer`, and lists the steps.
fn install_run(cmd: &Install, answer: impl Fn(&InstallAction) -> Result<bool, String>) -> Vec<String> {
    let mut seen = Vec::new();
    let mut action = cmd.first_action();
    for _ in 0..100 {
        seen.push(describe(&action));
        if matches!(action, InstallAction::Stop(_) | InstallAction::Fail(_)) {
            return seen;
        }
        let outcome = answer(&action);
        action = cmd.next_action(action, outcome);
    }
    panic!("the run did not end");
}

fn ok_but_installed_false(a: &InstallAction) -> Result<bool, String> {
    match a {
        InstallAction::CheckInstalled(_) => Ok(false),
        _ => Ok(true),
    }
}

#[test]
fn install_without_confirmation_goes_through_every_package() {
    let steps = install_run(&install_of(&["a", "b"], false), ok_but_installed_false);
    assert_eq!(
        steps,
        vec![
            "prepare", "check 0", "check 1", "announce search", "search 0", "search 1",
            "announce found", "build 0", "build 1", "announce cleaning", "clean 0", "clean 1",
            "stop finished",
        ]
    );
}

#[test]
fn install_asks_before_building() {
    let steps = install_run(&install_of(&["a"], true), ok_but_installed_false);
    assert_eq!(
        steps,
        vec![
            "prepare", "check 0", "announce search", "search 0", "announce found", "confirm",
            "build 0", "announce cleaning", "clean 0", "stop finished",
        ]
    );
    let steps = install_run(&install_of(&["a"], true), |a| match a {
        InstallAction::CheckInstalled(_) | InstallAction::Confirm => Ok(false),
        _ => Ok(true),
    });
    assert_eq!(steps.last().unwrap(), "stop aborted");
    assert!(!steps.iter().any(|s| s.starts_with("build")));
}

#[test]
fn install_stops_at_an_installed_package() {
    let steps = install_run(&install_of(&["a", "b"], true), |a| match a {
        InstallAction::CheckInstalled(1) => Ok(true),
        InstallAction::CheckInstalled(_) => Ok(false),
        _ => Ok(true),
    });
    assert_eq!(steps, vec!["prepare", "check 0", "check 1", "stop installed"]);
}

#[test]
fn install_fails_on_a_missing_package() {
    let steps = install_run(&install_of(&["a", "b"], false), |a| match a {
        InstallAction::CheckInstalled(_) => Err("cannot read".to_string()),
        InstallAction::Search(1) => Err("Package not found".to_string()),
        _ => Ok(true),
    });
    assert_eq!(
        steps,
        vec![
            "prepare", "check 0", "check 1", "announce search", "search 0", "search 1",
            "fail Package not found",
        ]
    );
}

#[test]
fn install_fails_when_preparing_fails() {
    let steps = install_run(&install_of(&["a"], false), |_| Err("no distrobox".to_string()));
    assert_eq!(steps, vec!["prepare", "fail no distrobox"]);
}

fn describe_removal(a: &RemoveAction) -> String {
    match a {
        RemoveAction::Prepare => "prepare".to_string(),
        RemoveAction::Verify(i) => format!("verify {}", i),
        RemoveAction::Confirm => "confirm".to_string(),
        RemoveAction::Remove(i) => format!("remove {}", i),
        RemoveAction::Stop(RemoveEnd::Aborted) => "stop aborted".to_string(),
        RemoveAction::Stop(RemoveEnd::Finished) => "stop finished".to_string(),
        RemoveAction::Fail(e) => format!("fail {}", e),
    }
}

fn remove_run(cmd: &Remove, answer: impl Fn(&RemoveAction) -> Result<bool, String>) -> Vec<String> {
    let mut seen = Vec::new();
    let mut action = cmd.first_action();
    for _ in 0..100 {
        seen.push(describe_removal(&action));
        if matches!(action, RemoveAction::Stop(_) | RemoveAction::Fail(_)) {
            return seen;
        }
        let outcome = answer(&action);
        action = cmd.next_action(action, outcome);
    }
    panic!("the run did not end");
}

#[test]
fn remove_verifies_asks_then_removes() {
    let steps = remove_run(&remove_of(&["a", "b"], true), |_| Ok(true));
    assert_eq!(
        steps,
        vec!["prepare", "verify 0", "verify 1", "confirm", "remove 0", "remove 1", "stop finished"]
    );
    let steps = remove_run(&remove_of(&["a"], false), |_| Ok(true));
    assert_eq!(steps, vec!["prepare", "verify 0", "remove 0", "stop finished"]);
}

#[test]
fn remove_stops_on_no_and_on_errors() {
    let steps = remove_run(&remove_of(&["a"], true), |a| match a {
        RemoveAction::Confirm => Ok(false),
        _ => Ok(true),
    });
    assert_eq!(steps, vec!["prepare", "verify 0", "confirm", "stop aborted"]);
    let steps = remove_run(&remove_of(&["a", "b"], true), |a| match a {
        RemoveAction::Verify(1) => Err("Package not found".to_string()),
        _ => Ok(true),
    });
    assert_eq!(steps, vec!["prepare", "verify 0", "verify 1", "fail Package not found"]);
}

#[test]
fn readability_of_lists() {
    assert!(listing_scan_ok("nano\nfirefox\n", "firefox"));
    assert!(!listing_scan_ok("vim\nfirefox\n", "firefox"));
    assert!(listing_scan_ok("firefox\nvim\n", "firefox"));
    let files = vec!["firefox\n".to_string(), "vim\n".to_string()];
    assert!(files_scan_ok(&files, "firefox"));
    assert!(!files_scan_ok(&files, "emacs"));
}

#[test]
fn readability_of_installed_files() {
    assert!(deps_scan_ok("dependencies: [\n    a\n]\nx\n", "dependencies"));
    assert!(!deps_scan_ok("dependencies: [\n    a\nnone here\n", "dependencies"));
    assert!(!deps_scan_ok("ab\n", "dependencies"));
    assert!(deps_scan_ok("]\n", "dependencies"));
}

#[test]
fn readability_of_repository_lists() {
    assert!(scan_ok("gvim\n    version: 9\n", "vim"));
    assert!(!scan_ok("gvim\n    version 9\n", "vim"));
    assert!(scan_ok("emacs\n    version 29\n", "vim"));
    assert!(!scan_ok("vi\n", "vim"));
    assert!(scan_ok("\n  \n", "vim"));
}

#[test]
fn readability_of_package_files() {
    assert!(pkg_scan_ok("vim", "editors", "name: vim\ninstall: [\n    anything\n]\n"));
    assert!(!pkg_scan_ok("vim", "editors", "name:\n"));
    assert!(!pkg_scan_ok("vim", "editors", "no colon\n"));
    assert!(pkg_scan_ok("vim", "editors", "install:\n"));
    assert!(!pkg_scan_ok("vim", "editors", "name:é\n"));
}

#[test]
fn readability_of_pkginfo() {
    assert!(build_lines_ok("name: vim\n    gcc\n]\n\n"));
    assert!(!build_lines_ok("abc\n"));
    assert!(!build_lines_ok("abcdef\n"));
}

#[test]
fn byte_boundaries() {
    let s = to_chars("aé b");
    assert!(head4_range(&s, 0, s.len()));
    let s = to_chars("éé");
    assert!(head4_range(&s, 0, s.len()));
    let s = to_chars("aéé");
    assert!(!head4_range(&s, 0, s.len()));
    assert_eq!(utf8_len('a'), 1);
    assert_eq!(utf8_len('é'), 2);
    assert_eq!(utf8_len('€'), 3);
    assert_eq!(utf8_len('😀'), 4);
}

#[test]
fn messages() {
    assert_eq!(Package::failure("make"), "make failed");
    assert_eq!(container_failure("boom"), "container command failed with error message: boom");
    assert_eq!(trim_string("  a b \n"), "a b");
}

fn package_with(install: &[&str], run: &[&str], runnable: bool) -> Package {
    Package {
        name: "vim".to_string(),
        zip: "editors".to_string(),
        description: String::new(),
        install: install.iter().map(|s| s.to_string()).collect(),
        runnable,
        run: run.iter().map(|s| s.to_string()).collect(),
    }
}

fn setup_steps(p: &Package, answer: impl Fn(&SetupAction) -> Result<bool, String>) -> Vec<String> {
    let mut seen = Vec::new();
    let mut action = p.first_setup_action();
    for _ in 0..100 {
        let text = match &action {
            SetupAction::Prepare => "prepare".to_string(),
            SetupAction::Confirm => "confirm".to_string(),
            SetupAction::Exec(i) => format!("exec {}", i),
            SetupAction::Record => "record".to_string(),
            SetupAction::Stop(done) => format!("stop {}", done),
            SetupAction::CommandFailed(i) => format!("command failed {}", i),
            SetupAction::Fail(e) => format!("fail {}", e),
        };
        seen.push(text);
        if matches!(action, SetupAction::Stop(_) | SetupAction::CommandFailed(_) | SetupAction::Fail(_)) {
            return seen;
        }
        let outcome = answer(&action);
        action = p.next_setup_action(action, outcome);
    }
    panic!("the run did not end");
}

#[test]
fn first_generation_install_runs_every_command_then_records() {
    let p = package_with(&["make", "make install"], &[], false);
    assert_eq!(
        setup_steps(&p, |_| Ok(true)),
        vec!["prepare", "confirm", "exec 0", "exec 1", "record", "stop true"]
    );
    assert_eq!(
        setup_steps(&p, |a| if matches!(a, SetupAction::Exec(1)) { Ok(false) } else { Ok(true) }),
        vec!["prepare", "confirm", "exec 0", "exec 1", "command failed 1"]
    );
    assert_eq!(
        setup_steps(&p, |a| if matches!(a, SetupAction::Confirm) { Ok(false) } else { Ok(true) }),
        vec!["prepare", "confirm", "stop false"]
    );
    assert_eq!(
        setup_steps(&p, |a| if matches!(a, SetupAction::Confirm) {
            Err("invalid value. aborting...".to_string())
        } else {
            Ok(true)
        }),
        vec!["prepare", "confirm", "fail invalid value. aborting..."]
    );
}

#[test]
fn first_generation_run_checks_runnable_first() {
    let p = package_with(&[], &["cd src", "./vim"], false);
    assert!(matches!(p.first_program_action(), ProgramAction::NotRunnable));
    let p = package_with(&[], &["cd src", "./vim"], true);
    let mut action = p.first_program_action();
    let mut seen = Vec::new();
    loop {
        match &action {
            ProgramAction::Stop => break,
            ProgramAction::Step(i) => seen.push(*i),
            ProgramAction::Prepare | ProgramAction::Restore => {},
            _ => panic!("unexpected end"),
        }
        action = p.next_program_action(action, Ok(true));
    }
    assert_eq!(seen, vec![0, 1]);
    let failed = p.next_program_action(ProgramAction::Step(1), Ok(false));
    assert!(matches!(failed, ProgramAction::CommandFailed(1)));
}

#[test]
fn first_generation_remove_deletes_then_rewrites() {
    let p = package_with(&[], &[], false);
    let mut action = p.first_purge_action();
    let mut seen = Vec::new();
    for _ in 0..10 {
        let text = match &action {
            PurgeAction::Prepare => "prepare",
            PurgeAction::Confirm => "confirm",
            PurgeAction::RemoveProgram => "remove program",
            PurgeAction::Rewrite => "rewrite",
            PurgeAction::Stop(true) => "removed",
            PurgeAction::Stop(false) => "aborted",
            PurgeAction::RemovalFailed => "removal failed",
            PurgeAction::Fail(_) => "fail",
        };
        seen.push(text);
        if matches!(action, PurgeAction::Stop(_) | PurgeAction::RemovalFailed | PurgeAction::Fail(_)) {
            break;
        }
        action = p.next_purge_action(action, Ok(true));
    }
    assert_eq!(seen, vec!["prepare", "confirm", "remove program", "rewrite", "removed"]);
    assert!(matches!(p.next_purge_action(PurgeAction::RemoveProgram, Ok(false)), PurgeAction::RemovalFailed));
    assert_eq!(Package::removal_failure(), "removing failed");
}

#[test]
fn pkginfo_shows_installed_packages_and_fetches_the_others() {
    let c = PkgInfo { name: "vim".to_string() };
    let a = c.next_action(c.first_action(), Ok(true));
    assert!(matches!(a, PkgInfoAction::ShowInstalled));
    assert!(matches!(c.next_action(a, Ok(true)), PkgInfoAction::Stop));
    let a = c.next_action(c.first_action(), Err("no root".to_string()));
    assert!(matches!(a, PkgInfoAction::Search));
    let failed = c.next_action(PkgInfoAction::Search, Err("Package not found".to_string()));
    assert!(matches!(failed, PkgInfoAction::Fail(ref e) if e == "Package not found"));
    let a = c.next_action(a, Ok(true));
    assert!(matches!(a, PkgInfoAction::Fetch));
    let a = c.next_action(a, Ok(true));
    assert!(matches!(a, PkgInfoAction::Clean));
    assert!(matches!(c.next_action(a, Ok(true)), PkgInfoAction::Stop));
}

#[test]
fn steps_go_on_until_the_first_error() {
    assert!(matches!(next_step(0, 3, Ok(())), StepNext::Run(1)));
    assert!(matches!(next_step(2, 3, Ok(())), StepNext::Done));
    assert!(matches!(next_step(1, 3, Err("boom".to_string())), StepNext::Fail(ref e) if e == "boom"));
}

#[test]
fn removing_one_package_deletes_then_cleans_then_forgets() {
    let steps = Remove::removal_steps("/r", "vim");
    assert_eq!(steps.len(), 3);
    assert!(matches!(&steps[0], RemovalStep::DeleteDir { path } if path == "/r/.dupt/bin/vim"));
    assert!(matches!(&steps[1], RemovalStep::RemoveUnused));
    assert!(matches!(&steps[2], RemovalStep::DeleteFile { path } if path == "/r/.dupt/installed/vim"));
}

#[test]
fn preparing_the_root_writes_the_config_only_when_it_differs() {
    assert_eq!(
        prepare_root_commands("/p", "/r"),
        vec!["sh /p/scripts/mkdupt.sh /r", "cat /r/.dupt/configs/configs.conf"]
    );
    assert_eq!(config_update(" root_path: /x\n", "root_path: /x", "/r"), None);
    assert_eq!(
        config_update("root_path: /y", "root_path: /x", "/r"),
        Some("echo root_path: /x > /r/.dupt/configs/configs.conf".to_string())
    );
}

#[test]
fn run_starts_only_installed_packages() {
    let r = Run { name: "vim".to_string() };
    let a = r.first_action();
    assert!(matches!(a, RunAction::CheckInstalled));
    let failed = r.next_action(RunAction::CheckInstalled, Err("Package not found".to_string()));
    assert!(matches!(failed, RunAction::Fail(ref e) if e == "Package not found"));
    let a = r.next_action(a, Ok(()));
    assert!(matches!(a, RunAction::Start));
    assert!(matches!(r.next_action(a, Ok(())), RunAction::Stop));
}

#[test]
fn written_root_path_is_read_back() {
    let config = paths::root_path_line(" alice \n");
    assert_eq!(paths::get_root_path(&config), "/home/alice");
}
