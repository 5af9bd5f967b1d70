use dupt::config::Config;
use dupt::libdupt::commands::command_list::CommandList;
use dupt::libdupt::commands::install::{install_steps, parse_build_info, Install, InstallStep};
use dupt::libdupt::commands::pkginfo::PkgInfo;
use dupt::libdupt::commands::remove::Remove;
use dupt::libdupt::commands::run::Run;
use dupt::libdupt::commands::search::{find_listings, render_listing, Listing, Search};
use dupt::libdupt::commands::update::Update;
use dupt::libdupt::commands::{configure, AnyCommand, Command};

fn strings(v: &[&str]) -> Vec<String> {
    v.iter().map(|s| s.to_string()).collect()
}

fn config(process: &str, args: &[&str]) -> Config {
    Config { process: process.to_string(), arguments: strings(args) }
}

#[test]
fn install_reads_names_and_confirmation() {
    let mut c = Install::default();
    assert_eq!(c.names, strings(&["help"]));
    assert!(c.confirm);
    assert_eq!(c.set_from_args(&strings(&["vim", "nano", "-y"])), Ok(()));
    assert_eq!(c.names, strings(&["vim", "nano"]));
    assert!(!c.confirm);

    let mut c = Install::default();
    assert_eq!(c.set_from_args(&strings(&["vim"])), Ok(()));
    assert_eq!(c.names, strings(&["vim"]));
    assert!(c.confirm);
}

#[test]
fn install_needs_a_name() {
    let mut c = Install::default();
    assert_eq!(c.set_from_args(&Vec::new()), Err("Not enough arguments"));
    assert_eq!(c.names, strings(&["help"]));
    let mut c = Install::default();
    assert_eq!(c.set_from_args(&strings(&["-y"])), Err("Not enough arguments"));
    assert!(!c.confirm);
    assert_eq!(c.names, strings(&["help"]));
}

#[test]
fn help_texts() {
    assert_eq!(Install::help_text(), vec!["install", "", "install software from different repositories"]);
    assert_eq!(Search::help_text(), vec!["search:", "", "a command used to search packages"]);
    assert_eq!(Run::help_text(), vec!["run", "run installed software"]);
}

const PKGINFO: &str = "name: vim\nmake_dependencies: [\n    gcc\n    make\n]\n\ndependencies: [\n    ncurses\n]\n";

#[test]
fn build_info_is_read_from_pkginfo() {
    let info = parse_build_info(PKGINFO);
    assert_eq!(info.make_dependencies, strings(&["gcc", "make"]));
    assert_eq!(info.dependencies, strings(&["ncurses"]));
    assert_eq!(info.key_lines, strings(&["name: vim", "make_dependencies: [", "dependencies: ["]));
}

fn command_of(step: &InstallStep) -> (String, bool) {
    match step {
        InstallStep::InContainer { command, spawn } => (command.clone(), *spawn),
        InstallStep::EnterDir { path } => (format!("cd {}", path), false),
    }
}

#[test]
fn install_steps_build_and_record_the_package() {
    let info = parse_build_info(PKGINFO);
    let steps = install_steps("vim", "/r", &info);
    let got: Vec<(String, bool)> = steps.iter().map(command_of).collect();
    let want: Vec<(String, bool)> = vec![
        ("sudo dnf install gcc make -y".to_string(), true),
        ("cd /r/.dupt/archives/vim/control".to_string(), false),
        ("sh preinst.sh /r".to_string(), true),
        ("sh build.sh /r".to_string(), true),
        ("sudo dnf remove gcc make -y".to_string(), true),
        ("sudo dnf install ncurses  -y".to_string(), true),
        ("sh preinst.sh /r".to_string(), true),
        ("cp /r/.dupt/archives/vim/PKGINFO.conf /r/.dupt/installed/vim".to_string(), false),
    ];
    assert_eq!(got, want);
    assert!(matches!(steps[1], InstallStep::EnterDir { .. }));
}

#[test]
fn remove_keeps_every_argument() {
    let mut c = Remove::default();
    assert_eq!(c.set_from_args(&strings(&["vim", "-y"])), Ok(()));
    assert_eq!(c.names, strings(&["vim", "-y"]));
    assert!(!c.confirm);
    let mut c = Remove::default();
    assert_eq!(c.set_from_args(&Vec::new()), Err("not enough arguments"));
    assert!(c.confirm);
}

#[test]
fn remove_command_joins_the_unused() {
    assert_eq!(Remove::remove_command(&strings(&["a", "b"])), "sudo dnf remove a b -y");
    assert_eq!(Remove::remove_command(&Vec::new()), "sudo dnf remove  -y");
}

#[test]
fn single_name_commands() {
    let mut s = Search::default();
    assert_eq!(s.name, "help");
    assert_eq!(s.set_from_args(&strings(&["vim", "x"])), Ok(()));
    assert_eq!(s.name, "vim");
    assert_eq!(Search::default().set_from_args(&Vec::new()), Err("not enough arguments"));

    let mut r = Run::default();
    assert_eq!(r.set_from_args(&Vec::new()), Err("not enought arguments"));
    assert_eq!(r.set_from_args(&strings(&["vim"])), Ok(()));
    assert_eq!(r.name, "vim");

    let mut p = PkgInfo::default();
    assert_eq!(p.name, "help");
    assert_eq!(p.set_from_args(&Vec::new()), Err("not enough arguments"));
    assert_eq!(p.set_from_args(&strings(&["nano"])), Ok(()));
    assert_eq!(p.name, "nano");
}

#[test]
fn listings_are_found_in_a_repository_list() {
    let list = "vim-tiny\n    version: 1.0\n    description_short: small vim\nemacs\n    version: 29\ngvim\n    version: 9\n";
    let found = find_listings(list, "vim");
    let got: Vec<(String, String, String)> = found
        .iter()
        .map(|l| (l.name.clone(), l.version.clone(), l.description_short.clone()))
        .collect();
    assert_eq!(
        got,
        vec![
            ("vim-tiny".to_string(), "1.0".to_string(), "small vim".to_string()),
            ("gvim".to_string(), "9".to_string(), String::new()),
        ]
    );
}

#[test]
fn search_over_no_lists_finds_nothing() {
    let s = Search { name: "vim".to_string() };
    assert!(matches!(s.listings(&Vec::new()), Err("no matching packages")));
    let files = strings(&["emacs\n    version: 29\n"]);
    assert!(matches!(s.listings(&files), Err("no matching packages")));
    let files = strings(&["emacs\n", "gvim\n    version: 9\n"]);
    match s.listings(&files) {
        Ok(v) => {
            assert_eq!(v.len(), 1);
            assert_eq!(v[0].name, "gvim");
        },
        Err(e) => panic!("{}", e),
    }
}

#[test]
fn listings_render_in_two_lines() {
    let l = Listing {
        name: "vim".to_string(),
        version: "9.0".to_string(),
        description_short: "editor".to_string(),
    };
    let (first, second) = render_listing(&l, 10);
    assert_eq!(first, "vim    9.0");
    assert_eq!(second, "\u{1b}[38;2;100;100;100meditor\u{1b}[0m");
    let (first, _) = render_listing(&l, 4);
    assert_eq!(first, "vim9.0");
}

#[test]
fn run_launches_the_declared_executable() {
    let r = Run { name: "vim".to_string() };
    let launch = r.launch("/r", "name: vim\nexec: bin/vim\nno colon here\n");
    assert_eq!(launch.dir, "/r/.dupt/bin/vim/bin");
    assert_eq!(launch.argv, strings(&["enter", "dupt-fedora", "--", "./vim"]));
    let launch = r.launch("/r", " exec : vim \n");
    assert_eq!(launch.dir, "/r/.dupt/bin/vim/");
    assert_eq!(launch.argv[3], "./vim");
}

#[test]
fn update_fetches_each_repository_list() {
    let mut u = Update::default();
    assert!(u.confirm);
    assert_eq!(u.set_from_args(&Vec::new()), Ok(()));
    let repos = vec![("main".to_string(), "x".to_string()), ("extra".to_string(), "y".to_string())];
    let d = Update::downloads(&repos);
    assert_eq!(d.len(), 2);
    assert_eq!(d[0].name, "list.conf");
    assert_eq!(d[0].output, "main.conf");
    assert_eq!(d[0].repo, "main");
    assert_eq!(d[1].output, "extra.conf");
    assert_eq!(d[1].repo, "extra");
}

#[test]
fn configure_sets_a_default_command() {
    match configure(AnyCommand::Search(Search::default()), &strings(&["vim"])) {
        Ok(AnyCommand::Search(s)) => assert_eq!(s.name, "vim"),
        _ => panic!("expected a search"),
    }
    assert!(matches!(
        configure(AnyCommand::Install(Install::default()), &Vec::new()),
        Err("Not enough arguments")
    ));
}

#[test]
fn command_list_holds_the_known_commands() {
    let list = CommandList::default();
    let names: Vec<&str> = list.list.iter().map(|e| e.0.as_str()).collect();
    assert_eq!(names, vec!["install", "search", "run", "pkginfo", "remove"]);
    assert_eq!(list.position("run"), Some(2));
    assert_eq!(list.position("update"), None);
}

#[test]
fn command_line_of_the_command_list() {
    assert!(matches!(dupt::libdupt::run(&config("update", &[])), Err("Command not found")));
    match dupt::libdupt::run(&config("search", &["vim"])) {
        Ok(AnyCommand::Search(s)) => assert_eq!(s.name, "vim"),
        _ => panic!("expected a search"),
    }
    match dupt::libdupt::run(&config("remove", &["a", "-y"])) {
        Ok(AnyCommand::Remove(r)) => {
            assert_eq!(r.names, strings(&["a", "-y"]));
            assert!(!r.confirm);
        },
        _ => panic!("expected a removal"),
    }
}

#[test]
fn command_line_of_the_dispatcher() {
    assert!(matches!(dupt::run::run(&config("update", &[])), Ok(AnyCommand::Update(u)) if u.confirm));
    assert!(matches!(dupt::run::run(&config("bogus", &["x"])), Err("invalid command")));
    assert!(matches!(dupt::run::run(&config("install", &[])), Err("Not enough arguments")));
    match dupt::run::run(&config("pkginfo", &["vim"])) {
        Ok(AnyCommand::PkgInfo(p)) => assert_eq!(p.name, "vim"),
        _ => panic!("expected pkginfo"),
    }
}

#[test]
fn found_listings_contain_the_query() {
    let list = "vim-tiny\n    version: 1.0\nemacs\ngvim\nneovim\n    version: 0.9\n";
    let found = find_listings(list, "vim");
    assert_eq!(found.len(), 3);
    for l in &found {
        assert!(l.name.contains("vim"));
    }
}

#[test]
fn both_command_lines_agree_on_shared_commands() {
    for process in ["install", "search", "run", "pkginfo", "remove"] {
        for args in [vec![], vec!["vim"], vec!["vim", "-y"]] {
            let a = dupt::run::run(&config(process, &args));
            let b = dupt::libdupt::run(&config(process, &args));
            match (a, b) {
                (Err(x), Err(y)) => assert_eq!(x, y),
                (Ok(AnyCommand::Install(x)), Ok(AnyCommand::Install(y))) => {
                    assert_eq!(x.names, y.names);
                    assert_eq!(x.confirm, y.confirm);
                },
                (Ok(AnyCommand::Remove(x)), Ok(AnyCommand::Remove(y))) => {
                    assert_eq!(x.names, y.names);
                    assert_eq!(x.confirm, y.confirm);
                },
                (Ok(AnyCommand::Search(x)), Ok(AnyCommand::Search(y))) => assert_eq!(x.name, y.name),
                (Ok(AnyCommand::Run(x)), Ok(AnyCommand::Run(y))) => assert_eq!(x.name, y.name),
                (Ok(AnyCommand::PkgInfo(x)), Ok(AnyCommand::PkgInfo(y))) => assert_eq!(x.name, y.name),
                _ => panic!("the command lines disagree on {}", process),
            }
        }
    }
}
