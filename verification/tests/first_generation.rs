use dupt::package::{
    get_project_dir, installed_list_path, package_file_path, package_list_path, program_config_path,
    program_dir, split_command, Package, RunStep,
};
use dupt::{
    check_not_installed, entry_scan_ok, find_package_entry, list_command, list_names, lookup_package_entry,
    parse_package_file, search, ListCommand,
};

fn package(name: &str, zip: &str, runnable: bool) -> Package {
    Package {
        name: name.to_string(),
        zip: zip.to_string(),
        description: String::new(),
        install: Vec::new(),
        runnable,
        run: Vec::new(),
    }
}

#[test]
fn test_input() {}

#[test]
fn search_keeps_the_lines_that_contain_the_query() {
    let contents = "safe, fast, productive.\nPick three.\nDuct tape.";
    assert_eq!(search(contents, "duct"), vec!["safe, fast, productive."]);
}

#[test]
fn search_of_nothing_matching_is_empty() {
    assert!(search("one\ntwo\n", "three").is_empty());
}

#[test]
fn package_entry_is_found_by_name() {
    let list = "firefox: browsers\nvim: editors\n";
    let (name, zip) = find_package_entry(list, "vim").unwrap();
    assert_eq!(name, "vim");
    assert_eq!(zip, "editors");
}

#[test]
fn package_entry_lookup_lowers_the_query() {
    // The entry line contains the query "Vim" only in its zip; the name matches
    // the query once lower-cased.
    let (name, zip) = find_package_entry("vim: Vim editors\n", "Vim").unwrap();
    assert_eq!(name, "vim");
    assert_eq!(zip, "Vim editors");
}

#[test]
fn package_entry_with_upper_case_name_is_not_found() {
    assert_eq!(find_package_entry("VIM: editors\n", "VIM"), Err("package not found"));
}

#[test]
fn missing_package_entry_is_an_error() {
    assert_eq!(find_package_entry("firefox: browsers\n", "vim"), Err("package not found"));
}

#[test]
fn entry_scan_refuses_a_colon_at_the_end() {
    assert!(!entry_scan_ok("bad:\n", "bad", "bad"));
    assert!(entry_scan_ok("vim: editors\n", "vim", "vim"));
}

#[test]
fn lookup_package_entry_checks_before_reading() {
    assert!(lookup_package_entry("bad:\n", "bad").is_none());
    let found = lookup_package_entry("vim: editors\n", "vim").unwrap().unwrap();
    assert_eq!(found, ("vim".to_string(), "editors".to_string()));
    assert_eq!(lookup_package_entry("vim: editors\n", "emacs"), Some(Err("package not found")));
}

#[test]
fn package_file_is_parsed() {
    let file = "name: vim\nzip: editors\ndescription: an editor\ninstall: [\n    make\n    make install\n]\nrunnable: true\nrun: [\n    cd src\n    ./vim\n]\n";
    let p = parse_package_file("x".to_string(), "y".to_string(), file);
    assert_eq!(p.name, "vim");
    assert_eq!(p.zip, "editors");
    assert_eq!(p.description, "an editor");
    assert_eq!(p.install, vec!["make".to_string(), "make install".to_string()]);
    assert!(p.runnable);
    assert_eq!(p.run, vec!["cd src".to_string(), "./vim".to_string()]);
}

#[test]
fn package_file_keeps_the_list_entry_when_silent() {
    let p = parse_package_file("vim".to_string(), "editors".to_string(), "runnable: false\n");
    assert_eq!(p.name, "vim");
    assert_eq!(p.zip, "editors");
    assert!(!p.runnable);
    assert!(p.install.is_empty());
}

#[test]
fn list_names_are_the_text_before_the_colon() {
    assert_eq!(
        list_names("vim: editors\nfirefox: browsers"),
        vec!["vim".to_string(), "firefox".to_string()]
    );
}

#[test]
fn list_commands_are_named() {
    assert!(matches!(list_command("list"), Ok(ListCommand::List)));
    assert!(matches!(list_command("listinstalled"), Ok(ListCommand::ListInstalled)));
    assert!(matches!(list_command("pkginfo"), Ok(ListCommand::PkgInfo)));
    assert!(matches!(list_command("bogus"), Err("invalid command")));
}

#[test]
fn installed_entry_is_name_and_zip() {
    assert_eq!(package("vim", "editors", false).installed_entry(), "vim: editors");
}

#[test]
fn removing_drops_the_entry_lines() {
    let p = package("vim", "editors", false);
    let rest = p.remaining_installed("vim: editors\nfirefox: browsers\nvim: editors  \n");
    assert_eq!(rest, "firefox: browsers\n");
}

#[test]
fn install_then_remove_gives_the_list_back() {
    let p = package("vim", "editors", false);
    let list = "firefox: browsers\n";
    let with = format!("{}{}\n", list, p.installed_entry());
    assert_eq!(p.remaining_installed(&with), p.remaining_installed(list));
    assert_eq!(p.remaining_installed(&with), list);
}

#[test]
fn installed_package_is_found_again() {
    let p = package("vim", "editors", false);
    let with = format!("firefox: browsers\n{}\n", p.installed_entry());
    assert!(find_package_entry(&with, "vim").is_ok());
}

#[test]
fn project_dir_drops_three_components() {
    assert_eq!(get_project_dir("/home/u/dupt/target/release/dupt"), "/home/u/dupt");
    assert_eq!(get_project_dir("a/b"), "a");
    assert_eq!(get_project_dir("dupt"), "dupt");
}

#[test]
fn commands_split_into_program_and_arguments() {
    let (program, args) = split_command("cp  a b");
    assert_eq!(program, "cp");
    assert_eq!(args, vec!["a".to_string(), "b".to_string()]);
}

#[test]
fn cd_steps_change_directory() {
    match Package::run_step("cd build dir") {
        RunStep::ChangeDir { path } => assert_eq!(path, "builddir"),
        RunStep::Exec { .. } => panic!("expected a directory change"),
    }
    match Package::run_step("make -j4") {
        RunStep::Exec { program, args } => {
            assert_eq!(program, "make");
            assert_eq!(args, vec!["-j4".to_string()]);
        },
        RunStep::ChangeDir { .. } => panic!("expected a program"),
    }
}

#[test]
fn only_runnable_packages_run() {
    assert_eq!(package("vim", "editors", false).check_runnable(), Err("package not runnable"));
    assert_eq!(package("vim", "editors", true).check_runnable(), Ok(()));
}

#[test]
fn pkginfo_stops_at_the_first_block() {
    let p = package("vim", "editors", true);
    let config = "name: vim\ndescription: editor\ninstall: [\n    make\n]\nrunnable: true\n";
    assert_eq!(p.pkginfo(config), "name: vim\ndescription: editor");
}

#[test]
fn pkginfo_trims_the_end() {
    let p = package("vim", "editors", true);
    assert_eq!(p.pkginfo("name: vim  \n\n"), "name: vim");
}

#[test]
fn first_generation_paths() {
    assert_eq!(package_list_path("/p"), "/p/packages/list.config");
    assert_eq!(installed_list_path("/p"), "/p/packages/installed.config");
    assert_eq!(package_file_path("/p", "editors", "vim"), "/p/packages/zips/editors/vim.config");
    assert_eq!(program_dir("/p", "editors"), "/p/packages/programs/editors");
    assert_eq!(program_config_path("/p", "editors", "vim"), "/p/packages/programs/editors/vim.config");
}

#[test]
fn reinstalling_is_refused() {
    assert_eq!(check_not_installed(true), Err("package already installed"));
    assert_eq!(check_not_installed(false), Ok(()));
}

#[test]
fn searching_the_results_again_keeps_them() {
    let contents = "safe, fast, productive.\nPick three.\nproductive duct\nDuct tape.";
    let found = search(contents, "duct");
    let joined = found.join("\n");
    assert_eq!(search(&joined, "duct"), found);
}

#[test]
fn install_then_remove_restores_the_list_exactly() {
    let p = package("vim", "editors", false);
    let list = "firefox: browsers\nnano: editors\n";
    let with = format!("{}{}\n", list, p.installed_entry());
    assert_eq!(p.remaining_installed(&with), list);
    assert_eq!(p.remaining_installed(&format!("{}\n", p.installed_entry())), "");
}
