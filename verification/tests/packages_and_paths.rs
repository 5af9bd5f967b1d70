use dupt::libdupt::tools::packages;
use dupt::libdupt::tools::paths;

#[test]
fn repository_files_are_searched_in_turn() {
    let files = vec!["nano\n    version: 1\n".to_string(), "firefox\n".to_string()];
    assert_eq!(packages::search_package(&files, "firefox"), Ok(()));
    assert_eq!(packages::search_package(&files, "nano"), Ok(()));
    assert_eq!(packages::search_package(&files, "emacs"), Err("Package not found"));
}

#[test]
fn installed_files_are_matched_by_trimmed_name() {
    let entries = vec!["vim".to_string(), "firefox".to_string()];
    assert_eq!(packages::search_installed(&entries, " vim "), Ok(()));
    assert_eq!(packages::search_installed(&entries, "emacs"), Err("Package not found"));
}

const PKG: &str = "name: vim\ndependencies: [\n    ncurses\n    glibc\n]\nmake_dependencies: [\n    gcc\n]\n";

#[test]
fn dependencies_are_read_from_their_list() {
    assert_eq!(packages::get_dependencies(PKG), vec!["ncurses".to_string(), "glibc".to_string()]);
    assert_eq!(packages::get_make_dependencies(PKG), vec!["gcc".to_string()]);
    assert!(packages::get_dependencies("name: vim\n").is_empty());
}

#[test]
fn archives_are_cleared_below_the_root() {
    assert_eq!(
        packages::clear_archives("/r", "vim"),
        "rm /r/.dupt/archives/vim.tar.gz /r/.dupt/archives/vim -r"
    );
}

#[test]
fn dependencies_are_counted_over_installed_files() {
    let files = vec![
        "dependencies: [\n    a\n    b\n]\n".to_string(),
        "name: x\ndependencies: [\n    a\n]\n".to_string(),
    ];
    let counts = packages::get_dependency_count(&files);
    assert_eq!(counts, vec![("a".to_string(), 2), ("b".to_string(), 1)]);
    assert!(packages::get_dependency_count(&Vec::new()).is_empty());
}

#[test]
fn unused_dependencies_are_those_counted_once() {
    let counts = vec![("a".to_string(), 2), ("b".to_string(), 1)];
    let deps = vec!["a".to_string(), "b".to_string()];
    assert_eq!(packages::get_unused_dependencies(&counts, &deps), vec!["b".to_string()]);
    let counts = vec![(" c ".to_string(), 1)];
    let deps = vec![" c ".to_string(), " c ".to_string()];
    assert_eq!(
        packages::get_unused_dependencies(&counts, &deps),
        vec!["c".to_string(), "c".to_string()]
    );
}

#[test]
fn removal_keeps_shared_dependencies() {
    let files = vec![
        "dependencies: [\n    a\n    b\n]\n".to_string(),
        "dependencies: [\n    a\n]\n".to_string(),
    ];
    let counts = packages::get_dependency_count(&files);
    let deps = packages::get_dependencies(&files[0]);
    let unused = packages::get_unused_dependencies(&counts, &deps);
    assert_eq!(unused, vec!["b".to_string()]);
    for u in &unused {
        assert!(deps.contains(u));
    }
}

#[test]
fn repositories_are_read_with_later_lines_winning() {
    let conf = "main: https://x/||.tar.gz\n\n  \nextra: https://y\n main : https://z/||\n";
    let repos = packages::get_repos(conf);
    assert_eq!(
        repos,
        vec![
            ("main".to_string(), "https://z/||".to_string()),
            ("extra".to_string(), "https://y".to_string()),
        ]
    );
    assert!(packages::get_repos("").is_empty());
}

#[test]
fn fetch_arguments_set_the_name_in_the_link() {
    let repos = vec![
        ("main".to_string(), "https://x/||.tar.gz".to_string()),
        ("extra".to_string(), "https://y/||".to_string()),
    ];
    assert_eq!(
        packages::get_file(&repos, "vim", "vim.tar.gz", "main"),
        vec!["-o", "vim.tar.gz", "https://x/vim.tar.gz", "-l"]
    );
    assert_eq!(
        packages::get_file(&repos, "list.conf", "extra.conf", "extra"),
        vec!["-o", "extra.conf", "https://y/list.conf", "-l"]
    );
}

#[test]
fn path_helpers() {
    assert_eq!(paths::list_path("/p"), "/p/sources/list.config");
    assert_eq!(paths::installed_path("/p"), "/p/sources/installed.config");
    assert_eq!(paths::get_project_dir("/home/u/dupt/target/release/dupt"), "/home/u/dupt");
    assert_eq!(paths::get_project_dir("/opt/bin"), "/opt/bin");
    assert_eq!(paths::get_root_path("root_path: /home/u\n"), "/home/u");
    assert_eq!(paths::root_path_line(" alice\n"), "root_path: /home/alice\n");
    assert_eq!(paths::config_path("/p"), "/p/configs/configs.conf");
    assert_eq!(paths::repositories_dir("/p"), "/p/sources/repositories");
    assert_eq!(paths::sources_path("/p"), "/p/sources/sources.conf");
    assert_eq!(paths::in_root("/r", "installed"), "/r/.dupt/installed");
    assert_eq!(paths::installed_file("/r", "vim"), "/r/.dupt/installed/vim");
    assert_eq!(paths::archive_file("/r", "vim"), "/r/.dupt/archives/vim.tar.gz");
    assert_eq!(paths::pkginfo_file("/r", "vim"), "/r/.dupt/archives/vim/PKGINFO.conf");
    assert_eq!(paths::bin_dir("/r", "vim"), "/r/.dupt/bin/vim");
}
