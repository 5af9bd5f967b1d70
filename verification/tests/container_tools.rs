use dupt::libdupt::tools::{
    get_file, list_installed_command, repos_conf_path,
    clear_archives, configs_differ, container_listed, distrobox_argv, file_url, get_fedora_image,
    get_project_dir, get_root_path, installed_path, is_listed, list_path, mkdupt_command, print_blue,
    print_green, print_red,
    prefix_through, read_config_command, read_confirmation, repo_link, search_installed,
    search_package, split_at_first, write_config_command,
};

#[test]
fn coloured_lines_wrap_the_text_in_escapes() {
    assert_eq!(print_red("hi"), "\u{1b}[31mhi\u{1b}[0m");
    assert_eq!(print_green("ok"), "\u{1b}[32mok\u{1b}[0m");
    assert_eq!(print_blue(""), "\u{1b}[34m\u{1b}[0m");
}

#[test]
fn confirmation_answers() {
    assert_eq!(read_confirmation(" y\n"), Ok(true));
    assert_eq!(read_confirmation("n"), Ok(false));
    assert_eq!(read_confirmation("maybe"), Err("invalid value. aborting..."));
    assert_eq!(read_confirmation(""), Err("invalid value. aborting..."));
}

#[test]
fn fedora_image_is_fixed() {
    assert_eq!(get_fedora_image(), "fedora:40");
}

#[test]
fn distrobox_runs_the_words_in_the_container() {
    assert_eq!(
        distrobox_argv("sudo dnf  update -y"),
        vec!["enter", "dupt-fedora", "--", "sudo", "dnf", "update", "-y"]
    );
    assert_eq!(distrobox_argv("   "), vec!["enter", "dupt-fedora", "--"]);
}

#[test]
fn package_list_search() {
    let list = "nano\n    version: 1\nfirefox\n";
    assert!(is_listed(list, "firefox"));
    assert!(!is_listed(list, "version: 1"));
    assert_eq!(search_package(list, "firefox"), Ok(()));
    assert_eq!(search_package(list, "emacs"), Err("Package not found"));
}

#[test]
fn installed_search_looks_at_the_container_then_the_list() {
    assert_eq!(search_installed("nano firefox", "", "nano"), Ok(()));
    assert_eq!(search_installed("nano", "emacs\n", "emacs"), Ok(()));
    assert_eq!(search_installed("nano", "gedit\n", "emacs"), Err("Package not found"));
}

#[test]
fn repository_link_is_the_last_declared() {
    let conf = "main: https://a.b/c\nextra: https://x\nmain :  https://d\n";
    assert_eq!(repo_link(conf, "main"), "https://d");
    assert_eq!(repo_link(conf, "extra"), "https://x");
    assert_eq!(repo_link(conf, "none"), "");
}

#[test]
fn file_urls() {
    assert_eq!(file_url("https://a", "pkg.tar.gz", "main"), "https://a/pkg.tar.gz/raw?ref=main");
}

#[test]
fn container_commands() {
    assert_eq!(mkdupt_command("/p", "/r"), "sh /p/scripts/mkdupt.sh /r");
    assert_eq!(read_config_command("/r"), "cat /r/.dupt/configs/configs.conf");
    assert_eq!(
        write_config_command("root_path: /x", "/r"),
        "echo root_path: /x > /r/.dupt/configs/configs.conf"
    );
    assert_eq!(clear_archives("/r", "vim"), "rm /r/.dupt/archivesvim.tar.gz /r/.dupt/archivesvim -r");
}

#[test]
fn configs_are_compared_trimmed() {
    assert!(!configs_differ(" a \n", "a"));
    assert!(configs_differ("a", "b"));
}

#[test]
fn container_listing() {
    assert!(container_listed("NAME\ndupt-fedora | running"));
    assert!(!container_listed("NAME\nother"));
}

#[test]
fn prefixes_through_a_marker() {
    assert_eq!(prefix_through("/opt/bugs/bin", "ugs"), "/opt/bugs");
    assert_eq!(prefix_through("/opt/bin", "ugs"), "/opt/bin");
    assert_eq!(get_project_dir("/home/u/bugs/target/dupt"), "/home/u/bugs");
}

#[test]
fn split_at_the_first_separator() {
    assert_eq!(
        split_at_first("a||b||c", "||"),
        Some(("a".to_string(), "b||c".to_string()))
    );
    assert_eq!(split_at_first("||", "||"), Some((String::new(), String::new())));
    assert_eq!(split_at_first("abc", "||"), None);
}

#[test]
fn root_path_from_the_config() {
    assert_eq!(get_root_path("root_path: /home/u\nother: x\n"), "/home/u");
    assert_eq!(get_root_path("root_path : /x\n"), "");
    assert_eq!(get_root_path("root_path: /a\nroot_path:/b \n"), "/b");
}

#[test]
fn project_files() {
    assert_eq!(list_path("/p"), "/p/sources/list.config");
    assert_eq!(installed_path("/p"), "/p/sources/installed.config");
}

#[test]
fn branch_downloads() {
    let conf = "dupt-repo-main: https://git.example/api/files\nother: https://o\n";
    assert_eq!(
        get_file(conf, "vim.tar.gz", "dupt-repo-main", "main"),
        vec!["-o", "vim.tar.gz", "https://git.example/api/files/vim.tar.gz/raw?ref=main", "-l"]
    );
    assert_eq!(get_file(conf, "x", "missing", "main")[2], "/x/raw?ref=main");
    assert_eq!(repos_conf_path("/p"), "/p/sources/repos.conf");
    assert_eq!(list_installed_command("/r"), "ls /r/.dupt/installed");
}
