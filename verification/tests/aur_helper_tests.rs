use aur_check_rebuild::aur_helper::{
    desc_path_from_query, echo_command, full_command, helper_command, manual_command,
    parse_package_query, pending_packages, query_output_is_well_formed, record_if_rebuilt, terminal_command,
};

fn strings(xs: &[&str]) -> Vec<String> {
    xs.iter().map(|x| x.to_string()).collect()
}

const QUERY: &str = "Name            : foo-git\nVersion         : 1.0.r5.abc-1\nDescription     : Foo: the tool\nNamed           : x\n";

#[test]
fn query_gives_name_and_version() {
    let (name, version) = parse_package_query(QUERY);
    assert_eq!(name, Some("x".to_string()));
    assert_eq!(version, Some("1.0.r5.abc-1".to_string()));
    let (name, version) = parse_package_query("Name : a:b \n");
    assert_eq!(name, Some("a:b".to_string()));
    assert_eq!(version, None);
}

#[test]
fn desc_path_comes_from_the_query() {
    let path = desc_path_from_query("Name : foo\nVersion : 2-1\n");
    assert_eq!(path, "/var/lib/pacman/local/foo-2-1/desc");
}

#[test]
fn commands_are_built() {
    let pkgs = strings(&["a", "b"]);
    let helper = helper_command("paru", &pkgs);
    assert_eq!(helper, "paru -S --aur --mflags \"--skippgpcheck --skipchecksums --nocheck\" --sudoloop --noconfirm a b");
    let echo = echo_command(&pkgs);
    assert_eq!(echo, "echo \"Rebuilding packages:\n  a\n  b\n\"");
    let full = full_command("paru", &pkgs);
    assert_eq!(full, format!("{echo} && {helper}; read -p \"Press enter to exit...\""));
    assert_eq!(manual_command("yay", &pkgs), "yay -S --aur a b");
}

#[test]
fn terminal_command_switches_user_as_root() {
    let full = "cmd".to_string();
    let user = "alice".to_string();
    assert_eq!(
        terminal_command(true, &user, &full),
        strings(&["sudo", "-u", "alice", "--", "alacritty", "-o", "window.opacity=1.0", "-T", "Rebuilding AUR packages", "-e", "bash", "-c", "cmd"])
    );
    assert_eq!(terminal_command(false, &user, &full).len(), 9);
}

#[test]
fn rebuilt_packages_are_recorded_once() {
    let mut finished = Vec::new();
    assert!(record_if_rebuilt(&mut finished, &"a".to_string(), 100, 101));
    assert!(!record_if_rebuilt(&mut finished, &"a".to_string(), 100, 200));
    assert!(!record_if_rebuilt(&mut finished, &"b".to_string(), 100, 100));
    assert_eq!(finished, strings(&["a"]));
    assert_eq!(pending_packages(&strings(&["a", "b", "c"]), &finished), strings(&["b", "c"]));
}

#[test]
fn query_lines_naming_fields_need_a_colon() {
    assert!(query_output_is_well_formed(QUERY));
    assert!(query_output_is_well_formed("Other line\n"));
    assert!(!query_output_is_well_formed("Description : x\nVersion 1.0\n"));
    assert!(!query_output_is_well_formed("Names"));
}
