use aur_check_rebuild::libalpm::{
    get_aur_packages, get_depends_of_package, get_files_of_package, get_local_packages,
    get_package_info, get_required_by_of_package, get_so_dependencies_of_pkg, get_so_files_of_pkg,
    install_date, load_localdb_packages, load_package_from_file, package_entry_path,
    parse_pacman_desc_file, PacmanPackage,
};

const DESC: &str = "%NAME%\nfoo-git\n\n%VERSION%\n1.2.3-1\n\n%DESC%\nA  test package  \n\n%INSTALLDATE%\n1700000000\n\n%DEPENDS%\nglibc\n  zlib  \n\n";

fn values(desc: &aur_check_rebuild::libalpm::PacmanDesc, key: &str) -> Option<Vec<String>> {
    desc.fields.get(&key.to_string()).cloned()
}

fn pkg(name: &str, db: &str, depends: &[&str]) -> PacmanPackage {
    PacmanPackage {
        name: name.to_string(),
        version: "1.0-1".to_string(),
        depends: depends.iter().map(|s| s.to_string()).collect(),
        db: db.to_string(),
        install_date: 0,
    }
}

#[test]
fn desc_fields_are_read() {
    let desc = parse_pacman_desc_file(DESC);
    assert_eq!(values(&desc, "NAME"), Some(vec!["foo-git".to_string()]));
    assert_eq!(values(&desc, "DESC"), Some(vec!["A  test package".to_string()]));
    assert_eq!(values(&desc, "DEPENDS"), Some(vec!["glibc".to_string(), "zlib".to_string()]));
    assert_eq!(values(&desc, "MISSING"), None);
    assert_eq!(desc.fields.len(), 5);
}

#[test]
fn desc_lines_before_a_header_are_ignored() {
    let desc = parse_pacman_desc_file("stray\n%A%\nx\n");
    assert_eq!(desc.fields.len(), 1);
    assert_eq!(values(&desc, "A"), Some(vec!["x".to_string()]));
}

#[test]
fn desc_header_strips_every_percent_sign() {
    let desc = parse_pacman_desc_file("%%KEY%%\r\nv1\r\n%\nv2\n");
    assert_eq!(values(&desc, "KEY"), Some(vec!["v1".to_string()]));
    assert_eq!(values(&desc, ""), Some(vec!["v2".to_string()]));
}

#[test]
fn desc_repeated_header_appends() {
    let desc = parse_pacman_desc_file("%A%\nx\n%B%\ny\n%A%\nz");
    assert_eq!(values(&desc, "A"), Some(vec!["x".to_string(), "z".to_string()]));
}

#[test]
fn desc_of_empty_text_is_empty() {
    let desc = parse_pacman_desc_file("");
    assert_eq!(desc.fields.len(), 0);
}

#[test]
fn package_is_loaded_from_desc() {
    let p = load_package_from_file(DESC);
    assert_eq!(p.name, "foo-git");
    assert_eq!(p.version, "1.2.3-1");
    assert_eq!(p.depends, vec!["glibc".to_string(), "zlib".to_string()]);
    assert_eq!(p.db, "unknown");
    assert_eq!(p.install_date, 1700000000);
}

#[test]
fn package_without_name_is_unknown() {
    let p = load_package_from_file("%INSTALLDATE%\n-42\n%INSTALLED_DB%\nextra\n");
    assert_eq!(p.name, "unknown");
    assert_eq!(p.version, "unknown");
    assert_eq!(p.db, "extra");
    assert!(p.depends.is_empty());
    assert_eq!(p.install_date, -42);
}

#[test]
fn install_date_follows_integer_parsing() {
    let date = |s: &str| install_date(&parse_pacman_desc_file(&format!("%INSTALLDATE%\n{}\n", s)));
    assert_eq!(date("+17"), Some(17));
    assert_eq!(date("9223372036854775807"), Some(i64::MAX));
    assert_eq!(date("-9223372036854775808"), Some(i64::MIN));
    assert_eq!(date("9223372036854775808"), None);
    assert_eq!(date("12a"), None);
    assert_eq!(date("-"), None);
    assert_eq!(install_date(&parse_pacman_desc_file("%NAME%\nx\n")), None);
}

#[test]
fn entry_path_is_built() {
    let path = package_entry_path(&"foo".to_string(), &"1.0-2".to_string(), "files");
    assert_eq!(path, "/var/lib/pacman/local/foo-1.0-2/files");
}

#[test]
fn files_are_listed_until_backup() {
    let files = get_files_of_package("%FILES%\nusr/\nusr/lib/libfoo.so.1\nusr/bin/foo\n\n%BACKUP%\netc/foo.conf\tabc\n");
    assert_eq!(
        files,
        vec!["/usr/".to_string(), "/usr/lib/libfoo.so.1".to_string(), "/usr/bin/foo".to_string(), "/".to_string()]
    );
    assert!(get_files_of_package("").is_empty());
    assert!(get_files_of_package("%FILES%").is_empty());
}

#[test]
fn shared_objects_are_picked_by_name() {
    let files: Vec<String> = [
        "/usr/lib/libfoo.so",
        "/usr/lib/libfoo.so.1.2.3",
        "/usr/lib/libfoo.so.1a",
        "/usr/lib/foo.so",
        "/usr/lib/lib/x.so",
        "/usr/lib/python/libbar.so.2",
        "/usr/share/doc/libfoo.so.txt",
        "/usr/bin/foo",
    ]
    .iter()
    .map(|s| s.to_string())
    .collect();
    assert_eq!(
        get_so_files_of_pkg(&files),
        vec![
            "/usr/lib/libfoo.so".to_string(),
            "/usr/lib/libfoo.so.1.2.3".to_string(),
            "/usr/lib/python/libbar.so.2".to_string()
        ]
    );
}

#[test]
fn shared_object_dependencies_are_merged_once() {
    let needed = vec![
        vec!["/usr/lib/libc.so.6".to_string(), "/usr/lib/libz.so.1".to_string()],
        vec![],
        vec!["/usr/lib/libz.so.1".to_string(), "/usr/lib/libm.so.6".to_string()],
    ];
    let mut out = get_so_dependencies_of_pkg(&needed);
    out.sort();
    assert_eq!(
        out,
        vec!["/usr/lib/libc.so.6".to_string(), "/usr/lib/libm.so.6".to_string(), "/usr/lib/libz.so.1".to_string()]
    );
}

#[test]
fn local_db_queries() {
    let db = load_localdb_packages(&vec![
        pkg("a", "core", &["glibc"]),
        pkg("b", "unknown", &["a", "glibc"]),
        pkg("c", "unknown", &[]),
        pkg("a", "extra", &["zlib"]),
    ]);
    let mut local = get_local_packages(&db);
    local.sort();
    assert_eq!(local, vec!["a", "b", "c"]);
    let mut aur = get_aur_packages(&db);
    aur.sort();
    assert_eq!(aur, vec!["b", "c"]);
    assert_eq!(get_package_info(&db, &"a".to_string()).db, "extra");
    assert_eq!(get_depends_of_package(&db, &"a".to_string()), vec!["zlib".to_string()]);
    assert_eq!(get_required_by_of_package(&db, &"a".to_string()), vec!["b".to_string()]);
    assert!(get_required_by_of_package(&db, &"glibc".to_string()) == vec!["b".to_string()]);
}
