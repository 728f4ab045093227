use aur_check_rebuild::assoc::AssocList;
use aur_check_rebuild::cache::{
    accumulate_changed_so_files, execs_to_scan, so_dependencies_by_file, sorted_entry, Cache,
    CacheEntry,
};
use aur_check_rebuild::cache::StringHashMap;

fn s(x: &str) -> String {
    x.to_string()
}

fn strings(xs: &[&str]) -> Vec<String> {
    xs.iter().map(|x| x.to_string()).collect()
}

fn links(pairs: &[(&str, &[&str])]) -> AssocList<Vec<String>> {
    let mut m = AssocList::new();
    for (file, needs) in pairs {
        m.insert(s(file), strings(needs));
    }
    m
}

fn entry(db: &str, so_files: &[&str], so_deps: &[(&str, &[&str])]) -> CacheEntry {
    CacheEntry { dependencies: vec![], db: s(db), so_files: strings(so_files), so_dependencies: links(so_deps) }
}

fn sample_cache() -> Cache {
    let mut cache = Cache::default();
    cache.insert_entry(s("app"), entry("unknown", &[], &[("/usr/bin/app", &["/usr/lib/libfoo.so.1", "/usr/lib/libc.so.6"])]));
    cache.insert_entry(s("foo"), entry("unknown", &["/usr/lib/libfoo.so.1"], &[]));
    cache.insert_entry(s("glibc"), entry("core", &["/usr/lib/libc.so.6"], &[("/usr/bin/ldd", &["/usr/lib/libc.so.6"])]));
    cache
}

#[test]
fn default_entry_is_unknown() {
    let e = CacheEntry::default();
    assert_eq!(e.db, "unknown");
    assert!(e.dependencies.is_empty() && e.so_files.is_empty());
    assert_eq!(e.so_dependencies.len(), 0);
    assert_eq!(Cache::default().data.len(), 0);
}

#[test]
fn cache_aur_packages_are_the_foreign_ones() {
    let cache = sample_cache();
    let mut aur = cache.get_aur_packages();
    aur.sort();
    assert_eq!(aur, strings(&["app", "foo"]));
}

#[test]
fn insert_entry_replaces() {
    let mut cache = sample_cache();
    cache.insert_entry(s("foo"), entry("extra", &[], &[]));
    assert_eq!(cache.data.len(), 3);
    assert_eq!(cache.data.get(&s("foo")).unwrap().db, "extra");
    assert_eq!(cache.get_aur_packages(), strings(&["app"]));
}

#[test]
fn remove_packages_forgets_exactly_them() {
    let mut cache = sample_cache();
    cache.remove_packages(&strings(&["foo", "nothere", "foo"]));
    assert_eq!(cache.data.len(), 2);
    assert!(!cache.data.contains_key(&s("foo")));
    assert!(cache.data.contains_key(&s("app")));
    assert_eq!(cache.data.get(&s("glibc")).unwrap().db, "core");
}

#[test]
fn links_by_file_map_each_file() {
    let per_file = vec![(s("/usr/bin/a"), strings(&["/l/x.so"])), (s("/usr/share/b"), vec![]), (s("/usr/bin/c"), strings(&["/l/y.so", "/l/z.so"])), (s("/usr/bin/a"), strings(&["/l/w.so"]))];
    let m = so_dependencies_by_file(&per_file);
    assert_eq!(m.len(), 3);
    assert_eq!(m.get(&s("/usr/bin/c")).unwrap(), &strings(&["/l/y.so", "/l/z.so"]));
    assert_eq!(m.get(&s("/usr/bin/a")).unwrap(), &strings(&["/l/w.so"]));
    assert!(m.get(&s("/usr/share/b")).unwrap().is_empty());
}

#[test]
fn sorted_entry_sorts_lists() {
    let e = sorted_entry(strings(&["zlib", "glibc", "bash", "glibc"]), s("core"), strings(&["/b", "/a", "/ä", "/Z"]), AssocList::new());
    assert_eq!(e.dependencies, strings(&["bash", "glibc", "glibc", "zlib"]));
    assert_eq!(e.so_files, strings(&["/Z", "/a", "/b", "/ä"]));
    assert_eq!(e.db, "core");
}

#[test]
fn changed_objects_cover_old_and_new_versions() {
    let old = sample_cache();
    let mut changed: StringHashMap<String> = StringHashMap::new();
    accumulate_changed_so_files(&mut changed, &old, &s("foo"), &strings(&["/usr/lib/libfoo.so.2"]));
    assert_eq!(changed.get("/usr/lib/libfoo.so.2"), Some(&s("foo")));
    assert_eq!(changed.get("/usr/lib/libfoo.so.1"), Some(&s("foo")));
    assert_eq!(changed.len(), 2);
    accumulate_changed_so_files(&mut changed, &old, &s("new"), &vec![]);
    assert_eq!(changed.len(), 2);
}

#[test]
fn rescan_plan_names_files_linking_changed_objects() {
    let cache = sample_cache();
    let mut changed: StringHashMap<String> = StringHashMap::new();
    changed.insert(s("/usr/lib/libfoo.so.1"), s("foo"));
    let plan = execs_to_scan(&cache, &changed);
    assert_eq!(plan.len(), 1);
    assert_eq!(plan.get(&s("app")).unwrap(), &strings(&["/usr/bin/app"]));
    let empty: StringHashMap<String> = StringHashMap::new();
    assert_eq!(execs_to_scan(&cache, &empty).len(), 0);
}

#[test]
fn upgrade_step_records_entry_and_plans_rescans() {
    let old = sample_cache();
    let mut new_cache = sample_cache();
    let mut changed: StringHashMap<String> = StringHashMap::new();
    let plan = new_cache.upgrade_step(&old, &mut changed, s("glibc"), entry("core", &["/usr/lib/libc.so.7"], &[]));
    assert!(new_cache.data.get(&s("glibc")).unwrap().so_dependencies.len() == 0);
    assert_eq!(changed.len(), 2);
    assert_eq!(plan.len(), 1);
    assert_eq!(plan.get(&s("app")).unwrap(), &strings(&["/usr/bin/app"]));
}

#[test]
fn refresh_replaces_only_listed_known_files() {
    let mut cache = sample_cache();
    let fresh = links(&[("/usr/bin/app", &["/usr/lib/libfoo.so.2"]), ("/usr/bin/other", &["/x.so"])]);
    cache.refresh_so_dependencies(&s("app"), &strings(&["/usr/bin/app", "/usr/bin/gone"]), &fresh);
    let app = cache.data.get(&s("app")).unwrap();
    assert_eq!(app.so_dependencies.len(), 1);
    assert_eq!(app.so_dependencies.get(&s("/usr/bin/app")).unwrap(), &strings(&["/usr/lib/libfoo.so.2"]));
    cache.refresh_so_dependencies(&s("absent"), &strings(&["/usr/bin/app"]), &fresh);
    assert_eq!(cache.data.len(), 3);
}

#[test]
fn refresh_twice_is_refresh_once_and_keeps_other_files() {
    let mut cache = Cache::default();
    cache.insert_entry(s("app"), entry("unknown", &[], &[("/usr/bin/a", &["/old.so"]), ("/usr/bin/b", &["/keep.so"])]));
    let fresh = links(&[("/usr/bin/a", &["/new.so"]), ("/usr/bin/b", &["/other.so"])]);
    let files = strings(&["/usr/bin/a"]);
    cache.refresh_so_dependencies(&s("app"), &files, &fresh);
    cache.refresh_so_dependencies(&s("app"), &files, &fresh);
    let app = cache.data.get(&s("app")).unwrap();
    assert_eq!(app.so_dependencies.len(), 2);
    assert_eq!(app.so_dependencies.get(&s("/usr/bin/a")).unwrap(), &strings(&["/new.so"]));
    assert_eq!(app.so_dependencies.get(&s("/usr/bin/b")).unwrap(), &strings(&["/keep.so"]));
}

#[test]
fn install_then_remove_restores_the_cache() {
    let mut cache = sample_cache();
    cache.insert_entry(s("newpkg"), entry("extra", &["/usr/lib/libnew.so"], &[]));
    cache.remove_packages(&strings(&["newpkg"]));
    assert_eq!(cache.data.len(), 3);
    assert!(!cache.data.contains_key(&s("newpkg")));
    let mut aur = cache.get_aur_packages();
    aur.sort();
    assert_eq!(aur, strings(&["app", "foo"]));
}
