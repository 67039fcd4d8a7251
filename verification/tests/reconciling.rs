use void_updates::installed::installed_from_output;
use void_updates::installed::PackageSet;
use void_updates::reconcile::reconcile;
use void_updates::reconcile::Config;

#[test]
fn installed_name_splits_on_last_hyphen() {
    let s = installed_from_output("python3-3.11.4_1\n");
    assert!(s.contains("python3"));
    assert!(!s.contains("python3-3.11.4_1"));
}

#[test]
fn installed_name_keeps_earlier_hyphens() {
    let s = installed_from_output("foo-bar-1.0_1\n");
    assert!(s.contains("foo-bar"));
    assert!(!s.contains("foo"));
}

#[test]
fn line_without_hyphen_yields_no_name() {
    let s = installed_from_output("nohyphen\n");
    assert!(!s.contains("nohyphen"));
}

#[test]
fn trailing_hyphen_does_not_split() {
    let s = installed_from_output("dangling-\n");
    assert!(!s.contains("dangling"));
}

#[test]
fn package_set_insert_and_contains() {
    let mut s = PackageSet::new();
    assert!(!s.contains("a"));
    s.insert(String::from("a"));
    s.insert(String::from("a"));
    assert!(s.contains("a"));
    assert!(!s.contains("b"));
}

#[test]
fn filtering_keeps_installed_unmaintained_only() {
    let maintainer = "A 1.0 -> 2.0\n";
    let all = "A 1.0 -> 2.0\nB 1.0 -> 2.0\nC 1.0 -> 2.0\n";
    let r = reconcile(Some(maintainer), Some(all), "B-1.0_1\n");
    // A is maintainer-owned, C is not installed; only B remains
    assert!(r.installed.get("B").is_some());
    assert!(r.installed.get("A").is_none());
    assert!(r.installed.get("C").is_none());
    assert_eq!(r.installed.render(), "B\t1.0 -> 2.0\n");
    assert!(r.maintainer.get("A").is_some());
}

#[test]
fn failed_maintainer_fetch_degrades_to_empty_map() {
    let r = reconcile(None, Some("B 1.0 -> 2.0\n"), "B-1.0_1\n");
    assert!(r.maintainer.is_empty());
    assert!(!r.installed.is_empty());
    assert_eq!(r.installed.render(), "B\t1.0 -> 2.0\n");
}

#[test]
fn both_failed_fetches_yield_empty_maps() {
    let r = reconcile(None, None, "B-1.0_1\n");
    assert!(r.maintainer.is_empty());
    assert!(r.installed.is_empty());
}

#[test]
fn empty_result_after_filtering() {
    // the one reported package is neither installed nor maintained
    let r = reconcile(Some(""), Some("C 1.0 -> 2.0\n"), "B-1.0_1\n");
    assert!(r.maintainer.is_empty());
    assert!(r.installed.is_empty());
    assert_eq!(r.installed.render(), "");
}

#[test]
fn urls_are_built_from_config() {
    let config = Config {
        base_url: String::from("https://example.invalid/void-updates/void-updates"),
        email: String::from("someone@example.invalid"),
    };
    assert_eq!(
        config.maintainer_url(),
        "https://example.invalid/void-updates/void-updates/updates_someone@example.invalid.txt"
    );
    assert_eq!(
        config.all_updates_url(),
        "https://example.invalid/void-updates/void-updates.txt"
    );
}
