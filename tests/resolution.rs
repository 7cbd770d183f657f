use modcache::catalog::{Catalog, SearchablePackage, VersionRecord};
use modcache::package_key::NamespacedPackage;
use modcache::requirements::Requirements;
use modcache::update::{display_order, update_target};
use modcache::version::{requirement_admits, requirement_is_valid, Version};

fn record(ns: &str, name: &str, major: u64, minor: u64, patch: u64) -> VersionRecord {
    VersionRecord {
        ident: format!("{}-{}-{}.{}.{}", ns, name, major, minor, patch),
        version: Version::new(major, minor, patch),
        description: format!("release {}.{}.{}", major, minor, patch),
        dependencies: vec![],
    }
}

fn package(ns: &str, name: &str, versions: Vec<VersionRecord>) -> SearchablePackage {
    SearchablePackage {
        namespace: ns.to_string(),
        name: name.to_string(),
        categories: vec!["Mods".to_string()],
        total_downloads: 10,
        rating_score: 3,
        versions,
    }
}

fn three_versions() -> Catalog {
    Catalog::from_entries(vec![package(
        "AuthorA",
        "ModX",
        vec![record("AuthorA", "ModX", 1, 0, 0), record("AuthorA", "ModX", 2, 0, 0), record("AuthorA", "ModX", 1, 2, 0)],
    )])
}

fn requirements(pairs: &[(&str, &str)]) -> Requirements {
    Requirements::from_pairs(pairs.iter().map(|(k, v)| (k.to_string(), v.to_string())).collect())
}

#[test]
fn caret_constraint_picks_highest_compatible() {
    let catalog = three_versions();
    let reqs = requirements(&[("AuthorA/ModX", "^1.0")]);
    let key = NamespacedPackage::new("AuthorA", "ModX");
    let latest = reqs.get_latest_version(&catalog, &key).unwrap();
    assert_eq!(latest.version, Version::new(1, 2, 0));
    assert_eq!(latest.ident, "AuthorA-ModX-1.2.0");
}

#[test]
fn unsatisfiable_constraint_gives_none() {
    let catalog = three_versions();
    let reqs = requirements(&[("AuthorA/ModX", ">=3.0")]);
    let key = NamespacedPackage::new("AuthorA", "ModX");
    assert!(reqs.get_latest_version(&catalog, &key).is_none());
}

#[test]
fn package_missing_from_catalog_gives_none() {
    let catalog = three_versions();
    let reqs = requirements(&[("AuthorA/ModX", "*"), ("Other/Thing", "*")]);
    let key = NamespacedPackage::new("Other", "Thing");
    assert!(reqs.get_latest_version(&catalog, &key).is_none());
    assert!(reqs.get_latest_version(&Catalog::new(), &key).is_none());
}

#[test]
fn package_without_requirement_gives_none() {
    let catalog = three_versions();
    let reqs = requirements(&[("Other/Thing", "*")]);
    let key = NamespacedPackage::new("AuthorA", "ModX");
    assert!(reqs.get_latest_version(&catalog, &key).is_none());
    assert!(Requirements::new().get_latest_version(&catalog, &key).is_none());
}

#[test]
fn range_constraint_picks_within_range() {
    let catalog = three_versions();
    let reqs = requirements(&[("AuthorA/ModX", ">=1.1.0, <3.0.0")]);
    let key = NamespacedPackage::new("AuthorA", "ModX");
    assert_eq!(reqs.get_latest_version(&catalog, &key).unwrap().version, Version::new(2, 0, 0));
}

#[test]
fn malformed_document_gives_empty_requirements() {
    let catalog = three_versions();
    let key = NamespacedPackage::new("AuthorA", "ModX");
    let bad_key = requirements(&[("AuthorA/ModX", "*"), ("NoSlash", "*")]);
    assert!(bad_key.requirement_for(&key).is_none());
    let bad_req = requirements(&[("AuthorA/ModX", "not a requirement")]);
    assert!(bad_req.requirement_for(&key).is_none());
    assert!(bad_req.get_latest_version(&catalog, &key).is_none());
}

#[test]
fn later_declaration_stands() {
    let reqs = requirements(&[("AuthorA/ModX", "^1.0"), ("AuthorA/ModX", "^2.0")]);
    let key = NamespacedPackage::new("AuthorA", "ModX");
    assert_eq!(reqs.requirement_for(&key).unwrap(), "^2.0");
    let catalog = three_versions();
    let latest = reqs.get_latest_version(&catalog, &key).unwrap();
    assert_eq!(latest.version, Version::new(2, 0, 0));
}

#[test]
fn catalog_keeps_later_entry_for_same_package() {
    let first = package("A", "M", vec![record("A", "M", 1, 0, 0)]);
    let second = package("A", "M", vec![record("A", "M", 3, 0, 0)]);
    let other = package("B", "N", vec![]);
    let catalog = Catalog::from_entries(vec![first, other, second]);
    assert_eq!(catalog.len(), 2);
    let entry = catalog.get(&NamespacedPackage::new("A", "M")).unwrap();
    assert_eq!(entry.versions[0].version, Version::new(3, 0, 0));
    assert!(catalog.get(&NamespacedPackage::new("B", "N")).is_some());
    assert!(catalog.get(&NamespacedPackage::new("C", "O")).is_none());
}

#[test]
fn older_install_is_flagged_with_target() {
    let catalog = three_versions();
    let reqs = requirements(&[("AuthorA/ModX", "^1.0")]);
    let key = NamespacedPackage::new("AuthorA", "ModX");
    let target = update_target(&reqs, &catalog, &key, &Version::new(1, 0, 0)).unwrap();
    assert_eq!(target.version, Version::new(1, 2, 0));
}

#[test]
fn newer_install_is_not_flagged() {
    let catalog = three_versions();
    let reqs = requirements(&[("AuthorA/ModX", "^1.0")]);
    let key = NamespacedPackage::new("AuthorA", "ModX");
    assert!(update_target(&reqs, &catalog, &key, &Version::new(2, 0, 0)).is_none());
    assert!(update_target(&reqs, &catalog, &key, &Version::new(1, 2, 0)).is_none());
}

#[test]
fn updatable_entries_come_last() {
    assert_eq!(display_order(&vec![true, false, true, false, false]), vec![1, 3, 4, 0, 2]);
    assert_eq!(display_order(&vec![]), Vec::<usize>::new());
}

#[test]
fn version_parse_and_order() {
    assert_eq!(Version::parse("1.2.3"), Some(Version::new(1, 2, 3)));
    assert_eq!(Version::parse("5.4.2100"), Some(Version::new(5, 4, 2100)));
    assert_eq!(Version::parse("1.2.3-beta"), None);
    assert_eq!(Version::parse("1.2"), None);
    assert_eq!(Version::parse("x"), None);
    assert!(Version::new(1, 9, 9).is_older_than(&Version::new(2, 0, 0)));
    assert!(Version::new(1, 2, 0).is_older_than(&Version::new(1, 2, 1)));
    assert!(!Version::new(1, 2, 1).is_older_than(&Version::new(1, 2, 1)));
}

#[test]
fn requirement_texts() {
    assert!(requirement_is_valid("^1.2.0"));
    assert!(requirement_is_valid(">=2.0.0, <3.0.0"));
    assert!(!requirement_is_valid("not a requirement"));
    assert!(requirement_admits("^1.2", &Version::new(1, 5, 0)));
    assert!(!requirement_admits("^1.2", &Version::new(2, 0, 0)));
    assert!(!requirement_admits("garbage", &Version::new(1, 0, 0)));
}

#[test]
fn server_side_tag() {
    let mut entry = package("A", "M", vec![]);
    assert!(!entry.is_server_mod());
    entry.categories.push("Server-side".to_string());
    assert!(entry.is_server_mod());
    assert_eq!(entry.key().to_text(), "A/M");
}

#[test]
fn newest_version_of_package() {
    let p = package(
        "A",
        "M",
        vec![record("A", "M", 1, 0, 0), record("A", "M", 2, 1, 0), record("A", "M", 2, 0, 5)],
    );
    assert_eq!(p.latest_version().unwrap().version, Version::new(2, 1, 0));
    assert!(package("A", "M", vec![]).latest_version().is_none());
}

#[test]
fn version_record_from_text() {
    let rec = VersionRecord::from_text("A-M-1.4.2".to_string(), "1.4.2", "d".to_string(), vec!["B-N-1.0.0".to_string()]).unwrap();
    assert_eq!(rec.version, Version::new(1, 4, 2));
    assert_eq!(rec.ident, "A-M-1.4.2");
    assert_eq!(rec.dependencies, vec!["B-N-1.0.0".to_string()]);
    assert!(VersionRecord::from_text("x".to_string(), "1.4.2-rc.1", String::new(), vec![]).is_none());
}

#[test]
fn defaults_are_empty() {
    assert!(Catalog::default().is_empty());
    let key = NamespacedPackage::new("AuthorA", "ModX");
    assert!(Requirements::default().requirement_for(&key).is_none());
}
