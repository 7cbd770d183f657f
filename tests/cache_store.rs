use modcache::cache_file::{cache_file_name, config_file_name, game_of_file_name, last_updated, locate, parse_i64};
use modcache::catalog::{Catalog, SearchablePackage, VersionRecord};
use modcache::codec::{decode_entries, encode_catalog};
use modcache::package_key::NamespacedPackage;
use modcache::store::{load_catalog, plan_commit};
use modcache::version::Version;

fn entry(ns: &str, name: &str, deps: &[&str]) -> SearchablePackage {
    SearchablePackage {
        namespace: ns.to_string(),
        name: name.to_string(),
        categories: vec!["Server-side".to_string(), "Tools".to_string()],
        total_downloads: 12345,
        rating_score: 7,
        versions: vec![
            VersionRecord {
                ident: format!("{}-{}-1.0.0", ns, name),
                version: Version::new(1, 0, 0),
                description: "first".to_string(),
                dependencies: deps.iter().map(|d| d.to_string()).collect(),
            },
            VersionRecord {
                ident: format!("{}-{}-1.1.0", ns, name),
                version: Version::new(1, 1, 0),
                description: "second, with ünïcode".to_string(),
                dependencies: vec![],
            },
        ],
    }
}

fn same_entry(a: &SearchablePackage, b: &SearchablePackage) -> bool {
    a.namespace == b.namespace
        && a.name == b.name
        && a.categories == b.categories
        && a.total_downloads == b.total_downloads
        && a.rating_score == b.rating_score
        && a.versions.len() == b.versions.len()
        && a.versions.iter().zip(b.versions.iter()).all(|(x, y)| {
            x.ident == y.ident && x.version == y.version && x.description == y.description && x.dependencies == y.dependencies
        })
}

/// Applies a commit plan to an in-memory directory listing.
fn apply(dir: &mut Vec<(String, Vec<u8>)>, game: &str, seconds: i64, catalog: &Catalog) {
    let names: Vec<String> = dir.iter().map(|f| f.0.clone()).collect();
    let plan = plan_commit(game, &names, seconds, catalog);
    if let Some(i) = plan.remove {
        dir.remove(i);
    }
    dir.push((plan.file_name, plan.body));
}

#[test]
fn cache_file_names() {
    assert_eq!(cache_file_name("valve", 1000), "valve_1000.bin");
    assert_eq!(cache_file_name("lethal-company", -5), "lethal-company_-5.bin");
    assert_eq!(game_of_file_name("valve_1000.bin"), "valve");
    assert_eq!(game_of_file_name("nounderscore.bin"), "nounderscore.bin");
    assert_eq!(config_file_name("valve"), "requirements_valve.json");
}

#[test]
fn timestamp_read_back() {
    assert_eq!(last_updated("valve_1000.bin"), Some(1000));
    assert_eq!(last_updated("my_game_1700000000.bin"), Some(1700000000));
    assert_eq!(last_updated("valve_-86400.bin"), Some(-86400));
    assert_eq!(last_updated("1000.bin"), Some(1000));
}

#[test]
fn unparseable_timestamp_gives_none() {
    assert_eq!(last_updated("valve_abc.bin"), None);
    assert_eq!(last_updated("valve_.bin"), None);
    assert_eq!(last_updated("valve_1000"), None);
    assert_eq!(last_updated("valve_1000.txt"), None);
    assert_eq!(last_updated("valve_99999999999999999999.bin"), None);
    assert_eq!(last_updated("valve_9223372036854775807.bin"), None);
}

#[test]
fn integer_parsing() {
    assert_eq!(parse_i64("0"), Some(0));
    assert_eq!(parse_i64("+17"), Some(17));
    assert_eq!(parse_i64("-0042"), Some(-42));
    assert_eq!(parse_i64("9223372036854775807"), Some(i64::MAX));
    assert_eq!(parse_i64("-9223372036854775808"), Some(i64::MIN));
    assert_eq!(parse_i64("9223372036854775808"), None);
    assert_eq!(parse_i64("-"), None);
    assert_eq!(parse_i64("+"), None);
    assert_eq!(parse_i64(""), None);
    assert_eq!(parse_i64("1 "), None);
    assert_eq!(parse_i64("1_000"), None);
}

#[test]
fn locate_finds_first_for_game() {
    let names = vec!["other_5.bin".to_string(), "valve_10.bin".to_string(), "valve_20.bin".to_string()];
    assert_eq!(locate("valve", &names), Some(1));
    assert_eq!(locate("other", &names), Some(0));
    assert_eq!(locate("val", &names), None);
    assert_eq!(locate("valve", &vec![]), None);
}

#[test]
fn encode_then_decode_gives_same_entries() {
    let catalog = Catalog::from_entries(vec![entry("A", "One", &["B-Two-1.0.0"]), entry("B", "Two", &[])]);
    let bytes = encode_catalog(&catalog);
    let decoded = decode_entries(&bytes).unwrap();
    assert_eq!(decoded.len(), catalog.entries().len());
    for (a, b) in decoded.iter().zip(catalog.entries().iter()) {
        assert!(same_entry(a, b));
    }
}

#[test]
fn empty_catalog_round_trip() {
    let bytes = encode_catalog(&Catalog::new());
    assert_eq!(decode_entries(&bytes).unwrap().len(), 0);
    assert!(load_catalog(&bytes).is_empty());
}

#[test]
fn undecodable_body_gives_empty_catalog() {
    assert!(decode_entries(&[0xff, 0xff, 0xff]).is_none());
    assert!(load_catalog(&[0xff, 0xff, 0xff]).is_empty());
    assert!(load_catalog(&[]).is_empty());
}

#[test]
fn second_commit_replaces_first() {
    let c1 = Catalog::from_entries(vec![entry("A", "One", &[])]);
    let c2 = Catalog::from_entries(vec![entry("B", "Two", &[]), entry("C", "Three", &[])]);
    let mut dir: Vec<(String, Vec<u8>)> = vec![("other_1.bin".to_string(), vec![1, 2, 3])];
    apply(&mut dir, "valve", 1000, &c1);
    apply(&mut dir, "valve", 2000, &c2);
    let names: Vec<String> = dir.iter().map(|f| f.0.clone()).collect();
    assert_eq!(names.iter().filter(|n| game_of_file_name(n) == "valve").count(), 1);
    let i = locate("valve", &names).unwrap();
    assert_eq!(names[i], "valve_2000.bin");
    assert_eq!(last_updated(&names[i]), Some(2000));
    let loaded = load_catalog(&dir[i].1);
    assert_eq!(loaded.len(), 2);
    assert!(loaded.get(&NamespacedPackage::new("B", "Two")).is_some());
    assert!(loaded.get(&NamespacedPackage::new("A", "One")).is_none());
    assert_eq!(dir.iter().filter(|f| f.0 == "other_1.bin").count(), 1);
}

#[test]
fn corrupt_length_prefix_gives_empty_catalog() {
    let mut bytes = vec![253u8];
    bytes.extend_from_slice(&[0xff; 8]);
    assert!(decode_entries(&bytes).is_none());
    assert!(load_catalog(&bytes).is_empty());
    let mut huge = vec![252u8];
    huge.extend_from_slice(&[0xff, 0xff, 0xff, 0x7f]);
    assert!(decode_entries(&huge).is_none());
}

#[test]
fn chrono_range_limits() {
    assert_eq!(last_updated("g_-8334601228800.bin"), Some(-8334601228800));
    assert_eq!(last_updated("g_-8334601228801.bin"), None);
    assert_eq!(last_updated("g_8210266876799.bin"), Some(8210266876799));
    assert_eq!(last_updated("g_8210266876800.bin"), None);
}

#[test]
fn loaded_catalog_matches_committed_one() {
    let c = Catalog::from_entries(vec![entry("A", "One", &["X-Y-1.0.0"]), entry("B", "Two", &[])]);
    let loaded = load_catalog(&encode_catalog(&c));
    assert_eq!(loaded.len(), c.len());
    for e in c.entries() {
        let got = loaded.get(&e.key()).unwrap();
        assert!(same_entry(got, e));
    }
}
