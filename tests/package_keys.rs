use modcache::package_key::NamespacedPackage;
use modcache::update::key_from_folder_name;

#[test]
fn parse_then_text_is_identity() {
    for text in ["AuthorA/ModX", "a/b", "Some Author/Some.Mod_2"] {
        let key = NamespacedPackage::value_parser(text).unwrap();
        assert_eq!(key.to_text(), text);
    }
}

#[test]
fn parse_splits_namespace_and_name() {
    let key = NamespacedPackage::value_parser("AuthorA/ModX").unwrap();
    assert_eq!(key.namespace(), "AuthorA");
    assert_eq!(key.name(), "ModX");
    assert!(key == NamespacedPackage::new("AuthorA", "ModX"));
}

#[test]
fn parse_rejects_missing_slash() {
    assert!(NamespacedPackage::value_parser("AuthorA").is_err());
    assert!(NamespacedPackage::value_parser("").is_err());
}

#[test]
fn parse_rejects_two_slashes() {
    assert!(NamespacedPackage::value_parser("a/b/c").is_err());
    assert!(NamespacedPackage::value_parser("a//b").is_err());
}

#[test]
fn parse_rejects_empty_segment() {
    assert!(NamespacedPackage::value_parser("/b").is_err());
    assert!(NamespacedPackage::value_parser("a/").is_err());
    assert!(NamespacedPackage::value_parser("/").is_err());
}

#[test]
fn new_keeps_parts_as_given() {
    let key = NamespacedPackage::new("", "x");
    assert_eq!(key.namespace(), "");
    assert_eq!(key.name(), "x");
    assert_eq!(key.to_text(), "/x");
}

#[test]
fn folder_name_gives_package() {
    let key = key_from_folder_name("BepInEx-BepInExPack-5.4.2100").unwrap();
    assert_eq!(key.namespace(), "BepInEx");
    assert_eq!(key.name(), "BepInExPack");
    let key = key_from_folder_name("Author-Mod").unwrap();
    assert_eq!(key.to_text(), "Author/Mod");
}

#[test]
fn folder_name_without_dash_is_skipped() {
    assert!(key_from_folder_name("plugins").is_none());
    assert!(key_from_folder_name("").is_none());
}
