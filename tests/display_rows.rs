use modcache::catalog::SearchablePackage;
use modcache::display::{centered_cell, search_row};
use modcache::version::Version;

#[test]
fn cell_centres_with_smaller_share_left() {
    assert_eq!(centered_cell("ab", 7), "  ab   ");
    assert_eq!(centered_cell("abcd", 6), " abcd ");
    assert_eq!(centered_cell("toolong", 3), "toolong");
    assert_eq!(centered_cell("", 2), "  ");
}

#[test]
fn search_row_layout() {
    let p = SearchablePackage {
        namespace: "A".to_string(),
        name: "AVeryLongPackageNameIndeed".to_string(),
        categories: vec![],
        total_downloads: 1234,
        rating_score: 5,
        versions: vec![],
    };
    let row = search_row(&p);
    assert_eq!(row, format!("| {} |{}|{}|", "AVeryLongPackage", "      1234       ", "      5       "));
    assert_eq!(row.chars().count(), 1 + 18 + 1 + 17 + 1 + 14 + 1);
}

#[test]
fn version_text() {
    assert_eq!(Version::new(1, 2, 0).to_text(), "1.2.0");
    assert_eq!(Version::new(5, 4, 2100).to_text(), "5.4.2100");
}

fn with_downloads(name: &str, downloads: u64) -> SearchablePackage {
    SearchablePackage {
        namespace: "N".to_string(),
        name: name.to_string(),
        categories: vec![],
        total_downloads: downloads,
        rating_score: 0,
        versions: vec![],
    }
}

#[test]
fn most_downloaded_first_ties_in_order() {
    let entries = vec![
        with_downloads("a", 5),
        with_downloads("b", 50),
        with_downloads("c", 5),
        with_downloads("d", 0),
        with_downloads("e", 50),
    ];
    assert_eq!(modcache::display::by_downloads(&entries), vec![1, 4, 0, 2, 3]);
    assert_eq!(modcache::display::by_downloads(&vec![]), Vec::<usize>::new());
}
