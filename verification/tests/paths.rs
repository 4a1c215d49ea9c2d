use foodcost::paths::display_path;
use std::path::PathBuf;

#[test]
fn a_path_as_text() {
    assert_eq!(display_path(&PathBuf::from("/tmp/4chef/4chef.db")), "/tmp/4chef/4chef.db");
    assert_eq!(display_path(&PathBuf::from("Units.csv")), "Units.csv");
    assert_eq!(display_path(&PathBuf::new()), "");
}

#[test]
fn a_path_with_letters_beyond_ascii() {
    assert_eq!(display_path(&PathBuf::from("/donn\u{e9}es/p\u{e2}te.csv")), "/donn\u{e9}es/p\u{e2}te.csv");
}

#[test]
fn the_same_path_gives_the_same_text() {
    let path = PathBuf::from("/srv/exports/Inv.csv");
    let copy = path.clone();
    assert_eq!(display_path(&path), display_path(&path));
    assert_eq!(display_path(&path), display_path(&copy));
    assert_ne!(display_path(&path), display_path(&PathBuf::from("/srv/exports/Units.csv")));
}
