use finder::walk::process_walk;
use finder::walk::walk_dir;
use finder::walk::WalkError;
use finder::walk::WalkItem;

#[test]
fn unreadable_entry_is_skipped() {
    let items = vec![
        WalkItem::Entry("root".to_string()),
        WalkItem::Entry("root/a".to_string()),
        WalkItem::Unreadable,
        WalkItem::Entry("root/b".to_string()),
    ];
    let r = process_walk(&items).expect("walk with readable root succeeds");
    assert!(!r.is_empty());
    assert_eq!(r, vec!["root".to_string(), "root/a".to_string(), "root/b".to_string()]);
}

#[test]
fn unreadable_root_fails_the_walk() {
    let items = vec![WalkItem::Unreadable];
    let r = process_walk(&items);
    assert_eq!(r, Err(WalkError::RootUnreadable));
}

#[test]
fn empty_walk_yields_no_entries() {
    let items: Vec<WalkItem> = Vec::new();
    let r = process_walk(&items).expect("an empty walk is not a root failure");
    assert!(r.is_empty());
}

#[test]
fn walk_dir_of_missing_root_errs() {
    let r = walk_dir("this/path/does/not/exist/anywhere");
    assert_eq!(r, Err(WalkError::RootUnreadable));
}

#[test]
fn walk_dir_of_current_directory_lists_entries() {
    let r = walk_dir(".").expect("the current directory is readable");
    assert!(!r.is_empty());
    assert!(r.iter().any(|p| p == "."));
}
