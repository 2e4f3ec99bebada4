use sfsb::cache::{apply_refresh, watch_step, CacheStore, DataUpdateEvent, WatchAction};
use sfsb::dir_cache::{BuildError, CacheEntry, DirEntry, FileEntry};
use sfsb::dir_view::{DirectoryViewTemplate, FetchQuery, SortDirection, SortKey};
use sfsb::utils::{cmp_ignore_case_utf8, content_type_from_extension, extension_of};

fn file(name: &str, size: u64) -> CacheEntry {
    CacheEntry::File(FileEntry {
        name: name.to_owned(),
        created: "2024-01-01 [00:00:00]".to_owned(),
        size,
    })
}

fn file_at(name: &str, size: u64, created: &str) -> CacheEntry {
    CacheEntry::File(FileEntry {
        name: name.to_owned(),
        created: created.to_owned(),
        size,
    })
}

fn dir(name: &str, children: Vec<CacheEntry>) -> CacheEntry {
    CacheEntry::Dir(DirEntry {
        name: name.to_owned(),
        created: "2024-01-01 [00:00:00]".to_owned(),
        children,
    })
}

fn query(key: SortKey, direction: SortDirection) -> FetchQuery {
    FetchQuery { sort_key: key, sort_direction: direction, aria2: None }
}

fn names(entries: &[CacheEntry]) -> Vec<&str> {
    entries.iter().map(|e| e.name()).collect()
}

#[test]
fn entries_sort_by_name_ascending() {
    let entries = vec![file("b", 1), file("a", 2), file("c", 0)];
    let view = DirectoryViewTemplate::new(&vec![], entries, query(SortKey::Name, SortDirection::Ascending));
    assert_eq!(names(&view.entries), vec!["a", "b", "c"]);
}

#[test]
fn entries_sort_by_name_descending() {
    let entries = vec![file("b", 1), file("a", 2), file("c", 0)];
    let view = DirectoryViewTemplate::new(&vec![], entries, query(SortKey::Name, SortDirection::Descending));
    assert_eq!(names(&view.entries), vec!["c", "b", "a"]);
}

#[test]
fn entries_sort_by_size_with_name_ties() {
    let entries = vec![file("b", 5), file("a", 5), file("c", 1)];
    let view = DirectoryViewTemplate::new(&vec![], entries, query(SortKey::Size, SortDirection::Ascending));
    assert_eq!(names(&view.entries), vec!["c", "a", "b"]);
}

#[test]
fn entries_sort_by_date_with_name_ties() {
    let entries = vec![
        file_at("b", 1, "2024-02-01 [00:00:00]"),
        file_at("a", 1, "2024-01-01 [00:00:00]"),
        file_at("c", 1, "2024-01-01 [00:00:00]"),
    ];
    let view = DirectoryViewTemplate::new(&vec![], entries, query(SortKey::Date, SortDirection::Ascending));
    assert_eq!(names(&view.entries), vec!["a", "c", "b"]);
}

#[test]
fn entries_sort_directories_after_files_by_child_count() {
    let entries = vec![
        dir("two", vec![file("x", 1), file("y", 1)]),
        file("plain", 9),
        dir("one", vec![file("z", 1)]),
    ];
    let view = DirectoryViewTemplate::new(
        &vec![],
        entries,
        query(SortKey::ChildrenCount, SortDirection::Ascending),
    );
    assert_eq!(names(&view.entries), vec!["plain", "one", "two"]);
}

#[test]
fn root_view_has_no_parent_and_no_anchors() {
    let view = DirectoryViewTemplate::new(&vec![], vec![], query(SortKey::Name, SortDirection::Ascending));
    assert_eq!(view.parent_directory, None);
    assert_eq!(view.list_of_anchors, "");
    assert_eq!(view.display_dirname, "");
    assert_eq!(view.encoded_dirname, "");
}

#[test]
fn nested_view_links_each_ancestor() {
    let path = vec!["docs".to_owned(), "api".to_owned()];
    let view = DirectoryViewTemplate::new(&path, vec![], query(SortKey::Name, SortDirection::Ascending));
    assert_eq!(view.parent_directory, Some("docs".to_owned()));
    assert_eq!(view.display_dirname, "docs/api/");
    assert_eq!(view.encoded_dirname, "docs/api/");
    assert_eq!(
        view.list_of_anchors,
        "<a href=\"/browse/docs\"><strong>docs</strong></a> / \
         <a href=\"/browse/docs/api\"><strong>api</strong></a>"
    );
}

#[test]
fn view_percent_encodes_names_for_links() {
    let path = vec!["my docs".to_owned()];
    let view = DirectoryViewTemplate::new(&path, vec![], query(SortKey::Name, SortDirection::Ascending));
    assert_eq!(view.display_dirname, "my docs/");
    assert_eq!(view.encoded_dirname, "my%20docs/");
    assert_eq!(
        view.list_of_anchors,
        "<a href=\"/browse/my%20docs\"><strong>my docs</strong></a>"
    );
}

#[test]
fn top_level_view_has_the_root_as_parent() {
    let path = vec!["docs".to_owned()];
    let view = DirectoryViewTemplate::new(&path, vec![], query(SortKey::Name, SortDirection::Ascending));
    assert_eq!(view.parent_directory, Some("".to_owned()));
}

#[test]
fn entry_names_are_percent_encoded_for_links() {
    let f = file("hello world.txt", 1);
    assert_eq!(f.name_url_encoded(), "hello%20world.txt");
    assert_eq!(f.name(), "hello world.txt");
}

#[test]
fn aria2_flag_reflects_query() {
    let with = FetchQuery {
        sort_key: SortKey::Name,
        sort_direction: SortDirection::Ascending,
        aria2: Some("".to_owned()),
    };
    assert!(with.aria2());
    let without = query(SortKey::Name, SortDirection::Ascending);
    assert!(!without.aria2());
}

#[test]
fn sort_defaults_are_name_ascending() {
    assert_eq!(SortKey::default(), SortKey::Name);
    assert_eq!(SortDirection::default(), SortDirection::Ascending);
}

#[test]
fn case_insensitive_order_folds_case() {
    assert_eq!(cmp_ignore_case_utf8("A", "a"), std::cmp::Ordering::Equal);
    assert_eq!(cmp_ignore_case_utf8("b", "A"), std::cmp::Ordering::Greater);
    assert_eq!(cmp_ignore_case_utf8("Apple", "apricot"), std::cmp::Ordering::Less);
    assert_eq!(cmp_ignore_case_utf8("a", "ab"), std::cmp::Ordering::Less);
    assert_eq!(cmp_ignore_case_utf8("ÅNGSTRÖM", "ångström"), std::cmp::Ordering::Equal);
}

#[test]
fn extensions_follow_the_last_dot() {
    assert_eq!(extension_of("a.txt"), Some("txt".to_owned()));
    assert_eq!(extension_of("archive.tar.gz"), Some("gz".to_owned()));
    assert_eq!(extension_of("a."), Some("".to_owned()));
    assert_eq!(extension_of("plain"), None);
    assert_eq!(extension_of(".hidden"), None);
    assert_eq!(extension_of(".hidden.swp"), Some("swp".to_owned()));
}

#[test]
fn content_types_come_from_the_dotted_table() {
    // the table's keys carry a leading dot; a bare extension, as a path
    // yields it, falls through to plain text
    assert_eq!(content_type_from_extension(Some(".css")), "text/css");
    assert_eq!(content_type_from_extension(Some(".html")), "text/html");
    assert_eq!(content_type_from_extension(Some(".7z")), "application/x-7z-compressed");
    assert_eq!(content_type_from_extension(Some("css")), "text/plain");
    assert_eq!(content_type_from_extension(Some("weird")), "text/plain");
    assert_eq!(content_type_from_extension(None), "text/plain");
}

#[test]
fn cache_store_starts_empty_and_replaces_whole_snapshots() {
    let mut store = CacheStore::new();
    assert_eq!(store.read(), vec![]);
    let snapshot = vec![file("a.txt", 10)];
    store.replace(snapshot);
    let seen = store.read();
    assert_eq!(seen.len(), 1);
    assert_eq!(seen[0].name(), "a.txt");
}

#[test]
fn watcher_refreshes_on_events_and_stops_on_shutdown() {
    assert_eq!(watch_step(Some(DataUpdateEvent::FsNotify)), WatchAction::Refresh);
    assert_eq!(watch_step(Some(DataUpdateEvent::Shutdown)), WatchAction::Stop);
    assert_eq!(watch_step(None), WatchAction::Stop);
}

#[test]
fn failed_refresh_keeps_the_previous_snapshot() {
    let mut store = CacheStore::new();
    store.replace(vec![file("keep.txt", 1)]);
    let (refreshed, err) = apply_refresh(&mut store, Err(BuildError::InvalidName));
    assert!(!refreshed);
    assert_eq!(err, Some(BuildError::InvalidName));
    let seen = store.read();
    assert_eq!(seen.len(), 1);
    assert_eq!(seen[0].name(), "keep.txt");
}

#[test]
fn successful_refresh_replaces_the_snapshot() {
    let mut store = CacheStore::new();
    store.replace(vec![file("old.txt", 1)]);
    let (refreshed, err) = apply_refresh(&mut store, Ok(vec![file("new.txt", 2)]));
    assert!(refreshed);
    assert!(err.is_none());
    let seen = store.read();
    assert_eq!(seen.len(), 1);
    assert_eq!(seen[0].name(), "new.txt");
}
