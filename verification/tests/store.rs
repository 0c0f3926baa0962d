use diary2::page::{Page, WeekPage};
use diary2::storage::{integrate, EditedEntries};
use diary2::time::Timestamp;

fn ts(secs: i64, nanos: u32) -> Timestamp {
    Timestamp::new(secs, nanos).expect("timestamp in range")
}

fn page(id: &str, title: &str, text: &str, secs: i64) -> Page {
    Page {
        id: id.to_string(),
        title: title.to_string(),
        text: text.to_string(),
        hidden: false,
        created_at: ts(secs, 0),
        updated_at: vec![ts(secs, 0)],
    }
}

#[test]
fn write_into_missing_shard_creates_it() {
    let p = page("a", "first", "body", 1709719200);
    let wp = diary2::storage::write(None, p.clone());
    assert_eq!(wp.pages.len(), 1);
    assert!(wp.uploaded_at.is_none());
    assert_eq!(wp.pages[0].id, "a");
    assert_eq!(wp.pages[0].title, "first");
    assert_eq!(wp.pages[0].text, "body");
    assert_eq!(wp.pages[0].created_at, ts(1709719200, 0));
}

#[test]
fn write_clears_uploaded_at() {
    let mut wp = WeekPage::new();
    wp.uploaded_at = Some(ts(1709719200, 0));
    let out = diary2::storage::write(Some(wp), page("a", "t", "x", 1709719200));
    assert!(out.uploaded_at.is_none());
}

#[test]
fn write_replaces_page_with_same_created_at() {
    let p1 = page("a", "first", "one", 1709719200);
    let mut p2 = page("b", "second", "two", 1709719200);
    p2.hidden = true;
    let wp = diary2::storage::write(None, p1);
    let wp = diary2::storage::write(Some(wp), p2);
    assert_eq!(wp.pages.len(), 1);
    assert_eq!(wp.pages[0].id, "b");
    assert_eq!(wp.pages[0].title, "second");
    assert_eq!(wp.pages[0].text, "two");
    assert!(wp.pages[0].hidden);
}

#[test]
fn write_appends_page_with_new_created_at() {
    let wp = diary2::storage::write(None, page("a", "first", "one", 1709719200));
    let wp = diary2::storage::write(Some(wp), page("b", "second", "two", 1709719260));
    assert_eq!(wp.pages.len(), 2);
    assert_eq!(wp.pages[0].id, "a");
    assert_eq!(wp.pages[1].id, "b");
}

#[test]
fn integrate_is_conflict_biased_union() {
    let local = WeekPage {
        pages: vec![page("1", "local title", "local text", 1709719200)],
        uploaded_at: None,
    };
    let remote = WeekPage {
        pages: vec![
            page("1", "remote title", "remote text", 1709719200),
            page("2", "other", "elsewhere", 1709719260),
        ],
        uploaded_at: Some(ts(1709800000, 0)),
    };
    let merged = integrate(local, remote);
    assert_eq!(merged.pages.len(), 2);
    assert_eq!(merged.pages[0].id, "1");
    assert_eq!(merged.pages[0].title, "remote title");
    assert_eq!(merged.pages[0].text, "remote text");
    assert_eq!(merged.pages[1].id, "2");
    assert_eq!(merged.uploaded_at, Some(ts(1709800000, 0)));
}

#[test]
fn integrate_appends_local_only_pages() {
    let local = WeekPage {
        pages: vec![
            page("1", "shared", "local copy", 1709719200),
            page("3", "mine", "local only", 1709719800),
        ],
        uploaded_at: None,
    };
    let remote = WeekPage { pages: vec![page("1", "shared", "remote copy", 1709719200)], uploaded_at: None };
    let merged = integrate(local, remote);
    assert_eq!(merged.pages.len(), 2);
    assert_eq!(merged.pages[0].text, "remote copy");
    assert_eq!(merged.pages[1].id, "3");
    assert_eq!(merged.pages[1].text, "local only");
}

#[test]
fn integrate_of_empty_local_keeps_remote() {
    let local = WeekPage::new();
    let remote = WeekPage { pages: vec![page("9", "r", "r", 1709719200)], uploaded_at: None };
    let merged = integrate(local, remote);
    assert_eq!(merged.pages.len(), 1);
    assert_eq!(merged.pages[0].id, "9");
}

#[test]
fn edited_entries_record_and_clear() {
    let mut e = EditedEntries::new();
    assert!(e.page_files.is_empty());
    assert!(e.image_files.is_empty());
    assert!(e.insert_page_file("2024-03-03-2024-03-09.json".to_string()));
    assert!(!e.insert_page_file("2024-03-03-2024-03-09.json".to_string()));
    assert!(e.insert_image_file("cat.png".to_string()));
    assert_eq!(e.page_files.len(), 1);
    assert_eq!(e.image_files.len(), 1);
    e.clear();
    assert!(e.page_files.is_empty());
    assert!(e.image_files.is_empty());
}

#[test]
fn mark_uploaded_stamps_without_touching_pages() {
    let wp = diary2::storage::write(None, page("a", "t", "x", 1709719200));
    let stamped = diary2::storage::mark_uploaded(wp, ts(1709800000, 5));
    assert_eq!(stamped.uploaded_at, Some(ts(1709800000, 5)));
    assert_eq!(stamped.pages.len(), 1);
    assert_eq!(stamped.pages[0].id, "a");
}
