use diary2::page::{PageV1, WeekPageV1};
use diary2::storage::{
    classify_image_action, classify_page_action, convert_week_page_v1_to_v2,
    generate_backup_dir_path, generate_backup_dir_path_not_exists, get_file_map, FileState,
    StoreError, SyncAction,
};
use diary2::time::Timestamp;

fn state(local: bool, remote: bool, edited: bool) -> FileState {
    FileState { exists_on_local: local, exists_on_remote: remote, is_edited: edited }
}

#[test]
fn classifier_accepts_only_table_rows() {
    assert_eq!(classify_page_action(state(false, true, false)), Ok(SyncAction::Download));
    assert_eq!(classify_page_action(state(true, false, true)), Ok(SyncAction::Upload));
    assert_eq!(classify_page_action(state(true, true, true)), Ok(SyncAction::Merge));
    // the three reachable illegal combinations must abort, not pass
    assert_eq!(classify_page_action(state(true, true, false)), Err(StoreError::InvalidFileState));
    assert_eq!(classify_page_action(state(false, false, false)), Err(StoreError::InvalidFileState));
    assert_eq!(classify_page_action(state(false, true, true)), Err(StoreError::InvalidFileState));
    assert_eq!(classify_page_action(state(false, false, true)), Err(StoreError::InvalidFileState));
    assert_eq!(classify_page_action(state(true, false, false)), Err(StoreError::InvalidFileState));
}

#[test]
fn image_classifier_uploads_on_both_sides_changed() {
    assert_eq!(classify_image_action(state(true, true, true)), Ok(SyncAction::Upload));
    assert_eq!(classify_image_action(state(false, true, false)), Ok(SyncAction::Download));
    assert_eq!(classify_image_action(state(true, false, true)), Ok(SyncAction::Upload));
    assert_eq!(classify_image_action(state(true, true, false)), Err(StoreError::InvalidFileState));
}

#[test]
fn file_map_classifies_each_name() {
    let local = vec!["a.json".to_string(), "b.json".to_string(), "c.json".to_string()];
    let edited = vec!["b.json".to_string(), "c.json".to_string()];
    let remote = vec!["a.json".to_string(), "b.json".to_string(), "d.json".to_string()];
    let map = get_file_map(&local, &edited, &remote).expect("well-formed store");
    // a.json: on both sides, untouched locally: nothing to do, left out
    assert!(!map.iter().any(|e| e.0 == "a.json"));
    // b.json: on both sides and edited: merge material
    let b = map.iter().find(|e| e.0 == "b.json").expect("b classified");
    assert_eq!(b.1, state(true, true, true));
    // c.json: edited and unknown remotely: upload material
    let c = map.iter().find(|e| e.0 == "c.json").expect("c classified");
    assert_eq!(c.1, state(true, false, true));
    // d.json: remote only: download material
    let d = map.iter().find(|e| e.0 == "d.json").expect("d classified");
    assert_eq!(d.1, state(false, true, false));
    assert_eq!(map.len(), 3);
}

#[test]
fn file_map_rejects_edited_file_missing_locally() {
    let local = vec!["a.json".to_string()];
    let edited = vec!["gone.json".to_string()];
    let remote: Vec<String> = Vec::new();
    assert_eq!(get_file_map(&local, &edited, &remote), Err(StoreError::EditedFileMissingLocally));
}

#[test]
fn file_map_rejects_remote_edited_file_missing_locally() {
    let local: Vec<String> = Vec::new();
    let edited = vec!["x.json".to_string()];
    let remote = vec!["x.json".to_string()];
    assert_eq!(get_file_map(&local, &edited, &remote), Err(StoreError::EditedFileMissingLocally));
}

#[test]
fn backup_dir_names_count_up() {
    assert_eq!(generate_backup_dir_path("backup", 1), "backup_1");
    assert_eq!(generate_backup_dir_path("backup", 12), "backup_12");
    assert_eq!(generate_backup_dir_path("backup", 305), "backup_305");
}

#[test]
fn backup_allocation_picks_smallest_unused() {
    let none: Vec<String> = Vec::new();
    assert_eq!(generate_backup_dir_path_not_exists(&none, "backup"), ("backup_1".to_string(), 1));
    let taken = vec!["backup_1".to_string(), "backup_2".to_string(), "pages".to_string()];
    assert_eq!(generate_backup_dir_path_not_exists(&taken, "backup"), ("backup_3".to_string(), 3));
    let gap = vec!["backup_1".to_string(), "backup_3".to_string()];
    assert_eq!(generate_backup_dir_path_not_exists(&gap, "backup"), ("backup_2".to_string(), 2));
}

#[test]
fn migration_keeps_content_and_draws_fresh_ids() {
    let t = Timestamp::new(1709719200, 0).expect("in range");
    let v1 = WeekPageV1 {
        pages: vec![
            PageV1 {
                title: "one".to_string(),
                text: "first body".to_string(),
                hidden: false,
                created_at: t,
                updated_at: vec![t],
            },
            PageV1 {
                title: "two".to_string(),
                text: "second body".to_string(),
                hidden: true,
                created_at: t,
                updated_at: vec![t, t],
            },
        ],
        uploaded_at: Some(t),
    };
    let again = WeekPageV1 { pages: v1.pages.clone(), uploaded_at: v1.uploaded_at };
    let v2 = convert_week_page_v1_to_v2(v1);
    assert_eq!(v2.pages.len(), 2);
    assert_eq!(v2.uploaded_at, Some(t));
    assert_eq!(v2.pages[0].title, "one");
    assert_eq!(v2.pages[0].text, "first body");
    assert!(!v2.pages[0].hidden);
    assert_eq!(v2.pages[1].title, "two");
    assert!(v2.pages[1].hidden);
    assert_eq!(v2.pages[1].updated_at.len(), 2);
    assert_eq!(v2.pages[0].id.len(), 36);
    assert_eq!(v2.pages[1].id.len(), 36);
    assert_ne!(v2.pages[0].id, v2.pages[1].id);

    // the upgrade is not idempotent: a second run over the same data draws
    // new identifiers, so it must stay gated by the stored schema version
    let v2_again = convert_week_page_v1_to_v2(again);
    assert_ne!(v2.pages[0].id, v2_again.pages[0].id);
    assert_ne!(v2.pages[1].id, v2_again.pages[1].id);
    assert_eq!(v2_again.pages[0].title, "one");
}
