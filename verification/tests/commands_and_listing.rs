use pastestore::errors::{should_retry, StoreError};
use pastestore::listing::{contains_bytes, PasteOrder};
use pastestore::migrate::initial_migrations;
use pastestore::shell::{shell_step, ShellAction, ShellEvent, WindowState};
use pastestore::store::Store;

fn setup() -> Store {
    let mut s = Store::new();
    s.run_migrations(&initial_migrations()).unwrap();
    s
}

#[test]
fn tag_command_creates_and_attaches() {
    let mut s = setup();
    let p = s.create(vec![1], 0).unwrap();
    let t = s.tag(p, "urgent".to_string(), 5).unwrap();
    let ids: Vec<u64> = s.list_for_paste(p).unwrap().iter().map(|x| x.id).collect();
    assert_eq!(ids, vec![t]);
    // same name again on the same paste: the pair already exists
    assert_eq!(s.tag(p, "urgent".to_string(), 6), Err(StoreError::ConflictError));
    // same name on another paste reuses the tag
    let p2 = s.create(vec![2], 0).unwrap();
    let t2 = s.tag(p2, "urgent".to_string(), 7).unwrap();
    assert_eq!(t, t2);
    assert_eq!(s.tag(p, String::new(), 8), Err(StoreError::ValidationError));
    assert_eq!(s.tag(p + 99, "x".to_string(), 8), Err(StoreError::NotFoundError));
}

#[test]
fn untag_command_detaches_by_name() {
    let mut s = setup();
    let p = s.create(vec![1], 0).unwrap();
    s.tag(p, "a".to_string(), 0).unwrap();
    s.tag(p, "b".to_string(), 0).unwrap();
    s.untag(p, &"a".to_string()).unwrap();
    let names: Vec<String> = s.list_for_paste(p).unwrap().iter().map(|x| x.name.clone()).collect();
    assert_eq!(names, vec!["b".to_string()]);
    assert_eq!(s.untag(p, &"a".to_string()), Err(StoreError::NotFoundError));
    assert_eq!(s.untag(p, &"nope".to_string()), Err(StoreError::NotFoundError));
}

#[test]
fn reorder_tags_command_follows_names() {
    let mut s = setup();
    let p = s.create(vec![1], 0).unwrap();
    s.tag(p, "a".to_string(), 0).unwrap();
    s.tag(p, "b".to_string(), 0).unwrap();
    s.tag(p, "c".to_string(), 0).unwrap();
    s.reorder_tags(p, &vec!["c".to_string(), "a".to_string(), "b".to_string()]).unwrap();
    let names: Vec<String> = s.list_for_paste(p).unwrap().iter().map(|x| x.name.clone()).collect();
    assert_eq!(names, vec!["c".to_string(), "a".to_string(), "b".to_string()]);
    assert_eq!(
        s.reorder_tags(p, &vec!["c".to_string(), "ghost".to_string()]),
        Err(StoreError::NotFoundError)
    );
    assert_eq!(
        s.reorder_tags(p, &vec!["c".to_string(), "a".to_string()]),
        Err(StoreError::ValidationError)
    );
}

#[test]
fn list_orders_and_pages() {
    let mut s = setup();
    let a = s.create(vec![1], 30).unwrap();
    let b = s.create(vec![2], 10).unwrap();
    let c = s.create(vec![3], 20).unwrap();
    let by_created: Vec<u64> =
        s.list(PasteOrder::CreatedAt, 10, 0).iter().map(|p| p.id).collect();
    assert_eq!(by_created, vec![b, c, a]);
    // recalling b refreshes it to the newest
    s.touch(b, 99).unwrap();
    let by_used: Vec<u64> =
        s.list(PasteOrder::LastUsedAt, 10, 0).iter().map(|p| p.id).collect();
    assert_eq!(by_used, vec![c, a, b]);
    // paging
    let page: Vec<u64> = s.list(PasteOrder::CreatedAt, 1, 1).iter().map(|p| p.id).collect();
    assert_eq!(page, vec![c]);
    let beyond: Vec<u64> = s.list(PasteOrder::CreatedAt, 5, 9).iter().map(|p| p.id).collect();
    assert_eq!(beyond, Vec::<u64>::new());
}

#[test]
fn list_breaks_timestamp_ties_by_id() {
    let mut s = setup();
    let a = s.create(vec![1], 7).unwrap();
    let b = s.create(vec![2], 7).unwrap();
    let ids: Vec<u64> = s.list(PasteOrder::CreatedAt, 10, 0).iter().map(|p| p.id).collect();
    assert_eq!(ids, vec![a, b]);
}

#[test]
fn recall_filters_by_substring_and_carries_tags() {
    let mut s = setup();
    let hit = s.create(b"hello world".to_vec(), 1).unwrap();
    let miss = s.create(b"nothing here".to_vec(), 2).unwrap();
    let t = s.tag(hit, "greet".to_string(), 3).unwrap();
    let needle = b"lo wo".to_vec();
    let got = s.recall(Some(&needle), PasteOrder::CreatedAt, 10, 0);
    assert_eq!(got.len(), 1);
    assert_eq!(got[0].0.id, hit);
    assert_eq!(got[0].1.iter().map(|x| x.id).collect::<Vec<u64>>(), vec![t]);
    let all = s.recall(None, PasteOrder::CreatedAt, 10, 0);
    assert_eq!(all.iter().map(|e| e.0.id).collect::<Vec<u64>>(), vec![hit, miss]);
}

#[test]
fn contains_bytes_matches_exact_substrings() {
    assert!(contains_bytes(&b"abcdef".to_vec(), &b"cde".to_vec()));
    assert!(contains_bytes(&b"abcdef".to_vec(), &b"".to_vec()));
    assert!(contains_bytes(&b"abcdef".to_vec(), &b"abcdef".to_vec()));
    assert!(!contains_bytes(&b"abcdef".to_vec(), &b"cdf".to_vec()));
    assert!(!contains_bytes(&b"ab".to_vec(), &b"abc".to_vec()));
    assert!(!contains_bytes(&b"".to_vec(), &b"a".to_vec()));
}

#[test]
fn shell_state_machine_table() {
    let hidden = WindowState::Hidden;
    let visible = WindowState::Visible;
    assert_eq!(shell_step(hidden, ShellEvent::TrayToggle), (visible, ShellAction::ShowWindow));
    assert_eq!(shell_step(visible, ShellEvent::TrayToggle), (hidden, ShellAction::HideWindow));
    assert_eq!(shell_step(hidden, ShellEvent::HotkeyToggle), (visible, ShellAction::ShowWindow));
    assert_eq!(shell_step(visible, ShellEvent::HotkeyToggle), (hidden, ShellAction::HideWindow));
    assert_eq!(shell_step(visible, ShellEvent::FocusLost), (hidden, ShellAction::HideWindow));
    assert_eq!(shell_step(hidden, ShellEvent::FocusLost), (hidden, ShellAction::Stay));
    assert_eq!(shell_step(visible, ShellEvent::MenuQuit), (visible, ShellAction::Quit));
    assert_eq!(shell_step(hidden, ShellEvent::MenuQuit), (hidden, ShellAction::Quit));
}

#[test]
fn retry_policy_only_retries_busy_within_budget() {
    assert!(should_retry(StoreError::StoreBusyError, 0, 3));
    assert!(should_retry(StoreError::StoreBusyError, 2, 3));
    assert!(!should_retry(StoreError::StoreBusyError, 3, 3));
    assert!(!should_retry(StoreError::ValidationError, 0, 3));
    assert!(!should_retry(StoreError::NotFoundError, 0, 3));
    assert!(!should_retry(StoreError::ConflictError, 0, 3));
    assert!(!should_retry(StoreError::MigrationError, 0, 3));
}

#[test]
fn error_labels_are_stable() {
    assert_eq!(StoreError::ValidationError.label(), "validation error");
    assert_eq!(StoreError::NotFoundError.label(), "not found");
    assert_eq!(StoreError::ConflictError.label(), "conflict");
    assert_eq!(StoreError::StoreBusyError.label(), "store busy");
    assert_eq!(StoreError::MigrationError.label(), "migration error");
}
