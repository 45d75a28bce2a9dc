use pastestore::errors::StoreError;
use pastestore::migrate::{initial_migrations, Migration};
use pastestore::store::Store;

fn setup() -> Store {
    let mut s = Store::new();
    s.run_migrations(&initial_migrations()).unwrap();
    s
}

#[test]
fn create_then_get_roundtrip() {
    let mut s = setup();
    let id = s.create(vec![1, 2, 3], 77).unwrap();
    let p = s.get(id).unwrap();
    assert_eq!(p.value, vec![1, 2, 3]);
    assert_eq!(p.created_at, 77);
    assert_eq!(p.last_used_at, p.created_at);
}

#[test]
fn create_empty_fails_and_inserts_nothing() {
    let mut s = setup();
    assert_eq!(s.create(vec![], 1), Err(StoreError::ValidationError));
    assert!(s.list(pastestore::listing::PasteOrder::CreatedAt, 10, 0).is_empty());
    let id = s.create(vec![9], 2).unwrap();
    // the failed insert consumed no id
    assert_eq!(s.create(vec![8], 3).unwrap(), id + 1);
}

#[test]
fn touch_updates_last_used_only() {
    let mut s = setup();
    let id = s.create(vec![5], 10).unwrap();
    s.touch(id, 99).unwrap();
    let p = s.get(id).unwrap();
    assert_eq!(p.created_at, 10);
    assert_eq!(p.last_used_at, 99);
    assert_eq!(s.touch(id + 1, 100), Err(StoreError::NotFoundError));
}

#[test]
fn get_missing_fails() {
    let s = setup();
    assert!(matches!(s.get(42), Err(StoreError::NotFoundError)));
}

#[test]
fn attach_twice_conflicts_and_changes_nothing() {
    let mut s = setup();
    let p = s.create(vec![1], 0).unwrap();
    let t = s.get_or_create("work".to_string(), 0).unwrap();
    s.attach(p, t).unwrap();
    let before: Vec<u64> = s.list_for_paste(p).unwrap().iter().map(|x| x.id).collect();
    assert_eq!(s.attach(p, t), Err(StoreError::ConflictError));
    let after: Vec<u64> = s.list_for_paste(p).unwrap().iter().map(|x| x.id).collect();
    assert_eq!(before, after);
    assert_eq!(after, vec![t]);
}

#[test]
fn attach_missing_ids_fail() {
    let mut s = setup();
    let p = s.create(vec![1], 0).unwrap();
    let t = s.get_or_create("a".to_string(), 0).unwrap();
    assert_eq!(s.attach(p + 1, t), Err(StoreError::NotFoundError));
    assert_eq!(s.attach(p, t + 1), Err(StoreError::NotFoundError));
}

#[test]
fn get_or_create_same_name_yields_one_tag() {
    let mut s = setup();
    let a = s.get_or_create("x".to_string(), 1).unwrap();
    let b = s.get_or_create("x".to_string(), 2).unwrap();
    assert_eq!(a, b);
    // only one row was created: the next new name takes the next id
    let c = s.get_or_create("y".to_string(), 3).unwrap();
    assert_eq!(c, a + 1);
}

#[test]
fn get_or_create_empty_name_fails() {
    let mut s = setup();
    assert_eq!(s.get_or_create(String::new(), 0), Err(StoreError::ValidationError));
}

#[test]
fn attach_order_is_attachment_order() {
    let mut s = setup();
    let p = s.create(vec![1], 0).unwrap();
    let t1 = s.get_or_create("t1".to_string(), 0).unwrap();
    let t2 = s.get_or_create("t2".to_string(), 0).unwrap();
    let t3 = s.get_or_create("t3".to_string(), 0).unwrap();
    s.attach(p, t1).unwrap();
    s.attach(p, t2).unwrap();
    s.attach(p, t3).unwrap();
    let ids: Vec<u64> = s.list_for_paste(p).unwrap().iter().map(|x| x.id).collect();
    assert_eq!(ids, vec![t1, t2, t3]);
}

#[test]
fn reorder_changes_listing_order() {
    let mut s = setup();
    let p = s.create(vec![1], 0).unwrap();
    let t1 = s.get_or_create("t1".to_string(), 0).unwrap();
    let t2 = s.get_or_create("t2".to_string(), 0).unwrap();
    let t3 = s.get_or_create("t3".to_string(), 0).unwrap();
    s.attach(p, t1).unwrap();
    s.attach(p, t2).unwrap();
    s.attach(p, t3).unwrap();
    s.reorder(p, &vec![t3, t1, t2]).unwrap();
    let ids: Vec<u64> = s.list_for_paste(p).unwrap().iter().map(|x| x.id).collect();
    assert_eq!(ids, vec![t3, t1, t2]);
}

#[test]
fn reorder_rejects_wrong_sets() {
    let mut s = setup();
    let p = s.create(vec![1], 0).unwrap();
    let t1 = s.get_or_create("t1".to_string(), 0).unwrap();
    let t2 = s.get_or_create("t2".to_string(), 0).unwrap();
    s.attach(p, t1).unwrap();
    s.attach(p, t2).unwrap();
    // missing a member
    assert_eq!(s.reorder(p, &vec![t1]), Err(StoreError::ValidationError));
    // a stranger in the set
    assert_eq!(s.reorder(p, &vec![t1, t2 + 7]), Err(StoreError::ValidationError));
    // duplicates
    assert_eq!(s.reorder(p, &vec![t1, t1]), Err(StoreError::ValidationError));
    // unknown paste
    assert_eq!(s.reorder(p + 1, &vec![t1, t2]), Err(StoreError::NotFoundError));
    // the failed calls left the order alone
    let ids: Vec<u64> = s.list_for_paste(p).unwrap().iter().map(|x| x.id).collect();
    assert_eq!(ids, vec![t1, t2]);
}

#[test]
fn detach_leaves_gaps_and_keeps_order() {
    let mut s = setup();
    let p = s.create(vec![1], 0).unwrap();
    let t1 = s.get_or_create("t1".to_string(), 0).unwrap();
    let t2 = s.get_or_create("t2".to_string(), 0).unwrap();
    let t3 = s.get_or_create("t3".to_string(), 0).unwrap();
    s.attach(p, t1).unwrap();
    s.attach(p, t2).unwrap();
    s.detach(p, t1).unwrap();
    s.attach(p, t3).unwrap();
    let ids: Vec<u64> = s.list_for_paste(p).unwrap().iter().map(|x| x.id).collect();
    assert_eq!(ids, vec![t2, t3]);
    assert_eq!(s.detach(p, t1), Err(StoreError::NotFoundError));
}

#[test]
fn delete_paste_cascades_and_listing_reports_absence() {
    let mut s = setup();
    let p = s.create(vec![1], 0).unwrap();
    let keep = s.create(vec![2], 0).unwrap();
    let t = s.get_or_create("t".to_string(), 0).unwrap();
    s.attach(p, t).unwrap();
    s.attach(keep, t).unwrap();
    s.delete_paste(p).unwrap();
    assert!(matches!(s.list_for_paste(p), Err(StoreError::NotFoundError)));
    assert!(matches!(s.get(p), Err(StoreError::NotFoundError)));
    // the other paste keeps its tag
    let ids: Vec<u64> = s.list_for_paste(keep).unwrap().iter().map(|x| x.id).collect();
    assert_eq!(ids, vec![t]);
    assert_eq!(s.delete_paste(p), Err(StoreError::NotFoundError));
}

#[test]
fn delete_tag_cascades_without_deleting_pastes() {
    let mut s = setup();
    let p1 = s.create(vec![1], 0).unwrap();
    let p2 = s.create(vec![2], 0).unwrap();
    let doomed = s.get_or_create("doomed".to_string(), 0).unwrap();
    let stays = s.get_or_create("stays".to_string(), 0).unwrap();
    s.attach(p1, doomed).unwrap();
    s.attach(p1, stays).unwrap();
    s.attach(p2, doomed).unwrap();
    s.delete_tag(doomed).unwrap();
    let ids1: Vec<u64> = s.list_for_paste(p1).unwrap().iter().map(|x| x.id).collect();
    let ids2: Vec<u64> = s.list_for_paste(p2).unwrap().iter().map(|x| x.id).collect();
    assert_eq!(ids1, vec![stays]);
    assert_eq!(ids2, Vec::<u64>::new());
    // the pastes themselves survive
    assert!(s.get(p1).is_ok());
    assert!(s.get(p2).is_ok());
    assert_eq!(s.delete_tag(doomed), Err(StoreError::NotFoundError));
}

#[test]
fn migrations_run_twice_are_a_no_op() {
    let mut s = Store::new();
    let ms = initial_migrations();
    assert_eq!(s.run_migrations(&ms), Ok(()));
    let v1 = s.schema_version;
    assert_eq!(s.run_migrations(&ms), Ok(()));
    assert_eq!(s.schema_version, v1);
    assert_eq!(v1, 1);
}

#[test]
fn migrations_out_of_order_are_rejected_whole() {
    let mut s = Store::new();
    let ms = vec![
        Migration { version: 2, description: "second".to_string() },
        Migration { version: 1, description: "first".to_string() },
    ];
    assert_eq!(s.run_migrations(&ms), Err(StoreError::MigrationError));
    assert_eq!(s.schema_version, 0);
}
