use bk_over_ssh::index_store::{decide_upsert, DbAction, MemIndexStore, RemoteFileItemInDb};

fn row(dir_id: i64, path: &str, len: u64, sha1: Option<&str>, changed: bool) -> RemoteFileItemInDb {
    RemoteFileItemInDb {
        id: 0,
        path: path.to_string(),
        sha1: sha1.map(|s| s.to_string()),
        len,
        modified: Some("1970-01-01T00:01:01+00:00".to_string()),
        created: None,
        dir_id,
        changed,
    }
}

fn paths(n: usize) -> Vec<String> {
    (0..n).map(|i| format!("f{:02}abcdefghijklmnopqrstuvwxyz0123456789ABCDEFGHIJKL", i)).collect()
}

#[test]
fn t_individual_insert() {
    let mut db_access = MemIndexStore::new();
    let dir_id = db_access.insert_directory("abc");
    let mut lines = Vec::new();
    for (idx, p) in paths(10).into_iter().enumerate() {
        let mut it = row(dir_id, &p, 55, None, false);
        if idx == 2 {
            let mut it1 = it.duplicate_self();
            it1.len = it.len + 1;
            lines.push(it);
            lines.push(it1);
        } else if idx == 4 {
            let it1 = it.duplicate_self();
            it.changed = true;
            lines.push(it);
            lines.push(it1);
        } else {
            lines.push(it);
        }
    }
    let _c = lines
        .into_iter()
        .filter_map(|line| db_access.insert_or_update_remote_file_item(line, false))
        .count();
}

#[test]
fn individual_insert_flags_only_differing_observations() {
    let mut store = MemIndexStore::new();
    let dir_id = store.insert_directory("abc");
    let ps = paths(3);
    let (_, a) = store.insert_or_update_remote_file_item(row(dir_id, &ps[0], 55, None, false), false).unwrap();
    assert_eq!(a, DbAction::Insert);
    let (r, a) = store.insert_or_update_remote_file_item(row(dir_id, &ps[0], 56, None, false), false).unwrap();
    assert_eq!(a, DbAction::Update);
    assert!(r.changed);
    assert_eq!(r.id, 1);
    assert_eq!(store.count_remote_file_item(Some(true)), 1);
    let (r, a) = store.insert_or_update_remote_file_item(row(dir_id, &ps[0], 56, None, false), false).unwrap();
    assert_eq!(a, DbAction::UpdateChangedField);
    assert!(!r.changed);
    assert_eq!(store.count_remote_file_item(Some(true)), 0);
    let (_, a) = store.insert_or_update_remote_file_item(row(dir_id, &ps[0], 56, None, false), false).unwrap();
    assert_eq!(a, DbAction::NoOp);
    let (_, a) = store.insert_or_update_remote_file_item(row(dir_id, &ps[0], 56, Some("ab"), false), false).unwrap();
    assert_eq!(a, DbAction::Update);
    assert_eq!(store.count_remote_file_item(None), 1);
}

#[test]
fn insert_into_unknown_directory_is_refused() {
    let mut store = MemIndexStore::new();
    assert!(store.insert_or_update_remote_file_item(row(7, "a.txt", 5, None, false), false).is_none());
    assert_eq!(store.count_remote_file_item(None), 0);
}

#[test]
fn directory_insert_is_idempotent() {
    let mut store = MemIndexStore::new();
    let a = store.insert_directory("/srv/a");
    let b = store.insert_directory("/srv/b");
    let a2 = store.insert_directory("/srv/a");
    assert_eq!(a, 1);
    assert_eq!(b, 2);
    assert_eq!(a2, a);
    assert_eq!(store.count_directory(), 2);
    assert_eq!(store.find_directory("/srv/b"), Some(2));
    assert_eq!(store.find_directory("/srv/c"), None);
}

#[test]
fn batch_upserts_are_written_in_one_go() {
    let mut store = MemIndexStore::new();
    let dir_id = store.insert_directory("abc");
    let mut intents = Vec::new();
    for p in paths(10) {
        let (r, a) = store.insert_or_update_remote_file_item(row(dir_id, &p, 55, None, false), true).unwrap();
        assert_eq!(a, DbAction::Insert);
        intents.push((r, a));
    }
    assert_eq!(store.count_remote_file_item(None), 0);
    assert!(store.execute_batch(&intents));
    assert_eq!(store.count_remote_file_item(None), 10);
    assert_eq!(store.count_remote_file_item(Some(false)), 10);
}

#[test]
fn refused_batch_leaves_store_unchanged() {
    let mut store = MemIndexStore::new();
    let dir_id = store.insert_directory("abc");
    let ps = paths(2);
    let (r0, a0) = store.insert_or_update_remote_file_item(row(dir_id, &ps[0], 1, None, false), true).unwrap();
    let (r1, a1) = store.insert_or_update_remote_file_item(row(dir_id, &ps[0], 1, None, false), true).unwrap();
    assert!(!store.execute_batch(&vec![(r0, a0), (r1, a1)]));
    assert_eq!(store.count_remote_file_item(None), 0);
}

#[test]
fn fresh_pull_then_repeat_flags_nothing() {
    // First run: two new files; second run with the same observations changes nothing.
    let mut store = MemIndexStore::new();
    let dir_id = store.insert_directory("/remote/dir");
    let items = vec![
        row(dir_id, "a.txt", 5, Some("AAF4C61DDCC5E8A2DABEDE0F3B482CD9AEA9434D"), false),
        row(dir_id, "sub/b.bin", 1024, Some("60CACBF3D72E1E7834203DA608037B1BF83B40E8"), false),
    ];
    for it in &items {
        let (_, a) = store.insert_or_update_remote_file_item(it.duplicate_self(), false).unwrap();
        assert_eq!(a, DbAction::Insert);
    }
    assert_eq!(store.count_remote_file_item(Some(false)), 2);
    for it in &items {
        let (_, a) = store.insert_or_update_remote_file_item(it.duplicate_self(), false).unwrap();
        assert_eq!(a, DbAction::NoOp);
    }
    assert_eq!(store.count_remote_file_item(Some(true)), 0);
    assert_eq!(store.count_remote_file_item(Some(false)), 2);
}

#[test]
fn decide_upsert_without_stored_row_inserts_as_given() {
    let (r, a) = decide_upsert(None, row(1, "x", 3, None, true));
    assert_eq!(a, DbAction::Insert);
    assert!(r.changed);
    assert_eq!(r.len, 3);
}

#[test]
fn found_row_matches_stored_values() {
    let mut store = MemIndexStore::new();
    let d = store.insert_directory("d");
    store.insert_or_update_remote_file_item(row(d, "a", 9, Some("x"), false), false).unwrap();
    let f = store.find_remote_file_item(d, "a").unwrap();
    assert_eq!(f.len, 9);
    assert_eq!(f.sha1.as_deref(), Some("x"));
    assert_eq!(f.id, 1);
    assert!(store.find_remote_file_item(d, "b").is_none());
}

#[test]
fn schedule_records_follow_open_record_rule() {
    let mut store = MemIndexStore::new();
    let id = store.insert_next_execute("servers/a.yml", "sync", 100).unwrap();
    assert!(store.insert_next_execute("servers/a.yml", "sync", 200).is_none());
    assert_eq!(store.find_next_execute("servers/a.yml", "sync"), Some((id, 100, false)));
    assert!(store.update_next_execute_done(id));
    let id2 = store.insert_next_execute("servers/a.yml", "sync", 200).unwrap();
    assert_eq!(store.find_next_execute("servers/a.yml", "sync"), Some((id2, 200, false)));
    assert_eq!(store.count_next_execute(), 2);
    assert!(store.delete_next_execute(id));
    assert!(!store.delete_next_execute(id));
    assert_eq!(store.count_next_execute(), 1);
    assert_eq!(store.find_next_execute("servers/b.yml", "sync"), None);
}

#[test]
fn listing_groups_rows_under_directories() {
    let mut store = MemIndexStore::new();
    let d1 = store.insert_directory("/a");
    let d2 = store.insert_directory("/b");
    store.insert_or_update_remote_file_item(row(d2, "x", 1, None, false), false).unwrap();
    store.insert_or_update_remote_file_item(row(d1, "y", 2, None, false), false).unwrap();
    store.insert_or_update_remote_file_item(row(d2, "z", 3, None, false), false).unwrap();
    let l = store.iterate_files_by_directory();
    let shape: Vec<String> = l
        .iter()
        .map(|e| match e {
            (None, Some(p)) => format!("dir {}", p),
            (Some(r), None) => format!("file {}", r.path),
            _ => "other".to_string(),
        })
        .collect();
    assert_eq!(shape, vec!["dir /a", "file y", "dir /b", "file x", "file z"]);
}

#[test]
fn first_rows_are_listed() {
    let mut store = MemIndexStore::new();
    let d = store.insert_directory("abc");
    for p in paths(10) {
        store.insert_or_update_remote_file_item(row(d, &p, 55, None, false), false).unwrap();
    }
    let mut rfis = store.get_file_item(2);
    assert_eq!(rfis.len(), 2);
    rfis[0].len = 333;
    let (r, a) = store.insert_or_update_remote_file_item(rfis.remove(0), false).unwrap();
    assert_eq!(a, DbAction::Update);
    assert!(r.changed);
    assert_eq!(store.count_remote_file_item(Some(true)), 1);
    assert_eq!(store.get_file_item(100).len(), 10);
}
