use scrapbook_helper::backup::{restore_backup, should_fetch_online, ZHofBackup};
use scrapbook_helper::character::CharacterInfo;
use scrapbook_helper::crawler::CrawlingOrder;
use scrapbook_helper::db::PlayerDb;
use scrapbook_helper::crawler::WorkerQue;
use scrapbook_helper::QueID;

fn record(uid: u32, name: &str, level: u16, equipment: Vec<u64>) -> CharacterInfo {
    CharacterInfo {
        equipment,
        name: name.to_string(),
        uid,
        level,
        stats: Some(123),
        fetch_date: Some(738000),
        class: Some(3),
    }
}

#[test]
fn snapshot_folds_in_flight_back_into_todo() {
    let mut q = WorkerQue::new_fresh(QueID(1));
    q.todo_pages = vec![1, 2];
    q.push_todo_if_absent("busy".to_string());
    let _ = q.next_action();  // "busy" moves in flight
    let db = PlayerDb::new();
    let b = q.create_backup(&db);
    let mut pages = b.todo_pages.clone();
    pages.sort();
    assert_eq!(pages, vec![1, 2]);
    assert_eq!(b.todo_accounts, vec!["busy".to_string()]);
    assert!(b.export_time.is_some());
}

#[test]
fn strip_volatile_drops_stats_and_fetch_dates() {
    let mut q = WorkerQue::new_fresh(QueID(1));
    q.min_level = 5;
    q.max_level = 500;
    let mut db = PlayerDb::new();
    db.upsert(record(1, "alice", 50, vec![10, 20]));
    let mut b = q.create_backup(&db);
    b.strip_volatile();
    assert_eq!(b.characters.len(), 1);
    assert_eq!(b.characters[0].name, "alice");
    assert!(b.characters[0].stats.is_none());
    assert!(b.characters[0].fetch_date.is_none());
    assert_eq!(b.characters[0].equipment, vec![10, 20]);
}

#[test]
fn backup_round_trip_preserves_everything_but_volatile_fields() {
    // read(write(snapshot)) equals the snapshot, minus stats and dates
    let mut q = WorkerQue::new_fresh(QueID(1));
    q.todo_pages = vec![4];
    q.invalid_pages = vec![9];
    q.push_todo_if_absent("alice".to_string());
    q.set_order(CrawlingOrder::BottomUp);
    let mut db = PlayerDb::new();
    db.upsert(record(1, "alice", 50, vec![10, 20]));
    db.upsert(record(2, "bob", 60, vec![20, 30]));

    let mut b = q.create_backup(&db);
    b.strip_volatile();
    let data = restore_backup(Some(b), 0, QueID(2));

    let mut pages = data.queue.todo_pages.clone();
    pages.sort();
    assert_eq!(pages, vec![4]);
    assert_eq!(data.queue.invalid_pages, vec![9]);
    assert_eq!(data.queue.todo_accounts, vec!["alice".to_string()]);
    assert_eq!(data.queue.order, CrawlingOrder::BottomUp);
    assert_eq!(data.queue.que_id, QueID(2));

    assert_eq!(data.db.len(), 2);
    let alice = data.db.get(1).expect("alice survives the trip");
    assert_eq!(alice.name, "alice");
    assert_eq!(alice.level, 50);
    assert_eq!(alice.equipment, vec![10, 20]);
    assert!(alice.stats.is_none(), "stats are dropped on purpose");
    assert!(alice.fetch_date.is_none(), "fetch dates are dropped on purpose");
    // the index is rebuilt from scratch through the upsert path
    let owners = data.db.equipment.get(20).expect("shared item");
    assert!(owners.contains(1) && owners.contains(2));
}

#[test]
fn restore_without_a_backup_starts_cold() {
    let data = restore_backup(None, 3, QueID(7));
    let mut pages = data.queue.todo_pages.clone();
    pages.sort();
    assert_eq!(pages, vec![0, 1, 2]);
    assert!(data.queue.todo_accounts.is_empty());
    assert_eq!(data.db.len(), 0);
    assert_eq!(data.queue.que_id, QueID(7));
}

#[test]
fn restore_drops_duplicates_and_conflicts_from_a_corrupt_file() {
    let b = ZHofBackup {
        todo_pages: vec![1, 1, 2, 9],
        invalid_pages: vec![9, 9],
        todo_accounts: vec!["a".to_string(), "a".to_string(), "bad".to_string()],
        invalid_accounts: vec!["bad".to_string()],
        order: CrawlingOrder::TopDown,
        export_time: None,
        characters: vec![record(1, "x", 10, vec![5, 5])],
        lvl_skipped_accounts: Vec::new(),
        min_level: 1,
        max_level: 9999,
    };
    let data = restore_backup(Some(b), 0, QueID(1));
    let mut pages = data.queue.todo_pages.clone();
    pages.sort();
    assert_eq!(pages, vec![1, 2], "duplicates and invalid pages are dropped");
    assert_eq!(data.queue.invalid_pages, vec![9]);
    assert_eq!(data.queue.todo_accounts, vec!["a".to_string()]);
    assert_eq!(data.queue.invalid_accounts, vec!["bad".to_string()]);
    // a record with a doubled item is reduced to one entry
    assert_eq!(data.db.get(1).unwrap().equipment, vec![5]);
}

#[test]
fn later_records_win_on_restore() {
    let b = ZHofBackup {
        todo_pages: Vec::new(),
        invalid_pages: Vec::new(),
        todo_accounts: Vec::new(),
        invalid_accounts: Vec::new(),
        order: CrawlingOrder::Random,
        export_time: None,
        characters: vec![record(1, "old", 10, vec![5]), record(1, "new", 11, vec![6])],
        lvl_skipped_accounts: Vec::new(),
        min_level: 1,
        max_level: 9999,
    };
    let data = restore_backup(Some(b), 0, QueID(1));
    assert_eq!(data.db.len(), 1);
    assert_eq!(data.db.get(1).unwrap().name, "new");
    assert!(data.db.equipment.get(5).is_none());
    assert!(data.db.equipment.get(6).is_some());
}

#[test]
fn parked_accounts_survive_the_round_trip() {
    let mut q = WorkerQue::new_fresh(QueID(1));
    q.set_level_range(10, 100);
    q.absorb_discovered(&vec![("parked".to_string(), 300u32)], QueID(1));
    let db = PlayerDb::new();
    let b = q.create_backup(&db);
    let data = restore_backup(Some(b), 0, QueID(2));
    // widening the range after the restore reinstates the parked name
    let mut restored = data.queue;
    restored.set_level_range(10, 400);
    assert_eq!(restored.todo_accounts, vec!["parked".to_string()]);
}

#[test]
fn online_snapshot_wins_only_when_strictly_newer() {
    assert!(should_fetch_online(Some(100), Some(50)));
    assert!(!should_fetch_online(Some(50), Some(100)));
    assert!(!should_fetch_online(Some(50), Some(50)));
    assert!(should_fetch_online(Some(1), None));
    assert!(!should_fetch_online(None, Some(1)));
    assert!(!should_fetch_online(None, None));
}
