use scrapbook_helper::character::CharacterInfo;
use scrapbook_helper::db::{handle_new_char_info, PlayerDb};

fn record(uid: u32, name: &str, level: u16, equipment: Vec<u64>) -> CharacterInfo {
    CharacterInfo {
        equipment,
        name: name.to_string(),
        uid,
        level,
        stats: Some(100),
        fetch_date: Some(738000),
        class: Some(1),
    }
}

fn owners_of(db: &PlayerDb, item: u64) -> Vec<u64> {
    match db.equipment.get(item) {
        Some(set) => {
            let mut out = Vec::new();
            let mut i = 0;
            while i < set.len() {
                out.push(set.at(i));
                i += 1;
            }
            out.sort();
            out
        }
        None => Vec::new(),
    }
}

#[test]
fn upsert_inserts_a_record_and_indexes_its_items() {
    let mut db = PlayerDb::new();
    db.upsert(record(1, "alice", 50, vec![1000, 2000]));
    assert_eq!(db.len(), 1);
    assert_eq!(db.get(1).unwrap().name, "alice");
    assert_eq!(owners_of(&db, 1000), vec![1]);
    assert_eq!(owners_of(&db, 2000), vec![1]);
}

#[test]
fn upsert_removes_superseded_ownership() {
    let mut db = PlayerDb::new();
    db.upsert(record(1, "alice", 50, vec![1000]));
    db.upsert(record(1, "alice", 51, vec![2000]));
    // the index never holds ownership by a superseded record
    assert!(owners_of(&db, 1000).is_empty());
    assert_eq!(owners_of(&db, 2000), vec![1]);
    assert_eq!(db.len(), 1);
    assert_eq!(db.get(1).unwrap().level, 51);
}

#[test]
fn upsert_is_idempotent_on_the_index() {
    // upserting the same record twice leaves index owner-sets unchanged
    let mut db = PlayerDb::new();
    db.upsert(record(1, "alice", 50, vec![1000, 2000]));
    db.upsert(record(2, "bob", 60, vec![1000]));
    let before_1000 = owners_of(&db, 1000);
    let before_2000 = owners_of(&db, 2000);
    db.upsert(record(1, "alice", 50, vec![1000, 2000]));
    assert_eq!(owners_of(&db, 1000), before_1000);
    assert_eq!(owners_of(&db, 2000), before_2000);
}

#[test]
fn two_owners_share_an_item() {
    let mut db = PlayerDb::new();
    db.upsert(record(1, "alice", 50, vec![1000]));
    db.upsert(record(2, "bob", 60, vec![1000]));
    assert_eq!(owners_of(&db, 1000), vec![1, 2]);
}

#[test]
fn low_equipment_high_level_players_are_bucketed() {
    let mut db = PlayerDb::new();
    // three items, level 150: a lure candidate
    db.upsert(record(1, "naked", 150, vec![1, 2, 3]));
    // four items: too well equipped
    db.upsert(record(2, "dressed", 150, vec![1, 2, 3, 4]));
    // level below the floor
    db.upsert(record(3, "lowbie", 50, vec![1]));
    let bucket = db.naked.get(150).expect("level 150 bucket");
    assert!(bucket.contains(1));
    assert!(!bucket.contains(2));
    assert!(db.naked.get(50).is_none());
}

#[test]
fn refreshing_a_record_moves_its_bucket_entry() {
    let mut db = PlayerDb::new();
    db.upsert(record(1, "naked", 150, vec![1]));
    assert!(db.naked.get(150).is_some());
    // now fully dressed: the bucket entry disappears
    db.upsert(record(1, "naked", 150, vec![1, 2, 3, 4, 5]));
    assert!(db.naked.get(150).is_none());
}

#[test]
fn handle_new_char_info_feeds_the_same_path() {
    let mut db = PlayerDb::new();
    handle_new_char_info(record(7, "gail", 80, vec![500]), &mut db);
    assert_eq!(db.get(7).unwrap().name, "gail");
    assert_eq!(owners_of(&db, 500), vec![7]);
}
