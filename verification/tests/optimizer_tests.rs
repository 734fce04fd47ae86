use scrapbook_helper::character::{build_character_info, CharacterInfo};
use scrapbook_helper::db::PlayerDb;
use scrapbook_helper::idset::IdSet;
use scrapbook_helper::optimizer::{
    arena_fight_allowed, calc_per_player_count, find_best, optimal_order, pick_auto_target,
    update_best_lures, AttackTarget, ScrapbookInfo, UnderworldInfo,
};
use scrapbook_helper::vecmap::VecMap;

fn record(uid: u32, name: &str, level: u16, stats: u32, equipment: Vec<u64>) -> CharacterInfo {
    CharacterInfo {
        equipment,
        name: name.to_string(),
        uid,
        level,
        stats: Some(stats),
        fetch_date: Some(738000),
        class: Some(1),
    }
}

fn no_blacklist() -> VecMap<(String, usize)> {
    VecMap::new()
}

#[test]
fn per_player_counts_with_shared_item() {
    // scenario: item X owned by A and B, the local player owns nothing
    let mut db = PlayerDb::new();
    db.upsert(record(1, "a", 50, 100, vec![5000]));
    db.upsert(record(2, "b", 50, 50, vec![5000]));
    let owned = IdSet::new();
    let counts = calc_per_player_count(&db, &owned, 9999, u32::MAX, &no_blacklist(), 3);
    assert_eq!(counts.get(1).copied(), Some(1));
    assert_eq!(counts.get(2).copied(), Some(1));
}

#[test]
fn equal_counts_rank_by_ascending_stats() {
    let mut db = PlayerDb::new();
    db.upsert(record(1, "strong", 50, 100, vec![5000]));
    db.upsert(record(2, "weak", 50, 50, vec![5000]));
    let owned = IdSet::new();
    let counts = calc_per_player_count(&db, &owned, 9999, u32::MAX, &no_blacklist(), 3);
    let best = find_best(&counts, &db, 10, &Vec::new());
    assert_eq!(best.len(), 2);
    assert_eq!(best[0].info.name, "weak");
    assert_eq!(best[1].info.name, "strong");
}

#[test]
fn owned_items_do_not_count() {
    let mut db = PlayerDb::new();
    db.upsert(record(1, "a", 50, 100, vec![5000, 6000]));
    let mut owned = IdSet::new();
    owned.insert(5000);
    let counts = calc_per_player_count(&db, &owned, 9999, u32::MAX, &no_blacklist(), 3);
    assert_eq!(counts.get(1).copied(), Some(1));
    owned.insert(6000);
    let counts = calc_per_player_count(&db, &owned, 9999, u32::MAX, &no_blacklist(), 3);
    // a player missing nothing is left out entirely
    assert!(counts.get(1).is_none());
}

#[test]
fn npc_only_items_do_not_count() {
    // model number 100 sits in bits 8..24: code 100 * 256
    let npc_item: u64 = 100 * 256;
    let normal_item: u64 = 99 * 256;
    let mut db = PlayerDb::new();
    db.upsert(record(1, "a", 50, 100, vec![npc_item, normal_item]));
    let owned = IdSet::new();
    let counts = calc_per_player_count(&db, &owned, 9999, u32::MAX, &no_blacklist(), 3);
    assert_eq!(counts.get(1).copied(), Some(1));
}

#[test]
fn level_and_stats_ceilings_filter_players() {
    let mut db = PlayerDb::new();
    db.upsert(record(1, "high", 200, 100, vec![5000]));
    db.upsert(record(2, "strong", 50, 100000, vec![5000]));
    db.upsert(record(3, "fine", 50, 100, vec![5000]));
    let owned = IdSet::new();
    let counts = calc_per_player_count(&db, &owned, 100, 1000, &no_blacklist(), 3);
    assert!(counts.get(1).is_none());
    assert!(counts.get(2).is_none());
    assert!(counts.get(3).is_some());
}

#[test]
fn blacklist_threshold_excludes_at_the_bound() {
    // scenario: three losses against A; threshold 3 excludes, 4 includes
    let mut db = PlayerDb::new();
    db.upsert(record(1, "a", 50, 100, vec![5000]));
    let owned = IdSet::new();
    let mut blacklist: VecMap<(String, usize)> = VecMap::new();
    blacklist.insert(1, ("a".to_string(), 3));
    let counts = calc_per_player_count(&db, &owned, 9999, u32::MAX, &blacklist, 3);
    assert!(counts.get(1).is_none());
    let counts = calc_per_player_count(&db, &owned, 9999, u32::MAX, &blacklist, 4);
    assert!(counts.get(1).is_some());
}

#[test]
fn invalid_names_are_not_ranked() {
    let mut db = PlayerDb::new();
    db.upsert(record(1, "ghost", 50, 100, vec![5000]));
    let owned = IdSet::new();
    let counts = calc_per_player_count(&db, &owned, 9999, u32::MAX, &no_blacklist(), 3);
    let best = find_best(&counts, &db, 10, &vec!["ghost".to_string()]);
    assert!(best.is_empty());
}

#[test]
fn find_best_truncates_to_the_limit() {
    let mut db = PlayerDb::new();
    for uid in 1..=5u32 {
        db.upsert(record(uid, &format!("p{}", uid), 50, uid * 10, vec![5000]));
    }
    let owned = IdSet::new();
    let counts = calc_per_player_count(&db, &owned, 9999, u32::MAX, &no_blacklist(), 3);
    let best = find_best(&counts, &db, 2, &Vec::new());
    assert_eq!(best.len(), 2);
    // the two weakest players head the cut
    assert_eq!(best[0].info.name, "p1");
    assert_eq!(best[1].info.name, "p2");
}

#[test]
fn optimal_order_simulates_sequential_conquest() {
    let mut db = PlayerDb::new();
    db.upsert(record(1, "a", 50, 100, vec![1000, 2000]));
    db.upsert(record(2, "b", 50, 100, vec![1000]));
    db.upsert(record(3, "c", 50, 100, vec![3000]));
    let owned = IdSet::new();
    let order = optimal_order(&db, &owned, 9999, u32::MAX, &no_blacklist(), 3, &Vec::new());
    // beating "a" gains both of "b"'s items, so only "c" still offers
    // anything new
    let names: Vec<&str> = order.iter().map(|t| t.info.name.as_str()).collect();
    assert_eq!(names, vec!["a", "c"]);
    assert!(order.len() <= 300);
    for t in &order {
        assert!(t.missing >= 1);
    }
}

#[test]
fn optimal_order_is_empty_without_candidates() {
    let db = PlayerDb::new();
    let owned = IdSet::new();
    let order = optimal_order(&db, &owned, 9999, u32::MAX, &no_blacklist(), 3, &Vec::new());
    assert!(order.is_empty());
}

#[test]
fn build_character_info_sums_and_dedups() {
    let equipment = vec![7, 7, 8];
    let base = vec![10, 20, 30];
    let bonus = vec![1, 2, 3];
    let c = build_character_info("kim".to_string(), 9, 42, &equipment, &base, &bonus, Some(2));
    assert_eq!(c.stats, Some(66));
    assert_eq!(c.equipment, vec![7, 8]);
    assert_eq!(c.uid, 9);
    assert!(c.fetch_date.is_some());
}

#[test]
fn attribute_sums_clamp_at_the_field_width() {
    let equipment = vec![];
    let base = vec![u32::MAX, u32::MAX];
    let bonus = vec![5];
    let c = build_character_info("big".to_string(), 1, 1, &equipment, &base, &bonus, None);
    assert_eq!(c.stats, Some(u32::MAX));
}

#[test]
fn scrapbook_win_merges_items_and_loss_blacklists() {
    let owned = IdSet::new();
    let mut si = ScrapbookInfo::new(owned, 100, 1000, false);
    let target = AttackTarget { missing: 2, info: record(5, "prey", 40, 10, vec![111, 222]) };
    si.apply_attack_result(target, true, 1000);
    assert!(si.scrapbook.contains(111));
    assert!(si.scrapbook.contains(222));
    assert!(si.blacklist.get(5).is_none());

    let target = AttackTarget { missing: 1, info: record(6, "wall", 40, 10, vec![333]) };
    si.apply_attack_result(target, false, 1001);
    assert!(!si.scrapbook.contains(333));
    assert_eq!(si.blacklist.get(6).map(|e| e.1), Some(1));
    let target = AttackTarget { missing: 1, info: record(6, "wall", 40, 10, vec![333]) };
    si.apply_attack_result(target, false, 1002);
    assert_eq!(si.blacklist.get(6).map(|e| e.1), Some(2));
    assert_eq!(si.attack_log.len(), 3);
}

#[test]
fn scrapbook_attribute_ceiling_starts_a_fifth_above() {
    let si = ScrapbookInfo::new(IdSet::new(), 100, 1000, false);
    assert_eq!(si.max_attributes, 1200);
}

#[test]
fn update_best_fills_the_ranked_list() {
    let mut db = PlayerDb::new();
    db.upsert(record(1, "a", 50, 100, vec![5000]));
    let mut si = ScrapbookInfo::new(IdSet::new(), 9999, u32::MAX, false);
    si.update_best(&db, &Vec::new(), 3, 50);
    assert_eq!(si.best.len(), 1);
    assert_eq!(si.best[0].info.name, "a");
}

#[test]
fn underworld_ceiling_is_twenty_above_average() {
    let ui = UnderworldInfo::new(&vec![30, 60, 90], 0, false);
    assert_eq!(ui.max_level, 80);
    assert!(ui.can_lure());
    let ui = UnderworldInfo::new(&vec![30, 60, 90], 5, false);
    assert!(!ui.can_lure());
}

#[test]
fn lure_candidates_come_highest_level_first() {
    let mut db = PlayerDb::new();
    db.upsert(record(1, "low", 120, 10, vec![1]));
    db.upsert(record(2, "high", 180, 10, vec![1]));
    db.upsert(record(3, "dressed", 150, 10, vec![1, 2, 3, 4, 5]));
    let best = update_best_lures(&db, 200, 10);
    let names: Vec<&str> = best.iter().map(|c| c.name.as_str()).collect();
    assert_eq!(names, vec!["high", "low"]);
}

#[test]
fn auto_target_waits_until_the_list_is_mostly_fresh() {
    let today = 738000;
    let fresh = AttackTarget { missing: 1, info: record(1, "f", 10, 10, vec![]) };
    let mut stale_info = record(2, "s", 10, 10, vec![]);
    stale_info.fetch_date = Some(737000);
    let stale = AttackTarget { missing: 1, info: stale_info };
    // one of two fresh is below nine tenths
    let best = vec![fresh.clone(), stale.clone()];
    assert!(pick_auto_target(&best, today).is_none());
    // an all-fresh list yields its first entry
    let best = vec![fresh.clone()];
    let picked = pick_auto_target(&best, today).expect("a target");
    assert_eq!(picked.info.name, "f");
    assert!(pick_auto_target(&Vec::new(), today).is_none());
}

#[test]
fn arena_fights_wait_for_the_cooldown_or_a_mushroom() {
    assert!(arena_fight_allowed(None, 1000, 0));
    assert!(arena_fight_allowed(Some(1100), 1000, 0));
    assert!(!arena_fight_allowed(Some(1300), 1000, 0));
    assert!(arena_fight_allowed(Some(1300), 1000, 1));
}

#[test]
fn full_ties_rank_by_name_then_id() {
    let mut db = PlayerDb::new();
    db.upsert(record(1, "beta", 50, 100, vec![5000]));
    db.upsert(record(2, "alpha", 50, 100, vec![5000]));
    let owned = IdSet::new();
    let counts = calc_per_player_count(&db, &owned, 9999, u32::MAX, &no_blacklist(), 3);
    let best = find_best(&counts, &db, 10, &Vec::new());
    assert_eq!(best[0].info.name, "alpha");
    assert_eq!(best[1].info.name, "beta");
}

#[test]
fn lure_limit_cuts_only_lower_levels() {
    let mut db = PlayerDb::new();
    db.upsert(record(1, "top", 180, 10, vec![1]));
    db.upsert(record(2, "mid", 150, 10, vec![1]));
    db.upsert(record(3, "low", 120, 10, vec![1]));
    let best = update_best_lures(&db, 200, 2);
    let names: Vec<&str> = best.iter().map(|c| c.name.as_str()).collect();
    assert_eq!(names, vec!["top", "mid"]);
}

#[test]
fn battle_plan_opens_with_the_top_ranked_target() {
    let mut db = PlayerDb::new();
    db.upsert(record(1, "two_items", 50, 100, vec![1000, 2000]));
    db.upsert(record(2, "one_item", 50, 1, vec![3000]));
    let owned = IdSet::new();
    let order = optimal_order(&db, &owned, 9999, u32::MAX, &no_blacklist(), 3, &Vec::new());
    // the opener misses two items; the cheap kill only one
    assert_eq!(order[0].info.name, "two_items");
}
