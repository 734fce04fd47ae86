use scrapbook_helper::character::CharacterInfo;
use scrapbook_helper::crawler::{CrawlAction, CrawlerError, WorkerQue};
use scrapbook_helper::db::PlayerDb;
use scrapbook_helper::supervisor::{
    apply_character_crawled, apply_page_crawled, FailureSupervisor, REAUTH_THRESHOLD,
};
use scrapbook_helper::QueID;

fn record(uid: u32, name: &str) -> CharacterInfo {
    CharacterInfo {
        equipment: vec![100],
        name: name.to_string(),
        uid,
        level: 10,
        stats: Some(5),
        fetch_date: Some(738000),
        class: None,
    }
}

#[test]
fn ten_consecutive_generic_failures_trigger_reauth() {
    // scenario: ten transport failures on one server force a fresh login
    let mut sup = FailureSupervisor::new();
    let err = CrawlerError::Generic("io".to_string());
    for i in 0..REAUTH_THRESHOLD - 1 {
        let reauth = sup.record_failure(CrawlAction::Page(i, QueID(1)), &err);
        assert!(!reauth, "no re-auth before the window fills");
    }
    let reauth = sup.record_failure(CrawlAction::Page(99, QueID(1)), &err);
    assert!(reauth, "the tenth failure fills the window");
    // a subsequent success resets the counter to zero
    sup.record_success();
    assert_eq!(sup.recent_failures.len(), 0);
}

#[test]
fn not_found_and_rate_limit_never_escalate() {
    let mut sup = FailureSupervisor::new();
    for i in 0..100usize {
        assert!(!sup.record_failure(CrawlAction::Page(i, QueID(1)), &CrawlerError::NotFound));
        assert!(!sup.record_failure(CrawlAction::Page(i, QueID(1)), &CrawlerError::RateLimit));
    }
    assert_eq!(sup.recent_failures.len(), 0);
}

#[test]
fn revive_replays_matching_failures_and_drops_stale_ones() {
    let mut q = WorkerQue::new_fresh(QueID(1));
    q.todo_pages = vec![3];
    let action = q.next_action();
    let err = CrawlerError::Generic("io".to_string());
    q.fail(&action, &err);
    assert_eq!(q.invalid_pages, vec![3]);

    let mut sup = FailureSupervisor::new();
    sup.record_failure(action, &err);
    // a failure from another epoch rides along and must be dropped
    sup.record_failure(CrawlAction::Page(77, QueID(999)), &err);
    sup.record_failure(CrawlAction::Character("old".to_string(), QueID(999)), &err);

    sup.revive(&mut q);
    assert_eq!(sup.recent_failures.len(), 0);
    assert!(q.todo_pages.contains(&3));
    assert!(q.invalid_pages.is_empty());
    assert!(!q.todo_pages.contains(&77));
    assert!(!q.todo_accounts.contains(&"old".to_string()));
}

#[test]
fn stale_epoch_result_never_mutates_database_or_queue() {
    // scenario: the queue was reset while a fetch was in flight
    let mut q = WorkerQue::new_fresh(QueID(2));
    let mut db = PlayerDb::new();
    let mut sup = FailureSupervisor::new();
    q.push_todo_if_absent("late".to_string());
    let _ = q.next_action();
    let before_flight = q.in_flight_accounts.clone();

    apply_character_crawled(&mut db, &mut q, &mut sup, record(1, "late"), QueID(1));
    assert_eq!(db.len(), 0, "a stale result never reaches the database");
    assert_eq!(q.in_flight_accounts, before_flight);

    apply_character_crawled(&mut db, &mut q, &mut sup, record(1, "late"), QueID(2));
    assert_eq!(db.len(), 1);
    assert!(q.in_flight_accounts.is_empty());
}

#[test]
fn fresh_result_applies_and_clears_the_failure_window() {
    let mut q = WorkerQue::new_fresh(QueID(1));
    let mut db = PlayerDb::new();
    let mut sup = FailureSupervisor::new();
    sup.record_failure(
        CrawlAction::Page(0, QueID(1)),
        &CrawlerError::Generic("io".to_string()),
    );
    assert_eq!(sup.recent_failures.len(), 1);
    apply_character_crawled(&mut db, &mut q, &mut sup, record(4, "ok"), QueID(1));
    assert_eq!(sup.recent_failures.len(), 0);
    assert_eq!(db.get(4).unwrap().name, "ok");
}

#[test]
fn page_results_book_discoveries_and_stale_pages_do_not() {
    let mut q = WorkerQue::new_fresh(QueID(1));
    let mut sup = FailureSupervisor::new();
    q.set_level_range(1, 9999);
    q.todo_pages = vec![0];
    let _ = q.next_action();
    let discovered = vec![("found".to_string(), 42u32)];

    apply_page_crawled(&mut q, &mut sup, 0, &discovered, QueID(999));
    assert_eq!(q.in_flight_pages, vec![0], "a stale page result is discarded");
    assert!(q.todo_accounts.is_empty());

    apply_page_crawled(&mut q, &mut sup, 0, &discovered, QueID(1));
    assert!(q.in_flight_pages.is_empty());
    assert_eq!(q.todo_accounts, vec!["found".to_string()]);
}

#[test]
fn stale_failures_never_reach_the_failure_window() {
    let mut q = WorkerQue::new_fresh(QueID(1));
    let mut sup = FailureSupervisor::new();
    let err = CrawlerError::Generic("io".to_string());
    q.todo_pages = vec![4];
    let action = q.next_action();
    let stale = match &action {
        CrawlAction::Page(p, _) => CrawlAction::Page(*p, QueID(999)),
        other => other.clone(),
    };
    let before_flight = q.in_flight_pages.clone();
    let reauth = scrapbook_helper::supervisor::apply_action_failed(&mut q, &mut sup, stale, &err);
    assert!(!reauth);
    assert_eq!(sup.recent_failures.len(), 0, "a stale failure is not counted");
    assert_eq!(q.in_flight_pages, before_flight, "a stale failure moves nothing");

    let reauth = scrapbook_helper::supervisor::apply_action_failed(&mut q, &mut sup, action, &err);
    assert!(!reauth);
    assert_eq!(sup.recent_failures.len(), 1);
    assert_eq!(q.invalid_pages, vec![4]);
}
