use scrapbook_helper::crawler::{CrawlAction, CrawlerError, CrawlingOrder, WorkerQue};
use scrapbook_helper::QueID;

fn fresh_queue() -> WorkerQue {
    WorkerQue::new_fresh(QueID(1))
}

#[test]
fn fresh_queue_yields_init_then_wait() {
    let mut q = fresh_queue();
    assert!(matches!(q.next_action(), CrawlAction::InitTodo));
    assert!(matches!(q.next_action(), CrawlAction::Wait));
    assert!(matches!(q.next_action(), CrawlAction::Wait));
}

#[test]
fn account_is_popped_and_moved_in_flight() {
    let mut q = fresh_queue();
    q.push_todo_if_absent("alice".to_string());
    match q.next_action() {
        CrawlAction::Character(name, qid) => {
            assert_eq!(name, "alice");
            assert_eq!(qid, QueID(1));
        }
        other => panic!("expected a character action, got {:?}", other),
    }
    assert!(q.todo_accounts.is_empty());
    assert_eq!(q.in_flight_accounts, vec!["alice".to_string()]);
}

#[test]
fn digit_only_names_are_classified_invalid() {
    let mut q = fresh_queue();
    q.push_todo_if_absent("12345".to_string());
    // the digit-only name is skipped and the queue falls through to init
    assert!(matches!(q.next_action(), CrawlAction::InitTodo));
    assert_eq!(q.invalid_accounts, vec!["12345".to_string()]);
    assert!(q.todo_accounts.is_empty());
}

#[test]
fn pages_are_popped_after_accounts() {
    let mut q = fresh_queue();
    q.todo_pages = vec![7];
    match q.next_action() {
        CrawlAction::Page(idx, qid) => {
            assert_eq!(idx, 7);
            assert_eq!(qid, QueID(1));
        }
        other => panic!("expected a page action, got {:?}", other),
    }
    assert_eq!(q.in_flight_pages, vec![7]);
}

#[test]
fn apply_order_bottom_up_sorts_ascending() {
    // scenario: todo_pages [0,1] under BottomUp stays [0,1]
    let mut q = fresh_queue();
    q.todo_pages = vec![0, 1];
    q.set_order(CrawlingOrder::BottomUp);
    assert_eq!(q.todo_pages, vec![0, 1]);
}

#[test]
fn apply_order_top_down_sorts_descending() {
    // scenario: todo_pages [0,1] under TopDown becomes [1,0]
    let mut q = fresh_queue();
    q.todo_pages = vec![0, 1];
    q.set_order(CrawlingOrder::TopDown);
    assert_eq!(q.todo_pages, vec![1, 0]);
}

#[test]
fn apply_order_random_keeps_the_pages() {
    let mut q = fresh_queue();
    q.todo_pages = vec![4, 1, 3, 0, 2];
    q.set_order(CrawlingOrder::Random);
    let mut pages = q.todo_pages.clone();
    pages.sort();
    assert_eq!(pages, vec![0, 1, 2, 3, 4]);
}

#[test]
fn rate_limited_page_reappears_in_todo_once_and_never_invalid() {
    let mut q = fresh_queue();
    q.todo_pages = vec![5];
    let action = q.next_action();
    assert!(matches!(action, CrawlAction::Page(5, _)));
    q.fail(&action, &CrawlerError::RateLimit);
    assert_eq!(q.todo_pages.iter().filter(|p| **p == 5).count(), 1);
    assert!(q.invalid_pages.is_empty());
    assert!(q.in_flight_pages.is_empty());
}

#[test]
fn rate_limited_account_reappears_in_todo_once_and_never_invalid() {
    let mut q = fresh_queue();
    q.push_todo_if_absent("carol".to_string());
    let action = q.next_action();
    q.fail(&action, &CrawlerError::RateLimit);
    assert_eq!(q.todo_accounts.iter().filter(|n| n.as_str() == "carol").count(), 1);
    assert!(q.invalid_accounts.is_empty());
    assert!(q.in_flight_accounts.is_empty());
}

#[test]
fn generic_failure_moves_the_unit_to_invalid() {
    let mut q = fresh_queue();
    q.todo_pages = vec![9];
    let action = q.next_action();
    q.fail(&action, &CrawlerError::Generic("boom".to_string()));
    assert_eq!(q.invalid_pages, vec![9]);
    assert!(q.todo_pages.is_empty());
    assert!(q.in_flight_pages.is_empty());
}

#[test]
fn stale_epoch_failure_changes_nothing() {
    let mut q = fresh_queue();
    q.todo_pages = vec![3];
    let action = q.next_action();
    assert_eq!(q.in_flight_pages, vec![3]);
    // an action tagged with another epoch is discarded
    let stale = match action {
        CrawlAction::Page(p, _) => CrawlAction::Page(p, QueID(999)),
        other => other,
    };
    q.fail(&stale, &CrawlerError::RateLimit);
    assert_eq!(q.in_flight_pages, vec![3]);
    assert!(q.todo_pages.is_empty());
}

#[test]
fn stale_epoch_completion_changes_nothing() {
    let mut q = fresh_queue();
    q.push_todo_if_absent("dave".to_string());
    let _ = q.next_action();
    assert_eq!(q.in_flight_accounts.len(), 1);
    q.complete_account(&"dave".to_string(), QueID(999));
    assert_eq!(q.in_flight_accounts.len(), 1);
    q.complete_account(&"dave".to_string(), QueID(1));
    assert!(q.in_flight_accounts.is_empty());
}

#[test]
fn discovered_accounts_are_routed_by_level() {
    let mut q = fresh_queue();
    q.set_level_range(10, 100);
    let discovered = vec![
        ("inrange".to_string(), 50u32),
        ("toolow".to_string(), 5u32),
        ("toohigh".to_string(), 500u32),
    ];
    q.absorb_discovered(&discovered, QueID(1));
    assert_eq!(q.todo_accounts, vec!["inrange".to_string()]);
    assert!(!q.todo_accounts.contains(&"toolow".to_string()));
    assert!(!q.todo_accounts.contains(&"toohigh".to_string()));
}

#[test]
fn discovered_duplicates_are_not_requeued() {
    let mut q = fresh_queue();
    q.set_level_range(1, 9999);
    q.push_todo_if_absent("erin".to_string());
    let discovered = vec![("erin".to_string(), 42u32)];
    q.absorb_discovered(&discovered, QueID(1));
    assert_eq!(q.todo_accounts.iter().filter(|n| n.as_str() == "erin").count(), 1);
}

#[test]
fn widening_the_level_range_reinstates_parked_accounts() {
    let mut q = fresh_queue();
    q.set_level_range(10, 100);
    let discovered = vec![("parked".to_string(), 300u32)];
    q.absorb_discovered(&discovered, QueID(1));
    assert!(q.todo_accounts.is_empty());
    q.set_level_range(10, 400);
    assert_eq!(q.todo_accounts, vec!["parked".to_string()]);
}

#[test]
fn level_range_bounds_are_clamped() {
    let mut q = fresh_queue();
    q.set_level_range(0, 100000);
    assert_eq!(q.min_level, 1);
    assert_eq!(q.max_level, 9999);
}

#[test]
fn mark_account_invalid_moves_it_out_of_flight() {
    let mut q = fresh_queue();
    q.push_todo_if_absent("gone".to_string());
    let _ = q.next_action();
    q.mark_account_invalid(&"gone".to_string(), QueID(1));
    assert_eq!(q.invalid_accounts, vec!["gone".to_string()]);
    assert!(q.in_flight_accounts.is_empty());
    assert!(q.todo_accounts.is_empty());
}

#[test]
fn init_todo_fills_all_pages_in_order() {
    let mut q = fresh_queue();
    q.set_order(CrawlingOrder::BottomUp);
    q.init_todo(103);
    // 103 players at 51 a page make 3 pages
    assert_eq!(q.todo_pages, vec![0, 1, 2]);
}

#[test]
fn count_remaining_counts_pages_as_full_pages() {
    let mut q = fresh_queue();
    q.todo_pages = vec![0, 1];
    q.push_todo_if_absent("one".to_string());
    assert_eq!(q.count_remaining(), 2 * 51 + 1);
    let _ = q.next_action();
    // the account moved in flight; the estimate is unchanged
    assert_eq!(q.count_remaining(), 2 * 51 + 1);
}

#[test]
fn order_labels() {
    assert_eq!(CrawlingOrder::Random.label(), "Random");
    assert_eq!(CrawlingOrder::TopDown.label(), "Top Down");
    assert_eq!(CrawlingOrder::BottomUp.label(), "Bottom Up");
}
