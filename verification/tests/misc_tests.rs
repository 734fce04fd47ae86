use scrapbook_helper::character::{dedup_ids, item_model_id, CharacterInfo};
use scrapbook_helper::cli::{Args, CLICommand, ServerSelect};
use scrapbook_helper::crawler::is_digit_only;
use scrapbook_helper::server::{get_server_code, ServerIdent};

#[test]
fn server_code_takes_first_and_third_part() {
    assert_eq!(get_server_code("https://f1.sfgame.net"), "f1.net");
    assert_eq!(get_server_code("http://s3.sfgame.de"), "s3.de");
    assert_eq!(get_server_code("f1.sfgame.net"), "f1.net");
}

#[test]
fn server_code_is_empty_for_short_addresses() {
    assert_eq!(get_server_code("f1.net"), "");
    assert_eq!(get_server_code("localhost"), "");
    assert_eq!(get_server_code(""), "");
}

#[test]
fn server_ident_cleans_and_compacts_the_url() {
    let ident = ServerIdent::new("https://F1.sfgame.NET/");
    assert_eq!(ident.url, "f1.sfgame.net");
    assert_eq!(ident.ident, "f1sfgamenet");
}

#[test]
fn server_ident_is_stable_within_a_run() {
    let a = ServerIdent::new("https://f1.sfgame.net");
    let b = ServerIdent::new("f1.sfgame.net");
    // the scheme does not change the identity
    assert_eq!(a.ident, b.ident);
    assert_eq!(a.id, b.id);
}

#[test]
fn digit_only_names_are_recognized() {
    assert!(is_digit_only("12345"));
    assert!(!is_digit_only("12a45"));
    assert!(!is_digit_only("name"));
    assert!(is_digit_only(""));
    assert!(!is_digit_only("１２３"));
}

#[test]
fn item_codes_carry_their_model_number() {
    assert_eq!(item_model_id(99 * 256), 99);
    assert_eq!(item_model_id(100 * 256 + 7), 100);
    assert_eq!(item_model_id(3 * 16777216 + 42 * 256), 42);
}

#[test]
fn dedup_keeps_first_occurrences() {
    assert_eq!(dedup_ids(&vec![3, 1, 3, 2, 1]), vec![3, 1, 2]);
    assert_eq!(dedup_ids(&vec![1, 2, 3]), vec![1, 2, 3]);
    assert_eq!(dedup_ids(&Vec::new()), Vec::<u64>::new());
}

#[test]
fn staleness_compares_against_the_given_day() {
    let mut c = CharacterInfo {
        equipment: Vec::new(),
        name: "t".to_string(),
        uid: 1,
        level: 1,
        stats: None,
        fetch_date: Some(100),
        class: None,
    };
    assert!(c.is_old_at(101));
    assert!(!c.is_old_at(100));
    assert!(!c.is_old_at(99));
    c.fetch_date = None;
    assert!(c.is_old_at(0), "a record never fully fetched is always stale");
    assert!(c.is_old(), "the clock cannot make an undated record fresh");
}

#[test]
fn strip_volatile_keeps_the_rest() {
    let mut c = CharacterInfo {
        equipment: vec![1, 2],
        name: "t".to_string(),
        uid: 7,
        level: 9,
        stats: Some(4),
        fetch_date: Some(100),
        class: Some(2),
    };
    c.strip_volatile();
    assert!(c.stats.is_none());
    assert!(c.fetch_date.is_none());
    assert_eq!(c.equipment, vec![1, 2]);
    assert_eq!(c.name, "t");
    assert_eq!(c.level, 9);
    assert_eq!(c.class, Some(2));
}

#[test]
fn headless_means_a_subcommand_was_given() {
    let args = Args { sub: None };
    assert!(!args.is_headless());
    let args = Args {
        sub: Some(CLICommand::Crawl {
            concurrency: 4,
            threads: 1,
            servers: ServerSelect { all: true, urls: None },
        }),
    };
    assert!(args.is_headless());
}
