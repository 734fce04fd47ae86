//! Watches consecutive worker failures per server, decides when crawling
//! must stop for a re-authentication, and replays the work that failed
//! during the outage. Also the place where crawl results are applied to
//! the database and the queue, guarded by the epoch token: a result of
//! an older epoch never changes anything.

use vstd::prelude::*;

use crate::character::CharacterInfo;
use crate::crawler::{
    contains_name, discovered_goes_bucket, discovered_goes_todo, in_bucket, CrawlAction,
    CrawlerError, WorkerQue,
};
use crate::db::PlayerDb;
use crate::QueID;

verus! {

/// Consecutive transport failures after which crawling halts for a
/// forced re-authentication.
pub const REAUTH_THRESHOLD: usize = 10;

/// Some recorded failure under the given epoch names this page.
pub open spec fn failed_page_recorded(failures: Seq<CrawlAction>, qid: QueID, p: usize) -> bool {
    exists|j: int| 0 <= j < failures.len() && (#[trigger] failures[j]) == CrawlAction::Page(p, qid)
}

/// Some recorded failure under the given epoch names this account.
pub open spec fn failed_account_recorded(
    failures: Seq<CrawlAction>,
    qid: QueID,
    y: Seq<char>,
) -> bool {
    exists|j: int|
        0 <= j < failures.len() && match #[trigger] failures[j] {
            CrawlAction::Character(n, q) => n@ == y && q == qid,
            _ => false,
        }
}

/// Rolling list of recently failed actions on one server.
pub struct FailureSupervisor {
    pub recent_failures: Vec<CrawlAction>,
}

impl FailureSupervisor {
    pub fn new() -> (r: Self)
        ensures
            r.recent_failures@.len() == 0,
    {
        FailureSupervisor { recent_failures: Vec::new() }
    }

    /// Any successful action clears the failure window.
    pub fn record_success(&mut self)
        ensures
            final(self).recent_failures@.len() == 0,
    {
        self.recent_failures.clear();
    }

    /// Books one failed action. Only transport failures escalate:
    /// `NotFound` is informational and `RateLimit` is already handled by
    /// re-queueing. The result says whether the failure window is full
    /// and a re-authentication is due.
    pub fn record_failure(&mut self, action: CrawlAction, error: &CrawlerError) -> (reauth: bool)
        ensures
            error is Generic ==> final(self).recent_failures@ == old(
                self,
            ).recent_failures@.push(action) && reauth == (final(self).recent_failures@.len()
                >= REAUTH_THRESHOLD),
            !(error is Generic) ==> final(self).recent_failures@ == old(self).recent_failures@
                && !reauth,
    {
        match error {
            CrawlerError::Generic(_) => {
                self.recent_failures.push(action);
                self.recent_failures.len() >= REAUTH_THRESHOLD
            },
            CrawlerError::NotFound | CrawlerError::RateLimit => false,
        }
    }

    /// After a successful re-authentication, failed actions whose epoch
    /// still matches the queue are replayed: their invalid markers are
    /// cleared and they return to todo. Stale-epoch actions are dropped.
    pub fn revive(&mut self, queue: &mut WorkerQue)
        requires
            old(queue).wf(),
        ensures
            final(self).recent_failures@.len() == 0,
            final(queue).wf(),
            final(queue).in_flight_pages@ == old(queue).in_flight_pages@,
            final(queue).in_flight_accounts@ == old(queue).in_flight_accounts@,
            final(queue).que_id == old(queue).que_id,
            final(queue).order == old(queue).order,
            final(queue).min_level == old(queue).min_level,
            final(queue).max_level == old(queue).max_level,
            final(queue).self_init == old(queue).self_init,
            final(queue).lvl_skipped_accounts == old(queue).lvl_skipped_accounts,
            // every matching failed page is back in todo and out of invalid
            forall|j: int|
                0 <= j < old(self).recent_failures@.len() ==> match #[trigger] old(
                    self,
                ).recent_failures@[j] {
                    CrawlAction::Page(p, qid) => qid == old(queue).que_id ==> !final(queue).invalid_pages@.contains(p)
                        && (!old(queue).in_flight_pages@.contains(p)
                        ==> final(queue).todo_pages@.contains(p)),
                    CrawlAction::Character(n, qid) => qid == old(queue).que_id ==> !contains_name(
                        final(queue).invalid_accounts@,
                        n@,
                    ) && (!contains_name(old(queue).in_flight_accounts@, n@) ==> contains_name(
                        final(queue).todo_accounts@,
                        n@,
                    )),
                    _ => true,
                },
            // the invalid partitions only shrink
            forall|q: usize| #[trigger]
                final(queue).invalid_pages@.contains(q) ==> old(queue).invalid_pages@.contains(q),
            forall|y: Seq<char>| #[trigger]
                contains_name(final(queue).invalid_accounts@, y) ==> contains_name(
                    old(queue).invalid_accounts@,
                    y,
                ),
            // todo only grows
            forall|q: usize| #[trigger]
                old(queue).todo_pages@.contains(q) ==> final(queue).todo_pages@.contains(q),
            forall|y: Seq<char>| #[trigger]
                contains_name(old(queue).todo_accounts@, y) ==> contains_name(
                    final(queue).todo_accounts@,
                    y,
                ),
            // stale-epoch failures are dropped: todo gains and invalid
            // losses come only from failures recorded under the queue's
            // current epoch
            forall|q: usize|
                #[trigger] final(queue).todo_pages@.contains(q)
                    && !old(queue).todo_pages@.contains(q) ==> failed_page_recorded(
                    old(self).recent_failures@,
                    old(queue).que_id,
                    q,
                ),
            forall|q: usize|
                old(queue).invalid_pages@.contains(q)
                    && !(#[trigger] final(queue).invalid_pages@.contains(q))
                    ==> failed_page_recorded(
                    old(self).recent_failures@,
                    old(queue).que_id,
                    q,
                ),
            forall|y: Seq<char>|
                #[trigger] contains_name(final(queue).todo_accounts@, y) && !contains_name(
                    old(queue).todo_accounts@,
                    y,
                ) ==> failed_account_recorded(
                    old(self).recent_failures@,
                    old(queue).que_id,
                    y,
                ),
            forall|y: Seq<char>|
                contains_name(old(queue).invalid_accounts@, y) && !(#[trigger] contains_name(
                    final(queue).invalid_accounts@,
                    y,
                )) ==> failed_account_recorded(
                    old(self).recent_failures@,
                    old(queue).que_id,
                    y,
                ),
    {
        let ghost failures = self.recent_failures@;
        let mut i: usize = 0;
        while i < self.recent_failures.len()
            invariant
                i <= self.recent_failures@.len(),
                self.recent_failures@ == failures,
                queue.wf(),
                queue.in_flight_pages@ == old(queue).in_flight_pages@,
                queue.in_flight_accounts@ == old(queue).in_flight_accounts@,
                queue.que_id == old(queue).que_id,
                queue.order == old(queue).order,
                queue.min_level == old(queue).min_level,
                queue.max_level == old(queue).max_level,
                queue.self_init == old(queue).self_init,
                queue.lvl_skipped_accounts == old(queue).lvl_skipped_accounts,
                forall|j: int|
                    0 <= j < i ==> match #[trigger] failures[j] {
                        CrawlAction::Page(p, qid) => qid == old(queue).que_id
                            ==> !queue.invalid_pages@.contains(p) && (!old(
                            queue,
                        ).in_flight_pages@.contains(p) ==> queue.todo_pages@.contains(p)),
                        CrawlAction::Character(n, qid) => qid == old(queue).que_id
                            ==> !contains_name(queue.invalid_accounts@, n@) && (!contains_name(
                            old(queue).in_flight_accounts@,
                            n@,
                        ) ==> contains_name(queue.todo_accounts@, n@)),
                        _ => true,
                    },
                forall|q: usize| #[trigger]
                    queue.invalid_pages@.contains(q) ==> old(queue).invalid_pages@.contains(q),
                forall|y: Seq<char>| #[trigger]
                    contains_name(queue.invalid_accounts@, y) ==> contains_name(
                        old(queue).invalid_accounts@,
                        y,
                    ),
                forall|q: usize| #[trigger]
                    old(queue).todo_pages@.contains(q) ==> queue.todo_pages@.contains(q),
                forall|y: Seq<char>| #[trigger]
                    contains_name(old(queue).todo_accounts@, y) ==> contains_name(
                        queue.todo_accounts@,
                        y,
                    ),
                forall|q: usize|
                    #[trigger] queue.todo_pages@.contains(q)
                        && !old(queue).todo_pages@.contains(q) ==> exists|j: int|
                        0 <= j < i && (#[trigger] failures[j]) == CrawlAction::Page(
                            q,
                            old(queue).que_id,
                        ),
                forall|q: usize|
                    old(queue).invalid_pages@.contains(q) && !(
                    #[trigger] queue.invalid_pages@.contains(q)) ==> exists|j: int|
                        0 <= j < i && (#[trigger] failures[j]) == CrawlAction::Page(
                            q,
                            old(queue).que_id,
                        ),
                forall|y: Seq<char>|
                    #[trigger] contains_name(queue.todo_accounts@, y) && !contains_name(
                        old(queue).todo_accounts@,
                        y,
                    ) ==> exists|j: int|
                        0 <= j < i && match #[trigger] failures[j] {
                            CrawlAction::Character(n, q2) => n@ == y && q2 == old(queue).que_id,
                            _ => false,
                        },
                forall|y: Seq<char>|
                    contains_name(old(queue).invalid_accounts@, y) && !(#[trigger] contains_name(
                        queue.invalid_accounts@,
                        y,
                    )) ==> exists|j: int|
                        0 <= j < i && match #[trigger] failures[j] {
                            CrawlAction::Character(n, q2) => n@ == y && q2 == old(queue).que_id,
                            _ => false,
                        },
            decreases self.recent_failures@.len() - i,
        {
            let replay_page: Option<usize> = match &self.recent_failures[i] {
                CrawlAction::Page(p, qid) => {
                    if *qid == queue.que_id {
                        Some(*p)
                    } else {
                        None
                    }
                },
                _ => None,
            };
            match replay_page {
                Some(p) => {
                    queue.requeue_invalid_page(p);
                    proof {
                        assert(failures[i as int] == CrawlAction::Page(p, old(queue).que_id));
                        assert forall|q2: usize|
                            #[trigger] queue.todo_pages@.contains(q2)
                                && !old(queue).todo_pages@.contains(q2) implies exists|j: int|
                            0 <= j < i + 1 && (#[trigger] failures[j]) == CrawlAction::Page(
                                q2,
                                old(queue).que_id,
                            ) by {
                            if q2 == p {
                                assert(failures[i as int] == CrawlAction::Page(
                                    q2,
                                    old(queue).que_id,
                                ));
                            }
                        }
                        assert forall|q2: usize|
                            old(queue).invalid_pages@.contains(q2) && !(
                            #[trigger] queue.invalid_pages@.contains(q2)) implies exists|j: int|
                            0 <= j < i + 1 && (#[trigger] failures[j]) == CrawlAction::Page(
                                q2,
                                old(queue).que_id,
                            ) by {
                            if q2 == p {
                                assert(failures[i as int] == CrawlAction::Page(
                                    q2,
                                    old(queue).que_id,
                                ));
                            }
                        }
                    }
                },
                None => {
                    let mut replayed_name: Option<&String> = None;
                    match &self.recent_failures[i] {
                        CrawlAction::Character(n, qid) => {
                            if *qid == queue.que_id {
                                queue.requeue_invalid_account(n);
                                replayed_name = Some(n);
                            }
                        },
                        _ => {},
                    }
                    proof {
                        match replayed_name {
                            Some(n) => {
                                assert(match failures[i as int] {
                                    CrawlAction::Character(n2, q2) => n2@ == n@
                                        && q2 == old(queue).que_id,
                                    _ => false,
                                });
                                assert forall|y: Seq<char>|
                                    #[trigger] contains_name(queue.todo_accounts@, y)
                                        && !contains_name(
                                        old(queue).todo_accounts@,
                                        y,
                                    ) implies exists|j: int|
                                    0 <= j < i + 1 && match #[trigger] failures[j] {
                                        CrawlAction::Character(n2, q2) => n2@ == y
                                            && q2 == old(queue).que_id,
                                        _ => false,
                                    } by {
                                    if y == n@ {
                                        assert(match failures[i as int] {
                                            CrawlAction::Character(n2, q2) => n2@ == y
                                                && q2 == old(queue).que_id,
                                            _ => false,
                                        });
                                    }
                                }
                                assert forall|y: Seq<char>|
                                    contains_name(old(queue).invalid_accounts@, y) && !(
                                    #[trigger] contains_name(
                                        queue.invalid_accounts@,
                                        y,
                                    )) implies exists|j: int|
                                    0 <= j < i + 1 && match #[trigger] failures[j] {
                                        CrawlAction::Character(n2, q2) => n2@ == y
                                            && q2 == old(queue).que_id,
                                        _ => false,
                                    } by {
                                    if y == n@ {
                                        assert(match failures[i as int] {
                                            CrawlAction::Character(n2, q2) => n2@ == y
                                                && q2 == old(queue).que_id,
                                            _ => false,
                                        });
                                    }
                                }
                            },
                            None => {},
                        }
                    }
                },
            }
            i = i + 1;
        }
        self.recent_failures.clear();
    }
}

/// Whether an action carries an epoch other than the queue's current
/// one; `Wait` and `InitTodo` carry none and are never stale.
pub open spec fn action_is_stale(action: &CrawlAction, queue: &WorkerQue) -> bool {
    match action {
        CrawlAction::Page(_, qid) => *qid != queue.que_id,
        CrawlAction::Character(_, qid) => *qid != queue.que_id,
        CrawlAction::Wait | CrawlAction::InitTodo => false,
    }
}

/// Books a failed action into the queue and, unless the action's epoch
/// is stale, counts it toward the re-authentication window. A stale
/// failure changes neither the queue nor the window.
pub fn apply_action_failed(
    queue: &mut WorkerQue,
    supervisor: &mut FailureSupervisor,
    action: CrawlAction,
    error: &CrawlerError,
) -> (reauth: bool)
    requires
        old(queue).wf(),
    ensures
        final(queue).wf(),
        WorkerQue::fail_transition(*old(queue), *final(queue), &action, error),
        action_is_stale(&action, old(queue)) ==> final(queue).same_state(old(queue))
            && final(supervisor).recent_failures@ == old(supervisor).recent_failures@ && !reauth,
        !action_is_stale(&action, old(queue)) ==> {
            &&& (error is Generic) ==> final(supervisor).recent_failures@
                == old(supervisor).recent_failures@.push(action)
                && reauth == (final(supervisor).recent_failures@.len() >= REAUTH_THRESHOLD)
            &&& !(error is Generic) ==> final(supervisor).recent_failures@
                == old(supervisor).recent_failures@ && !reauth
        },
{
    let stale = match &action {
        CrawlAction::Page(_, qid) => *qid != queue.que_id,
        CrawlAction::Character(_, qid) => *qid != queue.que_id,
        CrawlAction::Wait | CrawlAction::InitTodo => false,
    };
    if stale {
        return false;
    }
    queue.fail(&action, error);
    supervisor.record_failure(action, error)
}

/// Applies a fully crawled player record: the account leaves the
/// in-flight partition, the record replaces what the database knew, and
/// the failure window resets. A record crawled under an older epoch
/// never changes the database or the queue.
pub fn apply_character_crawled(
    db: &mut PlayerDb,
    queue: &mut WorkerQue,
    supervisor: &mut FailureSupervisor,
    character: CharacterInfo,
    epoch: QueID,
)
    requires
        old(db).wf(),
        old(queue).wf(),
        character.wf(),
    ensures
        final(db).wf(),
        final(queue).wf(),
        epoch != old(queue).que_id ==> *final(db) == *old(db) && final(queue).same_state(
            old(queue),
        ) && final(supervisor).recent_failures@ == old(supervisor).recent_failures@,
        epoch == old(queue).que_id ==> {
            &&& final(db).players.as_map() == old(db).players.as_map().insert(
                character.uid as u64,
                character,
            )
            &&& final(queue).in_flight_accounts@ == old(queue).in_flight_accounts@.filter(
                |s: String| s@ != character.name@,
            )
            &&& final(queue).todo_accounts@ == old(queue).todo_accounts@
            &&& final(queue).invalid_accounts@ == old(queue).invalid_accounts@
            &&& final(queue).same_but_accounts(old(queue))
            &&& final(supervisor).recent_failures@.len() == 0
        },
{
    if epoch != queue.que_id {
        return ;
    }
    queue.complete_account(&character.name, epoch);
    db.upsert(character);
    supervisor.record_success();
}

/// Applies a fetched leaderboard page: the page leaves the in-flight
/// partition, the discovered names are booked into todo or the level
/// bucket, and the failure window resets. A page fetched under an older
/// epoch never changes the queue.
pub fn apply_page_crawled(
    queue: &mut WorkerQue,
    supervisor: &mut FailureSupervisor,
    idx: usize,
    discovered: &Vec<(String, u32)>,
    epoch: QueID,
)
    requires
        old(queue).wf(),
    ensures
        final(queue).wf(),
        epoch != old(queue).que_id ==> final(queue).same_state(old(queue))
            && final(supervisor).recent_failures@ == old(supervisor).recent_failures@,
        epoch == old(queue).que_id ==> {
            &&& final(queue).in_flight_pages@ == old(queue).in_flight_pages@.filter(
                |q: usize| q != idx,
            )
            &&& final(queue).todo_pages@ == old(queue).todo_pages@
            &&& final(queue).invalid_pages@ == old(queue).invalid_pages@
            &&& final(queue).invalid_accounts@ == old(queue).invalid_accounts@
            &&& final(queue).in_flight_accounts@ == old(queue).in_flight_accounts@
            &&& final(queue).que_id == old(queue).que_id
            &&& final(queue).order == old(queue).order
            &&& final(queue).min_level == old(queue).min_level
            &&& final(queue).max_level == old(queue).max_level
            &&& final(queue).self_init == old(queue).self_init
            &&& forall|y: Seq<char>| #[trigger]
                contains_name(final(queue).todo_accounts@, y) ==> contains_name(
                    old(queue).todo_accounts@,
                    y,
                ) || discovered_goes_todo(*old(queue), discovered@, y)
            &&& forall|i: int|
                0 <= i < discovered@.len() && old(queue).min_level <= (
                #[trigger] discovered@[i]).1 && discovered@[i].1 <= old(queue).max_level
                    ==> contains_name(final(queue).todo_accounts@, discovered@[i].0@)
                    || contains_name(old(queue).invalid_accounts@, discovered@[i].0@)
                    || contains_name(old(queue).in_flight_accounts@, discovered@[i].0@)
            &&& forall|i: int|
                0 <= i < discovered@.len() && !(old(queue).min_level <= (
                #[trigger] discovered@[i]).1 && discovered@[i].1 <= old(queue).max_level)
                    ==> in_bucket(
                    final(queue).lvl_skipped_accounts.as_map(),
                    discovered@[i].1 as u64,
                    discovered@[i].0@,
                )
            &&& forall|l: u64, y: Seq<char>|
                #![trigger in_bucket(final(queue).lvl_skipped_accounts.as_map(), l, y)]
                in_bucket(final(queue).lvl_skipped_accounts.as_map(), l, y) ==> in_bucket(
                    old(queue).lvl_skipped_accounts.as_map(),
                    l,
                    y,
                ) || discovered_goes_bucket(*old(queue), discovered@, l, y)
            &&& forall|y: Seq<char>| #[trigger]
                contains_name(old(queue).todo_accounts@, y) ==> contains_name(
                    final(queue).todo_accounts@,
                    y,
                )
            &&& final(supervisor).recent_failures@.len() == 0
        },
{
    if epoch != queue.que_id {
        return ;
    }
    queue.complete_page(idx, epoch);
    queue.absorb_discovered(discovered, epoch);
    supervisor.record_success();
}

} // verus!
