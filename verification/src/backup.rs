//! The value level of the backup codec: what a snapshot holds, how it is
//! taken from a queue and a database, how its volatile fields are
//! dropped, and how a snapshot is restored. The byte level (compression
//! and the file itself) lives outside the library; everything here is a
//! function on plain values, and the round trip through snapshot,
//! strip and restore is proved below.

use vstd::prelude::*;

use crate::character::{dedup_ids, now_parts, CharacterInfo};
use crate::crawler::{contains_name, names_unique, CrawlingOrder, WorkerQue};
use crate::db::PlayerDb;
use crate::vecmap::VecMap;
use crate::QueID;

verus! {

/// One persisted snapshot of a server's crawl state.
pub struct ZHofBackup {
    pub todo_pages: Vec<usize>,
    pub invalid_pages: Vec<usize>,
    pub todo_accounts: Vec<String>,
    pub invalid_accounts: Vec<String>,
    pub order: CrawlingOrder,
    /// Unix seconds of the export; absent for synthetic snapshots.
    pub export_time: Option<i64>,
    pub characters: Vec<CharacterInfo>,
    pub lvl_skipped_accounts: Vec<(u64, Vec<String>)>,
    pub min_level: u32,
    pub max_level: u32,
}

/// Membership of a name in a snapshot's level bucket list.
pub open spec fn in_snapshot_bucket(s: Seq<(u64, Vec<String>)>, lvl: u64, y: Seq<char>) -> bool {
    exists|m: int| 0 <= m < s.len() && (#[trigger] s[m]).0 == lvl && contains_name(s[m].1@, y)
}

/// The snapshot holds exactly the queue's outstanding work, with
/// in-flight units conservatively folded back into todo, and one entry
/// per database record.
pub open spec fn is_snapshot_of(b: ZHofBackup, q: WorkerQue, d: PlayerDb) -> bool {
    &&& forall|p: usize|
        #[trigger] b.todo_pages@.contains(p) <==> (q.todo_pages@.contains(p)
            || q.in_flight_pages@.contains(p))
    &&& b.todo_pages@.no_duplicates()
    &&& names_unique(b.todo_accounts@)
    &&& b.invalid_pages@ == q.invalid_pages@
    &&& forall|y: Seq<char>|
        #[trigger] contains_name(b.todo_accounts@, y) <==> (contains_name(q.todo_accounts@, y)
            || contains_name(q.in_flight_accounts@, y))
    &&& b.invalid_accounts@ == q.invalid_accounts@
    &&& b.order == q.order
    &&& b.min_level == q.min_level
    &&& b.max_level == q.max_level
    &&& b.characters@.len() == d.players.as_map().dom().len()
    &&& forall|m: int|
        0 <= m < b.characters@.len() ==> d.players.as_map().contains_key(
            (#[trigger] b.characters@[m]).uid as u64,
        ) && b.characters@[m]@ == d.players.as_map()[b.characters@[m].uid as u64]@
    &&& forall|k: u64|
        #[trigger] d.players.as_map().contains_key(k) ==> exists|m: int|
            0 <= m < b.characters@.len() && (#[trigger] b.characters@[m]).uid as u64 == k
    &&& forall|m: int, n: int|
        0 <= m < n < b.lvl_skipped_accounts@.len() ==> (#[trigger] b.lvl_skipped_accounts@[m]).0
            != (#[trigger] b.lvl_skipped_accounts@[n]).0
    &&& forall|l: u64, y: Seq<char>|
        in_snapshot_bucket(b.lvl_skipped_accounts@, l, y) <==> #[trigger] crate::crawler::in_bucket(
            q.lvl_skipped_accounts.as_map(),
            l,
            y,
        )
}

/// The second snapshot is the first with every record's volatile fields
/// dropped.
pub open spec fn is_stripped_of(b2: ZHofBackup, b: ZHofBackup) -> bool {
    &&& b2.todo_pages == b.todo_pages
    &&& b2.invalid_pages == b.invalid_pages
    &&& b2.todo_accounts == b.todo_accounts
    &&& b2.invalid_accounts == b.invalid_accounts
    &&& b2.order == b.order
    &&& b2.export_time == b.export_time
    &&& b2.lvl_skipped_accounts == b.lvl_skipped_accounts
    &&& b2.min_level == b.min_level
    &&& b2.max_level == b.max_level
    &&& b2.characters@.len() == b.characters@.len()
    &&& forall|m: int|
        0 <= m < b.characters@.len() ==> {
            let s = #[trigger] b2.characters@[m];
            let c = b.characters@[m];
            &&& s.equipment@ == c.equipment@
            &&& s.name@ == c.name@
            &&& s.uid == c.uid
            &&& s.level == c.level
            &&& s.stats is None
            &&& s.fetch_date is None
            &&& s.class == c.class
        }
}

/// A restored record: equipment reduced to one entry per item (kept
/// verbatim when it was already duplicate-free), everything else as in
/// the snapshot.
pub open spec fn restored_record(r: CharacterInfo, c: CharacterInfo) -> bool {
    &&& r.wf()
    &&& r.equipment@.to_set() == c.equipment@.to_set()
    &&& (c.equipment@.no_duplicates() ==> r.equipment@ == c.equipment@)
    &&& r.name@ == c.name@
    &&& r.uid == c.uid
    &&& r.level == c.level
    &&& r.stats == c.stats
    &&& r.fetch_date == c.fetch_date
    &&& r.class == c.class
}

/// The crawl state rebuilt from one snapshot.
pub struct RestoreData {
    pub que_id: QueID,
    pub queue: WorkerQue,
    pub db: PlayerDb,
}

/// The restore rebuilt exactly the snapshot's work and records: todo
/// keeps what is not invalid, every record goes through the same upsert
/// path as a live result (the last entry per id wins).
pub open spec fn is_restore_of(data: RestoreData, b: ZHofBackup, que_id: QueID) -> bool {
    &&& data.queue.wf()
    &&& data.db.wf()
    &&& data.que_id == que_id
    &&& data.queue.que_id == que_id
    &&& forall|p: usize|
        #[trigger] data.queue.todo_pages@.contains(p) <==> (b.todo_pages@.contains(p)
            && !b.invalid_pages@.contains(p))
    &&& forall|p: usize|
        #[trigger] data.queue.invalid_pages@.contains(p) <==> b.invalid_pages@.contains(p)
    &&& forall|y: Seq<char>|
        #[trigger] contains_name(data.queue.todo_accounts@, y) <==> (contains_name(
            b.todo_accounts@,
            y,
        ) && !contains_name(b.invalid_accounts@, y))
    &&& forall|y: Seq<char>|
        #[trigger] contains_name(data.queue.invalid_accounts@, y) <==> contains_name(
            b.invalid_accounts@,
            y,
        )
    &&& data.queue.in_flight_pages@.len() == 0
    &&& data.queue.in_flight_accounts@.len() == 0
    &&& data.queue.order == b.order
    &&& data.queue.min_level == b.min_level
    &&& data.queue.max_level == b.max_level
    &&& !data.queue.self_init
    &&& forall|l: u64, y: Seq<char>|
        #[trigger] crate::crawler::in_bucket(data.queue.lvl_skipped_accounts.as_map(), l, y)
            ==> in_snapshot_bucket(b.lvl_skipped_accounts@, l, y)
    &&& (forall|m: int, n: int|
        0 <= m < n < b.lvl_skipped_accounts@.len() ==> (#[trigger] b.lvl_skipped_accounts@[m]).0
            != (#[trigger] b.lvl_skipped_accounts@[n]).0) ==> forall|l: u64, y: Seq<char>|
        in_snapshot_bucket(b.lvl_skipped_accounts@, l, y) ==> #[trigger] crate::crawler::in_bucket(
            data.queue.lvl_skipped_accounts.as_map(),
            l,
            y,
        )
    &&& forall|k: u64|
        #[trigger] data.db.players.as_map().contains_key(k) <==> exists|m: int|
            0 <= m < b.characters@.len() && (#[trigger] b.characters@[m]).uid as u64 == k
    &&& forall|k: u64|
        #[trigger] data.db.players.as_map().contains_key(k) ==> exists|m: int|
            {
                &&& 0 <= m < b.characters@.len()
                &&& (#[trigger] b.characters@[m]).uid as u64 == k
                &&& restored_record(data.db.players.as_map()[k], b.characters@[m])
                &&& forall|n: int|
                    m < n < b.characters@.len() ==> (#[trigger] b.characters@[n]).uid as u64 != k
            }
}

impl ZHofBackup {
    /// Drops the volatile fields of every record before the snapshot is
    /// written; they are recomputed on the next fetch.
    pub fn strip_volatile(&mut self)
        ensures
            is_stripped_of(*final(self), *old(self)),
    {
        let mut stripped: Vec<CharacterInfo> = Vec::new();
        let mut i: usize = 0;
        while i < self.characters.len()
            invariant
                i <= self.characters@.len(),
                self.characters@ == old(self).characters@,
                self.todo_pages == old(self).todo_pages,
                self.invalid_pages == old(self).invalid_pages,
                self.todo_accounts == old(self).todo_accounts,
                self.invalid_accounts == old(self).invalid_accounts,
                self.order == old(self).order,
                self.export_time == old(self).export_time,
                self.lvl_skipped_accounts == old(self).lvl_skipped_accounts,
                self.min_level == old(self).min_level,
                self.max_level == old(self).max_level,
                stripped@.len() == i,
                forall|m: int|
                    0 <= m < i ==> {
                        let s = #[trigger] stripped@[m];
                        let c = old(self).characters@[m];
                        &&& s.equipment@ == c.equipment@
                        &&& s.name@ == c.name@
                        &&& s.uid == c.uid
                        &&& s.level == c.level
                        &&& s.stats is None
                        &&& s.fetch_date is None
                        &&& s.class == c.class
                    },
            decreases self.characters@.len() - i,
        {
            let mut c = self.characters[i].duplicate();
            c.strip_volatile();
            stripped.push(c);
            i = i + 1;
        }
        self.characters = stripped;
    }
}

impl WorkerQue {
    /// Snapshots the queue and the database: in-flight units are folded
    /// back into todo, so a crash between snapshot and restart loses no
    /// work; the export is stamped with the current time.
    pub fn create_backup(&self, db: &PlayerDb) -> (r: ZHofBackup)
        requires
            self.wf(),
            db.wf(),
        ensures
            is_snapshot_of(r, *self, *db),
            r.export_time is Some,
    {
        proof {
            db.players.lemma_model();
        }
        // pages: todo plus in-flight
        let mut todo_pages = self.todo_pages.clone();
        proof {
            assert(todo_pages@ =~= self.todo_pages@);
        }
        let mut i: usize = 0;
        while i < self.in_flight_pages.len()
            invariant
                i <= self.in_flight_pages@.len(),
                todo_pages@ == self.todo_pages@ + self.in_flight_pages@.take(i as int),
                forall|p: usize|
                    #[trigger] todo_pages@.contains(p) <==> (self.todo_pages@.contains(p)
                        || self.in_flight_pages@.take(i as int).contains(p)),
            decreases self.in_flight_pages@.len() - i,
        {
            let ghost before = todo_pages@;
            let ghost prefix = self.in_flight_pages@.take(i as int);
            let x = self.in_flight_pages[i];
            todo_pages.push(x);
            proof {
                assert(self.in_flight_pages@.take(i + 1) =~= prefix.push(x));
                assert(todo_pages@ =~= self.todo_pages@ + self.in_flight_pages@.take(i + 1));
                assert forall|p: usize|
                    #[trigger] todo_pages@.contains(p) <==> (self.todo_pages@.contains(p)
                        || self.in_flight_pages@.take(i + 1).contains(p)) by {
                    vstd::seq_lib::lemma_seq_contains_after_push(before, x, p);
                    vstd::seq_lib::lemma_seq_contains_after_push(prefix, x, p);
                }
            }
            i = i + 1;
        }
        proof {
            assert(self.in_flight_pages@.take(self.in_flight_pages@.len() as int)
                == self.in_flight_pages@);
            vstd::seq_lib::lemma_no_dup_in_concat(self.todo_pages@, self.in_flight_pages@);
            assert(todo_pages@.no_duplicates());
        }

        // accounts: todo plus in-flight
        let mut todo_accounts = self.todo_accounts.clone();
        proof {
            assert forall|m: int|
                0 <= m < todo_accounts@.len() implies #[trigger] todo_accounts@[m]
                == self.todo_accounts@[m] by {}
            assert(todo_accounts@ =~= self.todo_accounts@);
        }
        let mut j: usize = 0;
        while j < self.in_flight_accounts.len()
            invariant
                self.wf(),
                j <= self.in_flight_accounts@.len(),
                names_unique(todo_accounts@),
                todo_accounts@.len() == self.todo_accounts@.len() + j,
                forall|m: int|
                    0 <= m < self.todo_accounts@.len() ==> (#[trigger] todo_accounts@[m])@
                        == self.todo_accounts@[m]@,
                forall|m: int|
                    self.todo_accounts@.len() <= m < todo_accounts@.len() ==> (
                    #[trigger] todo_accounts@[m])@ == self.in_flight_accounts@[m
                        - self.todo_accounts@.len()]@,
                forall|y: Seq<char>|
                    #[trigger] contains_name(todo_accounts@, y) <==> (contains_name(
                        self.todo_accounts@,
                        y,
                    ) || contains_name(self.in_flight_accounts@.take(j as int), y)),
            decreases self.in_flight_accounts@.len() - j,
        {
            let ghost before = todo_accounts@;
            let ghost prefix = self.in_flight_accounts@.take(j as int);
            let x = self.in_flight_accounts[j].clone();
            proof {
                assert(x == self.in_flight_accounts@[j as int]);
            }
            todo_accounts.push(x);
            proof {
                assert(self.in_flight_accounts@.take(j + 1) =~= prefix.push(
                    self.in_flight_accounts@[j as int],
                ));
                crate::crawler::lemma_name_push_members(before, todo_accounts@.last());
                crate::crawler::lemma_name_push_members(
                    prefix,
                    self.in_flight_accounts@[j as int],
                );
                // the appended name is new: it sits in in-flight, which is
                // disjoint from todo and free of repeats
                assert forall|a: int, b: int|
                    0 <= a < b < todo_accounts@.len() implies todo_accounts@[a]@
                    != todo_accounts@[b]@ by {
                    if b == todo_accounts@.len() - 1 {
                        assert(todo_accounts@[b]@ == self.in_flight_accounts@[j as int]@);
                        if a < self.todo_accounts@.len() {
                            assert(todo_accounts@[a]@ == self.todo_accounts@[a]@);
                            assert(self.todo_accounts@[a]@ != self.in_flight_accounts@[
                                j as int]@);
                        } else {
                            assert(todo_accounts@[a]@ == self.in_flight_accounts@[a
                                - self.todo_accounts@.len()]@);
                            assert(self.in_flight_accounts@[a - self.todo_accounts@.len()]@
                                != self.in_flight_accounts@[j as int]@);
                        }
                    } else {
                        assert(todo_accounts@[a] == before[a]);
                        assert(todo_accounts@[b] == before[b]);
                    }
                }
            }
            j = j + 1;
        }
        proof {
            assert(self.in_flight_accounts@.take(self.in_flight_accounts@.len() as int)
                == self.in_flight_accounts@);
        }

        // one entry per database record
        let mut characters: Vec<CharacterInfo> = Vec::new();
        let n = db.players.len();
        let mut m: usize = 0;
        while m < n
            invariant
                n == db.players.entries().len(),
                m <= n,
                db.wf(),
                characters@.len() == m,
                forall|a: int|
                    0 <= a < characters@.len() ==> db.players.as_map().contains_key(
                        (#[trigger] characters@[a]).uid as u64,
                    ) && characters@[a]@ == db.players.as_map()[characters@[a].uid as u64]@,
                forall|a: int|
                    0 <= a < m ==> (#[trigger] db.players.entries()[a]).0 == characters@[
                        a
                    ].uid as u64,
            decreases n - m,
        {
            let entry = db.players.entry_at(m);
            proof {
                assert(db.players.as_map()[entry.0].uid as u64 == entry.0);
            }
            characters.push(entry.1.duplicate());
            m = m + 1;
        }
        proof {
            db.players.lemma_model();
            assert forall|k: u64|
                #[trigger] db.players.as_map().contains_key(k) implies exists|a: int|
                0 <= a < characters@.len() && (#[trigger] characters@[a]).uid as u64 == k by {
                assert(crate::vecmap::pair_keys(db.players.entries()).contains(k));
                let a = choose|a: int|
                    0 <= a < crate::vecmap::pair_keys(db.players.entries()).len()
                        && crate::vecmap::pair_keys(db.players.entries())[a] == k;
                assert(db.players.entries()[a].0 == k);
                assert(characters@[a].uid as u64 == k);
            }
        }

        // the level bucket, entry for entry
        let mut lvl_skipped_accounts: Vec<(u64, Vec<String>)> = Vec::new();
        let bn = self.lvl_skipped_accounts.len();
        let mut e: usize = 0;
        while e < bn
            invariant
                bn == self.lvl_skipped_accounts.entries().len(),
                e <= bn,
                self.lvl_skipped_accounts.wf(),
                lvl_skipped_accounts@.len() == e,
                forall|a: int|
                    0 <= a < e ==> (#[trigger] lvl_skipped_accounts@[a]).0
                        == self.lvl_skipped_accounts.entries()[a].0 && lvl_skipped_accounts@[a].1@
                        =~= self.lvl_skipped_accounts.entries()[a].1@,
            decreases bn - e,
        {
            let entry = self.lvl_skipped_accounts.entry_at(e);
            let copied = entry.1.clone();
            proof {
                assert forall|a: int|
                    0 <= a < copied@.len() implies #[trigger] copied@[a] == entry.1@[a] by {}
                assert(copied@ =~= entry.1@);
            }
            lvl_skipped_accounts.push((entry.0, copied));
            e = e + 1;
        }
        proof {
            self.lvl_skipped_accounts.lemma_model();
            assert forall|a: int, b: int|
                0 <= a < b < lvl_skipped_accounts@.len() implies (
            #[trigger] lvl_skipped_accounts@[a]).0 != (#[trigger] lvl_skipped_accounts@[b]).0 by {
                assert(crate::vecmap::pair_keys(self.lvl_skipped_accounts.entries())[a]
                    == self.lvl_skipped_accounts.entries()[a].0);
                assert(crate::vecmap::pair_keys(self.lvl_skipped_accounts.entries())[b]
                    == self.lvl_skipped_accounts.entries()[b].0);
            }
            assert forall|l: u64, y: Seq<char>|
                in_snapshot_bucket(lvl_skipped_accounts@, l, y)
                    <==> #[trigger] crate::crawler::in_bucket(
                self.lvl_skipped_accounts.as_map(),
                l,
                y,
            ) by {
                if in_snapshot_bucket(lvl_skipped_accounts@, l, y) {
                    let m0 = choose|m0: int|
                        0 <= m0 < lvl_skipped_accounts@.len() && (
                        #[trigger] lvl_skipped_accounts@[m0]).0 == l && contains_name(
                            lvl_skipped_accounts@[m0].1@,
                            y,
                        );
                    assert(self.lvl_skipped_accounts.entries()[m0].0 == l);
                    assert(crate::vecmap::pair_keys(self.lvl_skipped_accounts.entries())[m0]
                        == l);
                    assert(crate::vecmap::pair_keys(self.lvl_skipped_accounts.entries()).contains(
                        l,
                    ));
                    assert(self.lvl_skipped_accounts.as_map().contains_key(l));
                    assert(self.lvl_skipped_accounts.as_map()[l]
                        == self.lvl_skipped_accounts.entries()[m0].1);
                }
                if crate::crawler::in_bucket(self.lvl_skipped_accounts.as_map(), l, y) {
                    assert(crate::vecmap::pair_keys(self.lvl_skipped_accounts.entries()).contains(
                        l,
                    ));
                    let m0 = choose|m0: int|
                        0 <= m0 < crate::vecmap::pair_keys(
                            self.lvl_skipped_accounts.entries(),
                        ).len() && crate::vecmap::pair_keys(self.lvl_skipped_accounts.entries())[m0]
                            == l;
                    assert(self.lvl_skipped_accounts.entries()[m0].0 == l);
                    assert(self.lvl_skipped_accounts.as_map()[l]
                        == self.lvl_skipped_accounts.entries()[m0].1);
                    assert(lvl_skipped_accounts@[m0].0 == l);
                    assert(contains_name(lvl_skipped_accounts@[m0].1@, y));
                }
            }
        }

        let (_, unix_now) = now_parts();
        let invalid_pages = self.invalid_pages.clone();
        let invalid_accounts = self.invalid_accounts.clone();
        proof {
            assert(invalid_pages@ =~= self.invalid_pages@);
            assert forall|a: int|
                0 <= a < invalid_accounts@.len() implies #[trigger] invalid_accounts@[a]
                == self.invalid_accounts@[a] by {}
            assert(invalid_accounts@ =~= self.invalid_accounts@);
        }
        ZHofBackup {
            todo_pages,
            invalid_pages,
            todo_accounts,
            invalid_accounts,
            order: self.order,
            export_time: Some(unix_now),
            characters,
            lvl_skipped_accounts,
            min_level: self.min_level,
            max_level: self.max_level,
        }
    }
}

/// Keeps the first occurrence of each page not held by `excluded`.
fn dedup_pages_excluding(v: &Vec<usize>, excluded: &Vec<usize>) -> (r: Vec<usize>)
    ensures
        r@.no_duplicates(),
        forall|p: usize|
            #[trigger] r@.contains(p) <==> (v@.contains(p) && !excluded@.contains(p)),
{
    broadcast use vstd::seq_lib::lemma_seq_contains_after_push;

    let mut r: Vec<usize> = Vec::new();
    let mut i: usize = 0;
    while i < v.len()
        invariant
            i <= v@.len(),
            r@.no_duplicates(),
            forall|p: usize|
                #[trigger] r@.contains(p) <==> (v@.take(i as int).contains(p)
                    && !excluded@.contains(p)),
        decreases v@.len() - i,
    {
        let ghost prefix = v@.take(i as int);
        let x = v[i];
        proof {
            assert(v@.take(i + 1) =~= prefix.push(x));
        }
        let ghost r_before = r@;
        if !crate::crawler::contains_page(&r, x) && !crate::crawler::contains_page(excluded, x) {
            r.push(x);
            proof {
                assert forall|a: int, b: int| 0 <= a < b < r@.len() implies r@[a] != r@[b] by {
                    if b == r@.len() - 1 {
                        assert(r_before.contains(r_before[a]));
                    }
                }
            }
        }
        proof {
            assert forall|p: usize|
                #[trigger] r@.contains(p) <==> (v@.take(i + 1).contains(p) && !excluded@.contains(
                    p,
                )) by {
                vstd::seq_lib::lemma_seq_contains_after_push(prefix, x, p);
                if r@.len() > r_before.len() {
                    vstd::seq_lib::lemma_seq_contains_after_push(r_before, x, p);
                }
            }
        }
        i = i + 1;
    }
    proof {
        assert(v@.take(v@.len() as int) == v@);
    }
    r
}

/// Keeps the first occurrence of each name not held by `excluded`.
fn dedup_names_excluding(v: &Vec<String>, excluded: &Vec<String>) -> (r: Vec<String>)
    ensures
        names_unique(r@),
        forall|y: Seq<char>|
            #[trigger] contains_name(r@, y) <==> (contains_name(v@, y) && !contains_name(
                excluded@,
                y,
            )),
{
    let mut r: Vec<String> = Vec::new();
    let mut i: usize = 0;
    while i < v.len()
        invariant
            i <= v@.len(),
            names_unique(r@),
            forall|y: Seq<char>|
                #[trigger] contains_name(r@, y) <==> (contains_name(v@.take(i as int), y)
                    && !contains_name(excluded@, y)),
        decreases v@.len() - i,
    {
        let ghost prefix = v@.take(i as int);
        let x = v[i].clone();
        proof {
            assert(x == v@[i as int]);
            assert(v@.take(i + 1) =~= prefix.push(v@[i as int]));
            crate::crawler::lemma_name_push_members(prefix, v@[i as int]);
        }
        if !crate::crawler::contains_account(&r, &x) && !crate::crawler::contains_account(
            excluded,
            &x,
        ) {
            let ghost before = r@;
            r.push(x);
            proof {
                crate::crawler::lemma_name_push_members(before, r@.last());
                assert forall|a: int, b: int| 0 <= a < b < r@.len() implies r@[a]@ != r@[b]@ by {
                    if b == r@.len() - 1 {
                        assert(contains_name(before, before[a]@));
                    }
                }
            }
        }
        i = i + 1;
    }
    proof {
        assert(v@.take(v@.len() as int) == v@);
    }
    r
}

/// Whether a shared online snapshot should replace the local one: only
/// when the online copy exists and is strictly newer than what is held
/// locally; with no local export time any online copy wins.
pub fn should_fetch_online(online_time: Option<i64>, local_export: Option<i64>) -> (r: bool)
    ensures
        r == match (online_time, local_export) {
            (Some(ot), Some(bt)) => bt < ot,
            (Some(ot), None) => true,
            (None, _) => false,
        },
{
    match (online_time, local_export) {
        (Some(ot), Some(bt)) => bt < ot,
        (Some(_), None) => true,
        (None, _) => false,
    }
}

/// Rebuilds the crawl state from a snapshot, or starts cold with every
/// leaderboard page as todo when none is usable. Every contained record
/// goes through the same upsert path as a live crawl result, so the
/// equipment index is rebuilt from scratch.
pub fn restore_backup(backup: Option<ZHofBackup>, total_pages: usize, que_id: QueID) -> (r:
    RestoreData)
    ensures
        match backup {
            Some(b) => is_restore_of(r, b, que_id),
            None => {
                &&& r.queue.wf()
                &&& r.db.wf()
                &&& r.que_id == que_id
                &&& r.queue.que_id == que_id
                &&& forall|p: usize| #[trigger] r.queue.todo_pages@.contains(p) <==> p < total_pages
                &&& r.queue.invalid_pages@.len() == 0
                &&& r.queue.todo_accounts@.len() == 0
                &&& r.queue.invalid_accounts@.len() == 0
                &&& r.queue.in_flight_pages@.len() == 0
                &&& r.queue.in_flight_accounts@.len() == 0
                &&& r.queue.order == CrawlingOrder::Random
                &&& r.db.players.as_map() == Map::<u64, CharacterInfo>::empty()
            },
        },
{
    match backup {
        None => {
            let mut todo_pages: Vec<usize> = Vec::new();
            let mut p: usize = 0;
            while p < total_pages
                invariant
                    p <= total_pages,
                    todo_pages@.no_duplicates(),
                    forall|q: usize| #[trigger] todo_pages@.contains(q) <==> q < p,
                    forall|j: int| 0 <= j < todo_pages@.len() ==> #[trigger] todo_pages@[j] < p,
                decreases total_pages - p,
            {
                let ghost before = todo_pages@;
                todo_pages.push(p);
                proof {
                    assert forall|q: usize|
                        #[trigger] todo_pages@.contains(q) <==> q < p + 1 by {
                        vstd::seq_lib::lemma_seq_contains_after_push(before, p, q);
                    }
                    crate::crawler::lemma_push_page_nodup(before, p);
                }
                p = p + 1;
            }
            let order = CrawlingOrder::Random;
            let ghost built = todo_pages@;
            order.apply_order(&mut todo_pages);
            proof {
                crate::crawler::lemma_perm_keeps_members(built, todo_pages@);
            }
            let mut queue = WorkerQue::new_fresh(que_id);
            queue.todo_pages = todo_pages;
            queue.order = order;
            queue.self_init = false;
            proof {
                assert(queue.wf());
            }
            RestoreData { que_id, queue, db: PlayerDb::new() }
        },
        Some(b) => {
            let no_pages: Vec<usize> = Vec::new();
            let no_names: Vec<String> = Vec::new();
            let invalid_pages = dedup_pages_excluding(&b.invalid_pages, &no_pages);
            let mut todo_pages = dedup_pages_excluding(&b.todo_pages, &invalid_pages);
            let invalid_accounts = dedup_names_excluding(&b.invalid_accounts, &no_names);
            let todo_accounts = dedup_names_excluding(&b.todo_accounts, &invalid_accounts);
            let order = b.order;
            let ghost built = todo_pages@;
            order.apply_order(&mut todo_pages);
            proof {
                crate::crawler::lemma_perm_keeps_members(built, todo_pages@);
            }

            // rebuild the level bucket
            let mut bucket: VecMap<Vec<String>> = VecMap::new();
            let ghost bseq = b.lvl_skipped_accounts@;
            let ghost distinct = forall|m: int, n: int|
                0 <= m < n < bseq.len() ==> (#[trigger] bseq[m]).0 != (#[trigger] bseq[n]).0;
            let mut e: usize = 0;
            while e < b.lvl_skipped_accounts.len()
                invariant
                    e <= bseq.len(),
                    bseq == b.lvl_skipped_accounts@,
                    distinct == (forall|m: int, n: int|
                        0 <= m < n < bseq.len() ==> (#[trigger] bseq[m]).0 != (
                        #[trigger] bseq[n]).0),
                    bucket.wf(),
                    forall|l: u64, y: Seq<char>|
                        #[trigger] crate::crawler::in_bucket(bucket.as_map(), l, y)
                            ==> in_snapshot_bucket(bseq.take(e as int), l, y),
                    distinct ==> forall|l: u64, y: Seq<char>|
                        in_snapshot_bucket(bseq.take(e as int), l, y)
                            ==> #[trigger] crate::crawler::in_bucket(bucket.as_map(), l, y),
                decreases bseq.len() - e,
            {
                let lvl = b.lvl_skipped_accounts[e].0;
                let names_copy = b.lvl_skipped_accounts[e].1.clone();
                proof {
                    assert forall|a: int|
                        0 <= a < names_copy@.len() implies #[trigger] names_copy@[a] == bseq[
                        e as int].1@[a] by {}
                    assert(names_copy@ =~= bseq[e as int].1@);
                }
                let ghost bucket_before = bucket;
                bucket.insert(lvl, names_copy);
                proof {
                    assert(bseq.take(e + 1) =~= bseq.take(e as int).push(bseq[e as int]));
                    assert forall|l: u64, y: Seq<char>|
                        #[trigger] crate::crawler::in_bucket(bucket.as_map(), l, y) implies
                        in_snapshot_bucket(bseq.take(e + 1), l, y) by {
                        if crate::crawler::in_bucket(bucket.as_map(), l, y) {
                            if l == lvl {
                                assert(bseq.take(e + 1)[e as int].0 == l);
                            } else {
                                assert(crate::crawler::in_bucket(bucket_before.as_map(), l, y));
                                let m0 = choose|m0: int|
                                    0 <= m0 < bseq.take(e as int).len() && (#[trigger] bseq.take(
                                        e as int,
                                    )[m0]).0 == l && contains_name(bseq.take(e as int)[m0].1@, y);
                                assert((bseq.take(e + 1)[m0]).0 == l);
                            }
                        }
                    }
                    if distinct {
                        assert forall|l: u64, y: Seq<char>|
                            in_snapshot_bucket(bseq.take(e + 1), l, y) implies
                            #[trigger] crate::crawler::in_bucket(bucket.as_map(), l, y) by {
                            let m0 = choose|m0: int|
                                0 <= m0 < bseq.take(e + 1).len() && (#[trigger] bseq.take(e + 1)[
                                m0]).0 == l && contains_name(bseq.take(e + 1)[m0].1@, y);
                            if m0 == e as int {
                                assert(bucket.as_map().contains_key(lvl));
                            } else {
                                assert((bseq.take(e as int)[m0]).0 == l);
                                assert(in_snapshot_bucket(bseq.take(e as int), l, y));
                                assert(crate::crawler::in_bucket(bucket_before.as_map(), l, y));
                                assert(l != lvl);
                            }
                        }
                    }
                }
                e = e + 1;
            }
            proof {
                assert(bseq.take(bseq.len() as int) == bseq);
            }

            // feed every record through the live upsert path
            let mut db = PlayerDb::new();
            let ghost chars = b.characters@;
            let mut m: usize = 0;
            while m < b.characters.len()
                invariant
                    m <= chars.len(),
                    chars == b.characters@,
                    db.wf(),
                    forall|k: u64|
                        #[trigger] db.players.as_map().contains_key(k) <==> exists|a: int|
                            0 <= a < m && (#[trigger] chars[a]).uid as u64 == k,
                    forall|k: u64|
                        #[trigger] db.players.as_map().contains_key(k) ==> exists|a: int|
                            {
                                &&& 0 <= a < m
                                &&& (#[trigger] chars[a]).uid as u64 == k
                                &&& restored_record(db.players.as_map()[k], chars[a])
                                &&& forall|n: int|
                                    a < n < m ==> (#[trigger] chars[n]).uid as u64 != k
                            },
                decreases chars.len() - m,
            {
                let src = &b.characters[m];
                let record = CharacterInfo {
                    equipment: dedup_ids(&src.equipment),
                    name: src.name.clone(),
                    uid: src.uid,
                    level: src.level,
                    stats: src.stats,
                    fetch_date: src.fetch_date,
                    class: src.class,
                };
                proof {
                    assert(restored_record(record, chars[m as int]));
                }
                let ghost db_before = db.players.as_map();
                db.upsert(record);
                proof {
                    assert forall|k: u64|
                        #[trigger] db.players.as_map().contains_key(k) implies exists|a: int|
                        {
                            &&& 0 <= a < m + 1
                            &&& (#[trigger] chars[a]).uid as u64 == k
                            &&& restored_record(db.players.as_map()[k], chars[a])
                            &&& forall|n: int|
                                a < n < m + 1 ==> (#[trigger] chars[n]).uid as u64 != k
                        } by {
                        if k == record.uid as u64 {
                            assert(chars[m as int].uid as u64 == k);
                            assert(db.players.as_map()[k] == record);
                        } else {
                            assert(db_before.contains_key(k));
                            let a = choose|a: int|
                                {
                                    &&& 0 <= a < m
                                    &&& (#[trigger] chars[a]).uid as u64 == k
                                    &&& restored_record(db_before[k], chars[a])
                                    &&& forall|n: int|
                                        a < n < m ==> (#[trigger] chars[n]).uid as u64 != k
                                };
                            assert(db.players.as_map()[k] == db_before[k]);
                            assert(chars[m as int].uid as u64 != k);
                        }
                    }
                }
                m = m + 1;
            }
            proof {
                assert(chars.take(chars.len() as int) == chars);
            }

            let queue = WorkerQue {
                que_id,
                todo_pages,
                todo_accounts,
                invalid_pages,
                invalid_accounts,
                in_flight_pages: Vec::new(),
                in_flight_accounts: Vec::new(),
                order,
                lvl_skipped_accounts: bucket,
                min_level: b.min_level,
                max_level: b.max_level,
                self_init: false,
            };
            proof {
                crate::crawler::lemma_make_pages_disjoint(
                    queue.todo_pages@,
                    queue.in_flight_pages@,
                );
                crate::crawler::lemma_make_pages_disjoint(queue.todo_pages@, queue.invalid_pages@);
                crate::crawler::lemma_make_pages_disjoint(
                    queue.in_flight_pages@,
                    queue.invalid_pages@,
                );
                crate::crawler::lemma_make_names_disjoint(
                    queue.todo_accounts@,
                    queue.in_flight_accounts@,
                );
                crate::crawler::lemma_make_names_disjoint(
                    queue.todo_accounts@,
                    queue.invalid_accounts@,
                );
                crate::crawler::lemma_make_names_disjoint(
                    queue.in_flight_accounts@,
                    queue.invalid_accounts@,
                );
                assert(queue.wf());
            }
            RestoreData { que_id, queue, db }
        },
    }
}

/// Backup round trip: taking a snapshot, dropping its volatile fields
/// and restoring it yields the queue's work units exactly (in-flight
/// conservatively folded into todo) and every player record exactly,
/// except that stats and fetch date start out unknown again.
pub proof fn lemma_backup_round_trip(
    q: WorkerQue,
    d: PlayerDb,
    b: ZHofBackup,
    stripped: ZHofBackup,
    data: RestoreData,
    que_id: QueID,
)
    requires
        q.wf(),
        d.wf(),
        is_snapshot_of(b, q, d),
        is_stripped_of(stripped, b),
        is_restore_of(data, stripped, que_id),
    ensures
        forall|p: usize|
            #[trigger] data.queue.todo_pages@.contains(p) <==> (q.todo_pages@.contains(p)
                || q.in_flight_pages@.contains(p)),
        forall|p: usize|
            #[trigger] data.queue.invalid_pages@.contains(p) <==> q.invalid_pages@.contains(p),
        forall|y: Seq<char>|
            #[trigger] contains_name(data.queue.todo_accounts@, y) <==> (contains_name(
                q.todo_accounts@,
                y,
            ) || contains_name(q.in_flight_accounts@, y)),
        forall|y: Seq<char>|
            #[trigger] contains_name(data.queue.invalid_accounts@, y) <==> contains_name(
                q.invalid_accounts@,
                y,
            ),
        data.queue.order == q.order,
        data.queue.min_level == q.min_level,
        data.queue.max_level == q.max_level,
        forall|l: u64, y: Seq<char>|
            #[trigger] crate::crawler::in_bucket(data.queue.lvl_skipped_accounts.as_map(), l, y)
                <==> crate::crawler::in_bucket(q.lvl_skipped_accounts.as_map(), l, y),
        forall|k: u64|
            #[trigger] data.db.players.as_map().contains_key(k) <==> d.players.as_map(
            ).contains_key(k),
        forall|k: u64|
            #[trigger] data.db.players.as_map().contains_key(k) ==> {
                let restored = data.db.players.as_map()[k];
                let original = d.players.as_map()[k];
                &&& restored.equipment@ == original.equipment@
                &&& restored.name@ == original.name@
                &&& restored.uid == original.uid
                &&& restored.level == original.level
                &&& restored.class == original.class
                &&& restored.stats is None
                &&& restored.fetch_date is None
            },
{
    crate::crawler::lemma_pages_disjoint_member(q.todo_pages@, q.invalid_pages@);
    crate::crawler::lemma_pages_disjoint_member(q.in_flight_pages@, q.invalid_pages@);
    crate::crawler::lemma_names_disjoint_member(q.todo_accounts@, q.invalid_accounts@);
    crate::crawler::lemma_names_disjoint_member(q.in_flight_accounts@, q.invalid_accounts@);
    assert forall|p: usize|
        #[trigger] data.queue.todo_pages@.contains(p) <==> (q.todo_pages@.contains(p)
            || q.in_flight_pages@.contains(p)) by {
        assert(data.queue.todo_pages@.contains(p) <==> (stripped.todo_pages@.contains(p)
            && !stripped.invalid_pages@.contains(p)));
        assert(stripped.todo_pages@.contains(p) == b.todo_pages@.contains(p));
        assert(stripped.invalid_pages@.contains(p) == b.invalid_pages@.contains(p));
    }
    assert forall|y: Seq<char>|
        #[trigger] contains_name(data.queue.todo_accounts@, y) <==> (contains_name(
        q.todo_accounts@,
        y,
    ) || contains_name(q.in_flight_accounts@, y)) by {
        assert(contains_name(data.queue.todo_accounts@, y) <==> (contains_name(
            stripped.todo_accounts@,
            y,
        ) && !contains_name(stripped.invalid_accounts@, y)));
        assert(contains_name(stripped.todo_accounts@, y) == contains_name(b.todo_accounts@, y));
        assert(contains_name(stripped.invalid_accounts@, y) == contains_name(
            b.invalid_accounts@,
            y,
        ));
    }
    // the record maps hold the same player ids
    assert forall|k: u64|
        #[trigger] data.db.players.as_map().contains_key(k) <==> d.players.as_map().contains_key(
        k,
    ) by {
        if data.db.players.as_map().contains_key(k) {
            let m = choose|m: int|
                0 <= m < stripped.characters@.len() && (#[trigger] stripped.characters@[
                m]).uid as u64 == k;
            assert(b.characters@[m].uid as u64 == k);
            assert(d.players.as_map().contains_key(k));
        }
        if d.players.as_map().contains_key(k) {
            let m = choose|m: int|
                0 <= m < b.characters@.len() && (#[trigger] b.characters@[m]).uid as u64 == k;
            assert(stripped.characters@[m].uid as u64 == k);
        }
    }
    // and the records themselves, modulo the dropped fields
    assert forall|k: u64| #[trigger] data.db.players.as_map().contains_key(k) implies {
        let restored = data.db.players.as_map()[k];
        let original = d.players.as_map()[k];
        &&& restored.equipment@ == original.equipment@
        &&& restored.name@ == original.name@
        &&& restored.uid == original.uid
        &&& restored.level == original.level
        &&& restored.class == original.class
        &&& restored.stats is None
        &&& restored.fetch_date is None
    } by {
        let m = choose|m: int|
            {
                &&& 0 <= m < stripped.characters@.len()
                &&& (#[trigger] stripped.characters@[m]).uid as u64 == k
                &&& restored_record(data.db.players.as_map()[k], stripped.characters@[m])
                &&& forall|n: int|
                    m < n < stripped.characters@.len() ==> (#[trigger] stripped.characters@[
                    n]).uid as u64 != k
            };
        assert(b.characters@[m].uid as u64 == k);
        assert(b.characters@[m]@ == d.players.as_map()[k]@);
        assert(d.players.as_map()[k].wf());
        assert(stripped.characters@[m].equipment@ == d.players.as_map()[k].equipment@);
        assert(stripped.characters@[m].equipment@.no_duplicates());
    }
    // the level bucket survives unchanged
    assert forall|l: u64, y: Seq<char>|
        #[trigger] crate::crawler::in_bucket(data.queue.lvl_skipped_accounts.as_map(), l, y)
            <==> crate::crawler::in_bucket(q.lvl_skipped_accounts.as_map(), l, y) by {
        assert(stripped.lvl_skipped_accounts@ == b.lvl_skipped_accounts@);
        if crate::crawler::in_bucket(data.queue.lvl_skipped_accounts.as_map(), l, y) {
            assert(in_snapshot_bucket(b.lvl_skipped_accounts@, l, y));
        }
        if crate::crawler::in_bucket(q.lvl_skipped_accounts.as_map(), l, y) {
            assert(in_snapshot_bucket(b.lvl_skipped_accounts@, l, y));
            assert(crate::crawler::in_bucket(data.queue.lvl_skipped_accounts.as_map(), l, y));
        }
    }
}

} // verus!
