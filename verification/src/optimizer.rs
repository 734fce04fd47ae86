//! The target optimizer: counts, for every known player, how many of
//! their items the local scrapbook still misses, ranks the players, and
//! simulates a greedy battle order. Ranking prefers more missing items,
//! then lower stats and lower level (easier kills); remaining ties are
//! broken by name and then by player id, one consistent tie-break for
//! every view.

use vstd::prelude::*;

use crate::character::{spec_item_model_id, CharacterInfo, NPC_MODEL_CUTOFF};
use crate::crawler::contains_name;
use crate::db::PlayerDb;
use crate::idset::IdSet;
use crate::vecmap::VecMap;

verus! {

/// One candidate opponent with the number of its items the local player
/// was missing when the list was built; a snapshot, not live.
#[derive(Debug, Clone, PartialEq)]
pub struct AttackTarget {
    pub missing: usize,
    pub info: CharacterInfo,
}

/// An item that no opponent can carry: NPC-only gear past the model
/// number cutoff.
pub open spec fn spec_is_npc_item(code: u64) -> bool {
    spec_item_model_id(code) >= NPC_MODEL_CUTOFF
}

pub fn is_npc_item(code: u64) -> (r: bool)
    ensures
        r == spec_is_npc_item(code),
{
    crate::character::item_model_id(code) >= NPC_MODEL_CUTOFF
}

/// Strict lexicographic order on byte sequences.
pub open spec fn bytes_lt(a: Seq<u8>, b: Seq<u8>) -> bool
    decreases a.len(),
{
    if b.len() == 0 {
        false
    } else if a.len() == 0 {
        true
    } else if a[0] != b[0] {
        a[0] < b[0]
    } else {
        bytes_lt(a.drop_first(), b.drop_first())
    }
}

/// A record's name as utf-8 bytes; names compare by these.
pub open spec fn name_bytes(c: CharacterInfo) -> Seq<u8> {
    vstd::utf8::encode_utf8(c.name@)
}

/// With equal prefixes of length `i`, the byte order is decided past them.
proof fn lemma_bytes_lt_skip(a: Seq<u8>, b: Seq<u8>, i: int)
    requires
        0 <= i <= a.len(),
        i <= b.len(),
        forall|j: int| 0 <= j < i ==> a[j] == b[j],
    ensures
        bytes_lt(a, b) == bytes_lt(a.skip(i), b.skip(i)),
    decreases i,
{
    if i > 0 {
        assert(a[0] == b[0]);
        assert(a.drop_first().skip(i - 1) =~= a.skip(i));
        assert(b.drop_first().skip(i - 1) =~= b.skip(i));
        assert forall|j: int| 0 <= j < i - 1 implies a.drop_first()[j] == b.drop_first()[j] by {
            assert(a[j + 1] == b[j + 1]);
        }
        lemma_bytes_lt_skip(a.drop_first(), b.drop_first(), i - 1);
    } else {
        assert(a.skip(0) == a);
        assert(b.skip(0) == b);
    }
}

/// The byte order is total: two sequences are equal or one precedes.
proof fn lemma_bytes_lt_total(a: Seq<u8>, b: Seq<u8>)
    ensures
        a == b || bytes_lt(a, b) || bytes_lt(b, a),
    decreases a.len(),
{
    if b.len() == 0 {
        if a.len() == 0 {
            assert(a =~= b);
        }
    } else if a.len() == 0 {
    } else if a[0] == b[0] {
        lemma_bytes_lt_total(a.drop_first(), b.drop_first());
        if a.drop_first() == b.drop_first() {
            assert(a.drop_first().len() == a.len() - 1);
            assert(b.drop_first().len() == b.len() - 1);
            assert(a.len() == b.len());
            assert forall|i: int| 0 <= i < a.len() implies a[i] == b[i] by {
                if i > 0 {
                    assert(a.drop_first()[i - 1] == b.drop_first()[i - 1]);
                }
            }
            assert(a =~= b);
        }
    }
}

/// No two distinct byte lists precede each other.
proof fn lemma_bytes_lt_asym(a: Seq<u8>, b: Seq<u8>)
    ensures
        !(bytes_lt(a, b) && bytes_lt(b, a)),
    decreases a.len(),
{
    if a.len() > 0 && b.len() > 0 && a[0] == b[0] {
        lemma_bytes_lt_asym(a.drop_first(), b.drop_first());
    }
}

/// The byte order composes.
proof fn lemma_bytes_lt_trans(a: Seq<u8>, b: Seq<u8>, c: Seq<u8>)
    requires
        bytes_lt(a, b),
        bytes_lt(b, c),
    ensures
        bytes_lt(a, c),
    decreases a.len(),
{
    if a.len() > 0 {
        if a[0] == b[0] && b[0] == c[0] {
            lemma_bytes_lt_trans(a.drop_first(), b.drop_first(), c.drop_first());
        }
    }
}

/// Ranking order over targets: more missing items first, then lower
/// stats, then lower level, then the name (by its utf-8 bytes), then
/// lower player id.
pub open spec fn target_le(a: AttackTarget, b: AttackTarget) -> bool {
    if a.missing != b.missing {
        a.missing > b.missing
    } else if a.info.stats_value() != b.info.stats_value() {
        a.info.stats_value() < b.info.stats_value()
    } else if a.info.level != b.info.level {
        a.info.level < b.info.level
    } else if name_bytes(a.info) != name_bytes(b.info) {
        bytes_lt(name_bytes(a.info), name_bytes(b.info))
    } else {
        a.info.uid <= b.info.uid
    }
}

/// Any two targets compare one way or the other.
pub proof fn lemma_target_le_total(a: AttackTarget, b: AttackTarget)
    ensures
        target_le(a, b) || target_le(b, a),
{
    if a.missing == b.missing && a.info.stats_value() == b.info.stats_value() && a.info.level
        == b.info.level {
        lemma_bytes_lt_total(name_bytes(a.info), name_bytes(b.info));
    }
}

/// The ranking order composes.
pub proof fn lemma_target_le_trans(a: AttackTarget, b: AttackTarget, c: AttackTarget)
    requires
        target_le(a, b),
        target_le(b, c),
    ensures
        target_le(a, c),
{
    let na = name_bytes(a.info);
    let nb = name_bytes(b.info);
    let nc = name_bytes(c.info);
    lemma_bytes_lt_total(na, nb);
    lemma_bytes_lt_total(nb, nc);
    lemma_bytes_lt_total(na, nc);
    lemma_bytes_lt_asym(na, nb);
    lemma_bytes_lt_asym(nb, nc);
    lemma_bytes_lt_asym(na, nc);
    if bytes_lt(na, nb) && bytes_lt(nb, nc) {
        lemma_bytes_lt_trans(na, nb, nc);
    }
}

/// Whether two byte lists hold the same bytes.
fn bytes_eq(a: &[u8], b: &[u8]) -> (r: bool)
    ensures
        r == (a@ == b@),
{
    if a.len() != b.len() {
        return false;
    }
    let mut i: usize = 0;
    while i < a.len()
        invariant
            i <= a@.len(),
            a@.len() == b@.len(),
            forall|j: int| 0 <= j < i ==> a@[j] == b@[j],
        decreases a@.len() - i,
    {
        if a[i] != b[i] {
            return false;
        }
        i = i + 1;
    }
    proof {
        assert(a@ =~= b@);
    }
    true
}

/// Whether the first byte list strictly precedes the second.
fn bytes_less(a: &[u8], b: &[u8]) -> (r: bool)
    ensures
        r == bytes_lt(a@, b@),
{
    let mut i: usize = 0;
    while i < a.len() && i < b.len()
        invariant
            i <= a@.len(),
            i <= b@.len(),
            forall|j: int| 0 <= j < i ==> a@[j] == b@[j],
        decreases a@.len() - i,
    {
        if a[i] != b[i] {
            proof {
                lemma_bytes_lt_skip(a@, b@, i as int);
                assert(a@.skip(i as int)[0] == a@[i as int]);
                assert(b@.skip(i as int)[0] == b@[i as int]);
            }
            return a[i] < b[i];
        }
        i = i + 1;
    }
    proof {
        lemma_bytes_lt_skip(a@, b@, i as int);
    }
    a.len() < b.len()
}

/// A list sorted by the ranking order.
pub open spec fn sorted_targets(s: Seq<AttackTarget>) -> bool {
    forall|i: int, j: int| 0 <= i < j < s.len() ==> target_le(s[i], s[j])
}

fn target_precedes(a: &AttackTarget, b: &AttackTarget) -> (r: bool)
    ensures
        r == target_le(*a, *b),
{
    if a.missing != b.missing {
        a.missing > b.missing
    } else {
        let a_stats = match a.info.stats {
            Some(s) => s,
            None => 0,
        };
        let b_stats = match b.info.stats {
            Some(s) => s,
            None => 0,
        };
        if a_stats != b_stats {
            a_stats < b_stats
        } else if a.info.level != b.info.level {
            a.info.level < b.info.level
        } else {
            let a_name = a.info.name.as_str().as_bytes();
            let b_name = b.info.name.as_str().as_bytes();
            proof {
                assert(a_name@ == name_bytes(a.info));
                assert(b_name@ == name_bytes(b.info));
            }
            if !bytes_eq(a_name, b_name) {
                bytes_less(a_name, b_name)
            } else {
                a.info.uid <= b.info.uid
            }
        }
    }
}

/// Selection sort by the ranking order.
fn sort_targets(v: &mut Vec<AttackTarget>)
    ensures
        final(v)@.to_multiset() == old(v)@.to_multiset(),
        sorted_targets(final(v)@),
{
    broadcast use vstd::seq_lib::group_to_multiset_ensures;

    let mut out: Vec<AttackTarget> = Vec::new();
    while v.len() > 0
        invariant
            out@.to_multiset().add(v@.to_multiset()) == old(v)@.to_multiset(),
            sorted_targets(out@),
            forall|i: int, j: int|
                0 <= i < out@.len() && 0 <= j < v@.len() ==> target_le(out@[i], v@[j]),
        decreases v.len(),
    {
        let mut best: usize = 0;
        let mut i: usize = 1;
        while i < v.len()
            invariant
                best < v@.len(),
                i <= v@.len(),
                v@.len() > 0,
                forall|j: int| 0 <= j < i ==> target_le(v@[best as int], v@[j]),
            decreases v.len() - i,
        {
            let improved = target_precedes(&v[i], &v[best]) && !target_precedes(&v[best], &v[i]);
            let ghost prior = best;
            if improved {
                best = i;
            }
            proof {
                assert forall|j: int| 0 <= j < i + 1 implies target_le(v@[best as int], v@[j]) by {
                    if improved {
                        if j != i {
                            lemma_target_le_trans(v@[i as int], v@[prior as int], v@[j]);
                        }
                    } else {
                        if j == i {
                            lemma_target_le_total(v@[best as int], v@[i as int]);
                        }
                    }
                }
            }
            i = i + 1;
        }
        let ghost v_before = v@;
        let ghost out_before = out@;
        let x = v.remove(best);
        out.push(x);
        proof {
            broadcast use vstd::multiset::group_multiset_axioms;
            broadcast use vstd::seq_lib::group_to_multiset_ensures;

            assert(v@ == v_before.remove(best as int));
            assert(v_before[best as int] == x);
            assert(out@.to_multiset().add(v@.to_multiset()) == old(v)@.to_multiset()) by {
                assert(v@.to_multiset() == v_before.to_multiset().remove(x));
                assert(v_before.contains(x));
                assert(v_before.to_multiset().count(x) > 0);
                assert(v_before.to_multiset() =~= v@.to_multiset().insert(x));
                assert(out@.to_multiset() == out_before.to_multiset().insert(x));
                assert(out@.to_multiset().add(v@.to_multiset()) =~= out_before.to_multiset().add(
                    v_before.to_multiset(),
                ));
            }
            assert forall|j: int| 0 <= j < v@.len() implies target_le(x, v@[j]) by {
                let j_orig: int = if j < best {
                    j
                } else {
                    j + 1
                };
                assert(v@[j] == v_before[j_orig]);
            }
        }
    }
    *v = out;
}

/// How many of a player's items the owned set still misses: distinct
/// owned-by-them items that are neither owned locally nor NPC-only.
pub open spec fn missing_count(equip: Seq<u64>, owned: Set<u64>) -> int {
    equip.filter(|it: u64| !owned.contains(it) && !spec_is_npc_item(it)).len() as int
}

/// A player record that passes the optimizer's filters: level and stats
/// ceilings, and fewer consecutive losses than the blacklist threshold.
pub open spec fn passes_filters(
    c: CharacterInfo,
    max_level: u16,
    max_attributes: u32,
    blacklist: Map<u64, (String, usize)>,
    blacklist_threshold: usize,
) -> bool {
    &&& c.level <= max_level
    &&& c.stats_value() <= max_attributes
    &&& (blacklist.contains_key(c.uid as u64) ==> blacklist[c.uid as u64].1 < (
    if blacklist_threshold >= 1 {
        blacklist_threshold
    } else {
        1
    }))
}

/// Counts, for every eligible player, how many of their items the owned
/// set misses; players missing nothing are left out, as are players
/// failing the level, stats or blacklist filters.
pub fn calc_per_player_count(
    db: &PlayerDb,
    owned: &IdSet,
    max_level: u16,
    max_attributes: u32,
    blacklist: &VecMap<(String, usize)>,
    blacklist_threshold: usize,
) -> (r: VecMap<usize>)
    requires
        db.wf(),
        owned.wf(),
        blacklist.wf(),
    ensures
        r.wf(),
        forall|k: u64|
            #[trigger] r.as_map().contains_key(k) <==> (db.players.as_map().contains_key(k)
                && passes_filters(
                db.players.as_map()[k],
                max_level,
                max_attributes,
                blacklist.as_map(),
                blacklist_threshold,
            ) && missing_count(db.players.as_map()[k].equipment@, owned.as_set()) >= 1),
        forall|k: u64| #[trigger]
            r.as_map().contains_key(k) ==> r.as_map()[k] as int == missing_count(
                db.players.as_map()[k].equipment@,
                owned.as_set(),
            ),
{
    proof {
        db.players.lemma_model();
    }
    let mut r: VecMap<usize> = VecMap::new();
    let n = db.players.len();
    let mut i: usize = 0;
    while i < n
        invariant
            n == db.players.entries().len(),
            i <= n,
            db.wf(),
            owned.wf(),
            blacklist.wf(),
            r.wf(),
            forall|k: u64|
                #[trigger] r.as_map().contains_key(k) <==> (exists|j: int|
                    0 <= j < i && (#[trigger] db.players.entries()[j]).0 == k && passes_filters(
                        db.players.as_map()[k],
                        max_level,
                        max_attributes,
                        blacklist.as_map(),
                        blacklist_threshold,
                    ) && missing_count(db.players.as_map()[k].equipment@, owned.as_set()) >= 1),
            forall|k: u64| #[trigger]
                r.as_map().contains_key(k) ==> r.as_map()[k] as int == missing_count(
                    db.players.as_map()[k].equipment@,
                    owned.as_set(),
                ),
        decreases n - i,
    {
        let entry = db.players.entry_at(i);
        let key = entry.0;
        let ghost record = db.players.as_map()[key];
        let ghost pred = |it: u64| !owned.as_set().contains(it) && !spec_is_npc_item(it);

        // count the record's missing items
        let equip = &entry.1.equipment;
        let mut count: usize = 0;
        let mut m: usize = 0;
        while m < equip.len()
            invariant
                m <= equip@.len(),
                equip@ == record.equipment@,
                owned.wf(),
                pred == (|it: u64| !owned.as_set().contains(it) && !spec_is_npc_item(it)),
                count as int == equip@.take(m as int).filter(pred).len(),
                count <= m,
            decreases equip@.len() - m,
        {
            proof {
                assert(equip@.take(m + 1) =~= equip@.take(m as int).push(equip@[m as int]));
                equip@.take(m as int).lemma_filter_push(equip@[m as int], pred);
                equip@.take(m as int).lemma_filter_len(pred);
            }
            let item = equip[m];
            if !owned.contains(item) && !is_npc_item(item) {
                count = count + 1;
            }
            m = m + 1;
        }
        proof {
            assert(equip@.take(equip@.len() as int) == equip@);
            assert(count as int == missing_count(record.equipment@, owned.as_set()));
        }

        // apply the level, stats and blacklist filters
        let stats_ok = (match entry.1.stats {
            Some(s) => s,
            None => 0,
        }) <= max_attributes;
        let threshold = if blacklist_threshold >= 1 {
            blacklist_threshold
        } else {
            1
        };
        let blacklist_ok = match blacklist.get(entry.1.uid as u64) {
            Some(e) => e.1 < threshold,
            None => true,
        };
        proof {
            assert(record.uid as u64 == key);
        }
        let keep = entry.1.level <= max_level && stats_ok && blacklist_ok && count >= 1;
        if keep {
            r.insert(key, count);
        }
        proof {
            assert forall|k: u64|
                #[trigger] r.as_map().contains_key(k) <==> (exists|j: int|
                    0 <= j < i + 1 && (#[trigger] db.players.entries()[j]).0 == k
                        && passes_filters(
                        db.players.as_map()[k],
                        max_level,
                        max_attributes,
                        blacklist.as_map(),
                        blacklist_threshold,
                    ) && missing_count(db.players.as_map()[k].equipment@, owned.as_set())
                        >= 1) by {
                if r.as_map().contains_key(k) {
                    if k != key {
                        let j = choose|j: int|
                            0 <= j < i && (#[trigger] db.players.entries()[j]).0 == k
                                && passes_filters(
                                db.players.as_map()[k],
                                max_level,
                                max_attributes,
                                blacklist.as_map(),
                                blacklist_threshold,
                            ) && missing_count(db.players.as_map()[k].equipment@, owned.as_set())
                                >= 1;
                        assert(db.players.entries()[j].0 == k);
                    } else {
                        assert(db.players.entries()[i as int].0 == key);
                    }
                }
            }
        }
        i = i + 1;
    }
    proof {
        assert forall|k: u64|
            #[trigger] r.as_map().contains_key(k) <==> (db.players.as_map().contains_key(k)
                && passes_filters(
                db.players.as_map()[k],
                max_level,
                max_attributes,
                blacklist.as_map(),
                blacklist_threshold,
            ) && missing_count(db.players.as_map()[k].equipment@, owned.as_set()) >= 1) by {
            if db.players.as_map().contains_key(k) {
                assert(crate::vecmap::pair_keys(db.players.entries()).contains(k));
                let j = choose|j: int|
                    0 <= j < crate::vecmap::pair_keys(db.players.entries()).len()
                        && crate::vecmap::pair_keys(db.players.entries())[j] == k;
                assert(db.players.entries()[j].0 == k);
            }
            if r.as_map().contains_key(k) {
                let j = choose|j: int|
                    0 <= j < db.players.entries().len() && (#[trigger] db.players.entries()[j]).0
                        == k;
                assert(crate::vecmap::pair_keys(db.players.entries())[j] == k);
                assert(db.players.as_map().contains_key(k));
            }
        }
    }
    r
}

/// A player that belongs in the battle plan: a known record that passes
/// the filters, misses at least one item, and is not classified invalid.
pub open spec fn plan_candidate(
    db: PlayerDb,
    owned: Set<u64>,
    max_level: u16,
    max_attributes: u32,
    blacklist: Map<u64, (String, usize)>,
    blacklist_threshold: usize,
    invalid: Seq<String>,
    k: u64,
) -> bool {
    &&& db.players.as_map().contains_key(k)
    &&& passes_filters(
        db.players.as_map()[k],
        max_level,
        max_attributes,
        blacklist,
        blacklist_threshold,
    )
    &&& missing_count(db.players.as_map()[k].equipment@, owned) >= 1
    &&& !contains_name(invalid, db.players.as_map()[k].name@)
}

/// The target `t` presents player `k` with their full missing count.
pub open spec fn plan_target_for(
    t: AttackTarget,
    db: PlayerDb,
    owned: Set<u64>,
    k: u64,
) -> bool {
    t.missing as int == missing_count(db.players.as_map()[k].equipment@, owned) && t.info@
        == db.players.as_map()[k]@
}

/// The target a plan candidate presents: their record with their full
/// missing count.
pub open spec fn plan_top_target(db: PlayerDb, owned: Set<u64>, k: u64) -> AttackTarget {
    AttackTarget {
        missing: missing_count(db.players.as_map()[k].equipment@, owned) as usize,
        info: db.players.as_map()[k],
    }
}

/// The ranking order only reads a target's count and its record's value.
pub proof fn lemma_target_le_view(a: AttackTarget, b: AttackTarget, b2: AttackTarget)
    requires
        b.missing == b2.missing,
        b.info@ == b2.info@,
    ensures
        target_le(a, b) == target_le(a, b2),
{
    assert(b.info.stats == b2.info.stats);
    assert(b.info.level == b2.info.level);
    assert(b.info.uid == b2.info.uid);
    assert(b.info.name@ == b2.info.name@);
    assert(name_bytes(b.info) == name_bytes(b2.info));
}

/// A count-map key that yields a rankable target: a positive missing
/// count, a known record, and a name not classified invalid.
pub open spec fn key_eligible(
    counts: Map<u64, usize>,
    players: Map<u64, CharacterInfo>,
    invalid: Seq<String>,
    k: u64,
) -> bool {
    &&& counts.contains_key(k)
    &&& counts[k] >= 1
    &&& players.contains_key(k)
    &&& !crate::crawler::contains_name(invalid, players[k].name@)
}

/// The target `t` presents the count-map entry of key `k`.
pub open spec fn is_target_for(
    t: AttackTarget,
    counts: Map<u64, usize>,
    players: Map<u64, CharacterInfo>,
    k: u64,
) -> bool {
    t.missing == counts[k] && t.info@ == players[k]@
}

/// Ranks the players of the count map: every eligible player once, in
/// ranking order, cut down to the first `max_out`.
#[verifier::rlimit(60)]
pub fn find_best(
    counts: &VecMap<usize>,
    db: &PlayerDb,
    max_out: usize,
    invalid: &Vec<String>,
) -> (r: Vec<AttackTarget>)
    requires
        counts.wf(),
        db.wf(),
    ensures
        sorted_targets(r@),
        r@.len() <= max_out,
        forall|m: int|
            0 <= m < r@.len() ==> key_eligible(
                counts.as_map(),
                db.players.as_map(),
                invalid@,
                (#[trigger] r@[m]).info.uid as u64,
            ) && is_target_for(
                r@[m],
                counts.as_map(),
                db.players.as_map(),
                r@[m].info.uid as u64,
            ),
        forall|m: int| 0 <= m < r@.len() ==> (#[trigger] r@[m]).missing >= 1,
        // the whole eligible field is ranked before anything is cut
        exists|full: Seq<AttackTarget>|
            {
                &&& sorted_targets(full)
                &&& forall|m: int|
                    0 <= m < full.len() ==> key_eligible(
                        counts.as_map(),
                        db.players.as_map(),
                        invalid@,
                        (#[trigger] full[m]).info.uid as u64,
                    ) && is_target_for(
                        full[m],
                        counts.as_map(),
                        db.players.as_map(),
                        full[m].info.uid as u64,
                    )
                &&& forall|k: u64|
                    #[trigger] key_eligible(counts.as_map(), db.players.as_map(), invalid@, k)
                        ==> exists|m: int|
                        0 <= m < full.len() && is_target_for(
                            #[trigger] full[m],
                            counts.as_map(),
                            db.players.as_map(),
                            k,
                        )
                &&& forall|a: int, b: int|
                    0 <= a < b < full.len() ==> (#[trigger] full[a]).info.uid != (
                    #[trigger] full[b]).info.uid
                &&& r@ == full.take(
                    if max_out as int <= full.len() {
                        max_out as int
                    } else {
                        full.len() as int
                    },
                )
            },
{
    proof {
        counts.lemma_model();
    }
    let mut cand: Vec<AttackTarget> = Vec::new();
    let n = counts.len();
    let mut i: usize = 0;
    while i < n
        invariant
            n == counts.entries().len(),
            i <= n,
            counts.wf(),
            db.wf(),
            forall|a: int|
                0 <= a < cand@.len() ==> key_eligible(
                    counts.as_map(),
                    db.players.as_map(),
                    invalid@,
                    (#[trigger] cand@[a]).info.uid as u64,
                ) && is_target_for(
                    cand@[a],
                    counts.as_map(),
                    db.players.as_map(),
                    cand@[a].info.uid as u64,
                ),
            forall|a: int, b: int|
                0 <= a < b < cand@.len() ==> (#[trigger] cand@[a]).info.uid != (
                #[trigger] cand@[b]).info.uid,
            forall|a: int|
                #![trigger cand@[a]]
                0 <= a < cand@.len() ==> exists|j: int|
                    0 <= j < i && (#[trigger] counts.entries()[j]).0 == cand@[a].info.uid as u64,
            forall|j: int|
                0 <= j < i && key_eligible(
                    counts.as_map(),
                    db.players.as_map(),
                    invalid@,
                    (#[trigger] counts.entries()[j]).0,
                ) ==> exists|a: int|
                    0 <= a < cand@.len() && is_target_for(
                        #[trigger] cand@[a],
                        counts.as_map(),
                        db.players.as_map(),
                        counts.entries()[j].0,
                    ),
        decreases n - i,
    {
        let entry = counts.entry_at(i);
        let key = entry.0;
        let count = entry.1;
        let ghost cand_before = cand@;
        let mut keep = false;
        if count >= 1 && key <= u32::MAX as u64 {
            match db.get(key as u32) {
                Some(info) => {
                    proof {
                        assert(info.uid as u64 == key as u32 as u64);
                    }
                    if info.uid as u64 == key && !crate::crawler::contains_account(
                        invalid,
                        &info.name,
                    ) {
                        let target = AttackTarget { missing: count, info: info.duplicate() };
                        proof {
                            assert(is_target_for(
                                target,
                                counts.as_map(),
                                db.players.as_map(),
                                key,
                            ));
                        }
                        cand.push(target);
                        keep = true;
                    }
                },
                None => {},
            }
        }
        proof {
            if !keep {
                // the key yields no eligible target
                if key_eligible(counts.as_map(), db.players.as_map(), invalid@, key) {
                    assert(db.players.as_map()[key].uid as u64 == key);
                    assert(key <= u32::MAX as u64);
                    assert(false);
                }
            }
            assert forall|j: int|
                0 <= j < i + 1 && key_eligible(
                    counts.as_map(),
                    db.players.as_map(),
                    invalid@,
                    (#[trigger] counts.entries()[j]).0,
                ) implies exists|a: int|
                0 <= a < cand@.len() && is_target_for(
                    #[trigger] cand@[a],
                    counts.as_map(),
                    db.players.as_map(),
                    counts.entries()[j].0,
                ) by {
                if j < i {
                    let a = choose|a: int|
                        0 <= a < cand_before.len() && is_target_for(
                            #[trigger] cand_before[a],
                            counts.as_map(),
                            db.players.as_map(),
                            counts.entries()[j].0,
                        );
                    assert(cand@[a] == cand_before[a]);
                } else {
                    assert(is_target_for(
                        cand@[cand@.len() - 1],
                        counts.as_map(),
                        db.players.as_map(),
                        counts.entries()[j].0,
                    ));
                }
            }
            assert forall|a: int, b: int|
                0 <= a < b < cand@.len() implies (#[trigger] cand@[a]).info.uid != (
            #[trigger] cand@[b]).info.uid by {
                if b == cand@.len() - 1 && keep {
                    let j = choose|j: int|
                        0 <= j < i && (#[trigger] counts.entries()[j]).0 == (
                        cand@[a]).info.uid as u64;
                    assert(crate::vecmap::pair_keys(counts.entries())[j]
                        == counts.entries()[j].0);
                    assert(crate::vecmap::pair_keys(counts.entries())[i as int] == key);
                }
            }
        }
        i = i + 1;
    }
    proof {
        assert forall|k: u64|
            #[trigger] key_eligible(counts.as_map(), db.players.as_map(), invalid@, k) implies
            exists|a: int|
            0 <= a < cand@.len() && is_target_for(
                #[trigger] cand@[a],
                counts.as_map(),
                db.players.as_map(),
                k,
            ) by {
            assert(crate::vecmap::pair_keys(counts.entries()).contains(k));
            let j = choose|j: int|
                0 <= j < crate::vecmap::pair_keys(counts.entries()).len()
                    && crate::vecmap::pair_keys(counts.entries())[j] == k;
            assert(counts.entries()[j].0 == k);
        }
        assert(cand@.no_duplicates()) by {
            assert forall|a: int, b: int|
                0 <= a < b < cand@.len() implies cand@[a] != cand@[b] by {
                assert(cand@[a].info.uid != cand@[b].info.uid);
            }
        }
    }
    let ghost unsorted = cand@;
    sort_targets(&mut cand);
    proof {
        crate::crawler::lemma_perm_keeps_members(unsorted, cand@);
        assert forall|m: int|
            0 <= m < cand@.len() implies key_eligible(
            counts.as_map(),
            db.players.as_map(),
            invalid@,
            (#[trigger] cand@[m]).info.uid as u64,
        ) && is_target_for(
            cand@[m],
            counts.as_map(),
            db.players.as_map(),
            cand@[m].info.uid as u64,
        ) by {
            assert(cand@.contains(cand@[m]));
            assert(unsorted.contains(cand@[m]));
            let a = choose|a: int| 0 <= a < unsorted.len() && unsorted[a] == cand@[m];
        }
        assert forall|k: u64|
            #[trigger] key_eligible(counts.as_map(), db.players.as_map(), invalid@, k) implies
            exists|m: int|
            0 <= m < cand@.len() && is_target_for(
                #[trigger] cand@[m],
                counts.as_map(),
                db.players.as_map(),
                k,
            ) by {
            let a = choose|a: int|
                0 <= a < unsorted.len() && is_target_for(
                    #[trigger] unsorted[a],
                    counts.as_map(),
                    db.players.as_map(),
                    k,
                );
            assert(unsorted.contains(unsorted[a]));
            assert(cand@.contains(unsorted[a]));
            let m = choose|m: int| 0 <= m < cand@.len() && cand@[m] == unsorted[a];
        }
        assert forall|a: int, b: int|
            0 <= a < b < cand@.len() implies (#[trigger] cand@[a]).info.uid != (
        #[trigger] cand@[b]).info.uid by {
            if cand@[a] == cand@[b] {
                let ms = unsorted.to_multiset();
                broadcast use vstd::seq_lib::group_to_multiset_ensures;

                cand@.lemma_multiset_has_no_duplicates_conv();
            } else {
                assert(cand@.contains(cand@[a]));
                assert(cand@.contains(cand@[b]));
                assert(unsorted.contains(cand@[a]));
                assert(unsorted.contains(cand@[b]));
                let pa = choose|p: int| 0 <= p < unsorted.len() && unsorted[p] == cand@[a];
                let pb = choose|p: int| 0 <= p < unsorted.len() && unsorted[p] == cand@[b];
                if unsorted[pa].info.uid == unsorted[pb].info.uid {
                    if pa != pb {
                        assert(false);
                    }
                }
            }
        }
    }
    let ghost full = cand@;
    if cand.len() > max_out {
        cand.truncate(max_out);
    }
    proof {
        if max_out as int <= full.len() {
            assert(cand@ == full.take(max_out as int));
        } else {
            assert(cand@ == full.take(full.len() as int));
        }
    }
    cand
}

/// The whole ranking a player's filters produce: sorted, duplicate-free,
/// and holding exactly the plan candidates, each with their full missing
/// count.
pub open spec fn ranked_field(
    full: Seq<AttackTarget>,
    db: PlayerDb,
    owned: Set<u64>,
    max_level: u16,
    max_attributes: u32,
    blacklist: Map<u64, (String, usize)>,
    blacklist_threshold: usize,
    invalid: Seq<String>,
) -> bool {
    &&& sorted_targets(full)
    &&& forall|m: int|
        0 <= m < full.len() ==> plan_candidate(
            db,
            owned,
            max_level,
            max_attributes,
            blacklist,
            blacklist_threshold,
            invalid,
            (#[trigger] full[m]).info.uid as u64,
        ) && plan_target_for(full[m], db, owned, full[m].info.uid as u64)
    &&& forall|k: u64|
        #[trigger] plan_candidate(
            db,
            owned,
            max_level,
            max_attributes,
            blacklist,
            blacklist_threshold,
            invalid,
            k,
        ) ==> exists|m: int|
            0 <= m < full.len() && plan_target_for(#[trigger] full[m], db, owned, k)
    &&& forall|a: int, b: int|
        #![trigger full[a], full[b]]
        0 <= a < b < full.len() ==> full[a].info.uid != full[b].info.uid
}

/// Ranks the whole database for one player: the plan candidates under
/// the owned set and filters, in ranking order, cut down to `limit`.
#[verifier::rlimit(60)]
pub fn ranked_targets(
    db: &PlayerDb,
    owned: &IdSet,
    max_level: u16,
    max_attributes: u32,
    blacklist: &VecMap<(String, usize)>,
    blacklist_threshold: usize,
    limit: usize,
    invalid: &Vec<String>,
) -> (r: Vec<AttackTarget>)
    requires
        db.wf(),
        owned.wf(),
        blacklist.wf(),
    ensures
        sorted_targets(r@),
        r@.len() <= limit,
        forall|m: int|
            0 <= m < r@.len() ==> plan_candidate(
                *db,
                owned.as_set(),
                max_level,
                max_attributes,
                blacklist.as_map(),
                blacklist_threshold,
                invalid@,
                (#[trigger] r@[m]).info.uid as u64,
            ) && plan_target_for(r@[m], *db, owned.as_set(), r@[m].info.uid as u64),
        forall|m: int| 0 <= m < r@.len() ==> (#[trigger] r@[m]).missing >= 1,
        exists|full: Seq<AttackTarget>|
            #[trigger] ranked_field(
                full,
                *db,
                owned.as_set(),
                max_level,
                max_attributes,
                blacklist.as_map(),
                blacklist_threshold,
                invalid@,
            ) && r@ == full.take(
                if limit as int <= full.len() {
                    limit as int
                } else {
                    full.len() as int
                },
            ),
{
    let counts = calc_per_player_count(
        db,
        owned,
        max_level,
        max_attributes,
        blacklist,
        blacklist_threshold,
    );
    let r = find_best(&counts, db, limit, invalid);
    proof {
        let ow = owned.as_set();
        let cm = counts.as_map();
        let pm = db.players.as_map();
        let full = choose|full: Seq<AttackTarget>|
            {
                &&& sorted_targets(full)
                &&& forall|m: int|
                    0 <= m < full.len() ==> key_eligible(
                        cm,
                        pm,
                        invalid@,
                        (#[trigger] full[m]).info.uid as u64,
                    ) && is_target_for(full[m], cm, pm, full[m].info.uid as u64)
                &&& forall|k: u64|
                    #[trigger] key_eligible(cm, pm, invalid@, k) ==> exists|m: int|
                        0 <= m < full.len() && is_target_for(#[trigger] full[m], cm, pm, k)
                &&& forall|a: int, b: int|
                    #![trigger full[a], full[b]]
                    0 <= a < b < full.len() ==> full[a].info.uid != full[b].info.uid
                &&& r@ == full.take(
                    if limit as int <= full.len() {
                        limit as int
                    } else {
                        full.len() as int
                    },
                )
            };
        assert forall|m: int|
            0 <= m < full.len() implies plan_candidate(
            *db,
            ow,
            max_level,
            max_attributes,
            blacklist.as_map(),
            blacklist_threshold,
            invalid@,
            (#[trigger] full[m]).info.uid as u64,
        ) && plan_target_for(full[m], *db, ow, full[m].info.uid as u64) by {
            let k = full[m].info.uid as u64;
            assert(key_eligible(cm, pm, invalid@, k));
            assert(cm.contains_key(k));
            assert(cm[k] as int == missing_count(pm[k].equipment@, ow));
        }
        assert forall|k: u64|
            #[trigger] plan_candidate(
                *db,
                ow,
                max_level,
                max_attributes,
                blacklist.as_map(),
                blacklist_threshold,
                invalid@,
                k,
            ) implies exists|m: int|
            0 <= m < full.len() && plan_target_for(#[trigger] full[m], *db, ow, k) by {
            assert(cm.contains_key(k));
            assert(cm[k] as int == missing_count(pm[k].equipment@, ow));
            assert(key_eligible(cm, pm, invalid@, k));
            let m = choose|m: int| 0 <= m < full.len() && is_target_for(#[trigger] full[m], cm, pm, k);
            assert(plan_target_for(full[m], *db, ow, k));
        }
        assert(ranked_field(
            full,
            *db,
            ow,
            max_level,
            max_attributes,
            blacklist.as_map(),
            blacklist_threshold,
            invalid@,
        ));
        assert forall|m: int|
            0 <= m < r@.len() implies plan_candidate(
            *db,
            ow,
            max_level,
            max_attributes,
            blacklist.as_map(),
            blacklist_threshold,
            invalid@,
            (#[trigger] r@[m]).info.uid as u64,
        ) && plan_target_for(r@[m], *db, ow, r@[m].info.uid as u64) by {
            assert(r@[m] == full[m]);
        }
    }
    r
}

/// Greedy battle plan: repeatedly take the single best target, merge its
/// items into a simulated owned set, lower the counts of every co-owner
/// of those items, and repeat, bounded defensively at 300 steps. The
/// stop rule of the simulation holds by construction: the ranking never
/// yields a target with nothing missing, so no emitted target misses
/// zero items, and the plan never names a player twice.
#[verifier::rlimit(60)]
pub fn optimal_order(
    db: &PlayerDb,
    owned: &IdSet,
    max_level: u16,
    max_attributes: u32,
    blacklist: &VecMap<(String, usize)>,
    blacklist_threshold: usize,
    invalid: &Vec<String>,
) -> (r: Vec<AttackTarget>)
    requires
        db.wf(),
        owned.wf(),
        blacklist.wf(),
    ensures
        r@.len() <= 300,
        forall|m: int| 0 <= m < r@.len() ==> (#[trigger] r@[m]).missing >= 1,
        // every emitted target is a plan candidate's current record, and
        // its count never exceeds what the player truly misses
        forall|m: int|
            0 <= m < r@.len() ==> plan_candidate(
                *db,
                owned.as_set(),
                max_level,
                max_attributes,
                blacklist.as_map(),
                blacklist_threshold,
                invalid@,
                (#[trigger] r@[m]).info.uid as u64,
            ) && r@[m].info@ == db.players.as_map()[r@[m].info.uid as u64]@
                && r@[m].missing as int <= missing_count(
                db.players.as_map()[r@[m].info.uid as u64].equipment@,
                owned.as_set(),
            ),
        // no player is fought twice
        forall|a: int, b: int|
            #![trigger r@[a], r@[b]]
            0 <= a < b < r@.len() ==> r@[a].info.uid != r@[b].info.uid,
        // the plan opens with a top-ranked target of the initial counts
        r@.len() > 0 ==> forall|k: u64|
            #[trigger] plan_candidate(
                *db,
                owned.as_set(),
                max_level,
                max_attributes,
                blacklist.as_map(),
                blacklist_threshold,
                invalid@,
                k,
            ) ==> target_le(r@[0], plan_top_target(*db, owned.as_set(), k)),
        // work begins whenever any candidate exists
        (exists|k: u64|
            #[trigger] plan_candidate(
                *db,
                owned.as_set(),
                max_level,
                max_attributes,
                blacklist.as_map(),
                blacklist_threshold,
                invalid@,
                k,
            )) ==> r@.len() >= 1,
{
    let mut counts = calc_per_player_count(
        db,
        owned,
        max_level,
        max_attributes,
        blacklist,
        blacklist_threshold,
    );
    let ghost counts0 = counts;
    let mut sim_owned = owned.duplicate();
    let mut order: Vec<AttackTarget> = Vec::new();
    let mut iter: usize = 0;
    while iter < 300
        invariant
            iter <= 300,
            db.wf(),
            owned.wf(),
            counts.wf(),
            counts0.wf(),
            sim_owned.wf(),
            order@.len() == iter,
            iter == 0 ==> counts == counts0,
            // the initial counts hold exactly the filtered players with
            // their true missing counts
            forall|k: u64|
                #[trigger] counts0.as_map().contains_key(k) <==> (db.players.as_map().contains_key(
                    k,
                ) && passes_filters(
                    db.players.as_map()[k],
                    max_level,
                    max_attributes,
                    blacklist.as_map(),
                    blacklist_threshold,
                ) && missing_count(db.players.as_map()[k].equipment@, owned.as_set()) >= 1),
            forall|k: u64| #[trigger]
                counts0.as_map().contains_key(k) ==> counts0.as_map()[k] as int == missing_count(
                    db.players.as_map()[k].equipment@,
                    owned.as_set(),
                ),
            // the running counts only lose ground against the initial ones
            forall|k: u64| #[trigger]
                counts.as_map().contains_key(k) ==> counts0.as_map().contains_key(k)
                    && counts.as_map()[k] <= counts0.as_map()[k],
            // every emitted player's count has been spent
            forall|m: int|
                0 <= m < order@.len() ==> counts.as_map().contains_key(
                    (#[trigger] order@[m]).info.uid as u64,
                ) && counts.as_map()[order@[m].info.uid as u64] == 0,
            forall|m: int|
                0 <= m < order@.len() ==> plan_candidate(
                    *db,
                    owned.as_set(),
                    max_level,
                    max_attributes,
                    blacklist.as_map(),
                    blacklist_threshold,
                    invalid@,
                    (#[trigger] order@[m]).info.uid as u64,
                ) && order@[m].info@ == db.players.as_map()[order@[m].info.uid as u64]@
                    && order@[m].missing as int <= missing_count(
                    db.players.as_map()[order@[m].info.uid as u64].equipment@,
                    owned.as_set(),
                ) && order@[m].missing >= 1,
            forall|a: int, b: int|
                #![trigger order@[a], order@[b]]
                0 <= a < b < order@.len() ==> order@[a].info.uid != order@[b].info.uid,
            order@.len() > 0 ==> forall|k: u64|
                #[trigger] plan_candidate(
                    *db,
                    owned.as_set(),
                    max_level,
                    max_attributes,
                    blacklist.as_map(),
                    blacklist_threshold,
                    invalid@,
                    k,
                ) ==> target_le(order@[0], plan_top_target(*db, owned.as_set(), k)),
        decreases 300 - iter,
    {
        let ghost cm_call = counts.as_map();
        let ghost pm = db.players.as_map();
        let ghost ow = owned.as_set();
        let mut best = find_best(&counts, db, 1, invalid);
        let ghost best0 = best@;
        if best.len() == 0 {
            proof {
                if order@.len() == 0 {
                    assert forall|k: u64|
                        !plan_candidate(
                            *db,
                            ow,
                            max_level,
                            max_attributes,
                            blacklist.as_map(),
                            blacklist_threshold,
                            invalid@,
                            k,
                        ) by {
                        if plan_candidate(
                            *db,
                            ow,
                            max_level,
                            max_attributes,
                            blacklist.as_map(),
                            blacklist_threshold,
                            invalid@,
                            k,
                        ) {
                            assert(counts0.as_map().contains_key(k));
                            assert(counts0.as_map()[k] as int == missing_count(
                                pm[k].equipment@,
                                ow,
                            ));
                            assert(key_eligible(cm_call, pm, invalid@, k));
                            let full = choose|full: Seq<AttackTarget>|
                                {
                                    &&& sorted_targets(full)
                                    &&& forall|m: int|
                                        0 <= m < full.len() ==> key_eligible(
                                            cm_call,
                                            pm,
                                            invalid@,
                                            (#[trigger] full[m]).info.uid as u64,
                                        ) && is_target_for(
                                            full[m],
                                            cm_call,
                                            pm,
                                            full[m].info.uid as u64,
                                        )
                                    &&& forall|k2: u64|
                                        #[trigger] key_eligible(cm_call, pm, invalid@, k2)
                                            ==> exists|m: int|
                                            0 <= m < full.len() && is_target_for(
                                                #[trigger] full[m],
                                                cm_call,
                                                pm,
                                                k2,
                                            )
                                    &&& forall|a: int, b: int|
                                        #![trigger full[a], full[b]]
                                        0 <= a < b < full.len() ==> full[a].info.uid != full[
                                            b
                                        ].info.uid
                                    &&& best@ == full.take(
                                        if 1 <= full.len() {
                                            1int
                                        } else {
                                            full.len() as int
                                        },
                                    )
                                };
                            let m = choose|m: int|
                                0 <= m < full.len() && is_target_for(
                                    #[trigger] full[m],
                                    cm_call,
                                    pm,
                                    k,
                                );
                            assert(best@.len() == 1);
                        }
                    }
                }
            }
            return order;
        }
        let target = best.remove(0);
        let target_uid = target.info.uid;
        proof {
            assert(key_eligible(cm_call, pm, invalid@, target.info.uid as u64));
            assert(is_target_for(target, cm_call, pm, target.info.uid as u64));
            assert(cm_call.contains_key(target_uid as u64));
            if order@.len() == 0 {
                // the first pick is a top-ranked target of the initial counts
                let full = choose|full: Seq<AttackTarget>|
                    {
                        &&& sorted_targets(full)
                        &&& forall|m: int|
                            0 <= m < full.len() ==> key_eligible(
                                cm_call,
                                pm,
                                invalid@,
                                (#[trigger] full[m]).info.uid as u64,
                            ) && is_target_for(full[m], cm_call, pm, full[m].info.uid as u64)
                        &&& forall|k2: u64|
                            #[trigger] key_eligible(cm_call, pm, invalid@, k2) ==> exists|m: int|
                                0 <= m < full.len() && is_target_for(
                                    #[trigger] full[m],
                                    cm_call,
                                    pm,
                                    k2,
                                )
                        &&& forall|a: int, b: int|
                            #![trigger full[a], full[b]]
                            0 <= a < b < full.len() ==> full[a].info.uid != full[b].info.uid
                        &&& best0 == full.take(
                            if 1 <= full.len() {
                                1int
                            } else {
                                full.len() as int
                            },
                        )
                    };
                assert(full.len() >= 1);
                assert(target == full[0]);
                assert forall|k: u64|
                    #[trigger] plan_candidate(
                        *db,
                        ow,
                        max_level,
                        max_attributes,
                        blacklist.as_map(),
                        blacklist_threshold,
                        invalid@,
                        k,
                    ) implies target_le(target, plan_top_target(*db, ow, k)) by {
                    assert(counts0.as_map().contains_key(k));
                    assert(counts0.as_map()[k] as int == missing_count(pm[k].equipment@, ow));
                    assert(key_eligible(cm_call, pm, invalid@, k));
                    let m = choose|m: int|
                        0 <= m < full.len() && is_target_for(#[trigger] full[m], cm_call, pm, k);
                    if m > 0 {
                        assert(target_le(full[0], full[m]));
                    }
                    assert(full[m].missing == plan_top_target(*db, ow, k).missing);
                    assert(full[m].info@ == plan_top_target(*db, ow, k).info@);
                    lemma_target_le_view(target, full[m], plan_top_target(*db, ow, k));
                }
            }
        }
        // every co-owner of a newly found item just became less new
        let mut j: usize = 0;
        while j < target.info.equipment.len()
            invariant
                j <= target.info.equipment@.len(),
                db.wf(),
                owned.wf(),
                counts.wf(),
                counts0.wf(),
                sim_owned.wf(),
                forall|k: u64| #[trigger]
                    counts.as_map().contains_key(k) ==> counts0.as_map().contains_key(k)
                        && counts.as_map()[k] <= counts0.as_map()[k],
                forall|m: int|
                    0 <= m < order@.len() ==> counts.as_map().contains_key(
                        (#[trigger] order@[m]).info.uid as u64,
                    ) && counts.as_map()[order@[m].info.uid as u64] == 0,
                counts.as_map().contains_key(target_uid as u64),
            decreases target.info.equipment@.len() - j,
        {
            let item = target.info.equipment[j];
            if !sim_owned.contains(item) {
                match db.equipment.get(item) {
                    Some(owners) => {
                        let mut o: usize = 0;
                        let owner_count = owners.len();
                        while o < owner_count
                            invariant
                                owner_count == owners.seq().len(),
                                o <= owner_count,
                                counts.wf(),
                                counts0.wf(),
                                forall|k: u64| #[trigger]
                                    counts.as_map().contains_key(k) ==> counts0.as_map(
                                    ).contains_key(k) && counts.as_map()[k] <= counts0.as_map()[k],
                                forall|m: int|
                                    0 <= m < order@.len() ==> counts.as_map().contains_key(
                                        (#[trigger] order@[m]).info.uid as u64,
                                    ) && counts.as_map()[order@[m].info.uid as u64] == 0,
                                counts.as_map().contains_key(target_uid as u64),
                            decreases owner_count - o,
                        {
                            let owner = owners.at(o);
                            match counts.get(owner) {
                                Some(c) => {
                                    let reduced = (*c).saturating_sub(1);
                                    counts.insert(owner, reduced);
                                },
                                None => {},
                            }
                            o = o + 1;
                        }
                    },
                    None => {},
                }
            }
            j = j + 1;
        }
        // merge the target's items into the simulated owned set
        let mut j2: usize = 0;
        while j2 < target.info.equipment.len()
            invariant
                j2 <= target.info.equipment@.len(),
                sim_owned.wf(),
            decreases target.info.equipment@.len() - j2,
        {
            sim_owned.insert(target.info.equipment[j2]);
            j2 = j2 + 1;
        }
        // the emitted player leaves the running counts for good
        counts.insert(target_uid as u64, 0);
        proof {
            assert(pm.contains_key(target_uid as u64));
            assert(pm[target_uid as u64].uid as u64 == target_uid as u64);
        }
        order.push(target);
        iter = iter + 1;
    }
    order
}

/// One underworld lure candidate.
#[derive(Debug, Clone, PartialEq)]
pub struct LureTarget {
    pub uid: u32,
    pub name: String,
}

/// The consecutive-loss count after one more loss against opponent `k`.
pub open spec fn bumped_losses(m: Map<u64, (String, usize)>, k: u64) -> usize {
    let prev: usize = if m.contains_key(k) {
        m[k].1
    } else {
        0
    };
    if prev < usize::MAX {
        (prev + 1) as usize
    } else {
        usize::MAX
    }
}

/// The local player's optimization state for the scrapbook view.
pub struct ScrapbookInfo {
    /// Item codes the local player already owns.
    pub scrapbook: IdSet,
    /// Ranked target list, last computed.
    pub best: Vec<AttackTarget>,
    pub max_level: u16,
    pub max_attributes: u32,
    /// Opponent id to name and consecutive-loss count.
    pub blacklist: VecMap<(String, usize)>,
    /// Time, target and whether the fight was won.
    pub attack_log: Vec<(i64, AttackTarget, bool)>,
    pub auto_battle: bool,
}

impl ScrapbookInfo {
    pub open spec fn wf(&self) -> bool {
        self.scrapbook.wf() && self.blacklist.wf()
    }

    /// Fresh state for a logged-in player: the attribute ceiling starts
    /// one fifth above the player's own total.
    pub fn new(owned_items: IdSet, level: u16, total_attributes: u32, auto_battle: bool) -> (r:
        Self)
        requires
            owned_items.wf(),
        ensures
            r.wf(),
            r.scrapbook == owned_items,
            r.best@.len() == 0,
            r.max_level == level,
            r.max_attributes as int == {
                let lifted = total_attributes * 12 / 10;
                if lifted <= u32::MAX as int {
                    lifted
                } else {
                    u32::MAX as int
                }
            },
            r.blacklist.as_map() == Map::<u64, (String, usize)>::empty(),
            r.attack_log@.len() == 0,
            r.auto_battle == auto_battle,
    {
        let lifted: u64 = total_attributes as u64 * 12 / 10;
        let max_attributes: u32 = if lifted <= u32::MAX as u64 {
            lifted as u32
        } else {
            u32::MAX
        };
        ScrapbookInfo {
            scrapbook: owned_items,
            best: Vec::new(),
            max_level: level,
            max_attributes,
            blacklist: VecMap::new(),
            attack_log: Vec::new(),
            auto_battle,
        }
    }

    /// Books the outcome of one arena fight: a win merges the target's
    /// items into the scrapbook, a loss raises the target's blacklist
    /// count by one; either way the fight enters the attack log.
    pub fn apply_attack_result(&mut self, target: AttackTarget, won: bool, time: i64)
        requires
            old(self).wf(),
        ensures
            final(self).wf(),
            won ==> {
                &&& forall|it: u64|
                    #[trigger] final(self).scrapbook.as_set().contains(it) <==> (old(
                        self,
                    ).scrapbook.as_set().contains(it) || target.info.equipment@.contains(it))
                &&& final(self).blacklist == old(self).blacklist
            },
            !won ==> {
                &&& final(self).scrapbook == old(self).scrapbook
                &&& final(self).blacklist.as_map() == old(self).blacklist.as_map().insert(
                    target.info.uid as u64,
                    (target.info.name, bumped_losses(old(self).blacklist.as_map(), target.info.uid as u64)),
                )
            },
            final(self).attack_log@ == old(self).attack_log@.push((time, target, won)),
            final(self).best@ == old(self).best@,
            final(self).max_level == old(self).max_level,
            final(self).max_attributes == old(self).max_attributes,
            final(self).auto_battle == old(self).auto_battle,
    {
        if won {
            let mut j: usize = 0;
            let ghost owned0 = self.scrapbook.as_set();
            while j < target.info.equipment.len()
                invariant
                    j <= target.info.equipment@.len(),
                    self.scrapbook.wf(),
                    owned0 == old(self).scrapbook.as_set(),
                    self.blacklist == old(self).blacklist,
                    self.attack_log@ == old(self).attack_log@,
                    self.best@ == old(self).best@,
                    self.max_level == old(self).max_level,
                    self.max_attributes == old(self).max_attributes,
                    self.auto_battle == old(self).auto_battle,
                    old(self).blacklist.wf(),
                    forall|it: u64|
                        #[trigger] self.scrapbook.as_set().contains(it) <==> (owned0.contains(it)
                            || target.info.equipment@.take(j as int).contains(it)),
                decreases target.info.equipment@.len() - j,
            {
                proof {
                    assert(target.info.equipment@.take(j + 1) =~= target.info.equipment@.take(
                        j as int,
                    ).push(target.info.equipment@[j as int]));
                }
                let ghost before = self.scrapbook.as_set();
                self.scrapbook.insert(target.info.equipment[j]);
                proof {
                    assert forall|it: u64|
                        #[trigger] self.scrapbook.as_set().contains(it) <==> (owned0.contains(it)
                            || target.info.equipment@.take(j + 1).contains(it)) by {
                        vstd::seq_lib::lemma_seq_contains_after_push(
                            target.info.equipment@.take(j as int),
                            target.info.equipment@[j as int],
                            it,
                        );
                    }
                }
                j = j + 1;
            }
            proof {
                assert(target.info.equipment@.take(target.info.equipment@.len() as int)
                    == target.info.equipment@);
            }
        } else {
            let losses = match self.blacklist.get(target.info.uid as u64) {
                Some(e) => e.1,
                None => 0,
            };
            let bumped = if losses < usize::MAX {
                losses + 1
            } else {
                usize::MAX
            };
            self.blacklist.insert(target.info.uid as u64, (target.info.name.clone(), bumped));
        }
        self.attack_log.push((time, target, won));
    }
}

impl ScrapbookInfo {
    /// Recomputes the ranked target list against the current database:
    /// the `limit`-prefix of the full ranking of exactly the plan
    /// candidates under this player's scrapbook, filters and blacklist.
    pub fn update_best(&mut self, db: &PlayerDb, invalid: &Vec<String>, blacklist_threshold: usize, limit: usize)
        requires
            old(self).wf(),
            db.wf(),
        ensures
            final(self).wf(),
            sorted_targets(final(self).best@),
            final(self).best@.len() <= limit,
            forall|m: int|
                0 <= m < final(self).best@.len() ==> (#[trigger] final(self).best@[m]).missing
                    >= 1,
            forall|m: int|
                0 <= m < final(self).best@.len() ==> plan_candidate(
                    *db,
                    old(self).scrapbook.as_set(),
                    old(self).max_level,
                    old(self).max_attributes,
                    old(self).blacklist.as_map(),
                    blacklist_threshold,
                    invalid@,
                    (#[trigger] final(self).best@[m]).info.uid as u64,
                ) && plan_target_for(
                    final(self).best@[m],
                    *db,
                    old(self).scrapbook.as_set(),
                    final(self).best@[m].info.uid as u64,
                ),
            exists|full: Seq<AttackTarget>|
                #[trigger] ranked_field(
                    full,
                    *db,
                    old(self).scrapbook.as_set(),
                    old(self).max_level,
                    old(self).max_attributes,
                    old(self).blacklist.as_map(),
                    blacklist_threshold,
                    invalid@,
                ) && final(self).best@ == full.take(
                    if limit as int <= full.len() {
                        limit as int
                    } else {
                        full.len() as int
                    },
                ),
            final(self).scrapbook == old(self).scrapbook,
            final(self).blacklist == old(self).blacklist,
            final(self).attack_log@ == old(self).attack_log@,
            final(self).max_level == old(self).max_level,
            final(self).max_attributes == old(self).max_attributes,
            final(self).auto_battle == old(self).auto_battle,
    {
        self.best = ranked_targets(
            db,
            &self.scrapbook,
            self.max_level,
            self.max_attributes,
            &self.blacklist,
            blacklist_threshold,
            limit,
            invalid,
        );
    }
}

/// Collects the low-equipment lure candidates up to the level ceiling,
/// highest levels first, at most `limit` records. Every bucketed player
/// inside the ceiling appears, unless the limit cuts the walk; the cut
/// only ever leaves out candidates at or below the last taken level.
pub fn update_best_lures(db: &PlayerDb, max_level: u16, limit: usize) -> (r: Vec<CharacterInfo>)
    requires
        db.wf(),
    ensures
        r@.len() <= limit,
        forall|m: int|
            0 <= m < r@.len() ==> (#[trigger] r@[m]).level <= max_level
                && db.players.as_map().contains_key(r@[m].uid as u64) && r@[m]@
                == db.players.as_map()[r@[m].uid as u64]@,
        forall|a: int, b: int|
            #![trigger r@[a], r@[b]]
            0 <= a < b < r@.len() ==> r@[a].level >= r@[b].level,
        forall|l: u64, u: u64|
            #![trigger crate::db::owns_in(db.naked.as_map(), l, u)]
            crate::db::owns_in(db.naked.as_map(), l, u) && l <= max_level as u64 ==> (exists|m: int|
                0 <= m < r@.len() && (#[trigger] r@[m]).uid as u64 == u) || (r@.len() == limit && (
            r@.len() == 0 || l <= r@[r@.len() - 1].level as u64)),
{
    let mut r: Vec<CharacterInfo> = Vec::new();
    let mut lvl: u16 = max_level;
    loop
        invariant
            db.wf(),
            r@.len() <= limit,
            forall|m: int|
                0 <= m < r@.len() ==> (#[trigger] r@[m]).level <= max_level
                    && db.players.as_map().contains_key(r@[m].uid as u64) && r@[m]@
                    == db.players.as_map()[r@[m].uid as u64]@,
            forall|a: int, b: int|
                #![trigger r@[a], r@[b]]
                0 <= a < b < r@.len() ==> r@[a].level >= r@[b].level,
            forall|m: int| 0 <= m < r@.len() ==> (#[trigger] r@[m]).level >= lvl,
            lvl <= max_level,
            forall|l: u64, u: u64|
                #![trigger crate::db::owns_in(db.naked.as_map(), l, u)]
                crate::db::owns_in(db.naked.as_map(), l, u) && (lvl as u64) < l
                    && l <= max_level as u64 ==> (exists|m: int|
                    0 <= m < r@.len() && (#[trigger] r@[m]).uid as u64 == u) || (r@.len() == limit
                    && (r@.len() == 0 || l <= r@[r@.len() - 1].level as u64)),
        decreases lvl,
    {
        let ghost r_top = r@;
        if r.len() < limit {
            match db.naked.get(lvl as u64) {
                Some(bucket) => {
                    let mut o: usize = 0;
                    let bucket_len = bucket.len();
                    while o < bucket_len
                        invariant
                            db.wf(),
                            bucket_len == bucket.seq().len(),
                            o <= bucket_len,
                            bucket.wf(),
                            *bucket == db.naked.as_map()[lvl as u64],
                            db.naked.as_map().contains_key(lvl as u64),
                            r@.len() <= limit,
                            lvl <= max_level,
                            forall|m: int|
                                0 <= m < r@.len() ==> (#[trigger] r@[m]).level <= max_level
                                    && db.players.as_map().contains_key(r@[m].uid as u64)
                                    && r@[m]@ == db.players.as_map()[r@[m].uid as u64]@,
                            forall|a: int, b: int|
                                #![trigger r@[a], r@[b]]
                                0 <= a < b < r@.len() ==> r@[a].level >= r@[b].level,
                            forall|m: int| 0 <= m < r@.len() ==> (#[trigger] r@[m]).level >= lvl,
                            forall|m: int| 0 <= m < r_top.len() ==> r@[m] == r_top[m],
                            r_top.len() <= r@.len(),
                            forall|idx: int|
                                0 <= idx < o ==> (exists|m: int|
                                    0 <= m < r@.len() && (#[trigger] r@[m]).uid as u64 == (
                                    #[trigger] bucket.seq()[idx])) || r@.len() == limit,
                        decreases bucket_len - o,
                    {
                        let ghost r_in = r@;
                        if r.len() < limit {
                            let uid64 = bucket.at(o);
                            proof {
                                assert(crate::db::owns_in(db.naked.as_map(), lvl as u64, uid64));
                                assert(crate::db::naked_expected(
                                    db.players.as_map(),
                                    lvl as u64,
                                    uid64,
                                ));
                                assert(db.players.as_map()[uid64].uid as u64 == uid64);
                            }
                            match db.get(uid64 as u32) {
                                Some(info) => {
                                    r.push(info.duplicate());
                                    proof {
                                        assert(r@[r@.len() - 1].uid as u64 == uid64);
                                    }
                                },
                                None => {
                                    proof {
                                        assert(false);
                                    }
                                },
                            }
                        }
                        proof {
                            assert forall|idx: int|
                                0 <= idx < o + 1 implies (exists|m: int|
                                0 <= m < r@.len() && (#[trigger] r@[m]).uid as u64 == (
                                #[trigger] bucket.seq()[idx])) || r@.len() == limit by {
                                if idx < o {
                                    if r_in.len() < limit {
                                        if exists|m: int|
                                            0 <= m < r_in.len() && (#[trigger] r_in[m]).uid as u64
                                                == bucket.seq()[idx] {
                                            let m = choose|m: int|
                                                0 <= m < r_in.len() && (
                                                #[trigger] r_in[m]).uid as u64 == bucket.seq()[
                                                    idx
                                                ];
                                            assert(r@[m] == r_in[m]);
                                        }
                                    }
                                }
                            }
                        }
                        o = o + 1;
                    }
                    proof {
                        assert forall|l: u64, u: u64|
                            crate::db::owns_in(db.naked.as_map(), l, u) && ((lvl as u64) - 1) < l
                                && l <= max_level as u64 implies (exists|m: int|
                            0 <= m < r@.len() && (#[trigger] r@[m]).uid as u64 == u) || (r@.len()
                            == limit && (r@.len() == 0 || l <= r@[r@.len() - 1].level as u64)) by {
                            if l == lvl as u64 {
                                let idx = choose|idx: int|
                                    0 <= idx < bucket.seq().len() && bucket.seq()[idx] == u;
                                assert(bucket.as_set().contains(u));
                            } else if (lvl as u64) < l {
                                if exists|m: int|
                                    0 <= m < r_top.len() && (#[trigger] r_top[m]).uid as u64
                                        == u {
                                    let m = choose|m: int|
                                        0 <= m < r_top.len() && (#[trigger] r_top[m]).uid as u64
                                            == u;
                                    assert(r@[m] == r_top[m]);
                                }
                            }
                        }
                    }
                },
                None => {},
            }
        } else {
            proof {
                assert(r@.len() == limit);
            }
        }
        if lvl <= crate::db::NAKED_MIN_LEVEL {
            proof {
                assert forall|l: u64, u: u64|
                    crate::db::owns_in(db.naked.as_map(), l, u) && l
                        <= max_level as u64 implies (exists|m: int|
                    0 <= m < r@.len() && (#[trigger] r@[m]).uid as u64 == u) || (r@.len() == limit
                    && (r@.len() == 0 || l <= r@[r@.len() - 1].level as u64)) by {
                    if l < (lvl as u64) {
                        // bucketed players sit at or above the level floor
                        assert(crate::db::naked_expected(db.players.as_map(), l, u));
                    }
                }
            }
            return r;
        }
        lvl = lvl - 1;
    }
}

/// The first fresh target of the ranked list, provided the list is at
/// least nine tenths fresh: right after a cold start the list is mostly
/// stale, and attacking then would chase gone players.
pub fn pick_auto_target(best: &Vec<AttackTarget>, today: i32) -> (r: Option<&AttackTarget>)
    ensures
        match r {
            Some(t) => exists|m: int|
                0 <= m < best@.len() && *t == best@[m] && !t.info.spec_is_old(today),
            None => best@.len() == 0 || 10 * count_fresh(best@, today) < 9 * best@.len() || (
            forall|m: int| 0 <= m < best@.len() ==> (#[trigger] best@[m]).info.spec_is_old(today)),
        },
{
    if best.len() == 0 {
        return None;
    }
    let mut fresh: usize = 0;
    let mut m: usize = 0;
    while m < best.len()
        invariant
            m <= best@.len(),
            fresh <= m,
            fresh as int == count_fresh(best@.take(m as int), today),
        decreases best@.len() - m,
    {
        proof {
            assert(best@.take(m + 1).drop_last() == best@.take(m as int));
            assert(best@.take(m + 1).last() == best@[m as int]);
        }
        if !best[m].info.is_old_at(today) {
            fresh = fresh + 1;
        }
        m = m + 1;
    }
    proof {
        assert(best@.take(best@.len() as int) == best@);
    }
    if (fresh as u128) * 10 < (best.len() as u128) * 9 {
        proof {
            lemma_count_fresh_bound(best@, today);
        }
        return None;
    }
    let mut k: usize = 0;
    while k < best.len()
        invariant
            k <= best@.len(),
            forall|m: int| 0 <= m < k ==> (#[trigger] best@[m]).info.spec_is_old(today),
        decreases best@.len() - k,
    {
        if !best[k].info.is_old_at(today) {
            return Some(&best[k]);
        }
        k = k + 1;
    }
    None
}

/// Whether an arena fight may be started now: the free fight must be
/// due within the next fifth of a second, unless mushrooms can pay for
/// one. An unknown cooldown counts as due.
pub fn arena_fight_allowed(next_free_fight: Option<i64>, now_millis: i64, mushrooms: u32) -> (r:
    bool)
    requires
        now_millis < i64::MAX - 200,
    ensures
        r == (match next_free_fight {
            Some(t) => t <= now_millis + 200 || mushrooms > 0,
            None => true,
        }),
{
    match next_free_fight {
        Some(t) => t <= now_millis + 200 || mushrooms > 0,
        None => true,
    }
}

/// How many targets of the list are fresh on the given day.
pub open spec fn count_fresh(s: Seq<AttackTarget>, today: i32) -> int
    decreases s.len(),
{
    if s.len() == 0 {
        0
    } else {
        count_fresh(s.drop_last(), today) + (if s.last().info.spec_is_old(today) {
            0int
        } else {
            1int
        })
    }
}

proof fn lemma_count_fresh_bound(s: Seq<AttackTarget>, today: i32)
    ensures
        0 <= count_fresh(s, today) <= s.len(),
    decreases s.len(),
{
    if s.len() > 0 {
        lemma_count_fresh_bound(s.drop_last(), today);
    }
}

/// Queues every stale target of the ranked list for a fresh fetch; the
/// result says whether any was stale.
pub fn refetch_stale_targets(
    queue: &mut crate::crawler::WorkerQue,
    best: &Vec<AttackTarget>,
    today: i32,
) -> (has_old: bool)
    requires
        old(queue).wf(),
    ensures
        final(queue).wf(),
        has_old == exists|m: int|
            0 <= m < best@.len() && (#[trigger] best@[m]).info.spec_is_old(today),
        final(queue).same_but_accounts(old(queue)),
        final(queue).invalid_accounts@ == old(queue).invalid_accounts@,
        final(queue).in_flight_accounts@ == old(queue).in_flight_accounts@,
        forall|y: Seq<char>| #[trigger]
            contains_name(old(queue).todo_accounts@, y) ==> contains_name(
                final(queue).todo_accounts@,
                y,
            ),
        // every stale target afterwards sits in todo, unless another
        // partition already holds its name
        forall|m: int|
            0 <= m < best@.len() && (#[trigger] best@[m]).info.spec_is_old(today)
                ==> contains_name(final(queue).todo_accounts@, best@[m].info.name@)
                || contains_name(old(queue).invalid_accounts@, best@[m].info.name@)
                || contains_name(old(queue).in_flight_accounts@, best@[m].info.name@),
{
    let mut has_old = false;
    let mut m: usize = 0;
    while m < best.len()
        invariant
            m <= best@.len(),
            queue.wf(),
            has_old == exists|j: int|
                0 <= j < m && (#[trigger] best@[j]).info.spec_is_old(today),
            queue.same_but_accounts(old(queue)),
            queue.invalid_accounts@ == old(queue).invalid_accounts@,
            queue.in_flight_accounts@ == old(queue).in_flight_accounts@,
            forall|y: Seq<char>| #[trigger]
                contains_name(old(queue).todo_accounts@, y) ==> contains_name(
                    queue.todo_accounts@,
                    y,
                ),
            forall|j: int|
                0 <= j < m && (#[trigger] best@[j]).info.spec_is_old(today) ==> contains_name(
                    queue.todo_accounts@,
                    best@[j].info.name@,
                ) || contains_name(old(queue).invalid_accounts@, best@[j].info.name@)
                    || contains_name(old(queue).in_flight_accounts@, best@[j].info.name@),
        decreases best@.len() - m,
    {
        if best[m].info.is_old_at(today) {
            has_old = true;
            let name = best[m].info.name.clone();
            let ghost todo_prev = queue.todo_accounts@;
            queue.push_todo_if_absent(name);
            proof {
                if queue.todo_accounts@.len() > todo_prev.len() {
                    crate::crawler::lemma_name_push_members(
                        todo_prev,
                        queue.todo_accounts@.last(),
                    );
                    assert(queue.todo_accounts@.last()@ == best@[m as int].info.name@);
                }
            }
        }
        m = m + 1;
    }
    has_old
}

/// The local player's optimization state for the underworld view.
pub struct UnderworldInfo {
    /// Souls lured into the underworld today.
    pub lured_today: u16,
    /// Ranked lure candidates, last computed.
    pub best: Vec<CharacterInfo>,
    pub max_level: u16,
    /// Time, target name and whether the lure succeeded.
    pub attack_log: Vec<(i64, String, bool)>,
    pub auto_lure: bool,
}

impl UnderworldInfo {
    /// Fresh state: the level ceiling starts twenty above the average
    /// level of the underworld's three unit slots.
    pub fn new(unit_levels: &Vec<u16>, lured_today: u16, auto_lure: bool) -> (r: Self)
        requires
            unit_levels@.len() <= 3,
        ensures
            r.lured_today == lured_today,
            r.best@.len() == 0,
            r.max_level as int == {
                let avg = crate::character::sum_levels(unit_levels@) / 3;
                if avg + 20 <= u16::MAX as int {
                    avg + 20
                } else {
                    u16::MAX as int
                }
            },
            r.attack_log@.len() == 0,
            r.auto_lure == auto_lure,
    {
        let mut sum: u64 = 0;
        let mut i: usize = 0;
        while i < unit_levels.len()
            invariant
                i <= unit_levels@.len(),
                unit_levels@.len() <= 3,
                sum as int == crate::character::sum_levels(unit_levels@.take(i as int)),
                sum <= 196605,
            decreases unit_levels@.len() - i,
        {
            proof {
                assert(unit_levels@.take(i + 1).drop_last() == unit_levels@.take(i as int));
                assert(unit_levels@.take(i + 1).last() == unit_levels@[i as int]);
                crate::character::lemma_sum_levels_bound(unit_levels@.take(i + 1));
            }
            sum = sum + unit_levels[i] as u64;
            i = i + 1;
        }
        proof {
            assert(unit_levels@.take(unit_levels@.len() as int) == unit_levels@);
        }
        let avg = sum / 3;
        let max_level: u16 = if avg + 20 <= u16::MAX as u64 {
            (avg + 20) as u16
        } else {
            u16::MAX
        };
        UnderworldInfo {
            lured_today,
            best: Vec::new(),
            max_level,
            attack_log: Vec::new(),
            auto_lure,
        }
    }

    /// Whether another lure is allowed today: the remote grants five.
    pub fn can_lure(&self) -> (r: bool)
        ensures
            r == (self.lured_today <= 4),
    {
        self.lured_today <= 4
    }
}

} // verus!
