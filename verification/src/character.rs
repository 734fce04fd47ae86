//! One fetched player record. Item identifiers are plain `u64` codes; the
//! code carries the item's model number in its low bits so that the
//! optimizer can tell NPC-only items apart (see [`item_model_id`]).
//! Calendar dates are day numbers counted from the common era.

use vstd::prelude::*;

verus! {

/// Latest known record of one remote player.
#[derive(Debug, Clone, PartialEq)]
pub struct CharacterInfo {
    /// Owned item codes, free of duplicates.
    pub equipment: Vec<u64>,
    pub name: String,
    pub uid: u32,
    pub level: u16,
    /// Sum of base and bonus attributes; absent until fetched in full.
    pub stats: Option<u32>,
    /// Day the record was fetched; absent or past days mean stale.
    pub fetch_date: Option<i32>,
    /// Class tag; absent for records restored from a backup.
    pub class: Option<u8>,
}

/// The mathematical value of a record: every field by its own value.
#[verifier::ext_equal]
pub struct CharacterView {
    pub equipment: Seq<u64>,
    pub name: Seq<char>,
    pub uid: u32,
    pub level: u16,
    pub stats: Option<u32>,
    pub fetch_date: Option<i32>,
    pub class: Option<u8>,
}

impl View for CharacterInfo {
    type V = CharacterView;

    open spec fn view(&self) -> CharacterView {
        CharacterView {
            equipment: self.equipment@,
            name: self.name@,
            uid: self.uid,
            level: self.level,
            stats: self.stats,
            fetch_date: self.fetch_date,
            class: self.class,
        }
    }
}

impl CharacterInfo {
    /// An owned copy with the same value.
    pub fn duplicate(&self) -> (r: Self)
        ensures
            r@ == self@,
    {
        let equipment = self.equipment.clone();
        proof {
            assert(equipment@ =~= self.equipment@);
        }
        let r = CharacterInfo {
            equipment,
            name: self.name.clone(),
            uid: self.uid,
            level: self.level,
            stats: self.stats,
            fetch_date: self.fetch_date,
            class: self.class,
        };
        proof {
            assert(r@ =~= self@);
        }
        r
    }
}

/// An item code packs the item's kind in the high bits and its model
/// number in bits 8..24; the model number decides the NPC-only cutoff.
pub open spec fn spec_item_model_id(code: u64) -> u64 {
    (code / 256) % 65536
}

/// The model number packed inside an item code.
pub fn item_model_id(code: u64) -> (r: u64)
    ensures
        r == spec_item_model_id(code),
{
    (code / 256) % 65536
}

/// Items with model numbers at or above this bound belong to NPC-only
/// gear that no opponent can be farmed for.
pub const NPC_MODEL_CUTOFF: u64 = 100;

/// Relies on chrono's `Utc::now`, `NaiveDate::num_days_from_ce` and
/// `DateTime::timestamp`: the current date as days since the common era,
/// and the current unix time in seconds. The result depends on the clock,
/// so nothing is promised of it.
#[verifier::external_body]
pub(crate) fn now_parts() -> (r: (i32, i64)) {
    let now = chrono::Utc::now();
    (chrono::Datelike::num_days_from_ce(&now.date_naive()), now.timestamp())
}

impl CharacterInfo {
    /// A record is well formed when it owns each item at most once.
    pub open spec fn wf(&self) -> bool {
        self.equipment@.no_duplicates()
    }

    /// Stats with an unfetched value counting as zero.
    pub open spec fn stats_value(&self) -> u32 {
        match self.stats {
            Some(s) => s,
            None => 0u32,
        }
    }

    /// A record fetched before `today`, or never fully fetched, is stale.
    pub open spec fn spec_is_old(&self, today: i32) -> bool {
        match self.fetch_date {
            Some(d) => d < today,
            None => true,
        }
    }

    pub fn is_old_at(&self, today: i32) -> (r: bool)
        ensures
            r == self.spec_is_old(today),
    {
        match self.fetch_date {
            Some(d) => d < today,
            None => true,
        }
    }

    /// Staleness against the clock. A record without a fetch date is
    /// stale on any day.
    pub fn is_old(&self) -> (r: bool)
        ensures
            self.fetch_date is None ==> r,
    {
        let (today, _) = now_parts();
        self.is_old_at(today)
    }

    /// Drops the fields that a backup intentionally leaves out; they are
    /// recomputed on the next fetch.
    pub fn strip_volatile(&mut self)
        ensures
            final(self).stats is None,
            final(self).fetch_date is None,
            final(self).equipment == old(self).equipment,
            final(self).name == old(self).name,
            final(self).uid == old(self).uid,
            final(self).level == old(self).level,
            final(self).class == old(self).class,
    {
        self.stats = None;
        self.fetch_date = None;
    }
}

/// Keeps the first occurrence of each id, in order.
pub fn dedup_ids(v: &Vec<u64>) -> (r: Vec<u64>)
    ensures
        r@.no_duplicates(),
        r@.to_set() == v@.to_set(),
        v@.no_duplicates() ==> r@ == v@,
{
    broadcast use vstd::seq_lib::lemma_seq_contains_after_push;

    let mut r: Vec<u64> = Vec::new();
    let mut i: usize = 0;
    while i < v.len()
        invariant
            i <= v.len(),
            r@.no_duplicates(),
            forall|a: u64| #[trigger] r@.contains(a) == v@.take(i as int).contains(a),
            v@.no_duplicates() ==> r@ == v@.take(i as int),
        decreases v.len() - i,
    {
        let ghost prefix = v@.take(i as int);
        let x = v[i];
        let mut present = false;
        let mut j: usize = 0;
        while j < r.len()
            invariant
                j <= r.len(),
                present == exists|k: int| 0 <= k < j && r@[k] == x,
            decreases r.len() - j,
        {
            if r[j] == x {
                present = true;
            }
            j = j + 1;
        }
        proof {
            assert(present == r@.contains(x));
            assert(v@.take(i + 1) =~= prefix.push(x));
            if v@.no_duplicates() && present {
                let k = choose|k: int| 0 <= k < prefix.len() && prefix[k] == x;
                assert(v@[k] == v@[i as int]);
                assert(false);
            }
        }
        if !present {
            let ghost before = r@;
            r.push(x);
            proof {
                assert forall|a: int, b: int| 0 <= a < b < r@.len() implies r@[a] != r@[b] by {
                    if b == r@.len() - 1 {
                        assert(before.contains(before[a]));
                    }
                }
                assert forall|a: u64| #[trigger] r@.contains(a) == v@.take(i + 1).contains(a) by {
                    vstd::seq_lib::lemma_seq_contains_after_push(before, x, a);
                    vstd::seq_lib::lemma_seq_contains_after_push(prefix, x, a);
                }
            }
        } else {
            proof {
                assert forall|a: u64| #[trigger] r@.contains(a) == v@.take(i + 1).contains(a) by {
                    vstd::seq_lib::lemma_seq_contains_after_push(prefix, x, a);
                }
            }
        }
        i = i + 1;
    }
    proof {
        assert(v@.take(v@.len() as int) == v@);
        assert(r@.to_set() =~= v@.to_set());
    }
    r
}

/// Builds the record for a freshly fetched player: equipment reduced to
/// one entry per item, stats summed from the base and bonus attribute
/// arrays (clamped at the field's width), and the fetch date stamped
/// from the clock.
pub fn build_character_info(
    name: String,
    uid: u32,
    level: u16,
    equipment: &Vec<u64>,
    base_attributes: &Vec<u32>,
    bonus_attributes: &Vec<u32>,
    class: Option<u8>,
) -> (r: CharacterInfo)
    ensures
        r.wf(),
        r.equipment@.to_set() == equipment@.to_set(),
        r.name == name,
        r.uid == uid,
        r.level == level,
        r.stats == Some(sum_clamped(base_attributes@ + bonus_attributes@)),
        r.fetch_date is Some,
        r.class == class,
{
    let base = sum_attributes(base_attributes);
    let stats = sum_attributes_from(bonus_attributes, base);
    proof {
        lemma_sum_clamped_concat(base_attributes@, bonus_attributes@);
    }
    let (today, _) = now_parts();
    CharacterInfo {
        equipment: dedup_ids(equipment),
        name,
        uid,
        level,
        stats: Some(stats),
        fetch_date: Some(today),
        class,
    }
}

/// Sum of a sequence of unit levels.
pub open spec fn sum_levels(s: Seq<u16>) -> int
    decreases s.len(),
{
    if s.len() == 0 {
        0
    } else {
        sum_levels(s.drop_last()) + s.last()
    }
}

pub proof fn lemma_sum_levels_bound(s: Seq<u16>)
    ensures
        0 <= sum_levels(s) <= s.len() * 65535,
    decreases s.len(),
{
    if s.len() > 0 {
        lemma_sum_levels_bound(s.drop_last());
        assert((s.len() - 1) * 65535 + 65535 == s.len() * 65535) by (nonlinear_arith);
    }
}

/// Sum of a sequence of attribute values, clamped at `u32::MAX`.
pub open spec fn sum_clamped(s: Seq<u32>) -> u32
    decreases s.len(),
{
    if s.len() == 0 {
        0u32
    } else {
        let rest = sum_clamped(s.drop_last());
        if rest + s.last() > u32::MAX {
            u32::MAX
        } else {
            (rest + s.last()) as u32
        }
    }
}

proof fn lemma_sum_clamped_concat(a: Seq<u32>, b: Seq<u32>)
    ensures
        sum_clamped(a + b) == sum_clamped_from(b, sum_clamped(a)),
    decreases b.len(),
{
    if b.len() == 0 {
        assert(a + b == a);
    } else {
        lemma_sum_clamped_concat(a, b.drop_last());
        assert((a + b).drop_last() == a + b.drop_last());
        assert((a + b).last() == b.last());
    }
}

/// Clamped sum continued from a running value.
pub open spec fn sum_clamped_from(s: Seq<u32>, acc: u32) -> u32
    decreases s.len(),
{
    if s.len() == 0 {
        acc
    } else {
        let rest = sum_clamped_from(s.drop_last(), acc);
        if rest + s.last() > u32::MAX {
            u32::MAX
        } else {
            (rest + s.last()) as u32
        }
    }
}

proof fn lemma_sum_clamped_from_zero(s: Seq<u32>)
    ensures
        sum_clamped_from(s, 0) == sum_clamped(s),
    decreases s.len(),
{
    if s.len() > 0 {
        lemma_sum_clamped_from_zero(s.drop_last());
    }
}

fn sum_attributes(values: &Vec<u32>) -> (r: u32)
    ensures
        r == sum_clamped(values@),
{
    proof {
        lemma_sum_clamped_from_zero(values@);
    }
    sum_attributes_from(values, 0)
}

fn sum_attributes_from(values: &Vec<u32>, start: u32) -> (r: u32)
    ensures
        r == sum_clamped_from(values@, start),
{
    let mut acc = start;
    let mut i: usize = 0;
    while i < values.len()
        invariant
            i <= values.len(),
            acc == sum_clamped_from(values@.take(i as int), start),
        decreases values.len() - i,
    {
        proof {
            assert(values@.take(i + 1).drop_last() == values@.take(i as int));
            assert(values@.take(i + 1).last() == values@[i as int]);
        }
        acc = acc.saturating_add(values[i]);
        i = i + 1;
    }
    proof {
        assert(values@.take(values@.len() as int) == values@);
    }
    acc
}

} // verus!
