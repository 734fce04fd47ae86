//! Player database: the latest record per player id, the inverted
//! equipment index (item code to owner ids), and the bucket of
//! low-equipment players by level. Well-formedness ties the two indexes
//! pointwise to the records, so both are functions of the record map.

use vstd::prelude::*;

use crate::character::CharacterInfo;
use crate::idset::IdSet;
use crate::vecmap::VecMap;

verus! {

/// Players owning fewer items than this count as low-equipment targets.
pub const EQ_CUTOFF: usize = 4;

/// Low-equipment players below this level are not worth bucketing.
pub const NAKED_MIN_LEVEL: u16 = 100;

/// The record map says that player `uid` owns item `item`.
pub open spec fn record_owns(players: Map<u64, CharacterInfo>, item: u64, uid: u64) -> bool {
    players.contains_key(uid) && players[uid].equipment@.contains(item)
}

/// The owner map lists `uid` under `item`.
pub open spec fn owns_in(m: Map<u64, IdSet>, item: u64, uid: u64) -> bool {
    m.contains_key(item) && m[item].as_set().contains(uid)
}

/// The record map puts `uid` into the low-equipment bucket of `lvl`.
pub open spec fn naked_expected(players: Map<u64, CharacterInfo>, lvl: u64, uid: u64) -> bool {
    &&& players.contains_key(uid)
    &&& players[uid].level as u64 == lvl
    &&& players[uid].equipment@.len() < EQ_CUTOFF
    &&& players[uid].level >= NAKED_MIN_LEVEL
}

pub struct PlayerDb {
    /// Player id (as `u64`) to its latest record.
    pub players: VecMap<CharacterInfo>,
    /// Item code to the ids of its current owners.
    pub equipment: VecMap<IdSet>,
    /// Level to the ids of low-equipment players of that level.
    pub naked: VecMap<IdSet>,
}

impl PlayerDb {
    /// Both indexes agree pointwise with the record map, every owner set
    /// is duplicate-free and non-empty, and every record sits under its
    /// own id.
    pub open spec fn wf(&self) -> bool {
        &&& self.players.wf()
        &&& self.equipment.wf()
        &&& self.naked.wf()
        &&& forall|k: u64| #[trigger]
            self.players.as_map().contains_key(k) ==> self.players.as_map()[k].uid as u64 == k
                && self.players.as_map()[k].wf()
        &&& forall|item: u64| #[trigger]
            self.equipment.as_map().contains_key(item) ==> self.equipment.as_map()[item].wf()
                && self.equipment.as_map()[item].seq().len() > 0
        &&& forall|item: u64, u: u64|
            owns_in(self.equipment.as_map(), item, u) <==> #[trigger] record_owns(
                self.players.as_map(),
                item,
                u,
            )
        &&& forall|lvl: u64| #[trigger]
            self.naked.as_map().contains_key(lvl) ==> self.naked.as_map()[lvl].wf()
                && self.naked.as_map()[lvl].seq().len() > 0
        &&& forall|lvl: u64, u: u64|
            owns_in(self.naked.as_map(), lvl, u) <==> #[trigger] naked_expected(
                self.players.as_map(),
                lvl,
                u,
            )
    }

    pub fn new() -> (r: Self)
        ensures
            r.wf(),
            r.players.as_map() == Map::<u64, CharacterInfo>::empty(),
    {
        PlayerDb { players: VecMap::new(), equipment: VecMap::new(), naked: VecMap::new() }
    }

    pub fn len(&self) -> (r: usize)
        requires
            self.wf(),
        ensures
            r == self.players.as_map().dom().len(),
    {
        self.players.len()
    }

    pub fn get(&self, uid: u32) -> (r: Option<&CharacterInfo>)
        requires
            self.wf(),
        ensures
            match r {
                Some(c) => self.players.as_map().contains_key(uid as u64) && *c
                    == self.players.as_map()[uid as u64],
                None => !self.players.as_map().contains_key(uid as u64),
            },
    {
        self.players.get(uid as u64)
    }

    /// Takes an item out of an owner map, drops one owner from it, and
    /// puts it back unless it became empty.
    fn drop_owner(index: &mut VecMap<IdSet>, item: u64, uid: u64)
        requires
            old(index).wf(),
            forall|it: u64| #[trigger]
                old(index).as_map().contains_key(it) ==> old(index).as_map()[it].wf()
                    && old(index).as_map()[it].seq().len() > 0,
        ensures
            final(index).wf(),
            forall|it: u64| #[trigger]
                final(index).as_map().contains_key(it) ==> final(index).as_map()[it].wf()
                    && final(index).as_map()[it].seq().len() > 0,
            forall|it: u64, u: u64|
                #![trigger owns_in(final(index).as_map(), it, u)]
                owns_in(final(index).as_map(), it, u) <==> (owns_in(old(index).as_map(), it, u)
                    && !(it == item && u == uid)),
    {
        match index.remove(item) {
            Some(mut owners) => {
                owners.remove(uid);
                if owners.len() > 0 {
                    index.insert(item, owners);
                }
            },
            None => {},
        }
    }

    /// Takes an item out of an owner map, adds one owner to it, and puts
    /// it back (creating the entry when absent).
    fn add_owner(index: &mut VecMap<IdSet>, item: u64, uid: u64)
        requires
            old(index).wf(),
            forall|it: u64| #[trigger]
                old(index).as_map().contains_key(it) ==> old(index).as_map()[it].wf()
                    && old(index).as_map()[it].seq().len() > 0,
        ensures
            final(index).wf(),
            forall|it: u64| #[trigger]
                final(index).as_map().contains_key(it) ==> final(index).as_map()[it].wf()
                    && final(index).as_map()[it].seq().len() > 0,
            forall|it: u64, u: u64|
                #![trigger owns_in(final(index).as_map(), it, u)]
                owns_in(final(index).as_map(), it, u) <==> (owns_in(old(index).as_map(), it, u) || (
                it == item && u == uid)),
    {
        match index.remove(item) {
            Some(mut owners) => {
                let ghost before = owners;
                owners.insert(uid);
                proof {
                    assert(owners.as_set().contains(before.seq()[0]) || before.seq()[0] == uid);
                    assert(owners.seq().len() > 0) by {
                        if owners.seq().len() == 0 {
                            assert(!owners.as_set().contains(uid));
                        }
                    }
                }
                index.insert(item, owners);
            },
            None => {
                let owners = IdSet::singleton(uid);
                proof {
                    assert(owners.seq().len() > 0) by {
                        if owners.seq().len() == 0 {
                            assert(!owners.as_set().contains(uid));
                        }
                    }
                }
                index.insert(item, owners);
            },
        }
    }

    /// Installs a fresh record: the old record's ownership and bucket
    /// entries are withdrawn first, then the new record's are added, so
    /// the indexes never hold ownership by a superseded record. The whole
    /// state after the call is a function of the new record map alone.
    pub fn upsert(&mut self, character: CharacterInfo)
        requires
            old(self).wf(),
            character.wf(),
        ensures
            final(self).wf(),
            final(self).players.as_map() == old(self).players.as_map().insert(
                character.uid as u64,
                character,
            ),
    {
        let uid = character.uid as u64;
        let (had_old, old_equip, old_level) = match self.players.get(uid) {
            Some(c) => (true, c.equipment.clone(), c.level),
            None => (false, Vec::new(), 0u16),
        };
        proof {
            if had_old {
                assert(old_equip@ =~= old(self).players.as_map()[uid].equipment@);
            }
        }

        // withdraw the old record's ownership entries
        let ghost index0 = self.equipment;
        let mut j: usize = 0;
        while j < old_equip.len()
            invariant
                j <= old_equip.len(),
                self.players == old(self).players,
                self.naked == old(self).naked,
                self.equipment.wf(),
                forall|it: u64| #[trigger]
                    self.equipment.as_map().contains_key(it) ==> self.equipment.as_map()[it].wf()
                        && self.equipment.as_map()[it].seq().len() > 0,
                forall|it: u64, u: u64|
                    #![trigger owns_in(self.equipment.as_map(), it, u)]
                    owns_in(self.equipment.as_map(), it, u) <==> (owns_in(index0.as_map(), it, u)
                        && !(u == uid && old_equip@.take(j as int).contains(it))),
            decreases old_equip.len() - j,
        {
            let item = old_equip[j];
            let ghost index_before = self.equipment;
            Self::drop_owner(&mut self.equipment, item, uid);
            proof {
                assert(old_equip@.take(j + 1) =~= old_equip@.take(j as int).push(item));
                assert forall|it: u64, u: u64|
                    #![trigger owns_in(self.equipment.as_map(), it, u)]
                    owns_in(self.equipment.as_map(), it, u) <==> (owns_in(index0.as_map(), it, u)
                        && !(u == uid && old_equip@.take(j + 1).contains(it))) by {
                    vstd::seq_lib::lemma_seq_contains_after_push(
                        old_equip@.take(j as int),
                        item,
                        it,
                    );
                }
            }
            j = j + 1;
        }
        proof {
            assert(old_equip@.take(old_equip@.len() as int) == old_equip@);
        }

        // add the new record's ownership entries
        let ghost index1 = self.equipment;
        let mut j: usize = 0;
        while j < character.equipment.len()
            invariant
                j <= character.equipment.len(),
                self.players == old(self).players,
                self.naked == old(self).naked,
                self.equipment.wf(),
                forall|it: u64| #[trigger]
                    self.equipment.as_map().contains_key(it) ==> self.equipment.as_map()[it].wf()
                        && self.equipment.as_map()[it].seq().len() > 0,
                forall|it: u64, u: u64|
                    #![trigger owns_in(self.equipment.as_map(), it, u)]
                    owns_in(self.equipment.as_map(), it, u) <==> (owns_in(index1.as_map(), it, u)
                        || (u == uid && character.equipment@.take(j as int).contains(it))),
            decreases character.equipment.len() - j,
        {
            let item = character.equipment[j];
            Self::add_owner(&mut self.equipment, item, uid);
            proof {
                assert(character.equipment@.take(j + 1) =~= character.equipment@.take(
                    j as int,
                ).push(item));
                assert forall|it: u64, u: u64|
                    #![trigger owns_in(self.equipment.as_map(), it, u)]
                    owns_in(self.equipment.as_map(), it, u) <==> (owns_in(index1.as_map(), it, u)
                        || (u == uid && character.equipment@.take(j + 1).contains(it))) by {
                    vstd::seq_lib::lemma_seq_contains_after_push(
                        character.equipment@.take(j as int),
                        item,
                        it,
                    );
                }
            }
            j = j + 1;
        }
        proof {
            assert(character.equipment@.take(character.equipment@.len() as int)
                == character.equipment@);
        }

        // move the low-equipment bucket entry
        if had_old && old_equip.len() < EQ_CUTOFF && old_level >= NAKED_MIN_LEVEL {
            Self::drop_owner(&mut self.naked, old_level as u64, uid);
        }
        if character.equipment.len() < EQ_CUTOFF && character.level >= NAKED_MIN_LEVEL {
            Self::add_owner(&mut self.naked, character.level as u64, uid);
        }

        // install the record itself
        self.players.insert(uid, character);

        proof {
            let players0 = old(self).players.as_map();
            let players2 = self.players.as_map();
            assert forall|it: u64, u: u64|
                owns_in(self.equipment.as_map(), it, u) <==> #[trigger] record_owns(
                    players2,
                    it,
                    u,
                ) by {
                assert(owns_in(index0.as_map(), it, u) <==> record_owns(players0, it, u));
                if u == uid && had_old {
                    assert(record_owns(players0, it, u) == old_equip@.contains(it));
                }
            }
            assert forall|lvl: u64, u: u64|
                owns_in(self.naked.as_map(), lvl, u) <==> #[trigger] naked_expected(
                    players2,
                    lvl,
                    u,
                ) by {
                assert(owns_in(old(self).naked.as_map(), lvl, u) <==> naked_expected(
                    players0,
                    lvl,
                    u,
                ));
            }
        }
    }
}

/// Feeds one freshly crawled or restored record into the database; the
/// record replaces whatever was known of that player before.
pub fn handle_new_char_info(character: CharacterInfo, db: &mut PlayerDb)
    requires
        old(db).wf(),
        character.wf(),
    ensures
        final(db).wf(),
        final(db).players.as_map() == old(db).players.as_map().insert(
            character.uid as u64,
            character,
        ),
{
    db.upsert(character);
}

/// Both indexes are functions of the record map: two well-formed
/// databases with equal records agree on every ownership pair and every
/// bucket pair. In particular, installing the same record twice leaves
/// every owner set of the equipment index unchanged.
pub proof fn lemma_index_determined_by_records(db1: PlayerDb, db2: PlayerDb)
    requires
        db1.wf(),
        db2.wf(),
        db1.players.as_map() == db2.players.as_map(),
    ensures
        forall|item: u64, u: u64|
            owns_in(db1.equipment.as_map(), item, u) == #[trigger] owns_in(
                db2.equipment.as_map(),
                item,
                u,
            ),
        forall|item: u64| #[trigger]
            db1.equipment.as_map().contains_key(item) == db2.equipment.as_map().contains_key(item),
        forall|item: u64|
            db1.equipment.as_map().contains_key(item) ==> #[trigger] db1.equipment.as_map()[
                item
            ].as_set() == db2.equipment.as_map()[item].as_set(),
        forall|lvl: u64, u: u64|
            owns_in(db1.naked.as_map(), lvl, u) == #[trigger] owns_in(db2.naked.as_map(), lvl, u),
{
    assert forall|item: u64, u: u64|
        owns_in(db1.equipment.as_map(), item, u) == #[trigger] owns_in(
            db2.equipment.as_map(),
            item,
            u,
        ) by {
        assert(owns_in(db1.equipment.as_map(), item, u) <==> record_owns(
            db1.players.as_map(),
            item,
            u,
        ));
        assert(owns_in(db2.equipment.as_map(), item, u) <==> record_owns(
            db2.players.as_map(),
            item,
            u,
        ));
    }
    assert forall|lvl: u64, u: u64|
        owns_in(db1.naked.as_map(), lvl, u) == #[trigger] owns_in(db2.naked.as_map(), lvl, u) by {
        assert(owns_in(db1.naked.as_map(), lvl, u) <==> naked_expected(
            db1.players.as_map(),
            lvl,
            u,
        ));
        assert(owns_in(db2.naked.as_map(), lvl, u) <==> naked_expected(
            db2.players.as_map(),
            lvl,
            u,
        ));
    }
    assert forall|item: u64| #[trigger]
        db1.equipment.as_map().contains_key(item) == db2.equipment.as_map().contains_key(
        item,
    ) by {
        if db1.equipment.as_map().contains_key(item) {
            let witness = db1.equipment.as_map()[item].seq()[0];
            assert(db1.equipment.as_map()[item].seq().contains(witness));
            assert(db1.equipment.as_map()[item].as_set().contains(witness));
            assert(owns_in(db1.equipment.as_map(), item, witness));
            assert(owns_in(db2.equipment.as_map(), item, witness));
        }
        if db2.equipment.as_map().contains_key(item) {
            let witness = db2.equipment.as_map()[item].seq()[0];
            assert(db2.equipment.as_map()[item].seq().contains(witness));
            assert(db2.equipment.as_map()[item].as_set().contains(witness));
            assert(owns_in(db2.equipment.as_map(), item, witness));
            assert(owns_in(db1.equipment.as_map(), item, witness));
        }
    }
    assert forall|item: u64|
        db1.equipment.as_map().contains_key(item) implies #[trigger] db1.equipment.as_map()[
        item
    ].as_set() == db2.equipment.as_map()[item].as_set() by {
        assert forall|u: u64|
            db1.equipment.as_map()[item].as_set().contains(u) == db2.equipment.as_map()[
            item
        ].as_set().contains(u) by {
            assert(owns_in(db1.equipment.as_map(), item, u) == owns_in(
                db2.equipment.as_map(),
                item,
                u,
            ));
        }
        assert(db1.equipment.as_map()[item].as_set() =~= db2.equipment.as_map()[item].as_set());
    }
}

} // verus!
