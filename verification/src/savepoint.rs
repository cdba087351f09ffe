//! Named per-transaction snapshots of table state, for partial rollback.

use vstd::prelude::*;
use crate::deep::DeepClone;
use crate::error::ReefDBError;
use crate::kv::IdMap;
use crate::storage::{TableModel, TableStorage};

verus! {

/// The model of one savepoint.
pub struct SavepointM {
    pub name: Seq<char>,
    pub state: Map<Seq<char>, TableModel>,
}

/// One savepoint: a name and the table state captured at creation.
pub struct Savepoint {
    pub name: String,
    pub state: TableStorage,
}

impl DeepView for Savepoint {
    type V = SavepointM;

    open spec fn deep_view(&self) -> SavepointM {
        SavepointM { name: self.name@, state: self.state@ }
    }
}

impl DeepClone for Savepoint {
    fn deep_clone(&self) -> (r: Self)
        ensures
            r.deep_view() == self.deep_view(),
    {
        Savepoint { name: self.name.clone(), state: self.state.deep_clone() }
    }
}

/// Keeping every savepoint not named `n`.
pub open spec fn sp_other(n: Seq<char>) -> spec_fn(SavepointM) -> bool {
    |s: SavepointM| s.name != n
}

/// The list after creating savepoint `n` with `state`: an earlier `n` is
/// overwritten, and the new savepoint is the newest.
pub open spec fn splist_create(l: Seq<SavepointM>, n: Seq<char>, state: Map<Seq<char>, TableModel>)
    -> Seq<SavepointM> {
    l.filter(sp_other(n)).push(SavepointM { name: n, state })
}

/// Position of the first savepoint named `n`, if any.
pub open spec fn sp_pos(l: Seq<SavepointM>, n: Seq<char>) -> Option<int>
    decreases l.len(),
{
    if l.len() == 0 {
        None
    } else if l[0].name == n {
        Some(0int)
    } else {
        match sp_pos(l.skip(1), n) {
            Some(i) => Some(i + 1),
            None => None,
        }
    }
}

/// `sp_pos` answers the first matching position.
pub proof fn lemma_sp_pos_found(l: Seq<SavepointM>, n: Seq<char>, i: int)
    requires
        0 <= i < l.len(),
        l[i].name == n,
        forall|j: int| 0 <= j < i ==> l[j].name != n,
    ensures
        sp_pos(l, n) == Some(i),
    decreases i,
{
    if i > 0 {
        assert(l.skip(1)[i - 1].name == n);
        assert(forall|j: int| 0 <= j < i - 1 ==> l.skip(1)[j].name != n);
        lemma_sp_pos_found(l.skip(1), n, i - 1);
    }
}

/// When no savepoint matches, `sp_pos` answers `None`.
pub proof fn lemma_sp_pos_none(l: Seq<SavepointM>, n: Seq<char>)
    requires
        forall|j: int| 0 <= j < l.len() ==> l[j].name != n,
    ensures
        sp_pos(l, n) is None,
    decreases l.len(),
{
    if l.len() > 0 {
        assert(forall|j: int| 0 <= j < l.skip(1).len() ==> l.skip(1)[j].name != n);
        lemma_sp_pos_none(l.skip(1), n);
    }
}

/// The savepoints of every transaction, each list ordered by creation.
pub struct SavepointManager {
    sps: IdMap<Vec<Savepoint>>,
}

impl View for SavepointManager {
    type V = Map<u64, Seq<SavepointM>>;

    closed spec fn view(&self) -> Map<u64, Seq<SavepointM>> {
        self.sps@
    }
}

/// The savepoint list of `tx`, empty when none was created.
pub open spec fn splist_of(m: Map<u64, Seq<SavepointM>>, tx: u64) -> Seq<SavepointM> {
    if m.contains_key(tx) {
        m[tx]
    } else {
        Seq::empty()
    }
}

impl SavepointManager {
    /// An empty savepoint store.
    pub fn new() -> (r: Self)
        ensures
            r@ == Map::<u64, Seq<SavepointM>>::empty(),
    {
        SavepointManager { sps: IdMap::new() }
    }

    /// Creates (or overwrites) savepoint `name` for `tx` holding `state`.
    pub fn create_savepoint(&mut self, tx_id: u64, name: String, state: TableStorage) -> (r:
        Result<(), ReefDBError>)
        ensures
            r is Ok,
            final(self)@ == old(self)@.insert(
                tx_id,
                splist_create(splist_of(old(self)@, tx_id), name@, state@),
            ),
    {
        let ghost l0 = splist_of(old(self)@, tx_id);
        let list: Vec<Savepoint> = match self.sps.take(tx_id) {
            Some(l) => l,
            None => Vec::new(),
        };
        proof {
            assert(list.deep_view() == l0);
        }
        let n = list.len();
        let mut out: Vec<Savepoint> = Vec::new();
        let mut i: usize = 0;
        while i < n
            invariant
                n == list.len(),
                i <= n,
                list.deep_view() == l0,
                out.deep_view() == l0.take(i as int).filter(sp_other(name@)),
            decreases n - i,
        {
            proof {
                reveal(Seq::filter);
                assert(l0.take(i as int + 1).drop_last() =~= l0.take(i as int));
                assert(l0.take(i as int + 1).last() == l0[i as int]);
            }
            if !crate::value::str_eq(list[i].name.as_str(), name.as_str()) {
                let ghost prev = out.deep_view();
                out.push(list[i].deep_clone());
                proof {
                    assert(out.deep_view() =~= prev.push(l0[i as int]));
                }
            }
            i = i + 1;
        }
        proof {
            assert(l0.take(n as int) =~= l0);
        }
        let ghost st = state@;
        let ghost nm = name@;
        out.push(Savepoint { name, state });
        proof {
            assert(out.deep_view() =~= l0.filter(sp_other(nm)).push(
                SavepointM { name: nm, state: st },
            ));
        }
        self.sps.upsert(tx_id, out);
        proof {
            if old(self)@.contains_key(tx_id) {
                assert(old(self)@.remove(tx_id).insert(
                    tx_id,
                    splist_create(l0, name@, st),
                ) =~= old(self)@.insert(tx_id, splist_create(l0, name@, st)));
            }
        }
        Ok(())
    }

    /// Hands back the state at savepoint `name` of `tx` and discards every
    /// savepoint created after it; the target itself stays.
    pub fn rollback_to_savepoint(&mut self, tx_id: u64, name: &str) -> (r: Result<
        TableStorage,
        ReefDBError,
    >)
        ensures
            match r {
                Ok(st) => {
                    &&& sp_pos(splist_of(old(self)@, tx_id), name@) matches Some(i)
                    &&& st@ == splist_of(old(self)@, tx_id)[sp_pos(
                        splist_of(old(self)@, tx_id),
                        name@,
                    ).unwrap()].state
                    &&& final(self)@ == old(self)@.insert(
                        tx_id,
                        splist_of(old(self)@, tx_id).take(
                            sp_pos(splist_of(old(self)@, tx_id), name@).unwrap() + 1,
                        ),
                    )
                },
                Err(e) => {
                    &&& sp_pos(splist_of(old(self)@, tx_id), name@) is None
                    &&& e.deep_view() == crate::error::ErrM::SavepointNotFound(name@)
                    &&& final(self)@ == old(self)@
                },
            },
    {
        let ghost l0 = splist_of(old(self)@, tx_id);
        let mut had_entry = false;
        let list: Vec<Savepoint> = match self.sps.take(tx_id) {
            Some(l) => {
                had_entry = true;
                l
            },
            None => Vec::new(),
        };
        proof {
            assert(list.deep_view() == l0);
            assert(had_entry == old(self)@.contains_key(tx_id));
        }
        let n = list.len();
        let mut i: usize = 0;
        while i < n
            invariant
                n == list.len(),
                i <= n,
                list.deep_view() == l0,
                l0 == splist_of(old(self)@, tx_id),
                self@ == old(self)@.remove(tx_id),
                had_entry == old(self)@.contains_key(tx_id),
                forall|j: int| 0 <= j < i ==> l0[j].name != name@,
            decreases n - i,
        {
            if crate::value::str_eq(list[i].name.as_str(), name) {
                proof {
                    lemma_sp_pos_found(l0, name@, i as int);
                }
                let st = list[i].state.deep_clone();
                let mut kept: Vec<Savepoint> = Vec::new();
                let mut j: usize = 0;
                while j <= i
                    invariant
                        i < n,
                        n == list.len(),
                        j <= i + 1,
                        list.deep_view() == l0,
                        kept.deep_view() == l0.take(j as int),
                    decreases i + 1 - j,
                {
                    let ghost prev = kept.deep_view();
                    kept.push(list[j].deep_clone());
                    proof {
                        assert(kept.deep_view() =~= prev.push(l0[j as int]));
                        assert(prev.push(l0[j as int]) =~= l0.take(j as int + 1));
                    }
                    j = j + 1;
                }
                self.sps.upsert(tx_id, kept);
                proof {
                    assert(l0.len() > 0);
                    assert(old(self)@.contains_key(tx_id));
                    assert(old(self)@.remove(tx_id).insert(tx_id, l0.take(i as int + 1))
                        =~= old(self)@.insert(tx_id, l0.take(i as int + 1)));
                }
                return Ok(st);
            }
            i = i + 1;
        }
        proof {
            lemma_sp_pos_none(l0, name@);
        }
        // no such savepoint; put the list back as it was
        if had_entry {
            self.sps.upsert(tx_id, list);
            proof {
                assert(old(self)@.remove(tx_id).insert(tx_id, l0) =~= old(self)@);
            }
        } else {
            proof {
                assert(old(self)@.remove(tx_id) =~= old(self)@);
            }
        }
        Err(ReefDBError::SavepointNotFound(name.to_owned()))
    }

    /// Discards savepoint `name` of `tx`.
    pub fn release_savepoint(&mut self, tx_id: u64, name: &str) -> (r: Result<(), ReefDBError>)
        ensures
            match r {
                Ok(_) => {
                    &&& sp_pos(splist_of(old(self)@, tx_id), name@) matches Some(i)
                    &&& final(self)@ == old(self)@.insert(
                        tx_id,
                        splist_of(old(self)@, tx_id).remove(
                            sp_pos(splist_of(old(self)@, tx_id), name@).unwrap(),
                        ),
                    )
                },
                Err(e) => {
                    &&& sp_pos(splist_of(old(self)@, tx_id), name@) is None
                    &&& e.deep_view() == crate::error::ErrM::SavepointNotFound(name@)
                    &&& final(self)@ == old(self)@
                },
            },
    {
        let ghost l0 = splist_of(old(self)@, tx_id);
        let mut had_entry = false;
        let list: Vec<Savepoint> = match self.sps.take(tx_id) {
            Some(l) => {
                had_entry = true;
                l
            },
            None => Vec::new(),
        };
        proof {
            assert(list.deep_view() == l0);
            assert(had_entry == old(self)@.contains_key(tx_id));
        }
        let n = list.len();
        let mut i: usize = 0;
        while i < n
            invariant
                n == list.len(),
                i <= n,
                list.deep_view() == l0,
                l0 == splist_of(old(self)@, tx_id),
                self@ == old(self)@.remove(tx_id),
                had_entry == old(self)@.contains_key(tx_id),
                forall|j: int| 0 <= j < i ==> l0[j].name != name@,
            decreases n - i,
        {
            if crate::value::str_eq(list[i].name.as_str(), name) {
                proof {
                    lemma_sp_pos_found(l0, name@, i as int);
                }
                let mut out = list;
                let ghost lv = out@;
                let _gone = out.remove(i);
                proof {
                    assert(out@ == lv.remove(i as int));
                    assert forall|k: int|
                        0 <= k < out.deep_view().len() implies out.deep_view()[k] == l0.remove(
                        i as int,
                    )[k] by {
                        if k < i {
                            assert(out@[k] == lv[k]);
                        } else {
                            assert(out@[k] == lv[k + 1]);
                        }
                    }
                    assert(out.deep_view() =~= l0.remove(i as int));
                }
                self.sps.upsert(tx_id, out);
                proof {
                    assert(l0.len() > 0);
                    assert(old(self)@.contains_key(tx_id));
                    assert(old(self)@.remove(tx_id).insert(tx_id, l0.remove(i as int))
                        =~= old(self)@.insert(tx_id, l0.remove(i as int)));
                }
                return Ok(());
            }
            i = i + 1;
        }
        proof {
            lemma_sp_pos_none(l0, name@);
        }
        if had_entry {
            self.sps.upsert(tx_id, list);
            proof {
                assert(old(self)@.remove(tx_id).insert(tx_id, l0) =~= old(self)@);
            }
        } else {
            proof {
                assert(old(self)@.remove(tx_id) =~= old(self)@);
            }
        }
        Err(ReefDBError::SavepointNotFound(name.to_owned()))
    }

    /// Forgets every savepoint of `tx`.
    pub fn clear_transaction_savepoints(&mut self, tx_id: u64)
        ensures
            final(self)@ == old(self)@.remove(tx_id),
    {
        self.sps.remove(tx_id);
    }
}

} // verus!
