//! Multi-version concurrency control: per-key version chains, snapshot
//! visibility, first-committer-wins commits, and rollback.
//!
//! Every transaction gets a read timestamp at begin; a version is visible
//! to a reader when it is committed and its `[begin_ts, end_ts)` interval
//! covers the reader's timestamp, or when the reader wrote it.

use vstd::prelude::*;
use crate::deep::DeepClone;
use crate::error::ReefDBError;
use crate::kv::{IdMap, StrMap};
use crate::value::{DataValue, Val};

verus! {

/// The model of one version.
pub struct VersionM {
    pub tx_id: u64,
    pub begin_ts: u64,
    pub end_ts: Option<u64>,
    pub committed: bool,
    pub commit_ts: Option<u64>,
    pub data: Seq<Val>,
}

/// One version in a chain. `end_ts` and `commit_ts` of `None` mean
/// "still current" and "not committed yet".
pub struct Version {
    pub tx_id: u64,
    pub begin_ts: u64,
    pub end_ts: Option<u64>,
    pub committed: bool,
    pub commit_ts: Option<u64>,
    pub data: Vec<DataValue>,
}

impl DeepView for Version {
    type V = VersionM;

    open spec fn deep_view(&self) -> VersionM {
        VersionM {
            tx_id: self.tx_id,
            begin_ts: self.begin_ts,
            end_ts: self.end_ts,
            committed: self.committed,
            commit_ts: self.commit_ts,
            data: self.data.deep_view(),
        }
    }
}

impl DeepClone for Version {
    fn deep_clone(&self) -> (r: Self)
        ensures
            r.deep_view() == self.deep_view(),
    {
        Version {
            tx_id: self.tx_id,
            begin_ts: self.begin_ts,
            end_ts: self.end_ts,
            committed: self.committed,
            commit_ts: self.commit_ts,
            data: self.data.deep_clone(),
        }
    }
}

/// The visibility rule: a committed version whose lifetime covers the
/// reader's timestamp, or any version the reader wrote itself.
pub open spec fn visible(v: VersionM, reader: u64, rts: u64) -> bool {
    (v.committed && v.begin_ts <= rts && (match v.end_ts {
        None => true,
        Some(e) => e > rts,
    })) || v.tx_id == reader
}

/// Among the visible versions, the one with the newest `begin_ts`; between
/// equal timestamps the later-appended version wins.
pub open spec fn best_visible(chain: Seq<VersionM>, reader: u64, rts: u64) -> Option<VersionM>
    decreases chain.len(),
{
    if chain.len() == 0 {
        None
    } else {
        let rest = best_visible(chain.drop_last(), reader, rts);
        let v = chain.last();
        if visible(v, reader, rts) {
            match rest {
                None => Some(v),
                Some(w) => if w.begin_ts <= v.begin_ts {
                    Some(v)
                } else {
                    rest
                },
            }
        } else {
            rest
        }
    }
}

/// The newest version regardless of commit status, later-appended versions
/// winning ties.
pub open spec fn newest_any(chain: Seq<VersionM>) -> Option<VersionM>
    decreases chain.len(),
{
    if chain.len() == 0 {
        None
    } else {
        let rest = newest_any(chain.drop_last());
        let v = chain.last();
        match rest {
            None => Some(v),
            Some(w) => if w.begin_ts <= v.begin_ts {
                Some(v)
            } else {
                rest
            },
        }
    }
}

/// The version chain of a key, empty when the key was never written.
pub open spec fn chain_of(m: Map<Seq<char>, Seq<VersionM>>, key: Seq<char>) -> Seq<VersionM> {
    if m.contains_key(key) {
        m[key]
    } else {
        Seq::empty()
    }
}

/// Whether `tx` has an uncommitted version in the chain.
pub open spec fn chain_has_pending(chain: Seq<VersionM>, tx: u64) -> bool {
    exists|i: int| 0 <= i < chain.len() && chain[i].tx_id == tx && !chain[i].committed
}

/// Whether another live transaction has an uncommitted version in the
/// chain.
pub open spec fn has_live_conflict(chain: Seq<VersionM>, tx: u64, active: Map<u64, u64>) -> bool {
    exists|i: int|
        0 <= i < chain.len() && !chain[i].committed && chain[i].tx_id != tx
            && active.contains_key(chain[i].tx_id)
}

/// Whether another transaction committed a version in the chain after
/// timestamp `rts`.
pub open spec fn chain_has_foreign_commit_after(chain: Seq<VersionM>, tx: u64, rts: u64) -> bool {
    exists|i: int|
        0 <= i < chain.len() && chain[i].tx_id != tx && chain[i].committed && (match chain[
            i
        ].commit_ts {
            Some(c) => c > rts,
            None => false,
        })
}

/// How one version changes when `tx` commits at timestamp `cts`:
/// `tx`'s pending versions become committed, and on keys `tx` wrote, the
/// still-current committed versions of others are closed at `cts`.
pub open spec fn commit_version(v: VersionM, tx: u64, cts: u64, key_written: bool) -> VersionM {
    if v.tx_id == tx && !v.committed {
        VersionM { committed: true, commit_ts: Some(cts), ..v }
    } else if key_written && v.committed && v.end_ts is None && v.tx_id != tx {
        VersionM { end_ts: Some(cts), ..v }
    } else {
        v
    }
}

/// The per-version commit transform as a function value.
pub open spec fn commit_fn(tx: u64, cts: u64, key_written: bool) -> spec_fn(VersionM) -> VersionM {
    |v: VersionM| commit_version(v, tx, cts, key_written)
}

/// A whole chain after `tx` commits at `cts`.
pub open spec fn chain_commit(chain: Seq<VersionM>, tx: u64, cts: u64) -> Seq<VersionM> {
    chain.map_values(commit_fn(tx, cts, chain_has_pending(chain, tx)))
}

/// Keeping every version that is not an uncommitted write of `tx`.
pub open spec fn keep_on_rollback(tx: u64) -> spec_fn(VersionM) -> bool {
    |v: VersionM| !(v.tx_id == tx && !v.committed)
}

/// A whole chain after `tx` rolls back: its uncommitted versions leave.
pub open spec fn chain_rollback(chain: Seq<VersionM>, tx: u64) -> Seq<VersionM> {
    chain.filter(keep_on_rollback(tx))
}

/// One version's health: timestamps within the clock, committedness and
/// `commit_ts` in step, uncommitted versions owned by a live transaction
/// reading at their `begin_ts`, and committed ones owned by no live
/// transaction.
pub open spec fn version_wf(v: VersionM, active: Map<u64, u64>, counter: u64) -> bool {
    &&& v.begin_ts <= counter
    &&& (match v.end_ts {
        Some(e) => e <= counter,
        None => true,
    })
    &&& (match v.commit_ts {
        Some(c) => c <= counter && v.committed,
        None => !v.committed,
    })
    &&& (v.committed ==> !active.contains_key(v.tx_id))
    &&& (!v.committed ==> active.contains_key(v.tx_id) && v.begin_ts == active[v.tx_id])
}

/// The MVCC state: a timestamp clock, the read timestamps of the live
/// transactions, and the per-key version chains.
pub struct MVCCManager {
    timestamp_counter: u64,
    active: IdMap<u64>,
    versions: StrMap<Vec<Version>>,
}

impl MVCCManager {
    /// The timestamp clock.
    pub closed spec fn counter(self) -> u64 {
        self.timestamp_counter
    }

    /// The read timestamps of the live transactions.
    pub closed spec fn active_map(self) -> Map<u64, u64> {
        self.active@
    }

    /// The per-key version chains.
    pub closed spec fn versions_map(self) -> Map<Seq<char>, Seq<VersionM>> {
        self.versions@
    }

    /// The state's health: live read timestamps are positive, within the
    /// clock, and pairwise distinct, and every version is healthy.
    pub open spec fn wf(self) -> bool {
        &&& forall|t: u64| #[trigger]
            self.active_map().contains_key(t) ==> 1 <= self.active_map()[t] <= self.counter()
        &&& forall|t1: u64, t2: u64|
            self.active_map().contains_key(t1) && self.active_map().contains_key(t2) && t1 != t2
                ==> self.active_map()[t1] != self.active_map()[t2]
        &&& forall|k: Seq<char>, i: int|
            #![trigger self.versions_map()[k][i]]
            self.versions_map().contains_key(k) && 0 <= i < self.versions_map()[k].len()
                ==> version_wf(self.versions_map()[k][i], self.active_map(), self.counter())
    }

    /// Whether `tx` appears nowhere: not live, and no version carries it.
    pub open spec fn tx_unused(self, tx: u64) -> bool {
        &&& !self.active_map().contains_key(tx)
        &&& forall|k: Seq<char>, i: int|
            #![trigger self.versions_map()[k][i]]
            self.versions_map().contains_key(k) && 0 <= i < self.versions_map()[k].len()
                ==> self.versions_map()[k][i].tx_id != tx
    }

    /// The timestamp a reader sees at: its own read timestamp while live,
    /// the current clock otherwise (so the system reader `0` sees
    /// everything committed).
    pub open spec fn spec_rts(self, reader: u64) -> u64 {
        if self.active_map().contains_key(reader) {
            self.active_map()[reader]
        } else {
            self.counter()
        }
    }

    /// What a committed-state read of `key` by `reader` answers.
    pub open spec fn spec_read(self, reader: u64, key: Seq<char>) -> Option<Seq<Val>> {
        match best_visible(chain_of(self.versions_map(), key), reader, self.spec_rts(reader)) {
            Some(v) => Some(v.data),
            None => None,
        }
    }

    /// A fresh MVCC state.
    pub fn new() -> (r: Self)
        ensures
            r.counter() == 0,
            r.active_map() == Map::<u64, u64>::empty(),
            r.versions_map() == Map::<Seq<char>, Seq<VersionM>>::empty(),
            r.wf(),
    {
        MVCCManager { timestamp_counter: 0, active: IdMap::new(), versions: StrMap::new() }
    }

    /// Whether `tx` is live.
    pub fn is_active(&self, tx_id: u64) -> (r: bool)
        ensures
            r == self.active_map().contains_key(tx_id),
    {
        self.active.contains(tx_id)
    }

    /// Begins `tx`: the clock ticks and `tx` reads at the new timestamp,
    /// which is strictly above every other live read timestamp.
    pub fn begin_transaction(&mut self, tx_id: u64) -> (r: Result<(), ReefDBError>)
        requires
            old(self).wf(),
            old(self).tx_unused(tx_id),
        ensures
            final(self).wf(),
            match r {
                Ok(_) => {
                    &&& old(self).counter() < u64::MAX
                    &&& final(self).counter() == old(self).counter() + 1
                    &&& final(self).active_map() == old(self).active_map().insert(
                        tx_id,
                        final(self).counter(),
                    )
                    &&& final(self).versions_map() == old(self).versions_map()
                    &&& forall|t: u64| #[trigger]
                        old(self).active_map().contains_key(t) ==> old(self).active_map()[t]
                            < final(self).active_map()[tx_id]
                },
                Err(e) => {
                    &&& old(self).counter() == u64::MAX
                    &&& e.deep_view() matches crate::error::ErrM::Other(_)
                    &&& final(self).counter() == old(self).counter()
                    &&& final(self).active_map() == old(self).active_map()
                    &&& final(self).versions_map() == old(self).versions_map()
                },
            },
    {
        if self.timestamp_counter == u64::MAX {
            return Err(ReefDBError::Other("timestamp space exhausted".to_owned()));
        }
        self.timestamp_counter = self.timestamp_counter + 1;
        let ts = self.timestamp_counter;
        self.active.upsert(tx_id, ts);
        Ok(())
    }

    /// Stages a write of `data` under `key` for `tx`: a new uncommitted
    /// version at `tx`'s read timestamp joins the chain, unless another
    /// live transaction already has an uncommitted version there.
    pub fn write(&mut self, tx_id: u64, key: String, data: Vec<DataValue>) -> (r: Result<
        (),
        ReefDBError,
    >)
        requires
            old(self).wf(),
        ensures
            final(self).wf(),
            final(self).counter() == old(self).counter(),
            final(self).active_map() == old(self).active_map(),
            match r {
                Ok(_) => {
                    &&& old(self).active_map().contains_key(tx_id)
                    &&& !has_live_conflict(
                        chain_of(old(self).versions_map(), key@),
                        tx_id,
                        old(self).active_map(),
                    )
                    &&& final(self).versions_map() == old(self).versions_map().insert(
                        key@,
                        chain_of(old(self).versions_map(), key@).push(
                            VersionM {
                                tx_id,
                                begin_ts: old(self).active_map()[tx_id],
                                end_ts: None,
                                committed: false,
                                commit_ts: None,
                                data: data.deep_view(),
                            },
                        ),
                    )
                },
                Err(e) => {
                    &&& final(self).versions_map() == old(self).versions_map()
                    &&& if !old(self).active_map().contains_key(tx_id) {
                        e.deep_view() == crate::error::ErrM::TransactionNotActive
                    } else {
                        has_live_conflict(
                            chain_of(old(self).versions_map(), key@),
                            tx_id,
                            old(self).active_map(),
                        ) && e.deep_view() == crate::error::ErrM::WriteConflict
                    }
                },
            },
    {
        let rts: u64 = match self.active.get(tx_id) {
            Some(r) => *r,
            None => {
                return Err(ReefDBError::TransactionNotActive);
            },
        };
        let ghost pre = *self;
        let mut chain: Vec<Version> = match self.versions.take(key.as_str()) {
            Some(c) => c,
            None => Vec::new(),
        };
        let ghost chain0 = chain.deep_view();
        proof {
            assert(chain0 == chain_of(pre.versions_map(), key@));
        }
        // check for an uncommitted version by another live transaction
        let n = chain.len();
        let mut i: usize = 0;
        let mut conflict = false;
        while i < n
            invariant
                n == chain.len(),
                i <= n,
                chain.deep_view() == chain0,
                self.active@ == pre.active_map(),
                conflict == exists|j: int|
                    0 <= j < i && !chain0[j].committed && chain0[j].tx_id != tx_id
                        && pre.active_map().contains_key(chain0[j].tx_id),
            decreases n - i,
        {
            if !chain[i].committed && chain[i].tx_id != tx_id {
                if self.active.contains(chain[i].tx_id) {
                    proof {
                        assert(!chain0[i as int].committed && chain0[i as int].tx_id != tx_id
                            && pre.active_map().contains_key(chain0[i as int].tx_id));
                    }
                    conflict = true;
                }
            }
            i = i + 1;
        }
        if conflict {
            self.versions.upsert(key, chain);
            proof {
                if pre.versions_map().contains_key(key@) {
                    assert(pre.versions_map().remove(key@).insert(key@, chain0)
                        =~= pre.versions_map());
                } else {
                    assert(chain0.len() == 0);
                    assert(false);
                }
                assert(self.versions_map() == pre.versions_map());
            }
            return Err(ReefDBError::WriteConflict);
        }
        let v = Version {
            tx_id,
            begin_ts: rts,
            end_ts: None,
            committed: false,
            commit_ts: None,
            data,
        };
        let ghost vm = v.deep_view();
        chain.push(v);
        proof {
            assert(chain.deep_view() =~= chain0.push(vm));
        }
        self.versions.upsert(key, chain);
        proof {
            if pre.versions_map().contains_key(key@) {
                assert(pre.versions_map().remove(key@).insert(key@, chain0.push(vm))
                    =~= pre.versions_map().insert(key@, chain0.push(vm)));
            }
            assert(final(self).versions_map() == pre.versions_map().insert(
                key@,
                chain0.push(vm),
            ));
            assert forall|k: Seq<char>, i2: int|
                #![trigger final(self).versions_map()[k][i2]]
                final(self).versions_map().contains_key(k) && 0 <= i2
                    < final(self).versions_map()[k].len() implies version_wf(
                final(self).versions_map()[k][i2],
                final(self).active_map(),
                final(self).counter(),
            ) by {
                if k == key@ && i2 == chain0.len() {
                } else if k == key@ {
                    assert(final(self).versions_map()[k][i2] == chain0[i2]);
                    if pre.versions_map().contains_key(key@) {
                        assert(version_wf(
                            pre.versions_map()[k][i2],
                            pre.active_map(),
                            pre.counter(),
                        ));
                    }
                } else {
                    assert(version_wf(pre.versions_map()[k][i2], pre.active_map(), pre.counter()));
                }
            }
        }
        Ok(())
    }

    /// Reads `key` as `reader` sees it: the newest visible version's data.
    pub fn read_committed(&self, reader: u64, key: &str) -> (r: Option<Vec<DataValue>>)
        ensures
            match (r, self.spec_read(reader, key@)) {
                (Some(d), Some(m)) => d.deep_view() == m,
                (None, None) => true,
                _ => false,
            },
    {
        let rts: u64 = match self.active.get(reader) {
            Some(t) => *t,
            None => self.timestamp_counter,
        };
        proof {
            assert(rts == self.spec_rts(reader));
        }
        let chain: &Vec<Version> = match self.versions.get(key) {
            Some(c) => c,
            None => {
                proof {
                    assert(chain_of(self.versions_map(), key@) =~= Seq::<VersionM>::empty());
                }
                return None;
            },
        };
        let ghost cm = chain_of(self.versions_map(), key@);
        proof {
            assert(chain.deep_view() == cm);
        }
        let n = chain.len();
        let mut i: usize = 0;
        let mut best: Option<usize> = None;
        while i < n
            invariant
                n == chain.len(),
                i <= n,
                chain.deep_view() == cm,
                rts == self.spec_rts(reader),
                match best {
                    Some(b) => b < i && best_visible(cm.take(i as int), reader, rts) == Some(
                        cm[b as int],
                    ),
                    None => best_visible(cm.take(i as int), reader, rts) is None,
                },
            decreases n - i,
        {
            proof {
                assert(cm.take(i as int + 1).drop_last() =~= cm.take(i as int));
                assert(cm.take(i as int + 1).last() == cm[i as int]);
            }
            let v = &chain[i];
            let vis = (v.committed && v.begin_ts <= rts && (match v.end_ts {
                None => true,
                Some(e) => e > rts,
            })) || v.tx_id == reader;
            proof {
                assert(vis == visible(cm[i as int], reader, rts));
            }
            if vis {
                match best {
                    Some(b) => {
                        if chain[b].begin_ts <= chain[i].begin_ts {
                            best = Some(i);
                        }
                    },
                    None => {
                        best = Some(i);
                    },
                }
            }
            i = i + 1;
        }
        proof {
            assert(cm.take(n as int) =~= cm);
        }
        match best {
            Some(b) => Some(chain[b].data.deep_clone()),
            None => None,
        }
    }

    /// Reads the newest version of `key` regardless of commit status.
    pub fn read_uncommitted(&self, key: &str) -> (r: Option<Vec<DataValue>>)
        ensures
            match (r, newest_any(chain_of(self.versions_map(), key@))) {
                (Some(d), Some(m)) => d.deep_view() == m.data,
                (None, None) => true,
                _ => false,
            },
    {
        let chain: &Vec<Version> = match self.versions.get(key) {
            Some(c) => c,
            None => {
                proof {
                    assert(chain_of(self.versions_map(), key@) =~= Seq::<VersionM>::empty());
                }
                return None;
            },
        };
        let ghost cm = chain_of(self.versions_map(), key@);
        proof {
            assert(chain.deep_view() == cm);
        }
        let n = chain.len();
        let mut i: usize = 0;
        let mut best: Option<usize> = None;
        while i < n
            invariant
                n == chain.len(),
                i <= n,
                chain.deep_view() == cm,
                match best {
                    Some(b) => b < i && newest_any(cm.take(i as int)) == Some(cm[b as int]),
                    None => newest_any(cm.take(i as int)) is None,
                },
            decreases n - i,
        {
            proof {
                assert(cm.take(i as int + 1).drop_last() =~= cm.take(i as int));
                assert(cm.take(i as int + 1).last() == cm[i as int]);
            }
            match best {
                Some(b) => {
                    if chain[b].begin_ts <= chain[i].begin_ts {
                        best = Some(i);
                    }
                },
                None => {
                    best = Some(i);
                },
            }
            i = i + 1;
        }
        proof {
            assert(cm.take(n as int) =~= cm);
        }
        match best {
            Some(b) => Some(chain[b].data.deep_clone()),
            None => None,
        }
    }


    /// Whether a write of `key` by `tx` would hit another live
    /// transaction's uncommitted version.
    pub fn has_write_conflict(&self, tx_id: u64, key: &str) -> (r: bool)
        ensures
            r == has_live_conflict(
                chain_of(self.versions_map(), key@),
                tx_id,
                self.active_map(),
            ),
    {
        let chain: &Vec<Version> = match self.versions.get(key) {
            Some(c) => c,
            None => {
                proof {
                    assert(chain_of(self.versions_map(), key@) =~= Seq::<VersionM>::empty());
                }
                return false;
            },
        };
        let ghost cm = chain_of(self.versions_map(), key@);
        proof {
            assert(chain.deep_view() == cm);
        }
        let n = chain.len();
        let mut i: usize = 0;
        while i < n
            invariant
                n == chain.len(),
                chain.deep_view() == cm,
                cm == chain_of(self.versions_map(), key@),
                self.active@ == self.active_map(),
                i <= n,
                forall|j: int|
                    0 <= j < i ==> !(!cm[j].committed && cm[j].tx_id != tx_id
                        && self.active_map().contains_key(cm[j].tx_id)),
            decreases n - i,
        {
            if !chain[i].committed && chain[i].tx_id != tx_id {
                if self.active.contains(chain[i].tx_id) {
                    proof {
                        assert(!cm[i as int].committed && cm[i as int].tx_id != tx_id
                            && self.active_map().contains_key(cm[i as int].tx_id));
                        assert(has_live_conflict(cm, tx_id, self.active_map()));
                        assert(cm == chain_of(self.versions_map(), key@));
                    }
                    return true;
                }
            }
            i = i + 1;
        }
        proof {
            assert(!has_live_conflict(cm, tx_id, self.active_map())) by {
                if has_live_conflict(cm, tx_id, self.active_map()) {
                    let j = choose|j: int|
                        0 <= j < cm.len() && !cm[j].committed && cm[j].tx_id != tx_id
                            && self.active_map().contains_key(cm[j].tx_id);
                    assert(false);
                }
            }
        }
        false
    }

    /// Reads `key` at the current clock as `reader` sees it: the freshest
    /// committed version, plus the reader's own writes.
    pub fn read_latest(&self, reader: u64, key: &str) -> (r: Option<Vec<DataValue>>)
        ensures
            match (r, best_visible(
                chain_of(self.versions_map(), key@),
                reader,
                self.counter(),
            )) {
                (Some(d), Some(m)) => d.deep_view() == m.data,
                (None, None) => true,
                _ => false,
            },
    {
        let rts: u64 = self.timestamp_counter;
        let chain: &Vec<Version> = match self.versions.get(key) {
            Some(c) => c,
            None => {
                proof {
                    assert(chain_of(self.versions_map(), key@) =~= Seq::<VersionM>::empty());
                }
                return None;
            },
        };
        let ghost cm = chain_of(self.versions_map(), key@);
        proof {
            assert(chain.deep_view() == cm);
        }
        let n = chain.len();
        let mut i: usize = 0;
        let mut best: Option<usize> = None;
        while i < n
            invariant
                n == chain.len(),
                i <= n,
                chain.deep_view() == cm,
                rts == self.counter(),
                match best {
                    Some(b) => b < i && best_visible(cm.take(i as int), reader, rts) == Some(
                        cm[b as int],
                    ),
                    None => best_visible(cm.take(i as int), reader, rts) is None,
                },
            decreases n - i,
        {
            proof {
                assert(cm.take(i as int + 1).drop_last() =~= cm.take(i as int));
                assert(cm.take(i as int + 1).last() == cm[i as int]);
            }
            let v = &chain[i];
            let vis = (v.committed && v.begin_ts <= rts && (match v.end_ts {
                None => true,
                Some(e) => e > rts,
            })) || v.tx_id == reader;
            proof {
                assert(vis == visible(cm[i as int], reader, rts));
            }
            if vis {
                match best {
                    Some(b) => {
                        if chain[b].begin_ts <= chain[i].begin_ts {
                            best = Some(i);
                        }
                    },
                    None => {
                        best = Some(i);
                    },
                }
            }
            i = i + 1;
        }
        proof {
            assert(cm.take(n as int) =~= cm);
        }
        match best {
            Some(b) => Some(chain[b].data.deep_clone()),
            None => None,
        }
    }

    /// Whether committing `tx` now would lose the first-committer race on
    /// some key: `tx` has a pending write where another transaction
    /// committed after `tx` began.
    pub open spec fn commit_conflict(self, tx: u64) -> bool {
        exists|k: Seq<char>| #[trigger]
            self.versions_map().contains_key(k) && chain_has_pending(self.versions_map()[k], tx)
                && chain_has_foreign_commit_after(
                self.versions_map()[k],
                tx,
                self.active_map()[tx],
            )
    }

    /// Commits `tx`: its pending versions become committed at the new
    /// clock tick and superseded current versions are closed, or the
    /// first-committer-wins check fails and nothing changes.
    pub fn commit(&mut self, tx_id: u64) -> (r: Result<(), ReefDBError>)
        requires
            old(self).wf(),
        ensures
            final(self).wf(),
            match r {
                Ok(_) => {
                    &&& old(self).active_map().contains_key(tx_id)
                    &&& !old(self).commit_conflict(tx_id)
                    &&& old(self).counter() < u64::MAX
                    &&& final(self).counter() == old(self).counter() + 1
                    &&& final(self).active_map() == old(self).active_map().remove(tx_id)
                    &&& final(self).versions_map().dom() == old(self).versions_map().dom()
                    &&& forall|k: Seq<char>| #[trigger]
                        old(self).versions_map().contains_key(k)
                            ==> final(self).versions_map()[k] == chain_commit(
                            old(self).versions_map()[k],
                            tx_id,
                            final(self).counter(),
                        )
                },
                Err(e) => {
                    &&& final(self).counter() == old(self).counter()
                    &&& final(self).active_map() == old(self).active_map()
                    &&& final(self).versions_map() == old(self).versions_map()
                    &&& if !old(self).active_map().contains_key(tx_id) {
                        e.deep_view() == crate::error::ErrM::TransactionNotActive
                    } else if old(self).counter() == u64::MAX {
                        e.deep_view() matches crate::error::ErrM::Other(_)
                    } else {
                        old(self).commit_conflict(tx_id) && e.deep_view()
                            == crate::error::ErrM::SerializationFailure
                    }
                },
            },
    {
        let rts: u64 = match self.active.get(tx_id) {
            Some(r) => *r,
            None => {
                return Err(ReefDBError::TransactionNotActive);
            },
        };
        if self.timestamp_counter == u64::MAX {
            return Err(ReefDBError::Other("timestamp space exhausted".to_owned()));
        }
        let ghost pre = *self;
        let keys = self.versions.keys_vec();
        let nk = keys.len();

        // first-committer-wins detection
        let mut conflict = false;
        let mut i: usize = 0;
        while i < nk
            invariant
                nk == keys@.len(),
                *self == pre,
                i <= nk,
                forall|j: int| 0 <= j < keys@.len() ==> pre.versions_map().contains_key(
                    #[trigger] keys@[j]@,
                ),
                forall|k: Seq<char>| pre.versions_map().contains_key(k) ==> exists|j: int|
                    0 <= j < keys@.len() && keys@[j]@ == k,
                rts == pre.active_map()[tx_id],
                conflict == exists|j: int|
                    0 <= j < i && chain_has_pending(
                        pre.versions_map()[#[trigger] keys@[j]@],
                        tx_id,
                    ) && chain_has_foreign_commit_after(
                        pre.versions_map()[keys@[j]@],
                        tx_id,
                        rts,
                    ),
            decreases nk - i,
        {
            let chain: &Vec<Version> = match self.versions.get(keys[i].as_str()) {
                Some(c) => c,
                None => {
                    proof {
                        assert(false);
                    }
                    return Err(ReefDBError::Other("missing chain".to_owned()));
                },
            };
            let ghost cm = pre.versions_map()[keys@[i as int]@];
            proof {
                assert(chain.deep_view() == cm);
            }
            let m = chain.len();
            let mut p: usize = 0;
            let mut pending = false;
            let mut foreign = false;
            while p < m
                invariant
                    m == chain.len(),
                    p <= m,
                    chain.deep_view() == cm,
                    pending == exists|q: int|
                        0 <= q < p && cm[q].tx_id == tx_id && !cm[q].committed,
                    foreign == exists|q: int|
                        0 <= q < p && cm[q].tx_id != tx_id && cm[q].committed && (match cm[
                            q
                        ].commit_ts {
                            Some(c) => c > rts,
                            None => false,
                        }),
                decreases m - p,
            {
                let v = &chain[p];
                if v.tx_id == tx_id && !v.committed {
                    proof {
                        assert(cm[p as int].tx_id == tx_id && !cm[p as int].committed);
                    }
                    pending = true;
                }
                if v.tx_id != tx_id && v.committed {
                    match v.commit_ts {
                        Some(c) => {
                            if c > rts {
                                proof {
                                    assert(cm[p as int].tx_id != tx_id && cm[p as int].committed
                                        && (match cm[p as int].commit_ts {
                                        Some(c2) => c2 > rts,
                                        None => false,
                                    }));
                                }
                                foreign = true;
                            }
                        },
                        None => {},
                    }
                }
                p = p + 1;
            }
            proof {
                assert(pending == chain_has_pending(cm, tx_id));
                assert(foreign == chain_has_foreign_commit_after(cm, tx_id, rts));
            }
            if pending && foreign {
                conflict = true;
            }
            i = i + 1;
        }
        if conflict {
            proof {
                let j = choose|j: int|
                    0 <= j < nk && chain_has_pending(pre.versions_map()[keys@[j]@], tx_id)
                        && chain_has_foreign_commit_after(pre.versions_map()[keys@[j]@], tx_id, rts);
                assert(pre.versions_map().contains_key(keys@[j]@));
                assert(pre.commit_conflict(tx_id));
            }
            return Err(ReefDBError::SerializationFailure);
        }
        proof {
            if pre.commit_conflict(tx_id) {
                let k = choose|k: Seq<char>| #[trigger]
                    pre.versions_map().contains_key(k) && chain_has_pending(
                        pre.versions_map()[k],
                        tx_id,
                    ) && chain_has_foreign_commit_after(pre.versions_map()[k], tx_id, rts);
                let j = choose|j: int| 0 <= j < keys@.len() && keys@[j]@ == k;
                assert(false);
            }
        }

        // apply the commit
        self.timestamp_counter = self.timestamp_counter + 1;
        let cts = self.timestamp_counter;
        self.active.remove(tx_id);
        let mut i2: usize = 0;
        while i2 < nk
            invariant
                nk == keys@.len(),
                i2 <= nk,
                self.counter() == cts,
                cts == pre.counter() + 1,
                self.active@ == pre.active_map().remove(tx_id),
                forall|a: int, b: int| 0 <= a < b < keys@.len() ==> keys@[a]@ != keys@[b]@,
                forall|j: int| 0 <= j < keys@.len() ==> pre.versions_map().contains_key(
                    #[trigger] keys@[j]@,
                ),
                forall|k: Seq<char>| pre.versions_map().contains_key(k) ==> exists|j: int|
                    0 <= j < keys@.len() && keys@[j]@ == k,
                self.versions_map().dom() == pre.versions_map().dom(),
                forall|k: Seq<char>|
                    (pre.versions_map().contains_key(k) && !(exists|j: int|
                        0 <= j < i2 && keys@[j]@ == k)) ==> #[trigger] self.versions_map()[k]
                        == pre.versions_map()[k],
                forall|k: Seq<char>|
                    (pre.versions_map().contains_key(k) && (exists|j: int|
                        0 <= j < i2 && keys@[j]@ == k)) ==> #[trigger] self.versions_map()[k]
                        == chain_commit(pre.versions_map()[k], tx_id, cts),
            decreases nk - i2,
        {
            let ghost t = keys@[i2 as int]@;
            let ghost mid = self.versions_map();
            proof {
                assert(pre.versions_map().contains_key(t));
                assert(!(exists|j: int| 0 <= j < i2 && keys@[j]@ == t));
                assert(self.versions_map().contains_key(t));
                assert(self.versions_map()[t] == pre.versions_map()[t]);
            }
            let chain: Vec<Version> = match self.versions.take(keys[i2].as_str()) {
                Some(c) => c,
                None => {
                    proof {
                        assert(false);
                    }
                    return Err(ReefDBError::Other("missing chain".to_owned()));
                },
            };
            let ghost cm = pre.versions_map()[t];
            proof {
                assert(chain.deep_view() == cm);
            }
            let m = chain.len();
            // does tx write this key?
            let mut p: usize = 0;
            let mut pending = false;
            while p < m
                invariant
                    m == chain.len(),
                    p <= m,
                    chain.deep_view() == cm,
                    pending == exists|q: int|
                        0 <= q < p && cm[q].tx_id == tx_id && !cm[q].committed,
                decreases m - p,
            {
                if chain[p].tx_id == tx_id && !chain[p].committed {
                    proof {
                        assert(cm[p as int].tx_id == tx_id && !cm[p as int].committed);
                    }
                    pending = true;
                }
                p = p + 1;
            }
            proof {
                assert(pending == chain_has_pending(cm, tx_id));
            }
            let mut out: Vec<Version> = Vec::new();
            let mut q: usize = 0;
            while q < m
                invariant
                    m == chain.len(),
                    q <= m,
                    chain.deep_view() == cm,
                    pending == chain_has_pending(cm, tx_id),
                    out.deep_view().len() == q,
                    forall|j: int|
                        0 <= j < q ==> out.deep_view()[j] == commit_version(
                            cm[j],
                            tx_id,
                            cts,
                            pending,
                        ),
                decreases m - q,
            {
                let v = &chain[q];
                let nv: Version = if v.tx_id == tx_id && !v.committed {
                    Version {
                        tx_id: v.tx_id,
                        begin_ts: v.begin_ts,
                        end_ts: v.end_ts,
                        committed: true,
                        commit_ts: Some(cts),
                        data: v.data.deep_clone(),
                    }
                } else if pending && v.committed && matches!(v.end_ts, None) && v.tx_id != tx_id {
                    Version {
                        tx_id: v.tx_id,
                        begin_ts: v.begin_ts,
                        end_ts: Some(cts),
                        committed: v.committed,
                        commit_ts: v.commit_ts,
                        data: v.data.deep_clone(),
                    }
                } else {
                    v.deep_clone()
                };
                proof {
                    assert(nv.deep_view() == commit_version(cm[q as int], tx_id, cts, pending));
                }
                let ghost prev = out.deep_view();
                out.push(nv);
                proof {
                    assert(out.deep_view() =~= prev.push(
                        commit_version(cm[q as int], tx_id, cts, pending),
                    ));
                }
                q = q + 1;
            }
            proof {
                assert(out.deep_view() =~= chain_commit(cm, tx_id, cts));
            }
            self.versions.upsert(keys[i2].clone(), out);
            proof {
                assert(self.versions_map() == mid.remove(t).insert(
                    t,
                    chain_commit(cm, tx_id, cts),
                ));
                assert(self.versions_map().dom() =~= pre.versions_map().dom());
                assert forall|k: Seq<char>|
                    (pre.versions_map().contains_key(k) && !(exists|j: int|
                        0 <= j < i2 + 1 && keys@[j]@ == k)) implies #[trigger]
                self.versions_map()[k] == pre.versions_map()[k] by {
                    assert(k != t);
                    assert(!(exists|j: int| 0 <= j < i2 && keys@[j]@ == k));
                }
                assert forall|k: Seq<char>|
                    (pre.versions_map().contains_key(k) && (exists|j: int|
                        0 <= j < i2 + 1 && keys@[j]@ == k)) implies #[trigger]
                self.versions_map()[k] == chain_commit(pre.versions_map()[k], tx_id, cts) by {
                    if k != t {
                        assert(exists|j: int| 0 <= j < i2 && keys@[j]@ == k);
                    }
                }
            }
            i2 = i2 + 1;
        }
        proof {
            assert forall|k: Seq<char>| #[trigger]
                pre.versions_map().contains_key(k) implies self.versions_map()[k] == chain_commit(
                pre.versions_map()[k],
                tx_id,
                cts,
            ) by {}
            assert forall|k: Seq<char>, i3: int|
                #![trigger self.versions_map()[k][i3]]
                self.versions_map().contains_key(k) && 0 <= i3 < self.versions_map()[k].len()
                    implies version_wf(
                self.versions_map()[k][i3],
                self.active_map(),
                self.counter(),
            ) by {
                assert(pre.versions_map().contains_key(k));
                let cm = pre.versions_map()[k];
                assert(self.versions_map()[k] == chain_commit(cm, tx_id, cts));
                assert(self.versions_map()[k][i3] == commit_version(
                    cm[i3],
                    tx_id,
                    cts,
                    chain_has_pending(cm, tx_id),
                ));
                assert(version_wf(cm[i3], pre.active_map(), pre.counter()));
            }
        }
        Ok(())
    }

    /// Rolls `tx` back: its uncommitted versions leave every chain, its
    /// read timestamp is forgotten, and the clock does not move.
    pub fn rollback(&mut self, tx_id: u64)
        requires
            old(self).wf(),
        ensures
            final(self).wf(),
            final(self).counter() == old(self).counter(),
            final(self).active_map() == old(self).active_map().remove(tx_id),
            final(self).versions_map().dom() == old(self).versions_map().dom(),
            forall|k: Seq<char>| #[trigger]
                old(self).versions_map().contains_key(k) ==> final(self).versions_map()[k]
                    == chain_rollback(old(self).versions_map()[k], tx_id),
    {
        let ghost pre = *self;
        self.active.remove(tx_id);
        let keys = self.versions.keys_vec();
        let nk = keys.len();
        let mut i: usize = 0;
        while i < nk
            invariant
                nk == keys@.len(),
                i <= nk,
                self.counter() == pre.counter(),
                self.active@ == pre.active_map().remove(tx_id),
                forall|a: int, b: int| 0 <= a < b < keys@.len() ==> keys@[a]@ != keys@[b]@,
                forall|j: int| 0 <= j < keys@.len() ==> pre.versions_map().contains_key(
                    #[trigger] keys@[j]@,
                ),
                forall|k: Seq<char>| pre.versions_map().contains_key(k) ==> exists|j: int|
                    0 <= j < keys@.len() && keys@[j]@ == k,
                self.versions_map().dom() == pre.versions_map().dom(),
                forall|k: Seq<char>|
                    (pre.versions_map().contains_key(k) && !(exists|j: int|
                        0 <= j < i && keys@[j]@ == k)) ==> #[trigger] self.versions_map()[k]
                        == pre.versions_map()[k],
                forall|k: Seq<char>|
                    (pre.versions_map().contains_key(k) && (exists|j: int|
                        0 <= j < i && keys@[j]@ == k)) ==> #[trigger] self.versions_map()[k]
                        == chain_rollback(pre.versions_map()[k], tx_id),
            decreases nk - i,
        {
            let ghost t = keys@[i as int]@;
            let ghost mid = self.versions_map();
            proof {
                assert(pre.versions_map().contains_key(t));
                assert(!(exists|j: int| 0 <= j < i && keys@[j]@ == t));
                assert(self.versions_map().contains_key(t));
                assert(self.versions_map()[t] == pre.versions_map()[t]);
            }
            let chain: Vec<Version> = match self.versions.take(keys[i].as_str()) {
                Some(c) => c,
                None => {
                    proof {
                        assert(false);
                    }
                    continue ;
                },
            };
            let ghost cm = pre.versions_map()[t];
            proof {
                assert(chain.deep_view() == cm);
            }
            let m = chain.len();
            let mut out: Vec<Version> = Vec::new();
            let mut q: usize = 0;
            while q < m
                invariant
                    m == chain.len(),
                    q <= m,
                    chain.deep_view() == cm,
                    out.deep_view() == cm.take(q as int).filter(keep_on_rollback(tx_id)),
                decreases m - q,
            {
                proof {
                    reveal(Seq::filter);
                    assert(cm.take(q as int + 1).drop_last() =~= cm.take(q as int));
                    assert(cm.take(q as int + 1).last() == cm[q as int]);
                }
                let v = &chain[q];
                if !(v.tx_id == tx_id && !v.committed) {
                    out.push(v.deep_clone());
                    proof {
                        assert(out.deep_view() =~= cm.take(q as int).filter(
                            keep_on_rollback(tx_id),
                        ).push(cm[q as int]));
                    }
                }
                q = q + 1;
            }
            proof {
                assert(cm.take(m as int) =~= cm);
                assert(out.deep_view() == chain_rollback(cm, tx_id));
            }
            self.versions.upsert(keys[i].clone(), out);
            proof {
                assert(self.versions_map() == mid.remove(t).insert(t, chain_rollback(cm, tx_id)));
                assert(self.versions_map().dom() =~= pre.versions_map().dom());
                assert forall|k: Seq<char>|
                    (pre.versions_map().contains_key(k) && !(exists|j: int|
                        0 <= j < i + 1 && keys@[j]@ == k)) implies #[trigger]
                self.versions_map()[k] == pre.versions_map()[k] by {
                    assert(k != t);
                    assert(!(exists|j: int| 0 <= j < i && keys@[j]@ == k));
                }
                assert forall|k: Seq<char>|
                    (pre.versions_map().contains_key(k) && (exists|j: int|
                        0 <= j < i + 1 && keys@[j]@ == k)) implies #[trigger]
                self.versions_map()[k] == chain_rollback(pre.versions_map()[k], tx_id) by {
                    if k != t {
                        assert(exists|j: int| 0 <= j < i && keys@[j]@ == k);
                    }
                }
            }
            i = i + 1;
        }
        proof {
            assert forall|k: Seq<char>, i3: int|
                #![trigger self.versions_map()[k][i3]]
                self.versions_map().contains_key(k) && 0 <= i3 < self.versions_map()[k].len()
                    implies version_wf(
                self.versions_map()[k][i3],
                self.active_map(),
                self.counter(),
            ) by {
                assert(pre.versions_map().contains_key(k));
                let cm = pre.versions_map()[k];
                assert(self.versions_map()[k] == chain_rollback(cm, tx_id));
                let v = self.versions_map()[k][i3];
                lemma_filter_member(cm, keep_on_rollback(tx_id), i3);
                let j = choose|j: int| 0 <= j < cm.len() && cm[j] == v;
                assert(version_wf(cm[j], pre.active_map(), pre.counter()));
                assert(keep_on_rollback(tx_id)(v));
            }
        }
    }
}


/// A transaction's own uncommitted write never conflicts with itself: the
/// conflict check survives appending the transaction's own version.
pub proof fn lemma_push_own_no_conflict(chain: Seq<VersionM>, v: VersionM, tx: u64, active: Map<
    u64,
    u64,
>)
    requires
        !has_live_conflict(chain, tx, active),
        v.tx_id == tx,
    ensures
        !has_live_conflict(chain.push(v), tx, active),
{
    if has_live_conflict(chain.push(v), tx, active) {
        let i = choose|i: int|
            0 <= i < chain.push(v).len() && !chain.push(v)[i].committed && chain.push(v)[i].tx_id
                != tx && active.contains_key(chain.push(v)[i].tx_id);
        if i < chain.len() {
            assert(chain[i] == chain.push(v)[i]);
        } else {
            assert(chain.push(v)[i] == v);
        }
    }
}

/// Every element of a filtered sequence comes from the original and
/// satisfies the predicate.
pub proof fn lemma_filter_member(s: Seq<VersionM>, pred: spec_fn(VersionM) -> bool, i: int)
    requires
        0 <= i < s.filter(pred).len(),
    ensures
        pred(s.filter(pred)[i]),
        exists|j: int| 0 <= j < s.len() && s[j] == s.filter(pred)[i],
    decreases s.len(),
{
    reveal(Seq::filter);
    if s.len() > 0 {
        let sub = s.drop_last().filter(pred);
        if pred(s.last()) && i == s.filter(pred).len() - 1 {
            assert(s[s.len() - 1] == s.filter(pred)[i]);
        } else {
            lemma_filter_member(s.drop_last(), pred, i);
            assert(s.filter(pred)[i] == sub[i]);
            let j = choose|j: int| 0 <= j < s.drop_last().len() && s.drop_last()[j] == sub[i];
            assert(s[j] == sub[i]);
        }
    }
}

/// Distinct live transactions read at distinct timestamps.
pub proof fn lemma_read_ts_unique(m: MVCCManager, t1: u64, t2: u64)
    requires
        m.wf(),
        m.active_map().contains_key(t1),
        m.active_map().contains_key(t2),
        t1 != t2,
    ensures
        m.active_map()[t1] != m.active_map()[t2],
{
}

/// The chosen version of a read is a member of the chain and visible.
pub proof fn lemma_best_visible_member(chain: Seq<VersionM>, reader: u64, rts: u64)
    ensures
        match best_visible(chain, reader, rts) {
            Some(v) => (exists|i: int| 0 <= i < chain.len() && chain[i] == v) && visible(
                v,
                reader,
                rts,
            ),
            None => forall|i: int| 0 <= i < chain.len() ==> !visible(chain[i], reader, rts),
        },
    decreases chain.len(),
{
    if chain.len() > 0 {
        lemma_best_visible_member(chain.drop_last(), reader, rts);
        match best_visible(chain, reader, rts) {
            Some(v) => {
                if visible(chain.last(), reader, rts) && v == chain.last() {
                    assert(chain[chain.len() - 1] == v);
                } else {
                    let i = choose|i: int|
                        0 <= i < chain.drop_last().len() && chain.drop_last()[i] == v;
                    assert(chain[i] == v);
                }
            },
            None => {
                assert forall|i: int| 0 <= i < chain.len() implies !visible(
                    chain[i],
                    reader,
                    rts,
                ) by {
                    if i < chain.len() - 1 {
                        assert(chain.drop_last()[i] == chain[i]);
                    }
                }
            },
        }
    }
}

/// Appending a version that a reader cannot see leaves that reader's
/// choice unchanged.
pub proof fn lemma_push_invisible(chain: Seq<VersionM>, v: VersionM, reader: u64, rts: u64)
    requires
        !visible(v, reader, rts),
    ensures
        best_visible(chain.push(v), reader, rts) == best_visible(chain, reader, rts),
{
    assert(chain.push(v).drop_last() =~= chain);
    assert(chain.push(v).last() == v);
}

/// Dropping versions a reader cannot see leaves that reader's choice
/// unchanged; in particular a rollback of `tx` changes no other reader's
/// reads.
pub proof fn lemma_rollback_read_unchanged(chain: Seq<VersionM>, tx: u64, reader: u64, rts: u64)
    requires
        reader != tx,
    ensures
        best_visible(chain_rollback(chain, tx), reader, rts) == best_visible(chain, reader, rts),
    decreases chain.len(),
{
    reveal(Seq::filter);
    if chain.len() > 0 {
        lemma_rollback_read_unchanged(chain.drop_last(), tx, reader, rts);
        let v = chain.last();
        if keep_on_rollback(tx)(v) {
            assert(chain_rollback(chain, tx) == chain_rollback(chain.drop_last(), tx).push(v));
            assert(chain_rollback(chain.drop_last(), tx).push(v).drop_last()
                =~= chain_rollback(chain.drop_last(), tx));
        } else {
            assert(!v.committed && v.tx_id == tx);
            assert(!visible(v, reader, rts));
        }
    }
}

/// A rollback keeps every committed version.
pub proof fn lemma_rollback_keeps_committed(chain: Seq<VersionM>, tx: u64, i: int)
    requires
        0 <= i < chain.len(),
        chain[i].committed,
    ensures
        exists|j: int|
            0 <= j < chain_rollback(chain, tx).len() && chain_rollback(chain, tx)[j] == chain[i],
    decreases chain.len(),
{
    reveal(Seq::filter);
    if chain.len() > 0 {
        let sub = chain_rollback(chain.drop_last(), tx);
        if i == chain.len() - 1 {
            assert(keep_on_rollback(tx)(chain[i]));
            assert(chain_rollback(chain, tx) == sub.push(chain[i]));
            assert(chain_rollback(chain, tx)[sub.len() as int] == chain[i]);
        } else {
            assert(chain.drop_last()[i] == chain[i]);
            lemma_rollback_keeps_committed(chain.drop_last(), tx, i);
            let j = choose|j: int| 0 <= j < sub.len() && sub[j] == chain[i];
            if keep_on_rollback(tx)(chain.last()) {
                assert(chain_rollback(chain, tx) == sub.push(chain.last()));
                assert(chain_rollback(chain, tx)[j] == chain[i]);
            } else {
                assert(chain_rollback(chain, tx) == sub);
            }
        }
    }
}

/// After a rollback of `tx`, no version of `tx` remains in the chain,
/// provided `tx` had no committed version there (as holds for a live
/// transaction); no reader can then see data of `tx` on that key.
pub proof fn lemma_rollback_removes_tx(chain: Seq<VersionM>, tx: u64)
    requires
        forall|i: int| 0 <= i < chain.len() && chain[i].tx_id == tx ==> !chain[i].committed,
    ensures
        forall|j: int|
            0 <= j < chain_rollback(chain, tx).len() ==> chain_rollback(chain, tx)[j].tx_id != tx,
    decreases chain.len(),
{
    reveal(Seq::filter);
    if chain.len() > 0 {
        assert forall|i: int|
            0 <= i < chain.drop_last().len() && chain.drop_last()[i].tx_id == tx
                implies !chain.drop_last()[i].committed by {
            assert(chain[i] == chain.drop_last()[i]);
        }
        lemma_rollback_removes_tx(chain.drop_last(), tx);
        let sub = chain_rollback(chain.drop_last(), tx);
        if keep_on_rollback(tx)(chain.last()) {
            assert(chain_rollback(chain, tx) == sub.push(chain.last()));
        }
    }
}

} // verus!
