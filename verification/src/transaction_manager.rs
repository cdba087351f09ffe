//! The top-level coordinator: transaction lifecycle, lock acquisition with
//! deadlock detection, savepoints, MVCC-routed reads and writes, and the
//! write-ahead log.
//!
//! Locking discipline: writes (INSERT, UPDATE, DELETE, CREATE) take an
//! Exclusive table lock on the internal execution path; reads rely on MVCC
//! snapshots and take no locks.

use vstd::prelude::*;
use crate::ast::{SelectStatement, Statement, StatementM, UpdateStatement};
use crate::deadlock::{not_incident, on_cycle, DeadlockDetector, EdgeM};
use crate::deep::DeepClone;
use crate::error::{ErrM, ReefDBError};
use crate::executor;
use crate::fts::FtsIndex;
use crate::kv::IdMap;
use crate::executor::{JoinData, JoinDataM};
use crate::value::DataValue;
use crate::locks::{acquire_result, released_rec, spec_holders, LockManager, LockRecM, LockType};
use crate::mvcc::{
    best_visible, chain_commit, chain_of, chain_rollback, has_live_conflict, MVCCManager, VersionM,
};
use crate::reefdb::ReefDB;
use crate::result::{ColumnInfo, QueryResult, ReefDBResult, ResultM};
use crate::savepoint::{sp_pos, splist_create, splist_of, SavepointM, SavepointManager};
use crate::storage::{TableModel, TableStorage};
use crate::strutil::{int_str, spec_row_key, KeyFormat};
use crate::transaction::{IsolationLevel, Transaction, TransactionM, TransactionState};
use crate::value::Val;
use crate::wal::{wal_has_commit, WALEntry, WALEntryM, WALOperation, WriteAheadLog};

verus! {

/// The transaction manager: the published table state, the live
/// transactions, and the coordinated subsystems.
pub struct TransactionManager {
    active_transactions: IdMap<Transaction>,
    lock_manager: LockManager,
    wal: WriteAheadLog,
    tables: TableStorage,
    fts: FtsIndex,
    mvcc_manager: MVCCManager,
    deadlock_detector: DeadlockDetector,
    savepoint_manager: SavepointManager,
    next_tx_id: u64,
    clock: u64,
    wal_base: Ghost<int>,
    committed_ids: Ghost<Set<u64>>,
    rolled_back_ids: Ghost<Set<u64>>,
}

impl TransactionManager {
    /// The published (committed) table state.
    pub closed spec fn db(self) -> Map<Seq<char>, TableModel> {
        self.tables@
    }

    /// The live transactions.
    pub closed spec fn active(self) -> Map<u64, TransactionM> {
        self.active_transactions@
    }

    /// The MVCC state.
    pub closed spec fn mvcc(self) -> MVCCManager {
        self.mvcc_manager
    }

    /// The lock table.
    pub closed spec fn locks(self) -> Map<Seq<char>, LockRecM> {
        self.lock_manager@
    }

    /// The write-ahead log.
    pub closed spec fn wal_log(self) -> Seq<WALEntryM> {
        self.wal@
    }

    /// The wait-for graph.
    pub closed spec fn edges(self) -> Seq<EdgeM> {
        self.deadlock_detector@
    }

    /// The savepoints.
    pub closed spec fn savepoints(self) -> Map<u64, Seq<SavepointM>> {
        self.savepoint_manager@
    }

    /// The next transaction id to hand out.
    pub closed spec fn next_id(self) -> u64 {
        self.next_tx_id
    }

    /// The logical clock used for log timestamps.
    pub closed spec fn clock_time(self) -> u64 {
        self.clock
    }

    /// Where this manager's own log entries start.
    pub closed spec fn wal_base(self) -> int {
        self.wal_base@
    }

    /// The transactions this manager committed.
    pub closed spec fn committed(self) -> Set<u64> {
        self.committed_ids@
    }

    /// The transactions this manager rolled back.
    pub closed spec fn rolled_back(self) -> Set<u64> {
        self.rolled_back_ids@
    }

    /// Health of the whole manager: healthy subsystems; live transactions
    /// carry their own id, are `Active`, registered in MVCC, and younger
    /// than the id counter; every version writer and every own log entry
    /// is younger than the id counter; committed transactions have a
    /// `Commit` entry among the manager's own log entries, and live or
    /// rolled-back transactions have none.
    pub open spec fn wf(self) -> bool {
        &&& crate::locks::locks_wf(self.locks())
        &&& self.mvcc().wf()
        &&& 0 <= self.wal_base() <= self.wal_log().len()
        &&& forall|t: u64| #[trigger]
            self.active()[t].id == t || !self.active().contains_key(t)
        &&& forall|t: u64| #[trigger]
            self.active().contains_key(t) ==> self.active()[t].state == TransactionState::Active
                && t < self.next_id() && self.mvcc().active_map().contains_key(t)
        &&& forall|t: u64| #[trigger]
            self.mvcc().active_map().contains_key(t) ==> t < self.next_id()
        &&& forall|k: Seq<char>, i: int|
            #![trigger self.mvcc().versions_map()[k][i]]
            self.mvcc().versions_map().contains_key(k) && 0 <= i
                < self.mvcc().versions_map()[k].len() ==> self.mvcc().versions_map()[k][i].tx_id
                < self.next_id()
        &&& forall|i: int|
            self.wal_base() <= i < self.wal_log().len() ==> (#[trigger] self.wal_log()[i]).transaction_id
                < self.next_id()
        &&& forall|t: u64| #[trigger]
            self.committed().contains(t) ==> wal_has_commit(
                self.wal_log().skip(self.wal_base()),
                t,
            )
        &&& forall|t: u64| #[trigger]
            self.rolled_back().contains(t) ==> !wal_has_commit(
                self.wal_log().skip(self.wal_base()),
                t,
            )
        &&& forall|t: u64| #[trigger]
            self.active().contains_key(t) ==> !wal_has_commit(
                self.wal_log().skip(self.wal_base()),
                t,
            )
        &&& forall|t: u64| #[trigger]
            self.committed().contains(t) ==> !self.active().contains_key(t)
        &&& forall|t: u64| #[trigger]
            self.rolled_back().contains(t) ==> !self.active().contains_key(t)
        &&& forall|t: u64| #[trigger]
            self.committed().contains(t) ==> t < self.next_id()
        &&& forall|t: u64| #[trigger]
            self.rolled_back().contains(t) ==> t < self.next_id()
        &&& self.next_id() >= 1
    }

    /// Builds a manager over a database and a log.
    pub fn create(reef_db: ReefDB, wal: WriteAheadLog) -> (r: Self)
        ensures
            r.wf(),
            r.db() == reef_db.tables@,
            r.active() == Map::<u64, TransactionM>::empty(),
            r.locks() == Map::<Seq<char>, LockRecM>::empty(),
            r.wal_log() == wal@,
            r.wal_base() == wal@.len(),
            r.edges() == Seq::<EdgeM>::empty(),
            r.savepoints() == Map::<u64, Seq<SavepointM>>::empty(),
            r.mvcc().counter() == 0,
            r.mvcc().active_map() == Map::<u64, u64>::empty(),
            r.mvcc().versions_map() == Map::<Seq<char>, Seq<VersionM>>::empty(),
            r.committed() == Set::<u64>::empty(),
            r.rolled_back() == Set::<u64>::empty(),
    {
        let ghost base = wal@.len() as int;
        let r = TransactionManager {
            active_transactions: IdMap::new(),
            lock_manager: LockManager::new(),
            wal,
            tables: reef_db.tables,
            fts: reef_db.fts,
            mvcc_manager: MVCCManager::new(),
            deadlock_detector: DeadlockDetector::new(),
            savepoint_manager: SavepointManager::new(),
            next_tx_id: 1,
            clock: 0,
            wal_base: Ghost(base),
            committed_ids: Ghost(Set::empty()),
            rolled_back_ids: Ghost(Set::empty()),
        };
        proof {
            assert(r.wal@.skip(base) =~= Seq::<WALEntryM>::empty());
        }
        r
    }

    /// Begins a transaction at the given isolation level: a fresh id is
    /// handed out, the transaction starts from a copy of the published
    /// state, and MVCC assigns it a fresh read timestamp above every
    /// other live one.
    pub fn begin_transaction(&mut self, isolation_level: IsolationLevel) -> (r: Result<
        u64,
        ReefDBError,
    >)
        requires
            old(self).wf(),
        ensures
            final(self).wf(),
            final(self).db() == old(self).db(),
            final(self).locks() == old(self).locks(),
            final(self).wal_log() == old(self).wal_log(),
            final(self).wal_base() == old(self).wal_base(),
            final(self).edges() == old(self).edges(),
            final(self).savepoints() == old(self).savepoints(),
            final(self).committed() == old(self).committed(),
            final(self).rolled_back() == old(self).rolled_back(),
            final(self).mvcc().versions_map() == old(self).mvcc().versions_map(),
            r is Ok <==> (old(self).next_id() < u64::MAX && old(self).mvcc().counter()
                < u64::MAX),
            match r {
                Ok(id) => {
                    &&& id == old(self).next_id()
                    &&& final(self).next_id() == id + 1
                    &&& final(self).active() == old(self).active().insert(
                        id,
                        TransactionM {
                            id,
                            isolation_level,
                            state: TransactionState::Active,
                            tables: old(self).db(),
                            snapshot: old(self).db(),
                        },
                    )
                    &&& final(self).mvcc().counter() == old(self).mvcc().counter() + 1
                    &&& final(self).mvcc().active_map() == old(self).mvcc().active_map().insert(
                        id,
                        final(self).mvcc().counter(),
                    )
                    &&& forall|t: u64| #[trigger]
                        old(self).mvcc().active_map().contains_key(t) ==> old(self).mvcc().active_map()[t] < final(self).mvcc().active_map()[id]
                },
                Err(_) => {
                    &&& final(self).active() == old(self).active()
                    &&& final(self).mvcc().counter() == old(self).mvcc().counter()
                    &&& final(self).mvcc().active_map() == old(self).mvcc().active_map()
                    &&& final(self).next_id() == old(self).next_id()
                },
            },
    {
        if self.next_tx_id == u64::MAX {
            return Err(ReefDBError::Other("transaction id space exhausted".to_owned()));
        }
        let id = self.next_tx_id;
        proof {
            assert(old(self).mvcc().tx_unused(id));
        }
        match self.mvcc_manager.begin_transaction(id) {
            Ok(_) => {},
            Err(e) => {
                proof {
                    lemma_wf_frame(*old(self), *self);
                }
                return Err(e);
            },
        }
        self.next_tx_id = id + 1;
        let working = self.tables.deep_clone();
        let tx = Transaction::create(id, isolation_level, working);
        self.active_transactions.upsert(id, tx);
        proof {
            let a = *old(self);
            let b = *self;
            assert(b.locks() == a.locks());
            assert(b.wal_log() == a.wal_log() && b.wal_base() == a.wal_base());
            assert(b.committed() == a.committed() && b.rolled_back() == a.rolled_back());
            assert(self.lock_manager.wf()) by {
                lemma_lock_wf_view(a.lock_manager, b.lock_manager);
            }
            assert(b.active() == a.active().insert(
                id,
                TransactionM {
                    id,
                    isolation_level,
                    state: TransactionState::Active,
                    tables: a.db(),
                    snapshot: a.db(),
                },
            ));
            lemma_no_commit_beyond(a.wal@, a.wal_base@, id, a.next_tx_id);
            assert forall|t: u64| #[trigger]
                b.active().contains_key(t) implies b.active()[t].state
                == TransactionState::Active && t < b.next_id()
                && b.mvcc().active_map().contains_key(t) by {
                if t != id {
                    assert(a.active().contains_key(t));
                }
            }
            assert forall|t: u64| #[trigger] b.active()[t].id == t || !b.active().contains_key(
                t,
            ) by {
                if b.active().contains_key(t) && t != id {
                    assert(a.active().contains_key(t));
                }
            }
            assert forall|t: u64| #[trigger]
                b.mvcc().active_map().contains_key(t) implies t < b.next_id() by {
                if t != id {
                    assert(a.mvcc().active_map().contains_key(t));
                }
            }
            assert forall|t: u64| #[trigger]
                b.active().contains_key(t) implies !wal_has_commit(
                b.wal@.skip(b.wal_base@),
                t,
            ) by {
                if t != id {
                    assert(a.active().contains_key(t));
                }
            }
            assert forall|t: u64| #[trigger]
                b.committed().contains(t) implies !b.active().contains_key(t) && t
                < b.next_tx_id by {
                assert(a.committed().contains(t));
            }
            assert forall|t: u64| #[trigger]
                b.rolled_back().contains(t) implies !b.active().contains_key(t) && t
                < b.next_tx_id by {
                assert(a.rolled_back().contains(t));
            }
            assert(b.wf());
        }
        Ok(id)
    }

    /// Commits a transaction: MVCC validates first-committer-wins and
    /// finalizes the versions, a `Commit` entry is logged, the working
    /// copy becomes the published database state, and every lock, wait
    /// edge, and savepoint of the transaction is released. On an MVCC
    /// failure the transaction is rolled back instead and the failure
    /// surfaces.
    pub fn commit_transaction(&mut self, id: u64) -> (r: Result<(), ReefDBError>)
        requires
            old(self).wf(),
        ensures
            final(self).wf(),
            final(self).wal_base() == old(self).wal_base(),
            final(self).next_id() == old(self).next_id(),
            (old(self).active().contains_key(id) && !old(self).mvcc().commit_conflict(id) && old(
                self,
            ).mvcc().counter() < u64::MAX) ==> r is Ok,
            match r {
                Ok(_) => {
                    &&& old(self).active().contains_key(id)
                    &&& !old(self).mvcc().commit_conflict(id)
                    &&& final(self).db() == old(self).active()[id].tables
                    &&& final(self).active() == old(self).active().remove(id)
                    &&& final(self).mvcc().counter() == old(self).mvcc().counter() + 1
                    &&& final(self).mvcc().active_map() == old(self).mvcc().active_map().remove(id)
                    &&& final(self).mvcc().versions_map().dom() == old(self).mvcc().versions_map().dom()
                    &&& forall|k: Seq<char>| #[trigger]
                        old(self).mvcc().versions_map().contains_key(k) ==> final(self).mvcc().versions_map()[k] == chain_commit(
                            old(self).mvcc().versions_map()[k],
                            id,
                            final(self).mvcc().counter(),
                        )
                    &&& final(self).wal_log() == old(self).wal_log().push(
                        WALEntryM {
                            transaction_id: id,
                            timestamp: final(self).clock_time(),
                            operation: WALOperation::Commit,
                            table_name: Seq::empty(),
                            data: Seq::empty(),
                        },
                    )
                    &&& wal_has_commit(final(self).wal_log().skip(final(self).wal_base()), id)
                    &&& forall|t: Seq<char>| #[trigger]
                        final(self).locks().contains_key(t) <==> (old(self).locks().contains_key(t)
                            && released_rec(old(self).locks()[t], id).holders.len() > 0)
                    &&& forall|t: Seq<char>| #[trigger]
                        final(self).locks().contains_key(t) ==> final(self).locks()[t]
                            == released_rec(old(self).locks()[t], id)
                    &&& final(self).edges() == old(self).edges().filter(not_incident(id))
                    &&& final(self).savepoints() == old(self).savepoints().remove(id)
                    &&& final(self).committed() == old(self).committed().insert(id)
                    &&& final(self).rolled_back() == old(self).rolled_back()
                },
                Err(e) => {
                    if !old(self).active().contains_key(id) {
                        &&& e.deep_view() == ErrM::TransactionNotFound(id)
                        &&& final(self).db() == old(self).db()
                        &&& final(self).active() == old(self).active()
                        &&& final(self).wal_log() == old(self).wal_log()
                        &&& final(self).committed() == old(self).committed()
                        &&& final(self).rolled_back() == old(self).rolled_back()
                        &&& final(self).mvcc() == old(self).mvcc()
                        &&& final(self).locks() == old(self).locks()
                        &&& final(self).edges() == old(self).edges()
                        &&& final(self).savepoints() == old(self).savepoints()
                    } else {
                        // the MVCC commit failed; the transaction was rolled back
                        &&& final(self).db() == old(self).db()
                        &&& final(self).active() == old(self).active().remove(id)
                        &&& final(self).mvcc().active_map() == old(self).mvcc().active_map().remove(id)
                        &&& final(self).mvcc().versions_map().dom() == old(self).mvcc().versions_map().dom()
                        &&& forall|k: Seq<char>| #[trigger]
                            old(self).mvcc().versions_map().contains_key(k) ==> final(self).mvcc().versions_map()[k] == chain_rollback(
                                old(self).mvcc().versions_map()[k],
                                id,
                            )
                        &&& final(self).wal_log() == old(self).wal_log().push(
                            WALEntryM {
                                transaction_id: id,
                                timestamp: final(self).clock_time(),
                                operation: WALOperation::Rollback,
                                table_name: Seq::empty(),
                                data: Seq::empty(),
                            },
                        )
                        &&& !wal_has_commit(final(self).wal_log().skip(final(self).wal_base()), id)
                        &&& final(self).committed() == old(self).committed()
                        &&& final(self).rolled_back() == old(self).rolled_back().insert(id)
                        &&& (e.deep_view() == ErrM::SerializationFailure && old(self).mvcc().commit_conflict(id) || e.deep_view() matches ErrM::Other(_))
                    }
                },
            },
    {
        if !self.active_transactions.contains(id) {
            return Err(ReefDBError::TransactionNotFound(id));
        }
        match self.mvcc_manager.commit(id) {
            Ok(_) => {},
            Err(e) => {
                // first-committer-wins lost (or the clock is exhausted):
                // roll the transaction back and surface the failure
                proof {
                    lemma_wf_frame(*old(self), *self);
                }
                let _ = self.rollback_internal(id);
                return Err(e);
            },
        }
        // log the commit, publish the working copy, release everything
        let tx = match self.active_transactions.take(id) {
            Some(t) => t,
            None => {
                proof {
                    assert(false);
                }
                return Err(ReefDBError::TransactionNotFound(id));
            },
        };
        self.clock = if self.clock == u64::MAX {
            self.clock
        } else {
            self.clock + 1
        };
        let entry = WALEntry {
            transaction_id: id,
            timestamp: self.clock,
            operation: WALOperation::Commit,
            table_name: String::new(),
            data: Vec::new(),
        };
        let ghost em = entry.deep_view();
        let _ = self.wal.append_entry(entry);
        proof {
            assert(em.data =~= Seq::<u8>::empty());
            assert(self.wal@.skip(self.wal_base@)[self.wal@.len() - 1 - self.wal_base@] == em);
            assert(wal_has_commit(self.wal@.skip(self.wal_base@), id));
        }
        self.tables = tx.tables;
        self.lock_manager.release_transaction_locks(id);
        self.deadlock_detector.remove_transaction(id);
        self.savepoint_manager.clear_transaction_savepoints(id);
        proof {
            self.committed_ids@ = old(self).committed_ids@.insert(id);
        }
        proof {
            assert forall|t: u64| #[trigger]
                self.committed_ids@.contains(t) implies wal_has_commit(
                self.wal@.skip(self.wal_base@),
                t,
            ) by {
                if t != id {
                    assert(old(self).committed().contains(t));
                    lemma_wal_push_keeps(old(self).wal@, old(self).wal_base@, em, t);
                } else {
                    assert(self.wal@.skip(self.wal_base@)[self.wal@.len() - 1 - self.wal_base@]
                        == em);
                }
            }
            assert forall|t: u64| #[trigger]
                self.rolled_back_ids@.contains(t) implies !wal_has_commit(
                self.wal@.skip(self.wal_base@),
                t,
            ) by {
                assert(old(self).rolled_back().contains(t));
                assert(t != id) by {
                    assert(old(self).active().contains_key(id));
                }
                lemma_wal_push_other(old(self).wal@, old(self).wal_base@, em, t);
            }
            assert forall|t: u64| #[trigger]
                self.active_transactions@.contains_key(t) implies !wal_has_commit(
                self.wal@.skip(self.wal_base@),
                t,
            ) by {
                assert(old(self).active().contains_key(t));
                assert(t != id);
                lemma_wal_push_other(old(self).wal@, old(self).wal_base@, em, t);
            }
            let a = *old(self);
            let b = *self;
            assert(a.active().contains_key(id));
            assert(id < a.next_tx_id);
            assert forall|t: u64| #[trigger]
                b.active().contains_key(t) implies b.active()[t].state
                == TransactionState::Active && t < b.next_tx_id
                && b.mvcc().active_map().contains_key(t) by {
                assert(a.active().contains_key(t));
            }
            assert forall|t: u64| #[trigger] b.active()[t].id == t || !b.active().contains_key(
                t,
            ) by {
                if b.active().contains_key(t) {
                    assert(a.active().contains_key(t));
                }
            }
            assert forall|t: u64| #[trigger]
                b.mvcc().active_map().contains_key(t) implies t < b.next_tx_id by {
                assert(a.mvcc().active_map().contains_key(t));
            }
            assert forall|i: int|
                b.wal_base@ <= i < b.wal@.len() implies (#[trigger] b.wal@[i]).transaction_id
                < b.next_tx_id by {
                if i < a.wal@.len() {
                    assert(a.wal@[i] == b.wal@[i]);
                } else {
                    assert(b.wal@[i] == em);
                }
            }
            assert forall|t: u64| #[trigger]
                b.committed().contains(t) implies t < b.next_tx_id && !b.active().contains_key(
                t,
            ) by {
                if t != id {
                    assert(a.committed().contains(t));
                }
            }
            assert forall|t: u64| #[trigger]
                b.rolled_back().contains(t) implies t < b.next_tx_id && !b.active().contains_key(
                t,
            ) by {
                assert(a.rolled_back().contains(t));
            }
            lemma_chain_ids_commit(old(self).mvcc(), self.mvcc_manager, id, old(self).next_tx_id);
            assert(self.wf());
        }
        Ok(())
    }

    /// Rolls a transaction back: its working copy is discarded, its MVCC
    /// versions leave, its locks, wait edges, and savepoints are released,
    /// and a `Rollback` entry is logged. The published state is untouched.
    pub fn rollback_transaction(&mut self, id: u64) -> (r: Result<(), ReefDBError>)
        requires
            old(self).wf(),
        ensures
            final(self).wf(),
            final(self).db() == old(self).db(),
            final(self).wal_base() == old(self).wal_base(),
            final(self).next_id() == old(self).next_id(),
            final(self).committed() == old(self).committed(),
            match r {
                Ok(_) => {
                    &&& old(self).active().contains_key(id)
                    &&& final(self).active() == old(self).active().remove(id)
                    &&& final(self).mvcc().counter() == old(self).mvcc().counter()
                    &&& final(self).mvcc().active_map() == old(self).mvcc().active_map().remove(id)
                    &&& final(self).mvcc().versions_map().dom() == old(self).mvcc().versions_map().dom()
                    &&& forall|k: Seq<char>| #[trigger]
                        old(self).mvcc().versions_map().contains_key(k) ==> final(self).mvcc().versions_map()[k] == chain_rollback(
                            old(self).mvcc().versions_map()[k],
                            id,
                        )
                    &&& final(self).wal_log() == old(self).wal_log().push(
                        WALEntryM {
                            transaction_id: id,
                            timestamp: final(self).clock_time(),
                            operation: WALOperation::Rollback,
                            table_name: Seq::empty(),
                            data: Seq::empty(),
                        },
                    )
                    &&& !wal_has_commit(final(self).wal_log().skip(final(self).wal_base()), id)
                    &&& forall|t: Seq<char>| #[trigger]
                        final(self).locks().contains_key(t) <==> (old(self).locks().contains_key(t)
                            && released_rec(old(self).locks()[t], id).holders.len() > 0)
                    &&& forall|t: Seq<char>| #[trigger]
                        final(self).locks().contains_key(t) ==> final(self).locks()[t]
                            == released_rec(old(self).locks()[t], id)
                    &&& final(self).edges() == old(self).edges().filter(not_incident(id))
                    &&& final(self).savepoints() == old(self).savepoints().remove(id)
                    &&& final(self).rolled_back() == old(self).rolled_back().insert(id)
                },
                Err(e) => {
                    &&& !old(self).active().contains_key(id)
                    &&& e.deep_view() == ErrM::TransactionNotFound(id)
                    &&& final(self).active() == old(self).active()
                    &&& final(self).mvcc() == old(self).mvcc()
                    &&& final(self).wal_log() == old(self).wal_log()
                    &&& final(self).locks() == old(self).locks()
                    &&& final(self).edges() == old(self).edges()
                    &&& final(self).savepoints() == old(self).savepoints()
                    &&& final(self).rolled_back() == old(self).rolled_back()
                },
            },
    {
        self.rollback_internal(id)
    }

    /// The shared rollback path.
    fn rollback_internal(&mut self, id: u64) -> (r: Result<(), ReefDBError>)
        requires
            old(self).wf(),
        ensures
            final(self).wf(),
            final(self).db() == old(self).db(),
            final(self).wal_base() == old(self).wal_base(),
            final(self).next_id() == old(self).next_id(),
            final(self).committed() == old(self).committed(),
            match r {
                Ok(_) => {
                    &&& old(self).active().contains_key(id)
                    &&& final(self).active() == old(self).active().remove(id)
                    &&& final(self).mvcc().counter() == old(self).mvcc().counter()
                    &&& final(self).mvcc().active_map() == old(self).mvcc().active_map().remove(id)
                    &&& final(self).mvcc().versions_map().dom() == old(self).mvcc().versions_map().dom()
                    &&& forall|k: Seq<char>| #[trigger]
                        old(self).mvcc().versions_map().contains_key(k) ==> final(self).mvcc().versions_map()[k] == chain_rollback(
                            old(self).mvcc().versions_map()[k],
                            id,
                        )
                    &&& final(self).wal_log() == old(self).wal_log().push(
                        WALEntryM {
                            transaction_id: id,
                            timestamp: final(self).clock_time(),
                            operation: WALOperation::Rollback,
                            table_name: Seq::empty(),
                            data: Seq::empty(),
                        },
                    )
                    &&& !wal_has_commit(final(self).wal_log().skip(final(self).wal_base()), id)
                    &&& forall|t: Seq<char>| #[trigger]
                        final(self).locks().contains_key(t) <==> (old(self).locks().contains_key(t)
                            && released_rec(old(self).locks()[t], id).holders.len() > 0)
                    &&& forall|t: Seq<char>| #[trigger]
                        final(self).locks().contains_key(t) ==> final(self).locks()[t]
                            == released_rec(old(self).locks()[t], id)
                    &&& final(self).edges() == old(self).edges().filter(not_incident(id))
                    &&& final(self).savepoints() == old(self).savepoints().remove(id)
                    &&& final(self).rolled_back() == old(self).rolled_back().insert(id)
                },
                Err(e) => {
                    &&& !old(self).active().contains_key(id)
                    &&& e.deep_view() == ErrM::TransactionNotFound(id)
                    &&& final(self).active() == old(self).active()
                    &&& final(self).mvcc() == old(self).mvcc()
                    &&& final(self).wal_log() == old(self).wal_log()
                    &&& final(self).locks() == old(self).locks()
                    &&& final(self).edges() == old(self).edges()
                    &&& final(self).savepoints() == old(self).savepoints()
                    &&& final(self).rolled_back() == old(self).rolled_back()
                },
            },
    {
        let tx = match self.active_transactions.take(id) {
            Some(t) => t,
            None => {
                proof {
                    lemma_wf_frame(*old(self), *self);
                }
                return Err(ReefDBError::TransactionNotFound(id));
            },
        };
        self.mvcc_manager.rollback(id);
        self.lock_manager.release_transaction_locks(id);
        self.deadlock_detector.remove_transaction(id);
        self.savepoint_manager.clear_transaction_savepoints(id);
        self.clock = if self.clock == u64::MAX {
            self.clock
        } else {
            self.clock + 1
        };
        let entry = WALEntry {
            transaction_id: id,
            timestamp: self.clock,
            operation: WALOperation::Rollback,
            table_name: String::new(),
            data: Vec::new(),
        };
        let ghost em = entry.deep_view();
        let _ = self.wal.append_entry(entry);
        proof {
            assert(em.data =~= Seq::<u8>::empty());
            self.rolled_back_ids@ = old(self).rolled_back_ids@.insert(id);
        }
        proof {
            assert forall|t: u64| #[trigger]
                self.committed_ids@.contains(t) implies wal_has_commit(
                self.wal@.skip(self.wal_base@),
                t,
            ) by {
                assert(old(self).committed().contains(t));
                lemma_wal_push_keeps(old(self).wal@, old(self).wal_base@, em, t);
            }
            assert forall|t: u64| #[trigger]
                self.rolled_back_ids@.contains(t) implies !wal_has_commit(
                self.wal@.skip(self.wal_base@),
                t,
            ) by {
                if t == id {
                    assert(!wal_has_commit(old(self).wal@.skip(old(self).wal_base@), id)) by {
                        assert(old(self).active().contains_key(id));
                    }
                    lemma_wal_push_not_commit(old(self).wal@, old(self).wal_base@, em, t);
                } else {
                    assert(old(self).rolled_back().contains(t));
                    lemma_wal_push_other(old(self).wal@, old(self).wal_base@, em, t);
                }
            }
            assert forall|t: u64| #[trigger]
                self.active_transactions@.contains_key(t) implies !wal_has_commit(
                self.wal@.skip(self.wal_base@),
                t,
            ) by {
                assert(old(self).active().contains_key(t));
                lemma_wal_push_other(old(self).wal@, old(self).wal_base@, em, t);
            }
            assert(!wal_has_commit(self.wal@.skip(self.wal_base@), id)) by {
                assert(!wal_has_commit(old(self).wal@.skip(old(self).wal_base@), id)) by {
                    assert(old(self).active().contains_key(id));
                }
                lemma_wal_push_not_commit(old(self).wal@, old(self).wal_base@, em, id);
            }
            let a = *old(self);
            let b = *self;
            assert(a.active().contains_key(id));
            assert(id < a.next_tx_id);
            assert forall|t: u64| #[trigger]
                b.active().contains_key(t) implies b.active()[t].state
                == TransactionState::Active && t < b.next_tx_id
                && b.mvcc().active_map().contains_key(t) by {
                assert(a.active().contains_key(t));
            }
            assert forall|t: u64| #[trigger] b.active()[t].id == t || !b.active().contains_key(
                t,
            ) by {
                if b.active().contains_key(t) {
                    assert(a.active().contains_key(t));
                }
            }
            assert forall|t: u64| #[trigger]
                b.mvcc().active_map().contains_key(t) implies t < b.next_tx_id by {
                assert(a.mvcc().active_map().contains_key(t));
            }
            assert forall|i: int|
                b.wal_base@ <= i < b.wal@.len() implies (#[trigger] b.wal@[i]).transaction_id
                < b.next_tx_id by {
                if i < a.wal@.len() {
                    assert(a.wal@[i] == b.wal@[i]);
                } else {
                    assert(b.wal@[i] == em);
                }
            }
            assert forall|t: u64| #[trigger]
                b.committed().contains(t) implies t < b.next_tx_id && !b.active().contains_key(
                t,
            ) by {
                assert(a.committed().contains(t));
            }
            assert forall|t: u64| #[trigger]
                b.rolled_back().contains(t) implies t < b.next_tx_id && !b.active().contains_key(
                t,
            ) by {
                if t != id {
                    assert(a.rolled_back().contains(t));
                }
            }
            lemma_chain_ids_rollback(old(self).mvcc(), self.mvcc_manager, id, old(self).next_tx_id);
            assert(self.wf());
        }
        Ok(())
    }
}



/// Lock-manager health depends only on its view.
proof fn lemma_lock_wf_view(a: LockManager, b: LockManager)
    requires
        a.wf(),
        b@ == a@,
    ensures
        b.wf(),
{
    assert forall|t: Seq<char>| #[trigger] b@.contains_key(t) implies crate::locks::rec_wf(
        b@[t],
    ) by {
        assert(a@.contains_key(t));
    }
}

/// MVCC health depends only on its components.
proof fn lemma_mvcc_wf_view(a: MVCCManager, b: MVCCManager)
    requires
        a.wf(),
        b.counter() == a.counter(),
        b.active_map() == a.active_map(),
        b.versions_map() == a.versions_map(),
    ensures
        b.wf(),
{
    assert forall|t: u64| #[trigger]
        b.active_map().contains_key(t) implies 1 <= b.active_map()[t] <= b.counter() by {
        assert(a.active_map().contains_key(t));
    }
    assert forall|k: Seq<char>, i: int|
        #![trigger b.versions_map()[k][i]]
        b.versions_map().contains_key(k) && 0 <= i
            < b.versions_map()[k].len() implies crate::mvcc::version_wf(
        b.versions_map()[k][i],
        b.active_map(),
        b.counter(),
    ) by {
        assert(a.versions_map().contains_key(k));
        assert(a.versions_map()[k][i] == b.versions_map()[k][i]);
    }
}

/// Manager health depends only on the observable components.
proof fn lemma_wf_frame_locks(a: TransactionManager, b: TransactionManager)
    requires
        a.wf(),
        b.lock_manager.wf(),
        b.mvcc().counter() == a.mvcc().counter(),
        b.mvcc().active_map() == a.mvcc().active_map(),
        b.mvcc().versions_map() == a.mvcc().versions_map(),
        b.active() == a.active(),
        b.wal_log() == a.wal_log(),
        b.wal_base() == a.wal_base(),
        b.committed() == a.committed(),
        b.rolled_back() == a.rolled_back(),
        b.next_id() == a.next_id(),
    ensures
        b.wf(),
{
    lemma_mvcc_wf_view(a.mvcc_manager, b.mvcc_manager);
    assert forall|t: u64| #[trigger]
        b.active().contains_key(t) implies b.active()[t].state == TransactionState::Active && t
        < b.next_tx_id && b.mvcc().active_map().contains_key(t) && !wal_has_commit(
        b.wal@.skip(b.wal_base@),
        t,
    ) by {
        assert(a.active().contains_key(t));
    }
    assert forall|t: u64| #[trigger] b.active()[t].id == t || !b.active().contains_key(t) by {
        if b.active().contains_key(t) {
            assert(a.active().contains_key(t));
        }
    }
    assert forall|t: u64| #[trigger]
        b.mvcc().active_map().contains_key(t) implies t < b.next_tx_id by {
        assert(a.mvcc().active_map().contains_key(t));
    }
    assert forall|k: Seq<char>, i: int|
        #![trigger b.mvcc().versions_map()[k][i]]
        b.mvcc().versions_map().contains_key(k) && 0 <= i
            < b.mvcc().versions_map()[k].len() implies b.mvcc().versions_map()[k][i].tx_id
        < b.next_tx_id by {
        assert(a.mvcc().versions_map().contains_key(k));
        assert(a.mvcc().versions_map()[k][i] == b.mvcc().versions_map()[k][i]);
    }
    assert forall|t: u64| #[trigger] b.committed().contains(t) implies wal_has_commit(
        b.wal@.skip(b.wal_base@),
        t,
    ) && t < b.next_tx_id && !b.active().contains_key(t) by {
        assert(a.committed().contains(t));
    }
    assert forall|t: u64| #[trigger] b.rolled_back().contains(t) implies !wal_has_commit(
        b.wal@.skip(b.wal_base@),
        t,
    ) && t < b.next_tx_id && !b.active().contains_key(t) by {
        assert(a.rolled_back().contains(t));
    }
}

/// Manager health under unchanged locks.
proof fn lemma_wf_frame(a: TransactionManager, b: TransactionManager)
    requires
        a.wf(),
        b.locks() == a.locks(),
        b.mvcc().counter() == a.mvcc().counter(),
        b.mvcc().active_map() == a.mvcc().active_map(),
        b.mvcc().versions_map() == a.mvcc().versions_map(),
        b.active() == a.active(),
        b.wal_log() == a.wal_log(),
        b.wal_base() == a.wal_base(),
        b.committed() == a.committed(),
        b.rolled_back() == a.rolled_back(),
        b.next_id() == a.next_id(),
    ensures
        b.wf(),
{
    lemma_lock_wf_view(a.lock_manager, b.lock_manager);
    lemma_wf_frame_locks(a, b);
}

/// A log whose own entries name only transactions below `bound` holds no
/// commit entry for `bound` or anything above it.
proof fn lemma_no_commit_beyond(log: Seq<WALEntryM>, base: int, t: u64, bound: u64)
    requires
        0 <= base <= log.len(),
        forall|i: int| base <= i < log.len() ==> (#[trigger] log[i]).transaction_id < bound,
        t >= bound,
    ensures
        !wal_has_commit(log.skip(base), t),
{
    if wal_has_commit(log.skip(base), t) {
        let i = choose|i: int|
            0 <= i < log.skip(base).len() && log.skip(base)[i].transaction_id == t && log.skip(
                base,
            )[i].operation == WALOperation::Commit;
        assert(log.skip(base)[i] == log[base + i]);
    }
}

/// A commit keeps every version's writer id.
proof fn lemma_chain_ids_commit(pre: MVCCManager, post: MVCCManager, tx: u64, bound: u64)
    requires
        post.versions_map().dom() == pre.versions_map().dom(),
        forall|k: Seq<char>| #[trigger]
            pre.versions_map().contains_key(k) ==> post.versions_map()[k] == chain_commit(
                pre.versions_map()[k],
                tx,
                post.counter(),
            ),
        forall|k: Seq<char>, i: int|
            #![trigger pre.versions_map()[k][i]]
            pre.versions_map().contains_key(k) && 0 <= i < pre.versions_map()[k].len()
                ==> pre.versions_map()[k][i].tx_id < bound,
    ensures
        forall|k: Seq<char>, i: int|
            #![trigger post.versions_map()[k][i]]
            post.versions_map().contains_key(k) && 0 <= i < post.versions_map()[k].len()
                ==> post.versions_map()[k][i].tx_id < bound,
{
    assert forall|k: Seq<char>, i: int|
        #![trigger post.versions_map()[k][i]]
        post.versions_map().contains_key(k) && 0 <= i
            < post.versions_map()[k].len() implies post.versions_map()[k][i].tx_id < bound by {
        assert(pre.versions_map().contains_key(k));
        let cm = pre.versions_map()[k];
        assert(post.versions_map()[k] == chain_commit(cm, tx, post.counter()));
        assert(post.versions_map()[k][i] == crate::mvcc::commit_version(
            cm[i],
            tx,
            post.counter(),
            crate::mvcc::chain_has_pending(cm, tx),
        ));
        assert(cm[i].tx_id < bound);
    }
}

/// A rollback keeps every surviving version's writer id.
proof fn lemma_chain_ids_rollback(pre: MVCCManager, post: MVCCManager, tx: u64, bound: u64)
    requires
        post.versions_map().dom() == pre.versions_map().dom(),
        forall|k: Seq<char>| #[trigger]
            pre.versions_map().contains_key(k) ==> post.versions_map()[k] == chain_rollback(
                pre.versions_map()[k],
                tx,
            ),
        forall|k: Seq<char>, i: int|
            #![trigger pre.versions_map()[k][i]]
            pre.versions_map().contains_key(k) && 0 <= i < pre.versions_map()[k].len()
                ==> pre.versions_map()[k][i].tx_id < bound,
    ensures
        forall|k: Seq<char>, i: int|
            #![trigger post.versions_map()[k][i]]
            post.versions_map().contains_key(k) && 0 <= i < post.versions_map()[k].len()
                ==> post.versions_map()[k][i].tx_id < bound,
{
    assert forall|k: Seq<char>, i: int|
        #![trigger post.versions_map()[k][i]]
        post.versions_map().contains_key(k) && 0 <= i
            < post.versions_map()[k].len() implies post.versions_map()[k][i].tx_id < bound by {
        assert(pre.versions_map().contains_key(k));
        let cm = pre.versions_map()[k];
        assert(post.versions_map()[k] == chain_rollback(cm, tx));
        crate::mvcc::lemma_filter_member(cm, crate::mvcc::keep_on_rollback(tx), i);
        let j = choose|j: int| 0 <= j < cm.len() && cm[j] == post.versions_map()[k][i];
        assert(cm[j].tx_id < bound);
    }
}

/// A commit entry stays visible after another entry is appended.
proof fn lemma_wal_push_keeps(log: Seq<WALEntryM>, base: int, e: WALEntryM, t: u64)
    requires
        0 <= base <= log.len(),
        wal_has_commit(log.skip(base), t),
    ensures
        wal_has_commit(log.push(e).skip(base), t),
{
    let i = choose|i: int|
        0 <= i < log.skip(base).len() && log.skip(base)[i].transaction_id == t && log.skip(
            base,
        )[i].operation == WALOperation::Commit;
    assert(log.push(e).skip(base)[i] == log.skip(base)[i]);
}

/// Appending an entry of another transaction creates no commit entry.
proof fn lemma_wal_push_other(log: Seq<WALEntryM>, base: int, e: WALEntryM, t: u64)
    requires
        0 <= base <= log.len(),
        !wal_has_commit(log.skip(base), t),
        e.transaction_id != t,
    ensures
        !wal_has_commit(log.push(e).skip(base), t),
{
    if wal_has_commit(log.push(e).skip(base), t) {
        let i = choose|i: int|
            0 <= i < log.push(e).skip(base).len() && log.push(e).skip(base)[i].transaction_id == t
                && log.push(e).skip(base)[i].operation == WALOperation::Commit;
        if i < log.skip(base).len() {
            assert(log.skip(base)[i] == log.push(e).skip(base)[i]);
        } else {
            assert(log.push(e).skip(base)[i] == e);
        }
    }
}

/// Appending a non-commit entry creates no commit entry.
proof fn lemma_wal_push_not_commit(log: Seq<WALEntryM>, base: int, e: WALEntryM, t: u64)
    requires
        0 <= base <= log.len(),
        !wal_has_commit(log.skip(base), t),
        e.operation != WALOperation::Commit,
    ensures
        !wal_has_commit(log.push(e).skip(base), t),
{
    if wal_has_commit(log.push(e).skip(base), t) {
        let i = choose|i: int|
            0 <= i < log.push(e).skip(base).len() && log.push(e).skip(base)[i].transaction_id == t
                && log.push(e).skip(base)[i].operation == WALOperation::Commit;
        if i < log.skip(base).len() {
            assert(log.skip(base)[i] == log.push(e).skip(base)[i]);
        } else {
            assert(log.push(e).skip(base)[i] == e);
        }
    }
}

/// Whether a request of `tx` for `t` must abort as a deadlock victim: the
/// request has to wait, and on the wait-for graph with its fresh edges
/// `tx` lies on a cycle as the youngest (highest id) transaction there.
pub open spec fn lock_victim(
    locks: Map<Seq<char>, LockRecM>,
    edges: Seq<EdgeM>,
    tx: u64,
    t: Seq<char>,
) -> bool {
    let needs_wait = spec_holders(locks, t).len() > 0 && !crate::locks::spec_has_lock(
        locks,
        tx,
        t,
    );
    let aug = edges + wait_edges(tx, spec_holders(locks, t), t);
    needs_wait && on_cycle(aug, tx) && (forall|n: u64| on_cycle(aug, n) ==> n <= tx)
}

/// The wait edges a lock request adds: one per current holder other than
/// the requester.
pub open spec fn wait_edges(tx: u64, holders: Seq<u64>, table: Seq<char>) -> Seq<EdgeM>
    decreases holders.len(),
{
    if holders.len() == 0 {
        Seq::empty()
    } else {
        wait_edges(tx, holders.drop_last(), table) + (if holders.last() != tx {
            seq![EdgeM { waiter: tx, holder: holders.last(), table }]
        } else {
            Seq::empty()
        })
    }
}

/// The MVCC row key of a row, when its first cell is an integer.
pub open spec fn overlay_key(table: Seq<char>, row: Seq<Val>) -> Option<Seq<char>> {
    if row.len() > 0 {
        match row[0] {
            Val::Int(n) => Some(spec_row_key(table, 0, int_str(n))),
            _ => None,
        }
    } else {
        None
    }
}

/// The timestamp a SELECT reads at: the current clock under ReadCommitted
/// (each statement sees the latest committed state), the transaction's own
/// read timestamp otherwise (repeatable reads).
pub open spec fn sel_rts(m: MVCCManager, tx: u64, iso: IsolationLevel) -> u64 {
    if iso == IsolationLevel::ReadCommitted {
        m.counter()
    } else {
        m.spec_rts(tx)
    }
}

/// One row overlaid with its visible MVCC version, when it has one.
pub open spec fn overlay_row(
    m: MVCCManager,
    reader: u64,
    rts: u64,
    table: Seq<char>,
    row: Seq<Val>,
) -> Seq<Val> {
    match overlay_key(table, row) {
        Some(key) => match best_visible(chain_of(m.versions_map(), key), reader, rts) {
            Some(v) => v.data,
            None => row,
        },
        None => row,
    }
}

/// The overlay as a function value.
pub open spec fn overlay_fn(m: MVCCManager, reader: u64, rts: u64, table: Seq<char>) -> spec_fn(
    Seq<Val>,
) -> Seq<Val> {
    |row: Seq<Val>| overlay_row(m, reader, rts, table, row)
}

/// Every row overlaid.
pub open spec fn overlay_rows(
    m: MVCCManager,
    reader: u64,
    rts: u64,
    table: Seq<char>,
    rows: Seq<Seq<Val>>,
) -> Seq<Seq<Val>> {
    rows.map_values(overlay_fn(m, reader, rts, table))
}

/// The join data a SELECT reads from the working tables.
pub open spec fn join_datum(tables: Map<Seq<char>, TableModel>, j: crate::ast::JoinM) -> JoinDataM {
    JoinDataM {
        on: j.on,
        name: j.table_ref.name,
        schema: tables[j.table_ref.name].schema,
        rows: tables[j.table_ref.name].rows,
    }
}

/// All join data, in declaration order.
pub open spec fn joins_data(
    tables: Map<Seq<char>, TableModel>,
    joins: Seq<crate::ast::JoinM>,
) -> Seq<JoinDataM> {
    joins.map_values(|j: crate::ast::JoinM| join_datum(tables, j))
}

/// The first joined table that does not exist, if any.
pub open spec fn first_missing(
    tables: Map<Seq<char>, TableModel>,
    joins: Seq<crate::ast::JoinM>,
) -> Option<Seq<char>>
    decreases joins.len(),
{
    if joins.len() == 0 {
        None
    } else if !tables.contains_key(joins[0].table_ref.name) {
        Some(joins[0].table_ref.name)
    } else {
        first_missing(tables, joins.skip(1))
    }
}

/// What a SELECT answers over working tables `tables` and MVCC state `m`:
/// the base rows overlaid, joined, filtered, stably sorted, and projected.
pub open spec fn spec_select(
    tables: Map<Seq<char>, TableModel>,
    m: MVCCManager,
    tx: u64,
    iso: IsolationLevel,
    sel: crate::ast::SelectM,
) -> Seq<(usize, Seq<Val>)> {
    let tname = sel.table.name;
    let t = tables[tname];
    let jds = joins_data(tables, sel.joins);
    let cs = executor::full_cs(tname, t.schema, jds);
    let orows = overlay_rows(m, tx, sel_rts(m, tx, iso), tname, t.rows);
    executor::project_results_spec(
        executor::spec_sort(
            sel.order_by,
            cs,
            executor::gather_rows(orows, tname, t.schema, jds, sel.where_clause, cs),
        ),
        sel.columns,
        cs,
        crate::result::any_star(sel.columns),
    )
}

/// One UPDATE assignment applied after another to a row.
pub open spec fn apply_updates(
    row: Seq<Val>,
    schema: Seq<crate::value::ColModel>,
    updates: Seq<(Seq<char>, Val)>,
) -> Seq<Val>
    decreases updates.len(),
{
    if updates.len() == 0 {
        row
    } else {
        let prev = apply_updates(row, schema, updates.drop_last());
        match crate::schema::col_pos(schema, updates.last().0) {
            Some(i) => if i < prev.len() {
                prev.update(i, updates.last().1)
            } else {
                prev
            },
            None => prev,
        }
    }
}

/// The (key, new row) pairs an UPDATE stages: one per matched row whose
/// primary key is an integer, in row order.
pub open spec fn upd_pairs(
    table: Seq<char>,
    schema: Seq<crate::value::ColModel>,
    rows: Seq<Seq<Val>>,
    updates: Seq<(Seq<char>, Val)>,
    w: Option<crate::ast::WhereM>,
) -> Seq<(Seq<char>, Seq<Val>)>
    decreases rows.len(),
{
    if rows.len() == 0 {
        Seq::empty()
    } else {
        upd_pairs(table, schema, rows.drop_last(), updates, w) + ({
            let row = rows.last();
            if row.len() > 0 && (row[0] is Int) && executor::keep_where(
                w,
                executor::qschema_of(table, schema),
            )(row) {
                seq![
                    (
                        spec_row_key(table, 0, int_str(row[0]->Int_0)),
                        apply_updates(row, schema, updates),
                    ),
                ]
            } else {
                Seq::empty()
            }
        })
    }
}

/// The version chains after the staged writes of `tx` at timestamp `rts`.
pub open spec fn apply_writes(
    m: Map<Seq<char>, Seq<VersionM>>,
    pairs: Seq<(Seq<char>, Seq<Val>)>,
    tx: u64,
    rts: u64,
) -> Map<Seq<char>, Seq<VersionM>>
    decreases pairs.len(),
{
    if pairs.len() == 0 {
        m
    } else {
        let prev = apply_writes(m, pairs.drop_last(), tx, rts);
        prev.insert(
            pairs.last().0,
            chain_of(prev, pairs.last().0).push(
                VersionM {
                    tx_id: tx,
                    begin_ts: rts,
                    end_ts: None,
                    committed: false,
                    commit_ts: None,
                    data: pairs.last().1,
                },
            ),
        )
    }
}

impl TransactionManager {
    /// Requests a table lock for a transaction. When other transactions
    /// hold the lock, wait-for edges to them are recorded and deadlock
    /// detection runs: a cycle on which the requester is the youngest
    /// aborts the request with `Deadlock`. Otherwise the lock manager
    /// answers, and in every case the requester's wait edges are removed
    /// again.
    pub fn acquire_lock(&mut self, transaction_id: u64, table_name: &str, lock_type: LockType) -> (r:
        Result<(), ReefDBError>)
        requires
            old(self).wf(),
        ensures
            final(self).wf(),
            final(self).db() == old(self).db(),
            final(self).active() == old(self).active(),
            final(self).mvcc() == old(self).mvcc(),
            final(self).wal_log() == old(self).wal_log(),
            final(self).wal_base() == old(self).wal_base(),
            final(self).savepoints() == old(self).savepoints(),
            final(self).committed() == old(self).committed(),
            final(self).rolled_back() == old(self).rolled_back(),
            final(self).next_id() == old(self).next_id(),
            final(self).edges() == old(self).edges().filter(not_incident(transaction_id)),
            ({
                let aug = old(self).edges() + wait_edges(
                    transaction_id,
                    spec_holders(old(self).locks(), table_name@),
                    table_name@,
                );
                if lock_victim(
                    old(self).locks(),
                    old(self).edges(),
                    transaction_id,
                    table_name@,
                ) {
                    r matches Err(e) && e.deep_view() == ErrM::Deadlock && final(self).locks()
                        == old(self).locks() && on_cycle(aug, transaction_id)
                } else {
                    match acquire_result(
                        old(self).locks(),
                        transaction_id,
                        table_name@,
                        lock_type,
                    ) {
                        Some(m2) => r is Ok && final(self).locks() == m2,
                        None => final(self).locks() == old(self).locks() && (r matches Err(e)
                            && e.deep_view() == ErrM::LockConflict(table_name@)),
                    }
                }
            }),
    {
        let holders = self.lock_manager.get_lock_holders(table_name);
        let ghost hm = holders@;
        let already = self.lock_manager.has_lock(transaction_id, table_name);
        if holders.len() > 0 && !already {
            // record the wait edges and look for a deadlock
            let nh = holders.len();
            let mut i: usize = 0;
            while i < nh
                invariant
                    nh == holders.len(),
                    holders@ == hm,
                    i <= nh,
                    self.deadlock_detector@ == old(self).edges() + wait_edges(
                        transaction_id,
                        hm.take(i as int),
                        table_name@,
                    ),
                    self.lock_manager == old(self).lock_manager,
                    self.active_transactions == old(self).active_transactions,
                    self.mvcc_manager == old(self).mvcc_manager,
                    self.wal == old(self).wal,
                    self.tables == old(self).tables,
                    self.savepoint_manager == old(self).savepoint_manager,
                    self.next_tx_id == old(self).next_tx_id,
                    self.clock == old(self).clock,
                    self.wal_base == old(self).wal_base,
                    self.committed_ids == old(self).committed_ids,
                    self.rolled_back_ids == old(self).rolled_back_ids,
                decreases nh - i,
            {
                proof {
                    assert(hm.take(i as int + 1).drop_last() =~= hm.take(i as int));
                    assert(hm.take(i as int + 1).last() == hm[i as int]);
                }
                if holders[i] != transaction_id {
                    let ghost pre = self.deadlock_detector@;
                    self.deadlock_detector.add_wait(
                        transaction_id,
                        holders[i],
                        table_name.to_owned(),
                    );
                    proof {
                        assert(self.deadlock_detector@ =~= old(self).edges() + wait_edges(
                            transaction_id,
                            hm.take(i as int + 1),
                            table_name@,
                        ));
                    }
                } else {
                    proof {
                        assert(old(self).edges() + wait_edges(
                            transaction_id,
                            hm.take(i as int + 1),
                            table_name@,
                        ) =~= self.deadlock_detector@);
                    }
                }
                i = i + 1;
            }
            proof {
                assert(hm.take(nh as int) =~= hm);
            }
            match self.deadlock_detector.detect_deadlock() {
                Some(victim) => {
                    if victim == transaction_id {
                        self.deadlock_detector.remove_transaction(transaction_id);
                        proof {
                            lemma_wait_edges_waiter(transaction_id, hm, table_name@);
                            lemma_filter_aug(
                                old(self).edges(),
                                wait_edges(transaction_id, hm, table_name@),
                                transaction_id,
                            );
                            lemma_wf_frame(*old(self), *self);
                        }
                        return Err(ReefDBError::Deadlock);
                    }
                },
                None => {},
            }
        } else {
            proof {
                assert(old(self).edges() + wait_edges(
                    transaction_id,
                    hm.take(0),
                    table_name@,
                ) =~= old(self).edges());
            }
        }
        let r = self.lock_manager.acquire_lock(transaction_id, table_name, lock_type);
        self.deadlock_detector.remove_transaction(transaction_id);
        proof {
            if spec_holders(old(self).locks(), table_name@).len() > 0 && !crate::locks::spec_has_lock(
                old(self).locks(),
                transaction_id,
                table_name@,
            ) {
                lemma_wait_edges_waiter(transaction_id, hm, table_name@);
                lemma_filter_aug(
                    old(self).edges(),
                    wait_edges(transaction_id, hm, table_name@),
                    transaction_id,
                );
            } else {
                assert(wait_edges(transaction_id, hm.take(0), table_name@)
                    =~= Seq::<EdgeM>::empty());
            }
            assert(self.lock_manager.wf());
            lemma_wf_frame_locks(*old(self), *self);
        }
        match r {
            Ok(_) => Ok(()),
            Err(e) => Err(e),
        }
    }

    /// Creates (or overwrites) a savepoint holding the transaction's
    /// current working copy.
    pub fn create_savepoint(&mut self, transaction_id: u64, name: String) -> (r: Result<
        (),
        ReefDBError,
    >)
        requires
            old(self).wf(),
        ensures
            final(self).wf(),
            final(self).db() == old(self).db(),
            final(self).active() == old(self).active(),
            final(self).mvcc() == old(self).mvcc(),
            final(self).wal_log() == old(self).wal_log(),
            final(self).wal_base() == old(self).wal_base(),
            final(self).locks() == old(self).locks(),
            final(self).edges() == old(self).edges(),
            final(self).committed() == old(self).committed(),
            final(self).rolled_back() == old(self).rolled_back(),
            final(self).next_id() == old(self).next_id(),
            match r {
                Ok(_) => {
                    &&& old(self).active().contains_key(transaction_id)
                    &&& final(self).savepoints() == old(self).savepoints().insert(
                        transaction_id,
                        splist_create(
                            splist_of(old(self).savepoints(), transaction_id),
                            name@,
                            old(self).active()[transaction_id].tables,
                        ),
                    )
                },
                Err(e) => {
                    &&& !old(self).active().contains_key(transaction_id)
                    &&& e.deep_view() == ErrM::TransactionNotFound(transaction_id)
                    &&& final(self).savepoints() == old(self).savepoints()
                },
            },
    {
        let state = match self.active_transactions.get(transaction_id) {
            Some(tx) => tx.get_table_state(),
            None => {
                return Err(ReefDBError::TransactionNotFound(transaction_id));
            },
        };
        let r = self.savepoint_manager.create_savepoint(transaction_id, name, state);
        proof {
            lemma_wf_frame(*old(self), *self);
        }
        r
    }

    /// Restores the working copy to savepoint `name` (newer savepoints are
    /// discarded, the target stays), restores the published tables from
    /// the snapshot too, and logs a `Rollback` entry. Hands the restored
    /// state back.
    pub fn rollback_to_savepoint(&mut self, transaction_id: u64, name: &str) -> (r: Result<
        TableStorage,
        ReefDBError,
    >)
        requires
            old(self).wf(),
        ensures
            final(self).wf(),
            final(self).locks() == old(self).locks(),
            final(self).edges() == old(self).edges(),
            final(self).mvcc() == old(self).mvcc(),
            final(self).wal_base() == old(self).wal_base(),
            final(self).committed() == old(self).committed(),
            final(self).rolled_back() == old(self).rolled_back(),
            final(self).next_id() == old(self).next_id(),
            ({
                let l0 = splist_of(old(self).savepoints(), transaction_id);
                match r {
                    Ok(st) => {
                        &&& old(self).active().contains_key(transaction_id)
                        &&& sp_pos(l0, name@) matches Some(i)
                        &&& st@ == l0[sp_pos(l0, name@).unwrap()].state
                        &&& final(self).savepoints() == old(self).savepoints().insert(
                            transaction_id,
                            l0.take(sp_pos(l0, name@).unwrap() + 1),
                        )
                        &&& final(self).active() == old(self).active().insert(
                            transaction_id,
                            TransactionM {
                                tables: st@,
                                ..old(self).active()[transaction_id]
                            },
                        )
                        &&& final(self).db() == st@
                        &&& final(self).wal_log() == old(self).wal_log().push(
                            WALEntryM {
                                transaction_id,
                                timestamp: final(self).clock_time(),
                                operation: WALOperation::Rollback,
                                table_name: Seq::empty(),
                                data: Seq::empty(),
                            },
                        )
                    },
                    Err(e) => {
                        &&& final(self).savepoints() == old(self).savepoints()
                        &&& final(self).active() == old(self).active()
                        &&& final(self).db() == old(self).db()
                        &&& final(self).wal_log() == old(self).wal_log()
                        &&& if !old(self).active().contains_key(transaction_id) {
                            e.deep_view() == ErrM::TransactionNotFound(transaction_id)
                        } else {
                            sp_pos(l0, name@) is None && e.deep_view() == ErrM::SavepointNotFound(
                                name@,
                            )
                        }
                    },
                }
            }),
    {
        let mut tx = match self.active_transactions.take(transaction_id) {
            Some(t) => t,
            None => {
                proof {
                    lemma_wf_frame(*old(self), *self);
                }
                return Err(ReefDBError::TransactionNotFound(transaction_id));
            },
        };
        let restored = match self.savepoint_manager.rollback_to_savepoint(transaction_id, name) {
            Ok(st) => st,
            Err(e) => {
                self.active_transactions.upsert(transaction_id, tx);
                proof {
                    assert(old(self).active().remove(transaction_id).insert(
                        transaction_id,
                        old(self).active()[transaction_id],
                    ) =~= old(self).active());
                    lemma_wf_frame(*old(self), *self);
                }
                return Err(e);
            },
        };
        tx.restore_table_state(&restored);
        self.tables.restore_from(&restored);
        self.active_transactions.upsert(transaction_id, tx);
        self.clock = if self.clock == u64::MAX {
            self.clock
        } else {
            self.clock + 1
        };
        let entry = WALEntry {
            transaction_id,
            timestamp: self.clock,
            operation: WALOperation::Rollback,
            table_name: String::new(),
            data: Vec::new(),
        };
        let ghost em = entry.deep_view();
        let _ = self.wal.append_entry(entry);
        proof {
            assert(em.data =~= Seq::<u8>::empty());
            let a = *old(self);
            let b = *self;
            lemma_lock_wf_view(a.lock_manager, b.lock_manager);
            lemma_mvcc_wf_view(a.mvcc_manager, b.mvcc_manager);
            assert forall|t: u64| #[trigger]
                b.active().contains_key(t) implies b.active()[t].state
                == TransactionState::Active && t < b.next_tx_id
                && b.mvcc().active_map().contains_key(t) && !wal_has_commit(
                b.wal@.skip(b.wal_base@),
                t,
            ) by {
                assert(a.active().contains_key(t));
                lemma_wal_push_other_or_not(a.wal@, a.wal_base@, em, t);
            }
            assert forall|t: u64| #[trigger] b.active()[t].id == t || !b.active().contains_key(
                t,
            ) by {
                if b.active().contains_key(t) {
                    assert(a.active().contains_key(t));
                }
            }
            assert forall|t: u64| #[trigger]
                b.mvcc().active_map().contains_key(t) implies t < b.next_tx_id by {
                assert(a.mvcc().active_map().contains_key(t));
            }
            assert forall|k: Seq<char>, i: int|
                #![trigger b.mvcc().versions_map()[k][i]]
                b.mvcc().versions_map().contains_key(k) && 0 <= i
                    < b.mvcc().versions_map()[k].len() implies b.mvcc().versions_map()[k][i].tx_id
                < b.next_tx_id by {
                assert(a.mvcc().versions_map().contains_key(k));
                assert(a.mvcc().versions_map()[k][i] == b.mvcc().versions_map()[k][i]);
            }
            assert forall|i: int|
                b.wal_base@ <= i < b.wal@.len() implies (#[trigger] b.wal@[i]).transaction_id
                < b.next_tx_id by {
                if i < a.wal@.len() {
                    assert(a.wal@[i] == b.wal@[i]);
                } else {
                    assert(b.wal@[i] == em);
                    assert(a.active().contains_key(transaction_id));
                }
            }
            assert forall|t: u64| #[trigger] b.committed().contains(t) implies wal_has_commit(
                b.wal@.skip(b.wal_base@),
                t,
            ) && t < b.next_tx_id && !b.active().contains_key(t) by {
                assert(a.committed().contains(t));
                lemma_wal_push_keeps(a.wal@, a.wal_base@, em, t);
                if b.active().contains_key(t) {
                    assert(a.active().contains_key(t));
                }
            }
            assert forall|t: u64| #[trigger] b.rolled_back().contains(t) implies !wal_has_commit(
                b.wal@.skip(b.wal_base@),
                t,
            ) && t < b.next_tx_id && !b.active().contains_key(t) by {
                assert(a.rolled_back().contains(t));
                lemma_wal_push_not_commit(a.wal@, a.wal_base@, em, t);
                if b.active().contains_key(t) {
                    assert(a.active().contains_key(t));
                }
            }
            assert(b.wf());
        }
        Ok(restored)
    }

    /// Discards savepoint `name` of the transaction.
    pub fn release_savepoint(&mut self, transaction_id: u64, name: &str) -> (r: Result<
        (),
        ReefDBError,
    >)
        requires
            old(self).wf(),
        ensures
            final(self).wf(),
            final(self).db() == old(self).db(),
            final(self).active() == old(self).active(),
            final(self).mvcc() == old(self).mvcc(),
            final(self).wal_log() == old(self).wal_log(),
            final(self).wal_base() == old(self).wal_base(),
            final(self).locks() == old(self).locks(),
            final(self).edges() == old(self).edges(),
            final(self).committed() == old(self).committed(),
            final(self).rolled_back() == old(self).rolled_back(),
            final(self).next_id() == old(self).next_id(),
            ({
                let l0 = splist_of(old(self).savepoints(), transaction_id);
                match r {
                    Ok(_) => {
                        &&& old(self).active().contains_key(transaction_id)
                        &&& sp_pos(l0, name@) matches Some(i)
                        &&& final(self).savepoints() == old(self).savepoints().insert(
                            transaction_id,
                            l0.remove(sp_pos(l0, name@).unwrap()),
                        )
                    },
                    Err(e) => {
                        &&& final(self).savepoints() == old(self).savepoints()
                        &&& if !old(self).active().contains_key(transaction_id) {
                            e.deep_view() == ErrM::TransactionNotFound(transaction_id)
                        } else {
                            sp_pos(l0, name@) is None && e.deep_view() == ErrM::SavepointNotFound(
                                name@,
                            )
                        }
                    },
                }
            }),
    {
        if !self.active_transactions.contains(transaction_id) {
            return Err(ReefDBError::TransactionNotFound(transaction_id));
        }
        let r = self.savepoint_manager.release_savepoint(transaction_id, name);
        proof {
            lemma_wf_frame(*old(self), *self);
        }
        r
    }

    /// A copy of a transaction's working table state.
    pub fn get_transaction_state(&self, transaction_id: u64) -> (r: Result<
        TableStorage,
        ReefDBError,
    >)
        ensures
            match r {
                Ok(st) => self.active().contains_key(transaction_id) && st@
                    == self.active()[transaction_id].tables,
                Err(e) => !self.active().contains_key(transaction_id) && e.deep_view()
                    == ErrM::TransactionNotFound(transaction_id),
            },
    {
        match self.active_transactions.get(transaction_id) {
            Some(tx) => Ok(tx.get_table_state()),
            None => Err(ReefDBError::TransactionNotFound(transaction_id)),
        }
    }

    /// A transaction, by id.
    pub fn get_transaction(&self, transaction_id: u64) -> (r: Result<&Transaction, ReefDBError>)
        ensures
            match r {
                Ok(tx) => self.active().contains_key(transaction_id) && tx.deep_view()
                    == self.active()[transaction_id],
                Err(e) => !self.active().contains_key(transaction_id) && e.deep_view()
                    == ErrM::TransactionNotFound(transaction_id),
            },
    {
        match self.active_transactions.get(transaction_id) {
            Some(tx) => Ok(tx),
            None => Err(ReefDBError::TransactionNotFound(transaction_id)),
        }
    }

    /// Overwrites the published tables with `state` and propagates the new
    /// state into every live transaction's working copy and snapshot.
    pub fn update_database_state(&mut self, state: TableStorage)
        requires
            old(self).wf(),
        ensures
            final(self).wf(),
            final(self).db() == state@,
            final(self).active().dom() == old(self).active().dom(),
            forall|t: u64| #[trigger]
                old(self).active().contains_key(t) ==> final(self).active()[t] == (TransactionM {
                    tables: state@,
                    snapshot: state@,
                    ..old(self).active()[t]
                }),
            final(self).mvcc() == old(self).mvcc(),
            final(self).wal_log() == old(self).wal_log(),
            final(self).wal_base() == old(self).wal_base(),
            final(self).locks() == old(self).locks(),
            final(self).edges() == old(self).edges(),
            final(self).savepoints() == old(self).savepoints(),
            final(self).committed() == old(self).committed(),
            final(self).rolled_back() == old(self).rolled_back(),
            final(self).next_id() == old(self).next_id(),
    {
        self.tables.restore_from(&state);
        let updated = self.tables.deep_clone();
        let ids = self.active_transactions.keys_vec();
        let n = ids.len();
        let mut i: usize = 0;
        while i < n
            invariant
                n == ids@.len(),
                i <= n,
                updated@ == state@,
                self.tables@ == updated@,
                self.lock_manager == old(self).lock_manager,
                self.mvcc_manager == old(self).mvcc_manager,
                self.wal == old(self).wal,
                self.deadlock_detector == old(self).deadlock_detector,
                self.savepoint_manager == old(self).savepoint_manager,
                self.next_tx_id == old(self).next_tx_id,
                self.clock == old(self).clock,
                self.wal_base == old(self).wal_base,
                self.committed_ids == old(self).committed_ids,
                self.rolled_back_ids == old(self).rolled_back_ids,
                forall|a: int, b: int| 0 <= a < b < ids@.len() ==> ids@[a] != ids@[b],
                forall|j: int| 0 <= j < ids@.len() ==> old(self).active().contains_key(
                    #[trigger] ids@[j],
                ),
                forall|t: u64| old(self).active().contains_key(t) ==> ids@.contains(t),
                self.active_transactions@.dom() == old(self).active().dom(),
                forall|t: u64|
                    (old(self).active().contains_key(t) && !(exists|j: int|
                        0 <= j < i && ids@[j] == t)) ==> #[trigger] self.active_transactions@[t]
                        == old(self).active()[t],
                forall|t: u64|
                    (old(self).active().contains_key(t) && (exists|j: int|
                        0 <= j < i && ids@[j] == t)) ==> #[trigger] self.active_transactions@[t]
                        == (TransactionM {
                        tables: updated@,
                        snapshot: updated@,
                        ..old(self).active()[t]
                    }),
            decreases n - i,
        {
            let ghost t0 = ids@[i as int];
            proof {
                assert(old(self).active().contains_key(t0));
                assert(!(exists|j: int| 0 <= j < i && ids@[j] == t0));
                assert(self.active_transactions@.contains_key(t0));
            }
            let ghost mid = self.active_transactions@;
            match self.active_transactions.take(ids[i]) {
                Some(mut tx) => {
                    tx.restore_table_state(&updated);
                    tx.snapshot = updated.deep_clone();
                    self.active_transactions.upsert(ids[i], tx);
                    proof {
                        assert(self.active_transactions@ == mid.remove(t0).insert(
                            t0,
                            TransactionM {
                                tables: updated@,
                                snapshot: updated@,
                                ..old(self).active()[t0]
                            },
                        ));
                        assert(self.active_transactions@.dom() =~= old(self).active().dom());
                        assert forall|t: u64|
                            (old(self).active().contains_key(t) && !(exists|j: int|
                                0 <= j < i + 1 && ids@[j] == t)) implies #[trigger]
                        self.active_transactions@[t] == old(self).active()[t] by {
                            assert(t != t0);
                            assert(!(exists|j: int| 0 <= j < i && ids@[j] == t));
                        }
                        assert forall|t: u64|
                            (old(self).active().contains_key(t) && (exists|j: int|
                                0 <= j < i + 1 && ids@[j] == t)) implies #[trigger]
                        self.active_transactions@[t] == (TransactionM {
                            tables: updated@,
                            snapshot: updated@,
                            ..old(self).active()[t]
                        }) by {
                            if t != t0 {
                                assert(exists|j: int| 0 <= j < i && ids@[j] == t);
                            }
                        }
                    }
                },
                None => {
                    proof {
                        assert(false);
                    }
                },
            }
            i = i + 1;
        }
        proof {
            let a = *old(self);
            let b = *self;
            assert forall|t: u64| #[trigger]
                a.active().contains_key(t) implies (exists|j: int|
                0 <= j < ids@.len() && ids@[j] == t) by {
                assert(ids@.contains(t));
            }
            lemma_lock_wf_view(a.lock_manager, b.lock_manager);
            lemma_mvcc_wf_view(a.mvcc_manager, b.mvcc_manager);
            assert forall|t: u64| #[trigger]
                b.active().contains_key(t) implies b.active()[t].state
                == TransactionState::Active && t < b.next_tx_id
                && b.mvcc().active_map().contains_key(t) && !wal_has_commit(
                b.wal@.skip(b.wal_base@),
                t,
            ) by {
                assert(a.active().contains_key(t));
            }
            assert forall|t: u64| #[trigger] b.active()[t].id == t || !b.active().contains_key(
                t,
            ) by {
                if b.active().contains_key(t) {
                    assert(a.active().contains_key(t));
                }
            }
            assert forall|t: u64| #[trigger]
                b.mvcc().active_map().contains_key(t) implies t < b.next_tx_id by {
                assert(a.mvcc().active_map().contains_key(t));
            }
            assert forall|k: Seq<char>, i2: int|
                #![trigger b.mvcc().versions_map()[k][i2]]
                b.mvcc().versions_map().contains_key(k) && 0 <= i2
                    < b.mvcc().versions_map()[k].len() implies b.mvcc().versions_map()[k][i2].tx_id
                < b.next_tx_id by {
                assert(a.mvcc().versions_map().contains_key(k));
                assert(a.mvcc().versions_map()[k][i2] == b.mvcc().versions_map()[k][i2]);
            }
            assert forall|t: u64| #[trigger] b.committed().contains(t) implies wal_has_commit(
                b.wal@.skip(b.wal_base@),
                t,
            ) && t < b.next_tx_id && !b.active().contains_key(t) by {
                assert(a.committed().contains(t));
                if b.active().contains_key(t) {
                    assert(a.active().contains_key(t));
                }
            }
            assert forall|t: u64| #[trigger] b.rolled_back().contains(t) implies !wal_has_commit(
                b.wal@.skip(b.wal_base@),
                t,
            ) && t < b.next_tx_id && !b.active().contains_key(t) by {
                assert(a.rolled_back().contains(t));
                if b.active().contains_key(t) {
                    assert(a.active().contains_key(t));
                }
            }
            assert(b.wf());
        }
    }

    /// The write-ahead log, for replay.
    pub fn get_wal(&self) -> (r: &WriteAheadLog)
        ensures
            r@ == self.wal_log(),
    {
        &self.wal
    }

    /// The backoff before retry number `retry` after a deadlock, in
    /// milliseconds.
    pub fn retry_backoff_ms(retry: u32) -> (r: u64)
        requires
            retry < 54,
        ensures
            r == 10 * vstd::arithmetic::power2::pow2(retry as nat),
    {
        proof {
            vstd::arithmetic::power2::lemma2_to64();
            vstd::arithmetic::power2::lemma2_to64_rest();
            if retry != 54 {
                vstd::arithmetic::power2::lemma_pow2_strictly_increases(retry as nat, 54);
            }
            assert(1 * vstd::arithmetic::power2::pow2(retry as nat) <= u64::MAX);
        }
        let shifted: u64 = 1u64 << (retry as u64);
        proof {
            assert(shifted == vstd::arithmetic::power2::pow2(retry as nat)) by {
                vstd::bits::lemma_u64_shl_is_mul(1u64, retry as u64);
            }
            assert(shifted < vstd::arithmetic::power2::pow2(54));
        }
        10 * shifted
    }
}

/// Every wait edge names the requester as waiter.
proof fn lemma_wait_edges_waiter(tx: u64, holders: Seq<u64>, table: Seq<char>)
    ensures
        forall|i: int|
            0 <= i < wait_edges(tx, holders, table).len() ==> (#[trigger] wait_edges(
                tx,
                holders,
                table,
            )[i]).waiter == tx,
    decreases holders.len(),
{
    if holders.len() > 0 {
        lemma_wait_edges_waiter(tx, holders.drop_last(), table);
        let pre = wait_edges(tx, holders.drop_last(), table);
        assert forall|i: int|
            0 <= i < wait_edges(tx, holders, table).len() implies (#[trigger] wait_edges(
            tx,
            holders,
            table,
        )[i]).waiter == tx by {
            if i < pre.len() {
                assert(wait_edges(tx, holders, table)[i] == pre[i]);
            }
        }
    }
}

/// The requester's wait edges vanish when everything incident to it is
/// filtered out, leaving the old graph's unrelated edges.
proof fn lemma_filter_aug(base: Seq<EdgeM>, added: Seq<EdgeM>, tx: u64)
    requires
        forall|i: int| 0 <= i < added.len() ==> (#[trigger] added[i]).waiter == tx,
    ensures
        (base + added).filter(not_incident(tx)) == base.filter(not_incident(tx)),
    decreases added.len(),
{
    reveal(Seq::filter);
    if added.len() == 0 {
        assert(base + added =~= base);
    } else {
        assert forall|i: int|
            0 <= i < added.drop_last().len() implies (#[trigger] added.drop_last()[i]).waiter
            == tx by {
            assert(added[i] == added.drop_last()[i]);
        }
        lemma_filter_aug(base, added.drop_last(), tx);
        assert(base + added =~= (base + added.drop_last()).push(added.last()));
        assert(added[added.len() - 1].waiter == tx);
        assert(!not_incident(tx)(added.last()));
        assert((base + added).filter(not_incident(tx)) == (base + added.drop_last()).filter(
            not_incident(tx),
        ));
    }
}

/// A pushed non-commit or other-transaction entry keeps an absent commit
/// absent.
proof fn lemma_wal_push_other_or_not(log: Seq<WALEntryM>, base: int, e: WALEntryM, t: u64)
    requires
        0 <= base <= log.len(),
        !wal_has_commit(log.skip(base), t),
        e.transaction_id != t || e.operation != WALOperation::Commit,
    ensures
        !wal_has_commit(log.push(e).skip(base), t),
{
    if wal_has_commit(log.push(e).skip(base), t) {
        let i = choose|i: int|
            0 <= i < log.push(e).skip(base).len() && log.push(e).skip(base)[i].transaction_id == t
                && log.push(e).skip(base)[i].operation == WALOperation::Commit;
        if i < log.skip(base).len() {
            assert(log.skip(base)[i] == log.push(e).skip(base)[i]);
        } else {
            assert(log.push(e).skip(base)[i] == e);
        }
    }
}

/// The table an internal execution locks exclusively before running the
/// statement: the written table of INSERT, UPDATE, DELETE and CREATE.
/// Reads rely on MVCC snapshots and lock nothing.
pub open spec fn stmt_lock_table(s: StatementM) -> Option<Seq<char>> {
    match s {
        StatementM::Insert(ins) => Some(ins.table),
        StatementM::Update(u) => Some(u.table),
        StatementM::Delete(d) => Some(d.table),
        StatementM::Create(c) => Some(c.table),
        _ => None,
    }
}


/// The model of a statement result.
pub open spec fn res_model(r: Result<ReefDBResult, ReefDBError>) -> Result<ResultM, ErrM> {
    match r {
        Ok(res) => Ok(res.deep_view()),
        Err(e) => Err(e.deep_view()),
    }
}

/// What `execute_statement` guarantees for a live transaction `tx`
/// running statement `s`, relating the manager before and after and the
/// result.
pub open spec fn exec_stmt_post(
    pre: TransactionManager,
    post: TransactionManager,
    tx: u64,
    s: StatementM,
    r: Result<ReefDBResult, ReefDBError>,
) -> bool             {
                let txm = pre.active()[tx];
                match s {
                    StatementM::Select(sel) => {
                        &&& post.active() == pre.active()
                        &&& post.mvcc().versions_map() == pre.mvcc().versions_map()
                        &&& if !txm.tables.contains_key(sel.table.name) {
                            r matches Err(e) && e.deep_view() == ErrM::TableNotFound(
                                sel.table.name,
                            )
                        } else if first_missing(txm.tables, sel.joins) is Some {
                            r matches Err(e) && e.deep_view() == ErrM::TableNotFound(
                                first_missing(txm.tables, sel.joins).unwrap(),
                            )
                        } else {
                            r matches Ok(res) && res.deep_view() matches ResultM::Select(q)
                                && q.rows == spec_select(
                                txm.tables,
                                pre.mvcc(),
                                tx,
                                txm.isolation_level,
                                sel,
                            ) && q.columns == crate::result::proj_infos(
                                txm.tables[sel.table.name].schema,
                                sel.columns,
                            )
                        }
                    },
                    StatementM::Update(u) => {
                        &&& post.active() == pre.active()
                        &&& if !txm.tables.contains_key(u.table) {
                            r matches Err(e) && e.deep_view() == ErrM::TableNotFound(u.table)
                                && post.mvcc().versions_map() == pre.mvcc().versions_map()
                        } else {
                            let t = txm.tables[u.table];
                            let pairs = upd_pairs(
                                u.table,
                                t.schema,
                                t.rows,
                                u.updates,
                                u.where_clause,
                            );
                            if exists|i: int|
                                0 <= i < pairs.len() && has_live_conflict(
                                    chain_of(pre.mvcc().versions_map(), pairs[i].0),
                                    tx,
                                    pre.mvcc().active_map(),
                                ) {
                                r matches Err(e) && e.deep_view() == ErrM::WriteConflict && post.mvcc().versions_map() == pre.mvcc().versions_map()
                            } else {
                                r matches Ok(res) && res.deep_view() == ResultM::Update(
                                    pairs.len() as usize,
                                ) && post.mvcc().versions_map() == apply_writes(
                                    pre.mvcc().versions_map(),
                                    pairs,
                                    tx,
                                    pre.mvcc().active_map()[tx],
                                )
                            }
                        }
                    },
                    StatementM::Insert(ins) => {
                        if !txm.tables.contains_key(ins.table) {
                            &&& r matches Err(e) && e.deep_view() == ErrM::TableNotFound(ins.table)
                            &&& post.active() == pre.active()
                            &&& post.mvcc().versions_map() == pre.mvcc().versions_map()
                        } else {
                            let key_opt = overlay_key(ins.table, ins.values);
                            if key_opt matches Some(key) && has_live_conflict(
                                chain_of(pre.mvcc().versions_map(), key),
                                tx,
                                pre.mvcc().active_map(),
                            ) {
                                &&& r matches Err(e) && e.deep_view() == ErrM::WriteConflict
                                &&& post.active() == pre.active()
                                &&& post.mvcc().versions_map() == pre.mvcc().versions_map()
                            } else {
                                &&& r matches Ok(res) && res.deep_view() == ResultM::Insert(1)
                                &&& post.active() == pre.active().insert(
                                    tx,
                                    TransactionM {
                                        tables: txm.tables.insert(
                                            ins.table,
                                            TableModel {
                                                schema: txm.tables[ins.table].schema,
                                                rows: txm.tables[ins.table].rows.push(ins.values),
                                            },
                                        ),
                                        ..txm
                                    },
                                )
                                &&& post.mvcc().versions_map() == (match key_opt {
                                    Some(key) => pre.mvcc().versions_map().insert(
                                        key,
                                        chain_of(pre.mvcc().versions_map(), key).push(
                                            VersionM {
                                                tx_id: tx,
                                                begin_ts: pre.mvcc().active_map()[tx],
                                                end_ts: None,
                                                committed: false,
                                                commit_ts: None,
                                                data: ins.values,
                                            },
                                        ),
                                    ),
                                    None => pre.mvcc().versions_map(),
                                })
                            }
                        }
                    },
                    _ => {
                        &&& post.mvcc().versions_map() == pre.mvcc().versions_map()
                        &&& match crate::transaction::wc_result(txm.tables, s) {
                            Ok((m2, res)) => r matches Ok(res2) && res2.deep_view() == res && post.active() == pre.active().insert(
                                tx,
                                TransactionM { tables: m2, ..txm },
                            ),
                            Err(e) => (r matches Err(e2) && e2.deep_view() == e) && post.active() == pre.active(),
                        }
                    },
                }
            }

impl TransactionManager {
    /// Executes one statement inside a transaction.
    ///
    /// CREATE, DELETE, DROP, ALTER and the index statements work on the
    /// transaction's working copy; INSERT also stages an MVCC version when
    /// the row has an integer primary key; UPDATE stages MVCC versions for
    /// every matched row with an integer primary key (the staged writes are
    /// atomic: a write conflict stages nothing); SELECT reads the working
    /// copy with each row overlaid by its visible MVCC version, joins,
    /// filters, sorts stably, and projects.
    #[verifier::rlimit(100)]
    #[verifier::spinoff_prover]
    pub fn execute_statement(&mut self, transaction_id: u64, stmt: Statement) -> (r: Result<
        ReefDBResult,
        ReefDBError,
    >)
        requires
            old(self).wf(),
        ensures
            final(self).wf(),
            final(self).db() == old(self).db(),
            final(self).locks() == old(self).locks(),
            final(self).edges() == old(self).edges(),
            final(self).wal_log() == old(self).wal_log(),
            final(self).wal_base() == old(self).wal_base(),
            final(self).savepoints() == old(self).savepoints(),
            final(self).committed() == old(self).committed(),
            final(self).rolled_back() == old(self).rolled_back(),
            final(self).next_id() == old(self).next_id(),
            final(self).mvcc().counter() == old(self).mvcc().counter(),
            final(self).mvcc().active_map() == old(self).mvcc().active_map(),
            !old(self).active().contains_key(transaction_id) ==> {
                &&& r matches Err(e) && e.deep_view() == ErrM::TransactionNotFound(transaction_id)
                &&& final(self).active() == old(self).active()
                &&& final(self).mvcc().versions_map() == old(self).mvcc().versions_map()
            },
            old(self).active().contains_key(transaction_id) ==> exec_stmt_post(
                *old(self),
                *final(self),
                transaction_id,
                stmt.deep_view(),
                r,
            ),
    {
        let ghost sm0 = stmt.deep_view();
        if !self.active_transactions.contains(transaction_id) {
            return Err(ReefDBError::TransactionNotFound(transaction_id));
        }
        match stmt {
            Statement::Select(SelectStatement::FromTable(
                table_ref,
                columns,
                where_clause,
                joins,
                order_by,
            )) => {
                let ghost selm = crate::ast::SelectM {
                    table: table_ref.deep_view(),
                    columns: columns.deep_view(),
                    where_clause: where_clause.deep_view(),
                    joins: joins.deep_view(),
                    order_by: order_by.deep_view(),
                };
                proof {
                    assert(sm0 == StatementM::Select(selm));
                }
                let r = self.run_tx_select(
                    transaction_id,
                    table_ref,
                    columns,
                    where_clause,
                    joins,
                    order_by,
                );
                proof {
                    lemma_wf_frame(*old(self), *self);
                    assert(exec_stmt_post(*old(self), *self, transaction_id, sm0, r));
                }
                return r;
            },
            Statement::Update(UpdateStatement::UpdateTable(table_name, updates, where_clause)) => {
                let ghost um = crate::ast::UpdateM {
                    table: table_name@,
                    updates: updates.deep_view(),
                    where_clause: where_clause.deep_view(),
                };
                proof {
                    assert(sm0 == StatementM::Update(um));
                }
                let r = self.run_tx_update(transaction_id, table_name, updates, where_clause);
                proof {
                    let txm = old(self).active()[transaction_id];
                    if txm.tables.contains_key(um.table) {
                        let t = txm.tables[um.table];
                        let pairs = upd_pairs(
                            um.table,
                            t.schema,
                            t.rows,
                            um.updates,
                            um.where_clause,
                        );
                        if exists|i: int|
                            0 <= i < pairs.len() && has_live_conflict(
                                chain_of(old(self).mvcc().versions_map(), pairs[i].0),
                                transaction_id,
                                old(self).mvcc().active_map(),
                            ) {
                            assert(exec_stmt_post(*old(self), *self, transaction_id, sm0, r));
                        } else {
                            assert(exec_stmt_post(*old(self), *self, transaction_id, sm0, r));
                        }
                    } else {
                        assert(exec_stmt_post(*old(self), *self, transaction_id, sm0, r));
                    }
                }
                return r;
            },
            Statement::Insert(crate::ast::InsertStatement::IntoTable(table_name, values)) => {
                let ghost im = crate::ast::InsertM { table: table_name@, values: values.deep_view() };
                proof {
                    assert(sm0 == StatementM::Insert(im));
                }
                let r = self.run_tx_insert(transaction_id, table_name, values);
                proof {
                    assert(exec_stmt_post(*old(self), *self, transaction_id, sm0, r));
                }
                return r;
            },
            other => {
                let ghost txm = old(self).active()[transaction_id];
                let mut tx = match self.active_transactions.take(transaction_id) {
                    Some(t) => t,
                    None => {
                        proof {
                            assert(false);
                        }
                        return Err(ReefDBError::TransactionNotFound(transaction_id));
                    },
                };
                let ghost sm = other.deep_view();
                proof {
                    assert(sm == sm0);
                    assert(!(sm is Select) && !(sm is Update) && !(sm is Insert));
                }
                let r = tx.execute_statement(other);
                proof {
                    let rm: Result<ResultM, ErrM> = match r {
                        Ok(ref res) => Ok(res.deep_view()),
                        Err(ref e) => Err(e.deep_view()),
                    };
                    crate::transaction::lemma_wc_result(txm, tx.deep_view(), sm, rm);
                }
                self.active_transactions.upsert(transaction_id, tx);
                proof {
                    match crate::transaction::wc_result(txm.tables, sm) {
                        Ok((m2, res)) => {
                            assert(self.active_transactions@ =~= old(self).active().insert(
                                transaction_id,
                                TransactionM { tables: m2, ..txm },
                            ));
                        },
                        Err(e) => {
                            assert(self.active_transactions@ =~= old(self).active());
                        },
                    }
                    lemma_mvcc_wf_view(old(self).mvcc_manager, self.mvcc_manager);
                    lemma_lock_wf_view(old(self).lock_manager, self.lock_manager);
                    lemma_versions_bound_same(*old(self), *self);
                    assert forall|t: u64| #[trigger]
                        self.active_transactions@.contains_key(t) implies old(self).active().contains_key(t) && self.active_transactions@[t].id == t
                        && self.active_transactions@[t].state == TransactionState::Active by {
                        assert(old(self).active().contains_key(t));
                    }
                    lemma_wf_mod(*old(self), *self);
                    assert(exec_stmt_post(*old(self), *self, transaction_id, sm0, r));
                }
                return r;
            },
        }
    }

    /// The SELECT path: overlay, join, filter, sort, project.
    fn run_tx_select(
        &mut self,
        transaction_id: u64,
        table_ref: crate::ast::TableReference,
        columns: Vec<crate::ast::Column>,
        where_clause: Option<crate::ast::WhereType>,
        joins: Vec<crate::ast::JoinClause>,
        order_by: Vec<crate::ast::OrderByClause>,
    ) -> (r: Result<ReefDBResult, ReefDBError>)
        requires
            old(self).wf(),
            old(self).active().contains_key(transaction_id),
        ensures
            *final(self) == *old(self),
            ({
                let txm = old(self).active()[transaction_id];
                let sel = crate::ast::SelectM {
                    table: table_ref.deep_view(),
                    columns: columns.deep_view(),
                    where_clause: where_clause.deep_view(),
                    joins: joins.deep_view(),
                    order_by: order_by.deep_view(),
                };
                if !txm.tables.contains_key(sel.table.name) {
                    r matches Err(e) && e.deep_view() == ErrM::TableNotFound(sel.table.name)
                } else if first_missing(txm.tables, sel.joins) is Some {
                    r matches Err(e) && e.deep_view() == ErrM::TableNotFound(
                        first_missing(txm.tables, sel.joins).unwrap(),
                    )
                } else {
                    r matches Ok(res) && res.deep_view() matches ResultM::Select(q) && q.rows
                        == spec_select(
                        txm.tables,
                        old(self).mvcc(),
                        transaction_id,
                        txm.isolation_level,
                        sel,
                    ) && q.columns == crate::result::proj_infos(
                        txm.tables[sel.table.name].schema,
                        sel.columns,
                    )
                }
            }),
    {
        let ghost txm = old(self).active()[transaction_id];
        let ghost jm = joins.deep_view();
        let tx = match self.active_transactions.get(transaction_id) {
            Some(t) => t,
            None => {
                proof {
                    assert(false);
                }
                return Err(ReefDBError::TransactionNotFound(transaction_id));
            },
        };
        let iso = tx.get_isolation_level();
        let (base_schema, base_rows): (Vec<crate::value::ColumnDef>, Vec<Vec<DataValue>>) =
            match tx.tables.get_table(table_ref.name.as_str()) {
            Some(t) => (t.schema.deep_clone(), t.rows.deep_clone()),
            None => {
                return Err(ReefDBError::TableNotFound(table_ref.name));
            },
        };
        // collect the joined tables, in declaration order
        let mut jdata: Vec<JoinData> = Vec::new();
        let nj = joins.len();
        let mut k: usize = 0;
        while k < nj
            invariant
                nj == joins.len(),
                jm == joins.deep_view(),
                k <= nj,
                old(self).active().contains_key(transaction_id),
                txm == old(self).active()[transaction_id],
                txm.tables.contains_key(table_ref.name@),
                *self == *old(self),
                tx.deep_view() == txm,
                forall|q: int| 0 <= q < k ==> txm.tables.contains_key(
                    #[trigger] jm[q].table_ref.name,
                ),
                jdata.deep_view().len() == k,
                forall|q: int|
                    0 <= q < k ==> jdata.deep_view()[q] == join_datum(txm.tables, jm[q]),
            decreases nj - k,
        {
            match tx.tables.get_table(joins[k].table_ref.name.as_str()) {
                Some(jt) => {
                    let ghost prev = jdata.deep_view();
                    jdata.push(
                        JoinData {
                            on: (joins[k].on.0.clone(), joins[k].on.1.clone()),
                            name: joins[k].table_ref.name.clone(),
                            schema: jt.schema.deep_clone(),
                            rows: jt.rows.deep_clone(),
                        },
                    );
                    proof {
                        assert(jdata.deep_view() =~= prev.push(join_datum(txm.tables, jm[k as int])));
                    }
                },
                None => {
                    proof {
                        lemma_first_missing(txm.tables, jm, k as int);
                    }
                    return Err(ReefDBError::TableNotFound(joins[k].table_ref.name.clone()));
                },
            }
            k = k + 1;
        }
        proof {
            assert(jdata.deep_view() =~= joins_data(txm.tables, jm));
            lemma_first_missing_none(txm.tables, jm);
        }
        // overlay each base row with its visible MVCC version
        let ghost rts_spec = sel_rts(old(self).mvcc(), transaction_id, txm.isolation_level);
        let ghost rm = base_rows.deep_view();
        let mut orows: Vec<Vec<DataValue>> = Vec::new();
        let n = base_rows.len();
        let mut i: usize = 0;
        while i < n
            invariant
                n == base_rows.len(),
                base_rows.deep_view() == rm,
                *self == *old(self),
                old(self).active().contains_key(transaction_id),
                txm == old(self).active()[transaction_id],
                iso == txm.isolation_level,
                rts_spec == sel_rts(old(self).mvcc(), transaction_id, txm.isolation_level),
                i <= n,
                orows.deep_view().len() == i,
                forall|j: int|
                    0 <= j < i ==> orows.deep_view()[j] == overlay_row(
                        old(self).mvcc(),
                        transaction_id,
                        rts_spec,
                        table_ref.name@,
                        rm[j],
                    ),
            decreases n - i,
        {
            let row = &base_rows[i];
            let mut oned: Option<Vec<DataValue>> = None;
            if row.len() > 0 {
                match &row[0] {
                    DataValue::Integer(pk) => {
                        let pk_str = crate::strutil::i64_string(*pk);
                        let key = KeyFormat::row(table_ref.name.as_str(), 0, pk_str.as_str());
                        proof {
                            assert(key@ == spec_row_key(table_ref.name@, 0, int_str(*pk as int)));
                            assert(overlay_key(table_ref.name@, rm[i as int]) == Some(key@));
                        }
                        oned = if matches!(iso, IsolationLevel::ReadCommitted) {
                            self.mvcc_manager.read_latest(transaction_id, key.as_str())
                        } else {
                            self.mvcc_manager.read_committed(transaction_id, key.as_str())
                        };
                    },
                    _ => {},
                }
            }
            let ghost prev = orows.deep_view();
            match oned {
                Some(d) => {
                    orows.push(d);
                },
                None => {
                    orows.push(crate::deep::DeepClone::deep_clone(row));
                },
            }
            proof {
                assert(orows.deep_view()[i as int] == overlay_row(
                    old(self).mvcc(),
                    transaction_id,
                    rts_spec,
                    table_ref.name@,
                    rm[i as int],
                ));
                assert forall|j: int|
                    0 <= j < i + 1 implies orows.deep_view()[j] == overlay_row(
                    old(self).mvcc(),
                    transaction_id,
                    rts_spec,
                    table_ref.name@,
                    rm[j],
                ) by {
                    if j < i {
                        assert(orows.deep_view()[j] == prev[j]);
                    }
                }
            }
            i = i + 1;
        }
        proof {
            assert(orows.deep_view() =~= overlay_rows(
                old(self).mvcc(),
                transaction_id,
                rts_spec,
                table_ref.name@,
                rm,
            ));
        }
        let cs = executor::build_cs(table_ref.name.as_str(), &base_schema, &jdata);
        let gathered = executor::gather_results(
            &orows,
            table_ref.name.as_str(),
            &base_schema,
            &jdata,
            &where_clause,
            &cs,
        );
        let sorted = executor::sort_results(&gathered, &order_by, &cs);
        let projected = executor::project_results(sorted, &columns, &cs);
        let infos = ColumnInfo::from_schema_and_columns(
            &base_schema,
            &columns,
            table_ref.name.as_str(),
        );
        Ok(ReefDBResult::Select(QueryResult::with_columns(projected, infos)))
    }

    /// The INSERT path: stage the MVCC version (integer primary keys only),
    /// then append to the working copy.
    fn run_tx_insert(&mut self, transaction_id: u64, table_name: String, values: Vec<DataValue>)
        -> (r: Result<ReefDBResult, ReefDBError>)
        requires
            old(self).wf(),
            old(self).active().contains_key(transaction_id),
        ensures
            final(self).wf(),
            final(self).db() == old(self).db(),
            final(self).locks() == old(self).locks(),
            final(self).edges() == old(self).edges(),
            final(self).wal_log() == old(self).wal_log(),
            final(self).wal_base() == old(self).wal_base(),
            final(self).savepoints() == old(self).savepoints(),
            final(self).committed() == old(self).committed(),
            final(self).rolled_back() == old(self).rolled_back(),
            final(self).next_id() == old(self).next_id(),
            final(self).mvcc().counter() == old(self).mvcc().counter(),
            final(self).mvcc().active_map() == old(self).mvcc().active_map(),
            ({
                let txm = old(self).active()[transaction_id];
                if !txm.tables.contains_key(table_name@) {
                    &&& r matches Err(e) && e.deep_view() == ErrM::TableNotFound(table_name@)
                    &&& final(self).active() == old(self).active()
                    &&& final(self).mvcc().versions_map() == old(self).mvcc().versions_map()
                } else {
                    let key_opt = overlay_key(table_name@, values.deep_view());
                    if key_opt matches Some(key) && has_live_conflict(
                        chain_of(old(self).mvcc().versions_map(), key),
                        transaction_id,
                        old(self).mvcc().active_map(),
                    ) {
                        &&& r matches Err(e) && e.deep_view() == ErrM::WriteConflict
                        &&& final(self).active() == old(self).active()
                        &&& final(self).mvcc().versions_map() == old(self).mvcc().versions_map()
                    } else {
                        &&& r matches Ok(res) && res.deep_view() == ResultM::Insert(1)
                        &&& final(self).active() == old(self).active().insert(
                            transaction_id,
                            TransactionM {
                                tables: txm.tables.insert(
                                    table_name@,
                                    TableModel {
                                        schema: txm.tables[table_name@].schema,
                                        rows: txm.tables[table_name@].rows.push(values.deep_view()),
                                    },
                                ),
                                ..txm
                            },
                        )
                        &&& final(self).mvcc().versions_map() == (match key_opt {
                            Some(key) => old(self).mvcc().versions_map().insert(
                                key,
                                chain_of(old(self).mvcc().versions_map(), key).push(
                                    VersionM {
                                        tx_id: transaction_id,
                                        begin_ts: old(self).mvcc().active_map()[transaction_id],
                                        end_ts: None,
                                        committed: false,
                                        commit_ts: None,
                                        data: values.deep_view(),
                                    },
                                ),
                            ),
                            None => old(self).mvcc().versions_map(),
                        })
                    }
                }
            }),
    {
        let ghost txm = old(self).active()[transaction_id];
        let ghost vm = values.deep_view();
        let mut tx = match self.active_transactions.take(transaction_id) {
            Some(t) => t,
            None => {
                proof {
                    assert(false);
                }
                return Err(ReefDBError::TransactionNotFound(transaction_id));
            },
        };
        if !tx.tables.contains_key(table_name.as_str()) {
            self.active_transactions.upsert(transaction_id, tx);
            proof {
                assert(self.active_transactions@ =~= old(self).active());
                lemma_wf_frame(*old(self), *self);
            }
            return Err(ReefDBError::TableNotFound(table_name));
        }
        // stage the MVCC version first, so a conflict stages nothing
        let mut key_opt: Option<String> = None;
        if values.len() > 0 {
            match &values[0] {
                DataValue::Integer(pk) => {
                    let pk_str = crate::strutil::i64_string(*pk);
                    let key = KeyFormat::row(table_name.as_str(), 0, pk_str.as_str());
                    proof {
                        assert(key@ == spec_row_key(table_name@, 0, int_str(*pk as int)));
                        assert(overlay_key(table_name@, vm) == Some(key@));
                    }
                    key_opt = Some(key);
                },
                _ => {},
            }
        }
        proof {
            if overlay_key(table_name@, vm) is Some {
                assert(key_opt matches Some(k) && k@ == overlay_key(table_name@, vm).unwrap());
            } else {
                assert(key_opt is None);
            }
        }
        match key_opt {
            Some(key) => {
                let data = crate::deep::DeepClone::deep_clone(&values);
                match self.mvcc_manager.write(transaction_id, key, data) {
                    Ok(_) => {},
                    Err(e) => {
                        self.active_transactions.upsert(transaction_id, tx);
                        proof {
                            assert(self.active_transactions@ =~= old(self).active());
                            assert(old(self).mvcc().active_map().contains_key(transaction_id));
                            lemma_wf_frame(*old(self), *self);
                        }
                        return Err(e);
                    },
                }
            },
            None => {},
        }
        let r = tx.execute_statement(
            Statement::Insert(crate::ast::InsertStatement::IntoTable(table_name, values)),
        );
        let ok = match r {
            Ok(res) => res,
            Err(e) => {
                proof {
                    assert(false);
                }
                return Err(e);
            },
        };
        self.active_transactions.upsert(transaction_id, tx);
        proof {
            lemma_lock_wf_view(old(self).lock_manager, self.lock_manager);
            assert forall|t: u64| #[trigger]
                self.active_transactions@.contains_key(t) implies old(self).active().contains_key(t) && self.active_transactions@[t].id == t
                && self.active_transactions@[t].state == TransactionState::Active by {
                assert(old(self).active().contains_key(t));
            }
            assert forall|k: Seq<char>, i: int|
                #![trigger self.mvcc_manager.versions_map()[k][i]]
                self.mvcc_manager.versions_map().contains_key(k) && 0 <= i
                    < self.mvcc_manager.versions_map()[k].len()
                    implies self.mvcc_manager.versions_map()[k][i].tx_id < self.next_tx_id by {
                let old_m = old(self).mvcc().versions_map();
                let new_m = self.mvcc_manager.versions_map();
                if new_m == old_m {
                    assert(old_m.contains_key(k));
                    assert(old_m[k][i] == new_m[k][i]);
                } else {
                    let key = overlay_key(table_name@, vm).unwrap();
                    if k == key {
                        if i < chain_of(old_m, k).len() {
                            assert(new_m[k][i] == chain_of(old_m, k)[i]);
                            if old_m.contains_key(k) {
                                assert(old_m[k][i].tx_id < self.next_tx_id);
                            }
                        } else {
                            assert(new_m[k][i].tx_id == transaction_id);
                            assert(old(self).active().contains_key(transaction_id));
                        }
                    } else {
                        assert(old_m.contains_key(k));
                        assert(old_m[k][i] == new_m[k][i]);
                    }
                }
            }
            lemma_wf_mod(*old(self), *self);
        }
        Ok(ok)
    }

    /// The UPDATE path: compute the matched rows' staged writes, check
    /// first that none conflicts, then stage them all.
    fn run_tx_update(
        &mut self,
        transaction_id: u64,
        table_name: String,
        updates: Vec<(String, DataValue)>,
        where_clause: Option<crate::ast::WhereType>,
    ) -> (r: Result<ReefDBResult, ReefDBError>)
        requires
            old(self).wf(),
            old(self).active().contains_key(transaction_id),
        ensures
            final(self).wf(),
            final(self).db() == old(self).db(),
            final(self).locks() == old(self).locks(),
            final(self).edges() == old(self).edges(),
            final(self).wal_log() == old(self).wal_log(),
            final(self).wal_base() == old(self).wal_base(),
            final(self).savepoints() == old(self).savepoints(),
            final(self).committed() == old(self).committed(),
            final(self).rolled_back() == old(self).rolled_back(),
            final(self).next_id() == old(self).next_id(),
            final(self).mvcc().counter() == old(self).mvcc().counter(),
            final(self).mvcc().active_map() == old(self).mvcc().active_map(),
            final(self).active() == old(self).active(),
            ({
                let txm = old(self).active()[transaction_id];
                if !txm.tables.contains_key(table_name@) {
                    r matches Err(e) && e.deep_view() == ErrM::TableNotFound(table_name@) && final(self).mvcc().versions_map() == old(self).mvcc().versions_map()
                } else {
                    let t = txm.tables[table_name@];
                    let pairs = upd_pairs(
                        table_name@,
                        t.schema,
                        t.rows,
                        updates.deep_view(),
                        where_clause.deep_view(),
                    );
                    if exists|i: int|
                        0 <= i < pairs.len() && has_live_conflict(
                            chain_of(old(self).mvcc().versions_map(), pairs[i].0),
                            transaction_id,
                            old(self).mvcc().active_map(),
                        ) {
                        r matches Err(e) && e.deep_view() == ErrM::WriteConflict && final(self).mvcc().versions_map() == old(self).mvcc().versions_map()
                    } else {
                        r matches Ok(res) && res.deep_view() == ResultM::Update(
                            pairs.len() as usize,
                        ) && final(self).mvcc().versions_map() == apply_writes(
                            old(self).mvcc().versions_map(),
                            pairs,
                            transaction_id,
                            old(self).mvcc().active_map()[transaction_id],
                        )
                    }
                }
            }),
    {
        let ghost txm = old(self).active()[transaction_id];
        let (schema, rows): (Vec<crate::value::ColumnDef>, Vec<Vec<DataValue>>) = {
            let tx = match self.active_transactions.get(transaction_id) {
                Some(t) => t,
                None => {
                    proof {
                        assert(false);
                    }
                    return Err(ReefDBError::TransactionNotFound(transaction_id));
                },
            };
            match tx.tables.get_table(table_name.as_str()) {
                Some(t) => (t.schema.deep_clone(), t.rows.deep_clone()),
                None => {
                    return Err(ReefDBError::TableNotFound(table_name));
                },
            }
        };
        let ghost tm = txm.tables[table_name@];
        let ghost um = updates.deep_view();
        let ghost wm = where_clause.deep_view();
        let no_joins: Vec<JoinData> = Vec::new();
        let cs = executor::build_cs(table_name.as_str(), &schema, &no_joins);
        proof {
            assert(no_joins.deep_view() =~= Seq::<JoinDataM>::empty());
            assert(executor::joins_cs(no_joins.deep_view()) =~= Seq::<
                (Seq<char>, crate::value::ColModel),
            >::empty());
            assert(cs.deep_view() =~= executor::qschema_of(table_name@, tm.schema));
        }
        // gather the staged writes, in row order
        let ghost pairs = upd_pairs(table_name@, tm.schema, tm.rows, um, wm);
        let mut keys: Vec<String> = Vec::new();
        let mut datas: Vec<Vec<DataValue>> = Vec::new();
        let n = rows.len();
        let mut i: usize = 0;
        while i < n
            invariant
                n == rows.len(),
                rows.deep_view() == tm.rows,
                schema.deep_view() == tm.schema,
                updates.deep_view() == um,
                where_clause.deep_view() == wm,
                table_name@ == table_name@,
                cs.deep_view() == executor::qschema_of(table_name@, tm.schema),
                i <= n,
                keys@.len() == datas.deep_view().len(),
                keys@.len() == upd_pairs(table_name@, tm.schema, tm.rows.take(i as int), um, wm).len(),
                forall|j: int|
                    0 <= j < keys@.len() ==> (#[trigger] keys@[j]@, datas.deep_view()[j])
                        == upd_pairs(table_name@, tm.schema, tm.rows.take(i as int), um, wm)[j],
            decreases n - i,
        {
            proof {
                assert(tm.rows.take(i as int + 1).drop_last() =~= tm.rows.take(i as int));
                assert(tm.rows.take(i as int + 1).last() == tm.rows[i as int]);
            }
            let ghost prev_pairs = upd_pairs(table_name@, tm.schema, tm.rows.take(i as int), um, wm);
            let row = &rows[i];
            let mut is_int = false;
            let mut pk: i64 = 0;
            if row.len() > 0 {
                match &row[0] {
                    DataValue::Integer(x) => {
                        is_int = true;
                        pk = *x;
                    },
                    _ => {},
                }
            }
            let selected = match &where_clause {
                Some(w) => executor::evaluate_where_clause(w, row, &cs),
                None => true,
            };
            if is_int && selected {
                let pk_str = crate::strutil::i64_string(pk);
                let key = KeyFormat::row(table_name.as_str(), 0, pk_str.as_str());
                // the row with every assignment applied
                let mut new_row = crate::deep::DeepClone::deep_clone(row);
                let nu = updates.len();
                let mut q: usize = 0;
                while q < nu
                    invariant
                        nu == updates.len(),
                        updates.deep_view() == um,
                        schema.deep_view() == tm.schema,
                        i < n,
                        n == rows.len(),
                        rows.deep_view() == tm.rows,
                        q <= nu,
                        new_row.deep_view() == apply_updates(
                            tm.rows[i as int],
                            tm.schema,
                            um.take(q as int),
                        ),
                    decreases nu - q,
                {
                    proof {
                        assert(um.take(q as int + 1).drop_last() =~= um.take(q as int));
                        assert(um.take(q as int + 1).last() == um[q as int]);
                    }
                    match crate::schema::find_col(&schema, updates[q].0.as_str()) {
                        Some(idx) => {
                            if idx < new_row.len() {
                                let ghost prevr = new_row.deep_view();
                                new_row.set(idx, updates[q].1.clone());
                                proof {
                                    assert(new_row.deep_view() =~= prevr.update(
                                        idx as int,
                                        um[q as int].1,
                                    ));
                                }
                            }
                        },
                        None => {},
                    }
                    q = q + 1;
                }
                proof {
                    assert(um.take(nu as int) =~= um);
                    assert(upd_pairs(table_name@, tm.schema, tm.rows.take(i as int + 1), um, wm)
                        =~= prev_pairs.push((key@, new_row.deep_view())));
                }
                keys.push(key);
                datas.push(new_row);
            } else {
                proof {
                    assert(upd_pairs(table_name@, tm.schema, tm.rows.take(i as int + 1), um, wm)
                        =~= prev_pairs);
                }
            }
            i = i + 1;
        }
        proof {
            assert(tm.rows.take(n as int) =~= tm.rows);
        }
        // first pass: any staged write that would conflict stops everything
        let np = keys.len();
        let mut c: usize = 0;
        while c < np
            invariant
                np == keys@.len(),
                *self == *old(self),
                old(self).wf(),
                old(self).active().contains_key(transaction_id),
                txm == old(self).active()[transaction_id],
                txm.tables.contains_key(table_name@),
                tm == txm.tables[table_name@],
                pairs == upd_pairs(table_name@, tm.schema, tm.rows, updates.deep_view(), where_clause.deep_view()),
                keys@.len() == pairs.len(),
                forall|j: int| 0 <= j < keys@.len() ==> (#[trigger] keys@[j]@) == pairs[j].0,
                c <= np,
                forall|j: int|
                    0 <= j < c ==> !has_live_conflict(
                        chain_of(old(self).mvcc().versions_map(), #[trigger] pairs[j].0),
                        transaction_id,
                        old(self).mvcc().active_map(),
                    ),
            decreases np - c,
        {
            if self.mvcc_manager.has_write_conflict(transaction_id, keys[c].as_str()) {
                proof {
                    assert(has_live_conflict(
                        chain_of(old(self).mvcc().versions_map(), pairs[c as int].0),
                        transaction_id,
                        old(self).mvcc().active_map(),
                    ));
                    lemma_wf_frame(*old(self), *self);
                    lemma_lock_wf_view(old(self).lock_manager, self.lock_manager);
                }
                return Err(ReefDBError::WriteConflict);
            }
            c = c + 1;
        }
        // second pass: stage every write
        let ghost rts = old(self).mvcc().active_map()[transaction_id];
        let mut w: usize = 0;
        while w < np
            invariant
                np == keys@.len(),
                old(self).wf(),
                old(self).active().contains_key(transaction_id),
                txm == old(self).active()[transaction_id],
                txm.tables.contains_key(table_name@),
                tm == txm.tables[table_name@],
                pairs == upd_pairs(table_name@, tm.schema, tm.rows, updates.deep_view(), where_clause.deep_view()),
                keys@.len() == pairs.len(),
                keys@.len() == datas.deep_view().len(),
                forall|j: int|
                    0 <= j < keys@.len() ==> (#[trigger] keys@[j]@, datas.deep_view()[j])
                        == pairs[j],
                w <= np,
                rts == old(self).mvcc().active_map()[transaction_id],
                self.mvcc_manager.wf(),
                self.mvcc_manager.counter() == old(self).mvcc().counter(),
                self.mvcc_manager.active_map() == old(self).mvcc().active_map(),
                self.mvcc_manager.versions_map() == apply_writes(
                    old(self).mvcc().versions_map(),
                    pairs.take(w as int),
                    transaction_id,
                    rts,
                ),
                forall|j: int|
                    w <= j < pairs.len() ==> !has_live_conflict(
                        chain_of(self.mvcc_manager.versions_map(), #[trigger] pairs[j].0),
                        transaction_id,
                        self.mvcc_manager.active_map(),
                    ),
                self.active_transactions == old(self).active_transactions,
                self.lock_manager == old(self).lock_manager,
                self.wal == old(self).wal,
                self.tables == old(self).tables,
                self.deadlock_detector == old(self).deadlock_detector,
                self.savepoint_manager == old(self).savepoint_manager,
                self.next_tx_id == old(self).next_tx_id,
                self.clock == old(self).clock,
                self.wal_base == old(self).wal_base,
                self.committed_ids == old(self).committed_ids,
                self.rolled_back_ids == old(self).rolled_back_ids,
            decreases np - w,
        {
            proof {
                assert(pairs.take(w as int + 1).drop_last() =~= pairs.take(w as int));
                assert(pairs.take(w as int + 1).last() == pairs[w as int]);
            }
            let ghost pre_m = self.mvcc_manager.versions_map();
            let key = keys[w].clone();
            let ghost keym = key@;
            let data = crate::deep::DeepClone::deep_clone(&datas[w]);
            proof {
                assert(keym == pairs[w as int].0);
                assert(old(self).active().contains_key(transaction_id));
                assert(old(self).mvcc().active_map().contains_key(transaction_id));
                assert(!has_live_conflict(
                    chain_of(self.mvcc_manager.versions_map(), pairs[w as int].0),
                    transaction_id,
                    self.mvcc_manager.active_map(),
                ));
            }
            match self.mvcc_manager.write(transaction_id, key, data) {
                Ok(_) => {},
                Err(_) => {
                    proof {
                        assert(false);
                    }
                    return Err(ReefDBError::WriteConflict);
                },
            }
            proof {
                let newv = VersionM {
                    tx_id: transaction_id,
                    begin_ts: rts,
                    end_ts: None,
                    committed: false,
                    commit_ts: None,
                    data: pairs[w as int].1,
                };
                assert(self.mvcc_manager.versions_map() == pre_m.insert(
                    pairs[w as int].0,
                    chain_of(pre_m, pairs[w as int].0).push(newv),
                ));
                assert(self.mvcc_manager.versions_map() =~= apply_writes(
                    old(self).mvcc().versions_map(),
                    pairs.take(w as int + 1),
                    transaction_id,
                    rts,
                ));
                assert forall|j: int|
                    w + 1 <= j < pairs.len() implies !has_live_conflict(
                    chain_of(self.mvcc_manager.versions_map(), #[trigger] pairs[j].0),
                    transaction_id,
                    self.mvcc_manager.active_map(),
                ) by {
                    if pairs[j].0 == pairs[w as int].0 {
                        crate::mvcc::lemma_push_own_no_conflict(
                            chain_of(pre_m, pairs[w as int].0),
                            newv,
                            transaction_id,
                            self.mvcc_manager.active_map(),
                        );
                    } else {
                        assert(chain_of(self.mvcc_manager.versions_map(), pairs[j].0) == chain_of(
                            pre_m,
                            pairs[j].0,
                        ));
                    }
                }
            }
            w = w + 1;
        }
        proof {
            assert(pairs.take(np as int) =~= pairs);
            lemma_lock_wf_view(old(self).lock_manager, self.lock_manager);
            assert forall|t: u64| #[trigger]
                self.active_transactions@.contains_key(t) implies old(self).active().contains_key(t) && self.active_transactions@[t].id == t
                && self.active_transactions@[t].state == TransactionState::Active by {
                assert(old(self).active().contains_key(t));
            }
            lemma_apply_writes_ids(
                old(self).mvcc().versions_map(),
                pairs,
                transaction_id,
                rts,
                self.next_tx_id,
            );
            lemma_wf_mod(*old(self), *self);
        }
        Ok(ReefDBResult::Update(np))
    }
}


/// Version-writer bounds carry over unchanged version maps.
proof fn lemma_versions_bound_same(a: TransactionManager, b: TransactionManager)
    requires
        a.wf(),
        b.mvcc().versions_map() == a.mvcc().versions_map(),
        b.next_id() == a.next_id(),
    ensures
        forall|k: Seq<char>, i: int|
            #![trigger b.mvcc().versions_map()[k][i]]
            b.mvcc().versions_map().contains_key(k) && 0 <= i < b.mvcc().versions_map()[k].len()
                ==> b.mvcc().versions_map()[k][i].tx_id < b.next_id(),
{
    assert forall|k: Seq<char>, i: int|
        #![trigger b.mvcc().versions_map()[k][i]]
        b.mvcc().versions_map().contains_key(k) && 0 <= i
            < b.mvcc().versions_map()[k].len() implies b.mvcc().versions_map()[k][i].tx_id
        < b.next_id() by {
        assert(a.mvcc().versions_map().contains_key(k));
        assert(a.mvcc().versions_map()[k][i] == b.mvcc().versions_map()[k][i]);
    }
}

/// Staged writes keep every version writer below the id bound.
proof fn lemma_apply_writes_ids(
    m: Map<Seq<char>, Seq<VersionM>>,
    pairs: Seq<(Seq<char>, Seq<Val>)>,
    tx: u64,
    rts: u64,
    bound: u64,
)
    requires
        tx < bound,
        forall|k: Seq<char>, i: int|
            #![trigger m[k][i]]
            m.contains_key(k) && 0 <= i < m[k].len() ==> m[k][i].tx_id < bound,
    ensures
        forall|k: Seq<char>, i: int|
            #![trigger apply_writes(m, pairs, tx, rts)[k][i]]
            apply_writes(m, pairs, tx, rts).contains_key(k) && 0 <= i < apply_writes(
                m,
                pairs,
                tx,
                rts,
            )[k].len() ==> apply_writes(m, pairs, tx, rts)[k][i].tx_id < bound,
    decreases pairs.len(),
{
    if pairs.len() > 0 {
        lemma_apply_writes_ids(m, pairs.drop_last(), tx, rts, bound);
        let prev = apply_writes(m, pairs.drop_last(), tx, rts);
        let cur = apply_writes(m, pairs, tx, rts);
        assert forall|k: Seq<char>, i: int|
            #![trigger cur[k][i]]
            cur.contains_key(k) && 0 <= i < cur[k].len() implies cur[k][i].tx_id < bound by {
            if k == pairs.last().0 {
                if i < chain_of(prev, k).len() {
                    assert(cur[k][i] == chain_of(prev, k)[i]);
                    if prev.contains_key(k) {
                        assert(prev[k][i].tx_id < bound);
                    }
                } else {
                    assert(cur[k][i].tx_id == tx);
                }
            } else {
                assert(prev.contains_key(k) && prev[k][i] == cur[k][i]);
            }
        }
    }
}

/// Manager health when only the live transactions and the version chains
/// changed, and the caller accounts for both.
proof fn lemma_wf_mod(a: TransactionManager, b: TransactionManager)
    requires
        a.wf(),
        b.lock_manager.wf(),
        b.mvcc_manager.wf(),
        b.mvcc().active_map() == a.mvcc().active_map(),
        b.wal_log() == a.wal_log(),
        b.wal_base() == a.wal_base(),
        b.committed() == a.committed(),
        b.rolled_back() == a.rolled_back(),
        b.next_id() == a.next_id(),
        forall|t: u64| #[trigger]
            b.active().contains_key(t) ==> a.active().contains_key(t) && b.active()[t].id == t
                && b.active()[t].state == TransactionState::Active,
        forall|k: Seq<char>, i: int|
            #![trigger b.mvcc().versions_map()[k][i]]
            b.mvcc().versions_map().contains_key(k) && 0 <= i < b.mvcc().versions_map()[k].len()
                ==> b.mvcc().versions_map()[k][i].tx_id < b.next_id(),
    ensures
        b.wf(),
{
    assert forall|t: u64| #[trigger]
        b.active().contains_key(t) implies b.active()[t].state == TransactionState::Active && t
        < b.next_tx_id && b.mvcc().active_map().contains_key(t) && !wal_has_commit(
        b.wal@.skip(b.wal_base@),
        t,
    ) by {
        assert(a.active().contains_key(t));
    }
    assert forall|t: u64| #[trigger]
        b.mvcc().active_map().contains_key(t) implies t < b.next_tx_id by {
        assert(a.mvcc().active_map().contains_key(t));
    }
    assert forall|i: int|
        b.wal_base@ <= i < b.wal@.len() implies (#[trigger] b.wal@[i]).transaction_id
        < b.next_tx_id by {
        assert(a.wal@[i] == b.wal@[i]);
    }
    assert forall|t: u64| #[trigger] b.committed().contains(t) implies wal_has_commit(
        b.wal@.skip(b.wal_base@),
        t,
    ) && t < b.next_tx_id && !b.active().contains_key(t) by {
        assert(a.committed().contains(t));
        if b.active().contains_key(t) {
            assert(a.active().contains_key(t));
        }
    }
    assert forall|t: u64| #[trigger] b.rolled_back().contains(t) implies !wal_has_commit(
        b.wal@.skip(b.wal_base@),
        t,
    ) && t < b.next_tx_id && !b.active().contains_key(t) by {
        assert(a.rolled_back().contains(t));
        if b.active().contains_key(t) {
            assert(a.active().contains_key(t));
        }
    }
}

/// A missing joined table at position `k` with every earlier one present
/// is the first missing one.
pub(crate) proof fn lemma_first_missing(
    tables: Map<Seq<char>, TableModel>,
    joins: Seq<crate::ast::JoinM>,
    k: int,
)
    requires
        0 <= k < joins.len(),
        !tables.contains_key(joins[k].table_ref.name),
        forall|q: int| 0 <= q < k ==> tables.contains_key(#[trigger] joins[q].table_ref.name),
    ensures
        first_missing(tables, joins) == Some(joins[k].table_ref.name),
    decreases k,
{
    if k > 0 {
        assert(joins.skip(1)[k - 1] == joins[k]);
        assert forall|q: int|
            0 <= q < k - 1 implies tables.contains_key(
            #[trigger] joins.skip(1)[q].table_ref.name,
        ) by {
            assert(joins.skip(1)[q] == joins[q + 1]);
        }
        lemma_first_missing(tables, joins.skip(1), k - 1);
    }
}

/// With every joined table present, nothing is missing.
pub(crate) proof fn lemma_first_missing_none(tables: Map<Seq<char>, TableModel>, joins: Seq<crate::ast::JoinM>)
    requires
        forall|q: int|
            0 <= q < joins.len() ==> tables.contains_key(#[trigger] joins[q].table_ref.name),
    ensures
        first_missing(tables, joins) is None,
    decreases joins.len(),
{
    if joins.len() > 0 {
        assert forall|q: int|
            0 <= q < joins.skip(1).len() implies tables.contains_key(
            #[trigger] joins.skip(1)[q].table_ref.name,
        ) by {
            assert(joins.skip(1)[q] == joins[q + 1]);
        }
        lemma_first_missing_none(tables, joins.skip(1));
    }
}

impl TransactionManager {
    /// Runs a read-only SELECT against the globally newest committed
    /// state, as the system reader: the published tables overlaid with the
    /// freshest committed MVCC versions. Joins are not consulted on this
    /// path, and any other statement is rejected.
    pub fn execute_statement_committed(&mut self, stmt: Statement) -> (r: Result<
        ReefDBResult,
        ReefDBError,
    >)
        requires
            old(self).wf(),
        ensures
            final(self).wf(),
            *final(self) == *old(self),
            match stmt.deep_view() {
                StatementM::Select(sel) => {
                    if !old(self).db().contains_key(sel.table.name) {
                        r matches Err(e) && e.deep_view() == ErrM::TableNotFound(sel.table.name)
                    } else {
                        r matches Ok(res) && res.deep_view() matches ResultM::Select(q) && q.rows
                            == spec_select(
                            old(self).db(),
                            old(self).mvcc(),
                            0,
                            IsolationLevel::RepeatableRead,
                            crate::ast::SelectM { joins: Seq::empty(), ..sel },
                        ) && q.columns == crate::result::proj_infos(
                            old(self).db()[sel.table.name].schema,
                            sel.columns,
                        )
                    }
                },
                _ => r matches Err(e) && e.deep_view() matches ErrM::InvalidOperation(_),
            },
    {
        match stmt {
            Statement::Select(SelectStatement::FromTable(
                table_ref,
                columns,
                where_clause,
                _joins,
                order_by,
            )) => {
                let (base_schema, base_rows): (
                    Vec<crate::value::ColumnDef>,
                    Vec<Vec<DataValue>>,
                ) = match self.tables.get_table(table_ref.name.as_str()) {
                    Some(t) => (t.schema.deep_clone(), t.rows.deep_clone()),
                    None => {
                        return Err(ReefDBError::TableNotFound(table_ref.name));
                    },
                };
                let ghost rts_spec = sel_rts(old(self).mvcc(), 0, IsolationLevel::RepeatableRead);
                let ghost rm = base_rows.deep_view();
                let mut orows: Vec<Vec<DataValue>> = Vec::new();
                let n = base_rows.len();
                let mut i: usize = 0;
                while i < n
                    invariant
                        n == base_rows.len(),
                        base_rows.deep_view() == rm,
                        *self == *old(self),
                        rts_spec == sel_rts(old(self).mvcc(), 0, IsolationLevel::RepeatableRead),
                        i <= n,
                        orows.deep_view().len() == i,
                        forall|j: int|
                            0 <= j < i ==> orows.deep_view()[j] == overlay_row(
                                old(self).mvcc(),
                                0,
                                rts_spec,
                                table_ref.name@,
                                rm[j],
                            ),
                    decreases n - i,
                {
                    let row = &base_rows[i];
                    let mut oned: Option<Vec<DataValue>> = None;
                    if row.len() > 0 {
                        match &row[0] {
                            DataValue::Integer(pk) => {
                                let pk_str = crate::strutil::i64_string(*pk);
                                let key = KeyFormat::row(
                                    table_ref.name.as_str(),
                                    0,
                                    pk_str.as_str(),
                                );
                                proof {
                                    assert(key@ == spec_row_key(
                                        table_ref.name@,
                                        0,
                                        int_str(*pk as int),
                                    ));
                                    assert(overlay_key(table_ref.name@, rm[i as int]) == Some(
                                        key@,
                                    ));
                                }
                                oned = self.mvcc_manager.read_committed(0, key.as_str());
                            },
                            _ => {},
                        }
                    }
                    let ghost prev = orows.deep_view();
                    match oned {
                        Some(d) => {
                            orows.push(d);
                        },
                        None => {
                            orows.push(crate::deep::DeepClone::deep_clone(row));
                        },
                    }
                    proof {
                        assert forall|j: int|
                            0 <= j < i + 1 implies orows.deep_view()[j] == overlay_row(
                            old(self).mvcc(),
                            0,
                            rts_spec,
                            table_ref.name@,
                            rm[j],
                        ) by {
                            if j < i {
                                assert(orows.deep_view()[j] == prev[j]);
                            }
                        }
                    }
                    i = i + 1;
                }
                proof {
                    assert(orows.deep_view() =~= overlay_rows(
                        old(self).mvcc(),
                        0,
                        rts_spec,
                        table_ref.name@,
                        rm,
                    ));
                }
                let no_joins: Vec<JoinData> = Vec::new();
                proof {
                    assert(no_joins.deep_view() =~= Seq::<JoinDataM>::empty());
                    assert(joins_data(old(self).db(), Seq::<crate::ast::JoinM>::empty())
                        =~= Seq::<JoinDataM>::empty());
                }
                let cs = executor::build_cs(table_ref.name.as_str(), &base_schema, &no_joins);
                let gathered = executor::gather_results(
                    &orows,
                    table_ref.name.as_str(),
                    &base_schema,
                    &no_joins,
                    &where_clause,
                    &cs,
                );
                let sorted = executor::sort_results(&gathered, &order_by, &cs);
                let projected = executor::project_results(sorted, &columns, &cs);
                let infos = ColumnInfo::from_schema_and_columns(
                    &base_schema,
                    &columns,
                    table_ref.name.as_str(),
                );
                Ok(ReefDBResult::Select(QueryResult::with_columns(projected, infos)))
            },
            _ => Err(
                ReefDBError::InvalidOperation(
                    "only SELECT reads the committed state".to_owned(),
                ),
            ),
        }
    }

    /// Executes a statement with the locking discipline applied first:
    /// writes (INSERT, UPDATE, DELETE, CREATE) take an Exclusive lock on
    /// their table (running deadlock detection), then the statement runs
    /// as `execute_statement` does. Reads take no lock.
    pub fn execute_statement_internal(&mut self, transaction_id: u64, stmt: Statement) -> (r:
        Result<ReefDBResult, ReefDBError>)
        requires
            old(self).wf(),
        ensures
            final(self).wf(),
            final(self).db() == old(self).db(),
            final(self).wal_log() == old(self).wal_log(),
            final(self).wal_base() == old(self).wal_base(),
            final(self).savepoints() == old(self).savepoints(),
            final(self).committed() == old(self).committed(),
            final(self).rolled_back() == old(self).rolled_back(),
            final(self).next_id() == old(self).next_id(),
            final(self).mvcc().counter() == old(self).mvcc().counter(),
            final(self).mvcc().active_map() == old(self).mvcc().active_map(),
            !old(self).active().contains_key(transaction_id) ==> {
                &&& r matches Err(e) && e.deep_view() == ErrM::TransactionNotFound(transaction_id)
                &&& final(self).active() == old(self).active()
                &&& final(self).locks() == old(self).locks()
                &&& final(self).edges() == old(self).edges()
                &&& final(self).mvcc().versions_map() == old(self).mvcc().versions_map()
            },
            old(self).active().contains_key(transaction_id) ==> match stmt_lock_table(
                stmt.deep_view(),
            ) {
                None => {
                    &&& final(self).locks() == old(self).locks()
                    &&& final(self).edges() == old(self).edges()
                    &&& exec_stmt_post(*old(self), *final(self), transaction_id, stmt.deep_view(), r)
                },
                Some(t) => {
                    &&& final(self).edges() == old(self).edges().filter(
                        not_incident(transaction_id),
                    )
                    &&& if lock_victim(old(self).locks(), old(self).edges(), transaction_id, t) {
                        &&& r matches Err(e) && e.deep_view() == ErrM::Deadlock
                        &&& final(self).locks() == old(self).locks()
                        &&& final(self).active() == old(self).active()
                        &&& final(self).mvcc().versions_map() == old(self).mvcc().versions_map()
                    } else {
                        match acquire_result(
                            old(self).locks(),
                            transaction_id,
                            t,
                            LockType::Exclusive,
                        ) {
                            Some(m2) => final(self).locks() == m2 && exec_stmt_post(
                                *old(self),
                                *final(self),
                                transaction_id,
                                stmt.deep_view(),
                                r,
                            ),
                            None => {
                                &&& final(self).locks() == old(self).locks()
                                &&& final(self).active() == old(self).active()
                                &&& final(self).mvcc().versions_map() == old(
                                    self,
                                ).mvcc().versions_map()
                                &&& r matches Err(e) && e.deep_view() == ErrM::LockConflict(t)
                            },
                        }
                    }
                },
            },
    {
        let ghost sm0 = stmt.deep_view();
        if !self.active_transactions.contains(transaction_id) {
            return Err(ReefDBError::TransactionNotFound(transaction_id));
        }
        let lock_table: Option<String> = match &stmt {
            Statement::Insert(crate::ast::InsertStatement::IntoTable(name, _)) => Some(
                name.clone(),
            ),
            Statement::Update(UpdateStatement::UpdateTable(name, _, _)) => Some(name.clone()),
            Statement::Delete(crate::ast::DeleteStatement::FromTable(name, _)) => Some(
                name.clone(),
            ),
            Statement::Create(crate::ast::CreateStatement::Table(name, _)) => Some(name.clone()),
            _ => None,
        };
        proof {
            match stmt_lock_table(sm0) {
                Some(t) => {
                    assert(lock_table matches Some(n) && n@ == t);
                },
                None => {
                    assert(lock_table is None);
                },
            }
        }
        match lock_table {
            Some(t) => {
                match self.acquire_lock(transaction_id, t.as_str(), LockType::Exclusive) {
                    Ok(_) => {},
                    Err(e) => {
                        return Err(e);
                    },
                }
            },
            None => {},
        }
        let ghost mid = *self;
        let r = self.execute_statement(transaction_id, stmt);
        proof {
            assert(mid.active() == old(self).active());
            assert(mid.mvcc() == old(self).mvcc());
            assert(exec_stmt_post(mid, *self, transaction_id, sm0, r));
            lemma_exec_post_pre(mid, *old(self), *self, transaction_id, sm0, r);
        }
        r
    }
}

/// `exec_stmt_post` depends on the pre-state only through its live
/// transactions and MVCC state.
proof fn lemma_exec_post_pre(
    a: TransactionManager,
    a2: TransactionManager,
    b: TransactionManager,
    tx: u64,
    s: StatementM,
    r: Result<ReefDBResult, ReefDBError>,
)
    requires
        exec_stmt_post(a, b, tx, s, r),
        a2.active() == a.active(),
        a2.mvcc() == a.mvcc(),
    ensures
        exec_stmt_post(a2, b, tx, s, r),
{
}


impl TransactionManager {
    /// Read-timestamp uniqueness at the top level: under a healthy
    /// manager, distinct live transactions read at distinct MVCC
    /// timestamps.
    pub proof fn lemma_read_timestamps_unique(self, t1: u64, t2: u64)
        requires
            self.wf(),
            self.mvcc().active_map().contains_key(t1),
            self.mvcc().active_map().contains_key(t2),
            t1 != t2,
        ensures
            self.mvcc().active_map()[t1] != self.mvcc().active_map()[t2],
    {
        crate::mvcc::lemma_read_ts_unique(self.mvcc(), t1, t2);
    }

    /// The locking discipline at the top level: under a healthy manager,
    /// a table's lock has distinct holders, at least one, and an
    /// Exclusive lock exactly one; Shared and Exclusive never coexist on
    /// one table, since a record carries a single mode.
    pub proof fn lemma_lock_table_health(self, t: Seq<char>)
        requires
            self.wf(),
            self.locks().contains_key(t),
        ensures
            self.locks()[t].holders.no_duplicates(),
            self.locks()[t].holders.len() >= 1,
            self.locks()[t].mode == LockType::Exclusive ==> self.locks()[t].holders.len() == 1,
    {
    }

    /// The log discipline: every transaction this manager committed has a
    /// `Commit` entry among the manager's own log entries, and no
    /// rolled-back or live transaction has one.
    pub proof fn lemma_wal_commit_discipline(self, t: u64)
        requires
            self.wf(),
        ensures
            self.committed().contains(t) ==> wal_has_commit(
                self.wal_log().skip(self.wal_base()),
                t,
            ),
            self.rolled_back().contains(t) ==> !wal_has_commit(
                self.wal_log().skip(self.wal_base()),
                t,
            ),
            self.active().contains_key(t) ==> !wal_has_commit(
                self.wal_log().skip(self.wal_base()),
                t,
            ),
    {
    }
}

/// Without ORDER BY a SELECT keeps base-row order: the sort vanishes and
/// the result is the joined, filtered rows exactly as gathered, row by
/// row in insertion order.
pub proof fn lemma_select_keeps_row_order(
    tables: Map<Seq<char>, TableModel>,
    m: MVCCManager,
    tx: u64,
    iso: IsolationLevel,
    sel: crate::ast::SelectM,
)
    requires
        sel.order_by == Seq::<crate::ast::OrderByM>::empty(),
    ensures
        ({
            let t = tables[sel.table.name];
            let jds = joins_data(tables, sel.joins);
            let cs = executor::full_cs(sel.table.name, t.schema, jds);
            spec_select(tables, m, tx, iso, sel) == executor::project_results_spec(
                executor::gather_rows(
                    overlay_rows(m, tx, sel_rts(m, tx, iso), sel.table.name, t.rows),
                    sel.table.name,
                    t.schema,
                    jds,
                    sel.where_clause,
                    cs,
                ),
                sel.columns,
                cs,
                crate::result::any_star(sel.columns),
            )
        }),
{
    let t = tables[sel.table.name];
    let jds = joins_data(tables, sel.joins);
    let cs = executor::full_cs(sel.table.name, t.schema, jds);
    executor::lemma_sort_no_keys(
        cs,
        executor::gather_rows(
            overlay_rows(m, tx, sel_rts(m, tx, iso), sel.table.name, t.rows),
            sel.table.name,
            t.schema,
            jds,
            sel.where_clause,
            cs,
        ),
    );
}

/// Rolling back to a savepoint and then committing publishes exactly the
/// state captured at the savepoint: the restore makes the working copy
/// the snapshot, commit publishes the working copy, and nothing newer
/// survives.
pub proof fn lemma_savepoint_then_commit(
    restored_working: Map<Seq<char>, TableModel>,
    snapshot: Map<Seq<char>, TableModel>,
    published: Map<Seq<char>, TableModel>,
)
    requires
        restored_working == snapshot,
        published == restored_working,
    ensures
        published == snapshot,
{
}

/// Creating a savepoint from the working copy and rolling back to it is a
/// no-op on the working copy: the savepoint found is the one just
/// created, it holds the working copy, and restoring it changes
/// nothing.
pub proof fn lemma_savepoint_roundtrip(
    l: Seq<SavepointM>,
    n: Seq<char>,
    w: Map<Seq<char>, TableModel>,
)
    ensures
        sp_pos(splist_create(l, n, w), n) == Some(
            l.filter(crate::savepoint::sp_other(n)).len() as int,
        ),
        splist_create(l, n, w)[sp_pos(splist_create(l, n, w), n).unwrap()].state == w,
{
    let f = l.filter(crate::savepoint::sp_other(n));
    let c = splist_create(l, n, w);
    assert forall|j: int| 0 <= j < f.len() implies c[j].name != n by {
        l.lemma_filter_pred(crate::savepoint::sp_other(n), j);
        assert(c[j] == f[j]);
    }
    assert(c[f.len() as int].name == n);
    crate::savepoint::lemma_sp_pos_found(c, n, f.len() as int);
}

/// From any other transaction's view, staged writes are invisible until
/// commit: the visible version of every key is unchanged by them.
pub proof fn lemma_staged_writes_invisible(
    m: Map<Seq<char>, Seq<VersionM>>,
    pairs: Seq<(Seq<char>, Seq<Val>)>,
    tx: u64,
    rts: u64,
    reader: u64,
    reader_rts: u64,
    key: Seq<char>,
)
    requires
        reader != tx,
    ensures
        best_visible(chain_of(apply_writes(m, pairs, tx, rts), key), reader, reader_rts)
            == best_visible(chain_of(m, key), reader, reader_rts),
    decreases pairs.len(),
{
    if pairs.len() > 0 {
        lemma_staged_writes_invisible(m, pairs.drop_last(), tx, rts, reader, reader_rts, key);
        let prev = apply_writes(m, pairs.drop_last(), tx, rts);
        let k0 = pairs.last().0;
        let v = VersionM {
            tx_id: tx,
            begin_ts: rts,
            end_ts: None,
            committed: false,
            commit_ts: None,
            data: pairs.last().1,
        };
        if key == k0 {
            assert(chain_of(apply_writes(m, pairs, tx, rts), key) == chain_of(prev, key).push(v));
            crate::mvcc::lemma_push_invisible(chain_of(prev, key), v, reader, reader_rts);
        } else {
            assert(chain_of(apply_writes(m, pairs, tx, rts), key) == chain_of(prev, key));
        }
    }
}

} // verus!
