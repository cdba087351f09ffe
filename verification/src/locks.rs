//! Table-granularity shared/exclusive locking.
//!
//! Conflicts are reported synchronously; no blocking happens here. The
//! lock table keeps, per table, the holding transactions and the mode.

use vstd::prelude::*;
use crate::error::ReefDBError;
use crate::kv::StrMap;

verus! {

/// Lock modes: many Shared holders, or one Exclusive holder.
#[derive(Clone, Copy, PartialEq, Eq, Structural, Debug)]
pub enum LockType {
    Shared,
    Exclusive,
}

impl DeepView for LockType {
    type V = LockType;

    open spec fn deep_view(&self) -> LockType {
        *self
    }
}

/// The model of one table's lock record.
pub struct LockRecM {
    pub mode: LockType,
    pub holders: Seq<u64>,
}

struct LockRec {
    mode: LockType,
    holders: Vec<u64>,
}

impl DeepView for LockRec {
    type V = LockRecM;

    closed spec fn deep_view(&self) -> LockRecM {
        LockRecM { mode: self.mode, holders: self.holders@ }
    }
}

/// A healthy lock table: every record healthy.
pub open spec fn locks_wf(m: Map<Seq<char>, LockRecM>) -> bool {
    forall|t: Seq<char>| #[trigger] m.contains_key(t) ==> rec_wf(m[t])
}

/// A healthy lock record: holders distinct and present, and an Exclusive
/// record held by exactly one transaction.
pub open spec fn rec_wf(r: LockRecM) -> bool {
    &&& r.holders.no_duplicates()
    &&& r.holders.len() >= 1
    &&& r.mode == LockType::Exclusive ==> r.holders.len() == 1
}

/// The holders of a table's lock, empty when unlocked.
pub open spec fn spec_holders(m: Map<Seq<char>, LockRecM>, t: Seq<char>) -> Seq<u64> {
    if m.contains_key(t) {
        m[t].holders
    } else {
        Seq::empty()
    }
}

/// Whether `tx` holds a lock on `t`.
pub open spec fn spec_has_lock(m: Map<Seq<char>, LockRecM>, tx: u64, t: Seq<char>) -> bool {
    spec_holders(m, t).contains(tx)
}

/// The outcome of an acquisition request: the new lock table on success,
/// `None` on a conflict.
///
/// A request is reentrant (holding at least the requested mode is a no-op),
/// Shared–Shared coexists across transactions, a sole Shared holder may
/// upgrade to Exclusive, and every other cross-transaction combination
/// conflicts.
pub open spec fn acquire_result(
    m: Map<Seq<char>, LockRecM>,
    tx: u64,
    t: Seq<char>,
    mode: LockType,
) -> Option<Map<Seq<char>, LockRecM>> {
    if !m.contains_key(t) {
        Some(m.insert(t, LockRecM { mode, holders: seq![tx] }))
    } else {
        let r = m[t];
        if r.holders.contains(tx) {
            if mode == LockType::Shared || r.mode == LockType::Exclusive {
                Some(m)
            } else if r.holders.len() == 1 {
                Some(m.insert(t, LockRecM { mode: LockType::Exclusive, holders: r.holders }))
            } else {
                None
            }
        } else {
            if mode == LockType::Shared && r.mode == LockType::Shared {
                Some(m.insert(t, LockRecM { mode: LockType::Shared, holders: r.holders.push(tx) }))
            } else {
                None
            }
        }
    }
}

/// Keeping every holder other than `tx`.
pub open spec fn not_tx(tx: u64) -> spec_fn(u64) -> bool {
    |h: u64| h != tx
}

/// A lock record after `tx` releases: `tx` leaves the holder list.
pub open spec fn released_rec(r: LockRecM, tx: u64) -> LockRecM {
    LockRecM { mode: r.mode, holders: r.holders.filter(not_tx(tx)) }
}

/// The per-table lock table.
pub struct LockManager {
    locks: StrMap<LockRec>,
}

impl View for LockManager {
    type V = Map<Seq<char>, LockRecM>;

    closed spec fn view(&self) -> Map<Seq<char>, LockRecM> {
        self.locks@
    }
}

/// An element is kept by `filter` exactly when it is present and satisfies
/// the predicate.
proof fn lemma_filter_elem(s: Seq<u64>, pred: spec_fn(u64) -> bool, x: u64)
    ensures
        s.filter(pred).contains(x) <==> (s.contains(x) && pred(x)),
    decreases s.len(),
{
    reveal(Seq::filter);
    if s.len() > 0 {
        lemma_filter_elem(s.drop_last(), pred, x);
        if s.contains(x) && pred(x) {
            let i = choose|i: int| 0 <= i < s.len() && s[i] == x;
            if i < s.len() - 1 {
                assert(s.drop_last()[i] == x);
                assert(s.drop_last().contains(x));
            }
        }
        if s.drop_last().contains(x) {
            let i = choose|i: int| 0 <= i < s.drop_last().len() && s.drop_last()[i] == x;
            assert(s[i] == x);
        }
        if s.filter(pred).contains(x) && !s.drop_last().filter(pred).contains(x) {
            let sub = s.drop_last().filter(pred);
            let i = choose|i: int| 0 <= i < s.filter(pred).len() && s.filter(pred)[i] == x;
            if pred(s.last()) {
                if i < sub.len() {
                    assert(sub[i] == x);
                }
                assert(x == s.last());
            }
        }
    }
}

/// Filtering keeps a duplicate-free sequence duplicate-free.
proof fn lemma_filter_no_dup(s: Seq<u64>, pred: spec_fn(u64) -> bool)
    requires
        s.no_duplicates(),
    ensures
        s.filter(pred).no_duplicates(),
    decreases s.len(),
{
    reveal(Seq::filter);
    if s.len() > 0 {
        assert(s.drop_last().no_duplicates()) by {
            assert forall|i: int, j: int|
                0 <= i < s.drop_last().len() && 0 <= j < s.drop_last().len() && i != j
                    implies s.drop_last()[i] != s.drop_last()[j] by {
                assert(s[i] == s.drop_last()[i]);
                assert(s[j] == s.drop_last()[j]);
            }
        }
        lemma_filter_no_dup(s.drop_last(), pred);
        if pred(s.last()) {
            let sub = s.drop_last().filter(pred);
            assert(!s.drop_last().contains(s.last())) by {
                if s.drop_last().contains(s.last()) {
                    let i = choose|i: int|
                        0 <= i < s.drop_last().len() && s.drop_last()[i] == s.last();
                    assert(s[i] == s[s.len() - 1]);
                }
            }
            lemma_filter_elem(s.drop_last(), pred, s.last());
            assert(!sub.contains(s.last()));
            let t = sub.push(s.last());
            assert(t.no_duplicates()) by {
                assert forall|i: int, j: int|
                    0 <= i < t.len() && 0 <= j < t.len() && i != j implies t[i] != t[j] by {
                    if i < sub.len() && j < sub.len() {
                        assert(sub[i] != sub[j]);
                    } else if i < sub.len() {
                        assert(sub[i] == t[i]);
                        if t[i] == t[j] {
                            assert(sub.contains(t[j]));
                        }
                    } else {
                        assert(sub[j] == t[j]);
                        if t[i] == t[j] {
                            assert(sub.contains(t[i]));
                        }
                    }
                }
            }
        }
    }
}

fn vec_contains_u64(v: &Vec<u64>, x: u64) -> (r: bool)
    ensures
        r == v@.contains(x),
{
    let n = v.len();
    let mut i: usize = 0;
    while i < n
        invariant
            n == v.len(),
            i <= n,
            forall|j: int| 0 <= j < i ==> v@[j] != x,
        decreases n - i,
    {
        if v[i] == x {
            return true;
        }
        i = i + 1;
    }
    false
}

fn filter_out_u64(v: &Vec<u64>, x: u64) -> (r: Vec<u64>)
    ensures
        r@ == v@.filter(not_tx(x)),
{
    let mut out: Vec<u64> = Vec::new();
    let n = v.len();
    let mut i: usize = 0;
    while i < n
        invariant
            n == v.len(),
            i <= n,
            out@ == v@.take(i as int).filter(not_tx(x)),
        decreases n - i,
    {
        proof {
            reveal(Seq::filter);
            let s1 = v@.take(i as int + 1);
            assert(s1.drop_last() =~= v@.take(i as int));
            assert(s1.last() == v@[i as int]);
        }
        if v[i] != x {
            out.push(v[i]);
        }
        i = i + 1;
    }
    proof {
        assert(v@.take(n as int) =~= v@);
    }
    out
}

impl LockManager {
    /// Every lock record in the table is healthy: distinct holders, at
    /// least one of them, and an Exclusive record held by exactly one.
    pub open spec fn wf(self) -> bool {
        locks_wf(self@)
    }

    /// An empty lock table.
    pub fn new() -> (r: Self)
        ensures
            r@ == Map::<Seq<char>, LockRecM>::empty(),
            r.wf(),
    {
        LockManager { locks: StrMap::new() }
    }

    /// Requests a lock; the lock table changes exactly as `acquire_result`
    /// says, and a conflict reports `LockConflict` and leaves it unchanged.
    pub fn acquire_lock(&mut self, tx_id: u64, table_name: &str, lock_type: LockType) -> (r: Result<
        (),
        ReefDBError,
    >)
        requires
            old(self).wf(),
        ensures
            final(self).wf(),
            match acquire_result(old(self)@, tx_id, table_name@, lock_type) {
                Some(m2) => r is Ok && final(self)@ == m2,
                None => final(self)@ == old(self)@ && match r {
                    Ok(_) => false,
                    Err(e) => e.deep_view() == crate::error::ErrM::LockConflict(table_name@),
                },
            },
    {
        match self.locks.take(table_name) {
            None => {
                let rec = LockRec { mode: lock_type, holders: vec![tx_id] };
                proof {
                    assert(rec.deep_view().holders =~= seq![tx_id]);
                    assert(rec_wf(rec.deep_view()));
                }
                self.locks.upsert(table_name.to_owned(), rec);
                proof {
                    assert(old(self)@.remove(table_name@).insert(table_name@, rec.deep_view())
                        =~= old(self)@.insert(table_name@, rec.deep_view()));
                }
                Ok(())
            },
            Some(mut rec) => {
                let ghost orig_rec = rec.deep_view();
                let holds = vec_contains_u64(&rec.holders, tx_id);
                if holds {
                    if matches!(lock_type, LockType::Shared) || matches!(
                        rec.mode,
                        LockType::Exclusive,
                    ) {
                        self.locks.upsert(table_name.to_owned(), rec);
                        proof {
                            assert(old(self)@.remove(table_name@).insert(table_name@, orig_rec)
                                =~= old(self)@);
                        }
                        Ok(())
                    } else if rec.holders.len() == 1 {
                        rec.mode = LockType::Exclusive;
                        self.locks.upsert(table_name.to_owned(), rec);
                        proof {
                            assert(old(self)@.remove(table_name@).insert(
                                table_name@,
                                LockRecM { mode: LockType::Exclusive, holders: orig_rec.holders },
                            ) =~= old(self)@.insert(
                                table_name@,
                                LockRecM { mode: LockType::Exclusive, holders: orig_rec.holders },
                            ));
                        }
                        Ok(())
                    } else {
                        self.locks.upsert(table_name.to_owned(), rec);
                        proof {
                            assert(old(self)@.remove(table_name@).insert(table_name@, orig_rec)
                                =~= old(self)@);
                        }
                        Err(ReefDBError::LockConflict(table_name.to_owned()))
                    }
                } else {
                    if matches!(lock_type, LockType::Shared) && matches!(
                        rec.mode,
                        LockType::Shared,
                    ) {
                        rec.holders.push(tx_id);
                        proof {
                            assert(rec.deep_view().holders =~= orig_rec.holders.push(tx_id));
                            assert(rec_wf(rec.deep_view()));
                        }
                        self.locks.upsert(table_name.to_owned(), rec);
                        proof {
                            assert(old(self)@.remove(table_name@).insert(
                                table_name@,
                                LockRecM {
                                    mode: LockType::Shared,
                                    holders: orig_rec.holders.push(tx_id),
                                },
                            ) =~= old(self)@.insert(
                                table_name@,
                                LockRecM {
                                    mode: LockType::Shared,
                                    holders: orig_rec.holders.push(tx_id),
                                },
                            ));
                        }
                        Ok(())
                    } else {
                        self.locks.upsert(table_name.to_owned(), rec);
                        proof {
                            assert(old(self)@.remove(table_name@).insert(table_name@, orig_rec)
                                =~= old(self)@);
                        }
                        Err(ReefDBError::LockConflict(table_name.to_owned()))
                    }
                }
            },
        }
    }

    /// Whether `tx_id` holds a lock on the named table.
    pub fn has_lock(&self, tx_id: u64, table_name: &str) -> (r: bool)
        ensures
            r == spec_has_lock(self@, tx_id, table_name@),
    {
        match self.locks.get(table_name) {
            Some(rec) => vec_contains_u64(&rec.holders, tx_id),
            None => false,
        }
    }

    /// The transactions holding a lock on the named table.
    pub fn get_lock_holders(&self, table_name: &str) -> (r: Vec<u64>)
        ensures
            r@ == spec_holders(self@, table_name@),
    {
        match self.locks.get(table_name) {
            Some(rec) => {
                let mut out: Vec<u64> = Vec::new();
                let n = rec.holders.len();
                let mut i: usize = 0;
                while i < n
                    invariant
                        n == rec.holders.len(),
                        i <= n,
                        out@ == rec.holders@.take(i as int),
                    decreases n - i,
                {
                    out.push(rec.holders[i]);
                    proof {
                        assert(out@ =~= rec.holders@.take(i as int + 1));
                    }
                    i = i + 1;
                }
                proof {
                    assert(rec.holders@.take(n as int) =~= rec.holders@);
                }
                out
            },
            None => Vec::new(),
        }
    }

    /// Releases every lock `tx_id` holds. A record loses `tx_id` from its
    /// holders and disappears when no holder is left; other records stay.
    pub fn release_transaction_locks(&mut self, tx_id: u64)
        requires
            old(self).wf(),
        ensures
            final(self).wf(),
            forall|t: Seq<char>| #[trigger]
                final(self)@.contains_key(t) <==> (old(self)@.contains_key(t) && released_rec(
                    old(self)@[t],
                    tx_id,
                ).holders.len() > 0),
            forall|t: Seq<char>| #[trigger]
                final(self)@.contains_key(t) ==> final(self)@[t] == released_rec(
                    old(self)@[t],
                    tx_id,
                ),
    {
        let keys = self.locks.keys_vec();
        let nk = keys.len();
        let mut i: usize = 0;
        while i < nk
            invariant
                nk == keys@.len(),
                i <= nk,
                forall|a: int, b: int| 0 <= a < b < keys@.len() ==> keys@[a]@ != keys@[b]@,
                forall|j: int| 0 <= j < keys@.len() ==> old(self)@.contains_key(#[trigger] keys@[j]@),
                forall|k: Seq<char>| old(self)@.contains_key(k) ==> exists|j: int|
                    0 <= j < keys@.len() && keys@[j]@ == k,
                forall|t: Seq<char>|
                    (old(self)@.contains_key(t) && !(exists|j: int|
                        0 <= j < i && keys@[j]@ == t)) ==> #[trigger] self@.contains_key(t)
                        && self@[t] == old(self)@[t],
                forall|t: Seq<char>|
                    (old(self)@.contains_key(t) && (exists|j: int| 0 <= j < i && keys@[j]@ == t))
                        ==> (#[trigger] self@.contains_key(t) <==> released_rec(
                        old(self)@[t],
                        tx_id,
                    ).holders.len() > 0),
                forall|t: Seq<char>|
                    (old(self)@.contains_key(t) && (exists|j: int| 0 <= j < i && keys@[j]@ == t)
                        && self@.contains_key(t)) ==> self@[t] == released_rec(
                        #[trigger] old(self)@[t],
                        tx_id,
                    ),
                forall|t: Seq<char>| !old(self)@.contains_key(t) ==> !(#[trigger]
                self@.contains_key(t)),
            decreases nk - i,
        {
            let ghost t = keys@[i as int]@;
            proof {
                assert(old(self)@.contains_key(t));
                assert(!(exists|j: int| 0 <= j < i && keys@[j]@ == t));
                assert(self@.contains_key(t));
            }
            let ghost pre = self@;
            let ghost rel = released_rec(old(self)@[t], tx_id);
            match self.locks.take(keys[i].as_str()) {
                Some(rec) => {
                    proof {
                        assert(rec.deep_view() == old(self)@[t]);
                    }
                    let kept = filter_out_u64(&rec.holders, tx_id);
                    proof {
                        assert(kept@ == rel.holders);
                    }
                    if kept.len() > 0 {
                        let newrec = LockRec { mode: rec.mode, holders: kept };
                        proof {
                            assert(newrec.deep_view() == rel);
                        }
                        self.locks.upsert(keys[i].clone(), newrec);
                        proof {
                            assert(self@ == pre.remove(t).insert(t, rel));
                        }
                    } else {
                        proof {
                            assert(self@ == pre.remove(t));
                            assert(rel.holders.len() == 0);
                        }
                    }
                },
                None => {
                    proof {
                        assert(false);
                    }
                },
            }
            proof {
                assert(keys@[i as int]@ == t);
                assert forall|t2: Seq<char>|
                    (old(self)@.contains_key(t2) && !(exists|j: int|
                        0 <= j < i + 1 && keys@[j]@ == t2)) implies self@.contains_key(t2)
                        && self@[t2] == old(self)@[t2] by {
                    assert(t2 != t);
                    assert(!(exists|j: int| 0 <= j < i && keys@[j]@ == t2));
                    assert(pre.contains_key(t2) && pre[t2] == old(self)@[t2]);
                }
                assert forall|t2: Seq<char>|
                    (old(self)@.contains_key(t2) && (exists|j: int|
                        0 <= j < i + 1 && keys@[j]@ == t2)) implies (self@.contains_key(t2)
                        <==> released_rec(old(self)@[t2], tx_id).holders.len() > 0) by {
                    if t2 != t {
                        assert(exists|j: int| 0 <= j < i && keys@[j]@ == t2);
                    }
                }
                assert forall|t2: Seq<char>|
                    (old(self)@.contains_key(t2) && (exists|j: int|
                        0 <= j < i + 1 && keys@[j]@ == t2) && self@.contains_key(t2))
                        implies self@[t2] == released_rec(old(self)@[t2], tx_id) by {
                    if t2 != t {
                        assert(exists|j: int| 0 <= j < i && keys@[j]@ == t2);
                    }
                }
            }
            i = i + 1;
        }
        proof {
            assert forall|t: Seq<char>| old(self)@.contains_key(t) implies exists|j: int|
                0 <= j < nk && keys@[j]@ == t by {}
            assert forall|t: Seq<char>| #[trigger]
                final(self)@.contains_key(t) implies rec_wf(final(self)@[t]) by {
                assert(old(self)@.contains_key(t));
                let r0 = old(self)@[t];
                assert(rec_wf(r0));
                let fh = r0.holders.filter(not_tx(tx_id));
                lemma_filter_no_dup(r0.holders, not_tx(tx_id));
                r0.holders.lemma_filter_len(not_tx(tx_id));
                assert(fh.no_duplicates());
                assert(fh.len() <= r0.holders.len());
            }
        }
    }

    /// The locking discipline (the well-formedness of every record): a
    /// table's lock is held by distinct transactions, an Exclusive lock by
    /// exactly one; Shared and Exclusive never coexist on one table, since
    /// a record carries a single mode.
    pub proof fn lemma_lock_discipline(self, t: Seq<char>)
        requires
            self.wf(),
            self@.contains_key(t),
        ensures
            self@[t].holders.no_duplicates(),
            self@[t].holders.len() >= 1,
            self@[t].mode == LockType::Exclusive ==> self@[t].holders.len() == 1,
    {
    }
}

} // verus!
