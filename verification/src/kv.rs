//! Association-list maps with pairwise-distinct keys, specified as
//! mathematical maps. `StrMap` keys by strings, `IdMap` by `u64`
//! identifiers; both keep entries in insertion order so that the crate can
//! also iterate them deterministically.

use vstd::prelude::*;
use crate::value::str_eq;
use crate::deep::DeepClone;

verus! {

/// Keys of a string-keyed entry list are pairwise distinct.
pub open spec fn skeys_unique<V>(s: Seq<(String, V)>) -> bool {
    forall|i: int, j: int| 0 <= i < j < s.len() ==> s[i].0@ != s[j].0@
}

/// The map described by a string-keyed entry list; later entries win.
pub open spec fn smap_of<V: DeepView>(s: Seq<(String, V)>) -> Map<Seq<char>, V::V>
    decreases s.len(),
{
    if s.len() == 0 {
        Map::empty()
    } else {
        smap_of(s.drop_last()).insert(s.last().0@, s.last().1.deep_view())
    }
}

pub proof fn lemma_smap_of_contains<V: DeepView>(s: Seq<(String, V)>, k: Seq<char>)
    ensures
        smap_of(s).contains_key(k) <==> exists|i: int| 0 <= i < s.len() && s[i].0@ == k,
    decreases s.len(),
{
    if s.len() > 0 {
        lemma_smap_of_contains(s.drop_last(), k);
        if s.last().0@ == k {
            assert(s[s.len() - 1].0@ == k);
        } else {
            if smap_of(s).contains_key(k) {
                let i = choose|i: int|
                    0 <= i < s.drop_last().len() && s.drop_last()[i].0@ == k;
                assert(s[i].0@ == k);
            }
            if exists|i: int| 0 <= i < s.len() && s[i].0@ == k {
                let i = choose|i: int| 0 <= i < s.len() && s[i].0@ == k;
                assert(i < s.len() - 1);
                assert(s.drop_last()[i].0@ == k);
            }
        }
    }
}

pub proof fn lemma_skeys_unique_drop_last<V>(s: Seq<(String, V)>)
    requires
        skeys_unique(s),
        s.len() > 0,
    ensures
        skeys_unique(s.drop_last()),
{
    assert forall|i: int, j: int|
        0 <= i < j < s.drop_last().len() implies s.drop_last()[i].0@ != s.drop_last()[j].0@ by {
        assert(s[i].0@ != s[j].0@);
    }
}

pub proof fn lemma_smap_of_index<V: DeepView>(s: Seq<(String, V)>, i: int)
    requires
        skeys_unique(s),
        0 <= i < s.len(),
    ensures
        smap_of(s).contains_key(s[i].0@),
        smap_of(s)[s[i].0@] == s[i].1.deep_view(),
    decreases s.len(),
{
    if i == s.len() - 1 {
    } else {
        assert(s[i].0@ != s[s.len() - 1].0@);
        lemma_skeys_unique_drop_last(s);
        lemma_smap_of_index(s.drop_last(), i);
        assert(s.drop_last()[i] == s[i]);
    }
}

proof fn lemma_smap_of_update<V: DeepView>(s: Seq<(String, V)>, i: int, e: (String, V))
    requires
        skeys_unique(s),
        0 <= i < s.len(),
        e.0@ == s[i].0@,
    ensures
        smap_of(s.update(i, e)) == smap_of(s).insert(e.0@, e.1.deep_view()),
    decreases s.len(),
{
    let t = s.update(i, e);
    if i == s.len() - 1 {
        assert(t.drop_last() =~= s.drop_last());
        assert(t.last() == e);
        assert(smap_of(s.drop_last()).insert(s.last().0@, s.last().1.deep_view()).insert(
            e.0@,
            e.1.deep_view(),
        ) =~= smap_of(s.drop_last()).insert(e.0@, e.1.deep_view()));
    } else {
        assert(t.drop_last() =~= s.drop_last().update(i, e));
        assert(t.last() == s.last());
        lemma_skeys_unique_drop_last(s);
        assert(s.drop_last()[i] == s[i]);
        lemma_smap_of_update(s.drop_last(), i, e);
        assert(e.0@ != s.last().0@);
        assert(smap_of(s.drop_last()).insert(e.0@, e.1.deep_view()).insert(
            s.last().0@,
            s.last().1.deep_view(),
        ) =~= smap_of(s.drop_last()).insert(s.last().0@, s.last().1.deep_view()).insert(
            e.0@,
            e.1.deep_view(),
        ));
    }
}

proof fn lemma_smap_of_push<V: DeepView>(s: Seq<(String, V)>, e: (String, V))
    ensures
        smap_of(s.push(e)) == smap_of(s).insert(e.0@, e.1.deep_view()),
{
    assert(s.push(e).drop_last() =~= s);
    assert(s.push(e).last() == e);
}

proof fn lemma_smap_of_remove<V: DeepView>(s: Seq<(String, V)>, i: int)
    requires
        skeys_unique(s),
        0 <= i < s.len(),
    ensures
        smap_of(s.remove(i)) == smap_of(s).remove(s[i].0@),
    decreases s.len(),
{
    let t = s.remove(i);
    let k = s[i].0@;
    if i == s.len() - 1 {
        assert(t =~= s.drop_last());
        lemma_skeys_unique_drop_last(s);
        lemma_smap_of_contains(s.drop_last(), k);
        assert(forall|j: int|
            0 <= j < s.drop_last().len() ==> s.drop_last()[j].0@ != k);
        assert(!smap_of(s.drop_last()).contains_key(k));
        assert(smap_of(s.drop_last()).insert(k, s.last().1.deep_view()).remove(k)
            =~= smap_of(s.drop_last()));
    } else {
        assert(t.drop_last() =~= s.drop_last().remove(i));
        assert(t.last() == s.last());
        lemma_skeys_unique_drop_last(s);
        assert(s.drop_last()[i] == s[i]);
        lemma_smap_of_remove(s.drop_last(), i);
        assert(k != s.last().0@);
        assert(smap_of(s.drop_last()).remove(k).insert(s.last().0@, s.last().1.deep_view())
            =~= smap_of(s.drop_last()).insert(s.last().0@, s.last().1.deep_view()).remove(k));
    }
}

/// A string-keyed map held as an entry list with distinct keys.
pub struct StrMap<V> {
    entries: Vec<(String, V)>,
}

impl<V> StrMap<V> {
    #[verifier::type_invariant]
    spec fn wf(self) -> bool {
        skeys_unique(self.entries@)
    }
}

impl<V: DeepView> View for StrMap<V> {
    type V = Map<Seq<char>, V::V>;

    closed spec fn view(&self) -> Map<Seq<char>, V::V> {
        smap_of(self.entries@)
    }
}

impl<V: DeepView> DeepView for StrMap<V> {
    type V = Map<Seq<char>, V::V>;

    open spec fn deep_view(&self) -> Map<Seq<char>, V::V> {
        self.view()
    }
}

impl<V: DeepView> StrMap<V> {
    /// The entries as (key view, value model) pairs, in insertion order.
    pub closed spec fn pairs(self) -> Seq<(Seq<char>, V::V)> {
        self.entries@.map_values(|e: (String, V)| (e.0@, e.1.deep_view()))
    }

    /// The empty map.
    pub fn new() -> (r: Self)
        ensures
            r@ == Map::<Seq<char>, V::V>::empty(),
            r.pairs() == Seq::<(Seq<char>, V::V)>::empty(),
    {
        let r = StrMap { entries: Vec::new() };
        proof {
            assert(r.pairs() =~= Seq::<(Seq<char>, V::V)>::empty());
        }
        r
    }

    /// Looks a key up.
    pub fn get(&self, name: &str) -> (r: Option<&V>)
        ensures
            match r {
                Some(v) => self@.contains_key(name@) && v.deep_view() == self@[name@],
                None => !self@.contains_key(name@),
            },
    {
        proof {
            use_type_invariant(self);
        }
        let n = self.entries.len();
        let mut i: usize = 0;
        while i < n
            invariant
                n == self.entries.len(),
                i <= n,
                skeys_unique(self.entries@),
                self@ == smap_of(self.entries@),
                forall|j: int| 0 <= j < i ==> self.entries@[j].0@ != name@,
            decreases n - i,
        {
            if str_eq(self.entries[i].0.as_str(), name) {
                proof {
                    lemma_smap_of_index(self.entries@, i as int);
                }
                return Some(&self.entries[i].1);
            }
            i = i + 1;
        }
        proof {
            lemma_smap_of_contains(self.entries@, name@);
        }
        None
    }

    /// True when the key is present.
    pub fn contains(&self, name: &str) -> (r: bool)
        ensures
            r == self@.contains_key(name@),
    {
        match self.get(name) {
            Some(_) => true,
            None => false,
        }
    }

    /// Inserts or replaces the entry for `name`.
    pub fn upsert(&mut self, name: String, v: V)
        ensures
            final(self)@ == old(self)@.insert(name@, v.deep_view()),
    {
        proof {
            use_type_invariant(&*self);
        }
        let mut es: Vec<(String, V)> = Vec::new();
        std::mem::swap(&mut es, &mut self.entries);
        let ghost orig = es@;
        let n = es.len();
        let mut i: usize = 0;
        while i < n
            invariant
                n == es.len(),
                i <= n,
                es@ == orig,
                old(self)@ == smap_of(orig),
                skeys_unique(orig),
                forall|j: int| 0 <= j < i ==> orig[j].0@ != name@,
            decreases n - i,
        {
            if str_eq(es[i].0.as_str(), name.as_str()) {
                proof {
                    lemma_smap_of_update(orig, i as int, (name, v));
                }
                es.set(i, (name, v));
                proof {
                    assert forall|a: int, b: int|
                        0 <= a < b < es@.len() implies es@[a].0@ != es@[b].0@ by {
                        assert(orig[a].0@ != orig[b].0@);
                        assert(es@[a].0@ == orig[a].0@);
                        assert(es@[b].0@ == orig[b].0@);
                    }
                }
                self.entries = es;
                return ;
            }
            i = i + 1;
        }
        proof {
            lemma_smap_of_push(orig, (name, v));
        }
        es.push((name, v));
        proof {
            assert forall|a: int, b: int|
                0 <= a < b < es@.len() implies es@[a].0@ != es@[b].0@ by {
                if b < es@.len() - 1 {
                    assert(orig[a].0@ != orig[b].0@);
                } else {
                    assert(es@[b].0@ == name@);
                    assert(orig[a].0@ != name@);
                }
            }
        }
        self.entries = es;
    }

    /// Removes the entry for `name` and hands its value out.
    pub fn take(&mut self, name: &str) -> (r: Option<V>)
        ensures
            match r {
                Some(v) => old(self)@.contains_key(name@) && v.deep_view() == old(self)@[name@]
                    && final(self)@ == old(self)@.remove(name@),
                None => !old(self)@.contains_key(name@) && final(self)@ == old(self)@,
            },
    {
        proof {
            use_type_invariant(&*self);
        }
        let mut es: Vec<(String, V)> = Vec::new();
        std::mem::swap(&mut es, &mut self.entries);
        let ghost orig = es@;
        let n = es.len();
        let mut i: usize = 0;
        while i < n
            invariant
                n == es.len(),
                i <= n,
                es@ == orig,
                old(self)@ == smap_of(orig),
                skeys_unique(orig),
                forall|j: int| 0 <= j < i ==> orig[j].0@ != name@,
            decreases n - i,
        {
            if str_eq(es[i].0.as_str(), name) {
                proof {
                    lemma_smap_of_index(orig, i as int);
                    lemma_smap_of_remove(orig, i as int);
                }
                let e = es.remove(i);
                proof {
                    assert forall|a: int, b: int|
                        0 <= a < b < es@.len() implies es@[a].0@ != es@[b].0@ by {
                        let a0: int = if a < i { a } else { a + 1 };
                        let b0: int = if b < i { b } else { b + 1 };
                        assert(es@[a] == orig[a0]);
                        assert(es@[b] == orig[b0]);
                        assert(orig[a0].0@ != orig[b0].0@);
                    }
                }
                self.entries = es;
                return Some(e.1);
            }
            i = i + 1;
        }
        proof {
            lemma_smap_of_contains(orig, name@);
        }
        self.entries = es;
        None
    }

    /// Removes the entry for `name` if it is present.
    pub fn remove(&mut self, name: &str)
        ensures
            final(self)@ == old(self)@.remove(name@),
    {
        let r = self.take(name);
        proof {
            if r is None {
                assert(old(self)@.remove(name@) =~= old(self)@);
            }
        }
    }

    /// Number of entries.
    pub fn count(&self) -> (n: usize)
        ensures
            n == self.pairs().len(),
    {
        self.entries.len()
    }

    /// The key of the entry at position `i`.
    pub fn key_at(&self, i: usize) -> (k: &String)
        requires
            i < self.pairs().len(),
        ensures
            k@ == self.pairs()[i as int].0,
    {
        &self.entries[i].0
    }

    /// The value of the entry at position `i`.
    pub fn value_at(&self, i: usize) -> (v: &V)
        requires
            i < self.pairs().len(),
        ensures
            v.deep_view() == self.pairs()[i as int].1,
            self@.contains_key(self.pairs()[i as int].0),
            self@[self.pairs()[i as int].0] == v.deep_view(),
    {
        proof {
            use_type_invariant(self);
            lemma_smap_of_index(self.entries@, i as int);
        }
        &self.entries[i].1
    }

    /// All keys, in insertion order and without repetition.
    pub fn keys_vec(&self) -> (r: Vec<String>)
        ensures
            forall|i: int, j: int| 0 <= i < j < r@.len() ==> r@[i]@ != r@[j]@,
            forall|i: int| 0 <= i < r@.len() ==> self@.contains_key(#[trigger] r@[i]@),
            forall|k: Seq<char>| self@.contains_key(k) ==> exists|i: int|
                0 <= i < r@.len() && r@[i]@ == k,
    {
        proof {
            use_type_invariant(self);
        }
        let mut r: Vec<String> = Vec::new();
        let n = self.entries.len();
        let mut i: usize = 0;
        while i < n
            invariant
                n == self.entries.len(),
                i <= n,
                skeys_unique(self.entries@),
                self@ == smap_of(self.entries@),
                r@.len() == i,
                forall|j: int| 0 <= j < i ==> r@[j]@ == self.entries@[j].0@,
            decreases n - i,
        {
            r.push(self.entries[i].0.clone());
            i = i + 1;
        }
        proof {
            assert forall|j: int| 0 <= j < r@.len() implies self@.contains_key(r@[j]@) by {
                lemma_smap_of_index(self.entries@, j);
            }
            assert forall|k: Seq<char>| self@.contains_key(k) implies exists|i2: int|
                0 <= i2 < r@.len() && r@[i2]@ == k by {
                lemma_smap_of_contains(self.entries@, k);
                let j = choose|j: int| 0 <= j < self.entries@.len() && self.entries@[j].0@ == k;
                assert(r@[j]@ == k);
            }
        }
        r
    }

    /// A copy whose model is the same map.
    pub fn deep_clone_map(&self) -> (r: Self) where V: DeepClone
        ensures
            r@ == self@,
            r.pairs() == self.pairs(),
    {
        proof {
            use_type_invariant(self);
        }
        let mut es: Vec<(String, V)> = Vec::new();
        let n = self.entries.len();
        let mut i: usize = 0;
        while i < n
            invariant
                n == self.entries.len(),
                i <= n,
                es@.len() == i,
                skeys_unique(self.entries@),
                forall|j: int|
                    0 <= j < i ==> es@[j].0@ == self.entries@[j].0@ && es@[j].1.deep_view()
                        == self.entries@[j].1.deep_view(),
            decreases n - i,
        {
            es.push((self.entries[i].0.clone(), self.entries[i].1.deep_clone()));
            i = i + 1;
        }
        proof {
            assert forall|a: int, b: int|
                0 <= a < b < es@.len() implies es@[a].0@ != es@[b].0@ by {
                assert(self.entries@[a].0@ != self.entries@[b].0@);
            }
        }
        let r = StrMap { entries: es };
        proof {
            lemma_smap_of_congruence(r.entries@, self.entries@);
            assert(r.pairs() =~= self.pairs());
        }
        r
    }
}

/// Entry lists that agree on key views and value models describe the same map.
proof fn lemma_smap_of_congruence<V: DeepView>(a: Seq<(String, V)>, b: Seq<(String, V)>)
    requires
        a.len() == b.len(),
        forall|i: int|
            0 <= i < a.len() ==> a[i].0@ == b[i].0@ && a[i].1.deep_view() == b[i].1.deep_view(),
    ensures
        smap_of(a) == smap_of(b),
    decreases a.len(),
{
    if a.len() > 0 {
        lemma_smap_of_congruence(a.drop_last(), b.drop_last());
        assert(smap_of(a) =~= smap_of(b));
    } else {
        assert(smap_of(a) =~= smap_of(b));
    }
}

// ---------------------------------------------------------------------------

/// Keys of an id-keyed entry list are pairwise distinct.
pub open spec fn ikeys_unique<V>(s: Seq<(u64, V)>) -> bool {
    forall|i: int, j: int| 0 <= i < j < s.len() ==> s[i].0 != s[j].0
}

/// The map described by an id-keyed entry list; later entries win.
pub open spec fn imap_of<V: DeepView>(s: Seq<(u64, V)>) -> Map<u64, V::V>
    decreases s.len(),
{
    if s.len() == 0 {
        Map::empty()
    } else {
        imap_of(s.drop_last()).insert(s.last().0, s.last().1.deep_view())
    }
}

pub proof fn lemma_imap_of_contains<V: DeepView>(s: Seq<(u64, V)>, k: u64)
    ensures
        imap_of(s).contains_key(k) <==> exists|i: int| 0 <= i < s.len() && s[i].0 == k,
    decreases s.len(),
{
    if s.len() > 0 {
        lemma_imap_of_contains(s.drop_last(), k);
        if s.last().0 == k {
            assert(s[s.len() - 1].0 == k);
        } else {
            if imap_of(s).contains_key(k) {
                let i = choose|i: int| 0 <= i < s.drop_last().len() && s.drop_last()[i].0 == k;
                assert(s[i].0 == k);
            }
            if exists|i: int| 0 <= i < s.len() && s[i].0 == k {
                let i = choose|i: int| 0 <= i < s.len() && s[i].0 == k;
                assert(i < s.len() - 1);
                assert(s.drop_last()[i].0 == k);
            }
        }
    }
}

pub proof fn lemma_ikeys_unique_drop_last<V>(s: Seq<(u64, V)>)
    requires
        ikeys_unique(s),
        s.len() > 0,
    ensures
        ikeys_unique(s.drop_last()),
{
    assert forall|i: int, j: int|
        0 <= i < j < s.drop_last().len() implies s.drop_last()[i].0 != s.drop_last()[j].0 by {
        assert(s[i].0 != s[j].0);
    }
}

pub proof fn lemma_imap_of_index<V: DeepView>(s: Seq<(u64, V)>, i: int)
    requires
        ikeys_unique(s),
        0 <= i < s.len(),
    ensures
        imap_of(s).contains_key(s[i].0),
        imap_of(s)[s[i].0] == s[i].1.deep_view(),
    decreases s.len(),
{
    if i == s.len() - 1 {
    } else {
        assert(s[i].0 != s[s.len() - 1].0);
        lemma_ikeys_unique_drop_last(s);
        lemma_imap_of_index(s.drop_last(), i);
        assert(s.drop_last()[i] == s[i]);
    }
}

proof fn lemma_imap_of_update<V: DeepView>(s: Seq<(u64, V)>, i: int, e: (u64, V))
    requires
        ikeys_unique(s),
        0 <= i < s.len(),
        e.0 == s[i].0,
    ensures
        imap_of(s.update(i, e)) == imap_of(s).insert(e.0, e.1.deep_view()),
    decreases s.len(),
{
    let t = s.update(i, e);
    if i == s.len() - 1 {
        assert(t.drop_last() =~= s.drop_last());
        assert(t.last() == e);
        assert(imap_of(s.drop_last()).insert(s.last().0, s.last().1.deep_view()).insert(
            e.0,
            e.1.deep_view(),
        ) =~= imap_of(s.drop_last()).insert(e.0, e.1.deep_view()));
    } else {
        assert(t.drop_last() =~= s.drop_last().update(i, e));
        assert(t.last() == s.last());
        lemma_ikeys_unique_drop_last(s);
        assert(s.drop_last()[i] == s[i]);
        lemma_imap_of_update(s.drop_last(), i, e);
        assert(e.0 != s.last().0);
        assert(imap_of(s.drop_last()).insert(e.0, e.1.deep_view()).insert(
            s.last().0,
            s.last().1.deep_view(),
        ) =~= imap_of(s.drop_last()).insert(s.last().0, s.last().1.deep_view()).insert(
            e.0,
            e.1.deep_view(),
        ));
    }
}

proof fn lemma_imap_of_push<V: DeepView>(s: Seq<(u64, V)>, e: (u64, V))
    ensures
        imap_of(s.push(e)) == imap_of(s).insert(e.0, e.1.deep_view()),
{
    assert(s.push(e).drop_last() =~= s);
    assert(s.push(e).last() == e);
}

proof fn lemma_imap_of_remove<V: DeepView>(s: Seq<(u64, V)>, i: int)
    requires
        ikeys_unique(s),
        0 <= i < s.len(),
    ensures
        imap_of(s.remove(i)) == imap_of(s).remove(s[i].0),
    decreases s.len(),
{
    let t = s.remove(i);
    let k = s[i].0;
    if i == s.len() - 1 {
        assert(t =~= s.drop_last());
        lemma_ikeys_unique_drop_last(s);
        lemma_imap_of_contains(s.drop_last(), k);
        assert(forall|j: int| 0 <= j < s.drop_last().len() ==> s.drop_last()[j].0 != k);
        assert(!imap_of(s.drop_last()).contains_key(k));
        assert(imap_of(s.drop_last()).insert(k, s.last().1.deep_view()).remove(k)
            =~= imap_of(s.drop_last()));
    } else {
        assert(t.drop_last() =~= s.drop_last().remove(i));
        assert(t.last() == s.last());
        lemma_ikeys_unique_drop_last(s);
        assert(s.drop_last()[i] == s[i]);
        lemma_imap_of_remove(s.drop_last(), i);
        assert(k != s.last().0);
        assert(imap_of(s.drop_last()).remove(k).insert(s.last().0, s.last().1.deep_view())
            =~= imap_of(s.drop_last()).insert(s.last().0, s.last().1.deep_view()).remove(k));
    }
}

/// A `u64`-keyed map held as an entry list with distinct keys.
pub struct IdMap<V> {
    entries: Vec<(u64, V)>,
}

impl<V> IdMap<V> {
    #[verifier::type_invariant]
    spec fn wf(self) -> bool {
        ikeys_unique(self.entries@)
    }
}

impl<V: DeepView> View for IdMap<V> {
    type V = Map<u64, V::V>;

    closed spec fn view(&self) -> Map<u64, V::V> {
        imap_of(self.entries@)
    }
}

impl<V: DeepView> DeepView for IdMap<V> {
    type V = Map<u64, V::V>;

    open spec fn deep_view(&self) -> Map<u64, V::V> {
        self.view()
    }
}

impl<V: DeepView> IdMap<V> {
    /// The entries as (key, value model) pairs, in insertion order.
    pub closed spec fn pairs(self) -> Seq<(u64, V::V)> {
        self.entries@.map_values(|e: (u64, V)| (e.0, e.1.deep_view()))
    }

    /// The empty map.
    pub fn new() -> (r: Self)
        ensures
            r@ == Map::<u64, V::V>::empty(),
            r.pairs() == Seq::<(u64, V::V)>::empty(),
    {
        let r = IdMap { entries: Vec::new() };
        proof {
            assert(r.pairs() =~= Seq::<(u64, V::V)>::empty());
        }
        r
    }

    /// Looks a key up.
    pub fn get(&self, id: u64) -> (r: Option<&V>)
        ensures
            match r {
                Some(v) => self@.contains_key(id) && v.deep_view() == self@[id],
                None => !self@.contains_key(id),
            },
    {
        proof {
            use_type_invariant(self);
        }
        let n = self.entries.len();
        let mut i: usize = 0;
        while i < n
            invariant
                n == self.entries.len(),
                i <= n,
                ikeys_unique(self.entries@),
                self@ == imap_of(self.entries@),
                forall|j: int| 0 <= j < i ==> self.entries@[j].0 != id,
            decreases n - i,
        {
            if self.entries[i].0 == id {
                proof {
                    lemma_imap_of_index(self.entries@, i as int);
                }
                return Some(&self.entries[i].1);
            }
            i = i + 1;
        }
        proof {
            lemma_imap_of_contains(self.entries@, id);
        }
        None
    }

    /// True when the key is present.
    pub fn contains(&self, id: u64) -> (r: bool)
        ensures
            r == self@.contains_key(id),
    {
        match self.get(id) {
            Some(_) => true,
            None => false,
        }
    }

    /// Inserts or replaces the entry for `id`.
    pub fn upsert(&mut self, id: u64, v: V)
        ensures
            final(self)@ == old(self)@.insert(id, v.deep_view()),
    {
        proof {
            use_type_invariant(&*self);
        }
        let mut es: Vec<(u64, V)> = Vec::new();
        std::mem::swap(&mut es, &mut self.entries);
        let ghost orig = es@;
        let n = es.len();
        let mut i: usize = 0;
        while i < n
            invariant
                n == es.len(),
                i <= n,
                es@ == orig,
                old(self)@ == imap_of(orig),
                ikeys_unique(orig),
                forall|j: int| 0 <= j < i ==> orig[j].0 != id,
            decreases n - i,
        {
            if es[i].0 == id {
                proof {
                    lemma_imap_of_update(orig, i as int, (id, v));
                }
                es.set(i, (id, v));
                proof {
                    assert forall|a: int, b: int|
                        0 <= a < b < es@.len() implies es@[a].0 != es@[b].0 by {
                        assert(orig[a].0 != orig[b].0);
                    }
                }
                self.entries = es;
                return ;
            }
            i = i + 1;
        }
        proof {
            lemma_imap_of_push(orig, (id, v));
        }
        es.push((id, v));
        proof {
            assert forall|a: int, b: int| 0 <= a < b < es@.len() implies es@[a].0 != es@[b].0 by {
                if b < es@.len() - 1 {
                    assert(orig[a].0 != orig[b].0);
                } else {
                    assert(orig[a].0 != id);
                }
            }
        }
        self.entries = es;
    }

    /// Removes the entry for `id` and hands its value out.
    pub fn take(&mut self, id: u64) -> (r: Option<V>)
        ensures
            match r {
                Some(v) => old(self)@.contains_key(id) && v.deep_view() == old(self)@[id]
                    && final(self)@ == old(self)@.remove(id),
                None => !old(self)@.contains_key(id) && final(self)@ == old(self)@,
            },
    {
        proof {
            use_type_invariant(&*self);
        }
        let mut es: Vec<(u64, V)> = Vec::new();
        std::mem::swap(&mut es, &mut self.entries);
        let ghost orig = es@;
        let n = es.len();
        let mut i: usize = 0;
        while i < n
            invariant
                n == es.len(),
                i <= n,
                es@ == orig,
                old(self)@ == imap_of(orig),
                ikeys_unique(orig),
                forall|j: int| 0 <= j < i ==> orig[j].0 != id,
            decreases n - i,
        {
            if es[i].0 == id {
                proof {
                    lemma_imap_of_index(orig, i as int);
                    lemma_imap_of_remove(orig, i as int);
                }
                let e = es.remove(i);
                proof {
                    assert forall|a: int, b: int|
                        0 <= a < b < es@.len() implies es@[a].0 != es@[b].0 by {
                        let a0: int = if a < i { a } else { a + 1 };
                        let b0: int = if b < i { b } else { b + 1 };
                        assert(es@[a] == orig[a0]);
                        assert(es@[b] == orig[b0]);
                        assert(orig[a0].0 != orig[b0].0);
                    }
                }
                self.entries = es;
                return Some(e.1);
            }
            i = i + 1;
        }
        proof {
            lemma_imap_of_contains(orig, id);
        }
        self.entries = es;
        None
    }

    /// Removes the entry for `id` if it is present.
    pub fn remove(&mut self, id: u64)
        ensures
            final(self)@ == old(self)@.remove(id),
    {
        let r = self.take(id);
        proof {
            if r is None {
                assert(old(self)@.remove(id) =~= old(self)@);
            }
        }
    }

    /// Number of entries.
    pub fn count(&self) -> (n: usize)
        ensures
            n == self.pairs().len(),
    {
        self.entries.len()
    }

    /// The key of the entry at position `i`.
    pub fn key_at(&self, i: usize) -> (k: u64)
        requires
            i < self.pairs().len(),
        ensures
            k == self.pairs()[i as int].0,
            self@.contains_key(k),
            self@[k] == self.pairs()[i as int].1,
    {
        proof {
            use_type_invariant(self);
            lemma_imap_of_index(self.entries@, i as int);
        }
        self.entries[i].0
    }

    /// The value of the entry at position `i`.
    pub fn value_at(&self, i: usize) -> (v: &V)
        requires
            i < self.pairs().len(),
        ensures
            v.deep_view() == self.pairs()[i as int].1,
            self@.contains_key(self.pairs()[i as int].0),
            self@[self.pairs()[i as int].0] == v.deep_view(),
    {
        proof {
            use_type_invariant(self);
            lemma_imap_of_index(self.entries@, i as int);
        }
        &self.entries[i].1
    }

    /// All keys, in insertion order and without repetition.
    pub fn keys_vec(&self) -> (r: Vec<u64>)
        ensures
            forall|i: int, j: int| 0 <= i < j < r@.len() ==> r@[i] != r@[j],
            forall|i: int| 0 <= i < r@.len() ==> self@.contains_key(r@[i]),
            forall|k: u64| self@.contains_key(k) ==> r@.contains(k),
    {
        proof {
            use_type_invariant(self);
        }
        let mut r: Vec<u64> = Vec::new();
        let n = self.entries.len();
        let mut i: usize = 0;
        while i < n
            invariant
                n == self.entries.len(),
                i <= n,
                ikeys_unique(self.entries@),
                self@ == imap_of(self.entries@),
                r@.len() == i,
                forall|j: int| 0 <= j < i ==> r@[j] == self.entries@[j].0,
            decreases n - i,
        {
            r.push(self.entries[i].0);
            i = i + 1;
        }
        proof {
            assert forall|j: int| 0 <= j < r@.len() implies self@.contains_key(r@[j]) by {
                lemma_imap_of_index(self.entries@, j);
            }
            assert forall|k: u64| self@.contains_key(k) implies r@.contains(k) by {
                lemma_imap_of_contains(self.entries@, k);
                let j = choose|j: int| 0 <= j < self.entries@.len() && self.entries@[j].0 == k;
                assert(r@[j] == k);
            }
        }
        r
    }
}

} // verus!
