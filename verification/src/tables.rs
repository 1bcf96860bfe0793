//! Flat keyed tables used by the dispatcher.
//!
//! `StrMap` keys values by a raw identifier string, `FpMap` by a 64-bit
//! fingerprint, and `LineMap` by a line number under the discipline that
//! lines only ever grow, so its entries stay sorted by construction.

use vstd::prelude::*;

verus! {

// ------------------------------------------------------------------
// StrMap: a mapping from identifier strings to values.
// ------------------------------------------------------------------

pub struct StrMap<V> {
    entries: Vec<(String, V)>,
}

pub closed spec fn str_get<V>(es: Seq<(String, V)>, k: Seq<char>) -> Option<V>
    decreases es.len(),
{
    if es.len() == 0 {
        None
    } else if es.last().0@ == k {
        Some(es.last().1)
    } else {
        str_get(es.drop_last(), k)
    }
}

pub closed spec fn str_map<V>(es: Seq<(String, V)>) -> Map<Seq<char>, V> {
    Map::new(|k: Seq<char>| str_get(es, k) is Some, |k: Seq<char>| str_get(es, k)->0)
}

impl<V> View for StrMap<V> {
    type V = Map<Seq<char>, V>;

    closed spec fn view(&self) -> Map<Seq<char>, V> {
        str_map(self.entries@)
    }
}

proof fn lemma_str_get_absent<V>(es: Seq<(String, V)>, k: Seq<char>)
    requires
        forall|j: int| 0 <= j < es.len() ==> (#[trigger] es[j]).0@ != k,
    ensures
        str_get(es, k) is None,
    decreases es.len(),
{
    if es.len() > 0 {
        lemma_str_get_absent(es.drop_last(), k);
    }
}

proof fn lemma_str_get_at<V>(es: Seq<(String, V)>, i: int)
    requires
        0 <= i < es.len(),
        forall|j: int| 0 <= j < es.len() && j != i ==> (#[trigger] es[j]).0@ != es[i].0@,
    ensures
        str_get(es, es[i].0@) == Some(es[i].1),
    decreases es.len(),
{
    if i < es.len() - 1 {
        lemma_str_get_at(es.drop_last(), i);
    }
}

/// Pointwise effect of overwriting entry `i` with a value under the same
/// key.
proof fn lemma_str_get_set<V>(old_es: Seq<(String, V)>, es: Seq<(String, V)>, i: int, k2: Seq<char>)
    requires
        0 <= i < old_es.len(),
        es.len() == old_es.len(),
        forall|j: int| 0 <= j < old_es.len() && j != i ==> es[j] == old_es[j],
        es[i].0@ == old_es[i].0@,
        forall|j: int| 0 <= j < old_es.len() && j != i ==> (#[trigger] old_es[j]).0@ != old_es[i].0@,
    ensures
        str_get(es, k2) == if k2 == old_es[i].0@ {
            Some(es[i].1)
        } else {
            str_get(old_es, k2)
        },
    decreases es.len(),
{
    if k2 == old_es[i].0@ {
        lemma_str_get_at(es, i);
    } else if es.len() > 0 {
        if i == es.len() - 1 {
            assert(es.drop_last() =~= old_es.drop_last());
        } else {
            lemma_str_get_set(old_es.drop_last(), es.drop_last(), i, k2);
            assert(es.last() == old_es.last());
        }
    }
}

impl<V> StrMap<V> {
    /// Keys are distinct.
    pub closed spec fn wf(&self) -> bool {
        forall|i: int, j: int|
            0 <= i < j < self.entries@.len() ==> (#[trigger] self.entries@[i]).0@ != (
            #[trigger] self.entries@[j]).0@
    }

    pub fn new() -> (r: Self)
        ensures
            r.wf(),
            r@ == Map::<Seq<char>, V>::empty(),
    {
        let r = StrMap { entries: Vec::new() };
        proof {
            assert(r@ =~= Map::<Seq<char>, V>::empty());
        }
        r
    }

    /// The number of distinct keys.
    pub fn len(&self) -> (n: usize)
        requires
            self.wf(),
        ensures
            n == self@.dom().len(),
    {
        proof {
            lemma_str_dom_len(self.entries@);
        }
        self.entries.len()
    }

    fn find(&self, k: &String) -> (r: Option<usize>)
        ensures
            match r {
                Some(i) => i < self.entries@.len() && self.entries@[i as int].0@ == k@,
                None => forall|j: int|
                    0 <= j < self.entries@.len() ==> (#[trigger] self.entries@[j]).0@ != k@,
            },
    {
        let n = self.entries.len();
        let mut i: usize = 0;
        while i < n
            invariant
                i <= n,
                n == self.entries@.len(),
                forall|j: int| 0 <= j < i ==> (#[trigger] self.entries@[j]).0@ != k@,
            decreases n - i,
        {
            if self.entries[i].0 == *k {
                return Some(i);
            }
            i += 1;
        }
        None
    }

    /// Binds `k` to `v`, overwriting any earlier binding.
    pub fn insert(&mut self, k: String, v: V)
        requires
            old(self).wf(),
        ensures
            final(self).wf(),
            final(self)@ == old(self)@.insert(k@, v),
    {
        let ghost gv = v;
        let ghost gk = k@;
        match self.find(&k) {
            Some(i) => {
                proof {
                    lemma_str_get_at(self.entries@, i as int);
                }
                self.entries[i] = (k, v);
                proof {
                    let es = self.entries@;
                    let old_es = old(self).entries@;
                    assert forall|k2: Seq<char>| true implies #[trigger] str_get(es, k2) == (
                    if k2 == gk {
                        Some(gv)
                    } else {
                        str_get(old_es, k2)
                    }) by {
                        lemma_str_get_set(old_es, es, i as int, k2);
                    }
                    assert(self@ =~= old(self)@.insert(gk, gv));
                }
            },
            None => {
                self.entries.push((k, v));
                proof {
                    let es = self.entries@;
                    let old_es = old(self).entries@;
                    assert(es.drop_last() =~= old_es);
                    assert(es.last().0@ == gk && es.last().1 == gv);
                    assert(self@ =~= old(self)@.insert(gk, gv));
                }
            },
        }
    }

    /// The value bound to `k`, if any.
    pub fn get(&self, k: &String) -> (r: Option<&V>)
        requires
            self.wf(),
        ensures
            match r {
                Some(v) => self@.contains_key(k@) && *v == self@[k@],
                None => !self@.contains_key(k@),
            },
    {
        match self.find(k) {
            Some(i) => {
                proof {
                    lemma_str_get_at(self.entries@, i as int);
                }
                Some(&self.entries[i].1)
            },
            None => {
                proof {
                    lemma_str_get_absent(self.entries@, k@);
                }
                None
            },
        }
    }
}

/// With distinct keys, the domain of the denoted map has exactly one
/// element per entry.
proof fn lemma_str_dom_len<V>(es: Seq<(String, V)>)
    requires
        forall|i: int, j: int| 0 <= i < j < es.len() ==> (#[trigger] es[i]).0@ != (#[trigger] es[j]).0@,
    ensures
        str_map(es).dom().len() == es.len(),
        str_map(es).dom().finite(),
    decreases es.len(),
{
    if es.len() == 0 {
        assert(str_map(es).dom() =~= Set::<Seq<char>>::empty());
    } else {
        let prefix = es.drop_last();
        lemma_str_dom_len(prefix);
        lemma_str_get_absent(prefix, es.last().0@);
        assert forall|k2: Seq<char>| k2 != es.last().0@ implies #[trigger] str_get(es, k2)
            == str_get(prefix, k2) by {}
        assert(str_map(es).dom() =~= str_map(prefix).dom().insert(es.last().0@));
        assert(!str_map(prefix).dom().contains(es.last().0@));
    }
}

// ------------------------------------------------------------------
// FpMap: a mapping from 64-bit fingerprints to values.
// ------------------------------------------------------------------

pub struct FpMap<V> {
    entries: Vec<(u64, V)>,
}

pub closed spec fn fp_get<V>(es: Seq<(u64, V)>, k: u64) -> Option<V>
    decreases es.len(),
{
    if es.len() == 0 {
        None
    } else if es.last().0 == k {
        Some(es.last().1)
    } else {
        fp_get(es.drop_last(), k)
    }
}

pub closed spec fn fp_map<V>(es: Seq<(u64, V)>) -> Map<u64, V> {
    Map::new(|k: u64| fp_get(es, k) is Some, |k: u64| fp_get(es, k)->0)
}

impl<V> View for FpMap<V> {
    type V = Map<u64, V>;

    closed spec fn view(&self) -> Map<u64, V> {
        fp_map(self.entries@)
    }
}

proof fn lemma_fp_get_absent<V>(es: Seq<(u64, V)>, k: u64)
    requires
        forall|j: int| 0 <= j < es.len() ==> (#[trigger] es[j]).0 != k,
    ensures
        fp_get(es, k) is None,
    decreases es.len(),
{
    if es.len() > 0 {
        lemma_fp_get_absent(es.drop_last(), k);
    }
}

proof fn lemma_fp_get_at<V>(es: Seq<(u64, V)>, i: int)
    requires
        0 <= i < es.len(),
        forall|j: int| 0 <= j < es.len() && j != i ==> (#[trigger] es[j]).0 != es[i].0,
    ensures
        fp_get(es, es[i].0) == Some(es[i].1),
    decreases es.len(),
{
    if i < es.len() - 1 {
        lemma_fp_get_at(es.drop_last(), i);
    }
}

proof fn lemma_fp_get_set<V>(old_es: Seq<(u64, V)>, es: Seq<(u64, V)>, i: int, k2: u64)
    requires
        0 <= i < old_es.len(),
        es.len() == old_es.len(),
        forall|j: int| 0 <= j < old_es.len() && j != i ==> es[j] == old_es[j],
        es[i].0 == old_es[i].0,
        forall|j: int| 0 <= j < old_es.len() && j != i ==> (#[trigger] old_es[j]).0 != old_es[i].0,
    ensures
        fp_get(es, k2) == if k2 == old_es[i].0 {
            Some(es[i].1)
        } else {
            fp_get(old_es, k2)
        },
    decreases es.len(),
{
    if k2 == old_es[i].0 {
        lemma_fp_get_at(es, i);
    } else if es.len() > 0 {
        if i == es.len() - 1 {
            assert(es.drop_last() =~= old_es.drop_last());
        } else {
            lemma_fp_get_set(old_es.drop_last(), es.drop_last(), i, k2);
            assert(es.last() == old_es.last());
        }
    }
}

impl<V> FpMap<V> {
    pub closed spec fn wf(&self) -> bool {
        forall|i: int, j: int|
            0 <= i < j < self.entries@.len() ==> (#[trigger] self.entries@[i]).0 != (
            #[trigger] self.entries@[j]).0
    }

    pub fn new() -> (r: Self)
        ensures
            r.wf(),
            r@ == Map::<u64, V>::empty(),
    {
        let r = FpMap { entries: Vec::new() };
        proof {
            assert(r@ =~= Map::<u64, V>::empty());
        }
        r
    }

    fn find(&self, k: u64) -> (r: Option<usize>)
        ensures
            match r {
                Some(i) => i < self.entries@.len() && self.entries@[i as int].0 == k,
                None => forall|j: int|
                    0 <= j < self.entries@.len() ==> (#[trigger] self.entries@[j]).0 != k,
            },
    {
        let n = self.entries.len();
        let mut i: usize = 0;
        while i < n
            invariant
                i <= n,
                n == self.entries@.len(),
                forall|j: int| 0 <= j < i ==> (#[trigger] self.entries@[j]).0 != k,
            decreases n - i,
        {
            if self.entries[i].0 == k {
                return Some(i);
            }
            i += 1;
        }
        None
    }

    /// Binds `k` to `v`, overwriting any earlier binding. A second match
    /// for a fingerprint whose predecessor is still pending silently
    /// replaces the pending entry.
    pub fn insert(&mut self, k: u64, v: V)
        requires
            old(self).wf(),
        ensures
            final(self).wf(),
            final(self)@ == old(self)@.insert(k, v),
    {
        let ghost gv = v;
        match self.find(k) {
            Some(i) => {
                proof {
                    lemma_fp_get_at(self.entries@, i as int);
                }
                self.entries[i] = (k, v);
                proof {
                    let es = self.entries@;
                    let old_es = old(self).entries@;
                    assert forall|k2: u64| true implies #[trigger] fp_get(es, k2) == (if k2 == k {
                        Some(gv)
                    } else {
                        fp_get(old_es, k2)
                    }) by {
                        lemma_fp_get_set(old_es, es, i as int, k2);
                    }
                    assert(self@ =~= old(self)@.insert(k, gv));
                }
            },
            None => {
                self.entries.push((k, v));
                proof {
                    let es = self.entries@;
                    assert(es.drop_last() =~= old(self).entries@);
                    assert(self@ =~= old(self)@.insert(k, gv));
                }
            },
        }
    }

    pub fn get(&self, k: u64) -> (r: Option<&V>)
        requires
            self.wf(),
        ensures
            match r {
                Some(v) => self@.contains_key(k) && *v == self@[k],
                None => !self@.contains_key(k),
            },
    {
        match self.find(k) {
            Some(i) => {
                proof {
                    lemma_fp_get_at(self.entries@, i as int);
                }
                Some(&self.entries[i].1)
            },
            None => {
                proof {
                    lemma_fp_get_absent(self.entries@, k);
                }
                None
            },
        }
    }

    fn entry_val_mut(&mut self, i: usize) -> (r: &mut V)
        requires
            i < old(self).entries@.len(),
        ensures
            *r == old(self).entries@[i as int].1,
            final(self).entries@.len() == old(self).entries@.len(),
            forall|j: int|
                0 <= j < old(self).entries@.len() && j != i ==> final(self).entries@[j] == old(
                    self,
                ).entries@[j],
            final(self).entries@[i as int] == (old(self).entries@[i as int].0, *final(r)),
    {
        &mut self.entries[i].1
    }

    /// Borrows the value bound to `k` for mutation; the keys are untouched.
    pub fn get_mut(&mut self, k: u64) -> (r: Option<&mut V>)
        requires
            old(self).wf(),
        ensures
            final(self).wf(),
            match r {
                Some(v) => old(self)@.contains_key(k) && *v == old(self)@[k] && final(self)@ == old(
                    self,
                )@.insert(k, *final(v)),
                None => !old(self)@.contains_key(k) && final(self)@ == old(self)@,
            },
    {
        match self.find(k) {
            Some(i) => {
                let ghost old_es = self.entries@;
                proof {
                    lemma_fp_get_at(old_es, i as int);
                    assert forall|es2: Seq<(u64, V)>|
                        es2.len() == old_es.len() && (forall|j: int|
                            0 <= j < old_es.len() && j != i ==> es2[j] == old_es[j]) && es2[i as int]
                            == (old_es[i as int].0, es2[i as int].1) implies #[trigger] fp_map(es2)
                        == fp_map(old_es).insert(k, es2[i as int].1) by {
                        assert forall|k2: u64| true implies #[trigger] fp_get(es2, k2) == (
                        if k2 == k {
                            Some(es2[i as int].1)
                        } else {
                            fp_get(old_es, k2)
                        }) by {
                            lemma_fp_get_set(old_es, es2, i as int, k2);
                        }
                        assert(fp_map(es2) =~= fp_map(old_es).insert(k, es2[i as int].1));
                    }
                }
                let r = self.entry_val_mut(i);
                Some(r)
            },
            None => {
                proof {
                    lemma_fp_get_absent(self.entries@, k);
                }
                None
            },
        }
    }
}

// ------------------------------------------------------------------
// LineMap: a mapping from line numbers to values, append-only with
// strictly increasing keys.
// ------------------------------------------------------------------

pub struct LineMap<V> {
    entries: Vec<(usize, V)>,
}

pub closed spec fn line_get<V>(es: Seq<(usize, V)>, k: usize) -> Option<V>
    decreases es.len(),
{
    if es.len() == 0 {
        None
    } else if es.last().0 == k {
        Some(es.last().1)
    } else {
        line_get(es.drop_last(), k)
    }
}

pub closed spec fn line_map<V>(es: Seq<(usize, V)>) -> Map<usize, V> {
    Map::new(|k: usize| line_get(es, k) is Some, |k: usize| line_get(es, k)->0)
}

impl<V> View for LineMap<V> {
    type V = Map<usize, V>;

    closed spec fn view(&self) -> Map<usize, V> {
        line_map(self.entries@)
    }
}

proof fn lemma_line_get_absent<V>(es: Seq<(usize, V)>, k: usize)
    requires
        forall|j: int| 0 <= j < es.len() ==> (#[trigger] es[j]).0 != k,
    ensures
        line_get(es, k) is None,
    decreases es.len(),
{
    if es.len() > 0 {
        lemma_line_get_absent(es.drop_last(), k);
    }
}

proof fn lemma_line_get_at<V>(es: Seq<(usize, V)>, i: int)
    requires
        0 <= i < es.len(),
        forall|j: int| 0 <= j < es.len() && j != i ==> (#[trigger] es[j]).0 != es[i].0,
    ensures
        line_get(es, es[i].0) == Some(es[i].1),
    decreases es.len(),
{
    if i < es.len() - 1 {
        lemma_line_get_at(es.drop_last(), i);
    }
}

proof fn lemma_line_get_set<V>(old_es: Seq<(usize, V)>, es: Seq<(usize, V)>, i: int, k2: usize)
    requires
        0 <= i < old_es.len(),
        es.len() == old_es.len(),
        forall|j: int| 0 <= j < old_es.len() && j != i ==> es[j] == old_es[j],
        es[i].0 == old_es[i].0,
        forall|j: int| 0 <= j < old_es.len() && j != i ==> (#[trigger] old_es[j]).0 != old_es[i].0,
    ensures
        line_get(es, k2) == if k2 == old_es[i].0 {
            Some(es[i].1)
        } else {
            line_get(old_es, k2)
        },
    decreases es.len(),
{
    if k2 == old_es[i].0 {
        lemma_line_get_at(es, i);
    } else if es.len() > 0 {
        if i == es.len() - 1 {
            assert(es.drop_last() =~= old_es.drop_last());
        } else {
            lemma_line_get_set(old_es.drop_last(), es.drop_last(), i, k2);
            assert(es.last() == old_es.last());
        }
    }
}

/// The key sequence of a table, in entry order.
pub closed spec fn line_keys<V>(es: Seq<(usize, V)>) -> Seq<usize> {
    Seq::new(es.len(), |i: int| es[i].0)
}

impl<V> LineMap<V> {
    /// Keys are strictly increasing: entries arrive in line order.
    pub closed spec fn wf(&self) -> bool {
        forall|i: int, j: int|
            0 <= i < j < self.entries@.len() ==> (#[trigger] self.entries@[i]).0 < (
            #[trigger] self.entries@[j]).0
    }

    /// The sequence of keys, in insertion order.
    pub closed spec fn spec_keys(&self) -> Seq<usize> {
        line_keys(self.entries@)
    }

    pub fn new() -> (r: Self)
        ensures
            r.wf(),
            r@ == Map::<usize, V>::empty(),
            r.spec_keys() == Seq::<usize>::empty(),
    {
        let r = LineMap { entries: Vec::new() };
        proof {
            assert(r@ =~= Map::<usize, V>::empty());
            assert(r.spec_keys() =~= Seq::<usize>::empty());
        }
        r
    }

    pub fn len(&self) -> (n: usize)
        ensures
            n == self.spec_keys().len(),
    {
        self.entries.len()
    }

    /// The key at position `i`.
    pub fn key_at(&self, i: usize) -> (k: usize)
        requires
            self.wf(),
            i < self.spec_keys().len(),
        ensures
            k == self.spec_keys()[i as int],
            self@.contains_key(k),
    {
        proof {
            lemma_line_get_at_sorted(self.entries@, i as int);
        }
        self.entries[i].0
    }

    /// The value at position `i`, which is the value bound to the key at
    /// position `i`.
    pub fn val_at(&self, i: usize) -> (v: &V)
        requires
            self.wf(),
            i < self.spec_keys().len(),
        ensures
            self@.contains_key(self.spec_keys()[i as int]),
            *v == self@[self.spec_keys()[i as int]],
    {
        proof {
            lemma_line_get_at_sorted(self.entries@, i as int);
        }
        &self.entries[i].1
    }

    /// Appends a binding under a key greater than every existing one.
    pub fn insert_at_end(&mut self, k: usize, v: V)
        requires
            old(self).wf(),
            forall|i: int| 0 <= i < old(self).spec_keys().len() ==> old(self).spec_keys()[i] < k,
        ensures
            final(self).wf(),
            final(self)@ == old(self)@.insert(k, v),
            final(self).spec_keys() == old(self).spec_keys().push(k),
    {
        let ghost gv = v;
        self.entries.push((k, v));
        proof {
            let es = self.entries@;
            assert(es.drop_last() =~= old(self).entries@);
            assert forall|i: int, j: int| 0 <= i < j < es.len() implies (#[trigger] es[i]).0 < (
            #[trigger] es[j]).0 by {
                if j == es.len() - 1 {
                    assert(old(self).spec_keys()[i] == es[i].0);
                }
            }
            assert(self@ =~= old(self)@.insert(k, gv));
            assert(self.spec_keys() =~= old(self).spec_keys().push(k));
        }
    }

    fn find(&self, k: usize) -> (r: Option<usize>)
        ensures
            match r {
                Some(i) => i < self.entries@.len() && self.entries@[i as int].0 == k,
                None => forall|j: int|
                    0 <= j < self.entries@.len() ==> (#[trigger] self.entries@[j]).0 != k,
            },
    {
        let n = self.entries.len();
        let mut i: usize = 0;
        while i < n
            invariant
                i <= n,
                n == self.entries@.len(),
                forall|j: int| 0 <= j < i ==> (#[trigger] self.entries@[j]).0 != k,
            decreases n - i,
        {
            if self.entries[i].0 == k {
                return Some(i);
            }
            i += 1;
        }
        None
    }

    pub fn get(&self, k: usize) -> (r: Option<&V>)
        requires
            self.wf(),
        ensures
            match r {
                Some(v) => self@.contains_key(k) && *v == self@[k],
                None => !self@.contains_key(k),
            },
    {
        match self.find(k) {
            Some(i) => {
                proof {
                    lemma_line_get_at_sorted(self.entries@, i as int);
                }
                Some(&self.entries[i].1)
            },
            None => {
                proof {
                    lemma_line_get_absent(self.entries@, k);
                }
                None
            },
        }
    }

    fn entry_val_mut(&mut self, i: usize) -> (r: &mut V)
        requires
            i < old(self).entries@.len(),
        ensures
            *r == old(self).entries@[i as int].1,
            final(self).entries@.len() == old(self).entries@.len(),
            forall|j: int|
                0 <= j < old(self).entries@.len() && j != i ==> final(self).entries@[j] == old(
                    self,
                ).entries@[j],
            final(self).entries@[i as int] == (old(self).entries@[i as int].0, *final(r)),
    {
        &mut self.entries[i].1
    }

    /// Rebinds an existing key to a new value; the keys are untouched.
    pub fn set_existing(&mut self, k: usize, v: V)
        requires
            old(self).wf(),
            old(self)@.contains_key(k),
        ensures
            final(self).wf(),
            final(self)@ == old(self)@.insert(k, v),
            final(self).spec_keys() == old(self).spec_keys(),
    {
        let ghost gv = v;
        match self.find(k) {
            Some(i) => {
                proof {
                    lemma_line_get_at_sorted(self.entries@, i as int);
                }
                self.entries[i] = (k, v);
                proof {
                    let es = self.entries@;
                    let old_es = old(self).entries@;
                    assert forall|k2: usize| true implies #[trigger] line_get(es, k2) == (
                    if k2 == k {
                        Some(gv)
                    } else {
                        line_get(old_es, k2)
                    }) by {
                        lemma_line_get_set(old_es, es, i as int, k2);
                    }
                    assert(self@ =~= old(self)@.insert(k, gv));
                    assert(self.spec_keys() =~= old(self).spec_keys());
                }
            },
            None => {
                proof {
                    lemma_line_get_absent(self.entries@, k);
                    assert(false);
                }
            },
        }
    }

    /// Borrows the value bound to `k` for mutation; the keys are untouched.
    pub fn get_mut(&mut self, k: usize) -> (r: Option<&mut V>)
        requires
            old(self).wf(),
        ensures
            final(self).wf(),
            final(self).spec_keys() == old(self).spec_keys(),
            match r {
                Some(v) => old(self)@.contains_key(k) && *v == old(self)@[k] && final(self)@ == old(
                    self,
                )@.insert(k, *final(v)),
                None => !old(self)@.contains_key(k) && final(self)@ == old(self)@,
            },
    {
        match self.find(k) {
            Some(i) => {
                let ghost old_es = self.entries@;
                proof {
                    lemma_line_get_at_sorted(old_es, i as int);
                    assert forall|es2: Seq<(usize, V)>|
                        es2.len() == old_es.len() && (forall|j: int|
                            0 <= j < old_es.len() && j != i ==> es2[j] == old_es[j]) && es2[i as int]
                            == (old_es[i as int].0, es2[i as int].1) implies #[trigger] line_map(
                        es2,
                    ) == line_map(old_es).insert(k, es2[i as int].1) && line_keys(es2) == line_keys(
                        old_es,
                    ) by {
                        assert(line_keys(es2) =~= line_keys(old_es));
                        assert forall|k2: usize| true implies #[trigger] line_get(es2, k2) == (
                        if k2 == k {
                            Some(es2[i as int].1)
                        } else {
                            line_get(old_es, k2)
                        }) by {
                            lemma_line_get_set(old_es, es2, i as int, k2);
                        }
                        assert(line_map(es2) =~= line_map(old_es).insert(k, es2[i as int].1));
                    }
                }
                let r = self.entry_val_mut(i);
                Some(r)
            },
            None => {
                proof {
                    lemma_line_get_absent(self.entries@, k);
                }
                None
            },
        }
    }
}

impl<V> LineMap<V> {
    /// A key is bound exactly when it is one of the entry keys.
    pub proof fn lemma_keys_dom(&self)
        requires
            self.wf(),
        ensures
            forall|k: usize| #[trigger] self@.contains_key(k) <==> self.spec_keys().contains(k),
    {
        assert forall|k: usize| #[trigger] self@.contains_key(k) implies self.spec_keys().contains(
            k,
        ) by {
            lemma_line_get_some_index(self.entries@, k);
            let i = choose|i: int|
                0 <= i < self.entries@.len() && (#[trigger] self.entries@[i]).0 == k;
            assert(self.spec_keys()[i] == k);
        }
        assert forall|k: usize| self.spec_keys().contains(k) implies self@.contains_key(k) by {
            let i = choose|i: int| 0 <= i < self.spec_keys().len() && self.spec_keys()[i] == k;
            lemma_line_get_at_sorted(self.entries@, i);
        }
    }
}

/// A bound key appears among the entries.
proof fn lemma_line_get_some_index<V>(es: Seq<(usize, V)>, k: usize)
    requires
        line_get(es, k) is Some,
    ensures
        exists|i: int| 0 <= i < es.len() && (#[trigger] es[i]).0 == k,
    decreases es.len(),
{
    if es.len() > 0 {
        if es.last().0 == k {
            assert(es[es.len() - 1].0 == k);
        } else {
            lemma_line_get_some_index(es.drop_last(), k);
            let i = choose|i: int| 0 <= i < es.drop_last().len() && (#[trigger] es.drop_last()[i]).0
                == k;
            assert(es[i].0 == k);
        }
    }
}

/// Under strictly increasing keys, position `i` resolves to its own entry.
proof fn lemma_line_get_at_sorted<V>(es: Seq<(usize, V)>, i: int)
    requires
        0 <= i < es.len(),
        forall|p: int, q: int| 0 <= p < q < es.len() ==> (#[trigger] es[p]).0 < (#[trigger] es[q]).0,
    ensures
        line_get(es, es[i].0) == Some(es[i].1),
{
    lemma_line_get_at(es, i);
}

} // verus!
