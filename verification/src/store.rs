//! The entity store: values indexed by `namespace#ordinal` identifiers.
//!
//! A `TwoDMap` keeps one group per namespace and, inside a group, the
//! entries sorted by ascending ordinal, so that walking a namespace visits
//! entries in a deterministic ordinal-ascending order. Lookups normalize the
//! textual identifier through `parse_id`, so the store behaves as a mapping
//! from (namespace, ordinal) pairs to values.

use vstd::prelude::*;

use crate::ident::{id_key, parse_id};

verus! {

/// The entries of one namespace, sorted by strictly ascending ordinal.
pub struct NsGroup<V> {
    name: String,
    items: Vec<(usize, V)>,
}

/// A store keyed by namespace and ordinal.
pub struct TwoDMap<V> {
    groups: Vec<NsGroup<V>>,
}

/// The value stored under ordinal `o`, searching from the back.
pub closed spec fn items_get<V>(items: Seq<(usize, V)>, o: int) -> Option<V>
    decreases items.len(),
{
    if items.len() == 0 {
        None
    } else if items.last().0 == o {
        Some(items.last().1)
    } else {
        items_get(items.drop_last(), o)
    }
}

/// The value stored under namespace `ns` and ordinal `o`.
pub closed spec fn groups_get<V>(groups: Seq<NsGroup<V>>, ns: Seq<char>, o: int) -> Option<V>
    decreases groups.len(),
{
    if groups.len() == 0 {
        None
    } else if groups.last().name@ == ns {
        items_get(groups.last().items@, o)
    } else {
        groups_get(groups.drop_last(), ns, o)
    }
}

pub open spec fn items_sorted<V>(items: Seq<(usize, V)>) -> bool {
    forall|i: int, j: int| 0 <= i < j < items.len() ==> items[i].0 < items[j].0
}

impl<V> NsGroup<V> {
    pub closed spec fn wf(&self) -> bool {
        &&& items_sorted(self.items@)
        &&& self.items@.len() > 0
    }

    pub closed spec fn spec_name(&self) -> Seq<char> {
        self.name@
    }
}

/// The mapping a group sequence denotes.
pub closed spec fn groups_map<V>(groups: Seq<NsGroup<V>>) -> Map<(Seq<char>, int), V> {
    Map::new(
        |k: (Seq<char>, int)| groups_get(groups, k.0, k.1) is Some,
        |k: (Seq<char>, int)| groups_get(groups, k.0, k.1)->0,
    )
}

impl<V> View for TwoDMap<V> {
    type V = Map<(Seq<char>, int), V>;

    closed spec fn view(&self) -> Map<(Seq<char>, int), V> {
        groups_map(self.groups@)
    }
}

proof fn lemma_items_get_absent<V>(items: Seq<(usize, V)>, o: int)
    requires
        forall|j: int| 0 <= j < items.len() ==> (#[trigger] items[j]).0 != o,
    ensures
        items_get(items, o) is None,
    decreases items.len(),
{
    if items.len() > 0 {
        lemma_items_get_absent(items.drop_last(), o);
    }
}

proof fn lemma_items_get_at<V>(items: Seq<(usize, V)>, i: int)
    requires
        0 <= i < items.len(),
        forall|j: int| 0 <= j < items.len() && j != i ==> (#[trigger] items[j]).0 != items[i].0,
    ensures
        items_get(items, items[i].0 as int) == Some(items[i].1),
    decreases items.len(),
{
    if i == items.len() - 1 {
    } else {
        lemma_items_get_at(items.drop_last(), i);
    }
}

/// Under a sorted key sequence, `items_get` at position `i`'s key yields
/// exactly that entry.
proof fn lemma_items_get_sorted_at<V>(items: Seq<(usize, V)>, i: int)
    requires
        items_sorted(items),
        0 <= i < items.len(),
    ensures
        items_get(items, items[i].0 as int) == Some(items[i].1),
{
    lemma_items_get_at(items, i);
}

proof fn lemma_groups_get_at<V>(groups: Seq<NsGroup<V>>, i: int, o: int)
    requires
        0 <= i < groups.len(),
        forall|j: int|
            0 <= j < groups.len() && j != i ==> (#[trigger] groups[j]).spec_name()
                != groups[i].spec_name(),
    ensures
        groups_get(groups, groups[i].spec_name(), o) == items_get(groups[i].items@, o),
    decreases groups.len(),
{
    if i == groups.len() - 1 {
    } else {
        lemma_groups_get_at(groups.drop_last(), i, o);
    }
}

proof fn lemma_groups_get_absent<V>(groups: Seq<NsGroup<V>>, ns: Seq<char>, o: int)
    requires
        forall|j: int| 0 <= j < groups.len() ==> (#[trigger] groups[j]).spec_name() != ns,
    ensures
        groups_get(groups, ns, o) is None,
    decreases groups.len(),
{
    if groups.len() > 0 {
        lemma_groups_get_absent(groups.drop_last(), ns, o);
    }
}

impl<V> TwoDMap<V> {
    /// Internal consistency: distinct namespaces, each group non-empty and
    /// sorted by ascending ordinal.
    pub closed spec fn wf(&self) -> bool {
        &&& forall|i: int, j: int|
            0 <= i < j < self.groups@.len() ==> (#[trigger] self.groups@[i]).spec_name() != (
            #[trigger] self.groups@[j]).spec_name()
        &&& forall|i: int| 0 <= i < self.groups@.len() ==> (#[trigger] self.groups@[i]).wf()
    }

    /// The namespace names the store holds, in first-insertion order.
    pub closed spec fn spec_namespaces(&self) -> Seq<Seq<char>> {
        Seq::new(self.groups@.len(), |i: int| self.groups@[i].spec_name())
    }

    /// An empty store.
    pub fn new() -> (r: Self)
        ensures
            r.wf(),
            r@ == Map::<(Seq<char>, int), V>::empty(),
    {
        let r = TwoDMap { groups: Vec::new() };
        proof {
            assert(r@ =~= Map::<(Seq<char>, int), V>::empty());
        }
        r
    }

    /// Finds the position of the group named `ns`, if any.
    fn find_group(&self, ns: &String) -> (r: Option<usize>)
        ensures
            match r {
                Some(i) => i < self.groups@.len() && self.groups@[i as int].spec_name() == ns@,
                None => forall|j: int|
                    0 <= j < self.groups@.len() ==> (#[trigger] self.groups@[j]).spec_name() != ns@,
            },
    {
        let n = self.groups.len();
        let mut i: usize = 0;
        while i < n
            invariant
                i <= n,
                n == self.groups@.len(),
                forall|j: int| 0 <= j < i ==> (#[trigger] self.groups@[j]).spec_name() != ns@,
            decreases n - i,
        {
            if self.groups[i].name == *ns {
                return Some(i);
            }
            i += 1;
        }
        None
    }

    /// Inserts `item` under the identifier `id`, overwriting any entry the
    /// same namespace and ordinal already have.
    pub fn insert(&mut self, id: &str, item: V)
        requires
            old(self).wf(),
        ensures
            final(self).wf(),
            final(self)@ == old(self)@.insert(id_key(id@), item),
    {
        let ghost gitem = item;
        let (ns, o) = parse_id(id);
        let ghost key = id_key(id@);
        match self.find_group(&ns) {
            None => {
                let mut items: Vec<(usize, V)> = Vec::new();
                items.push((o, item));
                let g = NsGroup { name: ns, items };
                proof {
                    assert forall|o2: int| true implies !self@.contains_key((key.0, o2)) by {
                        lemma_groups_get_absent(self.groups@, key.0, o2);
                    }
                }
                self.groups.push(g);
                proof {
                    let gs = self.groups@;
                    let old_gs = old(self).groups@;
                    let g2 = gs.last();
                    assert(gs.drop_last() =~= old_gs);
                    assert(g2.items@ =~= seq![(o, gitem)]);
                    assert forall|o2: int| true implies #[trigger] items_get(g2.items@, o2) == (
                    if o2 == key.1 {
                        Some(gitem)
                    } else {
                        None::<V>
                    }) by {
                        assert(g2.items@.len() == 1);
                        assert(g2.items@.last() == (o, gitem));
                        lemma_items_get_absent(g2.items@.drop_last(), o2);
                    }
                    assert(self@ =~= old(self)@.insert(key, gitem));
                }
            },
            Some(gi) => {
                proof {
                    lemma_groups_get_at(self.groups@, gi as int, key.1);
                }
                let pos = Self::find_slot(&self.groups[gi].items, o);
                let ghost old_items = self.groups@[gi as int].items@;
                if pos < self.groups[gi].items.len() && self.groups[gi].items[pos].0 == o {
                    self.groups[gi].items[pos] = (o, item);
                } else {
                    self.groups[gi].items.insert(pos, (o, item));
                }
                proof {
                    let gs = self.groups@;
                    let old_gs = old(self).groups@;
                    let g = gs[gi as int];
                    let items = g.items@;
                    assert(gs =~= old_gs.update(gi as int, g));
                    // the updated group is still sorted and non-empty
                    if pos < old_items.len() && old_items[pos as int].0 == key.1 {
                        assert(items =~= old_items.update(pos as int, (o, item)));
                    } else {
                        assert(items =~= old_items.insert(pos as int, (o, item)));
                        assert forall|i: int, j: int| 0 <= i < j < items.len() implies
                            items[i].0 < items[j].0 by {
                            if i < pos && j > pos {
                                assert(items[i] == old_items[i]);
                                assert(items[j] == old_items[j - 1]);
                            } else if i < pos && j == pos {
                                assert(items[i] == old_items[i]);
                            } else if i == pos && j > pos {
                                assert(items[j] == old_items[j - 1]);
                            } else if i > pos {
                                assert(items[i] == old_items[i - 1]);
                                assert(items[j] == old_items[j - 1]);
                            }
                        }
                    }
                    assert(self.wf());
                    // pointwise: the new group resolves key.1 to the new item
                    assert forall|o2: int| true implies #[trigger] items_get(items, o2) == (
                    if o2 == key.1 {
                        Some(gitem)
                    } else {
                        items_get(old_items, o2)
                    }) by {
                        if pos < old_items.len() && old_items[pos as int].0 == key.1 {
                            lemma_items_get_set(old_items, items, pos as int, o2, gitem);
                        } else {
                            assert forall|j: int| 0 <= j < old_items.len() implies (
                            #[trigger] old_items[j]).0 != key.1 by {
                                if j >= pos {
                                    if pos < old_items.len() && j > pos {
                                        assert(old_items[pos as int].0 < old_items[j].0);
                                    }
                                }
                            }
                            lemma_items_get_ins(old_items, items, pos as int, o2, gitem);
                        }
                    }
                    assert forall|ns2: Seq<char>, o2: int|
                        true implies #[trigger] groups_get(gs, ns2, o2) == (if ns2 == key.0 {
                        items_get(items, o2)
                    } else {
                        groups_get(old_gs, ns2, o2)
                    }) by {
                        lemma_groups_get_pointwise(old_gs, gs, gi as int, ns2, o2);
                    }
                    assert forall|o2: int|
                        true implies #[trigger] groups_get(old_gs, key.0, o2) == items_get(
                        old_items,
                        o2,
                    ) by {
                        lemma_groups_get_at(old_gs, gi as int, o2);
                    }
                    assert(self@ =~= old(self)@.insert(key, gitem));
                }
            },
        }
    }

    /// The position of ordinal `o` in a sorted entry list, or the position
    /// where it would be inserted.
    fn find_slot(items: &Vec<(usize, V)>, o: usize) -> (p: usize)
        requires
            items_sorted(items@),
        ensures
            p <= items@.len(),
            forall|j: int| 0 <= j < p ==> (#[trigger] items@[j]).0 < o,
            p < items@.len() ==> items@[p as int].0 >= o,
    {
        let n = items.len();
        let mut p: usize = 0;
        while p < n
            invariant
                p <= n,
                n == items@.len(),
                forall|j: int| 0 <= j < p ==> (#[trigger] items@[j]).0 < o,
            decreases n - p,
        {
            if items[p].0 >= o {
                return p;
            }
            p += 1;
        }
        p
    }

    /// Looks the identifier up, returning the stored value if the namespace
    /// and ordinal are present.
    pub fn get(&self, id: &str) -> (r: Option<&V>)
        requires
            self.wf(),
        ensures
            match r {
                Some(v) => self@.contains_key(id_key(id@)) && *v == self@[id_key(id@)],
                None => !self@.contains_key(id_key(id@)),
            },
    {
        let (ns, o) = parse_id(id);
        let ghost key = id_key(id@);
        match self.find_group(&ns) {
            None => {
                proof {
                    lemma_groups_get_absent(self.groups@, key.0, key.1);
                }
                None
            },
            Some(gi) => {
                proof {
                    lemma_groups_get_at(self.groups@, gi as int, key.1);
                }
                let items = &self.groups[gi].items;
                let pos = Self::find_slot(items, o);
                if pos < items.len() && items[pos].0 == o {
                    proof {
                        lemma_items_get_sorted_at(items@, pos as int);
                    }
                    Some(&items[pos].1)
                } else {
                    proof {
                        assert forall|j: int| 0 <= j < items@.len() implies (#[trigger] items@[j]).0
                            != key.1 by {
                            if j >= pos && pos < items@.len() {
                                if j > pos {
                                    assert(items@[pos as int].0 < items@[j].0);
                                }
                            }
                        }
                        lemma_items_get_absent(items@, key.1);
                    }
                    None
                }
            },
        }
    }

    /// Borrows the value at group `gi`, entry `pos`, for mutation.
    fn item_mut(&mut self, gi: usize, pos: usize) -> (r: &mut V)
        requires
            gi < old(self).groups@.len(),
            pos < old(self).groups@[gi as int].items@.len(),
        ensures
            *r == old(self).groups@[gi as int].items@[pos as int].1,
            final(self).groups@.len() == old(self).groups@.len(),
            forall|j: int|
                0 <= j < old(self).groups@.len() && j != gi ==> final(self).groups@[j] == old(
                    self,
                ).groups@[j],
            final(self).groups@[gi as int].spec_name() == old(self).groups@[gi as int].spec_name(),
            final(self).groups@[gi as int].items@ == old(self).groups@[gi as int].items@.update(
                pos as int,
                (old(self).groups@[gi as int].items@[pos as int].0, *final(r)),
            ),
    {
        &mut self.groups[gi].items[pos].1
    }

    /// Looks the identifier up for mutation. The caller may change the value
    /// behind the returned reference; the keys are untouched.
    pub fn get_mut(&mut self, id: &str) -> (r: Option<&mut V>)
        requires
            old(self).wf(),
        ensures
            final(self).wf(),
            match r {
                Some(v) => old(self)@.contains_key(id_key(id@)) && *v == old(self)@[id_key(id@)]
                    && final(self)@ == old(self)@.insert(id_key(id@), *final(v)),
                None => !old(self)@.contains_key(id_key(id@)) && final(self)@ == old(self)@,
            },
    {
        let (ns, o) = parse_id(id);
        let ghost key = id_key(id@);
        match self.find_group(&ns) {
            None => {
                proof {
                    lemma_groups_get_absent(self.groups@, key.0, key.1);
                }
                None
            },
            Some(gi) => {
                proof {
                    lemma_groups_get_at(self.groups@, gi as int, key.1);
                }
                let pos = Self::find_slot(&self.groups[gi].items, o);
                if pos < self.groups[gi].items.len() && self.groups[gi].items[pos].0 == o {
                    let ghost old_gs = self.groups@;
                    let ghost old_items = old_gs[gi as int].items@;
                    let ghost oo = old_items[pos as int].0;
                    proof {
                        lemma_items_get_sorted_at(old_items, pos as int);
                        // Whatever value the caller leaves behind the borrow,
                        // the store's mapping is the old one with this key
                        // rebound to that value.
                        assert forall|gs2: Seq<NsGroup<V>>|
                            gs2.len() == old_gs.len() && (forall|j: int|
                                0 <= j < old_gs.len() && j != gi ==> gs2[j] == old_gs[j])
                                && gs2[gi as int].spec_name() == old_gs[gi as int].spec_name()
                                && gs2[gi as int].items@ == old_items.update(
                                pos as int,
                                (oo, gs2[gi as int].items@[pos as int].1),
                            ) implies #[trigger] groups_map(gs2) == groups_map(old_gs).insert(
                            key,
                            gs2[gi as int].items@[pos as int].1,
                        ) && gs2[gi as int].wf() by {
                            let v2 = gs2[gi as int].items@[pos as int].1;
                            let items2 = gs2[gi as int].items@;
                            assert forall|i: int, j: int|
                                0 <= i < j < items2.len() implies items2[i].0 < items2[j].0 by {
                                assert(old_items[i].0 == items2[i].0);
                                assert(old_items[j].0 == items2[j].0);
                            }
                            assert forall|o2: int| true implies #[trigger] items_get(items2, o2)
                                == (if o2 == key.1 {
                                Some(v2)
                            } else {
                                items_get(old_items, o2)
                            }) by {
                                lemma_items_get_set(old_items, items2, pos as int, o2, v2);
                            }
                            assert forall|ns2: Seq<char>, o2: int|
                                true implies #[trigger] groups_get(gs2, ns2, o2) == (if ns2 == key.0 {
                                items_get(items2, o2)
                            } else {
                                groups_get(old_gs, ns2, o2)
                            }) by {
                                lemma_groups_get_pointwise(old_gs, gs2, gi as int, ns2, o2);
                            }
                            assert forall|o2: int|
                                true implies #[trigger] groups_get(old_gs, key.0, o2) == items_get(
                                old_items,
                                o2,
                            ) by {
                                lemma_groups_get_at(old_gs, gi as int, o2);
                            }
                            assert(groups_map(gs2) =~= groups_map(old_gs).insert(key, v2));
                        }
                    }
                    let r = self.item_mut(gi, pos);
                    Some(r)
                } else {
                    proof {
                        let items = self.groups@[gi as int].items@;
                        assert forall|j: int| 0 <= j < items.len() implies (#[trigger] items[j]).0
                            != key.1 by {
                            if j > pos && pos < items.len() {
                                assert(items[pos as int].0 < items[j].0);
                            }
                        }
                        lemma_items_get_absent(items, key.1);
                    }
                    None
                }
            },
        }
    }

    /// True when some entry of the store lives in namespace `ns`.
    pub fn contains_namespace(&self, ns: &String) -> (r: bool)
        requires
            self.wf(),
        ensures
            r == exists|o: int| self@.contains_key((ns@, o)),
    {
        match self.find_group(ns) {
            Some(gi) => {
                proof {
                    let g = self.groups@[gi as int];
                    let o0 = g.items@[0].0 as int;
                    lemma_groups_get_at(self.groups@, gi as int, o0);
                    lemma_items_get_sorted_at(g.items@, 0);
                    assert(self@.contains_key((ns@, o0)));
                }
                true
            },
            None => {
                proof {
                    assert forall|o: int| true implies !self@.contains_key((ns@, o)) by {
                        lemma_groups_get_absent(self.groups@, ns@, o);
                    }
                }
                false
            },
        }
    }

    /// The number of namespaces in the store.
    pub fn namespace_count(&self) -> (n: usize)
        ensures
            n == self.spec_namespaces().len(),
    {
        self.groups.len()
    }

    /// The name of the namespace at position `i`, in first-insertion order.
    pub fn namespace_at(&self, i: usize) -> (ns: &String)
        requires
            i < self.spec_namespaces().len(),
        ensures
            ns@ == self.spec_namespaces()[i as int],
    {
        &self.groups[i].name
    }

    /// The entries of the namespace at position `i`, sorted by ascending
    /// ordinal; every entry is the stored value under its key.
    pub fn entries_at(&self, i: usize) -> (items: &Vec<(usize, V)>)
        requires
            self.wf(),
            i < self.spec_namespaces().len(),
        ensures
            items_sorted(items@),
            items@.len() > 0,
            forall|j: int|
                0 <= j < items@.len() ==> {
                    let k = (self.spec_namespaces()[i as int], (#[trigger] items@[j]).0 as int);
                    self@.contains_key(k) && self@[k] == items@[j].1
                },
    {
        let items = &self.groups[i].items;
        proof {
            assert forall|j: int| 0 <= j < items@.len() implies {
                let k = (self.groups@[i as int].spec_name(), (#[trigger] items@[j]).0 as int);
                self@.contains_key(k) && self@[k] == items@[j].1
            } by {
                lemma_groups_get_at(self.groups@, i as int, items@[j].0 as int);
                lemma_items_get_sorted_at(items@, j);
            }
        }
        items
    }
}

/// Pointwise effect of overwriting the entry at `pos`: its own ordinal
/// resolves to the new value, every other ordinal as before.
proof fn lemma_items_get_set<V>(
    old_items: Seq<(usize, V)>,
    items: Seq<(usize, V)>,
    pos: int,
    o2: int,
    item: V,
)
    requires
        0 <= pos < old_items.len(),
        items == old_items.update(pos, (old_items[pos].0, item)),
        forall|j: int|
            0 <= j < old_items.len() && j != pos ==> (#[trigger] old_items[j]).0
                != old_items[pos].0,
    ensures
        items_get(items, o2) == if o2 == old_items[pos].0 {
            Some(item)
        } else {
            items_get(old_items, o2)
        },
    decreases items.len(),
{
    if o2 == old_items[pos].0 {
        lemma_items_get_at(items, pos);
    } else if items.len() > 0 {
        if pos == items.len() - 1 {
            assert(items.drop_last() =~= old_items.drop_last());
        } else {
            assert(items.drop_last() =~= old_items.drop_last().update(
                pos,
                (old_items[pos].0, item),
            ));
            lemma_items_get_set(old_items.drop_last(), items.drop_last(), pos, o2, item);
        }
    }
}

/// Pointwise effect of inserting a fresh ordinal at `pos`: it resolves to
/// the new value, every other ordinal as before.
proof fn lemma_items_get_ins<V>(
    old_items: Seq<(usize, V)>,
    items: Seq<(usize, V)>,
    pos: int,
    o2: int,
    item: V,
)
    requires
        0 <= pos <= old_items.len(),
        items == old_items.insert(pos, (items[pos].0, item)),
        forall|j: int| 0 <= j < old_items.len() ==> (#[trigger] old_items[j]).0 != items[pos].0,
    ensures
        items_get(items, o2) == if o2 == items[pos].0 {
            Some(item)
        } else {
            items_get(old_items, o2)
        },
    decreases items.len(),
{
    assert(items.len() == old_items.len() + 1);
    assert forall|j: int| 0 <= j < pos implies items[j] == old_items[j] by {}
    assert forall|j: int| pos < j < items.len() implies items[j] == old_items[j - 1] by {}
    if o2 == items[pos].0 {
        assert forall|j: int| 0 <= j < items.len() && j != pos implies (#[trigger] items[j]).0
            != items[pos].0 by {}
        lemma_items_get_at(items, pos);
    } else {
        if pos == items.len() - 1 {
            assert(items.drop_last() =~= old_items);
        } else {
            assert(items.drop_last() =~= old_items.drop_last().insert(pos, (items[pos].0, item)));
            assert(items.drop_last()[pos] == items[pos]);
            lemma_items_get_ins(old_items.drop_last(), items.drop_last(), pos, o2, item);
            assert(items.last() == old_items.last());
        }
    }
}

/// Replacing the group at position `gi` (same namespace) leaves lookups of
/// other namespaces unchanged, and routes its own namespace to the new
/// group's entries.
proof fn lemma_groups_get_pointwise<V>(
    old_gs: Seq<NsGroup<V>>,
    gs: Seq<NsGroup<V>>,
    gi: int,
    ns2: Seq<char>,
    o2: int,
)
    requires
        0 <= gi < gs.len(),
        gs.len() == old_gs.len(),
        forall|j: int| 0 <= j < gs.len() && j != gi ==> gs[j] == old_gs[j],
        gs[gi].spec_name() == old_gs[gi].spec_name(),
        forall|i: int, j: int|
            0 <= i < j < old_gs.len() ==> (#[trigger] old_gs[i]).spec_name() != (
            #[trigger] old_gs[j]).spec_name(),
    ensures
        groups_get(gs, ns2, o2) == if ns2 == gs[gi].spec_name() {
            items_get(gs[gi].items@, o2)
        } else {
            groups_get(old_gs, ns2, o2)
        },
    decreases gs.len(),
{
    if gs.len() > 0 {
        if gi == gs.len() - 1 {
            if ns2 == gs[gi].spec_name() {
            } else {
                assert(gs.drop_last() =~= old_gs.drop_last());
            }
        } else {
            lemma_groups_get_pointwise(old_gs.drop_last(), gs.drop_last(), gi, ns2, o2);
            assert(gs.last() == old_gs.last());
            if ns2 == gs[gi].spec_name() {
                assert(old_gs.last().spec_name() != old_gs[gi].spec_name());
            }
        }
    }
}

} // verus!
