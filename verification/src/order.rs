//! Names held in order: a set of names, and a table that is keyed by name.
//!
//! Both keep their names in ascending order of their bytes, each of them once, so that walking one
//! is always walking it in that order.
use crate::text::{
    before, comes_before, lemma_before_total, lemma_before_transitive, same, views,
};
use vstd::prelude::*;

verus! {

/// Whether a list is in ascending order, with nothing twice.
pub open spec fn sorted(list: Seq<Seq<char>>) -> bool {
    forall|i: int, j: int| 0 <= i < j < list.len() ==> before(#[trigger] list[i], #[trigger] list[j])
}

/// How many of the names in an ascending list come before `name`.
pub open spec fn rank(list: Seq<Seq<char>>, name: Seq<char>) -> nat
    decreases list.len(),
{
    if list.len() == 0 {
        0
    } else if before(list.last(), name) {
        list.len()
    } else {
        rank(list.drop_last(), name)
    }
}

/// An ascending list with `name` in its place.
pub open spec fn with_name(list: Seq<Seq<char>>, name: Seq<char>) -> Seq<Seq<char>> {
    if list.contains(name) {
        list
    } else {
        list.insert(rank(list, name) as int, name)
    }
}

proof fn lemma_rank(list: Seq<Seq<char>>, name: Seq<char>, i: int)
    requires
        sorted(list),
        0 <= i <= list.len(),
        forall|j: int| 0 <= j < i ==> before(#[trigger] list[j], name),
        i < list.len() ==> !before(list[i], name),
    ensures
        rank(list, name) == i,
    decreases list.len(),
{
    if list.len() > 0 {
        if before(list.last(), name) {
            if i < list.len() - 1 {
                lemma_before_transitive(list[i], list.last(), name);
            }
        } else {
            lemma_rank(list.drop_last(), name, i);
        }
    }
}

/// What the rank of a name says about the list around it.
pub proof fn lemma_rank_splits(list: Seq<Seq<char>>, name: Seq<char>)
    requires
        sorted(list),
    ensures
        rank(list, name) <= list.len(),
        forall|j: int| 0 <= j < rank(list, name) ==> before(#[trigger] list[j], name),
        forall|j: int| rank(list, name) <= j < list.len() ==> !before(#[trigger] list[j], name),
    decreases list.len(),
{
    if list.len() > 0 {
        if before(list.last(), name) {
            assert forall|j: int| 0 <= j < list.len() implies before(#[trigger] list[j], name) by {
                if j < list.len() - 1 {
                    lemma_before_transitive(list[j], list.last(), name);
                }
            }
        } else {
            lemma_rank_splits(list.drop_last(), name);
            assert forall|j: int| 0 <= j < rank(list, name) implies before(
                #[trigger] list[j],
                name,
            ) by {
                assert(list.drop_last()[j] == list[j]);
            }
            assert forall|j: int| rank(list, name) <= j < list.len() implies !before(
                #[trigger] list[j],
                name,
            ) by {
                if j < list.len() - 1 {
                    assert(list.drop_last()[j] == list[j]);
                }
            }
        }
    }
}

/// A name put in its place leaves the list in order and adds nothing but itself.
pub proof fn law_with_name(list: Seq<Seq<char>>, name: Seq<char>)
    requires
        sorted(list),
    ensures
        sorted(with_name(list, name)),
        with_name(list, name).contains(name),
        forall|other: Seq<char>|
            with_name(list, name).contains(other) <==> (list.contains(other) || other == name),
{
    if !list.contains(name) {
        let r = rank(list, name) as int;
        let new = list.insert(r, name);
        lemma_rank_splits(list, name);
        assert forall|i: int, j: int| 0 <= i < j < new.len() implies before(
            #[trigger] new[i],
            #[trigger] new[j],
        ) by {
            let a = if i < r {
                i
            } else {
                i - 1
            };
            let b = if j < r {
                j
            } else {
                j - 1
            };
            if i == r {
                lemma_before_total(list[b], name);
                assert(list.contains(list[b]));
                assert(new[j] == list[b]);
            } else if j == r {
                assert(new[i] == list[a]);
            } else {
                assert(new[i] == list[a]);
                assert(new[j] == list[b]);
            }
        }
        assert(new[r] == name);
        assert forall|other: Seq<char>| list.contains(other) implies new.contains(other) by {
            let i = choose|i: int| 0 <= i < list.len() && list[i] == other;
            if i < r {
                assert(new[i] == other);
            } else {
                assert(new[i + 1] == other);
            }
        }
        assert forall|other: Seq<char>| new.contains(other) && other != name implies list.contains(
            other,
        ) by {
            let i = choose|i: int| 0 <= i < new.len() && new[i] == other;
            if i < r {
                assert(list[i] == other);
            } else {
                assert(list[i - 1] == other);
            }
        }
    }
}

/// A list in ascending order is determined by what it holds.
pub proof fn law_order_is_determined_by_members(a: Seq<Seq<char>>, b: Seq<Seq<char>>)
    requires
        sorted(a),
        sorted(b),
        forall|name: Seq<char>| a.contains(name) <==> b.contains(name),
    ensures
        a == b,
    decreases a.len(),
{
    if a.len() == 0 {
        if b.len() > 0 {
            assert(b.contains(b[0]));
        }
        assert(a =~= b);
    } else {
        assert(a.contains(a.last()));
        let i = choose|i: int| 0 <= i < b.len() && b[i] == a.last();
        assert(b.contains(b.last()));
        let j = choose|j: int| 0 <= j < a.len() && a[j] == b.last();
        lemma_before_total(a.last(), b.last());
        assert(a.last() == b.last());
        let rest_a = a.drop_last();
        let rest_b = b.drop_last();
        assert forall|name: Seq<char>| rest_a.contains(name) implies rest_b.contains(name) by {
            lemma_rest(a, b, name);
        }
        assert forall|name: Seq<char>| rest_b.contains(name) implies rest_a.contains(name) by {
            lemma_rest(b, a, name);
        }
        law_order_is_determined_by_members(rest_a, rest_b);
        assert(a =~= rest_a.push(a.last()));
        assert(b =~= rest_b.push(b.last()));
    }
}

proof fn lemma_rest(a: Seq<Seq<char>>, b: Seq<Seq<char>>, name: Seq<char>)
    requires
        a.len() > 0,
        b.len() > 0,
        sorted(a),
        a.last() == b.last(),
        forall|n: Seq<char>| a.contains(n) ==> b.contains(n),
        a.drop_last().contains(name),
    ensures
        b.drop_last().contains(name),
{
    let i = choose|i: int| 0 <= i < a.drop_last().len() && a.drop_last()[i] == name;
    assert(a[i] == name);
    lemma_before_total(name, a.last());
    assert(a.contains(name));
    let j = choose|j: int| 0 <= j < b.len() && b[j] == name;
    assert(b.drop_last()[j] == name);
}

/// Names in ascending order, each once.
#[derive(Debug, PartialEq, Eq)]
pub struct Names {
    pub items: Vec<String>,
}

impl View for Names {
    type V = Seq<Seq<char>>;

    open spec fn view(&self) -> Seq<Seq<char>> {
        views(self.items@)
    }
}

impl Names {
    pub open spec fn wf(&self) -> bool {
        sorted(self@)
    }

    pub fn new() -> (r: Names)
        ensures
            r.wf(),
            r@ == Seq::<Seq<char>>::empty(),
    {
        let r: Names = Names { items: Vec::new() };
        assert(r@ =~= Seq::empty());
        r
    }

    /// Where `name` is, or else where it belongs.
    fn place(&self, name: &str) -> (r: (usize, bool))
        requires
            self.wf(),
        ensures
            r.0 == rank(self@, name@),
            r.0 <= self.items@.len(),
            r.1 == self@.contains(name@),
            r.1 ==> r.0 < self@.len() && self@[r.0 as int] == name@,
    {
        let mut i: usize = 0;
        while i < self.items.len() && comes_before(self.items[i].as_str(), name)
            invariant
                i <= self.items.len(),
                forall|j: int| 0 <= j < i ==> before(#[trigger] self@[j], name@),
            decreases self.items.len() - i,
        {
            assert(self@[i as int] == self.items@[i as int]@);
            i = i + 1;
        }
        proof {
            if i < self@.len() {
                assert(self@[i as int] == self.items@[i as int]@);
            }
            lemma_rank(self@, name@, i as int);
            assert forall|j: int| 0 <= j < self@.len() && #[trigger] self@[j] == name@ implies j
                == i by {
                lemma_before_total(name@, name@);
                if j > i {
                    lemma_before_total(self@[i as int], self@[j]);
                }
            }
        }
        let found: bool = i < self.items.len() && same(self.items[i].as_str(), name);
        (i, found)
    }

    pub fn contains(&self, name: &str) -> (r: bool)
        requires
            self.wf(),
        ensures
            r == self@.contains(name@),
    {
        self.place(name).1
    }

    /// Puts `name` in its place; `false` means that it was there already.
    pub fn insert(&mut self, name: String) -> (r: bool)
        requires
            old(self).wf(),
        ensures
            final(self).wf(),
            final(self)@ == with_name(old(self)@, name@),
            r == !old(self)@.contains(name@),
    {
        proof {
            law_with_name(self@, name@);
        }
        let (i, found): (usize, bool) = self.place(name.as_str());
        if found {
            return false;
        }
        let ghost before = self@;
        let ghost name_view = name@;
        self.items.insert(i, name);
        assert(self@ =~= before.insert(i as int, name_view));
        true
    }
}

/// The rank of a name that is in the list is its index.
pub proof fn lemma_rank_of_member(list: Seq<Seq<char>>, i: int)
    requires
        sorted(list),
        0 <= i < list.len(),
    ensures
        rank(list, list[i]) == i,
{
    lemma_before_total(list[i], list[i]);
    lemma_rank(list, list[i], i);
}

/// Values kept under names, in ascending order of the names.
#[derive(Debug, PartialEq, Eq)]
pub struct Table<V> {
    pub keys: Names,
    pub vals: Vec<V>,
}

impl<V> View for Table<V> {
    type V = Map<Seq<char>, V>;

    open spec fn view(&self) -> Map<Seq<char>, V> {
        Map::new(
            |key: Seq<char>| self.keys@.contains(key),
            |key: Seq<char>| self.vals@[rank(self.keys@, key) as int],
        )
    }
}

impl<V> Table<V> {
    pub open spec fn wf(&self) -> bool {
        &&& self.keys.wf()
        &&& self.keys@.len() == self.vals@.len()
    }

    pub fn new() -> (r: Table<V>)
        ensures
            r.wf(),
            r.keys@ == Seq::<Seq<char>>::empty(),
            r@ == Map::<Seq<char>, V>::empty(),
    {
        let r: Table<V> = Table { keys: Names::new(), vals: Vec::new() };
        assert(r@ =~= Map::empty());
        r
    }

    /// The index of `key`.
    pub fn find(&self, key: &str) -> (r: Option<usize>)
        requires
            self.wf(),
        ensures
            match r {
                Some(i) => {
                    &&& self@.contains_key(key@)
                    &&& i < self.vals@.len()
                    &&& self.keys@[i as int] == key@
                    &&& self.vals@[i as int] == self@[key@]
                },
                None => !self@.contains_key(key@),
            },
    {
        let (i, found): (usize, bool) = self.keys.place(key);
        if found {
            Some(i)
        } else {
            None
        }
    }

    /// The index of `key`, which is given `value` if it has none yet.
    pub fn ensure(&mut self, key: String, value: V) -> (i: usize)
        requires
            old(self).wf(),
        ensures
            final(self).wf(),
            final(self).keys@ == with_name(old(self).keys@, key@),
            i < final(self).vals@.len(),
            i <= old(self).vals@.len(),
            final(self).keys@[i as int] == key@,
            final(self)@ == (if old(self)@.contains_key(key@) {
                old(self)@
            } else {
                old(self)@.insert(key@, value)
            }),
            final(self).vals@ == (if old(self)@.contains_key(key@) {
                old(self).vals@
            } else {
                old(self).vals@.insert(i as int, value)
            }),
    {
        let (i, found): (usize, bool) = self.keys.place(key.as_str());
        let ghost name = key@;
        let ghost keys = self.keys@;
        let ghost vals = self.vals@;
        proof {
            law_with_name(keys, name);
        }
        if !found {
            let inserted: bool = self.keys.insert(key);
            self.vals.insert(i, value);
            proof {
                let new = self.keys@;
                let map = old(self)@.insert(name, value);
                assert(new[i as int] == name);
                lemma_rank_of_member(new, i as int);
                assert forall|k: Seq<char>| new.contains(k) implies self@[k] == map[k] by {
                    if k != name {
                        let j = choose|j: int| 0 <= j < keys.len() && keys[j] == k;
                        lemma_rank_of_member(keys, j);
                        if j < i {
                            assert(new[j] == k);
                            lemma_rank_of_member(new, j);
                        } else {
                            assert(new[j + 1] == k);
                            lemma_rank_of_member(new, j + 1);
                        }
                    }
                }
                assert(self@ =~= map);
            }
        }
        i
    }

    /// The value at an index, to be changed in place.
    pub fn value_mut(&mut self, i: usize) -> (r: &mut V)
        requires
            old(self).wf(),
            i < old(self).vals@.len(),
        ensures
            *r == old(self)@[old(self).keys@[i as int]],
            *r == old(self).vals@[i as int],
            final(self).wf(),
            final(self).keys@ == old(self).keys@,
            final(self)@ == old(self)@.insert(old(self).keys@[i as int], *final(r)),
            final(self).vals@ == old(self).vals@.update(i as int, *final(r)),
    {
        proof {
            lemma_rank_of_member(self.keys@, i as int);
            lemma_update(*self, i as int);
        }
        &mut self.vals[i]
    }
}

proof fn lemma_update<V>(table: Table<V>, i: int)
    requires
        table.wf(),
        0 <= i < table.vals@.len(),
    ensures
        forall|after: Table<V>|
            after.keys == table.keys && after.vals@ == table.vals@.update(i, after.vals@[i])
                ==> #[trigger] after@ == table@.insert(table.keys@[i], after.vals@[i]),
{
    assert forall|after: Table<V>|
        after.keys == table.keys && after.vals@ == table.vals@.update(
            i,
            after.vals@[i],
        ) implies #[trigger] after@ == table@.insert(table.keys@[i], after.vals@[i]) by {
        lemma_rank_of_member(table.keys@, i);
        let map = table@.insert(table.keys@[i], after.vals@[i]);
        assert forall|k: Seq<char>| table.keys@.contains(k) implies after@[k] == map[k] by {
            let j = choose|j: int| 0 <= j < table.keys@.len() && table.keys@[j] == k;
            lemma_rank_of_member(table.keys@, j);
        }
        assert(after@ =~= map);
    }
}

/// The texts of a table.
pub open spec fn texts_of(table: Table<String>) -> Map<Seq<char>, Seq<char>> {
    Map::new(|key: Seq<char>| table@.contains_key(key), |key: Seq<char>| table@[key]@)
}

} // verus!
