//! Small tables keyed by byte strings, kept in vectors: a set of names, and
//! the mathematical map that two parallel sequences of keys and values stand for.

use vstd::prelude::*;
use crate::text::{views, bytes_eq, copy_bytes};

verus! {

/// No key occurs twice.
pub open spec fn distinct<K>(keys: Seq<K>) -> bool {
    forall|i: int, j: int| 0 <= i < j < keys.len() ==> keys[i] != keys[j]
}

/// An index at which `k` stands in `keys`.
pub open spec fn position<K>(keys: Seq<K>, k: K) -> int {
    choose|i: int| 0 <= i < keys.len() && keys[i] == k
}

/// The map that takes each key to the value at the key's index.
pub open spec fn table<K, V>(keys: Seq<K>, vals: Seq<V>) -> Map<K, V> {
    Map::new(|k: K| keys.contains(k), |k: K| vals[position(keys, k)])
}

/// The set of the members of a sequence.
pub open spec fn members<K>(keys: Seq<K>) -> Set<K> {
    Set::new(|k: K| keys.contains(k))
}

/// The value of a key in a map, or a default where the map has no such key.
pub open spec fn value_or<K, V>(m: Map<K, V>, k: K, default: V) -> V {
    if m.dom().contains(k) {
        m[k]
    } else {
        default
    }
}

/// Among distinct keys each key has one position.
pub proof fn lemma_position<K>(keys: Seq<K>, i: int)
    requires
        distinct(keys),
        0 <= i < keys.len(),
    ensures
        position(keys, keys[i]) == i,
        keys.contains(keys[i]),
{
    let p = position(keys, keys[i]);
    assert(0 <= p < keys.len() && keys[p] == keys[i]);
    if p < i {
        assert(keys[p] != keys[i]);
    } else if i < p {
        assert(keys[i] != keys[p]);
    }
}

/// A new key at the end adds one entry to the table.
pub proof fn lemma_table_push<K, V>(keys: Seq<K>, vals: Seq<V>, k: K, v: V)
    requires
        keys.len() == vals.len(),
        distinct(keys),
        !keys.contains(k),
    ensures
        distinct(keys.push(k)),
        table(keys.push(k), vals.push(v)) == table(keys, vals).insert(k, v),
        members(keys.push(k)) == members(keys).insert(k),
{
    let keys2 = keys.push(k);
    let vals2 = vals.push(v);
    assert forall|i: int, j: int| 0 <= i < j < keys2.len() implies keys2[i] != keys2[j] by {
        if j == keys.len() {
            assert(keys[i] == keys2[i]);
            assert(keys.contains(keys[i]));
        }
    }
    assert forall|x: K| keys2.contains(x) <==> (keys.contains(x) || x == k) by {
        if keys2.contains(x) {
            let i = choose|i: int| 0 <= i < keys2.len() && keys2[i] == x;
            if i < keys.len() {
                assert(keys[i] == x);
            }
        }
        if keys.contains(x) {
            let i = choose|i: int| 0 <= i < keys.len() && keys[i] == x;
            assert(keys2[i] == x);
        }
        if x == k {
            assert(keys2[keys.len() as int] == x);
        }
    }
    assert forall|x: K| keys2.contains(x) implies #[trigger] table(keys2, vals2)[x] == table(
        keys,
        vals,
    ).insert(k, v)[x] by {
        let i = choose|i: int| 0 <= i < keys2.len() && keys2[i] == x;
        lemma_position(keys2, i);
        if i < keys.len() {
            assert(keys[i] == x);
            lemma_position(keys, i);
        }
    }
    assert(table(keys2, vals2) =~= table(keys, vals).insert(k, v));
    assert(members(keys2) =~= members(keys).insert(k));
}

/// A member more at the end adds it to the set of members.
pub proof fn lemma_members_push<K>(keys: Seq<K>, k: K)
    ensures
        members(keys.push(k)) == members(keys).insert(k),
{
    let keys2 = keys.push(k);
    assert forall|x: K| keys2.contains(x) <==> (keys.contains(x) || x == k) by {
        if keys2.contains(x) {
            let i = choose|i: int| 0 <= i < keys2.len() && keys2[i] == x;
            if i < keys.len() {
                assert(keys[i] == x);
            }
        }
        if keys.contains(x) {
            let i = choose|i: int| 0 <= i < keys.len() && keys[i] == x;
            assert(keys2[i] == x);
        }
        if x == k {
            assert(keys2[keys.len() as int] == x);
        }
    }
    assert(members(keys2) =~= members(keys).insert(k));
}

/// A new value at the index of a key replaces the key's entry in the table.
pub proof fn lemma_table_update<K, V>(keys: Seq<K>, vals: Seq<V>, i: int, v: V)
    requires
        keys.len() == vals.len(),
        distinct(keys),
        0 <= i < keys.len(),
    ensures
        table(keys, vals.update(i, v)) == table(keys, vals).insert(keys[i], v),
{
    let vals2 = vals.update(i, v);
    lemma_position(keys, i);
    assert forall|x: K| keys.contains(x) implies #[trigger] table(keys, vals2)[x] == table(
        keys,
        vals,
    ).insert(keys[i], v)[x] by {
        let j = choose|j: int| 0 <= j < keys.len() && keys[j] == x;
        lemma_position(keys, j);
    }
    assert(table(keys, vals2) =~= table(keys, vals).insert(keys[i], v));
}

/// The index of `k` among `keys`, if it is there.
pub fn position_of(keys: &Vec<Vec<u8>>, k: &[u8]) -> (r: Option<usize>)
    ensures
        match r {
            Some(i) => i < keys@.len() && keys@[i as int]@ == k@ && views(keys@).contains(k@),
            None => !views(keys@).contains(k@),
        },
{
    let mut i: usize = 0;
    while i < keys.len()
        invariant
            i <= keys@.len(),
            forall|j: int| 0 <= j < i ==> keys@[j]@ != k@,
        decreases keys@.len() - i,
    {
        if bytes_eq(keys[i].as_slice(), k) {
            proof {
                assert(views(keys@)[i as int] == k@);
            }
            return Some(i);
        }
        i += 1;
    }
    proof {
        if views(keys@).contains(k@) {
            let j = choose|j: int| 0 <= j < views(keys@).len() && views(keys@)[j] == k@;
            assert(keys@[j]@ == k@);
        }
    }
    None
}

/// A set of names.
#[derive(Debug)]
pub struct NameSet {
    names: Vec<Vec<u8>>,
}

impl NameSet {
    /// No name is held twice.
    pub closed spec fn wf(&self) -> bool {
        distinct(views(self.names@))
    }

    /// The names, in the order in which they came.
    pub closed spec fn listed(&self) -> Seq<Seq<u8>> {
        views(self.names@)
    }

    /// The set of the names.
    pub closed spec fn view(&self) -> Set<Seq<u8>> {
        members(views(self.names@))
    }

    /// The list holds each name of the set once.
    pub proof fn lemma_listed(&self)
        requires
            self.wf(),
        ensures
            distinct(self.listed()),
            members(self.listed()) == self@,
    {
    }

    /// The empty set.
    pub fn new() -> (r: NameSet)
        ensures
            r.wf(),
            r@ == Set::<Seq<u8>>::empty(),
            r.listed() == Seq::<Seq<u8>>::empty(),
    {
        let r = NameSet { names: Vec::new() };
        proof {
            assert(r@ =~= Set::<Seq<u8>>::empty());
            assert(r.listed() =~= Seq::<Seq<u8>>::empty());
        }
        r
    }

    /// Whether `name` is in the set.
    pub fn contains(&self, name: &[u8]) -> (r: bool)
        ensures
            r == self@.contains(name@),
    {
        position_of(&self.names, name).is_some()
    }

    /// Adds `name` to the set.
    pub fn insert(&mut self, name: &[u8])
        requires
            old(self).wf(),
        ensures
            final(self).wf(),
            final(self)@ == old(self)@.insert(name@),
            final(self).listed() == if old(self)@.contains(name@) {
                old(self).listed()
            } else {
                old(self).listed().push(name@)
            },
    {
        if position_of(&self.names, name).is_none() {
            proof {
                lemma_table_push::<Seq<u8>, int>(
                    views(self.names@),
                    Seq::new(self.names@.len(), |i: int| 0int),
                    name@,
                    0int,
                );
            }
            let ghost before = self.names@;
            self.names.push(copy_bytes(name));
            proof {
                assert(views(self.names@) =~= views(before).push(name@));
            }
        } else {
            proof {
                assert(self@.insert(name@) =~= self@);
            }
        }
    }

    /// The number of names.
    pub fn len(&self) -> (r: usize)
        ensures
            r == self.listed().len(),
    {
        self.names.len()
    }

    /// The name at index `i` of the list.
    pub fn get(&self, i: usize) -> (r: &Vec<u8>)
        requires
            i < self.listed().len(),
        ensures
            r@ == self.listed()[i as int],
    {
        &self.names[i]
    }
}

} // verus!
