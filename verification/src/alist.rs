//! An association list from byte-string keys to values of any type, with a
//! mathematical `Map` view. Every store in this crate that needs map
//! semantics (the backing database, the overlay, the migration batch) is
//! built on it.

use vstd::prelude::*;

use crate::bytes::bytes_eq;

verus! {

/// True when no two entries of `s` share a key.
pub open spec fn unique_keys<V>(s: Seq<(Vec<u8>, V)>) -> bool {
    forall|i: int, j: int| 0 <= i < j < s.len() ==> s[i].0@ != s[j].0@
}

/// True when some entry of `s` has key `k`.
pub open spec fn has_key<V>(s: Seq<(Vec<u8>, V)>, k: Seq<u8>) -> bool {
    exists|i: int| 0 <= i < s.len() && s[i].0@ == k
}

/// The mapping that the entries of `s` describe, later entries overriding
/// earlier ones.
pub open spec fn map_of<V>(s: Seq<(Vec<u8>, V)>) -> Map<Seq<u8>, V>
    decreases s.len(),
{
    if s.len() == 0 {
        Map::empty()
    } else {
        map_of(s.drop_last()).insert(s.last().0@, s.last().1)
    }
}

/// The domain of `map_of` is finite and holds exactly the keys of `s`.
pub proof fn lemma_map_of_domain<V>(s: Seq<(Vec<u8>, V)>)
    ensures
        map_of(s).dom().finite(),
        forall|k: Seq<u8>| #[trigger] map_of(s).dom().contains(k) <==> has_key(s, k),
    decreases s.len(),
{
    if s.len() == 0 {
    } else {
        lemma_map_of_domain(s.drop_last());
        assert forall|k: Seq<u8>| #[trigger] map_of(s).dom().contains(k) <==> has_key(s, k) by {
            if map_of(s).dom().contains(k) {
                if k == s.last().0@ {
                    assert(s[s.len() - 1].0@ == k);
                } else {
                    let i = choose|i: int| 0 <= i < s.drop_last().len() && s.drop_last()[i].0@ == k;
                    assert(s[i].0@ == k);
                }
            }
            if has_key(s, k) {
                let i = choose|i: int| 0 <= i < s.len() && s[i].0@ == k;
                if i < s.len() - 1 {
                    assert(s.drop_last()[i].0@ == k);
                    assert(has_key(s.drop_last(), k));
                }
            }
        }
    }
}

/// With unique keys, each entry of `s` is in the map at its own key, and the
/// map has as many keys as `s` has entries.
pub proof fn lemma_map_of_values<V>(s: Seq<(Vec<u8>, V)>)
    requires
        unique_keys(s),
    ensures
        map_of(s).dom().finite(),
        map_of(s).dom().len() == s.len(),
        forall|i: int|
            0 <= i < s.len() ==> map_of(s).dom().contains(#[trigger] s[i].0@) && map_of(s)[s[i].0@]
                == s[i].1,
    decreases s.len(),
{
    lemma_map_of_domain(s);
    if s.len() == 0 {
    } else {
        assert(unique_keys(s.drop_last())) by {
            assert forall|i: int, j: int|
                0 <= i < j < s.drop_last().len() implies s.drop_last()[i].0@
                != s.drop_last()[j].0@ by {
                assert(s[i].0@ != s[j].0@);
            }
        }
        lemma_map_of_values(s.drop_last());
        lemma_map_of_domain(s.drop_last());
        assert(!has_key(s.drop_last(), s.last().0@)) by {
            if has_key(s.drop_last(), s.last().0@) {
                let i = choose|i: int|
                    0 <= i < s.drop_last().len() && s.drop_last()[i].0@ == s.last().0@;
                assert(s[i].0@ == s[s.len() - 1].0@);
                assert(false);
            }
        }
        assert(map_of(s).dom().len() == s.len()) by {
            assert(!map_of(s.drop_last()).dom().contains(s.last().0@));
            vstd::set::axiom_set_insert_len(map_of(s.drop_last()).dom(), s.last().0@);
            assert(map_of(s).dom() =~= map_of(s.drop_last()).dom().insert(s.last().0@));
        }
        assert forall|i: int|
            0 <= i < s.len() implies map_of(s).dom().contains(#[trigger] s[i].0@) && map_of(
            s,
        )[s[i].0@] == s[i].1 by {
            if i < s.len() - 1 {
                assert(s.drop_last()[i] == s[i]);
                assert(s[i].0@ != s.last().0@);
            }
        }
    }
}

/// Removing the entry at index `i` removes exactly its key from the map.
pub proof fn lemma_map_of_remove_idx<V>(s: Seq<(Vec<u8>, V)>, i: int)
    requires
        unique_keys(s),
        0 <= i < s.len(),
    ensures
        unique_keys(s.remove(i)),
        map_of(s.remove(i)) =~= map_of(s).remove(s[i].0@),
    decreases s.len(),
{
    lemma_map_of_domain(s);
    lemma_map_of_values(s);
    assert(unique_keys(s.remove(i))) by {
        assert forall|x: int, y: int|
            0 <= x < y < s.remove(i).len() implies s.remove(i)[x].0@ != s.remove(i)[y].0@ by {
            let xs = if x < i { x } else { x + 1 };
            let ys = if y < i { y } else { y + 1 };
            assert(s.remove(i)[x] == s[xs]);
            assert(s.remove(i)[y] == s[ys]);
        }
    }
    if i == s.len() - 1 {
        assert(s.remove(i) =~= s.drop_last());
        lemma_map_of_domain(s.drop_last());
        assert(!has_key(s.drop_last(), s.last().0@)) by {
            if has_key(s.drop_last(), s.last().0@) {
                let j = choose|j: int|
                    0 <= j < s.drop_last().len() && s.drop_last()[j].0@ == s.last().0@;
                assert(s[j].0@ == s[s.len() - 1].0@);
            }
        }
        assert(map_of(s.remove(i)) =~= map_of(s).remove(s[i].0@));
    } else {
        let t = s.remove(i);
        assert(t.drop_last() =~= s.drop_last().remove(i));
        assert(t.last() == s.last());
        assert(unique_keys(s.drop_last())) by {
            assert forall|x: int, y: int|
                0 <= x < y < s.drop_last().len() implies s.drop_last()[x].0@
                != s.drop_last()[y].0@ by {
                assert(s[x].0@ != s[y].0@);
            }
        }
        lemma_map_of_remove_idx(s.drop_last(), i);
        assert(s.drop_last()[i] == s[i]);
        assert(s[i].0@ != s.last().0@);
        assert(map_of(t) =~= map_of(s).remove(s[i].0@));
    }
}

/// Overwriting the entry at index `i` with an entry of the same key updates
/// exactly that key in the map.
pub proof fn lemma_map_of_update_idx<V>(s: Seq<(Vec<u8>, V)>, i: int, e: (Vec<u8>, V))
    requires
        unique_keys(s),
        0 <= i < s.len(),
        e.0@ == s[i].0@,
    ensures
        unique_keys(s.update(i, e)),
        map_of(s.update(i, e)) =~= map_of(s).insert(e.0@, e.1),
    decreases s.len(),
{
    lemma_map_of_values(s);
    assert(unique_keys(s.update(i, e))) by {
        assert forall|x: int, y: int|
            0 <= x < y < s.update(i, e).len() implies s.update(i, e)[x].0@ != s.update(
            i,
            e,
        )[y].0@ by {
            assert(s[x].0@ != s[y].0@);
        }
    }
    if i == s.len() - 1 {
        assert(s.update(i, e).drop_last() =~= s.drop_last());
        assert(map_of(s.update(i, e)) =~= map_of(s).insert(e.0@, e.1));
    } else {
        let t = s.update(i, e);
        assert(t.drop_last() =~= s.drop_last().update(i, e));
        assert(t.last() == s.last());
        assert(unique_keys(s.drop_last())) by {
            assert forall|x: int, y: int|
                0 <= x < y < s.drop_last().len() implies s.drop_last()[x].0@
                != s.drop_last()[y].0@ by {
                assert(s[x].0@ != s[y].0@);
            }
        }
        assert(s.drop_last()[i] == s[i]);
        lemma_map_of_update_idx(s.drop_last(), i, e);
        assert(s[i].0@ != s.last().0@);
        assert(map_of(t) =~= map_of(s).insert(e.0@, e.1));
    }
}

/// An association list with unique byte-string keys.
pub struct AList<V> {
    items: Vec<(Vec<u8>, V)>,
}

impl<V> View for AList<V> {
    type V = Map<Seq<u8>, V>;

    closed spec fn view(&self) -> Map<Seq<u8>, V> {
        map_of(self.items@)
    }
}

impl<V> AList<V> {
    /// The entries in storage order.
    pub closed spec fn seq(&self) -> Seq<(Vec<u8>, V)> {
        self.items@
    }

    /// Well-formed: no two entries share a key.
    pub open spec fn wf(&self) -> bool {
        unique_keys(self.seq())
    }

    /// The view is `map_of` the entries.
    pub proof fn lemma_view(&self)
        ensures
            self@ == map_of(self.seq()),
            self@.dom().finite(),
            forall|k: Seq<u8>| #[trigger] self@.dom().contains(k) <==> has_key(self.seq(), k),
    {
        lemma_map_of_domain(self.seq());
    }

    /// With unique keys, each stored entry is the map's entry for its key,
    /// and entry count equals key count.
    pub proof fn lemma_entries(&self)
        requires
            self.wf(),
        ensures
            self@.dom().finite(),
            self@.dom().len() == self.seq().len(),
            forall|i: int|
                0 <= i < self.seq().len() ==> self@.dom().contains(
                    #[trigger] self.seq()[i].0@,
                ) && self@[self.seq()[i].0@] == self.seq()[i].1,
    {
        lemma_map_of_values(self.seq());
    }

    /// An empty list.
    pub fn new() -> (r: AList<V>)
        ensures
            r.wf(),
            r@ == Map::<Seq<u8>, V>::empty(),
            r.seq() == Seq::<(Vec<u8>, V)>::empty(),
    {
        AList { items: Vec::new() }
    }

    /// The number of entries.
    pub fn len(&self) -> (r: usize)
        ensures
            r == self.seq().len(),
    {
        self.items.len()
    }

    /// True when no entry is stored.
    pub fn is_empty(&self) -> (r: bool)
        ensures
            r == (self.seq().len() == 0),
    {
        self.items.len() == 0
    }

    /// The entry at storage index `i`.
    pub fn item_at(&self, i: usize) -> (r: &(Vec<u8>, V))
        requires
            i < self.seq().len(),
        ensures
            *r == self.seq()[i as int],
    {
        &self.items[i]
    }

    /// The storage index of the entry with key `key`, if any.
    fn find(&self, key: &Vec<u8>) -> (r: Option<usize>)
        ensures
            match r {
                Some(i) => i < self.seq().len() && self.seq()[i as int].0@ == key@,
                None => !has_key(self.seq(), key@),
            },
    {
        let n = self.items.len();
        let mut i: usize = 0;
        while i < n
            invariant
                n == self.items@.len(),
                i <= n,
                forall|j: int| 0 <= j < i ==> self.items@[j].0@ != key@,
            decreases n - i,
        {
            if bytes_eq(&self.items[i].0, key) {
                return Some(i);
            }
            i = i + 1;
        }
        None
    }

    /// The value stored under `key`, if any.
    pub fn get(&self, key: &Vec<u8>) -> (r: Option<&V>)
        requires
            self.wf(),
        ensures
            match r {
                Some(v) => self@.dom().contains(key@) && *v == self@[key@],
                None => !self@.dom().contains(key@),
            },
    {
        proof {
            self.lemma_view();
            self.lemma_entries();
        }
        match self.find(key) {
            Some(i) => Some(&self.items[i].1),
            None => None,
        }
    }

    /// True when an entry is stored under `key`.
    pub fn contains_key(&self, key: &Vec<u8>) -> (r: bool)
        requires
            self.wf(),
        ensures
            r == self@.dom().contains(key@),
    {
        proof {
            self.lemma_view();
            self.lemma_entries();
        }
        match self.find(key) {
            Some(_) => true,
            None => false,
        }
    }

    /// Store `value` under `key`, replacing any earlier value.
    pub fn insert(&mut self, key: Vec<u8>, value: V)
        requires
            old(self).wf(),
        ensures
            final(self).wf(),
            final(self)@ == old(self)@.insert(key@, value),
    {
        proof {
            self.lemma_view();
        }
        match self.find(&key) {
            Some(i) => {
                proof {
                    lemma_map_of_update_idx(self.items@, i as int, (key, value));
                }
                vstd::pervasive::VecAdditionalExecFns::set(&mut self.items, i, (key, value));
            },
            None => {
                proof {
                    assert(self.items@.push((key, value)).drop_last() =~= self.items@);
                    assert forall|x: int, y: int|
                        0 <= x < y < self.items@.push((key, value)).len() implies self.items@.push(
                        (key, value),
                    )[x].0@ != self.items@.push((key, value))[y].0@ by {
                        if y < self.items@.len() {
                            assert(self.items@[x].0@ != self.items@[y].0@);
                        } else {
                            assert(self.items@[x].0@ != key@) by {
                                if self.items@[x].0@ == key@ {
                                    assert(has_key(self.items@, key@));
                                }
                            }
                        }
                    }
                }
                self.items.push((key, value));
            },
        }
    }

    /// Drop the entry stored under `key`, if any.
    pub fn remove(&mut self, key: &Vec<u8>)
        requires
            old(self).wf(),
        ensures
            final(self).wf(),
            final(self)@ == old(self)@.remove(key@),
    {
        proof {
            self.lemma_view();
        }
        match self.find(key) {
            Some(i) => {
                proof {
                    lemma_map_of_remove_idx(self.items@, i as int);
                }
                self.items.remove(i);
            },
            None => {
                proof {
                    assert(self@ =~= self@.remove(key@));
                }
            },
        }
    }

    /// Hand every entry to the caller and leave the list empty.
    pub fn take_items(&mut self) -> (r: Vec<(Vec<u8>, V)>)
        requires
            old(self).wf(),
        ensures
            final(self).wf(),
            final(self)@ == Map::<Seq<u8>, V>::empty(),
            final(self).seq() == Seq::<(Vec<u8>, V)>::empty(),
            r@ == old(self).seq(),
            unique_keys(r@),
            map_of(r@) == old(self)@,
    {
        let mut out: Vec<(Vec<u8>, V)> = Vec::new();
        core::mem::swap(&mut out, &mut self.items);
        out
    }
}

} // verus!
