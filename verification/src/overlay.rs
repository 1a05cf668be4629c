//! The content-addressed in-memory overlay: a write buffer keyed by content
//! hash with per-key reference counts, plus an auxiliary byte-keyed buffer.
//! Every storage variant fills an overlay between commits and drains it on
//! commit.

use vstd::prelude::*;

use crate::alist::{map_of, unique_keys, AList};
use crate::bytes::copy_bytes;
use crate::database::bytes_view;

verus! {

/// The deviewed form of a reference-counted entry map: stored vectors become
/// byte sequences, stored counters become integers.
pub open spec fn pairs_view(m: Map<Seq<u8>, (Vec<u8>, i32)>) -> Map<Seq<u8>, (Seq<u8>, int)> {
    Map::new(|k: Seq<u8>| m.dom().contains(k), |k: Seq<u8>| (m[k].0@, m[k].1 as int))
}

/// One insert against an overlay entry map: the reference count under `k`
/// rises by one; the payload is set when the key was absent or not live.
pub open spec fn spec_overlay_insert(
    m: Map<Seq<u8>, (Seq<u8>, int)>,
    k: Seq<u8>,
    val: Seq<u8>,
) -> Map<Seq<u8>, (Seq<u8>, int)> {
    if m.dom().contains(k) {
        m.insert(k, (if m[k].1 <= 0 { val } else { m[k].0 }, m[k].1 + 1))
    } else {
        m.insert(k, (val, 1))
    }
}

/// One remove against an overlay entry map: the reference count under `k`
/// falls by one, a negative placeholder appearing when the key was absent.
pub open spec fn spec_overlay_remove(
    m: Map<Seq<u8>, (Seq<u8>, int)>,
    k: Seq<u8>,
) -> Map<Seq<u8>, (Seq<u8>, int)> {
    if m.dom().contains(k) {
        m.insert(k, (m[k].0, m[k].1 - 1))
    } else {
        m.insert(k, (Seq::empty(), -1))
    }
}

/// Caching a payload read back from the backing store: a zero-count entry
/// appears when the key was absent; a present entry is left alone.
pub open spec fn spec_overlay_denote(
    m: Map<Seq<u8>, (Seq<u8>, int)>,
    k: Seq<u8>,
    val: Seq<u8>,
) -> Map<Seq<u8>, (Seq<u8>, int)> {
    if m.dom().contains(k) {
        m
    } else {
        m.insert(k, (val, 0))
    }
}

/// The in-memory overlay: content-hash entries with reference counts, and an
/// auxiliary byte-keyed buffer.
pub struct Overlay {
    entries: AList<(Vec<u8>, i32)>,
    aux: AList<Vec<u8>>,
}

impl Overlay {
    /// The reference-counted entries, as a map from hash bytes to payload and
    /// count.
    pub closed spec fn entries(&self) -> Map<Seq<u8>, (Seq<u8>, int)> {
        pairs_view(self.entries@)
    }

    /// The auxiliary entries, as a map from key bytes to value bytes.
    pub closed spec fn aux(&self) -> Map<Seq<u8>, Seq<u8>> {
        bytes_view(self.aux@)
    }

    /// Well-formed: both entry lists have unique keys.
    pub closed spec fn wf(&self) -> bool {
        self.entries.wf() && self.aux.wf()
    }

    /// Both entry maps have finite domains.
    pub proof fn lemma_finite(&self)
        ensures
            self.entries().dom().finite(),
            self.aux().dom().finite(),
    {
        self.entries.lemma_view();
        self.aux.lemma_view();
        assert(self.entries().dom() =~= self.entries@.dom());
        assert(self.aux().dom() =~= self.aux@.dom());
    }

    /// An empty overlay.
    pub fn new() -> (r: Overlay)
        ensures
            r.wf(),
            r.entries() == Map::<Seq<u8>, (Seq<u8>, int)>::empty(),
            r.aux() == Map::<Seq<u8>, Seq<u8>>::empty(),
    {
        let r = Overlay { entries: AList::new(), aux: AList::new() };
        proof {
            assert(r.entries() =~= Map::<Seq<u8>, (Seq<u8>, int)>::empty());
            assert(r.aux() =~= Map::<Seq<u8>, Seq<u8>>::empty());
        }
        r
    }

    /// The stored payload and count under `key`, if any.
    pub fn raw(&self, key: &Vec<u8>) -> (r: Option<&(Vec<u8>, i32)>)
        requires
            self.wf(),
        ensures
            match r {
                Some(p) => self.entries().dom().contains(key@) && self.entries()[key@] == (
                    p.0@,
                    p.1 as int,
                ),
                None => !self.entries().dom().contains(key@),
            },
    {
        self.entries.get(key)
    }

    /// Raise the reference count under `key`, storing `value` when the key
    /// was absent or not live.
    pub fn insert_with_key(&mut self, key: Vec<u8>, value: Vec<u8>)
        requires
            old(self).wf(),
            old(self).entries().dom().contains(key@) ==> old(self).entries()[key@].1 < i32::MAX,
        ensures
            final(self).wf(),
            final(self).entries() == spec_overlay_insert(old(self).entries(), key@, value@),
            final(self).aux() == old(self).aux(),
    {
        let cur: Option<(Vec<u8>, i32)> = match self.entries.get(&key) {
            Some(p) => Some((copy_bytes(&p.0), p.1)),
            None => None,
        };
        match cur {
            Some((ov, rc)) => {
                let nv = if rc <= 0 {
                    value
                } else {
                    ov
                };
                self.entries.insert(key, (nv, rc + 1));
            },
            None => {
                self.entries.insert(key, (value, 1));
            },
        }
        proof {
            assert(self.entries() =~= spec_overlay_insert(old(self).entries(), key@, value@));
            assert(self.aux() == old(self).aux());
        }
    }

    /// Lower the reference count under `key`, creating a negative placeholder
    /// when the key was absent.
    pub fn remove(&mut self, key: &Vec<u8>)
        requires
            old(self).wf(),
            old(self).entries().dom().contains(key@) ==> old(self).entries()[key@].1 > i32::MIN,
        ensures
            final(self).wf(),
            final(self).entries() == spec_overlay_remove(old(self).entries(), key@),
            final(self).aux() == old(self).aux(),
    {
        let cur: Option<(Vec<u8>, i32)> = match self.entries.get(key) {
            Some(p) => Some((copy_bytes(&p.0), p.1)),
            None => None,
        };
        let k = copy_bytes(key);
        match cur {
            Some((ov, rc)) => {
                self.entries.insert(k, (ov, rc - 1));
            },
            None => {
                let empty: Vec<u8> = Vec::new();
                self.entries.insert(k, (empty, -1));
            },
        }
        proof {
            assert(self.entries() =~= spec_overlay_remove(old(self).entries(), key@));
            assert(self.aux() == old(self).aux());
        }
    }

    /// Cache a payload read back from the backing store, without touching any
    /// present entry.
    pub fn denote(&mut self, key: &Vec<u8>, value: Vec<u8>)
        requires
            old(self).wf(),
        ensures
            final(self).wf(),
            final(self).entries() == spec_overlay_denote(old(self).entries(), key@, value@),
            final(self).aux() == old(self).aux(),
    {
        let present = match self.entries.get(key) {
            Some(_) => true,
            None => false,
        };
        if !present {
            let k = copy_bytes(key);
            self.entries.insert(k, (value, 0));
        }
        proof {
            assert(self.entries() =~= spec_overlay_denote(old(self).entries(), key@, value@));
            assert(self.aux() == old(self).aux());
        }
    }

    /// Store `value` under the auxiliary key `key`.
    pub fn insert_aux(&mut self, key: Vec<u8>, value: Vec<u8>)
        requires
            old(self).wf(),
        ensures
            final(self).wf(),
            final(self).aux() == old(self).aux().insert(key@, value@),
            final(self).entries() == old(self).entries(),
    {
        self.aux.insert(key, value);
        proof {
            assert(self.aux() =~= old(self).aux().insert(key@, value@));
            assert(self.entries() == old(self).entries());
        }
    }

    /// The auxiliary value stored under `key`, if any.
    pub fn get_aux(&self, key: &Vec<u8>) -> (r: Option<&Vec<u8>>)
        requires
            self.wf(),
        ensures
            match r {
                Some(v) => self.aux().dom().contains(key@) && v@ == self.aux()[key@],
                None => !self.aux().dom().contains(key@),
            },
    {
        self.aux.get(key)
    }

    /// Drop the auxiliary entry stored under `key`, if any.
    pub fn remove_aux(&mut self, key: &Vec<u8>)
        requires
            old(self).wf(),
        ensures
            final(self).wf(),
            final(self).aux() == old(self).aux().remove(key@),
            final(self).entries() == old(self).entries(),
    {
        self.aux.remove(key);
        proof {
            assert(self.aux() =~= old(self).aux().remove(key@));
            assert(self.entries() == old(self).entries());
        }
    }

    /// Hand every reference-counted entry to the caller and leave that part
    /// of the overlay empty.
    pub fn take_entries(&mut self) -> (r: Vec<(Vec<u8>, (Vec<u8>, i32))>)
        requires
            old(self).wf(),
        ensures
            final(self).wf(),
            final(self).entries() == Map::<Seq<u8>, (Seq<u8>, int)>::empty(),
            final(self).aux() == old(self).aux(),
            unique_keys(r@),
            pairs_view(map_of(r@)) == old(self).entries(),
            r@.len() == old(self).entries().dom().len(),
    {
        proof {
            self.entries.lemma_entries();
            assert(self.entries().dom() =~= self.entries@.dom());
        }
        let r = self.entries.take_items();
        proof {
            assert(self.entries() =~= Map::<Seq<u8>, (Seq<u8>, int)>::empty());
            assert(self.aux() == old(self).aux());
        }
        r
    }

    /// Hand every auxiliary entry to the caller and leave that part of the
    /// overlay empty.
    pub fn take_aux(&mut self) -> (r: Vec<(Vec<u8>, Vec<u8>)>)
        requires
            old(self).wf(),
        ensures
            final(self).wf(),
            final(self).aux() == Map::<Seq<u8>, Seq<u8>>::empty(),
            final(self).entries() == old(self).entries(),
            unique_keys(r@),
            bytes_view(map_of(r@)) == old(self).aux(),
    {
        let r = self.aux.take_items();
        proof {
            assert(self.aux() =~= Map::<Seq<u8>, Seq<u8>>::empty());
            assert(self.entries() == old(self).entries());
        }
        r
    }

    /// The number of reference-counted entries.
    pub fn num_entries(&self) -> (r: usize)
        requires
            self.wf(),
        ensures
            r == self.entries().dom().len(),
    {
        proof {
            self.entries.lemma_entries();
            assert(self.entries().dom() =~= self.entries@.dom());
        }
        self.entries.len()
    }

    /// The number of auxiliary entries.
    pub fn num_aux(&self) -> (r: usize)
        requires
            self.wf(),
        ensures
            r == self.aux().dom().len(),
    {
        proof {
            self.aux.lemma_entries();
            assert(self.aux().dom() =~= self.aux@.dom());
        }
        self.aux.len()
    }

    /// The reference-counted entries in storage order.
    pub closed spec fn entries_seq(&self) -> Seq<(Vec<u8>, (Vec<u8>, i32))> {
        self.entries.seq()
    }

    /// Each stored entry is the entry map's entry for its key, and the entry
    /// count equals the map's key count.
    pub proof fn lemma_entries_seq(&self)
        requires
            self.wf(),
        ensures
            self.entries_seq().len() == self.entries().dom().len(),
            forall|i: int|
                0 <= i < self.entries_seq().len() ==> self.entries().dom().contains(
                    #[trigger] self.entries_seq()[i].0@,
                ) && self.entries()[self.entries_seq()[i].0@] == (
                    self.entries_seq()[i].1.0@,
                    self.entries_seq()[i].1.1 as int,
                ),
            forall|k: Seq<u8>| #[trigger] self.entries().dom().contains(k) ==> exists|i: int|
                0 <= i < self.entries_seq().len() && #[trigger] self.entries_seq()[i].0@ == k,
            forall|i: int, j: int|
                0 <= i < j < self.entries_seq().len() ==> self.entries_seq()[i].0@
                    != self.entries_seq()[j].0@,
    {
        self.entries.lemma_view();
        self.entries.lemma_entries();
        assert(self.entries().dom() =~= self.entries@.dom());
        assert forall|k: Seq<u8>| #[trigger] self.entries().dom().contains(k) implies exists|i: int|
            0 <= i < self.entries_seq().len() && #[trigger] self.entries_seq()[i].0@ == k by {
            assert(crate::alist::has_key(self.entries.seq(), k));
            let i = choose|i: int|
                0 <= i < self.entries.seq().len() && #[trigger] self.entries.seq()[i].0@ == k;
            assert(0 <= i < self.entries_seq().len() && self.entries_seq()[i].0@ == k);
        }
    }

    /// The entry at storage index `i`.
    pub fn entry_at(&self, i: usize) -> (r: &(Vec<u8>, (Vec<u8>, i32)))
        requires
            i < self.entries_seq().len(),
        ensures
            *r == self.entries_seq()[i as int],
    {
        self.entries.item_at(i)
    }

}

} // verus!
