//! The backing key/value store: an ordered collection of column-namespaced
//! byte entries with point reads, prefix reads, full per-column iteration and
//! atomic batched writes. Its mathematical view maps each namespaced key,
//! encoded as a single byte string, to the stored payload.

use vstd::prelude::*;

use crate::alist::{has_key, AList};
use crate::bytes::{concat_bytes, copy_bytes, spec_starts_with, starts_with};

verus! {

/// A column-namespaced key, encoded as one byte string: a tag byte telling
/// whether a column is named, the column number when one is, then the key.
pub open spec fn spec_col_prefix(col: Option<u32>) -> Seq<u8> {
    match col {
        None => seq![0u8],
        Some(c) => seq![1u8] + vstd::bytes::spec_u32_to_le_bytes(c),
    }
}

/// The full encoded form of a key within a column.
pub open spec fn spec_db_key(col: Option<u32>, key: Seq<u8>) -> Seq<u8> {
    spec_col_prefix(col) + key
}

/// The encoding is injective: equal encoded forms mean equal columns and keys.
pub proof fn lemma_db_key_injective(c1: Option<u32>, k1: Seq<u8>, c2: Option<u32>, k2: Seq<u8>)
    requires
        spec_db_key(c1, k1) == spec_db_key(c2, k2),
    ensures
        c1 == c2,
        k1 == k2,
{
    vstd::bytes::lemma_auto_spec_u32_to_from_le_bytes();
    let e1 = spec_db_key(c1, k1);
    let e2 = spec_db_key(c2, k2);
    match (c1, c2) {
        (None, None) => {
            assert(k1 =~= e1.subrange(1, e1.len() as int));
            assert(k2 =~= e2.subrange(1, e2.len() as int));
        },
        (None, Some(_)) => {
            assert(e1[0] == 0u8 && e2[0] == 1u8);
        },
        (Some(_), None) => {
            assert(e1[0] == 1u8 && e2[0] == 0u8);
        },
        (Some(a), Some(b)) => {
            let ab = vstd::bytes::spec_u32_to_le_bytes(a);
            let bb = vstd::bytes::spec_u32_to_le_bytes(b);
            assert(ab.len() == 4 && bb.len() == 4);
            assert(ab =~= e1.subrange(1, 5));
            assert(bb =~= e2.subrange(1, 5));
            assert(a == b) by {
                assert(vstd::bytes::spec_u32_from_le_bytes(ab) == a);
                assert(vstd::bytes::spec_u32_from_le_bytes(bb) == b);
            }
            assert(k1 =~= e1.subrange(5, e1.len() as int));
            assert(k2 =~= e2.subrange(5, e2.len() as int));
        },
    }
}

/// The encoded form of `key` within `col`.
pub fn db_key(col: Option<u32>, key: &Vec<u8>) -> (r: Vec<u8>)
    ensures
        r@ == spec_db_key(col, key@),
{
    let mut out: Vec<u8> = Vec::new();
    match col {
        None => {
            out.push(0u8);
        },
        Some(c) => {
            out.push(1u8);
            let mut cb = vstd::bytes::u32_to_le_bytes(c);
            out.append(&mut cb);
        },
    }
    proof {
        assert(out@ =~= spec_col_prefix(col));
    }
    let r = concat_bytes(&out, key);
    r
}

/// The per-column prefix that every encoded key of `col` begins with.
pub fn col_prefix(col: Option<u32>) -> (r: Vec<u8>)
    ensures
        r@ == spec_col_prefix(col),
{
    let empty: Vec<u8> = Vec::new();
    let r = db_key(col, &empty);
    proof {
        assert(spec_db_key(col, empty@) =~= spec_col_prefix(col));
    }
    r
}

/// A write batch: an ordered list of puts, applied atomically by
/// `Database::write`.
pub struct DBTransaction {
    ops: Vec<(Option<u32>, Vec<u8>, Vec<u8>)>,
}

impl View for DBTransaction {
    type V = Seq<(Option<u32>, Seq<u8>, Seq<u8>)>;

    closed spec fn view(&self) -> Seq<(Option<u32>, Seq<u8>, Seq<u8>)> {
        Seq::new(self.ops@.len(), |i: int| (self.ops@[i].0, self.ops@[i].1@, self.ops@[i].2@))
    }
}

impl DBTransaction {
    /// An empty batch.
    pub fn new() -> (r: DBTransaction)
        ensures
            r@ == Seq::<(Option<u32>, Seq<u8>, Seq<u8>)>::empty(),
    {
        let r = DBTransaction { ops: Vec::new() };
        proof {
            assert(r@ =~= Seq::<(Option<u32>, Seq<u8>, Seq<u8>)>::empty());
        }
        r
    }

    /// Append a put of `value` under `key` in `col`.
    pub fn put(&mut self, col: Option<u32>, key: Vec<u8>, value: Vec<u8>)
        ensures
            final(self)@ == old(self)@.push((col, key@, value@)),
    {
        let ghost k = key@;
        let ghost v = value@;
        self.ops.push((col, key, value));
        proof {
            assert(self@ =~= old(self)@.push((col, k, v)));
        }
    }

    /// The number of puts in the batch.
    pub fn len(&self) -> (r: usize)
        ensures
            r == self@.len(),
    {
        self.ops.len()
    }
}

/// The result of applying the puts of `ops`, in order, to the raw map `m`.
pub open spec fn spec_apply_ops(
    m: Map<Seq<u8>, Seq<u8>>,
    ops: Seq<(Option<u32>, Seq<u8>, Seq<u8>)>,
) -> Map<Seq<u8>, Seq<u8>>
    decreases ops.len(),
{
    if ops.len() == 0 {
        m
    } else {
        spec_apply_ops(m, ops.drop_last()).insert(
            spec_db_key(ops.last().0, ops.last().1),
            ops.last().2,
        )
    }
}

/// The deviewed form of a byte-valued map: every stored vector replaced by
/// its byte sequence.
pub open spec fn bytes_view(m: Map<Seq<u8>, Vec<u8>>) -> Map<Seq<u8>, Seq<u8>> {
    Map::new(|k: Seq<u8>| m.dom().contains(k), |k: Seq<u8>| m[k]@)
}

/// An ordered key/value database with column namespaces. Its view maps
/// encoded keys (see `spec_db_key`) to payloads.
pub struct Database {
    entries: AList<Vec<u8>>,
}

impl View for Database {
    type V = Map<Seq<u8>, Seq<u8>>;

    closed spec fn view(&self) -> Map<Seq<u8>, Seq<u8>> {
        bytes_view(self.entries@)
    }
}

impl Database {
    /// Well-formed: the underlying entry list has unique keys.
    pub closed spec fn wf(&self) -> bool {
        self.entries.wf()
    }

    /// The view's domain is finite.
    pub proof fn lemma_finite(&self)
        ensures
            self@.dom().finite(),
    {
        self.entries.lemma_view();
        assert(self@.dom() =~= self.entries@.dom());
    }

    /// An empty database.
    pub fn new() -> (r: Database)
        ensures
            r.wf(),
            r@ == Map::<Seq<u8>, Seq<u8>>::empty(),
    {
        let r = Database { entries: AList::new() };
        proof {
            assert(r@ =~= Map::<Seq<u8>, Seq<u8>>::empty());
        }
        r
    }

    /// Point read of `key` within `col`.
    pub fn get(&self, col: Option<u32>, key: &Vec<u8>) -> (r: Option<&Vec<u8>>)
        requires
            self.wf(),
        ensures
            match r {
                Some(v) => self@.dom().contains(spec_db_key(col, key@)) && v@ == self@[spec_db_key(
                    col,
                    key@,
                )],
                None => !self@.dom().contains(spec_db_key(col, key@)),
            },
    {
        let ek = db_key(col, key);
        let r = self.entries.get(&ek);
        r
    }

    /// True when `key` is stored within `col`.
    pub fn contains(&self, col: Option<u32>, key: &Vec<u8>) -> (r: bool)
        requires
            self.wf(),
        ensures
            r == self@.dom().contains(spec_db_key(col, key@)),
    {
        let ek = db_key(col, key);
        self.entries.contains_key(&ek)
    }

    /// Apply every put of `txn`, in order, atomically.
    pub fn write(&mut self, txn: &DBTransaction)
        requires
            old(self).wf(),
        ensures
            final(self).wf(),
            final(self)@ == spec_apply_ops(old(self)@, txn@),
    {
        let n = txn.ops.len();
        proof {
            assert(txn@.len() == n);
        }
        let mut i: usize = 0;
        proof {
            assert(txn@.take(0) =~= Seq::<(Option<u32>, Seq<u8>, Seq<u8>)>::empty());
        }
        while i < n
            invariant
                n == txn.ops@.len(),
                n == txn@.len(),
                i <= n,
                self.wf(),
                self@ == spec_apply_ops(old(self)@, txn@.take(i as int)),
                forall|j: int|
                    0 <= j < n ==> txn@[j] == (txn.ops@[j].0, txn.ops@[j].1@, txn.ops@[j].2@),
            decreases n - i,
        {
            let op = &txn.ops[i];
            let ek = db_key(op.0, &op.1);
            let v = copy_bytes(&op.2);
            self.entries.insert(ek, v);
            proof {
                assert(txn@.take(i + 1).drop_last() =~= txn@.take(i as int));
                assert(self@ =~= spec_apply_ops(old(self)@, txn@.take(i as int)).insert(
                    spec_db_key(op.0, op.1@),
                    op.2@,
                ));
            }
            i = i + 1;
        }
        proof {
            assert(txn@.take(n as int) =~= txn@);
        }
    }

    /// The number of stored entries.
    pub fn num_entries(&self) -> (r: usize)
        ensures
            r == self.raw_len(),
    {
        self.entries.len()
    }

    /// The number of stored entries, as a specification value.
    pub closed spec fn raw_len(&self) -> nat {
        self.entries.seq().len()
    }

    /// With a well-formed database, the entry count equals the view's key
    /// count.
    pub proof fn lemma_len(&self)
        requires
            self.wf(),
        ensures
            self@.dom().finite(),
            self@.dom().len() == self.raw_len(),
    {
        self.entries.lemma_entries();
        assert(self@.dom() =~= self.entries@.dom());
    }

    /// An independent copy holding the same contents.
    pub fn duplicate(&self) -> (r: Database)
        requires
            self.wf(),
        ensures
            r.wf(),
            r@ == self@,
    {
        proof {
            self.entries.lemma_entries();
        }
        let mut out: AList<Vec<u8>> = AList::new();
        let n = self.entries.len();
        let mut i: usize = 0;
        while i < n
            invariant
                n == self.entries.seq().len(),
                i <= n,
                self.wf(),
                out.wf(),
                forall|k: Seq<u8>| #[trigger]
                    out@.dom().contains(k) <==> has_key(self.entries.seq().take(i as int), k),
                forall|k: Seq<u8>|
                    out@.dom().contains(k) ==> self.entries@.dom().contains(k)
                        && #[trigger] out@[k]@ == self.entries@[k]@,
            decreases n - i,
        {
            let item = self.entries.item_at(i);
            let k = copy_bytes(&item.0);
            let v = copy_bytes(&item.1);
            proof {
                self.entries.lemma_view();
                self.entries.lemma_entries();
                assert(has_key(self.entries.seq(), item.0@));
                assert(self.entries@[item.0@] == self.entries.seq()[i as int].1);
            }
            out.insert(k, v);
            proof {
                assert forall|k2: Seq<u8>| #[trigger]
                    out@.dom().contains(k2) <==> has_key(
                    self.entries.seq().take(i + 1),
                    k2,
                ) by {
                    if out@.dom().contains(k2) {
                        if k2 == item.0@ {
                            assert(self.entries.seq().take(i + 1)[i as int].0@ == k2);
                        } else {
                            let j = choose|j: int|
                                0 <= j < i && self.entries.seq().take(i as int)[j].0@ == k2;
                            assert(self.entries.seq().take(i + 1)[j].0@ == k2);
                        }
                    }
                    if has_key(self.entries.seq().take(i + 1), k2) {
                        let j = choose|j: int|
                            0 <= j < i + 1 && (#[trigger] self.entries.seq().take(i + 1)[j]).0@
                                == k2;
                        if j < i {
                            assert(self.entries.seq().take(i as int)[j].0@ == k2);
                        }
                    }
                }
            }
            i = i + 1;
        }
        proof {
            assert(self.entries.seq().take(n as int) =~= self.entries.seq());
            self.entries.lemma_view();
            assert(bytes_view(out@) =~= bytes_view(self.entries@));
        }
        let r = Database { entries: out };
        r
    }

    /// Prefix read within `col`: some stored payload whose key begins with
    /// `prefix`, when one exists.
    pub fn get_by_prefix(&self, col: Option<u32>, prefix: &Vec<u8>) -> (r: Option<Vec<u8>>)
        requires
            self.wf(),
        ensures
            match r {
                Some(v) => exists|rk: Seq<u8>|
                    #![auto]
                    self@.dom().contains(rk) && spec_starts_with(rk, spec_db_key(col, prefix@))
                        && v@ == self@[rk],
                None => forall|rk: Seq<u8>|
                    #![auto]
                    self@.dom().contains(rk) ==> !spec_starts_with(rk, spec_db_key(col, prefix@)),
            },
    {
        proof {
            self.entries.lemma_view();
            self.entries.lemma_entries();
        }
        let ep = db_key(col, prefix);
        let n = self.entries.len();
        let mut i: usize = 0;
        while i < n
            invariant
                n == self.entries.seq().len(),
                i <= n,
                self.wf(),
                ep@ == spec_db_key(col, prefix@),
                forall|j: int|
                    0 <= j < i ==> !spec_starts_with(#[trigger] self.entries.seq()[j].0@, ep@),
            decreases n - i,
        {
            let item = self.entries.item_at(i);
            if starts_with(&item.0, &ep) {
                proof {
                    self.entries.lemma_entries();
                    assert(self@.dom().contains(item.0@));
                    assert(self@[item.0@] == self.entries@[item.0@]@);
                }
                return Some(copy_bytes(&item.1));
            }
            i = i + 1;
        }
        proof {
            assert forall|rk: Seq<u8>| #![auto] self@.dom().contains(rk) implies !spec_starts_with(
                rk,
                spec_db_key(col, prefix@),
            ) by {
                self.entries.lemma_view();
                let j = choose|j: int|
                    0 <= j < self.entries.seq().len() && self.entries.seq()[j].0@ == rk;
                assert(!spec_starts_with(self.entries.seq()[j].0@, ep@));
            }
        }
        None
    }

    /// Every key/value pair stored within `col`, the per-column prefix
    /// stripped from each key.
    #[verifier::rlimit(100)]
    pub fn iter(&self, col: Option<u32>) -> (r: Vec<(Vec<u8>, Vec<u8>)>)
        requires
            self.wf(),
        ensures
            forall|t: int|
                0 <= t < r@.len() ==> self@.dom().contains(
                    spec_db_key(col, #[trigger] r@[t].0@),
                ) && r@[t].1@ == self@[spec_db_key(col, r@[t].0@)],
            forall|k: Seq<u8>| #[trigger]
                self@.dom().contains(spec_db_key(col, k)) ==> exists|t: int|
                    0 <= t < r@.len() && #[trigger] r@[t].0@ == k,
    {
        proof {
            self.entries.lemma_view();
            self.entries.lemma_entries();
        }
        let ep = col_prefix(col);
        let pl = ep.len();
        let n = self.entries.len();
        let mut out: Vec<(Vec<u8>, Vec<u8>)> = Vec::new();
        let mut i: usize = 0;
        while i < n
            invariant
                n == self.entries.seq().len(),
                i <= n,
                self.wf(),
                ep@ == spec_col_prefix(col),
                pl == ep@.len(),
                forall|t: int|
                    0 <= t < out@.len() ==> self@.dom().contains(
                        spec_db_key(col, #[trigger] out@[t].0@),
                    ) && out@[t].1@ == self@[spec_db_key(col, out@[t].0@)],
                forall|j: int|
                    0 <= j < i && spec_starts_with(
                        #[trigger] self.entries.seq()[j].0@,
                        ep@,
                    ) ==> exists|t: int|
                        0 <= t < out@.len() && #[trigger] out@[t].0@ == self.entries.seq()[j].0@.skip(
                            pl as int,
                        ),
            decreases n - i,
        {
            proof {
                self.entries.lemma_view();
                self.entries.lemma_entries();
            }
            let item = self.entries.item_at(i);
            if starts_with(&item.0, &ep) {
                let mut stripped: Vec<u8> = Vec::new();
                let kl = item.0.len();
                let mut p: usize = pl;
                while p < kl
                    invariant
                        pl <= p <= kl,
                        kl == item.0@.len(),
                        stripped@ =~= item.0@.subrange(pl as int, p as int),
                    decreases kl - p,
                {
                    stripped.push(item.0[p]);
                    p = p + 1;
                }
                proof {
                    assert(stripped@ =~= item.0@.skip(pl as int));
                    assert(spec_db_key(col, stripped@) =~= item.0@);
                    assert(has_key(self.entries.seq(), item.0@));
                    assert(self@.dom().contains(item.0@));
                    assert(self.entries@[item.0@] == self.entries.seq()[i as int].1);
                    assert(self@[item.0@] == self.entries@[item.0@]@);
                }
                let ghost old_out = out@;
                out.push((stripped, copy_bytes(&item.1)));
                proof {
                    assert(out@[out@.len() - 1].0@ == item.0@.skip(pl as int));
                    assert forall|j: int|
                        0 <= j < i + 1 && spec_starts_with(
                            #[trigger] self.entries.seq()[j].0@,
                            ep@,
                        ) implies exists|t: int|
                        0 <= t < out@.len() && #[trigger] out@[t].0@
                            == self.entries.seq()[j].0@.skip(pl as int) by {
                        if j < i {
                            let t = choose|t: int|
                                0 <= t < old_out.len() && #[trigger] old_out[t].0@
                                    == self.entries.seq()[j].0@.skip(pl as int);
                            assert(out@[t].0@ == self.entries.seq()[j].0@.skip(pl as int));
                        } else {
                            let t = out@.len() - 1;
                            assert(out@[t].0@ == self.entries.seq()[j].0@.skip(pl as int));
                        }
                    }
                }
            }
            i = i + 1;
        }
        proof {
            assert forall|k: Seq<u8>| #[trigger]
                self@.dom().contains(spec_db_key(col, k)) implies exists|t: int|
                0 <= t < out@.len() && #[trigger] out@[t].0@ == k by {
                self.entries.lemma_view();
                let j = choose|j: int|
                    0 <= j < self.entries.seq().len() && self.entries.seq()[j].0@ == spec_db_key(
                        col,
                        k,
                    );
                assert(spec_starts_with(self.entries.seq()[j].0@, ep@)) by {
                    assert(spec_db_key(col, k).subrange(0, pl as int) =~= spec_col_prefix(col));
                }
                assert(self.entries.seq()[j].0@.skip(pl as int) =~= k);
                let t = choose|t: int|
                    0 <= t < out@.len() && #[trigger] out@[t].0@ == self.entries.seq()[j].0@.skip(
                        pl as int,
                    );
                assert(out@[t].0@ == k);
            }
        }
        out
    }
}

} // verus!
