//! Schema migration: version-tagged transformation steps, a bounded write
//! batch that amortizes destination writes, and a manager that walks a
//! database through an ordered chain of upgrades using two alternating
//! temporary databases, so that at no point more than two temporary databases
//! exist beside the original.

use vstd::prelude::*;

use crate::alist::{has_key, lemma_map_of_domain, map_of, unique_keys, AList};
use crate::bytes::{copy_bytes, spec_starts_with};
use crate::database::{
    bytes_view, lemma_db_key_injective, spec_col_prefix, spec_db_key, Database, DBTransaction,
};
use crate::error::Error;

verus! {

/// Migration configuration: how many key/value pairs a batch accumulates
/// before it flushes to the destination database.
#[derive(Clone, Copy)]
pub struct Config {
    /// How many pairs are migrated at once.
    pub batch_size: usize,
}

impl Default for Config {
    /// The default batch size.
    fn default() -> (r: Config)
        ensures
            r.batch_size == 1024,
    {
        Config { batch_size: 1024 }
    }
}

/// The image of a destination database after a batch of pairs is flushed into
/// its unnamed column.
pub open spec fn spec_flush_image(
    b: Map<Seq<u8>, Seq<u8>>,
    m: Map<Seq<u8>, Seq<u8>>,
) -> Map<Seq<u8>, Seq<u8>> {
    b.union_prefer_right(
        Map::new(
            |rk: Seq<u8>|
                spec_starts_with(rk, spec_col_prefix(None)) && m.dom().contains(rk.skip(1)),
            |rk: Seq<u8>| m[rk.skip(1)],
        ),
    )
}

/// A pending pair adds exactly its own put to the flushed image.
proof fn lemma_flush_image_insert(
    b: Map<Seq<u8>, Seq<u8>>,
    m: Map<Seq<u8>, Seq<u8>>,
    k: Seq<u8>,
    val: Seq<u8>,
)
    ensures
        spec_flush_image(b, m.insert(k, val)) == spec_flush_image(b, m).insert(
            spec_db_key(None, k),
            val,
        ),
{
    let ek = spec_db_key(None, k);
    assert(ek.skip(1) =~= k);
    assert(spec_starts_with(ek, spec_col_prefix(None))) by {
        assert(ek.subrange(0, 1) =~= spec_col_prefix(None));
    }
    assert forall|rk: Seq<u8>|
        #![auto]
        spec_starts_with(rk, spec_col_prefix(None)) && rk != ek implies rk.skip(1) != k by {
        if rk.skip(1) == k {
            crate::bytes::lemma_starts_with_skip(rk, spec_col_prefix(None));
        }
    }
    assert(spec_flush_image(b, m.insert(k, val)) =~= spec_flush_image(b, m).insert(ek, val));
}

/// A bounded batch of key/value pairs pending a write into a destination
/// database.
pub struct Batch {
    inner: AList<Vec<u8>>,
    batch_size: usize,
}

impl View for Batch {
    type V = Map<Seq<u8>, Seq<u8>>;

    closed spec fn view(&self) -> Map<Seq<u8>, Seq<u8>> {
        bytes_view(self.inner@)
    }
}

impl Batch {
    /// Well-formed: the pending list has unique keys.
    pub closed spec fn wf(&self) -> bool {
        self.inner.wf()
    }

    /// The configured flush threshold.
    pub closed spec fn spec_batch_size(&self) -> usize {
        self.batch_size
    }

    /// An empty batch with the given configuration's threshold.
    pub fn new(config: &Config) -> (r: Batch)
        ensures
            r.wf(),
            r@ == Map::<Seq<u8>, Seq<u8>>::empty(),
            r.spec_batch_size() == config.batch_size,
    {
        let r = Batch { inner: AList::new(), batch_size: config.batch_size };
        proof {
            assert(r@ =~= Map::<Seq<u8>, Seq<u8>>::empty());
        }
        r
    }

    /// Queue one pair, flushing every pending pair into `dest` when the
    /// threshold is reached.
    pub fn insert(&mut self, key: Vec<u8>, value: Vec<u8>, dest: &mut Database) -> (r: Result<
        (),
        Error,
    >)
        requires
            old(self).wf(),
            old(dest).wf(),
        ensures
            final(self).wf(),
            final(dest).wf(),
            r is Ok,
            final(self).spec_batch_size() == old(self).spec_batch_size(),
            ({
                let pending = old(self)@.insert(key@, value@);
                if pending.dom().len() == old(self).spec_batch_size() {
                    final(self)@ == Map::<Seq<u8>, Seq<u8>>::empty() && final(dest)@
                        == spec_flush_image(old(dest)@, pending)
                } else {
                    final(self)@ == pending && final(dest)@ == old(dest)@
                }
            }),
    {
        proof {
            self.inner.lemma_entries();
            assert(self@.dom() =~= self.inner@.dom());
        }
        self.inner.insert(key, value);
        proof {
            self.inner.lemma_entries();
            assert(self@.dom() =~= self.inner@.dom());
        }
        if self.inner.len() == self.batch_size {
            let r = self.commit(dest);
            r
        } else {
            Ok(())
        }
    }

    /// Flush every pending pair into the unnamed column of `dest`, leaving
    /// the batch empty. An empty batch writes nothing.
    pub fn commit(&mut self, dest: &mut Database) -> (r: Result<(), Error>)
        requires
            old(self).wf(),
            old(dest).wf(),
        ensures
            final(self).wf(),
            final(dest).wf(),
            r is Ok,
            final(self)@ == Map::<Seq<u8>, Seq<u8>>::empty(),
            final(dest)@ == spec_flush_image(old(dest)@, old(self)@),
            final(self).spec_batch_size() == old(self).spec_batch_size(),
    {
        let ghost b0 = dest@;
        if self.inner.is_empty() {
            proof {
                self.inner.lemma_view();
                assert(self@ =~= Map::<Seq<u8>, Seq<u8>>::empty()) by {
                    assert forall|k: Seq<u8>| !self@.dom().contains(k) by {
                        self.inner.lemma_view();
                        if has_key(self.inner.seq(), k) {
                            let i = choose|i: int|
                                0 <= i < self.inner.seq().len() && self.inner.seq()[i].0@ == k;
                        }
                    }
                }
                assert(spec_flush_image(b0, self@) =~= b0);
            }
            return Ok(());
        }
        let items = self.inner.take_items();
        let mut txn = DBTransaction::new();
        let n = items.len();
        proof {
            assert(items@.take(0) =~= Seq::<(Vec<u8>, Vec<u8>)>::empty());
            assert(bytes_view(map_of(items@.take(0))) =~= Map::<Seq<u8>, Seq<u8>>::empty());
            assert(spec_flush_image(b0, bytes_view(map_of(items@.take(0)))) =~= b0);
        }
        let mut i: usize = 0;
        while i < n
            invariant
                n == items@.len(),
                i <= n,
                unique_keys(items@),
                crate::database::spec_apply_ops(b0, txn@) == spec_flush_image(
                    b0,
                    bytes_view(map_of(items@.take(i as int))),
                ),
            decreases n - i,
        {
            let ghost ami = bytes_view(map_of(items@.take(i as int)));
            let ghost e = items@[i as int];
            proof {
                lemma_map_of_domain(items@.take(i as int));
                assert(!has_key(items@.take(i as int), e.0@)) by {
                    if has_key(items@.take(i as int), e.0@) {
                        let t = choose|t: int|
                            0 <= t < i && #[trigger] items@.take(i as int)[t].0@ == e.0@;
                        assert(items@[t].0@ == items@[i as int].0@);
                        assert(false);
                    }
                }
                assert(!ami.dom().contains(e.0@));
                assert(items@.take(i + 1).drop_last() =~= items@.take(i as int));
                assert(items@.take(i + 1).last() == e);
                assert(bytes_view(map_of(items@.take(i + 1))) =~= ami.insert(e.0@, e.1@));
                lemma_flush_image_insert(b0, ami, e.0@, e.1@);
            }
            let item = &items[i];
            let kc = copy_bytes(&item.0);
            let vc = copy_bytes(&item.1);
            let ghost pre_txn = txn@;
            txn.put(None, kc, vc);
            proof {
                assert(txn@ =~= pre_txn.push((None, e.0@, e.1@)));
                assert(txn@.drop_last() =~= pre_txn);
            }
            i = i + 1;
        }
        proof {
            assert(items@.take(n as int) =~= items@);
        }
        dest.write(&txn);
        proof {
            assert(final(self)@ =~= Map::<Seq<u8>, Seq<u8>>::empty());
        }
        Ok(())
    }
}

/// A generalized migration step: a version tag and a transformation from a
/// source database to a destination database. Implemented by the library's
/// users; a step's version never changes.
pub trait Migration: Sized {
    /// The schema version the database has after this step runs.
    spec fn spec_version(&self) -> u32;

    /// The step's declared input/output relation: how a destination database
    /// `out` that a successful run leaves behind relates to the source
    /// database and the destination's prior contents. A step that does not
    /// describe itself relates to no output, so it admits no verified
    /// successful run.
    open spec fn spec_transforms(
        &self,
        source: Map<Seq<u8>, Seq<u8>>,
        dest: Map<Seq<u8>, Seq<u8>>,
        out: Map<Seq<u8>, Seq<u8>>,
    ) -> bool {
        false
    }

    /// The schema version the database has after this step runs.
    fn version(&self) -> (v: u32)
        ensures
            v == self.spec_version(),
    ;

    /// Transform every pair of `source` into `destination`: a successful run
    /// leaves the destination related to the inputs by `spec_transforms`.
    fn migrate(&mut self, source: &Database, config: &Config, destination: &mut Database) -> (r:
        Result<(), Error>)
        requires
            source.wf(),
            old(destination).wf(),
        ensures
            final(destination).wf(),
            final(self).spec_version() == old(self).spec_version(),
            r is Ok ==> old(self).spec_transforms(source@, old(destination)@, final(destination)@),
    ;
}

/// A migration step over single key/value pairs: each pair is replaced or
/// dropped. Implemented by the library's users; a step's version and its
/// declared transform never change.
pub trait SimpleMigration: Sized {
    /// The schema version the database has after this step runs.
    spec fn spec_version(&self) -> u32;

    /// What this step does to one key/value pair: the replacement pair, or
    /// nothing when the pair is dropped. A step that does not describe
    /// itself drops every pair, as far as its contract says.
    open spec fn spec_transform(&self, key: Seq<u8>, value: Seq<u8>) -> Option<(Seq<u8>, Seq<u8>)> {
        None
    }

    /// The schema version the database has after this step runs.
    fn version(&self) -> (v: u32)
        ensures
            v == self.spec_version(),
    ;

    /// Transform one pair, or drop it by returning nothing: the result is
    /// the declared transform of the pair.
    fn simple_migrate(&mut self, key: Vec<u8>, value: Vec<u8>) -> (r: Option<(Vec<u8>, Vec<u8>)>)
        ensures
            final(self).spec_version() == old(self).spec_version(),
            ({
                let t = old(self).spec_transform(key@, value@);
                match r {
                    Some(p) => t matches Some(q) && q.0 == p.0@ && q.1 == p.1@,
                    None => t is None,
                }
            }),
            forall|k: Seq<u8>, v: Seq<u8>| (#[trigger] final(self).spec_transform(k, v)) == old(
                self,
            ).spec_transform(k, v),
    ;
}

/// The image relation of a step over single pairs: `out` is `dest` extended
/// with exactly the transformed pairs of `source`'s unnamed column — every
/// transformed pair is present, every entry either survives from `dest`
/// unchanged or is some transformed pair with its exact value, and nothing
/// of `dest` disappears.
pub open spec fn spec_simple_rel<T: SimpleMigration>(
    step: T,
    source: Map<Seq<u8>, Seq<u8>>,
    dest: Map<Seq<u8>, Seq<u8>>,
    out: Map<Seq<u8>, Seq<u8>>,
) -> bool {
    &&& forall|k: Seq<u8>|
        #![trigger step.spec_transform(k, source[spec_db_key(None, k)])]
        source.dom().contains(spec_db_key(None, k)) ==> match step.spec_transform(
            k,
            source[spec_db_key(None, k)],
        ) {
            Some(p) => out.dom().contains(spec_db_key(None, p.0)),
            None => true,
        }
    &&& forall|rk: Seq<u8>| #[trigger]
        out.dom().contains(rk) ==> (dest.dom().contains(rk) && out[rk] == dest[rk]) || (
        exists|k: Seq<u8>|
            #![auto]
            {
                &&& source.dom().contains(spec_db_key(None, k))
                &&& match step.spec_transform(k, source[spec_db_key(None, k)]) {
                    Some(p) => spec_db_key(None, p.0) == rk && out[rk] == p.1,
                    None => false,
                }
            })
    &&& forall|rk: Seq<u8>| #[trigger] dest.dom().contains(rk) ==> out.dom().contains(rk)
}

impl<T: SimpleMigration> Migration for T {
    open spec fn spec_version(&self) -> u32 {
        SimpleMigration::spec_version(self)
    }

    open spec fn spec_transforms(
        &self,
        source: Map<Seq<u8>, Seq<u8>>,
        dest: Map<Seq<u8>, Seq<u8>>,
        out: Map<Seq<u8>, Seq<u8>>,
    ) -> bool {
        spec_simple_rel(*self, source, dest, out)
    }

    fn version(&self) -> (v: u32) {
        SimpleMigration::version(self)
    }

    #[verifier::rlimit(80)]
    fn migrate(&mut self, source: &Database, config: &Config, destination: &mut Database) -> (r:
        Result<(), Error>) {
        let ghost dest0 = destination@;
        let mut batch = Batch::new(config);
        let pairs = source.iter(None);
        let n = pairs.len();
        let mut i: usize = 0;
        proof {
            assert(spec_flush_image(dest0, batch@) =~= dest0);
        }
        while i < n
            invariant
                n == pairs@.len(),
                i <= n,
                batch.wf(),
                destination.wf(),
                source.wf(),
                self.spec_version() == old(self).spec_version(),
                forall|k: Seq<u8>, v: Seq<u8>| (#[trigger] SimpleMigration::spec_transform(
                    self,
                    k,
                    v,
                )) == old(self).spec_transform(k, v),
                forall|t: int|
                    0 <= t < pairs@.len() ==> source@.dom().contains(
                        spec_db_key(None, #[trigger] pairs@[t].0@),
                    ) && pairs@[t].1@ == source@[spec_db_key(None, pairs@[t].0@)],
                forall|k: Seq<u8>| #[trigger]
                    source@.dom().contains(spec_db_key(None, k)) ==> exists|t: int|
                        0 <= t < pairs@.len() && #[trigger] pairs@[t].0@ == k,
                forall|rk: Seq<u8>| #[trigger]
                    dest0.dom().contains(rk) ==> spec_flush_image(
                        destination@,
                        batch@,
                    ).dom().contains(rk),
                forall|j: int|
                    #![trigger pairs@[j]]
                    0 <= j < i ==> match old(self).spec_transform(pairs@[j].0@, pairs@[j].1@) {
                        Some(p) => spec_flush_image(destination@, batch@).dom().contains(
                            spec_db_key(None, p.0),
                        ),
                        None => true,
                    },
                forall|rk: Seq<u8>| #[trigger]
                    spec_flush_image(destination@, batch@).dom().contains(rk) ==> (
                    dest0.dom().contains(rk) && spec_flush_image(destination@, batch@)[rk]
                        == dest0[rk]) || (exists|j: int|
                    #![trigger pairs@[j]]
                    {
                        &&& 0 <= j < i
                        &&& match old(self).spec_transform(pairs@[j].0@, pairs@[j].1@) {
                            Some(p) => spec_db_key(None, p.0) == rk && spec_flush_image(
                                destination@,
                                batch@,
                            )[rk] == p.1,
                            None => false,
                        }
                    }),
            decreases n - i,
        {
            let ghost pre_vout = spec_flush_image(destination@, batch@);
            let pair = &pairs[i];
            let k = copy_bytes(&pair.0);
            let v = copy_bytes(&pair.1);
            let ghost t_i = SimpleMigration::spec_transform(self, pair.0@, pair.1@);
            proof {
                assert(t_i == old(self).spec_transform(pairs@[i as int].0@, pairs@[i as int].1@));
            }
            let tr = self.simple_migrate(k, v);
            match tr {
                Some((nk, nv)) => {
                    proof {
                        assert(t_i matches Some(q) && q.0 == nk@ && q.1 == nv@);
                    }
                    let ghost pend0 = batch@;
                    let ghost d0 = destination@;
                    let ghost bs = batch.spec_batch_size();
                    let ghost nkv = nk@;
                    let ghost rk_new = spec_db_key(None, nkv);
                    let ghost nv_view = nv@;
                    let ir = batch.insert(nk, nv, destination);
                    match ir {
                        Ok(()) => {},
                        Err(e) => {
                            return Err(e);
                        },
                    }
                    proof {
                        assert(spec_flush_image(destination@, batch@) == pre_vout.insert(
                            rk_new,
                            nv_view,
                        )) by {
                            lemma_flush_image_insert(d0, pend0, nkv, nv_view);
                            if pend0.insert(nkv, nv_view).dom().len() == bs {
                                assert(destination@ == spec_flush_image(
                                    d0,
                                    pend0.insert(nkv, nv_view),
                                ));
                                assert(spec_flush_image(destination@, batch@) =~= destination@);
                            } else {
                                assert(batch@ == pend0.insert(nkv, nv_view));
                            }
                        }
                        assert forall|rk: Seq<u8>| #[trigger]
                            spec_flush_image(destination@, batch@).dom().contains(rk) implies (
                        dest0.dom().contains(rk) && spec_flush_image(destination@, batch@)[rk]
                            == dest0[rk]) || (exists|j: int|
                            #![trigger pairs@[j]]
                            {
                                &&& 0 <= j < i + 1
                                &&& match old(self).spec_transform(pairs@[j].0@, pairs@[j].1@) {
                                    Some(p) => spec_db_key(None, p.0) == rk && spec_flush_image(
                                        destination@,
                                        batch@,
                                    )[rk] == p.1,
                                    None => false,
                                }
                            }) by {
                            if rk == rk_new {
                                let j = i as int;
                                assert({
                                    &&& 0 <= j < i + 1
                                    &&& match old(self).spec_transform(
                                        pairs@[j].0@,
                                        pairs@[j].1@,
                                    ) {
                                        Some(p) => spec_db_key(None, p.0) == rk
                                            && spec_flush_image(destination@, batch@)[rk] == p.1,
                                        None => false,
                                    }
                                });
                            } else {
                                assert(pre_vout.dom().contains(rk));
                                assert(spec_flush_image(destination@, batch@)[rk] == pre_vout[rk]);
                            }
                        }
                    }
                },
                None => {
                    proof {
                        assert(t_i is None);
                        assert(spec_flush_image(destination@, batch@) == pre_vout);
                    }
                },
            }
            i = i + 1;
        }
        let cr = batch.commit(destination);
        proof {
            assert(spec_flush_image(destination@, batch@) =~= destination@) by {
                assert(batch@ =~= Map::<Seq<u8>, Seq<u8>>::empty());
            }
            assert(spec_simple_rel(*old(self), source@, dest0, destination@)) by {
                assert forall|k: Seq<u8>|
                    #![trigger old(self).spec_transform(k, source@[spec_db_key(None, k)])]
                    source@.dom().contains(spec_db_key(None, k)) implies match old(
                    self,
                ).spec_transform(k, source@[spec_db_key(None, k)]) {
                    Some(p) => destination@.dom().contains(spec_db_key(None, p.0)),
                    None => true,
                } by {
                    let t = choose|t: int|
                        0 <= t < pairs@.len() && #[trigger] pairs@[t].0@ == k;
                    assert(pairs@[t].1@ == source@[spec_db_key(None, k)]);
                    match old(self).spec_transform(k, source@[spec_db_key(None, k)]) {
                        Some(p) => {
                            assert(spec_flush_image(destination@, batch@).dom().contains(
                                spec_db_key(None, p.0),
                            ));
                        },
                        None => {},
                    }
                }
                assert forall|rk: Seq<u8>| #[trigger]
                    destination@.dom().contains(rk) implies (dest0.dom().contains(rk)
                    && destination@[rk] == dest0[rk]) || (exists|k: Seq<u8>|
                    #![auto]
                    {
                        &&& source@.dom().contains(spec_db_key(None, k))
                        &&& match old(self).spec_transform(k, source@[spec_db_key(None, k)]) {
                            Some(p) => spec_db_key(None, p.0) == rk && destination@[rk] == p.1,
                            None => false,
                        }
                    }) by {
                    assert(spec_flush_image(destination@, batch@).dom().contains(rk));
                    if !(dest0.dom().contains(rk) && destination@[rk] == dest0[rk]) {
                        let j = choose|j: int|
                            #![trigger pairs@[j]]
                            {
                                &&& 0 <= j < n
                                &&& match old(self).spec_transform(pairs@[j].0@, pairs@[j].1@) {
                                    Some(p) => spec_db_key(None, p.0) == rk && spec_flush_image(
                                        destination@,
                                        batch@,
                                    )[rk] == p.1,
                                    None => false,
                                }
                            };
                        let k2 = pairs@[j].0@;
                        assert(source@.dom().contains(spec_db_key(None, k2)));
                        assert(pairs@[j].1@ == source@[spec_db_key(None, k2)]);
                        assert({
                            &&& source@.dom().contains(spec_db_key(None, k2))
                            &&& match old(self).spec_transform(
                                k2,
                                source@[spec_db_key(None, k2)],
                            ) {
                                Some(p) => spec_db_key(None, p.0) == rk && destination@[rk] == p.1,
                                None => false,
                            }
                        });
                    }
                }
            }
        }
        cr
    }
}

/// The parent directory of a database path: everything before the last
/// separator byte, or nothing when the path has none.
pub open spec fn spec_parent(p: Seq<u8>) -> Seq<u8>
    decreases p.len(),
{
    if p.len() == 0 {
        Seq::empty()
    } else if p.last() == 47u8 {
        p.drop_last()
    } else {
        spec_parent(p.drop_last())
    }
}

/// Get the path where all databases reside: the directory of `path`.
pub fn database_path(path: &Vec<u8>) -> (r: Vec<u8>)
    ensures
        r@ == spec_parent(path@),
{
    let n = path.len();
    let mut i: usize = n;
    proof {
        assert(path@.take(n as int) =~= path@);
    }
    while i > 0
        invariant
            i <= n,
            n == path@.len(),
            spec_parent(path@) == spec_parent(path@.take(i as int)),
        decreases i,
    {
        proof {
            assert(path@.take(i as int).drop_last() =~= path@.take(i - 1));
        }
        if path[i - 1] == 47u8 {
            let mut out: Vec<u8> = Vec::new();
            let mut j: usize = 0;
            while j < i - 1
                invariant
                    j <= i - 1,
                    i <= n,
                    i >= 1,
                    n == path@.len(),
                    out@ =~= path@.subrange(0, j as int),
                decreases i - 1 - j,
            {
                out.push(path[j]);
                j = j + 1;
            }
            proof {
                assert(path@.take(i as int).last() == 47u8);
                assert(out@ =~= path@.take(i as int).drop_last());
            }
            return out;
        }
        i = i - 1;
    }
    proof {
        assert(path@.take(0) =~= Seq::<u8>::empty());
    }
    Vec::new()
}

/// Which of the two fixed temporary-database paths is the current write
/// target.
#[derive(Clone, Copy, PartialEq, Eq, Structural, Debug)]
pub enum TempIndex {
    /// The first temporary path.
    One,
    /// The second temporary path.
    Two,
}

/// The fixed path suffix of each temporary database.
pub open spec fn spec_temp_suffix(idx: TempIndex) -> Seq<u8> {
    match idx {
        TempIndex::One => seq![
            47u8,
            116u8,
            101u8,
            109u8,
            112u8,
            95u8,
            109u8,
            105u8,
            103u8,
            114u8,
            97u8,
            116u8,
            105u8,
            111u8,
            110u8,
            95u8,
            49u8,
        ],
        TempIndex::Two => seq![
            47u8,
            116u8,
            101u8,
            109u8,
            112u8,
            95u8,
            109u8,
            105u8,
            103u8,
            114u8,
            97u8,
            116u8,
            105u8,
            111u8,
            110u8,
            95u8,
            50u8,
        ],
    }
}

/// The full path of the temporary database `idx` under `root`.
pub open spec fn spec_temp_path(root: Seq<u8>, idx: TempIndex) -> Seq<u8> {
    root + spec_temp_suffix(idx)
}

/// True when `p` ends with the bytes of `s`.
pub open spec fn spec_ends_with(p: Seq<u8>, s: Seq<u8>) -> bool {
    p.len() >= s.len() && p.skip(p.len() - s.len()) == s
}

/// True when `p` names one of the two temporary databases, under any root.
pub open spec fn spec_is_temp_path(p: Seq<u8>) -> bool {
    spec_ends_with(p, spec_temp_suffix(TempIndex::One)) || spec_ends_with(
        p,
        spec_temp_suffix(TempIndex::Two),
    )
}

/// A temporary path is recognized as one.
pub proof fn lemma_temp_path_is_temp(root: Seq<u8>, idx: TempIndex)
    ensures
        spec_is_temp_path(spec_temp_path(root, idx)),
        spec_temp_path(root, idx).len() == root.len() + 17,
{
    let p = spec_temp_path(root, idx);
    assert(p.skip(p.len() - 17) =~= spec_temp_suffix(idx));
}

/// The two temporary paths under one root differ.
pub proof fn lemma_temp_paths_distinct(root: Seq<u8>)
    ensures
        spec_temp_path(root, TempIndex::One) != spec_temp_path(root, TempIndex::Two),
{
    let a = spec_temp_path(root, TempIndex::One);
    let b = spec_temp_path(root, TempIndex::Two);
    assert(a.last() == 49u8);
    assert(b.last() == 50u8);
}

impl TempIndex {
    /// The other temporary index.
    pub open spec fn spec_other(self) -> TempIndex {
        match self {
            TempIndex::One => TempIndex::Two,
            TempIndex::Two => TempIndex::One,
        }
    }

    /// Flip to the other temporary index.
    pub fn swap(&mut self)
        ensures
            *final(self) == old(self).spec_other(),
    {
        match *self {
            TempIndex::One => {
                *self = TempIndex::Two;
            },
            TempIndex::Two => {
                *self = TempIndex::One;
            },
        }
    }

    /// Given the root directory of all databases, the path of this temporary
    /// database.
    pub fn path(&self, db_root: &Vec<u8>) -> (r: Vec<u8>)
        ensures
            r@ == spec_temp_path(db_root@, *self),
    {
        let mut buf = copy_bytes(db_root);
        buf.push(47u8);
        buf.push(116u8);
        buf.push(101u8);
        buf.push(109u8);
        buf.push(112u8);
        buf.push(95u8);
        buf.push(109u8);
        buf.push(105u8);
        buf.push(103u8);
        buf.push(114u8);
        buf.push(97u8);
        buf.push(116u8);
        buf.push(105u8);
        buf.push(111u8);
        buf.push(110u8);
        buf.push(95u8);
        match *self {
            TempIndex::One => {
                buf.push(49u8);
            },
            TempIndex::Two => {
                buf.push(50u8);
            },
        }
        proof {
            assert(buf@ =~= spec_temp_path(db_root@, *self));
        }
        buf
    }
}

/// How many of the byte strings in `dom` name temporary databases.
pub open spec fn spec_count_temps(dom: Set<Seq<u8>>) -> nat {
    dom.filter(|p: Seq<u8>| spec_is_temp_path(p)).len()
}

/// Adding one path raises the temporary count by one exactly when the path is
/// a fresh temporary one.
proof fn lemma_count_temps_insert(dom: Set<Seq<u8>>, p: Seq<u8>)
    requires
        dom.finite(),
    ensures
        spec_count_temps(dom.insert(p)) == spec_count_temps(dom) + (
        if spec_is_temp_path(p) && !dom.contains(p) {
            1int
        } else {
            0int
        }),
{
    dom.lemma_len_filter(|q: Seq<u8>| spec_is_temp_path(q));
    if spec_is_temp_path(p) {
        assert(dom.insert(p).filter(|q: Seq<u8>| spec_is_temp_path(q)) =~= dom.filter(
            |q: Seq<u8>| spec_is_temp_path(q),
        ).insert(p));
        vstd::set::axiom_set_insert_len(dom.filter(|q: Seq<u8>| spec_is_temp_path(q)), p);
        if dom.contains(p) {
            assert(dom.filter(|q: Seq<u8>| spec_is_temp_path(q)).contains(p));
        }
    } else {
        assert(dom.insert(p).filter(|q: Seq<u8>| spec_is_temp_path(q)) =~= dom.filter(
            |q: Seq<u8>| spec_is_temp_path(q),
        ));
    }
}

/// Dropping one path lowers the temporary count by one exactly when a stored
/// temporary path is dropped.
proof fn lemma_count_temps_remove(dom: Set<Seq<u8>>, p: Seq<u8>)
    requires
        dom.finite(),
    ensures
        spec_count_temps(dom.remove(p)) == spec_count_temps(dom) - (
        if spec_is_temp_path(p) && dom.contains(p) {
            1int
        } else {
            0int
        }),
{
    dom.lemma_len_filter(|q: Seq<u8>| spec_is_temp_path(q));
    if spec_is_temp_path(p) {
        assert(dom.remove(p).filter(|q: Seq<u8>| spec_is_temp_path(q)) =~= dom.filter(
            |q: Seq<u8>| spec_is_temp_path(q),
        ).remove(p));
        vstd::set::axiom_set_remove_len(dom.filter(|q: Seq<u8>| spec_is_temp_path(q)), p);
        if dom.contains(p) {
            assert(dom.filter(|q: Seq<u8>| spec_is_temp_path(q)).contains(p));
        }
    } else {
        assert(dom.remove(p).filter(|q: Seq<u8>| spec_is_temp_path(q)) =~= dom.filter(
            |q: Seq<u8>| spec_is_temp_path(q),
        ));
    }
}

/// The collection of databases that exist on disk, by path, together with the
/// highest number of temporary databases that ever existed at once.
pub struct DbEnv {
    dbs: AList<Database>,
    temp_peak: Ghost<nat>,
}

impl View for DbEnv {
    type V = Map<Seq<u8>, Database>;

    closed spec fn view(&self) -> Map<Seq<u8>, Database> {
        self.dbs@
    }
}

impl DbEnv {
    /// The highest number of temporary databases that ever existed at once in
    /// this environment.
    pub closed spec fn peak(&self) -> nat {
        self.temp_peak@
    }

    /// The inner list is well-formed.
    pub closed spec fn parts_wf(&self) -> bool {
        self.dbs.wf()
    }

    /// Well-formed: unique paths, every stored database well-formed, and the
    /// current temporary count within the recorded peak.
    pub open spec fn wf(&self) -> bool {
        &&& self.parts_wf()
        &&& self@.dom().finite()
        &&& (forall|p: Seq<u8>| #[trigger] self@.dom().contains(p) ==> self@[p].wf())
        &&& spec_count_temps(self@.dom()) <= self.peak()
    }

    /// An environment with no databases and a zero peak.
    pub fn new() -> (r: DbEnv)
        ensures
            r.wf(),
            r@ == Map::<Seq<u8>, Database>::empty(),
            r.peak() == 0,
    {
        let r = DbEnv { dbs: AList::new(), temp_peak: Ghost(0nat) };
        proof {
            r.dbs.lemma_view();
            assert(r@.dom() =~= Set::<Seq<u8>>::empty());
            lemma_count_temps_empty();
        }
        r
    }

    /// True when a database exists at `path`.
    pub fn contains_path(&self, path: &Vec<u8>) -> (r: bool)
        requires
            self.wf(),
        ensures
            r == self@.dom().contains(path@),
    {
        self.dbs.contains_key(path)
    }

    /// How many databases exist.
    pub fn num_dbs(&self) -> (r: usize)
        requires
            self.wf(),
        ensures
            r == self@.dom().len(),
    {
        proof {
            self.dbs.lemma_entries();
        }
        self.dbs.len()
    }

    /// A copy of the database at `path`, if one exists.
    pub fn get_db(&self, path: &Vec<u8>) -> (r: Option<Database>)
        requires
            self.wf(),
        ensures
            match r {
                Some(d) => self@.dom().contains(path@) && d.wf() && d@ == self@[path@]@,
                None => !self@.dom().contains(path@),
            },
    {
        match self.dbs.get(path) {
            Some(d) => Some(d.duplicate()),
            None => None,
        }
    }

    /// Open the database at `path`, creating an empty one there when none
    /// exists; the caller receives an independent copy.
    pub fn open_or_create(&mut self, path: &Vec<u8>) -> (r: Database)
        requires
            old(self).wf(),
        ensures
            final(self).wf(),
            r.wf(),
            final(self)@.dom() == old(self)@.dom().insert(path@),
            final(self)@.dom().contains(path@),
            final(self)@[path@].wf(),
            r@ == final(self)@[path@]@,
            old(self)@.dom().contains(path@) ==> final(self)@ == old(self)@ && r@ == old(
                self,
            )@[path@]@,
            !old(self)@.dom().contains(path@) ==> final(self)@[path@]@ == Map::<
                Seq<u8>,
                Seq<u8>,
            >::empty(),
            forall|p: Seq<u8>|
                p != path@ && old(self)@.dom().contains(p) ==> final(self)@[p] == old(self)@[p],
            forall|p: Seq<u8>| #[trigger]
                final(self)@.dom().contains(p) ==> p == path@ || old(self)@.dom().contains(p),
            old(self).peak() <= final(self).peak(),
            final(self).peak() == old(self).peak() || final(self).peak() == spec_count_temps(
                final(self)@.dom(),
            ),
            spec_count_temps(final(self)@.dom()) <= final(self).peak(),
    {
        let present = self.dbs.contains_key(path);
        if present {
            proof {
                assert(final(self)@.dom() =~= old(self)@.dom().insert(path@));
            }
            match self.dbs.get(path) {
                Some(d) => d.duplicate(),
                None => {
                    proof {
                        assert(false);
                    }
                    Database::new()
                },
            }
        } else {
            let db = Database::new();
            let kc = copy_bytes(path);
            self.dbs.insert(kc, db);
            proof {
                lemma_count_temps_insert(old(self)@.dom(), path@);
                let c = spec_count_temps(self.dbs@.dom());
                let pk = self.temp_peak@;
                if c > pk {
                    self.temp_peak = Ghost(c);
                } else {
                    self.temp_peak = Ghost(pk);
                }
            }
            match self.dbs.get(path) {
                Some(d) => d.duplicate(),
                None => {
                    proof {
                        assert(false);
                    }
                    Database::new()
                },
            }
        }
    }

    /// Store `db` at `path`, replacing any database there.
    pub fn store(&mut self, path: &Vec<u8>, db: Database)
        requires
            old(self).wf(),
            db.wf(),
        ensures
            final(self).wf(),
            final(self)@ == old(self)@.insert(path@, db),
            old(self).peak() <= final(self).peak(),
            final(self).peak() == old(self).peak() || final(self).peak() == spec_count_temps(
                final(self)@.dom(),
            ),
    {
        let kc = copy_bytes(path);
        self.dbs.insert(kc, db);
        proof {
            lemma_count_temps_insert(old(self)@.dom(), path@);
            assert(self.dbs@.dom() =~= old(self)@.dom().insert(path@));
            let c = spec_count_temps(self.dbs@.dom());
            let pk = self.temp_peak@;
            if c > pk {
                self.temp_peak = Ghost(c);
            } else {
                self.temp_peak = Ghost(pk);
            }
        }
    }

    /// Delete the database at `path`, if any.
    pub fn remove(&mut self, path: &Vec<u8>)
        requires
            old(self).wf(),
        ensures
            final(self).wf(),
            final(self)@ == old(self)@.remove(path@),
            final(self).peak() == old(self).peak(),
    {
        self.dbs.remove(path);
        proof {
            lemma_count_temps_remove(old(self)@.dom(), path@);
            assert(self.dbs@.dom() =~= old(self)@.dom().remove(path@));
        }
    }
}

/// An empty set holds no temporary paths.
proof fn lemma_count_temps_empty()
    ensures
        spec_count_temps(Set::<Seq<u8>>::empty()) == 0,
{
    assert(Set::<Seq<u8>>::empty().filter(|q: Seq<u8>| spec_is_temp_path(q)) =~= Set::<
        Seq<u8>,
    >::empty());
}

/// The declared versions of a chain of migration steps, in order.
pub open spec fn spec_versions<M: Migration>(ms: Seq<M>) -> Seq<u32> {
    ms.map(|i: int, m: M| m.spec_version())
}

/// True when each version is exactly one greater than its predecessor.
pub open spec fn spec_contiguous(vs: Seq<u32>) -> bool {
    forall|i: int| 1 <= i < vs.len() ==> #[trigger] vs[i] == vs[i - 1] + 1
}

/// The temporary index a chain of `steps` steps writes its final output to:
/// the first step writes to the first index and each step flips it.
pub open spec fn spec_result_index(steps: int) -> TempIndex {
    if steps % 2 == 1 {
        TempIndex::One
    } else {
        TempIndex::Two
    }
}

/// A source holding one single pair, pushed through a step whose transform
/// replaces that pair, yields a database holding exactly the replacement and
/// nothing else.
pub proof fn lemma_single_pair_migration<T: SimpleMigration>(
    step: T,
    k: Seq<u8>,
    v: Seq<u8>,
    k2: Seq<u8>,
    v2: Seq<u8>,
    out: Map<Seq<u8>, Seq<u8>>,
)
    requires
        step.spec_transform(k, v) == Some((k2, v2)),
        spec_simple_rel(
            step,
            Map::<Seq<u8>, Seq<u8>>::empty().insert(spec_db_key(None, k), v),
            Map::<Seq<u8>, Seq<u8>>::empty(),
            out,
        ),
    ensures
        out == Map::<Seq<u8>, Seq<u8>>::empty().insert(spec_db_key(None, k2), v2),
{
    let source = Map::<Seq<u8>, Seq<u8>>::empty().insert(spec_db_key(None, k), v);
    assert(source.dom().contains(spec_db_key(None, k)));
    assert(step.spec_transform(k, source[spec_db_key(None, k)]) == Some((k2, v2)));
    assert(out.dom().contains(spec_db_key(None, k2)));
    assert forall|rk: Seq<u8>| #[trigger]
        out.dom().contains(rk) implies rk == spec_db_key(None, k2) && out[rk] == v2 by {
        let k3 = choose|k3: Seq<u8>|
            #![auto]
            {
                &&& source.dom().contains(spec_db_key(None, k3))
                &&& match step.spec_transform(k3, source[spec_db_key(None, k3)]) {
                    Some(p) => spec_db_key(None, p.0) == rk && out[rk] == p.1,
                    None => false,
                }
            };
        lemma_db_key_injective(None, k3, None, k);
    }
    assert(out =~= Map::<Seq<u8>, Seq<u8>>::empty().insert(spec_db_key(None, k2), v2));
}

/// The database stored at `path` in an environment, viewed as a raw map; an
/// absent path reads as the empty database that opening it would create.
pub open spec fn spec_db_at(env: Map<Seq<u8>, Database>, path: Seq<u8>) -> Map<Seq<u8>, Seq<u8>> {
    if env.dom().contains(path) {
        env[path]@
    } else {
        Map::empty()
    }
}

/// A run of a chain of steps: `out` is reachable from `source` by applying
/// every step's declared relation in order, each step reading its
/// predecessor's full output and writing into a fresh empty database.
pub open spec fn spec_chain<M: Migration>(
    steps: Seq<M>,
    source: Map<Seq<u8>, Seq<u8>>,
    out: Map<Seq<u8>, Seq<u8>>,
) -> bool
    decreases steps.len(),
{
    if steps.len() == 0 {
        out == source
    } else {
        exists|mid: Map<Seq<u8>, Seq<u8>>|
            #![trigger steps.last().spec_transforms(mid, Map::empty(), out)]
            spec_chain(steps.drop_last(), source, mid) && steps.last().spec_transforms(
                mid,
                Map::empty(),
                out,
            )
    }
}

/// Running one more step extends a chain run by that step's relation.
proof fn lemma_chain_extend<M: Migration>(
    steps: Seq<M>,
    a: int,
    b: int,
    source: Map<Seq<u8>, Seq<u8>>,
    mid: Map<Seq<u8>, Seq<u8>>,
    out: Map<Seq<u8>, Seq<u8>>,
)
    requires
        0 <= a <= b < steps.len(),
        spec_chain(steps.subrange(a, b), source, mid),
        steps[b].spec_transforms(mid, Map::empty(), out),
    ensures
        spec_chain(steps.subrange(a, b + 1), source, out),
{
    assert(steps.subrange(a, b + 1).drop_last() =~= steps.subrange(a, b));
    assert(steps.subrange(a, b + 1).len() > 0);
    assert(steps.subrange(a, b + 1).last() == steps[b]);
    assert(spec_chain(steps.subrange(a, b + 1).drop_last(), source, mid) && steps.subrange(
        a,
        b + 1,
    ).last().spec_transforms(mid, Map::empty(), out));
}

/// A one-step chain run is exactly that step's relation applied to the
/// source, into an empty destination.
pub proof fn lemma_chain_single<M: Migration>(
    steps: Seq<M>,
    source: Map<Seq<u8>, Seq<u8>>,
    out: Map<Seq<u8>, Seq<u8>>,
)
    requires
        steps.len() == 1,
        spec_chain(steps, source, out),
    ensures
        steps[0].spec_transforms(source, Map::empty(), out),
{
    let mid = choose|mid: Map<Seq<u8>, Seq<u8>>|
        #![trigger steps.last().spec_transforms(mid, Map::empty(), out)]
        spec_chain(steps.drop_last(), source, mid) && steps.last().spec_transforms(
            mid,
            Map::empty(),
            out,
        );
    assert(steps.drop_last().len() == 0);
    assert(mid == source);
}

/// In a contiguous chain the versions increase with the position.
proof fn lemma_contiguous_increasing(vs: Seq<u32>, a: int, b: int)
    requires
        spec_contiguous(vs),
        0 <= a <= b < vs.len(),
    ensures
        vs[b] >= vs[a] + (b - a),
    decreases b - a,
{
    if a < b {
        lemma_contiguous_increasing(vs, a, b - 1);
    }
}

/// Manages database migration: an ordered, contiguous chain of version-tagged
/// steps, run in order between two alternating temporary databases.
pub struct Manager<M: Migration> {
    config: Config,
    migrations: Vec<M>,
}

impl<M: Migration> Manager<M> {
    /// The registered steps, in registration order.
    pub closed spec fn migrations(&self) -> Seq<M> {
        self.migrations@
    }

    /// The configuration the manager was built with.
    pub closed spec fn spec_config(&self) -> Config {
        self.config
    }

    /// The registered versions, in order.
    pub open spec fn versions(&self) -> Seq<u32> {
        spec_versions(self.migrations())
    }

    /// Well-formed: the registered versions form a contiguous chain.
    pub open spec fn wf(&self) -> bool {
        spec_contiguous(self.versions())
    }

    /// A manager with no registered steps.
    pub fn new(config: Config) -> (r: Manager<M>)
        ensures
            r.wf(),
            r.versions() == Seq::<u32>::empty(),
            r.spec_config() == config,
    {
        let r = Manager { config, migrations: Vec::new() };
        proof {
            assert(r.versions() =~= Seq::<u32>::empty());
        }
        r
    }

    /// Register one more step. The step is accepted exactly when it is the
    /// first one or its version is one greater than the last registered
    /// version; a rejected step leaves the chain unchanged.
    pub fn add_migration(&mut self, migration: M) -> (r: Result<(), Error>)
        requires
            old(self).wf(),
        ensures
            final(self).wf(),
            final(self).spec_config() == old(self).spec_config(),
            ({
                let fits = old(self).versions().len() == 0 || migration.spec_version() == old(
                    self,
                ).versions().last() + 1;
                if fits {
                    r is Ok && final(self).migrations() == old(self).migrations().push(migration)
                        && final(self).versions() == old(self).versions().push(
                        migration.spec_version(),
                    )
                } else {
                    (r matches Err(e) && e is CannotAddMigration) && final(self).migrations()
                        == old(self).migrations()
                }
            }),
    {
        let n = self.migrations.len();
        let version_match: bool = if n == 0 {
            true
        } else {
            let lv = self.migrations[n - 1].version();
            let mv = migration.version();
            if lv == u32::MAX {
                false
            } else {
                mv == lv + 1
            }
        };
        if version_match {
            let ghost mv = migration.spec_version();
            self.migrations.push(migration);
            proof {
                assert(self.versions() =~= old(self).versions().push(mv));
            }
            Ok(())
        } else {
            Err(Error::CannotAddMigration)
        }
    }

    /// True when the highest registered version exceeds `version`, so that a
    /// database at `version` needs migrating.
    pub fn is_needed(&self, version: u32) -> (r: bool)
        ensures
            r == (self.versions().len() > 0 && version < self.versions().last()),
    {
        let n = self.migrations.len();
        if n == 0 {
            false
        } else {
            version < self.migrations[n - 1].version()
        }
    }

    /// The index of the first registered step whose version is one greater
    /// than `version`, if any: the first step a migration from `version` runs.
    fn migrations_from(&self, version: u32) -> (r: Option<usize>)
        ensures
            match r {
                Some(i) => i < self.versions().len() && self.versions()[i as int] == version + 1,
                None => forall|j: int|
                    0 <= j < self.versions().len() ==> self.versions()[j] != version + 1,
            },
    {
        let n = self.migrations.len();
        let mut k: usize = 0;
        while k < n
            invariant
                n == self.migrations().len(),
                k <= n,
                forall|j: int| 0 <= j < k ==> self.versions()[j] != version + 1,
            decreases n - k,
        {
            let v = self.migrations[k].version();
            if version < u32::MAX && v == version + 1 {
                return Some(k);
            }
            proof {
                assert(self.versions()[k as int] == v);
            }
            k = k + 1;
        }
        None
    }

    /// Run the registered steps whose versions exceed `version`, in order,
    /// starting from the database at `old_path`, alternating between the two
    /// fixed temporary paths under the databases' directory and deleting each
    /// temporary database as soon as it is superseded, so that at most two
    /// temporary databases ever exist at once. Returns the path holding the
    /// fully migrated database; the caller promotes it to the canonical path.
    /// On success the migrated contents are the chain of the steps' declared
    /// transforms applied to the source, and exactly one temporary database
    /// remains: the result. Fails with the no-path error, touching nothing,
    /// when no registered step has version exactly one above `version`; a
    /// failing step's error comes back tagged with that step's version, and
    /// either way the database at `old_path` is untouched.
    #[verifier::rlimit(100)]
    pub fn execute(&mut self, env: &mut DbEnv, old_path: &Vec<u8>, version: u32) -> (r: Result<
        Vec<u8>,
        Error,
    >)
        requires
            old(self).wf(),
            old(env).wf(),
            spec_count_temps(old(env)@.dom()) == 0,
            !spec_is_temp_path(old_path@),
        ensures
            final(self).wf(),
            final(env).wf(),
            final(self).versions() == old(self).versions(),
            final(self).spec_config() == old(self).spec_config(),
            final(env).peak() <= old(env).peak() || final(env).peak() <= 2,
            forall|p: Seq<u8>|
                !spec_is_temp_path(p) && p != old_path@ ==> ((final(env)@.dom().contains(p) <==> old(
                    env,
                )@.dom().contains(p)) && (old(env)@.dom().contains(p) ==> final(env)@[p] == old(
                    env,
                )@[p])),
            old(env)@.dom().contains(old_path@) ==> final(env)@[old_path@] == old(
                env,
            )@[old_path@],
            (forall|j: int|
                0 <= j < old(self).versions().len() ==> old(self).versions()[j] != version + 1)
                ==> ((r matches Err(e) && e is MigrationImpossible) && final(env)@ == old(env)@
                && final(env).peak() == old(env).peak()),
            (r matches Err(e) ==> match e {
                Error::MigrationImpossible => forall|j: int|
                    0 <= j < old(self).versions().len() ==> old(self).versions()[j] != version + 1,
                Error::StepFailed(fv, _) => fv > version && exists|i: int|
                    0 <= i < old(self).versions().len() && #[trigger] old(self).versions()[i]
                        == fv,
                _ => false,
            }),
            (r matches Ok(p) ==> exists|i: int|
                0 <= i < old(self).versions().len() && #[trigger] old(self).versions()[i] == version
                    + 1 && p@ == spec_temp_path(
                    spec_parent(old_path@),
                    spec_result_index(old(self).versions().len() - i),
                ) && final(env)@.dom().contains(p@) && final(env)@[p@].wf() && spec_chain(
                    old(self).migrations().skip(i),
                    spec_db_at(old(env)@, old_path@),
                    final(env)@[p@]@,
                )),
            (r matches Ok(p) ==> spec_is_temp_path(p@) && spec_count_temps(final(env)@.dom()) == 1
                && (forall|q: Seq<u8>|
                final(env)@.dom().contains(q) && spec_is_temp_path(q) ==> q == p@)),
    {
        let start = match self.migrations_from(version) {
            Some(i) => i,
            None => {
                return Err(Error::MigrationImpossible);
            },
        };
        let config = self.config;
        let db_root = database_path(old_path);
        let ghost root = spec_parent(old_path@);
        let ghost src0 = spec_db_at(old(env)@, old_path@);
        let mut temp_idx = TempIndex::One;
        let mut temp_path = temp_idx.path(&db_root);
        let cur0 = env.open_or_create(old_path);
        let mut cur_db = cur0;
        proof {
            assert(cur_db@ == src0);
            assert(old(self).migrations().subrange(start as int, start as int) =~= Seq::<
                M,
            >::empty());
        }
        proof {
            lemma_temp_path_is_temp(root, TempIndex::One);
            lemma_temp_path_is_temp(root, TempIndex::Two);
            lemma_temp_paths_distinct(root);
            old(env)@.dom().filter(|q: Seq<u8>| spec_is_temp_path(q)).lemma_len0_is_empty();
            assert forall|p: Seq<u8>| #[trigger] env@.dom().contains(p) implies !spec_is_temp_path(
                p,
            ) by {
                if p != old_path@ {
                    assert(old(env)@.dom().contains(p));
                    if spec_is_temp_path(p) {
                        assert(old(env)@.dom().filter(|q: Seq<u8>| spec_is_temp_path(q)).contains(
                            p,
                        ));
                    }
                }
            }
            lemma_count_temps_insert(old(env)@.dom(), old_path@);
        }
        let n = self.migrations.len();
        let mut k = start;
        while k < n
            invariant
                old(self).wf(),
                n == self.migrations().len(),
                start <= k <= n,
                start < n,
                self.versions() == old(self).versions(),
                spec_contiguous(self.versions()),
                self.config == old(self).spec_config(),
                config == old(self).spec_config(),
                env.wf(),
                cur_db.wf(),
                root == spec_parent(old_path@),
                db_root@ == root,
                !spec_is_temp_path(old_path@),
                spec_count_temps(old(env)@.dom()) == 0,
                self.versions()[start as int] == version + 1,
                env@.dom().contains(old_path@),
                temp_idx == (if (k - start) % 2 == 0 {
                    TempIndex::One
                } else {
                    TempIndex::Two
                }),
                !env@.dom().contains(spec_temp_path(root, temp_idx)),
                forall|p: Seq<u8>| #[trigger]
                    env@.dom().contains(p) && spec_is_temp_path(p) ==> p == spec_temp_path(
                        root,
                        temp_idx.spec_other(),
                    ),
                k > start ==> env@.dom().contains(spec_temp_path(root, temp_idx.spec_other()))
                    && temp_path@ == spec_temp_path(root, temp_idx.spec_other())
                    && env@[spec_temp_path(root, temp_idx.spec_other())].wf()
                    && env@[spec_temp_path(root, temp_idx.spec_other())]@ == cur_db@,
                forall|j: int|
                    k <= j < n ==> self.migrations()[j] == old(self).migrations()[j],
                src0 == spec_db_at(old(env)@, old_path@),
                spec_chain(old(self).migrations().subrange(start as int, k as int), src0, cur_db@),
                env.peak() <= old(env).peak() || env.peak() <= 2,
                spec_count_temps(env@.dom()) <= 1,
                forall|p: Seq<u8>|
                    !spec_is_temp_path(p) && p != old_path@ ==> ((env@.dom().contains(p) <==> old(
                        env,
                    )@.dom().contains(p)) && (old(env)@.dom().contains(p) ==> env@[p] == old(
                        env,
                    )@[p])),
                old(env)@.dom().contains(old_path@) ==> env@[old_path@] == old(env)@[old_path@],
            decreases n - k,
        {
            proof {
                lemma_temp_path_is_temp(root, TempIndex::One);
                lemma_temp_path_is_temp(root, TempIndex::Two);
                lemma_temp_paths_distinct(root);
            }
            temp_path = temp_idx.path(&db_root);
            let ghost pre_open = env@;
            let new_db0 = env.open_or_create(&temp_path);
            let mut new_db = new_db0;
            proof {
                lemma_count_temps_insert(pre_open.dom(), temp_path@);
                assert(new_db@ =~= Map::<Seq<u8>, Seq<u8>>::empty());
            }
            let step_version = self.migrations[k].version();
            proof {
                assert(step_version == old(self).versions()[k as int]) by {
                    assert(self.migrations()[k as int] == old(self).migrations()[k as int]);
                }
                lemma_contiguous_increasing(old(self).versions(), start as int, k as int);
            }
            let ghost mid = cur_db@;
            let step = &mut self.migrations[k];
            let step_r = step.migrate(&cur_db, &config, &mut new_db);
            proof {
                assert(self.versions() =~= old(self).versions());
                assert forall|j: int|
                    k + 1 <= j < n implies self.migrations()[j] == old(self).migrations()[j] by {}
            }
            match step_r {
                Ok(()) => {},
                Err(e) => {
                    return Err(Error::StepFailed(step_version, Box::new(e)));
                },
            }
            proof {
                assert(old(self).migrations()[k as int].spec_transforms(
                    mid,
                    Map::empty(),
                    new_db@,
                ));
                lemma_chain_extend(
                    old(self).migrations(),
                    start as int,
                    k as int,
                    src0,
                    mid,
                    new_db@,
                );
            }
            let keep = new_db.duplicate();
            env.store(&temp_path, new_db);
            cur_db = keep;
            temp_idx.swap();
            let stale = temp_idx.path(&db_root);
            let ghost pre_remove = env@;
            env.remove(&stale);
            proof {
                lemma_count_temps_remove(pre_remove.dom(), stale@);
                assert(spec_count_temps(env@.dom()) <= 1) by {
                    assert forall|p: Seq<u8>| #[trigger]
                        env@.dom().contains(p) && spec_is_temp_path(p) implies p == spec_temp_path(
                        root,
                        temp_idx.spec_other(),
                    ) by {}
                    let temps = env@.dom().filter(|q: Seq<u8>| spec_is_temp_path(q));
                    assert(temps.subset_of(
                        Set::<Seq<u8>>::empty().insert(spec_temp_path(root, temp_idx.spec_other())),
                    ));
                    vstd::set_lib::lemma_len_subset(
                        temps,
                        Set::<Seq<u8>>::empty().insert(spec_temp_path(root, temp_idx.spec_other())),
                    );
                }
            }
            k = k + 1;
        }
        proof {
            assert((n - start) % 2 == 1 ==> temp_idx == TempIndex::Two);
            assert((n - start) % 2 == 0 ==> temp_idx == TempIndex::One);
            assert(temp_path@ == spec_temp_path(root, spec_result_index(n - start)));
            assert(old(self).versions()[start as int] == version + 1);
            assert(old(self).migrations().subrange(start as int, n as int) =~= old(
                self,
            ).migrations().skip(start as int));
            assert(env@[temp_path@]@ == cur_db@);
            lemma_temp_path_is_temp(root, temp_idx.spec_other());
            assert(spec_count_temps(env@.dom()) == 1) by {
                let temps = env@.dom().filter(|q: Seq<u8>| spec_is_temp_path(q));
                assert(temps =~= Set::<Seq<u8>>::empty().insert(temp_path@));
                broadcast use vstd::set::axiom_set_empty_len;

                vstd::set::axiom_set_insert_len(Set::<Seq<u8>>::empty(), temp_path@);
            }
        }
        Ok(temp_path)
    }
}

} // verus!
