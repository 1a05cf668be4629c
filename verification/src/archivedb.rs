//! The archival storage engine: a content-addressed overlay in front of a
//! backing database, with a commit protocol that never discards history.
//! Logical removes are counted but no committed payload is ever deleted, so
//! every value committed in some era stays retrievable in every later era.

use vstd::prelude::*;

use crate::alist::{has_key, lemma_map_of_domain, lemma_map_of_values, map_of, unique_keys, AList};
use crate::bytes::{copy_bytes, slice_to_vec, spec_starts_with};
use crate::database::{
    bytes_view, spec_apply_ops, spec_col_prefix, spec_db_key, Database, DBTransaction,
};
use crate::error::Error;
use crate::hash::{keccak, keccak256, H256};
use crate::overlay::{
    pairs_view, spec_overlay_denote, spec_overlay_insert, spec_overlay_remove, Overlay,
};

verus! {

/// Sentinel byte appended to auxiliary keys before they reach the backing
/// store, keeping them out of the 32-byte content-hash keyspace.
pub const AUX_FLAG: u8 = 255;

/// How many leading bytes of a content hash a `state` lookup matches on.
pub const DB_PREFIX_LEN: usize = 12;

/// The reserved backing-store key under which the latest committed era is
/// persisted.
pub open spec fn spec_era_key() -> Seq<u8> {
    seq![108u8, 97u8, 115u8, 116u8, 0u8, 0u8, 0u8, 0u8, 0u8, 0u8, 0u8, 0u8]
}

/// The reserved era-marker key as bytes.
pub fn era_key() -> (r: Vec<u8>)
    ensures
        r@ == spec_era_key(),
{
    let mut r: Vec<u8> = Vec::new();
    r.push(108u8);
    r.push(97u8);
    r.push(115u8);
    r.push(116u8);
    let mut i: usize = 0;
    while i < 8
        invariant
            i <= 8,
            r@ =~= spec_era_key().subrange(0, 4 + i as int),
        decreases 8 - i,
    {
        r.push(0u8);
        i = i + 1;
    }
    proof {
        assert(r@ =~= spec_era_key());
    }
    r
}

/// The abstract state of an archival engine: the overlay's two entry maps,
/// the backing store's raw map, the era marker, and the column the engine
/// works in.
#[verifier::ext_equal]
pub struct ArchiveView {
    /// Content-hash entries pending in the overlay: payload and signed count.
    pub overlay: Map<Seq<u8>, (Seq<u8>, int)>,
    /// Auxiliary entries pending in the overlay.
    pub aux: Map<Seq<u8>, Seq<u8>>,
    /// The backing store, keyed by encoded (column, key) byte strings.
    pub backing: Map<Seq<u8>, Seq<u8>>,
    /// The logical timestamp of the most recent commit, if any.
    pub era: Option<u64>,
    /// The column namespace this engine reads and writes.
    pub column: Option<u32>,
}

/// What a hash-addressed read of `h` returns: the overlay's copy when the
/// entry is live there, else the backing store's copy, else nothing.
pub open spec fn spec_resolve(v: ArchiveView, h: Seq<u8>) -> Option<Seq<u8>> {
    if v.overlay.dom().contains(h) && v.overlay[h].1 > 0 {
        Some(v.overlay[h].0)
    } else if v.backing.dom().contains(spec_db_key(v.column, h)) {
        Some(v.backing[spec_db_key(v.column, h)])
    } else {
        None
    }
}

/// What an auxiliary read of `k` returns: the overlay's copy when present,
/// else the backing store's copy under the sentinel-suffixed key.
pub open spec fn spec_resolve_aux(v: ArchiveView, k: Seq<u8>) -> Option<Seq<u8>> {
    if v.aux.dom().contains(k) {
        Some(v.aux[k])
    } else if v.backing.dom().contains(spec_db_key(v.column, k.push(AUX_FLAG))) {
        Some(v.backing[spec_db_key(v.column, k.push(AUX_FLAG))])
    } else {
        None
    }
}

/// The state after an insert of payload `val` whose content hash is `h`.
pub open spec fn spec_insert(v: ArchiveView, h: Seq<u8>, val: Seq<u8>) -> ArchiveView {
    ArchiveView { overlay: spec_overlay_insert(v.overlay, h, val), ..v }
}

/// The state after a logical remove of hash `h`.
pub open spec fn spec_remove(v: ArchiveView, h: Seq<u8>) -> ArchiveView {
    ArchiveView { overlay: spec_overlay_remove(v.overlay, h), ..v }
}

/// The state after a hash-addressed read of `h`: a payload found only in the
/// backing store is cached in the overlay with a zero count.
pub open spec fn spec_after_get(v: ArchiveView, h: Seq<u8>) -> ArchiveView {
    if v.overlay.dom().contains(h) && v.overlay[h].1 > 0 {
        v
    } else if v.backing.dom().contains(spec_db_key(v.column, h)) {
        ArchiveView {
            overlay: spec_overlay_denote(v.overlay, h, v.backing[spec_db_key(v.column, h)]),
            ..v
        }
    } else {
        v
    }
}

/// True when a commit at logical time `now` advances the era.
pub open spec fn spec_era_newer(v: ArchiveView, now: u64) -> bool {
    match v.era {
        None => true,
        Some(e) => now > e,
    }
}

/// The backing-store puts that flushing the overlay's live content entries
/// produces, keyed by their encoded form.
pub open spec fn spec_content_puts(
    overlay: Map<Seq<u8>, (Seq<u8>, int)>,
    col: Option<u32>,
) -> Map<Seq<u8>, Seq<u8>> {
    Map::new(
        |rk: Seq<u8>|
            spec_starts_with(rk, spec_col_prefix(col)) && overlay.dom().contains(
                rk.skip(spec_col_prefix(col).len() as int),
            ) && overlay[rk.skip(spec_col_prefix(col).len() as int)].1 > 0,
        |rk: Seq<u8>| overlay[rk.skip(spec_col_prefix(col).len() as int)].0,
    )
}

/// The backing-store puts that flushing the overlay's auxiliary entries
/// produces: each key carries the sentinel suffix.
pub open spec fn spec_aux_puts(
    aux: Map<Seq<u8>, Seq<u8>>,
    col: Option<u32>,
) -> Map<Seq<u8>, Seq<u8>> {
    Map::new(
        |rk: Seq<u8>|
            spec_starts_with(rk, spec_col_prefix(col)) && rk.len() > spec_col_prefix(col).len()
                && rk.last() == AUX_FLAG && aux.dom().contains(
                rk.skip(spec_col_prefix(col).len() as int).drop_last(),
            ),
        |rk: Seq<u8>| aux[rk.skip(spec_col_prefix(col).len() as int).drop_last()],
    )
}

/// The state after a commit at logical time `now`: live content entries and
/// auxiliary entries reach the backing store, the era marker advances when
/// `now` is newer, and the overlay is drained.
pub open spec fn spec_commit(v: ArchiveView, now: u64) -> ArchiveView {
    let flushed = v.backing.union_prefer_right(
        spec_content_puts(v.overlay, v.column),
    ).union_prefer_right(spec_aux_puts(v.aux, v.column));
    let backing = if spec_era_newer(v, now) {
        flushed.insert(
            spec_db_key(v.column, spec_era_key()),
            vstd::bytes::spec_u64_to_le_bytes(now),
        )
    } else {
        flushed
    };
    ArchiveView {
        overlay: Map::empty(),
        aux: Map::empty(),
        backing,
        era: if spec_era_newer(v, now) {
            Some(now)
        } else {
            v.era
        },
        column: v.column,
    }
}

/// How many overlay entries hold a live insert pending flush.
pub open spec fn spec_insert_count(m: Map<Seq<u8>, (Seq<u8>, int)>) -> nat {
    m.dom().filter(|k: Seq<u8>| m[k].1 > 0).len()
}

/// How many overlay entries hold a pending logical removal.
pub open spec fn spec_delete_count(m: Map<Seq<u8>, (Seq<u8>, int)>) -> nat {
    m.dom().filter(|k: Seq<u8>| m[k].1 < 0).len()
}

/// The abstract state that opening an engine over backing store `b` yields:
/// an empty overlay and the era read back from the reserved key.
pub open spec fn spec_open(b: Map<Seq<u8>, Seq<u8>>, col: Option<u32>) -> ArchiveView {
    ArchiveView {
        overlay: Map::empty(),
        aux: Map::empty(),
        backing: b,
        era: if b.dom().contains(spec_db_key(col, spec_era_key())) {
            Some(vstd::bytes::spec_u64_from_le_bytes(b[spec_db_key(col, spec_era_key())]))
        } else {
            None
        },
        column: col,
    }
}

/// True when the reserved era entry of `b`, if present, has the 8-byte shape
/// the decoder expects. A malformed era entry means a corrupt store, an
/// unrecoverable fault, so opening such a store is excluded here.
pub open spec fn spec_era_entry_ok(b: Map<Seq<u8>, Seq<u8>>, col: Option<u32>) -> bool {
    b.dom().contains(spec_db_key(col, spec_era_key())) ==> b[spec_db_key(
        col,
        spec_era_key(),
    )].len() == 8
}

/// The in-memory era matches what the backing store persists under the
/// reserved key.
pub open spec fn spec_era_consistent(v: ArchiveView) -> bool {
    match v.era {
        None => !v.backing.dom().contains(spec_db_key(v.column, spec_era_key())),
        Some(e) => v.backing.dom().contains(spec_db_key(v.column, spec_era_key()))
            && v.backing[spec_db_key(v.column, spec_era_key())]
            == vstd::bytes::spec_u64_to_le_bytes(e),
    }
}

/// Every overlay content key is a 32-byte hash.
pub open spec fn spec_hash_keys(v: ArchiveView) -> bool {
    forall|k: Seq<u8>| #[trigger] v.overlay.dom().contains(k) ==> k.len() == 32
}

/// The stored reference count of one overlay entry, as an integer.
pub open spec fn rc_of(e: (Vec<u8>, (Vec<u8>, i32))) -> int {
    e.1.1 as int
}

/// Whether a committed 32-byte hash key contributes one reference to the
/// merged key listing.
pub open spec fn spec_base_count(v: ArchiveView, h: Seq<u8>) -> int {
    if h.len() == 32 && v.backing.dom().contains(spec_db_key(v.column, h)) {
        1int
    } else {
        0int
    }
}

/// Every hash the store knows, mapped to its merged reference count: one for
/// a committed key, plus the overlay's pending count.
pub open spec fn spec_keys_view(v: ArchiveView) -> Map<Seq<u8>, int> {
    Map::new(
        |h: Seq<u8>| spec_base_count(v, h) == 1 || v.overlay.dom().contains(h),
        |h: Seq<u8>|
            spec_base_count(v, h) + (
            if v.overlay.dom().contains(h) {
                v.overlay[h].1
            } else {
                0int
            }),
    )
}

/// The archival storage engine.
pub struct ArchiveDB {
    overlay: Overlay,
    backing: Database,
    latest_era: Option<u64>,
    column: Option<u32>,
}

impl View for ArchiveDB {
    type V = ArchiveView;

    closed spec fn view(&self) -> ArchiveView {
        ArchiveView {
            overlay: self.overlay.entries(),
            aux: self.overlay.aux(),
            backing: self.backing@,
            era: self.latest_era,
            column: self.column,
        }
    }
}

impl ArchiveDB {
    /// The components are well-formed.
    pub closed spec fn parts_wf(&self) -> bool {
        self.overlay.wf() && self.backing.wf()
    }

    /// Well-formed: components are well-formed, the persisted era matches the
    /// in-memory one, and every overlay content key is a 32-byte hash.
    pub open spec fn wf(&self) -> bool {
        self.parts_wf() && spec_era_consistent(self@) && spec_hash_keys(self@)
    }

    /// The view's maps have finite domains.
    pub proof fn lemma_finite(&self)
        ensures
            self@.overlay.dom().finite(),
            self@.aux.dom().finite(),
            self@.backing.dom().finite(),
    {
        self.overlay.lemma_finite();
        self.backing.lemma_finite();
    }

    /// Open an engine over `backing`, reading the latest committed era back
    /// from the reserved key.
    pub fn new(backing: Database, col: Option<u32>) -> (r: ArchiveDB)
        requires
            backing.wf(),
            spec_era_entry_ok(backing@, col),
        ensures
            r.wf(),
            r@ == spec_open(backing@, col),
    {
        let ek = era_key();
        let latest_era: Option<u64> = match backing.get(col, &ek) {
            Some(v) => {
                let e = vstd::bytes::u64_from_le_bytes(v.as_slice());
                proof {
                    vstd::bytes::lemma_auto_spec_u64_to_from_le_bytes();
                }
                Some(e)
            },
            None => None,
        };
        let r = ArchiveDB { overlay: Overlay::new(), backing, latest_era, column: col };
        proof {
            assert(r@ =~~= spec_open(r.backing@, col));
        }
        r
    }

    /// Release the engine, handing its backing store back to the caller.
    pub fn close(self) -> (r: Database)
        requires
            self.wf(),
        ensures
            r.wf(),
            r@ == self@.backing,
    {
        self.backing
    }

    /// The payload stored in the backing store under hash `key`, if any.
    fn payload(&self, key: &Vec<u8>) -> (r: Option<Vec<u8>>)
        requires
            self.parts_wf(),
        ensures
            match r {
                Some(v) => self@.backing.dom().contains(spec_db_key(self@.column, key@))
                    && v@ == self@.backing[spec_db_key(self@.column, key@)],
                None => !self@.backing.dom().contains(spec_db_key(self@.column, key@)),
            },
    {
        match self.backing.get(self.column, key) {
            Some(v) => Some(copy_bytes(v)),
            None => None,
        }
    }

    /// Hash-addressed read: the overlay's live copy when present, else the
    /// backing store's copy, which is then cached in the overlay.
    pub fn get(&mut self, key: &H256) -> (r: Option<Vec<u8>>)
        requires
            old(self).wf(),
            key.wf(),
        ensures
            final(self).wf(),
            final(self)@ == spec_after_get(old(self)@, key@),
            match r {
                Some(v) => spec_resolve(old(self)@, key@) == Some(v@),
                None => spec_resolve(old(self)@, key@) is None,
            },
    {
        let kb = key.to_vec();
        let hit: Option<Vec<u8>> = match self.overlay.raw(&kb) {
            Some(p) => {
                if p.1 > 0 {
                    Some(copy_bytes(&p.0))
                } else {
                    None
                }
            },
            None => None,
        };
        match hit {
            Some(v) => {
                proof {
                    assert(final(self)@ =~~= spec_after_get(old(self)@, key@));
                }
                Some(v)
            },
            None => {
                match self.payload(&kb) {
                    Some(x) => {
                        let out = copy_bytes(&x);
                        self.overlay.denote(&kb, x);
                        proof {
                            assert(final(self)@ =~~= spec_after_get(old(self)@, key@));
                        }
                        Some(out)
                    },
                    None => {
                        proof {
                            assert(final(self)@ =~~= spec_after_get(old(self)@, key@));
                        }
                        None
                    },
                }
            },
        }
    }

    /// True when a hash-addressed read of `key` would find a payload.
    pub fn contains(&mut self, key: &H256) -> (r: bool)
        requires
            old(self).wf(),
            key.wf(),
        ensures
            final(self).wf(),
            final(self)@ == spec_after_get(old(self)@, key@),
            r == (spec_resolve(old(self)@, key@) is Some),
    {
        match self.get(key) {
            Some(_) => true,
            None => false,
        }
    }

    /// Insert a payload under its content hash, raising the hash's reference
    /// count, and return the hash.
    pub fn insert(&mut self, value: &[u8]) -> (r: H256)
        requires
            old(self).wf(),
            forall|k: Seq<u8>| #[trigger]
                old(self)@.overlay.dom().contains(k) ==> old(self)@.overlay[k].1 < i32::MAX as int,
        ensures
            final(self).wf(),
            r.wf(),
            r@ == keccak256(value@),
            final(self)@ == spec_insert(old(self)@, keccak256(value@), value@),
    {
        let h = keccak(value);
        let kb = h.to_vec();
        let vb = slice_to_vec(value);
        self.overlay.insert_with_key(kb, vb);
        proof {
            assert(final(self)@ =~~= spec_insert(old(self)@, keccak256(value@), value@));
        }
        h
    }

    /// Force-set a payload under a caller-supplied hash, raising that hash's
    /// reference count without recomputing any hash.
    pub fn emplace(&mut self, key: H256, value: Vec<u8>)
        requires
            old(self).wf(),
            key.wf(),
            old(self)@.overlay.dom().contains(key@) ==> old(self)@.overlay[key@].1 < i32::MAX
                as int,
        ensures
            final(self).wf(),
            final(self)@ == spec_insert(old(self)@, key@, value@),
    {
        let kb = key.to_vec();
        self.overlay.insert_with_key(kb, value);
        proof {
            assert(final(self)@ =~~= spec_insert(old(self)@, key@, value@));
        }
    }

    /// Lower the reference count under `key`, signalling a pending removal
    /// without requiring the payload bytes in memory.
    pub fn remove(&mut self, key: &H256)
        requires
            old(self).wf(),
            key.wf(),
            old(self)@.overlay.dom().contains(key@) ==> old(self)@.overlay[key@].1 > i32::MIN
                as int,
        ensures
            final(self).wf(),
            final(self)@ == spec_remove(old(self)@, key@),
    {
        let kb = key.to_vec();
        self.overlay.remove(&kb);
        proof {
            assert(final(self)@ =~~= spec_remove(old(self)@, key@));
        }
    }

    /// Store an auxiliary value in the overlay.
    pub fn insert_aux(&mut self, key: Vec<u8>, value: Vec<u8>)
        requires
            old(self).wf(),
        ensures
            final(self).wf(),
            final(self)@ == (ArchiveView { aux: old(self)@.aux.insert(key@, value@), ..old(self)@ }),
    {
        self.overlay.insert_aux(key, value);
        proof {
            assert(final(self)@ =~~= ArchiveView {
                aux: old(self)@.aux.insert(key@, value@),
                ..old(self)@
            });
        }
    }

    /// Auxiliary read: the overlay's copy when present, else the backing
    /// store's copy under the sentinel-suffixed key.
    pub fn get_aux(&self, key: &Vec<u8>) -> (r: Option<Vec<u8>>)
        requires
            self.wf(),
        ensures
            match r {
                Some(v) => spec_resolve_aux(self@, key@) == Some(v@),
                None => spec_resolve_aux(self@, key@) is None,
            },
    {
        match self.overlay.get_aux(key) {
            Some(v) => Some(copy_bytes(v)),
            None => {
                let mut db_key = copy_bytes(key);
                db_key.push(AUX_FLAG);
                match self.backing.get(self.column, &db_key) {
                    Some(v) => Some(copy_bytes(v)),
                    None => None,
                }
            },
        }
    }

    /// Drop the overlay's auxiliary entry under `key`, if any.
    pub fn remove_aux(&mut self, key: &Vec<u8>)
        requires
            old(self).wf(),
        ensures
            final(self).wf(),
            final(self)@ == (ArchiveView { aux: old(self)@.aux.remove(key@), ..old(self)@ }),
    {
        self.overlay.remove_aux(key);
        proof {
            assert(final(self)@ =~~= ArchiveView {
                aux: old(self)@.aux.remove(key@),
                ..old(self)@
            });
        }
    }

    /// An independent handle over a copy of the backing store at the same
    /// era, with its own empty overlay.
    pub fn boxed_clone(&self) -> (r: ArchiveDB)
        requires
            self.wf(),
        ensures
            r.wf(),
            r@ == (ArchiveView {
                overlay: Map::empty(),
                aux: Map::empty(),
                backing: self@.backing,
                era: self@.era,
                column: self@.column,
            }),
    {
        let r = ArchiveDB {
            overlay: Overlay::new(),
            backing: self.backing.duplicate(),
            latest_era: self.latest_era,
            column: self.column,
        };
        proof {
            assert(r@ =~~= ArchiveView {
                overlay: Map::empty(),
                aux: Map::empty(),
                backing: self@.backing,
                era: self@.era,
                column: self@.column,
            });
        }
        r
    }

    /// True while no era has ever been committed.
    pub fn is_empty(&self) -> (r: bool)
        ensures
            r == (self@.era is None),
    {
        match self.latest_era {
            None => true,
            Some(_) => false,
        }
    }

    /// The logical timestamp of the most recent commit, if any.
    pub fn latest_era(&self) -> (r: Option<u64>)
        ensures
            r == self@.era,
    {
        self.latest_era
    }

    /// Whether this variant ever discards historical state: the archival
    /// policy never does.
    pub fn is_pruned(&self) -> (r: bool)
        ensures
            r == false,
    {
        false
    }

    /// A measure of the overlay's size: how many content and auxiliary
    /// entries are pending.
    pub fn mem_used(&self) -> (r: usize)
        requires
            self.wf(),
        ensures
            r == self@.overlay.dom().len() + self@.aux.dom().len() || (r == usize::MAX
                && self@.overlay.dom().len() + self@.aux.dom().len() > usize::MAX),
    {
        let a = self.overlay.num_entries();
        let b = self.overlay.num_aux();
        if a <= usize::MAX - b {
            a + b
        } else {
            usize::MAX
        }
    }

    /// Recover a payload by the leading bytes of its content hash: a direct
    /// prefix read against the backing store.
    pub fn state(&self, id: &H256) -> (r: Option<Vec<u8>>)
        requires
            self.wf(),
            id.wf(),
        ensures
            match r {
                Some(v) => exists|rk: Seq<u8>|
                    #![auto]
                    self@.backing.dom().contains(rk) && spec_starts_with(
                        rk,
                        spec_db_key(self@.column, id@.subrange(0, DB_PREFIX_LEN as int)),
                    ) && v@ == self@.backing[rk],
                None => forall|rk: Seq<u8>|
                    #![auto]
                    self@.backing.dom().contains(rk) ==> !spec_starts_with(
                        rk,
                        spec_db_key(self@.column, id@.subrange(0, DB_PREFIX_LEN as int)),
                    ),
            },
    {
        let kb = id.as_bytes();
        let mut prefix: Vec<u8> = Vec::new();
        let mut i: usize = 0;
        while i < DB_PREFIX_LEN
            invariant
                i <= DB_PREFIX_LEN,
                kb@.len() == 32,
                prefix@ =~= kb@.subrange(0, i as int),
            decreases DB_PREFIX_LEN - i,
        {
            prefix.push(kb[i]);
            i = i + 1;
        }
        proof {
            assert(prefix@ =~= id@.subrange(0, DB_PREFIX_LEN as int));
        }
        self.backing.get_by_prefix(self.column, &prefix)
    }

    /// Every hash the store knows, each with its merged reference count:
    /// committed 32-byte hash keys count one, and the overlay's pending
    /// counts are added on top.
    #[verifier::rlimit(100)]
    pub fn keys(&self) -> (r: Vec<(H256, i32)>)
        requires
            self.wf(),
            forall|k: Seq<u8>| #[trigger] self@.overlay.dom().contains(k) ==> self@.overlay[k].1
                < i32::MAX as int,
        ensures
            forall|t: int|
                0 <= t < r@.len() ==> (#[trigger] r@[t].0).wf() && spec_keys_view(
                    self@,
                ).dom().contains(r@[t].0@) && r@[t].1 as int == spec_keys_view(self@)[r@[t].0@],
            forall|h: Seq<u8>| #[trigger] spec_keys_view(self@).dom().contains(h) ==> exists|t: int|
                0 <= t < r@.len() && #[trigger] r@[t].0@ == h,
    {
        let listed = self.backing.iter(self.column);
        let mut acc: AList<i32> = AList::new();
        let n = listed.len();
        let mut i: usize = 0;
        while i < n
            invariant
                n == listed@.len(),
                i <= n,
                acc.wf(),
                self.wf(),
                forall|t: int|
                    0 <= t < listed@.len() ==> self@.backing.dom().contains(
                        spec_db_key(self@.column, #[trigger] listed@[t].0@),
                    ),
                forall|h: Seq<u8>| #[trigger]
                    self@.backing.dom().contains(spec_db_key(self@.column, h)) ==> exists|t: int|
                        0 <= t < listed@.len() && #[trigger] listed@[t].0@ == h,
                forall|kk: Seq<u8>| #[trigger]
                    acc@.dom().contains(kk) ==> kk.len() == 32 && acc@[kk] == 1i32
                        && spec_base_count(self@, kk) == 1,
                forall|j: int|
                    0 <= j < i && (#[trigger] listed@[j].0@).len() == 32 ==> acc@.dom().contains(
                        listed@[j].0@,
                    ),
            decreases n - i,
        {
            let item = &listed[i];
            if item.0.len() == 32 {
                let kc = copy_bytes(&item.0);
                acc.insert(kc, 1i32);
            }
            i = i + 1;
        }
        proof {
            assert forall|kk: Seq<u8>| #[trigger]
                acc@.dom().contains(kk) <==> spec_base_count(self@, kk) == 1 by {
                if spec_base_count(self@, kk) == 1 {
                    let t = choose|t: int|
                        0 <= t < listed@.len() && #[trigger] listed@[t].0@ == kk;
                    assert(acc@.dom().contains(listed@[t].0@));
                }
            }
            self.overlay.lemma_entries_seq();
        }
        let n2 = self.overlay.num_entries();
        let ghost oseq = self.overlay.entries_seq();
        let mut p: usize = 0;
        proof {
            assert(oseq.take(0) =~= Seq::<(Vec<u8>, (Vec<u8>, i32))>::empty());
        }
        while p < n2
            invariant
                self.wf(),
                n2 == oseq.len(),
                oseq == self.overlay.entries_seq(),
                p <= n2,
                acc.wf(),
                forall|k: Seq<u8>| #[trigger] self@.overlay.dom().contains(k) ==> self@.overlay[k].1
                    < i32::MAX as int,
                forall|idx: int|
                    0 <= idx < oseq.len() ==> self@.overlay.dom().contains(
                        #[trigger] oseq[idx].0@,
                    ) && self@.overlay[oseq[idx].0@] == (oseq[idx].1.0@, oseq[idx].1.1 as int),
                forall|idx: int, jdx: int|
                    0 <= idx < jdx < oseq.len() ==> oseq[idx].0@ != oseq[jdx].0@,
                forall|kk: Seq<u8>| #[trigger]
                    acc@.dom().contains(kk) <==> (spec_base_count(self@, kk) == 1 || has_key(
                        oseq.take(p as int),
                        kk,
                    )),
                forall|kk: Seq<u8>| #[trigger]
                    acc@.dom().contains(kk) ==> kk.len() == 32 && acc@[kk] as int == spec_base_count(
                        self@,
                        kk,
                    ) + (
                    if has_key(oseq.take(p as int), kk) {
                        self@.overlay[kk].1
                    } else {
                        0int
                    }),
            decreases n2 - p,
        {
            let ghost e = oseq[p as int];
            proof {
                assert(!has_key(oseq.take(p as int), e.0@)) by {
                    if has_key(oseq.take(p as int), e.0@) {
                        let j = choose|j: int|
                            0 <= j < p && #[trigger] oseq.take(p as int)[j].0@ == e.0@;
                        assert(oseq[j].0@ == oseq[p as int].0@);
                        assert(false);
                    }
                }
                assert(self@.overlay.dom().contains(e.0@));
                assert(e.0@.len() == 32);
            }
            let item = self.overlay.entry_at(p);
            let base: i32 = match acc.get(&item.0) {
                Some(v) => *v,
                None => 0i32,
            };
            proof {
                assert(base as int == spec_base_count(self@, e.0@));
            }
            proof {
                assert(rc_of(e) < i32::MAX) by {
                    assert(self@.overlay[e.0@] == (e.1.0@, e.1.1 as int));
                }
            }
            let kc = copy_bytes(&item.0);
            let rc = item.1.1;
            proof {
                assert(base as int + rc as int <= 0x7fff_ffff);
                assert(base as int + rc as int >= -0x8000_0000);
            }
            acc.insert(kc, base + rc);
            proof {
                assert forall|kk: Seq<u8>|
                    #![trigger has_key(oseq.take(p + 1), kk)]
                    kk != e.0@ implies has_key(oseq.take(p + 1), kk) == has_key(
                    oseq.take(p as int),
                    kk,
                ) by {
                    if has_key(oseq.take(p + 1), kk) {
                        let j = choose|j: int|
                            0 <= j < p + 1 && #[trigger] oseq.take(p + 1)[j].0@ == kk;
                        if j < p {
                            assert(oseq.take(p as int)[j].0@ == kk);
                        }
                    }
                    if has_key(oseq.take(p as int), kk) {
                        let j = choose|j: int|
                            0 <= j < p && #[trigger] oseq.take(p as int)[j].0@ == kk;
                        assert(oseq.take(p + 1)[j].0@ == kk);
                    }
                }
                assert(oseq.take(p + 1)[p as int].0@ == e.0@);
                assert(has_key(oseq.take(p + 1), e.0@));
                assert forall|kk: Seq<u8>| #[trigger]
                    acc@.dom().contains(kk) <==> (spec_base_count(self@, kk) == 1 || has_key(
                        oseq.take(p + 1),
                        kk,
                    )) by {}
                assert forall|kk: Seq<u8>| #[trigger]
                    acc@.dom().contains(kk) implies kk.len() == 32 && acc@[kk] as int
                    == spec_base_count(self@, kk) + (
                if has_key(oseq.take(p + 1), kk) {
                    self@.overlay[kk].1
                } else {
                    0int
                }) by {
                    if kk == e.0@ {
                        assert(acc@[kk] == base + rc);
                        assert(self@.overlay[kk].1 == rc as int);
                    }
                }
            }
            p = p + 1;
        }
        proof {
            assert(oseq.take(n2 as int) =~= oseq);
            assert forall|kk: Seq<u8>| #[trigger]
                acc@.dom().contains(kk) <==> spec_keys_view(self@).dom().contains(kk) by {
                if self@.overlay.dom().contains(kk) {
                    let idx = choose|idx: int|
                        0 <= idx < oseq.len() && #[trigger] oseq[idx].0@ == kk;
                    assert(has_key(oseq, kk));
                }
                if has_key(oseq, kk) {
                    let idx = choose|idx: int| 0 <= idx < oseq.len() && #[trigger] oseq[idx].0@ == kk;
                    assert(self@.overlay.dom().contains(oseq[idx].0@));
                }
            }
            acc.lemma_entries();
        }
        let n3 = acc.len();
        let mut out: Vec<(H256, i32)> = Vec::new();
        let mut t: usize = 0;
        while t < n3
            invariant
                n3 == acc.seq().len(),
                t <= n3,
                acc.wf(),
                out@.len() == t,
                forall|q: int|
                    0 <= q < t ==> (#[trigger] out@[q].0).wf() && out@[q].0@ == acc.seq()[q].0@
                        && out@[q].1 == acc.seq()[q].1,
                forall|kk: Seq<u8>| #[trigger]
                    acc@.dom().contains(kk) ==> kk.len() == 32,
            decreases n3 - t,
        {
            proof {
                acc.lemma_entries();
            }
            let item = acc.item_at(t);
            let kc = copy_bytes(&item.0);
            let rc = item.1;
            match H256::from_bytes(kc) {
                Some(hh) => {
                    out.push((hh, rc));
                },
                None => {
                    proof {
                        assert(acc@.dom().contains(acc.seq()[t as int].0@));
                        assert(false);
                    }
                },
            }
            t = t + 1;
        }
        proof {
            acc.lemma_entries();
            assert forall|h: Seq<u8>| #[trigger]
                spec_keys_view(self@).dom().contains(h) implies exists|q: int|
                0 <= q < out@.len() && #[trigger] out@[q].0@ == h by {
                acc.lemma_view();
                assert(acc@.dom().contains(h));
                let idx = choose|idx: int|
                    0 <= idx < acc.seq().len() && #[trigger] acc.seq()[idx].0@ == h;
                assert(out@[idx].0@ == h);
            }
            assert forall|q: int|
                0 <= q < out@.len() implies (#[trigger] out@[q].0).wf() && spec_keys_view(
                self@,
            ).dom().contains(out@[q].0@) && out@[q].1 as int == spec_keys_view(
                self@,
            )[out@[q].0@] by {
                assert(acc@.dom().contains(acc.seq()[q].0@));
                assert(acc@[acc.seq()[q].0@] == acc.seq()[q].1);
            }
        }
        out
    }

    /// Flush the overlay into the backing store, atomically: every live
    /// (count +1) content entry and every auxiliary entry is written, every
    /// pending removal (count -1) is counted but deletes nothing, and the era
    /// marker advances exactly when `now` is newer than every era committed
    /// before. Returns the number of inserts plus logical removals processed.
    /// `_id` names the block this commit belongs to and `_end` a canonical
    /// ancestor boundary: pruning variants consume them, the archival variant
    /// ignores them.
    #[verifier::rlimit(80)]
    pub fn commit(&mut self, now: u64, _id: &H256, _end: Option<(u64, H256)>) -> (r: Result<
        u32,
        Error,
    >)
        requires
            old(self).wf(),
            forall|k: Seq<u8>| #[trigger] old(self)@.overlay.dom().contains(k) ==> -1 <= old(
                self,
            )@.overlay[k].1 <= 1,
            old(self)@.overlay.dom().len() <= u32::MAX as nat,
        ensures
            final(self).wf(),
            final(self)@ == spec_commit(old(self)@, now),
            (r matches Ok(c) && c as int == spec_insert_count(old(self)@.overlay)
                + spec_delete_count(old(self)@.overlay)),
    {
        let ghost v0 = self@;
        let col = self.column;
        proof {
            self.lemma_finite();
        }
        let items = self.overlay.take_entries();
        let auxes = self.overlay.take_aux();
        let mut txn = DBTransaction::new();
        let mut inserts: u32 = 0;
        let mut deletes: u32 = 0;
        let n = items.len();
        proof {
            assert(items@.take(0) =~= Seq::<(Vec<u8>, (Vec<u8>, i32))>::empty());
            assert(pairs_view(map_of(items@.take(0))) =~= Map::<Seq<u8>, (Seq<u8>, int)>::empty());
            assert(spec_content_puts(pairs_view(map_of(items@.take(0))), col) =~= Map::<
                Seq<u8>,
                Seq<u8>,
            >::empty());
            assert(v0.backing.union_prefer_right(
                spec_content_puts(pairs_view(map_of(items@.take(0))), col),
            ) =~= v0.backing);
            assert(Map::<Seq<u8>, (Seq<u8>, int)>::empty().dom().filter(
                |k: Seq<u8>| Map::<Seq<u8>, (Seq<u8>, int)>::empty()[k].1 > 0,
            ) =~= Set::<Seq<u8>>::empty());
            assert(Map::<Seq<u8>, (Seq<u8>, int)>::empty().dom().filter(
                |k: Seq<u8>| Map::<Seq<u8>, (Seq<u8>, int)>::empty()[k].1 < 0,
            ) =~= Set::<Seq<u8>>::empty());
        }
        let mut i: usize = 0;
        while i < n
            invariant
                n == items@.len(),
                i <= n,
                n <= u32::MAX,
                unique_keys(items@),
                pairs_view(map_of(items@)) == v0.overlay,
                forall|k: Seq<u8>| #[trigger] v0.overlay.dom().contains(k) ==> -1 <= v0.overlay[k].1
                    <= 1,
                spec_apply_ops(v0.backing, txn@) == v0.backing.union_prefer_right(
                    spec_content_puts(pairs_view(map_of(items@.take(i as int))), col),
                ),
                inserts as int == spec_insert_count(pairs_view(map_of(items@.take(i as int)))),
                deletes as int == spec_delete_count(pairs_view(map_of(items@.take(i as int)))),
                inserts as int + deletes as int <= i,
            decreases n - i,
        {
            let ghost pmi = pairs_view(map_of(items@.take(i as int)));
            let ghost e = items@[i as int];
            proof {
                lemma_map_of_domain(items@.take(i as int));
                assert(!has_key(items@.take(i as int), e.0@)) by {
                    if has_key(items@.take(i as int), e.0@) {
                        let j = choose|j: int|
                            0 <= j < i && #[trigger] items@.take(i as int)[j].0@ == e.0@;
                        assert(items@[j].0@ == items@[i as int].0@);
                        assert(false);
                    }
                }
                assert(!pmi.dom().contains(e.0@));
                assert(pmi.dom() =~= map_of(items@.take(i as int)).dom());
                assert(items@.take(i + 1).drop_last() =~= items@.take(i as int));
                assert(items@.take(i + 1).last() == e);
                assert(pairs_view(map_of(items@.take(i + 1))) =~= pmi.insert(
                    e.0@,
                    (e.1.0@, e.1.1 as int),
                ));
                lemma_rc_count_insert(pmi, e.0@, e.1.0@, e.1.1 as int);
                lemma_content_puts_insert(pmi, col, e.0@, e.1.0@, e.1.1 as int);
                lemma_map_of_values(items@);
                lemma_map_of_domain(items@);
                assert(has_key(items@, e.0@));
                assert(v0.overlay.dom().contains(e.0@));
                assert(v0.overlay[e.0@] == (e.1.0@, e.1.1 as int)) by {
                    assert(map_of(items@)[e.0@] == e.1);
                }
            }
            let item = &items[i];
            let rc = item.1.1;
            if rc > 0 {
                proof {
                    assert(rc == 1);
                }
                let kc = copy_bytes(&item.0);
                let vc = copy_bytes(&item.1.0);
                let ghost pre_txn = txn@;
                txn.put(col, kc, vc);
                proof {
                    lemma_apply_ops_push(v0.backing, pre_txn, (col, e.0@, e.1.0@));
                    lemma_union_insert_right(
                        v0.backing,
                        spec_content_puts(pmi, col),
                        spec_db_key(col, e.0@),
                        e.1.0@,
                    );
                }
                inserts = inserts + 1;
            } else if rc < 0 {
                proof {
                    assert(rc == -1);
                }
                deletes = deletes + 1;
            }
            i = i + 1;
        }
        proof {
            assert(items@.take(n as int) =~= items@);
        }
        let m = auxes.len();
        let ghost base = v0.backing.union_prefer_right(spec_content_puts(v0.overlay, col));
        proof {
            assert(auxes@.take(0) =~= Seq::<(Vec<u8>, Vec<u8>)>::empty());
            assert(bytes_view(map_of(auxes@.take(0))) =~= Map::<Seq<u8>, Seq<u8>>::empty());
            assert(spec_aux_puts(bytes_view(map_of(auxes@.take(0))), col) =~= Map::<
                Seq<u8>,
                Seq<u8>,
            >::empty());
            assert(base.union_prefer_right(
                spec_aux_puts(bytes_view(map_of(auxes@.take(0))), col),
            ) =~= base);
        }
        let mut j: usize = 0;
        while j < m
            invariant
                m == auxes@.len(),
                j <= m,
                unique_keys(auxes@),
                bytes_view(map_of(auxes@)) == v0.aux,
                spec_apply_ops(v0.backing, txn@) == base.union_prefer_right(
                    spec_aux_puts(bytes_view(map_of(auxes@.take(j as int))), col),
                ),
            decreases m - j,
        {
            let ghost ami = bytes_view(map_of(auxes@.take(j as int)));
            let ghost e = auxes@[j as int];
            proof {
                lemma_map_of_domain(auxes@.take(j as int));
                assert(!has_key(auxes@.take(j as int), e.0@)) by {
                    if has_key(auxes@.take(j as int), e.0@) {
                        let t = choose|t: int|
                            0 <= t < j && #[trigger] auxes@.take(j as int)[t].0@ == e.0@;
                        assert(auxes@[t].0@ == auxes@[j as int].0@);
                        assert(false);
                    }
                }
                assert(!ami.dom().contains(e.0@));
                assert(auxes@.take(j + 1).drop_last() =~= auxes@.take(j as int));
                assert(auxes@.take(j + 1).last() == e);
                assert(bytes_view(map_of(auxes@.take(j + 1))) =~= ami.insert(e.0@, e.1@));
                lemma_aux_puts_insert(ami, col, e.0@, e.1@);
            }
            let aux_item = &auxes[j];
            let mut k2 = copy_bytes(&aux_item.0);
            k2.push(AUX_FLAG);
            proof {
                assert(k2@ =~= e.0@.push(AUX_FLAG));
            }
            let vc = copy_bytes(&aux_item.1);
            let ghost pre_txn = txn@;
            txn.put(col, k2, vc);
            proof {
                lemma_apply_ops_push(v0.backing, pre_txn, (col, e.0@.push(AUX_FLAG), e.1@));
                lemma_union_insert_right(
                    base,
                    spec_aux_puts(ami, col),
                    spec_db_key(col, e.0@.push(AUX_FLAG)),
                    e.1@,
                );
            }
            j = j + 1;
        }
        proof {
            assert(auxes@.take(m as int) =~= auxes@);
        }
        let ghost flushed = base.union_prefer_right(spec_aux_puts(v0.aux, col));
        let advance = match self.latest_era {
            None => true,
            Some(e) => now > e,
        };
        if advance {
            let ek = era_key();
            let eb = vstd::bytes::u64_to_le_bytes(now);
            let ghost pre_txn = txn@;
            txn.put(col, ek, eb);
            proof {
                lemma_apply_ops_push(
                    v0.backing,
                    pre_txn,
                    (col, spec_era_key(), vstd::bytes::spec_u64_to_le_bytes(now)),
                );
            }
            self.latest_era = Some(now);
        }
        self.backing.write(&txn);
        proof {
            if !spec_era_newer(v0, now) {
                let ekenc = spec_db_key(col, spec_era_key());
                assert(!spec_content_puts(v0.overlay, col).dom().contains(ekenc)) by {
                    if spec_content_puts(v0.overlay, col).dom().contains(ekenc) {
                        assert(ekenc.skip(spec_col_prefix(col).len() as int) =~= spec_era_key());
                        assert(v0.overlay.dom().contains(spec_era_key()));
                        assert(spec_era_key().len() == 12);
                    }
                }
                assert(!spec_aux_puts(v0.aux, col).dom().contains(ekenc)) by {
                    if spec_aux_puts(v0.aux, col).dom().contains(ekenc) {
                        assert(ekenc.last() == 0u8);
                    }
                }
            }
            assert(self@ =~~= spec_commit(v0, now));
            assert(spec_era_consistent(self@));
        }
        Ok(inserts + deletes)
    }
}


/// Appending one put to a batch applies exactly that put after the rest.
proof fn lemma_apply_ops_push(
    m: Map<Seq<u8>, Seq<u8>>,
    ops: Seq<(Option<u32>, Seq<u8>, Seq<u8>)>,
    op: (Option<u32>, Seq<u8>, Seq<u8>),
)
    ensures
        spec_apply_ops(m, ops.push(op)) == spec_apply_ops(m, ops).insert(
            spec_db_key(op.0, op.1),
            op.2,
        ),
{
    assert(ops.push(op).drop_last() =~= ops);
}

/// Inserting one put into the pending map moves one put into the flushed
/// image of the backing store.
proof fn lemma_union_insert_right(m: Map<Seq<u8>, Seq<u8>>, c: Map<Seq<u8>, Seq<u8>>, k: Seq<u8>, v: Seq<u8>)
    ensures
        m.union_prefer_right(c).insert(k, v) == m.union_prefer_right(c.insert(k, v)),
{
    assert(m.union_prefer_right(c).insert(k, v) =~= m.union_prefer_right(c.insert(k, v)));
}

/// A fresh overlay entry adds its own put to the flushed content image when
/// live, and nothing otherwise.
proof fn lemma_content_puts_insert(
    m: Map<Seq<u8>, (Seq<u8>, int)>,
    col: Option<u32>,
    k: Seq<u8>,
    val: Seq<u8>,
    rc: int,
)
    requires
        !m.dom().contains(k),
    ensures
        rc > 0 ==> spec_content_puts(m.insert(k, (val, rc)), col) == spec_content_puts(
            m,
            col,
        ).insert(spec_db_key(col, k), val),
        rc <= 0 ==> spec_content_puts(m.insert(k, (val, rc)), col) == spec_content_puts(m, col),
{
    let pfx = spec_col_prefix(col);
    let pl = pfx.len() as int;
    let ek = spec_db_key(col, k);
    assert(ek.skip(pl) =~= k);
    assert(spec_starts_with(ek, pfx)) by {
        assert(ek.subrange(0, pl) =~= pfx);
    }
    let m2 = m.insert(k, (val, rc));
    let a = spec_content_puts(m2, col);
    let b = spec_content_puts(m, col);
    assert forall|rk: Seq<u8>|
        #![auto]
        spec_starts_with(rk, pfx) && rk != ek implies rk.skip(pl) != k by {
        if rk.skip(pl) == k {
            crate::bytes::lemma_starts_with_skip(rk, pfx);
        }
    }
    if rc > 0 {
        assert(a =~= b.insert(ek, val));
    } else {
        assert(a =~= b);
    }
}

/// A fresh auxiliary entry adds its own sentinel-suffixed put to the flushed
/// auxiliary image.
proof fn lemma_aux_puts_insert(
    m: Map<Seq<u8>, Seq<u8>>,
    col: Option<u32>,
    k: Seq<u8>,
    val: Seq<u8>,
)
    requires
        !m.dom().contains(k),
    ensures
        spec_aux_puts(m.insert(k, val), col) == spec_aux_puts(m, col).insert(
            spec_db_key(col, k.push(AUX_FLAG)),
            val,
        ),
{
    let pfx = spec_col_prefix(col);
    let pl = pfx.len() as int;
    let ek = spec_db_key(col, k.push(AUX_FLAG));
    assert(ek.skip(pl) =~= k.push(AUX_FLAG));
    assert(ek.skip(pl).drop_last() =~= k);
    assert(ek.last() == AUX_FLAG);
    assert(spec_starts_with(ek, pfx)) by {
        assert(ek.subrange(0, pl) =~= pfx);
    }
    let m2 = m.insert(k, val);
    let a = spec_aux_puts(m2, col);
    let b = spec_aux_puts(m, col);
    assert forall|rk: Seq<u8>|
        #![auto]
        spec_starts_with(rk, pfx) && rk.len() > pl && rk.last() == AUX_FLAG && rk != ek
        implies rk.skip(pl).drop_last() != k by {
        if rk.skip(pl).drop_last() == k {
            crate::bytes::lemma_starts_with_skip(rk, pfx);
            assert(rk.skip(pl) =~= k.push(AUX_FLAG));
            assert(rk =~= ek);
        }
    }
    assert(a =~= b.insert(ek, val));
}

/// A fresh overlay entry raises exactly one of the two commit counters.
proof fn lemma_rc_count_insert(
    m: Map<Seq<u8>, (Seq<u8>, int)>,
    k: Seq<u8>,
    val: Seq<u8>,
    rc: int,
)
    requires
        !m.dom().contains(k),
        m.dom().finite(),
    ensures
        spec_insert_count(m.insert(k, (val, rc))) == spec_insert_count(m) + (
        if rc > 0 {
            1int
        } else {
            0int
        }),
        spec_delete_count(m.insert(k, (val, rc))) == spec_delete_count(m) + (
        if rc < 0 {
            1int
        } else {
            0int
        }),
{
    let m2 = m.insert(k, (val, rc));
    m.dom().lemma_len_filter(|x: Seq<u8>| m[x].1 > 0);
    m.dom().lemma_len_filter(|x: Seq<u8>| m[x].1 < 0);
    let pos_old = m.dom().filter(|x: Seq<u8>| m[x].1 > 0);
    let neg_old = m.dom().filter(|x: Seq<u8>| m[x].1 < 0);
    let pos_new = m2.dom().filter(|x: Seq<u8>| m2[x].1 > 0);
    let neg_new = m2.dom().filter(|x: Seq<u8>| m2[x].1 < 0);
    if rc > 0 {
        assert(pos_new =~= pos_old.insert(k));
        assert(neg_new =~= neg_old);
        vstd::set::axiom_set_insert_len(pos_old, k);
    } else if rc < 0 {
        assert(pos_new =~= pos_old);
        assert(neg_new =~= neg_old.insert(k));
        vstd::set::axiom_set_insert_len(neg_old, k);
    } else {
        assert(pos_new =~= pos_old);
        assert(neg_new =~= neg_old);
    }
}

} // verus!
