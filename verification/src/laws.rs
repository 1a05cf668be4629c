//! The archival store's governing laws, stated over the abstract state and
//! its transitions and proved once and for all: full-history retention, the
//! absence of physical deletion, the insert/get round trip, remove/insert
//! counting, and durability across a close and reopen.

use vstd::prelude::*;

use crate::archivedb::{
    spec_after_get, spec_aux_puts, spec_commit, spec_content_puts, spec_era_consistent,
    spec_era_key, spec_era_newer, spec_hash_keys, spec_insert, spec_open, spec_remove, spec_resolve,
    ArchiveView, AUX_FLAG,
};
use crate::bytes::spec_starts_with;
use crate::database::{spec_col_prefix, spec_db_key};

verus! {

/// One operation against the archival store, as the laws below quantify over
/// operation sequences. An insert covers both hash-derived inserts and
/// emplacement under a caller-supplied hash; a get covers the read-through
/// caching it performs.
pub enum StoreOp {
    /// Insert `value` under the hash `hash`.
    Insert { hash: Seq<u8>, value: Seq<u8> },
    /// Lower the reference count under `hash`.
    Remove { hash: Seq<u8> },
    /// Read the payload under `hash`.
    Get { hash: Seq<u8> },
    /// Store an auxiliary entry.
    InsertAux { key: Seq<u8>, value: Seq<u8> },
    /// Drop a pending auxiliary entry.
    RemoveAux { key: Seq<u8> },
    /// Flush the overlay at logical time `now`.
    Commit { now: u64 },
}

/// The state after one operation.
pub open spec fn spec_apply_store_op(v: ArchiveView, op: StoreOp) -> ArchiveView {
    match op {
        StoreOp::Insert { hash, value } => spec_insert(v, hash, value),
        StoreOp::Remove { hash } => spec_remove(v, hash),
        StoreOp::Get { hash } => spec_after_get(v, hash),
        StoreOp::InsertAux { key, value } => ArchiveView { aux: v.aux.insert(key, value), ..v },
        StoreOp::RemoveAux { key } => ArchiveView { aux: v.aux.remove(key), ..v },
        StoreOp::Commit { now } => spec_commit(v, now),
    }
}

/// The state after a sequence of operations, applied in order.
pub open spec fn spec_run(v: ArchiveView, ops: Seq<StoreOp>) -> ArchiveView
    decreases ops.len(),
{
    if ops.len() == 0 {
        v
    } else {
        spec_apply_store_op(spec_run(v, ops.drop_last()), ops.last())
    }
}

/// The backing store never shrinks: no operation of the archival store, a
/// logical remove included, deletes a committed entry. This is the archival
/// policy's defining property: logical removes never cause physical data
/// loss.
pub proof fn lemma_no_physical_deletion(v: ArchiveView, ops: Seq<StoreOp>, rk: Seq<u8>)
    requires
        v.backing.dom().contains(rk),
    ensures
        spec_run(v, ops).backing.dom().contains(rk),
        spec_run(v, ops).column == v.column,
    decreases ops.len(),
{
    if ops.len() == 0 {
    } else {
        lemma_no_physical_deletion(v, ops.drop_last(), rk);
    }
}

/// One operation that is not a remove of `h` keeps a retrievable `h`
/// retrievable.
proof fn lemma_step_retains(v: ArchiveView, op: StoreOp, h: Seq<u8>)
    requires
        h.len() == 32,
        spec_resolve(v, h) is Some,
        op != (StoreOp::Remove { hash: h }),
    ensures
        spec_resolve(spec_apply_store_op(v, op), h) is Some,
        spec_apply_store_op(v, op).column == v.column,
{
    let ek = spec_db_key(v.column, h);
    match op {
        StoreOp::Insert { hash, value } => {},
        StoreOp::Remove { hash } => {},
        StoreOp::Get { hash } => {},
        StoreOp::InsertAux { key, value } => {},
        StoreOp::RemoveAux { key } => {},
        StoreOp::Commit { now } => {
            if v.overlay.dom().contains(h) && v.overlay[h].1 > 0 {
                assert(spec_content_puts(v.overlay, v.column).dom().contains(ek)) by {
                    assert(spec_starts_with(ek, spec_col_prefix(v.column))) by {
                        assert(ek.subrange(0, spec_col_prefix(v.column).len() as int)
                            =~= spec_col_prefix(v.column));
                    }
                    assert(ek.skip(spec_col_prefix(v.column).len() as int) =~= h);
                }
                assert(spec_commit(v, now).backing.dom().contains(ek));
            } else {
                assert(v.backing.dom().contains(ek));
                assert(spec_commit(v, now).backing.dom().contains(ek));
            }
        },
    }
}

/// Full history: a payload retrievable under a 32-byte hash stays
/// retrievable across every further sequence of operations that never
/// removes that hash. In particular a key inserted and committed in one era
/// is retrievable in every later era.
pub proof fn lemma_full_history(v: ArchiveView, ops: Seq<StoreOp>, h: Seq<u8>)
    requires
        h.len() == 32,
        spec_resolve(v, h) is Some,
        forall|i: int| 0 <= i < ops.len() ==> ops[i] != (StoreOp::Remove { hash: h }),
    ensures
        spec_resolve(spec_run(v, ops), h) is Some,
    decreases ops.len(),
{
    if ops.len() == 0 {
    } else {
        assert(forall|i: int|
            0 <= i < ops.drop_last().len() ==> ops.drop_last()[i] == ops[i]);
        lemma_full_history(v, ops.drop_last(), h);
        assert(ops.last() == ops[ops.len() - 1]);
        lemma_step_retains(spec_run(v, ops.drop_last()), ops.last(), h);
    }
}

/// Round trip: an insert of `val` under hash `h` makes an immediate read of
/// `h` return `val`, provided no pending removal sits at `h` (a negative
/// count makes the read fall through to the backing store) and any live
/// entry already at `h` holds the same payload (as content addressing
/// guarantees for hash-derived inserts).
pub proof fn lemma_insert_get_round_trip(v: ArchiveView, h: Seq<u8>, val: Seq<u8>)
    requires
        v.overlay.dom().contains(h) ==> v.overlay[h].1 == 0 || (v.overlay[h].1 > 0
            && v.overlay[h].0 == val),
    ensures
        spec_resolve(spec_insert(v, h, val), h) == Some(val),
{
}

/// Inserting identical content twice and removing it once leaves one live
/// insert, so the payload is still retrievable after the following commit.
/// The hash must be fresh in the overlay and no pending auxiliary key may
/// flush onto the same backing key.
pub proof fn lemma_double_insert_remove_commit(v: ArchiveView, h: Seq<u8>, val: Seq<u8>, now: u64)
    requires
        h.len() == 32,
        !v.overlay.dom().contains(h),
        forall|k: Seq<u8>| #[trigger] v.aux.dom().contains(k) ==> k.push(AUX_FLAG) != h,
    ensures
        spec_resolve(
            spec_commit(spec_remove(spec_insert(spec_insert(v, h, val), h, val), h), now),
            h,
        ) == Some(val),
{
    let v3 = spec_remove(spec_insert(spec_insert(v, h, val), h, val), h);
    assert(v3.overlay[h] == (val, 1int));
    let col = v.column;
    let pfx = spec_col_prefix(col);
    let ek = spec_db_key(col, h);
    assert(spec_content_puts(v3.overlay, col).dom().contains(ek) && spec_content_puts(
        v3.overlay,
        col,
    )[ek] == val) by {
        assert(spec_starts_with(ek, pfx)) by {
            assert(ek.subrange(0, pfx.len() as int) =~= pfx);
        }
        assert(ek.skip(pfx.len() as int) =~= h);
    }
    assert(!spec_aux_puts(v3.aux, col).dom().contains(ek)) by {
        if spec_aux_puts(v3.aux, col).dom().contains(ek) {
            let k = ek.skip(pfx.len() as int).drop_last();
            assert(v3.aux.dom().contains(k));
            assert(v.aux.dom().contains(k));
            assert(ek.skip(pfx.len() as int) =~= h);
            assert(k.push(AUX_FLAG) =~= h);
        }
    }
    if spec_era_newer(v3, now) {
        assert(spec_db_key(col, spec_era_key()) != ek) by {
            if spec_db_key(col, spec_era_key()) == ek {
                crate::database::lemma_db_key_injective(col, spec_era_key(), col, h);
            }
        }
    }
}

/// A remove immediately after an insert of a fresh hash makes a read fall
/// through to the backing store instead of returning the stale overlay copy.
pub proof fn lemma_insert_remove_falls_through(v: ArchiveView, h: Seq<u8>, val: Seq<u8>)
    requires
        !v.overlay.dom().contains(h),
    ensures
        spec_resolve(spec_remove(spec_insert(v, h, val), h), h) == (
        if v.backing.dom().contains(spec_db_key(v.column, h)) {
            Some(v.backing[spec_db_key(v.column, h)])
        } else {
            None::<Seq<u8>>
        }),
{
}

/// Reopen durability: opening a fresh engine over the backing store a commit
/// leaves behind yields the same era and the same result for every
/// hash-addressed read.
pub proof fn lemma_reopen_durability(v: ArchiveView, now: u64)
    requires
        spec_era_consistent(v),
        spec_hash_keys(v),
    ensures
        spec_open(spec_commit(v, now).backing, v.column).era == spec_commit(v, now).era,
        forall|h: Seq<u8>| #[trigger] spec_resolve(
            spec_open(spec_commit(v, now).backing, v.column),
            h,
        ) == spec_resolve(spec_commit(v, now), h),
{
    vstd::bytes::lemma_auto_spec_u64_to_from_le_bytes();
    let c = spec_commit(v, now);
    let col = v.column;
    let pfx = spec_col_prefix(col);
    let ekenc = spec_db_key(col, spec_era_key());
    if spec_era_newer(v, now) {
        assert(c.backing[ekenc] == vstd::bytes::spec_u64_to_le_bytes(now));
        assert(vstd::bytes::spec_u64_from_le_bytes(vstd::bytes::spec_u64_to_le_bytes(now)) == now);
    } else {
        assert(!spec_content_puts(v.overlay, col).dom().contains(ekenc)) by {
            if spec_content_puts(v.overlay, col).dom().contains(ekenc) {
                assert(ekenc.skip(pfx.len() as int) =~= spec_era_key());
                assert(v.overlay.dom().contains(spec_era_key()));
                assert(spec_era_key().len() == 12);
            }
        }
        assert(!spec_aux_puts(v.aux, col).dom().contains(ekenc)) by {
            if spec_aux_puts(v.aux, col).dom().contains(ekenc) {
                assert(ekenc.last() == 0u8);
            }
        }
        match v.era {
            None => {
                assert(!c.backing.dom().contains(ekenc));
            },
            Some(e) => {
                assert(c.backing[ekenc] == vstd::bytes::spec_u64_to_le_bytes(e));
                assert(vstd::bytes::spec_u64_from_le_bytes(vstd::bytes::spec_u64_to_le_bytes(e))
                    == e);
            },
        }
    }
}

/// The era marker never moves backwards: commits with an older logical time
/// leave it where it stands, so the persisted era is always the maximum time
/// ever committed.
pub proof fn lemma_era_monotone(v: ArchiveView, ops: Seq<StoreOp>, e: u64)
    requires
        v.era == Some(e),
    ensures
        spec_run(v, ops).era matches Some(e2) && e2 >= e,
    decreases ops.len(),
{
    if ops.len() == 0 {
    } else {
        lemma_era_monotone(v, ops.drop_last(), e);
    }
}

} // verus!
