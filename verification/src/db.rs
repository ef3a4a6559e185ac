//! The table registry and the store handles built on it. A store
//! multiplexes named tables onto one keyspace: the registry persists the
//! name/id mapping in two reserved tables, allocates ids monotonically
//! from a floor of 1024, and destroys, truncates or renames whole
//! tables atomically. A plain store and a TTL store share the registry;
//! they differ in how table writes frame their values.

use vstd::prelude::*;
use vstd::string::StringSliceAdditionalSpecFns;

use crate::codec::{
    build_head_anchor, build_id_to_name_table_inner_key, build_info_table_inner_key,
    build_name_to_id_table_inner_key, build_tail_anchor, spec_be_to_u32, spec_head_anchor,
    spec_inner_key, spec_tail_anchor, spec_u32_to_be, u32_to_u8a4, u8s_to_u32, u8s_to_u8a4,
};
use crate::consts::{
    ID_TO_NAME_TABLE_ID, INFO_TABLE_ID, MAX_USERLAND_TABLE_ID, MIN_USERLAND_TABLE_ID,
    NAME_TO_ID_TABLE_ID, PLACEHOLDER_ITEM_ID, TTL_ITEM_ID,
};
use crate::cursor::{in_table, section_of, table_section};
use crate::entries::{entries_view, in_range, kget};
use crate::error::Error;
use crate::options::Options;
use crate::store::{
    is_delete, is_delete_range, is_put, lemma_lookup_after2, lemma_lookup_after3,
    lemma_lookup_after4, lookup_after, Store,
};
use crate::table::{NormalTable, TtlTable};
use crate::types::{ItemId, TableId};
use crate::write_op::{DeleteOp, DeleteRangeOp, PutOp, WriteOp, WriteOpBatch};

verus! {

/// The inner key under which `name` maps to its table id.
pub open spec fn name_to_id_key(nb: Seq<u8>) -> Seq<u8> {
    spec_inner_key(spec_u32_to_be(NAME_TO_ID_TABLE_ID), nb)
}

/// The inner key under which a table id maps back to its name.
pub open spec fn id_to_name_key(idb: Seq<u8>) -> Seq<u8> {
    spec_inner_key(spec_u32_to_be(ID_TO_NAME_TABLE_ID), idb)
}

/// The inner key of an info-table item.
pub open spec fn info_item_key(item: Seq<u8>) -> Seq<u8> {
    spec_inner_key(spec_u32_to_be(INFO_TABLE_ID), item)
}

/// The id registered under `name`, as its four big-endian bytes.
pub open spec fn spec_registered_id(m: Seq<(Seq<u8>, Seq<u8>)>, nb: Seq<u8>) -> Option<Seq<u8>> {
    match kget(m, name_to_id_key(nb)) {
        Some(v) => if v.len() >= 4 {
            Some(v.subrange(0, 4))
        } else {
            None
        },
        None => None,
    }
}

/// The name registered under a table id.
pub open spec fn spec_registered_name(m: Seq<(Seq<u8>, Seq<u8>)>, idb: Seq<u8>) -> Option<Seq<u8>> {
    kget(m, id_to_name_key(idb))
}

/// What registering `name` under id bytes `idb` leaves behind: both
/// registration records written atomically, everything else untouched,
/// one two-operation batch logged.
pub open spec fn registration_applied(pre: Store, post: Store, nb: Seq<u8>, idb: Seq<u8>) -> bool {
    &&& kget(post.contents(), name_to_id_key(nb)) == Some(idb)
    &&& kget(post.contents(), id_to_name_key(idb)) == Some(nb)
    &&& forall|q: Seq<u8>|
        q != name_to_id_key(nb) && q != id_to_name_key(idb) ==> kget(post.contents(), q) == kget(
            pre.contents(),
            q,
        )
    &&& post.next_sn == pre.next_sn + 2
    &&& post.log().len() == pre.log().len() + 1
    &&& post.log().last().sn == pre.next_sn
    &&& post.log().last().write_ops@.len() == 2
    &&& is_put(post.log().last().write_ops@[0], name_to_id_key(nb), idb)
    &&& is_put(post.log().last().write_ops@[1], id_to_name_key(idb), nb)
}

/// What destroying the table registered as `name` under id bytes `idb`
/// leaves behind: both registration records gone, the table's whole key
/// range gone, everything else untouched, one three-operation batch
/// logged.
pub open spec fn destruction_applied(pre: Store, post: Store, nb: Seq<u8>, idb: Seq<u8>) -> bool {
    &&& kget(post.contents(), name_to_id_key(nb)) == None::<Seq<u8>>
    &&& kget(post.contents(), id_to_name_key(idb)) == None::<Seq<u8>>
    &&& forall|q: Seq<u8>| in_range(q, spec_head_anchor(idb), spec_tail_anchor(idb)) ==> kget(
        post.contents(),
        q,
    ) == None::<Seq<u8>>
    &&& forall|q: Seq<u8>|
        q != name_to_id_key(nb) && q != id_to_name_key(idb) && !in_range(
            q,
            spec_head_anchor(idb),
            spec_tail_anchor(idb),
        ) ==> kget(post.contents(), q) == kget(pre.contents(), q)
    &&& post.next_sn == pre.next_sn + 3
    &&& post.log().len() == pre.log().len() + 1
}

/// What renaming the table registered as `old_name` under id bytes
/// `idb` to `new_name` leaves behind: the old name no longer resolves,
/// the new name resolves to the same id, the id maps back to the new
/// name, the data untouched, one four-operation batch logged.
pub open spec fn rename_applied(
    pre: Store,
    post: Store,
    old_nb: Seq<u8>,
    new_nb: Seq<u8>,
    idb: Seq<u8>,
) -> bool {
    &&& kget(post.contents(), name_to_id_key(new_nb)) == Some(idb)
    &&& kget(post.contents(), id_to_name_key(idb)) == Some(new_nb)
    &&& old_nb != new_nb ==> kget(post.contents(), name_to_id_key(old_nb)) == None::<Seq<u8>>
    &&& forall|q: Seq<u8>|
        q != name_to_id_key(old_nb) && q != name_to_id_key(new_nb) && q != id_to_name_key(idb)
            ==> kget(post.contents(), q) == kget(pre.contents(), q)
    &&& post.next_sn == pre.next_sn + 4
    &&& post.log().len() == pre.log().len() + 1
}

/// Relies on `String::from_utf8`: succeeds exactly on valid UTF-8, and
/// gives back the string whose UTF-8 encoding is the given bytes.
#[verifier::external_body]
fn bytes_to_string(v: Vec<u8>) -> (r: Option<String>)
    ensures
        r matches Some(s) ==> vstd::utf8::encode_utf8(s@) == v@,
        vstd::utf8::valid_utf8(v@) ==> r is Some,
{
    match String::from_utf8(v) {
        Ok(s) => Some(s),
        Err(_) => None,
    }
}

/// The two big-endian bytes of an info-table item id.
fn item_id_bytes(x: u16) -> (r: ItemId)
    ensures
        r@ == seq![((x >> 8) & 0xff) as u8, (x & 0xff) as u8],
{
    let r: ItemId = [(x >> 8) as u8, x as u8];
    proof {
        assert(((x >> 8) & 0xff) as u8 == (x >> 8) as u8) by (bit_vector);
        assert((x & 0xff) as u8 == x as u8) by (bit_vector);
        assert(r@ =~= seq![((x >> 8) & 0xff) as u8, (x & 0xff) as u8]);
    }
    r
}

/// Looks up the table id registered under `name`.
fn lookup_table_id(store: &Store, name: &str) -> (r: Option<TableId>)
    requires
        store.wf(),
    ensures
        match r {
            Some(id) => spec_registered_id(store.contents(), name.spec_bytes()) == Some(id@),
            None => spec_registered_id(store.contents(), name.spec_bytes()) == None::<Seq<u8>>,
        },
{
    let key = build_name_to_id_table_inner_key(name);
    match store.get(key.as_slice()) {
        Some(v) => {
            if v.len() >= 4 {
                Some(u8s_to_u8a4(v.as_slice()))
            } else {
                None
            }
        },
        None => None,
    }
}

/// Writes the placeholder info record if it is absent, so the engine's
/// log replay never starts on an empty log.
fn try_put_placeholder(store: &mut Store)
    requires
        old(store).wf(),
        old(store).next_sn < u64::MAX,
    ensures
        final(store).wf(),
        kget(final(store).contents(), info_item_key(seq![0u8, 0u8])) is Some,
        forall|q: Seq<u8>| q != info_item_key(seq![0u8, 0u8]) ==> kget(
            final(store).contents(),
            q,
        ) == kget(old(store).contents(), q),
        kget(old(store).contents(), info_item_key(seq![0u8, 0u8])) is Some ==> *final(store)
            == *old(store),
        kget(old(store).contents(), info_item_key(seq![0u8, 0u8])) is None ==> final(store).next_sn
            == old(store).next_sn + 1 && final(store).log().len() == old(store).log().len() + 1,
{
    let item = item_id_bytes(PLACEHOLDER_ITEM_ID);
    let key = build_info_table_inner_key(item);
    proof {
        assert(((0u16 >> 8) & 0xff) as u8 == 0u8) by (bit_vector);
        assert((0u16 & 0xff) as u8 == 0u8) by (bit_vector);
        assert(item@ =~= seq![0u8, 0u8]);
    }
    match store.get(key.as_slice()) {
        Some(_) => {},
        None => {
            let mut value: Vec<u8> = Vec::new();
            value.push(0);
            value.push(0);
            store.put(key, value);
        },
    }
}

/// Checks the persisted TTL-mode flag against the wanted mode, writing
/// it first if the store never had one: a store created in one mode may
/// never be opened in the other.
pub fn ensure_ttl_enabled_consistent(store: &mut Store, wanted: bool) -> (r: Result<(), Error>)
    requires
        old(store).wf(),
        old(store).next_sn < u64::MAX,
    ensures
        final(store).wf(),
        match kget(old(store).contents(), info_item_key(seq![0u8, 1u8])) {
            Some(v) => *final(store) == *old(store) && r == (if (v =~= seq![1u8]) == wanted {
                Ok::<(), Error>(())
            } else {
                Err(Error::InconsistentTtlEnabled { current: (v =~= seq![1u8]), wanted })
            }),
            None => r is Ok && kget(final(store).contents(), info_item_key(seq![0u8, 1u8]))
                == Some(if wanted {
                    seq![1u8]
                } else {
                    seq![0u8]
                }) && (forall|q: Seq<u8>| q != info_item_key(seq![0u8, 1u8]) ==> kget(
                final(store).contents(),
                q,
            ) == kget(old(store).contents(), q)) && final(store).next_sn == old(store).next_sn + 1,
        },
{
    let item = item_id_bytes(TTL_ITEM_ID);
    let key = build_info_table_inner_key(item);
    proof {
        assert(((1u16 >> 8) & 0xff) as u8 == 0u8) by (bit_vector);
        assert((1u16 & 0xff) as u8 == 1u8) by (bit_vector);
        assert(item@ =~= seq![0u8, 1u8]);
    }
    match store.get(key.as_slice()) {
        Some(v) => {
            let current = v.len() == 1 && *vstd::slice::slice_index_get(v.as_slice(), 0) == 1;
            proof {
                if current {
                    assert(v@ =~= seq![1u8]);
                } else {
                    assert(!(v@ =~= seq![1u8]));
                }
            }
            if current == wanted {
                Ok(())
            } else {
                Err(Error::InconsistentTtlEnabled { current, wanted })
            }
        },
        None => {
            let mut value: Vec<u8> = Vec::new();
            if wanted {
                value.push(1);
            } else {
                value.push(0);
            }
            proof {
                if wanted {
                    assert(value@ =~= seq![1u8]);
                } else {
                    assert(value@ =~= seq![0u8]);
                }
            }
            store.put(key, value);
            Ok(())
        },
    }
}

/// The highest registered table id, or the userland floor minus one if
/// no table was ever registered: the seed of the id allocator.
fn get_last_table_id(store: &Store) -> (r: u32)
    requires
        store.wf(),
    ensures
        r >= MIN_USERLAND_TABLE_ID - 1,
        forall|j: int| #![trigger store.contents()[j]]
            0 <= j < store.contents().len() && in_table(
                spec_u32_to_be(ID_TO_NAME_TABLE_ID),
                store.contents()[j].0,
            ) && store.contents()[j].0.len() == 9 ==> spec_be_to_u32(
                store.contents()[j].0.subrange(5, 9),
            ) <= r,
        r > MIN_USERLAND_TABLE_ID - 1 ==> exists|j: int|
            #![trigger store.contents()[j]]
            0 <= j < store.contents().len() && in_table(
                spec_u32_to_be(ID_TO_NAME_TABLE_ID),
                store.contents()[j].0,
            ) && store.contents()[j].0.len() == 9 && spec_be_to_u32(
                store.contents()[j].0.subrange(5, 9),
            ) == r,
        (forall|j: int| #![trigger store.contents()[j]]
            0 <= j < store.contents().len() ==> !in_table(
                spec_u32_to_be(ID_TO_NAME_TABLE_ID),
                store.contents()[j].0,
            )) ==> r == MIN_USERLAND_TABLE_ID - 1,
{
    let id = u32_to_u8a4(ID_TO_NAME_TABLE_ID);
    let section = table_section(store, id);
    let ghost m = store.contents();
    let ghost items = entries_view(section@);
    let mut r: u32 = MIN_USERLAND_TABLE_ID - 1;
    let mut i: usize = 0;
    while i < section.len()
        invariant
            0 <= i <= section@.len(),
            items == entries_view(section@),
            section_of(m, spec_u32_to_be(ID_TO_NAME_TABLE_ID), items),
            r >= MIN_USERLAND_TABLE_ID - 1,
            forall|x: int| #![trigger items[x]]
                0 <= x < i && items[x].0.len() == 4 ==> spec_be_to_u32(items[x].0) <= r,
            r > MIN_USERLAND_TABLE_ID - 1 ==> exists|x: int|
                #![trigger items[x]]
                0 <= x < i && items[x].0.len() == 4 && spec_be_to_u32(items[x].0) == r,
        decreases section@.len() - i,
    {
        let ghost r0 = r;
        if section[i].0.len() == 4 {
            let cand = u8s_to_u32(section[i].0.as_slice());
            proof {
                assert(items[i as int].0.subrange(0, 4) =~= items[i as int].0);
            }
            if cand > r {
                r = cand;
            }
        }
        proof {
            if r > MIN_USERLAND_TABLE_ID - 1 {
                if r == r0 {
                    let x = choose|x: int|
                        #![trigger items[x]]
                        0 <= x < i && items[x].0.len() == 4 && spec_be_to_u32(items[x].0) == r0;
                    assert(0 <= x < i + 1 && items[x].0.len() == 4 && spec_be_to_u32(items[x].0)
                        == r);
                } else {
                    assert(items[i as int].0.len() == 4 && spec_be_to_u32(items[i as int].0) == r);
                }
            }
        }
        i = i + 1;
    }
    proof {
        let tid = spec_u32_to_be(ID_TO_NAME_TABLE_ID);
        assert forall|j: int| #![trigger m[j]]
            0 <= j < m.len() && in_table(tid, m[j].0) && m[j].0.len() == 9 implies spec_be_to_u32(
            m[j].0.subrange(5, 9),
        ) <= r by {
            let x = choose|x: int|
                #![trigger items[x]]
                0 <= x < items.len() && items[x].0 == m[j].0.subrange(5, m[j].0.len() as int);
            assert(m[j].0.subrange(5, m[j].0.len() as int) =~= m[j].0.subrange(5, 9));
            assert(items[x].0.len() == 4);
        }
        if r > MIN_USERLAND_TABLE_ID - 1 {
            let x = choose|x: int|
                #![trigger items[x]]
                0 <= x < items.len() && items[x].0.len() == 4 && spec_be_to_u32(items[x].0) == r;
            assert(kget(m, spec_inner_key(tid, items[x].0)) == Some(items[x].1));
            assert(crate::entries::has_key(m, spec_inner_key(tid, items[x].0)));
            let j = choose|j: int| 0 <= j < m.len() && m[j].0 == spec_inner_key(tid, items[x].0);
            assert(m[j].0.subrange(0, 4) =~= tid);
            assert(in_table(tid, m[j].0));
            assert(m[j].0.len() == 9);
            assert(m[j].0.subrange(5, 9) =~= items[x].0);
        }
    }
    r
}

/// Allocates the next table id: one step of the monotonic counter.
/// Fails, leaving the counter unmoved, when the next id would reach the
/// reserved ceiling.
fn generate_next_table_id(last_table_id: &mut u32) -> (r: Result<TableId, Error>)
    requires
        *old(last_table_id) <= MAX_USERLAND_TABLE_ID,
    ensures
        match r {
            Ok(id) => *old(last_table_id) + 1 < MAX_USERLAND_TABLE_ID && *final(last_table_id)
                == *old(last_table_id) + 1 && id@ == spec_u32_to_be(*final(last_table_id)),
            Err(e) => *old(last_table_id) + 1 >= MAX_USERLAND_TABLE_ID && *final(last_table_id)
                == *old(last_table_id) && e == (Error::ExceededLimitError {
                current: (*old(last_table_id) + 1) as u32,
                max: MAX_USERLAND_TABLE_ID,
            }),
        },
{
    let current = *last_table_id + 1;
    if current >= MAX_USERLAND_TABLE_ID {
        Err(Error::ExceededLimitError { current, max: MAX_USERLAND_TABLE_ID })
    } else {
        *last_table_id = current;
        Ok(u32_to_u8a4(current))
    }
}

/// Registers `name` under `id`: both records in one atomic batch.
fn register_table(store: &mut Store, name: &str, id: TableId) -> (r: Result<(), Error>)
    requires
        old(store).wf(),
        old(store).next_sn + 2 <= u64::MAX,
    ensures
        final(store).wf(),
        r is Ok,
        registration_applied(*old(store), *final(store), name.spec_bytes(), id@),
{
    let nk = build_name_to_id_table_inner_key(name);
    let ik = build_id_to_name_table_inner_key(id);
    let ghost nkv = nk@;
    let ghost ikv = ik@;
    let mut ops: Vec<WriteOp> = Vec::new();
    let idv: Vec<u8> = vstd::slice::slice_to_vec(id.as_slice());
    ops.push(WriteOp::PutOp(PutOp { inner_key: nk, inner_value: idv }));
    let namev: Vec<u8> = vstd::slice::slice_to_vec(name.as_bytes());
    ops.push(WriteOp::PutOp(PutOp { inner_key: ik, inner_value: namev }));
    let ghost opsv = ops@;
    store.write(ops);
    proof {
        lemma_lookup_after2(opsv);
        assert(kget(store.contents(), nkv) == lookup_after(old(store).contents(), opsv, nkv));
        assert(kget(store.contents(), ikv) == lookup_after(old(store).contents(), opsv, ikv));
        assert(nkv[3] == spec_u32_to_be(NAME_TO_ID_TABLE_ID)[3]);
        assert(ikv[3] == spec_u32_to_be(ID_TO_NAME_TABLE_ID)[3]);
        assert((1u32 & 0xff) as u8 == 1u8) by (bit_vector);
        assert((2u32 & 0xff) as u8 == 2u8) by (bit_vector);
        assert(nkv != ikv);
    }
    Ok(())
}

/// Destroys the table registered under `name`: both registration
/// records and the table's whole key range go in one atomic batch. A
/// name that resolves to nothing leaves the store untouched.
fn do_destroy_table(store: &mut Store, name: &str) -> (r: Result<(), Error>)
    requires
        old(store).wf(),
        old(store).next_sn + 3 <= u64::MAX,
    ensures
        final(store).wf(),
        r is Ok,
        match spec_registered_id(old(store).contents(), name.spec_bytes()) {
            Some(idb) => destruction_applied(*old(store), *final(store), name.spec_bytes(), idb),
            None => *final(store) == *old(store),
        },
{
    match lookup_table_id(store, name) {
        Some(id) => {
            let nk = build_name_to_id_table_inner_key(name);
            let ik = build_id_to_name_table_inner_key(id);
            let head = build_head_anchor(id);
            let tail = build_tail_anchor(id);
            let mut ops: Vec<WriteOp> = Vec::new();
            ops.push(WriteOp::DeleteOp(DeleteOp { inner_key: nk }));
            ops.push(WriteOp::DeleteOp(DeleteOp { inner_key: ik }));
            ops.push(
                WriteOp::DeleteRangeOp(
                    DeleteRangeOp { begin_inner_key: head, end_inner_key: tail },
                ),
            );
            let ghost opsv = ops@;
            store.write(ops);
            proof {
                lemma_lookup_after3(opsv);
            }
            Ok(())
        },
        None => {
            let ops: Vec<WriteOp> = Vec::new();
            store.write(ops);
            Ok(())
        },
    }
}

/// Empties the table registered under `name`: its whole key range goes
/// in one atomic batch, the registration stays. A name that resolves to
/// nothing leaves the store untouched.
fn do_truncate_table(store: &mut Store, name: &str) -> (r: Result<(), Error>)
    requires
        old(store).wf(),
        old(store).next_sn + 1 <= u64::MAX,
    ensures
        final(store).wf(),
        r is Ok,
        match spec_registered_id(old(store).contents(), name.spec_bytes()) {
            Some(idb) => {
                &&& forall|q: Seq<u8>| in_range(q, spec_head_anchor(idb), spec_tail_anchor(idb))
                    ==> kget(final(store).contents(), q) == None::<Seq<u8>>
                &&& forall|q: Seq<u8>|
                    !in_range(q, spec_head_anchor(idb), spec_tail_anchor(idb)) ==> kget(
                        final(store).contents(),
                        q,
                    ) == kget(old(store).contents(), q)
                &&& final(store).next_sn == old(store).next_sn + 1
            },
            None => *final(store) == *old(store),
        },
{
    match lookup_table_id(store, name) {
        Some(id) => {
            let head = build_head_anchor(id);
            let tail = build_tail_anchor(id);
            store.delete_range(head, tail);
            Ok(())
        },
        None => {
            let ops: Vec<WriteOp> = Vec::new();
            store.write(ops);
            Ok(())
        },
    }
}

/// Renames the table registered under `old_name` to `new_name`: the old
/// registration goes and the new one comes, to the same id, in one
/// atomic batch; the table's data is untouched, being addressed by id.
/// A name that resolves to nothing leaves the store untouched.
fn do_rename_table(store: &mut Store, old_name: &str, new_name: &str) -> (r: Result<(), Error>)
    requires
        old(store).wf(),
        old(store).next_sn + 4 <= u64::MAX,
    ensures
        final(store).wf(),
        r is Ok,
        match spec_registered_id(old(store).contents(), old_name.spec_bytes()) {
            Some(idb) => rename_applied(
                *old(store),
                *final(store),
                old_name.spec_bytes(),
                new_name.spec_bytes(),
                idb,
            ),
            None => *final(store) == *old(store),
        },
{
    match lookup_table_id(store, old_name) {
        Some(id) => {
            let old_nk = build_name_to_id_table_inner_key(old_name);
            let new_nk = build_name_to_id_table_inner_key(new_name);
            let ik = build_id_to_name_table_inner_key(id);
            let ghost old_nkv = old_nk@;
            let ghost new_nkv = new_nk@;
            let ghost ikv = ik@;
            let mut ops: Vec<WriteOp> = Vec::new();
            ops.push(WriteOp::DeleteOp(DeleteOp { inner_key: old_nk }));
            ops.push(WriteOp::DeleteOp(DeleteOp { inner_key: ik }));
            let idv: Vec<u8> = vstd::slice::slice_to_vec(id.as_slice());
            ops.push(WriteOp::PutOp(PutOp { inner_key: new_nk, inner_value: idv }));
            let ik2 = build_id_to_name_table_inner_key(id);
            let namev: Vec<u8> = vstd::slice::slice_to_vec(new_name.as_bytes());
            ops.push(WriteOp::PutOp(PutOp { inner_key: ik2, inner_value: namev }));
            let ghost opsv = ops@;
            store.write(ops);
            proof {
                lemma_lookup_after4(opsv);
                assert(new_nkv[3] == spec_u32_to_be(NAME_TO_ID_TABLE_ID)[3]);
                assert(ikv[3] == spec_u32_to_be(ID_TO_NAME_TABLE_ID)[3]);
                assert((1u32 & 0xff) as u8 == 1u8) by (bit_vector);
                assert((2u32 & 0xff) as u8 == 2u8) by (bit_vector);
                assert(new_nkv != ikv);
                if old_name.spec_bytes() != new_name.spec_bytes() {
                    assert(old_nkv.subrange(5, old_nkv.len() as int) =~= old_name.spec_bytes());
                    assert(new_nkv.subrange(5, new_nkv.len() as int) =~= new_name.spec_bytes());
                    assert(old_nkv != new_nkv);
                    assert(old_nkv[3] == spec_u32_to_be(NAME_TO_ID_TABLE_ID)[3]);
                    assert(old_nkv != ikv);
                }
            }
            Ok(())
        },
        None => {
            let ops: Vec<WriteOp> = Vec::new();
            store.write(ops);
            Ok(())
        },
    }
}



/// The registered tables of a store, as (name, id) pairs in ascending
/// id order, read from the id-to-name table: complete, without
/// duplicates, each name the text whose UTF-8 encoding is the stored
/// name bytes.
fn get_table_infos_in(store: &Store) -> (r: Vec<(String, u32)>)
    requires
        store.wf(),
    ensures
        forall|i: int| #![trigger r@[i]]
            0 <= i < r@.len() ==> spec_registered_name(store.contents(), spec_u32_to_be(r@[i].1))
                == Some(vstd::utf8::encode_utf8(r@[i].0@)),
        forall|i: int, j: int| 0 <= i < j < r@.len() ==> r@[i].1 < r@[j].1,
        forall|j: int| #![trigger store.contents()[j]]
            0 <= j < store.contents().len() && in_table(
                spec_u32_to_be(ID_TO_NAME_TABLE_ID),
                store.contents()[j].0,
            ) && store.contents()[j].0.len() == 9 && vstd::utf8::valid_utf8(
                store.contents()[j].1,
            ) ==> exists|i: int|
                #![trigger r@[i]]
                0 <= i < r@.len() && spec_u32_to_be(r@[i].1) == store.contents()[j].0.subrange(
                    5,
                    9,
                ),
{
    let id = u32_to_u8a4(ID_TO_NAME_TABLE_ID);
    let section = table_section(store, id);
    let ghost items = entries_view(section@);
    let ghost m = store.contents();
    let mut r: Vec<(String, u32)> = Vec::new();
    let ghost mut src: Seq<int> = Seq::empty();
    let mut i: usize = 0;
    while i < section.len()
        invariant
            0 <= i <= section@.len(),
            items == entries_view(section@),
            section_of(m, spec_u32_to_be(ID_TO_NAME_TABLE_ID), items),
            src.len() == r@.len(),
            forall|x: int| #![trigger src[x]]
                0 <= x < src.len() ==> 0 <= src[x] < i && items[src[x]].0.len() == 4
                    && r@[x].1 == crate::codec::spec_be_to_u32(items[src[x]].0)
                    && vstd::utf8::encode_utf8(r@[x].0@) == items[src[x]].1,
            forall|x: int, y: int| 0 <= x < y < src.len() ==> src[x] < src[y],
            forall|s: int| #![trigger items[s]]
                0 <= s < i && items[s].0.len() == 4 && vstd::utf8::valid_utf8(items[s].1)
                    ==> exists|x: int| #![trigger src[x]] 0 <= x < src.len() && src[x] == s,
        decreases section@.len() - i,
    {
        let ghost src0 = src;
        let key_ok = section[i].0.len() == 4;
        if key_ok {
            let tid = u8s_to_u32(section[i].0.as_slice());
            match bytes_to_string(section[i].1.clone()) {
                Some(name) => {
                    proof {
                        src = src.push(i as int);
                        assert(items[i as int].0.subrange(0, 4) =~= items[i as int].0);
                    }
                    r.push((name, tid));
                },
                None => {
                    proof {
                        assert(!vstd::utf8::valid_utf8(items[i as int].1));
                    }
                },
            }
        }
        proof {
            assert forall|s: int| #![trigger items[s]]
                0 <= s < i + 1 && items[s].0.len() == 4 && vstd::utf8::valid_utf8(items[s].1)
                implies exists|x: int| #![trigger src[x]] 0 <= x < src.len() && src[x] == s by {
                if s < i {
                    let x = choose|x: int| #![trigger src0[x]] 0 <= x < src0.len() && src0[x] == s;
                    assert(0 <= x < src.len() && src[x] == s);
                } else {
                    assert(src[src.len() - 1] == s);
                }
            }
        }
        i = i + 1;
    }
    proof {
        let tid = spec_u32_to_be(ID_TO_NAME_TABLE_ID);
        assert forall|x: int| #![trigger r@[x]] 0 <= x < r@.len() implies spec_registered_name(
            m,
            spec_u32_to_be(r@[x].1),
        ) == Some(vstd::utf8::encode_utf8(r@[x].0@)) by {
            let sx = src[x];
            crate::codec::lemma_be_bytes_roundtrip(items[sx].0);
            assert(kget(m, spec_inner_key(tid, items[sx].0)) == Some(items[sx].1));
        }
        assert forall|x: int, y: int| 0 <= x < y < r@.len() implies r@[x].1 < r@[y].1 by {
            let sx = src[x];
            let sy = src[y];
            assert(crate::codec::lex_less(items[sx].0, items[sy].0));
            crate::codec::lemma_be_order_inverse(items[sx].0, items[sy].0);
        }
        assert forall|j: int| #![trigger m[j]]
            0 <= j < m.len() && in_table(tid, m[j].0) && m[j].0.len() == 9
                && vstd::utf8::valid_utf8(m[j].1) implies exists|i2: int|
            #![trigger r@[i2]]
            0 <= i2 < r@.len() && spec_u32_to_be(r@[i2].1) == m[j].0.subrange(5, 9) by {
            let s = choose|s: int|
                #![trigger items[s]]
                0 <= s < items.len() && items[s].0 == m[j].0.subrange(5, m[j].0.len() as int);
            assert(m[j].0.subrange(5, m[j].0.len() as int) =~= m[j].0.subrange(5, 9));
            assert(items[s].0.len() == 4);
            assert(spec_inner_key(tid, items[s].0) =~= m[j].0);
            crate::entries::lemma_kget_present(m, j);
            assert(kget(m, spec_inner_key(tid, items[s].0)) == Some(items[s].1));
            assert(items[s].1 == m[j].1);
            let x = choose|x: int| #![trigger src[x]] 0 <= x < src.len() && src[x] == s;
            crate::codec::lemma_be_bytes_roundtrip(items[s].0);
            assert(0 <= x < r@.len() && spec_u32_to_be(r@[x].1) == m[j].0.subrange(5, 9));
        }
    }
    r
}

/// Re-applies captured batches onto a store, one atomic batch each, in
/// order; the store assigns its own new sequence numbers.
fn replay_in(store: &mut Store, batches: Vec<WriteOpBatch>) -> (r: Result<u64, Error>)
    requires
        old(store).wf(),
        crate::store::batches_total_ops(batches@) <= u64::MAX - old(store).next_sn,
    ensures
        final(store).wf(),
        r matches Ok(sn) ==> ({
            &&& sn == if batches@.len() == 0 {
                0u64
            } else {
                batches@.last().sn
            }
            &&& forall|q: Seq<u8>| kget(final(store).contents(), q)
                == crate::store::batches_lookup(kget(old(store).contents(), q), batches@, q)
        }),
        r is Ok,
        final(store).log().len() == old(store).log().len() + crate::store::count_nonempty(
            batches@,
        ),
        forall|i: int|
            0 <= i < old(store).log().len() ==> final(store).log()[i] == old(store).log()[i],
{
    let ghost pre = store.contents();
    let ghost pre_sn = store.next_sn;
    let ghost pre_wal = store.wal@;
    let mut sn: u64 = 0;
    let mut i: usize = 0;
    while i < batches.len()
        invariant
            0 <= i <= batches@.len(),
            store.wf(),
            sn == if i == 0 {
                0u64
            } else {
                batches@[i - 1].sn
            },
            store.next_sn - pre_sn <= crate::store::batches_total_ops(
                batches@.subrange(0, i as int),
            ),
            crate::store::batches_total_ops(batches@) <= u64::MAX - pre_sn,
            forall|q: Seq<u8>| kget(store.contents(), q) == crate::store::batches_lookup(
                kget(pre, q),
                batches@.subrange(0, i as int),
                q,
            ),
            store.wal@.len() == pre_wal.len() + crate::store::count_nonempty(
                batches@.subrange(0, i as int),
            ),
            forall|x: int| 0 <= x < pre_wal.len() ==> store.wal@[x] == pre_wal[x],
        decreases batches@.len() - i,
    {
        let ghost cur = store.contents();
        let b = &batches[i];
        let ops = crate::write_op::batch_to_ops(b);
        sn = b.sn;
        proof {
            crate::write_op::lemma_opt_ops_len(b.write_ops@);
            lemma_batches_total_ops_mono(batches@, i as int);
            assert(batches@.subrange(0, i + 1).drop_last() =~= batches@.subrange(0, i as int));
            assert(batches@.subrange(0, i + 1).last() == batches@[i as int]);
        }
        let ghost opsv = ops@;
        store.write(ops);
        proof {
            assert forall|q: Seq<u8>| kget(store.contents(), q)
                == crate::store::batches_lookup(kget(pre, q), batches@.subrange(0, i + 1), q) by {
                crate::store::lemma_lookup_after_is_ops_lookup(cur, opsv, q);
                crate::store::lemma_ops_lookup_congruence(
                    kget(cur, q),
                    opsv,
                    crate::write_op::opt_ops(batches@[i as int].write_ops@),
                    q,
                );
            }
        }
        i = i + 1;
    }
    proof {
        assert(batches@.subrange(0, batches@.len() as int) =~= batches@);
    }
    Ok(sn)
}

/// The running operation total over a prefix never exceeds the total
/// over the whole list.
proof fn lemma_batches_total_ops_mono(bs: Seq<WriteOpBatch>, i: int)
    requires
        0 <= i < bs.len(),
    ensures
        crate::store::batches_total_ops(bs.subrange(0, i)) + bs[i].write_ops@.len()
            == crate::store::batches_total_ops(bs.subrange(0, i + 1)),
        crate::store::batches_total_ops(bs.subrange(0, i + 1)) <= crate::store::batches_total_ops(
            bs,
        ),
    decreases bs.len(),
{
    assert(bs.subrange(0, i + 1).drop_last() =~= bs.subrange(0, i));
    assert(bs.subrange(0, i + 1).last() == bs[i]);
    if i + 1 < bs.len() {
        lemma_batches_total_ops_suffix(bs, i + 1);
    } else {
        assert(bs.subrange(0, i + 1) =~= bs);
    }
}

/// Extending a prefix never shrinks the operation total.
proof fn lemma_batches_total_ops_suffix(bs: Seq<WriteOpBatch>, i: int)
    requires
        0 <= i <= bs.len(),
    ensures
        crate::store::batches_total_ops(bs.subrange(0, i)) <= crate::store::batches_total_ops(bs),
    decreases bs.len() - i,
{
    if i < bs.len() {
        assert(bs.subrange(0, i + 1).drop_last() =~= bs.subrange(0, i));
        assert(bs.subrange(0, i + 1).last() == bs[i]);
        lemma_batches_total_ops_suffix(bs, i + 1);
    } else {
        assert(bs.subrange(0, i) =~= bs);
    }
}

/// The eviction weight of a cached plain-table handle.
#[derive(Clone)]
pub struct NormalTableWeighter;

impl NormalTableWeighter {
    /// Every plain handle weighs the same: it holds an id and a
    /// five-byte anchor.
    pub fn weight(&self, _name: &String, _table: &NormalTable) -> (r: u32)
        ensures
            r == 16,
    {
        16
    }
}

/// The eviction weight of a cached TTL-table handle.
#[derive(Clone)]
pub struct TtlTableWeighter;

impl TtlTableWeighter {
    /// A TTL handle weighs its fixed part plus its anchor's length.
    pub fn weight(&self, _name: &String, table: &TtlTable) -> (r: u32)
        requires
            table.anchor@.len() + 12 <= u32::MAX,
        ensures
            r == 12 + table.anchor@.len(),
    {
        12 + (table.anchor.len() as u32)
    }
}

/// A store of plain tables.
pub struct NormalDb {
    pub store: Store,
    pub last_table_id: u32,
    pub opts: Options,
}

/// A store of TTL tables: every value carries its write timestamp and
/// records older than `ttl` seconds become eligible for removal at
/// compaction time.
pub struct TtlDb {
    pub store: Store,
    pub last_table_id: u32,
    pub ttl: u32,
}

/// What opening a fresh store leaves behind: the placeholder record and
/// the TTL-mode flag, nothing else, and an allocator at the floor.
pub open spec fn fresh_db(store: Store, last_table_id: u32, ttl_enabled: bool) -> bool {
    &&& store.wf()
    &&& last_table_id == MIN_USERLAND_TABLE_ID - 1
    &&& store.next_sn == 3
    &&& kget(store.contents(), info_item_key(seq![0u8, 0u8])) is Some
    &&& kget(store.contents(), info_item_key(seq![0u8, 1u8])) == Some(
        if ttl_enabled {
            seq![1u8]
        } else {
            seq![0u8]
        },
    )
    &&& forall|q: Seq<u8>|
        q != info_item_key(seq![0u8, 0u8]) && q != info_item_key(seq![0u8, 1u8]) ==> kget(
            store.contents(),
            q,
        ) == None::<Seq<u8>>
}

/// Opens a fresh store and runs the idempotent startup steps: write the
/// placeholder info record and initialize the TTL-mode flag.
fn open_fresh_store(ttl_enabled: bool) -> (r: (Store, u32))
    ensures
        fresh_db(r.0, r.1, ttl_enabled),
{
    let mut store = Store::new();
    let ghost empty = store.contents();
    try_put_placeholder(&mut store);
    proof {
        assert(kget(empty, info_item_key(seq![0u8, 1u8])) == None::<Seq<u8>>) by {
            crate::entries::lemma_kget_absent(empty, info_item_key(seq![0u8, 1u8]));
        }
        let k0 = info_item_key(seq![0u8, 0u8]);
        let k1v = info_item_key(seq![0u8, 1u8]);
        assert(k0.len() == 7 && k1v.len() == 7);
        assert(k0[6] == 0u8 && k1v[6] == 1u8);
        assert(k0 != k1v);
        assert(kget(empty, k0) == None::<Seq<u8>>) by {
            crate::entries::lemma_kget_absent(empty, k0);
        }
        assert(store.next_sn == 2);
    }
    let res = ensure_ttl_enabled_consistent(&mut store, ttl_enabled);
    proof {
        assert(res is Ok);
        assert(store.next_sn == 3);
        assert forall|q: Seq<u8>|
            q != info_item_key(seq![0u8, 0u8]) && q != info_item_key(seq![0u8, 1u8]) implies kget(
            store.contents(),
            q,
        ) == None::<Seq<u8>> by {
            crate::entries::lemma_kget_absent(empty, q);
        }
    }
    let last = get_last_table_id(&store);
    proof {
        let m = store.contents();
        assert forall|j: int| #![trigger m[j]] 0 <= j < m.len() implies !in_table(
            spec_u32_to_be(ID_TO_NAME_TABLE_ID),
            m[j].0,
        ) by {
            crate::entries::lemma_kget_present(m, j);
            if in_table(spec_u32_to_be(ID_TO_NAME_TABLE_ID), m[j].0) {
                let k = m[j].0;
                assert(k[3] == spec_u32_to_be(ID_TO_NAME_TABLE_ID)[3]);
                assert((2u32 & 0xff) as u8 == 2u8) by (bit_vector);
                assert((0u32 & 0xff) as u8 == 0u8) by (bit_vector);
                assert(k != info_item_key(seq![0u8, 0u8]) && k != info_item_key(seq![0u8, 1u8]));
                assert(kget(m, k) == None::<Seq<u8>>);
            }
        }
    }
    (store, last)
}

impl NormalDb {
    /// The store is consistent and the allocator sits between the floor
    /// and the ceiling.
    pub open spec fn wf(self) -> bool {
        &&& self.store.wf()
        &&& MIN_USERLAND_TABLE_ID - 1 <= self.last_table_id <= MAX_USERLAND_TABLE_ID
    }

    /// Opens a fresh plain store under `path`: the startup steps run,
    /// the registry is empty, the allocator sits at the floor.
    pub fn open(path: &str, opts: &Options) -> (r: Result<NormalDb, Error>)
        ensures
            r is Ok,
            r matches Ok(db) ==> db.wf() && fresh_db(db.store, db.last_table_id, false),
    {
        let _ = path;
        let (store, last) = open_fresh_store(false);
        Ok(NormalDb { store, last_table_id: last, opts: opts.clone() })
    }

    /// Removes the store under `path`.
    pub fn destroy(path: &str) -> (r: Result<(), Error>)
        ensures
            r is Ok,
    {
        let _ = path;
        Ok(())
    }

    /// Opens the table registered under `name`, registering it first if
    /// it never existed: the one path on which a table is born.
    pub fn open_table(&mut self, name: &str) -> (r: Result<NormalTable, Error>)
        requires
            old(self).wf(),
            old(self).store.next_sn + 2 <= u64::MAX,
        ensures
            final(self).wf(),
            match spec_registered_id(old(self).store.contents(), name.spec_bytes()) {
                Some(idb) => r matches Ok(t) && t.wf() && t.id@ == idb && *final(self) == *old(
                    self,
                ),
                None => if old(self).last_table_id + 1 < MAX_USERLAND_TABLE_ID {
                    r matches Ok(t) && t.wf() && t.id@ == spec_u32_to_be(
                        (old(self).last_table_id + 1) as u32,
                    ) && final(self).last_table_id == old(self).last_table_id + 1
                        && registration_applied(
                        old(self).store,
                        final(self).store,
                        name.spec_bytes(),
                        t.id@,
                    )
                } else {
                    r matches Err(e) && e == (Error::ExceededLimitError {
                        current: (old(self).last_table_id + 1) as u32,
                        max: MAX_USERLAND_TABLE_ID,
                    }) && *final(self) == *old(self)
                },
            },
    {
        self.create_table(name)
    }

    /// Registers `name` if it resolves to nothing, and returns its
    /// table either way.
    pub fn create_table(&mut self, name: &str) -> (r: Result<NormalTable, Error>)
        requires
            old(self).wf(),
            old(self).store.next_sn + 2 <= u64::MAX,
        ensures
            final(self).wf(),
            match spec_registered_id(old(self).store.contents(), name.spec_bytes()) {
                Some(idb) => r matches Ok(t) && t.wf() && t.id@ == idb && *final(self) == *old(
                    self,
                ),
                None => if old(self).last_table_id + 1 < MAX_USERLAND_TABLE_ID {
                    r matches Ok(t) && t.wf() && t.id@ == spec_u32_to_be(
                        (old(self).last_table_id + 1) as u32,
                    ) && final(self).last_table_id == old(self).last_table_id + 1
                        && registration_applied(
                        old(self).store,
                        final(self).store,
                        name.spec_bytes(),
                        t.id@,
                    )
                } else {
                    r matches Err(e) && e == (Error::ExceededLimitError {
                        current: (old(self).last_table_id + 1) as u32,
                        max: MAX_USERLAND_TABLE_ID,
                    }) && *final(self) == *old(self)
                },
            },
    {
        match lookup_table_id(&self.store, name) {
            Some(id) => Ok(NormalTable::new(id)),
            None => {
                match generate_next_table_id(&mut self.last_table_id) {
                    Ok(id) => {
                        let res = register_table(&mut self.store, name, id);
                        proof {
                            assert(res is Ok);
                        }
                        Ok(NormalTable::new(id))
                    },
                    Err(e) => Err(e),
                }
            },
        }
    }


    /// Allocates the next table id: one step of the monotonic counter.
    pub fn generate_next_table_id(&mut self) -> (r: Result<TableId, Error>)
        requires
            old(self).wf(),
        ensures
            final(self).wf(),
            final(self).store == old(self).store,
            match r {
                Ok(id) => old(self).last_table_id + 1 < MAX_USERLAND_TABLE_ID
                    && final(self).last_table_id == old(self).last_table_id + 1 && id@
                    == spec_u32_to_be(final(self).last_table_id),
                Err(e) => old(self).last_table_id + 1 >= MAX_USERLAND_TABLE_ID
                    && final(self).last_table_id == old(self).last_table_id && e
                    == (Error::ExceededLimitError {
                    current: (old(self).last_table_id + 1) as u32,
                    max: MAX_USERLAND_TABLE_ID,
                }),
            },
    {
        generate_next_table_id(&mut self.last_table_id)
    }

    /// Registers `name` under `id`: both records in one atomic batch.
    pub fn register_table(&mut self, name: &str, id: TableId) -> (r: Result<(), Error>)
        requires
            old(self).wf(),
            old(self).store.next_sn + 2 <= u64::MAX,
        ensures
            final(self).wf(),
            final(self).last_table_id == old(self).last_table_id,
            r is Ok,
            registration_applied(old(self).store, final(self).store, name.spec_bytes(), id@),
    {
        register_table(&mut self.store, name, id)
    }

    /// Destroys the table registered under `name`: registration and
    /// data go atomically; unknown names are a no-op.
    pub fn destroy_table(&mut self, name: &str) -> (r: Result<(), Error>)
        requires
            old(self).wf(),
            old(self).store.next_sn + 3 <= u64::MAX,
        ensures
            final(self).wf(),
            final(self).last_table_id == old(self).last_table_id,
            r is Ok,
            match spec_registered_id(old(self).store.contents(), name.spec_bytes()) {
                Some(idb) => destruction_applied(
                    old(self).store,
                    final(self).store,
                    name.spec_bytes(),
                    idb,
                ),
                None => final(self).store == old(self).store,
            },
    {
        do_destroy_table(&mut self.store, name)
    }

    /// Empties the table registered under `name`, keeping its
    /// registration; unknown names are a no-op.
    pub fn truncate_table(&mut self, name: &str) -> (r: Result<(), Error>)
        requires
            old(self).wf(),
            old(self).store.next_sn + 1 <= u64::MAX,
        ensures
            final(self).wf(),
            final(self).last_table_id == old(self).last_table_id,
            r is Ok,
            match spec_registered_id(old(self).store.contents(), name.spec_bytes()) {
                Some(idb) => {
                    &&& forall|q: Seq<u8>|
                        in_range(q, spec_head_anchor(idb), spec_tail_anchor(idb)) ==> kget(
                            final(self).store.contents(),
                            q,
                        ) == None::<Seq<u8>>
                    &&& forall|q: Seq<u8>|
                        !in_range(q, spec_head_anchor(idb), spec_tail_anchor(idb)) ==> kget(
                            final(self).store.contents(),
                            q,
                        ) == kget(old(self).store.contents(), q)
                    &&& final(self).store.next_sn == old(self).store.next_sn + 1
                },
                None => final(self).store == old(self).store,
            },
    {
        do_truncate_table(&mut self.store, name)
    }

    /// Renames the table registered under `old_name` to `new_name`,
    /// keeping its id and data; unknown names are a no-op.
    pub fn rename_table(&mut self, old_name: &str, new_name: &str) -> (r: Result<(), Error>)
        requires
            old(self).wf(),
            old(self).store.next_sn + 4 <= u64::MAX,
        ensures
            final(self).wf(),
            final(self).last_table_id == old(self).last_table_id,
            r is Ok,
            match spec_registered_id(old(self).store.contents(), old_name.spec_bytes()) {
                Some(idb) => rename_applied(
                    old(self).store,
                    final(self).store,
                    old_name.spec_bytes(),
                    new_name.spec_bytes(),
                    idb,
                ),
                None => final(self).store == old(self).store,
            },
    {
        do_rename_table(&mut self.store, old_name, new_name)
    }

    /// The id registered under `name`, if any.
    pub fn get_table_id_by_name(&self, name: &str) -> (r: Result<Option<TableId>, Error>)
        requires
            self.wf(),
        ensures
            match r {
                Ok(Some(id)) => spec_registered_id(self.store.contents(), name.spec_bytes())
                    == Some(id@),
                Ok(None) => spec_registered_id(self.store.contents(), name.spec_bytes())
                    == None::<Seq<u8>>,
                Err(_) => false,
            },
    {
        Ok(lookup_table_id(&self.store, name))
    }

    /// The name registered under `id`, if any: succeeds on every
    /// registered id whose stored name bytes are a valid UTF-8 encoding,
    /// and the returned text encodes back to exactly those bytes.
    pub fn get_table_name_by_id(&self, id: TableId) -> (r: Result<Option<String>, Error>)
        requires
            self.wf(),
        ensures
            r is Ok,
            match spec_registered_name(self.store.contents(), id@) {
                Some(nb) => {
                    &&& (r matches Ok(Some(s)) ==> vstd::utf8::encode_utf8(s@) == nb)
                    &&& (vstd::utf8::valid_utf8(nb) ==> ({
                        &&& r matches Ok(Some(s))
                        &&& vstd::utf8::encode_utf8(s@) == nb
                    }))
                },
                None => r == Ok::<Option<String>, Error>(None),
            },
    {
        let key = build_id_to_name_table_inner_key(id);
        match self.store.get(key.as_slice()) {
            Some(v) => Ok(bytes_to_string(v)),
            None => Ok(None),
        }
    }

    /// The registered tables, as (name, id) pairs in ascending id order:
    /// complete, without duplicates, each name the text whose UTF-8
    /// encoding is the stored name bytes.
    pub fn get_table_infos(&self) -> (r: Vec<(String, u32)>)
        requires
            self.wf(),
        ensures
            forall|i: int| #![trigger r@[i]]
                0 <= i < r@.len() ==> spec_registered_name(
                    self.store.contents(),
                    spec_u32_to_be(r@[i].1),
                ) == Some(vstd::utf8::encode_utf8(r@[i].0@)),
            forall|i: int, j: int| 0 <= i < j < r@.len() ==> r@[i].1 < r@[j].1,
            forall|j: int| #![trigger self.store.contents()[j]]
                0 <= j < self.store.contents().len() && in_table(
                    spec_u32_to_be(ID_TO_NAME_TABLE_ID),
                    self.store.contents()[j].0,
                ) && self.store.contents()[j].0.len() == 9 && vstd::utf8::valid_utf8(
                    self.store.contents()[j].1,
                ) ==> exists|i: int|
                    #![trigger r@[i]]
                    0 <= i < r@.len() && spec_u32_to_be(r@[i].1)
                        == self.store.contents()[j].0.subrange(5, 9),
    {
        get_table_infos_in(&self.store)
    }

    /// The sequence number of the last committed batch.
    pub fn get_latest_sn(&self) -> (r: u64)
        requires
            self.wf(),
        ensures
            r == self.store.spec_latest_sn(),
    {
        self.store.latest_sn()
    }

    /// The change feed: every batch committed after `sn`, oldest first,
    /// each under the sequence number it was committed with.
    pub fn get_write_op_batches_since(&self, sn: u64) -> (r: Result<
        crate::write_op::WriteOpBatchIterator,
        Error,
    >)
        requires
            self.wf(),
        ensures
            r is Ok,
            r matches Ok(it) ==> ({
                &&& it.pos == 0
                &&& it.batches@.len() == crate::store::wal_since(self.store.log(), sn).len()
                &&& forall|i: int|
                    0 <= i < it.batches@.len() ==> crate::write_op::batch_eq(
                        #[trigger] it.batches@[i],
                        crate::store::wal_since(self.store.log(), sn)[i],
                    )
                &&& forall|i: int, j: int|
                    0 <= i < j < it.batches@.len() ==> it.batches@[i].sn < it.batches@[j].sn
                &&& forall|i: int| 0 <= i < it.batches@.len() ==> #[trigger] it.batches@[i].sn > sn
            }),
    {
        let batches = self.store.updates_since(sn);
        proof {
            crate::store::lemma_wal_since_ascending(self.store.log(), sn);
        }
        Ok(crate::write_op::WriteOpBatchIterator::new(batches))
    }

    /// Re-applies captured batches, one atomic batch per captured batch,
    /// in order, and returns the last batch's source sequence number; the
    /// store assigns its own new sequence numbers.
    pub fn replay(&mut self, write_op_batches: Vec<WriteOpBatch>) -> (r: Result<u64, Error>)
        requires
            old(self).wf(),
            crate::store::batches_total_ops(write_op_batches@) <= u64::MAX - old(
                self,
            ).store.next_sn,
        ensures
            final(self).wf(),
            final(self).last_table_id == old(self).last_table_id,
            r matches Ok(sn) ==> ({
                &&& sn == if write_op_batches@.len() == 0 {
                    0u64
                } else {
                    write_op_batches@.last().sn
                }
                &&& forall|q: Seq<u8>| kget(final(self).store.contents(), q)
                    == crate::store::batches_lookup(
                    kget(old(self).store.contents(), q),
                    write_op_batches@,
                    q,
                )
            }),
            r is Ok,
            final(self).store.log().len() == old(self).store.log().len()
                + crate::store::count_nonempty(write_op_batches@),
            forall|i: int|
                0 <= i < old(self).store.log().len() ==> final(self).store.log()[i] == old(
                    self,
                ).store.log()[i],
    {
        replay_in(&mut self.store, write_op_batches)
    }

    /// An empty cross-table write batch.
    pub fn new_write_batch_x(&self) -> (r: crate::write_batch::NormalWriteBatchX)
        ensures
            r.ops@.len() == 0,
    {
        crate::write_batch::NormalWriteBatchX::new()
    }

    /// Commits a cross-table batch: all of it or none of it.
    pub fn write(&mut self, batch: crate::write_batch::NormalWriteBatchX) -> (r: Result<(), Error>)
        requires
            old(self).wf(),
            batch.ops@.len() <= u64::MAX - old(self).store.next_sn,
        ensures
            final(self).wf(),
            final(self).last_table_id == old(self).last_table_id,
            r is Ok,
            forall|q: Seq<u8>| kget(final(self).store.contents(), q) == lookup_after(
                old(self).store.contents(),
                batch.ops@,
                q,
            ),
            batch.ops@.len() > 0 ==> final(self).store.log().len() == old(self).store.log().len()
                + 1 && crate::store::batch_matches(
                final(self).store.log().last(),
                old(self).store.next_sn,
                batch.ops@,
            ) && final(self).store.next_sn == old(self).store.next_sn + batch.ops@.len(),
            batch.ops@.len() == 0 ==> final(self).store == old(self).store,
    {
        batch.write(&mut self.store)
    }

    /// A handle onto the table with the given id.
    pub fn new_table(&self, id: TableId) -> (r: NormalTable)
        ensures
            r.wf(),
            r.id == id,
    {
        NormalTable::new(id)
    }
}

impl TtlDb {
    /// The store is consistent and the allocator sits between the floor
    /// and the ceiling.
    pub open spec fn wf(self) -> bool {
        &&& self.store.wf()
        &&& MIN_USERLAND_TABLE_ID - 1 <= self.last_table_id <= MAX_USERLAND_TABLE_ID
    }

    /// Opens a fresh TTL store under `path` with the given record age
    /// threshold: the startup steps run, the registry is empty, the
    /// allocator sits at the floor.
    pub fn open(path: &str, ttl: u32, opts: &mut Options) -> (r: Result<TtlDb, Error>)
        ensures
            r is Ok,
            r matches Ok(db) ==> db.wf() && fresh_db(db.store, db.last_table_id, true) && db.ttl
                == ttl,
    {
        let _ = path;
        let _ = opts;
        let (store, last) = open_fresh_store(true);
        Ok(TtlDb { store, last_table_id: last, ttl })
    }

    /// Removes the store under `path`.
    pub fn destroy(path: &str) -> (r: Result<(), Error>)
        ensures
            r is Ok,
    {
        let _ = path;
        Ok(())
    }

    /// Opens the table registered under `name`, registering it first if
    /// it never existed: the one path on which a table is born.
    pub fn open_table(&mut self, name: &str) -> (r: Result<TtlTable, Error>)
        requires
            old(self).wf(),
            old(self).store.next_sn + 2 <= u64::MAX,
        ensures
            final(self).wf(),
            match spec_registered_id(old(self).store.contents(), name.spec_bytes()) {
                Some(idb) => r matches Ok(t) && t.wf() && t.id@ == idb && *final(self) == *old(
                    self,
                ),
                None => if old(self).last_table_id + 1 < MAX_USERLAND_TABLE_ID {
                    r matches Ok(t) && t.wf() && t.id@ == spec_u32_to_be(
                        (old(self).last_table_id + 1) as u32,
                    ) && final(self).last_table_id == old(self).last_table_id + 1
                        && registration_applied(
                        old(self).store,
                        final(self).store,
                        name.spec_bytes(),
                        t.id@,
                    )
                } else {
                    r matches Err(e) && e == (Error::ExceededLimitError {
                        current: (old(self).last_table_id + 1) as u32,
                        max: MAX_USERLAND_TABLE_ID,
                    }) && *final(self) == *old(self)
                },
            },
    {
        self.create_table(name)
    }

    /// Registers `name` if it resolves to nothing, and returns its
    /// table either way.
    pub fn create_table(&mut self, name: &str) -> (r: Result<TtlTable, Error>)
        requires
            old(self).wf(),
            old(self).store.next_sn + 2 <= u64::MAX,
        ensures
            final(self).wf(),
            match spec_registered_id(old(self).store.contents(), name.spec_bytes()) {
                Some(idb) => r matches Ok(t) && t.wf() && t.id@ == idb && *final(self) == *old(
                    self,
                ),
                None => if old(self).last_table_id + 1 < MAX_USERLAND_TABLE_ID {
                    r matches Ok(t) && t.wf() && t.id@ == spec_u32_to_be(
                        (old(self).last_table_id + 1) as u32,
                    ) && final(self).last_table_id == old(self).last_table_id + 1
                        && registration_applied(
                        old(self).store,
                        final(self).store,
                        name.spec_bytes(),
                        t.id@,
                    )
                } else {
                    r matches Err(e) && e == (Error::ExceededLimitError {
                        current: (old(self).last_table_id + 1) as u32,
                        max: MAX_USERLAND_TABLE_ID,
                    }) && *final(self) == *old(self)
                },
            },
    {
        match lookup_table_id(&self.store, name) {
            Some(id) => Ok(TtlTable::new(id)),
            None => {
                match generate_next_table_id(&mut self.last_table_id) {
                    Ok(id) => {
                        let res = register_table(&mut self.store, name, id);
                        proof {
                            assert(res is Ok);
                        }
                        Ok(TtlTable::new(id))
                    },
                    Err(e) => Err(e),
                }
            },
        }
    }


    /// Allocates the next table id: one step of the monotonic counter.
    pub fn generate_next_table_id(&mut self) -> (r: Result<TableId, Error>)
        requires
            old(self).wf(),
        ensures
            final(self).wf(),
            final(self).store == old(self).store,
            match r {
                Ok(id) => old(self).last_table_id + 1 < MAX_USERLAND_TABLE_ID
                    && final(self).last_table_id == old(self).last_table_id + 1 && id@
                    == spec_u32_to_be(final(self).last_table_id),
                Err(e) => old(self).last_table_id + 1 >= MAX_USERLAND_TABLE_ID
                    && final(self).last_table_id == old(self).last_table_id && e
                    == (Error::ExceededLimitError {
                    current: (old(self).last_table_id + 1) as u32,
                    max: MAX_USERLAND_TABLE_ID,
                }),
            },
    {
        generate_next_table_id(&mut self.last_table_id)
    }

    /// Registers `name` under `id`: both records in one atomic batch.
    pub fn register_table(&mut self, name: &str, id: TableId) -> (r: Result<(), Error>)
        requires
            old(self).wf(),
            old(self).store.next_sn + 2 <= u64::MAX,
        ensures
            final(self).wf(),
            final(self).last_table_id == old(self).last_table_id,
            r is Ok,
            registration_applied(old(self).store, final(self).store, name.spec_bytes(), id@),
    {
        register_table(&mut self.store, name, id)
    }

    /// Destroys the table registered under `name`: registration and
    /// data go atomically; unknown names are a no-op.
    pub fn destroy_table(&mut self, name: &str) -> (r: Result<(), Error>)
        requires
            old(self).wf(),
            old(self).store.next_sn + 3 <= u64::MAX,
        ensures
            final(self).wf(),
            final(self).last_table_id == old(self).last_table_id,
            r is Ok,
            match spec_registered_id(old(self).store.contents(), name.spec_bytes()) {
                Some(idb) => destruction_applied(
                    old(self).store,
                    final(self).store,
                    name.spec_bytes(),
                    idb,
                ),
                None => final(self).store == old(self).store,
            },
    {
        do_destroy_table(&mut self.store, name)
    }

    /// Empties the table registered under `name`, keeping its
    /// registration; unknown names are a no-op.
    pub fn truncate_table(&mut self, name: &str) -> (r: Result<(), Error>)
        requires
            old(self).wf(),
            old(self).store.next_sn + 1 <= u64::MAX,
        ensures
            final(self).wf(),
            final(self).last_table_id == old(self).last_table_id,
            r is Ok,
            match spec_registered_id(old(self).store.contents(), name.spec_bytes()) {
                Some(idb) => {
                    &&& forall|q: Seq<u8>|
                        in_range(q, spec_head_anchor(idb), spec_tail_anchor(idb)) ==> kget(
                            final(self).store.contents(),
                            q,
                        ) == None::<Seq<u8>>
                    &&& forall|q: Seq<u8>|
                        !in_range(q, spec_head_anchor(idb), spec_tail_anchor(idb)) ==> kget(
                            final(self).store.contents(),
                            q,
                        ) == kget(old(self).store.contents(), q)
                    &&& final(self).store.next_sn == old(self).store.next_sn + 1
                },
                None => final(self).store == old(self).store,
            },
    {
        do_truncate_table(&mut self.store, name)
    }

    /// Renames the table registered under `old_name` to `new_name`,
    /// keeping its id and data; unknown names are a no-op.
    pub fn rename_table(&mut self, old_name: &str, new_name: &str) -> (r: Result<(), Error>)
        requires
            old(self).wf(),
            old(self).store.next_sn + 4 <= u64::MAX,
        ensures
            final(self).wf(),
            final(self).last_table_id == old(self).last_table_id,
            r is Ok,
            match spec_registered_id(old(self).store.contents(), old_name.spec_bytes()) {
                Some(idb) => rename_applied(
                    old(self).store,
                    final(self).store,
                    old_name.spec_bytes(),
                    new_name.spec_bytes(),
                    idb,
                ),
                None => final(self).store == old(self).store,
            },
    {
        do_rename_table(&mut self.store, old_name, new_name)
    }

    /// The id registered under `name`, if any.
    pub fn get_table_id_by_name(&self, name: &str) -> (r: Result<Option<TableId>, Error>)
        requires
            self.wf(),
        ensures
            match r {
                Ok(Some(id)) => spec_registered_id(self.store.contents(), name.spec_bytes())
                    == Some(id@),
                Ok(None) => spec_registered_id(self.store.contents(), name.spec_bytes())
                    == None::<Seq<u8>>,
                Err(_) => false,
            },
    {
        Ok(lookup_table_id(&self.store, name))
    }

    /// The name registered under `id`, if any: succeeds on every
    /// registered id whose stored name bytes are a valid UTF-8 encoding,
    /// and the returned text encodes back to exactly those bytes.
    pub fn get_table_name_by_id(&self, id: TableId) -> (r: Result<Option<String>, Error>)
        requires
            self.wf(),
        ensures
            r is Ok,
            match spec_registered_name(self.store.contents(), id@) {
                Some(nb) => {
                    &&& (r matches Ok(Some(s)) ==> vstd::utf8::encode_utf8(s@) == nb)
                    &&& (vstd::utf8::valid_utf8(nb) ==> ({
                        &&& r matches Ok(Some(s))
                        &&& vstd::utf8::encode_utf8(s@) == nb
                    }))
                },
                None => r == Ok::<Option<String>, Error>(None),
            },
    {
        let key = build_id_to_name_table_inner_key(id);
        match self.store.get(key.as_slice()) {
            Some(v) => Ok(bytes_to_string(v)),
            None => Ok(None),
        }
    }

    /// The registered tables, as (name, id) pairs in ascending id order:
    /// complete, without duplicates, each name the text whose UTF-8
    /// encoding is the stored name bytes.
    pub fn get_table_infos(&self) -> (r: Vec<(String, u32)>)
        requires
            self.wf(),
        ensures
            forall|i: int| #![trigger r@[i]]
                0 <= i < r@.len() ==> spec_registered_name(
                    self.store.contents(),
                    spec_u32_to_be(r@[i].1),
                ) == Some(vstd::utf8::encode_utf8(r@[i].0@)),
            forall|i: int, j: int| 0 <= i < j < r@.len() ==> r@[i].1 < r@[j].1,
            forall|j: int| #![trigger self.store.contents()[j]]
                0 <= j < self.store.contents().len() && in_table(
                    spec_u32_to_be(ID_TO_NAME_TABLE_ID),
                    self.store.contents()[j].0,
                ) && self.store.contents()[j].0.len() == 9 && vstd::utf8::valid_utf8(
                    self.store.contents()[j].1,
                ) ==> exists|i: int|
                    #![trigger r@[i]]
                    0 <= i < r@.len() && spec_u32_to_be(r@[i].1)
                        == self.store.contents()[j].0.subrange(5, 9),
    {
        get_table_infos_in(&self.store)
    }

    /// The sequence number of the last committed batch.
    pub fn get_latest_sn(&self) -> (r: u64)
        requires
            self.wf(),
        ensures
            r == self.store.spec_latest_sn(),
    {
        self.store.latest_sn()
    }

    /// The change feed: every batch committed after `sn`, oldest first,
    /// each under the sequence number it was committed with.
    pub fn get_write_op_batches_since(&self, sn: u64) -> (r: Result<
        crate::write_op::WriteOpBatchIterator,
        Error,
    >)
        requires
            self.wf(),
        ensures
            r is Ok,
            r matches Ok(it) ==> ({
                &&& it.pos == 0
                &&& it.batches@.len() == crate::store::wal_since(self.store.log(), sn).len()
                &&& forall|i: int|
                    0 <= i < it.batches@.len() ==> crate::write_op::batch_eq(
                        #[trigger] it.batches@[i],
                        crate::store::wal_since(self.store.log(), sn)[i],
                    )
                &&& forall|i: int, j: int|
                    0 <= i < j < it.batches@.len() ==> it.batches@[i].sn < it.batches@[j].sn
                &&& forall|i: int| 0 <= i < it.batches@.len() ==> #[trigger] it.batches@[i].sn > sn
            }),
    {
        let batches = self.store.updates_since(sn);
        proof {
            crate::store::lemma_wal_since_ascending(self.store.log(), sn);
        }
        Ok(crate::write_op::WriteOpBatchIterator::new(batches))
    }

    /// Re-applies captured batches, one atomic batch per captured batch,
    /// in order, and returns the last batch's source sequence number; the
    /// store assigns its own new sequence numbers.
    pub fn replay(&mut self, write_op_batches: Vec<WriteOpBatch>) -> (r: Result<u64, Error>)
        requires
            old(self).wf(),
            crate::store::batches_total_ops(write_op_batches@) <= u64::MAX - old(
                self,
            ).store.next_sn,
        ensures
            final(self).wf(),
            final(self).last_table_id == old(self).last_table_id,
            r matches Ok(sn) ==> ({
                &&& sn == if write_op_batches@.len() == 0 {
                    0u64
                } else {
                    write_op_batches@.last().sn
                }
                &&& forall|q: Seq<u8>| kget(final(self).store.contents(), q)
                    == crate::store::batches_lookup(
                    kget(old(self).store.contents(), q),
                    write_op_batches@,
                    q,
                )
            }),
            r is Ok,
            final(self).store.log().len() == old(self).store.log().len()
                + crate::store::count_nonempty(write_op_batches@),
            forall|i: int|
                0 <= i < old(self).store.log().len() ==> final(self).store.log()[i] == old(
                    self,
                ).store.log()[i],
    {
        replay_in(&mut self.store, write_op_batches)
    }

    /// An empty cross-table write batch.
    pub fn new_write_batch_x(&self) -> (r: crate::write_batch::TtlWriteBatchX)
        ensures
            r.ops@.len() == 0,
    {
        crate::write_batch::TtlWriteBatchX::new()
    }

    /// Commits a cross-table batch: all of it or none of it.
    pub fn write(&mut self, batch: crate::write_batch::TtlWriteBatchX) -> (r: Result<(), Error>)
        requires
            old(self).wf(),
            batch.ops@.len() <= u64::MAX - old(self).store.next_sn,
        ensures
            final(self).wf(),
            final(self).last_table_id == old(self).last_table_id,
            r is Ok,
            forall|q: Seq<u8>| kget(final(self).store.contents(), q) == lookup_after(
                old(self).store.contents(),
                batch.ops@,
                q,
            ),
            batch.ops@.len() > 0 ==> final(self).store.log().len() == old(self).store.log().len()
                + 1 && crate::store::batch_matches(
                final(self).store.log().last(),
                old(self).store.next_sn,
                batch.ops@,
            ) && final(self).store.next_sn == old(self).store.next_sn + batch.ops@.len(),
            batch.ops@.len() == 0 ==> final(self).store == old(self).store,
    {
        batch.write(&mut self.store)
    }

    /// A handle onto the table with the given id.
    pub fn new_table(&self, id: TableId) -> (r: TtlTable)
        ensures
            r.wf(),
            r.id == id,
    {
        TtlTable::new(id)
    }
}



/// After a registration, the name-to-id and id-to-name views are mutual
/// inverses: the name resolves to the id and the id resolves back to
/// the name.
pub proof fn lemma_registration_mutual(pre: Store, post: Store, nb: Seq<u8>, idb: Seq<u8>)
    requires
        registration_applied(pre, post, nb, idb),
        idb.len() == 4,
    ensures
        spec_registered_id(post.contents(), nb) == Some(idb),
        spec_registered_name(post.contents(), idb) == Some(nb),
{
    assert(idb.subrange(0, 4) =~= idb);
}

/// After a rename, a read of any record of the renamed table gives what
/// it gave before: the data is addressed by id, not by name.
pub proof fn lemma_rename_preserves_data(
    pre: Store,
    post: Store,
    old_nb: Seq<u8>,
    new_nb: Seq<u8>,
    idb: Seq<u8>,
    k: Seq<u8>,
)
    requires
        rename_applied(pre, post, old_nb, new_nb, idb),
        idb.len() == 4,
        crate::codec::spec_be_to_u32(idb) >= MIN_USERLAND_TABLE_ID,
    ensures
        kget(post.contents(), spec_inner_key(idb, k)) == kget(pre.contents(), spec_inner_key(idb, k)),
        spec_registered_id(post.contents(), new_nb) == Some(idb),
        old_nb != new_nb ==> spec_registered_id(post.contents(), old_nb) == None::<Seq<u8>>,
{
    let dk = spec_inner_key(idb, k);
    crate::codec::lemma_be_bytes_roundtrip(idb);
    assert(spec_be_to_u32(spec_u32_to_be(NAME_TO_ID_TABLE_ID)) == NAME_TO_ID_TABLE_ID) by {
        crate::codec::lemma_be_roundtrip(NAME_TO_ID_TABLE_ID);
    }
    assert(spec_be_to_u32(spec_u32_to_be(ID_TO_NAME_TABLE_ID)) == ID_TO_NAME_TABLE_ID) by {
        crate::codec::lemma_be_roundtrip(ID_TO_NAME_TABLE_ID);
    }
    assert(dk != name_to_id_key(old_nb)) by {
        if dk == name_to_id_key(old_nb) {
            assert(dk.subrange(0, 4) =~= idb);
            assert(name_to_id_key(old_nb).subrange(0, 4) =~= spec_u32_to_be(NAME_TO_ID_TABLE_ID));
        }
    }
    assert(dk != name_to_id_key(new_nb)) by {
        if dk == name_to_id_key(new_nb) {
            assert(dk.subrange(0, 4) =~= idb);
            assert(name_to_id_key(new_nb).subrange(0, 4) =~= spec_u32_to_be(NAME_TO_ID_TABLE_ID));
        }
    }
    assert(dk != id_to_name_key(idb)) by {
        if dk == id_to_name_key(idb) {
            assert(dk.subrange(0, 4) =~= idb);
            assert(id_to_name_key(idb).subrange(0, 4) =~= spec_u32_to_be(ID_TO_NAME_TABLE_ID));
        }
    }
    assert(idb.subrange(0, 4) =~= idb);
}

/// After a destruction, no record of the destroyed table remains, and
/// its name no longer resolves.
pub proof fn lemma_destroy_clears_table(
    pre: Store,
    post: Store,
    nb: Seq<u8>,
    idb: Seq<u8>,
    k: Seq<u8>,
)
    requires
        destruction_applied(pre, post, nb, idb),
        idb.len() == 4,
    ensures
        kget(post.contents(), spec_inner_key(idb, k)) == None::<Seq<u8>>,
        spec_registered_id(post.contents(), nb) == None::<Seq<u8>>,
{
    let dk = spec_inner_key(idb, k);
    crate::codec::lemma_anchors_bound_table(idb, k);
    crate::lex::lemma_lex_asym(spec_head_anchor(idb), dk);
    assert(in_range(dk, spec_head_anchor(idb), spec_tail_anchor(idb)));
}



/// The name half of the lookup round trip: registering under `name`
/// stores exactly `name`'s UTF-8 encoding, which is valid UTF-8, and
/// any text that encodes to those bytes is `name`'s text: a name lookup
/// on the registered id can only give `name` back.
pub proof fn lemma_registered_name_text(pre: Store, post: Store, name: &str, idb: Seq<u8>)
    requires
        registration_applied(pre, post, name.spec_bytes(), idb),
    ensures
        spec_registered_name(post.contents(), idb) == Some(name.spec_bytes()),
        vstd::utf8::valid_utf8(name.spec_bytes()),
        forall|t: Seq<char>| vstd::utf8::encode_utf8(t) == name.spec_bytes() ==> t == name@,
{
    vstd::utf8::encode_utf8_valid_utf8(name@);
    assert forall|t: Seq<char>| vstd::utf8::encode_utf8(t) == name.spec_bytes() implies t
        == name@ by {
        vstd::utf8::encode_utf8_decode_utf8(t);
        vstd::utf8::encode_utf8_decode_utf8(name@);
    }
}

/// Ids handed out later sort strictly after ids handed out earlier, in
/// number and in bytes: successive creations on distinct names yield
/// strictly increasing table ids.
pub proof fn lemma_allocated_ids_increase(c1: u32, c2: u32)
    requires
        c1 < c2,
    ensures
        crate::codec::lex_less(spec_u32_to_be(c1), spec_u32_to_be(c2)),
        spec_be_to_u32(spec_u32_to_be(c1)) < spec_be_to_u32(spec_u32_to_be(c2)),
{
    crate::codec::lemma_be_order(c1, c2);
    crate::codec::lemma_be_roundtrip(c1);
    crate::codec::lemma_be_roundtrip(c2);
}

} // verus!
