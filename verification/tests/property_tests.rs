use seriesdb::clock::now;
use seriesdb::codec::{
    build_inner_key, build_timestamped_value, extract_timestamp, extract_value, u32_to_u8a4,
    u8a4_to_u32,
};
use seriesdb::db::{ensure_ttl_enabled_consistent, NormalDb, TtlDb};
use seriesdb::error::Error;
use seriesdb::options::Options;

fn setup(name: &str) -> NormalDb {
    NormalDb::open(name, &Options::new()).unwrap()
}

fn setup_with_ttl(name: &str, ttl: u32) -> TtlDb {
    TtlDb::open(name, ttl, &mut Options::new()).unwrap()
}

#[test]
fn ids_start_at_floor_and_strictly_increase() {
    let mut db = setup("props.ids_increase");
    let a = db.create_table("a").unwrap();
    let b = db.create_table("b").unwrap();
    let c = db.create_table("c").unwrap();
    assert_eq!(u8a4_to_u32(a.id), 1024);
    assert_eq!(u8a4_to_u32(b.id), 1025);
    assert_eq!(u8a4_to_u32(c.id), 1026);
    assert!(a.id < b.id && b.id < c.id);
}

#[test]
fn reopening_a_name_returns_the_same_id() {
    let mut db = setup("props.same_id");
    let a1 = db.open_table("new").unwrap();
    let a2 = db.open_table("new").unwrap();
    let a3 = db.create_table("new").unwrap();
    assert_eq!(a1.id, a2.id);
    assert_eq!(a1.id, a3.id);
    let b = db.open_table("other").unwrap();
    assert_ne!(a1.id, b.id);
}

#[test]
fn name_and_id_lookups_are_mutual_inverses() {
    let mut db = setup("props.mutual_inverse");
    let t = db.open_table("x").unwrap();
    let id = db.get_table_id_by_name("x").unwrap().unwrap();
    assert_eq!(id, t.id);
    let name = db.get_table_name_by_id(id).unwrap().unwrap();
    assert_eq!(name, "x");
}

#[test]
fn put_timestamped_then_get_strips_the_timestamp() {
    let mut db = setup_with_ttl("props.timestamped", 3);
    let t = db.open_table("series").unwrap();
    let before = now();
    let ts = t.put_timestamped(&mut db.store, b"k", b"v").unwrap();
    assert!(ts >= before);
    assert_eq!(t.get(&db.store, b"k").unwrap().unwrap(), b"v".to_vec());

    let raw = db.store.get(&build_inner_key(t.id, b"k")).unwrap();
    assert_eq!(extract_timestamp(&raw), u32_to_u8a4(ts));
    assert_eq!(extract_value(&raw), b"v".to_vec());
}

#[test]
fn a_lone_old_record_survives_compaction() {
    let mut db = setup_with_ttl("props.lone_survivor", 10);
    let t = db.open_table("quiet").unwrap();
    let id = t.id;
    // One record, written long ago: it is the table's greatest key.
    db.store.put(
        build_inner_key(id, b"k1"),
        build_timestamped_value(u32_to_u8a4(1000), b"old"),
    );
    db.compact_at(1_000_000);
    assert_eq!(t.get(&db.store, b"k1").unwrap().unwrap(), b"old".to_vec());
}

#[test]
fn only_old_non_latest_records_are_removed() {
    let mut db = setup_with_ttl("props.expiry", 10);
    let t = db.open_table("series").unwrap();
    let id = t.id;
    db.store.put(
        build_inner_key(id, b"k1"),
        build_timestamped_value(u32_to_u8a4(1000), b"old"),
    );
    db.store.put(
        build_inner_key(id, b"k2"),
        build_timestamped_value(u32_to_u8a4(2000), b"older-but-max"),
    );
    db.compact_at(1_000_000);
    // The older, non-greatest record went; the greatest survived.
    assert!(t.get(&db.store, b"k1").unwrap().is_none());
    assert_eq!(t.get(&db.store, b"k2").unwrap().unwrap(), b"older-but-max".to_vec());
    // A young record next to the survivor also stays.
    db.store.put(
        build_inner_key(id, b"k0"),
        build_timestamped_value(u32_to_u8a4(999_999), b"young"),
    );
    db.compact_at(1_000_000);
    assert_eq!(t.get(&db.store, b"k0").unwrap().unwrap(), b"young".to_vec());
}

#[test]
fn reserved_tables_survive_compaction() {
    let mut db = setup_with_ttl("props.reserved", 1);
    let _ = db.open_table("x").unwrap();
    db.compact_at(u32::MAX);
    // Registration and info records are reserved: still resolvable.
    assert!(db.get_table_id_by_name("x").unwrap().is_some());
}

#[test]
fn rename_keeps_data_and_forgets_the_old_name() {
    let mut db = setup("props.rename");
    let t = db.open_table("old").unwrap();
    t.put(&mut db.store, b"k", b"v").unwrap();
    db.rename_table("old", "new").unwrap();
    let t2 = db.open_table("new").unwrap();
    assert_eq!(t2.id, t.id);
    assert_eq!(t2.get(&db.store, b"k").unwrap().unwrap(), b"v".to_vec());
    assert!(db.get_table_id_by_name("old").unwrap().is_none());
}

#[test]
fn destroy_drops_data_and_registration() {
    let mut db = setup("props.destroy");
    let t = db.open_table("gone").unwrap();
    t.put(&mut db.store, b"k", b"v").unwrap();
    db.destroy_table("gone").unwrap();
    assert!(t.get(&db.store, b"k").unwrap().is_none());
    assert!(db.get_table_id_by_name("gone").unwrap().is_none());
    // Destroying an unknown name is a silent no-op.
    let sn = db.get_latest_sn();
    db.destroy_table("never-existed").unwrap();
    assert_eq!(db.get_latest_sn(), sn);
}

#[test]
fn feed_reports_batches_in_ascending_sn_order() {
    let mut db = setup("props.feed_order");
    let t = db.open_table("a").unwrap();
    t.put(&mut db.store, b"k1", b"v1").unwrap();
    t.put(&mut db.store, b"k2", b"v2").unwrap();
    let mut wb = t.new_write_batch();
    wb.put(b"k3", b"v3");
    wb.delete(b"k1");
    wb.write(&mut db.store).unwrap();

    let mut iter = db.get_write_op_batches_since(0).unwrap();
    let mut sns = vec![];
    let mut op_counts = vec![];
    while let Some(b) = iter.next() {
        sns.push(b.sn);
        op_counts.push(b.write_ops.len());
    }
    for w in sns.windows(2) {
        assert!(w[0] < w[1]);
    }
    // placeholder, flag, registration, two puts, one two-record batch
    assert_eq!(op_counts, vec![1, 1, 2, 1, 1, 2]);

    // A feed from a later sequence number starts past it.
    let since = sns[2];
    let mut iter = db.get_write_op_batches_since(since).unwrap();
    let mut later = vec![];
    while let Some(b) = iter.next() {
        later.push(b.sn);
    }
    assert_eq!(later, sns[3..].to_vec());
}

#[test]
fn end_to_end_capture_and_replay() {
    let mut db = setup("props.source");
    let a = db.create_table("a").unwrap();
    assert_eq!(u8a4_to_u32(a.id), 1024);
    let b = db.create_table("b").unwrap();
    assert_eq!(u8a4_to_u32(b.id), 1025);
    a.put(&mut db.store, b"k1", b"v1").unwrap();
    a.delete_range(&mut db.store, b"k0", b"k2").unwrap();

    let mut iter = db.get_write_op_batches_since(0).unwrap();
    let mut batches = vec![];
    while let Some(batch) = iter.next() {
        batches.push(batch);
    }

    let mut target = NormalDb::open("props.target", &Options::new()).unwrap();
    let last_sn = target.replay(batches).unwrap();
    assert_eq!(last_sn, db.get_latest_sn());

    assert_eq!(
        target.get_table_id_by_name("a").unwrap().unwrap(),
        u32_to_u8a4(1024)
    );
    assert_eq!(
        target.get_table_name_by_id(u32_to_u8a4(1025)).unwrap().unwrap(),
        "b"
    );
    let ta = target.open_table("a").unwrap();
    assert!(ta.get(&target.store, b"k1").unwrap().is_none());
}

#[test]
fn allocator_fails_at_the_reserved_ceiling() {
    let mut db = setup("props.ceiling");
    db.last_table_id = 4294967293;
    let err = db.create_table("too-late").unwrap_err();
    assert_eq!(err, Error::ExceededLimitError { current: 4294967294, max: 4294967294 });
    // The failure is fatal and not retried: the same call fails again.
    let err = db.create_table("too-late").unwrap_err();
    assert_eq!(err, Error::ExceededLimitError { current: 4294967294, max: 4294967294 });
}

#[test]
fn ttl_mode_mismatch_is_refused() {
    let mut db = setup_with_ttl("props.mode", 3);
    let err = ensure_ttl_enabled_consistent(&mut db.store, false).unwrap_err();
    assert_eq!(err, Error::InconsistentTtlEnabled { current: true, wanted: false });
    assert!(ensure_ttl_enabled_consistent(&mut db.store, true).is_ok());
}

#[test]
fn truncate_keeps_the_registration() {
    let mut db = setup("props.truncate");
    let t = db.open_table("kept").unwrap();
    t.put(&mut db.store, b"k", b"v").unwrap();
    db.truncate_table("kept").unwrap();
    assert!(t.get(&db.store, b"k").unwrap().is_none());
    assert_eq!(db.get_table_id_by_name("kept").unwrap().unwrap(), t.id);
}
