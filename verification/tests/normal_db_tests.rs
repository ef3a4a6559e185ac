use seriesdb::codec::{build_id_to_name_table_inner_key, build_name_to_id_table_inner_key,
    u8a4_to_u32};
use seriesdb::db::NormalDb;
use seriesdb::options::Options;
use seriesdb::write_op::WriteOp;

const MIN_USERLAND_TABLE_ID: [u8; 4] = [0, 0, 4, 0];

fn setup(name: &str) -> NormalDb {
    NormalDb::open(name, &Options::new()).unwrap()
}

fn raw_get(db: &NormalDb, key: &[u8]) -> Option<Vec<u8>> {
    db.store.get(key)
}

#[test]
fn normal_db_test_new_table() {
    let mut db = setup("normal_db.test_new_table");
    assert!(db.open_table("huobi.btc.usdt.1min").is_ok());
}

#[test]
fn normal_db_test_destroy_table() {
    let mut db = setup("normal_db.test_destroy_table");
    let name = "huobi.btc.usdt.1min";
    let table = db.open_table(name).unwrap();
    table.put(&mut db.store, b"k111", b"v111").unwrap();
    let result = table.get(&db.store, b"k111");
    assert_eq!(std::str::from_utf8(&result.unwrap().unwrap()).unwrap(), "v111");
    db.destroy_table(name).unwrap();
    let result = table.get(&db.store, b"k111");
    assert!(result.unwrap().is_none());
}

#[test]
fn normal_db_test_truncate_table() {
    let mut db = setup("normal_db.test_truncate_table");
    let name = "huobi.btc.usdt.1min";
    let table = db.open_table(name).unwrap();
    table.put(&mut db.store, b"k111", b"v111").unwrap();
    let result = table.get(&db.store, b"k111");
    assert_eq!(std::str::from_utf8(&result.unwrap().unwrap()).unwrap(), "v111");
    db.truncate_table(name).unwrap();
    let result = table.get(&db.store, b"k111");
    assert!(result.unwrap().is_none());
}

#[test]
fn normal_db_test_rename_table() {
    let mut db = setup("normal_db.test_rename_table");

    let old_name = "huobi.btc.usdt.1min";
    let new_name = "huobi.btc.usdt.5min";
    let table = db.open_table(old_name).unwrap();
    assert!(db.rename_table(old_name, new_name).is_ok());

    let old_name_to_id_table_inner_key = build_name_to_id_table_inner_key(&old_name);
    let id = raw_get(&db, &old_name_to_id_table_inner_key);
    assert!(id.is_none());

    let new_name_to_id_table_inner_key = build_name_to_id_table_inner_key(&new_name);
    let id = raw_get(&db, &new_name_to_id_table_inner_key);
    assert_eq!(id.unwrap(), table.id.to_vec());

    let id_to_name_table_inner_key = build_id_to_name_table_inner_key(table.id);
    let name = raw_get(&db, &id_to_name_table_inner_key);
    assert_eq!(std::str::from_utf8(&name.unwrap()).unwrap(), new_name);
}

#[test]
fn normal_db_test_get_tables() {
    let mut db = setup("normal_db.test_get_tables");
    let name0 = "huobi.btc.usdt.1min".to_owned();
    let name1 = "huobi.btc.usdt.3min".to_owned();
    let name2 = "huobi.btc.usdt.5min".to_owned();
    let table0 = db.open_table(&name0).unwrap();
    let table1 = db.open_table(&name1).unwrap();
    let table2 = db.open_table(&name2).unwrap();
    let id0 = u8a4_to_u32(table0.id);
    let id1 = u8a4_to_u32(table1.id);
    let id2 = u8a4_to_u32(table2.id);
    let result = db.get_table_infos();
    assert_eq!(result, vec![(name0, id0), (name1, id1), (name2, id2)]);
}

#[test]
fn normal_db_test_get_table_id_by_name() {
    let mut db = setup("normal_db.test_get_table_id_by_name");
    let table = db.create_table("huobi.btc.usdt.1m").unwrap();
    assert_eq!(table.id, MIN_USERLAND_TABLE_ID);
    assert_eq!(
        db.get_table_id_by_name("huobi.btc.usdt.1m").unwrap().unwrap(),
        MIN_USERLAND_TABLE_ID
    );
}

#[test]
fn normal_db_test_get_table_name_by_id() {
    let mut db = setup("normal_db.test_get_table_name_by_id");
    let table = db.create_table("huobi.btc.usdt.1m").unwrap();
    assert_eq!(table.id, MIN_USERLAND_TABLE_ID);
    assert_eq!(
        db.get_table_name_by_id(MIN_USERLAND_TABLE_ID).unwrap().unwrap(),
        "huobi.btc.usdt.1m"
    );
}

#[test]
fn normal_db_test_get_latest_sn() {
    let mut db = setup("normal_db.test_get_latest_sn");
    let table = db.create_table("huobi.btc.usdt.1m").unwrap();
    assert_eq!(table.id, MIN_USERLAND_TABLE_ID);
    let sn1 = db.get_latest_sn();
    let result = table.put(&mut db.store, b"k111", b"v111");
    assert!(result.is_ok());
    let result = table.delete(&mut db.store, b"k111");
    assert!(result.is_ok());
    let sn2 = db.get_latest_sn();
    assert_eq!(sn1 + 2, sn2);
    let mut batch = table.new_write_batch();
    batch.put(b"k111", b"v111");
    batch.delete(b"k111");
    batch.delete_range(b"k111", b"k112");
    batch.write(&mut db.store).unwrap();
    let sn3 = db.get_latest_sn();
    assert_eq!(sn2 + 3, sn3);
}

#[test]
fn test_get_write_op_batches_since() {
    let mut db = setup("normal_db.test_get_write_op_batches_since");

    let sn0 = db.get_latest_sn();
    assert_eq!(sn0, 2);

    let table = db.create_table("huobi.btc.usdt.1m").unwrap();
    assert_eq!(table.id, MIN_USERLAND_TABLE_ID);
    let table = db.create_table("huobi.btc.usdt.3m").unwrap();
    db.destroy_table("huobi.btc.usdt.3m").unwrap();

    let sn1 = db.get_latest_sn();
    assert_eq!(sn1, 9);
    assert_eq!(sn0 + 7, sn1);

    let result = table.put(&mut db.store, b"k111", b"v111");
    assert!(result.is_ok());
    let result = table.delete(&mut db.store, b"k111");
    assert!(result.is_ok());

    let sn2 = db.get_latest_sn();
    assert_eq!(sn2, 11);
    assert_eq!(sn1 + 2, sn2);

    let mut batch = table.new_write_batch();
    batch.put(b"k112", b"v112");
    batch.delete(b"k111");
    batch.delete_range(b"k111", b"k112");
    batch.write(&mut db.store).unwrap();

    let sn3 = db.get_latest_sn();
    assert_eq!(sn3, 14);
    assert_eq!(sn2 + 3, sn3);

    let mut iter = db.get_write_op_batches_since(0).unwrap();
    let mut result = vec![];
    while let Some(b) = iter.next() {
        result.push(b);
    }
    // One record per committed batch, in strictly ascending sn order:
    // placeholder, ttl flag, two registrations, a destruction, two
    // single-operation writes, and the three-operation batch.
    assert_eq!(result.len(), 8);
    let sns: Vec<u64> = result.iter().map(|b| b.sn).collect();
    assert_eq!(sns, vec![1, 2, 3, 5, 7, 10, 11, 12]);
    let last = &result[7];
    assert_eq!(last.write_ops.len(), 3);
    match last.write_ops[0].inner.as_ref().unwrap() {
        WriteOp::PutOp(p) => {
            assert_eq!(p.inner_key, vec![0, 0, 4, 1, 1, 107, 49, 49, 50]);
            assert_eq!(p.inner_value, b"v112".to_vec());
        },
        other => panic!("unexpected op: {:?}", other),
    }
    match last.write_ops[1].inner.as_ref().unwrap() {
        WriteOp::DeleteOp(d) => {
            assert_eq!(d.inner_key, vec![0, 0, 4, 1, 1, 107, 49, 49, 49]);
        },
        other => panic!("unexpected op: {:?}", other),
    }
    match last.write_ops[2].inner.as_ref().unwrap() {
        WriteOp::DeleteRangeOp(r) => {
            assert_eq!(r.begin_inner_key, vec![0, 0, 4, 1, 1, 107, 49, 49, 49]);
            assert_eq!(r.end_inner_key, vec![0, 0, 4, 1, 1, 107, 49, 49, 50]);
        },
        other => panic!("unexpected op: {:?}", other),
    }
}

#[test]
fn normal_db_test_create_table() {
    let mut db = setup("normal_db.test_create_table");
    let table = db.create_table("huobi.btc.usdt.1m").unwrap();
    assert_eq!(table.id, MIN_USERLAND_TABLE_ID);
    let table = db.create_table("huobi.btc.usdt.5m").unwrap();
    assert_eq!(table.id, [0, 0, 4, 1]);
}

#[test]
fn normal_db_test_generate_next_table_id() {
    let mut db = setup("normal_db.test_generate_next_table_id");
    let id = db.generate_next_table_id().unwrap();
    assert_eq!(id, MIN_USERLAND_TABLE_ID);
}

#[test]
fn normal_db_test_register_table() {
    let mut db = setup("normal_db.test_register_table");

    let name = "huobi.btc.usdt.1m";
    let table = db.open_table(name).unwrap();
    let result = db.register_table(name, MIN_USERLAND_TABLE_ID);
    assert!(result.is_ok());

    let name_to_id_table_inner_key = build_name_to_id_table_inner_key(&name);
    let id = raw_get(&db, &name_to_id_table_inner_key);
    assert_eq!(id.unwrap(), vec![0, 0, 4, 0]);

    let id_to_name_table_inner_key = build_id_to_name_table_inner_key(MIN_USERLAND_TABLE_ID);
    let got = raw_get(&db, &id_to_name_table_inner_key);
    assert_eq!(std::str::from_utf8(&got.unwrap()).unwrap(), "huobi.btc.usdt.1m");
    let _ = table;
}
