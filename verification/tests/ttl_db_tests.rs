use seriesdb::codec::{build_id_to_name_table_inner_key, build_name_to_id_table_inner_key,
    u8a4_to_u32};
use seriesdb::db::TtlDb;
use seriesdb::options::Options;

const MIN_USERLAND_TABLE_ID: [u8; 4] = [0, 0, 4, 0];

fn setup_with_ttl(name: &str, ttl: u32) -> TtlDb {
    TtlDb::open(name, ttl, &mut Options::new()).unwrap()
}

#[test]
fn ttl_db_test_new_table() {
    let mut db = setup_with_ttl("ttl_db.test_new_table", 3);
    assert!(db.open_table("huobi.btc.usdt.1min").is_ok());
}

#[test]
fn ttl_db_test_destroy_table() {
    let mut db = setup_with_ttl("ttl_db.test_destroy_table", 3);
    let name = "huobi.btc.usdt.1min";
    let table = db.open_table(name).unwrap();
    table.put(&mut db.store, b"k111", b"v111").unwrap();
    let result = table.get(&db.store, b"k111");
    assert_eq!(std::str::from_utf8(&result.unwrap().unwrap()).unwrap(), "v111");
    db.destroy_table(name).unwrap();
    let result = table.get(&db.store, b"k111");
    assert!(result.unwrap().is_none());
}

#[test]
fn ttl_db_test_truncate_table() {
    let mut db = setup_with_ttl("ttl_db.test_truncate_table", 3);
    let name = "huobi.btc.usdt.1min";
    let table = db.open_table(name).unwrap();
    table.put(&mut db.store, b"k111", b"v111").unwrap();
    let result = table.get(&db.store, b"k111");
    assert_eq!(std::str::from_utf8(&result.unwrap().unwrap()).unwrap(), "v111");
    db.truncate_table(name).unwrap();
    let result = table.get(&db.store, b"k111");
    assert!(result.unwrap().is_none());
}

#[test]
fn ttl_db_test_rename_table() {
    let mut db = setup_with_ttl("ttl_db.test_rename_table", 3);

    let old_name = "huobi.btc.usdt.1min";
    let new_name = "huobi.btc.usdt.5min";
    let table = db.open_table(old_name).unwrap();
    assert!(db.rename_table(old_name, new_name).is_ok());

    let old_name_to_id_table_inner_key = build_name_to_id_table_inner_key(&old_name);
    let id = db.store.get(&old_name_to_id_table_inner_key);
    assert!(id.is_none());

    let new_name_to_id_table_inner_key = build_name_to_id_table_inner_key(&new_name);
    let id = db.store.get(&new_name_to_id_table_inner_key);
    assert_eq!(id.unwrap(), table.id.to_vec());

    let id_to_name_table_inner_key = build_id_to_name_table_inner_key(table.id);
    let name = db.store.get(&id_to_name_table_inner_key);
    assert_eq!(std::str::from_utf8(&name.unwrap()).unwrap(), new_name);
}

#[test]
fn ttl_db_test_get_tables() {
    let mut db = setup_with_ttl("ttl_db.test_get_tables", 3);
    let name0 = "huobi.btc.usdt.1min".to_owned();
    let name1 = "huobi.btc.usdt.3min".to_owned();
    let name2 = "huobi.btc.usdt.5min".to_owned();
    let table0 = db.open_table(&name0).unwrap();
    let table1 = db.open_table(&name1).unwrap();
    let table2 = db.open_table(&name2).unwrap();
    let id0 = u8a4_to_u32(table0.id);
    let id1 = u8a4_to_u32(table1.id);
    let id2 = u8a4_to_u32(table2.id);
    let result = db.get_table_infos();
    assert_eq!(result, vec![(name0, id0), (name1, id1), (name2, id2)]);
}

#[test]
fn ttl_db_test_get_table_id_by_name() {
    let mut db = setup_with_ttl("ttl_db.test_get_table_id_by_name", 3);
    let table = db.create_table("huobi.btc.usdt.1m").unwrap();
    assert_eq!(table.id, MIN_USERLAND_TABLE_ID);
    assert_eq!(
        db.get_table_id_by_name("huobi.btc.usdt.1m").unwrap().unwrap(),
        MIN_USERLAND_TABLE_ID
    );
}

#[test]
fn ttl_db_test_get_table_name_by_id() {
    let mut db = setup_with_ttl("ttl_db.test_get_table_name_by_id", 3);
    let table = db.create_table("huobi.btc.usdt.1m").unwrap();
    assert_eq!(table.id, MIN_USERLAND_TABLE_ID);
    assert_eq!(
        db.get_table_name_by_id(MIN_USERLAND_TABLE_ID).unwrap().unwrap(),
        "huobi.btc.usdt.1m"
    );
}

#[test]
fn ttl_db_test_get_latest_sn() {
    let mut db = setup_with_ttl("ttl_db.test_get_latest_sn", 3);
    let table = db.create_table("huobi.btc.usdt.1m").unwrap();
    assert_eq!(table.id, MIN_USERLAND_TABLE_ID);
    let sn1 = db.get_latest_sn();
    let result = table.put(&mut db.store, b"k111", b"v111");
    assert!(result.is_ok());
    let result = table.delete(&mut db.store, b"k111");
    assert!(result.is_ok());
    let sn2 = db.get_latest_sn();
    assert_eq!(sn1 + 2, sn2);
    let mut batch = table.new_write_batch();
    batch.put(b"k111", b"v111");
    batch.delete(b"k111");
    batch.delete_range(b"k111", b"k112");
    batch.write(&mut db.store).unwrap();
    let sn3 = db.get_latest_sn();
    assert_eq!(sn2 + 3, sn3);
}

#[test]
fn ttl_db_test_create_table() {
    let mut db = setup_with_ttl("ttl_db.test_create_table", 3);
    let table = db.create_table("huobi.btc.usdt.1m").unwrap();
    assert_eq!(table.id, MIN_USERLAND_TABLE_ID);
    let table = db.create_table("huobi.btc.usdt.5m").unwrap();
    assert_eq!(table.id, [0, 0, 4, 1]);
}

#[test]
fn ttl_db_test_generate_next_table_id() {
    let mut db = setup_with_ttl("ttl_db.test_generate_next_table_id", 3);
    let id = db.generate_next_table_id().unwrap();
    assert_eq!(id, MIN_USERLAND_TABLE_ID);
}

#[test]
fn ttl_db_test_register_table() {
    let mut db = setup_with_ttl("ttl_db.test_register_table", 3);

    let name = "huobi.btc.usdt.1m";
    let table = db.open_table(name).unwrap();
    let result = db.register_table(name, MIN_USERLAND_TABLE_ID);
    assert!(result.is_ok());

    let name_to_id_table_inner_key = build_name_to_id_table_inner_key(&name);
    let id = db.store.get(&name_to_id_table_inner_key);
    assert_eq!(id.unwrap(), vec![0, 0, 4, 0]);

    let id_to_name_table_inner_key = build_id_to_name_table_inner_key(MIN_USERLAND_TABLE_ID);
    let got = db.store.get(&id_to_name_table_inner_key);
    assert_eq!(std::str::from_utf8(&got.unwrap()).unwrap(), "huobi.btc.usdt.1m");
    let _ = table;
}
