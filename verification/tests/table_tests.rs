use seriesdb::db::{NormalDb, TtlDb};
use seriesdb::options::Options;

fn setup(name: &str) -> NormalDb {
    NormalDb::open(name, &Options::new()).unwrap()
}

fn setup_with_ttl(name: &str, ttl: u32) -> TtlDb {
    TtlDb::open(name, ttl, &mut Options::new()).unwrap()
}

#[test]
fn normal_table_test_put() {
    let mut db = setup("normal_table.test_put");
    let name = "huobi.btc.usdt.1min";
    let table = db.open_table(name).unwrap();
    let result = table.put(&mut db.store, b"k111", b"v111");
    assert!(result.is_ok());
}

#[test]
fn normal_table_test_get() {
    let mut db = setup("normal_table.test_get");
    let name = "huobi.btc.usdt.1min";
    let table = db.open_table(name).unwrap();
    let _ = table.put(&mut db.store, b"k111", b"v111");
    let result = table.get(&db.store, b"k111");
    assert_eq!(std::str::from_utf8(&result.unwrap().unwrap()).unwrap(), "v111");
}

#[test]
fn normal_table_test_delete() {
    let mut db = setup("normal_table.test_delete");
    let name = "huobi.btc.usdt.1min";
    let table = db.open_table(name).unwrap();
    let _ = table.put(&mut db.store, b"k111", b"v111");
    let _ = table.get(&db.store, b"k111");
    let result = table.delete(&mut db.store, b"k111");
    assert!(result.is_ok());
    let result = table.get(&db.store, b"k111");
    assert!(result.unwrap().is_none());
}

#[test]
fn ttl_table_test_put() {
    let mut db = setup_with_ttl("ttl_table.test_put", 3);
    let name = "huobi.btc.usdt.1min";
    let table = db.open_table(name).unwrap();
    let result = table.put(&mut db.store, b"k111", b"v111");
    assert!(result.is_ok());
    let result = table.put_timestamped(&mut db.store, b"k222", b"v222");
    assert!(result.unwrap() > 0);
}

#[test]
fn ttl_table_test_get() {
    let mut db = setup_with_ttl("ttl_table.test_get", 3);
    let name = "huobi.btc.usdt.1min";
    let table = db.open_table(name).unwrap();
    let _ = table.put(&mut db.store, b"k111", b"v111");
    let result = table.get(&db.store, b"k111");
    assert_eq!(std::str::from_utf8(&result.unwrap().unwrap()).unwrap(), "v111");
}

#[test]
fn ttl_table_test_delete() {
    let mut db = setup_with_ttl("ttl_table.test_delete", 3);
    let name = "huobi.btc.usdt.1min";
    let table = db.open_table(name).unwrap();
    let _ = table.put(&mut db.store, b"k111", b"v111");
    let _ = table.get(&db.store, b"k111");
    let result = table.delete(&mut db.store, b"k111");
    assert!(result.is_ok());
    let result = table.get(&db.store, b"k111");
    assert!(result.unwrap().is_none());
}
