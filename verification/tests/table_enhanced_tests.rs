use seriesdb::coder::U32BytesCoder;
use seriesdb::db::NormalDb;
use seriesdb::options::Options;
use seriesdb::table_enhanced::TableEnhanced;

type Key = u32;
type Value = Vec<u8>;

fn setup(name: &str) -> NormalDb {
    NormalDb::open(name, &Options::new()).unwrap()
}

fn open_enhanced(db: &mut NormalDb, name: &str) -> TableEnhanced<Key, Value, U32BytesCoder> {
    db.open_table(name).unwrap().enhance::<Key, Value, U32BytesCoder>()
}

#[test]
fn test_basic() {
    let mut db = setup("table_enhanced.test_basic");
    let table = open_enhanced(&mut db, "huobi.btc.usdt.1min");

    let k1 = 1;
    let k2 = 2;
    let k3 = 3;
    let v1 = b"1".to_vec();
    let v2 = b"2".to_vec();
    let v3 = b"3".to_vec();

    assert!(table.put(&mut db.store, &k1, &v1).is_ok());
    assert_eq!(table.get(&db.store, &k1).unwrap().unwrap(), v1);

    assert!(table.delete(&mut db.store, &k1).is_ok());
    assert!(table.get(&db.store, &k1).unwrap().is_none());

    assert!(table.put(&mut db.store, &k2, &v2).is_ok());
    assert!(table.put(&mut db.store, &k3, &v3).is_ok());
    assert_eq!(table.get(&db.store, &k2).unwrap().unwrap(), v2);
    assert_eq!(table.get(&db.store, &k3).unwrap().unwrap(), v3);

    assert!(table.delete_range(&mut db.store, &k2, &k3).is_ok());
    assert!(table.get(&db.store, &k2).unwrap().is_none());
    assert_eq!(table.get(&db.store, &k3).unwrap().unwrap(), v3);
}

#[test]
fn test_get_reverse_nth() {
    let mut db = setup("table_enhanced.test_get_reverse_nth");
    let table = open_enhanced(&mut db, "huobi.btc.usdt.1min");

    let v1 = b"1".to_vec();
    let v2 = b"2".to_vec();
    let v3 = b"3".to_vec();

    table.put(&mut db.store, &1, &v1).unwrap();
    table.put(&mut db.store, &2, &v2).unwrap();
    table.put(&mut db.store, &3, &v3).unwrap();

    assert_eq!(table.get_reverse_nth(&db.store, 0).unwrap(), v3);
    assert_eq!(table.get_reverse_nth(&db.store, 1).unwrap(), v2);
    assert_eq!(table.get_reverse_nth(&db.store, 2).unwrap(), v1);
    assert!(table.get_reverse_nth(&db.store, 3).is_none());
}

#[test]
fn test_get_since() {
    let mut db = setup("table_enhanced.get_since");
    let table = open_enhanced(&mut db, "huobi.btc.usdt.1min");

    let v1 = b"1".to_vec();
    let v2 = b"2".to_vec();
    let v3 = b"3".to_vec();

    table.put(&mut db.store, &1, &v1).unwrap();
    table.put(&mut db.store, &2, &v2).unwrap();
    table.put(&mut db.store, &3, &v3).unwrap();

    assert_eq!(table.get_since(&db.store, &0, 3), vec![v1.clone(), v2.clone(), v3.clone()]);
    assert_eq!(table.get_since(&db.store, &1, 2), vec![v1.clone(), v2.clone()]);
    assert_eq!(table.get_since(&db.store, &1, 1), vec![v1.clone()]);
    assert_eq!(table.get_since(&db.store, &4, 3), Vec::<Value>::new());
}

#[test]
fn test_get_until() {
    let mut db = setup("table_enhanced.get_until");
    let table = open_enhanced(&mut db, "huobi.btc.usdt.1min");

    let v1 = b"1".to_vec();
    let v2 = b"2".to_vec();
    let v3 = b"3".to_vec();

    table.put(&mut db.store, &1, &v1).unwrap();
    table.put(&mut db.store, &2, &v2).unwrap();
    table.put(&mut db.store, &3, &v3).unwrap();

    assert_eq!(table.get_until(&db.store, &0, 3), Vec::<Value>::new());
    assert_eq!(table.get_until(&db.store, &1, 2), vec![v1.clone()]);
    assert_eq!(table.get_until(&db.store, &3, 2), vec![v2.clone(), v3.clone()]);
    assert_eq!(table.get_until(&db.store, &4, 3), vec![v1.clone(), v2.clone(), v3.clone()]);
}

#[test]
fn test_get_until_last() {
    let mut db = setup("table_enhanced.get_until_last");
    let table = open_enhanced(&mut db, "huobi.btc.usdt.1min");

    let v1 = b"1".to_vec();
    let v2 = b"2".to_vec();
    let v3 = b"3".to_vec();

    table.put(&mut db.store, &1, &v1).unwrap();
    table.put(&mut db.store, &2, &v2).unwrap();
    table.put(&mut db.store, &3, &v3).unwrap();

    assert_eq!(table.get_until_last(&db.store, 3), vec![v1.clone(), v2.clone(), v3.clone()]);
    assert_eq!(table.get_until_last(&db.store, 2), vec![v2.clone(), v3.clone()]);
    assert_eq!(table.get_until_last(&db.store, 1), vec![v3.clone()]);
    assert_eq!(table.get_until_last(&db.store, 0), Vec::<Value>::new());
}

#[test]
fn test_get_between() {
    let mut db = setup("table_enhanced.get_between");
    let table = open_enhanced(&mut db, "huobi.btc.usdt.1min");

    let v1 = b"1".to_vec();
    let v2 = b"2".to_vec();
    let v3 = b"3".to_vec();

    table.put(&mut db.store, &1, &v1).unwrap();
    table.put(&mut db.store, &2, &v2).unwrap();
    table.put(&mut db.store, &3, &v3).unwrap();

    assert_eq!(
        table.get_between(&db.store, &1, &3, 3),
        vec![v1.clone(), v2.clone(), v3.clone()]
    );
    assert_eq!(table.get_between(&db.store, &1, &3, 0), Vec::<Value>::new());
    assert_eq!(table.get_between(&db.store, &1, &3, 1), vec![v1.clone()]);
    assert_eq!(table.get_between(&db.store, &0, &2, 3), vec![v1.clone(), v2.clone()]);
}

#[test]
fn test_get_first_key() {
    let mut db = setup("table_enhanced.get_first_key");
    let table = open_enhanced(&mut db, "huobi.btc.usdt.1min");

    assert!(table.get_first_key(&db.store).is_none());

    table.put(&mut db.store, &1, &b"1".to_vec()).unwrap();
    table.put(&mut db.store, &2, &b"2".to_vec()).unwrap();
    table.put(&mut db.store, &3, &b"3".to_vec()).unwrap();

    assert_eq!(table.get_first_key(&db.store).unwrap(), 1);
}

#[test]
fn test_get_last_key() {
    let mut db = setup("table_enhanced.get_last_key");
    let table = open_enhanced(&mut db, "huobi.btc.usdt.1min");

    assert!(table.get_last_key(&db.store).is_none());

    table.put(&mut db.store, &1, &b"1".to_vec()).unwrap();
    table.put(&mut db.store, &2, &b"2".to_vec()).unwrap();
    table.put(&mut db.store, &3, &b"3".to_vec()).unwrap();

    assert_eq!(table.get_last_key(&db.store).unwrap(), 3);
}

#[test]
fn test_get_boundary_keys() {
    let mut db = setup("table_enhanced.get_boundary_keys");
    let table = open_enhanced(&mut db, "huobi.btc.usdt.1min");

    assert!(table.get_boundary_keys(&db.store).is_none());

    table.put(&mut db.store, &1, &b"1".to_vec()).unwrap();
    table.put(&mut db.store, &2, &b"2".to_vec()).unwrap();
    table.put(&mut db.store, &3, &b"3".to_vec()).unwrap();

    assert_eq!(table.get_boundary_keys(&db.store).unwrap(), (1, 3));
}
