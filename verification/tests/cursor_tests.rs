use seriesdb::coder::U32Coder;
use seriesdb::cursor_enhanced::CursorEnhanced;
use seriesdb::db::NormalDb;
use seriesdb::options::Options;

fn setup(name: &str) -> NormalDb {
    NormalDb::open(name, &Options::new()).unwrap()
}

#[test]
fn normal_cursor_test_seek() {
    let mut db = setup("normal_cursor.test_seek");

    let name = "huobi.btc.usdt.1m";
    let table = db.open_table(name).unwrap();
    let name3m = "huobi.btc.usdt.3m";
    let table3m = db.open_table(name3m).unwrap();
    let name5m = "huobi.btc.usdt.5m";
    let table5m = db.open_table(name5m).unwrap();

    let k1 = b"k1";
    let v1 = b"v1";
    let k2 = b"k2";
    let v2 = b"v2";
    let k3 = b"k3";
    let k4 = b"k4";
    let v4 = b"v4";

    assert!(table.put(&mut db.store, k1, v1).is_ok());
    assert!(table.put(&mut db.store, k2, v2).is_ok());
    assert!(table.put(&mut db.store, k4, v4).is_ok());

    let mut cursor = table.new_cursor(&db.store);
    cursor.seek_to_first();
    assert!(cursor.is_valid());
    assert_eq!(k1.to_vec(), cursor.key().unwrap());

    cursor.seek_for_prev(k3);
    assert!(cursor.is_valid());
    assert_eq!(k2.to_vec(), cursor.key().unwrap());

    cursor.seek(k3);
    assert!(cursor.is_valid());
    assert_eq!(k4.to_vec(), cursor.key().unwrap());

    assert!(table5m.put(&mut db.store, k1, v1).is_ok());
    assert_eq!(table5m.get(&db.store, k1).unwrap().unwrap(), v1.to_vec());

    let mut cursor3m = table3m.new_cursor(&db.store);
    cursor3m.seek_to_first();
    assert!(!cursor3m.is_valid());
}

#[test]
fn cursor_enhanced_test_seek() {
    let mut db = setup("cursor_enhanced.test_seek");
    let name = "huobi.btc.usdt.1m";
    let table = db.open_table(name).unwrap().enhance::<u32, u32, U32Coder>();
    let k1 = 1;
    let v1 = 1;
    let k2 = 2;
    let v2 = 2;
    let k3 = 3;
    let v3 = 3;
    assert!(table.put(&mut db.store, &k1, &v1).is_ok());
    assert!(table.put(&mut db.store, &k2, &v2).is_ok());
    assert!(table.put(&mut db.store, &k3, &v3).is_ok());

    let mut cursor: CursorEnhanced<u32, u32, U32Coder> = table.new_cursor_enhanced(&db.store);

    cursor.seek_to_first();
    assert!(cursor.is_valid());
    assert_eq!(k1, cursor.key().unwrap());
    assert_eq!(v1, cursor.value().unwrap());

    cursor.seek_to_last();
    assert!(cursor.is_valid());
    assert_eq!(k3, cursor.key().unwrap());
    assert_eq!(v3, cursor.value().unwrap());

    cursor.prev();
    assert!(cursor.is_valid());
    assert_eq!(k2, cursor.key().unwrap());
    assert_eq!(v2, cursor.value().unwrap());

    cursor.next();
    assert!(cursor.is_valid());
    assert_eq!(k3, cursor.key().unwrap());
    assert_eq!(v3, cursor.value().unwrap());

    cursor.seek_for_prev(&1);
    assert!(cursor.is_valid());
    assert_eq!(k1, cursor.key().unwrap());
    assert_eq!(v1, cursor.value().unwrap());

    cursor.seek_for_prev(&0);
    assert!(!cursor.is_valid());

    cursor.seek_for_prev(&4);
    assert_eq!(k3, cursor.key().unwrap());
    assert_eq!(v3, cursor.value().unwrap());

    cursor.seek(&2);
    assert_eq!(k2, cursor.key().unwrap());
    assert_eq!(v2, cursor.value().unwrap());
}
