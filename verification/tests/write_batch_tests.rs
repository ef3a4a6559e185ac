use seriesdb::coder::U32Coder;
use seriesdb::db::{NormalDb, TtlDb};
use seriesdb::options::Options;
use seriesdb::write_batch_enhanced::WriteBatchXEnhanced;

fn setup(name: &str) -> NormalDb {
    NormalDb::open(name, &Options::new()).unwrap()
}

fn setup_with_ttl(name: &str, ttl: u32) -> TtlDb {
    TtlDb::open(name, ttl, &mut Options::new()).unwrap()
}

#[test]
fn normal_write_batch_test_write_batch() {
    let mut db = setup("normal_write_batch.test_write_batch");

    let name = "huobi.btc.usdt.1m";
    let table = db.open_table(name).unwrap();

    let mut wb = table.new_write_batch();
    wb.put(b"k1", b"v1");
    wb.put(b"k2", b"v2");
    wb.put(b"k3", b"v3");
    wb.put(b"k4", b"v4");
    wb.put(b"k5", b"v5");
    wb.delete(b"k2");
    wb.delete_range(b"k3", b"k5");
    assert!(wb.write(&mut db.store).is_ok());

    assert_eq!(table.get(&db.store, b"k1").unwrap().unwrap(), b"v1".to_vec());
    assert_eq!(table.get(&db.store, b"k5").unwrap().unwrap(), b"v5".to_vec());

    assert!(table.get(&db.store, b"k2").unwrap().is_none());
    assert!(table.get(&db.store, b"k3").unwrap().is_none());
    assert!(table.get(&db.store, b"k4").unwrap().is_none());
}

#[test]
fn ttl_write_batch_test_write_batch() {
    let mut db = setup_with_ttl("ttl_write_batch.test_write_batch", 3);

    let name = "huobi.btc.usdt.1m";
    let table = db.open_table(name).unwrap();

    let mut wb = table.new_write_batch();
    wb.put(b"k1", b"v1");
    wb.put(b"k2", b"v2");
    wb.put(b"k3", b"v3");
    wb.put(b"k4", b"v4");
    wb.put(b"k5", b"v5");
    wb.delete(b"k2");
    wb.delete_range(b"k3", b"k5");
    assert!(wb.write(&mut db.store).is_ok());

    assert_eq!(table.get(&db.store, b"k1").unwrap().unwrap(), b"v1".to_vec());
    assert_eq!(table.get(&db.store, b"k5").unwrap().unwrap(), b"v5".to_vec());

    assert!(table.get(&db.store, b"k2").unwrap().is_none());
    assert!(table.get(&db.store, b"k3").unwrap().is_none());
    assert!(table.get(&db.store, b"k4").unwrap().is_none());
}

#[test]
fn ttl_write_batch_x_test_write_batch() {
    let mut db = setup_with_ttl("ttl_write_batch_x.test_write_batch", 3);

    let name1m = "huobi.btc.usdt.1m";
    let table1m = db.open_table(name1m).unwrap();
    let name3m = "huobi.btc.usdt.3m";
    let table3m = db.open_table(name3m).unwrap();

    let mut wb = db.new_write_batch_x();
    wb.put(table1m.id(), b"k1", b"v1");
    wb.put(table1m.id(), b"k2", b"v2");
    wb.put(table1m.id(), b"k3", b"v3");
    wb.put(table3m.id(), b"k4", b"v4");
    wb.put(table3m.id(), b"k5", b"v5");

    wb.delete(table1m.id(), b"k2");
    wb.delete_range(table3m.id(), b"k3", b"k5");
    assert!(wb.write(&mut db.store).is_ok());

    assert_eq!(table1m.get(&db.store, b"k1").unwrap().unwrap(), b"v1".to_vec());
    assert_eq!(table1m.get(&db.store, b"k3").unwrap().unwrap(), b"v3".to_vec());

    assert!(table3m.get(&db.store, b"k3").unwrap().is_none());
    assert!(table3m.get(&db.store, b"k4").unwrap().is_none());
    assert_eq!(table3m.get(&db.store, b"k5").unwrap().unwrap(), b"v5".to_vec());
}

type Key = u32;
type Value = u32;

#[test]
fn write_batch_enhanced_test_write_batch_for_normal_table() {
    let mut db = setup("write_batch_enhanced.test_write_batch_for_normal_table");

    let name = "huobi.btc.usdt.1m";
    let table = db.open_table(name).unwrap().enhance::<Key, Value, U32Coder>();

    let mut wb = table.new_write_batch();
    wb.put(&1, &1);
    wb.put(&2, &2);
    wb.put(&3, &3);
    wb.put(&4, &4);
    wb.put(&5, &5);
    wb.delete(&2);
    wb.delete_range(&3, &5);
    assert!(wb.write(&mut db.store).is_ok());

    assert_eq!(table.get(&db.store, &1).unwrap().unwrap(), 1);
    assert_eq!(table.get(&db.store, &5).unwrap().unwrap(), 5);

    assert!(table.get(&db.store, &2).unwrap().is_none());
    assert!(table.get(&db.store, &3).unwrap().is_none());
    assert!(table.get(&db.store, &4).unwrap().is_none());
}

#[test]
fn write_batch_x_enhanced_test_write_batch_for_normal_table() {
    let mut db = setup("write_batch_x_enhanced.test_write_batch_for_normal_table");

    let name1m = "huobi.btc.usdt.1m";
    let table1m = db.open_table(name1m).unwrap().enhance::<Key, Value, U32Coder>();
    let name3m = "huobi.btc.usdt.3m";
    let table3m = db.open_table(name3m).unwrap().enhance::<Key, Value, U32Coder>();

    let mut wb: WriteBatchXEnhanced<Key, Value, U32Coder> =
        WriteBatchXEnhanced::new(db.new_write_batch_x());
    wb.put(table1m.id(), &1, &1);
    wb.put(table1m.id(), &2, &2);
    wb.put(table1m.id(), &3, &3);
    wb.put(table3m.id(), &4, &4);
    wb.put(table3m.id(), &5, &5);

    wb.delete(table1m.id(), &2);
    wb.delete_range(table3m.id(), &3, &5);
    assert!(wb.write(&mut db.store).is_ok());

    assert_eq!(table1m.get(&db.store, &1).unwrap().unwrap(), 1);
    assert_eq!(table1m.get(&db.store, &3).unwrap().unwrap(), 3);

    assert!(table3m.get(&db.store, &3).unwrap().is_none());
    assert!(table3m.get(&db.store, &4).unwrap().is_none());
    assert_eq!(table3m.get(&db.store, &5).unwrap().unwrap(), 5);
}
