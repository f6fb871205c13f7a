use std::sync::Arc;
use tablestg::database::get_test_spd;
use tablestg::datatype::{DataType, LazyItem};
use tablestg::pageset::{new_writer, PageSet};
use tablestg::store::Store;
use tablestg::table::Table;
use tablestg::value::Value;
use tablestg::vbuckmap::IdVKey;

fn page_set() -> PageSet {
    let (is_new, spd) = get_test_spd();
    assert!(is_new);
    PageSet::new(new_writer(&spd))
}

fn show(v: &Value) -> String {
    format!("{:?}", v)
}

fn s(x: &str) -> Value {
    Value::String(x.as_bytes().to_vec())
}

fn row_type() -> DataType {
    DataType::Struct(vec![
        (b"Id".to_vec(), DataType::Int),
        (b"Name".to_vec(), DataType::String(10)),
        (b"Data".to_vec(), DataType::Binary(4)),
        (b"Tags".to_vec(), DataType::IList(20)),
        (b"More".to_vec(), DataType::List(Box::new(DataType::String(100)), 8)),
    ])
}

fn row(id: i64, name: &str, data: Vec<u8>, tags: Vec<i64>, more: Vec<&str>) -> Value {
    Value::List(vec![
        Value::Int(id),
        s(name),
        Value::Binary(data),
        Value::IList(tags),
        Value::List(more.into_iter().map(s).collect()),
    ])
}

#[test]
fn encoding_within_limits_is_direct() {
    let mut ps = page_set();
    let mut store = Store::new(&mut ps);
    let dt = row_type();
    let v = row(1, "Ann", vec![1, 2], vec![5], vec![]);
    let b = dt.value_to_bytes(&v, &mut store, &mut ps);
    assert_eq!(b, dt.value_to_bytes0(&v));
    assert_eq!(store.extra.record_count, 0);
    assert_eq!(store.extra.next_id, 1);
    assert!(!store.changed());
    assert_eq!(show(&dt.bytes_to_value(&b, &store, &mut ps)), show(&v));
}

#[test]
fn long_values_are_stored_indirectly() {
    let mut ps = page_set();
    let mut store = Store::new(&mut ps);
    let dt = DataType::String(5);
    let long = "a string longer than five bytes, stored in chunks of the store".repeat(10);
    let v = s(&long);
    let b = dt.value_to_bytes(&v, &mut store, &mut ps);
    // A 0 length marks a reference: the length, then the 8-byte id 1.
    assert_eq!(b[0], 0);
    assert_eq!(b.len(), 1 + 2 + 8);
    assert_eq!(&b[3..11], &1u64.to_le_bytes());
    assert_eq!(store.extra.record_count, 1);
    // 630 bytes take 3 chunks of 247 bytes.
    assert_eq!(store.extra.next_id, 4);
    assert!(store.changed());
    assert_eq!(show(&dt.bytes_to_value(&b, &store, &mut ps)), show(&v));
    let back = dt.bytes_to_value_del(&b, &mut store, &mut ps);
    assert_eq!(show(&back), show(&v));
    assert_eq!(store.extra.record_count, 0);
    assert!(store.fetch(1, long.len(), &mut ps).is_empty());
}

#[test]
fn rows_with_indirect_parts_decode_back() {
    let mut ps = page_set();
    let mut store = Store::new(&mut ps);
    let dt = row_type();
    let v = row(7, "A name too long", vec![9; 50], (0..10).collect(), vec!["x", "yy", "zzz"]);
    let b = dt.value_to_bytes(&v, &mut store, &mut ps);
    // Name, Data, Tags and More are each stored indirectly.
    assert_eq!(store.extra.record_count, 4);
    assert_eq!(show(&dt.bytes_to_value(&b, &store, &mut ps)), show(&v));
    assert_eq!(show(&dt.select_value(1, &b, &store, &mut ps)), show(&s("A name too long")));
    assert_eq!(show(&dt.select_value(3, &b, &store, &mut ps)), show(&Value::IList((0..10).collect())));
    let mut ix = 0;
    let items = dt.lazy_row_items(&b, &mut ix);
    assert_eq!(items.len(), 5);
    assert!(matches!(items[0], LazyItem::Offset(0)));
    assert!(matches!(items[1], LazyItem::Offset(8)));
    assert_eq!(ix, b.len());
}

#[test]
fn malformed_bytes_decode_to_empty() {
    let mut ps = page_set();
    let store = Store::new(&mut ps);
    let dt = DataType::String(10);
    // Length 5 (prefix 6) but only 2 bytes follow.
    assert_eq!(show(&dt.bytes_to_value(&[6, b'a', b'b'], &store, &mut ps)), show(&Value::Empty));
    assert_eq!(show(&DataType::Int.bytes_to_value(&[1, 2, 3], &store, &mut ps)), show(&Value::Empty));
    assert_eq!(show(&DataType::Int.bytes_to_value(&5i64.to_le_bytes(), &store, &mut ps)), show(&Value::Int(5)));
}

#[test]
fn copies_are_equal() {
    let v = row(3, "Bob", vec![1], vec![2, 3], vec!["q"]);
    assert_eq!(show(&v.copy()), show(&v));
    let dt = row_type();
    assert_eq!(format!("{:?}", dt.copy()), format!("{:?}", dt));
    let t = Value::DataType(DataType::Tuple(vec![DataType::Int, DataType::Bool]));
    assert_eq!(show(&t.copy()), show(&t));
}

#[test]
fn table_insert_fetch_update_remove() {
    let mut ps = page_set();
    let mut t = Table::new(Arc::new(row_type()), &mut ps);
    assert!(t.changed());
    let r1 = row(1, "Ann", vec![1], vec![1, 2], vec!["a"]);
    let r2 = row(2, "A longer name", vec![2; 30], vec![], vec![]);
    assert_eq!(t.insert(&r1, &mut ps), 1);
    assert_eq!(t.insert(&r2, &mut ps), 2);
    assert_eq!(t.record_count(), 2);
    assert_eq!(show(&t.fetch(1, &mut ps).unwrap()), show(&r1));
    assert_eq!(show(&t.fetch(2, &mut ps).unwrap()), show(&r2));
    assert!(t.fetch(3, &mut ps).is_none());
    let r1b = row(1, "Anne", vec![], vec![9], vec![]);
    t.update(1, &r1b, &mut ps);
    assert_eq!(t.record_count(), 2);
    assert_eq!(show(&t.fetch(1, &mut ps).unwrap()), show(&r1b));
    let gone = t.remove(2, &mut ps).unwrap();
    assert_eq!(show(&gone), show(&r2));
    assert!(t.fetch(2, &mut ps).is_none());
    assert!(t.remove(2, &mut ps).is_none());
    assert_eq!(t.record_count(), 1);
    assert_eq!(t.inner.store.extra.record_count, 0);
}

#[test]
fn table_iter_and_lazy_rows() {
    let mut ps = page_set();
    let mut t = Table::new(Arc::new(row_type()), &mut ps);
    for id in 1..=20 {
        let name = format!("name{}", id);
        t.insert(&row(id, &name, vec![id as u8], vec![id], vec![]), &mut ps);
    }
    let mut ids = Vec::new();
    let mut it = t.iter(&mut ps);
    while let Some(v) = it.next_value(&mut ps) {
        match v {
            Value::List(items) => match items[0] {
                Value::Int(id) => ids.push(id),
                _ => panic!("id expected"),
            },
            _ => panic!("row expected"),
        }
    }
    ids.sort();
    assert_eq!(ids, (1..=20).collect::<Vec<i64>>());
    let mut it = t.iter(&mut ps);
    let mut names = Vec::new();
    while let Some(b) = it.next_ref(&mut ps) {
        let id = t.select_value(0, &b, &mut ps);
        let mut lr = t.lazy_row(&b);
        let name = lr.item(1, &mut ps);
        // A second fetch gives the kept copy.
        assert_eq!(show(&lr.item(1, &mut ps)), show(&name));
        match (id, name) {
            (Value::Int(id), Value::String(n)) => {
                assert_eq!(n, format!("name{}", id).into_bytes());
                names.push(id);
            }
            _ => panic!("unexpected values"),
        }
        let lr2 = t.lazy_row(&b);
        let nb = lr2.item_bytes(1).unwrap().to_vec();
        assert!(nb.starts_with(b"name"));
    }
    assert_eq!(names.len(), 20);
    let mut lz = t.lazy_fetch(5, &mut ps).unwrap();
    assert_eq!(show(&lz.item(3, &mut ps)), show(&Value::IList(vec![5])));
    assert_eq!(show(&lz.item(1, &mut ps)), show(&s("name5")));
    assert!(t.lazy_fetch(99, &mut ps).is_none());
    t.delete_all(&mut ps);
}

#[test]
fn computed_size_is_encoded_length() {
    let mut ps = page_set();
    let mut store = Store::new(&mut ps);
    let dt = row_type();
    for v in [
        row(1, "Ann", vec![1, 2], vec![5], vec![]),
        row(7, "A name too long", vec![9; 50], (0..10).collect(), vec!["x", "yy", "zzz"]),
    ] {
        let mut size = 0;
        dt.compute_size(&v, &mut size);
        let b = dt.value_to_bytes(&v, &mut store, &mut ps);
        assert_eq!(size, b.len());
    }
}

#[test]
fn computed_size_is_encoded_size_at_list_limit() {
    // 127 items: the length prefix of the items is one byte (127) and the
    // limit lies just above the items; the list is kept directly.
    let mut ps = page_set();
    let mut store = Store::new(&mut ps);
    let dt = DataType::List(Box::new(DataType::Int), 1017);
    let v = Value::List((0..127).map(Value::Int).collect());
    let mut size = 0;
    dt.compute_size(&v, &mut size);
    let b = dt.value_to_bytes(&v, &mut store, &mut ps);
    assert_eq!(b.len(), 1018);
    assert_eq!(size, 1018);
    assert_eq!(store.extra.record_count, 0);
}

#[test]
fn ids_are_handed_out_in_order() {
    let mut ps = page_set();
    let mut t = Table::new(Arc::new(row_type()), &mut ps);
    let a = t.new_id();
    let b = t.new_id();
    assert_eq!(a, 1);
    assert_eq!(b, a + 1);
    t.reserve_id(10);
    assert_eq!(t.new_id(), 11);
    // Reserving an id below the next one changes nothing.
    t.reserve_id(3);
    assert_eq!(t.new_id(), 12);
}

#[test]
fn insert_and_remove_mark_the_table_changed() {
    let mut ps = page_set();
    let mut t = Table::new(Arc::new(row_type()), &mut ps);
    t.inner.store.main.changed = false;
    t.insert(&row(5, "Bo", vec![], vec![], vec![]), &mut ps);
    assert!(t.inner.store.main.changed);
    assert_eq!(t.record_count(), 1);
    t.inner.store.main.changed = false;
    assert!(t.remove(5, &mut ps).is_some());
    assert!(t.inner.store.main.changed);
    assert_eq!(t.record_count(), 0);
}

#[test]
fn save_replaces_the_table_record_when_changed() {
    let mut ps = page_set();
    let sys = Store::new(&mut ps);
    ps.sys_store = sys;
    let mut t = Table::new(Arc::new(row_type()), &mut ps);
    let mut bytes = 7u64.to_le_bytes().to_vec();
    bytes.extend_from_slice(b"saved form");
    assert!(t.changed());
    t.save(7, &bytes, &mut ps);
    assert!(!t.changed);
    let key = IdVKey::new(7);
    let mut sys = std::mem::take(&mut ps.sys_store);
    let got = sys.get(&key, &mut ps).unwrap();
    assert_eq!(got.bytes(), bytes);
    ps.sys_store = sys;
    // Unchanged: nothing is written.
    t.inner.store.main.changed = false;
    t.save(7, b"other", &mut ps);
    let mut sys = std::mem::take(&mut ps.sys_store);
    assert_eq!(sys.get(&key, &mut ps).unwrap().bytes(), bytes);
    ps.sys_store = sys;
}
