use tablestg::buckmap::{BuckMap, IdKey};
use tablestg::database::get_test_spd;
use tablestg::value::Value;
use tablestg::pageset::{new_writer, PageSet};
use tablestg::pagetree::PageTree;
use tablestg::store::{SData, Store};
use tablestg::vbuckmap::{IdVKey, VBuckMap};

fn page_set() -> PageSet {
    let (is_new, spd) = get_test_spd();
    assert!(is_new);
    PageSet::new(new_writer(&spd))
}

fn record(id: u64, tail: &[u8]) -> Vec<u8> {
    let mut r = id.to_le_bytes().to_vec();
    r.extend_from_slice(tail);
    r
}

#[test]
fn pageset_load_and_save() {
    let mut ps = page_set();
    let p = ps.new_page();
    assert!(p > 0);
    ps.new_pdata(p, vec![1, 2, 3]);
    assert_eq!(ps.load(p), vec![1, 2, 3]);
    assert_eq!(ps.load(0), Vec::<u8>::new());
    let size = ps.compute_size(1000);
    assert!(size >= 1000);
    assert_eq!(ps.compute_size(1 << 30), 0);
    ps.save();
    // After a save the page is read back from the store.
    assert_eq!(ps.load(p), vec![1, 2, 3]);
    ps.set_data(p, vec![9]);
    ps.set_changed(p);
    ps.save();
    assert_eq!(ps.load(p), vec![9]);
}

#[test]
fn page_tree_makes_and_finds_pages() {
    let mut ps = page_set();
    let root = ps.new_page();
    let mut pt = PageTree::new(root, 1);
    pt.resize(&mut ps, 1000);
    assert_eq!(pt.count, 1000);
    assert!(pt.new_root);
    // Nothing made yet.
    assert_eq!(pt.get(&mut ps, 5, false), 0);
    let a = pt.get(&mut ps, 5, true);
    let b = pt.get(&mut ps, 999, true);
    assert!(a != 0 && b != 0 && a != b);
    assert_eq!(pt.get(&mut ps, 5, false), a);
    assert_eq!(pt.get(&mut ps, 999, true), b);
    pt.drop_pages(&mut ps);
    assert_eq!(pt.root, 0);
    assert_eq!(pt.count, 0);
}

#[test]
fn vbuckmap_insert_get_remove() {
    let mut ps = page_set();
    let mut m = VBuckMap::new(1, &mut ps);
    for id in 0..2000u64 {
        m.insert(&IdVKey::new(id), &record(id, b"some data"), &mut ps);
    }
    assert!(m.buckets > 1);
    for id in (0..2000u64).step_by(7) {
        let (page, off, len) = m.get(&IdVKey::new(id), &mut ps).unwrap();
        assert_eq!(&page[off..off + len], &record(id, b"some data")[..]);
    }
    assert!(m.get(&IdVKey::new(5000), &mut ps).is_none());
    assert_eq!(m.remove(&IdVKey::new(10), &mut ps), 17);
    assert!(m.get(&IdVKey::new(10), &mut ps).is_none());
    assert_eq!(m.remove(&IdVKey::new(10), &mut ps), 0);
    let mut it = m.iter(&mut ps);
    let mut count = 0;
    while let Some(r) = it.next(&mut ps) {
        assert_eq!(r.len(), 17);
        count += 1;
    }
    assert_eq!(count, 1999);
    let info = m.save();
    let m2 = VBuckMap::restore(info);
    assert!(m2.get(&IdVKey::new(11), &mut ps).is_some());
}

#[test]
fn store_small_and_large_records() {
    let mut ps = page_set();
    let mut s = Store::new(&mut ps);
    let small = record(1, b"hello");
    let large = record(2, &vec![7u8; 1000]);
    s.insert(&IdVKey::new(1), &small, &mut ps);
    s.insert(&IdVKey::new(2), &large, &mut ps);
    assert_eq!(s.record_count(), 2);
    assert!(s.changed());
    match s.get(&IdVKey::new(1), &mut ps).unwrap() {
        sd @ SData::Small(..) => assert_eq!(sd.bytes(), small),
        SData::Large(_) => panic!("small record read as large"),
    }
    match s.get(&IdVKey::new(2), &mut ps).unwrap() {
        SData::Large(v) => assert_eq!(v, large),
        SData::Small(..) => panic!("large record read as small"),
    }
    assert!(s.get(&IdVKey::new(3), &mut ps).is_none());
    let mut it = s.iter(&mut ps);
    let mut seen = Vec::new();
    while let Some(r) = it.next(&s, &mut ps) {
        seen.push(r);
    }
    seen.sort();
    let mut want = vec![small.clone(), large.clone()];
    want.sort();
    assert_eq!(seen, want);
    assert!(s.remove(&IdVKey::new(2), &mut ps));
    assert!(!s.remove(&IdVKey::new(2), &mut ps));
    assert!(s.get(&IdVKey::new(2), &mut ps).is_none());
    assert_eq!(s.record_count(), 1);
    let id = s.store(&vec![3u8; 600], &mut ps);
    assert_eq!(s.fetch(id, 600, &mut ps), vec![3u8; 600]);
    s.replace(&IdVKey::new(1), &record(1, b"bye"), &mut ps);
    assert_eq!(s.get(&IdVKey::new(1), &mut ps).unwrap().bytes(), record(1, b"bye"));
}

fn test_insert(m: &mut Store, td: &[u8], id: u64, ps: &mut PageSet) {
    let x = record(id, td);
    let key = IdVKey { id };
    m.insert(&key, &x, ps);
    match m.get(&key, ps) {
        Some(sd) => assert_eq!(sd.bytes(), x),
        None => panic!("inserted record not found"),
    }
}

fn test_get(m: &mut Store, td: &[u8], id: u64, ps: &mut PageSet) {
    let x = record(id, td);
    let key = IdVKey { id };
    match m.get(&key, ps) {
        Some(sd) => assert_eq!(sd.bytes(), x),
        None => panic!("record not found"),
    }
}

fn test_store(ps: &mut PageSet) {
    let mut m = Store::new(ps);
    let n = 8192;
    let td = b"Hello George";
    for i in 0..n {
        test_insert(&mut m, td, i, ps);
    }
    for i in 0..n {
        test_get(&mut m, td, i, ps);
    }
    for _ in 0..10 {
        let mut iter = m.iter(ps);
        let mut count = 0;
        while let Some(_r) = iter.next(&m, ps) {
            count += 1;
        }
        assert_eq!(count, n);
    }
    for id in 0..n {
        let key = IdVKey { id };
        assert!(m.remove(&key, ps));
    }
    assert_eq!(m.record_count(), 0);
}

#[test]
fn test_main() {
    let mut ps = page_set();
    test_store(&mut ps);
}

#[test]
fn buckmap_insert_get_remove() {
    let mut ps = page_set();
    let mut m: BuckMap<i64> = BuckMap::new(1, &mut ps);
    assert!(m.root_changed());
    let n = 1000i64;
    for id in 0..n {
        m.insert(&IdKey { id }, id, &mut ps);
    }
    assert!(m.buckets > 1);
    for id in 0..n {
        match m.get(&IdKey { id }, &mut ps) {
            Some((a, Value::Int(v))) => {
                assert_eq!(a, id);
                assert_eq!(v, id);
            }
            _ => panic!("id not found"),
        }
    }
    assert!(m.get(&IdKey { id: n + 5 }, &mut ps).is_none());
    let in_order: Vec<i64> = m.all(&mut ps).iter().map(|p| p.0).collect();
    let mut all = m.all_addr(&mut ps);
    assert_eq!(all, in_order);
    all.sort();
    assert_eq!(all, (0..n).collect::<Vec<i64>>());
    assert_eq!(m.all(&mut ps).len(), n as usize);
    match m.remove(&IdKey { id: 17 }, &mut ps) {
        Some((17, Value::Int(17))) => {}
        _ => panic!("remove should give the value"),
    }
    assert!(m.remove(&IdKey { id: 17 }, &mut ps).is_none());
    assert!(m.get(&IdKey { id: 17 }, &mut ps).is_none());
    let info = m.save();
    let m2: BuckMap<i64> = BuckMap::restore(info);
    assert!(!m2.root_changed());
    assert!(m2.get(&IdKey { id: 18 }, &mut ps).is_some());
    m.delete(&mut ps);
    assert_eq!(m.root, 0);
}

#[test]
fn value_accessors_for_change() {
    let mut v = Value::List(vec![Value::Int(1)]);
    v.list_mut().push(Value::Int(2));
    assert_eq!(format!("{:?}", v), format!("{:?}", Value::List(vec![Value::Int(1), Value::Int(2)])));
    let mut e = Value::Enum(3, Box::new(Value::Bool(false)));
    {
        let (tag, inner) = e.en_mut();
        assert_eq!(*tag, 3);
        *inner = Value::Bool(true);
    }
    assert_eq!(format!("{:?}", e), format!("{:?}", Value::Enum(3, Box::new(Value::Bool(true)))));
    let mut l = Value::IList(vec![1]);
    l.ilist_mut().push(9);
    assert_eq!(format!("{:?}", l), format!("{:?}", Value::IList(vec![1, 9])));
}

#[test]
fn store_then_fetch_one_chunk() {
    let mut ps = page_set();
    let mut s = Store::new(&mut ps);
    let data: Vec<u8> = (0..200u8).collect();
    let id = s.store(&data, &mut ps);
    assert_eq!(s.fetch(id, data.len(), &mut ps), data);
    let next = s.store(b"x", &mut ps);
    assert_eq!(next, id + 1);
    assert_eq!(s.fetch(next, 1, &mut ps), b"x".to_vec());
    assert_eq!(s.fetch(id, data.len(), &mut ps), data);
}

#[test]
fn store_get_after_remove_small() {
    let mut ps = page_set();
    let mut s = Store::new(&mut ps);
    for id in 0..50u64 {
        s.insert(&IdVKey::new(id), &record(id, b"row"), &mut ps);
    }
    assert!(s.remove(&IdVKey::new(7), &mut ps));
    assert!(s.get(&IdVKey::new(7), &mut ps).is_none());
    assert_eq!(s.get(&IdVKey::new(8), &mut ps).unwrap().bytes(), record(8, b"row"));
    assert_eq!(s.record_count(), 49);
}

#[test]
fn stored_data_get_ids_apart() {
    let mut ps = page_set();
    let mut s = Store::new(&mut ps);
    let d1 = vec![7u8; 300]; // two chunks
    let d2 = vec![9u8; 10];
    let a = s.store(&d1, &mut ps);
    let b = s.store(&d2, &mut ps);
    assert_eq!(b, a + 2);
    assert_eq!(s.fetch(a, 300, &mut ps), d1);
    assert_eq!(s.fetch(b, 10, &mut ps), d2);
}

#[test]
fn bucket_page_fills_one_entry_per_insert() {
    let mut w = tablestg::bucket::Writer::<i64>::new(vec![0u8; tablestg::bucket::size::<i64>()]);
    assert!(!w.full());
    let mut n = 0;
    while !w.full() {
        w.insert(n, n as u64);
        n += 1;
    }
    assert_eq!(n, 217);
    let r = w.remove(&IdKey { id: 5 }, 5);
    assert!(r.is_some());
    assert!(!w.full());
}
