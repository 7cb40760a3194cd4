use stream_store::list::List;
use stream_store::store::{Entry, Store};
use stream_store::stream::{PendingSend, Stream};

fn stream(data: u64) -> Stream {
    Stream { next_pending_send: None, next_pending_reset: None, data }
}

#[test]
fn new_store_finds_nothing() {
    let mut store = Store::new();
    assert!(store.find_mut(&7).is_none());
}

#[test]
fn insert_then_find() {
    let mut store = Store::new();
    let p = store.insert(5, stream(50));
    let key = p.key();
    let q = store.find_mut(&5).expect("id 5 was inserted");
    assert_eq!(q.key(), key);
    assert_eq!(store.get(key).data, 50);
}

#[test]
fn insert_returns_distinct_keys() {
    let mut store = Store::new();
    let k1 = store.insert(1, stream(10)).key();
    let k2 = store.insert(3, stream(30)).key();
    assert_ne!(k1, k2);
    assert_eq!(store.get(k1).data, 10);
    assert_eq!(store.get(k2).data, 30);
}

#[test]
fn duplicate_id_in_two_stores_is_independent() {
    let mut a = Store::new();
    let mut b = Store::new();
    let ka = a.insert(9, stream(1)).key();
    let kb = b.insert(9, stream(2)).key();
    assert_eq!(a.get(ka).data, 1);
    assert_eq!(b.get(kb).data, 2);
    assert!(a.find_mut(&9).is_some());
    assert!(b.find_mut(&9).is_some());
}

#[test]
fn set_overwrites_one_slot() {
    let mut store = Store::new();
    let k1 = store.insert(1, stream(10)).key();
    let k2 = store.insert(2, stream(20)).key();
    store.set(k1, stream(11));
    assert_eq!(store.get(k1).data, 11);
    assert_eq!(store.get(k2).data, 20);
}

#[test]
fn get_mut_edits_in_place() {
    let mut store = Store::new();
    let k = store.insert(1, stream(10)).key();
    store.get_mut(k).data = 99;
    assert_eq!(store.get(k).data, 99);
}

#[test]
fn resolve_pivots_between_entries() {
    let mut store = Store::new();
    let k1 = store.insert(1, stream(10)).key();
    let k2 = store.insert(2, stream(20)).key();
    let p = store.resolve(k1);
    assert_eq!(p.get(&store).data, 10);
    let q = p.resolve(k2);
    assert_eq!(q.get(&store).data, 20);
}

#[test]
fn ptr_into_mut_gives_the_stream() {
    let mut store = Store::new();
    let p = store.insert(4, stream(40));
    let s = p.into_mut(&mut store);
    s.data = 41;
    let k = store.find_mut(&4).unwrap().key();
    assert_eq!(store.get(k).data, 41);
}

#[test]
fn find_entry_occupied_reads_and_writes() {
    let mut store = Store::new();
    let k = store.insert(8, stream(80)).key();
    match store.find_entry(8) {
        Entry::Occupied(o) => {
            assert_eq!(o.key(), k);
            assert_eq!(o.get(&store).data, 80);
            o.get_mut(&mut store).data = 81;
            assert_eq!(o.get(&store).data, 81);
            let s = o.into_mut(&mut store);
            s.data = 82;
        },
        Entry::Vacant(_) => panic!("id 8 is bound"),
    }
    assert_eq!(store.get(k).data, 82);
}

#[test]
fn entry_insert_matches_direct_insert() {
    let mut direct = Store::new();
    let kd = direct.insert(6, stream(60)).key();

    let mut probed = Store::new();
    let kp = match probed.find_entry(6) {
        Entry::Vacant(v) => v.insert(&mut probed, stream(60)),
        Entry::Occupied(_) => panic!("id 6 is absent"),
    };

    assert_eq!(kd, kp);
    assert_eq!(direct.get(kd).data, probed.get(kp).data);
    assert_eq!(direct.find_mut(&6).unwrap().key(), probed.find_mut(&6).unwrap().key());
}

#[test]
fn for_each_visits_each_stream_exactly_once() {
    let mut store = Store::new();
    let mut keys = Vec::new();
    for id in 0..4u32 {
        keys.push(store.insert(id, stream(id as u64 * 10)).key());
    }
    // queue membership must not matter
    let mut list = List::new();
    let p0 = store.resolve(keys[0]);
    list.push::<PendingSend>(&mut store, &p0);

    store.for_each(|mut s: Stream| {
        s.data += 1;
        s
    });

    for (i, k) in keys.iter().enumerate() {
        assert_eq!(store.get(*k).data, i as u64 * 10 + 1);
    }
}
