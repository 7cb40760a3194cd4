use stream_store::list::List;
use stream_store::store::Store;
use stream_store::stream::{Key, PendingReset, PendingSend, Stream};

fn stream(data: u64) -> Stream {
    Stream { next_pending_send: None, next_pending_reset: None, data }
}

fn setup(n: u32) -> (Store, Vec<Key>) {
    let mut store = Store::new();
    let mut keys = Vec::new();
    for id in 1..=n {
        keys.push(store.insert(id, stream(id as u64)).key());
    }
    (store, keys)
}

fn push_all(list: &mut List, store: &mut Store, keys: &[Key]) {
    for &k in keys {
        let p = store.resolve(k);
        list.push::<PendingSend>(store, &p);
    }
}

fn drain(list: &mut List, store: &mut Store) -> Vec<Key> {
    let mut out = Vec::new();
    while let Some(p) = list.pop::<PendingSend>(store) {
        out.push(p.key());
    }
    out
}

#[test]
fn new_list_is_empty() {
    let list = List::new();
    assert!(list.is_empty());
}

#[test]
fn pop_from_empty_returns_nothing() {
    let mut store = Store::new();
    let mut list = List::new();
    assert!(list.pop::<PendingSend>(&mut store).is_none());
}

#[test]
fn fifo_order() {
    let (mut store, keys) = setup(5);
    let mut list = List::new();
    push_all(&mut list, &mut store, &keys);
    assert!(!list.is_empty());
    let popped = drain(&mut list, &mut store);
    assert_eq!(popped, keys);
    assert!(list.is_empty());
    assert!(list.pop::<PendingSend>(&mut store).is_none());
}

#[test]
fn single_element_push_pop() {
    let (mut store, keys) = setup(1);
    let mut list = List::new();
    push_all(&mut list, &mut store, &keys);
    let p = list.pop::<PendingSend>(&mut store).expect("one element");
    assert_eq!(p.key(), keys[0]);
    assert!(list.is_empty());
}

#[test]
fn multi_queue_independence() {
    let (mut store, keys) = setup(3);
    let mut send = List::new();
    let mut reset = List::new();
    push_all(&mut send, &mut store, &keys);
    for &k in &keys {
        let p = store.resolve(k);
        reset.push::<PendingReset>(&mut store, &p);
    }
    // popping from the send queue must not disturb the reset queue
    let p = send.pop::<PendingSend>(&mut store).unwrap();
    assert_eq!(p.key(), keys[0]);
    let mut reset_order = Vec::new();
    while let Some(p) = reset.pop::<PendingReset>(&mut store) {
        reset_order.push(p.key());
    }
    assert_eq!(reset_order, keys);
    // and the send queue kept its remaining order
    let rest = drain(&mut send, &mut store);
    assert_eq!(rest, keys[1..].to_vec());
}

#[test]
fn take_transfers_the_chain() {
    let (mut store, keys) = setup(3);
    let mut list = List::new();
    push_all(&mut list, &mut store, &keys[..2]);
    let mut other = list.take();
    assert!(list.is_empty());
    assert!(!other.is_empty());
    // pushing onto the emptied list starts a fresh chain
    let p = store.resolve(keys[2]);
    list.push::<PendingSend>(&mut store, &p);
    let from_other = drain(&mut other, &mut store);
    assert_eq!(from_other, keys[..2].to_vec());
    let from_list = drain(&mut list, &mut store);
    assert_eq!(from_list, vec![keys[2]]);
}

#[test]
fn retain_splices_out_rejected_nodes() {
    let (mut store, keys) = setup(5);
    let mut list = List::new();
    push_all(&mut list, &mut store, &keys);
    list.retain::<PendingSend, _>(&mut store, |s: Stream| s.data != 2 && s.data != 4);
    let popped = drain(&mut list, &mut store);
    assert_eq!(popped, vec![keys[0], keys[2], keys[4]]);
}

#[test]
fn retain_rejecting_all_empties_the_list() {
    let (mut store, keys) = setup(4);
    let mut list = List::new();
    push_all(&mut list, &mut store, &keys);
    list.retain::<PendingSend, _>(&mut store, |_s: Stream| false);
    assert!(list.is_empty());
    assert!(list.pop::<PendingSend>(&mut store).is_none());
}

#[test]
fn retain_rejecting_all_on_single_element() {
    let (mut store, keys) = setup(1);
    let mut list = List::new();
    push_all(&mut list, &mut store, &keys);
    list.retain::<PendingSend, _>(&mut store, |_s: Stream| false);
    assert!(list.is_empty());
}

#[test]
fn retain_keeping_all_changes_nothing() {
    let (mut store, keys) = setup(3);
    let mut list = List::new();
    push_all(&mut list, &mut store, &keys);
    list.retain::<PendingSend, _>(&mut store, |_s: Stream| true);
    let popped = drain(&mut list, &mut store);
    assert_eq!(popped, keys);
}

#[test]
fn retain_dropping_head_and_tail() {
    let (mut store, keys) = setup(4);
    let mut list = List::new();
    push_all(&mut list, &mut store, &keys);
    list.retain::<PendingSend, _>(&mut store, |s: Stream| s.data == 2 || s.data == 3);
    let popped = drain(&mut list, &mut store);
    assert_eq!(popped, vec![keys[1], keys[2]]);
    // the dropped nodes' links are clear, so they may be re-queued
    let p = store.resolve(keys[0]);
    list.push::<PendingSend>(&mut store, &p);
    let p = store.resolve(keys[3]);
    list.push::<PendingSend>(&mut store, &p);
    let popped = drain(&mut list, &mut store);
    assert_eq!(popped, vec![keys[0], keys[3]]);
}

#[test]
fn retain_on_empty_list() {
    let mut store = Store::new();
    let mut list = List::new();
    list.retain::<PendingSend, _>(&mut store, |_s: Stream| false);
    assert!(list.is_empty());
}
