use broadcast_channel::{broadcaster, BroadcastChannel};

use std::sync::atomic::{AtomicU32, Ordering};
use std::sync::Arc;

#[derive(Clone)]
struct SideEffectDrop(u32, Arc<AtomicU32>);
impl Drop for SideEffectDrop {
    fn drop(&mut self) {
        self.1.fetch_add(1, Ordering::SeqCst);
    }
}

#[test]
fn dropping() {
    let drops = Arc::new(AtomicU32::new(0));
    let (tx, rx) = broadcaster();
    for _ in 0..10 {
        tx.send(SideEffectDrop(1, drops.clone()));
    }
    drop(tx);
    drop(rx);
    assert_eq!(drops.load(Ordering::SeqCst), 10);
}

#[test]
fn dropping_after_recv() {
    let drops = Arc::new(AtomicU32::new(0));
    let (tx, mut rx) = broadcaster();
    for _ in 0..10 {
        tx.send(SideEffectDrop(1, drops.clone()));
    }

    for _ in 0..3 {
        rx.next();
    }

    drop(rx);
    drop(tx);
    // We drop the 10 put in the channel + 3 that are read from the receiver
    assert_eq!(drops.load(Ordering::SeqCst), 13);
}

#[test]
fn reading_frees_passed_nodes() {
    let drops = Arc::new(AtomicU32::new(0));
    let (tx, mut rx) = broadcaster();
    for i in 0..10 {
        tx.send(SideEffectDrop(i, drops.clone()));
    }
    for i in 0..10 {
        let v = rx.next().unwrap();
        assert_eq!(v.0, i);
    }
    // ten clones read and dropped, nine nodes passed and freed; the head stays
    assert_eq!(drops.load(Ordering::SeqCst), 19);
    drop(tx);
    assert_eq!(drops.load(Ordering::SeqCst), 19);
    drop(rx);
    assert_eq!(drops.load(Ordering::SeqCst), 20);
}

#[test]
fn lagging_receiver_holds_nodes() {
    let drops = Arc::new(AtomicU32::new(0));
    let (tx, mut fast) = broadcaster();
    let slow = fast.clone();
    for i in 0..4 {
        tx.send(SideEffectDrop(i, drops.clone()));
    }
    for _ in 0..4 {
        fast.next();
    }
    assert_eq!(drops.load(Ordering::SeqCst), 4);
    slow.close();
    // three nodes were only held for the slow receiver
    assert_eq!(drops.load(Ordering::SeqCst), 7);
    drop(fast);
    drop(tx);
    assert_eq!(drops.load(Ordering::SeqCst), 8);
}

#[test]
fn closing_last_receiver_keeps_only_head() {
    let drops = Arc::new(AtomicU32::new(0));
    let (tx, rx) = broadcaster();
    for i in 0..10 {
        tx.send(SideEffectDrop(i, drops.clone()));
    }
    rx.close();
    assert_eq!(drops.load(Ordering::SeqCst), 9);
    tx.send(SideEffectDrop(10, drops.clone()));
    assert_eq!(drops.load(Ordering::SeqCst), 10);
    drop(tx);
    assert_eq!(drops.load(Ordering::SeqCst), 11);
}

#[test]
fn every_value_released_once_with_many_receivers() {
    let drops = Arc::new(AtomicU32::new(0));
    let mut c: BroadcastChannel<SideEffectDrop> = BroadcastChannel::new();
    let s1 = c.attach().unwrap();
    let s2 = c.attach().unwrap();
    for i in 0..10 {
        c.send(SideEffectDrop(i, drops.clone()));
    }
    for _ in 0..5 {
        c.advance(s1);
    }
    c.detach(s2);
    for _ in 0..10 {
        c.advance(0);
    }
    // fifteen clones read and dropped; the sentinel and four values were
    // passed by every receiver left
    assert_eq!(drops.load(Ordering::SeqCst), 19);
    drop(c);
    assert_eq!(drops.load(Ordering::SeqCst), 25);
}
