use broadcast_channel::{broadcaster, BroadcastChannel, Receiver, Sender};

#[test]
fn sending() {
    let (tx, mut rx) = broadcaster();
    tx.send(1);
    tx.send(2);

    assert_eq!(Some(1), rx.next());
    assert_eq!(Some(2), rx.next());
}

#[test]
fn send_all() {
    let (tx, mut rx) = broadcaster();
    tx.send_all((0..1000).collect());
    for i in 0..1000 {
        assert_eq!(rx.next(), Some(i));
    }
}

#[test]
fn multiple_receivers() {
    let (tx, mut rx) = broadcaster();
    let mut rx2 = rx.clone();
    tx.send(1);
    tx.send(2);
    let mut rx3 = rx.clone();
    tx.send(3);
    assert_eq!(Some(1), rx.next());
    assert_eq!(Some(2), rx.next());
    assert_eq!(Some(3), rx.next());
    assert_eq!(None, rx.next());

    assert_eq!(Some(1), rx2.next());
    assert_eq!(Some(2), rx2.next());
    assert_eq!(Some(3), rx2.next());
    assert_eq!(None, rx2.next());

    assert_eq!(Some(3), rx3.next());
    assert_eq!(None, rx3.next());
}

#[test]
fn multiple_senders() {
    let (tx, mut rx) = broadcaster();
    let tx2 = tx.clone();
    tx.send_all((0..5).collect());
    tx2.send_all((5..10).collect());
    let mut i: usize = 0;
    while let Some(item) = rx.next() {
        assert_eq!(i, item as usize);
        i += 1;
    }
    assert_eq!(i, 10);
}

fn drain(rx: &mut Receiver<u32>) -> Vec<u32> {
    let mut out = Vec::new();
    while let Some(v) = rx.next() {
        out.push(v);
    }
    out
}

#[test]
fn reads_follow_sends_then_nothing() {
    let (tx, mut rx) = broadcaster();
    for v in [7u32, 3, 9, 3] {
        tx.send(v);
    }
    assert_eq!(drain(&mut rx), vec![7, 3, 9, 3]);
    assert_eq!(rx.next(), None);
    assert_eq!(rx.next(), None);
    tx.send(4);
    assert_eq!(rx.next(), Some(4));
    assert_eq!(rx.next(), None);
}

#[test]
fn empty_channel_reads_nothing() {
    let (_tx, mut rx) = broadcaster::<u32>();
    assert_eq!(rx.next(), None);
}

#[test]
fn sending_nothing_reads_nothing() {
    let (tx, mut rx) = broadcaster::<u32>();
    tx.send_all(Vec::new());
    assert_eq!(rx.next(), None);
}

#[test]
fn two_receivers_before_sends_read_the_same() {
    let (tx, mut rx) = broadcaster();
    let mut rx2 = rx.clone();
    tx.send(1);
    tx.send(2);
    assert_eq!(rx.next(), Some(1));
    assert_eq!(rx.next(), Some(2));
    assert_eq!(rx.next(), None);
    assert_eq!(rx2.next(), Some(1));
    assert_eq!(rx2.next(), Some(2));
    assert_eq!(rx2.next(), None);
}

#[test]
fn clone_after_sends_reads_only_later_values() {
    let (tx, mut rx) = broadcaster();
    tx.send_all(vec![1u32, 2, 3]);
    let mut late = rx.clone();
    tx.send_all(vec![4, 5]);
    assert_eq!(drain(&mut late), vec![4, 5]);
    assert_eq!(drain(&mut rx), vec![1, 2, 3, 4, 5]);
}

#[test]
fn clone_of_a_lagging_receiver_starts_at_head() {
    let (tx, mut rx) = broadcaster();
    tx.send_all(vec![1u32, 2, 3]);
    assert_eq!(rx.next(), Some(1));
    let mut c = rx.clone();
    assert_eq!(c.next(), None);
    tx.send(4);
    assert_eq!(c.next(), Some(4));
    assert_eq!(drain(&mut rx), vec![2, 3, 4]);
}

#[test]
fn fan_out_is_independent_of_progress() {
    let (tx, mut a) = broadcaster();
    let mut b = a.clone();
    let mut c = a.clone();
    tx.send_all(vec![10u32, 20, 30]);
    assert_eq!(a.next(), Some(10));
    assert_eq!(a.next(), Some(20));
    assert_eq!(a.next(), Some(30));
    assert_eq!(b.next(), Some(10));
    tx.send(40);
    assert_eq!(drain(&mut c), vec![10, 20, 30, 40]);
    assert_eq!(drain(&mut b), vec![20, 30, 40]);
    assert_eq!(drain(&mut a), vec![40]);
}

#[test]
fn interleaved_senders_give_one_order() {
    let (tx, mut a) = broadcaster();
    let tx2: Sender<u32> = tx.clone();
    let mut b = a.clone();
    for i in 0..5u32 {
        tx.send(i);
        tx2.send(100 + i);
    }
    let seen_a = drain(&mut a);
    let seen_b = drain(&mut b);
    assert_eq!(seen_a, seen_b);
    assert_eq!(seen_a, vec![0, 100, 1, 101, 2, 102, 3, 103, 4, 104]);
}

#[test]
fn ten_sender_handles() {
    let (tx, mut rx) = broadcaster();
    let senders: Vec<Sender<u32>> = (0..10).map(|_| tx.clone()).collect();
    for s in &senders {
        for _ in 0..10000 {
            s.send(1);
        }
    }
    for _ in 0..100000 {
        assert_eq!(rx.next(), Some(1));
    }
    assert_eq!(rx.next(), None);
}

#[test]
fn closed_receiver_leaves_others_reading() {
    let (tx, a) = broadcaster();
    let mut b = a.clone();
    tx.send_all(vec![1u32, 2]);
    a.close();
    assert_eq!(drain(&mut b), vec![1, 2]);
}

#[test]
fn engine_advance_and_attach() {
    let mut c: BroadcastChannel<u32> = BroadcastChannel::new();
    assert_eq!(c.advance(0), None);
    c.send(5);
    let s = c.attach();
    assert_eq!(s, Some(1));
    c.send(6);
    assert_eq!(c.advance(0), Some(5));
    assert_eq!(c.advance(0), Some(6));
    assert_eq!(c.advance(0), None);
    assert_eq!(c.advance(1), Some(6));
    assert_eq!(c.advance(1), None);
    assert_eq!(c.advance(2), None);
}

#[test]
fn engine_detach() {
    let mut c: BroadcastChannel<u32> = BroadcastChannel::new();
    let s = c.attach().unwrap();
    c.send_all(vec![1, 2, 3]);
    c.detach(0);
    assert_eq!(c.advance(0), None);
    assert_eq!(c.advance(s), Some(1));
    c.detach(0);
    assert_eq!(c.advance(s), Some(2));
    assert_eq!(c.advance(s), Some(3));
    assert_eq!(c.advance(s), None);
}

#[test]
fn engine_reuses_a_closed_slot() {
    let mut c: BroadcastChannel<u32> = BroadcastChannel::new();
    assert_eq!(c.attach(), Some(1));
    assert_eq!(c.attach(), Some(2));
    c.send(1);
    c.detach(1);
    assert_eq!(c.attach(), Some(1));
    c.send(2);
    assert_eq!(c.advance(1), Some(2));
    assert_eq!(c.advance(1), None);
    assert_eq!(c.attach(), Some(3));
    assert_eq!(c.advance(2), Some(1));
    assert_eq!(c.advance(2), Some(2));
}

#[test]
fn clone_after_close_reads_only_later_values() {
    let (tx, rx) = broadcaster();
    let gone = rx.clone();
    tx.send(1u32);
    gone.close();
    let mut fresh = rx.clone();
    tx.send(2);
    assert_eq!(drain(&mut fresh), vec![2]);
    let mut rx = rx;
    assert_eq!(drain(&mut rx), vec![1, 2]);
}
