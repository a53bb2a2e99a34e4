use revl::ring::{create, RingQueue};

#[test]
fn capacity_one_boundary() {
    let (tx, rx) = create::<u32, 0>();
    assert_eq!(tx.send(1), Some(()));
    assert_eq!(tx.send(2), None);
    assert_eq!(rx.recv(), Some(1));
    assert_eq!(tx.send(3), Some(()));
    assert_eq!(rx.recv(), Some(3));
    assert_eq!(rx.recv(), None);
}

#[test]
fn fresh_queue_is_empty() {
    let (_tx, rx) = create::<u32, 6>();
    assert_eq!(rx.recv(), None);
    let (_tx0, rx0) = create::<u64, 0>();
    assert_eq!(rx0.recv(), None);
}

#[test]
fn single_producer_values_arrive() {
    let (tx, rx) = create::<u32, 4>();
    for v in 1..=3 {
        assert_eq!(tx.send(v), Some(()));
    }
    let mut got: Vec<u32> = Vec::new();
    for _ in 0..3 {
        got.push(rx.recv().unwrap());
    }
    got.sort();
    assert_eq!(got, vec![1, 2, 3]);
    assert_eq!(rx.recv(), None);
}

#[test]
fn single_thread_order_is_fifo() {
    let (tx, rx) = create::<u32, 3>();
    for v in 10..18 {
        assert_eq!(tx.send(v), Some(()));
    }
    for v in 10..18 {
        assert_eq!(rx.recv(), Some(v));
    }
    assert_eq!(rx.recv(), None);
}

#[test]
fn full_at_capacity_and_reusable() {
    let (tx, rx) = create::<u32, 6>();
    for v in 0..64 {
        assert_eq!(tx.send(v), Some(()));
    }
    assert_eq!(tx.send(64), None);
    assert_eq!(rx.recv(), Some(0));
    assert_eq!(tx.send(64), Some(()));
    assert_eq!(tx.send(65), None);
    for v in 1..65 {
        assert_eq!(rx.recv(), Some(v));
    }
    assert_eq!(rx.recv(), None);
}

#[test]
fn many_rounds_wrap_the_rings() {
    let (tx, rx) = create::<u64, 2>();
    let mut next_in: u64 = 0;
    let mut next_out: u64 = 0;
    for round in 0..1000u64 {
        let burst = round % 5;
        for _ in 0..burst {
            if tx.send(next_in) == Some(()) {
                next_in += 1;
            }
        }
        for _ in 0..(round % 3) {
            match rx.recv() {
                Some(v) => {
                    assert_eq!(v, next_out);
                    next_out += 1;
                }
                None => assert_eq!(next_in, next_out),
            }
        }
        assert!(next_in - next_out <= 4);
    }
    while let Some(v) = rx.recv() {
        assert_eq!(v, next_out);
        next_out += 1;
    }
    assert_eq!(next_in, next_out);
}

#[test]
fn repeated_empty_receives_then_send() {
    let (tx, rx) = create::<u32, 4>();
    for _ in 0..200 {
        assert_eq!(rx.recv(), None);
    }
    assert_eq!(tx.send(7), Some(()));
    assert_eq!(rx.recv(), Some(7));
    for _ in 0..200 {
        assert_eq!(rx.recv(), None);
    }
    assert_eq!(tx.send(8), Some(()));
    assert_eq!(tx.send(9), Some(()));
    assert_eq!(rx.recv(), Some(8));
    assert_eq!(rx.recv(), Some(9));
}

#[test]
fn cloned_handles_share_one_queue() {
    let (tx, rx) = create::<u32, 1>();
    let tx2 = tx.clone();
    let rx2 = rx.clone();
    assert_eq!(tx.send(1), Some(()));
    assert_eq!(tx2.send(2), Some(()));
    assert_eq!(tx.send(3), None);
    assert_eq!(rx2.recv(), Some(1));
    assert_eq!(rx.recv(), Some(2));
    assert_eq!(rx2.recv(), None);
}

#[test]
fn owned_messages_move_through() {
    let (tx, rx) = create::<String, 2>();
    assert_eq!(tx.send("alpha".to_string()), Some(()));
    assert_eq!(tx.send("beta".to_string()), Some(()));
    assert_eq!(rx.recv(), Some("alpha".to_string()));
    assert_eq!(rx.recv(), Some("beta".to_string()));
    assert_eq!(rx.recv(), None);
}

#[test]
fn exclusive_queue_send_and_recv() {
    let mut q = RingQueue::<u32, 1>::new();
    assert_eq!(q.recv(), None);
    assert_eq!(q.send(5), Some(()));
    assert_eq!(q.send(6), Some(()));
    assert_eq!(q.send(7), None);
    assert_eq!(q.recv(), Some(5));
    assert_eq!(q.send(7), Some(()));
    assert_eq!(q.recv(), Some(6));
    assert_eq!(q.recv(), Some(7));
    assert_eq!(q.recv(), None);
}

#[test]
fn large_ring_fills_every_slot() {
    let (tx, rx) = create::<u32, 10>();
    for v in 0..1024 {
        assert_eq!(tx.send(v), Some(()));
    }
    assert_eq!(tx.send(1024), None);
    for v in 0..1024 {
        assert_eq!(rx.recv(), Some(v));
    }
    assert_eq!(rx.recv(), None);
}

#[test]
fn round_trip_under_load() {
    // Four producers and four consumers, each with its own handle, take
    // turns in a fixed rotation until every tagged value came through.
    const P: u64 = 4;
    const C: usize = 4;
    const K: u64 = 1000;
    let (tx, rx) = create::<u64, 6>();
    let producers: Vec<_> = (0..P).map(|_| tx.clone()).collect();
    let consumers: Vec<_> = (0..C).map(|_| rx.clone()).collect();
    let mut sent = vec![0u64; P as usize];
    let mut seen = vec![0u32; (P * K) as usize];
    let mut received: u64 = 0;
    let mut turn: u64 = 0;
    while received < P * K {
        for (p, h) in producers.iter().enumerate() {
            let burst = 1 + (turn + p as u64) % 7;
            for _ in 0..burst {
                if sent[p] < K {
                    let tag = p as u64 * K + sent[p] + 1;
                    if h.send(tag).is_some() {
                        sent[p] += 1;
                    }
                }
            }
        }
        for (c, h) in consumers.iter().enumerate() {
            let burst = 1 + (turn + c as u64) % 5;
            for _ in 0..burst {
                if let Some(tag) = h.recv() {
                    seen[(tag - 1) as usize] += 1;
                    received += 1;
                }
            }
        }
        turn += 1;
    }
    assert!(seen.iter().all(|&n| n == 1));
    assert!(sent.iter().all(|&n| n == K));
    assert_eq!(rx.recv(), None);
}

#[test]
fn try_put_gives_back_placeholder_or_message() {
    let mut q = RingQueue::<String, 0>::new();
    assert_eq!(q.try_put("a".to_string()), Ok(String::new()));
    assert_eq!(q.try_put("b".to_string()), Err("b".to_string()));
    assert_eq!(q.recv(), Some("a".to_string()));
}

#[test]
fn take_leaves_spare_or_returns_it() {
    let mut q = RingQueue::<u32, 1>::new();
    assert_eq!(q.take(9), Err(9));
    assert_eq!(q.send(4), Some(()));
    assert_eq!(q.take(9), Ok(4));
    // The freed slot, now holding the spare, goes to the back of the free
    // ring: the untouched slot is used first, then the spare comes back.
    assert_eq!(q.try_put(5), Ok(0));
    assert_eq!(q.try_put(6), Ok(9));
    assert_eq!(q.try_put(7), Err(7));
    assert_eq!(q.take(1), Ok(5));
    assert_eq!(q.take(2), Ok(6));
}

#[test]
fn drain_returns_each_message_once_in_order() {
    let mut q = RingQueue::<u32, 3>::new();
    for v in [3, 1, 4, 1, 5] {
        assert_eq!(q.send(v), Some(()));
    }
    assert_eq!(q.recv(), Some(3));
    assert_eq!(q.drain(), vec![1, 4, 1, 5]);
    assert_eq!(q.recv(), None);
    assert!(q.drain().is_empty());
    for v in 0..8 {
        assert_eq!(q.send(v), Some(()));
    }
    assert_eq!(q.drain(), (0..8).collect::<Vec<u32>>());
}
