use std::sync::mpsc;
use std::time::{Duration, Instant};

use netmon::caches::{cache, CachableEvent, Caches, IpAddress};
use netmon::config::Config;

fn v4(n: u32) -> IpAddress {
    IpAddress::V4(n)
}

fn busy_wait(d: Duration) {
    let start = Instant::now();
    while start.elapsed() < d {
        std::hint::spin_loop();
    }
}

#[test]
fn concurrent_producers_lose_no_updates() {
    let (sender, receiver) = mpsc::sync_channel::<CachableEvent>(4);
    let sender2 = sender.clone();
    rayon::spawn(move || {
        for k in 0..100u32 {
            sender.send(CachableEvent::IpSize(v4(k), k + 1)).unwrap();
        }
    });
    rayon::spawn(move || {
        for k in 100..200u32 {
            sender2.send(CachableEvent::IpSize(v4(k), k + 1)).unwrap();
        }
    });
    // The single applier drains the channel and applies every event.
    let mut caches = Caches::from_config(&Config::default());
    while let Ok(event) = receiver.recv() {
        cache(&mut caches, event, 1);
    }
    for k in 0..200u32 {
        assert_eq!(caches.total_data_size.map.get(&v4(k)), Some(&(k + 1)));
    }
}

#[test]
fn full_channel_blocks_producer_without_drop_or_reorder() {
    let (sender, receiver) = mpsc::sync_channel::<CachableEvent>(1);
    rayon::spawn(move || {
        // The second send blocks until the stalled consumer drains the first.
        sender.send(CachableEvent::IpSize(v4(1), 11)).unwrap();
        sender.send(CachableEvent::IpSize(v4(2), 22)).unwrap();
        sender.send(CachableEvent::IpSize(v4(3), 33)).unwrap();
    });
    // A deliberately stalled consumer.
    busy_wait(Duration::from_millis(100));
    let mut seen = Vec::new();
    while let Ok(event) = receiver.recv() {
        if let CachableEvent::IpSize(IpAddress::V4(k), size) = event {
            seen.push((k, size));
        }
    }
    assert_eq!(seen, vec![(1, 11), (2, 22), (3, 33)]);
}
