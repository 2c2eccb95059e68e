use audio_monitoring::relay::{CountingReadWrapper, FanOutRelay};
use audio_monitoring::session::{CancelObserver, CancellationSignal};

#[test]
fn failed_consumer_does_not_starve_the_other() {
    let mut relay = FanOutRelay::new(4);
    let upstream: Vec<u8> = (0u8..12).collect();
    let chunks = relay.push_bytes(&upstream);
    assert_eq!(chunks.len(), 3);
    let mut healthy: Vec<u8> = Vec::new();
    let mut failing: Vec<u8> = Vec::new();
    for (i, chunk) in chunks.iter().enumerate() {
        let failing_ok = i != 1;
        if failing_ok {
            failing.extend_from_slice(chunk);
        }
        healthy.extend_from_slice(chunk);
        assert!(relay.after_chunk(failing_ok, true, false));
    }
    assert_eq!(healthy, upstream);
    assert_eq!(failing.len(), 8);
    assert_eq!(relay.delivered_companion(), 3);
    assert_eq!(relay.delivered_audio(), 2);
    assert_eq!(relay.forwarded(), 3);
    assert!(relay.is_running());
}

#[test]
fn chunks_wait_for_a_full_chunk() {
    let mut relay = FanOutRelay::new(4);
    assert!(relay.push_bytes(&[1, 2, 3]).is_empty());
    let chunks = relay.push_bytes(&[4, 5, 6, 7, 8, 9]);
    assert_eq!(chunks, vec![vec![1, 2, 3, 4], vec![5, 6, 7, 8]]);
    let chunks = relay.push_bytes(&[10, 11, 12]);
    assert_eq!(chunks, vec![vec![9, 10, 11, 12]]);
}

#[test]
fn relay_stops_on_cancel_or_end() {
    let mut relay = FanOutRelay::new(2);
    assert!(!relay.after_chunk(true, true, true));
    assert!(!relay.is_running());
    let mut relay = FanOutRelay::new(2);
    relay.on_upstream_end();
    assert!(!relay.is_running());
    assert_eq!(relay.forwarded(), 0);
}

#[test]
fn counting_wrapper_counts_reads() {
    let mut w = CountingReadWrapper::new(vec![9u8]);
    assert_eq!(w.bytes_observed(), 0);
    w.record_read(4410);
    w.record_read(10);
    assert_eq!(w.bytes_observed(), 4420);
    assert_eq!(w.counter().load(std::sync::atomic::Ordering::Relaxed), 4420);
    w.record_read(usize::MAX);
    assert_eq!(w.bytes_observed(), usize::MAX);
    w.inner_mut().push(1);
    assert_eq!(w.inner_mut().len(), 2);
}

#[test]
fn cancellation_fires_once() {
    let mut signal = CancellationSignal::new();
    let mut a = CancelObserver::new();
    let mut b = CancelObserver::new();
    assert!(!a.poll(&signal));
    assert!(signal.fire());
    assert!(!signal.fire());
    assert!(signal.is_fired());
    assert!(a.poll(&signal));
    assert!(!a.poll(&signal));
    assert!(b.poll(&signal));
    assert!(!b.poll(&signal));
}
