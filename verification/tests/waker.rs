use maniac::waker::WorkerWaker;

#[test]
fn test_waker_creation() {
    let waker = WorkerWaker::new();
    assert_eq!(waker.status(), 0);
    assert_eq!(waker.permits(), 0);
    assert_eq!(waker.sleepers(), 0);
    assert_eq!(waker.get_worker_count(), 0);
}

#[test]
fn test_mark_active() {
    let mut waker = WorkerWaker::new();
    waker.mark_active(0);
    assert_eq!(waker.status() & 1, 1);
    assert_eq!(waker.permits(), 1);
    assert_eq!(waker.snapshot_summary(), 1);
    waker.mark_active(0);
    assert_eq!(waker.permits(), 1);
    waker.mark_active(5);
    assert_eq!(waker.permits(), 2);
    assert_eq!(waker.snapshot_summary(), (1 << 0) | (1 << 5));
}

#[test]
fn test_acquire_and_release_with_io() {
    let mut waker = WorkerWaker::new();
    assert!(!waker.try_acquire());
    waker.mark_active(0);
    assert_eq!(waker.permits(), 1);
    assert!(waker.try_acquire());
    assert_eq!(waker.permits(), 0);
    assert!(!waker.try_acquire());
}

#[test]
fn release_adds_permits_and_unmark_clears_summary() {
    let mut waker = WorkerWaker::new();
    waker.release(3);
    assert_eq!(waker.permits(), 3);
    waker.mark_active(7);
    waker.try_unmark_if_empty(7, 0);
    assert_eq!(waker.snapshot_summary(), 0);
    waker.mark_active(7);
    waker.try_unmark_if_empty(7, 1);
    assert_eq!(waker.snapshot_summary(), 1 << 7);
}

#[test]
fn worker_registration_counts() {
    let mut waker = WorkerWaker::new();
    assert_eq!(waker.register_worker(), 1);
    assert_eq!(waker.register_worker(), 2);
    assert_eq!(waker.unregister_worker(), 1);
    assert_eq!(waker.get_worker_count(), 1);
}
