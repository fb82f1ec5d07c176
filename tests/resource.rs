use resource_cache::AsyncMethod;
use resource_cache::Resource;
use resource_cache::ResourceProvider;
use resource_cache::ResourceStorage;
use resource_cache::StreamMethod;
use std::sync::atomic::AtomicUsize;
use std::sync::atomic::Ordering;
use std::sync::mpsc;
use std::sync::Arc;
use std::sync::Mutex;
use std::time::Duration;
use std::time::Instant;

/// Loads a location as its length, counting the loads; `update` adds one to a
/// ready value.
struct Counting {
    loads: Arc<AtomicUsize>,
}

impl ResourceProvider<usize> for Counting {
    fn acquire(&self, location: &str) -> Resource<usize> {
        self.loads.fetch_add(1, Ordering::SeqCst);
        if location == "missing.wav" {
            Resource::Fail("io-error")
        } else if location == "a" {
            Resource::Ready(42)
        } else {
            Resource::Ready(location.len())
        }
    }

    fn update(&self, resource: &mut Resource<usize>) {
        if let Resource::Ready(n) = resource {
            *n += 1;
        }
    }
}

fn counting() -> (Counting, Arc<AtomicUsize>) {
    let loads = Arc::new(AtomicUsize::new(0));
    (Counting { loads: loads.clone() }, loads)
}

fn ready_value(h: &Arc<Mutex<Resource<usize>>>) -> Option<usize> {
    match &*h.lock().unwrap() {
        Resource::Ready(n) => Some(*n),
        _ => None,
    }
}

fn is_pending(h: &Arc<Mutex<Resource<usize>>>) -> bool {
    matches!(&*h.lock().unwrap(), Resource::Load)
}

#[test]
fn same_location_same_handle() {
    let (p, loads) = counting();
    let mut s = ResourceStorage::new(p, StreamMethod::new());
    let a = s.acquire("tex.png");
    let b = s.acquire("tex.png");
    assert!(Arc::ptr_eq(&a, &b));
    assert_eq!(loads.load(Ordering::SeqCst), 1);
}

#[test]
fn distinct_locations_distinct_handles() {
    let (p, loads) = counting();
    let mut s = ResourceStorage::new(p, StreamMethod::new());
    let a = s.acquire("one");
    let b = s.acquire("three");
    assert!(!Arc::ptr_eq(&a, &b));
    *a.lock().unwrap() = Resource::Ready(100);
    assert_eq!(ready_value(&b), Some(5));
    assert_eq!(ready_value(&a), Some(100));
    assert_eq!(loads.load(Ordering::SeqCst), 2);
}

/// Blocks in `acquire` until the test lets it go.
struct Gated {
    gate: Mutex<mpsc::Receiver<()>>,
}

impl ResourceProvider<usize> for Gated {
    fn acquire(&self, _location: &str) -> Resource<usize> {
        self.gate.lock().unwrap().recv().unwrap();
        Resource::Ready(7)
    }

    fn update(&self, _resource: &mut Resource<usize>) {}
}

fn wait_ready(h: &Arc<Mutex<Resource<usize>>>) -> Option<usize> {
    let deadline = Instant::now() + Duration::from_secs(10);
    while Instant::now() < deadline {
        if let Some(n) = ready_value(h) {
            return Some(n);
        }
        std::hint::spin_loop();
    }
    None
}

#[test]
fn background_acquire_does_not_block() {
    let (tx, rx) = mpsc::channel();
    let provider = Gated { gate: Mutex::new(rx) };
    let mut s = ResourceStorage::new(provider, AsyncMethod::new(2).unwrap());
    let h = s.acquire("stream.ogg");
    assert!(is_pending(&h));
    s.update();
    assert!(is_pending(&h));
    tx.send(()).unwrap();
    assert_eq!(wait_ready(&h), Some(7));
}

#[test]
fn background_failure_lands_in_slot() {
    let (p, _) = counting();
    let mut s = ResourceStorage::new(p, AsyncMethod::new(1).unwrap());
    let h = s.acquire("missing.wav");
    let deadline = Instant::now() + Duration::from_secs(10);
    let mut seen = None;
    while Instant::now() < deadline && seen.is_none() {
        if let Resource::Fail(why) = &*h.lock().unwrap() {
            seen = Some(*why);
        }
    }
    assert_eq!(seen, Some("io-error"));
}

#[test]
fn async_method_builds_with_zero_threads() {
    assert!(AsyncMethod::new(0).is_ok());
}

#[test]
fn immediate_acquire_holds_provider_result() {
    let (p, loads) = counting();
    let mut s = ResourceStorage::new(p, StreamMethod::new());
    let h = s.acquire("abc");
    assert_eq!(loads.load(Ordering::SeqCst), 1);
    assert_eq!(ready_value(&h), Some(3));
}

#[test]
fn released_entry_is_swept_and_renewed() {
    let (p, loads) = counting();
    let mut s = ResourceStorage::new(p, StreamMethod::new());
    let first = s.acquire("abc");
    let weak = Arc::downgrade(&first);
    drop(first);
    s.update();
    assert!(weak.upgrade().is_none());
    let second = s.acquire("abc");
    assert_eq!(ready_value(&second), Some(3));
    assert_eq!(loads.load(Ordering::SeqCst), 2);
}

#[test]
fn failed_entry_is_retried_only_after_sweep() {
    let (p, loads) = counting();
    let mut s = ResourceStorage::new(p, StreamMethod::new());
    let h = s.acquire("missing.wav");
    drop(h);
    s.update();
    let h = s.acquire("missing.wav");
    assert!(matches!(&*h.lock().unwrap(), Resource::Fail("io-error")));
    assert_eq!(loads.load(Ordering::SeqCst), 2);
}

#[test]
fn held_entry_survives_updates() {
    let (p, loads) = counting();
    let mut s = ResourceStorage::new(p, StreamMethod::new());
    let h = s.acquire("abc");
    for _ in 0..5 {
        s.update();
    }
    let again = s.acquire("abc");
    assert!(Arc::ptr_eq(&h, &again));
    assert_eq!(ready_value(&h), Some(8));
    assert_eq!(loads.load(Ordering::SeqCst), 1);
}

#[test]
fn update_progresses_each_entry_once() {
    let (p, _) = counting();
    let mut s = ResourceStorage::new(p, StreamMethod::new());
    let x = s.acquire("x");
    let yy = s.acquire("yy");
    let zzz = s.acquire("zzz");
    let failed = s.acquire("missing.wav");
    s.update();
    assert_eq!(ready_value(&x), Some(2));
    assert_eq!(ready_value(&yy), Some(3));
    assert_eq!(ready_value(&zzz), Some(4));
    assert!(matches!(&*failed.lock().unwrap(), Resource::Fail("io-error")));
}

#[test]
fn update_on_empty_storage() {
    let (p, loads) = counting();
    let mut s = ResourceStorage::new(p, StreamMethod::new());
    s.update();
    s.update();
    assert_eq!(loads.load(Ordering::SeqCst), 0);
}

#[test]
fn failed_load_is_not_retried() {
    let (p, loads) = counting();
    let mut s = ResourceStorage::new(p, StreamMethod::new());
    let h = s.acquire("missing.wav");
    assert!(matches!(&*h.lock().unwrap(), Resource::Fail("io-error")));
    let again = s.acquire("missing.wav");
    assert!(Arc::ptr_eq(&h, &again));
    assert!(matches!(&*again.lock().unwrap(), Resource::Fail("io-error")));
    assert_eq!(loads.load(Ordering::SeqCst), 1);
}

#[test]
fn immediate_ready_value() {
    let (p, _) = counting();
    let mut s = ResourceStorage::new(p, StreamMethod::new());
    let h = s.acquire("a");
    assert_eq!(ready_value(&h), Some(42));
}

#[test]
fn sweep_follows_given_counts() {
    let (p, loads) = counting();
    let mut s = ResourceStorage::new(p, StreamMethod::new());
    let a = s.acquire("a");
    let b = s.acquire("b");
    let c = s.acquire("c");
    s.sweep(&vec![2, 1, 3]);
    assert!(Arc::ptr_eq(&a, &s.acquire("a")));
    assert!(!Arc::ptr_eq(&b, &s.acquire("b")));
    assert!(Arc::ptr_eq(&c, &s.acquire("c")));
    assert_eq!(loads.load(Ordering::SeqCst), 4);
}
