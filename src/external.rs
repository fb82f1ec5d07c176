use std::sync::Arc;
use std::sync::Mutex;
use vstd::prelude::*;

verus! {

/// `std::sync::Mutex`, carried through the library as an opaque value.
#[verifier::external_type_specification]
#[verifier::external_body]
#[verifier::reject_recursive_types(T)]
pub struct ExMutex<T: ?Sized>(std::sync::Mutex<T>);

/// `rayon::ThreadPool`, carried through the library as an opaque value.
#[verifier::external_type_specification]
#[verifier::external_body]
pub struct ExThreadPool(rayon::ThreadPool);

/// `rayon::ThreadPoolBuildError`, mapped to the library's own error.
#[verifier::external_type_specification]
#[verifier::external_body]
pub struct ExThreadPoolBuildError(rayon::ThreadPoolBuildError);

/// Relies on `std::sync::Mutex::new`: an unlocked mutex that owns `t`.
pub assume_specification<T>[ std::sync::Mutex::<T>::new ](t: T) -> Mutex<T>;

/// Relies on `std::sync::Arc::strong_count`: the number of strong pointers to
/// the allocation that `h` points to.
#[verifier::external_body]
pub fn strong_count<T>(h: &Arc<T>) -> usize {
    Arc::strong_count(h)
}

/// Relies on `Clone for std::sync::Arc`: a new pointer to the same
/// allocation as `h`.
#[verifier::external_body]
pub(crate) fn share<T>(h: &Arc<T>) -> (r: Arc<T>)
    ensures
        r == *h,
{
    Arc::clone(h)
}

/// Relies on `std::sync::Mutex::lock`: `f` runs on the guarded value while
/// the lock is held, and the lock is released when it returns. A poisoned lock
/// still hands out its value.
#[verifier::external_body]
pub(crate) fn with_lock<T, F: FnOnce(&mut T)>(m: &Mutex<T>, f: F) {
    let mut guard = match m.lock() {
        Ok(guard) => guard,
        Err(poisoned) => poisoned.into_inner(),
    };
    f(&mut guard)
}

/// Relies on `rayon::ThreadPoolBuilder::new`, `num_threads` and `build`: a
/// pool of `threads` workers (zero lets rayon choose), or the error that
/// building it gave.
#[verifier::external_body]
pub fn build_pool(threads: usize) -> Result<rayon::ThreadPool, rayon::ThreadPoolBuildError> {
    rayon::ThreadPoolBuilder::new().num_threads(threads).build()
}

/// Relies on `rayon::ThreadPool::spawn`: `job` is queued to run once on one of
/// the pool's workers; the caller does not wait for it.
#[verifier::external_body]
pub(crate) fn spawn<F: FnOnce() + Send + 'static>(pool: &rayon::ThreadPool, job: F) {
    pool.spawn(job)
}

} // verus!
