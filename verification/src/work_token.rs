//! A cancellation token: one flag that goes from active to canceled and never
//! back, shared by every loop that has to stop when it does.

use std::sync::atomic::AtomicBool;
use std::sync::{Arc, Condvar, Mutex, MutexGuard};
use vstd::prelude::*;

verus! {

/// `std::sync::Condvar`, opaque.
#[verifier::external_type_specification]
#[verifier::external_body]
pub struct ExCondvar(Condvar);

/// `std::sync::Mutex`, opaque.
#[verifier::external_type_specification]
#[verifier::external_body]
#[verifier::reject_recursive_types(T)]
pub struct ExMutex<T: ?Sized>(Mutex<T>);

/// `std::sync::MutexGuard`, opaque.
#[verifier::external_type_specification]
#[verifier::external_body]
#[verifier::reject_recursive_types(T)]
pub struct ExMutexGuard<'a, T: ?Sized + 'a>(MutexGuard<'a, T>);

/// `Condvar::new`: a condition variable that nobody waits on yet.
pub assume_specification[ Condvar::new ]() -> (cv: Condvar)
;

/// `Condvar::notify_all`: wakes every thread that waits on `cv`.
pub assume_specification[ Condvar::notify_all ](cv: &Condvar)
;

/// `Mutex::new`: an unlocked mutex around `t`.
pub assume_specification<T>[ Mutex::<T>::new ](t: T) -> (mutex: Mutex<T>)
;

/// `Mutex::lock`: blocks until the lock is held. A lock that a panicking
/// thread left poisoned is taken all the same: it guards no data.
#[verifier::external_body]
fn lock(mutex: &Mutex<()>) -> (guard: MutexGuard<'_, ()>) {
    match mutex.lock() {
        Ok(guard) => guard,
        Err(poisoned) => poisoned.into_inner(),
    }
}

/// `Condvar::wait_while`: gives up the lock and sleeps for as long as `token`
/// is active, then returns with the lock held again.
#[verifier::external_body]
fn wait_while_active<'a>(token: &'a WorkToken, guard: MutexGuard<'a, ()>) -> (held: MutexGuard<
    'a,
    (),
>) {
    match token.cv.wait_while(guard, |_| token.active()) {
        Ok(held) => held,
        Err(poisoned) => poisoned.into_inner(),
    }
}

/// The flag with what it takes to wait for it. The flag is read without the
/// lock; it is set under the lock, so that a thread about to wait cannot miss
/// the change.
pub struct WorkToken {
    ready: AtomicBool,
    mutex: Mutex<()>,
    cv: Condvar,
}

impl WorkToken {
    /// A token that is active.
    pub fn build() -> WorkToken {
        WorkToken { ready: AtomicBool::new(false), mutex: Mutex::new(()), cv: Condvar::new() }
    }

    /// Whether the flag is set, as far as this thread can see without the
    /// lock: the answer may lag behind a `done` that another thread is making.
    pub fn ready(&self) -> bool {
        self.ready.load(std::sync::atomic::Ordering::Relaxed)
    }

    /// Whether the flag is still unset.
    fn active(&self) -> bool {
        !self.ready()
    }

    /// Sets the flag and wakes every thread that waits for it.
    pub fn done(&self) {
        {
            let _guard = lock(&self.mutex);
            self.ready.store(true, std::sync::atomic::Ordering::Relaxed);
        }
        self.cv.notify_all();
    }

    /// Blocks until the flag is set; returns at once if it is already.
    pub fn wait(&self) {
        let guard = lock(&self.mutex);
        let _held = wait_while_active(self, guard);
    }
}

/// A handle on a shared `WorkToken`. Clones share the flag.
#[derive(Clone)]
pub struct Token(Arc<WorkToken>);

impl Token {
    /// A new token, active.
    pub fn build() -> Token {
        Token(Arc::new(WorkToken::build()))
    }

    /// Whether the work this token stands for is done.
    pub fn ready(&self) -> bool {
        self.0.ready()
    }

    /// Whether the token has been canceled.
    pub fn canceled(&self) -> bool {
        self.0.ready()
    }

    /// Marks the work as done.
    pub fn done(&self) {
        self.0.done()
    }

    /// Cancels the token.
    pub fn cancel(&self) {
        self.0.done()
    }

    /// Blocks until the token is canceled.
    pub fn wait(&self) {
        self.0.wait()
    }
}

} // verus!
