//! Background texture generation.
//!
//! Synthesis jobs run on a private, bounded worker pool so they cannot
//! stall the caller's thread or starve (or be starved by) unrelated
//! parallel work.  Each request owns a single-slot completion channel and
//! an atomic cancellation flag: the worker checks the flag before doing
//! anything, so a request cancelled before its worker starts is dropped
//! without computing a texture, and polling the channel never blocks.

use vstd::prelude::*;

use core::sync::atomic::{AtomicBool, Ordering};
use std::sync::mpsc::{Receiver, SendError, SyncSender, TryRecvError};
use std::sync::Arc;

use crate::generator::{TextureError, TextureMap};

verus! {

/// Maximum number of texture generation tasks that run concurrently.
///
/// Additional tasks are queued inside the worker pool rather than starting
/// new OS threads, bounding both CPU and peak memory usage.
pub const MAX_GENERATION_THREADS: usize = 4;

/// Declares rayon's ThreadPool so pool handles can be held in fields.
#[verifier::external_type_specification]
#[verifier::external_body]
pub struct ExThreadPool(rayon::ThreadPool);

/// Declares std's mpsc receiving end for the completion channel.
#[verifier::external_type_specification]
#[verifier::external_body]
#[verifier::reject_recursive_types(T)]
pub struct ExReceiver<T>(Receiver<T>);

/// Declares std's bounded mpsc sending end.
#[verifier::external_type_specification]
#[verifier::external_body]
#[verifier::reject_recursive_types(T)]
pub struct ExSyncSender<T>(SyncSender<T>);

/// Declares std's send error, which returns the undelivered value.
#[verifier::external_type_specification]
#[verifier::external_body]
#[verifier::reject_recursive_types(T)]
pub struct ExSendError<T>(SendError<T>);

/// Declares std's non-blocking receive error transparently, so verified
/// code can tell an empty channel from a disconnected one.
#[verifier::external_type_specification]
pub struct ExTryRecvError(TryRecvError);

/// Relies on std's mpsc::sync_channel: a bounded channel whose sender and
/// receiver ends are returned as a pair.
pub assume_specification<T>[ std::sync::mpsc::sync_channel::<T> ](bound: usize) -> (r: (
    SyncSender<T>,
    Receiver<T>,
));

/// Relies on std's SyncSender::send: delivers the value unless the
/// receiver is gone; nothing is promised of the outcome.
pub assume_specification<T>[ SyncSender::<T>::send ](s: &SyncSender<T>, t: T) -> (r: Result<
    (),
    SendError<T>,
>);

/// Relies on std's Receiver::try_recv: returns without blocking, with a
/// value, `Empty`, or `Disconnected`; nothing is promised of which.
pub assume_specification<T>[ Receiver::<T>::try_recv ](rx: &Receiver<T>) -> (r: Result<
    T,
    TryRecvError,
>);

/// Shared cancellation flag of one texture request.
#[derive(Clone)]
pub struct CancelFlag {
    inner: Arc<AtomicBool>,
}

impl CancelFlag {
    /// A fresh, unset flag.
    pub fn new() -> CancelFlag {
        CancelFlag { inner: Arc::new(AtomicBool::new(false)) }
    }

    /// Raise the flag.  Visible to every clone of the flag; a concurrent
    /// reader may still observe the old value until its next load.
    pub fn set(&self) {
        self.inner.store(true, Ordering::Relaxed);
    }

    /// Read the flag.  The result depends on concurrent writers, so
    /// nothing is promised of it.
    pub fn get(&self) -> bool {
        self.inner.load(Ordering::Relaxed)
    }
}

/// The library-private worker pool that runs texture generation jobs.
pub struct TexturePool {
    pool: rayon::ThreadPool,
}

/// Relies on rayon's ThreadPoolBuilder: `num_threads` fixes the pool's
/// thread count and `build` returns the pool, or an error this library
/// reports as `None`.
#[verifier::external_body]
fn build_pool(threads: usize) -> (r: Option<TexturePool>)
{
    let built = rayon::ThreadPoolBuilder::new()
        .num_threads(threads)
        .thread_name(|i| format!("texture-gen-{i}"))
        .build();
    match built {
        Ok(pool) => Some(TexturePool { pool }),
        Err(_) => None,
    }
}

/// Relies on rayon's ThreadPool::spawn: runs the closure once on some pool
/// thread, after earlier queued jobs; at most the pool's thread count of
/// jobs run at once.
#[verifier::external_body]
fn pool_spawn<G: FnOnce() + Send + 'static>(pool: &TexturePool, g: G)
    requires
        call_requires(g, ()),
{
    pool.pool.spawn(g);
}

impl TexturePool {
    /// Build a pool with `threads` worker threads, or `None` if the
    /// worker threads could not be started.
    pub fn new(threads: usize) -> (r: Option<TexturePool>) {
        build_pool(threads)
    }
}

/// What one non-blocking poll of a pending texture observed.
pub enum PollStatus {
    /// Generation finished; the handle can be released.
    Ready(TextureMap),
    /// Generation reported an error; the handle can be released.
    Failed(TextureError),
    /// The worker is gone without a result (it was cancelled before it
    /// started, or it died); the handle can be released.
    Dead,
    /// No result yet; poll again later.
    NotReady,
}

/// Map the outcome of one non-blocking receive to a poll status: a
/// delivered value is `Ready` or `Failed` by its own verdict, a
/// disconnected channel is a dead worker, an empty channel means the
/// result is still pending.
pub fn classify_poll(r: Result<Result<TextureMap, TextureError>, TryRecvError>) -> (s: PollStatus)
    ensures
        r matches Ok(Ok(m)) ==> s == PollStatus::Ready(m),
        r matches Ok(Err(e)) ==> s == PollStatus::Failed(e),
        r matches Err(TryRecvError::Disconnected) ==> s == PollStatus::Dead,
        r matches Err(TryRecvError::Empty) ==> s == PollStatus::NotReady,
{
    match r {
        Ok(Ok(map)) => PollStatus::Ready(map),
        Ok(Err(e)) => PollStatus::Failed(e),
        Err(TryRecvError::Disconnected) => PollStatus::Dead,
        Err(TryRecvError::Empty) => PollStatus::NotReady,
    }
}

/// An in-flight texture generation request.
///
/// The handle owns the completion channel's receiving end and the
/// cancellation flag.  Dropping the handle raises the flag, so a worker
/// that has not started yet exits without computing anything; a worker
/// already past its flag check runs to completion, but its result can no
/// longer be observed.
pub struct PendingTexture {
    rx: Receiver<Result<TextureMap, TextureError>>,
    cancelled: CancelFlag,
    is_card: bool,
}

impl PendingTexture {
    /// Whether the request renders a foliage card (clamp-to-edge sampling)
    /// rather than a tileable surface.
    pub closed spec fn card(&self) -> bool {
        self.is_card
    }

    /// Whether the request renders a foliage card.
    pub fn is_card(&self) -> (b: bool)
        ensures
            b == self.card(),
    {
        self.is_card
    }

    /// Raise the request's cancellation flag.  A worker that has not
    /// started when the write becomes visible to it never computes or
    /// delivers anything.
    pub fn cancel(&self) {
        self.cancelled.set();
    }

    /// Non-blocking poll: one attempt to receive the worker's result,
    /// mapped to a [`PollStatus`] exactly as [`classify_poll`] does.
    pub fn poll(&self) -> PollStatus {
        classify_poll(self.rx.try_recv())
    }
}

impl Drop for PendingTexture {
    /// Relies on std's AtomicBool::store, which does not unwind: dropping
    /// the handle raises the cancellation flag, so a worker that has not
    /// started yet will skip the request (best-effort cooperative
    /// cancellation; a worker already running is unaffected).
    #[verifier::external_body]
    fn drop(&mut self)
        opens_invariants none
        no_unwind
    {
        self.cancelled.inner.store(true, Ordering::Relaxed);
    }
}

/// The body of one worker job: do nothing if the request was cancelled
/// before the job started, otherwise run the synthesis closure to
/// completion and deliver its result (which goes nowhere if the handle
/// was dropped in the meantime).
fn run_job<F: FnOnce() -> Result<TextureMap, TextureError> + Send + 'static>(
    flag: CancelFlag,
    tx: SyncSender<Result<TextureMap, TextureError>>,
    f: F,
)
    requires
        call_requires(f, ()),
{
    if !flag.get() {
        let r = f();
        match tx.send(r) {
            Ok(()) => (),
            Err(_) => (),
        }
    }
}

/// Submit a synthesis closure to the pool and return the request handle.
///
/// The job first checks the cancellation flag — a request cancelled
/// before its worker starts is skipped without computing anything — and
/// otherwise runs `f` and sends the result into the handle's single-slot
/// channel, where a later [`PendingTexture::poll`] picks it up.
pub fn spawn_task<F: FnOnce() -> Result<TextureMap, TextureError> + Send + 'static>(
    pool: &TexturePool,
    f: F,
    is_card: bool,
) -> (p: PendingTexture)
    requires
        call_requires(f, ()),
    ensures
        p.card() == is_card,
{
    let cancelled = CancelFlag::new();
    let flag = cancelled.clone();
    let (tx, rx) = std::sync::mpsc::sync_channel(1);
    let job = move || run_job(flag, tx, f);
    pool_spawn(pool, job);
    PendingTexture { rx, cancelled, is_card }
}

} // verus!
