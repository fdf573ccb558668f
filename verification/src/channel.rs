use vstd::prelude::*;
use vstd::rwlock::RwLock;
use vstd::rwlock::RwLockPredicate;
use std::sync::Arc;
use std::sync::atomic::AtomicUsize;
use std::sync::atomic::Ordering;

verus! {

broadcast use vstd::std_specs::vec::group_vec_axioms;

/// The lock predicate of the shared queue: any queue contents are fine.
pub struct ChanPred;

impl<T> RwLockPredicate<Vec<T>> for ChanPred {
    open spec fn inv(self, v: Vec<T>) -> bool {
        true
    }
}

/// Why sending or receiving on the channel failed.
#[derive(Debug, Clone, PartialEq)]
pub enum ChannelError {
    /// Every receiver is gone; the item would never be read.
    NoReceiver,
    /// Every sender is gone and nothing is left to read.
    NoSender,
    /// Nothing is queued right now, though senders still exist.
    Empty,
}

/// The state both ends share: the queue of items in flight, and live-end
/// counts kept outside the lock as the drop handlers may only touch atomics.
#[verifier::reject_recursive_types(T)]
pub struct Share<T> {
    pub queue: RwLock<Vec<T>, ChanPred>,
    pub senders: AtomicUsize,
    pub receivers: AtomicUsize,
}

/// The sending end; cloning it registers one more live sender.
#[verifier::reject_recursive_types(T)]
pub struct Sender<T> {
    pub shared: Arc<Share<T>>,
}

/// The receiving end. Items drained from the shared queue in one swap wait
/// in `cached` and are handed out before the lock is taken again.
#[verifier::reject_recursive_types(T)]
pub struct Receiver<T> {
    pub shared: Arc<Share<T>>,
    pub cached: Vec<T>,
}

/// A fresh channel with one live sender and one live receiver.
pub fn unbounded<T>() -> (r: (Sender<T>, Receiver<T>))
    ensures
        r.1.cached@.len() == 0,
{
    let queue = RwLock::new(Vec::new(), Ghost(ChanPred));
    let share = Arc::new(
        Share { queue, senders: AtomicUsize::new(1), receivers: AtomicUsize::new(1) },
    );
    let sender = Sender { shared: Arc::clone(&share) };
    let receiver = Receiver { shared: share, cached: Vec::new() };
    (sender, receiver)
}

impl<T> Sender<T> {
    /// Queues one item, unless every receiver is gone; what another end does
    /// concurrently cannot be pinned down here.
    pub fn send(&self, item: T) -> (r: Result<(), ChannelError>) {
        if self.total_receivers() == 0 {
            return Err(ChannelError::NoReceiver);
        }
        let (mut q, handle) = self.shared.queue.acquire_write();
        q.push(item);
        handle.release_write(q);
        Ok(())
    }

    /// How many receivers were live at the moment of the read.
    pub fn total_receivers(&self) -> usize {
        let sh: &Share<T> = &self.shared;
        sh.receivers.load(Ordering::SeqCst)
    }

    /// How many items sat in the shared queue at the moment of the read.
    pub fn total_queue_size(&self) -> usize {
        let sh: &Share<T> = &self.shared;
        let handle = sh.queue.acquire_read();
        let n = handle.borrow().len();
        handle.release_read();
        n
    }
}

impl<T> Receiver<T> {
    /// Hands out the oldest cached item first; with the cache empty it
    /// drains the shared queue in one swap. With nothing queued it reports
    /// `NoSender` once every sender is gone, and `Empty` otherwise rather
    /// than parking the thread.
    pub fn recv(&mut self) -> (r: Result<T, ChannelError>)
        ensures
            old(self).cached@.len() > 0 ==> {
                &&& r matches Ok(v) && v == old(self).cached@[0]
                &&& final(self).cached@ == old(self).cached@.drop_first()
            },
    {
        if self.cached.len() > 0 {
            let v = self.cached.remove(0);
            proof {
                assert(final(self).cached@ =~= old(self).cached@.drop_first());
            }
            return Ok(v);
        }
        let sh: &Share<T> = &self.shared;
        let (mut q, handle) = sh.queue.acquire_write();
        if q.len() > 0 {
            let item = q.remove(0);
            std::mem::swap(&mut self.cached, &mut q);
            handle.release_write(q);
            Ok(item)
        } else {
            handle.release_write(q);
            if self.total_senders() == 0 {
                Err(ChannelError::NoSender)
            } else {
                Err(ChannelError::Empty)
            }
        }
    }

    /// How many senders were live at the moment of the read.
    pub fn total_senders(&self) -> usize {
        let sh: &Share<T> = &self.shared;
        sh.senders.load(Ordering::SeqCst)
    }
}

impl<T> Clone for Sender<T> {
    /// A clone registers one more live sender on the shared state.
    fn clone(&self) -> (r: Self) {
        let sh: &Share<T> = &self.shared;
        let _prev = sh.senders.fetch_add(1, Ordering::AcqRel);
        Sender { shared: Arc::clone(&self.shared) }
    }
}

impl<T> Drop for Sender<T> {
    /// Relies on AtomicUsize::fetch_sub: deregisters this sender; the count
    /// is only ever read, so nothing further is claimed.
    #[verifier::external_body]
    fn drop(&mut self)
        opens_invariants none
        no_unwind
    {
        self.shared.senders.fetch_sub(1, Ordering::AcqRel);
    }
}

impl<T> Drop for Receiver<T> {
    /// Relies on AtomicUsize::fetch_sub: deregisters this receiver; the
    /// count is only ever read, so nothing further is claimed.
    #[verifier::external_body]
    fn drop(&mut self)
        opens_invariants none
        no_unwind
    {
        self.shared.receivers.fetch_sub(1, Ordering::AcqRel);
    }
}

} // verus!
