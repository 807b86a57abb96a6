use crate::error::WorkerError;
use vstd::prelude::*;

verus! {

/// A bounded FIFO of events.  A full queue refuses the publish; the
/// producer treats that as backpressure and skips the cycle.  The caller's
/// worker pool polls events off the front.
pub struct EventBus<T> {
    queue: Vec<T>,
    capacity: usize,
}

impl<T> EventBus<T> {
    pub closed spec fn queue_spec(&self) -> Seq<T> {
        self.queue@
    }

    pub closed spec fn capacity_spec(&self) -> int {
        self.capacity as int
    }

    pub fn new(capacity: usize) -> (r: EventBus<T>)
        ensures
            r.queue_spec() == Seq::<T>::empty(),
            r.capacity_spec() == capacity,
    {
        let r = EventBus { queue: Vec::new(), capacity };
        proof {
            assert(r.queue_spec() =~= Seq::<T>::empty());
        }
        r
    }

    pub fn len(&self) -> (r: usize)
        ensures
            r == self.queue_spec().len(),
    {
        self.queue.len()
    }

    /// Appends the event, or refuses it when the queue is at capacity.
    pub fn publish(&mut self, event: T) -> (r: Result<(), WorkerError>)
        ensures
            final(self).capacity_spec() == old(self).capacity_spec(),
            r is Ok <==> old(self).queue_spec().len() < old(self).capacity_spec(),
            r is Ok ==> final(self).queue_spec() == old(self).queue_spec().push(event),
            r is Err ==> final(self).queue_spec() == old(self).queue_spec() && r == Err::<
                (),
                WorkerError,
            >(WorkerError::EVENT_BUS_FULL),
    {
        if self.queue.len() < self.capacity {
            self.queue.push(event);
            Ok(())
        } else {
            Err(WorkerError::EVENT_BUS_FULL)
        }
    }

    /// Takes the oldest event, if any.
    pub fn poll(&mut self) -> (r: Option<T>)
        ensures
            final(self).capacity_spec() == old(self).capacity_spec(),
            old(self).queue_spec().len() == 0 ==> r is None && final(self).queue_spec() == old(
                self,
            ).queue_spec(),
            old(self).queue_spec().len() > 0 ==> (r matches Some(e) && e == old(
                self,
            ).queue_spec()[0] && final(self).queue_spec() == old(self).queue_spec().drop_first()),
    {
        if self.queue.len() == 0 {
            None
        } else {
            let e = self.queue.remove(0);
            proof {
                assert(self.queue@ =~= old(self).queue_spec().drop_first());
            }
            Some(e)
        }
    }
}

} // verus!
