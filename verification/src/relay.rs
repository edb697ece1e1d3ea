//! The event relay: a bounded FIFO queue of reports and its consumer step.
//!
//! Handler tasks enqueue reports; one consumer dequeues them in order and
//! converts each into exactly one event.  The queue is bounded: a full
//! queue refuses the report, and the producer waits and retries rather than
//! dropping it.  A closed sink never stops consumption: the consumer still
//! dequeues, and only the delivery is skipped.

use vstd::prelude::*;

use crate::event::{spec_event_of, to_event, Event, Report};

verus! {

/// The bounded FIFO queue between handler tasks and the consumer.
pub struct Relay {
    pub queue: Vec<Report>,
    pub capacity: usize,
}

impl Relay {
    /// The queue never holds more than its capacity.
    pub open spec fn wf(self) -> bool {
        self.queue@.len() <= self.capacity
    }

    pub fn new(capacity: usize) -> (r: Relay)
        requires
            capacity >= 1,
        ensures
            r.capacity == capacity,
            r.queue@ == Seq::<Report>::empty(),
            r.wf(),
    {
        let r = Relay { queue: Vec::new(), capacity };
        proof {
            assert(r.queue@ =~= Seq::<Report>::empty());
        }
        r
    }

    pub fn len(&self) -> (n: usize)
        ensures
            n == self.queue@.len(),
    {
        self.queue.len()
    }

    /// Enqueue one report.  Succeeds exactly when the queue has room; a
    /// refused report is the caller's to retry, never silently dropped.
    pub fn try_enqueue(&mut self, rep: Report) -> (ok: bool)
        requires
            old(self).wf(),
        ensures
            final(self).wf(),
            final(self).capacity == old(self).capacity,
            ok == (old(self).queue@.len() < old(self).capacity),
            ok ==> final(self).queue@ == old(self).queue@.push(rep),
            !ok ==> final(self).queue@ == old(self).queue@,
    {
        if self.queue.len() < self.capacity {
            self.queue.push(rep);
            true
        } else {
            false
        }
    }

    /// Dequeue the oldest report, if any: first in, first out.
    pub fn dequeue(&mut self) -> (r: Option<Report>)
        ensures
            final(self).capacity == old(self).capacity,
            old(self).wf() ==> final(self).wf(),
            old(self).queue@.len() == 0 ==> r is None && final(self).queue@ == old(self).queue@,
            old(self).queue@.len() > 0 ==> r == Some(old(self).queue@[0]) && final(self).queue@
                == old(self).queue@.drop_first(),
    {
        if self.queue.len() > 0 {
            let rep = self.queue.remove(0);
            proof {
                assert(self.queue@ =~= old(self).queue@.drop_first());
            }
            Some(rep)
        } else {
            None
        }
    }

    /// One turn of the consumer loop: dequeue the oldest report and convert
    /// it.  The report leaves the queue whether or not the sink is open;
    /// with a closed sink the event is dropped, and consumption goes on.
    pub fn consume_step(&mut self, sink_open: bool) -> (e: Option<Event>)
        ensures
            final(self).capacity == old(self).capacity,
            old(self).wf() ==> final(self).wf(),
            old(self).queue@.len() == 0 ==> e is None && final(self).queue@ == old(self).queue@,
            old(self).queue@.len() > 0 ==> final(self).queue@ == old(self).queue@.drop_first() && e
                == if sink_open {
                Some(spec_event_of(old(self).queue@[0]))
            } else {
                None
            },
    {
        match self.dequeue() {
            Some(rep) => {
                if sink_open {
                    Some(to_event(&rep))
                } else {
                    None
                }
            },
            None => None,
        }
    }

    /// Run the consumer until the queue is empty.  With an open sink every
    /// queued report yields exactly one event, in enqueue order; with a
    /// closed sink the queue still empties and nothing is delivered.
    pub fn drain(&mut self, sink_open: bool) -> (events: Vec<Event>)
        ensures
            final(self).capacity == old(self).capacity,
            final(self).queue@ == Seq::<Report>::empty(),
            final(self).wf(),
            sink_open ==> events@ == old(self).queue@.map_values(
                |rep: Report| spec_event_of(rep),
            ),
            !sink_open ==> events@ == Seq::<Event>::empty(),
    {
        let ghost q0 = self.queue@;
        let mut events: Vec<Event> = Vec::new();
        let ghost mut done: int = 0;
        proof {
            assert(self.queue@ =~= q0.subrange(0, q0.len() as int));
            assert(events@ =~= Seq::<Event>::empty());
            assert(q0.subrange(0, 0).map_values(|rep: Report| spec_event_of(rep)) =~= Seq::<
                Event,
            >::empty());
        }
        loop
            invariant
                0 <= done <= q0.len(),
                self.capacity == old(self).capacity,
                self.queue@ == q0.subrange(done, q0.len() as int),
                sink_open ==> events@ == q0.subrange(0, done).map_values(
                    |rep: Report| spec_event_of(rep),
                ),
                !sink_open ==> events@ == Seq::<Event>::empty(),
            ensures
                done == q0.len(),
                self.queue@.len() == 0,
                self.capacity == old(self).capacity,
                sink_open ==> events@ == q0.subrange(0, done).map_values(
                    |rep: Report| spec_event_of(rep),
                ),
                !sink_open ==> events@ == Seq::<Event>::empty(),
            decreases q0.len() - done,
        {
            if self.len() == 0 {
                break ;
            }
            let e = self.consume_step(sink_open);
            proof {
                assert(q0.subrange(done, q0.len() as int)[0] == q0[done]);
                assert(q0.subrange(done, q0.len() as int).drop_first() =~= q0.subrange(
                    done + 1,
                    q0.len() as int,
                ));
            }
            match e {
                Some(ev) => {
                    events.push(ev);
                },
                None => {},
            }
            proof {
                if sink_open {
                    assert(q0.subrange(0, done + 1).map_values(|rep: Report| spec_event_of(rep))
                        =~= q0.subrange(0, done).map_values(|rep: Report| spec_event_of(rep)).push(
                        spec_event_of(q0[done]),
                    ));
                }
                done = done + 1;
            }
        }
        proof {
            assert(self.queue@ =~= Seq::<Report>::empty());
        }
        events
    }
}

} // verus!
