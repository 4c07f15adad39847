//! The pool of workers: for each the time at which it is free again.

use super::clock::{first_min, is_first_min, lemma_first_min_is, max_of};
use vstd::prelude::*;

verus! {

#[derive(Clone, Copy, Debug, PartialEq, Eq, PartialOrd, Ord)]
pub struct Worker {
    /// The next time at which the worker is free.
    pub available_at: u64,
}

pub struct WorkersPool {
    pub workers: Vec<Worker>,
}

/// The times at which the workers `ws` are free again.
pub open spec fn times(ws: Seq<Worker>) -> Seq<nat> {
    Seq::new(ws.len(), |i: int| ws[i].available_at as nat)
}

impl View for WorkersPool {
    type V = Seq<nat>;

    open spec fn view(&self) -> Seq<nat> {
        times(self.workers@)
    }
}

impl WorkersPool {
    /// A pool of `nb_workers` workers, all free at time 0.
    pub fn new(nb_workers: u32) -> (pool: Self)
        ensures
            pool.workers@.len() == nb_workers,
            pool@ == Seq::new(nb_workers as nat, |i: int| 0nat),
    {
        let pool = WorkersPool { workers: vec![Worker { available_at: 0 }; nb_workers as usize] };
        assert(pool@ =~= Seq::new(nb_workers as nat, |i: int| 0nat));
        pool
    }

    /// The worker that is free first; of several, the first in the pool.
    pub fn get_next_available_worker(&mut self) -> (worker: &mut Worker)
        requires
            old(self).workers@.len() > 0,
        ensures
            worker.available_at == old(self)@[first_min(old(self)@)],
            is_first_min(old(self)@, first_min(old(self)@)),
            final(self).workers@ == old(self).workers@.update(first_min(old(self)@), *final(worker)),
    {
        let mut best: usize = 0;
        for i in 1..self.workers.len()
            invariant
                0 <= best < i,
                *self == *old(self),
                forall|j: int| 0 <= j < i ==> self.workers@[best as int].available_at <= self.workers@[j].available_at,
                forall|j: int| 0 <= j < best ==> self.workers@[best as int].available_at < self.workers@[j].available_at,
        {
            if self.workers[i].available_at < self.workers[best].available_at {
                best = i;
            }
        }
        proof {
            lemma_first_min_is(self@, best as int);
        }
        &mut self.workers[best]
    }

    /// The time at which the last worker is done.
    pub fn get_final_time(&self) -> (time: u64)
        requires
            self.workers@.len() > 0,
        ensures
            time == max_of(self@),
    {
        let mut time: u64 = 0;
        for i in 0..self.workers.len()
            invariant
                time == max_of(self@.take(i as int)),
        {
            proof {
                assert(self@.take(i + 1).drop_last() =~= self@.take(i as int));
            }
            if self.workers[i].available_at >= time {
                time = self.workers[i].available_at;
            }
        }
        assert(self@.take(self.workers.len() as int) =~= self@);
        time
    }
}

} // verus!
