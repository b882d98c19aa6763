//! Round-robin hand-out of chunks to the transcription workers' queues.
use vstd::prelude::*;
use std::sync::mpsc::SyncSender;
use crate::chunking::AudioChunk;
use crate::queue::{offer_chunk, Offer, OfferReceipt};

verus! {

/// Chooses the worker queues to offer chunks to, in turn.
pub struct RoundRobin {
    next_worker: usize,
    worker_count: usize,
    offered: Ghost<Seq<int>>,
    receipts: Vec<OfferReceipt>,
}

/// What to do after offering a chunk to a worker.
#[derive(Debug, PartialEq, Eq)]
pub enum OfferStep {
    /// This worker took the chunk.
    Taken(usize),
    /// The worker refused; offer the chunk to this worker next.
    TryNext(usize),
    /// Every worker has refused; drop the chunk.
    GiveUp,
}

impl View for RoundRobin {
    type V = (nat, nat, Seq<int>);

    /// The worker tried first for the next chunk, the number of workers, and
    /// the workers offered the chunk of the latest `dispatch`, in the order
    /// they were offered it.
    closed spec fn view(&self) -> (nat, nat, Seq<int>) {
        (self.next_worker as nat, self.worker_count as nat, self.offered@)
    }
}

/// Whether `receipts` records, offer by offer, that the queue offered the
/// chunk was that of the worker listed in `offered` at the same place.
pub open spec fn offers_recorded(
    offered: Seq<int>,
    receipts: Seq<OfferReceipt>,
    workers: Seq<SyncSender<AudioChunk>>,
) -> bool {
    &&& receipts.len() == offered.len()
    &&& forall|a: int|
        0 <= a < receipts.len() ==> #[trigger] receipts[a].queue() == workers[offered[a]]
}

/// The worker offered a chunk on attempt `attempt`, when worker `next` is to
/// be tried first among `count`.
pub open spec fn worker_at(next: nat, count: nat, attempt: int) -> int {
    (next + attempt) % (count as int)
}

impl RoundRobin {
    /// The records of the offers made by the latest `dispatch`, one per
    /// worker offered the chunk, in the same order as the view's third part.
    pub closed spec fn receipts(&self) -> Seq<OfferReceipt> {
        self.receipts@
    }

    #[verifier::type_invariant]
    spec fn next_is_a_worker(self) -> bool {
        &&& self.worker_count > 0
        &&& self.next_worker < self.worker_count
    }

    /// A dispatcher over `worker_count` workers that tries worker 0 first.
    pub fn new(worker_count: usize) -> (rr: Self)
        requires
            worker_count > 0,
        ensures
            rr@ == (0nat, worker_count as nat, Seq::<int>::empty()),
            rr.receipts().len() == 0,
    {
        RoundRobin { next_worker: 0, worker_count, offered: Ghost(Seq::empty()), receipts: Vec::new() }
    }

    /// The worker tried first for the next chunk.
    pub fn next_worker(&self) -> (w: usize)
        ensures
            w == self@.0,
            w < self@.1,
    {
        proof {
            use_type_invariant(self);
        }
        self.next_worker
    }

    /// The worker to offer a chunk to on attempt `attempt` (counting from
    /// 0): the workers in turn, starting at the next one and wrapping round.
    pub fn worker_for_attempt(&self, attempt: usize) -> (w: usize)
        requires
            attempt < self@.1,
        ensures
            w == worker_at(self@.0, self@.1, attempt as int),
            w < self@.1,
    {
        proof {
            use_type_invariant(self);
        }
        let to_end = self.worker_count - self.next_worker;
        if attempt >= to_end {
            proof {
                let c = self.worker_count as int;
                let x = self.next_worker + attempt;
                vstd::arithmetic::div_mod::lemma_mod_add_multiples_vanish(x - c, c);
                vstd::arithmetic::div_mod::lemma_small_mod((x - c) as nat, c as nat);
            }
            attempt - to_end
        } else {
            proof {
                vstd::arithmetic::div_mod::lemma_small_mod((self.next_worker + attempt) as nat, self.worker_count as nat);
            }
            self.next_worker + attempt
        }
    }

    /// Decides what follows the offer of a chunk to the worker of attempt
    /// `attempt`, given whether that worker took it.
    ///
    /// If it took the chunk, that worker is the answer and the worker after
    /// it (wrapping round) will be tried first for the next chunk. If it
    /// refused, the chunk goes to the worker of the following attempt, or,
    /// when every worker has had its attempt, is given up; the order is then
    /// unchanged. The worker is recorded as offered.
    pub fn after_offer(&mut self, attempt: usize, accepted: bool) -> (step: OfferStep)
        requires
            attempt < old(self)@.1,
        ensures
            final(self)@.1 == old(self)@.1,
            final(self).receipts() == old(self).receipts(),
            final(self)@.2 == old(self)@.2.push(
                worker_at(old(self)@.0, old(self)@.1, attempt as int),
            ),
            ({
                let w = worker_at(old(self)@.0, old(self)@.1, attempt as int);
                &&& accepted ==> step == OfferStep::Taken(w as usize) && final(self)@.0 == (w + 1)
                    % (old(self)@.1 as int)
                &&& !accepted && attempt + 1 < old(self)@.1 ==> step == OfferStep::TryNext(
                    worker_at(old(self)@.0, old(self)@.1, attempt + 1) as usize,
                ) && final(self)@.0 == old(self)@.0
                &&& !accepted && attempt + 1 >= old(self)@.1 ==> step == OfferStep::GiveUp
                    && final(self)@.0 == old(self)@.0
            }),
    {
        proof {
            use_type_invariant(&*self);
        }
        let count = self.worker_count;
        let worker_index = self.worker_for_attempt(attempt);
        let ghost offered = self.offered@.push(worker_index as int);
        if accepted {
            let following = if worker_index + 1 == count {
                0
            } else {
                worker_index + 1
            };
            proof {
                if worker_index + 1 == count {
                    vstd::arithmetic::div_mod::lemma_mod_self_0(count as int);
                } else {
                    vstd::arithmetic::div_mod::lemma_small_mod((worker_index + 1) as nat, count as nat);
                }
            }
            self.next_worker = following;
            self.offered = Ghost(offered);
            OfferStep::Taken(worker_index)
        } else if attempt + 1 < count {
            let next_index = self.worker_for_attempt(attempt + 1);
            self.offered = Ghost(offered);
            OfferStep::TryNext(next_index)
        } else {
            self.offered = Ghost(offered);
            OfferStep::GiveUp
        }
    }

    /// Offers `chunk` to the workers' queues in turn, starting at the next
    /// worker, until one takes it.
    ///
    /// The workers offered the chunk are those of attempts `0, 1, ...`, in
    /// that order (the view's third part), stopping at the first that takes it. If
    /// worker `w` takes it, `w` was the last offered, `Ok(w)` comes back,
    /// and the worker after `w` (wrapping round) is tried first next time.
    /// The chunk comes back in `Err` only after every worker has been offered
    /// it and refused; the order is then unchanged. Each offer is an actual
    /// offer to that worker's queue, recorded in `receipts()`: only the last
    /// one can have been taken, and it was taken exactly when `Ok` comes back.
    pub fn dispatch(&mut self, workers: &Vec<SyncSender<AudioChunk>>, chunk: AudioChunk) -> (r:
        Result<usize, AudioChunk>)
        requires
            workers@.len() == old(self)@.1,
        ensures
            final(self)@.1 == old(self)@.1,
            1 <= final(self)@.2.len() <= old(self)@.1,
            forall|a: int|
                0 <= a < final(self)@.2.len() ==> #[trigger] final(self)@.2[a] == worker_at(
                    old(self)@.0,
                    old(self)@.1,
                    a,
                ),
            match r {
                Ok(w) => {
                    &&& w == final(self)@.2.last()
                    &&& final(self)@.0 == (w + 1) % (old(self)@.1 as int)
                },
                Err(c) => {
                    &&& c == chunk
                    &&& final(self)@.2.len() == old(self)@.1
                    &&& final(self)@.0 == old(self)@.0
                },
            },
            offers_recorded(final(self)@.2, final(self).receipts(), workers@),
            forall|a: int|
                0 <= a < final(self).receipts().len() ==> (#[trigger] final(self).receipts()[a].taken()
                    <==> (r is Ok && a == final(self).receipts().len() - 1)),
    {
        proof {
            use_type_invariant(&*self);
        }
        let count = self.worker_count;
        let mut worker_index = self.worker_for_attempt(0);
        self.offered = Ghost(Seq::empty());
        let mut receipts: Vec<OfferReceipt> = Vec::new();
        let mut pending = chunk;
        let mut attempt: usize = 0;
        loop
            invariant
                count == old(self)@.1,
                self@.0 == old(self)@.0,
                self@.1 == old(self)@.1,
                workers@.len() == count,
                attempt < count,
                worker_index == worker_at(old(self)@.0, old(self)@.1, attempt as int),
                self@.2.len() == attempt,
                forall|a: int|
                    0 <= a < attempt ==> #[trigger] self@.2[a] == worker_at(
                        old(self)@.0,
                        old(self)@.1,
                        a,
                    ),
                pending == chunk,
                offers_recorded(self@.2, receipts@, workers@),
                forall|a: int| 0 <= a < attempt ==> !#[trigger] receipts@[a].taken(),
            decreases count - attempt,
        {
            let (receipt, offer) = offer_chunk(&workers[worker_index], pending);
            let accepted = receipt.was_taken();
            let returned = match offer {
                Offer::Taken => None,
                Offer::Full(c) => Some(c),
                Offer::Disconnected(c) => Some(c),
            };
            receipts.push(receipt);
            match self.after_offer(attempt, accepted) {
                OfferStep::Taken(w) => {
                    proof {
                        use_type_invariant(&*self);
                    }
                    self.receipts = receipts;
                    return Ok(w);
                },
                OfferStep::TryNext(w) => {
                    pending = returned.unwrap();
                    worker_index = w;
                    attempt = attempt + 1;
                },
                OfferStep::GiveUp => {
                    proof {
                        use_type_invariant(&*self);
                    }
                    self.receipts = receipts;
                    return Err(returned.unwrap());
                },
            }
        }
    }
}

/// The attempt on which worker `w` is offered a chunk, when worker `next` is
/// tried first among `count`.
pub open spec fn attempt_of_worker(next: nat, count: nat, w: int) -> int {
    (w + count - next) % (count as int)
}

/// Trying attempts `0 .. count` offers a chunk to every worker exactly once,
/// so a chunk is refused only after all workers have refused it.
pub proof fn lemma_attempts_visit_every_worker(next: nat, count: nat)
    requires
        next < count,
    ensures
        forall|a: int| 0 <= a < count ==> 0 <= #[trigger] worker_at(next, count, a) < count,
        forall|w: int|
            0 <= w < count ==> 0 <= #[trigger] attempt_of_worker(next, count, w) < count && worker_at(
                next,
                count,
                attempt_of_worker(next, count, w),
            ) == w,
        forall|a: int, b: int|
            0 <= a < b < count ==> #[trigger] worker_at(next, count, a) != #[trigger] worker_at(
                next,
                count,
                b,
            ),
{
    let c = count as int;
    assert forall|w: int| 0 <= w < count implies 0 <= #[trigger] attempt_of_worker(next, count, w) < count
        && worker_at(next, count, attempt_of_worker(next, count, w)) == w by {
        let a = if w >= next { w - next } else { w + c - next };
        assert(attempt_of_worker(next, count, w) == a) by {
            if w >= next {
                vstd::arithmetic::div_mod::lemma_mod_add_multiples_vanish(w - next, c);
                vstd::arithmetic::div_mod::lemma_small_mod((w - next) as nat, count);
            } else {
                vstd::arithmetic::div_mod::lemma_small_mod((w + c - next) as nat, count);
            }
        }
        assert(worker_at(next, count, a) == w) by {
            vstd::arithmetic::div_mod::lemma_mod_self_0(c);
            if w >= next {
                vstd::arithmetic::div_mod::lemma_small_mod(w as nat, count);
            } else {
                vstd::arithmetic::div_mod::lemma_mod_add_multiples_vanish(w, c);
                vstd::arithmetic::div_mod::lemma_small_mod(w as nat, count);
            }
        }
    }
    assert forall|a: int, b: int| 0 <= a < b < count implies #[trigger] worker_at(next, count, a) != #[trigger] worker_at(next, count, b) by {
        let x = next + a;
        let y = next + b;
        if x % c == y % c {
            vstd::arithmetic::div_mod::lemma_fundamental_div_mod(x, c);
            vstd::arithmetic::div_mod::lemma_fundamental_div_mod(y, c);
            assert(c * (y / c) - c * (x / c) == b - a);
            vstd::arithmetic::mul::lemma_mul_is_distributive_sub(c, y / c, x / c);
            if y / c - x / c >= 1 {
                vstd::arithmetic::mul::lemma_mul_inequality(1, y / c - x / c, c);
            } else {
                vstd::arithmetic::mul::lemma_mul_inequality(y / c - x / c, 0, c);
            }
        }
    }
}

/// Whether some record in `receipts` shows `queue` offered the chunk and
/// refusing it.
pub open spec fn offered_and_refused(receipts: Seq<OfferReceipt>, queue: SyncSender<AudioChunk>) -> bool {
    exists|a: int| 0 <= a < receipts.len() && #[trigger] receipts[a].queue() == queue && !receipts[a].taken()
}

/// Whether some record in `receipts` shows `queue` taking the chunk.
pub open spec fn offered_and_taken(receipts: Seq<OfferReceipt>, queue: SyncSender<AudioChunk>) -> bool {
    exists|a: int| 0 <= a < receipts.len() && #[trigger] receipts[a].queue() == queue && receipts[a].taken()
}

/// The workers are offered a chunk in turn, from the next one round, and it
/// goes to the first whose queue takes it: when `dispatch` gives `Ok(w)`,
/// worker `w`'s queue was offered the chunk and took it, and every worker
/// before `w` in that turn had its queue offered the chunk and refused it.
/// When it gives the chunk back, every one of the `count` workers had its
/// queue offered the chunk and refused it; so as long as any worker's queue
/// takes it, the chunk is not dropped.
///
/// `next`, `count` and `workers` are what `dispatch` was called with (the
/// view's first two parts before the call, and the queues); `offered`,
/// `receipts` and `result` are what it left and returned, as its contract
/// states them.
pub proof fn lemma_chunk_goes_to_first_queue_that_takes_it(
    next: nat,
    count: nat,
    workers: Seq<SyncSender<AudioChunk>>,
    offered: Seq<int>,
    receipts: Seq<OfferReceipt>,
    result: Result<usize, AudioChunk>,
)
    requires
        next < count,
        workers.len() == count,
        1 <= offered.len() <= count,
        forall|a: int| 0 <= a < offered.len() ==> #[trigger] offered[a] == worker_at(next, count, a),
        result matches Ok(w) ==> w == offered.last(),
        result is Err ==> offered.len() == count,
        offers_recorded(offered, receipts, workers),
        forall|a: int|
            0 <= a < receipts.len() ==> (#[trigger] receipts[a].taken() <==> (result is Ok && a
                == receipts.len() - 1)),
    ensures
        result is Err ==> forall|w: int|
            0 <= w < count ==> offered_and_refused(receipts, #[trigger] workers[w]),
        result matches Ok(w) ==> {
            &&& w < count
            &&& offered_and_taken(receipts, workers[w as int])
            &&& forall|v: int|
                0 <= v < count && attempt_of_worker(next, count, v) < attempt_of_worker(
                    next,
                    count,
                    w as int,
                ) ==> offered_and_refused(receipts, #[trigger] workers[v])
        },
{
    lemma_attempts_visit_every_worker(next, count);
    if result is Err {
        assert forall|w: int| 0 <= w < count implies offered_and_refused(receipts, #[trigger] workers[w]) by {
            let a = attempt_of_worker(next, count, w);
            assert(offered[a] == w);
            assert(receipts[a].queue() == workers[offered[a]]);
        }
    }
    if let Ok(w) = result {
        let last = receipts.len() - 1;
        assert(offered[last] == w);
        assert(0 <= worker_at(next, count, last) < count);
        assert(receipts[last].queue() == workers[offered[last]]);
        assert(receipts[last].taken());
        let aw = attempt_of_worker(next, count, w as int);
        assert(aw == last) by {
            if aw < last {
                assert(worker_at(next, count, aw) != worker_at(next, count, last));
            } else if aw > last {
                assert(worker_at(next, count, last) != worker_at(next, count, aw));
            }
        }
        assert forall|v: int|
            0 <= v < count && attempt_of_worker(next, count, v) < attempt_of_worker(next, count, w as int)
            implies offered_and_refused(receipts, #[trigger] workers[v]) by {
            let a = attempt_of_worker(next, count, v);
            assert(offered[a] == v);
            assert(receipts[a].queue() == workers[offered[a]]);
            assert(!receipts[a].taken());
        }
    }
}

} // verus!
