//! The worker pool's queue model: a FIFO of jobs and exit sentinels. The
//! threads, the lock and the condition signal around it live with the caller;
//! everything the queue itself guarantees — order kept, nothing lost, nothing
//! handed out twice — is stated and checked here.

use vstd::prelude::*;
use std::collections::VecDeque;
use crate::thumbnailer::ThumbSize;

verus! {

/// One unit of work: a source file, a size class, a cache root and a
/// derivation mode.
pub struct Work {
    pub path: Vec<u8>,
    pub size: ThumbSize,
    pub destination: Vec<u8>,
    pub use_full_path_for_md5: bool,
}

/// What a worker dequeues: a job to run, or the order to exit.
pub enum Message {
    Action(Work),
    Exit(),
}

/// The pending jobs and sentinels, oldest first.
pub struct WorkQueue {
    queue: VecDeque<Message>,
}

impl View for WorkQueue {
    type V = Seq<Message>;

    closed spec fn view(&self) -> Seq<Message> {
        self.queue@
    }
}

impl WorkQueue {
    /// A new, empty queue.
    pub fn new() -> (r: WorkQueue)
        ensures
            r@ == Seq::<Message>::empty(),
    {
        WorkQueue { queue: VecDeque::new() }
    }

    /// How many messages are pending.
    pub fn len(&self) -> (r: usize)
        ensures
            r == self@.len(),
    {
        self.queue.len()
    }

    /// Appends a message at the tail; everything already queued keeps its
    /// place.
    pub fn push(&mut self, message: Message)
        ensures
            final(self)@ == old(self)@.push(message),
    {
        self.queue.push_back(message);
    }

    /// Removes and returns the oldest message; the rest move up in order.
    pub fn pop(&mut self) -> (r: Option<Message>)
        ensures
            match r {
                Some(m) => {
                    &&& old(self)@.len() > 0
                    &&& m == old(self)@[0]
                    &&& final(self)@ == old(self)@.skip(1)
                },
                None => {
                    &&& old(self)@.len() == 0
                    &&& final(self)@ == old(self)@
                },
            },
    {
        let r: Option<Message> = self.queue.pop_front();
        proof {
            if old(self)@.len() > 0 {
                assert(old(self)@.subrange(1, old(self)@.len() as int) =~= old(self)@.skip(1));
            }
        }
        r
    }

    /// Appends one exit sentinel per worker, behind everything already
    /// queued: no sentinel ever stands ahead of a pending job.
    pub fn poison(&mut self, workers: usize)
        ensures
            final(self)@ == old(self)@ + Seq::new(workers as nat, |i: int| Message::Exit()),
    {
        let mut k: usize = 0;
        proof {
            assert(old(self)@ + Seq::new(0, |i: int| Message::Exit()) =~= old(self)@);
        }
        while k < workers
            invariant
                k <= workers,
                self@ == old(self)@ + Seq::new(k as nat, |i: int| Message::Exit()),
            decreases workers - k,
        {
            self.queue.push_back(Message::Exit());
            proof {
                assert((old(self)@ + Seq::new(k as nat, |i: int| Message::Exit())).push(
                    Message::Exit(),
                ) =~= old(self)@ + Seq::new((k + 1) as nat, |i: int| Message::Exit()));
            }
            k = k + 1;
        }
    }

    /// Pops everything: what comes out is exactly what was queued, in FIFO
    /// order, and the queue is left empty.
    pub fn drain(&mut self) -> (r: Vec<Message>)
        ensures
            r@ == old(self)@,
            final(self)@.len() == 0,
    {
        let mut r: Vec<Message> = Vec::new();
        proof {
            assert(r@ + self@ =~= old(self)@);
        }
        loop
            invariant
                r@ + self@ == old(self)@,
            decreases self@.len(),
        {
            let ghost r0 = r@;
            let ghost q0 = self@;
            match self.pop() {
                Some(m) => {
                    r.push(m);
                    proof {
                        assert(r0.push(q0[0]) + q0.skip(1) =~= r0 + q0);
                    }
                },
                None => {
                    proof {
                        assert(r@ + self@ =~= r@);
                    }
                    return r;
                },
            }
        }
    }
}

/// One worker decision: run the dequeued job, or stop on the sentinel.
pub fn work_step(message: Message) -> (r: Option<Work>)
    ensures
        match message {
            Message::Action(w) => r == Some(w),
            Message::Exit() => r == None::<Work>,
        },
{
    match message {
        Message::Action(w) => Some(w),
        Message::Exit() => None,
    }
}

/// Orderly shutdown: when `jobs` are queued and the queue is then poisoned
/// with `sentinels` exit messages, every job stands in the queue exactly
/// once, in submission order, and ahead of every sentinel — so a pool that
/// drains the queue runs all submitted jobs before any worker exits, and no
/// job is lost or run twice.
pub proof fn lemma_pool_drains(jobs: Seq<Work>, sentinels: nat)
    ensures
        ({
            let q = jobs.map_values(|w: Work| Message::Action(w)) + Seq::new(
                sentinels,
                |i: int| Message::Exit(),
            );
            &&& q.len() == jobs.len() + sentinels
            &&& forall|i: int| 0 <= i < jobs.len() ==> q[i] == Message::Action(jobs[i])
            &&& forall|i: int| jobs.len() <= i < q.len() ==> q[i] == Message::Exit()
        }),
{
    let q = jobs.map_values(|w: Work| Message::Action(w)) + Seq::new(
        sentinels,
        |i: int| Message::Exit(),
    );
    assert forall|i: int| 0 <= i < jobs.len() implies q[i] == Message::Action(jobs[i]) by {
        assert(q[i] == jobs.map_values(|w: Work| Message::Action(w))[i]);
    }
    assert forall|i: int| jobs.len() <= i < q.len() implies q[i] == Message::Exit() by {
        assert(q[i] == Seq::new(sentinels, |j: int| Message::Exit())[i - jobs.len()]);
    }
}

} // verus!
