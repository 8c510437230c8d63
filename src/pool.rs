use std::sync::mpsc::Receiver;
use std::sync::mpsc::Sender;
use vstd::arithmetic::div_mod::lemma_add_mod_noop;
use vstd::arithmetic::div_mod::lemma_mod_self_0;
use vstd::arithmetic::div_mod::lemma_small_mod;
use vstd::prelude::*;

verus! {

/// The sending end of std's mpsc channel, carried through unopened.
#[verifier::external_type_specification]
#[verifier::external_body]
#[verifier::reject_recursive_types(T)]
pub struct ExSender<T>(Sender<T>);

/// The receiving end of std's mpsc channel, handed on to a worker unopened.
#[verifier::external_type_specification]
#[verifier::external_body]
#[verifier::reject_recursive_types(T)]
pub struct ExReceiver<T>(Receiver<T>);

/// A unit of work: a handler and the connection it is to be run on.
pub type Job<H, C> = (H, C);

/// Relies on std::sync::mpsc::channel: a fresh unbounded channel whose two
/// ends belong together.
#[verifier::external_body]
fn open_channel<T>() -> (Sender<T>, Receiver<T>) {
    std::sync::mpsc::channel()
}

/// Why a pool operation was refused.
#[derive(Clone, Copy, Debug, PartialEq, Eq, Structural)]
pub enum PoolError {
    /// A pool was requested with no workers.
    InvalidSize,
    /// A job was submitted after teardown began, or its worker is gone; the
    /// job was dropped.
    Submission,
}

/// What a submission returns once its job has been handed to the channel:
/// success when a worker's receiving end took it, else a submission error.
pub fn submission_outcome(delivered: bool) -> (r: Result<(), PoolError>)
    ensures
        r == if delivered {
            Ok::<(), PoolError>(())
        } else {
            Err(PoolError::Submission)
        },
{
    if delivered {
        Ok(())
    } else {
        Err(PoolError::Submission)
    }
}

/// The indices of the submissions that `routes` sent to worker `w`, in
/// submission order (`routes[k]` is the worker of submission `k`).
pub open spec fn jobs_of(routes: Seq<nat>, w: nat) -> Seq<nat>
    decreases routes.len(),
{
    if routes.len() == 0 {
        Seq::empty()
    } else {
        let earlier = jobs_of(routes.drop_last(), w);
        if routes.last() == w {
            earlier.push((routes.len() - 1) as nat)
        } else {
            earlier
        }
    }
}

/// The jobs that `routes` sent to worker `w`, in submission order, where
/// `jobs[k]` is submission `k`.
pub open spec fn jobs_for<J>(routes: Seq<nat>, jobs: Seq<J>, w: nat) -> Seq<J> {
    jobs_of(routes, w).map_values(|k: nat| jobs[k as int])
}

/// Static round-robin assignment over `n` workers.
pub open spec fn round_robin(routes: Seq<nat>, n: nat) -> bool {
    forall|k: int| 0 <= k < routes.len() ==> #[trigger] routes[k] == k % (n as int)
}

/// Taking one more turn after `a` turns on a ring of `n` workers moves to
/// the next worker, wrapping after the last.
proof fn lemma_next_turn(a: int, n: int)
    requires
        a >= 0,
        n > 0,
    ensures
        (a + 1) % n == if a % n + 1 == n { 0 } else { a % n + 1 },
{
    lemma_add_mod_noop(a, 1, n);
    if n == 1 {
        assert((a + 1) % n == 0);
    } else {
        lemma_small_mod(1, n as nat);
        if a % n + 1 == n {
            lemma_mod_self_0(n);
        } else {
            lemma_small_mod((a % n + 1) as nat, n as nat);
        }
    }
}

/// The submissions routed to one worker are listed in increasing order,
/// and they are exactly those whose route names that worker.
proof fn lemma_jobs_of(routes: Seq<nat>, w: nat)
    ensures
        forall|i: int, j: int|
            0 <= i < j < jobs_of(routes, w).len() ==> jobs_of(routes, w)[i] < jobs_of(routes, w)[j],
        forall|i: int|
            0 <= i < jobs_of(routes, w).len() ==> {
                &&& #[trigger] jobs_of(routes, w)[i] < routes.len()
                &&& routes[jobs_of(routes, w)[i] as int] == w
            },
        forall|k: int|
            0 <= k < routes.len() && routes[k] == w ==> #[trigger] jobs_of(routes, w).contains(
                k as nat,
            ),
    decreases routes.len(),
{
    if routes.len() > 0 {
        let earlier = routes.drop_last();
        lemma_jobs_of(earlier, w);
        let js = jobs_of(routes, w);
        let prev = jobs_of(earlier, w);
        assert forall|k: int| 0 <= k < routes.len() && routes[k] == w implies js.contains(
            k as nat,
        ) by {
            if k < earlier.len() {
                assert(earlier[k] == routes[k]);
                assert(prev.contains(k as nat));
                let i = choose|i: int| 0 <= i < prev.len() && prev[i] == k as nat;
                assert(js[i] == k as nat);
            } else {
                assert(js[js.len() - 1] == k as nat);
            }
        }
        assert forall|i: int| 0 <= i < js.len() implies #[trigger] js[i] < routes.len() && routes[
            js[i] as int
        ] == w by {
            if i < prev.len() {
                assert(js[i] == prev[i]);
                assert(earlier[prev[i] as int] == routes[prev[i] as int]);
            }
        }
    }
}

/// Routing one more submission, `job` to worker `t`, adds `job` to the
/// list of jobs for worker `t` and leaves every other list as it was.
proof fn lemma_handed_step<J>(routes: Seq<nat>, jobs: Seq<J>, t: nat, job: J, w: nat)
    requires
        routes.len() == jobs.len(),
    ensures
        jobs_for(routes.push(t), jobs.push(job), w) == if t == w {
            jobs_for(routes, jobs, w).push(job)
        } else {
            jobs_for(routes, jobs, w)
        },
{
    lemma_jobs_of(routes, w);
    assert(routes.push(t).drop_last() =~= routes);
    let before = jobs_of(routes, w);
    let a = before.map_values(|k: nat| jobs.push(job)[k as int]);
    let b = before.map_values(|k: nat| jobs[k as int]);
    assert(a =~= b) by {
        assert forall|i: int| 0 <= i < before.len() implies a[i] == b[i] by {
            assert(before[i] < routes.len());
        }
    }
    if t == w {
        let after = jobs_of(routes.push(t), w);
        assert(after =~= before.push(routes.len()));
        assert(after.map_values(|k: nat| jobs.push(job)[k as int]) =~= a.push(job));
    }
}

/// What a pool is, abstractly.
pub ghost struct PoolView {
    /// Number of workers.
    pub size: nat,
    /// Worker that the next submission goes to.
    pub next: nat,
    /// Whether teardown has begun.
    pub closed: bool,
    /// For each submission so far, the worker it was routed to.
    pub routes: Seq<nat>,
}

/// The receiving end of one worker's channel, labelled with that worker's
/// index. It reads, in order, what the pool hands to that worker.
#[verifier::reject_recursive_types(H)]
#[verifier::reject_recursive_types(C)]
pub struct Inbox<H, C> {
    worker: usize,
    receiver: Receiver<Job<H, C>>,
}

impl<H, C> Inbox<H, C> {
    /// Index of the worker that this end belongs to.
    pub closed spec fn worker_index(&self) -> nat {
        self.worker as nat
    }

    /// Index of the worker that this end belongs to.
    pub fn worker(&self) -> (w: usize)
        ensures
            w == self.worker_index(),
    {
        self.worker
    }

    /// The channel end itself, for the worker to block on.
    pub fn receiver(&self) -> &Receiver<Job<H, C>> {
        &self.receiver
    }

    /// Gives up the label and keeps the channel end.
    pub fn into_receiver(self) -> Receiver<Job<H, C>> {
        self.receiver
    }
}

/// The dispatching side of a fixed-size worker pool: one sender per worker,
/// and a round-robin counter choosing the sender of the next job. The
/// receiving ends go to the workers, which run elsewhere.
#[verifier::reject_recursive_types(H)]
#[verifier::reject_recursive_types(C)]
pub struct ThreadPool<H, C> {
    senders: Vec<Sender<Job<H, C>>>,
    size: usize,
    next_sender: usize,
    closed: bool,
    routes: Ghost<Seq<nat>>,
    submitted: Ghost<Seq<Job<H, C>>>,
    handed: Ghost<Seq<Seq<Job<H, C>>>>,
}

impl<H, C> View for ThreadPool<H, C> {
    type V = PoolView;

    closed spec fn view(&self) -> PoolView {
        PoolView {
            size: self.size as nat,
            next: self.next_sender as nat,
            closed: self.closed,
            routes: self.routes@,
        }
    }
}

impl<H, C> ThreadPool<H, C> {
    /// Every job accepted for routing so far, in submission order.
    pub closed spec fn submitted(&self) -> Seq<Job<H, C>> {
        self.submitted@
    }

    /// The jobs handed to the channel of worker `w`, in the order sent.
    pub closed spec fn handed(&self, w: int) -> Seq<Job<H, C>> {
        self.handed@[w]
    }

    /// How many senders the pool still holds.
    pub closed spec fn senders_held(&self) -> nat {
        self.senders@.len()
    }

    /// The pool's invariant: at least one worker; one sender per worker
    /// until teardown and none after; every submission routed round-robin;
    /// and each worker's channel handed exactly the submissions routed to
    /// it, in submission order.
    pub open spec fn wf(&self) -> bool {
        &&& self@.size > 0
        &&& self@.next < self@.size
        &&& self@.next as int == self@.routes.len() as int % (self@.size as int)
        &&& round_robin(self@.routes, self@.size)
        &&& self.submitted().len() == self@.routes.len()
        &&& self.senders_held() == if self@.closed {
            0
        } else {
            self@.size
        }
        &&& forall|w: int|
            0 <= w < self@.size ==> #[trigger] self.handed(w) == jobs_for(
                self@.routes,
                self.submitted(),
                w as nat,
            )
        &&& self.inner_wf()
    }

    pub closed spec fn inner_wf(&self) -> bool {
        self.handed@.len() == self.size
    }

    /// Relies on std::sync::mpsc::Sender::send: the job goes to the channel
    /// of worker `w`, and nothing else changes. Reports whether a receiving
    /// end still existed to take it.
    #[verifier::external_body]
    fn send_to(&mut self, w: usize, job: Job<H, C>) -> (delivered: bool)
        requires
            w < old(self).senders@.len(),
            w < old(self).handed@.len(),
        ensures
            final(self).handed@ == old(self).handed@.update(
                w as int,
                old(self).handed@[w as int].push(job),
            ),
            final(self).senders@ == old(self).senders@,
            final(self).size == old(self).size,
            final(self).next_sender == old(self).next_sender,
            final(self).closed == old(self).closed,
            final(self).routes == old(self).routes,
            final(self).submitted == old(self).submitted,
    {
        self.senders[w].send(job).is_ok()
    }

    /// Creates the channels of a pool of `size` workers. The pool keeps the
    /// sending ends; the receiving ends come back in worker order, one for
    /// each worker that the caller is to start. Nothing has been sent yet.
    pub fn new(size: usize) -> (r: Result<(ThreadPool<H, C>, Vec<Inbox<H, C>>), PoolError>)
        ensures
            r is Err <==> size == 0,
            r is Err ==> r == Err::<(ThreadPool<H, C>, Vec<Inbox<H, C>>), PoolError>(
                PoolError::InvalidSize,
            ),
            r matches Ok((pool, inboxes)) ==> {
                &&& pool.wf()
                &&& pool@.size == size
                &&& pool@.next == 0
                &&& !pool@.closed
                &&& pool@.routes.len() == 0
                &&& pool.submitted().len() == 0
                &&& forall|w: int| 0 <= w < size ==> #[trigger] pool.handed(w).len() == 0
                &&& inboxes@.len() == size
                &&& forall|w: int| 0 <= w < size ==> #[trigger] inboxes@[w].worker_index() == w
            },
    {
        if size == 0 {
            return Err(PoolError::InvalidSize);
        }
        let mut senders: Vec<Sender<Job<H, C>>> = Vec::with_capacity(size);
        let mut inboxes: Vec<Inbox<H, C>> = Vec::with_capacity(size);
        for id in 0..size
            invariant
                senders@.len() == id,
                inboxes@.len() == id,
                forall|w: int| 0 <= w < id ==> #[trigger] inboxes@[w].worker_index() == w,
        {
            let (sender, receiver) = open_channel();
            senders.push(sender);
            inboxes.push(Inbox { worker: id, receiver });
        }
        let pool = ThreadPool {
            senders,
            size,
            next_sender: 0,
            closed: false,
            routes: Ghost(Seq::empty()),
            submitted: Ghost(Seq::empty()),
            handed: Ghost(Seq::new(size as nat, |w: int| Seq::empty())),
        };
        assert forall|w: int| 0 <= w < size implies #[trigger] pool.handed(w) == jobs_for(
            pool@.routes,
            pool.submitted(),
            w as nat,
        ) by {
            assert(jobs_for(pool@.routes, pool.submitted(), w as nat) =~= Seq::empty());
        }
        assert(pool.senders_held() == size);
        assert(pool.inner_wf());
        assert(round_robin(pool@.routes, pool@.size));
        assert(pool.submitted().len() == pool@.routes.len());
        assert(pool.senders_held() == if pool@.closed { 0 } else { pool@.size });
        assert(pool@.next as int == pool@.routes.len() as int % (pool@.size as int));
        assert(pool.wf());
        Ok((pool, inboxes))
    }

    /// Number of workers.
    pub fn size(&self) -> (n: usize)
        ensures
            n == self@.size,
    {
        self.size
    }

    /// Whether teardown has begun.
    pub fn is_closed(&self) -> (c: bool)
        ensures
            c == self@.closed,
    {
        self.closed
    }

    /// Sends `(handler, connection)` to the channel of the worker whose turn
    /// it is, and moves the turn on to the next worker, wrapping after the
    /// last one. No other channel is sent anything. Once teardown has begun
    /// nothing is sent and the job is refused. The job is also refused,
    /// though routed, when its worker has gone away.
    pub fn execute(&mut self, handler: H, connection: C) -> (r: Result<(), PoolError>)
        requires
            old(self).wf(),
        ensures
            final(self).wf(),
            final(self)@.size == old(self)@.size,
            final(self)@.closed == old(self)@.closed,
            final(self).senders_held() == old(self).senders_held(),
            r is Err ==> r == Err::<(), PoolError>(PoolError::Submission),
            old(self)@.closed ==> {
                &&& r is Err
                &&& final(self)@ == old(self)@
                &&& final(self).submitted() == old(self).submitted()
            },
            !old(self)@.closed ==> {
                &&& final(self)@.routes == old(self)@.routes.push(old(self)@.next)
                &&& final(self)@.next as int == (old(self)@.next as int + 1) % (old(self)@.size as int)
                &&& final(self).submitted() == old(self).submitted().push((handler, connection))
            },
            forall|w: int|
                0 <= w < old(self)@.size ==> #[trigger] final(self).handed(w) == if !old(
                    self,
                )@.closed && w == old(self)@.next {
                    old(self).handed(w).push((handler, connection))
                } else {
                    old(self).handed(w)
                },
    {
        if self.closed {
            return Err(PoolError::Submission);
        }
        let target = self.next_sender;
        let job = (handler, connection);
        let ghost prev = self.submitted@;
        let ghost prev_routes = self.routes@;
        let ghost prev_handed = self.handed@;
        assert forall|w: int| 0 <= w < self.size implies prev_handed[w] == #[trigger] jobs_for(
            prev_routes,
            prev,
            w as nat,
        ) by {
            assert(self.handed(w) == prev_handed[w]);
        }
        proof {
            self.routes@ = self.routes@.push(target as nat);
            self.submitted@ = self.submitted@.push(job);
        }
        let delivered = self.send_to(target, job);
        self.next_sender = if target + 1 == self.size {
            0
        } else {
            target + 1
        };
        proof {
            let n = self.size as int;
            let len = self.routes@.len() as int;
            assert(self.routes@[len - 1] == (len - 1) % n);
            assert(round_robin(self.routes@, self.size as nat));
            lemma_next_turn(len - 1, n);
            lemma_next_turn(target as int, n);
            lemma_small_mod(target as nat, n as nat);
            assert forall|w: int| 0 <= w < n implies #[trigger] self.handed(w) == jobs_for(
                self@.routes,
                self.submitted(),
                w as nat,
            ) by {
                lemma_handed_step(prev_routes, prev, target as nat, job, w as nat);
            }
        }
        submission_outcome(delivered)
    }

    /// Begins teardown: drops every sender, so each worker sees its channel
    /// close once it has drained what was already sent. Later submissions
    /// are refused.
    pub fn close(&mut self)
        requires
            old(self).wf(),
        ensures
            final(self).wf(),
            final(self)@ == (PoolView { closed: true, ..old(self)@ }),
            final(self).senders_held() == 0,
            final(self).submitted() == old(self).submitted(),
            forall|w: int| 0 <= w < old(self)@.size ==> #[trigger] final(self).handed(w) == old(self).handed(w),
    {
        self.senders.clear();
        self.closed = true;
        assert forall|w: int| 0 <= w < self.size implies #[trigger] self.handed(w) == jobs_for(
            self@.routes,
            self.submitted(),
            w as nat,
        ) by {
            assert(self.handed(w) == old(self).handed(w));
        }
    }
}

/// Round-robin routing: submission `k` (counted from zero over the pool's
/// lifetime) goes to worker `k mod N`, for a pool of `N` workers.
pub proof fn lemma_routed_round_robin<H, C>(pool: &ThreadPool<H, C>)
    requires
        pool.wf(),
    ensures
        pool@.routes =~= Seq::new(
            pool@.routes.len(),
            |k: int| (k % (pool@.size as int)) as nat,
        ),
{
}

/// Routing is deterministic: two pools of the same size that have taken the
/// same number of submissions have sent each one to the same worker, and
/// give the next one to the same worker.
pub proof fn lemma_routing_deterministic<H, C>(p: &ThreadPool<H, C>, q: &ThreadPool<H, C>)
    requires
        p.wf(),
        q.wf(),
        p@.size == q@.size,
        p@.routes.len() == q@.routes.len(),
    ensures
        p@.routes == q@.routes,
        p@.next == q@.next,
{
    assert(p@.routes =~= q@.routes);
}

/// The jobs that one worker receives are sent to it in submission order:
/// for worker `w` of `N`, its channel is handed the submissions `k` with
/// `k mod N == w`, each once and in increasing order of `k`, and the `i`th
/// job handed to it is the job of the `i`th such submission.
pub proof fn lemma_same_worker_in_submission_order<H, C>(pool: &ThreadPool<H, C>, w: nat)
    requires
        pool.wf(),
        w < pool@.size,
    ensures
        pool.handed(w as int).len() == jobs_of(pool@.routes, w).len(),
        forall|i: int|
            0 <= i < pool.handed(w as int).len() ==> #[trigger] pool.handed(w as int)[i]
                == pool.submitted()[jobs_of(pool@.routes, w)[i] as int],
        forall|i: int, j: int|
            0 <= i < j < jobs_of(pool@.routes, w).len() ==> jobs_of(pool@.routes, w)[i] < jobs_of(
                pool@.routes,
                w,
            )[j],
        forall|i: int|
            0 <= i < jobs_of(pool@.routes, w).len() ==> {
                &&& #[trigger] jobs_of(pool@.routes, w)[i] < pool@.routes.len()
                &&& jobs_of(pool@.routes, w)[i] as int % (pool@.size as int) == w
            },
        forall|k: int|
            0 <= k < pool@.routes.len() && k % (pool@.size as int) == w ==> #[trigger] jobs_of(
                pool@.routes,
                w,
            ).contains(k as nat),
{
    lemma_jobs_of(pool@.routes, w);
    assert(pool.handed(w as int) == jobs_for(pool@.routes, pool.submitted(), w));
    let routes = pool@.routes;
    assert forall|k: int|
        0 <= k < routes.len() && k % (pool@.size as int) == w implies #[trigger] jobs_of(
        routes,
        w,
    ).contains(k as nat) by {
        assert(routes[k] == k % (pool@.size as int));
    }
}

} // verus!
