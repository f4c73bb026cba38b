//! The load-balancing router.
//!
//! A reactive state machine with two event sources: the frontend (client)
//! endpoint and the backend (worker) endpoint. The router owns two
//! collections — the idle worker queue (least-recently-idle first, for
//! round-robin distribution) and the pending request queue (FIFO, for
//! starvation-free fairness) — and moves each request to exactly one worker,
//! routing the eventual reply back to the originating client by the envelope
//! stamped on the way out.
//!
//! The loop around the router (receiving from and sending to the two
//! endpoints) lives outside the library; the router turns each received
//! event into the messages to send, as [`Dispatch`] values.

use vstd::prelude::*;
use crate::envelope::{frames_of, spec_split, spec_join, split, join};

verus! {

/// A message the router asks its caller to send: `frames` goes to the
/// connection identified by the address token `dest`.
pub struct Dispatch {
    pub dest: Vec<u8>,
    pub frames: Vec<Vec<u8>>,
}

/// A malformed message, dropped by the router with its state unchanged.
#[derive(Debug, Clone, Copy, PartialEq, Eq, Structural)]
pub enum ProtocolViolation {
    /// The message holds no empty delimiter frame.
    MissingDelimiter,
    /// A worker reply whose envelope holds no client address frame.
    EmptyEnvelope,
}

/// One buffered client request: the client's address token and the payload
/// it sent, waiting for a worker to become idle.
pub struct Request {
    pub client: Vec<u8>,
    pub payload: Vec<Vec<u8>>,
}

/// The mathematical state of a router: the idle worker queue, the pending
/// request queue, and the set of workers currently assigned an in-flight
/// request.
#[verifier::ext_equal]
pub ghost struct RouterState {
    pub idle: Seq<Seq<u8>>,
    pub pending: Seq<(Seq<u8>, Seq<Seq<u8>>)>,
    pub inflight: Set<Seq<u8>>,
}

impl RouterState {
    pub open spec fn init() -> RouterState {
        RouterState { idle: Seq::empty(), pending: Seq::empty(), inflight: Set::empty() }
    }

    /// Router well-formedness.
    ///
    /// - The idle queue holds each worker token at most once.
    /// - A worker is idle or assigned an in-flight request, never both.
    /// - Requests are buffered only while no worker is idle.
    pub open spec fn wf(self) -> bool {
        &&& self.idle.no_duplicates()
        &&& forall|i: int|
            0 <= i < self.idle.len() ==> !self.inflight.contains(#[trigger] self.idle[i])
        &&& self.pending.len() > 0 ==> self.idle.len() == 0
    }

    /// A frontend request (already stripped to its payload) arrives from
    /// `client`: hand it to the least-recently-idle worker, or buffer it.
    /// The second component is the message to send, if any: the payload
    /// wrapped in an envelope holding the client's address token.
    pub open spec fn step_frontend(self, client: Seq<u8>, payload: Seq<Seq<u8>>) -> (
        RouterState,
        Option<(Seq<u8>, Seq<Seq<u8>>)>,
    ) {
        if self.idle.len() > 0 {
            (
                RouterState {
                    idle: self.idle.drop_first(),
                    inflight: self.inflight.insert(self.idle.first()),
                    ..self
                },
                Some((self.idle.first(), spec_join(seq![client], payload))),
            )
        } else {
            (RouterState { pending: self.pending.push((client, payload)), ..self }, None)
        }
    }

    /// Worker `worker` can take new work (it connected, or its reply was
    /// just routed back). If a request is pending, the longest-waiting one
    /// is wrapped and sent to it at once; otherwise the worker joins the
    /// tail of the idle queue.
    pub open spec fn step_worker_free(self, worker: Seq<u8>) -> (
        RouterState,
        Option<(Seq<u8>, Seq<Seq<u8>>)>,
    ) {
        if self.pending.len() > 0 {
            (
                RouterState {
                    pending: self.pending.drop_first(),
                    inflight: self.inflight.insert(worker),
                    ..self
                },
                Some((worker, spec_join(seq![self.pending.first().0], self.pending.first().1))),
            )
        } else {
            (
                RouterState {
                    idle: self.idle.push(worker),
                    inflight: self.inflight.remove(worker),
                    ..self
                },
                None,
            )
        }
    }

    /// Worker `worker` disconnected: it leaves the idle queue if present,
    /// and any request assigned to it is lost.
    pub open spec fn step_disconnect(self, worker: Seq<u8>) -> RouterState {
        RouterState {
            idle: self.idle.remove_value(worker),
            inflight: self.inflight.remove(worker),
            ..self
        }
    }
}

/// A worker that is not idle keeps the router well-formed when freed.
proof fn lemma_step_worker_free_wf(s: RouterState, worker: Seq<u8>)
    requires
        s.wf(),
        !s.idle.contains(worker),
    ensures
        s.step_worker_free(worker).0.wf(),
{
    let s2 = s.step_worker_free(worker).0;
    if s.pending.len() > 0 {
        assert(s.idle.len() == 0);
        assert(s2.idle.len() == 0);
    } else {
        assert forall|i: int| 0 <= i < s2.idle.len() implies !s2.inflight.contains(
            #[trigger] s2.idle[i],
        ) by {
            if i < s.idle.len() {
                assert(!s.inflight.contains(s.idle[i]));
            }
        }
    }
}

/// Removing one index keeps a duplicate-free sequence duplicate-free, and
/// adds no element.
proof fn lemma_remove_keeps_no_duplicates(s: Seq<Seq<u8>>, idx: int)
    requires
        s.no_duplicates(),
        0 <= idx < s.len(),
    ensures
        s.remove(idx).no_duplicates(),
        forall|i: int| 0 <= i < s.remove(idx).len() ==> s.contains(#[trigger] s.remove(idx)[i]),
{
    let r = s.remove(idx);
    s.remove_ensures(idx);
    assert forall|i: int| 0 <= i < r.len() implies s.contains(#[trigger] r[i]) by {
        if i < idx {
            assert(r[i] == s[i]);
        } else {
            assert(r[i] == s[i + 1]);
        }
    }
    assert forall|i: int, j: int| 0 <= i < j < r.len() implies r[i] != r[j] by {
        let si: int = if i < idx {
            i
        } else {
            i + 1
        };
        let sj: int = if j < idx {
            j
        } else {
            j + 1
        };
        assert(r[i] == s[si] && r[j] == s[sj]);
    }
}

/// The load-balancing router.
///
/// The caller owns the endpoints; the router owns the bookkeeping. Feed it
/// every event the endpoints report — a frontend message, a backend message,
/// a worker connection, a worker disconnection — and send the [`Dispatch`]
/// values it returns.
pub struct Router {
    idle: Vec<Vec<u8>>,
    pending: Vec<Request>,
    inflight: Ghost<Set<Seq<u8>>>,
}

impl View for Router {
    type V = RouterState;

    closed spec fn view(&self) -> RouterState {
        RouterState {
            idle: frames_of(self.idle),
            pending: Seq::new(
                self.pending@.len(),
                |i: int| (self.pending@[i].client@, frames_of(self.pending@[i].payload)),
            ),
            inflight: self.inflight@,
        }
    }
}

impl Router {
    /// A fresh router: no idle workers, no pending requests.
    pub fn new() -> (r: Router)
        ensures
            r@ == RouterState::init(),
            r@.wf(),
    {
        let r = Router { idle: Vec::new(), pending: Vec::new(), inflight: Ghost(Set::empty()) };
        proof {
            assert(r@.idle =~= RouterState::init().idle);
            assert(r@.pending =~= RouterState::init().pending);
        }
        r
    }

    /// How many workers are idle right now.
    pub fn idle_workers(&self) -> (n: usize)
        ensures
            n == self@.idle.len(),
    {
        self.idle.len()
    }

    /// How many requests are buffered right now.
    pub fn pending_requests(&self) -> (n: usize)
        ensures
            n == self@.pending.len(),
    {
        self.pending.len()
    }

    /// A frontend message `(client, frames)` arrived.
    ///
    /// The envelope is stripped; the payload is wrapped with the client's
    /// address token as the single envelope frame, so the eventual worker
    /// reply can be routed back. If a worker is idle, the wrapped request
    /// goes to the least-recently-idle one; otherwise it is buffered in
    /// arrival order. A message without a delimiter is rejected unchanged.
    pub fn on_frontend(&mut self, client: Vec<u8>, frames: Vec<Vec<u8>>) -> (r: Result<
        Option<Dispatch>,
        ProtocolViolation,
    >)
        requires
            old(self)@.wf(),
        ensures
            final(self)@.wf(),
            match spec_split(frames_of(frames)) {
                None => {
                    &&& r matches Err(ProtocolViolation::MissingDelimiter)
                    &&& final(self)@ == old(self)@
                },
                Some(parts) => {
                    let (s2, out) = old(self)@.step_frontend(client@, parts.1);
                    &&& final(self)@ == s2
                    &&& match out {
                        None => r matches Ok(None),
                        Some(msg) => r matches Ok(Some(d)) && d.dest@ == msg.0 && frames_of(
                            d.frames,
                        ) == msg.1,
                    }
                },
            },
    {
        let ghost s0 = self@;
        match split(frames) {
            None => Err(ProtocolViolation::MissingDelimiter),
            Some((env, payload)) => {
                let ghost p = frames_of(payload);
                if self.idle.len() > 0 {
                    let worker = self.idle.remove(0);
                    proof {
                        self.inflight@ = self.inflight@.insert(worker@);
                        assert(frames_of(self.idle) =~= s0.idle.drop_first());
                        assert(self@.pending =~= s0.pending);
                    }
                    let mut wrap: Vec<Vec<u8>> = Vec::new();
                    wrap.push(client);
                    proof {
                        assert(frames_of(wrap) =~= seq![client@]);
                        assert(self@ =~= s0.step_frontend(client@, p).0);
                    }
                    let out = join(wrap, payload);
                    Ok(Some(Dispatch { dest: worker, frames: out }))
                } else {
                    self.pending.push(Request { client, payload });
                    proof {
                        assert(self@.pending =~= s0.pending.push((client@, p)));
                        assert(self@ =~= s0.step_frontend(client@, p).0);
                    }
                    Ok(None)
                }
            },
        }
    }

    /// A backend message `(worker, frames)` arrived: a worker reply.
    ///
    /// The envelope is split off; its first frame is the client address
    /// token stamped when the request was forwarded. The first returned
    /// dispatch delivers the bare payload to that client — no envelope
    /// leaks. The worker is then free again: if a request is pending, the
    /// second dispatch hands it the longest-waiting one at once; otherwise
    /// the worker joins the tail of the idle queue. A reply without a
    /// delimiter, or with an empty envelope, is rejected unchanged.
    pub fn on_backend(&mut self, worker: Vec<u8>, frames: Vec<Vec<u8>>) -> (r: Result<
        (Dispatch, Option<Dispatch>),
        ProtocolViolation,
    >)
        requires
            old(self)@.wf(),
            !old(self)@.idle.contains(worker@),
        ensures
            final(self)@.wf(),
            match spec_split(frames_of(frames)) {
                None => {
                    &&& r matches Err(ProtocolViolation::MissingDelimiter)
                    &&& final(self)@ == old(self)@
                },
                Some(parts) => {
                    if parts.0.len() == 0 {
                        &&& r matches Err(ProtocolViolation::EmptyEnvelope)
                        &&& final(self)@ == old(self)@
                    } else {
                        let (s2, next) = old(self)@.step_worker_free(worker@);
                        &&& final(self)@ == s2
                        &&& r matches Ok(pair)
                        &&& pair.0.dest@ == parts.0[0]
                        &&& frames_of(pair.0.frames) == parts.1
                        &&& match next {
                            None => pair.1 is None,
                            Some(msg) => pair.1 matches Some(d) && d.dest@ == msg.0 && frames_of(
                                d.frames,
                            ) == msg.1,
                        }
                    }
                },
            },
    {
        let ghost s0 = self@;
        match split(frames) {
            None => Err(ProtocolViolation::MissingDelimiter),
            Some((mut env, payload)) => {
                if env.len() == 0 {
                    return Err(ProtocolViolation::EmptyEnvelope);
                }
                let client = env.remove(0);
                let reply = Dispatch { dest: client, frames: payload };
                proof {
                    lemma_step_worker_free_wf(s0, worker@);
                }
                let next = self.worker_free(worker);
                Ok((reply, next))
            },
        }
    }

    /// The backend endpoint reported a new worker connection: its address
    /// token becomes available. If a request is already pending, it is
    /// wrapped and sent to the new worker at once; otherwise the worker
    /// joins the tail of the idle queue.
    pub fn on_worker_connected(&mut self, worker: Vec<u8>) -> (r: Option<Dispatch>)
        requires
            old(self)@.wf(),
            !old(self)@.idle.contains(worker@),
            !old(self)@.inflight.contains(worker@),
        ensures
            final(self)@.wf(),
            ({
                let (s2, next) = old(self)@.step_worker_free(worker@);
                &&& final(self)@ == s2
                &&& match next {
                    None => r is None,
                    Some(msg) => r matches Some(d) && d.dest@ == msg.0 && frames_of(d.frames)
                        == msg.1,
                }
            }),
    {
        proof {
            lemma_step_worker_free_wf(self@, worker@);
        }
        self.worker_free(worker)
    }

    /// The backend endpoint reported a worker disconnection: the token
    /// leaves the idle queue if present. A request already assigned to the
    /// worker is lost — a documented gap of this design; the caller may log
    /// it, the router cannot answer for it.
    pub fn on_worker_disconnected(&mut self, worker: &Vec<u8>) -> (r: bool)
        requires
            old(self)@.wf(),
        ensures
            final(self)@.wf(),
            final(self)@ == old(self)@.step_disconnect(worker@),
            r == old(self)@.idle.contains(worker@),
    {
        let ghost s0 = self@;
        proof {
            self.inflight@ = self.inflight@.remove(worker@);
        }
        let mut i: usize = 0;
        while i < self.idle.len()
            invariant
                s0 == old(self)@,
                i <= self.idle.len(),
                frames_of(self.idle) == s0.idle,
                self@.pending == s0.pending,
                self@.inflight == s0.inflight.remove(worker@),
                s0.wf(),
                forall|j: int| 0 <= j < i ==> frames_of(self.idle)[j] != worker@,
            decreases self.idle.len() - i,
        {
            if token_eq(&self.idle[i], worker) {
                proof {
                    assert(s0.idle[i as int] == worker@);
                    assert(s0.idle.contains(worker@));
                    s0.idle.index_of_first_ensures(worker@);
                    let idx = s0.idle.index_of_first(worker@).unwrap();
                    assert(idx == i) by {
                        if idx < i {
                            assert(frames_of(self.idle)[idx] != worker@);
                        }
                        if i < idx {
                            assert(s0.idle[i as int] != worker@);
                        }
                    };
                    assert(s0.idle.remove_value(worker@) == s0.idle.remove(i as int));
                    lemma_remove_keeps_no_duplicates(s0.idle, i as int);
                }
                self.idle.remove(i);
                proof {
                    assert(self@.idle =~= s0.idle.remove(i as int));
                    assert(self@ =~= s0.step_disconnect(worker@));
                    assert forall|k: int| 0 <= k < self@.idle.len() implies !self@.inflight.contains(
                        #[trigger] self@.idle[k],
                    ) by {
                        assert(s0.idle.contains(self@.idle[k]));
                        let j = choose|j: int|
                            0 <= j < s0.idle.len() && s0.idle[j] == self@.idle[k];
                        assert(!s0.inflight.contains(s0.idle[j]));
                    }
                }
                return true;
            }
            i += 1;
        }
        proof {
            assert(!s0.idle.contains(worker@));
            s0.idle.index_of_first_ensures(worker@);
            assert(s0.idle.remove_value(worker@) == s0.idle);
            assert(self@ =~= s0.step_disconnect(worker@));
            assert forall|k: int| 0 <= k < self@.idle.len() implies !self@.inflight.contains(
                #[trigger] self@.idle[k],
            ) by {
                assert(!s0.inflight.contains(s0.idle[k]));
            }
        }
        false
    }

    /// Shared tail of `on_backend` and `on_worker_connected`: worker
    /// `worker` can take new work.
    fn worker_free(&mut self, worker: Vec<u8>) -> (r: Option<Dispatch>)
        requires
            old(self)@.wf(),
            old(self)@.step_worker_free(worker@).0.wf(),
        ensures
            final(self)@.wf(),
            ({
                let (s2, next) = old(self)@.step_worker_free(worker@);
                &&& final(self)@ == s2
                &&& match next {
                    None => r is None,
                    Some(msg) => r matches Some(d) && d.dest@ == msg.0 && frames_of(d.frames)
                        == msg.1,
                }
            }),
    {
        let ghost s0 = self@;
        if self.pending.len() > 0 {
            let request = self.pending.remove(0);
            proof {
                self.inflight@ = self.inflight@.insert(worker@);
                assert(self@.pending =~= s0.pending.drop_first());
                assert(self@ =~= s0.step_worker_free(worker@).0);
            }
            let mut wrap: Vec<Vec<u8>> = Vec::new();
            wrap.push(request.client);
            proof {
                assert(frames_of(wrap) =~= seq![s0.pending.first().0]);
            }
            let out = join(wrap, request.payload);
            Some(Dispatch { dest: worker, frames: out })
        } else {
            let ghost wv = worker@;
            self.idle.push(worker);
            proof {
                self.inflight@ = self.inflight@.remove(wv);
                assert(self@.idle =~= s0.idle.push(wv));
                assert(self@ =~= s0.step_worker_free(wv).0);
            }
            None
        }
    }
}

/// At-most-one-assignment law: in a well-formed router, a worker token
/// stands in the idle queue or is the target of an in-flight request, never
/// both; and the idle queue holds it at most once.
pub proof fn lemma_at_most_one_assignment(s: RouterState, worker: Seq<u8>)
    requires
        s.wf(),
    ensures
        !(s.idle.contains(worker) && s.inflight.contains(worker)),
        s.idle.no_duplicates(),
{
    if s.idle.contains(worker) {
        let i = choose|i: int| 0 <= i < s.idle.len() && s.idle[i] == worker;
        assert(!s.inflight.contains(s.idle[i]));
    }
}

/// Any frontend step keeps the router well-formed.
pub proof fn lemma_step_frontend_wf(s: RouterState, client: Seq<u8>, payload: Seq<Seq<u8>>)
    requires
        s.wf(),
    ensures
        s.step_frontend(client, payload).0.wf(),
{
    let s1 = s.step_frontend(client, payload).0;
    if s.idle.len() > 0 {
        assert forall|i: int, j: int|
            0 <= i < s1.idle.len() && 0 <= j < s1.idle.len() && i != j implies s1.idle[i]
            != s1.idle[j] by {
            assert(s1.idle[i] == s.idle[i + 1] && s1.idle[j] == s.idle[j + 1]);
        }
        assert forall|i: int| 0 <= i < s1.idle.len() implies !s1.inflight.contains(
            #[trigger] s1.idle[i],
        ) by {
            assert(s1.idle[i] == s.idle[i + 1]);
            assert(!s.inflight.contains(s.idle[i + 1]));
            assert(s.idle[i + 1] != s.idle[0]);
        }
    }
}

/// The router state and assigned workers after a burst of frontend requests
/// arriving in order, with no other event in between. Each request is given
/// as `(client token, payload)`; the result pairs the final state with the
/// worker tokens assigned, one per request that found an idle worker.
pub open spec fn frontend_run(s: RouterState, requests: Seq<(Seq<u8>, Seq<Seq<u8>>)>) -> (
    RouterState,
    Seq<Seq<u8>>,
)
    decreases requests.len(),
{
    if requests.len() == 0 {
        (s, Seq::empty())
    } else {
        let (s1, out) = s.step_frontend(requests.first().0, requests.first().1);
        let rest = frontend_run(s1, requests.drop_first());
        let head: Seq<Seq<u8>> = match out {
            Some(msg) => seq![msg.0],
            None => Seq::empty(),
        };
        (rest.0, head + rest.1)
    }
}

/// While enough workers are idle, a burst of requests is assigned to the
/// front of the idle queue, in queue order.
pub proof fn lemma_frontend_run_assigns(s: RouterState, requests: Seq<(Seq<u8>, Seq<Seq<u8>>)>)
    requires
        s.wf(),
        s.pending.len() == 0,
        requests.len() <= s.idle.len(),
    ensures
        frontend_run(s, requests).1 == s.idle.take(requests.len() as int),
        frontend_run(s, requests).0.idle == s.idle.skip(requests.len() as int),
        frontend_run(s, requests).0.wf(),
    decreases requests.len(),
{
    if requests.len() == 0 {
        assert(frontend_run(s, requests).1 =~= s.idle.take(0));
        assert(s.idle.skip(0) =~= s.idle);
    } else {
        let (s1, out) = s.step_frontend(requests.first().0, requests.first().1);
        lemma_step_frontend_wf(s, requests.first().0, requests.first().1);
        lemma_frontend_run_assigns(s1, requests.drop_first());
        assert(s1.idle == s.idle.drop_first());
        assert(s1.idle.take(requests.len() - 1) =~= s.idle.take(requests.len() as int).drop_first());
        assert(frontend_run(s, requests).1 =~= s.idle.take(requests.len() as int));
        assert(s1.idle.skip(requests.len() - 1) =~= s.idle.skip(requests.len() as int));
    }
}

/// Fairness / round-robin law: with N idle workers and N requests arriving
/// with no worker reply in between, the workers assigned are exactly the N
/// idle workers in least-recently-idle order — each receives exactly one
/// request, and no two requests share a worker.
pub proof fn lemma_round_robin(s: RouterState, requests: Seq<(Seq<u8>, Seq<Seq<u8>>)>)
    requires
        s.wf(),
        s.pending.len() == 0,
        requests.len() == s.idle.len(),
    ensures
        frontend_run(s, requests).1 == s.idle,
        frontend_run(s, requests).1.no_duplicates(),
{
    lemma_frontend_run_assigns(s, requests);
    assert(s.idle.take(s.idle.len() as int) =~= s.idle);
}

/// The router state and served requests after a sequence of worker-idle
/// events (a worker connecting, or freed by routing its reply back). The
/// result pairs the final state with the pending requests served, in the
/// order they were taken from the queue.
pub open spec fn free_run(s: RouterState, workers: Seq<Seq<u8>>) -> (
    RouterState,
    Seq<(Seq<u8>, Seq<Seq<u8>>)>,
)
    decreases workers.len(),
{
    if workers.len() == 0 {
        (s, Seq::empty())
    } else {
        let (s1, out) = s.step_worker_free(workers.first());
        let head: Seq<(Seq<u8>, Seq<Seq<u8>>)> = if s.pending.len() > 0 {
            seq![s.pending.first()]
        } else {
            Seq::empty()
        };
        let rest = free_run(s1, workers.drop_first());
        (rest.0, head + rest.1)
    }
}

/// Starvation-free queueing law: while requests outnumber worker-idle
/// events, the requests served by the first N such events are exactly the N
/// longest-waiting pending requests, in arrival order — the Nth request to
/// arrive is forwarded no later than the Nth worker-idle event.
pub proof fn lemma_fifo_queueing(s: RouterState, workers: Seq<Seq<u8>>)
    requires
        s.wf(),
        workers.len() <= s.pending.len(),
    ensures
        free_run(s, workers).1 == s.pending.take(workers.len() as int),
        free_run(s, workers).0.pending == s.pending.skip(workers.len() as int),
        free_run(s, workers).0.wf(),
    decreases workers.len(),
{
    if workers.len() == 0 {
        assert(free_run(s, workers).1 =~= s.pending.take(0));
        assert(s.pending.skip(0) =~= s.pending);
    } else {
        assert(s.pending.len() > 0);
        assert(s.idle.len() == 0);
        let (s1, out) = s.step_worker_free(workers.first());
        lemma_step_worker_free_wf(s, workers.first());
        lemma_fifo_queueing(s1, workers.drop_first());
        assert(s1.pending == s.pending.drop_first());
        assert(s1.pending.take(workers.len() - 1) =~= s.pending.take(
            workers.len() as int,
        ).drop_first());
        assert(free_run(s, workers).1 =~= s.pending.take(workers.len() as int));
        assert(s1.pending.skip(workers.len() - 1) =~= s.pending.skip(workers.len() as int));
    }
}

/// Correlation correctness law, end to end. The router wraps a request for
/// `client` before forwarding it; a worker echoes the envelope it received
/// and replaces the payload with its reply. Splitting that reply recovers
/// exactly `client` as the destination and exactly the worker's payload as
/// what the client receives: no envelope frame leaks into the payload.
pub proof fn lemma_reply_correlation(
    s: RouterState,
    client: Seq<u8>,
    payload: Seq<Seq<u8>>,
    worker_payload: Seq<Seq<u8>>,
)
    requires
        s.wf(),
        s.idle.len() > 0,
        client.len() > 0,
    ensures
        ({
            let forwarded = s.step_frontend(client, payload).1.unwrap().1;
            let echoed_envelope = spec_split(forwarded).unwrap().0;
            let reply = spec_join(echoed_envelope, worker_payload);
            &&& spec_split(forwarded) == Some((seq![client], payload))
            &&& spec_split(reply) == Some((seq![client], worker_payload))
        }),
{
    assert(crate::envelope::wf_envelope(seq![client]));
    crate::envelope::lemma_split_join(seq![client], payload);
    crate::envelope::lemma_split_join(seq![client], worker_payload);
}

/// Address token equality, byte for byte.
fn token_eq(a: &Vec<u8>, b: &Vec<u8>) -> (r: bool)
    ensures
        r == (a@ == b@),
{
    let r = a == b;
    proof {
        if a@.len() == b@.len() && (forall|i: int| 0 <= i < a@.len() ==> a@[i] == b@[i]) {
            assert(a@ =~= b@);
        }
    }
    r
}

} // verus!
