//! The worker-pool pipeline: fan-out / fan-in batch distribution.
//!
//! A producer emits a fixed-size batch of independent work units to any
//! connected worker, after sending a single batch-start signal to a
//! dedicated collector. Workers send empty acknowledgement payloads to the
//! collector, which counts them until it reaches the batch size. Replies
//! are anonymous: completion is by count, not by per-request correlation.
//!
//! The collector must see the start signal before the first
//! acknowledgement; an acknowledgement before the start signal, or a
//! non-empty acknowledgement, is a protocol violation and is dropped with
//! the collector's state unchanged.

use vstd::prelude::*;
use crate::digits::{dec_bytes, fmt_u64};

verus! {

/// What the collector reports after accepting a message.
#[derive(Debug, Clone, Copy, PartialEq, Eq, Structural)]
pub enum BatchStatus {
    /// The batch is under way: more acknowledgements are owed.
    InProgress,
    /// The last owed acknowledgement arrived: the batch is complete.
    Completed,
}

/// A message the collector drops, with its state unchanged.
#[derive(Debug, Clone, Copy, PartialEq, Eq, Structural)]
pub enum PipelineViolation {
    /// A message arrived before the batch-start signal, or the signal
    /// itself was malformed.
    StartSignalExpected,
    /// An acknowledgement carried an unexpected non-empty payload.
    NonEmptyAck,
    /// A message arrived after the batch was already complete.
    BatchAlreadyComplete,
}

/// The batch-start signal's payload.
pub open spec fn start_signal_bytes() -> Seq<u8> {
    seq![0x30u8]
}

/// The collector of a fan-out / fan-in batch: counts acknowledgements,
/// after the start signal, until the expected batch size is reached.
#[derive(Debug, Clone, Copy, PartialEq, Eq, Structural)]
pub struct Collector {
    pub expected: u64,
    pub started: bool,
    pub received: u64,
}

impl Collector {
    /// A collector that has seen nothing yet.
    pub open spec fn init(expected: u64) -> Collector {
        Collector { expected, started: false, received: 0 }
    }

    pub open spec fn wf(self) -> bool {
        &&& self.received <= self.expected
        &&& !self.started ==> self.received == 0
    }

    /// The batch is complete: the start signal and every owed
    /// acknowledgement arrived.
    pub open spec fn done(self) -> bool {
        self.started && self.received == self.expected
    }

    /// One collector step: the state after a message and what the
    /// collector answers for it.
    pub open spec fn step(self, msg: Seq<u8>) -> (Collector, Result<BatchStatus, PipelineViolation>) {
        if self.done() {
            (self, Err(PipelineViolation::BatchAlreadyComplete))
        } else if !self.started {
            if msg == start_signal_bytes() {
                (
                    Collector { started: true, ..self },
                    Ok(
                        if self.expected == 0 {
                            BatchStatus::Completed
                        } else {
                            BatchStatus::InProgress
                        },
                    ),
                )
            } else {
                (self, Err(PipelineViolation::StartSignalExpected))
            }
        } else if msg.len() != 0 {
            (self, Err(PipelineViolation::NonEmptyAck))
        } else {
            (
                Collector { received: (self.received + 1) as u64, ..self },
                Ok(
                    if self.received + 1 == self.expected {
                        BatchStatus::Completed
                    } else {
                        BatchStatus::InProgress
                    },
                ),
            )
        }
    }

    /// A collector expecting a batch of `expected` acknowledgements.
    pub fn new(expected: u64) -> (r: Collector)
        ensures
            r == Collector::init(expected),
            r.wf(),
    {
        Collector { expected, started: false, received: 0 }
    }

    /// Feed the collector one received message. Returns the batch status,
    /// or the violation for which the message was dropped.
    pub fn on_message(&mut self, msg: &Vec<u8>) -> (r: Result<BatchStatus, PipelineViolation>)
        requires
            old(self).wf(),
        ensures
            final(self).wf(),
            *final(self) == old(self).step(msg@).0,
            r == old(self).step(msg@).1,
            r == Ok::<BatchStatus, PipelineViolation>(BatchStatus::Completed) <==> (!old(
                self,
            ).done() && final(self).done()),
    {
        if self.started && self.received == self.expected {
            return Err(PipelineViolation::BatchAlreadyComplete);
        }
        if !self.started {
            if msg.len() == 1 && msg[0] == 0x30 {
                proof {
                    assert(msg@ =~= start_signal_bytes());
                }
                self.started = true;
                if self.expected == 0 {
                    return Ok(BatchStatus::Completed);
                }
                return Ok(BatchStatus::InProgress);
            }
            proof {
                if msg@ == start_signal_bytes() {
                    assert(msg@.len() == 1 && msg@[0] == 0x30u8);
                }
            }
            return Err(PipelineViolation::StartSignalExpected);
        }
        if msg.len() != 0 {
            return Err(PipelineViolation::NonEmptyAck);
        }
        self.received = self.received + 1;
        if self.received == self.expected {
            Ok(BatchStatus::Completed)
        } else {
            Ok(BatchStatus::InProgress)
        }
    }
}

/// The collector state after a whole message sequence, first message first.
pub open spec fn collector_after(c: Collector, msgs: Seq<Seq<u8>>) -> Collector
    decreases msgs.len(),
{
    if msgs.len() == 0 {
        c
    } else {
        collector_after(c.step(msgs.first()).0, msgs.drop_first())
    }
}

/// The collector's answers over a whole message sequence, first message
/// first.
pub open spec fn collector_outputs(c: Collector, msgs: Seq<Seq<u8>>) -> Seq<
    Result<BatchStatus, PipelineViolation>,
>
    decreases msgs.len(),
{
    if msgs.len() == 0 {
        Seq::empty()
    } else {
        seq![c.step(msgs.first()).1] + collector_outputs(c.step(msgs.first()).0, msgs.drop_first())
    }
}

/// `k` empty acknowledgement payloads.
pub open spec fn empty_acks(k: nat) -> Seq<Seq<u8>> {
    Seq::new(k, |i: int| Seq::<u8>::empty())
}

/// After the start signal and `k` acknowledgements, `k` are counted, and
/// the collector answers each acknowledgement in progress until the one
/// that fills the batch.
proof fn lemma_collector_counts(c: Collector, k: nat)
    requires
        c.wf(),
        c.started,
        c.received + k <= c.expected,
    ensures
        collector_after(c, empty_acks(k)) == (Collector {
            received: (c.received + k) as u64,
            ..c
        }),
        collector_outputs(c, empty_acks(k)).len() == k,
        forall|j: int|
            0 <= j < k ==> collector_outputs(c, empty_acks(k))[j] == Ok::<
                BatchStatus,
                PipelineViolation,
            >(
                if c.received + j + 1 == c.expected {
                    BatchStatus::Completed
                } else {
                    BatchStatus::InProgress
                },
            ),
    decreases k,
{
    if k == 0 {
        assert(collector_after(c, empty_acks(0)) == c);
        assert(c == Collector { received: c.received, ..c });
    } else {
        if c.received == c.expected {
            assert(k >= 1 && c.received + k <= c.expected);
            assert(false);
        }
        let c1 = c.step(Seq::empty()).0;
        assert(empty_acks(k).first() =~= Seq::<u8>::empty());
        assert(empty_acks(k).drop_first() =~= empty_acks((k - 1) as nat));
        lemma_collector_counts(c1, (k - 1) as nat);
        assert forall|j: int| 1 <= j < k implies collector_outputs(c, empty_acks(k))[j] == Ok::<
            BatchStatus,
            PipelineViolation,
        >(
            if c.received + j + 1 == c.expected {
                BatchStatus::Completed
            } else {
                BatchStatus::InProgress
            },
        ) by {
            assert(collector_outputs(c, empty_acks(k))[j] == collector_outputs(
                c1,
                empty_acks((k - 1) as nat),
            )[j - 1]);
        }
    }
}

/// Batch completion law: starting a batch of size `b` and counting `k <= b`
/// acknowledgements completes the batch exactly when `k == b`; completion
/// is reported for the `b`-th acknowledgement and for no earlier one; and a
/// stray acknowledgement before the start signal is rejected with the
/// collector unchanged.
pub proof fn lemma_batch_completion(b: u64, k: nat)
    requires
        k <= b,
    ensures
        collector_after(Collector::init(b), seq![start_signal_bytes()] + empty_acks(k)).done()
            <==> k == b,
        forall|j: int|
            1 <= j <= k ==> collector_outputs(
                Collector::init(b),
                seq![start_signal_bytes()] + empty_acks(k),
            )[j] == Ok::<BatchStatus, PipelineViolation>(
                if j == b {
                    BatchStatus::Completed
                } else {
                    BatchStatus::InProgress
                },
            ),
        Collector::init(b).step(Seq::<u8>::empty()).1 == Err::<BatchStatus, PipelineViolation>(
            PipelineViolation::StartSignalExpected,
        ) || b == 0,
        Collector::init(b).step(Seq::<u8>::empty()).0 == Collector::init(b),
{
    let c0 = Collector::init(b);
    let msgs = seq![start_signal_bytes()] + empty_acks(k);
    let started = c0.step(start_signal_bytes()).0;
    assert(msgs.first() == start_signal_bytes());
    assert(msgs.drop_first() =~= empty_acks(k));
    lemma_collector_counts(started, k);
    assert forall|j: int| 1 <= j <= k implies collector_outputs(c0, msgs)[j] == Ok::<
        BatchStatus,
        PipelineViolation,
    >(
        if j == b {
            BatchStatus::Completed
        } else {
            BatchStatus::InProgress
        },
    ) by {
        assert(collector_outputs(c0, msgs)[j] == collector_outputs(started, empty_acks(k))[j - 1]);
    }
    if b == 0 {
        assert(Seq::<u8>::empty() =~= start_signal_bytes() || true);
    } else {
        assert(Seq::<u8>::empty() != start_signal_bytes()) by {
            assert(start_signal_bytes().len() == 1);
        };
    }
}

/// The messages of a planned batch: one decimal text per work unit.
pub open spec fn batch_messages(workloads: Seq<u64>) -> Seq<Seq<u8>> {
    Seq::new(workloads.len(), |i: int| dec_bytes(workloads[i] as nat))
}

/// Total cost of a batch.
pub open spec fn batch_total(workloads: Seq<u64>) -> int
    decreases workloads.len(),
{
    if workloads.len() == 0 {
        0
    } else {
        batch_total(workloads.drop_last()) + workloads.last()
    }
}

/// Partial batch totals never exceed the whole.
proof fn lemma_batch_total_take_le(workloads: Seq<u64>, j: int)
    requires
        0 <= j <= workloads.len(),
    ensures
        batch_total(workloads.take(j)) <= batch_total(workloads),
    decreases workloads.len() - j,
{
    if j == workloads.len() {
        assert(workloads.take(j) =~= workloads);
    } else {
        assert(workloads.take(j + 1).drop_last() =~= workloads.take(j));
        assert(workloads.take(j + 1).last() == workloads[j]);
        lemma_batch_total_take_le(workloads, j + 1);
    }
}

/// Plans a batch for the producer: the message for each work unit and the
/// total expected cost. Fails exactly when the total overflows.
pub fn plan_batch(workloads: &Vec<u64>) -> (r: Option<(Vec<Vec<u8>>, u64)>)
    ensures
        match r {
            Some(plan) => {
                &&& batch_total(workloads@) <= u64::MAX
                &&& crate::envelope::frames_of(plan.0) == batch_messages(workloads@)
                &&& plan.1 == batch_total(workloads@)
            },
            None => batch_total(workloads@) > u64::MAX,
        },
{
    let mut msgs: Vec<Vec<u8>> = Vec::new();
    let mut total: u64 = 0;
    let mut i: usize = 0;
    while i < workloads.len()
        invariant
            i <= workloads@.len(),
            crate::envelope::frames_of(msgs) =~= batch_messages(workloads@.take(i as int)),
            total == batch_total(workloads@.take(i as int)),
        decreases workloads@.len() - i,
    {
        proof {
            assert(crate::envelope::frames_of(msgs).len() == i);
            assert(workloads@.take(i + 1).drop_last() =~= workloads@.take(i as int));
            assert(workloads@.take(i + 1).last() == workloads@[i as int]);
        }
        total = match total.checked_add(workloads[i]) {
            Some(t) => t,
            None => {
                proof {
                    lemma_batch_total_take_le(workloads@, i + 1);
                }
                return None;
            },
        };
        msgs.push(fmt_u64(workloads[i]));
        proof {
            let msgs_now = crate::envelope::frames_of(msgs);
            let wanted = batch_messages(workloads@.take(i + 1));
            assert(msgs_now.len() == i + 1);
            assert forall|k: int| 0 <= k < msgs_now.len() implies msgs_now[k] == wanted[k] by {
                assert(workloads@.take(i + 1)[k] == workloads@[k]);
                if k < i {
                    assert(msgs_now[k] == batch_messages(workloads@.take(i as int))[k]);
                    assert(workloads@.take(i as int)[k] == workloads@[k]);
                } else {
                    assert(msgs_now[k] == dec_bytes(workloads@[i as int] as nat));
                }
            }
            assert(msgs_now =~= wanted);
        }
        i += 1;
    }
    proof {
        assert(workloads@.take(workloads@.len() as int) =~= workloads@);
    }
    Some((msgs, total))
}

/// The batch-start signal the producer sends to the collector.
pub fn start_signal() -> (r: Vec<u8>)
    ensures
        r@ == start_signal_bytes(),
{
    let mut v: Vec<u8> = Vec::new();
    v.push(0x30);
    proof {
        assert(v@ =~= start_signal_bytes());
    }
    v
}

/// The anonymous acknowledgement a worker sends for one finished unit.
pub fn ack_payload() -> (r: Vec<u8>)
    ensures
        r@.len() == 0,
{
    Vec::new()
}

} // verus!
