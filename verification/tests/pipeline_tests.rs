use lbbroker::pipeline::{
    ack_payload, plan_batch, start_signal, BatchStatus, Collector, PipelineViolation,
};

#[test]
fn collector_completes_after_exactly_the_batch_size() {
    let mut c = Collector::new(3);
    assert_eq!(c.on_message(&start_signal()), Ok(BatchStatus::InProgress));
    assert_eq!(c.on_message(&ack_payload()), Ok(BatchStatus::InProgress));
    assert_eq!(c.on_message(&ack_payload()), Ok(BatchStatus::InProgress));
    assert_eq!(c.on_message(&ack_payload()), Ok(BatchStatus::Completed));
    assert_eq!(
        c.on_message(&ack_payload()),
        Err(PipelineViolation::BatchAlreadyComplete)
    );
}

#[test]
fn ack_before_start_signal_is_rejected() {
    let mut c = Collector::new(2);
    assert_eq!(
        c.on_message(&ack_payload()),
        Err(PipelineViolation::StartSignalExpected)
    );
    // The stray acknowledgement left the collector unchanged: the batch
    // still runs to completion as if it had never arrived.
    assert_eq!(c.on_message(&start_signal()), Ok(BatchStatus::InProgress));
    assert_eq!(c.on_message(&ack_payload()), Ok(BatchStatus::InProgress));
    assert_eq!(c.on_message(&ack_payload()), Ok(BatchStatus::Completed));
}

#[test]
fn wrong_start_signal_is_rejected() {
    let mut c = Collector::new(1);
    assert_eq!(
        c.on_message(&b"1".to_vec()),
        Err(PipelineViolation::StartSignalExpected)
    );
    assert_eq!(
        c.on_message(&b"00".to_vec()),
        Err(PipelineViolation::StartSignalExpected)
    );
}

#[test]
fn non_empty_ack_is_rejected() {
    let mut c = Collector::new(2);
    assert_eq!(c.on_message(&start_signal()), Ok(BatchStatus::InProgress));
    assert_eq!(
        c.on_message(&b"late".to_vec()),
        Err(PipelineViolation::NonEmptyAck)
    );
    // A second start signal after the first is a non-empty ack as well.
    assert_eq!(
        c.on_message(&start_signal()),
        Err(PipelineViolation::NonEmptyAck)
    );
    assert_eq!(c.on_message(&ack_payload()), Ok(BatchStatus::InProgress));
    assert_eq!(c.on_message(&ack_payload()), Ok(BatchStatus::Completed));
}

#[test]
fn empty_batch_completes_on_the_start_signal() {
    let mut c = Collector::new(0);
    assert_eq!(c.on_message(&start_signal()), Ok(BatchStatus::Completed));
    assert_eq!(
        c.on_message(&ack_payload()),
        Err(PipelineViolation::BatchAlreadyComplete)
    );
}

#[test]
fn start_signal_is_the_zero_text() {
    assert_eq!(start_signal(), b"0".to_vec());
    assert!(ack_payload().is_empty());
}

#[test]
fn plan_batch_writes_each_workload_and_totals_them() {
    let (msgs, total) = plan_batch(&vec![1, 2, 3]).unwrap();
    assert_eq!(msgs, vec![b"1".to_vec(), b"2".to_vec(), b"3".to_vec()]);
    assert_eq!(total, 6);

    let (msgs, total) = plan_batch(&vec![99, 1, 42]).unwrap();
    assert_eq!(msgs, vec![b"99".to_vec(), b"1".to_vec(), b"42".to_vec()]);
    assert_eq!(total, 142);

    let (msgs, total) = plan_batch(&vec![]).unwrap();
    assert!(msgs.is_empty());
    assert_eq!(total, 0);
}

#[test]
fn plan_batch_refuses_an_overflowing_total() {
    assert!(plan_batch(&vec![u64::MAX, 1]).is_none());
    assert!(plan_batch(&vec![u64::MAX / 2, u64::MAX / 2, 2]).is_none());
}
