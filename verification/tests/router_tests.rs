use lbbroker::router::{ProtocolViolation, Router};

fn frames(parts: &[&[u8]]) -> Vec<Vec<u8>> {
    parts.iter().map(|p| p.to_vec()).collect()
}

fn request(payload: &[u8]) -> Vec<Vec<u8>> {
    frames(&[b"", payload])
}

#[test]
fn broker_scenario_two_workers_three_clients() {
    let mut r = Router::new();
    assert!(r.on_worker_connected(b"W1".to_vec()).is_none());
    assert!(r.on_worker_connected(b"W2".to_vec()).is_none());
    assert_eq!(r.idle_workers(), 2);

    let d1 = r.on_frontend(b"C1".to_vec(), request(b"req1")).unwrap().unwrap();
    assert_eq!(d1.dest, b"W1".to_vec());
    assert_eq!(d1.frames, frames(&[b"C1", b"", b"req1"]));

    let d2 = r.on_frontend(b"C2".to_vec(), request(b"req2")).unwrap().unwrap();
    assert_eq!(d2.dest, b"W2".to_vec());
    assert_eq!(d2.frames, frames(&[b"C2", b"", b"req2"]));

    let d3 = r.on_frontend(b"C3".to_vec(), request(b"req3")).unwrap();
    assert!(d3.is_none());
    assert_eq!(r.pending_requests(), 1);
    assert_eq!(r.idle_workers(), 0);

    let (reply, next) = r
        .on_backend(b"W1".to_vec(), frames(&[b"C1", b"", b"resp1"]))
        .unwrap();
    assert_eq!(reply.dest, b"C1".to_vec());
    assert_eq!(reply.frames, frames(&[b"resp1"]));
    let next = next.unwrap();
    assert_eq!(next.dest, b"W1".to_vec());
    assert_eq!(next.frames, frames(&[b"C3", b"", b"req3"]));
    assert_eq!(r.pending_requests(), 0);
    assert_eq!(r.idle_workers(), 0);
}

#[test]
fn round_robin_assigns_each_idle_worker_once() {
    let mut r = Router::new();
    for w in [&b"W1"[..], b"W2", b"W3"] {
        assert!(r.on_worker_connected(w.to_vec()).is_none());
    }
    let mut assigned = Vec::new();
    for c in [&b"C1"[..], b"C2", b"C3"] {
        let d = r.on_frontend(c.to_vec(), request(b"job")).unwrap().unwrap();
        assigned.push(d.dest);
    }
    assert_eq!(assigned, frames(&[b"W1", b"W2", b"W3"]));
}

#[test]
fn freed_worker_reenters_at_the_tail() {
    let mut r = Router::new();
    assert!(r.on_worker_connected(b"W1".to_vec()).is_none());
    assert!(r.on_worker_connected(b"W2".to_vec()).is_none());
    let d = r.on_frontend(b"C1".to_vec(), request(b"a")).unwrap().unwrap();
    assert_eq!(d.dest, b"W1".to_vec());
    let (_, next) = r
        .on_backend(b"W1".to_vec(), frames(&[b"C1", b"", b"ra"]))
        .unwrap();
    assert!(next.is_none());
    // W2 was idle longer, so the next request goes to W2, not W1.
    let d = r.on_frontend(b"C2".to_vec(), request(b"b")).unwrap().unwrap();
    assert_eq!(d.dest, b"W2".to_vec());
    let d = r.on_frontend(b"C3".to_vec(), request(b"c")).unwrap().unwrap();
    assert_eq!(d.dest, b"W1".to_vec());
}

#[test]
fn pending_requests_are_served_in_arrival_order() {
    let mut r = Router::new();
    assert!(r.on_frontend(b"C1".to_vec(), request(b"first")).unwrap().is_none());
    assert!(r.on_frontend(b"C2".to_vec(), request(b"second")).unwrap().is_none());
    assert_eq!(r.pending_requests(), 2);

    let d = r.on_worker_connected(b"W1".to_vec()).unwrap();
    assert_eq!(d.dest, b"W1".to_vec());
    assert_eq!(d.frames, frames(&[b"C1", b"", b"first"]));

    let d = r.on_worker_connected(b"W2".to_vec()).unwrap();
    assert_eq!(d.dest, b"W2".to_vec());
    assert_eq!(d.frames, frames(&[b"C2", b"", b"second"]));
    assert_eq!(r.pending_requests(), 0);
}

#[test]
fn worker_reply_payload_reaches_client_without_envelope() {
    let mut r = Router::new();
    assert!(r.on_worker_connected(b"W1".to_vec()).is_none());
    let d = r.on_frontend(b"C1".to_vec(), request(b"ask")).unwrap().unwrap();
    // The worker echoes the envelope it received and replaces the payload.
    let mut reply_frames = vec![d.frames[0].clone(), d.frames[1].clone()];
    reply_frames.push(b"answer".to_vec());
    let (reply, next) = r.on_backend(b"W1".to_vec(), reply_frames).unwrap();
    assert_eq!(reply.dest, b"C1".to_vec());
    assert_eq!(reply.frames, frames(&[b"answer"]));
    assert!(next.is_none());
    assert_eq!(r.idle_workers(), 1);
}

#[test]
fn frontend_message_without_delimiter_is_dropped() {
    let mut r = Router::new();
    assert!(r.on_worker_connected(b"W1".to_vec()).is_none());
    let e = r.on_frontend(b"C1".to_vec(), frames(&[b"no", b"delimiter"]));
    assert!(matches!(e, Err(ProtocolViolation::MissingDelimiter)));
    // The idle worker is still there for a well-formed request.
    assert_eq!(r.idle_workers(), 1);
}

#[test]
fn backend_reply_with_empty_envelope_is_dropped() {
    let mut r = Router::new();
    assert!(r.on_worker_connected(b"W1".to_vec()).is_none());
    let _ = r.on_frontend(b"C1".to_vec(), request(b"x")).unwrap().unwrap();
    match r.on_backend(b"W1".to_vec(), frames(&[b"", b"reply"])) {
        Err(ProtocolViolation::EmptyEnvelope) => {},
        _ => panic!("an envelope without an address frame must be refused"),
    }
    match r.on_backend(b"W1".to_vec(), frames(&[b"noend"])) {
        Err(ProtocolViolation::MissingDelimiter) => {},
        _ => panic!("a reply without a delimiter must be refused"),
    }
}

#[test]
fn disconnected_worker_leaves_the_idle_queue() {
    let mut r = Router::new();
    assert!(r.on_worker_connected(b"W1".to_vec()).is_none());
    assert!(r.on_worker_connected(b"W2".to_vec()).is_none());
    assert!(r.on_worker_disconnected(&b"W1".to_vec()));
    assert_eq!(r.idle_workers(), 1);
    assert!(!r.on_worker_disconnected(&b"W1".to_vec()));
    let d = r.on_frontend(b"C1".to_vec(), request(b"q")).unwrap().unwrap();
    assert_eq!(d.dest, b"W2".to_vec());
}
