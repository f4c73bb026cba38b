use lbbroker::envelope::{join, split};

fn frames(parts: &[&[u8]]) -> Vec<Vec<u8>> {
    parts.iter().map(|p| p.to_vec()).collect()
}

#[test]
fn join_puts_delimiter_between_envelope_and_payload() {
    let out = join(frames(&[b"addr"]), frames(&[b"payload"]));
    assert_eq!(out, frames(&[b"addr", b"", b"payload"]));
}

#[test]
fn join_with_empty_envelope_starts_with_delimiter() {
    let out = join(vec![], frames(&[b"a", b"b"]));
    assert_eq!(out, frames(&[b"", b"a", b"b"]));
}

#[test]
fn split_recovers_envelope_and_payload() {
    let (env, payload) = split(frames(&[b"a1", b"a2", b"", b"p1", b"p2"])).unwrap();
    assert_eq!(env, frames(&[b"a1", b"a2"]));
    assert_eq!(payload, frames(&[b"p1", b"p2"]));
}

#[test]
fn split_with_leading_delimiter_gives_empty_envelope() {
    let (env, payload) = split(frames(&[b"", b"p"])).unwrap();
    assert!(env.is_empty());
    assert_eq!(payload, frames(&[b"p"]));
}

#[test]
fn split_without_delimiter_is_refused() {
    assert!(split(frames(&[b"a", b"b"])).is_none());
    assert!(split(vec![]).is_none());
}

#[test]
fn split_after_join_round_trips() {
    let env = frames(&[b"client", b"proxy"]);
    let payload = frames(&[b"body", b"", b"tail"]);
    let (env2, payload2) = split(join(env.clone(), payload.clone())).unwrap();
    assert_eq!(env2, env);
    assert_eq!(payload2, payload);
}

#[test]
fn split_consumes_only_first_delimiter() {
    let (env, payload) = split(frames(&[b"a", b"", b"", b"p"])).unwrap();
    assert_eq!(env, frames(&[b"a"]));
    assert_eq!(payload, frames(&[b"", b"p"]));
}
