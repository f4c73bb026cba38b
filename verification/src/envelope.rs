//! Envelope codec for multi-part messages.
//!
//! A multi-part message is an ordered sequence of opaque byte frames. An
//! envelope is an ordered sequence of address frames (each non-empty)
//! followed by one empty delimiter frame, prepended to a payload. The codec
//! strips and applies that envelope; the router never re-derives addressing
//! from payload content, so the round trip `split(join(e, p)) == (e, p)` is
//! load-bearing and proved below.

use vstd::prelude::*;

verus! {

/// The frames of a multi-part message, as a mathematical sequence of byte
/// sequences.
pub open spec fn frames_of(v: Vec<Vec<u8>>) -> Seq<Seq<u8>> {
    Seq::new(v@.len(), |i: int| v@[i]@)
}

/// A well-formed envelope holds address frames only: every frame is
/// non-empty, so none of them can be mistaken for the delimiter.
pub open spec fn wf_envelope(env: Seq<Seq<u8>>) -> bool {
    forall|i: int| 0 <= i < env.len() ==> #[trigger] env[i].len() > 0
}

/// What splitting a message means: scan from the front, collecting address
/// frames until the first empty frame, which is consumed as the delimiter;
/// everything after it is payload. A message with no empty frame has no
/// envelope to strip.
pub open spec fn spec_split(frames: Seq<Seq<u8>>) -> Option<(Seq<Seq<u8>>, Seq<Seq<u8>>)>
    decreases frames.len(),
{
    if frames.len() == 0 {
        None
    } else if frames[0].len() == 0 {
        Some((Seq::<Seq<u8>>::empty(), frames.drop_first()))
    } else {
        match spec_split(frames.drop_first()) {
            None => None,
            Some((env, payload)) => Some((seq![frames[0]] + env, payload)),
        }
    }
}

/// What joining means: envelope frames, then one empty delimiter frame, then
/// payload frames.
pub open spec fn spec_join(env: Seq<Seq<u8>>, payload: Seq<Seq<u8>>) -> Seq<Seq<u8>> {
    env + seq![Seq::<u8>::empty()] + payload
}

/// A message without any empty frame has no delimiter, so it does not split.
proof fn lemma_split_none_without_delimiter(frames: Seq<Seq<u8>>)
    requires
        forall|i: int| 0 <= i < frames.len() ==> #[trigger] frames[i].len() > 0,
    ensures
        spec_split(frames) is None,
    decreases frames.len(),
{
    if frames.len() > 0 {
        assert(forall|i: int|
            0 <= i < frames.drop_first().len() ==> #[trigger] frames.drop_first()[i].len() > 0);
        lemma_split_none_without_delimiter(frames.drop_first());
    }
}

/// If the first empty frame stands at index `d`, the split yields the frames
/// before `d` as the envelope and the frames after `d` as the payload.
proof fn lemma_split_at_delimiter(frames: Seq<Seq<u8>>, d: int)
    requires
        0 <= d < frames.len(),
        frames[d].len() == 0,
        forall|j: int| 0 <= j < d ==> #[trigger] frames[j].len() > 0,
    ensures
        spec_split(frames) == Some((frames.take(d), frames.skip(d + 1))),
    decreases d,
{
    if d == 0 {
        assert(frames.take(0) =~= Seq::<Seq<u8>>::empty());
        assert(frames.skip(1) =~= frames.drop_first());
    } else {
        lemma_split_at_delimiter(frames.drop_first(), d - 1);
        assert(frames.take(d) =~= seq![frames[0]] + frames.drop_first().take(d - 1));
        assert(frames.skip(d + 1) =~= frames.drop_first().skip(d));
    }
}

/// Index of the first empty frame, if any.
fn find_delimiter(frames: &Vec<Vec<u8>>) -> (r: Option<usize>)
    ensures
        match r {
            Some(d) => {
                &&& d < frames.len()
                &&& frames@[d as int]@.len() == 0
                &&& forall|j: int| 0 <= j < d ==> #[trigger] frames@[j]@.len() > 0
            },
            None => forall|j: int| 0 <= j < frames.len() ==> #[trigger] frames@[j]@.len() > 0,
        },
{
    let mut d: usize = 0;
    while d < frames.len()
        invariant
            d <= frames.len(),
            forall|j: int| 0 <= j < d ==> #[trigger] frames@[j]@.len() > 0,
        decreases frames.len() - d,
    {
        if frames[d].len() == 0 {
            return Some(d);
        }
        d += 1;
    }
    None
}

/// Strips the envelope from a message: the frames before the first empty
/// frame become the envelope, the delimiter is consumed, and the rest is the
/// payload. Returns `None` when the message holds no delimiter.
pub fn split(frames: Vec<Vec<u8>>) -> (r: Option<(Vec<Vec<u8>>, Vec<Vec<u8>>)>)
    ensures
        match r {
            Some(parts) => spec_split(frames_of(frames)) == Some(
                (frames_of(parts.0), frames_of(parts.1)),
            ),
            None => spec_split(frames_of(frames)) is None,
        },
{
    let ghost orig = frames_of(frames);
    let mut env = frames;
    match find_delimiter(&env) {
        None => {
            proof {
                lemma_split_none_without_delimiter(orig);
            }
            None
        },
        Some(d) => {
            proof {
                lemma_split_at_delimiter(orig, d as int);
            }
            let payload = env.split_off(d + 1);
            let _delimiter = env.pop();
            proof {
                assert(frames_of(env) =~= orig.take(d as int));
                assert(frames_of(payload) =~= orig.skip(d as int + 1));
            }
            Some((env, payload))
        },
    }
}

/// Applies an envelope to a payload: envelope frames, one empty delimiter
/// frame, then the payload frames.
pub fn join(env: Vec<Vec<u8>>, payload: Vec<Vec<u8>>) -> (r: Vec<Vec<u8>>)
    ensures
        frames_of(r) == spec_join(frames_of(env), frames_of(payload)),
{
    let ghost e0 = frames_of(env);
    let ghost p0 = frames_of(payload);
    let mut r = env;
    let mut rest = payload;
    r.push(Vec::new());
    r.append(&mut rest);
    proof {
        assert(frames_of(r) =~= spec_join(e0, p0));
    }
    r
}

/// Round-trip envelope law: splitting a joined message recovers exactly the
/// envelope and the payload, for every well-formed envelope and every
/// payload.
pub proof fn lemma_split_join(env: Seq<Seq<u8>>, payload: Seq<Seq<u8>>)
    requires
        wf_envelope(env),
    ensures
        spec_split(spec_join(env, payload)) == Some((env, payload)),
    decreases env.len(),
{
    let joined = spec_join(env, payload);
    if env.len() == 0 {
        assert(joined[0].len() == 0);
        assert(joined.drop_first() =~= payload);
        assert(env =~= Seq::<Seq<u8>>::empty());
    } else {
        assert(joined[0] == env[0]);
        assert(joined.drop_first() =~= spec_join(env.drop_first(), payload));
        assert(wf_envelope(env.drop_first()));
        lemma_split_join(env.drop_first(), payload);
        assert(seq![joined[0]] + env.drop_first() =~= env);
    }
}

} // verus!
