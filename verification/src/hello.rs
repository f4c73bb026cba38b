//! The request/reply greeting exchanged by the simplest client and server.
//!
//! The client sends a fixed greeting; the server answers every non-empty
//! message with a fixed reply and refuses an empty one.

use vstd::prelude::*;

verus! {

/// "Hello"
pub open spec fn hello_bytes() -> Seq<u8> {
    seq![0x48u8, 0x65u8, 0x6cu8, 0x6cu8, 0x6fu8]
}

/// "World"
pub open spec fn world_bytes() -> Seq<u8> {
    seq![0x57u8, 0x6fu8, 0x72u8, 0x6cu8, 0x64u8]
}

/// The client's request payload.
pub fn hello_request() -> (r: Vec<u8>)
    ensures
        r@ == hello_bytes(),
{
    let mut v: Vec<u8> = Vec::new();
    v.push(0x48);
    v.push(0x65);
    v.push(0x6c);
    v.push(0x6c);
    v.push(0x6f);
    proof {
        assert(v@ =~= hello_bytes());
    }
    v
}

/// The server's answer to a message of `frame_count` frames: the fixed
/// reply for any non-empty message, nothing for an empty one.
pub fn server_reply(frame_count: usize) -> (r: Option<Vec<u8>>)
    ensures
        r is Some <==> frame_count > 0,
        r matches Some(v) ==> v@ == world_bytes(),
{
    if frame_count == 0 {
        return None;
    }
    let mut v: Vec<u8> = Vec::new();
    v.push(0x57);
    v.push(0x6f);
    v.push(0x72);
    v.push(0x6c);
    v.push(0x64);
    proof {
        assert(v@ =~= world_bytes());
    }
    Some(v)
}

} // verus!
