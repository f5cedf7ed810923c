//! The byte framing of log messages: a writer ends each message with the
//! byte `0xFF`, a reader cuts the byte stream at those bytes.

use vstd::prelude::*;

verus! {

/// The size of a writer's message buffer.
pub const LOG_MESSAGE_CAP: usize = 512;

/// The longest message a reader collects before it cuts.
pub const LOG_READ_CAP: usize = 1024;

/// The byte that ends a message.
pub const LOG_MESSAGE_END: u8 = 0xFF;

/// The bytes a writer sends for a message: the message and the end byte,
/// which is left out when the message fills the buffer but one byte.
pub open spec fn framed(msg: Seq<u8>) -> Seq<u8> {
    if msg.len() < LOG_MESSAGE_CAP - 1 {
        msg.push(LOG_MESSAGE_END)
    } else {
        msg
    }
}

/// The bytes a writer sends for `msg`.
pub fn frame_log_message(msg: &[u8]) -> (r: Vec<u8>)
    requires
        msg@.len() <= LOG_MESSAGE_CAP,
    ensures
        r@ == framed(msg@),
{
    let mut r: Vec<u8> = Vec::new();
    let mut i: usize = 0;
    while i < msg.len()
        invariant
            i <= msg@.len(),
            r@ == msg@.subrange(0, i as int),
        decreases msg.len() - i,
    {
        r.push(msg[i]);
        i += 1;
        proof {
            assert(r@ =~= msg@.subrange(0, i as int));
        }
    }
    proof {
        assert(msg@.subrange(0, msg@.len() as int) =~= msg@);
    }
    if msg.len() < LOG_MESSAGE_CAP - 1 {
        r.push(LOG_MESSAGE_END);
    }
    r
}

/// The messages a reader has cut from the first `k` bytes of a stream, and
/// the bytes it holds of the message after them: an end byte, or a byte
/// arriving when it already holds `LOG_READ_CAP` bytes, closes the message
/// held (that byte is dropped).
pub open spec fn log_scan(bytes: Seq<u8>, k: int) -> (Seq<Seq<u8>>, Seq<u8>)
    decreases k,
{
    if k <= 0 {
        (Seq::empty(), Seq::empty())
    } else {
        let (msgs, cur) = log_scan(bytes, k - 1);
        let b = bytes[k - 1];
        if cur.len() >= LOG_READ_CAP || b == LOG_MESSAGE_END {
            (msgs.push(cur), Seq::empty())
        } else {
            (msgs, cur.push(b))
        }
    }
}

/// The models of a list of messages.
pub open spec fn msgs_view(v: Seq<Vec<u8>>) -> Seq<Seq<u8>> {
    v.map_values(|m: Vec<u8>| m@)
}

/// The messages a reader cuts from `bytes`; bytes after the last cut are
/// not part of a message yet and are not returned.
pub fn split_log_messages(bytes: &[u8]) -> (r: Vec<Vec<u8>>)
    ensures
        msgs_view(r@) == log_scan(bytes@, bytes@.len() as int).0,
{
    let mut msgs: Vec<Vec<u8>> = Vec::new();
    let mut cur: Vec<u8> = Vec::new();
    let mut i: usize = 0;
    while i < bytes.len()
        invariant
            i <= bytes@.len(),
            (msgs_view(msgs@), cur@) == log_scan(bytes@, i as int),
        decreases bytes.len() - i,
    {
        let b = bytes[i];
        if cur.len() >= LOG_READ_CAP || b == LOG_MESSAGE_END {
            let mut done: Vec<u8> = Vec::new();
            std::mem::swap(&mut done, &mut cur);
            let ghost before = msgs@;
            msgs.push(done);
            proof {
                assert(msgs_view(msgs@) =~= msgs_view(before).push(done@));
            }
        } else {
            cur.push(b);
        }
        i += 1;
    }
    msgs
}

} // verus!
