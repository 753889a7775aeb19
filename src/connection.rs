use vstd::prelude::*;
use crate::codec::{be_bytes, be_val};

verus! {

/// The 4-byte value that opens every handshake.
pub const MAGIC: [u8; 4] = [0x60, 0x60, 0xB0, 0x17];

/// Why a handshake did not settle on a protocol version.
#[derive(Debug, Clone, Copy, PartialEq, Eq, Structural)]
pub enum HandshakeError {
    /// The server's reply is not 4 bytes long.
    Malformed,
    /// The server chose none of the proposed versions.
    NoCompatibleVersion,
}

/// The state of one link to the server.
#[derive(Debug, Clone, Copy, PartialEq, Eq, Structural)]
pub enum ConnState {
    Disconnected,
    Handshaking,
    Ready,
    Streaming,
    Failed,
}

/// The proposed versions, 4 bytes each, big-endian.
pub open spec fn versions_bytes(vs: Seq<u32>) -> Seq<u8>
    decreases vs.len(),
{
    if vs.len() == 0 {
        Seq::empty()
    } else {
        versions_bytes(vs.drop_last()) + be_bytes(vs.last() as nat, 4)
    }
}

/// The opening bytes of a handshake: the magic value, then the proposed
/// versions, highest preference first, padded with zero versions to four.
pub open spec fn handshake_bytes(vs: Seq<u32>) -> Seq<u8> {
    MAGIC@ + versions_bytes(vs) + Seq::new(((4 - vs.len()) * 4) as nat, |i: int| 0u8)
}

/// The version that the server's reply selects, if it is one that was proposed.
pub open spec fn chosen(resp: Seq<u8>, vs: Seq<u32>) -> Result<u32, HandshakeError> {
    if resp.len() != 4 {
        Err(HandshakeError::Malformed)
    } else if be_val(resp) != 0 && vs.contains(be_val(resp) as u32) {
        Ok(be_val(resp) as u32)
    } else {
        Err(HandshakeError::NoCompatibleVersion)
    }
}

/// The bytes that open a handshake proposing `versions`.
pub fn handshake_request(versions: &Vec<u32>) -> (r: Vec<u8>)
    requires
        versions.len() <= 4,
    ensures
        r@ == handshake_bytes(versions@),
{
    let mut out: Vec<u8> = Vec::new();
    out.push(MAGIC[0]);
    out.push(MAGIC[1]);
    out.push(MAGIC[2]);
    out.push(MAGIC[3]);
    assert(out@ =~= MAGIC@ + versions_bytes(versions@.take(0)));
    let mut i: usize = 0;
    while i < versions.len()
        invariant
            i <= versions.len() <= 4,
            out@ == MAGIC@ + versions_bytes(versions@.take(i as int)),
        decreases versions.len() - i,
    {
        crate::codec::push_be(&mut out, versions[i] as u64, 4);
        assert(versions@.take(i + 1).drop_last() =~= versions@.take(i as int));
        i = i + 1;
    }
    assert(versions@.take(i as int) =~= versions@);
    let ghost mid = out@;
    let mut j: usize = 0;
    while j < (4 - i) * 4
        invariant
            i == versions.len() <= 4,
            j <= (4 - i) * 4,
            out@ == mid + Seq::new(j as nat, |k: int| 0u8),
        decreases (4 - i) * 4 - j,
    {
        out.push(0);
        j = j + 1;
        assert(out@ =~= mid + Seq::new(j as nat, |k: int| 0u8));
    }
    out
}

/// Reads the server's reply to a handshake: the version it chose, which must
/// be one of those proposed.
pub fn accept_version(resp: &Vec<u8>, proposed: &Vec<u32>) -> (r: Result<u32, HandshakeError>)
    ensures
        r == chosen(resp@, proposed@),
{
    if resp.len() != 4 {
        return Err(HandshakeError::Malformed);
    }
    let v: u32 = ((resp[0] as u32 * 256 + resp[1] as u32) * 256 + resp[2] as u32) * 256 + resp[3] as u32;
    proof {
        let s = resp@;
        reveal_with_fuel(be_val, 5);
        assert(s.drop_last().drop_last().drop_last().drop_last() =~= Seq::<u8>::empty());
        assert(s.drop_last().drop_last().drop_last() =~= seq![s[0]]);
        assert(s.drop_last().drop_last() =~= seq![s[0], s[1]]);
        assert(s.drop_last() =~= seq![s[0], s[1], s[2]]);
        assert(be_val(s) == v as nat);
    }
    if v == 0 {
        return Err(HandshakeError::NoCompatibleVersion);
    }
    let mut i: usize = 0;
    while i < proposed.len()
        invariant
            i <= proposed.len(),
            be_val(resp@) == v as nat,
            resp@.len() == 4,
            v != 0,
            forall|k: int| 0 <= k < i ==> proposed@[k] != v,
        decreases proposed.len() - i,
    {
        if proposed[i] == v {
            assert(proposed@[i as int] == v);
            assert(proposed@.contains(be_val(resp@) as u32));
            return Ok(v);
        }
        i = i + 1;
    }
    Err(HandshakeError::NoCompatibleVersion)
}

/// The state that a link moves to when the server answers its handshake
/// and HELLO: ready when both succeeded, failed otherwise.
pub fn after_hello(version: Result<u32, HandshakeError>, hello_ok: bool) -> (r: ConnState)
    ensures
        r == (if version is Ok && hello_ok {
            ConnState::Ready
        } else {
            ConnState::Failed
        }),
{
    match version {
        Ok(_) => if hello_ok {
            ConnState::Ready
        } else {
            ConnState::Failed
        },
        Err(_) => ConnState::Failed,
    }
}

/// The state after a query's RUN was answered.
pub open spec fn run_state(state: ConnState, success: bool) -> ConnState {
    if state == ConnState::Ready && success {
        ConnState::Streaming
    } else {
        ConnState::Failed
    }
}

/// The state after a stream's last summary, or its discard, was answered.
pub open spec fn summary_state(state: ConnState, success: bool) -> ConnState {
    if state == ConnState::Streaming && success {
        ConnState::Ready
    } else {
        ConnState::Failed
    }
}

/// A stream dropped before its end leaves its link reusable exactly when
/// the DISCARD is acknowledged: the link is ready for the next RUN, which
/// streams again. A failed discard leaves it failed, so it is retired.
pub proof fn lemma_discard_recovers(success: bool)
    ensures
        success ==> summary_state(ConnState::Streaming, success) == ConnState::Ready && run_state(
            summary_state(ConnState::Streaming, success),
            true,
        ) == ConnState::Streaming,
        !success ==> summary_state(ConnState::Streaming, success) == ConnState::Failed,
        forall|b: bool| #[trigger] run_state(ConnState::Failed, b) == ConnState::Failed,
{
}

/// The state after a query's RUN was answered: streaming on success.
pub fn after_run(state: ConnState, success: bool) -> (r: ConnState)
    ensures
        r == run_state(state, success),
{
    if state == ConnState::Ready && success {
        ConnState::Streaming
    } else {
        ConnState::Failed
    }
}

/// The state after the last summary of a stream (or its discard) was
/// answered: ready again on success.
pub fn after_summary(state: ConnState, success: bool) -> (r: ConnState)
    ensures
        r == summary_state(state, success),
{
    if state == ConnState::Streaming && success {
        ConnState::Ready
    } else {
        ConnState::Failed
    }
}

} // verus!
