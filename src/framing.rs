use vstd::prelude::*;
use crate::codec::{be_bytes, be_val, pow256};

verus! {

/// Why a framed message could not be read back.
#[derive(Debug, Clone, Copy, PartialEq, Eq, Structural)]
pub enum FrameError {
    /// The input ends before the terminating zero-length chunk.
    Incomplete,
}

/// The largest payload that one chunk can carry.
pub const MAX_CHUNK: usize = 65535;

pub open spec fn min(a: nat, b: nat) -> nat {
    if a < b {
        a
    } else {
        b
    }
}

/// `msg` split into chunks of at most `max` bytes, each prefixed by its
/// 2-byte big-endian length, followed by a zero-length chunk.
pub open spec fn chunks(msg: Seq<u8>, max: nat) -> Seq<u8>
    decreases msg.len(),
{
    if msg.len() == 0 || max == 0 {
        seq![0u8, 0u8]
    } else {
        let n = min(msg.len(), max);
        be_bytes(n, 2) + msg.take(n as int) + chunks(msg.skip(n as int), max)
    }
}

/// Reassembles the chunks that start at `p` up to the zero-length chunk;
/// gives the message and the position after the terminator.
pub open spec fn dechunk(s: Seq<u8>, p: nat) -> Result<(Seq<u8>, nat), FrameError>
    decreases s.len() - p,
{
    if p + 2 > s.len() {
        Err(FrameError::Incomplete)
    } else {
        let n = be_val(s.subrange(p as int, p + 2int));
        if n == 0 {
            Ok((Seq::empty(), p + 2))
        } else if p + 2 + n > s.len() {
            Err(FrameError::Incomplete)
        } else {
            match dechunk(s, p + 2 + n) {
                Ok((m, q)) => Ok((s.subrange(p + 2int, (p + 2 + n) as int) + m, q)),
                Err(e) => Err(e),
            }
        }
    }
}

/// Splits a message into chunks of at most `max` bytes and terminates it.
pub fn frame(msg: &Vec<u8>, max: usize) -> (r: Vec<u8>)
    requires
        0 < max <= MAX_CHUNK,
    ensures
        r@ == chunks(msg@, max as nat),
{
    let mut out: Vec<u8> = Vec::new();
    let mut i: usize = 0;
    assert(msg@.skip(0) =~= msg@);
    assert(out@ + chunks(msg@, max as nat) =~= chunks(msg@, max as nat));
    while i < msg.len()
        invariant
            0 < max <= MAX_CHUNK,
            i <= msg.len(),
            out@ + chunks(msg@.skip(i as int), max as nat) == chunks(msg@, max as nat),
        decreases msg.len() - i,
    {
        let rest = msg.len() - i;
        let n: usize = if rest < max { rest } else { max };
        let ghost tail = msg@.skip(i as int);
        let ghost before = out@;
        out.push((n / 256) as u8);
        out.push((n % 256) as u8);
        proof {
            reveal_with_fuel(be_bytes, 3);
            assert(be_bytes(n as nat, 2) =~= seq![(n / 256) as u8, (n % 256) as u8]);
            assert(out@ =~= before + be_bytes(n as nat, 2) + msg@.subrange(i as int, i as int));
        }
        let mut j: usize = 0;
        while j < n
            invariant
                i + n <= msg.len(),
                j <= n,
                out@ == before + be_bytes(n as nat, 2) + msg@.subrange(i as int, i + j),
            decreases n - j,
        {
            out.push(msg[i + j]);
            j = j + 1;
            assert(out@ =~= before + be_bytes(n as nat, 2) + msg@.subrange(i as int, i + j));
        }
        proof {
            assert(tail.take(n as int) =~= msg@.subrange(i as int, i + n));
            assert(tail.skip(n as int) =~= msg@.skip(i + n));
            assert(before + chunks(tail, max as nat) =~= out@ + chunks(msg@.skip(i + n), max as nat));
        }
        i = i + n;
    }
    proof {
        assert(msg@.skip(i as int) =~= Seq::<u8>::empty());
    }
    out.push(0);
    out.push(0);
    assert(out@ =~= chunks(msg@, max as nat));
    out
}

/// Reads one framed message starting at `pos`: the payloads of its chunks
/// joined, and the position after the terminating zero-length chunk.
pub fn unframe(buf: &Vec<u8>, pos: usize) -> (r: Result<(Vec<u8>, usize), FrameError>)
    ensures
        match dechunk(buf@, pos as nat) {
            Ok((m, q)) => r is Ok && r->Ok_0.0@ == m && r->Ok_0.1 == q,
            Err(e) => r == Err::<(Vec<u8>, usize), FrameError>(e),
        },
{
    let ghost s = buf@;
    let mut out: Vec<u8> = Vec::new();
    let mut p = pos;
    loop
        invariant
            s == buf@,
            dechunk(s, pos as nat) == (match dechunk(s, p as nat) {
                Ok((m, q)) => Ok((out@ + m, q)),
                Err(e) => Err::<(Seq<u8>, nat), FrameError>(e),
            }),
        decreases buf.len() - p,
    {
        if p > buf.len() || buf.len() - p < 2 {
            return Err(FrameError::Incomplete);
        }
        let n: usize = buf[p] as usize * 256 + buf[p + 1] as usize;
        proof {
            let h = s.subrange(p as int, p + 2int);
            reveal_with_fuel(be_val, 3);
            assert(h.drop_last() =~= seq![h[0]]);
            assert(h.drop_last().drop_last() =~= Seq::<u8>::empty());
            assert(be_val(h) == h[0] * 256 + h[1]);
        }
        if n == 0 {
            assert(out@ + Seq::<u8>::empty() =~= out@);
            return Ok((out, p + 2));
        }
        if buf.len() - p - 2 < n {
            return Err(FrameError::Incomplete);
        }
        let ghost before = out@;
        let mut j: usize = 0;
        while j < n
            invariant
                p + 2 + n <= buf.len(),
                j <= n,
                out@ == before + buf@.subrange(p + 2int, p + 2 + j),
            decreases n - j,
        {
            out.push(buf[p + 2 + j]);
            j = j + 1;
            assert(out@ =~= before + buf@.subrange(p + 2int, p + 2 + j));
        }
        proof {
            match dechunk(s, (p + 2 + n) as nat) {
                Ok((m, q)) => {
                    assert(before + (s.subrange(p + 2int, (p + 2 + n) as int) + m) =~= out@ + m);
                },
                Err(_) => {},
            }
        }
        p = p + 2 + n;
    }
}

/// Decoding the framing of a message, whatever follows it, gives back the
/// message and the position just after its terminator.
pub proof fn lemma_frame_round_trip(msg: Seq<u8>, max: nat, rest: Seq<u8>)
    requires
        0 < max <= MAX_CHUNK,
    ensures
        dechunk(chunks(msg, max) + rest, 0) == Ok::<(Seq<u8>, nat), FrameError>(
            (msg, chunks(msg, max).len()),
        ),
    decreases msg.len(),
{
    let c = chunks(msg, max);
    let s = c + rest;
    if msg.len() == 0 {
        assert(s.subrange(0, 2) =~= seq![0u8, 0u8]);
        assert(be_val(seq![0u8, 0u8]) == 0) by {
            reveal_with_fuel(be_val, 3);
            assert(seq![0u8, 0u8].drop_last() =~= seq![0u8]);
            assert(seq![0u8].drop_last() =~= Seq::<u8>::empty());
        }
        assert(msg =~= Seq::<u8>::empty());
    } else {
        let n = min(msg.len(), max);
        reveal_with_fuel(pow256, 3);
        crate::codec::lemma_be_round_pub(n, 2);
        let tail = msg.skip(n as int);
        lemma_frame_round_trip(tail, max, rest);
        lemma_dechunk_shift(be_bytes(n, 2) + msg.take(n as int), chunks(tail, max) + rest);
        assert(s.subrange(0, 2) =~= be_bytes(n, 2));
        assert(s.subrange(2, (2 + n) as int) =~= msg.take(n as int));
        assert(s =~= (be_bytes(n, 2) + msg.take(n as int)) + (chunks(tail, max) + rest));
        assert(msg.take(n as int) + tail =~= msg);
    }
}

/// Reading framed data after a prefix is reading it alone, shifted.
proof fn lemma_dechunk_shift(pre: Seq<u8>, s: Seq<u8>)
    ensures
        forall|p: nat| #![trigger dechunk(s, p)]
            dechunk(pre + s, pre.len() + p) == (match dechunk(s, p) {
                Ok((m, q)) => Ok((m, pre.len() + q)),
                Err(e) => Err::<(Seq<u8>, nat), FrameError>(e),
            }),
{
    assert forall|p: nat| #![trigger dechunk(s, p)]
        dechunk(pre + s, pre.len() + p) == (match dechunk(s, p) {
            Ok((m, q)) => Ok((m, pre.len() + q)),
            Err(e) => Err::<(Seq<u8>, nat), FrameError>(e),
        }) by {
        lemma_dechunk_shift_at(pre, s, p);
    }
}

proof fn lemma_dechunk_shift_at(pre: Seq<u8>, s: Seq<u8>, p: nat)
    ensures
        dechunk(pre + s, pre.len() + p) == (match dechunk(s, p) {
            Ok((m, q)) => Ok((m, pre.len() + q)),
            Err(e) => Err::<(Seq<u8>, nat), FrameError>(e),
        }),
    decreases s.len() - p,
{
    let t = pre + s;
    let o = pre.len();
    if p + 2 <= s.len() {
        assert(t.subrange((o + p) as int, (o + p + 2) as int) =~= s.subrange(p as int, p + 2int));
        let n = be_val(s.subrange(p as int, p + 2int));
        if n != 0 && p + 2 + n <= s.len() {
            assert(t.subrange((o + p + 2) as int, (o + p + 2 + n) as int) =~= s.subrange(p + 2int, (p + 2 + n) as int));
            lemma_dechunk_shift_at(pre, s, p + 2 + n);
        }
    }
}

} // verus!
