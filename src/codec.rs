use vstd::prelude::*;
use vstd::utf8::*;
use crate::value::{Val, WireValue};

verus! {

/// Why a byte sequence could not be decoded into a value.
#[derive(Debug, Clone, Copy, PartialEq, Eq, Structural)]
pub enum CodecError {
    /// The marker byte names no known form of value.
    UnknownMarker(u8),
    /// The input ended in the middle of a value.
    UnexpectedEnd,
    /// A length field announces more data than the input holds.
    SizeMismatch,
    /// A string's bytes are not valid UTF-8.
    InvalidUtf8,
    /// A map key is not a string.
    KeyNotString,
    /// A map holds the same key twice.
    DuplicateKey,
}

pub open spec fn pow256(k: nat) -> nat
    decreases k,
{
    if k == 0 {
        1
    } else {
        256 * pow256((k - 1) as nat)
    }
}

/// The `k` low-order bytes of `x`, most significant first.
pub open spec fn be_bytes(x: nat, k: nat) -> Seq<u8>
    decreases k,
{
    if k == 0 {
        Seq::empty()
    } else {
        be_bytes(x / 256, (k - 1) as nat).push((x % 256) as u8)
    }
}

/// The number that a big-endian byte sequence denotes.
pub open spec fn be_val(s: Seq<u8>) -> nat
    decreases s.len(),
{
    if s.len() == 0 {
        0
    } else {
        be_val(s.drop_last()) * 256 + s.last() as nat
    }
}

/// `n` as an unsigned `k`-byte two's-complement number.
pub open spec fn to_unsigned(n: int, k: nat) -> nat {
    if n < 0 {
        (n + pow256(k)) as nat
    } else {
        n as nat
    }
}

/// The signed number that the unsigned `k`-byte number `x` denotes.
pub open spec fn to_signed(x: nat, k: nat) -> int {
    if x * 2 >= pow256(k) {
        x - pow256(k)
    } else {
        x as int
    }
}

pub open spec fn enc_int(n: int) -> Seq<u8> {
    if -16 <= n < 128 {
        seq![to_unsigned(n, 1) as u8]
    } else if -128 <= n < 128 {
        seq![0xC8u8] + be_bytes(to_unsigned(n, 1), 1)
    } else if -32768 <= n < 32768 {
        seq![0xC9u8] + be_bytes(to_unsigned(n, 2), 2)
    } else if -2147483648 <= n < 2147483648 {
        seq![0xCAu8] + be_bytes(to_unsigned(n, 4), 4)
    } else {
        seq![0xCBu8] + be_bytes(to_unsigned(n, 8), 8)
    }
}

/// The size header of a string, byte array, list or map of `n` items:
/// a tiny marker `tiny + n` when `has_tiny` and `n < 16`, else the marker
/// `m8`, `m8 + 1` or `m8 + 2` followed by `n` in 1, 2 or 4 bytes.
pub open spec fn enc_size(has_tiny: bool, tiny: u8, m8: u8, n: nat) -> Seq<u8> {
    if has_tiny && n < 16 {
        seq![(tiny + n) as u8]
    } else if n < 256 {
        seq![m8] + be_bytes(n, 1)
    } else if n < 65536 {
        seq![(m8 + 1) as u8] + be_bytes(n, 2)
    } else {
        seq![(m8 + 2) as u8] + be_bytes(n, 4)
    }
}

pub open spec fn enc_str(s: Seq<char>) -> Seq<u8> {
    enc_size(true, 0x80, 0xD0, encode_utf8(s).len()) + encode_utf8(s)
}

/// The encoding of a value.
pub open spec fn enc(v: Val) -> Seq<u8>
    decreases v,
{
    match v {
        Val::Null => seq![0xC0u8],
        Val::Bool(b) => seq![
            if b {
                0xC3u8
            } else {
                0xC2u8
            },
        ],
        Val::Integer(n) => enc_int(n),
        Val::Float(f) => seq![0xC1u8] + be_bytes(f as nat, 8),
        Val::Bytes(b) => enc_size(false, 0, 0xCC, b.len()) + b,
        Val::Str(s) => enc_str(s),
        Val::List(l) => enc_size(true, 0x90, 0xD4, l.len()) + enc_seq(l),
        Val::Dict(m) => enc_size(true, 0xA0, 0xD8, m.len()) + enc_dict(m),
        Val::Struct(t, l) => seq![(0xB0 + l.len()) as u8, t] + enc_seq(l),
    }
}

/// The encodings of the values of `l`, one after the other.
pub open spec fn enc_seq(l: Seq<Val>) -> Seq<u8>
    decreases l,
{
    if l.len() == 0 {
        Seq::empty()
    } else {
        enc_seq(l.drop_last()) + enc(l.last())
    }
}

/// The encodings of the entries of `m`, each key followed by its value.
pub open spec fn enc_dict(m: Seq<(Seq<char>, Val)>) -> Seq<u8>
    decreases m,
{
    if m.len() == 0 {
        Seq::empty()
    } else {
        enc_dict(m.drop_last()) + enc_str(m.last().0) + enc(m.last().1)
    }
}


/// What a marker byte, with the fixed-width field after it, announces.
#[derive(Debug, Clone, Copy, PartialEq, Eq, Structural)]
pub enum Head {
    Null,
    Bool(bool),
    Integer(i64),
    Float(u64),
    Bytes(u64),
    Str(u64),
    List(u64),
    Dict(u64),
    Struct(u64),
}

/// The byte width of a length or number field, by its place in a marker family.
pub open spec fn width(i: int) -> nat {
    if i == 0 {
        1
    } else if i == 1 {
        2
    } else if i == 2 {
        4
    } else {
        8
    }
}

/// The `k`-byte big-endian number after the marker at `p`, and where it ends.
pub open spec fn fixed(s: Seq<u8>, p: nat, k: nat) -> Result<(nat, nat), CodecError> {
    if p + 1 + k > s.len() {
        Err(CodecError::UnexpectedEnd)
    } else {
        Ok((be_val(s.subrange(p + 1 as int, p + 1 + k as int)), p + 1 + k))
    }
}

/// The head of form `form` (a number, a float, or the size of bytes, a
/// string, a list or a map) for the `k`-byte field `x`.
pub open spec fn mk_head(form: int, x: nat, k: nat) -> Head {
    if form == 0 {
        Head::Integer(to_signed(x, k) as i64)
    } else if form == 1 {
        Head::Float(x as u64)
    } else if form == 2 {
        Head::Bytes(x as u64)
    } else if form == 3 {
        Head::Str(x as u64)
    } else if form == 4 {
        Head::List(x as u64)
    } else {
        Head::Dict(x as u64)
    }
}

pub open spec fn lift(r: Result<(nat, nat), CodecError>, form: int, k: nat) -> Result<(Head, nat), CodecError> {
    match r {
        Ok((x, q)) => Ok((mk_head(form, x, k), q)),
        Err(e) => Err(e),
    }
}

/// Reads the marker at `p` and its fixed-width field; gives the head and
/// the position after it.
pub open spec fn parse_head(s: Seq<u8>, p: nat) -> Result<(Head, nat), CodecError> {
    if p >= s.len() {
        Err(CodecError::UnexpectedEnd)
    } else {
        let m = s[p as int];
        if m < 0x80 {
            Ok((Head::Integer(m as i64), p + 1))
        } else if m >= 0xF0 {
            Ok((Head::Integer((m - 256) as i64), p + 1))
        } else if m < 0x90 {
            Ok((Head::Str((m - 0x80) as u64), p + 1))
        } else if m < 0xA0 {
            Ok((Head::List((m - 0x90) as u64), p + 1))
        } else if m < 0xB0 {
            Ok((Head::Dict((m - 0xA0) as u64), p + 1))
        } else if m < 0xC0 {
            Ok((Head::Struct((m - 0xB0) as u64), p + 1))
        } else if m == 0xC0 {
            Ok((Head::Null, p + 1))
        } else if m == 0xC1 {
            lift(fixed(s, p, 8), 1, 8)
        } else if m == 0xC2 {
            Ok((Head::Bool(false), p + 1))
        } else if m == 0xC3 {
            Ok((Head::Bool(true), p + 1))
        } else if 0xC8 <= m <= 0xCB {
            lift(fixed(s, p, width(m - 0xC8)), 0, width(m - 0xC8))
        } else if 0xCC <= m <= 0xCE {
            lift(fixed(s, p, width(m - 0xCC)), 2, 0)
        } else if 0xD0 <= m <= 0xD2 {
            lift(fixed(s, p, width(m - 0xD0)), 3, 0)
        } else if 0xD4 <= m <= 0xD6 {
            lift(fixed(s, p, width(m - 0xD4)), 4, 0)
        } else if 0xD8 <= m <= 0xDA {
            lift(fixed(s, p, width(m - 0xD8)), 5, 0)
        } else {
            Err(CodecError::UnknownMarker(m))
        }
    }
}

/// Decodes the value that starts at `p`; gives it and the position after it.
pub open spec fn parse(s: Seq<u8>, p: nat) -> Result<(Val, nat), CodecError>
    decreases s.len() - p, 0int,
{
    match parse_head(s, p) {
        Err(e) => Err(e),
        Ok((h, q)) => if q <= p || q > s.len() {
            Err(CodecError::UnexpectedEnd)
        } else {
            match h {
                Head::Null => Ok((Val::Null, q)),
                Head::Bool(b) => Ok((Val::Bool(b), q)),
                Head::Integer(n) => Ok((Val::Integer(n as int), q)),
                Head::Float(f) => Ok((Val::Float(f), q)),
                Head::Bytes(n) => if q + n > s.len() {
                    Err(CodecError::SizeMismatch)
                } else {
                    Ok((Val::Bytes(s.subrange(q as int, q + n as int)), q + n as nat))
                },
                Head::Str(n) => if q + n > s.len() {
                    Err(CodecError::SizeMismatch)
                } else if !valid_utf8(s.subrange(q as int, q + n as int)) {
                    Err(CodecError::InvalidUtf8)
                } else {
                    Ok((Val::Str(decode_utf8(s.subrange(q as int, q + n as int))), q + n as nat))
                },
                Head::List(n) => if q + n > s.len() {
                    Err(CodecError::SizeMismatch)
                } else {
                    match parse_seq(s, q, n as nat) {
                        Ok((l, r)) => Ok((Val::List(l), r)),
                        Err(e) => Err(e),
                    }
                },
                Head::Dict(n) => if q + 2 * n > s.len() {
                    Err(CodecError::SizeMismatch)
                } else {
                    match parse_dict(s, q, n as nat) {
                        Ok((m, r)) => if keys_unique(m) {
                            Ok((Val::Dict(m), r))
                        } else {
                            Err(CodecError::DuplicateKey)
                        },
                        Err(e) => Err(e),
                    }
                },
                Head::Struct(n) => if q >= s.len() {
                    Err(CodecError::UnexpectedEnd)
                } else if q + 1 + n > s.len() {
                    Err(CodecError::SizeMismatch)
                } else {
                    match parse_seq(s, q + 1, n as nat) {
                        Ok((l, r)) => Ok((Val::Struct(s[q as int], l), r)),
                        Err(e) => Err(e),
                    }
                },
            }
        },
    }
}

/// Decodes `n` values one after the other from `p`.
pub open spec fn parse_seq(s: Seq<u8>, p: nat, n: nat) -> Result<(Seq<Val>, nat), CodecError>
    decreases s.len() - p, n + 1,
{
    if n == 0 {
        Ok((Seq::empty(), p))
    } else if p > s.len() {
        Err(CodecError::UnexpectedEnd)
    } else {
        match parse(s, p) {
            Err(e) => Err(e),
            Ok((v, q)) => if q <= p || q > s.len() {
                Err(CodecError::UnexpectedEnd)
            } else {
                match parse_seq(s, q, (n - 1) as nat) {
                    Ok((l, r)) => Ok((seq![v] + l, r)),
                    Err(e) => Err(e),
                }
            },
        }
    }
}

/// Decodes `n` map entries, each a string key and a value, from `p`.
pub open spec fn parse_dict(s: Seq<u8>, p: nat, n: nat) -> Result<(Seq<(Seq<char>, Val)>, nat), CodecError>
    decreases s.len() - p, n + 1,
{
    if n == 0 {
        Ok((Seq::empty(), p))
    } else if p > s.len() {
        Err(CodecError::UnexpectedEnd)
    } else {
        match parse(s, p) {
            Err(e) => Err(e),
            Ok((k, q)) => if q <= p || q > s.len() {
                Err(CodecError::UnexpectedEnd)
            } else {
                match k {
                    Val::Str(key) => match parse(s, q) {
                        Err(e) => Err(e),
                        Ok((v, q2)) => if q2 <= q || q2 > s.len() {
                            Err(CodecError::UnexpectedEnd)
                        } else {
                            match parse_dict(s, q2, (n - 1) as nat) {
                                Ok((m, r)) => Ok((seq![(key, v)] + m, r)),
                                Err(e) => Err(e),
                            }
                        },
                    },
                    _ => Err(CodecError::KeyNotString),
                }
            },
        }
    }
}


/// A value whose sizes fit the encoding: integers in 64 bits, lengths in
/// 32 bits, structures of at most 15 fields.
pub open spec fn wf(v: Val) -> bool
    decreases v,
{
    match v {
        Val::Integer(n) => i64::MIN <= n <= i64::MAX,
        Val::Bytes(b) => b.len() < 0x1_0000_0000,
        Val::Str(s) => encode_utf8(s).len() < 0x1_0000_0000,
        Val::List(l) => l.len() < 0x1_0000_0000 && wf_seq(l),
        Val::Dict(m) => m.len() < 0x1_0000_0000 && wf_dict(m) && keys_unique(m),
        Val::Struct(_, l) => l.len() < 16 && wf_seq(l),
        _ => true,
    }
}

/// Whether no two entries of `m` share a key.
pub open spec fn keys_unique(m: Seq<(Seq<char>, Val)>) -> bool {
    forall|i: int, j: int| 0 <= i < j < m.len() ==> m[i].0 != m[j].0
}

/// Whether no two entries of `m` share a key.
pub fn unique_keys(m: &Vec<(String, WireValue)>) -> (r: bool)
    ensures
        r == keys_unique(entries_view(m)),
{
    let ghost d = entries_view(m);
    assert forall|i: int| 0 <= i < m.len() implies #[trigger] d[i].0 == m@[i].0@ by {}
    let mut j: usize = 0;
    while j < m.len()
        invariant
            j <= m.len(),
            d == entries_view(m),
            forall|i: int| 0 <= i < m.len() ==> #[trigger] d[i].0 == m@[i].0@,
            forall|a: int, b: int| 0 <= a < b < j ==> d[a].0 != d[b].0,
        decreases m.len() - j,
    {
        let mut i: usize = 0;
        while i < j
            invariant
                i <= j < m.len(),
                d == entries_view(m),
                forall|k: int| 0 <= k < m.len() ==> #[trigger] d[k].0 == m@[k].0@,
                forall|a: int, b: int| 0 <= a < b < j ==> d[a].0 != d[b].0,
                forall|a: int| 0 <= a < i ==> d[a].0 != d[j as int].0,
            decreases j - i,
        {
            if crate::row::str_eq(m[i].0.as_str(), m[j].0.as_str()) {
                assert(d[i as int].0 == d[j as int].0);
                return false;
            }
            i = i + 1;
        }
        j = j + 1;
    }
    true
}

pub open spec fn wf_seq(l: Seq<Val>) -> bool
    decreases l,
{
    if l.len() == 0 {
        true
    } else {
        wf_seq(l.drop_last()) && wf(l.last())
    }
}

pub open spec fn wf_dict(m: Seq<(Seq<char>, Val)>) -> bool
    decreases m,
{
    if m.len() == 0 {
        true
    } else {
        wf_dict(m.drop_last()) && encode_utf8(m.last().0).len() < 0x1_0000_0000 && wf(m.last().1)
    }
}

proof fn lemma_be_len(x: nat, k: nat)
    ensures
        be_bytes(x, k).len() == k,
    decreases k,
{
    if k > 0 {
        lemma_be_len(x / 256, (k - 1) as nat);
    }
}

/// Reading back the `k` low-order bytes of a number below `256^k` gives it.
pub proof fn lemma_be_round_pub(x: nat, k: nat)
    requires
        x < pow256(k),
    ensures
        be_bytes(x, k).len() == k,
        be_val(be_bytes(x, k)) == x,
{
    lemma_be_round(x, k);
}

proof fn lemma_be_round(x: nat, k: nat)
    requires
        x < pow256(k),
    ensures
        be_bytes(x, k).len() == k,
        be_val(be_bytes(x, k)) == x,
    decreases k,
{
    lemma_be_len(x, k);
    if k > 0 {
        let p = pow256((k - 1) as nat);
        assert(x / 256 < p) by (nonlinear_arith)
            requires
                x < 256 * p,
        ;
        lemma_be_round(x / 256, (k - 1) as nat);
        assert(be_bytes(x, k).drop_last() =~= be_bytes(x / 256, (k - 1) as nat));
    }
}

proof fn lemma_be_bound(s: Seq<u8>)
    ensures
        be_val(s) < pow256(s.len()),
    decreases s.len(),
{
    if s.len() > 0 {
        lemma_be_bound(s.drop_last());
        let a = be_val(s.drop_last());
        let p = pow256((s.len() - 1) as nat);
        let b = s.last() as nat;
        assert(a * 256 + b < 256 * p) by (nonlinear_arith)
            requires
                a < p,
                b < 256,
        ;
    }
}

proof fn lemma_pow256()
    ensures
        pow256(1) == 0x100,
        pow256(2) == 0x1_0000,
        pow256(4) == 0x1_0000_0000,
        pow256(8) == 0x1_0000_0000_0000_0000,
{
    reveal_with_fuel(pow256, 9);
}

/// Appends the `k` low-order bytes of `x`, most significant first.
pub(crate) fn push_be(out: &mut Vec<u8>, x: u64, k: usize)
    requires
        k <= 8,
    ensures
        final(out)@ == old(out)@ + be_bytes(x as nat, k as nat),
    decreases k,
{
    if k > 0 {
        push_be(out, x / 256, k - 1);
        out.push((x % 256) as u8);
        assert(final(out)@ =~= old(out)@ + be_bytes(x as nat, k as nat));
    } else {
        assert(final(out)@ =~= old(out)@ + be_bytes(x as nat, k as nat));
    }
}

/// Reads `k` bytes at `pos` as a big-endian number.
fn read_be(buf: &Vec<u8>, pos: usize, k: usize) -> (r: u64)
    requires
        k <= 8,
        pos + k <= buf.len(),
    ensures
        r == be_val(buf@.subrange(pos as int, pos + k)),
    decreases k,
{
    if k == 0 {
        0
    } else {
        let h = read_be(buf, pos, k - 1);
        proof {
            let s = buf@.subrange(pos as int, pos + k - 1);
            lemma_be_bound(s);
            reveal_with_fuel(pow256, 8);
            assert(pow256((k - 1) as nat) <= pow256(7));
            assert(buf@.subrange(pos as int, pos + k).drop_last() =~= s);
        }
        h * 256 + buf[pos + k - 1] as u64
    }
}

fn push_all(out: &mut Vec<u8>, b: &[u8])
    ensures
        final(out)@ == old(out)@ + b@,
{
    let ghost start = out@;
    let mut i: usize = 0;
    while i < b.len()
        invariant
            i <= b@.len(),
            out@ == start + b@.subrange(0, i as int),
        decreases b@.len() - i,
    {
        out.push(b[i]);
        i = i + 1;
        assert(out@ =~= start + b@.subrange(0, i as int));
    }
    assert(b@.subrange(0, i as int) =~= b@);
}

/// Appends the size header of `n` items (see `enc_size`).
fn push_size(out: &mut Vec<u8>, has_tiny: bool, tiny: u8, m8: u8, n: u64)
    requires
        n < 0x1_0000_0000,
        tiny <= 0xF0,
        m8 <= 0xFD,
    ensures
        final(out)@ == old(out)@ + enc_size(has_tiny, tiny, m8, n as nat),
{
    let ghost start = out@;
    if has_tiny && n < 16 {
        out.push(tiny + n as u8);
    } else if n < 256 {
        out.push(m8);
        push_be(out, n, 1);
    } else if n < 65536 {
        out.push(m8 + 1);
        push_be(out, n, 2);
    } else {
        out.push(m8 + 2);
        push_be(out, n, 4);
    }
    assert(out@ =~= start + enc_size(has_tiny, tiny, m8, n as nat));
}

/// Appends the encoding of an integer, in the narrowest form that holds it.
fn push_int(out: &mut Vec<u8>, n: i64)
    ensures
        final(out)@ == old(out)@ + enc_int(n as int),
{
    let ghost start = out@;
    proof {
        lemma_pow256();
    }
    if -16 <= n && n < 128 {
        let b: u8 = if n < 0 { (n + 256) as u8 } else { n as u8 };
        out.push(b);
    } else if -128 <= n && n < 128 {
        out.push(0xC8);
        let u: u64 = if n < 0 { (n + 0x100) as u64 } else { n as u64 };
        push_be(out, u, 1);
    } else if -32768 <= n && n < 32768 {
        out.push(0xC9);
        let u: u64 = if n < 0 { (n + 0x1_0000) as u64 } else { n as u64 };
        push_be(out, u, 2);
    } else if -2147483648 <= n && n < 2147483648 {
        out.push(0xCA);
        let u: u64 = if n < 0 { (n + 0x1_0000_0000) as u64 } else { n as u64 };
        push_be(out, u, 4);
    } else {
        out.push(0xCB);
        let u: u64 = if n < 0 {
            ((n + 0x7FFF_FFFF_FFFF_FFFF + 1) as u64) + 0x8000_0000_0000_0000
        } else {
            n as u64
        };
        push_be(out, u, 8);
    }
    assert(out@ =~= start + enc_int(n as int));
}

fn push_str(out: &mut Vec<u8>, s: &String)
    requires
        encode_utf8(s@).len() < 0x1_0000_0000,
    ensures
        final(out)@ == old(out)@ + enc_str(s@),
{
    let b = s.as_str().as_bytes();
    push_size(out, true, 0x80, 0xD0, b.len() as u64);
    push_all(out, b);
    assert(final(out)@ =~= old(out)@ + enc_str(s@));
}

/// Appends the encoding of `v`.
pub fn encode(v: &WireValue, out: &mut Vec<u8>)
    requires
        wf(v@),
    ensures
        final(out)@ == old(out)@ + enc(v@),
    decreases v,
{
    let ghost start = out@;
    match v {
        WireValue::Null => out.push(0xC0),
        WireValue::Bool(b) => out.push(if *b { 0xC3 } else { 0xC2 }),
        WireValue::Integer(n) => push_int(out, *n),
        WireValue::Float(f) => {
            out.push(0xC1);
            push_be(out, *f, 8);
        },
        WireValue::Bytes(b) => {
            push_size(out, false, 0, 0xCC, b.len() as u64);
            push_all(out, b.as_slice());
        },
        WireValue::String(s) => push_str(out, s),
        WireValue::List(l) => {
            push_size(out, true, 0x90, 0xD4, l.len() as u64);
            assert(v@->List_0 =~= items_view(l));
            encode_items(l, out);
        },
        WireValue::Dict(m) => {
            push_size(out, true, 0xA0, 0xD8, m.len() as u64);
            assert(v@->Dict_0 =~= entries_view(m));
            encode_entries(m, out);
        },
        WireValue::Struct(t, l) => {
            out.push(0xB0 + l.len() as u8);
            out.push(*t);
            assert(v@->Struct_1 =~= items_view(l));
            encode_items(l, out);
        },
    }
    assert(out@ =~= start + enc(v@));
}

/// Appends the encodings of the values of `l`, one after the other.
fn encode_items(l: &Vec<WireValue>, out: &mut Vec<u8>)
    requires
        wf_seq(items_view(l)),
    ensures
        final(out)@ == old(out)@ + enc_seq(items_view(l)),
    decreases l, 1int,
{
    let ghost start = out@;
    let ghost vs = items_view(l);
    let mut i: usize = 0;
    while i < l.len()
        invariant
            vs == items_view(l),
            wf_seq(vs),
            i <= l.len(),
            out@ == start + enc_seq(vs.subrange(0, i as int)),
        decreases l.len() - i,
    {
        proof {
            lemma_wf_seq_at(vs, i as int);
        }
        encode(&l[i], out);
        proof {
            assert(vs.subrange(0, i + 1).drop_last() =~= vs.subrange(0, i as int));
        }
        i = i + 1;
    }
    assert(vs.subrange(0, i as int) =~= vs);
}

/// Appends the encodings of the entries of `m`, each key before its value.
fn encode_entries(m: &Vec<(String, WireValue)>, out: &mut Vec<u8>)
    requires
        wf_dict(entries_view(m)),
    ensures
        final(out)@ == old(out)@ + enc_dict(entries_view(m)),
    decreases m, 1int,
{
    let ghost start = out@;
    let ghost d = entries_view(m);
    let mut i: usize = 0;
    while i < m.len()
        invariant
            d == entries_view(m),
            wf_dict(d),
            i <= m.len(),
            out@ == start + enc_dict(d.subrange(0, i as int)),
        decreases m.len() - i,
    {
        proof {
            lemma_wf_dict_at(d, i as int);
        }
        encode_entry(&m[i], out);
        proof {
            assert(d.subrange(0, i + 1).drop_last() =~= d.subrange(0, i as int));
        }
        i = i + 1;
    }
    assert(d.subrange(0, i as int) =~= d);
}

fn encode_entry(e: &(String, WireValue), out: &mut Vec<u8>)
    requires
        wf(e.1@),
        encode_utf8(e.0@).len() < 0x1_0000_0000,
    ensures
        final(out)@ == old(out)@ + enc_str(e.0@) + enc(e.1@),
    decreases e, 1int,
{
    push_str(out, &e.0);
    encode(&e.1, out);
    assert(final(out)@ =~= old(out)@ + enc_str(e.0@) + enc(e.1@));
}

/// The models of the entries of `m`.
pub open spec fn entries_view(m: &Vec<(String, WireValue)>) -> Seq<(Seq<char>, Val)> {
    Seq::new(
        m.len() as nat,
        |i: int|
            if 0 <= i < m.len() {
                (m[i].0@, m[i].1.view())
            } else {
                (Seq::empty(), Val::Null)
            },
    )
}

/// The models of the values of `l`.
pub open spec fn items_view(l: &Vec<WireValue>) -> Seq<Val> {
    Seq::new(
        l.len() as nat,
        |i: int|
            if 0 <= i < l.len() {
                l[i].view()
            } else {
                Val::Null
            },
    )
}

proof fn lemma_wf_seq_at(l: Seq<Val>, i: int)
    requires
        wf_seq(l),
        0 <= i < l.len(),
    ensures
        wf(l[i]),
        wf_seq(l.subrange(0, i)),
    decreases l.len(),
{
    if i < l.len() - 1 {
        lemma_wf_seq_at(l.drop_last(), i);
        assert(l.drop_last().subrange(0, i) =~= l.subrange(0, i));
    } else {
        assert(l.drop_last() =~= l.subrange(0, i));
    }
}

proof fn lemma_wf_dict_at(m: Seq<(Seq<char>, Val)>, i: int)
    requires
        wf_dict(m),
        0 <= i < m.len(),
    ensures
        wf(m[i].1),
        encode_utf8(m[i].0).len() < 0x1_0000_0000,
    decreases m.len(),
{
    if i < m.len() - 1 {
        lemma_wf_dict_at(m.drop_last(), i);
    }
}


/// Relies on `String::from_utf8`: `Ok` exactly when the bytes are valid
/// UTF-8, holding the characters they encode.
#[verifier::external_body]
fn string_from_utf8(b: Vec<u8>) -> (r: Option<String>)
    ensures
        r is Some <==> valid_utf8(b@),
        r is Some ==> r->Some_0@ == decode_utf8(b@),
{
    String::from_utf8(b).ok()
}

/// Reads the `k`-byte number after the marker at `pos` (see `fixed`).
fn read_fixed(buf: &Vec<u8>, pos: usize, k: usize) -> (r: Result<(u64, usize), CodecError>)
    requires
        k <= 8,
        pos < buf.len(),
    ensures
        match fixed(buf@, pos as nat, k as nat) {
            Ok((x, q)) => r == Ok::<(u64, usize), CodecError>((x as u64, q as usize)) && x < pow256(k as nat),
            Err(e) => r == Err::<(u64, usize), CodecError>(e),
        },
{
    if k > buf.len() - pos - 1 {
        Err(CodecError::UnexpectedEnd)
    } else {
        let x = read_be(buf, pos + 1, k);
        proof {
            lemma_be_bound(buf@.subrange(pos + 1, pos + 1 + k));
        }
        Ok((x, pos + 1 + k))
    }
}

/// The signed number that the unsigned `k`-byte number `x` denotes.
fn signed(x: u64, k: usize) -> (r: i64)
    requires
        k == 1 || k == 2 || k == 4 || k == 8,
        x < pow256(k as nat),
    ensures
        r == to_signed(x as nat, k as nat),
{
    proof {
        lemma_pow256();
    }
    if k == 8 {
        if x >= 0x8000_0000_0000_0000 {
            ((x - 0x8000_0000_0000_0000) as i64) - 0x7FFF_FFFF_FFFF_FFFF - 1
        } else {
            x as i64
        }
    } else {
        let p: u64 = if k == 1 { 0x100 } else if k == 2 { 0x1_0000 } else { 0x1_0000_0000 };
        if x * 2 >= p {
            (x as i64) - (p as i64)
        } else {
            x as i64
        }
    }
}

fn size_head(r: Result<(u64, usize), CodecError>, form: u8) -> (h: Result<(Head, usize), CodecError>)
    requires
        2 <= form <= 5,
        r is Ok ==> r->Ok_0.0 < 0x1_0000_0000,
    ensures
        match r {
            Ok((x, q)) => h == Ok::<(Head, usize), CodecError>((mk_head(form as int, x as nat, 0), q)),
            Err(e) => h == Err::<(Head, usize), CodecError>(e),
        },
{
    match r {
        Err(e) => Err(e),
        Ok((x, q)) => {
            let hd = if form == 2 {
                Head::Bytes(x)
            } else if form == 3 {
                Head::Str(x)
            } else if form == 4 {
                Head::List(x)
            } else {
                Head::Dict(x)
            };
            Ok((hd, q))
        },
    }
}

/// Reads the marker at `pos` and its fixed-width field.
pub fn decode_head(buf: &Vec<u8>, pos: usize) -> (r: Result<(Head, usize), CodecError>)
    ensures
        match parse_head(buf@, pos as nat) {
            Ok((h, q)) => r == Ok::<(Head, usize), CodecError>((h, q as usize)) && pos < q <= buf.len(),
            Err(e) => r == Err::<(Head, usize), CodecError>(e),
        },
{
    if pos >= buf.len() {
        return Err(CodecError::UnexpectedEnd);
    }
    proof {
        lemma_pow256();
    }
    let m = buf[pos];
    let after = pos + 1;
    if m < 0x80 {
        Ok((Head::Integer(m as i64), after))
    } else if m >= 0xF0 {
        Ok((Head::Integer(m as i64 - 256), after))
    } else if m < 0x90 {
        Ok((Head::Str((m - 0x80) as u64), after))
    } else if m < 0xA0 {
        Ok((Head::List((m - 0x90) as u64), after))
    } else if m < 0xB0 {
        Ok((Head::Dict((m - 0xA0) as u64), after))
    } else if m < 0xC0 {
        Ok((Head::Struct((m - 0xB0) as u64), after))
    } else if m == 0xC0 {
        Ok((Head::Null, after))
    } else if m == 0xC1 {
        match read_fixed(buf, pos, 8) {
            Ok((x, q)) => Ok((Head::Float(x), q)),
            Err(e) => Err(e),
        }
    } else if m == 0xC2 {
        Ok((Head::Bool(false), after))
    } else if m == 0xC3 {
        Ok((Head::Bool(true), after))
    } else if 0xC8 <= m && m <= 0xCB {
        let k: usize = if m == 0xC8 { 1 } else if m == 0xC9 { 2 } else if m == 0xCA { 4 } else { 8 };
        match read_fixed(buf, pos, k) {
            Ok((x, q)) => Ok((Head::Integer(signed(x, k)), q)),
            Err(e) => Err(e),
        }
    } else if 0xCC <= m && m <= 0xCE {
        size_head(read_fixed(buf, pos, if m == 0xCC { 1 } else if m == 0xCD { 2 } else { 4 }), 2)
    } else if 0xD0 <= m && m <= 0xD2 {
        size_head(read_fixed(buf, pos, if m == 0xD0 { 1 } else if m == 0xD1 { 2 } else { 4 }), 3)
    } else if 0xD4 <= m && m <= 0xD6 {
        size_head(read_fixed(buf, pos, if m == 0xD4 { 1 } else if m == 0xD5 { 2 } else { 4 }), 4)
    } else if 0xD8 <= m && m <= 0xDA {
        size_head(read_fixed(buf, pos, if m == 0xD8 { 1 } else if m == 0xD9 { 2 } else { 4 }), 5)
    } else {
        Err(CodecError::UnknownMarker(m))
    }
}


/// Whether `v` fits the encoding (see `wf`).
pub fn encodable(v: &WireValue) -> (r: bool)
    ensures
        r == wf(v@),
    decreases v,
{
    match v {
        WireValue::Bytes(b) => (b.len() as u64) < 0x1_0000_0000,
        WireValue::String(s) => (s.as_str().as_bytes().len() as u64) < 0x1_0000_0000,
        WireValue::List(l) => {
            assert(v@->List_0 =~= items_view(l));
            (l.len() as u64) < 0x1_0000_0000 && all_encodable(l)
        },
        WireValue::Dict(m) => {
            assert(v@->Dict_0 =~= entries_view(m));
            (m.len() as u64) < 0x1_0000_0000 && entries_encodable(m) && unique_keys(m)
        },
        WireValue::Struct(_, l) => {
            assert(v@->Struct_1 =~= items_view(l));
            l.len() < 16 && all_encodable(l)
        },
        _ => true,
    }
}

fn all_encodable(l: &Vec<WireValue>) -> (r: bool)
    ensures
        r == wf_seq(items_view(l)),
    decreases l, 1int,
{
    let ghost vs = items_view(l);
    let mut i: usize = 0;
    assert(vs.take(0) =~= Seq::<Val>::empty());
    while i < l.len()
        invariant
            vs == items_view(l),
            i <= l.len(),
            wf_seq(vs.take(i as int)),
        decreases l.len() - i,
    {
        if !encodable(&l[i]) {
            proof {
                if wf_seq(vs) {
                    lemma_wf_seq_at(vs, i as int);
                }
            }
            return false;
        }
        assert(vs.take(i + 1).drop_last() =~= vs.take(i as int));
        i = i + 1;
    }
    assert(vs.take(i as int) =~= vs);
    true
}

fn entries_encodable(m: &Vec<(String, WireValue)>) -> (r: bool)
    ensures
        r == wf_dict(entries_view(m)),
    decreases m, 1int,
{
    let ghost d = entries_view(m);
    let mut i: usize = 0;
    assert(d.take(0) =~= Seq::<(Seq<char>, Val)>::empty());
    while i < m.len()
        invariant
            d == entries_view(m),
            i <= m.len(),
            wf_dict(d.take(i as int)),
        decreases m.len() - i,
    {
        if !entry_encodable(&m[i]) {
            proof {
                if wf_dict(d) {
                    lemma_wf_dict_at(d, i as int);
                }
            }
            return false;
        }
        assert(d.take(i + 1).drop_last() =~= d.take(i as int));
        i = i + 1;
    }
    assert(d.take(i as int) =~= d);
    true
}

fn entry_encodable(e: &(String, WireValue)) -> (r: bool)
    ensures
        r == (encode_utf8(e.0@).len() < 0x1_0000_0000 && wf(e.1@)),
    decreases e, 1int,
{
    (e.0.as_str().as_bytes().len() as u64) < 0x1_0000_0000 && encodable(&e.1)
}

/// A copy of `buf[from..to]`.
fn copy_range(buf: &Vec<u8>, from: usize, to: usize) -> (r: Vec<u8>)
    requires
        from <= to <= buf.len(),
    ensures
        r@ == buf@.subrange(from as int, to as int),
{
    let mut r: Vec<u8> = Vec::new();
    let mut i: usize = from;
    while i < to
        invariant
            from <= i <= to <= buf.len(),
            r@ == buf@.subrange(from as int, i as int),
        decreases to - i,
    {
        r.push(buf[i]);
        i = i + 1;
        assert(r@ =~= buf@.subrange(from as int, i as int));
    }
    r
}

/// Decodes the value that starts at `pos`; gives it and the position after it.
pub fn decode(buf: &Vec<u8>, pos: usize) -> (r: Result<(WireValue, usize), CodecError>)
    ensures
        match parse(buf@, pos as nat) {
            Ok((v, q)) => r is Ok && r->Ok_0.0@ == v && r->Ok_0.1 == q,
            Err(e) => r == Err::<(WireValue, usize), CodecError>(e),
        },
        r is Ok ==> pos < r->Ok_0.1 <= buf.len(),
    decreases buf.len() - pos, 0int,
{
    let (h, q) = match decode_head(buf, pos) {
        Ok(x) => x,
        Err(e) => return Err(e),
    };
    match h {
        Head::Null => Ok((WireValue::Null, q)),
        Head::Bool(b) => Ok((WireValue::Bool(b), q)),
        Head::Integer(n) => Ok((WireValue::Integer(n), q)),
        Head::Float(f) => Ok((WireValue::Float(f), q)),
        Head::Bytes(n) => {
            if n > (buf.len() - q) as u64 {
                Err(CodecError::SizeMismatch)
            } else {
                let e = q + n as usize;
                Ok((WireValue::Bytes(copy_range(buf, q, e)), e))
            }
        },
        Head::Str(n) => {
            if n > (buf.len() - q) as u64 {
                Err(CodecError::SizeMismatch)
            } else {
                let e = q + n as usize;
                match string_from_utf8(copy_range(buf, q, e)) {
                    Some(st) => Ok((WireValue::String(st), e)),
                    None => Err(CodecError::InvalidUtf8),
                }
            }
        },
        Head::List(n) => if n > (buf.len() - q) as u64 {
            Err(CodecError::SizeMismatch)
        } else {
            match decode_items(buf, q, n) {
            Ok((l, e)) => {
                let ghost d = items_view(&l);
                let r = WireValue::List(l);
                assert(r@->List_0 =~= d);
                Ok((r, e))
            },
            Err(e) => Err(e),
            }
        },
        Head::Dict(n) => if n > ((buf.len() - q) / 2) as u64 {
            Err(CodecError::SizeMismatch)
        } else {
            match decode_entries(buf, q, n) {
            Ok((m, e)) => {
                if !unique_keys(&m) {
                    return Err(CodecError::DuplicateKey);
                }
                let ghost d = entries_view(&m);
                let r = WireValue::Dict(m);
                assert(r@->Dict_0 =~= d);
                Ok((r, e))
            },
            Err(e) => Err(e),
            }
        },
        Head::Struct(n) => {
            if q >= buf.len() {
                Err(CodecError::UnexpectedEnd)
            } else if n > (buf.len() - q - 1) as u64 {
                Err(CodecError::SizeMismatch)
            } else {
                let t = buf[q];
                match decode_items(buf, q + 1, n) {
                    Ok((l, e)) => {
                        let ghost d = items_view(&l);
                        let r = WireValue::Struct(t, l);
                        assert(r@->Struct_1 =~= d);
                        Ok((r, e))
                    },
                    Err(e) => Err(e),
                }
            }
        },
    }
}

/// Decodes `n` values one after the other from `pos` (see `parse_seq`).
fn decode_items(buf: &Vec<u8>, pos: usize, n: u64) -> (r: Result<(Vec<WireValue>, usize), CodecError>)
    requires
        pos <= buf.len(),
    ensures
        match parse_seq(buf@, pos as nat, n as nat) {
            Ok((l, q)) => r is Ok && items_view(&r->Ok_0.0) == l && r->Ok_0.1 == q,
            Err(e) => r == Err::<(Vec<WireValue>, usize), CodecError>(e),
        },
        r is Ok ==> pos <= r->Ok_0.1 <= buf.len(),
    decreases buf.len() - pos, n + 1,
{
    let ghost s = buf@;
    let mut items: Vec<WireValue> = Vec::new();
    let mut p = pos;
    let mut i: u64 = 0;
    while i < n
        invariant
            s == buf@,
            pos <= p <= buf.len(),
            i <= n,
            i == 0 ==> p == pos,
            parse_seq(s, pos as nat, n as nat) == (match parse_seq(s, p as nat, (n - i) as nat) {
                Ok((l, q)) => Ok((items_view(&items) + l, q)),
                Err(e) => Err::<(Seq<Val>, nat), CodecError>(e),
            }),
        decreases n - i,
    {
        let ghost before = items_view(&items);
        match decode(buf, p) {
            Err(e) => return Err(e),
            Ok((v, q)) => {
                proof {
                    let rest = parse_seq(s, q as nat, (n - i - 1) as nat);
                    match rest {
                        Ok((l, e)) => {
                            assert(before + (seq![v@] + l) =~= before.push(v@) + l);
                        },
                        Err(_) => {},
                    }
                }
                items.push(v);
                assert(items_view(&items) =~= before.push(items@.last()@));
                p = q;
            },
        }
        i = i + 1;
    }
    assert(items_view(&items) + Seq::<Val>::empty() =~= items_view(&items));
    Ok((items, p))
}

/// Decodes `n` map entries from `pos` (see `parse_dict`).
fn decode_entries(buf: &Vec<u8>, pos: usize, n: u64) -> (r: Result<(Vec<(String, WireValue)>, usize), CodecError>)
    requires
        pos <= buf.len(),
    ensures
        match parse_dict(buf@, pos as nat, n as nat) {
            Ok((m, q)) => r is Ok && entries_view(&r->Ok_0.0) == m && r->Ok_0.1 == q,
            Err(e) => r == Err::<(Vec<(String, WireValue)>, usize), CodecError>(e),
        },
        r is Ok ==> pos <= r->Ok_0.1 <= buf.len(),
    decreases buf.len() - pos, n + 1,
{
    let ghost s = buf@;
    let mut items: Vec<(String, WireValue)> = Vec::new();
    let mut p = pos;
    let mut i: u64 = 0;
    while i < n
        invariant
            s == buf@,
            pos <= p <= buf.len(),
            i <= n,
            i == 0 ==> p == pos,
            parse_dict(s, pos as nat, n as nat) == (match parse_dict(s, p as nat, (n - i) as nat) {
                Ok((m, q)) => Ok((entries_view(&items) + m, q)),
                Err(e) => Err::<(Seq<(Seq<char>, Val)>, nat), CodecError>(e),
            }),
        decreases n - i,
    {
        let ghost before = entries_view(&items);
        let (k, q) = match decode(buf, p) {
            Err(e) => return Err(e),
            Ok(x) => x,
        };
        let key = match k {
            WireValue::String(key) => key,
            _ => return Err(CodecError::KeyNotString),
        };
        let (v, q2) = match decode(buf, q) {
            Err(e) => return Err(e),
            Ok(x) => x,
        };
        proof {
            let rest = parse_dict(s, q2 as nat, (n - i - 1) as nat);
            match rest {
                Ok((l, e)) => {
                    assert(before + (seq![(key@, v@)] + l) =~= before.push((key@, v@)) + l);
                },
                Err(_) => {},
            }
        }
        items.push((key, v));
        assert(entries_view(&items) =~= before.push((items@.last().0@, items@.last().1@)));
        p = q2;
        i = i + 1;
    }
    assert(entries_view(&items) + Seq::<(Seq<char>, Val)>::empty() =~= entries_view(&items));
    Ok((items, p))
}


proof fn lemma_split(s: Seq<u8>, p: int, a: Seq<u8>, b: Seq<u8>)
    requires
        0 <= p,
        p + a.len() + b.len() <= s.len(),
        s.subrange(p, p + a.len() + b.len()) == a + b,
    ensures
        s.subrange(p, p + a.len()) == a,
        s.subrange(p + a.len(), p + a.len() + b.len()) == b,
{
    assert(s.subrange(p, p + a.len()) =~= (a + b).subrange(0, a.len() as int));
    assert(s.subrange(p + a.len(), p + a.len() + b.len()) =~= (a + b).subrange(
        a.len() as int,
        (a.len() + b.len()) as int,
    ));
}

proof fn lemma_fixed(s: Seq<u8>, p: nat, m: u8, x: nat, k: nat)
    requires
        x < pow256(k),
        p + 1 + k <= s.len(),
        s.subrange(p as int, (p + 1 + k) as int) == seq![m] + be_bytes(x, k),
    ensures
        s[p as int] == m,
        fixed(s, p, k) == Ok::<(nat, nat), CodecError>((x, p + 1 + k)),
{
    lemma_be_round(x, k);
    lemma_split(s, p as int, seq![m], be_bytes(x, k));
    assert(s[p as int] == s.subrange(p as int, p + 1int)[0]);
}

proof fn lemma_head_size(s: Seq<u8>, p: nat, has_tiny: bool, tiny: u8, m8: u8, n: nat, form: int)
    requires
        n < 0x1_0000_0000,
        (!has_tiny && m8 == 0xCC && form == 2) || (has_tiny && tiny == 0x80 && m8 == 0xD0 && form == 3)
            || (has_tiny && tiny == 0x90 && m8 == 0xD4 && form == 4) || (has_tiny && tiny == 0xA0 && m8
            == 0xD8 && form == 5),
        p + enc_size(has_tiny, tiny, m8, n).len() <= s.len(),
        s.subrange(p as int, (p + enc_size(has_tiny, tiny, m8, n).len()) as int) == enc_size(has_tiny, tiny, m8, n),
    ensures
        parse_head(s, p) == Ok::<(Head, nat), CodecError>(
            (mk_head(form, n, 0), p + enc_size(has_tiny, tiny, m8, n).len()),
        ),
{
    lemma_pow256();
    let h = enc_size(has_tiny, tiny, m8, n);
    if has_tiny && n < 16 {
        assert(s[p as int] == h[0]);
    } else if n < 256 {
        lemma_be_len(n, 1);
        lemma_fixed(s, p, m8, n, 1);
    } else if n < 65536 {
        lemma_be_len(n, 2);
        lemma_fixed(s, p, (m8 + 1) as u8, n, 2);
    } else {
        lemma_be_len(n, 4);
        lemma_fixed(s, p, (m8 + 2) as u8, n, 4);
    }
}

proof fn lemma_head_int(s: Seq<u8>, p: nat, n: int)
    requires
        i64::MIN <= n <= i64::MAX,
        p + enc_int(n).len() <= s.len(),
        s.subrange(p as int, (p + enc_int(n).len()) as int) == enc_int(n),
    ensures
        parse_head(s, p) == Ok::<(Head, nat), CodecError>((Head::Integer(n as i64), p + enc_int(n).len())),
{
    lemma_pow256();
    let e = enc_int(n);
    if -16 <= n < 128 {
        assert(s[p as int] == e[0]);
    } else if -128 <= n < 128 {
        lemma_be_len(to_unsigned(n, 1), 1);
        lemma_fixed(s, p, 0xC8, to_unsigned(n, 1), 1);
    } else if -32768 <= n < 32768 {
        lemma_be_len(to_unsigned(n, 2), 2);
        lemma_fixed(s, p, 0xC9, to_unsigned(n, 2), 2);
    } else if -2147483648 <= n < 2147483648 {
        lemma_be_len(to_unsigned(n, 4), 4);
        lemma_fixed(s, p, 0xCA, to_unsigned(n, 4), 4);
    } else {
        lemma_be_len(to_unsigned(n, 8), 8);
        lemma_fixed(s, p, 0xCB, to_unsigned(n, 8), 8);
    }
}

proof fn lemma_enc_seq_first(l: Seq<Val>)
    requires
        l.len() > 0,
    ensures
        enc_seq(l) == enc(l[0]) + enc_seq(l.drop_first()),
        wf_seq(l) ==> wf(l[0]) && wf_seq(l.drop_first()),
    decreases l.len(),
{
    if l.len() == 1 {
        assert(l.drop_last() =~= Seq::<Val>::empty());
        assert(l.drop_first() =~= Seq::<Val>::empty());
        assert(enc_seq(l) =~= enc(l[0]) + enc_seq(l.drop_first()));
    } else {
        lemma_enc_seq_first(l.drop_last());
        assert(l.drop_last().drop_first() =~= l.drop_first().drop_last());
        assert(enc_seq(l) =~= enc(l[0]) + enc_seq(l.drop_first()));
    }
}

proof fn lemma_enc_dict_first(m: Seq<(Seq<char>, Val)>)
    requires
        m.len() > 0,
    ensures
        enc_dict(m) == enc_str(m[0].0) + enc(m[0].1) + enc_dict(m.drop_first()),
        wf_dict(m) ==> wf(m[0].1) && encode_utf8(m[0].0).len() < 0x1_0000_0000 && wf_dict(m.drop_first()),
    decreases m.len(),
{
    if m.len() == 1 {
        assert(m.drop_last() =~= Seq::<(Seq<char>, Val)>::empty());
        assert(m.drop_first() =~= Seq::<(Seq<char>, Val)>::empty());
        assert(enc_dict(m) =~= enc_str(m[0].0) + enc(m[0].1) + enc_dict(m.drop_first()));
    } else {
        lemma_enc_dict_first(m.drop_last());
        assert(m.drop_last().drop_first() =~= m.drop_first().drop_last());
        assert(enc_dict(m) =~= enc_str(m[0].0) + enc(m[0].1) + enc_dict(m.drop_first()));
    }
}

proof fn lemma_enc_nonempty(v: Val)
    ensures
        enc(v).len() >= 1,
{
    match v {
        Val::Integer(n) => {},
        Val::Bytes(b) => {},
        Val::Str(t) => {},
        Val::List(l) => {},
        Val::Dict(m) => {},
        _ => {},
    }
}

proof fn lemma_enc_seq_len(l: Seq<Val>)
    ensures
        enc_seq(l).len() >= l.len(),
    decreases l.len(),
{
    if l.len() > 0 {
        lemma_enc_seq_len(l.drop_last());
        lemma_enc_nonempty(l.last());
    }
}

proof fn lemma_enc_dict_len(m: Seq<(Seq<char>, Val)>)
    ensures
        enc_dict(m).len() >= 2 * m.len(),
    decreases m.len(),
{
    if m.len() > 0 {
        lemma_enc_dict_len(m.drop_last());
        lemma_enc_nonempty(m.last().1);
        lemma_enc_nonempty(Val::Str(m.last().0));
    }
}

/// Decoding the encoding of a well-formed value, wherever it stands in the
/// input, gives back that value and the position just after its encoding.
pub proof fn lemma_round_trip(v: Val, s: Seq<u8>, p: nat)
    requires
        wf(v),
        p + enc(v).len() <= s.len(),
        s.subrange(p as int, (p + enc(v).len()) as int) == enc(v),
    ensures
        parse(s, p) == Ok::<(Val, nat), CodecError>((v, p + enc(v).len())),
    decreases v,
{
    let e = enc(v);
    lemma_pow256();
    match v {
        Val::Null => {
            assert(s[p as int] == e[0]);
        },
        Val::Bool(b) => {
            assert(s[p as int] == e[0]);
        },
        Val::Integer(n) => {
            lemma_head_int(s, p, n);
        },
        Val::Float(f) => {
            lemma_be_len(f as nat, 8);
            lemma_fixed(s, p, 0xC1, f as nat, 8);
        },
        Val::Bytes(b) => {
            let h = enc_size(false, 0, 0xCC, b.len());
            lemma_split(s, p as int, h, b);
            lemma_head_size(s, p, false, 0, 0xCC, b.len(), 2);
        },
        Val::Str(t) => {
            lemma_round_trip_str(t, s, p);
        },
        Val::List(l) => {
            let h = enc_size(true, 0x90, 0xD4, l.len());
            lemma_split(s, p as int, h, enc_seq(l));
            lemma_head_size(s, p, true, 0x90, 0xD4, l.len(), 4);
            lemma_enc_seq_len(l);
            lemma_round_trip_seq(l, s, p + h.len());
        },
        Val::Dict(m) => {
            let h = enc_size(true, 0xA0, 0xD8, m.len());
            lemma_split(s, p as int, h, enc_dict(m));
            lemma_head_size(s, p, true, 0xA0, 0xD8, m.len(), 5);
            lemma_enc_dict_len(m);
            lemma_round_trip_dict(m, s, p + h.len());
        },
        Val::Struct(t, l) => {
            let h = seq![(0xB0 + l.len()) as u8, t];
            lemma_split(s, p as int, h, enc_seq(l));
            assert(s[p as int] == h[0]);
            assert(s[p + 1int] == h[1]);
            lemma_enc_seq_len(l);
            lemma_round_trip_seq(l, s, p + 2);
        },
    }
}

proof fn lemma_round_trip_seq(l: Seq<Val>, s: Seq<u8>, p: nat)
    requires
        wf_seq(l),
        p + enc_seq(l).len() <= s.len(),
        s.subrange(p as int, (p + enc_seq(l).len()) as int) == enc_seq(l),
    ensures
        parse_seq(s, p, l.len()) == Ok::<(Seq<Val>, nat), CodecError>((l, p + enc_seq(l).len())),
    decreases l,
{
    if l.len() > 0 {
        lemma_enc_seq_first(l);
        let a = enc(l[0]);
        let rest = l.drop_first();
        lemma_split(s, p as int, a, enc_seq(rest));
        lemma_round_trip(l[0], s, p);
        assert(decreases_to!(l => rest));
        lemma_round_trip_seq(rest, s, p + a.len());
        assert(seq![l[0]] + rest =~= l);
    } else {
        assert(l =~= Seq::<Val>::empty());
    }
}

proof fn lemma_round_trip_dict(m: Seq<(Seq<char>, Val)>, s: Seq<u8>, p: nat)
    requires
        wf_dict(m),
        p + enc_dict(m).len() <= s.len(),
        s.subrange(p as int, (p + enc_dict(m).len()) as int) == enc_dict(m),
    ensures
        parse_dict(s, p, m.len()) == Ok::<(Seq<(Seq<char>, Val)>, nat), CodecError>(
            (m, p + enc_dict(m).len()),
        ),
    decreases m,
{
    if m.len() > 0 {
        lemma_enc_dict_first(m);
        let k = enc_str(m[0].0);
        let a = enc(m[0].1);
        let rest = m.drop_first();
        lemma_split(s, p as int, k + a, enc_dict(rest));
        lemma_split(s, p as int, k, a);
        assert(enc(Val::Str(m[0].0)) == k);
        assert(decreases_to!(m => m[0]));
        assert(decreases_to!(m => rest));
        lemma_round_trip_str(m[0].0, s, p);
        lemma_round_trip(m[0].1, s, p + k.len());
        lemma_round_trip_dict(rest, s, p + k.len() + a.len());
        assert(seq![m[0]] + rest =~= m);
    } else {
        assert(m =~= Seq::<(Seq<char>, Val)>::empty());
    }
}

proof fn lemma_round_trip_str(t: Seq<char>, s: Seq<u8>, p: nat)
    requires
        encode_utf8(t).len() < 0x1_0000_0000,
        p + enc_str(t).len() <= s.len(),
        s.subrange(p as int, (p + enc_str(t).len()) as int) == enc_str(t),
    ensures
        parse(s, p) == Ok::<(Val, nat), CodecError>((Val::Str(t), p + enc_str(t).len())),
{
    let h = enc_size(true, 0x80, 0xD0, encode_utf8(t).len());
    lemma_split(s, p as int, h, encode_utf8(t));
    lemma_head_size(s, p, true, 0x80, 0xD0, encode_utf8(t).len(), 3);
    encode_utf8_valid_utf8(t);
    encode_utf8_decode_utf8(t);
}

} // verus!
