//! The proof codec: consensus-style binary encoding of proof collections.
//!
//! A collection is encoded as a variable-length count prefix followed by each
//! proof's own encoding in sequence order; a proof's encoding is a
//! variable-length byte count followed by its payload. The count prefix uses
//! the compact-size layout of Bitcoin's consensus encoding: one byte below
//! 253, or a tag byte (253, 254, 255) followed by the value in 2, 4 or 8
//! little-endian bytes.

use vstd::prelude::*;

verus! {

/// An opaque, binary-encodable record of a cryptographic claim tied to an
/// outpoint. Its internal structure belongs to an external proof format;
/// this core carries it as bytes and never interprets it. Immutable once
/// constructed.
#[derive(Debug)]
pub struct Proof {
    /// The proof's own binary encoding, as the external format defines it.
    pub payload: Vec<u8>,
}

impl View for Proof {
    type V = Seq<u8>;

    open spec fn view(&self) -> Seq<u8> {
        self.payload@
    }
}

/// Why a request body failed to decode.
#[derive(Clone, Copy, Debug, PartialEq, Eq, Structural)]
pub enum DecodeError {
    /// The bytes end before the record they announce is complete.
    Truncated,
    /// Bytes remain after the announced record: the body is not exactly one
    /// record.
    TrailingBytes,
    /// The body is a well-formed collection, but not of exactly one proof.
    WrongCount,
}

/// 256 to the power `c`: the number of values `c` bytes can hold.
pub open spec fn pow256(c: nat) -> int
    decreases c,
{
    if c == 0 {
        1
    } else {
        256 * pow256((c - 1) as nat)
    }
}

/// `count` little-endian bytes of the non-negative value `n`.
pub open spec fn le_bytes(n: int, count: nat) -> Seq<u8>
    decreases count,
{
    if count == 0 {
        Seq::empty()
    } else {
        seq![(n % 256) as u8] + le_bytes(n / 256, (count - 1) as nat)
    }
}

/// Value of `b` read as a little-endian number.
pub open spec fn le_value(b: Seq<u8>) -> int
    decreases b.len(),
{
    if b.len() == 0 {
        0
    } else {
        b[0] + 256 * le_value(b.skip(1))
    }
}

/// Compact-size encoding of `n`: one byte below 253, otherwise a tag byte
/// followed by 2, 4 or 8 little-endian bytes.
pub open spec fn spec_varint(n: u64) -> Seq<u8> {
    if n < 253 {
        seq![n as u8]
    } else if n <= 0xFFFF {
        seq![253u8] + le_bytes(n as int, 2)
    } else if n <= 0xFFFFFFFF {
        seq![254u8] + le_bytes(n as int, 4)
    } else {
        seq![255u8] + le_bytes(n as int, 8)
    }
}

/// What reading a compact-size number at the front of `b` yields: the value
/// and how many bytes it took, or `None` where `b` is too short.
pub open spec fn spec_decode_varint(b: Seq<u8>) -> Option<(u64, int)> {
    if b.len() == 0 {
        None
    } else if b[0] < 253 {
        Some((b[0] as u64, 1))
    } else if b[0] == 253 {
        if b.len() < 3 {
            None
        } else {
            Some((le_value(b.subrange(1, 3)) as u64, 3))
        }
    } else if b[0] == 254 {
        if b.len() < 5 {
            None
        } else {
            Some((le_value(b.subrange(1, 5)) as u64, 5))
        }
    } else {
        if b.len() < 9 {
            None
        } else {
            Some((le_value(b.subrange(1, 9)) as u64, 9))
        }
    }
}

/// Encoding of one proof: its byte count as a compact-size number, then its
/// payload.
pub open spec fn spec_encode_proof(p: Seq<u8>) -> Seq<u8> {
    spec_varint(p.len() as u64) + p
}

/// Concatenation of the encodings of each proof, in sequence order.
pub open spec fn spec_encode_proofs(ps: Seq<Seq<u8>>) -> Seq<u8>
    decreases ps.len(),
{
    if ps.len() == 0 {
        Seq::empty()
    } else {
        spec_encode_proof(ps[0]) + spec_encode_proofs(ps.skip(1))
    }
}

/// Encoding of a proof collection: the count as a compact-size prefix, then
/// each proof's encoding in order.
pub open spec fn spec_encode_many(ps: Seq<Seq<u8>>) -> Seq<u8> {
    spec_varint(ps.len() as u64) + spec_encode_proofs(ps)
}

/// What reading `n` proof records at the front of `b` yields: the payloads
/// and how many bytes they took, or `None` where `b` ends too soon.
pub open spec fn spec_decode_proofs(b: Seq<u8>, n: nat) -> Option<(Seq<Seq<u8>>, int)>
    decreases n,
{
    if n == 0 {
        Some((Seq::empty(), 0))
    } else {
        match spec_decode_varint(b) {
            None => None,
            Some((l, k)) => {
                if b.len() < k + l {
                    None
                } else {
                    match spec_decode_proofs(b.skip(k + l as int), (n - 1) as nat) {
                        None => None,
                        Some((rest, c)) => Some(
                            (seq![b.subrange(k, k + l as int)] + rest, k + l + c),
                        ),
                    }
                }
            },
        }
    }
}

/// What decoding a whole collection from `b` returns, for every byte
/// sequence: the payloads in order, or the first error (`Truncated` where the
/// bytes end too soon, `TrailingBytes` where bytes remain after the announced
/// records).
pub open spec fn spec_decode_many(b: Seq<u8>) -> Result<Seq<Seq<u8>>, DecodeError> {
    match spec_decode_varint(b) {
        None => Err(DecodeError::Truncated),
        Some((n, k)) => match spec_decode_proofs(b.skip(k), n as nat) {
            None => Err(DecodeError::Truncated),
            Some((ps, c)) => if k + c == b.len() {
                Ok(ps)
            } else {
                Err(DecodeError::TrailingBytes)
            },
        },
    }
}

/// What decoding a single uploaded proof from `b` returns: the body must be
/// exactly the encoding of a one-proof collection; `WrongCount` names any
/// other well-formed count.
pub open spec fn spec_decode_one(b: Seq<u8>) -> Result<Seq<u8>, DecodeError> {
    match spec_decode_many(b) {
        Err(e) => Err(e),
        Ok(ps) => if ps.len() == 1 {
            Ok(ps[0])
        } else {
            Err(DecodeError::WrongCount)
        },
    }
}

/// The payloads of a sequence of proofs.
pub open spec fn proof_views(ps: Seq<Proof>) -> Seq<Seq<u8>> {
    ps.map_values(|p: Proof| p@)
}

/// Append the `count` little-endian bytes of `n` to `out`.
fn push_le_bytes(n: u64, count: usize, out: &mut Vec<u8>)
    ensures
        final(out)@ == old(out)@ + le_bytes(n as int, count as nat),
{
    let mut m = n;
    let mut t: usize = 0;
    while t < count
        invariant
            0 <= t <= count,
            out@ + le_bytes(m as int, (count - t) as nat) =~= old(out)@ + le_bytes(
                n as int,
                count as nat,
            ),
        decreases count - t,
    {
        let ghost pre = out@;
        let ghost rem = (count - t) as nat;
        out.push((m % 256) as u8);
        proof {
            assert(le_bytes(m as int, rem) == seq![(m as int % 256) as u8] + le_bytes(
                m as int / 256,
                (rem - 1) as nat,
            ));
            assert(out@ + le_bytes((m / 256) as int, (rem - 1) as nat) =~= pre + le_bytes(
                m as int,
                rem,
            ));
        }
        m = m / 256;
        t += 1;
    }
    assert(le_bytes(m as int, 0) =~= Seq::<u8>::empty());
    assert(out@ =~= out@ + le_bytes(m as int, 0));
}

/// Append the compact-size encoding of `n` to `out`.
pub fn encode_varint(n: u64, out: &mut Vec<u8>)
    ensures
        final(out)@ == old(out)@ + spec_varint(n),
{
    if n < 253 {
        out.push(n as u8);
        assert(out@ =~= old(out)@ + spec_varint(n));
    } else if n <= 0xFFFF {
        out.push(253);
        push_le_bytes(n, 2, out);
        assert(out@ =~= old(out)@ + spec_varint(n));
    } else if n <= 0xFFFFFFFF {
        out.push(254);
        push_le_bytes(n, 4, out);
        assert(out@ =~= old(out)@ + spec_varint(n));
    } else {
        out.push(255);
        push_le_bytes(n, 8, out);
        assert(out@ =~= old(out)@ + spec_varint(n));
    }
}

/// A little-endian number is non-negative and below 256 to its byte count.
proof fn lemma_le_value_bound(b: Seq<u8>)
    ensures
        0 <= le_value(b) < pow256(b.len()),
    decreases b.len(),
{
    if b.len() == 0 {
    } else {
        lemma_le_value_bound(b.skip(1));
    }
}

/// Read `count` little-endian bytes at `start` as a number.
fn read_le(b: &[u8], start: usize, count: usize) -> (v: u64)
    requires
        start + count <= b@.len(),
        count <= 8,
    ensures
        v == le_value(b@.subrange(start as int, start + count)),
{
    proof {
        assert(pow256(8) == 0x10000000000000000) by {
            reveal_with_fuel(pow256, 9);
        }
    }
    let total = b.len();
    let mut v: u64 = 0;
    let mut t: usize = count;
    while t > 0
        invariant
            0 <= t <= count <= 8,
            start + count <= b@.len(),
            b@.len() == total,
            v == le_value(b@.subrange(start + t, start + count)),
            pow256(8) == 0x10000000000000000,
        decreases t,
    {
        let ghost suffix = b@.subrange(start + t, start + count);
        proof {
            lemma_le_value_bound(suffix);
            assert(pow256(suffix.len()) <= pow256(7)) by {
                lemma_pow256_le(suffix.len(), 7);
            }
            assert(pow256(7) == 0x100000000000000) by {
                reveal_with_fuel(pow256, 8);
            }
        }
        let byte = b[start + t - 1];
        v = v * 256 + byte as u64;
        t -= 1;
        proof {
            let wider = b@.subrange(start + t, start + count);
            assert(wider[0] == byte);
            assert(wider.skip(1) =~= suffix);
        }
    }
    assert(b@.subrange(start as int, start + count) =~= b@.subrange(
        start + t,
        start + count,
    ));
    v
}

/// `pow256` grows with its exponent.
proof fn lemma_pow256_le(a: nat, b: nat)
    requires
        a <= b,
    ensures
        pow256(a) <= pow256(b),
    decreases b,
{
    if a < b {
        lemma_pow256_le(a, (b - 1) as nat);
        lemma_le_value_bound(Seq::empty());
        assert(pow256((b - 1) as nat) >= 1) by {
            lemma_pow256_pos((b - 1) as nat);
        }
    }
}

/// `pow256` is positive.
proof fn lemma_pow256_pos(a: nat)
    ensures
        pow256(a) >= 1,
    decreases a,
{
    if a > 0 {
        lemma_pow256_pos((a - 1) as nat);
    }
}

/// Read the compact-size number at `start`, returning its value and the
/// position just after it, or `None` where the bytes end too soon.
pub fn decode_varint(b: &[u8], start: usize) -> (r: Option<(u64, usize)>)
    requires
        start <= b@.len(),
    ensures
        match r {
            Some(v) => {
                &&& spec_decode_varint(b@.skip(start as int)) == Some((v.0, v.1 as int))
                &&& 1 <= v.1
                &&& start + v.1 <= b@.len()
            },
            None => spec_decode_varint(b@.skip(start as int)) is None,
        },
{
    let n = b.len();
    let ghost s = b@.skip(start as int);
    assert(forall|k: int| 0 <= k < s.len() ==> s[k] == b@[k + start]);
    if start >= n {
        return None;
    }
    let tag = b[start];
    if tag < 253 {
        Some((tag as u64, 1))
    } else if tag == 253 {
        if n - start < 3 {
            return None;
        }
        let v = read_le(b, start + 1, 2);
        assert(s.subrange(1, 3) =~= b@.subrange(start + 1, start + 3));
        proof {
            lemma_le_value_bound(s.subrange(1, 3));
            assert(pow256(2) == 0x10000) by {
                reveal_with_fuel(pow256, 3);
            }
        }
        Some((v, 3))
    } else if tag == 254 {
        if n - start < 5 {
            return None;
        }
        let v = read_le(b, start + 1, 4);
        assert(s.subrange(1, 5) =~= b@.subrange(start + 1, start + 5));
        proof {
            lemma_le_value_bound(s.subrange(1, 5));
            assert(pow256(4) == 0x100000000) by {
                reveal_with_fuel(pow256, 5);
            }
        }
        Some((v, 5))
    } else {
        if n - start < 9 {
            return None;
        }
        let v = read_le(b, start + 1, 8);
        assert(s.subrange(1, 9) =~= b@.subrange(start + 1, start + 9));
        proof {
            lemma_le_value_bound(s.subrange(1, 9));
            assert(pow256(8) == 0x10000000000000000) by {
                reveal_with_fuel(pow256, 9);
            }
        }
        Some((v, 9))
    }
}

/// `count` little-endian bytes are `count` bytes.
proof fn lemma_le_bytes_len(n: int, count: nat)
    ensures
        le_bytes(n, count).len() == count,
    decreases count,
{
    if count > 0 {
        lemma_le_bytes_len(n / 256, (count - 1) as nat);
    }
}

/// Little-endian bytes read back as the value they were formed from.
proof fn lemma_le_value_le_bytes(n: int, count: nat)
    requires
        0 <= n < pow256(count),
    ensures
        le_value(le_bytes(n, count)) == n,
    decreases count,
{
    if count == 0 {
        assert(n == 0);
    } else {
        let e = le_bytes(n, count);
        lemma_le_bytes_len(n / 256, (count - 1) as nat);
        assert(e.skip(1) =~= le_bytes(n / 256, (count - 1) as nat));
        assert(n / 256 < pow256((count - 1) as nat)) by {
            vstd::arithmetic::div_mod::lemma_fundamental_div_mod(n, 256);
        }
        lemma_le_value_le_bytes(n / 256, (count - 1) as nat);
        assert(n % 256 + 256 * (n / 256) == n) by {
            vstd::arithmetic::div_mod::lemma_fundamental_div_mod(n, 256);
        }
    }
}

/// A compact-size encoding, whatever follows it, reads back as the value it
/// was formed from and its own length.
proof fn lemma_varint_round_trip(n: u64, rest: Seq<u8>)
    ensures
        spec_decode_varint(spec_varint(n) + rest) == Some((n, spec_varint(n).len() as int)),
        1 <= spec_varint(n).len() <= 9,
{
    let e = spec_varint(n);
    let s = e + rest;
    if n < 253 {
        assert(s[0] == n as u8);
    } else if n <= 0xFFFF {
        lemma_le_bytes_len(n as int, 2);
        assert(s[0] == 253);
        assert(s.subrange(1, 3) =~= le_bytes(n as int, 2));
        assert(pow256(2) == 0x10000) by {
            reveal_with_fuel(pow256, 3);
        }
        lemma_le_value_le_bytes(n as int, 2);
    } else if n <= 0xFFFFFFFF {
        lemma_le_bytes_len(n as int, 4);
        assert(s[0] == 254);
        assert(s.subrange(1, 5) =~= le_bytes(n as int, 4));
        assert(pow256(4) == 0x100000000) by {
            reveal_with_fuel(pow256, 5);
        }
        lemma_le_value_le_bytes(n as int, 4);
    } else {
        lemma_le_bytes_len(n as int, 8);
        assert(s[0] == 255);
        assert(s.subrange(1, 9) =~= le_bytes(n as int, 8));
        assert(pow256(8) == 0x10000000000000000) by {
            reveal_with_fuel(pow256, 9);
        }
        lemma_le_value_le_bytes(n as int, 8);
    }
}

/// Encoding a collection extended by one proof appends that proof's encoding.
proof fn lemma_encode_proofs_snoc(ps: Seq<Seq<u8>>, x: Seq<u8>)
    ensures
        spec_encode_proofs(ps.push(x)) == spec_encode_proofs(ps) + spec_encode_proof(x),
    decreases ps.len(),
{
    if ps.len() == 0 {
        assert(ps.push(x)[0] == x);
        assert(ps.push(x).skip(1) =~= Seq::<Seq<u8>>::empty());
        assert(spec_encode_proofs(ps.push(x).skip(1)) == Seq::<u8>::empty());
        assert(spec_encode_proofs(ps) == Seq::<u8>::empty());
        assert(spec_encode_proofs(ps.push(x)) == spec_encode_proof(x) + Seq::<u8>::empty());
        assert(spec_encode_proof(x) + Seq::<u8>::empty() =~= Seq::<u8>::empty()
            + spec_encode_proof(x));
    } else {
        assert(ps.push(x)[0] == ps[0]);
        assert(ps.push(x).skip(1) =~= ps.skip(1).push(x));
        lemma_encode_proofs_snoc(ps.skip(1), x);
        assert(spec_encode_proof(ps[0]) + (spec_encode_proofs(ps.skip(1)) + spec_encode_proof(x))
            =~= (spec_encode_proof(ps[0]) + spec_encode_proofs(ps.skip(1))) + spec_encode_proof(
            x,
        ));
    }
}

/// Reading back as many records as were encoded yields the encoded payloads,
/// whatever follows the encoding.
proof fn lemma_decode_encode_proofs(ps: Seq<Seq<u8>>, rest: Seq<u8>)
    requires
        forall|i: int| 0 <= i < ps.len() ==> (#[trigger] ps[i]).len() <= u64::MAX,
    ensures
        spec_decode_proofs(spec_encode_proofs(ps) + rest, ps.len()) == Some(
            (ps, spec_encode_proofs(ps).len() as int),
        ),
    decreases ps.len(),
{
    if ps.len() == 0 {
        assert(spec_encode_proofs(ps) + rest =~= rest);
    } else {
        let p0 = ps[0];
        let l0 = p0.len() as u64;
        let tail = spec_encode_proofs(ps.skip(1));
        let s = spec_encode_proofs(ps) + rest;
        assert(s =~= spec_varint(l0) + (p0 + (tail + rest)));
        lemma_varint_round_trip(l0, p0 + (tail + rest));
        let k = spec_varint(l0).len() as int;
        assert(spec_decode_varint(s) == Some((l0, k)));
        assert(s.len() >= k + l0);
        assert(s.subrange(k, k + l0 as int) =~= p0);
        assert(s.skip(k + l0 as int) =~= tail + rest);
        assert(forall|i: int|
            0 <= i < ps.skip(1).len() ==> (#[trigger] ps.skip(1)[i]).len() <= u64::MAX);
        lemma_decode_encode_proofs(ps.skip(1), rest);
        assert(spec_decode_proofs(s.skip(k + l0 as int), (ps.len() - 1) as nat) == Some(
            (ps.skip(1), tail.len() as int),
        ));
        assert(seq![p0] + ps.skip(1) =~= ps);
        assert(spec_encode_proofs(ps).len() == k + p0.len() + tail.len());
    }
}

/// Round trip of the collection codec: encoding any sequence of proofs and
/// re-splitting the bytes per the count prefix yields back exactly that
/// sequence, in the same order.
pub proof fn lemma_encode_decode_many(ps: Seq<Seq<u8>>)
    requires
        ps.len() <= u64::MAX,
        forall|i: int| 0 <= i < ps.len() ==> (#[trigger] ps[i]).len() <= u64::MAX,
    ensures
        spec_decode_many(spec_encode_many(ps)) == Ok::<Seq<Seq<u8>>, DecodeError>(ps),
{
    let count = ps.len() as u64;
    let body = spec_encode_proofs(ps);
    let s = spec_encode_many(ps);
    lemma_varint_round_trip(count, body);
    let k = spec_varint(count).len() as int;
    assert(spec_decode_varint(s) == Some((count, k)));
    assert(s.skip(k) =~= body);
    assert(body + Seq::<u8>::empty() =~= body);
    lemma_decode_encode_proofs(ps, Seq::empty());
    assert(spec_decode_proofs(s.skip(k), ps.len()) == Some((ps, body.len() as int)));
    assert(k + body.len() == s.len());
}

/// Inverse of the write path: a body formed by encoding a one-proof
/// collection decodes as that single proof.
pub proof fn lemma_encode_single_decode_one(p: Seq<u8>)
    requires
        p.len() <= u64::MAX,
    ensures
        spec_decode_one(spec_encode_many(seq![p])) == Ok::<Seq<u8>, DecodeError>(p),
{
    let ps = seq![p];
    assert(forall|i: int| 0 <= i < ps.len() ==> (#[trigger] ps[i]).len() <= u64::MAX);
    lemma_encode_decode_many(ps);
}

/// Encode a proof collection: the count as a compact-size prefix, then each
/// proof's encoding in the collection's order.
pub fn encode_many(proofs: &Vec<Proof>) -> (r: Vec<u8>)
    ensures
        r@ == spec_encode_many(proof_views(proofs@)),
{
    let ghost views = proof_views(proofs@);
    let mut out: Vec<u8> = Vec::new();
    encode_varint(proofs.len() as u64, &mut out);
    assert(views.len() == proofs@.len());
    assert(out@ =~= spec_varint(views.len() as u64) + spec_encode_proofs(views.take(0)));
    let mut i: usize = 0;
    while i < proofs.len()
        invariant
            0 <= i <= proofs@.len(),
            views == proof_views(proofs@),
            views.len() == proofs@.len(),
            out@ == spec_varint(views.len() as u64) + spec_encode_proofs(views.take(i as int)),
        decreases proofs@.len() - i,
    {
        let ghost pre = out@;
        let p = &proofs[i];
        assert(p@ == views[i as int]);
        encode_varint(p.payload.len() as u64, &mut out);
        let mut j: usize = 0;
        while j < p.payload.len()
            invariant
                0 <= j <= p.payload@.len(),
                out@ == pre + spec_varint(p.payload@.len() as u64) + p.payload@.take(j as int),
            decreases p.payload@.len() - j,
        {
            out.push(p.payload[j]);
            assert(out@ =~= pre + spec_varint(p.payload@.len() as u64) + p.payload@.take(
                j + 1,
            ));
            j += 1;
        }
        assert(p.payload@.take(p.payload@.len() as int) =~= p.payload@);
        proof {
            lemma_encode_proofs_snoc(views.take(i as int), views[i as int]);
            assert(views.take(i as int).push(views[i as int]) =~= views.take(i + 1));
            assert(out@ =~= spec_varint(views.len() as u64) + spec_encode_proofs(
                views.take(i + 1),
            ));
        }
        i += 1;
    }
    assert(views.take(views.len() as int) =~= views);
    out
}

/// Progress of decoding: the records still to read at `pos` determine what
/// reading `count` records at `from` yields, `done` being the payloads read
/// between `from` and `pos`.
spec fn decode_cont(b: Seq<u8>, from: int, count: nat, pos: int, done: Seq<Seq<u8>>, left: nat) -> bool {
    match spec_decode_proofs(b.skip(pos), left) {
        None => spec_decode_proofs(b.skip(from), count) is None,
        Some((rest, c)) => spec_decode_proofs(b.skip(from), count) == Some::<(Seq<Seq<u8>>, int)>(
            (done + rest, pos - from + c),
        ),
    }
}

/// Decode a whole proof collection, requiring the bytes to be exactly one
/// collection encoding.
pub fn decode_many(b: &[u8]) -> (r: Result<Vec<Proof>, DecodeError>)
    ensures
        match r {
            Ok(ps) => spec_decode_many(b@) == Ok::<Seq<Seq<u8>>, DecodeError>(proof_views(ps@)),
            Err(e) => spec_decode_many(b@) == Err::<Seq<Seq<u8>>, DecodeError>(e),
        },
{
    assert(b@.skip(0) =~= b@);
    let (count, k0) = match decode_varint(b, 0) {
        None => {
            return Err(DecodeError::Truncated);
        },
        Some(x) => x,
    };
    let total = b.len();
    let mut pos: usize = k0;
    let mut acc: Vec<Proof> = Vec::new();
    let mut i: u64 = 0;
    assert(proof_views(acc@) =~= Seq::<Seq<u8>>::empty());
    assert(decode_cont(b@, k0 as int, count as nat, pos as int, proof_views(acc@), count as nat));
    while i < count
        invariant
            0 <= i <= count,
            b@.len() == total,
            k0 <= pos <= b@.len(),
            spec_decode_varint(b@) == Some((count, k0 as int)),
            proof_views(acc@).len() == i,
            decode_cont(
                b@,
                k0 as int,
                count as nat,
                pos as int,
                proof_views(acc@),
                (count - i) as nat,
            ),
        decreases count - i,
    {
        let ghost pre_pos = pos as int;
        let ghost done = proof_views(acc@);
        let ghost suffix = b@.skip(pre_pos);
        let (l, vlen) = match decode_varint(b, pos) {
            None => {
                assert(spec_decode_proofs(suffix, (count - i) as nat) is None);
                return Err(DecodeError::Truncated);
            },
            Some(x) => x,
        };
        let after = pos + vlen;
        assert(spec_decode_varint(suffix) == Some((l, after - pre_pos)));
        if l > (b.len() - after) as u64 {
            assert(suffix.len() < (after - pre_pos) + l);
            assert(spec_decode_proofs(suffix, (count - i) as nat) is None);
            return Err(DecodeError::Truncated);
        }
        let len = l as usize;
        let payload_slice = vstd::slice::slice_subrange(b, after, after + len);
        let payload = vstd::slice::slice_to_vec(payload_slice);
        assert(payload@ =~= suffix.subrange(after - pre_pos, after - pre_pos + l));
        let ghost pre_views = proof_views(acc@);
        acc.push(Proof { payload });
        assert(proof_views(acc@) =~= pre_views.push(suffix.subrange(
            after - pre_pos,
            after - pre_pos + l,
        )));
        pos = after + len;
        i = i + 1;
        proof {
            let ghost new_suffix = b@.skip(pos as int);
            assert(new_suffix =~= suffix.skip((after - pre_pos) + l));
            assert(spec_decode_proofs(suffix, (count - i + 1) as nat) == (
            match spec_decode_proofs(new_suffix, (count - i) as nat) {
                None => None,
                Some((rest, c)) => Some::<(Seq<Seq<u8>>, int)>(
                    (seq![suffix.subrange(after - pre_pos, after - pre_pos + l)] + rest,
                    (after - pre_pos) + l + c),
                ),
            }));
            if spec_decode_proofs(new_suffix, (count - i) as nat) is Some {
                let (rest, c) = spec_decode_proofs(new_suffix, (count - i) as nat)->Some_0;
                assert(done + (seq![suffix.subrange(after - pre_pos, after - pre_pos + l)]
                    + rest) =~= proof_views(acc@) + rest);
            }
        }
    }
    assert(b@.skip(pos as int).skip(0) =~= b@.skip(pos as int));
    assert(spec_decode_proofs(b@.skip(pos as int), 0) == Some((Seq::<Seq<u8>>::empty(), 0int)));
    assert(proof_views(acc@) + Seq::<Seq<u8>>::empty() =~= proof_views(acc@));
    if pos != b.len() {
        return Err(DecodeError::TrailingBytes);
    }
    Ok(acc)
}

/// Decode the single proof a write request carries: the entire body must be
/// the encoding of a one-proof collection.
pub fn decode_one(b: &[u8]) -> (r: Result<Proof, DecodeError>)
    ensures
        match r {
            Ok(p) => spec_decode_one(b@) == Ok::<Seq<u8>, DecodeError>(p@),
            Err(e) => spec_decode_one(b@) == Err::<Seq<u8>, DecodeError>(e),
        },
{
    match decode_many(b) {
        Err(e) => Err(e),
        Ok(mut ps) => {
            if ps.len() == 1 {
                match ps.pop() {
                    Some(p) => Ok(p),
                    None => {
                        proof {
                            assert(false);
                        }
                        Err(DecodeError::WrongCount)
                    },
                }
            } else {
                Err(DecodeError::WrongCount)
            }
        },
    }
}

} // verus!
