//! Wire encoding of the persisted lease record: the three `int64` fields in
//! protocol-buffer wire format (field tags 1, 2 and 3, varint values),
//! prefixed with the body length as a varint.
//!
//! The decoder accepts exactly the canonical form the encoder emits; a
//! stored record in any other shape is reported as undecodable.

use vstd::prelude::*;

use crate::pb::PbLease;

verus! {

/// The little-endian base-128 varint encoding of `n`: seven value bits per
/// byte, high bit set on every byte but the last.
pub open spec fn varint(n: u64) -> Seq<u8>
    decreases n,
{
    if n < 128 {
        seq![n as u8]
    } else {
        seq![(n % 128 + 128) as u8] + varint(n / 128)
    }
}

/// A varint is never empty.
pub proof fn lemma_varint_len(n: u64)
    ensures
        varint(n).len() >= 1,
    decreases n,
{
}

/// Parse a varint from `s` at `pos`: the value and the position after it.
pub open spec fn spec_parse_varint(s: Seq<u8>, pos: int) -> Option<(u64, int)>
    decreases s.len() - pos,
{
    if pos < 0 || pos >= s.len() {
        None
    } else if s[pos] < 128 {
        Some((s[pos] as u64, pos + 1))
    } else {
        match spec_parse_varint(s, pos + 1) {
            None => None,
            Some((v, p2)) => if (s[pos] - 128) + 128 * (v as int) <= u64::MAX {
                Some((((s[pos] - 128) + 128 * v) as u64, p2))
            } else {
                None
            },
        }
    }
}

/// Parsing at the start of an encoded varint yields the encoded value and
/// steps over exactly its bytes.
pub proof fn lemma_varint_round_trip(n: u64, s: Seq<u8>, pos: int)
    requires
        0 <= pos,
        pos + varint(n).len() <= s.len(),
        s.subrange(pos, pos + varint(n).len() as int) == varint(n),
    ensures
        spec_parse_varint(s, pos) == Some((n, pos + varint(n).len() as int)),
    decreases n,
{
    let v = varint(n);
    assert(s[pos] == v[0]);
    if n < 128 {
        assert(v[0] == n as u8);
    } else {
        let rest = varint(n / 128);
        assert(v[0] == (n % 128 + 128) as u8);
        assert(s[pos] >= 128);
        assert(s.subrange(pos + 1, pos + 1 + rest.len() as int) =~= rest) by {
            assert forall|i: int| 0 <= i < rest.len() implies s.subrange(
                pos + 1,
                pos + 1 + rest.len() as int,
            )[i] == rest[i] by {
                assert(s[pos + 1 + i] == v[1 + i]);
                assert(v[1 + i] == rest[i]);
            }
        }
        lemma_varint_round_trip(n / 128, s, pos + 1);
        assert((s[pos] - 128) + 128 * (n / 128) == n % 128 + 128 * (n / 128));
        assert(n % 128 + 128 * (n / 128) == n) by (nonlinear_arith);
    }
}

/// The canonical encoding of a lease record: length prefix, then the three
/// tagged fields.
pub open spec fn spec_encode_pb(pb: PbLease) -> Seq<u8> {
    varint(pb_body(pb).len() as u64) + pb_body(pb)
}

/// The body of an encoded lease record.
pub open spec fn pb_body(pb: PbLease) -> Seq<u8> {
    seq![8u8] + varint(pb.id as u64) + seq![16u8] + varint(pb.ttl as u64) + seq![24u8] + varint(
        pb.remaining_ttl as u64,
    )
}

/// Decode a canonical lease record: the length prefix must cover the rest,
/// and the three fields must follow in order with nothing after them.
/// Opaque: proofs that work with decoded values need only the name; the
/// definition is revealed where the decoder itself is verified.
#[verifier::opaque]
pub open spec fn spec_decode_pb(s: Seq<u8>) -> Option<PbLease> {
    match spec_parse_varint(s, 0) {
        None => None,
        Some((blen, p0)) => if blen != (s.len() - p0) as u64 || p0 >= s.len() || s[p0] != 8 {
            None
        } else {
            match spec_parse_varint(s, p0 + 1) {
                None => None,
                Some((id, p1)) => if p1 >= s.len() || s[p1] != 16 {
                    None
                } else {
                    match spec_parse_varint(s, p1 + 1) {
                        None => None,
                        Some((ttl, p2)) => if p2 >= s.len() || s[p2] != 24 {
                            None
                        } else {
                            match spec_parse_varint(s, p2 + 1) {
                                None => None,
                                Some((rttl, p3)) => if p3 != s.len() {
                                    None
                                } else {
                                    Some(
                                        PbLease {
                                            id: id as i64,
                                            ttl: ttl as i64,
                                            remaining_ttl: rttl as i64,
                                        },
                                    )
                                },
                            }
                        },
                    }
                },
            }
        },
    }
}

/// Append the varint encoding of `n` to `out`.
fn encode_varint(out: &mut Vec<u8>, n: u64)
    ensures
        final(out)@ == old(out)@ + varint(n),
{
    let mut m: u64 = n;
    let ghost out0 = old(out)@;
    let mut done: bool = false;
    proof {
        assert(out@ + varint(m) =~= out0 + varint(n));
    }
    while !done
        invariant
            !done ==> out@ + varint(m) == out0 + varint(n),
            done ==> out@ == out0 + varint(n),
        decreases m + (if done { 0int } else { 1int }),
    {
        if m < 128 {
            let ghost before = out@;
            out.push(m as u8);
            done = true;
            proof {
                assert(varint(m) =~= seq![m as u8]);
                assert(out@ =~= before + varint(m));
                assert(out@ =~= out0 + varint(n));
            }
        } else {
            let ghost before = out@;
            let b: u8 = ((m % 128) + 128) as u8;
            out.push(b);
            proof {
                assert(varint(m) =~= seq![b] + varint(m / 128));
                assert(out@ =~= before + seq![b]);
                assert(out@ + varint(m / 128) =~= before + varint(m));
                assert(out@ + varint(m / 128) =~= out0 + varint(n));
            }
            m = m / 128;
        }
    }
}

/// Encode a lease record canonically.
pub fn encode_pb(pb: &PbLease) -> (r: Vec<u8>)
    ensures
        r@ == spec_encode_pb(*pb),
{
    let mut body: Vec<u8> = Vec::new();
    body.push(8);
    encode_varint(&mut body, pb.id as u64);
    body.push(16);
    encode_varint(&mut body, pb.ttl as u64);
    body.push(24);
    encode_varint(&mut body, pb.remaining_ttl as u64);
    proof {
        assert(body@ =~= pb_body(*pb));
        lemma_varint_len(pb.id as u64);
        lemma_varint_len(pb.ttl as u64);
        lemma_varint_len(pb.remaining_ttl as u64);
    }
    let mut out: Vec<u8> = Vec::new();
    encode_varint(&mut out, body.len() as u64);
    let mut i: usize = 0;
    let ghost prefix = out@;
    while i < body.len()
        invariant
            0 <= i <= body@.len(),
            out@ == prefix + body@.subrange(0, i as int),
        decreases body@.len() - i,
    {
        let ghost before = out@;
        out.push(body[i]);
        proof {
            assert(out@ =~= prefix + body@.subrange(0, i + 1));
        }
        i = i + 1;
    }
    proof {
        assert(body@.subrange(0, body@.len() as int) =~= body@);
        assert(out@ =~= spec_encode_pb(*pb));
    }
    out
}

/// Parse a varint at `pos`; `None` when the bytes do not hold one or its
/// value overflows.
fn decode_varint(bytes: &[u8], pos: usize) -> (r: Option<(u64, usize)>)
    ensures
        match r {
            Some((v, p)) => spec_parse_varint(bytes@, pos as int) == Some((v, p as int)) && pos < p
                <= bytes@.len(),
            None => spec_parse_varint(bytes@, pos as int) is None,
        },
    decreases bytes@.len() - pos,
{
    if pos >= bytes.len() {
        return None;
    }
    let b = bytes[pos];
    if b < 128 {
        return Some((b as u64, pos + 1));
    }
    match decode_varint(bytes, pos + 1) {
        None => None,
        Some((v, p2)) => {
            let low: u64 = (b - 128) as u64;
            if v > (u64::MAX - low) / 128 {
                proof {
                    assert((b - 128) + 128 * (v as int) > u64::MAX) by (nonlinear_arith)
                        requires
                            v > (u64::MAX - low) / 128,
                            low == (b - 128) as u64,
                            b >= 128,
                    ;
                }
                None
            } else {
                proof {
                    assert(128 * (v as int) <= u64::MAX - low) by (nonlinear_arith)
                        requires
                            v <= (u64::MAX - low) / 128,
                    ;
                }
                Some((low + 128 * v, p2))
            }
        },
    }
}

/// Decode a canonical lease record; `None` when the bytes are not one.
pub fn decode_pb(bytes: &[u8]) -> (r: Option<PbLease>)
    ensures
        r == spec_decode_pb(bytes@),
{
    proof {
        reveal(spec_decode_pb);
    }
    let (blen, p0) = match decode_varint(bytes, 0) {
        None => {
            return None;
        },
        Some(x) => x,
    };
    if p0 >= bytes.len() || blen != (bytes.len() - p0) as u64 || bytes[p0] != 8 {
        return None;
    }
    let (id, p1) = match decode_varint(bytes, p0 + 1) {
        None => {
            return None;
        },
        Some(x) => x,
    };
    if p1 >= bytes.len() || bytes[p1] != 16 {
        return None;
    }
    let (ttl, p2) = match decode_varint(bytes, p1 + 1) {
        None => {
            return None;
        },
        Some(x) => x,
    };
    if p2 >= bytes.len() || bytes[p2] != 24 {
        return None;
    }
    let (rttl, p3) = match decode_varint(bytes, p2 + 1) {
        None => {
            return None;
        },
        Some(x) => x,
    };
    if p3 != bytes.len() {
        return None;
    }
    Some(PbLease { id: id as i64, ttl: ttl as i64, remaining_ttl: rttl as i64 })
}

/// Encoding a lease record and decoding the bytes yields the record again.
pub proof fn lemma_pb_round_trip(pb: PbLease)
    ensures
        spec_decode_pb(spec_encode_pb(pb)) == Some(pb),
{
    reveal(spec_decode_pb);
    let body = pb_body(pb);
    let vi = varint(pb.id as u64);
    let vt = varint(pb.ttl as u64);
    let vr = varint(pb.remaining_ttl as u64);
    lemma_varint_len(pb.id as u64);
    lemma_varint_len(pb.ttl as u64);
    lemma_varint_len(pb.remaining_ttl as u64);
    let blen = body.len() as u64;
    let pre = varint(blen);
    lemma_varint_len(blen);
    let s = spec_encode_pb(pb);
    assert(s.len() == pre.len() + body.len());
    assert(s.subrange(0, pre.len() as int) =~= pre);
    lemma_varint_round_trip(blen, s, 0);
    let p0 = pre.len() as int;
    assert(blen == (s.len() - p0) as u64);
    assert(s[p0] == body[0]);
    assert(body[0] == 8) by {
        assert(body =~= seq![8u8] + vi + seq![16u8] + vt + seq![24u8] + vr);
    }
    let q1 = 1int;
    assert(s.subrange(p0 + q1, p0 + q1 + vi.len() as int) =~= vi) by {
        assert forall|i: int| 0 <= i < vi.len() implies s[p0 + q1 + i] == vi[i] by {
            assert(s[p0 + q1 + i] == body[q1 + i]);
            assert(body[q1 + i] == vi[i]);
        }
    }
    lemma_varint_round_trip(pb.id as u64, s, p0 + 1);
    let p1 = p0 + 1 + vi.len() as int;
    assert(s[p1] == body[1 + vi.len() as int]);
    assert(body[1 + vi.len() as int] == 16);
    assert(s.subrange(p1 + 1, p1 + 1 + vt.len() as int) =~= vt) by {
        assert forall|i: int| 0 <= i < vt.len() implies s[p1 + 1 + i] == vt[i] by {
            assert(s[p1 + 1 + i] == body[2 + vi.len() as int + i]);
            assert(body[2 + vi.len() as int + i] == vt[i]);
        }
    }
    lemma_varint_round_trip(pb.ttl as u64, s, p1 + 1);
    let p2 = p1 + 1 + vt.len() as int;
    assert(s[p2] == body[2 + vi.len() as int + vt.len() as int]);
    assert(body[2 + vi.len() as int + vt.len() as int] == 24);
    assert(s.subrange(p2 + 1, p2 + 1 + vr.len() as int) =~= vr) by {
        assert forall|i: int| 0 <= i < vr.len() implies s[p2 + 1 + i] == vr[i] by {
            assert(s[p2 + 1 + i] == body[3 + vi.len() as int + vt.len() as int + i]);
            assert(body[3 + vi.len() as int + vt.len() as int + i] == vr[i]);
        }
    }
    lemma_varint_round_trip(pb.remaining_ttl as u64, s, p2 + 1);
    let p3 = p2 + 1 + vr.len() as int;
    assert(p3 == s.len());
    let x1 = pb.id;
    let x2 = pb.ttl;
    let x3 = pb.remaining_ttl;
    assert((x1 as u64) as i64 == x1) by (bit_vector);
    assert((x2 as u64) as i64 == x2) by (bit_vector);
    assert((x3 as u64) as i64 == x3) by (bit_vector);
}

} // verus!
