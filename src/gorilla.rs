use vstd::prelude::*;
use vstd::std_specs::bits::u64_leading_zeros;
use vstd::std_specs::bits::u64_trailing_zeros;
use crate::bitio::{
    bit_of, lemma_holds_low_bits, low_bits, stream_bits, zero_bits, BitReader, BitWriter,
};
use crate::error::Error;

verus! {

broadcast use vstd::std_specs::bits::group_bits_axioms;

/// What the codec carries from one point to the next: the previous timestamp, the previous
/// timestamp delta and the bits of the previous value.
pub type CodecState = (u64, i64, u64);

/// Signed difference between two consecutive timestamps, wrapping on overflow.
pub open spec fn delta_of(prev_ts: u64, ts: u64) -> i64 {
    ts.wrapping_sub(prev_ts) as i64
}

/// Delta-of-delta of `ts` after state `st`.
pub open spec fn dod_of(st: CodecState, ts: u64) -> i64 {
    delta_of(st.0, ts).wrapping_sub(st.1)
}

/// The state after the first point: its delta is taken as zero.
pub open spec fn first_state(p: (u64, u64)) -> CodecState {
    (p.0, 0, p.1)
}

pub open spec fn next_state(st: CodecState, p: (u64, u64)) -> CodecState {
    (p.0, delta_of(st.0, p.0), p.1)
}

/// Encoding of a delta-of-delta: a unary control prefix, then the payload in two's
/// complement.
pub open spec fn dod_bits(dod: i64) -> Seq<bool> {
    if dod == 0 {
        seq![false]
    } else if -63 <= dod <= 63 {
        seq![true, false] + low_bits((dod & 0x7f) as u64, 7)
    } else if -255 <= dod <= 255 {
        seq![true, true, false] + low_bits((dod & 0x1ff) as u64, 9)
    } else if -2047 <= dod <= 2047 {
        seq![true, true, true, false] + low_bits((dod & 0xfff) as u64, 12)
    } else {
        seq![true, true, true, true] + low_bits((dod & 0xffffffff) as u64, 32)
    }
}

/// A delta-of-delta that the widest payload can carry: it fits 32 bits.
pub open spec fn dod_ok(dod: i64) -> bool {
    -0x8000_0000 <= dod <= 0x7fff_ffff
}

/// Leading zeros of a xor as stored in its 5-bit field (at most 31).
pub open spec fn stored_leading(x: u64) -> u64 {
    if u64_leading_zeros(x) > 31 {
        31
    } else {
        u64_leading_zeros(x) as u64
    }
}

pub open spec fn trailing(x: u64) -> u64 {
    u64_trailing_zeros(x) as u64
}

/// Number of meaningful bits of a nonzero xor, between the stored leading zeros and the
/// trailing zeros; 64 is stored as 0 in its 6-bit field.
pub open spec fn significant(x: u64) -> u64 {
    (64 - stored_leading(x) - trailing(x)) as u64
}

/// Encoding of the xor of a value with the previous one.
pub open spec fn xor_bits(x: u64) -> Seq<bool> {
    if x == 0 {
        seq![false]
    } else {
        seq![true] + low_bits(stored_leading(x), 5) + low_bits(significant(x) % 64, 6)
            + low_bits(x >> trailing(x), significant(x) as nat)
    }
}

/// Encoding of every point after the first one.
pub open spec fn step_bits(st: CodecState, p: (u64, u64)) -> Seq<bool> {
    dod_bits(dod_of(st, p.0)) + xor_bits(p.1 ^ st.2)
}

/// The state after encoding (or decoding) the nonempty sequence `ps`.
pub open spec fn state_after(ps: Seq<(u64, u64)>) -> CodecState
    decreases ps.len(),
{
    if ps.len() <= 1 {
        first_state(ps[0])
    } else {
        next_state(state_after(ps.drop_last()), ps.last())
    }
}

/// The Gorilla bit stream of a sequence of `(timestamp, value bits)` pairs: the first pair
/// verbatim, then delta-of-delta timestamps and xor-compressed values.
pub open spec fn gorilla_bits(ps: Seq<(u64, u64)>) -> Seq<bool>
    decreases ps.len(),
{
    if ps.len() == 0 {
        seq![]
    } else if ps.len() == 1 {
        low_bits(ps[0].0, 64) + low_bits(ps[0].1, 64)
    } else {
        gorilla_bits(ps.drop_last()) + step_bits(state_after(ps.drop_last()), ps.last())
    }
}

/// Every delta-of-delta in `ps` can be carried by the stream.
pub open spec fn dods_ok(ps: Seq<(u64, u64)>) -> bool {
    forall|i: int| 1 <= i < ps.len() ==> dod_ok(#[trigger] dod_of(state_after(ps.take(i)), ps[i].0))
}

/// The stream of `ps` followed by `pad` zero bits, as an encoder's output ends.
pub open spec fn padded(ps: Seq<(u64, u64)>, pad: nat) -> Seq<bool> {
    gorilla_bits(ps) + zero_bits(pad)
}

/// `p` stands in `s` from position `pos` on.
pub open spec fn is_prefix_at(s: Seq<bool>, pos: int, p: Seq<bool>) -> bool {
    &&& 0 <= pos
    &&& pos + p.len() <= s.len()
    &&& s.subrange(pos, pos + p.len()) == p
}

proof fn lemma_prefix_split(s: Seq<bool>, pos: int, a: Seq<bool>, b: Seq<bool>)
    requires
        is_prefix_at(s, pos, a + b),
    ensures
        is_prefix_at(s, pos, a),
        is_prefix_at(s, pos + a.len(), b),
{
    let w = s.subrange(pos, pos + a.len() + b.len());
    assert(w =~= a + b);
    assert(s.subrange(pos, pos + a.len()) =~= w.subrange(0, a.len() as int));
    assert(w.subrange(0, a.len() as int) =~= a);
    assert(s.subrange(pos + a.len(), pos + a.len() + b.len()) =~= w.subrange(
        a.len() as int,
        (a.len() + b.len()) as int,
    ));
    assert(w.subrange(a.len() as int, (a.len() + b.len()) as int) =~= b);
}

proof fn lemma_prefix_bit(s: Seq<bool>, pos: int, p: Seq<bool>, i: int)
    requires
        is_prefix_at(s, pos, p),
        0 <= i < p.len(),
    ensures
        s[pos + i] == p[i],
{
    assert(s.subrange(pos, pos + p.len())[i] == s[pos + i]);
}

proof fn lemma_leading_trailing(x: u64)
    requires
        x != 0,
    ensures
        stored_leading(x) + trailing(x) <= 63,
        1 <= significant(x) <= 64,
        (x >> trailing(x)) >> significant(x) == 0,
        (x >> trailing(x)) << (64 - stored_leading(x) - significant(x)) as u64 == x,
{
    let lz = u64_leading_zeros(x);
    let tz = u64_trailing_zeros(x) as u64;
    assert(0 <= lz < 64);
    assert(tz < 64);
    let top = (63 - lz) as u64;
    assert((x >> top) & 1u64 != 0u64);
    if top < tz {
        assert((x >> top) & 1u64 == 0u64);
    }
    let sl = stored_leading(x);
    let sig = significant(x);
    assert(x >> vstd::prelude::sub(64, lz as u64) == 0);
    assert(sl <= lz);
    assert(sig == 64 - sl - tz);
    let a = vstd::prelude::sub(64, lz as u64);
    assert(tz < 64 && sl <= 31 && a <= 64 && sig + tz + sl == 64 && sl as int <= 64 - a && x >> a
        == 0 ==> (x >> tz) >> sig == 0) by (bit_vector);
    assert(x << vstd::prelude::sub(64, tz) == 0);
    assert(tz < 64 && x << vstd::prelude::sub(64, tz) == 0 ==> (x >> tz) << tz == x) by (bit_vector);
}

proof fn lemma_sign_extend(d: i64)
    by (bit_vector)
    ensures
        -64 <= d <= 63 ==> ({
            let b = ((d & 0x7f) as u64) as i64;
            if b & 0x40 != 0 {
                b | !0x7fi64
            } else {
                b
            }
        }) == d,
        -256 <= d <= 255 ==> ({
            let b = ((d & 0x1ff) as u64) as i64;
            if b & 0x100 != 0 {
                b | !0x1ffi64
            } else {
                b
            }
        }) == d,
        -2048 <= d <= 2047 ==> ({
            let b = ((d & 0xfff) as u64) as i64;
            if b & 0x800 != 0 {
                b | !0xfffi64
            } else {
                b
            }
        }) == d,
        -0x8000_0000 <= d <= 0x7fff_ffff ==> ({
            let b = ((d & 0xffffffff) as u64) as i64;
            if b & 0x8000_0000 != 0 {
                b | !0xffff_ffffi64
            } else {
                b
            }
        }) == d,
        ((d & 0x7f) as u64) >> 7u64 == 0,
        ((d & 0x1ff) as u64) >> 9u64 == 0,
        ((d & 0xfff) as u64) >> 12u64 == 0,
        ((d & 0xffffffff) as u64) >> 32u64 == 0,
{
}

proof fn lemma_small_fields(a: u64, b: u64)
    by (bit_vector)
    requires
        a <= 31,
        b < 64,
    ensures
        a >> 5u64 == 0,
        b >> 6u64 == 0,
{
}

proof fn lemma_one_bit(v: u64)
    ensures
        low_bits(v, 1) =~= seq![bit_of(v, 0)],
{
}

proof fn lemma_wrapping_round_trip(prev_ts: u64, prev_delta: i64, ts: u64)
    ensures
        prev_delta.wrapping_add(delta_of(prev_ts, ts).wrapping_sub(prev_delta)) == delta_of(
            prev_ts,
            ts,
        ),
        prev_ts.wrapping_add(delta_of(prev_ts, ts) as u64) == ts,
{
    let w = ts.wrapping_sub(prev_ts);
    assert((w as i64) as u64 == w) by (bit_vector);
}

/// A bit of the control prefix, read where it is known to be present.
fn read_control(reader: &mut BitReader) -> (r: Option<bool>)
    requires
        old(reader).wf(),
    ensures
        final(reader).wf(),
        final(reader).source() == old(reader).source(),
        old(reader).position() <= old(reader).bits().len(),
        final(reader).position() <= final(reader).bits().len(),
        r is None ==> final(reader).position() == old(reader).position(),
        old(reader).position() < old(reader).bits().len() ==> r == Some(
            old(reader).bits()[old(reader).position() as int],
        ) && final(reader).position() == old(reader).position() + 1,
        old(reader).position() == old(reader).bits().len() ==> r is None,
{
    proof {
        old(reader).lemma_position_bound();
    }
    let r = reader.read_bit();
    proof {
        reader.lemma_position_bound();
    }
    r
}

/// Reads an `n`-bit field; where the low `n` bits of a word `x` below `2^n` stand next in
/// the stream, the result is `x`.
fn read_field(reader: &mut BitReader, n: u8) -> (r: Option<u64>)
    requires
        old(reader).wf(),
        0 < n <= 64,
    ensures
        final(reader).wf(),
        final(reader).source() == old(reader).source(),
        old(reader).position() <= old(reader).bits().len(),
        final(reader).position() <= final(reader).bits().len(),
        (r is None) == (old(reader).position() == old(reader).bits().len()),
        final(reader).position() >= old(reader).position(),
        r is Some ==> final(reader).position() > old(reader).position(),
        forall|x: u64|
            (n == 64 || x >> n as u64 == 0) && #[trigger] is_prefix_at(
                old(reader).bits(),
                old(reader).position() as int,
                low_bits(x, n as nat),
            ) ==> r == Some(x) && final(reader).position() == old(reader).position() + n,
{
    proof {
        old(reader).lemma_position_bound();
    }
    let ghost pos = reader.position();
    let r = reader.read_bits(n);
    proof {
        assert forall|x: u64|
            (n == 64 || x >> n as u64 == 0) && #[trigger] is_prefix_at(
                old(reader).bits(),
                pos as int,
                low_bits(x, n as nat),
            ) implies r == Some(x) && reader.position() == pos + n by {
            assert(pos < old(reader).bits().len());
            assert(old(reader).bits().subrange(pos as int, pos + n) == low_bits(x, n as nat));
            lemma_holds_low_bits(r->Some_0, x, n as u64);
        }
        reader.lemma_position_bound();
    }
    r
}

fn end_of_stream() -> (e: Error) {
    Error::CompressionError("bit stream ended inside a point".to_string())
}

proof fn lemma_dod_split(s: Seq<bool>, pos: int, d: i64)
    requires
        is_prefix_at(s, pos, dod_bits(d)),
    ensures
        s[pos] == (d != 0),
        d == 0 ==> dod_bits(d).len() == 1,
        d != 0 ==> s[pos + 1] == !(-63 <= d <= 63),
        d != 0 && -63 <= d <= 63 ==> dod_bits(d).len() == 9 && is_prefix_at(
            s,
            pos + 2,
            low_bits((d & 0x7f) as u64, 7),
        ),
        d != 0 && !(-63 <= d <= 63) ==> s[pos + 2] == !(-255 <= d <= 255),
        !(-63 <= d <= 63) && -255 <= d <= 255 ==> dod_bits(d).len() == 12 && is_prefix_at(
            s,
            pos + 3,
            low_bits((d & 0x1ff) as u64, 9),
        ),
        !(-255 <= d <= 255) ==> s[pos + 3] == !(-2047 <= d <= 2047),
        !(-255 <= d <= 255) && -2047 <= d <= 2047 ==> dod_bits(d).len() == 16 && is_prefix_at(
            s,
            pos + 4,
            low_bits((d & 0xfff) as u64, 12),
        ),
        !(-2047 <= d <= 2047) ==> dod_bits(d).len() == 36 && is_prefix_at(
            s,
            pos + 4,
            low_bits((d & 0xffffffff) as u64, 32),
        ),
{
    let p = dod_bits(d);
    lemma_prefix_bit(s, pos, p, 0);
    if d != 0 {
        lemma_prefix_bit(s, pos, p, 1);
        if -63 <= d <= 63 {
            lemma_prefix_split(s, pos, seq![true, false], low_bits((d & 0x7f) as u64, 7));
        } else {
            lemma_prefix_bit(s, pos, p, 2);
            if -255 <= d <= 255 {
                lemma_prefix_split(
                    s,
                    pos,
                    seq![true, true, false],
                    low_bits((d & 0x1ff) as u64, 9),
                );
            } else {
                lemma_prefix_bit(s, pos, p, 3);
                if -2047 <= d <= 2047 {
                    lemma_prefix_split(
                        s,
                        pos,
                        seq![true, true, true, false],
                        low_bits((d & 0xfff) as u64, 12),
                    );
                } else {
                    lemma_prefix_split(
                        s,
                        pos,
                        seq![true, true, true, true],
                        low_bits((d & 0xffffffff) as u64, 32),
                    );
                }
            }
        }
    }
}

proof fn lemma_xor_split(s: Seq<bool>, pos: int, x: u64)
    requires
        is_prefix_at(s, pos, xor_bits(x)),
    ensures
        s[pos] == (x != 0),
        x == 0 ==> xor_bits(x).len() == 1,
        x != 0 ==> {
            &&& xor_bits(x).len() == 12 + significant(x)
            &&& stored_leading(x) <= 31
            &&& 1 <= significant(x) <= 64 - stored_leading(x)
            &&& stored_leading(x) >> 5u64 == 0
            &&& (significant(x) % 64) >> 6u64 == 0
            &&& is_prefix_at(s, pos + 1, low_bits(stored_leading(x), 5))
            &&& is_prefix_at(s, pos + 6, low_bits(significant(x) % 64, 6))
            &&& is_prefix_at(s, pos + 12, low_bits(x >> trailing(x), significant(x) as nat))
            &&& (x >> trailing(x)) >> significant(x) == 0
            &&& (x >> trailing(x)) << (64 - stored_leading(x) - significant(x)) as u64 == x
        },
{
    lemma_prefix_bit(s, pos, xor_bits(x), 0);
    if x != 0 {
        lemma_leading_trailing(x);
        lemma_small_fields(stored_leading(x), significant(x) % 64);
        let a = seq![true];
        let b = low_bits(stored_leading(x), 5);
        let c = low_bits(significant(x) % 64, 6);
        let d = low_bits(x >> trailing(x), significant(x) as nat);
        assert(xor_bits(x) == a + b + c + d);
        lemma_prefix_split(s, pos, a + b + c, d);
        lemma_prefix_split(s, pos, a + b, c);
        lemma_prefix_split(s, pos, a, b);
    }
}

/// Reads one delta-of-delta.
/// `Ok(None)` means that the stream ended at a control bit.
fn read_dod(reader: &mut BitReader) -> (r: Result<Option<i64>, Error>)
    requires
        old(reader).wf(),
    ensures
        final(reader).wf(),
        final(reader).source() == old(reader).source(),
        old(reader).position() == old(reader).bits().len() ==> r == Ok::<Option<i64>, Error>(None),
        final(reader).position() >= old(reader).position(),
        r matches Ok(Some(_)) ==> final(reader).position() > old(reader).position(),
        forall|d: i64|
            dod_ok(d) && #[trigger] is_prefix_at(
                old(reader).bits(),
                old(reader).position() as int,
                dod_bits(d),
            ) ==> r == Ok::<Option<i64>, Error>(Some(d)) && final(reader).position() == old(reader).position() + dod_bits(d).len(),
{
    let ghost s = reader.bits();
    let ghost pos = reader.position() as int;
    proof {
        assert forall|d: i64| #[trigger] is_prefix_at(s, pos, dod_bits(d)) implies ({
            &&& s[pos] == (d != 0)
            &&& d == 0 ==> dod_bits(d).len() == 1
            &&& d != 0 ==> s[pos + 1] == !(-63 <= d <= 63)
            &&& d != 0 && -63 <= d <= 63 ==> dod_bits(d).len() == 9 && is_prefix_at(
                s,
                pos + 2,
                low_bits((d & 0x7f) as u64, 7),
            )
            &&& d != 0 && !(-63 <= d <= 63) ==> s[pos + 2] == !(-255 <= d <= 255)
            &&& !(-63 <= d <= 63) && -255 <= d <= 255 ==> dod_bits(d).len() == 12 && is_prefix_at(
                s,
                pos + 3,
                low_bits((d & 0x1ff) as u64, 9),
            )
            &&& !(-255 <= d <= 255) ==> s[pos + 3] == !(-2047 <= d <= 2047)
            &&& !(-255 <= d <= 255) && -2047 <= d <= 2047 ==> dod_bits(d).len() == 16
                && is_prefix_at(s, pos + 4, low_bits((d & 0xfff) as u64, 12))
            &&& !(-2047 <= d <= 2047) ==> dod_bits(d).len() == 36 && is_prefix_at(
                s,
                pos + 4,
                low_bits((d & 0xffffffff) as u64, 32),
            )
        }) by {
            lemma_dod_split(s, pos, d);
        }
    }
    let b0 = match read_control(reader) {
        Some(b) => b,
        None => {
            return Ok(None);
        },
    };
    if !b0 {
        return Ok(Some(0));
    }
    let b1 = match read_control(reader) {
        Some(b) => b,
        None => {
            return Ok(None);
        },
    };
    if !b1 {
        let raw = match read_field(reader, 7) {
            Some(v) => v,
            None => {
                return Err(end_of_stream());
            },
        };
        let b = raw as i64;
        let d = if b & 0x40 != 0 {
            b | !0x7f
        } else {
            b
        };
        proof {
            assert forall|e: i64|
                dod_ok(e) && #[trigger] is_prefix_at(s, pos, dod_bits(e)) implies d == e
                && reader.position() == pos + dod_bits(e).len() by {
                lemma_sign_extend(e);
                assert(is_prefix_at(s, pos + 2, low_bits((e & 0x7f) as u64, 7)));
            }
        }
        return Ok(Some(d));
    }
    let b2 = match read_control(reader) {
        Some(b) => b,
        None => {
            return Ok(None);
        },
    };
    if !b2 {
        let raw = match read_field(reader, 9) {
            Some(v) => v,
            None => {
                return Err(end_of_stream());
            },
        };
        let b = raw as i64;
        let d = if b & 0x100 != 0 {
            b | !0x1ff
        } else {
            b
        };
        proof {
            assert forall|e: i64|
                dod_ok(e) && #[trigger] is_prefix_at(s, pos, dod_bits(e)) implies d == e
                && reader.position() == pos + dod_bits(e).len() by {
                lemma_sign_extend(e);
                assert(is_prefix_at(s, pos + 3, low_bits((e & 0x1ff) as u64, 9)));
            }
        }
        return Ok(Some(d));
    }
    let b3 = match read_control(reader) {
        Some(b) => b,
        None => {
            return Ok(None);
        },
    };
    if !b3 {
        let raw = match read_field(reader, 12) {
            Some(v) => v,
            None => {
                return Err(end_of_stream());
            },
        };
        let b = raw as i64;
        let d = if b & 0x800 != 0 {
            b | !0xfff
        } else {
            b
        };
        proof {
            assert forall|e: i64|
                dod_ok(e) && #[trigger] is_prefix_at(s, pos, dod_bits(e)) implies d == e
                && reader.position() == pos + dod_bits(e).len() by {
                lemma_sign_extend(e);
                assert(is_prefix_at(s, pos + 4, low_bits((e & 0xfff) as u64, 12)));
            }
        }
        return Ok(Some(d));
    }
    let raw = match read_field(reader, 32) {
        Some(v) => v,
        None => {
            return Err(end_of_stream());
        },
    };
    let b = raw as i64;
    let d = if b & 0x8000_0000 != 0 {
        b | !0xffff_ffff
    } else {
        b
    };
    proof {
        assert forall|e: i64|
            dod_ok(e) && #[trigger] is_prefix_at(s, pos, dod_bits(e)) implies d == e
            && reader.position() == pos + dod_bits(e).len() by {
            lemma_sign_extend(e);
            assert(is_prefix_at(s, pos + 4, low_bits((e & 0xffffffff) as u64, 32)));
        }
    }
    Ok(Some(d))
}

/// Reads the xor of a value with the previous one.
/// `Ok(None)` means that the stream ended at the control bit.
fn read_xor(reader: &mut BitReader) -> (r: Result<Option<u64>, Error>)
    requires
        old(reader).wf(),
    ensures
        final(reader).wf(),
        final(reader).source() == old(reader).source(),
        old(reader).position() == old(reader).bits().len() ==> r == Ok::<Option<u64>, Error>(None),
        final(reader).position() >= old(reader).position(),
        r matches Ok(Some(_)) ==> final(reader).position() > old(reader).position(),
        forall|x: u64|
            #[trigger] is_prefix_at(old(reader).bits(), old(reader).position() as int, xor_bits(x))
                ==> r == Ok::<Option<u64>, Error>(Some(x)) && final(reader).position() == old(reader).position() + xor_bits(x).len(),
{
    let ghost s = reader.bits();
    let ghost pos = reader.position() as int;
    proof {
        assert forall|x: u64| #[trigger] is_prefix_at(s, pos, xor_bits(x)) implies ({
            &&& s[pos] == (x != 0)
            &&& x == 0 ==> xor_bits(x).len() == 1
            &&& x != 0 ==> {
                &&& xor_bits(x).len() == 12 + significant(x)
                &&& stored_leading(x) <= 31
                &&& 1 <= significant(x) <= 64 - stored_leading(x)
                &&& stored_leading(x) >> 5u64 == 0
                &&& (significant(x) % 64) >> 6u64 == 0
                &&& is_prefix_at(s, pos + 1, low_bits(stored_leading(x), 5))
                &&& is_prefix_at(s, pos + 6, low_bits(significant(x) % 64, 6))
                &&& is_prefix_at(s, pos + 12, low_bits(x >> trailing(x), significant(x) as nat))
                &&& (x >> trailing(x)) >> significant(x) == 0
                &&& (x >> trailing(x)) << (64 - stored_leading(x) - significant(x)) as u64 == x
            }
        }) by {
            lemma_xor_split(s, pos, x);
        }
    }
    let b0 = match read_control(reader) {
        Some(b) => b,
        None => {
            return Ok(None);
        },
    };
    if !b0 {
        return Ok(Some(0));
    }
    let lead = match read_field(reader, 5) {
        Some(v) => v,
        None => {
            return Err(end_of_stream());
        },
    };
    proof {
        assert forall|e: u64| #[trigger] is_prefix_at(s, pos, xor_bits(e)) implies lead
            == stored_leading(e) && reader.position() == pos + 6 by {
            assert(is_prefix_at(s, pos + 1, low_bits(stored_leading(e), 5)));
        }
    }
    let field = match read_field(reader, 6) {
        Some(v) => v,
        None => {
            return Err(end_of_stream());
        },
    };
    proof {
        assert forall|e: u64| #[trigger] is_prefix_at(s, pos, xor_bits(e)) implies field
            == significant(e) % 64 && reader.position() == pos + 12 by {
            assert(is_prefix_at(s, pos + 6, low_bits(significant(e) % 64, 6)));
        }
    }
    let sig: u64 = if field == 0 {
        64
    } else {
        field
    };
    if lead > 31 || sig > 64 - lead {
        return Err(Error::CompressionError("xor field widths out of range".to_string()));
    }
    let meaningful = match read_field(reader, sig as u8) {
        Some(v) => v,
        None => {
            return Err(end_of_stream());
        },
    };
    let x = meaningful << (64 - lead - sig);
    proof {
        assert forall|e: u64| #[trigger] is_prefix_at(s, pos, xor_bits(e)) implies x == e
            && reader.position() == pos + xor_bits(e).len() by {
            assert(sig == significant(e));
            assert(is_prefix_at(s, pos + 12, low_bits(e >> trailing(e), significant(e) as nat)));
        }
    }
    Ok(Some(x))
}

/// Compresses `(timestamp, value bits)` pairs into a Gorilla bit stream.
pub struct GorillaEncoder {
    bit_writer: BitWriter,
    first_timestamp: u64,
    prev_timestamp: u64,
    prev_delta: i64,
    prev_value: u64,
    first_value: bool,
    start: Ghost<Seq<bool>>,
    points: Ghost<Seq<(u64, u64)>>,
}

impl GorillaEncoder {
    /// The bits that the underlying vector held before encoding began.
    pub closed spec fn start(&self) -> Seq<bool> {
        self.start@
    }

    /// The points encoded so far.
    pub closed spec fn points(&self) -> Seq<(u64, u64)> {
        self.points@
    }

    /// Every bit written so far.
    pub closed spec fn written(&self) -> Seq<bool> {
        self.bit_writer.written()
    }

    pub closed spec fn wf(&self) -> bool {
        &&& self.bit_writer.wf()
        &&& self.bit_writer.written() == self.start@ + gorilla_bits(self.points@)
        &&& self.first_value == (self.points@.len() == 0)
        &&& self.points@.len() > 0 ==> state_after(self.points@) == (
            self.prev_timestamp,
            self.prev_delta,
            self.prev_value,
        ) && self.first_timestamp == self.points@[0].0
    }

    pub fn new(writer: Vec<u8>) -> (r: Self)
        ensures
            r.wf(),
            r.start() == stream_bits(writer@),
            r.points() == Seq::<(u64, u64)>::empty(),
    {
        let bit_writer = BitWriter::new(writer);
        let ghost start = bit_writer.written();
        let r = GorillaEncoder {
            bit_writer,
            first_timestamp: 0,
            prev_timestamp: 0,
            prev_delta: 0,
            prev_value: 0,
            first_value: true,
            start: Ghost(start),
            points: Ghost(Seq::empty()),
        };
        assert(r.bit_writer.written() =~= start + gorilla_bits(Seq::<(u64, u64)>::empty()));
        r
    }

    /// Appends one point to the stream.
    pub fn encode(&mut self, timestamp: u64, value: u64)
        requires
            old(self).wf(),
        ensures
            final(self).wf(),
            final(self).start() == old(self).start(),
            final(self).points() == old(self).points().push((timestamp, value)),
    {
        let ghost ps = self.points@;
        let ghost p = (timestamp, value);
        let ghost qs = ps.push(p);
        assert(qs.drop_last() =~= ps);
        if self.first_value {
            self.bit_writer.write_bits(timestamp, 64);
            self.bit_writer.write_bits(value, 64);
            self.first_timestamp = timestamp;
            self.prev_timestamp = timestamp;
            self.prev_delta = 0;
            self.prev_value = value;
            self.first_value = false;
            self.points = Ghost(qs);
            assert(self.bit_writer.written() =~= self.start@ + gorilla_bits(qs));
            return ;
        }
        let ghost st = (self.prev_timestamp, self.prev_delta, self.prev_value);
        let ghost before = self.bit_writer.written();
        let delta = timestamp.wrapping_sub(self.prev_timestamp) as i64;
        let dod = delta.wrapping_sub(self.prev_delta);
        assert(dod == dod_of(st, timestamp));
        if dod == 0 {
            self.bit_writer.write_bits(0, 1);
            proof {
                lemma_one_bit(0);
                assert(!bit_of(0, 0)) by (bit_vector);
            }
        } else if dod >= -63 && dod <= 63 {
            self.bit_writer.write_bits(1, 2);
            self.bit_writer.write_bits((dod & 0x7f) as u64, 7);
            proof {
                assert(bit_of(1, 0) && !bit_of(1, 1)) by (bit_vector);
                assert(low_bits(1, 2) =~= seq![true, false]);
            }
        } else if dod >= -255 && dod <= 255 {
            self.bit_writer.write_bits(3, 3);
            self.bit_writer.write_bits((dod & 0x1ff) as u64, 9);
            proof {
                assert(bit_of(3, 0) && bit_of(3, 1) && !bit_of(3, 2)) by (bit_vector);
                assert(low_bits(3, 3) =~= seq![true, true, false]);
            }
        } else if dod >= -2047 && dod <= 2047 {
            self.bit_writer.write_bits(7, 4);
            self.bit_writer.write_bits((dod & 0xfff) as u64, 12);
            proof {
                assert(bit_of(7, 0) && bit_of(7, 1) && bit_of(7, 2) && !bit_of(7, 3))
                    by (bit_vector);
                assert(low_bits(7, 4) =~= seq![true, true, true, false]);
            }
        } else {
            self.bit_writer.write_bits(15, 4);
            self.bit_writer.write_bits((dod & 0xffffffff) as u64, 32);
            proof {
                assert(bit_of(15, 0) && bit_of(15, 1) && bit_of(15, 2) && bit_of(15, 3))
                    by (bit_vector);
                assert(low_bits(15, 4) =~= seq![true, true, true, true]);
            }
        }
        assert(self.bit_writer.written() =~= before + dod_bits(dod));
        let ghost middle = self.bit_writer.written();
        self.prev_delta = delta;
        self.prev_timestamp = timestamp;
        let xor = value ^ self.prev_value;
        if xor == 0 {
            self.bit_writer.write_bits(0, 1);
            proof {
                lemma_one_bit(0);
                assert(!bit_of(0, 0)) by (bit_vector);
            }
        } else {
            proof {
                lemma_leading_trailing(xor);
            }
            let lz = xor.leading_zeros() as u64;
            let lead: u64 = if lz > 31 {
                31
            } else {
                lz
            };
            let tz = xor.trailing_zeros() as u64;
            let sig = 64 - lead - tz;
            assert(lead == stored_leading(xor) && tz == trailing(xor) && sig == significant(xor));
            self.bit_writer.write_bits(1, 1);
            proof {
                lemma_one_bit(1);
                assert(bit_of(1, 0)) by (bit_vector);
            }
            self.bit_writer.write_bits(lead, 5);
            self.bit_writer.write_bits(sig % 64, 6);
            self.bit_writer.write_bits(xor >> tz, sig as u8);
        }
        assert(self.bit_writer.written() =~= middle + xor_bits(xor));
        self.prev_value = value;
        self.points = Ghost(qs);
        assert(self.bit_writer.written() =~= self.start@ + gorilla_bits(qs));
    }

    /// Ends the stream: the pending bits go out as a last byte padded with zero bits.
    pub fn close(self) -> (r: Vec<u8>)
        requires
            self.wf(),
        ensures
            exists|pad: nat|
                pad < 8 && stream_bits(r@) == self.start() + gorilla_bits(self.points())
                    + zero_bits(pad),
    {
        let mut w = self.bit_writer;
        proof {
            w.lemma_pending_len();
        }
        let ghost n = w.pending().len();
        w.flush();
        let ghost pad: nat = (if n == 0 {
            0
        } else {
            8 - n
        }) as nat;
        assert(stream_bits(w.bytes()) =~= w.written());
        w.into_inner()
    }
}

/// Decompresses a Gorilla bit stream read from a byte slice.
pub struct GorillaDecoder<'a> {
    bit_reader: BitReader<'a>,
    first_timestamp: u64,
    prev_timestamp: u64,
    prev_delta: i64,
    prev_value: u64,
    first_value: bool,
}

impl<'a> GorillaDecoder<'a> {
    pub closed spec fn bits(&self) -> Seq<bool> {
        self.bit_reader.bits()
    }

    pub closed spec fn position(&self) -> nat {
        self.bit_reader.position()
    }

    pub closed spec fn source(&self) -> Seq<u8> {
        self.bit_reader.source()
    }

    /// Whether the value of the first point is still to be read.
    pub closed spec fn first_pending(&self) -> bool {
        self.first_value
    }

    pub closed spec fn first_timestamp(&self) -> u64 {
        self.first_timestamp
    }

    /// The state reached after the points decoded so far.
    pub closed spec fn state(&self) -> CodecState {
        (self.prev_timestamp, self.prev_delta, self.prev_value)
    }

    pub closed spec fn wf(&self) -> bool {
        self.bit_reader.wf()
    }

    pub proof fn lemma_position_bound(&self)
        requires
            self.wf(),
        ensures
            self.position() <= self.bits().len(),
    {
        self.bit_reader.lemma_position_bound();
    }

    /// Reads the timestamp of the first point; fails on an empty stream.
    pub fn new(reader: &'a [u8]) -> (r: Result<Self, Error>)
        ensures
            stream_bits(reader@).len() == 0 <==> r is Err,
            r matches Ok(d) ==> {
                &&& d.wf()
                &&& d.source() == reader@
                &&& d.bits() == stream_bits(reader@)
                &&& d.first_pending()
                &&& forall|t: u64| #[trigger]
                    is_prefix_at(stream_bits(reader@), 0, low_bits(t, 64))
                        ==> d.first_timestamp() == t && d.position() == 64
            },
    {
        let mut bit_reader = BitReader::new(reader);
        let first = match read_field(&mut bit_reader, 64) {
            Some(t) => t,
            None => {
                return Err(Error::IoError("empty bit stream".to_string()));
            },
        };
        proof {
            if stream_bits(reader@).len() == 0 {
                assert(false);
            }
        }
        Ok(
            GorillaDecoder {
                bit_reader,
                first_timestamp: first,
                prev_timestamp: first,
                prev_delta: 0,
                prev_value: 0,
                first_value: true,
            },
        )
    }

    /// Decodes the next point. `Ok(None)` means that the stream ended before it.
    /// Where the encoding of a point stands next in the stream, that point comes out.
    pub fn decode(&mut self) -> (r: Result<Option<(u64, u64)>, Error>)
        requires
            old(self).wf(),
        ensures
            final(self).wf(),
            final(self).source() == old(self).source(),
            final(self).bits() == old(self).bits(),
            final(self).first_timestamp() == old(self).first_timestamp(),
            final(self).position() >= old(self).position(),
            r matches Ok(Some(_)) ==> final(self).position() > old(self).position(),
            old(self).position() == old(self).bits().len() ==> r == Ok::<
                Option<(u64, u64)>,
                Error,
            >(None),
            old(self).first_pending() ==> forall|v: u64| #[trigger]
                is_prefix_at(old(self).bits(), old(self).position() as int, low_bits(v, 64))
                    ==> r == Ok::<Option<(u64, u64)>, Error>(
                    Some((old(self).first_timestamp(), v)),
                ) && final(self).position() == old(self).position() + 64 && !final(self).first_pending() && final(self).state() == first_state(
                    (old(self).first_timestamp(), v),
                ),
            !old(self).first_pending() ==> forall|t: u64, v: u64|
                dod_ok(dod_of(old(self).state(), t)) && #[trigger] is_prefix_at(
                    old(self).bits(),
                    old(self).position() as int,
                    step_bits(old(self).state(), (t, v)),
                ) ==> r == Ok::<Option<(u64, u64)>, Error>(Some((t, v))) && final(self).position() == old(self).position() + step_bits(old(self).state(), (t, v)).len()
                    && !final(self).first_pending() && final(self).state() == next_state(
                    old(self).state(),
                    (t, v),
                ),
    {
        proof {
            self.bit_reader.lemma_position_bound();
        }
        if self.first_value {
            let v = match read_field(&mut self.bit_reader, 64) {
                Some(v) => v,
                None => {
                    return Ok(None);
                },
            };
            self.prev_timestamp = self.first_timestamp;
            self.prev_delta = 0;
            self.prev_value = v;
            self.first_value = false;
            return Ok(Some((self.first_timestamp, v)));
        }
        let ghost s = self.bit_reader.bits();
        let ghost pos = self.bit_reader.position() as int;
        let ghost st = (self.prev_timestamp, self.prev_delta, self.prev_value);
        proof {
            assert forall|t: u64, v: u64| #[trigger]
                is_prefix_at(s, pos, step_bits(st, (t, v))) implies is_prefix_at(
                s,
                pos,
                dod_bits(dod_of(st, t)),
            ) by {
                lemma_prefix_split(s, pos, dod_bits(dod_of(st, t)), xor_bits(v ^ st.2));
            }
        }
        let dod = match read_dod(&mut self.bit_reader) {
            Ok(Some(d)) => d,
            Ok(None) => {
                return Ok(None);
            },
            Err(e) => {
                return Err(e);
            },
        };
        let ghost after_dod = self.bit_reader.position() as int;
        let delta = self.prev_delta.wrapping_add(dod);
        let timestamp = self.prev_timestamp.wrapping_add(delta as u64);
        proof {
            assert forall|t: u64, v: u64|
                dod_ok(dod_of(st, t)) && #[trigger] is_prefix_at(
                    s,
                    pos,
                    step_bits(st, (t, v)),
                ) implies dod == dod_of(st, t) && after_dod == pos + dod_bits(dod_of(st, t)).len()
                && is_prefix_at(s, after_dod, xor_bits(v ^ st.2)) by {
                lemma_prefix_split(s, pos, dod_bits(dod_of(st, t)), xor_bits(v ^ st.2));
                assert(is_prefix_at(s, pos, dod_bits(dod_of(st, t))));
            }
        }
        assert(self.bit_reader.bits() == s);
        assert(self.bit_reader.position() == after_dod);
        let xr = read_xor(&mut self.bit_reader);
        let x = match xr {
            Ok(Some(x)) => x,
            Ok(None) => {
                proof {
                    assert forall|t: u64, v: u64|
                        dod_ok(dod_of(st, t)) && #[trigger] is_prefix_at(
                            s,
                            pos,
                            step_bits(st, (t, v)),
                        ) implies false by {
                        assert(is_prefix_at(s, after_dod, xor_bits(v ^ st.2)));
                        assert(xr == Ok::<Option<u64>, Error>(Some(v ^ st.2)));
                    }
                }
                return Err(end_of_stream());
            },
            Err(e) => {
                return Err(e);
            },
        };
        let value = self.prev_value ^ x;
        proof {
            assert forall|t: u64, v: u64|
                dod_ok(dod_of(st, t)) && #[trigger] is_prefix_at(
                    s,
                    pos,
                    step_bits(st, (t, v)),
                ) implies timestamp == t && value == v && self.bit_reader.position() == pos
                + step_bits(st, (t, v)).len() by {
                lemma_prefix_split(s, pos, dod_bits(dod_of(st, t)), xor_bits(v ^ st.2));
                lemma_wrapping_round_trip(st.0, st.1, t);
                let pv = st.2;
                assert(pv ^ (v ^ pv) == v) by (bit_vector);
            }
        }
        self.prev_delta = delta;
        self.prev_timestamp = timestamp;
        self.prev_value = value;
        Ok(Some((timestamp, value)))
    }

    /// Fewer than eight bits remain: at most the padding of the last byte.
    pub fn at_most_padding(&self) -> (r: bool)
        requires
            self.wf(),
        ensures
            r == (self.bits().len() - self.position() < 8),
    {
        self.bit_reader.at_most_padding()
    }

    /// Decodes points until the stream holds no further point. A stream made of the
    /// encoding of some points followed by zero padding, read by a decoder fresh from `new`,
    /// gives those points first; whatever follows them was read from the padding.
    #[verifier::rlimit(100)]
    pub fn decode_all(self) -> (r: Result<Vec<(u64, u64)>, Error>)
        requires
            self.wf(),
        ensures
            r is Ok,
            forall|ps: Seq<(u64, u64)>, pad: nat|
                ps.len() >= 1 && dods_ok(ps) && self.first_pending() && self.position() == 64
                    && self.first_timestamp() == ps[0].0 && #[trigger] padded(ps, pad)
                    == self.bits() ==> (r matches Ok(v) && v@.len() >= ps.len() && v@.take(
                    ps.len() as int,
                ) == ps),
    {
        let mut dec = self;
        let mut out: Vec<(u64, u64)> = Vec::new();
        let ghost start = dec;
        proof {
            assert forall|ps: Seq<(u64, u64)>, pad: nat|
                ps.len() >= 1 && dods_ok(ps) && start.first_pending() && start.position() == 64
                    && start.first_timestamp() == ps[0].0 && #[trigger] padded(ps, pad)
                    == start.bits() implies crate::block::decoded_upto(dec, ps, 0, out@) by {
                assert(out@ =~= ps.take(0));
            }
        }
        loop
            invariant_except_break
                forall|ps: Seq<(u64, u64)>, pad: nat|
                    ps.len() >= 1 && dods_ok(ps) && start.first_pending() && start.position()
                        == 64 && start.first_timestamp() == ps[0].0 && #[trigger] padded(ps, pad)
                        == start.bits() ==> (out@.len() <= ps.len()
                        ==> crate::block::decoded_upto(dec, ps, out@.len() as int, out@)) && (
                    out@.len() >= ps.len() ==> out@.take(ps.len() as int) == ps),
            invariant
                start == self,
                dec.wf(),
                dec.bits() == start.bits(),
                dec.first_timestamp() == start.first_timestamp(),
            ensures
                forall|ps: Seq<(u64, u64)>, pad: nat|
                    ps.len() >= 1 && dods_ok(ps) && start.first_pending() && start.position()
                        == 64 && start.first_timestamp() == ps[0].0 && #[trigger] padded(ps, pad)
                        == start.bits() ==> out@.len() >= ps.len() && out@.take(ps.len() as int)
                        == ps,
            decreases dec.bits().len() - dec.position(),
        {
            proof {
                dec.lemma_position_bound();
            }
            let ghost d0 = dec;
            let ghost o0 = out@;
            proof {
                assert forall|ps: Seq<(u64, u64)>, pad: nat|
                    ps.len() >= 1 && dods_ok(ps) && start.first_pending() && start.position() == 64
                        && start.first_timestamp() == ps[0].0 && #[trigger] padded(ps, pad)
                        == start.bits() implies {
                    let i = o0.len() as int;
                    &&& i == 0 ==> is_prefix_at(d0.bits(), 64, low_bits(ps[0].1, 64))
                    &&& 0 < i < ps.len() ==> is_prefix_at(
                        d0.bits(),
                        d0.position() as int,
                        step_bits(d0.state(), (ps[i].0, ps[i].1)),
                    ) && dod_ok(dod_of(d0.state(), ps[i].0))
                } by {
                    let i = o0.len() as int;
                    if i < ps.len() {
                        crate::block::lemma_gorilla_prefix(ps, i + 1);
                        let g = gorilla_bits(ps.take(i + 1));
                        let all = gorilla_bits(ps) + zero_bits(pad);
                        assert(all.subrange(0, g.len() as int) =~= gorilla_bits(ps).subrange(
                            0,
                            g.len() as int,
                        ));
                        if i == 0 {
                            assert(g == low_bits(ps[0].0, 64) + low_bits(ps[0].1, 64));
                            assert(d0.bits().subrange(64, 128) =~= g.subrange(64, 128));
                            assert(g.subrange(64, 128) =~= low_bits(ps[0].1, 64));
                        } else {
                            crate::block::lemma_gorilla_step(ps, i);
                            let a = gorilla_bits(ps.take(i));
                            let b = step_bits(state_after(ps.take(i)), ps[i]);
                            assert(d0.bits().subrange(a.len() as int, (a.len() + b.len()) as int)
                                =~= g.subrange(a.len() as int, (a.len() + b.len()) as int));
                            assert(g.subrange(a.len() as int, (a.len() + b.len()) as int) =~= b);
                            assert(ps[i] == (ps[i].0, ps[i].1));
                            assert(crate::block::dod_ok_at(ps, i));
                        }
                    }
                }
            }
            match dec.decode() {
                Ok(Some(p)) => {
                    out.push(p);
                    proof {
                        dec.lemma_position_bound();
                        assert forall|ps: Seq<(u64, u64)>, pad: nat|
                            ps.len() >= 1 && dods_ok(ps) && start.first_pending()
                                && start.position() == 64 && start.first_timestamp() == ps[0].0
                                && #[trigger] padded(ps, pad) == start.bits() implies (out@.len()
                            <= ps.len() ==> crate::block::decoded_upto(
                            dec,
                            ps,
                            out@.len() as int,
                            out@,
                        )) && (out@.len() >= ps.len() ==> out@.take(ps.len() as int) == ps) by {
                            let i = o0.len() as int;
                            if i >= ps.len() {
                                assert(out@.take(ps.len() as int) =~= o0.take(ps.len() as int));
                            } else if i == 0 {
                                assert(is_prefix_at(d0.bits(), 64, low_bits(ps[0].1, 64)));
                                assert(out@ =~= ps.take(1));
                                assert(gorilla_bits(ps.take(1)).len() == 128);
                                if ps.len() == 1 {
                                    assert(out@.take(ps.len() as int) =~= ps);
                                }
                            } else {
                                assert(is_prefix_at(
                                    d0.bits(),
                                    d0.position() as int,
                                    step_bits(d0.state(), (ps[i].0, ps[i].1)),
                                ));
                                crate::block::lemma_gorilla_step(ps, i);
                                assert(out@ =~= ps.take(i + 1));
                                if i + 1 == ps.len() {
                                    assert(out@.take(ps.len() as int) =~= ps);
                                }
                            }
                        }
                    }
                },
                _ => {
                    proof {
                        assert forall|ps: Seq<(u64, u64)>, pad: nat|
                            ps.len() >= 1 && dods_ok(ps) && start.first_pending()
                                && start.position() == 64 && start.first_timestamp() == ps[0].0
                                && #[trigger] padded(ps, pad) == start.bits() implies out@.len()
                            >= ps.len() && out@.take(ps.len() as int) == ps by {
                            let i = o0.len() as int;
                            if i < ps.len() {
                                if i == 0 {
                                    assert(is_prefix_at(d0.bits(), 64, low_bits(ps[0].1, 64)));
                                } else {
                                    assert(is_prefix_at(
                                        d0.bits(),
                                        d0.position() as int,
                                        step_bits(d0.state(), (ps[i].0, ps[i].1)),
                                    ));
                                }
                                assert(false);
                            }
                        }
                    }
                    break;
                },
            }
        }
        Ok(out)
    }

    /// The underlying slice; replacing it changes the stream read from the same position.
    pub fn get_mut(&mut self) -> (r: &mut &'a [u8])
        ensures
            (*r)@ == old(self).source(),
            final(self).source() == (*final(r))@,
            final(self).position() == old(self).position(),
            final(self).first_pending() == old(self).first_pending(),
            final(self).state() == old(self).state(),
    {
        self.bit_reader.get_mut()
    }

    pub fn get_ref(&self) -> (r: &'a [u8])
        ensures
            r@ == self.source(),
    {
        self.bit_reader.get_ref()
    }

    pub fn into_inner(self) -> (r: &'a [u8])
        ensures
            r@ == self.source(),
    {
        self.bit_reader.into_inner()
    }
}

} // verus!
