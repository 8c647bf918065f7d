use vstd::prelude::*;
use vstd::bytes::{spec_u32_from_le_bytes, spec_u32_to_le_bytes, u32_from_le_bytes, u32_to_le_bytes};
use vstd::slice::slice_subrange;
use crate::bitio::{stream_bits, zero_bits};
use crate::error::Error;
use crate::gorilla::{
    dod_of, dods_ok, first_state, gorilla_bits, is_prefix_at, next_state, state_after, step_bits,
    GorillaDecoder, GorillaEncoder,
};
use crate::points::{filter_range, in_range, sort_by_ts, stable_sort_by_ts};

verus! {

/// `bytes` is a compressed block of `ps`: a little-endian `u32` count, then the Gorilla
/// stream of the points padded with zero bits to a whole byte.
pub open spec fn is_block_of(bytes: Seq<u8>, ps: Seq<(u64, u64)>) -> bool {
    &&& ps.len() <= u32::MAX
    &&& bytes.len() >= 4
    &&& bytes.take(4) == spec_u32_to_le_bytes(ps.len() as u32)
    &&& exists|pad: nat|
        pad < 8 && stream_bits(bytes.skip(4)) == gorilla_bits(ps) + zero_bits(pad)
}

/// The stream of a prefix of `ps` is a prefix of the stream of `ps`.
pub proof fn lemma_gorilla_prefix(ps: Seq<(u64, u64)>, j: int)
    requires
        0 <= j <= ps.len(),
    ensures
        is_prefix_at(gorilla_bits(ps), 0, gorilla_bits(ps.take(j))),
    decreases ps.len(),
{
    if j == ps.len() {
        assert(ps.take(j) =~= ps);
        assert(gorilla_bits(ps).subrange(0, gorilla_bits(ps).len() as int) =~= gorilla_bits(ps));
    } else if j == 0 {
        assert(gorilla_bits(ps.take(0)) =~= Seq::<bool>::empty());
        assert(gorilla_bits(ps).subrange(0, 0) =~= Seq::<bool>::empty());
    } else {
        let q = ps.drop_last();
        lemma_gorilla_prefix(q, j);
        assert(q.take(j) =~= ps.take(j));
        let g = gorilla_bits(q);
        let gp = gorilla_bits(ps.take(j));
        assert(ps.len() >= 2);
        assert(gorilla_bits(ps) == g + step_bits(state_after(q), ps.last()));
        assert(gorilla_bits(ps).subrange(0, gp.len() as int) =~= g.subrange(0, gp.len() as int));
    }
}

pub proof fn lemma_gorilla_step(ps: Seq<(u64, u64)>, i: int)
    requires
        1 <= i < ps.len(),
    ensures
        gorilla_bits(ps.take(i + 1)) == gorilla_bits(ps.take(i)) + step_bits(
            state_after(ps.take(i)),
            ps[i],
        ),
        state_after(ps.take(i + 1)) == next_state(state_after(ps.take(i)), ps[i]),
{
    assert(ps.take(i + 1).drop_last() =~= ps.take(i));
}

proof fn lemma_prefix_of_prefix(s: Seq<bool>, t: Seq<bool>, p: Seq<bool>, pos: int)
    requires
        s.len() >= t.len(),
        s.subrange(0, t.len() as int) =~= t,
        is_prefix_at(t, pos, p),
    ensures
        is_prefix_at(s, pos, p),
{
    assert(s.subrange(pos, pos + p.len()) =~= t.subrange(pos, pos + p.len()));
}

/// Where the decoder stands after `i` of the points `qs`, `out` holding those decoded.
pub open spec fn decoded_upto(
    dec: GorillaDecoder,
    qs: Seq<(u64, u64)>,
    i: int,
    out: Seq<(u64, u64)>,
) -> bool {
    &&& out == qs.take(i)
    &&& i == 0 ==> dec.first_pending() && dec.first_timestamp() == qs[0].0 && dec.position()
        == 64
    &&& i > 0 ==> !dec.first_pending() && dec.state() == state_after(qs.take(i))
        && dec.position() == gorilla_bits(qs.take(i)).len()
}

/// A block of `(timestamp, value bits)` points of one field.
pub struct TimeSeriesBlock {
    points: Vec<(u64, u64)>,
}

impl View for TimeSeriesBlock {
    type V = Seq<(u64, u64)>;

    closed spec fn view(&self) -> Seq<(u64, u64)> {
        self.points@
    }
}

impl TimeSeriesBlock {
    pub fn new() -> (r: Self)
        ensures
            r@ == Seq::<(u64, u64)>::empty(),
    {
        TimeSeriesBlock { points: Vec::new() }
    }

    pub fn add_point(&mut self, timestamp: u64, value: u64)
        ensures
            final(self)@ == old(self)@.push((timestamp, value)),
    {
        self.points.push((timestamp, value));
    }

    pub fn add_points(&mut self, points: &[(u64, u64)])
        ensures
            final(self)@ == old(self)@ + points@,
    {
        let mut i: usize = 0;
        while i < points.len()
            invariant
                i <= points.len(),
                self@ == old(self)@ + points@.take(i as int),
            decreases points.len() - i,
        {
            self.points.push(points[i]);
            assert(points@.take(i as int + 1) =~= points@.take(i as int).push(points@[i as int]));
            i = i + 1;
        }
        assert(points@.take(points.len() as int) =~= points@);
    }

    pub fn get_points(&self) -> (r: &Vec<(u64, u64)>)
        ensures
            r@ == self@,
    {
        &self.points
    }

    pub fn len(&self) -> (r: usize)
        ensures
            r == self@.len(),
    {
        self.points.len()
    }

    pub fn is_empty(&self) -> (r: bool)
        ensures
            r == (self@.len() == 0),
    {
        self.points.len() == 0
    }

    /// Compresses the points, sorted by timestamp; points with equal timestamps keep their
    /// order and all stay.
    pub fn compress(&self) -> (r: Vec<u8>)
        requires
            self@.len() <= u32::MAX,
        ensures
            is_block_of(r@, sort_by_ts(self@)),
    {
        let sorted = stable_sort_by_ts(&self.points);
        proof {
            crate::points::lemma_sort_by_ts_len(self@);
        }
        let mut buf = u32_to_le_bytes(sorted.len() as u32);
        let mut encoder = GorillaEncoder::new(Vec::new());
        let mut i: usize = 0;
        while i < sorted.len()
            invariant
                i <= sorted.len(),
                encoder.wf(),
                encoder.start() == stream_bits(Seq::<u8>::empty()),
                encoder.points() == sorted@.take(i as int),
            decreases sorted.len() - i,
        {
            let (ts, v) = sorted[i];
            encoder.encode(ts, v);
            assert(sorted@.take(i as int + 1) =~= sorted@.take(i as int).push((ts, v)));
            i = i + 1;
        }
        assert(sorted@.take(sorted.len() as int) =~= sorted@);
        let mut enc = encoder.close();
        let ghost e = enc@;
        assert(stream_bits(Seq::<u8>::empty()) =~= Seq::<bool>::empty());
        buf.append(&mut enc);
        assert(buf@.take(4) =~= spec_u32_to_le_bytes(sorted.len() as u32));
        assert(buf@.skip(4) =~= e);
        buf
    }

    /// Reads a compressed block back: exactly the count of points that its header gives, or
    /// an error where the stream holds fewer. A block that `compress` made gives back its
    /// points.
    pub fn decompress(data: &[u8]) -> (r: Result<Self, Error>)
        ensures
            data@.len() < 4 ==> r matches Err(Error::DataError(_)),
            data@.len() >= 4 && spec_u32_from_le_bytes(data@.take(4)) == 0 ==> (r matches Ok(b)
                && b@.len() == 0),
            r matches Ok(b) ==> (data@.len() >= 4 && b@.len() == spec_u32_from_le_bytes(
                data@.take(4),
            )),
            forall|ps: Seq<(u64, u64)>|
                dods_ok(ps) && #[trigger] is_block_of(data@, ps) ==> (r matches Ok(b) && b@ == ps),
    {
        if data.len() < 4 {
            return Err(Error::DataError("data too short to hold a block length".to_string()));
        }
        let head = slice_subrange(data, 0, 4);
        let count = u32_from_le_bytes(head);
        let body = slice_subrange(data, 4, data.len());
        proof {
            vstd::bytes::lemma_auto_spec_u32_to_from_le_bytes();
            assert(head@ =~= data@.take(4));
            assert(body@ =~= data@.skip(4));
            assert forall|ps: Seq<(u64, u64)>| #[trigger] is_block_of(data@, ps) implies count
                == ps.len() by {}
        }
        let mut out: Vec<(u64, u64)> = Vec::new();
        if count == 0 {
            proof {
                assert forall|ps: Seq<(u64, u64)>|
                    dods_ok(ps) && #[trigger] is_block_of(data@, ps) implies out@ == ps by {
                    assert(ps =~= Seq::<(u64, u64)>::empty());
                }
            }
            return Ok(TimeSeriesBlock { points: out });
        }
        let ghost bits = stream_bits(body@);
        proof {
            assert forall|ps: Seq<(u64, u64)>|
                dods_ok(ps) && #[trigger] is_block_of(data@, ps) implies is_prefix_at(
                bits,
                0,
                gorilla_bits(ps.take(1)),
            ) by {
                let pad = choose|pad: nat|
                    pad < 8 && stream_bits(data@.skip(4)) == gorilla_bits(ps) + zero_bits(pad);
                lemma_gorilla_prefix(ps, 1);
                lemma_prefix_of_prefix(
                    gorilla_bits(ps) + zero_bits(pad),
                    gorilla_bits(ps),
                    gorilla_bits(ps.take(1)),
                    0,
                );
            }
        }
        let mut dec = match GorillaDecoder::new(body) {
            Ok(d) => d,
            Err(e) => {
                proof {
                    assert forall|ps: Seq<(u64, u64)>|
                        dods_ok(ps) && #[trigger] is_block_of(data@, ps) implies false by {
                        assert(is_prefix_at(bits, 0, gorilla_bits(ps.take(1))));
                        assert(ps.take(1).len() == 1);
                    }
                }
                return Err(e);
            },
        };
        proof {
            assert forall|ps: Seq<(u64, u64)>|
                dods_ok(ps) && #[trigger] is_block_of(data@, ps) implies decoded_upto(
                dec,
                ps,
                0,
                out@,
            ) by {
                let g1 = gorilla_bits(ps.take(1));
                assert(g1 == crate::bitio::low_bits(ps[0].0, 64) + crate::bitio::low_bits(
                    ps[0].1,
                    64,
                ));
                assert(is_prefix_at(bits, 0, g1));
                assert(bits.subrange(0, 64) =~= g1.subrange(0, 64));
                assert(g1.subrange(0, 64) =~= crate::bitio::low_bits(ps[0].0, 64));
                assert(is_prefix_at(bits, 0, crate::bitio::low_bits(ps[0].0, 64)));
                assert(out@ =~= ps.take(0));
            }
        }
        let mut i: u32 = 0;
        while i < count
            invariant
                i <= count,
                count > 0,
                data@.len() >= 4,
                count == spec_u32_from_le_bytes(data@.take(4)),
                out@.len() == i,
                dec.wf(),
                dec.bits() == bits,
                bits == stream_bits(data@.skip(4)),
                forall|ps: Seq<(u64, u64)>| #[trigger] is_block_of(data@, ps) ==> count == ps.len(),
                forall|ps: Seq<(u64, u64)>|
                    dods_ok(ps) && #[trigger] is_block_of(data@, ps) ==> decoded_upto(
                        dec,
                        ps,
                        i as int,
                        out@,
                    ),
            decreases count - i,
        {
            let ghost d0 = dec;
            let ghost o0 = out@;
            proof {
                assert forall|ps: Seq<(u64, u64)>|
                    dods_ok(ps) && #[trigger] is_block_of(data@, ps) implies {
                    &&& i == 0 ==> is_prefix_at(
                        bits,
                        64,
                        crate::bitio::low_bits(ps[0].1, 64),
                    )
                    &&& i > 0 ==> is_prefix_at(
                        bits,
                        d0.position() as int,
                        step_bits(d0.state(), (ps[i as int].0, ps[i as int].1)),
                    ) && dod_ok_at(ps, i as int)
                } by {
                    let pad = choose|pad: nat|
                        pad < 8 && stream_bits(data@.skip(4)) == gorilla_bits(ps) + zero_bits(
                            pad,
                        );
                    lemma_gorilla_prefix(ps, i as int + 1);
                    lemma_prefix_of_prefix(
                        gorilla_bits(ps) + zero_bits(pad),
                        gorilla_bits(ps),
                        gorilla_bits(ps.take(i as int + 1)),
                        0,
                    );
                    let g = gorilla_bits(ps.take(i as int + 1));
                    if i == 0 {
                        assert(g == crate::bitio::low_bits(ps[0].0, 64) + crate::bitio::low_bits(
                            ps[0].1,
                            64,
                        ));
                        assert(bits.subrange(64, 128) =~= g.subrange(64, 128));
                        assert(g.subrange(64, 128) =~= crate::bitio::low_bits(ps[0].1, 64));
                    } else {
                        lemma_gorilla_step(ps, i as int);
                        let a = gorilla_bits(ps.take(i as int));
                        let b = step_bits(state_after(ps.take(i as int)), ps[i as int]);
                        assert(bits.subrange(a.len() as int, (a.len() + b.len()) as int) =~= g.subrange(
                            a.len() as int,
                            (a.len() + b.len()) as int,
                        ));
                        assert(g.subrange(a.len() as int, (a.len() + b.len()) as int) =~= b);
                        assert(ps[i as int] == (ps[i as int].0, ps[i as int].1));
                    }
                }
            }
            let res = dec.decode();
            let p = match res {
                Ok(Some(p)) => p,
                Ok(None) => {
                    proof {
                        assert forall|ps: Seq<(u64, u64)>|
                            dods_ok(ps) && #[trigger] is_block_of(data@, ps) implies false by {
                            if i == 0 {
                                assert(is_prefix_at(
                                    bits,
                                    64,
                                    crate::bitio::low_bits(ps[0].1, 64),
                                ));
                            } else {
                                assert(is_prefix_at(
                                    bits,
                                    d0.position() as int,
                                    step_bits(d0.state(), (ps[i as int].0, ps[i as int].1)),
                                ));
                            }
                        }
                    }
                    return Err(
                        Error::DataError("block holds fewer points than its count".to_string()),
                    );
                },
                Err(e) => {
                    proof {
                        assert forall|ps: Seq<(u64, u64)>|
                            dods_ok(ps) && #[trigger] is_block_of(data@, ps) implies false by {
                            if i == 0 {
                                assert(is_prefix_at(
                                    bits,
                                    64,
                                    crate::bitio::low_bits(ps[0].1, 64),
                                ));
                            } else {
                                assert(is_prefix_at(
                                    bits,
                                    d0.position() as int,
                                    step_bits(d0.state(), (ps[i as int].0, ps[i as int].1)),
                                ));
                            }
                        }
                    }
                    return Err(e);
                },
            };
            out.push(p);
            proof {
                assert forall|ps: Seq<(u64, u64)>|
                    dods_ok(ps) && #[trigger] is_block_of(data@, ps) implies decoded_upto(
                    dec,
                    ps,
                    i as int + 1,
                    out@,
                ) by {
                    if i == 0 {
                        assert(is_prefix_at(bits, 64, crate::bitio::low_bits(ps[0].1, 64)));
                        assert(out@ =~= ps.take(1));
                        assert(ps.take(1).len() == 1);
                        assert(gorilla_bits(ps.take(1)).len() == 128);
                        assert(state_after(ps.take(1)) == first_state(ps[0]));
                    } else {
                        assert(is_prefix_at(
                            bits,
                            d0.position() as int,
                            step_bits(d0.state(), (ps[i as int].0, ps[i as int].1)),
                        ));
                        lemma_gorilla_step(ps, i as int);
                        assert(out@ =~= ps.take(i as int + 1));
                    }
                }
            }
            i = i + 1;
        }
        proof {
            assert forall|ps: Seq<(u64, u64)>|
                dods_ok(ps) && #[trigger] is_block_of(data@, ps) implies out@ == ps by {
                assert(ps.take(ps.len() as int) =~= ps);
            }
        }
        Ok(TimeSeriesBlock { points: out })
    }

    /// The points whose timestamp lies in `[start, end]`, in their order.
    pub fn query(&self, start: u64, end: u64) -> (r: Vec<(u64, u64)>)
        ensures
            r@ == in_range(self@, start, end),
    {
        filter_range(&self.points, start, end)
    }
}

/// The delta-of-delta of the `i`-th point of `ps` fits the stream.
pub open spec fn dod_ok_at(ps: Seq<(u64, u64)>, i: int) -> bool {
    crate::gorilla::dod_ok(dod_of(state_after(ps.take(i)), ps[i].0))
}

} // verus!
