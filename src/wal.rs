use vstd::prelude::*;
use crate::endian::{
    be32, be64, bytes_at, lemma_bytes_split, push_be32, push_be64, read_be32, read_be64,
};
use vstd::utf8::{decode_utf8, encode_utf8, valid_utf8};
use vstd::slice::slice_subrange;
use crate::error::Error;
use crate::types::DataPoint;

verus! {

broadcast use {
    vstd::utf8::encode_utf8_valid_utf8,
    vstd::utf8::encode_utf8_decode_utf8,
    crate::endian::lemma_be32_len,
    crate::endian::lemma_be64_len,
};

/// What a point holds, as plain values: its timestamp, its tag pairs and its field pairs.
pub type PointView = (u64, Seq<(Seq<char>, Seq<char>)>, Seq<(Seq<char>, u64)>);

pub open spec fn view_of(p: DataPoint) -> PointView {
    (
        p.timestamp,
        p.tags@.map_values(|t: (String, String)| (t.0@, t.1@)),
        p.fields@.map_values(|f: (String, u64)| (f.0@, f.1)),
    )
}

/// A string with its byte length in front.
pub open spec fn text_bytes(s: Seq<char>) -> Seq<u8> {
    be32(encode_utf8(s).len() as u32) + encode_utf8(s)
}

pub open spec fn tags_bytes(s: Seq<(Seq<char>, Seq<char>)>) -> Seq<u8>
    decreases s.len(),
{
    if s.len() == 0 {
        seq![]
    } else {
        tags_bytes(s.drop_last()) + text_bytes(s.last().0) + text_bytes(s.last().1)
    }
}

pub open spec fn fields_bytes(s: Seq<(Seq<char>, u64)>) -> Seq<u8>
    decreases s.len(),
{
    if s.len() == 0 {
        seq![]
    } else {
        fields_bytes(s.drop_last()) + text_bytes(s.last().0) + be64(s.last().1)
    }
}

/// One log record: timestamp, tag count, tags, field count, fields; integers big-endian.
pub open spec fn record_bytes(v: PointView) -> Seq<u8> {
    be64(v.0) + be32(v.1.len() as u32) + tags_bytes(v.1) + be32(v.2.len() as u32) + fields_bytes(
        v.2,
    )
}

/// Every count and length of the point fits its 32-bit slot.
pub open spec fn fits(v: PointView) -> bool {
    &&& v.1.len() <= u32::MAX
    &&& v.2.len() <= u32::MAX
    &&& forall|i: int|
        0 <= i < v.1.len() ==> encode_utf8(#[trigger] v.1[i].0).len() <= u32::MAX && encode_utf8(
            v.1[i].1,
        ).len() <= u32::MAX
    &&& forall|i: int| 0 <= i < v.2.len() ==> encode_utf8(#[trigger] v.2[i].0).len() <= u32::MAX
}

/// The records of `vs`, one after another.
pub open spec fn log_bytes(vs: Seq<PointView>) -> Seq<u8>
    decreases vs.len(),
{
    if vs.len() == 0 {
        seq![]
    } else {
        log_bytes(vs.drop_last()) + record_bytes(vs.last())
    }
}

/// Appends a string with its byte length in front; fails where the length does not fit.
fn push_text(out: &mut Vec<u8>, s: &String) -> (ok: bool)
    ensures
        ok == (encode_utf8(s@).len() <= u32::MAX),
        ok ==> final(out)@ == old(out)@ + text_bytes(s@),
        !ok ==> final(out)@ == old(out)@,
{
    let b = s.as_str().as_bytes();
    if b.len() > u32::MAX as usize {
        return false;
    }
    push_be32(out, b.len() as u32);
    let mut i: usize = 0;
    while i < b.len()
        invariant
            i <= b@.len(),
            b@ == encode_utf8(s@),
            b@.len() <= u32::MAX,
            out@ == old(out)@ + be32(b@.len() as u32) + b@.take(i as int),
        decreases b.len() - i,
    {
        out.push(b[i]);
        assert(b@.take(i as int + 1) =~= b@.take(i as int).push(b@[i as int]));
        i = i + 1;
    }
    assert(b@.take(b@.len() as int) =~= b@);
    assert(out@ =~= old(out)@ + text_bytes(s@));
    true
}

/// The record that the log holds for one point. Fails where a count or a length does not fit
/// its 32-bit slot.
pub fn encode_record(point: &DataPoint, out: &mut Vec<u8>) -> (r: Result<(), Error>)
    ensures
        r is Ok <==> fits(view_of(*point)),
        r is Ok ==> final(out)@ == old(out)@ + record_bytes(view_of(*point)),
{
    let ghost v = view_of(*point);
    if point.tags.len() > u32::MAX as usize || point.fields.len() > u32::MAX as usize {
        return Err(Error::DataError("too many tags or fields for one record".to_string()));
    }
    push_be64(out, point.timestamp);
    push_be32(out, point.tags.len() as u32);
    let ghost head = out@;
    let mut i: usize = 0;
    while i < point.tags.len()
        invariant
            i <= point.tags@.len(),
            v == view_of(*point),
            point.tags@.len() <= u32::MAX,
            point.fields@.len() <= u32::MAX,
            forall|j: int|
                0 <= j < i ==> encode_utf8(#[trigger] v.1[j].0).len() <= u32::MAX && encode_utf8(
                    v.1[j].1,
                ).len() <= u32::MAX,
            out@ == head + tags_bytes(v.1.take(i as int)),
        decreases point.tags.len() - i,
    {
        assert(v.1.take(i as int + 1).drop_last() =~= v.1.take(i as int));
        assert(v.1[i as int] == (point.tags@[i as int].0@, point.tags@[i as int].1@));
        if !push_text(out, &point.tags[i].0) {
            proof {
                assert(encode_utf8(v.1[i as int].0).len() > u32::MAX);
                assert(!fits(v));
            }
            return Err(Error::DataError("tag key too long for one record".to_string()));
        }
        if !push_text(out, &point.tags[i].1) {
            proof {
                assert(encode_utf8(v.1[i as int].1).len() > u32::MAX);
                assert(!fits(v));
            }
            return Err(Error::DataError("tag value too long for one record".to_string()));
        }
        proof {
            assert forall|j: int| 0 <= j < i + 1 implies encode_utf8(#[trigger] v.1[j].0).len()
                <= u32::MAX && encode_utf8(v.1[j].1).len() <= u32::MAX by {
                if j == i {
                    assert(v.1[j] == (point.tags@[j].0@, point.tags@[j].1@));
                }
            }
        }
        i = i + 1;
    }
    assert(v.1.take(v.1.len() as int) =~= v.1);
    push_be32(out, point.fields.len() as u32);
    let ghost mid = out@;
    let mut i: usize = 0;
    while i < point.fields.len()
        invariant
            i <= point.fields@.len(),
            v == view_of(*point),
            fits((v.0, v.1, Seq::empty())),
            forall|j: int| 0 <= j < i ==> encode_utf8(#[trigger] v.2[j].0).len() <= u32::MAX,
            out@ == mid + fields_bytes(v.2.take(i as int)),
        decreases point.fields.len() - i,
    {
        assert(v.2.take(i as int + 1).drop_last() =~= v.2.take(i as int));
        assert(v.2[i as int] == (point.fields@[i as int].0@, point.fields@[i as int].1));
        if !push_text(out, &point.fields[i].0) {
            proof {
                assert(encode_utf8(v.2[i as int].0).len() > u32::MAX);
                assert(!fits(v));
            }
            return Err(Error::DataError("field name too long for one record".to_string()));
        }
        proof {
            assert forall|j: int| 0 <= j < i + 1 implies encode_utf8(#[trigger] v.2[j].0).len()
                <= u32::MAX by {
                if j == i {
                    assert(v.2[j] == (point.fields@[j].0@, point.fields@[j].1));
                }
            }
        }
        push_be64(out, point.fields[i].1);
        i = i + 1;
    }
    assert(v.2.take(v.2.len() as int) =~= v.2);
    assert(out@ =~= old(out)@ + record_bytes(v));
    Ok(())
}

/// The records for several points, one after another, as a batch append writes them.
pub fn encode_records(points: &Vec<DataPoint>) -> (r: Result<Vec<u8>, Error>)
    ensures
        r is Ok <==> forall|i: int| 0 <= i < points@.len() ==> fits(view_of(#[trigger] points@[i])),
        r matches Ok(b) ==> b@ == log_bytes(points@.map_values(|p: DataPoint| view_of(p))),
{
    let ghost vs = points@.map_values(|p: DataPoint| view_of(p));
    let mut out: Vec<u8> = Vec::new();
    let mut i: usize = 0;
    while i < points.len()
        invariant
            i <= points@.len(),
            vs == points@.map_values(|p: DataPoint| view_of(p)),
            forall|j: int| 0 <= j < i ==> fits(view_of(#[trigger] points@[j])),
            out@ == log_bytes(vs.take(i as int)),
        decreases points.len() - i,
    {
        assert(vs.take(i as int + 1).drop_last() =~= vs.take(i as int));
        match encode_record(&points[i], &mut out) {
            Ok(()) => {},
            Err(e) => {
                return Err(e);
            },
        }
        i = i + 1;
    }
    assert(vs.take(vs.len() as int) =~= vs);
    Ok(out)
}

/// Relies on `String::from_utf8`: it accepts exactly the valid UTF-8 byte sequences, and the
/// string it returns is made of those bytes.
#[verifier::external_body]
pub(crate) fn text_from_utf8(b: &[u8]) -> (r: Option<String>)
    ensures
        r is Some <==> valid_utf8(b@),
        r matches Some(s) ==> s@ == decode_utf8(b@),
{
    String::from_utf8(b.to_vec()).ok()
}

/// A record as the log holds it, before its strings are read as text: timestamp, tag pairs
/// and field pairs, every string as its raw bytes.
pub type RawRecord = (u64, Seq<(Seq<u8>, Seq<u8>)>, Seq<(Seq<u8>, u64)>);

/// A byte string with its length in front as a big-endian `u32`.
pub open spec fn raw_text(b: Seq<u8>) -> Seq<u8> {
    be32(b.len() as u32) + b
}

pub open spec fn raw_tags_bytes(t: Seq<(Seq<u8>, Seq<u8>)>) -> Seq<u8>
    decreases t.len(),
{
    if t.len() == 0 {
        seq![]
    } else {
        raw_tags_bytes(t.drop_last()) + raw_text(t.last().0) + raw_text(t.last().1)
    }
}

pub open spec fn raw_fields_bytes(f: Seq<(Seq<u8>, u64)>) -> Seq<u8>
    decreases f.len(),
{
    if f.len() == 0 {
        seq![]
    } else {
        raw_fields_bytes(f.drop_last()) + raw_text(f.last().0) + be64(f.last().1)
    }
}

/// The bytes of one record: timestamp, tag count, tags, field count, fields.
pub open spec fn raw_record_bytes(q: RawRecord) -> Seq<u8> {
    be64(q.0) + be32(q.1.len() as u32) + raw_tags_bytes(q.1) + be32(q.2.len() as u32)
        + raw_fields_bytes(q.2)
}

/// Every count and length of the record fits its 32-bit slot.
pub open spec fn raw_fits(q: RawRecord) -> bool {
    &&& q.1.len() <= u32::MAX
    &&& q.2.len() <= u32::MAX
    &&& forall|i: int|
        0 <= i < q.1.len() ==> (#[trigger] q.1[i]).0.len() <= u32::MAX && q.1[i].1.len()
            <= u32::MAX
    &&& forall|i: int| 0 <= i < q.2.len() ==> (#[trigger] q.2[i]).0.len() <= u32::MAX
}

/// The tags that read as text: a pair whose key or value is not UTF-8 is left out.
pub open spec fn decode_tags(t: Seq<(Seq<u8>, Seq<u8>)>) -> Seq<(Seq<char>, Seq<char>)>
    decreases t.len(),
{
    if t.len() == 0 {
        seq![]
    } else {
        let rest = decode_tags(t.drop_last());
        if valid_utf8(t.last().0) && valid_utf8(t.last().1) {
            rest.push((decode_utf8(t.last().0), decode_utf8(t.last().1)))
        } else {
            rest
        }
    }
}

/// The fields whose name reads as text: a field whose name is not UTF-8 is left out.
pub open spec fn decode_fields(f: Seq<(Seq<u8>, u64)>) -> Seq<(Seq<char>, u64)>
    decreases f.len(),
{
    if f.len() == 0 {
        seq![]
    } else {
        let rest = decode_fields(f.drop_last());
        if valid_utf8(f.last().0) {
            rest.push((decode_utf8(f.last().0), f.last().1))
        } else {
            rest
        }
    }
}

/// The point that a record gives back.
pub open spec fn decode_raw(q: RawRecord) -> PointView {
    (q.0, decode_tags(q.1), decode_fields(q.2))
}

/// The points that records give back.
pub open spec fn decode_raws(qs: Seq<RawRecord>) -> Seq<PointView> {
    Seq::new(qs.len(), |i: int| decode_raw(qs[i]))
}

pub open spec fn raw_log_bytes(qs: Seq<RawRecord>) -> Seq<u8>
    decreases qs.len(),
{
    if qs.len() == 0 {
        seq![]
    } else {
        raw_log_bytes(qs.drop_last()) + raw_record_bytes(qs.last())
    }
}

/// The bytes that `s` holds from `pos` on agree with `p`, as far as `s` goes.
pub open spec fn agrees(s: Seq<u8>, pos: int, p: Seq<u8>) -> bool {
    &&& 0 <= pos
    &&& forall|i: int| 0 <= i < p.len() && pos + i < s.len() ==> s[pos + i] == #[trigger] p[i]
}

/// `t` is a proper prefix of some record: what a crash leaves of a record being written.
pub open spec fn torn(t: Seq<u8>) -> bool {
    exists|q: RawRecord|
        raw_fits(q) && t.len() < raw_record_bytes(q).len() && #[trigger] agrees(
            t,
            0,
            raw_record_bytes(q),
        )
}

/// `data` is the log of the records `qs`, possibly followed by a torn record.
pub open spec fn log_with_tail(data: Seq<u8>, qs: Seq<RawRecord>) -> bool {
    &&& forall|i: int| 0 <= i < qs.len() ==> raw_fits(#[trigger] qs[i])
    &&& raw_log_bytes(qs).len() <= data.len()
    &&& data.subrange(0, raw_log_bytes(qs).len() as int) == raw_log_bytes(qs)
    &&& (data.len() == raw_log_bytes(qs).len() || torn(
        data.subrange(raw_log_bytes(qs).len() as int, data.len() as int),
    ))
}

proof fn lemma_agrees_split(s: Seq<u8>, pos: int, a: Seq<u8>, b: Seq<u8>)
    requires
        agrees(s, pos, a + b),
    ensures
        agrees(s, pos, a),
        agrees(s, pos + a.len(), b),
{
    assert forall|i: int| 0 <= i < a.len() && pos + i < s.len() implies s[pos + i]
        == #[trigger] a[i] by {
        assert((a + b)[i] == a[i]);
    }
    assert forall|i: int| 0 <= i < b.len() && pos + a.len() + i < s.len() implies s[pos + a.len()
        + i] == #[trigger] b[i] by {
        assert((a + b)[a.len() + i] == b[i]);
    }
}

proof fn lemma_agrees_full(s: Seq<u8>, pos: int, p: Seq<u8>)
    requires
        agrees(s, pos, p),
        pos + p.len() <= s.len(),
    ensures
        bytes_at(s, pos, p),
{
    assert(s.subrange(pos, pos + p.len()) =~= p) by {
        assert forall|i: int| 0 <= i < p.len() implies s.subrange(pos, pos + p.len())[i]
            == p[i] by {
            assert(p[i] == p[i]);
        }
    }
}

proof fn lemma_agrees_rest(s: Seq<u8>, at: int, whole: Seq<u8>, head: Seq<u8>, e: Seq<u8>)
    requires
        (head.len() + e.len()) as int <= whole.len(),
        whole.subrange(0, (head.len() + e.len()) as int) == head + e,
        agrees(s, at, whole.subrange(head.len() as int, whole.len() as int)),
    ensures
        agrees(s, at, e),
        agrees(s, at + e.len(), whole.subrange((head.len() + e.len()) as int, whole.len() as int)),
{
    let rest = whole.subrange(head.len() as int, whole.len() as int);
    let rest2 = whole.subrange((head.len() + e.len()) as int, whole.len() as int);
    assert(rest.subrange(0, e.len() as int) =~= whole.subrange(
        0,
        (head.len() + e.len()) as int,
    ).subrange(head.len() as int, (head.len() + e.len()) as int));
    assert((head + e).subrange(head.len() as int, (head.len() + e.len()) as int) =~= e);
    assert(rest =~= e + rest2);
    lemma_agrees_split(s, at, e, rest2);
}

proof fn lemma_raw_record_split(s: Seq<u8>, pos: int, q: RawRecord)
    requires
        agrees(s, pos, raw_record_bytes(q)),
    ensures
        agrees(s, pos, be64(q.0)),
        agrees(s, pos + 8, be32(q.1.len() as u32)),
        agrees(
            s,
            pos + 12,
            raw_tags_bytes(q.1).subrange(
                raw_tags_bytes(q.1.take(0)).len() as int,
                raw_tags_bytes(q.1).len() as int,
            ),
        ),
        agrees(s, pos + 12 + raw_tags_bytes(q.1).len(), be32(q.2.len() as u32)),
        agrees(
            s,
            pos + 16 + raw_tags_bytes(q.1).len(),
            raw_fields_bytes(q.2).subrange(
                raw_fields_bytes(q.2.take(0)).len() as int,
                raw_fields_bytes(q.2).len() as int,
            ),
        ),
        agrees(s, pos + 16 + raw_tags_bytes(q.1).len(), raw_fields_bytes(q.2)),
        raw_record_bytes(q).len() == 16 + raw_tags_bytes(q.1).len() + raw_fields_bytes(q.2).len(),
{
    let a = be64(q.0);
    let b = be32(q.1.len() as u32);
    let c = raw_tags_bytes(q.1);
    let d = be32(q.2.len() as u32);
    let e = raw_fields_bytes(q.2);
    assert(raw_record_bytes(q) =~= a + b + c + d + e);
    lemma_agrees_split(s, pos, a + b + c + d, e);
    lemma_agrees_split(s, pos, a + b + c, d);
    lemma_agrees_split(s, pos, a + b, c);
    lemma_agrees_split(s, pos, a, b);
    assert(q.1.take(0) =~= Seq::<(Seq<u8>, Seq<u8>)>::empty());
    assert(q.2.take(0) =~= Seq::<(Seq<u8>, u64)>::empty());
    assert(c.subrange(0, c.len() as int) =~= c);
    assert(e.subrange(0, e.len() as int) =~= e);
}

proof fn lemma_raw_tags_prefix(t: Seq<(Seq<u8>, Seq<u8>)>, j: int)
    requires
        0 <= j <= t.len(),
    ensures
        raw_tags_bytes(t.take(j)).len() <= raw_tags_bytes(t).len(),
        raw_tags_bytes(t).subrange(0, raw_tags_bytes(t.take(j)).len() as int) == raw_tags_bytes(
            t.take(j),
        ),
    decreases t.len(),
{
    if j == t.len() {
        assert(t.take(j) =~= t);
        assert(raw_tags_bytes(t).subrange(0, raw_tags_bytes(t).len() as int) =~= raw_tags_bytes(
            t,
        ));
    } else {
        let q = t.drop_last();
        lemma_raw_tags_prefix(q, j);
        assert(q.take(j) =~= t.take(j));
        assert(raw_tags_bytes(t).subrange(0, raw_tags_bytes(t.take(j)).len() as int)
            =~= raw_tags_bytes(q).subrange(0, raw_tags_bytes(t.take(j)).len() as int));
    }
}

proof fn lemma_raw_fields_prefix(t: Seq<(Seq<u8>, u64)>, j: int)
    requires
        0 <= j <= t.len(),
    ensures
        raw_fields_bytes(t.take(j)).len() <= raw_fields_bytes(t).len(),
        raw_fields_bytes(t).subrange(0, raw_fields_bytes(t.take(j)).len() as int)
            == raw_fields_bytes(t.take(j)),
    decreases t.len(),
{
    if j == t.len() {
        assert(t.take(j) =~= t);
        assert(raw_fields_bytes(t).subrange(0, raw_fields_bytes(t).len() as int)
            =~= raw_fields_bytes(t));
    } else {
        let q = t.drop_last();
        lemma_raw_fields_prefix(q, j);
        assert(q.take(j) =~= t.take(j));
        assert(raw_fields_bytes(t).subrange(0, raw_fields_bytes(t.take(j)).len() as int)
            =~= raw_fields_bytes(q).subrange(0, raw_fields_bytes(t.take(j)).len() as int));
    }
}

proof fn lemma_raw_tags_advance(s: Seq<u8>, at: int, t: Seq<(Seq<u8>, Seq<u8>)>, i: int)
    requires
        0 <= i < t.len(),
        agrees(
            s,
            at,
            raw_tags_bytes(t).subrange(
                raw_tags_bytes(t.take(i)).len() as int,
                raw_tags_bytes(t).len() as int,
            ),
        ),
    ensures
        raw_tags_bytes(t.take(i + 1)).len() == raw_tags_bytes(t.take(i)).len() + raw_text(
            t[i].0,
        ).len() + raw_text(t[i].1).len(),
        raw_tags_bytes(t.take(i + 1)).len() <= raw_tags_bytes(t).len(),
        agrees(s, at, raw_text(t[i].0)),
        agrees(s, at + raw_text(t[i].0).len(), raw_text(t[i].1)),
        agrees(
            s,
            at + raw_text(t[i].0).len() + raw_text(t[i].1).len(),
            raw_tags_bytes(t).subrange(
                raw_tags_bytes(t.take(i + 1)).len() as int,
                raw_tags_bytes(t).len() as int,
            ),
        ),
{
    let e = raw_text(t[i].0) + raw_text(t[i].1);
    assert(t.take(i + 1).drop_last() =~= t.take(i));
    let a = raw_tags_bytes(t.take(i));
    assert(raw_tags_bytes(t.take(i + 1)) =~= a + e);
    lemma_raw_tags_prefix(t, i + 1);
    lemma_agrees_rest(s, at, raw_tags_bytes(t), a, e);
    lemma_agrees_split(s, at, raw_text(t[i].0), raw_text(t[i].1));
}

proof fn lemma_raw_fields_advance(s: Seq<u8>, at: int, t: Seq<(Seq<u8>, u64)>, i: int)
    requires
        0 <= i < t.len(),
        agrees(
            s,
            at,
            raw_fields_bytes(t).subrange(
                raw_fields_bytes(t.take(i)).len() as int,
                raw_fields_bytes(t).len() as int,
            ),
        ),
    ensures
        raw_fields_bytes(t.take(i + 1)).len() == raw_fields_bytes(t.take(i)).len() + raw_text(
            t[i].0,
        ).len() + 8,
        raw_fields_bytes(t.take(i + 1)).len() <= raw_fields_bytes(t).len(),
        agrees(s, at, raw_text(t[i].0)),
        agrees(s, at + raw_text(t[i].0).len(), be64(t[i].1)),
        agrees(
            s,
            at + raw_text(t[i].0).len() + 8,
            raw_fields_bytes(t).subrange(
                raw_fields_bytes(t.take(i + 1)).len() as int,
                raw_fields_bytes(t).len() as int,
            ),
        ),
{
    let e = raw_text(t[i].0) + be64(t[i].1);
    assert(t.take(i + 1).drop_last() =~= t.take(i));
    let a = raw_fields_bytes(t.take(i));
    assert(raw_fields_bytes(t.take(i + 1)) =~= a + e);
    lemma_raw_fields_prefix(t, i + 1);
    lemma_agrees_rest(s, at, raw_fields_bytes(t), a, e);
    lemma_agrees_split(s, at, raw_text(t[i].0), be64(t[i].1));
}

proof fn lemma_be32_read(s: Seq<u8>, pos: int, x: u32, r: Option<u32>)
    requires
        agrees(s, pos, be32(x)),
        r is Some <==> pos + 4 <= s.len(),
        forall|y: u32| #[trigger] bytes_at(s, pos, be32(y)) ==> r == Some(y),
    ensures
        r is Some ==> r == Some(x),
{
    if r is Some {
        lemma_agrees_full(s, pos, be32(x));
    }
}

proof fn lemma_be64_read(s: Seq<u8>, pos: int, x: u64, r: Option<u64>)
    requires
        agrees(s, pos, be64(x)),
        r is Some <==> pos + 8 <= s.len(),
        forall|y: u64| #[trigger] bytes_at(s, pos, be64(y)) ==> r == Some(y),
    ensures
        r is Some ==> r == Some(x),
{
    if r is Some {
        lemma_agrees_full(s, pos, be64(x));
    }
}

/// Reads a byte string with its length in front, as text. `None`: the data ends first;
/// `Some((None, _))`: the bytes are not UTF-8.
fn read_text(data: &[u8], pos: usize) -> (r: Option<(Option<String>, usize)>)
    ensures
        r matches Some((_, next)) ==> pos < next <= data@.len(),
        forall|b: Seq<u8>|
            b.len() <= u32::MAX && #[trigger] agrees(data@, pos as int, raw_text(b)) ==> {
                &&& r is Some <==> pos + raw_text(b).len() <= data@.len()
                &&& r matches Some((t, next)) ==> next == pos + raw_text(b).len() && (t is Some
                    <==> valid_utf8(b)) && (t matches Some(x) ==> x@ == decode_utf8(b))
            },
{
    let n = data.len();
    assert(n == data@.len());
    let lr = read_be32(data, pos);
    let len = match lr {
        Some(n) => n as usize,
        None => {
            return None;
        },
    };
    let start = pos + 4;
    proof {
        assert forall|b: Seq<u8>|
            b.len() <= u32::MAX && #[trigger] agrees(data@, pos as int, raw_text(b)) implies len
            == b.len() && agrees(data@, start as int, b) by {
            lemma_agrees_split(data@, pos as int, be32(b.len() as u32), b);
            lemma_be32_read(data@, pos as int, b.len() as u32, lr);
        }
    }
    if data.len() - start < len {
        return None;
    }
    let bytes = slice_subrange(data, start, start + len);
    let text = text_from_utf8(bytes);
    proof {
        assert forall|b: Seq<u8>|
            b.len() <= u32::MAX && #[trigger] agrees(data@, pos as int, raw_text(b)) implies bytes@
            == b by {
            lemma_agrees_split(data@, pos as int, be32(b.len() as u32), b);
            lemma_agrees_full(data@, start as int, b);
        }
    }
    Some((text, start + len))
}

/// Reads the record at `pos`. Where the data agrees with some record from `pos` on, the
/// result comes exactly when the data holds the whole record, and is its point with the
/// pairs that are not UTF-8 left out.
fn read_record(data: &[u8], pos: usize) -> (r: Option<(DataPoint, usize)>)
    ensures
        r matches Some((_, next)) ==> pos < next <= data@.len(),
        forall|q: RawRecord|
            raw_fits(q) && #[trigger] agrees(data@, pos as int, raw_record_bytes(q)) ==> {
                &&& r is Some <==> pos + raw_record_bytes(q).len() <= data@.len()
                &&& r matches Some((p, next)) ==> view_of(p) == decode_raw(q) && next == pos
                    + raw_record_bytes(q).len()
            },
{
    let n = data.len();
    assert(n == data@.len());
    let tsr = read_be64(data, pos);
    let ts = match tsr {
        Some(t) => t,
        None => {
            proof {
                assert forall|q: RawRecord|
                    raw_fits(q) && #[trigger] agrees(
                        data@,
                        pos as int,
                        raw_record_bytes(q),
                    ) implies pos + raw_record_bytes(q).len() > data@.len() by {
                    lemma_raw_record_split(data@, pos as int, q);
                }
            }
            return None;
        },
    };
    let mut at = pos + 8;
    let tcr = read_be32(data, at);
    let tag_count = match tcr {
        Some(c) => c,
        None => {
            proof {
                assert forall|q: RawRecord|
                    raw_fits(q) && #[trigger] agrees(
                        data@,
                        pos as int,
                        raw_record_bytes(q),
                    ) implies pos + raw_record_bytes(q).len() > data@.len() by {
                    lemma_raw_record_split(data@, pos as int, q);
                }
            }
            return None;
        },
    };
    at = at + 4;
    let mut point = DataPoint::new(ts);
    proof {
        assert forall|q: RawRecord|
            raw_fits(q) && #[trigger] agrees(data@, pos as int, raw_record_bytes(q)) implies {
            &&& ts == q.0
            &&& tag_count == q.1.len()
            &&& at == pos + 12 + raw_tags_bytes(q.1.take(0)).len()
            &&& view_of(point).1 == decode_tags(q.1.take(0))
            &&& agrees(
                data@,
                at as int,
                raw_tags_bytes(q.1).subrange(
                    raw_tags_bytes(q.1.take(0)).len() as int,
                    raw_tags_bytes(q.1).len() as int,
                ),
            )
        } by {
            lemma_raw_record_split(data@, pos as int, q);
            lemma_be64_read(data@, pos as int, q.0, tsr);
            lemma_be32_read(data@, pos + 8, q.1.len() as u32, tcr);
            assert(q.1.take(0) =~= Seq::<(Seq<u8>, Seq<u8>)>::empty());
            assert(view_of(point).1 =~= decode_tags(q.1.take(0)));
        }
    }
    let mut i: u32 = 0;
    while i < tag_count
        invariant
            n == data@.len(),
            pos + 12 <= at <= n,
            i <= tag_count,
            point.timestamp == ts,
            point.fields@.len() == 0,
            forall|q: RawRecord|
                raw_fits(q) && #[trigger] agrees(data@, pos as int, raw_record_bytes(q)) ==> {
                    &&& ts == q.0
                    &&& tag_count == q.1.len()
                    &&& at == pos + 12 + raw_tags_bytes(q.1.take(i as int)).len()
                    &&& view_of(point).1 == decode_tags(q.1.take(i as int))
                    &&& agrees(
                        data@,
                        at as int,
                        raw_tags_bytes(q.1).subrange(
                            raw_tags_bytes(q.1.take(i as int)).len() as int,
                            raw_tags_bytes(q.1).len() as int,
                        ),
                    )
                },
        decreases tag_count - i,
    {
        proof {
            assert forall|q: RawRecord|
                raw_fits(q) && #[trigger] agrees(data@, pos as int, raw_record_bytes(q)) implies {
                &&& agrees(data@, at as int, raw_text(q.1[i as int].0))
                &&& q.1[i as int].0.len() <= u32::MAX
                &&& at + raw_text(q.1[i as int].0).len() + raw_text(q.1[i as int].1).len() <= pos
                    + raw_record_bytes(q).len()
            } by {
                lemma_raw_tags_advance(data@, at as int, q.1, i as int);
                lemma_raw_record_split(data@, pos as int, q);
            }
        }
        let kr = read_text(data, at);
        let (key, after_key) = match kr {
            Some(k) => k,
            None => {
                return None;
            },
        };
        proof {
            assert forall|q: RawRecord|
                raw_fits(q) && #[trigger] agrees(data@, pos as int, raw_record_bytes(q)) implies {
                &&& agrees(data@, after_key as int, raw_text(q.1[i as int].1))
                &&& q.1[i as int].1.len() <= u32::MAX
            } by {
                lemma_raw_tags_advance(data@, at as int, q.1, i as int);
                assert(agrees(data@, at as int, raw_text(q.1[i as int].0)));
            }
        }
        let vr = read_text(data, after_key);
        let (value, after_value) = match vr {
            Some(v) => v,
            None => {
                return None;
            },
        };
        let ghost before = point;
        match (key, value) {
            (Some(k), Some(v)) => {
                point.tags.push((k, v));
            },
            _ => {},
        }
        proof {
            assert forall|q: RawRecord|
                raw_fits(q) && #[trigger] agrees(data@, pos as int, raw_record_bytes(q)) implies {
                &&& after_value == pos + 12 + raw_tags_bytes(q.1.take(i as int + 1)).len()
                &&& view_of(point).1 == decode_tags(q.1.take(i as int + 1))
                &&& agrees(
                    data@,
                    after_value as int,
                    raw_tags_bytes(q.1).subrange(
                        raw_tags_bytes(q.1.take(i as int + 1)).len() as int,
                        raw_tags_bytes(q.1).len() as int,
                    ),
                )
            } by {
                lemma_raw_tags_advance(data@, at as int, q.1, i as int);
                assert(agrees(data@, at as int, raw_text(q.1[i as int].0)));
                assert(agrees(data@, after_key as int, raw_text(q.1[i as int].1)));
                let t1 = q.1.take(i as int + 1);
                assert(t1.drop_last() =~= q.1.take(i as int));
                assert(t1.last() == q.1[i as int]);
                if valid_utf8(q.1[i as int].0) && valid_utf8(q.1[i as int].1) {
                    assert(view_of(point).1 =~= view_of(before).1.push(
                        (decode_utf8(q.1[i as int].0), decode_utf8(q.1[i as int].1)),
                    ));
                } else {
                    assert(view_of(point).1 =~= view_of(before).1);
                }
            }
        }
        at = after_value;
        i = i + 1;
    }
    let fcr = read_be32(data, at);
    let field_count = match fcr {
        Some(c) => c,
        None => {
            proof {
                assert forall|q: RawRecord|
                    raw_fits(q) && #[trigger] agrees(
                        data@,
                        pos as int,
                        raw_record_bytes(q),
                    ) implies pos + raw_record_bytes(q).len() > data@.len() by {
                    lemma_raw_record_split(data@, pos as int, q);
                    assert(q.1.take(q.1.len() as int) =~= q.1);
                }
            }
            return None;
        },
    };
    let ghost tags_end = at;
    proof {
        assert forall|q: RawRecord|
            raw_fits(q) && #[trigger] agrees(data@, pos as int, raw_record_bytes(q)) implies {
            &&& view_of(point).1 == decode_tags(q.1)
            &&& tags_end == pos + 12 + raw_tags_bytes(q.1).len()
            &&& field_count == q.2.len()
        } by {
            lemma_raw_record_split(data@, pos as int, q);
            assert(q.1.take(q.1.len() as int) =~= q.1);
            lemma_be32_read(data@, tags_end as int, q.2.len() as u32, fcr);
        }
    }
    at = at + 4;
    let mut i: u32 = 0;
    proof {
        assert forall|q: RawRecord|
            raw_fits(q) && #[trigger] agrees(data@, pos as int, raw_record_bytes(q)) implies {
            &&& at == tags_end + 4 + raw_fields_bytes(q.2.take(0)).len()
            &&& view_of(point).2 == decode_fields(q.2.take(0))
        } by {
            assert(q.2.take(0) =~= Seq::<(Seq<u8>, u64)>::empty());
            assert(view_of(point).2 =~= decode_fields(q.2.take(0)));
        }
    }
    while i < field_count
        invariant
            n == data@.len(),
            pos + 12 <= at <= n,
            i <= field_count,
            point.timestamp == ts,
            tags_end + 4 <= at,
            forall|q: RawRecord|
                raw_fits(q) && #[trigger] agrees(data@, pos as int, raw_record_bytes(q)) ==> {
                    &&& ts == q.0
                    &&& field_count == q.2.len()
                    &&& tags_end == pos + 12 + raw_tags_bytes(q.1).len()
                    &&& view_of(point).1 == decode_tags(q.1)
                    &&& view_of(point).2 == decode_fields(q.2.take(i as int))
                    &&& at == tags_end + 4 + raw_fields_bytes(q.2.take(i as int)).len()
                },
        decreases field_count - i,
    {
        proof {
            assert forall|q: RawRecord|
                raw_fits(q) && #[trigger] agrees(data@, pos as int, raw_record_bytes(q)) implies {
                &&& agrees(
                    data@,
                    at as int,
                    raw_fields_bytes(q.2).subrange(
                        raw_fields_bytes(q.2.take(i as int)).len() as int,
                        raw_fields_bytes(q.2).len() as int,
                    ),
                )
                &&& agrees(data@, at as int, raw_text(q.2[i as int].0))
                &&& q.2[i as int].0.len() <= u32::MAX
                &&& at + raw_text(q.2[i as int].0).len() + 8 <= pos + raw_record_bytes(q).len()
            } by {
                lemma_raw_record_split(data@, pos as int, q);
                lemma_fields_rest_at(data@, tags_end + 4int, q.2, i as int);
                lemma_raw_fields_advance(data@, at as int, q.2, i as int);
            }
        }
        let kr = read_text(data, at);
        let (key, after_key) = match kr {
            Some(k) => k,
            None => {
                return None;
            },
        };
        proof {
            assert forall|q: RawRecord|
                raw_fits(q) && #[trigger] agrees(data@, pos as int, raw_record_bytes(q)) implies agrees(
                data@,
                after_key as int,
                be64(q.2[i as int].1),
            ) by {
                lemma_raw_record_split(data@, pos as int, q);
                lemma_fields_rest_at(data@, tags_end + 4int, q.2, i as int);
                lemma_raw_fields_advance(data@, at as int, q.2, i as int);
                assert(agrees(data@, at as int, raw_text(q.2[i as int].0)));
            }
        }
        let vr = read_be64(data, after_key);
        let value = match vr {
            Some(x) => x,
            None => {
                return None;
            },
        };
        let ghost before = point;
        match key {
            Some(k) => {
                point.fields.push((k, value));
            },
            None => {},
        }
        proof {
            assert forall|q: RawRecord|
                raw_fits(q) && #[trigger] agrees(data@, pos as int, raw_record_bytes(q)) implies {
                &&& after_key + 8 == tags_end + 4 + raw_fields_bytes(q.2.take(i as int + 1)).len()
                &&& view_of(point).2 == decode_fields(q.2.take(i as int + 1))
            } by {
                lemma_raw_record_split(data@, pos as int, q);
                lemma_fields_rest_at(data@, tags_end + 4int, q.2, i as int);
                lemma_raw_fields_advance(data@, at as int, q.2, i as int);
                assert(agrees(data@, at as int, raw_text(q.2[i as int].0)));
                lemma_be64_read(data@, after_key as int, q.2[i as int].1, vr);
                let t1 = q.2.take(i as int + 1);
                assert(t1.drop_last() =~= q.2.take(i as int));
                assert(t1.last() == q.2[i as int]);
                if valid_utf8(q.2[i as int].0) {
                    assert(view_of(point).2 =~= view_of(before).2.push(
                        (decode_utf8(q.2[i as int].0), q.2[i as int].1),
                    ));
                } else {
                    assert(view_of(point).2 =~= view_of(before).2);
                }
            }
        }
        at = after_key + 8;
        i = i + 1;
    }
    proof {
        assert forall|q: RawRecord|
            raw_fits(q) && #[trigger] agrees(data@, pos as int, raw_record_bytes(q)) implies view_of(
            point,
        ) == decode_raw(q) && at == pos + raw_record_bytes(q).len() by {
            lemma_raw_record_split(data@, pos as int, q);
            assert(q.2.take(q.2.len() as int) =~= q.2);
        }
    }
    Some((point, at))
}

/// Where the fields of a record start at `start`, the rest after `i` fields starts where
/// those fields end.
proof fn lemma_fields_rest_at(s: Seq<u8>, start: int, f: Seq<(Seq<u8>, u64)>, i: int)
    requires
        0 <= i <= f.len(),
        agrees(s, start, raw_fields_bytes(f)),
    ensures
        agrees(
            s,
            start + raw_fields_bytes(f.take(i)).len(),
            raw_fields_bytes(f).subrange(
                raw_fields_bytes(f.take(i)).len() as int,
                raw_fields_bytes(f).len() as int,
            ),
        ),
{
    lemma_raw_fields_prefix(f, i);
    let a = raw_fields_bytes(f.take(i));
    let w = raw_fields_bytes(f);
    let rest = w.subrange(a.len() as int, w.len() as int);
    assert(w =~= a + rest);
    lemma_agrees_split(s, start, a, rest);
}

proof fn lemma_raw_log_prefix(qs: Seq<RawRecord>, j: int)
    requires
        0 <= j <= qs.len(),
    ensures
        raw_log_bytes(qs.take(j)).len() <= raw_log_bytes(qs).len(),
        raw_log_bytes(qs).subrange(0, raw_log_bytes(qs.take(j)).len() as int) == raw_log_bytes(
            qs.take(j),
        ),
    decreases qs.len(),
{
    if j == qs.len() {
        assert(qs.take(j) =~= qs);
        assert(raw_log_bytes(qs).subrange(0, raw_log_bytes(qs).len() as int) =~= raw_log_bytes(
            qs,
        ));
    } else {
        let d = qs.drop_last();
        lemma_raw_log_prefix(d, j);
        assert(d.take(j) =~= qs.take(j));
        assert(raw_log_bytes(qs).subrange(0, raw_log_bytes(qs.take(j)).len() as int)
            =~= raw_log_bytes(d).subrange(0, raw_log_bytes(qs.take(j)).len() as int));
    }
}

/// Record `k` of a log agrees with the data where the records before it end.
proof fn lemma_raw_log_next(data: Seq<u8>, qs: Seq<RawRecord>, k: int)
    requires
        0 <= k < qs.len(),
        raw_log_bytes(qs).len() <= data.len(),
        data.subrange(0, raw_log_bytes(qs).len() as int) == raw_log_bytes(qs),
    ensures
        agrees(data, raw_log_bytes(qs.take(k)).len() as int, raw_record_bytes(qs[k])),
        raw_log_bytes(qs.take(k + 1)).len() == raw_log_bytes(qs.take(k)).len()
            + raw_record_bytes(qs[k]).len(),
        raw_log_bytes(qs.take(k + 1)).len() <= raw_log_bytes(qs).len(),
{
    assert(qs.take(k + 1).drop_last() =~= qs.take(k));
    let a = raw_log_bytes(qs.take(k));
    let e = raw_record_bytes(qs[k]);
    assert(raw_log_bytes(qs.take(k + 1)) =~= a + e);
    lemma_raw_log_prefix(qs, k + 1);
    assert forall|i: int| 0 <= i < e.len() && a.len() + i < data.len() implies data[a.len() + i]
        == #[trigger] e[i] by {
        assert(data.subrange(0, raw_log_bytes(qs).len() as int)[a.len() + i] == data[a.len()
            + i]);
        assert(raw_log_bytes(qs).subrange(0, (a.len() + e.len()) as int)[a.len() + i] == (a
            + e)[a.len() + i]);
    }
}

/// The views of a list of points.
pub open spec fn views_of(ps: Seq<DataPoint>) -> Seq<PointView> {
    ps.map_values(|p: DataPoint| view_of(p))
}

/// `data` is the log of the points `vs`, each of which fits its record.
pub open spec fn valid_log(data: Seq<u8>, vs: Seq<PointView>) -> bool {
    &&& forall|i: int| 0 <= i < vs.len() ==> fits(#[trigger] vs[i])
    &&& data == log_bytes(vs)
}

/// Replays a log: the points of its complete records, in order, each without the pairs
/// whose bytes are not UTF-8. Reading stops at a record that the data does not hold whole,
/// such as one cut short by a crash.
pub fn decode_records(data: &[u8]) -> (r: Vec<DataPoint>)
    ensures
        forall|qs: Seq<RawRecord>| #[trigger]
            log_with_tail(data@, qs) ==> views_of(r@) == decode_raws(qs),
        forall|vs: Seq<PointView>| #[trigger] valid_log(data@, vs) ==> views_of(r@) == vs,
{
    let n = data.len();
    let mut pos: usize = 0;
    let mut out: Vec<DataPoint> = Vec::new();
    proof {
        assert forall|qs: Seq<RawRecord>| #[trigger] log_with_tail(data@, qs) implies out@.len()
            <= qs.len() && views_of(out@) == decode_raws(qs.take(out@.len() as int)) && pos
            == raw_log_bytes(qs.take(out@.len() as int)).len() by {
            assert(views_of(out@) =~= decode_raws(qs.take(0)));
            assert(qs.take(0) =~= Seq::<RawRecord>::empty());
        }
    }
    while pos < n
        invariant
            n == data@.len(),
            pos <= n,
            forall|qs: Seq<RawRecord>| #[trigger]
                log_with_tail(data@, qs) ==> out@.len() <= qs.len() && views_of(out@)
                    == decode_raws(qs.take(out@.len() as int)) && pos == raw_log_bytes(
                    qs.take(out@.len() as int),
                ).len(),
        decreases n - pos,
    {
        let ghost k = out@.len() as int;
        proof {
            assert forall|qs: Seq<RawRecord>| #[trigger] log_with_tail(data@, qs) implies {
                &&& k < qs.len() ==> raw_fits(qs[k]) && agrees(
                    data@,
                    pos as int,
                    raw_record_bytes(qs[k]),
                ) && pos + raw_record_bytes(qs[k]).len() <= n && raw_log_bytes(
                    qs.take(k + 1),
                ).len() == pos + raw_record_bytes(qs[k]).len()
                &&& k == qs.len() ==> exists|q: RawRecord|
                    raw_fits(q) && pos + raw_record_bytes(q).len() > n && #[trigger] agrees(
                        data@,
                        pos as int,
                        raw_record_bytes(q),
                    )
            } by {
                if k < qs.len() {
                    lemma_raw_log_next(data@, qs, k);
                } else {
                    assert(qs.take(k) =~= qs);
                    let t = data@.subrange(pos as int, n as int);
                    assert(torn(t));
                    let q = choose|q: RawRecord|
                        raw_fits(q) && t.len() < raw_record_bytes(q).len() && #[trigger] agrees(
                            t,
                            0,
                            raw_record_bytes(q),
                        );
                    assert forall|i: int|
                        0 <= i < raw_record_bytes(q).len() && pos + i < data@.len() implies data@[pos
                        + i] == #[trigger] raw_record_bytes(q)[i] by {
                        assert(t[i] == data@[pos + i]);
                    }
                    assert(agrees(data@, pos as int, raw_record_bytes(q)));
                }
            }
        }
        let rr = read_record(data, pos);
        match rr {
            Some((p, next)) => {
                let ghost before = out@;
                out.push(p);
                proof {
                    assert forall|qs: Seq<RawRecord>| #[trigger]
                        log_with_tail(data@, qs) implies out@.len() <= qs.len() && views_of(out@)
                        == decode_raws(qs.take(out@.len() as int)) && next == raw_log_bytes(
                        qs.take(out@.len() as int),
                    ).len() by {
                        if k == qs.len() {
                            let q = choose|q: RawRecord|
                                raw_fits(q) && pos + raw_record_bytes(q).len() > n
                                    && #[trigger] agrees(data@, pos as int, raw_record_bytes(q));
                            assert(false);
                        }
                        assert(views_of(out@) =~= views_of(before).push(view_of(p)));
                        assert(decode_raws(qs.take(k + 1)) =~= decode_raws(qs.take(k)).push(
                            decode_raw(qs[k]),
                        ));
                    }
                }
                pos = next;
            },
            None => {
                proof {
                    assert forall|qs: Seq<RawRecord>| #[trigger] log_with_tail(data@, qs) implies views_of(
                        out@,
                    ) == decode_raws(qs) by {
                        if k < qs.len() {
                            assert(false);
                        }
                        assert(qs.take(k) =~= qs);
                    }
                    assert forall|vs: Seq<PointView>| #[trigger] valid_log(data@, vs) implies views_of(
                        out@,
                    ) == vs by {
                        lemma_log_is_raw(vs);
                        assert(log_with_tail(data@, raws_of(vs)));
                    }
                }
                return out;
            },
        }
    }
    proof {
        assert forall|qs: Seq<RawRecord>| #[trigger] log_with_tail(data@, qs) implies views_of(out@)
            == decode_raws(qs) by {
            let k = out@.len() as int;
            if k < qs.len() {
                lemma_raw_log_next(data@, qs, k);
                assert(false);
            }
            assert(qs.take(k) =~= qs);
        }
        assert forall|vs: Seq<PointView>| #[trigger] valid_log(data@, vs) implies views_of(out@)
            == vs by {
            lemma_log_is_raw(vs);
            assert(log_with_tail(data@, raws_of(vs)));
        }
    }
    out
}

/// The records as the log holds them, for points whose strings are text.
pub open spec fn raw_of(v: PointView) -> RawRecord {
    (
        v.0,
        Seq::new(v.1.len(), |i: int| (encode_utf8(v.1[i].0), encode_utf8(v.1[i].1))),
        Seq::new(v.2.len(), |i: int| (encode_utf8(v.2[i].0), v.2[i].1)),
    )
}

pub open spec fn raws_of(vs: Seq<PointView>) -> Seq<RawRecord> {
    Seq::new(vs.len(), |i: int| raw_of(vs[i]))
}

proof fn lemma_tags_raw(t: Seq<(Seq<char>, Seq<char>)>)
    ensures
        tags_bytes(t) == raw_tags_bytes(
            Seq::new(t.len(), |i: int| (encode_utf8(t[i].0), encode_utf8(t[i].1))),
        ),
        decode_tags(Seq::new(t.len(), |i: int| (encode_utf8(t[i].0), encode_utf8(t[i].1)))) == t,
    decreases t.len(),
{
    let r = Seq::new(t.len(), |i: int| (encode_utf8(t[i].0), encode_utf8(t[i].1)));
    if t.len() > 0 {
        let d = t.drop_last();
        lemma_tags_raw(d);
        assert(r.drop_last() =~= Seq::new(d.len(), |i: int| (encode_utf8(d[i].0), encode_utf8(d[i].1))));
        assert(decode_tags(r) =~= t);
    } else {
        assert(decode_tags(r) =~= t);
    }
}

proof fn lemma_fields_raw(f: Seq<(Seq<char>, u64)>)
    ensures
        fields_bytes(f) == raw_fields_bytes(Seq::new(f.len(), |i: int| (encode_utf8(f[i].0), f[i].1))),
        decode_fields(Seq::new(f.len(), |i: int| (encode_utf8(f[i].0), f[i].1))) == f,
    decreases f.len(),
{
    let r = Seq::new(f.len(), |i: int| (encode_utf8(f[i].0), f[i].1));
    if f.len() > 0 {
        let d = f.drop_last();
        lemma_fields_raw(d);
        assert(r.drop_last() =~= Seq::new(d.len(), |i: int| (encode_utf8(d[i].0), d[i].1)));
        assert(decode_fields(r) =~= f);
    } else {
        assert(decode_fields(r) =~= f);
    }
}

/// A point's record is the record of its strings' bytes, and gives the point back.
pub proof fn lemma_record_is_raw(v: PointView)
    requires
        fits(v),
    ensures
        raw_fits(raw_of(v)),
        record_bytes(v) == raw_record_bytes(raw_of(v)),
        decode_raw(raw_of(v)) == v,
{
    lemma_tags_raw(v.1);
    lemma_fields_raw(v.2);
    let q = raw_of(v);
    assert forall|i: int| 0 <= i < q.1.len() implies (#[trigger] q.1[i]).0.len() <= u32::MAX
        && q.1[i].1.len() <= u32::MAX by {
        assert(encode_utf8(v.1[i].0).len() <= u32::MAX);
    }
    assert forall|i: int| 0 <= i < q.2.len() implies (#[trigger] q.2[i]).0.len() <= u32::MAX by {
        assert(encode_utf8(v.2[i].0).len() <= u32::MAX);
    }
}

/// A log of points is the log of their records.
pub proof fn lemma_log_is_raw(vs: Seq<PointView>)
    requires
        forall|i: int| 0 <= i < vs.len() ==> fits(#[trigger] vs[i]),
    ensures
        log_bytes(vs) == raw_log_bytes(raws_of(vs)),
        decode_raws(raws_of(vs)) == vs,
        forall|i: int| 0 <= i < vs.len() ==> raw_fits(#[trigger] raws_of(vs)[i]),
        log_with_tail(log_bytes(vs), raws_of(vs)),
    decreases vs.len(),
{
    if vs.len() > 0 {
        let d = vs.drop_last();
        lemma_log_is_raw(d);
        assert(raws_of(vs).drop_last() =~= raws_of(d));
        lemma_record_is_raw(vs.last());
    }
    assert forall|i: int| 0 <= i < vs.len() implies raw_fits(#[trigger] raws_of(vs)[i]) by {
        lemma_record_is_raw(vs[i]);
    }
    assert forall|i: int| 0 <= i < vs.len() implies decode_raws(raws_of(vs))[i] == vs[i] by {
        lemma_record_is_raw(vs[i]);
    }
    assert(decode_raws(raws_of(vs)) =~= vs);
    let l = log_bytes(vs);
    assert(l.subrange(0, l.len() as int) =~= l);
}

pub proof fn lemma_rest_split(s: Seq<u8>, at: int, whole: Seq<u8>, head: Seq<u8>, e: Seq<u8>)
    requires
        (head.len() + e.len()) as int <= whole.len(),
        whole.subrange(0, (head.len() + e.len()) as int) == head + e,
        bytes_at(s, at, whole.subrange(head.len() as int, whole.len() as int)),
    ensures
        bytes_at(s, at, e),
        bytes_at(s, at + e.len(), whole.subrange((head.len() + e.len()) as int, whole.len() as int)),
{
    let rest = whole.subrange(head.len() as int, whole.len() as int);
    let rest2 = whole.subrange((head.len() + e.len()) as int, whole.len() as int);
    assert(rest.subrange(0, e.len() as int) =~= whole.subrange(0, (head.len() + e.len()) as int).subrange(
        head.len() as int,
        (head.len() + e.len()) as int,
    ));
    assert((head + e).subrange(head.len() as int, (head.len() + e.len()) as int) =~= e);
    assert(rest =~= e + rest2);
    lemma_bytes_split(s, at, e, rest2);
}


/// The point that the single-value write path stores: field `value` only.
pub fn legacy_point(timestamp: u64, value: u64) -> (r: DataPoint)
    ensures
        r.timestamp == timestamp,
        r.tags@.len() == 0,
        r.fields@.len() == 1,
        r.fields@[0].0@ == "value"@,
        r.fields@[0].1 == value,
{
    let mut fields: Vec<(String, u64)> = Vec::new();
    fields.push(("value".to_string(), value));
    let r = DataPoint { timestamp, tags: Vec::new(), fields };
    proof {
        vstd::string::axiom_str_literal_len("value");
    }
    r
}

/// Replay gives back what was logged: the records of points whose lengths fit their slots
/// form a log of exactly those points, so `decode_records` on them returns the points.
pub proof fn lemma_log_round_trip(vs: Seq<PointView>)
    requires
        forall|i: int| 0 <= i < vs.len() ==> fits(#[trigger] vs[i]),
    ensures
        valid_log(log_bytes(vs), vs),
{
}

/// The `(timestamp, value)` pairs of the points that carry field `value`, in order.
pub open spec fn legacy_pairs(ps: Seq<DataPoint>) -> Seq<(u64, u64)>
    decreases ps.len(),
{
    if ps.len() == 0 {
        seq![]
    } else {
        let rest = legacy_pairs(ps.drop_last());
        let f = crate::types::fields_map(ps.last().fields@);
        if f.contains_key("value"@) {
            rest.push((ps.last().timestamp, f["value"@]))
        } else {
            rest
        }
    }
}

/// The single-value view of replayed points: for each timestamp, in ascending order, the
/// last `value` written at it.
pub fn legacy_values(points: &Vec<DataPoint>) -> (r: Vec<(u64, u64)>)
    ensures
        crate::points::is_merged(legacy_pairs(points@), r@),
{
    let name = "value".to_string();
    let mut pairs: Vec<(u64, u64)> = Vec::new();
    let mut i: usize = 0;
    while i < points.len()
        invariant
            i <= points@.len(),
            name@ == "value"@,
            pairs@ == legacy_pairs(points@.take(i as int)),
        decreases points.len() - i,
    {
        assert(points@.take(i as int + 1).drop_last() =~= points@.take(i as int));
        match crate::types::lookup_field(&points[i].fields, &name) {
            Some(v) => {
                pairs.push((points[i].timestamp, v));
            },
            None => {},
        }
        i = i + 1;
    }
    assert(points@.take(points@.len() as int) =~= points@);
    crate::points::sort_dedup_last(&pairs)
}

/// The measurement that a replayed point is filed under: its `measurement` tag, else
/// `default`.
pub fn replay_measurement(point: &DataPoint) -> (r: String)
    ensures
        point.tag_map().contains_key("measurement"@) ==> r@ == point.tag_map()["measurement"@],
        !point.tag_map().contains_key("measurement"@) ==> r@ == "default"@,
{
    let key = "measurement".to_string();
    match crate::types::lookup_pair(&point.tags, &key) {
        Some(m) => m.clone(),
        None => "default".to_string(),
    }
}

} // verus!
