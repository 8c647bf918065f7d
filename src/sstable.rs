use vstd::prelude::*;
use vstd::utf8::{encode_utf8};
use vstd::slice::slice_subrange;
use crate::block::TimeSeriesBlock;
use crate::endian::{
    bytes_at, le32, le64, lemma_bytes_split, lp, push_le32, push_le64, push_lp, read_le32,
    read_le64, read_lp,
};
use crate::error::Error;
use crate::points::{in_range, sort_dedup_last};
use crate::types::{fields_map, lookup_field, DataPoint, QueryFilter, SeriesKey};
use crate::wal::text_from_utf8;

verus! {

broadcast use {
    vstd::utf8::encode_utf8_valid_utf8,
    vstd::utf8::encode_utf8_decode_utf8,
    crate::endian::lemma_le32_len,
    crate::endian::lemma_le64_len,
};

/// A string as its UTF-8 bytes with their length in front.
pub open spec fn text(s: Seq<char>) -> Seq<u8> {
    lp(encode_utf8(s))
}

/// What a series key holds, as plain values.
pub type KeyView = (Seq<char>, Seq<(Seq<char>, Seq<char>)>);

pub open spec fn key_view(k: SeriesKey) -> KeyView {
    (k.measurement@, crate::types::pairs_view(k.tags@))
}

pub open spec fn key_tags_bytes(t: Seq<(Seq<char>, Seq<char>)>) -> Seq<u8>
    decreases t.len(),
{
    if t.len() == 0 {
        seq![]
    } else {
        key_tags_bytes(t.drop_last()) + text(t.last().0) + text(t.last().1)
    }
}

/// The bytes that stand for a series key in an index: measurement, tag count, tags.
pub open spec fn series_key_bytes(k: KeyView) -> Seq<u8> {
    text(k.0) + le32(k.1.len() as u32) + key_tags_bytes(k.1)
}

/// Every length of the key fits its 32-bit slot.
pub open spec fn key_fits(k: KeyView) -> bool {
    &&& encode_utf8(k.0).len() <= u32::MAX
    &&& k.1.len() <= u32::MAX
    &&& forall|i: int|
        0 <= i < k.1.len() ==> encode_utf8(#[trigger] k.1[i].0).len() <= u32::MAX && encode_utf8(
            k.1[i].1,
        ).len() <= u32::MAX
}

fn push_text(out: &mut Vec<u8>, s: &String) -> (ok: bool)
    ensures
        ok == (encode_utf8(s@).len() <= u32::MAX),
        ok ==> final(out)@ == old(out)@ + text(s@),
        !ok ==> final(out)@ == old(out)@,
{
    push_lp(out, s.as_str().as_bytes())
}

/// The bytes of a series key; fails where a length does not fit its 32-bit slot.
pub fn encode_series_key(key: &SeriesKey) -> (r: Result<Vec<u8>, Error>)
    ensures
        r is Ok <==> key_fits(key_view(*key)),
        r matches Ok(b) ==> b@ == series_key_bytes(key_view(*key)),
{
    let ghost k = key_view(*key);
    let mut out: Vec<u8> = Vec::new();
    if !push_text(&mut out, &key.measurement) {
        return Err(Error::SerializationError("measurement too long".to_string()));
    }
    if key.tags.len() > u32::MAX as usize {
        return Err(Error::SerializationError("too many tags".to_string()));
    }
    push_le32(&mut out, key.tags.len() as u32);
    let ghost head = out@;
    let mut i: usize = 0;
    while i < key.tags.len()
        invariant
            i <= key.tags@.len(),
            k == key_view(*key),
            encode_utf8(k.0).len() <= u32::MAX,
            k.1.len() <= u32::MAX,
            forall|j: int|
                0 <= j < i ==> encode_utf8(#[trigger] k.1[j].0).len() <= u32::MAX && encode_utf8(
                    k.1[j].1,
                ).len() <= u32::MAX,
            out@ == head + key_tags_bytes(k.1.take(i as int)),
        decreases key.tags.len() - i,
    {
        assert(k.1.take(i as int + 1).drop_last() =~= k.1.take(i as int));
        assert(k.1[i as int] == (key.tags@[i as int].0@, key.tags@[i as int].1@));
        if !push_text(&mut out, &key.tags[i].0) {
            proof {
                assert(encode_utf8(k.1[i as int].0).len() > u32::MAX);
                assert(!key_fits(k));
            }
            return Err(Error::SerializationError("tag key too long".to_string()));
        }
        if !push_text(&mut out, &key.tags[i].1) {
            proof {
                assert(encode_utf8(k.1[i as int].1).len() > u32::MAX);
                assert(!key_fits(k));
            }
            return Err(Error::SerializationError("tag value too long".to_string()));
        }
        proof {
            assert forall|j: int| 0 <= j < i + 1 implies encode_utf8(#[trigger] k.1[j].0).len()
                <= u32::MAX && encode_utf8(k.1[j].1).len() <= u32::MAX by {
                if j == i {
                    assert(k.1[j] == (key.tags@[j].0@, key.tags@[j].1@));
                }
            }
        }
        i = i + 1;
    }
    assert(k.1.take(k.1.len() as int) =~= k.1);
    Ok(out)
}

fn read_text(data: &[u8], pos: usize) -> (r: Option<(Option<String>, usize)>)
    ensures
        r matches Some((_, next)) ==> pos < next <= data@.len(),
        forall|s: Seq<char>|
            encode_utf8(s).len() <= u32::MAX && #[trigger] bytes_at(data@, pos as int, text(s)) ==> (
            r matches Some((Some(t), next)) && t@ == s && next == pos + text(s).len()),
        r matches Some((Some(t), next)) ==> encode_utf8(t@).len() <= u32::MAX && data@.subrange(
            pos as int,
            next as int,
        ) == text(t@),
{
    let rr = read_lp(data, pos);
    match rr {
        Some((b, next)) => {
            let t = text_from_utf8(b);
            proof {
                assert forall|s: Seq<char>|
                    encode_utf8(s).len() <= u32::MAX && #[trigger] bytes_at(
                        data@,
                        pos as int,
                        text(s),
                    ) implies (t matches Some(x) && x@ == s) by {
                    assert(b@ == encode_utf8(s));
                }
                if t is Some {
                    vstd::utf8::decode_utf8_encode_utf8(b@);
                }
            }
            Some((t, next))
        },
        None => None,
    }
}

proof fn lemma_key_tags_prefix(t: Seq<(Seq<char>, Seq<char>)>, j: int)
    requires
        0 <= j <= t.len(),
    ensures
        key_tags_bytes(t.take(j)).len() <= key_tags_bytes(t).len(),
        key_tags_bytes(t).subrange(0, key_tags_bytes(t.take(j)).len() as int) == key_tags_bytes(
            t.take(j),
        ),
    decreases t.len(),
{
    if j == t.len() {
        assert(t.take(j) =~= t);
        assert(key_tags_bytes(t).subrange(0, key_tags_bytes(t).len() as int) =~= key_tags_bytes(
            t,
        ));
    } else {
        let q = t.drop_last();
        lemma_key_tags_prefix(q, j);
        assert(q.take(j) =~= t.take(j));
        assert(key_tags_bytes(t).subrange(0, key_tags_bytes(t.take(j)).len() as int)
            =~= key_tags_bytes(q).subrange(0, key_tags_bytes(t.take(j)).len() as int));
    }
}

proof fn lemma_key_tags_advance(s: Seq<u8>, at: int, t: Seq<(Seq<char>, Seq<char>)>, i: int)
    requires
        0 <= i < t.len(),
        bytes_at(
            s,
            at,
            key_tags_bytes(t).subrange(
                key_tags_bytes(t.take(i)).len() as int,
                key_tags_bytes(t).len() as int,
            ),
        ),
    ensures
        key_tags_bytes(t.take(i + 1)).len() == key_tags_bytes(t.take(i)).len() + text(
            t[i].0,
        ).len() + text(t[i].1).len(),
        bytes_at(s, at, text(t[i].0)),
        bytes_at(s, at + text(t[i].0).len(), text(t[i].1)),
        bytes_at(
            s,
            at + text(t[i].0).len() + text(t[i].1).len(),
            key_tags_bytes(t).subrange(
                key_tags_bytes(t.take(i + 1)).len() as int,
                key_tags_bytes(t).len() as int,
            ),
        ),
{
    let e = text(t[i].0) + text(t[i].1);
    assert(t.take(i + 1).drop_last() =~= t.take(i));
    let a = key_tags_bytes(t.take(i));
    let whole = key_tags_bytes(t);
    assert(key_tags_bytes(t.take(i + 1)) =~= a + e);
    lemma_key_tags_prefix(t, i + 1);
    crate::wal::lemma_rest_split(s, at, whole, a, e);
    lemma_bytes_split(s, at, text(t[i].0), text(t[i].1));
}

/// Reads a series key back from its bytes; the bytes of a key give that key back.
pub fn decode_series_key(data: &[u8]) -> (r: Result<SeriesKey, Error>)
    ensures
        forall|k: KeyView|
            key_fits(k) && #[trigger] series_key_bytes(k) == data@ ==> (r matches Ok(key)
                && key_view(key) == k),
        r is Err ==> r matches Err(Error::SerializationError(_)),
{
    let n = data.len();
    proof {
        assert forall|k: KeyView| key_fits(k) && #[trigger] series_key_bytes(k) == data@ implies {
            &&& bytes_at(data@, 0, text(k.0))
            &&& bytes_at(data@, text(k.0).len() as int, le32(k.1.len() as u32))
            &&& bytes_at(
                data@,
                (text(k.0).len() + 4) as int,
                key_tags_bytes(k.1).subrange(
                    key_tags_bytes(k.1.take(0)).len() as int,
                    key_tags_bytes(k.1).len() as int,
                ),
            )
        } by {
            let a = text(k.0);
            let b = le32(k.1.len() as u32);
            let c = key_tags_bytes(k.1);
            assert(data@.subrange(0, data@.len() as int) =~= data@);
            assert(bytes_at(data@, 0, a + b + c));
            lemma_bytes_split(data@, 0, a + b, c);
            lemma_bytes_split(data@, 0, a, b);
            assert(k.1.take(0) =~= Seq::<(Seq<char>, Seq<char>)>::empty());
            assert(c.subrange(0, c.len() as int) =~= c);
        }
    }
    let mr = read_text(data, 0);
    let (m, mut at) = match mr {
        Some((Some(m), next)) => (m, next),
        _ => {
            return Err(Error::SerializationError("bad measurement in series key".to_string()));
        },
    };
    let cr = read_le32(data, at);
    let count = match cr {
        Some(c) => c,
        None => {
            return Err(Error::SerializationError("series key ends early".to_string()));
        },
    };
    at = at + 4;
    let mut key = SeriesKey { measurement: m, tags: Vec::new() };
    let mut i: u32 = 0;
    while i < count
        invariant
            n == data@.len(),
            at <= n,
            i <= count,
            forall|k: KeyView|
                key_fits(k) && #[trigger] series_key_bytes(k) == data@ ==> {
                    &&& key.measurement@ == k.0
                    &&& count == k.1.len()
                    &&& key_view(key).1 == k.1.take(i as int)
                    &&& bytes_at(
                        data@,
                        at as int,
                        key_tags_bytes(k.1).subrange(
                            key_tags_bytes(k.1.take(i as int)).len() as int,
                            key_tags_bytes(k.1).len() as int,
                        ),
                    )
                },
        decreases count - i,
    {
        proof {
            assert forall|k: KeyView|
                key_fits(k) && #[trigger] series_key_bytes(k) == data@ implies bytes_at(
                data@,
                at as int,
                text(k.1[i as int].0),
            ) by {
                lemma_key_tags_advance(data@, at as int, k.1, i as int);
            }
        }
        let kr = read_text(data, at);
        let (tk, after_key) = match kr {
            Some((Some(t), next)) => (t, next),
            _ => {
                return Err(Error::SerializationError("bad tag key in series key".to_string()));
            },
        };
        proof {
            assert forall|k: KeyView|
                key_fits(k) && #[trigger] series_key_bytes(k) == data@ implies bytes_at(
                data@,
                after_key as int,
                text(k.1[i as int].1),
            ) by {
                lemma_key_tags_advance(data@, at as int, k.1, i as int);
            }
        }
        let vr = read_text(data, after_key);
        let (tv, after_value) = match vr {
            Some((Some(t), next)) => (t, next),
            _ => {
                return Err(Error::SerializationError("bad tag value in series key".to_string()));
            },
        };
        let ghost before = key;
        key.tags.push((tk, tv));
        proof {
            assert forall|k: KeyView|
                key_fits(k) && #[trigger] series_key_bytes(k) == data@ implies {
                &&& key_view(key).1 == k.1.take(i as int + 1)
                &&& bytes_at(
                    data@,
                    after_value as int,
                    key_tags_bytes(k.1).subrange(
                        key_tags_bytes(k.1.take(i as int + 1)).len() as int,
                        key_tags_bytes(k.1).len() as int,
                    ),
                )
            } by {
                lemma_key_tags_advance(data@, at as int, k.1, i as int);
                assert(key_view(key).1 =~= key_view(before).1.push(
                    (k.1[i as int].0, k.1[i as int].1),
                ));
                assert(k.1.take(i as int + 1) =~= k.1.take(i as int).push(k.1[i as int]));
            }
        }
        at = after_value;
        i = i + 1;
    }
    proof {
        assert forall|k: KeyView| key_fits(k) && #[trigger] series_key_bytes(k) == data@ implies key_view(
            key,
        ) == k by {
            assert(k.1.take(k.1.len() as int) =~= k.1);
        }
    }
    Ok(key)
}


pub open spec fn field_entries_bytes(fs: Seq<(Seq<char>, Seq<u8>)>) -> Seq<u8>
    decreases fs.len(),
{
    if fs.len() == 0 {
        seq![]
    } else {
        field_entries_bytes(fs.drop_last()) + text(fs.last().0) + lp(fs.last().1)
    }
}

/// The payload of one series: a field count, then each field name with its block.
pub open spec fn payload_bytes(fs: Seq<(Seq<char>, Seq<u8>)>) -> Seq<u8> {
    le32(fs.len() as u32) + field_entries_bytes(fs)
}

pub open spec fn payload_fits(fs: Seq<(Seq<char>, Seq<u8>)>) -> bool {
    &&& fs.len() <= u32::MAX
    &&& forall|i: int|
        0 <= i < fs.len() ==> encode_utf8(#[trigger] fs[i].0).len() <= u32::MAX && fs[i].1.len()
            <= u32::MAX
}

pub open spec fn named_blocks_view(fs: Seq<(String, Vec<u8>)>) -> Seq<(Seq<char>, Seq<u8>)> {
    fs.map_values(|f: (String, Vec<u8>)| (f.0@, f.1@))
}

pub open spec fn named_slices_view(fs: Seq<(String, &[u8])>) -> Seq<(Seq<char>, Seq<u8>)> {
    fs.map_values(|f: (String, &[u8])| (f.0@, f.1@))
}

/// The payload of one series from its field blocks; fails where a length does not fit.
pub fn encode_payload(fields: &Vec<(String, Vec<u8>)>) -> (r: Result<Vec<u8>, Error>)
    ensures
        r is Ok <==> payload_fits(named_blocks_view(fields@)),
        r matches Ok(b) ==> b@ == payload_bytes(named_blocks_view(fields@)),
{
    let ghost fs = named_blocks_view(fields@);
    if fields.len() > u32::MAX as usize {
        return Err(Error::DataError("too many fields in one series".to_string()));
    }
    let mut out: Vec<u8> = Vec::new();
    push_le32(&mut out, fields.len() as u32);
    let ghost head = out@;
    let mut i: usize = 0;
    while i < fields.len()
        invariant
            i <= fields@.len(),
            fs == named_blocks_view(fields@),
            fs.len() <= u32::MAX,
            forall|j: int|
                0 <= j < i ==> encode_utf8(#[trigger] fs[j].0).len() <= u32::MAX && fs[j].1.len()
                    <= u32::MAX,
            out@ == head + field_entries_bytes(fs.take(i as int)),
        decreases fields.len() - i,
    {
        assert(fs.take(i as int + 1).drop_last() =~= fs.take(i as int));
        assert(fs[i as int] == (fields@[i as int].0@, fields@[i as int].1@));
        if !push_text(&mut out, &fields[i].0) {
            proof {
                assert(encode_utf8(fs[i as int].0).len() > u32::MAX);
                assert(!payload_fits(fs));
            }
            return Err(Error::DataError("field name too long".to_string()));
        }
        if !push_lp(&mut out, fields[i].1.as_slice()) {
            proof {
                assert(fs[i as int].1.len() > u32::MAX);
                assert(!payload_fits(fs));
            }
            return Err(Error::DataError("field block too long".to_string()));
        }
        proof {
            assert forall|j: int| 0 <= j < i + 1 implies encode_utf8(#[trigger] fs[j].0).len()
                <= u32::MAX && fs[j].1.len() <= u32::MAX by {
                if j == i {
                    assert(fs[j] == (fields@[j].0@, fields@[j].1@));
                }
            }
        }
        i = i + 1;
    }
    assert(fs.take(fs.len() as int) =~= fs);
    Ok(out)
}

proof fn lemma_entries_prefix(t: Seq<(Seq<char>, Seq<u8>)>, j: int)
    requires
        0 <= j <= t.len(),
    ensures
        field_entries_bytes(t.take(j)).len() <= field_entries_bytes(t).len(),
        field_entries_bytes(t).subrange(0, field_entries_bytes(t.take(j)).len() as int)
            == field_entries_bytes(t.take(j)),
    decreases t.len(),
{
    if j == t.len() {
        assert(t.take(j) =~= t);
        assert(field_entries_bytes(t).subrange(0, field_entries_bytes(t).len() as int)
            =~= field_entries_bytes(t));
    } else {
        let q = t.drop_last();
        lemma_entries_prefix(q, j);
        assert(q.take(j) =~= t.take(j));
        assert(field_entries_bytes(t).subrange(0, field_entries_bytes(t.take(j)).len() as int)
            =~= field_entries_bytes(q).subrange(0, field_entries_bytes(t.take(j)).len() as int));
    }
}

proof fn lemma_entries_advance(s: Seq<u8>, at: int, t: Seq<(Seq<char>, Seq<u8>)>, i: int)
    requires
        0 <= i < t.len(),
        bytes_at(
            s,
            at,
            field_entries_bytes(t).subrange(
                field_entries_bytes(t.take(i)).len() as int,
                field_entries_bytes(t).len() as int,
            ),
        ),
    ensures
        bytes_at(s, at, text(t[i].0)),
        bytes_at(s, at + text(t[i].0).len(), lp(t[i].1)),
        bytes_at(
            s,
            at + text(t[i].0).len() + lp(t[i].1).len(),
            field_entries_bytes(t).subrange(
                field_entries_bytes(t.take(i + 1)).len() as int,
                field_entries_bytes(t).len() as int,
            ),
        ),
        field_entries_bytes(t.take(i + 1)).len() == field_entries_bytes(t.take(i)).len() + text(
            t[i].0,
        ).len() + lp(t[i].1).len(),
{
    let e = text(t[i].0) + lp(t[i].1);
    assert(t.take(i + 1).drop_last() =~= t.take(i));
    let a = field_entries_bytes(t.take(i));
    assert(field_entries_bytes(t.take(i + 1)) =~= a + e);
    lemma_entries_prefix(t, i + 1);
    crate::wal::lemma_rest_split(s, at, field_entries_bytes(t), a, e);
    lemma_bytes_split(s, at, text(t[i].0), lp(t[i].1));
}

/// Reads the field blocks of one series, as slices of `data`; the payload of some fields
/// gives those fields back.
pub fn decode_payload<'a>(data: &'a [u8]) -> (r: Result<Vec<(String, &'a [u8])>, Error>)
    ensures
        forall|fs: Seq<(Seq<char>, Seq<u8>)>|
            payload_fits(fs) && #[trigger] payload_bytes(fs) == data@ ==> (r matches Ok(v)
                && named_slices_view(v@) == fs),
        r matches Ok(v) ==> payload_fits(named_slices_view(v@)) && bytes_at(
            data@,
            0,
            payload_bytes(named_slices_view(v@)),
        ),
{
    let n = data.len();
    proof {
        assert forall|fs: Seq<(Seq<char>, Seq<u8>)>|
            payload_fits(fs) && #[trigger] payload_bytes(fs) == data@ implies {
            &&& bytes_at(data@, 0, le32(fs.len() as u32))
            &&& bytes_at(
                data@,
                4,
                field_entries_bytes(fs).subrange(
                    field_entries_bytes(fs.take(0)).len() as int,
                    field_entries_bytes(fs).len() as int,
                ),
            )
        } by {
            let a = le32(fs.len() as u32);
            let c = field_entries_bytes(fs);
            assert(data@.subrange(0, data@.len() as int) =~= data@);
            lemma_bytes_split(data@, 0, a, c);
            assert(fs.take(0) =~= Seq::<(Seq<char>, Seq<u8>)>::empty());
            assert(c.subrange(0, c.len() as int) =~= c);
        }
    }
    let cr = read_le32(data, 0);
    let count = match cr {
        Some(c) => c,
        None => {
            return Err(Error::DataError("series payload ends early".to_string()));
        },
    };
    let mut at: usize = 4;
    let mut out: Vec<(String, &'a [u8])> = Vec::new();
    let mut i: u32 = 0;
    proof {
        assert(field_entries_bytes(named_slices_view(out@)) =~= Seq::<u8>::empty());
        assert(data@.subrange(0, 4) =~= le32(count) + field_entries_bytes(named_slices_view(out@)));
    }
    while i < count
        invariant
            n == data@.len(),
            at <= n,
            i <= count,
            out@.len() == i,
            data@.subrange(0, at as int) == le32(count) + field_entries_bytes(
                named_slices_view(out@),
            ),
            forall|j: int|
                0 <= j < out@.len() ==> encode_utf8((#[trigger] out@[j]).0@).len() <= u32::MAX
                    && out@[j].1@.len() <= u32::MAX,
            forall|fs: Seq<(Seq<char>, Seq<u8>)>|
                payload_fits(fs) && #[trigger] payload_bytes(fs) == data@ ==> {
                    &&& count == fs.len()
                    &&& named_slices_view(out@) == fs.take(i as int)
                    &&& bytes_at(
                        data@,
                        at as int,
                        field_entries_bytes(fs).subrange(
                            field_entries_bytes(fs.take(i as int)).len() as int,
                            field_entries_bytes(fs).len() as int,
                        ),
                    )
                },
        decreases count - i,
    {
        proof {
            assert forall|fs: Seq<(Seq<char>, Seq<u8>)>|
                payload_fits(fs) && #[trigger] payload_bytes(fs) == data@ implies bytes_at(
                data@,
                at as int,
                text(fs[i as int].0),
            ) by {
                lemma_entries_advance(data@, at as int, fs, i as int);
            }
        }
        let nr = read_text(data, at);
        let (name, after_name) = match nr {
            Some((Some(t), next)) => (t, next),
            _ => {
                return Err(Error::DataError("bad field name in series payload".to_string()));
            },
        };
        proof {
            assert forall|fs: Seq<(Seq<char>, Seq<u8>)>|
                payload_fits(fs) && #[trigger] payload_bytes(fs) == data@ implies bytes_at(
                data@,
                after_name as int,
                lp(fs[i as int].1),
            ) by {
                lemma_entries_advance(data@, at as int, fs, i as int);
            }
        }
        let br = read_lp(data, after_name);
        let (block, after_block) = match br {
            Some(x) => x,
            None => {
                return Err(Error::DataError("field block ends early".to_string()));
            },
        };
        let ghost before = out@;
        let ghost e = (name@, block@);
        out.push((name, block));
        proof {
            let v0 = named_slices_view(before);
            let v1 = named_slices_view(out@);
            assert(v1 =~= v0.push(e));
            assert(v1.drop_last() =~= v0);
            assert(field_entries_bytes(v1) == field_entries_bytes(v0) + text(e.0) + lp(e.1));
            assert(data@.subrange(0, after_block as int) =~= data@.subrange(0, at as int)
                + data@.subrange(at as int, after_name as int) + data@.subrange(
                after_name as int,
                after_block as int,
            ));
            assert(data@.subrange(0, after_block as int) =~= le32(count) + field_entries_bytes(v1));
            assert forall|j: int| 0 <= j < out@.len() implies encode_utf8(
                (#[trigger] out@[j]).0@,
            ).len() <= u32::MAX && out@[j].1@.len() <= u32::MAX by {
                if j < before.len() {
                    assert(out@[j] == before[j]);
                }
            }
            assert forall|fs: Seq<(Seq<char>, Seq<u8>)>|
                payload_fits(fs) && #[trigger] payload_bytes(fs) == data@ implies {
                &&& named_slices_view(out@) == fs.take(i as int + 1)
                &&& bytes_at(
                    data@,
                    after_block as int,
                    field_entries_bytes(fs).subrange(
                        field_entries_bytes(fs.take(i as int + 1)).len() as int,
                        field_entries_bytes(fs).len() as int,
                    ),
                )
            } by {
                lemma_entries_advance(data@, at as int, fs, i as int);
                assert(named_slices_view(out@) =~= named_slices_view(before).push(fs[i as int]));
                assert(fs.take(i as int + 1) =~= fs.take(i as int).push(fs[i as int]));
            }
        }
        at = after_block;
        i = i + 1;
    }
    proof {
        assert forall|fs: Seq<(Seq<char>, Seq<u8>)>|
            payload_fits(fs) && #[trigger] payload_bytes(fs) == data@ implies named_slices_view(
            out@,
        ) == fs by {
            assert(fs.take(fs.len() as int) =~= fs);
        }
        let v = named_slices_view(out@);
        assert forall|j: int| 0 <= j < v.len() implies encode_utf8((#[trigger] v[j]).0).len()
            <= u32::MAX && v[j].1.len() <= u32::MAX by {
            assert(v[j] == (out@[j].0@, out@[j].1@));
        }
        assert(v.len() as u32 == count);
        assert(data@.subrange(0, at as int) == payload_bytes(v));
    }
    Ok(out)
}

/// The `(timestamp, value bits)` pairs of field `name`, from the points that carry it, in
/// their order.
pub open spec fn field_series(ps: Seq<DataPoint>, name: Seq<char>) -> Seq<(u64, u64)>
    decreases ps.len(),
{
    if ps.len() == 0 {
        seq![]
    } else {
        let rest = field_series(ps.drop_last(), name);
        let f = fields_map(ps.last().fields@);
        if f.contains_key(name) {
            rest.push((ps.last().timestamp, f[name]))
        } else {
            rest
        }
    }
}

/// Some point of `ps` carries field `name`.
pub open spec fn some_point_has(ps: Seq<DataPoint>, name: Seq<char>) -> bool {
    exists|i: int| 0 <= i < ps.len() && fields_map(#[trigger] ps[i].fields@).contains_key(name)
}

/// `name` is one of `names`.
pub open spec fn listed(names: Seq<String>, name: Seq<char>) -> bool {
    exists|j: int| 0 <= j < names.len() && #[trigger] names[j]@ == name
}

/// One of the first `k` fields is named `name`.
pub open spec fn named_before(fs: Seq<(String, u64)>, k: int, name: Seq<char>) -> bool {
    exists|m: int| 0 <= m < k && #[trigger] fs[m].0@ == name
}

fn contains_name(names: &Vec<String>, name: &String) -> (r: bool)
    ensures
        r == listed(names@, name@),
{
    let mut j: usize = 0;
    while j < names.len()
        invariant
            j <= names@.len(),
            forall|k: int| 0 <= k < j ==> #[trigger] names@[k]@ != name@,
        decreases names.len() - j,
    {
        if names[j] == *name {
            return true;
        }
        j = j + 1;
    }
    false
}

/// Splits the points of one series by field: one list per field that some point carries,
/// in order of first appearance, each holding the points that carry that field.
pub fn group_fields(points: &Vec<DataPoint>) -> (r: Vec<(String, Vec<(u64, u64)>)>)
    ensures
        forall|a: int, b: int| 0 <= a < b < r@.len() ==> #[trigger] r@[a].0@ != #[trigger] r@[b].0@,
        forall|j: int| 0 <= j < r@.len() ==> #[trigger] r@[j].1@ == field_series(points@, r@[j].0@),
        forall|name: Seq<char>|
            #[trigger] some_point_has(points@, name) <==> exists|j: int|
                0 <= j < r@.len() && #[trigger] r@[j].0@ == name,
{
    let mut names: Vec<String> = Vec::new();
    let mut i: usize = 0;
    while i < points.len()
        invariant
            i <= points@.len(),
            forall|a: int, b: int|
                0 <= a < b < names@.len() ==> #[trigger] names@[a]@ != #[trigger] names@[b]@,
            forall|name: Seq<char>|
                #[trigger] some_point_has(points@.take(i as int), name) <==> listed(names@, name),
        decreases points.len() - i,
    {
        let fs = &points[i].fields;
        let ghost pre = names@;
        let mut k: usize = 0;
        while k < fs.len()
            invariant
                i < points@.len(),
                fs == points@[i as int].fields,
                k <= fs@.len(),
                forall|a: int, b: int|
                    0 <= a < b < names@.len() ==> #[trigger] names@[a]@ != #[trigger] names@[b]@,
                forall|name: Seq<char>|
                    #[trigger] listed(names@, name) <==> (listed(pre, name) || named_before(
                        fs@,
                        k as int,
                        name,
                    )),
            decreases fs.len() - k,
        {
            let ghost before = names@;
            if !contains_name(&names, &fs[k].0) {
                names.push(fs[k].0.clone());
            }
            proof {
                assert forall|name: Seq<char>|
                    #[trigger] listed(names@, name) <==> (listed(pre, name) || named_before(
                        fs@,
                        k as int + 1,
                        name,
                    )) by {
                    if listed(names@, name) {
                        let j = choose|j: int| 0 <= j < names@.len() && #[trigger] names@[j]@ == name;
                        if j < before.len() {
                            assert(listed(before, name));
                            if named_before(fs@, k as int, name) {
                                let m = choose|m: int| 0 <= m < k && #[trigger] fs@[m].0@ == name;
                                assert(named_before(fs@, k as int + 1, name));
                            }
                        } else {
                            assert(fs@[k as int].0@ == name);
                            assert(named_before(fs@, k as int + 1, name));
                        }
                    }
                    if named_before(fs@, k as int + 1, name) {
                        let m = choose|m: int| 0 <= m < k + 1 && #[trigger] fs@[m].0@ == name;
                        if m < k {
                            assert(named_before(fs@, k as int, name));
                            assert(listed(before, name) || listed(pre, name));
                            if listed(before, name) {
                                let j = choose|j: int| 0 <= j < before.len() && #[trigger] before[j]@ == name;
                                assert(names@[j] == before[j]);
                            }
                        } else {
                            if listed(before, name) {
                                let j = choose|j: int| 0 <= j < before.len() && #[trigger] before[j]@ == name;
                                assert(names@[j] == before[j]);
                            } else {
                                assert(names@[before.len() as int]@ == name);
                            }
                        }
                    }
                    if listed(pre, name) {
                        assert(listed(before, name));
                        let j = choose|j: int| 0 <= j < before.len() && #[trigger] before[j]@ == name;
                        assert(names@[j] == before[j]);
                    }
                }
            }
            k = k + 1;
        }
        proof {
            assert forall|name: Seq<char>|
                #[trigger] some_point_has(points@.take(i as int + 1), name) <==> listed(
                    names@,
                    name,
                ) by {
                crate::types::lemma_fields_map_dom(points@[i as int].fields@, name);
                if named_before(fs@, fs@.len() as int, name) {
                    let m = choose|m: int| 0 <= m < fs@.len() && #[trigger] fs@[m].0@ == name;
                }
                crate::types::lemma_fields_map_dom(points@[i as int].fields@, name);
                let t = points@.take(i as int);
                let t1 = points@.take(i as int + 1);
                if some_point_has(t1, name) {
                    let m = choose|m: int|
                        0 <= m < t1.len() && fields_map(#[trigger] t1[m].fields@).contains_key(name);
                    if m < i {
                        assert(t[m] == t1[m]);
                        assert(some_point_has(t, name));
                    }
                }
                if some_point_has(t, name) {
                    let m = choose|m: int|
                        0 <= m < t.len() && fields_map(#[trigger] t[m].fields@).contains_key(name);
                    assert(t1[m] == t[m]);
                }
                if fields_map(points@[i as int].fields@).contains_key(name) {
                    assert(t1[i as int] == points@[i as int]);
                }
            }
        }
        i = i + 1;
    }
    assert(points@.take(points@.len() as int) =~= points@);
    let mut r: Vec<(String, Vec<(u64, u64)>)> = Vec::new();
    let mut j: usize = 0;
    while j < names.len()
        invariant
            j <= names@.len(),
            r@.len() == j,
            forall|m: int| 0 <= m < j ==> #[trigger] r@[m].0@ == names@[m]@,
            forall|m: int| 0 <= m < j ==> #[trigger] r@[m].1@ == field_series(points@, names@[m]@),
            forall|a: int, b: int|
                0 <= a < b < names@.len() ==> #[trigger] names@[a]@ != #[trigger] names@[b]@,
            forall|name: Seq<char>| #[trigger] some_point_has(points@, name) <==> listed(names@, name),
        decreases names.len() - j,
    {
        let name = &names[j];
        let mut series: Vec<(u64, u64)> = Vec::new();
        let mut q: usize = 0;
        while q < points.len()
            invariant
                q <= points@.len(),
                name@ == names@[j as int]@,
                series@ == field_series(points@.take(q as int), name@),
            decreases points.len() - q,
        {
            assert(points@.take(q as int + 1).drop_last() =~= points@.take(q as int));
            match lookup_field(&points[q].fields, name) {
                Some(v) => {
                    series.push((points[q].timestamp, v));
                },
                None => {},
            }
            q = q + 1;
        }
        assert(points@.take(points@.len() as int) =~= points@);
        r.push((name.clone(), series));
        j = j + 1;
    }
    proof {
        assert forall|name: Seq<char>|
            #[trigger] some_point_has(points@, name) <==> exists|j: int|
                0 <= j < r@.len() && #[trigger] r@[j].0@ == name by {
            if some_point_has(points@, name) {
                let j = choose|j: int| 0 <= j < names@.len() && #[trigger] names@[j]@ == name;
                assert(r@[j].0@ == name);
            }
            if exists|j: int| 0 <= j < r@.len() && #[trigger] r@[j].0@ == name {
                let j = choose|j: int| 0 <= j < r@.len() && #[trigger] r@[j].0@ == name;
                assert(names@[j]@ == name);
                assert(listed(names@, name));
            }
        }
    }
    r
}


/// One index entry: the key bytes, then the offset and length of the series' payload.
pub open spec fn index_entry_bytes(e: (Seq<u8>, u64, u64)) -> Seq<u8> {
    lp(e.0) + le64(e.1) + le64(e.2)
}

pub open spec fn index_bytes(es: Seq<(Seq<u8>, u64, u64)>) -> Seq<u8>
    decreases es.len(),
{
    if es.len() == 0 {
        seq![]
    } else {
        index_bytes(es.drop_last()) + index_entry_bytes(es.last())
    }
}

pub open spec fn payloads_bytes(ps: Seq<Seq<u8>>) -> Seq<u8>
    decreases ps.len(),
{
    if ps.len() == 0 {
        seq![]
    } else {
        payloads_bytes(ps.drop_last()) + ps.last()
    }
}

/// Bytes taken by the series count and the index entries of `keys`.
pub open spec fn index_size(keys: Seq<Seq<u8>>) -> nat
    decreases keys.len(),
{
    if keys.len() == 0 {
        4
    } else {
        index_size(keys.drop_last()) + 4 + keys.last().len() + 16
    }
}

/// The index entries that place each payload right after the index, one after another.
pub open spec fn placed(keys: Seq<Seq<u8>>, ps: Seq<Seq<u8>>) -> Seq<(Seq<u8>, u64, u64)> {
    Seq::new(
        keys.len(),
        |i: int|
            (
                keys[i],
                (index_size(keys) + payloads_bytes(ps.take(i)).len()) as u64,
                ps[i].len() as u64,
            ),
    )
}

/// A whole table file: series count, index, payloads.
pub open spec fn image_bytes(keys: Seq<Seq<u8>>, ps: Seq<Seq<u8>>) -> Seq<u8> {
    le32(keys.len() as u32) + index_bytes(placed(keys, ps)) + payloads_bytes(ps)
}

/// `data` is the table file laid out from the series keys `ks` and the payloads `ps`.
pub open spec fn image_of(data: Seq<u8>, ks: Seq<KeyView>, ps: Seq<Seq<u8>>) -> bool {
    &&& forall|i: int| 0 <= i < ks.len() ==> key_fits(#[trigger] ks[i])
    &&& image_fits(keys_bytes(ks), ps)
    &&& data == image_bytes(keys_bytes(ks), ps)
}

/// Every count, length and offset of the table fits its slot.
pub open spec fn image_fits(keys: Seq<Seq<u8>>, ps: Seq<Seq<u8>>) -> bool {
    &&& keys.len() == ps.len()
    &&& keys.len() <= u32::MAX
    &&& forall|i: int| 0 <= i < keys.len() ==> (#[trigger] keys[i]).len() <= u32::MAX
    &&& index_size(keys) + payloads_bytes(ps).len() <= u64::MAX
}

proof fn lemma_index_len(keys: Seq<Seq<u8>>, ps: Seq<Seq<u8>>, j: int)
    requires
        0 <= j <= keys.len(),
        keys.len() == ps.len(),
    ensures
        4 + index_bytes(placed(keys, ps).take(j)).len() == index_size(keys.take(j)),
    decreases j,
{
    if j > 0 {
        lemma_index_len(keys, ps, j - 1);
        assert(placed(keys, ps).take(j).drop_last() =~= placed(keys, ps).take(j - 1));
        assert(keys.take(j).drop_last() =~= keys.take(j - 1));
    } else {
        assert(keys.take(0) =~= Seq::<Seq<u8>>::empty());
    }
}

proof fn lemma_payloads_prefix(ps: Seq<Seq<u8>>, j: int)
    requires
        0 <= j <= ps.len(),
    ensures
        payloads_bytes(ps.take(j)).len() <= payloads_bytes(ps).len(),
        payloads_bytes(ps).subrange(0, payloads_bytes(ps.take(j)).len() as int) == payloads_bytes(
            ps.take(j),
        ),
    decreases ps.len(),
{
    if j == ps.len() {
        assert(ps.take(j) =~= ps);
        assert(payloads_bytes(ps).subrange(0, payloads_bytes(ps).len() as int) =~= payloads_bytes(
            ps,
        ));
    } else {
        let q = ps.drop_last();
        lemma_payloads_prefix(q, j);
        assert(q.take(j) =~= ps.take(j));
        assert(payloads_bytes(ps).subrange(0, payloads_bytes(ps.take(j)).len() as int)
            =~= payloads_bytes(q).subrange(0, payloads_bytes(ps.take(j)).len() as int));
    }
}

/// In a table file, each index entry points at its series' payload.
pub proof fn lemma_image_payload(keys: Seq<Seq<u8>>, ps: Seq<Seq<u8>>, i: int)
    requires
        image_fits(keys, ps),
        0 <= i < keys.len(),
    ensures
        ({
            let img = image_bytes(keys, ps);
            let e = placed(keys, ps)[i];
            &&& e.1 + e.2 <= img.len()
            &&& img.subrange(e.1 as int, e.1 + e.2) == ps[i]
        }),
{
    let img = image_bytes(keys, ps);
    let head = le32(keys.len() as u32) + index_bytes(placed(keys, ps));
    lemma_index_len(keys, ps, keys.len() as int);
    assert(placed(keys, ps).take(keys.len() as int) =~= placed(keys, ps));
    assert(keys.take(keys.len() as int) =~= keys);
    assert(head.len() == index_size(keys));
    let all = payloads_bytes(ps);
    lemma_payloads_prefix(ps, i + 1);
    lemma_payloads_prefix(ps, i);
    assert(ps.take(i + 1).drop_last() =~= ps.take(i));
    let a = payloads_bytes(ps.take(i));
    assert(payloads_bytes(ps.take(i + 1)) == a + ps[i]);
    let off = index_size(keys) + a.len();
    assert(off + ps[i].len() <= u64::MAX);
    assert(img.subrange(off as int, (off + ps[i].len()) as int) =~= all.subrange(
        a.len() as int,
        (a.len() + ps[i].len()) as int,
    ));
    assert(all.subrange(a.len() as int, (a.len() + ps[i].len()) as int) =~= (a + ps[i]).subrange(
        a.len() as int,
        (a.len() + ps[i].len()) as int,
    ));
}

/// Lays out a table file from the key bytes and the payload of each series.
pub fn build_image(keys: &Vec<Vec<u8>>, payloads: &Vec<Vec<u8>>) -> (r: Result<Vec<u8>, Error>)
    requires
        keys@.len() == payloads@.len(),
    ensures
        r is Ok <==> image_fits(keys@.map_values(|k: Vec<u8>| k@), payloads@.map_values(|p: Vec<u8>| p@)),
        r matches Ok(img) ==> img@ == image_bytes(
            keys@.map_values(|k: Vec<u8>| k@),
            payloads@.map_values(|p: Vec<u8>| p@),
        ),
{
    let ghost ks = keys@.map_values(|k: Vec<u8>| k@);
    let ghost ps = payloads@.map_values(|p: Vec<u8>| p@);
    if keys.len() > u32::MAX as usize {
        return Err(Error::DataError("too many series for one table".to_string()));
    }
    let mut index_len: u64 = 4;
    let mut i: usize = 0;
    while i < keys.len()
        invariant
            i <= keys@.len(),
            ks == keys@.map_values(|k: Vec<u8>| k@),
            index_len == index_size(ks.take(i as int)),
            forall|j: int| 0 <= j < i ==> (#[trigger] ks[j]).len() <= u32::MAX,
        decreases keys.len() - i,
    {
        assert(ks.take(i as int + 1).drop_last() =~= ks.take(i as int));
        let klen = keys[i].len();
        if klen > u32::MAX as usize || index_len > u64::MAX - 20 - klen as u64 {
            proof {
                assert(ks[i as int] == keys@[i as int]@);
                assert(ks.take(i as int + 1).last() == ks[i as int]);
                if klen <= u32::MAX {
                    lemma_index_size_grows(ks, i as int + 1);
                    assert(index_size(ks.take(i as int + 1)) == index_size(ks.take(i as int)) + 4
                        + ks[i as int].len() + 16);
                }
            }
            return Err(Error::DataError("table index too large".to_string()));
        }
        index_len = index_len + 20 + klen as u64;
        i = i + 1;
    }
    assert(ks.take(ks.len() as int) =~= ks);
    let mut total: u64 = index_len;
    let mut i: usize = 0;
    while i < payloads.len()
        invariant
            i <= payloads@.len(),
            ps == payloads@.map_values(|p: Vec<u8>| p@),
            ks == keys@.map_values(|k: Vec<u8>| k@),
            total == index_size(ks) + payloads_bytes(ps.take(i as int)).len(),
        decreases payloads.len() - i,
    {
        assert(ps.take(i as int + 1).drop_last() =~= ps.take(i as int));
        let plen = payloads[i].len();
        assert(ps[i as int] == payloads@[i as int]@);
        if total > u64::MAX - plen as u64 {
            proof {
                lemma_payloads_prefix(ps, i as int + 1);
                assert(ps.take(i as int + 1).last() == ps[i as int]);
                assert(payloads_bytes(ps.take(i as int + 1)) == payloads_bytes(ps.take(i as int))
                    + ps[i as int]);
                assert(payloads_bytes(ps.take(i as int + 1)).len() == payloads_bytes(
                    ps.take(i as int),
                ).len() + plen);
                assert(index_size(ks) + payloads_bytes(ps).len() > u64::MAX);
                assert(!image_fits(ks, ps));
            }
            return Err(Error::DataError("table too large".to_string()));
        }
        total = total + plen as u64;
        i = i + 1;
    }
    assert(ps.take(ps.len() as int) =~= ps);
    let ghost es = placed(ks, ps);
    let mut out: Vec<u8> = Vec::new();
    push_le32(&mut out, keys.len() as u32);
    let ghost head = out@;
    let mut offset: u64 = index_len;
    let mut i: usize = 0;
    while i < keys.len()
        invariant
            i <= keys@.len(),
            keys@.len() == payloads@.len(),
            ks == keys@.map_values(|k: Vec<u8>| k@),
            ps == payloads@.map_values(|p: Vec<u8>| p@),
            es == placed(ks, ps),
            image_fits(ks, ps),
            offset == index_size(ks) + payloads_bytes(ps.take(i as int)).len(),
            out@ == head + index_bytes(es.take(i as int)),
        decreases keys.len() - i,
    {
        assert(es.take(i as int + 1).drop_last() =~= es.take(i as int));
        assert(ps.take(i as int + 1).drop_last() =~= ps.take(i as int));
        proof {
            lemma_payloads_prefix(ps, i as int + 1);
        }
        let ok = push_lp(&mut out, keys[i].as_slice());
        push_le64(&mut out, offset);
        push_le64(&mut out, payloads[i].len() as u64);
        offset = offset + payloads[i].len() as u64;
        i = i + 1;
    }
    assert(es.take(es.len() as int) =~= es);
    let ghost mid = out@;
    let mut i: usize = 0;
    while i < payloads.len()
        invariant
            i <= payloads@.len(),
            ps == payloads@.map_values(|p: Vec<u8>| p@),
            out@ == mid + payloads_bytes(ps.take(i as int)),
        decreases payloads.len() - i,
    {
        assert(ps.take(i as int + 1).drop_last() =~= ps.take(i as int));
        let p = &payloads[i];
        let mut j: usize = 0;
        while j < p.len()
            invariant
                j <= p@.len(),
                out@ == mid + payloads_bytes(ps.take(i as int)) + p@.take(j as int),
            decreases p.len() - j,
        {
            out.push(p[j]);
            assert(p@.take(j as int + 1) =~= p@.take(j as int).push(p@[j as int]));
            j = j + 1;
        }
        assert(p@.take(p@.len() as int) =~= p@);
        assert(out@ =~= mid + payloads_bytes(ps.take(i as int + 1)));
        i = i + 1;
    }
    assert(ps.take(ps.len() as int) =~= ps);
    Ok(out)
}

proof fn lemma_index_size_grows(keys: Seq<Seq<u8>>, j: int)
    requires
        0 <= j <= keys.len(),
    ensures
        index_size(keys.take(j)) <= index_size(keys),
    decreases keys.len() - j,
{
    if j < keys.len() {
        lemma_index_size_grows(keys, j + 1);
        assert(keys.take(j + 1).drop_last() =~= keys.take(j));
    } else {
        assert(keys.take(j) =~= keys);
    }
}



proof fn lemma_index_prefix(t: Seq<(Seq<u8>, u64, u64)>, j: int)
    requires
        0 <= j <= t.len(),
    ensures
        index_bytes(t.take(j)).len() <= index_bytes(t).len(),
        index_bytes(t).subrange(0, index_bytes(t.take(j)).len() as int) == index_bytes(t.take(j)),
    decreases t.len(),
{
    if j == t.len() {
        assert(t.take(j) =~= t);
        assert(index_bytes(t).subrange(0, index_bytes(t).len() as int) =~= index_bytes(t));
    } else {
        let q = t.drop_last();
        lemma_index_prefix(q, j);
        assert(q.take(j) =~= t.take(j));
        assert(index_bytes(t).subrange(0, index_bytes(t.take(j)).len() as int) =~= index_bytes(
            q,
        ).subrange(0, index_bytes(t.take(j)).len() as int));
    }
}

proof fn lemma_index_advance(s: Seq<u8>, at: int, t: Seq<(Seq<u8>, u64, u64)>, i: int)
    requires
        0 <= i < t.len(),
        bytes_at(
            s,
            at,
            index_bytes(t).subrange(index_bytes(t.take(i)).len() as int, index_bytes(t).len() as int),
        ),
    ensures
        bytes_at(s, at, lp(t[i].0)),
        bytes_at(s, at + lp(t[i].0).len(), le64(t[i].1)),
        bytes_at(s, at + lp(t[i].0).len() + 8, le64(t[i].2)),
        bytes_at(
            s,
            at + lp(t[i].0).len() + 16,
            index_bytes(t).subrange(
                index_bytes(t.take(i + 1)).len() as int,
                index_bytes(t).len() as int,
            ),
        ),
{
    let e = index_entry_bytes(t[i]);
    assert(t.take(i + 1).drop_last() =~= t.take(i));
    let a = index_bytes(t.take(i));
    assert(index_bytes(t.take(i + 1)) =~= a + e);
    lemma_index_prefix(t, i + 1);
    crate::wal::lemma_rest_split(s, at, index_bytes(t), a, e);
    lemma_bytes_split(s, at, lp(t[i].0) + le64(t[i].1), le64(t[i].2));
    lemma_bytes_split(s, at, lp(t[i].0), le64(t[i].1));
}

/// Index entries as plain values.
pub open spec fn entries_view(v: Seq<(&[u8], u64, u64)>) -> Seq<(Seq<u8>, u64, u64)> {
    v.map_values(|e: (&[u8], u64, u64)| (e.0@, e.1, e.2))
}

/// The index entries fit their slots.
pub open spec fn index_fits(es: Seq<(Seq<u8>, u64, u64)>) -> bool {
    &&& es.len() <= u32::MAX
    &&& forall|i: int| 0 <= i < es.len() ==> (#[trigger] es[i]).0.len() <= u32::MAX
}

/// Reads the index at the head of a table file: the key bytes of each series with the offset
/// and length of its payload. A file that starts with some index gives that index back.
pub fn parse_index<'a>(data: &'a [u8]) -> (r: Result<Vec<(&'a [u8], u64, u64)>, Error>)
    ensures
        data@.len() < 4 ==> r is Err,
        r is Err ==> r matches Err(Error::DataError(_)),
        forall|es: Seq<(Seq<u8>, u64, u64)>|
            index_fits(es) && #[trigger] bytes_at(data@, 0, le32(es.len() as u32) + index_bytes(es))
                ==> (r matches Ok(v) && entries_view(v@) == es),
        r matches Ok(v) ==> v@.len() <= u32::MAX && bytes_at(
            data@,
            0,
            le32(v@.len() as u32) + index_bytes(entries_view(v@)),
        ),
{
    let n = data.len();
    proof {
        assert forall|es: Seq<(Seq<u8>, u64, u64)>|
            index_fits(es) && #[trigger] bytes_at(data@, 0, le32(es.len() as u32) + index_bytes(es))
                implies bytes_at(data@, 0, le32(es.len() as u32)) && bytes_at(
                data@,
                4,
                index_bytes(es).subrange(
                    index_bytes(es.take(0)).len() as int,
                    index_bytes(es).len() as int,
                ),
            ) by {
            lemma_bytes_split(data@, 0, le32(es.len() as u32), index_bytes(es));
            assert(es.take(0) =~= Seq::<(Seq<u8>, u64, u64)>::empty());
            assert(index_bytes(es).subrange(0, index_bytes(es).len() as int) =~= index_bytes(es));
        }
    }
    let cr = read_le32(data, 0);
    let count = match cr {
        Some(c) => c,
        None => {
            return Err(Error::DataError("table file too small".to_string()));
        },
    };
    let mut at: usize = 4;
    let mut out: Vec<(&'a [u8], u64, u64)> = Vec::new();
    let mut i: u32 = 0;
    proof {
        assert(index_bytes(entries_view(out@)) =~= Seq::<u8>::empty());
        assert(data@.subrange(0, 4) =~= le32(count) + index_bytes(entries_view(out@)));
    }
    while i < count
        invariant
            n == data@.len(),
            at <= n,
            i <= count,
            out@.len() == i,
            at == 4 + index_bytes(entries_view(out@)).len(),
            data@.subrange(0, at as int) == le32(count) + index_bytes(entries_view(out@)),
            forall|es: Seq<(Seq<u8>, u64, u64)>|
                index_fits(es) && #[trigger] bytes_at(
                    data@,
                    0,
                    le32(es.len() as u32) + index_bytes(es),
                ) ==> {
                    &&& count == es.len()
                    &&& entries_view(out@) == es.take(i as int)
                    &&& bytes_at(
                        data@,
                        at as int,
                        index_bytes(es).subrange(
                            index_bytes(es.take(i as int)).len() as int,
                            index_bytes(es).len() as int,
                        ),
                    )
                },
        decreases count - i,
    {
        proof {
            assert forall|es: Seq<(Seq<u8>, u64, u64)>|
                index_fits(es) && #[trigger] bytes_at(
                    data@,
                    0,
                    le32(es.len() as u32) + index_bytes(es),
                ) implies bytes_at(data@, at as int, lp(es[i as int].0)) by {
                lemma_index_advance(data@, at as int, es, i as int);
            }
        }
        let kr = read_lp(data, at);
        let (key, after_key) = match kr {
            Some(x) => x,
            None => {
                return Err(Error::DataError("table index ends early".to_string()));
            },
        };
        proof {
            assert forall|es: Seq<(Seq<u8>, u64, u64)>|
                index_fits(es) && #[trigger] bytes_at(
                    data@,
                    0,
                    le32(es.len() as u32) + index_bytes(es),
                ) implies bytes_at(data@, after_key as int, le64(es[i as int].1)) && bytes_at(
                data@,
                after_key + 8,
                le64(es[i as int].2),
            ) by {
                lemma_index_advance(data@, at as int, es, i as int);
            }
        }
        let or = read_le64(data, after_key);
        let offset = match or {
            Some(x) => x,
            None => {
                return Err(Error::DataError("table index ends early".to_string()));
            },
        };
        let lr = read_le64(data, after_key + 8);
        let length = match lr {
            Some(x) => x,
            None => {
                return Err(Error::DataError("table index ends early".to_string()));
            },
        };
        let ghost before = out@;
        out.push((key, offset, length));
        proof {
            let e = (key@, offset, length);
            assert(entries_view(out@) =~= entries_view(before).push(e));
            assert(entries_view(out@).drop_last() =~= entries_view(before));
            assert(index_bytes(entries_view(out@)) == index_bytes(entries_view(before))
                + index_entry_bytes(e));
            assert(data@.subrange(after_key as int, after_key + 8) == le64(offset));
            assert(data@.subrange(after_key + 8, after_key + 16) == le64(length));
            assert(data@.subrange(0, after_key + 16) =~= data@.subrange(0, at as int)
                + data@.subrange(at as int, after_key as int) + data@.subrange(
                after_key as int,
                after_key + 8,
            ) + data@.subrange(after_key + 8, after_key + 16));
            assert(data@.subrange(0, after_key + 16) =~= le32(count) + index_bytes(
                entries_view(out@),
            ));
            assert forall|es: Seq<(Seq<u8>, u64, u64)>|
                index_fits(es) && #[trigger] bytes_at(
                    data@,
                    0,
                    le32(es.len() as u32) + index_bytes(es),
                ) implies {
                &&& entries_view(out@) == es.take(i as int + 1)
                &&& bytes_at(
                    data@,
                    after_key + 16,
                    index_bytes(es).subrange(
                        index_bytes(es.take(i as int + 1)).len() as int,
                        index_bytes(es).len() as int,
                    ),
                )
            } by {
                lemma_index_advance(data@, at as int, es, i as int);
                assert(entries_view(out@) =~= entries_view(before).push(es[i as int]));
                assert(es.take(i as int + 1) =~= es.take(i as int).push(es[i as int]));
            }
        }
        at = after_key + 16;
        i = i + 1;
    }
    proof {
        assert forall|es: Seq<(Seq<u8>, u64, u64)>|
            index_fits(es) && #[trigger] bytes_at(data@, 0, le32(es.len() as u32) + index_bytes(es))
                implies entries_view(out@) == es by {
            assert(es.take(es.len() as int) =~= es);
        }
        assert(out@.len() as u32 == count);
    }
    Ok(out)
}


/// What a query keeps of one series' fields: those the filter asks for, each cut to the time
/// range, without the fields left empty.
pub open spec fn fields_result(
    fs: Seq<(Seq<char>, Seq<(u64, u64)>)>,
    filter: QueryFilter,
) -> Seq<(Seq<char>, Seq<(u64, u64)>)>
    decreases fs.len(),
{
    if fs.len() == 0 {
        seq![]
    } else {
        let rest = fields_result(fs.drop_last(), filter);
        let pts = in_range(fs.last().1, filter.time_range.0, filter.time_range.1);
        if filter.wants_field(fs.last().0) && pts.len() > 0 {
            rest.push((fs.last().0, pts))
        } else {
            rest
        }
    }
}

pub open spec fn field_points_view(fs: Seq<(String, Vec<(u64, u64)>)>) -> Seq<(Seq<char>, Seq<(u64, u64)>)> {
    fs.map_values(|f: (String, Vec<(u64, u64)>)| (f.0@, f.1@))
}

/// Each field name with its points.
pub open spec fn named_points(names: Seq<Seq<char>>, ms: Seq<Seq<(u64, u64)>>) -> Seq<
    (Seq<char>, Seq<(u64, u64)>),
> {
    Seq::new(names.len(), |j: int| (names[j], ms[j]))
}

/// Each field name with its block.
pub open spec fn named_blocks(names: Seq<Seq<char>>, blocks: Seq<Seq<u8>>) -> Seq<(Seq<char>, Seq<u8>)> {
    Seq::new(names.len(), |j: int| (names[j], blocks[j]))
}

/// `p` starts with a well-formed payload: a field count and that many named blocks.
pub open spec fn layout_ok(p: Seq<u8>) -> bool {
    exists|fs: Seq<(Seq<char>, Seq<u8>)>|
        payload_fits(fs) && #[trigger] bytes_at(p, 0, payload_bytes(fs))
}

/// The payload holds, for each field, a block of the points `ms[j]`.
pub open spec fn payload_of(
    payload: Seq<u8>,
    names: Seq<Seq<char>>,
    blocks: Seq<Seq<u8>>,
    ms: Seq<Seq<(u64, u64)>>,
) -> bool {
    &&& names.len() == blocks.len() == ms.len()
    &&& payload_fits(named_blocks(names, blocks))
    &&& payload == payload_bytes(named_blocks(names, blocks))
    &&& forall|j: int|
        0 <= j < ms.len() ==> crate::gorilla::dods_ok(#[trigger] ms[j])
            && crate::block::is_block_of(blocks[j], ms[j])
}

/// Answers a filter from the payload of one series. `None` where the payload or one of its
/// blocks cannot be decoded.
pub fn query_payload(payload: &[u8], filter: &QueryFilter) -> (r: Option<
    Vec<(String, Vec<(u64, u64)>)>,
>)
    ensures
        forall|names: Seq<Seq<char>>, blocks: Seq<Seq<u8>>, ms: Seq<Seq<(u64, u64)>>|
            #[trigger] payload_of(payload@, names, blocks, ms) ==> (r matches Some(v)
                && field_points_view(v@) == fields_result(
                named_points(names, ms),
                *filter,
            )),
        r matches Some(v) ==> forall|j: int| 0 <= j < v@.len() ==> (#[trigger] v@[j]).1@.len() > 0,
        r is Some ==> layout_ok(payload@),
{
    let fields = match decode_payload(payload) {
        Ok(f) => f,
        Err(_) => {
            proof {
                assert forall|names: Seq<Seq<char>>, blocks: Seq<Seq<u8>>, ms: Seq<Seq<(u64, u64)>>|
                    #[trigger] payload_of(payload@, names, blocks, ms) implies false by {
                    let fs = named_blocks(names, blocks);
                    assert(payload_bytes(fs) == payload@);
                }
            }
            return None;
        },
    };
    proof {
        let fs = named_slices_view(fields@);
        assert(bytes_at(payload@, 0, payload_bytes(fs)));
        assert(layout_ok(payload@));
    }
    let (start, end) = filter.time_range;
    let mut out: Vec<(String, Vec<(u64, u64)>)> = Vec::new();
    let mut i: usize = 0;
    while i < fields.len()
        invariant
            i <= fields@.len(),
            (start, end) == filter.time_range,
            forall|j: int| 0 <= j < out@.len() ==> (#[trigger] out@[j]).1@.len() > 0,
            forall|names: Seq<Seq<char>>, blocks: Seq<Seq<u8>>, ms: Seq<Seq<(u64, u64)>>|
                #[trigger] payload_of(payload@, names, blocks, ms) ==> {
                    &&& named_slices_view(fields@) == Seq::new(
                        names.len(),
                        |j: int| (names[j], blocks[j]),
                    )
                    &&& field_points_view(out@) == fields_result(
                        named_points(names, ms).take(i as int),
                        *filter,
                    )
                },
        decreases fields.len() - i,
    {
        let name = &fields[i].0;
        let block = fields[i].1;
        let ghost before = out@;
        proof {
            assert forall|names: Seq<Seq<char>>, blocks: Seq<Seq<u8>>, ms: Seq<Seq<(u64, u64)>>|
                #[trigger] payload_of(payload@, names, blocks, ms) implies crate::gorilla::dods_ok(
                ms[i as int],
            ) && crate::block::is_block_of(block@, ms[i as int]) && name@ == names[i as int] by {
                assert(named_slices_view(fields@)[i as int] == (names[i as int], blocks[i as int]));
            }
        }
        if filter.includes_field(name) {
            let decoded = match TimeSeriesBlock::decompress(block) {
                Ok(b) => b,
                Err(_) => {
                    proof {
                        assert forall|names: Seq<Seq<char>>, blocks: Seq<Seq<u8>>, ms: Seq<Seq<(u64, u64)>>|
                            #[trigger] payload_of(payload@, names, blocks, ms) implies false by {
                            assert(crate::block::is_block_of(block@, ms[i as int]));
                        }
                    }
                    return None;
                },
            };
            let pts = decoded.query(start, end);
            if pts.len() > 0 {
                out.push((name.clone(), pts));
            }
        }
        proof {
            assert forall|names: Seq<Seq<char>>, blocks: Seq<Seq<u8>>, ms: Seq<Seq<(u64, u64)>>|
                #[trigger] payload_of(payload@, names, blocks, ms) implies field_points_view(out@)
                == fields_result(
                named_points(names, ms).take(i as int + 1),
                *filter,
            ) by {
                let all = named_points(names, ms);
                assert(all.take(i as int + 1).drop_last() =~= all.take(i as int));
                assert(all.take(i as int + 1).last() == (names[i as int], ms[i as int]));
                assert(named_slices_view(fields@)[i as int] == (names[i as int], blocks[i as int]));
                if out@.len() > before.len() {
                    assert(field_points_view(out@) =~= field_points_view(before).push(
                        (out@.last().0@, out@.last().1@),
                    ));
                } else {
                    assert(field_points_view(out@) =~= field_points_view(before));
                }
            }
        }
        i = i + 1;
    }
    proof {
        assert forall|names: Seq<Seq<char>>, blocks: Seq<Seq<u8>>, ms: Seq<Seq<(u64, u64)>>|
            #[trigger] payload_of(payload@, names, blocks, ms) implies field_points_view(out@)
            == fields_result(named_points(names, ms), *filter) by {
            let all = named_points(names, ms);
            assert(named_slices_view(fields@).len() == names.len());
            assert(all.take(names.len() as int) =~= all);
        }
    }
    Some(out)
}


/// The payload `p` stores the points of one series: one block per field that some point
/// carries (names distinct), each a block of that field's points sorted by timestamp with
/// the last write of each timestamp kept.
pub open spec fn stored_as(
    points: Seq<DataPoint>,
    p: Seq<u8>,
    names: Seq<Seq<char>>,
    blocks: Seq<Seq<u8>>,
    ms: Seq<Seq<(u64, u64)>>,
) -> bool {
    &&& blocks_of(points, names, blocks, ms)
    &&& payload_fits(named_blocks(names, blocks))
    &&& p == payload_bytes(named_blocks(names, blocks))
}

/// `blocks[j]` is the block of field `names[j]` of the points: one field per name, each field
/// that some point carries, each block holding `ms[j]`, the field's points sorted by timestamp
/// with the last write of each timestamp kept.
pub open spec fn blocks_of(
    points: Seq<DataPoint>,
    names: Seq<Seq<char>>,
    blocks: Seq<Seq<u8>>,
    ms: Seq<Seq<(u64, u64)>>,
) -> bool {
    &&& names.len() == blocks.len() == ms.len()
    &&& forall|a: int, b: int| 0 <= a < b < names.len() ==> #[trigger] names[a] != #[trigger] names[b]
    &&& forall|name: Seq<char>|
        #[trigger] some_point_has(points, name) <==> exists|j: int|
            0 <= j < names.len() && #[trigger] names[j] == name
    &&& forall|j: int|
        0 <= j < ms.len() ==> crate::block::is_block_of(blocks[j], #[trigger] ms[j])
            && crate::points::is_merged(field_series(points, names[j]), ms[j])
}

/// The points of one series do not fit a payload: some field has more points than a
/// block's count can hold, or the blocks of the fields overflow the payload's length slots.
pub open spec fn series_too_large(points: Seq<DataPoint>) -> bool {
    ||| exists|name: Seq<char>|
        some_point_has(points, name) && #[trigger] field_series(points, name).len() > u32::MAX
    ||| exists|names: Seq<Seq<char>>, blocks: Seq<Seq<u8>>, ms: Seq<Seq<(u64, u64)>>|
        #[trigger] blocks_of(points, names, blocks, ms) && !payload_fits(
            named_blocks(names, blocks),
        )
}

pub open spec fn series_stored(points: Seq<DataPoint>, p: Seq<u8>) -> bool {
    exists|names: Seq<Seq<char>>, blocks: Seq<Seq<u8>>, ms: Seq<Seq<(u64, u64)>>|
        stored_as(points, p, names, blocks, ms)
}

/// A flushed series reads back: where every field's delta-of-deltas fit the stream, the
/// payload that a flush stored answers queries with the field's points.
pub proof fn lemma_stored_readable(
    points: Seq<DataPoint>,
    p: Seq<u8>,
    names: Seq<Seq<char>>,
    blocks: Seq<Seq<u8>>,
    ms: Seq<Seq<(u64, u64)>>,
)
    requires
        stored_as(points, p, names, blocks, ms),
        forall|j: int| 0 <= j < ms.len() ==> crate::gorilla::dods_ok(#[trigger] ms[j]),
    ensures
        payload_of(p, names, blocks, ms),
{
}

/// An immutable table of series: the index of a table file, whose bytes the caller keeps
/// (typically memory-mapped) and hands to `query`.
pub struct SSTable {
    series_index: Vec<(SeriesKey, u64, u64)>,
}

/// The bytes of each series key.
pub open spec fn keys_bytes(ks: Seq<KeyView>) -> Seq<Seq<u8>> {
    ks.map_values(|k: KeyView| series_key_bytes(k))
}

/// `data` starts with a series count and that many complete index entries.
pub open spec fn index_complete(data: Seq<u8>) -> bool {
    exists|es: Seq<(Seq<u8>, u64, u64)>|
        es.len() <= u32::MAX && #[trigger] bytes_at(data, 0, le32(es.len() as u32) + index_bytes(es))
}

/// The index of `t` was read from the head of `data`: a series count and that many
/// complete entries, whose offsets and lengths `t` holds.
pub open spec fn index_read_from(t: SSTable, data: Seq<u8>) -> bool {
    exists|es: Seq<(Seq<u8>, u64, u64)>|
        #[trigger] bytes_at(data, 0, le32(es.len() as u32) + index_bytes(es)) && es.len()
            <= u32::MAX && t.index().len() == es.len() && forall|i: int|
            0 <= i < es.len() ==> #[trigger] t.index()[i].1 == es[i].1 && t.index()[i].2
                == es[i].2
}

impl SSTable {
    /// Each series of the index with the offset and length of its payload.
    pub closed spec fn index(&self) -> Seq<(SeriesKey, u64, u64)> {
        self.series_index@
    }

    /// Reads the index of a table file. A file laid out from series keys and payloads gives
    /// those keys back, each with where its payload lies.
    pub fn open(data: &[u8]) -> (r: Result<SSTable, Error>)
        ensures
            data@.len() < 4 ==> r is Err,
            forall|ks: Seq<KeyView>, ps: Seq<Seq<u8>>|
                #[trigger] image_of(data@, ks, ps) ==> (r matches Ok(t) && t.index().len()
                    == ks.len() && forall|i: int|
                    0 <= i < ks.len() ==> key_view(#[trigger] t.index()[i].0) == ks[i]
                        && t.index()[i].1 == placed(keys_bytes(ks), ps)[i].1 && t.index()[i].2
                        == placed(keys_bytes(ks), ps)[i].2),
            r matches Ok(t) ==> index_read_from(t, data@),
            data@.len() < 4 ==> r matches Err(Error::DataError(_)),
            r is Err ==> (r matches Err(Error::DataError(_)) || r matches Err(
                Error::SerializationError(_),
            )),
            r matches Err(Error::SerializationError(_)) ==> index_complete(data@),
    {
        proof {
            assert forall|ks: Seq<KeyView>, ps: Seq<Seq<u8>>| #[trigger]
                image_of(data@, ks, ps) implies {
                let es = placed(keys_bytes(ks), ps);
                index_fits(es) && bytes_at(data@, 0, le32(es.len() as u32) + index_bytes(es))
            } by {
                let kbs = keys_bytes(ks);
                let es = placed(kbs, ps);
                let head = le32(es.len() as u32) + index_bytes(es);
                assert(data@ == head + payloads_bytes(ps));
                assert(data@.subrange(0, head.len() as int) =~= head);
                assert forall|i: int| 0 <= i < es.len() implies (#[trigger] es[i]).0.len()
                    <= u32::MAX by {
                    assert(es[i].0 == kbs[i]);
                }
            }
        }
        let entries = match parse_index(data) {
            Ok(e) => e,
            Err(e) => {
                return Err(e);
            },
        };
        proof {
            let es = entries_view(entries@);
            assert(index_complete(data@)) by {
                assert(bytes_at(data@, 0, le32(es.len() as u32) + index_bytes(es)));
            }
            assert(data@.len() >= 4);
        }
        proof {
            assert forall|ks: Seq<KeyView>, ps: Seq<Seq<u8>>| #[trigger]
                image_of(data@, ks, ps) implies entries_view(entries@) == placed(
                keys_bytes(ks),
                ps,
            ) by {
                let es = placed(keys_bytes(ks), ps);
                assert(bytes_at(data@, 0, le32(es.len() as u32) + index_bytes(es)));
            }
        }
        let mut index: Vec<(SeriesKey, u64, u64)> = Vec::new();
        let mut i: usize = 0;
        while i < entries.len()
            invariant
                index_complete(data@),
                data@.len() >= 4,
                i <= entries@.len(),
                index@.len() == i,
                forall|ks: Seq<KeyView>, ps: Seq<Seq<u8>>| #[trigger]
                    image_of(data@, ks, ps) ==> entries_view(entries@) == placed(
                        keys_bytes(ks),
                        ps,
                    ),
                forall|j: int|
                    0 <= j < i ==> (#[trigger] index@[j]).1 == entries@[j].1 && index@[j].2
                        == entries@[j].2,
                forall|j: int, k: KeyView|
                    0 <= j < i && key_fits(k) && #[trigger] series_key_bytes(k) == entries@[j].0@
                        ==> key_view(#[trigger] index@[j].0) == k,
            decreases entries.len() - i,
        {
            let (kb, off, len) = entries[i];
            proof {
                assert forall|ks: Seq<KeyView>, ps: Seq<Seq<u8>>| #[trigger]
                    image_of(data@, ks, ps) implies key_fits(ks[i as int]) && series_key_bytes(
                    ks[i as int],
                ) == kb@ by {
                    assert(entries_view(entries@)[i as int] == placed(keys_bytes(ks), ps)[i as int]);
                }
            }
            let key = match decode_series_key(kb) {
                Ok(k) => k,
                Err(e) => {
                    return Err(e);
                },
            };
            index.push((key, off, len));
            i = i + 1;
        }
        proof {
            assert forall|ks: Seq<KeyView>, ps: Seq<Seq<u8>>| #[trigger]
                image_of(data@, ks, ps) implies index@.len() == ks.len() && forall|i: int|
                0 <= i < ks.len() ==> key_view(#[trigger] index@[i].0) == ks[i] && index@[i].1
                    == placed(keys_bytes(ks), ps)[i].1 && index@[i].2 == placed(
                    keys_bytes(ks),
                    ps,
                )[i].2 by {
                let kbs = keys_bytes(ks);
                let es = placed(kbs, ps);
                assert forall|i: int| 0 <= i < ks.len() implies key_view(#[trigger] index@[i].0)
                    == ks[i] && index@[i].1 == es[i].1 && index@[i].2 == es[i].2 by {
                    assert(entries_view(entries@)[i] == es[i]);
                    assert(entries@[i].0@ == kbs[i]);
                }
            }
        }
        let t = SSTable { series_index: index };
        proof {
            let es = entries_view(entries@);
            assert(t.index().len() == es.len());
            assert forall|i: int| 0 <= i < es.len() implies #[trigger] t.index()[i].1 == es[i].1
                && t.index()[i].2 == es[i].2 by {}
            assert(index_read_from(t, data@));
        }
        Ok(t)
    }

    /// Whether the table may hold points in `[start, end]`; the file records no time bounds,
    /// so every table may.
    pub fn may_contain(&self, start: u64, end: u64) -> (r: bool)
        ensures
            r,
    {
        true
    }

    /// `key` is that of one of the first `upto` series of the index that `filter` selects.
    pub open spec fn from_selected(&self, filter: QueryFilter, key: SeriesKey, upto: int) -> bool {
        exists|j: int|
            0 <= j < upto && j < self.index().len() && filter.selects(&self.index()[j].0)
                && key_view(key) == key_view(#[trigger] self.index()[j].0)
    }

    /// The payload of series `i` holds, for each field, a block of the points `ms[j]`.
    pub open spec fn payload_at(
        &self,
        data: Seq<u8>,
        i: int,
        names: Seq<Seq<char>>,
        blocks: Seq<Seq<u8>>,
        ms: Seq<Seq<(u64, u64)>>,
    ) -> bool {
        payload_of(
            data.subrange(self.index()[i].1 as int, self.index()[i].1 + self.index()[i].2),
            names,
            blocks,
            ms,
        )
    }

    /// Series `i` of the index is one that `filter` selects, and its payload lies in `data`.
    pub open spec fn readable(&self, data: Seq<u8>, filter: QueryFilter, i: int) -> bool {
        &&& 0 <= i < self.index().len()
        &&& filter.selects(&self.index()[i].0)
        &&& self.index()[i].1 + self.index()[i].2 <= data.len()
    }

    /// `e` answers `filter` for series `i`: its key, and where the payload is well formed, the
    /// fields that the filter keeps from it.
    pub open spec fn entry_for(
        &self,
        data: Seq<u8>,
        filter: QueryFilter,
        i: int,
        e: (SeriesKey, Vec<(String, Vec<(u64, u64)>)>),
    ) -> bool {
        &&& self.readable(data, filter, i)
        &&& key_view(e.0) == key_view(self.index()[i].0)
        &&& e.1@.len() > 0
        &&& forall|f: int| 0 <= f < e.1@.len() ==> (#[trigger] e.1@[f]).1@.len() > 0
        &&& layout_ok(
            data.subrange(self.index()[i].1 as int, self.index()[i].1 + self.index()[i].2),
        )
        &&& forall|names: Seq<Seq<char>>, blocks: Seq<Seq<u8>>, ms: Seq<Seq<(u64, u64)>>|
            #[trigger] self.payload_at(data, i, names, blocks, ms) ==> field_points_view(e.1@)
                == fields_result(named_points(names, ms), filter)
    }

    /// `v` answers `filter` over the first `upto` series: entry `k` answers for series
    /// `idx[k]`, in index order, one entry per series; and every readable series whose
    /// payload is well formed and keeps some field has its entry.
    pub open spec fn answer_upto(
        &self,
        data: Seq<u8>,
        filter: QueryFilter,
        v: Seq<(SeriesKey, Vec<(String, Vec<(u64, u64)>)>)>,
        idx: Seq<int>,
        upto: int,
    ) -> bool {
        &&& idx.len() == v.len()
        &&& forall|a: int, b: int| 0 <= a < b < idx.len() ==> #[trigger] idx[a] < #[trigger] idx[b]
        &&& forall|k: int|
            #![trigger v[k]]
            #![trigger idx[k]]
            0 <= k < v.len() ==> (0 <= idx[k] && idx[k] < upto) && self.entry_for(
                data,
                filter,
                idx[k],
                v[k],
            )
        &&& forall|i: int, names: Seq<Seq<char>>, blocks: Seq<Seq<u8>>, ms: Seq<Seq<(u64, u64)>>|
            0 <= i < upto && self.readable(data, filter, i) && #[trigger] self.payload_at(
                data,
                i,
                names,
                blocks,
                ms,
            ) && fields_result(named_points(names, ms), filter).len()
                > 0 ==> exists|k: int| 0 <= k < idx.len() && #[trigger] idx[k] == i
    }

    /// `v` answers `filter` over the whole index (see `answer_upto`).
    pub open spec fn answers(
        &self,
        data: Seq<u8>,
        filter: QueryFilter,
        v: Seq<(SeriesKey, Vec<(String, Vec<(u64, u64)>)>)>,
    ) -> bool {
        exists|idx: Seq<int>| #[trigger] self.answer_upto(data, filter, v, idx, self.index().len() as int)
    }

    proof fn lemma_answer_push(
        &self,
        data: Seq<u8>,
        filter: QueryFilter,
        v: Seq<(SeriesKey, Vec<(String, Vec<(u64, u64)>)>)>,
        idx: Seq<int>,
        i: int,
        e: (SeriesKey, Vec<(String, Vec<(u64, u64)>)>),
    )
        requires
            self.answer_upto(data, filter, v, idx, i),
            self.entry_for(data, filter, i, e),
        ensures
            self.answer_upto(data, filter, v.push(e), idx.push(i), i + 1),
    {
        let v2 = v.push(e);
        let idx2 = idx.push(i);
        assert forall|k: int| 0 <= k < v2.len() implies (0 <= idx2[k] && idx2[k] < i + 1)
            && self.entry_for(data, filter, idx2[k], #[trigger] v2[k]) by {
            if k < v.len() {
                assert(v2[k] == v[k] && idx2[k] == idx[k]);
                assert(self.entry_for(data, filter, idx[k], v[k]));
            }
        }
        assert forall|a: int, b: int| 0 <= a < b < idx2.len() implies #[trigger] idx2[a]
            < #[trigger] idx2[b] by {
            if b < idx.len() {
                assert(idx2[a] == idx[a] && idx2[b] == idx[b]);
            } else {
                assert(self.entry_for(data, filter, idx[a], v[a]));
            }
        }
        assert forall|j: int, names: Seq<Seq<char>>, blocks: Seq<Seq<u8>>, ms: Seq<Seq<(u64, u64)>>|
            0 <= j < i + 1 && self.readable(data, filter, j) && #[trigger] self.payload_at(
                data,
                j,
                names,
                blocks,
                ms,
            ) && fields_result(named_points(names, ms), filter).len() > 0 implies exists|k: int|
            0 <= k < idx2.len() && #[trigger] idx2[k] == j by {
            if j < i {
                let k = choose|k: int| 0 <= k < idx.len() && #[trigger] idx[k] == j;
                assert(idx2[k] == idx[k]);
            } else {
                assert(idx2[idx.len() as int] == j);
            }
        }
    }

    proof fn lemma_answer_skip(
        &self,
        data: Seq<u8>,
        filter: QueryFilter,
        v: Seq<(SeriesKey, Vec<(String, Vec<(u64, u64)>)>)>,
        idx: Seq<int>,
        i: int,
    )
        requires
            self.answer_upto(data, filter, v, idx, i),
            forall|names: Seq<Seq<char>>, blocks: Seq<Seq<u8>>, ms: Seq<Seq<(u64, u64)>>|
                self.readable(data, filter, i) && #[trigger] self.payload_at(
                    data,
                    i,
                    names,
                    blocks,
                    ms,
                ) ==> fields_result(named_points(names, ms), filter).len() == 0,
        ensures
            self.answer_upto(data, filter, v, idx, i + 1),
    {
        assert forall|k: int| 0 <= k < v.len() implies (0 <= idx[k] && idx[k] < i + 1)
            && self.entry_for(data, filter, idx[k], #[trigger] v[k]) by {
            assert(0 <= k < v.len());
            assert((0 <= idx[k] && idx[k] < i));
            assert(self.entry_for(data, filter, idx[k], v[k]));
        }
    }

    /// The points of the series that `filter` selects, field by field, within its time range:
    /// one entry per selected series that keeps some field, in index order. A series whose
    /// payload lies outside `data` or cannot be decoded is skipped; the rest is returned.
    pub fn query(&self, data: &[u8], filter: &QueryFilter) -> (r: Result<
        Vec<(SeriesKey, Vec<(String, Vec<(u64, u64)>)>)>,
        Error,
    >)
        ensures
            r is Ok,
            r matches Ok(v) ==> self.answers(data@, *filter, v@),
    {
        let n = data.len();
        let mut out: Vec<(SeriesKey, Vec<(String, Vec<(u64, u64)>)>)> = Vec::new();
        let ghost mut idx: Seq<int> = Seq::empty();
        let mut i: usize = 0;
        while i < self.series_index.len()
            invariant
                n == data@.len(),
                i <= self.index().len(),
                self.answer_upto(data@, *filter, out@, idx, i as int),
            decreases self.index().len() - i,
        {
            let key = &self.series_index[i].0;
            let off = self.series_index[i].1;
            let len = self.series_index[i].2;
            let ghost before = out@;
            let ghost idx0 = idx;
            let selected = filter.matches_series(key);
            if selected && off <= n as u64 && len <= n as u64 - off {
                let payload = slice_subrange(data, off as usize, (off + len) as usize);
                let res = query_payload(payload, filter);
                proof {
                    assert forall|
                        names: Seq<Seq<char>>,
                        blocks: Seq<Seq<u8>>,
                        ms: Seq<Seq<(u64, u64)>>,
                    | #[trigger] self.payload_at(data@, i as int, names, blocks, ms) implies res
                        is Some && field_points_view(res->Some_0@) == fields_result(
                        named_points(names, ms),
                        *filter,
                    ) by {
                        assert(payload@ == data@.subrange(off as int, off + len));
                        assert(payload_of(payload@, names, blocks, ms));
                    }
                    assert(self.readable(data@, *filter, i as int));
                }
                match res {
                    Some(fields) => {
                        if fields.len() > 0 {
                            let ghost fv = field_points_view(fields@);
                            out.push((key_clone(key), fields));
                            proof {
                                idx = idx.push(i as int);
                                let e = out@[out@.len() - 1];
                                assert(field_points_view(e.1@) == fv);
                                assert forall|
                                    names: Seq<Seq<char>>,
                                    blocks: Seq<Seq<u8>>,
                                    ms: Seq<Seq<(u64, u64)>>,
                                | #[trigger] self.payload_at(data@, i as int, names, blocks, ms)
                                    implies field_points_view(e.1@) == fields_result(
                                    named_points(names, ms),
                                    *filter,
                                ) by {}
                                assert(self.entry_for(data@, *filter, i as int, e));
                            }
                        }
                    },
                    None => {},
                }
            }
            proof {
                if out@.len() > before.len() {
                    self.lemma_answer_push(data@, *filter, before, idx0, i as int, out@[out@.len() - 1]);
                    assert(out@ == before.push(out@[out@.len() - 1]));
                } else {
                    assert forall|
                        names: Seq<Seq<char>>,
                        blocks: Seq<Seq<u8>>,
                        ms: Seq<Seq<(u64, u64)>>,
                    |
                        self.readable(data@, *filter, i as int) && #[trigger] self.payload_at(
                            data@,
                            i as int,
                            names,
                            blocks,
                            ms,
                        ) implies fields_result(named_points(names, ms), *filter).len() == 0 by {}
                    self.lemma_answer_skip(data@, *filter, before, idx0, i as int);
                }
            }
            i = i + 1;
        }
        proof {
            assert(self.answer_upto(data@, *filter, out@, idx, self.index().len() as int));
            assert(self.answers(data@, *filter, out@));
        }
        Ok(out)
    }
}

/// `v` holds the series `key` with the fields `fs`.
pub open spec fn holds_series(
    v: Seq<(SeriesKey, Vec<(String, Vec<(u64, u64)>)>)>,
    key: SeriesKey,
    fs: Seq<(Seq<char>, Seq<(u64, u64)>)>,
) -> bool {
    exists|k: int|
        0 <= k < v.len() && key_view(#[trigger] v[k].0) == key_view(key) && field_points_view(
            v[k].1@,
        ) == fs
}

/// A copy of a series key.
pub fn key_clone(key: &SeriesKey) -> (r: SeriesKey)
    ensures
        key_view(r) == key_view(*key),
        r.tag_map() == key.tag_map(),
        r.measurement@ == key.measurement@,
{
    let mut tags: Vec<(String, String)> = Vec::new();
    let mut i: usize = 0;
    while i < key.tags.len()
        invariant
            i <= key.tags@.len(),
            crate::types::pairs_view(tags@) == crate::types::pairs_view(key.tags@.take(i as int)),
        decreases key.tags.len() - i,
    {
        let ghost before = tags@;
        let k = key.tags[i].0.clone();
        let v = key.tags[i].1.clone();
        tags.push((k, v));
        assert(key.tags@.take(i as int + 1) =~= key.tags@.take(i as int).push(key.tags@[i as int]));
        assert(crate::types::pairs_view(tags@) =~= crate::types::pairs_view(before).push(
            (key.tags@[i as int].0@, key.tags@[i as int].1@),
        ));
        assert(crate::types::pairs_view(key.tags@.take(i as int + 1)) =~= crate::types::pairs_view(
            key.tags@.take(i as int),
        ).push((key.tags@[i as int].0@, key.tags@[i as int].1@)));
        i = i + 1;
    }
    assert(key.tags@.take(key.tags@.len() as int) =~= key.tags@);
    let r = SeriesKey { measurement: key.measurement.clone(), tags };
    proof {
        crate::types::lemma_pairs_map_views(r.tags@, key.tags@);
    }
    r
}


/// The payload that stores the points of one series: one compressed block per field, each
/// sorted by timestamp with the last write of each timestamp kept. Fails only where the
/// series does not fit a payload.
pub fn series_payload(points: &Vec<DataPoint>) -> (r: Result<Vec<u8>, Error>)
    ensures
        r matches Ok(p) ==> series_stored(points@, p@),
        r is Err ==> series_too_large(points@),
{
    let groups = group_fields(points);
    let mut fields: Vec<(String, Vec<u8>)> = Vec::new();
    let ghost mut ms: Seq<Seq<(u64, u64)>> = Seq::empty();
    let mut j: usize = 0;
    while j < groups.len()
        invariant
            j <= groups@.len(),
            fields@.len() == j,
            ms.len() == j,
            forall|q: int| 0 <= q < j ==> (#[trigger] fields@[q]).0@ == groups@[q].0@,
            forall|q: int|
                0 <= q < j ==> crate::block::is_block_of((#[trigger] fields@[q]).1@, ms[q])
                    && crate::points::is_merged(field_series(points@, groups@[q].0@), ms[q]),
            forall|q: int| 0 <= q < groups@.len() ==> #[trigger] groups@[q].1@ == field_series(points@, groups@[q].0@),
            forall|name: Seq<char>|
                #[trigger] some_point_has(points@, name) <==> exists|q: int|
                    0 <= q < groups@.len() && #[trigger] groups@[q].0@ == name,
        decreases groups.len() - j,
    {
        if groups[j].1.len() > u32::MAX as usize {
            proof {
                let name = groups@[j as int].0@;
                assert(some_point_has(points@, name));
                assert(field_series(points@, name).len() > u32::MAX);
            }
            return Err(Error::DataError("too many points in one field".to_string()));
        }
        let merged = sort_dedup_last(&groups[j].1);
        let mut block = TimeSeriesBlock::new();
        block.add_points(merged.as_slice());
        assert(block@ =~= merged@);
        let compressed = block.compress();
        proof {
            crate::points::lemma_sorted_sort_by_ts(merged@);
        }
        fields.push((groups[j].0.clone(), compressed));
        proof {
            ms = ms.push(merged@);
        }
        j = j + 1;
    }
    let ghost names = Seq::new(groups@.len(), |q: int| groups@[q].0@);
    let ghost blocks = Seq::new(groups@.len(), |q: int| fields@[q].1@);
    proof {
        assert(named_blocks_view(fields@) =~= named_blocks(names, blocks));
        assert forall|name: Seq<char>|
            #[trigger] some_point_has(points@, name) <==> exists|q: int|
                0 <= q < names.len() && #[trigger] names[q] == name by {
            if some_point_has(points@, name) {
                let q = choose|q: int| 0 <= q < groups@.len() && #[trigger] groups@[q].0@ == name;
                assert(names[q] == name);
            }
            if exists|q: int| 0 <= q < names.len() && #[trigger] names[q] == name {
                let q = choose|q: int| 0 <= q < names.len() && #[trigger] names[q] == name;
                assert(groups@[q].0@ == name);
            }
        }
        assert forall|a: int, b: int| 0 <= a < b < names.len() implies #[trigger] names[a]
            != #[trigger] names[b] by {
            assert(groups@[a].0@ != groups@[b].0@);
        }
        assert forall|q: int| 0 <= q < ms.len() implies crate::block::is_block_of(
            blocks[q],
            #[trigger] ms[q],
        ) && crate::points::is_merged(field_series(points@, names[q]), ms[q]) by {
            assert(fields@[q].1@ == blocks[q]);
        }
        assert(blocks_of(points@, names, blocks, ms));
    }
    let payload = match encode_payload(&fields) {
        Ok(p) => p,
        Err(e) => {
            return Err(e);
        },
    };
    proof {
        assert(stored_as(points@, payload@, names, blocks, ms));
    }
    Ok(payload)
}

/// The key of each series of a snapshot, as plain values.
pub open spec fn snapshot_keys(snapshot: Seq<(SeriesKey, Vec<DataPoint>)>) -> Seq<KeyView> {
    snapshot.map_values(|e: (SeriesKey, Vec<DataPoint>)| key_view(e.0))
}

/// `ps` holds, for each series of `snapshot`, a payload that stores its points.
pub open spec fn stored_payloads(snapshot: Seq<(SeriesKey, Vec<DataPoint>)>, ps: Seq<Seq<u8>>) -> bool {
    &&& ps.len() == snapshot.len()
    &&& forall|i: int| 0 <= i < ps.len() ==> series_stored(snapshot[i].1@, #[trigger] ps[i])
}

/// A snapshot does not fit a table file: a series key or a series' points do not fit their
/// slots, or the stored payloads overflow the file's offsets.
pub open spec fn snapshot_too_large(snapshot: Seq<(SeriesKey, Vec<DataPoint>)>) -> bool {
    ||| exists|i: int| 0 <= i < snapshot.len() && !key_fits(#[trigger] snapshot_keys(snapshot)[i])
    ||| exists|i: int| 0 <= i < snapshot.len() && series_too_large(#[trigger] snapshot[i].1@)
    ||| exists|ps: Seq<Seq<u8>>|
        #[trigger] stored_payloads(snapshot, ps) && !image_fits(keys_bytes(snapshot_keys(snapshot)), ps)
}

/// `img` is the table file of `snapshot`, with payloads `ps` that store each series' points,
/// and `t` is its index.
pub open spec fn created(
    snapshot: Seq<(SeriesKey, Vec<DataPoint>)>,
    img: Seq<u8>,
    t: SSTable,
    ps: Seq<Seq<u8>>,
) -> bool {
    &&& image_of(img, snapshot_keys(snapshot), ps)
    &&& forall|i: int| 0 <= i < ps.len() ==> series_stored(snapshot[i].1@, #[trigger] ps[i])
    &&& t.index().len() == snapshot.len()
    &&& forall|i: int|
        0 <= i < snapshot.len() ==> key_view(#[trigger] t.index()[i].0) == key_view(snapshot[i].0)
            && t.index()[i].1 == placed(keys_bytes(snapshot_keys(snapshot)), ps)[i].1
            && t.index()[i].2 == placed(keys_bytes(snapshot_keys(snapshot)), ps)[i].2
}

/// `img` is the table file of `snapshot` with some payloads that store each series' points,
/// and `t` is its index.
pub open spec fn created_from(snapshot: Seq<(SeriesKey, Vec<DataPoint>)>, img: Seq<u8>, t: SSTable) -> bool {
    exists|ps: Seq<Seq<u8>>| #[trigger] created(snapshot, img, t, ps)
}

impl SSTable {
    /// Lays out a table file for a snapshot of series: the file's bytes, to be written out,
    /// and its index. Each series' payload stores its points field by field.
    pub fn create(data_by_series: &Vec<(SeriesKey, Vec<DataPoint>)>) -> (r: Result<
        (Vec<u8>, SSTable),
        Error,
    >)
        ensures
            r matches Ok(out) ==> created_from(data_by_series@, out.0@, out.1),
            r is Err ==> snapshot_too_large(data_by_series@),
    {
        let ghost ks = snapshot_keys(data_by_series@);
        let mut keys: Vec<Vec<u8>> = Vec::new();
        let mut payloads: Vec<Vec<u8>> = Vec::new();
        let mut i: usize = 0;
        while i < data_by_series.len()
            invariant
                i <= data_by_series@.len(),
                ks == snapshot_keys(data_by_series@),
                keys@.len() == i,
                payloads@.len() == i,
                forall|q: int| 0 <= q < i ==> key_fits(#[trigger] ks[q]),
                forall|q: int| 0 <= q < i ==> (#[trigger] keys@[q])@ == series_key_bytes(ks[q]),
                forall|q: int|
                    0 <= q < i ==> series_stored(data_by_series@[q].1@, (#[trigger] payloads@[q])@),
            decreases data_by_series.len() - i,
        {
            let kb = match encode_series_key(&data_by_series[i].0) {
                Ok(b) => b,
                Err(e) => {
                    proof {
                        assert(ks[i as int] == key_view(data_by_series@[i as int].0));
                        assert(!key_fits(ks[i as int]));
                    }
                    return Err(e);
                },
            };
            let p = match series_payload(&data_by_series[i].1) {
                Ok(p) => p,
                Err(e) => {
                    proof {
                        assert(series_too_large(data_by_series@[i as int].1@));
                    }
                    return Err(e);
                },
            };
            keys.push(kb);
            payloads.push(p);
            assert(ks[i as int] == key_view(data_by_series@[i as int].0));
            i = i + 1;
        }
        let ghost ps = payloads@.map_values(|p: Vec<u8>| p@);
        proof {
            assert(keys@.map_values(|k: Vec<u8>| k@) =~= keys_bytes(ks));
            assert forall|q: int| 0 <= q < ps.len() implies series_stored(
                data_by_series@[q].1@,
                #[trigger] ps[q],
            ) by {
                assert(ps[q] == payloads@[q]@);
            }
        }
        let img = match build_image(&keys, &payloads) {
            Ok(img) => img,
            Err(e) => {
                proof {
                    assert(stored_payloads(data_by_series@, ps) && !image_fits(keys_bytes(ks), ps));
                }
                return Err(e);
            },
        };
        proof {
            assert(keys@.map_values(|k: Vec<u8>| k@) =~= keys_bytes(ks));
            assert(image_of(img@, ks, ps));
        }
        let t = SSTable::open(img.as_slice())?;
        proof {
            assert forall|q: int| 0 <= q < ps.len() implies series_stored(
                data_by_series@[q].1@,
                #[trigger] ps[q],
            ) by {
                assert(ps[q] == payloads@[q]@);
            }
            assert(ks.len() == data_by_series@.len());
            assert(t.index().len() == data_by_series@.len());
            assert forall|q: int| 0 <= q < data_by_series@.len() implies key_view(
                #[trigger] t.index()[q].0,
            ) == key_view(data_by_series@[q].0) && t.index()[q].1 == placed(
                keys_bytes(snapshot_keys(data_by_series@)),
                ps,
            )[q].1 && t.index()[q].2 == placed(
                keys_bytes(snapshot_keys(data_by_series@)),
                ps,
            )[q].2 by {
                assert(ks[q] == key_view(data_by_series@[q].0));
            }
            assert(created(data_by_series@, img@, t, ps));
        }
        let out = (img, t);
        assert(created(data_by_series@, out.0@, out.1, ps));
        assert(created_from(data_by_series@, out.0@, out.1));
        Ok(out)
    }
}

} // verus!
