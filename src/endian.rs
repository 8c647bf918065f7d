use vstd::prelude::*;
use vstd::bytes::{
    spec_u32_to_le_bytes, spec_u64_to_le_bytes, u32_from_le_bytes, u32_to_le_bytes,
    u64_from_le_bytes, u64_to_le_bytes,
};
use vstd::slice::slice_subrange;

verus! {

/// Big-endian bytes of a `u32`.
pub open spec fn be32(x: u32) -> Seq<u8> {
    spec_u32_to_le_bytes(x).reverse()
}

/// Big-endian bytes of a `u64`.
pub open spec fn be64(x: u64) -> Seq<u8> {
    spec_u64_to_le_bytes(x).reverse()
}

pub broadcast proof fn lemma_be32_len(x: u32)
    ensures
        #[trigger] be32(x).len() == 4,
{
    vstd::bytes::lemma_auto_spec_u32_to_from_le_bytes();
}

pub broadcast proof fn lemma_be64_len(x: u64)
    ensures
        #[trigger] be64(x).len() == 8,
{
    vstd::bytes::lemma_auto_spec_u64_to_from_le_bytes();
}

/// `p` stands in `s` from position `pos` on.
pub open spec fn bytes_at(s: Seq<u8>, pos: int, p: Seq<u8>) -> bool {
    &&& 0 <= pos
    &&& pos + p.len() <= s.len()
    &&& s.subrange(pos, pos + p.len()) == p
}

pub proof fn lemma_bytes_split(s: Seq<u8>, pos: int, a: Seq<u8>, b: Seq<u8>)
    requires
        bytes_at(s, pos, a + b),
    ensures
        bytes_at(s, pos, a),
        bytes_at(s, pos + a.len(), b),
{
    let w = s.subrange(pos, pos + a.len() + b.len());
    assert(w =~= a + b);
    assert(s.subrange(pos, pos + a.len()) =~= w.subrange(0, a.len() as int));
    assert(w.subrange(0, a.len() as int) =~= a);
    assert(s.subrange(pos + a.len(), pos + a.len() + b.len()) =~= w.subrange(
        a.len() as int,
        (a.len() + b.len()) as int,
    ));
    assert(w.subrange(a.len() as int, (a.len() + b.len()) as int) =~= b);
}

pub fn push_be32(out: &mut Vec<u8>, x: u32)
    ensures
        final(out)@ == old(out)@ + be32(x),
{
    let le = u32_to_le_bytes(x);
    out.push(le[3]);
    out.push(le[2]);
    out.push(le[1]);
    out.push(le[0]);
    assert(final(out)@ =~= old(out)@ + be32(x));
}

pub fn push_be64(out: &mut Vec<u8>, x: u64)
    ensures
        final(out)@ == old(out)@ + be64(x),
{
    let le = u64_to_le_bytes(x);
    let mut i: usize = 8;
    while i > 0
        invariant
            i <= 8,
            le@.len() == 8,
            le@ == spec_u64_to_le_bytes(x),
            out@ == old(out)@ + spec_u64_to_le_bytes(x).reverse().take(8 - i),
        decreases i,
    {
        out.push(le[i - 1]);
        assert(spec_u64_to_le_bytes(x).reverse().take(8 - i + 1) =~= spec_u64_to_le_bytes(
            x,
        ).reverse().take(8 - i).push(le@[i - 1]));
        i = i - 1;
    }
    assert(spec_u64_to_le_bytes(x).reverse().take(8) =~= be64(x));
}

pub fn read_be32(data: &[u8], pos: usize) -> (r: Option<u32>)
    ensures
        r is Some <==> pos + 4 <= data@.len(),
        forall|x: u32| #[trigger] bytes_at(data@, pos as int, be32(x)) ==> r == Some(x),
{
    proof {
        vstd::bytes::lemma_auto_spec_u32_to_from_le_bytes();
    }
    if pos > data.len() || data.len() - pos < 4 {
        return None;
    }
    let mut le: Vec<u8> = Vec::new();
    le.push(data[pos + 3]);
    le.push(data[pos + 2]);
    le.push(data[pos + 1]);
    le.push(data[pos]);
    let x = u32_from_le_bytes(le.as_slice());
    proof {
        vstd::bytes::lemma_auto_spec_u32_to_from_le_bytes();
        assert forall|y: u32| #[trigger] bytes_at(data@, pos as int, be32(y)) implies x == y by {
            assert(data@.subrange(pos as int, pos + 4) == be32(y));
            assert(le@ =~= be32(y).reverse());
            assert(be32(y).reverse() =~= spec_u32_to_le_bytes(y));
        }
    }
    Some(x)
}

pub fn read_be64(data: &[u8], pos: usize) -> (r: Option<u64>)
    ensures
        r is Some <==> pos + 8 <= data@.len(),
        forall|x: u64| #[trigger] bytes_at(data@, pos as int, be64(x)) ==> r == Some(x),
{
    proof {
        vstd::bytes::lemma_auto_spec_u64_to_from_le_bytes();
    }
    let n = data.len();
    if pos > data.len() || data.len() - pos < 8 {
        return None;
    }
    let mut le: Vec<u8> = Vec::new();
    let mut i: usize = 8;
    while i > 0
        invariant
            i <= 8,
            n == data@.len(),
            pos + 8 <= data@.len(),
            le@ == data@.subrange(pos as int, pos + 8).reverse().take(8 - i),
        decreases i,
    {
        le.push(data[pos + (i - 1)]);
        assert(data@.subrange(pos as int, pos + 8).reverse().take(8 - i + 1) =~= data@.subrange(
            pos as int,
            pos + 8,
        ).reverse().take(8 - i).push(data@[pos + i - 1]));
        i = i - 1;
    }
    assert(le@ =~= data@.subrange(pos as int, pos + 8).reverse());
    let x = u64_from_le_bytes(le.as_slice());
    proof {
        vstd::bytes::lemma_auto_spec_u64_to_from_le_bytes();
        assert forall|y: u64| #[trigger] bytes_at(data@, pos as int, be64(y)) implies x == y by {
            assert(data@.subrange(pos as int, pos + 8) == be64(y));
            assert(be64(y).reverse() =~= spec_u64_to_le_bytes(y));
        }
    }
    Some(x)
}


/// Little-endian bytes of a `u32`.
pub open spec fn le32(x: u32) -> Seq<u8> {
    spec_u32_to_le_bytes(x)
}

/// Little-endian bytes of a `u64`.
pub open spec fn le64(x: u64) -> Seq<u8> {
    spec_u64_to_le_bytes(x)
}

/// A byte string with its length in front as a little-endian `u32`.
pub open spec fn lp(b: Seq<u8>) -> Seq<u8> {
    le32(b.len() as u32) + b
}

pub broadcast proof fn lemma_le32_len(x: u32)
    ensures
        #[trigger] le32(x).len() == 4,
{
    vstd::bytes::lemma_auto_spec_u32_to_from_le_bytes();
}

pub broadcast proof fn lemma_le64_len(x: u64)
    ensures
        #[trigger] le64(x).len() == 8,
{
    vstd::bytes::lemma_auto_spec_u64_to_from_le_bytes();
}

pub fn push_le32(out: &mut Vec<u8>, x: u32)
    ensures
        final(out)@ == old(out)@ + le32(x),
{
    let mut b = u32_to_le_bytes(x);
    out.append(&mut b);
}

pub fn push_le64(out: &mut Vec<u8>, x: u64)
    ensures
        final(out)@ == old(out)@ + le64(x),
{
    let mut b = u64_to_le_bytes(x);
    out.append(&mut b);
}

/// Appends `b` with its length in front; fails where the length does not fit in a `u32`.
pub fn push_lp(out: &mut Vec<u8>, b: &[u8]) -> (ok: bool)
    ensures
        ok == (b@.len() <= u32::MAX),
        ok ==> final(out)@ == old(out)@ + lp(b@),
        !ok ==> final(out)@ == old(out)@,
{
    if b.len() > u32::MAX as usize {
        return false;
    }
    push_le32(out, b.len() as u32);
    let mut i: usize = 0;
    while i < b.len()
        invariant
            i <= b@.len(),
            b@.len() <= u32::MAX,
            out@ == old(out)@ + le32(b@.len() as u32) + b@.take(i as int),
        decreases b.len() - i,
    {
        out.push(b[i]);
        assert(b@.take(i as int + 1) =~= b@.take(i as int).push(b@[i as int]));
        i = i + 1;
    }
    assert(b@.take(b@.len() as int) =~= b@);
    assert(out@ =~= old(out)@ + lp(b@));
    true
}

pub fn read_le32(data: &[u8], pos: usize) -> (r: Option<u32>)
    ensures
        r is Some <==> pos + 4 <= data@.len(),
        r matches Some(x) ==> data@.subrange(pos as int, pos + 4) == le32(x),
        forall|x: u32| #[trigger] bytes_at(data@, pos as int, le32(x)) ==> r == Some(x),
{
    proof {
        vstd::bytes::lemma_auto_spec_u32_to_from_le_bytes();
    }
    if pos > data.len() || data.len() - pos < 4 {
        return None;
    }
    let s = slice_subrange(data, pos, pos + 4);
    let x = u32_from_le_bytes(s);
    Some(x)
}

pub fn read_le64(data: &[u8], pos: usize) -> (r: Option<u64>)
    ensures
        r is Some <==> pos + 8 <= data@.len(),
        r matches Some(x) ==> data@.subrange(pos as int, pos + 8) == le64(x),
        forall|x: u64| #[trigger] bytes_at(data@, pos as int, le64(x)) ==> r == Some(x),
{
    proof {
        vstd::bytes::lemma_auto_spec_u64_to_from_le_bytes();
    }
    if pos > data.len() || data.len() - pos < 8 {
        return None;
    }
    let s = slice_subrange(data, pos, pos + 8);
    let x = u64_from_le_bytes(s);
    Some(x)
}

/// Reads a byte string with its length in front; `None` where the data ends first.
pub fn read_lp<'a>(data: &'a [u8], pos: usize) -> (r: Option<(&'a [u8], usize)>)
    ensures
        r matches Some((b, next)) ==> pos < next <= data@.len() && next == pos + 4 + b@.len()
            && data@.subrange(pos as int, next as int) == lp(b@) && b@.len() <= u32::MAX,
        forall|b: Seq<u8>|
            b.len() <= u32::MAX && #[trigger] bytes_at(data@, pos as int, lp(b)) ==> (r matches Some(
                (c, next),
            ) && c@ == b && next == pos + lp(b).len()),
{
    proof {
        vstd::bytes::lemma_auto_spec_u32_to_from_le_bytes();
    }
    let n = data.len();
    let lr = read_le32(data, pos);
    let len = match lr {
        Some(x) => x as usize,
        None => {
            proof {
                assert forall|b: Seq<u8>|
                    b.len() <= u32::MAX && #[trigger] bytes_at(data@, pos as int, lp(b)) implies false by {
                    lemma_bytes_split(data@, pos as int, le32(b.len() as u32), b);
                }
            }
            return None;
        },
    };
    let start = pos + 4;
    proof {
        assert forall|b: Seq<u8>|
            b.len() <= u32::MAX && #[trigger] bytes_at(data@, pos as int, lp(b)) implies len == b.len()
            && bytes_at(data@, start as int, b) by {
            lemma_bytes_split(data@, pos as int, le32(b.len() as u32), b);
        }
    }
    if n - start < len {
        return None;
    }
    let body = slice_subrange(data, start, start + len);
    proof {
        assert(data@.subrange(pos as int, start + len) =~= data@.subrange(pos as int, pos + 4)
            + body@);
    }
    Some((body, start + len))
}

} // verus!
