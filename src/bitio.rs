use vstd::prelude::*;

verus! {

broadcast use vstd::std_specs::bits::group_bits_axioms;

/// Bit `i` of `v`; bit 0 is the least significant one.
pub open spec fn bit_of(v: u64, i: u64) -> bool {
    (v >> i) & 1u64 == 1u64
}

/// The low `n` bits of `v`, least significant first.
pub open spec fn low_bits(v: u64, n: nat) -> Seq<bool> {
    Seq::new(n, |i: int| bit_of(v, i as u64))
}

/// The eight bits of a byte, least significant first.
pub open spec fn byte_bits(b: u8) -> Seq<bool> {
    Seq::new(8, |i: int| (b >> (i as u8)) & 1u8 == 1u8)
}

/// The bit stream carried by a byte sequence: bit 0 of byte 0 comes first.
pub open spec fn stream_bits(bytes: Seq<u8>) -> Seq<bool> {
    Seq::new(8 * bytes.len(), |i: int| (bytes[i / 8] >> ((i % 8) as u8)) & 1u8 == 1u8)
}

/// `n` zero bits.
pub open spec fn zero_bits(n: nat) -> Seq<bool> {
    Seq::new(n, |i: int| false)
}

/// `v` holds the bits of `s` (at most 64 of them) in its low bits and zeros above them.
pub open spec fn holds_bits(v: u64, s: Seq<bool>) -> bool {
    forall|i: u64| i < 64 ==> #[trigger] bit_of(v, i) == (i < s.len() && s[i as int])
}

/// Two words with the same 64 bits are equal.
pub proof fn lemma_bits_ext(a: u64, b: u64)
    requires
        forall|i: u64| i < 64 ==> #[trigger] bit_of(a, i) == bit_of(b, i),
    ensures
        a == b,
{
    if a != b {
        let d = a ^ b;
        assert(d != 0) by (bit_vector)
            requires
                a != b,
                d == a ^ b,
        ;
        let t = d.trailing_zeros() as u64;
        assert((d >> t) & 1u64 == 1u64);
        assert(bit_of(a, t) == bit_of(b, t));
        assert(t < 64 && (d >> t) & 1u64 == 1u64 && d == a ^ b ==> ((a >> t) & 1u64 == 1u64) != ((
        b >> t) & 1u64 == 1u64)) by (bit_vector);
    }
}

/// A word that holds the low `n` bits of `x`, where `x` has no bit at or above `n`, is `x`.
pub proof fn lemma_holds_low_bits(v: u64, x: u64, n: u64)
    requires
        n <= 64,
        holds_bits(v, low_bits(x, n as nat)),
        n == 64 || x >> n == 0,
    ensures
        v == x,
{
    assert forall|i: u64| i < 64 implies #[trigger] bit_of(v, i) == bit_of(x, i) by {
        assert(bit_of(v, i) == (i < n && bit_of(x, i)));
        if i >= n {
            assert(i < 64 && i >= n && x >> n == 0 ==> (x >> i) & 1u64 == 0) by (bit_vector);
        }
    }
    lemma_bits_ext(v, x);
}

/// Bits read back are the bits written: where a stream holds, from `pos` on, the low `n`
/// bits of `v` (as `write_bits(v, n)` appends them) and `v` has no higher bit, the word that
/// `read_bits(n)` returns from `pos` is `v`.
pub proof fn lemma_bits_read_back(stream: Seq<bool>, pos: int, v: u64, n: u64, r: u64)
    requires
        n <= 64,
        n == 64 || v >> n == 0,
        0 <= pos,
        pos + n <= stream.len(),
        stream.subrange(pos, pos + n) == low_bits(v, n as nat),
        holds_bits(r, stream.subrange(pos, pos + n)),
    ensures
        r == v,
{
    lemma_holds_low_bits(r, v, n);
}

proof fn lemma_stream_bits_push(bytes: Seq<u8>, b: u8)
    ensures
        stream_bits(bytes.push(b)) =~= stream_bits(bytes) + byte_bits(b),
{
    let n = bytes.len();
    assert forall|i: int| 0 <= i < 8 * (n + 1) implies #[trigger] stream_bits(bytes.push(b))[i]
        == (stream_bits(bytes) + byte_bits(b))[i] by {
        if i < 8 * n {
            assert(i / 8 < n) by (nonlinear_arith)
                requires
                    0 <= i < 8 * n,
            ;
        } else {
            assert(i / 8 == n && i % 8 == i - 8 * n) by (nonlinear_arith)
                requires
                    8 * n <= i < 8 * (n + 1),
            ;
        }
    }
}

proof fn lemma_index_split(byte_pos: int, bit_pos: int)
    requires
        byte_pos >= 0,
        0 <= bit_pos < 8,
    ensures
        (8 * byte_pos + bit_pos) / 8 == byte_pos,
        (8 * byte_pos + bit_pos) % 8 == bit_pos,
{
    assert((8 * byte_pos + bit_pos) / 8 == byte_pos && (8 * byte_pos + bit_pos) % 8 == bit_pos)
        by (nonlinear_arith)
        requires
            byte_pos >= 0,
            0 <= bit_pos < 8,
    ;
}

proof fn lemma_set_bit(buf: u8, n: u8, bit: u8, j: u8)
    by (bit_vector)
    requires
        n < 8,
        buf >> n == 0,
        bit <= 1,
        j < 8,
    ensures
        j < n ==> (((buf | (bit << n)) >> j) & 1u8 == 1u8) == ((buf >> j) & 1u8 == 1u8),
        j == n ==> (((buf | (bit << n)) >> j) & 1u8 == 1u8) == (bit == 1u8),
        (buf | (bit << n)) >> ((n + 1) as u8) == 0,
{
}

proof fn lemma_empty_buffer()
    by (bit_vector)
    ensures
        0u8 >> 0u8 == 0u8,
{
}

proof fn lemma_or_bit(v: u64, k: u64, j: u64)
    by (bit_vector)
    requires
        k < 64,
        j < 64,
    ensures
        ((v | (1u64 << k)) >> j) & 1u64 == 1u64 <==> (j == k || (v >> j) & 1u64 == 1u64),
{
}

/// Writes a stream of bits into a byte vector, least significant bit of each byte first.
pub struct BitWriter {
    writer: Vec<u8>,
    buffer: u8,
    bits_in_buffer: u8,
}

impl BitWriter {
    /// The whole bytes handed to the underlying vector so far.
    pub closed spec fn bytes(&self) -> Seq<u8> {
        self.writer@
    }

    /// The bits written but not yet drained as a whole byte.
    pub closed spec fn pending(&self) -> Seq<bool> {
        byte_bits(self.buffer).take(self.bits_in_buffer as int)
    }

    pub closed spec fn wf(&self) -> bool {
        self.bits_in_buffer < 8 && self.buffer >> self.bits_in_buffer == 0
    }

    /// Every bit written so far, including those still pending.
    pub open spec fn written(&self) -> Seq<bool> {
        stream_bits(self.bytes()) + self.pending()
    }

    pub proof fn lemma_pending_len(&self)
        requires
            self.wf(),
        ensures
            self.pending().len() < 8,
    {
    }

    pub fn new(writer: Vec<u8>) -> (r: Self)
        ensures
            r.wf(),
            r.bytes() == writer@,
            r.pending().len() == 0,
            r.written() == stream_bits(writer@),
    {
        let r = BitWriter { writer, buffer: 0, bits_in_buffer: 0 };
        proof {
            lemma_empty_buffer();
        }
        assert(r.written() =~= stream_bits(writer@));
        r
    }

    fn push_bit(&mut self, b: bool)
        requires
            old(self).wf(),
        ensures
            final(self).wf(),
            final(self).written() == old(self).written().push(b),
            final(self).bytes().len() >= old(self).bytes().len(),
            final(self).bytes().subrange(0, old(self).bytes().len() as int) == old(self).bytes(),
    {
        let bit: u8 = if b {
            1
        } else {
            0
        };
        let n = self.bits_in_buffer;
        let old_buf = self.buffer;
        let new_buf: u8 = old_buf | (bit << n);
        proof {
            assert forall|j: int| 0 <= j < 8 implies #[trigger] byte_bits(new_buf)[j] == (if j
                < n {
                byte_bits(old_buf)[j]
            } else if j == n {
                b
            } else {
                byte_bits(new_buf)[j]
            }) by {
                lemma_set_bit(old_buf, n, bit, j as u8);
            }
            lemma_set_bit(old_buf, n, bit, 0);
        }
        if n == 7 {
            proof {
                lemma_stream_bits_push(self.writer@, new_buf);
            }
            self.writer.push(new_buf);
            self.buffer = 0;
            self.bits_in_buffer = 0;
            proof {
                lemma_empty_buffer();
            }
            assert(self.written() =~= old(self).written().push(b));
            assert(self.bytes().subrange(0, old(self).bytes().len() as int) =~= old(self).bytes());
        } else {
            self.buffer = new_buf;
            self.bits_in_buffer = n + 1;
            assert(self.pending() =~= old(self).pending().push(b));
            assert(self.written() =~= old(self).written().push(b));
        }
    }

    /// Appends the low `bits` bits of `value`, least significant first.
    pub fn write_bits(&mut self, value: u64, bits: u8)
        requires
            old(self).wf(),
            bits <= 64,
        ensures
            final(self).wf(),
            final(self).written() == old(self).written() + low_bits(value, bits as nat),
    {
        let mut i: u8 = 0;
        while i < bits
            invariant
                self.wf(),
                i <= bits <= 64,
                self.written() == old(self).written() + low_bits(value, i as nat),
            decreases bits - i,
        {
            let b = (value >> (i as u64)) & 1u64 == 1u64;
            self.push_bit(b);
            assert(low_bits(value, (i + 1) as nat) =~= low_bits(value, i as nat).push(b));
            i = i + 1;
        }
    }

    /// Emits the pending bits as a last byte whose high bits are zero.
    pub fn flush(&mut self)
        requires
            old(self).wf(),
        ensures
            final(self).wf(),
            final(self).pending().len() == 0,
            final(self).written() == old(self).written() + zero_bits(
                (if old(self).pending().len() == 0 {
                    0
                } else {
                    8 - old(self).pending().len()
                }) as nat,
            ),
    {
        if self.bits_in_buffer > 0 {
            let byte = self.buffer;
            let n = self.bits_in_buffer;
            proof {
                lemma_stream_bits_push(self.writer@, byte);
                assert forall|j: int| n <= j < 8 implies !#[trigger] byte_bits(byte)[j] by {
                    let jj = j as u8;
                    assert(jj < 8 && n <= jj && byte >> n == 0 ==> (byte >> jj) & 1u8 == 0u8)
                        by (bit_vector);
                }
            }
            self.writer.push(byte);
            self.buffer = 0;
            self.bits_in_buffer = 0;
            proof {
                lemma_empty_buffer();
            }
            assert(self.written() =~= old(self).written() + zero_bits((8 - n) as nat));
        } else {
            assert(self.written() =~= old(self).written() + zero_bits(0));
        }
    }

    pub fn get_ref(&self) -> (r: &Vec<u8>)
        ensures
            r@ == self.bytes(),
    {
        &self.writer
    }

    /// The underlying vector; bytes changed through it change the written stream.
    pub fn get_mut(&mut self) -> (r: &mut Vec<u8>)
        requires
            old(self).wf(),
        ensures
            r@ == old(self).bytes(),
            final(self).bytes() == final(r)@,
            final(self).pending() == old(self).pending(),
            final(self).wf(),
    {
        &mut self.writer
    }

    pub fn into_inner(self) -> (r: Vec<u8>)
        ensures
            r@ == self.bytes(),
    {
        self.writer
    }
}

/// Reads a bit stream out of a byte slice, in the order `BitWriter` writes it.
pub struct BitReader<'a> {
    reader: &'a [u8],
    byte_pos: usize,
    bit_pos: u8,
}

impl<'a> BitReader<'a> {
    /// The whole stream of bits carried by the underlying bytes.
    pub open spec fn bits(&self) -> Seq<bool> {
        stream_bits(self.source())
    }

    /// How many bits have been consumed.
    pub closed spec fn position(&self) -> nat {
        (8 * self.byte_pos + self.bit_pos) as nat
    }

    pub closed spec fn source(&self) -> Seq<u8> {
        self.reader@
    }

    pub closed spec fn wf(&self) -> bool {
        &&& self.byte_pos <= self.reader@.len()
        &&& self.bit_pos < 8
        &&& self.byte_pos == self.reader@.len() ==> self.bit_pos == 0
    }

    pub proof fn lemma_position_bound(&self)
        requires
            self.wf(),
        ensures
            self.position() <= self.bits().len(),
            self.bits() == stream_bits(self.source()),
    {
    }

    pub fn new(reader: &'a [u8]) -> (r: Self)
        ensures
            r.wf(),
            r.source() == reader@,
            r.bits() == stream_bits(reader@),
            r.position() == 0,
    {
        BitReader { reader, byte_pos: 0, bit_pos: 0 }
    }

    /// Fewer than eight bits remain: at most the padding of the last byte.
    pub fn at_most_padding(&self) -> (r: bool)
        requires
            self.wf(),
        ensures
            r == (self.bits().len() - self.position() < 8),
    {
        self.byte_pos == self.reader.len() || (self.byte_pos + 1 == self.reader.len()
            && self.bit_pos > 0)
    }

    fn at_end(&self) -> (r: bool)
        requires
            self.wf(),
        ensures
            r == (self.position() == self.bits().len()),
    {
        self.byte_pos == self.reader.len()
    }

    fn next_bit(&mut self) -> (b: bool)
        requires
            old(self).wf(),
            old(self).position() < old(self).bits().len(),
        ensures
            final(self).wf(),
            final(self).source() == old(self).source(),
            final(self).position() == old(self).position() + 1,
            b == old(self).bits()[old(self).position() as int],
    {
        proof {
            lemma_index_split(self.byte_pos as int, self.bit_pos as int);
        }
        let byte = self.reader[self.byte_pos];
        let b = (byte >> self.bit_pos) & 1u8 == 1u8;
        if self.bit_pos == 7 {
            self.byte_pos = self.byte_pos + 1;
            self.bit_pos = 0;
        } else {
            self.bit_pos = self.bit_pos + 1;
        }
        b
    }

    /// Reads the next `bits` bits into the low bits of a word. Where the stream ends first,
    /// the bits that remain are returned; where none remains, the end of the stream is
    /// reported.
    pub fn read_bits(&mut self, bits: u8) -> (r: Option<u64>)
        requires
            old(self).wf(),
            bits <= 64,
        ensures
            final(self).wf(),
            final(self).source() == old(self).source(),
            bits == 0 ==> r == Some(0u64) && final(self).position() == old(self).position(),
            bits > 0 && old(self).position() == old(self).bits().len() ==> r is None
                && final(self).position() == old(self).position(),
            bits > 0 && old(self).position() < old(self).bits().len() ==> {
                let end = if old(self).position() + bits <= old(self).bits().len() {
                    old(self).position() + bits
                } else {
                    old(self).bits().len() as int
                };
                &&& r is Some
                &&& final(self).position() == end
                &&& holds_bits(
                    r->Some_0,
                    old(self).bits().subrange(old(self).position() as int, end),
                )
            },
    {
        if bits == 0 {
            proof {
                assert(0u64 >> 0u64 == 0u64) by (bit_vector);
            }
            return Some(0);
        }
        if self.at_end() {
            return None;
        }
        let ghost start = self.position();
        let mut v: u64 = 0;
        let mut i: u8 = 0;
        proof {
            assert forall|j: u64| j < 64 implies #[trigger] bit_of(0u64, j) == false by {
                assert((0u64 >> j) & 1u64 == 0u64) by (bit_vector);
            }
        }
        while i < bits && !self.at_end()
            invariant
                self.wf(),
                self.source() == old(self).source(),
                i <= bits <= 64,
                self.position() == start + i,
                start == old(self).position(),
                forall|j: u64| j < 64 ==> #[trigger] bit_of(v, j) == (j < i && self.bits()[start
                    + j]),
            decreases bits - i,
        {
            let b = self.next_bit();
            if b {
                proof {
                    assert forall|j: u64| j < 64 implies #[trigger] bit_of(v | (1u64 << i as u64), j)
                        == (j == i || bit_of(v, j)) by {
                        lemma_or_bit(v, i as u64, j);
                    }
                }
                v = v | (1u64 << (i as u64));
            }
            i = i + 1;
        }
        proof {
            let end = self.position() as int;
            let s = self.bits().subrange(start as int, end);
            assert forall|j: u64| j < 64 implies #[trigger] bit_of(v, j) == (j < s.len()
                && s[j as int]) by {}
        }
        Some(v)
    }

    /// Reads one bit.
    pub fn read_bit(&mut self) -> (r: Option<bool>)
        requires
            old(self).wf(),
        ensures
            final(self).wf(),
            final(self).source() == old(self).source(),
            old(self).position() == old(self).bits().len() ==> r is None
                && final(self).position() == old(self).position(),
            old(self).position() < old(self).bits().len() ==> r == Some(
                old(self).bits()[old(self).position() as int],
            ) && final(self).position() == old(self).position() + 1,
    {
        if self.at_end() {
            return None;
        }
        Some(self.next_bit())
    }

    pub fn get_ref(&self) -> (r: &'a [u8])
        ensures
            r@ == self.source(),
    {
        self.reader
    }

    /// The underlying slice; replacing it changes the stream read from the same position.
    pub fn get_mut(&mut self) -> (r: &mut &'a [u8])
        ensures
            (*r)@ == old(self).source(),
            final(self).source() == (*final(r))@,
            final(self).position() == old(self).position(),
    {
        &mut self.reader
    }

    pub fn into_inner(self) -> (r: &'a [u8])
        ensures
            r@ == self.source(),
    {
        self.reader
    }
}

/// The bits that a sequence of `write_bits(v, n)` calls appends, in order.
pub open spec fn written_bits(ops: Seq<(u64, u64)>) -> Seq<bool>
    decreases ops.len(),
{
    if ops.len() == 0 {
        seq![]
    } else {
        written_bits(ops.drop_last()) + low_bits(ops.last().0, ops.last().1 as nat)
    }
}

proof fn lemma_written_prefix(ops: Seq<(u64, u64)>, j: int)
    requires
        0 <= j <= ops.len(),
    ensures
        written_bits(ops.take(j)).len() <= written_bits(ops).len(),
        written_bits(ops).subrange(0, written_bits(ops.take(j)).len() as int) == written_bits(
            ops.take(j),
        ),
    decreases ops.len(),
{
    if j == ops.len() {
        assert(ops.take(j) =~= ops);
        assert(written_bits(ops).subrange(0, written_bits(ops).len() as int) =~= written_bits(
            ops,
        ));
    } else {
        let d = ops.drop_last();
        lemma_written_prefix(d, j);
        assert(d.take(j) =~= ops.take(j));
        assert(written_bits(ops).subrange(0, written_bits(ops.take(j)).len() as int)
            =~= written_bits(d).subrange(0, written_bits(ops.take(j)).len() as int));
    }
}

/// Bits read back are the bits written, for a whole sequence of writes: after the writes
/// `ops` (and any padding), reading `ops[i].1` bits from where the earlier writes end gives
/// the low `ops[i].1` bits of `ops[i].0`.
pub proof fn lemma_bit_sequence_round_trip(ops: Seq<(u64, u64)>, pad: nat, i: int, r: u64)
    requires
        0 <= i < ops.len(),
        ops[i].1 <= 64,
        ops[i].1 == 64 || ops[i].0 >> ops[i].1 == 0,
        holds_bits(
            r,
            (written_bits(ops) + zero_bits(pad)).subrange(
                written_bits(ops.take(i)).len() as int,
                written_bits(ops.take(i)).len() + ops[i].1,
            ),
        ),
    ensures
        r == ops[i].0,
{
    let a = written_bits(ops.take(i));
    let e = low_bits(ops[i].0, ops[i].1 as nat);
    assert(ops.take(i + 1).drop_last() =~= ops.take(i));
    assert(written_bits(ops.take(i + 1)) =~= a + e);
    lemma_written_prefix(ops, i + 1);
    let all = written_bits(ops) + zero_bits(pad);
    assert(all.subrange(a.len() as int, a.len() + ops[i].1) =~= (a + e).subrange(
        a.len() as int,
        (a.len() + e.len()) as int,
    ));
    assert((a + e).subrange(a.len() as int, (a.len() + e.len()) as int) =~= e);
    lemma_holds_low_bits(r, ops[i].0, ops[i].1);
}

} // verus!
