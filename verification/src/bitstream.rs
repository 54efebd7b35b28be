use vstd::prelude::*;

verus! {

/// Bit `k` of `byte`, counted from the least significant bit.
pub open spec fn bit_at(byte: u8, k: u8) -> bool {
    (byte >> k) & 1u8 == 1u8
}

/// The low `n` bits of `byte`, most significant first.
pub open spec fn low_bits(byte: u8, n: u8) -> Seq<bool> {
    Seq::new(n as nat, |i: int| bit_at(byte, (n - 1 - i) as u8))
}

/// The eight bits of `byte`, most significant first.
pub open spec fn byte_bits(byte: u8) -> Seq<bool> {
    low_bits(byte, 8)
}

/// The bits of `bytes` in order, each byte most significant bit first.
pub open spec fn unpack(bytes: Seq<u8>) -> Seq<bool> {
    Seq::new(8 * bytes.len(), |k: int| bit_at(bytes[k / 8], (7 - k % 8) as u8))
}

/// The value that the bit at `index` of `bits` gives to a byte in which it
/// has the weight `weight`: nothing where the bit is clear or `bits` ends
/// before it.
pub open spec fn place(bits: Seq<bool>, index: int, weight: u8) -> u8 {
    if index < bits.len() && bits[index] {
        weight
    } else {
        0
    }
}

/// The byte that holds up to eight `bits`, most significant first, with zeros
/// in the positions that `bits` does not reach.
pub open spec fn byte_of(bits: Seq<bool>) -> u8 {
    (place(bits, 0, 128) + place(bits, 1, 64) + place(bits, 2, 32) + place(bits, 3, 16) + place(
        bits,
        4,
        8,
    ) + place(bits, 5, 4) + place(bits, 6, 2) + place(bits, 7, 1)) as u8
}

/// The part of `bits` that goes into byte `i` of the packed form.
pub open spec fn chunk(bits: Seq<bool>, i: int) -> Seq<bool> {
    bits.subrange(8 * i, if 8 * i + 8 <= bits.len() {
        8 * i + 8
    } else {
        bits.len() as int
    })
}

/// `bits` packed into bytes, most significant bit first, the last byte
/// filled up with zeros.
pub open spec fn pack(bits: Seq<bool>) -> Seq<u8> {
    Seq::new(((bits.len() + 7) / 8) as nat, |i: int| byte_of(chunk(bits, i)))
}

/// `count` zero bits.
pub open spec fn zeros(count: int) -> Seq<bool> {
    Seq::new(count as nat, |i: int| false)
}

/// The number of zero bits that fill the last byte when `len` bits are packed.
pub open spec fn padding(len: int) -> int {
    (8 - len % 8) % 8
}

proof fn lemma_sum_bits(d0: u8, d1: u8, d2: u8, d3: u8, d4: u8, d5: u8, d6: u8, d7: u8)
    by (bit_vector)
    requires
        d0 == 0 || d0 == 128,
        d1 == 0 || d1 == 64,
        d2 == 0 || d2 == 32,
        d3 == 0 || d3 == 16,
        d4 == 0 || d4 == 8,
        d5 == 0 || d5 == 4,
        d6 == 0 || d6 == 2,
        d7 == 0 || d7 == 1,
    ensures
        d0 + d1 + d2 + d3 + d4 + d5 + d6 + d7 < 256,
        ((((d0 + d1 + d2 + d3 + d4 + d5 + d6 + d7) as u8) >> 7u8) & 1u8 == 1u8) == (d0 == 128),
        ((((d0 + d1 + d2 + d3 + d4 + d5 + d6 + d7) as u8) >> 6u8) & 1u8 == 1u8) == (d1 == 64),
        ((((d0 + d1 + d2 + d3 + d4 + d5 + d6 + d7) as u8) >> 5u8) & 1u8 == 1u8) == (d2 == 32),
        ((((d0 + d1 + d2 + d3 + d4 + d5 + d6 + d7) as u8) >> 4u8) & 1u8 == 1u8) == (d3 == 16),
        ((((d0 + d1 + d2 + d3 + d4 + d5 + d6 + d7) as u8) >> 3u8) & 1u8 == 1u8) == (d4 == 8),
        ((((d0 + d1 + d2 + d3 + d4 + d5 + d6 + d7) as u8) >> 2u8) & 1u8 == 1u8) == (d5 == 4),
        ((((d0 + d1 + d2 + d3 + d4 + d5 + d6 + d7) as u8) >> 1u8) & 1u8 == 1u8) == (d6 == 2),
        ((((d0 + d1 + d2 + d3 + d4 + d5 + d6 + d7) as u8) >> 0u8) & 1u8 == 1u8) == (d7 == 1),
{
}

proof fn lemma_bits_determine_byte(x: u8, y: u8)
    by (bit_vector)
    requires
        (x >> 7u8) & 1u8 == (y >> 7u8) & 1u8,
        (x >> 6u8) & 1u8 == (y >> 6u8) & 1u8,
        (x >> 5u8) & 1u8 == (y >> 5u8) & 1u8,
        (x >> 4u8) & 1u8 == (y >> 4u8) & 1u8,
        (x >> 3u8) & 1u8 == (y >> 3u8) & 1u8,
        (x >> 2u8) & 1u8 == (y >> 2u8) & 1u8,
        (x >> 1u8) & 1u8 == (y >> 1u8) & 1u8,
        (x >> 0u8) & 1u8 == (y >> 0u8) & 1u8,
    ensures
        x == y,
{
}

proof fn lemma_bit_is_zero_or_one(x: u8, k: u8)
    by (bit_vector)
    requires
        k < 8,
    ensures
        (x >> k) & 1u8 == 0u8 || (x >> k) & 1u8 == 1u8,
{
}

proof fn lemma_shift_in(x: u8, k: u8)
    by (bit_vector)
    requires
        1 <= k < 8,
    ensures
        (((x << 1u8) | 1u8) >> k) & 1u8 == (x >> ((k - 1) as u8)) & 1u8,
        ((x << 1u8) >> k) & 1u8 == (x >> ((k - 1) as u8)) & 1u8,
        (((x << 1u8) | 1u8) >> 0u8) & 1u8 == 1u8,
        ((x << 1u8) >> 0u8) & 1u8 == 0u8,
{
}

proof fn lemma_shift_left(x: u8, n: u8, k: u8)
    by (bit_vector)
    requires
        1 <= n < 8,
        k < 8,
    ensures
        k >= n ==> ((x << n) >> k) & 1u8 == (x >> ((k - n) as u8)) & 1u8,
        k < n ==> ((x << n) >> k) & 1u8 == 0u8,
{
}

proof fn lemma_mask_is_bit(x: u8, k: u8)
    by (bit_vector)
    requires
        k < 8,
    ensures
        (x & (1u8 << k) != 0u8) == ((x >> k) & 1u8 == 1u8),
{
}

/// The bits of the byte made of `bits` are `bits`, followed by zeros up to
/// eight.
pub proof fn lemma_byte_of_bits(bits: Seq<bool>)
    requires
        bits.len() <= 8,
    ensures
        byte_bits(byte_of(bits)) == bits + zeros(8 - bits.len()),
{
    lemma_sum_bits(
        place(bits, 0, 128),
        place(bits, 1, 64),
        place(bits, 2, 32),
        place(bits, 3, 16),
        place(bits, 4, 8),
        place(bits, 5, 4),
        place(bits, 6, 2),
        place(bits, 7, 1),
    );
    assert(byte_bits(byte_of(bits)) =~= bits + zeros(8 - bits.len()));
}

/// A byte is the byte made of its bits.
pub proof fn lemma_byte_of_byte_bits(byte: u8)
    ensures
        byte_of(byte_bits(byte)) == byte,
{
    let other = byte_of(byte_bits(byte));
    lemma_byte_of_bits(byte_bits(byte));
    assert(zeros(0) =~= Seq::<bool>::empty());
    assert(byte_bits(byte) + Seq::<bool>::empty() =~= byte_bits(byte));
    assert forall|k: u8| k < 8 implies (other >> k) & 1u8 == (byte >> k) & 1u8 by {
        assert(byte_bits(other)[7 - k] == byte_bits(byte)[7 - k]);
        lemma_bit_is_zero_or_one(other, k);
        lemma_bit_is_zero_or_one(byte, k);
    }
    lemma_bits_determine_byte(other, byte);
}

/// The bits of a byte sequence with one more byte are the bits of the
/// sequence followed by those of the byte.
pub proof fn lemma_unpack_push(bytes: Seq<u8>, byte: u8)
    ensures
        unpack(bytes.push(byte)) == unpack(bytes) + byte_bits(byte),
{
    assert(unpack(bytes.push(byte)) =~= unpack(bytes) + byte_bits(byte));
}

/// The bits of a non-empty byte sequence are the bits of its first byte
/// followed by those of the rest.
pub proof fn lemma_unpack_first(bytes: Seq<u8>)
    requires
        bytes.len() > 0,
    ensures
        unpack(bytes) == byte_bits(bytes[0]) + unpack(bytes.skip(1)),
{
    assert(unpack(bytes) =~= byte_bits(bytes[0]) + unpack(bytes.skip(1)));
}

/// Packing whole bytes' bits followed by fewer than eight more gives the
/// bytes back, followed by one byte for the rest where there is any.
pub proof fn lemma_pack_unpack_rest(bytes: Seq<u8>, rest: Seq<bool>)
    requires
        rest.len() < 8,
    ensures
        pack(unpack(bytes) + rest) == if rest.len() == 0 {
            bytes
        } else {
            bytes.push(byte_of(rest))
        },
{
    let bits = unpack(bytes) + rest;
    let expected = if rest.len() == 0 {
        bytes
    } else {
        bytes.push(byte_of(rest))
    };
    assert(pack(bits).len() == expected.len());
    assert forall|i: int| 0 <= i < expected.len() implies pack(bits)[i] == expected[i] by {
        if i < bytes.len() {
            assert(chunk(bits, i) =~= byte_bits(bytes[i]));
            lemma_byte_of_byte_bits(bytes[i]);
        } else {
            assert(chunk(bits, i) =~= rest);
        }
    }
    assert(pack(bits) =~= expected);
}

/// Packing the bits of whole bytes gives the bytes back.
pub proof fn lemma_pack_unpack(bytes: Seq<u8>)
    ensures
        pack(unpack(bytes)) == bytes,
{
    lemma_pack_unpack_rest(bytes, Seq::empty());
    assert(unpack(bytes) + Seq::<bool>::empty() =~= unpack(bytes));
}

/// Unpacking what was packed gives the bits back, followed by the zeros that
/// filled the last byte.
pub proof fn lemma_unpack_pack(bits: Seq<bool>)
    ensures
        unpack(pack(bits)) == bits + zeros(padding(bits.len() as int)),
{
    let padded = bits + zeros(padding(bits.len() as int));
    assert(unpack(pack(bits)).len() == padded.len());
    assert forall|k: int| 0 <= k < padded.len() implies unpack(pack(bits))[k] == padded[k] by {
        let i = k / 8;
        let part = chunk(bits, i);
        lemma_byte_of_bits(part);
        assert(byte_bits(byte_of(part))[k % 8] == (part + zeros(8 - part.len()))[k % 8]);
    }
    assert(unpack(pack(bits)) =~= padded);
}

/// Packs single bits into bytes, most significant bit first.
///
/// Bits are gathered in a buffer of one byte. Each time it holds eight bits
/// it is handed to the sink; `flush` hands over a partly filled buffer with
/// zeros in its unused low positions.
pub struct BitWriter {
    writer: Vec<u8>,
    current_byte: u8,
    bit_count: u8,
}

impl View for BitWriter {
    type V = Seq<bool>;

    /// Every bit that went through the writer, the bytes that the sink held
    /// at the start counted with eight bits each.
    closed spec fn view(&self) -> Seq<bool> {
        unpack(self.writer@) + low_bits(self.current_byte, self.bit_count)
    }
}

impl BitWriter {
    /// The buffer holds fewer than eight bits. Every writer that `new` makes
    /// is well formed, and the methods keep it so.
    pub closed spec fn well_formed(&self) -> bool {
        self.bit_count < 8
    }

    /// The bytes that the sink holds.
    pub closed spec fn sink(&self) -> Seq<u8> {
        self.writer@
    }

    /// The bits that wait in the buffer: fewer than eight.
    pub closed spec fn pending(&self) -> Seq<bool> {
        low_bits(self.current_byte, self.bit_count)
    }

    /// The view is the bits of the sink followed by the pending bits.
    pub proof fn lemma_view(self)
        ensures
            self@ == unpack(self.sink()) + self.pending(),
    {
    }

    /// A writer over `writer` with an empty buffer.
    pub fn new(writer: Vec<u8>) -> (w: Self)
        ensures
            w.well_formed(),
            w.sink() == writer@,
            w.pending() == Seq::<bool>::empty(),
            w@ == unpack(writer@),
    {
        let w = BitWriter { writer, current_byte: 0, bit_count: 0 };
        proof {
            assert(low_bits(0, 0) =~= Seq::<bool>::empty());
            assert(unpack(writer@) + Seq::<bool>::empty() =~= unpack(writer@));
        }
        w
    }

    /// Writes one bit. The eighth bit of a byte sends the byte to the sink.
    pub fn write_bit(&mut self, bit: bool)
        requires
            old(self).well_formed(),
        ensures
            final(self).well_formed(),
            final(self)@ == old(self)@.push(bit),
            old(self).pending().len() <= 7,
            old(self).pending().len() < 7 ==> {
                &&& final(self).sink() == old(self).sink()
                &&& final(self).pending() == old(self).pending().push(bit)
            },
            old(self).pending().len() == 7 ==> {
                &&& final(self).sink() == old(self).sink().push(
                    byte_of(old(self).pending().push(bit)),
                )
                &&& final(self).pending() == Seq::<bool>::empty()
            },
    {
        let ghost pending = low_bits(self.current_byte, self.bit_count);
        let ghost count = self.bit_count;
        let shifted: u8 = self.current_byte << 1;
        let byte: u8 = if bit {
            shifted | 1
        } else {
            shifted
        };
        proof {
            let wider = (count + 1) as u8;
            let longer = pending.push(bit);
            assert forall|i: int| 0 <= i < wider implies low_bits(byte, wider)[i] == longer[i] by {
                if i < count {
                    lemma_shift_in(self.current_byte, (count - i) as u8);
                } else {
                    lemma_shift_in(self.current_byte, 1);
                }
            }
            assert(low_bits(byte, wider) =~= longer);
        }
        if self.bit_count == 7 {
            proof {
                lemma_unpack_push(self.writer@, byte);
                lemma_byte_of_byte_bits(byte);
                assert(low_bits(0, 0) =~= Seq::<bool>::empty());
                assert((unpack(self.writer@) + pending).push(bit) =~= unpack(self.writer@)
                    + pending.push(bit) + Seq::<bool>::empty());
            }
            self.writer.push(byte);
            self.current_byte = 0;
            self.bit_count = 0;
        } else {
            proof {
                assert((unpack(self.writer@) + pending).push(bit) =~= unpack(self.writer@)
                    + pending.push(bit));
            }
            self.bit_count = self.bit_count + 1;
            self.current_byte = byte;
        }
    }

    /// Sends a partly filled buffer to the sink, its unused low bits zero,
    /// and leaves the buffer empty.
    pub fn flush(&mut self)
        requires
            old(self).well_formed(),
        ensures
            final(self).well_formed(),
            final(self).sink() == pack(old(self)@),
            final(self).pending() == Seq::<bool>::empty(),
            final(self)@ == old(self)@ + zeros(padding(old(self)@.len() as int)),
    {
        proof {
            lemma_pack_unpack_rest(self.writer@, low_bits(self.current_byte, self.bit_count));
            lemma_unpack_pack(self@);
            assert(low_bits(0, 0) =~= Seq::<bool>::empty());
        }
        if self.bit_count > 0 {
            let ghost pending = low_bits(self.current_byte, self.bit_count);
            let ghost count = self.bit_count;
            let byte: u8 = self.current_byte << (8 - self.bit_count);
            proof {
                let padded = pending + zeros(8 - count);
                assert forall|i: int| 0 <= i < 8 implies byte_bits(byte)[i] == padded[i] by {
                    lemma_shift_left(self.current_byte, (8 - count) as u8, (7 - i) as u8);
                }
                assert(byte_bits(byte) =~= padded);
                lemma_byte_of_bits(pending);
                lemma_byte_of_byte_bits(byte);
                lemma_byte_of_byte_bits(byte_of(pending));
            }
            self.writer.push(byte);
            self.current_byte = 0;
            self.bit_count = 0;
        }
        proof {
            assert(unpack(self.writer@) + Seq::<bool>::empty() =~= unpack(self.writer@));
        }
    }

    /// Gives the sink back.
    pub fn into_inner(self) -> (writer: Vec<u8>)
        ensures
            writer@ == self.sink(),
    {
        self.writer
    }
}

/// Hands out the bits of a byte sequence one at a time, each byte most
/// significant bit first.
///
/// A byte is fetched from the source only when the bits of the one before
/// are used up.
pub struct BitReader<'a> {
    reader: &'a [u8],
    position: usize,
    current_byte: u8,
    bit_count: u8,
}

impl<'a> View for BitReader<'a> {
    type V = Seq<bool>;

    /// The bits that are still to be read.
    closed spec fn view(&self) -> Seq<bool> {
        low_bits(self.current_byte, self.bit_count) + unpack(
            self.reader@.skip(self.position as int),
        )
    }
}

impl<'a> BitReader<'a> {
    /// The reader stands inside its source. Every reader that `new` makes is
    /// well formed, and `read_bit` keeps it so.
    pub closed spec fn well_formed(&self) -> bool {
        self.bit_count <= 8 && self.position <= self.reader@.len()
    }

    /// A reader at the first bit of `reader`.
    pub fn new(reader: &'a [u8]) -> (r: Self)
        ensures
            r.well_formed(),
            r@ == unpack(reader@),
    {
        let r = BitReader { reader, position: 0, current_byte: 0, bit_count: 0 };
        proof {
            assert(reader@.skip(0) =~= reader@);
            assert(low_bits(0, 0) + unpack(reader@) =~= unpack(reader@));
        }
        r
    }

    /// Reads the next bit, or reports the end of the source.
    pub fn read_bit(&mut self) -> (bit: Option<bool>)
        requires
            old(self).well_formed(),
        ensures
            final(self).well_formed(),
            match bit {
                Some(b) => {
                    &&& old(self)@.len() > 0
                    &&& b == old(self)@[0]
                    &&& final(self)@ == old(self)@.skip(1)
                },
                None => old(self)@.len() == 0 && final(self)@ == old(self)@,
            },
    {
        if self.bit_count == 0 {
            if self.position >= self.reader.len() {
                return None;
            }
            proof {
                let here = self.reader@.skip(self.position as int);
                let behind = self.reader@.skip(self.position + 1);
                lemma_unpack_first(here);
                assert(here.skip(1) =~= behind);
                assert(low_bits(self.current_byte, 0) + unpack(here) =~= byte_bits(here[0])
                    + unpack(behind));
            }
            self.current_byte = self.reader[self.position];
            self.bit_count = 8;
            self.position = self.position + 1;
        }
        let ghost before = low_bits(self.current_byte, self.bit_count);
        let ghost rest = unpack(self.reader@.skip(self.position as int));
        self.bit_count = self.bit_count - 1;
        let bit = (self.current_byte & (1u8 << self.bit_count)) != 0;
        proof {
            lemma_mask_is_bit(self.current_byte, self.bit_count);
            assert(before.skip(1) =~= low_bits(self.current_byte, self.bit_count));
            assert((before + rest).skip(1) =~= before.skip(1) + rest);
        }
        Some(bit)
    }
}

} // verus!
