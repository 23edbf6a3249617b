//! A growable bit buffer: bits are appended MSB-first into a byte vector.
use vstd::prelude::*;

verus! {

/// Bit `j` (0 = most significant) of byte `b`.
pub open spec fn byte_bit(b: u8, j: int) -> bool {
    (b >> (7 - j) as u8) & 1 == 1
}

/// The low `n` bits of `v`, most significant first.
pub open spec fn bits_of(v: u8, n: nat) -> Seq<bool> {
    Seq::new(n, |k: int| (v >> (n - 1 - k) as u8) & 1 == 1)
}

/// The low `n` bits of a wide value `v`, most significant first.
pub open spec fn wide_bits_of(v: usize, n: nat) -> Seq<bool> {
    Seq::new(n, |k: int| ((v as u64) >> (n - 1 - k) as u64) & 1 == 1)
}


/// A bit of the stream, light once past the end: the zero padding a byte
/// boundary brings.
pub open spec fn spec_bit_padded(bits: Seq<bool>, k: int) -> bool {
    0 <= k < bits.len() && bits[k]
}

/// A byte from eight bits, most significant first.
pub open spec fn spec_pack_byte(
    b0: bool,
    b1: bool,
    b2: bool,
    b3: bool,
    b4: bool,
    b5: bool,
    b6: bool,
    b7: bool,
) -> u8 {
    (if b0 { 0x80u8 } else { 0u8 }) | (if b1 { 0x40u8 } else { 0u8 }) | (if b2 {
        0x20u8
    } else {
        0u8
    }) | (if b3 { 0x10u8 } else { 0u8 }) | (if b4 { 0x08u8 } else { 0u8 }) | (if b5 {
        0x04u8
    } else {
        0u8
    }) | (if b6 { 0x02u8 } else { 0u8 }) | (if b7 { 0x01u8 } else { 0u8 })
}

/// The byte form of a bit sequence: packed most significant bit first, the
/// tail byte zero-padded.
pub open spec fn spec_stream_bytes(bits: Seq<bool>) -> Seq<u8> {
    Seq::new(
        ((bits.len() + 7) / 8) as nat,
        |k: int|
            spec_pack_byte(
                spec_bit_padded(bits, 8 * k),
                spec_bit_padded(bits, 8 * k + 1),
                spec_bit_padded(bits, 8 * k + 2),
                spec_bit_padded(bits, 8 * k + 3),
                spec_bit_padded(bits, 8 * k + 4),
                spec_bit_padded(bits, 8 * k + 5),
                spec_bit_padded(bits, 8 * k + 6),
                spec_bit_padded(bits, 8 * k + 7),
            ),
    )
}

/// Reading a packed byte gives back its bits.
proof fn lemma_pack_byte_bits(b0: bool, b1: bool, b2: bool, b3: bool, b4: bool, b5: bool, b6: bool, b7: bool)
    ensures
        byte_bit(spec_pack_byte(b0, b1, b2, b3, b4, b5, b6, b7), 0) == b0,
        byte_bit(spec_pack_byte(b0, b1, b2, b3, b4, b5, b6, b7), 1) == b1,
        byte_bit(spec_pack_byte(b0, b1, b2, b3, b4, b5, b6, b7), 2) == b2,
        byte_bit(spec_pack_byte(b0, b1, b2, b3, b4, b5, b6, b7), 3) == b3,
        byte_bit(spec_pack_byte(b0, b1, b2, b3, b4, b5, b6, b7), 4) == b4,
        byte_bit(spec_pack_byte(b0, b1, b2, b3, b4, b5, b6, b7), 5) == b5,
        byte_bit(spec_pack_byte(b0, b1, b2, b3, b4, b5, b6, b7), 6) == b6,
        byte_bit(spec_pack_byte(b0, b1, b2, b3, b4, b5, b6, b7), 7) == b7,
{
    let p = spec_pack_byte(b0, b1, b2, b3, b4, b5, b6, b7);
    assert((p >> 7u8) & 1 == (if b0 { 1u8 } else { 0u8 }) && (p >> 6u8) & 1 == (if b1 {
        1u8
    } else {
        0u8
    }) && (p >> 5u8) & 1 == (if b2 { 1u8 } else { 0u8 }) && (p >> 4u8) & 1 == (if b3 {
        1u8
    } else {
        0u8
    }) && (p >> 3u8) & 1 == (if b4 { 1u8 } else { 0u8 }) && (p >> 2u8) & 1 == (if b5 {
        1u8
    } else {
        0u8
    }) && (p >> 1u8) & 1 == (if b6 { 1u8 } else { 0u8 }) && (p >> 0u8) & 1 == (if b7 {
        1u8
    } else {
        0u8
    })) by (bit_vector)
        requires
            p == (if b0 { 0x80u8 } else { 0u8 }) | (if b1 { 0x40u8 } else { 0u8 }) | (if b2 {
                0x20u8
            } else {
                0u8
            }) | (if b3 { 0x10u8 } else { 0u8 }) | (if b4 { 0x08u8 } else { 0u8 }) | (if b5 {
                0x04u8
            } else {
                0u8
            }) | (if b6 { 0x02u8 } else { 0u8 }) | (if b7 { 0x01u8 } else { 0u8 }),
    ;
}

/// Two bytes that agree on every bit are the same byte.
proof fn lemma_byte_ext(a: u8, b: u8)
    requires
        forall|j: int| 0 <= j < 8 ==> byte_bit(a, j) == byte_bit(b, j),
    ensures
        a == b,
{
    assert(byte_bit(a, 0) == byte_bit(b, 0) && byte_bit(a, 1) == byte_bit(b, 1) && byte_bit(a, 2)
        == byte_bit(b, 2) && byte_bit(a, 3) == byte_bit(b, 3) && byte_bit(a, 4) == byte_bit(b, 4)
        && byte_bit(a, 5) == byte_bit(b, 5) && byte_bit(a, 6) == byte_bit(b, 6) && byte_bit(a, 7)
        == byte_bit(b, 7));
    assert(a == b) by (bit_vector)
        requires
            ((a >> 7u8) & 1 == 1) == ((b >> 7u8) & 1 == 1),
            ((a >> 6u8) & 1 == 1) == ((b >> 6u8) & 1 == 1),
            ((a >> 5u8) & 1 == 1) == ((b >> 5u8) & 1 == 1),
            ((a >> 4u8) & 1 == 1) == ((b >> 4u8) & 1 == 1),
            ((a >> 3u8) & 1 == 1) == ((b >> 3u8) & 1 == 1),
            ((a >> 2u8) & 1 == 1) == ((b >> 2u8) & 1 == 1),
            ((a >> 1u8) & 1 == 1) == ((b >> 1u8) & 1 == 1),
            ((a >> 0u8) & 1 == 1) == ((b >> 0u8) & 1 == 1),
    ;
}

/// An ordered sequence of bits, packed MSB-first into bytes; `offset` counts
/// the bits already filled in the tail byte.
pub struct BitStream {
    bytes: Vec<u8>,
    offset: u8,
}

impl BitStream {
    /// Number of bits held.
    pub closed spec fn spec_len(&self) -> nat {
        if self.offset == 0 {
            (self.bytes@.len() * 8) as nat
        } else {
            ((self.bytes@.len() - 1) * 8 + self.offset) as nat
        }
    }

    /// The bits held, in push order.
    pub closed spec fn view(&self) -> Seq<bool> {
        Seq::new(self.spec_len(), |k: int| byte_bit(self.bytes@[k / 8], k % 8))
    }

    /// The tail byte's unfilled bits are zero, so the byte form of the
    /// stream is the bit sequence zero-padded to a byte boundary.
    pub closed spec fn wf(&self) -> bool {
        &&& self.offset < 8
        &&& self.offset != 0 ==> self.bytes@.len() >= 1
        &&& self.offset != 0 ==> self.bytes@.last() & (0xFFu8 >> self.offset) == 0
        &&& self.bytes@.len() * 8 <= usize::MAX
    }

    pub fn new() -> (r: Self)
        ensures
            r.wf(),
            r@ == Seq::<bool>::empty(),
    {
        let r = Self { bytes: Vec::new(), offset: 0 };
        proof {
            assert(r@ =~= Seq::<bool>::empty());
        }
        r
    }

    /// Current length in bits.
    pub fn size(&self) -> (r: usize)
        requires
            self.wf(),
        ensures
            r == self@.len(),
    {
        if self.offset == 0 {
            8 * self.bytes.len()
        } else {
            8 * (self.bytes.len() - 1) + self.offset as usize
        }
    }

    /// Append a single bit.
    pub fn push_bit(&mut self, b: bool)
        requires
            old(self).wf(),
            old(self)@.len() + 8 <= usize::MAX,
        ensures
            final(self).wf(),
            final(self)@ == old(self)@.push(b),
    {
        let ghost prev = *self;
        if self.offset == 0 {
            let byte: u8 = if b { 0x80 } else { 0x00 };
            self.bytes.push(byte);
            self.offset = 1;
            proof {
                assert forall|j: int| 0 <= j < 8 implies byte_bit(byte, j) == (j == 0 && b) by {
                    lemma_top_bit_byte(byte, b, j);
                }
                assert(byte & (0xFFu8 >> 1) == 0) by (bit_vector)
                    requires
                        byte == 0x80u8 || byte == 0x00u8,
                ;
                assert forall|k: int| 0 <= k < prev@.len() implies self@[k] == prev@[k] by {
                    assert(k / 8 < prev.bytes@.len()) by (nonlinear_arith)
                        requires
                            0 <= k < prev.bytes@.len() * 8,
                    ;
                }
                assert(self@ =~= prev@.push(b));
            }
        } else {
            let i = self.bytes.len() - 1;
            let last = self.bytes[i];
            let updated: u8 = if b {
                last | (0x80u8 >> self.offset)
            } else {
                last
            };
            self.bytes.set(i, updated);
            let off = self.offset;
            self.offset = if off == 7 { 0 } else { off + 1 };
            proof {
                lemma_set_next_bit(last, updated, off, b);
                assert forall|k: int| 0 <= k < prev@.len() implies self@[k] == prev@[k] by {
                    assert(k / 8 <= (prev.bytes@.len() - 1) && k % 8 < 8) by (nonlinear_arith)
                        requires
                            0 <= k < (prev.bytes@.len() - 1) * 8 + prev.offset,
                            prev.offset < 8,
                    ;
                    if k / 8 == prev.bytes@.len() - 1 {
                        assert(k % 8 < prev.offset) by (nonlinear_arith)
                            requires
                                0 <= k < (prev.bytes@.len() - 1) * 8 + prev.offset,
                                k / 8 == prev.bytes@.len() - 1,
                        ;
                    }
                }
                assert(self@.len() == prev@.len() + 1);
                assert(self@[prev@.len() as int] == b) by {
                    let k = prev@.len() as int;
                    assert(k / 8 == prev.bytes@.len() - 1 && k % 8 == prev.offset)
                        by (nonlinear_arith)
                        requires
                            k == (prev.bytes@.len() - 1) * 8 + prev.offset,
                            0 < prev.offset < 8,
                    ;
                }
                assert(self@ =~= prev@.push(b));
            }
        }
    }

    /// Append one whole byte, most significant bit first.
    pub fn push(&mut self, byte: u8)
        requires
            old(self).wf(),
            old(self)@.len() + 16 <= usize::MAX,
        ensures
            final(self).wf(),
            final(self)@ == old(self)@ + bits_of(byte, 8),
    {
        self.push_bits(byte, 8);
    }

    /// Append the low `size` bits of `number`, most significant first.
    pub fn push_bits(&mut self, number: u8, size: u8)
        requires
            old(self).wf(),
            size <= 8,
            old(self)@.len() + 16 <= usize::MAX,
        ensures
            final(self).wf(),
            final(self)@ == old(self)@ + bits_of(number, size as nat),
    {
        let ghost prev = *self;
        let mut k: u8 = 0;
        while k < size
            invariant
                self.wf(),
                k <= size <= 8,
                prev@.len() + 16 <= usize::MAX,
                self@ == prev@ + bits_of(number, size as nat).take(k as int),
            decreases size - k,
        {
            let b = (number >> (size - 1 - k)) & 1 == 1;
            self.push_bit(b);
            proof {
                assert(bits_of(number, size as nat).take(k + 1) =~= bits_of(
                    number,
                    size as nat,
                ).take(k as int).push(b));
            }
            k = k + 1;
        }
        proof {
            assert(bits_of(number, size as nat).take(size as int) =~= bits_of(
                number,
                size as nat,
            ));
        }
    }

    /// Append the low `size` bits of a wide value, most significant first.
    pub fn push_bits_big(&mut self, number: usize, size: u8)
        requires
            old(self).wf(),
            size <= 64,
            old(self)@.len() + size + 8 <= usize::MAX,
        ensures
            final(self).wf(),
            final(self)@ == old(self)@ + wide_bits_of(number, size as nat),
    {
        let ghost prev = *self;
        let mut k: u8 = 0;
        while k < size
            invariant
                self.wf(),
                k <= size <= 64,
                prev@.len() + size + 8 <= usize::MAX,
                self@ == prev@ + wide_bits_of(number, size as nat).take(k as int),
            decreases size - k,
        {
            let b = ((number as u64) >> ((size - 1 - k) as u64)) & 1 == 1;
            self.push_bit(b);
            proof {
                assert(wide_bits_of(number, size as nat).take(k + 1) =~= wide_bits_of(
                    number,
                    size as nat,
                ).take(k as int).push(b));
            }
            k = k + 1;
        }
        proof {
            assert(wide_bits_of(number, size as nat).take(size as int) =~= wide_bits_of(
                number,
                size as nat,
            ));
        }
    }

    /// Hand out the packed bytes and the exact bit length; the pad bits that
    /// fill the tail byte are zero.
    pub fn consume(self) -> (r: (Vec<u8>, usize))
        requires
            self.wf(),
        ensures
            r.1 == self@.len(),
            r.0@.len() * 8 < self@.len() + 8,
            self@.len() <= r.0@.len() * 8,
            forall|k: int|
                0 <= k < r.0@.len() * 8 ==> byte_bit(r.0@[k / 8], k % 8) == (k < self@.len()
                    && self@[k]),
            r.0@ == spec_stream_bytes(self@),
    {
        let sub_size: usize = if self.offset == 0 {
            0
        } else {
            (8 - self.offset) as usize
        };
        let size = 8 * self.bytes.len() - sub_size;
        proof {
            if self.offset != 0 {
                let last = self.bytes@.last();
                let off = self.offset;
                assert forall|j: int| off <= j < 8 implies !byte_bit(last, j) by {
                    lemma_low_bits_clear(last, off, j as u8);
                }
                assert forall|k: int|
                    0 <= k < self.bytes@.len() * 8 && !(k < self@.len()) implies !byte_bit(
                    #[trigger] self.bytes@[k / 8],
                    k % 8,
                ) by {
                    assert(k / 8 == self.bytes@.len() - 1 && k % 8 >= off) by (nonlinear_arith)
                        requires
                            (self.bytes@.len() - 1) * 8 + off <= k < self.bytes@.len() * 8,
                            0 < off < 8,
                    ;
                }
            }
        }
        proof {
            let bits = self@;
            let n = self.bytes@.len() as int;
            assert(n == (bits.len() + 7) / 8);
            assert forall|i: int| 0 <= i < n implies self.bytes@[i] == spec_stream_bytes(bits)[i] by {
                lemma_pack_byte_bits(
                    spec_bit_padded(bits, 8 * i),
                    spec_bit_padded(bits, 8 * i + 1),
                    spec_bit_padded(bits, 8 * i + 2),
                    spec_bit_padded(bits, 8 * i + 3),
                    spec_bit_padded(bits, 8 * i + 4),
                    spec_bit_padded(bits, 8 * i + 5),
                    spec_bit_padded(bits, 8 * i + 6),
                    spec_bit_padded(bits, 8 * i + 7),
                );
                assert forall|j: int| 0 <= j < 8 implies byte_bit(self.bytes@[i], j) == byte_bit(
                    spec_stream_bytes(bits)[i],
                    j,
                ) by {
                    let k = 8 * i + j;
                    assert(k / 8 == i && k % 8 == j) by (nonlinear_arith)
                        requires
                            k == 8 * i + j,
                            0 <= j < 8,
                            i >= 0,
                    ;
                    assert(0 <= k < n * 8) by (nonlinear_arith)
                        requires
                            k == 8 * i + j,
                            0 <= j < 8,
                            0 <= i < n,
                    ;
                }
                lemma_byte_ext(self.bytes@[i], spec_stream_bytes(bits)[i]);
            }
            assert(self.bytes@ =~= spec_stream_bytes(bits));
        }
        (self.bytes, size)
    }
}

proof fn lemma_top_bit_byte(byte: u8, b: bool, j: int)
    requires
        byte == if b { 0x80u8 } else { 0x00u8 },
        0 <= j < 8,
    ensures
        byte_bit(byte, j) == (j == 0 && b),
{
    let ju = j as u8;
    assert(((byte >> (7 - ju) as u8) & 1 == 1) == (ju == 0 && byte == 0x80)) by (bit_vector)
        requires
            ju < 8,
            byte == 0x80u8 || byte == 0x00u8,
    ;
}

/// Setting bit `off` of the tail byte keeps every other bit and keeps the
/// bits below `off + 1` clear.
proof fn lemma_set_next_bit(last: u8, updated: u8, off: u8, b: bool)
    requires
        0 < off < 8,
        last & (0xFFu8 >> off) == 0,
        updated == if b { last | (0x80u8 >> off) } else { last },
    ensures
        forall|j: int| 0 <= j < off ==> byte_bit(updated, j) == byte_bit(last, j),
        byte_bit(updated, off as int) == b,
        off < 7 ==> updated & (0xFFu8 >> (off + 1) as u8) == 0,
{
    assert forall|j: int| 0 <= j < off implies byte_bit(updated, j) == byte_bit(last, j) by {
        let ju = j as u8;
        if b {
            assert((((last | (0x80u8 >> off)) >> (7 - ju) as u8) & 1) == ((last >> (7 - ju) as u8)
                & 1)) by (bit_vector)
                requires
                    ju < off < 8,
            ;
        }
    }
    if b {
        assert((((last | (0x80u8 >> off)) >> (7 - off) as u8) & 1) == 1) by (bit_vector)
            requires
                0 < off < 8,
        ;
    } else {
        assert(((last >> (7 - off) as u8) & 1) == 0) by (bit_vector)
            requires
                0 < off < 8,
                last & (0xFFu8 >> off) == 0,
        ;
    }
    if off < 7 {
        if b {
            assert((last | (0x80u8 >> off)) & (0xFFu8 >> (off + 1) as u8) == 0) by (bit_vector)
                requires
                    0 < off < 7,
                    last & (0xFFu8 >> off) == 0,
            ;
        } else {
            assert(last & (0xFFu8 >> (off + 1) as u8) == 0) by (bit_vector)
                requires
                    0 < off < 7,
                    last & (0xFFu8 >> off) == 0,
            ;
        }
    }
}

/// Bits at and below position `off` of a byte whose low `8 - off` bits are
/// clear read as zero.
proof fn lemma_low_bits_clear(last: u8, off: u8, j: u8)
    requires
        0 < off < 8,
        off <= j < 8,
        last & (0xFFu8 >> off) == 0,
    ensures
        !byte_bit(last, j as int),
{
    assert(((last >> (7 - j) as u8) & 1) == 0) by (bit_vector)
        requires
            0 < off <= j < 8,
            last & (0xFFu8 >> off) == 0,
    ;
}


} // verus!
