//! A byte-backed buffer addressed bit by bit. Within each byte bit 0 is the
//! least significant; a field of several bits is stored least-significant
//! bit first and may cross byte boundaries.

use vstd::arithmetic::div_mod::lemma_mod_breakdown;
use vstd::arithmetic::power2::{lemma2_to64, lemma_pow2_strictly_increases, lemma_pow2_unfold, pow2};
use vstd::prelude::*;

verus! {

/// Why a bit-buffer operation was refused.
#[derive(Debug, Clone, Copy, PartialEq, Eq)]
pub enum Error {
    /// A read asked for more bits than are left.
    Eof,
    /// A write or a position lies beyond the buffer, or a field is wider
    /// than its integer type.
    Overflow,
}

impl Error {
    /// A short description of the error.
    pub fn message(&self) -> (r: &'static str)
        ensures
            r@ == (match *self {
                Error::Eof => "end of buffer"@,
                Error::Overflow => "buffer overflow"@,
            }),
    {
        match self {
            Error::Eof => "end of buffer",
            Error::Overflow => "buffer overflow",
        }
    }
}

/// Whether bit `k` of `byte` is set, bit 0 being the least significant.
pub open spec fn bit_of(byte: u8, k: int) -> bool {
    byte & (1u8 << (k as u8)) != 0
}

/// The bits that a byte sequence holds: bit `k` lies in byte `k / 8`, at
/// place `k % 8`.
pub open spec fn stored_bits(bytes: Seq<u8>) -> Seq<bool> {
    Seq::new(bytes.len() * 8, |k: int| bit_of(bytes[k / 8], k % 8))
}

/// The low `n` bits of `v`, least significant first.
pub open spec fn low_bits(v: nat, n: nat) -> Seq<bool>
    decreases n,
{
    if n == 0 {
        Seq::empty()
    } else {
        seq![v % 2 == 1] + low_bits(v / 2, (n - 1) as nat)
    }
}

/// The number that a field of bits spells, least significant bit first.
pub open spec fn bits_value(bits: Seq<bool>) -> nat
    decreases bits.len(),
{
    if bits.len() == 0 {
        0
    } else {
        (if bits[0] {
            1nat
        } else {
            0nat
        }) + 2 * bits_value(bits.drop_first())
    }
}

/// The further of two positions.
pub open spec fn furthest(a: nat, b: nat) -> nat {
    if a >= b {
        a
    } else {
        b
    }
}

/// `bits` with `field` laid over it from position `pos` on.
pub open spec fn splice(bits: Seq<bool>, pos: int, field: Seq<bool>) -> Seq<bool> {
    Seq::new(
        bits.len(),
        |k: int|
            if pos <= k < pos + field.len() {
                field[k - pos]
            } else {
                bits[k]
            },
    )
}

/// The byte that holds bit `bit_num`, and the mask that picks the bit out of
/// that byte.
pub fn get_bit_for_bit_num(bit_num: usize) -> (r: (usize, u8))
    ensures
        r.0 == bit_num / 8,
        r.1 == 1u8 << ((bit_num % 8) as u8),
{
    let place: u8 = (bit_num % 8) as u8;
    (bit_num / 8, 1u8 << place)
}

/// A field of `n` bits spells a number below `2^n`.
pub proof fn lemma_bits_value_bound(bits: Seq<bool>)
    ensures
        bits_value(bits) < pow2(bits.len()),
    decreases bits.len(),
{
    if bits.len() == 0 {
        lemma2_to64();
    } else {
        lemma_bits_value_bound(bits.drop_first());
        lemma_pow2_unfold(bits.len());
    }
}

/// Round trip of a field: the low `n` bits of `v` spell `v` cut to `n` bits.
pub proof fn lemma_low_bits_value(v: nat, n: nat)
    ensures
        low_bits(v, n).len() == n,
        bits_value(low_bits(v, n)) == v % pow2(n),
    decreases n,
{
    if n == 0 {
        lemma2_to64();
    } else {
        let m = (n - 1) as nat;
        lemma_low_bits_value(v / 2, m);
        assert(low_bits(v, n).drop_first() =~= low_bits(v / 2, m));
        assert(low_bits(v, n)[0] == (v % 2 == 1));
        lemma_pow2_unfold(n);
        vstd::arithmetic::power2::lemma_pow2_pos(m);
        lemma_mod_breakdown(v as int, 2, pow2(m) as int);
    }
}

/// Round trip through a buffer: after a field of the low `n` bits of `v`
/// is laid over `bits` at `pos`, the `n` bits from `pos` on spell `v` cut to
/// `n` bits, and every bit outside the field is as it was.
pub proof fn lemma_field_round_trip(bits: Seq<bool>, pos: int, v: u64, n: int)
    requires
        0 <= n <= 64,
        0 <= pos,
        pos + n <= bits.len(),
    ensures
        bits_value(
            splice(bits, pos, low_bits(v as nat, n as nat)).subrange(pos, pos + n),
        ) == (v as nat) % pow2(n as nat),
        n == 64 ==> (v as nat) % pow2(n as nat) == v,
        splice(bits, pos, low_bits(v as nat, n as nat)).take(pos) == bits.take(pos),
        splice(bits, pos, low_bits(v as nat, n as nat)).skip(pos + n) == bits.skip(pos + n),
{
    let field = low_bits(v as nat, n as nat);
    let after = splice(bits, pos, field);
    lemma_low_bits_value(v as nat, n as nat);
    assert(after.subrange(pos, pos + n) =~= field);
    assert(after.take(pos) =~= bits.take(pos));
    assert(after.skip(pos + n) =~= bits.skip(pos + n));
    lemma2_to64();
}

proof fn lemma_change_bit(byte: u8, m: u8, j: u8)
    by (bit_vector)
    requires
        m < 8,
        j < 8,
    ensures
        ((byte | (1u8 << m)) & (1u8 << j) != 0) == (j == m || (byte & (1u8 << j) != 0)),
        ((byte & !(1u8 << m)) & (1u8 << j) != 0) == (j != m && (byte & (1u8 << j) != 0)),
{
}

/// Packs fields of given widths into a byte buffer, from a bit cursor on.
pub struct BitWriter {
    storage: Vec<u8>,
    cursor_bits: usize,
    high_water_bits: usize,
}

impl BitWriter {
    /// The cursor and the high-water mark lie within the buffer, and the
    /// number of its bits fits the machine's word.
    pub closed spec fn wf(&self) -> bool {
        &&& self.storage.len() * 8 <= usize::MAX
        &&& self.cursor_bits <= self.storage.len() * 8
        &&& self.high_water_bits <= self.storage.len() * 8
    }

    /// All the bits of the buffer.
    pub closed spec fn bits(&self) -> Seq<bool> {
        stored_bits(self.storage@)
    }

    /// The number of bits that the buffer can hold.
    pub open spec fn capacity(&self) -> nat {
        self.bits().len()
    }

    /// The bit position of the next write.
    pub closed spec fn cursor(&self) -> nat {
        self.cursor_bits as nat
    }

    /// The furthest position that a write has reached.
    pub closed spec fn high_water(&self) -> nat {
        self.high_water_bits as nat
    }

    /// A writer over `storage`, with the cursor at its first bit.
    pub fn new(storage: Vec<u8>) -> (w: BitWriter)
        requires
            storage.len() * 8 <= usize::MAX,
        ensures
            w.wf(),
            w.bits() == stored_bits(storage@),
            w.cursor() == 0,
            w.high_water() == 0,
    {
        BitWriter { storage, cursor_bits: 0, high_water_bits: 0 }
    }

    /// The number of bits that the buffer can hold.
    pub fn capacity_bits(&self) -> (r: usize)
        requires
            self.wf(),
        ensures
            r == self.capacity(),
    {
        self.storage.len() * 8
    }

    /// The bit position of the next write.
    pub fn cursor_bits(&self) -> (r: usize)
        ensures
            r == self.cursor(),
    {
        self.cursor_bits
    }

    /// The furthest position that a write has reached.
    pub fn high_water_bits(&self) -> (r: usize)
        ensures
            r == self.high_water(),
    {
        self.high_water_bits
    }

    /// Writes the low `num_bits` bits of `value` at the cursor, least
    /// significant first, and moves the cursor behind them. Bits outside the
    /// field keep their value. A field wider than 64 bits, or one that does
    /// not fit behind the cursor, is refused and nothing changes.
    pub fn write_bits(&mut self, value: u64, num_bits: usize) -> (r: Result<(), Error>)
        requires
            old(self).wf(),
        ensures
            final(self).wf(),
            r is Ok <==> num_bits <= 64 && old(self).cursor() + num_bits <= old(self).capacity(),
            r is Ok ==> final(self).bits() == splice(
                old(self).bits(),
                old(self).cursor() as int,
                low_bits(value as nat, num_bits as nat),
            ),
            r is Ok ==> final(self).cursor() == old(self).cursor() + num_bits,
            r is Ok ==> final(self).high_water() == furthest(
                old(self).high_water(),
                final(self).cursor(),
            ),
            r is Err ==> r == Err::<(), Error>(Error::Overflow) && *final(self) == *old(self),
    {
        let start = self.cursor_bits;
        if num_bits > 64 || num_bits > self.storage.len() * 8 - start {
            return Err(Error::Overflow);
        }
        let ghost before = self.storage@;
        let ghost field = low_bits(value as nat, num_bits as nat);
        let mut rest: u64 = value;
        let mut i: usize = 0;
        proof {
            lemma_low_bits_value(value as nat, num_bits as nat);
            assert(field.skip(0) =~= field);
            assert(stored_bits(before) =~= splice(stored_bits(before), start as int, field.take(0)));
        }
        while i < num_bits
            invariant
                i <= num_bits <= 64,
                start + num_bits <= before.len() * 8 <= usize::MAX,
                self.storage.len() == before.len(),
                self.cursor_bits == start,
                self.high_water_bits == old(self).high_water_bits,
                field.len() == num_bits,
                field.skip(i as int) == low_bits(rest as nat, (num_bits - i) as nat),
                stored_bits(self.storage@) == splice(
                    stored_bits(before),
                    start as int,
                    field.take(i as int),
                ),
            decreases num_bits - i,
        {
            let (index, mask) = get_bit_for_bit_num(start + i);
            let byte = self.storage[index];
            let ghost earlier = self.storage@;
            let changed: u8 = if rest & 1 == 1 {
                byte | mask
            } else {
                byte & !mask
            };
            self.storage.set(index, changed);
            proof {
                let place = start + i;
                assert(rest & 1 == rest % 2 && rest >> 1 == rest / 2) by (bit_vector);
                assert(field[i as int] == field.skip(i as int)[0]);
                assert(field.skip(i + 1) =~= field.skip(i as int).drop_first());
                assert(field.skip(i as int).drop_first() =~= low_bits(
                    (rest / 2) as nat,
                    (num_bits - i - 1) as nat,
                ));
                assert forall|k: int| 0 <= k < before.len() * 8 implies stored_bits(
                    self.storage@,
                )[k] == splice(stored_bits(before), start as int, field.take(i + 1))[k] by {
                    lemma_change_bit(byte, (place % 8) as u8, (k % 8) as u8);
                    assert(stored_bits(earlier)[k] == splice(
                        stored_bits(before),
                        start as int,
                        field.take(i as int),
                    )[k]);
                }
                assert(stored_bits(self.storage@) =~= splice(
                    stored_bits(before),
                    start as int,
                    field.take(i + 1),
                ));
            }
            rest = rest >> 1;
            i += 1;
        }
        assert(field.take(num_bits as int) =~= field);
        self.cursor_bits = start + num_bits;
        if self.cursor_bits > self.high_water_bits {
            self.high_water_bits = self.cursor_bits;
        }
        Ok(())
    }

    /// Writes the low `num_bits` bits of a 32-bit `value`: as `write_bits`,
    /// with a field of at most 32 bits.
    pub fn write_bits32(&mut self, value: u32, num_bits: usize) -> (r: Result<(), Error>)
        requires
            old(self).wf(),
        ensures
            final(self).wf(),
            r is Ok <==> num_bits <= 32 && old(self).cursor() + num_bits <= old(self).capacity(),
            r is Ok ==> final(self).bits() == splice(
                old(self).bits(),
                old(self).cursor() as int,
                low_bits(value as nat, num_bits as nat),
            ),
            r is Ok ==> final(self).cursor() == old(self).cursor() + num_bits,
            r is Ok ==> final(self).high_water() == furthest(
                old(self).high_water(),
                final(self).cursor(),
            ),
            r is Err ==> r == Err::<(), Error>(Error::Overflow) && *final(self) == *old(self),
    {
        if num_bits > 32 {
            return Err(Error::Overflow);
        }
        self.write_bits(value as u64, num_bits)
    }

    /// Moves the cursor to `position`; one beyond the buffer is refused.
    pub fn seek_bits(&mut self, position: usize) -> (r: Result<(), Error>)
        requires
            old(self).wf(),
        ensures
            final(self).wf(),
            final(self).bits() == old(self).bits(),
            final(self).high_water() == old(self).high_water(),
            r is Ok <==> position <= old(self).capacity(),
            r is Ok ==> final(self).cursor() == position,
            r is Err ==> r == Err::<(), Error>(Error::Overflow) && final(self).cursor() == old(
                self,
            ).cursor(),
    {
        if position > self.storage.len() * 8 {
            return Err(Error::Overflow);
        }
        self.cursor_bits = position;
        Ok(())
    }

    /// The number of bytes that hold what was written: the high-water mark,
    /// rounded up to whole bytes.
    pub fn bytes_written(&self) -> (r: usize)
        requires
            self.wf(),
        ensures
            r == (self.high_water() + 7) / 8,
            r * 8 <= self.capacity(),
    {
        self.high_water_bits / 8 + if self.high_water_bits % 8 == 0 {
            0
        } else {
            1
        }
    }

    /// Ends the session: the bytes that hold what was written. Behind the
    /// high-water mark the last byte holds whatever the buffer held there.
    pub fn finish(self) -> (r: Vec<u8>)
        requires
            self.wf(),
        ensures
            r.len() == (self.high_water() + 7) / 8,
            stored_bits(r@) == self.bits().take(r.len() * 8),
    {
        let len = self.bytes_written();
        let mut storage = self.storage;
        let ghost whole = storage@;
        storage.truncate(len);
        assert(stored_bits(storage@) =~= stored_bits(whole).take(len * 8));
        storage
    }
}

/// Reads back fields of given widths from a byte buffer, from a bit cursor
/// on: the mirror of `BitWriter`.
pub struct BitReader<'a> {
    storage: &'a [u8],
    length_bits: usize,
    cursor_bits: usize,
}

impl<'a> BitReader<'a> {
    /// The cursor lies within the readable bits, and those within the bytes.
    pub closed spec fn wf(&self) -> bool {
        &&& self.length_bits <= self.storage@.len() * 8
        &&& self.cursor_bits <= self.length_bits
    }

    /// The readable bits.
    pub closed spec fn bits(&self) -> Seq<bool> {
        stored_bits(self.storage@).take(self.length_bits as int)
    }

    /// The number of readable bits.
    pub open spec fn length(&self) -> nat {
        self.bits().len()
    }

    /// The bit position of the next read.
    pub closed spec fn cursor(&self) -> nat {
        self.cursor_bits as nat
    }

    /// A reader of the first `length_bits` bits of `storage`, with the
    /// cursor at the first; refused where `storage` holds fewer bits.
    pub fn new(storage: &'a [u8], length_bits: usize) -> (r: Result<BitReader<'a>, Error>)
        ensures
            r is Ok <==> length_bits <= storage@.len() * 8,
            (match r {
                Ok(reader) => reader.wf() && reader.bits() == stored_bits(storage@).take(
                    length_bits as int,
                ) && reader.cursor() == 0,
                Err(e) => e == Error::Overflow,
            }),
    {
        let whole = length_bits / 8;
        if whole > storage.len() || (whole == storage.len() && length_bits % 8 != 0) {
            return Err(Error::Overflow);
        }
        Ok(BitReader { storage, length_bits, cursor_bits: 0 })
    }

    /// The number of readable bits.
    pub fn length_bits(&self) -> (r: usize)
        requires
            self.wf(),
        ensures
            r == self.length(),
    {
        self.length_bits
    }

    /// The bit position of the next read.
    pub fn cursor_bits(&self) -> (r: usize)
        ensures
            r == self.cursor(),
    {
        self.cursor_bits
    }

    /// Reads the next `num_bits` bits, least significant first, and moves
    /// the cursor behind them. A field wider than 64 bits is refused, and so
    /// is one that reaches beyond the readable bits; the cursor then stays.
    pub fn read_bits(&mut self, num_bits: usize) -> (r: Result<u64, Error>)
        requires
            old(self).wf(),
        ensures
            final(self).wf(),
            final(self).bits() == old(self).bits(),
            (match r {
                Ok(value) => num_bits <= 64 && old(self).cursor() + num_bits <= old(self).length()
                    && value == bits_value(
                    old(self).bits().subrange(
                        old(self).cursor() as int,
                        old(self).cursor() + num_bits,
                    ),
                ) && final(self).cursor() == old(self).cursor() + num_bits,
                Err(Error::Overflow) => num_bits > 64 && *final(self) == *old(self),
                Err(Error::Eof) => num_bits <= 64 && old(self).cursor() + num_bits > old(
                    self,
                ).length() && *final(self) == *old(self),
            }),
    {
        if num_bits > 64 {
            return Err(Error::Overflow);
        }
        let start = self.cursor_bits;
        if num_bits > self.length_bits - start {
            return Err(Error::Eof);
        }
        let ghost field = self.bits().subrange(start as int, start + num_bits);
        let mut value: u64 = 0;
        let mut i: usize = num_bits;
        assert(field.skip(num_bits as int) =~= Seq::<bool>::empty());
        while i > 0
            invariant
                i <= num_bits <= 64,
                start + num_bits <= self.length_bits <= self.storage@.len() * 8,
                field == stored_bits(self.storage@).take(self.length_bits as int).subrange(
                    start as int,
                    start + num_bits,
                ),
                value == bits_value(field.skip(i as int)),
            decreases i,
        {
            i -= 1;
            let (index, mask) = get_bit_for_bit_num(start + i);
            let one: u64 = if self.storage[index] & mask != 0 {
                1
            } else {
                0
            };
            proof {
                let above = field.skip(i + 1);
                lemma_bits_value_bound(above);
                lemma2_to64();
                vstd::arithmetic::power2::lemma2_to64_rest();
                if above.len() < 63 {
                    lemma_pow2_strictly_increases(above.len(), 63);
                }
                assert(field.skip(i as int).drop_first() =~= above);
                assert(field.skip(i as int)[0] == (one == 1));
                assert((value << 1) | one == 2 * value + one) by (bit_vector)
                    requires
                        value < 0x8000_0000_0000_0000,
                        one <= 1,
                ;
            }
            value = (value << 1) | one;
        }
        assert(field.skip(0) =~= field);
        self.cursor_bits = start + num_bits;
        Ok(value)
    }

    /// Reads the next `num_bits` bits as a 32-bit value: as `read_bits`,
    /// with a field of at most 32 bits.
    pub fn read_bits32(&mut self, num_bits: usize) -> (r: Result<u32, Error>)
        requires
            old(self).wf(),
        ensures
            final(self).wf(),
            final(self).bits() == old(self).bits(),
            (match r {
                Ok(value) => num_bits <= 32 && old(self).cursor() + num_bits <= old(self).length()
                    && value == bits_value(
                    old(self).bits().subrange(
                        old(self).cursor() as int,
                        old(self).cursor() + num_bits,
                    ),
                ) && final(self).cursor() == old(self).cursor() + num_bits,
                Err(Error::Overflow) => num_bits > 32 && *final(self) == *old(self),
                Err(Error::Eof) => num_bits <= 32 && old(self).cursor() + num_bits > old(
                    self,
                ).length() && *final(self) == *old(self),
            }),
    {
        if num_bits > 32 {
            return Err(Error::Overflow);
        }
        let ghost field = self.bits().subrange(
            self.cursor() as int,
            self.cursor() + num_bits,
        );
        match self.read_bits(num_bits) {
            Ok(value) => {
                proof {
                    lemma_bits_value_bound(field);
                    lemma2_to64();
                    if num_bits < 32 {
                        lemma_pow2_strictly_increases(num_bits as nat, 32);
                    }
                }
                Ok(value as u32)
            },
            Err(e) => Err(e),
        }
    }

    /// Moves the cursor to `position`; one beyond the readable bits is
    /// refused.
    pub fn seek_bits(&mut self, position: usize) -> (r: Result<(), Error>)
        requires
            old(self).wf(),
        ensures
            final(self).wf(),
            final(self).bits() == old(self).bits(),
            r is Ok <==> position <= old(self).length(),
            r is Ok ==> final(self).cursor() == position,
            r is Err ==> r == Err::<(), Error>(Error::Overflow) && *final(self) == *old(self),
    {
        if position > self.length_bits {
            return Err(Error::Overflow);
        }
        self.cursor_bits = position;
        Ok(())
    }
}

} // verus!
