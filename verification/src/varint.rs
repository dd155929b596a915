//! Variable-length integers: seven payload bits per byte, least-significant
//! group first, with the top bit of each byte telling whether more follow.
//! Signed values go through the zigzag mapping first.

use vstd::prelude::*;

verus! {

/// Why a varint could not be read.
#[derive(Debug, Clone, Copy, PartialEq, Eq)]
pub enum Error {
    /// The input ended before a byte with a clear continuation bit was seen.
    UnexpectedEof,
    /// More bytes carried the continuation bit than the integer width allows.
    MalformedVarint,
}

impl Error {
    /// A short description of the error.
    pub fn message(&self) -> (r: &'static str)
        ensures
            r@ == (match *self {
                Error::UnexpectedEof => "unexpected end of input"@,
                Error::MalformedVarint => "malformed varint"@,
            }),
    {
        match self {
            Error::UnexpectedEof => "unexpected end of input",
            Error::MalformedVarint => "malformed varint",
        }
    }
}

/// The longest encoding of a 32-bit integer, in bytes.
pub const MAX_VARINT32_SIZE: usize = 5;

/// The longest encoding of a 64-bit integer, in bytes.
pub const MAX_VARINT64_SIZE: usize = 10;

/// The zigzag image of a signed integer: `0, -1, 1, -2, 2, ...` go to
/// `0, 1, 2, 3, 4, ...`.
pub open spec fn zigzag(n: int) -> int {
    if n >= 0 {
        2 * n
    } else {
        -2 * n - 1
    }
}

/// The signed integer whose zigzag image is `u`.
pub open spec fn unzigzag(u: int) -> int {
    if u % 2 == 0 {
        u / 2
    } else {
        -(u / 2) - 1
    }
}

/// The zigzag image of a 32-bit integer: `(n << 1) ^ (n >> 31)`, with a
/// sign-extending shift.
pub fn zigzag_encode32(n: i32) -> (r: u32)
    ensures
        r == zigzag(n as int),
{
    assert(n >= 0 ==> ((n << 1) ^ (n >> 31)) as u32 == 2 * (n as u32)) by (bit_vector);
    assert(n < 0 ==> ((n << 1) ^ (n >> 31)) as u32 == 2 * ((-(n + 1)) as u32) + 1)
        by (bit_vector);
    ((n << 1) ^ (n >> 31)) as u32
}

/// The zigzag image of a 64-bit integer: `(n << 1) ^ (n >> 63)`, with a
/// sign-extending shift.
pub fn zigzag_encode64(n: i64) -> (r: u64)
    ensures
        r == zigzag(n as int),
{
    assert(n >= 0 ==> ((n << 1) ^ (n >> 63)) as u64 == 2 * (n as u64)) by (bit_vector);
    assert(n < 0 ==> ((n << 1) ^ (n >> 63)) as u64 == 2 * ((-(n + 1)) as u64) + 1)
        by (bit_vector);
    ((n << 1) ^ (n >> 63)) as u64
}

/// The 32-bit integer whose zigzag image is `n`: `(n >> 1) ^ -(n & 1)`.
pub fn zigzag_decode32(n: u32) -> (r: i32)
    ensures
        r == unzigzag(n as int),
{
    assert(n & 1 == n % 2 && n >> 1 == n / 2 && n >> 1 <= 0x7fff_ffff) by (bit_vector);
    let half: i32 = (n >> 1) as i32;
    let sign: i32 = -((n & 1) as i32);
    assert(sign == 0 ==> half ^ sign == half) by (bit_vector);
    assert(sign == -1i32 && half >= 0 ==> half ^ sign == -half - 1) by (bit_vector);
    half ^ sign
}

/// The 64-bit integer whose zigzag image is `n`: `(n >> 1) ^ -(n & 1)`.
pub fn zigzag_decode64(n: u64) -> (r: i64)
    ensures
        r == unzigzag(n as int),
{
    assert(n & 1 == n % 2 && n >> 1 == n / 2 && n >> 1 <= 0x7fff_ffff_ffff_ffff) by (bit_vector);
    let half: i64 = (n >> 1) as i64;
    let sign: i64 = -((n & 1) as i64);
    assert(sign == 0 ==> half ^ sign == half) by (bit_vector);
    assert(sign == -1i64 && half >= 0 ==> half ^ sign == -half - 1) by (bit_vector);
    half ^ sign
}

/// Decoding undoes encoding, on every integer.
pub proof fn lemma_zigzag_round_trip(n: int)
    ensures
        zigzag(n) >= 0,
        unzigzag(zigzag(n)) == n,
{
}

/// Encoding undoes decoding, on every natural number: with the law above,
/// the mapping is a bijection between the integers and the naturals.
pub proof fn lemma_unzigzag_round_trip(u: int)
    requires
        u >= 0,
    ensures
        zigzag(unzigzag(u)) == u,
{
}

/// The mapping takes each signed width onto the unsigned one.
pub proof fn lemma_zigzag_range(n: int)
    ensures
        i32::MIN <= n <= i32::MAX <==> 0 <= zigzag(n) <= u32::MAX,
        i64::MIN <= n <= i64::MAX <==> 0 <= zigzag(n) <= u64::MAX,
{
}

/// The absolute value of an integer.
pub open spec fn magnitude(n: int) -> int {
    if n >= 0 {
        n
    } else {
        -n
    }
}

/// A value of smaller magnitude has a smaller image, and the image of `n` is
/// twice its magnitude or one less.
pub proof fn lemma_zigzag_keeps_magnitude_order(a: int, b: int)
    requires
        magnitude(a) < magnitude(b),
    ensures
        zigzag(a) <= 2 * magnitude(a) < zigzag(b),
{
}

/// The encoding of a natural number: its base-128 digits, least significant
/// first, each but the last with the continuation bit (128) added.
pub open spec fn uvarint_bytes(v: nat) -> Seq<u8>
    decreases v,
{
    if v < 128 {
        seq![v as u8]
    } else {
        seq![(v % 128 + 128) as u8] + uvarint_bytes(v / 128)
    }
}

/// The encoding of a signed integer: that of its zigzag image.
pub open spec fn varint_bytes(n: int) -> Seq<u8> {
    uvarint_bytes(zigzag(n) as nat)
}

/// 128 to the power `n`.
pub open spec fn pow128(n: nat) -> nat
    decreases n,
{
    if n == 0 {
        1
    } else {
        128 * pow128((n - 1) as nat)
    }
}

/// An encoding is never empty, and a number below `128^k` takes at most `k`
/// bytes.
pub proof fn lemma_uvarint_len(v: nat, k: nat)
    requires
        k >= 1,
        v < pow128(k),
    ensures
        1 <= uvarint_bytes(v).len() <= k,
    decreases k,
{
    reveal_with_fuel(pow128, 2);
    if v >= 128 {
        lemma_uvarint_len(v / 128, (k - 1) as nat);
    }
}

/// The size bound: a 32-bit value takes from one to five bytes, a 64-bit
/// value from one to ten, and a value below 128 exactly one.
pub proof fn lemma_uvarint_size_bound(v: nat)
    ensures
        uvarint_bytes(v).len() >= 1,
        v < 128 ==> uvarint_bytes(v).len() == 1,
        v <= u32::MAX ==> uvarint_bytes(v).len() <= MAX_VARINT32_SIZE,
        v <= u64::MAX ==> uvarint_bytes(v).len() <= MAX_VARINT64_SIZE,
{
    reveal_with_fuel(pow128, 11);
    if v <= u32::MAX {
        lemma_uvarint_len(v, 5);
    }
    if v <= u64::MAX {
        lemma_uvarint_len(v, 10);
    } else {
        lemma_uvarint_nonempty(v);
    }
}

proof fn lemma_uvarint_nonempty(v: nat)
    ensures
        uvarint_bytes(v).len() >= 1,
    decreases v,
{
    if v >= 128 {
        lemma_uvarint_nonempty(v / 128);
    }
}

/// The longest encoding of an integer of type `T`: its bits, seven to a
/// byte, rounded up.
pub fn max_varint_size<T>() -> (r: usize)
    requires
        vstd::layout::size_of::<T>() * 8 + 6 <= usize::MAX,
    ensures
        r == (vstd::layout::size_of::<T>() * 8 + 6) / 7,
{
    (core::mem::size_of::<T>() * 8 + 6) / 7
}

/// Appends the encoding of `value` to `w` and returns its length.
pub fn write_uvarint32(w: &mut Vec<u8>, value: u32) -> (n: usize)
    ensures
        final(w)@ == old(w)@ + uvarint_bytes(value as nat),
        n == uvarint_bytes(value as nat).len(),
        1 <= n <= MAX_VARINT32_SIZE,
        value < 0x80 ==> n == 1,
{
    let mut v: u32 = value;
    let mut count: usize = 0;
    proof {
        lemma_uvarint_size_bound(value as nat);
    }
    while v >= 0x80
        invariant
            w@ + uvarint_bytes(v as nat) == old(w)@ + uvarint_bytes(value as nat),
            count + uvarint_bytes(v as nat).len() == uvarint_bytes(value as nat).len(),
            uvarint_bytes(value as nat).len() <= MAX_VARINT32_SIZE,
        decreases v,
    {
        let ghost before = w@;
        assert(((v & 0x7f) | 0x80) as u8 == v % 128 + 128 && v >> 7 == v / 128 && v >> 7 < v)
            by (bit_vector)
            requires
                v >= 0x80,
        ;
        w.push(((v & 0x7f) | 0x80) as u8);
        assert(w@ + uvarint_bytes((v / 128) as nat) =~= before + uvarint_bytes(v as nat));
        v >>= 7;
        count += 1;
    }
    let ghost before = w@;
    w.push(v as u8);
    assert(w@ =~= before + uvarint_bytes(v as nat));
    count + 1
}

/// Appends the encoding of `value` to `w` and returns its length.
pub fn write_uvarint64(w: &mut Vec<u8>, value: u64) -> (n: usize)
    ensures
        final(w)@ == old(w)@ + uvarint_bytes(value as nat),
        n == uvarint_bytes(value as nat).len(),
        1 <= n <= MAX_VARINT64_SIZE,
        value < 0x80 ==> n == 1,
{
    let mut v: u64 = value;
    let mut count: usize = 0;
    proof {
        lemma_uvarint_size_bound(value as nat);
    }
    while v >= 0x80
        invariant
            w@ + uvarint_bytes(v as nat) == old(w)@ + uvarint_bytes(value as nat),
            count + uvarint_bytes(v as nat).len() == uvarint_bytes(value as nat).len(),
            uvarint_bytes(value as nat).len() <= MAX_VARINT64_SIZE,
        decreases v,
    {
        let ghost before = w@;
        assert(((v & 0x7f) | 0x80) as u8 == v % 128 + 128 && v >> 7 == v / 128 && v >> 7 < v)
            by (bit_vector)
            requires
                v >= 0x80,
        ;
        w.push(((v & 0x7f) | 0x80) as u8);
        assert(w@ + uvarint_bytes((v / 128) as nat) =~= before + uvarint_bytes(v as nat));
        v >>= 7;
        count += 1;
    }
    let ghost before = w@;
    w.push(v as u8);
    assert(w@ =~= before + uvarint_bytes(v as nat));
    count + 1
}

/// Appends the encoding of the zigzag image of `value` to `w` and returns
/// its length.
pub fn write_varint32(w: &mut Vec<u8>, value: i32) -> (n: usize)
    ensures
        final(w)@ == old(w)@ + varint_bytes(value as int),
        n == varint_bytes(value as int).len(),
        1 <= n <= MAX_VARINT32_SIZE,
{
    write_uvarint32(w, zigzag_encode32(value))
}

/// Appends the encoding of the zigzag image of `value` to `w` and returns
/// its length.
pub fn write_varint64(w: &mut Vec<u8>, value: i64) -> (n: usize)
    ensures
        final(w)@ == old(w)@ + varint_bytes(value as int),
        n == varint_bytes(value as int).len(),
        1 <= n <= MAX_VARINT64_SIZE,
{
    write_uvarint64(w, zigzag_encode64(value))
}

/// How many bytes at the start of `s` carry the continuation bit.
pub open spec fn continuation_run(s: Seq<u8>) -> nat
    decreases s.len(),
{
    if s.len() > 0 && s[0] >= 0x80 {
        1 + continuation_run(s.drop_first())
    } else {
        0
    }
}

/// The number whose base-128 digits, least significant first, are the low
/// seven bits of each byte of `s`.
pub open spec fn payload_sum(s: Seq<u8>) -> nat
    decreases s.len(),
{
    if s.len() == 0 {
        0
    } else {
        (s[0] % 128) as nat + 128 * payload_sum(s.drop_first())
    }
}

/// What reading one 32-bit varint from the front of `s` gives. The first
/// byte with a clear continuation bit ends the varint; it must be among the
/// first five. The value is the payload sum up to that byte, cut to 32 bits,
/// and comes with the number of bytes taken. An input of at most five bytes
/// that all ask for more has ended too early; a longer one without an end
/// among its first five bytes is malformed.
pub open spec fn uvarint32_decoding(s: Seq<u8>) -> Result<(u32, usize), Error> {
    let run = continuation_run(s);
    if run < s.len() && run < MAX_VARINT32_SIZE {
        Ok(((payload_sum(s.take((run + 1) as int)) % 0x1_0000_0000) as u32, (run + 1) as usize))
    } else if s.len() <= MAX_VARINT32_SIZE {
        Err(Error::UnexpectedEof)
    } else {
        Err(Error::MalformedVarint)
    }
}

/// What reading one 64-bit varint from the front of `s` gives: as for 32
/// bits, with ten bytes at most and the value cut to 64 bits.
pub open spec fn uvarint64_decoding(s: Seq<u8>) -> Result<(u64, usize), Error> {
    let run = continuation_run(s);
    if run < s.len() && run < MAX_VARINT64_SIZE {
        Ok(
            (
                (payload_sum(s.take((run + 1) as int)) % 0x1_0000_0000_0000_0000) as u64,
                (run + 1) as usize,
            ),
        )
    } else if s.len() <= MAX_VARINT64_SIZE {
        Err(Error::UnexpectedEof)
    } else {
        Err(Error::MalformedVarint)
    }
}

/// What reading one signed 32-bit varint from the front of `s` gives.
pub open spec fn varint32_decoding(s: Seq<u8>) -> Result<(i32, usize), Error> {
    match uvarint32_decoding(s) {
        Ok((u, n)) => Ok((unzigzag(u as int) as i32, n)),
        Err(e) => Err(e),
    }
}

/// What reading one signed 64-bit varint from the front of `s` gives.
pub open spec fn varint64_decoding(s: Seq<u8>) -> Result<(i64, usize), Error> {
    match uvarint64_decoding(s) {
        Ok((u, n)) => Ok((unzigzag(u as int) as i64, n)),
        Err(e) => Err(e),
    }
}

/// Where the first `n` bytes of `s` all carry the continuation bit, the run
/// is at least `n`; it is `n` where the input ends there or the next byte
/// does not carry it.
pub proof fn lemma_continuation_run(s: Seq<u8>, n: nat)
    requires
        n <= s.len(),
        forall|i: int| 0 <= i < n ==> s[i] >= 0x80,
    ensures
        n <= continuation_run(s) <= s.len(),
        n == s.len() || s[n as int] < 0x80 ==> continuation_run(s) == n,
    decreases s.len(),
{
    if s.len() > 0 && s[0] >= 0x80 {
        let t = s.drop_first();
        if n > 0 {
            assert forall|i: int| 0 <= i < n - 1 implies t[i] >= 0x80 by {
                assert(t[i] == s[i + 1]);
            }
            lemma_continuation_run(t, (n - 1) as nat);
        } else {
            lemma_continuation_run(t, 0);
        }
    }
}

/// A payload sum of `n` bytes is below `128^n`, and a byte added at the end
/// is the most significant digit.
pub proof fn lemma_payload_sum_push(s: Seq<u8>, b: u8)
    ensures
        payload_sum(s) < pow128(s.len()),
        payload_sum(s.push(b)) == payload_sum(s) + (b % 128) * pow128(s.len()),
    decreases s.len(),
{
    if s.len() == 0 {
        assert(s.push(b).drop_first() =~= s);
        assert(s.push(b)[0] == b);
        assert(payload_sum(s.push(b)) == (b % 128) + 128 * payload_sum(s));
        assert(pow128(0) == 1);
        assert((b % 128) * pow128(s.len()) == b % 128);
    } else {
        let t = s.drop_first();
        lemma_payload_sum_push(t, b);
        assert(s.push(b).drop_first() =~= t.push(b));
        assert(s.push(b)[0] == s[0]);
        assert(payload_sum(s.push(b)) == (s[0] % 128) + 128 * payload_sum(t.push(b)));
        assert(payload_sum(s) == (s[0] % 128) + 128 * payload_sum(t));
        assert(128 * ((b % 128) * pow128(t.len())) == (b % 128) * pow128(s.len()))
            by (nonlinear_arith)
            requires
                pow128(s.len()) == 128 * pow128(t.len()),
        ;
    }
}

proof fn lemma_pow128_values()
    ensures
        pow128(0) == 1,
        pow128(1) == 0x80,
        pow128(2) == 0x4000,
        pow128(3) == 0x20_0000,
        pow128(4) == 0x1000_0000,
        pow128(5) == 0x8_0000_0000,
        pow128(6) == 0x400_0000_0000,
        pow128(7) == 0x2_0000_0000_0000,
        pow128(8) == 0x100_0000_0000_0000,
        pow128(9) == 0x8000_0000_0000_0000,
{
    reveal_with_fuel(pow128, 11);
}

proof fn lemma_or_shifted32(r: u32, p: u32)
    by (bit_vector)
    requires
        p < 128,
    ensures
        r < 1 ==> r | (p << 0u32) == r + p * 1,
        r < 0x80 ==> r | (p << 7u32) == r + p * 0x80,
        r < 0x4000 ==> r | (p << 14u32) == r + p * 0x4000,
        r < 0x20_0000 ==> r | (p << 21u32) == r + p * 0x20_0000,
        r < 0x1000_0000 ==> (r | (p << 28u32)) == (r as u64 + (p as u64) * 0x1000_0000)
            % 0x1_0000_0000,
{
}

proof fn lemma_or_shifted64(r: u64, p: u64)
    by (bit_vector)
    requires
        p < 128,
    ensures
        r < 1 ==> r | (p << 0u64) == r + p * 1,
        r < 0x80 ==> r | (p << 7u64) == r + p * 0x80,
        r < 0x4000 ==> r | (p << 14u64) == r + p * 0x4000,
        r < 0x20_0000 ==> r | (p << 21u64) == r + p * 0x20_0000,
        r < 0x1000_0000 ==> r | (p << 28u64) == r + p * 0x1000_0000,
        r < 0x8_0000_0000 ==> r | (p << 35u64) == r + p * 0x8_0000_0000,
        r < 0x400_0000_0000 ==> r | (p << 42u64) == r + p * 0x400_0000_0000,
        r < 0x2_0000_0000_0000 ==> r | (p << 49u64) == r + p * 0x2_0000_0000_0000,
        r < 0x100_0000_0000_0000 ==> r | (p << 56u64) == r + p * 0x100_0000_0000_0000,
        r < 0x8000_0000_0000_0000 ==> (r | (p << 63u64)) == (r as u128 + (p as u128)
            * 0x8000_0000_0000_0000) % 0x1_0000_0000_0000_0000,
{
}

/// Reads one 32-bit varint from the front of `bytes`: the value and the
/// number of bytes it took.
pub fn read_uvarint32(bytes: &[u8]) -> (r: Result<(u32, usize), Error>)
    ensures
        r == uvarint32_decoding(bytes@),
{
    broadcast use vstd::layout::layout_of_primitives;

    let max = max_varint_size::<u32>();
    let mut result: u32 = 0;
    let mut count: usize = 0;
    assert(bytes@.take(0) =~= Seq::<u8>::empty());
    while count < max
        invariant
            max == MAX_VARINT32_SIZE,
            count <= max,
            count <= bytes.len(),
            forall|i: int| 0 <= i < count ==> bytes[i] >= 0x80,
            count < max ==> result == payload_sum(bytes@.take(count as int)),
        decreases max - count,
    {
        if count >= bytes.len() {
            proof {
                lemma_continuation_run(bytes@, count as nat);
            }
            return Err(Error::UnexpectedEof);
        }
        let byte = bytes[count];
        let payload: u32 = (byte & 0x7f) as u32;
        let shift: u32 = (count * 7) as u32;
        proof {
            let prefix = bytes@.take(count as int);
            assert(bytes@.take(count + 1) =~= prefix.push(byte));
            lemma_payload_sum_push(prefix, byte);
            lemma_payload_sum_push(prefix.push(byte), 0);
            lemma_pow128_values();
            assert(byte & 0x7f == byte % 128 && (byte & 0x80 == 0 <==> byte < 0x80))
                by (bit_vector);
            lemma_or_shifted32(result, payload);
        }
        result |= payload << shift;
        if byte & 0x80 == 0 {
            proof {
                lemma_continuation_run(bytes@, count as nat);
            }
            return Ok((result, count + 1));
        }
        count += 1;
    }
    proof {
        lemma_continuation_run(bytes@, count as nat);
    }
    if bytes.len() <= max {
        Err(Error::UnexpectedEof)
    } else {
        Err(Error::MalformedVarint)
    }
}

/// Reads one 64-bit varint from the front of `bytes`: the value and the
/// number of bytes it took.
pub fn read_uvarint64(bytes: &[u8]) -> (r: Result<(u64, usize), Error>)
    ensures
        r == uvarint64_decoding(bytes@),
{
    broadcast use vstd::layout::layout_of_primitives;

    let max = max_varint_size::<u64>();
    let mut result: u64 = 0;
    let mut count: usize = 0;
    assert(bytes@.take(0) =~= Seq::<u8>::empty());
    while count < max
        invariant
            max == MAX_VARINT64_SIZE,
            count <= max,
            count <= bytes.len(),
            forall|i: int| 0 <= i < count ==> bytes[i] >= 0x80,
            count < max ==> result == payload_sum(bytes@.take(count as int)),
        decreases max - count,
    {
        if count >= bytes.len() {
            proof {
                lemma_continuation_run(bytes@, count as nat);
            }
            return Err(Error::UnexpectedEof);
        }
        let byte = bytes[count];
        let payload: u64 = (byte & 0x7f) as u64;
        let shift: u64 = (count * 7) as u64;
        proof {
            let prefix = bytes@.take(count as int);
            assert(bytes@.take(count + 1) =~= prefix.push(byte));
            lemma_payload_sum_push(prefix, byte);
            lemma_payload_sum_push(prefix.push(byte), 0);
            lemma_pow128_values();
            assert(byte & 0x7f == byte % 128 && (byte & 0x80 == 0 <==> byte < 0x80))
                by (bit_vector);
            lemma_or_shifted64(result, payload);
        }
        result |= payload << shift;
        if byte & 0x80 == 0 {
            proof {
                lemma_continuation_run(bytes@, count as nat);
            }
            return Ok((result, count + 1));
        }
        count += 1;
    }
    proof {
        lemma_continuation_run(bytes@, count as nat);
    }
    if bytes.len() <= max {
        Err(Error::UnexpectedEof)
    } else {
        Err(Error::MalformedVarint)
    }
}

/// Reads one signed 32-bit varint from the front of `bytes`: the value and
/// the number of bytes it took.
pub fn read_varint32(bytes: &[u8]) -> (r: Result<(i32, usize), Error>)
    ensures
        r == varint32_decoding(bytes@),
{
    match read_uvarint32(bytes) {
        Ok((value, n)) => Ok((zigzag_decode32(value), n)),
        Err(e) => Err(e),
    }
}

/// Reads one signed 64-bit varint from the front of `bytes`: the value and
/// the number of bytes it took.
pub fn read_varint64(bytes: &[u8]) -> (r: Result<(i64, usize), Error>)
    ensures
        r == varint64_decoding(bytes@),
{
    match read_uvarint64(bytes) {
        Ok((value, n)) => Ok((zigzag_decode64(value), n)),
        Err(e) => Err(e),
    }
}

/// In an encoding every byte but the last carries the continuation bit,
/// whatever follows it, and its payload sum is the number encoded.
pub proof fn lemma_uvarint_bytes_shape(v: nat, rest: Seq<u8>)
    ensures
        continuation_run(uvarint_bytes(v) + rest) == uvarint_bytes(v).len() - 1,
        payload_sum(uvarint_bytes(v)) == v,
    decreases v,
{
    let e = uvarint_bytes(v);
    if v < 128 {
        assert((e + rest)[0] == v);
        assert(e.drop_first() =~= Seq::<u8>::empty());
        assert(payload_sum(e) == (e[0] % 128) + 128 * payload_sum(e.drop_first()));
    } else {
        let tail = uvarint_bytes(v / 128);
        lemma_uvarint_bytes_shape(v / 128, rest);
        assert((e + rest)[0] == v % 128 + 128);
        assert((e + rest).drop_first() =~= tail + rest);
        assert(e.drop_first() =~= tail);
        assert(payload_sum(e) == (e[0] % 128) + 128 * payload_sum(e.drop_first()));
    }
}

/// Round trip, unsigned 32 bits: reading what was written for `v`, with
/// anything behind it, gives `v` and the length of its encoding.
pub proof fn lemma_uvarint32_round_trip(v: u32, rest: Seq<u8>)
    ensures
        uvarint32_decoding(uvarint_bytes(v as nat) + rest) == Ok::<(u32, usize), Error>(
            (v, uvarint_bytes(v as nat).len() as usize),
        ),
{
    let e = uvarint_bytes(v as nat);
    lemma_uvarint_bytes_shape(v as nat, rest);
    lemma_uvarint_size_bound(v as nat);
    assert((e + rest).take(e.len() as int) =~= e);
}

/// Round trip, unsigned 64 bits: reading what was written for `v`, with
/// anything behind it, gives `v` and the length of its encoding.
pub proof fn lemma_uvarint64_round_trip(v: u64, rest: Seq<u8>)
    ensures
        uvarint64_decoding(uvarint_bytes(v as nat) + rest) == Ok::<(u64, usize), Error>(
            (v, uvarint_bytes(v as nat).len() as usize),
        ),
{
    let e = uvarint_bytes(v as nat);
    lemma_uvarint_bytes_shape(v as nat, rest);
    lemma_uvarint_size_bound(v as nat);
    assert((e + rest).take(e.len() as int) =~= e);
}

/// Round trip, signed 32 bits, the least and the greatest value included.
pub proof fn lemma_varint32_round_trip(n: i32, rest: Seq<u8>)
    ensures
        varint32_decoding(varint_bytes(n as int) + rest) == Ok::<(i32, usize), Error>(
            (n, varint_bytes(n as int).len() as usize),
        ),
{
    lemma_uvarint32_round_trip(zigzag(n as int) as u32, rest);
}

/// Round trip, signed 64 bits, the least and the greatest value included.
pub proof fn lemma_varint64_round_trip(n: i64, rest: Seq<u8>)
    ensures
        varint64_decoding(varint_bytes(n as int) + rest) == Ok::<(i64, usize), Error>(
            (n, varint_bytes(n as int).len() as usize),
        ),
{
    lemma_uvarint64_round_trip(zigzag(n as int) as u64, rest);
}

/// The size bound for signed values: from one to five bytes for 32 bits,
/// from one to ten for 64.
pub proof fn lemma_varint_size_bound(n: int)
    ensures
        varint_bytes(n).len() >= 1,
        i32::MIN <= n <= i32::MAX ==> varint_bytes(n).len() <= MAX_VARINT32_SIZE,
        i64::MIN <= n <= i64::MAX ==> varint_bytes(n).len() <= MAX_VARINT64_SIZE,
{
    lemma_uvarint_size_bound(zigzag(n) as nat);
}

/// Truncation: an input in which every byte asks for another gives no
/// value, at any width; while it is no longer than the width allows, the
/// error is the early end.
pub proof fn lemma_truncated_input_fails(s: Seq<u8>)
    requires
        forall|i: int| 0 <= i < s.len() ==> s[i] >= 0x80,
    ensures
        uvarint32_decoding(s) is Err,
        uvarint64_decoding(s) is Err,
        varint32_decoding(s) is Err,
        varint64_decoding(s) is Err,
        s.len() <= MAX_VARINT32_SIZE ==> uvarint32_decoding(s) == Err::<(u32, usize), Error>(
            Error::UnexpectedEof,
        ) && varint32_decoding(s) == Err::<(i32, usize), Error>(Error::UnexpectedEof),
        s.len() <= MAX_VARINT64_SIZE ==> uvarint64_decoding(s) == Err::<(u64, usize), Error>(
            Error::UnexpectedEof,
        ) && varint64_decoding(s) == Err::<(i64, usize), Error>(Error::UnexpectedEof),
{
    lemma_continuation_run(s, s.len());
}

/// A proper prefix of an encoding is such an input: it fails with the early
/// end.
pub proof fn lemma_cut_encoding_fails(v: u64, k: nat)
    requires
        k < uvarint_bytes(v as nat).len(),
    ensures
        uvarint64_decoding(uvarint_bytes(v as nat).take(k as int)) == Err::<(u64, usize), Error>(
            Error::UnexpectedEof,
        ),
        v <= u32::MAX ==> uvarint32_decoding(uvarint_bytes(v as nat).take(k as int)) == Err::<
            (u32, usize),
            Error,
        >(Error::UnexpectedEof),
{
    let e = uvarint_bytes(v as nat);
    let s = e.take(k as int);
    lemma_uvarint_bytes_shape(v as nat, Seq::empty());
    lemma_uvarint_size_bound(v as nat);
    assert(e + Seq::<u8>::empty() =~= e);
    assert forall|i: int| 0 <= i < s.len() implies s[i] >= 0x80 by {
        lemma_run_bytes_continue(e, i);
    }
    lemma_truncated_input_fails(s);
}

proof fn lemma_run_bytes_continue(s: Seq<u8>, i: int)
    requires
        0 <= i < continuation_run(s),
    ensures
        i < s.len(),
        s[i] >= 0x80,
    decreases s.len(),
{
    if i > 0 {
        lemma_run_bytes_continue(s.drop_first(), i - 1);
    }
}

/// Too long: an input of more bytes than the width allows, whose first
/// bytes up to that number all ask for another, is malformed.
pub proof fn lemma_overlong_input_is_malformed(s: Seq<u8>)
    ensures
        s.len() > MAX_VARINT32_SIZE && (forall|i: int|
            0 <= i < MAX_VARINT32_SIZE ==> s[i] >= 0x80) ==> uvarint32_decoding(s) == Err::<
            (u32, usize),
            Error,
        >(Error::MalformedVarint) && varint32_decoding(s) == Err::<(i32, usize), Error>(
            Error::MalformedVarint,
        ),
        s.len() > MAX_VARINT64_SIZE && (forall|i: int|
            0 <= i < MAX_VARINT64_SIZE ==> s[i] >= 0x80) ==> uvarint64_decoding(s) == Err::<
            (u64, usize),
            Error,
        >(Error::MalformedVarint) && varint64_decoding(s) == Err::<(i64, usize), Error>(
            Error::MalformedVarint,
        ),
{
    if s.len() > MAX_VARINT32_SIZE && (forall|i: int| 0 <= i < MAX_VARINT32_SIZE ==> s[i] >= 0x80) {
        lemma_continuation_run(s, 5);
    }
    if s.len() > MAX_VARINT64_SIZE && (forall|i: int| 0 <= i < MAX_VARINT64_SIZE ==> s[i] >= 0x80) {
        lemma_continuation_run(s, 10);
    }
}

} // verus!
