use vstd::prelude::*;

verus! {

/// `x` rotated left by `n` bits, for `n < 32` (what `u32::rotate_left` computes).
pub open spec fn rotl32(x: u32, n: u32) -> u32 {
    if n == 0 {
        x
    } else {
        (x << n) | (x >> ((32 - n) as u32))
    }
}

/// Rotates `x` left by `n` bits.
pub fn rotate32(x: u32, n: u32) -> (r: u32)
    requires
        n < 32,
    ensures
        r == rotl32(x, n),
{
    if n == 0 {
        x
    } else {
        (x << n) | (x >> (32 - n))
    }
}

/// The low four bits of a byte.
pub open spec fn low4(b: u8) -> u8 {
    b & 15
}

/// The low five bits of a byte.
pub open spec fn low5(b: u8) -> u8 {
    b & 31
}

pub proof fn lemma_low_bits(b: u8)
    ensures
        b & 15 < 16,
        b & 31 < 32,
        b & 7 < 8,
{
    assert(b & 15 < 16) by (bit_vector);
    assert(b & 31 < 32) by (bit_vector);
    assert(b & 7 < 8) by (bit_vector);
}

/// One bit step of the CRC-16 register.
pub open spec fn crc_shift(crc: u16) -> u16 {
    if crc & 1 != 0 {
        (crc >> 1u16) ^ 0xa001u16
    } else {
        crc >> 1u16
    }
}

/// `n` bit steps of the CRC-16 register.
pub open spec fn crc_shifts(crc: u16, n: nat) -> u16
    decreases n,
{
    if n == 0 {
        crc
    } else {
        crc_shifts(crc_shift(crc), (n - 1) as nat)
    }
}

/// The CRC-16 register after absorbing one byte.
pub open spec fn crc_byte(crc: u16, b: u8) -> u16 {
    crc_shifts(crc ^ (b as u16), 8)
}

/// CRC-16 (reflected polynomial 0xa001, initial value 0x5a5a) of a byte sequence.
pub open spec fn crc16_of(data: Seq<u8>) -> u16
    decreases data.len(),
{
    if data.len() == 0 {
        0x5a5a
    } else {
        crc_byte(crc16_of(data.drop_last()), data.last())
    }
}

pub fn crc16(data: &[u8]) -> (crc: u16)
    ensures
        crc == crc16_of(data@),
{
    let mut crc: u16 = 0x5a5a;
    let mut i: usize = 0;
    assert(data@.take(0) =~= Seq::<u8>::empty());
    while i < data.len()
        invariant
            i <= data@.len(),
            crc == crc16_of(data@.take(i as int)),
        decreases data.len() - i,
    {
        let b = data[i];
        let start: u16 = crc ^ (b as u16);
        crc = start;
        let mut j: usize = 0;
        while j < 8
            invariant
                j <= 8,
                crc_shifts(crc, (8 - j) as nat) == crc_shifts(start, 8),
            decreases 8 - j,
        {
            if crc & 1 != 0 {
                crc = (crc >> 1) ^ 0xa001;
            } else {
                crc = crc >> 1;
            }
            j = j + 1;
        }
        assert(data@.take(i + 1).drop_last() =~= data@.take(i as int));
        i = i + 1;
    }
    assert(data@.take(data@.len() as int) =~= data@);
    crc
}

/// One step of the rolling hash, for the byte `b` at index `i`.
pub open spec fn rolling_step(h: u32, i: int, b: u8) -> u32 {
    (rotl32(h, 5) ^ (b as u32).wrapping_mul(0x45d9_f3b)).wrapping_add(
        rotl32(i as u32, low4(b) as u32),
    )
}

/// The rolling hash of `data`, started from `seed`.
pub open spec fn rolling_of(seed: u32, data: Seq<u8>) -> u32
    decreases data.len(),
{
    if data.len() == 0 {
        seed ^ 0x9e37_79b9u32
    } else {
        rolling_step(rolling_of(seed, data.drop_last()), data.len() - 1, data.last())
    }
}

pub fn rolling32(seed: u32, data: &[u8]) -> (h: u32)
    ensures
        h == rolling_of(seed, data@),
{
    let mut h: u32 = seed ^ 0x9e37_79b9;
    let mut i: usize = 0;
    assert(data@.take(0) =~= Seq::<u8>::empty());
    while i < data.len()
        invariant
            i <= data@.len(),
            h == rolling_of(seed, data@.take(i as int)),
        decreases data.len() - i,
    {
        let b = data[i];
        proof {
            lemma_low_bits(b);
        }
        h = rotate32(h, 5) ^ (b as u32).wrapping_mul(0x45d9_f3b);
        h = h.wrapping_add(rotate32(i as u32, (b & 15) as u32));
        assert(data@.take(i + 1).drop_last() =~= data@.take(i as int));
        i = i + 1;
    }
    assert(data@.take(data@.len() as int) =~= data@);
    h
}

/// The score of a section: a rolling hash of its payload seeded with its header fields.
pub open spec fn section_score_of(kind: u8, id: u8, flags: u16, payload: Seq<u8>) -> u32 {
    rolling_of(
        (kind as u32 | ((id as u32) << 8u32) | ((flags as u32) << 16u32)) as u32,
        payload,
    ) ^ rotl32(payload.len() as u32, low5(kind) as u32)
}

pub fn section_score(kind: u8, id: u8, flags: u16, payload: &[u8]) -> (h: u32)
    ensures
        h == section_score_of(kind, id, flags, payload@),
{
    proof {
        lemma_low_bits(kind);
    }
    let mut h = rolling32(kind as u32 | ((id as u32) << 8) | ((flags as u32) << 16), payload);
    h = h ^ rotate32(payload.len() as u32, (kind & 31) as u32);
    h
}

/// The number of one bits among the lowest `k` bits of `x`.
pub open spec fn ones_in(x: nat, k: nat) -> nat
    decreases k,
{
    if k == 0 {
        0
    } else {
        x % 2 + ones_in(x / 2, (k - 1) as nat)
    }
}

/// The number of one bits of a 32-bit value (what `u32::count_ones` computes).
pub fn ones32(x: u32) -> (n: u32)
    ensures
        n == ones_in(x as nat, 32),
{
    let mut v = x;
    let mut n: u32 = 0;
    let mut i: u32 = 0;
    while i < 32
        invariant
            i <= 32,
            n <= i,
            n + ones_in(v as nat, (32 - i) as nat) == ones_in(x as nat, 32),
        decreases 32 - i,
    {
        n = n + v % 2;
        v = v / 2;
        i = i + 1;
    }
    n
}

} // verus!
