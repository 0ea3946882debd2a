use vstd::prelude::*;

verus! {

/// The CRC-32 generator polynomial (reflected form) used by PNG and zlib.
pub const CRC_POLY: u32 = 0xEDB8_8320;

/// One shift of the reflected CRC register.
pub open spec fn crc_step(c: u32) -> u32 {
    if c & 1 != 0 {
        CRC_POLY ^ (c >> 1)
    } else {
        c >> 1
    }
}

/// `k` shifts of the reflected CRC register.
pub open spec fn crc_iter(c: u32, k: nat) -> u32
    decreases k,
{
    if k == 0 {
        c
    } else {
        crc_step(crc_iter(c, (k - 1) as nat))
    }
}

/// Entry `i` of the byte-at-a-time CRC table.
pub open spec fn crc_table_entry(i: u32) -> u32 {
    crc_iter(i, 8)
}

/// The CRC register after the first `i` bytes of `data`
/// (register preset to all ones, as PNG and zlib prescribe).
pub open spec fn crc_register(data: Seq<u8>, i: nat) -> u32
    decreases i,
{
    if i == 0 {
        0xFFFF_FFFFu32
    } else {
        let c = crc_register(data, (i - 1) as nat);
        crc_table_entry((c ^ (data[i - 1] as u32)) & 0xFF) ^ (c >> 8)
    }
}

/// CRC-32 of a byte sequence: the final register, complemented.
pub open spec fn crc32_spec(data: Seq<u8>) -> u32 {
    crc_register(data, data.len()) ^ 0xFFFF_FFFFu32
}

/// The CRC register after the first `i` bytes of `data`, fed one bit at
/// a time: each byte is xored into the register, which then shifts eight
/// times.
pub open spec fn crc_bitwise(data: Seq<u8>, i: nat) -> u32
    decreases i,
{
    if i == 0 {
        0xFFFF_FFFFu32
    } else {
        crc_iter(crc_bitwise(data, (i - 1) as nat) ^ (data[i - 1] as u32), 8)
    }
}

/// Eight shifts of the register, written out.
spec fn crc8(c: u32) -> u32 {
    crc_step(crc_step(crc_step(crc_step(crc_step(crc_step(crc_step(crc_step(c))))))))
}

proof fn lemma_crc8(c: u32)
    ensures
        crc_iter(c, 8) == crc8(c),
        crc8(c) == crc8(c & 0xFF) ^ (c >> 8),
{
    reveal_with_fuel(crc_iter, 9);
    assert(crc8(c) == crc8(c & 0xFF) ^ (c >> 8)) by (bit_vector);
}

/// The byte-at-a-time register equals the bit-at-a-time one.
proof fn lemma_crc_register_bitwise(data: Seq<u8>, i: nat)
    requires
        i <= data.len(),
    ensures
        crc_register(data, i) == crc_bitwise(data, i),
    decreases i,
{
    if i > 0 {
        lemma_crc_register_bitwise(data, (i - 1) as nat);
        let c = crc_register(data, (i - 1) as nat);
        let b = data[i - 1] as u32;
        let x = c ^ b;
        lemma_crc8(x);
        lemma_crc8(x & 0xFF);
        assert((x & 0xFF) & 0xFF == x & 0xFF) by (bit_vector);
        assert(x >> 8 == c >> 8) by (bit_vector)
            requires
                x == c ^ b,
                b < 256,
        ;
    }
}

/// CRC-32 is the standard reflected CRC (polynomial 0xEDB88320, register
/// preset to all ones, result complemented) computed a bit at a time.
pub proof fn law_crc32_bitwise(data: Seq<u8>)
    ensures
        crc32_spec(data) == crc_bitwise(data, data.len()) ^ 0xFFFF_FFFFu32,
{
    lemma_crc_register_bitwise(data, data.len());
}

/// The Adler-32 modulus.
pub const ADLER_MOD: u32 = 65521;

/// The two Adler-32 running sums after the first `i` bytes of `data`.
pub open spec fn adler_sums(data: Seq<u8>, i: nat) -> (int, int)
    decreases i,
{
    if i == 0 {
        (1, 0)
    } else {
        let (a, b) = adler_sums(data, (i - 1) as nat);
        let a2 = (a + data[i - 1] as int) % (ADLER_MOD as int);
        (a2, (b + a2) % (ADLER_MOD as int))
    }
}

/// Adler-32 of a byte sequence: `b * 65536 + a`.
pub open spec fn adler32_spec(data: Seq<u8>) -> int {
    let (a, b) = adler_sums(data, data.len());
    b * 65536 + a
}

/// The byte-at-a-time CRC table: entry `i` is the register after eight
/// shifts starting from `i`.
pub fn crc32_table() -> (table: Vec<u32>)
    ensures
        table@.len() == 256,
        forall|i: int| 0 <= i < 256 ==> table@[i] == crc_table_entry(i as u32),
{
    let mut table: Vec<u32> = Vec::with_capacity(256);
    let mut i: u32 = 0;
    while i < 256
        invariant
            i <= 256,
            table@.len() == i,
            forall|j: int| 0 <= j < i ==> table@[j] == crc_table_entry(j as u32),
        decreases 256 - i,
    {
        let mut c: u32 = i;
        let mut k: u32 = 0;
        while k < 8
            invariant
                k <= 8,
                c == crc_iter(i, k as nat),
            decreases 8 - k,
        {
            c = if c & 1 != 0 {
                CRC_POLY ^ (c >> 1)
            } else {
                c >> 1
            };
            k = k + 1;
        }
        table.push(c);
        i = i + 1;
    }
    table
}

/// CRC-32 (ISO-HDLC / PNG / zlib) of `data`.
pub fn crc32(data: &[u8]) -> (crc: u32)
    ensures
        crc == crc32_spec(data@),
{
    let table = crc32_table();
    let mut c: u32 = 0xFFFF_FFFF;
    let mut i: usize = 0;
    while i < data.len()
        invariant
            i <= data@.len(),
            table@.len() == 256,
            forall|j: int| 0 <= j < 256 ==> table@[j] == crc_table_entry(j as u32),
            c == crc_register(data@, i as nat),
        decreases data@.len() - i,
    {
        let byte: u8 = data[i];
        let idx: u32 = (c ^ (byte as u32)) & 0xFF;
        assert(idx < 256) by (bit_vector)
            requires
                idx == (c ^ (byte as u32)) & 0xFF,
        ;
        c = table[idx as usize] ^ (c >> 8);
        i = i + 1;
    }
    c ^ 0xFFFF_FFFF
}

/// Adler-32 checksum (RFC 1950) of `data`.
pub fn adler32(data: &[u8]) -> (sum: u32)
    ensures
        sum as int == adler32_spec(data@),
{
    let mut a: u32 = 1;
    let mut b: u32 = 0;
    let mut i: usize = 0;
    while i < data.len()
        invariant
            i <= data@.len(),
            (a as int, b as int) == adler_sums(data@, i as nat),
            a < ADLER_MOD,
            b < ADLER_MOD,
        decreases data@.len() - i,
    {
        a = (a + data[i] as u32) % ADLER_MOD;
        b = (b + a) % ADLER_MOD;
        i = i + 1;
    }
    b * 65536 + a
}

} // verus!
