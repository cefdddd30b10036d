//! CRC-32 (ISO 3309 / ITU-T V.42): reflected polynomial 0xEDB88320,
//! register preset to all ones, result complemented. Table-driven, no
//! external dependencies.

use vstd::prelude::*;

verus! {

/// The reflected CRC-32 generator polynomial.
pub const CRC_POLY: u32 = 0xEDB8_8320;

/// One shift of the bitwise CRC-32 register.
pub open spec fn crc_bit_step(c: u32) -> u32 {
    if c & 1 != 0 {
        0xEDB8_8320u32 ^ (c >> 1u32)
    } else {
        c >> 1u32
    }
}

/// `n` shifts of the bitwise CRC-32 register.
pub open spec fn crc_shift(c: u32, n: nat) -> u32
    decreases n,
{
    if n == 0 {
        c
    } else {
        crc_bit_step(crc_shift(c, (n - 1) as nat))
    }
}

/// The register after feeding one byte.
pub open spec fn crc_byte(c: u32, b: u8) -> u32 {
    crc_shift(c ^ (b as u32), 8)
}

/// The register after feeding `data`, byte by byte, starting from `state`.
pub open spec fn crc_register(state: u32, data: Seq<u8>) -> u32
    decreases data.len(),
{
    if data.len() == 0 {
        state
    } else {
        crc_byte(crc_register(state, data.drop_last()), data.last())
    }
}

/// CRC-32 of a byte sequence.
pub open spec fn crc32(data: Seq<u8>) -> u32 {
    crc_register(0xFFFF_FFFFu32, data) ^ 0xFFFF_FFFFu32
}

proof fn lemma_bit_step_linear(a: u32, b: u32)
    ensures
        crc_bit_step(a ^ b) == crc_bit_step(a) ^ crc_bit_step(b),
{
    assert(crc_bit_step(a ^ b) == crc_bit_step(a) ^ crc_bit_step(b)) by (bit_vector);
}

proof fn lemma_shift_linear(a: u32, b: u32, n: nat)
    ensures
        crc_shift(a ^ b, n) == crc_shift(a, n) ^ crc_shift(b, n),
    decreases n,
{
    if n > 0 {
        lemma_shift_linear(a, b, (n - 1) as nat);
        lemma_bit_step_linear(crc_shift(a, (n - 1) as nat), crc_shift(b, (n - 1) as nat));
    }
}

proof fn lemma_shift_high(h: u32, k: u32)
    requires
        h & 0xff == 0,
        k <= 8,
    ensures
        crc_shift(h, k as nat) == h >> k,
    decreases k,
{
    if k == 0 {
        assert(h >> 0u32 == h) by (bit_vector);
    } else {
        let j = (k - 1) as u32;
        lemma_shift_high(h, j);
        assert(((h >> j) & 1 == 0) && ((h >> j) >> 1u32 == h >> k)) by (bit_vector)
            requires
                h & 0xff == 0,
                j < 8,
                k == j + 1,
        ;
    }
}

/// Eight register shifts split into a table entry for the low byte and a
/// plain shift of the rest.
proof fn lemma_table_split(x: u32)
    ensures
        crc_shift(x, 8) == crc_shift(x & 0xff, 8) ^ (x >> 8u32),
{
    let lo = x & 0xff;
    let hi = x & 0xffff_ff00;
    assert(x == lo ^ hi && hi & 0xff == 0 && hi >> 8u32 == x >> 8u32) by (bit_vector)
        requires
            lo == x & 0xff,
            hi == x & 0xffff_ff00,
    ;
    lemma_shift_linear(lo, hi, 8);
    lemma_shift_high(hi, 8);
}

/// The register update performed by the table-driven loop.
proof fn lemma_table_step(state: u32, b: u8, entry: u32)
    requires
        entry == crc_shift((state ^ (b as u32)) & 0xff, 8),
    ensures
        entry ^ (state >> 8u32) == crc_byte(state, b),
{
    let x = state ^ (b as u32);
    lemma_table_split(x);
    assert(x >> 8u32 == state >> 8u32) by (bit_vector)
        requires
            x == state ^ (b as u32),
    ;
}

/// Feeding `a` then `b` leaves the register where feeding `a + b` at once
/// leaves it: an incremental update equals a single update over the
/// concatenation.
pub proof fn lemma_crc_register_concat(state: u32, a: Seq<u8>, b: Seq<u8>)
    ensures
        crc_register(state, a + b) == crc_register(crc_register(state, a), b),
    decreases b.len(),
{
    if b.len() == 0 {
        assert(a + b =~= a);
    } else {
        lemma_crc_register_concat(state, a, b.drop_last());
        assert((a + b).drop_last() =~= a + b.drop_last());
        assert((a + b).last() == b.last());
    }
}

proof fn lemma_bit_step_nonzero(c: u32)
    requires
        c != 0,
    ensures
        crc_bit_step(c) != 0,
{
    assert(crc_bit_step(c) != 0) by (bit_vector)
        requires
            c != 0,
    ;
}

/// Shifting the register never clears a non-zero value.
proof fn lemma_shift_nonzero(c: u32, n: nat)
    requires
        c != 0,
    ensures
        crc_shift(c, n) != 0,
    decreases n,
{
    if n > 0 {
        lemma_shift_nonzero(c, (n - 1) as nat);
        lemma_bit_step_nonzero(crc_shift(c, (n - 1) as nat));
    }
}

/// Distinct registers stay distinct under any number of shifts.
proof fn lemma_shift_distinct(u: u32, w: u32, n: nat)
    requires
        u != w,
    ensures
        crc_shift(u, n) != crc_shift(w, n),
{
    let d = u ^ w;
    assert(d != 0 && u ^ d == w) by (bit_vector)
        requires
            u != w,
            d == u ^ w,
    ;
    lemma_shift_linear(u, d, n);
    lemma_shift_nonzero(d, n);
    let su = crc_shift(u, n);
    let sd = crc_shift(d, n);
    assert(su ^ sd != su) by (bit_vector)
        requires
            sd != 0,
    ;
}

/// Feeding the same bytes into distinct registers leaves them distinct.
proof fn lemma_register_distinct(y1: u32, y2: u32, c: Seq<u8>)
    requires
        y1 != y2,
    ensures
        crc_register(y1, c) != crc_register(y2, c),
    decreases c.len(),
{
    if c.len() > 0 {
        lemma_register_distinct(y1, y2, c.drop_last());
        let r1 = crc_register(y1, c.drop_last());
        let r2 = crc_register(y2, c.drop_last());
        let b = c.last() as u32;
        assert(r1 ^ b != r2 ^ b) by (bit_vector)
            requires
                r1 != r2,
        ;
        lemma_shift_distinct(r1 ^ b, r2 ^ b, 8);
    }
}

/// CRC-32 detects every change of a single byte: replacing any one byte of
/// `data` by a different value changes the checksum.
pub proof fn lemma_crc32_detects_byte_change(data: Seq<u8>, j: int, v: u8)
    requires
        0 <= j < data.len(),
        v != data[j],
    ensures
        crc32(data.update(j, v)) != crc32(data),
{
    let s = 0xFFFF_FFFFu32;
    let a = data.take(j);
    let c = data.skip(j + 1);
    let d1 = a.push(data[j]);
    let d2 = a.push(v);
    assert(data =~= d1 + c);
    assert(data.update(j, v) =~= d2 + c);
    lemma_crc_register_concat(s, d1, c);
    lemma_crc_register_concat(s, d2, c);
    assert(d1.drop_last() =~= a);
    assert(d2.drop_last() =~= a);
    let r = crc_register(s, a);
    let b1 = data[j] as u32;
    let b2 = v as u32;
    assert(r ^ b1 != r ^ b2) by (bit_vector)
        requires
            b1 != b2,
    ;
    lemma_shift_distinct(r ^ b1, r ^ b2, 8);
    lemma_register_distinct(crc_byte(r, data[j]), crc_byte(r, v), c);
    let x1 = crc_register(s, data);
    let x2 = crc_register(s, data.update(j, v));
    assert(x2 ^ 0xFFFF_FFFFu32 != x1 ^ 0xFFFF_FFFFu32) by (bit_vector)
        requires
            x1 != x2,
    ;
}

/// The 256-entry lookup table: entry `i` is the register after eight shifts
/// of `i`.
pub fn make_table() -> (table: Vec<u32>)
    ensures
        table@.len() == 256,
        forall|i: int| 0 <= i < 256 ==> #[trigger] table@[i] == crc_shift(i as u32, 8),
{
    let mut table: Vec<u32> = Vec::with_capacity(256);
    let mut i: u32 = 0;
    while i < 256
        invariant
            i <= 256,
            table@.len() == i,
            forall|j: int| 0 <= j < i ==> #[trigger] table@[j] == crc_shift(j as u32, 8),
        decreases 256 - i,
    {
        let mut c: u32 = i;
        let mut k: u32 = 0;
        while k < 8
            invariant
                k <= 8,
                c == crc_shift(i, k as nat),
            decreases 8 - k,
        {
            if c & 1 != 0 {
                c = CRC_POLY ^ (c >> 1);
            } else {
                c = c >> 1;
            }
            k = k + 1;
        }
        table.push(c);
        i = i + 1;
    }
    table
}

/// A running CRC-32 computation.
#[derive(Clone)]
pub struct Crc32 {
    state: u32,
}

impl View for Crc32 {
    type V = u32;

    /// The current register value.
    closed spec fn view(&self) -> u32 {
        self.state
    }
}

impl Default for Crc32 {
    /// A computation whose register is zero (not the CRC-32 preset).
    fn default() -> (c: Self)
        ensures
            c@ == 0,
    {
        Crc32 { state: 0 }
    }
}

impl Crc32 {
    /// A fresh computation with the register preset to all ones.
    pub fn new() -> (c: Self)
        ensures
            c@ == 0xFFFF_FFFFu32,
    {
        Crc32 { state: 0xFFFF_FFFF }
    }

    /// Feeds `data` into the register.
    pub fn update(&mut self, data: &[u8])
        ensures
            final(self)@ == crc_register(old(self)@, data@),
    {
        let table = make_table();
        let ghost start = self.state;
        let mut i: usize = 0;
        while i < data.len()
            invariant
                i <= data@.len(),
                table@.len() == 256,
                forall|j: int| 0 <= j < 256 ==> #[trigger] table@[j] == crc_shift(j as u32, 8),
                self.state == crc_register(start, data@.take(i as int)),
            decreases data@.len() - i,
        {
            let byte = data[i];
            let st = self.state;
            let idx: u32 = (st ^ (byte as u32)) & 0xFF;
            assert(idx < 256) by (bit_vector)
                requires
                    idx == (st ^ (byte as u32)) & 0xFF,
            ;
            let entry = table[idx as usize];
            proof {
                lemma_table_step(self.state, byte, entry);
                assert(data@.take(i + 1).drop_last() =~= data@.take(i as int));
            }
            self.state = entry ^ (self.state >> 8);
            i = i + 1;
        }
        assert(data@.take(data@.len() as int) =~= data@);
    }

    /// The checksum of everything fed so far.
    pub fn finalise(self) -> (crc: u32)
        ensures
            crc == self@ ^ 0xFFFF_FFFFu32,
    {
        self.state ^ 0xFFFF_FFFF
    }

    /// CRC-32 of `data` in one call.
    pub fn oneshot(data: &[u8]) -> (crc: u32)
        ensures
            crc == crc32(data@),
    {
        let mut h = Self::new();
        h.update(data);
        h.finalise()
    }
}

} // verus!
