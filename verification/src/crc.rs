//! CRC-32 as gzip defines it: the reflected polynomial `0xEDB88320`, a
//! register that starts at all ones and is inverted at the end.
//!
//! The checksum of a concatenation can be had from the checksums of its two
//! parts and the length of the second. That is what lets blocks be summed
//! apart from one another and joined in stream order afterwards.

use vstd::prelude::*;

verus! {

/// The generator polynomial, bit-reflected.
pub const POLYNOMIAL: u32 = 0xEDB8_8320;

/// The register after one zero bit has been shifted through it.
pub open spec fn shift_bit(reg: u32) -> u32 {
    if reg & 1 == 1 {
        (reg >> 1) ^ 0xEDB8_8320u32
    } else {
        reg >> 1
    }
}

/// The register after `n` zero bits.
pub open spec fn shift_bits(reg: u32, n: nat) -> u32
    decreases n,
{
    if n == 0 {
        reg
    } else {
        shift_bit(shift_bits(reg, (n - 1) as nat))
    }
}

/// The register after one more byte of data.
pub open spec fn absorb_byte(reg: u32, byte: u8) -> u32 {
    shift_bits(reg ^ (byte as u32), 8)
}

/// The register after `bytes`, starting from `reg`.
pub open spec fn absorb(reg: u32, bytes: Seq<u8>) -> u32
    decreases bytes.len(),
{
    if bytes.len() == 0 {
        reg
    } else {
        absorb_byte(absorb(reg, bytes.drop_last()), bytes.last())
    }
}

/// The checksum of some data followed by `bytes`, given the checksum `crc`
/// of that data.
pub open spec fn crc32_update(crc: u32, bytes: Seq<u8>) -> u32 {
    absorb(crc ^ 0xFFFF_FFFFu32, bytes) ^ 0xFFFF_FFFFu32
}

/// The CRC-32 of `bytes`.
pub open spec fn crc32(bytes: Seq<u8>) -> u32 {
    crc32_update(0, bytes)
}

/// The checksum of a concatenation, from the checksum `crc_a` of its first
/// part, the checksum `crc_b` of its second part and the second part's
/// length in bytes.
pub open spec fn crc32_combined(crc_a: u32, crc_b: u32, len_b: nat) -> u32 {
    shift_bits(crc_a, 8 * len_b) ^ crc_b
}

spec fn shift_byte(reg: u32) -> u32 {
    shift_bit(
        shift_bit(shift_bit(shift_bit(shift_bit(shift_bit(shift_bit(shift_bit(reg))))))),
    )
}

/// The low `i` bits of `v`.
spec fn low_bits(v: u32, i: u32) -> u32 {
    if i >= 32 {
        v
    } else {
        v & !(0xFFFF_FFFFu32 << i)
    }
}

/// `op` holds, for each bit position, where `n` zero bits take that bit.
spec fn is_power(op: Seq<u32>, n: nat) -> bool {
    &&& op.len() == 32
    &&& forall|i: int| 0 <= i < 32 ==> #[trigger] op[i] == shift_bits(1u32 << (i as u32), n)
}

proof fn lemma_shift_bit_linear(a: u32, b: u32)
    ensures
        shift_bit(a ^ b) == shift_bit(a) ^ shift_bit(b),
{
    assert(shift_bit(a ^ b) == shift_bit(a) ^ shift_bit(b)) by (bit_vector);
}

/// Shifting is linear over exclusive-or.
pub proof fn lemma_shift_bits_linear(a: u32, b: u32, n: nat)
    ensures
        shift_bits(a ^ b, n) == shift_bits(a, n) ^ shift_bits(b, n),
    decreases n,
{
    if n > 0 {
        lemma_shift_bits_linear(a, b, (n - 1) as nat);
        lemma_shift_bit_linear(shift_bits(a, (n - 1) as nat), shift_bits(b, (n - 1) as nat));
    }
}

/// The zero register stays zero.
pub proof fn lemma_shift_bits_zero(n: nat)
    ensures
        shift_bits(0, n) == 0,
    decreases n,
{
    if n > 0 {
        lemma_shift_bits_zero((n - 1) as nat);
        assert(shift_bit(0u32) == 0u32) by (bit_vector);
    }
}

/// Shifting by `m` and then by `n` is shifting by `m + n`.
pub proof fn lemma_shift_bits_add(reg: u32, m: nat, n: nat)
    ensures
        shift_bits(shift_bits(reg, m), n) == shift_bits(reg, m + n),
    decreases n,
{
    if n > 0 {
        lemma_shift_bits_add(reg, m, (n - 1) as nat);
    }
}

proof fn lemma_shift_byte(reg: u32)
    ensures
        shift_bits(reg, 8) == shift_byte(reg),
        shift_byte(reg) == shift_byte(reg & 0xff) ^ (reg >> 8),
{
    reveal_with_fuel(shift_bits, 9);
    assert(shift_byte(reg) == shift_byte(reg & 0xff) ^ (reg >> 8)) by (bit_vector);
}

/// A change `delta` to the starting register shows in the end register as
/// `delta` shifted past the data.
pub proof fn lemma_absorb_affine(reg: u32, delta: u32, bytes: Seq<u8>)
    ensures
        absorb(reg ^ delta, bytes) == absorb(reg, bytes) ^ shift_bits(delta, 8 * bytes.len()),
    decreases bytes.len(),
{
    if bytes.len() > 0 {
        let front = bytes.drop_last();
        let byte = bytes.last() as u32;
        lemma_absorb_affine(reg, delta, front);
        let plain = absorb(reg, front);
        let moved = shift_bits(delta, 8 * front.len());
        assert((plain ^ moved) ^ byte == (plain ^ byte) ^ moved) by (bit_vector);
        lemma_shift_bits_linear(plain ^ byte, moved, 8);
        lemma_shift_bits_add(delta, 8 * front.len(), 8);
    }
}

/// Absorbing a concatenation is absorbing its parts in turn.
pub proof fn lemma_absorb_concat(reg: u32, a: Seq<u8>, b: Seq<u8>)
    ensures
        absorb(reg, a + b) == absorb(absorb(reg, a), b),
    decreases b.len(),
{
    if b.len() > 0 {
        lemma_absorb_concat(reg, a, b.drop_last());
        assert((a + b).drop_last() =~= a + b.drop_last());
    }
}

/// Updating the checksum of `a` with `b` gives the checksum of `a + b`.
pub proof fn lemma_crc32_update_concat(a: Seq<u8>, b: Seq<u8>)
    ensures
        crc32_update(crc32(a), b) == crc32(a + b),
{
    let start = absorb(0xFFFF_FFFFu32, a);
    assert(0u32 ^ 0xFFFF_FFFFu32 == 0xFFFF_FFFFu32) by (bit_vector);
    assert((start ^ 0xFFFF_FFFFu32) ^ 0xFFFF_FFFFu32 == start) by (bit_vector);
    lemma_absorb_concat(0xFFFF_FFFFu32, a, b);
}

/// The combining identity: the checksum of `a + b` is the combination of the
/// checksums of `a` and of `b` with the length of `b`.
pub proof fn lemma_crc32_concat(a: Seq<u8>, b: Seq<u8>)
    ensures
        crc32(a + b) == crc32_combined(crc32(a), crc32(b), b.len()),
{
    let ones = 0xFFFF_FFFFu32;
    let start = absorb(ones, a);
    let crc_a = start ^ ones;
    let tail = absorb(ones, b);
    let moved = shift_bits(crc_a, 8 * b.len());
    assert(0u32 ^ ones == ones) by (bit_vector);
    lemma_absorb_concat(ones, a, b);
    assert(start == ones ^ crc_a) by (bit_vector)
        requires
            crc_a == start ^ ones,
            ones == 0xFFFF_FFFFu32,
    ;
    lemma_absorb_affine(ones, crc_a, b);
    assert((tail ^ moved) ^ ones == moved ^ (tail ^ ones)) by (bit_vector);
}

/// The checksum of no bytes is zero.
pub proof fn lemma_crc32_empty()
    ensures
        crc32(Seq::<u8>::empty()) == 0,
{
    assert((0u32 ^ 0xFFFF_FFFFu32) ^ 0xFFFF_FFFFu32 == 0u32) by (bit_vector);
}

fn step_bit(reg: u32) -> (next: u32)
    ensures
        next == shift_bit(reg),
{
    if reg & 1 == 1 {
        (reg >> 1) ^ POLYNOMIAL
    } else {
        reg >> 1
    }
}

/// The register's response to each byte value, computed once and then looked
/// up for every byte of data.
pub struct Crc32Table {
    entries: Vec<u32>,
}

/// The entries of the table: for each byte value, the register after that
/// byte has been shifted through an empty register.
pub open spec fn table_entries() -> Seq<u32> {
    Seq::new(256, |j: int| shift_bits(j as u32, 8))
}

impl Crc32Table {
    #[verifier::type_invariant]
    spec fn complete(self) -> bool {
        &&& self.entries@.len() == 256
        &&& forall|j: int| 0 <= j < 256 ==> #[trigger] self.entries@[j] == shift_bits(j as u32, 8)
    }

    /// What the table holds.
    pub closed spec fn view(&self) -> Seq<u32> {
        self.entries@
    }

    /// Builds the table.
    pub fn new() -> (table: Crc32Table)
        ensures
            table@ == table_entries(),
    {
        let mut entries: Vec<u32> = Vec::with_capacity(256);
        let mut i: u32 = 0;
        while i < 256
            invariant
                i <= 256,
                entries@.len() == i,
                forall|j: int| 0 <= j < i ==> #[trigger] entries@[j] == shift_bits(j as u32, 8),
            decreases 256 - i,
        {
            let mut reg: u32 = i;
            let mut k: u32 = 0;
            while k < 8
                invariant
                    k <= 8,
                    reg == shift_bits(i, k as nat),
                decreases 8 - k,
            {
                reg = step_bit(reg);
                k += 1;
            }
            entries.push(reg);
            i += 1;
        }
        Crc32Table { entries }
    }

    /// Continues the checksum `crc` over `data`.
    pub fn update(&self, crc: u32, data: &[u8]) -> (sum: u32)
        ensures
            sum == crc32_update(crc, data@),
    {
        let start: u32 = crc ^ 0xFFFF_FFFF;
        let mut reg: u32 = start;
        let mut i: usize = 0;
        while i < data.len()
            invariant
                i <= data.len(),
                reg == absorb(start, data@.take(i as int)),
            decreases data.len() - i,
        {
            let byte: u8 = data[i];
            let mixed: u32 = reg ^ (byte as u32);
            let slot: u32 = mixed & 0xff;
            proof {
                use_type_invariant(self);
                assert(slot < 256) by (bit_vector)
                    requires
                        slot == mixed & 0xff,
                ;
                assert(mixed >> 8 == reg >> 8) by (bit_vector)
                    requires
                        mixed == reg ^ (byte as u32),
                ;
                lemma_shift_byte(mixed);
                lemma_shift_byte(slot);
                assert(slot & 0xff == slot) by (bit_vector)
                    requires
                        slot == mixed & 0xff,
                ;
                assert(slot >> 8 == 0) by (bit_vector)
                    requires
                        slot == mixed & 0xff,
                ;
                let next = data@.take(i + 1);
                assert(next.drop_last() =~= data@.take(i as int));
            }
            reg = self.entries[slot as usize] ^ (reg >> 8);
            i += 1;
        }
        assert(data@.take(data.len() as int) =~= data@);
        reg ^ 0xFFFF_FFFF
    }

    /// The CRC-32 of `data`.
    pub fn checksum(&self, data: &[u8]) -> (sum: u32)
        ensures
            sum == crc32(data@),
    {
        self.update(0, data)
    }
}

/// The CRC-32 of `data`.
pub fn crc32_of(data: &[u8]) -> (sum: u32)
    ensures
        sum == crc32(data@),
{
    let table = Crc32Table::new();
    table.checksum(data)
}

proof fn lemma_low_bits(v: u32, i: u32)
    requires
        i < 32,
    ensures
        low_bits(v, 0) == 0,
        low_bits(v, 32) == v,
        (v >> i) & 1 == 1 ==> low_bits(v, (i + 1) as u32) == low_bits(v, i) ^ (1u32 << i),
        (v >> i) & 1 != 1 ==> low_bits(v, (i + 1) as u32) == low_bits(v, i),
{
    assert(v & !(0xFFFF_FFFFu32 << 0u32) == 0) by (bit_vector);
    assert((v >> i) & 1 == 1 ==> low_bits(v, (i + 1) as u32) == low_bits(v, i) ^ (1u32 << i))
        by (bit_vector)
        requires
            i < 32,
    ;
    assert((v >> i) & 1 != 1 ==> low_bits(v, (i + 1) as u32) == low_bits(v, i)) by (bit_vector)
        requires
            i < 32,
    ;
}

/// Applies the operator `op` to the register `v`.
fn apply(op: &Vec<u32>, v: u32, Ghost(n): Ghost<nat>) -> (moved: u32)
    requires
        is_power(op@, n),
    ensures
        moved == shift_bits(v, n),
{
    let mut acc: u32 = 0;
    let mut i: u32 = 0;
    proof {
        lemma_low_bits(v, 0);
        lemma_shift_bits_zero(n);
    }
    while i < 32
        invariant
            i <= 32,
            is_power(op@, n),
            acc == shift_bits(low_bits(v, i), n),
        decreases 32 - i,
    {
        proof {
            lemma_low_bits(v, i);
            lemma_shift_bits_linear(low_bits(v, i), 1u32 << i, n);
        }
        if (v >> i) & 1 == 1 {
            acc = acc ^ op[i as usize];
        }
        i += 1;
    }
    acc
}

/// The operator for one zero bit.
fn unit_operator() -> (op: Vec<u32>)
    ensures
        is_power(op@, 1),
{
    let mut op: Vec<u32> = Vec::with_capacity(32);
    let mut i: u32 = 0;
    while i < 32
        invariant
            i <= 32,
            op@.len() == i,
            forall|j: int| 0 <= j < i ==> #[trigger] op@[j] == shift_bits(1u32 << (j as u32), 1),
        decreases 32 - i,
    {
        let bit: u32 = 1u32 << i;
        proof {
            reveal_with_fuel(shift_bits, 2);
        }
        op.push(step_bit(bit));
        i += 1;
    }
    op
}

/// The operator that does twice what `op` does.
fn square(op: &Vec<u32>, Ghost(n): Ghost<nat>) -> (twice: Vec<u32>)
    requires
        is_power(op@, n),
    ensures
        is_power(twice@, 2 * n),
{
    let mut twice: Vec<u32> = Vec::with_capacity(32);
    let mut i: usize = 0;
    while i < 32
        invariant
            i <= 32,
            is_power(op@, n),
            twice@.len() == i,
            forall|j: int|
                0 <= j < i ==> #[trigger] twice@[j] == shift_bits(1u32 << (j as u32), 2 * n),
        decreases 32 - i,
    {
        proof {
            lemma_shift_bits_add(1u32 << ((i as int) as u32), n, n);
        }
        let column: u32 = apply(op, op[i], Ghost(n));
        twice.push(column);
        i += 1;
    }
    twice
}

/// Joins the checksum `crc_a` of some data with the checksum `crc_b` of the
/// `len_b` bytes that follow it. The work grows with the number of bits in
/// `len_b`, not with `len_b` itself.
pub fn crc32_combine(crc_a: u32, crc_b: u32, len_b: u64) -> (sum: u32)
    ensures
        sum == crc32_combined(crc_a, crc_b, len_b as nat),
{
    let one = unit_operator();
    let two = square(&one, Ghost(1nat));
    let four = square(&two, Ghost(2nat));
    let mut op = square(&four, Ghost(4nat));
    let mut acc: u32 = crc_a;
    let mut rest: u64 = len_b;
    let ghost mut unit: nat = 1;
    let ghost mut done: nat = 0;
    while rest > 0
        invariant
            is_power(op@, 8 * unit),
            acc == shift_bits(crc_a, 8 * done),
            done + rest * unit == len_b,
        decreases rest,
    {
        let low: u64 = rest & 1;
        let half: u64 = rest >> 1;
        proof {
            assert(rest == 2 * half + low && low <= 1 && half < rest) by (bit_vector)
                requires
                    low == rest & 1,
                    half == rest >> 1,
                    rest > 0,
            ;
            assert(rest * unit == half * (2 * unit) + (if low == 1 {
                unit as int
            } else {
                0
            })) by (nonlinear_arith)
                requires
                    rest == 2 * half + low,
                    low <= 1,
            ;
        }
        if low == 1 {
            acc = apply(&op, acc, Ghost(8 * unit));
            proof {
                lemma_shift_bits_add(crc_a, 8 * done, 8 * unit);
                done = done + unit;
            }
        }
        op = square(&op, Ghost(8 * unit));
        proof {
            unit = 2 * unit;
        }
        rest = half;
    }
    acc ^ crc_b
}

} // verus!
