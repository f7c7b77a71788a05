//! A fast non-cryptographic hash for small integer keys: multiply and rotate.
use vstd::prelude::*;

verus! {

/// The factor of every step.
pub const SEED: u64 = 0x51_7c_c1_b7_27_22_0a_95;

/// A hash with one more value mixed in: rotated by five, joined with the value, and
/// multiplied.
pub open spec fn mixed(hash: u64, value: u64) -> u64 {
    (((hash << 5u64) | (hash >> 59u64)) ^ value).wrapping_mul(SEED)
}

/// The number whose first `n` little-endian bytes are those from `start` on; bytes
/// behind the end are zero.
pub open spec fn little_endian(bytes: Seq<u8>, start: int, n: nat) -> nat
    decreases n,
{
    if n == 0 || start >= bytes.len() {
        0
    } else {
        bytes[start] as nat + 256 * little_endian(bytes, start + 1, (n - 1) as nat)
    }
}

/// A hash with bytes mixed in from `start` on, eight at a time.
pub open spec fn written(hash: u64, bytes: Seq<u8>, start: nat) -> u64
    decreases (bytes.len() + 8 - start) as int,
{
    if start >= bytes.len() {
        hash
    } else {
        written(mixed(hash, little_endian(bytes, start as int, 8) as u64), bytes, start + 8)
    }
}

/// A hash under way.
#[derive(Debug, Default)]
pub struct FxHasher {
    hash: u64,
}

impl View for FxHasher {
    type V = u64;

    closed spec fn view(&self) -> u64 {
        self.hash
    }
}

impl FxHasher {
    pub fn new() -> (res: Self)
        ensures
            res@ == 0,
    {
        FxHasher { hash: 0 }
    }

    fn mix(&mut self, value: u64)
        ensures
            final(self)@ == mixed(old(self)@, value),
    {
        self.hash = (((self.hash << 5u64) | (self.hash >> 59u64)) ^ value).wrapping_mul(SEED);
    }

    /// Mixes bytes in, eight at a time.
    pub fn write(&mut self, bytes: &[u8])
        ensures
            final(self)@ == written(old(self)@, bytes@, 0),
    {
        let mut i: usize = 0;
        let ghost begun = self@;
        while i < bytes.len()
            invariant
                begun == old(self)@,
                written(begun, bytes@, 0) == written(self@, bytes@, i as nat),
            decreases bytes@.len() - i,
        {
            let n = if bytes.len() - i < 8 {
                bytes.len() - i
            } else {
                8
            };
            let value = chunk(bytes, i, n);
            self.mix(value);
            proof {
                lemma_short(bytes@, i as int, n as nat, 8);
            }
            if bytes.len() - i <= 8 {
                assert(written(self@, bytes@, i as nat + 8) == self@);
                return;
            }
            i = i + 8;
        }
    }

    pub fn write_u8(&mut self, i: u8)
        ensures
            final(self)@ == mixed(old(self)@, i as u64),
    {
        self.mix(i as u64);
    }

    pub fn write_u32(&mut self, i: u32)
        ensures
            final(self)@ == mixed(old(self)@, i as u64),
    {
        self.mix(i as u64);
    }

    pub fn write_u64(&mut self, i: u64)
        ensures
            final(self)@ == mixed(old(self)@, i),
    {
        self.mix(i);
    }

    pub fn write_usize(&mut self, i: usize)
        ensures
            final(self)@ == mixed(old(self)@, i as u64),
    {
        self.mix(i as u64);
    }

    /// The hash of what was written.
    pub fn finish(&self) -> (res: u64)
        ensures
            res == self@,
    {
        self.hash
    }
}

/// Bytes behind the end change nothing.
proof fn lemma_short(bytes: Seq<u8>, start: int, n: nat, m: nat)
    requires
        0 <= start <= bytes.len(),
        n <= m,
        n < m ==> start + n >= bytes.len(),
    ensures
        little_endian(bytes, start, n) == little_endian(bytes, start, m),
    decreases m,
{
    if n > 0 && start < bytes.len() {
        lemma_short(bytes, start + 1, (n - 1) as nat, (m - 1) as nat);
    }
}

/// The largest number of `n` bytes, and one.
spec fn limit(n: nat) -> nat
    decreases n,
{
    if n == 0 {
        1
    } else {
        256 * limit((n - 1) as nat)
    }
}

/// Up to eight bytes as a little-endian number.
fn chunk(bytes: &[u8], start: usize, n: usize) -> (res: u64)
    requires
        n <= 8,
        start + n <= bytes.len(),
    ensures
        res == little_endian(bytes@, start as int, n as nat),
        res < limit(n as nat),
    decreases n,
{
    if n == 0 {
        0
    } else {
        let rest = chunk(bytes, start + 1, n - 1);
        proof {
            reveal_with_fuel(limit, 9);
        }
        bytes[start] as u64 + 256 * rest
    }
}

} // verus!
