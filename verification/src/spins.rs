//! Spin vectors: ordered ±1 states with a cached energy, plus the
//! bit-packed encodings used by the result records.
//!
//! Packing convention: spin +1 becomes bit 0 and spin -1 becomes bit 1;
//! within each byte or word the least significant bit holds the lowest
//! spin index; trailing bits of the last byte or word are zero.
use vstd::prelude::*;

use crate::sums::{all_spins, is_spin};

verus! {

/// A ±1 spin vector together with a cached energy in Q47.16 fixed
/// point and a flag saying whether the cache reflects the vector.
pub struct IsingState {
    /// The spins themselves.
    pub arr: Vec<i8>,
    /// Cached energy; meaningful only while `energy_init` holds.
    pub energy: i64,
    /// Whether `energy` reflects the current contents of `arr`.
    pub energy_init: bool,
}

/// Bit `i` of a byte-packed spin vector.
pub open spec fn packed_bit_u8(bytes: Seq<u8>, i: int) -> bool {
    (bytes[i / 8] >> ((i % 8) as u8)) & 1u8 == 1u8
}

/// Bit `i` of a word-packed spin vector.
pub open spec fn packed_bit_u64(words: Seq<u64>, i: int) -> bool {
    (words[i / 64] >> ((i % 64) as u64)) & 1u64 == 1u64
}

/// The spin vector encoded by the first `n` bits of a byte packing.
pub open spec fn decoded_bits_u8(bytes: Seq<u8>, n: int) -> Seq<i8> {
    Seq::new(n as nat, |i: int| if packed_bit_u8(bytes, i) { -1i8 } else { 1i8 })
}

/// The spin vector encoded by the first `n` bits of a word packing.
pub open spec fn decoded_bits_u64(words: Seq<u64>, n: int) -> Seq<i8> {
    Seq::new(n as nat, |i: int| if packed_bit_u64(words, i) { -1i8 } else { 1i8 })
}

proof fn lemma_u8_set_bit(w: u8, k: u8, j: u8)
    by (bit_vector)
    requires
        k < 8,
        j < 8,
    ensures
        ((w | (1u8 << k)) >> j) & 1u8 == if j == k {
            1u8
        } else {
            (w >> j) & 1u8
        },
{
}

proof fn lemma_u8_zero_bit(j: u8)
    by (bit_vector)
    requires
        j < 8,
    ensures
        (0u8 >> j) & 1u8 == 0u8,
{
}

pub proof fn lemma_u64_set_bit(w: u64, k: u64, j: u64)
    by (bit_vector)
    requires
        k < 64,
        j < 64,
    ensures
        ((w | (1u64 << k)) >> j) & 1u64 == if j == k {
            1u64
        } else {
            (w >> j) & 1u64
        },
{
}

pub proof fn lemma_u64_zero_bit(j: u64)
    by (bit_vector)
    requires
        j < 64,
    ensures
        (0u64 >> j) & 1u64 == 0u64,
{
}

impl IsingState {
    /// All entries are ±1.
    pub open spec fn wf(self) -> bool {
        all_spins(self.arr@)
    }

    /// Number of spins.
    pub open spec fn n(self) -> int {
        self.arr@.len() as int
    }

    /// Read the spin at `index`.
    pub fn uget(&self, index: u32) -> (r: i8)
        requires
            index < self.arr@.len(),
        ensures
            r == self.arr@[index as int],
    {
        self.arr[index as usize]
    }

    /// Flip the sign of the spin at `index`. The cached energy is left
    /// to the caller, who knows the matching energy change.
    pub fn uset_neg(&mut self, index: u32)
        requires
            index < old(self).arr@.len(),
            old(self).wf(),
        ensures
            final(self).arr@ == old(self).arr@.update(
                index as int,
                (-old(self).arr@[index as int]) as i8,
            ),
            final(self).energy == old(self).energy,
            final(self).energy_init == old(self).energy_init,
            final(self).wf(),
    {
        let v = self.arr[index as usize];
        self.arr.set(index as usize, -v);
        proof {
            assert(is_spin(old(self).arr@[index as int]));
            assert(forall|j: int|
                0 <= j < self.arr@.len() && j != index as int ==> self.arr@[j] == old(
                    self,
                ).arr@[j]);
        }
    }

    /// Accept a single-site move: negate the spin it names.
    pub fn accept_move(&mut self, mv: u32)
        requires
            mv < old(self).arr@.len(),
            old(self).wf(),
        ensures
            final(self).arr@ == old(self).arr@.update(
                mv as int,
                (-old(self).arr@[mv as int]) as i8,
            ),
            final(self).energy == old(self).energy,
            final(self).energy_init == old(self).energy_init,
            final(self).wf(),
    {
        self.uset_neg(mv);
    }

    /// Sum of all spins.
    pub fn mag(&self) -> (m: i64)
        requires
            self.wf(),
            self.arr@.len() < 0x4000_0000_0000_0000,
        ensures
            m == mag_spec(self.arr@, self.arr@.len() as int),
    {
        let mut m: i64 = 0;
        let n = self.arr.len();
        for i in 0..n
            invariant
                m == mag_spec(self.arr@, i as int),
                -(i as int) <= m <= i as int,
                n == self.arr@.len() < 0x4000_0000_0000_0000,
                self.wf(),
        {
            let s = self.arr[i];
            proof {
                assert(is_spin(self.arr@[i as int]));
            }
            m = m + s as i64;
        }
        m
    }

    /// Inner product with another spin vector of the same length.
    pub fn overlap(&self, other: &IsingState) -> (q: i64)
        requires
            self.wf(),
            other.wf(),
            self.arr@.len() == other.arr@.len(),
            self.arr@.len() < 0x4000_0000_0000_0000,
        ensures
            q == overlap_spec(self.arr@, other.arr@, self.arr@.len() as int),
            -(self.arr@.len() as int) <= q <= self.arr@.len() as int,
    {
        let mut q: i64 = 0;
        let n = self.arr.len();
        for i in 0..n
            invariant
                q == overlap_spec(self.arr@, other.arr@, i as int),
                -(i as int) <= q <= i as int,
                n == self.arr@.len() == other.arr@.len(),
                n < 0x4000_0000_0000_0000,
                self.wf(),
                other.wf(),
        {
            let a = self.arr[i];
            let b = other.arr[i];
            proof {
                assert(is_spin(self.arr@[i as int]));
                assert(is_spin(other.arr@[i as int]));
            }
            let p: i64 = if a == b {
                1
            } else {
                -1
            };
            proof {
                let x = self.arr@[i as int] as int;
                let y = other.arr@[i as int] as int;
                assert(x * y == if x == y {
                    1int
                } else {
                    -1int
                }) by (nonlinear_arith)
                    requires
                        (x == 1 || x == -1) && (y == 1 || y == -1),
                ;
            }
            q = q + p;
        }
        q
    }

    /// Render the spins as '0' (+1) / '1' (-1) characters.
    pub fn as_binary_string(&self) -> (s: String)
        ensures
            s@.len() == self.arr@.len(),
            forall|i: int|
                0 <= i < self.arr@.len() ==> s@[i] == (if self.arr@[i] > 0 {
                    '0'
                } else {
                    '1'
                }),
    {
        let mut s = String::new();
        let n = self.arr.len();
        proof {
            reveal_strlit("0");
            reveal_strlit("1");
        }
        for i in 0..n
            invariant
                n == self.arr@.len(),
                s@.len() == i,
                forall|j: int|
                    0 <= j < i ==> s@[j] == (if self.arr@[j] > 0 {
                        '0'
                    } else {
                        '1'
                    }),
        {
            proof {
                reveal_strlit("0");
                reveal_strlit("1");
            }
            if self.arr[i] > 0 {
                s.append("0");
            } else {
                s.append("1");
            }
        }
        s
    }

    /// Pack the spins into bytes, +1 to bit 0 and -1 to bit 1, least
    /// significant bit lowest index, trailing bits zero.
    pub fn as_bytes(&self) -> (r: Vec<u8>)
        requires
            self.arr@.len() < 0x1000_0000,
        ensures
            r@.len() == (self.arr@.len() + 7) / 8,
            forall|i: int|
                0 <= i < self.arr@.len() ==> packed_bit_u8(r@, i) == (self.arr@[i] < 0),
            forall|i: int|
                self.arr@.len() <= i < r@.len() * 8 ==> !packed_bit_u8(r@, i),
    {
        let n = self.arr.len();
        let num_bytes = n / 8 + (if n % 8 == 0 {
            0
        } else {
            1
        });
        proof {
            assert(num_bytes == (n + 7) / 8);
        }
        let mut bytes_vec: Vec<u8> = Vec::new();
        for b in 0..num_bytes
            invariant
                bytes_vec@.len() == b,
                forall|j: int| 0 <= j < b ==> bytes_vec@[j] == 0u8,
        {
            bytes_vec.push(0u8);
        }
        proof {
            assert forall|i: int| 0 <= i < num_bytes * 8 implies !packed_bit_u8(
                bytes_vec@,
                i,
            ) by {
                lemma_u8_zero_bit((i % 8) as u8);
            }
        }
        for i in 0..n
            invariant
                n == self.arr@.len() < 0x1000_0000,
                bytes_vec@.len() == num_bytes,
                8 * num_bytes >= n,
                forall|j: int|
                    0 <= j < i ==> packed_bit_u8(bytes_vec@, j) == (self.arr@[j] < 0),
                forall|j: int|
                    i <= j < num_bytes * 8 ==> !packed_bit_u8(bytes_vec@, j),
        {
            let bi = i / 8;
            let k = (i % 8) as u8;
            if self.arr[i] < 0 {
                let w = bytes_vec[bi];
                let ghost prev = bytes_vec@;
                bytes_vec.set(bi, w | (1u8 << k));
                proof {
                    assert forall|j: int| 0 <= j < num_bytes * 8 implies packed_bit_u8(
                        bytes_vec@,
                        j,
                    ) == (if j == i as int {
                        true
                    } else {
                        packed_bit_u8(prev, j)
                    }) by {
                        if j / 8 == bi as int {
                            lemma_u8_set_bit(w, k, (j % 8) as u8);
                        } else {
                            assert(bytes_vec@[j / 8] == prev[j / 8]);
                        }
                    }
                }
            }
        }
        bytes_vec
    }

    /// Pack the spins into 64-bit words under the same convention.
    pub fn as_u64_vec(&self) -> (r: Vec<u64>)
        requires
            self.arr@.len() < 0x1000_0000,
        ensures
            r@.len() == (self.arr@.len() + 63) / 64,
            forall|i: int|
                0 <= i < self.arr@.len() ==> packed_bit_u64(r@, i) == (self.arr@[i] < 0),
            forall|i: int|
                self.arr@.len() <= i < r@.len() * 64 ==> !packed_bit_u64(r@, i),
    {
        let n = self.arr.len();
        let num_words = n / 64 + (if n % 64 == 0 {
            0
        } else {
            1
        });
        proof {
            assert(num_words == (n + 63) / 64);
        }
        let mut words: Vec<u64> = Vec::new();
        for b in 0..num_words
            invariant
                words@.len() == b,
                forall|j: int| 0 <= j < b ==> words@[j] == 0u64,
        {
            words.push(0u64);
        }
        proof {
            assert forall|i: int| 0 <= i < num_words * 64 implies !packed_bit_u64(
                words@,
                i,
            ) by {
                lemma_u64_zero_bit((i % 64) as u64);
            }
        }
        for i in 0..n
            invariant
                n == self.arr@.len() < 0x1000_0000,
                words@.len() == num_words,
                64 * num_words >= n,
                forall|j: int|
                    0 <= j < i ==> packed_bit_u64(words@, j) == (self.arr@[j] < 0),
                forall|j: int|
                    i <= j < num_words * 64 ==> !packed_bit_u64(words@, j),
        {
            let bi = i / 64;
            let k = (i % 64) as u64;
            if self.arr[i] < 0 {
                let w = words[bi];
                let ghost prev = words@;
                words.set(bi, w | (1u64 << k));
                proof {
                    assert forall|j: int| 0 <= j < num_words * 64 implies packed_bit_u64(
                        words@,
                        j,
                    ) == (if j == i as int {
                        true
                    } else {
                        packed_bit_u64(prev, j)
                    }) by {
                        if j / 64 == bi as int {
                            lemma_u64_set_bit(w, k, (j % 64) as u64);
                        } else {
                            assert(words@[j / 64] == prev[j / 64]);
                        }
                    }
                }
            }
        }
        words
    }
}

/// Spin sum over the first `k` entries.
pub open spec fn mag_spec(s: Seq<i8>, k: int) -> int
    decreases k,
{
    if k <= 0 {
        0
    } else {
        mag_spec(s, k - 1) + s[k - 1] as int
    }
}

/// Site-wise overlap sum over the first `k` entries.
pub open spec fn overlap_spec(a: Seq<i8>, b: Seq<i8>, k: int) -> int
    decreases k,
{
    if k <= 0 {
        0
    } else {
        overlap_spec(a, b, k - 1) + (a[k - 1] as int) * (b[k - 1] as int)
    }
}

/// Decode a byte packing back to ±1 spins.
pub fn decode_bytes(bytes: &Vec<u8>, n: usize) -> (r: Vec<i8>)
    requires
        n <= bytes@.len() * 8,
    ensures
        r@ == decoded_bits_u8(bytes@, n as int),
        r@.len() == n,
        all_spins(r@),
{
    let mut r: Vec<i8> = Vec::new();
    for i in 0..n
        invariant
            n <= bytes@.len() * 8,
            r@.len() == i,
            forall|j: int| 0 <= j < i ==> r@[j] == decoded_bits_u8(bytes@, n as int)[j],
    {
        let b = bytes[i / 8];
        let bit = (b >> ((i % 8) as u8)) & 1u8;
        if bit == 1 {
            r.push(-1i8);
        } else {
            r.push(1i8);
        }
    }
    proof {
        assert(r@ =~= decoded_bits_u8(bytes@, n as int));
    }
    r
}

/// Decode a word packing back to ±1 spins.
pub fn decode_u64_vec(words: &Vec<u64>, n: usize) -> (r: Vec<i8>)
    requires
        n <= words@.len() * 64,
    ensures
        r@ == decoded_bits_u64(words@, n as int),
        r@.len() == n,
        all_spins(r@),
{
    let mut r: Vec<i8> = Vec::new();
    for i in 0..n
        invariant
            n <= words@.len() * 64,
            r@.len() == i,
            forall|j: int| 0 <= j < i ==> r@[j] == decoded_bits_u64(words@, n as int)[j],
    {
        let w = words[i / 64];
        let bit = (w >> ((i % 64) as u64)) & 1u64;
        if bit == 1 {
            r.push(-1i8);
        } else {
            r.push(1i8);
        }
    }
    proof {
        assert(r@ =~= decoded_bits_u64(words@, n as int));
    }
    r
}

/// Bit-packing round trip: decoding a byte packing that encodes a spin
/// vector under the stated convention reproduces the vector.
pub proof fn lemma_bytes_round_trip(s: Seq<i8>, bytes: Seq<u8>)
    requires
        all_spins(s),
        s.len() <= bytes.len() * 8,
        forall|i: int| 0 <= i < s.len() ==> packed_bit_u8(bytes, i) == (s[i] < 0),
    ensures
        decoded_bits_u8(bytes, s.len() as int) == s,
{
    assert forall|i: int| 0 <= i < s.len() implies decoded_bits_u8(bytes, s.len() as int)[i]
        == s[i] by {
        assert(is_spin(s[i]));
    }
    assert(decoded_bits_u8(bytes, s.len() as int) =~= s);
}

/// Bit-packing round trip for the word packing.
pub proof fn lemma_u64_round_trip(s: Seq<i8>, words: Seq<u64>)
    requires
        all_spins(s),
        s.len() <= words.len() * 64,
        forall|i: int| 0 <= i < s.len() ==> packed_bit_u64(words, i) == (s[i] < 0),
    ensures
        decoded_bits_u64(words, s.len() as int) == s,
{
    assert forall|i: int| 0 <= i < s.len() implies decoded_bits_u64(words, s.len() as int)[i]
        == s[i] by {
        assert(is_spin(s[i]));
    }
    assert(decoded_bits_u64(words, s.len() as int) =~= s);
}

} // verus!
