//! A growable bit-addressable buffer.
//!
//! Bits are stored packed into bytes, most-significant-bit first within each
//! byte.  The number of meaningful bits (`bit_size`) is tracked separately
//! from the allocated byte length, and all bits past `bit_size` in the
//! backing storage are kept zero.

use vstd::prelude::*;

verus! {

/// True when bit `j` (0 = most significant) of byte `b` is set.
pub open spec fn bit_of(b: u8, j: u8) -> bool {
    b & (0x80u8 >> j) != 0
}

/// The bit at position `i` of a packed byte sequence, MSB first within each byte.
pub open spec fn bit_in(bytes: Seq<u8>, i: int) -> bool {
    bit_of(bytes[i / 8], (i % 8) as u8)
}

/// The 8 bits of a byte, most significant first.
pub open spec fn byte_bits(b: u8) -> Seq<bool> {
    Seq::new(8, |j: int| bit_of(b, j as u8))
}

/// The byte whose bits, MSB first, are the first 8 elements of `bits`.
pub open spec fn byte_of_bits(bits: Seq<bool>) -> u8
    recommends
        bits.len() == 8,
{
    (bit_u8(bits[0]) * 128 + bit_u8(bits[1]) * 64 + bit_u8(bits[2]) * 32 + bit_u8(bits[3]) * 16
        + bit_u8(bits[4]) * 8 + bit_u8(bits[5]) * 4 + bit_u8(bits[6]) * 2 + bit_u8(
        bits[7],
    )) as u8
}

/// 1 for a set bit, 0 for a clear one.
pub open spec fn bit_u8(b: bool) -> u8 {
    if b {
        1
    } else {
        0
    }
}

proof fn lemma_zero_byte_bits(j: u8)
    by (bit_vector)
    requires
        j < 8,
    ensures
        !bit_of(0u8, j),
{
}

proof fn lemma_or_sets_bit(b: u8, j: u8, k: u8)
    by (bit_vector)
    requires
        j < 8,
        k < 8,
    ensures
        bit_of(b | (0x80u8 >> j), k) == (j == k || bit_of(b, k)),
{
}

proof fn lemma_byte_of_its_bits(b: u8)
    by (bit_vector)
    ensures
        b == ((if bit_of(b, 0) {
            1u8
        } else {
            0u8
        }) * 128 + (if bit_of(b, 1) {
            1u8
        } else {
            0u8
        }) * 64 + (if bit_of(b, 2) {
            1u8
        } else {
            0u8
        }) * 32 + (if bit_of(b, 3) {
            1u8
        } else {
            0u8
        }) * 16 + (if bit_of(b, 4) {
            1u8
        } else {
            0u8
        }) * 8 + (if bit_of(b, 5) {
            1u8
        } else {
            0u8
        }) * 4 + (if bit_of(b, 6) {
            1u8
        } else {
            0u8
        }) * 2 + (if bit_of(b, 7) {
            1u8
        } else {
            0u8
        })) as u8,
{
}

/// Two bytes with the same eight bits are equal.
pub proof fn lemma_byte_bits_injective(b: u8, bits: Seq<bool>)
    requires
        bits.len() == 8,
        forall|j: int| 0 <= j < 8 ==> bits[j] == bit_of(b, j as u8),
    ensures
        byte_of_bits(bits) == b,
{
    lemma_byte_of_its_bits(b);
}

#[derive(Debug)]
pub struct BitVector {
    bytes: Vec<u8>,
    bit_size: usize,
}

impl View for BitVector {
    type V = Seq<bool>;

    closed spec fn view(&self) -> Seq<bool> {
        Seq::new(self.bit_size as nat, |i: int| bit_in(self.bytes@, i))
    }
}

impl BitVector {
    /// The backing bytes hold exactly the significant bits; padding bits are zero.
    pub closed spec fn wf(&self) -> bool {
        &&& 8 * self.bytes@.len() <= usize::MAX
        &&& self.bytes@.len() == (self.bit_size + 7) / 8
        &&& forall|i: int|
            self.bit_size <= i < 8 * self.bytes@.len() ==> !bit_in(self.bytes@, i)
    }

    /// Creates an empty buffer; `capacity` is a byte-count allocation hint.
    pub fn with_capacity(capacity: usize) -> (r: BitVector)
        ensures
            r.wf(),
            r@ == Seq::<bool>::empty(),
    {
        let r = BitVector { bytes: Vec::new(), bit_size: 0 };
        proof {
            assert(r@ =~= Seq::<bool>::empty());
        }
        r
    }

    /// Count of meaningful bits.
    pub fn bit_size(&self) -> (r: usize)
        ensures
            r == self@.len(),
    {
        self.bit_size
    }

    /// Appends one zero bit.
    pub fn add_zero(&mut self)
        requires
            old(self).wf(),
            old(self)@.len() < usize::MAX - 8,
        ensures
            final(self).wf(),
            final(self)@ == old(self)@.push(false),
    {
        if self.bytes.len() < self.bit_size / 8 + 1 {
            self.bytes.push(0u8);
        }
        let ghost n = old(self).bit_size as int;
        self.bit_size = self.bit_size + 1;
        proof {
            assert forall|j: u8| j < 8 implies !bit_of(0u8, j) by {
                lemma_zero_byte_bits(j);
            }
            assert forall|i: int|
                n + 1 <= i < 8 * self.bytes@.len() implies !bit_in(self.bytes@, i) by {
                assert(0 <= i / 8 < self.bytes@.len());
            }
            assert(self@ =~= old(self)@.push(false)) by {
                assert forall|i: int| 0 <= i < n implies bit_in(self.bytes@, i) == old(
                    self,
                )@[i] by {
                    assert(0 <= i / 8 < old(self).bytes@.len());
                }
                assert(!bit_in(self.bytes@, n));
            }
        }
    }

    /// Appends one set bit.
    pub fn add_one(&mut self)
        requires
            old(self).wf(),
            old(self)@.len() < usize::MAX - 8,
        ensures
            final(self).wf(),
            final(self)@ == old(self)@.push(true),
    {
        if self.bytes.len() < self.bit_size / 8 + 1 {
            self.bytes.push(0u8);
        }
        let ghost grown = self.bytes@;
        let idx = self.bit_size / 8;
        let mask: u8 = 0x80u8 >> ((self.bit_size % 8) as u8);
        let updated: u8 = self.bytes[idx] | mask;
        self.bytes.set(idx, updated);
        let ghost n = old(self).bit_size as int;
        self.bit_size = self.bit_size + 1;
        proof {
            let j = (n % 8) as u8;
            assert forall|k: u8| k < 8 implies bit_of(updated, k) == (j == k || bit_of(
                grown[idx as int],
                k,
            )) by {
                lemma_or_sets_bit(grown[idx as int], j, k);
            }
            assert forall|j2: u8| j2 < 8 implies !bit_of(0u8, j2) by {
                lemma_zero_byte_bits(j2);
            }
            // the grown storage still has zeros past the old bit count
            assert forall|i: int| n <= i < 8 * grown.len() implies !bit_in(grown, i) by {
                assert(0 <= i / 8 < grown.len());
            }
            assert forall|i: int|
                n + 1 <= i < 8 * self.bytes@.len() implies !bit_in(self.bytes@, i) by {
                assert(!bit_in(grown, i));
                if i / 8 == idx {
                    assert((i % 8) as u8 != j);
                }
            }
            assert(self@ =~= old(self)@.push(true)) by {
                assert forall|i: int| 0 <= i < n implies bit_in(self.bytes@, i) == old(
                    self,
                )@[i] by {
                    assert(0 <= i / 8 < old(self).bytes@.len());
                    if i / 8 == idx {
                        assert((i % 8) as u8 != j || i == n);
                    }
                }
                assert(bit_in(self.bytes@, n)) by {
                    assert(n / 8 == idx);
                    assert((n % 8) as u8 == j);
                }
            }
        }
    }

    /// The bit at a 0-based index, read high-to-low within its byte;
    /// `None` when the index is at or past the significant length.
    pub fn get_bit(&self, index: usize) -> (r: Option<bool>)
        requires
            self.wf(),
        ensures
            r == if index < self@.len() {
                Some(self@[index as int])
            } else {
                None::<bool>
            },
    {
        if index < self.bit_size {
            let b = self.bytes[index / 8] & (0x80u8 >> ((index % 8) as u8));
            Some(b != 0)
        } else {
            None
        }
    }

    /// Appends all 8 bits of `byte`, most significant first.
    pub fn append_byte(&mut self, byte: u8)
        requires
            old(self).wf(),
            old(self)@.len() + 16 <= usize::MAX,
        ensures
            final(self).wf(),
            final(self)@ == old(self)@ + byte_bits(byte),
    {
        let mut j: u8 = 0;
        while j < 8
            invariant
                j <= 8,
                self.wf(),
                old(self)@.len() + 16 <= usize::MAX,
                self@ == old(self)@ + byte_bits(byte).take(j as int),
            decreases 8 - j,
        {
            if byte & (0x80u8 >> j) != 0 {
                self.add_one();
            } else {
                self.add_zero();
            }
            j = j + 1;
            proof {
                assert(byte_bits(byte).take(j as int) =~= byte_bits(byte).take(j - 1).push(
                    bit_of(byte, (j - 1) as u8),
                ));
                assert(self@ =~= old(self)@ + byte_bits(byte).take(j as int));
            }
        }
        proof {
            assert(byte_bits(byte).take(8) =~= byte_bits(byte));
        }
    }

    /// Appends another buffer's significant bits (its padding is excluded).
    pub fn append(&mut self, another: &BitVector)
        requires
            old(self).wf(),
            another.wf(),
            old(self)@.len() + another@.len() + 16 <= usize::MAX,
        ensures
            final(self).wf(),
            final(self)@ == old(self)@ + another@,
    {
        let mut i: usize = 0;
        let n = another.bit_size();
        while i < n
            invariant
                i <= n,
                n == another@.len(),
                self.wf(),
                another.wf(),
                old(self)@.len() + another@.len() + 16 <= usize::MAX,
                self@ == old(self)@ + another@.take(i as int),
            decreases n - i,
        {
            let b = match another.get_bit(i) {
                Some(x) => x,
                None => false,
            };
            if b {
                self.add_one();
            } else {
                self.add_zero();
            }
            i = i + 1;
            proof {
                assert(another@.take(i as int) =~= another@.take(i - 1).push(another@[i - 1]));
                assert(self@ =~= old(self)@ + another@.take(i as int));
            }
        }
        proof {
            assert(another@.take(n as int) =~= another@);
        }
    }

    /// The packed backing bytes: the significant bits in order, MSB first,
    /// with zero padding bits completing the final byte.
    pub fn get_bytes(&self) -> (r: &Vec<u8>)
        requires
            self.wf(),
        ensures
            r@.len() == (self@.len() + 7) / 8,
            forall|i: int| 0 <= i < self@.len() ==> bit_in(r@, i) == self@[i],
            forall|i: int| self@.len() <= i < 8 * r@.len() ==> !bit_in(r@, i),
    {
        &self.bytes
    }

    /// The packed bytes except the final one.
    pub fn get_bytes_but_last(&self) -> (r: Vec<u8>)
        requires
            self.wf(),
            self@.len() > 0,
        ensures
            r@.len() == (self@.len() + 7) / 8 - 1,
            forall|i: int| 0 <= i < 8 * r@.len() ==> bit_in(r@, i) == self@[i],
    {
        let mut out: Vec<u8> = Vec::new();
        let last = self.bytes.len() - 1;
        let mut k: usize = 0;
        while k < last
            invariant
                k <= last,
                last == self.bytes@.len() - 1,
                out@ == self.bytes@.take(k as int),
            decreases last - k,
        {
            let b = self.bytes[k];
            out.push(b);
            proof {
                assert(out@ =~= self.bytes@.take(k + 1));
            }
            k = k + 1;
        }
        proof {
            assert(8 * out@.len() < self@.len());
            assert forall|i: int| 0 <= i < 8 * out@.len() implies bit_in(out@, i) == self@[i] by {
                assert(0 <= i / 8 < out@.len());
                assert(out@[i / 8] == self.bytes@[i / 8]);
            }
        }
        out
    }

    /// Index of the byte holding the final significant bit.
    fn last_byte_index(&self) -> (r: usize)
        requires
            self.wf(),
        ensures
            r == if self@.len() == 0 {
                0int
            } else if self@.len() % 8 == 0 {
                self@.len() / 8 - 1
            } else {
                (self@.len() / 8) as int
            },
    {
        if self.bit_size == 0 {
            return 0;
        }
        if self.bit_size % 8 == 0 {
            self.bit_size / 8 - 1
        } else {
            self.bit_size / 8
        }
    }

    /// Drops a trailing byte that holds no significant bits, if one exists.
    pub fn shrink(&mut self)
        requires
            old(self).wf(),
        ensures
            final(self).wf(),
            final(self)@ == old(self)@,
    {
        if self.last_byte_index() + 1 < self.bytes.len() {
            self.bytes.pop();
        }
    }

    /// Builds a buffer over the given bytes, excluding the trailing
    /// `redundant_bits` padding bits from the significant length.
    pub fn from_vec(vec: &[u8], redundant_bits: usize) -> (r: BitVector)
        requires
            redundant_bits <= 8 * vec@.len(),
            8 * vec@.len() + 16 <= usize::MAX,
        ensures
            r.wf(),
            r@ == Seq::new((8 * vec@.len() - redundant_bits) as nat, |i: int| bit_in(vec@, i)),
    {
        let total = vec.len() * 8 - redundant_bits;
        let mut r = BitVector::with_capacity(512);
        let mut i: usize = 0;
        while i < total
            invariant
                i <= total,
                total == 8 * vec@.len() - redundant_bits,
                8 * vec@.len() + 16 <= usize::MAX,
                r.wf(),
                r@.len() == i,
                forall|k: int| 0 <= k < i ==> r@[k] == bit_in(vec@, k),
            decreases total - i,
        {
            proof {
                assert(0 <= i / 8 < vec@.len());
            }
            let b = vec[i / 8] & (0x80u8 >> ((i % 8) as u8));
            if b != 0 {
                r.add_one();
            } else {
                r.add_zero();
            }
            i = i + 1;
        }
        proof {
            assert(r@ =~= Seq::new(
                (8 * vec@.len() - redundant_bits) as nat,
                |i: int| bit_in(vec@, i),
            ));
        }
        r
    }

    /// A new one-byte buffer holding the bits of `another`'s final byte:
    /// the in-progress tail carried across a streaming boundary.
    pub fn from_last_byte(another: &BitVector) -> (r: BitVector)
        requires
            another.wf(),
            another@.len() > 0,
        ensures
            r.wf(),
            r@ == another@.skip(8 * ((another@.len() - 1) / 8)),
    {
        let start = 8 * another.last_byte_index();
        let mut r = BitVector::with_capacity(512);
        let mut i: usize = start;
        while i < another.bit_size
            invariant
                start <= i <= another.bit_size,
                another.wf(),
                another@.len() > 0,
                start == 8 * ((another@.len() - 1) / 8),
                i <= another@.len(),
                r.wf(),
                r@.len() == i - start,
                forall|k: int| 0 <= k < i - start ==> r@[k] == another@[start + k],
            decreases another.bit_size - i,
        {
            let b = match another.get_bit(i) {
                Some(x) => x,
                None => false,
            };
            if b {
                r.add_one();
            } else {
                r.add_zero();
            }
            i = i + 1;
        }
        proof {
            assert(r@ =~= another@.skip(8 * ((another@.len() - 1) / 8)));
        }
        r
    }

    /// The 8 bits starting at an arbitrary bit offset, as one byte.
    pub fn get_byte(&self, index: usize) -> (r: u8)
        requires
            self.wf(),
            index + 8 <= self@.len(),
        ensures
            r == byte_of_bits(self@.subrange(index as int, index as int + 8)),
    {
        let k = index / 8;
        let s = (index % 8) as u8;
        let r: u8;
        if s == 0 {
            r = self.bytes[k];
            proof {
                assert forall|j: u8| j < 8 implies self@.subrange(
                    index as int,
                    index as int + 8,
                )[j as int] == #[trigger] bit_of(r, j) by {
                    assert((index + j) / 8 == k && (index + j) % 8 == j);
                }
            }
        } else {
            proof {
                assert(8 * (k + 1) < index + 8);
                assert(k + 1 < self.bytes@.len());
            }
            let hi = self.bytes[k] << s;
            let lo = self.bytes[k + 1] >> ((8u8 - s) as u8);
            r = hi | lo;
            proof {
                let x = self.bytes@[k as int];
                let y = self.bytes@[k as int + 1];
                assert forall|j: u8| j < 8 implies self@.subrange(
                    index as int,
                    index as int + 8,
                )[j as int] == #[trigger] bit_of(r, j) by {
                    lemma_shift_compose(x, y, s, j);
                    if j < 8 - s {
                        assert((index + j) / 8 == k && (index + j) % 8 == s + j);
                    } else {
                        assert((index + j) / 8 == k + 1 && (index + j) % 8 == s + j - 8);
                    }
                }
            }
        }
        proof {
            lemma_byte_bits_injective(r, self@.subrange(index as int, index as int + 8));
        }
        r
    }

    /// The index of the byte containing the given bit offset.
    pub fn byte_index(index: usize) -> (r: usize)
        ensures
            r == index / 8,
    {
        index / 8
    }

    /// An independent copy of the buffer.
    pub fn duplicate(&self) -> (r: BitVector)
        requires
            self.wf(),
        ensures
            r.wf(),
            r@ == self@,
    {
        let mut copied: Vec<u8> = Vec::new();
        let mut k: usize = 0;
        while k < self.bytes.len()
            invariant
                k <= self.bytes@.len(),
                copied@ == self.bytes@.take(k as int),
            decreases self.bytes@.len() - k,
        {
            let b = self.bytes[k];
            copied.push(b);
            proof {
                assert(copied@ =~= self.bytes@.take(k + 1));
            }
            k = k + 1;
        }
        proof {
            assert(self.bytes@.take(self.bytes@.len() as int) =~= self.bytes@);
        }
        let r = BitVector { bytes: copied, bit_size: self.bit_size };
        proof {
            assert(r@ =~= self@);
        }
        r
    }

    /// A restartable cursor over the significant bits.
    pub fn iter<'a>(&'a self) -> (r: BitVectorIterator<'a>)
        ensures
            r.bit_vec == self,
            r.index == 0,
    {
        BitVectorIterator { bit_vec: self, index: 0 }
    }
}

proof fn lemma_shift_compose(x: u8, y: u8, s: u8, k: u8)
    by (bit_vector)
    requires
        1 <= s < 8,
        k < 8,
    ensures
        bit_of((x << s) | (y >> ((8u8 - s) as u8)), k) == if k + s < 8 {
            bit_of(x, (k + s) as u8)
        } else {
            bit_of(y, ((k + s) - 8) as u8)
        },
{
}

/// A cursor over a `BitVector`'s bits, advanced one bit per call.
pub struct BitVectorIterator<'a> {
    pub bit_vec: &'a BitVector,
    pub index: usize,
}

impl<'a> BitVectorIterator<'a> {
    /// The bit under the cursor, or `None` past the end; the cursor advances.
    pub fn next(&mut self) -> (r: Option<bool>)
        requires
            old(self).bit_vec.wf(),
            old(self).index < usize::MAX,
        ensures
            final(self).bit_vec == old(self).bit_vec,
            final(self).index == old(self).index + 1,
            r == if old(self).index < old(self).bit_vec@.len() {
                Some(old(self).bit_vec@[old(self).index as int])
            } else {
                None::<bool>
            },
    {
        let result = self.bit_vec.get_bit(self.index);
        self.index = self.index + 1;
        result
    }
}

/// A bit sequence padded with zero bits to a whole number of bytes.
pub open spec fn pad_to_bytes(bits: Seq<bool>) -> Seq<bool> {
    bits + Seq::new((((bits.len() + 7) / 8) * 8 - bits.len()) as nat, |i: int| false)
}

/// The bytes that pack a bit sequence, MSB first, zero-padded at the end.
pub open spec fn pack_bits(bits: Seq<bool>) -> Seq<u8> {
    Seq::new(
        ((bits.len() + 7) / 8) as nat,
        |k: int| byte_of_bits(pad_to_bytes(bits).subrange(8 * k, 8 * k + 8)),
    )
}

/// Bytes that hold the given bits, padding kept zero, are exactly the
/// bits' packing.
pub proof fn lemma_pack_bits_match(bytes: Seq<u8>, bits: Seq<bool>)
    requires
        bytes.len() == (bits.len() + 7) / 8,
        forall|i: int| 0 <= i < bits.len() ==> bit_in(bytes, i) == bits[i],
        forall|i: int| bits.len() <= i < 8 * bytes.len() ==> !bit_in(bytes, i),
    ensures
        bytes == pack_bits(bits),
{
    assert forall|k: int| 0 <= k < bytes.len() implies bytes[k] == pack_bits(bits)[k] by {
        let sub = pad_to_bytes(bits).subrange(8 * k, 8 * k + 8);
        assert forall|j: int| 0 <= j < 8 implies sub[j] == bit_of(bytes[k], j as u8) by {
            assert((8 * k + j) / 8 == k && (8 * k + j) % 8 == j);
            assert(bit_in(bytes, 8 * k + j) == bit_of(bytes[k], j as u8));
        }
        lemma_byte_bits_injective(bytes[k], sub);
    }
    assert(bytes =~= pack_bits(bits));
}

/// All the bits a packed byte sequence holds, MSB first within each byte.
pub open spec fn bytes_bits(bytes: Seq<u8>) -> Seq<bool> {
    Seq::new(8 * bytes.len(), |i: int| bit_in(bytes, i))
}

/// A bit of concatenated byte sequences comes from the part it falls in.
pub proof fn lemma_bit_in_concat(a: Seq<u8>, b: Seq<u8>, i: int)
    requires
        0 <= i < 8 * (a.len() + b.len()),
    ensures
        bit_in(a + b, i) == if i < 8 * a.len() {
            bit_in(a, i)
        } else {
            bit_in(b, i - 8 * a.len())
        },
{
    if i < 8 * a.len() {
        assert(0 <= i / 8 < a.len());
        assert((a + b)[i / 8] == a[i / 8]);
    } else {
        let j = i - 8 * a.len();
        assert(i == 8 * a.len() + j);
        assert(i / 8 == a.len() + j / 8 && i % 8 == j % 8) by (nonlinear_arith)
            requires
                i == 8 * a.len() + j,
                0 <= j,
                a.len() >= 0,
        ;
        assert((a + b)[i / 8] == b[j / 8]);
    }
}

proof fn lemma_bits_to_byte(x: u8, v0: bool, v1: bool, v2: bool, v3: bool, v4: bool, v5: bool, v6: bool, v7: bool)
    by (bit_vector)
    requires
        x == ((if v0 {
            1u8
        } else {
            0u8
        }) * 128 + (if v1 {
            1u8
        } else {
            0u8
        }) * 64 + (if v2 {
            1u8
        } else {
            0u8
        }) * 32 + (if v3 {
            1u8
        } else {
            0u8
        }) * 16 + (if v4 {
            1u8
        } else {
            0u8
        }) * 8 + (if v5 {
            1u8
        } else {
            0u8
        }) * 4 + (if v6 {
            1u8
        } else {
            0u8
        }) * 2 + (if v7 {
            1u8
        } else {
            0u8
        })) as u8,
    ensures
        bit_of(x, 0) == v0,
        bit_of(x, 1) == v1,
        bit_of(x, 2) == v2,
        bit_of(x, 3) == v3,
        bit_of(x, 4) == v4,
        bit_of(x, 5) == v5,
        bit_of(x, 6) == v6,
        bit_of(x, 7) == v7,
{
}

/// The byte built from eight bits holds exactly those bits.
pub proof fn lemma_byte_bits_inverse(v: Seq<bool>)
    requires
        v.len() == 8,
    ensures
        forall|j: int| 0 <= j < 8 ==> bit_of(byte_of_bits(v), j as u8) == v[j],
{
    lemma_bits_to_byte(byte_of_bits(v), v[0], v[1], v[2], v[3], v[4], v[5], v[6], v[7]);
}

/// Packing loses no bit: every significant bit reads back from the bytes.
pub proof fn lemma_pack_bits_inverse(bits: Seq<bool>, i: int)
    requires
        0 <= i < bits.len(),
    ensures
        bit_in(pack_bits(bits), i) == bits[i],
{
    let k = i / 8;
    let sub = pad_to_bytes(bits).subrange(8 * k, 8 * k + 8);
    assert(0 <= k < pack_bits(bits).len());
    lemma_byte_bits_inverse(sub);
    assert(pack_bits(bits)[k] == byte_of_bits(sub));
    assert(sub[i % 8] == pad_to_bytes(bits)[i]);
    assert(pad_to_bytes(bits)[i] == bits[i]);
}

} // verus!
