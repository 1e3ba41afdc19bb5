use vstd::prelude::*;
use vstd::arithmetic::power2::{pow2, lemma_pow2_pos, lemma_pow2_strictly_increases};
use vstd::bits::{lemma_u32_shl_is_mul, lemma_u64_shl_is_mul, lemma_u64_pow2_no_overflow};
use vstd::bits::lemma_u32_pow2_no_overflow;

verus! {

/// Whether `value` can be stored in an entry that is `bits` wide.
pub open spec fn fits(value: u32, bits: nat) -> bool {
    bits >= 32 || (value as nat) < pow2(bits)
}

/// Mask of the low `bits` bits of a backing word.
pub open spec fn entry_mask(bits: nat) -> u64 {
    ((1u64 << bits) - 1) as u64
}

/// Number of 64-bit words that back `size` entries of `bits` bits each.
pub open spec fn backing_len(bits: nat, size: nat) -> nat {
    ((size * bits + 63) / 64) as nat
}

/// The text of the error for backing words that do not make an array of
/// `size` entries of width `bits`.
pub open spec fn backing_error(bits: nat, size: nat) -> Seq<char> {
    if bits == 0 || bits > 32 {
        "BitArray width must be between 1 and 32"@
    } else if size * bits + 63 > usize::MAX {
        "BitArray is too large"@
    } else {
        "BitArray backing length does not match its size"@
    }
}

/// Entry `index` of a packed array: its `bits` bits start at bit
/// `index * bits` of the little-endian concatenation of `longs`, and an
/// entry may straddle two consecutive words.
pub open spec fn packed_entry(longs: Seq<u64>, bits: nat, index: nat) -> u32 {
    let start = index * bits;
    let first = start / 64;
    let last = ((index + 1) * bits - 1) / 64;
    let offset = (start % 64) as u64;
    if first == last {
        ((longs[first as int] >> offset) & entry_mask(bits)) as u32
    } else {
        (((longs[first as int] >> offset) | (longs[last as int] << ((64 - offset) as u64)))
            & entry_mask(bits)) as u32
    }
}

/// A fixed-size array of entries that are each `bits` wide.
#[derive(Debug)]
pub struct BitArray {
    bits: usize,
    values: Vec<u32>,
}

impl BitArray {
    /// Width of each entry.
    pub closed spec fn spec_bits(&self) -> nat {
        self.bits as nat
    }

    /// The entries, in order.
    pub closed spec fn entries(&self) -> Seq<u32> {
        self.values@
    }

    /// Every entry fits its width, and the width is between 1 and 32.
    pub closed spec fn wf(&self) -> bool {
        &&& 1 <= self.bits <= 32
        &&& forall|i: int| 0 <= i < self.values@.len() ==> fits(#[trigger] self.values@[i], self.bits as nat)
    }

    /// An array of `size` zero entries of width `bits`; fails unless
    /// `1 <= bits <= 32`.
    pub fn new(bits: usize, size: usize) -> (res: Result<BitArray, String>)
        ensures
            res is Ok <==> 1 <= bits <= 32,
            res matches Ok(a) ==> {
                &&& a.wf()
                &&& a.spec_bits() == bits
                &&& a.entries() == Seq::new(size as nat, |i: int| 0u32)
            },
    {
        if bits == 0 || bits > 32 {
            return Err(String::from_str("BitArray width must be between 1 and 32"));
        }
        Ok(Self::zeroed(bits, size))
    }

    /// An array of `size` zero entries of width `bits`.
    pub fn zeroed(bits: usize, size: usize) -> (a: BitArray)
        requires
            1 <= bits <= 32,
        ensures
            a.wf(),
            a.spec_bits() == bits,
            a.entries() == Seq::new(size as nat, |i: int| 0u32),
    {
        let values: Vec<u32> = vec![0u32; size];
        let res = BitArray { bits, values };
        proof {
            assert forall|i: int| 0 <= i < res.values@.len() implies fits(#[trigger] res.values@[i], bits as nat) by {
                lemma_pow2_pos(bits as nat);
            }
            assert(res.values@ =~= Seq::new(size as nat, |i: int| 0u32));
        }
        res
    }

    proof fn lemma_entry_in_words(bits: nat, size: nat, index: nat)
        requires
            1 <= bits <= 32,
            index < size,
        ensures
            index * bits < size * bits,
            (index + 1) * bits <= size * bits,
            (index + 1) * bits >= 1,
            ((index + 1) * bits - 1) / 64 < backing_len(bits, size),
            (index * bits) / 64 <= ((index + 1) * bits - 1) / 64,
            (index * bits) / 64 != ((index + 1) * bits - 1) / 64 ==> (index * bits) % 64 != 0,
            (index * bits) / 64 != ((index + 1) * bits - 1) / 64 ==>
                ((index + 1) * bits - 1) / 64 == (index * bits) / 64 + 1,
    {
        assert(index * bits < size * bits) by (nonlinear_arith)
            requires index < size, bits >= 1;
        assert((index + 1) * bits <= size * bits) by (nonlinear_arith)
            requires index + 1 <= size, bits >= 1;
        assert((index + 1) * bits == index * bits + bits) by (nonlinear_arith);
    }

    /// Unpacks `size` entries of width `bits` from their backing words;
    /// fails unless the width is between 1 and 32 and exactly
    /// `backing_len(bits, size)` words are given; see [`backing_error`].
    pub fn fromBacking(bits: usize, size: usize, longs: Vec<u64>) -> (res: Result<BitArray, String>)
        ensures
            res is Ok <==> (1 <= bits <= 32 && longs@.len() == backing_len(bits as nat, size as nat)
                && size * bits + 63 <= usize::MAX),
            res matches Err(m) ==> m@ == backing_error(bits as nat, size as nat),
            res matches Ok(a) ==> {
                &&& a.wf()
                &&& a.spec_bits() == bits
                &&& a.entries() == Seq::new(size as nat, |i: int| packed_entry(longs@, bits as nat, i as nat))
            },
    {
        if bits == 0 || bits > 32 {
            return Err(String::from_str("BitArray width must be between 1 and 32"));
        }
        let total: usize = match size.checked_mul(bits) {
            Some(t) => t,
            None => {
                proof {
                    assert(size * bits + 63 > usize::MAX);
                }
                return Err(String::from_str("BitArray is too large"));
            },
        };
        if total > usize::MAX - 63 {
            return Err(String::from_str("BitArray is too large"));
        }
        let needed: usize = (total + 63) / 64;
        if longs.len() != needed {
            return Err(String::from_str("BitArray backing length does not match its size"));
        }
        proof {
            let b = bits as u64;
            assert(1 <= b <= 32 ==> (1u64 << b) >= 1) by (bit_vector);
        }
        let mask: u64 = (1u64 << (bits as u64)) - 1;
        let mut values: Vec<u32> = Vec::new();
        let mut index: usize = 0;
        while index < size
            invariant
                1 <= bits <= 32,
                total == size * bits,
                longs@.len() == backing_len(bits as nat, size as nat),
                mask == entry_mask(bits as nat),
                index <= size,
                values@.len() == index,
                forall|i: int| 0 <= i < index ==> values@[i] == packed_entry(longs@, bits as nat, i as nat),
                forall|i: int| 0 <= i < index ==> fits(#[trigger] values@[i], bits as nat),
            decreases size - index,
        {
            proof {
                Self::lemma_entry_in_words(bits as nat, size as nat, index as nat);
            }
            let start: usize = index * bits;
            let first: usize = start / 64;
            let last: usize = ((index + 1) * bits - 1) / 64;
            let offset: u64 = (start % 64) as u64;
            let raw: u64 = if first == last {
                longs[first] >> offset
            } else {
                (longs[first] >> offset) | (longs[last] << (64 - offset))
            };
            let word: u64 = raw & mask;
            let value: u32 = #[verifier::truncate] (word as u32);
            proof {
                let b = bits as u64;
                let w = word;
                assert((raw & mask) & mask == raw & mask) by (bit_vector);
                if bits < 32 {
                    assert(1 <= b < 32 ==> (w & (((1u64 << b) - 1) as u64)) < (1u64 << b)) by (bit_vector);
                    assert(1 <= b < 32 ==> (1u64 << b) <= 0x8000_0000u64) by (bit_vector);
                    lemma_u64_pow2_no_overflow(bits as nat);
                    lemma_u64_shl_is_mul(1, b);
                    assert(w < 0x1_0000_0000u64 ==> (w as u32) as u64 == w) by (bit_vector);
                } else {
                    lemma_u32_pow2_no_overflow(31);
                }
            }
            values.push(value);
            index = index + 1;
        }
        let res = BitArray { bits, values };
        proof {
            assert(res.values@ =~= Seq::new(size as nat, |i: int| packed_entry(longs@, bits as nat, i as nat)));
        }
        Ok(res)
    }

    /// Number of entries.
    pub fn size(&self) -> (n: usize)
        ensures
            n == self.entries().len(),
    {
        self.values.len()
    }

    /// Width of each entry.
    pub fn bits(&self) -> (b: usize)
        ensures
            b == self.spec_bits(),
    {
        self.bits
    }

    /// The entry at `index`, or `None` past the end.
    pub fn getAt(&self, index: usize) -> (res: Option<u32>)
        ensures
            res == (if index < self.entries().len() { Some(self.entries()[index as int]) } else { None::<u32> }),
    {
        if index < self.values.len() {
            Some(self.values[index])
        } else {
            None
        }
    }

    /// Stores `value` at `index`; fails, changing nothing, past the end or
    /// when the value does not fit the entry width.
    pub fn setAt(&mut self, index: usize, value: u32) -> (res: Result<(), String>)
        requires
            old(self).wf(),
        ensures
            final(self).wf(),
            final(self).spec_bits() == old(self).spec_bits(),
            res is Ok <==> (index < old(self).entries().len() && fits(value, old(self).spec_bits())),
            res is Ok ==> final(self).entries() == old(self).entries().update(index as int, value),
            res is Err ==> *final(self) == *old(self),
    {
        if index >= self.values.len() {
            return Err(String::from_str("BitArray index out of bounds"));
        }
        if self.bits < 32 {
            proof {
                lemma_u32_pow2_no_overflow(self.bits as nat);
                lemma_u32_shl_is_mul(1, self.bits as u32);
            }
            if value >= (1u32 << (self.bits as u32)) {
                return Err(String::from_str("value does not fit the BitArray entry width"));
            }
        }
        self.values.set(index, value);
        Ok(())
    }
}

impl Clone for BitArray {
    /// A copy with the same width and entries.
    fn clone(&self) -> (res: Self)
        ensures
            res.spec_bits() == self.spec_bits(),
            res.entries() == self.entries(),
            self.wf() ==> res.wf(),
    {
        BitArray { bits: self.bits, values: copy_u32s(&self.values) }
    }
}

/// A copy of `v`.
pub fn copy_u32s(v: &Vec<u32>) -> (res: Vec<u32>)
    ensures
        res@ == v@,
{
    let mut res: Vec<u32> = Vec::new();
    let mut i: usize = 0;
    while i < v.len()
        invariant
            i <= v@.len(),
            res@ == v@.take(i as int),
        decreases v@.len() - i,
    {
        res.push(v[i]);
        i = i + 1;
        proof {
            assert(res@ =~= v@.take(i as int));
        }
    }
    proof {
        assert(res@ =~= v@);
    }
    res
}

/// Larger widths admit every value that smaller widths admit.
pub proof fn lemma_fits_wider(value: u32, narrow: nat, wide: nat)
    requires
        fits(value, narrow),
        narrow <= wide,
    ensures
        fits(value, wide),
{
    if wide < 32 && narrow < wide {
        lemma_pow2_strictly_increases(narrow, wide);
    }
}

/// Every entry of a well-formed array fits its width.
pub proof fn lemma_entries_fit(a: &BitArray)
    requires
        a.wf(),
    ensures
        forall|i: int| 0 <= i < a.entries().len() ==> fits(#[trigger] a.entries()[i], a.spec_bits()),
{
}

} // verus!
