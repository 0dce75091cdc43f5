//! A growable sequence of booleans packed eight to a byte, most significant
//! bit first, with indexed reads and writes and amortised append.

use vstd::prelude::*;

verus! {

/// Whether bit `k` of `byte` is set, counting from the least significant bit.
pub open spec fn lsb_bit(byte: u8, k: u8) -> bool {
    (byte >> k) & 1u8 == 1u8
}

/// The value stored at offset `off` (0..8) of `byte`, where offset 0 is the
/// most significant bit.
pub open spec fn bit_of(byte: u8, off: int) -> bool {
    lsb_bit(byte, (7 - off) as u8)
}

/// Number of bytes needed to hold `n` bits: the ceiling of `n / 8`.
pub open spec fn bytes_for(n: nat) -> nat {
    ((n + 7) / 8) as nat
}

/// A sequence of `size` booleans; bit `i` lives in byte `i / 8` at offset
/// `i % 8`, most significant bit first.
pub struct Bitmap {
    size: usize,
    bits: Vec<u8>,
}

impl View for Bitmap {
    type V = Seq<bool>;

    closed spec fn view(&self) -> Seq<bool> {
        Seq::new(self.size as nat, |i: int| bit_of(self.bits@[i / 8], i % 8))
    }
}

impl Bitmap {
    /// The storage holds exactly `ceil(size / 8)` bytes, and every bit past
    /// `size` in the last byte is clear.
    pub closed spec fn wf(&self) -> bool {
        &&& self.bits@.len() == bytes_for(self.size as nat)
        &&& forall|i: int|
            self.size <= i < self.bits@.len() * 8 ==> !#[trigger] bit_of(self.bits@[i / 8], i % 8)
    }

    /// Number of bytes of backing storage.
    pub closed spec fn byte_len(&self) -> nat {
        self.bits@.len()
    }

    /// An empty bitmap.
    pub fn new() -> (r: Bitmap)
        ensures
            r.wf(),
            r@ == Seq::<bool>::empty(),
            r.byte_len() == 0,
    {
        Self::with_size(0)
    }

    /// A bitmap of `size` bits, all clear.
    pub fn with_size(size: usize) -> (r: Bitmap)
        ensures
            r.wf(),
            r@ == Seq::new(size as nat, |i: int| false),
            r.byte_len() == bytes_for(size as nat),
    {
        let mut bits: Vec<u8> = Vec::new();
        let bits_size: usize;
        if size == 0 {
            bits_size = 0;
        } else {
            bits_size = (size - 1) / 8 + 1;
        }
        let mut i: usize = 0;
        while i < bits_size
            invariant
                i <= bits_size,
                bits@.len() == i,
                forall|j: int| 0 <= j < i ==> bits@[j] == 0u8,
            decreases bits_size - i,
        {
            bits.push(0);
            i = i + 1;
        }
        proof {
            lemma_zero_byte_clear();
        }
        let r = Bitmap { size, bits };
        assert(r@ =~= Seq::new(size as nat, |i: int| false));
        r
    }

    /// The number of bits.
    pub fn size(&self) -> (r: usize)
        ensures
            r == self@.len(),
    {
        self.size
    }

    /// The bit at `idx`.
    pub fn get(&self, idx: usize) -> (r: bool)
        requires
            self.wf(),
            idx < self@.len(),
        ensures
            r == self@[idx as int],
    {
        proof {
            lemma_index_split(idx);
        }
        let byte_idx = idx >> 3;
        let offset = idx & 0b111;
        let byte = self.bits[byte_idx];
        let shift = (7 - offset) as u8;
        (byte >> shift) & 1 == 1
    }

    /// Sets the bit at `idx` to `value`, leaving every other bit and the
    /// storage size as they were.
    pub fn set(&mut self, idx: usize, value: bool)
        requires
            old(self).wf(),
            idx < old(self)@.len(),
        ensures
            final(self).wf(),
            final(self)@ == old(self)@.update(idx as int, value),
            final(self).byte_len() == old(self).byte_len(),
    {
        proof {
            lemma_index_split(idx);
        }
        let ghost before = self.bits@;
        let byte_idx = idx >> 3;
        let offset = idx & 0b111;
        let mut byte = self.bits[byte_idx];
        let shift = (7 - offset) as u8;
        let curval = (byte >> shift) & 1;
        let mask: u8;
        if value {
            mask = 1 ^ curval;
        } else {
            mask = 0 ^ curval;
        }
        let ghost old_byte = byte;
        byte = byte ^ (mask << shift);
        self.bits.set(byte_idx, byte);
        proof {
            let target: u8 = if value { 1 } else { 0 };
            assert(mask == target ^ ((old_byte >> shift) & 1u8));
            assert forall|j: int| 0 <= j < before.len() * 8 implies
                #[trigger] bit_of(self.bits@[j / 8], j % 8) == if j == idx {
                    value
                } else {
                    bit_of(before[j / 8], j % 8)
                } by {
                if j / 8 == byte_idx {
                    let k = (7 - j % 8) as u8;
                    lemma_write_bit(old_byte, shift, target, k);
                }
            }
            assert(self@ =~= old(self)@.update(idx as int, value));
        }
    }

    /// Appends `value`, adding a clear byte of storage first when every bit
    /// of the existing storage is in use.
    pub fn push(&mut self, value: bool)
        requires
            old(self).wf(),
            old(self)@.len() < usize::MAX,
        ensures
            final(self).wf(),
            final(self)@ == old(self)@.push(value),
            final(self).byte_len() == if old(self)@.len() % 8 == 0 {
                old(self).byte_len() + 1
            } else {
                old(self).byte_len()
            },
    {
        let ghost before = self@;
        let size = self.size;
        assert(size & 0b111 == size % 8) by (bit_vector);
        if self.size & 0b111 == 0 {
            self.bits.push(0);
            proof {
                lemma_zero_byte_clear();
            }
        }
        let idx = self.size;
        self.size = self.size + 1;
        assert(self@ =~= before.push(false));
        self.set(idx, value);
        assert(self@ =~= before.push(value));
    }

    /// The bits as a string of `'0'` and `'1'`, first bit first.
    pub fn dump(&self) -> (r: String)
        requires
            self.wf(),
        ensures
            r@ == bits_text(self@),
    {
        let mut s = String::new();
        let mut i: usize = 0;
        while i < self.size
            invariant
                self.wf(),
                i <= self@.len(),
                s@ == bits_text(self@.take(i as int)),
            decreases self@.len() - i,
        {
            let ghost prev = s@;
            if self.get(i) {
                proof {
                    reveal_strlit("1");
                }
                s.append("1");
            } else {
                proof {
                    reveal_strlit("0");
                }
                s.append("0");
            }
            assert(self@.take(i + 1) =~= self@.take(i as int).push(self@[i as int]));
            assert(s@ =~= bits_text(self@.take(i + 1)));
            i = i + 1;
        }
        assert(self@.take(i as int) =~= self@);
        s
    }
}

/// The text of a bit sequence: `'1'` for a set bit, `'0'` for a clear one.
pub open spec fn bits_text(s: Seq<bool>) -> Seq<char> {
    s.map_values(|b: bool| if b { '1' } else { '0' })
}

/// The bits of `start` followed by `values`, appended one at a time.
pub open spec fn pushed_all(start: Seq<bool>, values: Seq<bool>) -> Seq<bool>
    decreases values.len(),
{
    if values.len() == 0 {
        start
    } else {
        pushed_all(start, values.drop_last()).push(values.last())
    }
}

/// Whatever operations produced it, a well-formed bitmap keeps exactly
/// `ceil(size / 8)` bytes of storage.
pub proof fn lemma_storage_matches_size(b: &Bitmap)
    requires
        b.wf(),
    ensures
        b.byte_len() == bytes_for(b@.len()),
{
}

/// Pushing `values` one by one onto an empty bitmap gives exactly `values`,
/// so after `k` pushes the size is `k`.
pub proof fn lemma_pushes_from_empty(values: Seq<bool>)
    ensures
        pushed_all(Seq::empty(), values) == values,
        pushed_all(Seq::empty(), values).len() == values.len(),
    decreases values.len(),
{
    if values.len() > 0 {
        lemma_pushes_from_empty(values.drop_last());
        assert(values.drop_last().push(values.last()) =~= values);
    }
}

/// Setting bit `idx` to `v` makes it read back as `v` and leaves every
/// other bit unchanged.
pub proof fn lemma_set_then_get(b: &Bitmap, idx: int, v: bool)
    requires
        b.wf(),
        0 <= idx < b@.len(),
    ensures
        b@.update(idx, v)[idx] == v,
        b@.update(idx, v).len() == b@.len(),
        forall|j: int| 0 <= j < b@.len() && j != idx ==> #[trigger] b@.update(idx, v)[j] == b@[j],
{
}

/// Setting the same bit to the same value twice has the effect of setting it
/// once.
pub proof fn lemma_set_twice(b: &Bitmap, idx: int, v: bool)
    requires
        b.wf(),
        0 <= idx < b@.len(),
    ensures
        b@.update(idx, v).update(idx, v) == b@.update(idx, v),
{
    assert(b@.update(idx, v).update(idx, v) =~= b@.update(idx, v));
}

/// Shifting and masking split an index into its byte and its offset.
proof fn lemma_index_split(idx: usize)
    ensures
        idx >> 3 == idx / 8,
        idx & 0b111 == idx % 8,
{
    assert(idx >> 3 == idx / 8) by (bit_vector);
    assert(idx & 0b111 == idx % 8) by (bit_vector);
}

/// Flipping bit `shift` of `byte` exactly when it differs from `target`
/// makes that bit equal `target` and keeps every other bit.
proof fn lemma_write_bit(byte: u8, shift: u8, target: u8, k: u8)
    requires
        shift < 8,
        k < 8,
        target < 2,
    ensures
        lsb_bit(byte ^ ((target ^ ((byte >> shift) & 1u8)) << shift), k) == if k == shift {
            target == 1
        } else {
            lsb_bit(byte, k)
        },
{
    let nb = byte ^ ((target ^ ((byte >> shift) & 1u8)) << shift);
    assert(k == shift ==> ((nb >> k) & 1u8 == 1u8) == (target == 1u8)) by (bit_vector)
        requires
            nb == byte ^ ((target ^ ((byte >> shift) & 1u8)) << shift),
            shift < 8,
            target < 2,
    ;
    assert(k != shift ==> (nb >> k) & 1u8 == (byte >> k) & 1u8) by (bit_vector)
        requires
            nb == byte ^ ((target ^ ((byte >> shift) & 1u8)) << shift),
            shift < 8,
            k < 8,
            target < 2,
    ;
}

/// A zero byte holds no set bit.
proof fn lemma_zero_byte_clear()
    ensures
        forall|off: int| 0 <= off < 8 ==> !#[trigger] bit_of(0u8, off),
{
    assert forall|off: int| 0 <= off < 8 implies !#[trigger] bit_of(0u8, off) by {
        let k = (7 - off) as u8;
        assert(k < 8);
        assert((0u8 >> k) & 1u8 == 0u8) by (bit_vector);
    }
}

} // verus!
