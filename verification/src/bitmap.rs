use vstd::prelude::*;
use vstd::arithmetic::power2::{lemma2_to64, pow2};

verus! {

/// Bit `k` (counting from the least significant one) of the byte `b`.
pub open spec fn byte_bit(b: u8, k: u8) -> bool {
    (b >> k) & 1 == 1
}

proof fn lemma_set_bit(b: u8, k: u8)
    requires
        k < 8,
    ensures
        forall|j: u8| j < 8 ==> #[trigger] byte_bit(b | (1u8 << k), j) == (j == k || byte_bit(b, j)),
{
    assert forall|j: u8| j < 8 implies #[trigger] byte_bit(b | (1u8 << k), j) == (j == k || byte_bit(b, j)) by {
        assert((((b | (1u8 << k)) >> j) & 1 == 1) == (j == k || ((b >> j) & 1 == 1))) by (bit_vector)
            requires
                k < 8,
                j < 8,
        ;
    }
}

proof fn lemma_clear_bit(b: u8, k: u8)
    requires
        k < 8,
    ensures
        forall|j: u8| j < 8 ==> #[trigger] byte_bit(b & !(1u8 << k), j) == (j != k && byte_bit(b, j)),
{
    assert forall|j: u8| j < 8 implies #[trigger] byte_bit(b & !(1u8 << k), j) == (j != k && byte_bit(b, j)) by {
        assert((((b & !(1u8 << k)) >> j) & 1 == 1) == (j != k && ((b >> j) & 1 == 1))) by (bit_vector)
            requires
                k < 8,
                j < 8,
        ;
    }
}

proof fn lemma_get_bit(b: u8, k: u8)
    requires
        k < 8,
    ensures
        (b & (1u8 << k) != 0) == byte_bit(b, k),
{
    assert((b & (1u8 << k) != 0) == ((b >> k) & 1 == 1)) by (bit_vector)
        requires
            k < 8,
    ;
}

proof fn lemma_zero_byte()
    ensures
        forall|j: u8| j < 8 ==> !#[trigger] byte_bit(0u8, j),
{
    assert forall|j: u8| j < 8 implies !#[trigger] byte_bit(0u8, j) by {
        assert((0u8 >> j) & 1 != 1) by (bit_vector);
    }
}

/// A sequence of bits stored in bytes, the first bit in the least significant bit of the first byte.
pub struct Bitmap {
    data: Vec<u8>,
}

impl View for Bitmap {
    type V = Seq<bool>;

    closed spec fn view(&self) -> Seq<bool> {
        Seq::new((self.data@.len() * 8) as nat, |i: int| byte_bit(self.data@[i / 8], (i % 8) as u8))
    }
}

impl Bitmap {
    /// The bytes that store the bits.
    pub closed spec fn bytes(&self) -> Seq<u8> {
        self.data@
    }

    /// Bit `i` of a bitmap is stored in byte `i / 8`, as its bit of weight `2^(i % 8)`: the first bit in the least
    /// significant bit of the first byte, as ext4 stores its block and inode bitmaps.
    pub proof fn law_bit_order(&self, i: int)
        requires
            0 <= i < self@.len(),
        ensures
            self@.len() == self.bytes().len() * 8,
            self@[i] == ((self.bytes()[i / 8] as int / pow2((i % 8) as nat) as int) % 2 == 1),
    {
        let b = self.bytes()[i / 8];
        let k = i % 8;
        lemma2_to64();
        assert(self@[i] == byte_bit(b, k as u8));
        let d = pow2(k as nat) as int;
        if k == 0 {
            assert(d == 1);
            assert(((b >> 0u8) & 1 == 1) == ((b / 1) % 2 == 1)) by (bit_vector);
            assert(byte_bit(b, 0u8) == ((b >> 0u8) & 1 == 1));
        } else if k == 1 {
            assert(d == 2);
            assert(((b >> 1u8) & 1 == 1) == ((b / 2) % 2 == 1)) by (bit_vector);
            assert(byte_bit(b, 1u8) == ((b >> 1u8) & 1 == 1));
        } else if k == 2 {
            assert(d == 4);
            assert(((b >> 2u8) & 1 == 1) == ((b / 4) % 2 == 1)) by (bit_vector);
            assert(byte_bit(b, 2u8) == ((b >> 2u8) & 1 == 1));
        } else if k == 3 {
            assert(d == 8);
            assert(((b >> 3u8) & 1 == 1) == ((b / 8) % 2 == 1)) by (bit_vector);
            assert(byte_bit(b, 3u8) == ((b >> 3u8) & 1 == 1));
        } else if k == 4 {
            assert(d == 16);
            assert(((b >> 4u8) & 1 == 1) == ((b / 16) % 2 == 1)) by (bit_vector);
            assert(byte_bit(b, 4u8) == ((b >> 4u8) & 1 == 1));
        } else if k == 5 {
            assert(d == 32);
            assert(((b >> 5u8) & 1 == 1) == ((b / 32) % 2 == 1)) by (bit_vector);
            assert(byte_bit(b, 5u8) == ((b >> 5u8) & 1 == 1));
        } else if k == 6 {
            assert(d == 64);
            assert(((b >> 6u8) & 1 == 1) == ((b / 64) % 2 == 1)) by (bit_vector);
            assert(byte_bit(b, 6u8) == ((b >> 6u8) & 1 == 1));
        } else {
            assert(d == 128);
            assert(((b >> 7u8) & 1 == 1) == ((b / 128) % 2 == 1)) by (bit_vector);
            assert(byte_bit(b, 7u8) == ((b >> 7u8) & 1 == 1));
        }
    }

    pub fn new(data: Vec<u8>) -> (r: Self)
        requires
            data@.len() * 8 <= usize::MAX,
        ensures
            r.bytes() == data@,
            r@.len() == data@.len() * 8,
            forall|i: int| 0 <= i < r@.len() ==> #[trigger] r@[i] == byte_bit(data@[i / 8], (i % 8) as u8),
    {
        Bitmap { data }
    }

    pub fn get(&self, idx: usize) -> (r: bool)
        requires
            idx < self@.len(),
        ensures
            r == self@[idx as int],
    {
        let data_idx = idx / 8;
        let bit_idx = (idx % 8) as u8;
        proof {
            lemma_get_bit(self.data@[data_idx as int], bit_idx);
        }
        self.data[data_idx] & (1u8 << bit_idx) != 0
    }

    pub fn set(&mut self, idx: usize)
        requires
            idx < old(self)@.len(),
        ensures
            final(self)@ == old(self)@.update(idx as int, true),
            final(self).bytes().len() == old(self).bytes().len(),
    {
        let data_idx = idx / 8;
        let bit_idx = (idx % 8) as u8;
        let ghost old_view = self@;
        let b = self.data[data_idx];
        proof {
            lemma_set_bit(b, bit_idx);
        }
        self.data.set(data_idx, b | (1u8 << bit_idx));
        proof {
            assert forall|i: int| 0 <= i < self@.len() implies #[trigger] self@[i] == old_view.update(idx as int, true)[i] by {
                if i / 8 == data_idx as int {
                    assert(byte_bit(b | (1u8 << bit_idx), (i % 8) as u8) == ((i % 8) as u8 == bit_idx || byte_bit(b, (i % 8) as u8)));
                }
            }
            assert(self@ =~= old_view.update(idx as int, true));
        }
    }

    pub fn clear(&mut self, idx: usize)
        requires
            idx < old(self)@.len(),
        ensures
            final(self)@ == old(self)@.update(idx as int, false),
            final(self).bytes().len() == old(self).bytes().len(),
    {
        let data_idx = idx / 8;
        let bit_idx = (idx % 8) as u8;
        let ghost old_view = self@;
        let b = self.data[data_idx];
        proof {
            lemma_clear_bit(b, bit_idx);
        }
        self.data.set(data_idx, b & !(1u8 << bit_idx));
        proof {
            assert forall|i: int| 0 <= i < self@.len() implies #[trigger] self@[i] == old_view.update(idx as int, false)[i] by {
                if i / 8 == data_idx as int {
                    assert(byte_bit(b & !(1u8 << bit_idx), (i % 8) as u8) == ((i % 8) as u8 != bit_idx && byte_bit(b, (i % 8) as u8)));
                }
            }
            assert(self@ =~= old_view.update(idx as int, false));
        }
    }

    pub fn clear_all(&mut self)
        ensures
            final(self)@.len() == old(self)@.len(),
            forall|i: int| 0 <= i < final(self)@.len() ==> !#[trigger] final(self)@[i],
            final(self).bytes() == Seq::new(old(self).bytes().len(), |i: int| 0u8),
    {
        let mut i: usize = 0;
        let ghost n = self.data@.len();
        while i < self.data.len()
            invariant
                i <= n,
                self.data@.len() == n,
                forall|j: int| 0 <= j < i ==> self.data@[j] == 0u8,
            decreases n - i,
        {
            self.data.set(i, 0u8);
            i += 1;
        }
        proof {
            lemma_zero_byte();
            assert forall|i: int| 0 <= i < self@.len() implies !#[trigger] self@[i] by {
                assert(self.data@[i / 8] == 0u8);
                assert(!byte_bit(0u8, (i % 8) as u8));
            }
            assert(self.data@ =~= Seq::new(n, |i: int| 0u8));
        }
    }

    pub fn len(&self) -> (r: usize)
        requires
            self.bytes().len() * 8 <= usize::MAX,
        ensures
            r == self@.len(),
    {
        self.data.len() * 8
    }

    /// The bytes that store the bits.
    pub fn as_bytes(&self) -> (r: &[u8])
        ensures
            r@ == self.bytes(),
    {
        self.data.as_slice()
    }
}

/// Reading a bit that was just set gives `true`, and setting a bit leaves every other bit as it was.
pub proof fn law_set_then_get(before: Seq<bool>, after: Seq<bool>, idx: int, other: int)
    requires
        0 <= idx < before.len(),
        after == before.update(idx, true),
        0 <= other < before.len(),
        other != idx,
    ensures
        after[idx],
        after[other] == before[other],
{
}

} // verus!
