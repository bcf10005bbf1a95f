use vstd::prelude::*;
use crate::bytes::{
    lemma_le_u16_append, lemma_le_u16_at, lemma_le_u32_append, lemma_le_u32_at, le_u16, le_u32, push_u16, push_u32,
    u16_bytes, u32_bytes,
};
use crate::error::ConvertError;
use crate::ext4::InodeNo;

verus! {

pub const EXT4_NAME_MAX_LEN: usize = 255;
pub const ALIGNMENT: usize = 4;
/// The size of the fixed part of a directory entry.
pub const DENTRY_HEADER_LEN: usize = 8;
/// The length of the longest directory entry.
pub const MAX_DENTRY_LEN: usize = 264;

/// `n` rounded up to a multiple of `alignment`.
pub open spec fn spec_aligned_length(n: int, alignment: int) -> int {
    if n % alignment == 0 { n } else { n - n % alignment + alignment }
}

/// `n` rounded up to a multiple of `alignment`.
pub fn aligned_length(n: usize, alignment: usize) -> (r: usize)
    requires
        alignment > 0,
        n + alignment <= usize::MAX,
    ensures
        r == spec_aligned_length(n as int, alignment as int),
        r % alignment == 0,
        n <= r < n + alignment,
{
    proof {
        assert(n % alignment <= n && (n - n % alignment + alignment) % (alignment as int) == 0) by (nonlinear_arith)
            requires
                alignment > 0,
        ;
    }
    if n % alignment == 0 {
        n
    } else {
        n - n % alignment + alignment
    }
}

/// A directory entry: the inode it links and the name under which it does.
pub struct Ext4Dentry {
    pub inner: Ext4DentrySized,
    pub name: Vec<u8>,
}

/// The fixed-size part of a directory entry.
#[derive(Debug, Clone, Copy)]
pub struct Ext4DentrySized {
    pub inode_no: InodeNo,
    /// Always a multiple of 4 to keep entries aligned.
    pub dentry_len: u16,
    pub name_len: u16,
}

impl Ext4Dentry {
    /// The entry linking `inode_no` under `name`; fails with `NameTooLong` if the name has more than 255 bytes,
    /// which a FAT name of 255 UCS-2 characters can have.
    pub fn new(inode_no: InodeNo, name: Vec<u8>) -> (r: Result<Self, ConvertError>)
        ensures
            match r {
                Ok(d) => {
                    &&& name@.len() <= EXT4_NAME_MAX_LEN
                    &&& d.wf()
                    &&& d.name@ == name@
                    &&& d.inner.inode_no == inode_no
                },
                Err(e) => name@.len() > EXT4_NAME_MAX_LEN && e == ConvertError::NameTooLong,
            },
    {
        let n = name.len();
        if n > EXT4_NAME_MAX_LEN {
            return Err(ConvertError::NameTooLong);
        }
        let dentry_len = aligned_length(n + DENTRY_HEADER_LEN, ALIGNMENT) as u16;
        let inner = Ext4DentrySized { inode_no, dentry_len, name_len: n as u16 };
        Ok(Ext4Dentry { inner, name })
    }

    pub open spec fn wf(&self) -> bool {
        &&& self.name@.len() <= EXT4_NAME_MAX_LEN
        &&& self.inner.name_len == self.name@.len()
        &&& self.inner.dentry_len == spec_aligned_length(self.name@.len() + DENTRY_HEADER_LEN, ALIGNMENT as int)
    }

    /// The name padded with zeros to a multiple of 4 bytes.
    pub open spec fn spec_serialized_name(&self) -> Seq<u8> {
        let len = spec_aligned_length(self.name@.len() as int, ALIGNMENT as int);
        Seq::new(len as nat, |i: int| if i < self.name@.len() { self.name@[i] } else { 0u8 })
    }

    /// The name padded with zeros to a multiple of 4 bytes.
    pub fn serialize_name(&self) -> (r: Vec<u8>)
        requires
            self.wf(),
        ensures
            r@ == self.spec_serialized_name(),
    {
        let n = self.name.len();
        let new_len = aligned_length(n, ALIGNMENT);
        let mut bytes: Vec<u8> = Vec::new();
        let mut i: usize = 0;
        while i < new_len
            invariant
                i <= new_len,
                n == self.name@.len(),
                new_len == spec_aligned_length(n as int, ALIGNMENT as int),
                bytes@ =~= Seq::new(i as nat, |j: int| if j < self.name@.len() { self.name@[j] } else { 0u8 }),
            decreases new_len - i,
        {
            if i < n {
                bytes.push(self.name[i]);
            } else {
                bytes.push(0u8);
            }
            i += 1;
        }
        bytes
    }

    pub fn dentry_len(&self) -> (r: u16)
        ensures
            r == self.inner.dentry_len,
    {
        self.inner.dentry_len
    }

    /// The on-disk encoding: the fixed part followed by the padded name.
    pub open spec fn spec_bytes(&self) -> Seq<u8> {
        self.inner.spec_bytes() + self.spec_serialized_name()
    }

    /// The on-disk encoding: the fixed part followed by the padded name.
    pub fn to_bytes(&self) -> (r: Vec<u8>)
        requires
            self.wf(),
        ensures
            r@ == self.spec_bytes(),
            r@.len() == self.inner.dentry_len,
    {
        let mut v: Vec<u8> = Vec::new();
        self.inner.push_bytes(&mut v);
        let name = self.serialize_name();
        let mut i: usize = 0;
        while i < name.len()
            invariant
                i <= name@.len(),
                v@ == self.inner.spec_bytes() + name@.subrange(0, i as int),
            decreases name@.len() - i,
        {
            v.push(name[i]);
            i += 1;
            assert(v@ =~= self.inner.spec_bytes() + name@.subrange(0, i as int));
        }
        assert(name@.subrange(0, name@.len() as int) =~= name@);
        v
    }
}

impl Ext4DentrySized {
    /// Extends the entry by `num` bytes, so that it covers the free space after it.
    pub fn increment_dentry_len(&mut self, num: u16)
        requires
            num % ALIGNMENT as u16 == 0,
            old(self).dentry_len + num <= u16::MAX,
        ensures
            final(self).dentry_len == old(self).dentry_len + num,
            final(self).inode_no == old(self).inode_no,
            final(self).name_len == old(self).name_len,
    {
        self.dentry_len = self.dentry_len + num;
    }

    /// The on-disk encoding of the fixed part.
    pub open spec fn spec_bytes(&self) -> Seq<u8> {
        u32_bytes(self.inode_no) + u16_bytes(self.dentry_len) + u16_bytes(self.name_len)
    }

    /// Appends the on-disk encoding of the fixed part.
    pub fn push_bytes(&self, v: &mut Vec<u8>)
        ensures
            final(v)@ == old(v)@ + self.spec_bytes(),
    {
        push_u32(v, self.inode_no);
        push_u16(v, self.dentry_len);
        push_u16(v, self.name_len);
        assert(v@ =~= old(v)@ + self.spec_bytes());
    }
}

/// A directory entry is written in the ext4 layout: the inode number at offset 0, the entry length at 4, the name
/// length at 6 with a zero file type byte at 7, then the name from offset 8, padded with zeros up to the entry
/// length.
pub proof fn law_dentry_layout(d: Ext4Dentry)
    requires
        d.wf(),
    ensures
        d.spec_bytes().len() == d.inner.dentry_len,
        le_u32(d.spec_bytes(), 0) == d.inner.inode_no,
        le_u16(d.spec_bytes(), 4) == d.inner.dentry_len,
        d.spec_bytes()[6] == d.name@.len(),
        d.spec_bytes()[7] == 0,
        forall|i: int| 0 <= i < d.name@.len() ==> d.spec_bytes()[8 + i] == #[trigger] d.name@[i],
        forall|i: int| 8 + d.name@.len() <= i < d.spec_bytes().len() ==> #[trigger] d.spec_bytes()[i] == 0,
{
    let b = d.spec_bytes();
    let head = d.inner.spec_bytes();
    let n = d.name@.len() as int;
    assert(head.subrange(0, 4) =~= u32_bytes(d.inner.inode_no));
    assert(head.subrange(4, 6) =~= u16_bytes(d.inner.dentry_len));
    lemma_le_u32_at(head, 0, d.inner.inode_no);
    lemma_le_u16_at(head, 4, d.inner.dentry_len);
    lemma_le_u32_append(head, d.spec_serialized_name(), 0);
    lemma_le_u16_append(head, d.spec_serialized_name(), 4);
    assert(b[6] == head[6] && b[7] == head[7]);
    assert(spec_aligned_length(n, 4) + 8 == spec_aligned_length(n + 8, 4)) by (nonlinear_arith)
        requires
            n >= 0,
    ;
}

/// A consistent entry is at most `MAX_DENTRY_LEN` bytes long.
pub proof fn lemma_dentry_len_bound(d: Ext4Dentry)
    requires
        d.wf(),
    ensures
        d.inner.dentry_len <= MAX_DENTRY_LEN,
        d.inner.dentry_len % 4 == 0,
{
}

} // verus!
