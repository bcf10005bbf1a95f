use vstd::prelude::*;

verus! {

/// The little-endian `u16` at byte offset `off` of `s`.
pub open spec fn le_u16(s: Seq<u8>, off: int) -> int {
    s[off] + 256 * s[off + 1]
}

/// The little-endian `u32` at byte offset `off` of `s`.
pub open spec fn le_u32(s: Seq<u8>, off: int) -> int {
    s[off] + 256 * s[off + 1] + 65536 * s[off + 2] + 16777216 * s[off + 3]
}

/// The little-endian encoding of a `u16`.
pub open spec fn u16_bytes(x: u16) -> Seq<u8> {
    seq![(x % 256) as u8, (x / 256) as u8]
}

/// The little-endian encoding of a `u32`.
pub open spec fn u32_bytes(x: u32) -> Seq<u8> {
    seq![(x % 256) as u8, ((x / 256) % 256) as u8, ((x / 65536) % 256) as u8, (x / 16777216) as u8]
}

/// The little-endian encoding of a `u64`.
pub open spec fn u64_bytes(x: u64) -> Seq<u8> {
    u32_bytes((x % 0x1_0000_0000) as u32) + u32_bytes((x / 0x1_0000_0000) as u32)
}

/// The little-endian `u64` at byte offset `off` of `s`.
pub open spec fn le_u64(s: Seq<u8>, off: int) -> int {
    le_u32(s, off) + 0x1_0000_0000 * le_u32(s, off + 4)
}

/// Decoding the little-endian encoding of a `u16` gives it back.
pub proof fn law_u16_roundtrip(x: u16)
    ensures
        le_u16(u16_bytes(x), 0) == x,
{
}

/// Decoding the little-endian encoding of a `u32` gives it back.
pub proof fn law_u32_roundtrip(x: u32)
    ensures
        le_u32(u32_bytes(x), 0) == x,
{
    let b = u32_bytes(x);
    assert(b[0] == x % 256);
    assert(b[1] == (x / 256) % 256);
    assert(b[2] == (x / 65536) % 256);
    assert(b[3] == x / 16777216);
    assert(x == x % 256 + 256 * (x / 256)) by (nonlinear_arith);
    assert(x / 256 == (x / 256) % 256 + 256 * (x / 65536)) by (nonlinear_arith);
    assert(x / 65536 == (x / 65536) % 256 + 256 * (x / 16777216)) by (nonlinear_arith);
}

/// Two bytes that encode `x` decode to `x` wherever they stand.
pub proof fn lemma_le_u16_at(s: Seq<u8>, off: int, x: u16)
    requires
        0 <= off,
        off + 2 <= s.len(),
        s.subrange(off, off + 2) == u16_bytes(x),
    ensures
        le_u16(s, off) == x,
{
    law_u16_roundtrip(x);
    let t = s.subrange(off, off + 2);
    assert(s[off] == t[0] && s[off + 1] == t[1]);
}

/// Four bytes that encode `x` decode to `x` wherever they stand.
pub proof fn lemma_le_u32_at(s: Seq<u8>, off: int, x: u32)
    requires
        0 <= off,
        off + 4 <= s.len(),
        s.subrange(off, off + 4) == u32_bytes(x),
    ensures
        le_u32(s, off) == x,
{
    law_u32_roundtrip(x);
    let t = s.subrange(off, off + 4);
    assert(s[off] == t[0] && s[off + 1] == t[1] && s[off + 2] == t[2] && s[off + 3] == t[3]);
}

/// Appending bytes does not change a `u16` that lies before them.
pub proof fn lemma_le_u16_append(a: Seq<u8>, b: Seq<u8>, off: int)
    requires
        0 <= off,
        off + 2 <= a.len(),
    ensures
        le_u16(a + b, off) == le_u16(a, off),
{
}

/// Appending bytes does not change a `u32` that lies before them.
pub proof fn lemma_le_u32_append(a: Seq<u8>, b: Seq<u8>, off: int)
    requires
        0 <= off,
        off + 4 <= a.len(),
    ensures
        le_u32(a + b, off) == le_u32(a, off),
{
}

/// Prepending bytes moves a `u16` by their number.
pub proof fn lemma_le_u16_prepend(a: Seq<u8>, b: Seq<u8>, off: int)
    requires
        0 <= off,
        off + 2 <= b.len(),
    ensures
        le_u16(a + b, a.len() + off) == le_u16(b, off),
{
}

/// Prepending bytes moves a `u32` by their number.
pub proof fn lemma_le_u32_prepend(a: Seq<u8>, b: Seq<u8>, off: int)
    requires
        0 <= off,
        off + 4 <= b.len(),
    ensures
        le_u32(a + b, a.len() + off) == le_u32(b, off),
{
}

/// Decoding the little-endian encoding of a `u64` gives it back.
pub proof fn law_u64_roundtrip(x: u64)
    ensures
        le_u64(u64_bytes(x), 0) == x,
{
    let lo = (x % 0x1_0000_0000) as u32;
    let hi = (x / 0x1_0000_0000) as u32;
    law_u32_roundtrip(lo);
    law_u32_roundtrip(hi);
    let b = u64_bytes(x);
    assert(b.subrange(0, 4) =~= u32_bytes(lo));
    assert(b.subrange(4, 8) =~= u32_bytes(hi));
    assert(le_u32(b, 0) == le_u32(u32_bytes(lo), 0));
    assert(le_u32(b, 4) == le_u32(u32_bytes(hi), 0));
}

/// Reads the little-endian `u16` at `off`.
pub fn read_u16(b: &[u8], off: usize) -> (r: u16)
    requires
        off + 2 <= b@.len(),
    ensures
        r == le_u16(b@, off as int),
{
    b[off] as u16 + (b[off + 1] as u16) * 256
}

/// Reads the little-endian `u32` at `off`.
pub fn read_u32(b: &[u8], off: usize) -> (r: u32)
    requires
        off + 4 <= b@.len(),
    ensures
        r == le_u32(b@, off as int),
{
    b[off] as u32 + (b[off + 1] as u32) * 256 + (b[off + 2] as u32) * 65536 + (b[off + 3] as u32) * 16777216
}

/// Reads the little-endian `u64` at `off`.
pub fn read_u64(b: &[u8], off: usize) -> (r: u64)
    requires
        off + 8 <= b@.len(),
    ensures
        r == le_u64(b@, off as int),
{
    let _len = b.len();
    read_u32(b, off) as u64 + (read_u32(b, off + 4) as u64) * 0x1_0000_0000
}

/// Appends the little-endian encoding of `x`.
pub fn push_u8(v: &mut Vec<u8>, x: u8)
    ensures
        final(v)@ == old(v)@.push(x),
{
    v.push(x);
}

/// Appends the little-endian encoding of `x`.
pub fn push_u16(v: &mut Vec<u8>, x: u16)
    ensures
        final(v)@ == old(v)@ + u16_bytes(x),
{
    v.push((x % 256) as u8);
    v.push((x / 256) as u8);
    assert(v@ =~= old(v)@ + u16_bytes(x));
}

/// Appends the little-endian encoding of `x`.
pub fn push_u32(v: &mut Vec<u8>, x: u32)
    ensures
        final(v)@ == old(v)@ + u32_bytes(x),
{
    v.push((x % 256) as u8);
    v.push(((x / 256) % 256) as u8);
    v.push(((x / 65536) % 256) as u8);
    v.push((x / 16777216) as u8);
    assert(v@ =~= old(v)@ + u32_bytes(x));
}

/// Appends the little-endian encoding of `x`.
pub fn push_u64(v: &mut Vec<u8>, x: u64)
    ensures
        final(v)@ == old(v)@ + u64_bytes(x),
{
    push_u32(v, (x % 0x1_0000_0000) as u32);
    push_u32(v, (x / 0x1_0000_0000) as u32);
    assert(v@ =~= old(v)@ + u64_bytes(x));
}

/// Appends the bytes of `s`.
pub fn push_bytes(v: &mut Vec<u8>, s: &[u8])
    ensures
        final(v)@ == old(v)@ + s@,
{
    let mut i: usize = 0;
    while i < s.len()
        invariant
            i <= s@.len(),
            v@ == old(v)@ + s@.subrange(0, i as int),
        decreases s@.len() - i,
    {
        v.push(s[i]);
        i += 1;
        assert(v@ =~= old(v)@ + s@.subrange(0, i as int));
    }
    assert(s@.subrange(0, s@.len() as int) =~= s@);
}

/// The little-endian encodings of the values, one after the other.
pub open spec fn u32s_bytes(s: Seq<u32>) -> Seq<u8>
    decreases s.len(),
{
    if s.len() == 0 {
        Seq::empty()
    } else {
        u32s_bytes(s.drop_last()) + u32_bytes(s.last())
    }
}

/// Appends the little-endian encodings of the values.
pub fn push_u32s(v: &mut Vec<u8>, s: &[u32])
    ensures
        final(v)@ == old(v)@ + u32s_bytes(s@),
{
    let mut i: usize = 0;
    while i < s.len()
        invariant
            i <= s@.len(),
            v@ == old(v)@ + u32s_bytes(s@.subrange(0, i as int)),
        decreases s@.len() - i,
    {
        push_u32(v, s[i]);
        proof {
            assert(s@.subrange(0, i + 1).drop_last() =~= s@.subrange(0, i as int));
        }
        i += 1;
        assert(v@ =~= old(v)@ + u32s_bytes(s@.subrange(0, i as int)));
    }
    assert(s@.subrange(0, s@.len() as int) =~= s@);
}

/// Appends `n` zero bytes.
pub fn push_zeros(v: &mut Vec<u8>, n: usize)
    ensures
        final(v)@ == old(v)@ + Seq::new(n as nat, |i: int| 0u8),
{
    let mut i: usize = 0;
    while i < n
        invariant
            i <= n,
            v@ == old(v)@ + Seq::new(i as nat, |j: int| 0u8),
        decreases n - i,
    {
        v.push(0u8);
        i += 1;
        assert(v@ =~= old(v)@ + Seq::new(i as nat, |j: int| 0u8));
    }
}

/// Overwrites `v[off..off + s.len()]` with `s`.
pub fn write_bytes(v: &mut Vec<u8>, off: usize, s: &[u8])
    requires
        off + s@.len() <= old(v)@.len(),
    ensures
        final(v)@ == old(v)@.subrange(0, off as int) + s@ + old(v)@.subrange(off + s@.len(), old(v)@.len() as int),
        final(v)@.len() == old(v)@.len(),
{
    let mut i: usize = 0;
    let n = v.len();
    while i < s.len()
        invariant
            i <= s@.len(),
            n == old(v)@.len(),
            off + s@.len() <= old(v)@.len(),
            v@.len() == old(v)@.len(),
            v@ == old(v)@.subrange(0, off as int) + s@.subrange(0, i as int) + old(v)@.subrange(off + i, old(v)@.len() as int),
        decreases s@.len() - i,
    {
        v.set(off + i, s[i]);
        i += 1;
        assert(v@ =~= old(v)@.subrange(0, off as int) + s@.subrange(0, i as int) + old(v)@.subrange(off + i, old(v)@.len() as int));
    }
    assert(s@.subrange(0, s@.len() as int) =~= s@);
}

/// Copies `v[off..off + len]` into a new vector.
pub fn copy_out(v: &[u8], off: usize, len: usize) -> (r: Vec<u8>)
    requires
        off + len <= v@.len(),
    ensures
        r@ == v@.subrange(off as int, off + len),
{
    let mut r: Vec<u8> = Vec::new();
    let mut i: usize = 0;
    let n = v.len();
    while i < len
        invariant
            i <= len,
            n == v@.len(),
            off + len <= v@.len(),
            r@ == v@.subrange(off as int, off + i),
        decreases len - i,
    {
        r.push(v[off + i]);
        i += 1;
        assert(r@ =~= v@.subrange(off as int, off + i));
    }
    r
}

/// `p` with `data` written at byte offset `off`.
pub open spec fn spliced(p: Seq<u8>, off: int, data: Seq<u8>) -> Seq<u8> {
    p.subrange(0, off) + data + p.subrange(off + data.len(), p.len() as int)
}

/// Overwrites the bytes of `partition` at offset `off` with `data`; fails with `InconsistentFileSystem`, changing
/// nothing, if they do not lie within the partition.
pub fn write_at(partition: &mut Vec<u8>, off: u64, data: &[u8]) -> (r: Result<(), crate::error::ConvertError>)
    ensures
        match r {
            Ok(_) => off + data@.len() <= old(partition)@.len() && final(partition)@ == spliced(
                old(partition)@,
                off as int,
                data@,
            ),
            Err(e) => e == crate::error::ConvertError::InconsistentFileSystem && off + data@.len() > old(
                partition,
            )@.len() && final(partition)@ == old(partition)@,
        },
{
    let len = partition.len();
    let n = data.len();
    if off > len as u64 || (n as u64) > (len as u64) - off {
        return Err(crate::error::ConvertError::InconsistentFileSystem);
    }
    write_bytes(partition, off as usize, data);
    Ok(())
}

/// Overwrites `len` bytes of `partition` at offset `off` with zeros; fails as `write_at` does.
pub fn zero_at(partition: &mut Vec<u8>, off: u64, len: u64) -> (r: Result<(), crate::error::ConvertError>)
    ensures
        match r {
            Ok(_) => off + len <= old(partition)@.len() && final(partition)@ == spliced(
                old(partition)@,
                off as int,
                Seq::new(len as nat, |i: int| 0u8),
            ),
            Err(e) => e == crate::error::ConvertError::InconsistentFileSystem && off + len > old(partition)@.len()
                && final(partition)@ == old(partition)@,
        },
{
    let plen = partition.len();
    if off > plen as u64 || len > (plen as u64) - off {
        return Err(crate::error::ConvertError::InconsistentFileSystem);
    }
    let mut i: u64 = 0;
    let ghost p0 = partition@;
    while i < len
        invariant
            i <= len,
            off + len <= p0.len(),
            p0.len() == plen,
            partition@.len() == p0.len(),
            partition@ == spliced(p0, off as int, Seq::new(i as nat, |j: int| 0u8)),
        decreases len - i,
    {
        partition.set((off + i) as usize, 0u8);
        i += 1;
        assert(partition@ =~= spliced(p0, off as int, Seq::new(i as nat, |j: int| 0u8)));
    }
    Ok(())
}

} // verus!
