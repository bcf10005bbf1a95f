use vstd::prelude::*;
use crate::bytes::{le_u16, le_u32, push_zeros, read_u16, read_u32};
use crate::error::ConvertError;
use crate::fat::table_index::FatTableIndex;
use crate::fat::time::{fat_time_to_unix_time, spec_fat_time_to_unix_time};

verus! {

/// The attribute bit of a directory entry that marks a directory.
pub const ATTR_DIRECTORY: u8 = 0x10;

/// A FAT directory entry.
#[derive(Debug, Clone, Copy)]
pub struct FatDentry {
    pub short_name: [u8; 8],
    pub short_extension: [u8; 3],
    pub attrs: u8,
    pub short_name_case: u8,
    pub create_time_10_ms: u8,
    pub create_time: u16,
    pub create_date: u16,
    pub access_date: u16,
    pub first_cluster_high: u16,
    pub mod_time: u16,
    pub mod_date: u16,
    pub first_cluster_low: u16,
    pub file_size: u32,
}

/// A long file name (LFN) entry, holding up to 13 UCS-2 characters of a file's name.
#[derive(Debug, Clone, Copy)]
pub struct LongFileName {
    pub sequence_no: u8,
    pub name_1: [u16; 5],
    pub attrs: u8,
    pub lfn_type: u8,
    pub checksum: u8,
    pub name_2: [u16; 6],
    pub first_cluster: u16,
    pub name_3: [u16; 2],
}

/// A 32-byte directory slot, which is either a directory entry or a long file name entry; both views of the same
/// bytes are kept.
#[derive(Debug, Clone, Copy)]
pub struct FatPseudoDentry {
    pub dentry: FatDentry,
    pub long_file_name: LongFileName,
}

/// The UTF-8 encoding of one UCS-2 character.
pub open spec fn ucs2_char_utf8(c: u16) -> Seq<u8> {
    if c < 0x80 {
        seq![c as u8]
    } else if c < 0x800 {
        seq![(0xC0 + c / 64) as u8, (0x80 + c % 64) as u8]
    } else {
        seq![(0xE0 + c / 4096) as u8, (0x80 + (c / 64) % 64) as u8, (0x80 + c % 64) as u8]
    }
}

/// The UTF-8 encoding of a UCS-2 string.
pub open spec fn ucs2_utf8(s: Seq<u16>) -> Seq<u8>
    decreases s.len(),
{
    if s.len() == 0 {
        Seq::empty()
    } else {
        ucs2_utf8(s.drop_last()) + ucs2_char_utf8(s.last())
    }
}

proof fn lemma_ucs2_utf8_len(s: Seq<u16>)
    ensures
        ucs2_utf8(s).len() <= 3 * s.len(),
    decreases s.len(),
{
    if s.len() > 0 {
        lemma_ucs2_utf8_len(s.drop_last());
    }
}

#[verifier::external_type_specification]
#[verifier::external_body]
pub struct ExUcs2Error(ucs2::Error);

/// Calls `ucs2::decode`, which writes the UTF-8 encoding of `input` to the start of `output` and returns its
/// length, or fails with `BufferOverflow` if `output` is too short. The contract states that encoding
/// character by character, as the crate's source computes it.
#[verifier::external_body]
fn ucs2_decode(input: &[u16], output: &mut Vec<u8>) -> (r: Result<usize, ucs2::Error>)
    ensures
        final(output)@.len() == old(output)@.len(),
        r is Ok <==> ucs2_utf8(input@).len() <= old(output)@.len(),
        r matches Ok(n) ==> n == ucs2_utf8(input@).len() && final(output)@.subrange(0, n as int) == ucs2_utf8(input@),
{
    ucs2::decode(input, output.as_mut_slice())
}

/// ASCII lowercase of a byte.
pub open spec fn ascii_lower(b: u8) -> u8 {
    if 65 <= b <= 90 { (b + 32) as u8 } else { b }
}

/// `s` without its trailing spaces.
pub open spec fn trim_trailing_spaces(s: Seq<u8>) -> Seq<u8>
    decreases s.len(),
{
    if s.len() > 0 && s.last() == 32u8 {
        trim_trailing_spaces(s.drop_last())
    } else {
        s
    }
}

/// `s` without trailing spaces, lowercased if `lower`.
pub open spec fn name_part(s: Seq<u8>, lower: bool) -> Seq<u8> {
    let t = trim_trailing_spaces(s);
    if lower { t.map_values(|b: u8| ascii_lower(b)) } else { t }
}

/// `s` is `k` bytes followed by blanks that pad it: every byte from `k` on is a blank, and byte `k - 1` is not.
pub open spec fn is_unpadded_len(s: Seq<u8>, k: int) -> bool {
    &&& 0 <= k <= s.len()
    &&& forall|j: int| k <= j < s.len() ==> s[j] == 32u8
    &&& (k == 0 || s[k - 1] != 32u8)
}

/// Byte `out` is the stored byte `stored` of a short name, turned from an ASCII capital into the small letter if
/// `lower`.
pub open spec fn cased(out: u8, stored: u8, lower: bool) -> bool {
    if lower && 65 <= stored <= 90 {
        out == stored + 32
    } else {
        out == stored
    }
}

/// Removing the padding blanks of `s` leaves its first `k` bytes.
pub proof fn lemma_trim_trailing_spaces(s: Seq<u8>, k: int)
    requires
        is_unpadded_len(s, k),
    ensures
        trim_trailing_spaces(s) == s.subrange(0, k),
    decreases s.len(),
{
    if s.len() > 0 && s.last() == 32u8 {
        assert(k < s.len());
        assert(is_unpadded_len(s.drop_last(), k));
        lemma_trim_trailing_spaces(s.drop_last(), k);
        assert(s.drop_last().subrange(0, k) =~= s.subrange(0, k));
    } else {
        assert(k == s.len());
        assert(s.subrange(0, k) =~= s);
    }
}

fn trimmed_len(s: &[u8]) -> (r: usize)
    ensures
        r <= s@.len(),
        s@.subrange(0, r as int) == trim_trailing_spaces(s@),
{
    let mut n = s.len();
    assert(s@.subrange(0, n as int) =~= s@);
    while n > 0 && s[n - 1] == 32u8
        invariant
            n <= s@.len(),
            trim_trailing_spaces(s@) == trim_trailing_spaces(s@.subrange(0, n as int)),
        decreases n,
    {
        assert(s@.subrange(0, n as int).drop_last() =~= s@.subrange(0, n - 1));
        n -= 1;
    }
    n
}

fn push_name_part(out: &mut Vec<u8>, s: &[u8], lower: bool)
    ensures
        final(out)@ == old(out)@ + name_part(s@, lower),
{
    let n = trimmed_len(s);
    let ghost t = trim_trailing_spaces(s@);
    let mut i: usize = 0;
    while i < n
        invariant
            i <= n <= s@.len(),
            t == s@.subrange(0, n as int),
            out@ == old(out)@ + (if lower { t.subrange(0, i as int).map_values(|b: u8| ascii_lower(b)) } else {
                t.subrange(0, i as int)
            }),
        decreases n - i,
    {
        let b = s[i];
        let c = if lower && 65 <= b && b <= 90 { b + 32 } else { b };
        out.push(c);
        i += 1;
        proof {
            if lower {
                assert(out@ =~= old(out)@ + t.subrange(0, i as int).map_values(|b: u8| ascii_lower(b)));
            } else {
                assert(out@ =~= old(out)@ + t.subrange(0, i as int));
            }
        }
    }
    proof {
        assert(t.subrange(0, n as int) =~= t);
    }
}

/// `d` holds the fields of the directory entry stored in `b[off..off + 32]`.
pub open spec fn parsed_dentry(d: FatDentry, b: Seq<u8>, off: int) -> bool {
    &&& d.short_name@ == b.subrange(off, off + 8)
    &&& d.short_extension@ == b.subrange(off + 8, off + 11)
    &&& d.attrs == b[off + 11]
    &&& d.short_name_case == b[off + 12]
    &&& d.create_time_10_ms == b[off + 13]
    &&& d.create_time == le_u16(b, off + 14)
    &&& d.create_date == le_u16(b, off + 16)
    &&& d.access_date == le_u16(b, off + 18)
    &&& d.first_cluster_high == le_u16(b, off + 20)
    &&& d.mod_time == le_u16(b, off + 22)
    &&& d.mod_date == le_u16(b, off + 24)
    &&& d.first_cluster_low == le_u16(b, off + 26)
    &&& d.file_size == le_u32(b, off + 28)
}

/// `l` holds the fields of the long file name entry stored in `b[off..off + 32]`.
pub open spec fn parsed_lfn(l: LongFileName, b: Seq<u8>, off: int) -> bool {
    &&& l.sequence_no == b[off]
    &&& l.attrs == b[off + 11]
    &&& l.lfn_type == b[off + 12]
    &&& l.checksum == b[off + 13]
    &&& l.first_cluster == le_u16(b, off + 26)
    &&& l.name_1@ == Seq::new(5, |i: int| le_u16(b, off + 1 + 2 * i) as u16)
    &&& l.name_2@ == Seq::new(6, |i: int| le_u16(b, off + 14 + 2 * i) as u16)
    &&& l.name_3@ == Seq::new(2, |i: int| le_u16(b, off + 28 + 2 * i) as u16)
}

impl FatDentry {
    /// Parses the directory entry stored in `b[off..off + 32]`.
    pub fn from_bytes(b: &[u8], off: usize) -> (r: Self)
        requires
            off + 32 <= b@.len(),
        ensures
            parsed_dentry(r, b@, off as int),
    {
        let r = FatDentry {
            short_name: [b[off], b[off + 1], b[off + 2], b[off + 3], b[off + 4], b[off + 5], b[off + 6], b[off + 7]],
            short_extension: [b[off + 8], b[off + 9], b[off + 10]],
            attrs: b[off + 11],
            short_name_case: b[off + 12],
            create_time_10_ms: b[off + 13],
            create_time: read_u16(b, off + 14),
            create_date: read_u16(b, off + 16),
            access_date: read_u16(b, off + 18),
            first_cluster_high: read_u16(b, off + 20),
            mod_time: read_u16(b, off + 22),
            mod_date: read_u16(b, off + 24),
            first_cluster_low: read_u16(b, off + 26),
            file_size: read_u32(b, off + 28),
        };
        assert(r.short_name@ =~= b@.subrange(off as int, off + 8));
        assert(r.short_extension@ =~= b@.subrange(off + 8, off + 11));
        r
    }

    pub open spec fn first_fat_index_spec(self) -> FatTableIndex {
        FatTableIndex(self.spec_first_fat_index())
    }

    pub open spec fn spec_first_fat_index(self) -> u32 {
        (self.first_cluster_high * 0x1_0000 + self.first_cluster_low) as u32
    }

    /// The FAT entry of the file's first cluster, joined from its high and low halves.
    pub fn first_fat_index(&self) -> (r: FatTableIndex)
        ensures
            r.0 == self.spec_first_fat_index(),
    {
        FatTableIndex::new(crate::lohi::join_u16_u16(self.first_cluster_low, self.first_cluster_high))
    }

    pub open spec fn spec_is_dir(self) -> bool {
        self.attrs & ATTR_DIRECTORY != 0
    }

    /// True iff the entry describes a directory.
    pub fn is_dir(&self) -> (r: bool)
        ensures
            r == self.spec_is_dir(),
    {
        self.attrs & ATTR_DIRECTORY != 0
    }

    /// True iff the entry was deleted (the directory might contain more valid entries after it).
    pub fn is_invalid(&self) -> (r: bool)
        ensures
            r == (self.short_name@[0] == 0xE5),
    {
        self.short_name[0] == 0xE5
    }

    /// True iff the entry represents either the current directory `.` or the parent directory `..`.
    pub fn is_dot_dir(&self) -> (r: bool)
        ensures
            r == (self.short_name@[0] == 46u8),
    {
        self.short_name[0] == 46u8
    }

    /// True iff the short name has an extension.
    pub fn has_file_extension(&self) -> (r: bool)
        ensures
            r == (self.short_extension@[0] != 32u8),
    {
        self.short_extension[0] != 32u8
    }

    pub fn has_lowercase_name(&self) -> (r: bool)
        ensures
            r == (self.short_name_case & 0x8 != 0),
    {
        self.short_name_case & 0x8 != 0
    }

    pub fn has_lowercase_extension(&self) -> (r: bool)
        ensures
            r == (self.short_name_case & 0x10 != 0),
    {
        self.short_name_case & 0x10 != 0
    }

    /// The 8.3 short name: the name and the extension without their padding, each lowercased if the entry says
    /// so, joined by a dot if there is an extension.
    pub open spec fn spec_short_file_name(self) -> Seq<u8> {
        let name = name_part(self.short_name@, self.short_name_case & 0x8 != 0);
        if self.short_extension@[0] != 32u8 {
            name.push(46u8) + name_part(self.short_extension@, self.short_name_case & 0x10 != 0)
        } else {
            name
        }
    }

    /// The short name of an entry is the 8.3 name it stores: the `k` bytes of the name without the blanks that pad
    /// it, then, if the extension is not blank, a dot and its `ke` bytes without padding. Each part whose case flag
    /// is set (0x08 for the name, 0x10 for the extension, as Windows writes them) has its ASCII capitals turned into
    /// small letters and holds no capital letter; a part whose flag is clear keeps its bytes.
    pub proof fn law_short_file_name(self, k: int, ke: int)
        requires
            is_unpadded_len(self.short_name@, k),
            is_unpadded_len(self.short_extension@, ke),
        ensures
            ({
                let r = self.spec_short_file_name();
                let lower_name = self.short_name_case & 0x8 != 0;
                let lower_extension = self.short_name_case & 0x10 != 0;
                &&& r.len() >= k
                &&& forall|i: int| 0 <= i < k ==> cased(r[i], #[trigger] self.short_name@[i], lower_name)
                &&& lower_name ==> forall|i: int| 0 <= i < k ==> !(65 <= #[trigger] r[i] <= 90)
                &&& self.short_extension@[0] == 32u8 ==> r.len() == k
                &&& self.short_extension@[0] != 32u8 ==> {
                    &&& r.len() == k + 1 + ke
                    &&& r[k] == 46u8
                    &&& forall|j: int|
                        0 <= j < ke ==> cased(r[k + 1 + j], #[trigger] self.short_extension@[j], lower_extension) && (
                        lower_extension ==> !(65 <= r[k + 1 + j] <= 90))
                }
            }),
    {
        lemma_trim_trailing_spaces(self.short_name@, k);
        lemma_trim_trailing_spaces(self.short_extension@, ke);
        let r = self.spec_short_file_name();
        let name = name_part(self.short_name@, self.short_name_case & 0x8 != 0);
        assert(name.len() == k);
        assert forall|i: int| 0 <= i < k implies cased(r[i], #[trigger] self.short_name@[i], self.short_name_case & 0x8 != 0)
            && (self.short_name_case & 0x8 != 0 ==> !(65 <= r[i] <= 90)) by {
            assert(r[i] == name[i]);
        }
        if self.short_extension@[0] != 32u8 {
            let ext = name_part(self.short_extension@, self.short_name_case & 0x10 != 0);
            assert(ext.len() == ke);
            assert forall|j: int| 0 <= j < ke implies cased(
                r[k + 1 + j],
                #[trigger] self.short_extension@[j],
                self.short_name_case & 0x10 != 0,
            ) && (self.short_name_case & 0x10 != 0 ==> !(65 <= r[k + 1 + j] <= 90)) by {
                assert(r[k + 1 + j] == ext[j]);
            }
        }
    }

    /// Reads the 8.3 short name (ASCII).
    pub fn read_short_file_name(&self) -> (r: Vec<u8>)
        ensures
            r@ == self.spec_short_file_name(),
    {
        let mut name: Vec<u8> = Vec::new();
        push_name_part(&mut name, &self.short_name, self.has_lowercase_name());
        if self.has_file_extension() {
            name.push(46u8);
            push_name_part(&mut name, &self.short_extension, self.has_lowercase_extension());
        }
        name
    }

    /// The last access time (the day only) as Unix time.
    pub fn access_time_as_unix(&self) -> (r: Result<u32, ConvertError>)
        ensures
            r is Ok <==> (spec_fat_time_to_unix_time(self.access_date, None) matches Some(t) && 0 <= t <= u32::MAX),
            r matches Ok(t) ==> spec_fat_time_to_unix_time(self.access_date, None) == Some(t as int),
            r matches Err(e) ==> e == ConvertError::InvalidTimestamp,
    {
        match fat_time_to_unix_time(self.access_date, None) {
            Some(t) => Ok(t),
            None => Err(ConvertError::InvalidTimestamp),
        }
    }

    /// The creation time as Unix time.
    pub fn create_time_as_unix(&self) -> (r: Result<u32, ConvertError>)
        ensures
            r is Ok <==> (spec_fat_time_to_unix_time(self.create_date, Some(self.create_time)) matches Some(t) && 0 <= t
                <= u32::MAX),
            r matches Ok(t) ==> spec_fat_time_to_unix_time(self.create_date, Some(self.create_time)) == Some(t as int),
            r matches Err(e) ==> e == ConvertError::InvalidTimestamp,
    {
        match fat_time_to_unix_time(self.create_date, Some(self.create_time)) {
            Some(t) => Ok(t),
            None => Err(ConvertError::InvalidTimestamp),
        }
    }

    /// The last modification time as Unix time.
    pub fn modify_time_as_unix(&self) -> (r: Result<u32, ConvertError>)
        ensures
            r is Ok <==> (spec_fat_time_to_unix_time(self.mod_date, Some(self.mod_time)) matches Some(t) && 0 <= t
                <= u32::MAX),
            r matches Ok(t) ==> spec_fat_time_to_unix_time(self.mod_date, Some(self.mod_time)) == Some(t as int),
            r matches Err(e) ==> e == ConvertError::InvalidTimestamp,
    {
        match fat_time_to_unix_time(self.mod_date, Some(self.mod_time)) {
            Some(t) => Ok(t),
            None => Err(ConvertError::InvalidTimestamp),
        }
    }
}

/// The characters of a long file name entry, in order.
pub open spec fn lfn_chars(lfn: LongFileName) -> Seq<u16> {
    lfn.name_1@ + lfn.name_2@ + lfn.name_3@
}

/// The characters of `s` before the first NUL character.
pub open spec fn take_until_nul(s: Seq<u16>) -> Seq<u16>
    decreases s.len(),
{
    if s.len() == 0 || s[0] == 0 {
        Seq::empty()
    } else {
        seq![s[0]] + take_until_nul(s.subrange(1, s.len() as int))
    }
}

impl LongFileName {
    /// Parses the long file name entry stored in `b[off..off + 32]`.
    pub fn from_bytes(b: &[u8], off: usize) -> (r: Self)
        requires
            off + 32 <= b@.len(),
        ensures
            parsed_lfn(r, b@, off as int),
    {
        let r = LongFileName {
            sequence_no: b[off],
            name_1: [read_u16(b, off + 1), read_u16(b, off + 3), read_u16(b, off + 5), read_u16(b, off + 7), read_u16(b, off + 9)],
            attrs: b[off + 11],
            lfn_type: b[off + 12],
            checksum: b[off + 13],
            name_2: [
                read_u16(b, off + 14),
                read_u16(b, off + 16),
                read_u16(b, off + 18),
                read_u16(b, off + 20),
                read_u16(b, off + 22),
                read_u16(b, off + 24),
            ],
            first_cluster: read_u16(b, off + 26),
            name_3: [read_u16(b, off + 28), read_u16(b, off + 30)],
        };
        assert(r.name_1@ =~= Seq::new(5, |i: int| le_u16(b@, off + 1 + 2 * i) as u16));
        assert(r.name_2@ =~= Seq::new(6, |i: int| le_u16(b@, off + 14 + 2 * i) as u16));
        assert(r.name_3@ =~= Seq::new(2, |i: int| le_u16(b@, off + 28 + 2 * i) as u16));
        r
    }

    /// The position of this entry in the complete name, 1-based. On disk, the last entry appears first.
    pub fn sequence_no(&self) -> (r: u8)
        ensures
            r == self.sequence_no % 32,
    {
        // in a valid LFN entry, bits 0-4 represent the sequence number
        self.sequence_no % 32
    }

    /// The entry's characters up to the first NUL character.
    fn to_ucs2_string(&self) -> (r: Vec<u16>)
        ensures
            r@ == take_until_nul(lfn_chars(*self)),
            r@.len() <= 13,
    {
        let ghost all = lfn_chars(*self);
        let mut chars: Vec<u16> = Vec::new();
        let mut i: usize = 0;
        while i < 13
            invariant
                i <= 13,
                all == lfn_chars(*self),
                all.len() == 13,
                forall|j: int| 0 <= j < i ==> all[j] != 0,
                chars@ == all.subrange(0, i as int),
            decreases 13 - i,
        {
            let c = if i < 5 { self.name_1[i] } else if i < 11 { self.name_2[i - 5] } else { self.name_3[i - 11] };
            assert(c == all[i as int]);
            if c == 0 {
                proof {
                    lemma_take_until_nul_prefix(all, i as int);
                }
                return chars;
            }
            chars.push(c);
            i += 1;
            assert(chars@ =~= all.subrange(0, i as int));
        }
        proof {
            lemma_take_until_nul_prefix(all, 13);
            assert(all.subrange(0, 13) =~= all);
        }
        chars
    }

    /// The entry's characters, up to the first NUL character, encoded as UTF-8.
    pub fn to_utf8_string(&self) -> (r: Vec<u8>)
        ensures
            r@ == ucs2_utf8(take_until_nul(lfn_chars(*self))),
    {
        let chars = self.to_ucs2_string();
        let mut buffer: Vec<u8> = Vec::new();
        push_zeros(&mut buffer, 3 * chars.len());
        proof {
            lemma_ucs2_utf8_len(chars@);
        }
        match ucs2_decode(chars.as_slice(), &mut buffer) {
            Ok(n) => {
                buffer.truncate(n);
                buffer
            },
            Err(_) => {
                proof {
                    assert(false);
                }
                Vec::new()
            },
        }
    }
}

/// If the first `k` characters of `s` are not NUL and `s[k]` is NUL (or `k` is the length), the characters before
/// the first NUL are the first `k`.
proof fn lemma_take_until_nul_prefix(s: Seq<u16>, k: int)
    requires
        0 <= k <= s.len(),
        forall|j: int| 0 <= j < k ==> s[j] != 0,
        k < s.len() ==> s[k] == 0,
    ensures
        take_until_nul(s) == s.subrange(0, k),
    decreases s.len(),
{
    if k == 0 {
        assert(s.subrange(0, 0) =~= Seq::<u16>::empty());
    } else {
        let rest = s.subrange(1, s.len() as int);
        lemma_take_until_nul_prefix(rest, k - 1);
        assert(seq![s[0]] + rest.subrange(0, k - 1) =~= s.subrange(0, k));
    }
}

impl FatPseudoDentry {
    /// Parses the directory slot stored in `b[off..off + 32]`, in both of its views.
    pub fn from_bytes(b: &[u8], off: usize) -> (r: Self)
        requires
            off + 32 <= b@.len(),
        ensures
            parsed_dentry(r.dentry, b@, off as int),
            parsed_lfn(r.long_file_name, b@, off as int),
    {
        FatPseudoDentry { dentry: FatDentry::from_bytes(b, off), long_file_name: LongFileName::from_bytes(b, off) }
    }

    pub open spec fn spec_is_long_file_name(self) -> bool {
        self.long_file_name.attrs % 16 != 0
    }

    pub open spec fn spec_is_invalid(self) -> bool {
        self.long_file_name.sequence_no == 0xE5
    }

    pub open spec fn spec_is_dir_table_end(self) -> bool {
        self.dentry.short_name@[0] == 0
    }

    pub open spec fn spec_should_be_ignored(self) -> bool {
        self.spec_is_invalid() || (!self.spec_is_long_file_name() && self.dentry.short_name@[0] == 46u8)
    }

    pub fn as_dentry(&self) -> (r: Option<FatDentry>)
        ensures
            r == (if self.spec_is_long_file_name() { None } else { Some(self.dentry) }),
    {
        if self.is_long_file_name() {
            None
        } else {
            Some(self.dentry)
        }
    }

    pub fn as_long_file_name(&self) -> (r: Option<LongFileName>)
        ensures
            r == (if self.spec_is_long_file_name() { Some(self.long_file_name) } else { None }),
    {
        if self.is_long_file_name() {
            Some(self.long_file_name)
        } else {
            None
        }
    }

    /// True iff the slot holds a long file name entry (the attribute field, at the same position in both views, has
    /// one of its four lower bits set).
    pub fn is_long_file_name(&self) -> (r: bool)
        ensures
            r == self.spec_is_long_file_name(),
    {
        self.long_file_name.attrs % 16 != 0
    }

    /// True iff the slot was deleted (the first byte marks it in both views).
    pub fn is_invalid(&self) -> (r: bool)
        ensures
            r == self.spec_is_invalid(),
    {
        self.long_file_name.sequence_no == 0xE5
    }

    /// True iff the slot is free and the directory holds no more valid entries.
    pub fn is_dir_table_end(&self) -> (r: bool)
        ensures
            r == self.spec_is_dir_table_end(),
    {
        self.dentry.short_name[0] == 0
    }

    pub fn should_be_ignored(&self) -> (r: bool)
        ensures
            r == self.spec_should_be_ignored(),
    {
        let mut should_be_ignored = self.is_invalid();
        if let Some(dentry) = self.as_dentry() {
            should_be_ignored = should_be_ignored || dentry.is_dot_dir();
        }
        should_be_ignored
    }
}

} // verus!
