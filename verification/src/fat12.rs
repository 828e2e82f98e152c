//! FAT12 filesystem driver over ATA drive 0: boot-sector parsing, a cached
//! file-allocation table, cluster-chain walking, and root-directory create,
//! read, delete and list on 8.3 filenames.

use vstd::prelude::*;

verus! {

use crate::ide::{IdeController, controller_wf, ide_read_sectors, ide_write_sectors, SECTOR_SIZE};
use vstd::string::StringSliceAdditionalSpecFns;

pub const FAT12_EOF: u16 = 0xFF8;

pub const FAT12_BAD_CLUSTER: u16 = 0xFF7;

pub const FAT12_FREE_CLUSTER: u16 = 0x000;

/// Longest possible acyclic cluster chain: a FAT12 volume has fewer than
/// 0xFF5 data clusters, so a longer walk must have revisited one.
pub const MAX_CHAIN_LEN: usize = 4085;

/// Why a FAT12 operation failed.
#[derive(Clone, Copy, PartialEq, Eq, Structural, Debug)]
pub enum Fat12Error {
    /// The boot sector could not be read.
    BootSectorRead,
    /// Bytes 510..512 of the boot sector are not 0x55 0xAA.
    InvalidSignature,
    /// The medium is not a FAT12 filesystem (or its geometry is degenerate).
    NotFat12,
    /// A FAT sector could not be read at mount.
    FatRead,
    /// A FAT sector could not be written back.
    FatWrite,
    /// A root-directory sector could not be read.
    RootRead,
    /// A root-directory sector could not be written.
    RootWrite,
    /// A data cluster could not be read.
    ClusterRead,
    /// A data cluster could not be written.
    ClusterWrite,
    /// The volume has fewer free clusters than the file needs.
    NoFreeClusters,
    /// Creating a file with no bytes is not supported.
    EmptyFile,
    /// The name does not split into exactly a stem and an extension.
    InvalidName,
    /// The stem exceeds 8 bytes or the extension exceeds 3.
    NameTooLong,
    /// A file of this name already exists.
    AlreadyExists,
    /// No file of this name exists.
    NotFound,
    /// The entry is empty, deleted, a long-name piece, or a volume label.
    InvalidEntry,
    /// The cluster chain did not reach an end marker within any acyclic
    /// walk's length.
    CorruptChain,
    /// Every root-directory slot is taken.
    RootFull,
}

/// The description each failure prints.
pub open spec fn spec_message(e: Fat12Error) -> Seq<char> {
    match e {
        Fat12Error::BootSectorRead => "Failed to read boot sector"@,
        Fat12Error::InvalidSignature => "Invalid boot sector signature"@,
        Fat12Error::NotFat12 => "Not a FAT12 filesystem"@,
        Fat12Error::FatRead => "Failed to read FAT"@,
        Fat12Error::FatWrite => "Failed to write FAT"@,
        Fat12Error::RootRead => "Failed to read root directory"@,
        Fat12Error::RootWrite => "Failed to write root directory"@,
        Fat12Error::ClusterRead => "Failed to read cluster"@,
        Fat12Error::ClusterWrite => "Failed to write cluster"@,
        Fat12Error::NoFreeClusters => "No free clusters"@,
        Fat12Error::EmptyFile => "Cannot create empty file"@,
        Fat12Error::InvalidName => "Invalid filename format"@,
        Fat12Error::NameTooLong => "Filename too long"@,
        Fat12Error::AlreadyExists => "File already exists"@,
        Fat12Error::NotFound => "File not found"@,
        Fat12Error::InvalidEntry => "Invalid entry"@,
        Fat12Error::CorruptChain => "FAT chain is corrupt"@,
        Fat12Error::RootFull => "Root directory is full"@,
    }
}

impl Fat12Error {
    /// The human-readable description of this failure.
    pub fn message(&self) -> (r: &'static str)
        ensures
            r@ == spec_message(*self),
    {
        match self {
            Fat12Error::BootSectorRead => "Failed to read boot sector",
            Fat12Error::InvalidSignature => "Invalid boot sector signature",
            Fat12Error::NotFat12 => "Not a FAT12 filesystem",
            Fat12Error::FatRead => "Failed to read FAT",
            Fat12Error::FatWrite => "Failed to write FAT",
            Fat12Error::RootRead => "Failed to read root directory",
            Fat12Error::RootWrite => "Failed to write root directory",
            Fat12Error::ClusterRead => "Failed to read cluster",
            Fat12Error::ClusterWrite => "Failed to write cluster",
            Fat12Error::NoFreeClusters => "No free clusters",
            Fat12Error::EmptyFile => "Cannot create empty file",
            Fat12Error::InvalidName => "Invalid filename format",
            Fat12Error::NameTooLong => "Filename too long",
            Fat12Error::AlreadyExists => "File already exists",
            Fat12Error::NotFound => "File not found",
            Fat12Error::InvalidEntry => "Invalid entry",
            Fat12Error::CorruptChain => "FAT chain is corrupt",
            Fat12Error::RootFull => "Root directory is full",
        }
    }
}

/// A 32-byte root-directory record.
pub struct DirectoryEntry {
    pub name: Vec<u8>,
    pub attributes: u8,
    pub reserved: u8,
    pub creation_time_tenth: u8,
    pub creation_time: u16,
    pub creation_date: u16,
    pub last_access_date: u16,
    pub first_cluster_high: u16,
    pub last_mod_time: u16,
    pub last_mod_date: u16,
    pub first_cluster: u16,
    pub file_size: u32,
}

/// The mathematical image of a directory entry.
pub ghost struct DirEntryV {
    pub name: Seq<u8>,
    pub attributes: u8,
    pub reserved: u8,
    pub creation_time_tenth: u8,
    pub creation_time: u16,
    pub creation_date: u16,
    pub last_access_date: u16,
    pub first_cluster_high: u16,
    pub last_mod_time: u16,
    pub last_mod_date: u16,
    pub first_cluster: u16,
    pub file_size: u32,
}

impl View for DirectoryEntry {
    type V = DirEntryV;

    open spec fn view(&self) -> DirEntryV {
        DirEntryV {
            name: self.name@,
            attributes: self.attributes,
            reserved: self.reserved,
            creation_time_tenth: self.creation_time_tenth,
            creation_time: self.creation_time,
            creation_date: self.creation_date,
            last_access_date: self.last_access_date,
            first_cluster_high: self.first_cluster_high,
            last_mod_time: self.last_mod_time,
            last_mod_date: self.last_mod_date,
            first_cluster: self.first_cluster,
            file_size: self.file_size,
        }
    }
}

pub open spec fn entry_wf(e: DirEntryV) -> bool {
    e.name.len() == 11
}

pub open spec fn spec_is_empty(e: DirEntryV) -> bool {
    e.name[0] == 0u8
}

pub open spec fn spec_is_deleted(e: DirEntryV) -> bool {
    e.name[0] == 0xE5u8
}

pub open spec fn spec_is_lfn(e: DirEntryV) -> bool {
    e.attributes == 0x0Fu8
}

pub open spec fn spec_is_directory(e: DirEntryV) -> bool {
    e.attributes & 0x10u8 != 0
}

pub open spec fn spec_is_volume_id(e: DirEntryV) -> bool {
    e.attributes & 0x08u8 != 0
}

/// Entries the directory scan leaves out (it stops at an empty one).
pub open spec fn spec_is_skipped(e: DirEntryV) -> bool {
    spec_is_deleted(e) || spec_is_lfn(e) || spec_is_volume_id(e)
}

/// ASCII upper-casing of one byte.
pub open spec fn spec_upper(b: u8) -> u8 {
    if 97 <= b <= 122 {
        (b - 32) as u8
    } else {
        b
    }
}

/// Length of the stem of an 11-byte raw name: everything up to the first
/// space in the first eight bytes.
pub open spec fn spec_stem_end(name: Seq<u8>, i: int) -> int
    decreases 8 - i,
{
    if i >= 8 {
        8
    } else if name[i] == 32u8 {
        i
    } else {
        spec_stem_end(name, i + 1)
    }
}

/// The extension characters of an 11-byte raw name: the non-space bytes
/// among the last three.
pub open spec fn spec_ext_seq(name: Seq<u8>, i: int) -> Seq<u8>
    decreases 11 - i,
{
    if i >= 11 {
        Seq::empty()
    } else if name[i] == 32u8 {
        spec_ext_seq(name, i + 1)
    } else {
        seq![name[i]] + spec_ext_seq(name, i + 1)
    }
}

/// The display form of an 11-byte raw name: the stem, then a dot and the
/// extension when one is recorded.
pub open spec fn spec_display_name(name: Seq<u8>) -> Seq<u8> {
    let stem = name.subrange(0, spec_stem_end(name, 0));
    let ext = spec_ext_seq(name, 8);
    if ext.len() == 0 {
        stem
    } else {
        stem + seq![46u8] + ext
    }
}

/// Position of the first dot, or the length when there is none.
pub open spec fn spec_first_dot(s: Seq<u8>, i: int) -> int
    decreases s.len() - i,
{
    if i >= s.len() {
        s.len() as int
    } else if s[i] == 46u8 {
        i
    } else {
        spec_first_dot(s, i + 1)
    }
}

pub open spec fn spec_dot_count(s: Seq<u8>) -> nat
    decreases s.len(),
{
    if s.len() == 0 {
        0
    } else {
        (if s[s.len() - 1] == 46u8 {
            1nat
        } else {
            0nat
        }) + spec_dot_count(s.drop_last())
    }
}

pub open spec fn spec_pad(s: Seq<u8>, width: int) -> Seq<u8> {
    s + Seq::new((width - s.len()) as nat, |i: int| 32u8)
}

pub open spec fn spec_upper_seq(s: Seq<u8>) -> Seq<u8> {
    Seq::new(s.len(), |i: int| spec_upper(s[i]))
}

/// The 11-byte raw form of a filename with exactly one dot, a stem of at
/// most 8 bytes and an extension of at most 3: both parts upper-cased and
/// padded with spaces.
pub open spec fn spec_name83(s: Seq<u8>) -> Option<Seq<u8>> {
    if spec_dot_count(s) != 1 {
        Option::None
    } else {
        let d = spec_first_dot(s, 0);
        let stem = s.subrange(0, d);
        let ext = s.subrange(d + 1, s.len() as int);
        if stem.len() > 8 || ext.len() > 3 {
            Option::None
        } else {
            Option::Some(spec_pad(spec_upper_seq(stem), 8) + spec_pad(spec_upper_seq(ext), 3))
        }
    }
}

/// Which of the two rejections `set_name` answers for a malformed name.
pub open spec fn spec_name_error(s: Seq<u8>) -> Fat12Error {
    if spec_dot_count(s) != 1 {
        Fat12Error::InvalidName
    } else {
        Fat12Error::NameTooLong
    }
}

/// Case-insensitive equality of two byte strings, as the directory scan
/// compares names.
pub open spec fn spec_eq_ignore_case(a: Seq<u8>, b: Seq<u8>) -> bool {
    a.len() == b.len() && forall|i: int| 0 <= i < a.len() ==> spec_upper(a[i]) == spec_upper(b[i])
}

proof fn lemma_first_dot_bounds(s: Seq<u8>, i: int)
    requires
        0 <= i <= s.len(),
    ensures
        i <= spec_first_dot(s, i) <= s.len(),
    decreases s.len() - i,
{
    if i < s.len() && s[i] != 46u8 {
        lemma_first_dot_bounds(s, i + 1);
    }
}

proof fn lemma_stem_end_bounds(name: Seq<u8>, i: int)
    requires
        0 <= i <= 8,
    ensures
        i <= spec_stem_end(name, i) <= 8,
    decreases 8 - i,
{
    if i < 8 && name[i] != 32u8 {
        lemma_stem_end_bounds(name, i + 1);
    }
}

fn upper_byte(b: u8) -> (r: u8)
    ensures
        r == spec_upper(b),
{
    if 97 <= b && b <= 122 {
        b - 32
    } else {
        b
    }
}

/// Relies on String::push: pushing each byte as a char builds the string
/// of exactly those characters.
#[verifier::external_body]
fn bytes_to_string(bytes: &Vec<u8>) -> (r: String)
    ensures
        r@.len() == bytes@.len(),
        forall|i: int| 0 <= i < bytes@.len() ==> r@[i] == bytes@[i] as char,
{
    let mut s = String::new();
    for b in bytes.iter() {
        s.push(*b as char);
    }
    s
}

impl DirectoryEntry {
    pub fn is_empty(&self) -> (r: bool)
        requires
            entry_wf(self@),
        ensures
            r == spec_is_empty(self@),
    {
        self.name[0] == 0x00
    }

    pub fn is_deleted(&self) -> (r: bool)
        requires
            entry_wf(self@),
        ensures
            r == spec_is_deleted(self@),
    {
        self.name[0] == 0xE5
    }

    pub fn is_lfn(&self) -> (r: bool)
        ensures
            r == spec_is_lfn(self@),
    {
        self.attributes == 0x0F
    }

    pub fn is_directory(&self) -> (r: bool)
        ensures
            r == spec_is_directory(self@),
    {
        (self.attributes & 0x10) != 0
    }

    pub fn is_volume_id(&self) -> (r: bool)
        ensures
            r == spec_is_volume_id(self@),
    {
        (self.attributes & 0x08) != 0
    }

    /// The display name of a live entry: stem, dot, extension. An empty,
    /// deleted, long-name or volume-label entry has none.
    pub fn get_name(&self) -> (r: Result<String, Fat12Error>)
        requires
            entry_wf(self@),
        ensures
            match r {
                Result::Ok(s) => {
                    &&& !spec_is_empty(self@) && !spec_is_deleted(self@) && !spec_is_lfn(self@)
                        && !spec_is_volume_id(self@)
                    &&& s@.len() == spec_display_name(self@.name).len()
                    &&& forall|i: int|
                        0 <= i < s@.len() ==> s@[i] == spec_display_name(self@.name)[i] as char
                },
                Result::Err(e) => {
                    &&& e == Fat12Error::InvalidEntry
                    &&& spec_is_empty(self@) || spec_is_deleted(self@) || spec_is_lfn(self@)
                        || spec_is_volume_id(self@)
                },
            },
    {
        if self.is_empty() || self.is_deleted() || self.is_lfn() || self.is_volume_id() {
            return Result::Err(Fat12Error::InvalidEntry);
        }
        Result::Ok(bytes_to_string(&self.display_name_bytes()))
    }

    /// The display form of this entry's raw name, as bytes.
    pub fn display_name_bytes(&self) -> (out: Vec<u8>)
        requires
            entry_wf(self@),
        ensures
            out@ == spec_display_name(self@.name),
    {
        let mut out: Vec<u8> = Vec::new();
        let mut i: usize = 0;
        let ghost stem_end = spec_stem_end(self@.name, 0);
        proof {
            lemma_stem_end_bounds(self@.name, 0);
        }
        while i < 8 && self.name[i] != 32
            invariant
                entry_wf(self@),
                0 <= i <= 8,
                i <= stem_end,
                stem_end == spec_stem_end(self@.name, i as int),
                out@ == self@.name.subrange(0, i as int),
            decreases 8 - i,
        {
            out.push(self.name[i]);
            proof {
                assert(spec_stem_end(self@.name, i as int) == spec_stem_end(self@.name, i + 1));
                lemma_stem_end_bounds(self@.name, i + 1);
                assert(out@ =~= self@.name.subrange(0, i + 1));
            }
            i += 1;
        }
        proof {
            assert(out@ =~= self@.name.subrange(0, stem_end));
        }
        let mut has_ext = false;
        let mut j: usize = 8;
        let ghost stem = self@.name.subrange(0, stem_end);
        let ghost full_ext = spec_ext_seq(self@.name, 8);
        while j < 11
            invariant
                entry_wf(self@),
                8 <= j <= 11,
                has_ext == (spec_ext_seq(self@.name, 8).len() > spec_ext_seq(
                    self@.name,
                    j as int,
                ).len()),
                spec_ext_seq(self@.name, 8) == spec_ext_seq(self@.name, 8).subrange(
                    0,
                    spec_ext_seq(self@.name, 8).len() - spec_ext_seq(self@.name, j as int).len(),
                ) + spec_ext_seq(self@.name, j as int),
                out@ == (if has_ext {
                    stem + seq![46u8] + spec_ext_seq(self@.name, 8).subrange(
                        0,
                        spec_ext_seq(self@.name, 8).len() - spec_ext_seq(
                            self@.name,
                            j as int,
                        ).len(),
                    )
                } else {
                    stem
                }),
            decreases 11 - j,
        {
            if self.name[j] != 32 {
                if !has_ext {
                    out.push(46);
                    has_ext = true;
                }
                out.push(self.name[j]);
            }
            proof {
                let pre = spec_ext_seq(self@.name, 8);
                let cur = spec_ext_seq(self@.name, j as int);
                let nxt = spec_ext_seq(self@.name, j + 1);
                if self@.name[j as int] == 32u8 {
                    assert(cur == nxt);
                } else {
                    assert(cur == seq![self@.name[j as int]] + nxt);
                    assert(pre.subrange(0, pre.len() - nxt.len()) =~= pre.subrange(
                        0,
                        pre.len() - cur.len(),
                    ) + seq![self@.name[j as int]]);
                }
                assert(out@ =~= (if pre.len() > nxt.len() {
                    stem + seq![46u8] + pre.subrange(0, pre.len() - nxt.len())
                } else {
                    stem
                }));
            }
            j += 1;
        }
        proof {
            assert(spec_ext_seq(self@.name, 11) =~= Seq::<u8>::empty());
            if full_ext.len() > 0 {
                assert(full_ext.subrange(0, full_ext.len() as int) =~= full_ext);
            }
            assert(out@ =~= spec_display_name(self@.name));
        }
        out
    }

    /// Normalize `filename` into the 11-byte raw form: exactly one dot,
    /// stem at most 8 bytes, extension at most 3, both upper-cased and
    /// space-padded. A malformed name leaves the entry untouched.
    pub fn set_name(&mut self, filename: &str) -> (r: Result<(), Fat12Error>)
        ensures
            match spec_name83(filename.spec_bytes()) {
                Option::Some(n) => {
                    &&& r is Ok
                    &&& final(self)@ == DirEntryV { name: n, ..old(self)@ }
                },
                Option::None => {
                    &&& r == Result::<(), Fat12Error>::Err(spec_name_error(filename.spec_bytes()))
                    &&& final(self)@ == old(self)@
                },
            },
    {
        let bytes = filename.as_bytes();
        let ghost fb = filename.spec_bytes();
        let n = bytes.len();
        let ghost fd = spec_first_dot(fb, 0);
        proof {
            lemma_first_dot_bounds(fb, 0);
        }
        let mut dots: usize = 0;
        let mut first_dot: usize = n;
        let mut i: usize = 0;
        while i < n
            invariant
                i <= n,
                n == fb.len(),
                bytes@ == fb,
                dots == spec_dot_count(fb.subrange(0, i as int)),
                dots <= i,
                fd == spec_first_dot(fb, 0),
                if fd < i {
                    first_dot == fd
                } else {
                    first_dot == n as int && spec_first_dot(fb, i as int) == fd
                },
                dots > 0 ==> fd < i,
            decreases n - i,
        {
            proof {
                assert(fb.subrange(0, i + 1).drop_last() =~= fb.subrange(0, i as int));
                if fd >= i {
                    lemma_first_dot_bounds(fb, i + 1);
                }
            }
            if bytes[i] == 46 {
                dots += 1;
                if first_dot == n {
                    first_dot = i;
                }
            }
            i += 1;
        }
        proof {
            assert(fb.subrange(0, n as int) =~= fb);
        }
        if dots != 1 {
            return Result::Err(Fat12Error::InvalidName);
        }
        let d = first_dot;
        proof {
            assert(d == fd && d < n);
        }
        let stem_len = d;
        let ext_len = n - d - 1;
        if stem_len > 8 || ext_len > 3 {
            return Result::Err(Fat12Error::NameTooLong);
        }
        let ghost stem = fb.subrange(0, d as int);
        let ghost ext = fb.subrange(d + 1, n as int);
        let mut name: Vec<u8> = Vec::new();
        let mut k: usize = 0;
        while k < 11
            invariant
                k <= 11,
                name@.len() == k,
                forall|j: int| 0 <= j < k ==> name@[j] == 32u8,
            decreases 11 - k,
        {
            name.push(32);
            k += 1;
        }
        let mut a: usize = 0;
        while a < stem_len
            invariant
                a <= stem_len,
                stem_len == d < n == fb.len(),
                stem_len <= 8,
                bytes@ == fb,
                stem == fb.subrange(0, d as int),
                name@.len() == 11,
                forall|j: int| 0 <= j < a ==> name@[j] == spec_upper(stem[j]),
                forall|j: int| a <= j < 11 ==> name@[j] == 32u8,
            decreases stem_len - a,
        {
            let u = upper_byte(bytes[a]);
            name[a] = u;
            a += 1;
        }
        let mut e: usize = 0;
        while e < ext_len
            invariant
                e <= ext_len,
                ext_len == n - d - 1 <= 3,
                d < n == fb.len(),
                stem_len == d <= 8,
                bytes@ == fb,
                ext == fb.subrange(d + 1, n as int),
                name@.len() == 11,
                forall|j: int| 0 <= j < stem_len ==> name@[j] == spec_upper(stem[j]),
                forall|j: int| stem_len <= j < 8 ==> name@[j] == 32u8,
                forall|j: int| 0 <= j < e ==> #[trigger] name@[8 + j] == spec_upper(ext[j]),
                forall|j: int| e <= j < 3 ==> #[trigger] name@[8 + j] == 32u8,
            decreases ext_len - e,
        {
            let u = upper_byte(bytes[d + 1 + e]);
            name[8 + e] = u;
            e += 1;
        }
        proof {
            let expect = spec_pad(spec_upper_seq(stem), 8) + spec_pad(spec_upper_seq(ext), 3);
            assert forall|ii: int| 0 <= ii < 11 implies name@[ii] == expect[ii] by {
                if ii >= 8 {
                    let j = ii - 8;
                    if j < ext_len {
                        assert(name@[8 + j] == spec_upper(ext[j]));
                    } else {
                        assert(name@[8 + j] == 32u8);
                    }
                }
            }
            assert(name@ =~= expect);
        }
        self.name = name;
        Result::Ok(())
    }

    /// A fresh archive-attributed file entry for `name`, pointing at
    /// `first_cluster` and recording `size` bytes.
    pub fn new_file(name: &str, first_cluster: u16, size: u32) -> (r: Result<
        DirectoryEntry,
        Fat12Error,
    >)
        ensures
            match spec_name83(name.spec_bytes()) {
                Option::Some(n) => {
                    &&& r matches Result::Ok(e)
                    &&& e@ == DirEntryV {
                        name: n,
                        attributes: 0x20u8,
                        reserved: 0u8,
                        creation_time_tenth: 0u8,
                        creation_time: 0u16,
                        creation_date: 0u16,
                        last_access_date: 0u16,
                        first_cluster_high: 0u16,
                        last_mod_time: 0u16,
                        last_mod_date: 0u16,
                        first_cluster: first_cluster,
                        file_size: size,
                    }
                },
                Option::None => r == Result::<DirectoryEntry, Fat12Error>::Err(
                    spec_name_error(name.spec_bytes()),
                ),
            },
    {
        let mut entry = DirectoryEntry {
            name: Vec::new(),
            attributes: 0x20,
            reserved: 0,
            creation_time_tenth: 0,
            creation_time: 0,
            creation_date: 0,
            last_access_date: 0,
            first_cluster_high: 0,
            last_mod_time: 0,
            last_mod_date: 0,
            first_cluster,
            file_size: size,
        };
        match entry.set_name(name) {
            Result::Ok(_) => Result::Ok(entry),
            Result::Err(e) => Result::Err(e),
        }
    }
}

/// Byte-wise case-insensitive name comparison.
pub fn names_equal_ci(a: &Vec<u8>, b: &[u8]) -> (r: bool)
    ensures
        r == spec_eq_ignore_case(a@, b@),
{
    if a.len() != b.len() {
        return false;
    }
    let mut i: usize = 0;
    while i < a.len()
        invariant
            i <= a@.len(),
            a@.len() == b@.len(),
            forall|j: int| 0 <= j < i ==> spec_upper(a@[j]) == spec_upper(b@[j]),
        decreases a@.len() - i,
    {
        if upper_byte(a[i]) != upper_byte(b[i]) {
            return false;
        }
        i += 1;
    }
    true
}

/// The directory entry recorded in 32 bytes starting at `off`.
pub open spec fn spec_entry_at(b: Seq<u8>, off: int) -> DirEntryV {
    DirEntryV {
        name: b.subrange(off, off + 11),
        attributes: b[off + 11],
        reserved: b[off + 12],
        creation_time_tenth: b[off + 13],
        creation_time: crate::elf::spec_u16_le(b, off + 14),
        creation_date: crate::elf::spec_u16_le(b, off + 16),
        last_access_date: crate::elf::spec_u16_le(b, off + 18),
        first_cluster_high: crate::elf::spec_u16_le(b, off + 20),
        last_mod_time: crate::elf::spec_u16_le(b, off + 22),
        last_mod_date: crate::elf::spec_u16_le(b, off + 24),
        first_cluster: crate::elf::spec_u16_le(b, off + 26),
        file_size: crate::elf::spec_u32_le(b, off + 28),
    }
}

fn push_u16_le(out: &mut Vec<u8>, v: u16)
    ensures
        final(out)@ == old(out)@ + seq![(v % 256) as u8, (v / 256) as u8],
{
    out.push((v % 256) as u8);
    out.push((v / 256) as u8);
    proof {
        assert(final(out)@ =~= old(out)@ + seq![(v % 256) as u8, (v / 256) as u8]);
    }
}

/// Serialize one directory entry into its on-disk 32 bytes.
#[verifier::rlimit(50)]
pub fn entry_to_bytes(e: &DirectoryEntry) -> (r: Vec<u8>)
    requires
        entry_wf(e@),
    ensures
        r@.len() == 32,
        spec_entry_at(r@, 0) == e@,
{
    let mut out: Vec<u8> = Vec::new();
    let mut i: usize = 0;
    while i < 11
        invariant
            i <= 11,
            entry_wf(e@),
            out@ == e@.name.subrange(0, i as int),
        decreases 11 - i,
    {
        out.push(e.name[i]);
        proof {
            assert(out@ =~= e@.name.subrange(0, i + 1));
        }
        i += 1;
    }
    out.push(e.attributes);
    out.push(e.reserved);
    out.push(e.creation_time_tenth);
    push_u16_le(&mut out, e.creation_time);
    push_u16_le(&mut out, e.creation_date);
    push_u16_le(&mut out, e.last_access_date);
    push_u16_le(&mut out, e.first_cluster_high);
    push_u16_le(&mut out, e.last_mod_time);
    push_u16_le(&mut out, e.last_mod_date);
    push_u16_le(&mut out, e.first_cluster);
    let s = e.file_size;
    out.push((s % 256) as u8);
    out.push((s / 256 % 256) as u8);
    out.push((s / 65536 % 256) as u8);
    out.push((s / 16777216) as u8);
    proof {
        assert(out@.len() == 32);
        assert(spec_entry_at(out@, 0).name =~= e@.name);
        assert(crate::elf::spec_u16_le(out@, 14) == e@.creation_time);
        assert(crate::elf::spec_u16_le(out@, 16) == e@.creation_date);
        assert(crate::elf::spec_u16_le(out@, 18) == e@.last_access_date);
        assert(crate::elf::spec_u16_le(out@, 20) == e@.first_cluster_high);
        assert(crate::elf::spec_u16_le(out@, 22) == e@.last_mod_time);
        assert(crate::elf::spec_u16_le(out@, 24) == e@.last_mod_date);
        assert(crate::elf::spec_u16_le(out@, 26) == e@.first_cluster);
        assert(crate::elf::spec_u32_le(out@, 28) == e@.file_size);
        assert(spec_entry_at(out@, 0) == e@);
    }
    out
}

/// The BIOS Parameter Block of a FAT boot sector, plus the filesystem-type
/// label that mount uses to recognize FAT12 media.
pub struct BiosParameterBlock {
    pub bytes_per_sector: u16,
    pub sectors_per_cluster: u8,
    pub reserved_sectors: u16,
    pub num_fats: u8,
    pub root_entry_count: u16,
    pub total_sectors_16: u16,
    pub media_type: u8,
    pub fat_size_16: u16,
    pub sectors_per_track: u16,
    pub num_heads: u16,
    pub hidden_sectors: u32,
    pub total_sectors_32: u32,
    pub drive_number: u8,
    pub boot_signature: u8,
    pub volume_id: u32,
    pub fs_type: Vec<u8>,
}

pub open spec fn spec_bps(b: Seq<u8>) -> u16 {
    crate::elf::spec_u16_le(b, 11)
}

pub open spec fn spec_spc(b: Seq<u8>) -> u8 {
    b[13]
}

pub open spec fn spec_reserved_sectors(b: Seq<u8>) -> u16 {
    crate::elf::spec_u16_le(b, 14)
}

pub open spec fn spec_num_fats(b: Seq<u8>) -> u8 {
    b[16]
}

pub open spec fn spec_root_entry_count(b: Seq<u8>) -> u16 {
    crate::elf::spec_u16_le(b, 17)
}

pub open spec fn spec_fat_size_16(b: Seq<u8>) -> u16 {
    crate::elf::spec_u16_le(b, 22)
}

/// Field-by-field agreement of a parsed parameter block with the boot
/// sector it came from.
pub open spec fn bpb_matches(p: BiosParameterBlock, b: Seq<u8>) -> bool {
    &&& p.bytes_per_sector == spec_bps(b)
    &&& p.sectors_per_cluster == spec_spc(b)
    &&& p.reserved_sectors == spec_reserved_sectors(b)
    &&& p.num_fats == spec_num_fats(b)
    &&& p.root_entry_count == spec_root_entry_count(b)
    &&& p.total_sectors_16 == crate::elf::spec_u16_le(b, 19)
    &&& p.media_type == b[21]
    &&& p.fat_size_16 == spec_fat_size_16(b)
    &&& p.sectors_per_track == crate::elf::spec_u16_le(b, 24)
    &&& p.num_heads == crate::elf::spec_u16_le(b, 26)
    &&& p.hidden_sectors == crate::elf::spec_u32_le(b, 28)
    &&& p.total_sectors_32 == crate::elf::spec_u32_le(b, 32)
    &&& p.drive_number == b[36]
    &&& p.boot_signature == b[38]
    &&& p.volume_id == crate::elf::spec_u32_le(b, 39)
    &&& p.fs_type@ == b.subrange(54, 62)
}

/// Parse the BIOS Parameter Block out of a boot sector.
pub fn parse_bpb(sector: &Vec<u8>) -> (p: BiosParameterBlock)
    requires
        sector.len() >= 512,
    ensures
        bpb_matches(p, sector@),
{
    let s = sector.as_slice();
    let mut fs_type: Vec<u8> = Vec::new();
    let mut i: usize = 0;
    while i < 8
        invariant
            i <= 8,
            sector@.len() >= 512,
            fs_type@ == sector@.subrange(54, 54 + i),
        decreases 8 - i,
    {
        fs_type.push(sector[54 + i]);
        proof {
            assert(fs_type@ =~= sector@.subrange(54, 54 + i + 1));
        }
        i += 1;
    }
    BiosParameterBlock {
        bytes_per_sector: crate::elf::read_u16_le(s, 11),
        sectors_per_cluster: sector[13],
        reserved_sectors: crate::elf::read_u16_le(s, 14),
        num_fats: sector[16],
        root_entry_count: crate::elf::read_u16_le(s, 17),
        total_sectors_16: crate::elf::read_u16_le(s, 19),
        media_type: sector[21],
        fat_size_16: crate::elf::read_u16_le(s, 22),
        sectors_per_track: crate::elf::read_u16_le(s, 24),
        num_heads: crate::elf::read_u16_le(s, 26),
        hidden_sectors: crate::elf::read_u32_le(s, 28),
        total_sectors_32: crate::elf::read_u32_le(s, 32),
        drive_number: sector[36],
        boot_signature: sector[38],
        volume_id: crate::elf::read_u32_le(s, 39),
        fs_type,
    }
}

/// A mounted FAT12 volume: the parsed parameter block, the precomputed
/// sector offsets, and the in-memory mirror of the first FAT, which is the
/// source of truth between mount and flush.
pub struct Fat12 {
    pub drive: usize,
    pub bpb: BiosParameterBlock,
    pub fat_start_sector: u64,
    pub root_dir_start_sector: u64,
    pub data_start_sector: u64,
    pub root_dir_sectors: u32,
    pub fat_cache: Vec<u8>,
}

/// Internal consistency of a mounted volume: the layout arithmetic of the
/// on-disk format, and a FAT mirror of exactly the recorded size.
pub open spec fn fs_wf(fs: Fat12) -> bool {
    &&& fs.drive < 4
    &&& fs.bpb.bytes_per_sector > 0
    &&& fs.bpb.sectors_per_cluster > 0
    &&& fs.fat_start_sector == fs.bpb.reserved_sectors
    &&& fs.root_dir_sectors == (fs.bpb.root_entry_count * 32 + fs.bpb.bytes_per_sector - 1) as int
        / fs.bpb.bytes_per_sector as int
    &&& fs.root_dir_start_sector == fs.fat_start_sector + fs.bpb.num_fats * fs.bpb.fat_size_16
    &&& fs.data_start_sector == fs.root_dir_start_sector + fs.root_dir_sectors
    &&& fs.fat_cache@.len() == fs.bpb.fat_size_16 * SECTOR_SIZE
}

/// The drive this volume was mounted from is attached and large enough for
/// the reserved area, every FAT copy and the root directory.
pub open spec fn fat12_device_ok(fs: Fat12, ctrl: IdeController) -> bool {
    &&& controller_wf(ctrl)
    &&& fs.drive < 4
    &&& ctrl.devices@[fs.drive as int].info.reserved != 0
    &&& fs.data_start_sector <= ctrl.devices@[fs.drive as int].info.size
    &&& ctrl.devices@[fs.drive as int].info.size * SECTOR_SIZE <= 0x1000_0000_0000
}

/// Byte offset of cluster `c`'s 12-bit entry inside the FAT.
pub open spec fn spec_fat_off(c: int) -> int {
    3 * c / 2
}

/// The FAT holds an entry for cluster `c`.
pub open spec fn fat_has_cluster(fat: Seq<u8>, c: u16) -> bool {
    spec_fat_off(c as int) + 1 < fat.len()
}

/// The 12-bit FAT entry of cluster `c`: two entries share three bytes, the
/// even one in the low twelve bits, the odd one in the high twelve.
pub open spec fn spec_fat_entry(fat: Seq<u8>, c: u16) -> u16 {
    let off = spec_fat_off(c as int);
    if c % 2 == 0 {
        (fat[off] as u16) | (((fat[off + 1] as u16) & 0x0F) << 8)
    } else {
        ((fat[off] as u16) >> 4) | ((fat[off + 1] as u16) << 4)
    }
}

impl Fat12 {
    /// Look up cluster `c`'s entry in the FAT mirror.
    pub fn get_fat_entry(&self, cluster: u16) -> (r: u16)
        requires
            fat_has_cluster(self.fat_cache@, cluster),
        ensures
            r == spec_fat_entry(self.fat_cache@, cluster),
            r < 0x1000,
    {
        let off = cluster as usize * 3 / 2;
        let lo = self.fat_cache[off] as u16;
        let hi = self.fat_cache[off + 1] as u16;
        if cluster % 2 == 0 {
            proof {
                assert((lo | ((hi & 0x0F) << 8)) < 0x1000) by (bit_vector)
                    requires
                        lo < 256,
                ;
            }
            lo | ((hi & 0x0F) << 8)
        } else {
            proof {
                assert(((lo >> 4) | (hi << 4)) < 0x1000) by (bit_vector)
                    requires
                        lo < 256 && hi < 256,
                ;
            }
            (lo >> 4) | (hi << 4)
        }
    }

    /// Record `value` (truncated to 12 bits) as cluster `cluster`'s entry
    /// in the FAT mirror; every other cluster's entry is untouched.
    pub fn set_fat_entry(&mut self, cluster: u16, value: u16)
        requires
            fat_has_cluster(old(self).fat_cache@, cluster),
        ensures
            final(self).fat_cache@.len() == old(self).fat_cache@.len(),
            spec_fat_entry(final(self).fat_cache@, cluster) == value & 0xFFF,
            forall|c2: u16|
                fat_has_cluster(old(self).fat_cache@, c2) && c2 != cluster
                    ==> spec_fat_entry(final(self).fat_cache@, c2) == spec_fat_entry(
                    old(self).fat_cache@,
                    c2,
                ),
            final(self).drive == old(self).drive,
            final(self).bpb == old(self).bpb,
            final(self).fat_start_sector == old(self).fat_start_sector,
            final(self).root_dir_start_sector == old(self).root_dir_start_sector,
            final(self).data_start_sector == old(self).data_start_sector,
            final(self).root_dir_sectors == old(self).root_dir_sectors,
    {
        let ghost old_fat = self.fat_cache@;
        let off = cluster as usize * 3 / 2;
        if cluster % 2 == 0 {
            let old1: u8 = self.fat_cache[off + 1];
            let b0: u8 = (value & 0xFF) as u8;
            let b1: u8 = (old1 & 0xF0) | (((value >> 8) & 0x0F) as u8);
            self.fat_cache[off] = b0;
            self.fat_cache[off + 1] = b1;
            proof {
                assert(((b0 as u16) | (((b1 as u16) & 0x0F) << 8)) == (value & 0xFFF))
                    by (bit_vector)
                    requires
                        b0 == (value & 0xFF) as u8,
                        b1 == (old1 & 0xF0) | (((value >> 8) & 0x0F) as u8),
                ;
                assert(b1 & 0xF0 == old1 & 0xF0) by (bit_vector)
                    requires
                        b1 == (old1 & 0xF0) | (((value >> 8) & 0x0F) as u8),
                ;
            }
        } else {
            let old0: u8 = self.fat_cache[off];
            let b0: u8 = (old0 & 0x0F) | ((((value & 0x0F) as u8) << 4));
            let b1: u8 = ((value >> 4) & 0xFF) as u8;
            self.fat_cache[off] = b0;
            self.fat_cache[off + 1] = b1;
            proof {
                assert((((b0 as u16) >> 4) | ((b1 as u16) << 4)) == (value & 0xFFF))
                    by (bit_vector)
                    requires
                        b0 == (old0 & 0x0F) | ((((value & 0x0F) as u8) << 4)),
                        b1 == ((value >> 4) & 0xFF) as u8,
                ;
                assert(b0 & 0x0F == old0 & 0x0F) by (bit_vector)
                    requires
                        b0 == (old0 & 0x0F) | ((((value & 0x0F) as u8) << 4)),
                ;
            }
        }
        proof {
            let fat = self.fat_cache@;
            assert forall|c2: u16|
                fat_has_cluster(old_fat, c2) && c2 != cluster implies spec_fat_entry(fat, c2)
                == spec_fat_entry(old_fat, c2) by {
                lemma_fat_entry_untouched(old_fat, fat, cluster, c2);
            }
        }
    }
}

/// Writing the two bytes of one cluster's entry, preserving the shared
/// nibble, leaves every other cluster's entry as it was.
#[verifier::rlimit(40)]
proof fn lemma_fat_entry_untouched(old_fat: Seq<u8>, fat: Seq<u8>, c: u16, c2: u16)
    requires
        old_fat.len() == fat.len(),
        fat_has_cluster(old_fat, c),
        fat_has_cluster(old_fat, c2),
        c2 != c,
        forall|k: int|
            0 <= k < fat.len() && k != spec_fat_off(c as int) && k != spec_fat_off(c as int) + 1
                ==> fat[k] == old_fat[k],
        c % 2 == 0 ==> fat[spec_fat_off(c as int) + 1] as u8 & 0xF0 == old_fat[spec_fat_off(
            c as int,
        ) + 1] as u8 & 0xF0,
        c % 2 != 0 ==> fat[spec_fat_off(c as int)] as u8 & 0x0F == old_fat[spec_fat_off(c as int)]
            as u8 & 0x0F,
    ensures
        spec_fat_entry(fat, c2) == spec_fat_entry(old_fat, c2),
{
    let ci = c as int;
    let di = c2 as int;
    let off = spec_fat_off(ci);
    let off2 = spec_fat_off(di);
    if di <= ci - 2 {
        assert(3 * di <= 3 * ci - 6);
        assert(off2 + 1 < off);
    } else if di >= ci + 2 {
        assert(3 * di >= 3 * ci + 6);
        assert(off2 > off + 1);
    } else if di == ci + 1 {
        if c % 2 == 0 {
            assert(off2 == off + 1);
            let a0 = old_fat[off + 1];
            let n0 = fat[off + 1];
            assert(n0 & 0xF0 == a0 & 0xF0 ==> n0 >> 4 == a0 >> 4) by (bit_vector);
        } else {
            assert(off2 == off + 2);
        }
    } else {
        assert(di == ci - 1);
        if c % 2 == 0 {
            assert(off2 == off - 2);
        } else {
            assert(off2 == off - 1);
            let a0 = old_fat[off];
            let n0 = fat[off];
            assert(n0 & 0x0F == a0 & 0x0F ==> (n0 as u16) & 0x0F == (a0 as u16) & 0x0F)
                by (bit_vector);
        }
    }
}

/// Clusters that can carry file data: 0 and 1 are reserved, 0xFF7 is the
/// bad-cluster mark, and everything above is an end-of-chain mark.
pub open spec fn cluster_is_data(c: u16) -> bool {
    2 <= c && c < FAT12_BAD_CLUSTER
}

/// The clusters a file walk visits from `c`: `c` itself when it is a data
/// cluster the FAT covers, then the walk from its entry unless that entry
/// is an end-of-chain mark.
pub open spec fn spec_chain(fat: Seq<u8>, c: u16, fuel: nat) -> Seq<u16>
    decreases fuel,
{
    if fuel == 0 || !cluster_is_data(c) || !fat_has_cluster(fat, c) {
        Seq::empty()
    } else {
        let next = spec_fat_entry(fat, c);
        if next >= FAT12_EOF {
            seq![c]
        } else {
            seq![c] + spec_chain(fat, next, (fuel - 1) as nat)
        }
    }
}

/// The walk from `c` reaches an end within `fuel` steps.
pub open spec fn spec_chain_ends(fat: Seq<u8>, c: u16, fuel: nat) -> bool
    decreases fuel,
{
    if !cluster_is_data(c) || !fat_has_cluster(fat, c) {
        true
    } else if fuel == 0 {
        false
    } else {
        let next = spec_fat_entry(fat, c);
        next >= FAT12_EOF || spec_chain_ends(fat, next, (fuel - 1) as nat)
    }
}

/// First sector of cluster `c`'s data.
pub open spec fn spec_cluster_sector(fs: Fat12, c: u16) -> int {
    fs.data_start_sector + (c - 2) * fs.bpb.sectors_per_cluster
}

/// Bytes of one cluster, 512 per sector.
pub open spec fn spec_cluster_bytes(fs: Fat12) -> int {
    fs.bpb.sectors_per_cluster * SECTOR_SIZE
}

/// The whole of cluster `c` lies on the mounted drive.
pub open spec fn spec_cluster_in_range(fs: Fat12, ctrl: IdeController, c: u16) -> bool {
    spec_cluster_sector(fs, c) + fs.bpb.sectors_per_cluster <= ctrl.devices@[
        fs.drive as int
    ].info.size
}

/// The data bytes of cluster `c` on the drive.
pub open spec fn spec_cluster_data(fs: Fat12, contents: Seq<u8>, c: u16) -> Seq<u8> {
    contents.subrange(
        spec_cluster_sector(fs, c) * SECTOR_SIZE,
        spec_cluster_sector(fs, c) * SECTOR_SIZE + spec_cluster_bytes(fs),
    )
}

/// A vector of `n` zero bytes.
fn zero_vec(n: usize) -> (r: Vec<u8>)
    ensures
        r@.len() == n,
        forall|i: int| 0 <= i < n ==> r@[i] == 0u8,
{
    let mut r: Vec<u8> = Vec::new();
    let mut i: usize = 0;
    while i < n
        invariant
            i <= n,
            r@.len() == i,
            forall|j: int| 0 <= j < i ==> r@[j] == 0u8,
        decreases n - i,
    {
        r.push(0);
        i += 1;
    }
    r
}

/// The boot sector declares FAT12: either by its filesystem-type label or,
/// for unlabelled images, by a 512-byte sector and a non-zero cluster size.
pub open spec fn spec_is_fat12(b: Seq<u8>) -> bool {
    (b[54] == 70u8 && b[55] == 65u8 && b[56] == 84u8 && b[57] == 49u8 && b[58] == 50u8) || (
    spec_bps(b) == 512 && spec_spc(b) > 0)
}

pub open spec fn spec_sig_ok(b: Seq<u8>) -> bool {
    b[510] == 0x55u8 && b[511] == 0xAAu8
}

/// Geometry a mount can work with: no zero divisors.
pub open spec fn spec_geometry_ok(b: Seq<u8>) -> bool {
    spec_bps(b) > 0 && spec_spc(b) > 0
}

/// The boot sector of the drive's model.
pub open spec fn spec_boot_sector(ctrl: IdeController, drive: int) -> Seq<u8> {
    ctrl.devices@[drive].contents@.subrange(0, 512)
}

/// Whether a whole-drive read of `total` sectors at `lba` succeeds.
pub open spec fn spec_region_ok(ctrl: IdeController, drive: int, lba: int, total: int) -> bool {
    &&& ctrl.devices@[drive].info.reserved != 0
    &&& lba + total <= ctrl.devices@[drive].info.size
    &&& lba + total <= 0x10000000 || spec_drive_lba48(ctrl.devices@[drive].info)
}

use crate::ide::spec_drive_lba48;

/// Mount the FAT12 volume on `drive`: read and validate the boot sector,
/// compute the layout, and mirror the first FAT in memory.
pub fn fat12_init(ctrl: &IdeController, drive: usize) -> (r: Result<Fat12, Fat12Error>)
    requires
        controller_wf(*ctrl),
        drive < 4,
    ensures
        match r {
            Result::Ok(fs) => {
                let boot = spec_boot_sector(*ctrl, drive as int);
                &&& spec_region_ok(*ctrl, drive as int, 0, 1)
                &&& spec_sig_ok(boot)
                &&& spec_is_fat12(boot)
                &&& spec_geometry_ok(boot)
                &&& fs_wf(fs)
                &&& fs.drive == drive
                &&& bpb_matches(fs.bpb, boot)
                &&& crate::ide::spec_transfer_status(
                    ctrl.devices@[drive as int],
                    fs.fat_start_sector,
                    fs.bpb.fat_size_16 as nat,
                ) == 0
                &&& fs.bpb.fat_size_16 > 0 ==> fs.fat_cache@ == ctrl.devices@[
                    drive as int
                ].contents@.subrange(
                    fs.fat_start_sector * SECTOR_SIZE,
                    fs.fat_start_sector * SECTOR_SIZE + fs.bpb.fat_size_16 * SECTOR_SIZE,
                )
            },
            Result::Err(e) => {
                let boot = spec_boot_sector(*ctrl, drive as int);
                ||| e == Fat12Error::BootSectorRead && !spec_region_ok(*ctrl, drive as int, 0, 1)
                ||| e == Fat12Error::InvalidSignature && spec_region_ok(*ctrl, drive as int, 0, 1)
                    && !spec_sig_ok(boot)
                ||| e == Fat12Error::NotFat12 && spec_region_ok(*ctrl, drive as int, 0, 1)
                    && spec_sig_ok(boot) && !(spec_is_fat12(boot) && spec_geometry_ok(boot))
                ||| e == Fat12Error::FatRead && spec_region_ok(*ctrl, drive as int, 0, 1)
                    && spec_sig_ok(boot) && spec_is_fat12(boot) && spec_geometry_ok(boot)
                    && crate::ide::spec_transfer_status(
                    ctrl.devices@[drive as int],
                    spec_reserved_sectors(boot) as u64,
                    spec_fat_size_16(boot) as nat,
                ) != 0
            },
        },
{
    let mut boot = zero_vec(512);
    let err = ide_read_sectors(ctrl, drive, 0, &mut boot);
    if err != 0 {
        return Result::Err(Fat12Error::BootSectorRead);
    }
    proof {
        assert(boot@ =~= spec_boot_sector(*ctrl, drive as int));
    }
    if boot[510] != 0x55 || boot[511] != 0xAA {
        return Result::Err(Fat12Error::InvalidSignature);
    }
    let bpb = parse_bpb(&boot);
    let labelled = bpb.fs_type[0] == 70 && bpb.fs_type[1] == 65 && bpb.fs_type[2] == 84
        && bpb.fs_type[3] == 49 && bpb.fs_type[4] == 50;
    let is_fat12 = labelled || (bpb.bytes_per_sector == 512 && bpb.sectors_per_cluster > 0);
    if !is_fat12 || bpb.bytes_per_sector == 0 || bpb.sectors_per_cluster == 0 {
        return Result::Err(Fat12Error::NotFat12);
    }
    let fat_start_sector: u64 = bpb.reserved_sectors as u64;
    let root_dir_sectors: u32 = (bpb.root_entry_count as u32 * 32 + (bpb.bytes_per_sector as u32
        - 1)) / bpb.bytes_per_sector as u32;
    proof {
        assert(bpb.num_fats as u64 * bpb.fat_size_16 as u64 <= 255 * 65535) by (nonlinear_arith)
            requires
                bpb.num_fats <= 255 && bpb.fat_size_16 <= 65535,
        ;
    }
    let root_dir_start_sector: u64 = fat_start_sector + (bpb.num_fats as u64
        * bpb.fat_size_16 as u64);
    let data_start_sector: u64 = root_dir_start_sector + root_dir_sectors as u64;
    let fat_size_bytes: usize = bpb.fat_size_16 as usize * SECTOR_SIZE;
    let mut fat_cache = zero_vec(fat_size_bytes);
    let err = ide_read_sectors(ctrl, drive, fat_start_sector, &mut fat_cache);
    if err != 0 {
        return Result::Err(Fat12Error::FatRead);
    }
    let fs = Fat12 {
        drive,
        bpb,
        fat_start_sector,
        root_dir_start_sector,
        data_start_sector,
        root_dir_sectors,
        fat_cache,
    };
    proof {
        let fsz = fs.bpb.fat_size_16 as int;
        let lba = fs.fat_start_sector as int;
        let size = ctrl.devices@[drive as int].info.size as int;
        assert((fsz * 512) / 512 == fsz) by (nonlinear_arith);
        if fsz > 0 {
            assert(lba + fsz <= size);
            assert(lba * 512 + fsz * 512 <= size * 512) by (nonlinear_arith)
                requires
                    lba + fsz <= size,
            ;
            assert(fs.fat_cache@ =~= ctrl.devices@[drive as int].contents@.subrange(
                fs.fat_start_sector * SECTOR_SIZE,
                fs.fat_start_sector * SECTOR_SIZE + fs.bpb.fat_size_16 * SECTOR_SIZE,
            ));
        }
    }
    Result::Ok(fs)
}

/// A free data cluster the allocation scan can hand out.
pub open spec fn spec_is_free(fat: Seq<u8>, c: u16) -> bool {
    2 <= c && c < 0xFF0 && fat_has_cluster(fat, c) && spec_fat_entry(fat, c)
        == FAT12_FREE_CLUSTER
}

impl Fat12 {
    /// The lowest-numbered free cluster, scanning from 2 as allocation
    /// always does.
    pub fn find_free_cluster(&self) -> (r: Option<u16>)
        ensures
            match r {
                Option::Some(c) => spec_is_free(self.fat_cache@, c) && forall|c2: u16|
                    2 <= c2 < c ==> !spec_is_free(self.fat_cache@, c2),
                Option::None => forall|c2: u16| !spec_is_free(self.fat_cache@, c2),
            },
    {
        let mut cluster: u16 = 2;
        let fat_len = self.fat_cache.len();
        while cluster < 0xFF0
            invariant
                2 <= cluster <= 0xFF0,
                fat_len == self.fat_cache@.len(),
                forall|c2: u16| 2 <= c2 < cluster ==> !spec_is_free(self.fat_cache@, c2),
            decreases 0xFF0 - cluster,
        {
            if cluster as usize * 3 / 2 + 1 >= fat_len {
                proof {
                    assert forall|c2: u16| cluster <= c2 implies !spec_is_free(
                        self.fat_cache@,
                        c2,
                    ) by {
                        assert(spec_fat_off(cluster as int) <= spec_fat_off(c2 as int));
                    }
                }
                return Option::None;
            }
            if self.get_fat_entry(cluster) == FAT12_FREE_CLUSTER {
                return Option::Some(cluster);
            }
            cluster += 1;
        }
        Option::None
    }

    /// Claim the lowest free cluster: mark it end-of-chain so a later scan
    /// cannot hand it out again.
    pub fn allocate_cluster(&mut self) -> (r: Result<u16, Fat12Error>)
        ensures
            final(self).drive == old(self).drive,
            final(self).bpb == old(self).bpb,
            final(self).fat_start_sector == old(self).fat_start_sector,
            final(self).root_dir_start_sector == old(self).root_dir_start_sector,
            final(self).data_start_sector == old(self).data_start_sector,
            final(self).root_dir_sectors == old(self).root_dir_sectors,
            final(self).fat_cache@.len() == old(self).fat_cache@.len(),
            match r {
                Result::Ok(c) => {
                    &&& spec_is_free(old(self).fat_cache@, c)
                    &&& forall|c2: u16| 2 <= c2 < c ==> !spec_is_free(old(self).fat_cache@, c2)
                    &&& spec_fat_entry(final(self).fat_cache@, c) == FAT12_EOF
                    &&& forall|c2: u16|
                        fat_has_cluster(old(self).fat_cache@, c2) && c2 != c ==> spec_fat_entry(
                            final(self).fat_cache@,
                            c2,
                        ) == spec_fat_entry(old(self).fat_cache@, c2)
                },
                Result::Err(e) => {
                    &&& e == Fat12Error::NoFreeClusters
                    &&& forall|c2: u16| !spec_is_free(old(self).fat_cache@, c2)
                    &&& final(self).fat_cache@ == old(self).fat_cache@
                },
            },
    {
        let c = match self.find_free_cluster() {
            Option::Some(c) => c,
            Option::None => {
                return Result::Err(Fat12Error::NoFreeClusters);
            },
        };
        self.set_fat_entry(c, FAT12_EOF);
        proof {
            assert(FAT12_EOF & 0xFFF == FAT12_EOF) by (bit_vector);
        }
        Result::Ok(c)
    }

    /// First sector of cluster `cluster`'s data.
    pub fn cluster_to_sector(&self, cluster: u16) -> (r: u64)
        requires
            cluster_is_data(cluster),
            fs_wf(*self),
            self.data_start_sector <= 0x2000_0000_0000,
        ensures
            r == spec_cluster_sector(*self, cluster),
    {
        proof {
            assert((cluster as u64 - 2) * self.bpb.sectors_per_cluster as u64 <= 4095 * 255)
                by (nonlinear_arith)
                requires
                    2 <= cluster < 0xFF7 && self.bpb.sectors_per_cluster <= 255,
            ;
        }
        self.data_start_sector + (cluster as u64 - 2) * self.bpb.sectors_per_cluster as u64
    }
}

impl Fat12 {
    /// Read the data of one cluster from the drive.
    pub fn read_cluster(&self, ctrl: &IdeController, cluster: u16) -> (r: Result<
        Vec<u8>,
        Fat12Error,
    >)
        requires
            fs_wf(*self),
            fat12_device_ok(*self, *ctrl),
            cluster_is_data(cluster),
        ensures
            match r {
                Result::Ok(data) => {
                    &&& crate::ide::spec_transfer_status(
                        ctrl.devices@[self.drive as int],
                        spec_cluster_sector(*self, cluster) as u64,
                        self.bpb.sectors_per_cluster as nat,
                    ) == 0
                    &&& data@ == spec_cluster_data(
                        *self,
                        ctrl.devices@[self.drive as int].contents@,
                        cluster,
                    )
                    &&& data@.len() == spec_cluster_bytes(*self)
                },
                Result::Err(e) => {
                    &&& e == Fat12Error::ClusterRead
                    &&& crate::ide::spec_transfer_status(
                        ctrl.devices@[self.drive as int],
                        spec_cluster_sector(*self, cluster) as u64,
                        self.bpb.sectors_per_cluster as nat,
                    ) != 0
                },
            },
    {
        let sector = self.cluster_to_sector(cluster);
        let cluster_size: usize = self.bpb.sectors_per_cluster as usize * SECTOR_SIZE;
        let mut data = zero_vec(cluster_size);
        let err = ide_read_sectors(ctrl, self.drive, sector, &mut data);
        if err != 0 {
            return Result::Err(Fat12Error::ClusterRead);
        }
        proof {
            let spc = self.bpb.sectors_per_cluster as int;
            assert((spc * 512) / 512 == spc) by (nonlinear_arith);
            let base = spec_cluster_sector(*self, cluster) * SECTOR_SIZE;
            let size = ctrl.devices@[self.drive as int].info.size as int;
            assert(spec_cluster_sector(*self, cluster) + spc <= size);
            assert(spec_cluster_sector(*self, cluster) * 512 + spc * 512 <= size * 512) by (
            nonlinear_arith)
                requires
                    spec_cluster_sector(*self, cluster) + spc <= size,
            ;
            assert(data@ =~= spec_cluster_data(
                *self,
                ctrl.devices@[self.drive as int].contents@,
                cluster,
            ));
        }
        Result::Ok(data)
    }

    /// Write `data` as the contents of one cluster, padding the tail of the
    /// cluster with zeros. Nothing outside the cluster's bytes changes.
    pub fn write_cluster(&self, ctrl: &mut IdeController, cluster: u16, data: &Vec<u8>) -> (r:
        Result<(), Fat12Error>)
        requires
            fs_wf(*self),
            fat12_device_ok(*self, *old(ctrl)),
            cluster_is_data(cluster),
            data@.len() <= spec_cluster_bytes(*self),
        ensures
            controller_wf(*final(ctrl)),
            fat12_device_ok(*self, *final(ctrl)),
            final(ctrl).devices@[self.drive as int].info == old(ctrl).devices@[
                self.drive as int
            ].info,
            final(ctrl).devices@.len() == old(ctrl).devices@.len(),
            forall|d: int|
                0 <= d < 4 && d != self.drive ==> final(ctrl).devices@[d] == old(ctrl).devices@[d],
            match r {
                Result::Ok(_) => {
                    let base = spec_cluster_sector(*self, cluster) * SECTOR_SIZE;
                    let new_c = final(ctrl).devices@[self.drive as int].contents@;
                    let old_c = old(ctrl).devices@[self.drive as int].contents@;
                    &&& crate::ide::spec_transfer_status(
                        old(ctrl).devices@[self.drive as int],
                        spec_cluster_sector(*self, cluster) as u64,
                        self.bpb.sectors_per_cluster as nat,
                    ) == 0
                    &&& new_c.len() == old_c.len()
                    &&& forall|i: int| 0 <= i < data@.len() ==> new_c[base + i] == data@[i]
                    &&& forall|i: int|
                        data@.len() <= i < spec_cluster_bytes(*self) ==> #[trigger] new_c[base + i]
                            == 0u8
                    &&& forall|i: int|
                        0 <= i < old_c.len() && !(base <= i < base + spec_cluster_bytes(*self))
                            ==> new_c[i] == old_c[i]
                },
                Result::Err(e) => {
                    &&& e == Fat12Error::ClusterWrite
                    &&& crate::ide::spec_transfer_status(
                        old(ctrl).devices@[self.drive as int],
                        spec_cluster_sector(*self, cluster) as u64,
                        self.bpb.sectors_per_cluster as nat,
                    ) != 0
                    &&& final(ctrl).devices@[self.drive as int].contents@ == old(ctrl).devices@[
                        self.drive as int
                    ].contents@
                },
            },
    {
        let sector = self.cluster_to_sector(cluster);
        let cluster_size: usize = self.bpb.sectors_per_cluster as usize * SECTOR_SIZE;
        let mut padded = zero_vec(cluster_size);
        let copy_len: usize = if data.len() < cluster_size {
            data.len()
        } else {
            cluster_size
        };
        let mut i: usize = 0;
        while i < copy_len
            invariant
                i <= copy_len,
                copy_len <= data@.len(),
                copy_len <= padded@.len(),
                padded@.len() == cluster_size,
                forall|j: int| 0 <= j < i ==> padded@[j] == data@[j],
                forall|j: int| i <= j < cluster_size ==> padded@[j] == 0u8,
            decreases copy_len - i,
        {
            let b = data[i];
            padded[i] = b;
            i += 1;
        }
        proof {
            let spc = self.bpb.sectors_per_cluster as int;
            assert((spc * 512 + 511) / 512 == spc) by (nonlinear_arith)
                requires
                    spc >= 1,
            ;
        }
        let err = ide_write_sectors(ctrl, self.drive, sector, &padded);
        if err != 0 {
            return Result::Err(Fat12Error::ClusterWrite);
        }
        proof {
            let base = spec_cluster_sector(*self, cluster) * SECTOR_SIZE;
            let new_c = ctrl.devices@[self.drive as int].contents@;
            assert forall|i: int|
                data@.len() <= i < spec_cluster_bytes(*self) implies #[trigger] new_c[base + i]
                == 0u8 by {
                assert(new_c[base + i] == padded@[i]);
            }
            assert forall|i: int| 0 <= i < data@.len() implies new_c[base + i] == data@[i] by {
                assert(new_c[base + i] == padded@[i]);
            }
        }
        Result::Ok(())
    }
}

/// Byte offset where FAT copy `f` begins.
pub open spec fn spec_fat_copy_base(fs: Fat12, f: int) -> int {
    (fs.fat_start_sector + f * fs.bpb.fat_size_16) * SECTOR_SIZE
}

impl Fat12 {
    /// Write the FAT mirror back to every FAT copy on the drive. Nothing
    /// outside the FAT area changes.
    pub fn flush_fat(&self, ctrl: &mut IdeController) -> (r: Result<(), Fat12Error>)
        requires
            fs_wf(*self),
            fat12_device_ok(*self, *old(ctrl)),
        ensures
            r is Ok,
            controller_wf(*final(ctrl)),
            fat12_device_ok(*self, *final(ctrl)),
            final(ctrl).devices@[self.drive as int].info == old(ctrl).devices@[
                self.drive as int
            ].info,
            final(ctrl).devices@.len() == old(ctrl).devices@.len(),
            forall|d: int|
                0 <= d < 4 && d != self.drive ==> final(ctrl).devices@[d] == old(ctrl).devices@[d],
            final(ctrl).devices@[self.drive as int].contents@.len() == old(ctrl).devices@[
                self.drive as int
            ].contents@.len(),
            forall|f: int|
                0 <= f < self.bpb.num_fats ==> final(ctrl).devices@[
                    self.drive as int
                ].contents@.subrange(
                    spec_fat_copy_base(*self, f),
                    spec_fat_copy_base(*self, f) + self.bpb.fat_size_16 * SECTOR_SIZE,
                ) == self.fat_cache@,
            forall|j: int|
                0 <= j < old(ctrl).devices@[self.drive as int].contents@.len() && !(
                spec_fat_copy_base(*self, 0) <= j < spec_fat_copy_base(
                    *self,
                    self.bpb.num_fats as int,
                )) ==> final(ctrl).devices@[self.drive as int].contents@[j] == old(
                    ctrl,
                ).devices@[self.drive as int].contents@[j],
    {
        let fat_size = self.bpb.fat_size_16;
        let num_fats = self.bpb.num_fats;
        let mut f: u8 = 0;
        proof {
            assert(num_fats as int * fat_size as int <= 255 * 65535) by (nonlinear_arith)
                requires
                    num_fats <= 255 && fat_size <= 65535,
            ;
        }
        while f < num_fats
            invariant
                f <= num_fats,
                fs_wf(*self),
                fat12_device_ok(*self, *ctrl),
                controller_wf(*ctrl),
                fat_size == self.bpb.fat_size_16,
                num_fats == self.bpb.num_fats,
                ctrl.devices@[self.drive as int].info == old(ctrl).devices@[self.drive as int].info,
                ctrl.devices@.len() == old(ctrl).devices@.len(),
                forall|d: int|
                    0 <= d < 4 && d != self.drive ==> ctrl.devices@[d] == old(ctrl).devices@[d],
                ctrl.devices@[self.drive as int].contents@.len() == old(ctrl).devices@[
                    self.drive as int
                ].contents@.len(),
                forall|f2: int|
                    0 <= f2 < f ==> ctrl.devices@[self.drive as int].contents@.subrange(
                        spec_fat_copy_base(*self, f2),
                        spec_fat_copy_base(*self, f2) + self.bpb.fat_size_16 * SECTOR_SIZE,
                    ) == self.fat_cache@,
                forall|j: int|
                    0 <= j < old(ctrl).devices@[self.drive as int].contents@.len() && !(
                    spec_fat_copy_base(*self, 0) <= j < spec_fat_copy_base(*self, f as int))
                        ==> ctrl.devices@[self.drive as int].contents@[j] == old(ctrl).devices@[
                        self.drive as int
                    ].contents@[j],
            decreases num_fats - f,
        {
            proof {
                assert(f as int * fat_size as int <= 255 * 65535 && (f as int + 1)
                    * fat_size as int <= 255 * 65535 && f as int * fat_size as int + fat_size
                    == (f as int + 1) * fat_size as int) by (nonlinear_arith)
                    requires
                        f < num_fats <= 255 && fat_size <= 65535,
                ;
                assert(self.bpb.num_fats as int * self.bpb.fat_size_16 as int >= (f as int + 1)
                    * fat_size as int) by (nonlinear_arith)
                    requires
                        f as int + 1 <= num_fats,
                        num_fats == self.bpb.num_fats,
                        fat_size == self.bpb.fat_size_16,
                ;
            }
            let backup_start: u64 = self.fat_start_sector + (f as u64 * fat_size as u64);
            let ghost pre = ctrl.devices@[self.drive as int].contents@;
            let err = ide_write_sectors(ctrl, self.drive, backup_start, &self.fat_cache);
            proof {
                let dev_size = ctrl.devices@[self.drive as int].info.size as int;
                let fsz = fat_size as int;
                assert((fsz * 512 + 511) / 512 == fsz) by (nonlinear_arith);
                assert(err == 0);
                let base = spec_fat_copy_base(*self, f as int);
                let cnew = ctrl.devices@[self.drive as int].contents@;
                assert(base == backup_start * 512 && base + fsz * 512 <= cnew.len() && base >= 0)
                    by (nonlinear_arith)
                    requires
                        base == (self.fat_start_sector + f as int * fsz) * 512,
                        backup_start == self.fat_start_sector + f as int * fsz,
                        0 <= f as int * fsz,
                        backup_start + fsz <= dev_size,
                        cnew.len() == dev_size * 512,
                        fsz >= 0,
                ;
                if fsz > 0 {
                    assert(cnew.subrange(base, base + fsz * 512) =~= self.fat_cache@);
                }
                assert forall|f2: int|
                    0 <= f2 < f + 1 implies ctrl.devices@[self.drive as int].contents@.subrange(
                    spec_fat_copy_base(*self, f2),
                    spec_fat_copy_base(*self, f2) + self.bpb.fat_size_16 * SECTOR_SIZE,
                ) == self.fat_cache@ by {
                    if f2 < f {
                        let b2 = spec_fat_copy_base(*self, f2);
                        assert(0 <= b2 && b2 + fsz * 512 <= base) by (nonlinear_arith)
                            requires
                                b2 == (self.fat_start_sector + f2 * fsz) * 512,
                                base == (self.fat_start_sector + f as int * fsz) * 512,
                                0 <= f2 < f as int,
                                fsz >= 0,
                                self.fat_start_sector >= 0,
                        ;
                        assert forall|k: int| 0 <= k < fsz * 512 implies #[trigger] cnew[b2 + k]
                            == pre[b2 + k] by {
                            assert(cnew[b2 + k] == pre[b2 + k]);
                        }
                        assert(cnew.subrange(b2, b2 + fsz * 512) =~= pre.subrange(
                            b2,
                            b2 + fsz * 512,
                        ));
                        assert(pre.subrange(b2, b2 + fsz * 512) == self.fat_cache@);
                    } else {
                        if fsz > 0 {
                        } else {
                            assert(cnew.subrange(
                                spec_fat_copy_base(*self, f2),
                                spec_fat_copy_base(*self, f2) + fsz * 512,
                            ) =~= self.fat_cache@);
                        }
                    }
                }
            }
            f += 1;
        }
        Result::Ok(())
    }
}

/// First byte of the root directory region.
pub open spec fn spec_root_start_byte(fs: Fat12) -> int {
    fs.root_dir_start_sector * SECTOR_SIZE
}

/// Byte size of the root directory region.
pub open spec fn spec_root_size(fs: Fat12) -> int {
    fs.root_dir_sectors * SECTOR_SIZE
}

/// The root directory's bytes on the drive.
pub open spec fn spec_root_region(fs: Fat12, contents: Seq<u8>) -> Seq<u8> {
    contents.subrange(spec_root_start_byte(fs), spec_root_start_byte(fs) + spec_root_size(fs))
}

/// How many entry slots the scan considers: the recorded count, bounded by
/// what the region can hold.
pub open spec fn spec_root_cap(fs: Fat12) -> int {
    if fs.bpb.root_entry_count <= spec_root_size(fs) / 32 {
        fs.bpb.root_entry_count as int
    } else {
        spec_root_size(fs) / 32
    }
}

/// An entry the scan keeps: in use, and a plain file or directory record.
pub open spec fn spec_is_live(e: DirEntryV) -> bool {
    !spec_is_empty(e) && !spec_is_skipped(e)
}

/// The live entries of a directory region, slot `i` up to slot `n`,
/// stopping at the first never-used slot.
pub open spec fn spec_parse_root(b: Seq<u8>, i: int, n: int) -> Seq<DirEntryV>
    decreases n - i,
{
    if i >= n {
        Seq::empty()
    } else {
        let e = spec_entry_at(b, 32 * i);
        if spec_is_empty(e) {
            Seq::empty()
        } else if spec_is_skipped(e) {
            spec_parse_root(b, i + 1, n)
        } else {
            seq![e] + spec_parse_root(b, i + 1, n)
        }
    }
}

/// The live entries of the mounted volume's root directory.
pub open spec fn spec_root_entries(fs: Fat12, contents: Seq<u8>) -> Seq<DirEntryV> {
    spec_parse_root(spec_root_region(fs, contents), 0, spec_root_cap(fs))
}

pub open spec fn entries_view(v: Seq<DirectoryEntry>) -> Seq<DirEntryV> {
    v.map_values(|e: DirectoryEntry| e@)
}

/// The root region is small: its sector count is bounded by the entry
/// count the parameter block can record.
proof fn lemma_root_size_bound(fs: Fat12)
    requires
        fs_wf(fs),
    ensures
        fs.root_dir_sectors * SECTOR_SIZE < 0x60000000,
{
    let x = fs.bpb.root_entry_count * 32 + fs.bpb.bytes_per_sector - 1;
    let b = fs.bpb.bytes_per_sector as int;
    let q = x as int / b;
    vstd::arithmetic::div_mod::lemma_fundamental_div_mod(x as int, b);
    assert(q <= b * q) by (nonlinear_arith)
        requires
            b >= 1,
            q >= 0,
    ;
}

impl Fat12 {
    /// Read and parse the root directory: every in-use file entry, in slot
    /// order, up to the first never-used slot.
    pub fn fat12_read_root_directory(&self, ctrl: &IdeController) -> (r: Result<
        Vec<DirectoryEntry>,
        Fat12Error,
    >)
        requires
            fs_wf(*self),
            fat12_device_ok(*self, *ctrl),
        ensures
            r matches Result::Ok(entries) && entries_view(entries@) == spec_root_entries(
                *self,
                ctrl.devices@[self.drive as int].contents@,
            ) && forall|k: int|
                0 <= k < entries@.len() ==> entry_wf(#[trigger] entries@[k]@) && spec_is_live(
                    entries@[k]@,
                ),
    {
        proof {
            lemma_root_size_bound(*self);
        }
        let root_size: usize = self.root_dir_sectors as usize * SECTOR_SIZE;
        let mut root_data = zero_vec(root_size);
        let err = ide_read_sectors(ctrl, self.drive, self.root_dir_start_sector, &mut root_data);
        let ghost region = spec_root_region(*self, ctrl.devices@[self.drive as int].contents@);
        proof {
            let rs = self.root_dir_sectors as int;
            assert((rs * 512) / 512 == rs) by (nonlinear_arith);
            let size = ctrl.devices@[self.drive as int].info.size as int;
            assert(self.root_dir_start_sector + rs <= size);
            assert(self.root_dir_start_sector * 512 + rs * 512 <= size * 512) by (nonlinear_arith)
                requires
                    self.root_dir_start_sector + rs <= size,
            ;
            assert(self.bpb.num_fats * self.bpb.fat_size_16 <= 255 * 65535) by (nonlinear_arith)
                requires
                    self.bpb.num_fats <= 255 && self.bpb.fat_size_16 <= 65535,
            ;
            assert(err == 0);
            assert(root_data@ =~= region);
        }
        let num_entries: usize = {
            let cap = root_size / 32;
            if (self.bpb.root_entry_count as usize) < cap {
                self.bpb.root_entry_count as usize
            } else {
                cap
            }
        };
        let ghost n = spec_root_cap(*self);
        proof {
            assert(num_entries == n);
        }
        let mut entries: Vec<DirectoryEntry> = Vec::new();
        let mut i: usize = 0;
        let mut done = false;
        while i < num_entries && !done
            invariant
                i <= num_entries,
                num_entries == n,
                32 * n <= root_data@.len(),
                root_data@ == region,
                forall|k: int|
                    0 <= k < entries@.len() ==> entry_wf(#[trigger] entries@[k]@) && spec_is_live(
                        entries@[k]@,
                    ),
                if done {
                    entries_view(entries@) == spec_parse_root(region, 0, n)
                } else {
                    spec_parse_root(region, 0, n) == entries_view(entries@) + spec_parse_root(
                        region,
                        i as int,
                        n,
                    )
                },
            decreases num_entries - i, (if done {
                0int
            } else {
                1int
            }),
        {
            let entry = entry_from_bytes(&root_data, i * 32);
            let ghost pre = entries@;
            if entry.is_empty() {
                done = true;
            } else {
                if !entry.is_deleted() && !entry.is_lfn() && !entry.is_volume_id() {
                    entries.push(entry);
                    proof {
                        assert(entries_view(entries@) =~= entries_view(pre) + seq![
                            spec_entry_at(region, 32 * (i as int)),
                        ]);
                    }
                }
                i += 1;
            }
        }
        proof {
            if !done {
                assert(spec_parse_root(region, i as int, n) =~= Seq::<DirEntryV>::empty());
            }
            assert(entries_view(entries@) =~= spec_parse_root(region, 0, n));
        }
        Result::Ok(entries)
    }
}

/// Two byte strings that agree on a 32-byte window record the same entry
/// there.
proof fn lemma_entry_at_agrees(b1: Seq<u8>, b2: Seq<u8>, off: int)
    requires
        0 <= off,
        off + 32 <= b1.len(),
        off + 32 <= b2.len(),
        forall|j: int| off <= j < off + 32 ==> b1[j] == b2[j],
    ensures
        spec_entry_at(b1, off) == spec_entry_at(b2, off),
{
    assert(spec_entry_at(b1, off).name =~= spec_entry_at(b2, off).name);
}

impl Fat12 {
    /// Serialize `entries` into the root directory region, zero-filling the
    /// remaining slots, and write it out. Nothing outside the region
    /// changes.
    pub fn write_root_directory(&self, ctrl: &mut IdeController, entries: &Vec<DirectoryEntry>)
        -> (r: Result<(), Fat12Error>)
        requires
            fs_wf(*self),
            fat12_device_ok(*self, *old(ctrl)),
            entries@.len() * 32 <= spec_root_size(*self),
            forall|k: int| 0 <= k < entries@.len() ==> entry_wf(#[trigger] entries@[k]@),
        ensures
            r is Ok,
            controller_wf(*final(ctrl)),
            fat12_device_ok(*self, *final(ctrl)),
            final(ctrl).devices@[self.drive as int].info == old(ctrl).devices@[
                self.drive as int
            ].info,
            final(ctrl).devices@.len() == old(ctrl).devices@.len(),
            forall|d: int|
                0 <= d < 4 && d != self.drive ==> final(ctrl).devices@[d] == old(ctrl).devices@[d],
            final(ctrl).devices@[self.drive as int].contents@.len() == old(ctrl).devices@[
                self.drive as int
            ].contents@.len(),
            forall|k: int|
                0 <= k < entries@.len() ==> spec_entry_at(
                    spec_root_region(*self, final(ctrl).devices@[self.drive as int].contents@),
                    32 * k,
                ) == entries@[k]@,
            forall|j: int|
                entries@.len() * 32 <= j < spec_root_size(*self) ==> #[trigger] spec_root_region(
                    *self,
                    final(ctrl).devices@[self.drive as int].contents@,
                )[j] == 0u8,
            forall|j: int|
                0 <= j < old(ctrl).devices@[self.drive as int].contents@.len() && !(
                spec_root_start_byte(*self) <= j < spec_root_start_byte(*self) + spec_root_size(
                    *self,
                )) ==> final(ctrl).devices@[self.drive as int].contents@[j] == old(
                    ctrl,
                ).devices@[self.drive as int].contents@[j],
    {
        proof {
            lemma_root_size_bound(*self);
        }
        let root_size: usize = self.root_dir_sectors as usize * SECTOR_SIZE;
        let mut buf: Vec<u8> = Vec::new();
        let mut k: usize = 0;
        while k < entries.len()
            invariant
                k <= entries@.len(),
                entries@.len() * 32 <= spec_root_size(*self),
                spec_root_size(*self) == root_size,
                forall|k2: int| 0 <= k2 < entries@.len() ==> entry_wf(#[trigger] entries@[k2]@),
                buf@.len() == 32 * k,
                forall|k2: int|
                    0 <= k2 < k ==> spec_entry_at(buf@, 32 * k2) == #[trigger] entries@[k2]@,
            decreases entries@.len() - k,
        {
            let ghost pre = buf@;
            let eb = entry_to_bytes(&entries[k]);
            buf.extend_from_slice(eb.as_slice());
            proof {
                assert forall|k2: int| 0 <= k2 < k + 1 implies spec_entry_at(buf@, 32 * k2)
                    == #[trigger] entries@[k2]@ by {
                    if k2 < k {
                        lemma_entry_at_agrees(buf@, pre, 32 * k2);
                    } else {
                        assert(eb@ =~= buf@.subrange(32 * (k as int), 32 * (k as int) + 32));
                        lemma_entry_at_agrees(
                            buf@.subrange(32 * (k as int), 32 * (k as int) + 32),
                            eb@,
                            0,
                        );
                        lemma_entry_at_shift(buf@, 32 * (k as int));
                    }
                }
            }
            k += 1;
        }
        while buf.len() < root_size
            invariant
                buf@.len() <= root_size,
                spec_root_size(*self) == root_size,
                forall|k2: int|
                    0 <= k2 < entries@.len() && 32 * k2 + 32 <= buf@.len() ==> spec_entry_at(
                        buf@,
                        32 * k2,
                    ) == #[trigger] entries@[k2]@,
                entries@.len() * 32 <= buf@.len(),
                forall|j: int| entries@.len() * 32 <= j < buf@.len() ==> buf@[j] == 0u8,
            decreases root_size - buf@.len(),
        {
            let ghost pre = buf@;
            buf.push(0);
            proof {
                assert forall|k2: int|
                    0 <= k2 < entries@.len() && 32 * k2 + 32 <= buf@.len() implies spec_entry_at(
                    buf@,
                    32 * k2,
                ) == #[trigger] entries@[k2]@ by {
                    lemma_entry_at_agrees(buf@, pre, 32 * k2);
                }
            }
        }
        proof {
            let rs = self.root_dir_sectors as int;
            assert((rs * 512 + 511) / 512 == rs) by (nonlinear_arith)
                requires
                    rs >= 0,
            ;
            let size = ctrl.devices@[self.drive as int].info.size as int;
            assert(self.root_dir_start_sector + rs <= size);
            assert(self.root_dir_start_sector * 512 + rs * 512 <= size * 512) by (nonlinear_arith)
                requires
                    self.root_dir_start_sector + rs <= size,
            ;
        }
        if root_size == 0 {
            return Result::Ok(());
        }
        let err = ide_write_sectors(ctrl, self.drive, self.root_dir_start_sector, &buf);
        proof {
            assert(self.bpb.num_fats * self.bpb.fat_size_16 <= 255 * 65535) by (nonlinear_arith)
                requires
                    self.bpb.num_fats <= 255 && self.bpb.fat_size_16 <= 65535,
            ;
            assert(err == 0);
            let region = spec_root_region(*self, ctrl.devices@[self.drive as int].contents@);
            assert(region =~= buf@);
            assert forall|k2: int| 0 <= k2 < entries@.len() implies spec_entry_at(region, 32 * k2)
                == #[trigger] entries@[k2]@ by {
                lemma_entry_at_agrees(region, buf@, 32 * k2);
            }
        }
        Result::Ok(())
    }
}

/// Reading an entry out of a longer byte string at `off` is reading it out
/// of the 32-byte window there.
proof fn lemma_entry_at_shift(b: Seq<u8>, off: int)
    requires
        0 <= off,
        off + 32 <= b.len(),
    ensures
        spec_entry_at(b, off) == spec_entry_at(b.subrange(off, off + 32), 0),
{
    assert(spec_entry_at(b, off).name =~= spec_entry_at(b.subrange(off, off + 32), 0).name);
}

/// Parse the directory entry recorded at `offset`.
pub fn entry_from_bytes(bytes: &Vec<u8>, offset: usize) -> (r: DirectoryEntry)
    requires
        offset + 32 <= bytes.len(),
    ensures
        r@ == spec_entry_at(bytes@, offset as int),
        entry_wf(r@),
{
    let mut name: Vec<u8> = Vec::new();
    let mut i: usize = 0;
    while i < 11
        invariant
            i <= 11,
            offset + 32 <= bytes.len(),
            name@ == bytes@.subrange(offset as int, offset + i),
        decreases 11 - i,
    {
        name.push(bytes[offset + i]);
        proof {
            assert(name@ =~= bytes@.subrange(offset as int, offset + i + 1));
        }
        i += 1;
    }
    let s = bytes.as_slice();
    DirectoryEntry {
        name,
        attributes: bytes[offset + 11],
        reserved: bytes[offset + 12],
        creation_time_tenth: bytes[offset + 13],
        creation_time: crate::elf::read_u16_le(s, offset + 14),
        creation_date: crate::elf::read_u16_le(s, offset + 16),
        last_access_date: crate::elf::read_u16_le(s, offset + 18),
        first_cluster_high: crate::elf::read_u16_le(s, offset + 20),
        last_mod_time: crate::elf::read_u16_le(s, offset + 22),
        last_mod_date: crate::elf::read_u16_le(s, offset + 24),
        first_cluster: crate::elf::read_u16_le(s, offset + 26),
        file_size: crate::elf::read_u32_le(s, offset + 28),
    }
}

} // verus!
verus! {

/// An entry answers for `fname` when its display name matches it, byte for
/// byte, ignoring ASCII case.
pub open spec fn spec_matches(e: DirEntryV, fname: Seq<u8>) -> bool {
    spec_eq_ignore_case(spec_display_name(e.name), fname)
}

/// Index of the first entry from `i` on that answers for `fname`, or -1.
pub open spec fn spec_find_idx(views: Seq<DirEntryV>, fname: Seq<u8>, i: int) -> int
    decreases views.len() - i,
{
    if i < 0 || i >= views.len() {
        -1
    } else if spec_matches(views[i], fname) {
        i
    } else {
        spec_find_idx(views, fname, i + 1)
    }
}

/// Look up `filename` in the root directory: the first live entry whose
/// name matches, ignoring case.
#[verifier::loop_isolation(false)]
pub fn find_file_entry(fs: &Fat12, ctrl: &IdeController, filename: &str) -> (r: Result<
    DirectoryEntry,
    Fat12Error,
>)
    requires
        fs_wf(*fs),
        fat12_device_ok(*fs, *ctrl),
    ensures
        ({
            let views = spec_root_entries(*fs, ctrl.devices@[fs.drive as int].contents@);
            let idx = spec_find_idx(views, filename.spec_bytes(), 0);
            match r {
                Result::Ok(e) => idx >= 0 && e@ == views[idx] && entry_wf(e@),
                Result::Err(err) => err == Fat12Error::NotFound && idx == -1,
            }
        }),
{
    let entries = match fs.fat12_read_root_directory(ctrl) {
        Result::Ok(es) => es,
        Result::Err(e) => {
            return Result::Err(e);
        },
    };
    let ghost views = spec_root_entries(*fs, ctrl.devices@[fs.drive as int].contents@);
    let fname = filename.as_bytes();
    let mut i: usize = 0;
    while i < entries.len()
        invariant
            i <= entries@.len(),
            entries_view(entries@) == views,
            fname@ == filename.spec_bytes(),
            forall|k: int| 0 <= k < entries@.len() ==> entry_wf(#[trigger] entries@[k]@),
            spec_find_idx(views, filename.spec_bytes(), 0) == spec_find_idx(
                views,
                filename.spec_bytes(),
                i as int,
            ),
        decreases entries@.len() - i,
    {
        let name = entries[i].display_name_bytes();
        proof {
            assert(entries_view(entries@).len() == entries@.len());
            assert(entries_view(entries@)[i as int] == entries@[i as int]@);
            assert(views[i as int] == entries@[i as int]@);
        }
        if names_equal_ci(&name, fname) {
            proof {
                assert(spec_matches(views[i as int], filename.spec_bytes()));
                assert(spec_find_idx(views, filename.spec_bytes(), i as int) == i);
            }
            let e = entry_from_parts(&entries[i]);
            return Result::Ok(e);
        }
        i += 1;
    }
    Result::Err(Fat12Error::NotFound)
}

/// A field-for-field copy of a directory entry.
pub fn entry_from_parts(e: &DirectoryEntry) -> (r: DirectoryEntry)
    ensures
        r@ == e@,
{
    let mut name: Vec<u8> = Vec::new();
    let mut i: usize = 0;
    while i < e.name.len()
        invariant
            i <= e.name@.len(),
            name@ == e.name@.subrange(0, i as int),
        decreases e.name@.len() - i,
    {
        name.push(e.name[i]);
        proof {
            assert(name@ =~= e.name@.subrange(0, i + 1));
        }
        i += 1;
    }
    proof {
        assert(name@ =~= e.name@);
    }
    DirectoryEntry {
        name,
        attributes: e.attributes,
        reserved: e.reserved,
        creation_time_tenth: e.creation_time_tenth,
        creation_time: e.creation_time,
        creation_date: e.creation_date,
        last_access_date: e.last_access_date,
        first_cluster_high: e.first_cluster_high,
        last_mod_time: e.last_mod_time,
        last_mod_date: e.last_mod_date,
        first_cluster: e.first_cluster,
        file_size: e.file_size,
    }
}

/// A found index always points into the entry list.
proof fn lemma_find_idx_bounds(views: Seq<DirEntryV>, fname: Seq<u8>, i: int)
    requires
        0 <= i,
    ensures
        spec_find_idx(views, fname, i) == -1 || i <= spec_find_idx(views, fname, i) < views.len(),
    decreases views.len() - i,
{
    if i < views.len() && !spec_matches(views[i], fname) {
        lemma_find_idx_bounds(views, fname, i + 1);
    }
}

/// The bytes of a whole chain of clusters, in walk order.
pub open spec fn spec_chain_data(fs: Fat12, contents: Seq<u8>, chain: Seq<u16>) -> Seq<u8>
    decreases chain.len(),
{
    if chain.len() == 0 {
        Seq::empty()
    } else {
        spec_cluster_data(fs, contents, chain[0]) + spec_chain_data(fs, contents, chain.drop_first())
    }
}

/// The bytes a file read returns: the data of its chain, cut down to the
/// recorded file size.
pub open spec fn spec_file_content(fs: Fat12, contents: Seq<u8>, fat: Seq<u8>, e: DirEntryV)
    -> Seq<u8> {
    let full = spec_chain_data(fs, contents, spec_chain(fat, e.first_cluster, MAX_CHAIN_LEN as nat));
    if e.file_size <= full.len() {
        full.take(e.file_size as int)
    } else {
        full
    }
}

/// Every cluster of `chain` lies on the drive.
pub open spec fn spec_chain_readable(fs: Fat12, ctrl: IdeController, chain: Seq<u16>) -> bool {
    forall|k: int|
        0 <= k < chain.len() ==> spec_cluster_in_range(fs, ctrl, #[trigger] chain[k])
}

/// Read a whole file: follow its cluster chain from `first_cluster`,
/// gather the clusters' bytes, and cut the result to the recorded size.
pub fn fat12_read_file(fs: &Fat12, ctrl: &IdeController, filename: &str) -> (r: Result<
    Vec<u8>,
    Fat12Error,
>)
    requires
        fs_wf(*fs),
        fat12_device_ok(*fs, *ctrl),
    ensures
        ({
            let contents = ctrl.devices@[fs.drive as int].contents@;
            let views = spec_root_entries(*fs, contents);
            let idx = spec_find_idx(views, filename.spec_bytes(), 0);
            let fat = fs.fat_cache@;
            match r {
                Result::Ok(data) => {
                    &&& idx >= 0
                    &&& data@ == spec_file_content(*fs, contents, fat, views[idx])
                },
                Result::Err(err) => {
                    ||| err == Fat12Error::NotFound && idx == -1
                    ||| (idx >= 0 && views[idx].file_size > 0 && {
                        let chain = spec_chain(
                            fat,
                            views[idx].first_cluster,
                            MAX_CHAIN_LEN as nat,
                        );
                        ||| err == Fat12Error::CorruptChain && !spec_chain_ends(
                            fat,
                            views[idx].first_cluster,
                            MAX_CHAIN_LEN as nat,
                        )
                        ||| err == Fat12Error::ClusterRead && exists|k: int|
                            0 <= k < chain.len() && !spec_cluster_in_range(
                                *fs,
                                *ctrl,
                                #[trigger] chain[k],
                            )
                    })
                },
            }
        }),
{
    let entry = match find_file_entry(fs, ctrl, filename) {
        Result::Ok(e) => e,
        Result::Err(e) => {
            return Result::Err(e);
        },
    };
    let ghost gcontents = ctrl.devices@[fs.drive as int].contents@;
    let ghost views = spec_root_entries(*fs, gcontents);
    let ghost idx = spec_find_idx(views, filename.spec_bytes(), 0);
    proof {
        lemma_find_idx_bounds(views, filename.spec_bytes(), 0);
        assert(idx >= 0 && entry@ == views[idx]);
    }
    if entry.file_size == 0 {
        proof {
            let full = spec_chain_data(
                *fs,
                gcontents,
                spec_chain(fs.fat_cache@, views[idx].first_cluster, MAX_CHAIN_LEN as nat),
            );
            assert(full.take(0) =~= Seq::<u8>::empty());
        }
        return Result::Ok(Vec::new());
    }
    let ghost fat = fs.fat_cache@;
    let ghost contents = ctrl.devices@[fs.drive as int].contents@;
    let ghost whole = spec_chain(fat, entry.first_cluster, MAX_CHAIN_LEN as nat);
    let mut data: Vec<u8> = Vec::new();
    let mut cluster: u16 = entry.first_cluster;
    let mut count: usize = 0;
    let ghost mut taken: Seq<u16> = Seq::empty();
    loop
        invariant_except_break
            whole == taken + spec_chain(fat, cluster, (MAX_CHAIN_LEN - count) as nat),
            spec_chain_ends(fat, entry@.first_cluster, MAX_CHAIN_LEN as nat) == spec_chain_ends(
                fat,
                cluster,
                (MAX_CHAIN_LEN - count) as nat,
            ),
        invariant
            fs_wf(*fs),
            fat12_device_ok(*fs, *ctrl),
            fat == fs.fat_cache@,
            contents == ctrl.devices@[fs.drive as int].contents@,
            gcontents == contents,
            views == spec_root_entries(*fs, contents),
            idx == spec_find_idx(views, filename.spec_bytes(), 0),
            0 <= idx < views.len(),
            entry@ == views[idx],
            entry@.file_size > 0,
            whole == spec_chain(fat, entry@.first_cluster, MAX_CHAIN_LEN as nat),
            count <= MAX_CHAIN_LEN,
            taken.len() == count,
            data@ == spec_chain_data(*fs, contents, taken),
            spec_chain_readable(*fs, *ctrl, taken),
        ensures
            data@ == spec_chain_data(*fs, contents, whole),
            spec_chain_ends(fat, entry@.first_cluster, MAX_CHAIN_LEN as nat),
        decreases MAX_CHAIN_LEN - count,
    {
        if cluster < 2 || cluster >= FAT12_BAD_CLUSTER || fat_off_end(cluster)
            >= fs.fat_cache.len() {
            proof {
                assert(spec_chain(fat, cluster, (MAX_CHAIN_LEN - count) as nat)
                    =~= Seq::<u16>::empty());
                assert(whole =~= taken);
                assert(spec_chain_ends(fat, cluster, (MAX_CHAIN_LEN - count) as nat));
            }
            break ;
        }
        if count >= MAX_CHAIN_LEN {
            proof {
                assert(count == MAX_CHAIN_LEN);
                assert(!spec_chain_ends(fat, cluster, 0));
            }
            return Result::Err(Fat12Error::CorruptChain);
        }
        let cluster_data = match fs.read_cluster(ctrl, cluster) {
            Result::Ok(d) => d,
            Result::Err(e) => {
                proof {
                    let k = taken.len() as int;
                    assert(spec_chain(fat, cluster, (MAX_CHAIN_LEN - count) as nat)[0] == cluster);
                    assert(whole[k] == cluster);
                    lemma_small_structures(*fs);
                    assert((cluster - 2) * fs.bpb.sectors_per_cluster as int <= 4095 * 255) by (
                    nonlinear_arith)
                        requires
                            2 <= cluster < 0xFF7,
                            fs.bpb.sectors_per_cluster <= 255,
                    ;
                    assert(!spec_cluster_in_range(*fs, *ctrl, cluster));
                    assert(0 <= k < whole.len() && !spec_cluster_in_range(*fs, *ctrl, whole[k]));
                }
                return Result::Err(Fat12Error::ClusterRead);
            },
        };
        let ghost pre_taken = taken;
        data.extend_from_slice(cluster_data.as_slice());
        proof {
            taken = taken.push(cluster);
            lemma_chain_data_push(*fs, contents, pre_taken, cluster);
            lemma_small_structures(*fs);
            assert((cluster - 2) * fs.bpb.sectors_per_cluster as int <= 4095 * 255) by (
            nonlinear_arith)
                requires
                    2 <= cluster < 0xFF7,
                    fs.bpb.sectors_per_cluster <= 255,
            ;
            assert(spec_cluster_in_range(*fs, *ctrl, cluster));
            assert(spec_chain_readable(*fs, *ctrl, taken)) by {
                assert forall|k: int|
                    0 <= k < taken.len() implies spec_cluster_in_range(
                    *fs,
                    *ctrl,
                    #[trigger] taken[k],
                ) by {
                    if k < pre_taken.len() {
                        assert(taken[k] == pre_taken[k]);
                    } else {
                        assert(taken[k] == cluster);
                    }
                }
            }
        }
        let next = fs.get_fat_entry(cluster);
        count += 1;
        if next >= FAT12_EOF {
            proof {
                assert(spec_chain(fat, cluster, (MAX_CHAIN_LEN - count + 1) as nat) =~= seq![
                    cluster,
                ]);
                assert(whole =~= pre_taken + seq![cluster]);
                assert(whole =~= taken);
                assert(spec_chain_ends(fat, cluster, (MAX_CHAIN_LEN - count + 1) as nat));
            }
            break ;
        }
        proof {
            assert(spec_chain(fat, cluster, (MAX_CHAIN_LEN - count + 1) as nat) =~= seq![cluster]
                + spec_chain(fat, next, (MAX_CHAIN_LEN - count) as nat));
            assert(taken + spec_chain(fat, next, (MAX_CHAIN_LEN - count) as nat) =~= pre_taken + (
            seq![cluster] + spec_chain(fat, next, (MAX_CHAIN_LEN - count) as nat)));
        }
        cluster = next;
    }
    let size = entry.file_size as usize;
    let ghost full = spec_chain_data(*fs, contents, whole);
    if data.len() > size {
        data.truncate(size);
        proof {
            assert(data@ =~= full.take(entry@.file_size as int));
        }
    } else {
        proof {
            if entry@.file_size <= full.len() {
                assert(full.take(entry@.file_size as int) =~= full);
            }
        }
    }
    Result::Ok(data)
}

/// The reserved area, every FAT copy and the root directory together end
/// well below the 28-bit sector horizon.
proof fn lemma_small_structures(fs: Fat12)
    requires
        fs_wf(fs),
    ensures
        fs.data_start_sector < 0x2000000,
{
    lemma_root_size_bound(fs);
    assert(fs.bpb.num_fats * fs.bpb.fat_size_16 <= 255 * 65535) by (nonlinear_arith)
        requires
            fs.bpb.num_fats <= 255 && fs.bpb.fat_size_16 <= 65535,
    ;
}

/// One past the last FAT byte that cluster `c`'s entry occupies.
fn fat_off_end(c: u16) -> (r: usize)
    ensures
        r == spec_fat_off(c as int) + 1,
{
    c as usize * 3 / 2 + 1
}

/// Appending one cluster to a chain appends its data.
proof fn lemma_chain_data_push(fs: Fat12, contents: Seq<u8>, chain: Seq<u16>, c: u16)
    ensures
        spec_chain_data(fs, contents, chain.push(c)) == spec_chain_data(fs, contents, chain)
            + spec_cluster_data(fs, contents, c),
    decreases chain.len(),
{
    if chain.len() == 0 {
        assert(chain.push(c)[0] == c);
        assert(chain.push(c).drop_first() =~= Seq::<u16>::empty());
        assert(spec_chain_data(fs, contents, chain.push(c).drop_first()) =~= Seq::<u8>::empty());
        assert(spec_cluster_data(fs, contents, c) + Seq::<u8>::empty() =~= spec_cluster_data(
            fs,
            contents,
            c,
        ));
        assert(spec_chain_data(fs, contents, chain) + spec_cluster_data(fs, contents, c)
            =~= spec_cluster_data(fs, contents, c));
    } else {
        assert(chain.push(c).drop_first() =~= chain.drop_first().push(c));
        lemma_chain_data_push(fs, contents, chain.drop_first(), c);
        assert(spec_chain_data(fs, contents, chain.push(c)) =~= spec_chain_data(fs, contents, chain)
            + spec_cluster_data(fs, contents, c));
    }
}

/// Names of every live root-directory entry.
pub fn fat12_list_files(fs: &Fat12, ctrl: &IdeController) -> (r: Result<Vec<String>, Fat12Error>)
    requires
        fs_wf(*fs),
        fat12_device_ok(*fs, *ctrl),
    ensures
        ({
            let views = spec_root_entries(*fs, ctrl.devices@[fs.drive as int].contents@);
            match r {
                Result::Ok(names) => {
                    &&& names@.len() == views.len()
                    &&& forall|k: int|
                        0 <= k < views.len() ==> (#[trigger] names@[k])@.len()
                            == spec_display_name(views[k].name).len() && forall|i: int|
                            0 <= i < names@[k]@.len() ==> names@[k]@[i] == spec_display_name(
                                views[k].name,
                            )[i] as char
                },
                Result::Err(_) => false,
            }
        }),
{
    let entries = match fs.fat12_read_root_directory(ctrl) {
        Result::Ok(es) => es,
        Result::Err(e) => {
            return Result::Err(e);
        },
    };
    let ghost views = spec_root_entries(*fs, ctrl.devices@[fs.drive as int].contents@);
    let mut files: Vec<String> = Vec::new();
    let mut i: usize = 0;
    while i < entries.len()
        invariant
            i <= entries@.len(),
            entries_view(entries@) == views,
            forall|k: int| 0 <= k < entries@.len() ==> entry_wf(#[trigger] entries@[k]@),
            files@.len() == i,
            forall|k: int|
                0 <= k < i ==> (#[trigger] files@[k])@.len() == spec_display_name(
                    views[k].name,
                ).len() && forall|j: int|
                    0 <= j < files@[k]@.len() ==> files@[k]@[j] == spec_display_name(
                        views[k].name,
                    )[j] as char,
        decreases entries@.len() - i,
    {
        let name = entries[i].display_name_bytes();
        files.push(bytes_to_string(&name));
        i += 1;
    }
    Result::Ok(files)
}

/// Whether a file of this name exists in the root directory.
pub fn fat12_file_exists(fs: &Fat12, ctrl: &IdeController, filename: &str) -> (r: bool)
    requires
        fs_wf(*fs),
        fat12_device_ok(*fs, *ctrl),
    ensures
        r == (spec_find_idx(
            spec_root_entries(*fs, ctrl.devices@[fs.drive as int].contents@),
            filename.spec_bytes(),
            0,
        ) >= 0),
{
    match find_file_entry(fs, ctrl, filename) {
        Result::Ok(_) => true,
        Result::Err(_) => false,
    }
}

/// The recorded size of a file, when it exists.
pub fn fat12_get_file_size(fs: &Fat12, ctrl: &IdeController, filename: &str) -> (r: Option<u32>)
    requires
        fs_wf(*fs),
        fat12_device_ok(*fs, *ctrl),
    ensures
        ({
            let views = spec_root_entries(*fs, ctrl.devices@[fs.drive as int].contents@);
            let idx = spec_find_idx(views, filename.spec_bytes(), 0);
            match r {
                Option::Some(sz) => idx >= 0 && sz == views[idx].file_size,
                Option::None => idx == -1,
            }
        }),
{
    match find_file_entry(fs, ctrl, filename) {
        Result::Ok(e) => Option::Some(e.file_size),
        Result::Err(_) => Option::None,
    }
}

} // verus!

verus! {

/// The live entries among `views` from index `i` on, in order.
pub open spec fn spec_live_entries(views: Seq<DirEntryV>, i: int) -> Seq<DirEntryV>
    decreases views.len() - i,
{
    if i < 0 || i >= views.len() {
        Seq::empty()
    } else if spec_is_skipped(views[i]) {
        spec_live_entries(views, i + 1)
    } else {
        seq![views[i]] + spec_live_entries(views, i + 1)
    }
}

/// A directory region holding exactly the records of `views` followed by
/// zeros parses to the live entries of `views`.
proof fn lemma_parse_serialized(region: Seq<u8>, views: Seq<DirEntryV>, i: int, n: int)
    requires
        0 <= i <= views.len() <= n,
        32 * n <= region.len(),
        forall|k: int|
            0 <= k < views.len() ==> spec_entry_at(region, 32 * k) == #[trigger] views[k],
        forall|k: int| 0 <= k < views.len() ==> !spec_is_empty(#[trigger] views[k]),
        forall|j: int| views.len() * 32 <= j < region.len() ==> region[j] == 0u8,
    ensures
        spec_parse_root(region, i, n) == spec_live_entries(views, i),
    decreases n - i,
{
    if i < n {
        let e = spec_entry_at(region, 32 * i);
        if i < views.len() {
            assert(e == views[i]);
            lemma_parse_serialized(region, views, i + 1, n);
        } else {
            assert(e.name[0] == region[32 * i]);
            assert(spec_is_empty(e));
        }
    }
}

/// When every entry is live, nothing is filtered out.
proof fn lemma_live_all(views: Seq<DirEntryV>, i: int)
    requires
        0 <= i <= views.len(),
        forall|k: int| 0 <= k < views.len() ==> spec_is_live(#[trigger] views[k]),
    ensures
        spec_live_entries(views, i) == views.subrange(i, views.len() as int),
    decreases views.len() - i,
{
    if i < views.len() {
        lemma_live_all(views, i + 1);
        assert(spec_live_entries(views, i) =~= views.subrange(i, views.len() as int));
    } else {
        assert(spec_live_entries(views, i) =~= views.subrange(i, views.len() as int));
    }
}

/// When exactly one entry is skipped, filtering removes exactly it.
proof fn lemma_live_one_skipped(views: Seq<DirEntryV>, idx: int, i: int)
    requires
        0 <= i <= views.len(),
        0 <= idx < views.len(),
        forall|k: int| 0 <= k < views.len() && k != idx ==> spec_is_live(#[trigger] views[k]),
        spec_is_skipped(views[idx]),
    ensures
        i <= idx ==> spec_live_entries(views, i) == views.subrange(i, idx) + views.subrange(
            idx + 1,
            views.len() as int,
        ),
        i > idx ==> spec_live_entries(views, i) == views.subrange(i, views.len() as int),
    decreases views.len() - i,
{
    if i < views.len() {
        lemma_live_one_skipped(views, idx, i + 1);
        if i < idx {
            assert(spec_live_entries(views, i) =~= views.subrange(i, idx) + views.subrange(
                idx + 1,
                views.len() as int,
            ));
        } else if i == idx {
            assert(views.subrange(i, idx) =~= Seq::<DirEntryV>::empty());
            assert(spec_live_entries(views, i) =~= views.subrange(i, idx) + views.subrange(
                idx + 1,
                views.len() as int,
            ));
        } else {
            assert(spec_live_entries(views, i) =~= views.subrange(i, views.len() as int));
        }
    } else {
        if i <= idx {
        } else {
            assert(spec_live_entries(views, i) =~= views.subrange(i, views.len() as int));
        }
    }
}

/// The lowest free cluster at or above `c`, or the scan's end (0xFF0)
/// when none is left.
pub open spec fn spec_next_free(fat: Seq<u8>, c: int) -> int
    decreases 0xFF0 - c,
{
    if c >= 0xFF0 {
        0xFF0
    } else if spec_is_free(fat, c as u16) {
        c
    } else {
        spec_next_free(fat, c + 1)
    }
}

/// The n-th free cluster in increasing order, counting from zero: what the
/// n-th allocation of a create claims. The scan's end when fewer exist.
pub open spec fn spec_nth_free(fat: Seq<u8>, n: int) -> int
    decreases n,
{
    if n <= 0 {
        spec_next_free(fat, 2)
    } else {
        spec_next_free(fat, spec_nth_free(fat, n - 1) + 1)
    }
}

/// The free scan skips nothing: below its result nothing is free, and the
/// result itself is free unless the scan ran out.
proof fn lemma_next_free_props(fat: Seq<u8>, c: int)
    requires
        2 <= c,
    ensures
        c <= spec_next_free(fat, c) || spec_next_free(fat, c) == 0xFF0,
        spec_next_free(fat, c) <= 0xFF0,
        spec_next_free(fat, c) < 0xFF0 ==> spec_is_free(fat, spec_next_free(fat, c) as u16),
        forall|x: u16| c <= x < spec_next_free(fat, c) ==> !spec_is_free(fat, x),
    decreases 0xFF0 - c,
{
    if c < 0xFF0 && !spec_is_free(fat, c as u16) {
        lemma_next_free_props(fat, c + 1);
    }
}

/// Shape of the free enumeration: every element is a free cluster or the
/// scan's end, and the enumeration climbs strictly while clusters remain.
proof fn lemma_nth_free_props(fat: Seq<u8>, n: int)
    requires
        n >= 0,
    ensures
        2 <= spec_nth_free(fat, n) <= 0xFF0,
        spec_nth_free(fat, n) < 0xFF0 ==> spec_is_free(fat, spec_nth_free(fat, n) as u16),
        n > 0 ==> spec_nth_free(fat, n - 1) <= spec_nth_free(fat, n),
        n > 0 && spec_nth_free(fat, n - 1) < 0xFF0 ==> spec_nth_free(fat, n - 1) < spec_nth_free(
            fat,
            n,
        ),
    decreases n,
{
    if n == 0 {
        lemma_next_free_props(fat, 2);
    } else {
        lemma_nth_free_props(fat, n - 1);
        lemma_next_free_props(fat, spec_nth_free(fat, n - 1) + 1);
    }
}

/// The enumeration is nondecreasing, and strictly increasing while it has
/// not run out.
proof fn lemma_nth_free_mono(fat: Seq<u8>, i: int, j: int)
    requires
        0 <= i <= j,
    ensures
        spec_nth_free(fat, i) <= spec_nth_free(fat, j),
        i < j && spec_nth_free(fat, i) < 0xFF0 ==> spec_nth_free(fat, i) < spec_nth_free(fat, j),
    decreases j - i,
{
    if i < j {
        lemma_nth_free_mono(fat, i + 1, j);
        lemma_nth_free_props(fat, i + 1);
    }
}

/// The enumeration is complete: a free cluster below its n-th element is
/// one of the first n elements.
proof fn lemma_nth_free_complete(fat: Seq<u8>, x: u16, n: int)
    requires
        n >= 0,
        spec_is_free(fat, x),
        x < spec_nth_free(fat, n),
    ensures
        exists|j: int| 0 <= j < n && #[trigger] spec_nth_free(fat, j) == x,
    decreases n,
{
    lemma_nth_free_props(fat, n);
    if n == 0 {
        lemma_next_free_props(fat, 2);
        assert(!spec_is_free(fat, x));
    } else {
        lemma_nth_free_props(fat, n - 1);
        if x < spec_nth_free(fat, n - 1) {
            lemma_nth_free_complete(fat, x, n - 1);
            let j = choose|j: int| 0 <= j < n - 1 && #[trigger] spec_nth_free(fat, j) == x;
            assert(spec_nth_free(fat, j) == x);
        } else if x == spec_nth_free(fat, n - 1) {
            assert(spec_nth_free(fat, n - 1) == x);
        } else {
            lemma_next_free_props(fat, spec_nth_free(fat, n - 1) + 1);
            assert(!spec_is_free(fat, x));
        }
    }
}

/// After the first `k` free clusters were claimed (their entries made
/// end-of-chain, everything else untouched), the lowest free cluster left
/// is exactly the enumeration's next element.
proof fn lemma_least_free_is_nth(fat0: Seq<u8>, fat_k: Seq<u8>, cs: Seq<u16>, c: u16)
    requires
        fat0.len() == fat_k.len(),
        forall|j: int| 0 <= j < cs.len() ==> #[trigger] cs[j] == spec_nth_free(fat0, j),
        forall|j: int| 0 <= j < cs.len() ==> spec_is_free(fat0, #[trigger] cs[j]),
        forall|c2: u16|
            fat_has_cluster(fat0, c2) && !cs.contains(c2) ==> spec_fat_entry(fat_k, c2)
                == spec_fat_entry(fat0, c2),
        forall|j: int| 0 <= j < cs.len() ==> spec_fat_entry(fat_k, #[trigger] cs[j]) == FAT12_EOF,
        spec_is_free(fat_k, c),
        forall|c2: u16| 2 <= c2 < c ==> !spec_is_free(fat_k, c2),
    ensures
        c == spec_nth_free(fat0, cs.len() as int),
{
    let k = cs.len() as int;
    let m = spec_nth_free(fat0, k);
    lemma_nth_free_props(fat0, k);
    assert(!cs.contains(c)) by {
        if cs.contains(c) {
            let j = choose|j: int| 0 <= j < cs.len() && cs[j] == c;
            assert(spec_fat_entry(fat_k, cs[j]) == FAT12_EOF);
        }
    }
    assert(spec_is_free(fat0, c));
    if c < m {
        lemma_nth_free_complete(fat0, c, k);
        let j = choose|j: int| 0 <= j < k && #[trigger] spec_nth_free(fat0, j) == c;
        assert(cs[j] == c);
        assert(cs.contains(c));
    } else if c > m {
        assert(m < 0xFF0);
        assert(spec_is_free(fat0, m as u16));
        assert(!cs.contains(m as u16)) by {
            if cs.contains(m as u16) {
                let j = choose|j: int| 0 <= j < cs.len() && cs[j] == m as u16;
                lemma_nth_free_mono(fat0, j, k);
            }
        }
        assert(spec_is_free(fat_k, m as u16));
        assert(!spec_is_free(fat_k, m as u16));
    }
}

/// Free clusters in the allocation scan's range, from cluster `c` up.
pub open spec fn spec_count_free_from(fat: Seq<u8>, c: int) -> nat
    decreases 0xFF0 - c,
{
    if c < 2 || c >= 0xFF0 {
        0
    } else {
        (if spec_is_free(fat, c as u16) {
            1nat
        } else {
            0nat
        }) + spec_count_free_from(fat, c + 1)
    }
}

/// Free clusters available to allocation.
pub open spec fn spec_count_free(fat: Seq<u8>) -> nat {
    spec_count_free_from(fat, 2)
}

proof fn lemma_count_free_zero(fat: Seq<u8>, c: int)
    requires
        forall|c2: u16| !spec_is_free(fat, c2),
    ensures
        spec_count_free_from(fat, c) == 0,
    decreases 0xFF0 - c,
{
    if 2 <= c < 0xFF0 {
        assert(!spec_is_free(fat, c as u16));
        lemma_count_free_zero(fat, c + 1);
    }
}

/// Marking one free cluster used takes exactly one off the free count.
proof fn lemma_count_free_set(fat: Seq<u8>, fat2: Seq<u8>, c0: u16, c: int)
    requires
        2 <= c <= 0xFF0,
        fat.len() == fat2.len(),
        spec_is_free(fat, c0),
        spec_fat_entry(fat2, c0) != 0,
        forall|c2: u16|
            fat_has_cluster(fat, c2) && c2 != c0 ==> spec_fat_entry(fat2, c2) == spec_fat_entry(
                fat,
                c2,
            ),
    ensures
        c <= c0 ==> spec_count_free_from(fat2, c) + 1 == spec_count_free_from(fat, c),
        c > c0 ==> spec_count_free_from(fat2, c) == spec_count_free_from(fat, c),
    decreases 0xFF0 - c,
{
    if c < 0xFF0 {
        lemma_count_free_set(fat, fat2, c0, c + 1);
        if c as u16 != c0 {
            assert(spec_is_free(fat2, c as u16) == spec_is_free(fat, c as u16));
        } else {
            assert(!spec_is_free(fat2, c0));
        }
    }
}

/// The free count never exceeds the scan range.
proof fn lemma_count_free_bound(fat: Seq<u8>, c: int)
    requires
        2 <= c <= 0xFF0,
    ensures
        spec_count_free_from(fat, c) <= 0xFF0 - c,
    decreases 0xFF0 - c,
{
    if c < 0xFF0 {
        lemma_count_free_bound(fat, c + 1);
    }
}

/// A sequence of clusters linked one to the next, the last marked
/// end-of-chain, walks as exactly that sequence.
proof fn lemma_chain_of_links(fat: Seq<u8>, cs: Seq<u16>, i: int, fuel: nat)
    requires
        0 <= i < cs.len(),
        fuel >= cs.len() - i,
        forall|k: int| 0 <= k < cs.len() ==> cluster_is_data(#[trigger] cs[k]),
        forall|k: int| 0 <= k < cs.len() ==> fat_has_cluster(fat, #[trigger] cs[k]),
        forall|k: int|
            0 <= k < cs.len() - 1 ==> spec_fat_entry(fat, #[trigger] cs[k]) == cs[k + 1],
        spec_fat_entry(fat, cs[cs.len() - 1]) == FAT12_EOF,
        forall|k: int| 0 <= k < cs.len() ==> cs[k] < 0xFF0,
    ensures
        spec_chain(fat, cs[i], fuel) == cs.subrange(i, cs.len() as int),
        spec_chain_ends(fat, cs[i], fuel),
    decreases cs.len() - i,
{
    if i == cs.len() - 1 {
        assert(spec_chain(fat, cs[i], fuel) =~= cs.subrange(i, cs.len() as int));
    } else {
        lemma_chain_of_links(fat, cs, i + 1, (fuel - 1) as nat);
        assert(spec_chain(fat, cs[i], fuel) =~= seq![cs[i]] + cs.subrange(i + 1, cs.len() as int));
        assert(spec_chain(fat, cs[i], fuel) =~= cs.subrange(i, cs.len() as int));
    }
}

/// `data` padded with zeros up to `total` bytes.
pub open spec fn spec_padded(data: Seq<u8>, total: int) -> Seq<u8> {
    Seq::new(total as nat, |j: int| if j < data.len() { data[j] } else { 0u8 })
}

/// Clusters that each hold their padded slice of `data` chain together to
/// the whole padded byte string.
proof fn lemma_chain_content(fs: Fat12, contents: Seq<u8>, cs: Seq<u16>, data: Seq<u8>, i: int)
    requires
        0 <= i <= cs.len(),
        fs_wf(fs),
        forall|k: int|
            0 <= k < cs.len() ==> 0 <= spec_cluster_sector(fs, #[trigger] cs[k]) * SECTOR_SIZE
                && spec_cluster_sector(fs, cs[k]) * SECTOR_SIZE + spec_cluster_bytes(fs)
                <= contents.len(),
        forall|k: int, b: int|
            0 <= k < cs.len() && 0 <= b < spec_cluster_bytes(fs) ==> #[trigger] contents[
                spec_cluster_sector(fs, cs[k]) * SECTOR_SIZE + b
            ] == spec_padded(data, cs.len() * spec_cluster_bytes(fs))[k * spec_cluster_bytes(fs)
                + b],
    ensures
        spec_chain_data(fs, contents, cs.subrange(i, cs.len() as int)) == spec_padded(
            data,
            cs.len() * spec_cluster_bytes(fs),
        ).subrange(i * spec_cluster_bytes(fs), cs.len() * spec_cluster_bytes(fs)),
    decreases cs.len() - i,
{
    let kk = spec_cluster_bytes(fs);
    let padded = spec_padded(data, cs.len() * kk);
    assert(cs.len() * kk >= 0) by (nonlinear_arith)
        requires
            cs.len() >= 0,
            kk >= 0,
    ;
    if i == cs.len() {
        assert(cs.subrange(i, cs.len() as int) =~= Seq::<u16>::empty());
        assert(i * kk == cs.len() as int * kk);
        assert(spec_chain_data(fs, contents, cs.subrange(i, cs.len() as int)) =~= padded.subrange(
            i * kk,
            cs.len() as int * kk,
        ));
    } else {
        lemma_chain_content(fs, contents, cs, data, i + 1);
        let tail = cs.subrange(i, cs.len() as int);
        assert(tail[0] == cs[i]);
        assert(tail.drop_first() =~= cs.subrange(i + 1, cs.len() as int));
        assert(0 <= i * kk && i * kk + kk == (i + 1) * kk && (i + 1) * kk <= cs.len() as int * kk)
            by (nonlinear_arith)
            requires
                0 <= i < cs.len(),
                kk >= 0,
        ;
        assert(spec_chain_data(fs, contents, tail) =~= padded.subrange(
            i * kk,
            cs.len() as int * kk,
        )) by {
            assert forall|b: int| 0 <= b < kk implies spec_cluster_data(fs, contents, cs[i])[b]
                == padded[i * kk + b] by {
                assert(contents[spec_cluster_sector(fs, cs[i]) * SECTOR_SIZE + b] == padded[i * kk
                    + b]);
            }
        }
    }
}

} // verus!

verus! {

/// What every mutating operation preserves: the layout fields of the
/// handle, the controller's shape, and everything about other drives.
pub open spec fn fat12_op_frame(
    fs0: Fat12,
    c0: IdeController,
    fs: Fat12,
    c: IdeController,
) -> bool {
    &&& fs_wf(fs)
    &&& fs.drive == fs0.drive
    &&& fs.bpb == fs0.bpb
    &&& fs.fat_start_sector == fs0.fat_start_sector
    &&& fs.root_dir_start_sector == fs0.root_dir_start_sector
    &&& fs.data_start_sector == fs0.data_start_sector
    &&& fs.root_dir_sectors == fs0.root_dir_sectors
    &&& fs.fat_cache@.len() == fs0.fat_cache@.len()
    &&& controller_wf(c)
    &&& fat12_device_ok(fs, c)
    &&& c.devices@.len() == c0.devices@.len()
    &&& (forall|d: int| 0 <= d < 4 && d != fs0.drive ==> c.devices@[d] == c0.devices@[d])
    &&& c.devices@[fs0.drive as int].info == c0.devices@[fs0.drive as int].info
    &&& c.devices@[fs0.drive as int].contents@.len() == c0.devices@[
        fs0.drive as int
    ].contents@.len()
}

/// Distinct data clusters occupy disjoint byte ranges.
proof fn lemma_cluster_regions_disjoint(fs: Fat12, c1: u16, c2: u16)
    requires
        fs_wf(fs),
        cluster_is_data(c1),
        cluster_is_data(c2),
        c1 != c2,
    ensures
        spec_cluster_sector(fs, c1) * SECTOR_SIZE + spec_cluster_bytes(fs) <= spec_cluster_sector(
            fs,
            c2,
        ) * SECTOR_SIZE || spec_cluster_sector(fs, c2) * SECTOR_SIZE + spec_cluster_bytes(fs)
            <= spec_cluster_sector(fs, c1) * SECTOR_SIZE,
{
    let spc = fs.bpb.sectors_per_cluster as int;
    let ds = fs.data_start_sector as int;
    if c1 < c2 {
        assert((ds + (c1 - 2) * spc) * 512 + spc * 512 <= (ds + (c2 - 2) * spc) * 512) by (
        nonlinear_arith)
            requires
                c1 < c2,
                spc >= 1,
                ds >= 0,
                2 <= c1,
        ;
    } else {
        assert((ds + (c2 - 2) * spc) * 512 + spc * 512 <= (ds + (c1 - 2) * spc) * 512) by (
        nonlinear_arith)
            requires
                c2 < c1,
                spc >= 1,
                ds >= 0,
                2 <= c2,
        ;
    }
}

/// Every data cluster's bytes lie at or above the data region's start.
proof fn lemma_cluster_above_root(fs: Fat12, c: u16)
    requires
        fs_wf(fs),
        cluster_is_data(c),
    ensures
        fs.data_start_sector * SECTOR_SIZE <= spec_cluster_sector(fs, c) * SECTOR_SIZE,
{
    let spc = fs.bpb.sectors_per_cluster as int;
    let ds = fs.data_start_sector as int;
    assert(ds * 512 <= (ds + (c - 2) * spc) * 512) by (nonlinear_arith)
        requires
            2 <= c,
            spc >= 1,
            ds >= 0,
    ;
}

/// Create `filename` holding `data`: claim enough free clusters, link them
/// into a chain, write the data, append a directory entry, and flush the
/// FAT. A name whose normalized first byte is the never-used or deleted
/// mark cannot be recorded in the on-disk format, so such names are ruled
/// out up front.
#[verifier::rlimit(100)]
pub fn fat12_create_file(
    fs: &mut Fat12,
    ctrl: &mut IdeController,
    filename: &str,
    data: &Vec<u8>,
) -> (r: Result<(), Fat12Error>)
    requires
        fs_wf(*old(fs)),
        fat12_device_ok(*old(fs), *old(ctrl)),
        data@.len() <= 0xFFFF_FFFF,
        data@.len() + spec_cluster_bytes(*old(fs)) <= usize::MAX,
        spec_name83(filename.spec_bytes()) matches Option::Some(n) ==> n[0] != 0 && n[0] != 0xE5,
    ensures
        fat12_op_frame(*old(fs), *old(ctrl), *final(fs), *final(ctrl)),
        ({
            let old_contents = old(ctrl).devices@[old(fs).drive as int].contents@;
            let new_contents = final(ctrl).devices@[old(fs).drive as int].contents@;
            let old_views = spec_root_entries(*old(fs), old_contents);
            let fname = filename.spec_bytes();
            let kk = spec_cluster_bytes(*old(fs));
            let num = (data@.len() + kk - 1) / kk;
            match r {
                Result::Ok(_) => {
                    &&& data@.len() > 0
                    &&& spec_name83(fname) is Some
                    &&& spec_count_free(old(fs).fat_cache@) >= num
                    &&& spec_find_idx(old_views, fname, 0) == -1
                    &&& old_views.len() < spec_root_cap(*old(fs))
                    &&& ({
                        let new_views = spec_root_entries(*final(fs), new_contents);
                        let fat2 = final(fs).fat_cache@;
                        &&& new_views.len() == old_views.len() + 1
                        &&& new_views.subrange(0, old_views.len() as int) == old_views
                        &&& ({
                            let ne = new_views.last();
                            let chain = spec_chain(fat2, ne.first_cluster, MAX_CHAIN_LEN as nat);
                            &&& ne.name == spec_name83(fname)->Some_0
                            &&& ne.attributes == 0x20
                            &&& ne.file_size == data@.len()
                            &&& chain.len() == num
                            &&& chain.no_duplicates()
                            &&& spec_chain_ends(fat2, ne.first_cluster, MAX_CHAIN_LEN as nat)
                            &&& spec_chain_readable(*final(fs), *final(ctrl), chain)
                            &&& spec_chain_data(*final(fs), new_contents, chain) == spec_padded(
                                data@,
                                num * spec_cluster_bytes(*final(fs)),
                            )
                            &&& forall|k: int|
                                0 <= k < chain.len() ==> #[trigger] chain[k] == spec_nth_free(
                                    old(fs).fat_cache@,
                                    k,
                                )
                            &&& forall|k: int|
                                0 <= k < chain.len() ==> spec_is_free(
                                    old(fs).fat_cache@,
                                    #[trigger] chain[k],
                                )
                            &&& spec_file_content(*final(fs), new_contents, fat2, ne) == data@
                            &&& forall|c2: u16|
                                fat_has_cluster(old(fs).fat_cache@, c2) && !chain.contains(c2)
                                    ==> spec_fat_entry(fat2, c2) == spec_fat_entry(
                                    old(fs).fat_cache@,
                                    c2,
                                )
                        })
                    })
                },
                Result::Err(e) => {
                    &&& spec_root_entries(*old(fs), new_contents) == old_views
                    &&& forall|c2: u16|
                        fat_has_cluster(old(fs).fat_cache@, c2) && !spec_is_free(
                            old(fs).fat_cache@,
                            c2,
                        ) ==> spec_fat_entry(final(fs).fat_cache@, c2) == spec_fat_entry(
                            old(fs).fat_cache@,
                            c2,
                        )
                    &&& forall|p: int|
                        0 <= p < old_contents.len() && p < old(fs).data_start_sector * SECTOR_SIZE
                            ==> new_contents[p] == old_contents[p]
                    &&& (e == Fat12Error::EmptyFile <==> data@.len() == 0)
                    &&& (e == Fat12Error::EmptyFile ==> final(fs).fat_cache@ == old(fs).fat_cache@
                        && new_contents == old_contents)
                    &&& (e == Fat12Error::NoFreeClusters ==> spec_count_free(old(fs).fat_cache@)
                        < num)
                    &&& (e == Fat12Error::ClusterWrite ==> exists|k: int|
                        0 <= k < num && (#[trigger] spec_nth_free(old(fs).fat_cache@, k)) < 0xFF0
                            && !spec_cluster_in_range(
                            *old(fs),
                            *old(ctrl),
                            spec_nth_free(old(fs).fat_cache@, k) as u16,
                        ))
                    &&& (e == Fat12Error::InvalidName || e == Fat12Error::NameTooLong ==> (
                    spec_name83(fname) is None && e == spec_name_error(fname)))
                    &&& (e == Fat12Error::AlreadyExists ==> spec_find_idx(old_views, fname, 0)
                        >= 0)
                    &&& (e == Fat12Error::RootFull ==> old_views.len() >= spec_root_cap(*old(fs)))
                    &&& (e == Fat12Error::EmptyFile || e == Fat12Error::NoFreeClusters || e
                        == Fat12Error::ClusterWrite || e == Fat12Error::InvalidName || e
                        == Fat12Error::NameTooLong || e == Fat12Error::AlreadyExists || e
                        == Fat12Error::RootFull)
                },
            }
        }),
{
    let ghost fat0 = fs.fat_cache@;
    let ghost contents0 = ctrl.devices@[fs.drive as int].contents@;
    let ghost old_views = spec_root_entries(*fs, contents0);
    let kk: usize = fs.bpb.sectors_per_cluster as usize * SECTOR_SIZE;
    let num: usize = (data.len() + kk - 1) / kk;
    proof {
        vstd::arithmetic::div_mod::lemma_fundamental_div_mod((data@.len() + kk - 1) as int,
            kk as int);
        assert(data@.len() <= num * kk < data@.len() + kk && (num == 0 ==> data@.len() == 0) && (
        num >= 1 ==> data@.len() > 0)) by (nonlinear_arith)
            requires
                (data@.len() + kk - 1) as int == (kk as int) * (num as int) + ((data@.len() + kk
                    - 1) as int % (kk as int)),
                0 <= (data@.len() + kk - 1) as int % (kk as int) < kk,
                kk >= 1,
        ;
    }
    if num == 0 {
        return Result::Err(Fat12Error::EmptyFile);
    }
    proof {
        lemma_count_free_bound(fat0, 2);
    }
    let mut clusters: Vec<u16> = Vec::new();
    let mut k: usize = 0;
    while k < num
        invariant
            k <= num,
            k <= spec_count_free(fat0),
            fat12_op_frame(*old(fs), *old(ctrl), *fs, *ctrl),
            ctrl == old(ctrl),
            fat0 == old(fs).fat_cache@,
            kk == spec_cluster_bytes(*fs),
            num == (data@.len() + kk - 1) as int / kk as int,
            num >= 1,
            data@.len() > 0,
            clusters@.len() == k,
            spec_count_free(fs.fat_cache@) + k == spec_count_free(fat0),
            forall|j: int| 0 <= j < k ==> #[trigger] clusters@[j] == spec_nth_free(fat0, j),
            forall|j: int| 0 <= j < k ==> spec_is_free(fat0, #[trigger] clusters@[j]),
            forall|j: int|
                0 <= j < k ==> spec_fat_entry(fs.fat_cache@, #[trigger] clusters@[j]) == FAT12_EOF,
            forall|c2: u16|
                fat_has_cluster(fat0, c2) && !clusters@.contains(c2) ==> spec_fat_entry(
                    fs.fat_cache@,
                    c2,
                ) == spec_fat_entry(fat0, c2),
            forall|i1: int, j1: int|
                0 <= i1 < j1 < k ==> #[trigger] clusters@[i1] != #[trigger] clusters@[j1],
        decreases num - k,
    {
        let ghost fat_pre = fs.fat_cache@;
        let ghost pre_list = clusters@;
        match fs.allocate_cluster() {
            Result::Ok(c) => {
                proof {
                    assert(spec_is_free(fat_pre, c));
                    assert(!pre_list.contains(c)) by {
                        if pre_list.contains(c) {
                            let j = choose|j: int| 0 <= j < pre_list.len() && pre_list[j] == c;
                            assert(spec_fat_entry(fat_pre, pre_list[j]) == FAT12_EOF);
                        }
                    }
                    assert(spec_is_free(fat0, c));
                    lemma_least_free_is_nth(fat0, fat_pre, pre_list, c);
                    lemma_count_free_set(fat_pre, fs.fat_cache@, c, 2);
                }
                clusters.push(c);
                proof {
                    assert(clusters@[k as int] == c);
                    assert forall|c2: u16|
                        fat_has_cluster(fat0, c2) && !clusters@.contains(c2) implies spec_fat_entry(
                        fs.fat_cache@,
                        c2,
                    ) == spec_fat_entry(fat0, c2) by {
                        assert(c2 != c) by {
                            if c2 == c {
                                assert(clusters@.contains(c2));
                            }
                        }
                        assert(!pre_list.contains(c2)) by {
                            if pre_list.contains(c2) {
                                let j = choose|j: int|
                                    0 <= j < pre_list.len() && pre_list[j] == c2;
                                assert(clusters@[j] == c2);
                                assert(clusters@.contains(c2));
                            }
                        }
                        assert(spec_fat_entry(fat_pre, c2) == spec_fat_entry(fat0, c2));
                    }
                }
                k += 1;
            },
            Result::Err(_) => {
                proof {
                    lemma_count_free_zero(fs.fat_cache@, 2);
                    assert(spec_count_free(fat0) == k < num);
                    assert forall|c2: u16|
                        fat_has_cluster(fat0, c2) && !spec_is_free(fat0, c2) implies
                        spec_fat_entry(fs.fat_cache@, c2) == spec_fat_entry(fat0, c2) by {
                        assert(!clusters@.contains(c2)) by {
                            if clusters@.contains(c2) {
                                let j = choose|j: int|
                                    0 <= j < clusters@.len() && clusters@[j] == c2;
                                assert(spec_is_free(fat0, clusters@[j]));
                            }
                        }
                    }
                }
                return Result::Err(Fat12Error::NoFreeClusters);
            },
        }
    }
    let n = num;
    let mut i: usize = 0;
    while i + 1 < n
        invariant
            n >= 1,
            i <= n - 1,
            n == num,
            clusters@.len() == n,
            fat12_op_frame(*old(fs), *old(ctrl), *fs, *ctrl),
            ctrl == old(ctrl),
            fat0 == old(fs).fat_cache@,
            forall|j: int| 0 <= j < n ==> #[trigger] clusters@[j] == spec_nth_free(fat0, j),
            forall|j: int| 0 <= j < n ==> spec_is_free(fat0, #[trigger] clusters@[j]),
            forall|i1: int, j1: int|
                0 <= i1 < j1 < n ==> #[trigger] clusters@[i1] != #[trigger] clusters@[j1],
            forall|j: int|
                0 <= j < i ==> spec_fat_entry(fs.fat_cache@, #[trigger] clusters@[j])
                    == clusters@[j + 1],
            forall|j: int|
                i <= j < n ==> spec_fat_entry(fs.fat_cache@, #[trigger] clusters@[j])
                    == FAT12_EOF,
            forall|c2: u16|
                fat_has_cluster(fat0, c2) && !clusters@.contains(c2) ==> spec_fat_entry(
                    fs.fat_cache@,
                    c2,
                ) == spec_fat_entry(fat0, c2),
        decreases n - i,
    {
        let next = clusters[i + 1];
        proof {
            assert(spec_is_free(fat0, clusters@[i + 1]));
            assert(next & 0xFFF == next) by (bit_vector)
                requires
                    next < 0xFF0,
            ;
        }
        let cur = clusters[i];
        fs.set_fat_entry(cur, next);
        proof {
            assert forall|j: int| i + 1 <= j < n implies spec_fat_entry(
                fs.fat_cache@,
                #[trigger] clusters@[j],
            ) == FAT12_EOF by {
                assert(clusters@[j] != clusters@[i as int]);
            }
            assert forall|j: int| 0 <= j < i implies spec_fat_entry(
                fs.fat_cache@,
                #[trigger] clusters@[j],
            ) == clusters@[j + 1] by {
                assert(clusters@[j] != clusters@[i as int]);
            }
            assert forall|c2: u16|
                fat_has_cluster(fat0, c2) && !clusters@.contains(c2) implies spec_fat_entry(
                fs.fat_cache@,
                c2,
            ) == spec_fat_entry(fat0, c2) by {
                assert(c2 != clusters@[i as int]) by {
                    if c2 == clusters@[i as int] {
                        assert(clusters@.contains(c2));
                    }
                }
            }
        }
        i += 1;
    }
    let last = clusters[n - 1];
    proof {
        assert(spec_is_free(fat0, clusters@[n - 1]));
        assert(FAT12_EOF & 0xFFF == FAT12_EOF) by (bit_vector);
    }
    fs.set_fat_entry(last, FAT12_EOF);
    let ghost fat2 = fs.fat_cache@;
    proof {
        assert forall|j: int| 0 <= j < n - 1 implies spec_fat_entry(
            fat2,
            #[trigger] clusters@[j],
        ) == clusters@[j + 1] by {
            assert(clusters@[j] != clusters@[n - 1]);
        }
        assert forall|c2: u16|
            fat_has_cluster(fat0, c2) && !clusters@.contains(c2) implies spec_fat_entry(fat2, c2)
            == spec_fat_entry(fat0, c2) by {
            assert(c2 != clusters@[n - 1]) by {
                if c2 == clusters@[n - 1] {
                    assert(clusters@.contains(c2));
                }
            }
        }
        assert(spec_count_free(fat0) >= num);
        lemma_chain_of_links(fat2, clusters@, 0, MAX_CHAIN_LEN as nat);
        assert(clusters@.subrange(0, n as int) =~= clusters@);
    }
    let mut i: usize = 0;
    while i < n
        invariant
            i <= n,
            n == num >= 1,
            num == (data@.len() + kk - 1) as int / kk as int,
            clusters@.len() == n,
            kk == spec_cluster_bytes(*fs),
            data@.len() + kk <= usize::MAX,
            data@.len() > 0,
            data@.len() <= n * kk < data@.len() + kk,
            fat12_op_frame(*old(fs), *old(ctrl), *fs, *ctrl),
            fat0 == old(fs).fat_cache@,
            contents0 == old(ctrl).devices@[old(fs).drive as int].contents@,
            fs.fat_cache@ == fat2,
            forall|j: int| 0 <= j < n ==> cluster_is_data(#[trigger] clusters@[j]),
            forall|j: int| 0 <= j < n ==> #[trigger] clusters@[j] == spec_nth_free(fat0, j),
            forall|j: int| 0 <= j < n ==> spec_is_free(fat0, #[trigger] clusters@[j]),
            forall|c2: u16|
                fat_has_cluster(fat0, c2) && !clusters@.contains(c2) ==> spec_fat_entry(
                    fat2,
                    c2,
                ) == spec_fat_entry(fat0, c2),
            forall|j: int|
                0 <= j < i ==> spec_cluster_in_range(*fs, *ctrl, #[trigger] clusters@[j]),
            forall|j: int, b: int|
                0 <= j < i && 0 <= b < kk ==> #[trigger] ctrl.devices@[
                    fs.drive as int
                ].contents@[spec_cluster_sector(*fs, clusters@[j]) * SECTOR_SIZE + b]
                    == spec_padded(data@, n as int * kk as int)[j * kk + b],
            forall|p: int|
                0 <= p < contents0.len() && p < fs.data_start_sector * SECTOR_SIZE
                    ==> ctrl.devices@[fs.drive as int].contents@[p] == contents0[p],
            forall|i1: int, j1: int|
                0 <= i1 < j1 < n ==> #[trigger] clusters@[i1] != #[trigger] clusters@[j1],
        decreases n - i,
    {
        proof {
            assert(0 <= i * kk && i * kk + kk <= n * kk) by (nonlinear_arith)
                requires
                    0 <= i < n,
                    kk >= 1,
            ;
        }
        let start: usize = i * kk;
        let end: usize = if start + kk < data.len() {
            start + kk
        } else {
            data.len()
        };
        let mut chunk: Vec<u8> = Vec::new();
        let mut j: usize = start;
        while j < end
            invariant
                start <= j <= end,
                end <= data@.len(),
                chunk@ == data@.subrange(start as int, j as int),
            decreases end - j,
        {
            chunk.push(data[j]);
            proof {
                assert(chunk@ =~= data@.subrange(start as int, j + 1));
            }
            j += 1;
        }
        let ghost pre_contents = ctrl.devices@[fs.drive as int].contents@;
        let c = clusters[i];
        let wrote = fs.write_cluster(ctrl, c, &chunk);
        proof {
            lemma_small_structures(*fs);
            assert((c - 2) * fs.bpb.sectors_per_cluster as int <= 4095 * 255) by (nonlinear_arith)
                requires
                    2 <= c < 0xFF7,
                    fs.bpb.sectors_per_cluster <= 255,
            ;
        }
        match wrote {
            Result::Ok(_) => {},
            Result::Err(_) => {
                proof {
                    assert(!spec_cluster_in_range(*fs, *ctrl, c));
                    assert(spec_is_free(fat0, clusters@[i as int]));
                    assert(!spec_cluster_in_range(*old(fs), *old(ctrl), c));
                    assert(spec_nth_free(old(fs).fat_cache@, i as int) == clusters@[i as int]);
                    assert(exists|k: int|
                        0 <= k < num && (#[trigger] spec_nth_free(old(fs).fat_cache@, k)) < 0xFF0
                            && !spec_cluster_in_range(
                            *old(fs),
                            *old(ctrl),
                            spec_nth_free(old(fs).fat_cache@, k) as u16,
                        )) by {
                        assert(0 <= i < num && (spec_nth_free(old(fs).fat_cache@, i as int))
                            < 0xFF0 && !spec_cluster_in_range(
                            *old(fs),
                            *old(ctrl),
                            spec_nth_free(old(fs).fat_cache@, i as int) as u16,
                        ));
                    }
                    assert forall|c2: u16|
                        fat_has_cluster(fat0, c2) && !spec_is_free(fat0, c2) implies
                        spec_fat_entry(fs.fat_cache@, c2) == spec_fat_entry(fat0, c2) by {
                        assert(!clusters@.contains(c2)) by {
                            if clusters@.contains(c2) {
                                let j = choose|j: int|
                                    0 <= j < clusters@.len() && clusters@[j] == c2;
                                assert(spec_is_free(fat0, clusters@[j]));
                            }
                        }
                    }
                    lemma_root_region_low(*fs);
                    assert(spec_root_region(*fs, ctrl.devices@[fs.drive as int].contents@)
                        =~= spec_root_region(*fs, contents0));
                    assert(spec_root_entries(
                        *old(fs),
                        ctrl.devices@[old(fs).drive as int].contents@,
                    ) == spec_root_entries(*old(fs), contents0));
                    assert(forall|c2: u16|
                        fat_has_cluster(old(fs).fat_cache@, c2) && !spec_is_free(
                            old(fs).fat_cache@,
                            c2,
                        ) ==> spec_fat_entry(fs.fat_cache@, c2) == spec_fat_entry(
                            old(fs).fat_cache@,
                            c2,
                        ));
                    assert forall|p: int|
                        0 <= p < contents0.len() && p < old(fs).data_start_sector
                            * SECTOR_SIZE implies ctrl.devices@[old(fs).drive as int].contents@[p]
                        == contents0[p] by {
                        assert(ctrl.devices@[fs.drive as int].contents@[p] == contents0[p]);
                    }
                }
                return Result::Err(Fat12Error::ClusterWrite);
            },
        }
        proof {
            assert(spec_cluster_in_range(*fs, *ctrl, c));
            let cc = ctrl.devices@[fs.drive as int].contents@;
            let base = spec_cluster_sector(*fs, c) * SECTOR_SIZE;
            assert forall|j2: int, b: int|
                0 <= j2 < i + 1 && 0 <= b < kk implies #[trigger] cc[spec_cluster_sector(
                *fs,
                clusters@[j2],
            ) * SECTOR_SIZE + b] == spec_padded(data@, n as int * kk as int)[j2 * kk + b] by {
                if j2 < i {
                    lemma_cluster_regions_disjoint(*fs, clusters@[j2], c);
                    assert(cc[spec_cluster_sector(*fs, clusters@[j2]) * SECTOR_SIZE + b]
                        == pre_contents[spec_cluster_sector(*fs, clusters@[j2]) * SECTOR_SIZE
                        + b]);
                } else {
                    assert(j2 * kk == start) by (nonlinear_arith)
                        requires
                            j2 == i,
                            start == i * kk,
                    ;
                    if b < chunk@.len() {
                        assert(cc[base + b] == chunk@[b]);
                    } else {
                        assert(cc[base + b] == 0u8);
                        assert(start + b >= data@.len());
                    }
                }
            }
            assert forall|p: int|
                0 <= p < contents0.len() && p < fs.data_start_sector * SECTOR_SIZE implies
                ctrl.devices@[fs.drive as int].contents@[p] == contents0[p] by {
                lemma_cluster_above_root(*fs, c);
                assert(ctrl.devices@[fs.drive as int].contents@[p] == pre_contents[p]);
            }
        }
        i += 1;
    }
    let new_entry = match DirectoryEntry::new_file(filename, clusters[0], data.len() as u32) {
        Result::Ok(e) => e,
        Result::Err(e) => {
            proof {
                lemma_root_region_low(*fs);
                assert(spec_root_region(*fs, ctrl.devices@[fs.drive as int].contents@)
                    =~= spec_root_region(*fs, contents0));
                lemma_create_mirror_untouched(fat0, fs.fat_cache@, clusters@);
            }
            return Result::Err(e);
        },
    };
    proof {
        lemma_root_region_low(*fs);
        assert(spec_root_region(*fs, ctrl.devices@[fs.drive as int].contents@) =~= spec_root_region(
            *fs,
            contents0,
        ));
        lemma_create_mirror_untouched(fat0, fs.fat_cache@, clusters@);
    }
    let entries = match fs.fat12_read_root_directory(ctrl) {
        Result::Ok(es) => es,
        Result::Err(e) => {
            return Result::Err(e);
        },
    };
    let ghost cur_views = spec_root_entries(*fs, ctrl.devices@[fs.drive as int].contents@);
    proof {
        assert(cur_views == old_views);
    }
    let fname = filename.as_bytes();
    let mut sidx: usize = 0;
    while sidx < entries.len()
        invariant
            sidx <= entries@.len(),
            fat12_op_frame(*old(fs), *old(ctrl), *fs, *ctrl),
            fat0 == old(fs).fat_cache@,
            kk == spec_cluster_bytes(*fs),
            num == (data@.len() + kk - 1) as int / kk as int,
            data@.len() > 0,
            contents0 == old(ctrl).devices@[old(fs).drive as int].contents@,
            old_views == spec_root_entries(*old(fs), contents0),
            forall|c2: u16|
                fat_has_cluster(fat0, c2) && !spec_is_free(fat0, c2) ==> spec_fat_entry(
                    fs.fat_cache@,
                    c2,
                ) == spec_fat_entry(fat0, c2),
            forall|p: int|
                0 <= p < contents0.len() && p < fs.data_start_sector * SECTOR_SIZE
                    ==> ctrl.devices@[fs.drive as int].contents@[p] == contents0[p],
            entries_view(entries@) == cur_views,
            cur_views == old_views,
            cur_views == spec_root_entries(*fs, ctrl.devices@[fs.drive as int].contents@),
            spec_root_region(*fs, ctrl.devices@[fs.drive as int].contents@) == spec_root_region(
                *fs,
                contents0,
            ),
            fname@ == filename.spec_bytes(),
            forall|q: int| 0 <= q < entries@.len() ==> entry_wf(#[trigger] entries@[q]@),
            spec_find_idx(cur_views, filename.spec_bytes(), 0) == spec_find_idx(
                cur_views,
                filename.spec_bytes(),
                sidx as int,
            ),
        decreases entries@.len() - sidx,
    {
        let name = entries[sidx].display_name_bytes();
        proof {
            assert(entries_view(entries@)[sidx as int] == entries@[sidx as int]@);
        }
        if names_equal_ci(&name, fname) {
            proof {
                assert(spec_matches(cur_views[sidx as int], filename.spec_bytes()));
                assert(spec_find_idx(cur_views, filename.spec_bytes(), sidx as int) == sidx);
            }
            return Result::Err(Fat12Error::AlreadyExists);
        }
        sidx += 1;
    }
    proof {
        lemma_root_size_bound(*fs);
    }
    let root_size: usize = fs.root_dir_sectors as usize * SECTOR_SIZE;
    let cap: usize = {
        let m = root_size / 32;
        if (fs.bpb.root_entry_count as usize) < m {
            fs.bpb.root_entry_count as usize
        } else {
            m
        }
    };
    if entries.len() >= cap {
        proof {
            assert(entries_view(entries@).len() == entries@.len());
        }
        return Result::Err(Fat12Error::RootFull);
    }
    let mut entries = entries;
    let ghost pre_push = entries@;
    entries.push(new_entry);
    proof {
        vstd::arithmetic::div_mod::lemma_fundamental_div_mod(root_size as int, 32);
        assert(cap * 32 <= root_size) by (nonlinear_arith)
            requires
                cap <= root_size as int / 32,
                root_size as int == 32 * (root_size as int / 32) + root_size as int % 32,
                0 <= root_size as int % 32 < 32,
        ;
        assert(entries@.len() * 32 <= spec_root_size(*fs)) by (nonlinear_arith)
            requires
                entries@.len() <= cap,
                cap * 32 <= spec_root_size(*fs),
        ;
        assert(entries_view(entries@) =~= entries_view(pre_push) + seq![new_entry@]);
    }
    let ghost pre_root_contents = ctrl.devices@[fs.drive as int].contents@;
    match fs.write_root_directory(ctrl, &entries) {
        Result::Ok(_) => {},
        Result::Err(e) => {
            return Result::Err(e);
        },
    }
    let ghost mid_contents = ctrl.devices@[fs.drive as int].contents@;
    match fs.flush_fat(ctrl) {
        Result::Ok(_) => {},
        Result::Err(e) => {
            return Result::Err(e);
        },
    }
    proof {
        let new_contents = ctrl.devices@[fs.drive as int].contents@;
        lemma_root_above_fat(*fs);
        lemma_root_region_low(*fs);
        assert(spec_root_region(*fs, new_contents) =~= spec_root_region(*fs, mid_contents));
        let region = spec_root_region(*fs, new_contents);
        let vlist = entries_view(entries@);
        assert forall|q: int| 0 <= q < vlist.len() implies spec_entry_at(region, 32 * q)
            == #[trigger] vlist[q] by {
            assert(entries_view(entries@)[q] == entries@[q]@);
            lemma_entry_at_agrees(region, spec_root_region(*fs, mid_contents), 32 * q);
        }
        assert forall|q: int| 0 <= q < vlist.len() implies spec_is_live(#[trigger] vlist[q]) by {
            assert(entries_view(entries@)[q] == entries@[q]@);
            if q < pre_push.len() {
                assert(entries@[q]@ == pre_push[q]@);
                assert(spec_is_live(pre_push[q]@));
            } else {
                assert(entries@[q]@ == new_entry@);
                assert(0x20u8 & 0x08u8 == 0u8) by (bit_vector);
                assert(spec_is_live(new_entry@));
            }
        }
        assert(32 * spec_root_cap(*fs) <= region.len()) by {
            vstd::arithmetic::div_mod::lemma_fundamental_div_mod(spec_root_size(*fs), 32);
            assert(32 * (spec_root_size(*fs) / 32) <= spec_root_size(*fs));
        }
        lemma_parse_serialized(region, vlist, 0, spec_root_cap(*fs));
        lemma_live_all(vlist, 0);
        let new_views = spec_root_entries(*fs, new_contents);
        assert(new_views =~= vlist);
        assert(new_views.subrange(0, old_views.len() as int) =~= old_views);
        let ne = new_views.last();
        assert(ne == new_entry@);
        assert(fs.fat_cache@ == fat2);
        let chain = spec_chain(fat2, clusters@[0], MAX_CHAIN_LEN as nat);
        assert(chain == clusters@);
        assert forall|k2: int| 0 <= k2 < chain.len() implies #[trigger] chain[k2]
            == spec_nth_free(fat0, k2) by {
            assert(clusters@[k2] == spec_nth_free(fat0, k2));
        }
        assert(spec_chain_readable(*fs, *ctrl, chain)) by {
            assert forall|k2: int|
                0 <= k2 < chain.len() implies spec_cluster_in_range(
                *fs,
                *ctrl,
                #[trigger] chain[k2],
            ) by {
                assert(spec_cluster_in_range(*fs, *ctrl, clusters@[k2]));
            }
        }
        let kkk = spec_cluster_bytes(*fs);
        assert forall|j2: int, b: int|
            0 <= j2 < n && 0 <= b < kkk implies #[trigger] new_contents[spec_cluster_sector(
            *fs,
            clusters@[j2],
        ) * SECTOR_SIZE + b] == spec_padded(data@, n as int * kkk)[j2 * kkk + b] by {
            lemma_cluster_above_root(*fs, clusters@[j2]);
            let p = spec_cluster_sector(*fs, clusters@[j2]) * SECTOR_SIZE + b;
            assert(spec_cluster_in_range(*fs, *ctrl, clusters@[j2]));
            assert(p < new_contents.len() && fs.data_start_sector * 512 <= p) by (nonlinear_arith)
                requires
                    spec_cluster_sector(*fs, clusters@[j2]) + fs.bpb.sectors_per_cluster
                        <= ctrl.devices@[fs.drive as int].info.size,
                    0 <= b < kkk,
                    kkk == fs.bpb.sectors_per_cluster * 512,
                    p == spec_cluster_sector(*fs, clusters@[j2]) * 512 + b,
                    new_contents.len() == ctrl.devices@[fs.drive as int].info.size * 512,
                    fs.data_start_sector * 512 <= spec_cluster_sector(*fs, clusters@[j2]) * 512,
            ;
            assert(new_contents[p] == mid_contents[p]);
            assert(mid_contents[p] == pre_root_contents[p]);
        }
        assert forall|j2: int|
            0 <= j2 < n implies 0 <= spec_cluster_sector(*fs, #[trigger] clusters@[j2])
            * SECTOR_SIZE && spec_cluster_sector(*fs, clusters@[j2]) * SECTOR_SIZE + kkk
            <= new_contents.len() by {
            lemma_cluster_above_root(*fs, clusters@[j2]);
            assert(spec_cluster_in_range(*fs, *ctrl, clusters@[j2]));
            assert(spec_cluster_sector(*fs, clusters@[j2]) * 512 + kkk <= new_contents.len()) by (
            nonlinear_arith)
                requires
                    spec_cluster_sector(*fs, clusters@[j2]) + fs.bpb.sectors_per_cluster
                        <= ctrl.devices@[fs.drive as int].info.size,
                    kkk == fs.bpb.sectors_per_cluster * 512,
                    new_contents.len() == ctrl.devices@[fs.drive as int].info.size * 512,
                    spec_cluster_sector(*fs, clusters@[j2]) >= 0,
            ;
        }
        lemma_chain_content(*fs, new_contents, clusters@, data@, 0);
        assert(clusters@.subrange(0, n as int) =~= clusters@);
        let padded = spec_padded(data@, n as int * kkk);
        assert(spec_chain_data(*fs, new_contents, clusters@) =~= padded) by {
            assert(padded.subrange(0, n as int * kkk) =~= padded);
        }
        assert(spec_file_content(*fs, new_contents, fat2, ne) =~= data@) by {
            assert(ne.file_size == data@.len());
            assert(padded.take(data@.len() as int) =~= data@);
        }
        assert(chain.no_duplicates());
    }
    Result::Ok(())
}

/// A create touches only clusters it claimed, and it claims only free
/// ones: every non-free cluster keeps its FAT entry.
proof fn lemma_create_mirror_untouched(fat0: Seq<u8>, fat: Seq<u8>, cs: Seq<u16>)
    requires
        forall|j: int| 0 <= j < cs.len() ==> spec_is_free(fat0, #[trigger] cs[j]),
        forall|c2: u16|
            fat_has_cluster(fat0, c2) && !cs.contains(c2) ==> spec_fat_entry(fat, c2)
                == spec_fat_entry(fat0, c2),
    ensures
        forall|c2: u16|
            fat_has_cluster(fat0, c2) && !spec_is_free(fat0, c2) ==> spec_fat_entry(fat, c2)
                == spec_fat_entry(fat0, c2),
{
    assert forall|c2: u16|
        fat_has_cluster(fat0, c2) && !spec_is_free(fat0, c2) implies spec_fat_entry(fat, c2)
        == spec_fat_entry(fat0, c2) by {
        assert(!cs.contains(c2)) by {
            if cs.contains(c2) {
                let j = choose|j: int| 0 <= j < cs.len() && cs[j] == c2;
                assert(spec_is_free(fat0, cs[j]));
            }
        }
    }
}

/// The root directory region sits below the data region.
proof fn lemma_root_region_low(fs: Fat12)
    requires
        fs_wf(fs),
    ensures
        spec_root_start_byte(fs) + spec_root_size(fs) <= fs.data_start_sector * SECTOR_SIZE,
        spec_root_start_byte(fs) >= 0,
{
    assert((fs.root_dir_start_sector + fs.root_dir_sectors) * 512 == fs.root_dir_start_sector * 512
        + fs.root_dir_sectors * 512) by (nonlinear_arith);
}

/// The FAT copies sit below the root directory region.
proof fn lemma_root_above_fat(fs: Fat12)
    requires
        fs_wf(fs),
    ensures
        spec_fat_copy_base(fs, fs.bpb.num_fats as int) <= spec_root_start_byte(fs),
        spec_fat_copy_base(fs, 0) >= 0,
{
    assert((fs.fat_start_sector + fs.bpb.num_fats * fs.bpb.fat_size_16) * 512
        <= fs.root_dir_start_sector * 512) by (nonlinear_arith)
        requires
            fs.root_dir_start_sector == fs.fat_start_sector + fs.bpb.num_fats
                * fs.bpb.fat_size_16,
    ;
}

} // verus!

verus! {

/// Shape of a chain walk: every visited cluster is a FAT-covered data
/// cluster, consecutive ones are linked, and a walk that did not use up its
/// fuel ends at an end-of-chain mark.
proof fn lemma_chain_structure(fat: Seq<u8>, c: u16, fuel: nat)
    ensures
        ({
            let chain = spec_chain(fat, c, fuel);
            &&& forall|k: int|
                0 <= k < chain.len() ==> cluster_is_data(#[trigger] chain[k]) && fat_has_cluster(
                    fat,
                    chain[k],
                )
            &&& forall|k: int|
                0 <= k < chain.len() - 1 ==> spec_fat_entry(fat, #[trigger] chain[k]) < FAT12_EOF
                    && chain[k + 1] == spec_fat_entry(fat, chain[k])
            &&& (chain.len() > 0 ==> chain[0] == c)
            &&& (spec_chain_ends(fat, c, fuel) && chain.len() > 0 ==> {
                let last_link = spec_fat_entry(fat, chain[chain.len() - 1]);
                last_link >= FAT12_EOF || !cluster_is_data(last_link) || !fat_has_cluster(
                    fat,
                    last_link,
                )
            })
        }),
    decreases fuel,
{
    let chain = spec_chain(fat, c, fuel);
    if fuel == 0 || !cluster_is_data(c) || !fat_has_cluster(fat, c) {
    } else {
        let next = spec_fat_entry(fat, c);
        if next >= FAT12_EOF {
            assert(chain =~= seq![c]);
            assert(chain[0] == c);
        } else {
            lemma_chain_structure(fat, next, (fuel - 1) as nat);
            let sub = spec_chain(fat, next, (fuel - 1) as nat);
            assert forall|k: int|
                0 <= k < chain.len() - 1 implies spec_fat_entry(fat, #[trigger] chain[k])
                < FAT12_EOF && chain[k + 1] == spec_fat_entry(fat, chain[k]) by {
                if k > 0 {
                    assert(chain[k] == sub[k - 1]);
                    assert(chain[k + 1] == sub[k]);
                } else {
                    if sub.len() == 0 {
                    } else {
                        assert(sub[0] == next);
                    }
                }
            }
            assert forall|k: int|
                0 <= k < chain.len() implies cluster_is_data(#[trigger] chain[k])
                && fat_has_cluster(fat, chain[k]) by {
                if k > 0 {
                    assert(chain[k] == sub[k - 1]);
                }
            }
            assert(chain[0] == c);
            if sub.len() > 0 {
                assert(chain[chain.len() - 1] == sub[sub.len() - 1]);
            } else {
                assert(chain =~= seq![c]);
                if cluster_is_data(next) && fat_has_cluster(fat, next) {
                    assert(fuel - 1 == 0);
                    assert(!spec_chain_ends(fat, next, (fuel - 1) as nat));
                }
            }
        }
    }
}

/// Delete `filename`: free its cluster chain in the FAT mirror, mark the
/// directory slot deleted, write the directory back and flush the FAT.
#[verifier::rlimit(80)]
pub fn fat12_delete_file(fs: &mut Fat12, ctrl: &mut IdeController, filename: &str) -> (r: Result<
    (),
    Fat12Error,
>)
    requires
        fs_wf(*old(fs)),
        fat12_device_ok(*old(fs), *old(ctrl)),
    ensures
        fat12_op_frame(*old(fs), *old(ctrl), *final(fs), *final(ctrl)),
        ({
            let old_contents = old(ctrl).devices@[old(fs).drive as int].contents@;
            let new_contents = final(ctrl).devices@[old(fs).drive as int].contents@;
            let old_views = spec_root_entries(*old(fs), old_contents);
            let fname = filename.spec_bytes();
            let idx = spec_find_idx(old_views, fname, 0);
            let fat0 = old(fs).fat_cache@;
            match r {
                Result::Ok(_) => {
                    &&& idx >= 0
                    &&& spec_root_entries(*final(fs), new_contents) == old_views.remove(idx)
                    &&& ({
                        let region = spec_root_region(*old(fs), new_contents);
                        &&& forall|q: int|
                            0 <= q < old_views.len() ==> #[trigger] spec_entry_at(region, 32 * q)
                                == (if q == idx {
                                DirEntryV {
                                    name: old_views[idx].name.update(0, 0xE5u8),
                                    ..old_views[idx]
                                }
                            } else {
                                old_views[q]
                            })
                        &&& forall|j: int|
                            old_views.len() * 32 <= j < spec_root_size(*old(fs))
                                ==> #[trigger] region[j] == 0u8
                    })
                    &&& ({
                        let chain = spec_chain(fat0, old_views[idx].first_cluster,
                            MAX_CHAIN_LEN as nat);
                        let fat2 = final(fs).fat_cache@;
                        spec_chain_ends(fat0, old_views[idx].first_cluster, MAX_CHAIN_LEN as nat)
                            && chain.no_duplicates() ==> {
                            &&& forall|k: int|
                                0 <= k < chain.len() ==> spec_fat_entry(fat2, #[trigger] chain[k])
                                    == FAT12_FREE_CLUSTER
                            &&& forall|c2: u16|
                                fat_has_cluster(fat0, c2) && !chain.contains(c2)
                                    ==> spec_fat_entry(fat2, c2) == spec_fat_entry(fat0, c2)
                        }
                    })
                    &&& forall|f: int|
                        0 <= f < old(fs).bpb.num_fats ==> new_contents.subrange(
                            spec_fat_copy_base(*old(fs), f),
                            spec_fat_copy_base(*old(fs), f) + old(fs).bpb.fat_size_16
                                * SECTOR_SIZE,
                        ) == final(fs).fat_cache@
                },
                Result::Err(err) => {
                    &&& err == Fat12Error::NotFound
                    &&& idx == -1
                    &&& final(fs).fat_cache@ == fat0
                    &&& new_contents == old_contents
                },
            }
        }),
{
    let ghost fat0 = fs.fat_cache@;
    let ghost contents0 = ctrl.devices@[fs.drive as int].contents@;
    let ghost old_views = spec_root_entries(*fs, contents0);
    let mut entries = match fs.fat12_read_root_directory(ctrl) {
        Result::Ok(es) => es,
        Result::Err(e) => {
            return Result::Err(e);
        },
    };
    let fname = filename.as_bytes();
    let mut found_index: usize = entries.len();
    let mut first_cluster: u16 = 0;
    let mut sidx: usize = 0;
    while sidx < entries.len() && found_index == entries.len()
        invariant
            sidx <= entries@.len(),
            fat12_op_frame(*old(fs), *old(ctrl), *fs, *ctrl),
            ctrl == old(ctrl),
            fs.fat_cache@ == fat0,
            fat0 == old(fs).fat_cache@,
            contents0 == old(ctrl).devices@[old(fs).drive as int].contents@,
            old_views == spec_root_entries(*old(fs), contents0),
            entries_view(entries@) == old_views,
            fname@ == filename.spec_bytes(),
            forall|q: int|
                0 <= q < entries@.len() ==> entry_wf(#[trigger] entries@[q]@) && spec_is_live(
                    entries@[q]@,
                ),
            found_index <= entries@.len(),
            found_index == entries@.len() ==> spec_find_idx(old_views, filename.spec_bytes(), 0)
                == spec_find_idx(old_views, filename.spec_bytes(), sidx as int),
            found_index < entries@.len() ==> spec_find_idx(old_views, filename.spec_bytes(), 0)
                == found_index && first_cluster == old_views[found_index as int].first_cluster,
        decreases entries@.len() - sidx, (if found_index == entries@.len() {
            1int
        } else {
            0int
        }),
    {
        let name = entries[sidx].display_name_bytes();
        proof {
            assert(entries_view(entries@)[sidx as int] == entries@[sidx as int]@);
        }
        if names_equal_ci(&name, fname) {
            proof {
                assert(spec_matches(old_views[sidx as int], filename.spec_bytes()));
                assert(spec_find_idx(old_views, filename.spec_bytes(), sidx as int) == sidx);
            }
            found_index = sidx;
            first_cluster = entries[sidx].first_cluster;
        } else {
            sidx += 1;
        }
    }
    if found_index == entries.len() {
        return Result::Err(Fat12Error::NotFound);
    }
    let index = found_index;
    let ghost gidx = index as int;
    let ghost chain = spec_chain(fat0, first_cluster, MAX_CHAIN_LEN as nat);
    let ghost hyp = spec_chain_ends(fat0, first_cluster, MAX_CHAIN_LEN as nat)
        && chain.no_duplicates();
    proof {
        lemma_chain_structure(fat0, first_cluster, MAX_CHAIN_LEN as nat);
    }
    let mut cluster: u16 = first_cluster;
    let mut steps: usize = 0;
    let ghost mut kcnt: int = 0;
    loop
        invariant_except_break
            hyp ==> {
                &&& kcnt == steps
                &&& (kcnt < chain.len() ==> cluster == chain[kcnt])
                &&& (kcnt == chain.len() ==> !(cluster_is_data(cluster) && fat_has_cluster(
                    fat0,
                    cluster,
                )))
            },
        invariant
            fat12_op_frame(*old(fs), *old(ctrl), *fs, *ctrl),
            ctrl == old(ctrl),
            fat0 == old(fs).fat_cache@,
            steps <= MAX_CHAIN_LEN + 1,
            chain == spec_chain(fat0, first_cluster, MAX_CHAIN_LEN as nat),
            hyp == (spec_chain_ends(fat0, first_cluster, MAX_CHAIN_LEN as nat)
                && chain.no_duplicates()),
            hyp ==> {
                &&& 0 <= kcnt <= chain.len()
                &&& forall|j: int|
                    0 <= j < kcnt ==> spec_fat_entry(fs.fat_cache@, #[trigger] chain[j])
                        == FAT12_FREE_CLUSTER
                &&& forall|j: int|
                    kcnt <= j < chain.len() ==> spec_fat_entry(fs.fat_cache@, #[trigger] chain[j])
                        == spec_fat_entry(fat0, chain[j])
                &&& forall|c2: u16|
                    fat_has_cluster(fat0, c2) && !chain.contains(c2) ==> spec_fat_entry(
                        fs.fat_cache@,
                        c2,
                    ) == spec_fat_entry(fat0, c2)
            },
        ensures
            fat12_op_frame(*old(fs), *old(ctrl), *fs, *ctrl),
            ctrl == old(ctrl),
            hyp ==> {
                &&& forall|j: int|
                    0 <= j < chain.len() ==> spec_fat_entry(fs.fat_cache@, #[trigger] chain[j])
                        == FAT12_FREE_CLUSTER
                &&& forall|c2: u16|
                    fat_has_cluster(fat0, c2) && !chain.contains(c2) ==> spec_fat_entry(
                        fs.fat_cache@,
                        c2,
                    ) == spec_fat_entry(fat0, c2)
            },
        decreases MAX_CHAIN_LEN + 2 - steps,
    {
        if !(cluster >= 2 && cluster < FAT12_BAD_CLUSTER && fat_off_end(cluster)
            < fs.fat_cache.len()) {
            proof {
                if hyp {
                    lemma_chain_structure(fat0, first_cluster, MAX_CHAIN_LEN as nat);
                    if kcnt < chain.len() {
                        assert(cluster_is_data(chain[kcnt]) && fat_has_cluster(fat0, chain[kcnt]));
                        assert(fs.fat_cache@.len() == fat0.len());
                        assert(false);
                    }
                }
            }
            break ;
        }
        if steps > MAX_CHAIN_LEN {
            proof {
                if hyp {
                    assert(kcnt == steps > MAX_CHAIN_LEN);
                    assert(chain.len() <= MAX_CHAIN_LEN) by {
                        lemma_chain_len_bound(fat0, first_cluster, MAX_CHAIN_LEN as nat);
                    }
                    assert(false);
                }
            }
            break ;
        }
        let next = fs.get_fat_entry(cluster);
        let ghost fat_pre = fs.fat_cache@;
        fs.set_fat_entry(cluster, FAT12_FREE_CLUSTER);
        proof {
            assert(0u16 & 0xFFF == 0u16) by (bit_vector);
            if hyp {
                lemma_chain_structure(fat0, first_cluster, MAX_CHAIN_LEN as nat);
                assert(kcnt < chain.len());
                assert(cluster == chain[kcnt]);
                assert(spec_fat_entry(fat_pre, cluster) == spec_fat_entry(fat0, cluster));
                assert forall|j: int| 0 <= j < kcnt + 1 implies spec_fat_entry(
                    fs.fat_cache@,
                    #[trigger] chain[j],
                ) == FAT12_FREE_CLUSTER by {
                    if j < kcnt {
                        assert(chain[j] != chain[kcnt]);
                    }
                }
                assert forall|j: int| kcnt + 1 <= j < chain.len() implies spec_fat_entry(
                    fs.fat_cache@,
                    #[trigger] chain[j],
                ) == spec_fat_entry(fat0, chain[j]) by {
                    assert(chain[j] != chain[kcnt]);
                }
                assert forall|c2: u16|
                    fat_has_cluster(fat0, c2) && !chain.contains(c2) implies spec_fat_entry(
                    fs.fat_cache@,
                    c2,
                ) == spec_fat_entry(fat0, c2) by {
                    assert(c2 != chain[kcnt]) by {
                        if c2 == chain[kcnt] {
                            assert(chain.contains(c2));
                        }
                    }
                }
            }
        }
        steps += 1;
        proof {
            if hyp {
                kcnt = kcnt + 1;
            }
        }
        if next >= FAT12_EOF {
            proof {
                if hyp {
                    lemma_chain_structure(fat0, first_cluster, MAX_CHAIN_LEN as nat);
                    if kcnt < chain.len() {
                        assert(spec_fat_entry(fat0, chain[kcnt - 1]) < FAT12_EOF);
                        assert(false);
                    }
                    assert(kcnt == chain.len());
                }
            }
            break ;
        }
        proof {
            if hyp {
                lemma_chain_structure(fat0, first_cluster, MAX_CHAIN_LEN as nat);
                if kcnt == chain.len() {
                    let last_link = spec_fat_entry(fat0, chain[kcnt - 1]);
                    assert(last_link == next);
                    assert(!cluster_is_data(next) || !fat_has_cluster(fat0, next));
                } else {
                    assert(chain[kcnt] == spec_fat_entry(fat0, chain[kcnt - 1]));
                }
            }
        }
        cluster = next;
    }
    let ghost fat2 = fs.fat_cache@;
    let ghost pre_mark = entries@;
    proof {
        assert(index < entries@.len());
        assert(entry_wf(entries@[index as int]@));
        assert(entries@[index as int].name@.len() == 11);
    }
    entries[index].name[0] = 0xE5;
    proof {
        assert(entries@[gidx]@.name =~= pre_mark[gidx]@.name.update(0, 0xE5u8));
        assert(entry_wf(entries@[gidx]@));
        assert(spec_is_deleted(entries@[gidx]@));
        assert forall|q: int| 0 <= q < entries@.len() implies entry_wf(
            #[trigger] entries@[q]@,
        ) by {
            if q != gidx {
                assert(entries@[q] == pre_mark[q]);
            }
        }
        assert(entries@.len() * 32 <= spec_root_size(*fs)) by {
            assert(entries_view(pre_mark).len() == pre_mark.len());
            assert(old_views.len() <= spec_root_cap(*fs)) by {
                lemma_parse_len_bound(
                    spec_root_region(*fs, contents0),
                    0,
                    spec_root_cap(*fs),
                );
            }
            vstd::arithmetic::div_mod::lemma_fundamental_div_mod(spec_root_size(*fs), 32);
            assert(entries@.len() * 32 <= spec_root_cap(*fs) * 32 <= spec_root_size(*fs)) by (
            nonlinear_arith)
                requires
                    entries@.len() <= spec_root_cap(*fs),
                    spec_root_cap(*fs) <= spec_root_size(*fs) / 32,
                    spec_root_size(*fs) == 32 * (spec_root_size(*fs) / 32) + spec_root_size(*fs)
                        % 32,
                    0 <= spec_root_size(*fs) % 32 < 32,
            ;
        }
    }
    match fs.write_root_directory(ctrl, &entries) {
        Result::Ok(_) => {},
        Result::Err(e) => {
            return Result::Err(e);
        },
    }
    let ghost mid_contents = ctrl.devices@[fs.drive as int].contents@;
    match fs.flush_fat(ctrl) {
        Result::Ok(_) => {},
        Result::Err(e) => {
            return Result::Err(e);
        },
    }
    proof {
        let new_contents = ctrl.devices@[fs.drive as int].contents@;
        lemma_root_above_fat(*fs);
        lemma_root_region_low(*fs);
        assert(spec_root_region(*fs, new_contents) =~= spec_root_region(*fs, mid_contents));
        let region = spec_root_region(*fs, new_contents);
        let vlist = entries_view(entries@);
        assert(vlist.len() == entries@.len());
        assert forall|q: int| 0 <= q < vlist.len() implies spec_entry_at(region, 32 * q)
            == #[trigger] vlist[q] by {
            assert(entries_view(entries@)[q] == entries@[q]@);
            lemma_entry_at_agrees(region, spec_root_region(*fs, mid_contents), 32 * q);
        }
        assert forall|q: int| 0 <= q < vlist.len() implies !spec_is_empty(#[trigger] vlist[q])
            && (q != gidx ==> spec_is_live(vlist[q])) by {
            assert(entries_view(entries@)[q] == entries@[q]@);
            if q != gidx {
                assert(entries@[q] == pre_mark[q]);
                assert(spec_is_live(pre_mark[q]@));
            }
        }
        assert(32 * spec_root_cap(*fs) <= region.len()) by {
            vstd::arithmetic::div_mod::lemma_fundamental_div_mod(spec_root_size(*fs), 32);
            assert(32 * (spec_root_size(*fs) / 32) <= spec_root_size(*fs));
        }
        assert(vlist.len() <= spec_root_cap(*fs)) by {
            lemma_parse_len_bound(spec_root_region(*fs, contents0), 0, spec_root_cap(*fs));
            assert(entries_view(pre_mark).len() == pre_mark.len());
        }
        lemma_parse_serialized(region, vlist, 0, spec_root_cap(*fs));
        lemma_live_one_skipped(vlist, gidx, 0);
        let new_views = spec_root_entries(*fs, new_contents);
        assert forall|q: int| 0 <= q < vlist.len() && q != gidx implies #[trigger] vlist[q]
            == old_views[q] by {
            assert(entries@[q] == pre_mark[q]);
            assert(entries_view(pre_mark)[q] == pre_mark[q]@);
        }
        assert(new_views =~= old_views.remove(gidx));
        assert(vlist.len() == pre_mark.len() && pre_mark.len() == old_views.len());
        assert forall|q: int| 0 <= q < old_views.len() implies #[trigger] spec_entry_at(
            region,
            32 * q,
        ) == (if q == gidx {
            DirEntryV { name: old_views[gidx].name.update(0, 0xE5u8), ..old_views[gidx] }
        } else {
            old_views[q]
        }) by {
            assert(spec_entry_at(region, 32 * q) == vlist[q]);
            assert(vlist[q] == entries@[q]@);
            if q == gidx {
                assert(entries_view(pre_mark)[q] == pre_mark[q]@);
                assert(pre_mark[gidx]@ == old_views[gidx]);
                assert(entries@[gidx]@.name =~= old_views[gidx].name.update(0, 0xE5u8));
            } else {
                assert(entries@[q] == pre_mark[q]);
                assert(entries_view(pre_mark)[q] == pre_mark[q]@);
            }
        }
        assert forall|j: int|
            old_views.len() * 32 <= j < spec_root_size(*old(fs)) implies #[trigger] region[j]
            == 0u8 by {
            assert(region[j] == spec_root_region(*fs, mid_contents)[j]);
        }
        assert(spec_find_idx(old_views, filename.spec_bytes(), 0) == gidx >= 0);
        assert(first_cluster == old_views[gidx].first_cluster);
        assert(fs.fat_cache@ == fat2);
        assert forall|f: int| 0 <= f < old(fs).bpb.num_fats implies new_contents.subrange(
            spec_fat_copy_base(*old(fs), f),
            spec_fat_copy_base(*old(fs), f) + old(fs).bpb.fat_size_16 * SECTOR_SIZE,
        ) == fs.fat_cache@ by {
            assert(spec_fat_copy_base(*old(fs), f) == spec_fat_copy_base(*fs, f));
        }
    }
    Result::Ok(())
}

/// A chain is never longer than its fuel.
proof fn lemma_chain_len_bound(fat: Seq<u8>, c: u16, fuel: nat)
    ensures
        spec_chain(fat, c, fuel).len() <= fuel,
    decreases fuel,
{
    if fuel > 0 && cluster_is_data(c) && fat_has_cluster(fat, c) {
        let next = spec_fat_entry(fat, c);
        if next < FAT12_EOF {
            lemma_chain_len_bound(fat, next, (fuel - 1) as nat);
        }
    }
}

/// A parsed directory never holds more entries than the slots scanned.
proof fn lemma_parse_len_bound(b: Seq<u8>, i: int, n: int)
    requires
        0 <= i <= n,
    ensures
        spec_parse_root(b, i, n).len() <= n - i,
    decreases n - i,
{
    if i < n {
        let e = spec_entry_at(b, 32 * i);
        if !spec_is_empty(e) {
            lemma_parse_len_bound(b, i + 1, n);
        }
    }
}

} // verus!

verus! {

/// Extending the directory with an entry for a name nothing answered to
/// makes the search find exactly the new entry.
proof fn lemma_find_push(views: Seq<DirEntryV>, e: DirEntryV, fname: Seq<u8>, i: int)
    requires
        0 <= i <= views.len(),
        spec_find_idx(views, fname, i) == -1,
        spec_matches(e, fname),
    ensures
        spec_find_idx(views.push(e), fname, i) == views.len() as int,
    decreases views.len() - i,
{
    if i < views.len() {
        assert(views.push(e)[i] == views[i]);
        lemma_find_push(views, e, fname, i + 1);
    } else {
        assert(views.push(e)[i] == e);
    }
}

/// The directory-level round trip: a file created under a fresh name is
/// found, and it is exactly the new entry; deleting that entry leaves the
/// name unknown again.
pub proof fn lemma_round_trip_lookup(views: Seq<DirEntryV>, e: DirEntryV, fname: Seq<u8>)
    requires
        spec_find_idx(views, fname, 0) == -1,
        spec_matches(e, fname),
    ensures
        spec_find_idx(views.push(e), fname, 0) == views.len() as int,
        views.push(e)[views.len() as int] == e,
        spec_find_idx(views.push(e).remove(views.len() as int), fname, 0) == -1,
{
    lemma_find_push(views, e, fname, 0);
    assert(views.push(e).remove(views.len() as int) =~= views);
}

} // verus!

verus! {

/// Upper-casing never makes or unmakes a space, and doing it twice is
/// doing it once.
proof fn lemma_upper_byte_facts(b: u8)
    ensures
        spec_upper(spec_upper(b)) == spec_upper(b),
        (spec_upper(b) == 32) == (b == 32),
{
}

/// The dot the name scan stops at really is a dot.
proof fn lemma_first_dot_hit(s: Seq<u8>, i: int)
    requires
        0 <= i <= s.len(),
        spec_first_dot(s, i) < s.len(),
    ensures
        s[spec_first_dot(s, i)] == 46u8,
    decreases s.len() - i,
{
    if i < s.len() && s[i] != 46u8 {
        lemma_first_dot_hit(s, i + 1);
    }
}

/// A stem of non-space bytes followed by padding ends exactly at its
/// length.
proof fn lemma_stem_scan(n: Seq<u8>, sl: int, i: int)
    requires
        n.len() == 11,
        0 <= i <= sl <= 8,
        forall|j: int| i <= j < sl ==> n[j] != 32u8,
        sl < 8 ==> n[sl] == 32u8,
    ensures
        spec_stem_end(n, i) == sl,
    decreases sl - i,
{
    if i < sl {
        lemma_stem_scan(n, sl, i + 1);
    }
}

/// Space padding holds no extension characters.
proof fn lemma_ext_spaces(n: Seq<u8>, q: int)
    requires
        n.len() == 11,
        0 <= q <= 11,
        forall|r: int| q <= r < 11 ==> n[r] == 32u8,
    ensures
        spec_ext_seq(n, q) == Seq::<u8>::empty(),
    decreases 11 - q,
{
    if q < 11 {
        lemma_ext_spaces(n, q + 1);
    }
}

/// An extension of non-space bytes followed by padding reads back whole.
proof fn lemma_ext_scan(n: Seq<u8>, el: int, j: int)
    requires
        n.len() == 11,
        0 <= j <= el <= 3,
        forall|q: int| 8 + j <= q < 8 + el ==> n[q] != 32u8,
        forall|q: int| 8 + el <= q < 11 ==> n[q] == 32u8,
    ensures
        spec_ext_seq(n, 8 + j) == n.subrange(8 + j, 8 + el),
    decreases el - j,
{
    if j < el {
        lemma_ext_scan(n, el, j + 1);
        assert(spec_ext_seq(n, 8 + j) =~= n.subrange(8 + j, 8 + el));
    } else {
        lemma_ext_spaces(n, 8 + el);
        assert(spec_ext_seq(n, 8 + j) =~= n.subrange(8 + j, 8 + el));
    }
}

/// A normalized name displays back as the name it came from: for a
/// space-free name with a real (non-empty) extension, the stored 11-byte
/// form's display equals the input, ignoring ASCII case. Names with an
/// embedded space or nothing after the dot genuinely do not read back and
/// are left out.
pub proof fn lemma_name_round_trip(s: Seq<u8>)
    requires
        spec_name83(s) is Some,
        forall|i: int| 0 <= i < s.len() ==> s[i] != 32u8,
        spec_first_dot(s, 0) + 1 < s.len(),
    ensures
        spec_eq_ignore_case(spec_display_name(spec_name83(s)->Some_0), s),
{
    let d = spec_first_dot(s, 0);
    lemma_first_dot_bounds(s, 0);
    lemma_first_dot_hit(s, 0);
    let stem = s.subrange(0, d);
    let ext = s.subrange(d + 1, s.len() as int);
    let sl = stem.len() as int;
    let el = ext.len() as int;
    let n = spec_pad(spec_upper_seq(stem), 8) + spec_pad(spec_upper_seq(ext), 3);
    assert(spec_name83(s)->Some_0 == n);
    assert(n.len() == 11);
    assert forall|j: int| 0 <= j < sl implies n[j] != 32u8 by {
        lemma_upper_byte_facts(stem[j]);
        assert(n[j] == spec_upper(stem[j]));
    }
    assert forall|q: int| 8 <= q < 8 + el implies n[q] != 32u8 by {
        lemma_upper_byte_facts(ext[q - 8]);
        assert(n[q] == spec_upper(ext[q - 8]));
    }
    assert forall|q: int| 8 + el <= q < 11 implies n[q] == 32u8 by {
        assert(n[q] == spec_pad(spec_upper_seq(ext), 3)[q - 8]);
    }
    lemma_stem_scan(n, sl, 0);
    lemma_ext_scan(n, el, 0);
    let display = spec_display_name(n);
    assert(spec_ext_seq(n, 8).len() == el > 0);
    assert(display == n.subrange(0, sl) + seq![46u8] + n.subrange(8, 8 + el));
    assert(display.len() == s.len());
    assert forall|i: int| 0 <= i < display.len() implies spec_upper(display[i]) == spec_upper(
        s[i],
    ) by {
        if i < sl {
            assert(display[i] == n[i]);
            assert(n[i] == spec_upper(stem[i]));
            assert(stem[i] == s[i]);
            lemma_upper_byte_facts(s[i]);
        } else if i == sl {
            assert(display[i] == 46u8);
            assert(s[d] == 46u8);
        } else {
            assert(display[i] == n[8 + (i - sl - 1)]);
            assert(n[8 + (i - sl - 1)] == spec_upper(ext[i - sl - 1]));
            assert(ext[i - sl - 1] == s[i]);
            lemma_upper_byte_facts(s[i]);
        }
    }
}

} // verus!
