//! ELF inspection: little-endian field readers and header parsers for the
//! 64-bit ELF format. Parsing is pure; rendering the result is left to the
//! caller.

use vstd::prelude::*;

verus! {

/// Little-endian 16-bit value stored at `offset`.
pub open spec fn spec_u16_le(bytes: Seq<u8>, offset: int) -> u16 {
    (bytes[offset] as u16 + bytes[offset + 1] as u16 * 0x100) as u16
}

/// Little-endian 32-bit value stored at `offset`.
pub open spec fn spec_u32_le(bytes: Seq<u8>, offset: int) -> u32 {
    (bytes[offset] as u32 + bytes[offset + 1] as u32 * 0x100 + bytes[offset + 2] as u32 * 0x10000
        + bytes[offset + 3] as u32 * 0x1000000) as u32
}

/// Little-endian 64-bit value stored at `offset`.
pub open spec fn spec_u64_le(bytes: Seq<u8>, offset: int) -> u64 {
    (spec_u32_le(bytes, offset) as u64 + spec_u32_le(bytes, offset + 4) as u64 * 0x100000000) as u64
}

pub fn read_u16_le(bytes: &[u8], offset: usize) -> (r: u16)
    requires
        offset + 2 <= bytes.len(),
    ensures
        r == spec_u16_le(bytes@, offset as int),
{
    bytes[offset] as u16 + bytes[offset + 1] as u16 * 0x100
}

pub fn read_u32_le(bytes: &[u8], offset: usize) -> (r: u32)
    requires
        offset + 4 <= bytes.len(),
    ensures
        r == spec_u32_le(bytes@, offset as int),
{
    bytes[offset] as u32 + bytes[offset + 1] as u32 * 0x100 + bytes[offset + 2] as u32 * 0x10000
        + bytes[offset + 3] as u32 * 0x1000000
}

pub fn read_u64_le(bytes: &[u8], offset: usize) -> (r: u64)
    requires
        offset + 8 <= bytes.len(),
    ensures
        r == spec_u64_le(bytes@, offset as int),
{
    read_u32_le(bytes, offset) as u64 + read_u32_le(bytes, offset + 4) as u64 * 0x100000000
}

/// The four magic bytes 0x7F 'E' 'L' 'F' open every ELF image.
pub open spec fn spec_is_elf(bytes: Seq<u8>) -> bool {
    bytes.len() >= 4 && bytes[0] == 0x7fu8 && bytes[1] == 0x45u8 && bytes[2] == 0x4cu8 && bytes[3]
        == 0x46u8
}

pub fn is_elf(contents: &[u8]) -> (r: bool)
    ensures
        r == spec_is_elf(contents@),
{
    contents.len() >= 4 && contents[0] == 0x7f && contents[1] == 0x45 && contents[2] == 0x4c
        && contents[3] == 0x46
}

/// The bytes of a NUL-terminated string starting at `offset`: everything up
/// to the first zero byte, or to the end when none follows.
pub open spec fn spec_cstr_end(bytes: Seq<u8>, offset: int) -> int
    decreases bytes.len() - offset,
{
    if offset >= bytes.len() {
        bytes.len() as int
    } else if bytes[offset] == 0u8 {
        offset
    } else {
        spec_cstr_end(bytes, offset + 1)
    }
}

pub fn read_cstr(bytes: &[u8], offset: usize) -> (r: Vec<u8>)
    requires
        offset <= bytes.len(),
    ensures
        r@ == bytes@.subrange(offset as int, spec_cstr_end(bytes@, offset as int)),
{
    let mut end: usize = offset;
    while end < bytes.len() && bytes[end] != 0
        invariant
            offset <= end <= bytes@.len(),
            spec_cstr_end(bytes@, offset as int) == spec_cstr_end(bytes@, end as int),
            forall|j: int| offset <= j < end ==> bytes@[j] != 0u8,
        decreases bytes@.len() - end,
    {
        end += 1;
    }
    let mut r: Vec<u8> = Vec::new();
    let mut i: usize = offset;
    while i < end
        invariant
            offset <= i <= end <= bytes@.len(),
            r@ == bytes@.subrange(offset as int, i as int),
        decreases end - i,
    {
        r.push(bytes[i]);
        proof {
            assert(r@ =~= bytes@.subrange(offset as int, i + 1));
        }
        i += 1;
    }
    proof {
        if end < bytes@.len() {
            assert(spec_cstr_end(bytes@, end as int) == end);
        }
        assert(r@ =~= bytes@.subrange(offset as int, spec_cstr_end(bytes@, offset as int)));
    }
    r
}

pub fn section_type_name(sh_type: u32) -> (r: &'static str)
    ensures
        sh_type == 0 ==> r@ == "NULL"@,
        sh_type == 1 ==> r@ == "PROGBITS"@,
        sh_type == 2 ==> r@ == "SYMTAB"@,
        sh_type == 3 ==> r@ == "STRTAB"@,
        sh_type == 4 ==> r@ == "RELA"@,
        sh_type == 8 ==> r@ == "NOBITS"@,
        !(sh_type == 0 || sh_type == 1 || sh_type == 2 || sh_type == 3 || sh_type == 4 || sh_type
            == 8) ==> r@ == "UNKNOWN"@,
{
    match sh_type {
        0 => "NULL",
        1 => "PROGBITS",
        2 => "SYMTAB",
        3 => "STRTAB",
        4 => "RELA",
        8 => "NOBITS",
        _ => "UNKNOWN",
    }
}

pub struct ElfHeader {
    pub e_ident: Vec<u8>,
    pub e_type: u16,
    pub e_machine: u16,
    pub e_version: u32,
    pub e_entry: u64,
    pub e_phoff: u64,
    pub e_shoff: u64,
    pub e_flags: u32,
    pub e_ehsize: u16,
    pub e_phentsize: u16,
    pub e_phnum: u16,
    pub e_shentsize: u16,
    pub e_shnum: u16,
    pub e_shstrndx: u16,
}

/// Field-by-field agreement of a parsed ELF header with the bytes it came
/// from, at the offsets the format fixes.
pub open spec fn header_matches(h: ElfHeader, bytes: Seq<u8>) -> bool {
    &&& h.e_ident@ == bytes.subrange(0, 16)
    &&& h.e_type == spec_u16_le(bytes, 16)
    &&& h.e_machine == spec_u16_le(bytes, 18)
    &&& h.e_version == spec_u32_le(bytes, 20)
    &&& h.e_entry == spec_u64_le(bytes, 24)
    &&& h.e_phoff == spec_u64_le(bytes, 32)
    &&& h.e_shoff == spec_u64_le(bytes, 40)
    &&& h.e_flags == spec_u32_le(bytes, 48)
    &&& h.e_ehsize == spec_u16_le(bytes, 52)
    &&& h.e_phentsize == spec_u16_le(bytes, 54)
    &&& h.e_phnum == spec_u16_le(bytes, 56)
    &&& h.e_shentsize == spec_u16_le(bytes, 58)
    &&& h.e_shnum == spec_u16_le(bytes, 60)
    &&& h.e_shstrndx == spec_u16_le(bytes, 62)
}

pub fn parse_elf_header(bytes: &[u8]) -> (h: ElfHeader)
    requires
        bytes.len() >= 64,
    ensures
        header_matches(h, bytes@),
{
    let mut e_ident: Vec<u8> = Vec::new();
    let mut i: usize = 0;
    while i < 16
        invariant
            i <= 16,
            bytes@.len() >= 64,
            e_ident@ == bytes@.subrange(0, i as int),
        decreases 16 - i,
    {
        e_ident.push(bytes[i]);
        proof {
            assert(e_ident@ =~= bytes@.subrange(0, i + 1));
        }
        i += 1;
    }
    ElfHeader {
        e_ident,
        e_type: read_u16_le(bytes, 16),
        e_machine: read_u16_le(bytes, 18),
        e_version: read_u32_le(bytes, 20),
        e_entry: read_u64_le(bytes, 24),
        e_phoff: read_u64_le(bytes, 32),
        e_shoff: read_u64_le(bytes, 40),
        e_flags: read_u32_le(bytes, 48),
        e_ehsize: read_u16_le(bytes, 52),
        e_phentsize: read_u16_le(bytes, 54),
        e_phnum: read_u16_le(bytes, 56),
        e_shentsize: read_u16_le(bytes, 58),
        e_shnum: read_u16_le(bytes, 60),
        e_shstrndx: read_u16_le(bytes, 62),
    }
}

pub struct ProgramHeader {
    pub p_type: u32,
    pub p_flags: u32,
    pub p_offset: u64,
    pub p_vaddr: u64,
    pub p_paddr: u64,
    pub p_filesz: u64,
    pub p_memsz: u64,
    pub p_align: u64,
}

pub open spec fn program_header_matches(p: ProgramHeader, bytes: Seq<u8>, offset: int) -> bool {
    &&& p.p_type == spec_u32_le(bytes, offset)
    &&& p.p_flags == spec_u32_le(bytes, offset + 4)
    &&& p.p_offset == spec_u64_le(bytes, offset + 8)
    &&& p.p_vaddr == spec_u64_le(bytes, offset + 16)
    &&& p.p_paddr == spec_u64_le(bytes, offset + 24)
    &&& p.p_filesz == spec_u64_le(bytes, offset + 32)
    &&& p.p_memsz == spec_u64_le(bytes, offset + 40)
    &&& p.p_align == spec_u64_le(bytes, offset + 48)
}

pub fn parse_program_header(bytes: &[u8], offset: usize) -> (p: ProgramHeader)
    requires
        offset + 56 <= bytes.len(),
    ensures
        program_header_matches(p, bytes@, offset as int),
{
    ProgramHeader {
        p_type: read_u32_le(bytes, offset),
        p_flags: read_u32_le(bytes, offset + 4),
        p_offset: read_u64_le(bytes, offset + 8),
        p_vaddr: read_u64_le(bytes, offset + 16),
        p_paddr: read_u64_le(bytes, offset + 24),
        p_filesz: read_u64_le(bytes, offset + 32),
        p_memsz: read_u64_le(bytes, offset + 40),
        p_align: read_u64_le(bytes, offset + 48),
    }
}

pub struct SectionHeader {
    pub sh_name: u32,
    pub sh_type: u32,
    pub sh_flags: u64,
    pub sh_addr: u64,
    pub sh_offset: u64,
    pub sh_size: u64,
    pub sh_link: u32,
    pub sh_info: u32,
    pub sh_addralign: u64,
    pub sh_entsize: u64,
}

pub open spec fn section_header_matches(s: SectionHeader, bytes: Seq<u8>, offset: int) -> bool {
    &&& s.sh_name == spec_u32_le(bytes, offset)
    &&& s.sh_type == spec_u32_le(bytes, offset + 4)
    &&& s.sh_flags == spec_u64_le(bytes, offset + 8)
    &&& s.sh_addr == spec_u64_le(bytes, offset + 16)
    &&& s.sh_offset == spec_u64_le(bytes, offset + 24)
    &&& s.sh_size == spec_u64_le(bytes, offset + 32)
    &&& s.sh_link == spec_u32_le(bytes, offset + 40)
    &&& s.sh_info == spec_u32_le(bytes, offset + 44)
    &&& s.sh_addralign == spec_u64_le(bytes, offset + 48)
    &&& s.sh_entsize == spec_u64_le(bytes, offset + 56)
}

pub fn parse_section_header(bytes: &[u8], offset: usize) -> (s: SectionHeader)
    requires
        offset + 64 <= bytes.len(),
    ensures
        section_header_matches(s, bytes@, offset as int),
{
    SectionHeader {
        sh_name: read_u32_le(bytes, offset),
        sh_type: read_u32_le(bytes, offset + 4),
        sh_flags: read_u64_le(bytes, offset + 8),
        sh_addr: read_u64_le(bytes, offset + 16),
        sh_offset: read_u64_le(bytes, offset + 24),
        sh_size: read_u64_le(bytes, offset + 32),
        sh_link: read_u32_le(bytes, offset + 40),
        sh_info: read_u32_le(bytes, offset + 44),
        sh_addralign: read_u64_le(bytes, offset + 48),
        sh_entsize: read_u64_le(bytes, offset + 56),
    }
}

} // verus!
