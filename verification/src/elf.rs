//! ELF32 structures and constants of the System V ABI and its RISC-V
//! supplement, decoded from and encoded to little-endian bytes.
#![allow(non_camel_case_types)]
#![allow(non_snake_case)]

use vstd::prelude::*;
use crate::bytes::{get_u16, get_u32, le_u16, le_u32, le_bytes_u32, put_u32};

verus! {

pub type Elf32_Half = u16;
pub type Elf32_Word = u32;
pub type Elf32_Sword = i32;
pub type Elf32_Addr = u32;
pub type Elf32_Off = u32;

pub const EI_NIDENT: usize = 16;
pub const ELFMAG0: u8 = 0x7f;
pub const ELFMAG1: u8 = 0x45;
pub const ELFMAG2: u8 = 0x4c;
pub const ELFMAG3: u8 = 0x46;
pub const ELFCLASS32: u8 = 1;
pub const ELFDATA2LSB: u8 = 1;
pub const EV_CURRENT: u8 = 1;
pub const ELFOSABI_NONE: u8 = 0;

pub const ET_REL: u16 = 1;
pub const EM_NONE: u16 = 0;
pub const EM_RISCV: u16 = 243;
pub const EF_RISCV_FLOAT_ABI_SOFT: u32 = 0x0;
pub const EF_RISCV_FLOAT_ABI_DOUBLE: u32 = 0x4;

pub const SHT_PROGBITS: u32 = 1;
pub const SHT_SYMTAB: u32 = 2;
pub const SHT_STRTAB: u32 = 3;
pub const SHT_RELA: u32 = 4;
pub const SHF_EXECINSTR: u32 = 0x4;

pub const SHN_UNDEF: u16 = 0;
pub const SHN_ABS: u16 = 0xfff1;

pub const STB_LOCAL: u8 = 0;
pub const STB_GLOBAL: u8 = 1;
pub const STB_WEAK: u8 = 2;

pub const PT_LOAD: u32 = 1;
pub const PT_GNU_EH_FRAME: u32 = 0x6474e550;
pub const PF_X: u32 = 1;
pub const PF_W: u32 = 2;
pub const PF_R: u32 = 4;

pub const R_RISCV_32: u32 = 1;
pub const R_RISCV_CALL_PLT: u32 = 19;
pub const R_RISCV_GOT_HI20: u32 = 20;
pub const R_RISCV_PCREL_HI20: u32 = 23;
pub const R_RISCV_PCREL_LO12_I: u32 = 24;
pub const R_RISCV_ADD32: u32 = 35;
pub const R_RISCV_SUB32: u32 = 39;
pub const R_RISCV_SUB6: u32 = 52;
pub const R_RISCV_SET6: u32 = 53;
pub const R_RISCV_32_PCREL: u32 = 57;

/// Sizes in bytes of the ELF32 records.
pub const EHDR_SIZE: usize = 52;
pub const SHDR_SIZE: usize = 40;
pub const SYM_SIZE: usize = 16;
pub const RELA_SIZE: usize = 12;
pub const PHDR_SIZE: usize = 32;

/// Binding of a symbol: the high four bits of `st_info`.
pub open spec fn spec_st_bind(i: u8) -> u8 {
    i / 16
}

#[verifier::when_used_as_spec(spec_st_bind)]
pub fn ELF32_ST_BIND(i: u8) -> (r: u8)
    ensures
        r == i / 16,
{
    i / 16
}

/// Symbol index of a relocation: the high 24 bits of `r_info`.
pub open spec fn spec_r_sym(i: u32) -> u32 {
    i / 256
}

#[verifier::when_used_as_spec(spec_r_sym)]
pub fn ELF32_R_SYM(i: u32) -> (r: u32)
    ensures
        r == i / 256,
{
    i / 256
}

/// Type of a relocation: the low 8 bits of `r_info`.
pub open spec fn spec_r_type(i: u32) -> u32 {
    i % 256
}

#[verifier::when_used_as_spec(spec_r_type)]
pub fn ELF32_R_TYPE(i: u32) -> (r: u32)
    ensures
        r == i % 256,
{
    i % 256
}

/// The 32-bit little-endian word at `off` of `d`.
pub open spec fn word_at(d: Seq<u8>, off: int) -> u32 {
    le_u32(d.subrange(off, off + 4))
}

/// The 16-bit little-endian half-word at `off` of `d`.
pub open spec fn half_at(d: Seq<u8>, off: int) -> u16 {
    le_u16(d.subrange(off, off + 2))
}

#[derive(Clone, Copy)]
pub struct Elf32_Ehdr {
    pub e_ident: [u8; 16],
    pub e_type: Elf32_Half,
    pub e_machine: Elf32_Half,
    pub e_version: Elf32_Word,
    pub e_entry: Elf32_Addr,
    pub e_phoff: Elf32_Off,
    pub e_shoff: Elf32_Off,
    pub e_flags: Elf32_Word,
    pub e_ehsize: Elf32_Half,
    pub e_phentsize: Elf32_Half,
    pub e_phnum: Elf32_Half,
    pub e_shentsize: Elf32_Half,
    pub e_shnum: Elf32_Half,
    pub e_shstrndx: Elf32_Half,
}

/// The ELF header at the start of `d` decodes to `h`.
pub open spec fn is_ehdr_of(h: Elf32_Ehdr, d: Seq<u8>) -> bool {
    &&& h.e_ident@ == d.subrange(0, 16)
    &&& h.e_type == half_at(d, 16)
    &&& h.e_machine == half_at(d, 18)
    &&& h.e_version == word_at(d, 20)
    &&& h.e_entry == word_at(d, 24)
    &&& h.e_phoff == word_at(d, 28)
    &&& h.e_shoff == word_at(d, 32)
    &&& h.e_flags == word_at(d, 36)
    &&& h.e_ehsize == half_at(d, 40)
    &&& h.e_phentsize == half_at(d, 42)
    &&& h.e_phnum == half_at(d, 44)
    &&& h.e_shentsize == half_at(d, 46)
    &&& h.e_shnum == half_at(d, 48)
    &&& h.e_shstrndx == half_at(d, 50)
}

impl Elf32_Ehdr {
    /// Decodes the header at the start of `d`.
    pub fn decode(d: &[u8]) -> (h: Elf32_Ehdr)
        requires
            EHDR_SIZE <= d.len(),
        ensures
            is_ehdr_of(h, d@),
    {
        let mut e_ident = [0u8; 16];
        let mut i: usize = 0;
        while i < 16
            invariant
                i <= 16,
                16 <= d.len(),
                forall|j: int| 0 <= j < i ==> e_ident@[j] == d@[j],
            decreases 16 - i,
        {
            e_ident[i] = d[i];
            i = i + 1;
        }
        assert(e_ident@ =~= d@.subrange(0, 16));
        Elf32_Ehdr {
            e_ident,
            e_type: get_u16(d, 16),
            e_machine: get_u16(d, 18),
            e_version: get_u32(d, 20),
            e_entry: get_u32(d, 24),
            e_phoff: get_u32(d, 28),
            e_shoff: get_u32(d, 32),
            e_flags: get_u32(d, 36),
            e_ehsize: get_u16(d, 40),
            e_phentsize: get_u16(d, 42),
            e_phnum: get_u16(d, 44),
            e_shentsize: get_u16(d, 46),
            e_shnum: get_u16(d, 48),
            e_shstrndx: get_u16(d, 50),
        }
    }
}

#[derive(Clone, Copy)]
pub struct Elf32_Shdr {
    pub sh_name: Elf32_Word,
    pub sh_type: Elf32_Word,
    pub sh_flags: Elf32_Word,
    pub sh_addr: Elf32_Addr,
    pub sh_offset: Elf32_Off,
    pub sh_size: Elf32_Word,
    pub sh_link: Elf32_Word,
    pub sh_info: Elf32_Word,
    pub sh_addralign: Elf32_Word,
    pub sh_entsize: Elf32_Word,
}

/// The section header at `off` of `d`.
pub open spec fn shdr_at(d: Seq<u8>, off: int) -> Elf32_Shdr {
    Elf32_Shdr {
        sh_name: word_at(d, off),
        sh_type: word_at(d, off + 4),
        sh_flags: word_at(d, off + 8),
        sh_addr: word_at(d, off + 12),
        sh_offset: word_at(d, off + 16),
        sh_size: word_at(d, off + 20),
        sh_link: word_at(d, off + 24),
        sh_info: word_at(d, off + 28),
        sh_addralign: word_at(d, off + 32),
        sh_entsize: word_at(d, off + 36),
    }
}

impl Elf32_Shdr {
    pub fn decode(d: &[u8], off: usize) -> (h: Elf32_Shdr)
        requires
            off + SHDR_SIZE <= d.len(),
        ensures
            h == shdr_at(d@, off as int),
    {
        Elf32_Shdr {
            sh_name: get_u32(d, off),
            sh_type: get_u32(d, off + 4),
            sh_flags: get_u32(d, off + 8),
            sh_addr: get_u32(d, off + 12),
            sh_offset: get_u32(d, off + 16),
            sh_size: get_u32(d, off + 20),
            sh_link: get_u32(d, off + 24),
            sh_info: get_u32(d, off + 28),
            sh_addralign: get_u32(d, off + 32),
            sh_entsize: get_u32(d, off + 36),
        }
    }
}

#[derive(Clone, Copy)]
pub struct Elf32_Sym {
    pub st_name: Elf32_Word,
    pub st_value: Elf32_Addr,
    pub st_size: Elf32_Word,
    pub st_info: u8,
    pub st_other: u8,
    pub st_shndx: Elf32_Half,
}

/// The symbol at `off` of `d`.
pub open spec fn sym_at(d: Seq<u8>, off: int) -> Elf32_Sym {
    Elf32_Sym {
        st_name: word_at(d, off),
        st_value: word_at(d, off + 4),
        st_size: word_at(d, off + 8),
        st_info: d[off + 12],
        st_other: d[off + 13],
        st_shndx: half_at(d, off + 14),
    }
}

impl Elf32_Sym {
    pub fn decode(d: &[u8], off: usize) -> (s: Elf32_Sym)
        requires
            off + SYM_SIZE <= d.len(),
        ensures
            s == sym_at(d@, off as int),
    {
        Elf32_Sym {
            st_name: get_u32(d, off),
            st_value: get_u32(d, off + 4),
            st_size: get_u32(d, off + 8),
            st_info: d[off + 12],
            st_other: d[off + 13],
            st_shndx: get_u16(d, off + 14),
        }
    }
}

#[derive(Clone, Copy)]
pub struct Elf32_Rela {
    pub r_offset: Elf32_Addr,
    pub r_info: Elf32_Word,
    pub r_addend: Elf32_Sword,
}

/// The relocation at `off` of `d`.
pub open spec fn rela_at(d: Seq<u8>, off: int) -> Elf32_Rela {
    Elf32_Rela {
        r_offset: word_at(d, off),
        r_info: word_at(d, off + 4),
        r_addend: word_at(d, off + 8) as i32,
    }
}

impl Elf32_Rela {
    pub fn decode(d: &[u8], off: usize) -> (r: Elf32_Rela)
        requires
            off + RELA_SIZE <= d.len(),
        ensures
            r == rela_at(d@, off as int),
    {
        Elf32_Rela {
            r_offset: get_u32(d, off),
            r_info: get_u32(d, off + 4),
            r_addend: get_u32(d, off + 8) as i32,
        }
    }
}

#[derive(Clone, Copy)]
pub struct Elf32_Phdr {
    pub p_type: Elf32_Word,
    pub p_offset: Elf32_Off,
    pub p_vaddr: Elf32_Addr,
    pub p_paddr: Elf32_Addr,
    pub p_filesz: Elf32_Word,
    pub p_memsz: Elf32_Word,
    pub p_flags: Elf32_Word,
    pub p_align: Elf32_Word,
}

/// The 32 little-endian bytes of a program header.
pub open spec fn phdr_bytes(p: Elf32_Phdr) -> Seq<u8> {
    le_bytes_u32(p.p_type) + le_bytes_u32(p.p_offset) + le_bytes_u32(p.p_vaddr) + le_bytes_u32(
        p.p_paddr,
    ) + le_bytes_u32(p.p_filesz) + le_bytes_u32(p.p_memsz) + le_bytes_u32(p.p_flags)
        + le_bytes_u32(p.p_align)
}

/// `d` with the bytes from `off` on replaced by `b`.
pub open spec fn splice(d: Seq<u8>, off: int, b: Seq<u8>) -> Seq<u8> {
    d.subrange(0, off) + b + d.subrange(off + b.len(), d.len() as int)
}

impl Elf32_Phdr {
    /// Writes the header at `off` of `d`.
    pub fn encode(&self, d: &mut Vec<u8>, off: usize)
        requires
            off + PHDR_SIZE <= old(d).len(),
        ensures
            final(d)@ == splice(old(d)@, off as int, phdr_bytes(*self)),
            final(d)@.len() == old(d)@.len(),
    {
        let ghost d0 = d@;
        put_u32(d, off, self.p_type);
        put_u32(d, off + 4, self.p_offset);
        put_u32(d, off + 8, self.p_vaddr);
        put_u32(d, off + 12, self.p_paddr);
        put_u32(d, off + 16, self.p_filesz);
        put_u32(d, off + 20, self.p_memsz);
        put_u32(d, off + 24, self.p_flags);
        put_u32(d, off + 28, self.p_align);
        assert(d@.len() == d0.len());
        assert(d@ =~= splice(d0, off as int, phdr_bytes(*self)));
    }
}

} // verus!
