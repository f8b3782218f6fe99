//! Loading a relocatable RISC-V ELF object into a memory image: copying its
//! sections, resolving its relocations and describing its unwinding tables.

use vstd::prelude::*;
use vstd::string::StringExecFns;
use crate::dwarf::nul_index;
use crate::bytes::{le_u32, le_bytes_u16, le_bytes_u32, put_u32};
use crate::elf::{
    EHDR_SIZE, Elf32_Ehdr, Elf32_Half, Elf32_Rela, Elf32_Shdr, Elf32_Sym, Elf32_Word, SHDR_SIZE,
    SHT_PROGBITS, SHT_RELA, SHT_STRTAB, SHT_SYMTAB, SHF_EXECINSTR, SYM_SIZE, RELA_SIZE, is_ehdr_of,
    shdr_at, sym_at, rela_at, half_at, ELFMAG0, ELFMAG1, ELFMAG2, ELFMAG3, ELFCLASS32, ELFDATA2LSB,
    EV_CURRENT, ELFOSABI_NONE, ET_REL, ELF32_R_SYM, ELF32_R_TYPE, ELF32_ST_BIND,
    R_RISCV_32, R_RISCV_32_PCREL, R_RISCV_ADD32, R_RISCV_CALL_PLT, R_RISCV_GOT_HI20,
    R_RISCV_PCREL_HI20, R_RISCV_PCREL_LO12_I, R_RISCV_SET6, R_RISCV_SUB32, R_RISCV_SUB6, SHN_ABS,
    SHN_UNDEF, STB_GLOBAL, spec_r_sym, spec_r_type, spec_st_bind, splice, word_at,
};
use crate::dwarf::{cie_frame, fde_walk, hdr_bytes, lemma_hdr_bytes_len, EH_Frame, EH_Frame_Hdr};
use crate::elf::{Elf32_Phdr, phdr_bytes, PHDR_SIZE, PT_LOAD, PT_GNU_EH_FRAME, PF_R, PF_X};
use byteorder::{ByteOrder, LittleEndian};

verus! {

/// `x` modulo 2^32, as 32-bit arithmetic computes it.
pub open spec fn wrap32(x: int) -> u32 {
    (x % 0x1_0000_0000) as u32
}

/// Reducing modulo 2^32 before or after adding gives the same result.
pub proof fn lemma_wrap32_add(x: int, c: int)
    requires
        x >= 0,
        0 <= c < 0x1_0000_0000,
    ensures
        wrap32(wrap32(x) + c) == wrap32(x + c),
{
    vstd::arithmetic::div_mod::lemma_add_mod_noop(x, c, 0x1_0000_0000);
    vstd::arithmetic::div_mod::lemma_small_mod(c as nat, 0x1_0000_0000);
    assert(0 <= x % 0x1_0000_0000 < 0x1_0000_0000);
}

/// Reducing modulo 2^32 before or after subtracting gives the same result.
pub proof fn lemma_wrap32_sub(x: int, c: int)
    requires
        0 <= c < 0x1_0000_0000,
    ensures
        wrap32(wrap32(x) - c) == wrap32(x - c),
{
    vstd::arithmetic::div_mod::lemma_sub_mod_noop(x, c, 0x1_0000_0000);
    vstd::arithmetic::div_mod::lemma_small_mod(c as nat, 0x1_0000_0000);
}

/// `a + b` modulo 2^32.
pub fn wadd(a: u32, b: u32) -> (r: u32)
    ensures
        r == wrap32(a + b),
{
    a.wrapping_add(b)
}

/// `a - b` modulo 2^32.
pub fn wsub(a: u32, b: u32) -> (r: u32)
    ensures
        r == wrap32(a - b),
{
    a.wrapping_sub(b)
}

/// The bytes of `s` from `off` up to the first NUL after it, when there is one.
pub open spec fn cstr_at(s: Seq<u8>, off: int) -> Option<Seq<u8>> {
    if 0 <= off <= s.len() {
        match nul_index(s.subrange(off, s.len() as int), 0) {
            Some(n) => Some(s.subrange(off, off + n)),
            None => None,
        }
    } else {
        None
    }
}

/// Errors of loading and relocating.
#[derive(Debug)]
pub enum Error {
    Parsing(&'static str),
    Lookup(Vec<u8>),
}

/// What an `Error` says: its message, or the name that could not be resolved.
pub enum Fault {
    Parsing(&'static str),
    Lookup(Seq<u8>),
}

impl Error {
    pub open spec fn fault(&self) -> Fault {
        match self {
            Error::Parsing(m) => Fault::Parsing(*m),
            Error::Lookup(v) => Fault::Lookup(v@),
        }
    }
}

/// The characters that the bytes `b` encode, when they are valid UTF-8
/// (what `std::str::from_utf8` decodes).
pub uninterp spec fn utf8_text(b: Seq<u8>) -> Option<Seq<char>>;

/// The text that `Debug` gives for a slice of the bytes `b`.
pub uninterp spec fn debug_bytes(b: Seq<u8>) -> Seq<char>;

/// `std::str::from_utf8`: the bytes as text when they are valid UTF-8,
/// `None` (its `Utf8Error`) otherwise. The decoding itself is left to the
/// name `utf8_text`: the result depends on the bytes alone.
#[verifier::external_body]
fn from_utf8(b: &[u8]) -> (r: Option<&str>)
    ensures
        match r {
            Some(t) => utf8_text(b@) == Some(t@),
            None => utf8_text(b@) is None,
        },
{
    std::str::from_utf8(b).ok()
}

/// `format!("{:?}", b)`: the `Debug` text of a byte slice. Its layout is
/// left to the name `debug_bytes`: std documents that `Debug` output may
/// change, so only that it depends on the bytes alone is stated.
#[verifier::external_body]
fn debug_list(b: &[u8]) -> (r: String)
    ensures
        r@ == debug_bytes(b@),
{
    format!("{:?}", b)
}

/// The text of a name in an error: the name itself when it is UTF-8,
/// otherwise the `Debug` list of its bytes.
pub open spec fn name_text(n: Seq<u8>) -> Seq<char> {
    match utf8_text(n) {
        Some(t) => t,
        None => debug_bytes(n),
    }
}

impl Error {
    /// The message of an error: "parse error: " and the description, or
    /// "symbol lookup error: " and the text of the name.
    pub open spec fn message_text(&self) -> Seq<char> {
        match self {
            Error::Parsing(desc) => "parse error: "@ + desc@,
            Error::Lookup(sym) => "symbol lookup error: "@ + name_text(sym@),
        }
    }

    /// The message of the error, as `message_text` gives it.
    pub fn message(&self) -> (s: String)
        ensures
            s@ == self.message_text(),
    {
        match self {
            Error::Parsing(desc) => {
                let mut s = String::from_str("parse error: ");
                s.append(desc);
                s
            },
            Error::Lookup(sym) => {
                let mut s = String::from_str("symbol lookup error: ");
                match from_utf8(sym.as_slice()) {
                    Some(t) => s.append(t),
                    None => {
                        let d = debug_list(sym.as_slice());
                        s.append(d.as_str());
                    },
                }
                s
            },
        }
    }
}

/// A message is a parsing error.
impl From<&'static str> for Error {
    fn from(desc: &'static str) -> (e: Error) {
        Error::Parsing(desc)
    }
}

impl vstd::std_specs::convert::FromSpecImpl<&'static str> for Error {
    open spec fn obeys_from_spec() -> bool {
        true
    }

    open spec fn from_spec(desc: &'static str) -> Error {
        Error::Parsing(desc)
    }
}

/// `r` with its error, if any, taken by what it says.
pub open spec fn fault_of<T>(r: Result<T, Error>) -> Result<T, Fault> {
    match r {
        Ok(v) => Ok(v),
        Err(e) => Err(e.fault()),
    }
}

/// The NUL-terminated name at `offset` of a string table.
pub fn name_starting_at_slice(slice: &[u8], offset: usize) -> (r: Result<&[u8], Error>)
    ensures
        match cstr_at(slice@, offset as int) {
            Some(n) => r matches Ok(v) && v@ == n,
            None => is_parsing_error(r, "symbol in symbol table not null-terminated"),
        },
{
    if offset > slice.len() {
        return Err(Error::Parsing("symbol in symbol table not null-terminated"));
    }
    let ghost t = slice@.subrange(offset as int, slice@.len() as int);
    let mut size: usize = 0;
    while offset + size < slice.len()
        invariant
            offset <= slice.len(),
            offset + size <= slice.len(),
            t == slice@.subrange(offset as int, slice@.len() as int),
            nul_index(t, 0) == nul_index(t, size as nat),
        decreases slice.len() - offset - size,
    {
        if slice[offset + size] == 0 {
            return Ok(vstd::slice::slice_subrange(slice, offset, offset + size));
        }
        size = size + 1;
    }
    Err(Error::Parsing("symbol in symbol table not null-terminated"))
}

#[derive(Debug, Clone, Copy)]
pub enum SectionType {
    RELA(Elf32_Half),
    PROGBITS,
    // Other section types are either directly referenced,
    // or simply not needed for rebinding
}

/// A section copied into the image: its index in the object, its kind (with
/// the index of the section a RELA section relocates), and where it lies.
#[derive(Debug, Clone, Copy)]
pub struct SectionHeader {
    pub sh_index: Elf32_Half,
    pub sh_type: SectionType,
    pub sh_off: u32,
    pub sh_size: u32,
}

/// A loaded object: the address of its image, the bytes in use, where its
/// executable section lies, its copied sections, string table and symbols,
/// and the index of its `.eh_frame` section.
pub struct Library {
    pub image_off: Elf32_Word,
    pub image_sz: u32,
    pub exec_off: u32,
    pub sectab: Vec<SectionHeader>,
    pub strtab: Vec<u8>,
    pub symtab: Vec<Elf32_Sym>,
    pub eh_frame_sec_ind: u32,
}

/// Index of the first section of `sectab` with index `idx`.
pub open spec fn first_section(sectab: Seq<SectionHeader>, idx: u16) -> Option<int>
    decreases sectab.len(),
{
    if sectab.len() == 0 {
        None
    } else {
        match first_section(sectab.drop_last(), idx) {
            Some(i) => Some(i),
            None => if sectab.last().sh_index == idx {
                Some(sectab.len() - 1)
            } else {
                None
            },
        }
    }
}

/// Finds the first section of `sectab` with index `idx`.
pub fn find_section(sectab: &Vec<SectionHeader>, idx: u16) -> (r: Option<usize>)
    ensures
        match first_section(sectab@, idx) {
            Some(i) => r == Some(i as usize),
            None => r is None,
        },
        r matches Some(i) ==> i < sectab.len() && sectab@[i as int].sh_index == idx
            && first_section(sectab@, idx) == Some(i as int),
{
    proof {
        lemma_first_section_range(sectab@, idx);
    }
    let mut i: usize = 0;
    while i < sectab.len()
        invariant
            i <= sectab.len(),
            first_section(sectab@.subrange(0, i as int), idx) is None,
        decreases sectab.len() - i,
    {
        assert(sectab@.subrange(0, i + 1).drop_last() =~= sectab@.subrange(0, i as int));
        if sectab[i].sh_index == idx {
            proof {
                lemma_first_section_prefix(sectab@, idx, i as int + 1);
            }
            return Some(i);
        }
        i = i + 1;
    }
    assert(sectab@.subrange(0, i as int) =~= sectab@);
    None
}

/// The first match is a match.
pub proof fn lemma_first_section_range(s: Seq<SectionHeader>, idx: u16)
    ensures
        first_section(s, idx) matches Some(i) ==> 0 <= i < s.len() && s[i].sh_index == idx,
    decreases s.len(),
{
    if s.len() > 0 {
        lemma_first_section_range(s.drop_last(), idx);
    }
}

/// A first match within a prefix is the first match of the whole table.
pub proof fn lemma_first_section_prefix(s: Seq<SectionHeader>, idx: u16, k: int)
    requires
        0 <= k <= s.len(),
        first_section(s.subrange(0, k), idx) is Some,
    ensures
        first_section(s, idx) == first_section(s.subrange(0, k), idx),
    decreases s.len() - k,
{
    if k < s.len() {
        assert(s.subrange(0, k + 1).drop_last() =~= s.subrange(0, k));
        lemma_first_section_prefix(s, idx, k + 1);
    } else {
        assert(s.subrange(0, k) =~= s);
    }
}

impl Library {
    /// The address that `lookup` gives for the symbol `sym`.
    pub open spec fn symbol_address(&self, sym: Elf32_Sym, allow_local: bool) -> Option<u32> {
        if !allow_local && (spec_st_bind(sym.st_info) & STB_GLOBAL) == 0 {
            None
        } else if sym.st_shndx == SHN_UNDEF {
            None
        } else if sym.st_shndx == SHN_ABS {
            Some(sym.st_value)
        } else {
            match first_section(self.sectab@, sym.st_shndx) {
                Some(i) => Some(wrap32(self.image_off + self.sectab@[i].sh_off + sym.st_value)),
                None => None,
            }
        }
    }

    /// Index of the first symbol from `i` on whose name is `name`.
    pub open spec fn first_symbol(&self, name: Seq<u8>, i: int) -> Option<int>
        decreases self.symtab@.len() - i,
    {
        if i < 0 || i >= self.symtab@.len() {
            None
        } else if cstr_at(self.strtab@, self.symtab@[i].st_name as int) == Some(name) {
            Some(i)
        } else {
            self.first_symbol(name, i + 1)
        }
    }

    /// The symbol that `lookup` goes by for `name` is the first one, from
    /// index `k` on, whose whole name (up to its NUL) is `name`, byte for byte
    /// and of the same length; there is none when no symbol has that name.
    pub proof fn law_lookup_goes_by_the_first_exact_name(&self, name: Seq<u8>, k: int)
        requires
            0 <= k,
        ensures
            self.first_symbol(name, k) matches Some(i) ==> {
                &&& k <= i < self.symtab@.len()
                &&& cstr_at(self.strtab@, self.symtab@[i].st_name as int) matches Some(n)
                &&& n.len() == name.len()
                &&& forall|b: int| 0 <= b < n.len() ==> n[b] == name[b]
                &&& forall|j: int|
                    k <= j < i ==> cstr_at(self.strtab@, (#[trigger] self.symtab@[j]).st_name as int) != Some(name)
            },
            self.first_symbol(name, k) is None ==> forall|j: int|
                k <= j < self.symtab@.len() ==> cstr_at(self.strtab@, (#[trigger] self.symtab@[j]).st_name as int)
                    != Some(name),
        decreases self.symtab@.len() - k,
    {
        if k < self.symtab@.len() {
            self.law_lookup_goes_by_the_first_exact_name(name, k + 1);
        }
    }

    /// Looks up `name` among the symbols: the first symbol of that name
    /// decides. Unless `allow_local`, a symbol that is not global gives `None`;
    /// so does an undefined one; an absolute one gives its value, one in a
    /// copied section the section's address plus its value.
    pub fn lookup(&self, name: &[u8], allow_local: bool) -> (r: Option<Elf32_Word>)
        ensures
            r == match self.first_symbol(name@, 0) {
                Some(i) => self.symbol_address(self.symtab@[i], allow_local),
                None => None,
            },
            r matches Some(a) ==> exists|i: int|
                0 <= i < self.symtab@.len() && #[trigger] cstr_at(self.strtab@, self.symtab@[i].st_name as int)
                    == Some(name@) && self.symbol_address(self.symtab@[i], allow_local) == Some(a),
    {
        let mut i: usize = 0;
        while i < self.symtab.len()
            invariant
                i <= self.symtab@.len(),
                self.first_symbol(name@, 0) == self.first_symbol(name@, i as int),
            decreases self.symtab.len() - i,
        {
            let sym = self.symtab[i];
            let sym_name_off = sym.st_name as usize;
            match name_starting_at_slice(self.strtab.as_slice(), sym_name_off) {
                Ok(sym_name) => {
                    if slice_eq(sym_name, name) {
                        assert(self.symtab@[i as int] == sym);
                        assert(cstr_at(self.strtab@, self.symtab@[i as int].st_name as int) == Some(name@));
                        if !allow_local && (ELF32_ST_BIND(sym.st_info) & STB_GLOBAL == 0) {
                            return None;
                        }
                        if sym.st_shndx == SHN_UNDEF {
                            return None;
                        } else if sym.st_shndx == SHN_ABS {
                            return Some(sym.st_value);
                        } else {
                            // The symbol simply refer to some local data
                            return match find_section(&self.sectab, sym.st_shndx) {
                                Some(k) => {
                                    proof {
                                        lemma_wrap32_add(
                                            self.image_off + self.sectab@[k as int].sh_off,
                                            sym.st_value as int,
                                        );
                                        assert(first_section(self.sectab@, sym.st_shndx) == Some(k as int));
                                        assert(self.symtab@[i as int] == sym);
                                    }
                                    Some(wadd(wadd(self.image_off, self.sectab[k].sh_off), sym.st_value))
                                },
                                None => None,
                            };
                        }
                    }
                },
                Err(_) => {},
            }
            i = i + 1;
        }
        None
    }
}

/// Whether two byte strings are equal.
pub fn slice_eq(a: &[u8], b: &[u8]) -> (r: bool)
    ensures
        r == (a@ == b@),
{
    if a.len() != b.len() {
        return false;
    }
    let mut i: usize = 0;
    while i < a.len()
        invariant
            i <= a.len(),
            a.len() == b.len(),
            forall|j: int| 0 <= j < i ==> a@[j] == b@[j],
        decreases a.len() - i,
    {
        if a[i] != b[i] {
            return false;
        }
        i = i + 1;
    }
    assert(a@ =~= b@);
    true
}

/// `LittleEndian::read_u32` of byteorder: the first four bytes of `buf`, least
/// significant first.
#[verifier::external_body]
fn le_read_u32(buf: &[u8]) -> (r: u32)
    requires
        buf@.len() >= 4,
    ensures
        r == le_u32(buf@),
{
    LittleEndian::read_u32(buf)
}

/// `LittleEndian::write_u32` of byteorder: `buf` becomes the four bytes of
/// `n`, least significant first.
#[verifier::external_body]
fn le_write_u32(buf: &mut [u8; 4], n: u32)
    ensures
        final(buf)@ == le_bytes_u32(n),
{
    LittleEndian::write_u32(buf, n)
}

/// The closure `f` can return `out` for the name `name`.
pub open spec fn resolved_by<F: Fn(&[u8]) -> Option<u32>>(f: F, name: Seq<u8>, out: Option<u32>) -> bool {
    exists|s: &[u8]| s@ == name && call_ensures(f, (s,), out)
}

/// `d` with the 32-bit little-endian word at `off` replaced by `v`.
pub open spec fn put_word(d: Seq<u8>, off: int, v: u32) -> Seq<u8> {
    splice(d, off, le_bytes_u32(v))
}

/// The `lui` that replaces an `auipc`: opcode 0b0110111, the destination
/// register of `insn`, and the upper 20 bits of `addr + 0x800`.
pub open spec fn lui_hi20(insn: u32, addr: u32) -> u32 {
    0b0110111u32 | (insn & 0xF80u32) | (wrap32(addr + 0x800) & 0xFFFFF000u32)
}

/// `insn` (a `jalr`) with its 12-bit immediate set to the low bits of `addr`.
pub open spec fn jalr_lo12(insn: u32, addr: u32) -> u32 {
    (insn & 0xFFFFFu32) | ((addr & 0xFFFu32) << 20u32)
}

/// The `addi` that replaces a `lw`: opcode 0b0010011, funct3 0, the registers
/// of `insn`, and the low 12 bits of `addr` as immediate.
pub open spec fn addi_lo12(insn: u32, addr: u32) -> u32 {
    0b0010011u32 | (insn & 0xF8F80u32) | ((addr & 0xFFFu32) << 20u32)
}

/// Number of bytes that a supported relocation type rewrites.
pub open spec fn reloc_width(ty: u32) -> int {
    if ty == R_RISCV_CALL_PLT || ty == R_RISCV_GOT_HI20 || ty == R_RISCV_PCREL_HI20 {
        8
    } else if ty == R_RISCV_SET6 || ty == R_RISCV_SUB6 {
        1
    } else {
        4
    }
}

/// The relocation types that are applied (`R_RISCV_PCREL_LO12_I` is handled
/// with its `HI20` partner).
pub open spec fn is_applied_reloc(ty: u32) -> bool {
    ty == R_RISCV_CALL_PLT || ty == R_RISCV_GOT_HI20 || ty == R_RISCV_PCREL_HI20 || ty == R_RISCV_32
        || ty == R_RISCV_ADD32 || ty == R_RISCV_SUB32 || ty == R_RISCV_32_PCREL || ty
        == R_RISCV_SET6 || ty == R_RISCV_SUB6
}

/// The image `d` after applying a relocation of type `ty` at index `off`
/// (address `pc`) with symbol value `s` and addend `a`, modulo 2^32:
/// `auipc`+`jalr` becomes `lui`+`jalr`, `auipc`+`lw` becomes `lui`+`addi`,
/// `R_RISCV_32` stores S, `ADD32` adds S + A, `SUB32` subtracts S + A,
/// `32_PCREL` stores S - P, `SET6` sets and `SUB6` subtracts the low six bits.
pub open spec fn reloc_image(d: Seq<u8>, off: int, pc: u32, ty: u32, s: u32, a: i32) -> Seq<u8> {
    if ty == R_RISCV_CALL_PLT {
        put_word(put_word(d, off, lui_hi20(word_at(d, off), s)), off + 4, jalr_lo12(word_at(d, off + 4), s))
    } else if ty == R_RISCV_GOT_HI20 || ty == R_RISCV_PCREL_HI20 {
        put_word(put_word(d, off, lui_hi20(word_at(d, off), s)), off + 4, addi_lo12(word_at(d, off + 4), s))
    } else if ty == R_RISCV_32 {
        put_word(d, off, s)
    } else if ty == R_RISCV_ADD32 {
        put_word(d, off, wrap32(word_at(d, off) + s + (a as u32)))
    } else if ty == R_RISCV_SUB32 {
        put_word(d, off, wrap32(word_at(d, off) - s - (a as u32)))
    } else if ty == R_RISCV_32_PCREL {
        put_word(d, off, wrap32(s - pc))
    } else if ty == R_RISCV_SET6 {
        d.update(off, (d[off] & 0xC0u8) | ((s & 0x3Fu32) as u8))
    } else if ty == R_RISCV_SUB6 {
        d.update(off, (d[off] & 0xC0u8) | ((((d[off] & 0x3Fu8) - (s & 0x3Fu32)) % 64) as u8))
    } else {
        d
    }
}

/// The I-type immediate of `insn` (its bits 20 to 31) as the 32-bit value
/// that the hardware adds: sign-extended from 12 bits.
pub open spec fn imm_i(insn: u32) -> u32 {
    let imm = insn >> 20u32;
    if imm & 0x800u32 != 0 {
        imm | 0xFFFFF000u32
    } else {
        imm
    }
}

/// The U-type immediate of `insn`: its upper 20 bits, in place.
pub open spec fn imm_u(insn: u32) -> u32 {
    insn & 0xFFFFF000u32
}

/// The `lui` written for a `CALL_PLT`, `GOT_HI20` or `PCREL_HI20` relocation
/// and the `jalr` or `addi` written after it reach the symbol value `s`: the
/// upper immediate plus the sign-extended lower immediate is `s` modulo 2^32,
/// whatever the two instructions held before. The `lui` keeps the
/// destination register of the first instruction; the `jalr` keeps all but
/// the immediate of the second; the `addi` keeps its two registers.
pub proof fn law_hi_lo_pair(i1: u32, i2: u32, s: u32)
    ensures
        wrap32(imm_u(lui_hi20(i1, s)) + imm_i(jalr_lo12(i2, s))) == s,
        wrap32(imm_u(lui_hi20(i1, s)) + imm_i(addi_lo12(i2, s))) == s,
        lui_hi20(i1, s) & 0xFFFu32 == 0x37u32 | (i1 & 0xF80u32),
        jalr_lo12(i2, s) & 0xFFFFFu32 == i2 & 0xFFFFFu32,
        addi_lo12(i2, s) & 0xFFFFFu32 == 0x13u32 | (i2 & 0xF8F80u32),
{
    let w = wrap32(s + 0x800);
    assert(w == ((s + 0x800) % 0x1_0000_0000) as u32);
    let hi = imm_u(lui_hi20(i1, s));
    let lo1 = imm_i(jalr_lo12(i2, s));
    let lo2 = imm_i(addi_lo12(i2, s));
    assert(hi == w & 0xFFFFF000u32) by (bit_vector)
        requires
            hi == (0b0110111u32 | (i1 & 0xF80u32) | (w & 0xFFFFF000u32)) & 0xFFFFF000u32,
    ;
    assert(jalr_lo12(i2, s) >> 20u32 == addi_lo12(i2, s) >> 20u32) by (bit_vector);
    assert(lo1 == lo2);
    assert(((hi + lo1) % 0x1_0000_0000) as u32 == s) by (bit_vector)
        requires
            w == ((s + 0x800) % 0x1_0000_0000) as u32,
            hi == w & 0xFFFFF000u32,
            lo1 == (if ((((i2 & 0xFFFFFu32) | ((s & 0xFFFu32) << 20u32)) >> 20u32) & 0x800u32) != 0 {
                (((i2 & 0xFFFFFu32) | ((s & 0xFFFu32) << 20u32)) >> 20u32) | 0xFFFFF000u32
            } else {
                ((i2 & 0xFFFFFu32) | ((s & 0xFFFu32) << 20u32)) >> 20u32
            }),
    ;
    assert(lui_hi20(i1, s) & 0xFFFu32 == 0x37u32 | (i1 & 0xF80u32)) by (bit_vector)
        requires
            lui_hi20(i1, s) == 0b0110111u32 | (i1 & 0xF80u32) | (w & 0xFFFFF000u32),
    ;
    assert(jalr_lo12(i2, s) & 0xFFFFFu32 == i2 & 0xFFFFFu32) by (bit_vector);
    assert(addi_lo12(i2, s) & 0xFFFFFu32 == 0x13u32 | (i2 & 0xF8F80u32)) by (bit_vector);
}

/// A `SET6` relocation sets the low six bits of its target byte to the low
/// six bits of the symbol value, and a `SUB6` one subtracts those bits from
/// the byte's low six bits modulo 64; both keep the byte's top two bits and
/// every other byte of the image.
pub proof fn law_set6_sub6(d: Seq<u8>, off: int, pc: u32, s: u32, a: i32)
    requires
        0 <= off < d.len(),
    ensures
        ({
            let d1 = reloc_image(d, off, pc, R_RISCV_SET6, s, a);
            &&& d1.len() == d.len()
            &&& d1[off] & 0x3Fu8 == (s % 64) as u8
            &&& d1[off] & 0xC0u8 == d[off] & 0xC0u8
            &&& forall|j: int| 0 <= j < d.len() && j != off ==> d1[j] == d[j]
        }),
        ({
            let d2 = reloc_image(d, off, pc, R_RISCV_SUB6, s, a);
            &&& d2.len() == d.len()
            &&& (d2[off] & 0x3Fu8) as int == ((d[off] % 64) as int - (s % 64) as int) % 64
            &&& d2[off] & 0xC0u8 == d[off] & 0xC0u8
            &&& forall|j: int| 0 <= j < d.len() && j != off ==> d2[j] == d[j]
        }),
{
    let b = d[off];
    assert((((b & 0xC0u8) | ((s & 0x3Fu32) as u8)) & 0x3Fu8) == (s % 64) as u8) by (bit_vector);
    assert((((b & 0xC0u8) | ((s & 0x3Fu32) as u8)) & 0xC0u8) == b & 0xC0u8) by (bit_vector);
    assert(b & 0x3Fu8 == b % 64 && s & 0x3Fu32 == s % 64) by (bit_vector);
    let x: u8 = ((((b & 0x3Fu8) - (s & 0x3Fu32)) % 64) as u8);
    assert(0 <= ((b & 0x3Fu8) - (s & 0x3Fu32)) % 64 < 64);
    assert(x < 64);
    assert((((b & 0xC0u8) | x) & 0x3Fu8) == x) by (bit_vector)
        requires
            x < 64,
    ;
    assert((((b & 0xC0u8) | x) & 0xC0u8) == b & 0xC0u8) by (bit_vector)
        requires
            x < 64,
    ;
}

/// An `ADD32` relocation followed by a `SUB32` one with the same target,
/// symbol value and addend leaves the image as it was.
pub proof fn law_add32_sub32_undo(d: Seq<u8>, off: int, pc: u32, s: u32, a: i32)
    requires
        0 <= off,
        off + 4 <= d.len(),
    ensures
        reloc_image(reloc_image(d, off, pc, R_RISCV_ADD32, s, a), off, pc, R_RISCV_SUB32, s, a) == d,
{
    let w = word_at(d, off);
    let v1 = wrap32(w + s + (a as u32));
    let d1 = put_word(d, off, v1);
    assert(d1.subrange(off, off + 4) =~= le_bytes_u32(v1));
    crate::bytes::lemma_le_u32_roundtrip(v1);
    assert(word_at(d1, off) == v1);
    lemma_wrap32_sub(w + s + (a as u32), s as int);
    lemma_wrap32_sub(w + s + (a as u32) - s, (a as u32) as int);
    assert(wrap32(v1 - s) == wrap32(w + (a as u32)));
    lemma_wrap32_sub(w + (a as u32), (a as u32) as int);
    assert(wrap32(wrap32(v1 - s) - (a as u32)) == w);
    assert(wrap32(v1 - s - (a as u32)) == wrap32(wrap32(v1 - s) - (a as u32))) by {
        lemma_wrap32_sub(v1 - s, (a as u32) as int);
    }
    crate::bytes::lemma_le_bytes_of_word(d.subrange(off, off + 4));
    assert(put_word(d1, off, w) =~= d);
}

impl Library {
    /// The symbol that `rela` refers to: `Ok(None)` for index 0, `Err` when
    /// the index lies outside the symbol table.
    pub open spec fn rela_symbol(&self, rela: Elf32_Rela) -> Result<Option<Elf32_Sym>, ()> {
        let i = spec_r_sym(rela.r_info);
        if i == 0 {
            Ok(None)
        } else if i < self.symtab@.len() {
            Ok(Some(self.symtab@[i as int]))
        } else {
            Err(())
        }
    }

    /// `res` is a result that resolving `sym` can give: an absolute symbol its
    /// value, one in a copied section the section's address plus its value,
    /// any other its name passed to `resolve` (`Lookup` with the name when
    /// that gives nothing); `Parsing` without a symbol or a terminated name.
    pub open spec fn symbol_resolution<F: Fn(&[u8]) -> Option<u32>>(
        &self,
        sym: Option<Elf32_Sym>,
        resolve: F,
        res: Result<u32, Error>,
    ) -> bool {
        match sym {
            None => is_parsing_error(res, "relocation requires an associated symbol"),
            Some(s) => if s.st_shndx == SHN_ABS {
                res == Ok::<u32, Error>(s.st_value)
            } else if s.st_shndx != SHN_UNDEF && first_section(self.sectab@, s.st_shndx) is Some {
                res == Ok::<u32, Error>(
                    wrap32(
                        self.image_off + self.sectab@[first_section(
                            self.sectab@,
                            s.st_shndx,
                        ).unwrap()].sh_off + s.st_value,
                    ),
                )
            } else {
                match cstr_at(self.strtab@, s.st_name as int) {
                    None => is_parsing_error(res, "symbol in symbol table not null-terminated"),
                    Some(name) => exists|out: Option<u32>|
                        resolved_by(resolve, name, out) && match out {
                            Some(v) => res == Ok::<u32, Error>(v),
                            None => res matches Err(Error::Lookup(n)) && n@ == name,
                        },
                }
            },
        }
    }

    /// A relocation against a symbol that `lookup` (with local symbols
    /// allowed) can place, absolute or defined in a copied section, takes the
    /// address that `lookup` gives it, whatever the resolver answers.
    pub proof fn law_relocation_uses_lookup_address<F: Fn(&[u8]) -> Option<u32>>(
        &self,
        sym: Elf32_Sym,
        resolve: F,
        res: Result<u32, Error>,
    )
        requires
            self.symbol_address(sym, true) is Some,
            self.symbol_resolution(Some(sym), resolve, res),
        ensures
            res == Ok::<u32, Error>(self.symbol_address(sym, true).unwrap()),
            fault_of(res) == self.symbol_value(Some(sym), resolve),
    {
    }

    /// A resolution is the symbol's value when the resolver answers as a function.
    proof fn lemma_symbol_value<F: Fn(&[u8]) -> Option<u32>>(&self, sym: Option<Elf32_Sym>, f: F, res: Result<u32, Error>)
        requires
            resolver_is_function(f),
            self.symbol_resolution(sym, f, res),
        ensures
            fault_of(res) == self.symbol_value(sym, f),
    {
        match sym {
            None => {},
            Some(s) => {
                if s.st_shndx == SHN_ABS {
                } else if s.st_shndx != SHN_UNDEF && first_section(self.sectab@, s.st_shndx) is Some {
                } else {
                    match cstr_at(self.strtab@, s.st_name as int) {
                        None => {},
                        Some(name) => {
                            let out = choose|out: Option<u32>| resolved_by(f, name, out) && match out {
                                Some(v) => res == Ok::<u32, Error>(v),
                                None => res matches Err(Error::Lookup(n)) && n@ == name,
                            };
                            lemma_resolver_answer(f, name, out);
                        },
                    }
                }
            },
        }
    }

    /// Resolves the address of the symbol of a relocation.
    fn resolve_symbol_addr<F: Fn(&[u8]) -> Option<u32>>(&self, sym: Option<Elf32_Sym>, resolve: &F) -> (r:
        Result<u32, Error>)
        requires
            forall|s: &[u8]| call_requires(*resolve, (s,)),
        ensures
            self.symbol_resolution(sym, *resolve, r),
    {
        let sym = match sym {
            Some(s) => s,
            None => return Err(Error::Parsing("relocation requires an associated symbol")),
        };
        if sym.st_shndx == SHN_ABS {
            return Ok(sym.st_value);
        }
        if sym.st_shndx != SHN_UNDEF {
            match find_section(&self.sectab, sym.st_shndx) {
                Some(k) => {
                    proof {
                        lemma_wrap32_add(self.image_off + self.sectab@[k as int].sh_off, sym.st_value as int);
                    }
                    return Ok(wadd(wadd(self.image_off, self.sectab[k].sh_off), sym.st_value));
                },
                None => {},
            }
        }
        // Not defined here: resolve the symbol with the provided resolve function
        let sym_name = match name_starting_at_slice(self.strtab.as_slice(), sym.st_name as usize) {
            Ok(n) => n,
            Err(e) => return Err(e),
        };
        let out = resolve(sym_name);
        proof {
            assert(resolved_by(*resolve, sym_name@, out));
        }
        match out {
            Some(value) => Ok(value),
            None => {
                // We couldn't find it anywhere.
                Err(Error::Lookup(vstd::slice::slice_to_vec(sym_name)))
            },
        }
    }
}

/// Writes the four bytes of `b` at `off` of `d`.
fn put_bytes4(d: &mut Vec<u8>, off: usize, b: [u8; 4])
    requires
        off + 4 <= old(d).len(),
    ensures
        final(d)@ == splice(old(d)@, off as int, b@),
{
    let ghost d0 = d@;
    d.set(off, b[0]);
    d.set(off + 1, b[1]);
    d.set(off + 2, b[2]);
    d.set(off + 3, b[3]);
    assert(d@ =~= splice(d0, off as int, b@));
}

/// Applies a relocation of type `ty` at index `off` of the image (address
/// `pc`) with symbol value `s` and addend `a`.
pub fn apply_reloc(image: &mut Vec<u8>, off: usize, pc: u32, ty: u32, s: u32, a: i32)
    requires
        is_applied_reloc(ty),
        off + reloc_width(ty) <= old(image).len(),
    ensures
        final(image)@ == reloc_image(old(image)@, off as int, pc, ty, s, a),
        final(image)@.len() == old(image)@.len(),
{
    let ghost d = image@;
    if ty == R_RISCV_CALL_PLT || ty == R_RISCV_GOT_HI20 || ty == R_RISCV_PCREL_HI20 {
        // Replace the auipc+jalr (auipc+lw) sequence with lui+jalr (lui+addi);
        // jalr and addi take a signed immediate, so the upper 20 bits are
        // rounded by 0x800.
        let auipc_insn = crate::bytes::get_u32(image.as_slice(), off);
        let next_insn = crate::bytes::get_u32(image.as_slice(), off + 4);
        let lui_insn = 0b0110111u32 | (auipc_insn & 0xF80u32) | (wadd(s, 0x800) & 0xFFFFF000u32);
        let lo_insn = if ty == R_RISCV_CALL_PLT {
            (next_insn & 0xFFFFFu32) | ((s & 0xFFFu32) << 20u32)
        } else {
            0b0010011u32 | (next_insn & 0xF8F80u32) | ((s & 0xFFFu32) << 20u32)
        };
        put_u32(image, off, lui_insn);
        put_u32(image, off + 4, lo_insn);
        assert(word_at(d, off as int) == auipc_insn);
        assert(word_at(d, off + 4) == next_insn);
    } else if ty == R_RISCV_32 {
        put_u32(image, off, s);
    } else if ty == R_RISCV_ADD32 || ty == R_RISCV_SUB32 {
        let old_value = le_read_u32(vstd::slice::slice_subrange(image.as_slice(), off, off + 4));
        assert(old_value == word_at(d, off as int));
        let new_value = if ty == R_RISCV_ADD32 {
            proof {
                lemma_wrap32_add(old_value + s, (a as u32) as int);
            }
            wadd(wadd(old_value, s), a as u32)
        } else {
            proof {
                lemma_wrap32_sub(old_value - s, (a as u32) as int);
            }
            wsub(wsub(old_value, s), a as u32)
        };
        let mut buf = [0u8; 4];
        le_write_u32(&mut buf, new_value);
        put_bytes4(image, off, buf);
    } else if ty == R_RISCV_32_PCREL {
        put_u32(image, off, wsub(s, pc));
    } else if ty == R_RISCV_SET6 {
        let b = image[off];
        proof {
            assert(s & 0x3Fu32 <= 0x3F) by (bit_vector);
        }
        image.set(off, (b & 0xC0u8) | ((s & 0x3Fu32) as u8));
    } else {
        let b = image[off];
        let x = b & 0x3Fu8;
        let y = (s & 0x3Fu32) as u8;
        let z = x.wrapping_sub(y);
        proof {
            assert(s & 0x3Fu32 <= 0x3F) by (bit_vector);
            assert(x <= 0x3F) by (bit_vector)
                requires x == b & 0x3Fu8;
            assert(z & 0x3Fu8 == z % 64) by (bit_vector);
            if x < y {
                vstd::arithmetic::div_mod::lemma_mod_add_multiples_vanish(x - y, 64);
                vstd::arithmetic::div_mod::lemma_mod_add_multiples_vanish(x - y + 64, 64);
                vstd::arithmetic::div_mod::lemma_mod_add_multiples_vanish(x - y + 128, 64);
                vstd::arithmetic::div_mod::lemma_mod_add_multiples_vanish(x - y + 192, 64);
            }
            assert((z & 0x3Fu8) as int == ((x as int - (s & 0x3Fu32) as int) % 64));
        }
        image.set(off, (b & 0xC0u8) | (z & 0x3Fu8));
    }
    assert(image@ =~= reloc_image(d, off as int, pc, ty, s, a));
}

impl Library {
    /// Applies the relocation `rela` to the section `target_section` of the
    /// image, whose first byte lies at `self.image_off`: resolves its symbol
    /// (through `resolve` when not defined here), then rewrites its target as
    /// `reloc_image` describes. The image is left as it was on `Err`.
    pub fn resolve_rela<F: Fn(&[u8]) -> Option<u32>>(
        &self,
        image: &mut Vec<u8>,
        rela: &Elf32_Rela,
        target_section: Elf32_Half,
        resolve: &F,
    ) -> (r: Result<(), Error>)
        requires
            forall|s: &[u8]| call_requires(*resolve, (s,)),
            self.image_off + old(image)@.len() <= u32::MAX,
        ensures
            r is Err ==> final(image)@ == old(image)@,
            final(image)@.len() == old(image)@.len(),
            resolver_is_function(*resolve) ==> (fault_of(r), final(image)@) == self.rela_effect(
                *resolve,
                old(image)@,
                *rela,
                target_section,
            ),
            self.rela_outcome(*resolve, old(image)@, *rela, target_section, fault_of(r), final(image)@),
    {
        let sym_index = ELF32_R_SYM(rela.r_info);
        let sym = if sym_index == 0 {
            None
        } else if (sym_index as usize) < self.symtab.len() {
            Some(self.symtab[sym_index as usize])
        } else {
            return Err(Error::Parsing("symbol out of bounds of symbol table"));
        };
        let ty = ELF32_R_TYPE(rela.r_info);
        if ty == R_RISCV_PCREL_LO12_I {
            // Already relocated when processing the GOT_HI20/PCREL_HI20 relocation
            return Ok(());
        }
        if !(ty == R_RISCV_CALL_PLT || ty == R_RISCV_GOT_HI20 || ty == R_RISCV_PCREL_HI20 || ty
            == R_RISCV_32 || ty == R_RISCV_ADD32 || ty == R_RISCV_SUB32 || ty == R_RISCV_32_PCREL
            || ty == R_RISCV_SET6 || ty == R_RISCV_SUB6) {
            return Err(Error::Parsing("unsupported relocation type"));
        }
        let value = self.resolve_symbol_addr(sym, resolve);
        let ghost res = value;
        proof {
            if resolver_is_function(*resolve) {
                self.lemma_symbol_value(sym, *resolve, res);
            }
        }
        let value = match value {
            Ok(v) => v,
            Err(e) => return Err(e),
        };
        let target_sec_off = match find_section(&self.sectab, target_section) {
            Some(k) => self.sectab[k].sh_off,
            None => return Err(Error::Parsing("Cannot find section with matching sh_index")),
        };
        let width: u64 = if ty == R_RISCV_CALL_PLT || ty == R_RISCV_GOT_HI20 || ty
            == R_RISCV_PCREL_HI20 {
            8
        } else if ty == R_RISCV_SET6 || ty == R_RISCV_SUB6 {
            1
        } else {
            4
        };
        let off = target_sec_off as u64 + rela.r_offset as u64;
        if off + width > image.len() as u64 {
            return Err(Error::Parsing("relocation target outside the image"));
        }
        let pc = self.image_off + off as u32;
        apply_reloc(image, off as usize, pc, ty, value, rela.r_addend);
        Ok(())
    }
}

/// `r` is the parsing error with message `msg`.
pub open spec fn is_parsing_error<T>(r: Result<T, Error>, msg: &'static str) -> bool {
    r matches Err(Error::Parsing(m)) && m == msg
}

/// The identification bytes of a 32-bit little-endian ELF object of the
/// current version and the System V ABI.
pub open spec fn elf_ident() -> Seq<u8> {
    seq![ELFMAG0, ELFMAG1, ELFMAG2, ELFMAG3, ELFCLASS32, ELFDATA2LSB, EV_CURRENT, ELFOSABI_NONE,
        0u8, 0u8, 0u8, 0u8, 0u8, 0u8, 0u8, 0u8]
}

/// The header at the start of `d` is that of a relocatable object for the
/// machine `machine` with flags `flags`.
pub open spec fn header_accepted(d: Seq<u8>, machine: u16, flags: u32) -> bool {
    &&& d.subrange(0, 16) == elf_ident()
    &&& half_at(d, 16) == ET_REL
    &&& half_at(d, 18) == machine
    &&& crate::elf::word_at(d, 36) == flags
}

/// Decodes and checks the ELF header of `data`.
pub fn read_header(data: &[u8], machine: u16, flags: u32) -> (r: Result<Elf32_Ehdr, Error>)
    ensures
        data@.len() < EHDR_SIZE ==> is_parsing_error(r, "cannot read ELF header"),
        data@.len() >= EHDR_SIZE ==> {
            &&& header_accepted(data@, machine, flags) ==> (r matches Ok(h) && is_ehdr_of(h, data@))
            &&& !header_accepted(data@, machine, flags) ==> is_parsing_error(
                r,
                "not a shared library for current architecture",
            )
        },
{
    if data.len() < EHDR_SIZE {
        return Err(Error::Parsing("cannot read ELF header"));
    }
    let ehdr = Elf32_Ehdr::decode(data);
    let ident: [u8; 16] = [
        ELFMAG0, ELFMAG1, ELFMAG2, ELFMAG3,
        ELFCLASS32, ELFDATA2LSB, EV_CURRENT, ELFOSABI_NONE,
        /* ABI version */ 0, /* padding */ 0, 0, 0, 0, 0, 0, 0
    ];
    let mut same = true;
    let mut i: usize = 0;
    while i < 16
        invariant
            i <= 16,
            ident@ == elf_ident(),
            ehdr.e_ident@.len() == 16,
            same == (forall|j: int| 0 <= j < i ==> ehdr.e_ident@[j] == ident@[j]),
        decreases 16 - i,
    {
        if ehdr.e_ident[i] != ident[i] {
            same = false;
        }
        i = i + 1;
    }
    assert(same == (ehdr.e_ident@ =~= ident@));
    if !same || ehdr.e_type != ET_REL || ehdr.e_machine != machine || ehdr.e_flags != flags {
        return Err(Error::Parsing("not a shared library for current architecture"));
    }
    Ok(ehdr)
}

/// `n` records of `size` bytes at `offset` of a buffer of `len` bytes at
/// address `addr` lie inside it, aligned to `align`.
pub open spec fn records_fit(len: int, addr: int, offset: int, size: int, n: int, align: int) -> bool {
    offset + size * n <= len && (addr + offset) % align == 0
}

/// The bytes of `len` records of `size` bytes at `offset` of `data`, whose
/// first byte lies at address `data_addr`, when they lie inside it and start
/// at a multiple of `align`.
pub fn get_ref_slice(data: &[u8], data_addr: u32, offset: u32, len: u32, size: u32, align: u32) -> (r:
    Result<&[u8], ()>)
    requires
        align > 0,
        data_addr + data@.len() <= u32::MAX,
        offset + size * len <= u32::MAX,
    ensures
        records_fit(data@.len() as int, data_addr as int, offset as int, size as int, len as int, align as int)
            ==> (r matches Ok(b) && b@ == data@.subrange(offset as int, offset + size * len)),
        !records_fit(data@.len() as int, data_addr as int, offset as int, size as int, len as int, align as int)
            ==> r is Err,
{
    proof {
        vstd::arithmetic::mul::lemma_mul_nonnegative(size as int, len as int);
    }
    let total = offset as u64 + size as u64 * len as u64;
    if (data.len() as u64) < total {
        Err(())
    } else if (data_addr as u64 + offset as u64) % align as u64 != 0 {
        Err(())
    } else {
        Ok(vstd::slice::slice_subrange(data, offset as usize, total as usize))
    }
}

/// Decodes the section header table of `data` that `ehdr` describes.
pub fn read_section_headers(data: &[u8], data_addr: u32, ehdr: &Elf32_Ehdr) -> (r: Result<Vec<Elf32_Shdr>, Error>)
    requires
        data_addr + data@.len() <= u32::MAX,
        ehdr.e_shoff + SHDR_SIZE * ehdr.e_shnum <= u32::MAX,
    ensures
        records_fit(data@.len() as int, data_addr as int, ehdr.e_shoff as int, SHDR_SIZE as int, ehdr.e_shnum as int, 4)
            ==> (r matches Ok(v) && v@.len() == ehdr.e_shnum && forall|i: int|
            0 <= i < ehdr.e_shnum ==> #[trigger] v@[i] == shdr_at(data@, ehdr.e_shoff + SHDR_SIZE * i)),
        !records_fit(data@.len() as int, data_addr as int, ehdr.e_shoff as int, SHDR_SIZE as int, ehdr.e_shnum as int, 4)
            ==> is_parsing_error(r, "cannot read section header table"),
{
    match get_ref_slice(data, data_addr, ehdr.e_shoff, ehdr.e_shnum as u32, SHDR_SIZE as u32, 4) {
        Ok(_) => {},
        Err(()) => return Err(Error::Parsing("cannot read section header table")),
    }
    let n = ehdr.e_shnum as usize;
    let shoff = ehdr.e_shoff as usize;
    let mut v: Vec<Elf32_Shdr> = Vec::new();
    let mut i: usize = 0;
    while i < n
        invariant
            i <= n,
            n == ehdr.e_shnum,
            shoff == ehdr.e_shoff,
            shoff + SHDR_SIZE * n <= data.len(),
            v@.len() == i,
            forall|j: int| 0 <= j < i ==> #[trigger] v@[j] == shdr_at(data@, shoff + SHDR_SIZE * j),
        decreases n - i,
    {
        assert(SHDR_SIZE == 40);
        assert(40 * i + 40 <= 40 * n) by (nonlinear_arith)
            requires
                i < n,
        ;
        let h = Elf32_Shdr::decode(data, shoff + SHDR_SIZE * i);
        v.push(h);
        i = i + 1;
    }
    Ok(v)
}

/// Size in bytes of a section table entry in the image of the 32-bit target
/// (`SectionHeader` there: a 2-byte index, a 4-aligned 8-byte kind, two words).
pub const SECTION_HEADER_SIZE: u32 = 20;

/// Offset of the section table in the image: after two program headers.
pub const SECTAB_OFF: u32 = 64;

/// The name `.eh_frame`.
pub open spec fn eh_frame_name() -> Seq<u8> {
    seq![46u8, 101u8, 104u8, 95u8, 102u8, 114u8, 97u8, 109u8, 101u8]
}

/// State of copying sections into the image: the next free offset, the
/// section table built so far, where the executable section, symbol table
/// and string table were put, the index of `.eh_frame`, and the image.
pub struct Placement {
    pub load_off: u32,
    pub sectab: Seq<SectionHeader>,
    pub exec_off: u32,
    pub symtab_off: u32,
    pub symtab_sz: u32,
    pub strtab_off: u32,
    pub strtab_sz: u32,
    pub eh_frame_sec_ind: u32,
    pub image: Seq<u8>,
}

/// Outcome of copying sections: the final state, an error, or an input on
/// which the copy cannot proceed (zero alignment, arithmetic beyond 32 bits,
/// an unterminated section name).
pub enum Placed {
    Done(Placement),
    Failed(&'static str),
    Stuck,
}

/// The 20 bytes of a section table entry, laid out as the 32-bit target
/// lays out `SectionHeader`: the index in two bytes and two of padding; the
/// kind as a C enum, a four-byte tag (0 for RELA, 1 for PROGBITS) then the
/// index of the section a RELA section relocates in two bytes (0 for
/// PROGBITS) and two of padding; the offset; the size. Padding is zero.
pub open spec fn sectab_entry_bytes(e: SectionHeader) -> Seq<u8> {
    let (tag, target) = match e.sh_type {
        SectionType::RELA(t) => (0u32, t),
        SectionType::PROGBITS => (1u32, 0u16),
    };
    le_bytes_u16(e.sh_index) + seq![0u8, 0u8] + le_bytes_u32(tag) + le_bytes_u16(target) + seq![0u8, 0u8]
        + le_bytes_u32(e.sh_off) + le_bytes_u32(e.sh_size)
}

/// `st` with `e` added to its section table, both in the table it keeps and
/// in the table's room at the start of the image.
pub open spec fn with_entry(st: Placement, e: SectionHeader) -> Placement {
    Placement {
        sectab: st.sectab.push(e),
        image: splice(st.image, SECTAB_OFF + SECTION_HEADER_SIZE * st.sectab.len(), sectab_entry_bytes(e)),
        ..st
    }
}

/// Section `sh` enters the section table: a PROGBITS or RELA section that
/// is not empty.
pub open spec fn enters_sectab(sh: Elf32_Shdr) -> bool {
    (sh.sh_type == SHT_PROGBITS || sh.sh_type == SHT_RELA) && sh.sh_size != 0
}

/// Copies section `i` (`sh`) of the object `d`: sections of kind PROGBITS,
/// SYMTAB, STRTAB and RELA that are not empty go to the next offset aligned
/// to their alignment; PROGBITS and RELA sections enter the section table.
pub open spec fn place_section(d: Seq<u8>, strtab_src: Seq<u8>, i: int, sh: Elf32_Shdr, st: Placement) -> Placed {
    let sz = sh.sh_size;
    let ty = sh.sh_type;
    if sz == 0 || !(ty == SHT_PROGBITS || ty == SHT_SYMTAB || ty == SHT_STRTAB || ty == SHT_RELA) {
        Placed::Done(st)
    } else if sh.sh_addralign == 0 {
        Placed::Stuck
    } else {
        let align = sh.sh_addralign;
        let dst = st.load_off + (align - st.load_off % align) % (align as int);
        if dst > u32::MAX || dst + sz > u32::MAX {
            Placed::Stuck
        } else if dst + sz > st.image.len() {
            Placed::Failed("cannot write to section header destination")
        } else if sh.sh_offset + sz > u32::MAX {
            Placed::Stuck
        } else if sh.sh_offset + sz > d.len() {
            Placed::Failed("cannot read from section header destination")
        } else {
            let img = splice(st.image, dst, d.subrange(sh.sh_offset as int, sh.sh_offset + sz));
            let st2 = Placement { load_off: (dst + sz) as u32, image: img, ..st };
            if ty == SHT_PROGBITS {
                let entry = SectionHeader {
                    sh_index: i as u16,
                    sh_type: SectionType::PROGBITS,
                    sh_off: dst as u32,
                    sh_size: sz,
                };
                let st3 = with_entry(st2, entry);
                if sh.sh_flags & SHF_EXECINSTR != 0 {
                    Placed::Done(Placement { exec_off: dst as u32, ..st3 })
                } else {
                    match cstr_at(strtab_src, sh.sh_name as int) {
                        None => Placed::Stuck,
                        Some(n) => if n == eh_frame_name() {
                            Placed::Done(Placement { eh_frame_sec_ind: i as u32, ..st3 })
                        } else {
                            Placed::Done(st3)
                        },
                    }
                }
            } else if ty == SHT_SYMTAB {
                Placed::Done(Placement { symtab_off: dst as u32, symtab_sz: sz / 16, ..st2 })
            } else if ty == SHT_STRTAB {
                Placed::Done(Placement { strtab_off: dst as u32, strtab_sz: sz, ..st2 })
            } else {
                let entry = SectionHeader {
                    sh_index: i as u16,
                    sh_type: SectionType::RELA(sh.sh_info as u16),
                    sh_off: dst as u32,
                    sh_size: sz,
                };
                Placed::Done(with_entry(st2, entry))
            }
        }
    }
}

/// A section that is copied starts at the first offset at or after the end
/// of the previous one (`st.load_off`) that is a multiple of its alignment,
/// and the next one starts right after it. A PROGBITS or RELA section's
/// table entry gives that offset, its size and its index. When the table's
/// room lies before that offset, the section's bytes there are the object's.
pub proof fn law_section_placed_at_its_alignment(d: Seq<u8>, strtab_src: Seq<u8>, i: int, sh: Elf32_Shdr, st: Placement)
    requires
        sh.sh_size != 0,
        sh.sh_type == SHT_PROGBITS || sh.sh_type == SHT_SYMTAB || sh.sh_type == SHT_STRTAB || sh.sh_type
            == SHT_RELA,
        place_section(d, strtab_src, i, sh, st) is Done,
    ensures
        ({
            let st2 = place_section(d, strtab_src, i, sh, st)->Done_0;
            let dst = st2.load_off - sh.sh_size;
            &&& sh.sh_addralign > 0
            &&& dst % (sh.sh_addralign as int) == 0
            &&& st.load_off <= dst < st.load_off + sh.sh_addralign
            &&& enters_sectab(sh) ==> {
                &&& st2.sectab.len() == st.sectab.len() + 1
                &&& st2.sectab.last().sh_off == dst
                &&& st2.sectab.last().sh_size == sh.sh_size
                &&& st2.sectab.last().sh_index == i as u16
            }
            &&& !enters_sectab(sh) ==> st2.sectab == st.sectab
            &&& SECTAB_OFF + SECTION_HEADER_SIZE * (st.sectab.len() + 1) <= st.load_off ==> st2.image.subrange(
                dst,
                st2.load_off as int,
            ) == d.subrange(sh.sh_offset as int, sh.sh_offset + sh.sh_size)
        }),
{
    let a = sh.sh_addralign as int;
    let lo = st.load_off as int;
    let r = lo % a;
    let q = lo / a;
    vstd::arithmetic::div_mod::lemma_fundamental_div_mod(lo, a);
    assert(0 <= r < a);
    let dst = lo + (a - r) % a;
    if r == 0 {
        vstd::arithmetic::div_mod::lemma_mod_self_0(a);
        assert(dst == lo);
        assert(dst == a * q);
        vstd::arithmetic::div_mod::lemma_mod_multiples_basic(q, a);
        assert(q * a == a * q) by (nonlinear_arith);
    } else {
        vstd::arithmetic::div_mod::lemma_small_mod((a - r) as nat, a as nat);
        assert(dst == a * (q + 1)) by (nonlinear_arith)
            requires
                dst == lo + (a - r),
                lo == a * q + r,
        ;
        vstd::arithmetic::div_mod::lemma_mod_multiples_basic(q + 1, a);
        assert((q + 1) * a == a * (q + 1)) by (nonlinear_arith);
    }
    let st2 = place_section(d, strtab_src, i, sh, st)->Done_0;
    assert(st2.load_off == dst + sh.sh_size);
    let data = d.subrange(sh.sh_offset as int, sh.sh_offset + sh.sh_size);
    let img1 = splice(st.image, dst, data);
    assert(img1.subrange(dst, dst + sh.sh_size) =~= data);
    if enters_sectab(sh) && SECTAB_OFF + SECTION_HEADER_SIZE * (st.sectab.len() + 1) <= st.load_off {
        let e = SECTAB_OFF + SECTION_HEADER_SIZE * st.sectab.len();
        assert(st2.image.subrange(dst, dst + sh.sh_size) =~= img1.subrange(dst, dst + sh.sh_size));
    }
}

/// The fields of an `.eh_frame_hdr` that lies at byte `h` of `d2`.
proof fn lemma_hdr_fields_at(d2: Seq<u8>, h: int, e: u32, es: Seq<(u32, u32)>)
    requires
        0 <= h,
        h + 12 + 8 * es.len() <= d2.len(),
        es.len() <= u32::MAX,
        d2.subrange(h, h + 12 + 8 * es.len()) == hdr_bytes(e, es),
    ensures
        le_u32(d2.subrange(h + 4, h + 8)) == e,
        le_u32(d2.subrange(h + 8, h + 12)) == es.len(),
        forall|j: int|
            0 <= j < es.len() ==> le_u32(d2.subrange(h + 12 + 8 * j, h + 16 + 8 * j)) == (#[trigger] es[j]).0
                && le_u32(d2.subrange(h + 16 + 8 * j, h + 20 + 8 * j)) == es[j].1,
{
    let n = es.len();
    crate::dwarf::law_hdr_reads_back(e, es);
    let w = d2.subrange(h, h + 12 + 8 * n);
    assert(d2.subrange(h + 4, h + 8) =~= w.subrange(4, 8));
    assert(d2.subrange(h + 8, h + 12) =~= w.subrange(8, 12));
    assert forall|j: int| 0 <= j < n implies le_u32(d2.subrange(h + 12 + 8 * j, h + 16 + 8 * j)) == (
    #[trigger] es[j]).0 && le_u32(d2.subrange(h + 16 + 8 * j, h + 20 + 8 * j)) == es[j].1 by {
        assert(d2.subrange(h + 12 + 8 * j, h + 16 + 8 * j) =~= w.subrange(12 + 8 * j, 16 + 8 * j));
        assert(d2.subrange(h + 16 + 8 * j, h + 20 + 8 * j) =~= w.subrange(16 + 8 * j, 20 + 8 * j));
    }
}

/// The type, offset and size of a PT_GNU_EH_FRAME program header at byte 32 of `d2`.
proof fn lemma_eh_phdr_fields(d2: Seq<u8>, off: u32, sz: u32)
    requires
        64 <= d2.len(),
        d2.subrange(32, 64) == phdr_bytes(eh_frame_phdr(off, sz)),
    ensures
        le_u32(d2.subrange(32, 36)) == PT_GNU_EH_FRAME,
        le_u32(d2.subrange(36, 40)) == off,
        le_u32(d2.subrange(48, 52)) == sz,
{
    let p = d2.subrange(32, 64);
    assert(d2.subrange(32, 36) =~= p.subrange(0, 4));
    assert(d2.subrange(36, 40) =~= p.subrange(4, 8));
    assert(d2.subrange(48, 52) =~= p.subrange(16, 20));
    assert(p.subrange(0, 4) =~= le_bytes_u32(PT_GNU_EH_FRAME));
    assert(p.subrange(4, 8) =~= le_bytes_u32(off));
    assert(p.subrange(16, 20) =~= le_bytes_u32(sz));
    crate::bytes::lemma_le_u32_roundtrip(PT_GNU_EH_FRAME);
    crate::bytes::lemma_le_u32_roundtrip(off);
    crate::bytes::lemma_le_u32_roundtrip(sz);
}

/// Copies sections `i` onwards, in order.
pub open spec fn place_sections(d: Seq<u8>, strtab_src: Seq<u8>, shdrs: Seq<Elf32_Shdr>, i: int, st: Placement) -> Placed
    decreases shdrs.len() - i,
{
    if i < 0 || i >= shdrs.len() {
        Placed::Done(st)
    } else {
        match place_section(d, strtab_src, i, shdrs[i], st) {
            Placed::Done(st2) => place_sections(d, strtab_src, shdrs, i + 1, st2),
            other => other,
        }
    }
}

/// Number of sections among `shdrs` that enter the section table.
pub open spec fn sectab_count(shdrs: Seq<Elf32_Shdr>) -> nat
    decreases shdrs.len(),
{
    if shdrs.len() == 0 {
        0
    } else {
        sectab_count(shdrs.drop_last()) + if enters_sectab(shdrs.last()) {
            1nat
        } else {
            0nat
        }
    }
}

/// The sections copied into an image and where.
pub struct Layout {
    pub load_off: u32,
    pub sectab: Vec<SectionHeader>,
    pub exec_off: u32,
    pub symtab_off: u32,
    pub symtab_sz: u32,
    pub strtab_off: u32,
    pub strtab_sz: u32,
    pub eh_frame_sec_ind: u32,
}

impl Layout {
    pub open spec fn placement(&self, image: Seq<u8>) -> Placement {
        Placement {
            load_off: self.load_off,
            sectab: self.sectab@,
            exec_off: self.exec_off,
            symtab_off: self.symtab_off,
            symtab_sz: self.symtab_sz,
            strtab_off: self.strtab_off,
            strtab_sz: self.strtab_sz,
            eh_frame_sec_ind: self.eh_frame_sec_ind,
            image,
        }
    }
}

/// Counts the sections that enter the section table.
pub fn count_sectab(shdrs: &Vec<Elf32_Shdr>) -> (r: u32)
    requires
        shdrs.len() <= u16::MAX,
    ensures
        r == sectab_count(shdrs@),
        r <= shdrs.len(),
{
    let mut n: u32 = 0;
    let mut i: usize = 0;
    while i < shdrs.len()
        invariant
            i <= shdrs.len() <= u16::MAX,
            n == sectab_count(shdrs@.subrange(0, i as int)),
            n <= i,
        decreases shdrs.len() - i,
    {
        assert(shdrs@.subrange(0, i + 1).drop_last() =~= shdrs@.subrange(0, i as int));
        let sh = &shdrs[i];
        if (sh.sh_type == SHT_PROGBITS || sh.sh_type == SHT_RELA) && sh.sh_size != 0 {
            n = n + 1;
        }
        i = i + 1;
    }
    assert(shdrs@.subrange(0, i as int) =~= shdrs@);
    n
}

/// Whether `a` is the name `.eh_frame`.
fn is_eh_frame_name(a: &[u8]) -> (r: bool)
    ensures
        r == (a@ == eh_frame_name()),
{
    let name: [u8; 9] = [46, 101, 104, 95, 102, 114, 97, 109, 101];
    assert(name@ =~= eh_frame_name());
    slice_eq(a, name.as_slice())
}

/// Writes the section table entry `e` as entry `k` of the table.
#[verifier::spinoff_prover]
#[verifier::rlimit(30)]
fn write_sectab_entry(image: &mut Vec<u8>, k: usize, e: &SectionHeader)
    requires
        SECTAB_OFF + SECTION_HEADER_SIZE * (k + 1) <= old(image)@.len(),
    ensures
        final(image)@ == splice(old(image)@, SECTAB_OFF + SECTION_HEADER_SIZE * k, sectab_entry_bytes(*e)),
        final(image)@.len() == old(image)@.len(),
{
    let ghost d0 = image@;
    let len = image.len();
    assert(64 + 20 * (k + 1) <= len);
    let off: usize = 64 + 20 * k;
    let (tag, target): (u32, u16) = match e.sh_type {
        SectionType::RELA(t) => (0, t),
        SectionType::PROGBITS => (1, 0),
    };
    image.set(off, (e.sh_index % 256) as u8);
    image.set(off + 1, (e.sh_index / 256) as u8);
    image.set(off + 2, 0);
    image.set(off + 3, 0);
    put_u32(image, off + 4, tag);
    image.set(off + 8, (target % 256) as u8);
    image.set(off + 9, (target / 256) as u8);
    image.set(off + 10, 0);
    image.set(off + 11, 0);
    put_u32(image, off + 12, e.sh_off);
    put_u32(image, off + 16, e.sh_size);
    assert(image@ =~= splice(d0, off as int, sectab_entry_bytes(*e)));
}

/// Counting the sections of a prefix one section longer.
proof fn lemma_sectab_count_step(s: Seq<Elf32_Shdr>, i: int)
    requires
        0 <= i < s.len(),
    ensures
        sectab_count(s.subrange(0, i + 1)) == sectab_count(s.subrange(0, i)) + if enters_sectab(s[i]) {
            1int
        } else {
            0int
        },
{
    assert(s.subrange(0, i + 1).drop_last() =~= s.subrange(0, i));
}

/// A prefix has no more sections in the table than the whole.
proof fn lemma_sectab_count_prefix(s: Seq<Elf32_Shdr>, j: int)
    requires
        0 <= j <= s.len(),
    ensures
        sectab_count(s.subrange(0, j)) <= sectab_count(s),
    decreases s.len() - j,
{
    if j == s.len() {
        assert(s.subrange(0, j) =~= s);
    } else {
        lemma_sectab_count_step(s, j);
        lemma_sectab_count_prefix(s, j + 1);
    }
}

/// Copies section `i` into the image, as `place_section` describes; `None`
/// where it cannot proceed.
fn load_section(
    data: &[u8],
    strtab_src: &[u8],
    image: &mut Vec<u8>,
    i: usize,
    sh: &Elf32_Shdr,
    layout: &mut Layout,
) -> (r: Option<Result<(), Error>>)
    requires
        i <= u16::MAX,
        old(image)@.len() <= u32::MAX,
        enters_sectab(*sh) ==> SECTAB_OFF + SECTION_HEADER_SIZE * (old(layout).sectab@.len() + 1)
            <= old(image)@.len(),
    ensures
        match place_section(data@, strtab_src@, i as int, *sh, old(layout).placement(old(image)@)) {
            Placed::Done(st) => r == Some(Ok::<(), Error>(())) && final(layout).placement(final(image)@) == st,
            Placed::Failed(msg) => r matches Some(rr) && is_parsing_error(rr, msg),
            Placed::Stuck => r is None,
        },
        final(image)@.len() == old(image)@.len(),
{
    let shdr_sz = sh.sh_size;
    let ty = sh.sh_type;
    if shdr_sz == 0 {
        return Some(Ok(()));
    }
    if !(ty == SHT_PROGBITS || ty == SHT_SYMTAB || ty == SHT_STRTAB || ty == SHT_RELA) {
        return Some(Ok(()));
    }
    let ghost st = layout.placement(image@);
    // Enforce section alignment
    let align = sh.sh_addralign;
    if align == 0 {
        return None;
    }
    let load_off = layout.load_off;
    let dst64 = load_off as u64 + ((align - (load_off % align)) % align) as u64;
    if dst64 > u32::MAX as u64 || dst64 + shdr_sz as u64 > u32::MAX as u64 {
        return None;
    }
    let dst = dst64 as u32;
    if image.len() < dst as usize + shdr_sz as usize {
        return Some(Err(Error::Parsing("cannot write to section header destination")));
    }
    let shdr_off = sh.sh_offset;
    if shdr_off as u64 + shdr_sz as u64 > u32::MAX as u64 {
        return None;
    }
    if data.len() < shdr_off as usize + shdr_sz as usize {
        return Some(Err(Error::Parsing("cannot read from section header destination")));
    }
    let ghost img0 = image@;
    let mut k: usize = 0;
    while k < shdr_sz as usize
        invariant
            k <= shdr_sz,
            image@.len() == img0.len(),
            dst + shdr_sz <= img0.len(),
            dst as usize + shdr_sz as usize <= image.len(),
            shdr_off as usize + shdr_sz as usize <= data.len(),
            forall|j: int| 0 <= j < img0.len() ==> #[trigger] image@[j] == if dst <= j < dst + k {
                data@[shdr_off + (j - dst)]
            } else {
                img0[j]
            },
        decreases shdr_sz - k,
    {
        image.set(dst as usize + k, data[shdr_off as usize + k]);
        k = k + 1;
    }
    assert(image@ =~= splice(img0, dst as int, data@.subrange(shdr_off as int, shdr_off + shdr_sz)));
    layout.load_off = dst + shdr_sz;
    if ty == SHT_PROGBITS {
        let entry = SectionHeader {
            sh_index: i as u16,
            sh_type: SectionType::PROGBITS,
            sh_off: dst,
            sh_size: shdr_sz,
        };
        write_sectab_entry(image, layout.sectab.len(), &entry);
        layout.sectab.push(entry);
        if sh.sh_flags & SHF_EXECINSTR != 0 {
            layout.exec_off = dst;
        } else {
            match name_starting_at_slice(strtab_src, sh.sh_name as usize) {
                Ok(name) => {
                    if is_eh_frame_name(name) {
                        layout.eh_frame_sec_ind = i as u32;
                    }
                },
                Err(_) => return None,
            }
        }
    } else if ty == SHT_SYMTAB {
        layout.symtab_off = dst;
        layout.symtab_sz = shdr_sz / 16;
    } else if ty == SHT_STRTAB {
        layout.strtab_off = dst;
        layout.strtab_sz = shdr_sz;
    } else {
        let entry = SectionHeader {
            sh_index: i as u16,
            sh_type: SectionType::RELA(#[verifier::truncate] (sh.sh_info as u16)),
            sh_off: dst,
            sh_size: shdr_sz,
        };
        write_sectab_entry(image, layout.sectab.len(), &entry);
        layout.sectab.push(entry);
    }
    Some(Ok(()))
}

/// The state before any section is copied: sections go after the program
/// headers and a section table of `n` entries.
pub open spec fn initial_placement(n: nat, image: Seq<u8>) -> Placement {
    Placement {
        load_off: (SECTAB_OFF + SECTION_HEADER_SIZE * n) as u32,
        sectab: Seq::empty(),
        exec_off: 0,
        symtab_off: 0,
        symtab_sz: 0,
        strtab_off: 0,
        strtab_sz: 0,
        eh_frame_sec_ind: 0,
        image,
    }
}

/// Copies the sections of `data` into the image, as `place_sections`
/// describes, starting with `initial_placement(sectab_sz, _)`; `None` where
/// it cannot proceed.
pub fn load_sections(
    data: &[u8],
    strtab_src: &[u8],
    shdrs: &Vec<Elf32_Shdr>,
    sectab_sz: u32,
    image: &mut Vec<u8>,
) -> (r: Option<Result<Layout, Error>>)
    requires
        shdrs.len() <= u16::MAX,
        sectab_sz == sectab_count(shdrs@),
        SECTAB_OFF + SECTION_HEADER_SIZE * sectab_sz <= old(image)@.len(),
        old(image)@.len() <= u32::MAX,
    ensures
        match place_sections(data@, strtab_src@, shdrs@, 0, initial_placement(sectab_sz as nat, old(image)@)) {
            Placed::Done(st) => r matches Some(Ok(l)) && l.placement(final(image)@) == st,
            Placed::Failed(msg) => r matches Some(rr) && is_parsing_error(rr, msg),
            Placed::Stuck => r is None,
        },
        final(image)@.len() == old(image)@.len(),
{
    let ghost goal = place_sections(data@, strtab_src@, shdrs@, 0, initial_placement(sectab_sz as nat, image@));
    let mut layout = Layout {
        load_off: SECTAB_OFF + SECTION_HEADER_SIZE * sectab_sz,
        sectab: Vec::new(),
        exec_off: 0,
        symtab_off: 0,
        symtab_sz: 0,
        strtab_off: 0,
        strtab_sz: 0,
        eh_frame_sec_ind: 0,
    };
    assert(layout.placement(image@) =~= initial_placement(sectab_sz as nat, image@));
    let mut i: usize = 0;
    while i < shdrs.len()
        invariant
            i <= shdrs.len() <= u16::MAX,
            image@.len() == old(image)@.len(),
            old(image)@.len() <= u32::MAX,
            goal == place_sections(data@, strtab_src@, shdrs@, 0, initial_placement(sectab_sz as nat, old(image)@)),
            goal == place_sections(data@, strtab_src@, shdrs@, i as int, layout.placement(image@)),
            layout.sectab@.len() == sectab_count(shdrs@.subrange(0, i as int)),
            sectab_sz == sectab_count(shdrs@),
            SECTAB_OFF + SECTION_HEADER_SIZE * sectab_sz <= old(image)@.len(),
        decreases shdrs.len() - i,
    {
        let ghost before = layout.placement(image@);
        proof {
            lemma_sectab_count_step(shdrs@, i as int);
            lemma_sectab_count_prefix(shdrs@, i + 1);
        }
        match load_section(data, strtab_src, image, i, &shdrs[i], &mut layout) {
            Some(Ok(())) => {},
            Some(Err(e)) => return Some(Err(e)),
            None => return None,
        }
        proof {
            match place_section(data@, strtab_src@, i as int, shdrs@[i as int], before) {
                Placed::Done(st) => {
                    assert(st.image.len() == before.image.len());
                    assert(st.sectab.len() == before.sectab.len() + if enters_sectab(shdrs@[i as int]) {
                        1int
                    } else {
                        0int
                    });
                },
                _ => {},
            }
        }
        i = i + 1;
    }
    Some(Ok(layout))
}

/// `f` gives the same answer for the same name every time.
pub open spec fn resolver_is_function<F: Fn(&[u8]) -> Option<u32>>(f: F) -> bool {
    forall|s1: &[u8], s2: &[u8], o1: Option<u32>, o2: Option<u32>|
        #![trigger call_ensures(f, (s1,), o1), call_ensures(f, (s2,), o2)]
        s1@ == s2@ && call_ensures(f, (s1,), o1) && call_ensures(f, (s2,), o2) ==> o1 == o2
}

/// The answer of `f` for `name`, where it answers as a function.
pub open spec fn resolver_answer<F: Fn(&[u8]) -> Option<u32>>(f: F, name: Seq<u8>) -> Option<u32> {
    choose|o: Option<u32>| resolved_by(f, name, o)
}

/// An answer that a resolver that answers as a function gives is its answer.
pub proof fn lemma_resolver_answer<F: Fn(&[u8]) -> Option<u32>>(f: F, name: Seq<u8>, o: Option<u32>)
    requires
        resolver_is_function(f),
        resolved_by(f, name, o),
    ensures
        resolver_answer(f, name) == o,
{
    let o2 = resolver_answer(f, name);
    assert(resolved_by(f, name, o2));
    let s1 = choose|s: &[u8]| s@ == name && call_ensures(f, (s,), o);
    let s2 = choose|s: &[u8]| s@ == name && call_ensures(f, (s,), o2);
    assert(call_ensures(f, (s1,), o) && call_ensures(f, (s2,), o2));
}

impl Library {
    /// The value of the symbol `sym` when `resolve` answers as a function.
    pub open spec fn symbol_value<F: Fn(&[u8]) -> Option<u32>>(&self, sym: Option<Elf32_Sym>, f: F) -> Result<u32, Fault> {
        match sym {
            None => Err(Fault::Parsing("relocation requires an associated symbol")),
            Some(s) => if s.st_shndx == SHN_ABS {
                Ok(s.st_value)
            } else if s.st_shndx != SHN_UNDEF && first_section(self.sectab@, s.st_shndx) is Some {
                Ok(wrap32(self.image_off + self.sectab@[first_section(self.sectab@, s.st_shndx).unwrap()].sh_off + s.st_value))
            } else {
                match cstr_at(self.strtab@, s.st_name as int) {
                    None => Err(Fault::Parsing("symbol in symbol table not null-terminated")),
                    Some(name) => match resolver_answer(f, name) {
                        Some(v) => Ok(v),
                        None => Err(Fault::Lookup(name)),
                    },
                }
            },
        }
    }

    /// What applying `rela`, with symbol value `v`, to section `target` of
    /// the image `d` gives: an error when no copied section has that index or
    /// the target lies outside the image, else the rewritten image.
    pub open spec fn apply_at(&self, d: Seq<u8>, rela: Elf32_Rela, target: u16, v: u32) -> (Result<(), Fault>, Seq<u8>) {
        let ty = spec_r_type(rela.r_info);
        match first_section(self.sectab@, target) {
            None => (Err(Fault::Parsing("Cannot find section with matching sh_index")), d),
            Some(k) => {
                let off = self.sectab@[k].sh_off + rela.r_offset;
                if off + reloc_width(ty) > d.len() {
                    (Err(Fault::Parsing("relocation target outside the image")), d)
                } else {
                    (Ok(()), reloc_image(d, off, (self.image_off + off) as u32, ty, v, rela.r_addend))
                }
            },
        }
    }

    /// `(r, d1)` is an outcome that applying `rela` to section `target` of
    /// the image `d` can have, whatever the resolver `f` answers: the errors
    /// found before resolving the symbol, else some resolution of it (see
    /// `symbol_resolution`) and what `apply_at` makes of its value.
    pub open spec fn rela_outcome<F: Fn(&[u8]) -> Option<u32>>(
        &self,
        f: F,
        d: Seq<u8>,
        rela: Elf32_Rela,
        target: u16,
        r: Result<(), Fault>,
        d1: Seq<u8>,
    ) -> bool {
        match self.rela_symbol(rela) {
            Err(_) => r == Err::<(), Fault>(Fault::Parsing("symbol out of bounds of symbol table")) && d1 == d,
            Ok(sym) => {
                let ty = spec_r_type(rela.r_info);
                if ty == R_RISCV_PCREL_LO12_I {
                    r == Ok::<(), Fault>(()) && d1 == d
                } else if !is_applied_reloc(ty) {
                    r == Err::<(), Fault>(Fault::Parsing("unsupported relocation type")) && d1 == d
                } else {
                    exists|res: Result<u32, Error>|
                        #![trigger self.symbol_resolution(sym, f, res)]
                        self.symbol_resolution(sym, f, res) && match res {
                            Err(e) => r == Err::<(), Fault>(e.fault()) && d1 == d,
                            Ok(v) => (r, d1) == self.apply_at(d, rela, target, v),
                        }
                }
            },
        }
    }

    /// What applying `rela` to section `target` of the image `d` gives: the
    /// result and the image after it, when the resolver answers as a function.
    pub open spec fn rela_effect<F: Fn(&[u8]) -> Option<u32>>(&self, f: F, d: Seq<u8>, rela: Elf32_Rela, target: u16) -> (Result<(), Fault>, Seq<u8>) {
        match self.rela_symbol(rela) {
            Err(_) => (Err(Fault::Parsing("symbol out of bounds of symbol table")), d),
            Ok(sym) => {
                let ty = spec_r_type(rela.r_info);
                if ty == R_RISCV_PCREL_LO12_I {
                    (Ok(()), d)
                } else if !is_applied_reloc(ty) {
                    (Err(Fault::Parsing("unsupported relocation type")), d)
                } else {
                    match self.symbol_value(sym, f) {
                        Err(e) => (Err(e), d),
                        Ok(v) => self.apply_at(d, rela, target, v),
                    }
                }
            },
        }
    }
}

/// The `n` symbols at `off` of `d`.
pub open spec fn syms_at(d: Seq<u8>, off: int, n: int) -> Seq<Elf32_Sym> {
    Seq::new(n as nat, |k: int| sym_at(d, off + SYM_SIZE * k))
}

/// Decodes the symbol table and copies the string table that `layout` placed
/// in the image.
pub fn read_tables(image: &Vec<u8>, image_addr: u32, layout: &Layout) -> (r: Result<(Vec<Elf32_Sym>, Vec<u8>), Error>)
    requires
        image_addr + image@.len() <= u32::MAX,
        layout.symtab_off + SYM_SIZE * layout.symtab_sz <= u32::MAX,
        layout.strtab_off + layout.strtab_sz <= u32::MAX,
    ensures
        !records_fit(image@.len() as int, image_addr as int, layout.symtab_off as int, SYM_SIZE as int, layout.symtab_sz as int, 4)
            ==> is_parsing_error(r, "cannot read symbol table"),
        records_fit(image@.len() as int, image_addr as int, layout.symtab_off as int, SYM_SIZE as int, layout.symtab_sz as int, 4)
            && layout.strtab_off + layout.strtab_sz > image@.len() ==> is_parsing_error(r, "cannot read string table"),
        records_fit(image@.len() as int, image_addr as int, layout.symtab_off as int, SYM_SIZE as int, layout.symtab_sz as int, 4)
            && layout.strtab_off + layout.strtab_sz <= image@.len() ==> (r matches Ok((syms, strs))
            && syms@ == syms_at(image@, layout.symtab_off as int, layout.symtab_sz as int)
            && strs@ == image@.subrange(layout.strtab_off as int, layout.strtab_off + layout.strtab_sz)),
{
    match get_ref_slice(image.as_slice(), image_addr, layout.symtab_off, layout.symtab_sz, SYM_SIZE as u32, 4) {
        Ok(_) => {},
        Err(()) => return Err(Error::Parsing("cannot read symbol table")),
    }
    let strs = match get_ref_slice(image.as_slice(), image_addr, layout.strtab_off, layout.strtab_sz, 1, 1) {
        Ok(b) => vstd::slice::slice_to_vec(b),
        Err(()) => {
            assert(layout.strtab_off + 1 * layout.strtab_sz > image@.len());
            return Err(Error::Parsing("cannot read string table"));
        },
    };
    let n = layout.symtab_sz as usize;
    let off = layout.symtab_off as usize;
    let mut syms: Vec<Elf32_Sym> = Vec::new();
    let mut i: usize = 0;
    while i < n
        invariant
            i <= n,
            n == layout.symtab_sz,
            off == layout.symtab_off,
            off + SYM_SIZE * n <= image.len(),
            syms@.len() == i,
            forall|j: int| 0 <= j < i ==> #[trigger] syms@[j] == sym_at(image@, off + SYM_SIZE * j),
        decreases n - i,
    {
        assert(SYM_SIZE == 16);
        assert(16 * i + 16 <= 16 * n) by (nonlinear_arith)
            requires
                i < n,
        ;
        syms.push(Elf32_Sym::decode(image.as_slice(), off + SYM_SIZE * i));
        i = i + 1;
    }
    assert(syms@ =~= syms_at(image@, layout.symtab_off as int, layout.symtab_sz as int));
    Ok((syms, strs))
}

impl Library {
    /// Number of relocations in entry `si` of the section table (none in a
    /// PROGBITS section).
    pub open spec fn rela_count(&self, si: int) -> int {
        if 0 <= si < self.sectab@.len() {
            match self.sectab@[si].sh_type {
                SectionType::RELA(_) => self.sectab@[si].sh_size as int / RELA_SIZE as int,
                _ => 0,
            }
        } else {
            0
        }
    }

    /// The relocation tables of the image lie inside it, each word-aligned.
    pub open spec fn rela_tables_fit(&self, len: int) -> bool {
        forall|si: int|
            0 <= si < self.sectab@.len() && (#[trigger] self.sectab@[si]).sh_type is RELA ==> records_fit(
                len,
                self.image_off as int,
                self.sectab@[si].sh_off as int,
                RELA_SIZE as int,
                self.sectab@[si].sh_size as int / RELA_SIZE as int,
                4,
            )
    }

    /// Applying, in order, relocation `k` onwards of table entry `si` and then
    /// those of the following entries, each read from the image as it stands,
    /// until one fails, when the resolver answers as a function.
    #[verifier::opaque]
    pub open spec fn relocate_from<F: Fn(&[u8]) -> Option<u32>>(&self, f: F, d: Seq<u8>, si: int, k: int) -> (Result<(), Fault>, Seq<u8>)
        decreases self.sectab@.len() - si, self.rela_count(si) - k,
    {
        if si < 0 || si >= self.sectab@.len() {
            (Ok(()), d)
        } else if k < 0 || k >= self.rela_count(si) {
            self.relocate_from(f, d, si + 1, 0)
        } else {
            match self.sectab@[si].sh_type {
                SectionType::RELA(ind) => {
                    let rela = rela_at(d, self.sectab@[si].sh_off + RELA_SIZE * k);
                    let (r, d1) = self.rela_effect(f, d, rela, ind);
                    match r {
                        Err(e) => (Err(e), d1),
                        Ok(()) => self.relocate_from(f, d1, si, k + 1),
                    }
                },
                _ => (Ok(()), d),
            }
        }
    }

    /// `(r, d1)` is an outcome of applying, in order, relocation `k` onwards
    /// of table entry `si` and then those of the following entries, each read
    /// from the image as it stands, until one fails, whatever the resolver
    /// `f` answers: each relocation has an outcome of `rela_outcome`.
    pub open spec fn relocation_run<F: Fn(&[u8]) -> Option<u32>>(
        &self,
        f: F,
        d: Seq<u8>,
        si: int,
        k: int,
        r: Result<(), Fault>,
        d1: Seq<u8>,
    ) -> bool
        decreases self.sectab@.len() - si, self.rela_count(si) - k,
    {
        if si < 0 || si >= self.sectab@.len() {
            r == Ok::<(), Fault>(()) && d1 == d
        } else if k < 0 || k >= self.rela_count(si) {
            self.relocation_run(f, d, si + 1, 0, r, d1)
        } else {
            match self.sectab@[si].sh_type {
                SectionType::RELA(ind) => {
                    let rela = rela_at(d, self.sectab@[si].sh_off + RELA_SIZE * k);
                    exists|r0: Result<(), Fault>, d0: Seq<u8>|
                        #![trigger self.rela_outcome(f, d, rela, ind, r0, d0)]
                        self.rela_outcome(f, d, rela, ind, r0, d0) && match r0 {
                            Err(e) => r == Err::<(), Fault>(e) && d1 == d0,
                            Ok(()) => self.relocation_run(f, d0, si, k + 1, r, d1),
                        }
                },
                _ => r == Ok::<(), Fault>(()) && d1 == d,
            }
        }
    }

    /// One relocation's outcome, followed by a run of the rest, is a run.
    proof fn lemma_run_step<F: Fn(&[u8]) -> Option<u32>>(
        &self,
        f: F,
        d: Seq<u8>,
        si: int,
        k: int,
        ind: u16,
        r0: Result<(), Fault>,
        d0: Seq<u8>,
        r: Result<(), Fault>,
        d1: Seq<u8>,
    )
        requires
            0 <= si < self.sectab@.len(),
            0 <= k < self.rela_count(si),
            self.sectab@[si].sh_type == SectionType::RELA(ind),
            self.rela_outcome(f, d, rela_at(d, self.sectab@[si].sh_off + RELA_SIZE * k), ind, r0, d0),
            match r0 {
                Err(e) => r == Err::<(), Fault>(e) && d1 == d0,
                Ok(()) => self.relocation_run(f, d0, si, k + 1, r, d1),
            },
        ensures
            self.relocation_run(f, d, si, k, r, d1),
    {
        
        let rela = rela_at(d, self.sectab@[si].sh_off + RELA_SIZE * k);
        assert(self.sectab@[si].sh_type->RELA_0 == ind);
        assert(self.rela_outcome(f, d, rela, ind, r0, d0));
    }

    /// Applies the relocations of every RELA section, in order, to the
    /// sections they name.
    pub fn relocate<F: Fn(&[u8]) -> Option<u32>>(&self, image: &mut Vec<u8>, resolve: &F) -> (r: Result<(), Error>)
        requires
            forall|s: &[u8]| call_requires(*resolve, (s,)),
            self.image_off + old(image)@.len() <= u32::MAX,
            self.rela_tables_fit(old(image)@.len() as int),
        ensures
            final(image)@.len() == old(image)@.len(),
            resolver_is_function(*resolve) ==> (fault_of(r), final(image)@) == self.relocate_from(
                *resolve,
                old(image)@,
                0,
                0,
            ),
            self.relocation_run(*resolve, old(image)@, 0, 0, fault_of(r), final(image)@),
    {
        reveal(Library::relocate_from);
        
        let ghost f = *resolve;
        let ghost goal = self.relocate_from(f, image@, 0, 0);
        let mut si: usize = 0;
        while si < self.sectab.len()
            invariant
                si <= self.sectab@.len(),
                forall|s: &[u8]| call_requires(*resolve, (s,)),
                f == *resolve,
                self.image_off + image@.len() <= u32::MAX,
                image@.len() == old(image)@.len(),
                self.rela_tables_fit(old(image)@.len() as int),
                goal == self.relocate_from(f, old(image)@, 0, 0),
                resolver_is_function(f) ==> goal == self.relocate_from(f, image@, si as int, 0),
                forall|r: Result<(), Fault>, d1: Seq<u8>|
                    #[trigger] self.relocation_run(f, image@, si as int, 0, r, d1) ==> self.relocation_run(
                        f,
                        old(image)@,
                        0,
                        0,
                        r,
                        d1,
                    ),
            decreases self.sectab@.len() - si,
        {
            proof {
                reveal(Library::relocate_from);
                
            }
            let sec = self.sectab[si];
            match sec.sh_type {
                SectionType::RELA(resolve_ind) => {
                    let n = sec.sh_size as usize / RELA_SIZE;
                    let base_off = sec.sh_off as usize;
                    assert(records_fit(old(image)@.len() as int, self.image_off as int, sec.sh_off as int, RELA_SIZE as int, sec.sh_size as int / RELA_SIZE as int, 4));
                    let mut k: usize = 0;
                    while k < n
                        invariant
                            k <= n,
                            si < self.sectab@.len(),
                            sec == self.sectab@[si as int],
                            sec.sh_type == SectionType::RELA(resolve_ind),
                            n == self.rela_count(si as int),
                            base_off == sec.sh_off,
                            base_off + RELA_SIZE * n <= image.len(),
                            forall|s: &[u8]| call_requires(*resolve, (s,)),
                            f == *resolve,
                            self.image_off + image@.len() <= u32::MAX,
                            image@.len() == old(image)@.len(),
                            goal == self.relocate_from(f, old(image)@, 0, 0),
                            resolver_is_function(f) ==> goal == self.relocate_from(f, image@, si as int, k as int),
                            forall|r: Result<(), Fault>, d1: Seq<u8>|
                                #[trigger] self.relocation_run(f, image@, si as int, k as int, r, d1)
                                    ==> self.relocation_run(f, old(image)@, 0, 0, r, d1),
                        decreases n - k,
                    {
                        proof {
                            reveal(Library::relocate_from);
                            
                        }
                        assert(RELA_SIZE == 12);
                        assert(12 * k + 12 <= 12 * n) by (nonlinear_arith)
                            requires
                                k < n,
                        ;
                        let rela = Elf32_Rela::decode(image.as_slice(), base_off + RELA_SIZE * k);
                        let ghost d_before = image@;
                        let res = self.resolve_rela(image, &rela, resolve_ind, resolve);
                        proof {
                            let (r0, d0) = (fault_of(res), image@);
                            assert(0 <= si < self.sectab@.len());
                            assert(0 <= k < self.rela_count(si as int));
                            assert(self.sectab@[si as int].sh_type == SectionType::RELA(resolve_ind));
                            assert(rela == rela_at(d_before, self.sectab@[si as int].sh_off + RELA_SIZE * k));
                            assert(self.rela_outcome(f, d_before, rela, resolve_ind, r0, d0));
                            if res is Err {
                                self.lemma_run_step(f, d_before, si as int, k as int, resolve_ind, r0, d0, r0, d0);
                            } else {
                                assert forall|r: Result<(), Fault>, d1: Seq<u8>|
                                    #[trigger] self.relocation_run(f, d0, si as int, k + 1, r, d1)
                                    implies self.relocation_run(f, old(image)@, 0, 0, r, d1) by {
                                    self.lemma_run_step(f, d_before, si as int, k as int, resolve_ind, r0, d0, r, d1);
                                }
                            }
                        }
                        match res {
                            Ok(()) => {},
                            Err(e) => return Err(e),
                        }
                        k = k + 1;
                    }
                    proof {
                        assert forall|r: Result<(), Fault>, d1: Seq<u8>|
                            #[trigger] self.relocation_run(f, image@, si + 1, 0, r, d1)
                            implies self.relocation_run(f, old(image)@, 0, 0, r, d1) by {
                            assert(self.relocation_run(f, image@, si as int, k as int, r, d1));
                        }
                    }
                },
                SectionType::PROGBITS => {
                    proof {
                        assert forall|r: Result<(), Fault>, d1: Seq<u8>|
                            #[trigger] self.relocation_run(f, image@, si + 1, 0, r, d1)
                            implies self.relocation_run(f, old(image)@, 0, 0, r, d1) by {
                            assert(self.relocation_run(f, image@, si as int, 0, r, d1));
                        }
                    }
                },
            }
            si = si + 1;
        }
        proof {
            assert(self.relocation_run(f, image@, si as int, 0, Ok::<(), Fault>(()), image@));
        }
        Ok(())
    }
}

/// The program header that maps the loaded sections.
pub open spec fn load_phdr(load_offset: u32, load_sz: u32) -> Elf32_Phdr {
    Elf32_Phdr {
        p_type: PT_LOAD,
        p_offset: load_offset,
        p_vaddr: load_offset,
        p_paddr: load_offset,
        p_filesz: load_sz,
        p_memsz: load_sz,
        p_flags: PF_R | PF_X,
        p_align: 4,
    }
}

/// The program header that points at the `.eh_frame_hdr` section.
pub open spec fn eh_frame_phdr(hdr_off: u32, hdr_sz: u32) -> Elf32_Phdr {
    Elf32_Phdr {
        p_type: PT_GNU_EH_FRAME,
        p_offset: hdr_off,
        p_vaddr: hdr_off,
        p_paddr: hdr_off,
        p_filesz: hdr_sz,
        p_memsz: hdr_sz,
        p_flags: PF_R,
        p_align: 4,
    }
}

/// Copies `src` into `d` at `off`.
fn copy_into(d: &mut Vec<u8>, off: usize, src: &Vec<u8>)
    requires
        off + src@.len() <= old(d)@.len(),
    ensures
        final(d)@ == splice(old(d)@, off as int, src@),
        final(d)@.len() == old(d)@.len(),
{
    let ghost d0 = d@;
    let mut k: usize = 0;
    while k < src.len()
        invariant
            k <= src@.len(),
            off + src@.len() <= d0.len(),
            off + src.len() <= d.len(),
            d@.len() == d0.len(),
            forall|j: int| 0 <= j < d0.len() ==> #[trigger] d@[j] == if off <= j < off + k {
                src@[j - off]
            } else {
                d0[j]
            },
        decreases src@.len() - k,
    {
        d.set(off + k, src[k]);
        k = k + 1;
    }
    assert(d@ =~= splice(d0, off as int, src@));
}

impl Library {
    /// Offset and size of the `.eh_frame` section in the image (the first
    /// table entry with its index), or zero for both.
    pub open spec fn eh_frame_place(&self) -> (u32, u32) {
        match first_section(self.sectab@, self.eh_frame_sec_ind as u16) {
            Some(k) => (self.sectab@[k].sh_off, self.sectab@[k].sh_size),
            None => (0, 0),
        }
    }

    /// The address of `.eh_frame` in the image `d` and the table of its FDEs'
    /// initial locations and addresses, when its CIE and FDEs are ones
    /// `cie_frame` and `fde_walk` accept.
    #[verifier::opaque]
    pub open spec fn eh_frame_table(&self, d: Seq<u8>) -> Option<(u32, Seq<(u32, u32)>)> {
        let (off, sz) = self.eh_frame_place();
        let e = self.image_off + off;
        if e > u32::MAX {
            None
        } else {
            match cie_frame(d, self.image_off as int, e, sz as int) {
                None => None,
                Some((enc, fb, fs)) => match fde_walk(d, self.image_off as int, enc, fb as int, fs as int) {
                    None => None,
                    Some((es, _)) => Some((e as u32, es)),
                },
            }
        }
    }

    /// The first offset after the section table and the two program headers.
    pub open spec fn load_offset(&self) -> int {
        SECTAB_OFF + SECTION_HEADER_SIZE * self.sectab@.len()
    }

    /// An `.eh_frame_hdr` with `n` entries fits after the loaded sections of
    /// an image of `len` bytes, and those start after the section table.
    pub open spec fn hdr_fits(&self, len: int, n: int) -> bool {
        self.image_sz + 12 + 8 * n <= len && self.load_offset() <= self.image_sz
    }

    /// The image `d` with the `.eh_frame_hdr` for the `.eh_frame` at `e` and
    /// the FDE table `es` put after the loaded sections, and two program
    /// headers at its start: a PT_LOAD one over the sections (from after the
    /// section table to the end of the new section) and a PT_GNU_EH_FRAME one
    /// over the new section.
    pub open spec fn with_eh_frame_hdr(&self, d: Seq<u8>, e: u32, es: Seq<(u32, u32)>) -> Seq<u8> {
        let hdr = hdr_bytes(e, es);
        let load_sz = (self.image_sz - self.load_offset() + hdr.len()) as u32;
        let d1 = splice(d, self.image_sz as int, hdr);
        let d2 = splice(d1, 0, phdr_bytes(load_phdr(self.load_offset() as u32, load_sz)));
        splice(d2, PHDR_SIZE as int, phdr_bytes(eh_frame_phdr(self.image_sz, hdr.len() as u32)))
    }

    /// The image `d` with unwinding support added: `with_eh_frame_hdr` for
    /// the table of `eh_frame_table`, when there is one and it fits.
    #[verifier::opaque]
    pub open spec fn eh_frame_image(&self, d: Seq<u8>) -> Option<Seq<u8>> {
        match self.eh_frame_table(d) {
            None => None,
            Some((e, es)) => if self.hdr_fits(d.len() as int, es.len() as int) {
                Some(self.with_eh_frame_hdr(d, e, es))
            } else {
                None
            },
        }
    }

    /// Where `with_eh_frame_hdr` puts its pieces: the header after the loaded
    /// sections and the second program header at byte 32.
    proof fn lemma_eh_frame_hdr_layout(&self, d: Seq<u8>, e: u32, es: Seq<(u32, u32)>)
        requires
            self.hdr_fits(d.len() as int, es.len() as int),
        ensures
            self.with_eh_frame_hdr(d, e, es).len() == d.len(),
            self.with_eh_frame_hdr(d, e, es).subrange(self.image_sz as int, self.image_sz + 12 + 8 * es.len())
                == hdr_bytes(e, es),
            self.with_eh_frame_hdr(d, e, es).subrange(32, 64) == phdr_bytes(
                eh_frame_phdr(self.image_sz, (12 + 8 * es.len()) as u32),
            ),
    {
        let h = self.image_sz as int;
        let hdr = hdr_bytes(e, es);
        lemma_hdr_bytes_len(e, es);
        let load_sz = (self.image_sz - self.load_offset() + hdr.len()) as u32;
        let d1 = splice(d, h, hdr);
        let p0 = phdr_bytes(load_phdr(self.load_offset() as u32, load_sz));
        let p1 = phdr_bytes(eh_frame_phdr(self.image_sz, hdr.len() as u32));
        let d2a = splice(d1, 0, p0);
        let d2 = splice(d2a, PHDR_SIZE as int, p1);
        assert(d2.subrange(h, h + hdr.len()) =~= hdr);
        assert(d2.subrange(32, 64) =~= p1);
    }

    /// The table of `eh_frame_table` is the list of FDEs that the walk of the
    /// `.eh_frame` section gives.
    proof fn lemma_eh_frame_table_is_walk(&self, d: Seq<u8>)
        requires
            self.eh_frame_table(d) is Some,
        ensures
            ({
                let (off, sz) = self.eh_frame_place();
                let e = self.image_off + off;
                let (e2, es) = self.eh_frame_table(d)->Some_0;
                &&& e2 == e
                &&& cie_frame(d, self.image_off as int, e, sz as int) matches Some((enc, fb, fs))
                &&& fde_walk(d, self.image_off as int, enc, fb as int, fs as int) matches Some((es2, _))
                &&& es2 == es
            }),
    {
        reveal(Library::eh_frame_table);
    }

    /// The bytes of the `.eh_frame_hdr` and of its program header in the
    /// image that unwinding support makes.
    proof fn lemma_eh_frame_image_fields(&self, d: Seq<u8>)
        requires
            self.eh_frame_image(d) is Some,
            self.image_off + d.len() <= u32::MAX,
        ensures
            ({
                let (e, es) = self.eh_frame_table(d)->Some_0;
                let d2 = self.eh_frame_image(d)->Some_0;
                let h = self.image_sz as int;
                &&& self.eh_frame_table(d) is Some
                &&& d2.len() == d.len()
                &&& le_u32(d2.subrange(h + 4, h + 8)) == e
                &&& le_u32(d2.subrange(h + 8, h + 12)) == es.len()
                &&& forall|j: int|
                    0 <= j < es.len() ==> le_u32(d2.subrange(h + 12 + 8 * j, h + 16 + 8 * j)) == (
                    #[trigger] es[j]).0 && le_u32(d2.subrange(h + 16 + 8 * j, h + 20 + 8 * j)) == es[j].1
                &&& le_u32(d2.subrange(32, 36)) == PT_GNU_EH_FRAME
                &&& le_u32(d2.subrange(36, 40)) == self.image_sz
                &&& le_u32(d2.subrange(48, 52)) == 12 + 8 * es.len()
            }),
    {
        reveal(Library::eh_frame_image);
        let (e, es) = self.eh_frame_table(d)->Some_0;
        self.lemma_eh_frame_hdr_layout(d, e, es);
        let d2 = self.with_eh_frame_hdr(d, e, es);
        lemma_hdr_fields_at(d2, self.image_sz as int, e, es);
        lemma_eh_phdr_fields(d2, self.image_sz, (12 + 8 * es.len()) as u32);
    }

    /// The `.eh_frame_hdr` that unwinding support adds after the loaded
    /// sections lists every FDE that the walk of the `.eh_frame` section
    /// finds, in order: its count word is their number and entry `j` holds
    /// the initial location and address of FDE `j`. The PT_GNU_EH_FRAME
    /// program header covers exactly that section: it starts at the end of
    /// the loaded sections and is `12 + 8 * n` bytes long.
    pub proof fn law_eh_frame_hdr_lists_every_fde(&self, d: Seq<u8>)
        requires
            self.eh_frame_image(d) is Some,
            self.image_off + d.len() <= u32::MAX,
        ensures
            ({
                let (off, sz) = self.eh_frame_place();
                let e = self.image_off + off;
                let d2 = self.eh_frame_image(d)->Some_0;
                let h = self.image_sz as int;
                &&& cie_frame(d, self.image_off as int, e, sz as int) matches Some((enc, fb, fs))
                &&& fde_walk(d, self.image_off as int, enc, fb as int, fs as int) matches Some((es, _))
                &&& d2.len() == d.len()
                &&& le_u32(d2.subrange(h + 4, h + 8)) == e
                &&& le_u32(d2.subrange(h + 8, h + 12)) == es.len()
                &&& forall|j: int|
                    0 <= j < es.len() ==> le_u32(d2.subrange(h + 12 + 8 * j, h + 16 + 8 * j)) == (
                    #[trigger] es[j]).0 && le_u32(d2.subrange(h + 16 + 8 * j, h + 20 + 8 * j)) == es[j].1
                &&& le_u32(d2.subrange(32, 36)) == PT_GNU_EH_FRAME
                &&& le_u32(d2.subrange(36, 40)) == self.image_sz
                &&& le_u32(d2.subrange(48, 52)) == 12 + 8 * es.len()
            }),
    {
        self.lemma_eh_frame_image_fields(d);
        self.lemma_eh_frame_table_is_walk(d);
    }

    /// Writes what `with_eh_frame_hdr` describes.
    #[verifier::rlimit(30)]
    fn write_eh_frame_hdr(&self, image: &mut Vec<u8>, eh_frame_ptr: u32, entries: &Vec<(u32, u32)>)
        requires
            self.hdr_fits(old(image)@.len() as int, entries@.len() as int),
            old(image)@.len() <= u32::MAX,
        ensures
            final(image)@ == self.with_eh_frame_hdr(old(image)@, eh_frame_ptr, entries@),
            final(image)@.len() == old(image)@.len(),
    {
        let ghost d0 = image@;
        proof {
            lemma_hdr_bytes_len(eh_frame_ptr, entries@);
        }
        let eh_frame_hdr = build_eh_frame_hdr(eh_frame_ptr, entries);
        let eh_frame_hdr_sz = eh_frame_hdr.size();
        let hdr = eh_frame_hdr.as_bytes();
        copy_into(image, self.image_sz as usize, hdr);
        let load_offset = (SECTAB_OFF as u64 + SECTION_HEADER_SIZE as u64 * self.sectab.len() as u64) as u32;
        let load_sz = self.image_sz - load_offset + eh_frame_hdr_sz;
        write_phdrs(image, load_offset, load_sz, self.image_sz, eh_frame_hdr_sz);
    }

    /// Adds a `.eh_frame_hdr` section and the program headers that let the
    /// unwinder find it, as `eh_frame_image` describes; the `.eh_frame`
    /// section must be one that it accepts.
    pub fn add_eh_frame_support(&self, image: &mut Vec<u8>) -> (r: Result<(), Error>)
        requires
            self.image_off + old(image)@.len() <= u32::MAX,
            self.eh_frame_image(old(image)@) is Some,
        ensures
            r is Ok,
            final(image)@ == self.eh_frame_image(old(image)@).unwrap(),
            final(image)@.len() == old(image)@.len(),
    {
        reveal(Library::eh_frame_image);
        self.try_add_eh_frame_support(image)
    }

    /// The address of `.eh_frame` and its FDE table, as `eh_frame_table`.
    fn read_eh_frame_table(&self, image: &Vec<u8>) -> (r: Option<(u32, Vec<(u32, u32)>)>)
        requires
            self.image_off + image@.len() <= u32::MAX,
        ensures
            match self.eh_frame_table(image@) {
                Some((e, es)) => r matches Some((e2, v)) && e2 == e && v@ == es,
                None => r is None,
            },
    {
        reveal(Library::eh_frame_table);
        let ind = #[verifier::truncate] (self.eh_frame_sec_ind as u16);
        let (eh_frame_off, eh_frame_sz) = match find_section(&self.sectab, ind) {
            Some(k) => (self.sectab[k].sh_off, self.sectab[k].sh_size),
            None => (0, 0),
        };
        if self.image_off as u64 + eh_frame_off as u64 > u32::MAX as u64 {
            return None;
        }
        let eh_frame_ptr = self.image_off + eh_frame_off;
        let eh_frame = match EH_Frame::parse(image.as_slice(), self.image_off, eh_frame_ptr, eh_frame_sz) {
            Some(f) => f,
            None => return None,
        };
        match eh_frame.scan_fdes(image.as_slice(), self.image_off) {
            Some((entries, _)) => Some((eh_frame_ptr, entries)),
            None => None,
        }
    }

    /// As `add_eh_frame_support`, but gives an error, leaving the image as it
    /// was, when `eh_frame_image` is `None`.
    pub fn try_add_eh_frame_support(&self, image: &mut Vec<u8>) -> (r: Result<(), Error>)
        requires
            self.image_off + old(image)@.len() <= u32::MAX,
        ensures
            final(image)@.len() == old(image)@.len(),
            match self.eh_frame_image(old(image)@) {
                Some(d) => r is Ok && final(image)@ == d,
                None => is_parsing_error(r, "unsupported .eh_frame section") && final(image)@ == old(image)@,
            },
    {
        reveal(Library::eh_frame_image);
        // Fetch .eh_frame from the custom section table
        let (eh_frame_ptr, entries) = match self.read_eh_frame_table(image) {
            Some(x) => x,
            None => return Err(Error::Parsing("unsupported .eh_frame section")),
        };
        if entries.len() as u64 >= 0x1_0000_0000 {
            return Err(Error::Parsing("unsupported .eh_frame section"));
        }
        if self.sectab.len() as u64 >= 0x1000_0000 {
            return Err(Error::Parsing("unsupported .eh_frame section"));
        }
        let hdr_len: u64 = 12 + 8 * entries.len() as u64;
        let load_offset: u64 = SECTAB_OFF as u64 + SECTION_HEADER_SIZE as u64 * self.sectab.len() as u64;
        if self.image_sz as u64 + hdr_len > image.len() as u64 || load_offset > self.image_sz as u64 {
            return Err(Error::Parsing("unsupported .eh_frame section"));
        }
        // Append a .eh_frame_hdr section after all existing sections
        self.write_eh_frame_hdr(image, eh_frame_ptr, &entries);
        Ok(())
    }
}

/// An `.eh_frame_hdr` for the `.eh_frame` at `eh_frame_ptr` with the table `entries`.
fn build_eh_frame_hdr(eh_frame_ptr: u32, entries: &Vec<(u32, u32)>) -> (h: EH_Frame_Hdr)
    requires
        12 + 8 * entries@.len() <= u32::MAX,
    ensures
        h.wf(),
        h.eh_frame_addr() == eh_frame_ptr,
        h.table() == entries@,
        h.data() == hdr_bytes(eh_frame_ptr, entries@),
{
    let ghost es = entries@;
    let mut eh_frame_hdr = EH_Frame_Hdr::new(eh_frame_ptr);
    let mut j: usize = 0;
    while j < entries.len()
        invariant
            j <= entries@.len(),
            es == entries@,
            12 + 8 * es.len() <= u32::MAX,
            eh_frame_hdr.wf(),
            eh_frame_hdr.eh_frame_addr() == eh_frame_ptr,
            eh_frame_hdr.table() == es.subrange(0, j as int),
            eh_frame_hdr.data() == hdr_bytes(eh_frame_ptr, es.subrange(0, j as int)),
        decreases entries@.len() - j,
    {
        let (init_loc, addr) = entries[j];
        eh_frame_hdr.add_fde(init_loc, addr);
        assert(es.subrange(0, j + 1) =~= es.subrange(0, j as int).push((init_loc, addr)));
        j = j + 1;
    }
    assert(es.subrange(0, j as int) =~= es);
    eh_frame_hdr
}

/// Writes the PT_LOAD and PT_GNU_EH_FRAME program headers at the start of the image.
fn write_phdrs(image: &mut Vec<u8>, load_offset: u32, load_sz: u32, hdr_off: u32, hdr_sz: u32)
    requires
        2 * PHDR_SIZE <= old(image).len(),
    ensures
        final(image)@ == splice(
            splice(old(image)@, 0, phdr_bytes(load_phdr(load_offset, load_sz))),
            PHDR_SIZE as int,
            phdr_bytes(eh_frame_phdr(hdr_off, hdr_sz)),
        ),
        final(image)@.len() == old(image)@.len(),
{
    // Insert a PT_LOAD program header at the beginning of the image
    // Memory space was pre-allocated when loading the library
    let load = Elf32_Phdr {
        p_type: PT_LOAD,
        p_offset: load_offset,
        p_vaddr: load_offset,
        p_paddr: load_offset,
        p_filesz: load_sz,
        p_memsz: load_sz,
        p_flags: PF_R | PF_X,
        p_align: 4,
    };
    load.encode(image, 0);
    // Append a PT_GNU_EH_FRAME program header after the PT_LOAD header
    let eh = Elf32_Phdr {
        p_type: PT_GNU_EH_FRAME,
        p_offset: hdr_off,
        p_vaddr: hdr_off,
        p_paddr: hdr_off,
        p_filesz: hdr_sz,
        p_memsz: hdr_sz,
        p_flags: PF_R,
        p_align: 4,
    };
    eh.encode(image, PHDR_SIZE);
}

/// Outcome of the stages of loading before relocation: an error found
/// before any section is copied, one found later, an input on which loading
/// cannot proceed (arithmetic beyond 32 bits, a string
/// table index outside the section table, a misaligned relocation table, or
/// what `place_sections` cannot copy), or the sections copied.
pub enum Plan {
    /// An error found before any section is copied: the image is untouched.
    Refused(&'static str),
    /// An error found while copying sections or reading the copied tables.
    Failed(&'static str),
    Stuck,
    Placed(Placement),
}

/// The section headers of `d` that its ELF header describes.
pub open spec fn shdrs_of(d: Seq<u8>) -> Seq<Elf32_Shdr> {
    let shoff = crate::elf::word_at(d, 32);
    Seq::new(half_at(d, 48) as nat, |i: int| shdr_at(d, shoff + SHDR_SIZE * i))
}

/// The relocation tables that `st` put in its section table lie inside
/// the image at `image_addr`, each word-aligned.
pub open spec fn rela_tables_placed(st: Placement, image_addr: int) -> bool {
    forall|si: int|
        0 <= si < st.sectab.len() && (#[trigger] st.sectab[si]).sh_type is RELA ==> records_fit(
            st.image.len() as int,
            image_addr,
            st.sectab[si].sh_off as int,
            RELA_SIZE as int,
            st.sectab[si].sh_size as int / RELA_SIZE as int,
            4,
        )
}

/// Loading the object `d` (at address `data_addr`) into the image `img`
/// (at `image_addr`) for the machine `machine` with flags `flags`, up to
/// the copy of its sections: the ELF header is checked, the section headers
/// and the section-name table read, room for the section table reserved,
/// the sections copied (`place_sections`), and the symbol and string tables
/// found in the image.
#[verifier::opaque]
pub open spec fn load_plan(d: Seq<u8>, data_addr: int, img: Seq<u8>, image_addr: int, machine: u16, flags: u32) -> Plan {
    if d.len() < EHDR_SIZE {
        Plan::Refused("cannot read ELF header")
    } else if !header_accepted(d, machine, flags) {
        Plan::Refused("not a shared library for current architecture")
    } else {
        let shoff = crate::elf::word_at(d, 32);
        let shnum = half_at(d, 48);
        let shstrndx = half_at(d, 50);
        if shoff + SHDR_SIZE * shnum > u32::MAX {
            Plan::Stuck
        } else if !records_fit(d.len() as int, data_addr, shoff as int, SHDR_SIZE as int, shnum as int, 4) {
            Plan::Refused("cannot read section header table")
        } else if shstrndx >= shnum {
            Plan::Stuck
        } else {
            let shdrs = shdrs_of(d);
            let strtab_shdr = shdrs[shstrndx as int];
            if strtab_shdr.sh_offset + strtab_shdr.sh_size > u32::MAX {
                Plan::Stuck
            } else if strtab_shdr.sh_offset + strtab_shdr.sh_size > d.len() {
                Plan::Refused("cannot read string table from data")
            } else {
                let strtab_src = d.subrange(strtab_shdr.sh_offset as int, strtab_shdr.sh_offset + strtab_shdr.sh_size);
                let n = sectab_count(shdrs);
                if !records_fit(img.len() as int, image_addr, SECTAB_OFF as int, SECTION_HEADER_SIZE as int, n as int, 4) {
                    Plan::Refused("cannot read section header table")
                } else {
                    match place_sections(d, strtab_src, shdrs, 0, initial_placement(n, img)) {
                        Placed::Stuck => Plan::Stuck,
                        Placed::Failed(m) => Plan::Failed(m),
                        Placed::Done(st) => {
                            if st.symtab_off + SYM_SIZE * st.symtab_sz > u32::MAX || st.strtab_off + st.strtab_sz > u32::MAX {
                                Plan::Stuck
                            } else if !records_fit(img.len() as int, image_addr, st.symtab_off as int, SYM_SIZE as int, st.symtab_sz as int, 4) {
                                Plan::Failed("cannot read symbol table")
                            } else if st.strtab_off + st.strtab_sz > img.len() {
                                Plan::Failed("cannot read string table")
                            } else if !rela_tables_placed(st, image_addr) {
                                Plan::Stuck
                            } else {
                                Plan::Placed(st)
                            }
                        },
                    }
                }
            }
        }
    }
}

impl Library {
    /// The library that loading at `image_addr` makes of the copied sections `st`.
    pub open spec fn made_from(&self, st: Placement, image_addr: u32) -> bool {
        &&& self.image_off == image_addr
        &&& self.image_sz == st.load_off
        &&& self.exec_off == st.exec_off
        &&& self.sectab@ == st.sectab
        &&& self.strtab@ == st.image.subrange(st.strtab_off as int, st.strtab_off + st.strtab_sz)
        &&& self.symtab@ == syms_at(st.image, st.symtab_off as int, st.symtab_sz as int)
        &&& self.eh_frame_sec_ind == st.eh_frame_sec_ind
    }

    /// The stages of `load` that `load_plan` describes: the library it makes
    /// of the copied sections; `None` where loading cannot proceed.
    pub fn place(
        data: &[u8],
        data_addr: u32,
        image: &mut Vec<u8>,
        image_addr: u32,
        machine: u16,
        flags: u32,
    ) -> (r: Option<Result<Library, Error>>)
        requires
            data_addr + data@.len() <= u32::MAX,
            image_addr + old(image)@.len() <= u32::MAX,
        ensures
            final(image)@.len() == old(image)@.len(),
            match load_plan(data@, data_addr as int, old(image)@, image_addr as int, machine, flags) {
                Plan::Refused(m) => r matches Some(rr) && is_parsing_error(rr, m) && final(image)@ == old(image)@,
                Plan::Failed(m) => r matches Some(rr) && is_parsing_error(rr, m),
                Plan::Stuck => r is None,
                Plan::Placed(st) => r matches Some(Ok(lib)) && lib.made_from(st, image_addr) && final(image)@
                    == st.image && lib.rela_tables_fit(st.image.len() as int),
            },
    {
        reveal(load_plan);
        let ehdr = match read_header(data, machine, flags) {
            Ok(h) => h,
            Err(e) => return Some(Err(e)),
        };
        if ehdr.e_shoff as u64 + SHDR_SIZE as u64 * ehdr.e_shnum as u64 > u32::MAX as u64 {
            return None;
        }
        let shdrs = match read_section_headers(data, data_addr, &ehdr) {
            Ok(v) => v,
            Err(e) => return Some(Err(e)),
        };
        assert(shdrs@ =~= shdrs_of(data@));
        if ehdr.e_shstrndx >= ehdr.e_shnum {
            return None;
        }
        // Prepare the string table (strtab)
        // It is to locate the .eh_frame for generating .eh_frame_hdr
        // after its relocation
        let strtab_shdr = shdrs[ehdr.e_shstrndx as usize];
        if strtab_shdr.sh_offset as u64 + strtab_shdr.sh_size as u64 > u32::MAX as u64 {
            return None;
        }
        let strtab_src = match get_ref_slice(data, data_addr, strtab_shdr.sh_offset, strtab_shdr.sh_size, 1, 1) {
            Ok(b) => b,
            Err(()) => return Some(Err(Error::Parsing("cannot read string table from data"))),
        };
        // Reserve 2 program headers (PHDR) at the start of the image, then the
        // section table: only PROGBITS and RELA sections are in it
        let sectab_sz = count_sectab(&shdrs);
        match get_ref_slice(image.as_slice(), image_addr, SECTAB_OFF, sectab_sz, SECTION_HEADER_SIZE, 4) {
            Ok(_) => {},
            Err(()) => return Some(Err(Error::Parsing("cannot read section header table"))),
        }
        // Load all PROGBITS, RELA, SYMTAB sections to target
        let layout = match load_sections(data, strtab_src, &shdrs, sectab_sz, image) {
            Some(Ok(l)) => l,
            Some(Err(e)) => return Some(Err(e)),
            None => return None,
        };
        let ghost st = layout.placement(image@);
        if layout.symtab_off as u64 + SYM_SIZE as u64 * layout.symtab_sz as u64 > u32::MAX as u64
            || layout.strtab_off as u64 + layout.strtab_sz as u64 > u32::MAX as u64 {
            return None;
        }
        let (symtab, strtab) = match read_tables(image, image_addr, &layout) {
            Ok(t) => t,
            Err(e) => return Some(Err(e)),
        };
        let library = Library {
            image_off: image_addr,
            image_sz: layout.load_off,
            exec_off: layout.exec_off,
            sectab: layout.sectab,
            strtab,
            symtab,
            eh_frame_sec_ind: layout.eh_frame_sec_ind,
        };
        assert(library.made_from(st, image_addr));
        assert(library.rela_tables_fit(st.image.len() as int) == rela_tables_placed(st, image_addr as int));
        if !library.check_rela_tables(image.len()) {
            return None;
        }
        Some(Ok(library))
    }

    /// Whether the relocation tables of the section table lie inside an
    /// image of `len` bytes, each word-aligned.
    fn check_rela_tables(&self, len: usize) -> (r: bool)
        requires
            self.image_off + len <= u32::MAX,
        ensures
            r == self.rela_tables_fit(len as int),
    {
        let mut si: usize = 0;
        while si < self.sectab.len()
            invariant
                si <= self.sectab@.len(),
                self.image_off + len <= u32::MAX,
                forall|j: int|
                    0 <= j < si && (#[trigger] self.sectab@[j]).sh_type is RELA ==> records_fit(
                        len as int,
                        self.image_off as int,
                        self.sectab@[j].sh_off as int,
                        RELA_SIZE as int,
                        self.sectab@[j].sh_size as int / RELA_SIZE as int,
                        4,
                    ),
            decreases self.sectab.len() - si,
        {
            let sec = self.sectab[si];
            match sec.sh_type {
                SectionType::RELA(_) => {
                    let n = sec.sh_size / 12;
                    if sec.sh_off as u64 + 12 * n as u64 > len as u64 {
                        return false;
                    }
                    if (self.image_off as u64 + sec.sh_off as u64) % 4 != 0 {
                        return false;
                    }
                },
                SectionType::PROGBITS => {},
            }
            si = si + 1;
        }
        true
    }

    /// Loads the relocatable object `data`, whose first byte lies at address
    /// `data_addr`, into `image`, whose first byte lies at `image_addr`:
    /// checks that it is one for `machine` with `flags`, copies its sections
    /// after two program headers and a section table, resolves its
    /// relocations (through `resolve` for symbols defined elsewhere), and
    /// adds an `.eh_frame_hdr` for its `.eh_frame`.
    pub fn load<F: Fn(&[u8]) -> Option<u32>>(
        data: &[u8],
        data_addr: u32,
        image: &mut Vec<u8>,
        image_addr: u32,
        machine: u16,
        flags: u32,
        resolve: &F,
    ) -> (r: Result<Library, Error>)
        requires
            forall|s: &[u8]| call_requires(*resolve, (s,)),
            data_addr + data@.len() <= u32::MAX,
            image_addr + old(image)@.len() <= u32::MAX,
            load_plan(data@, data_addr as int, old(image)@, image_addr as int, machine, flags) !is Stuck,
        ensures
            loaded_as(data@, data_addr, old(image)@, image_addr, machine, flags, *resolve, r, final(image)@),
    {
        Self::load_checked(data, data_addr, image, image_addr, machine, flags, resolve).unwrap()
    }

    /// `load`, on every input: `None` exactly where loading cannot proceed
    /// (`load_plan` is `Stuck`).
    pub fn load_checked<F: Fn(&[u8]) -> Option<u32>>(
        data: &[u8],
        data_addr: u32,
        image: &mut Vec<u8>,
        image_addr: u32,
        machine: u16,
        flags: u32,
        resolve: &F,
    ) -> (r: Option<Result<Library, Error>>)
        requires
            forall|s: &[u8]| call_requires(*resolve, (s,)),
            data_addr + data@.len() <= u32::MAX,
            image_addr + old(image)@.len() <= u32::MAX,
        ensures
            match r {
                None => load_plan(data@, data_addr as int, old(image)@, image_addr as int, machine, flags) is Stuck,
                Some(rr) => loaded_as(data@, data_addr, old(image)@, image_addr, machine, flags, *resolve, rr, final(image)@),
            },
    {
        let library = match Self::place(data, data_addr, image, image_addr, machine, flags) {
            Some(Ok(l)) => l,
            Some(Err(e)) => return Some(Err(e)),
            None => return None,
        };
        let ghost lib = library;
        let ghost d0 = image@;
        let relocated = library.relocate(image, resolve);
        let ghost d1 = image@;
        proof {
            assert(lib.relocation_run(*resolve, d0, 0, 0, fault_of(relocated), d1));
        }
        match relocated {
            Ok(()) => {},
            Err(e) => {
                assert(lib.made_from(lib_placement(data@, data_addr as int, old(image)@, image_addr as int, machine, flags), image_addr));
                return Some(Err(e));
            },
        }
        // Add PH_LOAD, PT_GNU_EH_FRAME & .eh_frame_hdr
        match library.try_add_eh_frame_support(image) {
            Ok(()) => {},
            Err(e) => {
                assert(lib.made_from(lib_placement(data@, data_addr as int, old(image)@, image_addr as int, machine, flags), image_addr));
                return Some(Err(e));
            },
        }
        assert(lib.made_from(lib_placement(data@, data_addr as int, old(image)@, image_addr as int, machine, flags), image_addr));
        Some(Ok(library))
    }
}

/// What loading `d` (at `data_addr`) into `img` (at `image_addr`) for
/// `machine` with `flags` gives, with the resolver `f`: the result `r` and
/// the final image `img1`. An error found before any section is copied
/// leaves the image as it was; one found while copying gives its message.
/// Where the sections are placed: a library made from them on success, and,
/// whatever `f` answers, a run of the relocations in order from the copied
/// image (`relocation_run`) whose error is the result, or after which the
/// `.eh_frame_hdr` is added; where `f` answers as a function, that run is
/// the one `relocate_from` computes.
pub open spec fn loaded_as<F: Fn(&[u8]) -> Option<u32>>(
    d: Seq<u8>,
    data_addr: u32,
    img: Seq<u8>,
    image_addr: u32,
    machine: u16,
    flags: u32,
    f: F,
    r: Result<Library, Error>,
    img1: Seq<u8>,
) -> bool {
    &&& img1.len() == img.len()
    &&& match load_plan(d, data_addr as int, img, image_addr as int, machine, flags) {
        Plan::Refused(m) => is_parsing_error(r, m) && img1 == img,
        Plan::Failed(m) => is_parsing_error(r, m),
        Plan::Stuck => false,
        Plan::Placed(st) => {
            &&& r matches Ok(lib) ==> lib.made_from(st, image_addr)
            &&& exists|lib: Library, rr: Result<(), Fault>, d1: Seq<u8>|
                #![trigger lib.made_from(st, image_addr), lib.relocation_run(f, st.image, 0, 0, rr, d1)]
                lib.made_from(st, image_addr) && lib.relocation_run(f, st.image, 0, 0, rr, d1) && match rr {
                    Err(e) => fault_of(r) == Err::<Library, Fault>(e) && img1 == d1,
                    Ok(()) => match lib.eh_frame_image(d1) {
                        None => is_parsing_error(r, "unsupported .eh_frame section") && img1 == d1,
                        Some(d2) => r is Ok && img1 == d2,
                    },
                }
            &&& resolver_is_function(f) ==> exists|lib: Library|
                #![trigger lib.made_from(st, image_addr)]
                lib.made_from(st, image_addr) && {
                    let (rr, d1) = lib.relocate_from(f, st.image, 0, 0);
                    match rr {
                        Err(e) => fault_of(r) == Err::<Library, Fault>(e) && img1 == d1,
                        Ok(()) => match lib.eh_frame_image(d1) {
                            None => is_parsing_error(r, "unsupported .eh_frame section") && img1 == d1,
                            Some(d2) => r is Ok && img1 == d2,
                        },
                    }
                }
        },
    }
}

/// The copied sections of `load_plan`, when it gets that far.
pub open spec fn lib_placement(d: Seq<u8>, data_addr: int, img: Seq<u8>, image_addr: int, machine: u16, flags: u32) -> Placement {
    match load_plan(d, data_addr, img, image_addr, machine, flags) {
        Plan::Placed(st) => st,
        _ => arbitrary(),
    }
}

} // verus!
