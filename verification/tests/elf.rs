use artiq_fw::bytes::{get_u16, get_u32, get_u64, put_u32};
use artiq_fw::elf::{
    Elf32_Ehdr, Elf32_Phdr, Elf32_Rela, Elf32_Shdr, Elf32_Sym, ELF32_R_SYM, ELF32_R_TYPE,
    ELF32_ST_BIND, PT_LOAD,
};

#[test]
fn info_fields_split_as_elf_defines() {
    assert_eq!(ELF32_ST_BIND(0x12), 1);
    assert_eq!(ELF32_ST_BIND(0x02), 0);
    assert_eq!(ELF32_ST_BIND(0x21), 2);
    assert_eq!(ELF32_R_SYM(0x1234_5613), 0x12_3456);
    assert_eq!(ELF32_R_TYPE(0x1234_5613), 0x13);
}

#[test]
fn little_endian_reads_and_writes() {
    let mut v = vec![0x01u8, 0x02, 0x03, 0x04, 0x05, 0x06, 0x07, 0x08, 0x09];
    assert_eq!(get_u16(&v, 1), 0x0302);
    assert_eq!(get_u32(&v, 1), 0x0504_0302);
    assert_eq!(get_u64(&v, 1), 0x0908_0706_0504_0302);
    put_u32(&mut v, 2, 0xaabb_ccdd);
    assert_eq!(v, vec![0x01, 0x02, 0xdd, 0xcc, 0xbb, 0xaa, 0x07, 0x08, 0x09]);
}

#[test]
fn records_decode_field_by_field() {
    let mut d = vec![0u8; 4];
    for w in [5u32, 0x4000_0000, 8] {
        d.extend_from_slice(&w.to_le_bytes());
    }
    d.extend_from_slice(&[0x12, 0x00, 0x03, 0x00]);
    let s = Elf32_Sym::decode(&d, 4);
    assert_eq!((s.st_name, s.st_value, s.st_size, s.st_info, s.st_other, s.st_shndx), (5, 0x4000_0000, 8, 0x12, 0, 3));
    let r = Elf32_Rela::decode(&d, 4);
    assert_eq!((r.r_offset, r.r_info, r.r_addend), (5, 0x4000_0000, 8));
    let mut e = Vec::new();
    for w in [16u32, 0x123, 0xffff_fffc] {
        e.extend_from_slice(&w.to_le_bytes());
    }
    let r = Elf32_Rela::decode(&e, 0);
    assert_eq!(r.r_addend, -4);
    let mut h = Vec::new();
    for w in 1u32..=10 {
        h.extend_from_slice(&w.to_le_bytes());
    }
    let sh = Elf32_Shdr::decode(&h, 0);
    assert_eq!(
        (sh.sh_name, sh.sh_type, sh.sh_flags, sh.sh_addr, sh.sh_offset, sh.sh_size, sh.sh_link, sh.sh_info, sh.sh_addralign, sh.sh_entsize),
        (1, 2, 3, 4, 5, 6, 7, 8, 9, 10)
    );
}

#[test]
fn elf_header_decodes_its_fields() {
    let mut d = vec![0u8; 52];
    d[0..4].copy_from_slice(&[0x7f, b'E', b'L', b'F']);
    d[16..18].copy_from_slice(&1u16.to_le_bytes());
    d[18..20].copy_from_slice(&243u16.to_le_bytes());
    d[32..36].copy_from_slice(&0x100u32.to_le_bytes());
    d[36..40].copy_from_slice(&4u32.to_le_bytes());
    d[48..50].copy_from_slice(&9u16.to_le_bytes());
    d[50..52].copy_from_slice(&8u16.to_le_bytes());
    let h = Elf32_Ehdr::decode(&d);
    assert_eq!(&h.e_ident[0..4], &[0x7f, b'E', b'L', b'F']);
    assert_eq!((h.e_type, h.e_machine, h.e_shoff, h.e_flags, h.e_shnum, h.e_shstrndx), (1, 243, 0x100, 4, 9, 8));
}

#[test]
fn program_header_encodes_in_order() {
    let p = Elf32_Phdr {
        p_type: PT_LOAD,
        p_offset: 2,
        p_vaddr: 3,
        p_paddr: 4,
        p_filesz: 5,
        p_memsz: 6,
        p_flags: 7,
        p_align: 0x0102_0304,
    };
    let mut d = vec![0xeeu8; 36];
    p.encode(&mut d, 2);
    assert_eq!(&d[0..2], &[0xee, 0xee]);
    let words: Vec<u32> = (0..8).map(|i| u32::from_le_bytes([d[2 + 4 * i], d[3 + 4 * i], d[4 + 4 * i], d[5 + 4 * i]])).collect();
    assert_eq!(words, vec![1, 2, 3, 4, 5, 6, 7, 0x0102_0304]);
    assert_eq!(&d[34..36], &[0xee, 0xee]);
}
