use artiq_fw::elf::{
    Elf32_Rela, Elf32_Sym, EF_RISCV_FLOAT_ABI_DOUBLE, EF_RISCV_FLOAT_ABI_SOFT, EM_NONE, EM_RISCV,
    R_RISCV_32, R_RISCV_32_PCREL, R_RISCV_ADD32, R_RISCV_CALL_PLT, R_RISCV_GOT_HI20,
    R_RISCV_PCREL_HI20, R_RISCV_PCREL_LO12_I, R_RISCV_SET6, R_RISCV_SUB32, R_RISCV_SUB6, SHN_ABS,
    SHN_UNDEF,
};
use artiq_fw::loader::{get_ref_slice, name_starting_at_slice};
use artiq_fw::{Error, Library, SectionHeader, SectionType};

const DATA_ADDR: u32 = 0x2000_0000;
const IMAGE_ADDR: u32 = 0x4000_0000;

fn word(v: &[u8], off: usize) -> u32 {
    u32::from_le_bytes([v[off], v[off + 1], v[off + 2], v[off + 3]])
}

fn is_parsing(r: &Result<(), Error>, msg: &str) -> bool {
    matches!(r, Err(Error::Parsing(m)) if *m == msg)
}

fn lib_error(r: &Result<Library, Error>) -> Option<&'static str> {
    match r {
        Err(Error::Parsing(m)) => Some(*m),
        _ => None,
    }
}

fn ext_resolver(name: &[u8]) -> Option<u32> {
    if name == b"ext_fn" || name == b"ext" {
        Some(0x1234_5678)
    } else {
        None
    }
}

fn no_resolver(_name: &[u8]) -> Option<u32> {
    None
}

struct Section {
    name: &'static str,
    ty: u32,
    flags: u32,
    link: u32,
    info: u32,
    align: u32,
    entsize: u32,
    data: Vec<u8>,
}

const STRTAB: &[u8] =
    b"\0foo\0ext_fn\0bar\0.text\0.data\0.eh_frame\0.rela.text\0.rela.data\0.rela.eh_frame\0.symtab\0.strtab\0";

fn name_off(name: &str) -> u32 {
    if name.is_empty() {
        return 0;
    }
    let n = name.as_bytes();
    for i in 1..STRTAB.len() - n.len() {
        if STRTAB[i - 1] == 0 && &STRTAB[i..i + n.len()] == n && STRTAB[i + n.len()] == 0 {
            return i as u32;
        }
    }
    panic!("name not in string table")
}

fn rela(off: u32, sym: u32, ty: u32, addend: i32) -> Vec<u8> {
    let mut v = Vec::new();
    v.extend_from_slice(&off.to_le_bytes());
    v.extend_from_slice(&((sym << 8) | ty).to_le_bytes());
    v.extend_from_slice(&addend.to_le_bytes());
    v
}

fn sym_bytes(name: &str, value: u32, size: u32, info: u8, shndx: u16) -> Vec<u8> {
    let mut v = Vec::new();
    v.extend_from_slice(&name_off(name).to_le_bytes());
    v.extend_from_slice(&value.to_le_bytes());
    v.extend_from_slice(&size.to_le_bytes());
    v.push(info);
    v.push(0);
    v.extend_from_slice(&shndx.to_le_bytes());
    v
}

fn eh_frame_section() -> Vec<u8> {
    let mut v = Vec::new();
    v.extend_from_slice(&24u32.to_le_bytes());
    v.extend_from_slice(&0u32.to_le_bytes());
    v.push(1);
    v.extend_from_slice(b"zPLR\0");
    v.extend_from_slice(&[0x01, 0x7c, 0x01, 0x07, 0x9b]);
    v.extend_from_slice(&0u32.to_le_bytes());
    v.extend_from_slice(&[0x1b, 0x1b, 0, 0, 0]);
    // one FDE for .text, its initial location relocated by R_RISCV_32_PCREL
    v.extend_from_slice(&12u32.to_le_bytes());
    v.extend_from_slice(&32u32.to_le_bytes());
    v.extend_from_slice(&0u32.to_le_bytes());
    v.extend_from_slice(&8u32.to_le_bytes());
    assert_eq!(v.len(), 44);
    v
}

fn sections() -> Vec<Section> {
    let mut symtab = Vec::new();
    symtab.extend(sym_bytes("", 0, 0, 0, 0));
    symtab.extend(sym_bytes("foo", 0, 8, 0x02, 1));
    symtab.extend(sym_bytes("ext_fn", 0, 0, 0x10, SHN_UNDEF));
    symtab.extend(sym_bytes("bar", 4, 4, 0x11, 2));
    let mut rela_data = rela(0, 1, R_RISCV_32, 0);
    rela_data.extend(rela(4, 3, R_RISCV_ADD32, 3));
    vec![
        Section { name: "", ty: 0, flags: 0, link: 0, info: 0, align: 0, entsize: 0, data: vec![] },
        Section {
            name: ".text",
            ty: 1,
            flags: 6,
            link: 0,
            info: 0,
            align: 4,
            entsize: 0,
            // auipc ra, 0; jalr ra, 0(ra)
            data: vec![0x97, 0, 0, 0, 0xe7, 0x80, 0, 0],
        },
        Section { name: ".data", ty: 1, flags: 3, link: 0, info: 0, align: 4, entsize: 0, data: vec![0, 0, 0, 0, 0x10, 0, 0, 0] },
        Section { name: ".eh_frame", ty: 1, flags: 2, link: 0, info: 0, align: 4, entsize: 0, data: eh_frame_section() },
        Section { name: ".rela.text", ty: 4, flags: 0x40, link: 7, info: 1, align: 4, entsize: 12, data: rela(0, 2, R_RISCV_CALL_PLT, 0) },
        Section { name: ".rela.data", ty: 4, flags: 0x40, link: 7, info: 2, align: 4, entsize: 12, data: rela_data },
        Section { name: ".rela.eh_frame", ty: 4, flags: 0x40, link: 7, info: 3, align: 4, entsize: 12, data: rela(36, 1, R_RISCV_32_PCREL, 0) },
        Section { name: ".symtab", ty: 2, flags: 0, link: 8, info: 2, align: 4, entsize: 16, data: symtab },
        Section { name: ".strtab", ty: 3, flags: 0, link: 0, info: 0, align: 1, entsize: 0, data: STRTAB.to_vec() },
    ]
}

/// A relocatable object for `machine` with `flags`, its section header table
/// at offset `shoff` (returned with it).
fn object_for(machine: u16, flags: u32, secs: &[Section], shstrndx: u16) -> (Vec<u8>, usize) {
    let mut d = vec![0u8; 52];
    let mut offsets = Vec::new();
    for s in secs {
        while d.len() % 4 != 0 {
            d.push(0);
        }
        offsets.push(d.len() as u32);
        d.extend_from_slice(&s.data);
    }
    while d.len() % 4 != 0 {
        d.push(0);
    }
    let shoff = d.len();
    for (s, off) in secs.iter().zip(offsets.iter()) {
        let fields = [
            name_off(s.name),
            s.ty,
            s.flags,
            0,
            if s.ty == 0 { 0 } else { *off },
            s.data.len() as u32,
            s.link,
            s.info,
            s.align,
            s.entsize,
        ];
        for f in fields.iter() {
            d.extend_from_slice(&f.to_le_bytes());
        }
    }
    d[0..16].copy_from_slice(&[0x7f, b'E', b'L', b'F', 1, 1, 1, 0, 0, 0, 0, 0, 0, 0, 0, 0]);
    d[16..18].copy_from_slice(&1u16.to_le_bytes());
    d[18..20].copy_from_slice(&machine.to_le_bytes());
    d[20..24].copy_from_slice(&1u32.to_le_bytes());
    d[32..36].copy_from_slice(&(shoff as u32).to_le_bytes());
    d[36..40].copy_from_slice(&flags.to_le_bytes());
    d[40..42].copy_from_slice(&52u16.to_le_bytes());
    d[46..48].copy_from_slice(&40u16.to_le_bytes());
    d[48..50].copy_from_slice(&(secs.len() as u16).to_le_bytes());
    d[50..52].copy_from_slice(&shstrndx.to_le_bytes());
    (d, shoff)
}

fn object() -> (Vec<u8>, usize) {
    object_for(EM_RISCV, EF_RISCV_FLOAT_ABI_SOFT, &sections(), 8)
}

fn load_into(data: &[u8], data_addr: u32, image: &mut Vec<u8>, resolve: &dyn Fn(&[u8]) -> Option<u32>) -> Result<Library, Error> {
    Library::load(data, data_addr, image, IMAGE_ADDR, EM_RISCV, EF_RISCV_FLOAT_ABI_SOFT, &resolve)
}

#[test]
fn load_copies_sections_after_the_section_table() {
    let (data, _) = object();
    let mut image = vec![0u8; 512];
    let lib = load_into(&data, DATA_ADDR, &mut image, &ext_resolver).unwrap();
    assert_eq!(image.len(), 512);
    assert_eq!(lib.image_off, IMAGE_ADDR);
    assert_eq!(lib.image_sz, 447);
    assert_eq!(lib.exec_off, 184);
    assert_eq!(lib.eh_frame_sec_ind, 3);
    let table: Vec<(u16, u32, u32)> = lib.sectab.iter().map(|s| (s.sh_index, s.sh_off, s.sh_size)).collect();
    assert_eq!(table, vec![(1, 184, 8), (2, 192, 8), (3, 200, 44), (4, 244, 12), (5, 256, 24), (6, 280, 12)]);
    let kinds: Vec<Option<u16>> = lib
        .sectab
        .iter()
        .map(|s| match s.sh_type {
            SectionType::RELA(t) => Some(t),
            SectionType::PROGBITS => None,
        })
        .collect();
    assert_eq!(kinds, vec![None, None, None, Some(1), Some(2), Some(3)]);
    assert_eq!(lib.strtab, STRTAB.to_vec());
    assert_eq!(lib.symtab.len(), 4);
    assert_eq!(lib.symtab[3].st_value, 4);
    assert_eq!(lib.symtab[3].st_shndx, 2);
    // relocation tables, symbol and string tables are copied as they are
    let secs = sections();
    assert_eq!(&image[244..256], &secs[4].data[..]);
    assert_eq!(&image[256..280], &secs[5].data[..]);
    assert_eq!(&image[292..356], &secs[7].data[..]);
    assert_eq!(&image[356..447], STRTAB);
    // the section table follows the two program headers, one 20-byte entry
    // per copied PROGBITS or RELA section: index, kind tag (0 RELA, 1
    // PROGBITS) and relocated section, offset, size
    let entries: Vec<[u32; 5]> = (0..6)
        .map(|k| {
            let e = 64 + 20 * k;
            [word(&image, e), word(&image, e + 4), word(&image, e + 8), word(&image, e + 12), word(&image, e + 16)]
        })
        .collect();
    assert_eq!(
        entries,
        vec![
            [1, 1, 0, 184, 8],
            [2, 1, 0, 192, 8],
            [3, 1, 0, 200, 44],
            [4, 0, 1, 244, 12],
            [5, 0, 2, 256, 24],
            [6, 0, 3, 280, 12],
        ]
    );
}

#[test]
fn load_applies_the_relocations() {
    let (data, _) = object();
    let mut image = vec![0u8; 512];
    load_into(&data, DATA_ADDR, &mut image, &ext_resolver).unwrap();
    // auipc+jalr became lui+jalr reaching ext_fn = 0x12345678
    assert_eq!(word(&image, 184), 0x1234_50b7);
    assert_eq!(word(&image, 188), 0x6780_80e7);
    // R_RISCV_32 against foo (.text + 0)
    assert_eq!(word(&image, 192), 0x4000_00b8);
    // R_RISCV_ADD32 against bar (.data + 4) with addend 3, onto 0x10
    assert_eq!(word(&image, 196), 0x4000_00d7);
    // R_RISCV_32_PCREL against foo at .eh_frame + 36
    assert_eq!(word(&image, 236), 0xffff_ffcc);
}

#[test]
fn load_adds_the_eh_frame_hdr_and_program_headers() {
    let (data, _) = object();
    let mut image = vec![0u8; 512];
    load_into(&data, DATA_ADDR, &mut image, &ext_resolver).unwrap();
    let hdr: Vec<u32> = (0..4).map(|i| word(&image, 451 + 4 * i)).collect();
    assert_eq!(&image[447..451], &[1, 3, 3, 3]);
    assert_eq!(hdr, vec![0x4000_00c8, 1, 0x4000_00b8, 0x4000_00e4]);
    let load: Vec<u32> = (0..8).map(|i| word(&image, 4 * i)).collect();
    assert_eq!(load, vec![1, 184, 184, 184, 283, 283, 5, 4]);
    let eh: Vec<u32> = (0..8).map(|i| word(&image, 32 + 4 * i)).collect();
    assert_eq!(eh, vec![0x6474_e550, 447, 447, 447, 20, 20, 4, 4]);
    assert!(image[467..].iter().all(|&b| b == 0));
}

#[test]
fn loaded_library_looks_up_its_symbols() {
    let (data, _) = object();
    let mut image = vec![0u8; 512];
    let lib = load_into(&data, DATA_ADDR, &mut image, &ext_resolver).unwrap();
    assert_eq!(lib.lookup(b"foo", true), Some(0x4000_00b8));
    assert_eq!(lib.lookup(b"foo", false), None);
    assert_eq!(lib.lookup(b"bar", false), Some(0x4000_00c4));
    assert_eq!(lib.lookup(b"ext_fn", true), None);
    assert_eq!(lib.lookup(b"nothing", true), None);
    // the relocation against foo used the address that lookup gives
    assert_eq!(word(&image, 192), lib.lookup(b"foo", true).unwrap());
}

#[test]
fn load_reports_an_unresolved_symbol() {
    let (data, _) = object();
    let mut image = vec![0u8; 512];
    match load_into(&data, DATA_ADDR, &mut image, &no_resolver) {
        Err(Error::Lookup(name)) => assert_eq!(name, b"ext_fn".to_vec()),
        _ => panic!("expected a lookup error"),
    }
}

#[test]
fn load_refuses_a_short_header() {
    let (data, _) = object();
    let mut image = vec![0xa5u8; 512];
    let r = load_into(&data[..40], DATA_ADDR, &mut image, &ext_resolver);
    assert_eq!(lib_error(&r), Some("cannot read ELF header"));
    assert_eq!(image, vec![0xa5u8; 512]);
}

#[test]
fn refusals_before_copying_leave_the_image() {
    let (data, _) = object();
    let mut image = vec![0xa5u8; 512];
    let r = Library::load(&data, DATA_ADDR, &mut image, IMAGE_ADDR, EM_NONE, EF_RISCV_FLOAT_ABI_SOFT, &no_resolver);
    assert_eq!(lib_error(&r), Some("not a shared library for current architecture"));
    assert_eq!(image, vec![0xa5u8; 512]);
    let r = load_into(&data, DATA_ADDR + 2, &mut image, &ext_resolver);
    assert_eq!(lib_error(&r), Some("cannot read section header table"));
    assert_eq!(image, vec![0xa5u8; 512]);
    let mut small = vec![0xa5u8; 100];
    let r = load_into(&data, DATA_ADDR, &mut small, &ext_resolver);
    assert_eq!(lib_error(&r), Some("cannot read section header table"));
    assert_eq!(small, vec![0xa5u8; 100]);
}

#[test]
fn load_refuses_another_architecture() {
    let (data, _) = object();
    let mut image = vec![0u8; 512];
    let r = Library::load(&data, DATA_ADDR, &mut image, IMAGE_ADDR, EM_NONE, EF_RISCV_FLOAT_ABI_SOFT, &ext_resolver);
    assert_eq!(lib_error(&r), Some("not a shared library for current architecture"));
    let r = Library::load(&data, DATA_ADDR, &mut image, IMAGE_ADDR, EM_RISCV, EF_RISCV_FLOAT_ABI_DOUBLE, &ext_resolver);
    assert_eq!(lib_error(&r), Some("not a shared library for current architecture"));
    let mut exec = data.clone();
    exec[16] = 2; // ET_EXEC
    let r = load_into(&exec, DATA_ADDR, &mut image, &ext_resolver);
    assert_eq!(lib_error(&r), Some("not a shared library for current architecture"));
}

#[test]
fn load_refuses_a_misaligned_section_header_table() {
    let (data, _) = object();
    let mut image = vec![0u8; 512];
    let r = load_into(&data, DATA_ADDR + 2, &mut image, &ext_resolver);
    assert_eq!(lib_error(&r), Some("cannot read section header table"));
}

#[test]
fn load_refuses_an_image_without_room_for_the_section_table() {
    let (data, _) = object();
    let mut image = vec![0u8; 100];
    let r = load_into(&data, DATA_ADDR, &mut image, &ext_resolver);
    assert_eq!(lib_error(&r), Some("cannot read section header table"));
}

#[test]
fn load_refuses_an_image_too_small_for_the_sections() {
    let (data, _) = object();
    let mut image = vec![0u8; 300];
    let r = load_into(&data, DATA_ADDR, &mut image, &ext_resolver);
    assert_eq!(lib_error(&r), Some("cannot write to section header destination"));
}

#[test]
fn load_refuses_a_section_outside_the_object() {
    let (mut data, shoff) = object();
    let len = data.len() as u32;
    // section 2 (.data) starts at the end of the object
    data[shoff + 80 + 16..shoff + 80 + 20].copy_from_slice(&len.to_le_bytes());
    let mut image = vec![0u8; 512];
    let r = load_into(&data, DATA_ADDR, &mut image, &ext_resolver);
    assert_eq!(lib_error(&r), Some("cannot read from section header destination"));
}

#[test]
fn load_refuses_a_string_table_outside_the_object() {
    let (mut data, shoff) = object();
    // section 8 (.strtab) is 0x10000 bytes long
    data[shoff + 320 + 20..shoff + 320 + 24].copy_from_slice(&0x10000u32.to_le_bytes());
    let mut image = vec![0u8; 512];
    let r = load_into(&data, DATA_ADDR, &mut image, &ext_resolver);
    assert_eq!(lib_error(&r), Some("cannot read string table from data"));
}

#[test]
fn load_refuses_an_image_without_room_for_the_eh_frame_hdr() {
    let (data, _) = object();
    let mut image = vec![0u8; 450];
    let r = load_into(&data, DATA_ADDR, &mut image, &ext_resolver);
    assert_eq!(lib_error(&r), Some("unsupported .eh_frame section"));
}

#[test]
fn load_refuses_an_object_without_eh_frame() {
    let mut secs = sections();
    secs[3].name = ".data";
    secs.truncate(6);
    secs.push(Section { name: ".symtab", ty: 2, flags: 0, link: 7, info: 2, align: 4, entsize: 16, data: sections().remove(7).data });
    secs.push(Section { name: ".strtab", ty: 3, flags: 0, link: 0, info: 0, align: 1, entsize: 0, data: STRTAB.to_vec() });
    // without the .rela.eh_frame section, .symtab is 6 and .strtab 7
    secs[4].link = 6;
    secs[5].link = 6;
    secs[6].link = 7;
    let (data, _) = object_for(EM_RISCV, EF_RISCV_FLOAT_ABI_SOFT, &secs, 7);
    let mut image = vec![0u8; 512];
    let r = load_into(&data, DATA_ADDR, &mut image, &ext_resolver);
    assert_eq!(lib_error(&r), Some("unsupported .eh_frame section"));
}

#[test]
fn load_checked_gives_none_where_loading_cannot_proceed() {
    let secs = sections();
    // string table index outside the section header table
    let (data, _) = object_for(EM_RISCV, EF_RISCV_FLOAT_ABI_SOFT, &secs, 9);
    let mut image = vec![0u8; 512];
    let r = Library::load_checked(&data, DATA_ADDR, &mut image, IMAGE_ADDR, EM_RISCV, EF_RISCV_FLOAT_ABI_SOFT, &ext_resolver);
    assert!(r.is_none());
    // a section with alignment 0
    let mut secs = sections();
    secs[2].align = 0;
    let (data, _) = object_for(EM_RISCV, EF_RISCV_FLOAT_ABI_SOFT, &secs, 8);
    let mut image = vec![0u8; 512];
    let r = Library::load_checked(&data, DATA_ADDR, &mut image, IMAGE_ADDR, EM_RISCV, EF_RISCV_FLOAT_ABI_SOFT, &ext_resolver);
    assert!(r.is_none());
    // a well-formed object loads
    let (data, _) = object();
    let mut image = vec![0u8; 512];
    let r = Library::load_checked(&data, DATA_ADDR, &mut image, IMAGE_ADDR, EM_RISCV, EF_RISCV_FLOAT_ABI_SOFT, &ext_resolver);
    assert!(matches!(r, Some(Ok(_))));
    assert_eq!(word(&image, 192), 0x4000_00b8);
}

fn sym(name: u32, value: u32, info: u8, shndx: u16) -> Elf32_Sym {
    Elf32_Sym { st_name: name, st_value: value, st_size: 0, st_info: info, st_other: 0, st_shndx: shndx }
}

/// A library at 0x1000 with one copied section (index 1) of 32 bytes at the
/// start of the image, and the symbols: 1 `ext` (undefined, global), 2 `loc`
/// (section 1 + 4, local), 3 `abs` (absolute 0x55, global), 4 `hi`
/// (absolute 0x12fff, global).
fn small_lib() -> Library {
    Library {
        image_off: 0x1000,
        image_sz: 32,
        exec_off: 0,
        sectab: vec![SectionHeader { sh_index: 1, sh_type: SectionType::PROGBITS, sh_off: 0, sh_size: 32 }],
        strtab: b"\0ext\0loc\0abs\0hi\0".to_vec(),
        symtab: vec![
            sym(0, 0, 0, 0),
            sym(1, 0, 0x10, SHN_UNDEF),
            sym(5, 4, 0x02, 1),
            sym(9, 0x55, 0x10, SHN_ABS),
            sym(13, 0x12fff, 0x10, SHN_ABS),
        ],
        eh_frame_sec_ind: 0,
    }
}

fn relocate(lib: &Library, image: &mut Vec<u8>, off: u32, symbol: u32, ty: u32, addend: i32) -> Result<(), Error> {
    let r = Elf32_Rela { r_offset: off, r_info: (symbol << 8) | ty, r_addend: addend };
    lib.resolve_rela(image, &r, 1, &ext_resolver)
}

#[test]
fn lookup_by_binding_and_section() {
    let lib = small_lib();
    assert_eq!(lib.lookup(b"loc", true), Some(0x1004));
    assert_eq!(lib.lookup(b"loc", false), None);
    assert_eq!(lib.lookup(b"abs", false), Some(0x55));
    assert_eq!(lib.lookup(b"ext", true), None);
    assert_eq!(lib.lookup(b"zzz", true), None);
}

#[test]
fn lookup_of_a_symbol_in_a_section_not_copied() {
    let mut lib = small_lib();
    lib.symtab[2].st_shndx = 5;
    assert_eq!(lib.lookup(b"loc", true), None);
}

#[test]
fn relocation_r_riscv_32_stores_the_symbol() {
    let lib = small_lib();
    let mut image = vec![0u8; 32];
    relocate(&lib, &mut image, 0, 3, R_RISCV_32, 0).unwrap();
    assert_eq!(word(&image, 0), 0x55);
}

#[test]
fn relocation_add32_then_sub32_restores_the_word() {
    let lib = small_lib();
    let mut image = vec![0u8; 32];
    image[4] = 10;
    relocate(&lib, &mut image, 4, 3, R_RISCV_ADD32, 2).unwrap();
    assert_eq!(word(&image, 4), 10 + 0x55 + 2);
    relocate(&lib, &mut image, 4, 3, R_RISCV_SUB32, 2).unwrap();
    assert_eq!(word(&image, 4), 10);
    // modulo 2^32
    relocate(&lib, &mut image, 4, 3, R_RISCV_SUB32, 2).unwrap();
    assert_eq!(word(&image, 4), 10u32.wrapping_sub(0x57));
}

#[test]
fn relocation_32_pcrel_stores_the_distance() {
    let lib = small_lib();
    let mut image = vec![0u8; 32];
    relocate(&lib, &mut image, 8, 2, R_RISCV_32_PCREL, 0).unwrap();
    // loc at 0x1004, target at 0x1008
    assert_eq!(word(&image, 8), 0xffff_fffc);
}

#[test]
fn relocation_set6_and_sub6_touch_the_low_six_bits() {
    let lib = small_lib();
    let mut image = vec![0u8; 32];
    image[12] = 0xff;
    image[13] = 0xc3;
    relocate(&lib, &mut image, 12, 3, R_RISCV_SET6, 0).unwrap();
    assert_eq!(image[12], 0xd5);
    relocate(&lib, &mut image, 13, 3, R_RISCV_SUB6, 0).unwrap();
    assert_eq!(image[13], 0xee);
}

#[test]
fn relocation_got_hi20_makes_lui_addi() {
    let lib = small_lib();
    for ty in [R_RISCV_GOT_HI20, R_RISCV_PCREL_HI20] {
        let mut image = vec![0u8; 32];
        // auipc a0, 0; lw a0, 0(a0)
        image[16..20].copy_from_slice(&0x0000_0517u32.to_le_bytes());
        image[20..24].copy_from_slice(&0x0005_2503u32.to_le_bytes());
        relocate(&lib, &mut image, 16, 4, ty, 0).unwrap();
        // lui a0, 0x13; addi a0, a0, -1: 0x13000 - 1 == 0x12fff
        assert_eq!(word(&image, 16), 0x0001_3537);
        assert_eq!(word(&image, 20), 0xfff5_0513);
    }
}

#[test]
fn relocation_call_plt_makes_lui_jalr_to_the_resolved_symbol() {
    let lib = small_lib();
    let mut image = vec![0u8; 32];
    image[24..28].copy_from_slice(&0x0000_0097u32.to_le_bytes());
    image[28..32].copy_from_slice(&0x0000_80e7u32.to_le_bytes());
    relocate(&lib, &mut image, 24, 1, R_RISCV_CALL_PLT, 0).unwrap();
    assert_eq!(word(&image, 24), 0x1234_50b7);
    assert_eq!(word(&image, 28), 0x6780_80e7);
}

#[test]
fn relocation_pcrel_lo12_is_left_to_its_partner() {
    let lib = small_lib();
    let mut image = vec![0xabu8; 32];
    relocate(&lib, &mut image, 0, 3, R_RISCV_PCREL_LO12_I, 0).unwrap();
    assert_eq!(image, vec![0xabu8; 32]);
}

#[test]
fn relocation_errors_leave_the_image() {
    let lib = small_lib();
    let mut image = vec![0x5au8; 32];
    let r = relocate(&lib, &mut image, 0, 3, 2, 0);
    assert!(is_parsing(&r, "unsupported relocation type"));
    let r = relocate(&lib, &mut image, 0, 9, R_RISCV_32, 0);
    assert!(is_parsing(&r, "symbol out of bounds of symbol table"));
    let r = relocate(&lib, &mut image, 0, 0, R_RISCV_32, 0);
    assert!(is_parsing(&r, "relocation requires an associated symbol"));
    let r = relocate(&lib, &mut image, 30, 3, R_RISCV_32, 0);
    assert!(is_parsing(&r, "relocation target outside the image"));
    let rela = Elf32_Rela { r_offset: 0, r_info: (3 << 8) | R_RISCV_32, r_addend: 0 };
    let r = lib.resolve_rela(&mut image, &rela, 7, &ext_resolver);
    assert!(is_parsing(&r, "Cannot find section with matching sh_index"));
    let rela = Elf32_Rela { r_offset: 0, r_info: (1 << 8) | R_RISCV_32, r_addend: 0 };
    match lib.resolve_rela(&mut image, &rela, 1, &no_resolver) {
        Err(Error::Lookup(name)) => assert_eq!(name, b"ext".to_vec()),
        _ => panic!("expected a lookup error"),
    }
    assert_eq!(image, vec![0x5au8; 32]);
}

#[test]
fn relocation_against_an_unterminated_name() {
    let mut lib = small_lib();
    lib.strtab = b"\0ext".to_vec();
    let mut image = vec![0u8; 32];
    let r = relocate(&lib, &mut image, 0, 1, R_RISCV_32, 0);
    assert!(is_parsing(&r, "symbol in symbol table not null-terminated"));
}

#[test]
fn names_are_read_up_to_their_nul() {
    let tab = b"\0ext\0loc";
    assert_eq!(name_starting_at_slice(tab, 1).unwrap(), b"ext");
    assert_eq!(name_starting_at_slice(tab, 0).unwrap(), b"");
    assert!(matches!(
        name_starting_at_slice(tab, 5),
        Err(Error::Parsing("symbol in symbol table not null-terminated"))
    ));
    assert!(name_starting_at_slice(tab, 100).is_err());
}

#[test]
fn records_are_read_only_when_inside_and_aligned() {
    let data: Vec<u8> = (0u8..16).collect();
    assert_eq!(get_ref_slice(&data, 0x1000, 4, 2, 4, 4), Ok(&data[4..12]));
    assert_eq!(get_ref_slice(&data, 0x1001, 4, 2, 4, 4), Err(()));
    assert_eq!(get_ref_slice(&data, 0x1000, 4, 4, 4, 4), Err(()));
    assert_eq!(get_ref_slice(&data, 0x1001, 3, 13, 1, 1), Ok(&data[3..16]));
}

#[test]
fn a_message_converts_to_a_parsing_error() {
    assert!(matches!(Error::from("cannot read ELF header"), Error::Parsing("cannot read ELF header")));
}

#[test]
fn eh_frame_support_written_again_changes_nothing() {
    let (data, _) = object();
    let mut image = vec![0u8; 512];
    let lib = load_into(&data, DATA_ADDR, &mut image, &ext_resolver).unwrap();
    let before = image.clone();
    lib.add_eh_frame_support(&mut image).unwrap();
    assert_eq!(image, before);
    lib.try_add_eh_frame_support(&mut image).unwrap();
    assert_eq!(image, before);
}

#[test]
fn placing_copies_without_relocating() {
    let (data, _) = object();
    let mut image = vec![0u8; 512];
    let lib = match Library::place(&data, DATA_ADDR, &mut image, IMAGE_ADDR, EM_RISCV, EF_RISCV_FLOAT_ABI_SOFT) {
        Some(Ok(lib)) => lib,
        _ => panic!("expected the sections to be placed"),
    };
    assert_eq!(lib.image_sz, 447);
    // .text and .data as in the object, no program headers yet
    assert_eq!(word(&image, 184), 0x0000_0097);
    assert_eq!(word(&image, 192), 0);
    assert_eq!(word(&image, 196), 0x10);
    assert!(image[0..64].iter().all(|&b| b == 0));
    lib.relocate(&mut image, &ext_resolver).unwrap();
    assert_eq!(word(&image, 184), 0x1234_50b7);
    assert_eq!(word(&image, 192), 0x4000_00b8);
    assert!(image[0..64].iter().all(|&b| b == 0));
}

#[test]
fn error_messages_name_their_cause() {
    assert_eq!(Error::Parsing("cannot read ELF header").message(), "parse error: cannot read ELF header");
    assert_eq!(Error::Lookup(b"ext_fn".to_vec()).message(), "symbol lookup error: ext_fn");
    assert_eq!(Error::Lookup(vec![0xff, 1]).message(), "symbol lookup error: [255, 1]");
}
