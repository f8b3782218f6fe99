use artiq_fw::dwarf::{
    read_encoded_pointer, read_encoded_pointer_with_pc, round_up, DwarfReader, DwarfWriter, EH_Frame,
    EH_Frame_Hdr, DW_EH_PE_absptr, DW_EH_PE_aligned, DW_EH_PE_omit, DW_EH_PE_pcrel, DW_EH_PE_sdata2,
    DW_EH_PE_sdata4, DW_EH_PE_sleb128, DW_EH_PE_udata2, DW_EH_PE_udata4, DW_EH_PE_udata8,
    DW_EH_PE_uleb128,
};

fn uleb(bytes: &[u8]) -> (Option<u64>, u32) {
    let mut r = DwarfReader::new(bytes, 0x100, 0x100);
    let v = r.read_uleb128();
    (v, r.ptr)
}

fn sleb(bytes: &[u8]) -> (Option<i64>, u32) {
    let mut r = DwarfReader::new(bytes, 0x100, 0x100);
    let v = r.read_sleb128();
    (v, r.ptr)
}

#[test]
fn uleb128_examples_of_the_dwarf_standard() {
    assert_eq!(uleb(&[0x02]), (Some(2), 0x101));
    assert_eq!(uleb(&[0x7f]), (Some(127), 0x101));
    assert_eq!(uleb(&[0x80, 0x01]), (Some(128), 0x102));
    assert_eq!(uleb(&[0x81, 0x01]), (Some(129), 0x102));
    assert_eq!(uleb(&[0x82, 0x01]), (Some(130), 0x102));
    assert_eq!(uleb(&[0xb9, 0x64]), (Some(12857), 0x102));
}

#[test]
fn sleb128_examples_of_the_dwarf_standard() {
    assert_eq!(sleb(&[0x02]), (Some(2), 0x101));
    assert_eq!(sleb(&[0x7e]), (Some(-2), 0x101));
    assert_eq!(sleb(&[0xff, 0x00]), (Some(127), 0x102));
    assert_eq!(sleb(&[0x81, 0x7f]), (Some(-127), 0x102));
    assert_eq!(sleb(&[0x80, 0x01]), (Some(128), 0x102));
    assert_eq!(sleb(&[0x80, 0x7f]), (Some(-128), 0x102));
    assert_eq!(sleb(&[0x81, 0x01]), (Some(129), 0x102));
    assert_eq!(sleb(&[0xff, 0x7e]), (Some(-129), 0x102));
}

#[test]
fn leb128_stops_at_the_first_byte_without_high_bit() {
    assert_eq!(uleb(&[0xe5, 0x8e, 0x26, 0xff]), (Some(624485), 0x103));
    assert_eq!(sleb(&[0xc0, 0xbb, 0x78, 0x00]), (Some(-123456), 0x103));
}

#[test]
fn leb128_running_past_the_image_reads_nothing() {
    assert_eq!(uleb(&[0x80, 0x80]), (None, 0x100));
    assert_eq!(sleb(&[0xff]), (None, 0x100));
    assert_eq!(uleb(&[]), (None, 0x100));
}

#[test]
fn leb128_reads_to_its_last_byte_at_any_length() {
    let bytes = [0x80u8; 11];
    assert_eq!(uleb(&bytes), (None, 0x100));
    let mut ten = [0xffu8; 10];
    ten[9] = 0x01;
    assert_eq!(uleb(&ten), (Some(u64::MAX), 0x10a));
    // zero padded to eleven bytes
    let mut padded = [0x80u8; 11];
    padded[10] = 0x00;
    assert_eq!(uleb(&padded), (Some(0), 0x10b));
    // one padded to twelve bytes
    let mut one = [0x80u8; 12];
    one[0] = 0x81;
    one[11] = 0x00;
    assert_eq!(uleb(&one), (Some(1), 0x10c));
    // minus one padded to eleven bytes: no sign extension past bit 63
    let mut minus_one = [0xffu8; 11];
    minus_one[10] = 0x7f;
    assert_eq!(sleb(&minus_one), (Some(-1), 0x10b));
    // minus two padded to three bytes
    assert_eq!(sleb(&[0xfe, 0xff, 0x7f]), (Some(-2), 0x103));
}

#[test]
fn reader_reads_little_endian_fixed_width_values() {
    let bytes = [0x01u8, 0x02, 0x03, 0x04, 0x05, 0x06, 0x07, 0x08, 0x09];
    let mut r = DwarfReader::new(&bytes, 0x2000, 0x2000);
    assert_eq!(r.read_u8(), Some(0x01));
    assert_eq!(r.read_u16(), Some(0x0302));
    assert_eq!(r.read_u32(), Some(0x0706_0504));
    assert_eq!(r.ptr, 0x2007);
    assert_eq!(r.read_u64(), None);
    assert_eq!(r.ptr, 0x2007);
    r.offset(-7);
    assert_eq!(r.read_u64(), Some(0x0807_0605_0403_0201));
    assert_eq!(r.ptr, 0x2008);
}

#[test]
fn reader_outside_the_image_reads_nothing() {
    let bytes = [0xaau8, 0xbb, 0xcc];
    let mut below = DwarfReader::new(&bytes, 0x2000, 0x1fff);
    assert_eq!(below.read_u8(), None);
    assert_eq!(below.ptr, 0x1fff);
    let mut end = DwarfReader::new(&bytes, 0x2000, 0x2001);
    assert_eq!(end.read_u32(), None);
    assert_eq!(end.read_u16(), Some(0xccbb));
    assert_eq!(end.read_u8(), None);
    assert_eq!(end.ptr, 0x2003);
}

#[test]
fn round_up_to_powers_of_two() {
    assert_eq!(round_up(5, 4), Ok(8));
    assert_eq!(round_up(8, 4), Ok(8));
    assert_eq!(round_up(0, 1), Ok(0));
    assert_eq!(round_up(0x1001, 0x1000), Ok(0x2000));
    assert_eq!(round_up(5, 3), Err(()));
    assert_eq!(round_up(5, 0), Err(()));
}

fn encoded(bytes: &[u8], start: u32, enc: u8) -> (Result<u32, ()>, u32) {
    let mut r = DwarfReader::new(bytes, 0x1000, start);
    let v = read_encoded_pointer(&mut r, enc);
    (v, r.ptr)
}

#[test]
fn encoded_pointers_in_each_value_format() {
    let bytes = [0x34u8, 0x12, 0xfe, 0xff, 0x78, 0x56, 0x34, 0x12, 0x00, 0x00, 0x00, 0x00];
    assert_eq!(encoded(&bytes, 0x1000, DW_EH_PE_udata2), (Ok(0x1234), 0x1002));
    assert_eq!(encoded(&bytes, 0x1002, DW_EH_PE_sdata2), (Ok(0xffff_fffe), 0x1004));
    assert_eq!(encoded(&bytes, 0x1002, DW_EH_PE_udata2), (Ok(0xfffe), 0x1004));
    assert_eq!(encoded(&bytes, 0x1000, DW_EH_PE_udata4), (Ok(0xfffe_1234), 0x1004));
    assert_eq!(encoded(&bytes, 0x1004, DW_EH_PE_sdata4), (Ok(0x1234_5678), 0x1008));
    assert_eq!(encoded(&bytes, 0x1004, DW_EH_PE_absptr), (Ok(0x1234_5678), 0x1008));
    assert_eq!(encoded(&bytes, 0x1004, DW_EH_PE_udata8), (Ok(0x1234_5678), 0x100c));
    let leb = [0x7fu8, 0x7e];
    assert_eq!(encoded(&leb, 0x1000, DW_EH_PE_uleb128), (Ok(0x7f), 0x1001));
    assert_eq!(encoded(&leb, 0x1001, DW_EH_PE_sleb128), (Ok(0xffff_fffe), 0x1002));
}

#[test]
fn aligned_encoding_rounds_to_the_word() {
    let bytes = [0u8, 0, 0, 0, 0xef, 0xbe, 0xad, 0xde];
    assert_eq!(encoded(&bytes, 0x1001, DW_EH_PE_aligned), (Ok(0xdead_beef), 0x1008));
    assert_eq!(encoded(&bytes, 0x1004, DW_EH_PE_aligned), (Ok(0xdead_beef), 0x1008));
}

#[test]
fn encoded_pointer_rejections_leave_the_cursor() {
    let bytes = [0x11u8, 0x22, 0x33, 0x44];
    assert_eq!(encoded(&bytes, 0x1000, DW_EH_PE_omit), (Err(()), 0x1000));
    assert_eq!(encoded(&bytes, 0x1000, 0x05), (Err(()), 0x1000));
    assert_eq!(encoded(&bytes, 0x1001, DW_EH_PE_udata4), (Err(()), 0x1001));
}

#[test]
fn pc_relative_pointer_adds_the_field_address() {
    // -0x10 as sdata4 at address 0x1004
    let bytes = [0u8, 0, 0, 0, 0xf0, 0xff, 0xff, 0xff];
    let mut r = DwarfReader::new(&bytes, 0x1000, 0x1004);
    assert_eq!(read_encoded_pointer_with_pc(&mut r, DW_EH_PE_pcrel | DW_EH_PE_sdata4), Ok(0x0ff4));
    assert_eq!(r.ptr, 0x1008);
}

#[test]
fn indirect_pc_relative_pointer_is_loaded() {
    // at 0x1000: the value 0xcafe_f00d; at 0x1004: pcrel offset -4 pointing to it
    let bytes = [0x0du8, 0xf0, 0xfe, 0xca, 0xfc, 0xff, 0xff, 0xff];
    let mut r = DwarfReader::new(&bytes, 0x1000, 0x1004);
    assert_eq!(read_encoded_pointer_with_pc(&mut r, 0x9b), Ok(0xcafe_f00d));
    assert_eq!(r.ptr, 0x1008);
}

#[test]
fn writer_appends_little_endian_values() {
    let mut w = DwarfWriter::new();
    assert!(w.buf.is_empty());
    w.write_u8(0x01);
    w.write_u32(0xdead_beef);
    assert_eq!(w.buf, vec![0x01, 0xef, 0xbe, 0xad, 0xde]);
}

#[test]
fn written_word_reads_back() {
    let mut w = DwarfWriter::new();
    w.write_u8(7);
    w.write_u32(0x8765_4321);
    w.write_u32(42);
    let mut r = DwarfReader::new(&w.buf, 0x3000, 0x3001);
    assert_eq!(r.read_u32(), Some(0x8765_4321));
    assert_eq!(r.read_u32(), Some(42));
}

/// An `.eh_frame` of one CIE (augmentation "zPLR", FDE pointers pc-relative
/// signed 4-byte) followed by FDEs whose initial locations are given.
fn eh_frame(pc_fields: &[u32]) -> Vec<u8> {
    let mut v = Vec::new();
    v.extend_from_slice(&24u32.to_le_bytes()); // length
    v.extend_from_slice(&0u32.to_le_bytes()); // CIE id
    v.push(1); // version
    v.extend_from_slice(b"zPLR\0");
    v.push(0x01); // code alignment factor
    v.push(0x7c); // data alignment factor (-4)
    v.push(0x01); // return address register
    v.push(0x07); // augmentation data length
    v.push(0x9b); // personality encoding
    v.extend_from_slice(&0u32.to_le_bytes()); // personality pointer
    v.push(0x1b); // LSDA encoding
    v.push(0x1b); // FDE pointer encoding
    v.extend_from_slice(&[0, 0, 0]); // padding
    assert_eq!(v.len(), 28);
    for &pc in pc_fields {
        let here = v.len() as u32;
        v.extend_from_slice(&12u32.to_le_bytes()); // length
        v.extend_from_slice(&(here + 4).to_le_bytes()); // CIE pointer
        v.extend_from_slice(&pc.to_le_bytes()); // initial location
        v.extend_from_slice(&8u32.to_le_bytes()); // address range
    }
    v
}

#[test]
fn eh_frame_cie_gives_encoding_and_fde_extent() {
    let m = eh_frame(&[0x100, 0xffff_ffcc]);
    let f = EH_Frame::parse(&m, 0x1000, 0x1000, m.len() as u32).unwrap();
    assert_eq!(f.fde_pointer_encoding, 0x1b);
    assert_eq!(f.fde_base, 0x101c);
    assert_eq!(f.fde_sz, 32);
    let g = EH_Frame::new(&m, 0x1000, 0x1000, m.len() as u32);
    assert_eq!((g.fde_pointer_encoding, g.fde_base, g.fde_sz), (0x1b, 0x101c, 32));
}

#[test]
fn eh_frame_fdes_are_listed_in_order() {
    let m = eh_frame(&[0x100, 0xffff_ffcc]);
    let f = EH_Frame::new(&m, 0x1000, 0x1000, m.len() as u32);
    let (entries, done) = f.iterate_fde(&m, 0x1000);
    // initial locations: 0x100 + 0x1024 and -0x34 + 0x1034
    assert_eq!(entries, vec![(0x1124, 0x101c), (0x1000, 0x102c)]);
    assert_eq!(done, Ok(()));
    assert_eq!(f.scan_fdes(&m, 0x1000), Some((vec![(0x1124, 0x101c), (0x1000, 0x102c)], true)));
}

#[test]
fn eh_frame_with_unsupported_cie_is_refused() {
    let mut m = eh_frame(&[0x100]);
    // version 3
    m[8] = 3;
    assert!(EH_Frame::parse(&m, 0x1000, 0x1000, m.len() as u32).is_none());
    let mut m = eh_frame(&[0x100]);
    // augmentation data length other than 7
    m[17] = 6;
    assert!(EH_Frame::parse(&m, 0x1000, 0x1000, m.len() as u32).is_none());
    let mut m = eh_frame(&[0x100]);
    // an augmentation character other than L, P, R
    m[11] = b'S';
    assert!(EH_Frame::parse(&m, 0x1000, 0x1000, m.len() as u32).is_none());
    let mut m = eh_frame(&[0x100]);
    // CIE length 0
    m[0] = 0;
    assert!(EH_Frame::parse(&m, 0x1000, 0x1000, m.len() as u32).is_none());
    let m = eh_frame(&[0x100]);
    // section shorter than the CIE
    assert!(EH_Frame::parse(&m, 0x1000, 0x1000, 20).is_none());
}

#[test]
fn fde_with_bad_length_stops_the_walk() {
    let mut m = eh_frame(&[0x100]);
    m[28] = 0; // FDE length 0
    let f = EH_Frame::parse(&m, 0x1000, 0x1000, m.len() as u32).unwrap();
    assert_eq!(f.scan_fdes(&m, 0x1000), None);
}

#[test]
fn eh_frame_hdr_header_and_table() {
    let mut h = EH_Frame_Hdr::new(0x4000_00c8);
    assert_eq!(h.size(), 12);
    assert_eq!(*h.as_bytes(), vec![1, 3, 3, 3, 0xc8, 0, 0, 0x40, 0, 0, 0, 0]);
    h.add_fde(0x4000_00b8, 0x4000_00e4);
    assert_eq!(h.size(), 20);
    h.add_fde(0x11, 0x22);
    assert_eq!(h.size(), 28);
    assert_eq!(
        *h.as_bytes(),
        vec![
            1, 3, 3, 3, 0xc8, 0, 0, 0x40, 2, 0, 0, 0, 0xb8, 0, 0, 0x40, 0xe4, 0, 0, 0x40, 0x11, 0, 0, 0,
            0x22, 0, 0, 0
        ]
    );
}

#[test]
fn eh_frame_hdr_reads_back_with_a_reader() {
    let mut h = EH_Frame_Hdr::new(0x1234);
    h.add_fde(0x10, 0x20);
    h.add_fde(0x30, 0x40);
    let bytes = h.as_bytes().clone();
    let mut r = DwarfReader::new(&bytes, 0, 4);
    assert_eq!(r.read_u32(), Some(0x1234));
    assert_eq!(r.read_u32(), Some(2));
    assert_eq!(r.read_u32(), Some(0x10));
    assert_eq!(r.read_u32(), Some(0x20));
    assert_eq!(r.read_u32(), Some(0x30));
    assert_eq!(r.read_u32(), Some(0x40));
    assert_eq!(r.read_u32(), None);
}
