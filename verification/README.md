# artiq_fw

A firmware library for ARTIQ devices, verified with Verus:

- `src/loader.rs`: loading a relocatable RISC-V ELF object into a memory
  image (section copy, section table, symbol lookup, relocations, and the
  `.eh_frame_hdr` with its two program headers).
- `src/dwarf.rs`: a cursor over a memory image for DWARF values (fixed
  width, LEB128, encoded pointers), the single-CIE `.eh_frame` parser, and
  the `.eh_frame_hdr` writer.
- `src/elf.rs`, `src/bytes.rs`: ELF32 records and little-endian fields.
- `src/serdes.rs`: the decisions of the DRTIO-over-EEM serdes calibration
  (delay tap search, bitslip search, flash record).
- `app/`: the board side (transceiver registers, waits, flash store) and
  loading at the real addresses of the current target.

Memory images are byte sequences with the address of their first byte;
addresses and sizes are those of the 32-bit target.
