//! Loader support for relocatable RISC-V ELF objects, DWARF call-frame
//! parsing for synthesising `.eh_frame_hdr`, and the decision logic of the
//! DRTIO-over-EEM serdes calibration.

pub mod bytes;
pub mod dwarf;
pub mod elf;
pub mod loader;
pub mod serdes;

pub use loader::{Error, Library, SectionHeader, SectionType};
