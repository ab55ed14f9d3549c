//! Tools for two binary containers of the Avery operating system: the ARF/ARL
//! object file, built from an ELF object and read back from its bytes, and the
//! driver package.

pub mod answers;
pub mod arch;
pub mod builder;
pub mod data_image;
pub mod descriptor;
pub mod driver;
pub mod elf_image;
pub mod emit;
pub mod error;
pub mod fixes;
pub mod format;
pub mod laws;
pub mod layout;
pub mod libraries;
pub mod order;
pub mod parse;
pub mod sections;
pub mod symbols;
pub mod text;
pub mod wire;

pub use crate::arch::Architecture;
pub use crate::builder::build_arf_file;
pub use crate::builder::get_arf_file;
pub use crate::data_image::align_data;
pub use crate::data_image::extract_section_data;
pub use crate::descriptor::parse_ad_file;
pub use crate::descriptor::ArfDescriptionFile;
pub use crate::driver::get_driver_file;
pub use crate::driver::DriverFile;
pub use crate::driver::Options;
pub use crate::elf_image::ElfImage;
pub use crate::elf_image::ElfSection;
pub use crate::elf_image::ElfSymbol;
pub use crate::error::ArfError;
pub use crate::fixes::get_fixes;
pub use crate::format::ArfFile;
pub use crate::format::Fix;
pub use crate::format::Header;
pub use crate::format::Library;
pub use crate::format::Request;
pub use crate::format::Section;
pub use crate::format::Symbol;
pub use crate::libraries::extract_string_from_table;
pub use crate::libraries::get_libraries;
pub use crate::sections::get_sections_table;
pub use crate::symbols::get_symbols;
