//! ELF32 little-endian records: sections, symbols, string tables, relocations.
pub mod object;
pub mod section;
pub mod strtab;
pub mod symbol;

pub use section::{
    Relocation, RelocationRecord, Section, SHT_NOBITS, SHT_NULL, SHT_PROGBITS, SHT_REL,
    SHT_STRTAB, SHT_SYMTAB,
};
pub use strtab::StrTab;
pub use symbol::{
    Symbol, STB_GLOBAL, STB_LOCAL, STB_WEAK, STT_FUNC, STT_NOTYPE, STT_OBJECT, STT_SECTION,
};
pub use object::{Elf, ElfHeader, SymTab};
