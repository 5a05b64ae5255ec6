use vstd::prelude::*;
use super::section::{Section, SectionView};
use super::strtab::{StrTab, StrTabView};
use super::symbol::{Symbol, SymbolView, symbol_views, symbols_bytes};

verus! {

/// The ELF header fields that the section-level logic reads or writes.
#[derive(Debug, Clone, Copy, Default, PartialEq)]
pub struct ElfHeader {
    pub e_flags: u32,
    pub e_shstrndx: u16,
}

/// A symbol table section together with its symbols.
#[derive(Debug, Clone, Default, PartialEq)]
pub struct SymTab {
    pub section: Section,
    pub symbols: Vec<Symbol>,
}

/// The mathematical value of a [`SymTab`].
pub struct SymTabView {
    pub section: SectionView,
    pub symbols: Seq<SymbolView>,
}

impl View for SymTab {
    type V = SymTabView;

    open spec fn view(&self) -> SymTabView {
        SymTabView { section: self.section@, symbols: symbol_views(self.symbols@) }
    }
}

impl SymTab {
    /// Packs the symbols into the section's data, one 16-byte entry each.
    pub fn pack_data(&mut self)
        ensures
            final(self)@.symbols == old(self)@.symbols,
            final(self)@.section == (SectionView {
                data: symbols_bytes(old(self)@.symbols),
                ..old(self)@.section
            }),
    {
        let mut buf: Vec<u8> = Vec::new();
        let n = self.symbols.len();
        let mut i: usize = 0;
        while i < n
            invariant
                n == self.symbols@.len(),
                i <= n,
                buf@ == symbols_bytes(symbol_views(self.symbols@).take(i as int)),
            decreases n - i,
        {
            let mut b = self.symbols[i].pack();
            buf.append(&mut b);
            proof {
                let sv = symbol_views(self.symbols@);
                assert(sv.take(i + 1).drop_last() =~= sv.take(i as int));
            }
            i += 1;
        }
        assert(symbol_views(self.symbols@).take(n as int) =~= symbol_views(self.symbols@));
        self.section.data = buf;
    }
}

/// A relocatable ELF32 object held as its sections, with its symbol table,
/// string table and section-name string table read out, and the indices of
/// those three tables among the sections.
#[derive(Debug, Clone, Default, PartialEq)]
pub struct Elf {
    pub header: ElfHeader,
    pub sections: Vec<Section>,
    pub symtab: SymTab,
    pub strtab: StrTab,
    pub shstrtab: StrTab,
    pub symtab_idx: usize,
    pub strtab_idx: usize,
    pub shstrtab_idx: usize,
}

/// The views of a sequence of sections.
pub open spec fn section_views(s: Seq<Section>) -> Seq<SectionView> {
    s.map_values(|x: Section| x@)
}

/// The mathematical value of an [`Elf`].
pub struct ElfView {
    pub header: ElfHeader,
    pub sections: Seq<SectionView>,
    pub symtab: SymTabView,
    pub strtab: StrTabView,
    pub shstrtab: StrTabView,
    pub symtab_idx: usize,
    pub strtab_idx: usize,
    pub shstrtab_idx: usize,
}

impl View for Elf {
    type V = ElfView;

    open spec fn view(&self) -> ElfView {
        ElfView {
            header: self.header,
            sections: section_views(self.sections@),
            symtab: self.symtab@,
            strtab: self.strtab@,
            shstrtab: self.shstrtab@,
            symtab_idx: self.symtab_idx,
            strtab_idx: self.strtab_idx,
            shstrtab_idx: self.shstrtab_idx,
        }
    }
}

} // verus!
