//! Putting an assembled object's code, data, relocations and symbols into
//! the monolithic sections of a compiled object, where its stub function
//! and stub data stand.
use vstd::prelude::*;
use crate::elf::object::{Elf, ElfView, SymTabView, section_views};
use crate::elf::section::{
    Relocation, RelocationView, Section, SectionView, SHT_REL, relocation_bytes, relocation_views,
    relocations_from_bytes, with_symbol_index,
};
use vstd::bytes::spec_u32_from_le_bytes;
use crate::elf::strtab::{add_offset, added};
use crate::elf::symbol::{STT_SECTION, Symbol, SymbolView, spec_bind, spec_type_id, symbol_views};
use crate::splice::{first_global, first_global_index};
use crate::split::{
    find_section, first_from, is_non_matching, lemma_first_from, lemma_first_from_at,
    lemma_first_from_none, section_named,
};
use crate::text::{chars_contain, chars_of, contains_sub};

verus! {

/// The index of the first symbol named `name`.
pub open spec fn symbol_named(syms: Seq<SymbolView>, name: Seq<char>) -> Option<int> {
    first_from(0, syms.len() as int, |k: int| syms[k].name == name)
}

/// The object with `sym` put into its symbol table under a name offset
/// from the string table (which gets the name where it lacks it): a local
/// symbol goes in before the first non-local one, any other at the end;
/// `sh_info` then names the first non-local symbol. With the new symbol's
/// index.
pub open spec fn symbol_inserted(e: ElfView, sym: SymbolView) -> (ElfView, int) {
    let s = SymbolView { st_name: add_offset(e.strtab.section.data, sym.name) as u32, ..sym };
    let syms = e.symtab.symbols;
    let at = if spec_bind(sym.st_info) == 0 {
        first_global(syms)
    } else {
        syms.len() as int
    };
    let syms2 = syms.insert(at, s);
    (
        ElfView {
            symtab: SymTabView {
                section: SectionView { sh_info: first_global(syms2) as u32, ..e.symtab.section },
                symbols: syms2,
            },
            strtab: added(e.strtab, sym.name),
            ..e
        },
        at,
    )
}

/// `Elf::add_symbol_get_index`: without `force`, the first symbol of the
/// same name where there is one (nothing changes); else `sym` put in (see
/// `symbol_inserted`).
pub open spec fn symbol_index_added(e: ElfView, sym: SymbolView, force: bool) -> (ElfView, int) {
    match symbol_named(e.symtab.symbols, sym.name) {
        Some(i) if !force => (e, i),
        _ => symbol_inserted(e, sym),
    }
}

/// Symbol `idx`, where it is undefined and `sym` is defined, takes the
/// section, value, size and info of `sym`.
pub open spec fn upgraded(e: ElfView, idx: int, sym: SymbolView) -> ElfView {
    let old_s = e.symtab.symbols[idx];
    let new_s = if old_s.st_shndx == 0 && sym.st_shndx != 0 {
        SymbolView {
            st_shndx: sym.st_shndx,
            st_value: sym.st_value,
            st_size: sym.st_size,
            st_info: sym.st_info,
            ..old_s
        }
    } else {
        old_s
    };
    ElfView {
        symtab: SymTabView { symbols: e.symtab.symbols.update(idx, new_s), ..e.symtab },
        ..e
    }
}

proof fn lemma_first_global_bound(syms: Seq<SymbolView>)
    ensures
        0 <= first_global(syms) <= syms.len(),
{
    lemma_first_from(0, syms.len() as int, |k: int| spec_bind(syms[k].st_info) != 0);
}

impl Elf {
    /// The index of the first symbol named `name`.
    pub fn find_symbol_index(&self, name: &str) -> (r: Option<usize>)
        ensures
            r matches Some(i) ==> symbol_named(self@.symtab.symbols, name@) == Some(i as int) && i
                < self@.symtab.symbols.len(),
            r is None ==> symbol_named(self@.symtab.symbols, name@) is None,
    {
        let ghost syms = self@.symtab.symbols;
        let ghost p = |k: int| syms[k].name == name@;
        let target: String = name.to_owned();
        let n = self.symtab.symbols.len();
        let mut i: usize = 0;
        while i < n
            invariant
                target@ == name@,
                n == self.symtab.symbols@.len(),
                syms == self@.symtab.symbols,
                p == (|k: int| syms[k].name == name@),
                i <= n,
                forall|j: int| #![trigger p(j)] 0 <= j < i ==> !p(j),
            decreases n - i,
        {
            assert(syms[i as int] == self.symtab.symbols@[i as int]@);
            if self.symtab.symbols[i].name == target {
                proof {
                    lemma_first_from_at(0, i as int, n as int, p);
                }
                return Some(i);
            }
            i += 1;
        }
        proof {
            lemma_first_from_none(0, n as int, p);
        }
        None
    }

    /// The first symbol named `name`, copied.
    pub fn find_symbol(&self, name: &str) -> (r: Option<Symbol>)
        ensures
            r matches Some(s) ==> symbol_named(self@.symtab.symbols, name@) matches Some(i) && s@
                == self@.symtab.symbols[i],
            r is None ==> symbol_named(self@.symtab.symbols, name@) is None,
    {
        match self.find_symbol_index(name) {
            Some(i) => {
                assert(self@.symtab.symbols[i as int] == self.symtab.symbols@[i as int]@);
                Some(self.symtab.symbols[i].duplicate())
            },
            None => None,
        }
    }

    /// Without `force`, the index of the first symbol named like `symbol`
    /// where there is one; else `symbol` put into the table (see
    /// `symbol_inserted`) and its index.
    pub fn add_symbol_get_index(&mut self, symbol: Symbol, force: bool) -> (idx: usize)
        ensures
            (final(self)@, idx as int) == symbol_index_added(old(self)@, symbol@, force),
            idx < final(self)@.symtab.symbols.len(),
    {
        if !force {
            if let Some(i) = self.find_symbol_index(symbol.name.as_str()) {
                proof {
                    lemma_first_from(
                        0,
                        self@.symtab.symbols.len() as int,
                        |k: int| self@.symtab.symbols[k].name == symbol@.name,
                    );
                }
                return i;
            }
        }
        let ghost e = self@;
        let mut sym = symbol;
        let st_name = self.strtab.add_symbol(sym.name.as_str());
        sym.st_name = st_name;
        let at = if sym.bind() == 0 {
            first_global_index(&self.symtab.symbols)
        } else {
            self.symtab.symbols.len()
        };
        proof {
            if spec_bind(sym.st_info) == 0 {
                lemma_first_global_bound(e.symtab.symbols);
            }
        }
        let ghost sv = sym@;
        self.symtab.symbols.insert(at, sym);
        assert(symbol_views(self.symtab.symbols@) =~= e.symtab.symbols.insert(at as int, sv));
        let g = first_global_index(&self.symtab.symbols);
        self.symtab.section.sh_info = g as u32;
        proof {
            let (e2, i2) = symbol_inserted(e, symbol@);
            assert(self@.symtab.section == e2.symtab.section);
            assert(self@.symtab.symbols == e2.symtab.symbols);
            assert(self@ == e2);
        }
        at
    }

    /// Symbol `idx` upgraded from `sym` (see `upgraded`).
    pub fn upgrade_symbol(&mut self, idx: usize, sym: &Symbol)
        requires
            idx < old(self)@.symtab.symbols.len(),
        ensures
            final(self)@ == upgraded(old(self)@, idx as int, sym@),
    {
        let ghost e = self@;
        let mut s = self.symtab.symbols[idx].duplicate();
        crate::splice::upgrade_undefined(&mut s, sym);
        self.symtab.symbols.set(idx, s);
        assert(symbol_views(self.symtab.symbols@) =~= upgraded(e, idx as int, sym@).symtab.symbols);
    }
}


/// What `add_symbol_get_index` promises: the symbol at the returned index
/// has the name asked for; without `force` a name already present changes
/// nothing, and asking again for the same name gives the same index; with
/// `force` the table grows by one; a local symbol put in goes before every
/// non-local one, a non-local one after all symbols.
pub proof fn law_add_symbol_get_index(e: ElfView, sym: SymbolView, force: bool, again: SymbolView)
    requires
        again.name == sym.name,
    ensures
        ({
            let (e2, idx) = symbol_index_added(e, sym, force);
            &&& 0 <= idx < e2.symtab.symbols.len()
            &&& e2.symtab.symbols[idx].name == sym.name
            &&& (!force && symbol_named(e.symtab.symbols, sym.name) is Some) ==> e2 == e
            &&& !force ==> symbol_index_added(e2, again, false) == (e2, idx)
            &&& force ==> e2.symtab.symbols.len() == e.symtab.symbols.len() + 1
            &&& (force || symbol_named(e.symtab.symbols, sym.name) is None) ==> if spec_bind(
                sym.st_info,
            ) == 0 {
                idx == first_global(e.symtab.symbols) && forall|j: int|
                    idx < j < e2.symtab.symbols.len() ==> #[trigger] e2.symtab.symbols[j]
                        == e.symtab.symbols[j - 1]
            } else {
                idx == e.symtab.symbols.len()
            }
        }),
{
    let syms = e.symtab.symbols;
    let p = |k: int| syms[k].name == sym.name;
    lemma_first_from(0, syms.len() as int, p);
    lemma_first_global_bound(syms);
    let (e2, idx) = symbol_index_added(e, sym, force);
    let syms2 = e2.symtab.symbols;
    let p2 = |k: int| syms2[k].name == sym.name;
    lemma_first_from(0, syms2.len() as int, p2);
    if !force && symbol_named(syms, sym.name) is None {
        assert forall|j: int| #![trigger p2(j)] 0 <= j < idx implies !p2(j) by {
            assert(syms2[j] == syms[j]);
            assert(!p(j));
        }
        lemma_first_from_at(0, idx, syms2.len() as int, p2);
    }
}

/// Where the code and data of an assembled object go in the compiled
/// object, found before anything changes: its `.text` and `.rodata`
/// sections and its stub function's symbol.
pub struct SpliceTargets {
    pub text_idx: Option<usize>,
    pub rodata_idx: Option<usize>,
    pub func_sym: Option<Symbol>,
}

/// The mathematical value of [`SpliceTargets`].
pub struct SpliceTargetsView {
    pub text_idx: Option<usize>,
    pub rodata_idx: Option<usize>,
    pub func_sym: Option<SymbolView>,
}

impl View for SpliceTargets {
    type V = SpliceTargetsView;

    open spec fn view(&self) -> SpliceTargetsView {
        SpliceTargetsView {
            text_idx: self.text_idx,
            rodata_idx: self.rodata_idx,
            func_sym: match self.func_sym {
                Some(s) => Some(s@),
                None => None,
            },
        }
    }
}

/// An optional index as a `usize`.
pub open spec fn as_usize(x: Option<int>) -> Option<usize> {
    match x {
        Some(i) => Some(i as usize),
        None => None,
    }
}

/// The assembled code: the data of the first `.text` section (empty where
/// there is none).
pub open spec fn asm_text(assembled: ElfView) -> Seq<u8> {
    match section_named(assembled.sections, ".text"@) {
        Some(i) => assembled.sections[i].data,
        None => Seq::empty(),
    }
}

/// The targets in `e` of the assembled object `assembled` for function `fname`;
/// the function's symbol is looked for only where there is assembled code.
pub open spec fn targets_of(e: ElfView, fname: Seq<char>, assembled: ElfView) -> SpliceTargetsView {
    SpliceTargetsView {
        text_idx: as_usize(section_named(e.sections, ".text"@)),
        rodata_idx: as_usize(section_named(e.sections, ".rodata"@)),
        func_sym: if asm_text(assembled).len() > 0 {
            match symbol_named(e.symtab.symbols, fname) {
                Some(i) => Some(e.symtab.symbols[i]),
                None => None,
            }
        } else {
            None
        },
    }
}

/// Section `i` with the first `size` bytes of `src` written from `off` on.
pub open spec fn section_data_spliced(e: ElfView, i: int, off: int, src: Seq<u8>, size: int) -> ElfView {
    let d = e.sections[i].data;
    ElfView {
        sections: e.sections.update(
            i,
            SectionView { data: d.take(off) + src.take(size) + d.skip(off + size), ..e.sections[i] },
        ),
        ..e
    }
}

/// The assembled code written over the stub function in `.text` (from the
/// symbol's value, as many bytes as its size); `None` where the code is
/// shorter than the stub or the stub runs past the section.
pub open spec fn text_spliced(e: ElfView, t: SpliceTargetsView, code: Seq<u8>) -> Option<ElfView> {
    match (t.func_sym, t.text_idx) {
        (Some(fs), Some(ti)) => if ti < e.sections.len() && fs.st_size <= code.len() && fs.st_value
            + fs.st_size <= e.sections[ti as int].data.len() {
            Some(section_data_spliced(e, ti as int, fs.st_value as int, code, fs.st_size as int))
        } else {
            None
        },
        _ => Some(e),
    }
}

/// The index of the assembled object's first `.rodata` section (0 where
/// there is none).
pub open spec fn asm_rodata_index(assembled: ElfView) -> int {
    match section_named(assembled.sections, ".rodata"@) {
        Some(i) => i,
        None => 0,
    }
}

/// An assembled symbol that carries .rodata: in the first `.rodata`
/// section, with a size, and not marked `NON_MATCHING`.
pub open spec fn is_rodata_symbol(assembled: ElfView, s: SymbolView) -> bool {
    &&& s.st_shndx == asm_rodata_index(assembled)
    &&& s.st_size > 0
    &&& !contains_sub(s.name, "NON_MATCHING"@)
}

/// The .rodata of the first `m` assembled symbols written, in turn, over
/// the compiled symbols of the same names (each as many bytes as the
/// compiled symbol's size, taken one after the other from the assembled
/// .rodata), with the offset reached.
pub open spec fn rodata_spliced_upto(e0: ElfView, t: SpliceTargetsView, assembled: ElfView, m: int) -> Option<
    (ElfView, int),
>
    decreases m,
{
    if m <= 0 {
        Some((e0, 0))
    } else {
        match rodata_spliced_upto(e0, t, assembled, m - 1) {
            None => None,
            Some((e, off)) => {
                let a = assembled.symtab.symbols[m - 1];
                if !is_rodata_symbol(assembled, a) {
                    Some((e, off))
                } else {
                    match symbol_named(e.symtab.symbols, a.name) {
                        None => Some((e, off)),
                        Some(j) => {
                            let cs = e.symtab.symbols[j];
                            let ri = t.rodata_idx->0 as int;
                            let src = assembled.sections[asm_rodata_index(assembled)].data;
                            if off + cs.st_size <= src.len() && cs.st_value + cs.st_size
                                <= e.sections[ri].data.len() {
                                Some(
                                    (
                                        section_data_spliced(
                                            e,
                                            ri,
                                            cs.st_value as int,
                                            src.skip(off),
                                            cs.st_size as int,
                                        ),
                                        off + cs.st_size,
                                    ),
                                )
                            } else {
                                None
                            }
                        },
                    }
                }
            },
        }
    }
}

/// The assembled .rodata spliced over the compiled stubs, where both
/// objects have a `.rodata` section (see `rodata_spliced_upto`).
pub open spec fn rodata_spliced(e: ElfView, t: SpliceTargetsView, assembled: ElfView) -> Option<ElfView> {
    if section_named(assembled.sections, ".rodata"@) is Some && t.rodata_idx is Some
        && t.rodata_idx->0 < e.sections.len() {
        match rodata_spliced_upto(e, t, assembled, assembled.symtab.symbols.len() as int) {
            Some((e2, _)) => Some(e2),
            None => None,
        }
    } else {
        Some(e)
    }
}

proof fn lemma_rodata_prefix(e0: ElfView, t: SpliceTargetsView, assembled: ElfView, m: int, n: int)
    requires
        0 <= m <= n,
        rodata_spliced_upto(e0, t, assembled, m) is None,
    ensures
        rodata_spliced_upto(e0, t, assembled, n) is None,
    decreases n - m,
{
    if m < n {
        lemma_rodata_prefix(e0, t, assembled, m + 1, n);
    }
}

/// The section called `name`, found as `find_section` finds it, with its
/// index bounded.
pub(crate) fn section_index(elf: &Elf, name: &str) -> (r: Option<usize>)
    ensures
        as_usize(section_named(elf@.sections, name@)) == r,
        r matches Some(i) ==> i < elf@.sections.len() && section_named(elf@.sections, name@)
            == Some(i as int),
{
    let owned: String = name.to_owned();
    let r = find_section(elf, &owned);
    proof {
        lemma_first_from(0, elf@.sections.len() as int, |i: int| elf@.sections[i].name == name@);
    }
    r
}

/// Writes the first `size` bytes of `src` over section `i` from `off` on.
fn splice_section(elf: &mut Elf, i: usize, off: usize, src: &[u8], size: usize)
    requires
        i < old(elf)@.sections.len(),
        size <= src@.len(),
        off + size <= old(elf)@.sections[i as int].data.len(),
    ensures
        final(elf)@ == section_data_spliced(old(elf)@, i as int, off as int, src@, size as int),
{
    let ghost e = elf@;
    assert(e.sections[i as int] == elf.sections@[i as int]@);
    let mut sec = elf.sections[i].duplicate();
    crate::splice::splice_bytes(&mut sec.data, off, src, size);
    elf.sections.set(i, sec);
    assert(section_views(elf.sections@) =~= section_data_spliced(
        e,
        i as int,
        off as int,
        src@,
        size as int,
    ).sections);
}

/// Writes the assembled code over the stub function (see `text_spliced`);
/// false, with nothing changed, where that cannot be done.
fn splice_text(elf: &mut Elf, t: &SpliceTargets, code: &[u8]) -> (ok: bool)
    ensures
        ok == text_spliced(old(elf)@, t@, code@) is Some,
        ok ==> final(elf)@ == text_spliced(old(elf)@, t@, code@)->0,
{
    match (&t.func_sym, t.text_idx) {
        (Some(fs), Some(ti)) => {
            if ti >= elf.sections.len() {
                return false;
            }
            let off = fs.st_value as usize;
            let size = fs.st_size as usize;
            assert(elf@.sections[ti as int] == elf.sections@[ti as int]@);
            if size > code.len() || off > elf.sections[ti].data.len() || size > elf.sections[ti].data.len()
                - off {
                return false;
            }
            splice_section(elf, ti, off, code, size);
            true
        },
        _ => true,
    }
}

/// Writes the assembled .rodata over the compiled stubs (see
/// `rodata_spliced`); false where that cannot be done (the object may then
/// be partly written).
fn splice_rodata(elf: &mut Elf, t: &SpliceTargets, assembled: &Elf) -> (ok: bool)
    ensures
        ok == rodata_spliced(old(elf)@, t@, assembled@) is Some,
        ok ==> final(elf)@ == rodata_spliced(old(elf)@, t@, assembled@)->0,
{
    let ari = match section_index(assembled, ".rodata") {
        Some(a) => a,
        None => return true,
    };
    let ri = match t.rodata_idx {
        Some(ri) => ri,
        None => return true,
    };
    if ri >= elf.sections.len() {
        return true;
    }
    let ghost e0 = elf@;
    let src = &assembled.sections[ari].data;
    assert(assembled@.sections[ari as int] == assembled.sections@[ari as int]@);
    let n = assembled.symtab.symbols.len();
    let mut off: usize = 0;
    let mut k: usize = 0;
    while k < n
        invariant
            n == assembled@.symtab.symbols.len(),
            ari as int == asm_rodata_index(assembled@),
            ari < assembled@.sections.len(),
            src@ == assembled@.sections[ari as int].data,
            t@.rodata_idx == Some(ri),
            k <= n,
            rodata_spliced_upto(e0, t@, assembled@, k as int) == Some((elf@, off as int)),
            ri < elf@.sections.len(),
            off <= src@.len(),
            e0 == old(elf)@,
            section_named(assembled@.sections, ".rodata"@) is Some,
            ri < e0.sections.len(),
        decreases n - k,
    {
        assert(assembled@.symtab.symbols[k as int] == assembled.symtab.symbols@[k as int]@);
        let a = &assembled.symtab.symbols[k];
        if a.st_shndx as usize == ari && a.st_size > 0 && !is_non_matching(&a.name) {
            match elf.find_symbol(a.name.as_str()) {
                Some(cs) => {
                    let size = cs.st_size as usize;
                    let at = cs.st_value as usize;
                    assert(elf@.sections[ri as int] == elf.sections@[ri as int]@);
                    if size > src.len() - off || at > elf.sections[ri].data.len() || size
                        > elf.sections[ri].data.len() - at {
                        proof {
                            assert(is_rodata_symbol(assembled@, assembled@.symtab.symbols[k as int]));
                            assert(symbol_named(elf@.symtab.symbols, a.name@) is Some);
                            assert(rodata_spliced_upto(e0, t@, assembled@, k + 1) is None);
                            lemma_rodata_prefix(e0, t@, assembled@, k + 1, n as int);
                            assert(section_named(assembled@.sections, ".rodata"@) is Some);
                            assert(e0 == old(elf)@);
                            assert(rodata_spliced(e0, t@, assembled@) is None);
                        }
                        return false;
                    }
                    splice_section(elf, ri, at, &src.as_slice()[off..src.len()], size);
                    assert(src@.subrange(off as int, src@.len() as int) =~= src@.skip(off as int));
                    off = off + size;
                },
                None => {},
            }
        }
        k += 1;
    }
    true
}

/// What splicing reads throughout: the targets, the assembled object and
/// the function's name.
pub struct SpliceInput {
    pub t: SpliceTargetsView,
    pub assembled: ElfView,
    pub fname: Seq<char>,
}

/// A search among the assembled symbols: data in .rodata section `i`
/// (sized, not `NON_MATCHING`); any sized symbol of section `i`; or a named,
/// non-section label of section `i` at value `v`.
pub enum SymbolQuery {
    RodataData(usize),
    Sized(usize),
    Label(usize, u32),
}

/// Symbol `s` is what query `q` looks for.
pub open spec fn answers(q: SymbolQuery, s: SymbolView) -> bool {
    match q {
        SymbolQuery::RodataData(i) => s.st_shndx == i && s.st_size > 0 && !contains_sub(
            s.name,
            "NON_MATCHING"@,
        ),
        SymbolQuery::Sized(i) => s.st_shndx == i && s.st_size > 0,
        SymbolQuery::Label(i, v) => s.st_shndx == i && s.st_value == v && s.name.len() > 0
            && spec_type_id(s.st_info) != STT_SECTION,
    }
}

/// The first symbol that answers `q`.
pub open spec fn first_answer(syms: Seq<SymbolView>, q: SymbolQuery) -> Option<int> {
    first_from(0, syms.len() as int, |k: int| answers(q, syms[k]))
}

/// An assembled symbol moved into the compiled `.text` (where there is
/// one): its section becomes `.text` and its value is offset by the stub
/// function's (where that was found); `None` where the value overflows.
pub open spec fn moved_to_text(s: SymbolView, t: SpliceTargetsView) -> Option<SymbolView> {
    match t.text_idx {
        None => Some(s),
        Some(ti) => match t.func_sym {
            None => Some(SymbolView { st_shndx: ti as u16, ..s }),
            Some(fs) => if s.st_value + fs.st_value <= u32::MAX {
                Some(SymbolView { st_shndx: ti as u16, st_value: (s.st_value + fs.st_value) as u32, ..s })
            } else {
                None
            },
        },
    }
}

/// A relocation pointed at symbol `idx`.
pub open spec fn pointed(r: RelocationView, idx: int) -> RelocationView {
    RelocationView { r_info: with_symbol_index(r.r_info, idx as u32), ..r }
}

/// REL section `i` with the entry of `r` appended and `sh_size` set.
pub open spec fn reloc_appended(e: ElfView, i: int, r: RelocationView) -> ElfView {
    let s = e.sections[i];
    let d = s.data + relocation_bytes(r);
    ElfView {
        sections: e.sections.update(i, SectionView { data: d, sh_size: d.len() as u32, ..s }),
        ..e
    }
}

/// `sym` put in where no symbol has its name (see `symbol_index_added`),
/// upgraded (see `upgraded`), with its index.
pub open spec fn symbol_merged(e: ElfView, sym: SymbolView) -> (ElfView, int) {
    let (e2, idx) = symbol_index_added(e, sym, false);
    (upgraded(e2, idx, sym), idx)
}

/// A relocation pointed at the stub function's symbol, where there is one.
pub open spec fn to_function(e: ElfView, fname: Seq<char>, r: RelocationView) -> RelocationView {
    match symbol_named(e.symtab.symbols, fname) {
        Some(fi) => pointed(r, fi),
        None => r,
    }
}

/// A jump-table entry of .rodata that refers to the assembled code: the
/// word at its offset is the address of a label; that label is moved into
/// `.text` and merged into the symbol table, the entry points at it and
/// the word is zeroed. Where there is no such label (or no word), the
/// entry points at the function instead.
pub open spec fn label_reloc(e: ElfView, c: SpliceInput, rel_idx: int, r: RelocationView) -> Option<
    ElfView,
> {
    let fallback = Some(reloc_appended(e, rel_idx, to_function(e, c.fname, r)));
    match c.t.rodata_idx {
        None => fallback,
        Some(ri) => {
            let off = r.r_offset as int;
            if ri >= e.sections.len() {
                None
            } else if off + 4 > e.sections[ri as int].data.len() {
                fallback
            } else {
                let addend = spec_u32_from_le_bytes(e.sections[ri as int].data.subrange(off, off + 4));
                let ati = match section_named(c.assembled.sections, ".text"@) {
                    Some(i) => i as usize,
                    None => 0usize,
                };
                match first_answer(c.assembled.symtab.symbols, SymbolQuery::Label(ati, addend)) {
                    None => fallback,
                    Some(k) => match moved_to_text(c.assembled.symtab.symbols[k], c.t) {
                        None => None,
                        Some(sym) => {
                            let (e3, idx) = symbol_merged(e, sym);
                            let e4 = section_data_spliced(e3, ri as int, off, seq![0u8, 0u8, 0u8, 0u8], 4);
                            Some(reloc_appended(e4, rel_idx, pointed(r, idx)))
                        },
                    },
                }
            }
        },
    }
}

/// One relocation of the assembled object added to REL section `rel_idx`
/// of the compiled one, its offset moved by `base`. One that refers to a
/// section symbol points at the function (code), at a label (jump-table
/// entries, see `label_reloc`) or at the compiled symbol of the first
/// sized .rodata symbol (data). One that refers to a local code label
/// points at the function. Any other has its symbol moved into the
/// compiled sections and merged into the symbol table (see
/// `symbol_merged`), and points at it. `None` where the offset overflows
/// or an index is out of range.
pub open spec fn reloc_applied(
    e: ElfView,
    c: SpliceInput,
    is_text: bool,
    base: u32,
    rel_idx: int,
    r: RelocationView,
) -> Option<ElfView> {
    let syms = c.assembled.symtab.symbols;
    let si = (r.r_info >> 8u32) as int;
    if r.r_offset + base > u32::MAX || si >= syms.len() {
        None
    } else {
        let nr = RelocationView { r_offset: (r.r_offset + base) as u32, ..r };
        let a = syms[si];
        if a.st_shndx >= c.assembled.sections.len() && (spec_type_id(a.st_info) == STT_SECTION
            || a.st_shndx != 0) {
            None
        } else {
            let sec_name = c.assembled.sections[a.st_shndx as int].name;
            if spec_type_id(a.st_info) == STT_SECTION {
                if contains_sub(sec_name, "text"@) {
                    if !is_text {
                        label_reloc(e, c, rel_idx, nr)
                    } else {
                        Some(reloc_appended(e, rel_idx, to_function(e, c.fname, nr)))
                    }
                } else if contains_sub(sec_name, "rodata"@) {
                    let ari = asm_rodata_index(c.assembled) as usize;
                    let nr2 = match first_answer(syms, SymbolQuery::Sized(ari)) {
                        Some(k) => match symbol_named(e.symtab.symbols, syms[k].name) {
                            Some(j) => pointed(nr, j),
                            None => nr,
                        },
                        None => nr,
                    };
                    Some(reloc_appended(e, rel_idx, nr2))
                } else {
                    Some(reloc_appended(e, rel_idx, nr))
                }
            } else if spec_bind(a.st_info) == 0 && a.st_shndx != 0 && contains_sub(sec_name, "text"@)
                && symbol_named(e.symtab.symbols, c.fname) is Some {
                Some(reloc_appended(e, rel_idx, to_function(e, c.fname, nr)))
            } else {
                let moved = if a.st_shndx == 0 {
                    Some(a)
                } else if contains_sub(sec_name, "text"@) {
                    moved_to_text(a, c.t)
                } else if contains_sub(sec_name, "rodata"@) {
                    match c.t.rodata_idx {
                        Some(ri) => Some(SymbolView { st_shndx: ri as u16, ..a }),
                        None => Some(a),
                    }
                } else {
                    Some(a)
                };
                match moved {
                    None => None,
                    Some(sym) => {
                        let (e3, idx) = symbol_merged(e, sym);
                        Some(reloc_appended(e3, rel_idx, pointed(nr, idx)))
                    },
                }
            }
        }
    }
}

/// The first `m` relocations `rs` applied in turn (see `reloc_applied`).
pub open spec fn relocs_applied_upto(
    e0: ElfView,
    c: SpliceInput,
    is_text: bool,
    base: u32,
    rel_idx: int,
    rs: Seq<RelocationView>,
    m: int,
) -> Option<ElfView>
    decreases m,
{
    if m <= 0 {
        Some(e0)
    } else {
        match relocs_applied_upto(e0, c, is_text, base, rel_idx, rs, m - 1) {
            None => None,
            Some(e) => reloc_applied(e, c, is_text, base, rel_idx, rs[m - 1]),
        }
    }
}

/// A new, empty REL section called `rel_name` for section `target`, its
/// name added to the section-name table.
pub open spec fn rel_section_added(e: ElfView, rel_name: Seq<char>, target: usize) -> ElfView {
    ElfView {
        shstrtab: added(e.shstrtab, rel_name),
        sections: e.sections.push(
            SectionView {
                sh_name: add_offset(e.shstrtab.section.data, rel_name) as u32,
                sh_type: SHT_REL,
                sh_flags: 0,
                sh_addr: 0,
                sh_offset: 0,
                sh_size: 0,
                sh_link: e.symtab_idx as u32,
                sh_info: target as u32,
                sh_addralign: 4,
                sh_entsize: 8,
                data: Seq::empty(),
                name: rel_name,
            },
        ),
        ..e
    }
}

/// Where the relocations of a REL section start: the stub function's value
/// for code, else the compiled value of the first .rodata data symbol.
pub open spec fn reloc_base(e: ElfView, c: SpliceInput, is_text: bool) -> u32 {
    if is_text {
        match c.t.func_sym {
            Some(fs) => fs.st_value,
            None => 0,
        }
    } else {
        let syms = c.assembled.symtab.symbols;
        match first_answer(syms, SymbolQuery::RodataData(asm_rodata_index(c.assembled) as usize)) {
            Some(k) => match symbol_named(e.symtab.symbols, syms[k].name) {
                Some(i) => e.symtab.symbols[i].st_value,
                None => 0,
            },
            None => 0,
        }
    }
}

/// The relocations of assembled section `k`, where it is a REL section for
/// code (`.text` in its name) or data (`.rodata`), appended to the
/// compiled `.rel.text` or `.rel.rodata` (made where it is missing and its
/// target exists; nothing happens where the target is missing too).
pub open spec fn rel_section_applied(e: ElfView, c: SpliceInput, k: int) -> Option<ElfView> {
    let s = c.assembled.sections[k];
    let is_text = contains_sub(s.name, ".text"@);
    if s.sh_type != SHT_REL || (!is_text && !contains_sub(s.name, ".rodata"@)) {
        Some(e)
    } else if s.data.len() % 8 != 0 {
        None
    } else {
        let base = reloc_base(e, c, is_text);
        let rs = relocations_from_bytes(s.data);
        let rel_name = if is_text {
            ".rel.text"@
        } else {
            ".rel.rodata"@
        };
        let target = if is_text {
            c.t.text_idx
        } else {
            c.t.rodata_idx
        };
        match section_named(e.sections, rel_name) {
            Some(i) => relocs_applied_upto(e, c, is_text, base, i, rs, rs.len() as int),
            None => match target {
                None => Some(e),
                Some(ti) => relocs_applied_upto(
                    rel_section_added(e, rel_name, ti),
                    c,
                    is_text,
                    base,
                    e.sections.len() as int,
                    rs,
                    rs.len() as int,
                ),
            },
        }
    }
}

/// The first `m` assembled sections' relocations applied in turn.
pub open spec fn rel_sections_upto(e0: ElfView, c: SpliceInput, m: int) -> Option<ElfView>
    decreases m,
{
    if m <= 0 {
        Some(e0)
    } else {
        match rel_sections_upto(e0, c, m - 1) {
            None => None,
            Some(e) => rel_section_applied(e, c, m - 1),
        }
    }
}

/// Assembled symbol `k`, where it is a named, defined code symbol, moved
/// into `.text` and merged into the symbol table.
pub open spec fn text_symbol_added(e: ElfView, c: SpliceInput, k: int) -> Option<ElfView> {
    let a = c.assembled.symtab.symbols[k];
    if a.st_name == 0 || a.st_shndx == 0 || a.st_shndx >= 0xff00 {
        Some(e)
    } else if a.st_shndx >= c.assembled.sections.len() {
        None
    } else if contains_sub(c.assembled.sections[a.st_shndx as int].name, "text"@) {
        match moved_to_text(a, c.t) {
            None => None,
            Some(sym) => Some(symbol_merged(e, sym).0),
        }
    } else {
        Some(e)
    }
}

/// The first `m` assembled symbols added in turn (see `text_symbol_added`).
pub open spec fn text_symbols_upto(e0: ElfView, c: SpliceInput, m: int) -> Option<ElfView>
    decreases m,
{
    if m <= 0 {
        Some(e0)
    } else {
        match text_symbols_upto(e0, c, m - 1) {
            None => None,
            Some(e) => text_symbol_added(e, c, m - 1),
        }
    }
}

/// The compiled object `e` after the assembled object of function `fname`
/// is spliced into its monolithic sections: its code over the stub
/// function, its .rodata over the stub data, its relocations appended to
/// `.rel.text` and `.rel.rodata`, and its code symbols added. `None` where
/// a check fails (code shorter than its stub, a stub past its section) or
/// an index or offset is out of range.
pub open spec fn splice_outcome(e: ElfView, fname: Seq<char>, assembled: ElfView) -> Option<ElfView> {
    let t = targets_of(e, fname, assembled);
    let c = SpliceInput { t, assembled, fname };
    match text_spliced(e, t, asm_text(assembled)) {
        None => None,
        Some(e1) => match rodata_spliced(e1, t, assembled) {
            None => None,
            Some(e2) => match rel_sections_upto(e2, c, assembled.sections.len() as int) {
                None => None,
                Some(e3) => text_symbols_upto(e3, c, assembled.symtab.symbols.len() as int),
            },
        },
    }
}

/// The assembled object can be spliced (see `splice_outcome`).
pub open spec fn splice_ready(e: ElfView, fname: Seq<char>, assembled: ElfView) -> bool {
    splice_outcome(e, fname, assembled) is Some
}

/// The spliced object (see `splice_outcome`).
pub open spec fn spliced_object(e: ElfView, fname: Seq<char>, assembled: ElfView) -> ElfView {
    splice_outcome(e, fname, assembled)->0
}

/// Whether `name` holds `pat`.
fn name_contains(name: &String, pat: &str) -> (r: bool)
    ensures
        r == contains_sub(name@, pat@),
{
    let c = chars_of(name.as_str());
    let p = chars_of(pat);
    chars_contain(c.as_slice(), p.as_slice())
}

/// Whether symbol `s` answers `q`.
fn answers_query(q: &SymbolQuery, s: &Symbol) -> (r: bool)
    ensures
        r == answers(*q, s@),
{
    match q {
        SymbolQuery::RodataData(i) => s.st_shndx as usize == *i && s.st_size > 0
            && !is_non_matching(&s.name),
        SymbolQuery::Sized(i) => s.st_shndx as usize == *i && s.st_size > 0,
        SymbolQuery::Label(i, v) => s.st_shndx as usize == *i && s.st_value == *v && chars_of(
            s.name.as_str(),
        ).len() > 0 && s.type_id() != STT_SECTION,
    }
}

/// The first symbol that answers `q` (see `first_answer`).
fn find_first(syms: &Vec<Symbol>, q: &SymbolQuery) -> (r: Option<usize>)
    ensures
        r matches Some(k) ==> k < syms@.len() && first_answer(symbol_views(syms@), *q) == Some(
            k as int,
        ),
        r is None ==> first_answer(symbol_views(syms@), *q) is None,
{
    let ghost sv = symbol_views(syms@);
    let ghost p = |k: int| answers(*q, sv[k]);
    let n = syms.len();
    let mut i: usize = 0;
    while i < n
        invariant
            n == syms@.len(),
            sv == symbol_views(syms@),
            p == (|k: int| answers(*q, sv[k])),
            i <= n,
            forall|j: int| #![trigger p(j)] 0 <= j < i ==> !p(j),
        decreases n - i,
    {
        assert(sv[i as int] == syms@[i as int]@);
        if answers_query(q, &syms[i]) {
            proof {
                lemma_first_from_at(0, i as int, n as int, p);
            }
            return Some(i);
        }
        i += 1;
    }
    proof {
        lemma_first_from_none(0, n as int, p);
    }
    None
}

/// Symbol `s` moved into `.text` (see `moved_to_text`).
fn moved_text_symbol(s: &Symbol, t: &SpliceTargets) -> (r: Option<Symbol>)
    ensures
        match moved_to_text(s@, t@) {
            Some(m) => r matches Some(x) && x@ == m,
            None => r is None,
        },
{
    let mut m = s.duplicate();
    match t.text_idx {
        None => Some(m),
        Some(ti) => {
            m.st_shndx = ti as u16;
            match &t.func_sym {
                None => Some(m),
                Some(fs) => if s.st_value as u64 + fs.st_value as u64 <= u32::MAX as u64 {
                    m.st_value = s.st_value + fs.st_value;
                    Some(m)
                } else {
                    None
                },
            }
        },
    }
}

/// `r` pointed at symbol `idx`.
fn point(r: &Relocation, idx: usize) -> (p: Relocation)
    ensures
        p@ == pointed(r@, idx as int),
{
    let mut p = r.duplicate();
    p.set_symbol_index(idx as u32);
    p
}

/// Appends the entry of `r` to REL section `i` (see `reloc_appended`).
fn append_reloc(elf: &mut Elf, i: usize, r: &Relocation)
    requires
        i < old(elf)@.sections.len(),
    ensures
        final(elf)@ == reloc_appended(old(elf)@, i as int, r@),
{
    let ghost e = elf@;
    assert(e.sections[i as int] == elf.sections@[i as int]@);
    let mut sec = elf.sections[i].duplicate();
    crate::splice::append_relocation(&mut sec, r);
    elf.sections.set(i, sec);
    assert(section_views(elf.sections@) =~= reloc_appended(e, i as int, r@).sections);
}

/// Merges `sym` into the symbol table (see `symbol_merged`).
fn merge_symbol(elf: &mut Elf, sym: Symbol) -> (idx: usize)
    ensures
        (final(elf)@, idx as int) == symbol_merged(old(elf)@, sym@),
        final(elf)@.sections == old(elf)@.sections,
{
    let sv = sym.duplicate();
    let idx = elf.add_symbol_get_index(sym, false);
    elf.upgrade_symbol(idx, &sv);
    idx
}

/// `r` pointed at the stub function (see `to_function`).
fn to_function_reloc(elf: &Elf, fname: &str, r: &Relocation) -> (p: Relocation)
    ensures
        p@ == to_function(elf@, fname@, r@),
{
    match elf.find_symbol_index(fname) {
        Some(fi) => point(r, fi),
        None => r.duplicate(),
    }
}

/// The index of the assembled object's first `.rodata` section, or 0.
fn rodata_index_of(assembled: &Elf) -> (r: usize)
    ensures
        r as int == asm_rodata_index(assembled@),
{
    match section_index(assembled, ".rodata") {
        Some(i) => i,
        None => 0,
    }
}

/// A jump-table relocation (see `label_reloc`).
fn apply_label_reloc(
    elf: &mut Elf,
    t: &SpliceTargets,
    assembled: &Elf,
    fname: &str,
    rel_idx: usize,
    r: &Relocation,
    Ghost(c): Ghost<SpliceInput>,
)
    -> (ok: bool)
    requires
        c == (SpliceInput { t: t@, assembled: assembled@, fname: fname@ }),
        rel_idx < old(elf)@.sections.len(),
    ensures
        ok == label_reloc(old(elf)@, c, rel_idx as int, r@) is Some,
        ok ==> final(elf)@ == label_reloc(old(elf)@, c, rel_idx as int, r@)->0,
        final(elf)@.sections.len() == old(elf)@.sections.len(),
{
    let ghost e = elf@;
    let ri = match t.rodata_idx {
        None => {
            let f = to_function_reloc(elf, fname, r);
            append_reloc(elf, rel_idx, &f);
            return true;
        },
        Some(ri) => ri,
    };
    if ri >= elf.sections.len() {
        return false;
    }
    let off = r.r_offset as usize;
    assert(e.sections[ri as int] == elf.sections@[ri as int]@);
    let word = crate::splice::read_word(elf.sections[ri].data.as_slice(), off);
    let addend = match word {
        None => {
            let f = to_function_reloc(elf, fname, r);
            append_reloc(elf, rel_idx, &f);
            return true;
        },
        Some(w) => w,
    };
    let ati = match section_index(assembled, ".text") {
        Some(i) => i,
        None => 0,
    };
    let k = match find_first(&assembled.symtab.symbols, &SymbolQuery::Label(ati, addend)) {
        None => {
            let f = to_function_reloc(elf, fname, r);
            append_reloc(elf, rel_idx, &f);
            return true;
        },
        Some(k) => k,
    };
    assert(assembled@.symtab.symbols[k as int] == assembled.symtab.symbols@[k as int]@);
    let sym = match moved_text_symbol(&assembled.symtab.symbols[k], t) {
        None => {
            return false;
        },
        Some(s) => s,
    };
    let idx = merge_symbol(elf, sym);
    let zero: Vec<u8> = vec![0u8, 0u8, 0u8, 0u8];
    assert(zero@ == seq![0u8, 0u8, 0u8, 0u8]);
    splice_section(elf, ri, off, zero.as_slice(), 4);
    let p = point(r, idx);
    append_reloc(elf, rel_idx, &p);
    true
}

/// One relocation of the assembled object (see `reloc_applied`).
fn apply_reloc(
    elf: &mut Elf,
    t: &SpliceTargets,
    assembled: &Elf,
    fname: &str,
    is_text: bool,
    base: u32,
    rel_idx: usize,
    r: &Relocation,
    Ghost(c): Ghost<SpliceInput>,
) -> (ok: bool)
    requires
        c == (SpliceInput { t: t@, assembled: assembled@, fname: fname@ }),
        rel_idx < old(elf)@.sections.len(),
    ensures
        ok == reloc_applied(old(elf)@, c, is_text, base, rel_idx as int, r@) is Some,
        ok ==> final(elf)@ == reloc_applied(old(elf)@, c, is_text, base, rel_idx as int, r@)->0,
        final(elf)@.sections.len() == old(elf)@.sections.len(),
{
    let ghost e = elf@;
    let syms = &assembled.symtab.symbols;
    let si = r.symbol_index();
    if r.r_offset as u64 + base as u64 > u32::MAX as u64 || si >= syms.len() {
        return false;
    }
    let mut nr = r.duplicate();
    nr.r_offset = r.r_offset + base;
    assert(assembled@.symtab.symbols[si as int] == syms@[si as int]@);
    let a = &syms[si];
    if (a.st_shndx as usize) >= assembled.sections.len() && (a.type_id() == STT_SECTION || a.st_shndx
        != 0) {
        return false;
    }
    if a.type_id() == STT_SECTION {
        let sidx = a.st_shndx as usize;
        assert(assembled@.sections[sidx as int] == assembled.sections@[sidx as int]@);
        let sec_name = &assembled.sections[sidx].name;
        if name_contains(sec_name, "text") {
            if !is_text {
                return apply_label_reloc(elf, t, assembled, fname, rel_idx, &nr, Ghost(c));
            } else {
                let f = to_function_reloc(elf, fname, &nr);
                append_reloc(elf, rel_idx, &f);
            }
        } else if name_contains(sec_name, "rodata") {
            let ari = rodata_index_of(assembled);
            let nr2 = match find_first(syms, &SymbolQuery::Sized(ari)) {
                Some(k) => {
                    assert(assembled@.symtab.symbols[k as int] == syms@[k as int]@);
                    match elf.find_symbol_index(syms[k].name.as_str()) {
                        Some(j) => point(&nr, j),
                        None => nr.duplicate(),
                    }
                },
                None => nr.duplicate(),
            };
            append_reloc(elf, rel_idx, &nr2);
        } else {
            append_reloc(elf, rel_idx, &nr);
        }
    } else {
        let sidx = a.st_shndx as usize;
        if a.bind() == 0 && sidx != 0 {
            assert(assembled@.sections[sidx as int] == assembled.sections@[sidx as int]@);
            if name_contains(&assembled.sections[sidx].name, "text") {
                if let Some(fi) = elf.find_symbol_index(fname) {
                    let p = point(&nr, fi);
                    append_reloc(elf, rel_idx, &p);
                    return true;
                }
            }
        }
        let moved = if sidx == 0 {
            Some(a.duplicate())
        } else {
            assert(assembled@.sections[sidx as int] == assembled.sections@[sidx as int]@);
            let nm = &assembled.sections[sidx].name;
            if name_contains(nm, "text") {
                moved_text_symbol(a, t)
            } else if name_contains(nm, "rodata") {
                match t.rodata_idx {
                    Some(ri) => {
                        let mut m = a.duplicate();
                        m.st_shndx = ri as u16;
                        Some(m)
                    },
                    None => Some(a.duplicate()),
                }
            } else {
                Some(a.duplicate())
            }
        };
        let sym = match moved {
            Some(s) => s,
            None => {
                return false;
            },
        };
        let idx = merge_symbol(elf, sym);
        let p = point(&nr, idx);
        append_reloc(elf, rel_idx, &p);
    }
    true
}

proof fn lemma_relocs_prefix(
    e0: ElfView,
    c: SpliceInput,
    is_text: bool,
    base: u32,
    rel_idx: int,
    rs: Seq<RelocationView>,
    m: int,
    n: int,
)
    requires
        0 <= m <= n,
        relocs_applied_upto(e0, c, is_text, base, rel_idx, rs, m) is None,
    ensures
        relocs_applied_upto(e0, c, is_text, base, rel_idx, rs, n) is None,
    decreases n - m,
{
    if m < n {
        lemma_relocs_prefix(e0, c, is_text, base, rel_idx, rs, m + 1, n);
    }
}

proof fn lemma_rel_sections_prefix(e0: ElfView, c: SpliceInput, m: int, n: int)
    requires
        0 <= m <= n,
        rel_sections_upto(e0, c, m) is None,
    ensures
        rel_sections_upto(e0, c, n) is None,
    decreases n - m,
{
    if m < n {
        lemma_rel_sections_prefix(e0, c, m + 1, n);
    }
}

proof fn lemma_text_symbols_prefix(e0: ElfView, c: SpliceInput, m: int, n: int)
    requires
        0 <= m <= n,
        text_symbols_upto(e0, c, m) is None,
    ensures
        text_symbols_upto(e0, c, n) is None,
    decreases n - m,
{
    if m < n {
        lemma_text_symbols_prefix(e0, c, m + 1, n);
    }
}

/// Where the relocations of a REL section start (see `reloc_base`).
fn reloc_base_of(elf: &Elf, t: &SpliceTargets, assembled: &Elf, is_text: bool, Ghost(c): Ghost<SpliceInput>) -> (b: u32)
    requires
        c == (SpliceInput { t: t@, assembled: assembled@, fname: c.fname }),
    ensures
        b == reloc_base(elf@, c, is_text),
{
    if is_text {
        match &t.func_sym {
            Some(fs) => fs.st_value,
            None => 0,
        }
    } else {
        let ari = rodata_index_of(assembled);
        match find_first(&assembled.symtab.symbols, &SymbolQuery::RodataData(ari)) {
            Some(k) => {
                assert(assembled@.symtab.symbols[k as int] == assembled.symtab.symbols@[k as int]@);
                match elf.find_symbol_index(assembled.symtab.symbols[k].name.as_str()) {
                    Some(i) => {
                        assert(elf@.symtab.symbols[i as int] == elf.symtab.symbols@[i as int]@);
                        elf.symtab.symbols[i].st_value
                    },
                    None => 0,
                }
            },
            None => 0,
        }
    }
}

/// Adds an empty REL section called `rel_name` for section `target` (see
/// `rel_section_added`).
fn add_rel_section(elf: &mut Elf, rel_name: &str, target: usize)
    ensures
        final(elf)@ == rel_section_added(old(elf)@, rel_name@, target),
{
    let ghost e = elf@;
    let sh_name = elf.shstrtab.add_symbol(rel_name);
    let mut sec = Section::new(
        sh_name,
        SHT_REL,
        0,
        0,
        0,
        0,
        elf.symtab_idx as u32,
        target as u32,
        4,
        8,
        Vec::new(),
    );
    sec.name = rel_name.to_owned();
    elf.sections.push(sec);
    assert(section_views(elf.sections@) =~= rel_section_added(e, rel_name@, target).sections);
}

/// The relocations of assembled section `k` (see `rel_section_applied`).
fn apply_rel_section(
    elf: &mut Elf,
    t: &SpliceTargets,
    assembled: &Elf,
    fname: &str,
    k: usize,
    Ghost(c): Ghost<SpliceInput>,
) -> (ok: bool)
    requires
        c == (SpliceInput { t: t@, assembled: assembled@, fname: fname@ }),
        k < assembled@.sections.len(),
    ensures
        ok == rel_section_applied(old(elf)@, c, k as int) is Some,
        ok ==> final(elf)@ == rel_section_applied(old(elf)@, c, k as int)->0,
{
    let ghost e = elf@;
    assert(assembled@.sections[k as int] == assembled.sections@[k as int]@);
    let s = &assembled.sections[k];
    if s.sh_type != SHT_REL {
        return true;
    }
    let is_text = name_contains(&s.name, ".text");
    if !is_text && !name_contains(&s.name, ".rodata") {
        return true;
    }
    if s.data.len() % 8 != 0 {
        return false;
    }
    let base = reloc_base_of(elf, t, assembled, is_text, Ghost(c));
    let rs = Relocation::unpack_all(s.data.as_slice());
    let ghost rv = relocation_views(rs@);
    let rel_name: &str = if is_text {
        ".rel.text"
    } else {
        ".rel.rodata"
    };
    let rel_idx = match section_index(elf, rel_name) {
        Some(i) => i,
        None => {
            let target = if is_text {
                t.text_idx
            } else {
                t.rodata_idx
            };
            match target {
                None => {
                    return true;
                },
                Some(ti) => {
                    let at = elf.sections.len();
                    add_rel_section(elf, rel_name, ti);
                    at
                },
            }
        },
    };
    let ghost e1 = elf@;
    proof {
        let rn = if is_text {
            ".rel.text"@
        } else {
            ".rel.rodata"@
        };
        assert(rel_name@ == rn);
        assert(rv == relocations_from_bytes(c.assembled.sections[k as int].data));
        assert(rel_section_applied(e, c, k as int) == relocs_applied_upto(
            e1,
            c,
            is_text,
            base,
            rel_idx as int,
            rv,
            rv.len() as int,
        ));
    }
    let n = rs.len();
    let mut i: usize = 0;
    while i < n
        invariant
            c == (SpliceInput { t: t@, assembled: assembled@, fname: fname@ }),
            n == rs@.len(),
            rv == relocation_views(rs@),
            rel_idx < elf@.sections.len(),
            i <= n,
            rel_section_applied(e, c, k as int) == relocs_applied_upto(
                e1,
                c,
                is_text,
                base,
                rel_idx as int,
                rv,
                n as int,
            ),
            relocs_applied_upto(e1, c, is_text, base, rel_idx as int, rv, i as int) == Some(elf@),
            e == old(elf)@,
        decreases n - i,
    {
        assert(rv[i as int] == rs@[i as int]@);
        if !apply_reloc(elf, t, assembled, fname, is_text, base, rel_idx, &rs[i], Ghost(c)) {
            proof {
                lemma_relocs_prefix(e1, c, is_text, base, rel_idx as int, rv, i + 1, n as int);
            }
            return false;
        }
        i += 1;
    }
    true
}

/// Assembled symbol `k` added where it is a code symbol (see
/// `text_symbol_added`).
fn add_text_symbol(elf: &mut Elf, t: &SpliceTargets, assembled: &Elf, k: usize, Ghost(c): Ghost<SpliceInput>) -> (ok: bool)
    requires
        c == (SpliceInput { t: t@, assembled: assembled@, fname: c.fname }),
        k < assembled@.symtab.symbols.len(),
    ensures
        ok == text_symbol_added(old(elf)@, c, k as int) is Some,
        ok ==> final(elf)@ == text_symbol_added(old(elf)@, c, k as int)->0,
{
    assert(assembled@.symtab.symbols[k as int] == assembled.symtab.symbols@[k as int]@);
    let a = &assembled.symtab.symbols[k];
    if a.st_name == 0 || a.st_shndx == 0 || a.st_shndx >= 0xff00 {
        return true;
    }
    let sidx = a.st_shndx as usize;
    if sidx >= assembled.sections.len() {
        return false;
    }
    assert(assembled@.sections[sidx as int] == assembled.sections@[sidx as int]@);
    if name_contains(&assembled.sections[sidx].name, "text") {
        match moved_text_symbol(a, t) {
            Some(sym) => {
                merge_symbol(elf, sym);
            },
            None => {
                return false;
            },
        }
    }
    true
}

/// Splices the assembled object of function `function_name` into the
/// monolithic sections of `elf` (see `splice_outcome`), and says whether
/// that could be done; where it could not, the object may be left partly
/// spliced.
pub fn try_splice_asm_into_monolithic(elf: &mut Elf, function_name: &str, assembled: &Elf) -> (ok: bool)
    ensures
        ok == splice_ready(old(elf)@, function_name@, assembled@),
        ok ==> final(elf)@ == spliced_object(old(elf)@, function_name@, assembled@),
{
    let ghost e0 = elf@;
    let text_idx = section_index(elf, ".text");
    let rodata_idx = section_index(elf, ".rodata");
    let empty: Vec<u8> = Vec::new();
    let code: &[u8] = match section_index(assembled, ".text") {
        Some(i) => {
            assert(assembled@.sections[i as int] == assembled.sections@[i as int]@);
            assembled.sections[i].data.as_slice()
        },
        None => empty.as_slice(),
    };
    assert(code@ == asm_text(assembled@));
    let func_sym = if code.len() > 0 {
        elf.find_symbol(function_name)
    } else {
        None
    };
    let t = SpliceTargets { text_idx, rodata_idx, func_sym };
    assert(t@ == targets_of(e0, function_name@, assembled@));
    let ghost c = SpliceInput { t: t@, assembled: assembled@, fname: function_name@ };
    if !splice_text(elf, &t, code) {
        return false;
    }
    if !splice_rodata(elf, &t, assembled) {
        return false;
    }
    let ghost e2 = elf@;
    let n = assembled.sections.len();
    let mut k: usize = 0;
    while k < n
        invariant
            c == (SpliceInput { t: t@, assembled: assembled@, fname: function_name@ }),
            n == assembled@.sections.len(),
            k <= n,
            splice_outcome(e0, function_name@, assembled@) == (match rel_sections_upto(
                e2,
                c,
                n as int,
            ) {
                None => None,
                Some(e3) => text_symbols_upto(e3, c, assembled@.symtab.symbols.len() as int),
            }),
            rel_sections_upto(e2, c, k as int) == Some(elf@),
            e0 == old(elf)@,
        decreases n - k,
    {
        if !apply_rel_section(elf, &t, assembled, function_name, k, Ghost(c)) {
            proof {
                lemma_rel_sections_prefix(e2, c, k + 1, n as int);
            }
            return false;
        }
        k += 1;
    }
    let ghost e3 = elf@;
    let m = assembled.symtab.symbols.len();
    let mut j: usize = 0;
    while j < m
        invariant
            c == (SpliceInput { t: t@, assembled: assembled@, fname: function_name@ }),
            m == assembled@.symtab.symbols.len(),
            j <= m,
            splice_outcome(e0, function_name@, assembled@) == text_symbols_upto(e3, c, m as int),
            text_symbols_upto(e3, c, j as int) == Some(elf@),
            e0 == old(elf)@,
        decreases m - j,
    {
        if !add_text_symbol(elf, &t, assembled, j, Ghost(c)) {
            proof {
                lemma_text_symbols_prefix(e3, c, j + 1, m as int);
            }
            return false;
        }
        j += 1;
    }
    true
}

/// Splices the assembled object of function `function_name` into the
/// monolithic sections of `elf` (see `splice_outcome`): its code replaces
/// the stub function's bytes in `.text`, its .rodata the stub data of the
/// same names, its code and data relocations are appended (pointed at
/// compiled symbols, jump-table entries at their labels), and its code
/// symbols join the symbol table.
pub fn splice_asm_into_monolithic(elf: &mut Elf, function_name: &str, assembled: &Elf)
    requires
        splice_ready(old(elf)@, function_name@, assembled@),
    ensures
        final(elf)@ == spliced_object(old(elf)@, function_name@, assembled@),
{
    try_splice_asm_into_monolithic(elf, function_name, assembled);
}

/// Sections `ti` (the `.text` section) and the `.rodata` target stand as
/// they did and keep their names.
pub open spec fn text_kept(e0: ElfView, e: ElfView, c: SpliceInput, ti: int) -> bool {
    &&& 0 <= ti < e0.sections.len() <= e.sections.len()
    &&& e.sections[ti] == e0.sections[ti]
    &&& e0.sections[ti].name == ".text"@
    &&& (c.t.rodata_idx matches Some(ri) ==> ri < e.sections.len() && e.sections[ri as int].name
        == ".rodata"@)
}

proof fn lemma_names_differ()
    ensures
        ".text"@ != ".rodata"@,
        ".text"@ != ".rel.text"@,
        ".text"@ != ".rel.rodata"@,
{
    reveal_strlit(".text");
    reveal_strlit(".rodata");
    reveal_strlit(".rel.text");
    reveal_strlit(".rel.rodata");
    assert(".text"@.len() != ".rodata"@.len());
    assert(".text"@.len() != ".rel.text"@.len());
    assert(".text"@.len() != ".rel.rodata"@.len());
}

proof fn lemma_reloc_keeps_text(
    e0: ElfView,
    e: ElfView,
    c: SpliceInput,
    is_text: bool,
    base: u32,
    rel_idx: int,
    r: RelocationView,
    ti: int,
)
    requires
        text_kept(e0, e, c, ti),
        0 <= rel_idx < e.sections.len(),
        e.sections[rel_idx].name != ".text"@,
        reloc_applied(e, c, is_text, base, rel_idx, r) is Some,
    ensures
        text_kept(e0, reloc_applied(e, c, is_text, base, rel_idx, r)->0, c, ti),
        reloc_applied(e, c, is_text, base, rel_idx, r)->0.sections[rel_idx].name
            == e.sections[rel_idx].name,
        reloc_applied(e, c, is_text, base, rel_idx, r)->0.sections.len() == e.sections.len(),
{
    lemma_names_differ();
}

proof fn lemma_relocs_keep_text(
    e0: ElfView,
    e1: ElfView,
    c: SpliceInput,
    is_text: bool,
    base: u32,
    rel_idx: int,
    rs: Seq<RelocationView>,
    m: int,
    ti: int,
)
    requires
        text_kept(e0, e1, c, ti),
        0 <= rel_idx < e1.sections.len(),
        e1.sections[rel_idx].name != ".text"@,
        relocs_applied_upto(e1, c, is_text, base, rel_idx, rs, m) is Some,
    ensures
        text_kept(e0, relocs_applied_upto(e1, c, is_text, base, rel_idx, rs, m)->0, c, ti),
        relocs_applied_upto(e1, c, is_text, base, rel_idx, rs, m)->0.sections[rel_idx].name
            == e1.sections[rel_idx].name,
        relocs_applied_upto(e1, c, is_text, base, rel_idx, rs, m)->0.sections.len()
            == e1.sections.len(),
    decreases m,
{
    if m > 0 {
        lemma_relocs_keep_text(e0, e1, c, is_text, base, rel_idx, rs, m - 1, ti);
        let e = relocs_applied_upto(e1, c, is_text, base, rel_idx, rs, m - 1)->0;
        lemma_reloc_keeps_text(e0, e, c, is_text, base, rel_idx, rs[m - 1], ti);
    }
}

proof fn lemma_rel_sections_keep_text(e0: ElfView, e2: ElfView, c: SpliceInput, m: int, ti: int)
    requires
        text_kept(e0, e2, c, ti),
        rel_sections_upto(e2, c, m) is Some,
    ensures
        text_kept(e0, rel_sections_upto(e2, c, m)->0, c, ti),
    decreases m,
{
    if m > 0 {
        lemma_rel_sections_keep_text(e0, e2, c, m - 1, ti);
        let e = rel_sections_upto(e2, c, m - 1)->0;
        let k = m - 1;
        let s = c.assembled.sections[k];
        let is_text = contains_sub(s.name, ".text"@);
        if s.sh_type == SHT_REL && (is_text || contains_sub(s.name, ".rodata"@)) && s.data.len() % 8
            == 0 {
            let base = reloc_base(e, c, is_text);
            let rs = relocations_from_bytes(s.data);
            let rel_name = if is_text {
                ".rel.text"@
            } else {
                ".rel.rodata"@
            };
            let target = if is_text {
                c.t.text_idx
            } else {
                c.t.rodata_idx
            };
            lemma_names_differ();
            match section_named(e.sections, rel_name) {
                Some(i) => {
                    lemma_first_from(0, e.sections.len() as int, |j: int| e.sections[j].name == rel_name);
                    lemma_relocs_keep_text(e0, e, c, is_text, base, i, rs, rs.len() as int, ti);
                },
                None => match target {
                    None => {},
                    Some(tg) => {
                        let e1 = rel_section_added(e, rel_name, tg);
                        assert(text_kept(e0, e1, c, ti));
                        lemma_relocs_keep_text(
                            e0,
                            e1,
                            c,
                            is_text,
                            base,
                            e.sections.len() as int,
                            rs,
                            rs.len() as int,
                            ti,
                        );
                    },
                },
            }
        }
    }
}

proof fn lemma_symbols_keep_text(e0: ElfView, e3: ElfView, c: SpliceInput, m: int, ti: int)
    requires
        text_kept(e0, e3, c, ti),
        text_symbols_upto(e3, c, m) is Some,
    ensures
        text_kept(e0, text_symbols_upto(e3, c, m)->0, c, ti),
    decreases m,
{
    if m > 0 {
        lemma_symbols_keep_text(e0, e3, c, m - 1, ti);
    }
}

proof fn lemma_rodata_keeps_text(e0: ElfView, t: SpliceTargetsView, assembled: ElfView, m: int, ti: int)
    requires
        0 <= ti < e0.sections.len(),
        e0.sections[ti].name == ".text"@,
        t.rodata_idx matches Some(ri) && ri < e0.sections.len() && e0.sections[ri as int].name
            == ".rodata"@,
        rodata_spliced_upto(e0, t, assembled, m) is Some,
    ensures
        ({
            let e = (rodata_spliced_upto(e0, t, assembled, m)->0).0;
            &&& e.sections.len() == e0.sections.len()
            &&& e.sections[ti] == e0.sections[ti]
            &&& e.sections[t.rodata_idx->0 as int].name == ".rodata"@
        }),
    decreases m,
{
    lemma_names_differ();
    if m > 0 {
        lemma_rodata_keeps_text(e0, t, assembled, m - 1, ti);
    }
}

/// Splicing puts the assembled code over the stub function and leaves the
/// rest of `.text` as it was: the section's bytes become those before the
/// stub, the first bytes of the code (as many as the stub's size), and
/// those after it; nothing later in the splice touches `.text`.
pub proof fn law_splice_puts_code_over_stub(e: ElfView, fname: Seq<char>, assembled: ElfView)
    requires
        e.sections.len() <= usize::MAX,
        splice_ready(e, fname, assembled),
        targets_of(e, fname, assembled).func_sym is Some,
        targets_of(e, fname, assembled).text_idx is Some,
    ensures
        ({
            let t = targets_of(e, fname, assembled);
            let fs = t.func_sym->0;
            let ti = t.text_idx->0 as int;
            let d = e.sections[ti].data;
            spliced_object(e, fname, assembled).sections[ti] == SectionView {
                data: d.take(fs.st_value as int) + asm_text(assembled).take(fs.st_size as int)
                    + d.skip(fs.st_value + fs.st_size),
                ..e.sections[ti]
            }
        }),
{
    let t = targets_of(e, fname, assembled);
    let c = SpliceInput { t, assembled, fname };
    let ti = t.text_idx->0 as int;
    lemma_first_from(0, e.sections.len() as int, |i: int| e.sections[i].name == ".text"@);
    lemma_first_from(0, e.sections.len() as int, |i: int| e.sections[i].name == ".rodata"@);
    let e1 = text_spliced(e, t, asm_text(assembled))->0;
    let k0 = section_named(e.sections, ".text"@)->0;
    assert(e.sections[k0].name == ".text"@);
    assert(ti == k0);
    assert(e1.sections[ti].name == ".text"@);
    assert(t.rodata_idx matches Some(ri) ==> ri < e1.sections.len() && e1.sections[ri as int].name
        == ".rodata"@) by {
        if t.rodata_idx is Some {
            let r0 = section_named(e.sections, ".rodata"@)->0;
            assert(e.sections[r0].name == ".rodata"@);
            lemma_names_differ();
            assert(r0 != ti);
        }
    }
    let e2 = rodata_spliced(e1, t, assembled)->0;
    if section_named(assembled.sections, ".rodata"@) is Some && t.rodata_idx is Some
        && t.rodata_idx->0 < e1.sections.len() {
        lemma_rodata_keeps_text(e1, t, assembled, assembled.symtab.symbols.len() as int, ti);
    }
    assert(text_kept(e1, e2, c, ti));
    let e3 = rel_sections_upto(e2, c, assembled.sections.len() as int)->0;
    lemma_rel_sections_keep_text(e1, e2, c, assembled.sections.len() as int, ti);
    lemma_symbols_keep_text(e1, e3, c, assembled.symtab.symbols.len() as int, ti);
}

/// The total size of the compiled symbols that the first `m` assembled
/// .rodata symbols match by name (see `is_rodata_symbol`).
pub open spec fn matched_total(syms: Seq<SymbolView>, assembled: ElfView, m: int) -> int
    decreases m,
{
    if m <= 0 {
        0
    } else {
        let a = assembled.symtab.symbols[m - 1];
        matched_total(syms, assembled, m - 1) + match symbol_named(syms, a.name) {
            Some(j) => if is_rodata_symbol(assembled, a) {
                syms[j].st_size as int
            } else {
                0
            },
            None => 0,
        }
    }
}

/// Splicing .rodata takes the assembled bytes in turn: the offset reached
/// after the first `m` assembled symbols is the total size of the
/// compiled symbols they matched, the symbol table does not change, and
/// the compiled symbol matched by symbol `m - 1` gets the assembled bytes
/// that start where the symbols matched before it end.
pub proof fn law_rodata_taken_in_turn(e0: ElfView, t: SpliceTargetsView, assembled: ElfView, m: int)
    requires
        0 <= m,
        t.rodata_idx is Some,
        t.rodata_idx->0 < e0.sections.len(),
        rodata_spliced_upto(e0, t, assembled, m) is Some,
    ensures
        ({
            let (e, off) = rodata_spliced_upto(e0, t, assembled, m)->0;
            &&& off == matched_total(e0.symtab.symbols, assembled, m)
            &&& off >= 0
            &&& e.symtab == e0.symtab
            &&& e.sections.len() == e0.sections.len()
            &&& m > 0 ==> {
                let a = assembled.symtab.symbols[m - 1];
                let syms = e0.symtab.symbols;
                let src = assembled.sections[asm_rodata_index(assembled)].data;
                let before = matched_total(syms, assembled, m - 1);
                (is_rodata_symbol(assembled, a) && symbol_named(syms, a.name) is Some) ==> {
                    let cs = syms[symbol_named(syms, a.name)->0];
                    e.sections[t.rodata_idx->0 as int].data.subrange(
                        cs.st_value as int,
                        cs.st_value + cs.st_size,
                    ) == src.subrange(before, before + cs.st_size)
                }
            }
        }),
    decreases m,
{
    if m > 0 {
        law_rodata_taken_in_turn(e0, t, assembled, m - 1);
        let (e, off) = rodata_spliced_upto(e0, t, assembled, m - 1)->0;
        let a = assembled.symtab.symbols[m - 1];
        if is_rodata_symbol(assembled, a) && symbol_named(e.symtab.symbols, a.name) is Some {
            let j = symbol_named(e.symtab.symbols, a.name)->0;
            let cs = e.symtab.symbols[j];
            let ri = t.rodata_idx->0 as int;
            let src = assembled.sections[asm_rodata_index(assembled)].data;
            let d = e.sections[ri].data;
            let e2 = (rodata_spliced_upto(e0, t, assembled, m)->0).0;
            assert(off + cs.st_size <= src.len());
            assert(cs.st_value + cs.st_size <= d.len());
            assert(src.skip(off).take(cs.st_size as int) =~= src.subrange(off, off + cs.st_size));
            let nd = d.take(cs.st_value as int) + src.skip(off).take(cs.st_size as int) + d.skip(
                cs.st_value + cs.st_size,
            );
            assert(e2.sections[ri].data == nd);
            assert(nd.subrange(cs.st_value as int, cs.st_value + cs.st_size) =~= src.subrange(
                off,
                off + cs.st_size,
            ));
        }
    }
}

} // verus!
