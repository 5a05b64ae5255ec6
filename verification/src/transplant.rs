//! Putting an assembled object into a compiled object whose stubs each
//! stand in a section of their own: the code into the function's text
//! section, the data into the .rodata sections after it, the relocations
//! as new REL sections, and the global symbols into the symbol table.
use vstd::prelude::*;
use crate::elf::object::{Elf, ElfView, section_views};
use crate::elf::section::{
    SHT_REL, RelocationRecord, RelocationView, Section, SectionView, relocation_views,
    relocations_bytes, relocations_from_bytes,
};
use crate::elf::strtab::{add_offset, added, string_views};
use crate::elf::symbol::{Symbol, SymbolView, spec_bind, symbol_views};
use crate::inject::{asm_text, pointed, symbol_index_added, symbol_named};
use crate::split::lemma_first_from;
use crate::splice::{
    rel_indices_upto, rel_sections, rel_sections_whole, rel_updates, relocations_updated,
    rodata_after, rodata_fill, rodata_sections_after, transplant_text, update_relocations, zeros,
    lemma_rodata_fill_prefix,
};

verus! {

/// The section of the last pair named `name` (a name-to-section map built
/// from the symbols, where a later symbol of a name overrides an earlier).
pub open spec fn last_section_of(pairs: Seq<(Seq<char>, u16)>, name: Seq<char>) -> Option<u16>
    decreases pairs.len(),
{
    if pairs.len() == 0 {
        None
    } else if pairs.last().0 == name {
        Some(pairs.last().1)
    } else {
        last_section_of(pairs.drop_last(), name)
    }
}

/// The views of name-to-section pairs.
pub open spec fn pair_views(v: Seq<(String, u16)>) -> Seq<(Seq<char>, u16)> {
    v.map_values(|p: (String, u16)| (p.0@, p.1))
}

/// Where an assembled object goes: the object with the code put into the
/// function's text section, that section's index, and the .rodata
/// sections that take its data.
pub struct Placement {
    pub e: ElfView,
    pub text_idx: int,
    pub rodata: Seq<usize>,
}

/// With assembled code: the function's text section (the section of the
/// first symbol named `stem`) gets the code, as many bytes as it holds,
/// padded with zeros to `sh_size`, and the `num_rodata` .rodata sections
/// that follow it take the data. Without code (data only): the one .rodata
/// section is the one the name map gives. `None` where the symbol, the
/// sections or enough code are missing.
pub open spec fn placed(
    e: ElfView,
    stem: Seq<char>,
    num_rodata: usize,
    assembled: ElfView,
    sym_sections: Seq<(Seq<char>, u16)>,
) -> Option<Placement> {
    let code = asm_text(assembled);
    if code.len() > 0 {
        match symbol_named(e.symtab.symbols, stem) {
            None => None,
            Some(i) => {
                let ti = e.symtab.symbols[i].st_shndx as int;
                if ti >= e.sections.len() {
                    None
                } else {
                    let rodata = if num_rodata > 0 {
                        rodata_after(e.sections, ti + 1, num_rodata as int)
                    } else {
                        Seq::empty()
                    };
                    let sec = e.sections[ti];
                    if rodata.len() != num_rodata || code.len() < sec.data.len() {
                        None
                    } else {
                        Some(
                            Placement {
                                e: ElfView {
                                    sections: e.sections.update(
                                        ti,
                                        SectionView {
                                            data: code.take(sec.data.len() as int) + zeros(
                                                sec.sh_size - sec.data.len(),
                                            ),
                                            ..sec
                                        },
                                    ),
                                    ..e
                                },
                                text_idx: ti,
                                rodata,
                            },
                        )
                    }
                }
            },
        }
    } else if num_rodata != 1 {
        None
    } else {
        match last_section_of(sym_sections, stem) {
            None => None,
            Some(x) => Some(Placement { e, text_idx: 0xffff_ffff, rodata: seq![x as usize] }),
        }
    }
}

/// The object after the data is placed, the offsets where each .rodata
/// section's bytes end, and the name offset of `.rel.rodata`.
pub struct Filled {
    pub e: ElfView,
    pub offsets: Seq<usize>,
    pub rel_rodata_name: u32,
}

/// Where there is data: the assembled object's one .rodata section is
/// cut over the placed .rodata sections (see `rodata_fill`) and
/// `.rel.rodata` is added to the section names. `None` where the
/// assembled object has other than one .rodata section or too little data.
pub open spec fn rodata_filled(p: Placement, num_rodata: usize, assembled: ElfView) -> Option<Filled> {
    if num_rodata == 0 {
        Some(Filled { e: p.e, offsets: Seq::empty(), rel_rodata_name: 0xffff_ffff })
    } else {
        let ars = rodata_after(assembled.sections, 0, 0);
        if ars.len() != 1 {
            None
        } else {
            match rodata_fill(p.e.sections, p.rodata, assembled.sections[ars[0] as int].data) {
                None => None,
                Some((secs, offs)) => Some(
                    Filled {
                        e: ElfView {
                            sections: secs,
                            shstrtab: added(p.e.shstrtab, ".rel.rodata"@),
                            ..p.e
                        },
                        offsets: offs,
                        rel_rodata_name: add_offset(p.e.shstrtab.section.data, ".rel.rodata"@) as u32,
                    },
                ),
            }
        }
    }
}

/// What the relocation records carry from one entry to the next: the
/// object, the assembled symbols (their sections may be repointed), how
/// many local symbols were put in, and the names of the symbols the
/// relocations refer to.
pub struct RecState {
    pub e: ElfView,
    pub asyms: Seq<SymbolView>,
    pub inserted: int,
    pub names: Seq<Seq<char>>,
}

/// What every record reads: whether there is code, the text section, the
/// first .rodata section and the two REL section names.
pub struct RecInput {
    pub code: bool,
    pub text_idx: int,
    pub rodata0: Option<usize>,
    pub rel_text_name: u32,
    pub rel_rodata_name: u32,
}

/// Relocation `r` of record `i` pointed at the compiled symbol for its
/// assembled symbol: in a data record that follows a code record, the
/// symbol is first repointed at the text section; the symbol is added (a
/// new entry in any record but a code one, else only where its name is
/// missing). `None` where the symbol index is out of range.
pub open spec fn reloc_rebound(st: RecState, c: RecInput, i: int, r: RelocationView) -> Option<
    (RecState, RelocationView),
> {
    let si = (r.r_info >> 8u32) as int;
    let s0 = st.asyms[si];
    let local = spec_bind(s0.st_info) == 0;
    if si >= st.asyms.len() || (local && st.inserted + 1 > usize::MAX) {
        None
    } else {
        let s = if c.code && i == 1 {
            SymbolView { st_shndx: c.text_idx as u16, ..s0 }
        } else {
            s0
        };
        let (e2, idx) = symbol_index_added(st.e, s, !c.code || i != 0);
        Some(
            (
                RecState {
                    e: e2,
                    asyms: st.asyms.update(si, s),
                    inserted: st.inserted + if local {
                        1int
                    } else {
                        0int
                    },
                    names: st.names.push(s.name),
                },
                pointed(r, idx),
            ),
        )
    }
}

/// The first `m` relocations of record `i` rebound in turn, with the
/// rebound relocations.
pub open spec fn rebound_upto(
    st0: RecState,
    c: RecInput,
    i: int,
    rs: Seq<RelocationView>,
    m: int,
) -> Option<(RecState, Seq<RelocationView>)>
    decreases m,
{
    if m <= 0 {
        Some((st0, Seq::empty()))
    } else {
        match rebound_upto(st0, c, i, rs, m - 1) {
            None => None,
            Some((st, out)) => match reloc_rebound(st, c, i, rs[m - 1]) {
                None => None,
                Some((st2, r2)) => Some((st2, out.push(r2))),
            },
        }
    }
}

/// Record `i` (the assembled REL section `rel`) added as a new section of
/// the compiled object: linked to its symbol table, applying to the text
/// section (a code record, the first where there is code) or the first
/// .rodata section, with its relocations rebound. `None` where its data is
/// not whole entries or a data record has no .rodata section.
pub open spec fn record_added(st: RecState, c: RecInput, i: int, rel: SectionView) -> Option<RecState> {
    if rel.data.len() % 8 != 0 || (!(c.code && i == 0) && c.rodata0 is None) {
        None
    } else {
        let is_code = c.code && i == 0;
        let rs = relocations_from_bytes(rel.data);
        match rebound_upto(st, c, i, rs, rs.len() as int) {
            None => None,
            Some((st2, out)) => {
                let d = relocations_bytes(out);
                let sec = SectionView {
                    sh_link: st.e.symtab_idx as u32,
                    sh_name: if is_code {
                        c.rel_text_name
                    } else {
                        c.rel_rodata_name
                    },
                    sh_info: if is_code {
                        c.text_idx as u32
                    } else {
                        c.rodata0->0 as u32
                    },
                    data: d,
                    sh_size: d.len() as u32,
                    ..rel
                };
                Some(RecState { e: ElfView { sections: st2.e.sections.push(sec), ..st2.e }, ..st2 })
            },
        }
    }
}

/// The first `m` REL sections of the assembled object added in turn.
pub open spec fn records_upto(st0: RecState, c: RecInput, assembled: ElfView, m: int) -> Option<RecState>
    decreases m,
{
    if m <= 0 {
        Some(st0)
    } else {
        match records_upto(st0, c, assembled, m - 1) {
            None => None,
            Some(st) => record_added(
                st,
                c,
                m - 1,
                assembled.sections[rel_indices_upto(
                    assembled.sections,
                    assembled.sections.len() as int,
                )[m - 1]],
            ),
        }
    }
}

/// The first `m` assembled symbols that are global and not yet referred
/// to, added (as new entries) in the text section where there is code.
pub open spec fn globals_upto(
    e0: ElfView,
    asyms: Seq<SymbolView>,
    names: Seq<Seq<char>>,
    code: bool,
    text_idx: int,
    m: int,
) -> ElfView
    decreases m,
{
    if m <= 0 {
        e0
    } else {
        let e = globals_upto(e0, asyms, names, code, text_idx, m - 1);
        let s = asyms[m - 1];
        if s.st_name == 0 || spec_bind(s.st_info) == 0 || !code || names.contains(s.name) {
            e
        } else {
            symbol_index_added(e, SymbolView { st_shndx: text_idx as u16, ..s }, true).0
        }
    }
}

/// The compiled object after the assembled object of function `stem` is
/// put in (see `placed`, `rodata_filled`, `record_added`): where local
/// symbols were put in, the relocations are brought in line with them (see
/// `relocations_updated`) and the extra .rodata REL sections added; then
/// the global symbols are added (see `globals_upto`). Nothing changes
/// where there is code but `stem` is not one of the stub functions. `None`
/// where a check fails (a missing symbol or section, too little code or
/// data, three or more REL sections, an index out of range).
pub open spec fn transplant_outcome(
    e: ElfView,
    stem: Seq<char>,
    num_rodata: usize,
    assembled: ElfView,
    stubs: Seq<Seq<char>>,
    rel_text_name: u32,
    sym_sections: Seq<(Seq<char>, u16)>,
) -> Option<ElfView> {
    let code = asm_text(assembled).len() > 0;
    if code && !stubs.contains(stem) {
        Some(e)
    } else {
        match placed(e, stem, num_rodata, assembled, sym_sections) {
            None => None,
            Some(p) => match rodata_filled(p, num_rodata, assembled) {
                None => None,
                Some(f) => {
                    let n_rel = rel_indices_upto(
                        assembled.sections,
                        assembled.sections.len() as int,
                    ).len();
                    let c = RecInput {
                        code,
                        text_idx: p.text_idx,
                        rodata0: if p.rodata.len() > 0 {
                            Some(p.rodata[0])
                        } else {
                            None
                        },
                        rel_text_name,
                        rel_rodata_name: f.rel_rodata_name,
                    };
                    let st0 = RecState {
                        e: f.e,
                        asyms: assembled.symtab.symbols,
                        inserted: 0,
                        names: Seq::empty(),
                    };
                    let threshold = f.e.symtab.section.sh_info as int;
                    if n_rel >= 3 {
                        None
                    } else {
                        match records_upto(st0, c, assembled, n_rel as int) {
                            None => None,
                            Some(st) => {
                                let secs = st.e.sections;
                                let ok = st.inserted == 0 || (rel_sections_whole(secs) && (
                                rel_indices_upto(secs, secs.len() as int).len() > 0 ==> p.rodata.len()
                                    > 0) && st.inserted + 0xff_ffff <= usize::MAX);
                                if !ok {
                                    None
                                } else {
                                    let (secs2, extra) = relocations_updated(
                                        secs,
                                        p.rodata,
                                        f.offsets,
                                        threshold,
                                        st.inserted,
                                    );
                                    let e4 = ElfView { sections: secs2 + extra, ..st.e };
                                    Some(
                                        globals_upto(
                                            e4,
                                            st.asyms,
                                            st.names,
                                            code,
                                            p.text_idx,
                                            st.asyms.len() as int,
                                        ),
                                    )
                                }
                            },
                        }
                    }
                },
            },
        }
    }
}

/// The assembled object can be put in (see `transplant_outcome`).
pub open spec fn transplant_ready(
    e: ElfView,
    stem: Seq<char>,
    num_rodata: usize,
    assembled: ElfView,
    stubs: Seq<Seq<char>>,
    rel_text_name: u32,
    sym_sections: Seq<(Seq<char>, u16)>,
) -> bool {
    transplant_outcome(e, stem, num_rodata, assembled, stubs, rel_text_name, sym_sections) is Some
}

/// The object with the assembled object put in (see `transplant_outcome`).
pub open spec fn transplanted(
    e: ElfView,
    stem: Seq<char>,
    num_rodata: usize,
    assembled: ElfView,
    stubs: Seq<Seq<char>>,
    rel_text_name: u32,
    sym_sections: Seq<(Seq<char>, u16)>,
) -> ElfView {
    transplant_outcome(e, stem, num_rodata, assembled, stubs, rel_text_name, sym_sections)->0
}

/// Whether one of `v` is `s`.
fn has_string(v: &Vec<String>, s: &str) -> (r: bool)
    ensures
        r == string_views(v@).contains(s@),
{
    let target: String = s.to_owned();
    let n = v.len();
    let mut i: usize = 0;
    while i < n
        invariant
            target@ == s@,
            n == v@.len(),
            i <= n,
            forall|j: int| 0 <= j < i ==> string_views(v@)[j] != s@,
        decreases n - i,
    {
        assert(string_views(v@)[i as int] == v@[i as int]@);
        if v[i] == target {
            return true;
        }
        i += 1;
    }
    false
}

/// The section the last pair named `name` gives (see `last_section_of`).
fn last_section(pairs: &Vec<(String, u16)>, name: &str) -> (r: Option<u16>)
    ensures
        r == last_section_of(pair_views(pairs@), name@),
{
    let target: String = name.to_owned();
    let mut i: usize = pairs.len();
    assert(pair_views(pairs@).take(i as int) =~= pair_views(pairs@));
    while i > 0
        invariant
            target@ == name@,
            i <= pairs@.len(),
            last_section_of(pair_views(pairs@), name@) == last_section_of(
                pair_views(pairs@).take(i as int),
                name@,
            ),
        decreases i,
    {
        assert(pair_views(pairs@).take(i as int).drop_last() =~= pair_views(pairs@).take(i - 1));
        if pairs[i - 1].0 == target {
            return Some(pairs[i - 1].1);
        }
        i -= 1;
    }
    None
}

/// The indices of all `.rodata` sections.
fn all_rodata(sections: &Vec<Section>) -> (r: Vec<usize>)
    ensures
        r@ == rodata_after(section_views(sections@), 0, 0),
{
    let ghost sv = section_views(sections@);
    let n = sections.len();
    let mut out: Vec<usize> = Vec::new();
    let mut i: usize = 0;
    let dot_rodata: String = ".rodata".to_owned();
    assert(out@ + rodata_after(sv, 0, 0) =~= rodata_after(sv, 0, 0));
    while i < n
        invariant
            dot_rodata@ == ".rodata"@,
            sv == section_views(sections@),
            n == sections@.len(),
            i <= n,
            rodata_after(sv, 0, 0) == out@ + rodata_after(sv, i as int, 0),
        decreases n - i,
    {
        assert(sv[i as int] == sections@[i as int]@);
        if sections[i].name == dot_rodata {
            assert(rodata_after(sv, i as int, 0) =~= seq![i as usize] + rodata_after(
                sv,
                i + 1,
                0,
            ));
            out.push(i);
            assert(out@ + rodata_after(sv, i + 1, 0) =~= (out@.drop_last() + seq![i as usize])
                + rodata_after(sv, i + 1, 0));
        }
        i += 1;
    }
    assert(rodata_after(sv, n as int, 0) =~= Seq::<usize>::empty());
    assert(out@ + Seq::<usize>::empty() =~= out@);
    out
}

proof fn lemma_fill_offsets_len(secs: Seq<SectionView>, idxs: Seq<usize>, data: Seq<u8>)
    requires
        rodata_fill(secs, idxs, data) is Some,
    ensures
        (rodata_fill(secs, idxs, data)->0).1.len() == idxs.len(),
    decreases idxs.len(),
{
    if idxs.len() > 0 {
        lemma_fill_offsets_len(secs, idxs.drop_last(), data);
    }
}

proof fn lemma_rebound_prefix(st0: RecState, c: RecInput, i: int, rs: Seq<RelocationView>, m: int, n: int)
    requires
        0 <= m <= n,
        rebound_upto(st0, c, i, rs, m) is None,
    ensures
        rebound_upto(st0, c, i, rs, n) is None,
    decreases n - m,
{
    if m < n {
        lemma_rebound_prefix(st0, c, i, rs, m + 1, n);
    }
}

proof fn lemma_records_prefix(st0: RecState, c: RecInput, assembled: ElfView, m: int, n: int)
    requires
        0 <= m <= n,
        records_upto(st0, c, assembled, m) is None,
    ensures
        records_upto(st0, c, assembled, n) is None,
    decreases n - m,
{
    if m < n {
        lemma_records_prefix(st0, c, assembled, m + 1, n);
    }
}

/// A verified copy of a list of symbols.
fn copy_symbols(v: &Vec<Symbol>) -> (r: Vec<Symbol>)
    ensures
        symbol_views(r@) == symbol_views(v@),
{
    let mut out: Vec<Symbol> = Vec::new();
    let mut i: usize = 0;
    while i < v.len()
        invariant
            i <= v@.len(),
            out@.len() == i,
            forall|q: int| 0 <= q < i ==> (#[trigger] out@[q])@ == v@[q]@,
        decreases v@.len() - i,
    {
        let d = v[i].duplicate();
        out.push(d);
        i += 1;
    }
    assert(symbol_views(out@) =~= symbol_views(v@));
    out
}

/// The view of the record state that the exec values stand for.
pub open spec fn rec_state(e: ElfView, asyms: Seq<Symbol>, inserted: usize, names: Seq<String>) -> RecState {
    RecState { e, asyms: symbol_views(asyms), inserted: inserted as int, names: string_views(names) }
}

/// Adds REL section `rel` as record `i` (see `record_added`).
fn add_record(
    compiled: &mut Elf,
    asyms: &mut Vec<Symbol>,
    inserted: &mut usize,
    names: &mut Vec<String>,
    rel: &Section,
    i: usize,
    code: bool,
    text_idx: usize,
    rodata0: Option<usize>,
    rel_text_name: u32,
    rel_rodata_name: u32,
    Ghost(c): Ghost<RecInput>,
) -> (ok: bool)
    requires
        c == (RecInput { code, text_idx: text_idx as int, rodata0, rel_text_name, rel_rodata_name }),
    ensures
        ok == record_added(
            rec_state(old(compiled)@, old(asyms)@, *old(inserted), old(names)@),
            c,
            i as int,
            rel@,
        ) is Some,
        ok ==> rec_state(final(compiled)@, final(asyms)@, *final(inserted), final(names)@)
            == record_added(
            rec_state(old(compiled)@, old(asyms)@, *old(inserted), old(names)@),
            c,
            i as int,
            rel@,
        )->0,
{
    let ghost st0 = rec_state(compiled@, asyms@, *inserted, names@);
    let is_code = code && i == 0;
    if rel.data.len() % 8 != 0 || (!is_code && rodata0.is_none()) {
        return false;
    }
    let mut sec = rel.duplicate();
    sec.sh_link = compiled.symtab_idx as u32;
    if is_code {
        sec.sh_name = rel_text_name;
        sec.sh_info = text_idx as u32;
    } else {
        sec.sh_name = rel_rodata_name;
        sec.sh_info = match rodata0 {
            Some(r0) => r0 as u32,
            None => 0,
        };
    }
    let mut rr = RelocationRecord::new(sec);
    let ghost rs = relocations_from_bytes(rel@.data);
    let ghost rv0 = relocation_views(rr.relocations@);
    let force = !code || i != 0;
    let n = rr.relocations.len();
    let mut k: usize = 0;
    while k < n
        invariant
            c == (RecInput { code, text_idx: text_idx as int, rodata0, rel_text_name, rel_rodata_name }),
            force == (!code || i != 0),
            n == rr.relocations@.len(),
            rs == relocations_from_bytes(rel@.data),
            rv0 == rs,
            rs.len() == n,
            k <= n,
            st0 == rec_state(old(compiled)@, old(asyms)@, *old(inserted), old(names)@),
            rel.data@.len() % 8 == 0,
            is_code || rodata0 is Some,
            is_code == (code && i == 0),
            rebound_upto(st0, c, i as int, rs, k as int) == Some(
                (rec_state(compiled@, asyms@, *inserted, names@), relocation_views(rr.relocations@).take(k as int)),
            ),
            forall|q: int| k <= q < n ==> #[trigger] relocation_views(rr.relocations@)[q] == rs[q],
            rr.section@ == (SectionView {
                sh_link: st0.e.symtab_idx as u32,
                sh_name: if is_code { rel_text_name } else { rel_rodata_name },
                sh_info: if is_code { text_idx as u32 } else { match rodata0 { Some(r0) => r0 as u32, None => 0 } },
                ..rel@
            }),
        decreases n - k,
    {
        assert(relocation_views(rr.relocations@)[k as int] == rr.relocations@[k as int]@);
        let si = rr.relocations[k].symbol_index();
        if si >= asyms.len() || (asyms[si].bind() == 0 && *inserted == usize::MAX) {
            proof {
                if si < asyms@.len() {
                    assert(symbol_views(asyms@)[si as int] == asyms@[si as int]@);
                }
                lemma_rebound_prefix(st0, c, i as int, rs, k + 1, n as int);
            }
            return false;
        }
        assert(symbol_views(asyms@)[si as int] == asyms@[si as int]@);
        let mut s = asyms[si].duplicate();
        let ghost st = rec_state(compiled@, asyms@, *inserted, names@);
        let ghost expect = reloc_rebound(st, c, i as int, rs[k as int]);
        if s.bind() == 0 {
            *inserted = *inserted + 1;
        }
        if code && i == 1 {
            s.st_shndx = text_idx as u16;
        }
        let sname = s.name.clone();
        let ghost sv = s@;
        let idx = compiled.add_symbol_get_index(s.duplicate(), force);
        let ghost before = symbol_views(asyms@);
        asyms.set(si, s);
        assert(symbol_views(asyms@) =~= before.update(si as int, sv));
        names.push(sname);
        let p = {
            let mut p = rr.relocations[k].duplicate();
            p.set_symbol_index(idx as u32);
            p
        };
        let ghost rvb = relocation_views(rr.relocations@);
        rr.relocations.set(k, p);
        assert(relocation_views(rr.relocations@) =~= rvb.update(k as int, pointed(rs[k as int], idx as int)));
        assert(relocation_views(rr.relocations@).take(k + 1) =~= rvb.take(k as int).push(
            pointed(rs[k as int], idx as int),
        ));
        assert(expect is Some);
        assert(string_views(names@) =~= st.names.push(sv.name));
        assert((expect->0).0 == rec_state(compiled@, asyms@, *inserted, names@));
        assert((expect->0).1 == pointed(rs[k as int], idx as int));
        k += 1;
    }
    assert(relocation_views(rr.relocations@).take(n as int) =~= relocation_views(rr.relocations@));
    rr.pack();
    let ghost e_before = compiled@;
    compiled.sections.push(rr.section);
    assert(section_views(compiled.sections@) =~= e_before.sections.push(rr.section@));
    true
}

/// Fills the .rodata sections `indices` from the assembled .rodata (see
/// `rodata_fill`), and gives where each one's bytes end; `None` where that
/// cannot be done (the sections may then be partly filled).
fn try_fill_rodata(sections: &mut Vec<Section>, indices: &Vec<usize>, asm_rodata: &[u8]) -> (r: Option<
    Vec<usize>,
>)
    ensures
        r is Some == rodata_fill(section_views(old(sections)@), indices@, asm_rodata@) is Some,
        r matches Some(offsets) ==> rodata_fill(section_views(old(sections)@), indices@, asm_rodata@)
            == Some((section_views(final(sections)@), offsets@)),
{
    let ghost s0 = section_views(sections@);
    let n = indices.len();
    let total = asm_rodata.len();
    let mut offsets: Vec<usize> = Vec::new();
    let mut offset: usize = 0;
    let mut k: usize = 0;
    assert(indices@.take(0) =~= Seq::<usize>::empty());
    while k < n
        invariant
            n == indices@.len(),
            total == asm_rodata@.len(),
            s0 == section_views(old(sections)@),
            k <= n,
            rodata_fill(s0, indices@.take(k as int), asm_rodata@) == Some(
                (section_views(sections@), offsets@),
            ),
            offset as int == (if offsets@.len() == 0 {
                0
            } else {
                offsets@.last() as int
            }),
            offset <= total,
        decreases n - k,
    {
        assert(indices@.take(k + 1).drop_last() =~= indices@.take(k as int));
        assert(indices@.take(k + 1).last() == indices@[k as int]);
        let idx = indices[k];
        if idx >= sections.len() {
            proof {
                lemma_rodata_fill_prefix(s0, indices@, asm_rodata@, k + 1);
            }
            return None;
        }
        assert(section_views(sections@)[idx as int] == sections@[idx as int]@);
        let len = sections[idx].data.len();
        if len > total - offset {
            proof {
                lemma_rodata_fill_prefix(s0, indices@, asm_rodata@, k + 1);
            }
            return None;
        }
        let mut sec = sections[idx].duplicate();
        sec.data = vstd::slice::slice_to_vec(&asm_rodata[offset..offset + len]);
        sec.sh_addralign = 2;
        let ghost before = section_views(sections@);
        sections.set(idx, sec);
        offset = offset + len;
        offsets.push(offset);
        assert(section_views(sections@) =~= before.update(
            idx as int,
            SectionView {
                data: asm_rodata@.subrange(offset - len, offset as int),
                sh_addralign: 2,
                ..before[idx as int]
            },
        ));
        k += 1;
    }
    assert(indices@.take(n as int) =~= indices@);
    Some(offsets)
}

/// Whether every REL section holds whole 8-byte entries.
pub(crate) fn all_rel_entries_whole(sections: &Vec<Section>) -> (r: bool)
    ensures
        r == rel_sections_whole(section_views(sections@)),
{
    let ghost sv = section_views(sections@);
    let n = sections.len();
    let mut k: usize = 0;
    while k < n
        invariant
            n == sections@.len(),
            sv == section_views(sections@),
            k <= n,
            forall|q: int|
                0 <= q < k && (#[trigger] sv[q]).sh_type == SHT_REL ==> sv[q].data.len() % 8 == 0,
        decreases n - k,
    {
        assert(sv[k as int] == sections@[k as int]@);
        if sections[k].sh_type == SHT_REL && sections[k].data.len() % 8 != 0 {
            return false;
        }
        k += 1;
    }
    true
}

proof fn lemma_rodata_after_bound(secs: Seq<SectionView>, from: int, count: int)
    ensures
        forall|t: int|
            0 <= t < rodata_after(secs, from, count).len() ==> #[trigger] rodata_after(
                secs,
                from,
                count,
            )[t] < secs.len(),
    decreases secs.len() - from,
{
    if from < secs.len() && from >= 0 {
        let c2 = if secs[from].name == ".rodata"@ && count > 1 {
            count - 1
        } else {
            count
        };
        lemma_rodata_after_bound(secs, from + 1, c2);
        let r = rodata_after(secs, from, count);
        let rest = rodata_after(secs, from + 1, c2);
        if secs[from].name == ".rodata"@ {
            if count == 1 {
                assert(r =~= seq![from as usize]);
            } else {
                assert(r =~= seq![from as usize] + rest);
                assert forall|t: int| 0 <= t < r.len() implies #[trigger] r[t] < secs.len() by {
                    if t > 0 {
                        assert(r[t] == rest[t - 1]);
                    }
                }
            }
        } else {
            assert(r == rest);
        }
    }
}

/// Adds the global assembled symbols not yet referred to (see
/// `globals_upto`).
fn add_globals(
    compiled: &mut Elf,
    asyms: &Vec<Symbol>,
    names: &Vec<String>,
    code: bool,
    text_idx: usize,
)
    ensures
        final(compiled)@ == globals_upto(
            old(compiled)@,
            symbol_views(asyms@),
            string_views(names@),
            code,
            text_idx as int,
            asyms@.len() as int,
        ),
{
    let ghost e0 = compiled@;
    let n = asyms.len();
    let mut k: usize = 0;
    while k < n
        invariant
            n == asyms@.len(),
            k <= n,
            compiled@ == globals_upto(
                e0,
                symbol_views(asyms@),
                string_views(names@),
                code,
                text_idx as int,
                k as int,
            ),
        decreases n - k,
    {
        assert(symbol_views(asyms@)[k as int] == asyms@[k as int]@);
        let s = &asyms[k];
        if s.st_name != 0 && s.bind() != 0 && code && !has_string(names, s.name.as_str()) {
            let mut sym = s.duplicate();
            sym.st_shndx = text_idx as u16;
            compiled.add_symbol_get_index(sym, true);
        }
        k += 1;
    }
}

/// Puts the assembled object of function `asm_stem` into the compiled
/// object (see `transplant_outcome`) and says whether that could be done;
/// where it could not, the object may be left partly changed.
pub fn try_transplant_asm_object(
    compiled: &mut Elf,
    asm_stem: &str,
    num_rodata: usize,
    assembled: &Elf,
    stub_functions: &Vec<String>,
    rel_text_sh_name: u32,
    symbol_sections: &Vec<(String, u16)>,
) -> (ok: bool)
    ensures
        ok == transplant_ready(
            old(compiled)@,
            asm_stem@,
            num_rodata,
            assembled@,
            string_views(stub_functions@),
            rel_text_sh_name,
            pair_views(symbol_sections@),
        ),
        ok ==> final(compiled)@ == transplanted(
            old(compiled)@,
            asm_stem@,
            num_rodata,
            assembled@,
            string_views(stub_functions@),
            rel_text_sh_name,
            pair_views(symbol_sections@),
        ),
{
    let ghost e0 = compiled@;
    let ghost stubs = string_views(stub_functions@);
    let ghost pairs = pair_views(symbol_sections@);
    let empty: Vec<u8> = Vec::new();
    let code_bytes: &[u8] = match crate::inject::section_index(assembled, ".text") {
        Some(i) => {
            assert(assembled@.sections[i as int] == assembled.sections@[i as int]@);
            assembled.sections[i].data.as_slice()
        },
        None => empty.as_slice(),
    };
    assert(code_bytes@ == asm_text(assembled@));
    let code = code_bytes.len() > 0;
    if code && !has_string(stub_functions, asm_stem) {
        return true;
    }
    // where the code and data go
    let text_idx: usize;
    let rodata: Vec<usize>;
    if code {
        let fs = match compiled.find_symbol(asm_stem) {
            Some(fs) => fs,
            None => {
                return false;
            },
        };
        text_idx = fs.st_shndx as usize;
        if text_idx >= compiled.sections.len() {
            return false;
        }
        rodata = if num_rodata > 0 {
            rodata_sections_after(&compiled.sections, text_idx, num_rodata)
        } else {
            Vec::new()
        };
        let ghost e = compiled@;
        assert(e.sections[text_idx as int] == compiled.sections@[text_idx as int]@);
        if rodata.len() != num_rodata || code_bytes.len() < compiled.sections[text_idx].data.len() {
            return false;
        }
        let mut sec = compiled.sections[text_idx].duplicate();
        transplant_text(&mut sec, code_bytes);
        compiled.sections.set(text_idx, sec);
        assert(section_views(compiled.sections@) =~= placed(
            e0,
            asm_stem@,
            num_rodata,
            assembled@,
            pairs,
        )->0.e.sections);
    } else {
        if num_rodata != 1 {
            return false;
        }
        let x = match last_section(symbol_sections, asm_stem) {
            Some(x) => x,
            None => {
                return false;
            },
        };
        text_idx = 0xffff_ffff;
        let mut v: Vec<usize> = Vec::new();
        v.push(x as usize);
        rodata = v;
    }
    let ghost p = placed(e0, asm_stem@, num_rodata, assembled@, pairs)->0;
    assert(compiled@ == p.e && rodata@ == p.rodata && text_idx as int == p.text_idx);
    // the data
    let offsets: Vec<usize>;
    let rel_rodata_name: u32;
    if num_rodata == 0 {
        offsets = Vec::new();
        rel_rodata_name = 0xffff_ffff;
    } else {
        let ars = all_rodata(&assembled.sections);
        if ars.len() != 1 {
            return false;
        }
        proof {
            lemma_rodata_after_bound(assembled@.sections, 0, 0);
        }
        let a0 = ars[0];
        assert(assembled@.sections[a0 as int] == assembled.sections@[a0 as int]@);
        offsets = match try_fill_rodata(&mut compiled.sections, &rodata, assembled.sections[a0].data.as_slice()) {
            Some(o) => o,
            None => {
                return false;
            },
        };
        rel_rodata_name = compiled.shstrtab.add_symbol(".rel.rodata");
    }
    let ghost f = rodata_filled(p, num_rodata, assembled@)->0;
    assert(compiled@ == f.e && offsets@ == f.offsets && rel_rodata_name == f.rel_rodata_name);
    proof {
        if num_rodata > 0 {
            lemma_fill_offsets_len(
                p.e.sections,
                p.rodata,
                assembled@.sections[rodata_after(assembled@.sections, 0, 0)[0] as int].data,
            );
        }
    }
    // the relocation records
    let threshold = compiled.symtab.section.sh_info as usize;
    let rodata0: Option<usize> = if rodata.len() > 0 {
        Some(rodata[0])
    } else {
        None
    };
    let ghost c = RecInput {
        code,
        text_idx: text_idx as int,
        rodata0,
        rel_text_name: rel_text_sh_name,
        rel_rodata_name,
    };
    let (rel_idx, _rels) = rel_sections(&assembled.sections);
    let nr = rel_idx.len();
    if nr >= 3 {
        return false;
    }
    let mut asyms = copy_symbols(&assembled.symtab.symbols);
    let mut inserted: usize = 0;
    let mut names: Vec<String> = Vec::new();
    let ghost st0 = rec_state(compiled@, asyms@, inserted, names@);
    assert(string_views(names@) =~= Seq::<Seq<char>>::empty());
    proof {
        crate::splice::lemma_rel_indices(assembled@.sections, assembled@.sections.len() as int);
    }
    assert(records_upto(st0, c, assembled@, nr as int) is None ==> !transplant_ready(
        e0,
        asm_stem@,
        num_rodata,
        assembled@,
        stubs,
        rel_text_sh_name,
        pairs,
    ));
    let mut j: usize = 0;
    while j < nr
        invariant
            records_upto(st0, c, assembled@, nr as int) is None ==> !transplant_ready(
                e0,
                asm_stem@,
                num_rodata,
                assembled@,
                stubs,
                rel_text_sh_name,
                pairs,
            ),
            e0 == old(compiled)@,
            stubs == string_views(stub_functions@),
            pairs == pair_views(symbol_sections@),
            c == (RecInput {
                code,
                text_idx: text_idx as int,
                rodata0,
                rel_text_name: rel_text_sh_name,
                rel_rodata_name,
            }),
            nr == rel_idx@.len(),
            nr < 3,
            nr == rel_indices_upto(assembled@.sections, assembled@.sections.len() as int).len(),
            forall|t: int|
                0 <= t < rel_idx@.len() ==> #[trigger] rel_idx@[t] as int == rel_indices_upto(
                    assembled@.sections,
                    assembled@.sections.len() as int,
                )[t] && rel_idx@[t] < assembled@.sections.len(),
            j <= nr,
            records_upto(st0, c, assembled@, j as int) == Some(
                rec_state(compiled@, asyms@, inserted, names@),
            ),
        decreases nr - j,
    {
        let si = rel_idx[j];
        assert(assembled@.sections[si as int] == assembled.sections@[si as int]@);
        if !add_record(
            compiled,
            &mut asyms,
            &mut inserted,
            &mut names,
            &assembled.sections[si],
            j,
            code,
            text_idx,
            rodata0,
            rel_text_sh_name,
            rel_rodata_name,
            Ghost(c),
        ) {
            proof {
                lemma_records_prefix(st0, c, assembled@, j + 1, nr as int);
            }
            return false;
        }
        j += 1;
    }
    // the relocations brought in line with the local symbols put in
    if inserted > 0 {
        let (ri, _r) = rel_sections(&compiled.sections);
        if !all_rel_entries_whole(&compiled.sections) || (ri.len() > 0 && rodata.len() == 0) || inserted
            > usize::MAX - 0xff_ffff {
            return false;
        }
        let mut extra = update_relocations(&mut compiled.sections, &rodata, &offsets, threshold, inserted);
        let ghost secs2 = section_views(compiled.sections@);
        let ghost ex = section_views(extra@);
        compiled.sections.append(&mut extra);
        assert(section_views(compiled.sections@) =~= secs2 + ex);
    }
    // the global symbols
    add_globals(compiled, &asyms, &names, code, text_idx);
    true
}

/// Puts the assembled object of function `asm_stem` into the compiled
/// object (see `transplant_outcome`): its code into the function's text
/// section, its data into the `num_rodata` .rodata sections after it, its
/// relocations as new REL sections (named at `rel_text_sh_name` for code
/// and `.rel.rodata` for data) pointing at symbols added for them, the
/// other relocations moved past any local symbols put in, and its global
/// symbols added. `stub_functions` are the functions that stand as stubs;
/// `symbol_sections` maps the compiled symbols' names to their sections.
pub fn transplant_asm_object(
    compiled: &mut Elf,
    asm_stem: &str,
    num_rodata: usize,
    assembled: &Elf,
    stub_functions: &Vec<String>,
    rel_text_sh_name: u32,
    symbol_sections: &Vec<(String, u16)>,
)
    requires
        transplant_ready(
            old(compiled)@,
            asm_stem@,
            num_rodata,
            assembled@,
            string_views(stub_functions@),
            rel_text_sh_name,
            pair_views(symbol_sections@),
        ),
    ensures
        final(compiled)@ == transplanted(
            old(compiled)@,
            asm_stem@,
            num_rodata,
            assembled@,
            string_views(stub_functions@),
            rel_text_sh_name,
            pair_views(symbol_sections@),
        ),
{
    try_transplant_asm_object(
        compiled,
        asm_stem,
        num_rodata,
        assembled,
        stub_functions,
        rel_text_sh_name,
        symbol_sections,
    );
}

proof fn lemma_rodata_after_from(secs: Seq<SectionView>, from: int, count: int)
    requires
        secs.len() <= usize::MAX,
    ensures
        forall|t: int|
            0 <= t < rodata_after(secs, from, count).len() ==> #[trigger] rodata_after(
                secs,
                from,
                count,
            )[t] >= from,
    decreases secs.len() - from,
{
    if from < secs.len() && from >= 0 {
        let c2 = if secs[from].name == ".rodata"@ && count > 1 {
            count - 1
        } else {
            count
        };
        lemma_rodata_after_from(secs, from + 1, c2);
        let r = rodata_after(secs, from, count);
        let rest = rodata_after(secs, from + 1, c2);
        if secs[from].name == ".rodata"@ {
            if count == 1 {
                assert(r =~= seq![from as usize]);
            } else {
                assert(r =~= seq![from as usize] + rest);
                assert forall|t: int| 0 <= t < r.len() implies #[trigger] r[t] >= from by {
                    if t > 0 {
                        assert(r[t] == rest[t - 1]);
                    }
                }
            }
        } else {
            assert(r == rest);
        }
    }
}

proof fn lemma_fill_keeps_others(secs: Seq<SectionView>, idxs: Seq<usize>, data: Seq<u8>, j: int)
    requires
        rodata_fill(secs, idxs, data) is Some,
        0 <= j < secs.len(),
        forall|t: int| 0 <= t < idxs.len() ==> idxs[t] != j,
    ensures
        (rodata_fill(secs, idxs, data)->0).0.len() == secs.len(),
        (rodata_fill(secs, idxs, data)->0).0[j] == secs[j],
    decreases idxs.len(),
{
    if idxs.len() > 0 {
        lemma_fill_keeps_others(secs, idxs.drop_last(), data, j);
    }
}

/// The sections of `e2` begin with those of `e1`, section `ti` unchanged.
pub open spec fn grows_keeping(e1: ElfView, e2: ElfView, ti: int) -> bool {
    &&& e1.sections.len() <= e2.sections.len()
    &&& e2.sections[ti] == e1.sections[ti]
}

proof fn lemma_rebound_keeps_sections(st0: RecState, c: RecInput, i: int, rs: Seq<RelocationView>, m: int)
    requires
        rebound_upto(st0, c, i, rs, m) is Some,
    ensures
        (rebound_upto(st0, c, i, rs, m)->0).0.e.sections == st0.e.sections,
    decreases m,
{
    if m > 0 {
        lemma_rebound_keeps_sections(st0, c, i, rs, m - 1);
    }
}

proof fn lemma_records_keep(st0: RecState, c: RecInput, assembled: ElfView, m: int, ti: int)
    requires
        records_upto(st0, c, assembled, m) is Some,
        0 <= ti < st0.e.sections.len(),
    ensures
        grows_keeping(st0.e, records_upto(st0, c, assembled, m)->0.e, ti),
    decreases m,
{
    if m > 0 {
        lemma_records_keep(st0, c, assembled, m - 1, ti);
        let st = records_upto(st0, c, assembled, m - 1)->0;
        let rel = assembled.sections[rel_indices_upto(
            assembled.sections,
            assembled.sections.len() as int,
        )[m - 1]];
        let rs = relocations_from_bytes(rel.data);
        lemma_rebound_keeps_sections(st, c, m - 1, rs, rs.len() as int);
    }
}

proof fn lemma_rel_updates_keep(
    secs0: Seq<SectionView>,
    m: int,
    rodata: Seq<usize>,
    ends: Seq<usize>,
    threshold: int,
    inserted: int,
    ti: int,
)
    requires
        0 <= m <= rel_indices_upto(secs0, secs0.len() as int).len(),
        0 <= ti < secs0.len(),
        secs0[ti].sh_type != SHT_REL,
    ensures
        rel_updates(secs0, m, rodata, ends, threshold, inserted).0.len() == secs0.len(),
        rel_updates(secs0, m, rodata, ends, threshold, inserted).0[ti] == secs0[ti],
    decreases m,
{
    if m > 0 {
        lemma_rel_updates_keep(secs0, m - 1, rodata, ends, threshold, inserted, ti);
        crate::splice::lemma_rel_indices(secs0, secs0.len() as int);
        let (secs, extra) = rel_updates(secs0, m - 1, rodata, ends, threshold, inserted);
        let idx = rel_indices_upto(secs0, secs0.len() as int)[m - 1];
        let rs = secs0[idx];
        lemma_first_from(0, secs.len() as int, crate::splice::same_keys(secs, rs));
    }
}

/// Where there is code and the function is a stub, its text section (the
/// section of the first symbol named `stem`, where that is not a REL
/// section) ends up holding the first bytes of the assembled code, as many
/// as it held, padded with zeros to its `sh_size`; nothing later changes
/// it.
pub proof fn law_transplant_puts_code_in_function_section(
    e: ElfView,
    stem: Seq<char>,
    num_rodata: usize,
    assembled: ElfView,
    stubs: Seq<Seq<char>>,
    rel_text_name: u32,
    sym_sections: Seq<(Seq<char>, u16)>,
    i: int,
)
    requires
        e.sections.len() <= usize::MAX,
        transplant_ready(e, stem, num_rodata, assembled, stubs, rel_text_name, sym_sections),
        asm_text(assembled).len() > 0,
        stubs.contains(stem),
        symbol_named(e.symtab.symbols, stem) == Some(i),
        e.sections[e.symtab.symbols[i].st_shndx as int].sh_type != SHT_REL,
    ensures
        ({
            let ti = e.symtab.symbols[i].st_shndx as int;
            let sec = e.sections[ti];
            transplanted(e, stem, num_rodata, assembled, stubs, rel_text_name, sym_sections).sections[ti]
                == SectionView {
                data: asm_text(assembled).take(sec.data.len() as int) + zeros(
                    sec.sh_size - sec.data.len(),
                ),
                ..sec
            }
        }),
{
    let ti = e.symtab.symbols[i].st_shndx as int;
    let p = placed(e, stem, num_rodata, assembled, sym_sections)->0;
    let f = rodata_filled(p, num_rodata, assembled)->0;
    assert(p.text_idx == ti);
    if num_rodata > 0 {
        lemma_rodata_after_from(e.sections, ti + 1, num_rodata as int);
        let ars = rodata_after(assembled.sections, 0, 0);
        lemma_fill_keeps_others(p.e.sections, p.rodata, assembled.sections[ars[0] as int].data, ti);
    }
    assert(f.e.sections[ti] == p.e.sections[ti]);
    let code = true;
    let c = RecInput {
        code,
        text_idx: p.text_idx,
        rodata0: if p.rodata.len() > 0 {
            Some(p.rodata[0])
        } else {
            None
        },
        rel_text_name,
        rel_rodata_name: f.rel_rodata_name,
    };
    let st0 = RecState { e: f.e, asyms: assembled.symtab.symbols, inserted: 0, names: Seq::empty() };
    let n_rel = rel_indices_upto(assembled.sections, assembled.sections.len() as int).len();
    lemma_records_keep(st0, c, assembled, n_rel as int, ti);
    let st = records_upto(st0, c, assembled, n_rel as int)->0;
    if st.inserted != 0 {
        let secs = st.e.sections;
        lemma_rel_updates_keep(
            secs,
            rel_indices_upto(secs, secs.len() as int).len() as int,
            p.rodata,
            f.offsets,
            f.e.symtab.section.sh_info as int,
            st.inserted,
            ti,
        );
    }
    lemma_globals_keep_sections(st, code, p.text_idx);
}

proof fn lemma_globals_keep_sections_upto(
    e0: ElfView,
    asyms: Seq<SymbolView>,
    names: Seq<Seq<char>>,
    code: bool,
    text_idx: int,
    m: int,
)
    ensures
        globals_upto(e0, asyms, names, code, text_idx, m).sections == e0.sections,
    decreases m,
{
    if m > 0 {
        lemma_globals_keep_sections_upto(e0, asyms, names, code, text_idx, m - 1);
    }
}

proof fn lemma_globals_keep_sections(st: RecState, code: bool, text_idx: int)
    ensures
        forall|e4: ElfView|
            #![trigger globals_upto(e4, st.asyms, st.names, code, text_idx, st.asyms.len() as int)]
            globals_upto(e4, st.asyms, st.names, code, text_idx, st.asyms.len() as int).sections
                == e4.sections,
{
    assert forall|e4: ElfView|
        #![trigger globals_upto(e4, st.asyms, st.names, code, text_idx, st.asyms.len() as int)]
        globals_upto(e4, st.asyms, st.names, code, text_idx, st.asyms.len() as int).sections
            == e4.sections by {
        lemma_globals_keep_sections_upto(e4, st.asyms, st.names, code, text_idx, st.asyms.len() as int);
    }
}

} // verus!
