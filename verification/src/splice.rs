//! The steps of putting assembled code and data into a compiled C object:
//! relocations moved to the sections they fall in, symbol indices moved
//! past inserted symbols, bytes written over the stubs, stub symbols merged
//! into their undefined slots.
use vstd::prelude::*;
use vstd::bytes::{spec_u32_from_le_bytes, spec_u32_to_le_bytes, u32_from_le_bytes, u32_to_le_bytes};
use crate::elf::object::{Elf, ElfView, section_views};
use crate::elf::section::{
    Relocation, RelocationView, Section, SectionView, SHT_REL, pack_relocations, relocation_bytes,
    relocation_views, relocations_bytes, relocations_from_bytes, with_symbol_index,
};
use crate::elf::symbol::{Symbol, SymbolView, spec_bind, symbol_views};
use crate::split::{first_from, lemma_first_from, lemma_first_from_at, lemma_first_from_none};

verus! {

/// The section a relocation at offset `off` falls in, given the offsets
/// where the sections end: the first one that ends past it.
pub open spec fn section_of_offset(off: u32, ends: Seq<usize>) -> Option<int> {
    first_from(0, ends.len() as int, |i: int| off < ends[i] as u32)
}

/// The first section that ends past `off` (see `section_of_offset`).
pub fn find_section_for_offset(off: u32, ends: &Vec<usize>) -> (r: Option<usize>)
    ensures
        match section_of_offset(off, ends@) {
            Some(i) => r == Some(i as usize),
            None => r is None,
        },
{
    let ghost p = |i: int| off < ends@[i] as u32;
    let n = ends.len();
    let mut i: usize = 0;
    while i < n
        invariant
            n == ends@.len(),
            i <= n,
            p == (|i: int| off < ends@[i] as u32),
            forall|j: int| #![trigger p(j)] 0 <= j < i ==> !p(j),
        decreases n - i,
    {
        if off < ends[i] as u32 {
            proof {
                lemma_first_from_at(0, i as int, n as int, p);
            }
            return Some(i);
        }
        i += 1;
    }
    proof {
        lemma_first_from_none(0, n as int, p);
    }
    None
}

/// The relocations `rs` sorted into the sections that end at `ends`, each
/// made relative to the start of its section (the end of the one before);
/// a relocation past the last end goes nowhere.
pub open spec fn distributed(rs: Seq<RelocationView>, ends: Seq<usize>) -> Seq<Seq<RelocationView>>
    decreases rs.len(),
{
    if rs.len() == 0 {
        Seq::new(ends.len(), |i: int| Seq::<RelocationView>::empty())
    } else {
        let d = distributed(rs.drop_last(), ends);
        let r = rs.last();
        match section_of_offset(r.r_offset, ends) {
            Some(i) => {
                let moved = if i > 0 {
                    RelocationView { r_offset: (r.r_offset - ends[i - 1] as u32) as u32, ..r }
                } else {
                    r
                };
                d.update(i, d[i].push(moved))
            },
            None => d,
        }
    }
}

proof fn lemma_distributed_len(rs: Seq<RelocationView>, ends: Seq<usize>)
    ensures
        distributed(rs, ends).len() == ends.len(),
    decreases rs.len(),
{
    if rs.len() > 0 {
        lemma_distributed_len(rs.drop_last(), ends);
        lemma_first_from(0, ends.len() as int, |i: int| rs.last().r_offset < ends[i] as u32);
    }
}

/// Sorts the relocations of a .rodata REL section into the .rodata sections
/// that end at `ends` (see `distributed`).
pub fn distribute_relocations(relocations: &Vec<Relocation>, ends: &Vec<usize>) -> (r: Vec<
    Vec<Relocation>,
>)
    ensures
        r@.len() == ends@.len(),
        forall|i: int|
            0 <= i < r@.len() ==> relocation_views((#[trigger] r@[i])@) == distributed(
                relocation_views(relocations@),
                ends@,
            )[i],
{
    let n = ends.len();
    let mut out: Vec<Vec<Relocation>> = Vec::new();
    let mut k: usize = 0;
    while k < n
        invariant
            n == ends@.len(),
            k <= n,
            out@.len() == k,
            forall|i: int| 0 <= i < k ==> (#[trigger] out@[i])@.len() == 0,
        decreases n - k,
    {
        out.push(Vec::new());
        k += 1;
    }
    let ghost rv = relocation_views(relocations@);
    assert(rv.take(0) =~= Seq::<RelocationView>::empty());
    let m = relocations.len();
    let mut j: usize = 0;
    while j < m
        invariant
            m == relocations@.len(),
            rv == relocation_views(relocations@),
            n == ends@.len(),
            j <= m,
            out@.len() == n,
            forall|i: int|
                0 <= i < n ==> relocation_views((#[trigger] out@[i])@) == distributed(
                    rv.take(j as int),
                    ends@,
                )[i],
        decreases m - j,
    {
        let ghost d = distributed(rv.take(j as int), ends@);
        proof {
            lemma_distributed_len(rv.take(j as int), ends@);
            assert(rv.take(j + 1).drop_last() =~= rv.take(j as int));
            assert(rv.take(j + 1).last() == relocations@[j as int]@);
        }
        let off = relocations[j].r_offset;
        match find_section_for_offset(off, ends) {
            Some(i) => {
                let mut moved = relocations[j].duplicate();
                let ghost p = |q: int| off < ends@[q] as u32;
                proof {
                    lemma_first_from(0, n as int, p);
                    assert(section_of_offset(off, ends@) == Some(i as int));
                }
                if i > 0 {
                    proof {
                        assert(!p(i - 1));
                    }
                    moved.r_offset = moved.r_offset - ends[i - 1] as u32;
                }
                let ghost old_out = out@;
                let mut bucket = Vec::new();
                std::mem::swap(&mut bucket, &mut out[i]);
                let ghost before = bucket@;
                assert(before == old_out[i as int]@);
                bucket.push(moved);
                assert(relocation_views(bucket@) =~= relocation_views(before).push(moved@));
                out.set(i, bucket);
                proof {
                    assert(moved@ == (if i > 0 {
                        RelocationView { r_offset: (relocations@[j as int]@.r_offset - ends@[i - 1] as u32) as u32, ..relocations@[j as int]@ }
                    } else {
                        relocations@[j as int]@
                    }));
                    assert(distributed(rv.take(j + 1), ends@) == d.update(i as int, d[i as int].push(moved@)));
                    assert forall|q: int| 0 <= q < n implies relocation_views((#[trigger] out@[q])@)
                        == distributed(rv.take(j + 1), ends@)[q] by {
                        if q != i {
                            assert(out@[q] == old_out[q]);
                        } else {
                            assert(out@[q]@ == bucket@);
                        }
                    }
                }
            },
            None => {},
        }
        j += 1;
    }
    assert(rv.take(m as int) =~= rv);
    out
}

/// A relocation's symbol index moved past `inserted` new symbols where it
/// is at or past `threshold`.
pub open spec fn shifted_index(index: int, threshold: int, inserted: int) -> int {
    if index >= threshold {
        index + inserted
    } else {
        index
    }
}

/// The symbol index moved past `inserted` new symbols where it is at or
/// past `threshold` (the first global symbol before the insertion).
pub fn shift_symbol_index(index: usize, threshold: usize, inserted: usize) -> (r: usize)
    requires
        index >= threshold ==> index + inserted <= usize::MAX,
    ensures
        r as int == shifted_index(index as int, threshold as int, inserted as int),
{
    if index >= threshold {
        index + inserted
    } else {
        index
    }
}

/// Points every relocation whose symbol index is at or past `threshold`
/// `inserted` symbols further on; the rest stay as they are.
pub fn shift_relocations(relocations: &mut Vec<Relocation>, threshold: usize, inserted: usize)
    requires
        forall|i: int|
            0 <= i < old(relocations)@.len() ==> (#[trigger] old(relocations)@[i]).r_info >> 8u32
                >= threshold ==> (old(relocations)@[i].r_info >> 8u32) + inserted <= usize::MAX,
    ensures
        final(relocations)@.len() == old(relocations)@.len(),
        forall|i: int|
            0 <= i < final(relocations)@.len() ==> {
                let a = #[trigger] final(relocations)@[i];
                let b = old(relocations)@[i];
                let idx = (b.r_info >> 8u32) as int;
                &&& a.r_offset == b.r_offset
                &&& a.symbol@ == b.symbol@
                &&& a.r_info == if idx >= threshold {
                    with_symbol_index(b.r_info, (idx + inserted) as u32)
                } else {
                    b.r_info
                }
            },
{
    let n = relocations.len();
    let mut i: usize = 0;
    while i < n
        invariant
            n == relocations@.len(),
            n == old(relocations)@.len(),
            i <= n,
            forall|q: int|
                0 <= q < old(relocations)@.len() ==> (#[trigger] old(relocations)@[q]).r_info >> 8u32
                    >= threshold ==> (old(relocations)@[q].r_info >> 8u32) + inserted <= usize::MAX,
            forall|q: int| i <= q < n ==> #[trigger] relocations@[q] == old(relocations)@[q],
            forall|q: int|
                0 <= q < i ==> {
                    let a = #[trigger] relocations@[q];
                    let b = old(relocations)@[q];
                    let idx = (b.r_info >> 8u32) as int;
                    &&& a.r_offset == b.r_offset
                    &&& a.symbol@ == b.symbol@
                    &&& a.r_info == if idx >= threshold {
                        with_symbol_index(b.r_info, (idx + inserted) as u32)
                    } else {
                        b.r_info
                    }
                },
        decreases n - i,
    {
        let mut r = relocations[i].duplicate();
        let idx = r.symbol_index();
        if idx >= threshold {
            r.set_symbol_index((idx + inserted) as u32);
        }
        relocations.set(i, r);
        i += 1;
    }
}

/// The last index below `n` that satisfies `p`.
pub open spec fn last_below(n: int, p: spec_fn(int) -> bool) -> Option<int>
    decreases n,
{
    if n <= 0 {
        None
    } else if p(n - 1) {
        Some(n - 1)
    } else {
        last_below(n - 1, p)
    }
}

proof fn lemma_last_below(n: int, p: spec_fn(int) -> bool)
    ensures
        last_below(n, p) matches Some(k) ==> 0 <= k < n && p(k) && forall|j: int|
            #![trigger p(j)] k < j < n ==> !p(j),
        last_below(n, p) is None ==> forall|j: int| #![trigger p(j)] 0 <= j < n ==> !p(j),
    decreases n,
{
    if n > 0 && !p(n - 1) {
        lemma_last_below(n - 1, p);
    }
}

/// Symbol `j` is a definition of the name of symbol `i`.
pub open spec fn defines(syms: Seq<SymbolView>, i: int) -> spec_fn(int) -> bool {
    |j: int| syms[j].name == syms[i].name && syms[j].st_shndx != 0
}

/// The defined symbol that the undefined symbol `i` is merged with: the
/// first defined symbol of the same (non-empty) name.
pub open spec fn und_def(syms: Seq<SymbolView>, i: int) -> Option<int> {
    if syms[i].st_shndx == 0 && syms[i].name.len() > 0 {
        first_from(0, syms.len() as int, defines(syms, i))
    } else {
        None
    }
}

/// Some undefined symbol has a definition to merge.
pub open spec fn has_merge(syms: Seq<SymbolView>) -> bool {
    exists|i: int| 0 <= i < syms.len() && (#[trigger] und_def(syms, i)) is Some
}

/// Symbol `j` is a definition merged into an undefined slot.
pub open spec fn merged_away(syms: Seq<SymbolView>, j: int) -> bool {
    exists|i: int| 0 <= i < syms.len() && #[trigger] und_def(syms, i) == Some(j)
}

/// The last undefined slot that definition `j` is merged into.
pub open spec fn last_und(syms: Seq<SymbolView>, j: int) -> int {
    last_below(syms.len() as int, merges_into(syms, j))->0
}

/// Undefined symbol `i` merges with definition `j`.
pub open spec fn merges_into(syms: Seq<SymbolView>, j: int) -> spec_fn(int) -> bool {
    |i: int| und_def(syms, i) == Some(j)
}

/// The number of symbols before `j` that stay.
pub open spec fn kept_before(syms: Seq<SymbolView>, j: int) -> int
    decreases j,
{
    if j <= 0 {
        0
    } else {
        kept_before(syms, j - 1) + if merged_away(syms, j - 1) {
            0int
        } else {
            1int
        }
    }
}

/// Where symbol `j` ends up: a merged definition where its (last)
/// undefined slot ends up, another symbol after the ones before it that
/// stay.
pub open spec fn new_index(syms: Seq<SymbolView>, j: int) -> int {
    if merged_away(syms, j) {
        kept_before(syms, last_und(syms, j))
    } else {
        kept_before(syms, j)
    }
}

/// Symbol `i` after merging: an undefined symbol with a definition takes
/// the definition's fields but keeps its own name offset.
pub open spec fn merged_symbol(syms: Seq<SymbolView>, i: int) -> SymbolView {
    match und_def(syms, i) {
        Some(d) => SymbolView { st_name: syms[i].st_name, ..syms[d] },
        None => syms[i],
    }
}

/// The first `m` symbols after merging, without the merged definitions.
pub open spec fn merged_upto(syms: Seq<SymbolView>, m: int) -> Seq<SymbolView>
    decreases m,
{
    if m <= 0 {
        Seq::empty()
    } else {
        merged_upto(syms, m - 1) + if merged_away(syms, m - 1) {
            Seq::empty()
        } else {
            seq![merged_symbol(syms, m - 1)]
        }
    }
}

/// A relocation's `r_info` pointed at where its symbol ends up; an index
/// past the symbol table is left alone.
pub open spec fn remapped_info(syms: Seq<SymbolView>, info: u32) -> u32 {
    let idx = (info >> 8u32) as int;
    if idx < syms.len() {
        ((new_index(syms, idx) as u32) << 8u32) | (info & 0xffu32)
    } else {
        info
    }
}

/// A REL section's data with every entry pointed at where its symbol ends
/// up.
pub open spec fn remapped_rel_data(syms: Seq<SymbolView>, data: Seq<u8>) -> Seq<u8> {
    relocations_bytes(
        relocations_from_bytes(data).map_values(
            |r: RelocationView| RelocationView { r_info: remapped_info(syms, r.r_info), ..r },
        ),
    )
}

/// The index of the first symbol that is not local, or the number of
/// symbols.
pub open spec fn first_global(syms: Seq<SymbolView>) -> int {
    match first_from(0, syms.len() as int, |k: int| spec_bind(syms[k].st_info) != 0) {
        Some(k) => k,
        None => syms.len() as int,
    }
}

/// The object after its stub definitions are merged into their undefined
/// slots (see `merge_stub_symbols`).
pub open spec fn merged_object(elf: ElfView) -> ElfView {
    let syms = elf.symtab.symbols;
    if !has_merge(syms) {
        elf
    } else {
        let new_syms = merged_upto(syms, syms.len() as int);
        ElfView {
            sections: Seq::new(
                elf.sections.len(),
                |k: int|
                    if elf.sections[k].sh_type == SHT_REL {
                        SectionView {
                            data: remapped_rel_data(syms, elf.sections[k].data),
                            ..elf.sections[k]
                        }
                    } else {
                        elf.sections[k]
                    },
            ),
            symtab: crate::elf::object::SymTabView {
                section: SectionView {
                    sh_info: first_global(new_syms) as u32,
                    ..elf.symtab.section
                },
                symbols: new_syms,
            },
            ..elf
        }
    }
}

/// The definition that undefined symbol `i` merges with (see `und_def`).
fn find_und_def(syms: &Vec<Symbol>, i: usize) -> (r: Option<usize>)
    requires
        i < syms@.len(),
    ensures
        match und_def(symbol_views(syms@), i as int) {
            Some(d) => r == Some(d as usize),
            None => r is None,
        },
{
    let ghost sv = symbol_views(syms@);
    if syms[i].st_shndx != 0 || syms[i].name.as_str().is_empty() {
        proof {
            if syms@[i as int].name@.len() == 0 {
                assert(sv[i as int].name.len() == 0);
            }
        }
        return None;
    }
    assert(sv[i as int] == syms@[i as int]@);
    let ghost p = defines(sv, i as int);
    let n = syms.len();
    let mut j: usize = 0;
    while j < n
        invariant
            n == syms@.len(),
            sv == symbol_views(syms@),
            i < n,
            j <= n,
            p == defines(sv, i as int),
            sv[i as int].st_shndx == 0,
            sv[i as int].name.len() > 0,
            forall|k: int| #![trigger p(k)] 0 <= k < j ==> !p(k),
        decreases n - j,
    {
        assert(sv[j as int] == syms@[j as int]@);
        if syms[j].name == syms[i].name && syms[j].st_shndx != 0 {
            proof {
                lemma_first_from_at(0, j as int, n as int, p);
            }
            return Some(j);
        }
        j += 1;
    }
    proof {
        lemma_first_from_none(0, n as int, p);
    }
    None
}

/// The definition each symbol merges with.
fn und_defs(syms: &Vec<Symbol>) -> (r: Vec<Option<usize>>)
    ensures
        r@.len() == syms@.len(),
        forall|i: int|
            0 <= i < r@.len() ==> match und_def(symbol_views(syms@), i) {
                Some(d) => #[trigger] r@[i] == Some(d as usize),
                None => r@[i] is None,
            },
{
    let n = syms.len();
    let mut r: Vec<Option<usize>> = Vec::new();
    let mut i: usize = 0;
    while i < n
        invariant
            n == syms@.len(),
            i <= n,
            r@.len() == i,
            forall|k: int|
                0 <= k < i ==> match und_def(symbol_views(syms@), k) {
                    Some(d) => #[trigger] r@[k] == Some(d as usize),
                    None => r@[k] is None,
                },
        decreases n - i,
    {
        let d = find_und_def(syms, i);
        r.push(d);
        i += 1;
    }
    r
}

proof fn lemma_und_def_bound(syms: Seq<SymbolView>, i: int)
    ensures
        und_def(syms, i) matches Some(d) ==> 0 <= d < syms.len() && syms[d].st_shndx != 0
            && syms[d].name == syms[i].name && syms[i].st_shndx == 0,
{
    lemma_first_from(0, syms.len() as int, defines(syms, i));
}

/// Which symbols are merged away, and for each, its last undefined slot.
fn merge_marks(defs: &Vec<Option<usize>>, Ghost(sv): Ghost<Seq<SymbolView>>) -> (r: (Vec<bool>, Vec<usize>))
    requires
        defs@.len() == sv.len(),
        forall|i: int|
            0 <= i < defs@.len() ==> match und_def(sv, i) {
                Some(d) => #[trigger] defs@[i] == Some(d as usize),
                None => defs@[i] is None,
            },
    ensures
        r.0@.len() == sv.len(),
        r.1@.len() == sv.len(),
        forall|j: int| 0 <= j < sv.len() ==> #[trigger] r.0@[j] == merged_away(sv, j),
        forall|j: int| 0 <= j < sv.len() && r.0@[j] ==> #[trigger] r.1@[j] as int == last_und(sv, j),
{
    let n = defs.len();
    let mut removed: Vec<bool> = Vec::new();
    let mut last: Vec<usize> = Vec::new();
    let mut k: usize = 0;
    while k < n
        invariant
            k <= n,
            removed@.len() == k,
            last@.len() == k,
            forall|j: int| 0 <= j < k ==> !(#[trigger] removed@[j]),
        decreases n - k,
    {
        removed.push(false);
        last.push(0);
        k += 1;
    }
    let mut i: usize = 0;
    while i < n
        invariant
            n == defs@.len(),
            n == sv.len(),
            forall|q: int|
                0 <= q < defs@.len() ==> match und_def(sv, q) {
                    Some(d) => #[trigger] defs@[q] == Some(d as usize),
                    None => defs@[q] is None,
                },
            i <= n,
            removed@.len() == n,
            last@.len() == n,
            forall|j: int|
                0 <= j < n ==> #[trigger] removed@[j] == (last_below(i as int, merges_into(sv, j)) is Some),
            forall|j: int|
                0 <= j < n && removed@[j] ==> #[trigger] last@[j] as int == last_below(
                    i as int,
                    merges_into(sv, j),
                )->0,
        decreases n - i,
    {
        proof {
            lemma_und_def_bound(sv, i as int);
            assert(defs@[i as int] == match und_def(sv, i as int) {
                Some(d) => Some(d as usize),
                None => None::<usize>,
            });
        }
        match defs[i] {
            Some(d) => {
                removed.set(d, true);
                last.set(d, i);
            },
            None => {},
        }
        proof {
            assert forall|j: int| 0 <= j < n implies #[trigger] removed@[j] == (last_below(
                i + 1,
                merges_into(sv, j),
            ) is Some) by {
                assert(merges_into(sv, j)(i as int) == (und_def(sv, i as int) == Some(j)));
            }
            assert forall|j: int| 0 <= j < n && removed@[j] implies #[trigger] last@[j] as int
                == last_below(i + 1, merges_into(sv, j))->0 by {
                assert(merges_into(sv, j)(i as int) == (und_def(sv, i as int) == Some(j)));
            }
        }
        i += 1;
    }
    proof {
        assert forall|j: int| 0 <= j < n implies #[trigger] removed@[j] == merged_away(sv, j) by {
            lemma_last_below(n as int, merges_into(sv, j));
            if merged_away(sv, j) {
                let w = choose|q: int| 0 <= q < sv.len() && #[trigger] und_def(sv, q) == Some(j);
                assert(merges_into(sv, j)(w));
            }
            if removed@[j] {
                let w = last_below(n as int, merges_into(sv, j))->0;
                assert(merges_into(sv, j)(w));
                assert(und_def(sv, w) == Some(j));
            }
        }
    }
    (removed, last)
}

proof fn lemma_kept_before_bound(syms: Seq<SymbolView>, j: int)
    requires
        0 <= j,
    ensures
        0 <= kept_before(syms, j) <= j,
    decreases j,
{
    if j > 0 {
        lemma_kept_before_bound(syms, j - 1);
    }
}

/// Where each symbol ends up (see `new_index`).
fn index_map(removed: &Vec<bool>, last: &Vec<usize>, Ghost(sv): Ghost<Seq<SymbolView>>) -> (r: Vec<usize>)
    requires
        removed@.len() == sv.len(),
        last@.len() == sv.len(),
        forall|j: int| 0 <= j < sv.len() ==> #[trigger] removed@[j] == merged_away(sv, j),
        forall|j: int| 0 <= j < sv.len() && removed@[j] ==> #[trigger] last@[j] as int == last_und(sv, j),
    ensures
        r@.len() == sv.len(),
        forall|j: int| 0 <= j < sv.len() ==> #[trigger] r@[j] as int == new_index(sv, j),
{
    let n = removed.len();
    let mut rank: Vec<usize> = Vec::new();
    let mut count: usize = 0;
    let mut j: usize = 0;
    while j < n
        invariant
            n == sv.len(),
            removed@.len() == n,
            forall|q: int| 0 <= q < sv.len() ==> #[trigger] removed@[q] == merged_away(sv, q),
            j <= n,
            rank@.len() == j,
            count as int == kept_before(sv, j as int),
            count <= j,
            forall|q: int| 0 <= q < j ==> #[trigger] rank@[q] as int == kept_before(sv, q),
        decreases n - j,
    {
        rank.push(count);
        if !removed[j] {
            count += 1;
        }
        j += 1;
    }
    let mut r: Vec<usize> = Vec::new();
    let mut k: usize = 0;
    while k < n
        invariant
            n == sv.len(),
            removed@.len() == n,
            last@.len() == n,
            rank@.len() == n,
            forall|q: int| 0 <= q < sv.len() ==> #[trigger] removed@[q] == merged_away(sv, q),
            forall|q: int| 0 <= q < sv.len() && removed@[q] ==> #[trigger] last@[q] as int == last_und(sv, q),
            forall|q: int| 0 <= q < n ==> #[trigger] rank@[q] as int == kept_before(sv, q),
            k <= n,
            r@.len() == k,
            forall|q: int| 0 <= q < k ==> #[trigger] r@[q] as int == new_index(sv, q),
        decreases n - k,
    {
        if removed[k] {
            proof {
                lemma_last_below(n as int, merges_into(sv, k as int));
                let w = choose|q: int| 0 <= q < sv.len() && #[trigger] und_def(sv, q) == Some(k as int);
                assert(merges_into(sv, k as int)(w));
            }
            let u = last[k];
            r.push(rank[u]);
        } else {
            r.push(rank[k]);
        }
        k += 1;
    }
    r
}

/// The symbols after merging, without the merged definitions (see
/// `merged_upto`).
fn merged_list(syms: &Vec<Symbol>, defs: &Vec<Option<usize>>, removed: &Vec<bool>) -> (r: Vec<Symbol>)
    requires
        defs@.len() == syms@.len(),
        removed@.len() == syms@.len(),
        forall|i: int|
            0 <= i < defs@.len() ==> match und_def(symbol_views(syms@), i) {
                Some(d) => #[trigger] defs@[i] == Some(d as usize),
                None => defs@[i] is None,
            },
        forall|j: int| 0 <= j < syms@.len() ==> #[trigger] removed@[j] == merged_away(symbol_views(syms@), j),
    ensures
        symbol_views(r@) == merged_upto(symbol_views(syms@), syms@.len() as int),
{
    let ghost sv = symbol_views(syms@);
    let n = syms.len();
    let mut out: Vec<Symbol> = Vec::new();
    let mut i: usize = 0;
    while i < n
        invariant
            n == syms@.len(),
            sv == symbol_views(syms@),
            defs@.len() == n,
            removed@.len() == n,
            forall|q: int|
                0 <= q < defs@.len() ==> match und_def(sv, q) {
                    Some(d) => #[trigger] defs@[q] == Some(d as usize),
                    None => defs@[q] is None,
                },
            forall|q: int| 0 <= q < n ==> #[trigger] removed@[q] == merged_away(sv, q),
            i <= n,
            symbol_views(out@) == merged_upto(sv, i as int),
        decreases n - i,
    {
        proof {
            lemma_und_def_bound(sv, i as int);
            assert(defs@[i as int] == match und_def(sv, i as int) {
                Some(d) => Some(d as usize),
                None => None::<usize>,
            });
        }
        if !removed[i] {
            let s = match defs[i] {
                Some(d) => {
                    let mut m = syms[d].duplicate();
                    m.st_name = syms[i].st_name;
                    m
                },
                None => syms[i].duplicate(),
            };
            assert(s@ == merged_symbol(sv, i as int));
            let ghost before = symbol_views(out@);
            out.push(s);
            assert(symbol_views(out@) =~= before + seq![merged_symbol(sv, i as int)]);
        } else {
            assert(merged_upto(sv, i + 1) =~= merged_upto(sv, i as int));
        }
        i += 1;
    }
    out
}

/// A REL section's data with every entry pointed at where its symbol ends
/// up (see `remapped_rel_data`).
fn remap_rel_data(data: &Vec<u8>, map: &Vec<usize>, Ghost(sv): Ghost<Seq<SymbolView>>) -> (r: Vec<u8>)
    requires
        data@.len() % 8 == 0,
        map@.len() == sv.len(),
        forall|j: int| 0 <= j < sv.len() ==> #[trigger] map@[j] as int == new_index(sv, j),
    ensures
        r@ == remapped_rel_data(sv, data@),
{
    let mut rs = Relocation::unpack_all(data.as_slice());
    let ghost orig = relocation_views(rs@);
    let n = rs.len();
    let mut i: usize = 0;
    while i < n
        invariant
            n == rs@.len(),
            orig.len() == n,
            map@.len() == sv.len(),
            forall|j: int| 0 <= j < sv.len() ==> #[trigger] map@[j] as int == new_index(sv, j),
            i <= n,
            forall|q: int| i <= q < n ==> (#[trigger] rs@[q])@ == orig[q],
            forall|q: int|
                0 <= q < i ==> (#[trigger] rs@[q])@ == (RelocationView {
                    r_info: remapped_info(sv, orig[q].r_info),
                    ..orig[q]
                }),
        decreases n - i,
    {
        let mut r = rs[i].duplicate();
        let idx = (r.r_info >> 8) as usize;
        if idx < map.len() {
            r.r_info = ((map[idx] as u32) << 8) | (r.r_info & 0xff);
        }
        rs.set(i, r);
        i += 1;
    }
    proof {
        assert(relocation_views(rs@) =~= orig.map_values(
            |r: RelocationView| RelocationView { r_info: remapped_info(sv, r.r_info), ..r },
        ));
    }
    pack_relocations(&rs)
}

/// The index of the first symbol that is not local, or the number of
/// symbols (what a symbol table's `sh_info` holds).
pub fn first_global_index(syms: &Vec<Symbol>) -> (r: usize)
    ensures
        r as int == first_global(symbol_views(syms@)),
{
    let ghost sv = symbol_views(syms@);
    let ghost p = |k: int| spec_bind(sv[k].st_info) != 0;
    let n = syms.len();
    let mut k: usize = 0;
    while k < n
        invariant
            n == syms@.len(),
            sv == symbol_views(syms@),
            p == (|k: int| spec_bind(sv[k].st_info) != 0),
            k <= n,
            forall|j: int| #![trigger p(j)] 0 <= j < k ==> !p(j),
        decreases n - k,
    {
        assert(sv[k as int] == syms@[k as int]@);
        if syms[k].bind() != 0 {
            proof {
                lemma_first_from_at(0, k as int, n as int, p);
            }
            return k;
        }
        k += 1;
    }
    proof {
        lemma_first_from_none(0, n as int, p);
    }
    n
}

/// Every REL section holds whole 8-byte entries.
pub open spec fn rel_entries_whole(elf: ElfView) -> bool {
    forall|k: int|
        0 <= k < elf.sections.len() && (#[trigger] elf.sections[k]).sh_type == SHT_REL
            ==> elf.sections[k].data.len() % 8 == 0
}

/// Moves each defined stub symbol into the undefined slot of the same name
/// (the slot keeps its name offset, so the symbol keeps the earlier
/// position the compiler would have given it natively), drops the moved
/// definitions from the symbol table, points every relocation at where its
/// symbol ends up, and sets the table's `sh_info` to its first non-local
/// symbol. Nothing changes where no undefined symbol has a definition.
pub fn merge_stub_symbols(elf: &mut Elf)
    requires
        has_merge(old(elf)@.symtab.symbols) ==> rel_entries_whole(old(elf)@),
    ensures
        final(elf)@ == merged_object(old(elf)@),
{
    let ghost e0 = elf@;
    let ghost sv = e0.symtab.symbols;
    let defs = und_defs(&elf.symtab.symbols);
    let n = defs.len();
    let mut any = false;
    let mut i: usize = 0;
    while i < n
        invariant
            n == defs@.len(),
            n == sv.len(),
            sv == e0.symtab.symbols,
            e0 == elf@,
            forall|q: int|
                0 <= q < defs@.len() ==> match und_def(sv, q) {
                    Some(d) => #[trigger] defs@[q] == Some(d as usize),
                    None => defs@[q] is None,
                },
            i <= n,
            any == exists|q: int| 0 <= q < i && (#[trigger] und_def(sv, q)) is Some,
        decreases n - i,
    {
        if defs[i].is_some() {
            any = true;
        }
        proof {
            assert(defs@[i as int] is Some == und_def(sv, i as int) is Some);
        }
        i += 1;
    }
    if !any {
        return;
    }
    let (removed, last) = merge_marks(&defs, Ghost(sv));
    let map = index_map(&removed, &last, Ghost(sv));
    let new_syms = merged_list(&elf.symtab.symbols, &defs, &removed);
    let ns = elf.sections.len();
    let mut k: usize = 0;
    while k < ns
        invariant
            ns == elf.sections@.len(),
            ns == e0.sections.len(),
            rel_entries_whole(e0),
            map@.len() == sv.len(),
            forall|j: int| 0 <= j < sv.len() ==> #[trigger] map@[j] as int == new_index(sv, j),
            k <= ns,
            forall|q: int| k <= q < ns ==> (#[trigger] elf.sections@[q])@ == e0.sections[q],
            forall|q: int|
                0 <= q < k ==> (#[trigger] elf.sections@[q])@ == (if e0.sections[q].sh_type == SHT_REL {
                    SectionView { data: remapped_rel_data(sv, e0.sections[q].data), ..e0.sections[q] }
                } else {
                    e0.sections[q]
                }),
            elf.symtab == old(elf).symtab,
            elf.header == old(elf).header,
            elf.strtab == old(elf).strtab,
            elf.shstrtab == old(elf).shstrtab,
            elf.symtab_idx == old(elf).symtab_idx,
            elf.strtab_idx == old(elf).strtab_idx,
            elf.shstrtab_idx == old(elf).shstrtab_idx,
        decreases ns - k,
    {
        if elf.sections[k].sh_type == SHT_REL {
            let mut sec = elf.sections[k].duplicate();
            assert(sec@ == e0.sections[k as int]);
            sec.data = remap_rel_data(&sec.data, &map, Ghost(sv));
            elf.sections.set(k, sec);
        }
        k += 1;
    }
    let first = first_global_index(&new_syms);
    elf.symtab.symbols = new_syms;
    elf.symtab.section.sh_info = first as u32;
    proof {
        let target = merged_object(e0);
        assert(elf@.sections =~= target.sections);
        assert(elf@.symtab == target.symtab);
    }
}

/// Merges the stub symbols (see `merge_stub_symbols`) where that can be
/// done: where some symbol is merged, every REL section must hold whole
/// entries. Returns false, with nothing changed, where it cannot.
pub fn try_merge_stub_symbols(elf: &mut Elf) -> (ok: bool)
    ensures
        ok == (has_merge(old(elf)@.symtab.symbols) ==> rel_entries_whole(old(elf)@)),
        ok ==> final(elf)@ == merged_object(old(elf)@),
        !ok ==> final(elf)@ == old(elf)@,
{
    let defs = und_defs(&elf.symtab.symbols);
    let ghost sv = symbol_views(elf.symtab.symbols@);
    let mut any = false;
    let mut i: usize = 0;
    while i < defs.len()
        invariant
            sv == symbol_views(elf.symtab.symbols@),
            defs@.len() == sv.len(),
            forall|k: int|
                0 <= k < defs@.len() ==> match und_def(sv, k) {
                    Some(d) => #[trigger] defs@[k] == Some(d as usize),
                    None => defs@[k] is None,
                },
            i <= defs@.len(),
            any == exists|k: int| 0 <= k < i && (#[trigger] und_def(sv, k)) is Some,
        decreases defs@.len() - i,
    {
        if defs[i].is_some() {
            any = true;
        }
        i += 1;
    }
    if any && !crate::transplant::all_rel_entries_whole(&elf.sections) {
        proof {
            let k = choose|k: int| 0 <= k < defs@.len() && (#[trigger] und_def(sv, k)) is Some;
            assert(has_merge(sv));
            assert(elf@.sections == section_views(elf.sections@));
            assert(!rel_sections_whole(elf@.sections));
            let j = choose|j: int| 0 <= j < elf@.sections.len() && (#[trigger] elf@.sections[j]).sh_type
                == SHT_REL && elf@.sections[j].data.len() % 8 != 0;
            assert(!rel_entries_whole(elf@));
        }
        return false;
    }
    merge_stub_symbols(elf);
    true
}

proof fn lemma_merged_upto(syms: Seq<SymbolView>, m: int)
    requires
        0 <= m,
    ensures
        merged_upto(syms, m).len() == kept_before(syms, m),
        forall|j: int|
            0 <= j < m && !merged_away(syms, j) ==> merged_upto(syms, m)[kept_before(syms, j)]
                == #[trigger] merged_symbol(syms, j),
    decreases m,
{
    if m > 0 {
        lemma_merged_upto(syms, m - 1);
        assert forall|j: int|
            0 <= j < m && !merged_away(syms, j) implies merged_upto(syms, m)[kept_before(syms, j)]
            == #[trigger] merged_symbol(syms, j) by {
            if j < m - 1 {
                lemma_kept_before_bound(syms, j);
                lemma_kept_monotone(syms, j + 1, m - 1);
            }
        }
    }
}

proof fn lemma_kept_monotone(syms: Seq<SymbolView>, a: int, b: int)
    requires
        0 <= a <= b,
    ensures
        kept_before(syms, a) <= kept_before(syms, b),
    decreases b - a,
{
    if a < b {
        lemma_kept_monotone(syms, a, b - 1);
    }
}

/// Merging keeps every symbol that a relocation can point at: the entry
/// at a symbol's new index is the symbol itself (with its definition's
/// fields, where it is an undefined slot that gets one), or, for a
/// definition merged into a slot, the definition with that slot's name
/// offset. Either way it has the symbol's name.
pub proof fn law_merge_keeps_references(elf: ElfView, j: int)
    requires
        has_merge(elf.symtab.symbols),
        0 <= j < elf.symtab.symbols.len(),
    ensures
        ({
            let syms = elf.symtab.symbols;
            let after = merged_object(elf).symtab.symbols;
            let k = new_index(syms, j);
            &&& 0 <= k < after.len()
            &&& after[k].name == syms[j].name
            &&& merged_away(syms, j) ==> after[k] == (SymbolView {
                st_name: syms[last_und(syms, j)].st_name,
                ..syms[j]
            })
            &&& !merged_away(syms, j) ==> after[k] == merged_symbol(syms, j)
        }),
{
    let syms = elf.symtab.symbols;
    let n = syms.len() as int;
    lemma_merged_upto(syms, n);
    lemma_und_def_bound(syms, j);
    if merged_away(syms, j) {
        lemma_last_below(n, merges_into(syms, j));
        let w = choose|q: int| 0 <= q < syms.len() && #[trigger] und_def(syms, q) == Some(j);
        assert(merges_into(syms, j)(w));
        let u = last_und(syms, j);
        assert(merges_into(syms, j)(u));
        assert(und_def(syms, u) == Some(j));
        lemma_und_def_bound(syms, u);
        assert(!merged_away(syms, u)) by {
            if merged_away(syms, u) {
                let v = choose|q: int| 0 <= q < syms.len() && #[trigger] und_def(syms, q) == Some(u);
                lemma_und_def_bound(syms, v);
            }
        }
        assert(merged_upto(syms, n)[kept_before(syms, u)] == merged_symbol(syms, u));
        lemma_kept_monotone(syms, u + 1, n);
        lemma_kept_before_bound(syms, u);
        assert(kept_before(syms, u + 1) == kept_before(syms, u) + 1);

    } else {
        assert(merged_upto(syms, n)[kept_before(syms, j)] == merged_symbol(syms, j));
        lemma_kept_monotone(syms, j + 1, n);
        lemma_kept_before_bound(syms, j);
        assert(kept_before(syms, j + 1) == kept_before(syms, j) + 1);

    }

}

/// `n` zero bytes.
pub open spec fn zeros(n: int) -> Seq<u8> {
    Seq::new(if n > 0 {
        n as nat
    } else {
        0
    }, |i: int| 0u8)
}

/// Puts the assembled code of a function into its compiled stub section:
/// the first bytes of `asm_text`, as many as the section holds, padded
/// with zeros up to `sh_size`. The assembled code must be at least as long
/// as the section's data.
pub fn transplant_text(section: &mut Section, asm_text: &[u8])
    requires
        asm_text@.len() >= old(section).data@.len(),
    ensures
        final(section)@ == (SectionView {
            data: asm_text@.take(old(section).data@.len() as int) + zeros(
                old(section).sh_size - old(section).data@.len(),
            ),
            ..old(section)@
        }),
{
    let len = section.data.len();
    let mut data = vstd::slice::slice_to_vec(&asm_text[0..len]);
    let ghost head = data@;
    let size = section.sh_size as usize;
    if len < size {
        let needed = size - len;
        let mut k: usize = 0;
        while k < needed
            invariant
                k <= needed,
                data@ == head + zeros(k as int),
            decreases needed - k,
        {
            data.push(0u8);
            assert(zeros(k + 1) =~= zeros(k as int).push(0u8));
            k += 1;
        }
    } else {
        assert(zeros(section.sh_size - len) =~= Seq::<u8>::empty());
        assert(data@ =~= head + zeros(section.sh_size - len));
    }
    assert(head =~= asm_text@.take(len as int));
    section.data = data;
}

/// The ELF header's `e_flags` (bytes 36 to 40) set to `flags`, little
/// endian.
pub fn patch_e_flags(bytes: &mut Vec<u8>, flags: u32)
    requires
        old(bytes)@.len() >= 40,
    ensures
        final(bytes)@ == old(bytes)@.take(36) + spec_u32_to_le_bytes(flags) + old(bytes)@.skip(40),
{
    let b = u32_to_le_bytes(flags);
    let mut k: usize = 0;
    while k < 4
        invariant
            b@ == spec_u32_to_le_bytes(flags),
            b@.len() == 4,
            old(bytes)@.len() >= 40,
            bytes@.len() == old(bytes)@.len(),
            k <= 4,
            forall|q: int| 0 <= q < bytes@.len() && !(36 <= q < 36 + k) ==> #[trigger] bytes@[q] == old(bytes)@[q],
            forall|q: int| 36 <= q < 36 + k ==> #[trigger] bytes@[q] == b@[q - 36],
        decreases 4 - k,
    {
        bytes.set(36 + k, b[k]);
        k += 1;
    }
    assert(bytes@ =~= old(bytes)@.take(36) + spec_u32_to_le_bytes(flags) + old(bytes)@.skip(40));
}

/// Writes the first `size` bytes of `src` over `data` from `offset` on
/// (assembled code or data spliced over its stub).
pub fn splice_bytes(data: &mut Vec<u8>, offset: usize, src: &[u8], size: usize)
    requires
        size <= src@.len(),
        offset + size <= old(data)@.len(),
    ensures
        final(data)@ == old(data)@.take(offset as int) + src@.take(size as int) + old(data)@.skip(
            offset + size,
        ),
{
    let dl = data.len();
    let mut k: usize = 0;
    while k < size
        invariant
            size <= src@.len(),
            dl == old(data)@.len(),
            offset + size <= dl,
            data@.len() == old(data)@.len(),
            k <= size,
            forall|q: int|
                0 <= q < data@.len() && !(offset <= q < offset + k) ==> #[trigger] data@[q]
                    == old(data)@[q],
            forall|q: int| offset <= q < offset + k ==> #[trigger] data@[q] == src@[q - offset],
        decreases size - k,
    {
        data.set(offset + k, src[k]);
        k += 1;
    }
    assert(data@ =~= old(data)@.take(offset as int) + src@.take(size as int) + old(data)@.skip(
        offset + size,
    ));
}

/// Appends a relocation's entry to a REL section and sets `sh_size` to the
/// new data length.
pub fn append_relocation(section: &mut Section, r: &Relocation)
    ensures
        final(section)@ == (SectionView {
            data: old(section)@.data + relocation_bytes(r@),
            sh_size: (old(section)@.data + relocation_bytes(r@)).len() as u32,
            ..old(section)@
        }),
{
    let mut b = r.pack();
    section.data.append(&mut b);
    section.sh_size = section.data.len() as u32;
}

/// An undefined symbol takes the section, value, size and info of `sym`
/// where `sym` is defined; otherwise nothing changes.
pub fn upgrade_undefined(existing: &mut Symbol, sym: &Symbol)
    ensures
        final(existing)@ == (if old(existing).st_shndx == 0 && sym.st_shndx != 0 {
            SymbolView {
                st_shndx: sym.st_shndx,
                st_value: sym.st_value,
                st_size: sym.st_size,
                st_info: sym.st_info,
                ..old(existing)@
            }
        } else {
            old(existing)@
        }),
{
    if existing.st_shndx == 0 && sym.st_shndx != 0 {
        existing.st_shndx = sym.st_shndx;
        existing.st_value = sym.st_value;
        existing.st_size = sym.st_size;
        existing.st_info = sym.st_info;
    }
}

/// The little-endian word at `offset` of `data` (a jump-table entry's
/// addend), where four bytes are there.
pub fn read_word(data: &[u8], offset: usize) -> (r: Option<u32>)
    ensures
        r == (if offset + 4 <= data@.len() {
            Some(spec_u32_from_le_bytes(data@.subrange(offset as int, offset + 4)))
        } else {
            None::<u32>
        }),
{
    if offset <= data.len() && 4 <= data.len() - offset {
        Some(u32_from_le_bytes(&data[offset..offset + 4]))
    } else {
        None
    }
}

/// The indices of the `.rodata` sections from `from` on, up to `count` of
/// them (all of them where `count` is 0).
pub open spec fn rodata_after(secs: Seq<SectionView>, from: int, count: int) -> Seq<usize>
    decreases secs.len() - from,
{
    if from >= secs.len() || from < 0 {
        Seq::empty()
    } else if secs[from].name == ".rodata"@ {
        if count == 1 {
            seq![from as usize]
        } else {
            seq![from as usize] + rodata_after(secs, from + 1, if count > 1 {
                count - 1
            } else {
                count
            })
        }
    } else {
        rodata_after(secs, from + 1, count)
    }
}

/// The `.rodata` sections that follow a function's text section, up to
/// `count` of them (the compiler puts a function's .rodata right after
/// its code).
pub fn rodata_sections_after(sections: &Vec<Section>, text_idx: usize, count: usize) -> (r: Vec<usize>)
    requires
        text_idx < sections@.len(),
    ensures
        r@ == rodata_after(section_views(sections@), text_idx + 1, count as int),
{
    let ghost sv = section_views(sections@);
    let n = sections.len();
    let mut out: Vec<usize> = Vec::new();
    let mut i: usize = text_idx + 1;
    let name = ".rodata".to_owned();
    let mut left: usize = count;
    while i < n
        invariant
            n == sections@.len(),
            sv == section_views(sections@),
            name@ == ".rodata"@,
            text_idx + 1 <= i <= n,
            out@ + rodata_after(sv, i as int, left as int) == rodata_after(
                sv,
                text_idx + 1,
                count as int,
            ),
        decreases n - i,
    {
        assert(sv[i as int] == sections@[i as int]@);
        if sections[i].name == name {
            let ghost before = out@;
            out.push(i);
            if left == 1 {
                assert(out@ =~= before + seq![i]);
                return out;
            }
            let ghost next: int = if left > 1 {
                left - 1
            } else {
                left as int
            };
            assert(out@ + rodata_after(sv, i + 1, next) =~= before + (seq![i] + rodata_after(
                sv,
                i + 1,
                next,
            )));
            left = if left == 0 {
                0
            } else {
                left - 1
            };
        }
        i += 1;
    }
    assert(rodata_after(sv, n as int, left as int) =~= Seq::<usize>::empty());
    assert(out@ =~= out@ + rodata_after(sv, n as int, left as int));
    out
}

/// The .rodata sections `idxs` filled, in turn, with the next bytes of the
/// assembled .rodata, as many as each holds, each with its `sh_addralign`
/// set to 2 (in place of the compiler's 16); with the offset where each
/// one's bytes end. `None`
/// where an index is past the sections or the assembled .rodata runs out.
pub open spec fn rodata_fill(secs: Seq<SectionView>, idxs: Seq<usize>, data: Seq<u8>) -> Option<
    (Seq<SectionView>, Seq<usize>),
>
    decreases idxs.len(),
{
    if idxs.len() == 0 {
        Some((secs, Seq::empty()))
    } else {
        match rodata_fill(secs, idxs.drop_last(), data) {
            None => None,
            Some((s, offs)) => {
                let start: int = if offs.len() == 0 {
                    0
                } else {
                    offs.last() as int
                };
                let i = idxs.last() as int;
                if i >= s.len() || start + s[i].data.len() > data.len() {
                    None
                } else {
                    let end = start + s[i].data.len();
                    Some(
                        (
                            s.update(
                                i,
                                SectionView {
                                    data: data.subrange(start, end),
                                    sh_addralign: 2,
                                    ..s[i]
                                },
                            ),
                            offs.push(end as usize),
                        ),
                    )
                }
            },
        }
    }
}

pub(crate) proof fn lemma_rodata_fill_prefix(secs: Seq<SectionView>, idxs: Seq<usize>, data: Seq<u8>, k: int)
    requires
        0 <= k <= idxs.len(),
        rodata_fill(secs, idxs.take(k), data) is None,
    ensures
        rodata_fill(secs, idxs, data) is None,
    decreases idxs.len() - k,
{
    if k < idxs.len() {
        assert(idxs.take(k + 1).drop_last() =~= idxs.take(k));
        lemma_rodata_fill_prefix(secs, idxs, data, k + 1);
    } else {
        assert(idxs.take(k) =~= idxs);
    }
}

/// Copies slices of the assembled .rodata into each of the .rodata
/// sections `indices` in turn (see `rodata_fill`) and returns where each
/// slice ends.
pub fn fill_rodata(sections: &mut Vec<Section>, indices: &Vec<usize>, asm_rodata: &[u8]) -> (offsets:
    Vec<usize>)
    requires
        rodata_fill(section_views(old(sections)@), indices@, asm_rodata@) is Some,
    ensures
        rodata_fill(section_views(old(sections)@), indices@, asm_rodata@) == Some(
            (section_views(final(sections)@), offsets@),
        ),
{
    let ghost s0 = section_views(sections@);
    let n = indices.len();
    let total = asm_rodata.len();
    let mut offsets: Vec<usize> = Vec::new();
    let mut offset: usize = 0;
    let mut k: usize = 0;
    assert(indices@.take(0) =~= Seq::<usize>::empty());
    while k < n
        invariant
            n == indices@.len(),
            total == asm_rodata@.len(),
            s0 == section_views(old(sections)@),
            rodata_fill(s0, indices@, asm_rodata@) is Some,
            k <= n,
            rodata_fill(s0, indices@.take(k as int), asm_rodata@) == Some(
                (section_views(sections@), offsets@),
            ),
            offset as int == (if offsets@.len() == 0 {
                0
            } else {
                offsets@.last() as int
            }),
        decreases n - k,
    {
        proof {
            assert(indices@.take(k + 1).drop_last() =~= indices@.take(k as int));
            assert(indices@.take(k + 1).last() == indices@[k as int]);
            if rodata_fill(s0, indices@.take(k + 1), asm_rodata@) is None {
                lemma_rodata_fill_prefix(s0, indices@, asm_rodata@, k + 1);
            }
            assert(rodata_fill(s0, indices@.take(k + 1), asm_rodata@) is Some);
            let i = indices@[k as int] as int;
            assert(i < section_views(sections@).len());
            assert(offset + section_views(sections@)[i].data.len() <= asm_rodata@.len());
        }
        let idx = indices[k];
        assert(section_views(sections@)[idx as int] == sections@[idx as int]@);
        let len = sections[idx].data.len();
        let mut sec = sections[idx].duplicate();
        sec.data = vstd::slice::slice_to_vec(&asm_rodata[offset..offset + len]);
        sec.sh_addralign = 2;
        let ghost before = section_views(sections@);
        sections.set(idx, sec);
        offset = offset + len;
        offsets.push(offset);
        assert(section_views(sections@) =~= before.update(
            idx as int,
            SectionView {
                data: asm_rodata@.subrange(offset - len, offset as int),
                sh_addralign: 2,
                ..before[idx as int]
            },
        ));
        k += 1;
    }
    assert(indices@.take(n as int) =~= indices@);
    offsets
}

/// The number of relocations in all the sections together.
pub open spec fn total_len(d: Seq<Seq<RelocationView>>) -> int
    decreases d.len(),
{
    if d.len() == 0 {
        0
    } else {
        total_len(d.drop_last()) + d.last().len()
    }
}

/// The number of relocations in `rs` that fall in one of the sections that
/// end at `ends`.
pub open spec fn placed_count(rs: Seq<RelocationView>, ends: Seq<usize>) -> int
    decreases rs.len(),
{
    if rs.len() == 0 {
        0
    } else {
        placed_count(rs.drop_last(), ends) + if section_of_offset(rs.last().r_offset, ends) is Some {
            1int
        } else {
            0int
        }
    }
}

proof fn lemma_total_len_push(d: Seq<Seq<RelocationView>>, i: int, x: RelocationView)
    requires
        0 <= i < d.len(),
    ensures
        total_len(d.update(i, d[i].push(x))) == total_len(d) + 1,
    decreases d.len(),
{
    let u = d.update(i, d[i].push(x));
    if i == d.len() - 1 {
        assert(u.drop_last() =~= d.drop_last());
    } else {
        lemma_total_len_push(d.drop_last(), i, x);
        assert(u.drop_last() =~= d.drop_last().update(i, d.drop_last()[i].push(x)));
    }
}

proof fn lemma_total_len_empty(n: nat)
    ensures
        total_len(Seq::new(n, |i: int| Seq::<RelocationView>::empty())) == 0,
    decreases n,
{
    if n > 0 {
        lemma_total_len_empty((n - 1) as nat);
        assert(Seq::new(n, |i: int| Seq::<RelocationView>::empty()).drop_last() =~= Seq::new(
            (n - 1) as nat,
            |i: int| Seq::<RelocationView>::empty(),
        ));
    }
}

/// Distributing relocations over sections loses none that falls in a
/// section and adds none: the sections hold as many relocations as fall
/// before the last section's end.
pub proof fn law_distribute_keeps_relocations(rs: Seq<RelocationView>, ends: Seq<usize>)
    ensures
        total_len(distributed(rs, ends)) == placed_count(rs, ends),
    decreases rs.len(),
{
    if rs.len() == 0 {
        lemma_total_len_empty(ends.len());
    } else {
        law_distribute_keeps_relocations(rs.drop_last(), ends);
        lemma_distributed_len(rs.drop_last(), ends);
        let r = rs.last();
        lemma_first_from(0, ends.len() as int, |i: int| r.r_offset < ends[i] as u32);
        if let Some(i) = section_of_offset(r.r_offset, ends) {
            let d = distributed(rs.drop_last(), ends);
            let moved = if i > 0 {
                RelocationView { r_offset: (r.r_offset - ends[i - 1] as u32) as u32, ..r }
            } else {
                r
            };
            lemma_total_len_push(d, i, moved);
        }
    }
}

/// The indices of the first `m` sections that are REL sections, in order.
pub open spec fn rel_indices_upto(secs: Seq<SectionView>, m: int) -> Seq<int>
    decreases m,
{
    if m <= 0 {
        Seq::empty()
    } else if secs[m - 1].sh_type == SHT_REL {
        rel_indices_upto(secs, m - 1).push(m - 1)
    } else {
        rel_indices_upto(secs, m - 1)
    }
}

/// The REL section `rs` with its entries' symbol indices at or past
/// `threshold` moved `inserted` further on, packed back with `sh_size` set.
pub open spec fn shifted_rel_section(rs: SectionView, threshold: int, inserted: int) -> SectionView {
    let rels = relocations_from_bytes(rs.data).map_values(
        |r: RelocationView|
            RelocationView {
                r_info: if (r.r_info >> 8u32) as int >= threshold {
                    with_symbol_index(r.r_info, ((r.r_info >> 8u32) as int + inserted) as u32)
                } else {
                    r.r_info
                },
                ..r
            },
    );
    let data = relocations_bytes(rels);
    SectionView { data, sh_size: data.len() as u32, ..rs }
}

/// The REL sections for the .rodata sections `rodata`: the entries of
/// `rs` sorted into them (see `distributed`), each packed into a copy of
/// `rs` that applies to its .rodata section.
pub open spec fn rodata_rel_sections(rs: SectionView, rodata: Seq<usize>, ends: Seq<usize>) -> Seq<
    SectionView,
> {
    let d = distributed(relocations_from_bytes(rs.data), ends);
    Seq::new(
        rodata.len(),
        |i: int|
            SectionView {
                sh_info: rodata[i] as u32,
                data: relocations_bytes(d[i]),
                sh_size: relocations_bytes(d[i]).len() as u32,
                ..rs
            },
    )
}

/// The first section with the type, target and name offset of `rs`.
pub open spec fn matching_section(secs: Seq<SectionView>, rs: SectionView) -> Option<int> {
    first_from(0, secs.len() as int, same_keys(secs, rs))
}

/// Section `k` has the type, target and name offset of `rs`.
pub open spec fn same_keys(secs: Seq<SectionView>, rs: SectionView) -> spec_fn(int) -> bool {
    |k: int| secs[k].sh_type == rs.sh_type && secs[k].sh_info == rs.sh_info && secs[k].sh_name == rs.sh_name
}

/// The sections and the new .rodata REL sections after the first `m` REL
/// sections of `secs0` are updated: one that applies to the first .rodata
/// section is split over all of them (where there is more than one), in
/// place for the first and as new sections for all; any other has its
/// symbol indices moved and replaces the first section with its type,
/// target and name offset.
pub open spec fn rel_updates(
    secs0: Seq<SectionView>,
    m: int,
    rodata: Seq<usize>,
    ends: Seq<usize>,
    threshold: int,
    inserted: int,
) -> (Seq<SectionView>, Seq<SectionView>)
    decreases m,
{
    if m <= 0 {
        (secs0, Seq::empty())
    } else {
        let (secs, extra) = rel_updates(secs0, m - 1, rodata, ends, threshold, inserted);
        let idx = rel_indices_upto(secs0, secs0.len() as int)[m - 1];
        let rs = secs0[idx];
        if rs.sh_info == rodata[0] as u32 {
            if rodata.len() == 1 {
                (secs, extra)
            } else {
                let news = rodata_rel_sections(rs, rodata, ends);
                (secs.update(idx, news[0]), extra + news)
            }
        } else {
            match matching_section(secs, rs) {
                Some(k) => (secs.update(k, shifted_rel_section(rs, threshold, inserted)), extra),
                None => (secs, extra),
            }
        }
    }
}

/// The sections, and the .rodata REL sections still to be added, once the
/// relocations are brought in line with `inserted` local symbols put in at
/// `threshold` (nothing changes where none was).
pub open spec fn relocations_updated(
    secs: Seq<SectionView>,
    rodata: Seq<usize>,
    ends: Seq<usize>,
    threshold: int,
    inserted: int,
) -> (Seq<SectionView>, Seq<SectionView>) {
    if inserted == 0 {
        (secs, Seq::empty())
    } else {
        let n = rel_indices_upto(secs, secs.len() as int).len() as int;
        let (s, extra) = rel_updates(secs, n, rodata, ends, threshold, inserted);
        (s, if extra.len() > 0 {
            extra.drop_first()
        } else {
            extra
        })
    }
}

pub(crate) proof fn lemma_rel_indices(secs: Seq<SectionView>, m: int)
    requires
        0 <= m <= secs.len(),
    ensures
        forall|t: int|
            0 <= t < rel_indices_upto(secs, m).len() ==> 0 <= #[trigger] rel_indices_upto(secs, m)[t] < m
                && secs[rel_indices_upto(secs, m)[t]].sh_type == SHT_REL,
        rel_indices_upto(secs, m).len() <= m,
    decreases m,
{
    if m > 0 {
        lemma_rel_indices(secs, m - 1);
    }
}

/// The REL sections, with their indices.
pub(crate) fn rel_sections(sections: &Vec<Section>) -> (r: (Vec<usize>, Vec<Section>))
    ensures
        r.0@.len() == r.1@.len(),
        r.0@.len() == rel_indices_upto(section_views(sections@), sections@.len() as int).len(),
        forall|t: int|
            0 <= t < r.0@.len() ==> #[trigger] r.0@[t] as int == rel_indices_upto(
                section_views(sections@),
                sections@.len() as int,
            )[t] && r.1@[t]@ == sections@[r.0@[t] as int]@,
{
    let ghost sv = section_views(sections@);
    let n = sections.len();
    let mut idx: Vec<usize> = Vec::new();
    let mut secs: Vec<Section> = Vec::new();
    let mut k: usize = 0;
    while k < n
        invariant
            n == sections@.len(),
            sv == section_views(sections@),
            k <= n,
            idx@.len() == secs@.len(),
            idx@.len() == rel_indices_upto(sv, k as int).len(),
            forall|t: int|
                0 <= t < idx@.len() ==> #[trigger] idx@[t] as int == rel_indices_upto(sv, k as int)[t]
                    && secs@[t]@ == sections@[idx@[t] as int]@,
        decreases n - k,
    {
        assert(sv[k as int] == sections@[k as int]@);
        if sections[k].sh_type == SHT_REL {
            idx.push(k);
            secs.push(sections[k].duplicate());
        }
        k += 1;
    }
    (idx, secs)
}

/// The first section with the type, target and name offset of `rs`.
fn find_matching(sections: &Vec<Section>, rs: &Section) -> (r: Option<usize>)
    ensures
        opt_index(r) == matching_section(section_views(sections@), rs@),
{
    let ghost sv = section_views(sections@);
    let ghost p = same_keys(sv, rs@);
    let n = sections.len();
    let mut k: usize = 0;
    while k < n
        invariant
            n == sections@.len(),
            sv == section_views(sections@),
            p == same_keys(sv, rs@),
            k <= n,
            forall|j: int| #![trigger p(j)] 0 <= j < k ==> !p(j),
        decreases n - k,
    {
        assert(sv[k as int] == sections@[k as int]@);
        if sections[k].sh_type == rs.sh_type && sections[k].sh_info == rs.sh_info && sections[k].sh_name
            == rs.sh_name {
            proof {
                lemma_first_from_at(0, k as int, n as int, p);
            }
            return Some(k);
        }
        k += 1;
    }
    proof {
        lemma_first_from_none(0, n as int, p);
    }
    None
}

/// An optional index as an integer.
pub open spec fn opt_index(x: Option<usize>) -> Option<int> {
    match x {
        Some(v) => Some(v as int),
        None => None,
    }
}

/// Every REL section of `secs` holds whole 8-byte entries.
pub open spec fn rel_sections_whole(secs: Seq<SectionView>) -> bool {
    forall|k: int|
        0 <= k < secs.len() && (#[trigger] secs[k]).sh_type == SHT_REL ==> secs[k].data.len() % 8 == 0
}

/// Brings the relocations of a compiled object in line with `inserted`
/// local symbols put in before its first global symbol `threshold`: a
/// .rodata REL section (one that applies to the first of the .rodata
/// sections `rodata`, which end at `ends`) is split over those sections
/// where there is more than one, the first part replacing it in place;
/// every other REL section gets its symbol indices moved and replaces the
/// first section with its type, target and name offset. Returns the
/// .rodata REL sections still to be added (all but the first made). Nothing
/// changes where `inserted` is 0.
pub fn update_relocations(
    sections: &mut Vec<Section>,
    rodata: &Vec<usize>,
    ends: &Vec<usize>,
    threshold: usize,
    inserted: usize,
) -> (extra: Vec<Section>)
    requires
        rel_sections_whole(section_views(old(sections)@)),
        inserted > 0 && rel_indices_upto(
            section_views(old(sections)@),
            old(sections)@.len() as int,
        ).len() > 0 ==> rodata@.len() > 0,
        ends@.len() == rodata@.len(),
        inserted + 0xff_ffff <= usize::MAX,
    ensures
        (section_views(final(sections)@), section_views(extra@)) == relocations_updated(
            section_views(old(sections)@),
            rodata@,
            ends@,
            threshold as int,
            inserted as int,
        ),
{
    let ghost s0 = section_views(sections@);
    if inserted == 0 {
        let none: Vec<Section> = Vec::new();
        assert(section_views(none@) =~= Seq::<SectionView>::empty());
        return none;
    }
    let (idx, snap) = rel_sections(sections);
    let ghost ri = rel_indices_upto(s0, s0.len() as int);
    proof {
        lemma_rel_indices(s0, s0.len() as int);
        assert forall|q: int| 0 <= q < idx@.len() implies #[trigger] idx@[q] as int == ri[q]
            && snap@[q]@ == s0[ri[q]] by {
            assert(idx@[q] as int == rel_indices_upto(section_views(sections@), sections@.len() as int)[q]);
            assert(s0.len() == sections@.len());
            assert(snap@[q]@ == sections@[idx@[q] as int]@);
            assert(s0[ri[q]] == sections@[ri[q]]@);
        }
    }
    let m = idx.len();
    let mut extra: Vec<Section> = Vec::new();
    let mut t: usize = 0;
    while t < m
        invariant
            m == idx@.len(),
            m == snap@.len(),
            m == ri.len(),
            s0 == section_views(old(sections)@),
            ri == rel_indices_upto(s0, s0.len() as int),
            forall|q: int|
                0 <= q < m ==> #[trigger] idx@[q] as int == ri[q] && snap@[q]@ == s0[ri[q]],
            forall|q: int| 0 <= q < ri.len() ==> 0 <= #[trigger] ri[q] < s0.len() && s0[ri[q]].sh_type == SHT_REL,
            rel_sections_whole(s0),
            m > 0 ==> rodata@.len() > 0,
            ends@.len() == rodata@.len(),
            inserted + 0xff_ffff <= usize::MAX,
            inserted > 0,
            t <= m,
            sections@.len() == s0.len(),
            forall|k: int|
                0 <= k < s0.len() ==> #[trigger] same_keys(s0, s0[k])(k) ==> same_keys(
                    section_views(sections@),
                    s0[k],
                )(k),
            (section_views(sections@), section_views(extra@)) == rel_updates(
                s0,
                t as int,
                rodata@,
                ends@,
                threshold as int,
                inserted as int,
            ),
        decreases m - t,
    {
        let i0 = idx[t];
        let rs = &snap[t];
        let ghost before = section_views(sections@);
        let ghost before_extra = section_views(extra@);
        assert(rs@ == s0[i0 as int]);
        if rs.sh_info == rodata[0] as u32 {
            if rodata.len() == 1 {
                t += 1;
                continue;
            }
            let rels = Relocation::unpack_all(rs.data.as_slice());
            let buckets = distribute_relocations(&rels, ends);
            let ghost news = rodata_rel_sections(rs@, rodata@, ends@);
            let nb = buckets.len();
            let mut i: usize = 0;
            while i < nb
                invariant
                    nb == buckets@.len(),
                    nb == rodata@.len(),
                    nb == ends@.len(),
                    forall|q: int|
                        0 <= q < nb ==> relocation_views((#[trigger] buckets@[q])@) == distributed(
                            relocations_from_bytes(rs@.data),
                            ends@,
                        )[q],
                    news == rodata_rel_sections(rs@, rodata@, ends@),
                    i <= nb,
                    sections@.len() == before.len(),
                    (i0 as int) < before.len(),
                    section_views(sections@) == (if i == 0 {
                        before
                    } else {
                        before.update(i0 as int, news[0])
                    }),
                    section_views(extra@) == before_extra + news.take(i as int),
                decreases nb - i,
            {
                let mut sec = rs.duplicate();
                sec.sh_info = rodata[i] as u32;
                sec.data = pack_relocations(&buckets[i]);
                sec.sh_size = sec.data.len() as u32;
                assert(sec@ == news[i as int]);
                if i == 0 {
                    let first = sec.duplicate();
                    sections.set(i0, first);
                    assert(section_views(sections@) =~= before.update(i0 as int, news[0]));
                }
                let ghost ex = section_views(extra@);
                extra.push(sec);
                assert(section_views(extra@) =~= ex.push(news[i as int]));
                assert(news.take(i + 1) =~= news.take(i as int).push(news[i as int]));
                i += 1;
            }
            assert(news.take(nb as int) =~= news);
            proof {
                assert forall|k: int|
                    0 <= k < s0.len() && #[trigger] same_keys(s0, s0[k])(k) implies same_keys(
                    section_views(sections@),
                    s0[k],
                )(k) by {
                    if k == i0 {
                        assert(section_views(sections@)[k] == news[0]);
                    } else {
                        assert(section_views(sections@)[k] == before[k]);
                        assert(same_keys(before, s0[k])(k));
                    }
                }
            }
        } else {
            let mut rels = Relocation::unpack_all(rs.data.as_slice());
            let ghost rv = relocation_views(rels@);
            proof {
                assert forall|q: int| 0 <= q < rels@.len() implies ((#[trigger] rels@[q]).r_info >> 8u32
                    >= threshold ==> (rels@[q].r_info >> 8u32) + inserted <= usize::MAX) by {
                    let x = rels@[q].r_info;
                    assert(x >> 8u32 <= 0xff_ffffu32) by (bit_vector);
                }
            }
            shift_relocations(&mut rels, threshold, inserted);
            let mut sec = rs.duplicate();
            sec.data = pack_relocations(&rels);
            sec.sh_size = sec.data.len() as u32;
            proof {
                assert(relocation_views(rels@) =~= rv.map_values(
                    |r: RelocationView|
                        RelocationView {
                            r_info: if (r.r_info >> 8u32) as int >= threshold {
                                with_symbol_index(r.r_info, ((r.r_info >> 8u32) as int + inserted) as u32)
                            } else {
                                r.r_info
                            },
                            ..r
                        },
                ));
                assert(sec@ == shifted_rel_section(rs@, threshold as int, inserted as int));
                assert(same_keys(s0, s0[i0 as int])(i0 as int));
                assert(same_keys(before, rs@)(i0 as int));
                lemma_first_from(0, before.len() as int, same_keys(before, rs@));
            }
            match find_matching(sections, rs) {
                Some(k) => {
                    sections.set(k, sec);
                    proof {
                        assert(section_views(sections@) =~= before.update(
                            k as int,
                            shifted_rel_section(rs@, threshold as int, inserted as int),
                        ));
                        assert forall|q: int|
                            0 <= q < s0.len() && #[trigger] same_keys(s0, s0[q])(q) implies same_keys(
                            section_views(sections@),
                            s0[q],
                        )(q) by {
                            if q != k {
                                assert(section_views(sections@)[q] == before[q]);
                                assert(same_keys(before, s0[q])(q));
                            } else {
                                assert(same_keys(before, rs@)(k as int));
                                assert(same_keys(before, s0[q])(q));
                            }
                        }
                    }
                },
                None => {},
            }
        }
        t += 1;
    }
    if extra.len() > 0 {
        let ghost ex = section_views(extra@);
        extra.remove(0);
        assert(section_views(extra@) =~= ex.drop_first());
    }
    extra
}

} // verus!
