//! Splits monolithic ELF sections into individual per-symbol sections
//! for use with GNU ld --gc-sections.
use vstd::prelude::*;
use crate::elf::object::{Elf, ElfView, SymTabView, section_views};
use crate::elf::section::{
    Relocation, RelocationView, Section, SectionView, SHT_NOBITS, SHT_REL, SHT_SYMTAB,
    pack_relocations, relocation_views, relocations_bytes, relocations_from_bytes,
};
use crate::elf::strtab::{StrTab, StrTabView, add_offset, added, occurs_at, pack_strings, string_at, terminated};
use crate::elf::symbol::{Symbol, SymbolView, spec_bind, symbol_views, symbols_bytes};
use crate::text::{chars_contain, chars_of, chars_start_with, concat_strs, contains_sub, starts_with};

verus! {

/// Alignment rule of the target game's linker:
///   size 1 → align 1, size 2 → align 2, size ≥3 or @-prefixed → align 4
pub open spec fn alignment(name: Seq<char>, size: u32) -> u32 {
    if starts_with(name, seq!['@']) || starts_with(name, "__at__"@) {
        4
    } else if size == 1 {
        1
    } else if size == 2 {
        2
    } else {
        4
    }
}

/// Alignment rule of the target game's linker:
///   size 1 → align 1, size 2 → align 2, size ≥3 or @-prefixed → align 4
pub fn alignment_for(name: &str, size: u32) -> (a: u32)
    ensures
        a == alignment(name@, size),
        a == 1 || a == 2 || a == 4,
{
    let c = chars_of(name);
    let mut at: Vec<char> = Vec::new();
    at.push('@');
    assert(at@ =~= seq!['@']);
    let esc = chars_of("__at__");
    if chars_start_with(c.as_slice(), at.as_slice()) || chars_start_with(c.as_slice(), esc.as_slice()) {
        return 4;
    }
    match size {
        1 => 1,
        2 => 2,
        _ => 4,
    }
}

/// `x` rounded up to a multiple of `a`.
pub open spec fn align_up(x: int, a: int) -> int {
    (x + a - 1) / a * a
}

proof fn lemma_align_bits(x: u32, a: u32)
    requires
        a == 1 || a == 2 || a == 4,
        x + a - 1 <= u32::MAX,
    ensures
        ((x + a - 1) as u32) & !((a - 1) as u32) == align_up(x as int, a as int),
{
    if a == 1 {
        assert(((x + 1 - 1) as u32) & !(0u32) == x) by (bit_vector);
    } else if a == 2 {
        assert(x + 1 <= u32::MAX ==> ((x + 1) as u32) & !(1u32) == ((x + 1) / 2) * 2)
            by (bit_vector);
    } else {
        assert(x + 3 <= u32::MAX ==> ((x + 3) as u32) & !(3u32) == ((x + 3) / 4) * 4)
            by (bit_vector);
    }
}

/// A symbol that gets a section of its own when section `idx` is split.
pub open spec fn qualifies(s: SymbolView, idx: int) -> bool {
    &&& s.st_shndx as int == idx
    &&& s.st_size > 0
    &&& !contains_sub(s.name, "NON_MATCHING"@)
}

/// Lexicographic order on key triples.
pub open spec fn key_lt(a: (int, int, int), b: (int, int, int)) -> bool {
    a.0 < b.0 || (a.0 == b.0 && (a.1 < b.1 || (a.1 == b.1 && a.2 < b.2)))
}

/// `s` is in strictly increasing key order.
pub open spec fn sorted_by(s: Seq<usize>, key: spec_fn(usize) -> (int, int, int)) -> bool {
    forall|i: int, j: int| 0 <= i < j < s.len() ==> key_lt(key(s[i]), key(s[j]))
}

/// `s` holds exactly the indices that satisfy `q`.
pub open spec fn members(s: Seq<usize>, q: spec_fn(usize) -> bool) -> bool {
    forall|x: usize| s.contains(x) <==> q(x)
}

/// The indices that satisfy `q`, in increasing key order.
pub open spec fn in_key_order(
    q: spec_fn(usize) -> bool,
    key: spec_fn(usize) -> (int, int, int),
) -> Seq<usize> {
    choose|s: Seq<usize>| members(s, q) && sorted_by(s, key)
}

/// Two sequences in strictly increasing key order with the same members are
/// equal.
proof fn lemma_sorted_unique(
    s1: Seq<usize>,
    s2: Seq<usize>,
    key: spec_fn(usize) -> (int, int, int),
)
    requires
        sorted_by(s1, key),
        sorted_by(s2, key),
        forall|x: usize| s1.contains(x) <==> s2.contains(x),
        forall|x: usize, y: usize| x != y ==> #[trigger] key(x) != #[trigger] key(y),
    ensures
        s1 == s2,
    decreases s1.len() + s2.len(),
{
    if s1.len() == 0 {
        if s2.len() > 0 {
            assert(s2.contains(s2[0]));
        }
        assert(s1 =~= s2);
    } else if s2.len() == 0 {
        assert(s1.contains(s1[0]));
    } else {
        let a = s1[0];
        let b = s2[0];
        assert(s1.contains(b));
        assert(s2.contains(a));
        if a != b {
            let ia = choose|i: int| 0 <= i < s2.len() && s2[i] == a;
            let ib = choose|i: int| 0 <= i < s1.len() && s1[i] == b;
            assert(key_lt(key(a), key(b)));
            assert(key_lt(key(b), key(a)));
        }
        let t1 = s1.drop_first();
        let t2 = s2.drop_first();
        assert(sorted_by(t1, key)) by {
            assert forall|i: int, j: int| 0 <= i < j < t1.len() implies key_lt(
                key(t1[i]),
                key(t1[j]),
            ) by {
                assert(t1[i] == s1[i + 1] && t1[j] == s1[j + 1]);
            }
        }
        assert(sorted_by(t2, key)) by {
            assert forall|i: int, j: int| 0 <= i < j < t2.len() implies key_lt(
                key(t2[i]),
                key(t2[j]),
            ) by {
                assert(t2[i] == s2[i + 1] && t2[j] == s2[j + 1]);
            }
        }
        assert forall|x: usize| t1.contains(x) <==> t2.contains(x) by {
            if t1.contains(x) {
                let i = choose|i: int| 0 <= i < t1.len() && t1[i] == x;
                assert(s1[i + 1] == x);
                assert(key_lt(key(a), key(x)));
                assert(s2.contains(x));
                let k = choose|k: int| 0 <= k < s2.len() && s2[k] == x;
                assert(k != 0);
                assert(t2[k - 1] == x);
            }
            if t2.contains(x) {
                let i = choose|i: int| 0 <= i < t2.len() && t2[i] == x;
                assert(s2[i + 1] == x);
                assert(key_lt(key(b), key(x)));
                assert(s1.contains(x));
                let k = choose|k: int| 0 <= k < s1.len() && s1[k] == x;
                assert(k != 0);
                assert(t1[k - 1] == x);
            }
        }
        lemma_sorted_unique(t1, t2, key);
        assert(s1 =~= seq![a] + t1);
        assert(s2 =~= seq![b] + t2);
    }
}

/// `x` put into the sorted `s` before the first element with a greater key.
pub open spec fn insert_by_key(s: Seq<usize>, x: usize, key: spec_fn(usize) -> (int, int, int)) -> Seq<
    usize,
>
    decreases s.len(),
{
    if s.len() == 0 {
        seq![x]
    } else if key_lt(key(x), key(s[0])) {
        seq![x] + s
    } else {
        seq![s[0]] + insert_by_key(s.drop_first(), x, key)
    }
}

/// The indices `l`, sorted by key.
pub open spec fn sort_by_key(l: Seq<usize>, key: spec_fn(usize) -> (int, int, int)) -> Seq<usize>
    decreases l.len(),
{
    if l.len() == 0 {
        Seq::empty()
    } else {
        insert_by_key(sort_by_key(l.drop_last(), key), l.last(), key)
    }
}

/// The indices below `n` that satisfy `q`, in increasing order.
pub open spec fn indices_where(n: int, q: spec_fn(usize) -> bool) -> Seq<usize>
    decreases n,
{
    if n <= 0 {
        Seq::empty()
    } else if q((n - 1) as usize) {
        indices_where(n - 1, q).push((n - 1) as usize)
    } else {
        indices_where(n - 1, q)
    }
}

proof fn lemma_insert_by_key(s: Seq<usize>, x: usize, key: spec_fn(usize) -> (int, int, int))
    requires
        sorted_by(s, key),
        !s.contains(x),
        forall|a: usize, b: usize| a != b ==> #[trigger] key(a) != #[trigger] key(b),
    ensures
        sorted_by(insert_by_key(s, x, key), key),
        forall|y: usize| insert_by_key(s, x, key).contains(y) <==> (y == x || s.contains(y)),
    decreases s.len(),
{
    let r = insert_by_key(s, x, key);
    if s.len() == 0 {
        assert(r == seq![x]);
        assert forall|y: usize| r.contains(y) <==> (y == x || s.contains(y)) by {
            if r.contains(y) {
                assert(r[0] == y);
            }
            if y == x {
                assert(r[0] == x);
            }
        }
    } else if key_lt(key(x), key(s[0])) {
        assert forall|i: int, j: int| 0 <= i < j < r.len() implies key_lt(key(r[i]), key(r[j])) by {
            if i > 0 {
                assert(r[i] == s[i - 1] && r[j] == s[j - 1]);
            } else {
                assert(r[j] == s[j - 1]);
                if j > 1 {
                    assert(key_lt(key(s[0]), key(s[j - 1])));
                }
            }
        }
        assert forall|y: usize| r.contains(y) <==> (y == x || s.contains(y)) by {
            if r.contains(y) {
                let k = choose|k: int| 0 <= k < r.len() && r[k] == y;
                if k > 0 {
                    assert(s[k - 1] == y);
                }
            }
            if y == x {
                assert(r[0] == x);
            }
            if s.contains(y) {
                let k = choose|k: int| 0 <= k < s.len() && s[k] == y;
                assert(r[k + 1] == y);
            }
        }
    } else {
        let t = s.drop_first();
        assert(sorted_by(t, key)) by {
            assert forall|i: int, j: int| 0 <= i < j < t.len() implies key_lt(key(t[i]), key(t[j])) by {
                assert(t[i] == s[i + 1] && t[j] == s[j + 1]);
            }
        }
        assert(!t.contains(x)) by {
            if t.contains(x) {
                let k = choose|k: int| 0 <= k < t.len() && t[k] == x;
                assert(s[k + 1] == x);
            }
        }
        lemma_insert_by_key(t, x, key);
        let rt = insert_by_key(t, x, key);
        assert(r == seq![s[0]] + rt);
        assert(s[0] != x) by {
            assert(s.contains(s[0]));
        }
        assert(key_lt(key(s[0]), key(x)));
        assert forall|i: int, j: int| 0 <= i < j < r.len() implies key_lt(key(r[i]), key(r[j])) by {
            if i > 0 {
                assert(r[i] == rt[i - 1] && r[j] == rt[j - 1]);
            } else {
                assert(r[j] == rt[j - 1]);
                assert(rt.contains(rt[j - 1]));
                if rt[j - 1] != x {
                    assert(t.contains(rt[j - 1]));
                    let k = choose|k: int| 0 <= k < t.len() && t[k] == rt[j - 1];
                    assert(s[k + 1] == rt[j - 1]);
                }
            }
        }
        assert forall|y: usize| r.contains(y) <==> (y == x || s.contains(y)) by {
            if r.contains(y) {
                let k = choose|k: int| 0 <= k < r.len() && r[k] == y;
                if k > 0 {
                    assert(rt[k - 1] == y);
                    assert(rt.contains(y));
                    if y != x {
                        assert(t.contains(y));
                        let k2 = choose|k2: int| 0 <= k2 < t.len() && t[k2] == y;
                        assert(s[k2 + 1] == y);
                    }
                }
            }
            if y == x {
                assert(rt.contains(x));
                let k = choose|k: int| 0 <= k < rt.len() && rt[k] == x;
                assert(r[k + 1] == x);
            }
            if s.contains(y) {
                let k = choose|k: int| 0 <= k < s.len() && s[k] == y;
                if k == 0 {
                    assert(r[0] == y);
                }
                if k > 0 {
                    assert(t[k - 1] == y);
                    assert(t.contains(y));
                    assert(rt.contains(y));
                    let k2 = choose|k2: int| 0 <= k2 < rt.len() && rt[k2] == y;
                    assert(r[k2 + 1] == y);
                }
            }
        }
    }
}

proof fn lemma_sort_by_key(l: Seq<usize>, key: spec_fn(usize) -> (int, int, int))
    requires
        forall|a: int, b: int| 0 <= a < b < l.len() ==> l[a] != l[b],
        forall|a: usize, b: usize| a != b ==> #[trigger] key(a) != #[trigger] key(b),
    ensures
        sorted_by(sort_by_key(l, key), key),
        forall|y: usize| sort_by_key(l, key).contains(y) <==> l.contains(y),
    decreases l.len(),
{
    if l.len() > 0 {
        let l2 = l.drop_last();
        lemma_sort_by_key(l2, key);
        assert(!sort_by_key(l2, key).contains(l.last())) by {
            if l2.contains(l.last()) {
                let k = choose|k: int| 0 <= k < l2.len() && l2[k] == l.last();
                assert(l[k] == l[l.len() - 1]);
            }
        }
        lemma_insert_by_key(sort_by_key(l2, key), l.last(), key);
        assert forall|y: usize| sort_by_key(l, key).contains(y) <==> l.contains(y) by {
            if l.contains(y) && y != l.last() {
                let k = choose|k: int| 0 <= k < l.len() && l[k] == y;
                assert(k < l.len() - 1);
                assert(l2[k] == y);
            }
            if l2.contains(y) {
                let k = choose|k: int| 0 <= k < l2.len() && l2[k] == y;
                assert(l[k] == y);
            }
            if y == l.last() {
                assert(l[l.len() - 1] == y);
            }
        }
    }
}

proof fn lemma_indices_where(n: int, q: spec_fn(usize) -> bool)
    requires
        0 <= n <= usize::MAX + 1,
    ensures
        forall|a: int, b: int|
            0 <= a < b < indices_where(n, q).len() ==> indices_where(n, q)[a] < indices_where(n, q)[b],
        forall|y: usize| indices_where(n, q).contains(y) <==> (y < n && q(y)),
    decreases n,
{
    if n > 0 {
        lemma_indices_where(n - 1, q);
        let r = indices_where(n - 1, q);
        if q((n - 1) as usize) {
            let r2 = r.push((n - 1) as usize);
            assert forall|a: int, b: int| 0 <= a < b < r2.len() implies r2[a] < r2[b] by {
                if b == r2.len() - 1 {
                    assert(r.contains(r[a]));
                }
            }
            assert forall|y: usize| r2.contains(y) <==> (y < n && q(y)) by {
                if r2.contains(y) && y != (n - 1) as usize {
                    let k = choose|k: int| 0 <= k < r2.len() && r2[k] == y;
                    assert(r[k] == y);
                    assert(r.contains(y));
                }
                if y < n - 1 && q(y) {
                    assert(r.contains(y));
                    let k = choose|k: int| 0 <= k < r.len() && r[k] == y;
                    assert(r2[k] == y);
                }
                if y == (n - 1) as usize {
                    assert(r2[r2.len() - 1] == y);
                }
            }
        }
    }
}

/// The indices below `n` that satisfy `q` can be put in key order.
proof fn lemma_in_key_order_exists(
    n: int,
    q: spec_fn(usize) -> bool,
    key: spec_fn(usize) -> (int, int, int),
)
    requires
        0 <= n <= usize::MAX + 1,
        forall|x: usize| #[trigger] q(x) ==> x < n,
        forall|a: usize, b: usize| a != b ==> #[trigger] key(a) != #[trigger] key(b),
    ensures
        members(in_key_order(q, key), q),
        sorted_by(in_key_order(q, key), key),
{
    let l = indices_where(n, q);
    lemma_indices_where(n, q);
    lemma_sort_by_key(l, key);
    let s = sort_by_key(l, key);
    assert forall|x: usize| s.contains(x) <==> q(x) by {
        if q(x) {
            assert(l.contains(x));
        }
        if s.contains(x) {
            assert(l.contains(x));
        }
    }
    assert(members(s, q) && sorted_by(s, key));
}

/// A sequence that has the members and order that `in_key_order` asks for
/// is `in_key_order`.
proof fn lemma_in_key_order(
    s: Seq<usize>,
    q: spec_fn(usize) -> bool,
    key: spec_fn(usize) -> (int, int, int),
)
    requires
        members(s, q),
        sorted_by(s, key),
        forall|x: usize, y: usize| x != y ==> #[trigger] key(x) != #[trigger] key(y),
    ensures
        in_key_order(q, key) == s,
{
    let c = in_key_order(q, key);
    assert(members(c, q) && sorted_by(c, key));
    lemma_sorted_unique(c, s, key);
}

/// The position a symbol `name` is given by `order`: that of the first pair
/// with that name, or `dflt`.
pub open spec fn order_position(order: Seq<(Seq<char>, usize)>, name: Seq<char>, dflt: int) -> int
    decreases order.len(),
{
    if order.len() == 0 {
        dflt
    } else if order[0].0 == name {
        order[0].1 as int
    } else {
        order_position(order.drop_first(), name, dflt)
    }
}

/// The views of a list of (name, position) pairs.
pub open spec fn order_views(v: Seq<(String, usize)>) -> Seq<(Seq<char>, usize)> {
    v.map_values(|p: (String, usize)| (p.0@, p.1))
}

/// How the symbols of a split section are ordered: by address (first pass),
/// by symbol order for NOBITS sections, else by binding then address; the
/// symbol index breaks ties, as the stable sorts of the splitter do.
pub open spec fn entry_key(
    syms: Seq<SymbolView>,
    mode: int,
    order: Seq<(Seq<char>, usize)>,
    i: usize,
) -> (int, int, int) {
    if mode == 0 {
        (syms[i as int].st_value as int, i as int, 0)
    } else if mode == 1 {
        (spec_bind(syms[i as int].st_info) as int, syms[i as int].st_value as int, i as int)
    } else {
        (
            order_position(order, syms[i as int].name, i as int),
            syms[i as int].st_value as int,
            i as int,
        )
    }
}

/// The key function of mode `mode`.
pub open spec fn key_fn(syms: Seq<SymbolView>, mode: int, order: Seq<(Seq<char>, usize)>) -> spec_fn(
    usize,
) -> (int, int, int) {
    |i: usize| entry_key(syms, mode, order, i)
}

/// The symbols that split section `idx`.
pub open spec fn qualifying(syms: Seq<SymbolView>, idx: int) -> spec_fn(usize) -> bool {
    |i: usize| (i as int) < syms.len() && qualifies(syms[i as int], idx)
}

fn lookup_order(order: &Vec<(String, usize)>, name: &String, dflt: usize) -> (p: usize)
    ensures
        p as int == order_position(order_views(order@), name@, dflt as int),
{
    let n = order.len();
    let mut i: usize = 0;
    assert(order_views(order@).skip(0) =~= order_views(order@));
    while i < n
        invariant
            n == order@.len(),
            i <= n,
            order_position(order_views(order@), name@, dflt as int) == order_position(
                order_views(order@).skip(i as int),
                name@,
                dflt as int,
            ),
        decreases n - i,
    {
        let ghost rest = order_views(order@).skip(i as int);
        assert(rest.drop_first() =~= order_views(order@).skip(i + 1));
        if order[i].0 == *name {
            return order[i].1;
        }
        i += 1;
    }
    0 + dflt
}

fn key_of(syms: &Vec<Symbol>, i: usize, mode: u8, order: &Vec<(String, usize)>) -> (k: (
    usize,
    usize,
    usize,
))
    requires
        i < syms@.len(),
    ensures
        (k.0 as int, k.1 as int, k.2 as int) == key_fn(
            crate::elf::symbol::symbol_views(syms@),
            mode as int,
            order_views(order@),
        )(i),
{
    let s = &syms[i];
    if mode == 0 {
        (s.st_value as usize, i, 0)
    } else if mode == 1 {
        (s.bind() as usize, s.st_value as usize, i)
    } else {
        (lookup_order(order, &s.name, i), s.st_value as usize, i)
    }
}

fn key_less(a: (usize, usize, usize), b: (usize, usize, usize)) -> (r: bool)
    ensures
        r == key_lt((a.0 as int, a.1 as int, a.2 as int), (b.0 as int, b.1 as int, b.2 as int)),
{
    a.0 < b.0 || (a.0 == b.0 && (a.1 < b.1 || (a.1 == b.1 && a.2 < b.2)))
}

proof fn lemma_key_injective(syms: Seq<SymbolView>, mode: int, order: Seq<(Seq<char>, usize)>)
    ensures
        forall|a: usize, b: usize|
            a != b ==> #[trigger] key_fn(syms, mode, order)(a) != #[trigger] key_fn(
                syms,
                mode,
                order,
            )(b),
{
}

/// The indices `idxs` in increasing key order (insertion sort).
fn sort_indices(syms: &Vec<Symbol>, idxs: &Vec<usize>, mode: u8, order: &Vec<(String, usize)>) -> (r:
    Vec<usize>)
    requires
        forall|k: int| 0 <= k < idxs@.len() ==> idxs@[k] < syms@.len(),
        forall|a: int, b: int| 0 <= a < b < idxs@.len() ==> idxs@[a] != idxs@[b],
    ensures
        forall|x: usize| r@.contains(x) <==> idxs@.contains(x),
        sorted_by(
            r@,
            key_fn(crate::elf::symbol::symbol_views(syms@), mode as int, order_views(order@)),
        ),
{
    let ghost key = key_fn(crate::elf::symbol::symbol_views(syms@), mode as int, order_views(order@));
    proof {
        lemma_key_injective(crate::elf::symbol::symbol_views(syms@), mode as int, order_views(order@));
    }
    let n = idxs.len();
    let mut r: Vec<usize> = Vec::new();
    let mut i: usize = 0;
    while i < n
        invariant
            n == idxs@.len(),
            i <= n,
            key == key_fn(crate::elf::symbol::symbol_views(syms@), mode as int, order_views(order@)),
            forall|a: usize, b: usize| a != b ==> #[trigger] key(a) != #[trigger] key(b),
            forall|k: int| 0 <= k < idxs@.len() ==> idxs@[k] < syms@.len(),
            forall|a: int, b: int| 0 <= a < b < idxs@.len() ==> idxs@[a] != idxs@[b],
            forall|x: usize| r@.contains(x) <==> idxs@.take(i as int).contains(x),
            forall|k: int| 0 <= k < r@.len() ==> r@[k] < syms@.len(),
            sorted_by(r@, key),
        decreases n - i,
    {
        let x = idxs[i];
        assert(!r@.contains(x)) by {
            if r@.contains(x) {
                assert(idxs@.take(i as int).contains(x));
                let k = choose|k: int| 0 <= k < i && #[trigger] idxs@.take(i as int)[k] == x;
                assert(idxs@[k] == idxs@[i as int]);
            }
        }
        let kx = key_of(syms, x, mode, order);
        let m = r.len();
        let mut p: usize = 0;
        let mut done = false;
        while p < m && !done
            invariant
                m == r@.len(),
                p <= m,
                x < syms@.len(),
                !r@.contains(x),
                (kx.0 as int, kx.1 as int, kx.2 as int) == key(x),
                key == key_fn(crate::elf::symbol::symbol_views(syms@), mode as int, order_views(order@)),
                forall|a: usize, b: usize| a != b ==> #[trigger] key(a) != #[trigger] key(b),
                forall|k: int| 0 <= k < r@.len() ==> r@[k] < syms@.len(),
                forall|k: int| 0 <= k < p ==> key_lt(key(r@[k]), key(x)),
                done ==> p < m && key_lt(key(x), key(r@[p as int])),
            decreases m - p + (if done { 0int } else { 1int }),
        {
            let kp = key_of(syms, r[p], mode, order);
            if key_less(kx, kp) {
                done = true;
            } else {
                assert(r@[p as int] != x);
                assert(key(r@[p as int]) != key(x));
                p += 1;
            }
        }
        let ghost old_r = r@;
        r.insert(p, x);
        proof {
            assert(r@ == old_r.insert(p as int, x));
            assert forall|a: int, b: int| 0 <= a < b < r@.len() implies key_lt(
                key(r@[a]),
                key(r@[b]),
            ) by {
                if b < p {
                } else if b == p {
                } else if a < p {
                    assert(r@[b] == old_r[b - 1]);
                    if p < m {
                        assert(key_lt(key(x), key(old_r[p as int])));
                        if b - 1 > p {
                            assert(key_lt(key(old_r[p as int]), key(old_r[b - 1])));
                        }
                    }
                } else if a == p {
                    assert(r@[b] == old_r[b - 1]);
                    assert(key_lt(key(x), key(old_r[p as int])));
                    if b - 1 > p {
                        assert(key_lt(key(old_r[p as int]), key(old_r[b - 1])));
                    }
                } else {
                    assert(r@[a] == old_r[a - 1]);
                    assert(r@[b] == old_r[b - 1]);
                }
            }
            assert(idxs@.take(i + 1) =~= idxs@.take(i as int).push(x));
            assert forall|y: usize| r@.contains(y) <==> idxs@.take(i + 1).contains(y) by {
                if r@.contains(y) {
                    let k = choose|k: int| 0 <= k < r@.len() && r@[k] == y;
                    if k < p {
                        assert(old_r[k] == y);
                        assert(old_r.contains(y));
                    } else if k > p {
                        assert(old_r[k - 1] == y);
                        assert(old_r.contains(y));
                    }
                    assert(idxs@.take(i + 1).contains(y)) by {
                        if y == x {
                            assert(idxs@.take(i + 1)[i as int] == x);
                        } else {
                            assert(idxs@.take(i as int).contains(y));
                            let k2 = choose|k2: int| 0 <= k2 < i && #[trigger] idxs@.take(i as int)[k2] == y;
                            assert(idxs@.take(i + 1)[k2] == y);
                        }
                    }
                }
                if idxs@.take(i + 1).contains(y) {
                    let k = choose|k: int| 0 <= k < i + 1 && #[trigger] idxs@.take(i + 1)[k] == y;
                    if k == i {
                        assert(r@[p as int] == y);
                    } else {
                        assert(idxs@.take(i as int)[k] == y);
                        assert(old_r.contains(y));
                        let k2 = choose|k2: int| 0 <= k2 < old_r.len() && old_r[k2] == y;
                        if k2 < p {
                            assert(r@[k2] == y);
                        } else {
                            assert(r@[k2 + 1] == y);
                        }
                    }
                }
            }
            assert forall|k: int| 0 <= k < r@.len() implies r@[k] < syms@.len() by {
                if k < p {
                    assert(r@[k] == old_r[k]);
                } else if k > p {
                    assert(r@[k] == old_r[k - 1]);
                }
            }
        }
        i += 1;
    }
    assert(idxs@.take(n as int) =~= idxs@);
    r
}

/// The first index below `n`, from `i` on, that satisfies `p`.
pub open spec fn first_from(i: int, n: int, p: spec_fn(int) -> bool) -> Option<int>
    decreases n - i,
{
    if i >= n {
        None
    } else if p(i) {
        Some(i)
    } else {
        first_from(i + 1, n, p)
    }
}

pub(crate) proof fn lemma_first_from(i: int, n: int, p: spec_fn(int) -> bool)
    ensures
        first_from(i, n, p) matches Some(k) ==> i <= k < n && p(k) && forall|j: int|
            #![trigger p(j)] i <= j < k ==> !p(j),
        first_from(i, n, p) is None ==> forall|j: int| #![trigger p(j)] i <= j < n ==> !p(j),
    decreases n - i,
{
    if i < n && !p(i) {
        lemma_first_from(i + 1, n, p);
    }
}

pub(crate) proof fn lemma_first_from_at(i: int, k: int, n: int, p: spec_fn(int) -> bool)
    requires
        i <= k < n,
        p(k),
        forall|j: int| #![trigger p(j)] i <= j < k ==> !p(j),
    ensures
        first_from(i, n, p) == Some(k),
    decreases k - i,
{
    if i < k {
        lemma_first_from_at(i + 1, k, n, p);
    }
}

pub(crate) proof fn lemma_first_from_none(i: int, n: int, p: spec_fn(int) -> bool)
    requires
        forall|j: int| #![trigger p(j)] i <= j < n ==> !p(j),
    ensures
        first_from(i, n, p) is None,
    decreases n - i,
{
    if i < n {
        lemma_first_from_none(i + 1, n, p);
    }
}

/// The first section named `name`.
pub open spec fn section_named(secs: Seq<SectionView>, name: Seq<char>) -> Option<int> {
    first_from(0, secs.len() as int, |i: int| secs[i].name == name)
}

/// The first REL section named `.rel` followed by `name`.
pub open spec fn rel_section_named(secs: Seq<SectionView>, name: Seq<char>) -> Option<int> {
    first_from(
        0,
        secs.len() as int,
        |i: int| secs[i].name == ".rel"@ + name && secs[i].sh_type == SHT_REL,
    )
}

/// Walking the symbols `l` in address order, each must start where the
/// previous one ended, or there rounded up to its alignment; the end of the
/// last one, or `None` where one does not.
pub open spec fn coverage_end(syms: Seq<SymbolView>, l: Seq<usize>) -> Option<int>
    decreases l.len(),
{
    if l.len() == 0 {
        Some(0)
    } else {
        match coverage_end(syms, l.drop_last()) {
            None => None,
            Some(expected) => {
                let s = syms[l.last() as int];
                let a = alignment(s.name, s.st_size);
                if s.st_value == expected || s.st_value == align_up(expected, a as int) {
                    Some(s.st_value + s.st_size)
                } else {
                    None
                }
            },
        }
    }
}

proof fn lemma_coverage_prefix_none(syms: Seq<SymbolView>, l: Seq<usize>, k: int)
    requires
        0 <= k <= l.len(),
        coverage_end(syms, l.take(k)) is None,
    ensures
        coverage_end(syms, l) is None,
    decreases l.len() - k,
{
    if k < l.len() {
        assert(l.take(k + 1).drop_last() =~= l.take(k));
        lemma_coverage_prefix_none(syms, l, k + 1);
    } else {
        assert(l.take(k) =~= l);
    }
}

/// Section `idx` is one that splitting looks at: the first section called
/// one of `split_names()`.
pub open spec fn split_section(elf: ElfView, idx: int) -> bool {
    exists|m: int| 0 <= m < 6 && #[trigger] section_named(elf.sections, split_names()[m]) == Some(idx)
}

/// Every symbol with a size in a section that splitting looks at ends at
/// least 3 bytes below 2^32, so that the coverage walk computes in 32 bits.
pub open spec fn offsets_fit(elf: ElfView) -> bool {
    let syms = elf.symtab.symbols;
    forall|i: int|
        0 <= i < syms.len() && (#[trigger] syms[i]).st_size > 0 && split_section(
            elf,
            syms[i].st_shndx as int,
        ) ==> syms[i].st_value + syms[i].st_size + 3 <= u32::MAX
}

/// How one monolithic section is split.
pub struct SplitInfo {
    /// the section to split
    pub section_idx: int,
    /// its REL section, where there is one
    pub rel_idx: Option<int>,
    /// the symbols that get a section each, in the order of the new sections
    pub entries: Seq<usize>,
}

/// How the section named `name` is split: the symbols in it with a size
/// (other than NON_MATCHING ones) must cover it from offset 0 to its end,
/// each following the previous one directly or after alignment padding.
/// The new sections come in symbol order for NOBITS sections, else local
/// symbols first, each group by address.
pub open spec fn split_info(elf: ElfView, name: Seq<char>, order: Seq<(Seq<char>, usize)>) -> Option<
    SplitInfo,
> {
    match section_named(elf.sections, name) {
        None => None,
        Some(idx) => {
            let syms = elf.symtab.symbols;
            let q = qualifying(syms, idx);
            let by_value = in_key_order(q, key_fn(syms, 0, order));
            if by_value.len() == 0 {
                None
            } else {
                match coverage_end(syms, by_value) {
                    None => None,
                    Some(end) => {
                        let sec = elf.sections[idx];
                        let actual = if sec.sh_type != SHT_NOBITS {
                            sec.data.len() as u32
                        } else {
                            sec.sh_size
                        };
                        if end != actual {
                            None
                        } else {
                            Some(
                                SplitInfo {
                                    section_idx: idx,
                                    rel_idx: rel_section_named(elf.sections, name),
                                    entries: in_key_order(
                                        q,
                                        key_fn(
                                            syms,
                                            if sec.sh_type == SHT_NOBITS {
                                                2
                                            } else {
                                                1
                                            },
                                            order,
                                        ),
                                    ),
                                },
                            )
                        }
                    },
                }
            }
        },
    }
}

struct SectionSplit {
    section_idx: usize,
    rel_section_idx: Option<usize>,
    entries: Vec<usize>,
}

impl View for SectionSplit {
    type V = SplitInfo;

    closed spec fn view(&self) -> SplitInfo {
        SplitInfo {
            section_idx: self.section_idx as int,
            rel_idx: match self.rel_section_idx {
                Some(i) => Some(i as int),
                None => None,
            },
            entries: self.entries@,
        }
    }
}

pub(crate) fn find_section(elf: &Elf, name: &String) -> (r: Option<usize>)
    ensures
        r matches Some(i) ==> section_named(elf@.sections, name@) == Some(i as int),
        r is None ==> section_named(elf@.sections, name@) is None,
{
    let ghost secs = elf@.sections;
    let ghost p = |i: int| secs[i].name == name@;
    let n = elf.sections.len();
    let mut i: usize = 0;
    while i < n
        invariant
            n == elf.sections@.len(),
            secs == elf@.sections,
            p == (|i: int| secs[i].name == name@),
            i <= n,
            forall|j: int| #![trigger p(j)] 0 <= j < i ==> !p(j),
        decreases n - i,
    {
        if elf.sections[i].name == *name {
            proof {
                lemma_first_from_at(0, i as int, n as int, p);
            }
            return Some(i);
        }
        i += 1;
    }
    proof {
        lemma_first_from_none(0, n as int, p);
    }
    None
}

fn find_rel_section(elf: &Elf, rel_name: &String, Ghost(name): Ghost<Seq<char>>) -> (r: Option<usize>)
    requires
        rel_name@ == ".rel"@ + name,
    ensures
        r matches Some(i) ==> rel_section_named(elf@.sections, name) == Some(i as int),
        r is None ==> rel_section_named(elf@.sections, name) is None,
{
    let ghost secs = elf@.sections;
    let ghost p = |i: int| secs[i].name == ".rel"@ + name && secs[i].sh_type == SHT_REL;
    let n = elf.sections.len();
    let mut i: usize = 0;
    while i < n
        invariant
            n == elf.sections@.len(),
            secs == elf@.sections,
            rel_name@ == ".rel"@ + name,
            p == (|i: int| secs[i].name == ".rel"@ + name && secs[i].sh_type == SHT_REL),
            i <= n,
            forall|j: int| #![trigger p(j)] 0 <= j < i ==> !p(j),
        decreases n - i,
    {
        if elf.sections[i].name == *rel_name && elf.sections[i].sh_type == SHT_REL {
            proof {
                lemma_first_from_at(0, i as int, n as int, p);
            }
            return Some(i);
        }
        i += 1;
    }
    proof {
        lemma_first_from_none(0, n as int, p);
    }
    None
}

/// Whether `name` marks a symbol as not matching.
pub(crate) fn is_non_matching(name: &String) -> (r: bool)
    ensures
        r == contains_sub(name@, "NON_MATCHING"@),
{
    let c = chars_of(name.as_str());
    let pat = chars_of("NON_MATCHING");
    chars_contain(c.as_slice(), pat.as_slice())
}

/// The symbols of section `idx` that get a section each, in index order.
fn qualifying_symbols(elf: &Elf, idx: usize) -> (r: Vec<usize>)
    ensures
        forall|x: usize| r@.contains(x) <==> qualifying(elf@.symtab.symbols, idx as int)(x),
        forall|k: int| 0 <= k < r@.len() ==> r@[k] < elf@.symtab.symbols.len(),
        forall|a: int, b: int| 0 <= a < b < r@.len() ==> r@[a] < r@[b],
{
    let ghost syms = elf@.symtab.symbols;
    let n = elf.symtab.symbols.len();
    let mut r: Vec<usize> = Vec::new();
    let mut i: usize = 0;
    while i < n
        invariant
            n == syms.len(),
            syms == elf@.symtab.symbols,
            i <= n,
            forall|k: int| 0 <= k < r@.len() ==> r@[k] < i,
            forall|a: int, b: int| 0 <= a < b < r@.len() ==> r@[a] < r@[b],
            forall|x: usize| r@.contains(x) <==> (x < i && qualifying(syms, idx as int)(x)),
        decreases n - i,
    {
        let s = &elf.symtab.symbols[i];
        let ghost sv = syms[i as int];
        assert(sv == s@);
        let keep = s.st_shndx as usize == idx && s.st_size > 0 && !is_non_matching(&s.name);
        assert(keep == qualifying(syms, idx as int)(i));
        if keep {
            let ghost old_r = r@;
            r.push(i);
            proof {
                assert forall|x: usize| r@.contains(x) <==> (x < i + 1 && qualifying(
                    syms,
                    idx as int,
                )(x)) by {
                    if r@.contains(x) && x != i {
                        let k = choose|k: int| 0 <= k < r@.len() && r@[k] == x;
                        assert(k < old_r.len());
                        assert(old_r[k] == x);
                        assert(old_r.contains(x));
                    }
                    if r@.contains(x) && x == i {
                        assert(qualifying(syms, idx as int)(i));
                    }
                    if x == i {
                        assert(r@[r@.len() - 1] == x);
                    } else if x < i && qualifying(syms, idx as int)(x) {
                        assert(old_r.contains(x));
                        let k = choose|k: int| 0 <= k < old_r.len() && old_r[k] == x;
                        assert(r@[k] == x);
                    }
                }
            }
        }
        i += 1;
    }
    r
}

fn collect_split_info(
    elf: &Elf,
    section_name: &str,
    symbol_order: &Vec<(String, usize)>,
    Ghost(m): Ghost<int>,
) -> (r: Option<SectionSplit>)
    requires
        0 <= m < 6,
        section_name@ == split_names()[m],
        offsets_fit(elf@),
    ensures
        r matches Some(s) ==> split_info(elf@, section_name@, order_views(symbol_order@)) == Some(
            s@,
        ),
        r is None ==> split_info(elf@, section_name@, order_views(symbol_order@)) is None,
        r matches Some(s) ==> s.section_idx < elf@.sections.len() && (s.rel_section_idx matches Some(
            ri,
        ) ==> ri < elf@.sections.len()) && forall|k: int|
            0 <= k < s.entries@.len() ==> s.entries@[k] < elf@.symtab.symbols.len(),
{
    let ghost syms = elf@.symtab.symbols;
    let ghost order = order_views(symbol_order@);
    let name = section_name.to_owned();
    let idx = match find_section(elf, &name) {
        Some(i) => i,
        None => return None,
    };
    proof {
        lemma_first_from(0, elf@.sections.len() as int, |i: int| elf@.sections[i].name == name@);
    }
    let ghost q = qualifying(syms, idx as int);
    let idxs = qualifying_symbols(elf, idx);
    proof {
        lemma_key_injective(syms, 0, order);
        lemma_key_injective(syms, 1, order);
        lemma_key_injective(syms, 2, order);
    }
    let by_value = sort_indices(&elf.symtab.symbols, &idxs, 0, symbol_order);
    proof {
        lemma_in_key_order(by_value@, q, key_fn(syms, 0, order));
    }
    if by_value.len() == 0 {
        return None;
    }
    let n = by_value.len();
    let mut expected: u32 = 0;
    let mut k: usize = 0;
    assert(by_value@.take(0) =~= Seq::<usize>::empty());
    while k < n
        invariant
            n == by_value@.len(),
            k <= n,
            syms == elf@.symtab.symbols,
            offsets_fit(elf@),
            split_section(elf@, idx as int),
            forall|x: usize| by_value@.contains(x) <==> q(x),
            q == qualifying(syms, idx as int),
            order == order_views(symbol_order@),
            in_key_order(q, key_fn(syms, 0, order)) == by_value@,
            section_named(elf@.sections, section_name@) == Some(idx as int),
            coverage_end(syms, by_value@.take(k as int)) == Some(expected as int),
            k == 0 ==> expected == 0,
            expected + 3 <= u32::MAX,
        decreases n - k,
    {
        let si = by_value[k];
        assert(by_value@.contains(si));
        let s = &elf.symtab.symbols[si];
        assert(syms[si as int] == s@);
        assert(s.st_size > 0);
        let align = alignment_for(s.name.as_str(), s.st_size);
        let aligned = (expected + (align - 1)) & !(align - 1);
        proof {
            lemma_align_bits(expected, align);
            assert(by_value@.take(k + 1).drop_last() =~= by_value@.take(k as int));
            assert(by_value@.take(k + 1).last() == si);
        }
        if s.st_value != expected && s.st_value != aligned {
            proof {
                lemma_coverage_prefix_none(syms, by_value@, k + 1);
                assert(coverage_end(syms, by_value@) is None);
                assert(in_key_order(q, key_fn(syms, 0, order)) == by_value@);
                assert(section_named(elf@.sections, section_name@) == Some(idx as int));
            }
            return None;
        }
        expected = s.st_value + s.st_size;
        k += 1;
    }
    assert(by_value@.take(n as int) =~= by_value@);
    let sec = &elf.sections[idx];
    let actual_size = if sec.sh_type != SHT_NOBITS {
        sec.data.len() as u32
    } else {
        sec.sh_size
    };
    if expected != actual_size {
        return None;
    }
    let mode: u8 = if sec.sh_type == SHT_NOBITS {
        2
    } else {
        1
    };
    let entries = sort_indices(&elf.symtab.symbols, &idxs, mode, symbol_order);
    proof {
        lemma_in_key_order(entries@, q, key_fn(syms, mode as int, order));
    }
    let rel_name = concat_strs(".rel", section_name);
    let rel_section_idx = find_rel_section(elf, &rel_name, Ghost(section_name@));
    proof {
        lemma_first_from(
            0,
            elf@.sections.len() as int,
            |i: int| elf@.sections[i].name == ".rel"@ + section_name@ && elf@.sections[i].sh_type
                == SHT_REL,
        );
        assert forall|k: int| 0 <= k < entries@.len() implies entries@[k] < elf@.symtab.symbols.len() by {
            assert(entries@.contains(entries@[k]));
        }
    }
    Some(SectionSplit { section_idx: idx, rel_section_idx, entries })
}

/// The monolithic sections that are split, in this order.
pub open spec fn split_names() -> Seq<Seq<char>> {
    seq![".text"@, ".rodata"@, ".data"@, ".sdata"@, ".sbss"@, ".bss"@]
}

/// The splits of the first `m` of `split_names()` that can be split.
pub open spec fn splits_upto(elf: ElfView, order: Seq<(Seq<char>, usize)>, m: int) -> Seq<SplitInfo>
    decreases m,
{
    if m <= 0 {
        Seq::empty()
    } else {
        let r = splits_upto(elf, order, m - 1);
        match split_info(elf, split_names()[m - 1], order) {
            Some(info) => r.push(info),
            None => r,
        }
    }
}

/// The splits made.
pub open spec fn splits_of(elf: ElfView, order: Seq<(Seq<char>, usize)>) -> Seq<SplitInfo> {
    splits_upto(elf, order, 6)
}

/// Section `o` goes away: it is split, or it is the REL section of one that
/// is.
pub open spec fn removed(infos: Seq<SplitInfo>, o: int) -> bool {
    exists|k: int| 0 <= k < infos.len() && (#[trigger] infos[k].section_idx == o || infos[k].rel_idx
        == Some(o))
}

/// The split of section `o`, where it is split.
pub open spec fn split_at(infos: Seq<SplitInfo>, o: int) -> Option<int> {
    first_from(0, infos.len() as int, |k: int| infos[k].section_idx == o)
}

/// The relocations of the section a split splits.
pub open spec fn split_relocations(elf: ElfView, info: SplitInfo) -> Seq<RelocationView> {
    match info.rel_idx {
        Some(ri) => relocations_from_bytes(elf.sections[ri].data),
        None => Seq::empty(),
    }
}

/// The relocations in `[start, start + size)`, made relative to `start`.
pub open spec fn relocations_within(rs: Seq<RelocationView>, start: int, size: int) -> Seq<
    RelocationView,
>
    decreases rs.len(),
{
    if rs.len() == 0 {
        Seq::empty()
    } else {
        let r = relocations_within(rs.drop_last(), start, size);
        let x = rs.last();
        if start <= x.r_offset < start + size {
            r.push(RelocationView { r_offset: (x.r_offset - start) as u32, ..x })
        } else {
            r
        }
    }
}

/// A relocation made relative to `start`.
pub open spec fn rebased(x: RelocationView, start: int) -> RelocationView {
    RelocationView { r_offset: (x.r_offset - start) as u32, ..x }
}

/// The relocations kept for a range `[start, start + size)` are exactly
/// those of `rs` that fall in it, each moved to its offset from `start`:
/// every kept relocation lies inside the new section (offset below
/// `size`) and comes from one of `rs` in the range, and every relocation
/// of `rs` in the range is kept.
pub proof fn law_relocations_within(rs: Seq<RelocationView>, start: int, size: int)
    requires
        0 <= start,
        0 <= size,
    ensures
        forall|t: int|
            0 <= t < relocations_within(rs, start, size).len() ==> (#[trigger] relocations_within(
                rs,
                start,
                size,
            )[t]).r_offset < size,
        forall|t: int|
            0 <= t < relocations_within(rs, start, size).len() ==> exists|i: int|
                0 <= i < rs.len() && start <= rs[i].r_offset < start + size && #[trigger] relocations_within(
                    rs,
                    start,
                    size,
                )[t] == rebased(rs[i], start),
        forall|i: int|
            0 <= i < rs.len() && start <= (#[trigger] rs[i]).r_offset < start + size ==> relocations_within(
                rs,
                start,
                size,
            ).contains(rebased(rs[i], start)),
    decreases rs.len(),
{
    if rs.len() > 0 {
        let r2 = rs.drop_last();
        law_relocations_within(r2, start, size);
        let w2 = relocations_within(r2, start, size);
        let w = relocations_within(rs, start, size);
        let x = rs.last();
        assert forall|t: int| 0 <= t < w.len() implies (#[trigger] w[t]).r_offset < size && exists|i: int|
            0 <= i < rs.len() && start <= rs[i].r_offset < start + size && w[t] == rebased(rs[i], start) by {
            if t < w2.len() {
                assert(w[t] == w2[t]);
                let i = choose|i: int|
                    0 <= i < r2.len() && start <= r2[i].r_offset < start + size && w2[t] == rebased(
                        r2[i],
                        start,
                    );
                assert(rs[i] == r2[i]);
            } else {
                assert(w[t] == rebased(x, start));
                assert(rs[rs.len() - 1] == x);
            }
        }
        assert forall|i: int| 0 <= i < rs.len() && start <= (#[trigger] rs[i]).r_offset < start + size implies w.contains(
            rebased(rs[i], start),
        ) by {
            if i < r2.len() {
                assert(rs[i] == r2[i]);
                let t = choose|t: int| 0 <= t < w2.len() && w2[t] == rebased(r2[i], start);
                assert(w[t] == w2[t]);
            } else {
                assert(w[w.len() - 1] == rebased(x, start));
            }
        }
    }
}

proof fn lemma_align_up_ge(x: int, a: int)
    requires
        a > 0,
    ensures
        align_up(x, a) >= x,
{
    assert((x + a - 1) / a * a >= x) by (nonlinear_arith)
        requires
            a > 0,
    {
        let q = (x + a - 1) / a;
        let r = (x + a - 1) % a;
        assert(x + a - 1 == q * a + r);
        assert(r < a);
    }
}

/// Symbols that cover a section in turn do not overlap: each one ends at
/// or before the start of every later one.
proof fn lemma_coverage_ordered(syms: Seq<SymbolView>, l: Seq<usize>)
    requires
        coverage_end(syms, l) is Some,
    ensures
        forall|t1: int, t2: int|
            0 <= t1 < t2 < l.len() ==> syms[(#[trigger] l[t1]) as int].st_value + syms[l[t1] as int].st_size
                <= syms[(#[trigger] l[t2]) as int].st_value,
    decreases l.len(),
{
    if l.len() > 0 {
        let l2 = l.drop_last();
        lemma_coverage_ordered(syms, l2);
        lemma_coverage_bounds(syms, l2);
        let e2 = coverage_end(syms, l2)->0;
        let s = syms[l.last() as int];
        let a = alignment(s.name, s.st_size);
        lemma_align_up_ge(e2, a as int);
        assert forall|t1: int, t2: int| 0 <= t1 < t2 < l.len() implies syms[(#[trigger] l[t1]) as int].st_value
            + syms[l[t1] as int].st_size <= syms[(#[trigger] l[t2]) as int].st_value by {
            assert(l[t1] == l2[t1]);
            if t2 < l.len() - 1 {
                assert(l[t2] == l2[t2]);
            }
        }
    }
}

/// The symbols a section is split into do not overlap: two different
/// entries' ranges share no offset, so a relocation of the section falls
/// in the range of at most one of them (and, by `law_relocations_within`,
/// lands in that entry's REL section only).
pub proof fn law_split_entries_disjoint(
    elf: ElfView,
    name: Seq<char>,
    order: Seq<(Seq<char>, usize)>,
    j1: int,
    j2: int,
    o: int,
)
    requires
        split_info(elf, name, order) is Some,
        0 <= j1 < split_info(elf, name, order)->0.entries.len(),
        0 <= j2 < split_info(elf, name, order)->0.entries.len(),
        j1 != j2,
    ensures
        ({
            let info = split_info(elf, name, order)->0;
            let s1 = elf.symtab.symbols[info.entries[j1] as int];
            let s2 = elf.symtab.symbols[info.entries[j2] as int];
            !(s1.st_value <= o < s1.st_value + s1.st_size && s2.st_value <= o < s2.st_value + s2.st_size)
        }),
{
    let info = split_info(elf, name, order)->0;
    let idx = section_named(elf.sections, name)->0;
    let syms = elf.symtab.symbols;
    let q = qualifying(syms, idx);
    let sec = elf.sections[idx];
    let mode = if sec.sh_type == SHT_NOBITS {
        2int
    } else {
        1int
    };
    let by_value = in_key_order(q, key_fn(syms, 0, order));
    lemma_key_injective(syms, 0, order);
    lemma_key_injective(syms, mode, order);
    let bound = if syms.len() > usize::MAX + 1 {
        usize::MAX + 1
    } else {
        syms.len() as int
    };
    lemma_in_key_order_exists(bound, q, key_fn(syms, 0, order));
    lemma_in_key_order_exists(bound, q, key_fn(syms, mode, order));
    let entries = info.entries;
    assert(entries == in_key_order(q, key_fn(syms, mode, order)));
    assert(entries[j1] != entries[j2]) by {
        if j1 < j2 {
            assert(key_lt(key_fn(syms, mode, order)(entries[j1]), key_fn(syms, mode, order)(entries[j2])));
        } else {
            assert(key_lt(key_fn(syms, mode, order)(entries[j2]), key_fn(syms, mode, order)(entries[j1])));
        }
    }
    assert(entries.contains(entries[j1]));
    assert(entries.contains(entries[j2]));
    assert(by_value.contains(entries[j1]));
    assert(by_value.contains(entries[j2]));
    let t1 = choose|t: int| 0 <= t < by_value.len() && by_value[t] == entries[j1];
    let t2 = choose|t: int| 0 <= t < by_value.len() && by_value[t] == entries[j2];
    lemma_coverage_ordered(syms, by_value);
    if t1 < t2 {
        assert(syms[by_value[t1] as int].st_value + syms[by_value[t1] as int].st_size <= syms[by_value[t2] as int].st_value);
    } else {
        assert(t1 != t2);
        assert(syms[by_value[t2] as int].st_value + syms[by_value[t2] as int].st_size <= syms[by_value[t1] as int].st_value);
    }
}

/// The symbol of entry `j` of split `k`.
pub open spec fn entry_symbol(elf: ElfView, infos: Seq<SplitInfo>, k: int, j: int) -> SymbolView {
    elf.symtab.symbols[infos[k].entries[j] as int]
}

/// The relocations that go with entry `j` of split `k`.
pub open spec fn entry_relocations(elf: ElfView, infos: Seq<SplitInfo>, k: int, j: int) -> Seq<
    RelocationView,
> {
    let s = entry_symbol(elf, infos, k, j);
    relocations_within(split_relocations(elf, infos[k]), s.st_value as int, s.st_size as int)
}

/// One section of the result: an old section kept, or the data section or
/// the REL section of entry `j` of split `k`.
pub enum Item {
    Keep(int),
    Data(int, int),
    Rel(int, int),
}

/// The new sections for the first `m` entries of split `k`.
pub open spec fn entries_plan(elf: ElfView, infos: Seq<SplitInfo>, k: int, m: int) -> Seq<Item>
    decreases m,
{
    if m <= 0 {
        Seq::empty()
    } else {
        let r = entries_plan(elf, infos, k, m - 1).push(Item::Data(k, m - 1));
        if entry_relocations(elf, infos, k, m - 1).len() > 0 {
            r.push(Item::Rel(k, m - 1))
        } else {
            r
        }
    }
}

/// The new sections that stand for old section `o`.
pub open spec fn section_plan(elf: ElfView, infos: Seq<SplitInfo>, o: int) -> Seq<Item> {
    if removed(infos, o) {
        match split_at(infos, o) {
            Some(k) => entries_plan(elf, infos, k, infos[k].entries.len() as int),
            None => Seq::empty(),
        }
    } else {
        seq![Item::Keep(o)]
    }
}

/// The new sections that stand for the first `o` old sections.
pub open spec fn plan_upto(elf: ElfView, infos: Seq<SplitInfo>, o: int) -> Seq<Item>
    decreases o,
{
    if o <= 0 {
        Seq::empty()
    } else {
        plan_upto(elf, infos, o - 1) + section_plan(elf, infos, o - 1)
    }
}

/// Where old section `o` stands among the new sections, if it is kept.
pub open spec fn keep_pos(elf: ElfView, infos: Seq<SplitInfo>, o: int) -> Option<int> {
    if 0 <= o < elf.sections.len() && !removed(infos, o) {
        Some(plan_upto(elf, infos, o).len() as int)
    } else {
        None
    }
}

/// Where the data section of entry `j` of split `k` stands.
pub open spec fn data_pos(elf: ElfView, infos: Seq<SplitInfo>, k: int, j: int) -> int {
    (plan_upto(elf, infos, infos[k].section_idx).len() + entries_plan(elf, infos, k, j).len()) as int
}

/// The name of the data section of entry `j` of split `k`.
pub open spec fn data_name(elf: ElfView, infos: Seq<SplitInfo>, plain: bool, k: int, j: int) -> Seq<
    char,
> {
    let orig = elf.sections[infos[k].section_idx].name;
    if plain {
        orig
    } else {
        orig + "."@ + entry_symbol(elf, infos, k, j).name
    }
}

/// The name of the REL section of entry `j` of split `k`.
pub open spec fn rel_name(elf: ElfView, infos: Seq<SplitInfo>, plain: bool, k: int, j: int) -> Seq<
    char,
> {
    let orig = elf.sections[infos[k].section_idx].name;
    if plain {
        ".rel"@ + orig
    } else {
        ".rel"@ + orig + "."@ + entry_symbol(elf, infos, k, j).name
    }
}

/// The section-name string table after the names of the first `p` new
/// sections are added.
pub open spec fn names_after(
    elf: ElfView,
    infos: Seq<SplitInfo>,
    plain: bool,
    plan: Seq<Item>,
    p: int,
) -> StrTabView
    decreases p,
{
    if p <= 0 {
        elf.shstrtab
    } else {
        let t = names_after(elf, infos, plain, plan, p - 1);
        match plan[p - 1] {
            Item::Keep(_) => t,
            Item::Data(k, j) => added(t, data_name(elf, infos, plain, k, j)),
            Item::Rel(k, j) => added(t, rel_name(elf, infos, plain, k, j)),
        }
    }
}

/// The name of plan item `item` where it makes a new section.
pub open spec fn item_name(elf: ElfView, infos: Seq<SplitInfo>, plain: bool, item: Item) -> Seq<char> {
    match item {
        Item::Keep(_) => Seq::empty(),
        Item::Data(k, j) => data_name(elf, infos, plain, k, j),
        Item::Rel(k, j) => rel_name(elf, infos, plain, k, j),
    }
}

proof fn lemma_names_after_packed(elf: ElfView, infos: Seq<SplitInfo>, plain: bool, plan: Seq<Item>, q: int)
    requires
        elf.shstrtab.section.data == pack_strings(elf.shstrtab.symbols),
        0 <= q <= plan.len(),
        forall|r: int| 0 <= r < plan.len() ==> !item_name(elf, infos, plain, #[trigger] plan[r]).contains('\0'),
    ensures
        names_after(elf, infos, plain, plan, q).section.data == pack_strings(
            names_after(elf, infos, plain, plan, q).symbols,
        ),
    decreases q,
{
    if q > 0 {
        lemma_names_after_packed(elf, infos, plain, plan, q - 1);
        let t = names_after(elf, infos, plain, plan, q - 1);
        let nm = item_name(elf, infos, plain, plan[q - 1]);
        if !(plan[q - 1] is Keep) {
            crate::elf::strtab::law_add_then_pack_reads_back(t.section.data, t.symbols, nm);
        }
    }
}

proof fn lemma_names_after_keeps(
    elf: ElfView,
    infos: Seq<SplitInfo>,
    plain: bool,
    plan: Seq<Item>,
    p: int,
    q: int,
    needle: Seq<u8>,
    i: int,
)
    requires
        0 <= p <= q <= plan.len(),
        occurs_at(names_after(elf, infos, plain, plan, p).section.data, needle, i),
    ensures
        occurs_at(names_after(elf, infos, plain, plan, q).section.data, needle, i),
    decreases q - p,
{
    if p < q {
        let t = names_after(elf, infos, plain, plan, p);
        if !(plan[p] is Keep) {
            crate::elf::strtab::lemma_add_keeps_occurrence(
                t.section.data,
                item_name(elf, infos, plain, plan[p]),
                needle,
                i,
            );
        }
        lemma_names_after_keeps(elf, infos, plain, plan, p + 1, q, needle, i);
    }
}

/// Every new section's name reads back from the section-name table that
/// the split packs, at the name offset the section was given: where the
/// table's data holds exactly its strings and no new name holds a zero,
/// the text at `sh_name` of new section `p` in the packed final table is
/// its name (offsets within 32 bits).
pub proof fn law_split_names_read_back(
    elf: ElfView,
    infos: Seq<SplitInfo>,
    plain: bool,
    plan: Seq<Item>,
    p: int,
)
    requires
        elf.shstrtab.section.data == pack_strings(elf.shstrtab.symbols),
        0 <= p < plan.len(),
        !(plan[p] is Keep),
        forall|r: int| 0 <= r < plan.len() ==> !item_name(elf, infos, plain, #[trigger] plan[r]).contains('\0'),
        add_offset(
            names_after(elf, infos, plain, plan, p).section.data,
            item_name(elf, infos, plain, plan[p]),
        ) <= u32::MAX,
    ensures
        ({
            let names = names_after(elf, infos, plain, plan, plan.len() as int);
            let sec = raw_section(elf, infos, plain, plan, p);
            string_at(pack_strings(names.symbols), sec.sh_name as int) == sec.name
        }),
{
    let t = names_after(elf, infos, plain, plan, p);
    let nm = item_name(elf, infos, plain, plan[p]);
    crate::elf::strtab::lemma_added_occurs(t.section.data, nm);
    lemma_names_after_keeps(
        elf,
        infos,
        plain,
        plan,
        p + 1,
        plan.len() as int,
        terminated(nm),
        add_offset(t.section.data, nm),
    );
    lemma_names_after_packed(elf, infos, plain, plan, plan.len() as int);
    let names = names_after(elf, infos, plain, plan, plan.len() as int);
    crate::elf::strtab::lemma_string_at_terminated(
        names.section.data,
        add_offset(t.section.data, nm),
        nm,
    );
}

/// New section `p` before its links are renumbered.
pub open spec fn raw_section(
    elf: ElfView,
    infos: Seq<SplitInfo>,
    plain: bool,
    plan: Seq<Item>,
    p: int,
) -> SectionView {
    let t = names_after(elf, infos, plain, plan, p);
    match plan[p] {
        Item::Keep(o) => elf.sections[o],
        Item::Data(k, j) => {
            let orig = elf.sections[infos[k].section_idx];
            let s = entry_symbol(elf, infos, k, j);
            let name = data_name(elf, infos, plain, k, j);
            SectionView {
                sh_name: add_offset(t.section.data, name) as u32,
                sh_type: orig.sh_type,
                sh_flags: orig.sh_flags,
                sh_addr: 0,
                sh_offset: 0,
                sh_size: s.st_size,
                sh_link: 0,
                sh_info: 0,
                sh_addralign: alignment(s.name, s.st_size),
                sh_entsize: 0,
                data: if orig.sh_type != SHT_NOBITS {
                    orig.data.subrange(s.st_value as int, s.st_value + s.st_size)
                } else {
                    Seq::empty()
                },
                name,
            }
        },
        Item::Rel(k, j) => {
            let name = rel_name(elf, infos, plain, k, j);
            let data = relocations_bytes(entry_relocations(elf, infos, k, j));
            SectionView {
                sh_name: add_offset(t.section.data, name) as u32,
                sh_type: SHT_REL,
                sh_flags: 0,
                sh_addr: 0,
                sh_offset: 0,
                sh_size: data.len() as u32,
                sh_link: 0,
                sh_info: data_pos(elf, infos, k, j) as u32,
                sh_addralign: 4,
                sh_entsize: 8,
                data,
                name,
            }
        },
    }
}

/// A section link renumbered to the new sections, where it names a kept one.
pub open spec fn renumbered(elf: ElfView, infos: Seq<SplitInfo>, x: u32) -> u32 {
    match keep_pos(elf, infos, x as int) {
        Some(n) => n as u32,
        None => x,
    }
}

/// New section `s` with its links renumbered: a new REL section links to
/// the symbol table, a kept one has both links renumbered, and a symbol
/// table's string table link is renumbered.
pub open spec fn relinked(
    elf: ElfView,
    infos: Seq<SplitInfo>,
    s: SectionView,
    fresh: bool,
    new_symtab: int,
) -> SectionView {
    let s1 = if s.sh_type == SHT_REL {
        if fresh {
            SectionView { sh_link: new_symtab as u32, ..s }
        } else {
            SectionView {
                sh_link: renumbered(elf, infos, s.sh_link),
                sh_info: renumbered(elf, infos, s.sh_info),
                ..s
            }
        }
    } else {
        s
    };
    if s1.sh_type == SHT_SYMTAB {
        SectionView { sh_link: renumbered(elf, infos, s1.sh_link), ..s1 }
    } else {
        s1
    }
}

/// Entry `j` of split `k` is symbol `i`.
pub open spec fn entry_of(infos: Seq<SplitInfo>, k: int, i: int) -> int {
    choose|j: int| 0 <= j < infos[k].entries.len() && infos[k].entries[j] == i
}

/// The entry of split `k` whose range holds `v`, else the last entry.
pub open spec fn range_target(elf: ElfView, infos: Seq<SplitInfo>, k: int, v: int) -> int {
    let n = infos[k].entries.len() as int;
    match first_from(
        0,
        n,
        |j: int|
            entry_symbol(elf, infos, k, j).st_value <= v < entry_symbol(elf, infos, k, j).st_value
                + entry_symbol(elf, infos, k, j).st_size,
    ) {
        Some(j) => j,
        None => n - 1,
    }
}

/// Symbol `i` after the split: a split symbol moves to the start of its own
/// section, another symbol of a split section moves into the section whose
/// range holds it (else the last one), relative to that section's start,
/// and a symbol of a kept section follows its section.
pub open spec fn moved_symbol(elf: ElfView, infos: Seq<SplitInfo>, i: int) -> SymbolView {
    let s = elf.symtab.symbols[i];
    if s.st_shndx == 0 {
        s
    } else {
        match split_at(infos, s.st_shndx as int) {
            Some(k) => if infos[k].entries.contains(i as usize) {
                let j = entry_of(infos, k, i);
                SymbolView { st_shndx: data_pos(elf, infos, k, j) as u16, st_value: 0, ..s }
            } else {
                let j = range_target(elf, infos, k, s.st_value as int);
                let start = entry_symbol(elf, infos, k, j).st_value;
                SymbolView {
                    st_shndx: data_pos(elf, infos, k, j) as u16,
                    st_value: (s.st_value - start) as u32,
                    ..s
                }
            },
            None => match keep_pos(elf, infos, s.st_shndx as int) {
                Some(n) => SymbolView { st_shndx: n as u16, ..s },
                None => s,
            },
        }
    }
}

/// The object after splitting, where some section is split.
pub open spec fn split_object(elf: ElfView, infos: Seq<SplitInfo>, plain: bool) -> ElfView {
    let plan = plan_upto(elf, infos, elf.sections.len() as int);
    let names = names_after(elf, infos, plain, plan, plan.len() as int);
    let nsym = keep_pos(elf, infos, elf.symtab_idx as int)->0;
    let nstr = keep_pos(elf, infos, elf.strtab_idx as int)->0;
    let nsh = keep_pos(elf, infos, elf.shstrtab_idx as int)->0;
    let syms = Seq::new(elf.symtab.symbols.len(), |i: int| moved_symbol(elf, infos, i));
    let symtab_sec = SectionView { data: symbols_bytes(syms), ..elf.symtab.section };
    let shstr_sec = SectionView { data: pack_strings(names.symbols), ..names.section };
    let str_sec = SectionView { data: pack_strings(elf.strtab.symbols), ..elf.strtab.section };
    let secs = Seq::new(
        plan.len(),
        |p: int|
            relinked(
                elf,
                infos,
                raw_section(elf, infos, plain, plan, p),
                !(plan[p] is Keep),
                nsym,
            ),
    );
    ElfView {
        header: crate::elf::object::ElfHeader { e_shstrndx: nsh as u16, ..elf.header },
        sections: secs.update(nsym, symtab_sec).update(nsh, shstr_sec).update(nstr, str_sec),
        symtab: SymTabView { section: symtab_sec, symbols: syms },
        strtab: StrTabView { section: str_sec, symbols: elf.strtab.symbols },
        shstrtab: StrTabView { section: shstr_sec, symbols: names.symbols },
        symtab_idx: nsym as usize,
        strtab_idx: nstr as usize,
        shstrtab_idx: nsh as usize,
    }
}

/// What `split_monolithic_sections` makes of `elf`.
pub open spec fn split_result(elf: ElfView, plain: bool, order: Seq<(Seq<char>, usize)>) -> ElfView {
    let infos = splits_of(elf, order);
    if infos.len() == 0 {
        elf
    } else {
        split_object(elf, infos, plain)
    }
}

/// What the splitter relies on of a split: its sections exist, its
/// entries are distinct symbols of the section that have a size, and each
/// entry's range lies within the section's data.
pub open spec fn split_wf(elf: ElfView, info: SplitInfo) -> bool {
    let sec = elf.sections[info.section_idx];
    &&& 0 <= info.section_idx < elf.sections.len()
    &&& split_section(elf, info.section_idx)
    &&& (info.rel_idx matches Some(ri) ==> 0 <= ri < elf.sections.len()
        && elf.sections[ri].sh_type == SHT_REL)
    &&& info.entries.len() > 0
    &&& forall|a: int, b: int|
        0 <= a < b < info.entries.len() ==> info.entries[a] != info.entries[b]
    &&& forall|j: int|
        0 <= j < info.entries.len() ==> {
            let e = #[trigger] info.entries[j];
            &&& (e as int) < elf.symtab.symbols.len()
            &&& qualifies(elf.symtab.symbols[e as int], info.section_idx)
            &&& sec.sh_type != SHT_NOBITS ==> elf.symtab.symbols[e as int].st_value
                + elf.symtab.symbols[e as int].st_size <= sec.data.len()
        }
}

/// Every section's data fits the 32-bit sizes of ELF32.
pub open spec fn sections_fit(elf: ElfView) -> bool {
    forall|i: int| 0 <= i < elf.sections.len() ==> (#[trigger] elf.sections[i]).data.len() <= u32::MAX
}

proof fn lemma_coverage_bounds(syms: Seq<SymbolView>, l: Seq<usize>)
    requires
        coverage_end(syms, l) is Some,
    ensures
        forall|t: int|
            0 <= t < l.len() ==> syms[(#[trigger] l[t]) as int].st_value + syms[l[t] as int].st_size
                <= coverage_end(syms, l)->0,
    decreases l.len(),
{
    if l.len() > 0 {
        let l2 = l.drop_last();
        lemma_coverage_bounds(syms, l2);
        let e2 = coverage_end(syms, l2)->0;
        let s = syms[l.last() as int];
        let a = alignment(s.name, s.st_size);
        let ai = a as int;
        assert((e2 + ai - 1) / ai * ai >= e2) by (nonlinear_arith)
            requires
                ai == 1 || ai == 2 || ai == 4,
        ;
        assert forall|t: int| 0 <= t < l.len() implies syms[(#[trigger] l[t]) as int].st_value
            + syms[l[t] as int].st_size <= coverage_end(syms, l)->0 by {
            if t < l.len() - 1 {
                assert(l[t] == l2[t]);
            }
        }
    }
}

proof fn lemma_split_info_wf(elf: ElfView, name: Seq<char>, order: Seq<(Seq<char>, usize)>, m: int)
    requires
        0 <= m < 6,
        name == split_names()[m],
        sections_fit(elf),
        split_info(elf, name, order) is Some,
    ensures
        split_wf(elf, split_info(elf, name, order)->0),
{
    let info = split_info(elf, name, order)->0;
    let idx = section_named(elf.sections, name)->0;
    lemma_first_from(0, elf.sections.len() as int, |i: int| elf.sections[i].name == name);
    lemma_first_from(
        0,
        elf.sections.len() as int,
        |i: int| elf.sections[i].name == ".rel"@ + name && elf.sections[i].sh_type == SHT_REL,
    );
    let syms = elf.symtab.symbols;
    let q = qualifying(syms, idx);
    let sec = elf.sections[idx];
    let mode = if sec.sh_type == SHT_NOBITS {
        2int
    } else {
        1int
    };
    let by_value = in_key_order(q, key_fn(syms, 0, order));
    lemma_key_injective(syms, 0, order);
    lemma_key_injective(syms, mode, order);
    let bound = if syms.len() > usize::MAX + 1 {
        usize::MAX + 1
    } else {
        syms.len() as int
    };
    lemma_in_key_order_exists(bound, q, key_fn(syms, 0, order));
    lemma_in_key_order_exists(bound, q, key_fn(syms, mode, order));
    let entries = info.entries;
    assert(entries == in_key_order(q, key_fn(syms, mode, order)));
    assert(members(entries, q) && sorted_by(entries, key_fn(syms, mode, order)));
    lemma_key_injective(syms, mode, order);
    lemma_coverage_bounds(syms, by_value);
    assert forall|a: int, b: int| 0 <= a < b < entries.len() implies entries[a] != entries[b] by {
        assert(key_lt(key_fn(syms, mode, order)(entries[a]), key_fn(syms, mode, order)(entries[b])));
    }
    assert(by_value.contains(by_value[0]));
    assert(q(by_value[0]));
    assert(entries.contains(by_value[0]));
    assert forall|j: int| 0 <= j < entries.len() implies {
        let e = #[trigger] entries[j];
        &&& (e as int) < elf.symtab.symbols.len()
        &&& qualifies(elf.symtab.symbols[e as int], idx)
        &&& sec.sh_type != SHT_NOBITS ==> elf.symtab.symbols[e as int].st_value
            + elf.symtab.symbols[e as int].st_size <= sec.data.len()
    } by {
        let e = entries[j];
        assert(entries.contains(e));
        assert(q(e));
        assert(by_value.contains(e));
        let t = choose|t: int| 0 <= t < by_value.len() && by_value[t] == e;
        assert(syms[by_value[t] as int].st_value + syms[by_value[t] as int].st_size
            <= coverage_end(syms, by_value)->0);
        assert(elf.sections[idx].data.len() <= u32::MAX);
    }
}

proof fn lemma_plan_prefix(elf: ElfView, infos: Seq<SplitInfo>, o1: int, o2: int)
    requires
        0 <= o1 <= o2,
    ensures
        plan_upto(elf, infos, o1).len() <= plan_upto(elf, infos, o2).len(),
        plan_upto(elf, infos, o2).take(plan_upto(elf, infos, o1).len() as int) == plan_upto(
            elf,
            infos,
            o1,
        ),
    decreases o2 - o1,
{
    if o1 < o2 {
        lemma_plan_prefix(elf, infos, o1, o2 - 1);
        let a = plan_upto(elf, infos, o1);
        let b = plan_upto(elf, infos, o2 - 1);
        let c = plan_upto(elf, infos, o2);
        assert(c == b + section_plan(elf, infos, o2 - 1));
        assert(c.take(a.len() as int) =~= b.take(a.len() as int));
    } else {
        assert(plan_upto(elf, infos, o2).take(plan_upto(elf, infos, o1).len() as int)
            =~= plan_upto(elf, infos, o1));
    }
}

/// Item `q` of the new sections for old section `o` stands at
/// `plan_upto(o).len() + q` of the whole plan.
proof fn lemma_plan_item(elf: ElfView, infos: Seq<SplitInfo>, o: int, q: int, n: int)
    requires
        0 <= o < n,
        0 <= q < section_plan(elf, infos, o).len(),
    ensures
        plan_upto(elf, infos, o).len() + q < plan_upto(elf, infos, n).len(),
        plan_upto(elf, infos, n)[plan_upto(elf, infos, o).len() + q] == section_plan(
            elf,
            infos,
            o,
        )[q],
{
    lemma_plan_prefix(elf, infos, o + 1, n);
    let a = plan_upto(elf, infos, o);
    let b = plan_upto(elf, infos, o + 1);
    let f = plan_upto(elf, infos, n);
    assert(b == a + section_plan(elf, infos, o));
    assert(f.take(b.len() as int)[a.len() + q] == f[a.len() + q]);
}

proof fn lemma_entries_plan_prefix(elf: ElfView, infos: Seq<SplitInfo>, k: int, m1: int, m2: int)
    requires
        0 <= m1 <= m2,
    ensures
        entries_plan(elf, infos, k, m1).len() <= entries_plan(elf, infos, k, m2).len(),
        entries_plan(elf, infos, k, m2).take(entries_plan(elf, infos, k, m1).len() as int)
            == entries_plan(elf, infos, k, m1),
    decreases m2 - m1,
{
    if m1 < m2 {
        lemma_entries_plan_prefix(elf, infos, k, m1, m2 - 1);
        let a = entries_plan(elf, infos, k, m1);
        let b = entries_plan(elf, infos, k, m2 - 1);
        let c = entries_plan(elf, infos, k, m2);
        assert(c.take(b.len() as int) =~= b);
        assert(c.take(a.len() as int) =~= b.take(a.len() as int));
    } else {
        assert(entries_plan(elf, infos, k, m2).take(entries_plan(elf, infos, k, m1).len() as int)
            =~= entries_plan(elf, infos, k, m1));
    }
}

/// The items of entry `j` in the new sections of split `k`.
proof fn lemma_entry_items(elf: ElfView, infos: Seq<SplitInfo>, k: int, j: int, m: int)
    requires
        0 <= j < m,
    ensures
        entries_plan(elf, infos, k, j).len() < entries_plan(elf, infos, k, m).len(),
        entries_plan(elf, infos, k, m)[entries_plan(elf, infos, k, j).len() as int] == Item::Data(
            k,
            j,
        ),
        entry_relocations(elf, infos, k, j).len() > 0 ==> entries_plan(elf, infos, k, j).len() + 1
            < entries_plan(elf, infos, k, m).len() && entries_plan(elf, infos, k, m)[entries_plan(
            elf,
            infos,
            k,
            j,
        ).len() + 1int] == Item::Rel(k, j),
        entries_plan(elf, infos, k, j + 1).len() == entries_plan(elf, infos, k, j).len() + 1 + (
        if entry_relocations(elf, infos, k, j).len() > 0 {
            1int
        } else {
            0int
        }),
{
    lemma_entries_plan_prefix(elf, infos, k, j + 1, m);
    let a = entries_plan(elf, infos, k, j);
    let b = entries_plan(elf, infos, k, j + 1);
    let c = entries_plan(elf, infos, k, m);
    assert(c.take(b.len() as int)[a.len() as int] == c[a.len() as int]);
    if entry_relocations(elf, infos, k, j).len() > 0 {
        assert(c.take(b.len() as int)[a.len() + 1int] == c[a.len() + 1int]);
    }
}

proof fn lemma_names_after_step(
    elf: ElfView,
    infos: Seq<SplitInfo>,
    plain: bool,
    plan: Seq<Item>,
    p: int,
)
    requires
        0 <= p,
    ensures
        names_after(elf, infos, plain, plan, p + 1) == (match plan[p] {
            Item::Keep(_) => names_after(elf, infos, plain, plan, p),
            Item::Data(k, j) => added(
                names_after(elf, infos, plain, plan, p),
                data_name(elf, infos, plain, k, j),
            ),
            Item::Rel(k, j) => added(
                names_after(elf, infos, plain, plan, p),
                rel_name(elf, infos, plain, k, j),
            ),
        }),
{
}

proof fn lemma_splits_wf(elf: ElfView, order: Seq<(Seq<char>, usize)>, m: int)
    requires
        sections_fit(elf),
        0 <= m <= 6,
    ensures
        forall|k: int|
            0 <= k < splits_upto(elf, order, m).len() ==> split_wf(
                elf,
                #[trigger] splits_upto(elf, order, m)[k],
            ),
        splits_upto(elf, order, m).len() <= m,
    decreases m,
{
    if m > 0 {
        lemma_splits_wf(elf, order, m - 1);
        if split_info(elf, split_names()[m - 1], order) is Some {
            lemma_split_info_wf(elf, split_names()[m - 1], order, m - 1);
            let r = splits_upto(elf, order, m - 1);
            let r2 = splits_upto(elf, order, m);
            assert forall|k: int| 0 <= k < r2.len() implies split_wf(elf, #[trigger] r2[k]) by {
                if k < r.len() {
                    assert(r2[k] == r[k]);
                }
            }
        }
    }
}

/// The relocations in `[start, start + size)`, made relative to `start`.
fn relocations_in(rs: &Vec<Relocation>, start: u32, size: u32) -> (r: Vec<Relocation>)
    requires
        start + size <= u32::MAX,
    ensures
        relocation_views(r@) == relocations_within(relocation_views(rs@), start as int, size as int),
{
    let n = rs.len();
    let mut out: Vec<Relocation> = Vec::new();
    let mut i: usize = 0;
    while i < n
        invariant
            n == rs@.len(),
            i <= n,
            start + size <= u32::MAX,
            relocation_views(out@) == relocations_within(
                relocation_views(rs@).take(i as int),
                start as int,
                size as int,
            ),
        decreases n - i,
    {
        let ghost before = relocation_views(out@);
        proof {
            let rv = relocation_views(rs@);
            assert(rv.take(i + 1).drop_last() =~= rv.take(i as int));
            assert(rv.take(i + 1).last() == rs@[i as int]@);
        }
        if rs[i].r_offset >= start && rs[i].r_offset < start + size {
            let mut nr = rs[i].duplicate();
            nr.r_offset = nr.r_offset - start;
            out.push(nr);
            assert(relocation_views(out@) =~= before.push(
                RelocationView { r_offset: (rs@[i as int].r_offset - start) as u32, ..rs@[i as int]@ },
            ));
        }
        i += 1;
    }
    assert(relocation_views(rs@).take(n as int) =~= relocation_views(rs@));
    out
}

proof fn lemma_push_contains(s: Seq<usize>, x: usize, y: usize)
    ensures
        s.push(x).contains(y) <==> (s.contains(y) || y == x),
{
    if s.push(x).contains(y) && y != x {
        let k = choose|k: int| 0 <= k < s.push(x).len() && s.push(x)[k] == y;
        assert(k < s.len());
        assert(s[k] == y);
    }
    if s.contains(y) {
        let k = choose|k: int| 0 <= k < s.len() && s[k] == y;
        assert(s.push(x)[k] == y);
    }
    if y == x {
        assert(s.push(x)[s.len() as int] == y);
    }
}

/// An optional index as an integer.
pub open spec fn opt_int(x: Option<usize>) -> Option<int> {
    match x {
        Some(v) => Some(v as int),
        None => None,
    }
}

/// The new section index of split symbol `s` once the old sections before
/// `o` are walked.
pub open spec fn slot_before(elf: ElfView, infos: Seq<SplitInfo>, s: int, o: int) -> Option<int> {
    let o2 = elf.symtab.symbols[s].st_shndx as int;
    match split_at(infos, o2) {
        Some(k) => if infos[k].entries.contains(s as usize) && o2 < o {
            Some(data_pos(elf, infos, k, entry_of(infos, k, s)))
        } else {
            None
        },
        None => None,
    }
}

/// The ranges of the entries of split `k`: start, end and new section.
pub open spec fn split_ranges(elf: ElfView, infos: Seq<SplitInfo>, k: int) -> Seq<(u32, u32, usize)> {
    Seq::new(
        infos[k].entries.len(),
        |j: int|
            {
                let s = entry_symbol(elf, infos, k, j);
                (s.st_value, (s.st_value + s.st_size) as u32, data_pos(elf, infos, k, j) as usize)
            },
    )
}

proof fn lemma_entry_of(infos: Seq<SplitInfo>, k: int, j: int)
    requires
        0 <= k < infos.len(),
        0 <= j < infos[k].entries.len(),
        forall|a: int, b: int|
            0 <= a < b < infos[k].entries.len() ==> infos[k].entries[a] != infos[k].entries[b],
    ensures
        entry_of(infos, k, infos[k].entries[j] as int) == j,
{
    let e = infos[k].entries;
    assert(0 <= j < e.len() && e[j] == e[j] as int);
    let jj = entry_of(infos, k, e[j] as int);
    if jj != j {
        if jj < j {
            assert(e[jj] != e[j]);
        } else {
            assert(e[j] != e[jj]);
        }
    }
}

/// The state of the walk over the old sections before section `o` (and
/// the first `j` entries of its split, where it is split).
pub open spec fn walked(
    elf: ElfView,
    infos: Seq<SplitInfo>,
    plain: bool,
    full: Seq<Item>,
    secs: Seq<Section>,
    fresh: Seq<bool>,
    shstrtab: StrTabView,
) -> bool {
    &&& secs.len() == fresh.len()
    &&& secs.len() <= full.len()
    &&& forall|p: int|
        0 <= p < secs.len() ==> (#[trigger] secs[p])@ == raw_section(elf, infos, plain, full, p)
    &&& forall|p: int| 0 <= p < fresh.len() ==> #[trigger] fresh[p] == !(full[p] is Keep)
    &&& shstrtab == names_after(elf, infos, plain, full, secs.len() as int)
}

/// What the walk needs of the object and its splits.
pub open spec fn walk_ready(elf: ElfView, infos: Seq<SplitInfo>) -> bool {
    &&& offsets_fit(elf)
    &&& sections_fit(elf)
    &&& forall|k: int| 0 <= k < infos.len() ==> split_wf(elf, #[trigger] infos[k])
    &&& forall|k: int|
        0 <= k < infos.len() ==> ((#[trigger] infos[k]).rel_idx matches Some(ri)
            ==> elf.sections[ri].data.len() % 8 == 0)
}

fn emit_split(
    sections: &Vec<Section>,
    syms: &Vec<Symbol>,
    shstrtab: &mut StrTab,
    split: &SectionSplit,
    plain: bool,
    new_sections: &mut Vec<Section>,
    fresh: &mut Vec<bool>,
    sym_to_new: &mut Vec<Option<usize>>,
    Ghost(elf): Ghost<ElfView>,
    Ghost(infos): Ghost<Seq<SplitInfo>>,
    Ghost(full): Ghost<Seq<Item>>,
    Ghost(k): Ghost<int>,
) -> (ranges: Vec<(u32, u32, usize)>)
    requires
        elf.sections == section_views(sections@),
        elf.symtab.symbols == symbol_views(syms@),
        walk_ready(elf, infos),
        0 <= k < infos.len(),
        split@ == infos[k],
        split_at(infos, infos[k].section_idx) == Some(k),
        removed(infos, infos[k].section_idx),
        full == plan_upto(elf, infos, elf.sections.len() as int),
        old(new_sections)@.len() == plan_upto(elf, infos, infos[k].section_idx).len(),
        walked(elf, infos, plain, full, old(new_sections)@, old(fresh)@, old(shstrtab)@),
        old(sym_to_new)@.len() == syms@.len(),
        forall|s: int|
            0 <= s < syms@.len() ==> opt_int(#[trigger] old(sym_to_new)@[s]) == slot_before(
                elf,
                infos,
                s,
                infos[k].section_idx,
            ),
    ensures
        final(new_sections)@.len() == plan_upto(elf, infos, infos[k].section_idx + 1).len(),
        walked(elf, infos, plain, full, final(new_sections)@, final(fresh)@, final(shstrtab)@),
        final(sym_to_new)@.len() == syms@.len(),
        forall|s: int|
            0 <= s < syms@.len() ==> opt_int(#[trigger] final(sym_to_new)@[s]) == slot_before(
                elf,
                infos,
                s,
                infos[k].section_idx + 1,
            ),
        ranges@ == split_ranges(elf, infos, k),
{
    let ghost o = infos[k].section_idx;
    let ghost base = plan_upto(elf, infos, o).len() as int;
    let ghost nent = infos[k].entries.len() as int;
    proof {
        assert(split_wf(elf, infos[k]));
        lemma_first_from(0, infos.len() as int, |kk: int| infos[kk].section_idx == o);
        assert(section_plan(elf, infos, o) == entries_plan(elf, infos, k, nent));
        assert(plan_upto(elf, infos, o + 1) == plan_upto(elf, infos, o) + entries_plan(
            elf,
            infos,
            k,
            nent,
        ));
    }
    let oi = split.section_idx;
    let relocations: Vec<Relocation> = match split.rel_section_idx {
        Some(ri) => Relocation::unpack_all(sections[ri].data.as_slice()),
        None => Vec::new(),
    };
    assert(relocation_views(relocations@) == split_relocations(elf, infos[k]));
    let n = split.entries.len();
    let nsyms = syms.len();
    let mut ranges: Vec<(u32, u32, usize)> = Vec::new();
    let mut j: usize = 0;
    while j < n
        invariant
            elf.sections == section_views(sections@),
            elf.symtab.symbols == symbol_views(syms@),
            walk_ready(elf, infos),
            split_wf(elf, infos[k]),
            0 <= k < infos.len(),
            split@ == infos[k],
            o == infos[k].section_idx,
            oi as int == o,
            nent == n,
            n == infos[k].entries.len(),
            split_at(infos, o) == Some(k),
            full == plan_upto(elf, infos, elf.sections.len() as int),
            base == plan_upto(elf, infos, o).len(),
            section_plan(elf, infos, o) == entries_plan(elf, infos, k, nent),
            relocation_views(relocations@) == split_relocations(elf, infos[k]),
            j <= n,
            nsyms == syms@.len(),
            new_sections@.len() == base + entries_plan(elf, infos, k, j as int).len(),
            walked(elf, infos, plain, full, new_sections@, fresh@, shstrtab@),
            sym_to_new@.len() == syms@.len(),
            forall|s: int|
                0 <= s < syms@.len() ==> opt_int(#[trigger] sym_to_new@[s]) == (if infos[k].entries.take(
                    j as int,
                ).contains(s as usize) {
                    Some(data_pos(elf, infos, k, entry_of(infos, k, s)))
                } else {
                    slot_before(elf, infos, s, o)
                }),
            ranges@.len() == j,
            forall|jj: int| 0 <= jj < j ==> #[trigger] ranges@[jj] == split_ranges(elf, infos, k)[jj],
        decreases n - j,
    {
        let ghost p = new_sections@.len() as int;
        proof {
            lemma_entry_items(elf, infos, k, j as int, nent);
            lemma_plan_item(elf, infos, o, entries_plan(elf, infos, k, j as int).len() as int, elf.sections.len() as int);
            lemma_entry_of(infos, k, j as int);
            assert(full[p] == Item::Data(k, j as int));
        }
        let si = split.entries[j];
        assert(infos[k].entries[j as int] == si);
        let sym = &syms[si];
        let orig = &sections[oi];
        let ghost sv = elf.symtab.symbols[si as int];
        assert(sv == sym@);
        assert(qualifies(sv, o));
        let v = sym.st_value;
        let size = sym.st_size;
        let data: Vec<u8> = if orig.sh_type != SHT_NOBITS {
            vstd::slice::slice_to_vec(&orig.data.as_slice()[v as usize..(v + size) as usize])
        } else {
            Vec::new()
        };
        let sec_name: String = if plain {
            orig.name.clone()
        } else {
            let with_dot = concat_strs(orig.name.as_str(), ".");
            concat_strs(with_dot.as_str(), sym.name.as_str())
        };
        assert(sec_name@ == data_name(elf, infos, plain, k, j as int));
        let ghost t = shstrtab@;
        let sh_name = shstrtab.add_symbol(sec_name.as_str());
        proof {
            lemma_names_after_step(elf, infos, plain, full, p);
        }
        let align = alignment_for(sym.name.as_str(), size);
        let mut new_sec = Section::new(sh_name, orig.sh_type, orig.sh_flags, 0, 0, size, 0, 0, align, 0, data);
        new_sec.name = sec_name;
        let data_idx = new_sections.len();
        assert(data_idx as int == data_pos(elf, infos, k, j as int));
        sym_to_new.set(si, Some(data_idx));
        fresh.push(true);
        ranges.push((v, v + size, data_idx));
        let ghost secs_before = new_sections@;
        new_sections.push(new_sec);
        proof {
            assert(new_sections@[p]@ == raw_section(elf, infos, plain, full, p));
            assert forall|q: int| 0 <= q < new_sections@.len() implies (#[trigger] new_sections@[q])@
                == raw_section(elf, infos, plain, full, q) by {
                if q < p {
                    assert(new_sections@[q] == secs_before[q]);
                }
            }
        }
        let entry_relocs = relocations_in(&relocations, v, size);
        assert(relocation_views(entry_relocs@) == entry_relocations(elf, infos, k, j as int));
        if entry_relocs.len() > 0 {
            proof {
                lemma_plan_item(elf, infos, o, entries_plan(elf, infos, k, j as int).len() + 1int, elf.sections.len() as int);
                assert(full[p + 1] == Item::Rel(k, j as int));
            }
            let rel_name: String = if plain {
                concat_strs(".rel", orig.name.as_str())
            } else {
                let a = concat_strs(".rel", orig.name.as_str());
                let b = concat_strs(a.as_str(), ".");
                concat_strs(b.as_str(), sym.name.as_str())
            };
            assert(rel_name@ == self::rel_name(elf, infos, plain, k, j as int));
            let rel_sh_name = shstrtab.add_symbol(rel_name.as_str());
            proof {
                lemma_names_after_step(elf, infos, plain, full, p + 1);
            }
            let rel_data = pack_relocations(&entry_relocs);
            let rel_len = rel_data.len() as u32;
            let mut rel_sec = Section::new(rel_sh_name, SHT_REL, 0, 0, 0, rel_len, 0, data_idx as u32, 4, 8, rel_data);
            rel_sec.name = rel_name;
            fresh.push(true);
            let ghost secs_before2 = new_sections@;
            new_sections.push(rel_sec);
            proof {
                assert(new_sections@[p + 1]@ == raw_section(elf, infos, plain, full, p + 1));
                assert forall|q: int| 0 <= q < new_sections@.len() implies (#[trigger] new_sections@[q])@
                    == raw_section(elf, infos, plain, full, q) by {
                    if q < p + 1 {
                        assert(new_sections@[q] == secs_before2[q]);
                    }
                }
            }
        }
        proof {
            assert forall|q: int| 0 <= q < fresh@.len() implies #[trigger] fresh@[q] == !(full[q] is Keep) by {
                if q >= p {
                }
            }
            assert(infos[k].entries.take(j + 1) =~= infos[k].entries.take(j as int).push(si));
            assert forall|s: int| 0 <= s < syms@.len() implies opt_int(#[trigger] sym_to_new@[s]) == (
            if infos[k].entries.take(j + 1).contains(s as usize) {
                Some(data_pos(elf, infos, k, entry_of(infos, k, s)))
            } else {
                slot_before(elf, infos, s, o)
            }) by {
                lemma_push_contains(infos[k].entries.take(j as int), si, s as usize);
            }
        }
        j += 1;
    }
    proof {
        assert(infos[k].entries.take(n as int) =~= infos[k].entries);
        assert forall|s: int| 0 <= s < syms@.len() implies opt_int(#[trigger] sym_to_new@[s])
            == slot_before(elf, infos, s, o + 1) by {
            let o2 = elf.symtab.symbols[s].st_shndx as int;
            if infos[k].entries.contains(s as usize) {
                let jj = choose|jj: int| 0 <= jj < infos[k].entries.len() && infos[k].entries[jj] == s as usize;
                assert(qualifies(elf.symtab.symbols[infos[k].entries[jj] as int], o));
                assert(o2 == o);
                assert(slot_before(elf, infos, s, o + 1) == Some(data_pos(elf, infos, k, entry_of(infos, k, s))));
            } else if o2 == o {
                assert(slot_before(elf, infos, s, o + 1) == None::<int>);
                assert(slot_before(elf, infos, s, o) == None::<int>);
            } else {
                assert(slot_before(elf, infos, s, o + 1) == slot_before(elf, infos, s, o));
            }
        }
        assert(ranges@ =~= split_ranges(elf, infos, k));
    }
    ranges
}

/// The sections and maps that walking the old sections builds.
struct Walk {
    sections: Vec<Section>,
    fresh: Vec<bool>,
    old_to_new: Vec<Option<usize>>,
    sym_to_new: Vec<Option<usize>>,
    ranges: Vec<Option<Vec<(u32, u32, usize)>>>,
}

fn nones(n: usize) -> (v: Vec<Option<usize>>)
    ensures
        v@.len() == n,
        forall|i: int| 0 <= i < n ==> #[trigger] v@[i] is None,
{
    let mut v: Vec<Option<usize>> = Vec::new();
    let mut i: usize = 0;
    while i < n
        invariant
            i <= n,
            v@.len() == i,
            forall|q: int| 0 <= q < i ==> #[trigger] v@[q] is None,
        decreases n - i,
    {
        v.push(None);
        i += 1;
    }
    v
}

/// The first split of section `o`.
fn find_split(splits: &Vec<SectionSplit>, o: usize, Ghost(infos): Ghost<Seq<SplitInfo>>) -> (r: Option<
    usize,
>)
    requires
        forall|k: int| 0 <= k < splits@.len() ==> (#[trigger] splits@[k])@ == infos[k],
        splits@.len() == infos.len(),
    ensures
        opt_int(r) == split_at(infos, o as int),
{
    let ghost p = |kk: int| infos[kk].section_idx == o as int;
    let n = splits.len();
    assert(infos.len() == n);
    let mut k: usize = 0;
    while k < n
        invariant
            n == splits@.len(),
            n == infos.len(),
            forall|kk: int| 0 <= kk < splits@.len() ==> (#[trigger] splits@[kk])@ == infos[kk],
            p == (|kk: int| infos[kk].section_idx == o as int),
            k <= n,
            forall|j: int| #![trigger p(j)] 0 <= j < k ==> !p(j),
        decreases n - k,
    {
        assert(splits@[k as int]@ == infos[k as int]);
        if splits[k].section_idx == o {
            proof {
                lemma_first_from_at(0, k as int, n as int, p);
            }
            return Some(k);
        }
        k += 1;
    }
    proof {
        lemma_first_from_none(0, n as int, p);
    }
    None
}

/// The ranges recorded for old section `o`.
pub open spec fn ranges_for(
    elf: ElfView,
    infos: Seq<SplitInfo>,
    r: Option<Vec<(u32, u32, usize)>>,
    o: int,
) -> bool {
    match r {
        Some(v) => split_at(infos, o) matches Some(k) && v@ == split_ranges(elf, infos, k),
        None => split_at(infos, o) is None,
    }
}

fn walk(
    sections: &Vec<Section>,
    syms: &Vec<Symbol>,
    shstrtab: &mut StrTab,
    splits: &Vec<SectionSplit>,
    removed_flags: &Vec<bool>,
    plain: bool,
    Ghost(elf): Ghost<ElfView>,
    Ghost(infos): Ghost<Seq<SplitInfo>>,
) -> (w: Walk)
    requires
        elf.sections == section_views(sections@),
        elf.symtab.symbols == symbol_views(syms@),
        walk_ready(elf, infos),
        forall|k: int| 0 <= k < splits@.len() ==> (#[trigger] splits@[k])@ == infos[k],
        splits@.len() == infos.len(),
        removed_flags@.len() == sections@.len(),
        forall|o: int| 0 <= o < sections@.len() ==> #[trigger] removed_flags@[o] == removed(infos, o),
        old(shstrtab)@ == elf.shstrtab,
    ensures
        w.sections@.len() == plan_upto(elf, infos, sections@.len() as int).len(),
        walked(
            elf,
            infos,
            plain,
            plan_upto(elf, infos, sections@.len() as int),
            w.sections@,
            w.fresh@,
            final(shstrtab)@,
        ),
        w.old_to_new@.len() == sections@.len(),
        forall|o: int|
            0 <= o < sections@.len() ==> opt_int(#[trigger] w.old_to_new@[o]) == keep_pos(elf, infos, o),
        w.sym_to_new@.len() == syms@.len(),
        forall|s: int|
            0 <= s < syms@.len() ==> opt_int(#[trigger] w.sym_to_new@[s]) == slot_before(
                elf,
                infos,
                s,
                sections@.len() as int,
            ),
        w.ranges@.len() == sections@.len(),
        forall|o: int|
            0 <= o < sections@.len() ==> ranges_for(elf, infos, #[trigger] w.ranges@[o], o),
{
    let n = sections.len();
    let ghost full = plan_upto(elf, infos, n as int);
    let mut new_sections: Vec<Section> = Vec::new();
    let mut fresh: Vec<bool> = Vec::new();
    let mut old_to_new: Vec<Option<usize>> = Vec::new();
    let mut sym_to_new = nones(syms.len());
    let mut ranges: Vec<Option<Vec<(u32, u32, usize)>>> = Vec::new();
    let mut o: usize = 0;
    while o < n
        invariant
            n == sections@.len(),
            elf.sections == section_views(sections@),
            elf.symtab.symbols == symbol_views(syms@),
            walk_ready(elf, infos),
            forall|k: int| 0 <= k < splits@.len() ==> (#[trigger] splits@[k])@ == infos[k],
            splits@.len() == infos.len(),
            removed_flags@.len() == n,
            forall|x: int| 0 <= x < n ==> #[trigger] removed_flags@[x] == removed(infos, x),
            full == plan_upto(elf, infos, n as int),
            o <= n,
            new_sections@.len() == plan_upto(elf, infos, o as int).len(),
            walked(elf, infos, plain, full, new_sections@, fresh@, shstrtab@),
            old_to_new@.len() == o,
            forall|x: int| 0 <= x < o ==> opt_int(#[trigger] old_to_new@[x]) == keep_pos(elf, infos, x),
            sym_to_new@.len() == syms@.len(),
            forall|s: int|
                0 <= s < syms@.len() ==> opt_int(#[trigger] sym_to_new@[s]) == slot_before(
                    elf,
                    infos,
                    s,
                    o as int,
                ),
            ranges@.len() == o,
            forall|x: int| 0 <= x < o ==> ranges_for(elf, infos, #[trigger] ranges@[x], x),
        decreases n - o,
    {
        proof {
            lemma_plan_prefix(elf, infos, o as int, n as int);
            lemma_first_from(0, infos.len() as int, |kk: int| infos[kk].section_idx == o as int);
        }
        if removed_flags[o] {
            match find_split(splits, o, Ghost(infos)) {
                Some(k) => {
                    let r = emit_split(
                        sections,
                        syms,
                        shstrtab,
                        &splits[k],
                        plain,
                        &mut new_sections,
                        &mut fresh,
                        &mut sym_to_new,
                        Ghost(elf),
                        Ghost(infos),
                        Ghost(full),
                        Ghost(k as int),
                    );
                    ranges.push(Some(r));
                },
                None => {
                    ranges.push(None);
                    proof {
                        assert(plan_upto(elf, infos, o + 1) =~= plan_upto(elf, infos, o as int));
                        assert forall|s: int| 0 <= s < syms@.len() implies opt_int(
                            #[trigger] sym_to_new@[s],
                        ) == slot_before(elf, infos, s, o + 1) by {
                            let o2 = elf.symtab.symbols[s].st_shndx as int;
                            if o2 == o {
                                assert(slot_before(elf, infos, s, o + 1) == None::<int>);
                            } else {
                                assert(slot_before(elf, infos, s, o + 1) == slot_before(elf, infos, s, o as int));
                            }
                        }
                    }
                },
            }
            old_to_new.push(None);
        } else {
            let p = new_sections.len();
            proof {
                lemma_plan_item(elf, infos, o as int, 0, n as int);
                assert(full[p as int] == Item::Keep(o as int));
                lemma_names_after_step(elf, infos, plain, full, p as int);
                assert(split_at(infos, o as int) is None) by {
                    if split_at(infos, o as int) is Some {
                        let k = split_at(infos, o as int)->0;
                        assert(infos[k].section_idx == o);
                        assert(removed(infos, o as int));
                    }
                }
                assert(plan_upto(elf, infos, o + 1) == plan_upto(elf, infos, o as int).push(Item::Keep(o as int)));
            }
            let ghost before = new_sections@;
            new_sections.push(sections[o].duplicate());
            fresh.push(false);
            old_to_new.push(Some(p));
            ranges.push(None);
            proof {
                assert forall|q: int| 0 <= q < new_sections@.len() implies (#[trigger] new_sections@[q])@
                    == raw_section(elf, infos, plain, full, q) by {
                    if q < p {
                        assert(new_sections@[q] == before[q]);
                    }
                }
                assert forall|s: int| 0 <= s < syms@.len() implies opt_int(
                    #[trigger] sym_to_new@[s],
                ) == slot_before(elf, infos, s, o + 1) by {
                    let o2 = elf.symtab.symbols[s].st_shndx as int;
                    if o2 == o {
                        assert(slot_before(elf, infos, s, o + 1) == None::<int>);
                    } else {
                        assert(slot_before(elf, infos, s, o + 1) == slot_before(elf, infos, s, o as int));
                    }
                }
            }
        }
        o += 1;
    }
    Walk { sections: new_sections, fresh, old_to_new, sym_to_new, ranges }
}

/// A section link renumbered through `old_to_new`.
fn renumber(
    old_to_new: &Vec<Option<usize>>,
    x: u32,
    Ghost(elf): Ghost<ElfView>,
    Ghost(infos): Ghost<Seq<SplitInfo>>,
) -> (r: u32)
    requires
        old_to_new@.len() == elf.sections.len(),
        forall|o: int|
            0 <= o < elf.sections.len() ==> opt_int(#[trigger] old_to_new@[o]) == keep_pos(elf, infos, o),
    ensures
        r == renumbered(elf, infos, x),
{
    let xi = x as usize;
    if xi < old_to_new.len() {
        assert(opt_int(old_to_new@[xi as int]) == keep_pos(elf, infos, xi as int));
        match old_to_new[xi] {
            Some(n) => n as u32,
            None => x,
        }
    } else {
        x
    }
}

/// The new sections with their links renumbered (see `relinked`).
fn relink_sections(
    secs: &mut Vec<Section>,
    fresh: &Vec<bool>,
    old_to_new: &Vec<Option<usize>>,
    new_symtab: usize,
    Ghost(elf): Ghost<ElfView>,
    Ghost(infos): Ghost<Seq<SplitInfo>>,
)
    requires
        old(secs)@.len() == fresh@.len(),
        old_to_new@.len() == elf.sections.len(),
        forall|o: int|
            0 <= o < elf.sections.len() ==> opt_int(#[trigger] old_to_new@[o]) == keep_pos(elf, infos, o),
    ensures
        final(secs)@.len() == old(secs)@.len(),
        forall|p: int|
            0 <= p < old(secs)@.len() ==> (#[trigger] final(secs)@[p])@ == relinked(
                elf,
                infos,
                old(secs)@[p]@,
                fresh@[p],
                new_symtab as int,
            ),
{
    let n = secs.len();
    let mut p: usize = 0;
    while p < n
        invariant
            n == secs@.len(),
            n == old(secs)@.len(),
            n == fresh@.len(),
            p <= n,
            old_to_new@.len() == elf.sections.len(),
            forall|o: int|
                0 <= o < elf.sections.len() ==> opt_int(#[trigger] old_to_new@[o]) == keep_pos(elf, infos, o),
            forall|q: int| p <= q < n ==> #[trigger] secs@[q] == old(secs)@[q],
            forall|q: int|
                0 <= q < p ==> (#[trigger] secs@[q])@ == relinked(
                    elf,
                    infos,
                    old(secs)@[q]@,
                    fresh@[q],
                    new_symtab as int,
                ),
        decreases n - p,
    {
        let mut s = secs[p].duplicate();
        if s.sh_type == SHT_REL {
            if fresh[p] {
                s.sh_link = new_symtab as u32;
            } else {
                s.sh_link = renumber(old_to_new, s.sh_link, Ghost(elf), Ghost(infos));
                s.sh_info = renumber(old_to_new, s.sh_info, Ghost(elf), Ghost(infos));
            }
        }
        if s.sh_type == SHT_SYMTAB {
            s.sh_link = renumber(old_to_new, s.sh_link, Ghost(elf), Ghost(infos));
        }
        secs.set(p, s);
        p += 1;
    }
}

/// The entry of split `k` whose range holds `v`, else the last one.
fn find_range(
    rs: &Vec<(u32, u32, usize)>,
    v: u32,
    Ghost(elf): Ghost<ElfView>,
    Ghost(infos): Ghost<Seq<SplitInfo>>,
    Ghost(k): Ghost<int>,
) -> (j: usize)
    requires
        0 <= k < infos.len(),
        offsets_fit(elf),
        split_wf(elf, infos[k]),
        rs@ == split_ranges(elf, infos, k),
    ensures
        j as int == range_target(elf, infos, k, v as int),
        j < rs@.len(),
{
    let ghost p = |jj: int|
        entry_symbol(elf, infos, k, jj).st_value <= v < entry_symbol(elf, infos, k, jj).st_value
            + entry_symbol(elf, infos, k, jj).st_size;
    let n = rs.len();
    let mut j: usize = 0;
    while j < n
        invariant
            n == rs@.len(),
            n == infos[k].entries.len(),
            j <= n,
            0 <= k < infos.len(),
            offsets_fit(elf),
            split_wf(elf, infos[k]),
            rs@ == split_ranges(elf, infos, k),
            p == (|jj: int|
                entry_symbol(elf, infos, k, jj).st_value <= v < entry_symbol(elf, infos, k, jj).st_value
                    + entry_symbol(elf, infos, k, jj).st_size),
            forall|jj: int| #![trigger p(jj)] 0 <= jj < j ==> !p(jj),
        decreases n - j,
    {
        let r = rs[j];
        proof {
            let e = infos[k].entries[j as int];
            let s = entry_symbol(elf, infos, k, j as int);
            assert(qualifies(elf.symtab.symbols[e as int], infos[k].section_idx));
            assert(s.st_value + s.st_size + 3 <= u32::MAX);
            assert(r.0 == s.st_value && r.1 == s.st_value + s.st_size);
        }
        if r.0 <= v && v < r.1 {
            proof {
                lemma_first_from_at(0, j as int, n as int, p);
            }
            return j;
        }
        j += 1;
    }
    proof {
        lemma_first_from_none(0, n as int, p);
    }
    n - 1
}

/// Every symbol of a split section that does not get a section of its own
/// lies at or after the start of the entry it moves into.
pub open spec fn values_resolve(elf: ElfView, infos: Seq<SplitInfo>) -> bool {
    forall|i: int|
        0 <= i < elf.symtab.symbols.len() ==> {
            let s = #[trigger] elf.symtab.symbols[i];
            s.st_shndx != 0 ==> match split_at(infos, s.st_shndx as int) {
                Some(k) => !infos[k].entries.contains(i as usize) ==> s.st_value >= entry_symbol(
                    elf,
                    infos,
                    k,
                    range_target(elf, infos, k, s.st_value as int),
                ).st_value,
                None => true,
            }
        }
}

/// Every split is of a section of the object.
proof fn lemma_split_at_bound(elf: ElfView, infos: Seq<SplitInfo>, o: int)
    requires
        walk_ready(elf, infos),
    ensures
        split_at(infos, o) matches Some(k) ==> 0 <= k < infos.len() && infos[k].section_idx == o
            && 0 <= o < elf.sections.len(),
{
    lemma_first_from(0, infos.len() as int, |kk: int| infos[kk].section_idx == o);
    if split_at(infos, o) is Some {
        let k = split_at(infos, o)->0;
        assert(split_wf(elf, infos[k]));
    }
}

/// The data section of an entry stands among the new sections.
proof fn lemma_data_pos_bound(elf: ElfView, infos: Seq<SplitInfo>, k: int, j: int)
    requires
        walk_ready(elf, infos),
        0 <= k < infos.len(),
        split_at(infos, infos[k].section_idx) == Some(k),
        0 <= j < infos[k].entries.len(),
    ensures
        0 <= data_pos(elf, infos, k, j) < plan_upto(elf, infos, elf.sections.len() as int).len(),
{
    let o = infos[k].section_idx;
    let nent = infos[k].entries.len() as int;
    assert(split_wf(elf, infos[k]));
    assert(removed(infos, o));
    assert(section_plan(elf, infos, o) == entries_plan(elf, infos, k, nent));
    lemma_entry_items(elf, infos, k, j, nent);
    lemma_plan_item(elf, infos, o, entries_plan(elf, infos, k, j).len() as int, elf.sections.len() as int);
}

/// The symbols moved to the new sections (see `moved_symbol`).
fn fix_symbols(
    syms: &mut Vec<Symbol>,
    sym_to_new: &Vec<Option<usize>>,
    ranges: &Vec<Option<Vec<(u32, u32, usize)>>>,
    old_to_new: &Vec<Option<usize>>,
    Ghost(elf): Ghost<ElfView>,
    Ghost(infos): Ghost<Seq<SplitInfo>>,
)
    requires
        symbol_views(old(syms)@) == elf.symtab.symbols,
        walk_ready(elf, infos),
        values_resolve(elf, infos),
        plan_upto(elf, infos, elf.sections.len() as int).len() <= usize::MAX,
        sym_to_new@.len() == old(syms)@.len(),
        forall|s: int|
            0 <= s < old(syms)@.len() ==> opt_int(#[trigger] sym_to_new@[s]) == slot_before(
                elf,
                infos,
                s,
                elf.sections.len() as int,
            ),
        ranges@.len() == elf.sections.len(),
        forall|o: int| 0 <= o < elf.sections.len() ==> ranges_for(elf, infos, #[trigger] ranges@[o], o),
        old_to_new@.len() == elf.sections.len(),
        forall|o: int|
            0 <= o < elf.sections.len() ==> opt_int(#[trigger] old_to_new@[o]) == keep_pos(elf, infos, o),
    ensures
        symbol_views(final(syms)@) == Seq::new(
            elf.symtab.symbols.len(),
            |i: int| moved_symbol(elf, infos, i),
        ),
{
    let n = syms.len();
    let nsec = ranges.len();
    let mut i: usize = 0;
    while i < n
        invariant
            n == syms@.len(),
            n == old(syms)@.len(),
            nsec == elf.sections.len(),
            symbol_views(old(syms)@) == elf.symtab.symbols,
            walk_ready(elf, infos),
            values_resolve(elf, infos),
            plan_upto(elf, infos, elf.sections.len() as int).len() <= usize::MAX,
            sym_to_new@.len() == n,
            forall|s: int|
                0 <= s < n ==> opt_int(#[trigger] sym_to_new@[s]) == slot_before(
                    elf,
                    infos,
                    s,
                    elf.sections.len() as int,
                ),
            ranges@.len() == elf.sections.len(),
            forall|o: int|
                0 <= o < elf.sections.len() ==> ranges_for(elf, infos, #[trigger] ranges@[o], o),
            old_to_new@.len() == elf.sections.len(),
            forall|o: int|
                0 <= o < elf.sections.len() ==> opt_int(#[trigger] old_to_new@[o]) == keep_pos(
                    elf,
                    infos,
                    o,
                ),
            i <= n,
            forall|q: int| i <= q < n ==> #[trigger] syms@[q] == old(syms)@[q],
            forall|q: int| 0 <= q < i ==> (#[trigger] syms@[q])@ == moved_symbol(elf, infos, q),
        decreases n - i,
    {
        let mut s = syms[i].duplicate();
        let ghost sv = elf.symtab.symbols[i as int];
        assert(sv == old(syms)@[i as int]@);
        let ghost o2 = sv.st_shndx as int;
        proof {
            lemma_split_at_bound(elf, infos, o2);
        }
        if s.st_shndx != 0 {
            assert(opt_int(sym_to_new@[i as int]) == slot_before(elf, infos, i as int, elf.sections.len() as int));
            match sym_to_new[i] {
                Some(new_shndx) => {
                    s.st_shndx = new_shndx as u16;
                    s.st_value = 0;
                    proof {
                        let k = split_at(infos, o2)->0;
                        assert(infos[k].entries.contains(i as usize));
                        assert(s@ == moved_symbol(elf, infos, i as int));
                    }
                },
                None => {
                    let si = s.st_shndx as usize;
                    if si < nsec && ranges[si].is_some() {
                        assert(ranges_for(elf, infos, ranges@[si as int], si as int));
                        let ghost k = split_at(infos, o2)->0;
                        assert(split_wf(elf, infos[k]));
                        let rs = ranges[si].as_ref().unwrap();
                        let j = find_range(rs, s.st_value, Ghost(elf), Ghost(infos), Ghost(k));
                        let (start, _, new_shndx) = rs[j];
                        proof {
                            assert(!infos[k].entries.contains(i as usize));
                            assert(start == entry_symbol(elf, infos, k, j as int).st_value);
                            assert(j as int == range_target(elf, infos, k, sv.st_value as int));
                            lemma_data_pos_bound(elf, infos, k, j as int);
                            assert(new_shndx == data_pos(elf, infos, k, j as int) as usize);
                            assert(s.st_value >= start);
                        }
                        s.st_shndx = new_shndx as u16;
                        s.st_value = s.st_value - start;
                        assert(s@ == moved_symbol(elf, infos, i as int));
                    } else {
                        proof {
                            if si < nsec {
                                assert(ranges_for(elf, infos, ranges@[si as int], si as int));
                            }
                        }
                        s.st_shndx = renumber_index(old_to_new, s.st_shndx, Ghost(elf), Ghost(infos));
                        assert(split_at(infos, o2) is None);
                        assert(s@ == moved_symbol(elf, infos, i as int));
                    }
                },
            }
        }
        assert(s@ == moved_symbol(elf, infos, i as int));
        syms.set(i, s);
        i += 1;
    }
    assert(symbol_views(syms@) =~= Seq::new(
        elf.symtab.symbols.len(),
        |i: int| moved_symbol(elf, infos, i),
    ));
}

/// A symbol's section index renumbered through `old_to_new`.
fn renumber_index(
    old_to_new: &Vec<Option<usize>>,
    x: u16,
    Ghost(elf): Ghost<ElfView>,
    Ghost(infos): Ghost<Seq<SplitInfo>>,
) -> (r: u16)
    requires
        old_to_new@.len() == elf.sections.len(),
        forall|o: int|
            0 <= o < elf.sections.len() ==> opt_int(#[trigger] old_to_new@[o]) == keep_pos(elf, infos, o),
    ensures
        r == (match keep_pos(elf, infos, x as int) {
            Some(n) => n as u16,
            None => x,
        }),
{
    let xi = x as usize;
    if xi < old_to_new.len() {
        assert(opt_int(old_to_new@[xi as int]) == keep_pos(elf, infos, xi as int));
        match old_to_new[xi] {
            Some(n) => n as u16,
            None => x,
        }
    } else {
        x
    }
}

/// The views of a list of splits.
spec fn split_views(s: Seq<SectionSplit>) -> Seq<SplitInfo> {
    s.map_values(|x: SectionSplit| x@)
}

/// Adds the split of the section named `name`, the `m`-th of
/// `split_names()`, where it can be split.
fn collect_into(
    elf: &Elf,
    name: &str,
    symbol_order: &Vec<(String, usize)>,
    splits: &mut Vec<SectionSplit>,
    Ghost(m): Ghost<int>,
)
    requires
        0 <= m < 6,
        name@ == split_names()[m],
        offsets_fit(elf@),
        split_views(old(splits)@) == splits_upto(elf@, order_views(symbol_order@), m),
    ensures
        split_views(final(splits)@) == splits_upto(elf@, order_views(symbol_order@), m + 1),
{
    match collect_split_info(elf, name, symbol_order, Ghost(m)) {
        Some(s) => {
            let ghost before = splits@;
            splits.push(s);
            assert(split_views(splits@) =~= split_views(before).push(s@));
        },
        None => {},
    }
}

/// Whether old section `o` goes away.
fn is_removed(splits: &Vec<SectionSplit>, o: usize, Ghost(infos): Ghost<Seq<SplitInfo>>) -> (r: bool)
    requires
        split_views(splits@) == infos,
    ensures
        r == removed(infos, o as int),
{
    let n = splits.len();
    let mut k: usize = 0;
    while k < n
        invariant
            n == splits@.len(),
            n == infos.len(),
            split_views(splits@) == infos,
            k <= n,
            forall|j: int|
                0 <= j < k ==> !(#[trigger] infos[j].section_idx == o as int || infos[j].rel_idx
                    == Some(o as int)),
        decreases n - k,
    {
        assert(splits@[k as int]@ == infos[k as int]);
        let hit = match splits[k].rel_section_idx {
            Some(ri) => ri == o,
            None => false,
        };
        if splits[k].section_idx == o || hit {
            assert(infos[k as int].section_idx == o as int || infos[k as int].rel_idx == Some(o as int));
            assert(exists|j: int|
                0 <= j < infos.len() && (#[trigger] infos[j].section_idx == o as int
                    || infos[j].rel_idx == Some(o as int)));
            return true;
        }
        assert(!(infos[k as int].section_idx == o as int || infos[k as int].rel_idx == Some(o as int)));
        assert forall|j: int| 0 <= j < k + 1 implies !(#[trigger] infos[j].section_idx == o as int
            || infos[j].rel_idx == Some(o as int)) by {}
        k += 1;
    }
    false
}

/// What splitting asks of an object: the symbols of the sections it looks
/// at end below 2^32 - 3, section data fits in 32 bits, and where some section is split, the REL sections of the splits
/// hold whole entries, the three tables are not split, and every symbol of
/// a split section that does not get a section of its own lies at or after
/// the start of the section it moves into.
pub open spec fn split_ready(elf: ElfView, order: Seq<(Seq<char>, usize)>) -> bool {
    let infos = splits_of(elf, order);
    &&& offsets_fit(elf)
    &&& sections_fit(elf)
    &&& infos.len() > 0 ==> {
        &&& forall|k: int|
            0 <= k < infos.len() ==> ((#[trigger] infos[k]).rel_idx matches Some(ri)
                ==> elf.sections[ri].data.len() % 8 == 0)
        &&& keep_pos(elf, infos, elf.symtab_idx as int) is Some
        &&& keep_pos(elf, infos, elf.strtab_idx as int) is Some
        &&& keep_pos(elf, infos, elf.shstrtab_idx as int) is Some
        &&& values_resolve(elf, infos)
    }
}

/// Splits `.text`, `.rodata`, `.data`, `.sdata`, `.sbss` and `.bss` into
/// one section per symbol (with a REL section each where relocations fall
/// in the symbol's range), for use with GNU ld --gc-sections.
///
/// A section is split only where the symbols in it with a size (other than
/// NON_MATCHING ones) cover it exactly; `symbol_order` gives the order of
/// the new NOBITS sections by symbol name (the first pair with a name
/// counts). With `plain_names` every new section keeps the name of the
/// section it comes from.
pub fn split_monolithic_sections(elf: &mut Elf, plain_names: bool, symbol_order: &Vec<(String, usize)>)
    requires
        split_ready(old(elf)@, order_views(symbol_order@)),
    ensures
        final(elf)@ == split_result(old(elf)@, plain_names, order_views(symbol_order@)),
{
    let ghost e0 = elf@;
    let ghost order = order_views(symbol_order@);
    let mut splits: Vec<SectionSplit> = Vec::new();
    assert(split_views(splits@) =~= splits_upto(e0, order, 0));
    collect_into(elf, ".text", symbol_order, &mut splits, Ghost(0));
    collect_into(elf, ".rodata", symbol_order, &mut splits, Ghost(1));
    collect_into(elf, ".data", symbol_order, &mut splits, Ghost(2));
    collect_into(elf, ".sdata", symbol_order, &mut splits, Ghost(3));
    collect_into(elf, ".sbss", symbol_order, &mut splits, Ghost(4));
    collect_into(elf, ".bss", symbol_order, &mut splits, Ghost(5));
    let ghost infos = split_views(splits@);
    assert(infos == splits_of(e0, order));
    if splits.len() == 0 {
        return;
    }
    proof {
        lemma_splits_wf(e0, order, 6);
        assert forall|k: int| 0 <= k < splits@.len() implies (#[trigger] splits@[k])@ == infos[k] by {}
    }
    let n = elf.sections.len();
    let mut removed_flags: Vec<bool> = Vec::new();
    let mut o: usize = 0;
    while o < n
        invariant
            n == elf.sections@.len(),
            split_views(splits@) == infos,
            o <= n,
            removed_flags@.len() == o,
            forall|x: int| 0 <= x < o ==> #[trigger] removed_flags@[x] == removed(infos, x),
        decreases n - o,
    {
        let r = is_removed(&splits, o, Ghost(infos));
        removed_flags.push(r);
        o += 1;
    }
    let mut w = walk(
        &elf.sections,
        &elf.symtab.symbols,
        &mut elf.shstrtab,
        &splits,
        &removed_flags,
        plain_names,
        Ghost(e0),
        Ghost(infos),
    );
    let ghost plan = plan_upto(e0, infos, n as int);
    let ghost raw = w.sections@;
    let ghost fresh = w.fresh@;
    assert(opt_int(w.old_to_new@[e0.symtab_idx as int]) == keep_pos(e0, infos, e0.symtab_idx as int));
    assert(opt_int(w.old_to_new@[e0.strtab_idx as int]) == keep_pos(e0, infos, e0.strtab_idx as int));
    assert(opt_int(w.old_to_new@[e0.shstrtab_idx as int]) == keep_pos(e0, infos, e0.shstrtab_idx as int));
    let nsym = match w.old_to_new[elf.symtab_idx] {
        Some(x) => x,
        None => return,
    };
    let nstr = match w.old_to_new[elf.strtab_idx] {
        Some(x) => x,
        None => return,
    };
    let nsh = match w.old_to_new[elf.shstrtab_idx] {
        Some(x) => x,
        None => return,
    };
    proof {
        lemma_plan_item(e0, infos, e0.symtab_idx as int, 0, n as int);
        lemma_plan_item(e0, infos, e0.strtab_idx as int, 0, n as int);
        lemma_plan_item(e0, infos, e0.shstrtab_idx as int, 0, n as int);
    }
    relink_sections(&mut w.sections, &w.fresh, &w.old_to_new, nsym, Ghost(e0), Ghost(infos));
    let nnew = w.sections.len();
    assert(plan.len() == nnew);
    fix_symbols(
        &mut elf.symtab.symbols,
        &w.sym_to_new,
        &w.ranges,
        &w.old_to_new,
        Ghost(e0),
        Ghost(infos),
    );
    let ghost names = elf.shstrtab@;
    elf.sections = w.sections;
    elf.symtab_idx = nsym;
    elf.strtab_idx = nstr;
    elf.shstrtab_idx = nsh;
    elf.header.e_shstrndx = nsh as u16;
    elf.symtab.pack_data();
    let symtab_sec = elf.symtab.section.duplicate();
    elf.sections.set(nsym, symtab_sec);
    let _ = elf.shstrtab.pack_data();
    let shstr_sec = elf.shstrtab.section.duplicate();
    elf.sections.set(nsh, shstr_sec);
    let _ = elf.strtab.pack_data();
    let str_sec = elf.strtab.section.duplicate();
    elf.sections.set(nstr, str_sec);
    proof {
        let target = split_object(e0, infos, plain_names);
        let secs = Seq::new(
            plan.len(),
            |p: int|
                relinked(
                    e0,
                    infos,
                    raw_section(e0, infos, plain_names, plan, p),
                    !(plan[p] is Keep),
                    nsym as int,
                ),
        );
        assert forall|p: int| 0 <= p < plan.len() implies raw[p]@ == raw_section(
            e0,
            infos,
            plain_names,
            plan,
            p,
        ) && fresh[p] == !(plan[p] is Keep) by {}
        assert(elf@.symtab == target.symtab);
        assert(elf@.strtab == target.strtab);
        assert(elf@.shstrtab == target.shstrtab);
        assert(elf@.header == target.header);
        assert(elf@.sections =~= target.sections);
    }
}

/// The splits made from the first `m` names are of sections named by
/// distinct ones of those names, in order.
proof fn lemma_splits_named(elf: ElfView, order: Seq<(Seq<char>, usize)>, m: int)
    requires
        0 <= m <= 6,
    ensures
        forall|k1: int, k2: int|
            0 <= k1 < k2 < splits_upto(elf, order, m).len() ==> elf.sections[splits_upto(
                elf,
                order,
                m,
            )[k1].section_idx].name != elf.sections[splits_upto(elf, order, m)[k2].section_idx].name,
        forall|k: int|
            0 <= k < splits_upto(elf, order, m).len() ==> exists|t: int|
                0 <= t < m && elf.sections[(#[trigger] splits_upto(elf, order, m)[k]).section_idx].name
                    == #[trigger] split_names()[t],
    decreases m,
{
    reveal_strlit(".text");
    reveal_strlit(".rodata");
    reveal_strlit(".data");
    reveal_strlit(".sdata");
    reveal_strlit(".sbss");
    reveal_strlit(".bss");
    if m > 0 {
        lemma_splits_named(elf, order, m - 1);
        let r = splits_upto(elf, order, m - 1);
        let nm = split_names()[m - 1];
        assert(forall|t1: int, t2: int|
            0 <= t1 < t2 < 6 ==> #[trigger] split_names()[t1] != #[trigger] split_names()[t2]) by {
            assert(split_names()[0].len() == 5 && split_names()[1].len() == 7);
            assert(split_names()[2].len() == 5 && split_names()[3].len() == 6);
            assert(split_names()[4].len() == 5 && split_names()[5].len() == 4);
            assert(split_names()[0][1] == 't' && split_names()[2][1] == 'd');
            assert(split_names()[3][2] == 'd' && split_names()[4][2] == 'b');
        }
        if split_info(elf, nm, order) is Some {
            let info = split_info(elf, nm, order)->0;
            lemma_first_from(0, elf.sections.len() as int, |i: int| elf.sections[i].name == nm);
            assert(elf.sections[info.section_idx].name == nm);
            let r2 = splits_upto(elf, order, m);
            assert(r2 == r.push(info));
            assert forall|k: int| 0 <= k < r2.len() implies exists|t: int|
                0 <= t < m && elf.sections[(#[trigger] r2[k]).section_idx].name == #[trigger] split_names()[t] by {
                if k < r.len() {
                    assert(r2[k] == r[k]);
                } else {
                    assert(elf.sections[r2[k].section_idx].name == split_names()[m - 1]);
                }
            }
            assert forall|k1: int, k2: int| 0 <= k1 < k2 < r2.len() implies elf.sections[r2[k1].section_idx].name
                != elf.sections[r2[k2].section_idx].name by {
                if k2 < r.len() {
                    assert(r2[k1] == r[k1] && r2[k2] == r[k2]);
                } else {
                    assert(r2[k1] == r[k1]);
                    let t = choose|t: int|
                        0 <= t < m - 1 && elf.sections[r[k1].section_idx].name
                            == #[trigger] split_names()[t];
                    assert(split_names()[t] != split_names()[m - 1]);
                }
            }
        }
    }
}

/// Distinct splits are of distinct sections, so each split is the split of
/// its section.
proof fn lemma_split_at_own(elf: ElfView, order: Seq<(Seq<char>, usize)>, k: int)
    requires
        0 <= k < splits_of(elf, order).len(),
    ensures
        split_at(splits_of(elf, order), splits_of(elf, order)[k].section_idx) == Some(k),
{
    let infos = splits_of(elf, order);
    lemma_splits_named(elf, order, 6);
    let o = infos[k].section_idx;
    assert forall|j: int| #![trigger infos[j].section_idx] 0 <= j < k implies !(infos[j].section_idx == o) by {
        assert(elf.sections[infos[j].section_idx].name != elf.sections[infos[k].section_idx].name);
    }
    lemma_first_from_at(0, k, infos.len() as int, |kk: int| infos[kk].section_idx == o);
}

/// Where a split symbol's own section stands in the result: at its data
/// position, which the symbol's new section index names.
proof fn lemma_split_entry_slot(
    elf: ElfView,
    plain: bool,
    order: Seq<(Seq<char>, usize)>,
    k: int,
    j: int,
)
    requires
        split_ready(elf, order),
        0 <= k < splits_of(elf, order).len(),
        0 <= j < splits_of(elf, order)[k].entries.len(),
        splits_of(elf, order)[k].section_idx != 0,
        split_result(elf, plain, order).sections.len() <= u16::MAX,
    ensures
        ({
            let infos = splits_of(elf, order);
            let n = elf.sections.len() as int;
            let i = infos[k].entries[j] as int;
            let p = data_pos(elf, infos, k, j);
            let after = split_result(elf, plain, order);
            &&& walk_ready(elf, infos)
            &&& split_at(infos, infos[k].section_idx) == Some(k)
            &&& split_wf(elf, infos[k])
            &&& after == split_object(elf, infos, plain)
            &&& after.sections.len() == plan_upto(elf, infos, n).len()
            &&& 0 <= p < after.sections.len()
            &&& plan_upto(elf, infos, n)[p] == Item::Data(k, j)
            &&& after.symtab.symbols[i] == moved_symbol(elf, infos, i)
            &&& after.symtab.symbols[i].st_shndx == p
            &&& after.symtab.symbols[i].st_value == 0
            &&& section_plan(elf, infos, infos[k].section_idx) == entries_plan(
                elf,
                infos,
                k,
                infos[k].entries.len() as int,
            )
        }),
{
    let infos = splits_of(elf, order);
    let n = elf.sections.len() as int;
    lemma_splits_wf(elf, order, 6);
    assert(walk_ready(elf, infos));
    let o = infos[k].section_idx;
    let i = infos[k].entries[j] as int;
    lemma_split_at_own(elf, order, k);
    lemma_entry_of(infos, k, j);
    lemma_data_pos_bound(elf, infos, k, j);
    let nent = infos[k].entries.len() as int;
    assert(removed(infos, o));
    assert(section_plan(elf, infos, o) == entries_plan(elf, infos, k, nent));
    lemma_entry_items(elf, infos, k, j, nent);
    lemma_plan_item(elf, infos, o, entries_plan(elf, infos, k, j).len() as int, n);
    let p = data_pos(elf, infos, k, j);
    assert(split_wf(elf, infos[k]));
    assert(qualifies(elf.symtab.symbols[i], o));
    let after = split_object(elf, infos, plain);
    let s = after.symtab.symbols[i];
    assert(s == moved_symbol(elf, infos, i));
    lemma_plan_item(elf, infos, elf.symtab_idx as int, 0, n);
    lemma_plan_item(elf, infos, elf.strtab_idx as int, 0, n);
    lemma_plan_item(elf, infos, elf.shstrtab_idx as int, 0, n);
    assert(after.sections.len() == plan_upto(elf, infos, n).len());
    assert(plan_upto(elf, infos, n)[p] == Item::Data(k, j));
    assert(s.st_shndx == p as u16);
    assert(s.st_shndx == p);
    assert(s.st_value == 0);
    assert(after == split_result(elf, plain, order));
}

/// After splitting, a symbol that gets a section of its own sits at offset
/// 0 of a new section that is as long as the symbol, holds exactly the
/// symbol's bytes of the section it came from (none for NOBITS), has that
/// section's type, and is named after that section and the symbol (or
/// after that section alone, with plain names).
pub proof fn law_split_symbol_owns_section(
    elf: ElfView,
    plain: bool,
    order: Seq<(Seq<char>, usize)>,
    k: int,
    j: int,
)
    requires
        split_ready(elf, order),
        0 <= k < splits_of(elf, order).len(),
        0 <= j < splits_of(elf, order)[k].entries.len(),
        splits_of(elf, order)[k].section_idx != 0,
        split_result(elf, plain, order).sections.len() <= u16::MAX,
    ensures
        ({
            let infos = splits_of(elf, order);
            let i = infos[k].entries[j] as int;
            let before = elf.symtab.symbols[i];
            let after = split_result(elf, plain, order);
            let s = after.symtab.symbols[i];
            let orig = elf.sections[infos[k].section_idx];
            let sec = after.sections[s.st_shndx as int];
            &&& s.st_value == 0
            &&& s.st_shndx < after.sections.len()
            &&& sec.data == (if orig.sh_type != SHT_NOBITS {
                orig.data.subrange(before.st_value as int, before.st_value + before.st_size)
            } else {
                Seq::empty()
            })
            &&& sec.sh_size == before.st_size
            &&& sec.sh_type == orig.sh_type
            &&& sec.name == (if plain {
                orig.name
            } else {
                orig.name + "."@ + before.name
            })
        }),
{
    let infos = splits_of(elf, order);
    let n = elf.sections.len() as int;
    lemma_split_entry_slot(elf, plain, order, k, j);
    let plan = plan_upto(elf, infos, n);
    let p = data_pos(elf, infos, k, j);
    let nsym = keep_pos(elf, infos, elf.symtab_idx as int)->0;
    let nstr = keep_pos(elf, infos, elf.strtab_idx as int)->0;
    let nsh = keep_pos(elf, infos, elf.shstrtab_idx as int)->0;
    lemma_plan_item(elf, infos, elf.symtab_idx as int, 0, n);
    lemma_plan_item(elf, infos, elf.strtab_idx as int, 0, n);
    lemma_plan_item(elf, infos, elf.shstrtab_idx as int, 0, n);
    assert(p != nsym && p != nstr && p != nsh);
}

/// Splitting keeps every symbol in its place, with its name, string-table
/// offset, size, binding, type and visibility; only its section index and
/// value can change, and an undefined symbol does not change at all.
pub proof fn law_split_keeps_symbols(
    elf: ElfView,
    plain: bool,
    order: Seq<(Seq<char>, usize)>,
    i: int,
)
    requires
        0 <= i < elf.symtab.symbols.len(),
    ensures
        ({
            let after = split_result(elf, plain, order);
            let b = elf.symtab.symbols[i];
            let a = after.symtab.symbols[i];
            &&& after.symtab.symbols.len() == elf.symtab.symbols.len()
            &&& a.name == b.name
            &&& a.st_name == b.st_name
            &&& a.st_size == b.st_size
            &&& a.st_info == b.st_info
            &&& a.st_other == b.st_other
            &&& b.st_shndx == 0 ==> a == b
        }),
{
}

/// After splitting, the relocations that fall in a split symbol's range
/// (made relative to the symbol) stand in a new REL section right after
/// the symbol's own section, which that REL section applies to and which
/// links to the symbol table; where none falls in its range, no REL
/// section follows for it.
pub proof fn law_split_relocations_follow_symbol(
    elf: ElfView,
    plain: bool,
    order: Seq<(Seq<char>, usize)>,
    k: int,
    j: int,
)
    requires
        split_ready(elf, order),
        0 <= k < splits_of(elf, order).len(),
        0 <= j < splits_of(elf, order)[k].entries.len(),
        splits_of(elf, order)[k].section_idx != 0,
        split_result(elf, plain, order).sections.len() <= u16::MAX,
    ensures
        ({
            let infos = splits_of(elf, order);
            let i = infos[k].entries[j] as int;
            let after = split_result(elf, plain, order);
            let p = after.symtab.symbols[i].st_shndx as int;
            let rs = entry_relocations(elf, infos, k, j);
            &&& p < after.sections.len()
            &&& rs.len() > 0 ==> {
                &&& p + 1 < after.sections.len()
                &&& after.sections[p + 1].sh_type == SHT_REL
                &&& after.sections[p + 1].data == relocations_bytes(rs)
                &&& after.sections[p + 1].sh_info == p
                &&& after.sections[p + 1].sh_link == after.symtab_idx
            }
        }),
{
    let infos = splits_of(elf, order);
    let n = elf.sections.len() as int;
    lemma_split_entry_slot(elf, plain, order, k, j);
    let o = infos[k].section_idx;
    let nent = infos[k].entries.len() as int;
    lemma_entry_items(elf, infos, k, j, nent);
    let plan = plan_upto(elf, infos, n);
    let p = data_pos(elf, infos, k, j);
    let after = split_object(elf, infos, plain);
    if entry_relocations(elf, infos, k, j).len() > 0 {
        lemma_plan_item(elf, infos, o, entries_plan(elf, infos, k, j).len() + 1int, n);
        assert(plan[p + 1] == Item::Rel(k, j));
        let nsym = keep_pos(elf, infos, elf.symtab_idx as int)->0;
        let nstr = keep_pos(elf, infos, elf.strtab_idx as int)->0;
        let nsh = keep_pos(elf, infos, elf.shstrtab_idx as int)->0;
        lemma_plan_item(elf, infos, elf.symtab_idx as int, 0, n);
        lemma_plan_item(elf, infos, elf.strtab_idx as int, 0, n);
        lemma_plan_item(elf, infos, elf.shstrtab_idx as int, 0, n);
        assert(p + 1 != nsym && p + 1 != nstr && p + 1 != nsh);
        assert(after.sections[p + 1] == relinked(
            elf,
            infos,
            raw_section(elf, infos, plain, plan, p + 1),
            true,
            nsym,
        ));
    }
}

/// The first sections called each of `split_names()`.
fn split_section_indices(elf: &Elf) -> (r: Vec<Option<usize>>)
    ensures
        r@.len() == 6,
        forall|m: int| 0 <= m < 6 ==> opt_int(#[trigger] r@[m]) == section_named(elf@.sections, split_names()[m]),
{
    let names: Vec<String> = vec![
        ".text".to_owned(),
        ".rodata".to_owned(),
        ".data".to_owned(),
        ".sdata".to_owned(),
        ".sbss".to_owned(),
        ".bss".to_owned(),
    ];
    let mut r: Vec<Option<usize>> = Vec::new();
    let mut m: usize = 0;
    while m < 6
        invariant
            names@.len() == 6,
            forall|q: int| 0 <= q < 6 ==> #[trigger] names@[q]@ == split_names()[q],
            m <= 6,
            r@.len() == m,
            forall|q: int| 0 <= q < m ==> opt_int(#[trigger] r@[q]) == section_named(elf@.sections, split_names()[q]),
        decreases 6 - m,
    {
        let f = find_section(elf, &names[m]);
        r.push(f);
        m += 1;
    }
    r
}

/// Whether section `x` is one that splitting looks at (see
/// `split_section`), given the indices of the sections it looks at.
fn is_split_section(idxs: &Vec<Option<usize>>, x: usize, Ghost(elf): Ghost<ElfView>) -> (r: bool)
    requires
        idxs@.len() == 6,
        forall|m: int| 0 <= m < 6 ==> opt_int(#[trigger] idxs@[m]) == section_named(elf.sections, split_names()[m]),
    ensures
        r == split_section(elf, x as int),
{
    let mut m: usize = 0;
    while m < 6
        invariant
            idxs@.len() == 6,
            forall|q: int| 0 <= q < 6 ==> opt_int(#[trigger] idxs@[q]) == section_named(elf.sections, split_names()[q]),
            m <= 6,
            forall|q: int| 0 <= q < m ==> #[trigger] section_named(elf.sections, split_names()[q]) != Some(x as int),
        decreases 6 - m,
    {
        assert(opt_int(idxs@[m as int]) == section_named(elf.sections, split_names()[m as int]));
        if idxs[m] == Some(x) {
            return true;
        }
        m += 1;
    }
    false
}

/// Whether every sized symbol of a section that splitting looks at ends
/// at least 3 bytes below 2^32 (see `offsets_fit`).
fn offsets_fit_check(elf: &Elf) -> (r: bool)
    ensures
        r == offsets_fit(elf@),
{
    let idxs = split_section_indices(elf);
    let ghost syms = elf@.symtab.symbols;
    let n = elf.symtab.symbols.len();
    let mut i: usize = 0;
    while i < n
        invariant
            n == syms.len(),
            syms == elf@.symtab.symbols,
            idxs@.len() == 6,
            forall|m: int| 0 <= m < 6 ==> opt_int(#[trigger] idxs@[m]) == section_named(elf@.sections, split_names()[m]),
            i <= n,
            forall|q: int|
                0 <= q < i && (#[trigger] syms[q]).st_size > 0 && split_section(elf@, syms[q].st_shndx as int)
                    ==> syms[q].st_value + syms[q].st_size + 3 <= u32::MAX,
        decreases n - i,
    {
        assert(syms[i as int] == elf.symtab.symbols@[i as int]@);
        let s = &elf.symtab.symbols[i];
        if s.st_size > 0 && is_split_section(&idxs, s.st_shndx as usize, Ghost(elf@)) {
            if s.st_value as u64 + s.st_size as u64 + 3 > u32::MAX as u64 {
                return false;
            }
        }
        i += 1;
    }
    true
}

/// Whether every section's data fits 32 bits (see `sections_fit`).
fn sections_fit_check(elf: &Elf) -> (r: bool)
    ensures
        r == sections_fit(elf@),
{
    let n = elf.sections.len();
    let mut i: usize = 0;
    while i < n
        invariant
            n == elf@.sections.len(),
            i <= n,
            forall|q: int| 0 <= q < i ==> (#[trigger] elf@.sections[q]).data.len() <= u32::MAX,
        decreases n - i,
    {
        assert(elf@.sections[i as int] == elf.sections@[i as int]@);
        if elf.sections[i].data.len() > u32::MAX as usize {
            return false;
        }
        i += 1;
    }
    true
}

/// The entry of split `k` whose range holds `v`, else the last (see
/// `range_target`).
fn range_target_of(elf: &Elf, split: &SectionSplit, v: u32, Ghost(infos): Ghost<Seq<SplitInfo>>, Ghost(k): Ghost<int>) -> (j: usize)
    requires
        0 <= k < infos.len(),
        split@ == infos[k],
        split_wf(elf@, infos[k]),
    ensures
        j as int == range_target(elf@, infos, k, v as int),
{
    let ghost p = |jj: int|
        entry_symbol(elf@, infos, k, jj).st_value <= v < entry_symbol(elf@, infos, k, jj).st_value
            + entry_symbol(elf@, infos, k, jj).st_size;
    let n = split.entries.len();
    let mut j: usize = 0;
    while j < n
        invariant
            n == infos[k].entries.len(),
            split@ == infos[k],
            split_wf(elf@, infos[k]),
            0 <= k < infos.len(),
            j <= n,
            p == (|jj: int|
                entry_symbol(elf@, infos, k, jj).st_value <= v < entry_symbol(elf@, infos, k, jj).st_value
                    + entry_symbol(elf@, infos, k, jj).st_size),
            forall|jj: int| #![trigger p(jj)] 0 <= jj < j ==> !p(jj),
        decreases n - j,
    {
        let e = split.entries[j];
        assert(infos[k].entries[j as int] == e);
        assert(elf@.symtab.symbols[e as int] == elf.symtab.symbols@[e as int]@);
        let s = &elf.symtab.symbols[e];
        if s.st_value <= v && (v as u64) < s.st_value as u64 + s.st_size as u64 {
            proof {
                lemma_first_from_at(0, j as int, n as int, p);
            }
            return j;
        }
        j += 1;
    }
    proof {
        lemma_first_from_none(0, n as int, p);
    }
    n - 1
}

/// Symbol `i`, where it moves into a split section and does not get a
/// section of its own, lies at or after the start of the entry it moves
/// into (the condition `values_resolve` puts on every symbol).
pub open spec fn symbol_resolves(elf: ElfView, infos: Seq<SplitInfo>, i: int) -> bool {
    let s = elf.symtab.symbols[i];
    s.st_shndx != 0 ==> match split_at(infos, s.st_shndx as int) {
        Some(k) => !infos[k].entries.contains(i as usize) ==> s.st_value >= entry_symbol(
            elf,
            infos,
            k,
            range_target(elf, infos, k, s.st_value as int),
        ).st_value,
        None => true,
    }
}

/// Whether symbol `i` resolves (see `symbol_resolves`).
fn symbol_resolves_check(elf: &Elf, splits: &Vec<SectionSplit>, i: usize, Ghost(infos): Ghost<Seq<SplitInfo>>) -> (r: bool)
    requires
        i < elf@.symtab.symbols.len(),
        split_views(splits@) == infos,
        forall|k: int| 0 <= k < infos.len() ==> split_wf(elf@, #[trigger] infos[k]),
    ensures
        r == symbol_resolves(elf@, infos, i as int),
{
    assert forall|k: int| 0 <= k < splits@.len() implies (#[trigger] splits@[k])@ == infos[k] by {}
    assert(elf@.symtab.symbols[i as int] == elf.symtab.symbols@[i as int]@);
    let s = &elf.symtab.symbols[i];
    if s.st_shndx == 0 {
        return true;
    }
    match find_split(splits, s.st_shndx as usize, Ghost(infos)) {
        Some(k) => {
            proof {
                lemma_first_from(0, infos.len() as int, |kk: int| infos[kk].section_idx == s.st_shndx as int);
            }
            let sp = &splits[k];
            assert(sp@ == infos[k as int]);
            let mut found = false;
            let mut t: usize = 0;
            while t < sp.entries.len()
                invariant
                    sp@ == infos[k as int],
                    t <= sp.entries@.len(),
                    found == exists|u: int| 0 <= u < t && sp.entries@[u] == i,
                decreases sp.entries@.len() - t,
            {
                if sp.entries[t] == i {
                    found = true;
                }
                t += 1;
            }
            if !found {
                assert(!infos[k as int].entries.contains(i));
                let j = range_target_of(elf, sp, s.st_value, Ghost(infos), Ghost(k as int));
                proof {
                    lemma_range_target_bound(elf@, infos, k as int, s.st_value as int);
                }
                let e = sp.entries[j];
                assert(elf@.symtab.symbols[e as int] == elf.symtab.symbols@[e as int]@);
                s.st_value >= elf.symtab.symbols[e].st_value
            } else {
                proof {
                    let u = choose|u: int| 0 <= u < sp.entries@.len() && sp.entries@[u] == i;
                    assert(infos[k as int].entries[u] == i);
                }
                true
            }
        },
        None => true,
    }
}

/// Whether every symbol resolves (see `values_resolve`).
fn values_resolve_check(elf: &Elf, splits: &Vec<SectionSplit>, Ghost(infos): Ghost<Seq<SplitInfo>>) -> (r: bool)
    requires
        split_views(splits@) == infos,
        forall|k: int| 0 <= k < infos.len() ==> split_wf(elf@, #[trigger] infos[k]),
    ensures
        r == values_resolve(elf@, infos),
{
    let n = elf.symtab.symbols.len();
    let mut i: usize = 0;
    while i < n
        invariant
            n == elf@.symtab.symbols.len(),
            split_views(splits@) == infos,
            forall|k: int| 0 <= k < infos.len() ==> split_wf(elf@, #[trigger] infos[k]),
            i <= n,
            forall|q: int| 0 <= q < i ==> #[trigger] symbol_resolves(elf@, infos, q),
        decreases n - i,
    {
        if !symbol_resolves_check(elf, splits, i, Ghost(infos)) {
            return false;
        }
        i += 1;
    }
    assert forall|q: int| 0 <= q < elf@.symtab.symbols.len() implies {
        let s = #[trigger] elf@.symtab.symbols[q];
        s.st_shndx != 0 ==> match split_at(infos, s.st_shndx as int) {
            Some(k) => !infos[k].entries.contains(q as usize) ==> s.st_value >= entry_symbol(
                elf@,
                infos,
                k,
                range_target(elf@, infos, k, s.st_value as int),
            ).st_value,
            None => true,
        }
    } by {
        assert(symbol_resolves(elf@, infos, q));
    }
    true
}

proof fn lemma_range_target_bound(elf: ElfView, infos: Seq<SplitInfo>, k: int, v: int)
    requires
        0 <= k < infos.len(),
        split_wf(elf, infos[k]),
    ensures
        0 <= range_target(elf, infos, k, v) < infos[k].entries.len(),
{
    let n = infos[k].entries.len() as int;
    lemma_first_from(
        0,
        n,
        |j: int|
            entry_symbol(elf, infos, k, j).st_value <= v < entry_symbol(elf, infos, k, j).st_value
                + entry_symbol(elf, infos, k, j).st_size,
    );
}

/// Splits the object's monolithic sections (see
/// `split_monolithic_sections`) where it is ready for that (see
/// `split_ready`), and says whether it was; where it is not, nothing
/// changes.
pub fn try_split_monolithic_sections(elf: &mut Elf, plain_names: bool, symbol_order: &Vec<(String, usize)>) -> (ok: bool)
    ensures
        ok == split_ready(old(elf)@, order_views(symbol_order@)),
        ok ==> final(elf)@ == split_result(old(elf)@, plain_names, order_views(symbol_order@)),
        !ok ==> final(elf)@ == old(elf)@,
{
    let ghost e0 = elf@;
    let ghost order = order_views(symbol_order@);
    if !offsets_fit_check(elf) || !sections_fit_check(elf) {
        return false;
    }
    let mut splits: Vec<SectionSplit> = Vec::new();
    assert(split_views(splits@) =~= splits_upto(e0, order, 0));
    collect_into(elf, ".text", symbol_order, &mut splits, Ghost(0));
    collect_into(elf, ".rodata", symbol_order, &mut splits, Ghost(1));
    collect_into(elf, ".data", symbol_order, &mut splits, Ghost(2));
    collect_into(elf, ".sdata", symbol_order, &mut splits, Ghost(3));
    collect_into(elf, ".sbss", symbol_order, &mut splits, Ghost(4));
    collect_into(elf, ".bss", symbol_order, &mut splits, Ghost(5));
    let ghost infos = split_views(splits@);
    assert(infos == splits_of(e0, order));
    if splits.len() > 0 {
        proof {
            lemma_splits_wf(e0, order, 6);
        }
        let ns = splits.len();
        let mut k: usize = 0;
        while k < ns
            invariant
                ns == splits@.len(),
                infos == split_views(splits@),
                forall|kk: int| 0 <= kk < infos.len() ==> split_wf(e0, #[trigger] infos[kk]),
                e0 == elf@,
                e0 == old(elf)@,
                order == order_views(symbol_order@),
                infos == splits_of(e0, order),
                infos.len() > 0,
                k <= ns,
                forall|kk: int|
                    0 <= kk < k ==> ((#[trigger] infos[kk]).rel_idx matches Some(ri) ==> e0.sections[ri].data.len()
                        % 8 == 0),
            decreases ns - k,
        {
            assert(splits@[k as int]@ == infos[k as int]);
            match splits[k].rel_section_idx {
                Some(ri) => {
                    assert(e0.sections[ri as int] == elf.sections@[ri as int]@);
                    if elf.sections[ri].data.len() % 8 != 0 {
                        assert(infos[k as int].rel_idx == Some(ri as int));
                        return false;
                    }
                },
                None => {},
            }
            k += 1;
        }
        let tables = [elf.symtab_idx, elf.strtab_idx, elf.shstrtab_idx];
        let mut t: usize = 0;
        while t < 3
            invariant
                tables@ == seq![e0.symtab_idx, e0.strtab_idx, e0.shstrtab_idx],
                infos == split_views(splits@),
                e0 == elf@,
                e0 == old(elf)@,
                order == order_views(symbol_order@),
                infos == splits_of(e0, order),
                infos.len() > 0,
                t <= 3,
                forall|q: int| 0 <= q < t ==> keep_pos(e0, infos, #[trigger] tables@[q] as int) is Some,
            decreases 3 - t,
        {
            let o = tables[t];
            if o >= elf.sections.len() || is_removed(&splits, o, Ghost(infos)) {
                assert(keep_pos(e0, infos, tables@[t as int] as int) is None);
                return false;
            }
            t += 1;
        }
        assert(keep_pos(e0, infos, tables@[0] as int) is Some);
        assert(keep_pos(e0, infos, tables@[1] as int) is Some);
        assert(keep_pos(e0, infos, tables@[2] as int) is Some);
        if !values_resolve_check(elf, &splits, Ghost(infos)) {
            return false;
        }
    }
    split_monolithic_sections(elf, plain_names, symbol_order);
    true
}

/// After a split, the REL section that follows a symbol's new section
/// (see `law_split_relocations_follow_symbol`) holds every relocation of
/// the old REL section that falls in the symbol's range, at its offset
/// inside the symbol, and every relocation it holds lies inside the new
/// section: its offset is below the symbol's size (that each comes from
/// one in the range is `law_relocations_within`).
pub proof fn law_split_relocations_inside_symbol(
    elf: ElfView,
    order: Seq<(Seq<char>, usize)>,
    k: int,
    j: int,
)
    requires
        0 <= k < splits_of(elf, order).len(),
        0 <= j < splits_of(elf, order)[k].entries.len(),
    ensures
        ({
            let infos = splits_of(elf, order);
            let s = entry_symbol(elf, infos, k, j);
            let orig = split_relocations(elf, infos[k]);
            let rs = entry_relocations(elf, infos, k, j);
            &&& forall|t: int| 0 <= t < rs.len() ==> (#[trigger] rs[t]).r_offset < s.st_size
            &&& forall|i: int|
                0 <= i < orig.len() && s.st_value <= (#[trigger] orig[i]).r_offset < s.st_value + s.st_size
                    ==> rs.contains(rebased(orig[i], s.st_value as int))
        }),
{
    let infos = splits_of(elf, order);
    let s = entry_symbol(elf, infos, k, j);
    let orig = split_relocations(elf, infos[k]);
    let rs = entry_relocations(elf, infos, k, j);
    let w = relocations_within(orig, s.st_value as int, s.st_size as int);
    law_relocations_within(orig, s.st_value as int, s.st_size as int);
    assert(rs == w);
    assert forall|t: int| 0 <= t < rs.len() implies (#[trigger] rs[t]).r_offset < s.st_size by {
        assert(w[t].r_offset < s.st_size);
    }
    assert forall|i: int|
        0 <= i < orig.len() && s.st_value <= (#[trigger] orig[i]).r_offset < s.st_value + s.st_size implies rs.contains(
        rebased(orig[i], s.st_value as int),
    ) by {
        assert(w.contains(rebased(orig[i], s.st_value as int)));
    }
}

} // verus!
