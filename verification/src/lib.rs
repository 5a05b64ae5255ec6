//! Section-level ELF handling and assembly preprocessing for wrapping the
//! Metrowerks compiler: string tables, symbol tables, relocations, the
//! INCLUDE_ASM preprocessor and the splitting of monolithic sections.
pub mod cfile;
pub mod constants;
pub mod elf;
pub mod inject;
pub mod preprocessor;
pub mod splice;
pub mod text;
pub mod transplant;
pub mod source_text;
pub mod split;

use vstd::prelude::*;
use crate::constants::{SYMBOL_AT, SYMBOL_DOLLAR};
use crate::text::{chars_of, chars_start_with, replace_all, replace_chars, starts_with, string_of};

verus! {

/// `name` with every `.` written `__at__` and then every `$` written
/// `__dollar__`, so that it can stand as a C identifier.
pub fn escape_symbol(name: &str) -> (r: String)
    ensures
        r@ == replace_all(replace_all(name@, "."@, "__at__"@), "$"@, "__dollar__"@),
{
    let c = chars_of(name);
    let dot = chars_of(".");
    let at = chars_of(SYMBOL_AT);
    let dollar = chars_of("$");
    let esc = chars_of(SYMBOL_DOLLAR);
    proof {
        reveal_strlit(".");
        reveal_strlit("$");
    }
    let a = replace_chars(c.as_slice(), dot.as_slice(), at.as_slice());
    let b = replace_chars(a.as_slice(), dollar.as_slice(), esc.as_slice());
    string_of(b.as_slice())
}

/// `name` with every `__at__` written `.` and then every `__dollar__`
/// written `$`: the names `escape_symbol` makes turned back.
pub fn unescape_symbol(name: &str) -> (r: String)
    ensures
        r@ == replace_all(replace_all(name@, "__at__"@, "."@), "__dollar__"@, "$"@),
{
    let c = chars_of(name);
    let at = chars_of(SYMBOL_AT);
    let dot = chars_of(".");
    let esc = chars_of(SYMBOL_DOLLAR);
    let dollar = chars_of("$");
    proof {
        reveal_strlit("__at__");
        reveal_strlit("__dollar__");
    }
    let a = replace_chars(c.as_slice(), at.as_slice(), dot.as_slice());
    let b = replace_chars(a.as_slice(), esc.as_slice(), dollar.as_slice());
    string_of(b.as_slice())
}

/// Where a C file comes from: standard input or a path.
pub enum SourceType {
    StdIn,
    Path(String),
}

impl SourceType {
    /// The name to report for the source: `<stdin>`, or the path.
    pub fn name(&self) -> (r: String)
        ensures
            r@ == (match self {
                SourceType::StdIn => "<stdin>"@,
                SourceType::Path(s) => s@,
            }),
    {
        match self {
            SourceType::StdIn => "<stdin>".to_owned(),
            SourceType::Path(s) => s.clone(),
        }
    }
}

/// The name that `SourceType::name` gives.
pub open spec fn source_name(source: &SourceType) -> Seq<char> {
    match source {
        SourceType::StdIn => "<stdin>"@,
        SourceType::Path(s) => s@,
    }
}

/// The index of the last `c` in `s`, or -1 where there is none.
pub open spec fn last_pos(s: Seq<char>, c: char) -> int
    decreases s.len(),
{
    if s.len() == 0 {
        -1
    } else if s.last() == c {
        s.len() - 1
    } else {
        last_pos(s.drop_last(), c)
    }
}

/// A path cut after its last `/`: the directory part (with the `/`) and
/// the file name.
pub open spec fn split_name(p: Seq<char>) -> (Seq<char>, Seq<char>) {
    let k = last_pos(p, '/') + 1;
    (p.take(k), p.skip(k))
}

/// A file name without its extension: up to its last `.`, where that `.`
/// is not the first character (as `Path::file_stem` reads it).
pub open spec fn name_stem(name: Seq<char>) -> Seq<char> {
    let d = last_pos(name, '.');
    if d > 0 {
        name.take(d)
    } else {
        name
    }
}

/// A file name's extension: what follows its last `.`, where that `.` is
/// not the first character; empty where there is none.
pub open spec fn name_ext(name: Seq<char>) -> Seq<char> {
    let d = last_pos(name, '.');
    if d > 0 {
        name.skip(d + 1)
    } else {
        Seq::empty()
    }
}

/// A path whose last piece is a plain file name: not empty, not ending in
/// `/`, and not `.` or `..`.
pub open spec fn plain_file_path(p: Seq<char>) -> bool {
    let name = split_name(p).1;
    &&& name.len() > 0
    &&& !(name.len() == 1 && name[0] == '.')
    &&& !(name.len() == 2 && name[0] == '.' && name[1] == '.')
}

/// `p` with its extension replaced by `e` (none where `e` is empty), as
/// `Path::set_extension` does on a plain file path.
pub open spec fn with_extension(p: Seq<char>, e: Seq<char>) -> Seq<char> {
    let (dir, name) = split_name(p);
    dir + name_stem(name) + if e.len() > 0 {
        seq!['.'] + e
    } else {
        Seq::empty()
    }
}

/// Where the dependency file of object `o_file`, compiled from `source`,
/// goes: in gcc mode beside the object, its extension followed by `.d`
/// (`a.o` gives `a.o.d`); otherwise beside the source, with the extension
/// `d`.
pub open spec fn dep_path(o_file: Seq<char>, source: &SourceType, gcc_deps: bool) -> Seq<char> {
    if gcc_deps {
        with_extension(o_file, name_ext(split_name(o_file).1) + ".d"@)
    } else {
        with_extension(source_name(source), "d"@)
    }
}

proof fn lemma_last_pos(s: Seq<char>, c: char)
    ensures
        -1 <= last_pos(s, c) < s.len(),
        last_pos(s, c) >= 0 ==> s[last_pos(s, c)] == c,
    decreases s.len(),
{
    if s.len() > 0 && s.last() != c {
        lemma_last_pos(s.drop_last(), c);
    }
}

/// In gcc mode the dependency file is the object's path with `.d`
/// appended, where the object's file name has an extension (`a.o` gives
/// `a.o.d`).
pub proof fn law_gcc_dependency_appends_d(o_file: Seq<char>, source: &SourceType)
    requires
        last_pos(split_name(o_file).1, '.') > 0,
    ensures
        dep_path(o_file, source, true) == o_file + ".d"@,
{
    let (dir, name) = split_name(o_file);
    let d = last_pos(name, '.');
    lemma_last_pos(name, '.');
    lemma_last_pos(o_file, '/');
    reveal_strlit(".d");
    let e = name_ext(name) + ".d"@;
    assert(e.len() > 0);
    assert(name.take(d) + (seq!['.'] + e) =~= name + ".d"@);
    assert(dir + name =~= o_file);
    assert(with_extension(o_file, e) =~= o_file + ".d"@);
}

/// One past the index of the last `c` in `s` (0 where there is none).
fn after_last(s: &[char], c: char) -> (k: usize)
    ensures
        k == last_pos(s@, c) + 1,
        k <= s@.len(),
{
    let mut i: usize = s.len();
    assert(s@.take(i as int) =~= s@);
    while i > 0 && s[i - 1] != c
        invariant
            i <= s@.len(),
            last_pos(s@, c) == last_pos(s@.take(i as int), c),
        decreases i,
    {
        assert(s@.take(i as int).drop_last() =~= s@.take(i - 1));
        i -= 1;
    }
    i
}

/// `p` with its extension replaced by `e` (see `with_extension`).
fn replace_extension(p: &[char], e: &[char]) -> (r: Vec<char>)
    ensures
        r@ == with_extension(p@, e@),
{
    let k = after_last(p, '/');
    let name = &p[k..p.len()];
    assert(name@ =~= p@.skip(k as int));
    let d = after_last(name, '.');
    let stem_end: usize = if d > 1 {
        k + d - 1
    } else {
        p.len()
    };
    let mut out = vstd::slice::slice_to_vec(&p[0..stem_end]);
    if e.len() > 0 {
        out.push('.');
        let mut i: usize = 0;
        let ghost base = out@;
        while i < e.len()
            invariant
                i <= e@.len(),
                out@ == base + e@.take(i as int),
            decreases e@.len() - i,
        {
            out.push(e[i]);
            assert(e@.take(i + 1) =~= e@.take(i as int).push(e@[i as int]));
            i += 1;
        }
        assert(e@.take(e@.len() as int) =~= e@);
    }
    proof {
        let (dir, nm) = split_name(p@);
        assert(dir =~= p@.take(k as int));
        assert(nm =~= name@);
        if d > 1 {
            assert(p@.subrange(0, stem_end as int) =~= dir + nm.take(d - 1));
        } else {
            assert(p@.subrange(0, stem_end as int) =~= dir + nm);
        }
    }
    assert(out@ =~= with_extension(p@, e@));
    out
}

/// The extension of the last piece of `p` (see `name_ext`).
fn extension_of(p: &[char]) -> (r: Vec<char>)
    ensures
        r@ == name_ext(split_name(p@).1),
{
    let k = after_last(p, '/');
    let name = &p[k..p.len()];
    assert(name@ =~= p@.skip(k as int));
    let d = after_last(name, '.');
    if d > 1 {
        let r = vstd::slice::slice_to_vec(&name[d..name.len()]);
        assert(r@ =~= name@.skip(d as int));
        r
    } else {
        Vec::new()
    }
}

/// Whether the last piece of `p` is a plain file name (see
/// `plain_file_path`).
pub fn is_plain_file_path(p: &str) -> (r: bool)
    ensures
        r == plain_file_path(p@),
{
    let c = chars_of(p);
    let k = after_last(c.as_slice(), '/');
    let name = &c.as_slice()[k..c.len()];
    assert(name@ =~= split_name(p@).1);
    let n = name.len();
    n > 0 && !(n == 1 && name[0] == '.') && !(n == 2 && name[0] == '.' && name[1] == '.')
}

/// The path of the dependency file for object `o_file` compiled from
/// `source` (see `dep_path`).
pub fn dependency_path(o_file: &str, source: &SourceType, gcc_deps: bool) -> (r: String)
    requires
        gcc_deps ==> plain_file_path(o_file@),
        !gcc_deps ==> plain_file_path(source_name(source)),
    ensures
        r@ == dep_path(o_file@, source, gcc_deps),
{
    if gcc_deps {
        let o = chars_of(o_file);
        let mut e = extension_of(o.as_slice());
        e.push('.');
        e.push('d');
        proof {
            reveal_strlit(".d");
        }
        assert(e@ =~= name_ext(split_name(o_file@).1) + ".d"@);
        let r = replace_extension(o.as_slice(), e.as_slice());
        string_of(r.as_slice())
    } else {
        let name = source.name();
        let n = chars_of(name.as_str());
        let mut e: Vec<char> = Vec::new();
        e.push('d');
        proof {
            reveal_strlit("d");
        }
        assert(e@ =~= "d"@);
        let r = replace_extension(n.as_slice(), e.as_slice());
        string_of(r.as_slice())
    }
}

/// The source file a dependency rule names: none for standard input, and
/// for a path only where standard input is a terminal (a build system that
/// pipes the tool knows the source from its own rules).
pub fn rule_source(source: &SourceType, stdin_is_terminal: bool) -> (r: Option<String>)
    ensures
        match source {
            SourceType::StdIn => r is None,
            SourceType::Path(s) => if stdin_is_terminal {
                r is Some && r->0@ == s@
            } else {
                r is None
            },
        },
{
    match source {
        SourceType::StdIn => None,
        SourceType::Path(s) => if stdin_is_terminal {
            Some(s.clone())
        } else {
            None
        },
    }
}

/// The value of digit `c` in base `radix` (`0`-`9`, then `a`-`z` or
/// `A`-`Z` for 10 on), where it is one.
pub open spec fn digit_value(c: char, radix: nat) -> Option<nat> {
    let v: int = if '0' <= c && c <= '9' {
        c as int - '0' as int
    } else if 'a' <= c && c <= 'z' {
        c as int - 'a' as int + 10
    } else if 'A' <= c && c <= 'Z' {
        c as int - 'A' as int + 10
    } else {
        radix as int
    };
    if v < radix {
        Some(v as nat)
    } else {
        None
    }
}

/// The number that the digits `s` write in base `radix`, where all are
/// digits.
pub open spec fn digits_number(s: Seq<char>, radix: nat) -> Option<nat>
    decreases s.len(),
{
    if s.len() == 0 {
        Some(0)
    } else {
        match (digits_number(s.drop_last(), radix), digit_value(s.last(), radix)) {
            (Some(v), Some(d)) => Some(v * radix + d),
            _ => None,
        }
    }
}

/// What `u32::from_str_radix` reads: an optional `+` and at least one
/// digit, of a value that fits in 32 bits.
pub open spec fn u32_from_digits(s: Seq<char>, radix: nat) -> Option<u32> {
    let body = if s.len() > 0 && s[0] == '+' {
        s.drop_first()
    } else {
        s
    };
    if body.len() == 0 {
        None
    } else {
        match digits_number(body, radix) {
            Some(v) => if v <= u32::MAX {
                Some(v as u32)
            } else {
                None
            },
            None => None,
        }
    }
}

/// `s` without every repetition of `p` at its start (`str::trim_start_matches`).
pub open spec fn strip_leading(s: Seq<char>, p: Seq<char>) -> Seq<char>
    decreases s.len(),
{
    if p.len() > 0 && starts_with(s, p) {
        strip_leading(s.skip(p.len() as int), p)
    } else {
        s
    }
}

/// The value an `--elf-flags` argument gives: hexadecimal after a leading
/// `0x` or `0X` (all leading `0x`, then all leading `0X` taken off), else
/// decimal.
pub open spec fn elf_flags_value(s: Seq<char>) -> Option<u32> {
    if starts_with(s, "0x"@) || starts_with(s, "0X"@) {
        u32_from_digits(strip_leading(strip_leading(s, "0x"@), "0X"@), 16)
    } else {
        u32_from_digits(s, 10)
    }
}

/// The value of digit `c` in base `radix` (see `digit_value`).
fn digit_of(c: char, radix: u32) -> (r: Option<u32>)
    requires
        radix <= 36,
    ensures
        match digit_value(c, radix as nat) {
            Some(v) => r == Some(v as u32),
            None => r is None,
        },
{
    let v: u32 = if '0' <= c && c <= '9' {
        (c as u32) - ('0' as u32)
    } else if 'a' <= c && c <= 'z' {
        (c as u32) - ('a' as u32) + 10
    } else if 'A' <= c && c <= 'Z' {
        (c as u32) - ('A' as u32) + 10
    } else {
        radix
    };
    if v < radix {
        Some(v)
    } else {
        None
    }
}

proof fn lemma_digits_grow(s: Seq<char>, radix: nat, k: int)
    requires
        radix >= 2,
        0 <= k <= s.len(),
        digits_number(s, radix) is Some,
    ensures
        digits_number(s.take(k), radix) is Some,
        digits_number(s.take(k), radix)->0 <= digits_number(s, radix)->0,
    decreases s.len() - k,
{
    if k < s.len() {
        assert(s.take(k + 1).drop_last() =~= s.take(k));
        lemma_digits_grow(s, radix, k + 1);
        let a = digits_number(s.take(k), radix)->0;
        let d = digit_value(s.take(k + 1).last(), radix)->0;
        assert(a * radix + d >= a) by (nonlinear_arith)
            requires
                radix >= 2,
        ;
    } else {
        assert(s.take(k) =~= s);
    }
}

/// Reads digits the way `u32::from_str_radix` does (see `u32_from_digits`).
fn u32_from_str_radix(s: &Vec<char>, radix: u32) -> (r: Option<u32>)
    requires
        2 <= radix <= 36,
    ensures
        r == u32_from_digits(s@, radix as nat),
{
    let mut start: usize = 0;
    if s.len() > 0 && s[0] == '+' {
        start = 1;
    }
    let ghost body = if s@.len() > 0 && s@[0] == '+' {
        s@.drop_first()
    } else {
        s@
    };
    assert(body =~= s@.skip(start as int));
    if start == s.len() {
        return None;
    }
    let mut acc: u32 = 0;
    let mut i: usize = start;
    assert(body.take(0) =~= Seq::<char>::empty());
    while i < s.len()
        invariant
            2 <= radix <= 36,
            start <= i <= s@.len(),
            body == s@.skip(start as int),
            body == (if s@.len() > 0 && s@[0] == '+' {
                s@.drop_first()
            } else {
                s@
            }),
            body.len() > 0,
            digits_number(body.take(i - start), radix as nat) == Some(acc as nat),
        decreases s@.len() - i,
    {
        proof {
            assert(body.take(i - start + 1).drop_last() =~= body.take(i - start));
            assert(body.take(i - start + 1).last() == s@[i as int]);
        }
        match digit_of(s[i], radix) {
            Some(d) => {
                assert((acc as u64) * (radix as u64) <= 36 * 0xffff_ffffu64) by (nonlinear_arith)
                    requires
                        acc <= 0xffff_ffffu32,
                        radix <= 36,
                ;
                let next = (acc as u64) * (radix as u64) + (d as u64);
                if next > u32::MAX as u64 {
                    proof {
                        if digits_number(body, radix as nat) is Some {
                            lemma_digits_grow(body, radix as nat, i - start + 1);
                        }
                    }
                    return None;
                }
                acc = next as u32;
            },
            None => {
                proof {
                    if digits_number(body, radix as nat) is Some {
                        lemma_digits_grow(body, radix as nat, i - start + 1);
                    }
                }
                return None;
            },
        }
        i += 1;
    }
    assert(body.take(i - start) =~= body);
    Some(acc)
}

/// Takes every repetition of `p` off the start of `s`.
fn strip_leading_chars(s: &Vec<char>, p: &Vec<char>) -> (r: Vec<char>)
    ensures
        r@ == strip_leading(s@, p@),
{
    let mut i: usize = 0;
    assert(s@.skip(0) =~= s@);
    if p.len() == 0 {
        return s.clone();
    }
    while i <= s.len() && chars_start_with(&s.as_slice()[i..s.len()], p.as_slice())
        invariant
            p@.len() > 0,
            i <= s@.len(),
            strip_leading(s@, p@) == strip_leading(s@.skip(i as int), p@),
        decreases s@.len() - i,
    {
        proof {
            assert(s@.subrange(i as int, s@.len() as int) =~= s@.skip(i as int));
            assert(s@.skip(i as int).skip(p@.len() as int) =~= s@.skip(i + p@.len()));
        }
        i = i + p.len();
    }
    assert(s@.subrange(i as int, s@.len() as int) =~= s@.skip(i as int));
    vstd::slice::slice_to_vec(&s.as_slice()[i..s.len()])
}

/// The value of an `--elf-flags` argument (see `elf_flags_value`), or
/// `None` where it is not a 32-bit number.
pub fn parse_elf_flags(s: &str) -> (r: Option<u32>)
    ensures
        r == elf_flags_value(s@),
{
    let c = chars_of(s);
    let x = chars_of("0x");
    let big_x = chars_of("0X");
    if chars_start_with(c.as_slice(), x.as_slice()) || chars_start_with(c.as_slice(), big_x.as_slice()) {
        let a = strip_leading_chars(&c, &x);
        let b = strip_leading_chars(&a, &big_x);
        u32_from_str_radix(&b, 16)
    } else {
        u32_from_str_radix(&c, 10)
    }
}

} // verus!
