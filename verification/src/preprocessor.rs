//! Turns the assembly files named by INCLUDE_ASM / INCLUDE_RODATA into C
//! stubs: an `asm` function of `nop`s as long as the function's code, and a
//! zeroed array for each .rodata symbol, so that the compiled C object has
//! room where the assembled code and data are spliced in later.
use vstd::prelude::*;
use vstd::utf8::{encode_utf8, is_char_boundary, valid_utf8};
use crate::constants::{DOLLAR_SIGN, FUNCTION_PREFIX, LOCAL_SUFFIX, SYMBOL_AT, SYMBOL_DOLLAR};
use crate::elf::strtab::string_views;
use crate::u32_from_digits;
use crate::text::{
    chars_contain, chars_end_with, chars_of, chars_start_with, contains_sub, decimal,
    lemma_encode_utf8_concat, str_from_utf8,
    decimal_chars, ends_with, nth_word, replace_all, replace_chars, split_chars, split_on,
    starts_with, string_of, trim, trim_chars, word_at,
};

verus! {

/// A symbol of the .rodata section of an assembly file: its name, its size
/// in bytes and whether it is local.
#[derive(Debug, PartialEq)]
pub struct Symbol {
    pub name: String,
    pub size: usize,
    pub local: bool,
}

/// The mathematical value of a [`Symbol`].
pub struct RodataSymbol {
    pub name: Seq<char>,
    pub size: int,
    pub local: bool,
}

impl View for Symbol {
    type V = RodataSymbol;

    open spec fn view(&self) -> RodataSymbol {
        RodataSymbol { name: self.name@, size: self.size as int, local: self.local }
    }
}

/// The views of a sequence of symbols.
pub open spec fn rodata_views(s: Seq<Symbol>) -> Seq<RodataSymbol> {
    s.map_values(|x: Symbol| x@)
}

/// Finds the INCLUDE_ASM / INCLUDE_RODATA macros of a C file; assembly
/// paths are taken relative to `asm_dir_prefix` where it is given.
#[derive(Debug)]
pub struct Preprocessor {
    pub asm_dir_prefix: Option<String>,
}

/// The position of the last `x` in `s`.
pub open spec fn last_index(s: Seq<char>, x: char) -> Option<int>
    decreases s.len(),
{
    if s.len() == 0 {
        None
    } else if s.last() == x {
        Some(s.len() - 1)
    } else {
        last_index(s.drop_last(), x)
    }
}

/// The position of the first `x` in `s`, or its length.
pub open spec fn first_or_len(s: Seq<char>, x: char) -> int
    decreases s.len(),
{
    if s.len() == 0 || s[0] == x {
        0
    } else {
        1 + first_or_len(s.drop_first(), x)
    }
}

/// The number of white-space characters that `s` begins with.
pub open spec fn spaces_before(s: Seq<char>) -> int {
    crate::text::lead_space(s)
}

/// What the regular expression `^\.(asci[iz])\s+"(.*)"` finds in `l`:
/// whether the directive is `.asciz` (else `.ascii`), and the text between
/// the quote that follows the white space after the directive and the last
/// quote before the end of the line.
pub open spec fn string_directive(l: Seq<char>) -> Option<(bool, Seq<char>)> {
    if l.len() >= 6 && l.take(5) == ".asci"@ && (l[5] == 'i' || l[5] == 'z') {
        let rest = l.skip(6);
        let k = spaces_before(rest);
        if k >= 1 && k < rest.len() && rest[k] == '"' {
            let body = rest.skip(k + 1);
            let line = body.take(first_or_len(body, '\n'));
            match last_index(line, '"') {
                Some(q) => Some((l[5] == 'z', line.take(q))),
                None => None,
            }
        } else {
            None
        }
    } else {
        None
    }
}

/// The character with code `u`, where `u` is one (`char::from_u32`).
pub open spec fn char_of(u: u32) -> Option<char> {
    if u <= 0x10ffff && !(0xd800 <= u && u <= 0xdfff) {
        Some(u as char)
    } else {
        None
    }
}

/// The character that the digits `d` give in base `radix`, where they
/// read as a `u32` (see `u32_from_digits`) that is a character's code.
pub open spec fn char_of_digits(d: Seq<char>, radix: nat) -> Option<char> {
    match u32_from_digits(d, radix) {
        Some(u) => char_of(u),
        None => None,
    }
}

/// The character that the escape `\c` stands for, with how many of the
/// characters `rest` after it the escape takes: `\b \f \n \r \t \' \" \\`;
/// `\u` with 4 hexadecimal digits; `\x` with 2; an octal digit with two
/// more where it is 0 to 3 and they give a character, else with one more.
/// `None` where the escape is not valid.
pub open spec fn escape_of(c: char, rest: Seq<char>) -> Option<(char, int)> {
    if c == 'b' {
        Some(('\u{8}', 0))
    } else if c == 'f' {
        Some(('\u{c}', 0))
    } else if c == 'n' {
        Some(('\n', 0))
    } else if c == 'r' {
        Some(('\r', 0))
    } else if c == 't' {
        Some(('\t', 0))
    } else if c == '\'' || c == '"' || c == '\\' {
        Some((c, 0))
    } else if c == 'u' || c == 'x' {
        let n: int = if c == 'u' {
            4
        } else {
            2
        };
        if rest.len() < n {
            None
        } else {
            match char_of_digits(rest.take(n), 16) {
                Some(ch) => Some((ch, n)),
                None => None,
            }
        }
    } else if '0' <= c && c <= '7' {
        let lead = if '0' <= c && c <= '3' && rest.len() >= 2 {
            char_of_digits(seq![c, rest[0], rest[1]], 8)
        } else {
            None
        };
        match lead {
            Some(ch) => Some((ch, 2)),
            None => if rest.len() >= 1 {
                match char_of_digits(seq![c, rest[0]], 8) {
                    Some(ch) => Some((ch, 1)),
                    None => None,
                }
            } else {
                None
            },
        }
    } else {
        None
    }
}

/// What `unescape::unescape` makes of a string literal's text: every
/// character but a backslash is kept, and each backslash escape is decoded
/// (see `escape_of`); `None` where an escape is not valid or the text ends
/// in a backslash.
pub open spec fn unescaped(s: Seq<char>) -> Option<Seq<char>>
    decreases s.len(),
{
    if s.len() == 0 {
        Some(Seq::empty())
    } else if s[0] != '\\' {
        match unescaped(s.drop_first()) {
            Some(t) => Some(seq![s[0]] + t),
            None => None,
        }
    } else if s.len() < 2 {
        None
    } else {
        let rest = s.skip(2);
        match escape_of(s[1], rest) {
            None => None,
            Some((ch, n)) => if 0 <= n <= rest.len() {
                match unescaped(rest.skip(n)) {
                    Some(t) => Some(seq![ch] + t),
                    None => None,
                }
            } else {
                None
            },
        }
    }
}

/// Text without a backslash comes back from `unescape` as it is.
pub proof fn law_unescape_plain_text(s: Seq<char>)
    requires
        !s.contains('\\'),
    ensures
        unescaped(s) == Some(s),
    decreases s.len(),
{
    if s.len() > 0 {
        assert(!s.drop_first().contains('\\')) by {
            if s.drop_first().contains('\\') {
                let k = choose|k: int| 0 <= k < s.drop_first().len() && s.drop_first()[k] == '\\';
                assert(s[k + 1] == '\\');
            }
        }
        assert(s[0] != '\\') by {
            if s[0] == '\\' {
                assert(s.contains('\\'));
            }
        }
        law_unescape_plain_text(s.drop_first());
        assert(seq![s[0]] + s.drop_first() =~= s);
    }
}

/// The directive and literal of an `.ascii` / `.asciz` line, through the
/// regex crate (`Regex::captures` with `^\.(asci[iz])\s+"(.*)"`): the
/// contract states what that expression matches, and the two groups.
#[verifier::external_body]
fn string_directive_captures(line: &str) -> (r: Option<(String, String)>)
    ensures
        r is Some <==> string_directive(line@) is Some,
        r matches Some((d, t)) ==> string_directive(line@) == Some((d@ == "asciz"@, t@)),
        r matches Some((d, t)) ==> d@ == "asciz"@ || d@ == "ascii"@,
{
    let re = regex::Regex::new(r#"^\.(asci[iz])\s+"(.*)""#).unwrap();
    match re.captures(line) {
        Some(c) => Some((c[1].to_owned(), c[2].to_owned())),
        None => None,
    }
}

/// `unescape::unescape`: the text with its backslash escapes decoded (see
/// `unescaped`, which follows the crate's loop and its helpers for `\u`,
/// `\x` and octal escapes), or `None` where one is not valid.
#[verifier::external_body]
fn unescape_literal(s: &str) -> (r: Option<String>)
    ensures
        r is Some <==> unescaped(s@) is Some,
        r matches Some(v) ==> unescaped(s@) == Some(v@),
{
    unescape::unescape(s)
}

/// The scanning state: whether the lines are in .rodata, the .rodata
/// symbols so far (the last one is the current one), and the number of
/// instruction lines of .text.
pub struct ScanState {
    pub in_rodata: bool,
    pub entries: Seq<RodataSymbol>,
    pub nops: int,
}

/// The number of bytes that the UTF-8 encoding of `s` takes.
pub open spec fn utf8_len(s: Seq<char>) -> int {
    encode_utf8(s).len() as int
}

/// The bytes that a .rodata data line adds to the current symbol, or
/// `None` where it is no data directive that the preprocessor knows.
pub open spec fn data_size(l: Seq<char>) -> Option<int> {
    if contains_sub(l, ".byte "@) {
        Some(1)
    } else if contains_sub(l, ".short "@) {
        Some(2)
    } else if contains_sub(l, ".word "@) || contains_sub(l, ".long "@) || contains_sub(
        l,
        ".float "@,
    ) {
        Some(4)
    } else if contains_sub(l, ".double "@) {
        Some(8)
    } else {
        match string_directive(l) {
            Some((z, lit)) => Some(
                match unescaped(lit) {
                    Some(u) => utf8_len(u) + if z {
                        1int
                    } else {
                        0int
                    },
                    None => 0,
                },
            ),
            None => None,
        }
    }
}

/// The symbol that a `glabel` / `dlabel` line of .rodata starts: the
/// second word once `, local` is taken out; it is local where the line ends
/// in `, local` or the name holds a `$`. `None` where there is no name.
pub open spec fn label_symbol(l: Seq<char>) -> Option<RodataSymbol> {
    match word_at(replace_all(l, ", local"@, Seq::empty()), 1) {
        Some(name) => Some(
            RodataSymbol {
                name,
                size: 0,
                local: ends_with(l, ", local"@) || contains_sub(name, "$"@),
            },
        ),
        None => None,
    }
}

/// A .text line that is no instruction.
pub open spec fn text_skipped(l: Seq<char>) -> bool {
    ||| starts_with(l, ".set"@)
    ||| starts_with(l, ".include"@)
    ||| starts_with(l, ".size"@)
    ||| starts_with(l, ".align"@)
    ||| starts_with(l, ".balign"@)
    ||| starts_with(l, "glabel"@)
    ||| starts_with(l, "endlabel"@)
    ||| starts_with(l, "jlabel"@)
    ||| starts_with(l, ".L"@)
    ||| ends_with(l, ":"@)
    ||| starts_with(l, "/* Generated by spimdisasm"@)
    ||| starts_with(l, "nonmatching"@)
    ||| starts_with(l, "/* Handwritten function"@)
    ||| starts_with(l, "#"@)
}

/// A .rodata line that carries nothing to count.
pub open spec fn rodata_skipped(l: Seq<char>) -> bool {
    ||| starts_with(l, ".align"@)
    ||| starts_with(l, ".size"@)
    ||| starts_with(l, "nonmatching"@)
    ||| starts_with(l, "enddlabel"@)
}

/// The state after one line of the assembly file, or `None` where the
/// preprocessor rejects the line: a `.section` other than `.text` and
/// `.rodata`, a label without a name, a .rodata line before any label or
/// that no data directive explains, or a symbol size past `usize::MAX`.
pub open spec fn scan_line(st: ScanState, line: Seq<char>) -> Option<ScanState> {
    let l = trim(line);
    if l.len() == 0 || starts_with(l, "#"@) {
        Some(st)
    } else if starts_with(l, ".section"@) {
        if ends_with(l, ".text"@) {
            Some(ScanState { in_rodata: false, ..st })
        } else if ends_with(l, ".rodata"@) {
            Some(ScanState { in_rodata: true, ..st })
        } else {
            None
        }
    } else if st.in_rodata {
        if rodata_skipped(l) {
            Some(st)
        } else if starts_with(l, "glabel"@) || starts_with(l, "dlabel"@) {
            match label_symbol(l) {
                Some(e) => Some(ScanState { entries: st.entries.push(e), ..st }),
                None => None,
            }
        } else if st.entries.len() == 0 {
            None
        } else {
            match data_size(l) {
                Some(n) => {
                    let last = st.entries.last();
                    if last.size + n > usize::MAX {
                        None
                    } else {
                        Some(
                            ScanState {
                                entries: st.entries.update(
                                    st.entries.len() - 1,
                                    RodataSymbol { size: last.size + n, ..last },
                                ),
                                ..st
                            },
                        )
                    }
                },
                None => None,
            }
        }
    } else if text_skipped(l) {
        Some(st)
    } else if !starts_with(l, "."@) && !contains_sub(l, ":"@) {
        Some(ScanState { nops: st.nops + 1, ..st })
    } else {
        Some(st)
    }
}

/// What each fixed-size data directive adds to a .rodata symbol, by the
/// first of them a line names (in the order `.byte`, `.short`, then
/// `.word` / `.long` / `.float`, then `.double`): 1, 2, 4 and 8 bytes.
pub proof fn law_data_directive_sizes(l: Seq<char>)
    ensures
        contains_sub(l, ".byte "@) ==> data_size(l) == Some(1int),
        !contains_sub(l, ".byte "@) && contains_sub(l, ".short "@) ==> data_size(l) == Some(2int),
        !contains_sub(l, ".byte "@) && !contains_sub(l, ".short "@) && (contains_sub(l, ".word "@)
            || contains_sub(l, ".long "@) || contains_sub(l, ".float "@)) ==> data_size(l) == Some(4int),
        !contains_sub(l, ".byte "@) && !contains_sub(l, ".short "@) && !contains_sub(l, ".word "@)
            && !contains_sub(l, ".long "@) && !contains_sub(l, ".float "@) && contains_sub(
            l,
            ".double "@,
        ) ==> data_size(l) == Some(8int),
{
}

/// A `.float` line of .rodata (naming no `.byte` or `.short`) after a
/// label makes the current symbol exactly 4 bytes longer, as `.word` and
/// `.long` do, and changes nothing else.
pub proof fn law_float_line_adds_four(st: ScanState, line: Seq<char>)
    requires
        st.in_rodata,
        st.entries.len() > 0,
        st.entries.last().size + 4 <= usize::MAX,
        ({
            let l = trim(line);
            &&& !starts_with(l, "#"@)
            &&& !starts_with(l, ".section"@)
            &&& !rodata_skipped(l)
            &&& !starts_with(l, "glabel"@)
            &&& !starts_with(l, "dlabel"@)
            &&& contains_sub(l, ".float "@)
            &&& !contains_sub(l, ".byte "@)
            &&& !contains_sub(l, ".short "@)
        }),
    ensures
        scan_line(st, line) matches Some(st2) && st2.in_rodata && st2.nops == st.nops
            && st2.entries.len() == st.entries.len() && st2.entries.last().size == st.entries.last().size
            + 4 && st2.entries.last().name == st.entries.last().name && st2.entries.drop_last()
            == st.entries.drop_last(),
{
    let l = trim(line);
    law_data_directive_sizes(l);
    assert(l.len() > 0) by {
        reveal_strlit(".float ");
        if l.len() == 0 {
            assert(!contains_sub(l, ".float "@));
        }
    }
    let st2 = scan_line(st, line)->0;
    assert(st2.entries.drop_last() =~= st.entries.drop_last());
}

/// The state after the lines `lines`, from .text with nothing counted.
pub open spec fn scan_lines(lines: Seq<Seq<char>>) -> Option<ScanState>
    decreases lines.len(),
{
    if lines.len() == 0 {
        Some(ScanState { in_rodata: false, entries: Seq::empty(), nops: 0 })
    } else {
        match scan_lines(lines.drop_last()) {
            Some(st) => scan_line(st, lines.last()),
            None => None,
        }
    }
}

/// The C name of a .rodata symbol: a quoted `"@..."` name becomes
/// `__at__...`, a `$` becomes `__dollar__`.
pub open spec fn c_symbol_name(name: Seq<char>) -> Seq<char> {
    if starts_with(name, "\"@"@) && ends_with(name, "\""@) {
        "__at__"@ + name.subrange(2, name.len() - 1)
    } else if contains_sub(name, "$"@) {
        replace_all(name, "$"@, "__dollar__"@)
    } else {
        name
    }
}

/// The C declaration that reserves a .rodata symbol.
pub open spec fn rodata_decl(e: RodataSymbol) -> Seq<char> {
    (if e.local {
        "static "@
    } else {
        Seq::empty()
    }) + "const unsigned char "@ + c_symbol_name(e.name) + "["@ + decimal(e.size as nat)
        + "] = {0};"@
}

/// The C lines for an assembly file: where it has instructions, an `asm`
/// function of as many `nop`s; then one declaration per .rodata symbol.
pub open spec fn stub_lines(function_name: Seq<char>, st: ScanState) -> Seq<Seq<char>> {
    (if st.nops > 0 {
        seq!["asm void "@ + function_name + "() {"@] + Seq::new(st.nops as nat, |k: int| "  nop"@)
            + seq!["}"@]
    } else {
        Seq::empty()
    }) + Seq::new(st.entries.len(), |k: int| rodata_decl(st.entries[k]))
}

/// What preprocessing `content` as the assembly of `function_name` gives:
/// the C lines and the .rodata symbols, or `None` where a line is rejected.
pub open spec fn s_file_outcome(function_name: Seq<char>, content: Seq<char>) -> Option<
    (Seq<Seq<char>>, Seq<RodataSymbol>),
> {
    match scan_lines(split_on(content, '\n')) {
        Some(st) => Some((stub_lines(function_name, st), st.entries)),
        None => None,
    }
}

/// Whether `l` begins with `p`.
fn begins(l: &Vec<char>, p: &str) -> (r: bool)
    ensures
        r == starts_with(l@, p@),
{
    let pc = chars_of(p);
    chars_start_with(l.as_slice(), pc.as_slice())
}

/// Whether `l` ends with `p`.
fn ends(l: &Vec<char>, p: &str) -> (r: bool)
    ensures
        r == ends_with(l@, p@),
{
    let pc = chars_of(p);
    chars_end_with(l.as_slice(), pc.as_slice())
}

/// Whether `p` occurs in `l`.
fn holds(l: &Vec<char>, p: &str) -> (r: bool)
    ensures
        r == contains_sub(l@, p@),
{
    let pc = chars_of(p);
    chars_contain(l.as_slice(), pc.as_slice())
}

/// Appends the characters of `s` to `v`.
fn push_str(v: &mut Vec<char>, s: &str)
    ensures
        final(v)@ == old(v)@ + s@,
{
    let mut t = chars_of(s);
    v.append(&mut t);
}

/// Whether two strings hold the same text.
fn same_text(a: &str, b: &str) -> (r: bool)
    ensures
        r == (a@ == b@),
{
    let x = chars_of(a);
    let y = chars_of(b);
    if x.len() != y.len() {
        return false;
    }
    let r = chars_start_with(x.as_slice(), y.as_slice());
    assert(x@.take(y@.len() as int) =~= x@);
    r
}

/// The executable scanning state.
struct Scan {
    in_rodata: bool,
    entries: Vec<Symbol>,
    nops: usize,
}

impl View for Scan {
    type V = ScanState;

    closed spec fn view(&self) -> ScanState {
        ScanState { in_rodata: self.in_rodata, entries: rodata_views(self.entries@), nops: self.nops as int }
    }
}

/// The symbol a label line starts.
fn label_entry(l: &Vec<char>) -> (r: Option<Symbol>)
    ensures
        match label_symbol(l@) {
            Some(e) => r matches Some(s) && s@ == e,
            None => r is None,
        },
{
    let pat = chars_of(LOCAL_SUFFIX);
    proof {
        reveal_strlit(", local");
    }
    let empty: Vec<char> = Vec::new();
    let stripped = replace_chars(l.as_slice(), pat.as_slice(), empty.as_slice());
    assert(empty@ =~= Seq::<char>::empty());
    match nth_word(stripped.as_slice(), 1) {
        Some(w) => {
            let local = ends(l, LOCAL_SUFFIX) || holds(&w, DOLLAR_SIGN);
            Some(Symbol { name: string_of(w.as_slice()), size: 0, local })
        },
        None => None,
    }
}

/// The bytes a .rodata data line adds (see `data_size`); `None` also
/// where the count does not fit in a `usize`.
fn data_size_of(l: &Vec<char>) -> (r: Option<usize>)
    ensures
        r matches Some(n) ==> data_size(l@) == Some(n as int),
        r is None ==> (data_size(l@) is None || data_size(l@)->0 > usize::MAX),
{
    if holds(l, ".byte ") {
        Some(1)
    } else if holds(l, ".short ") {
        Some(2)
    } else if holds(l, ".word ") || holds(l, ".long ") || holds(l, ".float ") {
        Some(4)
    } else if holds(l, ".double ") {
        Some(8)
    } else {
        let line = string_of(l.as_slice());
        match string_directive_captures(line.as_str()) {
            Some((d, lit)) => {
                let z = same_text(d.as_str(), "asciz");
                match unescape_literal(lit.as_str()) {
                    Some(u) => {
                        let len = u.as_str().as_bytes().len();
                        if z {
                            len.checked_add(1)
                        } else {
                            Some(len)
                        }
                    },
                    None => Some(0),
                }
            },
            None => None,
        }
    }
}

/// Whether a .text line is no instruction (see `text_skipped`).
fn is_text_skipped(l: &Vec<char>) -> (r: bool)
    ensures
        r == text_skipped(l@),
{
    begins(l, ".set") || begins(l, ".include") || begins(l, ".size") || begins(l, ".align")
        || begins(l, ".balign") || begins(l, "glabel") || begins(l, "endlabel") || begins(
        l,
        "jlabel",
    ) || begins(l, ".L") || ends(l, ":") || begins(l, "/* Generated by spimdisasm") || begins(
        l,
        "nonmatching",
    ) || begins(l, "/* Handwritten function") || begins(l, "#")
}

/// Scans one line (see `scan_line`); `false` where it is rejected.
fn scan_one(st: &mut Scan, line: &Vec<char>) -> (ok: bool)
    requires
        old(st).nops < usize::MAX,
    ensures
        ok <==> scan_line(old(st)@, line@) is Some,
        ok ==> final(st)@ == scan_line(old(st)@, line@)->0,
        final(st).nops <= old(st).nops + 1,
{
    let l = trim_chars(line.as_slice());
    if l.len() == 0 || begins(&l, "#") {
        return true;
    }
    if begins(&l, ".section") {
        if ends(&l, ".text") {
            st.in_rodata = false;
            return true;
        }
        if ends(&l, ".rodata") {
            st.in_rodata = true;
            return true;
        }
        return false;
    }
    if st.in_rodata {
        if begins(&l, ".align") || begins(&l, ".size") || begins(&l, "nonmatching") || begins(
            &l,
            "enddlabel",
        ) {
            return true;
        }
        if begins(&l, "glabel") || begins(&l, "dlabel") {
            match label_entry(&l) {
                Some(e) => {
                    st.entries.push(e);
                    assert(rodata_views(st.entries@) =~= rodata_views(old(st).entries@).push(e@));
                    return true;
                },
                None => {
                    return false;
                },
            }
        }
        if st.entries.len() == 0 {
            return false;
        }
        match data_size_of(&l) {
            Some(n) => {
                let last = st.entries.len() - 1;
                match st.entries[last].size.checked_add(n) {
                    Some(total) => {
                        let e = Symbol {
                            name: st.entries[last].name.clone(),
                            size: total,
                            local: st.entries[last].local,
                        };
                        st.entries.set(last, e);
                        assert(rodata_views(st.entries@) =~= rodata_views(old(st).entries@).update(
                            last as int,
                            RodataSymbol { size: old(st)@.entries.last().size + n, ..old(st)@.entries.last() },
                        ));
                        true
                    },
                    None => false,
                }
            },
            None => false,
        }
    } else {
        if is_text_skipped(&l) {
            return true;
        }
        if !begins(&l, ".") && !holds(&l, ":") {
            st.nops = st.nops + 1;
        }
        true
    }
}

proof fn lemma_scan_prefix_none(lines: Seq<Seq<char>>, k: int)
    requires
        0 <= k <= lines.len(),
        scan_lines(lines.take(k)) is None,
    ensures
        scan_lines(lines) is None,
    decreases lines.len() - k,
{
    if k < lines.len() {
        assert(lines.take(k + 1).drop_last() =~= lines.take(k));
        lemma_scan_prefix_none(lines, k + 1);
    } else {
        assert(lines.take(k) =~= lines);
    }
}

/// The C name of a .rodata symbol (see `c_symbol_name`).
fn c_name(name: &String) -> (r: Vec<char>)
    ensures
        r@ == c_symbol_name(name@),
{
    let c = chars_of(name.as_str());
    if begins(&c, "\"@") && ends(&c, "\"") {
        proof {
            reveal_strlit("\"@");
            reveal_strlit("\"");
            assert(c@.take(2)[1] == c@[1]);
            assert(c@[1] == '@');
            if c@.len() == 2 {
                assert(c@.skip(1)[0] == '"');
            }
        }
        let mut v = chars_of(SYMBOL_AT);
        let mut mid = vstd::slice::slice_to_vec(&c.as_slice()[2..c.len() - 1]);
        v.append(&mut mid);
        v
    } else if holds(&c, DOLLAR_SIGN) {
        let d = chars_of(DOLLAR_SIGN);
        let rep = chars_of(SYMBOL_DOLLAR);
        proof {
            reveal_strlit("$");
        }
        replace_chars(c.as_slice(), d.as_slice(), rep.as_slice())
    } else {
        c
    }
}

/// The C declaration for a .rodata symbol (see `rodata_decl`).
fn decl_line(e: &Symbol) -> (r: String)
    ensures
        r@ == rodata_decl(e@),
{
    let mut v: Vec<char> = Vec::new();
    if e.local {
        push_str(&mut v, "static ");
    }
    push_str(&mut v, "const unsigned char ");
    let mut nm = c_name(&e.name);
    v.append(&mut nm);
    push_str(&mut v, "[");
    let mut digits = decimal_chars(e.size);
    v.append(&mut digits);
    push_str(&mut v, "] = {0};");
    let r = string_of(v.as_slice());
    assert(r@ =~= rodata_decl(e@));
    r
}

/// The text `a`, then `b`, then `c`.
fn concat3(a: &str, b: &str, c: &str) -> (r: String)
    ensures
        r@ == a@ + b@ + c@,
{
    let mut v: Vec<char> = Vec::new();
    push_str(&mut v, a);
    push_str(&mut v, b);
    push_str(&mut v, c);
    string_of(v.as_slice())
}

/// Preprocesses `content` (see `s_file_outcome`); `None` where a line is
/// rejected.
fn scan_s_file(function_name: &str, content: &str) -> (r: Option<(Vec<String>, Vec<Symbol>)>)
    ensures
        r is Some <==> s_file_outcome(function_name@, content@) is Some,
        r matches Some((a, b)) ==> s_file_outcome(function_name@, content@) == Some(
            (string_views(a@), rodata_views(b@)),
        ),
{
    let chars = chars_of(content);
    let lines = split_chars(chars.as_slice(), '\n');
    let ghost ls = split_on(content@, '\n');
    let mut st = Scan { in_rodata: false, entries: Vec::new(), nops: 0 };
    let n = lines.len();
    let mut i: usize = 0;
    assert(ls.take(0) =~= Seq::<Seq<char>>::empty());
    assert(rodata_views(st.entries@) =~= Seq::<RodataSymbol>::empty());
    while i < n
        invariant
            n == lines@.len(),
            n == ls.len(),
            ls == split_on(content@, '\n'),
            forall|k: int| 0 <= k < lines@.len() ==> (#[trigger] lines@[k])@ == ls[k],
            i <= n,
            st.nops <= i,
            scan_lines(ls.take(i as int)) == Some(st@),
        decreases n - i,
    {
        proof {
            assert(ls.take(i + 1).drop_last() =~= ls.take(i as int));
            assert(ls.take(i + 1).last() == lines@[i as int]@);
        }
        if !scan_one(&mut st, &lines[i]) {
            proof {
                lemma_scan_prefix_none(ls, i + 1);
            }
            return None;
        }
        i += 1;
    }
    assert(ls.take(n as int) =~= ls);
    let ghost fst = st@;
    let mut out: Vec<String> = Vec::new();
    let ghost head: Seq<Seq<char>> = if fst.nops > 0 {
        seq!["asm void "@ + function_name@ + "() {"@] + Seq::new(fst.nops as nat, |k: int| "  nop"@)
            + seq!["}"@]
    } else {
        Seq::empty()
    };
    if st.nops > 0 {
        out.push(concat3("asm void ", function_name, "() {"));
        let mut k: usize = 0;
        while k < st.nops
            invariant
                k <= st.nops,
                st@ == fst,
                string_views(out@) == seq!["asm void "@ + function_name@ + "() {"@] + Seq::new(
                    k as nat,
                    |j: int| "  nop"@,
                ),
            decreases st.nops - k,
        {
            let ghost before = string_views(out@);
            out.push("  nop".to_owned());
            assert(string_views(out@) =~= before.push("  nop"@));
            assert(Seq::new((k + 1) as nat, |j: int| "  nop"@) =~= Seq::new(k as nat, |j: int| "  nop"@).push("  nop"@));
            assert(string_views(out@) =~= seq!["asm void "@ + function_name@ + "() {"@] + Seq::new(
                (k + 1) as nat,
                |j: int| "  nop"@,
            ));
            k += 1;
        }
        out.push("}".to_owned());
        assert(string_views(out@) =~= head);
    } else {
        assert(string_views(out@) =~= head);
    }
    let m = st.entries.len();
    let mut j: usize = 0;
    while j < m
        invariant
            m == st.entries@.len(),
            st@ == fst,
            j <= m,
            string_views(out@) == head + Seq::new(j as nat, |q: int| rodata_decl(fst.entries[q])),
        decreases m - j,
    {
        let d = decl_line(&st.entries[j]);
        let ghost before = string_views(out@);
        out.push(d);
        assert(string_views(out@) =~= before.push(rodata_decl(fst.entries[j as int])));
        assert(string_views(out@) =~= head + Seq::new((j + 1) as nat, |q: int| rodata_decl(fst.entries[q])));
        j += 1;
    }
    assert(string_views(out@) =~= stub_lines(function_name@, fst));
    Some((out, st.entries))
}

impl Preprocessor {
    /// A preprocessor that takes assembly paths relative to
    /// `asm_dir_prefix`, where it is given.
    pub fn new(asm_dir_prefix: Option<String>) -> (p: Self)
        ensures
            p.asm_dir_prefix == asm_dir_prefix,
    {
        Self { asm_dir_prefix }
    }

    /// The C stub lines and the .rodata symbols of an assembly file (see
    /// `s_file_outcome`): `function_name` gets an `asm` function with one
    /// `nop` per instruction line where the file has any, and every
    /// .rodata symbol a zeroed `const unsigned char` array of its size.
    pub fn preprocess_s_file(function_name: &str, content: &str) -> (r: (Vec<String>, Vec<Symbol>))
        requires
            s_file_outcome(function_name@, content@) is Some,
        ensures
            s_file_outcome(function_name@, content@) == Some(
                (string_views(r.0@), rodata_views(r.1@)),
            ),
    {
        match scan_s_file(function_name, content) {
            Some(r) => r,
            None => (Vec::new(), Vec::new()),
        }
    }

    /// As `preprocess_s_file`, or `None` where the file has a line that the
    /// preprocessor rejects (an unsupported `.section`, a label without a
    /// name, a .rodata line it cannot size, a size past `usize::MAX`).
    pub fn try_preprocess_s_file(function_name: &str, content: &str) -> (r: Option<
        (Vec<String>, Vec<Symbol>),
    >)
        ensures
            r is Some <==> s_file_outcome(function_name@, content@) is Some,
            r matches Some((a, b)) ==> s_file_outcome(function_name@, content@) == Some(
                (string_views(a@), rodata_views(b@)),
            ),
    {
        if scan_s_file(function_name, content).is_some() {
            Some(Self::preprocess_s_file(function_name, content))
        } else {
            None
        }
    }
}

/// What the regular expression `INCLUDE_(?:ASM|RODATA)\(\s*"(.*)"\s*,\s*(.*)\s*\)`
/// finds in a C file, match after match: the byte offsets where each match
/// starts and ends, and its two groups (the assembly directory and the
/// function name).
pub uninterp spec fn include_macros(content: Seq<char>) -> Seq<(int, int, Seq<char>, Seq<char>)>;

/// The views of the matches that `include_captures` returns.
pub open spec fn capture_views(v: Seq<(usize, usize, String, String)>) -> Seq<
    (int, int, Seq<char>, Seq<char>),
> {
    v.map_values(|c: (usize, usize, String, String)| (c.0 as int, c.1 as int, c.2@, c.3@))
}

/// The INCLUDE_ASM / INCLUDE_RODATA macros of `content`, through the regex
/// crate (`Regex::captures_iter`). The contract names the matches and
/// states what the crate documents of them: they come in order without
/// overlapping, and each starts and ends at a character boundary of the
/// text's bytes.
#[verifier::external_body]
fn include_captures(content: &str) -> (r: Vec<(usize, usize, String, String)>)
    ensures
        capture_views(r@) == include_macros(content@),
        forall|i: int|
            0 <= i < r@.len() ==> (#[trigger] r@[i]).0 <= r@[i].1 && r@[i].1 <= encode_utf8(
                content@,
            ).len() && is_char_boundary(encode_utf8(content@), r@[i].0 as int) && is_char_boundary(
                encode_utf8(content@),
                r@[i].1 as int,
            ),
        forall|i: int| 0 < i < r@.len() ==> (#[trigger] r@[i]).0 >= r@[i - 1].1,
{
    let re = regex::Regex::new(r#"INCLUDE_(?:ASM|RODATA)\(\s*"(.*)"\s*,\s*(.*)\s*\)"#).unwrap();
    let mut v = Vec::new();
    for c in re.captures_iter(content) {
        let m = c.get(0).unwrap();
        v.push((m.start(), m.end(), c[1].to_owned(), c[2].to_owned()));
    }
    v
}

/// `p` joined to the path `base` as `Path::join` does on Unix: an absolute
/// `p` replaces `base`, else a `/` is put between them where `base` is not
/// empty and does not end in one.
pub open spec fn path_join(base: Seq<char>, p: Seq<char>) -> Seq<char> {
    if starts_with(p, "/"@) {
        p
    } else if base.len() == 0 || ends_with(base, "/"@) {
        base + p
    } else {
        base + "/"@ + p
    }
}

/// The assembly file of a macro: `<function>.s` in its directory, under
/// the prefix where there is one.
pub open spec fn asm_path(prefix: Option<Seq<char>>, dir: Seq<char>, function: Seq<char>) -> Seq<
    char,
> {
    let p = path_join(dir, function + ".s"@);
    match prefix {
        Some(pre) => path_join(pre, p),
        None => p,
    }
}

/// One INCLUDE_ASM / INCLUDE_RODATA macro of a C file: where its text
/// starts and ends (byte offsets), the assembly file it names, and the name
/// its stub function gets.
pub struct IncludeAsm {
    pub start: usize,
    pub end: usize,
    pub path: String,
    pub stub_name: String,
}

/// `p` joined to `base` (see `path_join`).
fn join_path(base: &str, p: &str) -> (r: String)
    ensures
        r@ == path_join(base@, p@),
{
    let pc = chars_of(p);
    let bc = chars_of(base);
    if begins(&pc, "/") {
        return p.to_owned();
    }
    if bc.len() == 0 || ends(&bc, "/") {
        let mut v = bc;
        push_str(&mut v, p);
        string_of(v.as_slice())
    } else {
        concat3(base, "/", p)
    }
}

/// The macros are in order, do not overlap, and start and end at character
/// boundaries of the text's bytes.
pub open spec fn includes_fit(content: Seq<char>, inc: Seq<IncludeAsm>) -> bool {
    &&& forall|i: int|
        0 <= i < inc.len() ==> (#[trigger] inc[i]).start <= inc[i].end && inc[i].end <= encode_utf8(
            content,
        ).len() && is_char_boundary(encode_utf8(content), inc[i].start as int) && is_char_boundary(
            encode_utf8(content),
            inc[i].end as int,
        )
    &&& forall|i: int| 0 < i < inc.len() ==> (#[trigger] inc[i]).start >= inc[i - 1].end
}

/// The macro that a regex match stands for: where it stands, its assembly
/// file (see `asm_path`) and its stub function's name.
pub open spec fn include_of(prefix: Option<Seq<char>>, m: (int, int, Seq<char>, Seq<char>)) -> (
    int,
    int,
    Seq<char>,
    Seq<char>,
) {
    (m.0, m.1, asm_path(prefix, m.2, m.3), "___mw___"@ + m.3)
}

/// The view of a macro: where it stands, its file and its stub's name.
pub open spec fn include_view(inc: IncludeAsm) -> (int, int, Seq<char>, Seq<char>) {
    (inc.start as int, inc.end as int, inc.path@, inc.stub_name@)
}

impl Preprocessor {
    /// The assembly prefix as a view.
    pub open spec fn prefix_view(&self) -> Option<Seq<char>> {
        match self.asm_dir_prefix {
            Some(p) => Some(p@),
            None => None,
        }
    }

    /// The macros that the regex matches `matches` (start, end, directory,
    /// function name) stand for, in order (see `include_of`).
    pub fn includes_from_matches(&self, matches: &Vec<(usize, usize, String, String)>) -> (r: Vec<
        IncludeAsm,
    >)
        ensures
            r@.len() == matches@.len(),
            forall|i: int|
                0 <= i < r@.len() ==> include_view(#[trigger] r@[i]) == include_of(
                    self.prefix_view(),
                    capture_views(matches@)[i],
                ),
    {
        let n = matches.len();
        let mut out: Vec<IncludeAsm> = Vec::new();
        let mut i: usize = 0;
        while i < n
            invariant
                n == matches@.len(),
                i <= n,
                out@.len() == i,
                forall|k: int|
                    0 <= k < i ==> include_view(#[trigger] out@[k]) == include_of(
                        self.prefix_view(),
                        capture_views(matches@)[k],
                    ),
            decreases n - i,
        {
            let c = &matches[i];
            let file = concat3(c.3.as_str(), ".s", "");
            let rel = join_path(c.2.as_str(), file.as_str());
            let path = match &self.asm_dir_prefix {
                Some(pre) => join_path(pre.as_str(), rel.as_str()),
                None => rel,
            };
            let stub_name = concat3(FUNCTION_PREFIX, c.3.as_str(), "");
            proof {
                reveal_strlit("");
            }
            assert(file@ =~= c.3@ + ".s"@);
            assert(stub_name@ =~= "___mw___"@ + c.3@);
            out.push(IncludeAsm { start: c.0, end: c.1, path, stub_name });
            i += 1;
        }
        out
    }

    /// The INCLUDE_ASM / INCLUDE_RODATA macros of a C file, in order: where
    /// each stands, its assembly file (see `asm_path`) and the name of its
    /// stub function (the function name behind `FUNCTION_PREFIX`).
    pub fn find_includes(&self, content: &str) -> (r: Vec<IncludeAsm>)
        ensures
            r@.len() == include_macros(content@).len(),
            forall|i: int|
                0 <= i < r@.len() ==> include_view(#[trigger] r@[i]) == include_of(
                    self.prefix_view(),
                    include_macros(content@)[i],
                ),
            includes_fit(content@, r@),
    {
        let caps = include_captures(content);
        let r = self.includes_from_matches(&caps);
        assert forall|i: int| 0 <= i < r@.len() implies (#[trigger] r@[i]).start <= r@[i].end
            && r@[i].end <= encode_utf8(content@).len() && is_char_boundary(
            encode_utf8(content@),
            r@[i].start as int,
        ) && is_char_boundary(encode_utf8(content@), r@[i].end as int) by {
            assert(include_view(r@[i]) == include_of(self.prefix_view(), capture_views(caps@)[i]));
            assert(caps@[i].0 <= caps@[i].1);
        }
        assert forall|i: int| 0 < i < r@.len() implies (#[trigger] r@[i]).start >= r@[i - 1].end by {
            assert(include_view(r@[i]) == include_of(self.prefix_view(), capture_views(caps@)[i]));
            assert(include_view(r@[i - 1]) == include_of(
                self.prefix_view(),
                capture_views(caps@)[i - 1],
            ));
            assert(caps@[i].0 >= caps@[i - 1].1);
        }
        r
    }
}

/// Stub lines as text, each followed by a newline.
pub open spec fn stub_text(lines: Seq<Seq<char>>) -> Seq<char>
    decreases lines.len(),
{
    if lines.len() == 0 {
        Seq::empty()
    } else {
        stub_text(lines.drop_last()) + lines.last() + seq!['\n']
    }
}

/// The views of the stubs of the macros (`None` where the assembly file
/// was not read).
pub open spec fn stub_views(v: Seq<Option<Vec<String>>>) -> Seq<Option<Seq<Seq<char>>>> {
    v.map_values(
        |o: Option<Vec<String>>|
            match o {
                Some(l) => Some(string_views(l@)),
                None => None,
            },
    )
}

/// The bytes of the C text up to the end of macro `m`: each macro's text
/// gives way to its stub lines, or to nothing where it has none.
pub open spec fn spliced_upto(
    bytes: Seq<u8>,
    inc: Seq<IncludeAsm>,
    stubs: Seq<Option<Seq<Seq<char>>>>,
    m: int,
) -> Seq<u8>
    decreases m,
{
    if m <= 0 {
        Seq::empty()
    } else {
        let prev = if m == 1 {
            0
        } else {
            inc[m - 2].end as int
        };
        spliced_upto(bytes, inc, stubs, m - 1) + bytes.subrange(prev, inc[m - 1].start as int)
            + match stubs[m - 1] {
            Some(l) => encode_utf8(stub_text(l)),
            None => Seq::empty(),
        }
    }
}

/// The bytes of the C text with its macros replaced by their stubs; the
/// text as it is where it has no macro.
pub open spec fn spliced(
    content: Seq<char>,
    inc: Seq<IncludeAsm>,
    stubs: Seq<Option<Seq<Seq<char>>>>,
) -> Seq<u8> {
    let bytes = encode_utf8(content);
    let n = inc.len();
    if n == 0 || inc[n - 1].end == 0 {
        bytes
    } else {
        spliced_upto(bytes, inc, stubs, n as int) + bytes.subrange(inc[n - 1].end as int, bytes.len() as int)
    }
}

/// The bytes between two character boundaries of valid UTF-8 are valid
/// UTF-8.
proof fn lemma_piece_valid(bytes: Seq<u8>, a: int, b: int)
    requires
        valid_utf8(bytes),
        0 <= a <= b <= bytes.len(),
        is_char_boundary(bytes, a),
        is_char_boundary(bytes, b),
    ensures
        valid_utf8(bytes.subrange(a, b)),
{
    vstd::utf8::valid_utf8_split(bytes, a);
    let tail = bytes.subrange(a, bytes.len() as int);
    if b < bytes.len() {
        vstd::utf8::is_char_boundary_iff_not_is_continuation_byte(bytes, b);
        vstd::utf8::is_char_boundary_iff_not_is_continuation_byte(tail, b - a);
        assert(tail[b - a] == bytes[b]);
    } else {
        vstd::utf8::is_char_boundary_start_end_of_seq(tail);
    }
    vstd::utf8::valid_utf8_split(tail, b - a);
    assert(tail.subrange(0, b - a) =~= bytes.subrange(a, b));
}

/// A newline is the one byte 10.
proof fn lemma_encode_newline()
    ensures
        encode_utf8(seq!['\n']) == seq![10u8],
{
    let c = seq!['\n'];
    assert(c[0] == '\n');
    assert(c.drop_first() =~= Seq::<char>::empty());
    assert(encode_utf8(c.drop_first()) =~= Seq::<u8>::empty());
    assert((c[0] as u32) == 10u32);
    assert(vstd::utf8::leading_byte_width_1(10u32) == 10u8) by (bit_vector);
    assert(vstd::utf8::has_width_1_encoding(10u32));
    assert(vstd::utf8::encode_scalar(10u32) =~= seq![10u8]);
    assert(encode_utf8(c) =~= seq![10u8]);
}

impl Preprocessor {
    /// The C text with each macro's text replaced by its stub lines (each
    /// followed by a newline), or by nothing where its stubs are `None`; the
    /// text unchanged where it has no macro.
    pub fn splice_stubs(content: &str, includes: &Vec<IncludeAsm>, stubs: &Vec<
        Option<Vec<String>>,
    >) -> (r: String)
        requires
            includes_fit(content@, includes@),
            stubs@.len() == includes@.len(),
        ensures
            encode_utf8(r@) == spliced(content@, includes@, stub_views(stubs@)),
    {
        let bytes = content.as_bytes();
        let ghost bs = encode_utf8(content@);
        let ghost sv = stub_views(stubs@);
        proof {
            vstd::utf8::encode_utf8_valid_utf8(content@);
        }
        let n = includes.len();
        if n == 0 || includes[n - 1].end == 0 {
            return content.to_owned();
        }
        let mut out: Vec<u8> = Vec::new();
        let mut prev: usize = 0;
        let mut k: usize = 0;
        proof {
            vstd::utf8::is_char_boundary_start_end_of_seq(bs);
            assert(valid_utf8(Seq::<u8>::empty())) by {
                assert(encode_utf8(Seq::<char>::empty()) =~= Seq::<u8>::empty());
                vstd::utf8::encode_utf8_valid_utf8(Seq::<char>::empty());
            }
        }
        while k < n
            invariant
                bytes@ == bs,
                bs == encode_utf8(content@),
                valid_utf8(bs),
                sv == stub_views(stubs@),
                includes_fit(content@, includes@),
                n == includes@.len(),
                n == stubs@.len(),
                k <= n,
                prev as int == (if k == 0 {
                    0
                } else {
                    includes@[k - 1].end as int
                }),
                prev <= bs.len(),
                is_char_boundary(bs, prev as int),
                out@ == spliced_upto(bs, includes@, sv, k as int),
                valid_utf8(out@),
            decreases n - k,
        {
            let inc = &includes[k];
            assert(includes@[k as int] == *inc);
            let start = inc.start;
            proof {
                lemma_piece_valid(bs, prev as int, start as int);
                vstd::utf8::valid_utf8_concat(out@, bs.subrange(prev as int, start as int));
            }
            let mut piece = vstd::slice::slice_to_vec(&bytes[prev..start]);
            out.append(&mut piece);
            match &stubs[k] {
                Some(lines) => {
                    assert(sv[k as int] == Some(string_views(lines@)));
                    let ghost base = out@;
                    let m = lines.len();
                    let mut j: usize = 0;
                    proof {
                        assert(string_views(lines@).take(0) =~= Seq::<Seq<char>>::empty());
                        assert(encode_utf8(Seq::<char>::empty()) =~= Seq::<u8>::empty());
                    }
                    while j < m
                        invariant
                            m == lines@.len(),
                            j <= m,
                            out@ == base + encode_utf8(stub_text(string_views(lines@).take(j as int))),
                        decreases m - j,
                    {
                        let ghost before = stub_text(string_views(lines@).take(j as int));
                        let mut lb = vstd::slice::slice_to_vec(lines[j].as_str().as_bytes());
                        out.append(&mut lb);
                        out.push(10u8);
                        proof {
                            let ls = string_views(lines@).take(j + 1);
                            assert(ls.drop_last() =~= string_views(lines@).take(j as int));
                            assert(ls.last() == lines@[j as int]@);
                            lemma_encode_utf8_concat(before + lines@[j as int]@, seq!['\n']);
                            lemma_encode_utf8_concat(before, lines@[j as int]@);
                            lemma_encode_newline();
                            assert(out@ =~= base + encode_utf8(stub_text(ls)));
                        }
                        j += 1;
                    }
                    proof {
                        assert(string_views(lines@).take(m as int) =~= string_views(lines@));
                        vstd::utf8::encode_utf8_valid_utf8(stub_text(string_views(lines@)));
                        vstd::utf8::valid_utf8_concat(base, encode_utf8(stub_text(string_views(lines@))));
                    }
                },
                None => {
                    assert(sv[k as int] is None);
                    assert(out@ =~= out@ + Seq::<u8>::empty());
                },
            }
            assert(out@ =~= spliced_upto(bs, includes@, sv, k + 1));
            prev = inc.end;
            k += 1;
        }
        let len = bytes.len();
        proof {
            vstd::utf8::is_char_boundary_start_end_of_seq(bs);
            lemma_piece_valid(bs, prev as int, len as int);
            vstd::utf8::valid_utf8_concat(out@, bs.subrange(prev as int, len as int));
        }
        let mut tail = vstd::slice::slice_to_vec(&bytes[prev..len]);
        out.append(&mut tail);
        assert(out@ == spliced(content@, includes@, sv));
        match str_from_utf8(out.as_slice()) {
            Some(s) => {
                proof {
                    vstd::utf8::decode_utf8_encode_utf8(out@);
                }
                s.to_owned()
            },
            None => content.to_owned(),
        }
    }
}

/// A .rodata symbol whose name holds a `$` is local.
pub open spec fn dollar_local(e: RodataSymbol) -> bool {
    contains_sub(e.name, "$"@) ==> e.local
}

proof fn lemma_scan_dollar_local(lines: Seq<Seq<char>>)
    ensures
        scan_lines(lines) matches Some(st) ==> forall|k: int|
            0 <= k < st.entries.len() ==> dollar_local(#[trigger] st.entries[k]),
    decreases lines.len(),
{
    if lines.len() > 0 {
        lemma_scan_dollar_local(lines.drop_last());
        if let Some(st0) = scan_lines(lines.drop_last()) {
            if let Some(st) = scan_line(st0, lines.last()) {
                assert forall|k: int| 0 <= k < st.entries.len() implies dollar_local(
                    #[trigger] st.entries[k],
                ) by {
                    if k < st0.entries.len() {
                        assert(dollar_local(st0.entries[k]));
                    }
                }
            }
        }
    }
}

/// Every .rodata symbol whose name holds a `$` comes out local, whatever
/// else its label line says.
pub proof fn law_dollar_symbols_are_local(function_name: Seq<char>, content: Seq<char>, k: int)
    requires
        s_file_outcome(function_name, content) is Some,
        0 <= k < (s_file_outcome(function_name, content)->0).1.len(),
        contains_sub((s_file_outcome(function_name, content)->0).1[k].name, "$"@),
    ensures
        (s_file_outcome(function_name, content)->0).1[k].local,
{
    lemma_scan_dollar_local(split_on(content, '\n'));
    let st = scan_lines(split_on(content, '\n'))->0;
    assert(dollar_local(st.entries[k]));
}

/// There is one stub declaration per .rodata symbol, after the function
/// stub, and the function stub (where there is one) has one `nop` per
/// instruction line: the C lines number the .rodata symbols, plus the
/// instruction lines and two where there are any.
pub proof fn law_stub_line_count(function_name: Seq<char>, content: Seq<char>)
    requires
        s_file_outcome(function_name, content) is Some,
    ensures
        ({
            let st = scan_lines(split_on(content, '\n'))->0;
            let (lines, entries) = s_file_outcome(function_name, content)->0;
            &&& entries.len() == st.entries.len()
            &&& lines.len() == entries.len() + if st.nops > 0 {
                st.nops + 2
            } else {
                0
            }
            &&& forall|k: int|
                0 <= k < entries.len() ==> #[trigger] lines[lines.len() - entries.len() + k]
                    == rodata_decl(entries[k])
        }),
{
}

/// A C text without macros comes back as it is: the only text whose bytes
/// are what splicing gives is the text itself.
pub proof fn law_no_macros_no_change(
    content: Seq<char>,
    stubs: Seq<Option<Seq<Seq<char>>>>,
    out: Seq<char>,
)
    requires
        encode_utf8(out) == spliced(content, Seq::empty(), stubs),
    ensures
        out == content,
{
    vstd::utf8::encode_utf8_decode_utf8(out);
    vstd::utf8::encode_utf8_decode_utf8(content);
}

} // verus!
