//! Facts about byte and character sequences shared by the string table,
//! the preprocessor and the section splitter, and the conversions from
//! bytes to text.
use vstd::prelude::*;
use vstd::utf8::*;

verus! {

/// The index of the first occurrence of `x` in `s`, or `s.len()` when `x`
/// does not occur.
pub open spec fn first_index<A>(s: Seq<A>, x: A) -> int
    decreases s.len(),
{
    if s.len() == 0 {
        0
    } else if s[0] == x {
        0
    } else {
        1 + first_index(s.drop_first(), x)
    }
}

/// `first_index` is the position of the first `x`, or the length.
pub proof fn lemma_first_index<A>(s: Seq<A>, x: A)
    ensures
        0 <= first_index(s, x) <= s.len(),
        forall|j: int| 0 <= j < first_index(s, x) ==> s[j] != x,
        first_index(s, x) < s.len() ==> s[first_index(s, x)] == x,
    decreases s.len(),
{
    if s.len() > 0 && s[0] != x {
        lemma_first_index(s.drop_first(), x);
        assert forall|j: int| 0 <= j < first_index(s, x) implies s[j] != x by {
            if j > 0 {
                assert(s[j] == s.drop_first()[j - 1]);
            }
        }
    }
}

/// A position that has no `x` before it and `x` (or the end) at it is the
/// first index of `x`.
pub proof fn lemma_first_index_unique<A>(s: Seq<A>, x: A, i: int)
    requires
        0 <= i <= s.len(),
        forall|j: int| 0 <= j < i ==> s[j] != x,
        i < s.len() ==> s[i] == x,
    ensures
        first_index(s, x) == i,
{
    lemma_first_index(s, x);
    let f = first_index(s, x);
    if f < i {
        assert(s[f] == x);
    } else if i < f {
        assert(s[i] != x);
    }
}

/// The UTF-8 encoding of a concatenation is the concatenation of the
/// encodings.
pub proof fn lemma_encode_utf8_concat(a: Seq<char>, b: Seq<char>)
    ensures
        encode_utf8(a + b) == encode_utf8(a) + encode_utf8(b),
    decreases a.len(),
{
    if a.len() == 0 {
        assert(a + b =~= b);
    } else {
        assert((a + b).drop_first() =~= a.drop_first() + b);
        lemma_encode_utf8_concat(a.drop_first(), b);
        assert(encode_utf8(a + b) =~= encode_scalar(a[0] as u32) + (encode_utf8(a.drop_first())
            + encode_utf8(b)));
    }
}

/// Text without the NUL character encodes to bytes without a zero byte.
pub proof fn lemma_encode_utf8_no_zero(s: Seq<char>)
    requires
        !s.contains('\0'),
    ensures
        !encode_utf8(s).contains(0u8),
    decreases s.len(),
{
    if s.len() > 0 {
        assert(s[0] != '\0');
        assert(!s.drop_first().contains('\0')) by {
            if s.drop_first().contains('\0') {
                let k = choose|k: int| 0 <= k < s.drop_first().len() && s.drop_first()[k] == '\0';
                assert(s[k + 1] == '\0');
            }
        }
        lemma_encode_utf8_no_zero(s.drop_first());
        let c = s[0] as u32;
        assert(c != 0) by {
            vstd::utf8::char_u32_cast(s[0], c);
        }
        let e = encode_scalar(c);
        assert(!e.contains(0u8)) by {
            if has_width_1_encoding(c) {
                assert(leading_byte_width_1(c) != 0) by (bit_vector)
                    requires
                        0 < c <= 0x7F,
                ;
            } else if has_width_2_encoding(c) {
                assert(leading_byte_width_2(c) != 0 && last_continuation_byte(c) != 0)
                    by (bit_vector);
            } else if has_width_3_encoding(c) {
                assert(leading_byte_width_3(c) != 0 && second_last_continuation_byte(c) != 0
                    && last_continuation_byte(c) != 0) by (bit_vector);
            } else {
                assert(leading_byte_width_4(c) != 0 && third_last_continuation_byte(c) != 0
                    && second_last_continuation_byte(c) != 0 && last_continuation_byte(c) != 0)
                    by (bit_vector);
            }
        }
        let t = encode_utf8(s.drop_first());
        assert(encode_utf8(s) == e + t);
        if (e + t).contains(0u8) {
            let k = choose|k: int| 0 <= k < (e + t).len() && (e + t)[k] == 0u8;
            if k < e.len() {
                assert(e[k] == 0u8);
            } else {
                assert(t[k - e.len()] == 0u8);
            }
        }
    }
}

/// The text that `bytes` encode in UTF-8, or `None` where they are not
/// valid UTF-8 (`std::str::from_utf8`).
#[verifier::external_body]
pub(crate) fn str_from_utf8(bytes: &[u8]) -> (r: Option<&str>)
    ensures
        r is Some <==> valid_utf8(bytes@),
        r matches Some(s) ==> s@ == decode_utf8(bytes@),
{
    match std::str::from_utf8(bytes) {
        Ok(s) => Some(s),
        Err(_) => None,
    }
}


/// `s` begins with `p`.
pub open spec fn starts_with(s: Seq<char>, p: Seq<char>) -> bool {
    p.len() <= s.len() && s.take(p.len() as int) == p
}

/// `s` ends with `p`.
pub open spec fn ends_with(s: Seq<char>, p: Seq<char>) -> bool {
    p.len() <= s.len() && s.skip(s.len() - p.len()) == p
}

/// `p` occurs in `s` at `i`.
pub open spec fn sub_at(s: Seq<char>, p: Seq<char>, i: int) -> bool {
    0 <= i && i + p.len() <= s.len() && s.subrange(i, i + p.len()) == p
}

/// `p` occurs somewhere in `s`.
pub open spec fn contains_sub(s: Seq<char>, p: Seq<char>) -> bool {
    exists|i: int| sub_at(s, p, i)
}

/// Whether `p` occurs in `s` at `i`.
pub fn chars_at(s: &[char], p: &[char], i: usize) -> (r: bool)
    ensures
        r == sub_at(s@, p@, i as int),
{
    let n = p.len();
    let len = s.len();
    if i > len || n > len - i {
        return false;
    }
    let mut k: usize = 0;
    while k < n
        invariant
            n == p@.len(),
            len == s@.len(),
            i + n <= len,
            k <= n,
            forall|j: int| 0 <= j < k ==> s@[i + j] == p@[j],
        decreases n - k,
    {
        if s[i + k] != p[k] {
            assert(s@.subrange(i as int, i + n)[k as int] != p@[k as int]);
            return false;
        }
        k += 1;
    }
    assert(s@.subrange(i as int, i + n) =~= p@);
    true
}

/// Whether `s` begins with `p`.
pub fn chars_start_with(s: &[char], p: &[char]) -> (r: bool)
    ensures
        r == starts_with(s@, p@),
{
    let r = chars_at(s, p, 0);
    assert(s@.subrange(0, p@.len() as int) == s@.take(p@.len() as int));
    r
}

/// Whether `s` ends with `p`.
pub fn chars_end_with(s: &[char], p: &[char]) -> (r: bool)
    ensures
        r == ends_with(s@, p@),
{
    if p.len() > s.len() {
        return false;
    }
    let r = chars_at(s, p, s.len() - p.len());
    assert(s@.subrange(s@.len() - p@.len(), s@.len() as int) == s@.skip(s@.len() - p@.len()));
    r
}

/// Whether `p` occurs somewhere in `s`.
pub fn chars_contain(s: &[char], p: &[char]) -> (r: bool)
    ensures
        r == contains_sub(s@, p@),
{
    let len = s.len();
    let mut i: usize = 0;
    while i < len
        invariant
            len == s@.len(),
            i <= len,
            forall|j: int| 0 <= j < i ==> !sub_at(s@, p@, j),
        decreases len - i,
    {
        if chars_at(s, p, i) {
            return true;
        }
        i += 1;
    }
    if chars_at(s, p, len) {
        return true;
    }
    assert forall|j: int| !sub_at(s@, p@, j) by {
        if 0 <= j && j + p@.len() <= s@.len() {
            assert(j <= len);
        }
    }
    false
}

/// `a` followed by `b`.
pub(crate) fn concat_strs(a: &str, b: &str) -> (s: String)
    ensures
        s@ == a@ + b@,
{
    let mut s = a.to_owned();
    s.append(b);
    s
}

/// The characters of `s`.
pub(crate) fn chars_of(s: &str) -> (v: Vec<char>)
    ensures
        v@ == s@,
{
    broadcast use vstd::string::axiom_spec_iter;
    let mut v: Vec<char> = Vec::new();
    for c in it: s.chars()
        invariant
            v@ == it.seq().take(it.index() as int),
    {
        v.push(c);
    }
    v
}

/// The string made of the characters `v` (`String: FromIterator<&char>`).
#[verifier::external_body]
pub(crate) fn string_of(v: &[char]) -> (s: String)
    ensures
        s@ == v@,
{
    v.iter().collect()
}

/// A Unicode `White_Space` character (what `char::is_whitespace` and the
/// regex class `\s` accept).
pub open spec fn is_space(c: char) -> bool {
    ('\t' <= c && c <= '\r') || c == ' ' || c == '\u{85}' || c == '\u{a0}' || c == '\u{1680}'
        || ('\u{2000}' <= c && c <= '\u{200a}') || c == '\u{2028}' || c == '\u{2029}' || c
        == '\u{202f}' || c == '\u{205f}' || c == '\u{3000}'
}

/// Whether `c` is Unicode white space.
pub fn char_is_space(c: char) -> (r: bool)
    ensures
        r == is_space(c),
{
    ('\t' <= c && c <= '\r') || c == ' ' || c == '\u{85}' || c == '\u{a0}' || c == '\u{1680}' || (
    '\u{2000}' <= c && c <= '\u{200a}') || c == '\u{2028}' || c == '\u{2029}' || c == '\u{202f}'
        || c == '\u{205f}' || c == '\u{3000}'
}

/// The number of white-space characters that `s` begins with.
pub open spec fn lead_space(s: Seq<char>) -> int
    decreases s.len(),
{
    if s.len() == 0 || !is_space(s[0]) {
        0
    } else {
        1 + lead_space(s.drop_first())
    }
}

/// The number of characters before the first white space of `s` (or its
/// length).
pub open spec fn word_len(s: Seq<char>) -> int
    decreases s.len(),
{
    if s.len() == 0 || is_space(s[0]) {
        0
    } else {
        1 + word_len(s.drop_first())
    }
}

/// The number of white-space characters that `s` ends with.
pub open spec fn trail_space(s: Seq<char>) -> int
    decreases s.len(),
{
    if s.len() == 0 || !is_space(s.last()) {
        0
    } else {
        1 + trail_space(s.drop_last())
    }
}

/// `s` without leading and trailing white space (`str::trim`).
pub open spec fn trim(s: Seq<char>) -> Seq<char> {
    let a = lead_space(s);
    if a == s.len() {
        Seq::empty()
    } else {
        s.subrange(a, s.len() - trail_space(s))
    }
}

/// Word `k` of `s`, counting from 0, where words are the maximal runs of
/// characters other than white space (`str::split_whitespace`).
pub open spec fn word_at(s: Seq<char>, k: nat) -> Option<Seq<char>>
    decreases k,
{
    let t = s.skip(lead_space(s));
    if t.len() == 0 {
        None
    } else if k == 0 {
        Some(t.take(word_len(t)))
    } else {
        word_at(t.skip(word_len(t)), (k - 1) as nat)
    }
}

/// The pieces of `s` between the `sep` characters (`str::split`).
pub open spec fn split_on(s: Seq<char>, sep: char) -> Seq<Seq<char>>
    decreases s.len(),
{
    if s.len() == 0 {
        seq![Seq::empty()]
    } else {
        let r = split_on(s.drop_last(), sep);
        if s.last() == sep {
            r.push(Seq::empty())
        } else {
            r.update(r.len() - 1, r.last().push(s.last()))
        }
    }
}

/// `s` with every occurrence of `pat`, from the left and not overlapping,
/// replaced by `rep` (`str::replace`, for a non-empty `pat`).
pub open spec fn replace_all(s: Seq<char>, pat: Seq<char>, rep: Seq<char>) -> Seq<char>
    decreases s.len(),
{
    if s.len() == 0 || pat.len() == 0 {
        s
    } else if starts_with(s, pat) {
        rep + replace_all(s.skip(pat.len() as int), pat, rep)
    } else {
        seq![s[0]] + replace_all(s.drop_first(), pat, rep)
    }
}

/// The decimal digits of `n`, without leading zeros (`0` for zero).
pub open spec fn decimal(n: nat) -> Seq<char>
    decreases n,
{
    if n < 10 {
        seq![digit_char(n)]
    } else {
        decimal(n / 10).push(digit_char(n % 10))
    }
}

/// The character of decimal digit `d`.
pub open spec fn digit_char(d: nat) -> char {
    if d == 0 {
        '0'
    } else if d == 1 {
        '1'
    } else if d == 2 {
        '2'
    } else if d == 3 {
        '3'
    } else if d == 4 {
        '4'
    } else if d == 5 {
        '5'
    } else if d == 6 {
        '6'
    } else if d == 7 {
        '7'
    } else if d == 8 {
        '8'
    } else {
        '9'
    }
}

proof fn lemma_lead_space(s: Seq<char>)
    ensures
        0 <= lead_space(s) <= s.len(),
        forall|j: int| 0 <= j < lead_space(s) ==> is_space(#[trigger] s[j]),
        lead_space(s) < s.len() ==> !is_space(s[lead_space(s)]),
    decreases s.len(),
{
    if s.len() > 0 && is_space(s[0]) {
        lemma_lead_space(s.drop_first());
        assert forall|j: int| 0 <= j < lead_space(s) implies is_space(#[trigger] s[j]) by {
            if j > 0 {
                assert(s[j] == s.drop_first()[j - 1]);
            }
        }
    }
}

proof fn lemma_lead_space_at(s: Seq<char>, i: int)
    requires
        0 <= i <= s.len(),
        forall|j: int| 0 <= j < i ==> is_space(#[trigger] s[j]),
        i < s.len() ==> !is_space(s[i]),
    ensures
        lead_space(s) == i,
    decreases s.len(),
{
    if i > 0 {
        assert(is_space(s[0]));
        assert forall|j: int| 0 <= j < i - 1 implies is_space(#[trigger] s.drop_first()[j]) by {
            assert(s.drop_first()[j] == s[j + 1]);
        }
        lemma_lead_space_at(s.drop_first(), i - 1);
    }
}

proof fn lemma_word_len_at(s: Seq<char>, i: int)
    requires
        0 <= i <= s.len(),
        forall|j: int| 0 <= j < i ==> !is_space(#[trigger] s[j]),
        i < s.len() ==> is_space(s[i]),
    ensures
        word_len(s) == i,
    decreases s.len(),
{
    if i > 0 {
        assert forall|j: int| 0 <= j < i - 1 implies !is_space(#[trigger] s.drop_first()[j]) by {
            assert(s.drop_first()[j] == s[j + 1]);
        }
        lemma_word_len_at(s.drop_first(), i - 1);
    }
}

proof fn lemma_trail_space_at(s: Seq<char>, i: int)
    requires
        0 <= i <= s.len(),
        forall|j: int| s.len() - i <= j < s.len() ==> is_space(#[trigger] s[j]),
        i < s.len() ==> !is_space(s[s.len() - i - 1]),
    ensures
        trail_space(s) == i,
    decreases s.len(),
{
    if i > 0 {
        assert(is_space(s.last()));
        assert forall|j: int| s.drop_last().len() - (i - 1) <= j < s.drop_last().len() implies is_space(
            #[trigger] s.drop_last()[j],
        ) by {
            assert(s.drop_last()[j] == s[j]);
        }
        lemma_trail_space_at(s.drop_last(), i - 1);
    }
}

/// `s` without leading and trailing white space.
pub fn trim_chars(s: &[char]) -> (r: Vec<char>)
    ensures
        r@ == trim(s@),
{
    let n = s.len();
    let mut a: usize = 0;
    while a < n && char_is_space(s[a])
        invariant
            n == s@.len(),
            a <= n,
            forall|j: int| 0 <= j < a ==> is_space(#[trigger] s@[j]),
        decreases n - a,
    {
        a += 1;
    }
    proof {
        lemma_lead_space_at(s@, a as int);
    }
    if a == n {
        return Vec::new();
    }
    let mut b: usize = n;
    while b > a && char_is_space(s[b - 1])
        invariant
            n == s@.len(),
            a < n,
            !is_space(s@[a as int]),
            a <= b <= n,
            forall|j: int| b <= j < n ==> is_space(#[trigger] s@[j]),
        decreases b,
    {
        b -= 1;
    }
    proof {
        lemma_trail_space_at(s@, n - b);
    }
    vstd::slice::slice_to_vec(&s[a..b])
}

/// Word `k` of `s` (see `word_at`).
pub fn nth_word(s: &[char], k: usize) -> (r: Option<Vec<char>>)
    ensures
        match word_at(s@, k as nat) {
            Some(w) => r matches Some(v) && v@ == w,
            None => r is None,
        },
{
    let n = s.len();
    let mut i: usize = 0;
    let mut left: usize = k;
    let ghost mut rest: Seq<char> = s@;
    assert(s@.skip(0) =~= s@);
    loop
        invariant
            n == s@.len(),
            i <= n,
            rest == s@.skip(i as int),
            word_at(s@, k as nat) == word_at(rest, left as nat),
        decreases n - i,
    {
        let start = i;
        while i < n && char_is_space(s[i])
            invariant
                n == s@.len(),
                start <= i <= n,
                forall|j: int| start <= j < i ==> is_space(#[trigger] s@[j]),
            decreases n - i,
        {
            i += 1;
        }
        proof {
            assert forall|j: int| 0 <= j < i - start implies is_space(#[trigger] rest[j]) by {
                assert(rest[j] == s@[start + j]);
            }
            if i < n {
                assert(rest[i - start] == s@[i as int]);
            }
            lemma_lead_space_at(rest, i - start);
            assert(rest.skip(lead_space(rest)) =~= s@.skip(i as int));
        }
        if i == n {
            return None;
        }
        let wstart = i;
        while i < n && !char_is_space(s[i])
            invariant
                n == s@.len(),
                wstart <= i <= n,
                forall|j: int| wstart <= j < i ==> !is_space(#[trigger] s@[j]),
            decreases n - i,
        {
            i += 1;
        }
        let ghost t = s@.skip(wstart as int);
        proof {
            assert forall|j: int| 0 <= j < i - wstart implies !is_space(#[trigger] t[j]) by {
                assert(t[j] == s@[wstart + j]);
            }
            if i < n {
                assert(t[i - wstart] == s@[i as int]);
            }
            lemma_word_len_at(t, i - wstart);
        }
        if left == 0 {
            assert(t.take(word_len(t)) =~= s@.subrange(wstart as int, i as int));
            return Some(vstd::slice::slice_to_vec(&s[wstart..i]));
        }
        left -= 1;
        proof {
            assert(t.skip(word_len(t)) =~= s@.skip(i as int));
            rest = s@.skip(i as int);
        }
    }
}

/// The pieces of `s` between the `sep` characters.
pub fn split_chars(s: &[char], sep: char) -> (r: Vec<Vec<char>>)
    ensures
        r@.len() == split_on(s@, sep).len(),
        forall|i: int| 0 <= i < r@.len() ==> (#[trigger] r@[i])@ == split_on(s@, sep)[i],
{
    let n = s.len();
    let mut out: Vec<Vec<char>> = Vec::new();
    let mut cur: Vec<char> = Vec::new();
    let mut i: usize = 0;
    assert(s@.take(0) =~= Seq::<char>::empty());
    while i < n
        invariant
            n == s@.len(),
            i <= n,
            out@.len() + 1 == split_on(s@.take(i as int), sep).len(),
            forall|k: int| 0 <= k < out@.len() ==> (#[trigger] out@[k])@ == split_on(s@.take(i as int), sep)[k],
            cur@ == split_on(s@.take(i as int), sep).last(),
        decreases n - i,
    {
        proof {
            assert(s@.take(i + 1).drop_last() =~= s@.take(i as int));
            assert(s@.take(i + 1).last() == s@[i as int]);
        }
        if s[i] == sep {
            let done = cur;
            out.push(done);
            cur = Vec::new();
        } else {
            cur.push(s[i]);
        }
        i += 1;
    }
    out.push(cur);
    assert(s@.take(n as int) =~= s@);
    out
}

/// `s` with every occurrence of a non-empty `pat` replaced by `rep`.
pub fn replace_chars(s: &[char], pat: &[char], rep: &[char]) -> (r: Vec<char>)
    requires
        pat@.len() > 0,
    ensures
        r@ == replace_all(s@, pat@, rep@),
{
    let n = s.len();
    let mut out: Vec<char> = Vec::new();
    let mut i: usize = 0;
    assert(s@.skip(0) =~= s@);
    assert(out@ + replace_all(s@, pat@, rep@) =~= replace_all(s@, pat@, rep@));
    while i < n
        invariant
            n == s@.len(),
            i <= n,
            pat@.len() > 0,
            replace_all(s@, pat@, rep@) == out@ + replace_all(s@.skip(i as int), pat@, rep@),
        decreases n - i,
    {
        let ghost t = s@.skip(i as int);
        if chars_at(s, pat, i) {
            proof {
                assert(t.take(pat@.len() as int) =~= s@.subrange(i as int, i + pat@.len()));
                assert(t.skip(pat@.len() as int) =~= s@.skip(i + pat@.len()));
            }
            let mut k: usize = 0;
            let ghost before = out@;
            while k < rep.len()
                invariant
                    k <= rep@.len(),
                    out@ == before + rep@.take(k as int),
                decreases rep@.len() - k,
            {
                out.push(rep[k]);
                assert(rep@.take(k + 1) =~= rep@.take(k as int).push(rep@[k as int]));
                k += 1;
            }
            assert(rep@.take(rep@.len() as int) =~= rep@);
            assert(out@ + replace_all(s@.skip(i + pat@.len()), pat@, rep@) =~= before + (rep@
                + replace_all(t.skip(pat@.len() as int), pat@, rep@)));
            i += pat.len();
        } else {
            proof {
                if starts_with(t, pat@) {
                    assert(t.take(pat@.len() as int) =~= s@.subrange(i as int, i + pat@.len()));
                }
                assert(t.drop_first() =~= s@.skip(i + 1));
            }
            let ghost before = out@;
            out.push(s[i]);
            assert(out@ + replace_all(s@.skip(i + 1), pat@, rep@) =~= before + (seq![t[0]]
                + replace_all(t.drop_first(), pat@, rep@)));
            i += 1;
        }
    }
    assert(s@.skip(n as int) =~= Seq::<char>::empty());
    assert(out@ + Seq::<char>::empty() =~= out@);
    out
}

/// The decimal digits of `n`.
pub fn decimal_chars(n: usize) -> (r: Vec<char>)
    ensures
        r@ == decimal(n as nat),
    decreases n,
{
    let d = n % 10;
    let c = if d == 0 {
        '0'
    } else if d == 1 {
        '1'
    } else if d == 2 {
        '2'
    } else if d == 3 {
        '3'
    } else if d == 4 {
        '4'
    } else if d == 5 {
        '5'
    } else if d == 6 {
        '6'
    } else if d == 7 {
        '7'
    } else if d == 8 {
        '8'
    } else {
        '9'
    };
    if n < 10 {
        let mut v: Vec<char> = Vec::new();
        v.push(c);
        assert(v@ =~= seq![digit_char(n as nat)]);
        v
    } else {
        let mut v = decimal_chars(n / 10);
        v.push(c);
        v
    }
}

/// The upper-case hexadecimal digits of `n`, without leading zeros (`0`
/// for zero).
pub open spec fn hex(n: nat) -> Seq<char>
    decreases n,
{
    if n < 16 {
        seq![hex_char(n)]
    } else {
        hex(n / 16).push(hex_char(n % 16))
    }
}

/// The upper-case character of hexadecimal digit `d`.
pub open spec fn hex_char(d: nat) -> char {
    if d < 10 {
        digit_char(d)
    } else if d == 10 {
        'A'
    } else if d == 11 {
        'B'
    } else if d == 12 {
        'C'
    } else if d == 13 {
        'D'
    } else if d == 14 {
        'E'
    } else {
        'F'
    }
}

/// The upper-case hexadecimal digits of `n`.
pub fn hex_chars(n: u32) -> (r: Vec<char>)
    ensures
        r@ == hex(n as nat),
    decreases n,
{
    let d = n % 16;
    let c = if d < 10 {
        let v = decimal_chars(d as usize);
        v[0]
    } else if d == 10 {
        'A'
    } else if d == 11 {
        'B'
    } else if d == 12 {
        'C'
    } else if d == 13 {
        'D'
    } else if d == 14 {
        'E'
    } else {
        'F'
    };
    if n < 16 {
        let mut v: Vec<char> = Vec::new();
        v.push(c);
        assert(v@ =~= seq![hex_char(n as nat)]);
        v
    } else {
        let mut v = hex_chars(n / 16);
        v.push(c);
        v
    }
}

} // verus!
