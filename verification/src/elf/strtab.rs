use vstd::prelude::*;
use vstd::utf8::*;
use super::section::{Section, SectionView, header_bytes};
use crate::text::{first_index, lemma_first_index_unique, str_from_utf8};

verus! {

/// A string table section together with the strings it holds.
#[derive(Debug, Clone, Default, PartialEq)]
pub struct StrTab {
    pub section: Section,
    pub symbols: Vec<String>,
}

/// The mathematical value of a [`StrTab`].
pub struct StrTabView {
    pub section: SectionView,
    pub symbols: Seq<Seq<char>>,
}

/// The views of a sequence of strings.
pub open spec fn string_views(s: Seq<String>) -> Seq<Seq<char>> {
    s.map_values(|x: String| x@)
}

impl View for StrTab {
    type V = StrTabView;

    open spec fn view(&self) -> StrTabView {
        StrTabView { section: self.section@, symbols: string_views(self.symbols@) }
    }
}

/// The pieces of `b` between zero bytes, in order (like `<[u8]>::split`):
/// `n` zero bytes give `n + 1` pieces.
pub open spec fn split_at_zeros(b: Seq<u8>) -> Seq<Seq<u8>>
    decreases b.len(),
{
    if b.len() == 0 {
        seq![Seq::empty()]
    } else {
        let r = split_at_zeros(b.drop_last());
        if b.last() == 0 {
            r.push(Seq::empty())
        } else {
            r.update(r.len() - 1, r.last().push(b.last()))
        }
    }
}

/// The decodings of the pieces that are valid UTF-8, in order; the others
/// are left out.
pub open spec fn decode_valid(pieces: Seq<Seq<u8>>) -> Seq<Seq<char>>
    decreases pieces.len(),
{
    if pieces.len() == 0 {
        Seq::empty()
    } else {
        let r = decode_valid(pieces.drop_last());
        if valid_utf8(pieces.last()) {
            r.push(decode_utf8(pieces.last()))
        } else {
            r
        }
    }
}

/// The strings that a string table's data holds: the data without its final
/// terminator, cut at each zero byte, each piece that is valid UTF-8.
pub open spec fn table_strings(data: Seq<u8>) -> Seq<Seq<char>> {
    if data.len() == 0 {
        Seq::empty()
    } else {
        let end = if data.last() == 0 {
            data.len() - 1
        } else {
            data.len() as int
        };
        decode_valid(split_at_zeros(data.take(end)))
    }
}

/// String table data that holds `names`, each encoded in UTF-8 and
/// followed by a zero byte.
pub open spec fn pack_strings(names: Seq<Seq<char>>) -> Seq<u8>
    decreases names.len(),
{
    if names.len() == 0 {
        Seq::empty()
    } else {
        pack_strings(names.drop_last()) + encode_utf8(names.last()) + seq![0u8]
    }
}

/// The text that starts at byte `index` and runs to the next zero byte (or
/// the end), or the empty text where those bytes are not valid UTF-8.
pub open spec fn string_at(data: Seq<u8>, index: int) -> Seq<char> {
    let rest = data.skip(index);
    let bytes = rest.take(first_index(rest, 0u8));
    if valid_utf8(bytes) {
        decode_utf8(bytes)
    } else {
        Seq::empty()
    }
}

/// `needle` occurs in `hay` at `i`.
pub open spec fn occurs_at(hay: Seq<u8>, needle: Seq<u8>, i: int) -> bool {
    0 <= i && i + needle.len() <= hay.len() && hay.subrange(i, i + needle.len()) == needle
}

/// The first position at or after `i` where `needle` occurs in `hay`.
pub open spec fn find_from(hay: Seq<u8>, needle: Seq<u8>, i: int) -> Option<int>
    decreases hay.len() + 1 - i,
{
    if i < 0 || i + needle.len() > hay.len() {
        None
    } else if occurs_at(hay, needle, i) {
        Some(i)
    } else {
        find_from(hay, needle, i + 1)
    }
}

/// The bytes that stand for `name` in a string table: its UTF-8 encoding
/// and a terminating zero.
pub open spec fn terminated(name: Seq<char>) -> Seq<u8> {
    encode_utf8(name) + seq![0u8]
}

/// The offset that adding `name` to a table with data `data` gives: where
/// its terminated bytes already occur, the first such place, else the end.
pub open spec fn add_offset(data: Seq<u8>, name: Seq<char>) -> int {
    match find_from(data, terminated(name), 0) {
        Some(i) => i,
        None => data.len() as int,
    }
}

/// The table data after adding `name`.
pub open spec fn add_data(data: Seq<u8>, name: Seq<char>) -> Seq<u8> {
    match find_from(data, terminated(name), 0) {
        Some(_) => data,
        None => data + terminated(name),
    }
}

/// Cutting at zeros always gives at least one piece.
pub proof fn lemma_split_at_zeros_len(b: Seq<u8>)
    ensures
        split_at_zeros(b).len() >= 1,
    decreases b.len(),
{
    if b.len() > 0 {
        lemma_split_at_zeros_len(b.drop_last());
    }
}

/// A string table after adding `name` (what `StrTab::add_symbol` does).
pub open spec fn added(t: StrTabView, name: Seq<char>) -> StrTabView {
    if find_from(t.section.data, terminated(name), 0) is Some {
        t
    } else {
        let data = t.section.data + terminated(name);
        StrTabView {
            section: SectionView { data, sh_size: data.len() as u32, ..t.section },
            symbols: t.symbols.push(name),
        }
    }
}

proof fn lemma_find_from(hay: Seq<u8>, needle: Seq<u8>, i: int)
    requires
        0 <= i,
    ensures
        find_from(hay, needle, i) matches Some(k) ==> i <= k && occurs_at(hay, needle, k) && forall|
            j: int,
        | i <= j < k ==> !occurs_at(hay, needle, j),
        find_from(hay, needle, i) is None ==> forall|j: int| i <= j ==> !occurs_at(hay, needle, j),
    decreases hay.len() + 1 - i,
{
    if i < 0 || i + needle.len() > hay.len() {
    } else if occurs_at(hay, needle, i) {
    } else {
        lemma_find_from(hay, needle, i + 1);
    }
}

proof fn lemma_find_from_at(hay: Seq<u8>, needle: Seq<u8>, j: int, i: int)
    requires
        0 <= j <= i,
        forall|k: int| j <= k < i ==> !occurs_at(hay, needle, k),
        occurs_at(hay, needle, i),
    ensures
        find_from(hay, needle, j) == Some(i),
    decreases i - j,
{
    if j < i {
        lemma_find_from_at(hay, needle, j + 1, i);
    }
}

proof fn lemma_find_from_none(hay: Seq<u8>, needle: Seq<u8>, j: int)
    requires
        0 <= j,
        forall|k: int| j <= k ==> !occurs_at(hay, needle, k),
    ensures
        find_from(hay, needle, j) is None,
    decreases hay.len() + 1 - j,
{
    if j + needle.len() <= hay.len() {
        lemma_find_from_none(hay, needle, j + 1);
    }
}

/// Where `name` has no NUL character, the terminated bytes of `name` start
/// the text that `string_at` reads back as `name`.
pub(crate) proof fn lemma_string_at_terminated(data: Seq<u8>, k: int, name: Seq<char>)
    requires
        !name.contains('\0'),
        occurs_at(data, terminated(name), k),
    ensures
        string_at(data, k) == name,
{
    let e = encode_utf8(name);
    let rest = data.skip(k);
    crate::text::lemma_encode_utf8_no_zero(name);
    assert(rest.subrange(0, e.len() + 1int) =~= terminated(name));
    assert forall|j: int| 0 <= j < e.len() implies rest[j] != 0u8 by {
        assert(rest[j] == e[j]);
        if rest[j] == 0u8 {
            assert(e.contains(0u8));
        }
    }
    assert(rest[e.len() as int] == 0u8);
    lemma_first_index_unique(rest, 0u8, e.len() as int);
    assert(rest.take(e.len() as int) =~= e);
    vstd::utf8::encode_utf8_valid_utf8(name);
    vstd::utf8::encode_utf8_decode_utf8(name);
}

/// Whether `needle` occurs in `hay` at `i`.
fn window_matches(hay: &Vec<u8>, needle: &Vec<u8>, i: usize) -> (r: bool)
    requires
        i + needle@.len() <= hay@.len(),
    ensures
        r == occurs_at(hay@, needle@, i as int),
{
    let n = needle.len();
    let hlen = hay.len();
    let mut k: usize = 0;
    while k < n
        invariant
            n == needle@.len(),
            hlen == hay@.len(),
            i + n <= hay@.len(),
            k <= n,
            forall|j: int| 0 <= j < k ==> hay@[i + j] == needle@[j],
        decreases n - k,
    {
        if hay[i + k] != needle[k] {
            assert(hay@.subrange(i as int, i + n)[k as int] != needle@[k as int]);
            return false;
        }
        k += 1;
    }
    assert(hay@.subrange(i as int, i + n) =~= needle@);
    true
}

/// The first position where `needle` occurs in `hay`.
fn find_window(hay: &Vec<u8>, needle: &Vec<u8>) -> (r: Option<usize>)
    requires
        needle@.len() >= 1,
    ensures
        r matches Some(i) ==> find_from(hay@, needle@, 0) == Some(i as int),
        r is None ==> find_from(hay@, needle@, 0) is None,
{
    let len = hay.len();
    let n = needle.len();
    if n > len {
        proof {
            lemma_find_from_none(hay@, needle@, 0);
        }
        return None;
    }
    let mut i: usize = 0;
    while i <= len - n
        invariant
            len == hay@.len(),
            n == needle@.len(),
            1 <= n <= len,
            forall|k: int| 0 <= k < i ==> !occurs_at(hay@, needle@, k),
        decreases len - n + 1 - i,
    {
        if window_matches(hay, needle, i) {
            proof {
                lemma_find_from_at(hay@, needle@, 0, i as int);
            }
            return Some(i);
        }
        i += 1;
    }
    proof {
        lemma_find_from_none(hay@, needle@, 0);
    }
    None
}

impl StrTab {
    /// Reads the strings out of a string table section: the data without
    /// its final terminator is cut at each zero byte, and each piece that is
    /// valid UTF-8 becomes a string (the others are skipped).
    pub fn new(section: Section) -> (t: Self)
        ensures
            t@.section == section@,
            t@.symbols == table_strings(section@.data),
    {
        let len = section.data.len();
        let mut names: Vec<String> = Vec::new();
        if len > 0 {
            let end = if section.data[len - 1] == 0 {
                len - 1
            } else {
                len
            };
            let ghost b = section.data@.take(end as int);
            let mut cur: Vec<u8> = Vec::new();
            let mut i: usize = 0;
            while i < end
                invariant
                    end <= len == section.data@.len(),
                    b == section.data@.take(end as int),
                    i <= end,
                    split_at_zeros(b.take(i as int)).len() >= 1,
                    cur@ == split_at_zeros(b.take(i as int)).last(),
                    string_views(names@) == decode_valid(split_at_zeros(b.take(i as int)).drop_last()),
                decreases end - i,
            {
                let ghost before = split_at_zeros(b.take(i as int));
                proof {
                    lemma_split_at_zeros_len(b.take(i as int));
                    lemma_split_at_zeros_len(b.take(i + 1));
                }
                assert(b.take(i + 1).drop_last() =~= b.take(i as int));
                let byte = section.data[i];
                if byte == 0 {
                    Self::push_decoded(&mut names, &cur);
                    proof {
                        let after = split_at_zeros(b.take(i + 1));
                        assert(after == before.push(Seq::empty()));
                        assert(after.drop_last() =~= before);
                        assert(before =~= before.drop_last().push(before.last()));
                    }
                    cur = Vec::new();
                } else {
                    cur.push(byte);
                    proof {
                        let after = split_at_zeros(b.take(i + 1));
                        assert(after.drop_last() =~= before.drop_last());
                    }
                }
                i += 1;
            }
            Self::push_decoded(&mut names, &cur);
            proof {
                let all = split_at_zeros(b.take(end as int));
                lemma_split_at_zeros_len(b.take(end as int));
                assert(b.take(end as int) =~= b);
                assert(all =~= all.drop_last().push(all.last()));
                assert(string_views(names@) =~= decode_valid(all));
            }
        } else {
            assert(string_views(names@) =~= table_strings(section.data@));
        }
        StrTab { section, symbols: names }
    }

    /// Appends the decoding of `piece` to `names` where `piece` is valid
    /// UTF-8.
    fn push_decoded(names: &mut Vec<String>, piece: &Vec<u8>)
        ensures
            string_views(final(names)@) == (if valid_utf8(piece@) {
                string_views(old(names)@).push(decode_utf8(piece@))
            } else {
                string_views(old(names)@)
            }),
    {
        match str_from_utf8(piece.as_slice()) {
            Some(s) => {
                names.push(s.to_owned());
                assert(string_views(names@) =~= string_views(old(names)@).push(decode_utf8(piece@)));
            },
            None => {},
        }
    }

    /// Packs the strings into the internal data buffer with null terminators
    pub fn pack_data(&mut self) -> (d: &[u8])
        ensures
            final(self)@.symbols == old(self)@.symbols,
            final(self)@.section == (SectionView { data: pack_strings(old(self)@.symbols), ..old(self)@.section }),
            d@ == pack_strings(old(self)@.symbols),
    {
        let mut buf: Vec<u8> = Vec::new();
        let n = self.symbols.len();
        let mut i: usize = 0;
        while i < n
            invariant
                n == self.symbols@.len(),
                i <= n,
                buf@ == pack_strings(string_views(self.symbols@).take(i as int)),
            decreases n - i,
        {
            let bytes = self.symbols[i].as_str().as_bytes();
            let mut v = vstd::slice::slice_to_vec(bytes);
            buf.append(&mut v);
            buf.push(0);
            proof {
                let names = string_views(self.symbols@);
                assert(names.take(i + 1).drop_last() =~= names.take(i as int));
                assert(buf@ =~= pack_strings(names.take(i + 1)));
            }
            i += 1;
        }
        proof {
            let names = string_views(self.symbols@);
            assert(names.take(n as int) =~= names);
        }
        self.section.data = buf;
        self.section.data.as_slice()
    }

    /// The string that starts at byte `index` of the data and runs to the
    /// next zero byte; empty where those bytes are not valid UTF-8.
    pub fn get_str(&self, index: usize) -> (s: &str)
        requires
            index <= self.section.data@.len(),
        ensures
            s@ == string_at(self.section.data@, index as int),
    {
        let len = self.section.data.len();
        let data = self.section.data.as_slice();
        let rest = &data[index..len];
        let rlen = len - index;
        let mut end: usize = 0;
        while end < rlen && rest[end] != 0
            invariant
                rest@ == self.section.data@.skip(index as int),
                rlen == rest@.len(),
                end <= rlen,
                forall|j: int| 0 <= j < end ==> rest@[j] != 0u8,
            decreases rlen - end,
        {
            end += 1;
        }
        proof {
            lemma_first_index_unique(rest@, 0u8, end as int);
        }
        match str_from_utf8(&rest[0..end]) {
            Some(s) => s,
            None => {
                proof {
                    reveal_strlit("");
                }
                ""
            },
        }
    }

    /// Adds a symbol if it doesn't exist, otherwise returns the existing offset
    ///
    /// The string's bytes with a terminating zero are looked for anywhere in
    /// the data (also as the tail of a longer string); where they are found,
    /// nothing changes and the first such offset is returned. Otherwise they
    /// are appended, `sh_size` becomes the new data length, the string joins
    /// `symbols`, and the old data length is returned.
    pub fn add_symbol(&mut self, symbol_name: &str) -> (idx: u32)
        ensures
            idx == add_offset(old(self)@.section.data, symbol_name@) as u32,
            final(self)@ == added(old(self)@, symbol_name@),
            final(self)@.section.data == add_data(old(self)@.section.data, symbol_name@),
            find_from(old(self)@.section.data, terminated(symbol_name@), 0) is Some ==> {
                &&& final(self)@.symbols == old(self)@.symbols
                &&& final(self)@.section == old(self)@.section
            },
            find_from(old(self)@.section.data, terminated(symbol_name@), 0) is None ==> {
                &&& final(self)@.symbols == old(self)@.symbols.push(symbol_name@)
                &&& final(self)@.section == (SectionView {
                    data: final(self)@.section.data,
                    sh_size: final(self)@.section.data.len() as u32,
                    ..old(self)@.section
                })
            },
            // what `get_str` reads at the returned offset is the string added
            !symbol_name@.contains('\0') && add_offset(old(self)@.section.data, symbol_name@)
                <= u32::MAX ==> string_at(final(self)@.section.data, idx as int) == symbol_name@,
            // data that holds exactly the table's strings still does
            old(self)@.section.data == pack_strings(old(self)@.symbols) ==> final(self)@.section.data
                == pack_strings(final(self)@.symbols),
    {
        let mut needle = vstd::slice::slice_to_vec(symbol_name.as_bytes());
        needle.push(0);
        assert(needle@ == terminated(symbol_name@));
        match find_window(&self.section.data, &needle) {
            Some(i) => {
                proof {
                    lemma_find_from(old(self)@.section.data, needle@, 0);
                    if !symbol_name@.contains('\0') {
                        lemma_string_at_terminated(self.section.data@, i as int, symbol_name@);
                    }
                }
                i as u32
            },
            None => {
                let idx = self.section.data.len();
                let mut tail = needle;
                self.section.data.append(&mut tail);
                self.section.sh_size = self.section.data.len() as u32;
                self.symbols.push(symbol_name.to_owned());
                proof {
                    assert(string_views(self.symbols@) =~= string_views(old(self).symbols@).push(
                        symbol_name@,
                    ));
                    let ns = string_views(self.symbols@);
                    assert(ns.drop_last() =~= string_views(old(self).symbols@));
                    assert(ns.last() == symbol_name@);
                    if old(self)@.section.data == pack_strings(old(self)@.symbols) {
                        assert(self.section.data@ =~= pack_strings(ns.drop_last()) + encode_utf8(
                            ns.last(),
                        ) + seq![0u8]);
                    }
                    if !symbol_name@.contains('\0') {
                        assert(self.section.data@.subrange(idx as int, idx + terminated(symbol_name@).len())
                            =~= terminated(symbol_name@));
                        lemma_string_at_terminated(self.section.data@, idx as int, symbol_name@);
                    }
                }
                idx as u32
            },
        }
    }

    /// Packs the data, and returns the section header with the data.
    pub fn pack(&mut self) -> (r: (Vec<u8>, Vec<u8>))
        ensures
            final(self)@.symbols == old(self)@.symbols,
            final(self)@.section == (SectionView { data: pack_strings(old(self)@.symbols), ..old(self)@.section }),
            r.0@ == header_bytes(final(self)@.section),
            r.1@ == pack_strings(old(self)@.symbols),
    {
        let d = self.pack_data();
        let data = vstd::slice::slice_to_vec(d);
        (self.section.pack_header(), data)
    }

    /// The string at byte `index`, owned.
    pub fn get_string(&self, index: usize) -> (s: String)
        requires
            index <= self.section.data@.len(),
        ensures
            s@ == string_at(self.section.data@, index as int),
    {
        self.get_str(index).to_owned()
    }
}

/// After adding `name`, its terminated bytes stand at the offset that
/// adding gave.
pub(crate) proof fn lemma_added_occurs(data: Seq<u8>, name: Seq<char>)
    ensures
        occurs_at(add_data(data, name), terminated(name), add_offset(data, name)),
{
    let t = terminated(name);
    lemma_find_from(data, t, 0);
    if find_from(data, t, 0) is None {
        assert((data + t).subrange(data.len() as int, (data.len() + t.len()) as int) =~= t);
    }
}

/// Adding keeps what stands at an offset (adding only appends).
pub(crate) proof fn lemma_add_keeps_occurrence(data: Seq<u8>, name: Seq<char>, needle: Seq<u8>, i: int)
    requires
        occurs_at(data, needle, i),
    ensures
        occurs_at(add_data(data, name), needle, i),
{
    if find_from(data, terminated(name), 0) is None {
        let d2 = data + terminated(name);
        assert(d2.subrange(i, i + needle.len()) =~= data.subrange(i, i + needle.len()));
    }
}

} // verus!

verus! {

/// The pieces joined again, with a zero byte between neighbours.
pub open spec fn join_with_zeros(pieces: Seq<Seq<u8>>) -> Seq<u8>
    decreases pieces.len(),
{
    if pieces.len() == 0 {
        Seq::empty()
    } else if pieces.len() == 1 {
        pieces[0]
    } else {
        join_with_zeros(pieces.drop_last()) + seq![0u8] + pieces.last()
    }
}

/// Every piece is valid UTF-8.
pub open spec fn all_valid_utf8(pieces: Seq<Seq<u8>>) -> bool {
    forall|i: int| 0 <= i < pieces.len() ==> valid_utf8(#[trigger] pieces[i])
}

/// The UTF-8 encodings of `names`.
pub open spec fn encode_all(names: Seq<Seq<char>>) -> Seq<Seq<u8>> {
    names.map_values(|n: Seq<char>| encode_utf8(n))
}

/// No name holds the NUL character.
pub open spec fn no_nul(names: Seq<Seq<char>>) -> bool {
    forall|i: int| 0 <= i < names.len() ==> !(#[trigger] names[i]).contains('\0')
}

proof fn lemma_join_split(b: Seq<u8>)
    ensures
        join_with_zeros(split_at_zeros(b)) == b,
    decreases b.len(),
{
    if b.len() > 0 {
        let b2 = b.drop_last();
        lemma_join_split(b2);
        lemma_split_at_zeros_len(b2);
        let r = split_at_zeros(b2);
        if b.last() == 0 {
            assert(split_at_zeros(b) == r.push(Seq::empty()));
            assert(r.push(Seq::<u8>::empty()).drop_last() =~= r);
            assert(b =~= b2 + seq![0u8] + Seq::<u8>::empty());
        } else {
            let r2 = r.update(r.len() - 1, r.last().push(b.last()));
            assert(split_at_zeros(b) == r2);
            if r.len() == 1 {
                assert(b =~= r[0].push(b.last()));
            } else {
                assert(r2.drop_last() =~= r.drop_last());
                assert(join_with_zeros(r) == join_with_zeros(r.drop_last()) + seq![0u8] + r.last());
                assert(b =~= b2.push(b.last()));
                assert(r2.last() == r.last().push(b.last()));
                assert(join_with_zeros(r2) == join_with_zeros(r2.drop_last()) + seq![0u8] + r2.last());
                assert(b =~= join_with_zeros(r.drop_last()) + seq![0u8] + r.last().push(b.last()));
            }
        }
    }
}

proof fn lemma_pack_decode(pieces: Seq<Seq<u8>>)
    requires
        pieces.len() >= 1,
        all_valid_utf8(pieces),
    ensures
        pack_strings(decode_valid(pieces)) == join_with_zeros(pieces) + seq![0u8],
    decreases pieces.len(),
{
    let p = pieces.drop_last();
    let last = pieces.last();
    assert(valid_utf8(pieces[pieces.len() - 1]));
    vstd::utf8::decode_utf8_encode_utf8(last);
    let d = decode_valid(p).push(decode_utf8(last));
    assert(d.drop_last() =~= decode_valid(p));
    assert(pack_strings(d) == pack_strings(d.drop_last()) + encode_utf8(d.last()) + seq![0u8]);
    assert(d.last() == decode_utf8(last));
    if pieces.len() == 1 {
        assert(p.len() == 0);
        assert(pieces[0] == last);
        assert(pack_strings(d) =~= join_with_zeros(pieces) + seq![0u8]);
    } else {
        assert forall|i: int| 0 <= i < p.len() implies valid_utf8(#[trigger] p[i]) by {
            assert(p[i] == pieces[i]);
        }
        lemma_pack_decode(p);
        assert(pack_strings(d) =~= join_with_zeros(pieces) + seq![0u8]);
    }
}

proof fn lemma_split_append_zero_free(a: Seq<u8>, y: Seq<u8>)
    requires
        !y.contains(0u8),
    ensures
        split_at_zeros(a + y) == split_at_zeros(a).update(
            split_at_zeros(a).len() - 1,
            split_at_zeros(a).last() + y,
        ),
    decreases y.len(),
{
    lemma_split_at_zeros_len(a);
    let r = split_at_zeros(a);
    if y.len() == 0 {
        assert(a + y =~= a);
        assert(r.last() + y =~= r.last());
        assert(r.update(r.len() - 1, r.last() + y) =~= r);
    } else {
        let y2 = y.drop_last();
        assert(!y2.contains(0u8)) by {
            if y2.contains(0u8) {
                let k = choose|k: int| 0 <= k < y2.len() && y2[k] == 0u8;
                assert(y[k] == 0u8);
            }
        }
        lemma_split_append_zero_free(a, y2);
        assert((a + y).drop_last() =~= a + y2);
        assert((a + y).last() == y.last());
        assert(y.last() != 0u8) by {
            assert(y[y.len() - 1] == y.last());
        }
        let s2 = split_at_zeros(a + y2);
        lemma_split_at_zeros_len(a + y2);
        assert(s2.len() == r.len());
        assert(s2.last() == r.last() + y2);
        assert((r.last() + y2).push(y.last()) =~= r.last() + y);
        assert(s2.update(s2.len() - 1, s2.last().push(y.last())) =~= r.update(
            r.len() - 1,
            r.last() + y,
        ));
    }
}

proof fn lemma_split_packed(names: Seq<Seq<char>>, w: Seq<char>)
    requires
        no_nul(names),
        !w.contains('\0'),
    ensures
        split_at_zeros(pack_strings(names) + encode_utf8(w)) == encode_all(names).push(
            encode_utf8(w),
        ),
    decreases names.len(),
{
    crate::text::lemma_encode_utf8_no_zero(w);
    if names.len() == 0 {
        lemma_split_append_zero_free(Seq::empty(), encode_utf8(w));
        assert(Seq::<u8>::empty() + encode_utf8(w) =~= encode_utf8(w));
        assert(split_at_zeros(Seq::<u8>::empty()) == seq![Seq::<u8>::empty()]);
        assert(Seq::<u8>::empty() + encode_utf8(w) =~= encode_utf8(w));
        assert(seq![Seq::<u8>::empty()].update(0, Seq::<u8>::empty() + encode_utf8(w))
            =~= encode_all(names).push(encode_utf8(w)));
    } else {
        let n2 = names.drop_last();
        let last = names.last();
        assert(no_nul(n2)) by {
            assert forall|i: int| 0 <= i < n2.len() implies !(#[trigger] n2[i]).contains('\0') by {
                assert(n2[i] == names[i]);
            }
        }
        assert(!last.contains('\0')) by {
            assert(names[names.len() - 1] == last);
        }
        lemma_split_packed(n2, last);
        let a0 = pack_strings(n2) + encode_utf8(last);
        let a = a0 + seq![0u8];
        assert(a.drop_last() =~= a0);
        assert(split_at_zeros(a) == split_at_zeros(a0).push(Seq::empty()));
        assert(pack_strings(names) == a);
        lemma_split_append_zero_free(a, encode_utf8(w));
        let s = split_at_zeros(a);
        assert(s.last() + encode_utf8(w) =~= encode_utf8(w));
        assert(encode_all(n2).push(encode_utf8(last)) =~= encode_all(names));
        assert(s.update(s.len() - 1, s.last() + encode_utf8(w)) =~= encode_all(names).push(
            encode_utf8(w),
        ));
    }
}

proof fn lemma_decode_encode_all(names: Seq<Seq<char>>)
    ensures
        decode_valid(encode_all(names)) == names,
    decreases names.len(),
{
    if names.len() > 0 {
        let n2 = names.drop_last();
        lemma_decode_encode_all(n2);
        assert(encode_all(names).drop_last() =~= encode_all(n2));
        vstd::utf8::encode_utf8_valid_utf8(names.last());
        vstd::utf8::encode_utf8_decode_utf8(names.last());
        assert(names =~= n2.push(names.last()));
    }
}

/// A table's data that ends with its terminator and whose strings are all
/// valid UTF-8 is exactly what packing the strings read from it gives:
/// `StrTab::new` followed by `pack_data` leaves such data unchanged.
pub proof fn law_pack_of_read_strings(data: Seq<u8>)
    requires
        data.len() == 0 || (data.last() == 0u8 && all_valid_utf8(split_at_zeros(data.drop_last()))),
    ensures
        pack_strings(table_strings(data)) == data,
{
    if data.len() > 0 {
        let b = data.drop_last();
        assert(data.take(data.len() - 1) =~= b);
        lemma_split_at_zeros_len(b);
        lemma_pack_decode(split_at_zeros(b));
        lemma_join_split(b);
        assert(data =~= b + seq![0u8]);
    }
}

/// Reading the strings out of packed data gives the packed strings again
/// where none holds a NUL character: `pack_data` followed by `StrTab::new`
/// on the section gives the same strings.
pub proof fn law_read_of_packed_strings(names: Seq<Seq<char>>)
    requires
        no_nul(names),
    ensures
        table_strings(pack_strings(names)) == names,
{
    if names.len() > 0 {
        let n2 = names.drop_last();
        let last = names.last();
        assert(no_nul(n2)) by {
            assert forall|i: int| 0 <= i < n2.len() implies !(#[trigger] n2[i]).contains('\0') by {
                assert(n2[i] == names[i]);
            }
        }
        assert(!last.contains('\0')) by {
            assert(names[names.len() - 1] == last);
        }
        let d = pack_strings(names);
        let b = pack_strings(n2) + encode_utf8(last);
        assert(d == b + seq![0u8]);
        assert(d.take(d.len() - 1) =~= b);
        lemma_split_packed(n2, last);
        assert(encode_all(n2).push(encode_utf8(last)) =~= encode_all(names));
        lemma_decode_encode_all(names);
    }
}

/// Adding the same string twice: the second addition returns the offset
/// that the first returned and changes nothing.
pub proof fn law_add_symbol_idempotent(data: Seq<u8>, name: Seq<char>)
    requires
        !name.contains('\0'),
    ensures
        add_offset(add_data(data, name), name) == add_offset(data, name),
        add_data(add_data(data, name), name) == add_data(data, name),
{
    let t = terminated(name);
    lemma_find_from(data, t, 0);
    match find_from(data, t, 0) {
        Some(i) => {},
        None => {
            let l = data.len() as int;
            let nd = data + t;
            crate::text::lemma_encode_utf8_no_zero(name);
            let e = encode_utf8(name);
            assert(nd.subrange(l, l + t.len()) =~= t);
            assert forall|p: int| 0 <= p < l implies !occurs_at(nd, t, p) by {
                if occurs_at(nd, t, p) {
                    if p + t.len() <= l {
                        assert(data.subrange(p, p + t.len()) =~= nd.subrange(p, p + t.len()));
                        assert(occurs_at(data, t, p));
                    } else {
                        let q = p + t.len() - 1;
                        assert(nd.subrange(p, p + t.len())[t.len() - 1] == t[t.len() - 1]);
                        assert(nd[q] == 0u8);
                        assert(nd[q] == t[q - l]);
                        assert(t[q - l] == e[q - l]);
                        assert(e.contains(0u8));
                    }
                }
            }
            lemma_find_from_at(nd, t, 0, l);
        },
    }
}

/// With data that holds exactly the table's strings, the offset that
/// `add_symbol` returns still reads back the added string after
/// `pack_data` rebuilds the data from the strings.
pub proof fn law_add_then_pack_reads_back(
    data: Seq<u8>,
    names: Seq<Seq<char>>,
    name: Seq<char>,
)
    requires
        data == pack_strings(names),
        !name.contains('\0'),
    ensures
        ({
            let after = if find_from(data, terminated(name), 0) is Some {
                names
            } else {
                names.push(name)
            };
            &&& pack_strings(after) == add_data(data, name)
            &&& string_at(pack_strings(after), add_offset(data, name)) == name
        }),
{
    let t = terminated(name);
    lemma_find_from(data, t, 0);
    let after = if find_from(data, t, 0) is Some {
        names
    } else {
        names.push(name)
    };
    if find_from(data, t, 0) is None {
        assert(after.drop_last() =~= names);
        assert(pack_strings(after) =~= data + t);
        assert((data + t).subrange(data.len() as int, (data.len() + t.len()) as int) =~= t);
    }
    lemma_string_at_terminated(add_data(data, name), add_offset(data, name), name);
}

} // verus!
