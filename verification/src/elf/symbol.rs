use vstd::prelude::*;
use vstd::bytes::{
    spec_u16_from_le_bytes, spec_u16_to_le_bytes, spec_u32_from_le_bytes, spec_u32_to_le_bytes,
    u16_from_le_bytes, u16_to_le_bytes, u32_from_le_bytes, u32_to_le_bytes,
};
use crate::text::{chars_of, hex, hex_chars, string_of};

verus! {

pub const STB_LOCAL: u8 = 0;
pub const STB_GLOBAL: u8 = 1;
pub const STB_WEAK: u8 = 2;
pub const STT_NOTYPE: u8 = 0;
pub const STT_OBJECT: u8 = 1;
pub const STT_FUNC: u8 = 2;
pub const STT_SECTION: u8 = 3;

/// The size in bytes of one ELF32 symbol table entry.
pub const SYMBOL_ENTRY_SIZE: usize = 16;

/// One ELF32 symbol table entry, with the name that `st_name` refers to in
/// the string table (empty until a caller resolves it).
#[derive(Debug, Default, Clone, PartialEq)]
pub struct Symbol {
    pub st_name: u32,
    pub st_value: u32,
    pub st_size: u32,
    pub st_info: u8,
    pub st_other: u8,
    pub st_shndx: u16,
    pub name: String,
}

/// The mathematical value of a [`Symbol`].
pub struct SymbolView {
    pub st_name: u32,
    pub st_value: u32,
    pub st_size: u32,
    pub st_info: u8,
    pub st_other: u8,
    pub st_shndx: u16,
    pub name: Seq<char>,
}

impl View for Symbol {
    type V = SymbolView;

    open spec fn view(&self) -> SymbolView {
        SymbolView {
            st_name: self.st_name,
            st_value: self.st_value,
            st_size: self.st_size,
            st_info: self.st_info,
            st_other: self.st_other,
            st_shndx: self.st_shndx,
            name: self.name@,
        }
    }
}

/// The views of a sequence of symbols.
pub open spec fn symbol_views(s: Seq<Symbol>) -> Seq<SymbolView> {
    s.map_values(|x: Symbol| x@)
}

/// The six raw fields stored in the first 16 bytes of `data`
/// (layout `<IIIBBH`, little endian).
pub open spec fn spec_unpack(data: Seq<u8>) -> (u32, u32, u32, u8, u8, u16) {
    (
        spec_u32_from_le_bytes(data.subrange(0, 4)),
        spec_u32_from_le_bytes(data.subrange(4, 8)),
        spec_u32_from_le_bytes(data.subrange(8, 12)),
        data[12],
        data[13],
        spec_u16_from_le_bytes(data.subrange(14, 16)),
    )
}

/// The symbol stored in the first 16 bytes of `data`, with an empty name.
pub open spec fn symbol_from_bytes(data: Seq<u8>) -> SymbolView {
    let f = spec_unpack(data);
    SymbolView {
        st_name: f.0,
        st_value: f.1,
        st_size: f.2,
        st_info: f.3,
        st_other: f.4,
        st_shndx: f.5,
        name: Seq::empty(),
    }
}

/// The 16-byte entry that encodes `s`.
pub open spec fn symbol_bytes(s: SymbolView) -> Seq<u8> {
    spec_u32_to_le_bytes(s.st_name) + spec_u32_to_le_bytes(s.st_value) + spec_u32_to_le_bytes(
        s.st_size,
    ) + seq![s.st_info, s.st_other] + spec_u16_to_le_bytes(s.st_shndx)
}

/// The symbols stored in `data`, one per 16-byte entry.
pub open spec fn symbols_from_bytes(data: Seq<u8>) -> Seq<SymbolView> {
    Seq::new(
        data.len() / 16,
        |i: int| symbol_from_bytes(data.subrange(16 * i, 16 * i + 16)),
    )
}

/// The concatenated entries of a sequence of symbols.
pub open spec fn symbols_bytes(s: Seq<SymbolView>) -> Seq<u8>
    decreases s.len(),
{
    if s.len() == 0 {
        Seq::empty()
    } else {
        symbols_bytes(s.drop_last()) + symbol_bytes(s.last())
    }
}

pub open spec fn spec_bind(st_info: u8) -> u8 {
    st_info >> 4
}

pub open spec fn spec_type_id(st_info: u8) -> u8 {
    st_info & 0xf
}

proof fn lemma_symbol_bytes_len(s: SymbolView)
    ensures
        symbol_bytes(s).len() == 16,
{
    vstd::bytes::lemma_auto_spec_u32_to_from_le_bytes();
    vstd::bytes::lemma_auto_spec_u16_to_from_le_bytes();
}

pub proof fn lemma_symbols_bytes_len(s: Seq<SymbolView>)
    ensures
        symbols_bytes(s).len() == 16 * s.len(),
    decreases s.len(),
{
    if s.len() > 0 {
        lemma_symbols_bytes_len(s.drop_last());
        lemma_symbol_bytes_len(s.last());
    }
}

impl Symbol {
    /// A symbol with the given fields and an empty name.
    pub fn new(
        st_name: u32,
        st_value: u32,
        st_size: u32,
        st_info: u8,
        st_other: u8,
        st_shndx: u16,
    ) -> (s: Self)
        ensures
            s@ == (SymbolView {
                st_name,
                st_value,
                st_size,
                st_info,
                st_other,
                st_shndx,
                name: Seq::empty(),
            }),
    {
        Self { st_name, st_value, st_size, st_info, st_other, st_shndx, name: String::new() }
    }

    /// The symbol held in the first 16 bytes of `data`, with an empty name.
    pub fn from_data(data: &[u8]) -> (s: Self)
        requires
            data@.len() >= 16,
        ensures
            s@ == symbol_from_bytes(data@),
    {
        let (st_name, st_value, st_size, st_info, st_other, st_shndx) = Self::unpack(data);
        Self::new(st_name, st_value, st_size, st_info, st_other, st_shndx)
    }

    /// Every symbol of a symbol table's data, one per 16-byte entry.
    pub fn unpack_all(data: &[u8]) -> (v: Vec<Self>)
        requires
            data@.len() % 16 == 0,
        ensures
            symbol_views(v@) == symbols_from_bytes(data@),
    {
        let len = data.len();
        let n = len / 16;
        let mut v: Vec<Self> = Vec::new();
        let mut i: usize = 0;
        while i < n
            invariant
                len == data@.len(),
                n == data@.len() / 16,
                data@.len() % 16 == 0,
                i <= n,
                v@.len() == i,
                forall|j: int|
                    0 <= j < i ==> #[trigger] v@[j]@ == symbol_from_bytes(
                        data@.subrange(16 * j, 16 * j + 16),
                    ),
            decreases n - i,
        {
            assert(16 * i + 16 <= data@.len()) by (nonlinear_arith)
                requires
                    i < n,
                    n == data@.len() / 16,
                    data@.len() % 16 == 0,
            ;
            let chunk = &data[16 * i..16 * i + 16];
            v.push(Self::from_data(chunk));
            i += 1;
        }
        assert(symbol_views(v@) =~= symbols_from_bytes(data@));
        v
    }

    /// The raw fields of the entry in the first 16 bytes of `data`.
    pub fn unpack(data: &[u8]) -> (r: (u32, u32, u32, u8, u8, u16))
        requires
            data@.len() >= 16,
        ensures
            r == spec_unpack(data@),
    {
        let st_name = u32_from_le_bytes(&data[0..4]);
        let st_value = u32_from_le_bytes(&data[4..8]);
        let st_size = u32_from_le_bytes(&data[8..12]);
        let st_info = data[12];
        let st_other = data[13];
        let st_shndx = u16_from_le_bytes(&data[14..16]);
        (st_name, st_value, st_size, st_info, st_other, st_shndx)
    }

    /// The 16-byte symbol table entry of this symbol.
    pub fn pack(&self) -> (b: Vec<u8>)
        ensures
            b@ == symbol_bytes(self@),
            b@.len() == 16,
    {
        let mut buf: Vec<u8> = Vec::new();
        let mut a = u32_to_le_bytes(self.st_name);
        buf.append(&mut a);
        let mut b = u32_to_le_bytes(self.st_value);
        buf.append(&mut b);
        let mut c = u32_to_le_bytes(self.st_size);
        buf.append(&mut c);
        buf.push(self.st_info);
        buf.push(self.st_other);
        let mut d = u16_to_le_bytes(self.st_shndx);
        buf.append(&mut d);
        proof {
            lemma_symbol_bytes_len(self@);
            assert(buf@ =~= symbol_bytes(self@));
        }
        buf
    }

    /// The binding (high nibble of `st_info`).
    pub fn bind(&self) -> (b: u8)
        ensures
            b == spec_bind(self.st_info),
    {
        self.st_info >> 4
    }

    /// The symbol type (low nibble of `st_info`).
    pub fn type_id(&self) -> (t: u8)
        ensures
            t == spec_type_id(self.st_info),
    {
        self.st_info & 0xf
    }

    /// A one-line description: the name (`NO_NAME` where it is empty) and
    /// the fields in upper-case hexadecimal (see `symbol_text`).
    pub fn to_string(&self) -> (r: String)
        ensures
            r@ == symbol_text(self@),
    {
        let mut v: Vec<char> = if self.name.as_str().is_empty() {
            chars_of("NO_NAME")
        } else {
            chars_of(self.name.as_str())
        };
        push_chars(&mut v, " st_name: 0x");
        let mut h = hex_chars(self.st_name);
        v.append(&mut h);
        push_chars(&mut v, ", st_info: 0x");
        let mut h = hex_chars(self.st_info as u32);
        v.append(&mut h);
        push_chars(&mut v, ", st_other: 0x");
        let mut h = hex_chars(self.st_other as u32);
        v.append(&mut h);
        push_chars(&mut v, ", st_shndx: 0x");
        let mut h = hex_chars(self.st_shndx as u32);
        v.append(&mut h);
        push_chars(&mut v, ", st_value: 0x");
        let mut h = hex_chars(self.st_value);
        v.append(&mut h);
        push_chars(&mut v, ", st_size: 0x");
        let mut h = hex_chars(self.st_size);
        v.append(&mut h);
        let r = string_of(v.as_slice());
        assert(r@ =~= symbol_text(self@));
        r
    }

    /// A copy of this symbol.
    pub fn duplicate(&self) -> (s: Self)
        ensures
            s@ == self@,
    {
        Symbol {
            st_name: self.st_name,
            st_value: self.st_value,
            st_size: self.st_size,
            st_info: self.st_info,
            st_other: self.st_other,
            st_shndx: self.st_shndx,
            name: self.name.clone(),
        }
    }
}

/// Appends the characters of `s` to `v`.
fn push_chars(v: &mut Vec<char>, s: &str)
    ensures
        final(v)@ == old(v)@ + s@,
{
    let mut t = chars_of(s);
    v.append(&mut t);
}

/// The one-line description of a symbol: its name (`NO_NAME` where it is
/// empty), then its fields in upper-case hexadecimal.
pub open spec fn symbol_text(s: SymbolView) -> Seq<char> {
    (if s.name.len() == 0 {
        "NO_NAME"@
    } else {
        s.name
    }) + " st_name: 0x"@ + hex(s.st_name as nat) + ", st_info: 0x"@ + hex(s.st_info as nat)
        + ", st_other: 0x"@ + hex(s.st_other as nat) + ", st_shndx: 0x"@ + hex(s.st_shndx as nat)
        + ", st_value: 0x"@ + hex(s.st_value as nat) + ", st_size: 0x"@ + hex(s.st_size as nat)
}

/// Packing a symbol and reading the entry back gives its fields again.
pub proof fn law_symbol_pack_unpack(s: SymbolView)
    ensures
        symbol_bytes(s).len() == 16,
        spec_unpack(symbol_bytes(s)) == (
            s.st_name,
            s.st_value,
            s.st_size,
            s.st_info,
            s.st_other,
            s.st_shndx,
        ),
{
    vstd::bytes::lemma_auto_spec_u32_to_from_le_bytes();
    vstd::bytes::lemma_auto_spec_u16_to_from_le_bytes();
    let b = symbol_bytes(s);
    assert(b.subrange(0, 4) =~= spec_u32_to_le_bytes(s.st_name));
    assert(b.subrange(4, 8) =~= spec_u32_to_le_bytes(s.st_value));
    assert(b.subrange(8, 12) =~= spec_u32_to_le_bytes(s.st_size));
    assert(b.subrange(14, 16) =~= spec_u16_to_le_bytes(s.st_shndx));
}

/// Reading a 16-byte entry and packing the symbol gives the same bytes.
pub proof fn law_symbol_unpack_pack(data: Seq<u8>)
    requires
        data.len() == 16,
    ensures
        symbol_bytes(symbol_from_bytes(data)) == data,
{
    vstd::bytes::lemma_auto_spec_u32_to_from_le_bytes();
    vstd::bytes::lemma_auto_spec_u16_to_from_le_bytes();
    let s = symbol_from_bytes(data);
    assert(spec_u32_to_le_bytes(s.st_name) == data.subrange(0, 4));
    assert(spec_u32_to_le_bytes(s.st_value) == data.subrange(4, 8));
    assert(spec_u32_to_le_bytes(s.st_size) == data.subrange(8, 12));
    assert(spec_u16_to_le_bytes(s.st_shndx) == data.subrange(14, 16));
    assert(symbol_bytes(s) =~= data);
}

/// Splitting a symbol table's data into entries and packing them all again
/// gives the same bytes.
pub proof fn law_unpack_all_pack_all(data: Seq<u8>)
    requires
        data.len() % 16 == 0,
    ensures
        symbols_bytes(symbols_from_bytes(data)) == data,
    decreases data.len(),
{
    if data.len() > 0 {
        let n = data.len() - 16;
        let front = data.subrange(0, n);
        assert(front.len() % 16 == 0);
        law_unpack_all_pack_all(front);
        let s = symbols_from_bytes(data);
        assert(s.drop_last() =~= symbols_from_bytes(front)) by {
            assert forall|i: int| 0 <= i < s.len() - 1 implies #[trigger] s.drop_last()[i]
                == symbols_from_bytes(front)[i] by {
                assert(data.subrange(16 * i, 16 * i + 16) =~= front.subrange(16 * i, 16 * i + 16))
                    by (nonlinear_arith)
                    requires
                        0 <= i < s.len() - 1,
                        s.len() == data.len() / 16,
                        n == data.len() - 16,
                        front == data.subrange(0, n),
                        data.len() % 16 == 0,
                ;
            }
        }
        assert(s.last() == symbol_from_bytes(data.subrange(n, n + 16)));
        law_symbol_unpack_pack(data.subrange(n, n + 16));
        assert(data =~= front + data.subrange(n, n + 16));
    }
}

/// The binding and the type together make up `st_info`.
pub proof fn law_bind_type_id(st_info: u8)
    ensures
        st_info == ((spec_bind(st_info) << 4u8) | spec_type_id(st_info)),
        spec_bind(st_info) < 16,
        spec_type_id(st_info) < 16,
{
    assert(st_info == (((st_info >> 4u8) << 4u8) | (st_info & 0xfu8))) by (bit_vector);
    assert((st_info >> 4u8) < 16u8) by (bit_vector);
    assert((st_info & 0xfu8) < 16u8) by (bit_vector);
}

} // verus!
