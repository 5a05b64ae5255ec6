use vstd::prelude::*;
use vstd::bytes::{spec_u32_from_le_bytes, spec_u32_to_le_bytes, u32_from_le_bytes, u32_to_le_bytes};

verus! {

pub const SHT_NULL: u32 = 0;
pub const SHT_PROGBITS: u32 = 1;
pub const SHT_SYMTAB: u32 = 2;
pub const SHT_STRTAB: u32 = 3;
pub const SHT_NOBITS: u32 = 8;
pub const SHT_REL: u32 = 9;

/// One section of an ELF32 object: its header fields, its contents and the
/// name that `sh_name` refers to in the section-name string table.
#[derive(Debug, Clone, Default, PartialEq)]
pub struct Section {
    pub sh_name: u32,
    pub sh_type: u32,
    pub sh_flags: u32,
    pub sh_addr: u32,
    pub sh_offset: u32,
    pub sh_size: u32,
    pub sh_link: u32,
    pub sh_info: u32,
    pub sh_addralign: u32,
    pub sh_entsize: u32,
    pub data: Vec<u8>,
    pub name: String,
}

/// The mathematical value of a [`Section`].
pub struct SectionView {
    pub sh_name: u32,
    pub sh_type: u32,
    pub sh_flags: u32,
    pub sh_addr: u32,
    pub sh_offset: u32,
    pub sh_size: u32,
    pub sh_link: u32,
    pub sh_info: u32,
    pub sh_addralign: u32,
    pub sh_entsize: u32,
    pub data: Seq<u8>,
    pub name: Seq<char>,
}

impl View for Section {
    type V = SectionView;

    open spec fn view(&self) -> SectionView {
        SectionView {
            sh_name: self.sh_name,
            sh_type: self.sh_type,
            sh_flags: self.sh_flags,
            sh_addr: self.sh_addr,
            sh_offset: self.sh_offset,
            sh_size: self.sh_size,
            sh_link: self.sh_link,
            sh_info: self.sh_info,
            sh_addralign: self.sh_addralign,
            sh_entsize: self.sh_entsize,
            data: self.data@,
            name: self.name@,
        }
    }
}

/// The 40-byte little-endian ELF32 section header of `s`.
pub open spec fn header_bytes(s: SectionView) -> Seq<u8> {
    spec_u32_to_le_bytes(s.sh_name) + spec_u32_to_le_bytes(s.sh_type) + spec_u32_to_le_bytes(
        s.sh_flags,
    ) + spec_u32_to_le_bytes(s.sh_addr) + spec_u32_to_le_bytes(s.sh_offset)
        + spec_u32_to_le_bytes(s.sh_size) + spec_u32_to_le_bytes(s.sh_link)
        + spec_u32_to_le_bytes(s.sh_info) + spec_u32_to_le_bytes(s.sh_addralign)
        + spec_u32_to_le_bytes(s.sh_entsize)
}

fn append_u32(buf: &mut Vec<u8>, x: u32)
    ensures
        final(buf)@ == old(buf)@ + spec_u32_to_le_bytes(x),
{
    let mut b = u32_to_le_bytes(x);
    buf.append(&mut b);
}

impl Section {
    /// A section with the given header fields and contents, and an empty name.
    pub fn new(
        sh_name: u32,
        sh_type: u32,
        sh_flags: u32,
        sh_addr: u32,
        sh_offset: u32,
        sh_size: u32,
        sh_link: u32,
        sh_info: u32,
        sh_addralign: u32,
        sh_entsize: u32,
        data: Vec<u8>,
    ) -> (s: Section)
        ensures
            s@ == (SectionView {
                sh_name,
                sh_type,
                sh_flags,
                sh_addr,
                sh_offset,
                sh_size,
                sh_link,
                sh_info,
                sh_addralign,
                sh_entsize,
                data: data@,
                name: Seq::empty(),
            }),
    {
        Section {
            sh_name,
            sh_type,
            sh_flags,
            sh_addr,
            sh_offset,
            sh_size,
            sh_link,
            sh_info,
            sh_addralign,
            sh_entsize,
            data,
            name: String::new(),
        }
    }

    /// A copy of this section.
    pub fn duplicate(&self) -> (s: Section)
        ensures
            s@ == self@,
    {
        Section {
            sh_name: self.sh_name,
            sh_type: self.sh_type,
            sh_flags: self.sh_flags,
            sh_addr: self.sh_addr,
            sh_offset: self.sh_offset,
            sh_size: self.sh_size,
            sh_link: self.sh_link,
            sh_info: self.sh_info,
            sh_addralign: self.sh_addralign,
            sh_entsize: self.sh_entsize,
            data: self.data.clone(),
            name: self.name.clone(),
        }
    }

    /// The section's 40-byte header in ELF32 little-endian layout.
    pub fn pack_header(&self) -> (b: Vec<u8>)
        ensures
            b@ == header_bytes(self@),
            b@.len() == 40,
    {
        let mut buf: Vec<u8> = Vec::new();
        append_u32(&mut buf, self.sh_name);
        append_u32(&mut buf, self.sh_type);
        append_u32(&mut buf, self.sh_flags);
        append_u32(&mut buf, self.sh_addr);
        append_u32(&mut buf, self.sh_offset);
        append_u32(&mut buf, self.sh_size);
        append_u32(&mut buf, self.sh_link);
        append_u32(&mut buf, self.sh_info);
        append_u32(&mut buf, self.sh_addralign);
        append_u32(&mut buf, self.sh_entsize);
        proof {
            vstd::bytes::lemma_auto_spec_u32_to_from_le_bytes();
            assert(buf@ =~= header_bytes(self@));
        }
        buf
    }
}


/// One REL relocation entry (`r_offset`, `r_info`), with the name of the
/// symbol it refers to where a caller has resolved it.
#[derive(Debug, Clone, Default, PartialEq)]
pub struct Relocation {
    pub r_offset: u32,
    pub r_info: u32,
    pub symbol: String,
}

/// The mathematical value of a [`Relocation`].
pub struct RelocationView {
    pub r_offset: u32,
    pub r_info: u32,
    pub symbol: Seq<char>,
}

impl View for Relocation {
    type V = RelocationView;

    open spec fn view(&self) -> RelocationView {
        RelocationView { r_offset: self.r_offset, r_info: self.r_info, symbol: self.symbol@ }
    }
}

/// The views of a sequence of relocations.
pub open spec fn relocation_views(s: Seq<Relocation>) -> Seq<RelocationView> {
    s.map_values(|r: Relocation| r@)
}

/// The 8-byte entry that encodes a relocation.
pub open spec fn relocation_bytes(r: RelocationView) -> Seq<u8> {
    spec_u32_to_le_bytes(r.r_offset) + spec_u32_to_le_bytes(r.r_info)
}

/// The relocation stored in the first 8 bytes of `data`, with no symbol name.
pub open spec fn relocation_from_bytes(data: Seq<u8>) -> RelocationView {
    RelocationView {
        r_offset: spec_u32_from_le_bytes(data.subrange(0, 4)),
        r_info: spec_u32_from_le_bytes(data.subrange(4, 8)),
        symbol: Seq::empty(),
    }
}

/// The relocations stored in `data`, one per 8-byte entry.
pub open spec fn relocations_from_bytes(data: Seq<u8>) -> Seq<RelocationView> {
    Seq::new(data.len() / 8, |i: int| relocation_from_bytes(data.subrange(8 * i, 8 * i + 8)))
}

/// The concatenated entries of a sequence of relocations.
pub open spec fn relocations_bytes(s: Seq<RelocationView>) -> Seq<u8>
    decreases s.len(),
{
    if s.len() == 0 {
        Seq::empty()
    } else {
        relocations_bytes(s.drop_last()) + relocation_bytes(s.last())
    }
}

/// `r_info` with its symbol index replaced by `index` and its type kept.
pub open spec fn with_symbol_index(r_info: u32, index: u32) -> u32 {
    (index << 8u32) | (r_info & 0xffu32)
}

impl Relocation {
    /// The index of the symbol this relocation refers to.
    pub fn symbol_index(&self) -> (i: usize)
        ensures
            i == (self.r_info >> 8u32) as usize,
    {
        (self.r_info >> 8) as usize
    }

    /// The relocation type.
    pub fn type_id(&self) -> (t: u32)
        ensures
            t == self.r_info & 0xffu32,
    {
        self.r_info & 0xff
    }

    /// Points the relocation at symbol `index`, keeping its type.
    pub fn set_symbol_index(&mut self, index: u32)
        ensures
            final(self).r_info == with_symbol_index(old(self).r_info, index),
            final(self).r_offset == old(self).r_offset,
            final(self).symbol@ == old(self).symbol@,
    {
        self.r_info = (index << 8) | (self.r_info & 0xff);
    }

    /// The 8-byte entry of this relocation.
    pub fn pack(&self) -> (b: Vec<u8>)
        ensures
            b@ == relocation_bytes(self@),
            b@.len() == 8,
    {
        let mut buf: Vec<u8> = Vec::new();
        append_u32(&mut buf, self.r_offset);
        append_u32(&mut buf, self.r_info);
        proof {
            vstd::bytes::lemma_auto_spec_u32_to_from_le_bytes();
        }
        buf
    }

    /// The relocation in the first 8 bytes of `data`.
    pub fn unpack(data: &[u8]) -> (r: Self)
        requires
            data@.len() >= 8,
        ensures
            r@ == relocation_from_bytes(data@),
    {
        Relocation {
            r_offset: u32_from_le_bytes(&data[0..4]),
            r_info: u32_from_le_bytes(&data[4..8]),
            symbol: String::new(),
        }
    }

    /// Every relocation of a REL section's data, one per 8-byte entry.
    pub fn unpack_all(data: &[u8]) -> (v: Vec<Self>)
        requires
            data@.len() % 8 == 0,
        ensures
            relocation_views(v@) == relocations_from_bytes(data@),
    {
        let len = data.len();
        let n = len / 8;
        let mut v: Vec<Self> = Vec::new();
        let mut i: usize = 0;
        while i < n
            invariant
                len == data@.len(),
                n == data@.len() / 8,
                data@.len() % 8 == 0,
                i <= n,
                v@.len() == i,
                forall|j: int|
                    0 <= j < i ==> #[trigger] v@[j]@ == relocation_from_bytes(
                        data@.subrange(8 * j, 8 * j + 8),
                    ),
            decreases n - i,
        {
            assert(8 * i + 8 <= data@.len()) by (nonlinear_arith)
                requires
                    i < n,
                    n == data@.len() / 8,
                    data@.len() % 8 == 0,
            ;
            v.push(Self::unpack(&data[8 * i..8 * i + 8]));
            i += 1;
        }
        assert(relocation_views(v@) =~= relocations_from_bytes(data@));
        v
    }

    /// A copy of this relocation.
    pub fn duplicate(&self) -> (r: Self)
        ensures
            r@ == self@,
    {
        Relocation { r_offset: self.r_offset, r_info: self.r_info, symbol: self.symbol.clone() }
    }
}

/// The entries of a sequence of relocations.
pub fn pack_relocations(relocations: &Vec<Relocation>) -> (b: Vec<u8>)
    ensures
        b@ == relocations_bytes(relocation_views(relocations@)),
{
    let mut buf: Vec<u8> = Vec::new();
    let n = relocations.len();
    let mut i: usize = 0;
    while i < n
        invariant
            n == relocations@.len(),
            i <= n,
            buf@ == relocations_bytes(relocation_views(relocations@).take(i as int)),
        decreases n - i,
    {
        let mut b = relocations[i].pack();
        buf.append(&mut b);
        proof {
            let rv = relocation_views(relocations@);
            assert(rv.take(i + 1).drop_last() =~= rv.take(i as int));
        }
        i += 1;
    }
    assert(relocation_views(relocations@).take(n as int) =~= relocation_views(relocations@));
    buf
}

/// A REL section with its relocations.
#[derive(Debug, Clone, Default, PartialEq)]
pub struct RelocationRecord {
    pub section: Section,
    pub relocations: Vec<Relocation>,
}

impl RelocationRecord {
    /// Reads the relocations out of a REL section.
    pub fn new(section: Section) -> (r: Self)
        requires
            section.data@.len() % 8 == 0,
        ensures
            r.section@ == section@,
            relocation_views(r.relocations@) == relocations_from_bytes(section.data@),
    {
        let relocations = Relocation::unpack_all(section.data.as_slice());
        RelocationRecord { section, relocations }
    }

    /// Writes the relocations into the section's data.
    pub fn pack_data(&mut self)
        ensures
            final(self).section@ == (SectionView {
                data: relocations_bytes(relocation_views(old(self).relocations@)),
                ..old(self).section@
            }),
            final(self).relocations@ == old(self).relocations@,
    {
        self.section.data = pack_relocations(&self.relocations);
    }

    /// Writes the relocations into the section's data and sets `sh_size`
    /// to its length.
    pub fn pack(&mut self)
        ensures
            final(self).section@ == (SectionView {
                data: relocations_bytes(relocation_views(old(self).relocations@)),
                sh_size: relocations_bytes(relocation_views(old(self).relocations@)).len() as u32,
                ..old(self).section@
            }),
            final(self).relocations@ == old(self).relocations@,
    {
        self.pack_data();
        self.section.sh_size = self.section.data.len() as u32;
    }
}

/// Packing a relocation and reading the entry back gives its fields again.
pub proof fn law_relocation_pack_unpack(r: RelocationView)
    ensures
        relocation_bytes(r).len() == 8,
        relocation_from_bytes(relocation_bytes(r)).r_offset == r.r_offset,
        relocation_from_bytes(relocation_bytes(r)).r_info == r.r_info,
{
    vstd::bytes::lemma_auto_spec_u32_to_from_le_bytes();
    let b = relocation_bytes(r);
    assert(b.subrange(0, 4) =~= spec_u32_to_le_bytes(r.r_offset));
    assert(b.subrange(4, 8) =~= spec_u32_to_le_bytes(r.r_info));
}

/// Setting the symbol index keeps the relocation type, and the index reads
/// back where it fits in 24 bits.
pub proof fn law_set_symbol_index(r_info: u32, index: u32)
    ensures
        with_symbol_index(r_info, index) & 0xffu32 == r_info & 0xffu32,
        index < 0x100_0000 ==> with_symbol_index(r_info, index) >> 8u32 == index,
{
    assert(((index << 8u32) | (r_info & 0xffu32)) & 0xffu32 == r_info & 0xffu32) by (bit_vector);
    assert(index < 0x100_0000 ==> ((index << 8u32) | (r_info & 0xffu32)) >> 8u32 == index)
        by (bit_vector);
}

} // verus!
