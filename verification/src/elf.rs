//! What a loader reads of an ELF image, through the `xmas_elf` parser.
//!
//! When the parser accepts an image and where it finds a program header is stated below;
//! the fields it reads are named and taken as given. The functions that read them are
//! trusted, and everything built from them is verified.
use vstd::prelude::*;
use xmas_elf::ElfFile;
use xmas_elf::header::HeaderPt2;
use xmas_elf::program::Type;

verus! {

/// The fields of the ELF header that a loader reads.
pub struct ElfHeaderInfo {
    pub magic: [u8; 4],
    pub is_64: bool,
    pub ph_count: u16,
    pub ph_offset: u64,
    pub ph_entry_size: u16,
    pub entry_point: u64,
}

/// The type of a segment, as `xmas_elf::program::Type` names it.
#[derive(Clone, Copy, PartialEq, Eq, Structural, Debug)]
pub enum SegmentType {
    Null,
    Load,
    Dynamic,
    Interp,
    Note,
    ShLib,
    Phdr,
    Tls,
    GnuRelro,
    OsSpecific(u32),
    ProcessorSpecific(u32),
}

/// The fields of a program header that a loader reads, besides its type.
pub struct ProgramHeaderInfo {
    pub virtual_addr: u64,
    pub mem_size: u64,
    pub offset: u64,
    pub file_size: u64,
    pub flags: u32,
}

/// Whether `xmas_elf` reads an ELF header from `data` (`ElfFile::new` gives `Ok`): the
/// image starts with the ELF magic and its class byte names 32 or 64 bits.
pub open spec fn elf_parses(data: Seq<u8>) -> bool {
    &&& data.len() >= 16
    &&& data.subrange(0, 4) == elf_magic()
    &&& (data[4] == 1 || data[4] == 2)
}

/// The length of the ELF header of `data`: 64 bytes for a 64-bit image, 52 for a 32-bit one.
pub open spec fn elf_header_len(data: Seq<u8>) -> int {
    if data[4] == 2 { 64 } else { 52 }
}

/// `xmas_elf` reads the whole ELF header of `data`: it parses, and `data` holds the header.
pub open spec fn elf_header_reads(data: Seq<u8>) -> bool {
    elf_parses(data) && data.len() >= elf_header_len(data)
}

/// The bytes of `words` in memory order, as `bytemuck::cast_slice` hands them out; which
/// bytes a word gives depends on the target's byte order.
pub uninterp spec fn words_bytes(words: Seq<u64>) -> Seq<u8>;

/// A copy of an ELF image kept in 64-bit words, so that the parser, which reads fields of up
/// to 8 bytes in place, finds them aligned. Its bytes are the first `len` bytes of the words.
pub struct ElfImage {
    words: Vec<u64>,
    len: usize,
}

impl View for ElfImage {
    type V = Seq<u8>;

    closed spec fn view(&self) -> Seq<u8> {
        words_bytes(self.words@).subrange(0, self.len as int)
    }
}

impl ElfImage {
    /// The words hold the bytes.
    #[verifier::type_invariant]
    spec fn fits(self) -> bool {
        self.len <= words_bytes(self.words@).len()
    }

    /// A copy of `data`.
    pub fn new(data: &[u8]) -> (img: ElfImage)
        ensures
            img@ == data@,
    {
        let n = data.len();
        let n_words = n / 8 + 1;
        assert(n <= n_words * 8) by (nonlinear_arith)
            requires
                n_words == n / 8 + 1,
        ;
        let words = aligned_words(data, n_words);
        ElfImage { words, len: n }
    }
}

/// `n_words` 64-bit words whose bytes start with those of `data`, the rest zero:
/// `bytemuck::cast_slice_mut` gives the memory of the words as bytes, and `data` is copied
/// there.
#[verifier::external_body]
fn aligned_words(data: &[u8], n_words: usize) -> (words: Vec<u64>)
    requires
        data@.len() <= n_words * 8,
    ensures
        words@.len() == n_words,
        words_bytes(words@).len() == n_words * 8,
        words_bytes(words@).subrange(0, data@.len() as int) == data@,
{
    let mut words = vec![0u64; n_words];
    bytemuck::cast_slice_mut::<u64, u8>(&mut words)[..data.len()].copy_from_slice(data);
    words
}

/// Whether the class byte of `data` names a 64-bit image.
pub open spec fn elf_is_64(data: Seq<u8>) -> bool {
    data[4] == 2
}

/// The number of program headers the header of `data` announces.
pub uninterp spec fn elf_ph_count(data: Seq<u8>) -> u16;

/// Where in `data` the program header table starts, as its header says.
pub uninterp spec fn elf_ph_table_offset(data: Seq<u8>) -> u64;

/// The size of one program header, as the header of `data` says.
pub uninterp spec fn elf_ph_entry_size(data: Seq<u8>) -> u16;

/// The entry point the header of `data` gives.
pub uninterp spec fn elf_entry_point(data: Seq<u8>) -> u64;

/// Whether `xmas_elf` finds program header `i` of `data` (`program_header` gives `Ok`):
/// `i` is below the count and the header names a table offset and an entry size.
pub open spec fn elf_ph_ok(data: Seq<u8>, i: u16) -> bool {
    &&& i < elf_ph_count(data)
    &&& elf_ph_table_offset(data) > 0
    &&& elf_ph_entry_size(data) > 0
}

/// Program header `i` of `data` lies inside `data`, is large enough for the program
/// header layout of its class, and starts at an offset aligned for that layout's fields
/// (8 bytes for a 64-bit image, 4 for a 32-bit one).
pub open spec fn ph_entry_in_bounds(data: Seq<u8>, i: u16) -> bool {
    &&& elf_ph_table_offset(data) + (i + 1) * elf_ph_entry_size(data) <= data.len()
    &&& elf_ph_entry_size(data) >= (if elf_is_64(data) { 56int } else { 32int })
    &&& (elf_ph_table_offset(data) + i * elf_ph_entry_size(data)) % (if elf_is_64(data) { 8int } else { 4int }) == 0
}

/// The type of segment `i` of `data`; `None` when its type field holds no valid type.
pub uninterp spec fn elf_ph_type(data: Seq<u8>, i: u16) -> Option<SegmentType>;

/// The virtual address of segment `i` of `data`.
pub uninterp spec fn elf_ph_vaddr(data: Seq<u8>, i: u16) -> u64;

/// The size in memory of segment `i` of `data`.
pub uninterp spec fn elf_ph_mem_size(data: Seq<u8>, i: u16) -> u64;

/// Where in `data` the bytes of segment `i` start.
pub uninterp spec fn elf_ph_offset(data: Seq<u8>, i: u16) -> u64;

/// How many bytes of segment `i` `data` holds.
pub uninterp spec fn elf_ph_file_size(data: Seq<u8>, i: u16) -> u64;

/// The flag bits (`X = 1`, `W = 2`, `R = 4`) of segment `i` of `data`.
pub uninterp spec fn elf_ph_flags(data: Seq<u8>, i: u16) -> u32;

/// The four bytes every ELF image starts with.
pub open spec fn elf_magic() -> Seq<u8> {
    seq![0x7fu8, 0x45u8, 0x4cu8, 0x46u8]
}

/// Reads the ELF header of `img` with `xmas_elf::ElfFile::new` and its `header` fields
/// `pt1.magic`, the class of `pt2`, and `pt2.ph_count()`, `ph_offset()`, `ph_entry_size()`
/// and `entry_point()`, handing the parser the bytes of `img`, `words_bytes` of its words
/// through `bytemuck::cast_slice`, which lie at an address aligned for every read. `ElfFile::new`
/// reads the first 16 bytes and fails unless they start with the ELF magic and name a known
/// class; it then reads the rest of the header, which needs the image to hold it. The fields
/// are read in the machine's byte order.
#[verifier::external_body]
pub(crate) fn read_elf_header(img: &ElfImage) -> (h: Option<ElfHeaderInfo>)
    requires
        elf_parses(img@) ==> img@.len() >= elf_header_len(img@),
    ensures
        h.is_some() == elf_parses(img@),
        h matches Some(h) ==> {
            &&& h.magic@ == img@.subrange(0, 4)
            &&& h.is_64 == elf_is_64(img@)
            &&& h.ph_count == elf_ph_count(img@)
            &&& h.ph_offset == elf_ph_table_offset(img@)
            &&& h.ph_entry_size == elf_ph_entry_size(img@)
            &&& h.entry_point == elf_entry_point(img@)
        },
{
    let image = &bytemuck::cast_slice::<u64, u8>(&img.words)[..img.len];
    match ElfFile::new(image) {
        Ok(elf) => Some(ElfHeaderInfo {
            magic: elf.header.pt1.magic,
            is_64: matches!(elf.header.pt2, HeaderPt2::Header64(_)),
            ph_count: elf.header.pt2.ph_count(),
            ph_offset: elf.header.pt2.ph_offset(),
            ph_entry_size: elf.header.pt2.ph_entry_size(),
            entry_point: elf.header.pt2.entry_point(),
        }),
        Err(_) => None,
    }
}

/// Reads program header `i` of `img` with `xmas_elf::ElfFile::program_header`, and its
/// `virtual_addr`, `mem_size`, `offset`, `file_size` and `flags`, in the machine's byte
/// order, from the aligned bytes of `img`. `program_header` fails unless `elf_ph_ok`; it
/// then slices the header out of the image, which panics unless the header lies inside it,
/// holds the fields of its class and starts at an offset aligned for them.
#[verifier::external_body]
pub(crate) fn read_program_header(img: &ElfImage, i: u16) -> (ph: Option<ProgramHeaderInfo>)
    requires
        elf_header_reads(img@),
        elf_ph_ok(img@, i) ==> ph_entry_in_bounds(img@, i),
    ensures
        ph.is_some() == elf_ph_ok(img@, i),
        ph matches Some(p) ==> p.virtual_addr == elf_ph_vaddr(img@, i)
            && p.mem_size == elf_ph_mem_size(img@, i) && p.offset == elf_ph_offset(img@, i)
            && p.file_size == elf_ph_file_size(img@, i) && p.flags == elf_ph_flags(img@, i),
{
    let image = &bytemuck::cast_slice::<u64, u8>(&img.words)[..img.len];
    match ElfFile::new(image).unwrap().program_header(i) {
        Ok(ph) => Some(ProgramHeaderInfo {
            virtual_addr: ph.virtual_addr(),
            mem_size: ph.mem_size(),
            offset: ph.offset(),
            file_size: ph.file_size(),
            flags: ph.flags().0,
        }),
        Err(_) => None,
    }
}

/// Reads the type of program header `i` of `img` with `xmas_elf::ElfFile::program_header`
/// and `ProgramHeader::get_type`, which fails on a type field that names no valid type.
#[verifier::external_body]
pub(crate) fn read_segment_type(img: &ElfImage, i: u16) -> (t: Option<SegmentType>)
    requires
        elf_header_reads(img@),
        elf_ph_ok(img@, i),
        ph_entry_in_bounds(img@, i),
    ensures
        t == elf_ph_type(img@, i),
{
    let image = &bytemuck::cast_slice::<u64, u8>(&img.words)[..img.len];
    let t = ElfFile::new(image).unwrap().program_header(i).unwrap().get_type().ok()?;
    Some(match t {
        Type::Null => SegmentType::Null,
        Type::Load => SegmentType::Load,
        Type::Dynamic => SegmentType::Dynamic,
        Type::Interp => SegmentType::Interp,
        Type::Note => SegmentType::Note,
        Type::ShLib => SegmentType::ShLib,
        Type::Phdr => SegmentType::Phdr,
        Type::Tls => SegmentType::Tls,
        Type::GnuRelro => SegmentType::GnuRelro,
        Type::OsSpecific(v) => SegmentType::OsSpecific(v),
        Type::ProcessorSpecific(v) => SegmentType::ProcessorSpecific(v),
    })
}

/// Whether flag bits grant reading (`xmas_elf::program::Flags::is_read`).
pub fn flags_is_read(flags: u32) -> (b: bool)
    ensures
        b == (flags & 4 == 4),
{
    flags & 4 == 4
}

/// Whether flag bits grant writing (`xmas_elf::program::Flags::is_write`).
pub fn flags_is_write(flags: u32) -> (b: bool)
    ensures
        b == (flags & 2 == 2),
{
    flags & 2 == 2
}

/// Whether flag bits grant execution (`xmas_elf::program::Flags::is_execute`).
pub fn flags_is_execute(flags: u32) -> (b: bool)
    ensures
        b == (flags & 1 == 1),
{
    flags & 1 == 1
}

} // verus!
