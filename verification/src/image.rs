//! A read-only view of a 64-bit PE file: its header records, its section
//! table, and the translation of virtual addresses to file offsets. Pelite
//! checks the headers and translates the addresses, on a copy of the bytes
//! that lies where pelite can refer to every record; the records and the
//! bytes of the sections are read from the file at the offsets that the
//! headers give.

use crate::bytes::{le_half, le_word, read_le_half, read_le_word};
use crate::error::UnpackError;
use pelite::pe64::Pe;
use vstd::prelude::*;
use vstd::slice::{slice_subrange, slice_to_vec};

verus! {

/// `pelite::Error`: why pelite refused. Every one of them becomes `Format`.
#[verifier::external_type_specification]
#[verifier::external_body]
pub struct ExPeError(pelite::Error);

/// Size of the DOS header record.
pub const DOS_HEADER_SIZE: usize = 64;

/// Size of the NT headers record: signature, file header and the fixed part
/// of the 64-bit optional header.
pub const NT_HEADERS_SIZE: usize = 136;

/// Size of one entry of the data directory.
pub const DATA_DIRECTORY_SIZE: usize = 8;

/// Size of one record of the section table.
pub const SECTION_HEADER_SIZE: usize = 40;

/// Offset of the NT headers, as the DOS header gives it.
pub open spec fn nt_offset(image: Seq<u8>) -> int {
    le_word(image, 60) as int
}

/// Number of entries of the data directory: what the optional header
/// declares, at most 16.
pub open spec fn directory_count(image: Seq<u8>) -> int {
    let declared = le_word(image, nt_offset(image) + 132);
    if declared < 16 {
        declared as int
    } else {
        16
    }
}

/// Number of records of the section table.
pub open spec fn section_count(image: Seq<u8>) -> int {
    le_half(image, nt_offset(image) + 6) as int
}

/// Offset of the section table: behind the optional header, whose size the
/// file header declares.
pub open spec fn section_table_offset(image: Seq<u8>) -> int {
    nt_offset(image) + 24 + le_half(image, nt_offset(image) + 20)
}

/// The size of the headers that the optional header declares.
pub open spec fn size_of_headers(image: Seq<u8>) -> u32 {
    le_word(image, nt_offset(image) + 84)
}

/// What pelite has checked of the headers of a file that it accepts as a
/// 64-bit PE file.
pub open spec fn headers_valid(image: Seq<u8>) -> bool {
    let nt = nt_offset(image);
    &&& DOS_HEADER_SIZE <= image.len()
    &&& le_half(image, 0) == 0x5a4d
    &&& nt % 4 == 0
    &&& nt <= 0x0100_0000
    &&& nt + NT_HEADERS_SIZE <= image.len()
    &&& le_word(image, nt) == 0x4550
    &&& le_half(image, nt + 24) == 0x20b
    &&& size_of_headers(image) <= image.len()
    &&& size_of_headers(image) <= le_word(image, nt + 80)
    &&& nt + NT_HEADERS_SIZE + DATA_DIRECTORY_SIZE * directory_count(image) <= image.len()
    &&& section_count(image) <= 96
    &&& section_table_offset(image) + SECTION_HEADER_SIZE * section_count(image) <= image.len()
}

/// Whether the records that pelite refers to lie where it can refer to
/// them: the file holds a DOS header, the NT headers at a multiple of 8, as
/// their 64-bit fields ask, the field that gives the size of the optional
/// header, and that size a multiple of 4, so that the section table, which
/// follows the optional header, lies at a multiple of 4. Pelite itself asks
/// only for a multiple of 4 of the offset of the NT headers, and does not
/// look at the size of the optional header.
pub open spec fn headers_aligned(image: Seq<u8>) -> bool {
    &&& DOS_HEADER_SIZE <= image.len()
    &&& nt_offset(image) % 8 == 0
    &&& nt_offset(image) + 24 <= image.len()
    &&& le_half(image, nt_offset(image) + 20) % 4 == 0
}

/// `PeFile::from_bytes`, on a copy of `file` in storage of `words` 64-bit
/// words, which lies at a multiple of 8 whatever address `file` has: pelite
/// accepts the bytes where their headers pass its checks, and nowhere else.
/// Pelite refers to the NT headers at their offset in the buffer, which the
/// storage and the required alignment of the headers make a multiple of 8.
/// It reads the fields in the byte order of the machine; the statement is
/// for a little-endian one.
#[verifier::external_body]
fn pe_check_headers(file: &[u8], words: usize) -> (r: Result<(), pelite::Error>)
    requires
        headers_aligned(file@),
        file@.len() <= 8 * words,
    ensures
        r is Ok <==> headers_valid(file@),
{
    let mut storage = vec![0u64; words];
    dataview::bytes_mut(storage.as_mut_slice())[..file.len()].copy_from_slice(file);
    let bytes = &dataview::bytes(storage.as_slice())[..file.len()];
    pelite::pe64::PeFile::from_bytes(bytes).map(drop)
}

/// One record of the section table: the fields that unpacking reads.
#[derive(Clone, Copy, Debug)]
pub struct SectionHeader {
    /// The name, padded with zero bytes.
    pub name: [u8; 8],
    /// Size of the section in memory.
    pub virtual_size: u32,
    /// Address of the section in memory, relative to the image base.
    pub virtual_address: u32,
    /// Size of the section's bytes in the file.
    pub size_of_raw_data: u32,
    /// Offset of the section's bytes in the file.
    pub pointer_to_raw_data: u32,
    /// The section's flags.
    pub characteristics: u32,
}

/// A section header as plain values.
pub ghost struct SectionInfo {
    pub name: Seq<u8>,
    pub virtual_size: u32,
    pub virtual_address: u32,
    pub size_of_raw_data: u32,
    pub pointer_to_raw_data: u32,
    pub characteristics: u32,
}

impl View for SectionHeader {
    type V = SectionInfo;

    open spec fn view(&self) -> SectionInfo {
        SectionInfo {
            name: self.name@,
            virtual_size: self.virtual_size,
            virtual_address: self.virtual_address,
            size_of_raw_data: self.size_of_raw_data,
            pointer_to_raw_data: self.pointer_to_raw_data,
            characteristics: self.characteristics,
        }
    }
}

/// The section header that the 40 bytes at `at` hold.
pub open spec fn section_at(image: Seq<u8>, at: int) -> SectionInfo {
    SectionInfo {
        name: image.subrange(at, at + 8),
        virtual_size: le_word(image, at + 8),
        virtual_address: le_word(image, at + 12),
        size_of_raw_data: le_word(image, at + 16),
        pointer_to_raw_data: le_word(image, at + 20),
        characteristics: le_word(image, at + 36),
    }
}

/// The section table of a file, in file order.
pub open spec fn image_sections(image: Seq<u8>) -> Seq<SectionInfo> {
    Seq::new(
        section_count(image) as nat,
        |i: int| section_at(image, section_table_offset(image) + SECTION_HEADER_SIZE * i),
    )
}

/// Reads the section header record that starts at `at`.
pub fn read_section_header(data: &[u8], at: usize) -> (header: SectionHeader)
    requires
        at + SECTION_HEADER_SIZE <= data@.len(),
    ensures
        header@ == section_at(data@, at as int),
{
    assert(at + SECTION_HEADER_SIZE <= data.len());
    let name: [u8; 8] = [
        data[at],
        data[at + 1],
        data[at + 2],
        data[at + 3],
        data[at + 4],
        data[at + 5],
        data[at + 6],
        data[at + 7],
    ];
    let header = SectionHeader {
        name,
        virtual_size: read_le_word(data, at + 8),
        virtual_address: read_le_word(data, at + 12),
        size_of_raw_data: read_le_word(data, at + 16),
        pointer_to_raw_data: read_le_word(data, at + 20),
        characteristics: read_le_word(data, at + 36),
    };
    assert(header.name@ =~= data@.subrange(at as int, at + 8));
    header
}

/// The range of the file that holds a section's bytes, where the header
/// gives one: the offset is not zero, the end does not lie before the start
/// once the sum is cut to 32 bits, nor behind the end of the file.
pub open spec fn section_file_range(section: SectionInfo, file_len: int) -> Option<(int, int)> {
    let start = section.pointer_to_raw_data as int;
    let end = (section.pointer_to_raw_data + section.size_of_raw_data) % 0x1_0000_0000;
    if start != 0 && start <= end <= file_len {
        Some((start, end))
    } else {
        None
    }
}

/// A section's range in the file starts at its offset and ends at the sum of
/// offset and size.
pub proof fn lemma_section_file_range(section: SectionInfo, file_len: int)
    requires
        section_file_range(section, file_len) is Some,
    ensures
        section_file_range(section, file_len) == Some(
            (
                section.pointer_to_raw_data as int,
                section.pointer_to_raw_data + section.size_of_raw_data,
            ),
        ),
        section.pointer_to_raw_data + section.size_of_raw_data <= file_len,
{
}

/// The file offset of `rva` by the sections from index `from` on. The first
/// section decides whose address range holds `rva`, the range being as long
/// as the larger of its two sizes and its end cut to 32 bits. That section
/// gives an offset where its bytes in the file reach as far as `rva` and end
/// below 2^32.
pub open spec fn section_file_offset(sections: Seq<SectionInfo>, rva: u32, from: int) -> Option<int>
    decreases sections.len() - from,
{
    if from < 0 || from >= sections.len() {
        None
    } else {
        let s = sections[from];
        let extent = if s.virtual_size < s.size_of_raw_data {
            s.size_of_raw_data
        } else {
            s.virtual_size
        };
        let end = (s.virtual_address + extent) % 0x1_0000_0000;
        if s.virtual_address <= rva < end {
            if s.pointer_to_raw_data + s.size_of_raw_data <= u32::MAX && rva - s.virtual_address
                < s.size_of_raw_data {
                Some(rva - s.virtual_address + s.pointer_to_raw_data)
            } else {
                None
            }
        } else {
            section_file_offset(sections, rva, from + 1)
        }
    }
}

/// A file offset that the section table gives is not negative and fits in
/// 32 bits.
pub proof fn lemma_section_file_offset(sections: Seq<SectionInfo>, rva: u32, from: int)
    ensures
        section_file_offset(sections, rva, from) matches Some(offset) ==> 0 <= offset <= u32::MAX,
    decreases sections.len() - from,
{
    if 0 <= from < sections.len() {
        lemma_section_file_offset(sections, rva, from + 1);
    }
}

/// The file offset of `rva`: itself inside the headers, else what the
/// section table gives.
pub open spec fn rva_file_offset(headers_size: u32, sections: Seq<SectionInfo>, rva: u32) -> Option<
    int,
> {
    if rva < headers_size {
        Some(rva as int)
    } else {
        section_file_offset(sections, rva, 0)
    }
}

/// `Pe::rva_to_file_offset`, on a copy of `file` in storage of `words`
/// 64-bit words, as in `pe_check_headers`: the offset that the size of the
/// headers and the section table give, an error where they give none.
/// Pelite refers to the optional header and to the section table at their
/// offsets in the buffer, which the storage and the required alignment make
/// multiples of 8 and of 4.
#[verifier::external_body]
fn pe_rva_to_file_offset(file: &[u8], words: usize, rva: u32) -> (r: Result<usize, pelite::Error>)
    requires
        headers_valid(file@),
        headers_aligned(file@),
        file@.len() <= 8 * words,
    ensures
        match rva_file_offset(size_of_headers(file@), image_sections(file@), rva) {
            Some(offset) => r matches Ok(o) && o == offset,
            None => r is Err,
        },
{
    let mut storage = vec![0u64; words];
    dataview::bytes_mut(storage.as_mut_slice())[..file.len()].copy_from_slice(file);
    let bytes = &dataview::bytes(storage.as_slice())[..file.len()];
    pelite::pe64::PeFile::from_bytes(bytes)?.rva_to_file_offset(rva)
}

/// Length of the start of the file that holds all that pelite reads to
/// translate an address: as long as the headers are declared to be, and
/// long enough for the NT headers, the data directory and the section table.
pub open spec fn head_len(image: Seq<u8>) -> int {
    let declared = size_of_headers(image) as int;
    let records = nt_offset(image) + NT_HEADERS_SIZE + DATA_DIRECTORY_SIZE * directory_count(image);
    let table = section_table_offset(image) + SECTION_HEADER_SIZE * section_count(image);
    if declared >= records && declared >= table {
        declared
    } else if records >= table {
        records
    } else {
        table
    }
}

/// The fields of a start of the file are the fields of the file.
proof fn lemma_head_fields(image: Seq<u8>, n: int, at: int)
    requires
        0 <= at,
        at + 4 <= n <= image.len(),
    ensures
        le_word(image.subrange(0, n), at) == le_word(image, at),
        le_half(image.subrange(0, n), at) == le_half(image, at),
{
}

/// The start of a file with valid headers has valid headers itself, and the
/// same size of headers and section table.
pub proof fn lemma_head(image: Seq<u8>)
    requires
        headers_valid(image),
        headers_aligned(image),
    ensures
        DOS_HEADER_SIZE <= head_len(image) <= image.len(),
        headers_valid(image.subrange(0, head_len(image))),
        headers_aligned(image.subrange(0, head_len(image))),
        size_of_headers(image.subrange(0, head_len(image))) == size_of_headers(image),
        image_sections(image.subrange(0, head_len(image))) == image_sections(image),
{
    let n = head_len(image);
    let head = image.subrange(0, n);
    let nt = nt_offset(image);
    lemma_head_fields(image, n, 0);
    lemma_head_fields(image, n, 60);
    lemma_head_fields(image, n, nt);
    lemma_head_fields(image, n, nt + 6);
    lemma_head_fields(image, n, nt + 20);
    lemma_head_fields(image, n, nt + 24);
    lemma_head_fields(image, n, nt + 80);
    lemma_head_fields(image, n, nt + 84);
    lemma_head_fields(image, n, nt + 132);
    assert(nt_offset(head) == nt);
    assert(section_count(head) == section_count(image));
    assert(section_table_offset(head) == section_table_offset(image));
    assert(directory_count(head) == directory_count(image));
    let table = section_table_offset(image);
    assert forall|i: int| 0 <= i < section_count(image) implies #[trigger] image_sections(head)[i]
        == image_sections(image)[i] by {
        let at = table + SECTION_HEADER_SIZE * i;
        assert(at + SECTION_HEADER_SIZE <= n) by (nonlinear_arith)
            requires
                at == table + SECTION_HEADER_SIZE * i,
                0 <= i < section_count(image),
                table + SECTION_HEADER_SIZE * section_count(image) <= n,
        ;
        lemma_head_fields(image, n, at + 8);
        lemma_head_fields(image, n, at + 12);
        lemma_head_fields(image, n, at + 16);
        lemma_head_fields(image, n, at + 20);
        lemma_head_fields(image, n, at + 36);
        assert(head.subrange(at, at + 8) =~= image.subrange(at, at + 8));
    }
    assert(image_sections(head) =~= image_sections(image));
}

/// The number of 64-bit words that hold `len` bytes.
pub open spec fn words_for(len: int) -> int {
    if len % 8 == 0 {
        len / 8
    } else {
        len / 8 + 1
    }
}

fn count_words(len: usize) -> (words: usize)
    ensures
        words == words_for(len as int),
        len <= 8 * words,
{
    if len % 8 == 0 {
        len / 8
    } else {
        len / 8 + 1
    }
}

/// The section headers of `v` as plain values.
pub open spec fn section_infos(v: Seq<SectionHeader>) -> Seq<SectionInfo> {
    Seq::new(v.len(), |i: int| v[i]@)
}

/// Size that a section takes for the lookup of an address: its size in
/// memory, or its size in the file where that is zero.
pub open spec fn effective_size(section: SectionInfo) -> u32 {
    if section.virtual_size == 0 {
        section.size_of_raw_data
    } else {
        section.virtual_size
    }
}

/// Whether the address range of `section` holds `rva`.
pub open spec fn section_owns(section: SectionInfo, rva: u32) -> bool {
    section.virtual_address <= rva < section.virtual_address + effective_size(section)
}

/// Whether `found` is the first section that owns `rva`, or nothing where no
/// section owns it.
pub open spec fn is_owner(sections: Seq<SectionInfo>, rva: u32, found: Option<usize>) -> bool {
    match found {
        Some(i) => i < sections.len() && section_owns(sections[i as int], rva) && forall|k: int|
            0 <= k < i ==> !section_owns(#[trigger] sections[k], rva),
        None => forall|k: int| 0 <= k < sections.len() ==> !section_owns(#[trigger] sections[k], rva),
    }
}

/// The index of the first section that owns `rva`, if one does.
#[verifier::opaque]
pub open spec fn owner_index(sections: Seq<SectionInfo>, rva: u32) -> Option<int> {
    if exists|i: int| 0 <= i < sections.len() && section_owns(sections[i], rva) {
        Some(
            choose|i: int|
                0 <= i < sections.len() && section_owns(sections[i], rva) && forall|k: int|
                    0 <= k < i ==> !section_owns(#[trigger] sections[k], rva),
        )
    } else {
        None
    }
}

/// Whether `i` is the first section that owns `rva`.
pub open spec fn is_first_owner(sections: Seq<SectionInfo>, rva: u32, i: int) -> bool {
    0 <= i < sections.len() && section_owns(sections[i], rva) && forall|k: int|
        0 <= k < i ==> !section_owns(#[trigger] sections[k], rva)
}

/// Where a section owns an address, there is a first one that does.
proof fn lemma_first_owner_exists(sections: Seq<SectionInfo>, rva: u32, i: int)
    requires
        0 <= i < sections.len(),
        section_owns(sections[i], rva),
    ensures
        exists|j: int| 0 <= j <= i && is_first_owner(sections, rva, j),
    decreases i,
{
    if exists|k: int| 0 <= k < i && section_owns(sections[k], rva) {
        let k = choose|k: int| 0 <= k < i && section_owns(sections[k], rva);
        lemma_first_owner_exists(sections, rva, k);
        let j = choose|j: int| 0 <= j <= k && is_first_owner(sections, rva, j);
        assert(0 <= j <= i && is_first_owner(sections, rva, j));
    } else {
        assert(is_first_owner(sections, rva, i));
    }
}

/// The owner of an address is a section of the table that owns it, and the
/// first that does; there is none where no section owns it.
pub proof fn lemma_owner_index_is_first(sections: Seq<SectionInfo>, rva: u32)
    ensures
        match owner_index(sections, rva) {
            Some(i) => is_first_owner(sections, rva, i),
            None => forall|k: int|
                0 <= k < sections.len() ==> !section_owns(#[trigger] sections[k], rva),
        },
{
    reveal(owner_index);
    if exists|i: int| 0 <= i < sections.len() && section_owns(sections[i], rva) {
        let i = choose|i: int| 0 <= i < sections.len() && section_owns(sections[i], rva);
        lemma_first_owner_exists(sections, rva, i);
        let j = choose|j: int| 0 <= j <= i && is_first_owner(sections, rva, j);
        assert(0 <= j < sections.len() && section_owns(sections[j], rva) && forall|k: int|
            0 <= k < j ==> !section_owns(#[trigger] sections[k], rva));
    }
}

/// What a lookup found is the first section that owns the address.
pub proof fn lemma_owner_index(sections: Seq<SectionInfo>, rva: u32, found: Option<usize>)
    requires
        is_owner(sections, rva, found),
    ensures
        owner_index(sections, rva) == match found {
            Some(i) => Some(i as int),
            None => None,
        },
{
    reveal(owner_index);
    if let Some(i) = found {
        let c = choose|c: int|
            0 <= c < sections.len() && section_owns(sections[c], rva) && forall|k: int|
                0 <= k < c ==> !section_owns(#[trigger] sections[k], rva);
        assert(section_owns(sections[i as int], rva));
        if c < i {
            assert(!section_owns(sections[c], rva));
        }
    }
}

/// Tests whether the headers of `file` are aligned as pelite needs them.
pub fn is_aligned(file: &[u8]) -> (r: bool)
    ensures
        r == headers_aligned(file@),
{
    let len = file.len();
    if len < DOS_HEADER_SIZE {
        return false;
    }
    let at = read_le_word(file, 60);
    if at % 8 != 0 || at as usize > len || len - (at as usize) < 24 {
        return false;
    }
    read_le_half(file, at as usize + 20) % 4 == 0
}

/// A parsed 64-bit PE file: the bytes of the file, whose headers pelite has
/// checked, with the header records and the section table that lie in them
/// at the offsets that the headers give.
pub struct Image<'a> {
    data: &'a [u8],
    head: usize,
    dos: Vec<u8>,
    nt: Vec<u8>,
    directory: Vec<u8>,
    table: Vec<u8>,
    sections: Vec<SectionHeader>,
}

impl<'a> Image<'a> {
    /// The bytes of the file.
    pub closed spec fn bytes(&self) -> Seq<u8> {
        self.data@
    }

    /// The section table.
    pub closed spec fn section_list(&self) -> Seq<SectionHeader> {
        self.sections@
    }

    /// The image is what `parse` made of its bytes.
    pub closed spec fn wf(&self) -> bool {
        let image = self.data@;
        &&& self.head == head_len(image)
        &&& headers_valid(image)
        &&& headers_aligned(image)
        &&& self.dos@ == image.subrange(0, DOS_HEADER_SIZE as int)
        &&& self.nt@ == image.subrange(nt_offset(image), nt_offset(image) + NT_HEADERS_SIZE)
        &&& self.directory@ == image.subrange(
            nt_offset(image) + NT_HEADERS_SIZE,
            nt_offset(image) + NT_HEADERS_SIZE + DATA_DIRECTORY_SIZE * directory_count(image),
        )
        &&& self.table@ == image.subrange(
            section_table_offset(image),
            section_table_offset(image) + SECTION_HEADER_SIZE * section_count(image),
        )
        &&& section_infos(self.sections@) == image_sections(image)
    }

    /// The headers of a well-formed image are valid, and its section list is
    /// the section table of its bytes.
    pub proof fn lemma_wf(&self)
        requires
            self.wf(),
        ensures
            headers_valid(self.bytes()),
            headers_aligned(self.bytes()),
            section_infos(self.section_list()) == image_sections(self.bytes()),
            self.section_list().len() == section_count(self.bytes()),
    {
        assert(section_infos(self.sections@).len() == self.sections@.len());
    }

    /// Parses `file`: succeeds where its headers are aligned as
    /// `headers_aligned` says and pass pelite's checks, and fails with
    /// `Format` everywhere else.
    pub fn parse(file: &'a [u8]) -> (r: Result<Image<'a>, UnpackError>)
        ensures
            match r {
                Ok(image) => headers_aligned(file@) && headers_valid(file@) && image.wf()
                    && image.bytes() == file@,
                Err(e) => !(headers_aligned(file@) && headers_valid(file@)) && e
                    == UnpackError::Format,
            },
    {
        if !is_aligned(file) {
            return Err(UnpackError::Format);
        }
        match pe_check_headers(file, count_words(file.len())) {
            Ok(_) => Ok(Image::from_checked(file)),
            Err(_) => Err(UnpackError::Format),
        }
    }

    /// The image of a file whose headers have been checked.
    fn from_checked(file: &'a [u8]) -> (image: Image<'a>)
        requires
            headers_aligned(file@),
            headers_valid(file@),
        ensures
            image.wf(),
            image.bytes() == file@,
    {
        let at = read_le_word(file, 60) as usize;
        let dos = slice_to_vec(slice_subrange(file, 0, DOS_HEADER_SIZE));
        let nt = slice_to_vec(slice_subrange(file, at, at + NT_HEADERS_SIZE));
        let declared = read_le_word(file, at + 132);
        let entries: usize = if declared < 16 {
            declared as usize
        } else {
            16
        };
        let directory = slice_to_vec(
            slice_subrange(
                file,
                at + NT_HEADERS_SIZE,
                at + NT_HEADERS_SIZE + DATA_DIRECTORY_SIZE * entries,
            ),
        );
        let count = read_le_half(file, at + 6) as usize;
        let first = at + 24 + read_le_half(file, at + 20) as usize;
        let table = slice_to_vec(slice_subrange(file, first, first + SECTION_HEADER_SIZE * count));
        let ghost start = section_table_offset(file@);
        assert(table@.len() == SECTION_HEADER_SIZE * section_count(file@));
        let mut sections: Vec<SectionHeader> = Vec::new();
        let mut i: usize = 0;
        while i < count
            invariant
                i <= count,
                count == section_count(file@),
                table@.len() == SECTION_HEADER_SIZE * count,
                table@ == file@.subrange(start, start + SECTION_HEADER_SIZE * count),
                start == section_table_offset(file@),
                0 <= start,
                start + SECTION_HEADER_SIZE * count <= file@.len(),
                sections@.len() == i,
                forall|k: int| 0 <= k < i ==> (#[trigger] sections@[k])@ == image_sections(file@)[k],
            decreases count - i,
        {
            let at = i * SECTION_HEADER_SIZE;
            let header = read_section_header(table.as_slice(), at);
            proof {
                let whole = section_at(file@, start + at);
                let part = section_at(table@, at as int);
                assert(part.name =~= whole.name);
                assert(part == whole);
            }
            sections.push(header);
            i += 1;
        }
        assert(section_infos(sections@) =~= image_sections(file@));
        let declared = read_le_word(file, at + 84) as usize;
        let records = at + NT_HEADERS_SIZE + DATA_DIRECTORY_SIZE * entries;
        let behind = first + SECTION_HEADER_SIZE * count;
        let head = if declared >= records && declared >= behind {
            declared
        } else if records >= behind {
            records
        } else {
            behind
        };
        Image { data: file, head, dos, nt, directory, table, sections }
    }

    /// The bytes of the file.
    pub fn data(&self) -> (r: &'a [u8])
        ensures
            r@ == self.bytes(),
    {
        self.data
    }

    /// The section headers, in file order.
    pub fn sections(&self) -> (r: &Vec<SectionHeader>)
        ensures
            r@ == self.section_list(),
    {
        &self.sections
    }

    /// The DOS header record, 64 bytes.
    pub fn dos_header(&self) -> (r: &Vec<u8>)
        requires
            self.wf(),
        ensures
            r@ == self.bytes().subrange(0, DOS_HEADER_SIZE as int),
            r@.len() == DOS_HEADER_SIZE,
    {
        &self.dos
    }

    /// The NT headers record, 136 bytes.
    pub fn nt_headers(&self) -> (r: &Vec<u8>)
        requires
            self.wf(),
        ensures
            r@ == self.bytes().subrange(
                nt_offset(self.bytes()),
                nt_offset(self.bytes()) + NT_HEADERS_SIZE,
            ),
            r@.len() == NT_HEADERS_SIZE,
    {
        &self.nt
    }

    /// The entries of the data directory, 8 bytes each.
    pub fn data_directory(&self) -> (r: &Vec<u8>)
        requires
            self.wf(),
        ensures
            r@ == self.bytes().subrange(
                nt_offset(self.bytes()) + NT_HEADERS_SIZE,
                nt_offset(self.bytes()) + NT_HEADERS_SIZE + DATA_DIRECTORY_SIZE * directory_count(
                    self.bytes(),
                ),
            ),
            r@.len() == DATA_DIRECTORY_SIZE * directory_count(self.bytes()),
    {
        &self.directory
    }

    /// The records of the section table, 40 bytes each.
    pub fn section_table(&self) -> (r: &Vec<u8>)
        requires
            self.wf(),
        ensures
            r@ == self.bytes().subrange(
                section_table_offset(self.bytes()),
                section_table_offset(self.bytes()) + SECTION_HEADER_SIZE * section_count(
                    self.bytes(),
                ),
            ),
            r@.len() == SECTION_HEADER_SIZE * section_count(self.bytes()),
    {
        &self.table
    }

    /// The bytes that the file holds for the section at `index`. Fails with
    /// `Format` where the range that its header gives is not in the file.
    pub fn section_bytes(&self, index: usize) -> (r: Result<&'a [u8], UnpackError>)
        requires
            self.wf(),
            index < self.section_list().len(),
        ensures
            match section_file_range(self.section_list()[index as int]@, self.bytes().len() as int) {
                Some((start, end)) => r matches Ok(b) && b@ == self.bytes().subrange(start, end),
                None => r matches Err(e) && e == UnpackError::Format,
            },
    {
        let section = &self.sections[index];
        let start = section.pointer_to_raw_data;
        let size = section.size_of_raw_data;
        let len = self.data.len();
        if start == 0 || size > u32::MAX - start {
            return Err(UnpackError::Format);
        }
        let end = start + size;
        if end as usize > len {
            return Err(UnpackError::Format);
        }
        Ok(slice_subrange(self.data, start as usize, end as usize))
    }

    /// The offset in the file of the byte that is loaded at `rva`. Fails with
    /// `Format` where neither the headers nor a section hold it.
    pub fn rva_to_file_offset(&self, rva: u32) -> (r: Result<usize, UnpackError>)
        requires
            self.wf(),
        ensures
            match rva_file_offset(
                size_of_headers(self.bytes()),
                section_infos(self.section_list()),
                rva,
            ) {
                Some(offset) => r matches Ok(o) && o == offset,
                None => r matches Err(e) && e == UnpackError::Format,
            },
    {
        proof {
            self.lemma_wf();
            lemma_head(self.data@);
        }
        let head = slice_subrange(self.data, 0, self.head);
        match pe_rva_to_file_offset(head, count_words(self.head), rva) {
            Ok(offset) => Ok(offset),
            Err(_) => Err(UnpackError::Format),
        }
    }
}

} // verus!
