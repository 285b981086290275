//! Detection and removal of the wrapper.

use crate::bytes::{
    find_infix_windows, first_match, is_first_match, le_word, lemma_first_match,
    lemma_spelled_pattern, matches_at, pattern_of, read_le_word, spells, steam_xor,
    steam_xor_bytes, steam_xor_key, PatternByte,
};
use crate::cipher::{
    cbc_stored, code_section_plain, decrypt_code_section, lemma_cbc_round_trip, undone_by_aes256,
    BLOCK_SIZE, KEY_SIZE,
};
use crate::error::UnpackError;
use crate::image::{
    directory_count, headers_aligned, headers_valid, image_sections, is_first_owner, is_owner,
    lemma_owner_index, lemma_owner_index_is_first, lemma_section_file_offset, nt_offset,
    owner_index, rva_file_offset, section_count, section_file_range, section_infos,
    section_owns, size_of_headers, Image, SectionHeader, SectionInfo, DATA_DIRECTORY_SIZE,
    NT_HEADERS_SIZE,
};
use crate::kept::{
    headers_len, kept, laid_out, lemma_rebuilt_entry_point, lemma_rebuilt_keeps, len_bound,
};
use crate::rebuild::{
    rebuilt, reconstruct, within_memory, Replacement, CHECKSUM_AT, ENTRY_POINT_AT,
};
use crate::stub::{
    stub_header_of, StubHeader, StubInfo, FLAG_NO_ENCRYPTION, STUB_HEADER_SIZE, STUB_SIGNATURE,
};
use vstd::prelude::*;
use vstd::slice::{slice_subrange, slice_to_vec};

verus! {

/// The name of the wrapper's section, `.bind`.
pub open spec fn bind_name() -> Seq<u8> {
    seq![0x2eu8, 0x62u8, 0x69u8, 0x6eu8, 0x64u8]
}

/// Whether a section name, its zero bytes left out, reads `.bind`.
pub open spec fn is_bind_name(name: Seq<u8>) -> bool {
    name.filter(|b: u8| b != 0) == bind_name()
}

/// Whether `found` is the first section named `.bind`, or nothing where no
/// section has that name.
pub open spec fn is_bind_index(sections: Seq<SectionInfo>, found: Option<usize>) -> bool {
    match found {
        Some(i) => i < sections.len() && is_bind_name(sections[i as int].name) && forall|k: int|
            0 <= k < i ==> !is_bind_name((#[trigger] sections[k]).name),
        None => forall|k: int|
            0 <= k < sections.len() ==> !is_bind_name((#[trigger] sections[k]).name),
    }
}

fn name_is_bind(name: &[u8; 8]) -> (r: bool)
    ensures
        r == is_bind_name(name@),
{
    let mut kept: Vec<u8> = Vec::new();
    let mut i: usize = 0;
    proof {
        reveal(Seq::filter);
        assert(name@.take(0).filter(|b: u8| b != 0) =~= Seq::<u8>::empty());
    }
    while i < 8
        invariant
            i <= 8,
            name@.len() == 8,
            kept@ == name@.take(i as int).filter(|b: u8| b != 0),
        decreases 8 - i,
    {
        proof {
            reveal(Seq::filter);
            assert(name@.take(i + 1).drop_last() =~= name@.take(i as int));
        }
        if name[i] != 0 {
            kept.push(name[i]);
        }
        i += 1;
    }
    assert(name@.take(8) =~= name@);
    let matches = kept.len() == 5 && kept[0] == 0x2e && kept[1] == 0x62 && kept[2] == 0x69
        && kept[3] == 0x6e && kept[4] == 0x64;
    proof {
        if matches {
            assert(kept@ =~= bind_name());
        }
    }
    matches
}

/// Finds the first section named `.bind`.
pub fn bind_section_index(image: &Image) -> (found: Option<usize>)
    ensures
        is_bind_index(section_infos(image.section_list()), found),
{
    let sections = image.sections();
    let mut i: usize = 0;
    while i < sections.len()
        invariant
            sections@ == image.section_list(),
            i <= sections@.len(),
            forall|k: int|
                0 <= k < i ==> !is_bind_name((#[trigger] section_infos(sections@)[k]).name),
        decreases sections@.len() - i,
    {
        if name_is_bind(&sections[i].name) {
            return Some(i);
        }
        i += 1;
    }
    None
}

/// What `bind_section` gives for a file with these sections: the bytes of
/// the first section named `.bind`, or `Format` where there is none or its
/// bytes are not in the file.
pub open spec fn bind_section_of(image: Seq<u8>, sections: Seq<SectionInfo>) -> Result<
    Seq<u8>,
    UnpackError,
> {
    if exists|i: int| 0 <= i < sections.len() && is_bind_name(sections[i].name) {
        let first = choose|i: int|
            0 <= i < sections.len() && is_bind_name(sections[i].name) && forall|k: int|
                0 <= k < i ==> !is_bind_name((#[trigger] sections[k]).name);
        match section_file_range(sections[first], image.len() as int) {
            Some((start, end)) => Ok(image.subrange(start, end)),
            None => Err(UnpackError::Format),
        }
    } else {
        Err(UnpackError::Format)
    }
}

/// The bytes of the wrapper's section, the first one named `.bind`.
pub fn bind_section<'a>(image: &Image<'a>) -> (r: Result<&'a [u8], UnpackError>)
    requires
        image.wf(),
    ensures
        match bind_section_of(image.bytes(), section_infos(image.section_list())) {
            Ok(bytes) => r matches Ok(b) && b@ == bytes,
            Err(e) => r == Err::<&[u8], UnpackError>(e),
        },
{
    let ghost sections = section_infos(image.section_list());
    match bind_section_index(image) {
        Some(index) => {
            proof {
                let first = choose|i: int|
                    0 <= i < sections.len() && is_bind_name(sections[i].name) && forall|k: int|
                        0 <= k < i ==> !is_bind_name((#[trigger] sections[k]).name);
                assert(is_bind_name(sections[index as int].name));
                if first < index {
                    assert(!is_bind_name(sections[first].name));
                }
                if index < first {
                    assert(!is_bind_name(sections[index as int].name));
                }
            }
            image.section_bytes(index)
        },
        None => Err(UnpackError::Format),
    }
}

/// Finds the section whose address range holds `rva`: the first one in file
/// order, its range as long as its size in memory or, where that is zero, in
/// the file.
pub fn get_owner_section(image: &Image, rva: u32) -> (found: Option<(usize, SectionHeader)>)
    ensures
        is_owner(
            section_infos(image.section_list()),
            rva,
            match found {
                Some((index, _)) => Some(index),
                None => None,
            },
        ),
        found matches Some((index, header)) ==> index < image.section_list().len() && header
            == image.section_list()[index as int],
{
    let sections = image.sections();
    let mut i: usize = 0;
    while i < sections.len()
        invariant
            sections@ == image.section_list(),
            i <= sections@.len(),
            forall|k: int| 0 <= k < i ==> !section_owns(#[trigger] section_infos(sections@)[k], rva),
        decreases sections@.len() - i,
    {
        let section = sections[i];
        let size = if section.virtual_size == 0 {
            section.size_of_raw_data
        } else {
            section.virtual_size
        };
        if rva >= section.virtual_address && (rva - section.virtual_address) < size {
            assert(section_owns(section_infos(sections@)[i as int], rva));
            return Some((i, section));
        }
        assert(!section_owns(section_infos(sections@)[i as int], rva));
        i += 1;
    }
    None
}

/// The size that the wrapper's code must give for its control header.
pub const EXPECTED_HEADER_SIZE: u32 = 0xf0;

/// The code that the entry of the wrapper starts with, 14 bytes, none of them
/// a wildcard.
pub open spec fn signature_pattern() -> Seq<PatternByte> {
    seq![
        Some(0xe8u8),
        Some(0x00u8),
        Some(0x00u8),
        Some(0x00u8),
        Some(0x00u8),
        Some(0x50u8),
        Some(0x53u8),
        Some(0x51u8),
        Some(0x52u8),
        Some(0x56u8),
        Some(0x57u8),
        Some(0x55u8),
        Some(0x41u8),
        Some(0x50u8),
    ]
}

/// The first form of the instruction that holds the size of the control
/// header: `48 8D 91 ?? ?? ?? ?? 48`.
pub open spec fn offset_pattern_lea_48() -> Seq<PatternByte> {
    seq![Some(0x48u8), Some(0x8du8), Some(0x91u8), None, None, None, None, Some(0x48u8)]
}

/// The second form: `48 8D 91 ?? ?? ?? ?? 41`.
pub open spec fn offset_pattern_lea_41() -> Seq<PatternByte> {
    seq![Some(0x48u8), Some(0x8du8), Some(0x91u8), None, None, None, None, Some(0x41u8)]
}

/// The third form: `48 C7 84 24 ?? ?? ?? ?? ?? ?? ?? ?? 48`.
pub open spec fn offset_pattern_mov() -> Seq<PatternByte> {
    seq![
        Some(0x48u8),
        Some(0xc7u8),
        Some(0x84u8),
        Some(0x24u8),
        None,
        None,
        None,
        None,
        None,
        None,
        None,
        None,
        Some(0x48u8),
    ]
}

/// Where the instruction that holds the size of the control header stands:
/// at the first match of the first of the three forms that matches at all,
/// five bytes further for the third form.
pub open spec fn size_instruction_at(bind: Seq<u8>) -> Option<int> {
    match first_match(bind, offset_pattern_lea_48()) {
        Some(at) => Some(at),
        None => match first_match(bind, offset_pattern_lea_41()) {
            Some(at) => Some(at),
            None => match first_match(bind, offset_pattern_mov()) {
                Some(at) => Some(at + 5),
                None => None,
            },
        },
    }
}

/// The verdict on the bytes of the wrapper's section: they hold the
/// signature, and the instruction that holds the size of the control header
/// gives 240, three bytes from its start.
pub open spec fn variant_verdict(bind: Seq<u8>) -> Result<(), UnpackError> {
    if first_match(bind, signature_pattern()) is None {
        Err(UnpackError::UnsupportedVariant)
    } else {
        match size_instruction_at(bind) {
            None => Err(UnpackError::UnsupportedVariant),
            Some(at) => if le_word(bind, at + 3) == EXPECTED_HEADER_SIZE {
                Ok(())
            } else {
                Err(UnpackError::UnsupportedVariant)
            },
        }
    }
}

/// The signature as text.
pub const SIGNATURE_TEXT: &'static str = "E8 00 00 00 00 50 53 51 52 56 57 55 41 50";

/// The first form of the size instruction as text.
pub const OFFSET_TEXT_LEA_48: &'static str = "48 8D 91 ?? ?? ?? ?? 48";

/// The second form of the size instruction as text.
pub const OFFSET_TEXT_LEA_41: &'static str = "48 8D 91 ?? ?? ?? ?? 41";

/// The third form of the size instruction as text.
pub const OFFSET_TEXT_MOV: &'static str = "48 C7 84 24 ?? ?? ?? ?? ?? ?? ?? ?? 48";

/// The texts denote the patterns.
pub proof fn lemma_pattern_texts()
    ensures
        pattern_of(SIGNATURE_TEXT@) == Some(signature_pattern()),
        pattern_of(OFFSET_TEXT_LEA_48@) == Some(offset_pattern_lea_48()),
        pattern_of(OFFSET_TEXT_LEA_41@) == Some(offset_pattern_lea_41()),
        pattern_of(OFFSET_TEXT_MOV@) == Some(offset_pattern_mov()),
{
    reveal_strlit("E8 00 00 00 00 50 53 51 52 56 57 55 41 50");
    reveal_strlit("48 8D 91 ?? ?? ?? ?? 48");
    reveal_strlit("48 8D 91 ?? ?? ?? ?? 41");
    reveal_strlit("48 C7 84 24 ?? ?? ?? ?? ?? ?? ?? ?? 48");
    assert(spells(SIGNATURE_TEXT@, signature_pattern()));
    lemma_spelled_pattern(SIGNATURE_TEXT@, signature_pattern());
    assert(spells(OFFSET_TEXT_LEA_48@, offset_pattern_lea_48()));
    lemma_spelled_pattern(OFFSET_TEXT_LEA_48@, offset_pattern_lea_48());
    assert(spells(OFFSET_TEXT_LEA_41@, offset_pattern_lea_41()));
    lemma_spelled_pattern(OFFSET_TEXT_LEA_41@, offset_pattern_lea_41());
    assert(spells(OFFSET_TEXT_MOV@, offset_pattern_mov()));
    lemma_spelled_pattern(OFFSET_TEXT_MOV@, offset_pattern_mov());
}

fn find_text(bind: &[u8], text: &str) -> (found: Option<usize>)
    requires
        pattern_of(text@) is Some,
    ensures
        first_match(bind@, pattern_of(text@)->0) == match found {
            Some(at) => Some(at as int),
            None => None,
        },
        found matches Some(at) ==> at + pattern_of(text@)->0.len() <= bind@.len(),
{
    let found = find_infix_windows(bind, text);
    proof {
        lemma_first_match(bind@, pattern_of(text@)->0, found);
    }
    found
}

/// Decides whether the bytes of the wrapper's section are those of the
/// variant that is handled. Fails with `UnsupportedVariant` where they are
/// not.
pub fn check_bind_section(bind: &[u8]) -> (r: Result<(), UnpackError>)
    ensures
        r == variant_verdict(bind@),
{
    let len = bind.len();
    proof {
        lemma_pattern_texts();
    }
    if find_text(bind, SIGNATURE_TEXT).is_none() {
        return Err(UnpackError::UnsupportedVariant);
    }
    let at = match find_text(bind, OFFSET_TEXT_LEA_48) {
        Some(at) => at,
        None => match find_text(bind, OFFSET_TEXT_LEA_41) {
            Some(at) => at,
            None => match find_text(bind, OFFSET_TEXT_MOV) {
                Some(at) => at + 5,
                None => {
                    return Err(UnpackError::UnsupportedVariant);
                },
            },
        },
    };
    assert(at + 7 <= len);
    if read_le_word(bind, at + 3) == EXPECTED_HEADER_SIZE {
        Ok(())
    } else {
        Err(UnpackError::UnsupportedVariant)
    }
}

/// The verdict on a file: `Format` where it has no `.bind` section or the
/// bytes of that section are not in the file, else the verdict on those
/// bytes.
#[verifier::opaque]
pub open spec fn image_verdict(image: Seq<u8>, sections: Seq<SectionInfo>) -> Result<
    (),
    UnpackError,
> {
    match bind_section_of(image, sections) {
        Ok(bind) => variant_verdict(bind),
        Err(e) => Err(e),
    }
}

/// Confirms that the file carries the variant of the wrapper that is
/// handled. Nothing is decoded or decrypted before this has succeeded.
pub fn check_is_variant31_x64(image: &Image) -> (r: Result<(), UnpackError>)
    requires
        image.wf(),
    ensures
        r == image_verdict(image.bytes(), section_infos(image.section_list())),
{
    reveal(image_verdict);
    match bind_section(image) {
        Ok(bind) => check_bind_section(bind),
        Err(e) => Err(e),
    }
}

/// Bytes that hold the signature somewhere and the first form of the size
/// instruction first at `at` are accepted where the instruction gives 240,
/// and refused for every other size.
pub proof fn lemma_verdict_goes_by_the_size(bind: Seq<u8>, signature_at: int, at: int)
    requires
        bind.len() <= usize::MAX,
        matches_at(bind, signature_pattern(), signature_at),
        matches_at(bind, offset_pattern_lea_48(), at),
        forall|k: int| 0 <= k < at ==> !matches_at(bind, offset_pattern_lea_48(), k),
    ensures
        variant_verdict(bind) == if le_word(bind, at + 3) == EXPECTED_HEADER_SIZE {
            Ok::<(), UnpackError>(())
        } else {
            Err::<(), UnpackError>(UnpackError::UnsupportedVariant)
        },
{
    assert(first_match(bind, signature_pattern()) is Some) by {
        reveal(first_match);
    }
    let found = Some(at as usize);
    assert(is_first_match(bind, offset_pattern_lea_48(), found));
    lemma_first_match(bind, offset_pattern_lea_48(), found);
}

/// A file without a section named `.bind` is refused with `Format`.
pub proof fn lemma_verdict_without_bind_section(image: Seq<u8>, sections: Seq<SectionInfo>)
    requires
        forall|i: int| 0 <= i < sections.len() ==> !is_bind_name((#[trigger] sections[i]).name),
    ensures
        image_verdict(image, sections) == Err::<(), UnpackError>(UnpackError::Format),
{
    reveal(image_verdict);
}

/// The entry point that the file declares.
pub open spec fn entry_point(image: Seq<u8>) -> u32 {
    le_word(image, nt_offset(image) + ENTRY_POINT_AT)
}

/// The file offset of `rva` in `image`.
pub open spec fn file_offset(image: Seq<u8>, rva: u32) -> Option<int> {
    rva_file_offset(size_of_headers(image), image_sections(image), rva)
}

/// Offset of the control header: it fills the 240 bytes of the file in
/// front of the entry point.
pub open spec fn stub_offset(image: Seq<u8>) -> Option<int> {
    match file_offset(image, entry_point(image)) {
        Some(end) => if STUB_HEADER_SIZE <= end <= image.len() {
            Some(end - STUB_HEADER_SIZE)
        } else {
            None
        },
        None => None,
    }
}

/// The control header as the file holds it, encoded.
pub open spec fn stub_stored(image: Seq<u8>) -> Seq<u8> {
    image.subrange(stub_offset(image)->0, stub_offset(image)->0 + STUB_HEADER_SIZE)
}

/// The control header, decoded with its own first word for the key.
#[verifier::opaque]
pub open spec fn stub_info(image: Seq<u8>) -> StubInfo {
    stub_header_of(steam_xor_bytes(stub_stored(image), STUB_HEADER_SIZE as int, 0))
}

/// The key that decoding the control header ends with.
#[verifier::opaque]
pub open spec fn stub_last_key(image: Seq<u8>) -> u32 {
    steam_xor_key(stub_stored(image), STUB_HEADER_SIZE as int, 0)
}

/// Finds the control header in front of the entry point, decodes it, and
/// returns it with the key that decoding ended with. Fails with `Format`
/// where the entry point has no file offset or fewer than 240 bytes of the
/// file lie in front of it, with `Integrity` where what was decoded does not
/// carry the signature.
pub fn read_stub_header(image: &Image) -> (r: Result<(StubHeader, u32), UnpackError>)
    requires
        image.wf(),
    ensures
        match r {
            Ok((header, key)) => stub_offset(image.bytes()) is Some && header@ == stub_info(
                image.bytes(),
            ) && key == stub_last_key(image.bytes()) && header.signature == STUB_SIGNATURE
                && header.aes_key@.len() == KEY_SIZE && header.aes_iv@.len() == BLOCK_SIZE,
            Err(e) => if stub_offset(image.bytes()) is None {
                e == UnpackError::Format
            } else {
                e == UnpackError::Integrity && stub_info(image.bytes()).signature
                    != STUB_SIGNATURE
            },
        },
{
    proof {
        image.lemma_wf();
        reveal(stub_info);
        reveal(stub_last_key);
    }
    let data = image.data();
    let entry = read_le_word(image.nt_headers().as_slice(), ENTRY_POINT_AT);
    assert(entry == entry_point(image.bytes()));
    let end = match image.rva_to_file_offset(entry) {
        Ok(end) => end,
        Err(e) => {
            return Err(e);
        },
    };
    if end < STUB_HEADER_SIZE || end > data.len() {
        return Err(UnpackError::Format);
    }
    let mut record = slice_to_vec(slice_subrange(data, end - STUB_HEADER_SIZE, end));
    let ghost stored = record@;
    assert(stub_offset(image.bytes()) == Some(end - STUB_HEADER_SIZE));
    assert(stored == stub_stored(image.bytes()));
    let key = steam_xor(record.as_mut_slice(), STUB_HEADER_SIZE as u32, 0);
    assert(record@ == steam_xor_bytes(stored, STUB_HEADER_SIZE as int, 0));
    assert(key == stub_last_key(image.bytes()));
    match StubHeader::parse(record.as_slice()) {
        Some(header) => if header.signature == STUB_SIGNATURE {
            Ok((header, key))
        } else {
            Err(UnpackError::Integrity)
        },
        None => Err(UnpackError::Integrity),
    }
}

/// The size of the payload, rounded up to a multiple of 16. `None` where
/// that is beyond 32 bits.
pub open spec fn rounded_payload_size(declared: u32) -> Option<u32> {
    if declared + 0x0f > u32::MAX {
        None
    } else {
        Some(((declared + 0x0f) as u32) & 0xffff_fff0)
    }
}

/// The payload of the wrapper, decoded under `key`: it starts at the offset
/// in the file of the start of the wrapper's section, which the control
/// header places at a distance in front of the entry point. Empty where the
/// header declares no payload. `Format` where that start lies in front of
/// address zero or has no offset in the file, where the rounded size is
/// beyond 32 bits, and where the payload is not all in the file.
#[verifier::opaque]
pub open spec fn payload_of(image: Seq<u8>, stub: StubInfo, key: u32) -> Result<
    Seq<u8>,
    UnpackError,
> {
    if entry_point(image) < stub.bind_section_offset {
        Err(UnpackError::Format)
    } else {
        match file_offset(image, (entry_point(image) - stub.bind_section_offset) as u32) {
            None => Err(UnpackError::Format),
            Some(start) => match rounded_payload_size(stub.payload_size) {
                None => Err(UnpackError::Format),
                Some(size) => if size == 0 {
                    Ok(Seq::empty())
                } else if start + size > image.len() {
                    Err(UnpackError::Format)
                } else {
                    Ok(steam_xor_bytes(image.subrange(start, start + size), size as int, key))
                },
            },
        }
    }
}

/// Decodes the payload of the wrapper under `key`, the key that decoding the
/// control header ended with.
pub fn decode_payload(image: &Image, stub: &StubHeader, key: u32) -> (r: Result<
    Vec<u8>,
    UnpackError,
>)
    requires
        image.wf(),
    ensures
        match payload_of(image.bytes(), stub@, key) {
            Ok(payload) => r matches Ok(v) && v@ == payload,
            Err(e) => r matches Err(f) && f == e,
        },
{
    proof {
        image.lemma_wf();
        reveal(payload_of);
    }
    let data = image.data();
    let entry = read_le_word(image.nt_headers().as_slice(), ENTRY_POINT_AT);
    assert(entry == entry_point(image.bytes()));
    if entry < stub.bind_section_offset {
        return Err(UnpackError::Format);
    }
    let start = match image.rva_to_file_offset(entry - stub.bind_section_offset) {
        Ok(start) => start,
        Err(e) => {
            return Err(e);
        },
    };
    if stub.payload_size > u32::MAX - 0x0f {
        return Err(UnpackError::Format);
    }
    let size: u32 = (stub.payload_size + 0x0f) & 0xffff_fff0;
    if size == 0 {
        return Ok(Vec::new());
    }
    if start > data.len() || size as usize > data.len() - start {
        return Err(UnpackError::Format);
    }
    let declared = stub.payload_size;
    assert(((declared + 0x0f) as u32) & 0xffff_fff0 != 0 ==> (((declared + 0x0f) as u32)
        & 0xffff_fff0) % 4 == 0 && (((declared + 0x0f) as u32) & 0xffff_fff0) >= 16)
        by (bit_vector)
        requires
            declared <= 0xffff_fff0u32,
    ;
    let mut payload = slice_to_vec(slice_subrange(data, start, start + size as usize));
    let _ = steam_xor(payload.as_mut_slice(), size, key);
    Ok(payload)
}

/// The low 32 bits of an address.
pub open spec fn low_word(address: u64) -> u32 {
    (address & 0xffff_ffff) as u32
}

/// The section that is decrypted: none where the control header says that
/// the code is not encrypted, else the section that owns the address of the
/// code, where one does and the file holds bytes for it.
pub open spec fn code_section_index(image: Seq<u8>, stub: StubInfo) -> Option<int> {
    if stub.flags & FLAG_NO_ENCRYPTION == FLAG_NO_ENCRYPTION {
        None
    } else {
        match owner_index(image_sections(image), low_word(stub.code_section_virtual_address)) {
            Some(index) => if image_sections(image)[index].size_of_raw_data > 0 {
                Some(index)
            } else {
                None
            },
            None => None,
        }
    }
}

/// The section that is decrypted is a section of the table: the first that
/// owns the address of the code, with bytes in the file, in a file whose
/// control header does not say that the code is not encrypted.
pub proof fn lemma_code_section_index(image: Seq<u8>, stub: StubInfo)
    requires
        code_section_index(image, stub) is Some,
    ensures
        ({
            let index = code_section_index(image, stub)->0;
            &&& stub.flags & FLAG_NO_ENCRYPTION != FLAG_NO_ENCRYPTION
            &&& 0 <= index < section_count(image)
            &&& is_first_owner(
                image_sections(image),
                low_word(stub.code_section_virtual_address),
                index,
            )
            &&& image_sections(image)[index].size_of_raw_data > 0
        }),
{
    lemma_owner_index_is_first(
        image_sections(image),
        low_word(stub.code_section_virtual_address),
    );
}

/// The encrypted bytes of the section at `index`: as many as the file holds
/// for it, from the file offset of its address on. `Format` where the
/// address has no file offset or the bytes are not all in the file.
pub open spec fn code_section_stored(image: Seq<u8>, index: int) -> Result<Seq<u8>, UnpackError> {
    let section = image_sections(image)[index];
    match file_offset(image, section.virtual_address) {
        None => Err(UnpackError::Format),
        Some(start) => if start + section.size_of_raw_data <= image.len() {
            Ok(image.subrange(start, start + section.size_of_raw_data))
        } else {
            Err(UnpackError::Format)
        },
    }
}

/// The decrypted code section, if one is decrypted. `Crypto` where the
/// stolen bytes and the section's bytes together are not a whole number of
/// cipher blocks.
#[verifier::opaque]
pub open spec fn decrypted_code(image: Seq<u8>, stub: StubInfo) -> Result<
    Option<Replacement>,
    UnpackError,
> {
    match code_section_index(image, stub) {
        None => Ok(None),
        Some(index) => match code_section_stored(image, index) {
            Err(e) => Err(e),
            Ok(stored) => if (stub.code_section_stolen_data.len() + stored.len()) % (
            BLOCK_SIZE as nat) != 0 {
                Err(UnpackError::Crypto)
            } else {
                Ok(
                    Some(
                        Replacement {
                            index,
                            bytes: code_section_plain(
                                stub.aes_key,
                                stub.aes_iv,
                                stub.code_section_stolen_data,
                                stored,
                            ),
                        },
                    ),
                )
            },
        },
    }
}

/// A decrypted section as plain values.
pub open spec fn replacement_view(replaced: Option<(usize, Vec<u8>)>) -> Option<Replacement> {
    match replaced {
        Some((index, bytes)) => Some(Replacement { index: index as int, bytes: bytes@ }),
        None => None,
    }
}

/// Decrypts the protected code section where the control header says that
/// it is encrypted: gives the index of the section and its plain bytes, the
/// stolen bytes first.
pub fn decrypt_code(image: &Image, stub: &StubHeader) -> (r: Result<
    Option<(usize, Vec<u8>)>,
    UnpackError,
>)
    requires
        image.wf(),
        stub.aes_key@.len() == KEY_SIZE,
        stub.aes_iv@.len() == BLOCK_SIZE,
    ensures
        match decrypted_code(image.bytes(), stub@) {
            Ok(replaced) => r matches Ok(v) && replacement_view(v) == replaced,
            Err(e) => r matches Err(f) && f == e,
        },
{
    proof {
        image.lemma_wf();
        reveal(decrypted_code);
    }
    if !stub.code_is_encrypted() {
        return Ok(None);
    }
    let address = stub.code_section_virtual_address;
    assert(address & 0xffff_ffff <= 0xffff_ffff) by (bit_vector);
    let rva = (address & 0xffff_ffff) as u32;
    let owner = get_owner_section(image, rva);
    proof {
        lemma_owner_index(
            section_infos(image.section_list()),
            rva,
            match owner {
                Some((index, _)) => Some(index),
                None => None,
            },
        );
    }
    let (index, section) = match owner {
        Some(found) => found,
        None => {
            return Ok(None);
        },
    };
    assert(section@ == image_sections(image.bytes())[index as int]);
    if section.size_of_raw_data == 0 {
        return Ok(None);
    }
    let data = image.data();
    let start = match image.rva_to_file_offset(section.virtual_address) {
        Ok(start) => start,
        Err(e) => {
            return Err(e);
        },
    };
    let size = section.size_of_raw_data as usize;
    if start > data.len() || size > data.len() - start {
        return Err(UnpackError::Format);
    }
    let stored = slice_subrange(data, start, start + size);
    match decrypt_code_section(
        stub.aes_key.as_slice(),
        stub.aes_iv.as_slice(),
        stub.code_section_stolen_data.as_slice(),
        stored,
    ) {
        Ok(plain) => Ok(Some((index, plain))),
        Err(e) => Err(e),
    }
}

/// The file without the wrapper, from a file that holds it: the control
/// header is found and decoded, the payload is decoded, the code section is
/// decrypted where it is encrypted, and the file is put together again with
/// the entry point that the control header recorded.
pub open spec fn unpacked(image: Seq<u8>) -> Result<Seq<u8>, UnpackError> {
    if stub_offset(image) is None {
        Err(UnpackError::Format)
    } else if stub_info(image).signature != STUB_SIGNATURE {
        Err(UnpackError::Integrity)
    } else {
        match payload_of(image, stub_info(image), stub_last_key(image)) {
            Err(e) => Err(e),
            Ok(_) => match decrypted_code(image, stub_info(image)) {
                Err(e) => Err(e),
                Ok(replaced) => within_memory(
                    rebuilt(image, low_word(stub_info(image).original_entry_point), replaced),
                ),
            },
        }
    }
}

/// Removes the wrapper from a parsed file that `check_is_variant31_x64` has
/// accepted: nothing is decoded or decrypted in a file that it has not.
pub fn strip_drm(image: &Image) -> (r: Result<Vec<u8>, UnpackError>)
    requires
        image.wf(),
        image_verdict(image.bytes(), section_infos(image.section_list())) is Ok,
    ensures
        match unpacked(image.bytes()) {
            Ok(out) => r matches Ok(v) && v@ == out,
            Err(e) => r matches Err(f) && f == e,
        },
{
    let (stub, key) = match read_stub_header(image) {
        Ok(found) => found,
        Err(e) => {
            return Err(e);
        },
    };
    match decode_payload(image, &stub, key) {
        Ok(_) => {},
        Err(e) => {
            return Err(e);
        },
    }
    let replaced = match decrypt_code(image, &stub) {
        Ok(replaced) => replaced,
        Err(e) => {
            return Err(e);
        },
    };
    let address = stub.original_entry_point;
    assert(address & 0xffff_ffff <= 0xffff_ffff) by (bit_vector);
    let entry = (address & 0xffff_ffff) as u32;
    match &replaced {
        Some((index, plain)) => reconstruct(image, entry, Some((*index, plain.as_slice()))),
        None => reconstruct(image, entry, None),
    }
}

/// What `strip_drm_from_exe` makes of a file: `Format` where its headers
/// are not aligned or do not pass pelite's checks, the verdict on the
/// variant where that is a refusal, else the file without the wrapper.
pub open spec fn stripped(image: Seq<u8>) -> Result<Seq<u8>, UnpackError> {
    if !(headers_aligned(image) && headers_valid(image)) {
        Err(UnpackError::Format)
    } else {
        match image_verdict(image, image_sections(image)) {
            Err(e) => Err(e),
            Ok(_) => unpacked(image),
        }
    }
}

/// Where the control header says that the code is not encrypted, no section
/// is decrypted.
pub proof fn lemma_not_encrypted(image: Seq<u8>, stub: StubInfo)
    requires
        stub.flags & FLAG_NO_ENCRYPTION == FLAG_NO_ENCRYPTION,
    ensures
        decrypted_code(image, stub) == Ok::<Option<Replacement>, UnpackError>(None),
{
    reveal(decrypted_code);
}

/// What is put in the place of a decrypted section: the stolen bytes and the
/// bytes of the section, decrypted, for the section that owns the address of
/// the code.
pub proof fn lemma_decrypted_bytes(image: Seq<u8>, stub: StubInfo)
    requires
        decrypted_code(image, stub) matches Ok(Some(r)),
    ensures
        ({
            let r = decrypted_code(image, stub)->Ok_0->0;
            &&& code_section_index(image, stub) == Some(r.index)
            &&& 0 <= r.index < section_count(image)
            &&& code_section_stored(image, r.index) matches Ok(stored) && r.bytes
                == code_section_plain(
                stub.aes_key,
                stub.aes_iv,
                stub.code_section_stolen_data,
                stored,
            ) && r.bytes.len() == stub.code_section_stolen_data.len() + stored.len()
        }),
{
    reveal(decrypted_code);
    lemma_code_section_index(image, stub);
}

/// Key, initialization vector and stolen bytes of a control header that was
/// found have their lengths.
pub proof fn lemma_stub_lengths(image: Seq<u8>)
    requires
        stub_offset(image) is Some,
    ensures
        stub_info(image).aes_key.len() == KEY_SIZE,
        stub_info(image).aes_iv.len() == BLOCK_SIZE,
        stub_info(image).code_section_stolen_data.len() == BLOCK_SIZE,
{
    reveal(stub_info);
}

/// A code section that is, with the stolen bytes, no whole number of cipher
/// blocks ends unpacking with `Crypto`, whatever else the file holds behind
/// a control header and a payload that are in order.
pub proof fn lemma_partial_blocks_refused(image: Seq<u8>)
    requires
        stub_offset(image) is Some,
        stub_info(image).signature == STUB_SIGNATURE,
        payload_of(image, stub_info(image), stub_last_key(image)) is Ok,
        code_section_index(image, stub_info(image)) matches Some(index) && code_section_stored(
            image,
            index,
        ) is Ok && image_sections(image)[index].size_of_raw_data % 16 != 0,
    ensures
        unpacked(image) == Err::<Seq<u8>, UnpackError>(UnpackError::Crypto),
        headers_aligned(image) && headers_valid(image) && image_verdict(
            image,
            image_sections(image),
        ) is Ok ==> stripped(image) == Err::<Seq<u8>, UnpackError>(UnpackError::Crypto),
{
    reveal(decrypted_code);
    lemma_stub_lengths(image);
    lemma_code_section_index(image, stub_info(image));
    let index = code_section_index(image, stub_info(image))->0;
    let stored = code_section_stored(image, index)->Ok_0;
    lemma_section_file_offset(
        image_sections(image),
        image_sections(image)[index].virtual_address,
        0,
    );
    assert(stored.len() == image_sections(image)[index].size_of_raw_data);
}

/// A file that is accepted as the variant has a section.
pub proof fn lemma_verdict_needs_section(image: Seq<u8>, sections: Seq<SectionInfo>)
    requires
        image_verdict(image, sections) is Ok,
    ensures
        sections.len() > 0,
{
    reveal(image_verdict);
}

/// When unpacking succeeds: the variant is accepted, the control header is
/// found and carries its signature, payload and code section are in order,
/// the bytes of every section lie in the file behind the headers and the
/// section table, and the result is no longer than a buffer can be.
pub proof fn lemma_stripped_succeeds(image: Seq<u8>)
    requires
        headers_aligned(image),
        headers_valid(image),
        laid_out(image),
        image_verdict(image, image_sections(image)) is Ok,
        stub_offset(image) is Some,
        stub_info(image).signature == STUB_SIGNATURE,
        payload_of(image, stub_info(image), stub_last_key(image)) is Ok,
        decrypted_code(image, stub_info(image)) matches Ok(replaced) && len_bound(image, replaced)
            <= usize::MAX,
    ensures
        stripped(image) is Ok,
        unpacked(image) == stripped(image),
{
    let entry = low_word(stub_info(image).original_entry_point);
    let replaced = decrypted_code(image, stub_info(image))->Ok_0;
    lemma_verdict_needs_section(image, image_sections(image));
    lemma_rebuilt_keeps(image, entry, replaced);
}

/// What a file that was unpacked holds: under headers that declare the
/// entry point that the control header recorded, and a zero checksum, all
/// that `kept` says, the decrypted bytes in the place of the section that
/// was decrypted.
pub proof fn lemma_stripped_keeps(image: Seq<u8>)
    requires
        laid_out(image),
        stripped(image) is Ok,
    ensures
        ({
            let out = stripped(image)->Ok_0;
            let entry = low_word(stub_info(image).original_entry_point);
            let at = headers_len(image) - NT_HEADERS_SIZE - DATA_DIRECTORY_SIZE * directory_count(
                image,
            );
            &&& decrypted_code(image, stub_info(image)) matches Ok(replaced) && kept(
                image,
                entry,
                replaced,
                out,
            )
            &&& le_word(out, at + ENTRY_POINT_AT) == entry
            &&& le_word(out, at + CHECKSUM_AT) == 0
        }),
{
    let entry = low_word(stub_info(image).original_entry_point);
    let replaced = decrypted_code(image, stub_info(image))->Ok_0;
    lemma_verdict_needs_section(image, image_sections(image));
    lemma_rebuilt_keeps(image, entry, replaced);
    lemma_rebuilt_entry_point(image, entry, replaced);
}

/// A file that was unpacked holds the code as it was before it was
/// encrypted: where the stolen bytes and the bytes of the code section are
/// what `plain` is stored as under the key of the control header and the
/// initialization vector `iv`, and the control header holds `iv` encrypted,
/// the bytes that take the place of the code section are `plain`, and `kept`
/// says where they stand.
pub proof fn lemma_stripped_holds_plain_code(
    image: Seq<u8>,
    enc: spec_fn(Seq<u8>) -> Seq<u8>,
    iv: Seq<u8>,
    plain: Seq<u8>,
)
    requires
        laid_out(image),
        stripped(image) is Ok,
        undone_by_aes256(enc, stub_info(image).aes_key),
        iv.len() == BLOCK_SIZE,
        plain.len() % (BLOCK_SIZE as nat) == 0,
        stub_info(image).aes_iv == enc(iv),
        code_section_index(image, stub_info(image)) matches Some(index) && code_section_stored(
            image,
            index,
        ) matches Ok(stored) && stub_info(image).code_section_stolen_data + stored == cbc_stored(
            enc,
            iv,
            plain,
        ),
    ensures
        decrypted_code(image, stub_info(image)) matches Ok(Some(r)) && r.index
            == code_section_index(image, stub_info(image))->0 && 0 <= r.index < section_count(
            image,
        ) && r.bytes == plain && kept(
            image,
            low_word(stub_info(image).original_entry_point),
            Some(r),
            stripped(image)->Ok_0,
        ),
{
    let stub = stub_info(image);
    reveal(decrypted_code);
    lemma_code_section_index(image, stub);
    lemma_stripped_keeps(image);
    lemma_cbc_round_trip(enc, stub.aes_key, iv, plain);
    let index = code_section_index(image, stub)->0;
    let stored = code_section_stored(image, index)->Ok_0;
    assert(code_section_plain(stub.aes_key, enc(iv), stub.code_section_stolen_data, stored)
        == plain);
}

/// Removes the wrapper from a file: parses it, confirms the variant, and
/// strips it.
pub fn strip_drm_from_exe(file: &[u8]) -> (r: Result<Vec<u8>, UnpackError>)
    ensures
        match stripped(file@) {
            Ok(out) => r matches Ok(v) && v@ == out,
            Err(e) => r matches Err(f) && f == e,
        },
{
    let image = match Image::parse(file) {
        Ok(image) => image,
        Err(e) => {
            return Err(e);
        },
    };
    proof {
        image.lemma_wf();
    }
    match check_is_variant31_x64(&image) {
        Ok(_) => {},
        Err(e) => {
            return Err(e);
        },
    }
    strip_drm(&image)
}

} // verus!
