use aes::cipher::generic_array::GenericArray;
use aes::cipher::{BlockEncryptMut, KeyInit, KeyIvInit};
use cbc::cipher::block_padding::NoPadding;
use steamnvke::bytes::parse_pattern;
use steamnvke::drm::{
    bind_section, bind_section_index, check_bind_section, check_is_variant31_x64, decode_payload,
    decrypt_code, get_owner_section, read_stub_header, strip_drm, strip_drm_from_exe,
    OFFSET_TEXT_LEA_41, OFFSET_TEXT_LEA_48, OFFSET_TEXT_MOV, SIGNATURE_TEXT,
};
use steamnvke::error::UnpackError;
use steamnvke::image::{is_aligned, Image};
use steamnvke::rebuild::reconstruct;
use steamnvke::stub::StubHeader;

const NT: usize = 0x80;
const TABLE: usize = NT + 24 + 240;
const TEXT_RAW: usize = 0x200;
const TEXT_SIZE: usize = 0x200;
const BIND_RAW: usize = 0x400;
const BIND_SIZE: usize = 0x400;
const ENTRY_RVA: u32 = 0x2100;
const ENTRY_OFFSET: usize = 0x500;
const ORIGINAL_ENTRY: u32 = 0x1234;
const SIGNATURE: [u8; 14] = [
    0xE8, 0x00, 0x00, 0x00, 0x00, 0x50, 0x53, 0x51, 0x52, 0x56, 0x57, 0x55, 0x41, 0x50,
];

fn put16(data: &mut [u8], at: usize, v: u16) {
    data[at..at + 2].copy_from_slice(&v.to_le_bytes());
}

fn put32(data: &mut [u8], at: usize, v: u32) {
    data[at..at + 4].copy_from_slice(&v.to_le_bytes());
}

fn put64(data: &mut [u8], at: usize, v: u64) {
    data[at..at + 8].copy_from_slice(&v.to_le_bytes());
}

fn get32(data: &[u8], at: usize) -> u32 {
    u32::from_le_bytes([data[at], data[at + 1], data[at + 2], data[at + 3]])
}

fn put_section(data: &mut [u8], index: usize, name: &[u8], va: u32, vs: u32, raw: u32, size: u32) {
    let at = TABLE + 40 * index;
    data[at..at + name.len()].copy_from_slice(name);
    put32(data, at + 8, vs);
    put32(data, at + 12, va);
    put32(data, at + 16, size);
    put32(data, at + 20, raw);
    put32(data, at + 36, 0x6000_0020);
}

/// A file of two sections, `.text` and `.bind`, with 32 bytes behind them.
fn plain_image() -> Vec<u8> {
    let mut data = vec![0u8; 0x820];
    data[0] = b'M';
    data[1] = b'Z';
    put32(&mut data, 60, NT as u32);
    for i in 64..NT {
        data[i] = 0xCC;
    }
    data[NT..NT + 4].copy_from_slice(b"PE\0\0");
    put16(&mut data, NT + 4, 0x8664);
    put16(&mut data, NT + 6, 2);
    put16(&mut data, NT + 20, 240);
    put16(&mut data, NT + 22, 0x22);
    put16(&mut data, NT + 24, 0x20b);
    put32(&mut data, NT + 40, ENTRY_RVA);
    put64(&mut data, NT + 48, 0x1_4000_0000);
    put32(&mut data, NT + 56, 0x1000);
    put32(&mut data, NT + 60, 0x200);
    put32(&mut data, NT + 80, 0x3000);
    put32(&mut data, NT + 84, 0x200);
    put32(&mut data, NT + 88, 0xDEAD_BEEF);
    put32(&mut data, NT + 132, 16);
    for i in 0..16 {
        put32(&mut data, NT + 136 + 8 * i, 0x1000 + i as u32);
        put32(&mut data, NT + 136 + 8 * i + 4, 0x10 * i as u32);
    }
    put_section(&mut data, 0, b".text", 0x1000, 0x200, TEXT_RAW as u32, TEXT_SIZE as u32);
    put_section(&mut data, 1, b".bind", 0x2000, 0x400, BIND_RAW as u32, BIND_SIZE as u32);
    for i in 0..TEXT_SIZE {
        data[TEXT_RAW + i] = (i * 7 + 3) as u8;
    }
    for i in 0..BIND_SIZE {
        data[BIND_RAW + i] = 0x90;
    }
    for i in 0..32 {
        data[0x800 + i] = 0xA0 + i as u8;
    }
    data
}

fn stub_record(flags: u32, payload_size: u32, code_va: u64) -> Vec<u8> {
    let mut record = vec![0u8; 0xF0];
    put32(&mut record, 0, 0x1357_9BDF);
    put32(&mut record, 4, 0xC0DE_C0DF);
    put64(&mut record, 8, 0x1_4000_0000);
    put64(&mut record, 16, ENTRY_RVA as u64);
    put32(&mut record, 24, 0x100);
    put64(&mut record, 32, 0xFFFF_0000_0000_0000 | ORIGINAL_ENTRY as u64);
    put32(&mut record, 44, payload_size);
    put32(&mut record, 56, 480);
    put32(&mut record, 60, flags);
    put32(&mut record, 64, 0x400);
    put64(&mut record, 72, code_va);
    put64(&mut record, 80, TEXT_SIZE as u64);
    for i in 0..32 {
        record[88 + i] = (i * 7 + 1) as u8;
    }
    for i in 152..0xF0 {
        record[i] = i as u8;
    }
    record
}

/// The record as the wrapper stores it: the first word is the key, every
/// other word is XOR the stored word before it.
fn encode_stub(record: &[u8]) -> Vec<u8> {
    let mut out = record[..4].to_vec();
    let mut key = get32(record, 0);
    for at in (4..record.len()).step_by(4) {
        let stored = get32(record, at) ^ key;
        out.extend_from_slice(&stored.to_le_bytes());
        key = stored;
    }
    out
}

fn place_stub(data: &mut [u8], record: &[u8]) {
    let stored = encode_stub(record);
    data[ENTRY_OFFSET - 0xF0..ENTRY_OFFSET].copy_from_slice(&stored);
}

fn place_code(data: &mut [u8], size_at: usize) {
    data[ENTRY_OFFSET..ENTRY_OFFSET + 14].copy_from_slice(&SIGNATURE);
    data[size_at..size_at + 8].copy_from_slice(&[0x48, 0x8D, 0x91, 0xF0, 0x00, 0x00, 0x00, 0x48]);
}

/// A wrapped file whose code section is not encrypted.
fn wrapped_image() -> Vec<u8> {
    let mut data = plain_image();
    place_stub(&mut data, &stub_record(4, 0, 0x1000));
    place_code(&mut data, 0x520);
    data
}

fn cipher_key() -> [u8; 32] {
    let mut key = [0u8; 32];
    for (i, b) in key.iter_mut().enumerate() {
        *b = (i * 7 + 1) as u8;
    }
    key
}

/// A wrapped file whose code section is encrypted, and the plain code: 16
/// bytes that were taken out of the section, then the section's bytes.
fn encrypted_image() -> (Vec<u8>, Vec<u8>) {
    let mut data = plain_image();
    let key = cipher_key();
    let iv = [0x5Au8; 16];
    let plain: Vec<u8> = (0..TEXT_SIZE + 16).map(|i| (i * 11 + 5) as u8).collect();
    let mut stored = plain.clone();
    let len = stored.len();
    cbc::Encryptor::<aes::Aes256>::new(GenericArray::from_slice(&key), GenericArray::from_slice(&iv))
        .encrypt_padded_mut::<NoPadding>(&mut stored, len)
        .unwrap();
    let mut encrypted_iv = iv.to_vec();
    aes::Aes256::new(GenericArray::from_slice(&key))
        .encrypt_padded_mut::<NoPadding>(&mut encrypted_iv, 16)
        .unwrap();
    let mut record = stub_record(0, 0, 0x1_0000_1010);
    record[120..136].copy_from_slice(&encrypted_iv);
    record[136..152].copy_from_slice(&stored[..16]);
    data[TEXT_RAW..TEXT_RAW + TEXT_SIZE].copy_from_slice(&stored[16..]);
    place_stub(&mut data, &record);
    place_code(&mut data, 0x520);
    (data, plain)
}

#[test]
fn parse_reads_the_header_records() {
    let data = plain_image();
    let image = Image::parse(&data).unwrap();
    assert_eq!(image.data(), &data[..]);
    assert_eq!(image.dos_header()[..], data[..64]);
    assert_eq!(image.nt_headers()[..], data[NT..NT + 136]);
    assert_eq!(image.data_directory()[..], data[NT + 136..NT + 136 + 128]);
    assert_eq!(image.section_table()[..], data[TABLE..TABLE + 80]);
}

#[test]
fn parse_reads_the_section_table() {
    let data = plain_image();
    let image = Image::parse(&data).unwrap();
    let sections = image.sections();
    assert_eq!(sections.len(), 2);
    assert_eq!(&sections[0].name, b".text\0\0\0");
    assert_eq!(sections[0].virtual_address, 0x1000);
    assert_eq!(sections[0].virtual_size, 0x200);
    assert_eq!(sections[0].pointer_to_raw_data, 0x200);
    assert_eq!(sections[0].size_of_raw_data, 0x200);
    assert_eq!(sections[0].characteristics, 0x6000_0020);
    assert_eq!(&sections[1].name, b".bind\0\0\0");
    assert_eq!(sections[1].virtual_address, 0x2000);
    assert_eq!(sections[1].pointer_to_raw_data, 0x400);
}

#[test]
fn parse_limits_the_data_directory_to_sixteen_entries() {
    let mut data = plain_image();
    put32(&mut data, NT + 132, 40);
    let image = Image::parse(&data).unwrap();
    assert_eq!(image.data_directory().len(), 128);
    put32(&mut data, NT + 132, 3);
    let image = Image::parse(&data).unwrap();
    assert_eq!(image.data_directory()[..], data[NT + 136..NT + 136 + 24]);
}

#[test]
fn parse_refuses_what_is_no_pe_file() {
    assert_eq!(Image::parse(&[]).err(), Some(UnpackError::Format));
    assert_eq!(Image::parse(&[0u8; 64]).err(), Some(UnpackError::Format));
    let mut data = plain_image();
    data[0] = b'X';
    assert_eq!(Image::parse(&data).err(), Some(UnpackError::Format));
    let mut data = plain_image();
    put16(&mut data, NT + 24, 0x10b);
    assert_eq!(Image::parse(&data).err(), Some(UnpackError::Format));
    let mut data = plain_image();
    put16(&mut data, NT + 6, 200);
    assert_eq!(Image::parse(&data).err(), Some(UnpackError::Format));
    let data = plain_image();
    assert_eq!(Image::parse(&data[..TABLE + 40]).err(), Some(UnpackError::Format));
}

#[test]
fn a_section_table_off_a_multiple_of_four_is_refused() {
    let mut data = plain_image();
    put16(&mut data, NT + 20, 0xF1);
    data.copy_within(TABLE..TABLE + 80, TABLE + 1);
    assert!(!is_aligned(&data));
    assert_eq!(Image::parse(&data).err(), Some(UnpackError::Format));
    assert_eq!(strip_drm_from_exe(&data), Err(UnpackError::Format));

    let mut data = plain_image();
    put16(&mut data, NT + 20, 0xF2);
    assert_eq!(Image::parse(&data).err(), Some(UnpackError::Format));

    let mut data = plain_image();
    put16(&mut data, NT + 20, 0xF4);
    data.copy_within(TABLE..TABLE + 80, TABLE + 4);
    assert!(is_aligned(&data));
    let image = Image::parse(&data).unwrap();
    assert_eq!(image.section_table()[..], data[TABLE + 4..TABLE + 84]);
    assert_eq!(&image.sections()[1].name, b".bind\0\0\0");
}

#[test]
fn nt_headers_off_a_multiple_of_eight_are_refused() {
    let mut data = plain_image();
    put32(&mut data, 60, 0x44);
    data.copy_within(NT..TABLE + 80, 0x44);
    assert!(!is_aligned(&data));
    assert_eq!(Image::parse(&data).err(), Some(UnpackError::Format));
    assert_eq!(strip_drm_from_exe(&data), Err(UnpackError::Format));

    let mut data = plain_image();
    put32(&mut data, 60, 0x48);
    data.copy_within(NT..TABLE + 80, 0x48);
    assert!(is_aligned(&data));
    let image = Image::parse(&data).unwrap();
    assert_eq!(image.nt_headers()[..], data[0x48..0x48 + 136]);
    assert_eq!(image.sections().len(), 2);
}

#[test]
fn a_buffer_at_any_address_is_parsed() {
    let data = wrapped_image();
    let expected = strip_drm_from_exe(&data).unwrap();
    for shift in 1..9usize {
        let mut room = vec![0u8; data.len() + shift];
        room[shift..].copy_from_slice(&data);
        let file = &room[shift..];
        let image = Image::parse(file).unwrap();
        assert_eq!(image.sections().len(), 2);
        assert_eq!(image.rva_to_file_offset(ENTRY_RVA), Ok(ENTRY_OFFSET));
        assert_eq!(check_is_variant31_x64(&image), Ok(()));
        assert_eq!(strip_drm_from_exe(file), Ok(expected.clone()));
    }
}

#[test]
fn files_of_every_length_are_parsed_or_refused() {
    let data = plain_image();
    for len in 0..TABLE + 80 {
        assert_eq!(Image::parse(&data[..len]).err(), Some(UnpackError::Format));
    }
    for len in 0x200..0x210 {
        assert!(Image::parse(&data[..len]).is_ok());
    }
    let mut small = plain_image();
    put32(&mut small, NT + 84, TABLE as u32 + 80);
    for len in TABLE + 80..TABLE + 90 {
        let image = Image::parse(&small[..len]).unwrap();
        assert_eq!(image.rva_to_file_offset(0x10), Ok(0x10));
        assert_eq!(image.rva_to_file_offset(0x1000), Ok(0x200));
    }
}

#[test]
fn files_too_short_for_their_headers_are_not_aligned() {
    assert!(!is_aligned(&[]));
    assert!(!is_aligned(&[0u8; 63]));
    let data = plain_image();
    assert!(is_aligned(&data));
    assert!(is_aligned(&data[..NT + 24]));
    assert!(!is_aligned(&data[..NT + 23]));
    let mut far = plain_image();
    put32(&mut far, 60, 0x1000);
    assert!(!is_aligned(&far));
}

#[test]
fn section_bytes_are_those_of_the_file() {
    let data = plain_image();
    let image = Image::parse(&data).unwrap();
    assert_eq!(image.section_bytes(0), Ok(&data[0x200..0x400]));
    assert_eq!(image.section_bytes(1), Ok(&data[0x400..0x800]));
}

#[test]
fn section_bytes_outside_the_file_are_refused() {
    let mut data = plain_image();
    put32(&mut data, TABLE + 40 + 16, 0x421);
    let image = Image::parse(&data).unwrap();
    assert_eq!(image.section_bytes(1), Err(UnpackError::Format));
    assert_eq!(image.section_bytes(0), Ok(&data[0x200..0x400]));

    let mut data = plain_image();
    put32(&mut data, TABLE + 20, 0);
    let image = Image::parse(&data).unwrap();
    assert_eq!(image.section_bytes(0), Err(UnpackError::Format));

    let mut data = plain_image();
    put32(&mut data, TABLE + 20, 0xFFFF_FF00);
    put32(&mut data, TABLE + 16, 0x200);
    let image = Image::parse(&data).unwrap();
    assert_eq!(image.section_bytes(0), Err(UnpackError::Format));

    let mut data = plain_image();
    put32(&mut data, TABLE + 40 + 16, 0x420);
    let image = Image::parse(&data).unwrap();
    assert_eq!(image.section_bytes(1), Ok(&data[0x400..0x820]));
}

#[test]
fn an_empty_section_has_no_bytes() {
    let mut data = plain_image();
    put32(&mut data, TABLE + 16, 0);
    let image = Image::parse(&data).unwrap();
    assert_eq!(image.section_bytes(0), Ok(&data[0..0]));
}

#[test]
fn addresses_translate_through_the_section_table() {
    let data = plain_image();
    let image = Image::parse(&data).unwrap();
    assert_eq!(image.rva_to_file_offset(0), Ok(0));
    assert_eq!(image.rva_to_file_offset(0x1FF), Ok(0x1FF));
    assert_eq!(image.rva_to_file_offset(0x200), Err(UnpackError::Format));
    assert_eq!(image.rva_to_file_offset(0xFFF), Err(UnpackError::Format));
    assert_eq!(image.rva_to_file_offset(0x1000), Ok(0x200));
    assert_eq!(image.rva_to_file_offset(0x11FF), Ok(0x3FF));
    assert_eq!(image.rva_to_file_offset(0x1200), Err(UnpackError::Format));
    assert_eq!(image.rva_to_file_offset(0x2000), Ok(0x400));
    assert_eq!(image.rva_to_file_offset(ENTRY_RVA), Ok(ENTRY_OFFSET));
    assert_eq!(image.rva_to_file_offset(0x23FF), Ok(0x7FF));
    assert_eq!(image.rva_to_file_offset(0x2400), Err(UnpackError::Format));
    assert_eq!(image.rva_to_file_offset(0xFFFF_FFFF), Err(UnpackError::Format));
}

#[test]
fn addresses_behind_the_bytes_in_the_file_have_no_offset() {
    let mut data = plain_image();
    put32(&mut data, TABLE + 8, 0x800);
    let image = Image::parse(&data).unwrap();
    assert_eq!(image.rva_to_file_offset(0x11FF), Ok(0x3FF));
    assert_eq!(image.rva_to_file_offset(0x1200), Err(UnpackError::Format));
    assert_eq!(image.rva_to_file_offset(0x17FF), Err(UnpackError::Format));

    let mut data = plain_image();
    put32(&mut data, TABLE + 8, 0x100);
    let image = Image::parse(&data).unwrap();
    assert_eq!(image.rva_to_file_offset(0x11FF), Ok(0x3FF));

    let mut data = plain_image();
    put32(&mut data, TABLE + 20, 0xFFFF_FF00);
    let image = Image::parse(&data).unwrap();
    assert_eq!(image.rva_to_file_offset(0x1000), Err(UnpackError::Format));
}

#[test]
fn the_first_section_that_holds_an_address_decides() {
    let mut data = plain_image();
    put32(&mut data, TABLE + 40 + 12, 0x1100);
    let image = Image::parse(&data).unwrap();
    assert_eq!(image.rva_to_file_offset(0x1100), Ok(0x300));
    assert_eq!(image.rva_to_file_offset(0x1200), Ok(0x500));
    assert_eq!(get_owner_section(&image, 0x1100).map(|(i, _)| i), Some(0));
    assert_eq!(get_owner_section(&image, 0x1200).map(|(i, _)| i), Some(1));
}

#[test]
fn owner_section_goes_by_the_size_in_memory() {
    let data = plain_image();
    let image = Image::parse(&data).unwrap();
    assert!(get_owner_section(&image, 0xFFF).is_none());
    let (index, header) = get_owner_section(&image, 0x1000).unwrap();
    assert_eq!(index, 0);
    assert_eq!(header.virtual_address, 0x1000);
    assert_eq!(get_owner_section(&image, 0x11FF).map(|(i, _)| i), Some(0));
    assert!(get_owner_section(&image, 0x1200).is_none());
    assert_eq!(get_owner_section(&image, 0x2000).map(|(i, _)| i), Some(1));
    assert_eq!(get_owner_section(&image, 0x23FF).map(|(i, _)| i), Some(1));
    assert!(get_owner_section(&image, 0x2400).is_none());
    assert!(get_owner_section(&image, 0).is_none());
}

#[test]
fn owner_section_falls_back_to_the_size_in_the_file() {
    let mut data = plain_image();
    put32(&mut data, TABLE + 8, 0);
    let image = Image::parse(&data).unwrap();
    assert_eq!(get_owner_section(&image, 0x11FF).map(|(i, _)| i), Some(0));
    assert!(get_owner_section(&image, 0x1200).is_none());

    let mut data = plain_image();
    put32(&mut data, TABLE + 8, 0x10);
    let image = Image::parse(&data).unwrap();
    assert_eq!(get_owner_section(&image, 0x100F).map(|(i, _)| i), Some(0));
    assert!(get_owner_section(&image, 0x1010).is_none());
}

#[test]
fn owner_section_does_not_wrap_around() {
    let mut data = plain_image();
    put32(&mut data, TABLE + 12, 0xFFFF_F000);
    put32(&mut data, TABLE + 8, 0x2000);
    let image = Image::parse(&data).unwrap();
    assert_eq!(get_owner_section(&image, 0xFFFF_FFFF).map(|(i, _)| i), Some(0));
    assert!(get_owner_section(&image, 0x10).is_none());
}

#[test]
fn the_bind_section_is_found_by_name() {
    let data = plain_image();
    let image = Image::parse(&data).unwrap();
    assert_eq!(bind_section_index(&image), Some(1));
    assert_eq!(bind_section(&image), Ok(&data[0x400..0x800]));
}

#[test]
fn zero_bytes_in_a_name_do_not_count() {
    let mut data = plain_image();
    data[TABLE..TABLE + 8].copy_from_slice(b"\0.b\0ind\0");
    let image = Image::parse(&data).unwrap();
    assert_eq!(bind_section_index(&image), Some(0));
    assert_eq!(bind_section(&image), Ok(&data[0x200..0x400]));
}

#[test]
fn other_names_are_not_the_bind_section() {
    for name in [&b".bind1\0\0"[..], b".bin\0\0\0\0", b".BIND\0\0\0", b"bind\0\0\0\0", b"\0\0\0\0\0\0\0\0"] {
        let mut data = plain_image();
        data[TABLE + 40..TABLE + 48].copy_from_slice(name);
        let image = Image::parse(&data).unwrap();
        assert_eq!(bind_section_index(&image), None);
        assert_eq!(bind_section(&image), Err(UnpackError::Format));
        assert_eq!(check_is_variant31_x64(&image), Err(UnpackError::Format));
    }
}

#[test]
fn a_bind_section_outside_the_file_is_refused() {
    let mut data = wrapped_image();
    put32(&mut data, TABLE + 40 + 16, 0x1000);
    let image = Image::parse(&data).unwrap();
    assert_eq!(bind_section(&image), Err(UnpackError::Format));
    assert_eq!(check_is_variant31_x64(&image), Err(UnpackError::Format));
}

#[test]
fn the_variant_is_accepted() {
    let data = wrapped_image();
    let image = Image::parse(&data).unwrap();
    assert_eq!(check_is_variant31_x64(&image), Ok(()));
}

#[test]
fn another_header_size_is_refused() {
    for size in [0xF1u32, 0xEF, 0, 0x1F0, 0xF000_00F0] {
        let mut data = wrapped_image();
        put32(&mut data, 0x523, size);
        let image = Image::parse(&data).unwrap();
        assert_eq!(check_is_variant31_x64(&image), Err(UnpackError::UnsupportedVariant));
    }
}

#[test]
fn without_the_bind_section_the_file_is_refused() {
    let mut data = wrapped_image();
    data[TABLE + 40..TABLE + 48].copy_from_slice(b".data\0\0\0");
    let image = Image::parse(&data).unwrap();
    assert_eq!(check_is_variant31_x64(&image), Err(UnpackError::Format));
    assert_eq!(strip_drm_from_exe(&data), Err(UnpackError::Format));
}

#[test]
fn without_the_signature_the_file_is_refused() {
    let mut data = wrapped_image();
    data[ENTRY_OFFSET + 13] = 0x51;
    let image = Image::parse(&data).unwrap();
    assert_eq!(check_is_variant31_x64(&image), Err(UnpackError::UnsupportedVariant));
    assert_eq!(strip_drm_from_exe(&data), Err(UnpackError::UnsupportedVariant));
}

fn bind_with(code: &[u8], at: usize) -> Vec<u8> {
    let mut bind = vec![0x90u8; 0x100];
    bind[0x10..0x10 + 14].copy_from_slice(&SIGNATURE);
    bind[at..at + code.len()].copy_from_slice(code);
    bind
}

#[test]
fn the_pattern_texts_are_well_formed() {
    let signature: Vec<Option<u8>> = SIGNATURE.iter().map(|b| Some(*b)).collect();
    assert_eq!(parse_pattern(SIGNATURE_TEXT), Some(signature));
    assert_eq!(
        parse_pattern(OFFSET_TEXT_LEA_48),
        Some(vec![Some(0x48), Some(0x8D), Some(0x91), None, None, None, None, Some(0x48)])
    );
    assert_eq!(
        parse_pattern(OFFSET_TEXT_LEA_41),
        Some(vec![Some(0x48), Some(0x8D), Some(0x91), None, None, None, None, Some(0x41)])
    );
    let mov = parse_pattern(OFFSET_TEXT_MOV).unwrap();
    assert_eq!(mov.len(), 13);
    assert_eq!(mov[..4], [Some(0x48), Some(0xC7), Some(0x84), Some(0x24)]);
    assert_eq!(mov[4..12], [None; 8]);
    assert_eq!(mov[12], Some(0x48));
}

#[test]
fn each_form_of_the_size_instruction_is_read() {
    let lea_48 = [0x48, 0x8D, 0x91, 0xF0, 0, 0, 0, 0x48];
    let lea_41 = [0x48, 0x8D, 0x91, 0xF0, 0, 0, 0, 0x41];
    let mov = [0x48, 0xC7, 0x84, 0x24, 0x11, 0x22, 0x33, 0x44, 0xF0, 0, 0, 0, 0x48];
    assert_eq!(check_bind_section(&bind_with(&lea_48, 0x40)), Ok(()));
    assert_eq!(check_bind_section(&bind_with(&lea_41, 0x40)), Ok(()));
    assert_eq!(check_bind_section(&bind_with(&mov, 0x40)), Ok(()));
    assert_eq!(check_bind_section(&bind_with(&lea_48, 0x100 - 8)), Ok(()));
    assert_eq!(check_bind_section(&bind_with(&mov, 0x100 - 13)), Ok(()));
}

#[test]
fn the_third_form_is_read_five_bytes_further_on() {
    let at_start = [0x48, 0xC7, 0x84, 0x24, 0xF0, 0, 0, 0, 0x11, 0x22, 0x33, 0x44, 0x48];
    assert_eq!(
        check_bind_section(&bind_with(&at_start, 0x40)),
        Err(UnpackError::UnsupportedVariant)
    );
    let shifted = [0x48, 0xC7, 0x84, 0x24, 0x11, 0x22, 0x33, 0x44, 0xF1, 0, 0, 0, 0x48];
    assert_eq!(
        check_bind_section(&bind_with(&shifted, 0x40)),
        Err(UnpackError::UnsupportedVariant)
    );
}

#[test]
fn the_forms_are_tried_in_order() {
    // A first form with another size stands behind a second form with the
    // right one: the first form decides.
    let mut bind = bind_with(&[0x48, 0x8D, 0x91, 0xF0, 0, 0, 0, 0x41], 0x40);
    bind[0x80..0x88].copy_from_slice(&[0x48, 0x8D, 0x91, 0xF1, 0, 0, 0, 0x48]);
    assert_eq!(check_bind_section(&bind), Err(UnpackError::UnsupportedVariant));
    // Of two matches of one form the first decides.
    let mut bind = bind_with(&[0x48, 0x8D, 0x91, 0xF0, 0, 0, 0, 0x48], 0x40);
    bind[0x80..0x88].copy_from_slice(&[0x48, 0x8D, 0x91, 0xF1, 0, 0, 0, 0x48]);
    assert_eq!(check_bind_section(&bind), Ok(()));
    let mut bind = bind_with(&[0x48, 0x8D, 0x91, 0xF1, 0, 0, 0, 0x48], 0x40);
    bind[0x80..0x88].copy_from_slice(&[0x48, 0x8D, 0x91, 0xF0, 0, 0, 0, 0x48]);
    assert_eq!(check_bind_section(&bind), Err(UnpackError::UnsupportedVariant));
}

#[test]
fn bytes_without_the_code_are_refused() {
    assert_eq!(check_bind_section(&[]), Err(UnpackError::UnsupportedVariant));
    assert_eq!(check_bind_section(&SIGNATURE), Err(UnpackError::UnsupportedVariant));
    let no_signature = {
        let mut bind = bind_with(&[0x48, 0x8D, 0x91, 0xF0, 0, 0, 0, 0x48], 0x40);
        bind[0x10] = 0xE9;
        bind
    };
    assert_eq!(check_bind_section(&no_signature), Err(UnpackError::UnsupportedVariant));
}

#[test]
fn the_control_header_is_decoded() {
    let data = wrapped_image();
    let image = Image::parse(&data).unwrap();
    let (stub, key) = read_stub_header(&image).unwrap();
    assert_eq!(stub.xor_key, 0x1357_9BDF);
    assert_eq!(stub.signature, 0xC0DE_C0DF);
    assert_eq!(stub.image_base, 0x1_4000_0000);
    assert_eq!(stub.address_of_entry_point, ENTRY_RVA as u64);
    assert_eq!(stub.bind_section_offset, 0x100);
    assert_eq!(stub.original_entry_point, 0xFFFF_0000_0000_1234);
    assert_eq!(stub.payload_size, 0);
    assert_eq!(stub.steam_app_id, 480);
    assert_eq!(stub.flags, 4);
    assert_eq!(stub.bind_section_virtual_size, 0x400);
    assert_eq!(stub.code_section_virtual_address, 0x1000);
    assert_eq!(stub.code_section_raw_size, 0x200);
    assert_eq!(stub.aes_key, cipher_key().to_vec());
    assert_eq!(stub.aes_iv, vec![0u8; 16]);
    assert_eq!(stub.code_section_stolen_data, vec![0u8; 16]);
    assert!(!stub.code_is_encrypted());
    assert_eq!(key, get32(&data, ENTRY_OFFSET - 4));
}

#[test]
fn a_control_header_record_is_read_field_by_field() {
    let record = stub_record(0x0000_0104, 0x21, 0x1_0000_1000);
    let stub = StubHeader::parse(&record).unwrap();
    assert_eq!(stub.flags, 0x104);
    assert!(!stub.code_is_encrypted());
    assert_eq!(stub.payload_size, 0x21);
    assert_eq!(stub.code_section_virtual_address, 0x1_0000_1000);
    assert_eq!(stub.drmp_dll_offset, 0);
    assert_eq!(stub.drmp_dll_size, 0);
    let record = stub_record(0x0000_0103, 0, 0);
    assert!(StubHeader::parse(&record).unwrap().code_is_encrypted());
    assert!(StubHeader::parse(&record[..0xEF]).is_none());
    assert!(StubHeader::parse(&[]).is_none());
    let mut longer = record.clone();
    longer.push(0);
    assert!(StubHeader::parse(&longer).is_none());
}

#[test]
fn a_wrong_signature_is_an_integrity_error() {
    let mut data = wrapped_image();
    let mut record = stub_record(4, 0, 0x1000);
    put32(&mut record, 4, 0xC0DE_C0DE);
    place_stub(&mut data, &record);
    let image = Image::parse(&data).unwrap();
    assert_eq!(read_stub_header(&image).err(), Some(UnpackError::Integrity));
    assert_eq!(strip_drm(&image), Err(UnpackError::Integrity));
    assert_eq!(strip_drm_from_exe(&data), Err(UnpackError::Integrity));
}

#[test]
fn an_entry_point_with_no_room_in_front_is_a_format_error() {
    let mut data = wrapped_image();
    put32(&mut data, NT + 40, 0x40);
    let image = Image::parse(&data).unwrap();
    assert_eq!(read_stub_header(&image).err(), Some(UnpackError::Format));
    assert_eq!(strip_drm(&image), Err(UnpackError::Format));

    let mut data = wrapped_image();
    put32(&mut data, NT + 40, 0x5000);
    let image = Image::parse(&data).unwrap();
    assert_eq!(read_stub_header(&image).err(), Some(UnpackError::Format));
}

#[test]
fn the_payload_is_decoded_with_the_key_of_the_header() {
    let mut data = wrapped_image();
    place_stub(&mut data, &stub_record(4, 0x09, 0x1000));
    for i in 0..0x10 {
        data[0x400 + i] = (i * 3 + 1) as u8;
    }
    let image = Image::parse(&data).unwrap();
    let (stub, key) = read_stub_header(&image).unwrap();
    let payload = decode_payload(&image, &stub, key).unwrap();
    assert_eq!(payload.len(), 0x10);
    assert_ne!(payload[..], data[0x400..0x410]);
    let mut expected = Vec::new();
    let mut k = key;
    for at in (0x400..0x410).step_by(4) {
        let stored = get32(&data, at);
        expected.extend_from_slice(&(stored ^ k).to_le_bytes());
        k = stored;
    }
    assert_eq!(payload, expected);
    assert!(strip_drm(&image).is_ok());
}

#[test]
fn no_payload_is_an_empty_payload() {
    let data = wrapped_image();
    let image = Image::parse(&data).unwrap();
    let (stub, key) = read_stub_header(&image).unwrap();
    assert_eq!(decode_payload(&image, &stub, key), Ok(vec![]));
}

#[test]
fn a_payload_outside_the_file_is_a_format_error() {
    let mut data = wrapped_image();
    place_stub(&mut data, &stub_record(4, 0x421, 0x1000));
    let image = Image::parse(&data).unwrap();
    let (stub, key) = read_stub_header(&image).unwrap();
    assert_eq!(decode_payload(&image, &stub, key), Err(UnpackError::Format));
    assert_eq!(strip_drm(&image), Err(UnpackError::Format));

    place_stub(&mut data, &stub_record(4, 0x411, 0x1000));
    let image = Image::parse(&data).unwrap();
    let (stub, key) = read_stub_header(&image).unwrap();
    assert_eq!(decode_payload(&image, &stub, key).map(|p| p.len()), Ok(0x420));

    place_stub(&mut data, &stub_record(4, 0xFFFF_FFF1, 0x1000));
    let image = Image::parse(&data).unwrap();
    let (stub, key) = read_stub_header(&image).unwrap();
    assert_eq!(decode_payload(&image, &stub, key), Err(UnpackError::Format));

    let mut record = stub_record(4, 0, 0x1000);
    put32(&mut record, 24, ENTRY_RVA + 1);
    place_stub(&mut data, &record);
    let image = Image::parse(&data).unwrap();
    let (stub, key) = read_stub_header(&image).unwrap();
    assert_eq!(decode_payload(&image, &stub, key), Err(UnpackError::Format));

    let mut record = stub_record(4, 0, 0x1000);
    put32(&mut record, 24, 0x1900);
    place_stub(&mut data, &record);
    let image = Image::parse(&data).unwrap();
    let (stub, key) = read_stub_header(&image).unwrap();
    assert_eq!(decode_payload(&image, &stub, key), Err(UnpackError::Format));
}

#[test]
fn unpacking_restores_the_entry_point_and_keeps_the_sections() {
    let data = wrapped_image();
    let out = strip_drm_from_exe(&data).unwrap();
    assert_eq!(out.len(), data.len());
    assert_eq!(get32(&out, NT + 40), ORIGINAL_ENTRY);
    assert_eq!(get32(&out, NT + 88), 0);
    assert_eq!(out[..64], data[..64]);
    assert_eq!(out[64..NT], [0u8; NT - 64]);
    assert_eq!(out[NT..NT + 40], data[NT..NT + 40]);
    assert_eq!(out[NT + 44..NT + 88], data[NT + 44..NT + 88]);
    assert_eq!(out[NT + 92..TABLE + 80], data[NT + 92..TABLE + 80]);
    assert_eq!(out[TABLE + 80..0x200], [0u8; 0x200 - TABLE - 80]);
    assert_eq!(out[0x200..0x400], data[0x200..0x400]);
    assert_eq!(out[0x400..0x800], data[0x400..0x800]);
    assert_eq!(out[0x800..], data[0x800..]);
    let image = Image::parse(&data).unwrap();
    assert_eq!(strip_drm(&image), Ok(out));
}

#[test]
fn unpacking_puts_the_decrypted_code_in_place() {
    let (data, plain) = encrypted_image();
    let out = strip_drm_from_exe(&data).unwrap();
    assert_eq!(out.len(), data.len());
    assert_eq!(get32(&out, NT + 40), ORIGINAL_ENTRY);
    assert_eq!(out[0x200..0x400], plain[..0x200]);
    assert_ne!(out[0x200..0x400], data[0x200..0x400]);
    assert_eq!(out[0x400..0x800], data[0x400..0x800]);
    assert_eq!(out[0x800..], data[0x800..]);
}

fn swap_records(data: &mut [u8]) {
    let first = data[TABLE..TABLE + 40].to_vec();
    data.copy_within(TABLE + 40..TABLE + 80, TABLE);
    data[TABLE + 40..TABLE + 80].copy_from_slice(&first);
}

#[test]
fn sections_are_kept_whatever_their_order_in_the_table() {
    let mut data = wrapped_image();
    swap_records(&mut data);
    let out = strip_drm_from_exe(&data).unwrap();
    assert_eq!(out.len(), data.len());
    assert_eq!(get32(&out, NT + 40), ORIGINAL_ENTRY);
    assert_eq!(out[TABLE..TABLE + 80], data[TABLE..TABLE + 80]);
    assert_eq!(out[0x200..], data[0x200..]);
}

#[test]
fn what_lies_behind_the_last_section_is_written_at_its_own_offset() {
    let (mut data, plain) = encrypted_image();
    swap_records(&mut data);
    let out = strip_drm_from_exe(&data).unwrap();
    // The code section is the last of the table and ends at 0x400: what the
    // file holds from there on is written there, over the 16 bytes by which
    // the decrypted code is longer than its section.
    assert_eq!(out.len(), data.len());
    assert_eq!(out[0x200..0x400], plain[..0x200]);
    assert_eq!(out[0x400..], data[0x400..]);
}

#[test]
fn decrypted_code_at_the_end_of_the_file_is_kept_whole() {
    let (mut data, plain) = encrypted_image();
    swap_records(&mut data);
    // The wrapper's section first in the file, the code section last, and
    // nothing behind it.
    let bind = data[0x400..0x800].to_vec();
    let code = data[0x200..0x400].to_vec();
    data.truncate(0x800);
    data[0x200..0x600].copy_from_slice(&bind);
    data[0x600..0x800].copy_from_slice(&code);
    put32(&mut data, TABLE + 20, 0x200);
    put32(&mut data, TABLE + 40 + 20, 0x600);
    let out = strip_drm_from_exe(&data).unwrap();
    assert_eq!(out.len(), 0x810);
    assert_eq!(out[0x600..], plain[..]);
    assert_eq!(out[0x200..0x600], data[0x200..0x600]);
}

#[test]
fn the_decrypted_code_is_the_stolen_bytes_and_the_section() {
    let (data, plain) = encrypted_image();
    let image = Image::parse(&data).unwrap();
    let (stub, _) = read_stub_header(&image).unwrap();
    assert!(stub.code_is_encrypted());
    assert_eq!(decrypt_code(&image, &stub), Ok(Some((0, plain))));
}

#[test]
fn code_is_left_alone_where_nothing_is_to_decrypt() {
    let data = wrapped_image();
    let image = Image::parse(&data).unwrap();
    let (stub, _) = read_stub_header(&image).unwrap();
    assert_eq!(decrypt_code(&image, &stub), Ok(None));

    let (mut data, _) = encrypted_image();
    let mut record = stub_record(0, 0, 0x5000);
    place_stub(&mut data, &record);
    let image = Image::parse(&data).unwrap();
    let (stub, _) = read_stub_header(&image).unwrap();
    assert_eq!(decrypt_code(&image, &stub), Ok(None));
    let out = strip_drm(&image).unwrap();
    assert_eq!(out[0x200..0x400], data[0x200..0x400]);

    put64(&mut record, 72, 0x1000);
    place_stub(&mut data, &record);
    put32(&mut data, TABLE + 16, 0);
    let image = Image::parse(&data).unwrap();
    let (stub, _) = read_stub_header(&image).unwrap();
    assert_eq!(decrypt_code(&image, &stub), Ok(None));
}

#[test]
fn code_that_is_no_whole_number_of_blocks_is_a_crypto_error() {
    let (mut data, _) = encrypted_image();
    put32(&mut data, TABLE + 16, 0x1F8);
    let image = Image::parse(&data).unwrap();
    let (stub, _) = read_stub_header(&image).unwrap();
    assert_eq!(decrypt_code(&image, &stub), Err(UnpackError::Crypto));
    assert_eq!(strip_drm(&image), Err(UnpackError::Crypto));
    assert_eq!(strip_drm_from_exe(&data), Err(UnpackError::Crypto));
}

#[test]
fn code_outside_the_file_is_a_format_error() {
    let (mut data, _) = encrypted_image();
    put32(&mut data, TABLE + 16, 0x1000);
    put32(&mut data, TABLE + 8, 0x1000);
    let image = Image::parse(&data).unwrap();
    let (stub, _) = read_stub_header(&image).unwrap();
    assert_eq!(decrypt_code(&image, &stub), Err(UnpackError::Format));
}

#[test]
fn reconstruct_writes_headers_sections_and_overlay() {
    let data = plain_image();
    let image = Image::parse(&data).unwrap();
    let out = reconstruct(&image, 0xAABB_CCDD, None).unwrap();
    assert_eq!(out.len(), data.len());
    assert_eq!(out[NT + 40..NT + 44], [0xDD, 0xCC, 0xBB, 0xAA]);
    assert_eq!(out[NT + 88..NT + 92], [0, 0, 0, 0]);
    assert_eq!(out[0x200..], data[0x200..]);
}

#[test]
fn reconstruct_takes_the_replaced_section_from_the_caller() {
    let data = plain_image();
    let image = Image::parse(&data).unwrap();
    let other = vec![0x77u8; 0x210];
    let out = reconstruct(&image, 0, Some((0, &other))).unwrap();
    assert_eq!(out[0x200..0x400], other[..0x200]);
    assert_eq!(out[0x400..0x800], data[0x400..0x800]);

    let out = reconstruct(&image, 0, Some((1, &other))).unwrap();
    assert_eq!(out[0x200..0x400], data[0x200..0x400]);
    assert_eq!(out[0x400..0x610], other[..]);
    assert_eq!(out[0x610..0x800], [0u8; 0x1F0]);
    assert_eq!(out[0x800..], data[0x800..]);

    let out = reconstruct(&image, 0, Some((2, &other))).unwrap();
    assert_eq!(out[0x200..], data[0x200..]);
}

#[test]
fn reconstruct_without_an_overlay_ends_with_the_last_section() {
    let data = plain_image();
    let image = Image::parse(&data[..0x800]).unwrap();
    let out = reconstruct(&image, 1, None).unwrap();
    assert_eq!(out.len(), 0x800);
    assert_eq!(out[0x200..], data[0x200..0x800]);
}

#[test]
fn reconstruct_puts_the_headers_behind_the_dos_header() {
    let mut data = plain_image();
    put32(&mut data, 60, 0x40);
    data.copy_within(NT..TABLE + 80, 0x40);
    let image = Image::parse(&data).unwrap();
    let out = reconstruct(&image, 5, None).unwrap();
    assert_eq!(out[..64], data[..64]);
    assert_eq!(get32(&out, 0x40 + 40), 5);
    assert_eq!(out[0x40 + 92..0x40 + 136 + 128 + 80], data[0x40 + 92..0x40 + 136 + 128 + 80]);
}

#[test]
fn reconstruct_refuses_a_section_outside_the_file() {
    let mut data = plain_image();
    put32(&mut data, TABLE + 16, 0x2000);
    let image = Image::parse(&data).unwrap();
    assert_eq!(reconstruct(&image, 0, None), Err(UnpackError::Format));
}

#[test]
fn reconstruct_refuses_a_file_without_sections() {
    let mut data = plain_image();
    put16(&mut data, NT + 6, 0);
    let image = Image::parse(&data).unwrap();
    assert_eq!(image.sections().len(), 0);
    assert_eq!(reconstruct(&image, 0, None), Err(UnpackError::Format));
}

#[test]
fn what_is_no_pe_file_is_a_format_error() {
    assert_eq!(strip_drm_from_exe(&[]), Err(UnpackError::Format));
    assert_eq!(strip_drm_from_exe(b"MZ"), Err(UnpackError::Format));
    assert_eq!(strip_drm_from_exe(&vec![0u8; 0x400]), Err(UnpackError::Format));
}
