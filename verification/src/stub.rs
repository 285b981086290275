//! The control header of the wrapper: a record of 240 bytes, all fields
//! little-endian, that the wrapper keeps in front of its entry point.

use crate::bytes::{le_quad, le_word, read_le_quad, read_le_word};
use vstd::prelude::*;
use vstd::slice::{slice_subrange, slice_to_vec};

verus! {

/// Size of the control header.
pub const STUB_HEADER_SIZE: usize = 0xf0;

/// The signature that a decoded control header starts its second word with.
pub const STUB_SIGNATURE: u32 = 0xc0de_c0df;

/// The flag that says that the code section is not encrypted.
pub const FLAG_NO_ENCRYPTION: u32 = 4;

/// The decoded control header. Fields that nothing is known of are left out.
#[derive(Debug)]
pub struct StubHeader {
    /// The key that the header was encoded under.
    pub xor_key: u32,
    /// `STUB_SIGNATURE` in a header that was decoded from the right place.
    pub signature: u32,
    /// The image base.
    pub image_base: u64,
    /// The entry point of the wrapper.
    pub address_of_entry_point: u64,
    /// Distance from the start of the wrapper's section to its entry point.
    pub bind_section_offset: u32,
    /// The entry point of the program as it was before it was wrapped.
    pub original_entry_point: u64,
    /// Size of the payload.
    pub payload_size: u32,
    /// Offset of the wrapper's library.
    pub drmp_dll_offset: u32,
    /// Size of the wrapper's library.
    pub drmp_dll_size: u32,
    /// The application that the file belongs to.
    pub steam_app_id: u32,
    /// Flags; see `FLAG_NO_ENCRYPTION`.
    pub flags: u32,
    /// Size in memory of the wrapper's section.
    pub bind_section_virtual_size: u32,
    /// Address of the protected code section.
    pub code_section_virtual_address: u64,
    /// Size in the file of the protected code section.
    pub code_section_raw_size: u64,
    /// The AES-256 key, 32 bytes.
    pub aes_key: Vec<u8>,
    /// The initialization vector, encrypted, 16 bytes.
    pub aes_iv: Vec<u8>,
    /// The 16 bytes that were taken from the start of the code section.
    pub code_section_stolen_data: Vec<u8>,
}

/// A control header as plain values.
pub ghost struct StubInfo {
    pub xor_key: u32,
    pub signature: u32,
    pub image_base: u64,
    pub address_of_entry_point: u64,
    pub bind_section_offset: u32,
    pub original_entry_point: u64,
    pub payload_size: u32,
    pub drmp_dll_offset: u32,
    pub drmp_dll_size: u32,
    pub steam_app_id: u32,
    pub flags: u32,
    pub bind_section_virtual_size: u32,
    pub code_section_virtual_address: u64,
    pub code_section_raw_size: u64,
    pub aes_key: Seq<u8>,
    pub aes_iv: Seq<u8>,
    pub code_section_stolen_data: Seq<u8>,
}

impl View for StubHeader {
    type V = StubInfo;

    open spec fn view(&self) -> StubInfo {
        StubInfo {
            xor_key: self.xor_key,
            signature: self.signature,
            image_base: self.image_base,
            address_of_entry_point: self.address_of_entry_point,
            bind_section_offset: self.bind_section_offset,
            original_entry_point: self.original_entry_point,
            payload_size: self.payload_size,
            drmp_dll_offset: self.drmp_dll_offset,
            drmp_dll_size: self.drmp_dll_size,
            steam_app_id: self.steam_app_id,
            flags: self.flags,
            bind_section_virtual_size: self.bind_section_virtual_size,
            code_section_virtual_address: self.code_section_virtual_address,
            code_section_raw_size: self.code_section_raw_size,
            aes_key: self.aes_key@,
            aes_iv: self.aes_iv@,
            code_section_stolen_data: self.code_section_stolen_data@,
        }
    }
}

/// The control header that a record of 240 bytes holds, each field at its
/// fixed offset.
pub open spec fn stub_header_of(record: Seq<u8>) -> StubInfo {
    StubInfo {
        xor_key: le_word(record, 0),
        signature: le_word(record, 4),
        image_base: le_quad(record, 8),
        address_of_entry_point: le_quad(record, 16),
        bind_section_offset: le_word(record, 24),
        original_entry_point: le_quad(record, 32),
        payload_size: le_word(record, 44),
        drmp_dll_offset: le_word(record, 48),
        drmp_dll_size: le_word(record, 52),
        steam_app_id: le_word(record, 56),
        flags: le_word(record, 60),
        bind_section_virtual_size: le_word(record, 64),
        code_section_virtual_address: le_quad(record, 72),
        code_section_raw_size: le_quad(record, 80),
        aes_key: record.subrange(88, 120),
        aes_iv: record.subrange(120, 136),
        code_section_stolen_data: record.subrange(136, 152),
    }
}

impl StubHeader {
    /// Reads a control header from its record. `None` where the record is not
    /// 240 bytes long.
    pub fn parse(record: &[u8]) -> (r: Option<StubHeader>)
        ensures
            match r {
                Some(header) => record@.len() == STUB_HEADER_SIZE && header@ == stub_header_of(
                    record@,
                ),
                None => record@.len() != STUB_HEADER_SIZE,
            },
    {
        if record.len() != STUB_HEADER_SIZE {
            return None;
        }
        Some(
            StubHeader {
                xor_key: read_le_word(record, 0),
                signature: read_le_word(record, 4),
                image_base: read_le_quad(record, 8),
                address_of_entry_point: read_le_quad(record, 16),
                bind_section_offset: read_le_word(record, 24),
                original_entry_point: read_le_quad(record, 32),
                payload_size: read_le_word(record, 44),
                drmp_dll_offset: read_le_word(record, 48),
                drmp_dll_size: read_le_word(record, 52),
                steam_app_id: read_le_word(record, 56),
                flags: read_le_word(record, 60),
                bind_section_virtual_size: read_le_word(record, 64),
                code_section_virtual_address: read_le_quad(record, 72),
                code_section_raw_size: read_le_quad(record, 80),
                aes_key: slice_to_vec(slice_subrange(record, 88, 120)),
                aes_iv: slice_to_vec(slice_subrange(record, 120, 136)),
                code_section_stolen_data: slice_to_vec(slice_subrange(record, 136, 152)),
            },
        )
    }

    /// Whether the code section is encrypted: the flag that says otherwise is
    /// not set.
    pub fn code_is_encrypted(&self) -> (r: bool)
        ensures
            r == (self.flags & FLAG_NO_ENCRYPTION != FLAG_NO_ENCRYPTION),
    {
        self.flags & FLAG_NO_ENCRYPTION != FLAG_NO_ENCRYPTION
    }
}

} // verus!
