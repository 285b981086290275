//! Removal of the SteamStub 3.1 (x64) wrapper from Windows executables.

pub mod bytes;
pub mod cipher;
pub mod drm;
pub mod error;
pub mod image;
pub mod kept;
pub mod rebuild;
pub mod stub;

pub use crate::bytes::find_infix_windows;
