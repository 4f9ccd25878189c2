//! Configuration consumed by the codec: the embedded signature, the chunk
//! size used for streaming reads and writes, and the fixed decimal field
//! widths of the container format.

use vstd::prelude::*;

verus! {

/// Application settings. The codec itself reads only `prog_code`,
/// `byte_chunk` and the five field-width integers; the remaining fields
/// describe the application around it.
pub struct Settings {
    pub program_name: String,
    pub program_ver: String,
    pub program_devs: Vec<String>,
    pub program_web: String,
    /// Signature bytes marking an image as carrying an embedded container.
    pub prog_code: Vec<u8>,
    /// Number of bytes read or written per chunk when streaming file data.
    pub byte_chunk: u32,
    /// Directory extracted files are written to (used by the caller).
    pub secret_folder: String,
    /// Directory output images are written to (used by the caller).
    pub thumb_folder: String,
    /// Decimal digits of the file-count field.
    pub num_files_chars: u8,
    /// Decimal digits of each filename-length field.
    pub len_filename_chars: u8,
    /// Decimal digits of each file-length field.
    pub file_len_chars: u8,
    /// Width in bytes of the password-present flag ('Y' or 'N').
    pub pw_protected_chars: u8,
    /// Width in bytes of the stored password hash (a SHA-256 digest).
    pub pw_chars: u8,
}

impl Settings {
    /// The shapes the codec relies on: a nonempty signature, a usable chunk
    /// size, field widths that keep all decimal arithmetic within machine
    /// bounds, a one-byte password flag and a SHA-256-sized hash field.
    pub open spec fn valid(&self) -> bool {
        &&& 1 <= self.prog_code@.len() <= u32::MAX - 64
        &&& self.byte_chunk >= 1
        &&& 1 <= self.num_files_chars <= 9
        &&& 1 <= self.len_filename_chars <= 4
        &&& 1 <= self.file_len_chars <= 19
        &&& self.pw_protected_chars == 1
        &&& self.pw_chars == 32
    }
}

} // verus!
