//! The steganography session: a loaded pixel grid, a resumable bit cursor
//! into it, the detected coded/password state, and the embed and extract
//! drivers for the container format.
//!
//! The container laid down in the grid's bits is:
//! signature bytes, one password flag byte ('Y' or 'N'), a 32-byte password
//! hash when the flag is 'Y', a fixed-width decimal file count, and per file
//! a fixed-width decimal filename length, the filename bytes, a fixed-width
//! decimal file length, and the file bytes.

use vstd::prelude::*;
use vstd::string::StringSliceAdditionalSpecFns;

use crate::container::{image_bytes, lemma_bytes_at_subrange, spec_has_pw, spec_is_coded};
use crate::digits::{pow10, pow10_u64};
use crate::hashing::{bytes_eq, sha256, sha256_of};
use crate::mime::{bytes_to_string, get_mime_type, spec_ext_bytes, spec_mime_type, split_extension};
use crate::pixel::{bytes_at, grid_wf, lemma_avail_step, lemma_bytes_at_slice, total_bits};
use crate::settings::Settings;
use vstd::utf8::{decode_utf8, valid_utf8};

verus! {

/// Failures an embed or extract pass can report.
#[derive(Debug, PartialEq, Eq, Structural)]
pub enum SteganographyError {
    /// The supplied password does not hash to the stored digest.
    IncorrectPassword,
    /// The files offered for embedding exceed the image's net capacity.
    CapacityExceeded,
    /// A fixed-width field could not be read or written in full, or did not
    /// parse; the enclosing pass stops, since the cursor position can no
    /// longer be trusted.
    FieldLengthMismatch,
}

impl SteganographyError {
    /// A short description of the failure.
    pub fn message(&self) -> (r: String)
        ensures
            self is IncorrectPassword ==> r@ == "Incorrect password provided"@,
            self is CapacityExceeded ==> r@ == "Embedding capacity exceeded"@,
            self is FieldLengthMismatch ==> r@ == "Field length mismatch"@,
    {
        match self {
            SteganographyError::IncorrectPassword => String::from_str("Incorrect password provided"),
            SteganographyError::CapacityExceeded => String::from_str("Embedding capacity exceeded"),
            SteganographyError::FieldLengthMismatch => String::from_str("Field length mismatch"),
        }
    }
}

/// Details about one file found in an image during extraction.
pub struct EmbeddedFile {
    pub file_name: String,
    pub file_type: String,
    pub file_extracted: bool,
    /// Whether the extracted file is itself a coded image; filled in by the
    /// caller after probing the extracted bytes with a secondary session.
    pub file_coded: bool,
    pub file_analysed: bool,
}

/// A file crossing the codec boundary: its name and its bytes. The embed
/// path consumes these; the extract path produces them.
#[derive(Debug)]
pub struct FilePayload {
    pub file_name: Vec<u8>,
    pub contents: Vec<u8>,
}

/// The record a payload denotes, for contracts.
pub ghost struct FileRec {
    pub name: Seq<u8>,
    pub data: Seq<u8>,
}

impl View for FilePayload {
    type V = FileRec;

    open spec fn view(&self) -> FileRec {
        FileRec { name: self.file_name@, data: self.contents@ }
    }
}

/// What extraction records about one file, as a function of its name
/// bytes alone: the extracted and analysed flags are set, the nested-coded
/// flag is left for the caller's probe, names that are valid UTF-8 decode
/// to themselves, and the display type follows the extension.
pub open spec fn file_details_match(ef: EmbeddedFile, name: Seq<u8>) -> bool {
    &&& ef.file_extracted
    &&& ef.file_analysed
    &&& !ef.file_coded
    &&& valid_utf8(name) ==> ef.file_name@ == decode_utf8(name)
    &&& valid_utf8(spec_ext_bytes(name)) ==> ef.file_type@ == spec_mime_type(
        decode_utf8(spec_ext_bytes(name)),
    )
}

/// Bytes reserved in front of the payload: signature, password flag,
/// password hash and file count, reserved whether or not a password is
/// embedded.
pub open spec fn spec_reserved(s: Settings) -> int {
    s.prog_code@.len() + s.pw_protected_chars + s.pw_chars + s.num_files_chars
}

/// Net embedding capacity in bytes; negative when the image cannot even
/// hold the fixed fields.
pub open spec fn spec_capacity(w: int, h: int, planes: int, s: Settings) -> int {
    w * h * planes - spec_reserved(s)
}

/// Worst-case per-file metadata overhead: the filename-length field, a
/// filename allowance of `10^width` bytes, and the file-length field.
pub open spec fn spec_overhead(s: Settings) -> int {
    s.len_filename_chars + pow10(s.len_filename_chars as nat) + s.file_len_chars
}

/// A steganography session. One image and one cursor are live at a time;
/// the cursor's (row, column, plane, bit) advance identically on the read
/// and the write path, which is what keeps the two bit-exact.
pub struct Steganography {
    pub settings: Settings,
    pub img_to_proc: bool,
    pub img_proc_running: bool,
    pub image_file: String,
    /// The loaded grid: `pic_width * pic_height * pic_col_planes` colour
    /// samples in row-major, pixel-interleaved order.
    pub image: Option<Vec<u8>>,
    pub pic_coded: bool,
    pub user_permit: bool,
    pub pic_has_pw: bool,
    pub pic_code_name_len: u8,
    pub pic_width: u32,
    pub pic_height: u32,
    pub pic_col_planes: u8,
    pub row: u32,
    pub col: u32,
    pub plane: usize,
    pub bit: u8,
    pub bytes_read: u32,
    pub code_bytes: Vec<u8>,
    pub overhead_per_file: u16,
    pub embed_capacity: u64,
    pub embedded_files: Vec<EmbeddedFile>,
    pub retry_extract: bool,
}

impl Steganography {
    /// The loaded grid's bytes; empty when no image is loaded.
    pub open spec fn grid(&self) -> Seq<u8> {
        match self.image {
            Some(d) => d@,
            None => Seq::<u8>::empty(),
        }
    }

    pub open spec fn w(&self) -> int {
        self.pic_width as int
    }

    pub open spec fn h(&self) -> int {
        self.pic_height as int
    }

    pub open spec fn planes(&self) -> int {
        self.pic_col_planes as int
    }

    /// The cursor as a single bit position in the traversal order.
    pub open spec fn cursor_pos(&self) -> int {
        (self.bit as int) * (3 * self.w() * self.h()) + (self.plane as int) * (self.w() * self.h())
            + (self.row as int) * self.w() + (self.col as int)
    }

    /// Cursor coordinates stay inside the grid; a bit index of 8 marks the
    /// exhausted cursor, one step past the last addressable bit.
    pub open spec fn cursor_wf(&self) -> bool {
        &&& (self.row as int) < self.h()
        &&& (self.col as int) < self.w()
        &&& (self.plane as int) < 3
        &&& self.bit <= 8
        &&& self.bit == 8 ==> self.plane == 0 && self.row == 0 && self.col == 0
    }

    /// Whole bytes still readable or writable ahead of the cursor.
    pub open spec fn avail_bytes(&self) -> int {
        match self.image {
            Some(d) => (total_bits(self.w(), self.h()) - self.cursor_pos()) / 8,
            None => 0,
        }
    }

    /// Session well-formedness: valid settings and, when an image is
    /// loaded, a well-formed grid, an in-range cursor, and capacity and
    /// overhead figures that match the geometry.
    pub open spec fn wf(&self) -> bool {
        &&& self.settings.valid()
        &&& match self.image {
            Some(d) => {
                &&& self.img_to_proc
                &&& grid_wf(d@, self.w(), self.h(), self.planes())
                &&& self.cursor_wf()
                &&& self.embed_capacity as int == if spec_capacity(
                    self.w(),
                    self.h(),
                    self.planes(),
                    self.settings,
                ) >= 0 {
                    spec_capacity(self.w(), self.h(), self.planes(), self.settings)
                } else {
                    0
                }
                &&& self.overhead_per_file as int == spec_overhead(self.settings)
            },
            None => {
                &&& !self.img_to_proc
                &&& self.pic_width == 0 && self.pic_height == 0 && self.pic_col_planes == 0
                &&& self.row == 0 && self.col == 0 && self.plane == 0 && self.bit == 0
            },
        }
    }

    /// Everything of the session except the cursor and the last read's
    /// output is unchanged.
    pub open spec fn only_cursor_changed(&self, pre: Self) -> bool {
        &&& self.settings == pre.settings
        &&& self.img_to_proc == pre.img_to_proc
        &&& self.img_proc_running == pre.img_proc_running
        &&& self.image_file == pre.image_file
        &&& self.image == pre.image
        &&& self.pic_coded == pre.pic_coded
        &&& self.user_permit == pre.user_permit
        &&& self.pic_has_pw == pre.pic_has_pw
        &&& self.pic_code_name_len == pre.pic_code_name_len
        &&& self.pic_width == pre.pic_width
        &&& self.pic_height == pre.pic_height
        &&& self.pic_col_planes == pre.pic_col_planes
        &&& self.overhead_per_file == pre.overhead_per_file
        &&& self.embed_capacity == pre.embed_capacity
        &&& self.embedded_files == pre.embedded_files
        &&& self.retry_extract == pre.retry_extract
    }

    /// As `only_cursor_changed`, but the grid's contents may differ (its
    /// geometry may not).
    pub open spec fn only_cursor_and_grid_changed(&self, pre: Self) -> bool {
        &&& self.settings == pre.settings
        &&& self.img_to_proc == pre.img_to_proc
        &&& self.img_proc_running == pre.img_proc_running
        &&& self.image_file == pre.image_file
        &&& self.image is Some <==> pre.image is Some
        &&& self.grid().len() == pre.grid().len()
        &&& self.pic_coded == pre.pic_coded
        &&& self.user_permit == pre.user_permit
        &&& self.pic_has_pw == pre.pic_has_pw
        &&& self.pic_code_name_len == pre.pic_code_name_len
        &&& self.pic_width == pre.pic_width
        &&& self.pic_height == pre.pic_height
        &&& self.pic_col_planes == pre.pic_col_planes
        &&& self.bytes_read == pre.bytes_read
        &&& self.code_bytes == pre.code_bytes
        &&& self.overhead_per_file == pre.overhead_per_file
        &&& self.embed_capacity == pre.embed_capacity
        &&& self.embedded_files == pre.embedded_files
        &&& self.retry_extract == pre.retry_extract
    }
}

impl Steganography {
    /// A fresh session over the given settings: no image, a cursor at the
    /// origin, and every flag cleared.
    pub fn init(settings: Settings) -> (r: Self)
        requires
            settings.valid(),
        ensures
            r.wf(),
            r.settings == settings,
            r.image is None,
            !r.img_to_proc,
            !r.pic_coded,
            !r.pic_has_pw,
            !r.user_permit,
            !r.retry_extract,
            r.embedded_files@.len() == 0,
            r.embed_capacity == 0,
            r.cursor_pos() == 0,
    {
        Steganography {
            settings,
            img_to_proc: false,
            img_proc_running: false,
            image_file: String::new(),
            image: None,
            pic_coded: false,
            user_permit: false,
            pic_has_pw: false,
            pic_code_name_len: 0,
            pic_width: 0,
            pic_height: 0,
            pic_col_planes: 0,
            row: 0,
            col: 0,
            plane: 0,
            bit: 0,
            bytes_read: 0,
            code_bytes: Vec::new(),
            overhead_per_file: 0,
            embed_capacity: 0,
            embedded_files: Vec::new(),
            retry_extract: false,
        }
    }

    /// Clears everything tied to a loaded image, ahead of loading a new
    /// one.
    pub fn init_image_params(&mut self)
        ensures
            final(self).image_file@ == Seq::<char>::empty(),
            final(self).image is None,
            !final(self).img_to_proc,
            !final(self).pic_coded,
            !final(self).user_permit,
            !final(self).pic_has_pw,
            final(self).pic_code_name_len == 0,
            final(self).pic_width == 0,
            final(self).pic_height == 0,
            final(self).pic_col_planes == 0,
            final(self).embed_capacity == 0,
            !final(self).retry_extract,
            final(self).settings == old(self).settings,
            final(self).img_proc_running == old(self).img_proc_running,
            final(self).row == old(self).row,
            final(self).col == old(self).col,
            final(self).plane == old(self).plane,
            final(self).bit == old(self).bit,
            final(self).bytes_read == old(self).bytes_read,
            final(self).code_bytes == old(self).code_bytes,
            final(self).overhead_per_file == old(self).overhead_per_file,
            final(self).embedded_files == old(self).embedded_files,
    {
        self.image_file = String::new();
        self.image = None;
        self.img_to_proc = false;
        self.pic_coded = false;
        self.user_permit = false;
        self.pic_has_pw = false;
        self.pic_code_name_len = 0;
        self.pic_width = 0;
        self.pic_height = 0;
        self.pic_col_planes = 0;
        self.embed_capacity = 0;
        self.retry_extract = false;
    }

    /// Resets the cursor to the origin, as done before writing a preamble
    /// or re-seeking after a failed password attempt. Never called between
    /// the chunked reads or writes of one pass: that is what makes them
    /// resumable.
    pub fn init_embed_params(&mut self)
        ensures
            final(self).row == 0,
            final(self).col == 0,
            final(self).plane == 0,
            final(self).bit == 0,
            final(self).bytes_read == 0,
            final(self).cursor_pos() == 0,
            final(self).settings == old(self).settings,
            final(self).img_to_proc == old(self).img_to_proc,
            final(self).img_proc_running == old(self).img_proc_running,
            final(self).image_file == old(self).image_file,
            final(self).image == old(self).image,
            final(self).pic_coded == old(self).pic_coded,
            final(self).user_permit == old(self).user_permit,
            final(self).pic_has_pw == old(self).pic_has_pw,
            final(self).pic_code_name_len == old(self).pic_code_name_len,
            final(self).pic_width == old(self).pic_width,
            final(self).pic_height == old(self).pic_height,
            final(self).pic_col_planes == old(self).pic_col_planes,
            final(self).code_bytes == old(self).code_bytes,
            final(self).overhead_per_file == old(self).overhead_per_file,
            final(self).embed_capacity == old(self).embed_capacity,
            final(self).embedded_files == old(self).embedded_files,
            final(self).retry_extract == old(self).retry_extract,
            old(self).wf() ==> final(self).wf(),
    {
        self.row = 0;
        self.col = 0;
        self.plane = 0;
        self.bit = 0;
        self.bytes_read = 0;
    }
}

impl Steganography {
    /// Everything of the session except the cursor, the last read's output
    /// and the detection flags is unchanged.
    pub open spec fn only_detect_changed(&self, pre: Self) -> bool {
        &&& self.settings == pre.settings
        &&& self.img_to_proc == pre.img_to_proc
        &&& self.img_proc_running == pre.img_proc_running
        &&& self.image_file == pre.image_file
        &&& self.image == pre.image
        &&& self.user_permit == pre.user_permit
        &&& self.pic_code_name_len == pre.pic_code_name_len
        &&& self.pic_width == pre.pic_width
        &&& self.pic_height == pre.pic_height
        &&& self.pic_col_planes == pre.pic_col_planes
        &&& self.overhead_per_file == pre.overhead_per_file
        &&& self.embed_capacity == pre.embed_capacity
        &&& self.embedded_files == pre.embedded_files
        &&& self.retry_extract == pre.retry_extract
    }

    /// The cursor's bit position once detection has run: untouched at zero
    /// when the image cannot hold the fixed fields, else past the
    /// signature, and past the flag byte too when the signature matched.
    pub open spec fn detect_end_pos(&self) -> int {
        let sig = self.settings.prog_code@.len() as int;
        let cap = 3 * self.w() * self.h();
        if spec_capacity(self.w(), self.h(), self.planes(), self.settings) < 1 {
            0
        } else if !spec_is_coded(self.grid(), self.w(), self.h(), self.planes(), self.settings) {
            8 * if sig <= cap {
                sig
            } else {
                cap
            }
        } else {
            8 * if sig + 1 <= cap {
                sig + 1
            } else {
                cap
            }
        }
    }

    /// Reads the signature field from the start of the grid and records
    /// whether it matches the configured signature. The result is a
    /// function of the grid and the settings alone, so running detection
    /// again cannot change it. An image that cannot even hold the fixed
    /// fields is never coded.
    pub fn check_for_code(&mut self)
        requires
            old(self).wf(),
        ensures
            final(self).wf(),
            final(self).only_detect_changed(*old(self)),
            final(self).pic_has_pw == old(self).pic_has_pw,
            final(self).pic_coded == spec_is_coded(
                old(self).grid(),
                old(self).w(),
                old(self).h(),
                old(self).planes(),
                old(self).settings,
            ),
            old(self).embed_capacity < 1 ==> !final(self).pic_coded,
            final(self).cursor_pos() == ({
                let sig = old(self).settings.prog_code@.len() as int;
                let cap = 3 * old(self).w() * old(self).h();
                if old(self).embed_capacity < 1 {
                    0
                } else if sig <= cap {
                    8 * sig
                } else {
                    8 * cap
                }
            }),
    {
        self.init_embed_params();
        let ghost pre = *self;
        if self.embed_capacity < 1 {
            self.pic_coded = false;
            proof {
                if self.image is Some {
                    assert(spec_capacity(self.w(), self.h(), self.planes(), self.settings) < 1);
                } else {
                    assert(self.settings.prog_code@.len() > 3 * self.w() * self.h());
                }
            }
            return;
        }
        proof {
            if self.image is None {
                // With no image the capacity figure cannot be at least one.
                assert(self.wf());
            }
        }
        let sig_len: usize = self.settings.prog_code.len();
        let bytes_to_read: u32 = sig_len as u32;
        self.read_data_from_image(bytes_to_read);
        proof {
            let g = pre.grid();
            let w = pre.w();
            let h = pre.h();
            let pl = pre.planes();
            assert(pre.cursor_pos() == 0) by (nonlinear_arith)
                requires
                    pre.cursor_pos() == (pre.bit as int) * (3 * w * h) + (pre.plane as int) * (w
                        * h) + (pre.row as int) * w + (pre.col as int),
                    pre.bit == 0,
                    pre.plane == 0,
                    pre.row == 0,
                    pre.col == 0,
            ;
            assert(pre.avail_bytes() == 3 * w * h) by {
                assert(total_bits(w, h) == 8 * (3 * w * h)) by (nonlinear_arith);
                vstd::arithmetic::div_mod::lemma_div_by_multiple(3 * w * h, 8);
                assert((8 * (3 * w * h)) / 8 == ((3 * w * h) * 8) / 8) by (nonlinear_arith);
            }
        }
        if self.bytes_read != bytes_to_read {
            self.pic_coded = false;
            proof {
                assert(self.settings.prog_code@.len() > 3 * pre.w() * pre.h());
            }
            return;
        }
        let matches = bytes_eq(self.code_bytes.as_slice(), self.settings.prog_code.as_slice());
        self.pic_coded = matches;
        proof {
            let g = pre.grid();
            let w = pre.w();
            let h = pre.h();
            let pl = pre.planes();
            let sig = pre.settings.prog_code@.len() as int;
            lemma_bytes_at_subrange(g, w, h, pl, 0, sig as nat);
            assert(self.code_bytes@ == image_bytes(g, w, h, pl).subrange(0, sig));
        }
    }

    /// Reads the one-byte password flag at the cursor: a 'Y' there means
    /// the container carries a password hash.
    pub fn check_for_password(&mut self)
        requires
            old(self).wf(),
        ensures
            final(self).wf(),
            final(self).only_detect_changed(*old(self)),
            final(self).pic_coded == old(self).pic_coded,
            final(self).pic_has_pw == (old(self).avail_bytes() >= 1 && crate::pixel::byte_at(
                old(self).grid(),
                old(self).w(),
                old(self).h(),
                old(self).planes(),
                old(self).cursor_pos(),
            ) == 89),
            final(self).cursor_pos() == old(self).cursor_pos() + 8 * if old(self).avail_bytes()
                >= 1 {
                1int
            } else {
                0int
            },
    {
        let bytes_to_read: u32 = self.settings.pw_protected_chars as u32;
        self.read_data_from_image(bytes_to_read);
        if self.bytes_read != bytes_to_read {
            self.pic_has_pw = false;
            return;
        }
        // 89 is the byte value of 'Y'.
        let flagged = self.code_bytes[0] == 89;
        self.pic_has_pw = flagged;
    }
}

impl Steganography {
    /// Loads a freshly decoded image: `data` holds `width * height *
    /// planes` colour samples in row-major, pixel-interleaved order. Resets
    /// the cursor and all per-image state, computes the capacity figures,
    /// and detects whether the image is already coded and whether a
    /// password gates it.
    pub fn load_new_file(&mut self, width: u32, height: u32, planes: u8, data: Vec<u8>)
        requires
            old(self).settings.valid(),
            width >= 1,
            height >= 1,
            planes == 3 || planes == 4,
            data@.len() == (width as int) * (height as int) * (planes as int),
            24 * (width as int) * (height as int) <= u64::MAX,
        ensures
            final(self).wf(),
            final(self).settings == old(self).settings,
            final(self).grid() == data@,
            final(self).image is Some,
            final(self).img_to_proc,
            final(self).pic_width == width,
            final(self).pic_height == height,
            final(self).pic_col_planes == planes,
            final(self).embed_capacity as int == if spec_capacity(
                width as int,
                height as int,
                planes as int,
                old(self).settings,
            ) >= 0 {
                spec_capacity(width as int, height as int, planes as int, old(self).settings)
            } else {
                0
            },
            final(self).overhead_per_file as int == spec_overhead(old(self).settings),
            final(self).pic_coded == spec_is_coded(
                data@,
                width as int,
                height as int,
                planes as int,
                old(self).settings,
            ),
            final(self).pic_has_pw == (final(self).pic_coded && spec_has_pw(
                data@,
                width as int,
                height as int,
                planes as int,
                old(self).settings,
            )),
            final(self).cursor_pos() == final(self).detect_end_pos(),
            !final(self).user_permit,
            !final(self).retry_extract,
            final(self).embedded_files == old(self).embedded_files,
    {
        self.init_image_params();
        self.init_embed_params();
        self.pic_width = width;
        self.pic_height = height;
        self.pic_col_planes = planes;
        self.image = Some(data);
        self.img_to_proc = true;

        // Net capacity: the raw sample count less the bytes reserved for
        // signature, password flag, password hash and file count. An image
        // that cannot cover the reserved fields has no capacity at all.
        proof {
            assert((width as int) * (height as int) <= 24 * (width as int) * (height as int))
                by (nonlinear_arith)
                requires width >= 1, height >= 1,
            ;
            assert((width as int) * (height as int) * (planes as int) <= 24 * (width as int) * (
            height as int)) by (nonlinear_arith)
                requires width >= 1, height >= 1, planes == 3 || planes == 4,
            ;
        }
        let raw: u64 = (width as u64) * (height as u64) * (planes as u64);
        let reserved: u64 = (self.settings.prog_code.len() as u64) + (
        self.settings.pw_protected_chars as u64) + (self.settings.pw_chars as u64) + (
        self.settings.num_files_chars as u64);
        self.embed_capacity = if raw > reserved {
            raw - reserved
        } else {
            0
        };

        // Worst-case per-file metadata overhead: the filename-length field,
        // a filename allowance of one byte per representable length, and
        // the file-length field.
        let p10: u64 = pow10_u64(self.settings.len_filename_chars);
        proof {
            crate::digits::lemma_pow10_increases(self.settings.len_filename_chars as nat, 4nat);
            reveal_with_fuel(pow10, 6);
            assert(pow10(4nat) == 10000);
        }
        self.overhead_per_file = (self.settings.len_filename_chars as u16) + (p10 as u16) + (
        self.settings.file_len_chars as u16);

        proof {
            assert(self.wf());
        }
        self.check_for_code();
        if self.pic_coded {
            let ghost mid = *self;
            self.check_for_password();
            proof {
                let w = width as int;
                let h = height as int;
                let pl = planes as int;
                let sig = self.settings.prog_code@.len() as int;
                // The signature matched, so it fit the stream and the
                // cursor now stands at the flag byte.
                assert(sig <= 3 * w * h);
                assert(mid.cursor_pos() == 8 * sig);
                assert(mid.avail_bytes() == 3 * w * h - sig) by {
                    assert(total_bits(w, h) - 8 * sig == (3 * w * h - sig) * 8) by (nonlinear_arith);
                    vstd::arithmetic::div_mod::lemma_div_by_multiple(3 * w * h - sig, 8);
                }
                // Relate the flag byte read there to the payload stream.
                if sig + 1 <= 3 * w * h {
                    lemma_bytes_at_subrange(self.grid(), w, h, pl, sig, 1);
                    assert(bytes_at(self.grid(), w, h, pl, 8 * sig, 1)[0] == crate::pixel::byte_at(
                        self.grid(),
                        w,
                        h,
                        pl,
                        8 * sig,
                    ));
                    assert(image_bytes(self.grid(), w, h, pl).subrange(sig, sig + 1)[0]
                        == image_bytes(self.grid(), w, h, pl)[sig]);
                }
            }
        }
    }
}

impl Steganography {
    /// Everything of the session except the cursor, the last read's output
    /// and `user_permit` is unchanged.
    pub open spec fn only_permit_changed(&self, pre: Self) -> bool {
        &&& self.settings == pre.settings
        &&& self.img_to_proc == pre.img_to_proc
        &&& self.img_proc_running == pre.img_proc_running
        &&& self.image_file == pre.image_file
        &&& self.image == pre.image
        &&& self.pic_coded == pre.pic_coded
        &&& self.pic_has_pw == pre.pic_has_pw
        &&& self.pic_code_name_len == pre.pic_code_name_len
        &&& self.pic_width == pre.pic_width
        &&& self.pic_height == pre.pic_height
        &&& self.pic_col_planes == pre.pic_col_planes
        &&& self.overhead_per_file == pre.overhead_per_file
        &&& self.embed_capacity == pre.embed_capacity
        &&& self.embedded_files == pre.embedded_files
        &&& self.retry_extract == pre.retry_extract
    }

    /// Everything of the session except the cursor, the last read's output
    /// and the extracted-file list is unchanged.
    pub open spec fn only_files_changed(&self, pre: Self) -> bool {
        &&& self.settings == pre.settings
        &&& self.img_to_proc == pre.img_to_proc
        &&& self.img_proc_running == pre.img_proc_running
        &&& self.image_file == pre.image_file
        &&& self.image == pre.image
        &&& self.pic_coded == pre.pic_coded
        &&& self.user_permit == pre.user_permit
        &&& self.pic_has_pw == pre.pic_has_pw
        &&& self.pic_code_name_len == pre.pic_code_name_len
        &&& self.pic_width == pre.pic_width
        &&& self.pic_height == pre.pic_height
        &&& self.pic_col_planes == pre.pic_col_planes
        &&& self.overhead_per_file == pre.overhead_per_file
        &&& self.embed_capacity == pre.embed_capacity
        &&& self.retry_extract == pre.retry_extract
    }

    /// A well-formed session's cursor sits between the start and one past
    /// the end of the grid's bit stream.
    pub proof fn lemma_cursor_in_range(&self)
        requires
            self.wf(),
        ensures
            0 <= self.cursor_pos(),
            self.image is Some ==> self.cursor_pos() <= total_bits(self.w(), self.h()),
            self.avail_bytes() >= 0,
    {
        let w = self.w();
        let h = self.h();
        if self.image is Some {
            assert(0 <= self.cursor_pos() <= 24 * w * h) by (nonlinear_arith)
                requires
                    self.cursor_pos() == (self.bit as int) * (3 * w * h) + (self.plane as int) * (w
                        * h) + (self.row as int) * w + (self.col as int),
                    0 <= (self.col as int) < w,
                    0 <= (self.row as int) < h,
                    0 <= (self.plane as int) < 3,
                    0 <= self.bit <= 8,
                    self.bit == 8 ==> self.plane == 0 && self.row == 0 && self.col == 0,
                    w >= 1,
                    h >= 1,
            ;
            assert((total_bits(w, h) - self.cursor_pos()) / 8 >= 0) by (nonlinear_arith)
                requires total_bits(w, h) - self.cursor_pos() >= 0,
            ;
        } else {
            assert(self.cursor_pos() == 0) by (nonlinear_arith)
                requires
                    self.cursor_pos() == (self.bit as int) * (3 * w * h) + (self.plane as int) * (w
                        * h) + (self.row as int) * w + (self.col as int),
                    self.bit == 0,
                    self.plane == 0,
                    self.row == 0,
                    self.col == 0,
            ;
        }
    }

    /// Compares the caller's password against the digest stored at the
    /// cursor: the 32 hash bytes are read and the password's own digest
    /// must match them byte for byte.
    pub fn check_valid_password(&mut self, password: String)
        requires
            old(self).wf(),
        ensures
            final(self).wf(),
            final(self).only_permit_changed(*old(self)),
            final(self).user_permit == (old(self).settings.pw_chars as int <= old(
                self,
            ).avail_bytes() && sha256_of(vstd::utf8::encode_utf8(password@)) == bytes_at(
                old(self).grid(),
                old(self).w(),
                old(self).h(),
                old(self).planes(),
                old(self).cursor_pos(),
                old(self).settings.pw_chars as nat,
            )),
            final(self).cursor_pos() == old(self).cursor_pos() + 8 * if old(
                self,
            ).settings.pw_chars as int <= old(self).avail_bytes() {
                old(self).settings.pw_chars as int
            } else {
                old(self).avail_bytes()
            },
    {
        let bytes_to_read: u32 = self.settings.pw_chars as u32;
        self.read_data_from_image(bytes_to_read);
        if self.bytes_read != bytes_to_read {
            self.user_permit = false;
            return ;
        }
        let digest = sha256(password.as_str().as_bytes());
        let permit = bytes_eq(digest.as_slice(), self.code_bytes.as_slice());
        self.user_permit = permit;
    }

    /// Pulls one file's bytes off the cursor in configured chunks and
    /// records its metadata. Fails, leaving the record list untouched,
    /// exactly when the announced size runs past the image's end; the
    /// cursor then rests at the end of the stream.
    #[verifier::loop_isolation(false)]
    pub fn extract_file(&mut self, file_size: u32, file_name: &Vec<u8>) -> (r: Result<
        Vec<u8>,
        SteganographyError,
    >)
        requires
            old(self).wf(),
        ensures
            final(self).wf(),
            final(self).only_files_changed(*old(self)),
            r is Ok <==> file_size as int <= old(self).avail_bytes(),
            match r {
                Ok(data) => {
                    &&& data@ == bytes_at(
                        old(self).grid(),
                        old(self).w(),
                        old(self).h(),
                        old(self).planes(),
                        old(self).cursor_pos(),
                        file_size as nat,
                    )
                    &&& final(self).cursor_pos() == old(self).cursor_pos() + 8 * (file_size as int)
                    &&& final(self).embedded_files@.len() == old(self).embedded_files@.len() + 1
                    &&& final(self).embedded_files@.subrange(
                        0,
                        old(self).embedded_files@.len() as int,
                    ) == old(self).embedded_files@
                    &&& file_details_match(final(self).embedded_files@.last(), file_name@)
                },
                Err(e) => {
                    &&& e is FieldLengthMismatch
                    &&& final(self).embedded_files == old(self).embedded_files
                    &&& final(self).cursor_pos() == old(self).cursor_pos() + 8 * old(
                        self,
                    ).avail_bytes()
                },
            },
    {
        let ghost g = old(self).grid();
        let ghost gw = old(self).w();
        let ghost gh = old(self).h();
        let ghost gp = old(self).planes();
        let ghost p0 = old(self).cursor_pos();
        let ghost avail0 = old(self).avail_bytes();
        let chunk_size: u32 = self.settings.byte_chunk;
        let mut collected: Vec<u8> = Vec::new();
        let mut remaining: u32 = file_size;
        proof {
            assert(collected@ =~= bytes_at(g, gw, gh, gp, p0, 0));
            old(self).lemma_cursor_in_range();
        }
        while remaining > 0
            invariant
                self.wf(),
                self.only_files_changed(*old(self)),
                self.embedded_files == old(self).embedded_files,
                collected@.len() + remaining == file_size,
                collected@ == bytes_at(g, gw, gh, gp, p0, collected@.len()),
                self.cursor_pos() == p0 + 8 * collected@.len(),
                self.avail_bytes() == avail0 - collected@.len(),
                collected@.len() <= avail0,
            decreases remaining,
        {
            let to_read: u32 = if remaining < chunk_size {
                remaining
            } else {
                chunk_size
            };
            let ghost c = collected@.len() as int;
            let ghost mid = *self;
            self.read_data_from_image(to_read);
            proof {
                if self.image is Some {
                    lemma_avail_step(
                        total_bits(gw, gh) - mid.cursor_pos(),
                        self.bytes_read as int,
                    );
                }
            }
            if self.bytes_read != to_read {
                // The cursor walked off the grid: the whole remainder of
                // the stream was consumed.
                proof {
                    assert(avail0 - c < to_read);
                    assert(file_size as int > avail0);
                    assert(self.cursor_pos() == p0 + 8 * avail0);
                }
                return Err(SteganographyError::FieldLengthMismatch);
            }
            collected.extend_from_slice(self.code_bytes.as_slice());
            proof {
                crate::pixel::lemma_bytes_at_concat(g, gw, gh, gp, p0, c as nat, to_read as nat);
                assert(collected@ == bytes_at(g, gw, gh, gp, p0, (c + to_read) as nat));
            }
            remaining = remaining - to_read;
        }
        // The whole file is out; record what was found.
        let ext = split_extension(file_name).1;
        let ext_string = bytes_to_string(&ext);
        let mime = get_mime_type(ext_string.as_str());
        let details = EmbeddedFile {
            file_name: bytes_to_string(file_name),
            file_type: String::from_str(mime),
            file_extracted: true,
            file_coded: false,
            file_analysed: true,
        };
        let ghost files_before = self.embedded_files@;
        self.embedded_files.push(details);
        proof {
            assert(self.embedded_files@.subrange(0, files_before.len() as int) =~= files_before);
        }
        Ok(collected)
    }

    /// Decodes the file records at the cursor: the file count field, then
    /// per record a filename length, the filename, a file length and the
    /// file bytes, delegating each file's bytes to `extract_file`. A field
    /// that cannot be read in full or does not parse stops the pass; the
    /// records already recovered stand.
    #[verifier::loop_isolation(false)]
    #[verifier::rlimit(100)]
    pub fn get_embedded_data(&mut self) -> (r: Vec<FilePayload>)
        requires
            old(self).wf(),
        ensures
            final(self).wf(),
            final(self).only_files_changed(*old(self)),
            r@.map_values(|f: FilePayload| f@) == crate::container::extracted_records(
                bytes_at(
                    old(self).grid(),
                    old(self).w(),
                    old(self).h(),
                    old(self).planes(),
                    old(self).cursor_pos(),
                    old(self).avail_bytes() as nat,
                ),
                old(self).settings,
                0,
            ),
            final(self).embedded_files@.len() == old(self).embedded_files@.len() + r@.len(),
            final(self).embedded_files@.subrange(0, old(self).embedded_files@.len() as int) == old(
                self,
            ).embedded_files@,
            forall|t: int|
                0 <= t < r@.len() ==> file_details_match(
                    #[trigger] final(self).embedded_files@[old(self).embedded_files@.len() + t],
                    r@[t]@.name,
                ),
    {
        let ghost g = old(self).grid();
        let ghost gw = old(self).w();
        let ghost gh = old(self).h();
        let ghost gp = old(self).planes();
        let ghost p0 = old(self).cursor_pos();
        let ghost avail0 = old(self).avail_bytes();
        let ghost s = old(self).settings;
        let ghost stream = bytes_at(g, gw, gh, gp, p0, avail0 as nat);
        let ghost files0 = old(self).embedded_files@;
        proof {
            old(self).lemma_cursor_in_range();
        }
        let nfc: u32 = self.settings.num_files_chars as u32;
        let ghost m0 = *self;
        self.read_data_from_image(nfc);
        proof {
            if self.image is Some {
                lemma_avail_step(total_bits(gw, gh) - p0, self.bytes_read as int);
            }
        }
        if self.bytes_read != nfc {
            proof {
                assert(nfc > avail0);
                assert(Seq::<FilePayload>::empty().map_values(|f: FilePayload| f@)
                    =~= Seq::<FileRec>::empty());
                assert(self.embedded_files@.subrange(0, files0.len() as int) =~= files0);
            }
            return Vec::new();
        }
        proof {
            lemma_bytes_at_slice(g, gw, gh, gp, p0, 0, nfc as nat, avail0 as nat);
            assert(p0 + 8 * 0 == p0);
            assert(self.code_bytes@ == stream.subrange(0, nfc as int));
        }
        let parsed = crate::digits::parse_decimal(self.code_bytes.as_slice());
        let count: u64 = match parsed {
            Some(c) => c,
            None => {
                proof {
                    assert(Seq::<FilePayload>::empty().map_values(|f: FilePayload| f@)
                        =~= Seq::<FileRec>::empty());
                    assert(self.embedded_files@.subrange(0, files0.len() as int) =~= files0);
                }
                return Vec::new();
            },
        };
        let mut out: Vec<FilePayload> = Vec::new();
        let mut k: u64 = 0;
        let ghost mut rel: int = nfc as int;
        proof {
            assert(out@.map_values(|f: FilePayload| f@) =~= Seq::<FileRec>::empty());
            assert(crate::container::extracted_records(stream, s, 0)
                == crate::container::parse_records_at(stream, s, nfc as int, count as nat));
        }
        while k < count
            invariant
                self.wf(),
                self.only_files_changed(*old(self)),
                k <= count,
                nfc <= rel <= avail0,
                self.cursor_pos() == p0 + 8 * rel,
                self.avail_bytes() == avail0 - rel,
                out@.map_values(|f: FilePayload| f@) + crate::container::parse_records_at(
                    stream,
                    s,
                    rel,
                    (count - k) as nat,
                ) == crate::container::parse_records_at(stream, s, nfc as int, count as nat),
                self.embedded_files@.len() == files0.len() + out@.len(),
                self.embedded_files@.subrange(0, files0.len() as int) == files0,
                forall|t: int|
                    0 <= t < out@.len() ==> file_details_match(
                        #[trigger] self.embedded_files@[files0.len() + t],
                        out@[t]@.name,
                    ),
            decreases count - k,
        {
            let ghost rs = rel;
            let ghost tail_n = (count - k) as nat;
            let lfc32: u32 = self.settings.len_filename_chars as u32;
            let flc32: u32 = self.settings.file_len_chars as u32;
            let ghost m1 = *self;
            self.read_data_from_image(lfc32);
            proof {
                lemma_avail_step(total_bits(gw, gh) - m1.cursor_pos(), self.bytes_read as int);
            }
            if self.bytes_read != lfc32 {
                proof {
                    assert(rs + lfc32 > avail0);
                    assert(crate::container::parse_record_at(stream, s, rs) is None);
                    assert(crate::container::parse_records_at(stream, s, rs, tail_n)
                        =~= Seq::<FileRec>::empty());
                    assert(out@.map_values(|f: FilePayload| f@) + Seq::<FileRec>::empty()
                        =~= out@.map_values(|f: FilePayload| f@));
                }
                return out;
            }
            proof {
                lemma_bytes_at_slice(g, gw, gh, gp, p0, rs as nat, lfc32 as nat, avail0 as nat);
                assert(self.code_bytes@ == stream.subrange(rs, rs + lfc32));
            }
            let nl_parsed = crate::digits::parse_decimal(self.code_bytes.as_slice());
            let nl: u64 = match nl_parsed {
                Some(v) => v,
                None => {
                    proof {
                        assert(crate::container::parse_record_at(stream, s, rs) is None);
                        assert(crate::container::parse_records_at(stream, s, rs, tail_n)
                            =~= Seq::<FileRec>::empty());
                        assert(out@.map_values(|f: FilePayload| f@) + Seq::<FileRec>::empty()
                            =~= out@.map_values(|f: FilePayload| f@));
                    }
                    return out;
                },
            };
            proof {
                crate::digits::lemma_digits_val_bound(stream.subrange(rs, rs + lfc32));
                crate::digits::lemma_pow10_increases(lfc32 as nat, 4nat);
                reveal_with_fuel(pow10, 6);
                assert(pow10(4nat) == 10000);
                assert(nl < 10000);
                rel = rel + lfc32 as int;
            }
            let ghost m2 = *self;
            self.read_data_from_image(nl as u32);
            proof {
                lemma_avail_step(total_bits(gw, gh) - m2.cursor_pos(), self.bytes_read as int);
            }
            if self.bytes_read != nl as u32 {
                proof {
                    assert(rs + lfc32 + nl > avail0);
                    assert(crate::container::parse_record_at(stream, s, rs) is None);
                    assert(crate::container::parse_records_at(stream, s, rs, tail_n)
                        =~= Seq::<FileRec>::empty());
                    assert(out@.map_values(|f: FilePayload| f@) + Seq::<FileRec>::empty()
                        =~= out@.map_values(|f: FilePayload| f@));
                }
                return out;
            }
            let mut name: Vec<u8> = Vec::new();
            name.extend_from_slice(self.code_bytes.as_slice());
            proof {
                lemma_bytes_at_slice(g, gw, gh, gp, p0, rel as nat, nl as nat, avail0 as nat);
                assert(name@ == stream.subrange(rel, rel + nl));
                rel = rel + nl as int;
            }
            let ghost m3 = *self;
            self.read_data_from_image(flc32);
            proof {
                lemma_avail_step(total_bits(gw, gh) - m3.cursor_pos(), self.bytes_read as int);
            }
            if self.bytes_read != flc32 {
                proof {
                    assert(rel + flc32 > avail0);
                    assert(crate::container::parse_record_at(stream, s, rs) is None);
                    assert(crate::container::parse_records_at(stream, s, rs, tail_n)
                        =~= Seq::<FileRec>::empty());
                    assert(out@.map_values(|f: FilePayload| f@) + Seq::<FileRec>::empty()
                        =~= out@.map_values(|f: FilePayload| f@));
                }
                return out;
            }
            proof {
                lemma_bytes_at_slice(g, gw, gh, gp, p0, rel as nat, flc32 as nat, avail0 as nat);
                assert(self.code_bytes@ == stream.subrange(rel, rel + flc32));
            }
            let dl_parsed = crate::digits::parse_decimal(self.code_bytes.as_slice());
            let dl: u64 = match dl_parsed {
                Some(v) => v,
                None => {
                    proof {
                        assert(crate::container::parse_record_at(stream, s, rs) is None);
                        assert(crate::container::parse_records_at(stream, s, rs, tail_n)
                            =~= Seq::<FileRec>::empty());
                        assert(out@.map_values(|f: FilePayload| f@) + Seq::<FileRec>::empty()
                            =~= out@.map_values(|f: FilePayload| f@));
                    }
                    return out;
                },
            };
            proof {
                rel = rel + flc32 as int;
            }
            if dl > 0xffff_ffff {
                proof {
                    assert(crate::container::parse_record_at(stream, s, rs) is None);
                    assert(crate::container::parse_records_at(stream, s, rs, tail_n)
                        =~= Seq::<FileRec>::empty());
                    assert(out@.map_values(|f: FilePayload| f@) + Seq::<FileRec>::empty()
                        =~= out@.map_values(|f: FilePayload| f@));
                }
                return out;
            }
            let ghost m4 = *self;
            let extracted = self.extract_file(dl as u32, &name);
            match extracted {
                Err(_) => {
                    proof {
                        assert(rel + dl > avail0);
                        assert(crate::container::parse_record_at(stream, s, rs) is None);
                        assert(crate::container::parse_records_at(stream, s, rs, tail_n)
                            =~= Seq::<FileRec>::empty());
                        assert(out@.map_values(|f: FilePayload| f@) + Seq::<FileRec>::empty()
                            =~= out@.map_values(|f: FilePayload| f@));
                    }
                    return out;
                },
                Ok(data) => {
                    proof {
                        lemma_bytes_at_slice(g, gw, gh, gp, p0, rel as nat, dl as nat, avail0 as nat);
                        assert(data@ == stream.subrange(rel, rel + dl));
                        let rec = crate::steg::FileRec {
                            name: stream.subrange(rs + lfc32, rs + lfc32 + nl),
                            data: stream.subrange(rel, rel + dl),
                        };
                        assert(crate::container::parse_record_at(stream, s, rs) == Some(
                            (rec, rel + dl),
                        ));
                        assert(crate::container::parse_records_at(stream, s, rs, tail_n)
                            == seq![rec] + crate::container::parse_records_at(
                            stream,
                            s,
                            rel + dl,
                            (tail_n - 1) as nat,
                        ));
                    }
                    let ghost out_pre = out@;
                    let payload = FilePayload { file_name: name, contents: data };
                    out.push(payload);
                    proof {
                        let rec = crate::steg::FileRec {
                            name: stream.subrange(rs + lfc32, rs + lfc32 + nl),
                            data: stream.subrange(rel, rel + dl),
                        };
                        assert(out@.map_values(|f: FilePayload| f@) =~= out_pre.map_values(
                            |f: FilePayload| f@,
                        ).push(rec));
                        assert(out_pre.map_values(|f: FilePayload| f@) + (seq![rec]
                            + crate::container::parse_records_at(
                            stream,
                            s,
                            rel + dl,
                            (tail_n - 1) as nat,
                        )) =~= out@.map_values(|f: FilePayload| f@)
                            + crate::container::parse_records_at(
                            stream,
                            s,
                            rel + dl,
                            (tail_n - 1) as nat,
                        ));
                        rel = rel + dl as int;
                        assert forall|t: int| 0 <= t < out@.len() implies file_details_match(
                            #[trigger] self.embedded_files@[files0.len() + t],
                            out@[t]@.name,
                        ) by {
                            if t < out@.len() - 1 {
                                assert(out@[t] == out_pre[t]);
                                assert(m4.embedded_files@[files0.len() + t]
                                    == self.embedded_files@.subrange(
                                    0,
                                    m4.embedded_files@.len() as int,
                                )[files0.len() + t]);
                            } else {
                                assert(self.embedded_files@[files0.len() + t]
                                    == self.embedded_files@.last());
                                assert(out@[t].file_name@ == name@);
                            }
                        }
                    }
                },
            }
            k = k + 1;
        }
        proof {
            assert(crate::container::parse_records_at(stream, s, rel, 0) =~= Seq::<FileRec>::empty());
            assert(out@.map_values(|f: FilePayload| f@) + Seq::<FileRec>::empty() =~= out@.map_values(
                |f: FilePayload| f@,
            ));
        }
        out
    }
}

impl Steganography {
    /// Where the cursor stands once detection passed on a coded image: the
    /// byte just after the password flag, or the stream's end when the
    /// flag itself did not fit.
    pub open spec fn flag_end_index(&self) -> int {
        let sig = self.settings.prog_code@.len() as int;
        let cap = 3 * self.w() * self.h();
        if sig + 1 <= cap {
            sig + 1
        } else {
            cap
        }
    }

    /// The byte index of the file-count field, given whether a password
    /// block sits between the flag and the count.
    pub open spec fn count_index(&self) -> int {
        if self.pic_has_pw {
            self.settings.prog_code@.len() as int + 1 + self.settings.pw_chars as int
        } else {
            self.flag_end_index()
        }
    }

    /// Whether `pw` hashes to the digest stored in the container.
    pub open spec fn spec_pw_matches(&self, pw: Seq<char>) -> bool {
        let sig = self.settings.prog_code@.len() as int;
        let pwc = self.settings.pw_chars as int;
        &&& sig + 1 + pwc <= 3 * self.w() * self.h()
        &&& sha256_of(vstd::utf8::encode_utf8(pw)) == image_bytes(
            self.grid(),
            self.w(),
            self.h(),
            self.planes(),
        ).subrange(sig + 1, sig + 1 + pwc)
    }

    /// The records extraction recovers once the password gate is passed.
    pub open spec fn spec_extracted(&self) -> Seq<FileRec> {
        crate::container::extracted_records(
            image_bytes(self.grid(), self.w(), self.h(), self.planes()),
            self.settings,
            self.count_index(),
        )
    }

    /// Extracts the embedded files. When the container is password-gated,
    /// the stored digest must match the supplied password's; a mismatch
    /// changes nothing on the image or the record list, flags the session
    /// for a retry — which re-seeks the cursor to the password field — and
    /// reports IncorrectPassword, so the caller may try again. On success
    /// the decoded file records come back in container order.
    #[verifier::rlimit(100)]
    pub fn extract_data(&mut self, pw: String) -> (r: Result<Vec<FilePayload>, SteganographyError>)
        requires
            old(self).wf(),
            !old(self).retry_extract ==> old(self).cursor_pos() == 8 * old(self).flag_end_index(),
        ensures
            final(self).wf(),
            final(self).settings == old(self).settings,
            final(self).image == old(self).image,
            final(self).img_to_proc == old(self).img_to_proc,
            final(self).image_file == old(self).image_file,
            final(self).pic_coded == old(self).pic_coded,
            final(self).pic_has_pw == old(self).pic_has_pw,
            final(self).pic_width == old(self).pic_width,
            final(self).pic_height == old(self).pic_height,
            final(self).pic_col_planes == old(self).pic_col_planes,
            final(self).embed_capacity == old(self).embed_capacity,
            final(self).overhead_per_file == old(self).overhead_per_file,
            r is Err <==> old(self).pic_has_pw && !old(self).spec_pw_matches(pw@),
            match r {
                Err(e) => {
                    &&& e is IncorrectPassword
                    &&& final(self).retry_extract
                    &&& !final(self).user_permit
                    &&& final(self).embedded_files@.len() == 0
                },
                Ok(files) => {
                    &&& files@.map_values(|f: FilePayload| f@) == old(self).spec_extracted()
                    &&& final(self).embedded_files@.len() == files@.len()
                    &&& forall|i: int|
                        0 <= i < files@.len() ==> file_details_match(
                            #[trigger] final(self).embedded_files@[i],
                            files@[i]@.name,
                        )
                    &&& old(self).pic_has_pw ==> final(self).user_permit
                        && !final(self).retry_extract
                    &&& !old(self).pic_has_pw ==> final(self).retry_extract
                        == old(self).retry_extract && final(self).user_permit == old(
                    self).user_permit
                },
            },
    {
        let ghost g = old(self).grid();
        let ghost gw = old(self).w();
        let ghost gh = old(self).h();
        let ghost gp = old(self).planes();
        let ghost s = old(self).settings;
        let ghost ib = image_bytes(g, gw, gh, gp);
        // A fresh pass starts with an empty record list; a failed password
        // attempt must leave nothing behind either.
        self.embedded_files = Vec::new();

        // A retry after a wrong password re-seeks the cursor to the start
        // of the password block: back to the origin, then past the
        // signature and the flag byte.
        if self.retry_extract {
            self.init_embed_params();
            let skip: u32 = (self.settings.prog_code.len() as u32) + (
            self.settings.pw_protected_chars as u32);
            let ghost m0 = *self;
            self.read_data_from_image(skip);
            proof {
                assert(m0.cursor_pos() == 0) by (nonlinear_arith)
                    requires
                        m0.cursor_pos() == (m0.bit as int) * (3 * gw * gh) + (m0.plane as int) * (gw
                            * gh) + (m0.row as int) * gw + (m0.col as int),
                        m0.bit == 0,
                        m0.plane == 0,
                        m0.row == 0,
                        m0.col == 0,
                ;
                if self.image is Some {
                    assert(m0.avail_bytes() == 3 * gw * gh) by {
                        assert(total_bits(gw, gh) - 0 == (3 * gw * gh) * 8) by (nonlinear_arith);
                        vstd::arithmetic::div_mod::lemma_div_by_multiple(3 * gw * gh, 8);
                    }
                } else {
                    assert(3 * gw * gh == 0) by (nonlinear_arith)
                        requires gw == 0, gh == 0,
                    ;
                }
            }
        }
        proof {
            assert(self.cursor_pos() == 8 * self.flag_end_index());
        }

        // A password-gated container admits the pass only when the digests
        // agree; on a mismatch the session stays locked and is marked for
        // retry.
        if self.pic_has_pw {
            let ghost m1 = *self;
            self.check_valid_password(pw);
            proof {
                let sig = s.prog_code@.len() as int;
                let pwc = s.pw_chars as int;
                if sig + 1 <= 3 * gw * gh {
                    assert(m1.cursor_pos() == 8 * (sig + 1));
                    assert(m1.avail_bytes() == 3 * gw * gh - (sig + 1)) by {
                        assert(total_bits(gw, gh) - 8 * (sig + 1) == (3 * gw * gh - (sig + 1)) * 8)
                            by (nonlinear_arith);
                        if self.image is Some {
                            vstd::arithmetic::div_mod::lemma_div_by_multiple(
                                3 * gw * gh - (sig + 1),
                                8,
                            );
                        }
                    }
                    if pwc <= m1.avail_bytes() {
                        lemma_bytes_at_slice(
                            g,
                            gw,
                            gh,
                            gp,
                            0,
                            (sig + 1) as nat,
                            pwc as nat,
                            (3 * gw * gh) as nat,
                        );
                        assert(bytes_at(g, gw, gh, gp, 8 * (sig + 1), pwc as nat) == ib.subrange(
                            sig + 1,
                            sig + 1 + pwc,
                        ));
                    }
                } else {
                    // The flag did not even fit: nothing past it can be
                    // read, so no password can match.
                    assert(m1.avail_bytes() == 3 * gw * gh - m1.flag_end_index()) by {
                        assert(total_bits(gw, gh) - 8 * m1.flag_end_index() == (3 * gw * gh
                            - m1.flag_end_index()) * 8) by (nonlinear_arith);
                        if self.image is Some {
                            vstd::arithmetic::div_mod::lemma_div_by_multiple(
                                3 * gw * gh - m1.flag_end_index(),
                                8,
                            );
                        }
                    }
                }
            }
            if self.user_permit {
                self.retry_extract = false;
            } else {
                self.retry_extract = true;
                return Err(SteganographyError::IncorrectPassword);
            }
        }

        // The password passed, or none was required: decode the records.
        let ghost m2 = *self;
        let files = self.get_embedded_data();
        proof {
            let ci = old(self).count_index();
            assert(m2.cursor_pos() == 8 * ci);
            assert(m2.avail_bytes() == 3 * gw * gh - ci) by {
                assert(total_bits(gw, gh) - 8 * ci == (3 * gw * gh - ci) * 8) by (nonlinear_arith);
                if self.image is Some {
                    vstd::arithmetic::div_mod::lemma_div_by_multiple(3 * gw * gh - ci, 8);
                } else {
                    assert(3 * gw * gh == 0) by (nonlinear_arith)
                        requires gw == 0, gh == 0,
                    ;
                }
            }
            // The byte stream ahead of the count field is a slice of the
            // whole payload stream, so parsing it from its start parses
            // the container from the count field.
            lemma_bytes_at_slice(
                g,
                gw,
                gh,
                gp,
                0,
                ci as nat,
                (3 * gw * gh - ci) as nat,
                (3 * gw * gh) as nat,
            );
            assert(bytes_at(g, gw, gh, gp, 8 * ci, (3 * gw * gh - ci) as nat) == ib.subrange(
                ci,
                3 * gw * gh,
            ));
            crate::container::lemma_extracted_records_suffix(ib, s, ci);
            assert(m2.embedded_files@.len() == 0);
            assert forall|i: int| 0 <= i < files@.len() implies file_details_match(
                #[trigger] self.embedded_files@[i],
                files@[i]@.name,
            ) by {
                assert(file_details_match(
                    self.embedded_files@[m2.embedded_files@.len() + i],
                    files@[i]@.name,
                ));
            }
        }
        Ok(files)
    }
}

impl Steganography {
    /// Writes a whole buffer through the cursor in configured chunks, as
    /// every embed step does; true exactly when every byte went down.
    #[verifier::loop_isolation(false)]
    fn write_chunked(&mut self, bytes: &Vec<u8>) -> (ok: bool)
        requires
            old(self).wf(),
        ensures
            final(self).wf(),
            final(self).only_cursor_and_grid_changed(*old(self)),
            ok <==> bytes@.len() as int <= old(self).avail_bytes(),
            ok ==> final(self).grid() == crate::pixel::write_bytes_spec(
                old(self).grid(),
                old(self).w(),
                old(self).h(),
                old(self).planes(),
                old(self).cursor_pos(),
                bytes@,
            ) && final(self).cursor_pos() == old(self).cursor_pos() + 8 * bytes@.len(),
    {
        let ghost g = old(self).grid();
        let ghost gw = old(self).w();
        let ghost gh = old(self).h();
        let ghost gp = old(self).planes();
        let ghost p0 = old(self).cursor_pos();
        let ghost avail0 = old(self).avail_bytes();
        proof {
            old(self).lemma_cursor_in_range();
            assert(crate::pixel::write_bytes_spec(g, gw, gh, gp, p0, bytes@.take(0))
                =~= g);
        }
        let chunk: u32 = self.settings.byte_chunk;
        let n: usize = bytes.len();
        let mut i: usize = 0;
        while i < n
            invariant
                i <= n,
                n == bytes@.len(),
                i as int <= avail0,
                self.wf(),
                self.only_cursor_and_grid_changed(*old(self)),
                self.grid() == crate::pixel::write_bytes_spec(
                    g,
                    gw,
                    gh,
                    gp,
                    p0,
                    bytes@.take(i as int),
                ),
                self.cursor_pos() == p0 + 8 * i,
                self.avail_bytes() == avail0 - i,
            decreases n - i,
        {
            let rem: usize = n - i;
            let c: usize = if rem < chunk as usize {
                rem
            } else {
                chunk as usize
            };
            let sl: &[u8] = bytes.as_slice();
            let part: &[u8] = &sl[i..i + c];
            let ghost mid = *self;
            let written = self.write_data_to_image(part);
            proof {
                if self.image is Some {
                    lemma_avail_step(total_bits(gw, gh) - mid.cursor_pos(), written as int);
                }
            }
            if written != c as u32 {
                // The grid is out of room: what was offered cannot all fit.
                proof {
                    assert(avail0 - i < c);
                    assert(bytes@.len() as int > avail0);
                }
                return false;
            }
            proof {
                assert(part@ == bytes@.subrange(i as int, i as int + c as int));
                assert(part@.take(written as int) =~= part@);
                crate::pixel::lemma_write_bytes_append(
                    g,
                    gw,
                    gh,
                    gp,
                    p0,
                    bytes@.take(i as int),
                    bytes@.subrange(i as int, i as int + c as int),
                );
                assert(bytes@.take(i as int) + bytes@.subrange(i as int, i as int + c as int)
                    =~= bytes@.take(i as int + c as int));
            }
            i = i + c;
        }
        proof {
            assert(bytes@.take(n as int) =~= bytes@);
        }
        true
    }

    /// As `only_cursor_and_grid_changed`, but the count of the last read
    /// may differ too: resetting the cursor clears it.
    pub open spec fn only_embed_changed(&self, pre: Self) -> bool {
        &&& self.settings == pre.settings
        &&& self.img_to_proc == pre.img_to_proc
        &&& self.img_proc_running == pre.img_proc_running
        &&& self.image_file == pre.image_file
        &&& self.image is Some <==> pre.image is Some
        &&& self.grid().len() == pre.grid().len()
        &&& self.pic_coded == pre.pic_coded
        &&& self.user_permit == pre.user_permit
        &&& self.pic_has_pw == pre.pic_has_pw
        &&& self.pic_code_name_len == pre.pic_code_name_len
        &&& self.pic_width == pre.pic_width
        &&& self.pic_height == pre.pic_height
        &&& self.pic_col_planes == pre.pic_col_planes
        &&& self.code_bytes == pre.code_bytes
        &&& self.overhead_per_file == pre.overhead_per_file
        &&& self.embed_capacity == pre.embed_capacity
        &&& self.embedded_files == pre.embedded_files
        &&& self.retry_extract == pre.retry_extract
    }

    /// Writes the signature at the very start of the grid. The cursor is
    /// reset first — and never again during the embed pass, which is what
    /// keeps the later fields from overwriting earlier ones.
    pub fn embed_preamble(&mut self) -> (r: Result<(), SteganographyError>)
        requires
            old(self).wf(),
        ensures
            final(self).wf(),
            final(self).only_embed_changed(*old(self)),
            r is Ok <==> old(self).settings.prog_code@.len() <= 3 * old(self).w() * old(self).h(),
            r is Err ==> r->Err_0 is FieldLengthMismatch,
            r is Ok ==> final(self).grid() == crate::pixel::write_bytes_spec(
                old(self).grid(),
                old(self).w(),
                old(self).h(),
                old(self).planes(),
                0,
                old(self).settings.prog_code@,
            ) && final(self).cursor_pos() == 8 * old(self).settings.prog_code@.len(),
    {
        self.init_embed_params();
        let ghost m0 = *self;
        proof {
            assert(m0.cursor_pos() == 0) by (nonlinear_arith)
                requires
                    m0.cursor_pos() == (m0.bit as int) * (3 * m0.w() * m0.h()) + (m0.plane as int)
                        * (m0.w() * m0.h()) + (m0.row as int) * m0.w() + (m0.col as int),
                    m0.bit == 0,
                    m0.plane == 0,
                    m0.row == 0,
                    m0.col == 0,
            ;
            if self.image is Some {
                assert(m0.avail_bytes() == 3 * m0.w() * m0.h()) by {
                    assert(total_bits(m0.w(), m0.h()) - 0 == (3 * m0.w() * m0.h()) * 8)
                        by (nonlinear_arith);
                    vstd::arithmetic::div_mod::lemma_div_by_multiple(3 * m0.w() * m0.h(), 8);
                }
            } else {
                assert(3 * m0.w() * m0.h() == 0) by (nonlinear_arith)
                    requires m0.w() == 0, m0.h() == 0,
                ;
            }
        }
        let mut sig: Vec<u8> = Vec::new();
        sig.extend_from_slice(self.settings.prog_code.as_slice());
        proof {
            assert(sig@ =~= self.settings.prog_code@);
        }
        let ok = self.write_chunked(&sig);
        if ok {
            Ok(())
        } else {
            Err(SteganographyError::FieldLengthMismatch)
        }
    }

    /// Writes the password block at the cursor: a single 'N' when no
    /// password is set, else a 'Y' and the password's SHA-256 digest.
    pub fn embed_password(&mut self, pw: bool, pw_str: &str) -> (r: Result<(), SteganographyError>)
        requires
            old(self).wf(),
        ensures
            final(self).wf(),
            final(self).only_cursor_and_grid_changed(*old(self)),
            ({
                let block = crate::container::pw_block(
                    if pw {
                        Some(vstd::utf8::encode_utf8(pw_str@))
                    } else {
                        None
                    },
                );
                &&& r is Ok <==> block.len() as int <= old(self).avail_bytes()
                &&& r is Err ==> r->Err_0 is FieldLengthMismatch
                &&& r is Ok ==> final(self).grid() == crate::pixel::write_bytes_spec(
                    old(self).grid(),
                    old(self).w(),
                    old(self).h(),
                    old(self).planes(),
                    old(self).cursor_pos(),
                    block,
                ) && final(self).cursor_pos() == old(self).cursor_pos() + 8 * block.len()
            }),
    {
        let mut block: Vec<u8> = Vec::new();
        if !pw {
            // 78 is the byte value of 'N'.
            block.push(78);
            proof {
                assert(block@ =~= crate::container::pw_block(None));
            }
        } else {
            // 89 is the byte value of 'Y'.
            block.push(89);
            let digest = sha256(pw_str.as_bytes());
            block.extend_from_slice(digest.as_slice());
            proof {
                assert(block@ =~= crate::container::pw_block(
                    Some(vstd::utf8::encode_utf8(pw_str@)),
                ));
            }
        }
        let ok = self.write_chunked(&block);
        if ok {
            Ok(())
        } else {
            Err(SteganographyError::FieldLengthMismatch)
        }
    }

    /// Writes the file-count field at the cursor, zero-padded to its
    /// configured width.
    pub fn embed_num_of_files(&mut self, num_files: u16) -> (r: Result<(), SteganographyError>)
        requires
            old(self).wf(),
        ensures
            final(self).wf(),
            final(self).only_cursor_and_grid_changed(*old(self)),
            ({
                let field = crate::digits::dec_digits(
                    num_files as int,
                    old(self).settings.num_files_chars as nat,
                );
                &&& r is Ok <==> field.len() as int <= old(self).avail_bytes()
                &&& r is Err ==> r->Err_0 is FieldLengthMismatch
                &&& r is Ok ==> final(self).grid() == crate::pixel::write_bytes_spec(
                    old(self).grid(),
                    old(self).w(),
                    old(self).h(),
                    old(self).planes(),
                    old(self).cursor_pos(),
                    field,
                ) && final(self).cursor_pos() == old(self).cursor_pos() + 8 * field.len()
            }),
    {
        let field = crate::digits::format_decimal(
            num_files as u64,
            self.settings.num_files_chars as usize,
        );
        let ok = self.write_chunked(&field);
        if ok {
            Ok(())
        } else {
            Err(SteganographyError::FieldLengthMismatch)
        }
    }

    /// Writes one file's record at the cursor: the filename-length field,
    /// the filename, the file-length field, then the file's bytes in
    /// configured chunks.
    pub fn embed_file(&mut self, file_name: &Vec<u8>, contents: &Vec<u8>) -> (r: Result<
        (),
        SteganographyError,
    >)
        requires
            old(self).wf(),
        ensures
            final(self).wf(),
            final(self).only_cursor_and_grid_changed(*old(self)),
            ({
                let rec = FileRec { name: file_name@, data: contents@ };
                let bytes = crate::container::record_bytes(old(self).settings, rec);
                &&& r is Ok <==> bytes.len() as int <= old(self).avail_bytes()
                &&& r is Err ==> r->Err_0 is FieldLengthMismatch
                &&& r is Ok ==> final(self).grid() == crate::pixel::write_bytes_spec(
                    old(self).grid(),
                    old(self).w(),
                    old(self).h(),
                    old(self).planes(),
                    old(self).cursor_pos(),
                    bytes,
                ) && final(self).cursor_pos() == old(self).cursor_pos() + 8 * bytes.len()
            }),
    {
        let ghost g = old(self).grid();
        let ghost gw = old(self).w();
        let ghost gh = old(self).h();
        let ghost gp = old(self).planes();
        let ghost p0 = old(self).cursor_pos();
        let ghost s = old(self).settings;
        proof {
            old(self).lemma_cursor_in_range();
        }
        // The record's metadata: filename length, filename, file length.
        let mut meta: Vec<u8> = Vec::new();
        let name_len_field = crate::digits::format_decimal(
            file_name.len() as u64,
            self.settings.len_filename_chars as usize,
        );
        meta.extend_from_slice(name_len_field.as_slice());
        meta.extend_from_slice(file_name.as_slice());
        let file_len_field = crate::digits::format_decimal(
            contents.len() as u64,
            self.settings.file_len_chars as usize,
        );
        meta.extend_from_slice(file_len_field.as_slice());
        let ghost rec = FileRec { name: file_name@, data: contents@ };
        let ghost meta_bytes = crate::digits::dec_digits(
            file_name@.len() as int,
            s.len_filename_chars as nat,
        ) + file_name@ + crate::digits::dec_digits(
            contents@.len() as int,
            s.file_len_chars as nat,
        );
        proof {
            assert(meta@ =~= meta_bytes);
            assert(crate::container::record_bytes(s, rec) =~= meta_bytes + contents@);
        }
        let ok_meta = self.write_chunked(&meta);
        proof {
            if self.image is Some {
                lemma_avail_step(
                    total_bits(gw, gh) - p0,
                    if ok_meta {
                        meta@.len() as int
                    } else {
                        0
                    },
                );
            }
        }
        if !ok_meta {
            return Err(SteganographyError::FieldLengthMismatch);
        }
        let ok_data = self.write_chunked(contents);
        if !ok_data {
            return Err(SteganographyError::FieldLengthMismatch);
        }
        proof {
            crate::pixel::lemma_write_bytes_append(g, gw, gh, gp, p0, meta_bytes, contents@);
        }
        Ok(())
    }

    /// Embeds a set of files, optionally behind a password, overwriting
    /// whatever the image held. The total payload is validated against the
    /// net capacity before anything is written; a container that then
    /// still cannot fit — its per-file metadata is not counted by the
    /// capacity figure — stops with a field-length failure part-way
    /// through, and the image must not be saved. On success the grid's
    /// payload bytes start with exactly the container.
    #[verifier::loop_isolation(false)]
    #[verifier::rlimit(100)]
    pub fn embed_files(&mut self, pw: bool, pw_str: &str, files: &Vec<FilePayload>) -> (r: Result<
        (),
        SteganographyError,
    >)
        requires
            old(self).wf(),
            files@.len() <= u16::MAX,
        ensures
            final(self).wf(),
            final(self).only_embed_changed(*old(self)),
            !old(self).img_to_proc ==> r is Ok && *final(self) == *old(self),
            old(self).img_to_proc ==> ({
                let recs = files@.map_values(|f: FilePayload| f@);
                let pwopt = if pw {
                    Some(vstd::utf8::encode_utf8(pw_str@))
                } else {
                    None
                };
                let container = crate::container::container_bytes(old(self).settings, recs, pwopt);
                &&& (crate::container::sum_lens(recs) > old(self).embed_capacity as int <==> r
                    matches Err(SteganographyError::CapacityExceeded))
                &&& r matches Err(SteganographyError::CapacityExceeded) ==> *final(self) == *old(
                    self,
                )
                &&& r is Ok <==> crate::container::sum_lens(recs) <= old(
                    self,
                ).embed_capacity as int && container.len() <= 3 * old(self).w() * old(self).h()
                &&& r is Ok ==> bytes_at(
                    final(self).grid(),
                    old(self).w(),
                    old(self).h(),
                    old(self).planes(),
                    0,
                    container.len(),
                ) == container && final(self).cursor_pos() == 8 * container.len()
                &&& r is Err ==> r->Err_0 is CapacityExceeded || r->Err_0 is FieldLengthMismatch
            }),
    {
        if !self.img_to_proc {
            return Ok(());
        }
        let ghost g0 = old(self).grid();
        let ghost gw = old(self).w();
        let ghost gh = old(self).h();
        let ghost gp = old(self).planes();
        let ghost s = old(self).settings;
        let ghost recs = files@.map_values(|f: FilePayload| f@);
        let ghost pwopt = if pw {
            Some(vstd::utf8::encode_utf8(pw_str@))
        } else {
            None
        };

        // First pass: the files' total payload must fit the net capacity.
        let mut total: u64 = 0;
        let mut exceeded = false;
        let mut idx: usize = 0;
        proof {
            assert(recs.take(0) =~= Seq::<FileRec>::empty());
        }
        while idx < files.len()
            invariant
                idx <= files@.len(),
                recs == files@.map_values(|f: FilePayload| f@),
                !exceeded ==> total as int == crate::container::sum_lens(recs.take(idx as int))
                    && total <= self.embed_capacity,
                exceeded ==> crate::container::sum_lens(recs.take(idx as int))
                    > self.embed_capacity as int,
            decreases files@.len() - idx,
        {
            let l: u64 = files[idx].contents.len() as u64;
            proof {
                assert(recs.take(idx as int).push(recs[idx as int]) =~= recs.take(idx as int + 1));
                crate::container::lemma_sum_lens_snoc(recs.take(idx as int), recs[idx as int]);
                assert(recs[idx as int].data.len() == l);
            }
            if !exceeded {
                if l > self.embed_capacity - total {
                    exceeded = true;
                } else {
                    total = total + l;
                }
            }
            idx = idx + 1;
        }
        proof {
            assert(recs.take(files@.len() as int) =~= recs);
        }
        if exceeded {
            return Err(SteganographyError::CapacityExceeded);
        }

        // The payload fits; lay the container down, field by field.
        let ghost container = crate::container::container_bytes(s, recs, pwopt);
        match self.embed_preamble() {
            Err(e) => {
                proof {
                    crate::container::lemma_records_bytes_prefix_len(s, recs, 0);
                    assert(crate::container::records_bytes(s, recs.take(0)) =~= Seq::<u8>::empty());
                }
                return Err(e);
            },
            Ok(_) => {},
        }
        proof {
            assert(container.len() >= s.prog_code@.len());
        }
        let ghost m1 = *self;
        proof {
            let sig = s.prog_code@.len() as int;
            assert(m1.cursor_pos() == 8 * sig);
            assert(m1.avail_bytes() == 3 * gw * gh - sig) by {
                assert(total_bits(gw, gh) - 8 * sig == (3 * gw * gh - sig) * 8)
                    by (nonlinear_arith);
                vstd::arithmetic::div_mod::lemma_div_by_multiple(3 * gw * gh - sig, 8);
            }
        }
        match self.embed_password(pw, pw_str) {
            Err(e) => {
                proof {
                    let container = crate::container::container_bytes(s, recs, pwopt);
                    assert(crate::container::pw_block(pwopt).len() as int > m1.avail_bytes());
                    assert(container.len() >= s.prog_code@.len()
                        + crate::container::pw_block(pwopt).len());
                    assert(container.len() > 3 * gw * gh);
                }
                return Err(e);
            },
            Ok(_) => {},
        }
        let ghost m2 = *self;
        proof {
            let hdr2 = s.prog_code@.len() + crate::container::pw_block(pwopt).len() as int;
            assert(m2.cursor_pos() == 8 * hdr2);
            assert(m2.avail_bytes() == 3 * gw * gh - hdr2) by {
                assert(total_bits(gw, gh) - 8 * hdr2 == (3 * gw * gh - hdr2) * 8)
                    by (nonlinear_arith);
                vstd::arithmetic::div_mod::lemma_div_by_multiple(3 * gw * gh - hdr2, 8);
            }
        }
        let num_files: u16 = files.len() as u16;
        match self.embed_num_of_files(num_files) {
            Err(e) => {
                proof {
                    let container = crate::container::container_bytes(s, recs, pwopt);
                    let field = crate::digits::dec_digits(
                        num_files as int,
                        s.num_files_chars as nat,
                    );
                    assert(field.len() as int > m2.avail_bytes());
                    assert(recs.len() == files@.len());
                    assert(container.len() >= s.prog_code@.len()
                        + crate::container::pw_block(pwopt).len() + field.len());
                    assert(container.len() > 3 * gw * gh);
                }
                return Err(e);
            },
            Ok(_) => {},
        }
        let ghost header = s.prog_code@ + crate::container::pw_block(pwopt)
            + crate::digits::dec_digits(recs.len() as int, s.num_files_chars as nat);
        proof {
            crate::pixel::lemma_write_bytes_append(
                g0,
                gw,
                gh,
                gp,
                0,
                s.prog_code@,
                crate::container::pw_block(pwopt),
            );
            crate::pixel::lemma_write_bytes_append(
                g0,
                gw,
                gh,
                gp,
                0,
                s.prog_code@ + crate::container::pw_block(pwopt),
                crate::digits::dec_digits(recs.len() as int, s.num_files_chars as nat),
            );
            assert((s.prog_code@ + crate::container::pw_block(pwopt)).len() == s.prog_code@.len()
                + crate::container::pw_block(pwopt).len());
            assert(self.grid() == crate::pixel::write_bytes_spec(g0, gw, gh, gp, 0, header));
            assert(self.cursor_pos() == 8 * header.len());
            assert(container =~= header + crate::container::records_bytes(s, recs));
        }

        // Each file's record in turn.
        let mut i: usize = 0;
        proof {
            assert(recs.take(0) =~= Seq::<FileRec>::empty());
            assert(crate::container::records_bytes(s, recs.take(0)) =~= Seq::<u8>::empty());
            assert(header + Seq::<u8>::empty() =~= header);
        }
        while i < files.len()
            invariant
                i <= files@.len(),
                recs == files@.map_values(|f: FilePayload| f@),
                container == header + crate::container::records_bytes(s, recs),
                self.wf(),
                self.only_embed_changed(*old(self)),
                self.grid() == crate::pixel::write_bytes_spec(
                    g0,
                    gw,
                    gh,
                    gp,
                    0,
                    header + crate::container::records_bytes(s, recs.take(i as int)),
                ),
                self.cursor_pos() == 8 * (header
                    + crate::container::records_bytes(s, recs.take(i as int))).len(),
                self.image is Some,
            decreases files@.len() - i,
        {
            let ghost prefix = header + crate::container::records_bytes(s, recs.take(i as int));
            let ghost m3 = *self;
            proof {
                self.lemma_cursor_in_range();
                lemma_avail_step(total_bits(gw, gh), prefix.len() as int);
                assert(self.avail_bytes() == 3 * gw * gh - prefix.len()) by {
                    assert(total_bits(gw, gh) == 8 * (3 * gw * gh)) by (nonlinear_arith);
                    vstd::arithmetic::div_mod::lemma_div_by_multiple(3 * gw * gh, 8);
                    assert((8 * (3 * gw * gh)) / 8 == ((3 * gw * gh) * 8) / 8) by (nonlinear_arith);
                }
            }
            let res = self.embed_file(&files[i].file_name, &files[i].contents);
            proof {
                assert(recs[i as int] == files@[i as int]@);
            }
            match res {
                Err(e) => {
                    proof {
                        // The record did not fit, so the whole container
                        // cannot fit either.
                        crate::container::lemma_records_bytes_split(s, recs, i as int);
                        assert(crate::container::record_bytes(s, recs[i as int]).len() as int
                            > 3 * gw * gh - prefix.len());
                        assert(container.len() > 3 * gw * gh);
                    }
                    return Err(e);
                },
                Ok(_) => {
                    proof {
                        crate::pixel::lemma_write_bytes_append(
                            g0,
                            gw,
                            gh,
                            gp,
                            0,
                            prefix,
                            crate::container::record_bytes(s, recs[i as int]),
                        );
                        crate::container::lemma_records_bytes_snoc(
                            s,
                            recs.take(i as int),
                            recs[i as int],
                        );
                        assert(recs.take(i as int).push(recs[i as int]) =~= recs.take(i as int + 1));
                        assert(prefix + crate::container::record_bytes(s, recs[i as int]) =~= header
                            + crate::container::records_bytes(s, recs.take(i as int + 1)));
                    }
                },
            }
            i = i + 1;
        }
        proof {
            assert(recs.take(files@.len() as int) =~= recs);
            assert(self.grid() == crate::pixel::write_bytes_spec(g0, gw, gh, gp, 0, container));
            assert(8 * container.len() <= total_bits(gw, gh)) by {
                self.lemma_cursor_in_range();
            }
            assert(container.len() <= 3 * gw * gh) by {
                assert(total_bits(gw, gh) == 8 * (3 * gw * gh)) by (nonlinear_arith);
            }
            crate::pixel::lemma_cursor_symmetry(g0, gw, gh, gp, 0, container);
        }
        Ok(())
    }
}

} // verus!
