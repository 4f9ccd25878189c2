//! Display types for extracted files: a coarse MIME type inferred from the
//! file extension, and the string helpers the inference needs.

use vstd::prelude::*;

use vstd::string::StringSliceAdditionalSpecFns;
use vstd::utf8::{decode_utf8, encode_utf8_decode_utf8, valid_utf8};

verus! {

/// Relies on String::from_utf8_lossy: bytes that are valid UTF-8 decode to
/// exactly the string they encode.
#[verifier::external_body]
pub fn bytes_to_string(b: &Vec<u8>) -> (r: String)
    ensures
        valid_utf8(b@) ==> r@ == decode_utf8(b@),
{
    String::from_utf8_lossy(b.as_slice()).into_owned()
}

/// Character-exact comparison of two string slices.
pub fn str_eq(a: &str, b: &str) -> (r: bool)
    ensures
        r == (a@ == b@),
{
    let r = crate::hashing::bytes_eq(a.as_bytes(), b.as_bytes());
    proof {
        if a.spec_bytes() == b.spec_bytes() {
            encode_utf8_decode_utf8(a@);
            encode_utf8_decode_utf8(b@);
            assert(a@ == b@);
        }
    }
    r
}

/// The extension of a file name, as the bytes after the last dot; a name
/// without a dot past its first byte has no extension.
pub open spec fn spec_ext_bytes(name: Seq<u8>) -> Seq<u8> {
    if exists|i: int| 1 <= i < name.len() && name[i] == 46 {
        let i = last_dot(name);
        name.subrange(i + 1, name.len() as int)
    } else {
        Seq::<u8>::empty()
    }
}

/// The index of the last dot at position 1 or later.
pub open spec fn last_dot(name: Seq<u8>) -> int {
    choose|i: int|
        1 <= i < name.len() && name[i] == 46 && (forall|j: int|
            i < j < name.len() ==> name[j] != 46)
}

/// Cuts a file name into the part before the last dot and the extension
/// after it, as the collision suffix and the type inference need them.
pub fn split_extension(name: &Vec<u8>) -> (r: (Vec<u8>, Vec<u8>))
    ensures
        spec_ext_bytes(name@).len() == 0 ==> r.0@ == name@ && r.1@ == Seq::<u8>::empty(),
        spec_ext_bytes(name@).len() > 0 ==> {
            &&& r.0@ == name@.subrange(0, last_dot(name@))
            &&& r.1@ == spec_ext_bytes(name@)
            &&& r.0@ + seq![46u8] + r.1@ == name@
        },
{
    let n = name.len();
    let mut i: usize = n;
    // Scan backwards for the last dot, ignoring one in the first position.
    while i > 1
        invariant
            i <= n,
            n == name@.len(),
            forall|j: int| i <= j < n ==> name@[j] != 46,
        decreases i,
    {
        if name[i - 1] == 46 {
            let dot: usize = i - 1;
            let mut base: Vec<u8> = Vec::new();
            let mut k: usize = 0;
            while k < dot
                invariant
                    k <= dot,
                    dot < n,
                    n == name@.len(),
                    base@ =~= name@.subrange(0, k as int),
                decreases dot - k,
            {
                base.push(name[k]);
                proof {
                    assert(base@ =~= name@.subrange(0, k + 1));
                }
                k = k + 1;
            }
            let mut ext: Vec<u8> = Vec::new();
            let mut m: usize = dot + 1;
            while m < n
                invariant
                    dot + 1 <= m <= n,
                    dot < n,
                    n == name@.len(),
                    ext@ =~= name@.subrange(dot + 1, m as int),
                decreases n - m,
            {
                ext.push(name[m]);
                proof {
                    assert(ext@ =~= name@.subrange(dot + 1, m + 1));
                }
                m = m + 1;
            }
            proof {
                assert(name@[dot as int] == 46);
                assert(1 <= dot < n);
                assert(forall|j: int| dot < j < n ==> name@[j] != 46);
                assert(last_dot(name@) == dot) by {
                    let l = last_dot(name@);
                    assert(1 <= l < n && name@[l] == 46 && (forall|j: int|
                        l < j < n ==> name@[j] != 46));
                    if l < dot {
                        assert(name@[dot as int] == 46);
                    }
                    if l > dot {
                        assert(name@[l] != 46);
                    }
                }
                assert(spec_ext_bytes(name@) == name@.subrange(dot + 1, n as int));
                assert(spec_ext_bytes(name@).len() > 0 || dot + 1 == n);
                if dot + 1 == n {
                    assert(spec_ext_bytes(name@) =~= Seq::<u8>::empty());
                    assert(base@ + seq![46u8] + ext@ =~= name@);
                } else {
                    assert(base@ + seq![46u8] + ext@ =~= name@);
                }
            }
            if ext.len() == 0 {
                // A trailing dot: treat the name as having no extension.
                let mut whole: Vec<u8> = Vec::new();
                let mut k2: usize = 0;
                while k2 < n
                    invariant
                        k2 <= n,
                        n == name@.len(),
                        whole@ =~= name@.subrange(0, k2 as int),
                    decreases n - k2,
                {
                    whole.push(name[k2]);
                    proof {
                        assert(whole@ =~= name@.subrange(0, k2 + 1));
                    }
                    k2 = k2 + 1;
                }
                proof {
                    assert(whole@ =~= name@);
                }
                return (whole, Vec::new());
            }
            return (base, ext);
        }
        i = i - 1;
    }
    proof {
        assert(forall|j: int| 1 <= j < n ==> name@[j] != 46);
        assert(spec_ext_bytes(name@) =~= Seq::<u8>::empty());
    }
    let mut whole: Vec<u8> = Vec::new();
    let mut k: usize = 0;
    while k < n
        invariant
            k <= n,
            n == name@.len(),
            whole@ =~= name@.subrange(0, k as int),
        decreases n - k,
    {
        whole.push(name[k]);
        proof {
            assert(whole@ =~= name@.subrange(0, k + 1));
        }
        k = k + 1;
    }
    proof {
        assert(whole@ =~= name@);
    }
    (whole, Vec::new())
}

/// The display type inferred for a file extension: a small fixed table,
/// with a generic binary type for anything unknown.
pub open spec fn spec_mime_type(ext: Seq<char>) -> Seq<char> {
    if ext == "txt"@ {
        "text/plain"@
    } else if ext == "html"@ {
        "text/html"@
    } else if ext == "jpg"@ || ext == "jpeg"@ {
        "image/jpeg"@
    } else if ext == "png"@ {
        "image/png"@
    } else if ext == "gif"@ {
        "image/gif"@
    } else if ext == "mp3"@ {
        "audio/mpeg"@
    } else if ext == "mp4"@ {
        "video/mp4"@
    } else if ext == "pdf"@ {
        "application/pdf"@
    } else if ext == "gz"@ || ext == "tar.gz"@ {
        "application/x-tar"@
    } else {
        "application/octet-stream"@
    }
}

/// Maps a file extension to the coarse MIME type shown for the file.
pub fn get_mime_type(extension: &str) -> (r: &str)
    ensures
        r@ == spec_mime_type(extension@),
{
    if str_eq(extension, "txt") {
        "text/plain"
    } else if str_eq(extension, "html") {
        "text/html"
    } else if str_eq(extension, "jpg") || str_eq(extension, "jpeg") {
        "image/jpeg"
    } else if str_eq(extension, "png") {
        "image/png"
    } else if str_eq(extension, "gif") {
        "image/gif"
    } else if str_eq(extension, "mp3") {
        "audio/mpeg"
    } else if str_eq(extension, "mp4") {
        "video/mp4"
    } else if str_eq(extension, "pdf") {
        "application/pdf"
    } else if str_eq(extension, "gz") || str_eq(extension, "tar.gz") {
        "application/x-tar"
    } else {
        "application/octet-stream"
    }
}

} // verus!
