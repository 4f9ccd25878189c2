//! The properties the codec stands on, proved once and for all: a container
//! that was embedded parses back to exactly the files that went in;
//! detection is a function of the image and settings alone; and a failed
//! password attempt changes nothing that a retry depends on.

use vstd::prelude::*;

use crate::container::{
    container_bytes, extracted_records, image_bytes, lemma_extracted_records_suffix,
    parse_record_at, parse_records_at, pw_block, record_bytes, records_bytes, spec_has_pw,
    spec_is_coded,
};
use crate::digits::{
    dec_digits, lemma_dec_digits_len, lemma_parse_of_dec_digits, pow10, spec_parse_dec,
};
use crate::hashing::sha256_of;
use crate::pixel::{byte_at, bytes_at, lemma_bytes_at_slice};
use crate::settings::Settings;
use crate::steg::{FileRec, Steganography};

verus! {

/// Every file's name and size fit the configured field widths, and each
/// file fits the reader's per-record cap.
pub open spec fn recs_in_range(s: Settings, recs: Seq<FileRec>) -> bool {
    forall|i: int|
        0 <= i < recs.len() ==> (#[trigger] recs[i]).name.len() < pow10(
            s.len_filename_chars as nat,
        ) && recs[i].data.len() < pow10(s.file_len_chars as nat) && recs[i].data.len() <= u32::MAX
}

/// Serialized records parse back to exactly the records that were
/// serialized, wherever they stand in a stream.
proof fn lemma_parse_serialized_records(s: Settings, recs: Seq<FileRec>, stream: Seq<u8>, i: int)
    requires
        s.valid(),
        recs_in_range(s, recs),
        0 <= i,
        i + records_bytes(s, recs).len() <= stream.len(),
        stream.subrange(i, i + records_bytes(s, recs).len() as int) == records_bytes(s, recs),
    ensures
        parse_records_at(stream, s, i, recs.len()) == recs,
    decreases recs.len(),
{
    if recs.len() == 0 {
        assert(parse_records_at(stream, s, i, 0) =~= recs);
    } else {
        let lfc = s.len_filename_chars as int;
        let flc = s.file_len_chars as int;
        let r0 = recs[0];
        let rest = recs.drop_first();
        let rb = records_bytes(s, recs);
        let rb0 = record_bytes(s, r0);
        let rbr = records_bytes(s, rest);
        assert(rb == rb0 + rbr);
        let d1 = dec_digits(r0.name.len() as int, lfc as nat);
        let d2 = dec_digits(r0.data.len() as int, flc as nat);
        lemma_dec_digits_len(r0.name.len() as int, lfc as nat);
        lemma_dec_digits_len(r0.data.len() as int, flc as nat);
        lemma_parse_of_dec_digits(r0.name.len() as int, lfc as nat);
        lemma_parse_of_dec_digits(r0.data.len() as int, flc as nat);
        assert(rb0 == d1 + r0.name + d2 + r0.data);
        assert(rb0.len() == lfc + r0.name.len() + flc + r0.data.len());
        // The four fields of the first record sit at known offsets.
        assert(stream.subrange(i, i + lfc) =~= d1) by {
            assert forall|t: int| 0 <= t < lfc implies stream.subrange(i, i + lfc)[t] == d1[t] by {
                assert(stream.subrange(i, i + rb.len() as int)[t] == rb[t]);
                assert(rb[t] == rb0[t]);
                assert(rb0[t] == d1[t]);
            }
        }
        let nl = r0.name.len() as int;
        assert(spec_parse_dec(stream.subrange(i, i + lfc)) == Some(nl));
        assert(stream.subrange(i + lfc, i + lfc + nl) =~= r0.name) by {
            assert forall|t: int| 0 <= t < nl implies stream.subrange(i + lfc, i + lfc + nl)[t]
                == r0.name[t] by {
                assert(stream.subrange(i, i + rb.len() as int)[lfc + t] == rb[lfc + t]);
                assert(rb[lfc + t] == rb0[lfc + t]);
                assert(rb0[lfc + t] == r0.name[t]);
            }
        }
        let j = i + lfc + nl;
        assert(stream.subrange(j, j + flc) =~= d2) by {
            assert forall|t: int| 0 <= t < flc implies stream.subrange(j, j + flc)[t] == d2[t] by {
                assert(stream.subrange(i, i + rb.len() as int)[lfc + nl + t] == rb[lfc + nl + t]);
                assert(rb[lfc + nl + t] == rb0[lfc + nl + t]);
                assert(rb0[lfc + nl + t] == d2[t]);
            }
        }
        let dl = r0.data.len() as int;
        assert(spec_parse_dec(stream.subrange(j, j + flc)) == Some(dl));
        assert(stream.subrange(j + flc, j + flc + dl) =~= r0.data) by {
            assert forall|t: int| 0 <= t < dl implies stream.subrange(j + flc, j + flc + dl)[t]
                == r0.data[t] by {
                assert(stream.subrange(i, i + rb.len() as int)[lfc + nl + flc + t] == rb[lfc + nl
                    + flc + t]);
                assert(rb[lfc + nl + flc + t] == rb0[lfc + nl + flc + t]);
                assert(rb0[lfc + nl + flc + t] == r0.data[t]);
            }
        }
        assert(parse_record_at(stream, s, i) == Some(
            (FileRec { name: r0.name, data: r0.data }, j + flc + dl),
        ));
        assert(FileRec { name: r0.name, data: r0.data } == r0);
        // The rest of the records follow immediately after.
        let i2 = j + flc + dl;
        assert(i2 == i + rb0.len());
        assert(recs_in_range(s, rest)) by {
            assert forall|t: int| 0 <= t < rest.len() implies (#[trigger] rest[t]).name.len()
                < pow10(s.len_filename_chars as nat) && rest[t].data.len() < pow10(
                s.file_len_chars as nat,
            ) && rest[t].data.len() <= u32::MAX by {
                assert(rest[t] == recs[t + 1]);
            }
        }
        assert(stream.subrange(i2, i2 + rbr.len() as int) =~= rbr) by {
            assert forall|t: int| 0 <= t < rbr.len() implies stream.subrange(
                i2,
                i2 + rbr.len() as int,
            )[t] == rbr[t] by {
                assert(stream.subrange(i, i + rb.len() as int)[rb0.len() + t] == rb[rb0.len() + t]);
                assert(rb[rb0.len() + t] == rbr[t]);
            }
        }
        lemma_parse_serialized_records(s, rest, stream, i2);
        assert(parse_records_at(stream, s, i, recs.len()) == seq![r0] + rest);
        assert(seq![r0] + rest =~= recs);
    }
}

/// A stream that begins with a serialized file count and the serialized
/// records extracts to exactly those records, whatever follows them.
pub proof fn lemma_stream_round_trip(s: Settings, recs: Seq<FileRec>, stream: Seq<u8>)
    requires
        s.valid(),
        recs_in_range(s, recs),
        recs.len() < pow10(s.num_files_chars as nat),
        stream.len() >= s.num_files_chars + records_bytes(s, recs).len(),
        stream.subrange(0, s.num_files_chars as int) == dec_digits(
            recs.len() as int,
            s.num_files_chars as nat,
        ),
        stream.subrange(
            s.num_files_chars as int,
            s.num_files_chars + records_bytes(s, recs).len(),
        ) == records_bytes(s, recs),
    ensures
        extracted_records(stream, s, 0) == recs,
{
    let nfc = s.num_files_chars as int;
    lemma_dec_digits_len(recs.len() as int, nfc as nat);
    lemma_parse_of_dec_digits(recs.len() as int, nfc as nat);
    assert(spec_parse_dec(stream.subrange(0, nfc)) == Some(recs.len() as int));
    lemma_parse_serialized_records(s, recs, stream, nfc);
}

/// Round trip: a grid whose payload bytes begin with the container for a
/// set of files — as `embed_files` leaves it — is detected as coded, shows
/// a password exactly when one was embedded, stores that password's
/// digest, and extracts to exactly the files that went in, in order.
pub proof fn lemma_round_trip(
    g: Seq<u8>,
    w: int,
    h: int,
    planes: int,
    s: Settings,
    recs: Seq<FileRec>,
    pw: Option<Seq<u8>>,
)
    requires
        s.valid(),
        w * h * planes - (s.prog_code@.len() + s.pw_protected_chars + s.pw_chars
            + s.num_files_chars) >= 1,
        recs_in_range(s, recs),
        recs.len() < pow10(s.num_files_chars as nat),
        pw matches Some(p) ==> sha256_of(p).len() == 32,
        container_bytes(s, recs, pw).len() <= 3 * w * h,
        bytes_at(g, w, h, planes, 0, container_bytes(s, recs, pw).len() as nat) == container_bytes(
            s,
            recs,
            pw,
        ),
    ensures
        spec_is_coded(g, w, h, planes, s),
        spec_has_pw(g, w, h, planes, s) == (pw is Some),
        pw matches Some(p) ==> crate::container::spec_stored_hash(g, w, h, planes, s) == sha256_of(
            p,
        ),
        extracted_records(
            image_bytes(g, w, h, planes),
            s,
            s.prog_code@.len() + 1 + if pw is Some {
                s.pw_chars as int
            } else {
                0int
            },
        ) == recs,
{
    let sig = s.prog_code@.len() as int;
    let container = container_bytes(s, recs, pw);
    let clen = container.len() as int;
    let ib = image_bytes(g, w, h, planes);
    let block = pw_block(pw);
    let cnt = dec_digits(recs.len() as int, s.num_files_chars as nat);
    let rb = records_bytes(s, recs);
    assert(container == s.prog_code@ + block + cnt + rb);
    assert(ib =~= bytes_at(g, w, h, planes, 0, (3 * w * h) as nat)) by {
        assert forall|t: int| 0 <= t < 3 * w * h implies ib[t] == bytes_at(
            g,
            w,
            h,
            planes,
            0,
            (3 * w * h) as nat,
        )[t] by {
            assert(8 * t == 0 + 8 * t);
        }
    }
    lemma_bytes_at_slice(g, w, h, planes, 0, 0, clen as nat, (3 * w * h) as nat);
    assert(bytes_at(g, w, h, planes, 0int + 8 * 0, clen as nat) == ib.subrange(0, clen));
    assert(ib.subrange(0, clen) == container);
    // The signature stands first.
    assert(ib.subrange(0, sig) =~= s.prog_code@) by {
        assert forall|t: int| 0 <= t < sig implies ib.subrange(0, sig)[t] == s.prog_code@[t] by {
            assert(ib[t] == container[t]);
            assert(container[t] == s.prog_code@[t]);
        }
    }
    // The flag byte follows it.
    assert(ib[sig] == container[sig]);
    assert(container[sig] == block[0]);
    let bl = block.len() as int;
    match pw {
        None => {
            assert(block[0] == 78);
        },
        Some(p) => {
            assert(block[0] == 89);
            // The stored hash is the password's digest.
            assert(bl == 1 + s.pw_chars as int);
            assert(crate::container::spec_stored_hash(g, w, h, planes, s) =~= sha256_of(p)) by {
                assert forall|t: int| 0 <= t < s.pw_chars as int implies ib.subrange(
                    sig + 1,
                    sig + 1 + s.pw_chars as int,
                )[t] == sha256_of(p)[t] by {
                    assert(ib[sig + 1 + t] == container[sig + 1 + t]);
                    assert(container[sig + 1 + t] == block[1 + t]);
                    assert(block[1 + t] == sha256_of(p)[t]);
                }
            }
        },
    }
    // Parsing from the count field recovers the records.
    let ci = sig + bl;
    assert(ci == sig + 1 + if pw is Some {
        s.pw_chars as int
    } else {
        0int
    });
    lemma_extracted_records_suffix(ib, s, ci);
    let stream = ib.subrange(ci, ib.len() as int);
    assert(stream.subrange(0, s.num_files_chars as int) =~= cnt) by {
        lemma_dec_digits_len(recs.len() as int, s.num_files_chars as nat);
        assert forall|t: int| 0 <= t < s.num_files_chars as int implies stream.subrange(
            0,
            s.num_files_chars as int,
        )[t] == cnt[t] by {
            assert(stream[t] == ib[ci + t]);
            assert(ib[ci + t] == container[ci + t]);
            assert(container[ci + t] == cnt[t]);
        }
    }
    assert(stream.subrange(s.num_files_chars as int, s.num_files_chars + rb.len()) =~= rb) by {
        lemma_dec_digits_len(recs.len() as int, s.num_files_chars as nat);
        assert forall|t: int| 0 <= t < rb.len() implies stream.subrange(
            s.num_files_chars as int,
            s.num_files_chars + rb.len(),
        )[t] == rb[t] by {
            assert(stream[s.num_files_chars + t] == ib[ci + s.num_files_chars + t]);
            assert(ib[ci + s.num_files_chars + t] == container[ci + s.num_files_chars + t]);
            assert(container[ci + s.num_files_chars + t] == rb[t]);
        }
    }
    lemma_dec_digits_len(recs.len() as int, s.num_files_chars as nat);
    lemma_stream_round_trip(s, recs, stream);
}

/// Serialized records take at most the files' payload total plus the
/// worst-case per-file metadata overhead.
proof fn lemma_records_bytes_len_bound(s: Settings, recs: Seq<FileRec>)
    requires
        s.valid(),
        recs_in_range(s, recs),
    ensures
        records_bytes(s, recs).len() <= crate::container::sum_lens(recs) + recs.len()
            * crate::steg::spec_overhead(s),
    decreases recs.len(),
{
    crate::container::lemma_sum_lens_nonneg(recs);
    if recs.len() > 0 {
        let r0 = recs[0];
        let rest = recs.drop_first();
        assert(recs_in_range(s, rest)) by {
            assert forall|t: int| 0 <= t < rest.len() implies (#[trigger] rest[t]).name.len()
                < pow10(s.len_filename_chars as nat) && rest[t].data.len() < pow10(
                s.file_len_chars as nat,
            ) && rest[t].data.len() <= u32::MAX by {
                assert(rest[t] == recs[t + 1]);
            }
        }
        lemma_records_bytes_len_bound(s, rest);
        lemma_dec_digits_len(r0.name.len() as int, s.len_filename_chars as nat);
        lemma_dec_digits_len(r0.data.len() as int, s.file_len_chars as nat);
        crate::digits::lemma_pow10_positive(s.len_filename_chars as nat);
        assert(record_bytes(s, r0).len() <= crate::steg::spec_overhead(s) + r0.data.len());
        assert(recs.len() * crate::steg::spec_overhead(s) == crate::steg::spec_overhead(s)
            + rest.len() * crate::steg::spec_overhead(s)) by (nonlinear_arith)
            requires recs.len() == rest.len() + 1,
        ;
    }
}

/// For a three-plane image, files whose payload total plus per-file
/// overhead fits the net capacity produce a container that fits the
/// payload stream — the hypothesis under which the round trip holds.
pub proof fn lemma_capacity_covers_container(
    s: Settings,
    recs: Seq<FileRec>,
    pw: Option<Seq<u8>>,
    w: int,
    h: int,
)
    requires
        s.valid(),
        recs_in_range(s, recs),
        recs.len() < pow10(s.num_files_chars as nat),
        pw matches Some(p) ==> sha256_of(p).len() == 32,
        crate::container::sum_lens(recs) + recs.len() * crate::steg::spec_overhead(s)
            <= crate::steg::spec_capacity(w, h, 3, s),
    ensures
        container_bytes(s, recs, pw).len() <= 3 * w * h,
{
    lemma_records_bytes_len_bound(s, recs);
    lemma_dec_digits_len(recs.len() as int, s.num_files_chars as nat);
    match pw {
        None => {
            assert(pw_block(pw).len() == 1);
        },
        Some(p) => {
            assert(pw_block(pw).len() == 1 + sha256_of(p).len());
        },
    }
    assert(container_bytes(s, recs, pw).len() == s.prog_code@.len() + pw_block(pw).len()
        + s.num_files_chars + records_bytes(s, recs).len());
    assert(records_bytes(s, recs).len() <= crate::steg::spec_capacity(w, h, 3, s));
    assert(crate::steg::spec_capacity(w, h, 3, s) == w * h * 3 - (s.prog_code@.len() + 1 + 32
        + s.num_files_chars));
    assert(w * h * 3 == 3 * w * h) by (nonlinear_arith);
}

/// Detection is idempotent: its outcome is a function of the grid and the
/// settings, and detection changes neither, so running it again on the
/// same loaded image yields the same coded and password flags.
pub proof fn lemma_detect_idempotent(first: Steganography, second: Steganography)
    requires
        second.image == first.image,
        second.settings == first.settings,
        second.pic_width == first.pic_width,
        second.pic_height == first.pic_height,
        second.pic_col_planes == first.pic_col_planes,
    ensures
        spec_is_coded(second.grid(), second.w(), second.h(), second.planes(), second.settings)
            == spec_is_coded(first.grid(), first.w(), first.h(), first.planes(), first.settings),
        spec_has_pw(second.grid(), second.w(), second.h(), second.planes(), second.settings)
            == spec_has_pw(first.grid(), first.w(), first.h(), first.planes(), first.settings),
{
}

/// Wrong-password isolation: an extraction attempt with a wrong password
/// reports IncorrectPassword and writes nothing, and — since it leaves the
/// image, the settings and the flags alone — a following attempt with the
/// correct password still succeeds and recovers the same records a
/// first-try correct password would have.
pub proof fn lemma_wrong_password_isolation(
    before: Steganography,
    after: Steganography,
    wrong: Seq<char>,
    right: Seq<char>,
)
    requires
        before.pic_has_pw,
        !before.spec_pw_matches(wrong),
        before.spec_pw_matches(right),
        // What a failed attempt guarantees it left untouched:
        after.image == before.image,
        after.settings == before.settings,
        after.pic_width == before.pic_width,
        after.pic_height == before.pic_height,
        after.pic_col_planes == before.pic_col_planes,
        after.pic_has_pw == before.pic_has_pw,
    ensures
        after.spec_pw_matches(right),
        !after.spec_pw_matches(wrong),
        after.spec_extracted() == before.spec_extracted(),
{
}

} // verus!
