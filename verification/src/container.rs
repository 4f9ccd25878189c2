//! The container format at the byte level: what the embed path lays down in
//! the grid's payload bytes, and what the extract path recovers from them.

use vstd::prelude::*;

use crate::digits::{dec_digits, spec_parse_dec};
use crate::hashing::sha256_of;
use crate::pixel::byte_at;
use crate::settings::Settings;
use crate::steg::FileRec;

verus! {

/// The password block: a flag byte, and the password's digest when one is
/// set.
pub open spec fn pw_block(pw: Option<Seq<u8>>) -> Seq<u8> {
    match pw {
        None => seq![78u8],  // 'N'
        Some(p) => seq![89u8] + sha256_of(p),  // 'Y' and the digest
    }
}

/// One file record: filename length, filename, file length, file bytes.
pub open spec fn record_bytes(s: Settings, f: FileRec) -> Seq<u8> {
    dec_digits(f.name.len() as int, s.len_filename_chars as nat) + f.name + dec_digits(
        f.data.len() as int,
        s.file_len_chars as nat,
    ) + f.data
}

/// All file records, in order.
pub open spec fn records_bytes(s: Settings, files: Seq<FileRec>) -> Seq<u8>
    decreases files.len(),
{
    if files.len() == 0 {
        Seq::<u8>::empty()
    } else {
        record_bytes(s, files[0]) + records_bytes(s, files.drop_first())
    }
}

/// Total payload bytes of a set of files, before metadata overhead.
pub open spec fn sum_lens(files: Seq<FileRec>) -> int
    decreases files.len(),
{
    if files.len() == 0 {
        0
    } else {
        files[0].data.len() + sum_lens(files.drop_first())
    }
}

pub proof fn lemma_sum_lens_nonneg(files: Seq<FileRec>)
    ensures
        sum_lens(files) >= 0,
    decreases files.len(),
{
    if files.len() > 0 {
        lemma_sum_lens_nonneg(files.drop_first());
    }
}

/// One more file adds exactly its payload size to the total.
pub proof fn lemma_sum_lens_snoc(files: Seq<FileRec>, x: FileRec)
    ensures
        sum_lens(files.push(x)) == sum_lens(files) + x.data.len(),
    decreases files.len(),
{
    reveal_with_fuel(sum_lens, 3);
    if files.len() == 0 {
        assert(files.push(x)[0] == x);
        assert(files.push(x).drop_first() =~= Seq::<FileRec>::empty());
    } else {
        assert(files.push(x)[0] == files[0]);
        assert(files.push(x).drop_first() =~= files.drop_first().push(x));
        lemma_sum_lens_snoc(files.drop_first(), x);
    }
}

/// One more record appends exactly its bytes to the serialized records.
pub proof fn lemma_records_bytes_snoc(s: Settings, files: Seq<FileRec>, x: FileRec)
    ensures
        records_bytes(s, files.push(x)) == records_bytes(s, files) + record_bytes(s, x),
    decreases files.len(),
{
    reveal_with_fuel(records_bytes, 3);
    if files.len() == 0 {
        assert(files.push(x)[0] == x);
        assert(files.push(x).drop_first() =~= Seq::<FileRec>::empty());
        assert(records_bytes(s, files.push(x)) =~= record_bytes(s, x)
            + Seq::<u8>::empty());
        assert(record_bytes(s, x) + Seq::<u8>::empty() =~= Seq::<u8>::empty() + record_bytes(
            s,
            x,
        ));
    } else {
        assert(files.push(x)[0] == files[0]);
        assert(files.push(x).drop_first() =~= files.drop_first().push(x));
        lemma_records_bytes_snoc(s, files.drop_first(), x);
        assert(record_bytes(s, files[0]) + (records_bytes(s, files.drop_first()) + record_bytes(
            s,
            x,
        )) =~= (record_bytes(s, files[0]) + records_bytes(s, files.drop_first())) + record_bytes(
            s,
            x,
        ));
    }
}

/// The serialized records of a prefix are a prefix of the serialized
/// records, with at least the next record's bytes still to come.
pub proof fn lemma_records_bytes_split(s: Settings, files: Seq<FileRec>, i: int)
    requires
        0 <= i < files.len(),
    ensures
        records_bytes(s, files.take(i)).len() + record_bytes(s, files[i]).len() <= records_bytes(
            s,
            files,
        ).len(),
    decreases files.len() - i,
{
    lemma_records_bytes_snoc(s, files.take(i), files[i]);
    assert(files.take(i).push(files[i]) =~= files.take(i + 1));
    if i + 1 == files.len() {
        assert(files.take(i + 1) =~= files);
    } else {
        lemma_records_bytes_split(s, files, i + 1);
        lemma_records_bytes_snoc(s, files.take(i + 1), files[i + 1]);
        assert(files.take(i + 1).push(files[i + 1]) =~= files.take(i + 2));
        assert(records_bytes(s, files.take(i + 1)).len() <= records_bytes(s, files.take(i + 1)).len()
            + record_bytes(s, files[i + 1]).len());
        assert(records_bytes(s, files.take(i + 2)).len() <= records_bytes(s, files).len()) by {
            if i + 2 <= files.len() {
                lemma_records_bytes_prefix_len(s, files, i + 2);
            }
        }
    }
}

/// Serialized records only grow as records are added.
pub proof fn lemma_records_bytes_prefix_len(s: Settings, files: Seq<FileRec>, i: int)
    requires
        0 <= i <= files.len(),
    ensures
        records_bytes(s, files.take(i)).len() <= records_bytes(s, files).len(),
    decreases files.len() - i,
{
    if i == files.len() {
        assert(files.take(i) =~= files);
    } else {
        lemma_records_bytes_snoc(s, files.take(i), files[i]);
        assert(files.take(i).push(files[i]) =~= files.take(i + 1));
        lemma_records_bytes_prefix_len(s, files, i + 1);
    }
}

/// The whole container: signature, password block, file count, records.
pub open spec fn container_bytes(s: Settings, files: Seq<FileRec>, pw: Option<Seq<u8>>) -> Seq<u8> {
    s.prog_code@ + pw_block(pw) + dec_digits(files.len() as int, s.num_files_chars as nat)
        + records_bytes(s, files)
}

/// Parsing one record at byte index `i`: the record and the index just past
/// it, or nothing when a field runs off the stream or does not parse.
pub open spec fn parse_record_at(bytes: Seq<u8>, s: Settings, i: int) -> Option<(FileRec, int)> {
    let lfc = s.len_filename_chars as int;
    let flc = s.file_len_chars as int;
    if i + lfc > bytes.len() {
        None
    } else {
        match spec_parse_dec(bytes.subrange(i, i + lfc)) {
            None => None,
            Some(nl) => if i + lfc + nl > bytes.len() {
                None
            } else {
                let name = bytes.subrange(i + lfc, i + lfc + nl);
                let j = i + lfc + nl;
                if j + flc > bytes.len() {
                    None
                } else {
                    match spec_parse_dec(bytes.subrange(j, j + flc)) {
                        None => None,
                        // A single record is capped at what a 32-bit length
                        // can address; a larger one stops the parse.
                        Some(dl) => if dl > u32::MAX || j + flc + dl > bytes.len() {
                            None
                        } else {
                            Some((FileRec { name, data: bytes.subrange(j + flc, j + flc + dl) }, j + flc + dl))
                        },
                    }
                }
            },
        }
    }
}

/// Parsing up to `n` records from byte index `i`. A record that cannot be
/// read stops the parse; what was already recovered stands.
pub open spec fn parse_records_at(bytes: Seq<u8>, s: Settings, i: int, n: nat) -> Seq<FileRec>
    decreases n,
{
    if n == 0 {
        Seq::<FileRec>::empty()
    } else {
        match parse_record_at(bytes, s, i) {
            None => Seq::<FileRec>::empty(),
            Some((f, j)) => seq![f] + parse_records_at(bytes, s, j, (n - 1) as nat),
        }
    }
}

/// Everything extraction recovers when the cursor stands at byte index `i`,
/// the file-count field: nothing if the count cannot be read, else up to
/// count records.
pub open spec fn extracted_records(bytes: Seq<u8>, s: Settings, i: int) -> Seq<FileRec> {
    let nfc = s.num_files_chars as int;
    if i + nfc > bytes.len() {
        Seq::<FileRec>::empty()
    } else {
        match spec_parse_dec(bytes.subrange(i, i + nfc)) {
            None => Seq::<FileRec>::empty(),
            Some(n) => parse_records_at(bytes, s, i + nfc, n as nat),
        }
    }
}

/// All payload bytes of a grid, in cursor order.
pub open spec fn image_bytes(g: Seq<u8>, w: int, h: int, planes: int) -> Seq<u8> {
    Seq::new((3 * w * h) as nat, |i: int| byte_at(g, w, h, planes, 8 * i))
}

/// A parsed record's end index lies between its start and the stream's
/// end.
pub proof fn lemma_parse_record_next(bytes: Seq<u8>, s: Settings, i: int)
    requires
        0 <= i,
        parse_record_at(bytes, s, i) is Some,
    ensures
        i <= parse_record_at(bytes, s, i)->Some_0.1 <= bytes.len(),
{
    let lfc = s.len_filename_chars as int;
    let flc = s.file_len_chars as int;
    let nl = spec_parse_dec(bytes.subrange(i, i + lfc))->Some_0;
    crate::digits::lemma_digits_val_bound(bytes.subrange(i, i + lfc));
    let j = i + lfc + nl;
    let dl = spec_parse_dec(bytes.subrange(j, j + flc))->Some_0;
    crate::digits::lemma_digits_val_bound(bytes.subrange(j, j + flc));
}

/// Parsing a record in a suffix of a stream parses the same record as in
/// the whole stream, with every index shifted by the suffix's start.
proof fn lemma_parse_record_shift(full: Seq<u8>, s: Settings, a: int, i: int)
    requires
        0 <= a <= full.len(),
        0 <= i,
    ensures
        ({
            let sub = full.subrange(a, full.len() as int);
            match parse_record_at(full, s, a + i) {
                None => parse_record_at(sub, s, i) is None,
                Some((rec, j)) => parse_record_at(sub, s, i) == Some::<(FileRec, int)>(
                    (rec, j - a),
                ),
            }
        }),
{
    let sub = full.subrange(a, full.len() as int);
    let lfc = s.len_filename_chars as int;
    let flc = s.file_len_chars as int;
    if i + lfc <= sub.len() {
        assert(sub.subrange(i, i + lfc) =~= full.subrange(a + i, a + i + lfc));
        if spec_parse_dec(full.subrange(a + i, a + i + lfc)) is Some {
            let nl = spec_parse_dec(full.subrange(a + i, a + i + lfc))->Some_0;
            crate::digits::lemma_digits_val_bound(full.subrange(a + i, a + i + lfc));
            if a + i + lfc + nl <= full.len() {
                assert(sub.subrange(i + lfc, i + lfc + nl) =~= full.subrange(
                    a + i + lfc,
                    a + i + lfc + nl,
                ));
                let j = i + lfc + nl;
                if a + j + flc <= full.len() {
                    assert(sub.subrange(j, j + flc) =~= full.subrange(a + j, a + j + flc));
                    if spec_parse_dec(full.subrange(a + j, a + j + flc)) is Some {
                        let dl = spec_parse_dec(full.subrange(a + j, a + j + flc))->Some_0;
                        crate::digits::lemma_digits_val_bound(full.subrange(a + j, a + j + flc));
                        if dl <= u32::MAX && a + j + flc + dl <= full.len() {
                            assert(sub.subrange(j + flc, j + flc + dl) =~= full.subrange(
                                a + j + flc,
                                a + j + flc + dl,
                            ));
                        }
                    }
                }
            }
        }
    }
}

/// Parsing records in a suffix of a stream recovers the same records as in
/// the whole stream.
proof fn lemma_parse_records_shift(full: Seq<u8>, s: Settings, a: int, i: int, n: nat)
    requires
        0 <= a <= full.len(),
        0 <= i,
    ensures
        parse_records_at(full.subrange(a, full.len() as int), s, i, n) == parse_records_at(
            full,
            s,
            a + i,
            n,
        ),
    decreases n,
{
    let sub = full.subrange(a, full.len() as int);
    if n > 0 {
        lemma_parse_record_shift(full, s, a, i);
        match parse_record_at(full, s, a + i) {
            None => {},
            Some((rec, j)) => {
                lemma_parse_record_next(full, s, a + i);
                lemma_parse_records_shift(full, s, a, j - a, (n - 1) as nat);
                assert(a + (j - a) == j);
            },
        }
    }
}

/// Extraction from a suffix of the payload stream recovers exactly what
/// extraction from the whole stream recovers at the suffix's start.
pub proof fn lemma_extracted_records_suffix(full: Seq<u8>, s: Settings, a: int)
    requires
        0 <= a <= full.len(),
    ensures
        extracted_records(full.subrange(a, full.len() as int), s, 0) == extracted_records(
            full,
            s,
            a,
        ),
{
    let sub = full.subrange(a, full.len() as int);
    let nfc = s.num_files_chars as int;
    if a + nfc <= full.len() {
        assert(sub.subrange(0, nfc) =~= full.subrange(a, a + nfc));
        match spec_parse_dec(full.subrange(a, a + nfc)) {
            None => {},
            Some(n) => {
                crate::digits::lemma_digits_val_bound(full.subrange(a, a + nfc));
                lemma_parse_records_shift(full, s, a, nfc, n as nat);
            },
        }
    }
}

/// Bytes read at a byte-aligned cursor are a slice of the grid's payload
/// byte stream.
pub proof fn lemma_bytes_at_subrange(g: Seq<u8>, w: int, h: int, planes: int, a: int, n: nat)
    requires
        0 <= a,
        a + n <= 3 * w * h,
    ensures
        crate::pixel::bytes_at(g, w, h, planes, 8 * a, n) == image_bytes(g, w, h, planes).subrange(
            a,
            a + n,
        ),
{
    let lhs = crate::pixel::bytes_at(g, w, h, planes, 8 * a, n);
    let rhs = image_bytes(g, w, h, planes).subrange(a, a + n);
    assert forall|i: int| 0 <= i < n implies lhs[i] == rhs[i] by {
        assert(rhs[i] == image_bytes(g, w, h, planes)[a + i]);
        assert(image_bytes(g, w, h, planes)[a + i] == byte_at(g, w, h, planes, 8 * (a + i)));
        assert(8 * a + 8 * i == 8 * (a + i));
    }
    assert(lhs =~= rhs);
}

/// A grid is coded when it can hold the fixed fields at all and its first
/// payload bytes are the configured signature.
pub open spec fn spec_is_coded(g: Seq<u8>, w: int, h: int, planes: int, s: Settings) -> bool {
    &&& w * h * planes - (s.prog_code@.len() + s.pw_protected_chars + s.pw_chars
        + s.num_files_chars) >= 1
    &&& s.prog_code@.len() <= 3 * w * h
    &&& image_bytes(g, w, h, planes).subrange(0, s.prog_code@.len() as int) == s.prog_code@
}

/// A coded grid announces a password when the flag byte after the signature
/// is 'Y'.
pub open spec fn spec_has_pw(g: Seq<u8>, w: int, h: int, planes: int, s: Settings) -> bool {
    &&& s.prog_code@.len() + 1 <= 3 * w * h
    &&& image_bytes(g, w, h, planes)[s.prog_code@.len() as int] == 89
}

/// The digest stored in a coded, password-carrying grid.
pub open spec fn spec_stored_hash(g: Seq<u8>, w: int, h: int, planes: int, s: Settings) -> Seq<u8> {
    image_bytes(g, w, h, planes).subrange(
        s.prog_code@.len() as int + 1,
        s.prog_code@.len() as int + 1 + s.pw_chars as int,
    )
}

} // verus!
