//! Fixed-width decimal text fields. Every variable-size quantity in the
//! container format (file count, filename length, file length) is written as
//! an ASCII digit string, left-padded with zeros to a configured width, and
//! parsed back on extraction.

use vstd::prelude::*;

verus! {

/// 10 to the power `e`.
pub open spec fn pow10(e: nat) -> int
    decreases e,
{
    if e == 0 {
        1
    } else {
        10 * pow10((e - 1) as nat)
    }
}

pub open spec fn is_digit(b: u8) -> bool {
    48 <= b <= 57
}

pub open spec fn all_digits(s: Seq<u8>) -> bool {
    forall|i: int| 0 <= i < s.len() ==> is_digit(#[trigger] s[i])
}

/// Numeric value of a digit string, most significant digit first.
pub open spec fn digits_val(s: Seq<u8>) -> int
    decreases s.len(),
{
    if s.len() == 0 {
        0
    } else {
        digits_val(s.drop_last()) * 10 + (s.last() - 48)
    }
}

/// What parsing a decimal field yields: the value when the field is a
/// nonempty run of digits, nothing otherwise.
pub open spec fn spec_parse_dec(s: Seq<u8>) -> Option<int> {
    if s.len() >= 1 && all_digits(s) {
        Some(digits_val(s))
    } else {
        None
    }
}

/// The shortest decimal representation of `v`.
pub open spec fn dec_rep(v: int) -> Seq<u8>
    decreases v,
{
    if v < 10 {
        seq![(48 + if v >= 0 { v } else { 0 }) as u8]
    } else {
        dec_rep(v / 10).push((48 + v % 10) as u8)
    }
}

/// Left-pad a field with ASCII zeros up to `w` bytes; a field that is
/// already at least `w` bytes long is kept as it is.
pub open spec fn zero_pad(s: Seq<u8>, w: nat) -> Seq<u8> {
    if s.len() >= w {
        s
    } else {
        Seq::new((w - s.len()) as nat, |i: int| 48u8) + s
    }
}

/// The decimal field written for value `v` at configured width `w`: zero
/// padded to `w` bytes, or longer when `v` does not fit in `w` digits.
pub open spec fn dec_digits(v: int, w: nat) -> Seq<u8> {
    zero_pad(dec_rep(v), w)
}

pub proof fn lemma_pow10_positive(e: nat)
    ensures
        pow10(e) >= 1,
    decreases e,
{
    if e > 0 {
        lemma_pow10_positive((e - 1) as nat);
    }
}

pub proof fn lemma_pow10_increases(a: nat, b: nat)
    requires
        a <= b,
    ensures
        pow10(a) <= pow10(b),
    decreases b,
{
    if a < b {
        lemma_pow10_increases(a, (b - 1) as nat);
        lemma_pow10_positive((b - 1) as nat);
    }
}

pub proof fn lemma_dec_rep_digits(v: int)
    requires
        v >= 0,
    ensures
        dec_rep(v).len() >= 1,
        all_digits(dec_rep(v)),
    decreases v,
{
    if v >= 10 {
        lemma_dec_rep_digits(v / 10);
        assert(dec_rep(v) == dec_rep(v / 10).push((48 + v % 10) as u8));
        assert forall|i: int| 0 <= i < dec_rep(v).len() implies is_digit(#[trigger] dec_rep(v)[i]) by {
            if i < dec_rep(v / 10).len() {
                assert(dec_rep(v)[i] == dec_rep(v / 10)[i]);
            }
        }
    }
}

/// The value of the shortest representation is the value itself.
pub proof fn lemma_dec_rep_val(v: int)
    requires
        v >= 0,
    ensures
        digits_val(dec_rep(v)) == v,
    decreases v,
{
    if v < 10 {
        let s = dec_rep(v);
        assert(s =~= seq![(48 + v) as u8]);
        assert(s.drop_last() =~= Seq::<u8>::empty());
        assert(digits_val(Seq::<u8>::empty()) == 0);
        assert(digits_val(s) == digits_val(s.drop_last()) * 10 + (s.last() - 48));
        assert(s.last() == (48 + v) as u8);
        assert(((48 + v) as u8) == 48 + v);
    } else {
        lemma_dec_rep_val(v / 10);
        let s = dec_rep(v / 10).push((48 + v % 10) as u8);
        assert(s.drop_last() =~= dec_rep(v / 10));
        assert(digits_val(s) == (v / 10) * 10 + v % 10);
        assert(v == (v / 10) * 10 + v % 10) by (nonlinear_arith);
    }
}

/// Leading zeros do not change the value of a digit string.
proof fn lemma_leading_zeros_val(z: Seq<u8>, s: Seq<u8>)
    requires
        forall|i: int| 0 <= i < z.len() ==> z[i] == 48u8,
    ensures
        digits_val(z + s) == digits_val(s),
    decreases s.len(), z.len(),
{
    if s.len() == 0 {
        if z.len() == 0 {
            assert(z + s =~= Seq::<u8>::empty());
        } else {
            assert((z + s).drop_last() =~= z.drop_last() + s);
            assert((z + s).last() == 48u8);
            lemma_leading_zeros_val(z.drop_last(), s);
        }
    } else {
        assert((z + s).drop_last() =~= z + s.drop_last());
        assert((z + s).last() == s.last());
        lemma_leading_zeros_val(z, s.drop_last());
    }
}

/// A padded field still parses, to the same value.
pub proof fn lemma_parse_of_dec_digits(v: int, w: nat)
    requires
        v >= 0,
    ensures
        spec_parse_dec(dec_digits(v, w)) == Some(v),
{
    lemma_dec_rep_digits(v);
    lemma_dec_rep_val(v);
    let s = dec_rep(v);
    if s.len() >= w {
        assert(dec_digits(v, w) == s);
    } else {
        let z = Seq::new((w - s.len()) as nat, |i: int| 48u8);
        lemma_leading_zeros_val(z, s);
        assert(all_digits(z + s)) by {
            assert forall|i: int| 0 <= i < (z + s).len() implies is_digit(#[trigger] (z + s)[i]) by {
                if i >= z.len() {
                    assert((z + s)[i] == s[i - z.len()]);
                }
            }
        }
    }
}

/// A digit string of length `n` denotes a value below `10^n`.
pub proof fn lemma_digits_val_bound(s: Seq<u8>)
    requires
        all_digits(s),
    ensures
        0 <= digits_val(s) < pow10(s.len()),
    decreases s.len(),
{
    if s.len() > 0 {
        assert(all_digits(s.drop_last()));
        lemma_digits_val_bound(s.drop_last());
        assert(digits_val(s.drop_last()) <= pow10((s.len() - 1) as nat) - 1);
        assert(digits_val(s.drop_last()) * 10 <= (pow10((s.len() - 1) as nat) - 1) * 10)
            by (nonlinear_arith)
            requires digits_val(s.drop_last()) <= pow10((s.len() - 1) as nat) - 1,
        ;
    }
}

/// A value below `10^w` fits in exactly `w` digits once padded.
pub proof fn lemma_dec_digits_len(v: int, w: nat)
    requires
        0 <= v < pow10(w),
        w >= 1,
    ensures
        dec_digits(v, w).len() == w,
{
    lemma_dec_rep_len_le(v, w);
    if dec_rep(v).len() < w {
        assert(dec_digits(v, w).len() == (w - dec_rep(v).len()) + dec_rep(v).len());
    }
}

proof fn lemma_dec_rep_len_le(v: int, w: nat)
    requires
        0 <= v < pow10(w),
        w >= 1,
    ensures
        dec_rep(v).len() <= w,
    decreases v,
{
    if v >= 10 {
        assert(v / 10 < pow10((w - 1) as nat)) by (nonlinear_arith)
            requires v < pow10(w), pow10(w) == 10 * pow10((w - 1) as nat), v >= 10,
        ;
        assert(w >= 2) by {
            if w == 1 {
                assert(pow10(1nat) == 10);
            }
        }
        lemma_dec_rep_len_le(v / 10, (w - 1) as nat);
    }
}

/// Computes `10^w`.
pub fn pow10_u64(w: u8) -> (r: u64)
    requires
        w <= 19,
    ensures
        r as int == pow10(w as nat),
{
    proof {
        reveal_with_fuel(pow10, 21);
        assert(pow10(19nat) == 10_000_000_000_000_000_000);
    }
    let mut r: u64 = 1;
    let mut i: u8 = 0;
    while i < w
        invariant
            i <= w,
            w <= 19,
            r as int == pow10(i as nat),
            pow10(19nat) == 10_000_000_000_000_000_000,
        decreases w - i,
    {
        proof {
            lemma_pow10_increases((i + 1) as nat, 19nat);
        }
        r = r * 10;
        i = i + 1;
    }
    r
}

/// Parses a fixed-width decimal field: the value when the bytes are all
/// ASCII digits and the field is nonempty, `None` otherwise.
pub fn parse_decimal(bytes: &[u8]) -> (r: Option<u64>)
    requires
        bytes@.len() <= 19,
    ensures
        match r {
            Some(v) => spec_parse_dec(bytes@) == Some(v as int),
            None => spec_parse_dec(bytes@) is None,
        },
{
    if bytes.len() == 0 {
        return None;
    }
    proof {
        reveal_with_fuel(pow10, 21);
        assert(pow10(19nat) == 10_000_000_000_000_000_000);
    }
    let mut acc: u64 = 0;
    let mut i: usize = 0;
    while i < bytes.len()
        invariant
            0 <= i <= bytes@.len() <= 19,
            all_digits(bytes@.take(i as int)),
            acc as int == digits_val(bytes@.take(i as int)),
            pow10(19nat) == 10_000_000_000_000_000_000,
        decreases bytes@.len() - i,
    {
        let b = bytes[i];
        if b < 48 || b > 57 {
            proof {
                assert(!is_digit(bytes@[i as int]));
                assert(!all_digits(bytes@));
            }
            return None;
        }
        proof {
            assert(all_digits(bytes@.take(i as int)));
            lemma_digits_val_bound(bytes@.take(i as int));
            lemma_pow10_increases(i as nat, 18nat);
            assert(acc as int <= pow10(18nat) - 1);
            assert((pow10(18nat) - 1) * 10 + 9 < pow10(19nat)) by (nonlinear_arith)
                requires pow10(19nat) == 10 * pow10(18nat),
            ;
            assert(bytes@.take(i + 1).drop_last() =~= bytes@.take(i as int));
            assert(bytes@.take(i + 1).last() == bytes@[i as int]);
        }
        acc = acc * 10 + ((b - 48) as u64);
        i = i + 1;
        proof {
            assert(all_digits(bytes@.take(i as int))) by {
                assert forall|j: int| 0 <= j < i implies is_digit(#[trigger] bytes@.take(i as int)[j]) by {
                    if j < i - 1 {
                        assert(bytes@.take(i - 1)[j] == bytes@.take(i as int)[j]);
                    }
                }
            }
        }
    }
    proof {
        assert(bytes@.take(i as int) =~= bytes@);
    }
    Some(acc)
}

/// Writes `v` as a decimal field of width `width` (longer when `v` does not
/// fit), as the embed path does for every count and length.
pub fn format_decimal(v: u64, width: usize) -> (r: Vec<u8>)
    ensures
        r@ == dec_digits(v as int, width as nat),
{
    let mut out: Vec<u8> = Vec::new();
    let mut x: u64 = v;
    while x >= 10
        invariant
            dec_rep(v as int) =~= dec_rep(x as int) + out@,
        decreases x,
    {
        let ghost pre = out@;
        let d = x % 10;
        out.insert(0, 48 + (d as u8));
        proof {
            assert(out@ =~= seq![(48 + x as int % 10) as u8] + pre);
            assert(dec_rep(x as int) =~= dec_rep(x as int / 10).push((48 + x as int % 10) as u8));
            assert(dec_rep(v as int) =~= dec_rep(x as int / 10) + out@);
        }
        x = x / 10;
    }
    let ghost pre = out@;
    out.insert(0, 48 + (x as u8));
    proof {
        assert(dec_rep(x as int) =~= seq![(48 + x as int) as u8]);
        assert(out@ =~= seq![(48 + x as int) as u8] + pre);
        assert(out@ =~= dec_rep(v as int));
    }
    while out.len() < width
        invariant
            out@.len() >= dec_rep(v as int).len(),
            out@.len() == dec_rep(v as int).len() || out@.len() <= width,
            out@ == zero_pad(dec_rep(v as int), out@.len() as nat),
        decreases width - out@.len(),
    {
        let ghost pre = out@;
        out.insert(0, 48);
        proof {
            assert(out@ =~= seq![48u8] + pre);
            assert(out@ =~= zero_pad(dec_rep(v as int), out@.len() as nat));
        }
    }
    proof {
        let s = dec_rep(v as int);
        if s.len() >= width as nat {
            assert(out@.len() == s.len() || out@.len() <= width);
            assert(zero_pad(s, out@.len() as nat) == s);
            assert(out@ =~= dec_digits(v as int, width as nat));
        } else {
            assert(out@.len() == width);
            assert(out@ =~= dec_digits(v as int, width as nat));
        }
    }
    out
}

} // verus!
