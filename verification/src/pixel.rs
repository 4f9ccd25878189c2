//! The bit-level model of a pixel grid. A loaded image is a row-major grid
//! of 8-bit colour samples, `planes` samples per pixel. Payload bits are laid
//! down one per sample: first bit 0 of every sample of plane 0 (row by row,
//! column by column), then plane 1, then plane 2, then bit 1 of plane 0, and
//! so on. An alpha plane, when present, is never part of this traversal.
//!
//! A bit position `p` counts sample visits in that order. The functions here
//! translate a position into a sample index and a bit index, give the value
//! of the byte assembled from eight consecutive positions (most significant
//! bit first), and describe what writing a byte sequence does to the grid.

use vstd::prelude::*;
use vstd::arithmetic::div_mod::lemma_fundamental_div_mod_converse;

verus! {

/// A well-formed grid: positive dimensions, three or four colour planes,
/// one byte per sample, and few enough samples that bit positions fit the
/// machine's integers.
pub open spec fn grid_wf(data: Seq<u8>, w: int, h: int, planes: int) -> bool {
    &&& w >= 1 && h >= 1
    &&& (planes == 3 || planes == 4)
    &&& data.len() == w * h * planes
    &&& 24 * w * h <= u64::MAX
}

/// Bits the traversal can address: 8 bit indices over 3 planes of `w * h`
/// samples.
pub open spec fn total_bits(w: int, h: int) -> int {
    24 * w * h
}

/// The bit index (significance) position `p` touches.
pub open spec fn bit_index_of(w: int, h: int, p: int) -> int {
    p / (3 * w * h)
}

/// The colour plane position `p` touches.
pub open spec fn plane_of(w: int, h: int, p: int) -> int {
    (p % (3 * w * h)) / (w * h)
}

/// The pixel (as `row * w + col`) position `p` touches.
pub open spec fn pixel_of(w: int, h: int, p: int) -> int {
    (p % (3 * w * h)) % (w * h)
}

pub open spec fn row_of(w: int, h: int, p: int) -> int {
    pixel_of(w, h, p) / w
}

pub open spec fn col_of(w: int, h: int, p: int) -> int {
    pixel_of(w, h, p) % w
}

/// The index into the sample buffer that position `p` touches.
pub open spec fn sample_of(w: int, h: int, planes: int, p: int) -> int {
    pixel_of(w, h, p) * planes + plane_of(w, h, p)
}

/// The payload bit stored at position `p` (0 or 1).
pub open spec fn bit_val(data: Seq<u8>, w: int, h: int, planes: int, p: int) -> u8 {
    (data[sample_of(w, h, planes, p)] >> (bit_index_of(w, h, p) as u8)) & 1
}

/// Value of the first `k` bits at positions `p..p+k`, most significant
/// first, as the read path assembles them.
pub open spec fn byte_prefix_val(
    data: Seq<u8>,
    w: int,
    h: int,
    planes: int,
    p: int,
    k: nat,
) -> int
    decreases k,
{
    if k == 0 {
        0
    } else {
        byte_prefix_val(data, w, h, planes, p, (k - 1) as nat) * 2 + bit_val(
            data,
            w,
            h,
            planes,
            p + k - 1,
        )
    }
}

/// The payload byte whose first bit sits at position `p`.
pub open spec fn byte_at(data: Seq<u8>, w: int, h: int, planes: int, p: int) -> u8 {
    byte_prefix_val(data, w, h, planes, p, 8) as u8
}

/// The `n` payload bytes starting at position `p`.
pub open spec fn bytes_at(data: Seq<u8>, w: int, h: int, planes: int, p: int, n: nat) -> Seq<u8> {
    Seq::new(n, |i: int| byte_at(data, w, h, planes, p + 8 * i))
}

/// Reading a run of bytes in two parts reads the same bytes.
pub proof fn lemma_bytes_at_concat(
    data: Seq<u8>,
    w: int,
    h: int,
    planes: int,
    p: int,
    a: nat,
    b: nat,
)
    ensures
        bytes_at(data, w, h, planes, p, (a + b) as nat) == bytes_at(data, w, h, planes, p, a)
            + bytes_at(data, w, h, planes, p + 8 * a, b),
{
    let lhs = bytes_at(data, w, h, planes, p, (a + b) as nat);
    let rhs = bytes_at(data, w, h, planes, p, a) + bytes_at(data, w, h, planes, p + 8 * a, b);
    assert forall|i: int| 0 <= i < a + b implies lhs[i] == rhs[i] by {
        if i >= a {
            assert(rhs[i] == byte_at(data, w, h, planes, p + 8 * a + 8 * (i - a)));
            assert(p + 8 * a + 8 * (i - a) == p + 8 * i);
        }
    }
    assert(lhs =~= rhs);
}

/// A run of bytes within a longer run is a slice of it.
pub proof fn lemma_bytes_at_slice(
    data: Seq<u8>,
    w: int,
    h: int,
    planes: int,
    p: int,
    a: nat,
    n: nat,
    total: nat,
)
    requires
        a + n <= total,
    ensures
        bytes_at(data, w, h, planes, p + 8 * a, n) == bytes_at(data, w, h, planes, p, total)
            .subrange(a as int, a as int + n as int),
{
    let lhs = bytes_at(data, w, h, planes, p + 8 * a, n);
    let rhs = bytes_at(data, w, h, planes, p, total).subrange(a as int, a as int + n as int);
    assert forall|i: int| 0 <= i < n implies lhs[i] == rhs[i] by {
        assert(rhs[i] == byte_at(data, w, h, planes, p + 8 * (a + i)));
        assert(p + 8 * a + 8 * i == p + 8 * (a + i));
    }
    assert(lhs =~= rhs);
}

/// Consuming `n` whole bytes ahead of a position leaves `n` fewer whole
/// bytes available.
pub proof fn lemma_avail_step(x: int, n: int)
    requires
        0 <= n,
        8 * n <= x,
    ensures
        (x - 8 * n) / 8 == x / 8 - n,
{
    vstd::arithmetic::div_mod::lemma_fundamental_div_mod(x, 8);
    lemma_fundamental_div_mod_converse(x - 8 * n, 8, x / 8 - n, x % 8);
}

/// One sample with the bit at index `k` replaced by `b`; every other bit of
/// the sample is untouched.
pub open spec fn set_bit(sample: u8, k: u8, b: u8) -> u8 {
    (sample & !(1u8 << k)) | (b << k)
}

/// The grid after writing bit `b` at position `p`. Writing also forces the
/// touched pixel's alpha sample, when there is one, to fully opaque.
pub open spec fn write_bit_spec(
    data: Seq<u8>,
    w: int,
    h: int,
    planes: int,
    p: int,
    b: u8,
) -> Seq<u8> {
    let s = sample_of(w, h, planes, p);
    let d1 = data.update(s, set_bit(data[s], bit_index_of(w, h, p) as u8, b));
    if planes == 4 {
        d1.update(pixel_of(w, h, p) * 4 + 3, 255u8)
    } else {
        d1
    }
}

/// The bits of a byte, most significant first.
pub open spec fn bits_of_byte(byte: u8) -> Seq<u8> {
    Seq::new(8, |i: int| (byte >> ((7 - i) as u8)) & 1)
}

/// The grid after writing a bit sequence at consecutive positions from `p`.
pub open spec fn write_bits_spec(
    data: Seq<u8>,
    w: int,
    h: int,
    planes: int,
    p: int,
    bits: Seq<u8>,
) -> Seq<u8>
    decreases bits.len(),
{
    if bits.len() == 0 {
        data
    } else {
        write_bits_spec(write_bit_spec(data, w, h, planes, p, bits[0]), w, h, planes, p + 1, bits.drop_first())
    }
}

/// The grid after writing one byte at positions `p..p+8`.
pub open spec fn write_byte_spec(
    data: Seq<u8>,
    w: int,
    h: int,
    planes: int,
    p: int,
    byte: u8,
) -> Seq<u8> {
    write_bits_spec(data, w, h, planes, p, bits_of_byte(byte))
}

/// The grid after writing a byte sequence starting at position `p`.
pub open spec fn write_bytes_spec(
    data: Seq<u8>,
    w: int,
    h: int,
    planes: int,
    p: int,
    bytes: Seq<u8>,
) -> Seq<u8>
    decreases bytes.len(),
{
    if bytes.len() == 0 {
        data
    } else {
        write_bytes_spec(
            write_byte_spec(data, w, h, planes, p, bytes[0]),
            w,
            h,
            planes,
            p + 8,
            bytes.drop_first(),
        )
    }
}

/// Writing one more bit after a run writes it at the position following the
/// run.
pub proof fn lemma_write_bits_snoc(
    data: Seq<u8>,
    w: int,
    h: int,
    planes: int,
    p: int,
    bits: Seq<u8>,
    b: u8,
)
    ensures
        write_bits_spec(data, w, h, planes, p, bits.push(b)) == write_bit_spec(
            write_bits_spec(data, w, h, planes, p, bits),
            w,
            h,
            planes,
            p + bits.len(),
            b,
        ),
    decreases bits.len(),
{
    reveal_with_fuel(write_bits_spec, 3);
    if bits.len() == 0 {
        assert(bits.push(b)[0] == b);
        assert(bits.push(b).drop_first() =~= Seq::<u8>::empty());
    } else {
        assert(bits.push(b)[0] == bits[0]);
        assert(bits.push(b).drop_first() =~= bits.drop_first().push(b));
        lemma_write_bits_snoc(
            write_bit_spec(data, w, h, planes, p, bits[0]),
            w,
            h,
            planes,
            p + 1,
            bits.drop_first(),
            b,
        );
    }
}

/// Writing one more byte after a run writes it at the position following
/// the run.
pub proof fn lemma_write_bytes_snoc(
    data: Seq<u8>,
    w: int,
    h: int,
    planes: int,
    p: int,
    bytes: Seq<u8>,
    x: u8,
)
    ensures
        write_bytes_spec(data, w, h, planes, p, bytes.push(x)) == write_byte_spec(
            write_bytes_spec(data, w, h, planes, p, bytes),
            w,
            h,
            planes,
            p + 8 * bytes.len(),
            x,
        ),
    decreases bytes.len(),
{
    reveal_with_fuel(write_bytes_spec, 3);
    if bytes.len() == 0 {
        assert(bytes.push(x)[0] == x);
        assert(bytes.push(x).drop_first() =~= Seq::<u8>::empty());
    } else {
        assert(bytes.push(x)[0] == bytes[0]);
        assert(bytes.push(x).drop_first() =~= bytes.drop_first().push(x));
        lemma_write_bytes_snoc(
            write_byte_spec(data, w, h, planes, p, bytes[0]),
            w,
            h,
            planes,
            p + 8,
            bytes.drop_first(),
            x,
        );
        assert((p + 8) + 8 * (bytes.len() - 1) == p + 8 * bytes.len());
    }
}

/// Writing a concatenation writes the first part, then the second just
/// after it.
pub proof fn lemma_write_bytes_append(
    data: Seq<u8>,
    w: int,
    h: int,
    planes: int,
    p: int,
    b1: Seq<u8>,
    b2: Seq<u8>,
)
    ensures
        write_bytes_spec(data, w, h, planes, p, b1 + b2) == write_bytes_spec(
            write_bytes_spec(data, w, h, planes, p, b1),
            w,
            h,
            planes,
            p + 8 * b1.len(),
            b2,
        ),
    decreases b1.len(),
{
    if b1.len() == 0 {
        assert(b1 + b2 =~= b2);
    } else {
        assert((b1 + b2)[0] == b1[0]);
        assert((b1 + b2).drop_first() =~= b1.drop_first() + b2);
        lemma_write_bytes_append(
            write_byte_spec(data, w, h, planes, p, b1[0]),
            w,
            h,
            planes,
            p + 8,
            b1.drop_first(),
            b2,
        );
        assert((p + 8) + 8 * (b1.len() - 1) == p + 8 * b1.len());
    }
}

/// Recomposing a position from in-range cursor coordinates gives back those
/// coordinates.
pub proof fn lemma_recompose(w: int, h: int, bi: int, pl: int, r: int, c: int)
    requires
        w >= 1,
        h >= 1,
        0 <= c < w,
        0 <= r < h,
        0 <= pl < 3,
        0 <= bi,
    ensures
        ({
            let p = bi * (3 * w * h) + pl * (w * h) + r * w + c;
            &&& p >= 0
            &&& bit_index_of(w, h, p) == bi
            &&& plane_of(w, h, p) == pl
            &&& row_of(w, h, p) == r
            &&& col_of(w, h, p) == c
            &&& pixel_of(w, h, p) == r * w + c
        }),
{
    let p = bi * (3 * w * h) + pl * (w * h) + r * w + c;
    let rc = r * w + c;
    assert(0 <= rc < w * h) by (nonlinear_arith)
        requires 0 <= c < w, 0 <= r < h, w >= 1, h >= 1, rc == r * w + c,
    ;
    let a = pl * (w * h) + rc;
    assert(0 <= a < 3 * (w * h)) by (nonlinear_arith)
        requires 0 <= rc < w * h, 0 <= pl < 3, a == pl * (w * h) + rc,
    ;
    assert(p >= 0) by (nonlinear_arith)
        requires 0 <= a, 0 <= bi, w >= 1, h >= 1, p == bi * (3 * w * h) + a, a == pl * (w * h) + rc, rc == r * w + c,
    ;
    assert(3 * w * h == 3 * (w * h)) by (nonlinear_arith);
    lemma_fundamental_div_mod_converse(p, 3 * (w * h), bi, a);
    assert(bit_index_of(w, h, p) == bi);
    assert(p % (3 * w * h) == a);
    lemma_fundamental_div_mod_converse(a, w * h, pl, rc);
    lemma_fundamental_div_mod_converse(rc, w, r, c);
}

/// Every position below `total_bits` touches a real, non-alpha sample with a
/// bit index below 8.
pub proof fn lemma_position_ranges(data: Seq<u8>, w: int, h: int, planes: int, p: int)
    requires
        grid_wf(data, w, h, planes),
        0 <= p < total_bits(w, h),
    ensures
        0 <= bit_index_of(w, h, p) < 8,
        0 <= plane_of(w, h, p) < 3,
        0 <= pixel_of(w, h, p) < w * h,
        0 <= sample_of(w, h, planes, p) < w * h * planes,
        sample_of(w, h, planes, p) % planes == plane_of(w, h, p),
        sample_of(w, h, planes, p) / planes == pixel_of(w, h, p),
        planes == 4 ==> 0 <= pixel_of(w, h, p) * 4 + 3 < w * h * planes,
        planes == 4 ==> (pixel_of(w, h, p) * 4 + 3) % planes == 3,
{
    let m = 3 * w * h;
    assert(m >= 3) by (nonlinear_arith)
        requires w >= 1, h >= 1, m == 3 * w * h,
    ;
    assert(0 <= p % m < m) by (nonlinear_arith)
        requires m > 0, p >= 0,
    ;
    assert(w * h > 0) by (nonlinear_arith)
        requires w >= 1, h >= 1,
    ;
    let a = p % m;
    assert(0 <= a / (w * h) < 3) by (nonlinear_arith)
        requires 0 <= a < m, w * h > 0, m == 3 * w * h,
    ;
    assert(0 <= a % (w * h) < w * h) by (nonlinear_arith)
        requires w * h > 0, a >= 0,
    ;
    assert(0 <= p / m < 8) by (nonlinear_arith)
        requires 0 <= p < 24 * w * h, m == 3 * w * h, w * h > 0,
    ;
    let px = pixel_of(w, h, p);
    let pl = plane_of(w, h, p);
    assert(px == a % (w * h) && pl == a / (w * h));
    assert(0 <= px * planes + pl < w * h * planes) by (nonlinear_arith)
        requires 0 <= px < w * h, 0 <= pl < 3, planes == 3 || planes == 4,
    ;
    lemma_fundamental_div_mod_converse(px * planes + pl, planes, px, pl);
    if planes == 4 {
        assert(0 <= px * 4 + 3 < w * h * planes) by (nonlinear_arith)
            requires 0 <= px < w * h, planes == 4,
        ;
        lemma_fundamental_div_mod_converse(px * 4 + 3, 4, px, 3);
    }
}

/// Distinct in-range positions touch distinct (sample, bit-index) pairs.
pub proof fn lemma_positions_injective(
    data: Seq<u8>,
    w: int,
    h: int,
    planes: int,
    p: int,
    q: int,
)
    requires
        grid_wf(data, w, h, planes),
        0 <= p < total_bits(w, h),
        0 <= q < total_bits(w, h),
        p != q,
    ensures
        sample_of(w, h, planes, p) != sample_of(w, h, planes, q) || bit_index_of(w, h, p)
            != bit_index_of(w, h, q),
{
    lemma_position_ranges(data, w, h, planes, p);
    lemma_position_ranges(data, w, h, planes, q);
    if sample_of(w, h, planes, p) == sample_of(w, h, planes, q) && bit_index_of(w, h, p)
        == bit_index_of(w, h, q) {
        // Equal samples decompose to equal pixel and plane.
        assert(pixel_of(w, h, p) == pixel_of(w, h, q) && plane_of(w, h, p) == plane_of(w, h, q));
        // Rebuild both positions from their components.
        let m = 3 * w * h;
        assert(m == 3 * (w * h)) by (nonlinear_arith)
            requires m == 3 * w * h,
        ;
        vstd::arithmetic::div_mod::lemma_fundamental_div_mod(p, m);
        vstd::arithmetic::div_mod::lemma_fundamental_div_mod(q, m);
        vstd::arithmetic::div_mod::lemma_fundamental_div_mod(p % m, w * h);
        vstd::arithmetic::div_mod::lemma_fundamental_div_mod(q % m, w * h);
        let bp = p / m;
        let ap = p % m;
        let bq = q / m;
        let aq = q % m;
        assert(bp == bq);
        assert(ap / (w * h) == aq / (w * h) && ap % (w * h) == aq % (w * h));
        assert(ap == aq) by (nonlinear_arith)
            requires
                w * h != 0,
                ap == (w * h) * (ap / (w * h)) + ap % (w * h),
                aq == (w * h) * (aq / (w * h)) + aq % (w * h),
                ap / (w * h) == aq / (w * h),
                ap % (w * h) == aq % (w * h),
        ;
        assert(p == q) by (nonlinear_arith)
            requires
                m != 0,
                p == m * (p / m) + p % m,
                q == m * (q / m) + q % m,
                p / m == q / m,
                p % m == q % m,
        ;
    }
}

/// Writing one bit stores exactly that bit at its position and leaves the
/// bit at every other in-range position unchanged.
pub proof fn lemma_write_bit(data: Seq<u8>, w: int, h: int, planes: int, p: int, b: u8)
    requires
        grid_wf(data, w, h, planes),
        0 <= p < total_bits(w, h),
        b == 0 || b == 1,
    ensures
        write_bit_spec(data, w, h, planes, p, b).len() == data.len(),
        bit_val(write_bit_spec(data, w, h, planes, p, b), w, h, planes, p) == b,
        forall|q: int|
            0 <= q < total_bits(w, h) && q != p ==> bit_val(
                write_bit_spec(data, w, h, planes, p, b),
                w,
                h,
                planes,
                q,
            ) == bit_val(data, w, h, planes, q),
{
    lemma_position_ranges(data, w, h, planes, p);
    let s = sample_of(w, h, planes, p);
    let k = bit_index_of(w, h, p) as u8;
    let d = write_bit_spec(data, w, h, planes, p, b);
    let x = data[s];
    assert(((x & !(1u8 << k)) | (b << k)) >> k & 1 == b) by (bit_vector)
        requires k < 8, b == 0 || b == 1,
    ;
    assert(d[s] == set_bit(x, k, b));
    assert forall|q: int| 0 <= q < total_bits(w, h) && q != p implies bit_val(
        d,
        w,
        h,
        planes,
        q,
    ) == bit_val(data, w, h, planes, q) by {
        lemma_position_ranges(data, w, h, planes, q);
        lemma_positions_injective(data, w, h, planes, p, q);
        let sq = sample_of(w, h, planes, q);
        let kq = bit_index_of(w, h, q) as u8;
        if sq == s {
            assert(kq != k);
            assert(((x & !(1u8 << k)) | (b << k)) >> kq & 1 == x >> kq & 1)
                by (bit_vector)
                requires k < 8, kq < 8, kq != k, b == 0 || b == 1,
            ;
        } else {
            // A different sample: the single update misses it, and so does
            // the alpha update, which touches only an alpha sample.
            if planes == 4 {
                assert(sq % 4 != 3 && (pixel_of(w, h, p) * 4 + 3) % 4 == 3);
                assert(sq != pixel_of(w, h, p) * 4 + 3);
            }
            assert(d[sq] == data[sq]);
        }
    }
}

/// A stored bit is always 0 or 1.
pub proof fn lemma_bit_val_bound(data: Seq<u8>, w: int, h: int, planes: int, p: int)
    ensures
        bit_val(data, w, h, planes, p) == 0 || bit_val(data, w, h, planes, p) == 1,
{
    let x = data[sample_of(w, h, planes, p)];
    let k = bit_index_of(w, h, p) as u8;
    assert(x >> k & 1 == 0 || x >> k & 1 == 1) by (bit_vector);
}

/// A `k`-bit prefix value stays below `2^k`; in particular a full byte fits
/// in eight bits.
pub proof fn lemma_byte_prefix_val_bound(
    data: Seq<u8>,
    w: int,
    h: int,
    planes: int,
    p: int,
    k: nat,
)
    requires
        k <= 8,
    ensures
        0 <= byte_prefix_val(data, w, h, planes, p, k) < vstd::arithmetic::power2::pow2(k),
    decreases k,
{
    vstd::arithmetic::power2::lemma2_to64();
    if k > 0 {
        lemma_byte_prefix_val_bound(data, w, h, planes, p, (k - 1) as nat);
        lemma_bit_val_bound(data, w, h, planes, p + k - 1);
        assert(vstd::arithmetic::power2::pow2(k) == 2 * vstd::arithmetic::power2::pow2(
            (k - 1) as nat,
        )) by {
            vstd::arithmetic::power2::lemma_pow2_unfold(k);
        }
    }
}

/// Writing a run of bits stores exactly those bits at their positions and
/// leaves every other in-range position unchanged.
pub proof fn lemma_write_bits(data: Seq<u8>, w: int, h: int, planes: int, p: int, bits: Seq<u8>)
    requires
        grid_wf(data, w, h, planes),
        0 <= p,
        p + bits.len() <= total_bits(w, h),
        forall|i: int| 0 <= i < bits.len() ==> bits[i] == 0 || bits[i] == 1,
    ensures
        write_bits_spec(data, w, h, planes, p, bits).len() == data.len(),
        forall|i: int|
            0 <= i < bits.len() ==> bit_val(
                write_bits_spec(data, w, h, planes, p, bits),
                w,
                h,
                planes,
                p + i,
            ) == bits[i],
        forall|q: int|
            0 <= q < total_bits(w, h) && !(p <= q < p + bits.len()) ==> bit_val(
                write_bits_spec(data, w, h, planes, p, bits),
                w,
                h,
                planes,
                q,
            ) == bit_val(data, w, h, planes, q),
    decreases bits.len(),
{
    if bits.len() > 0 {
        let d1 = write_bit_spec(data, w, h, planes, p, bits[0]);
        lemma_write_bit(data, w, h, planes, p, bits[0]);
        assert(grid_wf(d1, w, h, planes));
        lemma_write_bits(d1, w, h, planes, p + 1, bits.drop_first());
        let dfinal = write_bits_spec(data, w, h, planes, p, bits);
        assert(dfinal == write_bits_spec(d1, w, h, planes, p + 1, bits.drop_first()));
        assert forall|i: int| 0 <= i < bits.len() implies bit_val(dfinal, w, h, planes, p + i)
            == bits[i] by {
            if i == 0 {
                assert(bit_val(d1, w, h, planes, p) == bits[0]);
            } else {
                assert(bits.drop_first()[i - 1] == bits[i]);
            }
        }
    }
}

/// Bits of a byte are single bits, and reassembling them most significant
/// first gives the byte back.
pub proof fn lemma_bits_of_byte(byte: u8)
    ensures
        bits_of_byte(byte).len() == 8,
        forall|i: int|
            0 <= i < 8 ==> (#[trigger] bits_of_byte(byte)[i]) == 0 || bits_of_byte(byte)[i] == 1,
        forall|i: int| 0 <= i < 8 ==> (#[trigger] bits_of_byte(byte)[i]) == byte >> ((7 - i) as u8)
            & 1,
{
    assert forall|i: int| 0 <= i < 8 implies (#[trigger] bits_of_byte(byte)[i]) == 0 || bits_of_byte(
        byte,
    )[i] == 1 by {
        let k = (7 - i) as u8;
        assert(byte >> k & 1 == 0 || byte >> k & 1 == 1) by (bit_vector);
    }
}

/// A grid whose bits at `p..p+8` are the bits of `byte` yields `byte` when
/// the byte at `p` is assembled.
proof fn lemma_reassemble_byte(data: Seq<u8>, w: int, h: int, planes: int, p: int, byte: u8)
    requires
        forall|j: int|
            0 <= j < 8 ==> #[trigger] bit_val(data, w, h, planes, p + j) == byte >> ((7 - j) as u8)
                & 1,
    ensures
        byte_at(data, w, h, planes, p) == byte,
{
    reveal_with_fuel(byte_prefix_val, 9);
    let b7 = byte >> 7u8 & 1;
    let b6 = byte >> 6u8 & 1;
    let b5 = byte >> 5u8 & 1;
    let b4 = byte >> 4u8 & 1;
    let b3 = byte >> 3u8 & 1;
    let b2 = byte >> 2u8 & 1;
    let b1 = byte >> 1u8 & 1;
    let b0 = byte >> 0u8 & 1;
    assert(b7 * 128 + b6 * 64 + b5 * 32 + b4 * 16 + b3 * 8 + b2 * 4 + b1 * 2 + b0 == byte)
        by (bit_vector)
        requires
            b7 == byte >> 7u8 & 1,
            b6 == byte >> 6u8 & 1,
            b5 == byte >> 5u8 & 1,
            b4 == byte >> 4u8 & 1,
            b3 == byte >> 3u8 & 1,
            b2 == byte >> 2u8 & 1,
            b1 == byte >> 1u8 & 1,
            b0 == byte >> 0u8 & 1,
    ;
    assert(bit_val(data, w, h, planes, p + 0) == b7);
    assert(bit_val(data, w, h, planes, p + 1) == b6);
    assert(bit_val(data, w, h, planes, p + 2) == b5);
    assert(bit_val(data, w, h, planes, p + 3) == b4);
    assert(bit_val(data, w, h, planes, p + 4) == b3);
    assert(bit_val(data, w, h, planes, p + 5) == b2);
    assert(bit_val(data, w, h, planes, p + 6) == b1);
    assert(bit_val(data, w, h, planes, p + 7) == b0);
    assert(byte_prefix_val(data, w, h, planes, p, 1) == b7);
    assert(byte_prefix_val(data, w, h, planes, p, 2) == b7 * 2 + b6);
    assert(byte_prefix_val(data, w, h, planes, p, 3) == (b7 * 2 + b6) * 2 + b5);
    assert(byte_prefix_val(data, w, h, planes, p, 4) == ((b7 * 2 + b6) * 2 + b5) * 2 + b4);
    assert(byte_prefix_val(data, w, h, planes, p, 5) == (((b7 * 2 + b6) * 2 + b5) * 2 + b4) * 2
        + b3);
    assert(byte_prefix_val(data, w, h, planes, p, 6) == ((((b7 * 2 + b6) * 2 + b5) * 2 + b4) * 2
        + b3) * 2 + b2);
    assert(byte_prefix_val(data, w, h, planes, p, 7) == (((((b7 * 2 + b6) * 2 + b5) * 2 + b4) * 2
        + b3) * 2 + b2) * 2 + b1);
    assert(byte_prefix_val(data, w, h, planes, p, 8) == b7 * 128 + b6 * 64 + b5 * 32 + b4 * 16 + b3
        * 8 + b2 * 4 + b1 * 2 + b0);
}

/// Writing a byte sequence keeps the grid's size, stores exactly those
/// bytes, and leaves the bit at every position outside the written range
/// unchanged.
pub proof fn lemma_write_bytes(data: Seq<u8>, w: int, h: int, planes: int, p: int, bytes: Seq<u8>)
    requires
        grid_wf(data, w, h, planes),
        0 <= p,
        p + 8 * bytes.len() <= total_bits(w, h),
    ensures
        write_bytes_spec(data, w, h, planes, p, bytes).len() == data.len(),
        forall|i: int|
            0 <= i < bytes.len() ==> byte_at(
                write_bytes_spec(data, w, h, planes, p, bytes),
                w,
                h,
                planes,
                p + 8 * i,
            ) == bytes[i],
        forall|q: int|
            0 <= q < total_bits(w, h) && !(p <= q < p + 8 * bytes.len()) ==> bit_val(
                write_bytes_spec(data, w, h, planes, p, bytes),
                w,
                h,
                planes,
                q,
            ) == bit_val(data, w, h, planes, q),
    decreases bytes.len(),
{
    if bytes.len() > 0 {
        let byte = bytes[0];
        lemma_bits_of_byte(byte);
        let d1 = write_byte_spec(data, w, h, planes, p, byte);
        lemma_write_bits(data, w, h, planes, p, bits_of_byte(byte));
        assert(grid_wf(d1, w, h, planes));
        lemma_write_bytes(d1, w, h, planes, p + 8, bytes.drop_first());
        let dfinal = write_bytes_spec(data, w, h, planes, p, bytes);
        assert(dfinal == write_bytes_spec(d1, w, h, planes, p + 8, bytes.drop_first()));
        assert forall|i: int| 0 <= i < bytes.len() implies byte_at(dfinal, w, h, planes, p + 8 * i)
            == bytes[i] by {
            if i == 0 {
                // The first byte's bits survive the writes of the later
                // bytes, which all land at positions past `p + 8`.
                assert forall|j: int| 0 <= j < 8 implies #[trigger] bit_val(
                    dfinal,
                    w,
                    h,
                    planes,
                    p + j,
                ) == byte >> ((7 - j) as u8) & 1 by {
                    assert(bit_val(d1, w, h, planes, p + j) == bits_of_byte(byte)[j]);
                    assert(!(p + 8 <= p + j < p + 8 + 8 * bytes.drop_first().len()));
                    assert(bit_val(dfinal, w, h, planes, p + j) == bit_val(d1, w, h, planes, p + j));
                }
                lemma_reassemble_byte(dfinal, w, h, planes, p, byte);
            } else {
                assert(bytes.drop_first()[i - 1] == bytes[i]);
                assert(byte_at(dfinal, w, h, planes, (p + 8) + 8 * (i - 1)) == bytes[i]);
                assert((p + 8) + 8 * (i - 1) == p + 8 * i);
            }
        }
    }
}

/// Writing a byte sequence and then reading the same number of bytes from
/// the position where writing began returns that sequence unchanged.
pub proof fn lemma_cursor_symmetry(data: Seq<u8>, w: int, h: int, planes: int, p: int, bytes: Seq<u8>)
    requires
        grid_wf(data, w, h, planes),
        0 <= p,
        p + 8 * bytes.len() <= total_bits(w, h),
    ensures
        bytes_at(write_bytes_spec(data, w, h, planes, p, bytes), w, h, planes, p, bytes.len())
            == bytes,
{
    lemma_write_bytes(data, w, h, planes, p, bytes);
    assert(bytes_at(write_bytes_spec(data, w, h, planes, p, bytes), w, h, planes, p, bytes.len())
        =~= bytes);
}

} // verus!
