//! The cursor's write path: laying payload bytes down into the grid's bits,
//! one bit per colour sample, most significant bit first. Only the addressed
//! bit of a sample changes; a touched pixel's alpha sample, when present, is
//! forced to fully opaque.

use vstd::prelude::*;

use crate::pixel::{
    bits_of_byte, grid_wf, lemma_position_ranges, lemma_recompose, lemma_write_bits_snoc,
    lemma_write_bytes_snoc, total_bits, write_bit_spec, write_bits_spec, write_byte_spec,
    write_bytes_spec,
};
use crate::steg::Steganography;

verus! {

impl Steganography {
    /// Writes up to `bytes.len()` payload bytes at the cursor, advancing
    /// it, and returns how many were written. Fewer bytes than offered are
    /// written exactly when the cursor would walk off the grid; the caller
    /// compares the count against what it offered.
    #[verifier::loop_isolation(false)]
    #[verifier::rlimit(100)]
    pub fn write_data_to_image(&mut self, bytes: &[u8]) -> (r: u32)
        requires
            old(self).wf(),
            bytes@.len() <= u32::MAX,
        ensures
            final(self).wf(),
            final(self).only_cursor_and_grid_changed(*old(self)),
            r as int == if bytes@.len() as int <= old(self).avail_bytes() {
                bytes@.len() as int
            } else {
                old(self).avail_bytes()
            },
            final(self).grid() == write_bytes_spec(
                old(self).grid(),
                old(self).w(),
                old(self).h(),
                old(self).planes(),
                old(self).cursor_pos(),
                bytes@.take(r as int),
            ),
            final(self).cursor_pos() == old(self).cursor_pos() + 8 * r,
    {
        if self.image.is_none() {
            proof {
                assert(bytes@.take(0) =~= Seq::<u8>::empty());
            }
            return 0;
        }
        let w = self.pic_width;
        let h = self.pic_height;
        let planes = self.pic_col_planes;
        let ghost gw = w as int;
        let ghost gh = h as int;
        let ghost gp = planes as int;
        proof {
            assert(24 * gw * gh <= u64::MAX);
            assert(gw * gh <= 24 * gw * gh) by (nonlinear_arith)
                requires gw >= 1, gh >= 1,
            ;
        }
        let wh: u64 = (w as u64) * (h as u64);
        proof {
            assert(24 * (wh as int) <= u64::MAX) by (nonlinear_arith)
                requires wh as int == gw * gh, 24 * gw * gh <= u64::MAX,
            ;
        }
        let total: u64 = 24 * wh;
        proof {
            assert(total as int == total_bits(gw, gh)) by (nonlinear_arith)
                requires total as int == 24 * (gw * gh),
            ;
        }
        proof {
            assert((self.row as int) * gw + (self.col as int) < gw * gh) by (nonlinear_arith)
                requires
                    (self.row as int) < gh,
                    (self.col as int) < gw,
                    gw >= 1,
                    gh >= 1,
            ;
        }
        let rowterm: u64 = (self.row as u64) * (w as u64) + (self.col as u64);
        proof {
            if self.bit == 8 {
                assert(self.plane == 0 && self.row == 0 && self.col == 0);
                assert(rowterm == 0) by (nonlinear_arith)
                    requires
                        rowterm as int == (self.row as int) * (gw as int) + (self.col as int),
                        self.row == 0,
                        self.col == 0,
                ;
            }
        }
        proof {
            assert((self.bit as int) * 3 * (gw * gh) + (self.plane as int) * (gw * gh) + rowterm
                <= 24 * (gw * gh)) by (nonlinear_arith)
                requires
                    self.bit <= 8,
                    (self.plane as int) < 3,
                    rowterm < gw * gh || (self.bit == 8 && self.plane == 0 && rowterm == 0),
                    self.bit == 8 ==> self.plane == 0 && rowterm == 0,
                    gw * gh >= 1,
            ;
        }
        let pos: u64 = (self.bit as u64) * 3 * wh + (self.plane as u64) * wh + rowterm;
        proof {
            assert(pos as int == self.cursor_pos()) by (nonlinear_arith)
                requires
                    pos as int == (self.bit as int) * 3 * (gw * gh) + (self.plane as int) * (gw
                        * gh) + (self.row as int) * gw + (self.col as int),
                    self.cursor_pos() == (self.bit as int) * (3 * gw * gh) + (self.plane as int) * (
                    gw * gh) + (self.row as int) * gw + (self.col as int),
            ;
        }
        let remaining: u64 = total - pos;
        let avail: u64 = remaining / 8;
        proof {
            assert(avail as int == old(self).avail_bytes());
            assert(8 * (avail as int) <= remaining as int);
        }
        let m: usize = if (bytes.len() as u64) <= avail {
            bytes.len()
        } else {
            avail as usize
        };
        let ghost g0 = self.grid();
        let ghost p0 = pos as int;
        let mut data: Vec<u8> = match self.image.take() {
            Some(d) => d,
            None => {
                return 0;  // unreachable: the image was checked above
            },
        };
        let mut row: u32 = self.row;
        let mut col: u32 = self.col;
        let mut plane: usize = self.plane;
        let mut bitidx: u8 = self.bit;
        let mut i: usize = 0;
        while i < m
            invariant
                i <= m,
                data@ =~= write_bytes_spec(g0, gw, gh, gp, p0, bytes@.take(i as int)),
                data@.len() == g0.len(),
                (bitidx as int) * (3 * gw * gh) + (plane as int) * (gw * gh) + (row as int) * gw + (
                col as int) == p0 + 8 * i,
                (row as int) < gh,
                (col as int) < gw,
                (plane as int) < 3,
                bitidx <= 8,
                bitidx == 8 ==> plane == 0 && row == 0 && col == 0,
            decreases m - i,
        {
            let byte: u8 = bytes[i];
            let ghost data_i = data@;
            let mut j: u8 = 0;
            while j < 8
                invariant
                    j <= 8,
                    i < m,
                    byte == bytes@[i as int],
                    data_i == write_bytes_spec(g0, gw, gh, gp, p0, bytes@.take(i as int)),
                    data@ =~= write_bits_spec(
                        data_i,
                        gw,
                        gh,
                        gp,
                        p0 + 8 * (i as int),
                        bits_of_byte(byte).take(j as int),
                    ),
                    data@.len() == g0.len(),
                    (bitidx as int) * (3 * gw * gh) + (plane as int) * (gw * gh) + (row as int) * gw
                        + (col as int) == p0 + 8 * i + j,
                    (row as int) < gh,
                    (col as int) < gw,
                    (plane as int) < 3,
                    bitidx <= 8,
                    bitidx == 8 ==> plane == 0 && row == 0 && col == 0,
                decreases 8 - j,
            {
                let ghost cur = p0 + 8 * (i as int) + (j as int);
                let ghost dpre = data@;
                proof {
                    assert(cur < total_bits(gw, gh));
                    lemma_position_ranges(dpre, gw, gh, gp, cur);
                    lemma_recompose(gw, gh, bitidx as int, plane as int, row as int, col as int);
                    assert(crate::pixel::sample_of(gw, gh, gp, cur) == ((row as int) * gw + (
                    col as int)) * gp + (plane as int));
                    assert(crate::pixel::bit_index_of(gw, gh, cur) == bitidx as int);
                    assert(((row as int) * gw + (col as int)) * gp + (plane as int) < gw * gh * gp);
                }
                let n_samples: usize = data.len();
                proof {
                    assert(data@.len() == gw * gh * gp);
                    assert((row as int) * gw + (col as int) < gw * gh) by (nonlinear_arith)
                        requires 0 <= (row as int) < gh, 0 <= (col as int) < gw, gw >= 1, gh >= 1,
                    ;
                    assert(gw * gh <= gw * gh * gp) by (nonlinear_arith)
                        requires gw >= 1, gh >= 1, gp >= 3,
                    ;
                    assert(((row as int) * gw + (col as int)) * gp <= ((row as int) * gw + (
                    col as int)) * gp + (plane as int));
                }
                let pixel: usize = (row as usize) * (w as usize) + (col as usize);
                let idx: usize = pixel * (planes as usize) + plane;
                // Extract the byte's next bit, most significant first, and
                // splice it into the sample at the cursor's bit index.
                let bitb: u8 = (byte >> (7 - j)) & 1;
                let sample: u8 = data[idx];
                let newsample: u8 = (sample & !(1u8 << bitidx)) | (bitb << bitidx);
                data.set(idx, newsample);
                if planes == 4 {
                    proof {
                        assert(pixel * 4 + 3 == crate::pixel::pixel_of(gw, gh, cur) * 4 + 3);
                        assert(pixel * 4 + 3 < gw * gh * gp);
                    }
                    let aidx: usize = pixel * 4 + 3;
                    data.set(aidx, 255);
                }
                proof {
                    assert(bitb == bits_of_byte(byte)[j as int]);
                    assert(newsample == crate::pixel::set_bit(
                        dpre[crate::pixel::sample_of(gw, gh, gp, cur)],
                        bitidx,
                        bitb,
                    ));
                    assert(data@ =~= write_bit_spec(dpre, gw, gh, gp, cur, bitb));
                    lemma_write_bits_snoc(
                        data_i,
                        gw,
                        gh,
                        gp,
                        p0 + 8 * (i as int),
                        bits_of_byte(byte).take(j as int),
                        bitb,
                    );
                    assert(bits_of_byte(byte).take(j as int).push(bitb) =~= bits_of_byte(
                        byte,
                    ).take(j + 1));
                }
                let ghost pr: int = (row as int);
                let ghost pc: int = (col as int);
                let ghost pp: int = (plane as int);
                let ghost pb: int = (bitidx as int);
                col = col + 1;
                if col == w {
                    col = 0;
                    row = row + 1;
                    if row == h {
                        row = 0;
                        plane = plane + 1;
                        if plane == 3 {
                            plane = 0;
                            bitidx = bitidx + 1;
                        }
                    }
                }
                proof {
                    assert((bitidx as int) * (3 * gw * gh) + (plane as int) * (gw * gh) + (
                    row as int) * gw + (col as int) == cur + 1) by (nonlinear_arith)
                        requires
                            pb * (3 * gw * gh) + pp * (gw * gh) + pr * gw + pc == cur,
                            0 <= pc < gw,
                            0 <= pr < gh,
                            0 <= pp < 3,
                            0 <= pb,
                            gw >= 1,
                            gh >= 1,
                            (bitidx as int) == if pc + 1 == gw && pr + 1 == gh && pp + 1 == 3 {
                                pb + 1
                            } else {
                                pb
                            },
                            (plane as int) == if pc + 1 == gw && pr + 1 == gh {
                                if pp + 1 == 3 {
                                    0
                                } else {
                                    pp + 1
                                }
                            } else {
                                pp
                            },
                            (row as int) == if pc + 1 == gw {
                                if pr + 1 == gh {
                                    0
                                } else {
                                    pr + 1
                                }
                            } else {
                                pr
                            },
                            (col as int) == if pc + 1 == gw {
                                0
                            } else {
                                pc + 1
                            },
                    ;
                    assert(bitidx <= 8) by (nonlinear_arith)
                        requires
                            (bitidx as int) * (3 * gw * gh) + (plane as int) * (gw * gh) + (
                            row as int) * gw + (col as int) == cur + 1,
                            cur + 1 <= 24 * gw * gh,
                            0 <= (col as int) < gw,
                            0 <= (row as int) < gh,
                            0 <= (plane as int) < 3,
                            0 <= (bitidx as int),
                            gw >= 1,
                            gh >= 1,
                    ;
                    assert(bitidx == 8 ==> plane == 0 && row == 0 && col == 0) by (nonlinear_arith)
                        requires
                            (bitidx as int) * (3 * gw * gh) + (plane as int) * (gw * gh) + (
                            row as int) * gw + (col as int) == cur + 1,
                            cur + 1 <= 24 * gw * gh,
                            0 <= (col as int) < gw,
                            0 <= (row as int) < gh,
                            0 <= (plane as int) < 3,
                            0 <= (bitidx as int),
                            gw >= 1,
                            gh >= 1,
                    ;
                }
                j = j + 1;
            }
            proof {
                assert(bits_of_byte(byte).take(8) =~= bits_of_byte(byte));
                assert(data@ == write_byte_spec(data_i, gw, gh, gp, p0 + 8 * (i as int), byte));
                lemma_write_bytes_snoc(g0, gw, gh, gp, p0, bytes@.take(i as int), byte);
                assert(bytes@.take(i as int).push(byte) =~= bytes@.take(i + 1));
            }
            i = i + 1;
        }
        self.image = Some(data);
        self.row = row;
        self.col = col;
        self.plane = plane;
        self.bit = bitidx;
        m as u32
    }
}

} // verus!
