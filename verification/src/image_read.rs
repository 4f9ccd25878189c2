//! The cursor's read path: assembling payload bytes from the grid's bits,
//! one bit per colour sample, most significant bit first.

use vstd::prelude::*;

use crate::pixel::{
    bit_val, byte_at, byte_prefix_val, bytes_at, grid_wf, lemma_bit_val_bound,
    lemma_byte_prefix_val_bound, lemma_position_ranges, lemma_recompose, total_bits,
};
use crate::steg::Steganography;

verus! {

impl Steganography {
    /// Reads up to `bytes_to_read` payload bytes at the cursor, advancing
    /// it. Fewer bytes than asked for are read exactly when the cursor
    /// would walk off the grid; the caller sees that in `bytes_read`, which
    /// is its signal to stop trusting the stream. The bytes land in
    /// `code_bytes`.
    #[verifier::loop_isolation(false)]
    #[verifier::rlimit(100)]
    pub fn read_data_from_image(&mut self, bytes_to_read: u32)
        requires
            old(self).wf(),
        ensures
            final(self).wf(),
            final(self).only_cursor_changed(*old(self)),
            final(self).bytes_read as int == if bytes_to_read as int <= old(self).avail_bytes() {
                bytes_to_read as int
            } else {
                old(self).avail_bytes()
            },
            final(self).code_bytes@ == bytes_at(
                old(self).grid(),
                old(self).w(),
                old(self).h(),
                old(self).planes(),
                old(self).cursor_pos(),
                final(self).bytes_read as nat,
            ),
            final(self).cursor_pos() == old(self).cursor_pos() + 8 * final(self).bytes_read,
    {
        if self.image.is_none() {
            self.code_bytes = Vec::new();
            self.bytes_read = 0;
            proof {
                assert(self.code_bytes@ =~= bytes_at(
                    old(self).grid(),
                    old(self).w(),
                    old(self).h(),
                    old(self).planes(),
                    old(self).cursor_pos(),
                    0,
                ));
            }
            return;
        }
        let w = self.pic_width;
        let h = self.pic_height;
        let planes = self.pic_col_planes;
        let ghost gw = w as int;
        let ghost gh = h as int;
        let ghost gp = planes as int;
        proof {
            assert(24 * gw * gh <= u64::MAX);
            assert(gw * gh <= 24 * gw * gh) by (nonlinear_arith)
                requires gw >= 1, gh >= 1,
            ;
        }
        let wh: u64 = (w as u64) * (h as u64);
        proof {
            assert(24 * (wh as int) <= u64::MAX) by (nonlinear_arith)
                requires wh as int == gw * gh, 24 * gw * gh <= u64::MAX,
            ;
        }
        let total: u64 = 24 * wh;
        proof {
            assert(total as int == total_bits(gw, gh)) by (nonlinear_arith)
                requires total as int == 24 * (gw * gh),
            ;
        }
        proof {
            assert((self.row as int) * gw + (self.col as int) < gw * gh) by (nonlinear_arith)
                requires
                    (self.row as int) < gh,
                    (self.col as int) < gw,
                    gw >= 1,
                    gh >= 1,
            ;
        }
        let rowterm: u64 = (self.row as u64) * (w as u64) + (self.col as u64);
        proof {
            assert(self.bit == 8 ==> self.plane == 0 && self.row == 0 && self.col == 0);
            assert(self.bit == 8 ==> rowterm == 0);
        }
        proof {
            assert((self.bit as int) * 3 * (gw * gh) + (self.plane as int) * (gw * gh) + rowterm
                <= 24 * (gw * gh)) by (nonlinear_arith)
                requires
                    self.bit <= 8,
                    (self.plane as int) < 3,
                    rowterm < gw * gh || (self.bit == 8 && self.plane == 0 && rowterm == 0),
                    self.bit == 8 ==> self.plane == 0 && rowterm == 0,
                    gw * gh >= 1,
            ;
        }
        let pos: u64 = (self.bit as u64) * 3 * wh + (self.plane as u64) * wh + rowterm;
        proof {
            assert(pos as int == self.cursor_pos()) by (nonlinear_arith)
                requires
                    pos as int == (self.bit as int) * 3 * (gw * gh) + (self.plane as int) * (gw
                        * gh) + (self.row as int) * gw + (self.col as int),
                    self.cursor_pos() == (self.bit as int) * (3 * gw * gh) + (self.plane as int) * (
                    gw * gh) + (self.row as int) * gw + (self.col as int),
            ;
        }
        let remaining: u64 = total - pos;
        let avail: u64 = remaining / 8;
        proof {
            assert(avail as int == old(self).avail_bytes());
        }
        let m: u32 = if (bytes_to_read as u64) <= avail {
            bytes_to_read
        } else {
            avail as u32
        };
        proof {
            assert(8 * (avail as int) <= remaining as int);
        }
        let ghost g = self.grid();
        let ghost p0 = pos as int;
        let img = match self.image.as_ref() {
            Some(d) => d,
            None => {
                return;  // unreachable: the image was checked above
            },
        };
        let mut row: u32 = self.row;
        let mut col: u32 = self.col;
        let mut plane: usize = self.plane;
        let mut bitidx: u8 = self.bit;
        let mut out: Vec<u8> = Vec::new();
        let mut i: u32 = 0;
        while i < m
            invariant
                i <= m,
                out@ =~= bytes_at(g, gw, gh, gp, p0, i as nat),
                (bitidx as int) * (3 * gw * gh) + (plane as int) * (gw * gh) + (row as int) * gw + (
                col as int) == p0 + 8 * i,
                (row as int) < gh,
                (col as int) < gw,
                (plane as int) < 3,
                bitidx <= 8,
                bitidx == 8 ==> plane == 0 && row == 0 && col == 0,
            decreases m - i,
        {
            let mut acc: u8 = 0;
            let mut j: u8 = 0;
            while j < 8
                invariant
                    j <= 8,
                    i < m,
                    acc as int == byte_prefix_val(g, gw, gh, gp, p0 + 8 * (i as int), j as nat),
                    (bitidx as int) * (3 * gw * gh) + (plane as int) * (gw * gh) + (row as int) * gw
                        + (col as int) == p0 + 8 * i + j,
                    (row as int) < gh,
                    (col as int) < gw,
                    (plane as int) < 3,
                    bitidx <= 8,
                    bitidx == 8 ==> plane == 0 && row == 0 && col == 0,
                decreases 8 - j,
            {
                let ghost cur = p0 + 8 * (i as int) + (j as int);
                proof {
                    assert(cur < total_bits(gw, gh));
                    lemma_position_ranges(g, gw, gh, gp, cur);
                    lemma_recompose(gw, gh, bitidx as int, plane as int, row as int, col as int);
                    assert(crate::pixel::sample_of(gw, gh, gp, cur) == ((row as int) * gw + (
                    col as int)) * gp + (plane as int));
                    assert(crate::pixel::bit_index_of(gw, gh, cur) == bitidx as int);
                    assert(((row as int) * gw + (col as int)) * gp + (plane as int) < gw * gh * gp);
                }
                let n_samples: usize = img.len();
                proof {
                    assert(img@.len() == gw * gh * gp);
                    assert((row as int) * gw + (col as int) < gw * gh) by (nonlinear_arith)
                        requires 0 <= (row as int) < gh, 0 <= (col as int) < gw, gw >= 1, gh >= 1,
                    ;
                    assert(gw * gh <= gw * gh * gp) by (nonlinear_arith)
                        requires gw >= 1, gh >= 1, gp >= 3,
                    ;
                    assert(((row as int) * gw + (col as int)) * gp <= ((row as int) * gw + (
                    col as int)) * gp + (plane as int));
                }
                let idx: usize = ((row as usize) * (w as usize) + (col as usize)) * (
                planes as usize) + plane;
                let sample: u8 = img[idx];
                let bitv: u8 = (sample >> bitidx) & 1;
                proof {
                    assert(bitv == bit_val(g, gw, gh, gp, cur));
                    lemma_bit_val_bound(g, gw, gh, gp, cur);
                    lemma_byte_prefix_val_bound(g, gw, gh, gp, p0 + 8 * (i as int), j as nat);
                    vstd::arithmetic::power2::lemma2_to64();
                }
                acc = acc * 2 + bitv;
                // Advance the cursor: next column; at the row's end the next
                // row; at the image's end the next plane; after the last
                // plane the next bit of significance.
                let ghost pr: int = (row as int);
                let ghost pc: int = (col as int);
                let ghost pp: int = (plane as int);
                let ghost pb: int = (bitidx as int);
                col = col + 1;
                if col == w {
                    col = 0;
                    row = row + 1;
                    if row == h {
                        row = 0;
                        plane = plane + 1;
                        if plane == 3 {
                            plane = 0;
                            bitidx = bitidx + 1;
                        }
                    }
                }
                proof {
                    assert((bitidx as int) * (3 * gw * gh) + (plane as int) * (gw * gh) + (
                    row as int) * gw + (col as int) == cur + 1) by (nonlinear_arith)
                        requires
                            pb * (3 * gw * gh) + pp * (gw * gh) + pr * gw + pc == cur,
                            0 <= pc < gw,
                            0 <= pr < gh,
                            0 <= pp < 3,
                            0 <= pb,
                            gw >= 1,
                            gh >= 1,
                            (bitidx as int) == if pc + 1 == gw && pr + 1 == gh && pp + 1 == 3 {
                                pb + 1
                            } else {
                                pb
                            },
                            (plane as int) == if pc + 1 == gw && pr + 1 == gh {
                                if pp + 1 == 3 {
                                    0
                                } else {
                                    pp + 1
                                }
                            } else {
                                pp
                            },
                            (row as int) == if pc + 1 == gw {
                                if pr + 1 == gh {
                                    0
                                } else {
                                    pr + 1
                                }
                            } else {
                                pr
                            },
                            (col as int) == if pc + 1 == gw {
                                0
                            } else {
                                pc + 1
                            },
                    ;
                    assert(bitidx <= 8) by (nonlinear_arith)
                        requires
                            (bitidx as int) * (3 * gw * gh) + (plane as int) * (gw * gh) + (
                            row as int) * gw + (col as int) == cur + 1,
                            cur + 1 <= 24 * gw * gh,
                            0 <= (col as int) < gw,
                            0 <= (row as int) < gh,
                            0 <= (plane as int) < 3,
                            0 <= (bitidx as int),
                            gw >= 1,
                            gh >= 1,
                    ;
                    assert(bitidx == 8 ==> plane == 0 && row == 0 && col == 0) by (nonlinear_arith)
                        requires
                            (bitidx as int) * (3 * gw * gh) + (plane as int) * (gw * gh) + (
                            row as int) * gw + (col as int) == cur + 1,
                            cur + 1 <= 24 * gw * gh,
                            0 <= (col as int) < gw,
                            0 <= (row as int) < gh,
                            0 <= (plane as int) < 3,
                            0 <= (bitidx as int),
                            gw >= 1,
                            gh >= 1,
                    ;
                }
                j = j + 1;
            }
            proof {
                lemma_byte_prefix_val_bound(g, gw, gh, gp, p0 + 8 * (i as int), 8);
                vstd::arithmetic::power2::lemma2_to64();
                assert(acc == byte_at(g, gw, gh, gp, p0 + 8 * (i as int)));
            }
            out.push(acc);
            i = i + 1;
            proof {
                assert(out@ =~= bytes_at(g, gw, gh, gp, p0, i as nat));
            }
        }
        self.row = row;
        self.col = col;
        self.plane = plane;
        self.bit = bitidx;
        self.bytes_read = m;
        self.code_bytes = out;
    }
}

} // verus!
