//! The evaluation network: king-bucketed inputs, a 256-wide accumulator
//! per side, two hidden layers and one output, all in 16-bit fixed point.
use vstd::prelude::*;
use crate::board::{Board, BoardView, back_pieces, cap_square, king_home, made, move_ok, moved_pieces, promoted_pieces, restored_pieces, undo_of, unmade, unpromoted_pieces};
use crate::consts::MAX_PLY;
use crate::engine::{Accumulators, Engine, acc_slot};
use crate::evaluation::sum_to;
use crate::items::{Color, Move, MoveFlag, Piece, Undo, is_piece, piece_index};
use crate::movegen::{find_from, king_square};

verus! {

/// Input features: eight king buckets of twelve pieces on 64 squares.
pub const INPUT: usize = 6144;
/// Width of each side's accumulator.
pub const HL1: usize = 256;
/// Width of the second layer.
pub const HL2: usize = 16;
/// Width of the third layer.
pub const HL3: usize = 32;
/// Outputs.
pub const OUTPUT: usize = 1;
/// Fixed-point shift: values are scaled by 2^QP.
pub const QP: i32 = 8;

/// The king bucket of each square.
pub const KING_BUCKETS: [usize; 64] = [
    0, 0, 1, 1, 1, 1, 0, 0,
    0, 0, 1, 1, 1, 1, 0, 0,
    2, 2, 3, 3, 3, 3, 2, 2,
    2, 2, 3, 3, 3, 3, 2, 2,
    4, 4, 5, 5, 5, 5, 4, 4,
    4, 4, 5, 5, 5, 5, 4, 4,
    6, 6, 7, 7, 7, 7, 6, 6,
    6, 6, 7, 7, 7, 7, 6, 6,
];

/// The file flip applied when the king is on the king side.
pub const MIRROR_MASK: [u8; 64] = [
    0, 0, 0, 0, 7, 7, 7, 7,
    0, 0, 0, 0, 7, 7, 7, 7,
    0, 0, 0, 0, 7, 7, 7, 7,
    0, 0, 0, 0, 7, 7, 7, 7,
    0, 0, 0, 0, 7, 7, 7, 7,
    0, 0, 0, 0, 7, 7, 7, 7,
    0, 0, 0, 0, 7, 7, 7, 7,
    0, 0, 0, 0, 7, 7, 7, 7,
];

/// The weights and biases of every layer.
pub struct Network {
    pub w1: Vec<i16>,
    pub b1: Vec<i16>,
    pub w2: Vec<i16>,
    pub b2: Vec<i16>,
    pub w3: Vec<i16>,
    pub b3: Vec<i16>,
    pub w4: Vec<i16>,
    pub b4: Vec<i16>,
}

impl Network {
    /// Every layer has the size the architecture gives it.
    pub open spec fn wf(&self) -> bool {
        &&& self.w1.len() == INPUT * HL1
        &&& self.b1.len() == HL1
        &&& self.w2.len() == HL1 * 2 * HL2
        &&& self.b2.len() == HL2
        &&& self.w3.len() == HL2 * HL3
        &&& self.b3.len() == HL3
        &&& self.w4.len() == HL3 * OUTPUT
        &&& self.b4.len() == OUTPUT
    }
}

/// Scratch space for one forward pass.
pub struct EvalBuf {
    pub fc1: [i16; 512],
    pub fc2: [i16; 16],
    pub fc3: [i16; 32],
    pub fc4: [i16; 1],
}

impl EvalBuf {
    /// All zero.
    pub fn new() -> (r: EvalBuf)
        ensures
            forall|i: int| 0 <= i < 512 ==> #[trigger] r.fc1[i] == 0,
            forall|i: int| 0 <= i < 16 ==> #[trigger] r.fc2[i] == 0,
            forall|i: int| 0 <= i < 32 ==> #[trigger] r.fc3[i] == 0,
            r.fc4[0] == 0,
    {
        EvalBuf { fc1: [0i16; 512], fc2: [0i16; 16], fc3: [0i16; 32], fc4: [0i16; 1] }
    }
}


/// The input feature of piece `p` (0 to 11) on `s` seen from White, whose
/// king stands on `k`: the king's bucket, the piece, and the square
/// mirrored across the board when the king is on the king side.
pub open spec fn feat_w(p: int, s: int, k: int) -> int {
    KING_BUCKETS[k] as int * 768 + p * 64 + ((s as usize) ^ (MIRROR_MASK[k] as usize)) as int
}

/// The same feature seen from Black, whose king stands on `k`: the board
/// flipped top to bottom and the colours swapped.
pub open spec fn feat_b(p: int, s: int, k: int) -> int {
    let kf = ((k as usize) ^ 56usize) as int;
    KING_BUCKETS[kf] as int * 768 + ((p + 6) % 12) * 64 + (((s as usize) ^ 56usize) ^ (MIRROR_MASK[kf] as usize)) as int
}

proof fn lemma_xor_small(s: usize, m: usize)
    requires
        s < 64,
        m < 64,
    ensures
        (s ^ m) < 64,
        (s ^ 56usize) < 64,
{
    assert(s < 64 && m < 64 ==> (s ^ m) < 64) by (bit_vector);
    assert(s < 64 ==> (s ^ 56usize) < 64) by (bit_vector);
}

proof fn lemma_tables()
    ensures
        forall|k: int| 0 <= k < 64 ==> #[trigger] KING_BUCKETS[k] < 8,
        forall|k: int| 0 <= k < 64 ==> #[trigger] MIRROR_MASK[k] <= 7,
{
}

impl Network {
    /// White's feature index of piece `piece_idx` on `sq`, king on `wk_sq`.
    pub fn feature_w(piece_idx: usize, sq: usize, wk_sq: usize) -> (r: usize)
        requires
            piece_idx < 12,
            sq < 64,
            wk_sq < 64,
        ensures
            r == feat_w(piece_idx as int, sq as int, wk_sq as int),
            r < INPUT,
    {
        proof {
            lemma_tables();
            lemma_xor_small(sq, MIRROR_MASK[wk_sq as int] as usize);
        }
        let wb = KING_BUCKETS[wk_sq];
        let w_mask = MIRROR_MASK[wk_sq] as usize;
        wb * 768 + piece_idx * 64 + (sq ^ w_mask)
    }

    /// Black's feature index of piece `piece_idx` on `sq`, king on `bk_sq`.
    pub fn feature_b(piece_idx: usize, sq: usize, bk_sq: usize) -> (r: usize)
        requires
            piece_idx < 12,
            sq < 64,
            bk_sq < 64,
        ensures
            r == feat_b(piece_idx as int, sq as int, bk_sq as int),
            r < INPUT,
    {
        proof {
            lemma_tables();
            lemma_xor_small(bk_sq, 0);
            lemma_xor_small(sq, 0);
        }
        let bk_sq_flip = bk_sq ^ 56;
        let bb_bucket = KING_BUCKETS[bk_sq_flip];
        let b_mask = MIRROR_MASK[bk_sq_flip] as usize;
        let b_idx = (piece_idx + 6) % 12;
        proof {
            lemma_xor_small(sq ^ 56usize, b_mask);
        }
        let b_sq = (sq ^ 56) ^ b_mask;
        bb_bucket * 768 + b_idx * 64 + b_sq
    }
}

/// The squared clipped ReLU of one value: clamped to 0..256, squared and
/// scaled back by 256.
pub open spec fn screlu_val(x: i16) -> i16 {
    let u: int = if x < 0 { 0 } else if x > 256 { 256 } else { x as int };
    (u * u / 256) as i16
}

/// `screlu_val` of every value.
pub open spec fn screlu_seq(s: Seq<i16>) -> Seq<i16> {
    Seq::new(s.len(), |i: int| screlu_val(s[i]))
}

/// The sum of `inp[i] * w[off + i]` for `i` below `n`, in wrapping 32-bit
/// arithmetic.
pub open spec fn dot(inp: Seq<i16>, w: Seq<i16>, off: int, n: int) -> i32
    decreases n,
{
    if n <= 0 {
        0
    } else {
        vstd::wrapping::i32_specs::wrapping_add(dot(inp, w, off, n - 1), (inp[n - 1] * w[off + n - 1]) as i32)
    }
}

/// One output of a dense layer: the bias plus the dot product of the
/// input with the neuron's weights (rounded and scaled back by 256 when
/// `quantize`), in wrapping 32-bit arithmetic, clamped to 16 bits.
pub open spec fn neuron(inp: Seq<i16>, w: Seq<i16>, b: Seq<i16>, n: int, quantize: bool) -> i16 {
    let d = dot(inp, w, n * inp.len(), inp.len() as int);
    let val: int = if quantize {
        b[n] + ((((d + 128) as i32) >> 8u32) as int)
    } else {
        (b[n] + d) as i32 as int
    };
    (if val < -32768 { -32768 } else if val > 32767 { 32767 } else { val }) as i16
}

/// A dense layer's outputs.
pub open spec fn layer_seq(inp: Seq<i16>, w: Seq<i16>, b: Seq<i16>, quantize: bool) -> Seq<i16> {
    Seq::new(b.len(), |n: int| neuron(inp, w, b, n, quantize))
}

impl Network {
    /// Applies `screlu_val` to every value of `layer`.
    pub fn screlu(layer: &mut [i16])
        ensures
            final(layer)@ == screlu_seq(old(layer)@),
    {
        let len = layer.len();
        let mut idx: usize = 0;
        while idx < len
            invariant
                idx <= len,
                len == layer@.len(),
                layer@.len() == old(layer)@.len(),
                forall|i: int| 0 <= i < idx ==> layer@[i] == screlu_val(old(layer)@[i]),
                forall|i: int| idx <= i < len ==> layer@[i] == old(layer)@[i],
            decreases len - idx,
        {
            let x = layer[idx];
            let u: i32 = if x < 0 {
                0
            } else if x > 256 {
                256
            } else {
                x as i32
            };
            assert(0 <= u * u <= 65536) by (nonlinear_arith)
                requires
                    0 <= u <= 256,
            ;
            let sq = u * u;
            let r = (sq >> 8u32) as i16;
            proof {
                assert(sq >> 8u32 == sq / 256) by (bit_vector)
                    requires
                        0 <= sq <= 65536,
                ;
            }
            layer[idx] = r;
            idx += 1;
        }
        assert(layer@ =~= screlu_seq(old(layer)@));
    }

    /// A dense layer: output `n` of `out_layer`, for each bias `n`, is
    /// `neuron(inp_layer, weight, bias, n, to_quantize)`; the rest of
    /// `out_layer` is left alone.
    pub fn process_layer(inp_layer: &[i16], out_layer: &mut [i16], weight: &[i16], bias: &[i16], to_quantize: bool)
        requires
            old(out_layer)@.len() >= bias@.len(),
            bias@.len() * inp_layer@.len() <= weight@.len(),
        ensures
            final(out_layer)@.len() == old(out_layer)@.len(),
            forall|n: int| 0 <= n < bias@.len() ==> final(out_layer)@[n] == neuron(inp_layer@, weight@, bias@, n, to_quantize),
            forall|n: int| bias@.len() <= n < old(out_layer)@.len() ==> final(out_layer)@[n] == old(out_layer)@[n],
    {
        let input_len = inp_layer.len();
        let out_len = bias.len();
        let wl = weight.len();
        let mut neuron_idx: usize = 0;
        while neuron_idx < out_len
            invariant
                wl == weight@.len(),
                neuron_idx <= out_len,
                out_len == bias@.len(),
                input_len == inp_layer@.len(),
                out_len * input_len <= weight@.len(),
                out_layer@.len() == old(out_layer)@.len(),
                old(out_layer)@.len() >= out_len,
                forall|n: int| 0 <= n < neuron_idx ==> out_layer@[n] == neuron(inp_layer@, weight@, bias@, n, to_quantize),
                forall|n: int| out_len <= n < old(out_layer)@.len() ==> out_layer@[n] == old(out_layer)@[n],
            decreases out_len - neuron_idx,
        {
            proof {
                assert(neuron_idx * input_len + input_len <= out_len * input_len) by (nonlinear_arith)
                    requires
                        neuron_idx < out_len,
                ;
            }
            let w_offset = neuron_idx * input_len;
            let mut d: i32 = 0;
            let mut i: usize = 0;
            while i < input_len
                invariant
                    i <= input_len,
                    input_len == inp_layer@.len(),
                    wl == weight@.len(),
                    w_offset + input_len <= weight@.len(),
                    d == dot(inp_layer@, weight@, w_offset as int, i as int),
                decreases input_len - i,
            {
                let a = inp_layer[i] as i32;
                let b = weight[w_offset + i] as i32;
                assert(-0x4000_0000 <= a * b <= 0x4000_0000) by (nonlinear_arith)
                    requires
                        -32768 <= a <= 32767,
                        -32768 <= b <= 32767,
                ;
                d = d.wrapping_add(a * b);
                i += 1;
            }
            let bv = bias[neuron_idx] as i32;
            let val: i32 = if to_quantize {
                let rounded = (d as i64 + 128) as i32;
                let shifted = rounded >> 8u32;
                proof {
                    assert(-0x80_0000 <= shifted <= 0x7F_FFFF) by (bit_vector)
                        requires
                            shifted == rounded >> 8u32,
                    ;
                }
                bv + shifted
            } else {
                (bv as i64 + d as i64) as i32
            };
            let clamped: i16 = if val < -32768 {
                -32768
            } else if val > 32767 {
                32767
            } else {
                val as i16
            };
            assert(w_offset == neuron_idx * inp_layer@.len());
            out_layer[neuron_idx] = clamped;
            neuron_idx += 1;
        }
    }

    /// Adds (or, with `remove`, subtracts) the first-layer weights of
    /// feature `feat` to the accumulator, wrapping at 16 bits.
    pub fn apply_single_update(acc: &mut [i16; 256], w: &[i16], feat: usize, remove: bool)
        requires
            feat * 256 + 256 <= w@.len(),
        ensures
            forall|i: int| 0 <= i < 256 ==> #[trigger] final(acc)[i] == (if remove {
                old(acc)[i] - w@[feat * 256 + i]
            } else {
                old(acc)[i] + w@[feat * 256 + i]
            }) as i16,
    {
        let wl = w.len();
        let offset = feat * 256;
        let mut i: usize = 0;
        while i < 256
            invariant
                i <= 256,
                offset == feat * 256,
                wl == w@.len(),
                offset + 256 <= w@.len(),
                forall|j: int| 0 <= j < i ==> #[trigger] acc[j] == (if remove {
                    old(acc)[j] - w@[feat * 256 + j]
                } else {
                    old(acc)[j] + w@[feat * 256 + j]
                }) as i16,
                forall|j: int| i <= j < 256 ==> #[trigger] acc[j] == old(acc)[j],
            decreases 256 - i,
        {
            let a = acc[i] as i32;
            let b = w[offset + i] as i32;
            let r = if remove {
                (a - b) as i16
            } else {
                (a + b) as i16
            };
            acc[i] = r;
            i += 1;
        }
    }
}


/// The feature of piece `p` on `s` for the side `white`, its king on `k`.
pub open spec fn feat(white: bool, p: int, s: int, k: int) -> int {
    if white {
        feat_w(p, s, k)
    } else {
        feat_b(p, s, k)
    }
}

/// What square `s` adds to accumulator value `i` of the side `white`.
pub open spec fn acc_term(w1: Seq<i16>, v: BoardView, k: int, white: bool, i: int) -> spec_fn(int) -> int {
    |s: int| if v.pieces[s] != 0 {
        w1[feat(white, piece_index(v.pieces[s]), s, k) * 256 + i] as int
    } else {
        0
    }
}

/// Accumulator value `i` of the side `white` with its king on `k`: the
/// bias plus the weights of every piece's feature, wrapping at 16 bits.
pub open spec fn acc_value(b1: Seq<i16>, w1: Seq<i16>, v: BoardView, k: int, white: bool, i: int) -> i16 {
    (b1[i] + sum_to(acc_term(w1, v, k, white, i), 64)) as i16
}

/// The network's output for the two accumulators `acc` (the side to
/// move's first): each layer squared-clipped and fed to the next.
pub open spec fn forward_spec(net: &Network, acc: Seq<i16>) -> i16 {
    let h1 = screlu_seq(acc);
    let h2 = screlu_seq(layer_seq(h1, net.w2@, net.b2@, true));
    let h3 = screlu_seq(layer_seq(h2, net.w3@, net.b3@, true));
    layer_seq(h3, net.w4@, net.b4@, true)[0]
}

/// Centipawns of a network output: scaled by 400 / 256, toward zero.
pub open spec fn output_cp(raw: i16) -> int {
    crate::engine::tdiv(raw * 400, 256)
}

impl Network {
    fn build_side(&self, board: &Board, king_sq: usize, white: bool) -> (r: [i16; 256])
        requires
            self.wf(),
            board.wf(),
            king_sq < 64,
        ensures
            forall|i: int| 0 <= i < 256 ==> #[trigger] r[i] == acc_value(self.b1@, self.w1@, board@, king_sq as int, white, i),
    {
        let ghost v = board@;
        proof {
            board.lemma_cells_pub();
        }
        let mut acc32 = [0i32; 256];
        let mut i: usize = 0;
        while i < 256
            invariant
                i <= 256,
                self.wf(),
                forall|j: int| 0 <= j < i ==> #[trigger] acc32[j] == self.b1@[j],
            decreases 256 - i,
        {
            acc32[i] = self.b1[i] as i32;
            i += 1;
        }
        let mut s: usize = 0;
        while s < 64
            invariant
                s <= 64,
                self.wf(),
                board.wf(),
                v == board@,
                king_sq < 64,
                forall|x: int| 0 <= x < 64 ==> #[trigger] crate::board::cell_ok(v.pieces[x]),
                forall|j: int| 0 <= j < 256 ==> #[trigger] acc32[j] == self.b1@[j] + sum_to(acc_term(self.w1@, v, king_sq as int, white, j), s as int),
                forall|j: int| 0 <= j < 256 ==> -32768 * (s + 1) <= #[trigger] acc32[j] <= 32768 * (s + 1),
            decreases 64 - s,
        {
            let p = board.piece_on(s);
            if p != 0 {
                proof {
                    assert(crate::board::cell_ok(v.pieces[s as int]));
                    crate::board::lemma_piece_code(p);
                }
                let idx = Piece::to_idx(p);
                let f = if white {
                    Network::feature_w(idx, s, king_sq)
                } else {
                    Network::feature_b(idx, s, king_sq)
                };
                assert(f == feat(white, piece_index(p), s as int, king_sq as int));
                let off = f * 256;
                let mut i: usize = 0;
                while i < 256
                    invariant
                        i <= 256,
                        s < 64,
                        self.wf(),
                        off == f * 256,
                        f < INPUT,
                        p == v.pieces[s as int],
                        p != 0,
                        f == feat(white, piece_index(p), s as int, king_sq as int),
                        forall|j: int| 0 <= j < i ==> #[trigger] acc32[j] == self.b1@[j] + sum_to(acc_term(self.w1@, v, king_sq as int, white, j), s + 1),
                        forall|j: int| i <= j < 256 ==> #[trigger] acc32[j] == self.b1@[j] + sum_to(acc_term(self.w1@, v, king_sq as int, white, j), s as int),
                        forall|j: int| 0 <= j < i ==> -32768 * (s + 2) <= #[trigger] acc32[j] <= 32768 * (s + 2),
                        forall|j: int| i <= j < 256 ==> -32768 * (s + 1) <= #[trigger] acc32[j] <= 32768 * (s + 1),
                    decreases 256 - i,
                {
                    proof {
                        let t = acc_term(self.w1@, v, king_sq as int, white, i as int);
                        assert(sum_to(t, s + 1) == sum_to(t, s as int) + t(s as int));
                    }
                    acc32[i] = acc32[i] + self.w1[off + i] as i32;
                    i += 1;
                }
            } else {
                proof {
                    assert forall|j: int| 0 <= j < 256 implies #[trigger] acc32[j] == self.b1@[j] + sum_to(acc_term(self.w1@, v, king_sq as int, white, j), s + 1) by {
                        let t = acc_term(self.w1@, v, king_sq as int, white, j);
                        assert(sum_to(t, s + 1) == sum_to(t, s as int) + t(s as int));
                    }
                }
            }
            s += 1;
        }
        let mut r = [0i16; 256];
        let mut i: usize = 0;
        while i < 256
            invariant
                i <= 256,
                self.wf(),
                forall|j: int| 0 <= j < 256 ==> #[trigger] acc32[j] == self.b1@[j] + sum_to(acc_term(self.w1@, v, king_sq as int, white, j), 64),
                forall|j: int| 0 <= j < i ==> #[trigger] r[j] == acc_value(self.b1@, self.w1@, v, king_sq as int, white, j),
            decreases 256 - i,
        {
            r[i] = acc32[i] as i16;
            i += 1;
        }
        r
    }

    /// White's accumulator with its king on `wk_sq` (`acc_value`).
    pub fn build_acc_white(&self, board: &Board, wk_sq: usize) -> (r: [i16; 256])
        requires
            self.wf(),
            board.wf(),
            wk_sq < 64,
        ensures
            forall|i: int| 0 <= i < 256 ==> #[trigger] r[i] == acc_value(self.b1@, self.w1@, board@, wk_sq as int, true, i),
    {
        self.build_side(board, wk_sq, true)
    }

    /// Black's accumulator with its king on `bk_sq` (`acc_value`).
    pub fn build_acc_black(&self, board: &Board, bk_sq: usize) -> (r: [i16; 256])
        requires
            self.wf(),
            board.wf(),
            bk_sq < 64,
        ensures
            forall|i: int| 0 <= i < 256 ==> #[trigger] r[i] == acc_value(self.b1@, self.w1@, board@, bk_sq as int, false, i),
    {
        self.build_side(board, bk_sq, false)
    }

    /// Both accumulators, White's then Black's, each from its own king.
    pub fn build_acc(&self, board: &Board) -> (r: [[i16; 256]; 2])
        requires
            self.wf(),
            board.wf(),
            king_square(board@, 8) < 64,
            king_square(board@, 16) < 64,
        ensures
            forall|i: int| 0 <= i < 256 ==> #[trigger] r[0][i] == acc_value(self.b1@, self.w1@, board@, king_square(board@, 8), true, i),
            forall|i: int| 0 <= i < 256 ==> #[trigger] r[1][i] == acc_value(self.b1@, self.w1@, board@, king_square(board@, 16), false, i),
    {
        proof {
            crate::movegen::lemma_find_found_pub(board@.pieces, 14u8, 0);
            crate::movegen::lemma_find_found_pub(board@.pieces, 22u8, 0);
        }
        let wk_sq = match board.lowest_square(14) {
            Some(sq) => sq,
            None => 0,
        };
        let bk_sq = match board.lowest_square(22) {
            Some(sq) => sq,
            None => 0,
        };
        let w = self.build_acc_white(board, wk_sq);
        let b = self.build_acc_black(board, bk_sq);
        [w, b]
    }

    /// The network's output for `acc`, the two accumulators with the
    /// side to move's first (`forward_spec`), computed in `buf`.
    pub fn forward(&self, buf: &mut EvalBuf, acc: &[i16]) -> (r: i16)
        requires
            self.wf(),
            acc@.len() == 512,
        ensures
            r == forward_spec(self, acc@),
    {
        let mut i: usize = 0;
        while i < 512
            invariant
                i <= 512,
                acc@.len() == 512,
                forall|j: int| 0 <= j < i ==> #[trigger] buf.fc1[j] == acc@[j],
            decreases 512 - i,
        {
            buf.fc1[i] = acc[i];
            i += 1;
        }
        assert(buf.fc1@ =~= acc@);
        Network::screlu(&mut buf.fc1);
        Network::process_layer(&buf.fc1, &mut buf.fc2, &self.w2, &self.b2, true);
        assert(buf.fc2@ =~= layer_seq(screlu_seq(acc@), self.w2@, self.b2@, true));
        Network::screlu(&mut buf.fc2);
        Network::process_layer(&buf.fc2, &mut buf.fc3, &self.w3, &self.b3, true);
        assert(buf.fc3@ =~= layer_seq(buf.fc2@, self.w3@, self.b3@, true));
        Network::screlu(&mut buf.fc3);
        Network::process_layer(&buf.fc3, &mut buf.fc4, &self.w4, &self.b4, true);
        buf.fc4[0]
    }

    /// The network's evaluation of `acc` in centipawns (`output_cp`).
    pub fn eval_with_acc(&self, buf: &mut EvalBuf, acc: &[i16]) -> (r: i32)
        requires
            self.wf(),
            acc@.len() == 512,
        ensures
            r == output_cp(forward_spec(self, acc@)),
    {
        let raw = self.forward(buf, acc);
        (raw as i32 * 400) / 256
    }
}


/// The two accumulators of a position as the network reads them: the
/// side to move's first, each built from its own king.
pub open spec fn board_input(net: &Network, v: BoardView, wk: int, bk: int) -> Seq<i16> {
    let w = Seq::new(256, |i: int| acc_value(net.b1@, net.w1@, v, wk, true, i));
    let b = Seq::new(256, |i: int| acc_value(net.b1@, net.w1@, v, bk, false, i));
    if v.side == Color::White {
        w + b
    } else {
        b + w
    }
}

/// The 16-bit value of two little-endian bytes.
pub open spec fn le_i16(lo: u8, hi: u8) -> i16 {
    (lo + hi * 256) as i16
}

/// `n` values read from `data` at `start`, two little-endian bytes each.
pub open spec fn read_values(data: Seq<u8>, start: int, n: int) -> Seq<i16> {
    Seq::new(n as nat, |i: int| le_i16(data[start + 2 * i], data[start + 2 * i + 1]))
}

/// The file header of a network.
pub open spec fn magic() -> Seq<u8> {
    seq![66u8, 76u8, 65u8, 90u8, 69u8, 95u8, 86u8, 35u8]
}

/// Bytes of a network file: the header and the eight layers.
pub const NET_BYTES: usize = 3_163_818;

/// The offsets of the eight layers in a network file.
pub open spec fn layer_start(l: int) -> int {
    if l == 0 {
        8int
    } else if l == 1 {
        3145736int
    } else if l == 2 {
        3146248int
    } else if l == 3 {
        3162632int
    } else if l == 4 {
        3162664int
    } else if l == 5 {
        3163688int
    } else if l == 6 {
        3163752int
    } else {
        3163816int
    }
}

impl Network {
    /// The network's evaluation of a position in centipawns, from the
    /// side to move's point of view; a missing king counts as on a1.
    pub fn evaluate(&self, board: &Board) -> (r: i32)
        requires
            self.wf(),
            board.wf(),
        ensures
            r == output_cp(forward_spec(self, board_input(
                self,
                board@,
                if king_square(board@, 8) < 64 { king_square(board@, 8) } else { 0 },
                if king_square(board@, 16) < 64 { king_square(board@, 16) } else { 0 },
            ))),
    {
        proof {
            crate::movegen::lemma_find_found_pub(board@.pieces, 14u8, 0);
            crate::movegen::lemma_find_found_pub(board@.pieces, 22u8, 0);
        }
        let wk_sq = match board.lowest_square(14) {
            Some(sq) => sq,
            None => 0,
        };
        let bk_sq = match board.lowest_square(22) {
            Some(sq) => sq,
            None => 0,
        };
        let w = self.build_acc_white(board, wk_sq);
        let b = self.build_acc_black(board, bk_sq);
        let white = board.side_to_move() == Color::White;
        let mut input: Vec<i16> = Vec::new();
        let mut half: usize = 0;
        while half < 2
            invariant
                half <= 2,
                input@.len() == half * 256,
                forall|j: int| 0 <= j < half * 256 ==> #[trigger] input@[j] == (if (j < 256) == white { w[j % 256] } else { b[j % 256] }),
            decreases 2 - half,
        {
            let mut i: usize = 0;
            while i < 256
                invariant
                    i <= 256,
                    half < 2,
                    input@.len() == half * 256 + i,
                    forall|j: int| 0 <= j < half * 256 + i ==> #[trigger] input@[j] == (if (j < 256) == white { w[j % 256] } else { b[j % 256] }),
                decreases 256 - i,
            {
                let x = if (half == 0) == white {
                    w[i]
                } else {
                    b[i]
                };
                input.push(x);
                i += 1;
            }
            half += 1;
        }
        let ghost wk = if king_square(board@, 8) < 64 { king_square(board@, 8) } else { 0 };
        let ghost bk = if king_square(board@, 16) < 64 { king_square(board@, 16) } else { 0 };
        assert(input@ =~= board_input(self, board@, wk, bk));
        let mut buf = EvalBuf::new();
        self.eval_with_acc(&mut buf, input.as_slice())
    }

    /// The weights of a layer stored input-major, rewritten output-major:
    /// entry `o * input_len + i` of the result is entry
    /// `i * output_len + o` of `weights`.
    pub fn transpose_weights(weights: &[i16], input_len: usize, output_len: usize) -> (r: Vec<i16>)
        requires
            input_len * output_len <= weights@.len(),
        ensures
            r@.len() == input_len * output_len,
            forall|o: int, i: int| 0 <= o < output_len && 0 <= i < input_len ==> #[trigger] r@[o * input_len + i]
                == weights@[i * output_len + o],
    {
        let wl = weights.len();
        let mut r: Vec<i16> = Vec::new();
        let mut o: usize = 0;
        while o < output_len
            invariant
                o <= output_len,
                wl == weights@.len(),
                input_len * output_len <= wl,
                r@.len() == o * input_len,
                forall|a: int, b: int| 0 <= a < o && 0 <= b < input_len ==> #[trigger] r@[a * input_len + b]
                    == weights@[b * output_len + a],
            decreases output_len - o,
        {
            let mut i: usize = 0;
            while i < input_len
                invariant
                    i <= input_len,
                    o < output_len,
                    wl == weights@.len(),
                    input_len * output_len <= wl,
                    r@.len() == o * input_len + i,
                    forall|a: int, b: int| 0 <= a < o && 0 <= b < input_len ==> #[trigger] r@[a * input_len + b]
                        == weights@[b * output_len + a],
                    forall|b: int| 0 <= b < i ==> #[trigger] r@[o * input_len + b] == weights@[b * output_len + o],
                decreases input_len - i,
            {
                assert(i * output_len + o < input_len * output_len) by (nonlinear_arith)
                    requires
                        i < input_len,
                        o < output_len,
                ;
                r.push(weights[i * output_len + o]);
                proof {
                    assert forall|a: int, b: int| 0 <= a < o && 0 <= b < input_len implies #[trigger] r@[a * input_len + b]
                        == weights@[b * output_len + a] by {
                        assert(a * input_len + b < o * input_len) by (nonlinear_arith)
                            requires
                                0 <= a < o,
                                0 <= b < input_len,
                        ;
                    }
                }
                i += 1;
            }
            proof {
                assert((o + 1) * input_len == o * input_len + input_len) by (nonlinear_arith);
                assert forall|a: int, b: int| 0 <= a < o + 1 && 0 <= b < input_len implies #[trigger] r@[a * input_len + b]
                    == weights@[b * output_len + a] by {
                    if a == o {
                    }
                }
            }
            o += 1;
        }
        assert(output_len * input_len == input_len * output_len) by (nonlinear_arith);
        r
    }
}

/// `n` values from `data` at `start`, two little-endian bytes each.
fn read_i16s(data: &[u8], start: usize, n: usize) -> (r: Vec<i16>)
    requires
        start + 2 * n <= data@.len(),
    ensures
        r@ == read_values(data@, start as int, n as int),
{
    let dl = data.len();
    let mut r: Vec<i16> = Vec::new();
    let mut i: usize = 0;
    while i < n
        invariant
            i <= n,
            dl == data@.len(),
            start + 2 * n <= data@.len(),
            r@.len() == i,
            forall|j: int| 0 <= j < i ==> #[trigger] r@[j] == le_i16(data@[start + 2 * j], data@[start + 2 * j + 1]),
        decreases n - i,
    {
        let lo = data[start + 2 * i];
        let hi = data[start + 2 * i + 1];
        r.push((lo as i32 + hi as i32 * 256) as i16);
        i += 1;
    }
    assert(r@ =~= read_values(data@, start as int, n as int));
    r
}

impl Network {
    /// Whether `data` starts with the network header and is long enough
    /// to hold every layer.
    pub fn header_ok(data: &[u8]) -> (r: bool)
        ensures
            r == (data@.len() >= NET_BYTES && data@.subrange(0, 8) == magic()),
    {
        if data.len() < NET_BYTES {
            return false;
        }
        let expected: [u8; 8] = [66, 76, 65, 90, 69, 95, 86, 35];
        let mut i: usize = 0;
        while i < 8
            invariant
                i <= 8,
                data@.len() >= NET_BYTES,
                forall|j: int| 0 <= j < 8 ==> #[trigger] expected[j] == magic()[j],
                forall|j: int| 0 <= j < i ==> data@[j] == magic()[j],
            decreases 8 - i,
        {
            if data[i] != expected[i] {
                assert(data@.subrange(0, 8)[i as int] != magic()[i as int]);
                return false;
            }
            i += 1;
        }
        assert(data@.subrange(0, 8) =~= magic());
        true
    }

    /// Reads a network: after the header, the eight layers in order, each
    /// value two little-endian bytes.
    pub fn load(data: &[u8]) -> (r: Network)
        requires
            data@.len() >= NET_BYTES,
            data@.subrange(0, 8) == magic(),
        ensures
            r.wf(),
            r.w1@ == read_values(data@, layer_start(0), INPUT * HL1),
            r.b1@ == read_values(data@, layer_start(1), HL1 as int),
            r.w2@ == read_values(data@, layer_start(2), HL1 * 2 * HL2),
            r.b2@ == read_values(data@, layer_start(3), HL2 as int),
            r.w3@ == read_values(data@, layer_start(4), HL2 * HL3),
            r.b3@ == read_values(data@, layer_start(5), HL3 as int),
            r.w4@ == read_values(data@, layer_start(6), HL3 * OUTPUT),
            r.b4@ == read_values(data@, layer_start(7), OUTPUT as int),
    {
        let w1 = read_i16s(data, 8, INPUT * HL1);
        let b1 = read_i16s(data, 3145736, HL1);
        let w2 = read_i16s(data, 3146248, HL1 * 2 * HL2);
        let b2 = read_i16s(data, 3162632, HL2);
        let w3 = read_i16s(data, 3162664, HL2 * HL3);
        let b3 = read_i16s(data, 3163688, HL3);
        let w4 = read_i16s(data, 3163752, HL3 * OUTPUT);
        let b4 = read_i16s(data, 3163816, OUTPUT);
        Network { w1, b1, w2, b2, w3, b3, w4, b4 }
    }
}


/// `after` is the position `mv` leads to from the one it came from
/// (read back through `undo`), played as `make_move` plays it.
pub open spec fn played(after: BoardView, mv: Move, undo: Undo) -> bool {
    let prev = unmade(after, mv, undo);
    &&& move_ok(prev, mv)
    &&& after == made(prev, mv)
    &&& undo == undo_of(prev, mv)
}

/// The accumulators at `ply` of `table` are those of `v`: each side's
/// built from its own king (`acc_value`).
pub open spec fn acc_exact(table: Seq<i16>, ply: int, net: &Network, v: BoardView) -> bool {
    forall|i: int| 0 <= i < 256 ==> {
        &&& #[trigger] table[acc_slot(ply, 0, i)] == acc_value(net.b1@, net.w1@, v, king_square(v, 8), true, i)
        &&& table[acc_slot(ply, 1, i)] == acc_value(net.b1@, net.w1@, v, king_square(v, 16), false, i)
    }
}

impl Accumulators {
    /// Builds the accumulators of `board` at ply 0.
    pub fn setup(&mut self, net: &Network, board: &Board)
        requires
            old(self).wf(),
            net.wf(),
            board.wf(),
            king_square(board@, 8) < 64,
            king_square(board@, 16) < 64,
        ensures
            final(self).wf(),
            acc_exact(final(self).table@, 0, net, board@),
    {
        let rebuild = net.build_acc(board);
        self.set(0, &rebuild);
    }
}

impl Engine {
    /// Brings the accumulators of `ply + 1` up to date after `mv` was
    /// played from `ply` (the board already shows it): copies those of
    /// `ply`, adds the features that appeared and removes those that went,
    /// or rebuilds a side whose king changed bucket or castled. Nothing is
    /// done without a network. When the accumulators of `ply` were those of
    /// the position before the move (`acc_exact`), those of `ply + 1` are
    /// those of the position after it: the incremental update agrees with a
    /// rebuild.
    pub fn update_nnue(&mut self, mv: &Move, undo: &Undo, ply: usize)
        requires
            old(self).wf(),
            ply + 1 < MAX_PLY,
            king_square(old(self).board@, 8) < 64,
            king_square(old(self).board@, 16) < 64,
            played(old(self).board@, *mv, *undo),
        ensures
            final(self).wf(),
            *final(self) == (Engine { accumulators: final(self).accumulators, ..*old(self) }),
            forall|j: int| 0 <= j < MAX_PLY * 512 && !((ply + 1) * 512 <= j < (ply + 1) * 512 + 512) ==> #[trigger] final(self).accumulators.table@[j]
                == old(self).accumulators.table@[j],
            old(self).network matches Some(net) ==> (nnue_move_ok(unmade(old(self).board@, *mv, *undo), *mv) && acc_exact(
                old(self).accumulators.table@,
                ply as int,
                &net,
                unmade(old(self).board@, *mv, *undo),
            ) ==> acc_exact(final(self).accumulators.table@, ply + 1, &net, old(self).board@)),
    {
        let ghost after = self.board@;
        let ghost prev = unmade(after, *mv, *undo);
        let nn = match &self.network {
            None => {
                return;
            },
            Some(n) => n,
        };
        proof {
            self.board.lemma_cells_pub();
            crate::items::lemma_move_bounds(*mv);
            crate::movegen::lemma_find_found_pub(after.pieces, 14u8, 0);
            crate::movegen::lemma_find_found_pub(after.pieces, 22u8, 0);
            lemma_after_move(after, *mv, *undo);
        }
        let acc = self.accumulators.get(ply);
        let mut aw = acc[0];
        let mut ab = acc[1];
        let from = mv.from();
        let to = mv.to();
        let flag = mv.flag();
        let moved_piece = self.board.piece_on(to);
        let pt = Piece::get_type(moved_piece);
        let side = Piece::get_color(moved_piece);
        let w_king = match self.board.lowest_square(14) {
            Some(sq) => sq,
            None => 0,
        };
        let b_king = match self.board.lowest_square(22) {
            Some(sq) => sq,
            None => 0,
        };
        let mut do_full_w = false;
        let mut do_full_b = false;
        if pt == 6 {
            let is_castle = from + 2 == to || to + 2 == from;
            if is_castle {
                do_full_w = true;
                do_full_b = true;
            } else if side == 8 {
                if KING_BUCKETS[from] != KING_BUCKETS[to] || MIRROR_MASK[from] != MIRROR_MASK[to] {
                    do_full_w = true;
                }
            } else {
                proof {
                    lemma_xor_small(from, 0);
                    lemma_xor_small(to, 0);
                }
                let o = from ^ 56;
                let n = to ^ 56;
                if KING_BUCKETS[o] != KING_BUCKETS[n] || MIRROR_MASK[o] != MIRROR_MASK[n] {
                    do_full_b = true;
                }
            }
        }
        proof {
            crate::board::lemma_piece_code(moved_piece);
        }
        let piece_idx = Piece::to_idx(moved_piece);
        let removed_idx = if flag.is_promo() {
            proof {
                crate::board::lemma_piece_code((1u8 | side) as u8);
            }
            Piece::to_idx(1 | side)
        } else {
            piece_idx
        };
        let w_removed = Network::feature_w(removed_idx, from, w_king);
        let b_removed = Network::feature_b(removed_idx, from, b_king);
        let w_added = Network::feature_w(piece_idx, to, w_king);
        let b_added = Network::feature_b(piece_idx, to, b_king);
        let is_capture = flag.is_capture();
        let mut w_cap: Option<usize> = None;
        let mut b_cap: Option<usize> = None;
        let mut cap_sq: usize = 0;
        if is_capture {
            cap_sq = if flag.0 == MoveFlag::EN_PASSANT {
                if side == 8 {
                    to - 8
                } else {
                    to + 8
                }
            } else {
                to
            };
            proof {
                crate::board::lemma_piece_code(undo.captured);
            }
            let cap_idx = Piece::to_idx(undo.captured);
            w_cap = Some(Network::feature_w(cap_idx, cap_sq, w_king));
            b_cap = Some(Network::feature_b(cap_idx, cap_sq, b_king));
        }
        let ghost aw0 = aw;
        let ghost ab0 = ab;
        if do_full_w {
            aw = nn.build_acc_white(&self.board, w_king);
        } else {
            aw = incremental(nn.w1.as_slice(), aw, w_added, w_removed, w_cap);
        }
        if do_full_b {
            ab = nn.build_acc_black(&self.board, b_king);
        } else {
            ab = incremental(nn.w1.as_slice(), ab, b_added, b_removed, b_cap);
        }
        proof {
            if nnue_move_ok(prev, *mv) && acc_exact(self.accumulators.table@, ply as int, nn, prev) {
                lemma_update_facts(prev, *mv, *undo, moved_piece, removed_idx as int, piece_idx as int, side);
                let f = mv.spec_flag();
                if f & 14u8 == 2 {
                    assert(do_full_w && do_full_b);
                }
                if !do_full_w {
                    lemma_king_track(prev, *mv, 8);
                    let kp = king_square(prev, 8);
                    if prev.pieces[from as int] == 14 {
                        assert(pt == 6 && side == 8);
                        assert forall|q: int, t: int| #[trigger] feat(true, q, t, kp) == feat(true, q, t, w_king as int) by {}
                    } else {
                        assert(kp == w_king);
                    }
                    assert forall|i: int| 0 <= i < 256 implies #[trigger] aw0[i] == acc_value(nn.b1@, nn.w1@, prev, kp, true, i) by {
                        assert(aw0[i] == self.accumulators.table@[acc_slot(ply as int, 0, i)]);
                    }
                    if is_capture {
                        assert(cap_sq == cap_square(prev, *mv));
                    }
                    lemma_side_exact(nn, prev, *mv, true, kp, w_king as int, aw0, aw, w_added as int, w_removed as int, w_cap);
                }
                if !do_full_b {
                    lemma_king_track(prev, *mv, 16);
                    let kp = king_square(prev, 16);
                    if prev.pieces[from as int] == 22 {
                        assert(pt == 6 && side == 16);
                        assert forall|q: int, t: int| #[trigger] feat(false, q, t, kp) == feat(false, q, t, b_king as int) by {}
                    } else {
                        assert(kp == b_king);
                    }
                    assert forall|i: int| 0 <= i < 256 implies #[trigger] ab0[i] == acc_value(nn.b1@, nn.w1@, prev, kp, false, i) by {
                        assert(ab0[i] == self.accumulators.table@[acc_slot(ply as int, 1, i)]);
                        assert(self.accumulators.table@[acc_slot(ply as int, 0, i)] == acc_value(
                            nn.b1@,
                            nn.w1@,
                            prev,
                            king_square(prev, 8),
                            true,
                            i,
                        ));
                    }
                    if is_capture {
                        assert(cap_sq == cap_square(prev, *mv));
                    }
                    lemma_side_exact(nn, prev, *mv, false, kp, b_king as int, ab0, ab, b_added as int, b_removed as int, b_cap);
                }
            }
        }
        self.accumulators.set(ply + 1, &[aw, ab]);
    }

    /// After a null move the accumulators of `ply + 1` are those of `ply`.
    pub fn update_nnue_null_move(&mut self, ply: usize)
        requires
            old(self).wf(),
            ply + 1 < MAX_PLY,
        ensures
            final(self).wf(),
            *final(self) == (Engine { accumulators: final(self).accumulators, ..*old(self) }),
            forall|c: int, i: int| 0 <= c < 2 && 0 <= i < 256 ==> #[trigger] final(self).accumulators.table@[acc_slot(ply + 1, c, i)]
                == old(self).accumulators.table@[acc_slot(ply as int, c, i)],
            forall|j: int| 0 <= j < MAX_PLY * 512 && !((ply + 1) * 512 <= j < (ply + 1) * 512 + 512) ==> #[trigger] final(self).accumulators.table@[j]
                == old(self).accumulators.table@[j],
    {
        let acc = self.accumulators.get(ply);
        self.accumulators.set(ply + 1, &acc);
    }
}

/// What a played move leaves where: the facts `update_nnue` reads.
proof fn lemma_after_move(after: BoardView, mv: Move, undo: Undo)
    requires
        played(after, mv, undo),
        after.pieces.len() == 64,
    ensures
        ({
            let prev = unmade(after, mv, undo);
            let to = mv.spec_to();
            let f = mv.spec_flag();
            let own: u8 = if prev.side == Color::White { 8 } else { 16 };
            &&& prev.pieces.len() == 64
            &&& is_piece(after.pieces[to])
            &&& after.pieces[to] & 24u8 == own
            &&& (after.pieces[to] & 24u8 == 8u8) == (prev.side == Color::White)
            &&& f & 8u8 != 0 ==> is_piece(undo.captured)
            &&& f == 10 ==> (own == 8 ==> to >= 8) && (own == 16 ==> to + 8 < 64)
            &&& f & 4u8 != 0 ==> is_piece((1u8 | own) as u8)
        }),
{
    let prev = unmade(after, mv, undo);
    crate::items::lemma_move_bounds(mv);
    assert(back_pieces(after, mv).len() == 64);
    assert(restored_pieces(after, mv, undo).len() == 64);
    assert(unpromoted_pieces(after, mv, undo).len() == 64);
    let from = mv.spec_from();
    let to = mv.spec_to();
    let f = mv.spec_flag();
    crate::items::lemma_castle_flags(f);
    if f == 2 {
        assert(to == 6 || to == 62);
    }
    if f == 3 {
        assert(to == 2 || to == 58);
    }
    assert(prev.pieces.len() == 64);
    crate::bits::lemma_byte_facts(f);
    let own: u8 = if prev.side == Color::White { 8 } else { 16 };
    let p = prev.pieces[from];
    crate::board::lemma_piece_code(p);
    let p2 = moved_pieces(prev, mv);
    let p3 = promoted_pieces(prev, mv);
    assert(p2[to] == p);
    if f & 4u8 != 0 {
        let q = (own + (f & 3u8) + 2) as u8;
        assert(p3[to] == q);
        lemma_promo_code(own, f & 3u8);
    } else {
        assert(p3[to] == p);
    }
    assert(after.pieces[to] == p3[to]);
    crate::board::lemma_piece_code(after.pieces[to]);
    if f & 8u8 != 0 {
        crate::board::lemma_piece_code(prev.pieces[cap_square(prev, mv)]);
    }
    crate::bits::lemma_code_bits(8, 0, 0, 0);
    crate::bits::lemma_code_bits(16, 0, 0, 0);
}

/// A promoted piece's code is a piece of the promoting colour.
proof fn lemma_promo_code(own: u8, t: u8)
    requires
        own == 8 || own == 16,
        t < 4,
    ensures
        is_piece((own + t + 2) as u8),
        ((own + t + 2) as u8) & 24u8 == own,
{
    let q = (own + t + 2) as u8;
    crate::bits::lemma_code_bits(own, t, q, 0);
}


/// Sums of functions that agree below `n` are equal.
pub proof fn lemma_sum_ext(f: spec_fn(int) -> int, g: spec_fn(int) -> int, n: int)
    requires
        forall|s: int| 0 <= s < n ==> #[trigger] f(s) == g(s),
    ensures
        sum_to(f, n) == sum_to(g, n),
    decreases n,
{
    if n > 0 {
        lemma_sum_ext(f, g, n - 1);
    }
}

/// Changing a function at one point changes its sum by the difference there.
pub proof fn lemma_sum_point(f: spec_fn(int) -> int, g: spec_fn(int) -> int, n: int, a: int)
    requires
        forall|s: int| 0 <= s < n && s != a ==> #[trigger] f(s) == g(s),
    ensures
        sum_to(g, n) == sum_to(f, n) + (if 0 <= a < n { g(a) - f(a) } else { 0 }),
    decreases n,
{
    if n > 0 {
        lemma_sum_point(f, g, n - 1, a);
    }
}

/// Adding to a 16-bit wrapped value wraps like adding to the unwrapped one.
pub proof fn lemma_wrap_add(x: int, y: int)
    requires
        -0x4000_0000 <= x <= 0x4000_0000,
        -0x4000_0000 <= y <= 0x4000_0000,
    ensures
        ((x as i16) + y) as i16 == (x + y) as i16,
{
    let a = x as i32;
    let b = y as i32;
    assert(((a as i16) as i32 + b) as i16 == (a + b) as i16) by (bit_vector)
        requires
            -0x4000_0000 <= a <= 0x4000_0000,
            -0x4000_0000 <= b <= 0x4000_0000,
    ;
}

/// The weight of piece `p` on `s` for accumulator value `i` of the side
/// `white` with its king on `k`.
pub open spec fn weight_of(w1: Seq<i16>, white: bool, p: int, s: int, k: int, i: int) -> int {
    w1[feat(white, p, s, k) * 256 + i] as int
}

/// What the accumulator sum of a non-castling move changes by: the
/// mover's weight on its target comes in, its weight on its origin and the
/// captured piece's weight go out.
pub proof fn lemma_side_sums(w1: Seq<i16>, prev: BoardView, mv: Move, white: bool, k: int, i: int)
    requires
        move_ok(prev, mv),
        prev.pieces.len() == 64,
        mv.spec_flag() & 14u8 != 2,
    ensures
        ({
            let after = made(prev, mv);
            let from = mv.spec_from();
            let to = mv.spec_to();
            let cs = cap_square(prev, mv);
            sum_to(acc_term(w1, after, k, white, i), 64) == sum_to(acc_term(w1, prev, k, white, i), 64)
                + weight_of(w1, white, piece_index(after.pieces[to]), to, k, i)
                - weight_of(w1, white, piece_index(prev.pieces[from]), from, k, i)
                - (if mv.spec_flag() & 8u8 != 0 { weight_of(w1, white, piece_index(prev.pieces[cs]), cs, k, i) } else { 0 })
        }),
{
    crate::items::lemma_move_bounds(mv);
    let after = made(prev, mv);
    let from = mv.spec_from();
    let to = mv.spec_to();
    let f = mv.spec_flag();
    let cs = cap_square(prev, mv);
    crate::items::lemma_castle_flags(f);
    crate::bits::lemma_byte_facts(f);
    let tp = acc_term(w1, prev, k, white, i);
    let ta = acc_term(w1, after, k, white, i);
    let p3 = promoted_pieces(prev, mv);
    assert(after.pieces == p3);
    assert(after.pieces[from] == 0);
    assert(prev.pieces[from] != 0);
    assert forall|s: int| 0 <= s < 64 && s != from && s != to && s != cs implies after.pieces[s] == prev.pieces[s] by {}
    let h1 = |s: int| if s == from { ta(s) } else { tp(s) };
    lemma_sum_point(tp, h1, 64, from);
    let h2 = |s: int| if s == from || s == to { ta(s) } else { tp(s) };
    lemma_sum_point(h1, h2, 64, to);
    lemma_sum_point(h2, ta, 64, cs);
    assert(ta(from) == 0);
    assert(tp(from) == weight_of(w1, white, piece_index(prev.pieces[from]), from, k, i));
    assert(ta(to) == weight_of(w1, white, piece_index(after.pieces[to]), to, k, i)) by {
        assert(after.pieces[to] != 0) by {
            lemma_promo_nonzero(prev, mv);
        }
    }
    if f & 8u8 != 0 {
        if f == 10 {
            assert(prev.pieces[to] == 0);
            assert(cs != to && cs != from);
            assert(after.pieces[cs] == 0);
            assert(tp(to) == 0);
            assert(tp(cs) == weight_of(w1, white, piece_index(prev.pieces[cs]), cs, k, i));
        } else {
            assert(cs == to);
        }
    } else {
        assert(cs == to);
        assert(prev.pieces[to] == 0);
        assert(tp(to) == 0);
    }
}

/// The target of a played move is occupied afterwards.
proof fn lemma_promo_nonzero(prev: BoardView, mv: Move)
    requires
        move_ok(prev, mv),
        prev.pieces.len() == 64,
    ensures
        made(prev, mv).pieces[mv.spec_to()] != 0,
{
    crate::items::lemma_move_bounds(mv);
    let f = mv.spec_flag();
    crate::items::lemma_castle_flags(f);
    crate::bits::lemma_byte_facts(f);
    let own: u8 = if prev.side == Color::White { 8 } else { 16 };
    if f & 4u8 != 0 {
        lemma_promo_code(own, f & 3u8);
    }
}


/// What a search move must be for the incremental update to match a
/// rebuild: one king of each colour, castling only by a king, and no king
/// captured.
pub open spec fn nnue_move_ok(prev: BoardView, mv: Move) -> bool {
    let from = mv.spec_from();
    let f = mv.spec_flag();
    &&& crate::perft::one_king(prev, 8)
    &&& crate::perft::one_king(prev, 16)
    &&& king_square(prev, 8) < 64
    &&& king_square(prev, 16) < 64
    &&& (f & 14u8 == 2 ==> prev.pieces[from] & 7u8 == 6)
    &&& (f & 8u8 != 0 ==> prev.pieces[cap_square(prev, mv)] & 7u8 != 6)
}

proof fn lemma_find_same(a: Seq<u8>, b: Seq<u8>, code: u8, i: int)
    requires
        0 <= i <= 64,
        forall|s: int| 0 <= s < 64 ==> (#[trigger] a[s] == code) == (b[s] == code),
    ensures
        find_from(a, code, i) == find_from(b, code, i),
    decreases 64 - i,
{
    if i < 64 {
        lemma_find_same(a, b, code, i + 1);
    }
}

proof fn lemma_find_only(a: Seq<u8>, code: u8, sq: int, i: int)
    requires
        0 <= i <= sq < 64,
        a[sq] == code,
        forall|s: int| 0 <= s < 64 && s != sq ==> #[trigger] a[s] != code,
    ensures
        find_from(a, code, i) == sq,
    decreases sq - i,
{
    if i < sq {
        lemma_find_only(a, code, sq, i + 1);
    }
}

/// Where the king of colour `c` stands after a non-castling move: on the
/// target if it is the piece that moved, else where it stood.
proof fn lemma_king_track(prev: BoardView, mv: Move, c: u8)
    requires
        move_ok(prev, mv),
        nnue_move_ok(prev, mv),
        prev.pieces.len() == 64,
        mv.spec_flag() & 14u8 != 2,
        c == 8 || c == 16,
    ensures
        ({
            let after = made(prev, mv);
            let from = mv.spec_from();
            let to = mv.spec_to();
            if prev.pieces[from] == c + 6 {
                king_square(prev, c) == from && king_square(after, c) == to
            } else {
                king_square(after, c) == king_square(prev, c)
            }
        }),
{
    crate::items::lemma_move_bounds(mv);
    let after = made(prev, mv);
    let from = mv.spec_from();
    let to = mv.spec_to();
    let f = mv.spec_flag();
    let cs = cap_square(prev, mv);
    let kc = (c + 6) as u8;
    crate::items::lemma_castle_flags(f);
    crate::bits::lemma_byte_facts(f);
    let own: u8 = if prev.side == Color::White { 8 } else { 16 };
    let p = prev.pieces[from];
    crate::board::lemma_piece_code(p);
    assert forall|s: int| 0 <= s < 64 && s != from && s != to && s != cs implies after.pieces[s] == prev.pieces[s] by {}
    assert(after.pieces[from] == 0);
    if f & 4u8 != 0 {
        lemma_promo_code(own, f & 3u8);
        assert(after.pieces[to] & 7u8 != 6) by {
            let q = after.pieces[to];
            assert(q == (own + (f & 3u8) + 2) as u8);
            crate::bits::lemma_code_bits(own, f & 3u8, q, 0);
        }
    } else {
        assert(after.pieces[to] == p);
    }
    if f & 8u8 != 0 {
        let x = prev.pieces[cs];
        crate::board::lemma_piece_code(x);
        assert(x != kc) by {
            crate::bits::lemma_code_bits(0, 0, 0, kc);
        }
    }
    crate::bits::lemma_code_bits(0, 0, 0, kc);
    if p == kc {
        assert(f & 4u8 == 0);
        assert forall|s: int| 0 <= s < 64 && s != from implies #[trigger] prev.pieces[s] != kc by {
            if prev.pieces[s] == kc {
                assert(crate::perft::one_king(prev, c));
            }
        }
        lemma_find_only(prev.pieces, kc, from, 0);
        assert forall|s: int| 0 <= s < 64 && s != to implies #[trigger] after.pieces[s] != kc by {
            if s != from && s != cs {
                assert(prev.pieces[s] != kc);
            }
        }
        lemma_find_only(after.pieces, kc, to, 0);
    } else {
        assert forall|s: int| 0 <= s < 64 implies (#[trigger] after.pieces[s] == kc) == (prev.pieces[s] == kc) by {
            if s == to {
                if f & 8u8 == 0 {
                    assert(prev.pieces[to] == 0);
                }
            }
        }
        lemma_find_same(after.pieces, prev.pieces, kc, 0);
    }
}

/// The accumulator after adding feature `added` and removing `removed`
/// and, for a capture, `cap`, each wrapping at 16 bits.
fn incremental(w: &[i16], acc: [i16; 256], added: usize, removed: usize, cap: Option<usize>) -> (r: [i16; 256])
    requires
        added * 256 + 256 <= w@.len(),
        removed * 256 + 256 <= w@.len(),
        cap matches Some(c) ==> c * 256 + 256 <= w@.len(),
    ensures
        forall|i: int| 0 <= i < 256 ==> #[trigger] r[i] == (acc[i] + w@[added * 256 + i] - w@[removed * 256 + i] - (match cap {
            Some(c) => w@[c * 256 + i] as int,
            None => 0,
        })) as i16,
{
    let mut a = acc;
    Network::apply_single_update(&mut a, w, added, false);
    let ghost a1 = a;
    Network::apply_single_update(&mut a, w, removed, true);
    let ghost a2 = a;
    match cap {
        Some(c) => {
            Network::apply_single_update(&mut a, w, c, true);
        },
        None => {},
    }
    proof {
        assert forall|i: int| 0 <= i < 256 implies #[trigger] a[i] == (acc[i] + w@[added * 256 + i] - w@[removed * 256 + i] - (match cap {
            Some(c) => w@[c * 256 + i] as int,
            None => 0,
        })) as i16 by {
            let x = acc[i] + w@[added * 256 + i];
            lemma_wrap_add(x, -w@[removed * 256 + i]);
            assert(a2[i] == (x - w@[removed * 256 + i]) as i16);
            match cap {
                Some(c) => {
                    lemma_wrap_add(x - w@[removed * 256 + i], -w@[c * 256 + i]);
                },
                None => {},
            }
        }
    }
    a
}


/// The pieces `update_nnue` reads off a played move, related to the
/// position before it.
proof fn lemma_update_facts(prev: BoardView, mv: Move, undo: Undo, moved: u8, removed_idx: int, piece_idx: int, side: u8)
    requires
        played(made(prev, mv), mv, undo),
        unmade(made(prev, mv), mv, undo) == prev,
        prev.pieces.len() == 64,
        moved == made(prev, mv).pieces[mv.spec_to()],
        side == moved & 24u8,
        piece_idx == piece_index(moved),
        removed_idx == (if mv.spec_flag() & 4u8 != 0 { piece_index((1u8 | side) as u8) } else { piece_idx }),
    ensures
        removed_idx == piece_index(prev.pieces[mv.spec_from()]),
        undo.captured == prev.pieces[cap_square(prev, mv)],
        (side == 8) == (prev.side == Color::White),
        is_piece(moved),
        (moved == 14) == (moved & 7u8 == 6 && side == 8),
        (moved == 22) == (moved & 7u8 == 6 && side == 16),
        (prev.pieces[mv.spec_from()] == 14) == (moved == 14),
        (prev.pieces[mv.spec_from()] == 22) == (moved == 22),
        mv.spec_flag() & 14u8 == 2 && nnue_move_ok(prev, mv) ==> moved & 7u8 == 6 && (mv.spec_from() + 2 == mv.spec_to()
            || mv.spec_to() + 2 == mv.spec_from()),
{
    crate::items::lemma_move_bounds(mv);
    let after = made(prev, mv);
    let f = mv.spec_flag();
    let from = mv.spec_from();
    let to = mv.spec_to();
    crate::items::lemma_castle_flags(f);
    crate::bits::lemma_byte_facts(f);
    let own: u8 = if prev.side == Color::White { 8 } else { 16 };
    let p = prev.pieces[from];
    crate::board::lemma_piece_code(p);
    let p2 = moved_pieces(prev, mv);
    let p3 = promoted_pieces(prev, mv);
    assert(p2[to] == p);
    if f & 4u8 != 0 {
        lemma_promo_code(own, f & 3u8);
        assert(moved == (own + (f & 3u8) + 2) as u8);
        assert(moved & 24u8 == own);
        assert(p == own + 1);
        crate::bits::lemma_code_bits(own, f & 3u8, moved, 0);
    } else {
        if f & 14u8 == 2 {
            if f == 2 {
                assert(to == king_home(p) + 2);
            } else {
                assert(to == king_home(p) - 2);
            }
            assert(after.pieces[to] == p3[to]);
        }
        assert(moved == p);
    }
    crate::board::lemma_piece_code(moved);
    crate::bits::lemma_code_bits(0, 0, 0, moved);
}

/// One side's accumulator after a non-castling move: built incrementally
/// from the side's accumulator before it, it is the rebuilt one, provided
/// the king's move (if any) kept every feature where it was.
proof fn lemma_side_exact(
    net: &Network,
    prev: BoardView,
    mv: Move,
    white: bool,
    kp: int,
    ka: int,
    old_side: [i16; 256],
    new_side: [i16; 256],
    added: int,
    removed: int,
    cap: Option<usize>,
)
    requires
        net.wf(),
        move_ok(prev, mv),
        prev.pieces.len() == 64,
        mv.spec_flag() & 14u8 != 2,
        forall|q: int, t: int| #[trigger] feat(white, q, t, kp) == feat(white, q, t, ka),
        forall|i: int| 0 <= i < 256 ==> #[trigger] old_side[i] == acc_value(net.b1@, net.w1@, prev, kp, white, i),
        added == feat(white, piece_index(made(prev, mv).pieces[mv.spec_to()]), mv.spec_to(), ka),
        removed == feat(white, piece_index(prev.pieces[mv.spec_from()]), mv.spec_from(), ka),
        (mv.spec_flag() & 8u8 != 0) == (cap is Some),
        cap matches Some(c) ==> c == feat(white, piece_index(prev.pieces[cap_square(prev, mv)]), cap_square(prev, mv), ka),
        forall|i: int| 0 <= i < 256 ==> #[trigger] new_side[i] == (old_side[i] + net.w1@[added * 256 + i] - net.w1@[removed * 256
            + i] - (match cap {
            Some(c) => net.w1@[c * 256 + i] as int,
            None => 0,
        })) as i16,
    ensures
        forall|i: int| 0 <= i < 256 ==> #[trigger] new_side[i] == acc_value(net.b1@, net.w1@, made(prev, mv), ka, white, i),
{
    let w1 = net.w1@;
    let b1 = net.b1@;
    let after = made(prev, mv);
    assert forall|i: int| 0 <= i < 256 implies #[trigger] new_side[i] == acc_value(b1, w1, after, ka, white, i) by {
        let tpk = acc_term(w1, prev, kp, white, i);
        let tpa = acc_term(w1, prev, ka, white, i);
        assert forall|s: int| 0 <= s < 64 implies #[trigger] tpk(s) == tpa(s) by {
            if prev.pieces[s] != 0 {
                assert(feat(white, piece_index(prev.pieces[s]), s, kp) == feat(white, piece_index(prev.pieces[s]), s, ka));
            }
        }
        lemma_sum_ext(tpk, tpa, 64);
        lemma_side_sums(w1, prev, mv, white, ka, i);
        crate::evaluation::lemma_sum_bounds(tpk, 64, -32768, 32767);
        let x = b1[i] + sum_to(tpk, 64);
        let capw: int = match cap {
            Some(c) => w1[c * 256 + i] as int,
            None => 0,
        };
        let y = w1[added * 256 + i] - w1[removed * 256 + i] - capw;
        assert(-32768 * 64 <= sum_to(tpk, 64) <= 32767 * 64);
        lemma_wrap_add(x, y);
        assert(old_side[i] == x as i16);
    }
}

} // verus!
