//! Attack sets of the sliding pieces for a given set of blockers: each ray
//! runs to the edge of the board or to the first blocker, which it includes.
use vstd::prelude::*;
use crate::bits::{bit, lemma_bit_ops, mask};
use crate::movegen::{on_ray, ray_sq};
use crate::square::Square;

verus! {

/// How far a ray from `f` runs once `n` squares are known open: to the
/// last square on the board, or to the first blocker.
pub open spec fn ray_stop(occ: u64, f: int, dr: int, df: int, n: int) -> int
    decreases 8 - n,
{
    if n >= 8 || n < 0 || !on_ray(f, dr, df, n + 1) {
        n
    } else if bit(occ, ray_sq(f, dr, df, n + 1)) {
        n + 1
    } else {
        ray_stop(occ, f, dr, df, n + 1)
    }
}

/// `t` is on the ray from `f` along (`dr`, `df`), no farther than its stop.
pub open spec fn ray_reach(occ: u64, f: int, dr: int, df: int, t: int) -> bool {
    exists|k: int| 1 <= k <= ray_stop(occ, f, dr, df, 0) && t == #[trigger] ray_sq(f, dr, df, k)
}

/// The squares a rook on `f` attacks with blockers `occ`.
pub open spec fn rook_reach(occ: u64, f: int, t: int) -> bool {
    ray_reach(occ, f, 1, 0, t) || ray_reach(occ, f, -1, 0, t) || ray_reach(occ, f, 0, 1, t) || ray_reach(occ, f, 0, -1, t)
}

/// The squares a bishop on `f` attacks with blockers `occ`.
pub open spec fn bishop_reach(occ: u64, f: int, t: int) -> bool {
    ray_reach(occ, f, 1, 1, t) || ray_reach(occ, f, 1, -1, t) || ray_reach(occ, f, -1, 1, t) || ray_reach(occ, f, -1, -1, t)
}

proof fn lemma_ray_in_board(f: int, dr: int, df: int, k: int)
    requires
        0 <= f < 64,
        on_ray(f, dr, df, k),
    ensures
        0 <= ray_sq(f, dr, df, k) < 64,
        ray_sq(f, dr, df, k) / 8 == f / 8 + k * dr,
        ray_sq(f, dr, df, k) % 8 == f % 8 + k * df,
{
    let r = f / 8 + k * dr;
    let c = f % 8 + k * df;
    assert((r * 8 + c) / 8 == r) by (nonlinear_arith)
        requires
            0 <= r < 8 && 0 <= c < 8,
    ;
    assert((r * 8 + c) % 8 == c) by (nonlinear_arith)
        requires
            0 <= r < 8 && 0 <= c < 8,
    ;
    assert(0 <= r * 8 + c < 64) by (nonlinear_arith)
        requires
            0 <= r < 8 && 0 <= c < 8,
    ;
}

/// The squares along one ray from `sq`, up to the edge or the first
/// blocker, which is included.
fn ray_bits(sq: usize, dr: i32, df: i32, blockers: u64) -> (r: u64)
    requires
        sq < 64,
        -1 <= dr <= 1,
        -1 <= df <= 1,
        dr != 0 || df != 0,
    ensures
        forall|t: int| 0 <= t < 64 ==> #[trigger] bit(r, t) == ray_reach(blockers, sq as int, dr as int, df as int, t),
{
    let ghost f = sq as int;
    let mut bits: u64 = 0;
    let mut cur = Square::new(sq);
    let ghost mut n: int = 0;
    proof {
        assert(on_ray(f, dr as int, df as int, 0));
        assert(ray_sq(f, dr as int, df as int, 0) == f) by (nonlinear_arith)
            requires
                0 <= f < 64,
        ;
        assert forall|t: int| 0 <= t < 64 implies #[trigger] bit(0u64, t) == false by {
            lemma_bit_ops(0, 0, 0, t as u64);
        }
    }
    loop
        invariant_except_break
            forall|t: int| 0 <= t < 64 ==> #[trigger] bit(bits, t) == exists|k: int| 1 <= k <= n && t == #[trigger] ray_sq(f, dr as int, df as int, k),
        invariant
            0 <= f < 64,
            -1 <= dr <= 1,
            -1 <= df <= 1,
            dr != 0 || df != 0,
            0 <= n <= 7,
            on_ray(f, dr as int, df as int, n),
            cur.0 == ray_sq(f, dr as int, df as int, n),
            cur.0 < 64,
            ray_stop(blockers, f, dr as int, df as int, 0) == ray_stop(blockers, f, dr as int, df as int, n),
        ensures
            forall|t: int| 0 <= t < 64 ==> #[trigger] bit(bits, t) == ray_reach(blockers, f, dr as int, df as int, t),
        decreases 7 - n,
    {
        proof {
            lemma_ray_in_board(f, dr as int, df as int, n);
        }
        let next = match cur.offset(dr, df) {
            Some(nx) => nx,
            None => {
                proof {
                    assert(!on_ray(f, dr as int, df as int, n + 1)) by (nonlinear_arith)
                        requires
                            cur.0 / 8 == f / 8 + n * dr,
                            cur.0 % 8 == f % 8 + n * df,
                            !(0 <= cur.0 / 8 + dr < 8 && 0 <= cur.0 % 8 + df < 8),
                    ;
                    assert(ray_stop(blockers, f, dr as int, df as int, n) == n);
                    assert forall|s: int| 0 <= s < 64 implies #[trigger] bit(bits, s) == ray_reach(blockers, f, dr as int, df as int, s) by {
                        assert(bit(bits, s) == exists|k: int| 1 <= k <= n && s == #[trigger] ray_sq(f, dr as int, df as int, k));
                    }
                }
                break;
            },
        };
        let ghost n1 = n + 1;
        proof {
            assert(ray_sq(f, dr as int, df as int, n1) == (cur.0 / 8 + dr) * 8 + (cur.0 % 8 + df)) by (nonlinear_arith)
                requires
                    cur.0 / 8 == f / 8 + n * dr,
                    cur.0 % 8 == f % 8 + n * df,
                    n1 == n + 1,
            ;
            assert(on_ray(f, dr as int, df as int, n1)) by (nonlinear_arith)
                requires
                    cur.0 / 8 == f / 8 + n * dr,
                    cur.0 % 8 == f % 8 + n * df,
                    n1 == n + 1,
                    0 <= cur.0 / 8 + dr < 8,
                    0 <= cur.0 % 8 + df < 8,
            ;
            lemma_ray_in_board(f, dr as int, df as int, n1);
            if n1 > 7 {
                assert(false) by (nonlinear_arith)
                    requires
                        n1 > 7,
                        0 <= f / 8 + n1 * dr < 8,
                        0 <= f % 8 + n1 * df < 8,
                        0 <= f / 8 < 8,
                        0 <= f % 8 < 8,
                        -1 <= dr <= 1,
                        -1 <= df <= 1,
                        dr != 0 || df != 0,
                ;
            }
        }
        let t = next.index();
        let to_bb = mask(t);
        let ghost old_bits = bits;
        bits = bits | to_bb;
        proof {
            assert forall|s: int| 0 <= s < 64 implies #[trigger] bit(bits, s) == exists|k: int| 1 <= k <= n1 && s == #[trigger] ray_sq(f, dr as int, df as int, k) by {
                lemma_bit_ops(old_bits, to_bb, 0, s as u64);
                lemma_bit_ops(0, 0, t as u64, s as u64);
                if s == t {
                    assert(s == ray_sq(f, dr as int, df as int, n1));
                }
                if exists|k: int| 1 <= k <= n1 && s == #[trigger] ray_sq(f, dr as int, df as int, k) {
                    let k = choose|k: int| 1 <= k <= n1 && s == #[trigger] ray_sq(f, dr as int, df as int, k);
                    if k <= n {
                        assert(bit(old_bits, s));
                    }
                }
            }
        }
        proof {
            lemma_bit_ops(blockers, to_bb, 0, t as u64);
            lemma_bit_ops(0, 0, t as u64, t as u64);
            crate::bits::lemma_zero_iff_no_bits(blockers & to_bb);
            assert forall|s: int| 0 <= s < 64 && s != t implies !#[trigger] bit(blockers & to_bb, s) by {
                lemma_bit_ops(blockers, to_bb, 0, s as u64);
                lemma_bit_ops(0, 0, t as u64, s as u64);
            }
        }
        if to_bb & blockers != 0 {
            proof {
                assert(blockers & to_bb == to_bb & blockers) by (bit_vector);
                assert(bit(blockers, t as int));
                assert(ray_stop(blockers, f, dr as int, df as int, 0) == n1);
                assert forall|s: int| 0 <= s < 64 implies #[trigger] bit(bits, s) == ray_reach(blockers, f, dr as int, df as int, s) by {
                    assert(bit(bits, s) == exists|k: int| 1 <= k <= n1 && s == #[trigger] ray_sq(f, dr as int, df as int, k));
                }
            }
            break;
        }
        proof {
            assert(blockers & to_bb == to_bb & blockers) by (bit_vector);
            assert(!bit(blockers, t as int));
            assert(ray_stop(blockers, f, dr as int, df as int, n) == ray_stop(blockers, f, dr as int, df as int, n1));
        }
        cur = next;
        proof {
            n = n1;
        }
    }
    bits
}

/// Rook attacks from `sq_idx` with `blockers`: the four orthogonal rays.
pub fn gen_rook_moves(sq_idx: usize, blockers: u64) -> (r: u64)
    requires
        sq_idx < 64,
    ensures
        forall|t: int| 0 <= t < 64 ==> #[trigger] bit(r, t) == rook_reach(blockers, sq_idx as int, t),
{
    let a = ray_bits(sq_idx, 1, 0, blockers);
    let b = ray_bits(sq_idx, -1, 0, blockers);
    let c = ray_bits(sq_idx, 0, 1, blockers);
    let d = ray_bits(sq_idx, 0, -1, blockers);
    let r = a | b | c | d;
    proof {
        assert forall|t: int| 0 <= t < 64 implies #[trigger] bit(r, t) == rook_reach(blockers, sq_idx as int, t) by {
            lemma_bit_ops(a, b, 0, t as u64);
            lemma_bit_ops(a | b, c, 0, t as u64);
            lemma_bit_ops(a | b | c, d, 0, t as u64);
        }
    }
    r
}

/// Bishop attacks from `sq_idx` with `blockers`: the four diagonal rays.
pub fn gen_bishop_moves(sq_idx: usize, blockers: u64) -> (r: u64)
    requires
        sq_idx < 64,
    ensures
        forall|t: int| 0 <= t < 64 ==> #[trigger] bit(r, t) == bishop_reach(blockers, sq_idx as int, t),
{
    let a = ray_bits(sq_idx, 1, 1, blockers);
    let b = ray_bits(sq_idx, 1, -1, blockers);
    let c = ray_bits(sq_idx, -1, 1, blockers);
    let d = ray_bits(sq_idx, -1, -1, blockers);
    let r = a | b | c | d;
    proof {
        assert forall|t: int| 0 <= t < 64 implies #[trigger] bit(r, t) == bishop_reach(blockers, sq_idx as int, t) by {
            lemma_bit_ops(a, b, 0, t as u64);
            lemma_bit_ops(a | b, c, 0, t as u64);
            lemma_bit_ops(a | b | c, d, 0, t as u64);
        }
    }
    r
}

/// The squares a bishop on `sq` attacks when `occ` is occupied.
pub fn get_bishop_move_bits(sq: usize, occ: u64) -> (r: u64)
    requires
        sq < 64,
    ensures
        forall|t: int| 0 <= t < 64 ==> #[trigger] bit(r, t) == bishop_reach(occ, sq as int, t),
{
    gen_bishop_moves(sq, occ)
}

/// The squares a rook on `sq` attacks when `occ` is occupied.
pub fn get_rook_move_bits(sq: usize, occ: u64) -> (r: u64)
    requires
        sq < 64,
    ensures
        forall|t: int| 0 <= t < 64 ==> #[trigger] bit(r, t) == rook_reach(occ, sq as int, t),
{
    gen_rook_moves(sq, occ)
}

/// Along a ray from `f`, with `occ` the occupied squares of `v`, the first
/// blocker is the square where the ray stops, when that square is occupied;
/// every square before the stop is empty.
pub proof fn lemma_stop_is_blocker(v: crate::board::BoardView, occ: u64, f: int, dr: int, df: int, n: int)
    requires
        v.pieces.len() == 64,
        forall|s: int| 0 <= s < 64 ==> #[trigger] bit(occ, s) == (v.pieces[s] != 0),
        0 <= f < 64,
        -1 <= dr <= 1 && -1 <= df <= 1 && (dr != 0 || df != 0),
        0 <= n <= 8,
    ensures
        n <= ray_stop(occ, f, dr, df, n),
        ray_stop(occ, f, dr, df, n) > n ==> on_ray(f, dr, df, ray_stop(occ, f, dr, df, n)),
        forall|k: int| n < k < ray_stop(occ, f, dr, df, n) ==> v.pieces[#[trigger] ray_sq(f, dr, df, k)] == 0,
        crate::movegen::first_blocker(v, f, dr, df, n) == (if ray_stop(occ, f, dr, df, n) > n
            && v.pieces[ray_sq(f, dr, df, ray_stop(occ, f, dr, df, n))] != 0 {
            Some(ray_sq(f, dr, df, ray_stop(occ, f, dr, df, n)))
        } else {
            None
        }),
    decreases 8 - n,
{
    if n < 8 && on_ray(f, dr, df, n + 1) {
        lemma_ray_in_board(f, dr, df, n + 1);
        if !bit(occ, ray_sq(f, dr, df, n + 1)) {
            lemma_stop_is_blocker(v, occ, f, dr, df, n + 1);
        }
    }
}

/// A slider of code `a` or `b` attacks `f` along a ray exactly when one
/// stands on a square the ray from `f` reaches.
pub proof fn lemma_ray_attacker_reach(v: crate::board::BoardView, occ: u64, f: int, dr: int, df: int, a: u8, b: u8)
    requires
        v.pieces.len() == 64,
        forall|s: int| 0 <= s < 64 ==> #[trigger] bit(occ, s) == (v.pieces[s] != 0),
        0 <= f < 64,
        -1 <= dr <= 1 && -1 <= df <= 1 && (dr != 0 || df != 0),
        a != 0,
        b != 0,
    ensures
        crate::movegen::ray_attacker(v, f, dr, df, a, b) <==> exists|t: int| 0 <= t < 64 && #[trigger] ray_reach(occ, f, dr, df, t)
            && (v.pieces[t] == a || v.pieces[t] == b),
{
    lemma_stop_is_blocker(v, occ, f, dr, df, 0);
    let st = ray_stop(occ, f, dr, df, 0);
    if crate::movegen::ray_attacker(v, f, dr, df, a, b) {
        let t = ray_sq(f, dr, df, st);
        lemma_ray_in_board(f, dr, df, st);
        assert(ray_reach(occ, f, dr, df, t));
    }
    if exists|t: int| 0 <= t < 64 && #[trigger] ray_reach(occ, f, dr, df, t) && (v.pieces[t] == a || v.pieces[t] == b) {
        let t = choose|t: int| 0 <= t < 64 && #[trigger] ray_reach(occ, f, dr, df, t) && (v.pieces[t] == a || v.pieces[t] == b);
        let k = choose|k: int| 1 <= k <= st && t == #[trigger] ray_sq(f, dr, df, k);
        if k < st {
            assert(v.pieces[ray_sq(f, dr, df, k)] == 0);
        }
    }
}

} // verus!
