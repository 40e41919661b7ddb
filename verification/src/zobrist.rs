//! Zobrist hashing keys, drawn from a fixed-seed xorshift generator.
use vstd::prelude::*;

verus! {

/// The generator's multiplier.
pub const RNG_MUL: u64 = 0x2545F4914F6CDD1;
/// The seed every key set is drawn from.
pub const ZOBRIST_SEED: u64 = 14974698296094900119;
/// Piece kinds with their own square keys.
pub const NPIECES: usize = 12;

/// One xorshift step of the state: shifts 12 right, 25 left, 27 right.
pub open spec fn xorshift(s: u64) -> u64 {
    let a = s ^ (s >> 12u64);
    let b = a ^ (a << 25u64);
    b ^ (b >> 27u64)
}

/// The state after `n` steps from `seed`.
pub open spec fn rng_state(seed: u64, n: nat) -> u64
    decreases n,
{
    if n == 0 {
        seed
    } else {
        xorshift(rng_state(seed, (n - 1) as nat))
    }
}

/// The `n`-th number drawn (counting from 0): the state after `n + 1`
/// steps times the multiplier, wrapping.
pub open spec fn rng_output(seed: u64, n: nat) -> u64 {
    rng_state(seed, n + 1).wrapping_mul(RNG_MUL)
}

/// A xorshift pseudo-random generator.
#[derive(Clone, Debug)]
pub struct Rng {
    s: u64,
}

impl Rng {
    pub closed spec fn state(&self) -> u64 {
        self.s
    }

    /// A generator whose state is `seed`.
    pub fn new(seed: u64) -> (r: Self)
        ensures
            r.state() == seed,
    {
        Self { s: seed }
    }

    /// Steps the state once and returns it times the multiplier, wrapping.
    pub fn rand64(&mut self) -> (r: u64)
        ensures
            final(self).state() == xorshift(old(self).state()),
            r == xorshift(old(self).state()).wrapping_mul(RNG_MUL),
    {
        self.s = self.s ^ (self.s >> 12);
        self.s = self.s ^ (self.s << 25);
        self.s = self.s ^ (self.s >> 27);
        self.s.wrapping_mul(RNG_MUL)
    }

    /// The AND of the next three numbers: a number with few bits set.
    pub fn sparse_rand64(&mut self) -> (r: u64)
        ensures
            final(self).state() == xorshift(xorshift(xorshift(old(self).state()))),
            r == xorshift(old(self).state()).wrapping_mul(RNG_MUL) & xorshift(xorshift(old(self).state())).wrapping_mul(RNG_MUL)
                & xorshift(xorshift(xorshift(old(self).state()))).wrapping_mul(RNG_MUL),
    {
        let a = self.rand64();
        let b = self.rand64();
        let c = self.rand64();
        a & b & c
    }
}

/// The Zobrist keys: one per piece and square, per en passant file, per
/// castling-rights value, and one for Black to move.
pub struct ZobristKeys {
    pub pieces: Vec<u64>,
    pub enpassant: [u64; 8],
    pub castling: [u64; 16],
    pub side: u64,
}

impl ZobristKeys {
    /// Drawn in order from `ZOBRIST_SEED`: piece keys (piece by piece,
    /// square by square), then en passant, castling, and the side key.
    pub open spec fn drawn(&self) -> bool {
        &&& self.pieces.len() == 768
        &&& forall|k: int| 0 <= k < 768 ==> #[trigger] self.pieces@[k] == rng_output(ZOBRIST_SEED, k as nat)
        &&& forall|i: int| 0 <= i < 8 ==> #[trigger] self.enpassant@[i] == rng_output(ZOBRIST_SEED, (768 + i) as nat)
        &&& forall|i: int| 0 <= i < 16 ==> #[trigger] self.castling@[i] == rng_output(ZOBRIST_SEED, (776 + i) as nat)
        &&& self.side == rng_output(ZOBRIST_SEED, 792)
    }
}

/// Draws the Zobrist keys.
pub fn init_zobrist() -> (r: ZobristKeys)
    ensures
        r.drawn(),
{
    let mut rng = Rng::new(ZOBRIST_SEED);
    let mut pieces: Vec<u64> = Vec::new();
    let mut k: usize = 0;
    while k < 768
        invariant
            k <= 768,
            pieces.len() == k,
            rng.state() == rng_state(ZOBRIST_SEED, k as nat),
            forall|j: int| 0 <= j < k ==> #[trigger] pieces@[j] == rng_output(ZOBRIST_SEED, j as nat),
        decreases 768 - k,
    {
        let v = rng.rand64();
        pieces.push(v);
        k += 1;
    }
    let mut enpassant = [0u64; 8];
    let mut i: usize = 0;
    while i < 8
        invariant
            i <= 8,
            rng.state() == rng_state(ZOBRIST_SEED, (768 + i) as nat),
            forall|j: int| 0 <= j < i ==> #[trigger] enpassant@[j] == rng_output(ZOBRIST_SEED, (768 + j) as nat),
        decreases 8 - i,
    {
        let v = rng.rand64();
        enpassant[i] = v;
        i += 1;
    }
    let mut castling = [0u64; 16];
    let mut c: usize = 0;
    while c < 16
        invariant
            c <= 16,
            rng.state() == rng_state(ZOBRIST_SEED, (776 + c) as nat),
            forall|j: int| 0 <= j < c ==> #[trigger] castling@[j] == rng_output(ZOBRIST_SEED, (776 + j) as nat),
        decreases 16 - c,
    {
        let v = rng.rand64();
        castling[c] = v;
        c += 1;
    }
    let side = rng.rand64();
    ZobristKeys { pieces, enpassant, castling, side }
}

} // verus!
