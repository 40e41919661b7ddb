//! The transposition table: search results packed into two words per slot,
//! four slots per bucket, buckets chosen by the low bits of the position key.
use vstd::prelude::*;
use crate::consts::MATE;
use crate::items::Move;

verus! {

/// Slots per bucket.
pub const TT_SLOT_SIZE: usize = 4;
/// Bytes one bucket takes.
pub const BUCKET_BYTES: usize = 64;
/// What the age of an entry costs in the replacement score, per generation.
pub const AGE_PENALTY: i32 = 12;

/// What a stored score means relative to the true value.
#[derive(Clone, Copy, PartialEq, Eq, Structural, Debug)]
pub enum TTFlag {
    Exact,
    LowerBound,
    UpperBound,
}

pub open spec fn flag_bits(f: TTFlag) -> u64 {
    match f {
        TTFlag::Exact => 0,
        TTFlag::LowerBound => 1,
        TTFlag::UpperBound => 2,
    }
}

pub open spec fn flag_of_bits(b: u64) -> TTFlag {
    if b == 0 {
        TTFlag::Exact
    } else if b == 1 {
        TTFlag::LowerBound
    } else {
        TTFlag::UpperBound
    }
}

impl TTFlag {
    /// The flag stored as `bits`.
    pub fn from_bits(bits: u8) -> (r: Self)
        requires
            bits < 3,
        ensures
            r == flag_of_bits(bits as u64),
    {
        match bits {
            0 => TTFlag::Exact,
            1 => TTFlag::LowerBound,
            _ => TTFlag::UpperBound,
        }
    }

    /// The two bits the flag is stored as.
    pub fn bits(self) -> (r: u64)
        ensures
            r == flag_bits(self),
    {
        match self {
            TTFlag::Exact => 0,
            TTFlag::LowerBound => 1,
            TTFlag::UpperBound => 2,
        }
    }
}

/// A search result as the search hands it to the table.
#[derive(Clone, Copy, Debug)]
pub struct TTEntry {
    pub key: u64,
    pub depth: u16,
    pub score: i32,
    pub flag: TTFlag,
    pub best_move: Move,
    pub age: u8,
}

/// The score offset by `MATE` and cut to sixteen bits, so it packs unsigned.
pub open spec fn stored_score(score: i32) -> u16 {
    (score + MATE) as u16
}

/// The packed word: flag in bits 0-1, depth from bit 2, move from bit 10,
/// score from bit 26, age from bit 42.
pub open spec fn pack_info(e: TTEntry) -> u64 {
    ((e.best_move.0 as u64) << 10u64) | ((e.depth as u64) << 2u64) | flag_bits(e.flag) | ((stored_score(e.score) as u64) << 26u64)
        | ((e.age as u64) << 42u64)
}

pub open spec fn info_flag(info: u64) -> u64 {
    info & 3u64
}

pub open spec fn info_depth(info: u64) -> u16 {
    ((info & 0x3FCu64) >> 2u64) as u16
}

pub open spec fn info_move(info: u64) -> u16 {
    ((info & 0x3FF_FC00u64) >> 10u64) as u16
}

pub open spec fn info_score(info: u64) -> i16 {
    ((((info & 0x3FF_FC00_0000u64) >> 26u64) as u16) - MATE) as i16
}

pub open spec fn info_age(info: u64) -> u8 {
    ((info & 0x3_FC00_0000_0000u64) >> 42u64) as u8
}

/// An entry as stored: the key and the packed word.
#[derive(Clone, Copy, Debug)]
pub struct TTPacked {
    key: u64,
    info: u64,
}

impl TTPacked {
    pub closed spec fn spec_key(&self) -> u64 {
        self.key
    }

    pub closed spec fn spec_info(&self) -> u64 {
        self.info
    }

    /// The flag bits name a flag.
    pub open spec fn wf(&self) -> bool {
        info_flag(self.spec_info()) < 3
    }

    /// Packs `entry`.
    pub fn new(entry: TTEntry) -> (r: TTPacked)
        requires
            -0x8000_0000 <= entry.score + MATE <= 0x7fff_ffff,
        ensures
            r.wf(),
            r.spec_key() == entry.key,
            r.spec_info() == pack_info(entry),
    {
        let u16_score = (entry.score + MATE as i32) as u16;
        let fb = entry.flag.bits();
        let info = ((entry.best_move.0 as u64) << 10) | ((entry.depth as u64) << 2) | fb | ((u16_score as u64) << 26)
            | ((entry.age as u64) << 42);
        proof {
            let m = entry.best_move.0 as u64;
            let d = entry.depth as u64;
            let s = u16_score as u64;
            let a = entry.age as u64;
            assert(fb < 3 ==> ((m << 10u64) | (d << 2u64) | fb | (s << 26u64) | (a << 42u64)) & 3u64 < 3)
                by (bit_vector);
        }
        TTPacked { key: entry.key, info }
    }

    pub fn flag(&self) -> (r: TTFlag)
        requires
            self.wf(),
        ensures
            r == flag_of_bits(info_flag(self.spec_info())),
    {
        let bits = (self.info & 3) as u8;
        TTFlag::from_bits(bits)
    }

    pub fn depth(&self) -> (r: u16)
        ensures
            r == info_depth(self.spec_info()),
            r < 256,
    {
        let i = self.info;
        assert((i & 0x3FCu64) >> 2u64 < 256) by (bit_vector);
        ((self.info & 0x3FC) >> 2) as u16
    }

    pub fn best_move(&self) -> (r: Move)
        ensures
            r.0 == info_move(self.spec_info()),
    {
        let i = self.info;
        assert((i & 0x3FF_FC00u64) >> 10u64 < 65536) by (bit_vector);
        Move(((self.info & 0x3FF_FC00) >> 10) as u16)
    }

    pub fn score(&self) -> (r: i16)
        ensures
            r == info_score(self.spec_info()),
    {
        let i = self.info;
        assert((i & 0x3FF_FC00_0000u64) >> 26u64 < 65536) by (bit_vector);
        let u16_score = ((self.info & 0x3FF_FC00_0000) >> 26) as u16;
        let de_offset_score = u16_score as i32 - MATE as i32;
        de_offset_score as i16
    }

    pub fn age(&self) -> (r: u8)
        ensures
            r == info_age(self.spec_info()),
    {
        let i = self.info;
        assert((i & 0x3_FC00_0000_0000u64) >> 42u64 < 256) by (bit_vector);
        ((self.info & 0x3_FC00_0000_0000) >> 42) as u8
    }
}

/// Packing an entry whose depth fits in eight bits and whose score lies in
/// `-MATE .. 65536 - MATE` and unpacking it gives back each field.
pub proof fn lemma_pack_roundtrip(e: TTEntry)
    requires
        e.depth < 256,
        -MATE <= e.score < 65536 - MATE,
        e.score < 32768,
    ensures
        flag_of_bits(info_flag(pack_info(e))) == e.flag,
        info_depth(pack_info(e)) == e.depth,
        info_move(pack_info(e)) == e.best_move.0,
        info_score(pack_info(e)) == e.score,
        info_age(pack_info(e)) == e.age,
{
    let m = e.best_move.0 as u64;
    let d = e.depth as u64;
    let f = flag_bits(e.flag);
    let s = stored_score(e.score) as u64;
    let a = e.age as u64;
    assert(f < 3 && d < 256 && m < 65536 && s < 65536 && a < 256 ==> {
        let x = (m << 10u64) | (d << 2u64) | f | (s << 26u64) | (a << 42u64);
        &&& x & 3u64 == f
        &&& (x & 0x3FCu64) >> 2u64 == d
        &&& (x & 0x3FF_FC00u64) >> 10u64 == m
        &&& (x & 0x3FF_FC00_0000u64) >> 26u64 == s
        &&& (x & 0x3_FC00_0000_0000u64) >> 42u64 == a
    }) by (bit_vector);
    assert(stored_score(e.score) == e.score + MATE);
}

/// One slot: the packed word and the key mixed with it, so that a slot
/// written halfway by two writers does not read back as a match.
#[derive(Clone, Copy, Debug)]
pub struct AtomicTTEntry {
    info: u64,
    key: u64,
}

/// What a slot reads back as.
pub open spec fn loaded(s: AtomicTTEntry) -> (u64, u64) {
    (s.spec_info() ^ s.spec_key(), s.spec_info())
}

impl AtomicTTEntry {
    pub closed spec fn spec_info(&self) -> u64 {
        self.info
    }

    pub closed spec fn spec_key(&self) -> u64 {
        self.key
    }

    /// An empty slot.
    pub fn new() -> (r: Self)
        ensures
            r.spec_info() == 0,
            r.spec_key() == 0,
    {
        Self { info: 0, key: 0 }
    }

    /// The stored entry: key unmixed, packed word as is.
    pub fn load(&self) -> (r: TTPacked)
        ensures
            r.spec_key() == loaded(*self).0,
            r.spec_info() == loaded(*self).1,
    {
        TTPacked { key: self.info ^ self.key, info: self.info }
    }

    /// Stores `packed_entry`; loading then gives it back.
    pub fn store(&mut self, packed_entry: &TTPacked)
        ensures
            final(self).spec_info() == packed_entry.spec_info(),
            final(self).spec_key() == packed_entry.spec_key() ^ packed_entry.spec_info(),
            loaded(*final(self)) == (packed_entry.spec_key(), packed_entry.spec_info()),
    {
        let k = packed_entry.key;
        let i = packed_entry.info;
        assert(i ^ (k ^ i) == k) by (bit_vector);
        self.key = k ^ i;
        self.info = i;
    }
}

/// Four slots that share one table index.
#[derive(Clone, Copy, Debug)]
pub struct TTBucket {
    pub slots: [AtomicTTEntry; 4],
}

/// The first slot of `b`, from `i` on, that is empty or holds `key`; 4 when none.
pub open spec fn first_open(b: Seq<(u64, u64)>, key: u64, i: int) -> int
    decreases 4 - i,
{
    if i >= 4 {
        4
    } else if b[i].0 == 0 || b[i].0 == key {
        i
    } else {
        first_open(b, key, i + 1)
    }
}

/// The first slot of `b`, from `i` on, holding `key`; 4 when none.
pub open spec fn first_hit(b: Seq<(u64, u64)>, key: u64, i: int) -> int
    decreases 4 - i,
{
    if i >= 4 {
        4
    } else if b[i].0 == key {
        i
    } else {
        first_hit(b, key, i + 1)
    }
}

/// How much a stored entry is worth keeping: depth first, then exact
/// scores over lower bounds over upper bounds, less its age.
pub open spec fn replace_value(info: u64, cur_gen: u8) -> int {
    info_depth(info) * 16 + (if info_flag(info) == 0 {
        16int
    } else if info_flag(info) == 1 {
        4int
    } else {
        0int
    }) - cur_gen.wrapping_sub(info_age(info)) as int * AGE_PENALTY
}

/// The least worth keeping among the first `n` slots, the earliest on a tie.
pub open spec fn victim_upto(b: Seq<(u64, u64)>, cur_gen: u8, n: int) -> int
    decreases n,
{
    if n <= 1 {
        0
    } else {
        let v = victim_upto(b, cur_gen, n - 1);
        if replace_value(b[n - 1].1, cur_gen) < replace_value(b[v].1, cur_gen) {
            n - 1
        } else {
            v
        }
    }
}

/// The entry written for `e` when slot `i` already holds its key: a null
/// best move gives way to the stored one when that is not null.
pub open spec fn rescued(b: Seq<(u64, u64)>, e: TTEntry, i: int) -> TTEntry {
    if e.best_move.0 == 0 && info_move(b[i].1) != 0 {
        TTEntry { best_move: Move(info_move(b[i].1)), ..e }
    } else {
        e
    }
}

/// A bucket after storing `e`: the first empty slot takes it; a slot
/// holding its key takes it (move rescued) unless that slot is deeper;
/// otherwise the slot least worth keeping takes it.
pub open spec fn store_bucket(b: Seq<(u64, u64)>, e: TTEntry, cur_gen: u8) -> Seq<(u64, u64)> {
    let j = first_open(b, e.key, 0);
    if j < 4 {
        if b[j].0 == 0 {
            b.update(j, (e.key, pack_info(e)))
        } else if info_depth(pack_info(rescued(b, e, j))) >= info_depth(b[j].1) {
            b.update(j, (e.key, pack_info(rescued(b, e, j))))
        } else {
            b
        }
    } else {
        b.update(victim_upto(b, cur_gen, 4), (e.key, pack_info(e)))
    }
}

/// The bucket of a key: its low bits under the mask.
pub open spec fn bucket_index(key: u64, mask: usize) -> int {
    ((key as usize) & mask) as int
}

/// The best move of the table's entry for `key`, if it holds one.
pub open spec fn stored_move(t: TranspositionTable, key: u64) -> Option<Move> {
    let b = t.buckets()[bucket_index(key, t.spec_mask())];
    let j = first_hit(b, key, 0);
    if j < 4 { Some(Move(info_move(b[j].1))) } else { None }
}

/// A table of buckets, indexed by the low bits of the key, and the current
/// generation that ages entries.
pub struct TranspositionTable {
    table: Vec<TTBucket>,
    generation: u8,
    mask: usize,
}

pub open spec fn is_pow2(n: int) -> bool
    decreases n,
{
    if n <= 0 {
        false
    } else if n == 1 {
        true
    } else {
        n % 2 == 0 && is_pow2(n / 2)
    }
}

impl TranspositionTable {
    /// The buckets as they read back, slot by slot.
    pub closed spec fn buckets(&self) -> Seq<Seq<(u64, u64)>> {
        Seq::new(self.table.len() as nat, |b: int| Seq::new(4, |i: int| loaded(self.table@[b].slots[i])))
    }

    pub closed spec fn spec_mask(&self) -> usize {
        self.mask
    }

    pub closed spec fn spec_generation(&self) -> u8 {
        self.generation
    }

    /// The bucket count is a power of two one above the mask, and every
    /// stored flag names a flag.
    pub closed spec fn wf(&self) -> bool {
        &&& self.table.len() == self.mask + 1
        &&& is_pow2(self.table.len() as int)
        &&& forall|b: int, i: int| 0 <= b < self.table.len() && 0 <= i < 4 ==> info_flag(#[trigger] self.table@[b].slots[i].spec_info()) < 3
    }
}


impl TranspositionTable {
    /// A well-formed table has a power-of-two number of buckets, the mask is
    /// one less, every key's bucket index is a bucket, and every bucket has
    /// four slots.
    pub proof fn lemma_shape(&self)
        requires
            self.wf(),
        ensures
            is_pow2(self.buckets().len() as int),
            self.spec_mask() + 1 == self.buckets().len(),
            forall|key: u64| 0 <= #[trigger] bucket_index(key, self.spec_mask()) < self.buckets().len(),
            forall|b: int| 0 <= b < self.buckets().len() ==> (#[trigger] self.buckets()[b]).len() == 4,
    {
        assert forall|key: u64| 0 <= #[trigger] bucket_index(key, self.spec_mask()) < self.buckets().len() by {
            lemma_index_in_mask(key, self.spec_mask());
        }
    }

    /// In a table whose slots are all empty, as after `new` or `clear`, no
    /// nonzero key is found.
    pub proof fn lemma_empty_misses(&self, key: u64)
        requires
            self.wf(),
            key != 0,
            forall|b: int, i: int| 0 <= b < self.buckets().len() && 0 <= i < 4 ==> #[trigger] self.buckets()[b][i] == (0u64, 0u64),
        ensures
            first_hit(self.buckets()[bucket_index(key, self.spec_mask())], key, 0) == 4,
            stored_move(*self, key) is None,
    {
        self.lemma_shape();
        let b = self.buckets()[bucket_index(key, self.spec_mask())];
        assert(b[0] == (0u64, 0u64) && b[1] == (0u64, 0u64) && b[2] == (0u64, 0u64) && b[3] == (0u64, 0u64));
        reveal_with_fuel(first_hit, 5);
    }
}

/// After storing an entry the table finds its key; when the key was not
/// there before, it finds the stored move.
pub proof fn lemma_table_store_then_probe(before: TranspositionTable, after: TranspositionTable, e: TTEntry)
    requires
        before.wf(),
        after.spec_mask() == before.spec_mask(),
        after.buckets() == before.buckets().update(
            bucket_index(e.key, before.spec_mask()),
            store_bucket(before.buckets()[bucket_index(e.key, before.spec_mask())], e, before.spec_generation()),
        ),
        e.depth < 256,
        -MATE <= e.score < 65536 - MATE,
        e.score < 32768,
    ensures
        stored_move(after, e.key) is Some,
        first_hit(before.buckets()[bucket_index(e.key, before.spec_mask())], e.key, 0) == 4
            ==> stored_move(after, e.key) == Some(e.best_move),
{
    before.lemma_shape();
    let i = bucket_index(e.key, before.spec_mask());
    assert(after.buckets()[i] == store_bucket(before.buckets()[i], e, before.spec_generation()));
    lemma_store_then_probe(before.buckets()[i], e, before.spec_generation());
    lemma_pack_roundtrip(e);
}

/// The bucket index is within the mask.
proof fn lemma_index_in_mask(key: u64, mask: usize)
    ensures
        0 <= bucket_index(key, mask) <= mask,
{
    let k = key as usize;
    assert(k & mask <= mask) by (bit_vector);
}

/// Twice a power of two is one.
proof fn lemma_pow2_double(p: int)
    requires
        is_pow2(p),
    ensures
        is_pow2(2 * p),
{
    assert((2 * p) / 2 == p);
}

/// What an entry is worth keeping, in `i32`.
fn replace_score(entry: &TTPacked, cur_gen: u8) -> (r: i32)
    requires
        entry.wf(),
    ensures
        r == replace_value(entry.spec_info(), cur_gen),
        -3060 <= r <= 4096,
{
    let age = cur_gen.wrapping_sub(entry.age());
    let flag_bonus: i32 = match entry.flag() {
        TTFlag::Exact => 16,
        TTFlag::LowerBound => 4,
        TTFlag::UpperBound => 0,
    };
    let age_pen = age as i32 * AGE_PENALTY;
    (entry.depth() as i32) * 16 + flag_bonus - age_pen
}

impl TranspositionTable {
    /// A table of `mb` megabytes, rounded down to a power of two buckets,
    /// all slots empty, generation 0.
    pub fn new(mb: usize) -> (r: Self)
        requires
            1 <= mb,
            mb * 1024 * 1024 <= usize::MAX,
        ensures
            r.wf(),
            r.spec_generation() == 0,
            r.buckets().len() <= mb * 16384 < 2 * r.buckets().len(),
            forall|b: int, i: int| 0 <= b < r.buckets().len() && 0 <= i < 4 ==> #[trigger] r.buckets()[b][i] == (0u64, 0u64),
    {
        let bytes = mb * 1024 * 1024;
        let num = bytes / BUCKET_BYTES;
        let mut p: usize = 1;
        while p <= num / 2
            invariant
                1 <= p <= num,
                num == mb * 16384,
                is_pow2(p as int),
            decreases num - p,
        {
            proof {
                lemma_pow2_double(p as int);
            }
            p = p * 2;
        }
        let mut table: Vec<TTBucket> = Vec::new();
        let mut k: usize = 0;
        while k < p
            invariant
                k <= p,
                table.len() == k,
                forall|b: int, i: int| 0 <= b < k && 0 <= i < 4 ==> (#[trigger] table@[b].slots[i]).spec_info() == 0
                    && table@[b].slots[i].spec_key() == 0,
            decreases p - k,
        {
            let e = AtomicTTEntry::new();
            table.push(TTBucket { slots: [e, e, e, e] });
            k += 1;
        }
        let r = Self { table, generation: 0, mask: p - 1 };
        proof {
            assert forall|b: int, i: int| 0 <= b < r.buckets().len() && 0 <= i < 4 implies #[trigger] r.buckets()[b][i] == (0u64, 0u64) by {
                assert(r.table@[b].slots[i].spec_info() == 0 && r.table@[b].slots[i].spec_key() == 0);
                crate::bits::lemma_zero_ops(0);
            }
            crate::bits::lemma_zero_ops(0);
            assert forall|b: int, i: int| 0 <= b < r.table.len() && 0 <= i < 4 implies info_flag(#[trigger] r.table@[b].slots[i].spec_info()) < 3 by {
                assert(r.table@[b].slots[i].spec_info() == 0);
            }
        }
        r
    }

    /// How many entries the table holds and how many megabytes it takes.
    pub fn info(&self) -> (r: (usize, usize))
        requires
            self.buckets().len() * 64 <= usize::MAX,
        ensures
            r.0 == self.buckets().len() * 4,
            r.1 == self.buckets().len() * 64 / (1024 * 1024),
    {
        (self.table.len() * TT_SLOT_SIZE, self.table.len() * BUCKET_BYTES / (1024 * 1024))
    }

    /// The first entry of the key's bucket that holds the key, if any.
    pub fn probe(&self, key: u64) -> (r: Option<TTPacked>)
        requires
            self.wf(),
        ensures
            ({
                let b = self.buckets()[bucket_index(key, self.spec_mask())];
                let j = first_hit(b, key, 0);
                if j < 4 {
                    r matches Some(p) && p.spec_key() == key && p.spec_info() == b[j].1 && p.wf()
                } else {
                    r is None
                }
            }),
    {
        proof {
            lemma_index_in_mask(key, self.mask);
        }
        let index = (key as usize) & self.mask;
        let bucket = self.table[index];
        let ghost b = self.buckets()[index as int];
        let mut i: usize = 0;
        while i < 4
            invariant
                i <= 4,
                self.wf(),
                index < self.table.len(),
                index as int == bucket_index(key, self.spec_mask()),
                bucket == self.table@[index as int],
                b == self.buckets()[index as int],
                first_hit(b, key, 0) == first_hit(b, key, i as int),
            decreases 4 - i,
        {
            let packed = bucket.slots[i].load();
            assert(b[i as int] == loaded(bucket.slots[i as int]));
            assert(info_flag(self.table@[index as int].slots[i as int].spec_info()) < 3);
            if packed.key == key {
                assert(first_hit(b, key, i as int) == i as int);
                return Some(packed);
            }
            i += 1;
        }
        None
    }
}

impl TranspositionTable {
    /// Writes `p` into slot `i` of bucket `index`, which holds `bucket`.
    fn write_slot(&mut self, index: usize, bucket: TTBucket, i: usize, p: &TTPacked)
        requires
            old(self).wf(),
            index < old(self).buckets().len(),
            bucket == old(self).table@[index as int],
            i < 4,
            p.wf(),
        ensures
            final(self).wf(),
            final(self).spec_mask() == old(self).spec_mask(),
            final(self).spec_generation() == old(self).spec_generation(),
            final(self).buckets() == old(self).buckets().update(
                index as int,
                old(self).buckets()[index as int].update(i as int, (p.spec_key(), p.spec_info())),
            ),
    {
        let ghost before = self.buckets();
        let mut bucket = bucket;
        let mut slot = bucket.slots[i];
        slot.store(p);
        bucket.slots[i] = slot;
        self.table.set(index, bucket);
        proof {
            let nb = Seq::new(4, |k: int| loaded(self.table@[index as int].slots[k]));
            assert(nb =~= before[index as int].update(i as int, (p.spec_key(), p.spec_info())));
            assert(self.buckets() =~= before.update(index as int, nb));
            assert forall|b: int, k: int| 0 <= b < self.table.len() && 0 <= k < 4 implies info_flag(
                #[trigger] self.table@[b].slots[k].spec_info(),
            ) < 3 by {
                if b != index as int || k != i as int {
                    assert(self.table@[b].slots[k] == old(self).table@[b].slots[k]);
                }
            }
        }
    }

    /// Stores `new_entry` in its key's bucket by the replacement rule of
    /// `store_bucket`; no other bucket changes.
    pub fn store(&mut self, new_entry: TTEntry)
        requires
            old(self).wf(),
            -0x8000_0000 <= new_entry.score + MATE <= 0x7fff_ffff,
        ensures
            final(self).wf(),
            final(self).spec_mask() == old(self).spec_mask(),
            final(self).spec_generation() == old(self).spec_generation(),
            final(self).buckets() == old(self).buckets().update(
                bucket_index(new_entry.key, old(self).spec_mask()),
                store_bucket(old(self).buckets()[bucket_index(new_entry.key, old(self).spec_mask())], new_entry, old(self).spec_generation()),
            ),
    {
        let mut entry = new_entry;
        let mut new_packed = TTPacked::new(entry);
        proof {
            lemma_index_in_mask(new_packed.key, self.mask);
        }
        let index = (new_packed.key as usize) & self.mask;
        let bucket = self.table[index];
        let ghost b = self.buckets()[index as int];
        let ghost key = new_entry.key;
        let mut victim_idx: usize = 0;
        let mut lowest: i32 = i32::MAX;
        let cur_gen = self.generation;
        let mut i: usize = 0;
        while i < 4
            invariant
                i <= 4,
                self.wf(),
                self == old(self),
                index < self.table.len(),
                index as int == bucket_index(key, self.spec_mask()),
                key == new_entry.key,
                -0x8000_0000 <= new_entry.score + MATE <= 0x7fff_ffff,
                bucket == self.table@[index as int],
                b == self.buckets()[index as int],
                entry == new_entry,
                new_packed.spec_key() == key,
                new_packed.spec_info() == pack_info(new_entry),
                new_packed.wf(),
                cur_gen == self.spec_generation(),
                first_open(b, key, 0) == first_open(b, key, i as int),
                victim_idx < 4,
                i == 0 ==> victim_idx == 0 && lowest == i32::MAX,
                i > 0 ==> victim_idx == victim_upto(b, cur_gen, i as int) && lowest == replace_value(b[victim_idx as int].1, cur_gen),
            decreases 4 - i,
        {
            let tt_entry = bucket.slots[i].load();
            assert(b[i as int] == loaded(bucket.slots[i as int]));
            assert(info_flag(self.table@[index as int].slots[i as int].spec_info()) < 3);
            if tt_entry.key == 0 {
                assert(first_open(b, key, i as int) == i as int);
                self.write_slot(index, bucket, i, &new_packed);
                return;
            }
            if tt_entry.key == new_packed.key {
                assert(first_open(b, key, i as int) == i as int);
                if entry.best_move.0 == 0 {
                    let old_move = tt_entry.best_move();
                    if old_move.0 != 0 {
                        entry.best_move = old_move;
                        new_packed = TTPacked::new(entry);
                    }
                }
                assert(entry == rescued(b, new_entry, i as int));
                if new_packed.depth() >= tt_entry.depth() {
                    self.write_slot(index, bucket, i, &new_packed);
                } else {
                    assert(self.buckets() =~= old(self).buckets().update(index as int, b));
                }
                return;
            }
            assert(first_open(b, key, i as int) == first_open(b, key, i as int + 1));
            let score = replace_score(&tt_entry, cur_gen);
            if score < lowest {
                lowest = score;
                victim_idx = i;
            }
            i += 1;
        }
        self.write_slot(index, bucket, victim_idx, &new_packed);
    }

    /// Empties every slot and sets the generation back to 0.
    pub fn clear(&mut self)
        requires
            old(self).wf(),
        ensures
            final(self).wf(),
            final(self).spec_mask() == old(self).spec_mask(),
            final(self).spec_generation() == 0,
            final(self).buckets().len() == old(self).buckets().len(),
            forall|b: int, i: int| 0 <= b < final(self).buckets().len() && 0 <= i < 4 ==> #[trigger] final(self).buckets()[b][i] == (0u64, 0u64),
    {
        let n = self.table.len();
        let mut k: usize = 0;
        let e = AtomicTTEntry::new();
        while k < n
            invariant
                k <= n,
                n == self.table.len(),
                self.table.len() == old(self).table.len(),
                self.mask == old(self).mask,
                self.wf(),
                forall|b: int, i: int| 0 <= b < k && 0 <= i < 4 ==> (#[trigger] self.table@[b].slots[i]).spec_info() == 0
                    && self.table@[b].slots[i].spec_key() == 0,
                e.spec_info() == 0 && e.spec_key() == 0,
            decreases n - k,
        {
            self.table.set(k, TTBucket { slots: [e, e, e, e] });
            proof {
                crate::bits::lemma_zero_ops(0);
                assert forall|b: int, i: int| 0 <= b < self.table.len() && 0 <= i < 4 implies info_flag(
                    #[trigger] self.table@[b].slots[i].spec_info(),
                ) < 3 by {
                    if b != k as int {
                        assert(self.table@[b] == old(self).table@[b] || true);
                    }
                }
            }
            k += 1;
        }
        self.generation = 0;
        proof {
            assert forall|b: int, i: int| 0 <= b < self.buckets().len() && 0 <= i < 4 implies #[trigger] self.buckets()[b][i] == (0u64, 0u64) by {
                assert(self.table@[b].slots[i].spec_info() == 0 && self.table@[b].slots[i].spec_key() == 0);
                crate::bits::lemma_zero_ops(0);
            }
        }
    }

    /// Starts a new search generation; wraps past 255.
    pub fn inc_generation(&mut self)
        requires
            old(self).wf(),
        ensures
            final(self).wf(),
            final(self).buckets() == old(self).buckets(),
            final(self).spec_mask() == old(self).spec_mask(),
            final(self).spec_generation() == old(self).spec_generation().wrapping_add(1),
    {
        self.generation = self.generation.wrapping_add(1);
    }

    /// The current generation.
    pub fn get_generation(&self) -> (r: u8)
        ensures
            r == self.spec_generation(),
    {
        self.generation
    }
}

/// After a store, a probe for the same key finds an entry with that key;
/// when the bucket held no entry with the key, the probe finds the stored
/// entry itself.
pub proof fn lemma_store_then_probe(b: Seq<(u64, u64)>, e: TTEntry, cur_gen: u8)
    requires
        b.len() == 4,
    ensures
        first_hit(store_bucket(b, e, cur_gen), e.key, 0) < 4,
        first_hit(b, e.key, 0) == 4 ==> store_bucket(b, e, cur_gen)[first_hit(store_bucket(b, e, cur_gen), e.key, 0)] == (
            e.key,
            pack_info(e),
        ),
{
    let j = first_open(b, e.key, 0);
    let s = store_bucket(b, e, cur_gen);
    lemma_victim_range(b, cur_gen, 4);
    lemma_open_scan(b, e.key);
    lemma_hit_scan(b, e.key);
    assert(s.len() == 4);
    if j < 4 {
        assert forall|k: int| 0 <= k < j implies s[k].0 != e.key by {
            assert(s[k] == b[k]);
        }
        lemma_hit_at(s, e.key, j);
    } else {
        let v = victim_upto(b, cur_gen, 4);
        assert forall|k: int| 0 <= k < v implies s[k].0 != e.key by {
            assert(s[k] == b[k]);
        }
        lemma_hit_at(s, e.key, v);
    }
}

proof fn lemma_victim_range(b: Seq<(u64, u64)>, cur_gen: u8, n: int)
    requires
        1 <= n,
    ensures
        0 <= victim_upto(b, cur_gen, n) < n,
    decreases n,
{
    if n > 1 {
        lemma_victim_range(b, cur_gen, n - 1);
    }
}

/// `first_open` is the first empty or matching slot.
proof fn lemma_open_scan(b: Seq<(u64, u64)>, key: u64)
    ensures
        ({
            let j = first_open(b, key, 0);
            &&& 0 <= j <= 4
            &&& forall|k: int| 0 <= k < j ==> b[k].0 != 0 && b[k].0 != key
            &&& j < 4 ==> (b[j].0 == 0 || b[j].0 == key)
        }),
{
    reveal_with_fuel(first_open, 5);
}

/// `first_hit` is the first matching slot.
proof fn lemma_hit_scan(b: Seq<(u64, u64)>, key: u64)
    ensures
        ({
            let j = first_hit(b, key, 0);
            &&& 0 <= j <= 4
            &&& forall|k: int| 0 <= k < j ==> b[k].0 != key
            &&& j < 4 ==> b[j].0 == key
        }),
{
    reveal_with_fuel(first_hit, 5);
}

/// A slot holding the key with no earlier one is the first hit.
proof fn lemma_hit_at(b: Seq<(u64, u64)>, key: u64, j: int)
    requires
        0 <= j < 4,
        b[j].0 == key,
        forall|k: int| 0 <= k < j ==> b[k].0 != key,
    ensures
        first_hit(b, key, 0) == j,
{
    reveal_with_fuel(first_hit, 5);
}

} // verus!
