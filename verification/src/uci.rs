//! The `go` and `setoption` commands' parameters and their parsing, and
//! decimal numbers as UCI writes them.
use vstd::prelude::*;
use vstd::string::StringSliceAdditionalSpecFns;
use crate::board::{Board, lemma_make_undo};
use crate::items::{Move, move_text};
use crate::move_pick::good_move;
use crate::perft::{sane, lemma_sane_child};
use crate::search::{line_legal, play};

verus! {

/// The value of a run of decimal digits.
pub open spec fn digits_value(s: Seq<u8>) -> int
    decreases s.len(),
{
    if s.len() == 0 {
        0
    } else {
        digits_value(s.drop_last()) * 10 + (s.last() - 48)
    }
}

/// Every byte is a decimal digit.
pub open spec fn all_digits(s: Seq<u8>) -> bool {
    forall|i: int| 0 <= i < s.len() ==> 48 <= #[trigger] s[i] <= 57
}

/// The digits of a number: the text without one leading `+`.
pub open spec fn number_body(s: Seq<u8>) -> Seq<u8> {
    if s.len() > 0 && s[0] == 43 {
        s.subrange(1, s.len() as int)
    } else {
        s
    }
}

/// The unsigned number written in `s` (an optional `+`, then at least
/// one digit) when it is at most `max`.
pub open spec fn dec_value(s: Seq<u8>, max: int) -> Option<int> {
    let b = number_body(s);
    if b.len() > 0 && all_digits(b) && digits_value(b) <= max {
        Some(digits_value(b))
    } else {
        None
    }
}

proof fn lemma_digits_grow(s: Seq<u8>, n: int)
    requires
        0 <= n <= s.len(),
        all_digits(s),
    ensures
        digits_value(s.subrange(0, n)) <= digits_value(s),
        0 <= digits_value(s.subrange(0, n)),
    decreases s.len() - n,
{
    if n < s.len() {
        lemma_digits_grow(s, n + 1);
        assert(s.subrange(0, n + 1).drop_last() =~= s.subrange(0, n));
        lemma_digits_nonneg(s.subrange(0, n));
    } else {
        assert(s.subrange(0, n) =~= s);
        lemma_digits_nonneg(s);
    }
}

proof fn lemma_digits_nonneg(s: Seq<u8>)
    requires
        all_digits(s),
    ensures
        0 <= digits_value(s),
    decreases s.len(),
{
    if s.len() > 0 {
        lemma_digits_nonneg(s.drop_last());
    }
}

/// Parses an unsigned decimal number no larger than `max` (`dec_value`).
pub fn parse_dec(s: &str, max: u64) -> (r: Option<u64>)
    ensures
        r == (match dec_value(s.spec_bytes(), max as int) {
            Some(v) => Some(v as u64),
            None => None::<u64>,
        }),
{
    let b = s.as_bytes();
    let ghost bs = s.spec_bytes();
    let n = b.len();
    let start: usize = if n > 0 && b[0] == 43 {
        1
    } else {
        0
    };
    let ghost body = number_body(bs);
    assert(body =~= bs.subrange(start as int, n as int));
    if start >= n {
        return None;
    }
    let mut v: u64 = 0;
    let mut i: usize = start;
    while i < n
        invariant
            start <= i <= n,
            n == b@.len(),
            b@ == bs,
            bs == s.spec_bytes(),
            body == number_body(bs),
            body == bs.subrange(start as int, n as int),
            all_digits(body.subrange(0, i - start)),
            v == digits_value(body.subrange(0, i - start)),
            v <= max,
        decreases n - i,
    {
        let c = b[i];
        if c < 48 || c > 57 {
            proof {
                assert(body[i - start] == c);
            }
            return None;
        }
        let d = (c - 48) as u64;
        proof {
            assert(body.subrange(0, i - start + 1).drop_last() =~= body.subrange(0, i - start));
            assert(body.subrange(0, i - start + 1).last() == c);
        }
        if d > max || v > (max - d) / 10 {
            proof {
                assert(v * 10 + d > max) by (nonlinear_arith)
                    requires
                        d > max || v > (max - d) / 10,
                        0 <= d <= 9,
                        0 <= v,
                ;
                if all_digits(body) {
                    lemma_digits_grow(body, i - start + 1);
                }
            }
            return None;
        }
        assert(v * 10 + d <= max) by (nonlinear_arith)
            requires
                v <= (max - d) / 10,
                d <= max,
                0 <= d <= 9,
        ;
        v = v * 10 + d;
        i += 1;
    }
    assert(body.subrange(0, n - start) =~= body);
    Some(v)
}

/// The parameters of a `go` command.
#[derive(Debug)]
pub struct GoControl {
    pub wtime: Option<u64>,
    pub btime: Option<u64>,
    pub winc: Option<u64>,
    pub binc: Option<u64>,
    pub movestogo: Option<u64>,
    pub depth: Option<u16>,
    pub movetime: Option<u64>,
    pub nodes: Option<u64>,
    pub mate: Option<u64>,
    pub infinite: bool,
}

impl GoControl {
    /// No parameter given.
    pub fn default() -> (r: Self)
        ensures
            r == GoControl::none(),
    {
        GoControl {
            wtime: None,
            btime: None,
            winc: None,
            binc: None,
            movestogo: None,
            depth: None,
            movetime: None,
            nodes: None,
            mate: None,
            infinite: false,
        }
    }

    /// The control with no parameter.
    pub open spec fn none() -> GoControl {
        GoControl {
            wtime: None,
            btime: None,
            winc: None,
            binc: None,
            movestogo: None,
            depth: None,
            movetime: None,
            nodes: None,
            mate: None,
            infinite: false,
        }
    }
}

/// The keywords of `go`, as bytes.
pub const WTIME: [u8; 5] = [119, 116, 105, 109, 101];
pub const BTIME: [u8; 5] = [98, 116, 105, 109, 101];
pub const WINC: [u8; 4] = [119, 105, 110, 99];
pub const BINC: [u8; 4] = [98, 105, 110, 99];
pub const MOVESTOGO: [u8; 9] = [109, 111, 118, 101, 115, 116, 111, 103, 111];
pub const DEPTH: [u8; 5] = [100, 101, 112, 116, 104];
pub const NODES: [u8; 5] = [110, 111, 100, 101, 115];
pub const MATE: [u8; 4] = [109, 97, 116, 101];
pub const MOVETIME: [u8; 8] = [109, 111, 118, 101, 116, 105, 109, 101];
pub const INFINITE: [u8; 8] = [105, 110, 102, 105, 110, 105, 116, 101];

/// The number after keyword `i`, if there is a next token and it is one.
pub open spec fn next_number(toks: Seq<Seq<u8>>, i: int, max: int) -> Option<int> {
    if i + 1 < toks.len() {
        dec_value(toks[i + 1], max)
    } else {
        None
    }
}

/// A 64-bit number after keyword `i`.
pub open spec fn arg64(toks: Seq<Seq<u8>>, i: int) -> Option<u64> {
    match next_number(toks, i, u64::MAX as int) {
        Some(v) => Some(v as u64),
        None => None,
    }
}

/// What the tokens from `i` on make of the control `c`: each keyword
/// takes the next token as its number (none if it is not one, or is
/// missing), `infinite` is set by itself, anything else is skipped.
pub open spec fn go_from(toks: Seq<Seq<u8>>, i: int, c: GoControl) -> GoControl
    decreases toks.len() + 1 - i,
{
    if i < 0 || i >= toks.len() {
        c
    } else {
        let w = toks[i];
        if w == WTIME@ {
            go_from(toks, i + 2, GoControl { wtime: arg64(toks, i), ..c })
        } else if w == BTIME@ {
            go_from(toks, i + 2, GoControl { btime: arg64(toks, i), ..c })
        } else if w == WINC@ {
            go_from(toks, i + 2, GoControl { winc: arg64(toks, i), ..c })
        } else if w == BINC@ {
            go_from(toks, i + 2, GoControl { binc: arg64(toks, i), ..c })
        } else if w == MOVESTOGO@ {
            go_from(toks, i + 2, GoControl { movestogo: arg64(toks, i), ..c })
        } else if w == DEPTH@ {
            go_from(
                toks,
                i + 2,
                GoControl {
                    depth: match next_number(toks, i, u16::MAX as int) {
                        Some(v) => Some(v as u16),
                        None => None,
                    },
                    ..c
                },
            )
        } else if w == NODES@ {
            go_from(toks, i + 2, GoControl { nodes: arg64(toks, i), ..c })
        } else if w == MATE@ {
            go_from(toks, i + 2, GoControl { mate: arg64(toks, i), ..c })
        } else if w == MOVETIME@ {
            go_from(toks, i + 2, GoControl { movetime: arg64(toks, i), ..c })
        } else if w == INFINITE@ {
            go_from(toks, i + 1, GoControl { infinite: true, ..c })
        } else {
            go_from(toks, i + 1, c)
        }
    }
}

/// The bytes of each token.
pub open spec fn token_bytes(toks: Seq<&str>) -> Seq<Seq<u8>> {
    Seq::new(toks.len(), |i: int| toks[i].spec_bytes())
}

/// Whether the bytes of `s` are those of `w`.
pub fn is_word<const N: usize>(s: &str, w: &[u8; N]) -> (r: bool)
    ensures
        r == (s.spec_bytes() == w@),
{
    let b = s.as_bytes();
    if b.len() != N {
        return false;
    }
    let mut i: usize = 0;
    while i < b.len()
        invariant
            i <= b@.len(),
            b@.len() == w@.len(),
            b@ == s.spec_bytes(),
            forall|j: int| 0 <= j < i ==> b@[j] == w@[j],
        decreases b@.len() - i,
    {
        if b[i] != w[i] {
            return false;
        }
        i += 1;
    }
    assert(b@ =~= w@);
    true
}

/// The 64-bit number in token `i + 1`, if any.
fn number_after(toks: &[&str], i: usize, max: u64) -> (r: Option<u64>)
    requires
        i < toks@.len(),
    ensures
        r == (match next_number(token_bytes(toks@), i as int, max as int) {
            Some(v) => Some(v as u64),
            None => None::<u64>,
        }),
{
    if toks.len() - i > 1 {
        parse_dec(toks[i + 1], max)
    } else {
        None
    }
}

/// The index two tokens on, or the end when that is past it.
fn skip_two(i: usize, n: usize) -> (r: usize)
    requires
        i < n,
    ensures
        r == (if i + 2 <= n { i + 2 } else { n as int }),
{
    if n - i >= 2 {
        i + 2
    } else {
        n
    }
}

impl GoControl {
    /// Reads the parameters of a `go` command from its tokens (`go_from`).
    pub fn parse(toks: &[&str]) -> (r: GoControl)
        ensures
            r == go_from(token_bytes(toks@), 0, GoControl::none()),
    {
        let ghost tb = token_bytes(toks@);
        let mut ctrl = GoControl::default();
        let mut i: usize = 0;
        while i < toks.len()
            invariant
                i <= toks@.len(),
                tb == token_bytes(toks@),
                go_from(tb, i as int, ctrl) == go_from(tb, 0, GoControl::none()),
            decreases toks@.len() + 1 - i,
        {
            let arg = toks[i];
            assert(tb[i as int] == arg.spec_bytes());
            let ghost i0 = i as int;
            let ghost c0 = ctrl;
            if is_word(arg, &WTIME) {
                ctrl.wtime = number_after(toks, i, u64::MAX);
                i = skip_two(i, toks.len());
                assert(ctrl == GoControl { wtime: arg64(tb, i0), ..c0 });
                assert(go_from(tb, i0, c0) == go_from(tb, i0 + 2, GoControl { wtime: arg64(tb, i0), ..c0 }));
            } else if is_word(arg, &BTIME) {
                ctrl.btime = number_after(toks, i, u64::MAX);
                i = skip_two(i, toks.len());
            } else if is_word(arg, &WINC) {
                ctrl.winc = number_after(toks, i, u64::MAX);
                i = skip_two(i, toks.len());
            } else if is_word(arg, &BINC) {
                ctrl.binc = number_after(toks, i, u64::MAX);
                i = skip_two(i, toks.len());
            } else if is_word(arg, &MOVESTOGO) {
                ctrl.movestogo = number_after(toks, i, u64::MAX);
                i = skip_two(i, toks.len());
            } else if is_word(arg, &DEPTH) {
                let d = number_after(toks, i, 65535);
                ctrl.depth = match d {
                    Some(v) => Some(v as u16),
                    None => None,
                };
                proof {
                    match next_number(tb, i as int, u16::MAX as int) {
                        Some(v) => {
                            lemma_digits_nonneg(number_body(tb[i + 1]));
                            assert(0 <= v <= 65535);
                            assert(d == Some(v as u64));
                            assert(ctrl.depth == Some(v as u16));
                        },
                        None => {},
                    }
                }
                i = skip_two(i, toks.len());
            } else if is_word(arg, &NODES) {
                ctrl.nodes = number_after(toks, i, u64::MAX);
                i = skip_two(i, toks.len());
            } else if is_word(arg, &MATE) {
                ctrl.mate = number_after(toks, i, u64::MAX);
                i = skip_two(i, toks.len());
            } else if is_word(arg, &MOVETIME) {
                ctrl.movetime = number_after(toks, i, u64::MAX);
                i = skip_two(i, toks.len());
            } else if is_word(arg, &INFINITE) {
                ctrl.infinite = true;
                i += 1;
            } else {
                i += 1;
            }
            assert(go_from(tb, i0, c0) == go_from(tb, i as int, ctrl));
        }
        ctrl
    }
}


/// What a `setoption` command asks for.
#[derive(Debug, Clone, Copy, PartialEq, Eq, Structural)]
pub enum SetOption {
    /// A transposition table of this many megabytes.
    Hash(usize),
    /// This many search threads.
    Threads(u16),
    /// Clear the transposition table.
    ClearHash,
    /// `name` or `value` is missing.
    Incomplete,
    /// An unknown option, or a value that is not a number.
    InvalidOption,
    /// `clear` followed by anything but `hash`.
    InvalidOptionType,
    /// No option named.
    NoOption,
}

/// The option keywords, as bytes.
pub const NAME: [u8; 4] = [110, 97, 109, 101];
pub const VALUE: [u8; 5] = [118, 97, 108, 117, 101];
pub const HASH: [u8; 4] = [104, 97, 115, 104];
pub const THREADS: [u8; 7] = [116, 104, 114, 101, 97, 100, 115];
pub const CLEAR: [u8; 5] = [99, 108, 101, 97, 114];

/// An ASCII letter in lower case; other bytes as they are.
pub open spec fn lower(b: u8) -> u8 {
    if 65 <= b <= 90 {
        (b + 32) as u8
    } else {
        b
    }
}

/// The two byte strings are equal when ASCII case is ignored.
pub open spec fn same_ignoring_case(a: Seq<u8>, b: Seq<u8>) -> bool {
    a.len() == b.len() && forall|i: int| 0 <= i < a.len() ==> lower(#[trigger] a[i]) == lower(b[i])
}

/// Whether the bytes of `s` equal those of `w` when ASCII case is ignored.
pub fn is_word_ignoring_case<const N: usize>(s: &str, w: &[u8; N]) -> (r: bool)
    ensures
        r == same_ignoring_case(s.spec_bytes(), w@),
{
    let b = s.as_bytes();
    if b.len() != N {
        return false;
    }
    let mut i: usize = 0;
    while i < b.len()
        invariant
            i <= b@.len(),
            b@.len() == w@.len(),
            b@ == s.spec_bytes(),
            forall|j: int| 0 <= j < i ==> lower(#[trigger] b@[j]) == lower(w@[j]),
        decreases b@.len() - i,
    {
        let x = b[i];
        let y = w[i];
        let lx = if 65 <= x && x <= 90 {
            x + 32
        } else {
            x
        };
        let ly = if 65 <= y && y <= 90 {
            y + 32
        } else {
            y
        };
        if lx != ly {
            return false;
        }
        i += 1;
    }
    true
}

/// `x` clamped to `lo..=hi`.
pub open spec fn clamp_to(x: int, lo: int, hi: int) -> int {
    if x < lo {
        lo
    } else if x > hi {
        hi
    } else {
        x
    }
}

/// What the tokens after `setoption` ask for: `name`, the option, and
/// for `Hash` (1 to 1048576 MB) and `Threads` (1 to 1024) `value` and a
/// number, clamped; option names ignore case.
pub open spec fn setoption_spec(t: Seq<Seq<u8>>) -> SetOption {
    if t.len() < 1 || t[0] != NAME@ {
        SetOption::Incomplete
    } else if t.len() < 2 {
        SetOption::NoOption
    } else if same_ignoring_case(t[1], HASH@) {
        if t.len() < 3 || t[2] != VALUE@ {
            SetOption::Incomplete
        } else {
            match next_number(t, 2, usize::MAX as int) {
                Some(v) => SetOption::Hash(clamp_to(v, 1, 1_048_576) as usize),
                None => SetOption::InvalidOption,
            }
        }
    } else if same_ignoring_case(t[1], THREADS@) {
        if t.len() < 3 || t[2] != VALUE@ {
            SetOption::Incomplete
        } else {
            match next_number(t, 2, u16::MAX as int) {
                Some(v) => SetOption::Threads(clamp_to(v, 1, 1024) as u16),
                None => SetOption::InvalidOption,
            }
        }
    } else if same_ignoring_case(t[1], CLEAR@) {
        if t.len() >= 3 && same_ignoring_case(t[2], HASH@) {
            SetOption::ClearHash
        } else {
            SetOption::InvalidOptionType
        }
    } else {
        SetOption::InvalidOption
    }
}

/// Reads the tokens after `setoption` (`setoption_spec`).
pub fn parse_setoption(toks: &[&str]) -> (r: SetOption)
    ensures
        r == setoption_spec(token_bytes(toks@)),
{
    let ghost t = token_bytes(toks@);
    let n = toks.len();
    if n < 1 || !is_word(toks[0], &NAME) {
        return SetOption::Incomplete;
    }
    if n < 2 {
        return SetOption::NoOption;
    }
    let name = toks[1];
    if is_word_ignoring_case(name, &HASH) {
        if n < 3 || !is_word(toks[2], &VALUE) {
            return SetOption::Incomplete;
        }
        match number_after(toks, 2, usize::MAX as u64) {
            Some(v) => {
                proof {
                    lemma_digits_nonneg(number_body(t[3]));
                }
                let c = if v < 1 {
                    1
                } else if v > 1_048_576 {
                    1_048_576
                } else {
                    v
                };
                SetOption::Hash(c as usize)
            },
            None => SetOption::InvalidOption,
        }
    } else if is_word_ignoring_case(name, &THREADS) {
        if n < 3 || !is_word(toks[2], &VALUE) {
            return SetOption::Incomplete;
        }
        match number_after(toks, 2, 65535) {
            Some(v) => {
                proof {
                    lemma_digits_nonneg(number_body(t[3]));
                }
                let c = if v < 1 {
                    1
                } else if v > 1024 {
                    1024
                } else {
                    v
                };
                SetOption::Threads(c as u16)
            },
            None => SetOption::InvalidOption,
        }
    } else if is_word_ignoring_case(name, &CLEAR) {
        if n >= 3 && is_word_ignoring_case(toks[2], &HASH) {
            SetOption::ClearHash
        } else {
            SetOption::InvalidOptionType
        }
    } else {
        SetOption::InvalidOption
    }
}


impl Move {
    /// The generated legal move whose coordinate text (`e2e4`, `e7e8q`) is
    /// `mv_str`, if there is one; the board is left as it was.
    pub fn from_uci(mv_str: &str, board: &mut Board) -> (r: Option<Move>)
        requires
            sane(*old(board)),
        ensures
            *final(board) == *old(board),
            r matches Some(m) ==> good_move(old(board)@, m) && move_text(m) == mv_str@,
            r is None ==> forall|m: Move| good_move(old(board)@, m) ==> move_text(m) != mv_str@,
    {
        let moves = board.gen_moves();
        let target = mv_str.to_owned();
        let mut i: usize = 0;
        while i < moves.len()
            invariant
                i <= moves@.len(),
                target@ == mv_str@,
                *board == *old(board),
                forall|k: int| 0 <= k < moves@.len() ==> good_move(board@, #[trigger] moves@[k]),
                forall|k: int| 0 <= k < i ==> move_text(#[trigger] moves@[k]) != mv_str@,
            decreases moves@.len() - i,
        {
            let m = moves[i];
            if m.to_coord() == target {
                return Some(m);
            }
            i += 1;
        }
        proof {
            let v = board@;
            assert forall|m: Move| good_move(v, m) implies move_text(m) != mv_str@ by {
                if crate::movegen::castle_move(v, m) {
                    crate::perft::lemma_castle_home(*board, m);
                }
                assert(moves@.contains(m));
                let j = choose|j: int| 0 <= j < moves@.len() && moves@[j] == m;
                assert(move_text(moves@[j]) != mv_str@);
            }
        }
        None
    }
}

impl Board {
    /// Plays the moves of a `position` command in order, each given by its
    /// coordinate text, up to the first that is not a legal move here.
    /// Returns the moves played.
    pub fn play_moves(&mut self, moves: &[&str]) -> (r: Vec<Move>)
        requires
            sane(*old(self)),
        ensures
            sane(*final(self)),
            r@.len() <= moves@.len(),
            forall|i: int| 0 <= i < r@.len() ==> move_text(#[trigger] r@[i]) == moves@[i]@,
            line_legal(old(self)@, r@),
            final(self)@ == play(old(self)@, r@),
            r@.len() < moves@.len() ==> forall|m: Move| good_move(final(self)@, m) ==> move_text(m) != moves@[r@.len() as int]@,
    {
        let ghost root = self@;
        let mut played: Vec<Move> = Vec::new();
        let mut i: usize = 0;
        while i < moves.len()
            invariant
                i <= moves@.len(),
                played@.len() == i,
                sane(*self),
                forall|k: int| 0 <= k < i ==> move_text(#[trigger] played@[k]) == moves@[k]@,
                line_legal(root, played@),
                self@ == play(root, played@),
            ensures
                i <= moves@.len(),
                played@.len() == i,
                sane(*self),
                forall|k: int| 0 <= k < i ==> move_text(#[trigger] played@[k]) == moves@[k]@,
                line_legal(root, played@),
                self@ == play(root, played@),
                i < moves@.len() ==> forall|m: Move| good_move(self@, m) ==> move_text(m) != moves@[i as int]@,
            decreases moves@.len() - i,
        {
            match Move::from_uci(moves[i], self) {
                Some(mv) => {
                    let ghost b0 = *self;
                    proof {
                        lemma_make_undo(b0, mv);
                    }
                    self.make_move(&mv);
                    proof {
                        lemma_sane_child(b0, mv, *self);
                        assert(played@.push(mv).drop_last() =~= played@);
                    }
                    played.push(mv);
                },
                None => {
                    break;
                },
            }
            i += 1;
        }
        played
    }
}

} // verus!
