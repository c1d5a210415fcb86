use vstd::prelude::*;
use crate::bits::{bit, popcount, count_bits, lemma_count_set_bit, lemma_bit_of_or_single, lemma_count_zero, lemma_nonzero_has_bit, lemma_bit_implies_nonzero};

verus! {

/// Every playable cell occupied: bits `7j .. 7j + 5` of each column `j`, sentinels clear.
pub const FULL_MASK: u64 = 279258638311359;

/// Why a move cannot be applied.
#[derive(Clone, Copy, PartialEq, Eq, Structural, Debug)]
pub enum MoveError {
    /// The column index is not in `0 .. 7`.
    OutOfRange,
    /// The column's top playable row is occupied.
    ColumnFull,
}

/// One connect-four position on a 7 x 6 grid.
///
/// Column `j` owns bits `7j .. 7j + 6`; bit `7j + i` is row `i` counted from the bottom and
/// bit `7j + 6` is a sentinel that stays clear. `position` holds the stones of the side about
/// to move, `mask` every stone, and `moves_count` the number of stones placed.
#[derive(Clone, Copy, PartialEq, Eq, Structural, Debug, Hash)]
pub struct Board {
    pub position: u64,
    pub mask: u64,
    pub moves_count: u8,
}

/// `x` has four set bits at `i`, `i + d`, `i + 2d`, `i + 3d` for some `i`.
pub open spec fn run_of_four(x: u64, d: u64) -> bool {
    exists|i: u64|
        i + 3 * d < 64 && #[trigger] bit(x, i) && bit(x, (i + d) as u64) && bit(
            x,
            (i + 2 * d) as u64,
        ) && bit(x, (i + 3 * d) as u64)
}

/// Four stones in a line: horizontal (7), diagonal (6 and 8) or vertical (1).
pub open spec fn four_connected(x: u64) -> bool {
    run_of_four(x, 7) || run_of_four(x, 6) || run_of_four(x, 8) || run_of_four(x, 1)
}

proof fn lemma_run_bits(x: u64, d: u64, i: u64)
    requires
        1 <= d <= 8,
        i < 64,
    ensures
        ({
            let m = x & (x >> d);
            let y = m & (m >> (2 * d));
            ((y >> i) & 1 == 1) == (i + 3 * d < 64 && (x >> i) & 1 == 1 && (x >> (i + d)) & 1
                == 1 && (x >> (i + 2 * d)) & 1 == 1 && (x >> (i + 3 * d)) & 1 == 1)
        }),
{
    let m = x & (x >> d);
    let y = m & (m >> (2 * d));
    assert(((y >> i) & 1 == 1) == (i + 3 * d < 64 && (x >> i) & 1 == 1 && (x >> (i + d)) & 1
        == 1 && (x >> (i + 2 * d)) & 1 == 1 && (x >> (i + 3 * d)) & 1 == 1)) by (bit_vector)
        requires
            1 <= d <= 8,
            i < 64,
            m == x & (x >> d),
            y == m & (m >> (2 * d)),
    ;
}

/// The shift-and-mask test for one direction detects exactly a run of four.
proof fn lemma_direction(x: u64, d: u64)
    requires
        1 <= d <= 8,
    ensures
        ({
            let m = x & (x >> d);
            (m & (m >> (2 * d)) != 0) == run_of_four(x, d)
        }),
{
    let m = x & (x >> d);
    let y = m & (m >> (2 * d));
    if y != 0 {
        let i = lemma_nonzero_has_bit(y);
        lemma_run_bits(x, d, i);
        assert(bit(x, i));
    }
    if run_of_four(x, d) {
        let i = choose|i: u64|
            i + 3 * d < 64 && #[trigger] bit(x, i) && bit(x, (i + d) as u64) && bit(
                x,
                (i + 2 * d) as u64,
            ) && bit(x, (i + 3 * d) as u64);
        lemma_run_bits(x, d, i);
        lemma_bit_implies_nonzero(y, i);
    }
}

impl Board {
    /// The invariant of every board that play can produce.
    pub open spec fn wf(self) -> bool {
        &&& self.mask & !FULL_MASK == 0
        &&& self.position & !self.mask == 0
        &&& self.moves_count as nat == popcount(self.mask)
    }

    /// Column `mv` exists and its top playable row is empty.
    pub open spec fn column_free(self, mv: u8) -> bool {
        mv < 7 && self.mask & (1u64 << ((7 * mv + 5) as u64)) == 0
    }

    /// The board after a stone is dropped into column `mv`.
    pub open spec fn next(self, mv: u8) -> Board {
        Board {
            position: self.position ^ self.mask,
            mask: self.mask | ((self.mask + (1u64 << ((7 * mv) as u64))) as u64),
            moves_count: (self.moves_count + 1) as u8,
        }
    }

    /// The free columns below `n`, in ascending order.
    pub open spec fn legal_moves_below(self, n: nat) -> Seq<u8>
        decreases n,
    {
        if n == 0 {
            seq![]
        } else {
            let s = self.legal_moves_below((n - 1) as nat);
            if self.column_free((n - 1) as u8) {
                s.push((n - 1) as u8)
            } else {
                s
            }
        }
    }

    /// The free columns, in ascending order.
    pub open spec fn legal_moves(self) -> Seq<u8> {
        self.legal_moves_below(7)
    }

    /// Every playable cell is occupied.
    pub open spec fn full(self) -> bool {
        self.mask == FULL_MASK
    }

    pub fn get_opponent_position(&self) -> (r: u64)
        ensures
            r == self.position ^ self.mask,
            self.wf() ==> r & self.position == 0,
    {
        let p = self.position;
        let m = self.mask;
        assert(p & !m == 0 ==> (p ^ m) & p == 0) by (bit_vector);
        p ^ m
    }

    pub fn get_legal_moves(&self) -> (r: Vec<u8>)
        ensures
            r@ == self.legal_moves(),
    {
        let mut r: Vec<u8> = Vec::new();
        let mut mv: u8 = 0;
        while mv < 7
            invariant
                mv <= 7,
                r@ == self.legal_moves_below(mv as nat),
            decreases 7 - mv,
        {
            if self.is_move_legal(mv) {
                r.push(mv);
            }
            mv = mv + 1;
        }
        r
    }

    pub fn is_move_legal(&self, mv: u8) -> (r: bool)
        ensures
            r == self.column_free(mv),
    {
        mv < 7 && self.mask & (1u64 << (mv * 7 + 5)) == 0
    }

    /// Drops a stone into column `mv` for the side to move; the other side moves next.
    pub fn into_move(&self, mv: u8) -> (r: Result<Board, MoveError>)
        requires
            self.wf(),
        ensures
            mv >= 7 ==> r == Err::<Board, MoveError>(MoveError::OutOfRange),
            mv < 7 && !self.column_free(mv) ==> r == Err::<Board, MoveError>(MoveError::ColumnFull),
            self.column_free(mv) ==> r == Ok::<Board, MoveError>(self.next(mv)),
            self.column_free(mv) ==> self.next(mv).wf(),
    {
        if mv >= 7 {
            return Err(MoveError::OutOfRange);
        }
        if !self.is_move_legal(mv) {
            return Err(MoveError::ColumnFull);
        }
        Ok(self.play(mv))
    }

    /// Drops a stone into a free column `mv`.
    pub fn play(&self, mv: u8) -> (r: Board)
        requires
            self.wf(),
            self.column_free(mv),
        ensures
            r == self.next(mv),
            r.wf(),
    {
        proof {
            lemma_next(*self, mv);
        }
        let bottom: u64 = 1u64 << (mv * 7);
        Board {
            position: self.position ^ self.mask,
            mask: self.mask | (self.mask + bottom),
            moves_count: self.moves_count + 1,
        }
    }

    pub fn is_draw(&self) -> (r: bool)
        ensures
            r == (self.mask == FULL_MASK),
    {
        self.mask == FULL_MASK
    }

    /// The side that moved last, when it moved at an odd count of stones, has four in a line.
    pub fn is_player_win(&self) -> (r: bool)
        ensures
            r == (self.moves_count % 2 == 1 && four_connected(self.position ^ self.mask)),
    {
        if self.moves_count % 2 == 1 {
            return Self::are_four_connected(self.get_opponent_position());
        }
        false
    }

    pub fn is_game_over(&self) -> (r: bool)
        ensures
            r == (four_connected(self.position) || four_connected(self.position ^ self.mask)),
    {
        Self::are_four_connected(self.position) || Self::are_four_connected(
            self.get_opponent_position(),
        )
    }

    pub fn are_four_connected(position: u64) -> (r: bool)
        ensures
            r == four_connected(position),
    {
        proof {
            lemma_direction(position, 7);
            lemma_direction(position, 6);
            lemma_direction(position, 8);
            lemma_direction(position, 1);
        }
        let mut mask: u64;
        // horizontal
        mask = position & (position >> 7u64);
        if (mask & (mask >> 14u64)) > 0 {
            return true;
        }
        // diagonal, falling to the right
        mask = position & (position >> 6u64);
        if (mask & (mask >> 12u64)) > 0 {
            return true;
        }
        // diagonal, rising to the right
        mask = position & (position >> 8u64);
        if (mask & (mask >> 16u64)) > 0 {
            return true;
        }
        // vertical
        mask = position & (position >> 1u64);
        if (mask & (mask >> 2u64)) > 0 {
            return true;
        }
        false
    }
}

/// Cell value of a layout as a board reads it: `0` empty, `1` the side to move, `2` the other.
pub open spec fn cell_value(v: u8) -> u8 {
    if v == 0 {
        0
    } else if v == 1 {
        1
    } else {
        2
    }
}

/// Index in a layout (row-major, top row first) of row `i` from the bottom in column `j`.
pub open spec fn layout_index(j: int, i: int) -> int {
    (5 - i) * 7 + j
}

/// Stones of a layout, counted over the bit indices below `n` (column by column, from the
/// bottom row up; sentinel indices hold none).
pub open spec fn stones_below(cells: Seq<u8>, n: nat) -> nat
    decreases n,
{
    if n == 0 {
        0
    } else {
        let k = n - 1;
        stones_below(cells, (n - 1) as nat) + if k % 7 < 6 && cells[layout_index(k / 7, k % 7)]
            != 0 {
            1nat
        } else {
            0nat
        }
    }
}

impl Board {
    /// Cell value at bit index `k`.
    pub open spec fn cell_at(self, k: u64) -> u8 {
        if !bit(self.mask, k) {
            0
        } else if bit(self.position, k) {
            1
        } else {
            2
        }
    }

    /// The board shows `cells`, read as a layout.
    pub open spec fn shows_layout(self, cells: Seq<u8>) -> bool {
        forall|j: int, i: int|
            0 <= j < 7 && 0 <= i < 6 ==> #[trigger] self.cell_at((7 * j + i) as u64) == cell_value(
                cells[layout_index(j, i)],
            )
    }

    /// The layout of the board: 42 cells, row-major from the top row.
    pub open spec fn layout(self) -> Seq<u8> {
        Seq::new(42, |p: int| self.cell_at((7 * (p % 7) + 5 - p / 7) as u64))
    }

    /// Builds a board from 42 cells listed row-major from the top row, left to right:
    /// `0` empty, `1` the side to move, any other value the other side.
    pub fn from_cells(cells: &Vec<u8>) -> (r: Board)
        requires
            cells@.len() == 42,
        ensures
            r.wf(),
            r.shows_layout(cells@),
            r.moves_count as nat == stones_below(cells@, 49),
    {
        let mut position: u64 = 0;
        let mut mask: u64 = 0;
        let mut count: u8 = 0;
        let mut j: u64 = 0;
        assert(0u64 < (1u64 << 0u64) && 0u64 & !FULL_MASK == 0 && 0u64 & !0u64 == 0) by (bit_vector);
        proof {
            lemma_count_zero(64);
        }
        while j < 7
            invariant
                j <= 7,
                cells@.len() == 42,
                mask < (1u64 << (7 * j)),
                mask & !FULL_MASK == 0,
                position & !mask == 0,
                count as nat == popcount(mask),
                count <= 7 * j,
                count as nat == stones_below(cells@, (7 * j) as nat),
                forall|j2: int, i2: int|
                    0 <= j2 < j && 0 <= i2 < 6 ==> #[trigger] (Board {
                        position,
                        mask,
                        moves_count: 0,
                    }).cell_at((7 * j2 + i2) as u64) == cell_value(cells@[layout_index(j2, i2)]),
            decreases 7 - j,
        {
            let mut i: u64 = 0;
            while i < 6
                invariant
                    j < 7,
                    i <= 6,
                    cells@.len() == 42,
                    mask < (1u64 << (7 * j + i)),
                    mask & !FULL_MASK == 0,
                    position & !mask == 0,
                    count as nat == popcount(mask),
                    count <= 7 * j + i,
                    count as nat == stones_below(cells@, (7 * j + i) as nat),
                    forall|j2: int, i2: int|
                        0 <= j2 < 7 && 0 <= i2 < 6 && 7 * j2 + i2 < 7 * j + i ==> #[trigger] (
                        Board { position, mask, moves_count: 0 }).cell_at((7 * j2 + i2) as u64)
                            == cell_value(cells@[layout_index(j2, i2)]),
                decreases 6 - i,
            {
                let k: u64 = 7 * j + i;
                let v = cells[((5 - i) * 7 + j) as usize];
                let ghost old_board = Board { position, mask, moves_count: 0 };
                assert((k as int) / 7 == j && (k as int) % 7 == i);
                assert(stones_below(cells@, (k + 1) as nat) == stones_below(cells@, k as nat) + if v
                    != 0 {
                    1nat
                } else {
                    0nat
                });
                assert(mask < (1u64 << k) ==> (mask >> k) & 1 == 0 && mask | (1u64 << k) < (1u64
                    << (k + 1))) by (bit_vector)
                    requires
                        k < 48,
                ;
                assert((1u64 << k) & !FULL_MASK == 0) by (bit_vector)
                    requires
                        k == 7 * j + i,
                        j < 7,
                        i < 6,
                ;
                assert(mask < (1u64 << k) ==> position < (1u64 << k)) by (bit_vector)
                    requires
                        position & !mask == 0,
                        k < 48,
                ;
                if v != 0 {
                    let new_mask = mask | (1u64 << k);
                    let new_position = if v == 1 {
                        position | (1u64 << k)
                    } else {
                        position
                    };
                    proof {
                        lemma_count_set_bit(mask, k, 64);
                        assert(new_mask & !FULL_MASK == 0 && new_position & !new_mask == 0)
                            by (bit_vector)
                            requires
                                mask & !FULL_MASK == 0,
                                (1u64 << k) & !FULL_MASK == 0,
                                position & !mask == 0,
                                new_mask == mask | (1u64 << k),
                                new_position == position | (1u64 << k) || new_position
                                    == position,
                        ;
                        assert((new_position >> k) & 1 == (if v == 1 {
                            1u64
                        } else {
                            0u64
                        })) by (bit_vector)
                            requires
                                k < 48,
                                position < (1u64 << k),
                                new_position == if v == 1 {
                                    position | (1u64 << k)
                                } else {
                                    position
                                },
                        ;
                        assert forall|j2: int, i2: int|
                            0 <= j2 < 7 && 0 <= i2 < 6 && 7 * j2 + i2 < 7 * j + i + 1
                                implies #[trigger] (Board {
                                position: new_position,
                                mask: new_mask,
                                moves_count: 0,
                            }).cell_at((7 * j2 + i2) as u64) == cell_value(
                                cells@[layout_index(j2, i2)],
                            ) by {
                            let k2 = (7 * j2 + i2) as u64;
                            lemma_bit_of_or_single(mask, k, k2);
                            lemma_bit_of_or_single(position, k, k2);
                            if 7 * j2 + i2 < 7 * j + i {
                                assert(old_board.cell_at(k2) == cell_value(
                                    cells@[layout_index(j2, i2)],
                                ));
                            } else {
                                assert(j2 == j && i2 == i);
                            }
                        }
                    }
                    mask = new_mask;
                    position = new_position;
                    count = count + 1;
                } else {
                    proof {
                        assert forall|j2: int, i2: int|
                            0 <= j2 < 7 && 0 <= i2 < 6 && 7 * j2 + i2 < 7 * j + i + 1
                                implies #[trigger] (Board { position, mask, moves_count: 0 }).cell_at(
                                (7 * j2 + i2) as u64,
                            ) == cell_value(cells@[layout_index(j2, i2)]) by {
                            if 7 * j2 + i2 == 7 * j + i {
                                assert(j2 == j && i2 == i);
                            }
                        }
                        assert(mask < (1u64 << (k + 1))) by (bit_vector)
                            requires
                                mask < (1u64 << k),
                                k < 48,
                        ;
                    }
                }
                i = i + 1;
            }
            assert(stones_below(cells@, (7 * j + 7) as nat) == stones_below(cells@, (7 * j + 6) as nat));
            assert(mask < (1u64 << (7 * j + 6)) ==> mask < (1u64 << (7 * (j + 1)))) by (bit_vector)
                requires
                    j < 7,
            ;
            j = j + 1;
        }
        let r = Board { position, mask, moves_count: count };
        assert forall|j2: int, i2: int| 0 <= j2 < 7 && 0 <= i2 < 6 implies #[trigger] r.cell_at(
            (7 * j2 + i2) as u64,
        ) == cell_value(cells@[layout_index(j2, i2)]) by {
            assert((Board { position, mask, moves_count: 0 }).cell_at((7 * j2 + i2) as u64)
                == cell_value(cells@[layout_index(j2, i2)]));
        }
        r
    }

    /// The 42 cells of the board, row-major from the top row, left to right.
    pub fn to_cells(&self) -> (r: Vec<u8>)
        ensures
            r@ == self.layout(),
    {
        let mut r: Vec<u8> = Vec::new();
        let mut p: u64 = 0;
        while p < 42
            invariant
                p <= 42,
                r@ == self.layout().take(p as int),
            decreases 42 - p,
        {
            let k: u64 = 7 * (p % 7) + 5 - p / 7;
            let v: u8 = if (self.mask >> k) & 1 != 1 {
                0
            } else if (self.position >> k) & 1 == 1 {
                1
            } else {
                2
            };
            r.push(v);
            assert(r@ =~= self.layout().take(p + 1));
            p = p + 1;
        }
        assert(r@ =~= self.layout());
        r
    }
}

/// The free columns below `n` are exactly the columns below `n` whose top row is empty.
pub proof fn lemma_legal_moves(b: Board, n: nat)
    requires
        n <= 7,
    ensures
        forall|k: int|
            0 <= k < b.legal_moves_below(n).len() ==> #[trigger] b.legal_moves_below(n)[k] < n
                && b.column_free(b.legal_moves_below(n)[k]),
        forall|c: u8| c < n && b.column_free(c) ==> #[trigger] b.legal_moves_below(n).contains(c),
        forall|c: u8| #[trigger] b.legal_moves_below(n).contains(c) ==> c < n && b.column_free(c),
    decreases n,
{
    if n > 0 {
        lemma_legal_moves(b, (n - 1) as nat);
        let s = b.legal_moves_below((n - 1) as nat);
        if b.column_free((n - 1) as u8) {
            assert(s.push((n - 1) as u8)[s.len() as int] == (n - 1) as u8);
        }
        assert forall|c: u8| c < n && b.column_free(c) implies #[trigger] b.legal_moves_below(
            n,
        ).contains(c) by {
            if c < n - 1 {
                assert(s.contains(c));
                let k = choose|k: int| 0 <= k < s.len() && s[k] == c;
                if b.column_free((n - 1) as u8) {
                    assert(b.legal_moves_below(n)[k] == c);
                }
            } else {
                assert(b.legal_moves_below(n)[s.len() as int] == c);
            }
        }
    }
    assert forall|c: u8| #[trigger] b.legal_moves_below(n).contains(c) implies c < n
        && b.column_free(c) by {
        let k = choose|k: int|
            0 <= k < b.legal_moves_below(n).len() && b.legal_moves_below(n)[k] == c;
        assert(b.legal_moves_below(n)[k] == c);
    }
}

/// The carry of `mask + bottom` sets exactly the lowest empty cell of the column.
pub proof fn lemma_next(b: Board, mv: u8)
    requires
        b.wf(),
        b.column_free(mv),
    ensures
        b.next(mv).wf(),
        b.mask + (1u64 << ((7 * mv) as u64)) < 0x2_0000_0000_0000,
        b.next(mv).mask > b.mask,
        b.next(mv).mask & b.mask == b.mask,
        b.moves_count <= 64,
{
    let m = b.mask;
    let p = b.position;
    let c: u64 = mv as u64;
    let s: u64 = (7 * mv) as u64;
    let top: u64 = (7 * mv + 5) as u64;
    assert(m & (1u64 << top) == 0);
    assert(m & !FULL_MASK == 0 ==> m <= FULL_MASK) by (bit_vector);
    assert(c < 7 && s == 7 * c ==> (1u64 << s) <= 0x400_0000_0000) by (bit_vector);
    let bottom: u64 = 1u64 << s;
    let nm: u64 = m | ((m + bottom) as u64);
    assert(nm == b.next(mv).mask);
    // the lowest empty row of the column
    let r: u64 = if (m >> s) & 1 == 0 {
        0
    } else if (m >> s) & 3 == 1 {
        1
    } else if (m >> s) & 7 == 3 {
        2
    } else if (m >> s) & 15 == 7 {
        3
    } else if (m >> s) & 31 == 15 {
        4
    } else {
        5
    };
    assert(nm == m | (1u64 << (s + r)) && (m >> (s + r)) & 1 == 0) by (bit_vector)
        requires
            c < 7,
            s == 7 * c,
            top == s + 5,
            m & (1u64 << top) == 0,
            m <= FULL_MASK,
            bottom == 1u64 << s,
            nm == m | ((m + bottom) as u64),
            r == if (m >> s) & 1 == 0 {
                0u64
            } else if (m >> s) & 3 == 1 {
                1u64
            } else if (m >> s) & 7 == 3 {
                2u64
            } else if (m >> s) & 15 == 7 {
                3u64
            } else if (m >> s) & 31 == 15 {
                4u64
            } else {
                5u64
            },
    ;
    let k: u64 = (s + r) as u64;
    assert((1u64 << k) & !FULL_MASK == 0) by (bit_vector)
        requires
            c < 7,
            s == 7 * c,
            r <= 5,
            k == s + r,
    ;
    assert(nm & !FULL_MASK == 0 && (p ^ m) & !nm == 0 && nm > m && nm & m == m) by (bit_vector)
        requires
            m & !FULL_MASK == 0,
            p & !m == 0,
            (1u64 << k) & !FULL_MASK == 0,
            (m >> k) & 1 == 0,
            k < 64,
            nm == m | (1u64 << k),
    ;
    lemma_count_set_bit(m, k, 64);
    lemma_count_le(m, 64);
}

proof fn lemma_count_le(x: u64, n: nat)
    requires
        n <= 64,
    ensures
        count_bits(x, n) <= n,
    decreases n,
{
    if n > 0 {
        lemma_count_le(x, (n - 1) as nat);
    }
}

} // verus!
