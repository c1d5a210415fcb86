use vstd::prelude::*;
use crate::bits::{bit, popcount, count_bits, lemma_count_zero, lemma_nonzero_has_bit, lemma_subset_count, lemma_bits_equal};
use crate::board::{Board, FULL_MASK, cell_value, layout_index, lemma_next, four_connected, run_of_four};

verus! {

/// The board before any move.
pub open spec fn empty_board() -> Board {
    Board { position: 0, mask: 0, moves_count: 0 }
}

/// Each move of `ms`, played in turn from `b`, goes to a free column.
pub open spec fn legal_sequence(b: Board, ms: Seq<u8>) -> bool
    decreases ms.len(),
{
    ms.len() == 0 || (b.column_free(ms[0]) && legal_sequence(b.next(ms[0]), ms.drop_first()))
}

/// The board reached by playing the moves of `ms` in turn from `b`.
pub open spec fn play_all(b: Board, ms: Seq<u8>) -> Board
    decreases ms.len(),
{
    if ms.len() == 0 {
        b
    } else {
        play_all(b.next(ms[0]), ms.drop_first())
    }
}

/// The empty board is well formed.
pub proof fn lemma_empty_wf()
    ensures
        empty_board().wf(),
{
    lemma_count_zero(64);
    assert(0u64 & !FULL_MASK == 0 && 0u64 & !0u64 == 0) by (bit_vector);
}

/// The opponent's stones are `position ^ mask`, and they never share a cell with `position`.
pub proof fn lemma_opponent_disjoint(b: Board)
    requires
        b.wf(),
    ensures
        (b.position ^ b.mask) & b.position == 0,
{
    let p = b.position;
    let m = b.mask;
    assert(p & !m == 0 ==> (p ^ m) & p == 0) by (bit_vector);
}

/// One legal move adds a stone: the mask grows strictly, keeps every old stone, stays within
/// the playable cells, and the stone count still matches the mask.
pub proof fn lemma_move_grows_mask(b: Board, mv: u8)
    requires
        b.wf(),
        b.column_free(mv),
    ensures
        b.next(mv).wf(),
        b.next(mv).mask > b.mask,
        b.next(mv).mask & b.mask == b.mask,
        b.next(mv).mask <= FULL_MASK,
        popcount(b.next(mv).mask) == b.next(mv).moves_count,
{
    lemma_next(b, mv);
    let m = b.next(mv).mask;
    assert(m & !FULL_MASK == 0 ==> m <= FULL_MASK) by (bit_vector);
}

/// Along any sequence of legal moves from a well-formed board (the empty board among them),
/// every board reached is well formed, so its stone count is the population count of its mask,
/// and its mask holds all earlier stones, grows strictly with each move, and never passes the
/// full-board mask.
pub proof fn lemma_play_sequence(b: Board, ms: Seq<u8>)
    requires
        b.wf(),
        legal_sequence(b, ms),
    ensures
        play_all(b, ms).wf(),
        popcount(play_all(b, ms).mask) == play_all(b, ms).moves_count,
        play_all(b, ms).mask & b.mask == b.mask,
        play_all(b, ms).mask <= FULL_MASK,
        ms.len() > 0 ==> play_all(b, ms).mask > b.mask,
    decreases ms.len(),
{
    let e = play_all(b, ms);
    let m0 = b.mask;
    let me = e.mask;
    if ms.len() == 0 {
        assert(m0 & m0 == m0) by (bit_vector);
    } else {
        let n = b.next(ms[0]);
        lemma_move_grows_mask(b, ms[0]);
        lemma_play_sequence(n, ms.drop_first());
        let m1 = n.mask;
        assert(me & m1 == m1 && m1 & m0 == m0 && m1 > m0 ==> me & m0 == m0 && me > m0)
            by (bit_vector);
    }
    assert(me & !FULL_MASK == 0 ==> me <= FULL_MASK) by (bit_vector);
}

/// On a well-formed board, a draw is flagged exactly when all 42 playable cells are occupied.
pub proof fn lemma_draw_iff_all_occupied(b: Board)
    requires
        b.wf(),
    ensures
        b.full() <==> (forall|j: u64, i: u64| j < 7 && i < 6 ==> #[trigger] bit(b.mask, (7 * j + i) as u64)),
{
    let m = b.mask;
    assert(m & !FULL_MASK == 0 ==> m <= FULL_MASK) by (bit_vector);
    if b.full() {
        assert forall|j: u64, i: u64| j < 7 && i < 6 implies #[trigger] bit(b.mask, (7 * j + i) as u64) by {
            assert((FULL_MASK >> (7 * j + i)) & 1 == 1) by (bit_vector)
                requires
                    j < 7,
                    i < 6,
            ;
        }
    }
    if forall|j: u64, i: u64| j < 7 && i < 6 ==> #[trigger] bit(b.mask, (7 * j + i) as u64) {
        if m != FULL_MASK {
            let y: u64 = FULL_MASK & !m;
            assert(y != 0) by (bit_vector)
                requires
                    m & !FULL_MASK == 0,
                    m != FULL_MASK,
                    y == FULL_MASK & !m,
            ;
            let k = lemma_nonzero_has_bit(y);
            assert(k < 49 && k % 7 < 6 && (m >> k) & 1 == 0) by (bit_vector)
                requires
                    y == FULL_MASK & !m,
                    k < 64,
                    (y >> k) & 1 == 1,
            ;
            let j: u64 = k / 7;
            let i: u64 = k % 7;
            assert(k == 7 * j + i);
            assert(bit(m, (7 * j + i) as u64));
        }
    }
}

/// Building a board from a layout of cell values `0`, `1`, `2` and reading its layout back
/// gives the same layout.
pub proof fn lemma_layout_round_trip(cells: Seq<u8>, b: Board)
    requires
        cells.len() == 42,
        forall|p: int| 0 <= p < 42 ==> #[trigger] cells[p] <= 2,
        b.shows_layout(cells),
    ensures
        b.layout() == cells,
{
    assert forall|p: int| 0 <= p < 42 implies #[trigger] b.layout()[p] == cells[p] by {
        let j = p % 7;
        let i = 5 - p / 7;
        assert(layout_index(j, i) == p);
        assert(b.cell_at((7 * j + i) as u64) == cell_value(cells[layout_index(j, i)]));
    }
    assert(b.layout() =~= cells);
}

/// Two words that agree on every playable cell and have no other bit set are equal.
proof fn lemma_playable_bits_determine(x: u64, y: u64)
    requires
        x & !FULL_MASK == 0,
        y & !FULL_MASK == 0,
        forall|j: u64, i: u64|
            j < 7 && i < 6 ==> #[trigger] bit(x, (7 * j + i) as u64) == bit(y, (7 * j + i) as u64),
    ensures
        x == y,
{
    if x != y {
        let z: u64 = x ^ y;
        assert(z != 0) by (bit_vector)
            requires
                x != y,
                z == x ^ y,
        ;
        let k = lemma_nonzero_has_bit(z);
        assert(k < 49 && k % 7 < 6 && (((x >> k) & 1 == 1) != ((y >> k) & 1 == 1))) by (bit_vector)
            requires
                x & !FULL_MASK == 0,
                y & !FULL_MASK == 0,
                z == x ^ y,
                k < 64,
                (z >> k) & 1 == 1,
        ;
        let j: u64 = k / 7;
        let i: u64 = k % 7;
        assert(k == 7 * j + i);
        assert(bit(x, (7 * j + i) as u64) == bit(y, (7 * j + i) as u64));
    }
}

/// A well-formed board is determined by its layout: building a board from the layout of `b`
/// gives `b` back.
pub proof fn lemma_layout_determines_board(b: Board, c: Board)
    requires
        b.wf(),
        c.wf(),
        c.shows_layout(b.layout()),
    ensures
        c == b,
{
    assert forall|j: u64, i: u64| j < 7 && i < 6 implies #[trigger] bit(c.mask, (7 * j + i) as u64)
        == bit(b.mask, (7 * j + i) as u64) && bit(c.position, (7 * j + i) as u64) == bit(
        b.position,
        (7 * j + i) as u64,
    ) by {
        let p: int = (5 - i) * 7 + j;
        assert(layout_index(j as int, i as int) == p);
        assert(p % 7 == j && p / 7 == 5 - i);
        let k = (7 * j + i) as u64;
        assert(c.cell_at(k) == cell_value(b.layout()[p]));
        assert(b.layout()[p] == b.cell_at(k));
        let pb = b.position;
        let mb = b.mask;
        let pc = c.position;
        let mc = c.mask;
        assert(((pb >> k) & 1 == 1 ==> (mb >> k) & 1 == 1) && ((pc >> k) & 1 == 1 ==> (mc >> k)
            & 1 == 1)) by (bit_vector)
            requires
                pb & !mb == 0,
                pc & !mc == 0,
                k < 64,
        ;
    }
    lemma_playable_bits_determine(c.mask, b.mask);
    assert forall|j: u64, i: u64| j < 7 && i < 6 implies #[trigger] bit(
        c.position,
        (7 * j + i) as u64,
    ) == bit(b.position, (7 * j + i) as u64) by {
        assert(bit(c.mask, (7 * j + i) as u64) == bit(b.mask, (7 * j + i) as u64));
    }
    let pb = b.position;
    let pc = c.position;
    let m = b.mask;
    assert(pb & !FULL_MASK == 0 && pc & !FULL_MASK == 0) by (bit_vector)
        requires
            pb & !m == 0,
            pc & !m == 0,
            m & !FULL_MASK == 0,
    ;
    lemma_playable_bits_determine(c.position, b.position);
}

/// Playable cells among bits `0 .. n`.
spec fn playable_below(n: nat) -> nat {
    if n >= 49 {
        42
    } else {
        6 * (n / 7) + if n % 7 < 6 {
            n % 7
        } else {
            6
        }
    }
}

proof fn lemma_full_count(n: nat)
    requires
        n <= 64,
    ensures
        count_bits(FULL_MASK, n) == playable_below(n),
    decreases n,
{
    if n > 0 {
        lemma_full_count((n - 1) as nat);
        let k = (n - 1) as u64;
        assert(((FULL_MASK >> k) & 1 == 1) == (k < 49 && k % 7 != 6)) by (bit_vector)
            requires
                k < 64,
        ;
    }
}

/// On a well-formed board, a draw is flagged exactly when 42 stones have been placed.
pub proof fn lemma_draw_iff_42_stones(b: Board)
    requires
        b.wf(),
    ensures
        b.full() <==> b.moves_count == 42,
{
    lemma_full_count(64);
    lemma_subset_count(b.mask, FULL_MASK, 64);
    if b.moves_count == 42 {
        lemma_bits_equal(b.mask, FULL_MASK);
    }
}

/// The cell in column `c`, row `r` (from the bottom) is on the grid and set in `p`.
pub open spec fn cell_set(p: u64, c: int, r: int) -> bool {
    0 <= c < 7 && 0 <= r < 6 && bit(p, (7 * c + r) as u64)
}

/// Four set cells from `(c, r)` in steps of `(dc, dr)`.
pub open spec fn line_at(p: u64, c: int, r: int, dc: int, dr: int) -> bool {
    cell_set(p, c, r) && cell_set(p, c + dc, r + dr) && cell_set(p, c + 2 * dc, r + 2 * dr)
        && cell_set(p, c + 3 * dc, r + 3 * dr)
}

/// Four set cells from `(c, r)` along a row, a column or a diagonal.
pub open spec fn line_from(p: u64, c: int, r: int) -> bool {
    line_at(p, c, r, 1, 0) || line_at(p, c, r, 0, 1) || line_at(p, c, r, 1, 1) || line_at(
        p,
        c,
        r,
        1,
        -1,
    )
}

/// Four set cells in a row, a column or a diagonal of the grid.
pub open spec fn grid_four(p: u64) -> bool {
    exists|c: int, r: int| #[trigger] line_from(p, c, r)
}

/// A set bit of a pattern of playable cells is a cell of the grid.
proof fn lemma_playable_bit(p: u64, x: u64)
    requires
        p & !FULL_MASK == 0,
        bit(p, x),
    ensures
        x < 49,
        x % 7 < 6,
{
    assert(x < 49 && x % 7 < 6) by (bit_vector)
        requires
            p & !FULL_MASK == 0,
            x < 64,
            (p >> x) & 1 == 1,
    ;
}

proof fn lemma_run_is_grid_line(p: u64, d: u64, i: u64)
    requires
        p & !FULL_MASK == 0,
        d == 1 || d == 6 || d == 7 || d == 8,
        i + 3 * d < 64,
        bit(p, i),
        bit(p, (i + d) as u64),
        bit(p, (i + 2 * d) as u64),
        bit(p, (i + 3 * d) as u64),
    ensures
        grid_four(p),
{
    lemma_playable_bit(p, i);
    lemma_playable_bit(p, (i + d) as u64);
    lemma_playable_bit(p, (i + 2 * d) as u64);
    lemma_playable_bit(p, (i + 3 * d) as u64);
    let c: int = i as int / 7;
    let r: int = i as int % 7;
    assert(i == 7 * c + r);
    if d == 1 {
        assert(line_at(p, c, r, 0, 1));
    } else if d == 7 {
        assert(line_at(p, c, r, 1, 0));
    } else if d == 8 {
        assert(line_at(p, c, r, 1, 1));
    } else {
        assert(line_at(p, c, r, 1, -1));
    }
    assert(line_from(p, c, r));
}

/// For a pattern of playable cells, the bit test finds four in a line exactly when four cells
/// of one row, column or diagonal of the 7 x 6 grid are set; with at most three connected in
/// every direction it finds none.
pub proof fn lemma_four_connected_grid(p: u64)
    requires
        p & !FULL_MASK == 0,
    ensures
        four_connected(p) <==> grid_four(p),
{
    if four_connected(p) {
        let ds = if run_of_four(p, 7) {
            7u64
        } else if run_of_four(p, 6) {
            6u64
        } else if run_of_four(p, 8) {
            8u64
        } else {
            1u64
        };
        let i = choose|i: u64|
            i + 3 * ds < 64 && #[trigger] bit(p, i) && bit(p, (i + ds) as u64) && bit(
                p,
                (i + 2 * ds) as u64,
            ) && bit(p, (i + 3 * ds) as u64);
        lemma_run_is_grid_line(p, ds, i);
    }
    if grid_four(p) {
        let (c, r) = choose|c: int, r: int| #[trigger] line_from(p, c, r);
        let i = (7 * c + r) as u64;
        if line_at(p, c, r, 1, 0) {
            assert(bit(p, i) && bit(p, (i + 7) as u64) && bit(p, (i + 14) as u64) && bit(p, (i + 21) as u64));
            assert(run_of_four(p, 7));
        } else if line_at(p, c, r, 0, 1) {
            assert(bit(p, i) && bit(p, (i + 1) as u64) && bit(p, (i + 2) as u64) && bit(p, (i + 3) as u64));
            assert(run_of_four(p, 1));
        } else if line_at(p, c, r, 1, 1) {
            assert(bit(p, i) && bit(p, (i + 8) as u64) && bit(p, (i + 16) as u64) && bit(p, (i + 24) as u64));
            assert(run_of_four(p, 8));
        } else {
            assert(bit(p, i) && bit(p, (i + 6) as u64) && bit(p, (i + 12) as u64) && bit(p, (i + 18) as u64));
            assert(run_of_four(p, 6));
        }
    }
}

} // verus!
