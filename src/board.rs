//! Board occupancy, the placement rules, anchors and scoring.
use vstd::prelude::*;

use crate::pieces::{catalog_shape, grid_of, Piece, PieceType, PieceVariant};

verus! {

/// Side length of the square board.
pub const BOARD_SIZE: usize = 20;

/// Number of tiles on the board.
pub const BOARD_SPACES: usize = 400;

/// Number of players taking turns.
pub const NUM_PLAYERS: usize = 4;

/// Number of shapes in the catalog, and of pieces each player starts with.
pub const NUM_PIECES: usize = 21;

/// Bonus for a player who placed every piece.
pub const COMPLETION_BONUS: i32 = 15;

/// Further bonus when that player's last piece was the single cell.
pub const SMALLEST_LAST_BONUS: i32 = 5;

/// Why an operation was refused.
#[derive(Debug, Clone, Copy, PartialEq, Eq, Structural)]
pub enum GameError {
    /// A placement breaks the rules or is not among the indexed moves.
    InvalidMove,
    /// A piece or variant index beyond the current inventory.
    NoSuchPieceOrVariant,
    /// A mutating call after every player was eliminated.
    ActionOnTerminalGame,
}

/// The start corner of each player: top left, top right, bottom right, bottom left.
pub open spec fn start_corner(p: int) -> int {
    if p == 0 {
        0
    } else if p == 1 {
        19
    } else if p == 2 {
        399
    } else {
        380
    }
}

/// Tile `t` holds a cell of player `p` (cells store the player plus one; zero is empty).
pub open spec fn owned_by(cells: Seq<u8>, p: int, t: int) -> bool {
    0 <= t < BOARD_SPACES && cells[t] == p + 1
}

/// A tile sharing a side with `t` belongs to `p`.
pub open spec fn edge_touches_own(cells: Seq<u8>, p: int, t: int) -> bool {
    ||| t >= 20 && owned_by(cells, p, t - 20)
    ||| t + 20 < 400 && owned_by(cells, p, t + 20)
    ||| t % 20 > 0 && owned_by(cells, p, t - 1)
    ||| t % 20 < 19 && owned_by(cells, p, t + 1)
}

/// A tile touching `t` only at a corner belongs to `p`.
pub open spec fn corner_touches_own(cells: Seq<u8>, p: int, t: int) -> bool {
    ||| t >= 20 && t % 20 > 0 && owned_by(cells, p, t - 21)
    ||| t >= 20 && t % 20 < 19 && owned_by(cells, p, t - 19)
    ||| t + 20 < 400 && t % 20 > 0 && owned_by(cells, p, t + 19)
    ||| t + 20 < 400 && t % 20 < 19 && owned_by(cells, p, t + 21)
}

/// Player `p` has a cell on the board.
pub open spec fn has_placed(cells: Seq<u8>, p: int) -> bool {
    exists|u: int| owned_by(cells, p, u)
}

/// A cell of `p` at `t` satisfies the corner-contact rule.
pub open spec fn corner_contact(cells: Seq<u8>, p: int, t: int) -> bool {
    ||| !has_placed(cells, p) && t == start_corner(p)
    ||| corner_touches_own(cells, p, t)
}

/// `t` is an anchor of `p`: empty, not beside `p`'s own cells, and a corner-contact point.
pub open spec fn is_anchor(cells: Seq<u8>, p: int, t: int) -> bool {
    &&& 0 <= t < BOARD_SPACES
    &&& cells[t] == 0
    &&& !edge_touches_own(cells, p, t)
    &&& corner_contact(cells, p, t)
}

/// Cell `j` of a layout placed at origin `o` stays on the board, in the column
/// that the layout gives it.
pub open spec fn cell_lands(o: int, j: int) -> bool {
    &&& o + j < BOARD_SPACES
    &&& o % 20 + j % 20 < 20
}

/// Cell `j` placed at `o` lands on an empty tile not beside `p`'s own cells.
pub open spec fn cell_ok(cells: Seq<u8>, p: int, o: int, j: int) -> bool {
    &&& cell_lands(o, j)
    &&& cells[o + j] == 0
    &&& !edge_touches_own(cells, p, o + j)
}

/// Placing `layout` at `o` is legal for `p`.
pub open spec fn valid_move(cells: Seq<u8>, p: int, layout: Seq<bool>, o: int) -> bool {
    &&& forall|j: int| 0 <= j < layout.len() && #[trigger] layout[j] ==> cell_ok(cells, p, o, j)
    &&& exists|j: int| 0 <= j < layout.len() && #[trigger] layout[j] && corner_contact(cells, p, o + j)
}

/// `r` lists the anchors of `p` in ascending order.
pub open spec fn anchor_list(r: Seq<usize>, cells: Seq<u8>, p: int) -> bool {
    &&& forall|a: int, b: int| 0 <= a < b < r.len() ==> r[a] < r[b]
    &&& forall|a: int| 0 <= a < r.len() ==> is_anchor(cells, p, #[trigger] r[a] as int)
    &&& forall|t: int| is_anchor(cells, p, t) ==> exists|a: int| 0 <= a < r.len() && r[a] == t
}

/// Total points of an inventory.
pub open spec fn remaining_points(ps: Seq<Piece>) -> int
    decreases ps.len(),
{
    if ps.len() == 0 {
        0
    } else {
        remaining_points(ps.drop_last()) + ps.last().points
    }
}

/// Final score of a player from the inventory left and the points of the
/// last piece placed.
pub open spec fn player_score(ps: Seq<Piece>, last: u32) -> int {
    if ps.len() == 0 {
        COMPLETION_BONUS + if last == 1 {
            SMALLEST_LAST_BONUS as int
        } else {
            0
        }
    } else {
        -remaining_points(ps)
    }
}

/// The shape at position `i` of the catalog.
pub open spec fn catalog_type(i: int) -> PieceType {
    if i == 0 {
        PieceType::One
    } else if i == 1 {
        PieceType::Two
    } else if i == 2 {
        PieceType::Right
    } else if i == 3 {
        PieceType::Three
    } else if i == 4 {
        PieceType::Four
    } else if i == 5 {
        PieceType::ShortL
    } else if i == 6 {
        PieceType::Triangle
    } else if i == 7 {
        PieceType::Square
    } else if i == 8 {
        PieceType::ShortStep
    } else if i == 9 {
        PieceType::Five
    } else if i == 10 {
        PieceType::LongL
    } else if i == 11 {
        PieceType::LongStep
    } else if i == 12 {
        PieceType::SquarePlus
    } else if i == 13 {
        PieceType::LongRight
    } else if i == 14 {
        PieceType::Steps
    } else if i == 15 {
        PieceType::Z
    } else if i == 16 {
        PieceType::Hump
    } else if i == 17 {
        PieceType::LongWithSide
    } else if i == 18 {
        PieceType::Plus
    } else if i == 19 {
        PieceType::Crazy
    } else {
        PieceType::T
    }
}

/// The shape at position `i` of the catalog.
pub fn catalog_piece_type(i: usize) -> (r: PieceType)
    ensures
        r == catalog_type(i as int),
{
    match i {
        0 => PieceType::One,
        1 => PieceType::Two,
        2 => PieceType::Right,
        3 => PieceType::Three,
        4 => PieceType::Four,
        5 => PieceType::ShortL,
        6 => PieceType::Triangle,
        7 => PieceType::Square,
        8 => PieceType::ShortStep,
        9 => PieceType::Five,
        10 => PieceType::LongL,
        11 => PieceType::LongStep,
        12 => PieceType::SquarePlus,
        13 => PieceType::LongRight,
        14 => PieceType::Steps,
        15 => PieceType::Z,
        16 => PieceType::Hump,
        17 => PieceType::LongWithSide,
        18 => PieceType::Plus,
        19 => PieceType::Crazy,
        _ => PieceType::T,
    }
}

/// The start corner of a player.
pub fn start_corner_of(player: usize) -> (r: usize)
    requires
        player < NUM_PLAYERS,
    ensures
        r == start_corner(player as int),
{
    if player == 0 {
        0
    } else if player == 1 {
        19
    } else if player == 2 {
        399
    } else {
        380
    }
}

/// Occupancy of the grid and the pieces each player has left.
pub struct Board {
    pub board: Vec<u8>,
    pub pieces: Vec<Vec<Piece>>,
}

impl Board {
    pub open spec fn wf(&self) -> bool {
        &&& self.board@.len() == BOARD_SPACES
        &&& self.pieces@.len() == NUM_PLAYERS
        &&& forall|p: int| 0 <= p < NUM_PLAYERS ==> (#[trigger] self.pieces@[p])@.len() <= NUM_PIECES
        &&& forall|p: int, i: int|
            0 <= p < NUM_PLAYERS && 0 <= i < self.pieces@[p]@.len() ==> (#[trigger] self.pieces@[p]@[i]).wf()
    }

    /// An empty board; every player holds the whole catalog in catalog order.
    pub fn new() -> (r: Board)
        ensures
            r.wf(),
            forall|t: int| 0 <= t < BOARD_SPACES ==> r.board@[t] == 0,
            forall|p: int| 0 <= p < NUM_PLAYERS ==> (#[trigger] r.pieces@[p])@.len() == NUM_PIECES,
            forall|p: int, i: int|
                0 <= p < NUM_PLAYERS && 0 <= i < NUM_PIECES ==> grid_of((#[trigger] r.pieces@[p]@[i]).shape@)
                    == catalog_shape(catalog_type(i)),
    {
        let mut board: Vec<u8> = Vec::new();
        let mut t: usize = 0;
        while t < BOARD_SPACES
            invariant
                0 <= t <= BOARD_SPACES,
                board@.len() == t,
                forall|u: int| 0 <= u < t ==> board@[u] == 0,
            decreases BOARD_SPACES - t,
        {
            board.push(0);
            t += 1;
        }
        let mut pieces: Vec<Vec<Piece>> = Vec::new();
        let mut p: usize = 0;
        while p < NUM_PLAYERS
            invariant
                0 <= p <= NUM_PLAYERS,
                pieces@.len() == p,
                forall|q: int| 0 <= q < p ==> (#[trigger] pieces@[q])@.len() == NUM_PIECES,
                forall|q: int, i: int|
                    0 <= q < p && 0 <= i < NUM_PIECES ==> (#[trigger] pieces@[q]@[i]).wf() && grid_of(
                        pieces@[q]@[i].shape@,
                    ) == catalog_shape(catalog_type(i)),
            decreases NUM_PLAYERS - p,
        {
            let mut inventory: Vec<Piece> = Vec::new();
            let mut i: usize = 0;
            while i < NUM_PIECES
                invariant
                    0 <= i <= NUM_PIECES,
                    inventory@.len() == i,
                    forall|k: int|
                        0 <= k < i ==> (#[trigger] inventory@[k]).wf() && grid_of(inventory@[k].shape@)
                            == catalog_shape(catalog_type(k)),
                decreases NUM_PIECES - i,
            {
                inventory.push(Piece::new(catalog_piece_type(i)));
                i += 1;
            }
            pieces.push(inventory);
            p += 1;
        }
        Board { board, pieces }
    }

    /// The pieces a player has left.
    pub fn get_pieces(&self, player: usize) -> (r: &Vec<Piece>)
        requires
            self.wf(),
            player < NUM_PLAYERS,
        ensures
            r == self.pieces@[player as int],
    {
        &self.pieces[player]
    }

    /// The player has a cell on the board.
    pub fn has_placed(&self, player: usize) -> (r: bool)
        requires
            self.wf(),
            player < NUM_PLAYERS,
        ensures
            r == has_placed(self.board@, player as int),
    {
        let mut t: usize = 0;
        while t < BOARD_SPACES
            invariant
                self.wf(),
                player < NUM_PLAYERS,
                0 <= t <= BOARD_SPACES,
                forall|u: int| 0 <= u < t ==> !owned_by(self.board@, player as int, u),
            decreases BOARD_SPACES - t,
        {
            if self.board[t] == player as u8 + 1 {
                assert(owned_by(self.board@, player as int, t as int));
                return true;
            }
            t += 1;
        }
        false
    }

    fn owns(&self, player: usize, t: usize) -> (r: bool)
        requires
            self.wf(),
            player < NUM_PLAYERS,
        ensures
            r == owned_by(self.board@, player as int, t as int),
    {
        t < BOARD_SPACES && self.board[t] == player as u8 + 1
    }

    /// A tile sharing a side with `t` belongs to the player.
    pub fn edge_touches(&self, player: usize, t: usize) -> (r: bool)
        requires
            self.wf(),
            player < NUM_PLAYERS,
            t < BOARD_SPACES,
        ensures
            r == edge_touches_own(self.board@, player as int, t as int),
    {
        (t >= 20 && self.owns(player, t - 20)) || (t + 20 < 400 && self.owns(player, t + 20)) || (t
            % 20 > 0 && self.owns(player, t - 1)) || (t % 20 < 19 && self.owns(player, t + 1))
    }

    /// A tile touching `t` only at a corner belongs to the player.
    pub fn corner_touches(&self, player: usize, t: usize) -> (r: bool)
        requires
            self.wf(),
            player < NUM_PLAYERS,
            t < BOARD_SPACES,
        ensures
            r == corner_touches_own(self.board@, player as int, t as int),
    {
        (t >= 20 && t % 20 > 0 && self.owns(player, t - 21)) || (t >= 20 && t % 20 < 19 && self.owns(
            player,
            t - 19,
        )) || (t + 20 < 400 && t % 20 > 0 && self.owns(player, t + 19)) || (t + 20 < 400 && t % 20
            < 19 && self.owns(player, t + 21))
    }

    /// Whether placing `variant` with its origin at `o` is legal for the player.
    pub fn is_valid_move(&self, player: usize, variant: &PieceVariant, o: usize) -> (r: bool)
        requires
            self.wf(),
            player < NUM_PLAYERS,
        ensures
            r == valid_move(self.board@, player as int, variant.variant@, o as int),
    {
        let ghost cells = self.board@;
        let ghost p = player as int;
        let ghost layout = variant.variant@;
        let placed = self.has_placed(player);
        let corner = start_corner_of(player);
        let mut contact = false;
        let mut j: usize = 0;
        while j < variant.variant.len()
            invariant
                self.wf(),
                player < NUM_PLAYERS,
                cells == self.board@,
                layout == variant.variant@,
                p == player as int,
                placed == has_placed(cells, p),
                corner == start_corner(p),
                0 <= j <= layout.len(),
                forall|jj: int| 0 <= jj < j && #[trigger] layout[jj] ==> cell_ok(cells, p, o as int, jj),
                contact == exists|jj: int|
                    0 <= jj < j && #[trigger] layout[jj] && corner_contact(cells, p, o + jj),
            decreases layout.len() - j,
        {
            if variant.variant[j] {
                if j >= BOARD_SPACES || o >= BOARD_SPACES - j {
                    assert(!cell_ok(cells, p, o as int, j as int));
                    return false;
                }
                let t = o + j;
                if o % 20 + j % 20 >= 20 || self.board[t] != 0 || self.edge_touches(player, t) {
                    assert(!cell_ok(cells, p, o as int, j as int));
                    return false;
                }
                if (!placed && t == corner) || self.corner_touches(player, t) {
                    contact = true;
                }
            }
            j += 1;
        }
        contact
    }

    /// The player's anchors in ascending order.
    pub fn get_anchors(&self, player: usize) -> (r: Vec<usize>)
        requires
            self.wf(),
            player < NUM_PLAYERS,
        ensures
            anchor_list(r@, self.board@, player as int),
    {
        let ghost cells = self.board@;
        let ghost p = player as int;
        let placed = self.has_placed(player);
        let corner = start_corner_of(player);
        let mut anchors: Vec<usize> = Vec::new();
        let mut t: usize = 0;
        while t < BOARD_SPACES
            invariant
                self.wf(),
                player < NUM_PLAYERS,
                cells == self.board@,
                p == player as int,
                placed == has_placed(cells, p),
                corner == start_corner(p),
                0 <= t <= BOARD_SPACES,
                forall|a: int, b: int| 0 <= a < b < anchors@.len() ==> anchors@[a] < anchors@[b],
                forall|a: int|
                    0 <= a < anchors@.len() ==> anchors@[a] < t && is_anchor(cells, p, #[trigger] anchors@[a] as int),
                forall|u: int|
                    0 <= u < t && is_anchor(cells, p, u) ==> exists|a: int|
                        0 <= a < anchors@.len() && anchors@[a] == u,
            decreases BOARD_SPACES - t,
        {
            let ghost prev = anchors@;
            if self.board[t] == 0 && !self.edge_touches(player, t) && ((!placed && t == corner)
                || self.corner_touches(player, t)) {
                anchors.push(t);
            }
            assert forall|u: int| 0 <= u < t + 1 && is_anchor(cells, p, u) implies exists|a: int|
                0 <= a < anchors@.len() && anchors@[a] == u by {
                if u < t {
                    let a = choose|a: int| 0 <= a < prev.len() && prev[a] == u;
                    assert(anchors@[a] == u);
                } else {
                    assert(anchors@[anchors@.len() - 1] == u);
                }
            }
            t += 1;
        }
        anchors
    }

    /// Marks a tile as the player's; an occupied or off-board tile is refused
    /// and nothing changes.
    pub fn place_tile(&mut self, tile: usize, player: usize) -> (r: Result<(), GameError>)
        requires
            old(self).wf(),
            player < NUM_PLAYERS,
        ensures
            final(self).wf(),
            r is Err <==> (tile >= BOARD_SPACES || old(self).board@[tile as int] != 0),
            r is Err ==> r == Err::<(), GameError>(GameError::InvalidMove) && *final(self) == *old(self),
            r is Ok ==> final(self).board@ == old(self).board@.update(tile as int, (player + 1) as u8)
                && final(self).pieces == old(self).pieces,
    {
        if tile >= BOARD_SPACES || self.board[tile] != 0 {
            return Err(GameError::InvalidMove);
        }
        self.board.set(tile, player as u8 + 1);
        Ok(())
    }

    /// Takes piece `i` out of the player's inventory and returns its points.
    pub fn use_piece(&mut self, player: usize, i: usize) -> (points: u32)
        requires
            old(self).wf(),
            player < NUM_PLAYERS,
            i < old(self).pieces@[player as int]@.len(),
        ensures
            final(self).wf(),
            final(self).board == old(self).board,
            final(self).pieces@.len() == NUM_PLAYERS,
            final(self).pieces@[player as int]@ == old(self).pieces@[player as int]@.remove(i as int),
            forall|q: int| 0 <= q < NUM_PLAYERS && q != player ==> final(self).pieces@[q] == old(self).pieces@[q],
            points == old(self).pieces@[player as int]@[i as int].points,
    {
        let ghost before = self.pieces@[player as int]@;
        let piece = self.pieces[player].remove(i);
        proof {
            assert forall|p: int, k: int|
                0 <= p < NUM_PLAYERS && 0 <= k < self.pieces@[p]@.len() implies (#[trigger] self.pieces@[p]@[k]).wf() by {
                if p == player {
                    if k < i {
                        assert(self.pieces@[p]@[k] == before[k]);
                    } else {
                        assert(self.pieces@[p]@[k] == before[k + 1]);
                    }
                }
            }
        }
        piece.points
    }

    /// Final scores from the inventories left and the points of each
    /// player's last piece.
    pub fn get_scores(&self, last_piece_points: &Vec<u32>) -> (r: Vec<i32>)
        requires
            self.wf(),
            last_piece_points@.len() == NUM_PLAYERS,
        ensures
            r@.len() == NUM_PLAYERS,
            forall|p: int|
                0 <= p < NUM_PLAYERS ==> r@[p] == player_score(
                    #[trigger] self.pieces@[p]@,
                    last_piece_points@[p],
                ),
    {
        let mut scores: Vec<i32> = Vec::new();
        let mut p: usize = 0;
        while p < NUM_PLAYERS
            invariant
                self.wf(),
                last_piece_points@.len() == NUM_PLAYERS,
                0 <= p <= NUM_PLAYERS,
                scores@.len() == p,
                forall|q: int|
                    0 <= q < p ==> scores@[q] == player_score(
                        #[trigger] self.pieces@[q]@,
                        last_piece_points@[q],
                    ),
            decreases NUM_PLAYERS - p,
        {
            let inventory = &self.pieces[p];
            let ghost ps = inventory@;
            assert(ps.len() <= NUM_PIECES);
            let score: i32;
            if inventory.len() == 0 {
                if last_piece_points[p] == 1 {
                    score = COMPLETION_BONUS + SMALLEST_LAST_BONUS;
                } else {
                    score = COMPLETION_BONUS;
                }
            } else {
                let mut sum: i32 = 0;
                let mut i: usize = 0;
                while i < inventory.len()
                    invariant
                        self.wf(),
                        p < NUM_PLAYERS,
                        inventory == self.pieces@[p as int],
                        ps == inventory@,
                        ps.len() <= NUM_PIECES,
                        0 <= i <= ps.len(),
                        sum == remaining_points(ps.subrange(0, i as int)),
                        0 <= sum <= i * BOARD_SPACES,
                    decreases ps.len() - i,
                {
                    assert(ps[i as int].wf());
                    assert(ps.subrange(0, i + 1).drop_last() =~= ps.subrange(0, i as int));
                    sum = sum + inventory[i].points as i32;
                    i += 1;
                }
                assert(ps.subrange(0, ps.len() as int) =~= ps);
                score = -sum;
            }
            scores.push(score);
            p += 1;
        }
        scores
    }
}

/// Row of a tile.
pub open spec fn row_of(t: int) -> int {
    t / 20
}

/// Column of a tile.
pub open spec fn col_of(t: int) -> int {
    t % 20
}

pub open spec fn abs_diff(a: int, b: int) -> int {
    if a >= b {
        a - b
    } else {
        b - a
    }
}

/// The side-contact rule in row and column terms: a tile of `p` shares a
/// side with `t` exactly when some tile of `p` is one row or one column away,
/// not both.
pub proof fn lemma_edge_touch_rows_cols(cells: Seq<u8>, p: int, t: int)
    requires
        0 <= t < BOARD_SPACES,
    ensures
        edge_touches_own(cells, p, t) <==> exists|n: int|
            #[trigger] owned_by(cells, p, n) && abs_diff(row_of(t), row_of(n)) + abs_diff(col_of(t), col_of(n)) == 1,
{
    if edge_touches_own(cells, p, t) {
        if t >= 20 && owned_by(cells, p, t - 20) {
            assert(row_of(t - 20) == row_of(t) - 1 && col_of(t - 20) == col_of(t));
        } else if t + 20 < 400 && owned_by(cells, p, t + 20) {
            assert(row_of(t + 20) == row_of(t) + 1 && col_of(t + 20) == col_of(t));
        } else if t % 20 > 0 && owned_by(cells, p, t - 1) {
            assert(row_of(t - 1) == row_of(t) && col_of(t - 1) == col_of(t) - 1);
        } else {
            assert(row_of(t + 1) == row_of(t) && col_of(t + 1) == col_of(t) + 1);
        }
    }
    if exists|n: int| #[trigger] owned_by(cells, p, n) && abs_diff(row_of(t), row_of(n)) + abs_diff(col_of(t), col_of(n)) == 1 {
        let n = choose|n: int| #[trigger] owned_by(cells, p, n) && abs_diff(row_of(t), row_of(n)) + abs_diff(col_of(t), col_of(n)) == 1;
        assert(t == 20 * row_of(t) + col_of(t));
        assert(n == 20 * row_of(n) + col_of(n));
    }
}

/// The corner-contact test in row and column terms: a tile of `p` touches
/// `t` only at a corner exactly when some tile of `p` is one row and one
/// column away.
pub proof fn lemma_corner_touch_rows_cols(cells: Seq<u8>, p: int, t: int)
    requires
        0 <= t < BOARD_SPACES,
    ensures
        corner_touches_own(cells, p, t) <==> exists|n: int|
            #[trigger] owned_by(cells, p, n) && abs_diff(row_of(t), row_of(n)) == 1 && abs_diff(col_of(t), col_of(n)) == 1,
{
    if corner_touches_own(cells, p, t) {
        if t >= 20 && t % 20 > 0 && owned_by(cells, p, t - 21) {
            assert(row_of(t - 21) == row_of(t) - 1 && col_of(t - 21) == col_of(t) - 1);
        } else if t >= 20 && t % 20 < 19 && owned_by(cells, p, t - 19) {
            assert(row_of(t - 19) == row_of(t) - 1 && col_of(t - 19) == col_of(t) + 1);
        } else if t + 20 < 400 && t % 20 > 0 && owned_by(cells, p, t + 19) {
            assert(row_of(t + 19) == row_of(t) + 1 && col_of(t + 19) == col_of(t) - 1);
        } else {
            assert(row_of(t + 21) == row_of(t) + 1 && col_of(t + 21) == col_of(t) + 1);
        }
    }
    if exists|n: int| #[trigger] owned_by(cells, p, n) && abs_diff(row_of(t), row_of(n)) == 1 && abs_diff(col_of(t), col_of(n)) == 1 {
        let n = choose|n: int| #[trigger] owned_by(cells, p, n) && abs_diff(row_of(t), row_of(n)) == 1 && abs_diff(col_of(t), col_of(n)) == 1;
        assert(t == 20 * row_of(t) + col_of(t));
        assert(n == 20 * row_of(n) + col_of(n));
    }
}

/// A cell lands on the board in row and column terms: its row is on the
/// board and its column is the origin's column plus the layout column,
/// without passing the right edge.
pub proof fn lemma_cell_lands_rows_cols(o: int, j: int)
    requires
        0 <= o,
        0 <= j,
    ensures
        cell_lands(o, j) <==> row_of(o) + row_of(j) < 20 && col_of(o) + col_of(j) < 20,
{
    assert(o == 20 * row_of(o) + col_of(o));
    assert(j == 20 * row_of(j) + col_of(j));
}

} // verus!
