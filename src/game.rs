//! The turn, elimination and scoring state machine.
use vstd::prelude::*;

use crate::board::catalog_type;
use crate::pieces::{catalog_shape, grid_of, filled_offsets, lemma_variant_offsets, Piece, PieceVariant};

use crate::board::{anchor_list, player_score, Board, GameError, BOARD_SIZE, BOARD_SPACES, NUM_PLAYERS};
use crate::board::{cell_ok, valid_move};
use crate::moves::{
    contains_move, covers, fresh_index, get_tile_moves, has_moves, index_empty, index_is_empty, lemma_empty_index_iff_no_moves,
    indexed_tiles, lemma_scan_finds_legal_moves, move_covers, names_variant, prune_index, pruned, variant_of, MoveId,
};

verus! {

/// Every player is eliminated.
pub open spec fn all_eliminated(e: Seq<bool>) -> bool {
    forall|q: int| 0 <= q < NUM_PLAYERS ==> #[trigger] e[q]
}

/// Turns from `from` to reach `to` in cyclic order: 1 for the next player,
/// 4 for `from` itself.
pub open spec fn step_dist(from: int, to: int) -> int {
    (to - from + 3) % 4 + 1
}

/// Turn advance from player `cp0` with eliminations `e0` ends at `cp1` with
/// eliminations `e1` and index `idx1`: each player visited on the way had
/// been eliminated or is eliminated now for want of moves, the index is
/// rebuilt for `cp1`, and `cp1` has moves unless every player is out.
pub open spec fn advanced(
    board: Board,
    cp0: int,
    e0: Seq<bool>,
    cp1: int,
    e1: Seq<bool>,
    idx1: Seq<Vec<MoveId>>,
) -> bool {
    &&& 0 <= cp1 < NUM_PLAYERS
    &&& e1.len() == NUM_PLAYERS
    &&& fresh_index(idx1, board, cp1)
    &&& forall|q: int| 0 <= q < NUM_PLAYERS && step_dist(cp0, q) < step_dist(cp0, cp1) ==> #[trigger] e1[q]
    &&& forall|q: int| 0 <= q < NUM_PLAYERS && #[trigger] e0[q] ==> e1[q]
    &&& forall|q: int|
        0 <= q < NUM_PLAYERS && #[trigger] e1[q] && !e0[q] ==> step_dist(cp0, q) <= step_dist(cp0, cp1)
            && !has_moves(board, q)
    &&& all_eliminated(e1) || (!e1[cp1] && has_moves(board, cp1))
}

/// Pruning the index after a placement on `t` leaves no move.
pub open spec fn prune_leaves_nothing(idx: Seq<Vec<MoveId>>, t: int) -> bool {
    forall|u: int, m: MoveId|
        0 <= u < idx.len() && u != t ==> !(#[trigger] idx[u]@.contains(m) && idx[t]@.contains(m))
}

/// The error an operation on `g` reports, if any: a finished game first,
/// then a piece index beyond the inventory, then a tile that is off the
/// board, occupied or without indexed moves.
pub open spec fn apply_error(g: Game, tile: int, finish: Option<usize>) -> Option<GameError> {
    if g.terminal() {
        Some(GameError::ActionOnTerminalGame)
    } else if finish is Some && finish->Some_0 >= g.board.pieces@[g.current_player as int]@.len() {
        Some(GameError::NoSuchPieceOrVariant)
    } else if tile >= BOARD_SPACES || g.legal_tiles@[tile]@.len() == 0 || g.board.board@[tile] != 0 {
        Some(GameError::InvalidMove)
    } else {
        None
    }
}

/// The placement on `tile` ends the player's piece: the caller says so, or
/// pruning leaves no move.
pub open spec fn finishes(g: Game, tile: int, finish: Option<usize>) -> bool {
    finish is Some || prune_leaves_nothing(g.legal_tiles@, tile)
}

/// The piece taken from the inventory when the placement ends it: the one
/// the caller names, else the piece of the first move indexed under `tile`.
pub open spec fn finished_piece(g: Game, tile: int, finish: Option<usize>) -> int {
    match finish {
        Some(p) => p as int,
        None => g.legal_tiles@[tile]@[0].0 as int,
    }
}

/// `g1` is `g0` after the current player placed a cell on `tile`.
pub open spec fn applied(g0: Game, g1: Game, tile: int, finish: Option<usize>) -> bool {
    let cp = g0.current_player as int;
    &&& g1.board.board@ == g0.board.board@.update(tile, (cp + 1) as u8)
    &&& g1.history@ == g0.history@.push((cp as i32, tile as i32))
    &&& if !finishes(g0, tile, finish) {
        &&& pruned(g0.legal_tiles@, g1.legal_tiles@, tile)
        &&& g1.board.pieces == g0.board.pieces
        &&& g1.eliminated == g0.eliminated
        &&& g1.current_player == g0.current_player
        &&& g1.last_piece_lens == g0.last_piece_lens
    } else {
        let piece = finished_piece(g0, tile, finish);
        &&& g1.board.pieces@[cp]@ == g0.board.pieces@[cp]@.remove(piece)
        &&& forall|q: int| 0 <= q < NUM_PLAYERS && q != cp ==> #[trigger] g1.board.pieces@[q] == g0.board.pieces@[q]
        &&& g1.last_piece_lens@ == g0.last_piece_lens@.update(cp, g0.board.pieces@[cp]@[piece].points)
        &&& advanced(g1.board, cp, g0.eliminated@, g1.current_player as int, g1.eliminated@, g1.legal_tiles@)
    }
}

/// The variant that move `(p, v, _)` of the current player names.
pub open spec fn chosen_variant(g: Game, p: int, v: int) -> PieceVariant {
    g.board.pieces@[g.current_player as int]@[p].variants@[v]
}

/// The error a whole-piece placement on `g` reports, if any: a finished
/// game, then an index beyond the inventory, then a placement that breaks
/// the rules or that some filled cell's tile no longer indexes.
pub open spec fn place_error(g: Game, p: int, v: int, o: int) -> Option<GameError> {
    let cp = g.current_player as int;
    if g.terminal() {
        Some(GameError::ActionOnTerminalGame)
    } else if p >= g.board.pieces@[cp]@.len() || v >= g.board.pieces@[cp]@[p].variants@.len() {
        Some(GameError::NoSuchPieceOrVariant)
    } else if !valid_move(g.board.board@, cp, chosen_variant(g, p, v).variant@, o) {
        Some(GameError::InvalidMove)
    } else if exists|k: int|
        0 <= k < chosen_variant(g, p, v).offsets@.len() && !g.legal_tiles@[o
            + #[trigger] chosen_variant(g, p, v).offsets@[k]]@.contains((p as usize, v as usize, o as usize)) {
        Some(GameError::InvalidMove)
    } else {
        None
    }
}

/// `g1` is `g0` after the current player placed move `(p, v, o)` whole: its
/// cells are on the board and in the history, the piece left the inventory,
/// and the turn advanced.
pub open spec fn placed(g0: Game, g1: Game, p: int, v: int, o: int) -> bool {
    let cp = g0.current_player as int;
    let var = chosen_variant(g0, p, v);
    &&& g1.board.board@.len() == BOARD_SPACES
    &&& forall|t: int|
        0 <= t < BOARD_SPACES ==> #[trigger] g1.board.board@[t] == if covers(var.variant@, o, t) {
            (cp + 1) as u8
        } else {
            g0.board.board@[t]
        }
    &&& g1.history@ == g0.history@ + Seq::new(
        var.offsets@.len(),
        |k: int| (cp as i32, (o + var.offsets@[k]) as i32),
    )
    &&& g1.board.pieces@[cp]@ == g0.board.pieces@[cp]@.remove(p)
    &&& forall|q: int| 0 <= q < NUM_PLAYERS && q != cp ==> #[trigger] g1.board.pieces@[q] == g0.board.pieces@[q]
    &&& g1.last_piece_lens@ == g0.last_piece_lens@.update(cp, g0.board.pieces@[cp]@[p].points)
    &&& advanced(g1.board, cp, g0.eliminated@, g1.current_player as int, g1.eliminated@, g1.legal_tiles@)
}

/// On a freshly built index, with the piece and variant in range, a
/// whole-piece placement is refused exactly when it breaks the placement rule.
pub proof fn lemma_fresh_index_admits_legal_moves(g: Game, p: int, v: int, o: int)
    requires
        g.wf(),
        !g.terminal(),
        fresh_index(g.legal_tiles@, g.board, g.current_player as int),
        0 <= p < g.board.pieces@[g.current_player as int]@.len(),
        0 <= v < g.board.pieces@[g.current_player as int]@[p].variants@.len(),
        0 <= o,
    ensures
        place_error(g, p, v, o) is None <==> valid_move(
            g.board.board@,
            g.current_player as int,
            chosen_variant(g, p, v).variant@,
            o,
        ),
{
    let cp = g.current_player as int;
    let var = chosen_variant(g, p, v);
    if valid_move(g.board.board@, cp, var.variant@, o) {
        let m: MoveId = (p as usize, v as usize, o as usize);
        assert(names_variant(g.board, cp, m));
        assert(variant_of(g.board, cp, m) == var);
        lemma_scan_finds_legal_moves(g.board, cp, m);
        assert(g.board.pieces@[cp]@[p].wf());
        lemma_variant_offsets(g.board.pieces@[cp]@[p], v);
        reveal(filled_offsets);
        assert forall|k: int| 0 <= k < var.offsets@.len() implies g.legal_tiles@[o
            + #[trigger] var.offsets@[k]]@.contains((p as usize, v as usize, o as usize)) by {
            let j = var.offsets@[k] as int;
            assert(var.variant@[j]);
            assert(cell_ok(g.board.board@, cp, o, j));
            assert(move_covers(g.board, cp, m, o + j));
        }
        assert(!(exists|k: int|
            0 <= k < chosen_variant(g, p, v).offsets@.len() && !g.legal_tiles@[o
                + #[trigger] chosen_variant(g, p, v).offsets@[k]]@.contains((p as usize, v as usize, o as usize))));
        assert(place_error(g, p, v, o) is None);
    }
}

/// Some of the first `k` offsets puts a cell on `t`.
pub open spec fn stamped(offs: Seq<usize>, o: int, k: int, t: int) -> bool {
    exists|a: int| 0 <= a < k && o + #[trigger] offs[a] == t
}

/// A copy of a list of offsets.
fn copy_offsets(v: &Vec<usize>) -> (r: Vec<usize>)
    ensures
        r@ == v@,
{
    let mut out: Vec<usize> = Vec::new();
    let mut i: usize = 0;
    while i < v.len()
        invariant
            0 <= i <= v@.len(),
            out@ == v@.subrange(0, i as int),
        decreases v@.len() - i,
    {
        out.push(v[i]);
        i += 1;
        assert(out@ =~= v@.subrange(0, i as int));
    }
    assert(v@.subrange(0, v@.len() as int) =~= v@);
    out
}

/// What a front end asks of the game.
pub enum Action {
    /// Place variant `.1` of piece `.0` with its origin at `.2`.
    PlacePiece(usize, usize, usize),
    /// The current player withdraws: eliminated now, and the turn advances.
    Pass,
    /// Start a new game.
    ResetGame,
}

/// A game in progress.
pub struct Game {
    pub board: Board,
    /// Placed tiles in order, as (player, tile).
    pub history: Vec<(i32, i32)>,
    pub eliminated: Vec<bool>,
    pub current_player: usize,
    /// For each tile, the moves of the current player that fill it.
    pub legal_tiles: Vec<Vec<MoveId>>,
    /// Points of the last piece each player placed.
    pub last_piece_lens: Vec<u32>,
}

impl Game {
    /// The shapes of the fields.
    pub open spec fn wf_core(&self) -> bool {
        &&& self.board.wf()
        &&& self.current_player < NUM_PLAYERS
        &&& self.eliminated@.len() == NUM_PLAYERS
        &&& self.last_piece_lens@.len() == NUM_PLAYERS
        &&& self.legal_tiles@.len() == BOARD_SPACES
    }

    /// Well formed: the fields have their shapes, and every indexed move
    /// names a piece the current player holds.
    pub open spec fn wf(&self) -> bool {
        &&& self.wf_core()
        &&& forall|t: int, k: int|
            0 <= t < BOARD_SPACES && 0 <= k < self.legal_tiles@[t]@.len() ==> (#[trigger] self.legal_tiles@[t]@[k]).0
                < self.board.pieces@[self.current_player as int]@.len()
    }

    /// The state of a game just begun: empty board, every player holding
    /// the whole catalog in catalog order, nobody eliminated, no piece
    /// placed, and player 0 to move with its index built from scratch.
    pub open spec fn is_new_game(&self) -> bool {
        &&& !self.terminal()
        &&& self.current_player == 0
        &&& fresh_index(self.legal_tiles@, self.board, 0)
        &&& forall|t: int| 0 <= t < BOARD_SPACES ==> self.board.board@[t] == 0
        &&& forall|p: int| 0 <= p < NUM_PLAYERS ==> (#[trigger] self.board.pieces@[p])@.len() == crate::board::NUM_PIECES
        &&& forall|p: int, i: int|
            0 <= p < NUM_PLAYERS && 0 <= i < crate::board::NUM_PIECES ==> grid_of(
                (#[trigger] self.board.pieces@[p]@[i]).shape@,
            ) == catalog_shape(catalog_type(i))
        &&& self.history@.len() == 0
        &&& forall|q: int| 0 <= q < NUM_PLAYERS ==> !(#[trigger] self.eliminated@[q]) && self.last_piece_lens@[q] == 0
    }

    pub open spec fn terminal(&self) -> bool {
        all_eliminated(self.eliminated@)
    }

    /// Whether every player has been eliminated.
    pub fn is_terminal(&self) -> (r: bool)
        requires
            self.eliminated@.len() == NUM_PLAYERS,
        ensures
            r == self.terminal(),
    {
        let mut q: usize = 0;
        while q < NUM_PLAYERS
            invariant
                self.eliminated@.len() == NUM_PLAYERS,
                0 <= q <= NUM_PLAYERS,
                forall|x: int| 0 <= x < q ==> #[trigger] self.eliminated@[x],
            decreases NUM_PLAYERS - q,
        {
            if !self.eliminated[q] {
                return false;
            }
            q += 1;
        }
        true
    }

    /// Moves to the next player in cyclic order, skipping eliminated ones;
    /// a player whose freshly built index is empty is eliminated on arrival
    /// and the turn moves on. Returns the new current player. On a finished
    /// game nothing changes.
    pub fn advance_player(&mut self) -> (r: usize)
        requires
            old(self).wf_core(),
        ensures
            final(self).wf_core(),
            r == final(self).current_player,
            old(self).terminal() ==> *final(self) == *old(self),
            !old(self).terminal() ==> final(self).wf() && advanced(
                old(self).board,
                old(self).current_player as int,
                old(self).eliminated@,
                final(self).current_player as int,
                final(self).eliminated@,
                final(self).legal_tiles@,
            ),
            final(self).board == old(self).board,
            final(self).history == old(self).history,
            final(self).last_piece_lens == old(self).last_piece_lens,
    {
        if self.is_terminal() {
            return self.current_player;
        }
        let ghost start = self.current_player as int;
        let ghost e0 = self.eliminated@;
        let ghost g0 = *self;
        let mut k: usize = 0;
        while k < NUM_PLAYERS
            invariant_except_break
                k >= 1 ==> self.eliminated@[self.current_player as int],
            invariant
                self.wf_core(),
                self.board == g0.board,
                self.history == g0.history,
                self.last_piece_lens == g0.last_piece_lens,
                e0 == g0.eliminated@,
                start == g0.current_player as int,
                0 <= start < NUM_PLAYERS,
                0 <= k <= NUM_PLAYERS,
                self.current_player as int == (start + k) % 4,
                k == 0 ==> !all_eliminated(self.eliminated@),
                k >= 1 ==> fresh_index(self.legal_tiles@, self.board, self.current_player as int),
                forall|q: int| 0 <= q < NUM_PLAYERS && step_dist(start, q) < k ==> #[trigger] self.eliminated@[q],
                forall|q: int| 0 <= q < NUM_PLAYERS && #[trigger] e0[q] ==> self.eliminated@[q],
                forall|q: int|
                    0 <= q < NUM_PLAYERS && #[trigger] self.eliminated@[q] && !e0[q] ==> step_dist(start, q) <= k
                        && !has_moves(self.board, q),
            ensures
                k >= 1,
                all_eliminated(self.eliminated@) || (!self.eliminated@[self.current_player as int] && !index_empty(
                    self.legal_tiles@,
                )),
            decreases NUM_PLAYERS - k,
        {
            if self.is_terminal() {
                break;
            }
            self.current_player = (self.current_player + 1) % NUM_PLAYERS;
            k += 1;
            self.legal_tiles = get_tile_moves(&self.board, self.current_player);
            let cp = self.current_player;
            proof {
                lemma_empty_index_iff_no_moves(self.legal_tiles@, self.board, cp as int);
                assert(step_dist(start, cp as int) == k);
            }
            if self.eliminated[cp] {
                continue;
            }
            if index_is_empty(&self.legal_tiles) {
                self.eliminated.set(cp, true);
                continue;
            }
            break;
        }
        proof {
            let cp1 = self.current_player as int;
            assert(step_dist(start, cp1) == k);
            if !all_eliminated(self.eliminated@) {
                lemma_empty_index_iff_no_moves(self.legal_tiles@, self.board, cp1);
            }
            assert forall|t: int, j: int| 0 <= t < BOARD_SPACES && 0 <= j < self.legal_tiles@[t]@.len() implies (
            #[trigger] self.legal_tiles@[t]@[j]).0 < self.board.pieces@[cp1]@.len() by {
                assert(self.legal_tiles@[t]@.contains(self.legal_tiles@[t]@[j]));
            }
        }
        self.current_player
    }

    /// A new game: empty board, full inventories, player 0 to move with its
    /// index built.
    pub fn reset() -> (r: Game)
        ensures
            r.wf(),
            r.is_new_game(),
    {
        let board = Board::new();
        let legal_tiles = get_tile_moves(&board, 0);
        let mut eliminated: Vec<bool> = Vec::new();
        let mut last_piece_lens: Vec<u32> = Vec::new();
        let mut q: usize = 0;
        while q < NUM_PLAYERS
            invariant
                0 <= q <= NUM_PLAYERS,
                eliminated@.len() == q,
                last_piece_lens@.len() == q,
                forall|x: int| 0 <= x < q ==> !(#[trigger] eliminated@[x]) && last_piece_lens@[x] == 0,
            decreases NUM_PLAYERS - q,
        {
            eliminated.push(false);
            last_piece_lens.push(0);
            q += 1;
        }
        let g = Game { board, history: Vec::new(), eliminated, current_player: 0, legal_tiles, last_piece_lens };
        proof {
            assert(!g.eliminated@[0]);
            assert forall|t: int, j: int| 0 <= t < BOARD_SPACES && 0 <= j < g.legal_tiles@[t]@.len() implies (
            #[trigger] g.legal_tiles@[t]@[j]).0 < g.board.pieces@[0]@.len() by {
                assert(g.legal_tiles@[t]@.contains(g.legal_tiles@[t]@[j]));
            }
        }
        g
    }

    /// Places one cell of the current player's piece on `tile`. The index is
    /// pruned to the moves that fill `tile`; when the caller names the piece
    /// as finished, or no move is left, that piece leaves the inventory and
    /// the turn advances. A refused call changes nothing.
    pub fn apply(&mut self, tile: usize, piece_to_finish: Option<usize>) -> (r: Result<(), GameError>)
        requires
            old(self).wf(),
        ensures
            final(self).wf(),
            apply_error(*old(self), tile as int, piece_to_finish) is Some ==> r == Err::<(), GameError>(
                apply_error(*old(self), tile as int, piece_to_finish)->Some_0,
            ) && *final(self) == *old(self),
            apply_error(*old(self), tile as int, piece_to_finish) is None ==> r is Ok && applied(
                *old(self),
                *final(self),
                tile as int,
                piece_to_finish,
            ),
    {
        if self.is_terminal() {
            return Err(GameError::ActionOnTerminalGame);
        }
        let cp = self.current_player;
        match piece_to_finish {
            Some(p) => {
                if p >= self.board.pieces[cp].len() {
                    return Err(GameError::NoSuchPieceOrVariant);
                }
            },
            None => {},
        }
        if tile >= BOARD_SPACES || self.legal_tiles[tile].len() == 0 || self.board.board[tile] != 0 {
            return Err(GameError::InvalidMove);
        }
        let ghost g0 = *self;
        let _ = self.board.place_tile(tile, cp);
        self.history.push((cp as i32, tile as i32));
        let valid_moves = match prune_index(&mut self.legal_tiles, tile) {
            Ok(ms) => ms,
            Err(e) => {
                return Err(e);
            },
        };
        let ghost idx = self.legal_tiles@;
        proof {
            assert forall|t: int, j: int| 0 <= t < BOARD_SPACES && 0 <= j < idx[t]@.len() implies (
            #[trigger] idx[t]@[j]).0 < self.board.pieces@[cp as int]@.len() by {
                if t != tile {
                    assert(idx[t]@.contains(idx[t]@[j]));
                    assert(g0.legal_tiles@[t]@.contains(idx[t]@[j]));
                    let w = choose|w: int| 0 <= w < g0.legal_tiles@[t]@.len() && g0.legal_tiles@[t]@[w] == idx[t]@[j];
                    assert(g0.legal_tiles@[t]@[w].0 < g0.board.pieces@[cp as int]@.len());
                }
            }
            assert(index_empty(idx) <==> prune_leaves_nothing(g0.legal_tiles@, tile as int)) by {
                if index_empty(idx) {
                    assert forall|u: int, m: MoveId| 0 <= u < g0.legal_tiles@.len() && u != tile implies !(
                    #[trigger] g0.legal_tiles@[u]@.contains(m) && g0.legal_tiles@[tile as int]@.contains(m)) by {
                        if g0.legal_tiles@[u]@.contains(m) && g0.legal_tiles@[tile as int]@.contains(m) {
                            assert(idx[u]@.contains(m));
                        }
                    }
                }
                if prune_leaves_nothing(g0.legal_tiles@, tile as int) {
                    assert forall|u: int| 0 <= u < idx.len() implies (#[trigger] idx[u])@.len() == 0 by {
                        if u != tile && idx[u]@.len() > 0 {
                            assert(idx[u]@.contains(idx[u]@[0]));
                        }
                    }
                }
            }
        }
        if index_is_empty(&self.legal_tiles) || piece_to_finish.is_some() {
            let piece = match piece_to_finish {
                Some(p) => p,
                None => valid_moves[0].0,
            };
            let points = self.board.use_piece(cp, piece);
            self.last_piece_lens.set(cp, points);
            self.advance_player();
        }
        Ok(())
    }

    /// Places variant `v` of piece `p` with its origin at `o` for the current
    /// player, cell by cell, then ends the piece and advances the turn. The
    /// whole move is checked first, so a refused move changes nothing.
    #[verifier::rlimit(60)]
    pub fn place_piece(&mut self, p: usize, v: usize, o: usize) -> (r: Result<(), GameError>)
        requires
            old(self).wf(),
        ensures
            final(self).wf(),
            place_error(*old(self), p as int, v as int, o as int) is Some ==> r == Err::<(), GameError>(
                place_error(*old(self), p as int, v as int, o as int)->Some_0,
            ) && *final(self) == *old(self),
            place_error(*old(self), p as int, v as int, o as int) is None ==> r is Ok && placed(
                *old(self),
                *final(self),
                p as int,
                v as int,
                o as int,
            ),
            fresh_index(old(self).legal_tiles@, old(self).board, old(self).current_player as int) && !old(
                self,
            ).terminal() && p < old(self).board.pieces@[old(self).current_player as int]@.len() && v < old(
                self,
            ).board.pieces@[old(self).current_player as int]@[p as int].variants@.len() ==> (r is Ok <==> valid_move(
                old(self).board.board@,
                old(self).current_player as int,
                chosen_variant(*old(self), p as int, v as int).variant@,
                o as int,
            )),
    {
        proof {
            let cp = self.current_player as int;
            if fresh_index(self.legal_tiles@, self.board, cp) && !self.terminal() && p < self.board.pieces@[cp]@.len()
                && v < self.board.pieces@[cp]@[p as int].variants@.len() {
                lemma_fresh_index_admits_legal_moves(*self, p as int, v as int, o as int);
            }
        }
        if self.is_terminal() {
            return Err(GameError::ActionOnTerminalGame);
        }
        let cp = self.current_player;
        if p >= self.board.pieces[cp].len() || v >= self.board.pieces[cp][p].variants.len() {
            return Err(GameError::NoSuchPieceOrVariant);
        }
        let ghost g0 = *self;
        let ghost var = chosen_variant(g0, p as int, v as int);
        if !self.board.is_valid_move(cp, &self.board.pieces[cp][p].variants[v], o) {
            return Err(GameError::InvalidMove);
        }
        assert(valid_move(g0.board.board@, cp as int, var.variant@, o as int));
        let offsets = copy_offsets(&self.board.pieces[cp][p].variants[v].offsets);
        let ghost offs = offsets@;
        let n = offsets.len();
        let mv: MoveId = (p, v, o);
        proof {
            assert(self.board.pieces@[cp as int]@[p as int].wf());
            lemma_variant_offsets(self.board.pieces@[cp as int]@[p as int], v as int);
            reveal(filled_offsets);
            assert forall|a: int| 0 <= a < n implies o + #[trigger] offs[a] < BOARD_SPACES && g0.board.board@[o + offs[a]] == 0 by {
                assert(var.variant@[offs[a] as int]);
                assert(cell_ok(g0.board.board@, cp as int, o as int, offs[a] as int));
            }
            let j = choose|j: int| 0 <= j < var.variant@.len() && #[trigger] var.variant@[j] && crate::board::corner_contact(
                g0.board.board@, cp as int, o + j);
            let w = choose|w: int| 0 <= w < offs.len() && offs[w] == j;
        }
        let mut i: usize = 0;
        while i < n
            invariant
                *self == g0,
                g0.wf(),
                !g0.terminal(),
                cp == g0.current_player,
                p < g0.board.pieces@[cp as int]@.len(),
                v < g0.board.pieces@[cp as int]@[p as int].variants@.len(),
                valid_move(g0.board.board@, cp as int, var.variant@, o as int),
                var == chosen_variant(g0, p as int, v as int),
                offsets@ == offs,
                mv == (p, v, o),
                n == offs.len(),
                offs == var.offsets@,
                forall|a: int| 0 <= a < n ==> o + offs[a] < BOARD_SPACES,
                0 <= i <= n,
                forall|a: int| 0 <= a < i ==> #[trigger] self.legal_tiles@[o + offs[a]]@.contains(mv),
            decreases n - i,
        {
            assert(o + offs[i as int] < BOARD_SPACES);
            if !contains_move(&self.legal_tiles[o + offsets[i]], mv) {
                proof {
                    assert(!g0.legal_tiles@[o + chosen_variant(g0, p as int, v as int).offsets@[i as int]]@.contains(
                        (p, v, o)));
                    assert(0 <= i < chosen_variant(g0, p as int, v as int).offsets@.len());
                    assert(place_error(g0, p as int, v as int, o as int) == Some(GameError::InvalidMove));
                    if fresh_index(g0.legal_tiles@, g0.board, cp as int) {
                        lemma_fresh_index_admits_legal_moves(g0, p as int, v as int, o as int);
                    }
                }
                return Err(GameError::InvalidMove);
            }
            i += 1;
        }
        proof {
            assert(!(exists|k: int|
                0 <= k < chosen_variant(g0, p as int, v as int).offsets@.len() && !g0.legal_tiles@[o
                    + #[trigger] chosen_variant(g0, p as int, v as int).offsets@[k]]@.contains((p, v, o))));
        }
        let mut k: usize = 0;
        while k + 1 < n
            invariant
                self.wf(),
                !self.terminal(),
                self.current_player == cp,
                cp == g0.current_player,
                self.eliminated == g0.eliminated,
                self.board.pieces == g0.board.pieces,
                self.last_piece_lens == g0.last_piece_lens,
                p < g0.board.pieces@[cp as int]@.len(),
                offsets@ == offs,
                mv == (p, v, o),
                n == offs.len(),
                n >= 1,
                0 <= k < n,
                forall|a: int, b: int| 0 <= a < b < n ==> offs[a] < offs[b],
                forall|a: int| 0 <= a < n ==> o + #[trigger] offs[a] < BOARD_SPACES && g0.board.board@[o + offs[a]] == 0,
                self.board.board@.len() == BOARD_SPACES,
                forall|t: int|
                    0 <= t < BOARD_SPACES ==> #[trigger] self.board.board@[t] == if stamped(offs, o as int, k as int, t) {
                        (cp + 1) as u8
                    } else {
                        g0.board.board@[t]
                    },
                self.history@ == g0.history@ + Seq::new(k as nat, |a: int| (cp as i32, (o + offs[a]) as i32)),
                forall|a: int| k <= a < n ==> #[trigger] self.legal_tiles@[o + offs[a]]@.contains(mv),
            decreases n - k,
        {
            let tile = o + offsets[k];
            let ghost g1 = *self;
            proof {
                assert(self.legal_tiles@[tile as int]@.contains(mv));
                if stamped(offs, o as int, k as int, tile as int) {
                    let a = choose|a: int| 0 <= a < k && o + #[trigger] offs[a] == tile;
                }
                assert(self.board.board@[tile as int] == 0);
                let last = o + offs[n - 1];
                assert(self.legal_tiles@[last]@.contains(mv));
                assert(!prune_leaves_nothing(self.legal_tiles@, tile as int));
            }
            let _ = self.apply(tile, None);
            proof {
                assert forall|a: int| k + 1 <= a < n implies #[trigger] self.legal_tiles@[o + offs[a]]@.contains(mv) by {
                    assert(g1.legal_tiles@[o + offs[a]]@.contains(mv));
                }
                assert forall|t: int| 0 <= t < BOARD_SPACES implies #[trigger] self.board.board@[t] == if stamped(
                    offs, o as int, k + 1, t) {
                    (cp + 1) as u8
                } else {
                    g0.board.board@[t]
                } by {
                    if t == tile {
                        assert(stamped(offs, o as int, k + 1, t));
                    } else if stamped(offs, o as int, k + 1, t) {
                        let a = choose|a: int| 0 <= a < k + 1 && o + #[trigger] offs[a] == t;
                        assert(stamped(offs, o as int, k as int, t));
                    } else {
                        assert(!stamped(offs, o as int, k as int, t));
                    }
                }
                assert(self.history@ =~= g0.history@ + Seq::new((k + 1) as nat, |a: int| (cp as i32, (o + offs[a]) as i32)));
            }
            k += 1;
        }
        let tile = o + offsets[k];
        let ghost g1 = *self;
        proof {
            assert(self.legal_tiles@[tile as int]@.contains(mv));
            if stamped(offs, o as int, k as int, tile as int) {
                let a = choose|a: int| 0 <= a < k && o + #[trigger] offs[a] == tile;
            }
            assert(self.board.board@[tile as int] == 0);
        }
        let _ = self.apply(tile, Some(p));
        proof {
            reveal(filled_offsets);
            assert forall|t: int| 0 <= t < BOARD_SPACES implies #[trigger] self.board.board@[t] == if covers(
                var.variant@, o as int, t) {
                (cp + 1) as u8
            } else {
                g0.board.board@[t]
            } by {
                if covers(var.variant@, o as int, t) {
                    let a = choose|a: int| 0 <= a < offs.len() && offs[a] == t - o;
                    if a < k {
                        assert(stamped(offs, o as int, k as int, t));
                    }
                } else if t == tile {
                    assert(var.variant@[offs[n - 1] as int]);
                } else if stamped(offs, o as int, k as int, t) {
                    let a = choose|a: int| 0 <= a < k && o + #[trigger] offs[a] == t;
                    assert(var.variant@[offs[a] as int]);
                }
            }
            assert(self.history@ =~= g0.history@ + Seq::new(n as nat, |a: int| (cp as i32, (o + offs[a]) as i32)));
        }
        Ok(())
    }

    /// Carries out a front end's request. A refused placement changes nothing.
    pub fn reduce(&mut self, action: Action) -> (r: Result<(), GameError>)
        requires
            old(self).wf(),
        ensures
            final(self).wf(),
            match action {
                Action::PlacePiece(p, v, o) => {
                    &&& place_error(*old(self), p as int, v as int, o as int) is Some ==> r == Err::<(), GameError>(
                        place_error(*old(self), p as int, v as int, o as int)->Some_0,
                    ) && *final(self) == *old(self)
                    &&& place_error(*old(self), p as int, v as int, o as int) is None ==> r is Ok && placed(
                        *old(self),
                        *final(self),
                        p as int,
                        v as int,
                        o as int,
                    )
                },
                Action::Pass => {
                    &&& old(self).terminal() ==> r == Err::<(), GameError>(GameError::ActionOnTerminalGame)
                        && *final(self) == *old(self)
                    &&& !old(self).terminal() ==> r is Ok && final(self).board == old(self).board
                        && final(self).history == old(self).history && final(self).last_piece_lens
                        == old(self).last_piece_lens && advanced(
                        old(self).board,
                        old(self).current_player as int,
                        old(self).eliminated@.update(old(self).current_player as int, true),
                        final(self).current_player as int,
                        final(self).eliminated@,
                        final(self).legal_tiles@,
                    )
                },
                Action::ResetGame => r is Ok && final(self).is_new_game(),
            },
    {
        match action {
            Action::PlacePiece(p, v, o) => self.place_piece(p, v, o),
            Action::Pass => {
                if self.is_terminal() {
                    return Err(GameError::ActionOnTerminalGame);
                }
                let cp = self.current_player;
                self.eliminated.set(cp, true);
                if self.is_terminal() {
                    // Every player is out: the game ends where it stands.
                    self.legal_tiles = get_tile_moves(&self.board, cp);
                    proof {
                        assert(step_dist(cp as int, cp as int) == 4);
                        assert forall|t: int, j: int| 0 <= t < BOARD_SPACES && 0 <= j < self.legal_tiles@[t]@.len() implies (
                        #[trigger] self.legal_tiles@[t]@[j]).0 < self.board.pieces@[cp as int]@.len() by {
                            assert(self.legal_tiles@[t]@.contains(self.legal_tiles@[t]@[j]));
                        }
                    }
                    return Ok(());
                }
                self.advance_player();
                Ok(())
            },
            Action::ResetGame => {
                *self = Game::reset();
                Ok(())
            },
        }
    }

    /// The occupancy of the board: zero for empty, else the player plus one.
    pub fn get_board(&self) -> (r: &Vec<u8>)
        ensures
            r == self.board.board,
    {
        &self.board.board
    }

    /// The player to move.
    pub fn current_player(&self) -> (r: usize)
        ensures
            r == self.current_player,
    {
        self.current_player
    }

    /// The player after the current one in cyclic order.
    pub fn next_player(&self) -> (r: usize)
        requires
            self.wf(),
        ensures
            r == (self.current_player + 1) % 4,
    {
        (self.current_player + 1) % NUM_PLAYERS
    }

    /// The pieces the current player has left.
    pub fn get_current_player_pieces(&self) -> (r: &Vec<Piece>)
        requires
            self.wf(),
        ensures
            r == self.board.pieces@[self.current_player as int],
    {
        self.board.get_pieces(self.current_player)
    }

    /// Variant `variant` of piece `piece` of `player`.
    pub fn get_piece(&self, player: usize, piece: usize, variant: usize) -> (r: &PieceVariant)
        requires
            self.wf(),
            player < NUM_PLAYERS,
            piece < self.board.pieces@[player as int]@.len(),
            variant < self.board.pieces@[player as int]@[piece as int].variants@.len(),
        ensures
            *r == self.board.pieces@[player as int]@[piece as int].variants@[variant as int],
    {
        &self.board.pieces[player][piece].variants[variant]
    }

    /// The current player's anchors, ascending.
    pub fn get_current_anchors(&self) -> (r: Vec<usize>)
        requires
            self.wf(),
        ensures
            anchor_list(r@, self.board.board@, self.current_player as int),
    {
        self.board.get_anchors(self.current_player)
    }

    /// The tiles where the current player may place a cell, ascending.
    pub fn get_legal_tiles(&self) -> (r: Vec<usize>)
        requires
            self.wf(),
        ensures
            forall|a: int, b: int| 0 <= a < b < r@.len() ==> r@[a] < r@[b],
            forall|t: usize| #[trigger] r@.contains(t) <==> t < BOARD_SPACES && self.legal_tiles@[t as int]@.len() > 0,
    {
        indexed_tiles(&self.legal_tiles)
    }

    /// The final score of each player.
    pub fn get_score(&self) -> (r: Vec<i32>)
        requires
            self.wf(),
        ensures
            r@.len() == NUM_PLAYERS,
            forall|q: int|
                0 <= q < NUM_PLAYERS ==> r@[q] == player_score(
                    #[trigger] self.board.pieces@[q]@,
                    self.last_piece_lens@[q],
                ),
    {
        self.board.get_scores(&self.last_piece_lens)
    }

    /// The players tied for the highest score; the payoff is split evenly
    /// among them.
    pub fn get_winners(&self) -> (r: Vec<bool>)
        requires
            self.wf(),
        ensures
            r@.len() == NUM_PLAYERS,
            forall|q: int|
                0 <= q < NUM_PLAYERS ==> (#[trigger] r@[q] <==> forall|x: int|
                    0 <= x < NUM_PLAYERS ==> player_score(self.board.pieces@[x]@, self.last_piece_lens@[x])
                        <= player_score(self.board.pieces@[q]@, self.last_piece_lens@[q])),
    {
        let scores = self.get_score();
        let r = winners(&scores);
        proof {
            assert forall|q: int| 0 <= q < NUM_PLAYERS implies (#[trigger] r@[q] <==> forall|x: int|
                0 <= x < NUM_PLAYERS ==> player_score(self.board.pieces@[x]@, self.last_piece_lens@[x])
                    <= player_score(self.board.pieces@[q]@, self.last_piece_lens@[q])) by {
                assert(scores@[q] == player_score(self.board.pieces@[q]@, self.last_piece_lens@[q]));
                if !r@[q] {
                    let x = choose|x: int| 0 <= x < scores@.len() && scores@[x] > scores@[q];
                    assert(scores@[x] == player_score(self.board.pieces@[x]@, self.last_piece_lens@[x]));
                }
            }
        }
        r
    }

    /// Whether the player is still in the game.
    pub fn is_player_active(&self, player: usize) -> (r: bool)
        requires
            self.wf(),
            player < NUM_PLAYERS,
        ensures
            r == !self.eliminated@[player as int],
    {
        !self.eliminated[player]
    }

    /// The feature tensor from the current player's point of view: plane `i`
    /// below four marks the cells of the player `i` turns after the current
    /// one, plane four the legal tiles; the board is turned a quarter turn
    /// to the left once per seat of the current player.
    pub fn get_board_state(&self) -> (r: Vec<Vec<Vec<bool>>>)
        requires
            self.wf(),
        ensures
            tensor_shape(r@),
            forall|i: int, j: int, k: int|
                0 <= i < 5 && 0 <= j < BOARD_SIZE && 0 <= k < BOARD_SIZE ==> #[trigger] r@[i]@[j]@[k] == plane_cell(
                    *self,
                    i,
                    source_cell(self.current_player as nat, j, k),
                ),
    {
        let mut board_state: Vec<Vec<Vec<bool>>> = Vec::new();
        let cp = self.current_player;
        let mut i: usize = 0;
        while i < 5
            invariant
                self.wf(),
                cp == self.current_player,
                0 <= i <= 5,
                board_state@.len() == i,
                forall|a: int| 0 <= a < i ==> (#[trigger] board_state@[a])@.len() == BOARD_SIZE,
                forall|a: int, j: int| 0 <= a < i && 0 <= j < BOARD_SIZE ==> (#[trigger] board_state@[a]@[j])@.len() == BOARD_SIZE,
                forall|a: int, j: int, k: int|
                    0 <= a < i && 0 <= j < BOARD_SIZE && 0 <= k < BOARD_SIZE ==> #[trigger] board_state@[a]@[j]@[k]
                        == plane_cell(*self, a, (j, k)),
            decreases 5 - i,
        {
            let mut plane: Vec<Vec<bool>> = Vec::new();
            let mut j: usize = 0;
            while j < BOARD_SIZE
                invariant
                    self.wf(),
                    cp == self.current_player,
                    0 <= i < 5,
                    0 <= j <= BOARD_SIZE,
                    plane@.len() == j,
                    forall|b: int| 0 <= b < j ==> (#[trigger] plane@[b])@.len() == BOARD_SIZE,
                    forall|b: int, k: int|
                        0 <= b < j && 0 <= k < BOARD_SIZE ==> #[trigger] plane@[b]@[k] == plane_cell(*self, i as int, (b, k)),
                decreases BOARD_SIZE - j,
            {
                let mut row: Vec<bool> = Vec::new();
                let mut k: usize = 0;
                while k < BOARD_SIZE
                    invariant
                        self.wf(),
                        cp == self.current_player,
                        0 <= i < 5,
                        0 <= j < BOARD_SIZE,
                        0 <= k <= BOARD_SIZE,
                        row@.len() == k,
                        forall|c: int| 0 <= c < k ==> #[trigger] row@[c] == plane_cell(*self, i as int, (j as int, c)),
                    decreases BOARD_SIZE - k,
                {
                    let tile = j * BOARD_SIZE + k;
                    let cell = if i < 4 {
                        self.board.board[tile] as usize == (i + cp) % NUM_PLAYERS + 1
                    } else {
                        self.legal_tiles[tile].len() > 0
                    };
                    row.push(cell);
                    k += 1;
                }
                plane.push(row);
                j += 1;
            }
            board_state.push(plane);
            i += 1;
        }
        let mut turns: usize = 0;
        while turns < cp
            invariant
                self.wf(),
                cp == self.current_player,
                0 <= turns <= cp,
                tensor_shape(board_state@),
                forall|a: int, j: int, k: int|
                    0 <= a < 5 && 0 <= j < BOARD_SIZE && 0 <= k < BOARD_SIZE ==> #[trigger] board_state@[a]@[j]@[k]
                        == plane_cell(*self, a, source_cell(turns as nat, j, k)),
            decreases cp - turns,
        {
            let ghost prev = board_state@;
            board_state = rotate_state(&board_state);
            proof {
                assert forall|a: int, j: int, k: int|
                    0 <= a < 5 && 0 <= j < BOARD_SIZE && 0 <= k < BOARD_SIZE implies #[trigger] board_state@[a]@[j]@[k]
                        == plane_cell(*self, a, source_cell((turns + 1) as nat, j, k)) by {
                    assert(board_state@[a]@[j]@[k] == prev[a]@[k]@[BOARD_SIZE - 1 - j]);
                    assert(source_cell((turns + 1) as nat, j, k) == source_cell(turns as nat, k, BOARD_SIZE - 1 - j));
                }
            }
            turns += 1;
        }
        board_state
    }
}

/// Five planes of `BOARD_SIZE` rows of `BOARD_SIZE` cells.
pub open spec fn tensor_shape(s: Seq<Vec<Vec<bool>>>) -> bool {
    &&& s.len() == 5
    &&& forall|i: int| 0 <= i < 5 ==> (#[trigger] s[i])@.len() == BOARD_SIZE
    &&& forall|i: int, j: int| 0 <= i < 5 && 0 <= j < BOARD_SIZE ==> (#[trigger] s[i]@[j])@.len() == BOARD_SIZE
}

/// The cell that lands on row `j`, column `k` after `n` quarter turns to the left.
pub open spec fn source_cell(n: nat, j: int, k: int) -> (int, int)
    decreases n,
{
    if n == 0 {
        (j, k)
    } else {
        source_cell((n - 1) as nat, k, BOARD_SIZE - 1 - j)
    }
}

/// Cell `(row, col)` of plane `i` before turning: planes below four mark
/// the cells of the player `i` seats after the current one, plane four the
/// tiles with indexed moves.
pub open spec fn plane_cell(g: Game, i: int, rc: (int, int)) -> bool {
    let tile = rc.0 * BOARD_SIZE + rc.1;
    if i < 4 {
        g.board.board@[tile] as int == (i + g.current_player) % 4 + 1
    } else {
        g.legal_tiles@[tile]@.len() > 0
    }
}

/// Turns every plane of the tensor a quarter turn to the left.
pub fn rotate_state(state: &Vec<Vec<Vec<bool>>>) -> (r: Vec<Vec<Vec<bool>>>)
    requires
        tensor_shape(state@),
    ensures
        tensor_shape(r@),
        forall|i: int, j: int, k: int|
            0 <= i < 5 && 0 <= j < BOARD_SIZE && 0 <= k < BOARD_SIZE ==> #[trigger] r@[i]@[j]@[k]
                == state@[i]@[k]@[BOARD_SIZE - 1 - j],
{
    let mut new_state: Vec<Vec<Vec<bool>>> = Vec::new();
    let mut i: usize = 0;
    while i < 5
        invariant
            tensor_shape(state@),
            0 <= i <= 5,
            new_state@.len() == i,
            forall|a: int| 0 <= a < i ==> (#[trigger] new_state@[a])@.len() == BOARD_SIZE,
            forall|a: int, j: int| 0 <= a < i && 0 <= j < BOARD_SIZE ==> (#[trigger] new_state@[a]@[j])@.len() == BOARD_SIZE,
            forall|a: int, j: int, k: int|
                0 <= a < i && 0 <= j < BOARD_SIZE && 0 <= k < BOARD_SIZE ==> #[trigger] new_state@[a]@[j]@[k]
                    == state@[a]@[k]@[BOARD_SIZE - 1 - j],
        decreases 5 - i,
    {
        let mut plane: Vec<Vec<bool>> = Vec::new();
        let mut j: usize = 0;
        while j < BOARD_SIZE
            invariant
                tensor_shape(state@),
                0 <= i < 5,
                0 <= j <= BOARD_SIZE,
                plane@.len() == j,
                forall|b: int| 0 <= b < j ==> (#[trigger] plane@[b])@.len() == BOARD_SIZE,
                forall|b: int, k: int|
                    0 <= b < j && 0 <= k < BOARD_SIZE ==> #[trigger] plane@[b]@[k] == state@[i as int]@[k]@[BOARD_SIZE - 1 - b],
            decreases BOARD_SIZE - j,
        {
            let mut row: Vec<bool> = Vec::new();
            let mut k: usize = 0;
            while k < BOARD_SIZE
                invariant
                    tensor_shape(state@),
                    0 <= i < 5,
                    0 <= j < BOARD_SIZE,
                    0 <= k <= BOARD_SIZE,
                    row@.len() == k,
                    forall|c: int| 0 <= c < k ==> #[trigger] row@[c] == state@[i as int]@[c]@[BOARD_SIZE - 1 - j],
                decreases BOARD_SIZE - k,
            {
                assert(state@[i as int]@[k as int]@.len() == BOARD_SIZE);
                row.push(state[i][k][BOARD_SIZE - j - 1]);
                k += 1;
            }
            plane.push(row);
            j += 1;
        }
        new_state.push(plane);
        i += 1;
    }
    new_state
}

/// Marks the players whose score is the highest; all of them share the payoff.
pub fn winners(scores: &Vec<i32>) -> (r: Vec<bool>)
    ensures
        r@.len() == scores@.len(),
        forall|q: int|
            0 <= q < scores@.len() ==> (#[trigger] r@[q] <==> forall|x: int|
                0 <= x < scores@.len() ==> scores@[x] <= scores@[q]),
{
    let mut r: Vec<bool> = Vec::new();
    if scores.len() == 0 {
        return r;
    }
    let mut best: i32 = scores[0];
    let mut i: usize = 1;
    while i < scores.len()
        invariant
            1 <= i <= scores@.len(),
            exists|x: int| 0 <= x < i && scores@[x] == best,
            forall|x: int| 0 <= x < i ==> scores@[x] <= best,
        decreases scores@.len() - i,
    {
        if scores[i] > best {
            best = scores[i];
        }
        i += 1;
    }
    let mut q: usize = 0;
    while q < scores.len()
        invariant
            0 <= q <= scores@.len(),
            r@.len() == q,
            exists|x: int| 0 <= x < scores@.len() && scores@[x] == best,
            forall|x: int| 0 <= x < scores@.len() ==> scores@[x] <= best,
            forall|a: int|
                0 <= a < q ==> (#[trigger] r@[a] <==> forall|x: int| 0 <= x < scores@.len() ==> scores@[x] <= scores@[a]),
        decreases scores@.len() - q,
    {
        r.push(scores[q] == best);
        q += 1;
    }
    r
}

} // verus!
