//! The tile-indexed legal-move index of the player to move.
use vstd::prelude::*;

use crate::board::{anchor_list, is_anchor, valid_move, Board, GameError, BOARD_SPACES, NUM_PLAYERS};
use crate::pieces::{filled_offsets, lemma_variant_offsets, PieceVariant};

verus! {

/// A move: piece index in the inventory, variant index, placement origin.
pub type MoveId = (usize, usize, usize);

/// The variant that a move names.
pub open spec fn variant_of(board: Board, p: int, m: MoveId) -> PieceVariant {
    board.pieces@[p]@[m.0 as int].variants@[m.1 as int]
}

/// The move names a piece the player holds and one of its variants.
pub open spec fn names_variant(board: Board, p: int, m: MoveId) -> bool {
    &&& m.0 < board.pieces@[p]@.len()
    &&& m.1 < board.pieces@[p]@[m.0 as int].variants@.len()
}

/// The scan finds `m`: some filled-cell offset of its variant, aligned onto
/// one of the player's anchors, gives its origin, and the placement is legal.
pub open spec fn scanned(board: Board, p: int, m: MoveId) -> bool {
    &&& names_variant(board, p, m)
    &&& exists|a: int, k: int|
        #![trigger is_anchor(board.board@, p, a), variant_of(board, p, m).offsets@[k]]
        0 <= k < variant_of(board, p, m).offsets@.len() && is_anchor(board.board@, p, a)
            && variant_of(board, p, m).offsets@[k] <= a && m.2 == a - variant_of(board, p, m).offsets@[k]
    &&& valid_move(board.board@, p, variant_of(board, p, m).variant@, m.2 as int)
}

/// A layout placed at `o` fills tile `t`.
pub open spec fn covers(layout: Seq<bool>, o: int, t: int) -> bool {
    o <= t < o + layout.len() && layout[t - o]
}

/// The move fills tile `t`.
pub open spec fn move_covers(board: Board, p: int, m: MoveId, t: int) -> bool {
    covers(variant_of(board, p, m).variant@, m.2 as int, t)
}

/// `idx` is the index built from scratch for player `p`: for each tile, the
/// scanned moves that fill it, each once.
pub open spec fn fresh_index(idx: Seq<Vec<MoveId>>, board: Board, p: int) -> bool {
    &&& idx.len() == BOARD_SPACES
    &&& forall|t: int| 0 <= t < BOARD_SPACES ==> (#[trigger] idx[t])@.no_duplicates()
    &&& forall|t: int, m: MoveId|
        0 <= t < BOARD_SPACES ==> (#[trigger] idx[t]@.contains(m) <==> scanned(board, p, m)
            && move_covers(board, p, m, t))
}

/// `new` is `old` pruned after a placement on tile `t`: the entry of `t` is
/// dropped and every other entry keeps only the moves also indexed under `t`.
pub open spec fn pruned(old: Seq<Vec<MoveId>>, new: Seq<Vec<MoveId>>, t: int) -> bool {
    &&& new.len() == old.len()
    &&& new[t]@.len() == 0
    &&& forall|u: int| 0 <= u < new.len() && old[u]@.no_duplicates() ==> (#[trigger] new[u])@.no_duplicates()
    &&& forall|u: int, m: MoveId|
        0 <= u < new.len() && u != t ==> (#[trigger] new[u]@.contains(m) <==> old[u]@.contains(m)
            && old[t]@.contains(m))
}

/// No tile has a move.
pub open spec fn index_empty(idx: Seq<Vec<MoveId>>) -> bool {
    forall|t: int| 0 <= t < idx.len() ==> (#[trigger] idx[t])@.len() == 0
}

/// The player has a legal move.
pub open spec fn has_moves(board: Board, p: int) -> bool {
    exists|m: MoveId| scanned(board, p, m)
}

/// The tiles a legal placement fills.
fn placement_tiles(variant: &PieceVariant, o: usize, Ghost(board): Ghost<Board>, Ghost(p): Ghost<int>) -> (r: Vec<usize>)
    requires
        board.wf(),
        0 <= p < NUM_PLAYERS,
        valid_move(board.board@, p, variant.variant@, o as int),
    ensures
        forall|t: usize| #[trigger] r@.contains(t) <==> covers(variant.variant@, o as int, t as int),
        forall|a: int| 0 <= a < r@.len() ==> r@[a] < BOARD_SPACES,
        r@.no_duplicates(),
{
    let mut tiles: Vec<usize> = Vec::new();
    let mut j: usize = 0;
    while j < variant.variant.len()
        invariant
            valid_move(board.board@, p, variant.variant@, o as int),
            0 <= j <= variant.variant@.len(),
            forall|a: int, b: int| 0 <= a < b < tiles@.len() ==> tiles@[a] < tiles@[b],
            forall|a: int| 0 <= a < tiles@.len() ==> o <= tiles@[a] < o + j && tiles@[a] < BOARD_SPACES,
            forall|t: usize|
                #[trigger] tiles@.contains(t) <==> t < o + j && covers(variant.variant@, o as int, t as int),
        decreases variant.variant@.len() - j,
    {
        let ghost prev = tiles@;
        if variant.variant[j] {
            assert(crate::board::cell_ok(board.board@, p, o as int, j as int));
            tiles.push(o + j);
        }
        proof {
            assert forall|t: usize| #[trigger] tiles@.contains(t) <==> t < o + j + 1 && covers(
                variant.variant@,
                o as int,
                t as int,
            ) by {
                if tiles@.contains(t) {
                    let a = choose|a: int| 0 <= a < tiles@.len() && tiles@[a] == t;
                    if a < prev.len() {
                        assert(prev[a] == t);
                        assert(prev.contains(t));
                    }
                }
                if t < o + j + 1 && covers(variant.variant@, o as int, t as int) {
                    if t < o + j {
                        assert(prev.contains(t));
                        let a = choose|a: int| 0 <= a < prev.len() && prev[a] == t;
                        assert(tiles@[a] == t);
                    } else {
                        assert(tiles@[tiles@.len() - 1] == t);
                    }
                }
            }
        }
        j += 1;
    }
    proof {
        assert forall|a: int, b: int| 0 <= a < tiles@.len() && 0 <= b < tiles@.len() && a != b implies tiles@[a]
            != tiles@[b] by {
            assert(a < b || b < a);
        }
    }
    tiles
}

/// The legal moves of one piece of the player, with the tiles each fills.
pub fn get_piece_moves(piece_i: usize, board: &Board, player: usize) -> (r: (Vec<MoveId>, Vec<Vec<usize>>))
    requires
        board.wf(),
        player < NUM_PLAYERS,
        piece_i < board.pieces@[player as int]@.len(),
    ensures
        r.0@.len() == r.1@.len(),
        forall|k: int| 0 <= k < r.0@.len() ==> (#[trigger] r.0@[k]).0 == piece_i && scanned(*board, player as int, r.0@[k]),
        forall|k: int, t: usize|
            0 <= k < r.0@.len() ==> (#[trigger] r.1@[k]@.contains(t) <==> move_covers(
                *board,
                player as int,
                r.0@[k],
                t as int,
            )),
        forall|k: int, a: int| 0 <= k < r.1@.len() && 0 <= a < r.1@[k]@.len() ==> (#[trigger] r.1@[k]@[a]) < BOARD_SPACES,
        forall|k: int| 0 <= k < r.1@.len() ==> (#[trigger] r.1@[k])@.no_duplicates(),
        forall|m: MoveId| m.0 == piece_i && scanned(*board, player as int, m) ==> r.0@.contains(m),
{
    let ghost p = player as int;
    let mut moves: Vec<MoveId> = Vec::new();
    let mut tile_groups: Vec<Vec<usize>> = Vec::new();
    let piece = &board.get_pieces(player)[piece_i];
    let anchors = board.get_anchors(player);
    let mut ai: usize = 0;
    while ai < anchors.len()
        invariant
            board.wf(),
            player < NUM_PLAYERS,
            p == player as int,
            piece_i < board.pieces@[p]@.len(),
            *piece == board.pieces@[p]@[piece_i as int],
            anchor_list(anchors@, board.board@, p),
            0 <= ai <= anchors@.len(),
            moves@.len() == tile_groups@.len(),
            forall|k: int| 0 <= k < moves@.len() ==> (#[trigger] moves@[k]).0 == piece_i && scanned(*board, p, moves@[k]),
            forall|k: int, t: usize|
                0 <= k < moves@.len() ==> (#[trigger] tile_groups@[k]@.contains(t)
                    <==> move_covers(*board, p, moves@[k], t as int)),
            forall|k: int, a: int|
                0 <= k < tile_groups@.len() && 0 <= a < tile_groups@[k]@.len() ==> (#[trigger] tile_groups@[k]@[a])
                    < BOARD_SPACES,
            forall|k: int| 0 <= k < tile_groups@.len() ==> (#[trigger] tile_groups@[k])@.no_duplicates(),
            forall|m: MoveId, a: int, k: int|
                #![trigger anchors@[a], variant_of(*board, p, m).offsets@[k]]
                m.0 == piece_i && names_variant(*board, p, m) && 0 <= a < ai && 0 <= k < variant_of(*board, p, m).offsets@.len()
                    && variant_of(*board, p, m).offsets@[k] <= anchors@[a] && m.2 == anchors@[a]
                    - variant_of(*board, p, m).offsets@[k] && valid_move(board.board@, p, variant_of(*board, p, m).variant@, m.2 as int)
                    ==> moves@.contains(m),
        decreases anchors@.len() - ai,
    {
        let anchor = anchors[ai];
        let mut vi: usize = 0;
        while vi < piece.variants.len()
            invariant
                board.wf(),
                player < NUM_PLAYERS,
                p == player as int,
                piece_i < board.pieces@[p]@.len(),
                *piece == board.pieces@[p]@[piece_i as int],
                anchor_list(anchors@, board.board@, p),
                0 <= ai < anchors@.len(),
                anchor == anchors@[ai as int],
                0 <= vi <= piece.variants@.len(),
                moves@.len() == tile_groups@.len(),
                forall|k: int| 0 <= k < moves@.len() ==> (#[trigger] moves@[k]).0 == piece_i && scanned(*board, p, moves@[k]),
                forall|k: int, t: usize|
                    0 <= k < moves@.len() ==> (#[trigger] tile_groups@[k]@.contains(t)
                        <==> move_covers(*board, p, moves@[k], t as int)),
                forall|k: int, a: int|
                    0 <= k < tile_groups@.len() && 0 <= a < tile_groups@[k]@.len() ==> (#[trigger] tile_groups@[k]@[a])
                        < BOARD_SPACES,
                forall|k: int| 0 <= k < tile_groups@.len() ==> (#[trigger] tile_groups@[k])@.no_duplicates(),
                forall|m: MoveId, a: int, k: int|
                #![trigger anchors@[a], variant_of(*board, p, m).offsets@[k]]
                    m.0 == piece_i && names_variant(*board, p, m) && (0 <= a < ai || (a == ai && m.1 < vi)) && 0 <= k
                        < variant_of(*board, p, m).offsets@.len() && variant_of(*board, p, m).offsets@[k]
                        <= anchors@[a] && m.2 == anchors@[a] - variant_of(*board, p, m).offsets@[k] && valid_move(
                        board.board@,
                        p,
                        variant_of(*board, p, m).variant@,
                        m.2 as int,
                    ) ==> moves@.contains(m),
            decreases piece.variants@.len() - vi,
        {
            let variant = &piece.variants[vi];
            let mut oi: usize = 0;
            while oi < variant.offsets.len()
                invariant
                    board.wf(),
                    player < NUM_PLAYERS,
                    p == player as int,
                    piece_i < board.pieces@[p]@.len(),
                    *piece == board.pieces@[p]@[piece_i as int],
                    anchor_list(anchors@, board.board@, p),
                    0 <= ai < anchors@.len(),
                    anchor == anchors@[ai as int],
                    0 <= vi < piece.variants@.len(),
                    *variant == piece.variants@[vi as int],
                    0 <= oi <= variant.offsets@.len(),
                    moves@.len() == tile_groups@.len(),
                    forall|k: int| 0 <= k < moves@.len() ==> (#[trigger] moves@[k]).0 == piece_i && scanned(*board, p, moves@[k]),
                    forall|k: int, t: usize|
                        0 <= k < moves@.len() ==> (#[trigger] tile_groups@[k]@.contains(t)
                            <==> move_covers(*board, p, moves@[k], t as int)),
                    forall|k: int, a: int|
                        0 <= k < tile_groups@.len() && 0 <= a < tile_groups@[k]@.len() ==> (#[trigger] tile_groups@[k]@[a])
                            < BOARD_SPACES,
                    forall|k: int| 0 <= k < tile_groups@.len() ==> (#[trigger] tile_groups@[k])@.no_duplicates(),
                    forall|m: MoveId, a: int, k: int|
                #![trigger anchors@[a], variant_of(*board, p, m).offsets@[k]]
                        m.0 == piece_i && names_variant(*board, p, m) && (0 <= a < ai || (a == ai && m.1 < vi) || (a == ai
                            && m.1 == vi && k < oi)) && 0 <= k < variant_of(*board, p, m).offsets@.len()
                            && variant_of(*board, p, m).offsets@[k] <= anchors@[a] && m.2 == anchors@[a]
                            - variant_of(*board, p, m).offsets@[k] && valid_move(
                            board.board@,
                            p,
                            variant_of(*board, p, m).variant@,
                            m.2 as int,
                        ) ==> moves@.contains(m),
                decreases variant.offsets@.len() - oi,
            {
                let offset = variant.offsets[oi];
                let ghost prev_moves = moves@;
                if offset <= anchor {
                    let total_offset = anchor - offset;
                    if board.is_valid_move(player, variant, total_offset) {
                        let ghost m: MoveId = (piece_i, vi, total_offset);
                        assert(variant_of(*board, p, m) == *variant);
                        assert(is_anchor(board.board@, p, anchors@[ai as int] as int));
                        assert(scanned(*board, p, m));
                        let tiles = placement_tiles(variant, total_offset, Ghost(*board), Ghost(p));
                        moves.push((piece_i, vi, total_offset));
                        tile_groups.push(tiles);
                        assert(moves@[moves@.len() - 1] == m);
                    }
                }
                proof {
                    assert forall|m: MoveId, a: int, k: int|
                        #![trigger anchors@[a], variant_of(*board, p, m).offsets@[k]]
                        m.0 == piece_i && names_variant(*board, p, m) && (0 <= a < ai || (a == ai && m.1 < vi) || (a
                            == ai && m.1 == vi && k < oi + 1)) && 0 <= k < variant_of(*board, p, m).offsets@.len()
                            && variant_of(*board, p, m).offsets@[k] <= anchors@[a] && m.2 == anchors@[a]
                            - variant_of(*board, p, m).offsets@[k] && valid_move(
                            board.board@,
                            p,
                            variant_of(*board, p, m).variant@,
                            m.2 as int,
                        ) implies moves@.contains(m) by {
                        if a == ai && m.1 == vi && k == oi {
                            assert(variant_of(*board, p, m) == *variant);
                            assert(moves@[moves@.len() - 1] == m);
                        } else {
                            assert(prev_moves.contains(m));
                            let w = choose|w: int| 0 <= w < prev_moves.len() && prev_moves[w] == m;
                            assert(moves@[w] == m);
                        }
                    }
                }
                oi += 1;
            }
            vi += 1;
        }
        ai += 1;
    }
    proof {
        assert forall|m: MoveId| m.0 == piece_i && scanned(*board, p, m) implies moves@.contains(m) by {
            let (a, k) = choose|a: int, k: int|
                #![trigger is_anchor(board.board@, p, a), variant_of(*board, p, m).offsets@[k]]
                0 <= k < variant_of(*board, p, m).offsets@.len() && is_anchor(board.board@, p, a)
                    && variant_of(*board, p, m).offsets@[k] <= a && m.2 == a - variant_of(*board, p, m).offsets@[k];
            let ia = choose|ia: int| 0 <= ia < anchors@.len() && anchors@[ia] == a;
            assert(variant_of(*board, p, m).offsets@[k] <= anchors@[ia]);
        }
    }
    (moves, tile_groups)
}

/// The legal moves of the player over every piece held, with the tiles each fills.
pub fn get_moves(board: &Board, player: usize) -> (r: (Vec<MoveId>, Vec<Vec<usize>>))
    requires
        board.wf(),
        player < NUM_PLAYERS,
    ensures
        r.0@.len() == r.1@.len(),
        forall|k: int| 0 <= k < r.0@.len() ==> scanned(*board, player as int, #[trigger] r.0@[k]),
        forall|k: int, t: usize|
            0 <= k < r.0@.len() ==> (#[trigger] r.1@[k]@.contains(t) <==> move_covers(
                *board,
                player as int,
                r.0@[k],
                t as int,
            )),
        forall|k: int, a: int| 0 <= k < r.1@.len() && 0 <= a < r.1@[k]@.len() ==> (#[trigger] r.1@[k]@[a]) < BOARD_SPACES,
        forall|m: MoveId| scanned(*board, player as int, m) ==> r.0@.contains(m),
{
    let ghost p = player as int;
    let mut moves: Vec<MoveId> = Vec::new();
    let mut tile_groups: Vec<Vec<usize>> = Vec::new();
    let n = board.get_pieces(player).len();
    let mut piece: usize = 0;
    while piece < n
        invariant
            board.wf(),
            player < NUM_PLAYERS,
            p == player as int,
            n == board.pieces@[p]@.len(),
            0 <= piece <= n,
            moves@.len() == tile_groups@.len(),
            forall|k: int| 0 <= k < moves@.len() ==> scanned(*board, p, #[trigger] moves@[k]),
            forall|k: int, t: usize|
                0 <= k < moves@.len() ==> (#[trigger] tile_groups@[k]@.contains(t) <==> move_covers(
                    *board,
                    p,
                    moves@[k],
                    t as int,
                )),
            forall|k: int, a: int|
                0 <= k < tile_groups@.len() && 0 <= a < tile_groups@[k]@.len() ==> (#[trigger] tile_groups@[k]@[a])
                    < BOARD_SPACES,
            forall|m: MoveId| m.0 < piece && scanned(*board, p, m) ==> #[trigger] moves@.contains(m),
        decreases n - piece,
    {
        let ghost prev_moves = moves@;
        let ghost prev_groups = tile_groups@;
        let (mut piece_moves, mut piece_tiles) = get_piece_moves(piece, board, player);
        let ghost pm = piece_moves@;
        let ghost pt = piece_tiles@;
        moves.append(&mut piece_moves);
        tile_groups.append(&mut piece_tiles);
        proof {
            assert forall|k: int| 0 <= k < moves@.len() implies scanned(*board, p, #[trigger] moves@[k]) by {
                if k >= prev_moves.len() {
                    assert(moves@[k] == pm[k - prev_moves.len()]);
                }
            }
            assert forall|k: int, t: usize| 0 <= k < moves@.len() implies (#[trigger] tile_groups@[k]@.contains(t)
                <==> move_covers(*board, p, moves@[k], t as int)) by {
                if k >= prev_moves.len() {
                    assert(moves@[k] == pm[k - prev_moves.len()]);
                    assert(tile_groups@[k] == pt[k - prev_moves.len()]);
                    assert(pt[k - prev_moves.len()]@.contains(t) <==> move_covers(*board, p, pm[k - prev_moves.len()], t as int));
                } else {
                    assert(moves@[k] == prev_moves[k]);
                    assert(tile_groups@[k] == prev_groups[k]);
                }
            }
            assert forall|k: int, a: int|
                0 <= k < tile_groups@.len() && 0 <= a < tile_groups@[k]@.len() implies (#[trigger] tile_groups@[k]@[a])
                    < BOARD_SPACES by {
                if k >= prev_groups.len() {
                    assert(tile_groups@[k] == pt[k - prev_groups.len()]);
                } else {
                    assert(tile_groups@[k] == prev_groups[k]);
                }
            }
            assert forall|m: MoveId| m.0 < piece + 1 && scanned(*board, p, m) implies #[trigger] moves@.contains(m) by {
                if m.0 < piece {
                    assert(prev_moves.contains(m));
                    let w = choose|w: int| 0 <= w < prev_moves.len() && prev_moves[w] == m;
                    assert(moves@[w] == m);
                } else {
                    assert(pm.contains(m));
                    let w = choose|w: int| 0 <= w < pm.len() && pm[w] == m;
                    assert(moves@[prev_moves.len() + w] == m);
                }
            }
        }
        piece += 1;
    }
    (moves, tile_groups)
}

/// Whether `m` is in `ms`.
pub fn contains_move(ms: &Vec<MoveId>, m: MoveId) -> (r: bool)
    ensures
        r == ms@.contains(m),
{
    let mut i: usize = 0;
    while i < ms.len()
        invariant
            0 <= i <= ms@.len(),
            forall|a: int| 0 <= a < i ==> ms@[a] != m,
        decreases ms@.len() - i,
    {
        if ms[i].0 == m.0 && ms[i].1 == m.1 && ms[i].2 == m.2 {
            assert(ms@[i as int] == m);
            return true;
        }
        i += 1;
    }
    false
}

/// `u` is among the first `g` entries of `s`.
pub open spec fn prefix_has(s: Seq<usize>, g: int, u: usize) -> bool {
    exists|w: int| 0 <= w < g && #[trigger] s[w] == u
}

/// Move `m` is listed under tile `t` by one of the first `k` groups.
pub open spec fn listed(moves: Seq<MoveId>, groups: Seq<Vec<usize>>, k: int, t: usize, m: MoveId) -> bool {
    exists|j: int| 0 <= j < k && moves[j] == m && #[trigger] groups[j]@.contains(t)
}

/// The index of the player's legal moves built from scratch: for each tile,
/// the moves that would fill it.
pub fn get_tile_moves(board: &Board, player: usize) -> (r: Vec<Vec<MoveId>>)
    requires
        board.wf(),
        player < NUM_PLAYERS,
    ensures
        fresh_index(r@, *board, player as int),
{
    let ghost p = player as int;
    let (moves, tile_groups) = get_moves(board, player);
    let mut tile_rep: Vec<Vec<MoveId>> = Vec::new();
    let mut t: usize = 0;
    while t < BOARD_SPACES
        invariant
            0 <= t <= BOARD_SPACES,
            tile_rep@.len() == t,
            forall|u: int| 0 <= u < t ==> (#[trigger] tile_rep@[u])@.len() == 0,
        decreases BOARD_SPACES - t,
    {
        tile_rep.push(Vec::new());
        t += 1;
    }
    let mut k: usize = 0;
    while k < moves.len()
        invariant
            moves@.len() == tile_groups@.len(),
            forall|j: int, a: int| 0 <= j < tile_groups@.len() && 0 <= a < tile_groups@[j]@.len() ==> (#[trigger] tile_groups@[j]@[a])
                < BOARD_SPACES,
            0 <= k <= moves@.len(),
            tile_rep@.len() == BOARD_SPACES,
            forall|u: int| 0 <= u < BOARD_SPACES ==> (#[trigger] tile_rep@[u])@.no_duplicates(),
            forall|u: usize, m: MoveId|
                u < BOARD_SPACES ==> (#[trigger] tile_rep@[u as int]@.contains(m) <==> listed(
                    moves@,
                    tile_groups@,
                    k as int,
                    u,
                    m,
                )),
        decreases moves@.len() - k,
    {
        let id = moves[k];
        let tiles = &tile_groups[k];
        let mut g: usize = 0;
        while g < tiles.len()
            invariant
                moves@.len() == tile_groups@.len(),
                forall|j: int, a: int| 0 <= j < tile_groups@.len() && 0 <= a < tile_groups@[j]@.len() ==> (#[trigger] tile_groups@[j]@[a])
                    < BOARD_SPACES,
                0 <= k < moves@.len(),
                id == moves@[k as int],
                *tiles == tile_groups@[k as int],
                0 <= g <= tiles@.len(),
                tile_rep@.len() == BOARD_SPACES,
                forall|u: int| 0 <= u < BOARD_SPACES ==> (#[trigger] tile_rep@[u])@.no_duplicates(),
                forall|u: usize, m: MoveId|
                    u < BOARD_SPACES ==> (#[trigger] tile_rep@[u as int]@.contains(m) <==> listed(
                        moves@,
                        tile_groups@,
                        k as int,
                        u,
                        m,
                    ) || (m == id && prefix_has(tiles@, g as int, u))),
            decreases tiles@.len() - g,
        {
            let tile = tiles[g];
            assert(tile < BOARD_SPACES);
            let ghost before = tile_rep@;
            if !contains_move(&tile_rep[tile], id) {
                tile_rep[tile].push(id);
            }
            proof {
                assert forall|u: int| 0 <= u < BOARD_SPACES implies (#[trigger] tile_rep@[u])@.no_duplicates() by {
                    if u == tile {
                        assert(before[u]@.no_duplicates());
                    } else {
                        assert(tile_rep@[u] == before[u]);
                    }
                }
                assert forall|u: usize, m: MoveId| u < BOARD_SPACES implies (#[trigger] tile_rep@[u as int]@.contains(m)
                    <==> listed(moves@, tile_groups@, k as int, u, m) || (m == id && prefix_has(tiles@, g + 1, u))) by {
                    if prefix_has(tiles@, g + 1, u) && u != tile {
                        let w = choose|w: int| 0 <= w < g + 1 && #[trigger] tiles@[w] == u;
                        assert(prefix_has(tiles@, g as int, u));
                    }
                    if u == tile {
                        assert(prefix_has(tiles@, g + 1, u));
                    }
                    if u == tile {
                        if before[u as int]@.contains(m) {
                            let w = choose|w: int| 0 <= w < before[u as int]@.len() && before[u as int]@[w] == m;
                            assert(tile_rep@[u as int]@[w] == m);
                        }
                        if m == id && !before[u as int]@.contains(m) {
                            assert(tile_rep@[u as int]@ == before[u as int]@.push(id));
                            assert(tile_rep@[u as int]@[before[u as int]@.len() as int] == m);
                        }
                        if tile_rep@[u as int]@.contains(m) && m != id {
                            let w = choose|w: int| 0 <= w < tile_rep@[u as int]@.len() && tile_rep@[u as int]@[w] == m;
                            assert(before[u as int]@[w] == m);
                        }
                    } else {
                        assert(tile_rep@[u as int] == before[u as int]);
                    }
                }
            }
            g += 1;
        }
        proof {
            assert forall|u: usize, m: MoveId| u < BOARD_SPACES implies (#[trigger] tile_rep@[u as int]@.contains(m)
                <==> listed(moves@, tile_groups@, k + 1, u, m)) by {
                if listed(moves@, tile_groups@, k as int, u, m) {
                    let j = choose|j: int| 0 <= j < k && moves@[j] == m && #[trigger] tile_groups@[j]@.contains(u);
                    assert(0 <= j < k + 1 && moves@[j] == m && tile_groups@[j]@.contains(u));
                }
                if listed(moves@, tile_groups@, k + 1, u, m) {
                    let j = choose|j: int| 0 <= j < k + 1 && moves@[j] == m && #[trigger] tile_groups@[j]@.contains(u);
                    if j < k {
                        assert(listed(moves@, tile_groups@, k as int, u, m));
                    }
                }
                if m == id && prefix_has(tiles@, tiles@.len() as int, u) {
                    let w = choose|w: int| 0 <= w < tiles@.len() && #[trigger] tiles@[w] == u;
                    assert(tile_groups@[k as int]@.contains(u));
                }
                if listed(moves@, tile_groups@, k + 1, u, m) && !listed(moves@, tile_groups@, k as int, u, m) {
                    let w = choose|w: int| 0 <= w < tiles@.len() && tiles@[w] == u;
                    assert(prefix_has(tiles@, tiles@.len() as int, u));
                }
            }
        }
        k += 1;
    }
    proof {
        assert forall|u: int, m: MoveId| 0 <= u < BOARD_SPACES implies (#[trigger] tile_rep@[u]@.contains(m)
            <==> scanned(*board, p, m) && move_covers(*board, p, m, u)) by {
            let uu = u as usize;
            assert(tile_rep@[uu as int]@.contains(m) <==> listed(moves@, tile_groups@, moves@.len() as int, uu, m));
            if listed(moves@, tile_groups@, moves@.len() as int, uu, m) {
                let j = choose|j: int| 0 <= j < moves@.len() && moves@[j] == m && #[trigger] tile_groups@[j]@.contains(uu);
                assert(scanned(*board, p, moves@[j]));
            }
            if scanned(*board, p, m) && move_covers(*board, p, m, u) {
                assert(moves@.contains(m));
                let j = choose|j: int| 0 <= j < moves@.len() && moves@[j] == m;
                assert(tile_groups@[j]@.contains(uu));
            }
        }
    }
    tile_rep
}

/// A copy of a list of moves.
fn copy_moves(ms: &Vec<MoveId>) -> (r: Vec<MoveId>)
    ensures
        r@ == ms@,
{
    let mut out: Vec<MoveId> = Vec::new();
    let mut i: usize = 0;
    while i < ms.len()
        invariant
            0 <= i <= ms@.len(),
            out@ == ms@.subrange(0, i as int),
        decreases ms@.len() - i,
    {
        out.push(ms[i]);
        i += 1;
        assert(out@ =~= ms@.subrange(0, i as int));
    }
    assert(ms@.subrange(0, ms@.len() as int) =~= ms@);
    out
}

/// The moves of `v` that are also in `keep`, in the order of `v`.
fn filter_moves(v: &Vec<MoveId>, keep: &Vec<MoveId>) -> (r: Vec<MoveId>)
    ensures
        forall|m: MoveId| #[trigger] r@.contains(m) <==> v@.contains(m) && keep@.contains(m),
        v@.no_duplicates() ==> r@.no_duplicates(),
{
    let mut out: Vec<MoveId> = Vec::new();
    let mut i: usize = 0;
    while i < v.len()
        invariant
            0 <= i <= v@.len(),
            forall|m: MoveId| #[trigger] out@.contains(m) <==> prefix_has_move(v@, i as int, m) && keep@.contains(m),
            v@.no_duplicates() ==> out@.no_duplicates(),
        decreases v@.len() - i,
    {
        let m = v[i];
        let ghost prev = out@;
        if contains_move(keep, m) {
            out.push(m);
        }
        proof {
            assert forall|x: MoveId| #[trigger] out@.contains(x) <==> prefix_has_move(v@, i + 1, x) && keep@.contains(x) by {
                if out@.contains(x) {
                    let w = choose|w: int| 0 <= w < out@.len() && out@[w] == x;
                    if w < prev.len() {
                        assert(prev[w] == x);
                        assert(prev.contains(x));
                    }
                }
                if prefix_has_move(v@, i + 1, x) && keep@.contains(x) {
                    let w = choose|w: int| 0 <= w < i + 1 && #[trigger] v@[w] == x;
                    if w < i {
                        assert(prefix_has_move(v@, i as int, x));
                        assert(prev.contains(x));
                        let z = choose|z: int| 0 <= z < prev.len() && prev[z] == x;
                        assert(out@[z] == x);
                    } else {
                        assert(out@[out@.len() - 1] == x);
                    }
                }
            }
            if v@.no_duplicates() && out@.len() > prev.len() {
                if prev.contains(m) {
                    let w = choose|w: int| 0 <= w < i && #[trigger] v@[w] == m;
                    assert(v@[w] == v@[i as int]);
                }
                assert forall|a: int, b: int| 0 <= a < out@.len() && 0 <= b < out@.len() && a != b implies out@[a]
                    != out@[b] by {
                    if a == prev.len() && b < prev.len() {
                        assert(prev[b] == out@[b]);
                        assert(!prev.contains(m));
                    } else if b == prev.len() && a < prev.len() {
                        assert(prev[a] == out@[a]);
                        assert(!prev.contains(m));
                    } else if a < prev.len() && b < prev.len() {
                        assert(prev[a] == out@[a] && prev[b] == out@[b]);
                    }
                }
            }
        }
        i += 1;
    }
    proof {
        assert forall|m: MoveId| #[trigger] out@.contains(m) <==> v@.contains(m) && keep@.contains(m) by {
            if v@.contains(m) {
                let w = choose|w: int| 0 <= w < v@.len() && v@[w] == m;
                assert(prefix_has_move(v@, v@.len() as int, m));
            }
        }
    }
    out
}

/// `m` is among the first `g` entries of `s`.
pub open spec fn prefix_has_move(s: Seq<MoveId>, g: int, m: MoveId) -> bool {
    exists|w: int| 0 <= w < g && #[trigger] s[w] == m
}

/// Prunes the index after a placement on `tile`: the moves indexed under
/// `tile` are returned, the entry of `tile` is dropped, and every other entry
/// keeps only those moves. A tile without indexed moves is refused and the
/// index is left as it was.
pub fn prune_index(index: &mut Vec<Vec<MoveId>>, tile: usize) -> (r: Result<Vec<MoveId>, GameError>)
    requires
        old(index)@.len() == BOARD_SPACES,
    ensures
        r is Err <==> (tile >= BOARD_SPACES || old(index)@[tile as int]@.len() == 0),
        r is Err ==> r == Err::<Vec<MoveId>, GameError>(GameError::InvalidMove) && *final(index) == *old(index),
        r is Ok ==> r->Ok_0@ == old(index)@[tile as int]@ && pruned(old(index)@, final(index)@, tile as int),
{
    if tile >= BOARD_SPACES || index[tile].len() == 0 {
        return Err(GameError::InvalidMove);
    }
    let ghost before = index@;
    let valid_moves = copy_moves(&index[tile]);
    let mut u: usize = 0;
    while u < BOARD_SPACES
        invariant
            before.len() == BOARD_SPACES,
            tile < BOARD_SPACES,
            index@.len() == BOARD_SPACES,
            valid_moves@ == before[tile as int]@,
            0 <= u <= BOARD_SPACES,
            forall|w: int| u <= w < BOARD_SPACES ==> #[trigger] index@[w] == before[w],
            forall|w: int| 0 <= w < u && before[w]@.no_duplicates() ==> (#[trigger] index@[w])@.no_duplicates(),
            forall|w: int, m: MoveId|
                0 <= w < u && w != tile ==> (#[trigger] index@[w]@.contains(m) <==> before[w]@.contains(m)
                    && before[tile as int]@.contains(m)),
            u > tile ==> index@[tile as int]@.len() == 0,
        decreases BOARD_SPACES - u,
    {
        if u == tile {
            index.set(u, Vec::new());
        } else {
            let kept = filter_moves(&index[u], &valid_moves);
            index.set(u, kept);
        }
        u += 1;
    }
    Ok(valid_moves)
}

/// Whether no tile has a move.
pub fn index_is_empty(index: &Vec<Vec<MoveId>>) -> (r: bool)
    ensures
        r == index_empty(index@),
{
    let mut t: usize = 0;
    while t < index.len()
        invariant
            0 <= t <= index@.len(),
            forall|u: int| 0 <= u < t ==> (#[trigger] index@[u])@.len() == 0,
        decreases index@.len() - t,
    {
        if index[t].len() != 0 {
            return false;
        }
        t += 1;
    }
    true
}

/// The tiles with at least one move, ascending.
pub fn indexed_tiles(index: &Vec<Vec<MoveId>>) -> (r: Vec<usize>)
    ensures
        forall|a: int, b: int| 0 <= a < b < r@.len() ==> r@[a] < r@[b],
        forall|t: usize| #[trigger] r@.contains(t) <==> t < index@.len() && index@[t as int]@.len() > 0,
{
    let mut tiles: Vec<usize> = Vec::new();
    let mut t: usize = 0;
    while t < index.len()
        invariant
            0 <= t <= index@.len(),
            forall|a: int, b: int| 0 <= a < b < tiles@.len() ==> tiles@[a] < tiles@[b],
            forall|a: int| 0 <= a < tiles@.len() ==> tiles@[a] < t,
            forall|u: usize| #[trigger] tiles@.contains(u) <==> u < t && index@[u as int]@.len() > 0,
        decreases index@.len() - t,
    {
        let ghost prev = tiles@;
        if index[t].len() != 0 {
            tiles.push(t);
        }
        proof {
            assert forall|u: usize| #[trigger] tiles@.contains(u) <==> u < t + 1 && index@[u as int]@.len() > 0 by {
                if tiles@.contains(u) {
                    let w = choose|w: int| 0 <= w < tiles@.len() && tiles@[w] == u;
                    if w < prev.len() {
                        assert(prev[w] == u);
                        assert(prev.contains(u));
                    }
                }
                if u < t && index@[u as int]@.len() > 0 {
                    assert(prev.contains(u));
                    let w = choose|w: int| 0 <= w < prev.len() && prev[w] == u;
                    assert(tiles@[w] == u);
                }
                if u == t && index@[u as int]@.len() > 0 {
                    assert(tiles@[tiles@.len() - 1] == u);
                }
            }
        }
        t += 1;
    }
    tiles
}

/// The key set of a freshly built index is the set of tiles that some move
/// found by the legality scan would fill.
pub proof fn lemma_index_keys(idx: Seq<Vec<MoveId>>, board: Board, p: int)
    requires
        fresh_index(idx, board, p),
    ensures
        forall|t: int|
            0 <= t < BOARD_SPACES ==> ((#[trigger] idx[t])@.len() > 0 <==> exists|m: MoveId|
                scanned(board, p, m) && move_covers(board, p, m, t)),
{
    assert forall|t: int| 0 <= t < BOARD_SPACES implies ((#[trigger] idx[t])@.len() > 0 <==> exists|m: MoveId|
        scanned(board, p, m) && move_covers(board, p, m, t)) by {
        if idx[t]@.len() > 0 {
            assert(idx[t]@.contains(idx[t]@[0]));
        }
        if exists|m: MoveId| scanned(board, p, m) && move_covers(board, p, m, t) {
            let m = choose|m: MoveId| scanned(board, p, m) && move_covers(board, p, m, t);
            assert(idx[t]@.contains(m));
        }
    }
}

/// A freshly built index is empty exactly when the player has no legal move.
pub proof fn lemma_empty_index_iff_no_moves(idx: Seq<Vec<MoveId>>, board: Board, p: int)
    requires
        fresh_index(idx, board, p),
    ensures
        index_empty(idx) <==> !has_moves(board, p),
{
    lemma_index_keys(idx, board, p);
    if has_moves(board, p) {
        let m = choose|m: MoveId| scanned(board, p, m);
        let layout = variant_of(board, p, m).variant@;
        let j = choose|j: int| 0 <= j < layout.len() && #[trigger] layout[j] && crate::board::corner_contact(
            board.board@,
            p,
            m.2 + j,
        );
        assert(crate::board::cell_ok(board.board@, p, m.2 as int, j));
        assert(move_covers(board, p, m, m.2 + j));
        assert(idx[m.2 + j]@.len() > 0);
    }
    if !index_empty(idx) {
        let t = choose|t: int| 0 <= t < idx.len() && (#[trigger] idx[t])@.len() > 0;
        assert(idx[t]@.contains(idx[t]@[0]));
    }
}

/// Pruning a freshly built index after a placement on `t` gives, for every
/// other tile, exactly the moves of a rebuild from scratch that also fill `t`.
pub proof fn lemma_prune_matches_rebuild(
    old: Seq<Vec<MoveId>>,
    new: Seq<Vec<MoveId>>,
    board: Board,
    p: int,
    t: int,
)
    requires
        fresh_index(old, board, p),
        0 <= t < BOARD_SPACES,
        pruned(old, new, t),
    ensures
        new.len() == BOARD_SPACES,
        new[t]@.len() == 0,
        forall|u: int, m: MoveId|
            0 <= u < BOARD_SPACES && u != t ==> (#[trigger] new[u]@.contains(m) <==> scanned(board, p, m)
                && move_covers(board, p, m, u) && move_covers(board, p, m, t)),
        forall|u: int| 0 <= u < BOARD_SPACES ==> (#[trigger] new[u])@.no_duplicates(),
{
    assert forall|u: int, m: MoveId| 0 <= u < BOARD_SPACES && u != t implies (#[trigger] new[u]@.contains(m)
        <==> scanned(board, p, m) && move_covers(board, p, m, u) && move_covers(board, p, m, t)) by {
        assert(old[u]@.contains(m) <==> scanned(board, p, m) && move_covers(board, p, m, u));
        assert(old[t]@.contains(m) <==> scanned(board, p, m) && move_covers(board, p, m, t));
    }
    assert forall|u: int| 0 <= u < BOARD_SPACES implies (#[trigger] new[u])@.no_duplicates() by {
        assert(old[u]@.no_duplicates());
    }
}

/// Crossing anchors with filled-cell offsets loses no legal placement: a
/// move the player's inventory names is found by the scan exactly when
/// placing it is legal.
pub proof fn lemma_scan_finds_legal_moves(board: Board, p: int, m: MoveId)
    requires
        board.wf(),
        0 <= p < NUM_PLAYERS,
        names_variant(board, p, m),
    ensures
        scanned(board, p, m) <==> valid_move(board.board@, p, variant_of(board, p, m).variant@, m.2 as int),
{
    let var = variant_of(board, p, m);
    if valid_move(board.board@, p, var.variant@, m.2 as int) {
        let layout = var.variant@;
        let j = choose|j: int| 0 <= j < layout.len() && #[trigger] layout[j] && crate::board::corner_contact(
            board.board@,
            p,
            m.2 + j,
        );
        assert(crate::board::cell_ok(board.board@, p, m.2 as int, j));
        assert(board.pieces@[p]@[m.0 as int].wf());
        lemma_variant_offsets(board.pieces@[p]@[m.0 as int], m.1 as int);
        reveal(filled_offsets);
        let k = choose|k: int| 0 <= k < var.offsets@.len() && var.offsets@[k] == j;
        let a = m.2 + j;
        assert(is_anchor(board.board@, p, a));
        assert(var.offsets@[k] <= a && m.2 == a - var.offsets@[k]);
    }
}

/// Every tile that a freshly built index lists moves under is empty.
pub proof fn lemma_fresh_index_tiles_empty(idx: Seq<Vec<MoveId>>, board: Board, p: int)
    requires
        fresh_index(idx, board, p),
    ensures
        forall|t: int| 0 <= t < BOARD_SPACES && (#[trigger] idx[t])@.len() > 0 ==> board.board@[t] == 0,
{
    assert forall|t: int| 0 <= t < BOARD_SPACES && (#[trigger] idx[t])@.len() > 0 implies board.board@[t] == 0 by {
        let m = idx[t]@[0];
        assert(idx[t]@.contains(m));
        let layout = variant_of(board, p, m).variant@;
        assert(layout[t - m.2]);
        assert(crate::board::cell_ok(board.board@, p, m.2 as int, t - m.2));
    }
}

/// A move found by the scan has its origin on the board: one of its
/// filled-cell offsets, no larger than an anchor, was subtracted from that
/// anchor, so no origin wraps below zero.
pub proof fn lemma_scanned_origin(board: Board, p: int, m: MoveId)
    requires
        scanned(board, p, m),
    ensures
        exists|a: int, k: int|
            #![trigger is_anchor(board.board@, p, a), variant_of(board, p, m).offsets@[k]]
            0 <= k < variant_of(board, p, m).offsets@.len() && is_anchor(board.board@, p, a)
                && variant_of(board, p, m).offsets@[k] <= a && m.2 == a - variant_of(board, p, m).offsets@[k]
                && m.2 <= a < BOARD_SPACES,
        m.2 < BOARD_SPACES,
{
}

} // verus!
