use blokus::board::{Board, GameError, BOARD_SIZE, BOARD_SPACES};
use blokus::game::{rotate_state, winners, Action, Game};
use blokus::moves::{get_moves, get_piece_moves, get_tile_moves, MoveId};
use blokus::pieces::PieceVariant;

fn payoff(scores: &Vec<i32>) -> Vec<f32> {
    let w = winners(scores);
    let n = w.iter().filter(|x| **x).count();
    w.iter().map(|x| if *x { 1.0 / n as f32 } else { 0.0 }).collect()
}

/// Every legal move of `player`, found by trying every origin on the board.
fn brute_force_moves(board: &Board, player: usize) -> Vec<MoveId> {
    let mut out = Vec::new();
    for (p, piece) in board.get_pieces(player).iter().enumerate() {
        for (v, variant) in piece.variants.iter().enumerate() {
            for o in 0..BOARD_SPACES {
                if board.is_valid_move(player, variant, o) {
                    out.push((p, v, o));
                }
            }
        }
    }
    out
}

fn covers(board: &Board, player: usize, m: MoveId, t: usize) -> bool {
    let variant = &board.get_pieces(player)[m.0].variants[m.1];
    t >= m.2 && t - m.2 < variant.variant.len() && variant.variant[t - m.2]
}

#[test]
fn payoff_two_way_tie() {
    assert_eq!(payoff(&vec![5, 5, 2, -1]), vec![0.5, 0.5, 0.0, 0.0]);
    assert_eq!(winners(&vec![5, 5, 2, -1]), vec![true, true, false, false]);
}

#[test]
fn payoff_single_winner() {
    assert_eq!(payoff(&vec![3, 1, 1, 1]), vec![1.0, 0.0, 0.0, 0.0]);
}

#[test]
fn fresh_game_scores_and_winners() {
    let g = Game::reset();
    assert_eq!(g.get_score(), vec![-92, -92, -92, -92]);
    assert_eq!(g.get_winners(), vec![true, true, true, true]);
    assert_eq!(g.current_player(), 0);
    assert!(!g.is_terminal());
}

#[test]
fn first_move_must_cover_start_corner() {
    let board = Board::new();
    let one = PieceVariant::new(vec![vec![true]]);
    assert!(board.is_valid_move(0, &one, 0));
    assert!(!board.is_valid_move(0, &one, 1));
    assert!(board.is_valid_move(1, &one, 19));
    assert!(board.is_valid_move(2, &one, 399));
    assert!(board.is_valid_move(3, &one, 380));
    assert!(!board.is_valid_move(3, &one, 399));
}

#[test]
fn placement_rules() {
    let mut board = Board::new();
    assert!(board.place_tile(0, 0).is_ok());
    let one = PieceVariant::new(vec![vec![true]]);
    let two = PieceVariant::new(vec![vec![true, true]]);
    // occupied
    assert!(!board.is_valid_move(0, &one, 0));
    assert_eq!(board.place_tile(0, 1), Err(GameError::InvalidMove));
    // beside own cell
    assert!(!board.is_valid_move(0, &one, 1));
    assert!(!board.is_valid_move(0, &one, 20));
    // corner contact
    assert!(board.is_valid_move(0, &one, 21));
    assert!(board.is_valid_move(0, &two, 21));
    // no contact at all
    assert!(!board.is_valid_move(0, &one, 42));
    // a cell off the right edge does not wrap to the next row
    board.place_tile(18, 0).unwrap();
    assert!(!board.is_valid_move(0, &two, 39));
    // a cell off the bottom
    board.place_tile(378, 0).unwrap();
    let tall = PieceVariant::new(vec![vec![true], vec![true]]);
    assert!(!board.is_valid_move(0, &tall, 399));
    // beside an opponent's cell is fine
    board.place_tile(22, 1).unwrap();
    assert!(board.is_valid_move(0, &one, 21));
    assert_eq!(board.place_tile(BOARD_SPACES, 0), Err(GameError::InvalidMove));
}

#[test]
fn anchors_follow_corners() {
    let mut board = Board::new();
    assert_eq!(board.get_anchors(0), vec![0]);
    assert_eq!(board.get_anchors(2), vec![399]);
    board.place_tile(0, 0).unwrap();
    assert_eq!(board.get_anchors(0), vec![21]);
    board.place_tile(19, 0).unwrap();
    assert_eq!(board.get_anchors(1), Vec::<usize>::new());
}

#[test]
fn index_keys_match_brute_force_scan() {
    let mut board = Board::new();
    for (t, p) in [(0, 0), (21, 0), (42, 0), (19, 1), (38, 1)] {
        board.place_tile(t, p).unwrap();
    }
    for player in 0..4 {
        let idx = get_tile_moves(&board, player);
        let all = brute_force_moves(&board, player);
        for t in 0..BOARD_SPACES {
            let expected: Vec<MoveId> = all.iter().copied().filter(|m| covers(&board, player, *m, t)).collect();
            let mut got = idx[t].clone();
            got.sort();
            let mut want = expected.clone();
            want.sort();
            assert_eq!(got, want, "player {} tile {}", player, t);
        }
    }
}

#[test]
fn anchor_below_offset_is_skipped() {
    let board = Board::new();
    // The only anchor of player 0 is tile 0: every offset but 0 exceeds it.
    for p in 0..21 {
        let (moves, groups) = get_piece_moves(p, &board, 0);
        for (m, g) in moves.iter().zip(groups.iter()) {
            assert_eq!(m.2, 0);
            assert!(g.contains(&0));
        }
    }
    let (moves, _) = get_moves(&board, 0);
    assert!(!moves.is_empty());
    assert!(moves.iter().all(|m| m.2 == 0));
}

#[test]
fn pruning_keeps_moves_through_placed_tile() {
    let mut g = Game::reset();
    let before = get_tile_moves(&g.board, 0);
    assert!(g.apply(0, None).is_ok());
    assert_eq!(g.current_player(), 0);
    let legal = g.get_legal_tiles();
    assert!(!legal.contains(&0));
    assert!(legal.contains(&1));
    assert!(legal.contains(&20));
    for t in 1..BOARD_SPACES {
        let mut got = g.legal_tiles[t].clone();
        got.sort();
        let mut want: Vec<MoveId> = before[t].iter().copied().filter(|m| before[0].contains(m)).collect();
        want.sort();
        assert_eq!(got, want);
    }
    assert_eq!(g.history, vec![(0, 0)]);
}

#[test]
fn apply_errors_leave_state_unchanged() {
    let mut g = Game::reset();
    assert_eq!(g.apply(5, None), Err(GameError::InvalidMove));
    assert_eq!(g.apply(BOARD_SPACES, None), Err(GameError::InvalidMove));
    assert_eq!(g.apply(0, Some(21)), Err(GameError::NoSuchPieceOrVariant));
    assert_eq!(g.get_board()[0], 0);
    assert!(g.history.is_empty());
    g.eliminated = vec![true, true, true, true];
    assert_eq!(g.apply(0, None), Err(GameError::ActionOnTerminalGame));
    assert_eq!(g.place_piece(0, 0, 0), Err(GameError::ActionOnTerminalGame));
}

#[test]
fn single_cell_finishes_with_explicit_signal() {
    let mut g = Game::reset();
    assert!(g.apply(0, Some(0)).is_ok());
    assert_eq!(g.current_player(), 1);
    assert_eq!(g.board.get_pieces(0).len(), 20);
    assert_eq!(g.last_piece_lens[0], 1);
    assert!(g.get_legal_tiles().contains(&19));
}

#[test]
fn place_piece_whole_move() {
    let mut g = Game::reset();
    // piece Two (index 1), first variant, at the corner
    assert!(g.place_piece(1, 0, 0).is_ok());
    assert_eq!(g.get_board()[0], 1);
    assert_eq!(g.get_board()[1], 1);
    assert_eq!(g.current_player(), 1);
    assert_eq!(g.last_piece_lens[0], 2);
    assert_eq!(g.history, vec![(0, 0), (0, 1)]);
    assert_eq!(g.board.get_pieces(0).len(), 20);
    // player 1 tries a move away from its corner
    assert_eq!(g.place_piece(0, 0, 100), Err(GameError::InvalidMove));
    assert_eq!(g.place_piece(21, 0, 19), Err(GameError::NoSuchPieceOrVariant));
    assert_eq!(g.place_piece(1, 2, 19), Err(GameError::NoSuchPieceOrVariant));
    assert!(g.place_piece(0, 0, 19).is_ok());
    assert_eq!(g.current_player(), 2);
    assert_eq!(g.get_score()[0], -90);
}

#[test]
fn player_without_moves_is_eliminated_on_arrival() {
    let mut g = Game::reset();
    // player 0 takes player 1's start corner
    g.board.board[19] = 1;
    let next = g.advance_player();
    assert_eq!(next, 2);
    assert!(!g.is_player_active(1));
    assert!(g.is_player_active(2));
    assert!(!g.is_terminal());
    assert!(g.get_legal_tiles().contains(&399));
}

#[test]
fn all_players_eliminated_is_terminal() {
    let mut g = Game::reset();
    // a full board leaves nobody a move
    for t in 0..BOARD_SPACES {
        g.board.board[t] = 1;
    }
    g.advance_player();
    assert!(g.is_terminal());
    assert_eq!(g.current_player(), 0);
    for p in 0..4 {
        assert!(!g.is_player_active(p));
    }
    assert_eq!(g.apply(0, None), Err(GameError::ActionOnTerminalGame));
    let before = g.current_player();
    assert_eq!(g.advance_player(), before);
}

#[test]
fn feature_tensor_and_rotation() {
    let g = Game::reset();
    let s = g.get_board_state();
    assert_eq!(s.len(), 5);
    assert!(s[4][0][0]);
    assert!(!s[0][0][0]);
    let mut g = Game::reset();
    g.apply(0, Some(0)).unwrap();
    let s = g.get_board_state();
    // player 1 to move: its corner (row 0, col 19) turns to the top left
    assert!(s[4][0][0]);
    // player 0's cell is three seats after player 1
    assert!(s[3][BOARD_SIZE - 1][0]);
    let mut t = vec![vec![vec![false; BOARD_SIZE]; BOARD_SIZE]; 5];
    t[2][0][BOARD_SIZE - 1] = true;
    let r = rotate_state(&t);
    assert!(r[2][0][0]);
    assert_eq!(r[2].iter().flatten().filter(|x| **x).count(), 1);
}

#[test]
fn next_player_and_pieces() {
    let g = Game::reset();
    assert_eq!(g.next_player(), 1);
    assert_eq!(g.get_current_player_pieces().len(), 21);
    assert_eq!(g.get_piece(0, 0, 0).offsets, vec![0]);
    assert_eq!(g.get_current_anchors(), vec![0]);
}

#[test]
fn reduce_dispatches_actions() {
    let mut g = Game::reset();
    assert!(g.reduce(Action::PlacePiece(0, 0, 0)).is_ok());
    assert_eq!(g.current_player(), 1);
    assert_eq!(g.reduce(Action::PlacePiece(0, 0, 0)), Err(GameError::InvalidMove));
    assert_eq!(g.current_player(), 1);
    assert!(g.reduce(Action::Pass).is_ok());
    assert!(!g.is_player_active(1));
    assert_eq!(g.current_player(), 2);
    assert!(g.reduce(Action::Pass).is_ok());
    assert!(g.reduce(Action::Pass).is_ok());
    assert_eq!(g.current_player(), 0);
    assert!(g.reduce(Action::Pass).is_ok());
    assert!(g.is_terminal());
    assert_eq!(g.reduce(Action::Pass), Err(GameError::ActionOnTerminalGame));
    assert!(g.reduce(Action::ResetGame).is_ok());
    assert!(!g.is_terminal());
    assert_eq!(g.current_player(), 0);
    assert_eq!(g.get_board()[0], 0);
}
