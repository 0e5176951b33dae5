use blokus::board::BOARD_SIZE;
use blokus::pieces::{Piece, PieceType, PieceVariant};

#[test]
fn test_piece_creation() {
    let piece = Piece::new(PieceType::One);
    assert_eq!(piece.points, 1);
    assert_eq!(piece.variants, Piece::gen_variants(vec![vec![true]]));

    let piece = Piece::new(PieceType::Two);
    assert_eq!(piece.points, 2);
    assert_eq!(piece.variants, Piece::gen_variants(vec![vec![true, true]]));

    let piece = Piece::new(PieceType::Right);
    assert_eq!(piece.points, 3);
    assert_eq!(piece.variants.len(), 4);

    let piece = Piece::new(PieceType::Crazy);
    assert_eq!(piece.points, 5);
    assert_eq!(piece.variants.len(), 8);
}

#[test]
fn test_variant_creation() {
    let variant = PieceVariant::new(vec![vec![true]]);
    assert_eq!(variant.variant, vec![true]);
    assert_eq!(variant.offsets, vec![0]);
    assert_eq!(variant.width, 1);

    let variant = PieceVariant::new(vec![vec![true], vec![true]]);
    assert_eq!(variant.variant.len(), BOARD_SIZE + 1);
    assert_eq!(variant.offsets, vec![0, BOARD_SIZE]);
    assert_eq!(variant.width, 1);
}

#[test]
fn test_piece_rotation() {
    let shape = vec![vec![true, true]];
    let rotated = Piece::rotate(shape.clone());
    assert_eq!(rotated, vec![vec![true], vec![true]]);

    let shape = vec![vec![true, true], vec![true, false]];
    let rotated = Piece::rotate(shape.clone());
    assert_eq!(rotated, vec![vec![true, true], vec![false, true]]);
}

#[test]
fn test_piece_flip() {
    let shape = vec![vec![true, true]];
    let flipped = Piece::flip(shape.clone());
    assert_eq!(flipped, vec![vec![true, true]]);

    let shape = vec![vec![true, true], vec![true, false]];
    let flipped = Piece::flip(shape.clone());
    assert_eq!(flipped, vec![vec![true, true], vec![false, true]]);
}

#[test]
fn test_piece_variants() {
    let shape = vec![vec![true, true]];
    let variants = Piece::gen_variants(shape.clone());
    assert_eq!(variants.len(), 2);

    let shape = vec![vec![true, true], vec![true, false]];
    let variants = Piece::gen_variants(shape.clone());
    assert_eq!(variants.len(), 4);

    let shape = vec![vec![true, true, true], vec![true, false, false]];
    let variants = Piece::gen_variants(shape.clone());
    assert_eq!(variants.len(), 8);
}

#[test]
fn catalog_variant_counts_are_symmetry_orbits() {
    let expected: [usize; 21] = [1, 2, 4, 2, 2, 8, 4, 1, 4, 2, 8, 8, 8, 4, 4, 8, 4, 8, 1, 8, 4];
    for i in 0..21 {
        let piece = Piece::new(blokus::board::catalog_piece_type(i));
        let n = piece.variants.len();
        assert!(n == 1 || n == 2 || n == 4 || n == 8, "piece {} has {} variants", i, n);
        assert_eq!(n, expected[i], "piece {}", i);
        for a in 0..n {
            for b in (a + 1)..n {
                assert_ne!(piece.variants[a].variant, piece.variants[b].variant);
            }
        }
    }
}

#[test]
fn catalog_points_total() {
    let mut total = 0;
    for i in 0..21 {
        total += Piece::new(blokus::board::catalog_piece_type(i)).points;
    }
    assert_eq!(total, 92);
}

#[test]
fn variant_layout_pads_rows_to_board_width() {
    let variant = PieceVariant::new(vec![vec![false, true], vec![true, true]]);
    assert_eq!(variant.variant.len(), BOARD_SIZE + 2);
    assert_eq!(variant.offsets, vec![1, BOARD_SIZE, BOARD_SIZE + 1]);
    assert_eq!(variant.width, 2);
    assert!(variant.variant[1] && !variant.variant[0] && !variant.variant[2]);
}

#[test]
fn first_variant_is_the_shape_itself() {
    let piece = Piece::new(PieceType::LongL);
    assert_eq!(piece.variants[0], PieceVariant::new(vec![vec![true, true, true, true], vec![true, false, false, false]]));
    assert_eq!(piece.shape, vec![vec![true, true, true, true], vec![true, false, false, false]]);
}

#[test]
fn variants_record_unturned_width() {
    let variants = Piece::gen_variants(vec![vec![true, true]]);
    assert_eq!(variants.len(), 2);
    assert!(variants.iter().all(|v| v.width == 2));
    assert_eq!(variants[1].variant.len(), BOARD_SIZE + 1);
    let piece = Piece::new(PieceType::LongL);
    assert!(piece.variants.iter().all(|v| v.width == 4));
}

#[test]
fn variant_order_is_first_appearance() {
    // turns of the L tromino: the shape, a quarter turn, a half turn, three quarters
    let variants = Piece::gen_variants(vec![vec![true, true], vec![true, false]]);
    let turned = Piece::rotate(vec![vec![true, true], vec![true, false]]);
    assert_eq!(variants[1], PieceVariant::new(turned));
}

#[test]
fn last_row_is_not_padded() {
    let variant = PieceVariant::new(vec![vec![true], vec![true; 25]]);
    assert_eq!(variant.variant.len(), BOARD_SIZE + 25);
    assert_eq!(variant.offsets.len(), 26);
}
