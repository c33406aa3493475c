use tiling::bitmap::Bitmap2D;
use tiling::piece::{count_pieces, get_padded_pieces, get_standard_pieces, piece_index};
use tiling::search::{all_solutions, fill_board, increment};

#[test]
fn test_increment() {
    assert_eq!(increment((4, 4), (2, 2)), Some((2, 3)));
    assert_eq!(increment((4, 4), (2, 3)), Some((3, 0)));
    assert_eq!(increment((4, 4), (3, 3)), None);
    assert_eq!(increment((0, 0), (3, 3)), None);
}

#[test]
fn i_o_pieces() {
    let board_size = (4, 4);
    let pieces = get_padded_pieces(board_size);
    let board = Bitmap2D::zeros(board_size);

    let piece_count: [u32; 7] = [0, 4, 0, 0, 0, 0, 0];
    let solution = fill_board(&board, piece_count, (0, 0), &pieces);
    assert!(solution.is_some());

    let piece_count: [u32; 7] = [0, 2, 0, 0, 0, 0, 2];
    let solution = fill_board(&board, piece_count, (0, 0), &pieces);
    assert!(solution.is_some());

    let piece_count: [u32; 7] = [0, 3, 0, 0, 0, 0, 1];
    let solution = fill_board(&board, piece_count, (0, 0), &pieces);
    assert!(solution.is_none());

    let board = Bitmap2D::zeros((18, 4));
    let pieces = get_padded_pieces(board.shape);
    let piece_count: [u32; 7] = [0, 18, 0, 0, 0, 0, 0];
    assert!(fill_board(&board, piece_count, (0, 0), &pieces).is_some());

    let board = Bitmap2D::zeros((17, 4));
    let pieces = get_padded_pieces(board.shape);
    let piece_count: [u32; 7] = [0, 0, 0, 0, 0, 0, 17];
    assert!(fill_board(&board, piece_count, (0, 0), &pieces).is_none());
}

#[test]
fn num_solutions() {
    let board = Bitmap2D::zeros((4, 4));
    let pieces = get_padded_pieces(board.shape);

    let piece_count: [u32; 7] = [0, 0, 0, 0, 0, 0, 4];
    let solutions = all_solutions(&board, piece_count, (0, 0), &pieces);
    assert_eq!(solutions.len(), 1);

    let piece_count: [u32; 7] = [0, 4, 0, 0, 0, 0, 0];
    let solutions = all_solutions(&board, piece_count, (0, 0), &pieces);
    assert_eq!(solutions.len(), 2);

    let piece_count: [u32; 7] = [0, 2, 0, 0, 0, 0, 2];
    let solutions = all_solutions(&board, piece_count, (0, 0), &pieces);
    assert_eq!(solutions.len(), 6);
}

#[test]
fn four_squares_tile_four_by_four() {
    let board = Bitmap2D::zeros((4, 4));
    let pieces = get_padded_pieces(board.shape);
    let solution = fill_board(&board, [0, 0, 0, 0, 0, 0, 4], (0, 0), &pieces).unwrap();
    assert_eq!(solution.len(), 4);
    let text = Bitmap2D::print_all(&solution);
    assert_eq!(text, "4433\n4433\n2211\n2211");
}

#[test]
fn square_with_other_piece_has_no_tiling() {
    let board = Bitmap2D::zeros((4, 4));
    let pieces = get_padded_pieces(board.shape);
    assert!(fill_board(&board, [0, 1, 0, 0, 0, 0, 3], (0, 0), &pieces).is_none());
    assert!(all_solutions(&board, [0, 1, 0, 0, 0, 0, 3], (0, 0), &pieces).is_empty());
}

#[test]
fn area_not_multiple_of_piece() {
    let board = Bitmap2D::zeros((17, 1));
    let pieces = get_padded_pieces(board.shape);
    assert!(fill_board(&board, [0, 5, 0, 0, 0, 0, 0], (0, 0), &pieces).is_none());
    assert!(all_solutions(&board, [0, 5, 0, 0, 0, 0, 0], (0, 0), &pieces).is_empty());
}

#[test]
fn solutions_cover_board_without_overlap() {
    let board = Bitmap2D::zeros((4, 4));
    let pieces = get_padded_pieces(board.shape);
    let solutions = all_solutions(&board, [0, 2, 0, 0, 0, 0, 2], (0, 0), &pieces);
    for solution in &solutions {
        let mut covered = Bitmap2D::zeros((4, 4));
        for placement in solution {
            assert!(!covered.intersects(placement));
            covered = covered.or(placement);
        }
        assert_eq!(covered.to_string(), "1111\n1111\n1111\n1111");
    }
    let first = fill_board(&board, [0, 2, 0, 0, 0, 0, 2], (0, 0), &pieces).unwrap();
    assert_eq!(first.len(), solutions[0].len());
    for (a, b) in first.iter().zip(solutions[0].iter()) {
        assert_eq!(a.to_string(), b.to_string());
    }
}

#[test]
fn empty_and_full_boards() {
    let board = Bitmap2D::zeros((0, 5));
    let pieces = get_padded_pieces(board.shape);
    assert_eq!(fill_board(&board, [0; 7], (0, 0), &pieces).map(|s| s.len()), Some(0));
    let full = Bitmap2D { shape: (2, 2), data: vec![0b1111 << 60] };
    let pieces = get_padded_pieces(full.shape);
    assert_eq!(all_solutions(&full, [0; 7], (0, 0), &pieces).len(), 1);
    let board = Bitmap2D::zeros((2, 2));
    assert!(fill_board(&board, [0; 7], (0, 0), &pieces).is_none());
}

#[test]
fn index_lists_placements_by_anchor() {
    let pieces = get_padded_pieces((4, 4));
    assert_eq!(pieces.len(), 7);
    let squares = &pieces[6];
    assert_eq!(squares.len(), 16);
    assert_eq!(squares[5].len(), 1);
    assert_eq!(squares[5][0].to_string(), "0000\n0110\n0110\n0000");
    assert!(squares[3].is_empty());
    let j_pieces = &pieces[0];
    let at_origin: Vec<String> = j_pieces[1].iter().map(|b| b.to_string()).collect();
    assert_eq!(
        at_origin,
        vec![
            "0100\n0100\n1100\n0000".to_string(),
            "0110\n0100\n0100\n0000".to_string(),
            "0100\n0111\n0000\n0000".to_string(),
            "0111\n0001\n0000\n0000".to_string(),
        ]
    );
    let small = get_padded_pieces((1, 3));
    assert!(small[1].iter().all(|list| list.is_empty()));
}

#[test]
fn standard_catalog_shapes() {
    let catalog = get_standard_pieces();
    let names: Vec<char> = catalog.iter().map(|(c, _)| *c).collect();
    assert_eq!(names, vec!['J', 'I', 'L', 'T', 'S', 'Z', 'O']);
    let counts: Vec<usize> = catalog.iter().map(|(_, p)| p.variants.len()).collect();
    assert_eq!(counts, vec![4, 2, 4, 4, 2, 2, 1]);
    assert_eq!(catalog[0].1.variants[0].bitmap.to_string(), "01\n01\n11");
    assert_eq!(catalog[0].1.variants[0].origin, (0, 1));
}

#[test]
fn piece_names() {
    assert_eq!(piece_index('J'), Some(0));
    assert_eq!(piece_index('O'), Some(6));
    assert_eq!(piece_index('x'), None);
    let names: Vec<char> = "IIIIJJLLSZ".chars().collect();
    assert_eq!(count_pieces(&names), Ok([2, 4, 2, 0, 1, 1, 0]));
    let names: Vec<char> = "IIQO".chars().collect();
    assert_eq!(count_pieces(&names), Err('Q'));
    assert_eq!(count_pieces(&Vec::new()), Ok([0; 7]));
}
