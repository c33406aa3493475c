use tiling::bitmap::{Bitmap1D, Bitmap2D};

#[test]
fn small_map() {
    let bm = Bitmap1D { len: 9, data: vec![0b110110101 << (64 - 9)] };
    assert_eq!(bm.to_string(), "110110101");
}

#[test]
fn sub_bitmap() {
    let bm = Bitmap1D { len: 64, data: vec![0b1101101101101] }.sub_bitmap(64 - 13, None);
    assert_eq!(bm.to_string(), "1101101101101");
    let bm = Bitmap1D { len: 100, data: vec![0b1101, 0b1011 << 60] }.sub_bitmap(60, Some(67));
    assert_eq!(bm.to_string(), "11011011");
    let bm = Bitmap1D { len: 100, data: vec![0b1101, 0b1011 << 60] }.sub_bitmap(60, Some(63));
    assert_eq!(bm.to_string(), "1101");
    let bm = Bitmap1D { len: 100, data: vec![0b1101, 0b1011 << 60] }.sub_bitmap(64, Some(67));
    assert_eq!(bm.to_string(), "1011");
}

#[test]
fn print_2d() {
    let bm = Bitmap2D { shape: (3, 2), data: vec![0b010111 << 58] };
    assert_eq!(bm.to_string(), "01\n01\n11");
    let bm = Bitmap2D { shape: (2, 3), data: vec![0b010111 << 58] };
    assert_eq!(bm.to_string(), "010\n111");
}

#[test]
fn pad_1d() {
    let bm = Bitmap1D { len: 5, data: vec![0b11011 << (64 - 5)] };
    assert_eq!(bm.pad(0, 0).to_string(), bm.to_string());
    let padded = bm.pad(3, 2);
    assert_eq!(padded.to_string(), "0001101100");
    let padded = bm.pad(61, 12);
    assert_eq!(padded.len, 61 + 5 + 12);
    assert_eq!(padded.sub_bitmap(61, Some(65)).to_string(), "11011");

    let bm = Bitmap1D { len: 112, data: vec![0xabcd0000dcba0000, 0xffbb0000aacc0000] };
    assert_eq!(bm.pad(16, 0).sub_bitmap(16, Some(127)).to_string(), bm.to_string());
    assert_eq!(bm.pad(18, 0).sub_bitmap(18, Some(129)).to_string(), bm.to_string());
}

#[test]
fn mask() {
    let mut bm = Bitmap1D { len: 3, data: vec![0b101111 << 58] };
    let padded = bm.pad(0, 3);
    assert_eq!(padded.to_string(), "101111");
    bm.mask_oob();
    let padded = bm.pad(0, 3);
    assert_eq!(padded.to_string(), "101000");
}

#[test]
fn stack_lines() {
    let bm = Bitmap2D { shape: (3, 2), data: vec![0b010111 << 58] };
    let lines = bm.get_lines();
    let stacked = Bitmap2D::stack(lines);
    assert_eq!(bm.to_string(), stacked.to_string());
}

#[test]
fn pad() {
    let j_piece = Bitmap2D { shape: (3, 2), data: vec![0b010111 << 58] };
    let padded = j_piece.pad_to((4, 4), (0, 0));
    assert_eq!(padded.to_string(), "0100\n0100\n1100\n0000");
    let padded = j_piece.pad_to((4, 4), (1, 2));
    assert_eq!(padded.to_string(), "0000\n0001\n0001\n0011");
    let padded = j_piece.pad_to((7, 10), (2, 3));
    assert_eq!(
        padded.to_string(),
        "0000000000\n0000000000\n0000100000\n0000100000\n0001100000\n0000000000\n0000000000"
    );
}

#[test]
fn get() {
    let j_piece = Bitmap2D { shape: (3, 2), data: vec![0b010111 << 58] };
    assert_eq!(j_piece.get((1, 1)), Some(true));
    assert_eq!(j_piece.get((1, 0)), Some(false));
    let padded = j_piece.pad_to((7, 10), (2, 3));
    assert_eq!(padded.get((3, 4)), Some(true));
    assert_eq!(j_piece.get((3, 3)), Some(false));
}

#[test]
fn intersection() {
    let j_piece = Bitmap2D { shape: (3, 2), data: vec![0b010111 << 58] };
    let padded = j_piece.pad_to((4, 4), (0, 0));
    let padded11 = j_piece.pad_to((4, 4), (1, 1));
    let padded01 = j_piece.pad_to((4, 4), (0, 1));
    assert!(padded.intersects(&padded));
    assert!(!padded.intersects(&padded11));
    assert!(padded.intersects(&padded01));
    assert!(padded11.intersects(&padded01));
}

#[test]
fn print_bitmap_iter() {
    let j_piece = Bitmap2D { shape: (3, 2), data: vec![0b010111 << 58] };
    let padded1 = j_piece.pad_to((4, 4), (0, 0));
    let padded2 = j_piece.pad_to((4, 4), (1, 2));
    let added = Bitmap2D::print_all(&[&padded1, &padded2]);
    assert_eq!(added, "0100\n0102\n1102\n0022");
}

#[test]
fn zeros_are_clear() {
    let bm = Bitmap1D::zeros(70);
    assert_eq!(bm.len, 70);
    assert_eq!(bm.data.len(), 2);
    assert_eq!(bm.to_string(), "0".repeat(70));
    let board = Bitmap2D::zeros((2, 3));
    assert_eq!(board.to_string(), "000\n000");
    assert_eq!(Bitmap1D::zeros(0).to_string(), "");
}

#[test]
fn mask_keeps_full_words() {
    let mut bm = Bitmap1D { len: 64, data: vec![u64::MAX, u64::MAX] };
    bm.mask_oob();
    assert_eq!(bm.data, vec![u64::MAX, 0]);
    let mut bm = Bitmap1D { len: 0, data: vec![7] };
    bm.mask_oob();
    assert_eq!(bm.data, vec![0]);
    let mut bm = Bitmap1D { len: 66, data: vec![1, u64::MAX] };
    bm.mask_oob();
    assert_eq!(bm.data, vec![1, 0b11 << 62]);
}

#[test]
fn extract_at_word_boundary() {
    let bm = Bitmap1D { len: 128, data: vec![0xf000000000000000, 0x8000000000000001] };
    let sub = bm.sub_bitmap(64, Some(127));
    assert_eq!(sub.data, vec![0x8000000000000001]);
    let sub = bm.sub_bitmap(0, None);
    assert_eq!(sub.to_string(), bm.to_string());
    let sub = bm.sub_bitmap(62, Some(65));
    assert_eq!(sub.to_string(), "0010");
    let sub = bm.sub_bitmap(3, Some(3));
    assert_eq!(sub.to_string(), "1");
}

#[test]
fn extract_then_embed_keeps_range() {
    let bm = Bitmap1D { len: 100, data: vec![0xabcd0000dcba1234, 0xffbb0000aacc0000] };
    let full = bm.to_string();
    let (start, end) = (37usize, 81usize);
    let back = bm.sub_bitmap(start, Some(end)).pad(start, 100 - 1 - end);
    assert_eq!(back.len, 100);
    let text = back.to_string();
    assert_eq!(&text[start..=end], &full[start..=end]);
}

#[test]
fn pad_then_extract_gives_back() {
    let bm = Bitmap1D { len: 70, data: vec![0x0123456789abcdef, 0xfedcba9876543210] };
    for left in [0usize, 1, 63, 64, 65, 130] {
        let padded = bm.pad(left, 9);
        assert_eq!(padded.len, left + 70 + 9);
        assert_eq!(padded.sub_bitmap(left, Some(left + 69)).to_string(), bm.to_string());
    }
}

#[test]
fn pad_shifts_exact_words() {
    let bm = Bitmap1D { len: 4, data: vec![0b1011 << 60] };
    let padded = bm.pad(64, 0);
    assert_eq!(padded.data, vec![0, 0b1011 << 60]);
    let padded = bm.pad(62, 2);
    assert_eq!(padded.data, vec![0b10, 0b11 << 62]);
}

#[test]
fn rows_round_trip() {
    let board = Bitmap2D { shape: (5, 13), data: vec![0x0123456789abcdef, 0x8000000000000000] };
    let lines = board.get_lines();
    assert_eq!(lines.len(), 5);
    assert_eq!(lines[1].to_string(), "0110100010101");
    let stacked = Bitmap2D::stack(lines);
    assert_eq!(stacked.shape, (5, 13));
    assert_eq!(stacked.data, board.data);
    let empty = Bitmap2D::stack(Vec::new());
    assert_eq!(empty.shape, (0, 0));
}

#[test]
fn intersects_laws() {
    let j_piece = Bitmap2D { shape: (3, 2), data: vec![0b010111 << 58] };
    let a = j_piece.pad_to((4, 4), (0, 0));
    let b = j_piece.pad_to((4, 4), (1, 1));
    let c = j_piece.pad_to((4, 4), (0, 1));
    let empty = Bitmap2D::zeros((4, 4));
    assert_eq!(a.intersects(&b), b.intersects(&a));
    assert_eq!(a.intersects(&c), c.intersects(&a));
    assert!(!a.intersects(&empty));
    assert!(!empty.intersects(&empty));
    assert!(c.intersects(&c));
}

#[test]
fn union_of_boards() {
    let j_piece = Bitmap2D { shape: (3, 2), data: vec![0b010111 << 58] };
    let a = j_piece.pad_to((4, 4), (0, 0));
    let b = j_piece.pad_to((4, 4), (1, 2));
    let u = a.or(&b);
    assert_eq!(u.shape, (4, 4));
    assert_eq!(u.to_string(), "0100\n0101\n1101\n0011");
}

#[test]
fn get_outside_board() {
    let board = Bitmap2D { shape: (2, 2), data: vec![u64::MAX << 60] };
    assert_eq!(board.get((0, 1)), Some(true));
    assert_eq!(board.get((0, 2)), Some(false));
    assert_eq!(board.get((5, 0)), Some(false));
    assert_eq!(board.get((usize::MAX, usize::MAX)), Some(false));
}

#[test]
fn overlay_first_board_wins() {
    let a = Bitmap2D { shape: (1, 3), data: vec![0b110 << 61] };
    let b = Bitmap2D { shape: (1, 3), data: vec![0b011 << 61] };
    assert_eq!(Bitmap2D::print_all(&[&a, &b]), "112");
    assert_eq!(Bitmap2D::print_all(&[]), "");
    let boards: Vec<Bitmap2D> =
        (0..16).map(|k| Bitmap2D { shape: (1, 16), data: vec![1u64 << (63 - k)] }).collect();
    let refs: Vec<&Bitmap2D> = boards.iter().collect();
    assert_eq!(Bitmap2D::print_all(&refs), "123456789abcdef0");
}
