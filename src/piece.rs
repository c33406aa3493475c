//! The piece catalog and the index of every placement of each piece on a
//! board.
use vstd::prelude::*;
use crate::bitmap::{Bitmap1D, Bitmap2D, lemma_cell_index, lemma_flat_index, spec_pad_to, word_bit};
use crate::search::{anchored, candidates};

verus! {

/// One rotation or reflection of a piece: its cells, and the cell that a
/// row-major scan meets first.
pub struct PieceVariant {
    pub bitmap: Bitmap2D,
    pub origin: (usize, usize),
}

/// A piece: its variants, in a fixed order.
pub struct Piece {
    pub variants: Vec<PieceVariant>,
}

/// The names of the standard pieces, in catalog order.
pub const PIECE_ORDER: [char; 7] = ['J', 'I', 'L', 'T', 'S', 'Z', 'O'];

/// The name of the standard piece at position `p` of the catalog.
pub open spec fn piece_name(p: int) -> char {
    if p == 0 { 'J' }
    else if p == 1 { 'I' }
    else if p == 2 { 'L' }
    else if p == 3 { 'T' }
    else if p == 4 { 'S' }
    else if p == 5 { 'Z' }
    else { 'O' }
}

impl PieceVariant {
    /// The bitmap is well formed and the anchor lies inside it.
    pub open spec fn wf(&self) -> bool {
        &&& self.bitmap.wf()
        &&& self.origin.0 < self.bitmap.shape.0
        &&& self.origin.1 < self.bitmap.shape.1
    }

    /// Rows and columns of the variant.
    pub open spec fn size(&self) -> (nat, nat) {
        (self.bitmap.shape.0 as nat, self.bitmap.shape.1 as nat)
    }
}

/// Every variant of every piece is well formed.
pub open spec fn catalog_wf(catalog: Seq<(char, Piece)>) -> bool {
    forall|p: int, k: int|
        0 <= p < catalog.len() && 0 <= k < catalog[p].1.variants@.len() ==> (
        #[trigger] catalog[p].1.variants@[k]).wf()
}

/// What a variant is: its shape, its cells row after row, and its anchor.
pub type VariantModel = ((nat, nat), Seq<bool>, (nat, nat));

/// The model of a variant.
pub open spec fn model_of(v: PieceVariant) -> VariantModel {
    (v.size(), v.bitmap@, (v.origin.0 as nat, v.origin.1 as nat))
}

/// The model of a table row: rows, columns, the cells packed in one word
/// from its most significant bit, and the anchor's row and column.
pub open spec fn table_model(t: (usize, usize, u64, usize, usize)) -> VariantModel {
    (
        (t.0 as nat, t.1 as nat),
        Seq::new((t.0 * t.1) as nat, |i: int| word_bit(t.2, i as u64)),
        (t.3 as nat, t.4 as nat),
    )
}

/// `v` is well formed and is the variant that the table row `t` describes.
pub open spec fn variant_is(v: PieceVariant, t: (usize, usize, u64, usize, usize)) -> bool {
    &&& v.wf()
    &&& model_of(v) == table_model(t)
}

/// The placement of a variant whose anchor lands on the cell at row `r`,
/// column `c` of a `rows` by `cols` board, if the variant fits there.
pub open spec fn variant_at(m: VariantModel, rows: nat, cols: nat, r: int, c: int) -> Seq<
    Seq<bool>,
> {
    let a = r - m.2.0;
    let b = c - m.2.1;
    if 0 <= a && 0 <= b && a + m.0.0 <= rows && b + m.0.1 <= cols {
        seq![spec_pad_to(m.1, m.0, (rows, cols), (a as nat, b as nat))]
    } else {
        Seq::empty()
    }
}

/// The placements of the variants `ms` anchored at the cell at row `r`,
/// column `c`, in the order of the variants.
pub open spec fn placements_at(ms: Seq<VariantModel>, rows: nat, cols: nat, r: int, c: int) -> Seq<
    Seq<bool>,
>
    decreases ms.len(),
{
    if ms.len() == 0 {
        Seq::empty()
    } else {
        placements_at(ms.drop_last(), rows, cols, r, c) + variant_at(ms.last(), rows, cols, r, c)
    }
}

/// The views of a list of placements.
pub open spec fn placement_views(list: Seq<Bitmap2D>) -> Seq<Seq<bool>> {
    list.map_values(|b: Bitmap2D| b@)
}

/// Every placement of the index is a well-formed board of `shape`.
pub open spec fn index_fits(index: Seq<Vec<Vec<Bitmap2D>>>, shape: (usize, usize)) -> bool {
    forall|p: int, cell: int, k: int|
        0 <= p < index.len() && 0 <= cell < index[p]@.len() && 0 <= k < index[p]@[cell]@.len()
            ==> (#[trigger] index[p]@[cell]@[k]).wf() && index[p]@[cell]@[k].shape == shape
}

/// The index lists, for each piece and each cell of a `shape` board, the
/// placements of `pieces[p]` anchored at that cell.
pub open spec fn index_is(
    index: Seq<Vec<Vec<Bitmap2D>>>,
    pieces: Seq<Seq<VariantModel>>,
    shape: (usize, usize),
) -> bool {
    &&& index.len() == pieces.len()
    &&& index_fits(index, shape)
    &&& forall|p: int| 0 <= p < index.len() ==> (#[trigger] index[p])@.len() == shape.0 * shape.1
    &&& forall|p: int, cell: int|
        0 <= p < index.len() && 0 <= cell < shape.0 * shape.1 ==> placement_views(
            (#[trigger] index[p]@[cell])@,
        ) == placements_at(
            pieces[p],
            shape.0 as nat,
            shape.1 as nat,
            cell / (shape.1 as int),
            cell % (shape.1 as int),
        )
}

/// The models of the variants of each piece of a catalog.
pub open spec fn catalog_models(catalog: Seq<(char, Piece)>) -> Seq<Seq<VariantModel>> {
    catalog.map_values(|e: (char, Piece)| e.1.variants@.map_values(|v: PieceVariant| model_of(v)))
}

/// The models of the standard catalog.
pub open spec fn standard_models() -> Seq<Seq<VariantModel>> {
    standard_catalog().map_values(
        |vs: Seq<(usize, usize, u64, usize, usize)>| vs.map_values(|t| table_model(t)),
    )
}

/// The standard catalog: the seven tetrominoes in catalog order, each with
/// its distinct rotations and reflections.
pub open spec fn standard_catalog() -> Seq<Seq<(usize, usize, u64, usize, usize)>> {
    seq![
        seq![
            (3, 2, 0b010111u64 << 58u64, 0, 1),
            (3, 2, 0b111010u64 << 58u64, 0, 0),
            (2, 3, 0b100111u64 << 58u64, 0, 0),
            (2, 3, 0b111001u64 << 58u64, 0, 0),
        ],
        seq![(1, 4, 0b1111u64 << 60u64, 0, 0), (4, 1, 0b1111u64 << 60u64, 0, 0)],
        seq![
            (3, 2, 0b101011u64 << 58u64, 0, 0),
            (3, 2, 0b110101u64 << 58u64, 0, 0),
            (2, 3, 0b001111u64 << 58u64, 0, 2),
            (2, 3, 0b111100u64 << 58u64, 0, 0),
        ],
        seq![
            (3, 2, 0b011101u64 << 58u64, 0, 1),
            (3, 2, 0b101110u64 << 58u64, 0, 0),
            (2, 3, 0b010111u64 << 58u64, 0, 1),
            (2, 3, 0b111010u64 << 58u64, 0, 0),
        ],
        seq![(3, 2, 0b101101u64 << 58u64, 0, 0), (2, 3, 0b011110u64 << 58u64, 0, 1)],
        seq![(3, 2, 0b011110u64 << 58u64, 0, 1), (2, 3, 0b110011u64 << 58u64, 0, 0)],
        seq![(2, 2, 0b1111u64 << 60u64, 0, 0)],
    ]
}

/// A variant of `rows` by `cols` cells whose bits are the leading bits of
/// `word`, anchored at `origin`.
fn variant(rows: usize, cols: usize, word: u64, origin: (usize, usize)) -> (r: PieceVariant)
    requires
        1 <= rows <= 8,
        1 <= cols <= 8,
        origin.0 < rows,
        origin.1 < cols,
    ensures
        variant_is(r, (rows, cols, word, origin.0, origin.1)),
{
    assert(0 < rows * cols <= 64) by (nonlinear_arith)
        requires
            1 <= rows <= 8,
            1 <= cols <= 8,
    ;
    let mut line = Bitmap1D { len: rows * cols, data: vec![word] };
    line.mask_oob();
    let bitmap = Bitmap2D { shape: (rows, cols), data: line.data };
    assert(bitmap@ =~= Seq::new((rows * cols) as nat, |i: int| word_bit(word, i as u64)));
    PieceVariant { bitmap, origin }
}

/// The standard pieces, each with its name, in the order of `PIECE_ORDER`.
pub fn get_standard_pieces() -> (r: Vec<(char, Piece)>)
    ensures
        r@.len() == 7,
        catalog_wf(r@),
        forall|p: int| 0 <= p < 7 ==> (#[trigger] r@[p]).0 == piece_name(p),
        forall|p: int|
            0 <= p < 7 ==> (#[trigger] r@[p]).1.variants@.len() == standard_catalog()[p].len(),
        forall|p: int, k: int|
            0 <= p < 7 && 0 <= k < standard_catalog()[p].len() ==> variant_is(
                #[trigger] r@[p].1.variants@[k],
                standard_catalog()[p][k],
            ),
{
    let j = Piece {
        variants: vec![
            variant(3, 2, 0b010111u64 << 58u64, (0, 1)),
            variant(3, 2, 0b111010u64 << 58u64, (0, 0)),
            variant(2, 3, 0b100111u64 << 58u64, (0, 0)),
            variant(2, 3, 0b111001u64 << 58u64, (0, 0)),
        ],
    };
    let i = Piece {
        variants: vec![
            variant(1, 4, 0b1111u64 << 60u64, (0, 0)),
            variant(4, 1, 0b1111u64 << 60u64, (0, 0)),
        ],
    };
    let l = Piece {
        variants: vec![
            variant(3, 2, 0b101011u64 << 58u64, (0, 0)),
            variant(3, 2, 0b110101u64 << 58u64, (0, 0)),
            variant(2, 3, 0b001111u64 << 58u64, (0, 2)),
            variant(2, 3, 0b111100u64 << 58u64, (0, 0)),
        ],
    };
    let t = Piece {
        variants: vec![
            variant(3, 2, 0b011101u64 << 58u64, (0, 1)),
            variant(3, 2, 0b101110u64 << 58u64, (0, 0)),
            variant(2, 3, 0b010111u64 << 58u64, (0, 1)),
            variant(2, 3, 0b111010u64 << 58u64, (0, 0)),
        ],
    };
    let s = Piece {
        variants: vec![
            variant(3, 2, 0b101101u64 << 58u64, (0, 0)),
            variant(2, 3, 0b011110u64 << 58u64, (0, 1)),
        ],
    };
    let z = Piece {
        variants: vec![
            variant(3, 2, 0b011110u64 << 58u64, (0, 1)),
            variant(2, 3, 0b110011u64 << 58u64, (0, 0)),
        ],
    };
    let o = Piece { variants: vec![variant(2, 2, 0b1111u64 << 60u64, (0, 0))] };
    let r = vec![('J', j), ('I', i), ('L', l), ('T', t), ('S', s), ('Z', z), ('O', o)];
    r
}

/// The placements of `variants` anchored at the cell at row `r`, column `c`
/// of a board of `board_size`.
fn cell_placements(variants: &Vec<PieceVariant>, board_size: (usize, usize), r: usize, c: usize) -> (res:
    Vec<Bitmap2D>)
    requires
        forall|k: int| 0 <= k < variants@.len() ==> (#[trigger] variants@[k]).wf(),
        board_size.0 * board_size.1 <= usize::MAX,
        r < board_size.0,
        c < board_size.1,
    ensures
        forall|k: int|
            0 <= k < res@.len() ==> (#[trigger] res@[k]).wf() && res@[k].shape == board_size,
        placement_views(res@) == placements_at(
            variants@.map_values(|v: PieceVariant| model_of(v)),
            board_size.0 as nat,
            board_size.1 as nat,
            r as int,
            c as int,
        ),
{
    let ghost ms = variants@.map_values(|v: PieceVariant| model_of(v));
    let mut out: Vec<Bitmap2D> = Vec::new();
    let mut k: usize = 0;
    while k < variants.len()
        invariant
            forall|m: int| 0 <= m < variants@.len() ==> (#[trigger] variants@[m]).wf(),
            ms == variants@.map_values(|v: PieceVariant| model_of(v)),
            board_size.0 * board_size.1 <= usize::MAX,
            r < board_size.0,
            c < board_size.1,
            k <= variants@.len(),
            forall|m: int|
                0 <= m < out@.len() ==> (#[trigger] out@[m]).wf() && out@[m].shape == board_size,
            placement_views(out@) == placements_at(
                ms.subrange(0, k as int),
                board_size.0 as nat,
                board_size.1 as nat,
                r as int,
                c as int,
            ),
        decreases variants@.len() - k,
    {
        let v = &variants[k];
        let ghost before = out@;
        if v.origin.0 <= r && v.origin.1 <= c {
            let a = r - v.origin.0;
            let b = c - v.origin.1;
            if v.bitmap.shape.0 <= board_size.0 - a && v.bitmap.shape.1 <= board_size.1 - b {
                let placed = v.bitmap.pad_to(board_size, (a, b));
                out.push(placed);
            }
        }
        proof {
            let sub = ms.subrange(0, k + 1);
            assert(sub.drop_last() =~= ms.subrange(0, k as int));
            assert(sub.last() == model_of(variants@[k as int]));
            assert(placement_views(out@) =~= placement_views(before) + variant_at(
                sub.last(),
                board_size.0 as nat,
                board_size.1 as nat,
                r as int,
                c as int,
            ));
        }
        k = k + 1;
    }
    assert(ms.subrange(0, k as int) =~= ms);
    out
}

/// For each piece of `catalog`, in order, and each cell of a board of
/// `board_size`, in row-major order, the placements of the piece anchored at
/// that cell: each variant that fits, put where its anchor lands on the cell,
/// in the order of the variants.
pub fn index_placements(board_size: (usize, usize), catalog: &Vec<(char, Piece)>) -> (r: Vec<
    Vec<Vec<Bitmap2D>>,
>)
    requires
        board_size.0 * board_size.1 <= usize::MAX,
        catalog_wf(catalog@),
    ensures
        index_is(r@, catalog_models(catalog@), board_size),
{
    let rows = board_size.0;
    let cols = board_size.1;
    let n = rows * cols;
    let ghost models = catalog_models(catalog@);
    let mut out: Vec<Vec<Vec<Bitmap2D>>> = Vec::new();
    let mut p: usize = 0;
    while p < catalog.len()
        invariant
            rows == board_size.0,
            cols == board_size.1,
            n == rows * cols,
            n <= usize::MAX,
            catalog_wf(catalog@),
            models == catalog_models(catalog@),
            p <= catalog@.len(),
            index_is(out@, models.subrange(0, p as int), board_size),
        decreases catalog@.len() - p,
    {
        let variants = &catalog[p].1.variants;
        assert forall|k: int| 0 <= k < variants@.len() implies (#[trigger] variants@[k]).wf() by {
            assert(catalog@[p as int].1.variants@[k].wf());
        }
        let mut cells: Vec<Vec<Bitmap2D>> = Vec::new();
        let mut cell: usize = 0;
        while cell < n
            invariant
                rows == board_size.0,
                cols == board_size.1,
                n == rows * cols,
                n <= usize::MAX,
                forall|k: int| 0 <= k < variants@.len() ==> (#[trigger] variants@[k]).wf(),
                cell <= n,
                cells@.len() == cell,
                forall|m: int, k: int|
                    0 <= m < cells@.len() && 0 <= k < cells@[m]@.len() ==> (
                    #[trigger] cells@[m]@[k]).wf() && cells@[m]@[k].shape == board_size,
                forall|m: int|
                    0 <= m < cells@.len() ==> placement_views((#[trigger] cells@[m])@)
                        == placements_at(
                        variants@.map_values(|v: PieceVariant| model_of(v)),
                        rows as nat,
                        cols as nat,
                        m / (cols as int),
                        m % (cols as int),
                    ),
            decreases n - cell,
        {
            proof {
                lemma_flat_index(cell as int, rows as int, cols as int);
            }
            let list = cell_placements(variants, board_size, cell / cols, cell % cols);
            cells.push(list);
            cell = cell + 1;
        }
        let ghost before = out@;
        out.push(cells);
        proof {
            let sub = models.subrange(0, p + 1);
            assert(models[p as int] == variants@.map_values(|v: PieceVariant| model_of(v)));
            assert forall|q: int, cell: int, k: int|
                0 <= q < out@.len() && 0 <= cell < out@[q]@.len() && 0 <= k < out@[q]@[cell]@.len()
                    implies (#[trigger] out@[q]@[cell]@[k]).wf() && out@[q]@[cell]@[k].shape
                    == board_size by {
                if q < p {
                    assert(out@[q] == before[q]);
                }
            }
            assert forall|q: int, cell: int|
                0 <= q < out@.len() && 0 <= cell < rows * cols implies placement_views(
                (#[trigger] out@[q]@[cell])@,
            ) == placements_at(
                sub[q],
                board_size.0 as nat,
                board_size.1 as nat,
                cell / (board_size.1 as int),
                cell % (board_size.1 as int),
            ) by {
                if q < p {
                    assert(out@[q] == before[q]);
                    assert(sub[q] == models.subrange(0, p as int)[q]);
                }
            }
        }
        p = p + 1;
    }
    assert(models.subrange(0, p as int) =~= models);
    out
}

/// The anchor of a variant model lies inside it and is one of its cells.
pub open spec fn model_anchored(m: VariantModel) -> bool {
    &&& m.2.0 < m.0.0
    &&& m.2.1 < m.0.1
    &&& m.1.len() == m.0.0 * m.0.1
    &&& m.1[(m.2.0 * m.0.1 + m.2.1) as int]
}

/// A placement anchored at a cell is a whole board that covers that cell,
/// when the variants cover their anchors.
proof fn lemma_placements_cover_anchor(ms: Seq<VariantModel>, rows: nat, cols: nat, r: int, c: int)
    requires
        forall|k: int| 0 <= k < ms.len() ==> model_anchored(#[trigger] ms[k]),
        0 <= r < rows,
        0 <= c < cols,
    ensures
        forall|x: int|
            0 <= x < placements_at(ms, rows, cols, r, c).len() ==> (#[trigger] placements_at(
                ms,
                rows,
                cols,
                r,
                c,
            )[x]).len() == rows * cols && placements_at(ms, rows, cols, r, c)[x][r * cols + c],
    decreases ms.len(),
{
    if ms.len() > 0 {
        let init = ms.drop_last();
        lemma_placements_cover_anchor(init, rows, cols, r, c);
        let m = ms.last();
        assert(model_anchored(ms[ms.len() - 1]));
        let all = placements_at(ms, rows, cols, r, c);
        let head = placements_at(init, rows, cols, r, c);
        let tail = variant_at(m, rows, cols, r, c);
        assert(all == head + tail);
        if tail.len() > 0 {
            let a = r - m.2.0;
            let b = c - m.2.1;
            let x = tail[0];
            lemma_cell_index(r, c, rows as int, cols as int);
            let p = r * cols + c;
            assert(x[p] == m.1[(r - a) * m.0.1 + (c - b)]);
        }
        assert forall|x: int| 0 <= x < all.len() implies (#[trigger] all[x]).len() == rows * cols
            && all[x][r * cols + c] by {
            if x >= head.len() {
                assert(all[x] == tail[x - head.len()]);
            } else {
                assert(all[x] == head[x]);
            }
        }
    }
}

/// Each variant of the standard catalog covers its anchor.
proof fn lemma_standard_models_anchored()
    ensures
        forall|p: int, k: int|
            0 <= p < standard_models().len() && 0 <= k < standard_models()[p].len()
                ==> model_anchored(#[trigger] standard_models()[p][k]),
{
    assert(word_bit(0b010111u64 << 58u64, 1) && word_bit(0b111010u64 << 58u64, 0) && word_bit(
        0b100111u64 << 58u64,
        0,
    ) && word_bit(0b111001u64 << 58u64, 0) && word_bit(0b1111u64 << 60u64, 0) && word_bit(
        0b101011u64 << 58u64,
        0,
    ) && word_bit(0b110101u64 << 58u64, 0) && word_bit(0b001111u64 << 58u64, 2) && word_bit(
        0b111100u64 << 58u64,
        0,
    ) && word_bit(0b011101u64 << 58u64, 1) && word_bit(0b101110u64 << 58u64, 0) && word_bit(
        0b101101u64 << 58u64,
        0,
    ) && word_bit(0b011110u64 << 58u64, 1) && word_bit(0b110011u64 << 58u64, 0))
        by (bit_vector);
    assert(standard_catalog()[0][0] == (3usize, 2usize, 0b010111u64 << 58u64, 0usize, 1usize));
    let m = table_model(standard_catalog()[0][0]);
    assert(m.1.len() == 6);
    assert(m.1[1] == word_bit(0b010111u64 << 58u64, 1u64));
    assert(model_anchored(table_model(standard_catalog()[0][0])));
    assert(model_anchored(table_model(standard_catalog()[0][1])));
    assert(model_anchored(table_model(standard_catalog()[0][2])));
    assert(model_anchored(table_model(standard_catalog()[0][3])));
    assert(model_anchored(table_model(standard_catalog()[1][0])));
    assert(model_anchored(table_model(standard_catalog()[1][1])));
    assert(model_anchored(table_model(standard_catalog()[2][0])));
    assert(model_anchored(table_model(standard_catalog()[2][1])));
    assert(model_anchored(table_model(standard_catalog()[2][2])));
    assert(model_anchored(table_model(standard_catalog()[2][3])));
    assert(model_anchored(table_model(standard_catalog()[3][0])));
    assert(model_anchored(table_model(standard_catalog()[3][1])));
    assert(model_anchored(table_model(standard_catalog()[3][2])));
    assert(model_anchored(table_model(standard_catalog()[3][3])));
    assert(model_anchored(table_model(standard_catalog()[4][0])));
    assert(model_anchored(table_model(standard_catalog()[4][1])));
    assert(model_anchored(table_model(standard_catalog()[5][0])));
    assert(model_anchored(table_model(standard_catalog()[5][1])));
    assert(model_anchored(table_model(standard_catalog()[6][0])));
    assert forall|p: int, k: int|
        0 <= p < standard_models().len() && 0 <= k < standard_models()[p].len()
            implies model_anchored(#[trigger] standard_models()[p][k]) by {
        assert(standard_models()[p][k] == table_model(standard_catalog()[p][k]));
        assert(0 <= p < 7);
        if p == 0 || p == 2 || p == 3 {
            assert(k == 0 || k == 1 || k == 2 || k == 3);
        } else if p == 6 {
            assert(k == 0);
        } else {
            assert(k == 0 || k == 1);
        }
    }
}

/// The placement index of the standard pieces on a board of `board_size`.
pub fn get_padded_pieces(board_size: (usize, usize)) -> (r: Vec<Vec<Vec<Bitmap2D>>>)
    requires
        board_size.0 * board_size.1 <= usize::MAX,
    ensures
        index_is(r@, standard_models(), board_size),
        anchored(r@, board_size.0 * board_size.1),
{
    let catalog = get_standard_pieces();
    proof {
        assert forall|p: int| 0 <= p < 7 implies #[trigger] catalog_models(catalog@)[p]
            == standard_models()[p] by {
            assert(catalog_models(catalog@)[p] =~= standard_models()[p]) by {
                assert forall|k: int| 0 <= k < standard_catalog()[p].len() implies variant_is(
                    #[trigger] catalog@[p].1.variants@[k],
                    standard_catalog()[p][k],
                ) by {}
            }
        }
        assert(catalog_models(catalog@) =~= standard_models());
    }
    let r = index_placements(board_size, &catalog);
    proof {
        lemma_standard_models_anchored();
        let n = board_size.0 * board_size.1;
        assert forall|p: int, c: int, k: int|
            0 <= p < r@.len() && 0 <= c < n && 0 <= k < candidates(r@, p, c).len() implies (
            #[trigger] candidates(r@, p, c)[k]).len() == n && candidates(r@, p, c)[k][c] by {
            lemma_flat_index(c, board_size.0 as int, board_size.1 as int);
            let row = c / (board_size.1 as int);
            let col = c % (board_size.1 as int);
            assert forall|m: int| 0 <= m < standard_models()[p].len() implies model_anchored(
                #[trigger] standard_models()[p][m],
            ) by {}
            lemma_placements_cover_anchor(
                standard_models()[p],
                board_size.0 as nat,
                board_size.1 as nat,
                row,
                col,
            );
            assert(candidates(r@, p, c) == placement_views(r@[p]@[c]@));
        }
    }
    r
}

/// The catalog position of the standard piece named `name`, or -1 if no
/// standard piece has that name.
pub open spec fn piece_id(name: char) -> int {
    if name == 'J' { 0 }
    else if name == 'I' { 1 }
    else if name == 'L' { 2 }
    else if name == 'T' { 3 }
    else if name == 'S' { 4 }
    else if name == 'Z' { 5 }
    else if name == 'O' { 6 }
    else { -1 }
}

/// How many times `c` occurs in `s`.
pub open spec fn count_of(s: Seq<char>, c: char) -> nat
    decreases s.len(),
{
    if s.len() == 0 {
        0
    } else {
        count_of(s.drop_last(), c) + if s.last() == c {
            1nat
        } else {
            0nat
        }
    }
}

/// The catalog position of the standard piece named `name`.
pub fn piece_index(name: char) -> (r: Option<usize>)
    ensures
        r == if piece_id(name) >= 0 {
            Some(piece_id(name) as usize)
        } else {
            None::<usize>
        },
        r matches Some(p) ==> p < 7 && piece_name(p as int) == name,
{
    let mut i: usize = 0;
    while i < 7
        invariant
            i <= 7,
            forall|q: int| 0 <= q < i ==> piece_name(q) != name,
            PIECE_ORDER@ == seq!['J', 'I', 'L', 'T', 'S', 'Z', 'O'],
        decreases 7 - i,
    {
        if PIECE_ORDER[i] == name {
            return Some(i);
        }
        i = i + 1;
    }
    assert(piece_name(0) != name && piece_name(1) != name && piece_name(2) != name && piece_name(3)
        != name && piece_name(4) != name && piece_name(5) != name && piece_name(6) != name);
    None
}

/// The number of pieces of each type that `names` asks for, one name per
/// piece; the first name that is not a standard piece's is the error.
pub fn count_pieces(names: &Vec<char>) -> (r: Result<[u32; 7], char>)
    requires
        names@.len() <= u32::MAX,
    ensures
        match r {
            Ok(counts) => (forall|i: int| 0 <= i < names@.len() ==> piece_id(#[trigger] names@[i])
                >= 0) && (forall|p: int| 0 <= p < 7 ==> #[trigger] counts@[p] == count_of(
                names@,
                piece_name(p),
            )),
            Err(c) => exists|i: int|
                0 <= i < names@.len() && #[trigger] names@[i] == c && piece_id(c) < 0 && (forall|
                    j: int,
                | 0 <= j < i ==> piece_id(#[trigger] names@[j]) >= 0),
        },
{
    let mut counts: [u32; 7] = [0; 7];
    let mut i: usize = 0;
    while i < names.len()
        invariant
            names@.len() <= u32::MAX,
            i <= names@.len(),
            forall|j: int| 0 <= j < i ==> piece_id(#[trigger] names@[j]) >= 0,
            forall|p: int| 0 <= p < 7 ==> #[trigger] counts@[p] == count_of(
                names@.subrange(0, i as int),
                piece_name(p),
            ),
            forall|p: int| 0 <= p < 7 ==> #[trigger] counts@[p] <= i,
        decreases names@.len() - i,
    {
        let c = names[i];
        match piece_index(c) {
            None => {
                return Err(c);
            },
            Some(p) => {
                let ghost before = counts@;
                counts[p] = counts[p] + 1;
                proof {
                    let sub = names@.subrange(0, i + 1);
                    assert(sub.drop_last() =~= names@.subrange(0, i as int));
                    assert forall|q: int| 0 <= q < 7 implies #[trigger] counts@[q] == count_of(
                        sub,
                        piece_name(q),
                    ) by {
                        assert(before[q] == count_of(names@.subrange(0, i as int), piece_name(q)));
                        if q != p {
                            assert(piece_name(q) != c);
                        }
                    }
                }
            },
        }
        i = i + 1;
    }
    assert(names@.subrange(0, i as int) =~= names@);
    Ok(counts)
}

} // verus!
