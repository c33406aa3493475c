//! Packed bit vectors and the two-dimensional boards built from them.
//!
//! Bit `i` of a vector lives in word `i / 64`, counting from that word's most
//! significant bit.
use vstd::prelude::*;
use vstd::arithmetic::div_mod::{
    lemma_fundamental_div_mod, lemma_fundamental_div_mod_converse, lemma_mod_pos_bound,
};

verus! {

/// Bit `j` of a word, where bit 0 is the most significant one.
pub open spec fn word_bit(w: u64, j: u64) -> bool {
    (w >> ((63u64 - j) as u64)) & 1u64 == 1u64
}

/// Number of 64-bit words needed to hold `len` bits.
pub open spec fn needed_words(len: nat) -> nat {
    if len % 64 == 0 {
        len / 64
    } else {
        len / 64 + 1
    }
}

/// Bit `i` of a word sequence; bits past the last word read as zero.
pub open spec fn raw_bit(data: Seq<u64>, i: int) -> bool {
    0 <= i && i / 64 < data.len() && word_bit(data[i / 64], (i % 64) as u64)
}

/// The text of a bit sequence, one `'0'` or `'1'` per bit.
pub open spec fn bits_text(v: Seq<bool>) -> Seq<char> {
    Seq::new(v.len(), |i: int| if v[i] { '1' } else { '0' })
}

/// The bits of `v` from `start` to `end`, both included.
pub open spec fn spec_extract(v: Seq<bool>, start: int, end: int) -> Seq<bool> {
    v.subrange(start, end + 1)
}

/// `v` with `left` clear bits before it and `right` clear bits after it.
pub open spec fn spec_pad(v: Seq<bool>, left: nat, right: nat) -> Seq<bool> {
    Seq::new(left, |i: int| false) + v + Seq::new(right, |i: int| false)
}

/// Row `i` of a grid of `cols` columns stored row after row.
pub open spec fn rows_of(v: Seq<bool>, rows: nat, cols: nat) -> Seq<Seq<bool>> {
    Seq::new(rows, |i: int| v.subrange(i * cols, (i + 1) * cols))
}

/// Rows of `cols` bits each, laid end to end.
pub open spec fn concat_rows(rows: Seq<Seq<bool>>, cols: nat) -> Seq<bool> {
    Seq::new(rows.len() * cols, |p: int| rows[p / (cols as int)][p % (cols as int)])
}

/// The shape of the board stacked from `rows`: no rows give `(0, 0)`.
pub open spec fn stacked_shape(rows: Seq<Seq<bool>>) -> (nat, nat) {
    if rows.len() == 0 {
        (0, 0)
    } else {
        (rows.len(), rows[0].len())
    }
}

/// Lines of text joined with `'\n'` between them.
pub open spec fn join_lines(lines: Seq<Seq<char>>) -> Seq<char>
    decreases lines.len(),
{
    if lines.len() == 0 {
        Seq::empty()
    } else if lines.len() == 1 {
        lines[0]
    } else {
        join_lines(lines.drop_last()) + seq!['\n'] + lines.last()
    }
}

/// The text of a grid: each row's bits as text, one line per row.
pub open spec fn board_text(v: Seq<bool>, rows: nat, cols: nat) -> Seq<char> {
    join_lines(Seq::new(rows, |i: int| bits_text(rows_of(v, rows, cols)[i])))
}

/// Some index holds a set bit in both sequences.
pub open spec fn overlaps(a: Seq<bool>, b: Seq<bool>) -> bool {
    exists|i: int| 0 <= i < a.len() && i < b.len() && #[trigger] a[i] && b[i]
}

/// The bitwise union of two sequences of one length.
pub open spec fn spec_union(a: Seq<bool>, b: Seq<bool>) -> Seq<bool> {
    Seq::new(a.len(), |i: int| a[i] || b[i])
}

/// A grid of `shape` placed at `offset` in an otherwise clear grid of
/// shape `target`.
pub open spec fn spec_pad_to(
    v: Seq<bool>,
    shape: (nat, nat),
    target: (nat, nat),
    offset: (nat, nat),
) -> Seq<bool> {
    Seq::new(
        target.0 * target.1,
        |p: int|
            {
                let i = p / (target.1 as int);
                let j = p % (target.1 as int);
                offset.0 <= i < offset.0 + shape.0 && offset.1 <= j < offset.1 + shape.1 && v[(i
                    - offset.0) * shape.1 + (j - offset.1)]
            },
    )
}

/// The glyph that marks the board at position `k` of an overlay.
pub open spec fn overlay_symbol(k: nat) -> char {
    hex_digit((k + 1) % 16)
}

/// The lower-case hexadecimal digit of `d`.
pub open spec fn hex_digit(d: nat) -> char {
    if d == 0 { '0' }
    else if d == 1 { '1' }
    else if d == 2 { '2' }
    else if d == 3 { '3' }
    else if d == 4 { '4' }
    else if d == 5 { '5' }
    else if d == 6 { '6' }
    else if d == 7 { '7' }
    else if d == 8 { '8' }
    else if d == 9 { '9' }
    else if d == 10 { 'a' }
    else if d == 11 { 'b' }
    else if d == 12 { 'c' }
    else if d == 13 { 'd' }
    else if d == 14 { 'e' }
    else { 'f' }
}

/// The glyph of cell `p` in an overlay of `boards`, looking from position `k`
/// on: the glyph of the first board with the cell set, or `'0'` if none.
pub open spec fn overlay_char(boards: Seq<Seq<bool>>, p: int, k: nat) -> char
    decreases boards.len() - k,
{
    if k >= boards.len() {
        '0'
    } else if boards[k as int][p] {
        overlay_symbol(k)
    } else {
        overlay_char(boards, p, k + 1)
    }
}

/// The text of an overlay of `boards` of shape `(rows, cols)`.
pub open spec fn overlay_text(boards: Seq<Seq<bool>>, rows: nat, cols: nat) -> Seq<char> {
    join_lines(
        Seq::new(rows, |i: int| Seq::new(cols, |j: int| overlay_char(boards, i * cols + j, 0))),
    )
}

/// Cell `p` of a grid of `cols` columns lies in row `p / cols`, column
/// `p % cols`.
pub proof fn lemma_flat_index(p: int, rows: int, cols: int)
    requires
        0 <= rows,
        0 <= cols,
        0 <= p < rows * cols,
    ensures
        cols > 0,
        0 <= p / cols < rows,
        0 <= p % cols < cols,
        p == (p / cols) * cols + p % cols,
{
    if cols == 0 {
        assert(rows * cols == 0) by (nonlinear_arith)
            requires
                cols == 0,
        ;
    }
    lemma_fundamental_div_mod(p, cols);
    lemma_mod_pos_bound(p, cols);
    let q = p / cols;
    let r = p % cols;
    assert(p == cols * q + r);
    assert(cols * q == q * cols) by (nonlinear_arith);
    assert(0 <= q < rows) by (nonlinear_arith)
        requires
            p == cols * q + r,
            0 <= r < cols,
            0 <= p < rows * cols,
    ;
}

/// The cell at row `r`, column `c` has index `r * cols + c`.
pub proof fn lemma_cell_index(r: int, c: int, rows: int, cols: int)
    requires
        0 <= r < rows,
        0 <= c < cols,
    ensures
        0 <= r * cols + c < rows * cols,
        (r * cols + c) / cols == r,
        (r * cols + c) % cols == c,
{
    assert(0 <= r * cols + c < rows * cols) by (nonlinear_arith)
        requires
            0 <= r < rows,
            0 <= c < cols,
    ;
    lemma_fundamental_div_mod_converse(r * cols + c, cols, r, c);
}

pub proof fn lemma_needed_words(i: int, len: nat)
    requires
        0 <= i < len,
    ensures
        i / 64 < needed_words(len),
{
}

proof fn lemma_word_bit_zero(b: u64)
    requires
        b < 64,
    ensures
        !word_bit(0u64, b),
{
    assert(!word_bit(0u64, b)) by (bit_vector)
        requires
            b < 64,
    ;
}

proof fn lemma_word_bit_or(x: u64, y: u64, b: u64)
    requires
        b < 64,
    ensures
        word_bit(x | y, b) == (word_bit(x, b) || word_bit(y, b)),
{
    assert(word_bit(x | y, b) == (word_bit(x, b) || word_bit(y, b))) by (bit_vector)
        requires
            b < 64,
    ;
}

proof fn lemma_word_bit_and(x: u64, y: u64, b: u64)
    requires
        b < 64,
    ensures
        word_bit(x & y, b) == (word_bit(x, b) && word_bit(y, b)),
{
    assert(word_bit(x & y, b) == (word_bit(x, b) && word_bit(y, b))) by (bit_vector)
        requires
            b < 64,
    ;
}

/// A nonzero word has a set bit.
proof fn lemma_nonzero_word_has_bit(x: u64)
    requires
        x != 0,
    ensures
        exists|b: u64| b < 64 && #[trigger] word_bit(x, b),
    decreases x,
{
    if x & 1u64 == 1u64 {
        assert(x & 1u64 == 1u64 ==> word_bit(x, 63u64)) by (bit_vector);
    } else {
        let y = x >> 1u64;
        assert(x != 0 && x & 1u64 != 1u64 ==> (x >> 1u64) != 0 && (x >> 1u64) < x)
            by (bit_vector);
        lemma_nonzero_word_has_bit(y);
        let b = choose|b: u64| b < 64 && #[trigger] word_bit(y, b);
        assert(!word_bit(y, 0u64)) by (bit_vector)
            requires
                y == x >> 1u64,
        ;
        assert(1 <= b < 64 ==> word_bit(y, b) == word_bit(x, (b - 1) as u64)) by (bit_vector)
            requires
                y == x >> 1u64,
        ;
        assert(word_bit(x, (b - 1) as u64));
    }
}

/// A word with a set bit is nonzero.
proof fn lemma_word_with_bit_nonzero(x: u64, b: u64)
    requires
        b < 64,
        word_bit(x, b),
    ensures
        x != 0,
{
    assert(b < 64 && word_bit(x, b) ==> x != 0) by (bit_vector);
}

/// Joining the tail of `x` with the head of `y`, as extraction does.
proof fn lemma_word_bit_join_left(x: u64, y: u64, s: u64, b: u64)
    requires
        1 <= s < 64,
        b < 64,
    ensures
        word_bit((x << s) | (y >> ((64 - s) as u64)), b) == if b + s < 64 {
            word_bit(x, (b + s) as u64)
        } else {
            word_bit(y, (b + s - 64) as u64)
        },
{
    assert(word_bit((x << s) | (y >> ((64 - s) as u64)), b) == if b + s < 64 {
        word_bit(x, (b + s) as u64)
    } else {
        word_bit(y, (b + s - 64) as u64)
    }) by (bit_vector)
        requires
            1 <= s < 64,
            b < 64,
    ;
}

/// Joining the tail of `x` with the head of `y`, as padding does.
proof fn lemma_word_bit_join_right(x: u64, y: u64, s: u64, b: u64)
    requires
        1 <= s < 64,
        b < 64,
    ensures
        word_bit((x << ((64 - s) as u64)) | (y >> s), b) == if b < s {
            word_bit(x, (b + 64 - s) as u64)
        } else {
            word_bit(y, (b - s) as u64)
        },
{
    assert(word_bit((x << ((64 - s) as u64)) | (y >> s), b) == if b < s {
        word_bit(x, (b + 64 - s) as u64)
    } else {
        word_bit(y, (b - s) as u64)
    }) by (bit_vector)
        requires
            1 <= s < 64,
            b < 64,
    ;
}

/// Masking keeps the first `r` bits of a word and clears the others.
proof fn lemma_word_bit_mask(w: u64, r: u64, b: u64)
    requires
        1 <= r < 64,
        b < 64,
    ensures
        word_bit(w & !(!0u64 >> r), b) == (b < r && word_bit(w, b)),
{
    assert(word_bit(w & !(!0u64 >> r), b) == (b < r && word_bit(w, b))) by (bit_vector)
        requires
            1 <= r < 64,
            b < 64,
    ;
}

/// Bit `j` of a sequence with one more word is bit `j` of the new word
/// when `j` falls in it, and the old bit otherwise.
proof fn lemma_raw_bit_push(data: Seq<u64>, w: u64, j: int)
    ensures
        raw_bit(data.push(w), j) == if 0 <= j && j / 64 == data.len() {
            word_bit(w, (j % 64) as u64)
        } else {
            raw_bit(data, j)
        },
{
}

/// Reads bit `i` of a word sequence.
fn read_bit(data: &Vec<u64>, i: usize) -> (r: bool)
    requires
        i / 64 < data@.len(),
    ensures
        r == raw_bit(data@, i as int),
{
    let w = data[i / 64];
    let j: u64 = (i % 64) as u64;
    (w >> (63 - j)) & 1 == 1
}

/// A sequence of bits packed into 64-bit words.
pub struct Bitmap1D {
    pub len: usize,
    pub data: Vec<u64>,
}

impl View for Bitmap1D {
    type V = Seq<bool>;

    open spec fn view(&self) -> Seq<bool> {
        Seq::new(self.len as nat, |i: int| raw_bit(self.data@, i))
    }
}

impl Bitmap1D {
    /// Enough words are stored for `len` bits.
    pub open spec fn wf(&self) -> bool {
        self.data@.len() >= needed_words(self.len as nat)
    }

    /// Every stored bit at an index at or past `len` is zero.
    pub open spec fn clean(&self) -> bool {
        forall|i: int| self.len <= i ==> !#[trigger] raw_bit(self.data@, i)
    }

    /// An all-zero vector of `len` bits.
    pub fn zeros(len: usize) -> (r: Self)
        ensures
            r.wf(),
            r.clean(),
            r.len == len,
            r.data@.len() == needed_words(len as nat),
            r@ == Seq::new(len as nat, |i: int| false),
    {
        let n: usize = if len % 64 == 0 {
            len / 64
        } else {
            len / 64 + 1
        };
        let data: Vec<u64> = vec![0u64; n];
        let r = Bitmap1D { len, data };
        assert forall|i: int| !#[trigger] raw_bit(r.data@, i) by {
            if 0 <= i && i / 64 < r.data@.len() {
                lemma_word_bit_zero((i % 64) as u64);
            }
        }
        assert(r@ =~= Seq::new(len as nat, |i: int| false));
        r
    }

    /// The index of the last bit that `sub_bitmap` takes.
    pub open spec fn last_index(&self, last_bit: Option<usize>) -> int {
        match last_bit {
            Some(l) => l as int,
            None => self.len - 1,
        }
    }

    /// Clears every stored bit at an index at or past `len`.
    pub fn mask_oob(&mut self)
        requires
            old(self).wf(),
        ensures
            final(self).wf(),
            final(self).clean(),
            final(self).len == old(self).len,
            final(self).data@.len() == old(self).data@.len(),
            final(self)@ == old(self)@,
    {
        let len = self.len;
        let n: usize = if len % 64 == 0 {
            len / 64
        } else {
            len / 64 + 1
        };
        let ghost before = self.data@;
        if len % 64 != 0 {
            let r: u64 = (len % 64) as u64;
            let w = self.data[n - 1];
            self.data.set(n - 1, w & !(!0u64 >> r));
            proof {
                assert forall|i: int| #![trigger raw_bit(self.data@, i)]
                    0 <= i implies raw_bit(self.data@, i) == if i / 64 < n {
                        i < len && raw_bit(before, i)
                    } else {
                        raw_bit(before, i)
                    } by {
                    assert(i == 64 * (i / 64) + i % 64);
                    assert(len == 64 * (len / 64) + len % 64);
                    if i / 64 == n - 1 {
                        lemma_word_bit_mask(w, r, (i % 64) as u64);
                    }
                }
            }
        }
        let mut k: usize = n;
        while k < self.data.len()
            invariant
                n <= k <= self.data@.len(),
                self.data@.len() == before.len(),
                n == needed_words(len as nat),
                self.len == len,
                forall|i: int| #![trigger raw_bit(self.data@, i)]
                    0 <= i ==> raw_bit(self.data@, i) == if i / 64 < n {
                        i < len && raw_bit(before, i)
                    } else if i / 64 < k {
                        false
                    } else {
                        raw_bit(before, i)
                    },
            decreases self.data@.len() - k,
        {
            let ghost prev = self.data@;
            self.data.set(k, 0);
            proof {
                assert forall|i: int| #![trigger raw_bit(self.data@, i)]
                    0 <= i implies raw_bit(self.data@, i) == if i / 64 < n {
                        i < len && raw_bit(before, i)
                    } else if i / 64 < k + 1 {
                        false
                    } else {
                        raw_bit(before, i)
                    } by {
                    if i / 64 == k {
                        lemma_word_bit_zero((i % 64) as u64);
                    } else {
                        assert(raw_bit(self.data@, i) == raw_bit(prev, i));
                    }
                }
            }
            k = k + 1;
        }
        proof {
            assert forall|i: int| 0 <= i < len implies #[trigger] raw_bit(self.data@, i) == raw_bit(
                before,
                i,
            ) by {
                lemma_needed_words(i, len as nat);
            }
            assert forall|i: int| len <= i implies !#[trigger] raw_bit(self.data@, i) by {
                assert(i == 64 * (i / 64) + i % 64);
                assert(len == 64 * (len / 64) + len % 64);
            }
        }
        assert(self@ =~= Seq::new(len as nat, |i: int| raw_bit(before, i)));
    }

    /// The bits from `start_bit` to `last_bit` (both included, `last_bit`
    /// defaulting to the last bit), as a vector of its own.
    pub fn sub_bitmap(&self, start_bit: usize, last_bit: Option<usize>) -> (r: Self)
        requires
            self.wf(),
            start_bit <= self.last_index(last_bit) < self.len,
        ensures
            r.wf(),
            r.len == self.last_index(last_bit) - start_bit + 1,
            r.data@.len() == needed_words(r.len as nat),
            r@ == spec_extract(self@, start_bit as int, self.last_index(last_bit)),
    {
        let last: usize = match last_bit {
            Some(l) => l,
            None => self.len - 1,
        };
        let new_len: usize = last - start_bit + 1;
        let n: usize = if new_len % 64 == 0 {
            new_len / 64
        } else {
            new_len / 64 + 1
        };
        let first_word: usize = start_bit / 64;
        let shift: u64 = (start_bit % 64) as u64;
        let mut data: Vec<u64> = Vec::new();
        let mut k: usize = 0;
        while k < n
            invariant
                self.wf(),
                start_bit <= last < self.len,
                new_len == last - start_bit + 1,
                n == needed_words(new_len as nat),
                first_word == start_bit / 64,
                shift == start_bit % 64,
                k <= n,
                data@.len() == k,
                forall|j: int| #![trigger raw_bit(data@, j)]
                    0 <= j < new_len && j / 64 < k ==> raw_bit(data@, j) == raw_bit(
                        self.data@,
                        start_bit + j,
                    ),
            decreases n - k,
        {
            proof {
                assert(64 * k < new_len);
                lemma_needed_words(start_bit + 64 * k, self.len as nat);
            }
            let cur = self.data[first_word + k];
            let w: u64 = if shift == 0 {
                cur
            } else {
                let next: u64 = if first_word + k + 1 < self.data.len() {
                    self.data[first_word + k + 1]
                } else {
                    0
                };
                (cur << shift) | (next >> (64 - shift))
            };
            let ghost prev = data@;
            data.push(w);
            proof {
                assert forall|j: int| #![trigger raw_bit(data@, j)]
                    0 <= j < new_len && j / 64 < k + 1 implies raw_bit(data@, j) == raw_bit(
                        self.data@,
                        start_bit + j,
                    ) by {
                    lemma_raw_bit_push(prev, w, j);
                    if j / 64 == k {
                        let b = (j % 64) as u64;
                        assert(j == 64 * k + b);
                        assert(start_bit == 64 * first_word + shift);
                        if shift == 0 {
                        } else {
                            let next: u64 = if first_word + k + 1 < self.data.len() {
                                self.data[first_word + k + 1]
                            } else {
                                0
                            };
                            lemma_word_bit_join_left(cur, next, shift, b);
                            if b + shift >= 64 {
                                if first_word + k + 1 >= self.data.len() {
                                    lemma_word_bit_zero((b + shift - 64) as u64);
                                }
                            }
                        }
                    }
                }
            }
            k = k + 1;
        }
        let r = Bitmap1D { len: new_len, data };
        proof {
            assert forall|j: int| 0 <= j < new_len implies #[trigger] r@[j] == self@[start_bit + j] by {
                lemma_needed_words(j, new_len as nat);
            }
        }
        assert(r@ =~= spec_extract(self@, start_bit as int, last as int));
        r
    }

    /// The vector with `pad_left` clear bits before it and `pad_right` bits
    /// after it. The bits after it are the stored bits past `len`, which are
    /// clear when the vector is clean.
    pub fn pad(&self, pad_left: usize, pad_right: usize) -> (r: Self)
        requires
            self.wf(),
            self.len + pad_left + pad_right <= usize::MAX,
        ensures
            r.wf(),
            r.len == self.len + pad_left + pad_right,
            r.data@.len() == needed_words(r.len as nat),
            forall|j: int| #![trigger raw_bit(r.data@, j)]
                0 <= j < 64 * r.data@.len() ==> raw_bit(r.data@, j) == (pad_left <= j
                    && raw_bit(self.data@, j - pad_left)),
            forall|j: int| 0 <= j < pad_left ==> !#[trigger] r@[j],
            r@.subrange(pad_left as int, pad_left + self.len) == self@,
            self.clean() ==> r.clean(),
            self.clean() ==> r@ == spec_pad(self@, pad_left as nat, pad_right as nat),
    {
        let new_len: usize = self.len + pad_left + pad_right;
        let n: usize = if new_len % 64 == 0 {
            new_len / 64
        } else {
            new_len / 64 + 1
        };
        let word_pad: usize = pad_left / 64;
        let shift: u64 = (pad_left % 64) as u64;
        let mut data: Vec<u64> = Vec::new();
        let mut d: usize = 0;
        while d < n
            invariant
                self.wf(),
                n == needed_words(new_len as nat),
                word_pad == pad_left / 64,
                shift == pad_left % 64,
                d <= n,
                data@.len() == d,
                forall|j: int| #![trigger raw_bit(data@, j)]
                    0 <= j && j / 64 < d ==> raw_bit(data@, j) == (pad_left <= j && raw_bit(
                        self.data@,
                        j - pad_left,
                    )),
            decreases n - d,
        {
            let mut w: u64 = 0;
            if d >= word_pad {
                let c: usize = d - word_pad;
                let hi: u64 = if c < self.data.len() {
                    self.data[c]
                } else {
                    0
                };
                let lo: u64 = if c >= 1 && c - 1 < self.data.len() {
                    self.data[c - 1]
                } else {
                    0
                };
                w = if shift == 0 {
                    hi
                } else {
                    (lo << (64 - shift)) | (hi >> shift)
                };
                proof {
                    assert forall|b: u64| b < 64 implies #[trigger] word_bit(w, b) == (pad_left
                        <= 64 * d + b && raw_bit(self.data@, 64 * d + b - pad_left)) by {
                        assert(pad_left == 64 * word_pad + shift);
                        let jj: int = 64 * d + b - pad_left;
                        if shift == 0 {
                            assert(jj == 64 * c + b);
                            if c >= self.data.len() {
                                lemma_word_bit_zero(b);
                            }
                        } else {
                            lemma_word_bit_join_right(lo, hi, shift, b);
                            if b < shift {
                                assert(jj == 64 * (c - 1) + (b + 64 - shift));
                                if !(c >= 1 && c - 1 < self.data.len()) {
                                    lemma_word_bit_zero((b + 64 - shift) as u64);
                                }
                            } else {
                                assert(jj == 64 * c + (b - shift));
                                if c >= self.data.len() {
                                    lemma_word_bit_zero((b - shift) as u64);
                                }
                            }
                        }
                    }
                }
            } else {
                proof {
                    assert forall|b: u64| b < 64 implies #[trigger] word_bit(w, b) == (pad_left
                        <= 64 * d + b && raw_bit(self.data@, 64 * d + b - pad_left)) by {
                        lemma_word_bit_zero(b);
                    }
                }
            }
            let ghost prev = data@;
            data.push(w);
            proof {
                assert forall|j: int| #![trigger raw_bit(data@, j)]
                    0 <= j && j / 64 < d + 1 implies raw_bit(data@, j) == (pad_left <= j
                        && raw_bit(self.data@, j - pad_left)) by {
                    lemma_raw_bit_push(prev, w, j);
                    if j / 64 == d {
                        assert(j == 64 * d + (j % 64) as u64);
                        assert(word_bit(w, (j % 64) as u64) == (pad_left <= j && raw_bit(
                            self.data@,
                            j - pad_left,
                        )));
                    }
                }
            }
            d = d + 1;
        }
        let r = Bitmap1D { len: new_len, data };
        proof {
            assert forall|j: int| 0 <= j < pad_left implies !#[trigger] r@[j] by {
                lemma_needed_words(j, new_len as nat);
            }
            assert forall|j: int| 0 <= j < self.len implies #[trigger] r@[pad_left + j]
                == self@[j] by {
                lemma_needed_words(pad_left + j, new_len as nat);
            }
            assert(r@.subrange(pad_left as int, pad_left + self.len) =~= self@);
            if self.clean() {
                assert forall|j: int| new_len <= j implies !#[trigger] raw_bit(r.data@, j) by {
                    if j < 64 * r.data@.len() {
                        assert(!raw_bit(self.data@, j - pad_left));
                    }
                }
                assert forall|j: int| 0 <= j < new_len implies #[trigger] r@[j] == spec_pad(
                    self@,
                    pad_left as nat,
                    pad_right as nat,
                )[j] by {
                    lemma_needed_words(j, new_len as nat);
                    if j >= pad_left + self.len {
                        assert(!raw_bit(self.data@, j - pad_left));
                    }
                }
                assert(r@ =~= spec_pad(self@, pad_left as nat, pad_right as nat));
            }
        }
        r
    }

    /// The bits as text, `'1'` for a set bit and `'0'` for a clear one.
    pub fn to_string(&self) -> (r: String)
        requires
            self.wf(),
        ensures
            r@ == bits_text(self@),
    {
        let mut out = String::new();
        let mut i: usize = 0;
        while i < self.len
            invariant
                self.wf(),
                i <= self.len,
                out@ == bits_text(self@.subrange(0, i as int)),
            decreases self.len - i,
        {
            proof {
                lemma_needed_words(i as int, self.len as nat);
                reveal_strlit("0");
                reveal_strlit("1");
            }
            let b = read_bit(&self.data, i);
            if b {
                out.append("1");
            } else {
                out.append("0");
            }
            i = i + 1;
            assert(bits_text(self@.subrange(0, i as int)) =~= bits_text(
                self@.subrange(0, i - 1),
            ).push(if b { '1' } else { '0' }));
        }
        assert(self@.subrange(0, self.len as int) =~= self@);
        out
    }
}


/// The views of a sequence of vectors.
pub open spec fn line_views(lines: Seq<Bitmap1D>) -> Seq<Seq<bool>> {
    lines.map_values(|l: Bitmap1D| l@)
}

/// Sets each word of `acc` to its union with the same word of `other`.
fn or_words(acc: &mut Vec<u64>, other: &Vec<u64>)
    requires
        old(acc)@.len() == other@.len(),
    ensures
        final(acc)@.len() == old(acc)@.len(),
        forall|p: int| #![trigger raw_bit(final(acc)@, p)]
            raw_bit(final(acc)@, p) == (raw_bit(old(acc)@, p) || raw_bit(other@, p)),
{
    let ghost start = acc@;
    let mut j: usize = 0;
    while j < acc.len()
        invariant
            acc@.len() == start.len(),
            start.len() == other@.len(),
            j <= acc@.len(),
            forall|p: int| #![trigger raw_bit(acc@, p)]
                raw_bit(acc@, p) == if 0 <= p && p / 64 < j {
                    raw_bit(start, p) || raw_bit(other@, p)
                } else {
                    raw_bit(start, p)
                },
        decreases acc@.len() - j,
    {
        let w = acc[j] | other[j];
        let ghost prev = acc@;
        acc.set(j, w);
        proof {
            assert forall|p: int| #![trigger raw_bit(acc@, p)]
                raw_bit(acc@, p) == if 0 <= p && p / 64 < j + 1 {
                    raw_bit(start, p) || raw_bit(other@, p)
                } else {
                    raw_bit(start, p)
                } by {
                if 0 <= p && p / 64 == j {
                    assert(raw_bit(prev, p) == raw_bit(start, p));
                    lemma_word_bit_or(prev[j as int], other[j as int], (p % 64) as u64);
                } else {
                    assert(raw_bit(acc@, p) == raw_bit(prev, p));
                }
            }
        }
        j = j + 1;
    }
}

/// The views of a sequence of boards.
pub open spec fn board_views(boards: Seq<&Bitmap2D>) -> Seq<Seq<bool>> {
    boards.map_values(|b: &Bitmap2D| b@)
}

/// The digit `d` as text.
fn hex_text(d: usize) -> (r: &'static str)
    requires
        d < 16,
    ensures
        r@ == seq![hex_digit(d as nat)],
{
    proof {
        reveal_strlit("0");
        reveal_strlit("1");
        reveal_strlit("2");
        reveal_strlit("3");
        reveal_strlit("4");
        reveal_strlit("5");
        reveal_strlit("6");
        reveal_strlit("7");
        reveal_strlit("8");
        reveal_strlit("9");
        reveal_strlit("a");
        reveal_strlit("b");
        reveal_strlit("c");
        reveal_strlit("d");
        reveal_strlit("e");
        reveal_strlit("f");
    }
    if d == 0 {
        "0"
    } else if d == 1 {
        "1"
    } else if d == 2 {
        "2"
    } else if d == 3 {
        "3"
    } else if d == 4 {
        "4"
    } else if d == 5 {
        "5"
    } else if d == 6 {
        "6"
    } else if d == 7 {
        "7"
    } else if d == 8 {
        "8"
    } else if d == 9 {
        "9"
    } else if d == 10 {
        "a"
    } else if d == 11 {
        "b"
    } else if d == 12 {
        "c"
    } else if d == 13 {
        "d"
    } else if d == 14 {
        "e"
    } else {
        "f"
    }
}

/// The glyph of the cell at row `i`, column `j` in an overlay of `bitmaps`.
fn overlay_glyph(bitmaps: &[&Bitmap2D], i: usize, j: usize) -> (r: &'static str)
    requires
        bitmaps@.len() > 0,
        forall|k: int|
            0 <= k < bitmaps@.len() ==> (#[trigger] bitmaps@[k]).wf() && bitmaps@[k].shape
                == bitmaps@[0].shape,
        i < bitmaps@[0].shape.0,
        j < bitmaps@[0].shape.1,
    ensures
        r@ == seq![overlay_char(board_views(bitmaps@), i * bitmaps@[0].shape.1 + j, 0)],
{
    let ghost views = board_views(bitmaps@);
    let ghost p = i * bitmaps@[0].shape.1 + j;
    let mut k: usize = 0;
    while k < bitmaps.len()
        invariant
            forall|m: int|
                0 <= m < bitmaps@.len() ==> (#[trigger] bitmaps@[m]).wf() && bitmaps@[m].shape
                    == bitmaps@[0].shape,
            i < bitmaps@[0].shape.0,
            j < bitmaps@[0].shape.1,
            views == board_views(bitmaps@),
            p == i * bitmaps@[0].shape.1 + j,
            k <= bitmaps@.len(),
            overlay_char(views, p, 0) == overlay_char(views, p, k as nat),
        decreases bitmaps@.len() - k,
    {
        let set = bitmaps[k].get((i, j));
        assert(views[k as int] == bitmaps@[k as int]@);
        if set == Some(true) {
            return hex_text((k + 1) % 16);
        }
        k = k + 1;
    }
    hex_text(0)
}

/// A grid of `shape.0` rows and `shape.1` columns, stored row after row in
/// packed words.
pub struct Bitmap2D {
    pub shape: (usize, usize),
    pub data: Vec<u64>,
}

impl View for Bitmap2D {
    type V = Seq<bool>;

    open spec fn view(&self) -> Seq<bool> {
        Seq::new(self.cell_count(), |i: int| raw_bit(self.data@, i))
    }
}

impl Bitmap2D {
    pub open spec fn cell_count(&self) -> nat {
        self.shape.0 as nat * self.shape.1 as nat
    }

    /// Exactly the words needed are stored, and every bit past the last
    /// cell is clear.
    pub open spec fn wf(&self) -> bool {
        &&& self.cell_count() <= usize::MAX
        &&& self.data@.len() == needed_words(self.cell_count())
        &&& forall|i: int| self.cell_count() <= i ==> !#[trigger] raw_bit(self.data@, i)
    }

    /// The cell at row `r`, column `c`.
    pub open spec fn cell(&self, r: int, c: int) -> bool {
        self@[r * self.shape.1 + c]
    }

    /// An empty board of the given shape.
    pub fn zeros(shape: (usize, usize)) -> (r: Self)
        requires
            shape.0 * shape.1 <= usize::MAX,
        ensures
            r.wf(),
            r.shape == shape,
            r@ == Seq::new(r.cell_count(), |i: int| false),
    {
        let line = Bitmap1D::zeros(shape.0 * shape.1);
        let r = Bitmap2D { shape, data: line.data };
        assert(r@ =~= line@);
        r
    }

    /// The cell at `coord`; a cell outside the board reads as clear.
    pub fn get(&self, coord: (usize, usize)) -> (r: Option<bool>)
        requires
            self.wf(),
        ensures
            r == Some(coord.0 < self.shape.0 && coord.1 < self.shape.1 && self.cell(
                coord.0 as int,
                coord.1 as int,
            )),
    {
        if coord.0 < self.shape.0 && coord.1 < self.shape.1 {
            proof {
                lemma_cell_index(
                    coord.0 as int,
                    coord.1 as int,
                    self.shape.0 as int,
                    self.shape.1 as int,
                );
                lemma_needed_words(coord.0 * self.shape.1 + coord.1, self.cell_count());
            }
            let idx = coord.0 * self.shape.1 + coord.1;
            Some(read_bit(&self.data, idx))
        } else {
            Some(false)
        }
    }

    /// The rows of the board, each a clean vector of `shape.1` bits.
    pub fn get_lines(&self) -> (r: Vec<Bitmap1D>)
        requires
            self.wf(),
        ensures
            r@.len() == self.shape.0,
            forall|i: int|
                0 <= i < r@.len() ==> (#[trigger] r@[i]).wf() && r@[i].clean() && r@[i].len
                    == self.shape.1,
            line_views(r@) == rows_of(self@, self.shape.0 as nat, self.shape.1 as nat),
    {
        let rows = self.shape.0;
        let cols = self.shape.1;
        let line = Bitmap1D { len: rows * cols, data: self.data.clone() };
        assert(line.data@ =~= self.data@);
        assert(line@ =~= self@);
        let mut out: Vec<Bitmap1D> = Vec::new();
        let mut i: usize = 0;
        while i < rows
            invariant
                self.wf(),
                rows == self.shape.0,
                cols == self.shape.1,
                line.wf(),
                line@ == self@,
                line.len == rows * cols,
                i <= rows,
                out@.len() == i,
                forall|k: int|
                    0 <= k < i ==> (#[trigger] out@[k]).wf() && out@[k].clean() && out@[k].len
                        == cols && out@[k]@ == self@.subrange(k * cols, (k + 1) * cols),
            decreases rows - i,
        {
            assert((i + 1) * cols <= rows * cols) by (nonlinear_arith)
                requires
                    i < rows,
            ;
            assert((i + 1) * cols == i * cols + cols) by (nonlinear_arith);
            let mut l = if cols == 0 {
                Bitmap1D::zeros(0)
            } else {
                line.sub_bitmap(i * cols, Some((i + 1) * cols - 1))
            };
            assert(l@ =~= self@.subrange(i * cols, (i + 1) * cols));
            l.mask_oob();
            out.push(l);
            i = i + 1;
        }
        assert(line_views(out@) =~= rows_of(self@, rows as nat, cols as nat));
        out
    }

    /// The board as text: one line of `'0'` and `'1'` per row.
    pub fn to_string(&self) -> (r: String)
        requires
            self.wf(),
        ensures
            r@ == board_text(self@, self.shape.0 as nat, self.shape.1 as nat),
    {
        let lines = self.get_lines();
        let ghost texts = Seq::new(
            self.shape.0 as nat,
            |i: int| bits_text(rows_of(self@, self.shape.0 as nat, self.shape.1 as nat)[i]),
        );
        let mut out = String::new();
        let mut i: usize = 0;
        while i < lines.len()
            invariant
                lines@.len() == texts.len(),
                forall|k: int| 0 <= k < lines@.len() ==> (#[trigger] lines@[k]).wf(),
                forall|k: int| 0 <= k < lines@.len() ==> bits_text(#[trigger] lines@[k]@) == texts[k],
                i <= lines@.len(),
                out@ == join_lines(texts.subrange(0, i as int)),
            decreases lines@.len() - i,
        {
            proof {
                reveal_strlit("\n");
                assert(line_views(lines@)[i as int] == lines@[i as int]@);
            }
            let t = lines[i].to_string();
            if i > 0 {
                out.append("\n");
            }
            out.append(t.as_str());
            proof {
                let sub = texts.subrange(0, i + 1);
                assert(sub.drop_last() =~= texts.subrange(0, i as int));
                if i == 0 {
                    assert(join_lines(sub) == sub[0]);
                }
            }
            i = i + 1;
        }
        assert(texts.subrange(0, i as int) =~= texts);
        out
    }

    /// The board whose rows are `lines`, all of one length. Only the first
    /// `len` bits of each line are read.
    pub fn stack(lines: Vec<Bitmap1D>) -> (r: Self)
        requires
            forall|i: int| 0 <= i < lines@.len() ==> (#[trigger] lines@[i]).wf(),
            forall|i: int| 0 <= i < lines@.len() ==> (#[trigger] lines@[i]).len == lines@[0].len,
            lines@.len() > 0 ==> lines@.len() * lines@[0].len <= usize::MAX,
        ensures
            r.wf(),
            (r.shape.0 as nat, r.shape.1 as nat) == stacked_shape(line_views(lines@)),
            r@ == concat_rows(line_views(lines@), r.shape.1 as nat),
    {
        if lines.len() == 0 {
            let r = Bitmap2D { shape: (0, 0), data: Vec::new() };
            assert(r@ =~= concat_rows(line_views(lines@), 0));
            return r;
        }
        let count = lines.len();
        let line_len = lines[0].len;
        let new_len = count * line_len;
        let ghost views = line_views(lines@);
        let ghost ll = line_len as int;
        let zero = Bitmap1D::zeros(new_len);
        let mut acc: Vec<u64> = zero.data;
        proof {
            assert forall|p: int| 0 <= p implies !#[trigger] raw_bit(acc@, p) by {
                if p < new_len {
                    assert(!zero@[p]);
                }
            }
        }
        let mut i: usize = 0;
        while i < count
            invariant
                count == lines@.len(),
                line_len == lines@[0].len,
                new_len == count * line_len,
                views == line_views(lines@),
                ll == line_len,
                forall|k: int| 0 <= k < lines@.len() ==> (#[trigger] lines@[k]).wf(),
                forall|k: int| 0 <= k < lines@.len() ==> (#[trigger] lines@[k]).len == line_len,
                i <= count,
                acc@.len() == needed_words(new_len as nat),
                forall|p: int| #![trigger raw_bit(acc@, p)]
                    0 <= p ==> raw_bit(acc@, p) == (p < i * ll && views[p / ll][p % ll]),
            decreases count - i,
        {
            assert((i + 1) * line_len <= count * line_len) by (nonlinear_arith)
                requires
                    i < count,
            ;
            assert((i + 1) * ll == i * ll + ll) by (nonlinear_arith);
            let mut line = Bitmap1D { len: lines[i].len, data: lines[i].data.clone() };
            assert(line.data@ =~= lines@[i as int].data@);
            line.mask_oob();
            let padded = line.pad(i * line_len, new_len - (i + 1) * line_len);
            let ghost prev = acc@;
            or_words(&mut acc, &padded.data);
            proof {
                assert forall|p: int| #![trigger raw_bit(acc@, p)]
                    0 <= p implies raw_bit(acc@, p) == (p < (i + 1) * ll && views[p / ll][p
                        % ll]) by {
                    assert(raw_bit(prev, p) == (p < i * ll && views[p / ll][p % ll]));
                    if p < 64 * padded.data@.len() {
                        assert(raw_bit(padded.data@, p) == (i * ll <= p && raw_bit(
                            line.data@,
                            p - i * ll,
                        )));
                        if i * ll <= p < (i + 1) * ll {
                            lemma_fundamental_div_mod_converse(p, ll, i as int, p - i * ll);
                            assert(views[i as int] == lines@[i as int]@);
                            assert(raw_bit(line.data@, p - i * ll) == line@[p - i * ll]);
                        } else if p >= (i + 1) * ll {
                            assert(!raw_bit(line.data@, p - i * ll));
                        }
                    } else {
                        assert(!raw_bit(padded.data@, p));
                        if p < (i + 1) * ll {
                            assert(p < new_len);
                            lemma_needed_words(p, new_len as nat);
                        }
                    }
                }
            }
            i = i + 1;
        }
        let r = Bitmap2D { shape: (count, line_len), data: acc };
        proof {
            assert forall|p: int| r.cell_count() <= p implies !#[trigger] raw_bit(r.data@, p) by {
                if 0 <= p {
                    assert(raw_bit(acc@, p) == (p < i * ll && views[p / ll][p % ll]));
                }
            }
            assert forall|p: int| 0 <= p < r.cell_count() implies #[trigger] r@[p] == concat_rows(
                views,
                line_len as nat,
            )[p] by {
                assert(raw_bit(acc@, p) == (p < i * ll && views[p / ll][p % ll]));
            }
        }
        assert(r@ =~= concat_rows(views, line_len as nat));
        r
    }

    /// The board placed at `offset` in an otherwise empty board of shape
    /// `target_shape`.
    pub fn pad_to(&self, target_shape: (usize, usize), offset: (usize, usize)) -> (r: Self)
        requires
            self.wf(),
            offset.0 + self.shape.0 <= target_shape.0,
            offset.1 + self.shape.1 <= target_shape.1,
            target_shape.0 * target_shape.1 <= usize::MAX,
        ensures
            r.wf(),
            r.shape == target_shape,
            r@ == spec_pad_to(
                self@,
                (self.shape.0 as nat, self.shape.1 as nat),
                (target_shape.0 as nat, target_shape.1 as nat),
                (offset.0 as nat, offset.1 as nat),
            ),
    {
        let ghost goal = spec_pad_to(
            self@,
            (self.shape.0 as nat, self.shape.1 as nat),
            (target_shape.0 as nat, target_shape.1 as nat),
            (offset.0 as nat, offset.1 as nat),
        );
        if target_shape.0 == 0 {
            let r = Bitmap2D { shape: target_shape, data: Vec::new() };
            assert(r@ =~= goal);
            return r;
        }
        let rows = self.shape.0;
        let cols = self.shape.1;
        let width = target_shape.1;
        let right = width - cols - offset.1;
        let lines = self.get_lines();
        let ghost src = rows_of(self@, rows as nat, cols as nat);
        let mut to_stack: Vec<Bitmap1D> = Vec::new();
        let mut i: usize = 0;
        while i < target_shape.0
            invariant
                self.wf(),
                rows == self.shape.0,
                cols == self.shape.1,
                width == target_shape.1,
                right == width - cols - offset.1,
                offset.0 + rows <= target_shape.0,
                offset.1 + cols <= width,
                lines@.len() == rows,
                forall|k: int|
                    0 <= k < lines@.len() ==> (#[trigger] lines@[k]).wf() && lines@[k].clean()
                        && lines@[k].len == cols,
                line_views(lines@) == src,
                src == rows_of(self@, rows as nat, cols as nat),
                i <= target_shape.0,
                to_stack@.len() == i,
                forall|k: int|
                    0 <= k < i ==> (#[trigger] to_stack@[k]).wf() && to_stack@[k].len == width,
                forall|k: int|
                    0 <= k < i ==> (#[trigger] to_stack@[k])@ == if offset.0 <= k < offset.0
                        + rows {
                        spec_pad(src[k - offset.0], offset.1 as nat, right as nat)
                    } else {
                        Seq::new(width as nat, |j: int| false)
                    },
            decreases target_shape.0 - i,
        {
            if offset.0 <= i && i < offset.0 + rows {
                let line = &lines[i - offset.0];
                assert(line_views(lines@)[i - offset.0] == line@);
                let padded = line.pad(offset.1, right);
                to_stack.push(padded);
            } else {
                to_stack.push(Bitmap1D::zeros(width));
            }
            i = i + 1;
        }
        let ghost views = line_views(to_stack@);
        assert(views[0] == to_stack@[0]@);
        let r = Self::stack(to_stack);
        proof {
            assert forall|p: int| 0 <= p < r.cell_count() implies #[trigger] r@[p] == goal[p] by {
                lemma_flat_index(p, target_shape.0 as int, width as int);
                let a = p / (width as int);
                let b = p % (width as int);
                assert(views[a] == to_stack@[a]@);
                if offset.0 <= a < offset.0 + rows {
                    let row = src[a - offset.0];
                    assert(row == self@.subrange((a - offset.0) * cols, (a - offset.0 + 1) * cols));
                    if offset.1 <= b < offset.1 + cols {
                        assert((a - offset.0 + 1) * cols == (a - offset.0) * cols + cols)
                            by (nonlinear_arith);
                        assert((a - offset.0 + 1) * cols <= rows * cols) by (nonlinear_arith)
                            requires
                                a - offset.0 < rows,
                        ;
                        assert(row[b - offset.1] == self@[(a - offset.0) * cols + (b - offset.1)]);
                    }
                }
            }
        }
        assert(r@ =~= goal);
        r
    }

    /// The boards drawn over each other, one line of text per row: a cell
    /// shows the glyph of the first board that has it set, `'0'` if none.
    pub fn print_all(bitmaps: &[&Bitmap2D]) -> (r: String)
        requires
            forall|k: int|
                0 <= k < bitmaps@.len() ==> (#[trigger] bitmaps@[k]).wf() && bitmaps@[k].shape
                    == bitmaps@[0].shape,
        ensures
            r@ == if bitmaps@.len() == 0 {
                Seq::empty()
            } else {
                overlay_text(
                    board_views(bitmaps@),
                    bitmaps@[0].shape.0 as nat,
                    bitmaps@[0].shape.1 as nat,
                )
            },
    {
        let mut out = String::new();
        if bitmaps.len() == 0 {
            return out;
        }
        let rows = bitmaps[0].shape.0;
        let cols = bitmaps[0].shape.1;
        let ghost views = board_views(bitmaps@);
        let ghost lines = Seq::new(
            rows as nat,
            |a: int| Seq::new(cols as nat, |b: int| overlay_char(views, a * cols + b, 0)),
        );
        let mut i: usize = 0;
        while i < rows
            invariant
                bitmaps@.len() > 0,
                forall|k: int|
                    0 <= k < bitmaps@.len() ==> (#[trigger] bitmaps@[k]).wf() && bitmaps@[k].shape
                        == bitmaps@[0].shape,
                rows == bitmaps@[0].shape.0,
                cols == bitmaps@[0].shape.1,
                views == board_views(bitmaps@),
                lines.len() == rows,
                lines == Seq::new(
                    rows as nat,
                    |a: int| Seq::new(cols as nat, |b: int| overlay_char(views, a * cols + b, 0)),
                ),
                i <= rows,
                out@ == join_lines(lines.subrange(0, i as int)),
            decreases rows - i,
        {
            proof {
                reveal_strlit("\n");
            }
            let ghost before = out@;
            if i > 0 {
                out.append("\n");
            }
            let ghost prefix = out@;
            let mut j: usize = 0;
            while j < cols
                invariant
                    bitmaps@.len() > 0,
                    forall|k: int|
                        0 <= k < bitmaps@.len() ==> (#[trigger] bitmaps@[k]).wf()
                            && bitmaps@[k].shape == bitmaps@[0].shape,
                    rows == bitmaps@[0].shape.0,
                    cols == bitmaps@[0].shape.1,
                    views == board_views(bitmaps@),
                    i < rows,
                    lines.len() == rows,
                    lines == Seq::new(
                        rows as nat,
                        |a: int| Seq::new(cols as nat, |b: int| overlay_char(views, a * cols + b, 0)),
                    ),
                    j <= cols,
                    out@ == prefix + lines[i as int].subrange(0, j as int),
                decreases cols - j,
            {
                let g = overlay_glyph(bitmaps, i, j);
                out.append(g);
                j = j + 1;
                assert(lines[i as int].subrange(0, j as int) =~= lines[i as int].subrange(
                    0,
                    j - 1,
                ).push(overlay_char(views, i * cols + (j - 1), 0)));
            }
            proof {
                assert(lines[i as int].subrange(0, cols as int) =~= lines[i as int]);
                let sub = lines.subrange(0, i + 1);
                assert(sub.drop_last() =~= lines.subrange(0, i as int));
                if i == 0 {
                    assert(join_lines(sub) == sub[0]);
                }
            }
            i = i + 1;
        }
        assert(lines.subrange(0, i as int) =~= lines);
        out
    }

    /// Whether some cell is set in both boards.
    pub fn intersects(&self, other: &Self) -> (r: bool)
        requires
            self.wf(),
            other.wf(),
        ensures
            r == overlaps(self@, other@),
    {
        let n: usize = if self.data.len() < other.data.len() {
            self.data.len()
        } else {
            other.data.len()
        };
        let mut k: usize = 0;
        while k < n
            invariant
                self.wf(),
                other.wf(),
                n <= self.data@.len(),
                n <= other.data@.len(),
                n == self.data@.len() || n == other.data@.len(),
                k <= n,
                forall|i: int|
                    0 <= i && i / 64 < k ==> !(#[trigger] raw_bit(self.data@, i) && raw_bit(
                        other.data@,
                        i,
                    )),
            decreases n - k,
        {
            let w = self.data[k] & other.data[k];
            if w != 0 {
                proof {
                    lemma_nonzero_word_has_bit(w);
                    let b = choose|b: u64| b < 64 && #[trigger] word_bit(w, b);
                    lemma_word_bit_and(self.data[k as int], other.data[k as int], b);
                    let i: int = 64 * k + b;
                    assert(raw_bit(self.data@, i) && raw_bit(other.data@, i));
                    assert(self@[i] && other@[i]);
                }
                return true;
            }
            proof {
                assert forall|i: int|
                    0 <= i && i / 64 < k + 1 implies !(#[trigger] raw_bit(self.data@, i)
                    && raw_bit(other.data@, i)) by {
                    if i / 64 == k {
                        lemma_word_bit_and(
                            self.data[k as int],
                            other.data[k as int],
                            (i % 64) as u64,
                        );
                        lemma_word_bit_zero((i % 64) as u64);
                    }
                }
            }
            k = k + 1;
        }
        proof {
            assert forall|i: int|
                0 <= i < self@.len() && i < other@.len() implies !(#[trigger] self@[i]
                && other@[i]) by {
                lemma_needed_words(i, self.cell_count());
                lemma_needed_words(i, other.cell_count());
            }
        }
        false
    }

    /// The union of two boards of one shape.
    pub fn or(&self, other: &Self) -> (r: Self)
        requires
            self.wf(),
            other.wf(),
            self.shape == other.shape,
        ensures
            r.wf(),
            r.shape == self.shape,
            r@ == spec_union(self@, other@),
    {
        let mut data: Vec<u64> = Vec::new();
        let mut k: usize = 0;
        while k < self.data.len()
            invariant
                self.wf(),
                other.wf(),
                self.shape == other.shape,
                k <= self.data@.len(),
                data@.len() == k,
                forall|i: int| #![trigger raw_bit(data@, i)]
                    0 <= i && i / 64 < k ==> raw_bit(data@, i) == (raw_bit(self.data@, i)
                        || raw_bit(other.data@, i)),
            decreases self.data@.len() - k,
        {
            let w = self.data[k] | other.data[k];
            let ghost prev = data@;
            data.push(w);
            proof {
                assert forall|i: int| #![trigger raw_bit(data@, i)]
                    0 <= i && i / 64 < k + 1 implies raw_bit(data@, i) == (raw_bit(
                        self.data@,
                        i,
                    ) || raw_bit(other.data@, i)) by {
                    lemma_raw_bit_push(prev, w, i);
                    if i / 64 == k {
                        lemma_word_bit_or(
                            self.data[k as int],
                            other.data[k as int],
                            (i % 64) as u64,
                        );
                    }
                }
            }
            k = k + 1;
        }
        let r = Bitmap2D { shape: self.shape, data };
        proof {
            assert forall|i: int| self.cell_count() <= i implies !#[trigger] raw_bit(
                r.data@,
                i,
            ) by {
                if 0 <= i && i / 64 < k {
                    assert(!raw_bit(self.data@, i));
                    assert(!raw_bit(other.data@, i));
                }
            }
        }
        assert(r@ =~= spec_union(self@, other@));
        r
    }
}

} // verus!
