//! A polyomino tiling puzzle is a tiling of a rectangular grid with
//! polyominoes, where each polyomino must be placed in the grid without
//! overlaps or gaps.

use crate::solver::{problem_fits, Solver};
use crate::ExactCover;
use vstd::prelude::*;

verus! {

/// The shape of a single polyomino, encoded as a binary mask.
///
/// The mask holds `height * width` cells row by row: the cell of row `i` and
/// column `j` stands at index `i * width + j`. 0 is an empty cell, 1 a
/// filled one.
#[derive(Debug, PartialEq, Eq, Clone, PartialOrd, Ord)]
pub struct PShape {
    /// Width of polyomino
    pub width: usize,
    /// Binary mask encoded in row-first manner.
    pub mask: Vec<u8>,
}

/// A rectangle of cells of a mask: the rows `top..=bottom` and the columns
/// `left..=right`.
pub struct Bounds {
    pub top: int,
    pub bottom: int,
    pub left: int,
    pub right: int,
}

/// Row `r` of the mask holds zeros only.
pub open spec fn row_blank(mask: Seq<u8>, width: int, r: int) -> bool {
    forall|c: int| 0 <= c < width ==> #[trigger] mask[r * width + c] == 0
}

/// Column `c` of the mask holds zeros only.
pub open spec fn column_blank(mask: Seq<u8>, width: int, c: int) -> bool {
    forall|r: int| 0 <= r < mask.len() as int / width ==> #[trigger] mask[r * width + c] == 0
}

/// A mask of rows of the given width, with a cell that is not zero.
pub open spec fn mask_ok(mask: Seq<u8>, width: int) -> bool {
    &&& width > 0
    &&& mask.len() > 0
    &&& mask.len() as int % width == 0
    &&& exists|k: int| 0 <= k < mask.len() && #[trigger] mask[k] != 0
}

/// `b` is the smallest rectangle outside of which the mask is zero.
pub open spec fn is_bounding_box(mask: Seq<u8>, width: int, b: Bounds) -> bool {
    let height = mask.len() as int / width;
    &&& 0 <= b.top <= b.bottom < height
    &&& 0 <= b.left <= b.right < width
    &&& !row_blank(mask, width, b.top)
    &&& !row_blank(mask, width, b.bottom)
    &&& !column_blank(mask, width, b.left)
    &&& !column_blank(mask, width, b.right)
    &&& forall|r: int| 0 <= r < b.top ==> #[trigger] row_blank(mask, width, r)
    &&& forall|r: int| b.bottom < r < height ==> #[trigger] row_blank(mask, width, r)
    &&& forall|c: int| 0 <= c < b.left ==> #[trigger] column_blank(mask, width, c)
    &&& forall|c: int| b.right < c < width ==> #[trigger] column_blank(mask, width, c)
}

/// The smallest rectangle outside of which the mask is zero.
pub open spec fn bounding_box(mask: Seq<u8>, width: int) -> Bounds {
    choose|b: Bounds| is_bounding_box(mask, width, b)
}

/// The cells of the rectangle `b` of the mask, row by row.
pub open spec fn cropped(mask: Seq<u8>, width: int, b: Bounds) -> Seq<u8> {
    Seq::new(
        (b.bottom - b.top + 1) as nat,
        |i: int| mask.subrange((i + b.top) * width + b.left, (i + b.top) * width + b.right + 1),
    ).flatten()
}

/// The width of a shape and its mask.
pub type ShapeView = (int, Seq<u8>);

/// The shape that a mask of rows of the given width describes: the mask
/// without the empty rows and columns at its edges.
pub open spec fn shape_of(mask: Seq<u8>, width: int) -> ShapeView {
    let b = bounding_box(mask, width);
    (b.right - b.left + 1, cropped(mask, width, b))
}

/// A mask has one bounding box only.
pub proof fn lemma_bounding_box_unique(mask: Seq<u8>, width: int, a: Bounds, b: Bounds)
    requires
        is_bounding_box(mask, width, a),
        is_bounding_box(mask, width, b),
    ensures
        a == b,
{
    if a.top < b.top {
        assert(row_blank(mask, width, a.top));
    }
    if b.top < a.top {
        assert(row_blank(mask, width, b.top));
    }
    if a.bottom < b.bottom {
        assert(row_blank(mask, width, b.bottom));
    }
    if b.bottom < a.bottom {
        assert(row_blank(mask, width, a.bottom));
    }
    if a.left < b.left {
        assert(column_blank(mask, width, a.left));
    }
    if b.left < a.left {
        assert(column_blank(mask, width, b.left));
    }
    if a.right < b.right {
        assert(column_blank(mask, width, b.right));
    }
    if b.right < a.right {
        assert(column_blank(mask, width, a.right));
    }
}

/// The cell of row `r` and column `c` lies inside a mask of `height` rows.
pub proof fn lemma_cell_index(width: int, height: int, r: int, c: int)
    requires
        0 <= r < height,
        0 <= c < width,
    ensures
        0 <= r * width + c < height * width,
        (r * width + c) / width == r,
        (r * width + c) % width == c,
{
    assert(0 <= r * width + c < height * width) by (nonlinear_arith)
        requires
            0 <= r < height,
            0 <= c < width,
    ;
    vstd::arithmetic::div_mod::lemma_fundamental_div_mod_converse(r * width + c, width, r, c);
}

/// A mask of whole rows has as many cells as rows times the width.
pub proof fn lemma_mask_height(len: int, width: int)
    requires
        width > 0,
        len >= 0,
        len % width == 0,
    ensures
        (len / width) * width == len,
        len > 0 ==> len / width > 0,
{
    vstd::arithmetic::div_mod::lemma_fundamental_div_mod(len, width);
    assert(width * (len / width) == (len / width) * width) by (nonlinear_arith);
    if len > 0 && len / width <= 0 {
        assert((len / width) * width <= 0) by (nonlinear_arith)
            requires
                len / width <= 0,
                width > 0,
        ;
    }
}

/// Whether row `row` of the mask holds zeros only.
fn is_row_blank(mask: &Vec<u8>, width: usize, row: usize) -> (blank: bool)
    requires
        width > 0,
        mask@.len() as int % (width as int) == 0,
        row < mask@.len() as int / (width as int),
    ensures
        blank == row_blank(mask@, width as int, row as int),
{
    proof {
        lemma_mask_height(mask@.len() as int, width as int);
    }
    assert(mask@.len() == mask.len());
    let mut c: usize = 0;
    while c < width
        invariant
            width > 0,
            mask@.len() <= usize::MAX,
            row < mask@.len() as int / (width as int),
            (mask@.len() as int / (width as int)) * width == mask@.len(),
            0 <= c <= width,
            forall|k: int| 0 <= k < c ==> #[trigger] mask@[row * width + k] == 0,
        decreases width - c,
    {
        proof {
            lemma_cell_index(width as int, mask@.len() as int / (width as int), row as int, c as int);
            assert(0 <= row * width <= row * width + c) by (nonlinear_arith)
                requires
                    0 <= row,
                    0 <= width,
                    0 <= c,
            ;
        }
        if mask[row * width + c] != 0 {
            return false;
        }
        c += 1;
    }
    true
}

/// Whether column `column` of the mask holds zeros only.
fn is_column_blank(mask: &Vec<u8>, width: usize, column: usize) -> (blank: bool)
    requires
        width > 0,
        mask@.len() as int % (width as int) == 0,
        column < width,
    ensures
        blank == column_blank(mask@, width as int, column as int),
{
    proof {
        lemma_mask_height(mask@.len() as int, width as int);
    }
    let height = mask.len() / width;
    let mut r: usize = 0;
    while r < height
        invariant
            width > 0,
            mask@.len() <= usize::MAX,
            column < width,
            height == mask@.len() as int / (width as int),
            height * width == mask@.len(),
            0 <= r <= height,
            forall|k: int| 0 <= k < r ==> #[trigger] mask@[k * width + column] == 0,
        decreases height - r,
    {
        proof {
            lemma_cell_index(width as int, height as int, r as int, column as int);
            assert(0 <= r * width <= r * width + column) by (nonlinear_arith)
                requires
                    0 <= r,
                    0 <= width,
                    0 <= column,
            ;
        }
        if mask[r * width + column] != 0 {
            return false;
        }
        r += 1;
    }
    true
}

impl PShape {
    /// The width and the mask of this shape.
    pub open spec fn spec_view(&self) -> ShapeView {
        (self.width as int, self.mask@)
    }

    /// The mask holds whole rows and a cell that is not zero.
    pub open spec fn ok(&self) -> bool {
        mask_ok(self.mask@, self.width as int)
    }

    /// Create a new shape of a given width and mask.
    ///
    /// Empty rows and columns on the edges are cut off, so the width and the
    /// mask of the shape may differ from those given.
    pub fn new(init_width: usize, init_mask: Vec<u8>) -> (shape: Self)
        requires
            mask_ok(init_mask@, init_width as int),
        ensures
            shape.spec_view() == shape_of(init_mask@, init_width as int),
            is_bounding_box(
                init_mask@,
                init_width as int,
                bounding_box(init_mask@, init_width as int),
            ),
            shape.ok(),
    {
        let ghost mask = init_mask@;
        let ghost width = init_width as int;
        proof {
            lemma_mask_height(mask.len() as int, width);
        }
        let init_height = init_mask.len() / init_width;
        let ghost witness = choose|k: int| 0 <= k < mask.len() && #[trigger] mask[k] != 0;
        let ghost witness_row = witness / width;
        let ghost witness_column = witness % width;
        proof {
            vstd::arithmetic::div_mod::lemma_fundamental_div_mod(witness, width);
            assert(width * witness_row == witness_row * width) by (nonlinear_arith);
            assert(0 <= witness_row < init_height) by (nonlinear_arith)
                requires
                    0 <= witness < init_height * width,
                    witness == witness_row * width + witness_column,
                    0 <= witness_column < width,
            ;
            assert(!row_blank(mask, width, witness_row));
            assert(!column_blank(mask, width, witness_column));
        }
        let mut r1: usize = 0;
        while r1 < init_height && is_row_blank(&init_mask, init_width, r1)
            invariant
                init_width > 0,
                mask == init_mask@,
                width == init_width,
                mask.len() as int % width == 0,
                init_height == mask.len() as int / width,
                0 <= r1 <= witness_row < init_height,
                !row_blank(mask, width, witness_row),
                forall|r: int| 0 <= r < r1 ==> #[trigger] row_blank(mask, width, r),
            decreases init_height - r1,
        {
            r1 += 1;
        }
        let mut r2: usize = init_height - 1;
        while r2 > r1 && is_row_blank(&init_mask, init_width, r2)
            invariant
                init_width > 0,
                mask == init_mask@,
                width == init_width,
                mask.len() as int % width == 0,
                init_height == mask.len() as int / width,
                r1 <= r2 < init_height,
                !row_blank(mask, width, r1 as int),
                forall|r: int| r2 < r < init_height ==> #[trigger] row_blank(mask, width, r),
            decreases r2,
        {
            r2 -= 1;
        }
        let mut c1: usize = 0;
        while c1 < init_width && is_column_blank(&init_mask, init_width, c1)
            invariant
                init_width > 0,
                mask == init_mask@,
                width == init_width,
                mask.len() as int % width == 0,
                0 <= c1 <= witness_column < init_width,
                !column_blank(mask, width, witness_column),
                forall|c: int| 0 <= c < c1 ==> #[trigger] column_blank(mask, width, c),
            decreases init_width - c1,
        {
            c1 += 1;
        }
        let mut c2: usize = init_width - 1;
        while c2 > c1 && is_column_blank(&init_mask, init_width, c2)
            invariant
                init_width > 0,
                mask == init_mask@,
                width == init_width,
                mask.len() as int % width == 0,
                c1 <= c2 < init_width,
                !column_blank(mask, width, c1 as int),
                forall|c: int| c2 < c < init_width ==> #[trigger] column_blank(mask, width, c),
            decreases c2,
        {
            c2 -= 1;
        }
        let ghost found = Bounds {
            top: r1 as int,
            bottom: r2 as int,
            left: c1 as int,
            right: c2 as int,
        };
        proof {
            assert(is_bounding_box(mask, width, found));
            lemma_bounding_box_unique(mask, width, found, bounding_box(mask, width));
        }
        let width_out = c2 - c1 + 1;
        let height_out = r2 - r1 + 1;
        let mut cells: Vec<u8> = Vec::new();
        let ghost rows = Seq::new(
            height_out as nat,
            |i: int| mask.subrange((i + found.top) * width + found.left, (i + found.top) * width
                + found.right + 1),
        );
        let mut i: usize = 0;
        proof {
            assert(rows.take(0) =~= Seq::<Seq<u8>>::empty());
            assert(cells@ =~= rows.take(0).flatten());
        }
        while i < height_out
            invariant
                mask == init_mask@,
                width == init_width,
                init_height * width == mask.len(),
                r1 <= r2 < init_height,
                c1 <= c2 < init_width,
                width_out == c2 - c1 + 1,
                height_out == r2 - r1 + 1,
                found == (Bounds {
                    top: r1 as int,
                    bottom: r2 as int,
                    left: c1 as int,
                    right: c2 as int,
                }),
                rows == Seq::new(
                    height_out as nat,
                    |i: int| mask.subrange((i + found.top) * width + found.left, (i + found.top)
                        * width + found.right + 1),
                ),
                0 <= i <= height_out,
                mask.len() <= usize::MAX,
                cells@ == rows.take(i as int).flatten(),
                cells@.len() == i * width_out,
            decreases height_out - i,
        {
            let ghost before = cells@;
            let mut j: usize = 0;
            proof {
                lemma_cell_index(width, init_height as int, i + r1, c1 as int);
                lemma_cell_index(width, init_height as int, i + r1, c2 as int);
                assert(0 <= (i + r1) * width) by (nonlinear_arith)
                    requires
                        0 <= i + r1,
                        0 <= width,
                ;
            }
            while j < width_out
                invariant
                    mask == init_mask@,
                    width == init_width,
                    init_height * width == mask.len(),
                    r1 <= r2 < init_height,
                    c1 <= c2 < init_width,
                    width_out == c2 - c1 + 1,
                    i + r1 < init_height,
                    0 <= j <= width_out,
                    0 <= (i + r1) * width + c1,
                    (i + r1) * width + c2 < mask.len(),
                    0 <= (i + r1) * width,
                    mask.len() <= usize::MAX,
                    cells@ == before + mask.subrange((i + r1) * width + c1, (i + r1) * width + c1
                        + j),
                decreases width_out - j,
            {
                proof {
                    lemma_cell_index(width, init_height as int, i + r1, j + c1);
                    assert((i + r1) * width + (j + c1) == (i + r1) * width + c1 + j);
                    assert(mask.subrange((i + r1) * width + c1, (i + r1) * width + c1 + j + 1)
                        =~= mask.subrange((i + r1) * width + c1, (i + r1) * width + c1 + j).push(
                        mask[(i + r1) * width + c1 + j],
                    ));
                }
                cells.push(init_mask[(i + r1) * init_width + (j + c1)]);
                j += 1;
            }
            proof {
                let done = rows.take(i as int);
                assert(rows.take(i + 1) =~= done.push(rows[i as int]));
                done.lemma_flatten_push(rows[i as int]);
                assert(rows[i as int].len() == width_out);
                assert((i + 1) * width_out == i * width_out + width_out) by (nonlinear_arith);
            }
            i += 1;
        }
        proof {
            assert(rows.take(i as int) =~= rows);
            // The first row of the rectangle holds a cell that is not zero.
            let hit = choose|c: int| 0 <= c < width && #[trigger] mask[r1 * width + c] != 0;
            if hit < c1 {
                assert(column_blank(mask, width, hit));
                lemma_cell_index(width, init_height as int, r1 as int, hit);
            }
            if hit > c2 {
                assert(column_blank(mask, width, hit));
                lemma_cell_index(width, init_height as int, r1 as int, hit);
            }
            lemma_cell_index(width, init_height as int, r1 as int, hit);
            lemma_cell_index(width, init_height as int, r1 as int, c1 as int);
            lemma_cell_index(width, init_height as int, r1 as int, c2 as int);
            assert(rows[0] == mask.subrange((0 + found.top) * width + found.left, (0 + found.top)
                * width + found.right + 1));
            assert(rows[0][hit - c1] == mask[r1 * width + c1 + (hit - c1)]);
            lemma_flatten_head(rows);
            assert(cells@[hit - c1] != 0);
            assert(height_out * width_out > 0) by (nonlinear_arith)
                requires
                    height_out > 0,
                    width_out > 0,
            ;
            vstd::arithmetic::div_mod::lemma_mod_multiples_basic(
                height_out as int,
                width_out as int,
            );
        }
        Self { width: width_out, mask: cells }
    }

    /// Get PShape width.
    pub fn width(&self) -> (width: usize)
        ensures
            width == self.width,
    {
        self.width
    }

    /// Get PShape height.
    pub fn height(&self) -> (height: usize)
        requires
            self.width > 0,
        ensures
            height == self.mask@.len() as int / (self.width as int),
    {
        self.mask.len() / self.width
    }
}

/// The first list of a non-empty list of lists starts its flattening.
pub proof fn lemma_flatten_head<A>(parts: Seq<Seq<A>>)
    requires
        parts.len() > 0,
    ensures
        parts.flatten().len() >= parts[0].len(),
        forall|k: int| 0 <= k < parts[0].len() ==> #[trigger] parts.flatten()[k] == parts[0][k],
    decreases parts.len(),
{
    let front = parts.drop_last();
    assert(parts =~= front.push(parts.last()));
    front.lemma_flatten_push(parts.last());
    if front.len() > 0 {
        lemma_flatten_head(front);
    } else {
        assert(front.flatten() =~= Seq::<A>::empty());
    }
}

/// In the flattening of lists of one length, entry `j` of list `i` stands
/// at index `i * width + j`.
pub proof fn lemma_flatten_uniform<A>(parts: Seq<Seq<A>>, width: int, i: int, j: int)
    requires
        forall|k: int| 0 <= k < parts.len() ==> (#[trigger] parts[k]).len() == width,
        0 <= i < parts.len(),
        0 <= j < width,
    ensures
        parts.flatten().len() == parts.len() * width,
        0 <= i * width + j < parts.flatten().len(),
        parts.flatten()[i * width + j] == parts[i][j],
    decreases parts.len(),
{
    let front = parts.drop_last();
    assert(parts =~= front.push(parts.last()));
    front.lemma_flatten_push(parts.last());
    lemma_flatten_len(front, width);
    assert(front.len() * width + width == parts.len() * width) by (nonlinear_arith)
        requires
            front.len() + 1 == parts.len(),
    ;
    lemma_cell_index(width, parts.len() as int, i, j);
    if i < front.len() {
        lemma_flatten_uniform(front, width, i, j);
    }
}

/// The flattening of lists of one length has that length times their number.
pub proof fn lemma_flatten_len<A>(parts: Seq<Seq<A>>, width: int)
    requires
        forall|k: int| 0 <= k < parts.len() ==> (#[trigger] parts[k]).len() == width,
    ensures
        parts.flatten().len() == parts.len() * width,
    decreases parts.len(),
{
    if parts.len() == 0 {
        assert(parts.flatten() =~= Seq::<A>::empty());
        assert(0 * width == 0) by (nonlinear_arith);
    } else {
        let front = parts.drop_last();
        assert(parts =~= front.push(parts.last()));
        front.lemma_flatten_push(parts.last());
        lemma_flatten_len(front, width);
        assert(front.len() * width + width == parts.len() * width) by (nonlinear_arith)
            requires
                front.len() + 1 == parts.len(),
        ;
    }
}

/// The mask of the shape turned by a quarter: column by column, each column
/// from its last row to its first.
pub open spec fn turned(mask: Seq<u8>, width: int) -> Seq<u8> {
    let height = mask.len() as int / width;
    Seq::new(
        width as nat,
        |c: int| Seq::new(height as nat, |t: int| mask[(height - 1 - t) * width + c]),
    ).flatten()
}

/// The mask of the shape with the order of its rows reversed.
pub open spec fn flipped(mask: Seq<u8>, width: int) -> Seq<u8> {
    let height = mask.len() as int / width;
    Seq::new(
        height as nat,
        |i: int| mask.subrange((height - 1 - i) * width, (height - i) * width),
    ).flatten()
}

/// The shape turned by a quarter.
pub open spec fn rotated(shape: ShapeView) -> ShapeView {
    shape_of(turned(shape.1, shape.0), shape.1.len() as int / shape.0)
}

/// The shape with the order of its rows reversed.
pub open spec fn reflected(shape: ShapeView) -> ShapeView {
    shape_of(flipped(shape.1, shape.0), shape.0)
}

/// The shape and its three turns.
pub open spec fn rotations(shape: ShapeView) -> Seq<ShapeView> {
    seq![shape, rotated(shape), rotated(rotated(shape)), rotated(rotated(rotated(shape)))]
}

/// Available transformations for polyomino shapes during tiling.
#[derive(Debug, Clone, Copy, PartialEq, Eq, Hash, Structural)]
pub enum ShapeTransform {
    /// No transformation applied to the shape.
    NoTransform,
    /// Allow rotations of the shape.
    PureRotation,
    /// Allow rotations and reflections of the shape.
    FullSymmetry,
}

/// The shapes that a shape may be placed as.
pub open spec fn symmetries(shape: ShapeView, transform: ShapeTransform) -> Seq<ShapeView> {
    match transform {
        ShapeTransform::NoTransform => seq![shape],
        ShapeTransform::PureRotation => rotations(shape),
        ShapeTransform::FullSymmetry => rotations(shape) + rotations(shape).map_values(
            |turn: ShapeView| reflected(turn),
        ),
    }
}

/// The widths and masks of a list of shapes.
pub open spec fn shape_views(shapes: Seq<PShape>) -> Seq<ShapeView> {
    shapes.map_values(|shape: PShape| shape.spec_view())
}

/// The turned mask of a good mask is a good mask of rows as long as the
/// old mask was high.
pub proof fn lemma_turned_ok(mask: Seq<u8>, width: int)
    requires
        mask_ok(mask, width),
    ensures
        mask_ok(turned(mask, width), mask.len() as int / width),
        turned(mask, width).len() == mask.len(),
{
    let height = mask.len() as int / width;
    lemma_mask_height(mask.len() as int, width);
    let columns = Seq::new(
        width as nat,
        |c: int| Seq::new(height as nat, |t: int| mask[(height - 1 - t) * width + c]),
    );
    lemma_flatten_len(columns, height);
    assert(width * height == height * width) by (nonlinear_arith);
    vstd::arithmetic::div_mod::lemma_mod_multiples_basic(width, height);
    let k = choose|k: int| 0 <= k < mask.len() && #[trigger] mask[k] != 0;
    let r = k / width;
    let c = k % width;
    vstd::arithmetic::div_mod::lemma_fundamental_div_mod(k, width);
    assert(width * r == r * width) by (nonlinear_arith);
    assert(0 <= r < height) by (nonlinear_arith)
        requires
            0 <= k < height * width,
            k == r * width + c,
            0 <= c < width,
    ;
    lemma_flatten_uniform(columns, height, c, height - 1 - r);
    let t = height - 1 - r;
    assert(height - 1 - t == r);
    assert(columns[c][t] == mask[(height - 1 - t) * width + c]);
    assert(turned(mask, width)[c * height + t] != 0);
}

/// The mask with its rows reversed is a good mask of the same width.
pub proof fn lemma_flipped_ok(mask: Seq<u8>, width: int)
    requires
        mask_ok(mask, width),
    ensures
        mask_ok(flipped(mask, width), width),
        flipped(mask, width).len() == mask.len(),
{
    let height = mask.len() as int / width;
    lemma_mask_height(mask.len() as int, width);
    let rows = Seq::new(
        height as nat,
        |i: int| mask.subrange((height - 1 - i) * width, (height - i) * width),
    );
    assert forall|i: int| 0 <= i < rows.len() implies (#[trigger] rows[i]).len() == width by {
        lemma_cell_index(width, height, height - 1 - i, 0);
        assert((height - i) * width == (height - 1 - i) * width + width) by (nonlinear_arith);
        assert((height - i) * width <= height * width) by (nonlinear_arith)
            requires
                0 <= i,
                width > 0,
        ;
    }
    lemma_flatten_len(rows, width);
    let k = choose|k: int| 0 <= k < mask.len() && #[trigger] mask[k] != 0;
    let r = k / width;
    let c = k % width;
    vstd::arithmetic::div_mod::lemma_fundamental_div_mod(k, width);
    assert(width * r == r * width) by (nonlinear_arith);
    assert(0 <= r < height) by (nonlinear_arith)
        requires
            0 <= k < height * width,
            k == r * width + c,
            0 <= c < width,
    ;
    lemma_flatten_uniform(rows, width, height - 1 - r, c);
    lemma_cell_index(width, height, r, 0);
    assert((height - (height - 1 - r)) * width == r * width + width) by (nonlinear_arith);
    let i = height - 1 - r;
    assert(height - 1 - i == r);
    assert(rows[i] == mask.subrange((height - 1 - i) * width, (height - i) * width));
    assert((height - i) * width == r * width + width && (height - 1 - i) * width == r * width)
        by (nonlinear_arith)
        requires
            height - i == r + 1,
    ;
    assert(0 <= r * width && r * width + width <= mask.len()) by (nonlinear_arith)
        requires
            0 <= r < height,
            width > 0,
            mask.len() == height * width,
    ;
    let row = mask.subrange(r * width, r * width + width);
    assert(rows[i] == row);
    assert(row[c] == mask[r * width + c]);
    assert(flipped(mask, width)[i * width + c] != 0);
}

impl PShape {
    /// A shape with the same width and mask.
    pub fn copy(&self) -> (copy: Self)
        ensures
            copy.spec_view() == self.spec_view(),
    {
        let mut mask: Vec<u8> = Vec::new();
        let mut i: usize = 0;
        while i < self.mask.len()
            invariant
                0 <= i <= self.mask@.len(),
                mask@ == self.mask@.take(i as int),
            decreases self.mask@.len() - i,
        {
            mask.push(self.mask[i]);
            proof {
                assert(self.mask@.take(i + 1) =~= self.mask@.take(i as int).push(
                    self.mask@[i as int],
                ));
            }
            i += 1;
        }
        proof {
            assert(self.mask@.take(i as int) =~= self.mask@);
        }
        PShape { width: self.width, mask }
    }

    /// The shape that the rows of an array describe.
    pub fn from<const W: usize, const H: usize>(arr: [[u8; W]; H]) -> (shape: Self)
        requires
            mask_ok(Seq::new(H as nat, |i: int| arr@[i]@).flatten(), W as int),
        ensures
            shape.spec_view() == shape_of(
                Seq::new(H as nat, |i: int| arr@[i]@).flatten(),
                W as int,
            ),
            shape.ok(),
    {
        let ghost rows = Seq::new(H as nat, |i: int| arr@[i]@);
        let mut mask: Vec<u8> = Vec::new();
        let mut i: usize = 0;
        proof {
            assert(rows.take(0) =~= Seq::<Seq<u8>>::empty());
            assert(mask@ =~= rows.take(0).flatten());
        }
        while i < H
            invariant
                0 <= i <= H,
                rows == Seq::new(H as nat, |i: int| arr@[i]@),
                mask@ == rows.take(i as int).flatten(),
            decreases H - i,
        {
            let ghost before = mask@;
            let mut j: usize = 0;
            while j < W
                invariant
                    0 <= i < H,
                    0 <= j <= W,
                    mask@ == before + arr@[i as int]@.take(j as int),
                decreases W - j,
            {
                proof {
                    assert(arr@[i as int]@.take(j + 1) =~= arr@[i as int]@.take(j as int).push(
                        arr@[i as int]@[j as int],
                    ));
                }
                mask.push(arr[i][j]);
                j += 1;
            }
            proof {
                let done = rows.take(i as int);
                assert(arr@[i as int]@.take(j as int) =~= arr@[i as int]@);
                assert(rows.take(i + 1) =~= done.push(rows[i as int]));
                done.lemma_flatten_push(rows[i as int]);
            }
            i += 1;
        }
        proof {
            assert(rows.take(i as int) =~= rows);
        }
        Self::new(W, mask)
    }
}

/// The order of two masks: negative if the first comes first, zero if they
/// are equal, positive if the second comes first. Masks are compared cell
/// by cell; a mask that is the beginning of another comes first.
pub open spec fn mask_order(a: Seq<u8>, b: Seq<u8>) -> int
    decreases a.len(),
{
    if a.len() == 0 && b.len() == 0 {
        0
    } else if a.len() == 0 {
        -1
    } else if b.len() == 0 {
        1
    } else if a[0] < b[0] {
        -1
    } else if a[0] > b[0] {
        1
    } else {
        mask_order(a.skip(1), b.skip(1))
    }
}

/// The order of two shapes: by width, then by mask.
pub open spec fn shape_order(a: ShapeView, b: ShapeView) -> int {
    if a.0 < b.0 {
        -1
    } else if a.0 > b.0 {
        1
    } else {
        mask_order(a.1, b.1)
    }
}

/// Masks are in order zero exactly if they are equal.
pub proof fn lemma_mask_order_equal(a: Seq<u8>, b: Seq<u8>)
    ensures
        mask_order(a, b) == 0 <==> a == b,
    decreases a.len(),
{
    if a.len() > 0 && b.len() > 0 {
        lemma_mask_order_equal(a.skip(1), b.skip(1));
        if a.skip(1) == b.skip(1) && a[0] == b[0] {
            assert(a =~= seq![a[0]] + a.skip(1));
            assert(b =~= seq![b[0]] + b.skip(1));
        }
    } else if a.len() == 0 && b.len() == 0 {
        assert(a =~= b);
    }
}

/// The ascending list of distinct shapes with `shape` put at its place,
/// unless it is there already.
pub open spec fn insert_shape(sorted: Seq<ShapeView>, shape: ShapeView) -> Seq<ShapeView>
    decreases sorted.len(),
{
    if sorted.len() == 0 {
        seq![shape]
    } else if shape_order(sorted.last(), shape) == 0 {
        sorted
    } else if shape_order(sorted.last(), shape) < 0 {
        sorted.push(shape)
    } else {
        insert_shape(sorted.drop_last(), shape).push(sorted.last())
    }
}

/// The shapes in ascending order, each once.
pub open spec fn sort_unique(shapes: Seq<ShapeView>) -> Seq<ShapeView>
    decreases shapes.len(),
{
    if shapes.len() == 0 {
        Seq::empty()
    } else {
        insert_shape(sort_unique(shapes.drop_last()), shapes.last())
    }
}

/// Two masks compared the other way round are in the opposite order.
pub proof fn lemma_mask_order_opposite(a: Seq<u8>, b: Seq<u8>)
    ensures
        mask_order(a, b) < 0 <==> mask_order(b, a) > 0,
        mask_order(a, b) == 0 <==> mask_order(b, a) == 0,
    decreases a.len(),
{
    if a.len() > 0 && b.len() > 0 {
        lemma_mask_order_opposite(a.skip(1), b.skip(1));
    }
}

/// Two shapes are in order zero exactly if they are equal, and compared
/// the other way round they are in the opposite order.
pub proof fn lemma_shape_order(a: ShapeView, b: ShapeView)
    ensures
        shape_order(a, b) == 0 <==> a == b,
        shape_order(a, b) < 0 <==> shape_order(b, a) > 0,
{
    lemma_mask_order_equal(a.1, b.1);
    lemma_mask_order_opposite(a.1, b.1);
}

/// Each shape of the list comes before the next one.
pub open spec fn shapes_ascending(shapes: Seq<ShapeView>) -> bool {
    forall|i: int| 0 <= i < shapes.len() - 1 ==> shape_order(#[trigger] shapes[i], shapes[i + 1]) < 0
}

/// Putting a shape into an ascending list gives an ascending list that
/// holds the shape and what the list held.
pub proof fn lemma_insert_shape(sorted: Seq<ShapeView>, shape: ShapeView)
    requires
        shapes_ascending(sorted),
    ensures
        shapes_ascending(insert_shape(sorted, shape)),
        forall|x: ShapeView| #[trigger]
            insert_shape(sorted, shape).contains(x) <==> (sorted.contains(x) || x == shape),
        insert_shape(sorted, shape).len() > 0,
        insert_shape(sorted, shape).last() == shape || (sorted.len() > 0 && insert_shape(
            sorted,
            shape,
        ).last() == sorted.last()),
    decreases sorted.len(),
{
    let result = insert_shape(sorted, shape);
    if sorted.len() == 0 {
        assert(result[0] == shape);
        assert forall|x: ShapeView| result.contains(x) <==> (sorted.contains(x) || x == shape) by {
            if result.contains(x) {
                let k = choose|k: int| 0 <= k < result.len() && result[k] == x;
                assert(k == 0);
            }
        }
    } else {
        let last = sorted.last();
        let front = sorted.drop_last();
        lemma_shape_order(last, shape);
        assert(sorted =~= front.push(last));
        if shape_order(last, shape) == 0 {
            assert(sorted[sorted.len() - 1] == shape);
        } else if shape_order(last, shape) < 0 {
            assert forall|i: int| 0 <= i < result.len() - 1 implies shape_order(
                #[trigger] result[i],
                result[i + 1],
            ) < 0 by {
                if i < sorted.len() - 1 {
                    assert(shape_order(sorted[i], sorted[i + 1]) < 0);
                }
            }
            assert forall|x: ShapeView| result.contains(x) <==> (sorted.contains(x) || x
                == shape) by {
                if result.contains(x) {
                    let k = choose|k: int| 0 <= k < result.len() && result[k] == x;
                    if k < sorted.len() {
                        assert(sorted[k] == x);
                    }
                }
                if sorted.contains(x) {
                    let k = choose|k: int| 0 <= k < sorted.len() && sorted[k] == x;
                    assert(result[k] == x);
                }
                assert(result[sorted.len() as int] == shape);
            }
        } else {
            assert(shapes_ascending(front)) by {
                assert forall|i: int| 0 <= i < front.len() - 1 implies shape_order(
                    #[trigger] front[i],
                    front[i + 1],
                ) < 0 by {
                    assert(shape_order(sorted[i], sorted[i + 1]) < 0);
                }
            }
            lemma_insert_shape(front, shape);
            let inner = insert_shape(front, shape);
            assert(result == inner.push(last));
            assert forall|i: int| 0 <= i < result.len() - 1 implies shape_order(
                #[trigger] result[i],
                result[i + 1],
            ) < 0 by {
                if i < inner.len() - 1 {
                    assert(result[i] == inner[i]);
                    assert(result[i + 1] == inner[i + 1]);
                    assert(shape_order(inner[i], inner[i + 1]) < 0);
                } else {
                    assert(result[i] == inner.last());
                    assert(result[i + 1] == last);
                    lemma_shape_order(shape, last);
                    if inner.last() != shape {
                        assert(front.last() == sorted[sorted.len() - 2]);
                        assert(shape_order(sorted[sorted.len() - 2], sorted[sorted.len() - 1]) < 0);
                    }
                }
            }
            assert forall|x: ShapeView| result.contains(x) <==> (sorted.contains(x) || x
                == shape) by {
                assert(inner.contains(x) <==> (front.contains(x) || x == shape));
                if result.contains(x) {
                    let k = choose|k: int| 0 <= k < result.len() && result[k] == x;
                    if k < inner.len() {
                        assert(inner[k] == x);
                        if front.contains(x) {
                            let j = choose|j: int| 0 <= j < front.len() && front[j] == x;
                            assert(sorted[j] == x);
                        }
                    } else {
                        assert(sorted[sorted.len() - 1] == x);
                    }
                }
                if sorted.contains(x) {
                    let k = choose|k: int| 0 <= k < sorted.len() && sorted[k] == x;
                    if k < front.len() {
                        assert(front[k] == x);
                        let j = choose|j: int| 0 <= j < inner.len() && inner[j] == x;
                        assert(result[j] == x);
                    } else {
                        assert(result[inner.len() as int] == x);
                    }
                }
                if x == shape {
                    let j = choose|j: int| 0 <= j < inner.len() && inner[j] == x;
                    assert(result[j] == x);
                }
            }
        }
    }
}

/// The sorted list of distinct shapes is ascending, and holds the shapes
/// of the list that it was made from and no others.
pub proof fn lemma_sort_unique(shapes: Seq<ShapeView>)
    ensures
        shapes_ascending(sort_unique(shapes)),
        forall|x: ShapeView| #[trigger] sort_unique(shapes).contains(x) <==> shapes.contains(x),
    decreases shapes.len(),
{
    if shapes.len() > 0 {
        let front = shapes.drop_last();
        lemma_sort_unique(front);
        lemma_insert_shape(sort_unique(front), shapes.last());
        assert forall|x: ShapeView| sort_unique(shapes).contains(x) <==> shapes.contains(x) by {
            assert(sort_unique(front).contains(x) <==> front.contains(x));
            if front.contains(x) {
                let k = choose|k: int| 0 <= k < front.len() && front[k] == x;
                assert(shapes[k] == x);
            }
            if shapes.contains(x) {
                let k = choose|k: int| 0 <= k < shapes.len() && shapes[k] == x;
                if k < front.len() {
                    assert(front[k] == x);
                }
            }
            assert(shapes[shapes.len() - 1] == shapes.last());
        }
    }
}

/// The result of comparing two shapes.
#[derive(Debug, Clone, Copy, PartialEq, Eq, Structural)]
pub enum ShapeOrder {
    /// The first shape comes first.
    Before,
    /// The shapes are equal.
    Same,
    /// The second shape comes first.
    After,
}

/// Compares two shapes by width, then by mask.
pub fn compare_shapes(a: &PShape, b: &PShape) -> (order: ShapeOrder)
    ensures
        order is Before <==> shape_order(a.spec_view(), b.spec_view()) < 0,
        order is Same <==> shape_order(a.spec_view(), b.spec_view()) == 0,
        order is After <==> shape_order(a.spec_view(), b.spec_view()) > 0,
{
    if a.width < b.width {
        return ShapeOrder::Before;
    }
    if a.width > b.width {
        return ShapeOrder::After;
    }
    let mut i: usize = 0;
    proof {
        assert(a.mask@.skip(0) =~= a.mask@);
        assert(b.mask@.skip(0) =~= b.mask@);
    }
    loop
        invariant
            0 <= i <= a.mask@.len(),
            i <= b.mask@.len(),
            a.width == b.width,
            mask_order(a.mask@, b.mask@) == mask_order(a.mask@.skip(i as int), b.mask@.skip(i as int)),
        decreases a.mask@.len() - i,
    {
        if i >= a.mask.len() && i >= b.mask.len() {
            return ShapeOrder::Same;
        }
        if i >= a.mask.len() {
            return ShapeOrder::Before;
        }
        if i >= b.mask.len() {
            return ShapeOrder::After;
        }
        if a.mask[i] < b.mask[i] {
            return ShapeOrder::Before;
        }
        if a.mask[i] > b.mask[i] {
            return ShapeOrder::After;
        }
        proof {
            assert(a.mask@.skip(i as int).skip(1) =~= a.mask@.skip(i + 1));
            assert(b.mask@.skip(i as int).skip(1) =~= b.mask@.skip(i + 1));
        }
        i += 1;
    }
}

/// Puts `shape` at its place in an ascending list of distinct shapes,
/// unless it is there already.
pub fn insert_sorted_shape(sorted: &mut Vec<PShape>, shape: PShape)
    ensures
        shape_views(final(sorted)@) == insert_shape(shape_views(old(sorted)@), shape.spec_view()),
        shape.ok() && (forall|k: int| 0 <= k < old(sorted)@.len() ==> (#[trigger] old(sorted)@[k]).ok())
            ==> forall|k: int| 0 <= k < final(sorted)@.len() ==> (#[trigger] final(sorted)@[k]).ok(),
{
    let ghost before = shape_views(sorted@);
    let ghost view = shape.spec_view();
    let mut i: usize = sorted.len();
    proof {
        assert(before.take(i as int) =~= before);
        assert(before.skip(i as int) =~= Seq::<ShapeView>::empty());
        assert(insert_shape(before, view) + Seq::<ShapeView>::empty() =~= insert_shape(before, view));
    }
    loop
        invariant
            0 <= i <= sorted@.len(),
            sorted@ == old(sorted)@,
            before == shape_views(sorted@),
            view == shape.spec_view(),
            insert_shape(before, view) == insert_shape(before.take(i as int), view) + before.skip(
                i as int,
            ),
        ensures
            i == 0 || shape_order(before[i - 1], view) < 0,
        decreases i,
    {
        if i == 0 {
            break ;
        }
        let ghost front = before.take(i as int);
        proof {
            assert(front.last() == sorted@[i - 1].spec_view());
            assert(front.drop_last() =~= before.take(i - 1));
        }
        match compare_shapes(&sorted[i - 1], &shape) {
            ShapeOrder::Same => {
                proof {
                    assert(front + before.skip(i as int) =~= before);
                }
                return ;
            },
            ShapeOrder::Before => {
                break ;
            },
            ShapeOrder::After => {
                proof {
                    assert(insert_shape(before.take(i - 1), view).push(front.last()) + before.skip(
                        i as int,
                    ) =~= insert_shape(before.take(i - 1), view) + before.skip(i - 1));
                }
                i -= 1;
            },
        }
    }
    proof {
        let front = before.take(i as int);
        assert(insert_shape(front, view) == front.push(view)) by {
            if i == 0 {
                assert(front =~= Seq::<ShapeView>::empty());
                assert(front.push(view) =~= seq![view]);
            } else {
                assert(front.last() == before[i - 1]);
            }
        }
        assert(front.push(view) + before.skip(i as int) =~= before.insert(i as int, view));
    }
    sorted.insert(i, shape);
    proof {
        assert(shape_views(sorted@) =~= before.insert(i as int, view));
    }
}

/// The shapes in ascending order, each once.
pub fn sort_dedup(shapes: &Vec<PShape>) -> (sorted: Vec<PShape>)
    ensures
        shape_views(sorted@) == sort_unique(shape_views(shapes@)),
        (forall|k: int| 0 <= k < shapes@.len() ==> (#[trigger] shapes@[k]).ok()) ==> forall|k: int|
            0 <= k < sorted@.len() ==> (#[trigger] sorted@[k]).ok(),
{
    let mut sorted: Vec<PShape> = Vec::new();
    let ghost views = shape_views(shapes@);
    let mut i: usize = 0;
    proof {
        assert(views.take(0) =~= Seq::<ShapeView>::empty());
        assert(shape_views(sorted@) =~= Seq::<ShapeView>::empty());
    }
    while i < shapes.len()
        invariant
            0 <= i <= shapes@.len(),
            views == shape_views(shapes@),
            shape_views(sorted@) == sort_unique(views.take(i as int)),
            (forall|k: int| 0 <= k < shapes@.len() ==> (#[trigger] shapes@[k]).ok()) ==> forall|
                k: int,
            | 0 <= k < sorted@.len() ==> (#[trigger] sorted@[k]).ok(),
        decreases shapes@.len() - i,
    {
        let shape = shapes[i].copy();
        proof {
            assert(views.take(i + 1).drop_last() =~= views.take(i as int));
            assert(views.take(i + 1).last() == shape.spec_view());
            assert(shapes@[i as int].ok() ==> shape.ok());
        }
        insert_sorted_shape(&mut sorted, shape);
        i += 1;
    }
    proof {
        assert(views.take(i as int) =~= views);
    }
    sorted
}

/// Instance of a polyomino tiling puzzle.
#[derive(Debug)]
pub struct Polyomino {
    /// The list of possible placements of polyominoes in the grid.
    pub possibilities: Vec<Possibility>,
    /// The list of constraints that must be satisfied for the puzzle.
    pub constraints: Vec<Constraint>,
    /// The dimensions of the grid: rows, then columns.
    pub grid_dimensions: (usize, usize),
    /// The list of polyominoes available for tiling.
    pub polyominoes: Vec<PShape>,
    /// Group of available transformations for polyomino shapes.
    pub transformations: ShapeTransform,
}

/// A possible placement of a polyomino in the grid.
#[derive(Debug, Clone, PartialEq, Eq, Hash, PartialOrd, Ord)]
pub struct Possibility {
    /// Index of the shape in the list of polyominoes.
    pub shape_index: usize,
    /// The cells that the polyomino occupies in the grid, as `(row, column)`.
    pub occupied_cells: Vec<(usize, usize)>,
}

/// A condition that must be satisfied in order to solve a polyomino tiling
/// puzzle.
#[derive(Debug, Copy, Clone, PartialEq, Eq, Hash, PartialOrd, Ord, Structural)]
pub enum Constraint {
    /// The shape with this index in the list of polyominoes is placed.
    ShapeIndex(usize),
    /// The cell at this row and column is filled.
    Field(usize, usize),
}

/// The index of the shape of a placement and the cells that it occupies.
pub type PlacementView = (usize, Seq<(usize, usize)>);

/// The filled cells of row `r` of a shape placed with its first cell at
/// `(grid_row, grid_col)`.
pub open spec fn row_cells(shape: ShapeView, grid_row: int, grid_col: int, r: int) -> Seq<
    (usize, usize),
> {
    Seq::new(shape.0 as nat, |c: int| c).filter(|c: int| shape.1[r * shape.0 + c] == 1).map_values(
        |c: int| ((grid_row + r) as usize, (grid_col + c) as usize),
    )
}

/// The cells that a shape occupies when its first cell is placed at
/// `(grid_row, grid_col)`, row by row.
pub open spec fn occupied(shape: ShapeView, grid_row: int, grid_col: int) -> Seq<(usize, usize)> {
    Seq::new(
        (shape.1.len() as int / shape.0) as nat,
        |r: int| row_cells(shape, grid_row, grid_col, r),
    ).flatten()
}

/// The placements of a shape in a grid of the given dimensions, row by row.
/// A shape that is larger than the grid has none.
pub open spec fn placements(shape: ShapeView, index: usize, dimensions: (usize, usize)) -> Seq<
    PlacementView,
> {
    let height = shape.1.len() as int / shape.0;
    if height > dimensions.0 || shape.0 > dimensions.1 {
        Seq::empty()
    } else {
        Seq::new(
            (dimensions.0 - height + 1) as nat,
            |grid_row: int|
                Seq::new(
                    (dimensions.1 - shape.0 + 1) as nat,
                    |grid_col: int| (index, occupied(shape, grid_row, grid_col)),
                ),
        ).flatten()
    }
}

/// The placements of the shapes `shapes`, all with the same index.
pub open spec fn placements_of(
    shapes: Seq<ShapeView>,
    index: usize,
    dimensions: (usize, usize),
) -> Seq<PlacementView> {
    shapes.map_values(|shape: ShapeView| placements(shape, index, dimensions)).flatten()
}

/// The placements of the polyomino `shape` in all the forms that
/// `transform` allows, the forms in ascending order, each once.
pub open spec fn shape_placements(
    shape: ShapeView,
    index: usize,
    dimensions: (usize, usize),
    transform: ShapeTransform,
) -> Seq<PlacementView> {
    placements_of(sort_unique(symmetries(shape, transform)), index, dimensions)
}

/// The placements of all polyominoes, in the order of the polyominoes.
pub open spec fn all_placements(
    shapes: Seq<ShapeView>,
    dimensions: (usize, usize),
    transform: ShapeTransform,
) -> Seq<PlacementView> {
    Seq::new(
        shapes.len(),
        |i: int| shape_placements(shapes[i], i as usize, dimensions, transform),
    ).flatten()
}

/// The shape indices and cells of a list of placements.
pub open spec fn placement_views(possibilities: Seq<Possibility>) -> Seq<PlacementView> {
    possibilities.map_values(|p: Possibility| p.spec_view())
}

/// Every constraint of a puzzle: one for every polyomino, then one for
/// every cell of the grid, row by row.
pub open spec fn all_constraints(grid_size: (usize, usize), polyomino_count: usize) -> Seq<
    Constraint,
> {
    Seq::new(polyomino_count as nat, |i: int| Constraint::ShapeIndex(i as usize)) + Seq::new(
        grid_size.0 as nat,
        |row: int|
            Seq::new(
                grid_size.1 as nat,
                |col: int| Constraint::Field(row as usize, col as usize),
            ),
    ).flatten()
}

impl Possibility {
    /// The index of the shape and the cells that it occupies.
    pub open spec fn spec_view(&self) -> PlacementView {
        (self.shape_index, self.occupied_cells@)
    }

    /// Whether this placement satisfies `constraint`.
    pub open spec fn spec_satisfies(&self, constraint: Constraint) -> bool {
        match constraint {
            Constraint::ShapeIndex(index) => self.shape_index == index,
            Constraint::Field(row, col) => self.occupied_cells@.contains((row, col)),
        }
    }

    /// The constraints that this placement satisfies: its shape, then its
    /// cells.
    pub open spec fn spec_satisfied_constraints(&self) -> Seq<Constraint> {
        seq![Constraint::ShapeIndex(self.shape_index)] + self.occupied_cells@.map_values(
            |cell: (usize, usize)| Constraint::Field(cell.0, cell.1),
        )
    }

    /// Check if this possibility satisfies a given constraint.
    pub fn satisfies(&self, constraint: &Constraint) -> (yes: bool)
        ensures
            yes == self.spec_satisfies(*constraint),
    {
        match *constraint {
            Constraint::ShapeIndex(index) => self.shape_index == index,
            Constraint::Field(row, col) => {
                let mut i: usize = 0;
                while i < self.occupied_cells.len()
                    invariant
                        0 <= i <= self.occupied_cells@.len(),
                        *constraint == Constraint::Field(row, col),
                        forall|k: int| 0 <= k < i ==> #[trigger] self.occupied_cells@[k] != (row, col),
                    decreases self.occupied_cells@.len() - i,
                {
                    if self.occupied_cells[i].0 == row && self.occupied_cells[i].1 == col {
                        assert(self.occupied_cells@[i as int] == (row, col));
                        return true;
                    }
                    i += 1;
                }
                false
            },
        }
    }

    /// Return the constraints that are satisfied by this possibility.
    pub fn satisfied_constraints(&self) -> (satisfied: Vec<Constraint>)
        ensures
            satisfied@ == self.spec_satisfied_constraints(),
    {
        let mut satisfied: Vec<Constraint> = Vec::new();
        satisfied.push(Constraint::ShapeIndex(self.shape_index));
        let ghost fields = self.occupied_cells@.map_values(
            |cell: (usize, usize)| Constraint::Field(cell.0, cell.1),
        );
        let mut i: usize = 0;
        while i < self.occupied_cells.len()
            invariant
                0 <= i <= self.occupied_cells@.len(),
                fields == self.occupied_cells@.map_values(
                    |cell: (usize, usize)| Constraint::Field(cell.0, cell.1),
                ),
                satisfied@ =~= seq![Constraint::ShapeIndex(self.shape_index)] + fields.take(i as int),
            decreases self.occupied_cells@.len() - i,
        {
            let cell = self.occupied_cells[i];
            satisfied.push(Constraint::Field(cell.0, cell.1));
            i += 1;
        }
        proof {
            assert(fields.take(i as int) =~= fields);
        }
        satisfied
    }
}

impl Constraint {
    /// Return all constraints for a given grid size and number of polyominoes.
    pub fn all(grid_size: (usize, usize), polyomino_count: usize) -> (all: Vec<Constraint>)
        ensures
            all@ == all_constraints(grid_size, polyomino_count),
    {
        let ghost shapes = Seq::new(
            polyomino_count as nat,
            |i: int| Constraint::ShapeIndex(i as usize),
        );
        let ghost rows = Seq::new(
            grid_size.0 as nat,
            |row: int|
                Seq::new(
                    grid_size.1 as nat,
                    |col: int| Constraint::Field(row as usize, col as usize),
                ),
        );
        let mut all: Vec<Constraint> = Vec::new();
        let mut i: usize = 0;
        while i < polyomino_count
            invariant
                0 <= i <= polyomino_count,
                all@ =~= shapes.take(i as int),
                shapes == Seq::new(
                    polyomino_count as nat,
                    |i: int| Constraint::ShapeIndex(i as usize),
                ),
            decreases polyomino_count - i,
        {
            all.push(Constraint::ShapeIndex(i));
            i += 1;
        }
        let mut row: usize = 0;
        proof {
            assert(shapes.take(i as int) =~= shapes);
            assert(rows.take(0) =~= Seq::<Seq<Constraint>>::empty());
            assert(all@ =~= shapes + rows.take(0).flatten());
        }
        while row < grid_size.0
            invariant
                0 <= row <= grid_size.0,
                all@ == shapes + rows.take(row as int).flatten(),
                rows == Seq::new(
                    grid_size.0 as nat,
                    |row: int|
                        Seq::new(
                            grid_size.1 as nat,
                            |col: int| Constraint::Field(row as usize, col as usize),
                        ),
                ),
            decreases grid_size.0 - row,
        {
            let ghost before = all@;
            let mut col: usize = 0;
            while col < grid_size.1
                invariant
                    0 <= row < grid_size.0,
                    0 <= col <= grid_size.1,
                    rows == Seq::new(
                        grid_size.0 as nat,
                        |row: int|
                            Seq::new(
                                grid_size.1 as nat,
                                |col: int| Constraint::Field(row as usize, col as usize),
                            ),
                    ),
                    all@ =~= before + rows[row as int].take(col as int),
                decreases grid_size.1 - col,
            {
                all.push(Constraint::Field(row, col));
                col += 1;
            }
            proof {
                let done = rows.take(row as int);
                assert(rows[row as int].take(col as int) =~= rows[row as int]);
                assert(rows.take(row + 1) =~= done.push(rows[row as int]));
                done.lemma_flatten_push(rows[row as int]);
            }
            row += 1;
        }
        proof {
            assert(rows.take(row as int) =~= rows);
        }
        all
    }
}

/// All shapes of the list have good masks.
pub open spec fn shapes_ok(shapes: Seq<PShape>) -> bool {
    forall|k: int| 0 <= k < shapes.len() ==> (#[trigger] shapes[k]).ok()
}

/// The cells that a shape occupies when its first cell is placed at
/// `(grid_row, grid_col)`.
pub fn occupied_cells(shape: &PShape, grid_row: usize, grid_col: usize) -> (cells: Vec<
    (usize, usize),
>)
    requires
        shape.ok(),
        grid_row + shape.mask@.len() as int / (shape.width as int) <= usize::MAX,
        grid_col + shape.width <= usize::MAX,
    ensures
        cells@ == occupied(shape.spec_view(), grid_row as int, grid_col as int),
{
    let ghost view = shape.spec_view();
    proof {
        lemma_mask_height(shape.mask@.len() as int, shape.width as int);
    }
    let width = shape.width();
    let height = shape.height();
    assert(shape.mask@.len() == shape.mask.len());
    let mut cells: Vec<(usize, usize)> = Vec::new();
    let ghost rows = Seq::new(
        height as nat,
        |r: int| row_cells(view, grid_row as int, grid_col as int, r),
    );
    let mut r: usize = 0;
    proof {
        assert(rows.take(0) =~= Seq::<Seq<(usize, usize)>>::empty());
        assert(cells@ =~= rows.take(0).flatten());
    }
    while r < height
        invariant
            view == shape.spec_view(),
            width == shape.width,
            width > 0,
            height == shape.mask@.len() as int / (width as int),
            height * width == shape.mask@.len(),
            shape.mask@.len() <= usize::MAX,
            grid_row + height <= usize::MAX,
            grid_col + width <= usize::MAX,
            0 <= r <= height,
            rows == Seq::new(
                height as nat,
                |r: int| row_cells(view, grid_row as int, grid_col as int, r),
            ),
            cells@ == rows.take(r as int).flatten(),
        decreases height - r,
    {
        let ghost before = cells@;
        let ghost numbers = Seq::new(width as nat, |c: int| c);
        let ghost filled = |c: int| view.1[r * view.0 + c] == 1;
        let ghost place = |c: int| ((grid_row + r) as usize, (grid_col + c) as usize);
        let mut c: usize = 0;
        proof {
            assert(numbers.take(0) =~= Seq::<int>::empty());
            Seq::<int>::empty().lemma_filter_len(filled);
            assert(numbers.take(0).filter(filled).map_values(place) =~= Seq::<
                (usize, usize),
            >::empty());
            assert(cells@ =~= before + numbers.take(0).filter(filled).map_values(place));
        }
        while c < width
            invariant
                view == shape.spec_view(),
                width == shape.width,
                width > 0,
                height * width == shape.mask@.len(),
                shape.mask@.len() <= usize::MAX,
                grid_row + height <= usize::MAX,
                grid_col + width <= usize::MAX,
                0 <= r < height,
                0 <= c <= width,
                numbers == Seq::new(width as nat, |c: int| c),
                filled == |c: int| view.1[r * view.0 + c] == 1,
                place == |c: int| ((grid_row + r) as usize, (grid_col + c) as usize),
                cells@ == before + numbers.take(c as int).filter(filled).map_values(place),
            decreases width - c,
        {
            proof {
                lemma_cell_index(width as int, height as int, r as int, c as int);
                assert(0 <= r * width) by (nonlinear_arith)
                    requires
                        0 <= r,
                        0 <= width,
                ;
                let seen = numbers.take(c as int);
                assert(numbers.take(c + 1) =~= seen.push(c as int));
                seen.lemma_filter_push(c as int, filled);
                if filled(c as int) {
                    assert(seen.filter(filled).push(c as int).map_values(place) =~= seen.filter(
                        filled,
                    ).map_values(place).push(place(c as int)));
                    assert(before + seen.filter(filled).map_values(place).push(place(c as int))
                        =~= (before + seen.filter(filled).map_values(place)).push(place(c as int)));
                }
            }
            if shape.mask[r * width + c] == 1 {
                cells.push((grid_row + r, grid_col + c));
            }
            c += 1;
        }
        proof {
            let done = rows.take(r as int);
            assert(numbers.take(c as int) =~= numbers);
            assert(rows[r as int] == numbers.filter(filled).map_values(place));
            assert(rows.take(r + 1) =~= done.push(rows[r as int]));
            done.lemma_flatten_push(rows[r as int]);
        }
        r += 1;
    }
    proof {
        assert(rows.take(r as int) =~= rows);
    }
    cells
}

/// Adds the placements of `shape` in the grid to `out`.
pub fn add_placements(
    out: &mut Vec<Possibility>,
    shape: &PShape,
    index: usize,
    dimensions: (usize, usize),
)
    requires
        shape.ok(),
    ensures
        placement_views(final(out)@) == placement_views(old(out)@) + placements(
            shape.spec_view(),
            index,
            dimensions,
        ),
{
    let ghost view = shape.spec_view();
    let ghost start = placement_views(out@);
    proof {
        lemma_mask_height(shape.mask@.len() as int, shape.width as int);
    }
    let width = shape.width();
    let height = shape.height();
    if height > dimensions.0 || width > dimensions.1 {
        proof {
            assert(start + Seq::<PlacementView>::empty() =~= start);
        }
        return ;
    }
    let ghost lines = Seq::new(
        (dimensions.0 - height + 1) as nat,
        |grid_row: int|
            Seq::new(
                (dimensions.1 - width + 1) as nat,
                |grid_col: int| (index, occupied(view, grid_row, grid_col)),
            ),
    );
    let mut grid_row: usize = 0;
    proof {
        assert(lines.take(0) =~= Seq::<Seq<PlacementView>>::empty());
        assert(start + lines.take(0).flatten() =~= start);
    }
    while grid_row <= dimensions.0 - height
        invariant
            shape.ok(),
            view == shape.spec_view(),
            width == shape.width,
            height == shape.mask@.len() as int / (width as int),
            1 <= height <= dimensions.0,
            1 <= width <= dimensions.1,
            0 <= grid_row <= dimensions.0 - height + 1,
            lines == Seq::new(
                (dimensions.0 - height + 1) as nat,
                |grid_row: int|
                    Seq::new(
                        (dimensions.1 - width + 1) as nat,
                        |grid_col: int| (index, occupied(view, grid_row, grid_col)),
                    ),
            ),
            placement_views(out@) == start + lines.take(grid_row as int).flatten(),
        decreases dimensions.0 - height + 1 - grid_row,
    {
        let ghost before = placement_views(out@);
        let ghost line = lines[grid_row as int];
        let mut grid_col: usize = 0;
        proof {
            assert(before + line.take(0) =~= before);
        }
        while grid_col <= dimensions.1 - width
            invariant
                shape.ok(),
                view == shape.spec_view(),
                width == shape.width,
                height == shape.mask@.len() as int / (width as int),
                1 <= height <= dimensions.0,
                1 <= width <= dimensions.1,
                0 <= grid_row <= dimensions.0 - height,
                0 <= grid_col <= dimensions.1 - width + 1,
                line == Seq::new(
                    (dimensions.1 - width + 1) as nat,
                    |grid_col: int| (index, occupied(view, grid_row as int, grid_col)),
                ),
                placement_views(out@) == before + line.take(grid_col as int),
            decreases dimensions.1 - width + 1 - grid_col,
        {
            let cells = occupied_cells(shape, grid_row, grid_col);
            let ghost seen = out@;
            let placement = Possibility { shape_index: index, occupied_cells: cells };
            out.push(placement);
            proof {
                assert(placement_views(seen.push(placement)) =~= placement_views(seen).push(
                    placement.spec_view(),
                ));
                assert(line.take(grid_col + 1) =~= line.take(grid_col as int).push(
                    line[grid_col as int],
                ));
                assert(before + line.take(grid_col as int).push(line[grid_col as int]) =~= (before
                    + line.take(grid_col as int)).push(line[grid_col as int]));
            }
            grid_col += 1;
        }
        proof {
            let done = lines.take(grid_row as int);
            assert(line.take(grid_col as int) =~= line);
            assert(lines.take(grid_row + 1) =~= done.push(line));
            done.lemma_flatten_push(line);
            assert(start + (done.flatten() + line) =~= start + done.flatten() + line);
        }
        grid_row += 1;
    }
    proof {
        assert(lines.take(grid_row as int) =~= lines);
    }
}

impl Polyomino {
    /// The shape turned by a quarter.
    pub fn rotate(shape: &PShape) -> (turn: PShape)
        requires
            shape.ok(),
        ensures
            turn.spec_view() == rotated(shape.spec_view()),
            turn.ok(),
    {
        proof {
            lemma_mask_height(shape.mask@.len() as int, shape.width as int);
            lemma_turned_ok(shape.mask@, shape.width as int);
        }
        let cols = shape.width();
        let rows = shape.height();
        assert(shape.mask@.len() == shape.mask.len());
        let ghost mask = shape.mask@;
        let ghost columns = Seq::new(
            cols as nat,
            |c: int| Seq::new(rows as nat, |t: int| mask[(rows - 1 - t) * cols + c]),
        );
        let mut rotated_shape: Vec<u8> = Vec::new();
        let mut c: usize = 0;
        proof {
            assert(columns.take(0) =~= Seq::<Seq<u8>>::empty());
            assert(rotated_shape@ =~= columns.take(0).flatten());
        }
        while c < cols
            invariant
                mask == shape.mask@,
                cols == shape.width,
                rows == mask.len() as int / (cols as int),
                rows * cols == mask.len(),
                mask.len() <= usize::MAX,
                0 <= c <= cols,
                columns == Seq::new(
                    cols as nat,
                    |c: int| Seq::new(rows as nat, |t: int| mask[(rows - 1 - t) * cols + c]),
                ),
                rotated_shape@ == columns.take(c as int).flatten(),
            decreases cols - c,
        {
            let ghost before = rotated_shape@;
            let ghost column = columns[c as int];
            let mut t: usize = 0;
            proof {
                assert(before + column.take(0) =~= before);
            }
            while t < rows
                invariant
                    mask == shape.mask@,
                    cols == shape.width,
                    rows * cols == mask.len(),
                    mask.len() <= usize::MAX,
                    0 <= c < cols,
                    0 <= t <= rows,
                    column == Seq::new(rows as nat, |t: int| mask[(rows - 1 - t) * cols + c]),
                    rotated_shape@ == before + column.take(t as int),
                decreases rows - t,
            {
                let r = rows - 1 - t;
                proof {
                    lemma_cell_index(cols as int, rows as int, r as int, c as int);
                    assert(0 <= r * cols) by (nonlinear_arith)
                        requires
                            0 <= r,
                            0 <= cols,
                    ;
                    assert(column.take(t + 1) =~= column.take(t as int).push(column[t as int]));
                    assert(before + column.take(t as int).push(column[t as int]) =~= (before
                        + column.take(t as int)).push(column[t as int]));
                }
                rotated_shape.push(shape.mask[r * cols + c]);
                t += 1;
            }
            proof {
                let done = columns.take(c as int);
                assert(column.take(t as int) =~= column);
                assert(columns.take(c + 1) =~= done.push(column));
                done.lemma_flatten_push(column);
            }
            c += 1;
        }
        proof {
            assert(columns.take(c as int) =~= columns);
        }
        PShape::new(rows, rotated_shape)
    }

    /// The shape with the order of its rows reversed.
    pub fn reflect(shape: &PShape) -> (mirror: PShape)
        requires
            shape.ok(),
        ensures
            mirror.spec_view() == reflected(shape.spec_view()),
            mirror.ok(),
    {
        proof {
            lemma_mask_height(shape.mask@.len() as int, shape.width as int);
            lemma_flipped_ok(shape.mask@, shape.width as int);
        }
        let width = shape.width();
        let height = shape.height();
        assert(shape.mask@.len() == shape.mask.len());
        let ghost mask = shape.mask@;
        let ghost rows = Seq::new(
            height as nat,
            |i: int| mask.subrange((height - 1 - i) * width, (height - i) * width),
        );
        let mut reflected_mask: Vec<u8> = Vec::new();
        let mut row_it: usize = height;
        proof {
            assert(rows.take(0) =~= Seq::<Seq<u8>>::empty());
            assert(reflected_mask@ =~= rows.take(0).flatten());
        }
        while row_it > 0
            invariant
                mask == shape.mask@,
                width == shape.width,
                width > 0,
                height * width == mask.len(),
                mask.len() <= usize::MAX,
                0 <= row_it <= height,
                rows == Seq::new(
                    height as nat,
                    |i: int| mask.subrange((height - 1 - i) * width, (height - i) * width),
                ),
                reflected_mask@ == rows.take(height - row_it).flatten(),
            decreases row_it,
        {
            let ghost before = reflected_mask@;
            let ghost at = height - row_it;
            let ghost row = rows[at];
            let mut j: usize = 0;
            proof {
                lemma_cell_index(width as int, height as int, row_it - 1, 0);
                assert(height - 1 - at == row_it - 1);
                assert((height - at) * width == (row_it - 1) * width + width && (height - 1 - at)
                    * width == (row_it - 1) * width) by (nonlinear_arith)
                    requires
                        height - at == row_it,
                ;
                assert(0 <= (row_it - 1) * width && (row_it - 1) * width + width <= mask.len())
                    by (nonlinear_arith)
                    requires
                        0 <= row_it - 1 < height,
                        width > 0,
                        mask.len() == height * width,
                ;
                assert(row == mask.subrange((row_it - 1) * width, (row_it - 1) * width + width));
                assert(before + row.take(0) =~= before);
            }
            while j < width
                invariant
                    mask == shape.mask@,
                    width == shape.width,
                    0 < row_it <= height,
                    0 <= j <= width,
                    0 <= (row_it - 1) * width,
                    (row_it - 1) * width + width <= mask.len(),
                    mask.len() <= usize::MAX,
                    row == mask.subrange((row_it - 1) * width, (row_it - 1) * width + width),
                    reflected_mask@ == before + row.take(j as int),
                decreases width - j,
            {
                proof {
                    assert(row.take(j + 1) =~= row.take(j as int).push(row[j as int]));
                    assert(before + row.take(j as int).push(row[j as int]) =~= (before + row.take(
                        j as int,
                    )).push(row[j as int]));
                }
                reflected_mask.push(shape.mask[(row_it - 1) * width + j]);
                j += 1;
            }
            proof {
                let done = rows.take(at);
                assert(row.take(j as int) =~= row);
                assert(rows.take(at + 1) =~= done.push(row));
                done.lemma_flatten_push(row);
            }
            row_it -= 1;
        }
        proof {
            assert(rows.take(height as int) =~= rows);
        }
        PShape::new(width, reflected_mask)
    }

    /// The shape and its three turns.
    pub fn generate_rotations(shape: &PShape) -> (turns: Vec<PShape>)
        requires
            shape.ok(),
        ensures
            shape_views(turns@) == rotations(shape.spec_view()),
            shapes_ok(turns@),
    {
        let first = Self::rotate(shape);
        let second = Self::rotate(&first);
        let third = Self::rotate(&second);
        let mut turns: Vec<PShape> = Vec::new();
        turns.push(shape.copy());
        turns.push(first);
        turns.push(second);
        turns.push(third);
        proof {
            assert(shape_views(turns@) =~= rotations(shape.spec_view()));
            assert(turns@[0].spec_view() == shape.spec_view());
        }
        turns
    }

    /// The shapes that `shape` may be placed as under `transform`.
    pub fn generate_symmetries(shape: &PShape, transform: ShapeTransform) -> (forms: Vec<PShape>)
        requires
            shape.ok(),
        ensures
            shape_views(forms@) == symmetries(shape.spec_view(), transform),
            shapes_ok(forms@),
    {
        match transform {
            ShapeTransform::NoTransform => {
                let mut forms: Vec<PShape> = Vec::new();
                forms.push(shape.copy());
                proof {
                    assert(shape_views(forms@) =~= seq![shape.spec_view()]);
                    assert(forms@[0].spec_view() == shape.spec_view());
                }
                forms
            },
            ShapeTransform::PureRotation => Self::generate_rotations(shape),
            ShapeTransform::FullSymmetry => {
                let mut forms = Self::generate_rotations(shape);
                let ghost turns = shape_views(forms@);
                let ghost mirrors = turns.map_values(|turn: ShapeView| reflected(turn));
                let mut i: usize = 0;
                proof {
                    assert(turns + mirrors.take(0) =~= turns);
                    assert(shape_views(forms@).len() == 4);
                }
                while i < 4
                    invariant
                        0 <= i <= 4,
                        turns == rotations(shape.spec_view()),
                        mirrors == turns.map_values(|turn: ShapeView| reflected(turn)),
                        shape_views(forms@) == turns + mirrors.take(i as int),
                        forms@.len() == 4 + i,
                        shapes_ok(forms@),
                    decreases 4 - i,
                {
                    let ghost before = forms@;
                    proof {
                        assert(shape_views(before)[i as int] == turns[i as int]);
                    }
                    let mirror = Self::reflect(&forms[i]);
                    forms.push(mirror);
                    proof {
                        assert(shape_views(before.push(mirror)) =~= shape_views(before).push(
                            mirror.spec_view(),
                        ));
                        assert(mirrors.take(i + 1) =~= mirrors.take(i as int).push(
                            mirrors[i as int],
                        ));
                        assert(turns + mirrors.take(i as int).push(mirrors[i as int]) =~= (turns
                            + mirrors.take(i as int)).push(mirrors[i as int]));
                        assert forall|k: int| 0 <= k < forms@.len() implies (
                        #[trigger] forms@[k]).ok() by {
                            if k < before.len() {
                                assert(before[k].ok());
                            }
                        }
                    }
                    i += 1;
                }
                proof {
                    assert(mirrors.take(4) =~= mirrors);
                }
                forms
            },
        }
    }

    /// Generate all possible placements of polyominoes in the grid based on
    /// the grid size, the available shapes and the transformations.
    pub fn generate_all_possibilities(
        polyominoes: &[PShape],
        grid_dim: (usize, usize),
        transform: ShapeTransform,
    ) -> (all: Vec<Possibility>)
        requires
            shapes_ok(polyominoes@),
        ensures
            placement_views(all@) == all_placements(
                shape_views(polyominoes@),
                grid_dim,
                transform,
            ),
    {
        let ghost shapes = shape_views(polyominoes@);
        let ghost parts = Seq::new(
            shapes.len(),
            |i: int| shape_placements(shapes[i], i as usize, grid_dim, transform),
        );
        let mut all: Vec<Possibility> = Vec::new();
        let mut i_shape: usize = 0;
        proof {
            assert(parts.take(0) =~= Seq::<Seq<PlacementView>>::empty());
            assert(placement_views(all@) =~= parts.take(0).flatten());
        }
        while i_shape < polyominoes.len()
            invariant
                shapes_ok(polyominoes@),
                shapes == shape_views(polyominoes@),
                0 <= i_shape <= polyominoes@.len(),
                parts == Seq::new(
                    shapes.len(),
                    |i: int| shape_placements(shapes[i], i as usize, grid_dim, transform),
                ),
                placement_views(all@) == parts.take(i_shape as int).flatten(),
            decreases polyominoes@.len() - i_shape,
        {
            let shape = &polyominoes[i_shape];
            let forms = Self::generate_symmetries(shape, transform);
            let sorted = sort_dedup(&forms);
            let ghost views = shape_views(sorted@);
            let ghost lists = views.map_values(
                |form: ShapeView| placements(form, i_shape, grid_dim),
            );
            let ghost before = placement_views(all@);
            let mut k: usize = 0;
            proof {
                assert(shapes[i_shape as int] == shape.spec_view());
                assert(lists.take(0) =~= Seq::<Seq<PlacementView>>::empty());
                assert(before + lists.take(0).flatten() =~= before);
            }
            while k < sorted.len()
                invariant
                    shapes_ok(sorted@),
                    views == shape_views(sorted@),
                    lists == views.map_values(
                        |form: ShapeView| placements(form, i_shape, grid_dim),
                    ),
                    0 <= k <= sorted@.len(),
                    placement_views(all@) == before + lists.take(k as int).flatten(),
                decreases sorted@.len() - k,
            {
                proof {
                    let done = lists.take(k as int);
                    assert(lists.take(k + 1) =~= done.push(lists[k as int]));
                    done.lemma_flatten_push(lists[k as int]);
                    assert(before + (done.flatten() + lists[k as int]) =~= before + done.flatten()
                        + lists[k as int]);
                    assert(views[k as int] == sorted@[k as int].spec_view());
                }
                add_placements(&mut all, &sorted[k], i_shape, grid_dim);
                k += 1;
            }
            proof {
                let done = parts.take(i_shape as int);
                assert(lists.take(k as int) =~= lists);
                assert(parts[i_shape as int] == lists.flatten());
                assert(parts.take(i_shape + 1) =~= done.push(parts[i_shape as int]));
                done.lemma_flatten_push(parts[i_shape as int]);
            }
            i_shape += 1;
        }
        proof {
            assert(parts.take(i_shape as int) =~= parts);
        }
        all
    }

    /// Create a new instance of the polyomino tiling puzzle with the given
    /// grid dimensions, polyomino shapes, and allowed transformations.
    pub fn new(
        grid_dimensions: (usize, usize),
        polyominoes: Vec<PShape>,
        transformations: ShapeTransform,
    ) -> (puzzle: Self)
        requires
            grid_dimensions.0 > 0 && grid_dimensions.1 > 0,
            polyominoes@.len() > 0,
            shapes_ok(polyominoes@),
        ensures
            placement_views(puzzle.possibilities@) == all_placements(
                shape_views(polyominoes@),
                grid_dimensions,
                transformations,
            ),
            puzzle.constraints@ == all_constraints(grid_dimensions, polyominoes@.len() as usize),
            puzzle.grid_dimensions == grid_dimensions,
            puzzle.polyominoes@ == polyominoes@,
            puzzle.transformations == transformations,
    {
        let possibilities = Self::generate_all_possibilities(
            polyominoes.as_slice(),
            grid_dimensions,
            transformations,
        );
        let constraints = Constraint::all(grid_dimensions, polyominoes.len());
        Self { possibilities, constraints, grid_dimensions, polyominoes, transformations }
    }

    /// Return a solver for this puzzle.
    pub fn solver(&self) -> (solver: Solver<'_, Self>)
        requires
            problem_fits(self),
        ensures
            solver.wf(),
            solver.problem() == self,
            solver.found() == 0,
    {
        Solver::new(self)
    }
}

impl ExactCover for Polyomino {
    type Constraint = Constraint;

    type Possibility = Possibility;

    open spec fn spec_satisfies(&self, poss: &Self::Possibility, cons: &Self::Constraint) -> bool {
        poss.spec_satisfies(*cons)
    }

    open spec fn spec_is_optional(&self, cons: &Self::Constraint) -> bool {
        false
    }

    open spec fn spec_possibilities(&self) -> Seq<Self::Possibility> {
        self.possibilities@
    }

    open spec fn spec_constraints(&self) -> Seq<Self::Constraint> {
        self.constraints@
    }

    fn satisfies(&self, poss: &Self::Possibility, cons: &Self::Constraint) -> (yes: bool) {
        poss.satisfies(cons)
    }

    fn is_optional(&self, _cons: &Self::Constraint) -> (yes: bool) {
        false
    }

    fn possibilities(&self) -> (list: &[Self::Possibility]) {
        self.possibilities.as_slice()
    }

    fn constraints(&self) -> (list: &[Self::Constraint]) {
        self.constraints.as_slice()
    }
}

} // verus!
