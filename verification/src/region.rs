//! Binary images and their bright regions.
//!
//! A binary image is a grid of cells, each bright or dark. Bright cells join
//! into regions across edges and corners (eight neighbours); dark cells join
//! across edges only (four neighbours), so that a diagonal line of bright
//! cells separates the dark cells on its two sides. A bright region is
//! external when it is not enclosed by another one: when one of its cells
//! lies on the border of the image or beside a dark cell that a walk over
//! dark cells connects to the border.

use vstd::prelude::*;

verus! {

/// A cell of an image: its column `x` and its row `y`, as `(x, y)`.
pub type Cell = (int, int);

/// The image's rows: `image[y][x]` is true where the cell `(x, y)` is bright.
pub type Image = Seq<Seq<bool>>;

/// True when every row of `image` has the same length.
pub open spec fn rectangular(image: Image) -> bool {
    forall|y: int| 0 <= y < image.len() ==> (#[trigger] image[y]).len() == image[0].len()
}

/// The number of columns of a rectangular image.
pub open spec fn width_of(image: Image) -> nat {
    if image.len() == 0 {
        0
    } else {
        image[0].len()
    }
}

/// True when `cell` lies in `image`.
pub open spec fn inside(image: Image, cell: Cell) -> bool {
    0 <= cell.1 < image.len() && 0 <= cell.0 < image[cell.1].len()
}

/// True when `cell` lies in `image` and is bright (`bright` true) or dark
/// (`bright` false).
pub open spec fn has_tone(image: Image, bright: bool, cell: Cell) -> bool {
    inside(image, cell) && image[cell.1][cell.0] == bright
}

/// True when `b` is a neighbour of `a`: one of the eight cells around it for
/// bright cells, one of the four that share an edge with it for dark cells.
pub open spec fn adjacent(bright: bool, a: Cell, b: Cell) -> bool {
    let dx = b.0 - a.0;
    let dy = b.1 - a.1;
    &&& -1 <= dx <= 1
    &&& -1 <= dy <= 1
    &&& (dx != 0 || dy != 0)
    &&& (bright || dx == 0 || dy == 0)
}

/// True when `walk` is a walk over cells of one tone: it is not empty, every
/// cell has the tone, and every cell but the first is a neighbour of the one
/// before it.
pub open spec fn is_walk(image: Image, bright: bool, walk: Seq<Cell>) -> bool {
    &&& walk.len() > 0
    &&& forall|i: int| 0 <= i < walk.len() ==> has_tone(image, bright, #[trigger] walk[i])
    &&& forall|i: int|
        0 <= i < walk.len() - 1 ==> adjacent(bright, #[trigger] walk[i], walk[i + 1])
}

/// True when a walk over cells of one tone leads from `a` to `b`.
pub open spec fn linked(image: Image, bright: bool, a: Cell, b: Cell) -> bool {
    exists|walk: Seq<Cell>|
        #[trigger] is_walk(image, bright, walk) && walk[0] == a && walk.last() == b
}

/// True when `cell` lies in the first or last row or column of `image`.
pub open spec fn on_border(image: Image, cell: Cell) -> bool {
    &&& inside(image, cell)
    &&& (cell.0 == 0 || cell.1 == 0 || cell.0 == image[cell.1].len() - 1 || cell.1
        == image.len() - 1)
}

/// True when `cell` is a dark cell that a walk over dark cells connects to
/// the border of the image: it belongs to the background around the regions,
/// not to a hole inside one.
pub open spec fn open_dark(image: Image, cell: Cell) -> bool {
    exists|start: Cell| on_border(image, start) && #[trigger] linked(image, false, start, cell)
}

/// True when `cell` is a bright cell on the border of the image or beside a
/// cell of the open background.
pub open spec fn exposed(image: Image, cell: Cell) -> bool {
    &&& has_tone(image, true, cell)
    &&& (on_border(image, cell) || exists|other: Cell|
        #[trigger] adjacent(false, cell, other) && open_dark(image, other))
}

/// True when the bright region of `cell` is external: it holds an exposed
/// cell.
pub open spec fn external(image: Image, cell: Cell) -> bool {
    exists|start: Cell| exposed(image, start) && #[trigger] linked(image, true, start, cell)
}

/// True when `a` comes before `b` in reading order: row by row, each row
/// from its first column.
pub open spec fn precedes(a: Cell, b: Cell) -> bool {
    a.1 < b.1 || (a.1 == b.1 && a.0 < b.0)
}

/// True when `cell` is the first cell of its bright region in reading
/// order. Every region has exactly one such cell.
pub open spec fn leads_region(image: Image, cell: Cell) -> bool {
    &&& has_tone(image, true, cell)
    &&& forall|other: Cell|
        precedes(other, cell) ==> !#[trigger] linked(image, true, other, cell)
}

/// The first cells of the external bright regions of `image`.
pub open spec fn external_leaders(image: Image) -> Set<Cell> {
    Set::new(|cell: Cell| leads_region(image, cell) && external(image, cell))
}

/// The number of external bright regions of `image`.
pub open spec fn external_regions(image: Image) -> nat {
    external_leaders(image).len()
}

/// A cell of the right tone is linked to itself.
pub proof fn lemma_linked_self(image: Image, bright: bool, cell: Cell)
    requires
        has_tone(image, bright, cell),
    ensures
        linked(image, bright, cell, cell),
{
    let walk = seq![cell];
    assert(is_walk(image, bright, walk));
    assert(walk[0] == cell && walk.last() == cell);
}

/// A walk goes on to any neighbour of its end that has the tone.
pub proof fn lemma_linked_step(image: Image, bright: bool, a: Cell, b: Cell, c: Cell)
    requires
        linked(image, bright, a, b),
        has_tone(image, bright, c),
        adjacent(bright, b, c),
    ensures
        linked(image, bright, a, c),
{
    let walk = choose|walk: Seq<Cell>|
        #[trigger] is_walk(image, bright, walk) && walk[0] == a && walk.last() == b;
    let longer = walk.push(c);
    assert forall|i: int| 0 <= i < longer.len() implies has_tone(
        image,
        bright,
        #[trigger] longer[i],
    ) by {
        if i < walk.len() {
            assert(longer[i] == walk[i]);
        }
    }
    assert forall|i: int| 0 <= i < longer.len() - 1 implies adjacent(
        bright,
        #[trigger] longer[i],
        longer[i + 1],
    ) by {
        if i < walk.len() - 1 {
            assert(longer[i] == walk[i]);
            assert(longer[i + 1] == walk[i + 1]);
        }
    }
    assert(is_walk(image, bright, longer));
    assert(longer[0] == a && longer.last() == c);
}

/// The ends of a walk have its tone.
pub proof fn lemma_linked_tone(image: Image, bright: bool, a: Cell, b: Cell)
    requires
        linked(image, bright, a, b),
    ensures
        has_tone(image, bright, a),
        has_tone(image, bright, b),
{
    let walk = choose|walk: Seq<Cell>|
        #[trigger] is_walk(image, bright, walk) && walk[0] == a && walk.last() == b;
    assert(has_tone(image, bright, walk[0]));
    assert(has_tone(image, bright, walk[walk.len() - 1]));
}


/// A walk can be gone backwards.
pub proof fn lemma_linked_symmetric(image: Image, bright: bool, a: Cell, b: Cell)
    requires
        linked(image, bright, a, b),
    ensures
        linked(image, bright, b, a),
{
    let walk = choose|walk: Seq<Cell>|
        #[trigger] is_walk(image, bright, walk) && walk[0] == a && walk.last() == b;
    let n = walk.len() as int;
    let back = Seq::new(walk.len(), |i: int| walk[n - 1 - i]);
    assert forall|i: int| 0 <= i < back.len() - 1 implies adjacent(
        bright,
        #[trigger] back[i],
        back[i + 1],
    ) by {
        assert(adjacent(bright, walk[n - 2 - i], walk[n - 2 - i + 1]));
    }
    assert(is_walk(image, bright, back));
    assert(back[0] == b && back.last() == a);
}

/// Two walks that meet make one.
pub proof fn lemma_linked_transitive(image: Image, bright: bool, a: Cell, b: Cell, c: Cell)
    requires
        linked(image, bright, a, b),
        linked(image, bright, b, c),
    ensures
        linked(image, bright, a, c),
{
    let first = choose|walk: Seq<Cell>|
        #[trigger] is_walk(image, bright, walk) && walk[0] == a && walk.last() == b;
    let second = choose|walk: Seq<Cell>|
        #[trigger] is_walk(image, bright, walk) && walk[0] == b && walk.last() == c;
    let n = first.len() as int;
    let whole = first + second.subrange(1, second.len() as int);
    assert forall|i: int| 0 <= i < whole.len() implies has_tone(
        image,
        bright,
        #[trigger] whole[i],
    ) by {
        if i < n {
            assert(whole[i] == first[i]);
        } else {
            assert(whole[i] == second[i - n + 1]);
        }
    }
    assert forall|i: int| 0 <= i < whole.len() - 1 implies adjacent(
        bright,
        #[trigger] whole[i],
        whole[i + 1],
    ) by {
        if i + 1 < n {
            assert(whole[i] == first[i] && whole[i + 1] == first[i + 1]);
        } else if i + 1 == n {
            assert(whole[i] == first[i] && first[i] == second[0]);
            assert(whole[i + 1] == second[1]);
            assert(adjacent(bright, second[0], second[1]));
        } else {
            assert(whole[i] == second[i - n + 1]);
            assert(whole[i + 1] == second[i - n + 1 + 1]);
        }
    }
    assert(is_walk(image, bright, whole));
    assert(whole[0] == a);
    if second.len() == 1 {
        assert(whole.last() == first.last());
    } else {
        assert(whole.last() == second.last());
    }
}

/// A region has one first cell only: every region is counted once at most.
pub proof fn lemma_one_leader_per_region(image: Image, a: Cell, b: Cell)
    requires
        leads_region(image, a),
        leads_region(image, b),
        linked(image, true, a, b),
    ensures
        a == b,
{
    lemma_linked_symmetric(image, true, a, b);
    if precedes(a, b) {
        assert(!linked(image, true, a, b));
    } else if precedes(b, a) {
        assert(!linked(image, true, b, a));
    }
}

/// Every bright cell belongs to a region that has a first cell: no bright
/// cell is left without a region to be counted with.
pub proof fn lemma_region_has_leader(image: Image, cell: Cell) -> (leader: Cell)
    requires
        has_tone(image, true, cell),
    ensures
        leads_region(image, leader),
        linked(image, true, leader, cell),
    decreases cell.1, cell.0,
{
    if leads_region(image, cell) {
        lemma_linked_self(image, true, cell);
        cell
    } else {
        let other = choose|other: Cell|
            precedes(other, cell) && #[trigger] linked(image, true, other, cell);
        lemma_linked_tone(image, true, other, cell);
        let leader = lemma_region_has_leader(image, other);
        lemma_linked_transitive(image, true, leader, other, cell);
        leader
    }
}

/// Whether a region is external does not depend on the cell that it is
/// asked of.
pub proof fn lemma_external_is_of_the_region(image: Image, a: Cell, b: Cell)
    requires
        linked(image, true, a, b),
    ensures
        external(image, a) == external(image, b),
{
    lemma_linked_symmetric(image, true, a, b);
    if external(image, a) {
        let start = choose|start: Cell|
            exposed(image, start) && #[trigger] linked(image, true, start, a);
        lemma_linked_transitive(image, true, start, a, b);
    }
    if external(image, b) {
        let start = choose|start: Cell|
            exposed(image, start) && #[trigger] linked(image, true, start, b);
        lemma_linked_transitive(image, true, start, b, a);
    }
}

/// An image without a bright cell has no region to count.
pub proof fn lemma_dark_image_has_no_regions(image: Image)
    requires
        forall|cell: Cell| !#[trigger] has_tone(image, true, cell),
    ensures
        external_regions(image) == 0,
{
    assert(external_leaders(image) =~= Set::empty());
}

proof fn lemma_bright_cell_is_external(image: Image, cell: Cell)
    requires
        rectangular(image),
        forall|dark: Cell| #[trigger] has_tone(image, false, dark) ==> open_dark(image, dark),
        has_tone(image, true, cell),
    ensures
        external(image, cell),
    decreases cell.1,
{
    if on_border(image, cell) {
        lemma_linked_self(image, true, cell);
        assert(exposed(image, cell));
    } else {
        let above: Cell = (cell.0, cell.1 - 1);
        assert(image[above.1].len() == image[0].len());
        assert(image[cell.1].len() == image[0].len());
        assert(inside(image, above));
        if has_tone(image, true, above) {
            lemma_bright_cell_is_external(image, above);
            let start = choose|start: Cell|
                exposed(image, start) && #[trigger] linked(image, true, start, above);
            assert(adjacent(true, above, cell));
            lemma_linked_step(image, true, start, above, cell);
        } else {
            assert(has_tone(image, false, above));
            assert(adjacent(false, cell, above));
            assert(exposed(image, cell));
            lemma_linked_self(image, true, cell);
        }
    }
}

/// Where the dark cells enclose nothing and are not enclosed, so that a walk
/// over dark cells leads from each of them to the border, every bright
/// region is external: the count is the number of bright regions, whatever
/// their sizes.
pub proof fn lemma_without_holes_every_region_counts(image: Image)
    requires
        rectangular(image),
        forall|dark: Cell| #[trigger] has_tone(image, false, dark) ==> open_dark(image, dark),
    ensures
        forall|cell: Cell| #[trigger] has_tone(image, true, cell) ==> external(image, cell),
        external_leaders(image) == Set::new(|cell: Cell| leads_region(image, cell)),
{
    assert forall|cell: Cell| #[trigger] has_tone(image, true, cell) implies external(
        image,
        cell,
    ) by {
        lemma_bright_cell_is_external(image, cell);
    }
    assert(external_leaders(image) =~= Set::new(|cell: Cell| leads_region(image, cell)));
}

/// The cells of row `y` in the first `width` columns.
spec fn row_cells(y: int, width: nat) -> Set<Cell> {
    Set::new(|cell: Cell| cell.1 == y && 0 <= cell.0 < width)
}

/// The cells of a grid of `width` columns and `height` rows.
spec fn grid_cells(width: nat, height: nat) -> Set<Cell> {
    Set::new(|cell: Cell| 0 <= cell.1 < height && 0 <= cell.0 < width)
}

proof fn lemma_row_cells_counted(y: int, width: nat)
    ensures
        row_cells(y, width).finite(),
        row_cells(y, width).len() == width,
    decreases width,
{
    if width == 0 {
        assert(row_cells(y, width) =~= Set::empty());
    } else {
        let shorter = (width - 1) as nat;
        lemma_row_cells_counted(y, shorter);
        assert(row_cells(y, width) =~= row_cells(y, shorter).insert((shorter as int, y)));
    }
}

proof fn lemma_grid_cells_counted(width: nat, height: nat)
    ensures
        grid_cells(width, height).finite(),
        grid_cells(width, height).len() == width * height,
    decreases height,
{
    if height == 0 {
        assert(grid_cells(width, height) =~= Set::empty());
        assert(width * height == 0) by (nonlinear_arith)
            requires
                height == 0,
        ;
    } else {
        let lower = (height - 1) as nat;
        lemma_grid_cells_counted(width, lower);
        lemma_row_cells_counted(lower as int, width);
        let above = grid_cells(width, lower);
        let row = row_cells(lower as int, width);
        assert(above.disjoint(row));
        vstd::set_lib::lemma_set_disjoint_lens(above, row);
        assert(grid_cells(width, height) =~= above + row);
        assert(width * lower + width == width * height) by (nonlinear_arith)
            requires
                lower + 1 == height,
        ;
    }
}

/// The regions of a rectangular image can be counted: the first cells of its
/// external regions are finitely many, no more than the image has cells.
pub proof fn lemma_regions_are_countable(image: Image)
    requires
        rectangular(image),
    ensures
        external_leaders(image).finite(),
        external_regions(image) <= width_of(image) * image.len(),
{
    let grid = grid_cells(width_of(image), image.len());
    lemma_grid_cells_counted(width_of(image), image.len());
    assert forall|cell: Cell| external_leaders(image).contains(cell) implies grid.contains(
        cell,
    ) by {
        assert(image[cell.1].len() == image[0].len());
    }
    vstd::set_lib::lemma_len_subset(external_leaders(image), grid);
}

} // verus!
