//! Marking whole regions of a binary image, and counting by it.

use crate::mask::{same_shape, Mask};
use crate::region::{
    adjacent, exposed, external, external_leaders, external_regions, has_tone, inside, is_walk,
    leads_region, lemma_linked_self, lemma_linked_step, lemma_linked_tone, linked, on_border,
    open_dark, precedes, rectangular, width_of, Cell, Image,
};
use vstd::prelude::*;

verus! {

/// True when `marks` marks only cells that have the tone in `image`.
spec fn marks_tone(image: Image, bright: bool, marks: Image) -> bool {
    forall|cell: Cell| #[trigger] has_tone(marks, true, cell) ==> has_tone(image, bright, cell)
}

/// True when every neighbour of a marked cell that has the tone is marked
/// too, so that the marked cells are whole regions of that tone.
spec fn whole_regions(image: Image, bright: bool, marks: Image) -> bool {
    forall|a: Cell, b: Cell|
        has_tone(marks, true, a) && has_tone(image, bright, b) && #[trigger] adjacent(
            bright,
            a,
            b,
        ) ==> has_tone(marks, true, b)
}

/// The cell that a pair of indices names.
spec fn cell_at(at: (usize, usize)) -> Cell {
    (at.0 as int, at.1 as int)
}

/// The number of false entries of `row`.
spec fn clear_in_row(row: Seq<bool>) -> nat
    decreases row.len(),
{
    if row.len() == 0 {
        0
    } else {
        clear_in_row(row.drop_last()) + if row.last() {
            0nat
        } else {
            1nat
        }
    }
}

/// The number of cells of `marks` that are not marked.
spec fn clear_cells(marks: Image) -> nat
    decreases marks.len(),
{
    if marks.len() == 0 {
        0
    } else {
        clear_cells(marks.drop_last()) + clear_in_row(marks.last())
    }
}

proof fn lemma_clear_in_row_set(row: Seq<bool>, x: int)
    requires
        0 <= x < row.len(),
        !row[x],
    ensures
        clear_in_row(row.update(x, true)) + 1 == clear_in_row(row),
    decreases row.len(),
{
    let after = row.update(x, true);
    if x == row.len() - 1 {
        assert(after.drop_last() == row.drop_last());
    } else {
        assert(after.drop_last() == row.drop_last().update(x, true));
        lemma_clear_in_row_set(row.drop_last(), x);
    }
}

proof fn lemma_clear_cells_set(marks: Image, x: int, y: int)
    requires
        inside(marks, (x, y)),
        !marks[y][x],
    ensures
        clear_cells(marks.update(y, marks[y].update(x, true))) + 1 == clear_cells(marks),
    decreases marks.len(),
{
    let after = marks.update(y, marks[y].update(x, true));
    if y == marks.len() - 1 {
        assert(after.drop_last() == marks.drop_last());
        lemma_clear_in_row_set(marks[y], x);
    } else {
        assert(after.drop_last() == marks.drop_last().update(y, marks[y].update(x, true)));
        lemma_clear_cells_set(marks.drop_last(), x, y);
    }
}

proof fn lemma_walk_stays_marked(
    image: Image,
    bright: bool,
    marks: Image,
    walk: Seq<Cell>,
    i: int,
)
    requires
        whole_regions(image, bright, marks),
        is_walk(image, bright, walk),
        has_tone(marks, true, walk[0]),
        0 <= i < walk.len(),
    ensures
        has_tone(marks, true, walk[i]),
    decreases i,
{
    if i > 0 {
        lemma_walk_stays_marked(image, bright, marks, walk, i - 1);
        assert(adjacent(bright, walk[i - 1], walk[i - 1 + 1]));
    }
}

/// Marks that hold whole regions hold every cell linked to a marked one.
proof fn lemma_linked_marked(image: Image, bright: bool, marks: Image, a: Cell, b: Cell)
    requires
        whole_regions(image, bright, marks),
        has_tone(marks, true, a),
        linked(image, bright, a, b),
    ensures
        has_tone(marks, true, b),
{
    let walk = choose|walk: Seq<Cell>|
        #[trigger] is_walk(image, bright, walk) && walk[0] == a && walk.last() == b;
    lemma_walk_stays_marked(image, bright, marks, walk, walk.len() - 1);
}

/// True when `cell` waits on `stack`.
spec fn waiting(stack: Seq<(usize, usize)>, cell: Cell) -> bool {
    exists|i: int| 0 <= i < stack.len() && cell_at(#[trigger] stack[i]) == cell
}

/// What holds while a region is being marked from `seed`: `before` are the
/// marks at the start, `stack` holds the marked cells whose neighbours are
/// still to be looked at, and `current` is the cell being looked at, if any.
#[verifier::opaque]
spec fn marking(
    image: Image,
    bright: bool,
    seed: Cell,
    before: Image,
    marks: Image,
    stack: Seq<(usize, usize)>,
    current: Option<Cell>,
) -> bool {
    &&& rectangular(image)
    &&& same_shape(image, marks)
    &&& same_shape(image, before)
    &&& forall|cell: Cell| #[trigger] has_tone(before, true, cell) ==> has_tone(marks, true, cell)
    &&& forall|cell: Cell| #[trigger]
        has_tone(marks, true, cell) ==> has_tone(before, true, cell) || linked(
            image,
            bright,
            seed,
            cell,
        )
    &&& marks_tone(image, bright, marks)
    &&& forall|i: int|
        0 <= i < stack.len() ==> has_tone(marks, true, cell_at(#[trigger] stack[i])) && linked(
            image,
            bright,
            seed,
            cell_at(stack[i]),
        )
    &&& forall|a: Cell, b: Cell|
        has_tone(marks, true, a) && has_tone(image, bright, b) && #[trigger] adjacent(
            bright,
            a,
            b,
        ) ==> has_tone(marks, true, b) || waiting(stack, a) || current == Some(a)
}

/// The marks have the image's shape all the while.
proof fn lemma_marking_shape(
    image: Image,
    bright: bool,
    seed: Cell,
    before: Image,
    marks: Image,
    stack: Seq<(usize, usize)>,
    current: Option<Cell>,
)
    requires
        marking(image, bright, seed, before, marks, stack, current),
    ensures
        rectangular(image),
        same_shape(image, marks),
{
    reveal(marking);
}

/// Marking begins with the seed marked and waiting.
proof fn lemma_marking_begins(
    image: Image,
    bright: bool,
    seed: Cell,
    before: Image,
    marks: Image,
    stack: Seq<(usize, usize)>,
)
    requires
        rectangular(image),
        same_shape(image, before),
        same_shape(image, marks),
        has_tone(image, bright, seed),
        marks_tone(image, bright, before),
        whole_regions(image, bright, before),
        forall|cell: Cell| #[trigger]
            has_tone(marks, true, cell) <==> has_tone(before, true, cell) || cell == seed,
        stack.len() == 1,
        cell_at(stack[0]) == seed,
    ensures
        marking(image, bright, seed, before, marks, stack, None),
{
    reveal(marking);
    lemma_linked_self(image, bright, seed);
    assert forall|a: Cell, b: Cell|
        has_tone(marks, true, a) && has_tone(image, bright, b) && #[trigger] adjacent(
            bright,
            a,
            b,
        ) implies has_tone(marks, true, b) || waiting(stack, a) || None::<Cell> == Some(a) by {
        if a == seed {
            assert(waiting(stack, a));
        } else {
            assert(has_tone(before, true, a));
            assert(has_tone(before, true, b));
        }
    }
}

/// Taking the last cell off the stack makes it the current one.
proof fn lemma_marking_takes(
    image: Image,
    bright: bool,
    seed: Cell,
    before: Image,
    marks: Image,
    stack: Seq<(usize, usize)>,
)
    requires
        marking(image, bright, seed, before, marks, stack, None),
        stack.len() > 0,
    ensures
        marking(
            image,
            bright,
            seed,
            before,
            marks,
            stack.drop_last(),
            Some(cell_at(stack.last())),
        ),
        has_tone(image, bright, cell_at(stack.last())),
        linked(image, bright, seed, cell_at(stack.last())),
{
    reveal(marking);
    let rest = stack.drop_last();
    let current = cell_at(stack.last());
    assert(has_tone(marks, true, cell_at(stack[stack.len() - 1])));
    assert forall|i: int| 0 <= i < rest.len() implies has_tone(
        marks,
        true,
        cell_at(#[trigger] rest[i]),
    ) && linked(image, bright, seed, cell_at(rest[i])) by {
        assert(rest[i] == stack[i]);
    }
    assert forall|a: Cell, b: Cell|
        has_tone(marks, true, a) && has_tone(image, bright, b) && #[trigger] adjacent(
            bright,
            a,
            b,
        ) implies has_tone(marks, true, b) || waiting(rest, a) || Some(current) == Some(a) by {
        if waiting(stack, a) {
            let i = choose|i: int| 0 <= i < stack.len() && cell_at(#[trigger] stack[i]) == a;
            if i < rest.len() {
                assert(rest[i] == stack[i]);
                assert(waiting(rest, a));
            }
        }
    }
}

/// Marking a neighbour of the current cell and putting it on the stack.
proof fn lemma_marking_adds(
    image: Image,
    bright: bool,
    seed: Cell,
    before: Image,
    marks: Image,
    stack: Seq<(usize, usize)>,
    current: Cell,
    at: (usize, usize),
    after: Image,
)
    requires
        marking(image, bright, seed, before, marks, stack, Some(current)),
        linked(image, bright, seed, current),
        has_tone(image, bright, cell_at(at)),
        adjacent(bright, current, cell_at(at)),
        same_shape(marks, after),
        forall|cell: Cell| #[trigger]
            has_tone(after, true, cell) <==> has_tone(marks, true, cell) || cell == cell_at(at),
    ensures
        marking(image, bright, seed, before, after, stack.push(at), Some(current)),
{
    reveal(marking);
    let here = cell_at(at);
    let longer = stack.push(at);
    lemma_linked_step(image, bright, seed, current, here);
    assert(cell_at(longer[longer.len() - 1]) == here);
    assert forall|cell: Cell| #[trigger] has_tone(before, true, cell) implies has_tone(
        after,
        true,
        cell,
    ) by {
        assert(has_tone(marks, true, cell));
    }
    assert forall|i: int| 0 <= i < longer.len() implies has_tone(
        after,
        true,
        cell_at(#[trigger] longer[i]),
    ) && linked(image, bright, seed, cell_at(longer[i])) by {
        if i < stack.len() {
            assert(longer[i] == stack[i]);
            assert(has_tone(marks, true, cell_at(stack[i])));
        }
    }
    assert forall|a: Cell, b: Cell|
        has_tone(after, true, a) && has_tone(image, bright, b) && #[trigger] adjacent(
            bright,
            a,
            b,
        ) implies has_tone(after, true, b) || waiting(longer, a) || Some(current) == Some(a) by {
        if a == here {
            assert(waiting(longer, a));
        } else {
            assert(has_tone(marks, true, a));
            if waiting(stack, a) {
                let i = choose|i: int| 0 <= i < stack.len() && cell_at(#[trigger] stack[i]) == a;
                assert(longer[i] == stack[i]);
                assert(waiting(longer, a));
            } else if current != a {
                assert(has_tone(marks, true, b));
            }
        }
    }
}

/// Once every neighbour of the current cell is marked, the cell is done.
proof fn lemma_marking_settles(
    image: Image,
    bright: bool,
    seed: Cell,
    before: Image,
    marks: Image,
    stack: Seq<(usize, usize)>,
    current: Cell,
)
    requires
        marking(image, bright, seed, before, marks, stack, Some(current)),
        forall|b: Cell|
            has_tone(image, bright, b) && #[trigger] adjacent(bright, current, b) ==> has_tone(
                marks,
                true,
                b,
            ),
    ensures
        marking(image, bright, seed, before, marks, stack, None),
{
    reveal(marking);
}

/// With nothing left on the stack, the marks are those of before and the
/// whole region of the seed.
proof fn lemma_marking_ends(
    image: Image,
    bright: bool,
    seed: Cell,
    before: Image,
    marks: Image,
    stack: Seq<(usize, usize)>,
)
    requires
        marking(image, bright, seed, before, marks, stack, None),
        stack.len() == 0,
        has_tone(marks, true, seed),
    ensures
        same_shape(image, marks),
        marks_tone(image, bright, marks),
        whole_regions(image, bright, marks),
        forall|cell: Cell| #[trigger] has_tone(before, true, cell) ==> has_tone(marks, true, cell),
        forall|cell: Cell| #[trigger]
            linked(image, bright, seed, cell) ==> has_tone(marks, true, cell),
        forall|cell: Cell| #[trigger]
            has_tone(marks, true, cell) ==> has_tone(before, true, cell) || linked(
                image,
                bright,
                seed,
                cell,
            ),
{
    reveal(marking);
    assert forall|a: Cell, b: Cell|
        has_tone(marks, true, a) && has_tone(image, bright, b) && #[trigger] adjacent(
            bright,
            a,
            b,
        ) implies has_tone(marks, true, b) by {
        assert(!waiting(stack, a));
    }
    assert forall|cell: Cell| #[trigger] linked(image, bright, seed, cell) implies has_tone(
        marks,
        true,
        cell,
    ) by {
        lemma_linked_marked(image, bright, marks, seed, cell);
    }
}

/// Looks at the neighbour `(x, y)` of the cell `current`: where it has the
/// tone and is not marked yet, it is marked and put on the stack.
fn visit(
    image: &Mask,
    bright: bool,
    marks: &mut Mask,
    stack: &mut Vec<(usize, usize)>,
    x: usize,
    y: usize,
    Ghost(seed): Ghost<Cell>,
    Ghost(before): Ghost<Image>,
    Ghost(current): Ghost<Cell>,
)
    requires
        marking(image@, bright, seed, before, old(marks)@, old(stack)@, Some(current)),
        inside(image@, (x as int, y as int)),
        adjacent(bright, current, (x as int, y as int)),
        linked(image@, bright, seed, current),
    ensures
        marking(image@, bright, seed, before, final(marks)@, final(stack)@, Some(current)),
        forall|cell: Cell| #[trigger]
            has_tone(old(marks)@, true, cell) ==> has_tone(final(marks)@, true, cell),
        has_tone(image@, bright, (x as int, y as int)) ==> has_tone(
            final(marks)@,
            true,
            (x as int, y as int),
        ),
        (final(marks)@ == old(marks)@ && final(stack)@ == old(stack)@) || clear_cells(
            final(marks)@,
        ) < clear_cells(old(marks)@),
{
    proof {
        lemma_marking_shape(image@, bright, seed, before, marks@, stack@, Some(current));
    }
    if image.at(x, y) == bright && !marks.at(x, y) {
        proof {
            lemma_clear_cells_set(marks@, x as int, y as int);
        }
        marks.mark(x, y);
        stack.push((x, y));
        proof {
            lemma_marking_adds(
                image@,
                bright,
                seed,
                before,
                old(marks)@,
                old(stack)@,
                current,
                (x, y),
                marks@,
            );
        }
    }
}

/// Looks at every neighbour of the cell `(x, y)`, which was taken off the
/// stack.
fn look_around(
    image: &Mask,
    bright: bool,
    marks: &mut Mask,
    stack: &mut Vec<(usize, usize)>,
    x: usize,
    y: usize,
    Ghost(seed): Ghost<Cell>,
    Ghost(before): Ghost<Image>,
)
    requires
        image.wf(),
        marking(
            image@,
            bright,
            seed,
            before,
            old(marks)@,
            old(stack)@,
            Some((x as int, y as int)),
        ),
        inside(image@, (x as int, y as int)),
        linked(image@, bright, seed, (x as int, y as int)),
    ensures
        marking(image@, bright, seed, before, final(marks)@, final(stack)@, None),
        forall|cell: Cell| #[trigger]
            has_tone(old(marks)@, true, cell) ==> has_tone(final(marks)@, true, cell),
        (final(marks)@ == old(marks)@ && final(stack)@ == old(stack)@) || clear_cells(
            final(marks)@,
        ) < clear_cells(old(marks)@),
{
    let ghost current: Cell = (x as int, y as int);
    let height = image.height();
    let width = image.width();
    let up = y > 0;
    let down = y + 1 < height;
    let left = x > 0;
    let right = x + 1 < width;
    assert(image@[y as int].len() == width);
    if up {
        assert(image@[y - 1].len() == width);
        visit(image, bright, marks, stack, x, y - 1, Ghost(seed), Ghost(before), Ghost(current));
        if bright && left {
            visit(
                image,
                bright,
                marks,
                stack,
                x - 1,
                y - 1,
                Ghost(seed),
                Ghost(before),
                Ghost(current),
            );
        }
        if bright && right {
            visit(
                image,
                bright,
                marks,
                stack,
                x + 1,
                y - 1,
                Ghost(seed),
                Ghost(before),
                Ghost(current),
            );
        }
    }
    if left {
        visit(image, bright, marks, stack, x - 1, y, Ghost(seed), Ghost(before), Ghost(current));
    }
    if right {
        visit(image, bright, marks, stack, x + 1, y, Ghost(seed), Ghost(before), Ghost(current));
    }
    if down {
        assert(image@[y + 1].len() == width);
        visit(image, bright, marks, stack, x, y + 1, Ghost(seed), Ghost(before), Ghost(current));
        if bright && left {
            visit(
                image,
                bright,
                marks,
                stack,
                x - 1,
                y + 1,
                Ghost(seed),
                Ghost(before),
                Ghost(current),
            );
        }
        if bright && right {
            visit(
                image,
                bright,
                marks,
                stack,
                x + 1,
                y + 1,
                Ghost(seed),
                Ghost(before),
                Ghost(current),
            );
        }
    }
    proof {
        assert forall|b: Cell|
            has_tone(image@, bright, b) && #[trigger] adjacent(
                bright,
                current,
                b,
            ) implies has_tone(marks@, true, b) by {
            assert(image@[b.1].len() == width);
        }
        lemma_marking_settles(image@, bright, seed, before, marks@, stack@, current);
    }
}

/// Marks the whole region of the cell `(sx, sy)`: every cell that a walk over
/// cells of its tone reaches from it.
fn flood(image: &Mask, bright: bool, marks: &mut Mask, sx: usize, sy: usize)
    requires
        image.wf(),
        same_shape(image@, old(marks)@),
        has_tone(image@, bright, (sx as int, sy as int)),
        !has_tone(old(marks)@, true, (sx as int, sy as int)),
        marks_tone(image@, bright, old(marks)@),
        whole_regions(image@, bright, old(marks)@),
    ensures
        same_shape(image@, final(marks)@),
        marks_tone(image@, bright, final(marks)@),
        whole_regions(image@, bright, final(marks)@),
        forall|cell: Cell| #[trigger]
            has_tone(old(marks)@, true, cell) ==> has_tone(final(marks)@, true, cell),
        forall|cell: Cell| #[trigger]
            linked(image@, bright, (sx as int, sy as int), cell) ==> has_tone(
                final(marks)@,
                true,
                cell,
            ),
        forall|cell: Cell| #[trigger]
            has_tone(final(marks)@, true, cell) ==> has_tone(old(marks)@, true, cell) || linked(
                image@,
                bright,
                (sx as int, sy as int),
                cell,
            ),
{
    let ghost seed: Cell = (sx as int, sy as int);
    let ghost before = marks@;
    let mut stack: Vec<(usize, usize)> = Vec::new();
    marks.mark(sx, sy);
    stack.push((sx, sy));
    proof {
        lemma_marking_begins(image@, bright, seed, before, marks@, stack@);
    }
    while stack.len() > 0
        invariant
            image.wf(),
            has_tone(marks@, true, seed),
            marking(image@, bright, seed, before, marks@, stack@, None),
        decreases clear_cells(marks@), stack.len(),
    {
        proof {
            lemma_marking_takes(image@, bright, seed, before, marks@, stack@);
        }
        let (x, y) = stack.pop().unwrap();
        look_around(image, bright, marks, &mut stack, x, y, Ghost(seed), Ghost(before));
    }
    proof {
        lemma_marking_ends(image@, bright, seed, before, marks@, stack@);
    }
}

/// True when a walk over cells of the tone leads to `cell` from a cell that
/// `seeds` marks.
spec fn reached(image: Image, bright: bool, seeds: Image, cell: Cell) -> bool {
    exists|start: Cell|
        has_tone(seeds, true, start) && #[trigger] linked(image, bright, start, cell)
}

/// Marks every cell of the tone that a walk over such cells reaches from a
/// cell marked in `seeds`.
fn spread(image: &Mask, bright: bool, seeds: &Mask) -> (marks: Mask)
    requires
        image.wf(),
        same_shape(image@, seeds@),
    ensures
        same_shape(image@, marks@),
        forall|cell: Cell| #[trigger]
            has_tone(marks@, true, cell) <==> reached(image@, bright, seeds@, cell),
{
    let height = image.height();
    let width = image.width();
    let mut marks = image.blank_like();
    let mut y: usize = 0;
    while y < height
        invariant
            image.wf(),
            height == image@.len(),
            width == width_of(image@),
            y <= height,
            same_shape(image@, seeds@),
            same_shape(image@, marks@),
            marks_tone(image@, bright, marks@),
            whole_regions(image@, bright, marks@),
            forall|cell: Cell| #[trigger]
                has_tone(marks@, true, cell) ==> reached(image@, bright, seeds@, cell),
            forall|cell: Cell|
                precedes(cell, (0, y as int)) && #[trigger] has_tone(seeds@, true, cell)
                    && has_tone(image@, bright, cell) ==> has_tone(marks@, true, cell),
        decreases height - y,
    {
        let mut x: usize = 0;
        assert(image@[y as int].len() == width);
        while x < width
            invariant
                image.wf(),
                height == image@.len(),
                width == width_of(image@),
                y < height,
                x <= width,
                image@[y as int].len() == width,
                same_shape(image@, seeds@),
                same_shape(image@, marks@),
                marks_tone(image@, bright, marks@),
                whole_regions(image@, bright, marks@),
                forall|cell: Cell| #[trigger]
                    has_tone(marks@, true, cell) ==> reached(image@, bright, seeds@, cell),
                forall|cell: Cell|
                    precedes(cell, (x as int, y as int)) && #[trigger] has_tone(
                        seeds@,
                        true,
                        cell,
                    ) && has_tone(image@, bright, cell) ==> has_tone(marks@, true, cell),
            decreases width - x,
        {
            let ghost here: Cell = (x as int, y as int);
            if seeds.at(x, y) && image.at(x, y) == bright && !marks.at(x, y) {
                let ghost marks_then = marks@;
                flood(image, bright, &mut marks, x, y);
                proof {
                    lemma_linked_self(image@, bright, here);
                    assert forall|cell: Cell| #[trigger]
                        has_tone(marks@, true, cell) implies reached(
                        image@,
                        bright,
                        seeds@,
                        cell,
                    ) by {
                        if !has_tone(marks_then, true, cell) {
                            assert(linked(image@, bright, here, cell));
                        }
                    }
                }
            }
            x += 1;
        }
        y += 1;
    }
    proof {
        assert forall|cell: Cell| #[trigger]
            reached(image@, bright, seeds@, cell) implies has_tone(marks@, true, cell) by {
            let start = choose|start: Cell|
                has_tone(seeds@, true, start) && #[trigger] linked(image@, bright, start, cell);
            lemma_linked_tone(image@, bright, start, cell);
            lemma_linked_marked(image@, bright, marks@, start, cell);
        }
    }
    marks
}

/// Marks the cells on the border of `image`.
fn border_cells(image: &Mask) -> (marks: Mask)
    requires
        image.wf(),
    ensures
        same_shape(image@, marks@),
        forall|cell: Cell| #[trigger] has_tone(marks@, true, cell) <==> on_border(image@, cell),
{
    let height = image.height();
    let width = image.width();
    let mut marks = image.blank_like();
    let mut y: usize = 0;
    while y < height
        invariant
            image.wf(),
            height == image@.len(),
            width == width_of(image@),
            y <= height,
            same_shape(image@, marks@),
            forall|cell: Cell| #[trigger]
                has_tone(marks@, true, cell) <==> on_border(image@, cell) && precedes(
                    cell,
                    (0, y as int),
                ),
        decreases height - y,
    {
        let mut x: usize = 0;
        assert(image@[y as int].len() == width);
        while x < width
            invariant
                image.wf(),
                height == image@.len(),
                width == width_of(image@),
                y < height,
                x <= width,
                image@[y as int].len() == width,
                same_shape(image@, marks@),
                forall|cell: Cell| #[trigger]
                    has_tone(marks@, true, cell) <==> on_border(image@, cell) && precedes(
                        cell,
                        (x as int, y as int),
                    ),
            decreases width - x,
        {
            if x == 0 || y == 0 || x == width - 1 || y == height - 1 {
                marks.mark(x, y);
            }
            x += 1;
        }
        y += 1;
    }
    marks
}

/// Marks the exposed cells of `image`, given its open background.
fn exposed_cells(image: &Mask, open: &Mask) -> (marks: Mask)
    requires
        image.wf(),
        same_shape(image@, open@),
        forall|cell: Cell| #[trigger] has_tone(open@, true, cell) <==> open_dark(image@, cell),
    ensures
        same_shape(image@, marks@),
        forall|cell: Cell| #[trigger] has_tone(marks@, true, cell) <==> exposed(image@, cell),
{
    let height = image.height();
    let width = image.width();
    let mut marks = image.blank_like();
    let mut y: usize = 0;
    while y < height
        invariant
            image.wf(),
            height == image@.len(),
            width == width_of(image@),
            y <= height,
            same_shape(image@, marks@),
            same_shape(image@, open@),
            forall|cell: Cell| #[trigger] has_tone(open@, true, cell) <==> open_dark(image@, cell),
            forall|cell: Cell| #[trigger]
                has_tone(marks@, true, cell) <==> exposed(image@, cell) && precedes(
                    cell,
                    (0, y as int),
                ),
        decreases height - y,
    {
        let mut x: usize = 0;
        assert(image@[y as int].len() == width);
        while x < width
            invariant
                image.wf(),
                height == image@.len(),
                width == width_of(image@),
                y < height,
                x <= width,
                image@[y as int].len() == width,
                same_shape(image@, marks@),
                same_shape(image@, open@),
                forall|cell: Cell| #[trigger]
                    has_tone(open@, true, cell) <==> open_dark(image@, cell),
                forall|cell: Cell| #[trigger]
                    has_tone(marks@, true, cell) <==> exposed(image@, cell) && precedes(
                        cell,
                        (x as int, y as int),
                    ),
            decreases width - x,
        {
            let ghost here: Cell = (x as int, y as int);
            if image.at(x, y) {
                let border = x == 0 || y == 0 || x == width - 1 || y == height - 1;
                if border {
                    marks.mark(x, y);
                } else {
                    assert(image@[y - 1].len() == width);
                    assert(image@[y + 1].len() == width);
                    let beside_open = open.at(x - 1, y) || open.at(x + 1, y) || open.at(x, y - 1)
                        || open.at(x, y + 1);
                    proof {
                        let west: Cell = (x - 1, y as int);
                        let east: Cell = (x + 1, y as int);
                        let north: Cell = (x as int, y - 1);
                        let south: Cell = (x as int, y + 1);
                        assert(adjacent(false, here, west));
                        assert(adjacent(false, here, east));
                        assert(adjacent(false, here, north));
                        assert(adjacent(false, here, south));
                        assert(has_tone(open@, true, west) == open@[y as int][x - 1]);
                        assert(has_tone(open@, true, east) == open@[y as int][x + 1]);
                        assert(has_tone(open@, true, north) == open@[y - 1][x as int]);
                        assert(has_tone(open@, true, south) == open@[y + 1][x as int]);
                        if exposed(image@, here) {
                            let other = choose|other: Cell| #[trigger]
                                adjacent(false, here, other) && open_dark(image@, other);
                            assert(has_tone(open@, true, other));
                            assert(other == west || other == east || other == north || other
                                == south);
                        }
                        assert(beside_open == exposed(image@, here));
                    }
                    if beside_open {
                        marks.mark(x, y);
                    }
                }
            }
            x += 1;
        }
        y += 1;
    }
    marks
}

/// Counts the bright regions whose first cell `chosen` marks.
fn count_leaders(image: &Mask, chosen: &Mask) -> (count: usize)
    requires
        image.wf(),
        same_shape(image@, chosen@),
        forall|cell: Cell| #[trigger] has_tone(chosen@, true, cell) <==> external(image@, cell),
    ensures
        count == external_regions(image@),
{
    let height = image.height();
    let width = image.width();
    let mut seen = image.blank_like();
    let mut count: usize = 0;
    let ghost mut found: Set<Cell> = Set::empty();
    let mut y: usize = 0;
    while y < height
        invariant
            image.wf(),
            height == image@.len(),
            width == width_of(image@),
            y <= height,
            same_shape(image@, chosen@),
            same_shape(image@, seen@),
            forall|cell: Cell| #[trigger]
                has_tone(chosen@, true, cell) <==> external(image@, cell),
            marks_tone(image@, true, seen@),
            whole_regions(image@, true, seen@),
            forall|cell: Cell|
                precedes(cell, (0, y as int)) && #[trigger] has_tone(image@, true, cell)
                    ==> has_tone(seen@, true, cell),
            forall|cell: Cell|
                !precedes(cell, (0, y as int)) && #[trigger] has_tone(seen@, true, cell)
                    ==> !leads_region(image@, cell),
            found.finite(),
            found.len() == count,
            count <= y * width,
            forall|cell: Cell|
                found.contains(cell) <==> leads_region(image@, cell) && external(image@, cell)
                    && precedes(cell, (0, y as int)),
        decreases height - y,
    {
        let mut x: usize = 0;
        assert(image@[y as int].len() == width);
        assert((y + 1) * width <= height * width) by (nonlinear_arith)
            requires
                y + 1 <= height,
        ;
        assert((y + 1) * width == y * width + width) by (nonlinear_arith);
        while x < width
            invariant
                image.wf(),
                height == image@.len(),
                width == width_of(image@),
                y < height,
                x <= width,
                image@[y as int].len() == width,
                same_shape(image@, chosen@),
                same_shape(image@, seen@),
                forall|cell: Cell| #[trigger]
                    has_tone(chosen@, true, cell) <==> external(image@, cell),
                marks_tone(image@, true, seen@),
                whole_regions(image@, true, seen@),
                forall|cell: Cell|
                    precedes(cell, (x as int, y as int)) && #[trigger] has_tone(
                        image@,
                        true,
                        cell,
                    ) ==> has_tone(seen@, true, cell),
                forall|cell: Cell|
                    !precedes(cell, (x as int, y as int)) && #[trigger] has_tone(
                        seen@,
                        true,
                        cell,
                    ) ==> !leads_region(image@, cell),
                found.finite(),
                found.len() == count,
                count <= y * width + x,
                y * width + width <= usize::MAX,
                forall|cell: Cell|
                    found.contains(cell) <==> leads_region(image@, cell) && external(
                        image@,
                        cell,
                    ) && precedes(cell, (x as int, y as int)),
            decreases width - x,
        {
            let ghost here: Cell = (x as int, y as int);
            let ghost seen_then = seen@;
            if image.at(x, y) && !seen.at(x, y) {
                proof {
                    assert forall|other: Cell| precedes(other, here) implies !#[trigger] linked(
                        image@,
                        true,
                        other,
                        here,
                    ) by {
                        if linked(image@, true, other, here) {
                            lemma_linked_tone(image@, true, other, here);
                            lemma_linked_marked(image@, true, seen@, other, here);
                        }
                    }
                    assert(leads_region(image@, here));
                }
                flood(image, true, &mut seen, x, y);
                proof {
                    lemma_linked_self(image@, true, here);
                    assert forall|cell: Cell|
                        !precedes(cell, (x + 1, y as int)) && #[trigger] has_tone(
                            seen@,
                            true,
                            cell,
                        ) implies !leads_region(image@, cell) by {
                        if !has_tone(seen_then, true, cell) {
                            assert(linked(image@, true, here, cell));
                            assert(has_tone(image@, true, cell));
                            assert(precedes(here, cell));
                        }
                    }
                }
                if chosen.at(x, y) {
                    proof {
                        assert(has_tone(chosen@, true, here));
                        assert(!found.contains(here));
                        found = found.insert(here);
                    }
                    count += 1;
                }
            } else {
                proof {
                    if has_tone(image@, true, here) {
                        assert(has_tone(seen@, true, here));
                    }
                    assert(!leads_region(image@, here));
                }
            }
            proof {
                assert forall|cell: Cell|
                    found.contains(cell) <==> leads_region(image@, cell) && external(
                        image@,
                        cell,
                    ) && precedes(cell, (x + 1, y as int)) by {
                    if cell == here {
                        assert(has_tone(chosen@, true, here) <==> external(image@, here));
                    } else {
                        assert(precedes(cell, (x + 1, y as int)) <==> precedes(cell, here));
                    }
                }
            }
            x += 1;
        }
        proof {
            assert forall|cell: Cell|
                found.contains(cell) <==> leads_region(image@, cell) && external(image@, cell)
                    && precedes(cell, (0, y + 1)) by {
                if leads_region(image@, cell) {
                    assert(image@[cell.1].len() == width);
                }
            }
            assert forall|cell: Cell|
                precedes(cell, (0, y + 1)) && #[trigger] has_tone(
                    image@,
                    true,
                    cell,
                ) implies has_tone(seen@, true, cell) by {
                assert(image@[cell.1].len() == width);
            }
        }
        y += 1;
    }
    proof {
        assert(found =~= external_leaders(image@));
    }
    count
}

/// Marks the open background of `image`: the dark cells that a walk over
/// dark cells connects to the border.
fn open_background(image: &Mask) -> (open: Mask)
    requires
        image.wf(),
    ensures
        same_shape(image@, open@),
        forall|cell: Cell| #[trigger] has_tone(open@, true, cell) <==> open_dark(image@, cell),
{
    let border = border_cells(image);
    let open = spread(image, false, &border);
    proof {
        assert forall|cell: Cell| #[trigger]
            has_tone(open@, true, cell) <==> open_dark(image@, cell) by {
            if has_tone(open@, true, cell) {
                let start = choose|start: Cell|
                    has_tone(border@, true, start) && #[trigger] linked(
                        image@,
                        false,
                        start,
                        cell,
                    );
                assert(on_border(image@, start));
            }
            if open_dark(image@, cell) {
                let start = choose|start: Cell|
                    on_border(image@, start) && #[trigger] linked(image@, false, start, cell);
                assert(has_tone(border@, true, start));
                assert(reached(image@, false, border@, cell));
            }
        }
    }
    open
}

/// Marks the cells of the external regions of `image`.
fn external_cells(image: &Mask) -> (chosen: Mask)
    requires
        image.wf(),
    ensures
        same_shape(image@, chosen@),
        forall|cell: Cell| #[trigger] has_tone(chosen@, true, cell) <==> external(image@, cell),
{
    let open = open_background(image);
    let seeds = exposed_cells(image, &open);
    let chosen = spread(image, true, &seeds);
    proof {
        assert forall|cell: Cell| #[trigger]
            has_tone(chosen@, true, cell) <==> external(image@, cell) by {
            if has_tone(chosen@, true, cell) {
                let start = choose|start: Cell|
                    has_tone(seeds@, true, start) && #[trigger] linked(
                        image@,
                        true,
                        start,
                        cell,
                    );
                assert(exposed(image@, start));
            }
            if external(image@, cell) {
                let start = choose|start: Cell|
                    exposed(image@, start) && #[trigger] linked(image@, true, start, cell);
                assert(has_tone(seeds@, true, start));
                assert(reached(image@, true, seeds@, cell));
            }
        }
    }
    chosen
}

/// Counts the external regions of `image`: the open background is marked
/// from the border, then the regions that touch it, and last the first cells
/// of those regions are counted.
pub(crate) fn count_regions(image: &Mask) -> (count: usize)
    requires
        image.wf(),
    ensures
        count == external_regions(image@),
{
    let chosen = external_cells(image);
    count_leaders(image, &chosen)
}

} // verus!
