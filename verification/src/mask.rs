//! The binary image as a value: a rectangular grid of bright and dark cells.

use crate::fill::count_regions;
use crate::region::{
    external_leaders, external_regions, has_tone, inside, lemma_regions_are_countable,
    rectangular, width_of, Cell, Image,
};
use vstd::prelude::*;

verus! {

/// True when `a` and `b` have the same number of rows, and the same number
/// of cells in each.
pub(crate) open spec fn same_shape(a: Image, b: Image) -> bool {
    &&& a.len() == b.len()
    &&& forall|y: int|
        #![trigger a[y]]
        #![trigger b[y]]
        0 <= y < a.len() ==> a[y].len() == b[y].len()
}

/// A rectangular binary image.
#[derive(Debug)]
pub struct Mask {
    rows: Vec<Vec<bool>>,
}

impl View for Mask {
    type V = Seq<Seq<bool>>;

    closed spec fn view(&self) -> Seq<Seq<bool>> {
        Seq::new(self.rows@.len(), |y: int| self.rows@[y]@)
    }
}

impl Mask {
    /// The mask's invariant: its rows have one length, and the number of its
    /// cells fits the machine's word.
    pub open spec fn wf(&self) -> bool {
        &&& rectangular(self@)
        &&& self@.len() * width_of(self@) <= usize::MAX
    }

    /// Makes a mask of `rows`, `rows[y][x]` being true where `(x, y)` is
    /// bright. There is none where the rows differ in length or hold more
    /// cells than the machine's word can count.
    pub fn from_rows(rows: Vec<Vec<bool>>) -> (made: Option<Mask>)
        ensures
            made is Some <==> {
                let image = Seq::new(rows@.len(), |y: int| rows@[y]@);
                rectangular(image) && image.len() * width_of(image) <= usize::MAX
            },
            made matches Some(mask) ==> mask.wf() && mask@ == Seq::new(
                rows@.len(),
                |y: int| rows@[y]@,
            ),
    {
        let ghost image = Seq::new(rows@.len(), |y: int| rows@[y]@);
        if rows.len() == 0 {
            return Some(Mask { rows });
        }
        let width = rows[0].len();
        let mut y: usize = 1;
        while y < rows.len()
            invariant
                1 <= y <= rows.len(),
                width == rows[0].len(),
                image == Seq::new(rows@.len(), |y: int| rows@[y]@),
                forall|k: int| 0 <= k < y ==> (#[trigger] image[k]).len() == width,
            decreases rows.len() - y,
        {
            if rows[y].len() != width {
                assert(image[y as int].len() != image[0].len());
                return None;
            }
            y += 1;
        }
        match rows.len().checked_mul(width) {
            Some(_) => Some(Mask { rows }),
            None => None,
        }
    }

    /// The number of rows.
    pub fn height(&self) -> (h: usize)
        ensures
            h == self@.len(),
    {
        self.rows.len()
    }

    /// The number of columns.
    pub fn width(&self) -> (w: usize)
        ensures
            w == width_of(self@),
    {
        if self.rows.len() == 0 {
            0
        } else {
            self.rows[0].len()
        }
    }

    /// Whether the cell in column `x` of row `y` is bright. A cell outside
    /// the mask is not.
    pub fn get(&self, x: usize, y: usize) -> (bright: bool)
        ensures
            bright == has_tone(self@, true, (x as int, y as int)),
    {
        y < self.rows.len() && x < self.rows[y].len() && self.rows[y][x]
    }

    /// A mask of the shape of `self` with every cell dark.
    pub(crate) fn blank_like(&self) -> (blank: Mask)
        requires
            self.wf(),
        ensures
            blank.wf(),
            same_shape(self@, blank@),
            forall|cell: Cell| !#[trigger] has_tone(blank@, true, cell),
    {
        let height = self.rows.len();
        let width = self.width();
        let mut rows: Vec<Vec<bool>> = Vec::new();
        let mut y: usize = 0;
        while y < height
            invariant
                y <= height,
                rows@.len() == y,
                forall|k: int| 0 <= k < y ==> (#[trigger] rows@[k])@.len() == width,
                forall|k: int, x: int| 0 <= k < y && 0 <= x < width ==> !(#[trigger] rows@[k]@[x]),
            decreases height - y,
        {
            let mut row: Vec<bool> = Vec::new();
            let mut x: usize = 0;
            while x < width
                invariant
                    x <= width,
                    row@.len() == x,
                    forall|k: int| 0 <= k < x ==> !row@[k],
                decreases width - x,
            {
                row.push(false);
                x += 1;
            }
            rows.push(row);
            y += 1;
        }
        let blank = Mask { rows };
        assert(forall|k: int| 0 <= k < self@.len() ==> (#[trigger] self@[k]).len() == width);
        assert(forall|k: int| 0 <= k < blank@.len() ==> (#[trigger] blank@[k]).len() == width);
        blank
    }

    /// Marks the cell in column `x` of row `y`.
    pub(crate) fn mark(&mut self, x: usize, y: usize)
        requires
            inside(old(self)@, (x as int, y as int)),
        ensures
            final(self)@ == old(self)@.update(
                y as int,
                old(self)@[y as int].update(x as int, true),
            ),
            same_shape(old(self)@, final(self)@),
            forall|cell: Cell| #[trigger]
                has_tone(final(self)@, true, cell) <==> has_tone(old(self)@, true, cell) || cell
                    == (x as int, y as int),
    {
        self.rows[y][x] = true;
        assert(self@ =~= old(self)@.update(
            y as int,
            old(self)@[y as int].update(x as int, true),
        ));
    }

    /// Whether the cell in column `x` of row `y` is bright.
    pub(crate) fn at(&self, x: usize, y: usize) -> (bright: bool)
        requires
            inside(self@, (x as int, y as int)),
        ensures
            bright == self@[y as int][x as int],
    {
        self.rows[y][x]
    }

    /// The number of external bright regions: those that no other region
    /// encloses. A region inside a hole of another one is not counted, and a
    /// region is counted once whatever its size and however many holes it
    /// has.
    pub fn count_external(&self) -> (count: usize)
        requires
            self.wf(),
        ensures
            count == external_regions(self@),
            external_leaders(self@).finite(),
    {
        proof {
            lemma_regions_are_countable(self@);
        }
        count_regions(self)
    }
}

} // verus!
