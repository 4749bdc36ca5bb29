use vstd::prelude::*;

verus! {

/// The visitation matrix: for each cell of a `size_x` by `size_y` board,
/// the index of the move by which the tour left it, or `None` while the cell
/// is unvisited. Cells are stored row by row.
pub struct Matrix {
    size_x: u8,
    size_y: u8,
    values: Vec<Option<u8>>,
}

/// Row-major offset of `pos` on a board `width` cells wide.
pub open spec fn cell_index(width: int, pos: (int, int)) -> int {
    pos.1 * width + pos.0
}

/// Whether `pos` lies on a `width` by `height` board.
pub open spec fn on_board(width: int, height: int, pos: (int, int)) -> bool {
    0 <= pos.0 < width && 0 <= pos.1 < height
}

/// Cells on the board have offsets inside the storage, and distinct cells
/// have distinct offsets.
pub proof fn lemma_cell_index(width: int, height: int, p: (int, int), q: (int, int))
    requires
        on_board(width, height, p),
        on_board(width, height, q),
    ensures
        0 <= cell_index(width, p) < width * height,
        cell_index(width, p) == cell_index(width, q) ==> p == q,
{
    assert(0 <= p.1 * width) by (nonlinear_arith)
        requires
            0 <= p.1,
            0 < width,
    ;
    assert(p.1 * width + p.0 < width * height) by (nonlinear_arith)
        requires
            p.1 + 1 <= height,
            p.0 < width,
            0 <= p.0,
    ;
    if cell_index(width, p) == cell_index(width, q) {
        if p.1 < q.1 {
            assert(p.1 * width + width <= q.1 * width) by (nonlinear_arith)
                requires
                    p.1 + 1 <= q.1,
                    0 < width,
            ;
        } else if q.1 < p.1 {
            assert(q.1 * width + width <= p.1 * width) by (nonlinear_arith)
                requires
                    q.1 + 1 <= p.1,
                    0 < width,
            ;
        }
    }
}

impl Matrix {
    /// Board width.
    pub closed spec fn width(&self) -> int {
        self.size_x as int
    }

    /// Board height.
    pub closed spec fn height(&self) -> int {
        self.size_y as int
    }

    /// The cells, row by row.
    pub closed spec fn cells(&self) -> Seq<Option<u8>> {
        self.values@
    }

    /// One cell per board square.
    pub open spec fn wf(&self) -> bool {
        self.cells().len() == self.width() * self.height()
    }

    /// Whether `pos` lies on this board.
    pub open spec fn contains(&self, pos: (i16, i16)) -> bool {
        on_board(self.width(), self.height(), (pos.0 as int, pos.1 as int))
    }

    /// Storage offset of `pos`.
    pub open spec fn index_of(&self, pos: (i16, i16)) -> int {
        cell_index(self.width(), (pos.0 as int, pos.1 as int))
    }

    /// A `size_x` by `size_y` board with every cell unvisited.
    pub fn new(size_x: u8, size_y: u8) -> (r: Matrix)
        ensures
            r.wf(),
            r.width() == size_x as int,
            r.height() == size_y as int,
            forall|i: int| 0 <= i < r.cells().len() ==> r.cells()[i] is None,
    {
        assert(size_y as int * size_x as int <= 255 * 255) by (nonlinear_arith)
            requires
                size_y <= 255,
                size_x <= 255,
        ;
        let size: usize = size_y as usize * size_x as usize;
        let mut values: Vec<Option<u8>> = Vec::with_capacity(size);
        let mut i: usize = 0;
        while i < size
            invariant
                i <= size,
                values@.len() == i,
                forall|j: int| 0 <= j < i ==> values@[j] is None,
            decreases size - i,
        {
            values.push(None);
            i = i + 1;
        }
        assert(size as int == size_x as int * size_y as int) by (nonlinear_arith)
            requires
                size as int == size_y as int * size_x as int,
        ;
        Matrix { size_x, size_y, values }
    }

    /// Whether both coordinates of `pos` fall inside the board.
    pub fn is_in_bounds(&self, pos: (i16, i16)) -> (r: bool)
        ensures
            r == self.contains(pos),
    {
        pos.0 >= 0 && pos.0 < self.size_x as i16 && pos.1 >= 0 && pos.1 < self.size_y as i16
    }

    /// The exit move recorded for `pos`, or `None` if it is unvisited.
    pub fn get(&self, pos: (i16, i16)) -> (r: Option<u8>)
        requires
            self.wf(),
            self.contains(pos),
        ensures
            r == self.cells()[self.index_of(pos)],
    {
        let index = self.to_index(pos);
        self.values[index]
    }

    /// Marks `pos` as left by move `value`.
    pub fn set(&mut self, pos: (i16, i16), value: u8)
        requires
            old(self).wf(),
            old(self).contains(pos),
        ensures
            final(self).width() == old(self).width(),
            final(self).height() == old(self).height(),
            final(self).cells() == old(self).cells().update(old(self).index_of(pos), Some(value)),
    {
        let index = self.to_index(pos);
        self.values.set(index, Some(value));
    }

    /// Marks `pos` as unvisited again.
    pub fn reset(&mut self, pos: (i16, i16))
        requires
            old(self).wf(),
            old(self).contains(pos),
        ensures
            final(self).width() == old(self).width(),
            final(self).height() == old(self).height(),
            final(self).cells() == old(self).cells().update(old(self).index_of(pos), None),
    {
        let index = self.to_index(pos);
        self.values.set(index, None);
    }

    /// A copy of the cells, row by row.
    pub fn values(&self) -> (r: Vec<Option<u8>>)
        ensures
            r@ == self.cells(),
    {
        let mut r: Vec<Option<u8>> = Vec::with_capacity(self.values.len());
        let mut i: usize = 0;
        while i < self.values.len()
            invariant
                i <= self.values@.len(),
                r@ == self.values@.subrange(0, i as int),
            decreases self.values@.len() - i,
        {
            r.push(self.values[i]);
            i = i + 1;
            assert(r@ =~= self.values@.subrange(0, i as int));
        }
        assert(r@ =~= self.values@);
        r
    }

    fn to_index(&self, pos: (i16, i16)) -> (r: usize)
        requires
            self.wf(),
            self.contains(pos),
        ensures
            r as int == self.index_of(pos),
            r < self.cells().len(),
    {
        proof {
            lemma_cell_index(self.width(), self.height(), (pos.0 as int, pos.1 as int), (pos.0 as int, pos.1 as int));
            assert(self.values@.len() == self.cells().len());
            assert(pos.1 as int * self.size_x as int <= 255 * 255) by (nonlinear_arith)
                requires
                    0 <= pos.1 < 256,
                    self.size_x <= 255,
            ;
        }
        pos.1 as usize * self.size_x as usize + pos.0 as usize
    }
}

} // verus!
