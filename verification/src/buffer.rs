//! The pixel grid that the maze is carved into and walked on.
//!
//! A buffer is modelled as a sequence of rows, each row a sequence of
//! colors: `buffer@[y][x]` is the color of the cell in column `x` of row `y`.

use vstd::prelude::*;

verus! {

/// Whether `(x, y)` names a cell of the grid `g`.
pub open spec fn in_grid(g: Seq<Seq<u32>>, x: int, y: int) -> bool {
    0 <= y < g.len() && 0 <= x < g[y].len()
}

/// Whether `g` has `height` rows of `width` cells each.
pub open spec fn rectangular(g: Seq<Seq<u32>>, width: int, height: int) -> bool {
    &&& g.len() == height
    &&& forall|y: int| 0 <= y < height ==> (#[trigger] g[y]).len() == width
}

/// The grid of the given size whose cells all have the same color.
pub open spec fn uniform(width: int, height: int, color: u32) -> Seq<Seq<u32>> {
    Seq::new(height as nat, |y: int| Seq::new(width as nat, |x: int| color))
}

/// The grid `g` with the cell `(x, y)` set to `color`.
pub open spec fn painted(g: Seq<Seq<u32>>, x: int, y: int, color: u32) -> Seq<Seq<u32>> {
    g.update(y, g[y].update(x, color))
}

/// What a bounds-checked probe of `(x, y)` finds: the color of the cell,
/// or nothing when the coordinates fall outside the grid.
pub open spec fn lookup(g: Seq<Seq<u32>>, x: int, y: int) -> Option<u32> {
    if in_grid(g, x, y) {
        Some(g[y][x])
    } else {
        None
    }
}

/// A probe finds a cell exactly when both coordinates lie inside the
/// rectangle: one step off any edge or corner it finds nothing.
pub proof fn lemma_lookup_inside_only(g: Seq<Seq<u32>>, width: int, height: int, x: int, y: int)
    requires
        rectangular(g, width, height),
    ensures
        lookup(g, x, y) is Some <==> 0 <= x < width && 0 <= y < height,
        lookup(g, -1, y) is None,
        lookup(g, x, -1) is None,
        lookup(g, width, y) is None,
        lookup(g, x, height) is None,
{
}

/// The cells of a grid laid out row after row.
pub open spec fn row_major(g: Seq<Seq<u32>>, width: int, height: int) -> Seq<u32> {
    Seq::new((width * height) as nat, |i: int| g[i / width][i % width])
}

/// The cell `(x, y)` of a rectangle is stored at a place of its own inside
/// the row-after-row layout.
proof fn lemma_index_in_range(width: int, height: int, x: int, y: int)
    requires
        0 <= x < width,
        0 <= y < height,
    ensures
        0 <= y * width + x < width * height,
        (y * width + x) / width == y,
        (y * width + x) % width == x,
{
    assert(0 <= y * width) by (nonlinear_arith)
        requires
            0 <= y,
            0 <= width,
    ;
    assert(y * width + width <= width * height) by (nonlinear_arith)
        requires
            0 <= y < height,
            0 <= width,
    ;
    vstd::arithmetic::div_mod::lemma_fundamental_div_mod_converse(y * width + x, width, y, x);
}

/// Every place of the row-after-row layout holds one cell of the
/// rectangle.
proof fn lemma_index_split(width: int, height: int, i: int)
    requires
        0 <= i < width * height,
        0 <= height,
    ensures
        0 <= i % width < width,
        0 <= i / width < height,
        (i / width) * width + i % width == i,
{
    assert(width > 0) by (nonlinear_arith)
        requires
            0 <= i < width * height,
            0 <= height,
    ;
    vstd::arithmetic::div_mod::lemma_fundamental_div_mod(i, width);
    vstd::arithmetic::div_mod::lemma_mod_bound(i, width);
    let q = i / width;
    let r = i % width;
    assert(i == width * q + r);
    assert(width * q == q * width) by (nonlinear_arith);
    assert(0 <= q < height) by (nonlinear_arith)
        requires
            0 <= i < width * height,
            i == width * q + r,
            0 <= r < width,
            0 <= height,
    ;
}

/// A rectangular grid of colors, stored row after row.
pub struct WindowBuffer {
    width: usize,
    height: usize,
    cells: Vec<u32>,
}

impl View for WindowBuffer {
    type V = Seq<Seq<u32>>;

    closed spec fn view(&self) -> Seq<Seq<u32>> {
        Seq::new(
            self.height as nat,
            |y: int| Seq::new(self.width as nat, |x: int| self.stored(x, y)),
        )
    }
}

impl WindowBuffer {
    /// The storage holds exactly one color for each cell.
    #[verifier::type_invariant]
    spec fn stored_whole(&self) -> bool {
        self.cells.len() == self.width * self.height
    }

    /// The color stored for the cell `(x, y)`.
    spec fn stored(&self, x: int, y: int) -> u32 {
        self.cells@[y * self.width + x]
    }

    /// The number of columns.
    pub closed spec fn spec_width(&self) -> usize {
        self.width
    }

    /// The number of rows.
    pub closed spec fn spec_height(&self) -> usize {
        self.height
    }

    /// Every buffer is a rectangle of its width and height.
    pub proof fn lemma_rectangular(&self)
        ensures
            rectangular(self@, self.width() as int, self.height() as int),
    {
    }

    /// A buffer of the given size with every cell set to 0.
    pub fn new(width: usize, height: usize) -> (buffer: WindowBuffer)
        requires
            width * height <= usize::MAX,
        ensures
            buffer.width() == width,
            buffer.height() == height,
            buffer@ == uniform(width as int, height as int, 0),
    {
        let cells: Vec<u32> = vec![0u32; width * height];
        let buffer = WindowBuffer { width, height, cells };
        assert(buffer@ =~~= uniform(width as int, height as int, 0)) by {
            assert forall|x: int, y: int| 0 <= x < width && 0 <= y < height implies #[trigger]
                buffer.stored(x, y) == 0 by {
                lemma_index_in_range(width as int, height as int, x, y);
            }
        }
        buffer
    }

    /// The number of columns.
    #[verifier::when_used_as_spec(spec_width)]
    pub fn width(&self) -> (w: usize)
        ensures
            w == self.width(),
    {
        self.width
    }

    /// The number of rows.
    #[verifier::when_used_as_spec(spec_height)]
    pub fn height(&self) -> (h: usize)
        ensures
            h == self.height(),
    {
        self.height
    }

    /// Probes the cell at signed coordinates: its color, or nothing when
    /// the coordinates fall outside the buffer.
    pub fn get(&self, x: isize, y: isize) -> (found: Option<u32>)
        ensures
            found == lookup(self@, x as int, y as int),
    {
        proof {
            use_type_invariant(self);
        }
        if x < 0 || y < 0 {
            return None;
        }
        let (ux, uy) = (x as usize, y as usize);
        if ux >= self.width || uy >= self.height {
            return None;
        }
        proof {
            lemma_index_in_range(self.width as int, self.height as int, ux as int, uy as int);
        }
        Some(self.cells[uy * self.width + ux])
    }

    /// The color of a cell that lies inside the buffer.
    pub fn at(&self, cell: (usize, usize)) -> (color: u32)
        requires
            in_grid(self@, cell.0 as int, cell.1 as int),
        ensures
            color == self@[cell.1 as int][cell.0 as int],
    {
        proof {
            use_type_invariant(self);
            lemma_index_in_range(self.width as int, self.height as int, cell.0 as int, cell.1 as int);
        }
        self.cells[cell.1 * self.width + cell.0]
    }

    /// Sets the color of a cell that lies inside the buffer.
    pub fn set(&mut self, cell: (usize, usize), color: u32)
        requires
            in_grid(old(self)@, cell.0 as int, cell.1 as int),
        ensures
            final(self).width() == old(self).width(),
            final(self).height() == old(self).height(),
            final(self)@ == painted(old(self)@, cell.0 as int, cell.1 as int, color),
    {
        proof {
            use_type_invariant(&*self);
            lemma_index_in_range(self.width as int, self.height as int, cell.0 as int, cell.1 as int);
        }
        let i: usize = cell.1 * self.width + cell.0;
        self.cells[i] = color;
        proof {
            let w = self.width as int;
            let h = self.height as int;
            assert forall|x: int, y: int| 0 <= x < w && 0 <= y < h implies #[trigger] self.stored(
                x,
                y,
            ) == painted(old(self)@, cell.0 as int, cell.1 as int, color)[y][x] by {
                lemma_index_in_range(w, h, x, y);
            }
            assert(self@ =~~= painted(old(self)@, cell.0 as int, cell.1 as int, color));
        }
    }

    /// Sets every cell to `color`.
    pub fn fill(&mut self, color: u32)
        ensures
            final(self).width() == old(self).width(),
            final(self).height() == old(self).height(),
            final(self)@ == uniform(old(self).width() as int, old(self).height() as int, color),
    {
        proof {
            use_type_invariant(&*self);
        }
        let n: usize = self.cells.len();
        let mut i: usize = 0;
        while i < n
            invariant
                i <= n,
                n == self.cells@.len(),
                n == self.width * self.height,
                self.width == old(self).width,
                self.height == old(self).height,
                forall|j: int| 0 <= j < i ==> self.cells@[j] == color,
            decreases n - i,
        {
            self.cells[i] = color;
            i += 1;
        }
        proof {
            let w = self.width as int;
            let h = self.height as int;
            assert forall|x: int, y: int| 0 <= x < w && 0 <= y < h implies #[trigger] self.stored(
                x,
                y,
            ) == color by {
                lemma_index_in_range(w, h, x, y);
            }
            assert(self@ =~~= uniform(w, h, color));
        }
    }

    /// The cells row after row, as a display surface takes them.
    pub fn pixels(&self) -> (cells: &Vec<u32>)
        ensures
            cells@ == row_major(self@, self.width() as int, self.height() as int),
    {
        proof {
            use_type_invariant(self);
            let w = self.width as int;
            let h = self.height as int;
            assert forall|i: int| 0 <= i < w * h implies self.cells@[i] == self@[i / w][i % w] by {
                lemma_index_split(w, h, i);
            }
            assert(self.cells@ =~= row_major(self@, w, h));
        }
        &self.cells
    }
}

} // verus!
