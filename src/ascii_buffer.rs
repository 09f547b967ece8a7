use vstd::prelude::*;
use crate::buffer::slot;
use crate::text::string_of;

verus! {

/// A canvas of live and dead cells, `height` rows of `width`. The cell at
/// `(row, col)` is `pixels[row * height + col]`.
#[derive(Debug, Clone)]
pub struct FrameBuffer {
    height: usize,
    width: usize,
    pixels: Vec<bool>,
}

/// The glyph of a cell: two spaces on a white background when set, on black when not.
pub open spec fn glyph(on: bool) -> Seq<char> {
    seq!['\x1B', '[', '4', if on { '7' } else { '0' }, 'm', ' ', ' ', '\x1B', '[', '0', 'm']
}

fn push_glyph(out: &mut Vec<char>, on: bool)
    ensures
        final(out)@ == old(out)@ + glyph(on),
{
    out.push('\x1B');
    out.push('[');
    out.push('4');
    out.push(if on { '7' } else { '0' });
    out.push('m');
    out.push(' ');
    out.push(' ');
    out.push('\x1B');
    out.push('[');
    out.push('0');
    out.push('m');
    assert(out@ =~= old(out)@ + glyph(on));
}

/// The glyphs of `cells`, in order.
pub open spec fn glyphs(cells: Seq<bool>) -> Seq<char>
    decreases cells.len(),
{
    if cells.len() == 0 {
        seq![]
    } else {
        glyphs(cells.drop_last()) + glyph(cells.last())
    }
}

impl FrameBuffer {
    pub closed spec fn rows(&self) -> nat {
        self.height as nat
    }

    pub closed spec fn cols(&self) -> nat {
        self.width as nat
    }

    pub closed spec fn cells(&self) -> Seq<bool> {
        self.pixels@
    }

    /// The cells of row `row` as `draw` shows them.
    pub closed spec fn row_cells(&self, row: nat) -> Seq<bool> {
        Seq::new(self.width as nat, |c: int| self.pixels@[slot(self.height as nat, row, c as nat) as int])
    }

    /// The first `rows` rows as `draw` shows them, each ended by a newline.
    pub open spec fn shown_rows(&self, rows: nat) -> Seq<char>
        decreases rows,
    {
        if rows == 0 {
            seq![]
        } else {
            self.shown_rows((rows - 1) as nat) + glyphs(self.row_cells((rows - 1) as nat)).push('\n')
        }
    }

    /// Every cell that `draw` shows is stored.
    pub closed spec fn covered(&self) -> bool {
        forall|row: nat, col: nat|
            row < self.height && col < self.width ==> #[trigger] slot(self.height as nat, row, col)
                < self.pixels@.len()
    }

    /// A canvas of `height` rows and `width` columns, all cells dead.
    pub fn new(height: usize, width: usize) -> (r: FrameBuffer)
        requires
            height * width <= usize::MAX,
        ensures
            r.rows() == height,
            r.cols() == width,
            r.cells() == Seq::new((height * width) as nat, |i: int| false),
    {
        let size = height * width;
        let mut pixels: Vec<bool> = Vec::new();
        let mut i: usize = 0;
        while i < size
            invariant
                i <= size,
                pixels@ == Seq::new(i as nat, |k: int| false),
            decreases size - i,
        {
            pixels.push(false);
            i += 1;
            assert(pixels@ =~= Seq::new(i as nat, |k: int| false));
        }
        FrameBuffer { height, width, pixels }
    }

    /// The same canvas with every cell dead.
    pub fn clear(self) -> (r: FrameBuffer)
        ensures
            r.rows() == self.rows(),
            r.cols() == self.cols(),
            r.cells() == Seq::new(self.cells().len(), |i: int| false),
    {
        let mut b = self;
        let n = b.pixels.len();
        let mut i: usize = 0;
        while i < n
            invariant
                n == b.pixels@.len(),
                b.height == self.height,
                b.width == self.width,
                i <= n,
                forall|k: int| 0 <= k < i ==> b.pixels@[k] == false,
            decreases n - i,
        {
            b.pixels.set(i, false);
            i += 1;
        }
        assert(b.pixels@ =~= Seq::new(n as nat, |i: int| false));
        b
    }

    /// The canvas as text: a glyph per cell, each row ended by a newline.
    pub fn draw(&self) -> (r: String)
        requires
            self.covered(),
        ensures
            r@ == self.shown_rows(self.rows()),
    {
        let mut out: Vec<char> = Vec::new();
        let stored = self.pixels.len();
        let mut row: usize = 0;
        while row < self.height
            invariant
                self.covered(),
                stored == self.pixels@.len(),
                row <= self.height,
                out@ == self.shown_rows(row as nat),
            decreases self.height - row,
        {
            let ghost before = out@;
            let ghost cells = self.row_cells(row as nat);
            let mut col: usize = 0;
            while col < self.width
                invariant
                    self.covered(),
                    stored == self.pixels@.len(),
                    row < self.height,
                    col <= self.width,
                    cells == self.row_cells(row as nat),
                    out@ == before + glyphs(cells.subrange(0, col as int)),
                decreases self.width - col,
            {
                assert(slot(self.height as nat, row as nat, col as nat) < self.pixels@.len());
                assert(slot(self.height as nat, row as nat, col as nat) == row as int * self.height as int + col as int);
                let on = self.pixels[row * self.height + col];
                push_glyph(&mut out, on);
                proof {
                    let next = cells.subrange(0, col + 1);
                    assert(next.drop_last() =~= cells.subrange(0, col as int));
                    assert(next.last() == on);
                }
                col += 1;
            }
            assert(cells.subrange(0, col as int) =~= cells);
            out.push('\n');
            row += 1;
        }
        string_of(&out)
    }

    /// The same canvas with the cell at `(row, col)` flipped.
    pub fn toggle(self, row: usize, col: usize) -> (r: FrameBuffer)
        requires
            slot(self.rows(), row as nat, col as nat) < self.cells().len(),
        ensures
            r.rows() == self.rows(),
            r.cols() == self.cols(),
            r.cells() == self.cells().update(
                slot(self.rows(), row as nat, col as nat) as int,
                !self.cells()[slot(self.rows(), row as nat, col as nat) as int],
            ),
    {
        let mut b = self;
        // The length read here bounds the index arithmetic below.
        let _len = b.pixels.len();
        assert(slot(b.height as nat, row as nat, col as nat) == row as int * b.height as int + col as int);
        let i = row * b.height + col;
        let v = b.pixels[i];
        b.pixels.set(i, !v);
        b
    }

    /// A canvas with the same size and cells.
    pub fn duplicate(&self) -> (r: FrameBuffer)
        ensures
            r.rows() == self.rows(),
            r.cols() == self.cols(),
            r.cells() == self.cells(),
    {
        let pixels = self.pixels.clone();
        assert(pixels@ =~= self.pixels@);
        FrameBuffer { height: self.height, width: self.width, pixels }
    }
}

impl Default for FrameBuffer {
    /// A ten by ten canvas, all cells dead.
    fn default() -> (r: FrameBuffer)
        ensures
            r.rows() == 10,
            r.cols() == 10,
            r.cells() == Seq::new(100, |i: int| false),
    {
        FrameBuffer::new(10, 10)
    }
}

} // verus!
