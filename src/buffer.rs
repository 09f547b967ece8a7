use vstd::prelude::*;
use crate::text::string_of;

verus! {

/// A character canvas of `height` rows and `width` columns. The cell at `(row, col)`
/// is `pixels[row * height + col]`.
#[derive(Debug, Clone)]
pub struct FrameBuffer {
    pub height: usize,
    pub width: usize,
    pub pixels: Vec<char>,
}

/// Where the cell at `(row, col)` is stored.
pub open spec fn slot(height: nat, row: nat, col: nat) -> nat {
    row * height + col
}

/// Every cell that `display` shows is stored.
pub open spec fn covers(b: FrameBuffer) -> bool {
    forall|row: nat, col: nat|
        row < b.height && col < b.width ==> #[trigger] slot(b.height as nat, row, col) < b.pixels@.len()
}

/// The first `rows` rows of the canvas as text, each ended by a newline.
pub open spec fn shown_rows(b: FrameBuffer, rows: nat) -> Seq<char>
    decreases rows,
{
    if rows == 0 {
        seq![]
    } else {
        shown_rows(b, (rows - 1) as nat) + Seq::new(
            b.width as nat,
            |c: int| b.pixels@[slot(b.height as nat, (rows - 1) as nat, c as nat) as int],
        ).push('\n')
    }
}

/// Sets every entry of `v` to `c`.
fn fill_all<T: Copy>(v: &mut Vec<T>, c: T)
    ensures
        final(v)@ == Seq::new(old(v)@.len(), |i: int| c),
{
    let mut i: usize = 0;
    while i < v.len()
        invariant
            i <= v@.len(),
            v@.len() == old(v)@.len(),
            forall|k: int| 0 <= k < i ==> v@[k] == c,
        decreases v@.len() - i,
    {
        v.set(i, c);
        i += 1;
    }
    assert(v@ =~= Seq::new(old(v)@.len(), |i: int| c));
}

impl FrameBuffer {
    /// A blank canvas: `height * width` spaces.
    pub fn new(height: usize, width: usize) -> (r: FrameBuffer)
        requires
            height * width <= usize::MAX,
        ensures
            r.height == height,
            r.width == width,
            r.pixels@ == Seq::new((height * width) as nat, |i: int| ' '),
    {
        let size = height * width;
        let mut pixels: Vec<char> = Vec::new();
        let mut i: usize = 0;
        while i < size
            invariant
                i <= size,
                pixels@ == Seq::new(i as nat, |k: int| ' '),
            decreases size - i,
        {
            pixels.push(' ');
            i += 1;
            assert(pixels@ =~= Seq::new(i as nat, |k: int| ' '));
        }
        FrameBuffer { height, width, pixels }
    }

    /// The text the canvas shows: its rows top to bottom, each ended by a newline.
    pub fn display(&self) -> (r: String)
        requires
            covers(*self),
        ensures
            r@ == shown_rows(*self, self.height as nat),
    {
        let mut out: Vec<char> = Vec::new();
        let stored = self.pixels.len();
        let mut row: usize = 0;
        while row < self.height
            invariant
                covers(*self),
                stored == self.pixels@.len(),
                row <= self.height,
                out@ == shown_rows(*self, row as nat),
            decreases self.height - row,
        {
            let ghost before = out@;
            let mut col: usize = 0;
            while col < self.width
                invariant
                    covers(*self),
                    stored == self.pixels@.len(),
                    row < self.height,
                    col <= self.width,
                    out@ == before + Seq::new(
                        col as nat,
                        |c: int| self.pixels@[slot(self.height as nat, row as nat, c as nat) as int],
                    ),
                decreases self.width - col,
            {
                assert(slot(self.height as nat, row as nat, col as nat) < self.pixels@.len());
                assert(slot(self.height as nat, row as nat, col as nat) == row as int * self.height as int + col as int);
        assert(row as int * self.height as int + col as int <= usize::MAX);
                out.push(self.pixels[row * self.height + col]);
                col += 1;
                assert(out@ =~= before + Seq::new(
                    col as nat,
                    |c: int| self.pixels@[slot(self.height as nat, row as nat, c as nat) as int],
                ));
            }
            out.push('\n');
            row += 1;
            assert(out@ =~= shown_rows(*self, row as nat));
        }
        string_of(&out)
    }

    /// The character stored for `(row, col)`, if the storage reaches that far.
    pub fn get(&self, row: usize, col: usize) -> (r: Option<&char>)
        requires
            slot(self.height as nat, row as nat, col as nat) <= usize::MAX,
        ensures
            ({
                let i = slot(self.height as nat, row as nat, col as nat);
                if i < self.pixels@.len() {
                    r == Some(&self.pixels@[i as int])
                } else {
                    r is None
                }
            }),
    {
        assert(slot(self.height as nat, row as nat, col as nat) == row as int * self.height as int + col as int);
        assert(row as int * self.height as int + col as int <= usize::MAX);
        let i = row * self.height + col;
        if i < self.pixels.len() {
            Some(&self.pixels[i])
        } else {
            None
        }
    }

    /// Writes `c` at `(row, col)`.
    pub fn set(&mut self, row: usize, col: usize, c: char)
        requires
            slot(old(self).height as nat, row as nat, col as nat) < old(self).pixels@.len(),
        ensures
            final(self).height == old(self).height,
            final(self).width == old(self).width,
            final(self).pixels@ == old(self).pixels@.update(
                slot(old(self).height as nat, row as nat, col as nat) as int,
                c,
            ),
    {
        // The length read here bounds the index arithmetic below.
        let _len = self.pixels.len();
        assert(slot(self.height as nat, row as nat, col as nat) == row as int * self.height as int + col as int);
        let i = row * self.height + col;
        self.pixels.set(i, c);
    }

    /// Writes `c` everywhere.
    pub fn fill(&mut self, c: char)
        ensures
            final(self).height == old(self).height,
            final(self).width == old(self).width,
            final(self).pixels@ == Seq::new(old(self).pixels@.len(), |i: int| c),
    {
        fill_all(&mut self.pixels, c);
    }

    /// Blanks the canvas.
    pub fn clear(&mut self)
        ensures
            final(self).height == old(self).height,
            final(self).width == old(self).width,
            final(self).pixels@ == Seq::new(old(self).pixels@.len(), |i: int| ' '),
    {
        self.fill(' ');
    }

    /// A canvas with the same size and contents.
    pub fn duplicate(&self) -> (r: FrameBuffer)
        ensures
            r.height == self.height,
            r.width == self.width,
            r.pixels@ == self.pixels@,
    {
        let pixels = self.pixels.clone();
        assert(pixels@ =~= self.pixels@);
        FrameBuffer { height: self.height, width: self.width, pixels }
    }
}

impl Default for FrameBuffer {
    /// A blank ten by ten canvas.
    fn default() -> (r: FrameBuffer)
        ensures
            r.height == 10,
            r.width == 10,
            r.pixels@ == Seq::new(100, |i: int| ' '),
    {
        FrameBuffer::new(10, 10)
    }
}

} // verus!
