use vstd::prelude::*;
use crate::ascii_buffer::FrameBuffer;

verus! {

/// Two cell canvases: `read_buf` is drawn on and then traded with `write_buf`.
#[derive(Debug)]
pub struct Scene {
    pub read_buf: FrameBuffer,
    pub write_buf: FrameBuffer,
}

impl Scene {
    /// Two canvases of `height` rows and `width` columns, all cells dead.
    pub fn new(height: usize, width: usize) -> (r: Scene)
        requires
            height * width <= usize::MAX,
        ensures
            r.read_buf.rows() == height && r.read_buf.cols() == width,
            r.write_buf.rows() == height && r.write_buf.cols() == width,
            r.read_buf.cells() == Seq::new((height * width) as nat, |i: int| false),
            r.write_buf.cells() == Seq::new((height * width) as nat, |i: int| false),
    {
        Scene { read_buf: FrameBuffer::new(height, width), write_buf: FrameBuffer::new(height, width) }
    }

    /// The text of `read_buf`.
    pub fn display(&self) -> (r: String)
        requires
            self.read_buf.covered(),
        ensures
            r@ == self.read_buf.shown_rows(self.read_buf.rows()),
    {
        self.read_buf.draw()
    }

    /// Lets `f` draw on `read_buf`, then trades the two canvases: `write_buf` becomes
    /// `read_buf` as one call of `f` left it.
    pub fn draw<F>(&mut self, mut f: F)
        where
            F: FnMut(&mut FrameBuffer),
        requires
            forall|b: &mut FrameBuffer| call_requires(f, (b,)),
        ensures
            final(self).read_buf == old(self).write_buf,
            exists|b: &mut FrameBuffer|
                *b == old(self).read_buf && *final(b) == final(self).write_buf && call_ensures(f, (b,), ()),
    {
        f(&mut self.read_buf);
        self.swap();
    }

    fn swap(&mut self)
        ensures
            final(self).read_buf == old(self).write_buf,
            final(self).write_buf == old(self).read_buf,
    {
        std::mem::swap(&mut self.read_buf, &mut self.write_buf);
    }

    /// Makes `read_buf` a copy of `write_buf`.
    pub fn swap_cloning(&mut self)
        ensures
            final(self).read_buf.rows() == old(self).write_buf.rows(),
            final(self).read_buf.cols() == old(self).write_buf.cols(),
            final(self).read_buf.cells() == old(self).write_buf.cells(),
            final(self).write_buf == old(self).write_buf,
    {
        self.read_buf = self.write_buf.duplicate();
    }
}

impl Default for Scene {
    /// Two ten by ten canvases, all cells dead.
    fn default() -> (r: Scene)
        ensures
            r.read_buf.rows() == 10 && r.read_buf.cols() == 10,
            r.write_buf.rows() == 10 && r.write_buf.cols() == 10,
            r.read_buf.cells() == Seq::new(100, |i: int| false),
            r.write_buf.cells() == Seq::new(100, |i: int| false),
    {
        Scene { read_buf: FrameBuffer::default(), write_buf: FrameBuffer::default() }
    }
}

impl std::ops::Deref for Scene {
    type Target = FrameBuffer;

    fn deref(&self) -> &FrameBuffer {
        &self.read_buf
    }
}

impl std::ops::DerefMut for Scene {
    fn deref_mut(&mut self) -> &mut FrameBuffer {
        &mut self.write_buf
    }
}

impl std::borrow::Borrow<FrameBuffer> for Scene {
    fn borrow(&self) -> &FrameBuffer {
        &self.read_buf
    }
}

impl std::borrow::BorrowMut<FrameBuffer> for Scene {
    fn borrow_mut(&mut self) -> &mut FrameBuffer {
        &mut self.write_buf
    }
}

impl AsRef<FrameBuffer> for Scene {
    fn as_ref(&self) -> &FrameBuffer {
        &self.read_buf
    }
}

impl AsMut<FrameBuffer> for Scene {
    fn as_mut(&mut self) -> &mut FrameBuffer {
        &mut self.write_buf
    }
}

} // verus!
