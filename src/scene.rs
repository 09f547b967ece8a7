use vstd::prelude::*;
use crate::buffer::{covers, shown_rows, FrameBuffer};

verus! {

/// Two canvases: drawing goes to `write_buf`, which then trades places with
/// `read_buf`, the one on show.
#[derive(Debug)]
pub struct Scene {
    pub height: usize,
    pub width: usize,
    pub read_buf: FrameBuffer,
    pub write_buf: FrameBuffer,
}

impl Scene {
    /// Two blank canvases of `height` rows and `width` columns.
    pub fn new(height: usize, width: usize) -> (r: Scene)
        requires
            height * width <= usize::MAX,
        ensures
            r.height == height,
            r.width == width,
            r.read_buf.height == height && r.read_buf.width == width,
            r.write_buf.height == height && r.write_buf.width == width,
            r.read_buf.pixels@ == Seq::new((height * width) as nat, |i: int| ' '),
            r.write_buf.pixels@ == Seq::new((height * width) as nat, |i: int| ' '),
    {
        Scene {
            height,
            width,
            read_buf: FrameBuffer::new(height, width),
            write_buf: FrameBuffer::new(height, width),
        }
    }

    /// The text of the canvas on show.
    pub fn display(&self) -> (r: String)
        requires
            covers(self.read_buf),
        ensures
            r@ == shown_rows(self.read_buf, self.read_buf.height as nat),
    {
        self.read_buf.display()
    }

    /// Lets `f` draw on the back canvas, then puts it on show: the canvas shown is the
    /// back canvas as one call of `f` left it.
    pub fn draw<T>(&mut self, mut f: T)
        where
            T: FnMut(&mut FrameBuffer),
        requires
            forall|b: &mut FrameBuffer| call_requires(f, (b,)),
        ensures
            final(self).write_buf == old(self).read_buf,
            final(self).height == old(self).height,
            final(self).width == old(self).width,
            exists|b: &mut FrameBuffer|
                *b == old(self).write_buf && *final(b) == final(self).read_buf && call_ensures(f, (b,), ()),
    {
        f(&mut self.write_buf);
        self.swap();
    }

    fn swap(&mut self)
        ensures
            final(self).read_buf == old(self).write_buf,
            final(self).write_buf == old(self).read_buf,
            final(self).height == old(self).height,
            final(self).width == old(self).width,
    {
        std::mem::swap(&mut self.read_buf, &mut self.write_buf);
    }

    /// Shows a copy of the back canvas, keeping the back canvas as it is.
    pub fn swap_cloning(&mut self)
        ensures
            final(self).read_buf.height == old(self).write_buf.height,
            final(self).read_buf.width == old(self).write_buf.width,
            final(self).read_buf.pixels@ == old(self).write_buf.pixels@,
            final(self).write_buf == old(self).write_buf,
            final(self).height == old(self).height,
            final(self).width == old(self).width,
    {
        self.read_buf = self.write_buf.duplicate();
    }
}

impl Default for Scene {
    /// Two blank ten by ten canvases.
    fn default() -> (r: Scene)
        ensures
            r.height == 10,
            r.width == 10,
            r.read_buf.height == 10 && r.read_buf.width == 10,
            r.write_buf.height == 10 && r.write_buf.width == 10,
            r.read_buf.pixels@ == Seq::new(100, |i: int| ' '),
            r.write_buf.pixels@ == Seq::new(100, |i: int| ' '),
    {
        Scene::new(10, 10)
    }
}

impl std::ops::Deref for Scene {
    type Target = FrameBuffer;

    fn deref(&self) -> &FrameBuffer {
        &self.read_buf
    }
}

impl std::ops::DerefMut for Scene {
    fn deref_mut(&mut self) -> &mut FrameBuffer {
        &mut self.write_buf
    }
}

impl std::borrow::Borrow<FrameBuffer> for Scene {
    fn borrow(&self) -> &FrameBuffer {
        &self.read_buf
    }
}

impl std::borrow::BorrowMut<FrameBuffer> for Scene {
    fn borrow_mut(&mut self) -> &mut FrameBuffer {
        &mut self.write_buf
    }
}

impl AsRef<FrameBuffer> for Scene {
    fn as_ref(&self) -> &FrameBuffer {
        &self.read_buf
    }
}

impl AsMut<FrameBuffer> for Scene {
    fn as_mut(&mut self) -> &mut FrameBuffer {
        &mut self.write_buf
    }
}

} // verus!
