use vstd::prelude::*;

verus! {

/// Identifier of a page; `0` is reserved as the invalid sentinel.
pub type PageID = u32;

/// Size in bytes of one page on disk and of one frame in memory.
pub const FRAME_SIZE: u64 = 4096;

/// Abstract view of a frame.
pub struct FrameView {
    pub page_id: PageID,
    pub offset: int,
    pub content: Seq<u8>,
    pub dirty: bool,
    pub pin_count: nat,
}

/// In-memory image of one page of the database file.
#[derive(Debug)]
pub struct Frame {
    pub page_id: PageID,
    pub dirty: bool,
    pub offset: u64,
    pub cursor: usize,
    pub content: Vec<u8>,
    pub pin_count: u32,
}

impl View for Frame {
    type V = FrameView;

    open spec fn view(&self) -> FrameView {
        FrameView {
            page_id: self.page_id,
            offset: self.offset as int,
            content: self.content@,
            dirty: self.dirty,
            pin_count: self.pin_count as nat,
        }
    }
}

impl Frame {
    /// A frame is well formed when it holds exactly one page of bytes.
    pub open spec fn wf(&self) -> bool {
        &&& self.content@.len() == FRAME_SIZE
        &&& self.cursor <= FRAME_SIZE
    }

    /// A clean, unpinned frame holding `content` for the page at `offset`.
    pub fn new(page_id: PageID, offset: u64, content: Vec<u8>) -> (r: Frame)
        ensures
            r.page_id == page_id,
            r.offset == offset,
            r.content@ == content@,
            r.cursor == 0,
            !r.dirty,
            r.pin_count == 0,
    {
        Frame { page_id, offset, content, cursor: 0, dirty: false, pin_count: 0 }
    }

    /// A copy of the frame's bytes.
    pub fn copy_content(&self) -> (r: Vec<u8>)
        ensures
            r@ == self.content@,
    {
        let mut r: Vec<u8> = Vec::with_capacity(self.content.len());
        let mut i: usize = 0;
        while i < self.content.len()
            invariant
                i <= self.content@.len(),
                r@ == self.content@.subrange(0, i as int),
            decreases self.content@.len() - i,
        {
            r.push(self.content[i]);
            i = i + 1;
            assert(r@ =~= self.content@.subrange(0, i as int));
        }
        assert(r@ =~= self.content@);
        r
    }

    /// An independent copy of the whole frame.
    pub fn duplicate(&self) -> (r: Frame)
        ensures
            r@ == self@,
            r.cursor == self.cursor,
    {
        Frame {
            page_id: self.page_id,
            dirty: self.dirty,
            offset: self.offset,
            cursor: self.cursor,
            content: self.copy_content(),
            pin_count: self.pin_count,
        }
    }

    /// Copies bytes from the cursor on into the front of `buf`: as many as
    /// `buf` holds, at most to the end of the page. The rest of `buf` is
    /// left as it was. Returns the number of bytes copied.
    pub fn read(&self, buf: &mut Vec<u8>) -> (r: usize)
        requires
            self.wf(),
        ensures
            r == if old(buf)@.len() <= FRAME_SIZE - self.cursor {
                old(buf)@.len() as int
            } else {
                FRAME_SIZE - self.cursor
            },
            final(buf)@ == self.content@.subrange(self.cursor as int, self.cursor + r) + old(
                buf,
            )@.subrange(r as int, old(buf)@.len() as int),
    {
        let mut n = buf.len();
        let available = self.content.len() - self.cursor;
        if n > available {
            n = available;
        }
        let mut i: usize = 0;
        while i < n
            invariant
                self.wf(),
                n <= old(buf)@.len(),
                self.cursor + n <= self.content@.len(),
                0 <= i <= n,
                buf@.len() == old(buf)@.len(),
                buf@ == self.content@.subrange(self.cursor as int, self.cursor + i) + old(
                    buf,
                )@.subrange(i as int, old(buf)@.len() as int),
            decreases n - i,
        {
            buf.set(i, self.content[self.cursor + i]);
            i = i + 1;
            assert(buf@ =~= self.content@.subrange(self.cursor as int, self.cursor + i) + old(
                buf,
            )@.subrange(i as int, old(buf)@.len() as int));
        }
        n
    }
}

} // verus!
