use vstd::prelude::*;

use crate::cache::{distinct_pages, has_page, victim, Cache};
use crate::directory::{is_slot, PageDirector};
use crate::page::{Frame, FrameView, PageID, FRAME_SIZE};

verus! {

/// Failure of a disk manager operation.
#[derive(Debug, Clone, Copy, PartialEq, Eq, Structural)]
pub enum Error {
    /// The directory has no live page with this identifier.
    PageNotFound,
    /// The cache is full and every frame in it is pinned.
    NoEvictableFrame,
    /// The page is live but its frame is not in the cache: it has to be
    /// fetched from the file and installed first.
    NotResident,
}

/// What has to happen before a live page can be served from the cache.
#[derive(Debug, Clone, Copy, PartialEq, Eq, Structural)]
pub enum Load {
    /// The frame is cached; it is now the most recently used.
    Cached,
    /// The page's 4096 bytes must be read at this offset and installed.
    Fetch(u64),
    /// No live page has this identifier.
    Missing,
}

/// A page handed out by `new_page`. When `extend` is set the file must first
/// grow by one page so that `offset` lies inside it.
#[derive(Debug, Clone, Copy, PartialEq, Eq, Structural)]
pub struct NewPage {
    pub page_id: PageID,
    pub offset: u64,
    pub extend: bool,
}

/// Bytes to be written at an offset of the file.
pub struct PageWrite {
    pub offset: u64,
    pub content: Vec<u8>,
}

/// Abstract state of a disk manager.
pub struct DiskView {
    /// Live pages and their offsets.
    pub live: Map<PageID, u64>,
    /// Offsets of deleted pages; the last one is reused first.
    pub free: Seq<u64>,
    /// Highest identifier handed out so far.
    pub highest: PageID,
    /// Length of the file in bytes.
    pub file_len: u64,
    /// Cached frames, most recently used first.
    pub frames: Seq<FrameView>,
    /// Most frames the cache holds.
    pub capacity: nat,
}

/// Position of the frame of page `p` in `s`, or `-1`.
pub open spec fn page_index(s: Seq<FrameView>, p: PageID) -> int {
    if has_page(s, p) {
        choose|k: int| 0 <= k < s.len() && s[k].page_id == p
    } else {
        -1
    }
}

/// `s` after the frame of `p`, if any, became the most recently used.
pub open spec fn touch(s: Seq<FrameView>, p: PageID) -> Seq<FrameView> {
    if has_page(s, p) {
        let k = page_index(s, p);
        seq![s[k]] + s.remove(k)
    } else {
        s
    }
}

impl DiskView {
    /// The invariant of a disk manager's state.
    pub open spec fn valid(self) -> bool {
        &&& self.file_len % FRAME_SIZE == 0
        &&& self.file_len <= FRAME_SIZE * self.highest
        &&& forall|o: u64|
            (self.live.values().contains(o) || self.free.contains(o)) <==> is_slot(
                o as int,
                self.file_len as int,
            )
        &&& forall|o: u64| #[trigger] self.live.values().contains(o) ==> !self.free.contains(o)
        &&& self.free.no_duplicates()
        &&& forall|p: PageID| #[trigger] self.live.contains_key(p) ==> 1 <= p <= self.highest
        &&& 1 <= self.capacity
        &&& self.frames.len() <= self.capacity
        &&& distinct_pages(self.frames)
        &&& forall|k: int|
            #![trigger self.frames[k]]
            0 <= k < self.frames.len() ==> {
                &&& self.frames[k].content.len() == FRAME_SIZE
                &&& self.live.contains_key(self.frames[k].page_id)
                &&& self.live[self.frames[k].page_id] == self.frames[k].offset
            }
    }

    /// Offset that the next `new_page` takes.
    pub open spec fn next_offset(self) -> u64 {
        if self.free.len() > 0 {
            self.free.last()
        } else {
            self.file_len
        }
    }

    /// State after `new_page`.
    pub open spec fn allocated(self) -> DiskView {
        let id = (self.highest + 1) as PageID;
        if self.free.len() > 0 {
            DiskView {
                live: self.live.insert(id, self.free.last()),
                free: self.free.drop_last(),
                highest: id,
                ..self
            }
        } else {
            DiskView {
                live: self.live.insert(id, self.file_len),
                highest: id,
                file_len: (self.file_len + FRAME_SIZE) as u64,
                ..self
            }
        }
    }

    /// What `load_frame` reports for page `p`.
    pub open spec fn load_outcome(self, p: PageID) -> Load {
        if has_page(self.frames, p) {
            Load::Cached
        } else if self.live.contains_key(p) {
            Load::Fetch(self.live[p])
        } else {
            Load::Missing
        }
    }

    /// State after the frame of `p`, if cached, became the most recently used.
    pub open spec fn touched(self, p: PageID) -> DiskView {
        DiskView { frames: touch(self.frames, p), ..self }
    }

    /// State after installing `content`, read from the file, as the frame of
    /// page `p`.
    pub open spec fn installed(self, p: PageID, content: Seq<u8>) -> DiskView {
        let fresh = FrameView {
            page_id: p,
            offset: self.live[p] as int,
            content,
            dirty: false,
            pin_count: 0,
        };
        if !self.live.contains_key(p) || has_page(self.frames, p) {
            self
        } else if self.frames.len() < self.capacity {
            DiskView { frames: seq![fresh] + self.frames, ..self }
        } else if victim(self.frames) >= 0 {
            DiskView { frames: seq![fresh] + self.frames.remove(victim(self.frames)), ..self }
        } else {
            self
        }
    }

    /// What `read_page` returns for page `p`.
    pub open spec fn read_outcome(self, p: PageID) -> Result<Seq<u8>, Error> {
        if has_page(self.frames, p) {
            Ok(self.frames[page_index(self.frames, p)].content)
        } else if self.live.contains_key(p) {
            Err(Error::NotResident)
        } else {
            Err(Error::PageNotFound)
        }
    }

    /// State after `write_page(p, b)`.
    pub open spec fn written(self, p: PageID, b: Seq<u8>) -> DiskView {
        if has_page(self.frames, p) {
            let t = touch(self.frames, p);
            DiskView { frames: t.update(0, FrameView { content: b, dirty: true, ..t[0] }), ..self }
        } else {
            self
        }
    }

    /// State after `delete_page(p)`.
    pub open spec fn deleted(self, p: PageID) -> DiskView {
        if self.live.contains_key(p) {
            DiskView {
                live: self.live.remove(p),
                free: self.free.push(self.live[p]),
                frames: if has_page(self.frames, p) {
                    self.frames.remove(page_index(self.frames, p))
                } else {
                    self.frames
                },
                ..self
            }
        } else {
            self
        }
    }

    /// The write that `flush_page(p)` asks for: offset and bytes of the frame
    /// of `p`, when it is cached and dirty.
    pub open spec fn pending_write(self, p: PageID) -> Option<(int, Seq<u8>)> {
        if has_page(self.frames, p) && self.frames[page_index(self.frames, p)].dirty {
            let f = self.frames[page_index(self.frames, p)];
            Some((f.offset, f.content))
        } else {
            None
        }
    }

    /// State once the frame of `p` is on disk.
    pub open spec fn flushed(self, p: PageID) -> DiskView {
        if has_page(self.frames, p) {
            let k = page_index(self.frames, p);
            DiskView {
                frames: self.frames.update(k, FrameView { dirty: false, ..self.frames[k] }),
                ..self
            }
        } else {
            self
        }
    }
}

pub proof fn lemma_page_index(s: Seq<FrameView>, p: PageID)
    ensures
        has_page(s, p) ==> 0 <= page_index(s, p) < s.len() && s[page_index(s, p)].page_id == p,
        !has_page(s, p) ==> page_index(s, p) == -1,
{
}

/// Placeholder for scheduling disk requests; it has no behaviour yet.
pub struct DiskScheduler {}

/// Couples the page directory and the frame cache. The file itself is
/// handled by the caller, who performs the reads and writes that the
/// manager's results call for.
pub struct DiskManager {
    page_directory: PageDirector,
    cache: Cache,
}

impl View for DiskManager {
    type V = DiskView;

    closed spec fn view(&self) -> DiskView {
        DiskView {
            live: self.page_directory.live(),
            free: self.page_directory.free(),
            highest: self.page_directory.highest(),
            file_len: self.page_directory.file_len(),
            frames: self.cache@,
            capacity: self.cache.capacity() as nat,
        }
    }
}

impl DiskManager {
    /// The manager's invariant: a valid directory and cache, and every cached
    /// frame belongs to a live page at that page's offset.
    pub closed spec fn wf(&self) -> bool {
        &&& self.page_directory.wf()
        &&& self.cache.wf()
        &&& forall|k: int|
            #![trigger self.cache@[k]]
            0 <= k < self.cache@.len() ==> {
                &&& self.page_directory.live().contains_key(self.cache@[k].page_id)
                &&& self.page_directory.live()[self.cache@[k].page_id] == self.cache@[k].offset
            }
    }

    /// The cache in use.
    pub closed spec fn frame_cache(&self) -> Cache {
        self.cache
    }

    pub proof fn lemma_valid(&self)
        requires
            self.wf(),
        ensures
            self@.valid(),
            self.frame_cache().wf(),
            self.frame_cache()@ == self@.frames,
    {
        self.cache.lemma_shape();
        let d = self.page_directory;
        assert forall|o: u64|
            (self@.live.values().contains(o) || self@.free.contains(o)) <==> is_slot(
                o as int,
                self@.file_len as int,
            ) by {
            assert(d.holds(o) <==> is_slot(o as int, d.file_len() as int));
        }
    }

    /// A manager with an empty directory and an empty cache of `max_frames`.
    pub fn new(max_frames: usize) -> (r: DiskManager)
        requires
            max_frames >= 1,
        ensures
            r.wf(),
            r@.live.is_empty(),
            r@.free.len() == 0,
            r@.highest == 0,
            r@.file_len == 0,
            r@.frames.len() == 0,
            r@.capacity == max_frames,
    {
        DiskManager { page_directory: PageDirector::new(), cache: Cache::new(max_frames) }
    }

    /// Cache capacity.
    pub fn size(&self) -> (r: usize)
        requires
            self.wf(),
        ensures
            r == self@.capacity,
    {
        self.cache.max_frames()
    }

    /// Length in bytes of the database file.
    pub fn get_db_size(&self) -> (r: u64)
        ensures
            r == self@.file_len,
    {
        self.page_directory.file_length()
    }

    /// Whether the next `new_page` grows the file: no freed offset is left
    /// to reuse.
    pub fn will_extend(&self) -> (r: bool)
        ensures
            r == (self@.free.len() == 0),
    {
        !self.page_directory.can_accomodate()
    }

    /// Highest identifier handed out so far; `new_page` needs it below
    /// `PageID::MAX`.
    pub fn highest_page_id(&self) -> (r: PageID)
        ensures
            r == self@.highest,
    {
        self.page_directory.highest_page_id()
    }

    /// The cache, to inspect.
    pub fn cache(&self) -> (r: &Cache)
        ensures
            *r == self.frame_cache(),
    {
        &self.cache
    }

    /// Gives out a new page: the most recently freed offset if there is one,
    /// else a new slot at the end of the file (`extend`). The page is not
    /// cached yet: its bytes are fetched and installed like any other page.
    pub fn new_page(&mut self) -> (r: NewPage)
        requires
            old(self).wf(),
            old(self)@.highest < PageID::MAX,
        ensures
            final(self).wf(),
            final(self)@ == old(self)@.allocated(),
            r.page_id == final(self)@.highest,
            r.offset == old(self)@.next_offset(),
            r.extend == (old(self)@.free.len() == 0),
    {
        let extend = !self.page_directory.can_accomodate();
        let ghost pre = *self;
        let (page_id, offset) = self.page_directory.register_new_page();
        proof {
            assert forall|k: int|
                #![trigger self.cache@[k]]
                0 <= k < self.cache@.len() implies {
                &&& self.page_directory.live().contains_key(self.cache@[k].page_id)
                &&& self.page_directory.live()[self.cache@[k].page_id] == self.cache@[k].offset
            } by {
                assert(pre.cache@[k] == self.cache@[k]);
                assert(self.cache@[k].page_id != page_id);
            }
        }
        NewPage { page_id, offset, extend }
    }

    /// First step of serving page `page_id`: reports whether its frame is
    /// cached (and makes it the most recently used), must be fetched from an
    /// offset of the file, or does not exist.
    pub fn load_frame(&mut self, page_id: PageID) -> (r: Load)
        requires
            old(self).wf(),
        ensures
            final(self).wf(),
            r == old(self)@.load_outcome(page_id),
            final(self)@ == old(self)@.touched(page_id),
    {
        let ghost pre = *self;
        proof {
            lemma_page_index(pre.cache@, page_id);
        }
        if self.cache.lookup_frame(page_id).is_some() {
            proof {
                self.lemma_touched(pre, page_id);
            }
            Load::Cached
        } else {
            match self.page_directory.query_page(page_id) {
                Some(o) => Load::Fetch(o),
                None => Load::Missing,
            }
        }
    }

    proof fn lemma_touched(&self, pre: DiskManager, page_id: PageID)
        requires
            pre.wf(),
            self.cache.wf(),
            self.page_directory == pre.page_directory,
            has_page(pre.cache@, page_id),
            self.cache@ == seq![pre.cache@[page_index(pre.cache@, page_id)]] + pre.cache@.remove(
                page_index(pre.cache@, page_id),
            ),
            self.cache.capacity() == pre.cache.capacity(),
        ensures
            self.wf(),
            self@ == pre@.touched(page_id),
    {
        lemma_page_index(pre.cache@, page_id);
        let k = page_index(pre.cache@, page_id);
        assert forall|j: int|
            #![trigger self.cache@[j]]
            0 <= j < self.cache@.len() implies {
            &&& self.page_directory.live().contains_key(self.cache@[j].page_id)
            &&& self.page_directory.live()[self.cache@[j].page_id] == self.cache@[j].offset
        } by {
            let i = if j == 0 { k } else if j - 1 < k { j - 1 } else { j };
            assert(self.cache@[j] == pre.cache@[i]);
        }
    }

    /// Installs `content`, read from the file at the page's offset, as the
    /// clean frame of live page `page_id` at the head of the cache. When the
    /// cache is full, the evicted frame is handed back: if it is dirty it has
    /// to be written out. A page that is already cached keeps its frame.
    pub fn install_frame(&mut self, page_id: PageID, content: Vec<u8>) -> (r: Result<
        Option<Frame>,
        Error,
    >)
        requires
            old(self).wf(),
            content@.len() == 4096,
        ensures
            final(self).wf(),
            final(self)@ == old(self)@.installed(page_id, content@),
            !old(self)@.live.contains_key(page_id) ==> r == Err::<Option<Frame>, Error>(
                Error::PageNotFound,
            ),
            old(self)@.live.contains_key(page_id) ==> {
                let s = old(self)@.frames;
                let v = victim(s);
                &&& has_page(s, page_id) || s.len() < old(self)@.capacity ==> r is Ok
                    && r->Ok_0 is None
                &&& !has_page(s, page_id) && s.len() >= old(self)@.capacity && v >= 0 ==> r is Ok
                    && r->Ok_0 is Some && r->Ok_0->Some_0@ == s[v]
                &&& !has_page(s, page_id) && s.len() >= old(self)@.capacity && v < 0 ==> r
                    == Err::<Option<Frame>, Error>(Error::NoEvictableFrame)
            },
    {
        let ghost pre = *self;
        proof {
            pre.cache.lemma_shape();
        }
        match self.page_directory.query_page(page_id) {
            None => Err(Error::PageNotFound),
            Some(offset) => {
                if self.cache.get_frame(page_id).is_some() {
                    return Ok(None);
                }
                let r = self.cache.put_frame(page_id, offset, content);
                proof {
                    let fresh = FrameView {
                        page_id,
                        offset: offset as int,
                        content: content@,
                        dirty: false,
                        pin_count: 0,
                    };
                    crate::cache::lemma_victim_upto(pre.cache@, pre.cache@.len() as int);
                    assert forall|j: int|
                        #![trigger self.cache@[j]]
                        0 <= j < self.cache@.len() implies {
                        &&& self.page_directory.live().contains_key(self.cache@[j].page_id)
                        &&& self.page_directory.live()[self.cache@[j].page_id]
                            == self.cache@[j].offset
                    } by {
                        if j > 0 {
                            if pre.cache@.len() < pre.cache.capacity() {
                                assert(self.cache@[j] == pre.cache@[j - 1]);
                            } else {
                                let v = victim(pre.cache@);
                                if v >= 0 {
                                    let i = if j - 1 < v { j - 1 } else { j };
                                    assert(self.cache@[j] == pre.cache@[i]);
                                }
                            }
                        }
                    }
                }
                match r {
                    Ok(v) => Ok(v),
                    Err(_) => Err(Error::NoEvictableFrame),
                }
            },
        }
    }

    /// Takes back an `install_frame` of `page_id` whose evicted frame
    /// `victim` could not be written out: the frame of `page_id` leaves the
    /// cache and `victim` returns to the head unchanged. Fails, changing
    /// nothing, unless `page_id` is cached and `victim` holds one page of a
    /// live page, at that page's offset, that is not cached.
    pub fn undo_install(&mut self, page_id: PageID, victim: Frame) -> (r: bool)
        requires
            old(self).wf(),
        ensures
            final(self).wf(),
            r == (has_page(old(self)@.frames, page_id) && !has_page(
                old(self)@.frames,
                victim.page_id,
            ) && old(self)@.live.contains_key(victim.page_id) && old(self)@.live[victim.page_id]
                == victim.offset && victim.wf()),
            r ==> final(self)@ == (DiskView {
                frames: seq![victim@] + old(self)@.frames.remove(
                    page_index(old(self)@.frames, page_id),
                ),
                ..old(self)@
            }),
            !r ==> final(self)@ == old(self)@,
    {
        let ghost pre = *self;
        proof {
            lemma_page_index(pre.cache@, page_id);
            lemma_page_index(pre.cache@, victim.page_id);
            pre.cache.lemma_shape();
        }
        if self.cache.get_frame(page_id).is_none() || self.cache.get_frame(victim.page_id).is_some()
            || victim.content.len() != 4096 || victim.cursor > 4096 {
            return false;
        }
        match self.page_directory.query_page(victim.page_id) {
            None => false,
            Some(o) => {
                if o != victim.offset {
                    return false;
                }
                self.cache.evict_frame(page_id);
                let ghost mid = *self;
                let ghost k = page_index(pre.cache@, page_id);
                proof {
                    assert forall|j: int| 0 <= j < mid.cache@.len() implies #[trigger] mid.cache@[j].page_id
                        != victim.page_id by {
                        let i = if j < k { j } else { j + 1 };
                        assert(mid.cache@[j] == pre.cache@[i]);
                    }
                }
                let ok = self.cache.restore_frame(victim);
                proof {
                    assert(ok);
                    assert forall|j: int|
                        #![trigger self.cache@[j]]
                        0 <= j < self.cache@.len() implies {
                        &&& self.page_directory.live().contains_key(self.cache@[j].page_id)
                        &&& self.page_directory.live()[self.cache@[j].page_id]
                            == self.cache@[j].offset
                    } by {
                        if j > 0 {
                            let i = if j - 1 < k { j - 1 } else { j };
                            assert(self.cache@[j] == pre.cache@[i]);
                        }
                    }
                }
                true
            },
        }
    }

    /// The bytes of page `page_id`, whose frame becomes the most recently
    /// used. A live page must be cached (see `load_frame`).
    pub fn read_page(&mut self, page_id: PageID) -> (r: Result<Vec<u8>, Error>)
        requires
            old(self).wf(),
        ensures
            final(self).wf(),
            final(self)@ == old(self)@.touched(page_id),
            match r {
                Ok(b) => old(self)@.read_outcome(page_id) == Ok::<Seq<u8>, Error>(b@),
                Err(e) => old(self)@.read_outcome(page_id) == Err::<Seq<u8>, Error>(e),
            },
    {
        let ghost pre = *self;
        proof {
            lemma_page_index(pre.cache@, page_id);
        }
        match self.cache.lookup_frame(page_id) {
            Some(f) => {
                proof {
                    self.lemma_touched(pre, page_id);
                }
                Ok(f.content)
            },
            None => {
                if self.page_directory.query_page(page_id).is_some() {
                    Err(Error::NotResident)
                } else {
                    Err(Error::PageNotFound)
                }
            },
        }
    }

    /// Replaces the bytes of page `page_id` in its frame, which becomes dirty
    /// and the most recently used. Nothing is written to the file. A live
    /// page must be cached (see `load_frame`).
    pub fn write_page(&mut self, page_id: PageID, bytes: Vec<u8>) -> (r: Result<(), Error>)
        requires
            old(self).wf(),
            bytes@.len() == 4096,
        ensures
            final(self).wf(),
            final(self)@ == old(self)@.written(page_id, bytes@),
            has_page(old(self)@.frames, page_id) ==> r is Ok,
            !has_page(old(self)@.frames, page_id) && old(self)@.live.contains_key(page_id) ==> r
                == Err::<(), Error>(Error::NotResident),
            !old(self)@.live.contains_key(page_id) ==> r == Err::<(), Error>(Error::PageNotFound),
    {
        let ghost pre = *self;
        proof {
            lemma_page_index(pre.cache@, page_id);
        }
        if self.cache.lookup_frame(page_id).is_some() {
            proof {
                self.lemma_touched(pre, page_id);
            }
            let ghost mid = *self;
            self.cache.write_frame(page_id, bytes);
            proof {
                assert(mid.cache@[0].page_id == page_id);
                assert forall|j: int|
                    #![trigger self.cache@[j]]
                    0 <= j < self.cache@.len() implies {
                    &&& self.page_directory.live().contains_key(self.cache@[j].page_id)
                    &&& self.page_directory.live()[self.cache@[j].page_id] == self.cache@[j].offset
                } by {
                }
            }
            Ok(())
        } else {
            if self.page_directory.query_page(page_id).is_some() {
                Err(Error::NotResident)
            } else {
                Err(Error::PageNotFound)
            }
        }
    }

    /// Deletes live page `page_id`: its offset goes to the free list and its
    /// frame, if cached, is dropped without being written. The file keeps its
    /// length.
    pub fn delete_page(&mut self, page_id: PageID) -> (r: Result<(), Error>)
        requires
            old(self).wf(),
        ensures
            final(self).wf(),
            final(self)@ == old(self)@.deleted(page_id),
            old(self)@.live.contains_key(page_id) ==> r is Ok,
            !old(self)@.live.contains_key(page_id) ==> r == Err::<(), Error>(Error::PageNotFound),
    {
        let ghost pre = *self;
        proof {
            lemma_page_index(pre.cache@, page_id);
            pre.cache.lemma_shape();
        }
        if self.page_directory.query_page(page_id).is_none() {
            return Err(Error::PageNotFound);
        }
        let _ = self.page_directory.remove_page(page_id);
        self.cache.evict_frame(page_id);
        proof {
            assert forall|j: int|
                #![trigger self.cache@[j]]
                0 <= j < self.cache@.len() implies {
                &&& self.page_directory.live().contains_key(self.cache@[j].page_id)
                &&& self.page_directory.live()[self.cache@[j].page_id] == self.cache@[j].offset
            } by {
                if has_page(pre.cache@, page_id) {
                    let ghost k = page_index(pre.cache@, page_id);
                    let i = if j < k { j } else { j + 1 };
                    assert(self.cache@[j] == pre.cache@[i]);
                    assert(pre.cache@[i].page_id != page_id);
                } else {
                    assert(self.cache@[j] == pre.cache@[j]);
                    assert(pre.cache@[j].page_id != page_id);
                }
            }
        }
        Ok(())
    }

    /// The write that flushing page `page_id` calls for: the offset and bytes
    /// of its frame when it is cached and dirty, and nothing otherwise (a
    /// page that is not cached has nothing to flush). Once the bytes are in
    /// the file, `mark_flushed` clears the dirty bit.
    pub fn flush_page(&self, page_id: PageID) -> (r: Option<PageWrite>)
        requires
            self.wf(),
        ensures
            match r {
                Some(w) => self@.pending_write(page_id) == Some((w.offset as int, w.content@)),
                None => self@.pending_write(page_id) is None,
            },
    {
        proof {
            lemma_page_index(self.cache@, page_id);
        }
        match self.cache.get_frame(page_id) {
            Some(f) => {
                if f.dirty {
                    Some(PageWrite { offset: f.offset, content: f.copy_content() })
                } else {
                    None
                }
            },
            None => None,
        }
    }

    /// The write that dropping an evicted `frame` calls for: its bytes at its
    /// offset when it is dirty; a clean frame is dropped without I/O.
    pub fn flush_frame(&self, frame: &Frame) -> (r: Option<PageWrite>)
        ensures
            frame.dirty ==> r is Some && r->Some_0.offset == frame.offset
                && r->Some_0.content@ == frame.content@,
            !frame.dirty ==> r is None,
    {
        if frame.dirty {
            Some(PageWrite { offset: frame.offset, content: frame.copy_content() })
        } else {
            None
        }
    }

    /// Records that the frame of `page_id` is on disk: it is clean again.
    /// Returns whether the page is cached.
    pub fn mark_flushed(&mut self, page_id: PageID) -> (r: bool)
        requires
            old(self).wf(),
        ensures
            final(self).wf(),
            final(self)@ == old(self)@.flushed(page_id),
            r == has_page(old(self)@.frames, page_id),
    {
        let ghost pre = *self;
        proof {
            lemma_page_index(pre.cache@, page_id);
        }
        let r = self.cache.mark_clean(page_id);
        proof {
            assert forall|j: int|
                #![trigger self.cache@[j]]
                0 <= j < self.cache@.len() implies {
                &&& self.page_directory.live().contains_key(self.cache@[j].page_id)
                &&& self.page_directory.live()[self.cache@[j].page_id] == self.cache@[j].offset
            } by {
            }
        }
        r
    }

    /// Pins the frame of `page_id` so that it is not chosen for eviction.
    /// Fails when the page is not cached or its pin count is at its maximum.
    pub fn pin_page(&mut self, page_id: PageID) -> (r: bool)
        requires
            old(self).wf(),
        ensures
            final(self).wf(),
            !has_page(old(self)@.frames, page_id) ==> !r && final(self)@ == old(self)@,
            has_page(old(self)@.frames, page_id) ==> {
                let k = page_index(old(self)@.frames, page_id);
                let f = old(self)@.frames[k];
                &&& r == (f.pin_count < u32::MAX)
                &&& r ==> final(self)@ == (DiskView {
                    frames: old(self)@.frames.update(k, FrameView { pin_count: f.pin_count + 1, ..f }),
                    ..old(self)@
                })
                &&& !r ==> final(self)@ == old(self)@
            },
    {
        let ghost pre = *self;
        proof {
            lemma_page_index(pre.cache@, page_id);
        }
        let r = self.cache.pin_frame(page_id);
        proof {
            assert forall|j: int|
                #![trigger self.cache@[j]]
                0 <= j < self.cache@.len() implies {
                &&& self.page_directory.live().contains_key(self.cache@[j].page_id)
                &&& self.page_directory.live()[self.cache@[j].page_id] == self.cache@[j].offset
            } by {
            }
        }
        r
    }

    /// Releases one pin of the frame of `page_id`. Fails when the page is not
    /// cached or not pinned.
    pub fn unpin_page(&mut self, page_id: PageID) -> (r: bool)
        requires
            old(self).wf(),
        ensures
            final(self).wf(),
            !has_page(old(self)@.frames, page_id) ==> !r && final(self)@ == old(self)@,
            has_page(old(self)@.frames, page_id) ==> {
                let k = page_index(old(self)@.frames, page_id);
                let f = old(self)@.frames[k];
                &&& r == (f.pin_count > 0)
                &&& r ==> final(self)@ == (DiskView {
                    frames: old(self)@.frames.update(
                        k,
                        FrameView { pin_count: (f.pin_count - 1) as nat, ..f },
                    ),
                    ..old(self)@
                })
                &&& !r ==> final(self)@ == old(self)@
            },
    {
        let ghost pre = *self;
        proof {
            lemma_page_index(pre.cache@, page_id);
        }
        let r = self.cache.unpin_frame(page_id);
        proof {
            assert forall|j: int|
                #![trigger self.cache@[j]]
                0 <= j < self.cache@.len() implies {
                &&& self.page_directory.live().contains_key(self.cache@[j].page_id)
                &&& self.page_directory.live()[self.cache@[j].page_id] == self.cache@[j].offset
            } by {
            }
        }
        r
    }

    /// The cached pages, from most to least recently used.
    pub fn cached_pages(&self) -> (r: Vec<PageID>)
        requires
            self.wf(),
        ensures
            r@ == self@.frames.map_values(|f: FrameView| f.page_id),
    {
        self.cache.page_ids()
    }

    /// The offset of live page `page_id`.
    pub fn query_page(&self, page_id: PageID) -> (r: Option<u64>)
        ensures
            r == (if self@.live.contains_key(page_id) {
                Some(self@.live[page_id])
            } else {
                None::<u64>
            }),
    {
        self.page_directory.query_page(page_id)
    }
}

} // verus!
