use std::collections::HashMap;
use vstd::prelude::*;

use crate::page::{PageID, FRAME_SIZE};

verus! {

broadcast use vstd::std_specs::hash::group_hash_axioms;

/// Failure of a directory operation.
#[derive(Debug, Clone, Copy, PartialEq, Eq, Structural)]
pub enum Error {
    /// The page to remove has no live entry.
    DeleteFromDirectoryError,
}

/// Maps live page identifiers to file offsets and recycles the offsets of
/// deleted pages.
///
/// The file is seen as `frontier / 4096` slots; every slot is held either by
/// exactly one live page or by the free list.
#[derive(Debug)]
pub struct PageDirector {
    map: HashMap<PageID, u64>,
    free_slots: Vec<u64>,
    highest_page_id: PageID,
    frontier: u64,
}

/// `o` is the start of one of the first `len / 4096` slots.
pub open spec fn is_slot(o: int, len: int) -> bool {
    0 <= o < len && o % (FRAME_SIZE as int) == 0
}

impl PageDirector {
    /// Live pages and their offsets.
    pub closed spec fn live(&self) -> Map<PageID, u64> {
        self.map@
    }

    /// Offsets of deleted pages, the last one being reused first.
    pub closed spec fn free(&self) -> Seq<u64> {
        self.free_slots@
    }

    /// Highest identifier ever handed out (`0` before the first page).
    pub closed spec fn highest(&self) -> PageID {
        self.highest_page_id
    }

    /// Length in bytes of the file that the directory describes.
    pub closed spec fn file_len(&self) -> u64 {
        self.frontier
    }

    pub open spec fn holds(&self, o: u64) -> bool {
        self.live().values().contains(o) || self.free().contains(o)
    }

    /// The directory's invariant.
    pub open spec fn wf(&self) -> bool {
        &&& self.file_len() % FRAME_SIZE == 0
        &&& self.file_len() <= FRAME_SIZE * self.highest()
        &&& self.live().len() + self.free().len() == self.file_len() / FRAME_SIZE
        // every slot of the file is either live or free, and nothing else is
        &&& forall|o: u64| #[trigger] self.holds(o) <==> is_slot(o as int, self.file_len() as int)
        // no offset is both live and free
        &&& forall|o: u64| self.live().values().contains(o) ==> !(#[trigger] self.free().contains(o))
        // no offset is live twice
        &&& forall|p: PageID, q: PageID|
            #![trigger self.live()[p], self.live()[q]]
            self.live().contains_key(p) && self.live().contains_key(q) && self.live()[p]
                == self.live()[q] ==> p == q
        // no offset is free twice
        &&& self.free().no_duplicates()
        // identifiers are in 1..=highest
        &&& forall|p: PageID| #[trigger]
            self.live().contains_key(p) ==> 1 <= p <= self.highest()
    }

    /// An empty directory over an empty file.
    pub fn new() -> (r: PageDirector)
        ensures
            r.wf(),
            r.live().is_empty(),
            r.free().len() == 0,
            r.highest() == 0,
            r.file_len() == 0,
    {
        let r = PageDirector {
            map: HashMap::new(),
            free_slots: Vec::new(),
            highest_page_id: 0,
            frontier: 0,
        };
        assert forall|o: u64| #[trigger] r.holds(o) <==> is_slot(o as int, r.file_len() as int) by {
            if r.live().values().contains(o) {
                let p = choose|p: PageID| r.live().contains_key(p) && r.live()[p] == o;
                assert(r.live().contains_key(p));
            }
        }
        r
    }

    /// True iff the free list is empty.
    pub fn empty(&mut self) -> (r: bool)
        ensures
            *final(self) == *old(self),
            r == (old(self).free().len() == 0),
    {
        self.free_slots.len() == 0
    }

    /// True iff a new page can take a freed offset without extending the file.
    pub fn can_accomodate(&self) -> (r: bool)
        ensures
            r == (self.free().len() > 0),
    {
        self.free_slots.len() > 0
    }

    /// Number of slots in the file: live pages plus free offsets.
    pub fn current_mapsize(&self) -> (r: usize)
        requires
            self.wf(),
        ensures
            r == self.live().len() + self.free().len(),
    {
        self.map.len() + self.free_slots.len()
    }

    /// The offset of a live page.
    pub fn query_page(&self, page_id: PageID) -> (r: Option<u64>)
        ensures
            r == (if self.live().contains_key(page_id) {
                Some(self.live()[page_id])
            } else {
                None::<u64>
            }),
    {
        match self.map.get(&page_id) {
            Some(o) => Some(*o),
            None => None,
        }
    }

    /// Gives out the next identifier with a slot for it: the most recently
    /// freed offset if there is one, else a new slot at the end of the file.
    pub fn register_new_page(&mut self) -> (r: (PageID, u64))
        requires
            old(self).wf(),
            old(self).highest() < PageID::MAX,
        ensures
            final(self).wf(),
            r.0 == old(self).highest() + 1,
            final(self).highest() == r.0,
            final(self).live() == old(self).live().insert(r.0, r.1),
            old(self).free().len() > 0 ==> {
                &&& r.1 == old(self).free().last()
                &&& final(self).free() == old(self).free().drop_last()
                &&& final(self).file_len() == old(self).file_len()
            },
            old(self).free().len() == 0 ==> {
                &&& r.1 == old(self).file_len()
                &&& final(self).free() == old(self).free()
                &&& final(self).file_len() == old(self).file_len() + FRAME_SIZE
            },
    {
        let ghost pre = *self;
        let page_id = self.highest_page_id + 1;
        let offset: u64;
        if self.free_slots.len() > 0 {
            offset = self.free_slots.pop().unwrap();
        } else {
            offset = self.frontier;
            self.frontier = self.frontier + FRAME_SIZE;
        }
        self.highest_page_id = page_id;
        assert(!pre.live().contains_key(page_id));
        self.map.insert(page_id, offset);
        proof {
            let post = *self;
            assert(post.live() == pre.live().insert(page_id, offset));
            assert forall|o: u64| #[trigger] post.live().values().contains(o) <==> (pre.live().values().contains(o) || o == offset) by {
                if post.live().values().contains(o) {
                    let p = choose|p: PageID| post.live().contains_key(p) && post.live()[p] == o;
                    if p != page_id {
                        assert(pre.live().contains_key(p) && pre.live()[p] == o);
                    }
                }
                if pre.live().values().contains(o) {
                    let p = choose|p: PageID| pre.live().contains_key(p) && pre.live()[p] == o;
                    assert(post.live().contains_key(p) && post.live()[p] == o);
                }
                assert(post.live().contains_key(page_id) && post.live()[page_id] == offset);
            }
            if pre.free().len() > 0 {
                assert(pre.free() == post.free().push(offset));
                assert forall|o: u64| #[trigger] post.free().contains(o) <==> (pre.free().contains(o) && o != offset) by {
                    if pre.free().contains(o) {
                        let k = choose|k: int| 0 <= k < pre.free().len() && pre.free()[k] == o;
                        if k < post.free().len() {
                            assert(post.free()[k] == o);
                        }
                    }
                    if post.free().contains(o) {
                        let k = choose|k: int| 0 <= k < post.free().len() && post.free()[k] == o;
                        assert(pre.free()[k] == o);
                        assert(pre.free()[pre.free().len() - 1] == offset);
                    }
                }
                assert(pre.free().contains(offset)) by {
                    assert(pre.free()[pre.free().len() - 1] == offset);
                }
                assert(!pre.live().values().contains(offset));
                assert forall|o: u64| #[trigger] post.holds(o) <==> is_slot(o as int, post.file_len() as int) by {
                    assert(pre.holds(o) <==> is_slot(o as int, pre.file_len() as int));
                }
            } else {
                assert forall|o: u64| #[trigger] post.holds(o) <==> is_slot(o as int, post.file_len() as int) by {
                    assert(pre.holds(o) <==> is_slot(o as int, pre.file_len() as int));
                }
                assert(!pre.holds(offset));
            }
            assert forall|p: PageID, q: PageID|
                #![trigger post.live()[p], post.live()[q]]
                post.live().contains_key(p) && post.live().contains_key(q) && post.live()[p]
                    == post.live()[q] implies p == q by {
                if p != page_id {
                    assert(pre.live().values().contains(post.live()[p]));
                }
                if q != page_id {
                    assert(pre.live().values().contains(post.live()[q]));
                }
            }
        }
        (page_id, offset)
    }

    /// Removes a live page and frees its offset for reuse.
    pub fn remove_page(&mut self, page_id: PageID) -> (r: Result<(), Error>)
        requires
            old(self).wf(),
        ensures
            final(self).wf(),
            final(self).highest() == old(self).highest(),
            final(self).file_len() == old(self).file_len(),
            old(self).live().contains_key(page_id) ==> {
                &&& r is Ok
                &&& final(self).live() == old(self).live().remove(page_id)
                &&& final(self).free() == old(self).free().push(old(self).live()[page_id])
            },
            !old(self).live().contains_key(page_id) ==> {
                &&& r == Err::<(), Error>(Error::DeleteFromDirectoryError)
                &&& *final(self) == *old(self)
            },
    {
        let ghost pre = *self;
        if !self.map.contains_key(&page_id) {
            return Err(Error::DeleteFromDirectoryError);
        }
        match self.map.remove(&page_id) {
            Some(offset) => {
                self.free_slots.push(offset);
                proof {
                    let post = *self;
                    assert(offset == pre.live()[page_id]);
                    assert forall|o: u64| #[trigger] post.live().values().contains(o) <==> (pre.live().values().contains(o) && o != offset) by {
                        if post.live().values().contains(o) {
                            let p = choose|p: PageID| post.live().contains_key(p) && post.live()[p] == o;
                            assert(pre.live().contains_key(p) && pre.live()[p] == o);
                        }
                        if pre.live().values().contains(o) && o != offset {
                            let p = choose|p: PageID| pre.live().contains_key(p) && pre.live()[p] == o;
                            assert(post.live().contains_key(p) && post.live()[p] == o);
                        }
                    }
                    assert forall|o: u64| #[trigger] post.free().contains(o) <==> (pre.free().contains(o) || o == offset) by {
                        if pre.free().contains(o) {
                            let k = choose|k: int| 0 <= k < pre.free().len() && pre.free()[k] == o;
                            assert(post.free()[k] == o);
                        }
                        if post.free().contains(o) {
                            let k = choose|k: int| 0 <= k < post.free().len() && post.free()[k] == o;
                            if k < pre.free().len() {
                                assert(pre.free()[k] == o);
                            }
                        }
                        assert(post.free()[pre.free().len() as int] == offset);
                    }
                    assert(pre.live().values().contains(offset)) by {
                        assert(pre.live().contains_key(page_id));
                    }
                    assert(!pre.free().contains(offset));
                    assert forall|o: u64| #[trigger] post.holds(o) <==> is_slot(o as int, post.file_len() as int) by {
                        assert(pre.holds(o) <==> is_slot(o as int, pre.file_len() as int));
                    }
                    assert forall|i: int, j: int| 0 <= i < j < post.free().len() implies post.free()[i] != post.free()[j] by {
                        if j == pre.free().len() {
                            assert(pre.free().contains(post.free()[i]));
                        }
                    }
                }
                Ok(())
            },
            None => Err(Error::DeleteFromDirectoryError),
        }
    }

    /// Highest identifier handed out so far.
    pub fn highest_page_id(&self) -> (r: PageID)
        ensures
            r == self.highest(),
    {
        self.highest_page_id
    }

    /// Length in bytes of the file that the directory describes.
    pub fn file_length(&self) -> (r: u64)
        ensures
            r == self.file_len(),
    {
        self.frontier
    }
}

impl Default for PageDirector {
    fn default() -> (r: PageDirector)
        ensures
            r.wf(),
            r.live().is_empty(),
            r.free().len() == 0,
            r.highest() == 0,
            r.file_len() == 0,
    {
        PageDirector::new()
    }
}

/// The file is a whole number of pages, and each of its pages is either
/// live or free, never both.
pub proof fn lemma_file_layout(d: &PageDirector)
    requires
        d.wf(),
    ensures
        d.file_len() % FRAME_SIZE == 0,
        forall|o: u64|
            (d.live().values().contains(o) || d.free().contains(o)) <==> is_slot(
                o as int,
                d.file_len() as int,
            ),
        forall|o: u64| !(d.live().values().contains(o) && d.free().contains(o)),
{
    assert forall|o: u64|
        (d.live().values().contains(o) || d.free().contains(o)) <==> is_slot(
            o as int,
            d.file_len() as int,
        ) by {
        assert(d.holds(o) <==> is_slot(o as int, d.file_len() as int));
    }
}

} // verus!
