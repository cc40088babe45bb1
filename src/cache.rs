use std::collections::HashMap;
use vstd::prelude::*;

use crate::page::{Frame, FrameView, PageID};

verus! {

broadcast use vstd::std_specs::hash::group_hash_axioms;

/// Failure of a cache operation.
#[derive(Debug, Clone, Copy, PartialEq, Eq, Structural)]
pub enum CacheError {
    /// The cache is full and every frame in it is pinned.
    NoEvictableFrame,
}

/// One node of the LRU list: a frame and the arena slots of its neighbours.
#[derive(Debug)]
pub struct CacheEntry {
    page_id: PageID,
    frame: Frame,
    prev: Option<usize>,
    next: Option<usize>,
}

impl CacheEntry {
    /// An unlinked node holding `frame`.
    pub fn new(frame: Frame) -> (r: CacheEntry)
        ensures
            r.page_id() == frame.page_id,
            r.frame() == frame,
            r.prev() is None,
            r.next() is None,
    {
        CacheEntry { page_id: frame.page_id, frame, prev: None, next: None }
    }

    pub closed spec fn page_id(&self) -> PageID {
        self.page_id
    }

    pub closed spec fn frame(&self) -> Frame {
        self.frame
    }

    pub closed spec fn prev(&self) -> Option<usize> {
        self.prev
    }

    pub closed spec fn next(&self) -> Option<usize> {
        self.next
    }
}

/// The node that precedes position `i` of `order`, if any.
pub open spec fn before(order: Seq<usize>, i: int) -> Option<usize> {
    if i == 0 {
        None
    } else {
        Some(order[i - 1])
    }
}

/// The node that follows position `i` of `order`, if any.
pub open spec fn after(order: Seq<usize>, i: int) -> Option<usize> {
    if i + 1 == order.len() {
        None
    } else {
        Some(order[i + 1])
    }
}

pub open spec fn first_of(order: Seq<usize>) -> Option<usize> {
    if order.len() == 0 {
        None
    } else {
        Some(order[0])
    }
}

pub open spec fn last_of(order: Seq<usize>) -> Option<usize> {
    if order.len() == 0 {
        None
    } else {
        Some(order.last())
    }
}

/// The nodes `order` of the arena `slots` form an acyclic doubly-linked list
/// from `head` to `tail`, in that order.
pub open spec fn linked(
    slots: Seq<CacheEntry>,
    order: Seq<usize>,
    head: Option<usize>,
    tail: Option<usize>,
) -> bool {
    &&& order.no_duplicates()
    &&& head == first_of(order)
    &&& tail == last_of(order)
    &&& forall|i: int|
        #![trigger order[i]]
        0 <= i < order.len() ==> {
            &&& order[i] < slots.len()
            &&& slots[order[i] as int].prev() == before(order, i)
            &&& slots[order[i] as int].next() == after(order, i)
        }
}

/// The frames of the list `order`, from head to tail.
pub open spec fn frames_of(slots: Seq<CacheEntry>, order: Seq<usize>) -> Seq<FrameView> {
    Seq::new(order.len(), |i: int| slots[order[i] as int].frame()@)
}

/// No page appears twice in `s`.
pub open spec fn distinct_pages(s: Seq<FrameView>) -> bool {
    forall|i: int, j: int|
        0 <= i < s.len() && 0 <= j < s.len() && #[trigger] s[i].page_id == #[trigger] s[j].page_id
            ==> i == j
}

/// Page `p` has a frame in `s`.
pub open spec fn has_page(s: Seq<FrameView>, p: PageID) -> bool {
    exists|i: int| 0 <= i < s.len() && #[trigger] s[i].page_id == p
}

/// Position of the eviction victim among the first `n` frames of `s`: the
/// unpinned frame nearest the tail, or `-1` when all of them are pinned.
pub open spec fn victim_upto(s: Seq<FrameView>, n: int) -> int
    decreases n,
{
    if n <= 0 {
        -1
    } else if s[n - 1].pin_count == 0 {
        n - 1
    } else {
        victim_upto(s, n - 1)
    }
}

/// Position of the eviction victim in `s`, or `-1`.
pub open spec fn victim(s: Seq<FrameView>) -> int {
    victim_upto(s, s.len() as int)
}

pub proof fn lemma_victim_upto(s: Seq<FrameView>, n: int)
    requires
        0 <= n <= s.len(),
    ensures
        -1 <= victim_upto(s, n) < n,
        victim_upto(s, n) >= 0 ==> s[victim_upto(s, n)].pin_count == 0,
        victim_upto(s, n) == -1 ==> forall|j: int| 0 <= j < n ==> s[j].pin_count > 0,
        forall|j: int| victim_upto(s, n) < j < n ==> s[j].pin_count > 0,
    decreases n,
{
    if n > 0 {
        lemma_victim_upto(s, n - 1);
    }
}

/// Moving the node at position `k` to the front keeps the same nodes.
pub proof fn lemma_to_front(order: Seq<usize>, k: int)
    requires
        0 <= k < order.len(),
    ensures
        (seq![order[k]] + order.remove(k)).len() == order.len(),
        forall|x: usize| (seq![order[k]] + order.remove(k)).contains(x) <==> order.contains(x),
{
    let o2 = seq![order[k]] + order.remove(k);
    assert forall|x: usize| o2.contains(x) <==> order.contains(x) by {
        if order.contains(x) {
            let j = choose|j: int| 0 <= j < order.len() && order[j] == x;
            if j < k {
                assert(o2[j + 1] == x);
            } else if j > k {
                assert(o2[j] == x);
            } else {
                assert(o2[0] == x);
            }
        }
        if o2.contains(x) {
            let j = choose|j: int| 0 <= j < o2.len() && o2[j] == x;
            if j > 0 {
                if j - 1 < k {
                    assert(order[j - 1] == x);
                } else {
                    assert(order[j] == x);
                }
            }
        }
    }
}

/// The frames of the list after its node at `k` moved to the front.
pub proof fn lemma_frames_to_front(
    pre: Seq<CacheEntry>,
    post: Seq<CacheEntry>,
    order: Seq<usize>,
    k: int,
)
    requires
        0 <= k < order.len(),
        forall|i: int| 0 <= i < order.len() ==> #[trigger] order[i] < pre.len(),
        post.len() == pre.len(),
        forall|t: int|
            #![trigger post[t]]
            0 <= t < pre.len() ==> post[t].frame() == pre[t].frame(),
    ensures
        frames_of(post, seq![order[k]] + order.remove(k)) == seq![frames_of(pre, order)[k]]
            + frames_of(pre, order).remove(k),
{
    let o2 = seq![order[k]] + order.remove(k);
    let f = frames_of(pre, order);
    assert forall|j: int| 0 <= j < o2.len() implies #[trigger] frames_of(post, o2)[j] == (
    seq![f[k]] + f.remove(k))[j] by {
        if j == 0 {
            assert(order[k] < pre.len());
        } else if j - 1 < k {
            assert(o2[j] == order[j - 1]);
            assert(order[j - 1] < pre.len());
        } else {
            assert(o2[j] == order[j]);
            assert(order[j] < pre.len());
        }
    }
    assert(frames_of(post, o2) =~= seq![f[k]] + f.remove(k));
}

/// Removing the node at position `k` of a list without duplicates drops
/// exactly that node.
pub proof fn lemma_remove_node(order: Seq<usize>, k: int)
    requires
        0 <= k < order.len(),
        order.no_duplicates(),
    ensures
        forall|x: usize| order.remove(k).contains(x) <==> (order.contains(x) && x != order[k]),
{
    let o2 = order.remove(k);
    assert forall|x: usize| o2.contains(x) <==> (order.contains(x) && x != order[k]) by {
        if order.contains(x) && x != order[k] {
            let j = choose|j: int| 0 <= j < order.len() && order[j] == x;
            if j < k {
                assert(o2[j] == x);
            } else {
                assert(o2[j - 1] == x);
            }
        }
        if o2.contains(x) {
            let j = choose|j: int| 0 <= j < o2.len() && o2[j] == x;
            if j < k {
                assert(order[j] == x);
            } else {
                assert(order[j + 1] == x);
            }
        }
    }
}

/// Bounded LRU cache of frames, most recently used first.
///
/// Nodes live in an arena (`slots`) and are linked by slot index; `map` finds
/// the slot of a page, and `spare` lists slots that the list does not use.
pub struct Cache {
    max_frames: usize,
    map: HashMap<PageID, usize>,
    slots: Vec<CacheEntry>,
    spare: Vec<usize>,
    head: Option<usize>,
    tail: Option<usize>,
    order: Ghost<Seq<usize>>,
}

impl View for Cache {
    type V = Seq<FrameView>;

    /// The cached frames, from most to least recently used.
    closed spec fn view(&self) -> Seq<FrameView> {
        frames_of(self.slots@, self.order@)
    }
}

impl Cache {
    /// The cache's invariant.
    pub closed spec fn wf(&self) -> bool {
        let slots = self.slots@;
        let order = self.order@;
        &&& 1 <= self.max_frames
        &&& order.len() <= self.max_frames
        &&& linked(slots, order, self.head, self.tail)
        &&& forall|i: int|
            #![trigger order[i]]
            0 <= i < order.len() ==> {
                &&& slots[order[i] as int].page_id() == slots[order[i] as int].frame().page_id
                &&& slots[order[i] as int].frame().wf()
                &&& self.map@.contains_key(slots[order[i] as int].page_id())
                &&& self.map@[slots[order[i] as int].page_id()] == order[i]
            }
        &&& forall|p: PageID|
            #[trigger] self.map@.contains_key(p) ==> {
                &&& order.contains(self.map@[p])
                &&& slots[self.map@[p] as int].page_id() == p
            }
        &&& self.map@.len() == order.len()
        &&& self.spare@.no_duplicates()
        &&& forall|k: int|
            #![trigger self.spare@[k]]
            0 <= k < self.spare@.len() ==> self.spare@[k] < slots.len() && !order.contains(
                self.spare@[k],
            )
    }

    /// Most frames the cache holds at once.
    pub closed spec fn capacity(&self) -> usize {
        self.max_frames
    }

    /// Number of entries in the lookup map.
    pub closed spec fn map_len(&self) -> nat {
        self.map@.len()
    }

    /// An empty cache for at most `max_frames` frames.
    pub fn new(max_frames: usize) -> (r: Cache)
        requires
            max_frames >= 1,
        ensures
            r.wf(),
            r.capacity() == max_frames,
            r@ == Seq::<FrameView>::empty(),
    {
        let r = Cache {
            max_frames,
            map: HashMap::new(),
            slots: Vec::new(),
            spare: Vec::new(),
            head: None,
            tail: None,
            order: Ghost(Seq::empty()),
        };
        assert(r@ =~= Seq::<FrameView>::empty());
        r
    }

    /// Detaches the node at position `k` of the list `order`: the middle,
    /// head or tail shape, with the boundary links set to none.
    fn unlink(&mut self, s: usize, Ghost(order): Ghost<Seq<usize>>, Ghost(k): Ghost<int>)
        requires
            linked(old(self).slots@, order, old(self).head, old(self).tail),
            0 <= k < order.len(),
            order[k] == s,
        ensures
            linked(final(self).slots@, order.remove(k), final(self).head, final(self).tail),
            final(self).slots@.len() == old(self).slots@.len(),
            forall|t: int|
                #![trigger final(self).slots@[t]]
                0 <= t < old(self).slots@.len() ==> final(self).slots@[t].frame() == old(
                    self,
                ).slots@[t].frame() && final(self).slots@[t].page_id() == old(
                    self,
                ).slots@[t].page_id(),
            final(self).map == old(self).map,
            final(self).spare == old(self).spare,
            final(self).order == old(self).order,
            final(self).max_frames == old(self).max_frames,
    {
        let ghost pre = self.slots@;
        let prev = self.slots[s].prev;
        let next = self.slots[s].next;
        assert(prev == before(order, k) && next == after(order, k));
        match prev {
            Some(a) => {
                self.slots[a].next = next;
            },
            None => {
                self.head = next;
            },
        }
        match next {
            Some(b) => {
                self.slots[b].prev = prev;
            },
            None => {
                self.tail = prev;
            },
        }
        proof {
            let o2 = order.remove(k);
            let post = self.slots@;
            assert forall|j: int| 0 <= j < o2.len() implies #[trigger] o2[j] == (if j < k {
                order[j]
            } else {
                order[j + 1]
            }) by {}
            assert forall|t: int|
                #![trigger post[t]]
                0 <= t < pre.len() implies post[t].frame() == pre[t].frame() && post[t].page_id()
                == pre[t].page_id() by {}
            assert forall|j: int|
                #![trigger o2[j]]
                0 <= j < o2.len() implies {
                &&& o2[j] < post.len()
                &&& post[o2[j] as int].prev() == before(o2, j)
                &&& post[o2[j] as int].next() == after(o2, j)
            } by {
                if j < k {
                    assert(o2[j] == order[j]);
                    if j + 1 < k {
                        assert(order[j] != order[k - 1]);
                    }
                    if k + 1 < order.len() {
                        assert(order[j] != order[k + 1]);
                    }
                } else {
                    assert(o2[j] == order[j + 1]);
                    if k > 0 {
                        assert(order[j + 1] != order[k - 1]);
                    }
                    if j > k {
                        assert(order[j + 1] != order[k + 1]);
                    }
                }
            }
            assert(o2.no_duplicates());
        }
    }

    /// Links the detached node `s` in front of the list `order`.
    fn push_front(&mut self, s: usize, Ghost(order): Ghost<Seq<usize>>)
        requires
            linked(old(self).slots@, order, old(self).head, old(self).tail),
            s < old(self).slots@.len(),
            !order.contains(s),
        ensures
            linked(final(self).slots@, seq![s] + order, final(self).head, final(self).tail),
            final(self).slots@.len() == old(self).slots@.len(),
            forall|t: int|
                #![trigger final(self).slots@[t]]
                0 <= t < old(self).slots@.len() ==> final(self).slots@[t].frame() == old(
                    self,
                ).slots@[t].frame() && final(self).slots@[t].page_id() == old(
                    self,
                ).slots@[t].page_id(),
            final(self).map == old(self).map,
            final(self).spare == old(self).spare,
            final(self).order == old(self).order,
            final(self).max_frames == old(self).max_frames,
    {
        let ghost pre = self.slots@;
        let old_head = self.head;
        self.slots[s].prev = None;
        self.slots[s].next = old_head;
        match old_head {
            Some(h) => {
                self.slots[h].prev = Some(s);
            },
            None => {
                self.tail = Some(s);
            },
        }
        self.head = Some(s);
        proof {
            let o2 = seq![s] + order;
            let post = self.slots@;
            assert forall|j: int| 0 <= j < o2.len() implies #[trigger] o2[j] == (if j == 0 {
                s
            } else {
                order[j - 1]
            }) by {}
            assert forall|j: int|
                #![trigger o2[j]]
                0 <= j < o2.len() implies {
                &&& o2[j] < post.len()
                &&& post[o2[j] as int].prev() == before(o2, j)
                &&& post[o2[j] as int].next() == after(o2, j)
            } by {
                if j > 0 {
                    assert(o2[j] == order[j - 1]);
                    assert(order[j - 1] != s);
                    if j > 1 {
                        assert(order[j - 1] != order[0]);
                    }
                }
            }
            assert forall|i: int, j: int| 0 <= i < j < o2.len() implies o2[i] != o2[j] by {
                if i == 0 {
                    assert(order.contains(o2[j]));
                }
            }
            assert(o2.last() == last_of(order).unwrap_or(s)) by {
                if order.len() == 0 {
                    assert(o2.len() == 1);
                }
            }
        }
    }

    proof fn lemma_view(&self)
        requires
            self.wf(),
        ensures
            self@.len() == self.order@.len(),
            self@.len() <= self.capacity(),
            distinct_pages(self@),
            forall|k: int| 0 <= k < self@.len() ==> (#[trigger] self@[k]).content.len() == 4096,
            forall|p: PageID| has_page(self@, p) <==> #[trigger] self.map@.contains_key(p),
            forall|k: int|
                #![trigger self@[k]]
                0 <= k < self@.len() ==> self.map@.contains_key(self@[k].page_id) && self.map@[self@[k].page_id]
                    == self.order@[k],
    {
        let order = self.order@;
        assert forall|k: int|
            #![trigger self@[k]]
            0 <= k < self@.len() implies self@[k].page_id == self.slots@[order[k] as int].page_id() by {
            assert(order[k] < self.slots@.len());
        }
        assert forall|i: int, j: int|
            0 <= i < self@.len() && 0 <= j < self@.len() && #[trigger] self@[i].page_id
                == #[trigger] self@[j].page_id implies i == j by {
            assert(order[i] < self.slots@.len() && order[j] < self.slots@.len());
        }
        assert forall|p: PageID| has_page(self@, p) <==> #[trigger] self.map@.contains_key(p) by {
            if self.map@.contains_key(p) {
                let k = choose|k: int| 0 <= k < order.len() && order[k] == self.map@[p];
                assert(self@[k].page_id == p);
            }
        }
    }

    /// Slot of the node of page `p`, if it is cached.
    fn locate(&self, p: PageID) -> (r: Option<usize>)
        requires
            self.wf(),
        ensures
            r is None <==> !has_page(self@, p),
            forall|k: int| 0 <= k < self@.len() && self@[k].page_id == p ==> r == Some(self.order@[k]),
    {
        proof {
            self.lemma_view();
        }
        match self.map.get(&p) {
            Some(s) => Some(*s),
            None => None,
        }
    }

    /// Index of slot `s` in the list.
    proof fn lemma_index(&self, s: usize) -> (k: int)
        requires
            self.wf(),
            self.order@.contains(s),
        ensures
            0 <= k < self@.len(),
            self.order@[k] == s,
            self@[k] == self.slots@[s as int].frame()@,
    {
        let k = choose|k: int| 0 <= k < self.order@.len() && self.order@[k] == s;
        k
    }

    /// The relinked list `order2` uses the same nodes as the current one.
    proof fn lemma_relinked(pre: Cache, post: Cache, order2: Seq<usize>)
        requires
            pre.wf(),
            linked(post.slots@, order2, post.head, post.tail),
            post.order@ == order2,
            post.slots@.len() == pre.slots@.len(),
            forall|t: int|
                #![trigger post.slots@[t]]
                0 <= t < pre.slots@.len() ==> post.slots@[t].frame() == pre.slots@[t].frame()
                    && post.slots@[t].page_id() == pre.slots@[t].page_id(),
            forall|x: usize| order2.contains(x) <==> pre.order@.contains(x),
            order2.len() == pre.order@.len(),
            post.map == pre.map,
            post.spare == pre.spare,
            post.max_frames == pre.max_frames,
        ensures
            post.wf(),
    {
        let o1 = pre.order@;
        assert forall|i: int|
            #![trigger order2[i]]
            0 <= i < order2.len() implies {
            &&& post.slots@[order2[i] as int].page_id() == post.slots@[order2[i] as int].frame().page_id
            &&& post.slots@[order2[i] as int].frame().wf()
            &&& post.map@.contains_key(post.slots@[order2[i] as int].page_id())
            &&& post.map@[post.slots@[order2[i] as int].page_id()] == order2[i]
        } by {
            assert(order2.contains(order2[i]));
            let j = choose|j: int| 0 <= j < o1.len() && o1[j] == order2[i];
            assert(o1[j] == o1[j]);
        }
        assert forall|p: PageID| #[trigger] post.map@.contains_key(p) implies {
            &&& order2.contains(post.map@[p])
            &&& post.slots@[post.map@[p] as int].page_id() == p
        } by {
            assert(pre.map@.contains_key(p));
        }
        assert forall|k: int|
            #![trigger post.spare@[k]]
            0 <= k < post.spare@.len() implies post.spare@[k] < post.slots@.len() && !order2.contains(
                post.spare@[k],
            ) by {
            assert(pre.spare@[k] == post.spare@[k]);
        }
    }

    /// The frame of page `page_id`, which becomes the most recently used.
    pub fn lookup_frame(&mut self, page_id: PageID) -> (r: Option<Frame>)
        requires
            old(self).wf(),
        ensures
            final(self).wf(),
            final(self).capacity() == old(self).capacity(),
            !has_page(old(self)@, page_id) ==> r is None && final(self)@ == old(self)@,
            forall|k: int|
                0 <= k < old(self)@.len() && #[trigger] old(self)@[k].page_id == page_id ==> {
                    &&& r is Some
                    &&& r->Some_0@ == old(self)@[k]
                    &&& final(self)@ == seq![old(self)@[k]] + old(self)@.remove(k)
                },
    {
        match self.locate(page_id) {
            None => None,
            Some(s) => {
                let ghost pre = *self;
                let ghost order = self.order@;
                proof {
                    pre.lemma_view();
                }
                let ghost k = choose|k: int| 0 <= k < pre@.len() && pre@[k].page_id == page_id;
                assert(order[k] == s);
                self.unlink(s, Ghost(order), Ghost(k));
                self.push_front(s, Ghost(order.remove(k)));
                self.order = Ghost(seq![s] + order.remove(k));
                proof {
                    let o2 = seq![s] + order.remove(k);
                    lemma_to_front(order, k);
                    Self::lemma_relinked(pre, *self, o2);
                    lemma_frames_to_front(pre.slots@, self.slots@, order, k);
                }
                Some(self.slots[s].frame.duplicate())
            },
        }
    }

    /// Takes the node in slot `s`, at position `k`, out of the list and the
    /// map; the slot is left unused.
    fn detach(&mut self, s: usize, Ghost(k): Ghost<int>)
        requires
            old(self).wf(),
            0 <= k < old(self)@.len(),
            old(self).order@[k] == s,
        ensures
            final(self).wf(),
            final(self)@ == old(self)@.remove(k),
            final(self).capacity() == old(self).capacity(),
            final(self).slots@.len() == old(self).slots@.len(),
            final(self).slots@[s as int].frame() == old(self).slots@[s as int].frame(),
            !final(self).order@.contains(s),
            final(self).spare == old(self).spare,
    {
        let ghost pre = *self;
        let ghost order = self.order@;
        proof {
            pre.lemma_view();
            lemma_remove_node(order, k);
        }
        let page_id = self.slots[s].page_id;
        assert(page_id == pre@[k].page_id);
        self.unlink(s, Ghost(order), Ghost(k));
        self.map.remove(&page_id);
        self.order = Ghost(order.remove(k));
        proof {
            let o2 = order.remove(k);
            let post = *self;
            assert(post.map@ == pre.map@.remove(page_id));
            assert forall|i: int|
                #![trigger o2[i]]
                0 <= i < o2.len() implies {
                &&& post.slots@[o2[i] as int].page_id() == post.slots@[o2[i] as int].frame().page_id
                &&& post.slots@[o2[i] as int].frame().wf()
                &&& post.map@.contains_key(post.slots@[o2[i] as int].page_id())
                &&& post.map@[post.slots@[o2[i] as int].page_id()] == o2[i]
            } by {
                let j = if i < k { i } else { i + 1 };
                assert(o2[i] == order[j]);
                assert(pre@[j].page_id == pre.slots@[order[j] as int].page_id());
            }
            assert forall|p: PageID| #[trigger] post.map@.contains_key(p) implies {
                &&& o2.contains(post.map@[p])
                &&& post.slots@[post.map@[p] as int].page_id() == p
            } by {
                assert(pre.map@.contains_key(p));
                assert(pre.map@[p] != s);
            }
            assert(pre.map@.contains_key(page_id));
            assert forall|j: int|
                #![trigger post.spare@[j]]
                0 <= j < post.spare@.len() implies post.spare@[j] < post.slots@.len() && !o2.contains(
                    post.spare@[j],
                ) by {
                assert(pre.spare@[j] == post.spare@[j]);
            }
            assert(post@ =~= pre@.remove(k)) by {
                assert forall|i: int| 0 <= i < o2.len() implies #[trigger] post@[i] == pre@.remove(k)[i] by {
                    let j = if i < k { i } else { i + 1 };
                    assert(o2[i] == order[j]);
                    assert(order[j] < pre.slots@.len());
                }
            }
        }
    }

    /// Links a new node for `frame`, in slot `s` (a new slot when `s` is the
    /// arena's length), at the head of the list.
    fn attach(&mut self, s: usize, frame: Frame)
        requires
            old(self).wf(),
            old(self)@.len() < old(self).capacity(),
            s <= old(self).slots@.len(),
            s < old(self).slots@.len() ==> !old(self).order@.contains(s),
            !old(self).spare@.contains(s),
            frame.wf(),
            !has_page(old(self)@, frame.page_id),
        ensures
            final(self).wf(),
            final(self)@ == seq![frame@] + old(self)@,
            final(self).capacity() == old(self).capacity(),
    {
        let ghost pre = *self;
        let ghost order = self.order@;
        proof {
            pre.lemma_view();
        }
        let page_id = frame.page_id;
        let entry = CacheEntry::new(frame);
        if s == self.slots.len() {
            self.slots.push(entry);
        } else {
            self.slots[s] = entry;
        }
        assert(!order.contains(s));
        assert forall|i: int| 0 <= i < order.len() implies #[trigger] self.slots@[order[i] as int] == pre.slots@[order[i] as int] by {
            assert(order[i] != s);
        }
        self.push_front(s, Ghost(order));
        self.map.insert(page_id, s);
        self.order = Ghost(seq![s] + order);
        proof {
            let o2 = seq![s] + order;
            let post = *self;
            assert(!pre.map@.contains_key(page_id));
            assert(post.map@ == pre.map@.insert(page_id, s));
            assert(post.map@.dom() == pre.map@.dom().insert(page_id));
            assert forall|i: int|
                #![trigger o2[i]]
                0 <= i < o2.len() implies {
                &&& post.slots@[o2[i] as int].page_id() == post.slots@[o2[i] as int].frame().page_id
                &&& post.slots@[o2[i] as int].frame().wf()
                &&& post.map@.contains_key(post.slots@[o2[i] as int].page_id())
                &&& post.map@[post.slots@[o2[i] as int].page_id()] == o2[i]
            } by {
                if i > 0 {
                    assert(o2[i] == order[i - 1]);
                    assert(order[i - 1] == order[i - 1]);
                    assert(pre@[i - 1].page_id == pre.slots@[order[i - 1] as int].page_id());
                    assert(pre@[i - 1].page_id != page_id);
                }
            }
            assert forall|p: PageID| #[trigger] post.map@.contains_key(p) implies {
                &&& o2.contains(post.map@[p])
                &&& post.slots@[post.map@[p] as int].page_id() == p
            } by {
                if p != page_id {
                    assert(pre.map@.contains_key(p));
                    let j = choose|j: int| 0 <= j < order.len() && order[j] == pre.map@[p];
                    assert(o2[j + 1] == pre.map@[p]);
                } else {
                    assert(o2[0] == s);
                }
            }
            assert forall|j: int|
                #![trigger post.spare@[j]]
                0 <= j < post.spare@.len() implies post.spare@[j] < post.slots@.len() && !o2.contains(
                    post.spare@[j],
                ) by {
                assert(pre.spare@[j] == post.spare@[j]);
                assert(post.spare@[j] != s);
                if o2.contains(post.spare@[j]) {
                    let i = choose|i: int| 0 <= i < o2.len() && o2[i] == post.spare@[j];
                    assert(order[i - 1] == post.spare@[j]);
                }
            }
            assert(post@ =~= seq![frame@] + pre@) by {
                assert forall|i: int| 0 <= i < o2.len() implies #[trigger] post@[i] == (seq![frame@] + pre@)[i] by {
                    if i > 0 {
                        assert(o2[i] == order[i - 1]);
                        assert(order[i - 1] < pre.slots@.len());
                    }
                }
            }
        }
    }

    /// Puts `frame` back at the head, as it is (dirty bit and pins
    /// included). Fails, changing nothing, when its page is already cached,
    /// the cache is full, or the frame does not hold one page.
    pub fn restore_frame(&mut self, frame: Frame) -> (r: bool)
        requires
            old(self).wf(),
        ensures
            final(self).wf(),
            final(self).capacity() == old(self).capacity(),
            r == (!has_page(old(self)@, frame.page_id) && old(self)@.len() < old(self).capacity()
                && frame.wf()),
            r ==> final(self)@ == seq![frame@] + old(self)@,
            !r ==> final(self)@ == old(self)@,
    {
        proof {
            self.lemma_view();
        }
        if self.locate(frame.page_id).is_some() || self.map.len() >= self.max_frames
            || frame.content.len() != 4096 || frame.cursor > 4096 {
            return false;
        }
        let s = match self.spare.pop() {
            Some(s) => s,
            None => self.slots.len(),
        };
        proof {
            assert(!self.spare@.contains(s)) by {
                if self.spare@.contains(s) {
                    let j = choose|j: int| 0 <= j < self.spare@.len() && self.spare@[j] == s;
                    assert(self.spare@[j] != s);
                }
            }
            assert forall|j: int|
                #![trigger self.spare@[j]]
                0 <= j < self.spare@.len() implies self.spare@[j] < self.slots@.len() && !self.order@.contains(
                    self.spare@[j],
                ) by {
            }
        }
        self.attach(s, frame);
        true
    }

    /// Slot of the eviction victim: the unpinned node nearest the tail.
    fn find_victim(&self) -> (r: Option<usize>)
        requires
            self.wf(),
        ensures
            victim(self@) >= 0 ==> r == Some(self.order@[victim(self@)]),
            victim(self@) < 0 ==> r is None,
    {
        proof {
            self.lemma_view();
        }
        let mut cur = self.tail;
        let ghost mut k: int = self@.len() - 1;
        while cur.is_some()
            invariant
                self.wf(),
                self@.len() == self.order@.len(),
                -1 <= k < self@.len(),
                cur == (if k >= 0 {
                    Some(self.order@[k])
                } else {
                    None::<usize>
                }),
                victim(self@) == victim_upto(self@, k + 1),
            decreases k + 1,
        {
            let c = cur.unwrap();
            assert(self.order@[k] == c);
            if self.slots[c].frame.pin_count == 0 {
                assert(self@[k].pin_count == 0);
                return Some(c);
            }
            cur = self.slots[c].prev;
            proof {
                k = k - 1;
            }
        }
        None
    }

    /// Drops the frame of page `page_id` from the cache, if it is there.
    pub fn evict_frame(&mut self, page_id: PageID)
        requires
            old(self).wf(),
        ensures
            final(self).wf(),
            final(self).capacity() == old(self).capacity(),
            !has_page(old(self)@, page_id) ==> final(self)@ == old(self)@,
            forall|k: int|
                0 <= k < old(self)@.len() && #[trigger] old(self)@[k].page_id == page_id
                    ==> final(self)@ == old(self)@.remove(k),
    {
        match self.locate(page_id) {
            None => {},
            Some(s) => {
                let ghost pre = *self;
                proof {
                    pre.lemma_view();
                }
                let ghost k = choose|k: int| 0 <= k < pre@.len() && pre@[k].page_id == page_id;
                self.detach(s, Ghost(k));
                let ghost mid = *self;
                self.spare.push(s);
                proof {
                    let post = *self;
                    assert(!pre.spare@.contains(s)) by {
                        if pre.spare@.contains(s) {
                            let j = choose|j: int| 0 <= j < pre.spare@.len() && pre.spare@[j] == s;
                            assert(!pre.order@.contains(pre.spare@[j]));
                            assert(pre.order@[k] == s);
                        }
                    }
                    assert forall|j: int|
                        #![trigger post.spare@[j]]
                        0 <= j < post.spare@.len() implies post.spare@[j] < post.slots@.len() && !post.order@.contains(
                            post.spare@[j],
                        ) by {
                        if j < mid.spare@.len() {
                            assert(mid.spare@[j] == post.spare@[j]);
                        }
                    }
                    assert(post@ == mid@);
                }
            },
        }
    }

    /// Inserts a clean, unpinned frame for `page_id` at the head. When the
    /// cache is full, the unpinned frame nearest the tail is evicted first
    /// and handed back, so that its owner can write it out if it is dirty.
    pub fn put_frame(&mut self, page_id: PageID, offset: u64, content: Vec<u8>) -> (r: Result<
        Option<Frame>,
        CacheError,
    >)
        requires
            old(self).wf(),
            !has_page(old(self)@, page_id),
            content@.len() == 4096,
        ensures
            final(self).wf(),
            final(self).capacity() == old(self).capacity(),
            ({
                let fresh = FrameView {
                    page_id,
                    offset: offset as int,
                    content: content@,
                    dirty: false,
                    pin_count: 0,
                };
                let v = victim(old(self)@);
                &&& old(self)@.len() < old(self).capacity() ==> r is Ok && r->Ok_0 is None
                    && final(self)@ == seq![fresh] + old(self)@
                &&& old(self)@.len() >= old(self).capacity() && v >= 0 ==> r is Ok
                    && r->Ok_0 is Some && r->Ok_0->Some_0@ == old(self)@[v] && final(self)@
                    == seq![fresh] + old(self)@.remove(v)
                &&& old(self)@.len() >= old(self).capacity() && v < 0 ==> r == Err::<
                    Option<Frame>,
                    CacheError,
                >(CacheError::NoEvictableFrame) && final(self)@ == old(self)@
            }),
    {
        proof {
            self.lemma_view();
        }
        let frame = Frame::new(page_id, offset, content);
        if self.map.len() < self.max_frames {
            let s = match self.spare.pop() {
                Some(s) => s,
                None => self.slots.len(),
            };
            proof {
                assert(!self.spare@.contains(s)) by {
                    if self.spare@.contains(s) {
                        let j = choose|j: int| 0 <= j < self.spare@.len() && self.spare@[j] == s;
                        assert(self.spare@[j] != s);
                    }
                }
                assert forall|j: int|
                    #![trigger self.spare@[j]]
                    0 <= j < self.spare@.len() implies self.spare@[j] < self.slots@.len() && !self.order@.contains(
                        self.spare@[j],
                    ) by {
                }
            }
            self.attach(s, frame);
            Ok(None)
        } else {
            match self.find_victim() {
                None => Err(CacheError::NoEvictableFrame),
                Some(v) => {
                    let ghost pre = *self;
                    let ghost k = victim(pre@);
                    proof {
                        lemma_victim_upto(pre@, pre@.len() as int);
                    }
                    let out = self.slots[v].frame.duplicate();
                    self.detach(v, Ghost(k));
                    proof {
                        assert(!self.spare@.contains(v)) by {
                            if self.spare@.contains(v) {
                                let j = choose|j: int| 0 <= j < pre.spare@.len() && pre.spare@[j] == v;
                                assert(!pre.order@.contains(pre.spare@[j]));
                                assert(pre.order@[k] == v);
                            }
                        }
                        self.lemma_view();
                        assert forall|i: int| 0 <= i < self@.len() implies #[trigger] self@[i].page_id != page_id by {
                            let j = if i < k { i } else { i + 1 };
                            assert(self@[i] == pre@[j]);
                        }
                    }
                    self.attach(v, frame);
                    Ok(Some(out))
                },
            }
        }
    }

    /// Only the frame in slot `order[k]` changed, keeping its page and links.
    proof fn lemma_frame_changed(pre: Cache, post: Cache, k: int)
        requires
            pre.wf(),
            0 <= k < pre@.len(),
            post.slots@.len() == pre.slots@.len(),
            forall|t: int|
                0 <= t < pre.slots@.len() && t != pre.order@[k] ==> #[trigger] post.slots@[t]
                    == pre.slots@[t],
            post.slots@[pre.order@[k] as int].page_id() == pre.slots@[pre.order@[k] as int].page_id(),
            post.slots@[pre.order@[k] as int].prev() == pre.slots@[pre.order@[k] as int].prev(),
            post.slots@[pre.order@[k] as int].next() == pre.slots@[pre.order@[k] as int].next(),
            post.slots@[pre.order@[k] as int].frame().page_id == pre@[k].page_id,
            post.slots@[pre.order@[k] as int].frame().wf(),
            post.map == pre.map,
            post.spare == pre.spare,
            post.head == pre.head,
            post.tail == pre.tail,
            post.order == pre.order,
            post.max_frames == pre.max_frames,
        ensures
            post.wf(),
            post@ == pre@.update(k, post.slots@[pre.order@[k] as int].frame()@),
    {
        let order = pre.order@;
        let s = order[k];
        assert(order[k] == s);
        assert forall|i: int|
            #![trigger order[i]]
            0 <= i < order.len() implies {
            &&& order[i] < post.slots@.len()
            &&& post.slots@[order[i] as int].prev() == before(order, i)
            &&& post.slots@[order[i] as int].next() == after(order, i)
            &&& post.slots@[order[i] as int].page_id() == post.slots@[order[i] as int].frame().page_id
            &&& post.slots@[order[i] as int].frame().wf()
            &&& post.map@.contains_key(post.slots@[order[i] as int].page_id())
            &&& post.map@[post.slots@[order[i] as int].page_id()] == order[i]
        } by {}
        assert forall|q: PageID| #[trigger] post.map@.contains_key(q) implies {
            &&& order.contains(post.map@[q])
            &&& post.slots@[post.map@[q] as int].page_id() == q
        } by {
            assert(pre.map@.contains_key(q));
        }
        assert forall|j: int|
            #![trigger post.spare@[j]]
            0 <= j < post.spare@.len() implies post.spare@[j] < post.slots@.len() && !order.contains(
                post.spare@[j],
            ) by {
            assert(pre.spare@[j] == post.spare@[j]);
        }
        assert(post@ =~= pre@.update(k, post.slots@[s as int].frame()@)) by {
            assert forall|i: int| 0 <= i < order.len() implies #[trigger] post@[i] == pre@.update(
                k,
                post.slots@[s as int].frame()@,
            )[i] by {
                assert(order[i] < pre.slots@.len());
                if i != k {
                    assert(order[i] != s);
                }
            }
        }
    }

    /// Number of cached frames.
    pub fn len(&self) -> (r: usize)
        requires
            self.wf(),
        ensures
            r == self@.len(),
    {
        proof {
            self.lemma_view();
        }
        self.map.len()
    }

    /// The frame of page `page_id`, leaving the LRU order as it is.
    pub fn get_frame(&self, page_id: PageID) -> (r: Option<&Frame>)
        requires
            self.wf(),
        ensures
            !has_page(self@, page_id) ==> r is None,
            forall|k: int|
                0 <= k < self@.len() && #[trigger] self@[k].page_id == page_id ==> r is Some
                    && r->Some_0@ == self@[k],
    {
        match self.locate(page_id) {
            None => None,
            Some(s) => Some(&self.slots[s].frame),
        }
    }

    /// The cached pages, from most to least recently used.
    pub fn page_ids(&self) -> (r: Vec<PageID>)
        requires
            self.wf(),
        ensures
            r@ == self@.map_values(|f: FrameView| f.page_id),
    {
        proof {
            self.lemma_view();
        }
        let ghost order = self.order@;
        let mut r: Vec<PageID> = Vec::new();
        let mut cur = self.head;
        let ghost mut i: int = 0;
        while cur.is_some()
            invariant
                self.wf(),
                order == self.order@,
                self@.len() == order.len(),
                0 <= i <= order.len(),
                cur == (if i < order.len() {
                    Some(order[i])
                } else {
                    None::<usize>
                }),
                r@ == self@.subrange(0, i).map_values(|f: FrameView| f.page_id),
            decreases order.len() - i,
        {
            let c = cur.unwrap();
            assert(order[i] == c);
            r.push(self.slots[c].page_id);
            cur = self.slots[c].next;
            proof {
                assert(self@[i].page_id == self.slots@[c as int].page_id());
                i = i + 1;
                assert(r@ =~= self@.subrange(0, i).map_values(|f: FrameView| f.page_id));
            }
        }
        assert(self@.subrange(0, i) =~= self@);
        r
    }

    /// Pins the frame of `page_id` once more, so that it cannot be evicted.
    /// Fails when the page is not cached or its pin count is at its maximum.
    pub fn pin_frame(&mut self, page_id: PageID) -> (r: bool)
        requires
            old(self).wf(),
        ensures
            final(self).wf(),
            final(self).capacity() == old(self).capacity(),
            !has_page(old(self)@, page_id) ==> !r && final(self)@ == old(self)@,
            forall|k: int|
                0 <= k < old(self)@.len() && #[trigger] old(self)@[k].page_id == page_id ==> {
                    let f = old(self)@[k];
                    &&& r == (f.pin_count < u32::MAX)
                    &&& r ==> final(self)@ == old(self)@.update(
                        k,
                        FrameView { pin_count: f.pin_count + 1, ..f },
                    )
                    &&& !r ==> final(self)@ == old(self)@
                },
    {
        match self.locate(page_id) {
            None => false,
            Some(s) => {
                let ghost pre = *self;
                proof {
                    pre.lemma_view();
                }
                let ghost k = choose|k: int| 0 <= k < pre@.len() && pre@[k].page_id == page_id;
                if self.slots[s].frame.pin_count == u32::MAX {
                    return false;
                }
                self.slots[s].frame.pin_count = self.slots[s].frame.pin_count + 1;
                proof {
                    Self::lemma_frame_changed(pre, *self, k);
                    assert(self.slots@[s as int].frame()@ == (FrameView { pin_count: pre@[k].pin_count + 1, ..pre@[k] }));
                }
                true
            },
        }
    }

    /// Releases one pin of the frame of `page_id`. Fails when the page is not
    /// cached or not pinned.
    pub fn unpin_frame(&mut self, page_id: PageID) -> (r: bool)
        requires
            old(self).wf(),
        ensures
            final(self).wf(),
            final(self).capacity() == old(self).capacity(),
            !has_page(old(self)@, page_id) ==> !r && final(self)@ == old(self)@,
            forall|k: int|
                0 <= k < old(self)@.len() && #[trigger] old(self)@[k].page_id == page_id ==> {
                    let f = old(self)@[k];
                    &&& r == (f.pin_count > 0)
                    &&& r ==> final(self)@ == old(self)@.update(
                        k,
                        FrameView { pin_count: (f.pin_count - 1) as nat, ..f },
                    )
                    &&& !r ==> final(self)@ == old(self)@
                },
    {
        match self.locate(page_id) {
            None => false,
            Some(s) => {
                let ghost pre = *self;
                proof {
                    pre.lemma_view();
                }
                let ghost k = choose|k: int| 0 <= k < pre@.len() && pre@[k].page_id == page_id;
                if self.slots[s].frame.pin_count == 0 {
                    return false;
                }
                self.slots[s].frame.pin_count = self.slots[s].frame.pin_count - 1;
                proof {
                    Self::lemma_frame_changed(pre, *self, k);
                    assert(self.slots@[s as int].frame()@ == (FrameView { pin_count: (pre@[k].pin_count - 1) as nat, ..pre@[k] }));
                }
                true
            },
        }
    }

    /// Replaces the bytes of the cached frame of `page_id` and marks it dirty.
    /// Fails when the page is not cached.
    pub fn write_frame(&mut self, page_id: PageID, content: Vec<u8>) -> (r: bool)
        requires
            old(self).wf(),
            content@.len() == 4096,
        ensures
            final(self).wf(),
            final(self).capacity() == old(self).capacity(),
            r == has_page(old(self)@, page_id),
            !r ==> final(self)@ == old(self)@,
            forall|k: int|
                0 <= k < old(self)@.len() && #[trigger] old(self)@[k].page_id == page_id
                    ==> final(self)@ == old(self)@.update(
                    k,
                    FrameView { content: content@, dirty: true, ..old(self)@[k] },
                ),
    {
        match self.locate(page_id) {
            None => false,
            Some(s) => {
                let ghost pre = *self;
                proof {
                    pre.lemma_view();
                }
                let ghost k = choose|k: int| 0 <= k < pre@.len() && pre@[k].page_id == page_id;
                self.slots[s].frame.content = content;
                self.slots[s].frame.dirty = true;
                proof {
                    Self::lemma_frame_changed(pre, *self, k);
                    assert(self.slots@[s as int].frame()@ == (FrameView { content: content@, dirty: true, ..pre@[k] }));
                }
                true
            },
        }
    }

    /// Clears the dirty bit of the cached frame of `page_id`, once its bytes
    /// are on disk. Fails when the page is not cached.
    pub fn mark_clean(&mut self, page_id: PageID) -> (r: bool)
        requires
            old(self).wf(),
        ensures
            final(self).wf(),
            final(self).capacity() == old(self).capacity(),
            r == has_page(old(self)@, page_id),
            !r ==> final(self)@ == old(self)@,
            forall|k: int|
                0 <= k < old(self)@.len() && #[trigger] old(self)@[k].page_id == page_id
                    ==> final(self)@ == old(self)@.update(k, FrameView { dirty: false, ..old(self)@[k] }),
    {
        match self.locate(page_id) {
            None => false,
            Some(s) => {
                let ghost pre = *self;
                proof {
                    pre.lemma_view();
                }
                let ghost k = choose|k: int| 0 <= k < pre@.len() && pre@[k].page_id == page_id;
                self.slots[s].frame.dirty = false;
                proof {
                    Self::lemma_frame_changed(pre, *self, k);
                    assert(self.slots@[s as int].frame()@ == (FrameView { dirty: false, ..pre@[k] }));
                }
                true
            },
        }
    }

    /// The facts of the invariant that callers can use.
    pub proof fn lemma_shape(&self)
        requires
            self.wf(),
        ensures
            1 <= self.capacity(),
            self@.len() <= self.capacity(),
            distinct_pages(self@),
            forall|k: int| 0 <= k < self@.len() ==> (#[trigger] self@[k]).content.len() == 4096,
    {
        self.lemma_view();
    }

    /// Most frames the cache holds at once.
    pub fn max_frames(&self) -> (r: usize)
        ensures
            r == self.capacity(),
    {
        self.max_frames
    }

    /// The arena of list nodes.
    pub closed spec fn arena(&self) -> Seq<CacheEntry> {
        self.slots@
    }

    /// Arena slots of the list's nodes, from head to tail.
    pub closed spec fn list(&self) -> Seq<usize> {
        self.order@
    }

    pub closed spec fn head_slot(&self) -> Option<usize> {
        self.head
    }

    pub closed spec fn tail_slot(&self) -> Option<usize> {
        self.tail
    }

    /// Arena slot of each cached page.
    pub closed spec fn slot_map(&self) -> Map<PageID, usize> {
        self.map@
    }
}

/// In a well-formed cache the map and the list agree: they have as many
/// entries, each map entry leads to a list node of its own page, and each
/// node is the map's entry for its page. The list holds at most `max_frames`
/// nodes and is doubly linked, with no predecessor at the head and no
/// successor at the tail.
pub proof fn lemma_cache_structure(c: &Cache)
    requires
        c.wf(),
    ensures
        c.slot_map().len() == c.list().len(),
        c@.len() == c.list().len(),
        forall|p: PageID| #[trigger]
            c.slot_map().contains_key(p) ==> c.list().contains(c.slot_map()[p]) && c.arena()[c.slot_map()[p] as int].page_id() == p,
        forall|i: int|
            0 <= i < c.list().len() ==> c.slot_map()[#[trigger] c.arena()[c.list()[i] as int].page_id()] == c.list()[i]
                && c.arena()[c.list()[i] as int].frame()@ == c@[i],
        c@.len() <= c.capacity(),
        linked(c.arena(), c.list(), c.head_slot(), c.tail_slot()),
{
    c.lemma_view();
    assert forall|i: int|
        0 <= i < c.list().len() implies c.slot_map()[#[trigger] c.arena()[c.list()[i] as int].page_id()] == c.list()[i]
            && c.arena()[c.list()[i] as int].frame()@ == c@[i] by {
    }
}

} // verus!
