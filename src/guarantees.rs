use vstd::prelude::*;

use crate::cache::{has_page, lemma_victim_upto, victim};
use crate::page::{FrameView, PageID, FRAME_SIZE};
use crate::scheduler::{lemma_page_index, page_index, touch, DiskView, Error, Load};

verus! {

/// Installing a page that is not cached puts it at the head, and the cached
/// pages stay distinct.
proof fn lemma_installed_head(m: DiskView, p: PageID, content: Seq<u8>)
    requires
        m.valid(),
        m.live.contains_key(p),
        !has_page(m.frames, p),
        m.frames.len() < m.capacity || victim(m.frames) >= 0,
    ensures
        m.installed(p, content).frames[0] == (FrameView {
            page_id: p,
            offset: m.live[p] as int,
            content,
            dirty: false,
            pin_count: 0,
        }),
        has_page(m.installed(p, content).frames, p),
        page_index(m.installed(p, content).frames, p) == 0,
        m.installed(p, content).live == m.live,
{
    let n = m.installed(p, content).frames;
    lemma_victim_upto(m.frames, m.frames.len() as int);
    assert(n[0].page_id == p);
    assert forall|j: int| 0 < j < n.len() implies n[j].page_id != p by {
        if m.frames.len() < m.capacity {
            assert(n[j] == m.frames[j - 1]);
        } else {
            let v = victim(m.frames);
            let i = if j - 1 < v { j - 1 } else { j };
            assert(n[j] == m.frames[i]);
        }
    }
    lemma_page_index(n, p);
}

/// Every live page can be served: it is cached, or it is fetched from its
/// offset, and once its bytes are installed `read_page` returns them. This
/// holds whenever no frame is pinned.
pub proof fn lemma_live_page_readable(m: DiskView, p: PageID, content: Seq<u8>)
    requires
        m.valid(),
        m.live.contains_key(p),
        forall|k: int| 0 <= k < m.frames.len() ==> (#[trigger] m.frames[k]).pin_count == 0,
    ensures
        m.load_outcome(p) is Cached ==> m.touched(p).read_outcome(p) is Ok,
        m.load_outcome(p) is Fetch ==> {
            &&& m.load_outcome(p) == Load::Fetch(m.live[p])
            &&& m.touched(p) == m
            &&& m.installed(p, content).read_outcome(p) == Ok::<Seq<u8>, Error>(content)
        },
        !(m.load_outcome(p) is Missing),
{
    lemma_page_index(m.frames, p);
    if has_page(m.frames, p) {
        let k = page_index(m.frames, p);
        let t = m.touched(p).frames;
        assert(t[0].page_id == p);
        assert(has_page(t, p));
        lemma_page_index(t, p);
    } else {
        assert(m.touched(p) =~= m);
        if m.frames.len() >= m.capacity {
            assert(m.frames[m.frames.len() - 1].pin_count == 0);
            assert(victim(m.frames) == m.frames.len() - 1);
        }
        lemma_installed_head(m, p, content);
    }
}

/// Bytes written to a cached page are what the next flush writes at the
/// page's offset, the frame is clean afterwards, and `read_page` returns them.
/// Until the flush, evicting the frame hands back a dirty frame with those
/// bytes at that offset; after it, a clean one, and reloading the page from
/// the bytes at its offset gives them back.
pub proof fn lemma_write_flush_read(m: DiskView, p: PageID, b: Seq<u8>)
    requires
        m.valid(),
        has_page(m.frames, p),
        b.len() == FRAME_SIZE,
    ensures
        ({
            let w = m.written(p, b);
            let f = m.written(p, b).flushed(p);
            &&& w.pending_write(p) == Some((m.live[p] as int, b))
            &&& w.frames[page_index(w.frames, p)] == (FrameView {
                page_id: p,
                offset: m.live[p] as int,
                content: b,
                dirty: true,
                pin_count: m.frames[page_index(m.frames, p)].pin_count,
            })
            &&& f.read_outcome(p) == Ok::<Seq<u8>, Error>(b)
            &&& f.frames[page_index(f.frames, p)] == (FrameView {
                page_id: p,
                offset: m.live[p] as int,
                content: b,
                dirty: false,
                pin_count: m.frames[page_index(m.frames, p)].pin_count,
            })
            &&& f.live == m.live
        }),
{
    lemma_page_index(m.frames, p);
    let k = page_index(m.frames, p);
    let w = m.written(p, b);
    let t = touch(m.frames, p);
    assert(t[0] == m.frames[k]);
    assert forall|j: int| 0 < j < w.frames.len() implies w.frames[j].page_id != p by {
        let i = if j - 1 < k { j - 1 } else { j };
        assert(w.frames[j] == m.frames[i]);
    }
    assert(has_page(w.frames, p)) by {
        assert(w.frames[0].page_id == p);
    }
    lemma_page_index(w.frames, p);
    let f = w.flushed(p);
    assert(f.frames[0].page_id == p);
    assert(has_page(f.frames, p));
    lemma_page_index(f.frames, p);
    assert forall|j: int| 0 < j < f.frames.len() implies f.frames[j].page_id != p by {
        assert(f.frames[j] == w.frames[j]);
    }
}

/// Flushing twice in a row writes once: after the first flush the frame is
/// clean and there is nothing left to write.
pub proof fn lemma_flush_twice(m: DiskView, p: PageID)
    requires
        m.valid(),
    ensures
        m.flushed(p).pending_write(p) is None,
        m.flushed(p).flushed(p) == m.flushed(p),
{
    lemma_page_index(m.frames, p);
    if has_page(m.frames, p) {
        let k = page_index(m.frames, p);
        let f = m.flushed(p);
        assert(f.frames[k].page_id == p);
        assert(has_page(f.frames, p));
        assert forall|j: int| 0 <= j < f.frames.len() && j != k implies f.frames[j].page_id != p by {
            assert(f.frames[j] == m.frames[j]);
        }
        lemma_page_index(f.frames, p);
        assert(f.flushed(p).frames =~= f.frames);
    }
}

/// Deleting the page that `new_page` just gave out restores the live pages
/// and the cache, keeps the grown file, and makes the page's offset the next
/// one to be handed out.
pub proof fn lemma_new_then_delete(m: DiskView)
    requires
        m.valid(),
        m.highest < PageID::MAX,
    ensures
        ({
            let a = m.allocated();
            let d = m.allocated().deleted(a.highest);
            &&& d.live == m.live
            &&& d.frames == m.frames
            &&& d.file_len == a.file_len
            &&& a.file_len >= m.file_len
            &&& d.next_offset() == m.next_offset()
            &&& d.free.len() > 0
        }),
{
    let a = m.allocated();
    let id = a.highest;
    assert(!m.live.contains_key(id));
    assert(a.live.contains_key(id));
    lemma_page_index(a.frames, id);
    assert(!has_page(a.frames, id)) by {
        if has_page(a.frames, id) {
            let k = choose|k: int| 0 <= k < a.frames.len() && a.frames[k].page_id == id;
            assert(m.frames[k].page_id == id);
            assert(m.live.contains_key(m.frames[k].page_id));
        }
    }
    let d = a.deleted(id);
    assert(d.live =~= m.live);
    assert(a.live[id] == m.next_offset());
    assert(d.free == a.free.push(a.live[id]));
    assert(d.free.last() == a.live[id]);
    assert(d.frames == m.frames);
}

/// With room for one frame and pages touched one after another, each new
/// page evicts the one before it, which is written out if it is dirty.
pub proof fn lemma_single_frame_evicts(m: DiskView, p: PageID, content: Seq<u8>)
    requires
        m.valid(),
        m.capacity == 1,
        m.frames.len() == 1,
        m.frames[0].pin_count == 0,
        m.live.contains_key(p),
        m.frames[0].page_id != p,
    ensures
        m.load_outcome(p) == Load::Fetch(m.live[p]),
        victim(m.frames) == 0,
        m.installed(p, content).frames == seq![
            FrameView {
                page_id: p,
                offset: m.live[p] as int,
                content,
                dirty: false,
                pin_count: 0,
            },
        ],
{
    assert(!has_page(m.frames, p));
    assert(m.frames.remove(0) =~= Seq::<FrameView>::empty());
    assert(m.installed(p, content).frames =~= seq![
        FrameView { page_id: p, offset: m.live[p] as int, content, dirty: false, pin_count: 0 },
    ]);
}

/// Deleting the only cached page leaves the cache empty and the file as long.
pub proof fn lemma_delete_only_page(m: DiskView, p: PageID)
    requires
        m.valid(),
        m.frames.len() == 1,
        m.frames[0].page_id == p,
    ensures
        m.deleted(p).frames.len() == 0,
        m.deleted(p).file_len == m.file_len,
        !m.deleted(p).live.contains_key(p),
{
    assert(has_page(m.frames, p));
    lemma_page_index(m.frames, p);
}

/// Allocating, deleting that page and allocating again reuses the freed
/// offset under a greater identifier.
pub proof fn lemma_realloc_reuses_offset(m: DiskView)
    requires
        m.valid(),
        m.highest < PageID::MAX - 1,
    ensures
        ({
            let a = m.allocated();
            let b = a.deleted(a.highest).allocated();
            &&& b.highest > a.highest
            &&& b.live[b.highest] == a.live[a.highest]
            &&& a.live[a.highest] == m.next_offset()
            &&& b.file_len == a.file_len
        }),
{
    lemma_new_then_delete(m);
    let a = m.allocated();
    let d = a.deleted(a.highest);
    assert(d.free.last() == a.live[a.highest]);
}

/// Serves the pages `ps` one after another: each is made the most recently
/// used, fetched with `content` when it is not cached, and then overwritten
/// with `content` when `write` is set. Gives the final state, the number of
/// evictions and the number of evicted frames that had to be written out.
pub open spec fn serve_all(m: DiskView, ps: Seq<PageID>, content: Seq<u8>, write: bool) -> (
    DiskView,
    nat,
    nat,
)
    decreases ps.len(),
{
    if ps.len() == 0 {
        (m, 0, 0)
    } else {
        let prev = serve_all(m, ps.drop_last(), content, write);
        let p = ps.last();
        let t = prev.0.touched(p);
        let evicts = !has_page(t.frames, p) && t.live.contains_key(p) && t.frames.len()
            >= t.capacity && victim(t.frames) >= 0;
        let flushes = evicts && t.frames[victim(t.frames)].dirty;
        let i = t.installed(p, content);
        let n = if write {
            i.written(p, content)
        } else {
            i
        };
        (n, prev.1 + if evicts {
            1nat
        } else {
            0nat
        }, prev.2 + if flushes {
            1nat
        } else {
            0nat
        })
    }
}

/// With room for one frame, serving `n >= 1` distinct live pages one after
/// another evicts `n - 1` frames, and writes out all of them when every page
/// was written to (none otherwise).
pub proof fn lemma_single_frame_eviction_count(
    m: DiskView,
    ps: Seq<PageID>,
    content: Seq<u8>,
    write: bool,
)
    requires
        m.valid(),
        m.capacity == 1,
        m.frames.len() == 0,
        ps.len() >= 1,
        ps.no_duplicates(),
        forall|i: int| 0 <= i < ps.len() ==> m.live.contains_key(#[trigger] ps[i]),
    ensures
        serve_all(m, ps, content, write).1 == ps.len() - 1,
        serve_all(m, ps, content, write).2 == if write {
            ps.len() - 1
        } else {
            0
        },
{
    lemma_serve_all_shape(m, ps, content, write);
}

proof fn lemma_serve_all_shape(m: DiskView, ps: Seq<PageID>, content: Seq<u8>, write: bool)
    requires
        m.valid(),
        m.capacity == 1,
        m.frames.len() == 0,
        ps.len() >= 1,
        ps.no_duplicates(),
        forall|i: int| 0 <= i < ps.len() ==> m.live.contains_key(#[trigger] ps[i]),
    ensures
        ({
            let r = serve_all(m, ps, content, write);
            &&& r.0.capacity == 1
            &&& r.0.live == m.live
            &&& r.0.frames.len() == 1
            &&& r.0.frames[0].page_id == ps.last()
            &&& r.0.frames[0].pin_count == 0
            &&& r.0.frames[0].dirty == write
            &&& r.1 == ps.len() - 1
            &&& r.2 == if write {
                ps.len() - 1
            } else {
                0
            }
        }),
    decreases ps.len(),
{
    let p = ps.last();
    assert(m.live.contains_key(ps[ps.len() - 1]));
    if ps.len() == 1 {
        assert(ps.drop_last().len() == 0);
        let prev = serve_all(m, ps.drop_last(), content, write);
        assert(prev.0 == m);
        assert(!has_page(m.frames, p));
        let t = m.touched(p);
        assert(t == m);
        let i = t.installed(p, content);
        assert(i.frames.len() == 1 && i.frames[0].page_id == p);
        if write {
            assert(has_page(i.frames, p)) by {
                assert(i.frames[0].page_id == p);
            }
            lemma_page_index(i.frames, p);
        }
    } else {
        let rest = ps.drop_last();
        assert forall|i: int| 0 <= i < rest.len() implies m.live.contains_key(#[trigger] rest[i]) by {
            assert(rest[i] == ps[i]);
        }
        assert(rest.no_duplicates()) by {
            assert forall|i: int, j: int| 0 <= i < j < rest.len() implies rest[i] != rest[j] by {
                assert(rest[i] == ps[i] && rest[j] == ps[j]);
            }
        }
        lemma_serve_all_shape(m, rest, content, write);
        let prev = serve_all(m, rest, content, write);
        assert(rest.last() == ps[ps.len() - 2]);
        assert(prev.0.frames[0].page_id != p);
        assert(!has_page(prev.0.frames, p));
        let t = prev.0.touched(p);
        assert(t == prev.0);
        assert(victim(t.frames) == 0);
        let i = t.installed(p, content);
        assert(t.frames.remove(0) =~= Seq::<FrameView>::empty());
        assert(i.frames.len() == 1 && i.frames[0].page_id == p);
        if write {
            assert(has_page(i.frames, p)) by {
                assert(i.frames[0].page_id == p);
            }
            lemma_page_index(i.frames, p);
        }
    }
}

} // verus!
