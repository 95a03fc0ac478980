//! The shared-memory scheme: named memory objects that processes open,
//! size, map, read and write, and that live until they are unlinked and
//! the last handle to them is closed.
//!
//! The memory of an object is a list of mapped segments; the scheme works
//! out which segment bytes a read or write touches, and how much memory
//! has to be mapped, while the mapping and the copying of bytes are done by
//! its caller.

use vstd::prelude::*;
use crate::errno::Errno;

verus! {

/// The size of a memory page.
pub const PAGE_SIZE: usize = 4096;
/// `unlinkat` flag: remove a directory.
pub const AT_REMOVEDIR: usize = 0x200;
/// Open flag: create the object when it does not exist.
pub const O_CREAT: usize = 0x0200_0000;
/// Open flag: with `O_CREAT`, fail when the object exists.
pub const O_EXCL: usize = 0x0800_0000;

/// A mapped piece of memory: its address and size.
#[derive(Debug, Clone, Copy)]
pub struct MmapSegment {
    pub base: usize,
    pub size: usize,
}

/// The memory of a shared object: the segments mapped for it, in order,
/// and the length in use.
pub struct MmapGuard {
    pub segments: Vec<MmapSegment>,
    pub len: usize,
}

/// The total size of the segments.
pub open spec fn seg_total(s: Seq<MmapSegment>) -> nat
    decreases s.len(),
{
    if s.len() == 0 {
        0
    } else {
        seg_total(s.drop_last()) + s.last().size as nat
    }
}

/// Where segment `i` starts in the object.
pub open spec fn seg_start(s: Seq<MmapSegment>, i: int) -> nat {
    seg_total(s.take(i))
}

proof fn lemma_seg_start_step(s: Seq<MmapSegment>, i: int)
    requires
        0 <= i < s.len(),
    ensures
        seg_start(s, i + 1) == seg_start(s, i) + s[i].size,
{
    assert(s.take(i + 1).drop_last() =~= s.take(i));
}

proof fn lemma_seg_start_le_total(s: Seq<MmapSegment>, i: int)
    requires
        0 <= i <= s.len(),
    ensures
        seg_start(s, i) <= seg_total(s),
    decreases s.len() - i,
{
    if i < s.len() {
        lemma_seg_start_step(s, i);
        lemma_seg_start_le_total(s, i + 1);
    } else {
        assert(s.take(i) =~= s);
    }
}

proof fn lemma_seg_start_mono(s: Seq<MmapSegment>, a: int, b: int)
    requires
        0 <= a <= b <= s.len(),
    ensures
        seg_start(s, a) <= seg_start(s, b),
    decreases b - a,
{
    if a < b {
        lemma_seg_start_step(s, b - 1);
        lemma_seg_start_mono(s, a, b - 1);
    }
}

proof fn lemma_one_segment(s: Seq<MmapSegment>, i: int, j: int, p: int)
    requires
        0 <= i < s.len(),
        0 <= j < s.len(),
        seg_start(s, i) <= p < seg_start(s, i) + s[i].size,
        seg_start(s, j) <= p < seg_start(s, j) + s[j].size,
    ensures
        i == j,
{
    if i < j {
        lemma_seg_start_step(s, i);
        lemma_seg_start_mono(s, i + 1, j);
    } else if j < i {
        lemma_seg_start_step(s, j);
        lemma_seg_start_mono(s, j + 1, i);
    }
}

/// A piece of a read or write: `len` bytes at address `addr`, in segment
/// `seg`, go to or come from the caller's buffer at `buf_idx`.
#[derive(Debug, Clone, Copy)]
pub struct Chunk {
    pub seg: usize,
    pub addr: usize,
    pub buf_idx: usize,
    pub len: usize,
}

/// `chunks` cover the bytes `offset .. offset + n` of the object made of
/// the segments `s`, in order and without gaps, each as much of one
/// segment as the request still needs.
pub open spec fn covers(s: Seq<MmapSegment>, offset: int, n: int, chunks: Seq<Chunk>) -> bool {
    &&& (chunks.len() == 0 <==> n == 0)
    &&& chunks.len() > 0 ==> chunks[0].buf_idx == 0 && chunks.last().buf_idx + chunks.last().len == n
    &&& forall|k: int| 0 < k < chunks.len() ==> #[trigger] chunks[k].buf_idx == chunks[k - 1].buf_idx + chunks[k - 1].len
    &&& forall|k: int| 0 <= k < chunks.len() ==> {
        let c = #[trigger] chunks[k];
        let p = offset + c.buf_idx;
        let i = c.seg as int;
        let start = seg_start(s, i);
        &&& i < s.len()
        &&& start <= p < start + s[i].size
        &&& c.len > 0
        &&& c.addr == s[i].base + (p - start)
        &&& c.len == if start + s[i].size - p <= n - c.buf_idx { start + s[i].size - p } else { n - c.buf_idx }
    }
}

/// A read and a write of the same bytes of an object touch the same
/// pieces of its memory: the pieces that cover a run of bytes are unique.
/// So a read gives back what a write of those bytes put there.
pub proof fn lemma_covers_unique(s: Seq<MmapSegment>, offset: int, n: int, a: Seq<Chunk>, b: Seq<Chunk>)
    requires
        covers(s, offset, n, a),
        covers(s, offset, n, b),
    ensures
        a == b,
{
    let m = if a.len() <= b.len() { a.len() } else { b.len() };
    assert forall|k: int| 0 <= k < m implies #[trigger] a[k] == b[k] by {
        lemma_covers_prefix(s, offset, n, a, b, k);
    }
    if a.len() < b.len() {
        if a.len() == 0 {
            assert(n == 0);
        } else {
            lemma_covers_prefix(s, offset, n, a, b, a.len() - 1);
            assert(b[a.len() as int].buf_idx == n);
            assert(b[a.len() as int].len > 0);
        }
    } else if b.len() < a.len() {
        if b.len() == 0 {
            assert(n == 0);
        } else {
            lemma_covers_prefix(s, offset, n, a, b, b.len() - 1);
            assert(a[b.len() as int].buf_idx == n);
            assert(a[b.len() as int].len > 0);
        }
    }
    assert(a =~= b);
}

proof fn lemma_covers_prefix(s: Seq<MmapSegment>, offset: int, n: int, a: Seq<Chunk>, b: Seq<Chunk>, k: int)
    requires
        covers(s, offset, n, a),
        covers(s, offset, n, b),
        0 <= k < a.len(),
        k < b.len(),
    ensures
        a[k] == b[k],
    decreases k,
{
    if k > 0 {
        lemma_covers_prefix(s, offset, n, a, b, k - 1);
        assert(a[k].buf_idx == a[k - 1].buf_idx + a[k - 1].len);
        assert(b[k].buf_idx == b[k - 1].buf_idx + b[k - 1].len);
    }
    let ca = a[k];
    let cb = b[k];
    assert(ca.buf_idx == cb.buf_idx);
    lemma_one_segment(s, ca.seg as int, cb.seg as int, offset + ca.buf_idx);
}

impl MmapGuard {
    /// The segments' sizes fit the address space, and so does their sum,
    /// which holds the length in use.
    pub open spec fn wf(&self) -> bool {
        &&& seg_total(self.segments@) <= usize::MAX
        &&& self.len <= seg_total(self.segments@)
        &&& forall|i: int| 0 <= i < self.segments@.len() ==> #[trigger] self.segments@[i].base + self.segments@[i].size <= usize::MAX
    }

    /// No memory yet.
    pub fn empty() -> (g: MmapGuard)
        ensures
            g.wf(),
            g.segments@.len() == 0,
            g.len == 0,
    {
        MmapGuard { segments: Vec::new(), len: 0 }
    }

    /// The total size of the segments.
    pub fn total_capacity(&self) -> (t: usize)
        requires
            self.wf(),
        ensures
            t == seg_total(self.segments@),
    {
        let mut t: usize = 0;
        let mut i: usize = 0;
        while i < self.segments.len()
            invariant
                self.wf(),
                i <= self.segments@.len(),
                t == seg_start(self.segments@, i as int),
            decreases self.segments.len() - i,
        {
            proof {
                lemma_seg_start_step(self.segments@, i as int);
                lemma_seg_start_le_total(self.segments@, i + 1);
            }
            t = t + self.segments[i].size;
            i += 1;
        }
        proof {
            assert(self.segments@.take(i as int) =~= self.segments@);
        }
        t
    }

    /// The length in use.
    pub fn len(&self) -> (l: usize)
        ensures
            l == self.len,
    {
        self.len
    }

    /// The address of the first segment, 0 without one.
    pub fn as_ptr(&self) -> (p: usize)
        ensures
            p == if self.segments@.len() > 0 { self.segments@[0].base } else { 0 },
    {
        if self.segments.len() > 0 {
            self.segments[0].base
        } else {
            0
        }
    }

    /// Grows the length in use to `new_len`. When the segments hold it
    /// already, the length is set and nothing more is needed; otherwise the
    /// length stays and the size of the segment to map is returned: the
    /// missing bytes rounded up to whole pages.
    pub fn grow_fits(&mut self, new_len: usize) -> (r: Option<usize>)
        requires
            old(self).wf(),
            new_len > seg_total(old(self).segments@) ==> new_len - seg_total(old(self).segments@) + PAGE_SIZE <= usize::MAX,
        ensures
            final(self).wf(),
            final(self).segments@ == old(self).segments@,
            new_len <= seg_total(old(self).segments@) ==> r is None && final(self).len == new_len,
            new_len > seg_total(old(self).segments@) ==> final(self).len == old(self).len && r == Some(
                (((new_len - seg_total(old(self).segments@) + PAGE_SIZE - 1) / PAGE_SIZE as int) * PAGE_SIZE) as usize,
            ),
    {
        let total = self.total_capacity();
        if new_len <= total {
            self.len = new_len;
            return None;
        }
        let needed = new_len - total;
        let page_count = needed / PAGE_SIZE + if needed % PAGE_SIZE != 0 { 1 } else { 0 };
        assert(page_count == (needed + PAGE_SIZE - 1) / PAGE_SIZE as int) by (nonlinear_arith)
            requires
                page_count == needed / 4096 + if needed % 4096 != 0 { 1int } else { 0int },
                needed > 0,
        ;
        assert(page_count * PAGE_SIZE <= needed + PAGE_SIZE - 1) by (nonlinear_arith)
            requires
                page_count == (needed + 4095) / 4096,
        ;
        Some(page_count * PAGE_SIZE)
    }

    /// Records a segment of `size` bytes mapped at `base` for growing the
    /// length in use to `new_len`.
    pub fn add_segment(&mut self, base: usize, size: usize, new_len: usize)
        requires
            old(self).wf(),
            base + size <= usize::MAX,
            seg_total(old(self).segments@) + size <= usize::MAX,
            new_len <= seg_total(old(self).segments@) + size,
        ensures
            final(self).wf(),
            final(self).segments@ == old(self).segments@.push(MmapSegment { base, size }),
            final(self).len == new_len,
    {
        let ghost s0 = self.segments@;
        self.segments.push(MmapSegment { base, size });
        proof {
            assert(self.segments@.drop_last() =~= s0);
        }
        self.len = new_len;
    }

    /// The pieces of the segments that bytes `offset .. offset + n` of the
    /// object lie in.
    pub fn chunks(&self, offset: usize, n: usize) -> (r: Vec<Chunk>)
        requires
            self.wf(),
            offset + n <= seg_total(self.segments@),
        ensures
            covers(self.segments@, offset as int, n as int, r@),
    {
        let ghost s = self.segments@;
        let mut r: Vec<Chunk> = Vec::new();
        let mut done: usize = 0;
        let mut start: usize = 0;
        let mut i: usize = 0;
        while i < self.segments.len() && done < n
            invariant
                self.wf(),
                s == self.segments@,
                offset + n <= seg_total(s),
                i <= s.len(),
                start == seg_start(s, i as int),
                done <= n,
                done < n ==> offset + done >= start,
                0 < done < n ==> offset + done == start,
                (r@.len() == 0 <==> done == 0),
                r@.len() > 0 ==> r@[0].buf_idx == 0 && r@.last().buf_idx + r@.last().len == done,
                forall|k: int| 0 < k < r@.len() ==> #[trigger] r@[k].buf_idx == r@[k - 1].buf_idx + r@[k - 1].len,
                forall|k: int| 0 <= k < r@.len() ==> {
                    let c = #[trigger] r@[k];
                    let p = offset + c.buf_idx;
                    let j = c.seg as int;
                    let st = seg_start(s, j);
                    &&& j < s.len()
                    &&& st <= p < st + s[j].size
                    &&& c.len > 0
                    &&& c.addr == s[j].base + (p - st)
                    &&& c.len == if st + s[j].size - p <= n - c.buf_idx { st + s[j].size - p } else { n - c.buf_idx }
                },
            decreases s.len() - i,
        {
            proof {
                lemma_seg_start_step(s, i as int);
                lemma_seg_start_le_total(s, i + 1);
            }
            let seg = self.segments[i];
            let p = offset + done;
            if p < start + seg.size {
                let off = p - start;
                let room = seg.size - off;
                let want = n - done;
                let len = if room <= want { room } else { want };
                let ghost pre = r@;
                assert(s[i as int].base + s[i as int].size <= usize::MAX);
                r.push(Chunk { seg: i, addr: seg.base + off, buf_idx: done, len });
                proof {
                    assert forall|k: int| 0 <= k < pre.len() implies r@[k] == pre[k] by {}
                }
                done = done + len;
            }
            start = start + seg.size;
            i += 1;
        }
        proof {
            if done < n {
                assert(s.take(i as int) =~= s);
            }
        }
        r
    }
}

/// What a write to an object's memory comes to.
#[derive(Debug)]
pub enum WriteStep {
    /// Copy the caller's bytes into these pieces of the segments.
    Copy(Vec<Chunk>),
    /// Map a segment of this many bytes first (and record it with
    /// `add_segment`), then write again.
    Grow(usize),
}

impl MmapGuard {
    /// A write of `n` bytes at `offset`: when the segments hold its end,
    /// the length in use grows to it and the pieces to copy into are
    /// returned; otherwise the size of the segment to map first. A write
    /// whose end overflows is out of range.
    pub fn write_plan(&mut self, offset: usize, n: usize) -> (r: Result<WriteStep, Errno>)
        requires
            old(self).wf(),
            offset + n <= usize::MAX ==> offset + n - seg_total(old(self).segments@) + PAGE_SIZE <= usize::MAX,
        ensures
            final(self).wf(),
            final(self).segments@ == old(self).segments@,
            offset + n > usize::MAX ==> r == Err::<WriteStep, Errno>(Errno::Range) && final(self).len == old(self).len,
            offset + n <= usize::MAX && offset + n > seg_total(old(self).segments@) ==> final(self).len == old(self).len
                && r == Ok::<WriteStep, Errno>(WriteStep::Grow(
                    (((offset + n - seg_total(old(self).segments@) + PAGE_SIZE - 1) / PAGE_SIZE as int) * PAGE_SIZE) as usize,
                )),
            offset + n <= seg_total(old(self).segments@) ==> final(self).len == (if offset + n > old(self).len { (offset + n) as usize } else { old(self).len })
                && (r matches Ok(WriteStep::Copy(c)) && covers(old(self).segments@, offset as int, n as int, c@)),
    {
        let end = match offset.checked_add(n) {
            Some(e) => e,
            None => return Err(Errno::Range),
        };
        let total = self.total_capacity();
        if end > total {
            let g = self.grow_fits(end);
            match g {
                Some(size) => Ok(WriteStep::Grow(size)),
                None => Err(Errno::Range),
            }
        } else {
            if end > self.len {
                self.len = end;
            }
            Ok(WriteStep::Copy(self.chunks(offset, n)))
        }
    }

    /// A read of up to `n` bytes at `offset`: the pieces of the segments to
    /// copy from, for the bytes in use there; none at or past the end.
    pub fn read_plan(&self, offset: usize, n: usize) -> (r: Vec<Chunk>)
        requires
            self.wf(),
        ensures
            offset >= self.len ==> r@.len() == 0,
            offset < self.len ==> covers(self.segments@, offset as int, if n <= self.len - offset { n as int } else { self.len - offset }, r@),
    {
        if offset >= self.len {
            return Vec::new();
        }
        let avail = self.len - offset;
        let m = if n <= avail { n } else { avail };
        self.chunks(offset, m)
    }
}

/// What a handle of the scheme refers to.
#[derive(Debug)]
pub enum Handle {
    /// A shared object, by name.
    Shm(Vec<u8>),
    /// The scheme itself, in which objects are opened and unlinked.
    SchemeRoot,
}

/// The object a handle refers to, if any.
pub open spec fn handle_path(h: Handle) -> Option<Seq<u8>> {
    match h {
        Handle::Shm(p) => Some(p@),
        Handle::SchemeRoot => None,
    }
}

/// A shared object: its memory once it has some, the number of handles
/// open on it, and whether its name was unlinked.
pub struct ShmHandle {
    pub buffer: Option<MmapGuard>,
    pub refs: usize,
    pub unlinked: bool,
}

/// The number of handles open on the object `path`.
pub open spec fn refcount(hs: Seq<(usize, Handle)>, path: Seq<u8>) -> nat
    decreases hs.len(),
{
    if hs.len() == 0 {
        0
    } else {
        refcount(hs.drop_last(), path) + if handle_path(hs.last().1) == Some(path) { 1nat } else { 0nat }
    }
}

proof fn lemma_refcount_push(hs: Seq<(usize, Handle)>, x: (usize, Handle), path: Seq<u8>)
    ensures
        refcount(hs.push(x), path) == refcount(hs, path) + if handle_path(x.1) == Some(path) { 1nat } else { 0nat },
{
    assert(hs.push(x).drop_last() =~= hs);
}

proof fn lemma_refcount_remove(hs: Seq<(usize, Handle)>, i: int, path: Seq<u8>)
    requires
        0 <= i < hs.len(),
    ensures
        refcount(hs, path) == refcount(hs.remove(i), path) + if handle_path(hs[i].1) == Some(path) { 1nat } else { 0nat },
    decreases hs.len(),
{
    if i == hs.len() - 1 {
        assert(hs.remove(i) =~= hs.drop_last());
    } else {
        lemma_refcount_remove(hs.drop_last(), i, path);
        assert(hs.remove(i).drop_last() =~= hs.drop_last().remove(i));
        assert(hs.remove(i).last() == hs.last());
    }
}

proof fn lemma_refcount_le(hs: Seq<(usize, Handle)>, path: Seq<u8>)
    ensures
        refcount(hs, path) <= hs.len(),
    decreases hs.len(),
{
    if hs.len() > 0 {
        lemma_refcount_le(hs.drop_last(), path);
    }
}

proof fn lemma_refcount_pos(hs: Seq<(usize, Handle)>, k: int, path: Seq<u8>)
    requires
        0 <= k < hs.len(),
        handle_path(hs[k].1) == Some(path),
    ensures
        refcount(hs, path) >= 1,
    decreases hs.len(),
{
    if k < hs.len() - 1 {
        lemma_refcount_pos(hs.drop_last(), k, path);
    }
}

/// Some object is named `path`.
pub open spec fn has_object(maps: Seq<(Vec<u8>, ShmHandle)>, path: Seq<u8>) -> bool {
    exists|j: int| 0 <= j < maps.len() && maps[j].0@ == path
}

/// Some handle has the number `id`.
pub open spec fn has_handle(hs: Seq<(usize, Handle)>, id: usize) -> bool {
    exists|i: int| 0 <= i < hs.len() && hs[i].0 == id
}

/// The shared-memory scheme: its objects by name, its handles by number,
/// and the number the next handle gets.
pub struct ShmScheme {
    pub maps: Vec<(Vec<u8>, ShmHandle)>,
    pub handles: Vec<(usize, Handle)>,
    pub next_id: usize,
}

/// The object `j` is unchanged but for its number of handles.
pub open spec fn same_but_refs(a: (Vec<u8>, ShmHandle), b: (Vec<u8>, ShmHandle)) -> bool {
    a.0@ == b.0@ && a.1.buffer == b.1.buffer && a.1.unlinked == b.1.unlinked
}

impl ShmScheme {
    /// Names and numbers do not repeat, numbers are below the next one,
    /// every handle's object exists, each object counts the handles open
    /// on it, and the memory of each object is well formed.
    pub open spec fn wf(&self) -> bool {
        &&& forall|i: int, j: int| 0 <= i < j < self.maps@.len() ==> #[trigger] self.maps@[i].0@ != #[trigger] self.maps@[j].0@
        &&& forall|i: int, j: int| 0 <= i < j < self.handles@.len() ==> #[trigger] self.handles@[i].0 != #[trigger] self.handles@[j].0
        &&& forall|i: int| 0 <= i < self.handles@.len() ==> #[trigger] self.handles@[i].0 < self.next_id
        &&& self.handles@.len() <= self.next_id
        &&& forall|i: int| 0 <= i < self.handles@.len() ==> (#[trigger] handle_path(self.handles@[i].1) matches Some(p) ==> has_object(self.maps@, p))
        &&& forall|j: int| 0 <= j < self.maps@.len() ==> #[trigger] self.maps@[j].1.refs == refcount(self.handles@, self.maps@[j].0@)
        &&& forall|j: int| 0 <= j < self.maps@.len() ==> (#[trigger] self.maps@[j].1.buffer matches Some(g) ==> g.wf())
    }

    /// No objects and no handles.
    pub fn new() -> (s: ShmScheme)
        ensures
            s.wf(),
            s.maps@.len() == 0,
            s.handles@.len() == 0,
            s.next_id == 0,
    {
        ShmScheme { maps: Vec::new(), handles: Vec::new(), next_id: 0 }
    }

    fn find_handle(&self, id: usize) -> (r: Option<usize>)
        ensures
            match r {
                Some(i) => i < self.handles@.len() && self.handles@[i as int].0 == id,
                None => !has_handle(self.handles@, id),
            },
    {
        let mut i: usize = 0;
        while i < self.handles.len()
            invariant
                i <= self.handles@.len(),
                forall|k: int| 0 <= k < i ==> self.handles@[k].0 != id,
            decreases self.handles.len() - i,
        {
            if self.handles[i].0 == id {
                return Some(i);
            }
            i += 1;
        }
        None
    }

    fn find_object(&self, path: &[u8]) -> (r: Option<usize>)
        ensures
            match r {
                Some(j) => j < self.maps@.len() && self.maps@[j as int].0@ == path@,
                None => !has_object(self.maps@, path@),
            },
    {
        let mut j: usize = 0;
        while j < self.maps.len()
            invariant
                j <= self.maps@.len(),
                forall|k: int| 0 <= k < j ==> self.maps@[k].0@ != path@,
            decreases self.maps.len() - j,
        {
            if bytes_eq(self.maps[j].0.as_slice(), path) {
                return Some(j);
            }
            j += 1;
        }
        None
    }

    /// Opens the scheme itself: a new handle on the root.
    pub fn scheme_root(&mut self) -> (id: usize)
        requires
            old(self).wf(),
            old(self).next_id < usize::MAX,
        ensures
            final(self).wf(),
            id == old(self).next_id,
            final(self).next_id == old(self).next_id + 1,
            final(self).handles@.len() == old(self).handles@.len() + 1,
            forall|i: int| 0 <= i < old(self).handles@.len() ==> #[trigger] final(self).handles@[i] == old(self).handles@[i],
            final(self).handles@.last().0 == id && final(self).handles@.last().1 is SchemeRoot,
            final(self).maps@ == old(self).maps@,
    {
        let id = self.next_id;
        let ghost h0 = self.handles@;
        self.handles.push((id, Handle::SchemeRoot));
        self.next_id = id + 1;
        proof {
            assert forall|j: int| 0 <= j < self.maps@.len() implies #[trigger] self.maps@[j].1.refs == refcount(self.handles@, self.maps@[j].0@) by {
                lemma_refcount_push(h0, (id, Handle::SchemeRoot), self.maps@[j].0@);
            }
            assert forall|i: int| 0 <= i < self.handles@.len() implies (#[trigger] handle_path(self.handles@[i].1) matches Some(p) ==> has_object(self.maps@, p)) by {
                if i < h0.len() {
                    assert(self.handles@[i] == h0[i]);
                }
            }
        }
        id
    }

    /// Opens the object `path` in the scheme's root `dirfd`: an object that
    /// exists is opened unless `O_CREAT` and `O_EXCL` are both given; one
    /// that does not is created, empty, when `O_CREAT` is given. The new
    /// handle's number is returned.
    #[verifier::spinoff_prover]
    #[verifier::rlimit(40)]
    pub fn openat(&mut self, dirfd: usize, path: &[u8], flags: usize) -> (r: Result<usize, Errno>)
        requires
            old(self).wf(),
            old(self).next_id < usize::MAX,
        ensures
            final(self).wf(),
            !has_handle(old(self).handles@, dirfd) ==> r == Err::<usize, Errno>(Errno::BadF),
            has_handle(old(self).handles@, dirfd) && !(exists|i: int| 0 <= i < old(self).handles@.len() && old(self).handles@[i].0 == dirfd
                && old(self).handles@[i].1 is SchemeRoot) ==> r == Err::<usize, Errno>(Errno::Acces),
            (exists|i: int| 0 <= i < old(self).handles@.len() && old(self).handles@[i].0 == dirfd && old(self).handles@[i].1 is SchemeRoot) ==> {
                let exists_ = has_object(old(self).maps@, path@);
                &&& exists_ && flags & O_EXCL != 0 && flags & O_CREAT != 0 ==> r == Err::<usize, Errno>(Errno::Exist)
                &&& !exists_ && flags & O_CREAT == 0 ==> r == Err::<usize, Errno>(Errno::NoEnt)
                &&& (exists_ && !(flags & O_EXCL != 0 && flags & O_CREAT != 0)) || (!exists_ && flags & O_CREAT != 0) ==> {
                    &&& r == Ok::<usize, Errno>(old(self).next_id)
                    &&& final(self).next_id == old(self).next_id + 1
                    &&& final(self).handles@.len() == old(self).handles@.len() + 1
                    &&& forall|i: int| 0 <= i < old(self).handles@.len() ==> #[trigger] final(self).handles@[i] == old(self).handles@[i]
                    &&& final(self).handles@.last().0 == old(self).next_id
                    &&& handle_path(final(self).handles@.last().1) == Some(path@)
                    &&& has_object(final(self).maps@, path@)
                    &&& !exists_ ==> final(self).maps@.len() == old(self).maps@.len() + 1
                        && final(self).maps@.last().1.buffer is None && !final(self).maps@.last().1.unlinked
                        && forall|j: int| 0 <= j < old(self).maps@.len() ==> #[trigger] final(self).maps@[j] == old(self).maps@[j]
                    &&& exists_ ==> final(self).maps@.len() == old(self).maps@.len()
                        && forall|j: int| 0 <= j < old(self).maps@.len() ==> same_but_refs(#[trigger] final(self).maps@[j], old(self).maps@[j])
                }
            },
            r is Err ==> final(self).maps@ == old(self).maps@ && final(self).handles@ == old(self).handles@ && final(self).next_id == old(self).next_id,
    {
        let i = match self.find_handle(dirfd) {
            Some(i) => i,
            None => return Err(Errno::BadF),
        };
        match &self.handles[i].1 {
            Handle::SchemeRoot => {},
            Handle::Shm(_) => {
                proof {
                    assert forall|k: int| 0 <= k < self.handles@.len() && self.handles@[k].0 == dirfd implies !(self.handles@[k].1 is SchemeRoot) by {
                        if k < i {
                            assert(self.handles@[k].0 != self.handles@[i as int].0);
                        } else if i < k {
                            assert(self.handles@[i as int].0 != self.handles@[k].0);
                        }
                    }
                }
                return Err(Errno::Acces);
            },
        }
        let id = self.next_id;
        let ghost h0 = self.handles@;
        let ghost m0 = self.maps@;
        let ghost pv = path@;
        match self.find_object(path) {
            Some(j) => {
                if flags & O_EXCL != 0 && flags & O_CREAT != 0 {
                    return Err(Errno::Exist);
                }
                proof {
                    lemma_refcount_le(h0, pv);
                }
                let refs = self.maps[j].1.refs;
                self.maps[j].1.refs = refs + 1;
                self.handles.push((id, Handle::Shm(copy_bytes(path))));
                self.next_id = id + 1;
                proof {
                    assert forall|k: int| 0 <= k < self.maps@.len() implies #[trigger] self.maps@[k].1.refs == refcount(self.handles@, self.maps@[k].0@) by {
                        lemma_refcount_push(h0, self.handles@.last(), self.maps@[k].0@);
                        assert(self.handles@ == h0.push(self.handles@.last()));
                        if k != j {
                            assert(m0[k].0@ != m0[j as int].0@);
                        }
                    }
                    assert forall|k: int| 0 <= k < self.handles@.len() implies (#[trigger] handle_path(self.handles@[k].1) matches Some(p) ==> has_object(self.maps@, p)) by {
                        if k < h0.len() {
                            assert(self.handles@[k] == h0[k]);
                            if let Some(p) = handle_path(h0[k].1) {
                                let q = choose|q: int| 0 <= q < m0.len() && m0[q].0@ == p;
                                assert(self.maps@[q].0@ == p);
                            }
                        } else {
                            assert(self.maps@[j as int].0@ == pv);
                        }
                    }
                    assert(self.maps@[j as int].0@ == pv);
                }
                Ok(id)
            },
            None => {
                if flags & O_CREAT == 0 {
                    return Err(Errno::NoEnt);
                }
                self.maps.push((copy_bytes(path), ShmHandle { buffer: None, refs: 1, unlinked: false }));
                self.handles.push((id, Handle::Shm(copy_bytes(path))));
                self.next_id = id + 1;
                proof {
                    assert forall|k: int| 0 <= k < self.maps@.len() implies #[trigger] self.maps@[k].1.refs == refcount(self.handles@, self.maps@[k].0@) by {
                        lemma_refcount_push(h0, self.handles@.last(), self.maps@[k].0@);
                        assert(self.handles@ == h0.push(self.handles@.last()));
                        if k < m0.len() {
                            assert(self.maps@[k] == m0[k]);
                            assert(m0[k].0@ != pv);
                        } else {
                            if refcount(h0, pv) > 0 {
                                assert(refcount(h0, pv) == 0) by {
                                    lemma_refcount_zero(h0, pv, m0);
                                }
                            }
                        }
                    }
                    assert forall|a: int, b: int| 0 <= a < b < self.maps@.len() implies #[trigger] self.maps@[a].0@ != #[trigger] self.maps@[b].0@ by {
                        if b < m0.len() {
                            assert(m0[a].0@ != m0[b].0@);
                        } else {
                            assert(self.maps@[a] == m0[a]);
                        }
                    }
                    assert forall|k: int| 0 <= k < self.handles@.len() implies (#[trigger] handle_path(self.handles@[k].1) matches Some(p) ==> has_object(self.maps@, p)) by {
                        if k < h0.len() {
                            assert(self.handles@[k] == h0[k]);
                            if let Some(p) = handle_path(h0[k].1) {
                                let q = choose|q: int| 0 <= q < m0.len() && m0[q].0@ == p;
                                assert(self.maps@[q] == m0[q]);
                            }
                        } else {
                            assert(self.maps@[m0.len() as int].0@ == pv);
                        }
                    }
                    assert forall|k: int| 0 <= k < self.maps@.len() implies (#[trigger] self.maps@[k].1.buffer matches Some(g) ==> g.wf()) by {
                        if k < m0.len() {
                            assert(self.maps@[k] == m0[k]);
                        }
                    }
                    assert(self.maps@[m0.len() as int].0@ == pv);
                }
                Ok(id)
            },
        }
    }
}

/// Closing handle `id`, found at position `i`, turned the handles `h0`
/// and objects `m0` into `h1` and `m1`.
pub open spec fn close_effect(
    h0: Seq<(usize, Handle)>,
    m0: Seq<(Vec<u8>, ShmHandle)>,
    h1: Seq<(usize, Handle)>,
    m1: Seq<(Vec<u8>, ShmHandle)>,
    id: usize,
    i: int,
) -> bool {
    &&& 0 <= i < h0.len() && h0[i].0 == id
    &&& h1 == h0.remove(i)
    &&& match handle_path(h0[i].1) {
        None => m1 == m0,
        Some(p) => exists|j: int| 0 <= j < m0.len() && m0[j].0@ == p && #[trigger] unref_effect(m0, m1, j),
    }
}

/// Dropping a reference to object `j` turned the objects `m0` into `m1`:
/// the object goes away with its last reference once unlinked.
pub open spec fn unref_effect(m0: Seq<(Vec<u8>, ShmHandle)>, m1: Seq<(Vec<u8>, ShmHandle)>, j: int) -> bool {
    if m0[j].1.refs == 1 && m0[j].1.unlinked {
        m1 == m0.remove(j)
    } else {
        &&& m1.len() == m0.len()
        &&& m1[j].1.refs == m0[j].1.refs - 1
        &&& same_but_refs(m1[j], m0[j])
        &&& forall|k: int| 0 <= k < m0.len() && k != j ==> #[trigger] m1[k] == m0[k]
    }
}

/// Unlinking object `j` turned the objects `m0` into `m1`: it goes away
/// now when no handle is open on it.
pub open spec fn unlink_effect(m0: Seq<(Vec<u8>, ShmHandle)>, m1: Seq<(Vec<u8>, ShmHandle)>, j: int) -> bool {
    if m0[j].1.refs == 0 {
        m1 == m0.remove(j)
    } else {
        &&& m1.len() == m0.len()
        &&& m1[j].1.unlinked
        &&& m1[j].0@ == m0[j].0@
        &&& m1[j].1.refs == m0[j].1.refs
        &&& m1[j].1.buffer == m0[j].1.buffer
        &&& forall|k: int| 0 <= k < m0.len() && k != j ==> #[trigger] m1[k] == m0[k]
    }
}

impl ShmScheme {
    proof fn lemma_handles_remove(&self, i: int, new: Seq<(usize, Handle)>)
        requires
            self.wf(),
            0 <= i < self.handles@.len(),
            new == self.handles@.remove(i),
        ensures
            forall|a: int, b: int| 0 <= a < b < new.len() ==> #[trigger] new[a].0 != #[trigger] new[b].0,
            forall|a: int| 0 <= a < new.len() ==> #[trigger] new[a].0 < self.next_id,
            new.len() <= self.next_id,
    {
        let h = self.handles@;
        assert forall|a: int, b: int| 0 <= a < b < new.len() implies #[trigger] new[a].0 != #[trigger] new[b].0 by {
            let a2 = if a < i { a } else { a + 1 };
            let b2 = if b < i { b } else { b + 1 };
            assert(new[a] == h[a2] && new[b] == h[b2]);
            assert(h[a2].0 != h[b2].0);
        }
        assert forall|a: int| 0 <= a < new.len() implies #[trigger] new[a].0 < self.next_id by {
            let a2 = if a < i { a } else { a + 1 };
            assert(new[a] == h[a2]);
        }
    }

    /// Closes the handle `id`. Closing a handle on an object drops one of
    /// its references; the object goes away with its last reference once
    /// its name was unlinked, and its memory is handed back to be unmapped.
    #[verifier::spinoff_prover]
    #[verifier::rlimit(40)]
    pub fn on_close(&mut self, id: usize) -> (gone: Option<MmapGuard>)
        requires
            old(self).wf(),
            has_handle(old(self).handles@, id),
        ensures
            final(self).wf(),
            final(self).next_id == old(self).next_id,
            exists|i: int| #[trigger] close_effect(old(self).handles@, old(self).maps@, final(self).handles@, final(self).maps@, id, i),
            final(self).maps@.len() == old(self).maps@.len() ==> gone is None,
            final(self).maps@.len() < old(self).maps@.len() ==> exists|j: int|
                0 <= j < old(self).maps@.len() && final(self).maps@ == old(self).maps@.remove(j) && gone == #[trigger] old(self).maps@[j].1.buffer,
    {
        let i = self.find_handle(id).unwrap();
        let ghost h0 = self.handles@;
        let ghost m0 = self.maps@;
        proof {
            self.lemma_handles_remove(i as int, h0.remove(i as int));
        }
        let (_, handle) = self.handles.remove(i);
        let path = match handle {
            Handle::SchemeRoot => {
                proof {
                    assert forall|k: int| 0 <= k < self.maps@.len() implies #[trigger] self.maps@[k].1.refs == refcount(self.handles@, self.maps@[k].0@) by {
                        lemma_refcount_remove(h0, i as int, m0[k].0@);
                    }
                    assert forall|k: int| 0 <= k < self.handles@.len() implies (#[trigger] handle_path(self.handles@[k].1) matches Some(p) ==> has_object(self.maps@, p)) by {
                        let b = if k < i { k } else { k + 1 };
                        assert(self.handles@[k] == h0[b]);
                        assert(handle_path(h0[b].1) matches Some(p) ==> has_object(m0, p));
                    }
                    assert(self.handles@ =~= h0.remove(i as int));
                    assert(h0[i as int].0 == id && handle_path(h0[i as int].1) is None);
                    assert(close_effect(h0, m0, self.handles@, self.maps@, id, i as int));
                }
                return None;
            },
            Handle::Shm(path) => path,
        };
        let ghost pv = path@;
        proof {
            assert(handle_path(h0[i as int].1) == Some(pv));
            assert(has_object(m0, pv));
        }
        let j = self.find_object(path.as_slice()).unwrap();
        proof {
            lemma_refcount_remove(h0, i as int, pv);
            assert(m0[j as int].1.refs == refcount(h0, pv));
        }
        let refs = self.maps[j].1.refs - 1;
        if refs == 0 && self.maps[j].1.unlinked {
            let (_, object) = self.maps.remove(j);
            proof {
                assert forall|a: int, b: int| 0 <= a < b < self.maps@.len() implies #[trigger] self.maps@[a].0@ != #[trigger] self.maps@[b].0@ by {
                    let a2 = if a < j { a } else { a + 1 };
                    let b2 = if b < j { b } else { b + 1 };
                    assert(self.maps@[a] == m0[a2] && self.maps@[b] == m0[b2]);
                    assert(m0[a2].0@ != m0[b2].0@);
                }
                assert forall|k: int| 0 <= k < self.maps@.len() implies #[trigger] self.maps@[k].1.refs == refcount(self.handles@, self.maps@[k].0@) by {
                    let k2 = if k < j { k } else { k + 1 };
                    assert(self.maps@[k] == m0[k2]);
                    lemma_refcount_remove(h0, i as int, m0[k2].0@);
                }
                assert forall|k: int| 0 <= k < self.maps@.len() implies (#[trigger] self.maps@[k].1.buffer matches Some(g) ==> g.wf()) by {
                    let k2 = if k < j { k } else { k + 1 };
                    assert(self.maps@[k] == m0[k2]);
                }
                assert forall|k: int| 0 <= k < self.handles@.len() implies (#[trigger] handle_path(self.handles@[k].1) matches Some(p) ==> has_object(self.maps@, p)) by {
                    if let Some(p) = handle_path(self.handles@[k].1) {
                        if p == pv {
                            lemma_refcount_pos(self.handles@, k, pv);
                        }
                        let b = if k < i { k } else { k + 1 };
                        assert(self.handles@[k] == h0[b]);
                        assert(has_object(m0, p));
                        let q = choose|q: int| 0 <= q < m0.len() && m0[q].0@ == p;
                        assert(q != j);
                        let q2 = if q < j { q } else { q - 1 };
                        assert(self.maps@[q2] == m0[q]);
                    }
                }
                assert(self.handles@ =~= h0.remove(i as int));
                assert(self.maps@ =~= m0.remove(j as int));
                assert(m0[j as int].0@ == pv && m0[j as int].1.refs == 1 && m0[j as int].1.unlinked);
                assert(unref_effect(m0, self.maps@, j as int));
                assert(close_effect(h0, m0, self.handles@, self.maps@, id, i as int));
                assert(object.buffer == m0[j as int].1.buffer);
            }
            object.buffer
        } else {
            self.maps[j].1.refs = refs;
            proof {
                assert forall|k: int| 0 <= k < self.maps@.len() implies #[trigger] self.maps@[k].1.refs == refcount(self.handles@, self.maps@[k].0@) by {
                    lemma_refcount_remove(h0, i as int, m0[k].0@);
                    if k != j {
                        assert(m0[k].0@ != m0[j as int].0@);
                    }
                }
                assert forall|k: int| 0 <= k < self.handles@.len() implies (#[trigger] handle_path(self.handles@[k].1) matches Some(p) ==> has_object(self.maps@, p)) by {
                    if let Some(p) = handle_path(self.handles@[k].1) {
                        let b = if k < i { k } else { k + 1 };
                        assert(self.handles@[k] == h0[b]);
                        assert(has_object(m0, p));
                        let q = choose|q: int| 0 <= q < m0.len() && m0[q].0@ == p;
                        assert(self.maps@[q].0@ == p);
                    }
                }
                assert(self.handles@ =~= h0.remove(i as int));
                assert(m0[j as int].0@ == pv);
                assert(!(m0[j as int].1.refs == 1 && m0[j as int].1.unlinked));
                assert(unref_effect(m0, self.maps@, j as int));
                assert(close_effect(h0, m0, self.handles@, self.maps@, id, i as int));
            }
            None
        }
    }

    /// Unlinks the object `path` in the scheme's root `dirfd`: its name is
    /// gone for new opens, and it goes away now when no handle is open on
    /// it, otherwise with its last handle. Directories cannot be removed.
    #[verifier::spinoff_prover]
    #[verifier::rlimit(40)]
    pub fn unlinkat(&mut self, dirfd: usize, path: &[u8], flags: usize) -> (r: Result<Option<MmapGuard>, Errno>)
        requires
            old(self).wf(),
        ensures
            final(self).wf(),
            final(self).handles@ == old(self).handles@,
            final(self).next_id == old(self).next_id,
            !has_handle(old(self).handles@, dirfd) ==> r == Err::<Option<MmapGuard>, Errno>(Errno::BadF),
            has_handle(old(self).handles@, dirfd) && !(exists|i: int| 0 <= i < old(self).handles@.len() && old(self).handles@[i].0 == dirfd
                && old(self).handles@[i].1 is SchemeRoot) ==> r == Err::<Option<MmapGuard>, Errno>(Errno::Acces),
            (exists|i: int| 0 <= i < old(self).handles@.len() && old(self).handles@[i].0 == dirfd && old(self).handles@[i].1 is SchemeRoot) ==> {
                &&& flags & AT_REMOVEDIR == AT_REMOVEDIR ==> r == Err::<Option<MmapGuard>, Errno>(Errno::NotDir)
                &&& flags & AT_REMOVEDIR != AT_REMOVEDIR && !has_object(old(self).maps@, path@) ==> r == Err::<Option<MmapGuard>, Errno>(Errno::NoEnt)
                &&& flags & AT_REMOVEDIR != AT_REMOVEDIR && has_object(old(self).maps@, path@) ==> r is Ok && exists|j: int|
                    0 <= j < old(self).maps@.len() && old(self).maps@[j].0@ == path@ && #[trigger] unlink_effect(old(self).maps@, final(self).maps@, j)
            },
            r is Err ==> final(self).maps@ == old(self).maps@,
            r matches Ok(g) ==> (final(self).maps@.len() == old(self).maps@.len() ==> g is None),
            r matches Ok(g) ==> (final(self).maps@.len() < old(self).maps@.len() ==> exists|j: int|
                0 <= j < old(self).maps@.len() && final(self).maps@ == old(self).maps@.remove(j) && g == #[trigger] old(self).maps@[j].1.buffer),
    {
        let i = match self.find_handle(dirfd) {
            Some(i) => i,
            None => return Err(Errno::BadF),
        };
        match &self.handles[i].1 {
            Handle::SchemeRoot => {},
            Handle::Shm(_) => {
                proof {
                    assert forall|k: int| 0 <= k < self.handles@.len() && self.handles@[k].0 == dirfd implies !(self.handles@[k].1 is SchemeRoot) by {
                        if k < i {
                            assert(self.handles@[k].0 != self.handles@[i as int].0);
                        } else if i < k {
                            assert(self.handles@[i as int].0 != self.handles@[k].0);
                        }
                    }
                }
                return Err(Errno::Acces);
            },
        }
        if flags & AT_REMOVEDIR == AT_REMOVEDIR {
            return Err(Errno::NotDir);
        }
        let j = match self.find_object(path) {
            Some(j) => j,
            None => return Err(Errno::NoEnt),
        };
        let ghost m0 = self.maps@;
        let ghost pv = path@;
        if self.maps[j].1.refs == 0 {
            let (_, object) = self.maps.remove(j);
            proof {
                assert forall|a: int, b: int| 0 <= a < b < self.maps@.len() implies #[trigger] self.maps@[a].0@ != #[trigger] self.maps@[b].0@ by {
                    let a2 = if a < j { a } else { a + 1 };
                    let b2 = if b < j { b } else { b + 1 };
                    assert(self.maps@[a] == m0[a2] && self.maps@[b] == m0[b2]);
                    assert(m0[a2].0@ != m0[b2].0@);
                }
                assert forall|k: int| 0 <= k < self.maps@.len() implies #[trigger] self.maps@[k].1.refs == refcount(self.handles@, self.maps@[k].0@) by {
                    let k2 = if k < j { k } else { k + 1 };
                    assert(self.maps@[k] == m0[k2]);
                }
                assert forall|k: int| 0 <= k < self.maps@.len() implies (#[trigger] self.maps@[k].1.buffer matches Some(g) ==> g.wf()) by {
                    let k2 = if k < j { k } else { k + 1 };
                    assert(self.maps@[k] == m0[k2]);
                }
                assert forall|k: int| 0 <= k < self.handles@.len() implies (#[trigger] handle_path(self.handles@[k].1) matches Some(p) ==> has_object(self.maps@, p)) by {
                    if let Some(p) = handle_path(self.handles@[k].1) {
                        if p == pv {
                            lemma_refcount_pos(self.handles@, k, pv);
                        }
                        assert(has_object(m0, p));
                        let q = choose|q: int| 0 <= q < m0.len() && m0[q].0@ == p;
                        assert(q != j);
                        let q2 = if q < j { q } else { q - 1 };
                        assert(self.maps@[q2] == m0[q]);
                    }
                }
                assert(self.maps@ =~= m0.remove(j as int));
                assert(m0[j as int].0@ == pv && m0[j as int].1.refs == 0);
                assert(unlink_effect(m0, self.maps@, j as int));
                assert(object.buffer == m0[j as int].1.buffer);
            }
            Ok(object.buffer)
        } else {
            self.maps[j].1.unlinked = true;
            proof {
                assert forall|k: int| 0 <= k < self.maps@.len() implies #[trigger] self.maps@[k].1.refs == refcount(self.handles@, self.maps@[k].0@) by {
                    if k != j {
                        assert(self.maps@[k] == m0[k]);
                    }
                }
                assert forall|k: int| 0 <= k < self.handles@.len() implies (#[trigger] handle_path(self.handles@[k].1) matches Some(p) ==> has_object(self.maps@, p)) by {
                    if let Some(p) = handle_path(self.handles@[k].1) {
                        assert(has_object(m0, p));
                        let q = choose|q: int| 0 <= q < m0.len() && m0[q].0@ == p;
                        assert(self.maps@[q].0@ == p);
                    }
                }
                assert(m0[j as int].0@ == pv && m0[j as int].1.refs != 0);
                assert(unlink_effect(m0, self.maps@, j as int));
            }
            Ok(None)
        }
    }
}

/// The name of the object the handle `id` is open on, if it is one.
pub open spec fn path_of(hs: Seq<(usize, Handle)>, id: usize) -> Option<Seq<u8>> {
    if has_handle(hs, id) {
        handle_path(hs[choose|i: int| 0 <= i < hs.len() && hs[i].0 == id].1)
    } else {
        None
    }
}

/// The bytes every path of the scheme starts with: `/scheme/shm/`.
pub open spec fn shm_prefix() -> Seq<u8> {
    seq![47u8, 115, 99, 104, 101, 109, 101, 47, 115, 104, 109, 47]
}

/// What mapping an object's memory comes to.
#[derive(Debug)]
pub enum MmapStep {
    /// The memory is at this address.
    Addr(usize),
    /// The object has no memory yet: map this many bytes for it and
    /// record them with `install_mapped`.
    Alloc(usize),
}

/// What a write to an object comes to.
#[derive(Debug)]
pub enum ShmWrite {
    /// As the write to the object's memory says.
    Step(WriteStep),
    /// The object has no memory yet: map a page for it, write into that
    /// memory, and record it with `install`.
    Create,
}

impl ShmScheme {
    /// The position of the object the handle `id` is open on, or -1.
    pub open spec fn obj_index(&self, id: usize) -> int {
        match path_of(self.handles@, id) {
            Some(p) => choose|j: int| 0 <= j < self.maps@.len() && self.maps@[j].0@ == p,
            None => -1,
        }
    }

    /// The position of the object the handle `id` is open on; a handle
    /// that is not open on an object is refused.
    pub fn shm_object(&self, id: usize) -> (r: Result<usize, Errno>)
        requires
            self.wf(),
        ensures
            self.obj_index(id) < 0 ==> r == Err::<usize, Errno>(Errno::BadF),
            self.obj_index(id) >= 0 ==> r is Ok,
            r matches Ok(j) ==> j as int == self.obj_index(id) && j < self.maps@.len(),
            self.obj_index(id) < self.maps@.len(),
    {
        let i = match self.find_handle(id) {
            Some(i) => i,
            None => return Err(Errno::BadF),
        };
        proof {
            let c = choose|c: int| 0 <= c < self.handles@.len() && self.handles@[c].0 == id;
            if c < i {
                assert(self.handles@[c].0 != self.handles@[i as int].0);
            } else if i < c {
                assert(self.handles@[i as int].0 != self.handles@[c].0);
            }
        }
        match &self.handles[i].1 {
            Handle::SchemeRoot => Err(Errno::BadF),
            Handle::Shm(path) => {
                proof {
                    assert(handle_path(self.handles@[i as int].1) == Some(path@));
                    assert(has_object(self.maps@, path@));
                }
                let j = self.find_object(path.as_slice()).unwrap();
                proof {
                    let c = choose|c: int| 0 <= c < self.maps@.len() && self.maps@[c].0@ == path@;
                    if c < j {
                        assert(self.maps@[c].0@ != self.maps@[j as int].0@);
                    } else if j < c {
                        assert(self.maps@[j as int].0@ != self.maps@[c].0@);
                    }
                }
                Ok(j)
            },
        }
    }

    /// The path of the handle `id`, cut to a buffer of `len` bytes: the
    /// scheme's prefix, then the object's name. A buffer too short for the
    /// prefix gets what fits of it; otherwise the handle must be open on an
    /// object.
    pub fn fpath(&self, id: usize, len: usize) -> (r: Result<Vec<u8>, Errno>)
        requires
            self.wf(),
        ensures
            len < 12 ==> (r matches Ok(b) && b@ == shm_prefix().take(len as int)),
            len >= 12 ==> match path_of(self.handles@, id) {
                None => r == Err::<Vec<u8>, Errno>(Errno::BadF),
                Some(p) => r matches Ok(b) && b@ == shm_prefix() + p.take(if p.len() <= len - 12 { p.len() as int } else { len - 12 }),
            },
    {
        let prefix: Vec<u8> = vec![47u8, 115, 99, 104, 101, 109, 101, 47, 115, 104, 109, 47];
        assert(prefix@ =~= shm_prefix());
        let mut out: Vec<u8> = Vec::new();
        let n = if len < 12 { len } else { 12 };
        let mut k: usize = 0;
        while k < n
            invariant
                n <= 12,
                prefix@ == shm_prefix(),
                k <= n,
                out@ == shm_prefix().take(k as int),
            decreases n - k,
        {
            out.push(prefix[k]);
            k += 1;
            assert(out@ =~= shm_prefix().take(k as int));
        }
        if len < 12 {
            return Ok(out);
        }
        assert(shm_prefix().take(12) =~= shm_prefix());
        let i = match self.find_handle(id) {
            Some(i) => i,
            None => return Err(Errno::BadF),
        };
        proof {
            let c = choose|c: int| 0 <= c < self.handles@.len() && self.handles@[c].0 == id;
            if c < i {
                assert(self.handles@[c].0 != self.handles@[i as int].0);
            } else if i < c {
                assert(self.handles@[i as int].0 != self.handles@[c].0);
            }
        }
        match &self.handles[i].1 {
            Handle::SchemeRoot => Err(Errno::BadF),
            Handle::Shm(path) => {
                let room = len - 12;
                let m = if path.len() <= room { path.len() } else { room };
                let mut q: usize = 0;
                while q < m
                    invariant
                        m <= path@.len(),
                        q <= m,
                        out@ == shm_prefix() + path@.take(q as int),
                    decreases m - q,
                {
                    out.push(path[q]);
                    q += 1;
                    assert(out@ =~= shm_prefix() + path@.take(q as int));
                }
                Ok(out)
            },
        }
    }

    /// The size of the object the handle `id` is open on: the length in
    /// use of its memory, 0 without memory.
    pub fn fsize(&self, id: usize) -> (r: Result<u64, Errno>)
        requires
            self.wf(),
        ensures
            self.obj_index(id) < 0 ==> r == Err::<u64, Errno>(Errno::BadF),
            self.obj_index(id) >= 0 ==> r == Ok::<u64, Errno>(match self.maps@[self.obj_index(id)].1.buffer {
                Some(g) => g.len as u64,
                None => 0,
            }),
    {
        let j = match self.shm_object(id) {
            Ok(j) => j,
            Err(e) => return Err(e),
        };
        match &self.maps[j].1.buffer {
            Some(g) => Ok(g.len() as u64),
            None => Ok(0),
        }
    }

    /// Whether the object of handle `id` can be given memory by a
    /// truncation: only once, while it has none.
    pub fn can_truncate(&self, id: usize) -> (r: Result<(), Errno>)
        requires
            self.wf(),
        ensures
            self.obj_index(id) < 0 ==> r == Err::<(), Errno>(Errno::BadF),
            self.obj_index(id) >= 0 ==> r == (match self.maps@[self.obj_index(id)].1.buffer {
                Some(_) => Err::<(), Errno>(Errno::Io),
                None => Ok::<(), Errno>(()),
            }),
    {
        let j = match self.shm_object(id) {
            Ok(j) => j,
            Err(e) => return Err(e),
        };
        match &self.maps[j].1.buffer {
            Some(_) => Err(Errno::Io),
            None => Ok(()),
        }
    }

    /// Gives the object of handle `id`, which has no memory, the memory
    /// `g`.
    pub fn install(&mut self, id: usize, g: MmapGuard)
        requires
            old(self).wf(),
            old(self).obj_index(id) >= 0,
            old(self).maps@[old(self).obj_index(id)].1.buffer is None,
            g.wf(),
        ensures
            final(self).wf(),
            final(self).handles@ == old(self).handles@,
            final(self).next_id == old(self).next_id,
            final(self).maps@.len() == old(self).maps@.len(),
            forall|k: int| 0 <= k < old(self).maps@.len() && k != old(self).obj_index(id) ==> #[trigger] final(self).maps@[k] == old(self).maps@[k],
            ({
                let j = old(self).obj_index(id);
                &&& final(self).maps@[j].0@ == old(self).maps@[j].0@
                &&& final(self).maps@[j].1.refs == old(self).maps@[j].1.refs
                &&& final(self).maps@[j].1.unlinked == old(self).maps@[j].1.unlinked
                &&& final(self).maps@[j].1.buffer == Some(g)
            }),
    {
        let j = self.shm_object(id).unwrap();
        let ghost m0 = self.maps@;
        self.maps[j].1.buffer = Some(g);
        proof {
            assert forall|k: int| 0 <= k < self.handles@.len() implies (#[trigger] handle_path(self.handles@[k].1) matches Some(p) ==> has_object(self.maps@, p)) by {
                if let Some(p) = handle_path(self.handles@[k].1) {
                    let q = choose|q: int| 0 <= q < m0.len() && m0[q].0@ == p;
                    assert(self.maps@[q].0@ == p);
                }
            }
            assert forall|k: int| 0 <= k < self.maps@.len() implies #[trigger] self.maps@[k].1.refs == refcount(self.handles@, self.maps@[k].0@) by {
                if k != j {
                    assert(self.maps@[k] == m0[k]);
                }
            }
        }
    }

    /// Gives the object of handle `id`, which has no memory, the memory
    /// `g` mapped for `mmap_prep`, and returns the address `offset` bytes
    /// into it.
    pub fn install_mapped(&mut self, id: usize, g: MmapGuard, offset: usize) -> (addr: usize)
        requires
            old(self).wf(),
            old(self).obj_index(id) >= 0,
            old(self).maps@[old(self).obj_index(id)].1.buffer is None,
            g.wf(),
            (if g.segments@.len() > 0 { g.segments@[0].base as int } else { 0 }) + offset <= usize::MAX,
        ensures
            final(self).wf(),
            final(self).handles@ == old(self).handles@,
            final(self).next_id == old(self).next_id,
            final(self).maps@.len() == old(self).maps@.len(),
            forall|k: int| 0 <= k < old(self).maps@.len() && k != old(self).obj_index(id) ==> #[trigger] final(self).maps@[k] == old(self).maps@[k],
            ({
                let j = old(self).obj_index(id);
                &&& final(self).maps@[j].0@ == old(self).maps@[j].0@
                &&& final(self).maps@[j].1.refs == old(self).maps@[j].1.refs
                &&& final(self).maps@[j].1.unlinked == old(self).maps@[j].1.unlinked
                &&& final(self).maps@[j].1.buffer == Some(g)
            }),
            addr == (if g.segments@.len() > 0 { g.segments@[0].base as int } else { 0 }) + offset,
    {
        let base = g.as_ptr();
        self.install(id, g);
        base + offset
    }

    /// Maps `size` bytes at `offset` of the object of handle `id`: the
    /// address in its first segment, which must hold them; an object
    /// without memory gets `size` bytes first.
    pub fn mmap_prep(&self, id: usize, offset: usize, size: usize) -> (r: Result<MmapStep, Errno>)
        requires
            self.wf(),
            offset + size <= usize::MAX,
        ensures
            self.obj_index(id) < 0 ==> r == Err::<MmapStep, Errno>(Errno::BadF),
            self.obj_index(id) >= 0 ==> match self.maps@[self.obj_index(id)].1.buffer {
                None => r matches Ok(MmapStep::Alloc(n)) && n == size,
                Some(g) => if g.segments@.len() == 0 || offset + size > g.segments@[0].size {
                    r == Err::<MmapStep, Errno>(Errno::Range)
                } else {
                    r matches Ok(MmapStep::Addr(a)) && a == g.segments@[0].base + offset
                },
            },
    {
        let j = match self.shm_object(id) {
            Ok(j) => j,
            Err(e) => return Err(e),
        };
        match &self.maps[j].1.buffer {
            None => Ok(MmapStep::Alloc(size)),
            Some(g) => {
                if g.segments.len() == 0 {
                    return Err(Errno::Range);
                }
                let seg = g.segments[0];
                if offset + size > seg.size {
                    return Err(Errno::Range);
                }
                assert(g.segments@[0].base + g.segments@[0].size <= usize::MAX);
                Ok(MmapStep::Addr(seg.base + offset))
            },
        }
    }

    /// A read of up to `n` bytes at `offset` of the object of handle `id`:
    /// the pieces of its memory to copy from. An object without memory is
    /// out of range.
    pub fn read(&self, id: usize, offset: usize, n: usize) -> (r: Result<Vec<Chunk>, Errno>)
        requires
            self.wf(),
        ensures
            self.obj_index(id) < 0 ==> r == Err::<Vec<Chunk>, Errno>(Errno::BadF),
            self.obj_index(id) >= 0 ==> match self.maps@[self.obj_index(id)].1.buffer {
                None => r == Err::<Vec<Chunk>, Errno>(Errno::Range),
                Some(g) => r matches Ok(c) && (offset >= g.len ==> c@.len() == 0)
                    && (offset < g.len ==> covers(g.segments@, offset as int, if n <= g.len - offset { n as int } else { g.len - offset }, c@)),
            },
    {
        let j = match self.shm_object(id) {
            Ok(j) => j,
            Err(e) => return Err(e),
        };
        match &self.maps[j].1.buffer {
            None => Err(Errno::Range),
            Some(g) => Ok(g.read_plan(offset, n)),
        }
    }

    /// A write of `n` bytes at `offset` to the object of handle `id`.
    pub fn write(&mut self, id: usize, offset: usize, n: usize) -> (r: Result<ShmWrite, Errno>)
        requires
            old(self).wf(),
            old(self).obj_index(id) >= 0 ==> (old(self).maps@[old(self).obj_index(id)].1.buffer matches Some(g) ==> (
                offset + n <= usize::MAX ==> offset + n - seg_total(g.segments@) + PAGE_SIZE <= usize::MAX)),
        ensures
            final(self).wf(),
            final(self).handles@ == old(self).handles@,
            final(self).maps@.len() == old(self).maps@.len(),
            forall|k: int| 0 <= k < old(self).maps@.len() && k != old(self).obj_index(id) ==> #[trigger] final(self).maps@[k] == old(self).maps@[k],
            old(self).obj_index(id) < 0 ==> r == Err::<ShmWrite, Errno>(Errno::BadF),
            old(self).obj_index(id) >= 0 ==> {
                let j = old(self).obj_index(id);
                &&& final(self).maps@[j].0@ == old(self).maps@[j].0@
                &&& final(self).maps@[j].1.refs == old(self).maps@[j].1.refs
                &&& final(self).maps@[j].1.unlinked == old(self).maps@[j].1.unlinked
                &&& match old(self).maps@[j].1.buffer {
                    None => r matches Ok(ShmWrite::Create) && final(self).maps@[j].1.buffer is None,
                    Some(g) => final(self).maps@[j].1.buffer matches Some(g2) && g2.segments@ == g.segments@ && {
                        let end = offset + n;
                        let total = seg_total(g.segments@);
                        &&& end > usize::MAX ==> r == Err::<ShmWrite, Errno>(Errno::Range) && g2.len == g.len
                        &&& end <= usize::MAX && end > total ==> g2.len == g.len && r == Ok::<ShmWrite, Errno>(ShmWrite::Step(WriteStep::Grow(
                            (((end - total + PAGE_SIZE - 1) / PAGE_SIZE as int) * PAGE_SIZE) as usize)))
                        &&& end <= total ==> g2.len == (if end > g.len { end as usize } else { g.len })
                            && (r matches Ok(ShmWrite::Step(WriteStep::Copy(c))) && covers(g.segments@, offset as int, n as int, c@))
                    },
                }
            },
    {
        let j = match self.shm_object(id) {
            Ok(j) => j,
            Err(e) => return Err(e),
        };
        let ghost m0 = self.maps@;
        let r = match &mut self.maps[j].1.buffer {
            None => Ok(ShmWrite::Create),
            Some(g) => match g.write_plan(offset, n) {
                Ok(step) => Ok(ShmWrite::Step(step)),
                Err(e) => Err(e),
            },
        };
        proof {
            assert(self.maps@.len() == m0.len());
            assert forall|k: int| 0 <= k < self.maps@.len() implies #[trigger] self.maps@[k].0@ == m0[k].0@ && self.maps@[k].1.refs == m0[k].1.refs by {
                if k != j {
                    assert(self.maps@[k] == m0[k]);
                }
            }
            assert forall|a: int, b: int| 0 <= a < b < self.maps@.len() implies #[trigger] self.maps@[a].0@ != #[trigger] self.maps@[b].0@ by {
                assert(self.maps@[a].0@ == m0[a].0@ && self.maps@[b].0@ == m0[b].0@);
                assert(m0[a].0@ != m0[b].0@);
            }
            assert forall|k: int| 0 <= k < self.handles@.len() implies (#[trigger] handle_path(self.handles@[k].1) matches Some(p) ==> has_object(self.maps@, p)) by {
                if let Some(p) = handle_path(self.handles@[k].1) {
                    let q = choose|q: int| 0 <= q < m0.len() && m0[q].0@ == p;
                    assert(self.maps@[q].0@ == p);
                }
            }
            assert forall|k: int| 0 <= k < self.maps@.len() implies #[trigger] self.maps@[k].1.refs == refcount(self.handles@, self.maps@[k].0@) by {
                if k != j {
                    assert(self.maps@[k] == m0[k]);
                }
            }
            assert forall|k: int| 0 <= k < self.maps@.len() implies (#[trigger] self.maps@[k].1.buffer matches Some(g) ==> g.wf()) by {
                if k != j {
                    assert(self.maps@[k] == m0[k]);
                }
            }
        }
        r
    }

    /// Records a segment of `size` bytes mapped at `base` for the object of
    /// handle `id`, growing its length in use to `new_len`.
    pub fn grow(&mut self, id: usize, base: usize, size: usize, new_len: usize)
        requires
            old(self).wf(),
            old(self).obj_index(id) >= 0,
            old(self).maps@[old(self).obj_index(id)].1.buffer matches Some(g) && (
                seg_total(g.segments@) + size <= usize::MAX && new_len <= seg_total(g.segments@) + size),
            base + size <= usize::MAX,
        ensures
            final(self).wf(),
            final(self).handles@ == old(self).handles@,
            final(self).maps@.len() == old(self).maps@.len(),
            forall|k: int| 0 <= k < old(self).maps@.len() && k != old(self).obj_index(id) ==> #[trigger] final(self).maps@[k] == old(self).maps@[k],
            ({
                let j = old(self).obj_index(id);
                &&& final(self).maps@[j].0@ == old(self).maps@[j].0@
                &&& final(self).maps@[j].1.refs == old(self).maps@[j].1.refs
                &&& final(self).maps@[j].1.unlinked == old(self).maps@[j].1.unlinked
                &&& old(self).maps@[j].1.buffer matches Some(g) && (final(self).maps@[j].1.buffer matches Some(g2)
                    && g2.segments@ == g.segments@.push(MmapSegment { base, size }) && g2.len == new_len)
            }),
    {
        let j = self.shm_object(id).unwrap();
        let ghost m0 = self.maps@;
        match &mut self.maps[j].1.buffer {
            None => {},
            Some(g) => g.add_segment(base, size, new_len),
        }
        proof {
            assert(self.maps@.len() == m0.len());
            assert forall|k: int| 0 <= k < self.maps@.len() implies #[trigger] self.maps@[k].0@ == m0[k].0@ && self.maps@[k].1.refs == m0[k].1.refs by {
                if k != j {
                    assert(self.maps@[k] == m0[k]);
                }
            }
            assert forall|a: int, b: int| 0 <= a < b < self.maps@.len() implies #[trigger] self.maps@[a].0@ != #[trigger] self.maps@[b].0@ by {
                assert(self.maps@[a].0@ == m0[a].0@ && self.maps@[b].0@ == m0[b].0@);
                assert(m0[a].0@ != m0[b].0@);
            }
            assert forall|k: int| 0 <= k < self.handles@.len() implies (#[trigger] handle_path(self.handles@[k].1) matches Some(p) ==> has_object(self.maps@, p)) by {
                if let Some(p) = handle_path(self.handles@[k].1) {
                    let q = choose|q: int| 0 <= q < m0.len() && m0[q].0@ == p;
                    assert(self.maps@[q].0@ == p);
                }
            }
            assert forall|k: int| 0 <= k < self.maps@.len() implies #[trigger] self.maps@[k].1.refs == refcount(self.handles@, self.maps@[k].0@) by {
                if k != j {
                    assert(self.maps@[k] == m0[k]);
                }
            }
            assert forall|k: int| 0 <= k < self.maps@.len() implies (#[trigger] self.maps@[k].1.buffer matches Some(g) ==> g.wf()) by {
                if k != j {
                    assert(self.maps@[k] == m0[k]);
                }
            }
        }
    }
}

proof fn lemma_refcount_zero(hs: Seq<(usize, Handle)>, path: Seq<u8>, maps: Seq<(Vec<u8>, ShmHandle)>)
    requires
        !has_object(maps, path),
        forall|i: int| 0 <= i < hs.len() ==> (#[trigger] handle_path(hs[i].1) matches Some(p) ==> has_object(maps, p)),
    ensures
        refcount(hs, path) == 0,
    decreases hs.len(),
{
    if hs.len() > 0 {
        assert forall|i: int| 0 <= i < hs.drop_last().len() implies (#[trigger] handle_path(hs.drop_last()[i].1) matches Some(p) ==> has_object(maps, p)) by {
            assert(hs.drop_last()[i] == hs[i]);
        }
        lemma_refcount_zero(hs.drop_last(), path, maps);
        assert(handle_path(hs[hs.len() - 1].1) matches Some(p) ==> has_object(maps, p));
    }
}

fn bytes_eq(a: &[u8], b: &[u8]) -> (r: bool)
    ensures
        r == (a@ == b@),
{
    if a.len() != b.len() {
        return false;
    }
    let mut i: usize = 0;
    while i < a.len()
        invariant
            a@.len() == b@.len(),
            i <= a@.len(),
            forall|k: int| 0 <= k < i ==> a@[k] == b@[k],
        decreases a.len() - i,
    {
        if a[i] != b[i] {
            return false;
        }
        i += 1;
    }
    assert(a@ =~= b@);
    true
}


fn copy_bytes(a: &[u8]) -> (r: Vec<u8>)
    ensures
        r@ == a@,
{
    let mut r: Vec<u8> = Vec::new();
    let mut i: usize = 0;
    while i < a.len()
        invariant
            i <= a@.len(),
            r@ == a@.take(i as int),
        decreases a.len() - i,
    {
        r.push(a[i]);
        i += 1;
        assert(r@ =~= a@.take(i as int));
    }
    assert(a@.take(a@.len() as int) =~= a@);
    r
}

} // verus!
