//! The shared-memory scheme: named regions of memory that live as long as a
//! handle is open on their name.
//!
//! The scheme keeps count of the handles on each name and remembers the
//! region that was mapped for it. It maps nothing itself: a request to map
//! says whether a region has to be made first, and closing the last handle
//! on a name hands the region back to be released.

use std::collections::HashMap;
use vstd::hash_map::StringHashMap;
use vstd::prelude::*;
use vstd::std_specs::hash::group_hash_axioms;
use vstd::utf8::encode_utf8;
use crate::bytes::{copy_into, fit, overlay};
use crate::error::Error;
use crate::flags::PAGE_SIZE;

verus! {

broadcast use group_hash_axioms;

/// A mapped region of memory: where it starts and how many bytes it has.
#[derive(Clone, Copy, Debug, PartialEq, Eq, Structural)]
pub struct MmapGuard {
    base: usize,
    size: usize,
}

impl MmapGuard {
    /// The region ends within the address space.
    pub closed spec fn wf(&self) -> bool {
        self.base + self.size <= usize::MAX
    }

    /// How many bytes the region has.
    pub closed spec fn spec_len(&self) -> usize {
        self.size
    }

    /// Where the region starts.
    pub closed spec fn spec_ptr(&self) -> usize {
        self.base
    }

    /// The region of `size` bytes at `base`, if it ends within the address
    /// space.
    pub fn new(base: usize, size: usize) -> (g: Option<MmapGuard>)
        ensures
            g is Some <==> base + size <= usize::MAX,
            g matches Some(guard) ==> guard.wf() && guard.spec_ptr() == base && guard.spec_len()
                == size,
    {
        if size <= usize::MAX - base {
            Some(MmapGuard { base, size })
        } else {
            None
        }
    }

    /// How many bytes the region has.
    #[verifier::when_used_as_spec(spec_len)]
    pub fn len(&self) -> (n: usize)
        ensures
            n == self.spec_len(),
    {
        self.size
    }

    /// Where the region starts.
    #[verifier::when_used_as_spec(spec_ptr)]
    pub fn as_ptr(&self) -> (p: usize)
        ensures
            p == self.spec_ptr(),
    {
        self.base
    }

    /// What has to be unmapped when the region is let go: its start and
    /// length, unless it is empty.
    pub fn release(&self) -> (r: Option<(usize, usize)>)
        ensures
            r == (if self.spec_len() == 0 {
                None
            } else {
                Some((self.spec_ptr(), self.spec_len()))
            }),
    {
        if self.size == 0 {
            None
        } else {
            Some((self.base, self.size))
        }
    }
}

/// What the scheme keeps for each name: the region, once one was mapped, and
/// the number of handles that are open on the name.
#[derive(Clone, Copy, Debug, PartialEq, Eq, Structural)]
pub struct ShmHandle {
    pub buffer: Option<MmapGuard>,
    pub refs: usize,
}

impl Default for ShmHandle {
    fn default() -> (h: ShmHandle)
        ensures
            h == (ShmHandle { buffer: None, refs: 0 }),
    {
        ShmHandle { buffer: None, refs: 0 }
    }
}

/// What a request to map is answered with.
#[derive(Clone, Copy, Debug, PartialEq, Eq, Structural)]
pub enum MapPlan {
    /// The memory is mapped at this address.
    Mapped(usize),
    /// No region exists yet: one of this many bytes has to be mapped and
    /// handed to [`ShmScheme::mmap_done`].
    Allocate(usize),
}

/// A state of the shared-memory scheme.
pub struct ShmView {
    pub maps: Map<Seq<char>, ShmHandle>,
    pub handles: Map<usize, Seq<char>>,
    pub next_id: usize,
}

/// The bytes `shm:` that start every shared-memory path.
pub open spec fn scheme_prefix() -> Seq<u8> {
    seq![0x73u8, 0x68u8, 0x6du8, 0x3au8]
}

/// The number of pages that hold `size` bytes.
pub open spec fn pages(size: usize) -> int {
    (size + PAGE_SIZE - 1) / (PAGE_SIZE as int)
}

impl ShmView {
    /// The state of a scheme that has served no request.
    pub open spec fn empty() -> ShmView {
        ShmView { maps: Map::empty(), handles: Map::empty(), next_id: 0 }
    }

    /// The handles that are open on `name`.
    pub open spec fn holders(self, name: Seq<char>) -> Set<usize> {
        self.handles.dom().filter(|id: usize| self.handles[id] == name)
    }

    /// The states that the scheme can be in: ids are never used twice, every
    /// handle is open on a name that has an entry, and every entry counts
    /// the handles that are open on its name, of which there is at least
    /// one.
    pub open spec fn wf(self) -> bool {
        &&& self.handles.dom().finite()
        &&& forall|id: usize| #[trigger]
            self.handles.contains_key(id) ==> id < self.next_id && self.maps.contains_key(
                self.handles[id],
            )
        &&& forall|name: Seq<char>| #[trigger]
            self.maps.contains_key(name) ==> {
                &&& self.maps[name].refs == self.holders(name).len()
                &&& 0 < self.maps[name].refs <= self.next_id
                &&& self.maps[name].buffer matches Some(g) ==> g.wf()
            }
    }

    /// The entry of `name` after one more handle was opened on it.
    pub open spec fn joined(self, name: Seq<char>) -> ShmHandle {
        if self.maps.contains_key(name) {
            ShmHandle { refs: (self.maps[name].refs + 1) as usize, ..self.maps[name] }
        } else {
            ShmHandle { buffer: None, refs: 1 }
        }
    }

    /// Opens a handle on `path`, which gets an entry if it has none.
    pub open spec fn open(self, path: Seq<char>) -> ShmView {
        ShmView {
            maps: self.maps.insert(path, self.joined(path)),
            handles: self.handles.insert(self.next_id, path),
            next_id: (self.next_id + 1) as usize,
        }
    }

    /// The entry that handle `id` is open on.
    pub open spec fn entry(self, id: usize) -> ShmHandle {
        self.maps[self.handles[id]]
    }

    /// Closes handle `id`. The entry goes with its last handle.
    pub open spec fn close(self, id: usize) -> ShmView {
        if !self.handles.contains_key(id) {
            self
        } else {
            let name = self.handles[id];
            let entry = self.entry(id);
            ShmView {
                maps: if entry.refs == 1 {
                    self.maps.remove(name)
                } else {
                    self.maps.insert(name, ShmHandle { refs: (entry.refs - 1) as usize, ..entry })
                },
                handles: self.handles.remove(id),
                next_id: self.next_id,
            }
        }
    }

    /// What closing handle `id` sets free: the region of the entry, if the
    /// handle was the last on it.
    pub open spec fn freed(self, id: usize) -> Option<MmapGuard> {
        if self.entry(id).refs == 1 {
            self.entry(id).buffer
        } else {
            None
        }
    }

    /// The path of handle `id` in bytes: `shm:` and the name.
    pub open spec fn path_bytes(self, id: usize) -> Seq<u8> {
        scheme_prefix() + encode_utf8(self.handles[id])
    }

    /// The answer to a request to map `size` bytes at `offset` of handle
    /// `id`. Without a region, one of whole pages that hold `size` bytes is
    /// asked for. With a region, the request must end within it, and is
    /// answered with the address of `offset` in the region.
    pub open spec fn mmap_prep(self, id: usize, offset: u64, size: usize) -> Result<
        MapPlan,
        Error,
    > {
        if !self.handles.contains_key(id) {
            Err(Error::BadFile)
        } else {
            match self.entry(id).buffer {
                Some(g) => if offset + size > g.spec_len() {
                    Err(Error::OutOfRange)
                } else {
                    Ok(MapPlan::Mapped((g.spec_ptr() + offset) as usize))
                },
                None => if pages(size) * PAGE_SIZE > usize::MAX {
                    Err(Error::OutOfRange)
                } else {
                    Ok(MapPlan::Allocate((pages(size) * PAGE_SIZE) as usize))
                },
            }
        }
    }

    /// The state after the region `guard` was mapped for handle `id`.
    pub open spec fn mmap_done(self, id: usize, guard: MmapGuard) -> ShmView {
        ShmView {
            maps: self.maps.insert(
                self.handles[id],
                ShmHandle { buffer: Some(guard), ..self.entry(id) },
            ),
            ..self
        }
    }
}

/// The shared-memory scheme.
pub struct ShmScheme {
    maps: StringHashMap<ShmHandle>,
    handles: HashMap<usize, String>,
    next_id: usize,
}

impl View for ShmScheme {
    type V = ShmView;

    closed spec fn view(&self) -> ShmView {
        ShmView {
            maps: self.maps@,
            handles: Map::new(
                |id: usize| self.handles@.contains_key(id),
                |id: usize| self.handles@[id]@,
            ),
            next_id: self.next_id,
        }
    }
}

/// Opening a handle keeps the state well-formed.
pub proof fn lemma_open_wf(s: ShmView, path: Seq<char>)
    requires
        s.wf(),
        s.next_id < usize::MAX,
    ensures
        s.open(path).wf(),
{
    let t = s.open(path);
    let id = s.next_id;
    assert forall|name: Seq<char>| #[trigger] t.maps.contains_key(name) implies {
        &&& t.maps[name].refs == t.holders(name).len()
        &&& 0 < t.maps[name].refs <= t.next_id
        &&& t.maps[name].buffer matches Some(g) ==> g.wf()
    } by {
        if name == path {
            assert(t.holders(name) =~= s.holders(name).insert(id));
            if !s.maps.contains_key(name) {
                assert(s.holders(name) =~= Set::empty()) by {
                    assert forall|h: usize| !s.holders(name).contains(h) by {
                        if s.handles.contains_key(h) {
                            assert(s.maps.contains_key(s.handles[h]));
                        }
                    }
                }
            }
        } else {
            assert(t.holders(name) =~= s.holders(name));
        }
    }
}

/// Closing a handle keeps the state well-formed.
pub proof fn lemma_close_wf(s: ShmView, id: usize)
    requires
        s.wf(),
    ensures
        s.close(id).wf(),
{
    let t = s.close(id);
    if s.handles.contains_key(id) {
        let gone = s.handles[id];
        assert(s.maps.contains_key(gone));
        assert(s.holders(gone).contains(id));
        assert forall|h: usize| #[trigger] t.handles.contains_key(h) implies h < t.next_id
            && t.maps.contains_key(t.handles[h]) by {
            assert(s.handles.contains_key(h));
            if s.handles[h] == gone {
                assert(s.holders(gone).remove(id).contains(h));
                assert(s.holders(gone).remove(id).len() > 0);
            }
        }
        assert forall|name: Seq<char>| #[trigger] t.maps.contains_key(name) implies {
            &&& t.maps[name].refs == t.holders(name).len()
            &&& 0 < t.maps[name].refs <= t.next_id
            &&& t.maps[name].buffer matches Some(g) ==> g.wf()
        } by {
            assert(s.maps.contains_key(name));
            if name == gone {
                assert(t.holders(name) =~= s.holders(name).remove(id));
            } else {
                assert(t.holders(name) =~= s.holders(name));
            }
        }
    }
}

/// Installing a region keeps the state well-formed.
pub proof fn lemma_mmap_done_wf(s: ShmView, id: usize, guard: MmapGuard)
    requires
        s.wf(),
        s.handles.contains_key(id),
        guard.wf(),
    ensures
        s.mmap_done(id, guard).wf(),
{
    let t = s.mmap_done(id, guard);
    assert forall|name: Seq<char>| #[trigger] t.maps.contains_key(name) implies {
        &&& t.maps[name].refs == t.holders(name).len()
        &&& 0 < t.maps[name].refs <= t.next_id
        &&& t.maps[name].buffer matches Some(g) ==> g.wf()
    } by {
        assert(s.maps.contains_key(name));
        assert(t.holders(name) =~= s.holders(name));
    }
}

/// Reference counting: the entry of a name exists exactly as long as a
/// handle is open on the name, and counts those handles.
pub proof fn lemma_entry_counts_handles(s: ShmView, name: Seq<char>)
    requires
        s.wf(),
    ensures
        s.maps.contains_key(name) <==> exists|id: usize|
            s.handles.contains_key(id) && s.handles[id] == name,
        s.maps.contains_key(name) ==> s.maps[name].refs == s.holders(name).len(),
{
    if s.maps.contains_key(name) {
        assert(s.holders(name).len() > 0);
        assert(s.holders(name).finite());
        let id = s.holders(name).choose();
        assert(s.holders(name).contains(id));
        assert(s.handles.contains_key(id) && s.handles[id] == name);
    }
}

impl ShmScheme {
    /// The scheme is in a state that it can reach.
    pub open spec fn wf(&self) -> bool {
        self@.wf()
    }

    /// A scheme without handles.
    pub fn new() -> (s: ShmScheme)
        ensures
            s.wf(),
            s@ == ShmView::empty(),
    {
        let s = ShmScheme { maps: StringHashMap::new(), handles: HashMap::new(), next_id: 0 };
        assert(s@.handles =~= Map::empty());
        s
    }

    /// The id that the next new handle gets. Opening a handle needs this to
    /// be below `usize::MAX`.
    pub fn next_id(&self) -> (id: usize)
        ensures
            id == self@.next_id,
    {
        self.next_id
    }

    /// Opens a handle on `path` and returns its id. The name gets an entry
    /// if it has none.
    pub fn open(&mut self, path: &str, _flags: usize, _uid: u32, _gid: u32) -> (r: Result<
        usize,
        Error,
    >)
        requires
            old(self).wf(),
            old(self)@.next_id < usize::MAX,
        ensures
            final(self).wf(),
            r == Ok::<usize, Error>(old(self)@.next_id),
            final(self)@ == old(self)@.open(path@),
    {
        proof {
            lemma_open_wf(self@, path@);
        }
        let mut entry = match self.maps.get(path) {
            Some(entry) => *entry,
            None => ShmHandle::default(),
        };
        entry.refs = entry.refs + 1;
        self.maps.insert(path.to_owned(), entry);
        let id = self.next_id;
        self.handles.insert(id, path.to_owned());
        self.next_id = id + 1;
        assert(self@.handles =~= old(self)@.open(path@).handles);
        Ok(id)
    }

    /// Writes the path of handle `id` into `buf`, as far as it fits, and
    /// returns how many bytes that were. An unknown handle gets as much of
    /// `shm:` as fits, and the request fails. The rest of `buf` is as it
    /// was.
    pub fn fpath(&mut self, id: usize, buf: &mut [u8]) -> (r: Result<usize, Error>)
        ensures
            final(self)@ == old(self)@,
            r == (if old(self)@.handles.contains_key(id) {
                Ok::<usize, Error>(
                    fit(old(buf)@.len(), old(self)@.path_bytes(id).len()) as usize,
                )
            } else {
                Err::<usize, Error>(Error::BadFile)
            }),
            final(buf)@ == (match r {
                Ok(n) => overlay(old(buf)@, old(self)@.path_bytes(id), n as nat),
                Err(_) => overlay(old(buf)@, scheme_prefix(), fit(old(buf)@.len(), 4)),
            }),
    {
        // The name of the scheme comes first.
        let prefix: [u8; 4] = [0x73, 0x68, 0x6d, 0x3a];
        assert(prefix@ =~= scheme_prefix());
        let head = copy_into(buf, 0, prefix.as_slice());
        assert(buf@ =~= overlay(old(buf)@, scheme_prefix(), head as nat));
        let path = match self.handles.get(&id) {
            Some(path) => path,
            None => {
                return Err(Error::BadFile);
            },
        };
        let ghost whole = self@.path_bytes(id);
        if head < 4 {
            assert(buf@ =~= overlay(old(buf)@, whole, head as nat));
            return Ok(head);
        }
        let room = buf.len();
        let tail = copy_into(buf, 4, path.as_str().as_bytes());
        assert(4 + tail <= room);
        assert(buf@ =~= overlay(old(buf)@, whole, (4 + tail) as nat));
        Ok(4 + tail)
    }

    /// Closes handle `id`. If it was the last handle on its name, the entry
    /// goes, and its region, if it had one, is returned to be released.
    pub fn close(&mut self, id: usize) -> (r: Result<Option<MmapGuard>, Error>)
        requires
            old(self).wf(),
        ensures
            final(self).wf(),
            final(self)@ == old(self)@.close(id),
            r == (if old(self)@.handles.contains_key(id) {
                Ok::<Option<MmapGuard>, Error>(old(self)@.freed(id))
            } else {
                Err::<Option<MmapGuard>, Error>(Error::BadFile)
            }),
    {
        proof {
            lemma_close_wf(self@, id);
        }
        let path = match self.handles.remove(&id) {
            Some(path) => path,
            None => {
                assert(self@.handles =~= old(self)@.handles);
                return Err(Error::BadFile);
            },
        };
        assert(old(self)@.handles[id] == path@);
        assert(self@.handles =~= old(self)@.handles.remove(id));
        let entry = match self.maps.get(path.as_str()) {
            Some(entry) => *entry,
            None => {
                // Cannot happen in a well-formed state.
                assert(false);
                ShmHandle::default()
            },
        };
        if entry.refs == 1 {
            // No other handle is open on the name: the entry goes.
            self.maps.remove(path.as_str());
            Ok(entry.buffer)
        } else {
            self.maps.insert(path, ShmHandle { buffer: entry.buffer, refs: entry.refs - 1 });
            Ok(None)
        }
    }

    /// Answers a request to map `size` bytes at `offset` of handle `id`:
    /// with the address, or with the size of the region that has to be
    /// mapped first.
    pub fn mmap_prep(&mut self, id: usize, offset: u64, size: usize, _flags: usize) -> (r: Result<
        MapPlan,
        Error,
    >)
        requires
            old(self).wf(),
        ensures
            final(self)@ == old(self)@,
            r == old(self)@.mmap_prep(id, offset, size),
    {
        let path = match self.handles.get(&id) {
            Some(path) => path,
            None => {
                return Err(Error::BadFile);
            },
        };
        let entry = match self.maps.get(path.as_str()) {
            Some(entry) => *entry,
            None => {
                // Cannot happen in a well-formed state.
                assert(false);
                ShmHandle::default()
            },
        };
        match entry.buffer {
            Some(buf) => {
                if offset > usize::MAX as u64 {
                    return Err(Error::OutOfRange);
                }
                let start = offset as usize;
                if start > buf.len() || size > buf.len() - start {
                    return Err(Error::OutOfRange);
                }
                Ok(MapPlan::Mapped(buf.as_ptr() + start))
            },
            None => {
                let whole = size / PAGE_SIZE;
                let count = if size % PAGE_SIZE == 0 {
                    whole
                } else {
                    whole + 1
                };
                assert(count == pages(size));
                if count > usize::MAX / PAGE_SIZE {
                    return Err(Error::OutOfRange);
                }
                Ok(MapPlan::Allocate(count * PAGE_SIZE))
            },
        }
    }

    /// Takes the region that was mapped for handle `id` after
    /// [`ShmScheme::mmap_prep`] asked for one, and answers the request with
    /// the address of `offset` in it.
    pub fn mmap_done(&mut self, id: usize, offset: u64, guard: MmapGuard) -> (r: Result<
        usize,
        Error,
    >)
        requires
            old(self).wf(),
            old(self)@.handles.contains_key(id),
            old(self)@.entry(id).buffer is None,
            guard.wf(),
        ensures
            final(self).wf(),
            final(self)@ == old(self)@.mmap_done(id, guard),
            r == (if guard.spec_ptr() + offset <= usize::MAX {
                Ok::<usize, Error>((guard.spec_ptr() + offset) as usize)
            } else {
                Err::<usize, Error>(Error::OutOfRange)
            }),
    {
        proof {
            lemma_mmap_done_wf(self@, id, guard);
        }
        let path = match self.handles.get(&id) {
            Some(path) => path.clone(),
            None => {
                // Cannot happen in a well-formed state.
                assert(false);
                String::new()
            },
        };
        let entry = match self.maps.get(path.as_str()) {
            Some(entry) => *entry,
            None => {
                // Cannot happen in a well-formed state.
                assert(false);
                ShmHandle::default()
            },
        };
        self.maps.insert(path, ShmHandle { buffer: Some(guard), refs: entry.refs });
        assert(self@.handles =~= old(self)@.handles);
        if offset > (usize::MAX - guard.as_ptr()) as u64 {
            Err(Error::OutOfRange)
        } else {
            Ok(guard.as_ptr() + offset as usize)
        }
    }

    /// Whether handle `id` is open on a name that has no region yet, so
    /// that [`ShmScheme::mmap_done`] may be called for it.
    pub fn lacks_region(&self, id: usize) -> (b: bool)
        requires
            self.wf(),
        ensures
            b == (self@.handles.contains_key(id) && self@.entry(id).buffer is None),
    {
        match self.handles.get(&id) {
            Some(path) => match self.maps.get(path.as_str()) {
                Some(entry) => entry.buffer.is_none(),
                None => false,
            },
            None => false,
        }
    }
}

} // verus!
