//! The single-slot channel scheme: a channel scheme in which a listener holds
//! one pending client at a time and refuses the next, and in which readiness
//! is reported in rounds.
//!
//! [`IpcScheme`] answers requests much as [`crate::chan::ChanScheme`] does,
//! but raises no events while it does. [`IpcScheme::post_fevents`] makes a
//! round over all handles instead and returns the readiness that is new
//! since the last round.
//!
//! Where the two schemes differ:
//!
//! - While a client waits on a listener, the next client is refused.
//! - An accept finds out that the client that waited has gone, and answers
//!   with a reset connection.
//! - A path is opened from bytes, which must be valid UTF-8.
//! - Only `listen` and `connect` are sub-paths of a duplication.
//! - Whether a read or a write may block depends on the flags of the handle
//!   alone.

pub mod model;

use std::collections::HashMap;
use vstd::hash_map::StringHashMap;
use vstd::prelude::*;
use vstd::std_specs::hash::group_hash_axioms;
use vstd::utf8::encode_utf8_decode_utf8;
use crate::bytes::{copy_into, overlay, same_bytes, str_from_utf8};
use crate::chan::model::{connect_bytes, listen_bytes, Reply};
use crate::chan::Fevent;
use crate::error::Error;
use crate::flags::{
    holds, EVENT_READ, EVENT_WRITE, F_GETFL, F_SETFL, O_CREAT, O_EXCL, O_NONBLOCK,
};
use self::model::{
    lemma_accept_wf, lemma_close_wf, lemma_open_wf, lemma_pend_wf, lemma_raised_gap,
    lemma_same_links_wf, ClientView, ExtraView, HandleView, IpcView, ListenerView,
};

verus! {

broadcast use group_hash_axioms;

/// Where the other side of a handle stands.
#[derive(Clone, Copy, Debug, PartialEq, Eq, Structural)]
pub enum Connection {
    /// Nobody there yet.
    Waiting,
    /// The handle with this id.
    Open(usize),
    /// The peer has closed.
    Closed,
}

impl Default for Connection {
    fn default() -> (c: Connection)
        ensures
            c == Connection::Waiting,
    {
        Connection::Waiting
    }
}

/// One end of a byte stream.
#[derive(Debug)]
pub struct Client {
    buffer: Vec<u8>,
}

impl View for Client {
    type V = ClientView;

    closed spec fn view(&self) -> ClientView {
        ClientView { buffer: self.buffer@ }
    }
}

impl Default for Client {
    fn default() -> (c: Client)
        ensures
            c@ == (ClientView { buffer: Seq::empty() }),
    {
        Client { buffer: Vec::new() }
    }
}

/// A handle that clients connect to.
#[derive(Debug)]
pub struct Listener {
    path: Option<String>,
}

impl View for Listener {
    type V = ListenerView;

    closed spec fn view(&self) -> ListenerView {
        ListenerView {
            path: match self.path {
                Some(s) => Some(s@),
                None => None,
            },
        }
    }
}

impl Default for Listener {
    fn default() -> (l: Listener)
        ensures
            l@ == (ListenerView { path: None }),
    {
        Listener { path: None }
    }
}

/// The role of a handle.
#[derive(Debug)]
pub enum Extra {
    Client(Client),
    Listener(Listener),
}

impl View for Extra {
    type V = ExtraView;

    closed spec fn view(&self) -> ExtraView {
        match self {
            Extra::Client(c) => ExtraView::Client(c@),
            Extra::Listener(l) => ExtraView::Listener(l@),
        }
    }
}

impl Default for Extra {
    fn default() -> (e: Extra)
        ensures
            e@ == ExtraView::Client(ClientView { buffer: Seq::empty() }),
    {
        Extra::Client(Client::default())
    }
}

/// What the scheme keeps for each open endpoint.
#[derive(Debug)]
pub struct Handle {
    flags: usize,
    notified_read: bool,
    notified_write: bool,
    remote: Connection,
    extra: Extra,
}

impl View for Handle {
    type V = HandleView;

    closed spec fn view(&self) -> HandleView {
        HandleView {
            flags: self.flags,
            notified_read: self.notified_read,
            notified_write: self.notified_write,
            remote: self.remote,
            extra: self.extra@,
        }
    }
}

impl Default for Handle {
    fn default() -> (h: Handle)
        ensures
            h@ == HandleView::client(0, Connection::Waiting),
    {
        Handle {
            flags: 0,
            notified_read: false,
            notified_write: false,
            remote: Connection::default(),
            extra: Extra::default(),
        }
    }
}

impl Handle {
    /// Takes over what waits on this handle: the result is a client with
    /// the flags and the other side of this handle, which is left with
    /// nobody waiting.
    pub fn accept(&mut self) -> (h: Handle)
        ensures
            h@ == HandleView::client(old(self)@.flags, old(self)@.remote),
            final(self)@ == old(self)@.with_remote(Connection::Waiting),
    {
        let remote = self.remote;
        self.remote = Connection::Waiting;
        Handle {
            flags: self.flags,
            notified_read: false,
            notified_write: false,
            remote,
            extra: Extra::default(),
        }
    }

    /// Fails unless this handle is a listener.
    pub fn require_listener(&self) -> (r: Result<(), Error>)
        ensures
            r == (if self@.extra is Listener {
                Ok::<(), Error>(())
            } else {
                Err::<(), Error>(Error::BadFile)
            }),
    {
        match self.extra {
            Extra::Listener(_) => Ok(()),
            _ => Err(Error::BadFile),
        }
    }

    /// Fails unless this handle is a client.
    pub fn require_client(&self) -> (r: Result<(), Error>)
        ensures
            r == (if self@.extra is Client {
                Ok::<(), Error>(())
            } else {
                Err::<(), Error>(Error::BadFile)
            }),
    {
        match self.extra {
            Extra::Client(_) => Ok(()),
            _ => Err(Error::BadFile),
        }
    }
}

/// Whether the ids rise strictly.
pub open spec fn rising(ids: Seq<usize>) -> bool {
    forall|i: int, j: int| 0 <= i < j < ids.len() ==> ids[i] < ids[j]
}

/// The single-slot channel scheme.
pub struct IpcScheme {
    handles: HashMap<usize, Handle>,
    listeners: StringHashMap<usize>,
    next_id: usize,
    /// The ids of the handles, rising.
    order: Vec<usize>,
}

impl View for IpcScheme {
    type V = IpcView;

    closed spec fn view(&self) -> IpcView {
        IpcView {
            handles: Map::new(
                |id: usize| self.handles@.contains_key(id),
                |id: usize| self.handles@[id]@,
            ),
            listeners: self.listeners@,
            next_id: self.next_id,
        }
    }
}

impl Default for IpcScheme {
    fn default() -> (s: IpcScheme)
        ensures
            s.wf(),
            s@ == IpcView::empty(),
    {
        let s = IpcScheme {
            handles: HashMap::new(),
            listeners: StringHashMap::new(),
            next_id: 0,
            order: Vec::new(),
        };
        assert(s@.handles =~= Map::empty());
        s
    }
}

impl IpcScheme {
    /// The ids are listed by rising id, each handle once.
    closed spec fn listed(&self) -> bool {
        &&& rising(self.order@)
        &&& forall|id: usize| self.order@.contains(id) <==> self.handles@.contains_key(id)
    }

    /// The scheme is in a state that it can reach.
    pub closed spec fn wf(&self) -> bool {
        self@.wf() && self.listed()
    }

    /// A scheme that is well-formed is in a well-formed state.
    pub proof fn lemma_wf(&self)
        requires
            self.wf(),
        ensures
            self@.wf(),
    {
    }

    /// The id that the next new handle gets. A request that makes a handle
    /// needs this to be below `usize::MAX`.
    pub fn next_id(&self) -> (id: usize)
        ensures
            id == self@.next_id,
    {
        self.next_id
    }

    /// Takes handle `id` out of the table. Its id stays listed.
    fn take(&mut self, id: usize) -> (r: Option<Handle>)
        ensures
            match r {
                Some(h) => old(self)@.handles.contains_key(id) && h@ == old(self)@.handles[id]
                    && final(self)@ == (IpcView {
                    handles: old(self)@.handles.remove(id),
                    ..old(self)@
                }),
                None => !old(self)@.handles.contains_key(id) && final(self)@ == old(self)@,
            },
            final(self).order == old(self).order,
            final(self).handles@.dom() == old(self).handles@.dom().remove(id),
    {
        let r = self.handles.remove(&id);
        assert(old(self).handles@.contains_key(id) ==> old(self)@.handles[id] == old(
            self,
        ).handles@[id]@);
        assert(self@.handles =~= old(self)@.handles.remove(id));
        assert(r is None ==> self@.handles =~= old(self)@.handles);
        assert(self.handles@.dom() =~= old(self).handles@.dom().remove(id));
        r
    }

    /// Puts a handle into the table under `id`.
    fn put(&mut self, id: usize, handle: Handle)
        ensures
            final(self)@ == (IpcView {
                handles: old(self)@.handles.insert(id, handle@),
                ..old(self)@
            }),
            final(self).order == old(self).order,
            final(self).handles@.dom() == old(self).handles@.dom().insert(id),
    {
        self.handles.insert(id, handle);
        assert(self@.handles =~= old(self)@.handles.insert(id, handle@));
        assert(self.handles@.dom() =~= old(self).handles@.dom().insert(id));
    }

    /// Looks handle `id` up.
    fn peek(&self, id: usize) -> (r: Option<&Handle>)
        ensures
            match r {
                Some(h) => self@.handles.contains_key(id) && h@ == self@.handles[id],
                None => !self@.handles.contains_key(id),
            },
    {
        self.handles.get(&id)
    }

    /// Puts a new handle under the next free id.
    fn add_handle(&mut self, handle: Handle) -> (id: usize)
        requires
            old(self)@.next_id < usize::MAX,
            rising(old(self).order@),
            forall|i: int|
                0 <= i < old(self).order@.len() ==> old(self).order@[i] < old(self).next_id,
            forall|h: usize| old(self).order@.contains(h) <==> old(self).handles@.contains_key(h),
        ensures
            id == old(self)@.next_id,
            final(self)@ == (IpcView {
                handles: old(self)@.handles.insert(id, handle@),
                next_id: (id + 1) as usize,
                ..old(self)@
            }),
            final(self).listed(),
    {
        let id = self.next_id;
        self.handles.insert(id, handle);
        self.order.push(id);
        self.next_id = id + 1;
        assert(self@.handles =~= old(self)@.handles.insert(id, handle@));
        assert forall|h: usize| self.order@.contains(h) <==> self.handles@.contains_key(h) by {
            if old(self).order@.contains(h) {
                let i = choose|i: int| 0 <= i < old(self).order@.len() && old(self).order@[i] == h;
                assert(self.order@[i] == h);
            }
            if h == id {
                assert(self.order@[self.order@.len() - 1] == h);
            }
        }
        id
    }

    /// Strikes a handle that has gone from the list of ids.
    fn unlist(&mut self, id: usize)
        requires
            rising(old(self).order@),
            forall|h: usize|
                old(self).order@.contains(h) <==> (old(self).handles@.contains_key(h) || h == id),
            !old(self).handles@.contains_key(id),
        ensures
            final(self)@ == old(self)@,
            final(self).listed(),
    {
        let mut i: usize = 0;
        while i < self.order.len()
            invariant
                i <= self.order@.len(),
                self.order == old(self).order,
                self.handles == old(self).handles,
                self.listeners == old(self).listeners,
                self.next_id == old(self).next_id,
                rising(self.order@),
                forall|h: usize|
                    self.order@.contains(h) <==> (self.handles@.contains_key(h) || h == id),
                !self.handles@.contains_key(id),
                forall|j: int| 0 <= j < i ==> self.order@[j] != id,
            decreases self.order@.len() - i,
        {
            if self.order[i] == id {
                let ghost before = self.order@;
                self.order.remove(i);
                proof {
                    before.remove_ensures(i as int);
                }
                assert forall|h: usize| self.order@.contains(h) <==> self.handles@.contains_key(
                    h,
                ) by {
                    if self.order@.contains(h) {
                        let j = choose|j: int| 0 <= j < self.order@.len() && self.order@[j] == h;
                        if j < i {
                            assert(before[j] == h);
                        } else {
                            assert(before[j + 1] == h);
                            assert(before[i as int] < before[j + 1]);
                        }
                        assert(before.contains(h));
                    }
                    if self.handles@.contains_key(h) {
                        assert(before.contains(h));
                        let j = choose|j: int| 0 <= j < before.len() && before[j] == h;
                        if j < i {
                            assert(self.order@[j] == h);
                        } else {
                            assert(j != i);
                            assert(self.order@[j - 1] == h);
                        }
                    }
                }
                return ;
            }
            i += 1;
        }
        proof {
            assert(old(self).order@.contains(id));
            // Cannot happen in a well-formed state.
            assert(false);
        }
    }

    /// Makes a new client wait on the listener.
    fn pend(&mut self, listener_id: usize, flags: usize) -> (r: Reply)
        requires
            old(self).wf(),
            old(self)@.is_listener(listener_id),
            old(self)@.next_id < usize::MAX,
        ensures
            final(self).wf(),
            r == old(self)@.pend(listener_id, flags).reply,
            final(self)@ == old(self)@.pend(listener_id, flags).next,
    {
        proof {
            lemma_pend_wf(self@, listener_id, flags);
            self.lemma_bounded();
        }
        let new_id = self.next_id;
        let mut new = Handle::default();
        new.flags = flags;
        match self.take(listener_id) {
            Some(mut listener) => {
                if listener.remote != Connection::Waiting {
                    self.put(listener_id, listener);
                    assert(self@.handles =~= old(self)@.handles);
                    assert(self.handles@.dom() =~= old(self).handles@.dom());
                    return Err(Error::ConnectionRefused);
                }
                listener.remote = Connection::Open(new_id);
                self.put(listener_id, listener);
            },
            None => {
                // Cannot happen in a well-formed state.
                assert(false);
            },
        }
        assert(self.handles@.dom() =~= old(self).handles@.dom());
        self.add_handle(new);
        assert(self@.handles =~= old(self)@.pend(listener_id, flags).next.handles);
        Ok(Some(new_id))
    }

    /// Every listed id was given out.
    proof fn lemma_bounded(&self)
        requires
            self.wf(),
        ensures
            forall|i: int| 0 <= i < self.order@.len() ==> self.order@[i] < self.next_id,
    {
        assert forall|i: int| 0 <= i < self.order@.len() implies self.order@[i]
            < self.next_id by {
            assert(self.order@.contains(self.order@[i]));
            assert(self@.handles.contains_key(self.order@[i]));
            assert(self@.handle_wf(self.order@[i]));
        }
    }

    /// Opens the path that the bytes spell: makes a listener, or makes a
    /// client wait on the listener bound to the name.
    pub fn open(&mut self, path: &[u8], flags: usize, _uid: u32, _gid: u32) -> (r: Reply)
        requires
            old(self).wf(),
            old(self)@.next_id < usize::MAX,
        ensures
            final(self).wf(),
            r == old(self)@.open(path@, flags).reply,
            final(self)@ == old(self)@.open(path@, flags).next,
    {
        proof {
            lemma_open_wf(self@, path@, flags);
            self.lemma_bounded();
        }
        let name = match str_from_utf8(path) {
            Some(name) => name,
            None => {
                return Err(Error::Permission);
            },
        };
        proof {
            encode_utf8_decode_utf8(name@);
        }
        let create = holds(flags, O_CREAT);
        if create && !self.listeners.contains_key(name) {
            let mut listener = Listener::default();
            if !name.is_empty() {
                self.listeners.insert(name.to_owned(), self.next_id);
                listener.path = Some(name.to_owned());
            }
            let mut new = Handle::default();
            new.flags = flags;
            new.extra = Extra::Listener(listener);
            let id = self.add_handle(new);
            assert(self@.handles =~= old(self)@.open(path@, flags).next.handles);
            Ok(Some(id))
        } else if create && holds(flags, O_EXCL) {
            Err(Error::AlreadyExists)
        } else {
            let found = match self.listeners.get(name) {
                Some(id) => Some(*id),
                None => None,
            };
            match found {
                Some(listener_id) => {
                    assert(self@.bound(name@));
                    self.pend(listener_id, flags)
                },
                None => Err(Error::NotFound),
            }
        }
    }

    /// Pairs the client that waits on listener `id` with a new client.
    fn accept(&mut self, id: usize) -> (r: Reply)
        requires
            old(self).wf(),
            old(self)@.next_id < usize::MAX,
        ensures
            final(self).wf(),
            r == old(self)@.accept(id).reply,
            final(self)@ == old(self)@.accept(id).next,
    {
        proof {
            lemma_accept_wf(self@, id);
            self.lemma_bounded();
        }
        let ghost pre = self@;
        let mut handle = match self.take(id) {
            Some(handle) => handle,
            None => {
                return Err(Error::BadFile);
            },
        };
        match handle.require_listener() {
            Ok(_) => {},
            Err(e) => {
                self.put(id, handle);
                assert(self@.handles =~= pre.handles);
                assert(self.handles@.dom() =~= old(self).handles@.dom());
                return Err(e);
            },
        }
        assert(pre.handle_wf(id));
        let flags = handle.flags;
        if let Connection::Open(remote_id) = handle.remote {
            let new = handle.accept();
            self.put(id, handle);
            assert(self.handles@.dom() =~= old(self).handles@.dom());
            // The other side may have closed before it was accepted.
            match self.take(remote_id) {
                Some(mut remote) => {
                    remote.remote = Connection::Open(self.next_id);
                    self.put(remote_id, remote);
                },
                None => {
                    assert(self@.handles =~= pre.accept(id).next.handles);
                    return Err(Error::ConnectionReset);
                },
            }
            assert(self.handles@.dom() =~= old(self).handles@.dom());
            let new_id = self.add_handle(new);
            assert(self@.handles =~= pre.accept(id).next.handles);
            Ok(Some(new_id))
        } else {
            self.put(id, handle);
            assert(self@.handles =~= pre.handles);
            assert(self.handles@.dom() =~= old(self).handles@.dom());
            if holds(flags, O_NONBLOCK) {
                Err(Error::Again)
            } else {
                Ok(None)
            }
        }
    }

    /// Makes a new client wait on listener `id`.
    fn connect(&mut self, id: usize) -> (r: Reply)
        requires
            old(self).wf(),
            old(self)@.next_id < usize::MAX,
        ensures
            final(self).wf(),
            r == old(self)@.connect(id).reply,
            final(self)@ == old(self)@.connect(id).next,
    {
        let listening = match self.peek(id) {
            Some(handle) => handle.require_listener().is_ok(),
            None => false,
        };
        if listening {
            self.pend(id, 0)
        } else {
            Err(Error::BadFile)
        }
    }

    /// Duplicates handle `id` under the sub-path `buf`: `listen` accepts the
    /// client that waits, `connect` makes a new client wait.
    pub fn dup(&mut self, id: usize, buf: &[u8]) -> (r: Reply)
        requires
            old(self).wf(),
            old(self)@.next_id < usize::MAX,
        ensures
            final(self).wf(),
            r == old(self)@.dup(id, buf@).reply,
            final(self)@ == old(self)@.dup(id, buf@).next,
    {
        let listen: [u8; 6] = [0x6c, 0x69, 0x73, 0x74, 0x65, 0x6e];
        let connect: [u8; 7] = [0x63, 0x6f, 0x6e, 0x6e, 0x65, 0x63, 0x74];
        assert(listen@ =~= listen_bytes());
        assert(connect@ =~= connect_bytes());
        if same_bytes(buf, listen.as_slice()) {
            self.accept(id)
        } else if same_bytes(buf, connect.as_slice()) {
            self.connect(id)
        } else {
            Err(Error::BadFile)
        }
    }

    /// Reads or replaces the flags of handle `id`.
    pub fn fcntl(&mut self, id: usize, cmd: usize, arg: usize) -> (r: Reply)
        requires
            old(self).wf(),
        ensures
            final(self).wf(),
            r == old(self)@.fcntl(id, cmd, arg).reply,
            final(self)@ == old(self)@.fcntl(id, cmd, arg).next,
    {
        let ghost pre = self@;
        let mut handle = match self.take(id) {
            Some(handle) => handle,
            None => {
                return Err(Error::BadFile);
            },
        };
        let r = if cmd == F_GETFL {
            Ok(Some(handle.flags))
        } else if cmd == F_SETFL {
            handle.flags = arg;
            Ok(Some(0))
        } else {
            Err(Error::InvalidArgument)
        };
        self.put(id, handle);
        assert(self@.handles =~= pre.fcntl(id, cmd, arg).next.handles);
        assert(self.handles@.dom() =~= old(self).handles@.dom());
        proof {
            lemma_same_links_wf(pre, self@);
        }
        r
    }

    /// Subscribes to handle `id`: its readiness will be reported in the
    /// next round, again if it was reported before.
    pub fn fevent(&mut self, id: usize, _flags: usize) -> (r: Reply)
        requires
            old(self).wf(),
        ensures
            final(self).wf(),
            r == old(self)@.fevent(id).reply,
            final(self)@ == old(self)@.fevent(id).next,
    {
        let ghost pre = self@;
        let mut handle = match self.take(id) {
            Some(handle) => handle,
            None => {
                return Err(Error::BadFile);
            },
        };
        handle.notified_read = false;
        handle.notified_write = false;
        self.put(id, handle);
        assert(self@.handles =~= pre.fevent(id).next.handles);
        assert(self.handles@.dom() =~= old(self).handles@.dom());
        proof {
            lemma_same_links_wf(pre, self@);
        }
        Ok(Some(id))
    }

    /// Sends `buf` to the peer of client `id`.
    pub fn write(&mut self, id: usize, buf: &[u8]) -> (r: Reply)
        requires
            old(self).wf(),
        ensures
            final(self).wf(),
            r == old(self)@.write(id, buf@).reply,
            final(self)@ == old(self)@.write(id, buf@).next,
    {
        let ghost pre = self@;
        let (flags, remote) = match self.peek(id) {
            Some(handle) => {
                match handle.require_client() {
                    Ok(_) => {},
                    Err(e) => {
                        return Err(e);
                    },
                }
                (handle.flags, handle.remote)
            },
            None => {
                return Err(Error::BadFile);
            },
        };
        match remote {
            Connection::Open(remote_id) => {
                assert(pre.handle_wf(id));
                match self.take(remote_id) {
                    Some(mut peer) => {
                        match &mut peer.extra {
                            Extra::Client(client) => {
                                client.buffer.extend_from_slice(buf);
                                assert(client.buffer@ =~= pre.handles[remote_id].buffer() + buf@);
                            },
                            Extra::Listener(_) => {
                                // Cannot happen in a well-formed state.
                                assert(false);
                            },
                        }
                        self.put(remote_id, peer);
                    },
                    None => {
                        // Cannot happen in a well-formed state.
                        assert(false);
                    },
                }
                assert(self@.handles =~= pre.write(id, buf@).next.handles);
                assert(self.handles@.dom() =~= old(self).handles@.dom());
                proof {
                    lemma_same_links_wf(pre, self@);
                }
                Ok(Some(buf.len()))
            },
            Connection::Waiting => if holds(flags, O_NONBLOCK) {
                Err(Error::Again)
            } else {
                Ok(None)
            },
            Connection::Closed => Err(Error::BrokenPipe),
        }
    }

    /// Succeeds if the handle exists: nothing is ever left to flush.
    pub fn fsync(&mut self, id: usize) -> (r: Reply)
        ensures
            r == old(self)@.fsync(id),
            *final(self) == *old(self),
    {
        match self.peek(id) {
            Some(_) => Ok(Some(id)),
            None => Err(Error::BadFile),
        }
    }

    /// Reads from client `id` into `buf`. The bytes read stand at the start
    /// of `buf`; the rest of `buf` is as it was.
    pub fn read(&mut self, id: usize, buf: &mut [u8]) -> (r: Reply)
        requires
            old(self).wf(),
        ensures
            final(self).wf(),
            r == old(self)@.read(id, old(buf)@.len()).reply,
            final(self)@ == old(self)@.read(id, old(buf)@.len()).next,
            final(buf)@ == overlay(
                old(buf)@,
                old(self)@.readable(id, old(buf)@.len()),
                old(self)@.readable(id, old(buf)@.len()).len(),
            ),
    {
        let ghost pre = self@;
        assert(buf@ =~= overlay(buf@, Seq::<u8>::empty(), 0));
        let mut handle = match self.take(id) {
            Some(handle) => handle,
            None => {
                return Err(Error::BadFile);
            },
        };
        let flags = handle.flags;
        let remote = handle.remote;
        let r = match &mut handle.extra {
            Extra::Client(client) => {
                if client.buffer.len() > 0 {
                    let ghost buffer = client.buffer@;
                    let len = copy_into(buf, 0, client.buffer.as_slice());
                    let rest = client.buffer.split_off(len);
                    client.buffer = rest;
                    assert(client.buffer@ =~= buffer.skip(len as int));
                    assert(buf@ =~= overlay(old(buf)@, buffer.take(len as int), len as nat));
                    Ok(Some(len))
                } else if remote == Connection::Closed {
                    // The peer has gone: end of the stream.
                    Ok(Some(0))
                } else if holds(flags, O_NONBLOCK) {
                    Err(Error::Again)
                } else {
                    Ok(None)
                }
            },
            Extra::Listener(_) => Err(Error::BadFile),
        };
        self.put(id, handle);
        assert(self@.handles =~= pre.read(id, old(buf)@.len()).next.handles);
        assert(self.handles@.dom() =~= old(self).handles@.dom());
        proof {
            lemma_same_links_wf(pre, self@);
        }
        r
    }

    /// Closes handle `id`.
    pub fn close(&mut self, id: usize) -> (r: Reply)
        requires
            old(self).wf(),
        ensures
            final(self).wf(),
            r == old(self)@.close(id).reply,
            final(self)@ == old(self)@.close(id).next,
    {
        proof {
            lemma_close_wf(self@, id);
        }
        let ghost pre = self@;
        let handle = match self.take(id) {
            Some(handle) => handle,
            None => {
                return Err(Error::BadFile);
            },
        };
        assert(pre.handle_wf(id));
        match handle.extra {
            Extra::Client(_) => {
                if let Connection::Open(remote_id) = handle.remote {
                    match self.take(remote_id) {
                        Some(mut remote) => {
                            remote.remote = Connection::Closed;
                            self.put(remote_id, remote);
                        },
                        None => {
                            // Cannot happen in a well-formed state.
                            assert(false);
                        },
                    }
                }
            },
            Extra::Listener(listener) => {
                if let Some(path) = listener.path {
                    self.listeners.remove(path.as_str());
                }
            },
        }
        assert(self@.handles =~= pre.close(id).next.handles);
        assert(self.handles@.dom() =~= old(self).handles@.dom().remove(id));
        self.unlist(id);
        Ok(Some(0))
    }

    /// Makes a round over all handles, by rising id, and returns the events
    /// to send: the readiness that each handle has and has not reported
    /// since it last lost it or was subscribed to.
    pub fn post_fevents(&mut self) -> (events: Vec<Fevent>)
        requires
            old(self).wf(),
        ensures
            final(self).wf(),
            events@ == old(self)@.raised(),
            final(self)@ == old(self)@.reported(),
    {
        let ghost pre = self@;
        let mut events: Vec<Fevent> = Vec::new();
        let mut i: usize = 0;
        proof {
            self.lemma_bounded();
            if self.order@.len() > 0 {
                assert forall|id: usize| 0 <= id < self.order@[0] implies !pre.handles.contains_key(
                    id,
                ) by {
                    if pre.handles.contains_key(id) {
                        assert(self.order@.contains(id));
                    }
                }
                lemma_raised_gap(pre, 0, self.order@[0] as nat);
            } else {
                assert forall|id: usize| 0 <= id < self.next_id implies !pre.handles.contains_key(
                    id,
                ) by {
                    if pre.handles.contains_key(id) {
                        assert(self.order@.contains(id));
                    }
                }
                lemma_raised_gap(pre, 0, self.next_id as nat);
            }
        }
        while i < self.order.len()
            invariant
                pre == old(self)@,
                pre.wf(),
                i <= self.order@.len(),
                self.order == old(self).order,
                self@.listeners == pre.listeners,
                self@.next_id == pre.next_id,
                self.handles@.dom() == old(self).handles@.dom(),
                old(self).listed(),
                forall|j: int| 0 <= j < self.order@.len() ==> self.order@[j] < self.next_id,
                forall|id: usize| #[trigger]
                    pre.handles.contains_key(id) ==> self@.handles[id] == (if i < self.order@.len()
                        && id >= self.order@[i as int] {
                        pre.handles[id]
                    } else {
                        pre.handles[id].reported()
                    }),
                i < self.order@.len() ==> events@ == pre.raised_below(self.order@[i as int] as nat),
                i == self.order@.len() ==> events@ == pre.raised(),
            decreases self.order@.len() - i,
        {
            let id = self.order[i];
            let ghost mid = self@;
            assert(self.order@.contains(id));
            assert(pre.handles.contains_key(id));
            match self.take(id) {
                Some(mut handle) => {
                    let ghost before = handle@;
                    assert(before == pre.handles[id]);
                    let open = match handle.remote {
                        Connection::Open(_) => true,
                        _ => false,
                    };
                    match &handle.extra {
                        Extra::Listener(_) => {
                            if open {
                                // Writable, as a listener with a client in
                                // reach is elsewhere.
                                if !handle.notified_write {
                                    handle.notified_write = true;
                                    events.push(Fevent { id, flags: EVENT_WRITE });
                                }
                            } else {
                                handle.notified_write = false;
                            }
                        },
                        Extra::Client(client) => {
                            let readable = client.buffer.len() > 0 || handle.remote
                                == Connection::Closed;
                            if open {
                                if !handle.notified_write {
                                    handle.notified_write = true;
                                    events.push(Fevent { id, flags: EVENT_WRITE });
                                }
                            }
                            if readable {
                                if !handle.notified_read {
                                    handle.notified_read = true;
                                    events.push(Fevent { id, flags: EVENT_READ });
                                }
                            } else {
                                handle.notified_read = false;
                            }
                        },
                    }
                    assert(handle@ == before.reported());
                    assert(events@ =~= pre.raised_below(id as nat) + before.raises(id));
                    self.put(id, handle);
                },
                None => {
                    // Cannot happen in a well-formed state.
                    assert(false);
                },
            }
            assert(self.handles@.dom() =~= old(self).handles@.dom());
            proof {
                assert(events@ == pre.raised_below((id + 1) as nat));
                let next: nat = if i + 1 < self.order@.len() {
                    self.order@[i + 1] as nat
                } else {
                    self.next_id as nat
                };
                assert forall|h: usize| id + 1 <= h < next implies !pre.handles.contains_key(
                    h,
                ) by {
                    if pre.handles.contains_key(h) {
                        assert(self.order@.contains(h));
                        let j = choose|j: int| 0 <= j < self.order@.len() && self.order@[j] == h;
                        if j <= i {
                            assert(self.order@[j] <= self.order@[i as int]);
                        } else if j > i + 1 {
                            assert(self.order@[i + 1] < self.order@[j]);
                        }
                        assert(pre.handle_wf(h));
                    }
                }
                lemma_raised_gap(pre, (id + 1) as nat, next);
                let more = i + 1 < self.order@.len();
                assert forall|h: usize| #[trigger]
                    pre.handles.contains_key(h) implies self@.handles[h] == (if more && h
                    >= self.order@[i + 1] {
                    pre.handles[h]
                } else {
                    pre.handles[h].reported()
                }) by {
                    assert(mid.handles[h] == (if h >= id {
                        pre.handles[h]
                    } else {
                        pre.handles[h].reported()
                    }));
                    if h != id {
                        assert(self.order@.contains(h));
                        let j = choose|j: int| 0 <= j < self.order@.len() && self.order@[j] == h;
                        if j < i {
                            assert(self.order@[j] < self.order@[i as int]);
                        } else if j > i {
                            if j > i + 1 {
                                assert(self.order@[i + 1] < self.order@[j]);
                            }
                        }
                    }
                }
            }
            i += 1;
        }
        assert(self@.handles =~= pre.reported().handles);
        proof {
            lemma_same_links_wf(pre, self@);
        }
        events
    }
}

} // verus!
