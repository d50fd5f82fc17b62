//! The channel scheme: listeners that clients connect to, and byte streams
//! between the clients that a listener has paired.
//!
//! [`ChanScheme`] answers one request at a time. An answer of `Ok(None)` means
//! that the request cannot be served in the present state and has to be asked
//! again after the state has changed. Readiness events that a request raises
//! are kept until [`ChanScheme::take_events`] hands them out.
//!
//! Three things are settled as follows:
//!
//! - A listener queues every client that connects, however many wait
//!   already, and accepts them in the order in which they came.
//! - A listener without a name can only be reached by duplicating its
//!   handle: the empty name is never bound.
//! - A path that does not fit into the buffer is cut, and the number of
//!   bytes written is reported, not the length of the whole path.
//!
//! What each request does is laid down in [`model`], as functions on a
//! mathematical state; what holds of every state is proved in [`laws`].

pub mod laws;
pub mod model;

use std::collections::HashMap;
use std::collections::VecDeque;
use vstd::hash_map::StringHashMap;
use vstd::prelude::*;
use vstd::std_specs::hash::group_hash_axioms;
use vstd::utf8::encode_utf8_decode_utf8;
use crate::bytes::{copy_into, fit, overlay, same_bytes, str_from_utf8};
use crate::error::Error;
use crate::flags::{holds, EVENT_READ, EVENT_WRITE, F_GETFL, F_SETFL, O_CREAT, O_EXCL, O_NONBLOCK};
use self::laws::{
    lemma_accept_wf, lemma_close_wf, lemma_enqueue_wf, lemma_fcntl_wf, lemma_open_wf,
    lemma_read_wf, lemma_stale_prefix, lemma_stale_prefix_local, lemma_write_wf,
};
use self::model::{
    connect_bytes, listen_bytes, scheme_prefix, stale_prefix, ChanView, ClientView, ExtraView,
    HandleView, ListenerView, Reply,
};

verus! {

broadcast use group_hash_axioms;

/// Where the peer of a client stands.
#[derive(Clone, Copy, Debug, PartialEq, Eq, Structural)]
pub enum Connection {
    /// Not accepted yet.
    Waiting,
    /// Connected to the client with this id.
    Open(usize),
    /// The peer has closed.
    Closed,
}

impl Default for Connection {
    fn default() -> (c: Connection)
        ensures
            c == Connection::Waiting,
    {
        Connection::Waiting
    }
}

/// A readiness event raised for handle `id`: a set of `EVENT_READ` and
/// `EVENT_WRITE`.
#[derive(Clone, Copy, Debug, PartialEq, Eq, Structural)]
pub struct Fevent {
    pub id: usize,
    pub flags: usize,
}

/// One end of a byte stream.
#[derive(Debug)]
pub struct Client {
    buffer: Vec<u8>,
    remote: Connection,
}

impl View for Client {
    type V = ClientView;

    closed spec fn view(&self) -> ClientView {
        ClientView { buffer: self.buffer@, remote: self.remote }
    }
}

impl Default for Client {
    fn default() -> (c: Client)
        ensures
            c@ == (ClientView { buffer: Seq::empty(), remote: Connection::Waiting }),
    {
        Client { buffer: Vec::new(), remote: Connection::default() }
    }
}

/// A handle that clients connect to.
#[derive(Debug)]
pub struct Listener {
    path: Option<String>,
    awaiting: VecDeque<usize>,
}

/// A name as a sequence of characters.
pub open spec fn name_view(name: Option<String>) -> Option<Seq<char>> {
    match name {
        Some(s) => Some(s@),
        None => None,
    }
}

impl View for Listener {
    type V = ListenerView;

    closed spec fn view(&self) -> ListenerView {
        ListenerView { path: name_view(self.path), awaiting: self.awaiting@ }
    }
}

impl Default for Listener {
    fn default() -> (l: Listener)
        ensures
            l@ == (ListenerView { path: None, awaiting: Seq::empty() }),
    {
        Listener { path: None, awaiting: VecDeque::new() }
    }
}

impl Listener {
    /// Takes ids from the head of the queue until one names a handle of the
    /// table, and returns that one. Returns `None`, with the queue empty, if
    /// none does.
    fn next_live(&mut self, handles: &HashMap<usize, Handle>) -> (r: Option<usize>)
        ensures
            final(self)@.path == old(self)@.path,
            ({
                let queue = old(self)@.awaiting;
                let k = stale_prefix(handles@.dom(), queue) as int;
                match r {
                    Some(id) => k < queue.len() && id == queue[k] && final(self)@.awaiting
                        == queue.skip(k + 1),
                    None => k == queue.len() && final(self)@.awaiting == Seq::<usize>::empty(),
                }
            }),
    {
        let ghost queue = self.awaiting@;
        let ghost live = handles@.dom();
        let ghost mut n: int = 0;
        loop
            invariant
                0 <= n <= queue.len(),
                queue == old(self)@.awaiting,
                self.awaiting@ == queue.skip(n),
                self.path == old(self).path,
                live == handles@.dom(),
                stale_prefix(live, queue) == n + stale_prefix(live, queue.skip(n)),
            decreases queue.len() - n,
        {
            let ghost rest = queue.skip(n);
            match self.awaiting.pop_front() {
                Some(id) => {
                    assert(rest[0] == queue[n]);
                    assert(rest.skip(1) =~= queue.skip(n + 1));
                    assert(self.awaiting@ =~= queue.skip(n + 1));
                    if handles.contains_key(&id) {
                        assert(live.contains(rest[0]));
                        assert(stale_prefix(live, rest) == 0);
                        return Some(id);
                    }
                    proof {
                        assert(!live.contains(rest[0]));
                        assert(stale_prefix(live, rest) == 1 + stale_prefix(live, rest.skip(1)));
                        n = n + 1;
                    }
                },
                None => {
                    assert(rest.len() == 0);
                    assert(stale_prefix(live, rest) == 0);
                    assert(self.awaiting@ =~= Seq::<usize>::empty());
                    return None;
                },
            }
        }
    }
}

/// The role of a handle.
#[derive(Debug)]
pub enum Extra {
    Client(Client),
    Listener(Listener),
}

impl View for Extra {
    type V = ExtraView;

    closed spec fn view(&self) -> ExtraView {
        match self {
            Extra::Client(c) => ExtraView::Client(c@),
            Extra::Listener(l) => ExtraView::Listener(l@),
        }
    }
}

impl Default for Extra {
    fn default() -> (e: Extra)
        ensures
            e@ == ExtraView::Client(
                ClientView { buffer: Seq::empty(), remote: Connection::Waiting },
            ),
    {
        Extra::Client(Client::default())
    }
}

/// What the scheme keeps for each open endpoint.
#[derive(Debug)]
pub struct Handle {
    flags: usize,
    extra: Extra,
    path: Option<String>,
}

impl View for Handle {
    type V = HandleView;

    closed spec fn view(&self) -> HandleView {
        HandleView { flags: self.flags, extra: self.extra@, path: name_view(self.path) }
    }
}

impl Default for Handle {
    fn default() -> (h: Handle)
        ensures
            h@ == HandleView::client(0, Connection::Waiting, None),
    {
        Handle { flags: 0, extra: Extra::default(), path: None }
    }
}

impl Handle {
    /// A client connected to `remote` that carries the flags of this handle.
    /// The handle need not be a listener.
    pub fn accept(&self, remote: usize) -> (h: Handle)
        ensures
            h@ == HandleView::client(self@.flags, Connection::Open(remote), None),
    {
        Handle {
            flags: self.flags,
            extra: Extra::Client(Client { buffer: Vec::new(), remote: Connection::Open(remote) }),
            path: None,
        }
    }

    /// Puts `other` at the end of the queue of this listener. Fails on a
    /// client.
    pub fn connect(&mut self, other: usize) -> (r: Result<(), Error>)
        ensures
            match r {
                Ok(_) => old(self)@.extra is Listener && final(self)@ == old(self)@.with_awaiting(
                    old(self)@.extra->Listener_0.awaiting.push(other),
                ),
                Err(e) => e == Error::BadFile && old(self)@.extra is Client && final(self)@ == old(
                    self,
                )@,
            },
    {
        match &mut self.extra {
            Extra::Listener(listener) => {
                listener.awaiting.push_back(other);
                Ok(())
            },
            _ => Err(Error::BadFile),
        }
    }

    /// The listener that this handle is; fails on a client.
    pub fn require_listener(&mut self) -> (r: Result<&mut Listener, Error>)
        ensures
            match r {
                Ok(l) => old(self)@.extra == ExtraView::Listener(l@) && final(self)@ == (
                    HandleView { extra: ExtraView::Listener(final(l)@), ..old(self)@ }
                ),
                Err(e) => e == Error::BadFile && old(self)@.extra is Client && final(self)@ == old(
                    self,
                )@,
            },
    {
        match &mut self.extra {
            Extra::Listener(listener) => Ok(listener),
            _ => Err(Error::BadFile),
        }
    }

    /// The client that this handle is; fails on a listener.
    pub fn require_client(&mut self) -> (r: Result<&mut Client, Error>)
        ensures
            match r {
                Ok(c) => old(self)@.extra == ExtraView::Client(c@) && final(self)@ == (
                    HandleView { extra: ExtraView::Client(final(c)@), ..old(self)@ }
                ),
                Err(e) => e == Error::BadFile && old(self)@.extra is Listener && final(self)@
                    == old(self)@,
            },
    {
        match &mut self.extra {
            Extra::Client(client) => Ok(client),
            _ => Err(Error::BadFile),
        }
    }
}

/// A copy of a name.
fn clone_name(name: &Option<String>) -> (r: Option<String>)
    ensures
        name_view(r) == name_view(*name),
{
    match name {
        Some(s) => Some(s.clone()),
        None => None,
    }
}

/// Whether the bytes spell `listen`.
fn is_listen(buf: &[u8]) -> (r: bool)
    ensures
        r == (buf@ == listen_bytes()),
{
    let word: [u8; 6] = [0x6c, 0x69, 0x73, 0x74, 0x65, 0x6e];
    assert(word@ =~= listen_bytes());
    same_bytes(buf, word.as_slice())
}

/// Whether the bytes spell `connect`.
fn is_connect(buf: &[u8]) -> (r: bool)
    ensures
        r == (buf@ == connect_bytes()),
{
    let word: [u8; 7] = [0x63, 0x6f, 0x6e, 0x6e, 0x65, 0x63, 0x74];
    assert(word@ =~= connect_bytes());
    same_bytes(buf, word.as_slice())
}

/// The channel scheme: the handles, the registry of bound names, the next
/// free id and the readiness events that wait to be sent.
pub struct ChanScheme {
    handles: HashMap<usize, Handle>,
    listeners: StringHashMap<usize>,
    next_id: usize,
    events: Vec<Fevent>,
}

impl View for ChanScheme {
    type V = ChanView;

    closed spec fn view(&self) -> ChanView {
        ChanView {
            handles: Map::new(
                |id: usize| self.handles@.contains_key(id),
                |id: usize| self.handles@[id]@,
            ),
            listeners: self.listeners@,
            next_id: self.next_id,
            events: self.events@,
        }
    }
}

impl ChanScheme {
    /// The scheme is in a state that it can reach.
    pub open spec fn wf(&self) -> bool {
        self@.wf()
    }

    /// A scheme without handles.
    pub fn new() -> (s: ChanScheme)
        ensures
            s.wf(),
            s@ == ChanView::empty(),
    {
        let s = ChanScheme {
            handles: HashMap::new(),
            listeners: StringHashMap::new(),
            next_id: 0,
            events: Vec::new(),
        };
        assert(s@.handles =~= Map::empty());
        s
    }

    /// The id that the next new handle gets. A request that makes a handle
    /// needs this to be below `usize::MAX`.
    pub fn next_id(&self) -> (id: usize)
        ensures
            id == self@.next_id,
    {
        self.next_id
    }

    /// Hands out the readiness events raised since the last call, oldest
    /// first.
    pub fn take_events(&mut self) -> (events: Vec<Fevent>)
        ensures
            events@ == old(self)@.events,
            final(self)@ == (ChanView { events: Seq::empty(), ..old(self)@ }),
            old(self).wf() ==> final(self).wf(),
    {
        let mut events: Vec<Fevent> = Vec::new();
        core::mem::swap(&mut events, &mut self.events);
        assert(self@.handles =~= old(self)@.handles);
        events
    }

    /// Takes handle `id` out of the table.
    fn take(&mut self, id: usize) -> (r: Option<Handle>)
        ensures
            match r {
                Some(h) => old(self)@.handles.contains_key(id) && h@ == old(self)@.handles[id]
                    && final(self)@ == (ChanView {
                    handles: old(self)@.handles.remove(id),
                    ..old(self)@
                }),
                None => !old(self)@.handles.contains_key(id) && final(self)@ == old(self)@,
            },
            final(self).handles@.dom() == old(self)@.handles.dom().remove(id),
    {
        let r = self.handles.remove(&id);
        assert(old(self).handles@.contains_key(id) ==> old(self)@.handles[id] == old(
            self,
        ).handles@[id]@);
        assert(self@.handles =~= old(self)@.handles.remove(id));
        assert(r is None ==> self@.handles =~= old(self)@.handles);
        assert(self.handles@.dom() =~= old(self)@.handles.dom().remove(id));
        r
    }

    /// Puts a handle into the table under `id`.
    fn put(&mut self, id: usize, handle: Handle)
        ensures
            final(self)@ == (ChanView {
                handles: old(self)@.handles.insert(id, handle@),
                ..old(self)@
            }),
    {
        self.handles.insert(id, handle);
        assert(self@.handles =~= old(self)@.handles.insert(id, handle@));
    }

    /// Looks handle `id` up.
    fn peek(&self, id: usize) -> (r: Option<&Handle>)
        ensures
            match r {
                Some(h) => self@.handles.contains_key(id) && h@ == self@.handles[id],
                None => !self@.handles.contains_key(id),
            },
    {
        self.handles.get(&id)
    }

    /// Raises a readiness event for handle `id`.
    fn post(&mut self, id: usize, flags: usize)
        ensures
            final(self)@ == (ChanView {
                events: old(self)@.events.push(Fevent { id, flags }),
                ..old(self)@
            }),
    {
        self.events.push(Fevent { id, flags });
        assert(self@.handles =~= old(self)@.handles);
    }

    /// Marks the next free id as given out.
    fn bump(&mut self)
        requires
            old(self)@.next_id < usize::MAX,
        ensures
            final(self)@ == (ChanView {
                next_id: (old(self)@.next_id + 1) as usize,
                ..old(self)@
            }),
    {
        self.next_id = self.next_id + 1;
        assert(self@.handles =~= old(self)@.handles);
    }

    /// Queues a new client on the listener and tells the listener.
    fn enqueue(&mut self, listener_id: usize, flags: usize) -> (r: Reply)
        requires
            old(self).wf(),
            old(self)@.is_listener(listener_id),
            old(self)@.next_id < usize::MAX,
        ensures
            r == old(self)@.enqueue(listener_id, flags).reply,
            final(self)@ == old(self)@.enqueue(listener_id, flags).next,
    {
        let new_id = self.next_id;
        let mut new = Handle::default();
        new.flags = flags;
        match self.take(listener_id) {
            Some(mut listener) => {
                match listener.connect(new_id) {
                    Ok(_) => {},
                    Err(_) => {
                        // Cannot happen in a well-formed state.
                        assert(false);
                    },
                }
                self.put(listener_id, listener);
            },
            None => {
                // Cannot happen in a well-formed state.
                assert(false);
            },
        }
        self.post(listener_id, EVENT_READ | EVENT_WRITE);
        self.put(new_id, new);
        self.bump();
        assert(self@.handles =~= old(self)@.enqueue(listener_id, flags).next.handles);
        Ok(Some(new_id))
    }

    /// Opens `path`: makes a listener, or queues a client on the listener
    /// bound to the name.
    pub fn open(&mut self, path: &str, flags: usize, _uid: u32, _gid: u32) -> (r: Reply)
        requires
            old(self).wf(),
            old(self)@.next_id < usize::MAX,
        ensures
            final(self).wf(),
            r == old(self)@.open(path@, flags).reply,
            final(self)@ == old(self)@.open(path@, flags).next,
    {
        proof {
            lemma_open_wf(self@, path@, flags);
        }
        let new_id = self.next_id;
        let create = holds(flags, O_CREAT);
        if create && !self.listeners.contains_key(path) {
            let mut listener = Listener::default();
            if !path.is_empty() {
                self.listeners.insert(path.to_owned(), new_id);
                listener.path = Some(path.to_owned());
            }
            self.put(new_id, Handle { flags, extra: Extra::Listener(listener), path: None });
            self.bump();
            assert(self@.handles =~= old(self)@.open(path@, flags).next.handles);
            Ok(Some(new_id))
        } else if create && holds(flags, O_EXCL) {
            Err(Error::AlreadyExists)
        } else {
            let found = match self.listeners.get(path) {
                Some(id) => Some(*id),
                None => None,
            };
            match found {
                Some(listener_id) => {
                    assert(self@.bound(path@));
                    self.enqueue(listener_id, flags)
                },
                None => Err(Error::NotFound),
            }
        }
    }

    /// Pairs the oldest client that still waits on listener `id` with a new
    /// client.
    fn accept(&mut self, id: usize) -> (r: Reply)
        requires
            old(self).wf(),
            old(self)@.next_id < usize::MAX,
        ensures
            r == old(self)@.accept(id).reply,
            final(self)@ == old(self)@.accept(id).next,
    {
        let ghost pre = self@;
        let mut handle = match self.take(id) {
            Some(handle) => handle,
            None => {
                return Err(Error::BadFile);
            },
        };
        let ghost queue = pre.listener(id).awaiting;
        let (popped, name) = match handle.require_listener() {
            Ok(listener) => {
                let name = clone_name(&listener.path);
                proof {
                    assert(pre.handle_wf(id));
                    lemma_stale_prefix_local(pre.handles.dom(), self.handles@.dom(), queue);
                    lemma_stale_prefix(pre.handles.dom(), queue);
                }
                (listener.next_live(&self.handles), name)
            },
            Err(e) => {
                self.put(id, handle);
                assert(self@.handles =~= pre.handles);
                return Err(e);
            },
        };
        match popped {
            Some(remote_id) => {
                let new_id = self.next_id;
                let mut new = handle.accept(remote_id);
                new.path = name;
                proof {
                    let k = stale_prefix(pre.handles.dom(), queue) as int;
                    assert(pre.waits(queue[k]));
                }
                match self.take(remote_id) {
                    Some(mut remote) => {
                        match remote.require_client() {
                            Ok(client) => {
                                client.remote = Connection::Open(new_id);
                            },
                            Err(_) => {
                                // Cannot happen in a well-formed state.
                                assert(false);
                            },
                        }
                        self.put(remote_id, remote);
                    },
                    None => {
                        // Cannot happen in a well-formed state.
                        assert(false);
                    },
                }
                self.post(remote_id, EVENT_WRITE);
                self.put(id, handle);
                self.put(new_id, new);
                self.bump();
                assert(self@.handles =~= pre.accept(id).next.handles);
                Ok(Some(new_id))
            },
            None => {
                let nonblock = holds(handle.flags, O_NONBLOCK);
                self.put(id, handle);
                assert(self@.handles =~= pre.accept(id).next.handles);
                if nonblock {
                    Err(Error::Again)
                } else {
                    Ok(None)
                }
            },
        }
    }

    /// Queues a new client on listener `id`.
    fn connect(&mut self, id: usize) -> (r: Reply)
        requires
            old(self).wf(),
            old(self)@.next_id < usize::MAX,
        ensures
            r == old(self)@.connect(id).reply,
            final(self)@ == old(self)@.connect(id).next,
    {
        let listening = match self.peek(id) {
            Some(handle) => match &handle.extra {
                Extra::Listener(_) => true,
                Extra::Client(_) => false,
            },
            None => false,
        };
        if listening {
            self.enqueue(id, 0)
        } else {
            Err(Error::BadFile)
        }
    }

    /// Opens the name that `buf` spells with the flags of handle `id`.
    fn bind(&mut self, id: usize, buf: &[u8]) -> (r: Reply)
        requires
            old(self).wf(),
            old(self)@.next_id < usize::MAX,
        ensures
            final(self).wf(),
            r == old(self)@.bind(id, buf@).reply,
            final(self)@ == old(self)@.bind(id, buf@).next,
    {
        if buf.len() == 0 {
            return Err(Error::BadFile);
        }
        let path = match str_from_utf8(buf) {
            Some(path) => path,
            None => {
                return Err(Error::BadFile);
            },
        };
        proof {
            encode_utf8_decode_utf8(path@);
        }
        let flags = match self.peek(id) {
            Some(handle) => {
                if handle.path.is_some() {
                    return Err(Error::BadFile);
                }
                handle.flags
            },
            None => {
                return Err(Error::BadFile);
            },
        };
        self.open(path, flags, 0, 0)
    }

    /// Duplicates handle `id` under the sub-path `buf`: `listen` accepts the
    /// oldest waiting client, `connect` queues a new client on the listener,
    /// any other name is opened with the flags of the handle.
    pub fn dup(&mut self, id: usize, buf: &[u8]) -> (r: Reply)
        requires
            old(self).wf(),
            old(self)@.next_id < usize::MAX,
        ensures
            final(self).wf(),
            r == old(self)@.dup(id, buf@).reply,
            final(self)@ == old(self)@.dup(id, buf@).next,
    {
        if is_listen(buf) {
            proof {
                lemma_accept_wf(self@, id);
            }
            self.accept(id)
        } else if is_connect(buf) {
            proof {
                if self@.is_listener(id) {
                    lemma_enqueue_wf(self@, id, 0);
                }
            }
            self.connect(id)
        } else {
            self.bind(id, buf)
        }
    }

    /// Sends `buf` to the peer of client `id`.
    pub fn write(&mut self, id: usize, buf: &[u8], _offset: u64, flags: u32) -> (r: Reply)
        requires
            old(self).wf(),
        ensures
            final(self).wf(),
            r == old(self)@.write(id, buf@, flags).reply,
            final(self)@ == old(self)@.write(id, buf@, flags).next,
    {
        proof {
            lemma_write_wf(self@, id, buf@, flags);
        }
        let (remote, own_flags) = match self.peek(id) {
            Some(handle) => match &handle.extra {
                Extra::Client(client) => (client.remote, handle.flags),
                Extra::Listener(_) => {
                    return Err(Error::BadFile);
                },
            },
            None => {
                return Err(Error::BadFile);
            },
        };
        match remote {
            Connection::Open(remote_id) => {
                assert(self@.handle_wf(id));
                let mut was_empty = false;
                match self.take(remote_id) {
                    Some(mut peer) => {
                        match peer.require_client() {
                            Ok(client) => {
                                was_empty = client.buffer.len() == 0;
                                client.buffer.extend_from_slice(buf);
                                assert(client.buffer@ =~= old(self)@.client(remote_id).buffer
                                    + buf@);
                            },
                            Err(_) => {
                                // Cannot happen in a well-formed state.
                                assert(false);
                            },
                        }
                        self.put(remote_id, peer);
                    },
                    None => {
                        // Cannot happen in a well-formed state.
                        assert(false);
                    },
                }
                if was_empty {
                    // Readable only if it was not readable before.
                    self.post(remote_id, EVENT_READ);
                }
                assert(self@.handles =~= old(self)@.write(id, buf@, flags).next.handles);
                Ok(Some(buf.len()))
            },
            Connection::Closed => Err(Error::BrokenPipe),
            Connection::Waiting => if holds(own_flags, O_NONBLOCK) || holds(
                flags as usize,
                O_NONBLOCK,
            ) {
                Err(Error::Again)
            } else {
                Ok(None)
            },
        }
    }

    /// Reads from client `id` into `buf`. The bytes read stand at the start
    /// of `buf`; the rest of `buf` is as it was.
    pub fn read(&mut self, id: usize, buf: &mut [u8], _offset: u64, flags: u32) -> (r: Reply)
        requires
            old(self).wf(),
        ensures
            final(self).wf(),
            r == old(self)@.read(id, old(buf)@.len(), flags).reply,
            final(self)@ == old(self)@.read(id, old(buf)@.len(), flags).next,
            final(buf)@ == overlay(
                old(buf)@,
                old(self)@.readable(id, old(buf)@.len()),
                old(self)@.readable(id, old(buf)@.len()).len(),
            ),
    {
        proof {
            lemma_read_wf(self@, id, buf@.len(), flags);
        }
        let ghost pre = self@;
        assert(buf@ =~= overlay(buf@, Seq::<u8>::empty(), 0));
        let mut handle = match self.take(id) {
            Some(handle) => handle,
            None => {
                return Err(Error::BadFile);
            },
        };
        let own_flags = handle.flags;
        let r = match handle.require_client() {
            Ok(client) => {
                if client.buffer.len() > 0 {
                    let ghost buffer = client.buffer@;
                    let len = copy_into(buf, 0, client.buffer.as_slice());
                    let rest = client.buffer.split_off(len);
                    client.buffer = rest;
                    assert(client.buffer@ =~= buffer.skip(len as int));
                    assert(buf@ =~= overlay(old(buf)@, buffer.take(len as int), len as nat));
                    Ok(Some(len))
                } else if client.remote == Connection::Closed {
                    // The peer has gone: end of the stream.
                    Ok(Some(0))
                } else if holds(own_flags, O_NONBLOCK) || holds(flags as usize, O_NONBLOCK) {
                    Err(Error::Again)
                } else {
                    Ok(None)
                }
            },
            Err(e) => Err(e),
        };
        self.put(id, handle);
        assert(self@.handles =~= pre.read(id, old(buf)@.len(), flags).next.handles);
        r
    }

    /// Closes handle `id`.
    pub fn close(&mut self, id: usize) -> (r: Reply)
        requires
            old(self).wf(),
        ensures
            final(self).wf(),
            r == old(self)@.close(id).reply,
            final(self)@ == old(self)@.close(id).next,
    {
        proof {
            lemma_close_wf(self@, id);
        }
        let ghost pre = self@;
        let handle = match self.take(id) {
            Some(handle) => handle,
            None => {
                return Err(Error::BadFile);
            },
        };
        assert(pre.handle_wf(id));
        match handle.extra {
            Extra::Client(client) => {
                if let Connection::Open(remote_id) = client.remote {
                    let mut was_empty = false;
                    match self.take(remote_id) {
                        Some(mut peer) => {
                            match peer.require_client() {
                                Ok(remote) => {
                                    remote.remote = Connection::Closed;
                                    was_empty = remote.buffer.len() == 0;
                                },
                                Err(_) => {
                                    // Cannot happen in a well-formed state.
                                    assert(false);
                                },
                            }
                            self.put(remote_id, peer);
                        },
                        None => {
                            // Cannot happen in a well-formed state.
                            assert(false);
                        },
                    }
                    if was_empty {
                        // Readable at the end of the stream only if it was
                        // not readable before.
                        self.post(remote_id, EVENT_READ);
                    }
                }
            },
            Extra::Listener(listener) => {
                if let Some(path) = listener.path {
                    self.listeners.remove(path.as_str());
                }
            },
        }
        assert(self@.handles =~= pre.close(id).next.handles);
        Ok(Some(0))
    }

    /// Reads or replaces the flags of handle `id`.
    pub fn fcntl(&mut self, id: usize, cmd: usize, arg: usize) -> (r: Reply)
        requires
            old(self).wf(),
        ensures
            final(self).wf(),
            r == old(self)@.fcntl(id, cmd, arg).reply,
            final(self)@ == old(self)@.fcntl(id, cmd, arg).next,
    {
        proof {
            lemma_fcntl_wf(self@, id, cmd, arg);
        }
        let ghost pre = self@;
        let mut handle = match self.take(id) {
            Some(handle) => handle,
            None => {
                return Err(Error::BadFile);
            },
        };
        let r = if cmd == F_GETFL {
            Ok(Some(handle.flags))
        } else if cmd == F_SETFL {
            handle.flags = arg;
            Ok(Some(0))
        } else {
            Err(Error::InvalidArgument)
        };
        self.put(id, handle);
        assert(self@.handles =~= pre.fcntl(id, cmd, arg).next.handles);
        r
    }

    /// The readiness of handle `id`, whatever was asked for.
    pub fn fevent(&mut self, id: usize, _flags: usize) -> (r: Reply)
        ensures
            r == old(self)@.fevent(id),
            final(self)@ == old(self)@,
    {
        match self.peek(id) {
            Some(handle) => {
                let events = match &handle.extra {
                    Extra::Client(client) => {
                        let writable = match client.remote {
                            Connection::Open(_) => EVENT_WRITE,
                            _ => 0,
                        };
                        let readable = if client.buffer.len() > 0 || client.remote
                            == Connection::Closed {
                            EVENT_READ
                        } else {
                            0
                        };
                        writable | readable
                    },
                    Extra::Listener(listener) => if listener.awaiting.len() > 0 {
                        EVENT_READ | EVENT_WRITE
                    } else {
                        0
                    },
                };
                Ok(Some(events))
            },
            None => Err(Error::BadFile),
        }
    }

    /// Writes the path of handle `id` into `buf`, as far as it fits, and
    /// answers how many bytes that were. A handle without a path gets as
    /// much of `chan:` as fits, and the request fails. The rest of `buf` is
    /// as it was.
    pub fn fpath(&mut self, id: usize, buf: &mut [u8]) -> (r: Reply)
        ensures
            r == old(self)@.fpath(id, old(buf)@.len()),
            final(self)@ == old(self)@,
            final(buf)@ == (match r {
                Ok(Some(n)) => overlay(old(buf)@, old(self)@.path_bytes(id), n as nat),
                _ => overlay(old(buf)@, scheme_prefix(), fit(old(buf)@.len(), 5)),
            }),
    {
        // The name of the scheme comes first.
        let prefix: [u8; 5] = [0x63, 0x68, 0x61, 0x6e, 0x3a];
        assert(prefix@ =~= scheme_prefix());
        let head = copy_into(buf, 0, prefix.as_slice());
        assert(buf@ =~= overlay(old(buf)@, scheme_prefix(), head as nat));
        let path = match self.peek(id) {
            Some(handle) => match &handle.path {
                Some(path) => path,
                None => {
                    return Err(Error::BadFile);
                },
            },
            None => {
                return Err(Error::BadFile);
            },
        };
        let ghost whole = self@.path_bytes(id);
        if head < 5 {
            assert(buf@ =~= overlay(old(buf)@, whole, head as nat));
            return Ok(Some(head));
        }
        let room = buf.len();
        let tail = copy_into(buf, 5, path.as_str().as_bytes());
        assert(5 + tail <= room);
        assert(buf@ =~= overlay(old(buf)@, whole, (5 + tail) as nat));
        Ok(Some(5 + tail))
    }

    /// Succeeds if the handle exists: nothing is ever left to flush.
    pub fn fsync(&mut self, id: usize) -> (r: Reply)
        ensures
            r == old(self)@.fsync(id),
            final(self)@ == old(self)@,
    {
        match self.peek(id) {
            Some(_) => Ok(Some(id)),
            None => Err(Error::BadFile),
        }
    }
}

} // verus!
