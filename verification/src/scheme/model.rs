//! The single-slot channel scheme as a mathematical state machine.
//!
//! The states differ from those of the queueing scheme in two ways: a
//! listener keeps at most one pending client, in the place where a client
//! keeps its peer, and every handle remembers which readiness it has already
//! reported.

use vstd::prelude::*;
use vstd::utf8::{decode_utf8, valid_utf8};
use crate::bytes::fit;
use crate::chan::model::{connect_bytes, listen_bytes, Reply};
use crate::chan::Fevent;
use crate::error::Error;
use crate::flags::{
    is_set, EVENT_READ, EVENT_WRITE, F_GETFL, F_SETFL, O_CREAT, O_EXCL, O_NONBLOCK,
};
use super::Connection;

verus! {

/// A client endpoint: the bytes its peer has sent and it has not read yet.
pub struct ClientView {
    pub buffer: Seq<u8>,
}

/// A listener: the name it is bound to.
pub struct ListenerView {
    pub path: Option<Seq<char>>,
}

/// The role of a handle: a client or a listener.
pub enum ExtraView {
    Client(ClientView),
    Listener(ListenerView),
}

/// A handle. For a client, `remote` is its peer; for a listener, it is the
/// client that waits to be accepted.
pub struct HandleView {
    pub flags: usize,
    pub notified_read: bool,
    pub notified_write: bool,
    pub remote: Connection,
    pub extra: ExtraView,
}

/// A state of the single-slot scheme.
pub struct IpcView {
    pub handles: Map<usize, HandleView>,
    pub listeners: Map<Seq<char>, usize>,
    pub next_id: usize,
}

/// The outcome of a request.
pub struct Step {
    pub next: IpcView,
    pub reply: Reply,
}

impl HandleView {
    /// A client with an empty buffer that has reported nothing.
    pub open spec fn client(flags: usize, remote: Connection) -> HandleView {
        HandleView {
            flags,
            notified_read: false,
            notified_write: false,
            remote,
            extra: ExtraView::Client(ClientView { buffer: Seq::empty() }),
        }
    }

    /// A listener that nobody waits for.
    pub open spec fn listener(flags: usize, name: Option<Seq<char>>) -> HandleView {
        HandleView {
            flags,
            notified_read: false,
            notified_write: false,
            remote: Connection::Waiting,
            extra: ExtraView::Listener(ListenerView { path: name }),
        }
    }

    /// The handle with another other side.
    pub open spec fn with_remote(self, remote: Connection) -> HandleView {
        HandleView { remote, ..self }
    }

    /// The handle with other flags.
    pub open spec fn with_flags(self, flags: usize) -> HandleView {
        HandleView { flags, ..self }
    }

    /// The client with other bytes to read.
    pub open spec fn with_buffer(self, buffer: Seq<u8>) -> HandleView {
        HandleView { extra: ExtraView::Client(ClientView { buffer }), ..self }
    }

    /// The bytes that the client has to read.
    pub open spec fn buffer(self) -> Seq<u8> {
        self.extra->Client_0.buffer
    }

    /// The handle with nothing reported.
    pub open spec fn rearmed(self) -> HandleView {
        HandleView { notified_read: false, notified_write: false, ..self }
    }

    /// Whether a read would find bytes or the end of the stream.
    pub open spec fn readable(self) -> bool {
        self.extra is Client && (self.buffer().len() > 0 || self.remote is Closed)
    }

    /// The handle after a round of reports: readiness that is there counts
    /// as reported; readiness that has gone can be reported again, except
    /// that a client never forgets that it was writable.
    pub open spec fn reported(self) -> HandleView {
        match self.extra {
            ExtraView::Listener(_) => HandleView { notified_write: self.remote is Open, ..self },
            ExtraView::Client(_) => HandleView {
                notified_write: self.notified_write || self.remote is Open,
                notified_read: self.readable(),
                ..self
            },
        }
    }

    /// The events that a round of reports raises for the handle: readiness
    /// that is there and was not reported yet, writable before readable.
    pub open spec fn raises(self, id: usize) -> Seq<Fevent> {
        let write = if self.remote is Open && !self.notified_write {
            seq![Fevent { id, flags: EVENT_WRITE }]
        } else {
            Seq::empty()
        };
        let read = if self.readable() && !self.notified_read {
            seq![Fevent { id, flags: EVENT_READ }]
        } else {
            Seq::empty()
        };
        write + read
    }
}

impl IpcView {
    /// The state of a scheme that has served no request.
    pub open spec fn empty() -> IpcView {
        IpcView { handles: Map::empty(), listeners: Map::empty(), next_id: 0 }
    }

    /// Whether `id` names a client.
    pub open spec fn is_client(self, id: usize) -> bool {
        self.handles.contains_key(id) && self.handles[id].extra is Client
    }

    /// Whether `id` names a listener.
    pub open spec fn is_listener(self, id: usize) -> bool {
        self.handles.contains_key(id) && self.handles[id].extra is Listener
    }

    /// The request changes nothing and fails.
    pub open spec fn fail(self, e: Error) -> Step {
        Step { next: self, reply: Err(e) }
    }

    /// The request changes nothing and gives this answer.
    pub open spec fn stay(self, reply: Reply) -> Step {
        Step { next: self, reply }
    }

    /// A new client becomes the one that waits on the listener, which must
    /// have none.
    pub open spec fn pend(self, listener_id: usize, flags: usize) -> Step {
        let id = self.next_id;
        if self.handles[listener_id].remote != Connection::Waiting {
            self.fail(Error::ConnectionRefused)
        } else {
            Step {
                next: IpcView {
                    handles: self.handles.insert(
                        listener_id,
                        self.handles[listener_id].with_remote(Connection::Open(id)),
                    ).insert(id, HandleView::client(flags, Connection::Waiting)),
                    listeners: self.listeners,
                    next_id: (id + 1) as usize,
                },
                reply: Ok(Some(id)),
            }
        }
    }

    /// Opens the path that the bytes spell, which must be valid UTF-8. With
    /// `O_CREAT` and the name free, a listener is made, and bound to the
    /// name unless the name is empty. With `O_CREAT | O_EXCL` and the name
    /// taken, the request fails. Otherwise a client is made to wait on the
    /// listener that holds the name, which must have no client waiting.
    pub open spec fn open(self, path: Seq<u8>, flags: usize) -> Step {
        let id = self.next_id;
        let name = decode_utf8(path);
        if !valid_utf8(path) {
            self.fail(Error::Permission)
        } else if is_set(flags, O_CREAT) && !self.listeners.contains_key(name) {
            Step {
                next: IpcView {
                    handles: self.handles.insert(
                        id,
                        HandleView::listener(
                            flags,
                            if name.len() > 0 {
                                Some(name)
                            } else {
                                None
                            },
                        ),
                    ),
                    listeners: if name.len() > 0 {
                        self.listeners.insert(name, id)
                    } else {
                        self.listeners
                    },
                    next_id: (id + 1) as usize,
                },
                reply: Ok(Some(id)),
            }
        } else if is_set(flags, O_CREAT) && is_set(flags, O_EXCL) {
            self.fail(Error::AlreadyExists)
        } else if !self.listeners.contains_key(name) {
            self.fail(Error::NotFound)
        } else {
            self.pend(self.listeners[name], flags)
        }
    }

    /// Accepts the client that waits on listener `id` and pairs it with a
    /// new client. The listener is free again in any case; if the client
    /// that waited has gone, the connection is reset. With no client
    /// waiting, the request would block.
    pub open spec fn accept(self, id: usize) -> Step {
        if !self.is_listener(id) {
            self.fail(Error::BadFile)
        } else {
            let h = self.handles[id];
            match h.remote {
                Connection::Open(peer) => {
                    let new = self.next_id;
                    let freed = self.handles.insert(id, h.with_remote(Connection::Waiting));
                    if !self.handles.contains_key(peer) {
                        Step {
                            next: IpcView { handles: freed, ..self },
                            reply: Err(Error::ConnectionReset),
                        }
                    } else {
                        Step {
                            next: IpcView {
                                handles: freed.insert(
                                    peer,
                                    self.handles[peer].with_remote(Connection::Open(new)),
                                ).insert(new, HandleView::client(h.flags, Connection::Open(peer))),
                                listeners: self.listeners,
                                next_id: (new + 1) as usize,
                            },
                            reply: Ok(Some(new)),
                        }
                    }
                },
                _ => if is_set(h.flags, O_NONBLOCK) {
                    self.fail(Error::Again)
                } else {
                    self.stay(Ok(None))
                },
            }
        }
    }

    /// Makes a new client, with no flags, wait on listener `id`.
    pub open spec fn connect(self, id: usize) -> Step {
        if !self.is_listener(id) {
            self.fail(Error::BadFile)
        } else {
            self.pend(id, 0)
        }
    }

    /// Duplicates handle `id` under a sub-path: `listen` accepts, `connect`
    /// connects, any other is refused.
    pub open spec fn dup(self, id: usize, sub: Seq<u8>) -> Step {
        if sub == listen_bytes() {
            self.accept(id)
        } else if sub == connect_bytes() {
            self.connect(id)
        } else {
            self.fail(Error::BadFile)
        }
    }

    /// Reads (`F_GETFL`) or replaces (`F_SETFL`) the flags of handle `id`.
    pub open spec fn fcntl(self, id: usize, cmd: usize, arg: usize) -> Step {
        if !self.handles.contains_key(id) {
            self.fail(Error::BadFile)
        } else if cmd == F_GETFL {
            self.stay(Ok(Some(self.handles[id].flags)))
        } else if cmd == F_SETFL {
            Step {
                next: IpcView {
                    handles: self.handles.insert(id, self.handles[id].with_flags(arg)),
                    ..self
                },
                reply: Ok(Some(0)),
            }
        } else {
            self.fail(Error::InvalidArgument)
        }
    }

    /// Subscribes to handle `id`: whatever readiness it has will be reported
    /// in the next round, again if it was reported before.
    pub open spec fn fevent(self, id: usize) -> Step {
        if !self.handles.contains_key(id) {
            self.fail(Error::BadFile)
        } else {
            Step {
                next: IpcView {
                    handles: self.handles.insert(id, self.handles[id].rearmed()),
                    ..self
                },
                reply: Ok(Some(id)),
            }
        }
    }

    /// Sends `data` to the peer of client `id`: all of it joins the end of
    /// the peer's buffer.
    pub open spec fn write(self, id: usize, data: Seq<u8>) -> Step {
        if !self.is_client(id) {
            self.fail(Error::BadFile)
        } else {
            match self.handles[id].remote {
                Connection::Open(peer) => Step {
                    next: IpcView {
                        handles: self.handles.insert(
                            peer,
                            self.handles[peer].with_buffer(self.handles[peer].buffer() + data),
                        ),
                        ..self
                    },
                    reply: Ok(Some(data.len() as usize)),
                },
                Connection::Waiting => if is_set(self.handles[id].flags, O_NONBLOCK) {
                    self.fail(Error::Again)
                } else {
                    self.stay(Ok(None))
                },
                Connection::Closed => self.fail(Error::BrokenPipe),
            }
        }
    }

    /// The bytes that a read of client `id` into `room` bytes delivers.
    pub open spec fn readable(self, id: usize, room: nat) -> Seq<u8> {
        if self.is_client(id) {
            let buffer = self.handles[id].buffer();
            buffer.take(fit(room, buffer.len()) as int)
        } else {
            Seq::empty()
        }
    }

    /// Reads from client `id` into `room` bytes: takes what fits from the
    /// front of the buffer. An empty buffer gives the end of the stream once
    /// the peer has closed, and would block before.
    pub open spec fn read(self, id: usize, room: nat) -> Step {
        if !self.is_client(id) {
            self.fail(Error::BadFile)
        } else {
            let h = self.handles[id];
            if h.buffer().len() > 0 {
                let n = fit(room, h.buffer().len());
                Step {
                    next: IpcView {
                        handles: self.handles.insert(id, h.with_buffer(h.buffer().skip(n as int))),
                        ..self
                    },
                    reply: Ok(Some(n as usize)),
                }
            } else if h.remote is Closed {
                self.stay(Ok(Some(0)))
            } else if is_set(h.flags, O_NONBLOCK) {
                self.fail(Error::Again)
            } else {
                self.stay(Ok(None))
            }
        }
    }

    /// Closes handle `id`. The peer of a client learns that the stream has
    /// ended. The name of a listener becomes free; a client that waits on it
    /// stays as it is.
    pub open spec fn close(self, id: usize) -> Step {
        if !self.handles.contains_key(id) {
            self.fail(Error::BadFile)
        } else {
            let h = self.handles[id];
            match h.extra {
                ExtraView::Client(_) => Step {
                    next: IpcView {
                        handles: match h.remote {
                            Connection::Open(peer) => self.handles.remove(id).insert(
                                peer,
                                self.handles[peer].with_remote(Connection::Closed),
                            ),
                            _ => self.handles.remove(id),
                        },
                        ..self
                    },
                    reply: Ok(Some(0)),
                },
                ExtraView::Listener(l) => Step {
                    next: IpcView {
                        handles: self.handles.remove(id),
                        listeners: match l.path {
                            Some(name) => self.listeners.remove(name),
                            None => self.listeners,
                        },
                        ..self
                    },
                    reply: Ok(Some(0)),
                },
            }
        }
    }

    /// Nothing is ever left to flush.
    pub open spec fn fsync(self, id: usize) -> Reply {
        if !self.handles.contains_key(id) {
            Err(Error::BadFile)
        } else {
            Ok(Some(id))
        }
    }

    /// The events that a round of reports raises for the handles with an id
    /// below `bound`, by rising id.
    pub open spec fn raised_below(self, bound: nat) -> Seq<Fevent>
        decreases bound,
    {
        if bound == 0 {
            Seq::empty()
        } else {
            let id = (bound - 1) as usize;
            let before = self.raised_below((bound - 1) as nat);
            if self.handles.contains_key(id) {
                before + self.handles[id].raises(id)
            } else {
                before
            }
        }
    }

    /// The events that a round of reports raises.
    pub open spec fn raised(self) -> Seq<Fevent> {
        self.raised_below(self.next_id as nat)
    }

    /// The state after a round of reports.
    pub open spec fn reported(self) -> IpcView {
        IpcView {
            handles: Map::new(
                |id: usize| self.handles.contains_key(id),
                |id: usize| self.handles[id].reported(),
            ),
            ..self
        }
    }

    /// The peer of a connected client is another client, connected back.
    pub open spec fn paired(self, id: usize) -> bool {
        self.handles[id].remote matches Connection::Open(peer) ==> {
            &&& peer != id
            &&& self.is_client(peer)
            &&& self.handles[peer].remote == Connection::Open(id)
        }
    }

    /// A listener is never closed towards anybody. Its name, if it has one,
    /// is its own in the registry. The id that waits on it was given out,
    /// and if it still names a handle, that handle is a client without a
    /// peer.
    pub open spec fn slot_waits(self, id: usize) -> bool {
        &&& !(self.handles[id].remote is Closed)
        &&& self.handles[id].extra->Listener_0.path matches Some(name) ==> {
            &&& name.len() > 0
            &&& self.listeners.contains_key(name)
            &&& self.listeners[name] == id
        }
        &&& self.handles[id].remote matches Connection::Open(peer) ==> {
            &&& peer < self.next_id
            &&& self.handles.contains_key(peer) ==> self.is_client(peer)
                && self.handles[peer].remote is Waiting
        }
    }

    /// What holds of one handle of a well-formed state.
    pub open spec fn handle_wf(self, id: usize) -> bool {
        &&& id < self.next_id
        &&& self.handles[id].extra is Client ==> self.paired(id)
        &&& self.handles[id].extra is Listener ==> self.slot_waits(id)
    }

    /// The name is bound to a listener that carries it.
    pub open spec fn bound(self, name: Seq<char>) -> bool {
        let id = self.listeners[name];
        &&& self.is_listener(id)
        &&& self.handles[id].extra->Listener_0.path == Some(name)
    }

    /// No client waits on two listeners.
    pub open spec fn waits_once(self) -> bool {
        forall|a: usize, b: usize|
            #![trigger self.handles[a].remote, self.handles[b].remote]
            {
                &&& self.is_listener(a)
                &&& self.is_listener(b)
                &&& self.handles[a].remote is Open
                &&& self.handles[a].remote == self.handles[b].remote
            } ==> a == b
    }

    /// The states that the scheme can be in.
    pub open spec fn wf(self) -> bool {
        &&& forall|id: usize| #[trigger] self.handles.contains_key(id) ==> self.handle_wf(id)
        &&& forall|name: Seq<char>| #[trigger]
            self.listeners.contains_key(name) ==> self.bound(name)
        &&& self.waits_once()
    }
}

/// Two handles play the same role towards the others: they agree on
/// everything but flags, reports and buffered bytes.
pub open spec fn same_links(a: HandleView, b: HandleView) -> bool {
    &&& a.remote == b.remote
    &&& match (a.extra, b.extra) {
        (ExtraView::Client(_), ExtraView::Client(_)) => true,
        (ExtraView::Listener(x), ExtraView::Listener(y)) => x == y,
        _ => false,
    }
}

/// The scheme starts in a well-formed state.
pub proof fn lemma_empty_wf()
    ensures
        IpcView::empty().wf(),
{
}

/// A state that differs from a well-formed one only in flags, reports and
/// buffers is well-formed.
pub proof fn lemma_same_links_wf(s: IpcView, t: IpcView)
    requires
        s.wf(),
        forall|h: usize| t.handles.contains_key(h) <==> s.handles.contains_key(h),
        t.listeners == s.listeners,
        t.next_id == s.next_id,
        forall|h: usize| #[trigger]
            s.handles.contains_key(h) ==> same_links(s.handles[h], t.handles[h]),
    ensures
        t.wf(),
{
    assert forall|h: usize| #[trigger] t.handles.contains_key(h) implies t.handle_wf(h) by {
        assert(s.handles.contains_key(h));
        assert(s.handle_wf(h));
        if let Connection::Open(p) = s.handles[h].remote {
            if s.handles.contains_key(p) {
                assert(same_links(s.handles[p], t.handles[p]));
            }
        }
    }
    assert forall|name: Seq<char>| #[trigger] t.listeners.contains_key(name) implies t.bound(
        name,
    ) by {
        assert(s.bound(name));
        assert(s.handles.contains_key(s.listeners[name]));
    }
    assert forall|a: usize, b: usize|
        #![trigger t.handles[a].remote, t.handles[b].remote]
        {
            &&& t.is_listener(a)
            &&& t.is_listener(b)
            &&& t.handles[a].remote is Open
            &&& t.handles[a].remote == t.handles[b].remote
        } implies a == b by {
        assert(s.handles.contains_key(a));
        assert(s.handles.contains_key(b));
        assert(s.handles[a].remote == s.handles[b].remote);
    }
}

/// Making a client wait on a listener keeps the state well-formed.
pub proof fn lemma_pend_wf(s: IpcView, listener_id: usize, flags: usize)
    requires
        s.wf(),
        s.is_listener(listener_id),
        s.next_id < usize::MAX,
    ensures
        s.pend(listener_id, flags).next.wf(),
{
    let t = s.pend(listener_id, flags).next;
    let id = s.next_id;
    assert(s.handle_wf(listener_id));
    if s.handles[listener_id].remote == Connection::Waiting {
        assert forall|h: usize| #[trigger] t.handles.contains_key(h) implies t.handle_wf(h) by {
            if h != id {
                assert(s.handles.contains_key(h));
                assert(s.handle_wf(h));
            }
        }
        assert forall|name: Seq<char>| #[trigger] t.listeners.contains_key(name) implies t.bound(
            name,
        ) by {
            assert(s.bound(name));
        }
        assert forall|a: usize, b: usize|
            #![trigger t.handles[a].remote, t.handles[b].remote]
            {
                &&& t.is_listener(a)
                &&& t.is_listener(b)
                &&& t.handles[a].remote is Open
                &&& t.handles[a].remote == t.handles[b].remote
            } implies a == b by {
            assert(s.handle_wf(a));
            assert(s.handle_wf(b));
            if a != listener_id && b != listener_id {
                assert(s.handles[a].remote == s.handles[b].remote);
            }
        }
    }
}

/// Opening a path keeps the state well-formed.
pub proof fn lemma_open_wf(s: IpcView, path: Seq<u8>, flags: usize)
    requires
        s.wf(),
        s.next_id < usize::MAX,
    ensures
        s.open(path, flags).next.wf(),
{
    let t = s.open(path, flags).next;
    let id = s.next_id;
    let name = decode_utf8(path);
    if !valid_utf8(path) {
    } else if is_set(flags, O_CREAT) && !s.listeners.contains_key(name) {
        assert forall|h: usize| #[trigger] t.handles.contains_key(h) implies t.handle_wf(h) by {
            if h != id {
                assert(s.handles.contains_key(h));
                assert(s.handle_wf(h));
            }
        }
        assert forall|n: Seq<char>| #[trigger] t.listeners.contains_key(n) implies t.bound(
            n,
        ) by {
            if n != name {
                assert(s.bound(n));
            }
        }
        assert forall|a: usize, b: usize|
            #![trigger t.handles[a].remote, t.handles[b].remote]
            {
                &&& t.is_listener(a)
                &&& t.is_listener(b)
                &&& t.handles[a].remote is Open
                &&& t.handles[a].remote == t.handles[b].remote
            } implies a == b by {
            assert(s.handles[a].remote == s.handles[b].remote);
        }
    } else if is_set(flags, O_CREAT) && is_set(flags, O_EXCL) {
    } else if s.listeners.contains_key(name) {
        assert(s.bound(name));
        lemma_pend_wf(s, s.listeners[name], flags);
    }
}

/// Accepting keeps the state well-formed.
pub proof fn lemma_accept_wf(s: IpcView, id: usize)
    requires
        s.wf(),
        s.next_id < usize::MAX,
    ensures
        s.accept(id).next.wf(),
{
    if s.is_listener(id) {
        let t = s.accept(id).next;
        assert(s.handle_wf(id));
        if let Connection::Open(peer) = s.handles[id].remote {
            let new = s.next_id;
            if s.handles.contains_key(peer) {
                assert(s.handle_wf(peer));
            }
            assert forall|h: usize| #[trigger] t.handles.contains_key(h) implies t.handle_wf(
                h,
            ) by {
                if h == new {
                } else {
                    assert(s.handles.contains_key(h));
                    assert(s.handle_wf(h));
                    if s.handles[h].extra is Listener {
                        if h != id {
                            assert(s.handles[h].remote == s.handles[id].remote ==> h == id);
                        }
                    } else if h != peer {
                        if let Connection::Open(p) = s.handles[h].remote {
                            assert(s.handle_wf(p));
                        }
                    }
                }
            }
            assert forall|name: Seq<char>| #[trigger]
                t.listeners.contains_key(name) implies t.bound(name) by {
                assert(s.bound(name));
            }
            assert forall|a: usize, b: usize|
                #![trigger t.handles[a].remote, t.handles[b].remote]
                {
                    &&& t.is_listener(a)
                    &&& t.is_listener(b)
                    &&& t.handles[a].remote is Open
                    &&& t.handles[a].remote == t.handles[b].remote
                } implies a == b by {
                assert(s.handles[a].remote == s.handles[b].remote);
            }
        }
    }
}

/// Duplicating a handle keeps the state well-formed.
pub proof fn lemma_dup_wf(s: IpcView, id: usize, sub: Seq<u8>)
    requires
        s.wf(),
        s.next_id < usize::MAX,
    ensures
        s.dup(id, sub).next.wf(),
{
    lemma_accept_wf(s, id);
    if s.is_listener(id) {
        lemma_pend_wf(s, id, 0);
    }
}

/// Closing a handle keeps the state well-formed.
pub proof fn lemma_close_wf(s: IpcView, id: usize)
    requires
        s.wf(),
    ensures
        s.close(id).next.wf(),
{
    let t = s.close(id).next;
    if s.handles.contains_key(id) {
        assert(s.handle_wf(id));
        assert forall|h: usize| #[trigger] t.handles.contains_key(h) implies t.handle_wf(h) by {
            assert(s.handles.contains_key(h));
            assert(s.handle_wf(h));
            if s.handles[h].extra is Listener {
                if let Some(name) = s.handles[h].extra->Listener_0.path {
                    if s.handles[id].extra is Listener {
                        assert(s.handles[id].extra->Listener_0.path == Some(name)
                            ==> s.listeners[name] == id);
                    }
                }
            } else {
                if let Connection::Open(p) = s.handles[h].remote {
                    assert(s.handles.contains_key(p));
                    assert(s.handle_wf(p));
                }
            }
        }
        assert forall|name: Seq<char>| #[trigger] t.listeners.contains_key(name) implies t.bound(
            name,
        ) by {
            assert(s.bound(name));
        }
        assert forall|a: usize, b: usize|
            #![trigger t.handles[a].remote, t.handles[b].remote]
            {
                &&& t.is_listener(a)
                &&& t.is_listener(b)
                &&& t.handles[a].remote is Open
                &&& t.handles[a].remote == t.handles[b].remote
            } implies a == b by {
            assert(s.handles[a].remote == s.handles[b].remote);
        }
    }
}

/// Handles that are not there raise nothing.
pub proof fn lemma_raised_gap(s: IpcView, from: nat, to: nat)
    requires
        from <= to <= usize::MAX + 1,
        forall|id: usize| from <= id < to ==> !s.handles.contains_key(id),
    ensures
        s.raised_below(to) == s.raised_below(from),
    decreases to - from,
{
    if from < to {
        lemma_raised_gap(s, from, (to - 1) as nat);
    }
}

/// The accept of a client that has closed before is answered with a reset
/// connection, and frees the listener for the next client.
pub proof fn lemma_accept_after_close(s: IpcView, listener: usize, client: usize)
    requires
        s.wf(),
        s.is_listener(listener),
        s.handles[listener].remote == Connection::Open(client),
        s.handles.contains_key(client),
    ensures
        s.close(client).reply == Ok::<Option<usize>, Error>(Some(0)),
        s.close(client).next.accept(listener).reply == Err::<Option<usize>, Error>(
            Error::ConnectionReset,
        ),
        s.close(client).next.accept(listener).next.handles[listener].remote
            == Connection::Waiting,
{
    assert(s.handle_wf(listener));
    assert(s.handle_wf(client));
}

/// A listener takes one client at a time: while a client waits on it, the
/// next one is refused.
pub proof fn lemma_second_waiter_refused(s: IpcView, listener: usize, flags: usize)
    requires
        s.is_listener(listener),
        s.handles[listener].remote is Open,
    ensures
        s.pend(listener, flags) == s.fail(Error::ConnectionRefused),
        s.connect(listener) == s.fail(Error::ConnectionRefused),
{
}

/// A connection is mutual: the peer of a connected client exists, is a
/// client, and is connected back to it.
pub proof fn lemma_connection_is_mutual(s: IpcView, id: usize, peer: usize)
    requires
        s.wf(),
        s.is_client(id),
        s.handles[id].remote == Connection::Open(peer),
    ensures
        s.is_client(peer),
        s.handles[peer].remote == Connection::Open(id),
        peer != id,
{
    assert(s.handle_wf(id));
}

/// The id that waits on a listener names a client that has no peer yet, or
/// names nothing any more.
pub proof fn lemma_slot_holds_waiting_client(s: IpcView, listener: usize, client: usize)
    requires
        s.wf(),
        s.is_listener(listener),
        s.handles[listener].remote == Connection::Open(client),
    ensures
        !s.handles.contains_key(client) || (s.is_client(client) && s.handles[client].remote
            is Waiting),
{
    assert(s.handle_wf(listener));
}

/// Every name of the registry leads to a listener that is bound to that
/// name.
pub proof fn lemma_registry_names_listeners(s: IpcView, name: Seq<char>)
    requires
        s.wf(),
        s.listeners.contains_key(name),
    ensures
        s.is_listener(s.listeners[name]),
        s.handles[s.listeners[name]].extra->Listener_0.path == Some(name),
{
    assert(s.bound(name));
}

} // verus!
