//! The channel scheme as a mathematical state machine.
//!
//! A state is a table of handles, a registry of bound names, the next free
//! handle id and the readiness events raised so far. Each request is a function
//! from a state to a [`Step`]: the state after it and the answer it gives. The
//! executable scheme in the parent module is proved to follow these functions.

use vstd::prelude::*;
use vstd::utf8::{decode_utf8, encode_utf8, valid_utf8};
use crate::bytes::fit;
use crate::error::Error;
use crate::flags::{is_set, EVENT_READ, EVENT_WRITE, F_GETFL, F_SETFL, O_CREAT, O_EXCL, O_NONBLOCK};
use super::Connection;
use super::Fevent;

verus! {

/// What a request is answered with: a number, "would block" (`Ok(None)`), or
/// an error.
pub type Reply = Result<Option<usize>, Error>;

/// A client endpoint: the bytes its peer has sent and it has not read yet, and
/// where its peer stands.
pub struct ClientView {
    pub buffer: Seq<u8>,
    pub remote: Connection,
}

/// A listener: the name it is bound to, and the clients that wait to be
/// accepted, oldest first.
pub struct ListenerView {
    pub path: Option<Seq<char>>,
    pub awaiting: Seq<usize>,
}

/// The role of a handle: a client or a listener.
pub enum ExtraView {
    Client(ClientView),
    Listener(ListenerView),
}

/// A handle: its flags, its role, and the name of the listener it was accepted
/// from.
pub struct HandleView {
    pub flags: usize,
    pub extra: ExtraView,
    pub path: Option<Seq<char>>,
}

/// A state of the channel scheme.
pub struct ChanView {
    pub handles: Map<usize, HandleView>,
    pub listeners: Map<Seq<char>, usize>,
    pub next_id: usize,
    pub events: Seq<Fevent>,
}

/// The outcome of a request.
pub struct Step {
    pub next: ChanView,
    pub reply: Reply,
}

/// The sub-path `listen` of a duplication: accept the oldest waiting client.
pub open spec fn listen_bytes() -> Seq<u8> {
    seq![0x6cu8, 0x69u8, 0x73u8, 0x74u8, 0x65u8, 0x6eu8]
}

/// The sub-path `connect` of a duplication: queue a new client on the listener.
pub open spec fn connect_bytes() -> Seq<u8> {
    seq![0x63u8, 0x6fu8, 0x6eu8, 0x6eu8, 0x65u8, 0x63u8, 0x74u8]
}

/// The bytes `chan:` that start every channel path.
pub open spec fn scheme_prefix() -> Seq<u8> {
    seq![0x63u8, 0x68u8, 0x61u8, 0x6eu8, 0x3au8]
}

/// A read or write with these flags on a handle with those must not block.
pub open spec fn nonblocking(handle_flags: usize, call_flags: u32) -> bool {
    is_set(handle_flags, O_NONBLOCK) || is_set(call_flags as usize, O_NONBLOCK)
}

/// How many ids at the head of the queue are not among the live ones. Equal
/// to the length of the queue when none of its ids is live.
pub open spec fn stale_prefix(live: Set<usize>, queue: Seq<usize>) -> nat
    decreases queue.len(),
{
    if queue.len() == 0 || live.contains(queue[0]) {
        0
    } else {
        1 + stale_prefix(live, queue.skip(1))
    }
}

impl HandleView {
    /// A listener that nobody waits for.
    pub open spec fn listener(flags: usize, name: Option<Seq<char>>) -> HandleView {
        HandleView {
            flags,
            extra: ExtraView::Listener(ListenerView { path: name, awaiting: Seq::empty() }),
            path: None,
        }
    }

    /// A client with an empty buffer.
    pub open spec fn client(
        flags: usize,
        remote: Connection,
        origin: Option<Seq<char>>,
    ) -> HandleView {
        HandleView {
            flags,
            extra: ExtraView::Client(ClientView { buffer: Seq::empty(), remote }),
            path: origin,
        }
    }

    /// The handle with other flags.
    pub open spec fn with_flags(self, flags: usize) -> HandleView {
        HandleView { flags, ..self }
    }

    /// The listener with another queue.
    pub open spec fn with_awaiting(self, awaiting: Seq<usize>) -> HandleView {
        HandleView {
            extra: ExtraView::Listener(
                ListenerView { awaiting, ..self.extra->Listener_0 },
            ),
            ..self
        }
    }

    /// The client with its peer in another state.
    pub open spec fn with_remote(self, remote: Connection) -> HandleView {
        HandleView {
            extra: ExtraView::Client(ClientView { remote, ..self.extra->Client_0 }),
            ..self
        }
    }

    /// The client with other bytes to read.
    pub open spec fn with_buffer(self, buffer: Seq<u8>) -> HandleView {
        HandleView {
            extra: ExtraView::Client(ClientView { buffer, ..self.extra->Client_0 }),
            ..self
        }
    }

    /// The readiness of the handle: writable when it has a peer, readable when
    /// bytes or the end of the stream can be read, both when a client waits to
    /// be accepted.
    pub open spec fn readiness(self) -> usize {
        match self.extra {
            ExtraView::Client(c) => {
                let w = if c.remote is Open {
                    EVENT_WRITE
                } else {
                    0
                };
                let r = if c.buffer.len() > 0 || c.remote is Closed {
                    EVENT_READ
                } else {
                    0
                };
                w | r
            },
            ExtraView::Listener(l) => if l.awaiting.len() > 0 {
                EVENT_READ | EVENT_WRITE
            } else {
                0
            },
        }
    }
}

impl ChanView {
    /// The state of a scheme that has served no request.
    pub open spec fn empty() -> ChanView {
        ChanView {
            handles: Map::empty(),
            listeners: Map::empty(),
            next_id: 0,
            events: Seq::empty(),
        }
    }

    /// Whether `id` names a client.
    pub open spec fn is_client(self, id: usize) -> bool {
        self.handles.contains_key(id) && self.handles[id].extra is Client
    }

    /// Whether `id` names a listener.
    pub open spec fn is_listener(self, id: usize) -> bool {
        self.handles.contains_key(id) && self.handles[id].extra is Listener
    }

    /// The client that `id` names.
    pub open spec fn client(self, id: usize) -> ClientView {
        self.handles[id].extra->Client_0
    }

    /// The listener that `id` names.
    pub open spec fn listener(self, id: usize) -> ListenerView {
        self.handles[id].extra->Listener_0
    }

    /// The request changes nothing and fails.
    pub open spec fn fail(self, e: Error) -> Step {
        Step { next: self, reply: Err(e) }
    }

    /// The request changes nothing and gives this answer.
    pub open spec fn stay(self, reply: Reply) -> Step {
        Step { next: self, reply }
    }

    /// A new client, with no peer yet, joins the end of the listener's queue.
    /// The listener becomes ready.
    pub open spec fn enqueue(self, listener_id: usize, flags: usize) -> Step {
        let id = self.next_id;
        let l = self.handles[listener_id];
        Step {
            next: ChanView {
                handles: self.handles.insert(
                    listener_id,
                    l.with_awaiting(self.listener(listener_id).awaiting.push(id)),
                ).insert(id, HandleView::client(flags, Connection::Waiting, None)),
                listeners: self.listeners,
                next_id: (id + 1) as usize,
                events: self.events.push(
                    Fevent { id: listener_id, flags: EVENT_READ | EVENT_WRITE },
                ),
            },
            reply: Ok(Some(id)),
        }
    }

    /// Opens `path`. With `O_CREAT` and the name free, a listener is made, and
    /// bound to the name unless the name is empty. With `O_CREAT | O_EXCL` and
    /// the name taken, the request fails. Otherwise a client is queued on the
    /// listener that holds the name.
    pub open spec fn open(self, path: Seq<char>, flags: usize) -> Step {
        let id = self.next_id;
        if is_set(flags, O_CREAT) && !self.listeners.contains_key(path) {
            let name = if path.len() > 0 {
                Some(path)
            } else {
                None
            };
            Step {
                next: ChanView {
                    handles: self.handles.insert(id, HandleView::listener(flags, name)),
                    listeners: if path.len() > 0 {
                        self.listeners.insert(path, id)
                    } else {
                        self.listeners
                    },
                    next_id: (id + 1) as usize,
                    events: self.events,
                },
                reply: Ok(Some(id)),
            }
        } else if is_set(flags, O_CREAT) && is_set(flags, O_EXCL) {
            self.fail(Error::AlreadyExists)
        } else if !self.listeners.contains_key(path) {
            self.fail(Error::NotFound)
        } else {
            self.enqueue(self.listeners[path], flags)
        }
    }

    /// Accepts the oldest waiting client that still exists and pairs it with
    /// a new client, which inherits the listener's flags and name. Waiting
    /// clients that have gone are dropped from the queue on the way. With no
    /// client left to accept, the request would block.
    pub open spec fn accept(self, id: usize) -> Step {
        if !self.is_listener(id) {
            self.fail(Error::BadFile)
        } else {
            let h = self.handles[id];
            let queue = self.listener(id).awaiting;
            let k = stale_prefix(self.handles.dom(), queue) as int;
            if k == queue.len() {
                Step {
                    next: ChanView {
                        handles: self.handles.insert(id, h.with_awaiting(Seq::empty())),
                        ..self
                    },
                    reply: if is_set(h.flags, O_NONBLOCK) {
                        Err(Error::Again)
                    } else {
                        Ok(None)
                    },
                }
            } else {
                let peer = queue[k];
                let new = self.next_id;
                Step {
                    next: ChanView {
                        handles: self.handles.insert(id, h.with_awaiting(queue.skip(k + 1))).insert(
                            peer,
                            self.handles[peer].with_remote(Connection::Open(new)),
                        ).insert(
                            new,
                            HandleView::client(
                                h.flags,
                                Connection::Open(peer),
                                self.listener(id).path,
                            ),
                        ),
                        listeners: self.listeners,
                        next_id: (new + 1) as usize,
                        events: self.events.push(Fevent { id: peer, flags: EVENT_WRITE }),
                    },
                    reply: Ok(Some(new)),
                }
            }
        }
    }

    /// Queues a new client, with no flags, on the listener `id`.
    pub open spec fn connect(self, id: usize) -> Step {
        if !self.is_listener(id) {
            self.fail(Error::BadFile)
        } else {
            self.enqueue(id, 0)
        }
    }

    /// Opens the name that the bytes spell, with the flags of handle `id`,
    /// which must not descend from a named listener.
    pub open spec fn bind(self, id: usize, name: Seq<u8>) -> Step {
        if name.len() == 0 || !valid_utf8(name) || !self.handles.contains_key(id)
            || self.handles[id].path is Some {
            self.fail(Error::BadFile)
        } else {
            self.open(decode_utf8(name), self.handles[id].flags)
        }
    }

    /// Duplicates handle `id` under a sub-path: `listen` accepts, `connect`
    /// connects, any other binds.
    pub open spec fn dup(self, id: usize, sub: Seq<u8>) -> Step {
        if sub == listen_bytes() {
            self.accept(id)
        } else if sub == connect_bytes() {
            self.connect(id)
        } else {
            self.bind(id, sub)
        }
    }

    /// Sends `data` to the peer of client `id`: all of it joins the end of the
    /// peer's buffer, and the peer becomes readable if the buffer was empty.
    pub open spec fn write(self, id: usize, data: Seq<u8>, flags: u32) -> Step {
        if !self.is_client(id) {
            self.fail(Error::BadFile)
        } else {
            match self.client(id).remote {
                Connection::Open(peer) => {
                    let buffer = self.client(peer).buffer;
                    Step {
                        next: ChanView {
                            handles: self.handles.insert(
                                peer,
                                self.handles[peer].with_buffer(buffer + data),
                            ),
                            events: if buffer.len() == 0 {
                                self.events.push(Fevent { id: peer, flags: EVENT_READ })
                            } else {
                                self.events
                            },
                            ..self
                        },
                        reply: Ok(Some(data.len() as usize)),
                    }
                },
                Connection::Closed => self.fail(Error::BrokenPipe),
                Connection::Waiting => if nonblocking(self.handles[id].flags, flags) {
                    self.fail(Error::Again)
                } else {
                    self.stay(Ok(None))
                },
            }
        }
    }

    /// The bytes that a read of client `id` into `room` bytes delivers.
    pub open spec fn readable(self, id: usize, room: nat) -> Seq<u8> {
        if self.is_client(id) {
            let buffer = self.client(id).buffer;
            buffer.take(fit(room, buffer.len()) as int)
        } else {
            Seq::empty()
        }
    }

    /// Reads from client `id` into `room` bytes: takes what fits from the
    /// front of the buffer. An empty buffer gives the end of the stream once
    /// the peer has closed, and would block before.
    pub open spec fn read(self, id: usize, room: nat, flags: u32) -> Step {
        if !self.is_client(id) {
            self.fail(Error::BadFile)
        } else {
            let c = self.client(id);
            if c.buffer.len() > 0 {
                let n = fit(room, c.buffer.len());
                Step {
                    next: ChanView {
                        handles: self.handles.insert(
                            id,
                            self.handles[id].with_buffer(c.buffer.skip(n as int)),
                        ),
                        ..self
                    },
                    reply: Ok(Some(n as usize)),
                }
            } else if c.remote is Closed {
                self.stay(Ok(Some(0)))
            } else if nonblocking(self.handles[id].flags, flags) {
                self.fail(Error::Again)
            } else {
                self.stay(Ok(None))
            }
        }
    }

    /// Closes handle `id`. The peer of a client learns that the stream has
    /// ended, and becomes readable if it has nothing left to read. The name of
    /// a listener becomes free; clients that wait for it stay as they are.
    pub open spec fn close(self, id: usize) -> Step {
        if !self.handles.contains_key(id) {
            self.fail(Error::BadFile)
        } else {
            match self.handles[id].extra {
                ExtraView::Client(c) => match c.remote {
                    Connection::Open(peer) => Step {
                        next: ChanView {
                            handles: self.handles.remove(id).insert(
                                peer,
                                self.handles[peer].with_remote(Connection::Closed),
                            ),
                            events: if self.client(peer).buffer.len() == 0 {
                                self.events.push(Fevent { id: peer, flags: EVENT_READ })
                            } else {
                                self.events
                            },
                            ..self
                        },
                        reply: Ok(Some(0)),
                    },
                    _ => Step {
                        next: ChanView { handles: self.handles.remove(id), ..self },
                        reply: Ok(Some(0)),
                    },
                },
                ExtraView::Listener(l) => Step {
                    next: ChanView {
                        handles: self.handles.remove(id),
                        listeners: match l.path {
                            Some(name) => self.listeners.remove(name),
                            None => self.listeners,
                        },
                        ..self
                    },
                    reply: Ok(Some(0)),
                },
            }
        }
    }

    /// Reads (`F_GETFL`) or replaces (`F_SETFL`) the flags of handle `id`.
    pub open spec fn fcntl(self, id: usize, cmd: usize, arg: usize) -> Step {
        if !self.handles.contains_key(id) {
            self.fail(Error::BadFile)
        } else if cmd == F_GETFL {
            self.stay(Ok(Some(self.handles[id].flags)))
        } else if cmd == F_SETFL {
            Step {
                next: ChanView {
                    handles: self.handles.insert(id, self.handles[id].with_flags(arg)),
                    ..self
                },
                reply: Ok(Some(0)),
            }
        } else {
            self.fail(Error::InvalidArgument)
        }
    }

    /// The readiness of handle `id`.
    pub open spec fn fevent(self, id: usize) -> Reply {
        if !self.handles.contains_key(id) {
            Err(Error::BadFile)
        } else {
            Ok(Some(self.handles[id].readiness()))
        }
    }

    /// The path of handle `id` in bytes: `chan:` and the name of the listener
    /// it was accepted from.
    pub open spec fn path_bytes(self, id: usize) -> Seq<u8> {
        scheme_prefix() + encode_utf8(self.handles[id].path->Some_0)
    }

    /// Whether handle `id` has a path to tell.
    pub open spec fn has_path(self, id: usize) -> bool {
        self.handles.contains_key(id) && self.handles[id].path is Some
    }

    /// How many bytes of the path of handle `id` are written into `room`
    /// bytes.
    pub open spec fn fpath(self, id: usize, room: nat) -> Reply {
        if !self.has_path(id) {
            Err(Error::BadFile)
        } else {
            Ok(Some(fit(room, self.path_bytes(id).len()) as usize))
        }
    }

    /// Nothing is ever left to flush.
    pub open spec fn fsync(self, id: usize) -> Reply {
        if !self.handles.contains_key(id) {
            Err(Error::BadFile)
        } else {
            Ok(Some(id))
        }
    }
}

impl ChanView {
    /// The id was given out, and if it still names a handle, that handle is a
    /// client without a peer.
    pub open spec fn waits(self, id: usize) -> bool {
        &&& id < self.next_id
        &&& self.handles.contains_key(id) ==> self.is_client(id) && self.client(id).remote
            is Waiting
    }

    /// The peer of a connected client is another client, connected back.
    pub open spec fn paired(self, id: usize) -> bool {
        self.client(id).remote matches Connection::Open(peer) ==> {
            &&& peer != id
            &&& self.is_client(peer)
            &&& self.client(peer).remote == Connection::Open(id)
        }
    }

    /// The listener's name, if it has one, is its own in the registry, and
    /// every id in its queue waits.
    pub open spec fn queue_waits(self, id: usize) -> bool {
        let l = self.listener(id);
        &&& l.path matches Some(name) ==> {
            &&& name.len() > 0
            &&& self.listeners.contains_key(name)
            &&& self.listeners[name] == id
        }
        &&& forall|i: int| 0 <= i < l.awaiting.len() ==> self.waits(#[trigger] l.awaiting[i])
    }

    /// What holds of one handle of a well-formed state.
    pub open spec fn handle_wf(self, id: usize) -> bool {
        &&& id < self.next_id
        &&& self.handles[id].extra is Client ==> self.paired(id)
        &&& self.handles[id].extra is Listener ==> self.queue_waits(id)
    }

    /// The name is bound to a listener that carries it.
    pub open spec fn bound(self, name: Seq<char>) -> bool {
        let id = self.listeners[name];
        &&& self.is_listener(id)
        &&& self.listener(id).path == Some(name)
    }

    /// No id waits twice, in one queue or in two.
    pub open spec fn waits_once(self) -> bool {
        forall|a: usize, b: usize, i: int, j: int|
            #![trigger self.listener(a).awaiting[i], self.listener(b).awaiting[j]]
            {
                &&& self.is_listener(a)
                &&& self.is_listener(b)
                &&& 0 <= i < self.listener(a).awaiting.len()
                &&& 0 <= j < self.listener(b).awaiting.len()
                &&& self.listener(a).awaiting[i] == self.listener(b).awaiting[j]
            } ==> a == b && i == j
    }

    /// The states that the scheme can be in: ids are never used twice, every
    /// bound name leads to its listener, connections are mutual, and the
    /// queues hold only clients that wait, or ids of clients that have gone.
    pub open spec fn wf(self) -> bool {
        &&& forall|id: usize| #[trigger] self.handles.contains_key(id) ==> self.handle_wf(id)
        &&& forall|name: Seq<char>| #[trigger]
            self.listeners.contains_key(name) ==> self.bound(name)
        &&& self.waits_once()
    }
}

/// A request, as the state machine sees it.
#[allow(inconsistent_fields)]
pub enum Call {
    Open { path: Seq<char>, flags: usize },
    Dup { id: usize, sub: Seq<u8> },
    Read { id: usize, room: nat, flags: u32 },
    Write { id: usize, data: Seq<u8>, flags: u32 },
    Close { id: usize },
    Fcntl { id: usize, cmd: usize, arg: usize },
    Fevent { id: usize },
    Fpath { id: usize, room: nat },
    Fsync { id: usize },
    TakeEvents,
}

impl ChanView {
    /// What one request makes of the state.
    pub open spec fn step(self, call: Call) -> Step {
        match call {
            Call::Open { path, flags } => self.open(path, flags),
            Call::Dup { id, sub } => self.dup(id, sub),
            Call::Read { id, room, flags } => self.read(id, room, flags),
            Call::Write { id, data, flags } => self.write(id, data, flags),
            Call::Close { id } => self.close(id),
            Call::Fcntl { id, cmd, arg } => self.fcntl(id, cmd, arg),
            Call::Fevent { id } => self.stay(self.fevent(id)),
            Call::Fpath { id, room } => self.stay(self.fpath(id, room)),
            Call::Fsync { id } => self.stay(self.fsync(id)),
            Call::TakeEvents => Step {
                next: ChanView { events: Seq::empty(), ..self },
                reply: Ok(Some(0)),
            },
        }
    }

    /// The state after a sequence of requests.
    pub open spec fn run(self, calls: Seq<Call>) -> ChanView
        decreases calls.len(),
    {
        if calls.len() == 0 {
            self
        } else {
            self.run(calls.drop_last()).step(calls.last()).next
        }
    }

    /// All bytes that the writes of handle `id` in a sequence of requests
    /// have sent, in order. A write that fails or would block sends nothing.
    pub open spec fn sent(self, calls: Seq<Call>, id: usize) -> Seq<u8>
        decreases calls.len(),
    {
        if calls.len() == 0 {
            Seq::empty()
        } else {
            let before = self.run(calls.drop_last());
            let sent = self.sent(calls.drop_last(), id);
            match calls.last() {
                Call::Write { id: writer, data, flags } => if writer == id && before.write(
                    writer,
                    data,
                    flags,
                ).reply matches Ok(Some(_)) {
                    sent + data
                } else {
                    sent
                },
                _ => sent,
            }
        }
    }

    /// All bytes that the reads of handle `id` in a sequence of requests have
    /// delivered, in order.
    pub open spec fn received(self, calls: Seq<Call>, id: usize) -> Seq<u8>
        decreases calls.len(),
    {
        if calls.len() == 0 {
            Seq::empty()
        } else {
            let before = self.run(calls.drop_last());
            let received = self.received(calls.drop_last(), id);
            match calls.last() {
                Call::Read { id: reader, room, flags } => if reader == id {
                    received + before.readable(reader, room)
                } else {
                    received
                },
                _ => received,
            }
        }
    }
}

} // verus!
