//! What holds of every state that the channel scheme can reach.

use vstd::prelude::*;
use crate::error::Error;
use crate::flags::{is_set, F_SETFL, O_CREAT, O_EXCL, O_NONBLOCK};
use crate::bytes::fit;
use super::model::{
    connect_bytes, listen_bytes, stale_prefix, Call, ChanView, ExtraView, HandleView,
};
use super::Connection;

verus! {

/// The scheme starts in a well-formed state.
pub proof fn lemma_empty_wf()
    ensures
        ChanView::empty().wf(),
{
}

/// The length of the stale head of a queue, told by what it holds.
pub proof fn lemma_stale_prefix(live: Set<usize>, queue: Seq<usize>)
    ensures
        stale_prefix(live, queue) <= queue.len(),
        forall|i: int| 0 <= i < stale_prefix(live, queue) ==> !live.contains(#[trigger] queue[i]),
        stale_prefix(live, queue) < queue.len() ==> live.contains(
            queue[stale_prefix(live, queue) as int],
        ),
    decreases queue.len(),
{
    if queue.len() == 0 || live.contains(queue[0]) {
    } else {
        let rest = queue.skip(1);
        lemma_stale_prefix(live, rest);
        assert forall|i: int| 0 <= i < stale_prefix(live, queue) implies !live.contains(
            #[trigger] queue[i],
        ) by {
            if i > 0 {
                assert(queue[i] == rest[i - 1]);
            }
        }
        if stale_prefix(live, queue) < queue.len() {
            let k = stale_prefix(live, rest) as int;
            assert(queue[stale_prefix(live, queue) as int] == rest[k]);
        }
    }
}

/// The stale head of a queue depends only on which ids of the queue are
/// live.
pub proof fn lemma_stale_prefix_local(a: Set<usize>, b: Set<usize>, queue: Seq<usize>)
    requires
        forall|i: int|
            0 <= i < queue.len() ==> a.contains(#[trigger] queue[i]) == b.contains(queue[i]),
    ensures
        stale_prefix(a, queue) == stale_prefix(b, queue),
    decreases queue.len(),
{
    if queue.len() > 0 {
        let rest = queue.skip(1);
        assert forall|i: int| 0 <= i < rest.len() implies a.contains(#[trigger] rest[i])
            == b.contains(rest[i]) by {
            assert(rest[i] == queue[i + 1]);
        }
        lemma_stale_prefix_local(a, b, rest);
        assert(a.contains(queue[0]) == b.contains(queue[0]));
    }
}

/// Queueing a client on a listener keeps the state well-formed.
pub proof fn lemma_enqueue_wf(s: ChanView, listener_id: usize, flags: usize)
    requires
        s.wf(),
        s.is_listener(listener_id),
        s.next_id < usize::MAX,
    ensures
        s.enqueue(listener_id, flags).next.wf(),
{
    let t = s.enqueue(listener_id, flags).next;
    let id = s.next_id;
    assert(s.handle_wf(listener_id));
    assert forall|h: usize| #[trigger] t.handles.contains_key(h) implies t.handle_wf(h) by {
        if h == id {
        } else {
            assert(s.handles.contains_key(h));
            assert(s.handle_wf(h));
            if h == listener_id {
                let q = s.listener(h).awaiting;
                let q2 = t.listener(h).awaiting;
                assert forall|i: int| 0 <= i < q2.len() implies t.waits(#[trigger] q2[i]) by {
                    if i < q.len() {
                        assert(s.waits(q[i]));
                    }
                }
            } else if s.handles[h].extra is Listener {
                let q = s.listener(h).awaiting;
                assert forall|i: int| 0 <= i < q.len() implies t.waits(#[trigger] q[i]) by {
                    assert(s.waits(q[i]));
                }
            } else {
            }
        }
    }
    assert forall|name: Seq<char>| #[trigger] t.listeners.contains_key(name) implies t.bound(
        name,
    ) by {
        assert(s.bound(name));
    }
    assert forall|a: usize, b: usize, i: int, j: int|
        #![trigger t.listener(a).awaiting[i], t.listener(b).awaiting[j]]
        {
            &&& t.is_listener(a)
            &&& t.is_listener(b)
            &&& 0 <= i < t.listener(a).awaiting.len()
            &&& 0 <= j < t.listener(b).awaiting.len()
            &&& t.listener(a).awaiting[i] == t.listener(b).awaiting[j]
        } implies a == b && i == j by {
        assert(s.handle_wf(a));
        assert(s.handle_wf(b));
        let fresh_a = a == listener_id && i == s.listener(a).awaiting.len();
        let fresh_b = b == listener_id && j == s.listener(b).awaiting.len();
        if !fresh_a {
            assert(s.waits(s.listener(a).awaiting[i]));
        }
        if !fresh_b {
            assert(s.waits(s.listener(b).awaiting[j]));
        }
        if !fresh_a && !fresh_b {
            assert(s.listener(a).awaiting[i] == s.listener(b).awaiting[j]);
        }
    }
}

/// Opening a path keeps the state well-formed.
pub proof fn lemma_open_wf(s: ChanView, path: Seq<char>, flags: usize)
    requires
        s.wf(),
        s.next_id < usize::MAX,
    ensures
        s.open(path, flags).next.wf(),
{
    let t = s.open(path, flags).next;
    let id = s.next_id;
    if is_set(flags, O_CREAT) && !s.listeners.contains_key(path) {
        assert forall|h: usize| #[trigger] t.handles.contains_key(h) implies t.handle_wf(h) by {
            if h != id {
                assert(s.handles.contains_key(h));
                assert(s.handle_wf(h));
                if s.handles[h].extra is Listener {
                    let q = s.listener(h).awaiting;
                    assert forall|i: int| 0 <= i < q.len() implies t.waits(#[trigger] q[i]) by {
                        assert(s.waits(q[i]));
                    }
                }
            }
        }
        assert forall|name: Seq<char>| #[trigger] t.listeners.contains_key(name) implies t.bound(
            name,
        ) by {
            if name != path {
                assert(s.bound(name));
            }
        }
        assert forall|a: usize, b: usize, i: int, j: int|
            #![trigger t.listener(a).awaiting[i], t.listener(b).awaiting[j]]
            {
                &&& t.is_listener(a)
                &&& t.is_listener(b)
                &&& 0 <= i < t.listener(a).awaiting.len()
                &&& 0 <= j < t.listener(b).awaiting.len()
                &&& t.listener(a).awaiting[i] == t.listener(b).awaiting[j]
            } implies a == b && i == j by {
            assert(s.listener(a).awaiting[i] == s.listener(b).awaiting[j]);
        }
    } else if is_set(flags, O_CREAT) && is_set(flags, O_EXCL) {
    } else if !s.listeners.contains_key(path) {
    } else {
        assert(s.bound(path));
        lemma_enqueue_wf(s, s.listeners[path], flags);
    }
}

/// Accepting keeps the state well-formed.
pub proof fn lemma_accept_wf(s: ChanView, id: usize)
    requires
        s.wf(),
        s.next_id < usize::MAX,
    ensures
        s.accept(id).next.wf(),
{
    if s.is_listener(id) {
        let t = s.accept(id).next;
        let queue = s.listener(id).awaiting;
        let k = stale_prefix(s.handles.dom(), queue) as int;
        lemma_stale_prefix(s.handles.dom(), queue);
        assert(s.handle_wf(id));
        if k == queue.len() {
            assert forall|h: usize| #[trigger] t.handles.contains_key(h) implies t.handle_wf(
                h,
            ) by {
                assert(s.handles.contains_key(h));
                assert(s.handle_wf(h));
                if h != id && s.handles[h].extra is Listener {
                    let q = s.listener(h).awaiting;
                    assert forall|i: int| 0 <= i < q.len() implies t.waits(#[trigger] q[i]) by {
                        assert(s.waits(q[i]));
                    }
                }
            }
            assert forall|name: Seq<char>| #[trigger]
                t.listeners.contains_key(name) implies t.bound(name) by {
                assert(s.bound(name));
            }
            assert forall|a: usize, b: usize, i: int, j: int|
                #![trigger t.listener(a).awaiting[i], t.listener(b).awaiting[j]]
                {
                    &&& t.is_listener(a)
                    &&& t.is_listener(b)
                    &&& 0 <= i < t.listener(a).awaiting.len()
                    &&& 0 <= j < t.listener(b).awaiting.len()
                    &&& t.listener(a).awaiting[i] == t.listener(b).awaiting[j]
                } implies a == b && i == j by {
                assert(s.listener(a).awaiting[i] == s.listener(b).awaiting[j]);
            }
        } else {
            let peer = queue[k];
            let new = s.next_id;
            assert(s.waits(peer));
            assert(s.handle_wf(peer));
            assert forall|h: usize| #[trigger] t.handles.contains_key(h) implies t.handle_wf(
                h,
            ) by {
                if h == new {
                } else if h == peer {
                } else if h == id {
                    let q2 = t.listener(h).awaiting;
                    assert forall|i: int| 0 <= i < q2.len() implies t.waits(#[trigger] q2[i]) by {
                        assert(q2[i] == queue[i + k + 1]);
                        assert(s.waits(queue[i + k + 1]));
                        assert(s.listener(id).awaiting[i + k + 1] == s.listener(id).awaiting[k]
                            ==> i + k + 1 == k);
                    }
                } else {
                    assert(s.handles.contains_key(h));
                    assert(s.handle_wf(h));
                    if s.handles[h].extra is Listener {
                        let q = s.listener(h).awaiting;
                        assert forall|i: int| 0 <= i < q.len() implies t.waits(
                            #[trigger] q[i],
                        ) by {
                            assert(s.waits(q[i]));
                            assert(s.listener(h).awaiting[i] == s.listener(id).awaiting[k] ==> h
                                == id);
                        }
                    } else {
                        if let Connection::Open(p) = s.client(h).remote {
                            assert(s.handle_wf(p));
                        }
                    }
                }
            }
            assert forall|name: Seq<char>| #[trigger]
                t.listeners.contains_key(name) implies t.bound(name) by {
                assert(s.bound(name));
            }
            assert forall|a: usize, b: usize, i: int, j: int|
                #![trigger t.listener(a).awaiting[i], t.listener(b).awaiting[j]]
                {
                    &&& t.is_listener(a)
                    &&& t.is_listener(b)
                    &&& 0 <= i < t.listener(a).awaiting.len()
                    &&& 0 <= j < t.listener(b).awaiting.len()
                    &&& t.listener(a).awaiting[i] == t.listener(b).awaiting[j]
                } implies a == b && i == j by {
                let i0 = if a == id {
                    i + k + 1
                } else {
                    i
                };
                let j0 = if b == id {
                    j + k + 1
                } else {
                    j
                };
                assert(s.listener(a).awaiting[i0] == s.listener(b).awaiting[j0]);
            }
        }
    }
}

/// Connecting through a listener keeps the state well-formed.
pub proof fn lemma_connect_wf(s: ChanView, id: usize)
    requires
        s.wf(),
        s.next_id < usize::MAX,
    ensures
        s.connect(id).next.wf(),
{
    if s.is_listener(id) {
        lemma_enqueue_wf(s, id, 0);
    }
}

/// Duplicating a handle keeps the state well-formed.
pub proof fn lemma_dup_wf(s: ChanView, id: usize, sub: Seq<u8>)
    requires
        s.wf(),
        s.next_id < usize::MAX,
    ensures
        s.dup(id, sub).next.wf(),
{
    lemma_accept_wf(s, id);
    lemma_connect_wf(s, id);
    if s.handles.contains_key(id) {
        lemma_open_wf(s, vstd::utf8::decode_utf8(sub), s.handles[id].flags);
    }
}

/// Writing keeps the state well-formed.
pub proof fn lemma_write_wf(s: ChanView, id: usize, data: Seq<u8>, flags: u32)
    requires
        s.wf(),
    ensures
        s.write(id, data, flags).next.wf(),
{
    let t = s.write(id, data, flags).next;
    if s.is_client(id) {
        assert(s.handle_wf(id));
        if let Connection::Open(peer) = s.client(id).remote {
            lemma_same_links_wf(s, t);
        }
    }
}

/// Reading keeps the state well-formed.
pub proof fn lemma_read_wf(s: ChanView, id: usize, room: nat, flags: u32)
    requires
        s.wf(),
    ensures
        s.read(id, room, flags).next.wf(),
{
    lemma_same_links_wf(s, s.read(id, room, flags).next);
}

/// Reading or replacing the flags keeps the state well-formed.
pub proof fn lemma_fcntl_wf(s: ChanView, id: usize, cmd: usize, arg: usize)
    requires
        s.wf(),
    ensures
        s.fcntl(id, cmd, arg).next.wf(),
{
    lemma_same_links_wf(s, s.fcntl(id, cmd, arg).next);
}

/// A state that differs from a well-formed one only in flags, buffers and
/// events is well-formed.
pub proof fn lemma_same_links_wf(s: ChanView, t: ChanView)
    requires
        s.wf(),
        forall|h: usize| t.handles.contains_key(h) <==> s.handles.contains_key(h),
        t.listeners == s.listeners,
        t.next_id == s.next_id,
        forall|h: usize| #[trigger]
            s.handles.contains_key(h) ==> same_links(s.handles[h], t.handles[h]),
    ensures
        t.wf(),
{
    assert forall|h: usize| #[trigger] t.handles.contains_key(h) implies t.handle_wf(h) by {
        assert(s.handles.contains_key(h));
        assert(s.handle_wf(h));
        if s.handles[h].extra is Listener {
            let q = s.listener(h).awaiting;
            assert forall|i: int| 0 <= i < q.len() implies t.waits(#[trigger] q[i]) by {
                assert(s.waits(q[i]));
                if s.handles.contains_key(q[i]) {
                    assert(same_links(s.handles[q[i]], t.handles[q[i]]));
                }
            }
        } else {
            if let Connection::Open(p) = s.client(h).remote {
                assert(s.handles.contains_key(p));
            }
        }
    }
    assert forall|name: Seq<char>| #[trigger] t.listeners.contains_key(name) implies t.bound(
        name,
    ) by {
        assert(s.bound(name));
        assert(s.handles.contains_key(s.listeners[name]));
    }
    assert forall|a: usize, b: usize, i: int, j: int|
        #![trigger t.listener(a).awaiting[i], t.listener(b).awaiting[j]]
        {
            &&& t.is_listener(a)
            &&& t.is_listener(b)
            &&& 0 <= i < t.listener(a).awaiting.len()
            &&& 0 <= j < t.listener(b).awaiting.len()
            &&& t.listener(a).awaiting[i] == t.listener(b).awaiting[j]
        } implies a == b && i == j by {
        assert(s.handles.contains_key(a));
        assert(s.handles.contains_key(b));
        assert(s.listener(a).awaiting[i] == s.listener(b).awaiting[j]);
    }
}

/// Two handles play the same role towards the others: they agree on
/// everything but flags and buffered bytes.
pub open spec fn same_links(a: HandleView, b: HandleView) -> bool {
    match (a.extra, b.extra) {
        (ExtraView::Client(x), ExtraView::Client(y)) => x.remote == y.remote,
        (ExtraView::Listener(x), ExtraView::Listener(y)) => x == y,
        _ => false,
    }
}

/// Closing a handle keeps the state well-formed.
pub proof fn lemma_close_wf(s: ChanView, id: usize)
    requires
        s.wf(),
    ensures
        s.close(id).next.wf(),
{
    let t = s.close(id).next;
    if s.handles.contains_key(id) {
        assert(s.handle_wf(id));
        assert forall|h: usize| #[trigger] t.handles.contains_key(h) implies t.handle_wf(h) by {
            assert(s.handles.contains_key(h));
            assert(s.handle_wf(h));
            if s.handles[h].extra is Listener {
                let q = s.listener(h).awaiting;
                assert forall|i: int| 0 <= i < q.len() implies t.waits(#[trigger] q[i]) by {
                    assert(s.waits(q[i]));
                }
                if let Some(name) = s.listener(h).path {
                    if s.handles[id].extra is Listener {
                        assert(s.listener(id).path == Some(name) ==> s.listeners[name] == id);
                    }
                }
            } else {
                if let Connection::Open(p) = s.client(h).remote {
                    assert(s.handles.contains_key(p));
                    assert(s.handle_wf(p));
                }
            }
        }
        assert forall|name: Seq<char>| #[trigger] t.listeners.contains_key(name) implies t.bound(
            name,
        ) by {
            assert(s.bound(name));
        }
        assert forall|a: usize, b: usize, i: int, j: int|
            #![trigger t.listener(a).awaiting[i], t.listener(b).awaiting[j]]
            {
                &&& t.is_listener(a)
                &&& t.is_listener(b)
                &&& 0 <= i < t.listener(a).awaiting.len()
                &&& 0 <= j < t.listener(b).awaiting.len()
                &&& t.listener(a).awaiting[i] == t.listener(b).awaiting[j]
            } implies a == b && i == j by {
            assert(s.listener(a).awaiting[i] == s.listener(b).awaiting[j]);
        }
    }
}

/// Every request keeps the state well-formed, and gives out at most one id.
pub proof fn lemma_step_wf(s: ChanView, call: Call)
    requires
        s.wf(),
        s.next_id < usize::MAX,
    ensures
        s.step(call).next.wf(),
        s.next_id <= s.step(call).next.next_id <= s.next_id + 1,
{
    match call {
        Call::Open { path, flags } => {
            lemma_open_wf(s, path, flags);
        },
        Call::Dup { id, sub } => {
            lemma_dup_wf(s, id, sub);
        },
        Call::Read { id, room, flags } => {
            lemma_read_wf(s, id, room, flags);
        },
        Call::Write { id, data, flags } => {
            lemma_write_wf(s, id, data, flags);
        },
        Call::Close { id } => {
            lemma_close_wf(s, id);
        },
        Call::Fcntl { id, cmd, arg } => {
            lemma_fcntl_wf(s, id, cmd, arg);
        },
        Call::TakeEvents => {
            lemma_same_links_wf(s, s.step(call).next);
        },
        _ => {},
    }
}

/// Every state that a sequence of requests leads to from a well-formed state
/// is well-formed, as long as ids are left to give out.
pub proof fn lemma_run_wf(s: ChanView, calls: Seq<Call>)
    requires
        s.wf(),
        s.next_id + calls.len() <= usize::MAX,
    ensures
        s.run(calls).wf(),
        s.next_id <= s.run(calls).next_id <= s.next_id + calls.len(),
    decreases calls.len(),
{
    if calls.len() > 0 {
        lemma_run_wf(s, calls.drop_last());
        lemma_step_wf(s.run(calls.drop_last()), calls.last());
    }
}

/// Every state that the scheme reaches from its start is well-formed.
pub proof fn lemma_reachable_wf(calls: Seq<Call>)
    requires
        calls.len() <= usize::MAX,
    ensures
        ChanView::empty().run(calls).wf(),
{
    lemma_empty_wf();
    lemma_run_wf(ChanView::empty(), calls);
}

/// A connection is mutual: in a state that the scheme can reach, the peer of
/// a connected client exists, is a client, and is connected back to it.
pub proof fn lemma_connection_is_mutual(s: ChanView, id: usize, peer: usize)
    requires
        s.wf(),
        s.is_client(id),
        s.client(id).remote == Connection::Open(peer),
    ensures
        s.is_client(peer),
        s.client(peer).remote == Connection::Open(id),
        peer != id,
{
    assert(s.handle_wf(id));
}

/// In a state that the scheme can reach, every id in the queue of a listener
/// names a client that has no peer yet, or names nothing any more.
pub proof fn lemma_queue_holds_waiting_clients(s: ChanView, listener: usize, i: int)
    requires
        s.wf(),
        s.is_listener(listener),
        0 <= i < s.listener(listener).awaiting.len(),
    ensures
        ({
            let id = s.listener(listener).awaiting[i];
            !s.handles.contains_key(id) || (s.is_client(id) && s.client(id).remote
                is Waiting)
        }),
{
    assert(s.handle_wf(listener));
    assert(s.waits(s.listener(listener).awaiting[i]));
}

/// In a state that the scheme can reach, every name of the registry leads to
/// a listener that is bound to that name.
pub proof fn lemma_registry_names_listeners(s: ChanView, name: Seq<char>)
    requires
        s.wf(),
        s.listeners.contains_key(name),
    ensures
        s.is_listener(s.listeners[name]),
        s.listener(s.listeners[name]).path == Some(name),
{
    assert(s.bound(name));
}

/// A listener has a name exactly if the registry binds that name to it.
pub proof fn lemma_named_iff_registered(s: ChanView, listener: usize, name: Seq<char>)
    requires
        s.wf(),
        s.is_listener(listener),
    ensures
        s.listener(listener).path == Some(name) <==> s.listeners.contains_key(name)
            && s.listeners[name] == listener,
{
    assert(s.handle_wf(listener));
    if s.listeners.contains_key(name) {
        assert(s.bound(name));
    }
}

/// Ids are never used twice: every handle has an id below the next free one.
pub proof fn lemma_ids_are_fresh(s: ChanView, id: usize)
    requires
        s.wf(),
        s.handles.contains_key(id),
    ensures
        id < s.next_id,
{
    assert(s.handle_wf(id));
}

/// The two ends `a` and `b` of a connection, while it lasts and after: each
/// of them, while it exists, is a client whose peer is the other or has
/// closed.
pub open spec fn linked(s: ChanView, a: usize, b: usize) -> bool {
    &&& a < s.next_id
    &&& b < s.next_id
    &&& s.handles.contains_key(a) ==> s.is_client(a) && (s.client(a).remote == Connection::Open(b)
        || s.client(a).remote is Closed)
    &&& s.handles.contains_key(b) ==> s.is_client(b) && (s.client(b).remote == Connection::Open(a)
        || s.client(b).remote is Closed)
}

/// The bytes that one request sends from `id`.
pub open spec fn sent_by(s: ChanView, call: Call, id: usize) -> Seq<u8> {
    match call {
        Call::Write { id: writer, data, flags } => if writer == id && s.write(
            writer,
            data,
            flags,
        ).reply matches Ok(Some(_)) {
            data
        } else {
            Seq::empty()
        },
        _ => Seq::empty(),
    }
}

/// The bytes that one request delivers to `id`.
pub open spec fn received_by(s: ChanView, call: Call, id: usize) -> Seq<u8> {
    match call {
        Call::Read { id: reader, room, flags } => if reader == id {
            s.readable(reader, room)
        } else {
            Seq::empty()
        },
        _ => Seq::empty(),
    }
}

/// One request keeps the two ends of a connection linked, and what it adds
/// to the buffer of `b` is what `a` has sent; what it takes from the front
/// is what `b` has read.
pub proof fn lemma_step_conserves_bytes(s: ChanView, call: Call, a: usize, b: usize)
    requires
        s.wf(),
        s.next_id < usize::MAX,
        linked(s, a, b),
    ensures
        linked(s.step(call).next, a, b),
        s.step(call).next.handles.contains_key(b) ==> s.handles.contains_key(b) && s.client(
            b,
        ).buffer + sent_by(s, call, a) == received_by(s, call, b) + s.step(call).next.client(
            b,
        ).buffer,
{
    let t = s.step(call).next;
    lemma_step_wf(s, call);
    if s.handles.contains_key(a) {
        assert(s.handle_wf(a));
    }
    if s.handles.contains_key(b) {
        assert(s.handle_wf(b));
    }
    let buffer = s.client(b).buffer;
    match call {
        Call::Open { path, flags } => {
            if t.handles.contains_key(b) {
                assert(t.client(b).buffer == buffer);
                assert(buffer + Seq::<u8>::empty() =~= Seq::<u8>::empty() + buffer);
            }
        },
        Call::Dup { id, sub } => {
            if sub == listen_bytes() {
                if s.is_listener(id) {
                    let queue = s.listener(id).awaiting;
                    let k = stale_prefix(s.handles.dom(), queue) as int;
                    lemma_stale_prefix(s.handles.dom(), queue);
                    assert(s.handle_wf(id));
                    if k < queue.len() {
                        assert(s.waits(queue[k]));
                    }
                }
            }
            if t.handles.contains_key(b) {
                assert(t.client(b).buffer == buffer);
                assert(buffer + Seq::<u8>::empty() =~= Seq::<u8>::empty() + buffer);
            }
        },
        Call::Read { id, room, flags } => {
            if t.handles.contains_key(b) {
                if id == b && buffer.len() > 0 {
                    let n = fit(room, buffer.len()) as int;
                    assert(buffer + Seq::<u8>::empty() =~= buffer.take(n) + buffer.skip(n));
                } else {
                    assert(t.client(b).buffer == buffer);
                    if id == b {
                        assert(s.readable(b, room) =~= Seq::<u8>::empty());
                    }
                    assert(buffer + Seq::<u8>::empty() =~= Seq::<u8>::empty() + buffer);
                }
            }
        },
        Call::Write { id, data, flags } => {
            if s.is_client(id) {
                assert(s.handle_wf(id));
            }
            if t.handles.contains_key(b) {
                if s.is_client(id) && s.client(id).remote == Connection::Open(b) {
                    assert(id == a);
                    assert(buffer + data =~= Seq::<u8>::empty() + (buffer + data));
                } else {
                    assert(t.client(b).buffer == buffer);
                    assert(sent_by(s, call, a) =~= Seq::<u8>::empty());
                    assert(buffer + Seq::<u8>::empty() =~= Seq::<u8>::empty() + buffer);
                }
            }
        },
        Call::Close { id } => {
            if s.is_client(id) {
                assert(s.handle_wf(id));
            }
            if t.handles.contains_key(b) {
                assert(t.client(b).buffer == buffer);
                assert(buffer + Seq::<u8>::empty() =~= Seq::<u8>::empty() + buffer);
            }
        },
        _ => {
            if t.handles.contains_key(b) {
                assert(t.client(b).buffer == buffer);
                assert(buffer + Seq::<u8>::empty() =~= Seq::<u8>::empty() + buffer);
            }
        },
    }
}

/// Bytes are neither lost nor made up nor reordered: over any sequence of
/// requests, what stood in the buffer of `b` followed by what `a` has sent
/// since is what `b` has read since followed by what stands in its buffer
/// now.
pub proof fn lemma_run_conserves_bytes(s: ChanView, calls: Seq<Call>, a: usize, b: usize)
    requires
        s.wf(),
        s.next_id + calls.len() <= usize::MAX,
        linked(s, a, b),
    ensures
        linked(s.run(calls), a, b),
        s.run(calls).handles.contains_key(b) ==> s.handles.contains_key(b) && s.client(b).buffer
            + s.sent(calls, a) == s.received(calls, b) + s.run(calls).client(b).buffer,
    decreases calls.len(),
{
    if calls.len() == 0 {
        if s.handles.contains_key(b) {
            let buffer = s.client(b).buffer;
            assert(buffer + Seq::<u8>::empty() =~= Seq::<u8>::empty() + buffer);
        }
    } else {
        let before = calls.drop_last();
        let call = calls.last();
        let m = s.run(before);
        let t = s.run(calls);
        lemma_run_wf(s, before);
        lemma_run_conserves_bytes(s, before, a, b);
        lemma_step_conserves_bytes(m, call, a, b);
        assert(s.sent(calls, a) == s.sent(before, a) + sent_by(m, call, a)) by {
            assert(s.sent(before, a) + Seq::<u8>::empty() =~= s.sent(before, a));
        }
        assert(s.received(calls, b) == s.received(before, b) + received_by(m, call, b)) by {
            assert(s.received(before, b) + Seq::<u8>::empty() =~= s.received(before, b));
        }
        if t.handles.contains_key(b) {
            let b0 = s.client(b).buffer;
            let b1 = m.client(b).buffer;
            let b2 = t.client(b).buffer;
            assert((b0 + s.sent(before, a)) + sent_by(m, call, a) =~= b0 + (s.sent(before, a)
                + sent_by(m, call, a)));
            assert((s.received(before, b) + b1) + sent_by(m, call, a) =~= s.received(before, b)
                + (b1 + sent_by(m, call, a)));
            assert(s.received(before, b) + (received_by(m, call, b) + b2) =~= (s.received(
                before,
                b,
            ) + received_by(m, call, b)) + b2);
        }
    }
}

/// The bytes between a connected pair: over any sequence of requests from a
/// state in which `a` is connected to `b`, the bytes that `a` has written
/// are the bytes that `b` has read followed by the bytes in the buffer of
/// `b`, once those that stood in the buffer at the start are set aside.
pub proof fn lemma_connected_pair_conserves_bytes(
    s: ChanView,
    calls: Seq<Call>,
    a: usize,
    b: usize,
)
    requires
        s.wf(),
        s.next_id + calls.len() <= usize::MAX,
        s.is_client(a),
        s.client(a).remote == Connection::Open(b),
    ensures
        s.run(calls).handles.contains_key(b) ==> s.client(b).buffer + s.sent(calls, a)
            == s.received(calls, b) + s.run(calls).client(b).buffer,
{
    assert(s.handle_wf(a));
    assert(s.handle_wf(b));
    lemma_run_conserves_bytes(s, calls, a, b);
}

/// Accepting is the mirror of connecting: a listener made under a free name,
/// a client that opens the name and an accept on the listener leave the
/// client and the accepted handle connected to each other, with empty
/// buffers.
pub proof fn lemma_accept_connect_symmetry(
    s: ChanView,
    name: Seq<char>,
    server_flags: usize,
    client_flags: usize,
)
    requires
        s.wf(),
        s.next_id + 3 <= usize::MAX,
        name.len() > 0,
        !s.listeners.contains_key(name),
        is_set(server_flags, O_CREAT),
        !(is_set(client_flags, O_CREAT) && is_set(client_flags, O_EXCL)),
    ensures
        ({
            let server = s.next_id;
            let client = (s.next_id + 1) as usize;
            let accepted = (s.next_id + 2) as usize;
            let s1 = s.open(name, server_flags);
            let s2 = s1.next.open(name, client_flags);
            let s3 = s2.next.dup(server, listen_bytes());
            let t = s3.next;
            &&& s1.reply == Ok::<Option<usize>, Error>(Some(server))
            &&& s2.reply == Ok::<Option<usize>, Error>(Some(client))
            &&& s3.reply == Ok::<Option<usize>, Error>(Some(accepted))
            &&& t.wf()
            &&& t.is_client(client)
            &&& t.is_client(accepted)
            &&& t.client(client).remote == Connection::Open(accepted)
            &&& t.client(accepted).remote == Connection::Open(client)
            &&& t.client(client).buffer == Seq::<u8>::empty()
            &&& t.client(accepted).buffer == Seq::<u8>::empty()
            &&& t.handles[accepted].path == Some(name)
        }),
{
    let server = s.next_id;
    let client = (s.next_id + 1) as usize;
    let s1 = s.open(name, server_flags);
    lemma_open_wf(s, name, server_flags);
    let s2 = s1.next.open(name, client_flags);
    lemma_open_wf(s1.next, name, client_flags);
    lemma_dup_wf(s2.next, server, listen_bytes());
    let queue = s2.next.listener(server).awaiting;
    assert(queue =~= seq![client]);
    assert(s2.next.handles.contains_key(queue[0]));
    assert(stale_prefix(s2.next.handles.dom(), queue) == 0);
    assert(queue.skip(1) =~= Seq::<usize>::empty());
}

/// What one end writes is what the other end reads: after a write of `data`
/// into the empty buffer of a peer, a read by the peer delivers the start of
/// `data`, as much as fits.
pub proof fn lemma_written_is_read(
    s: ChanView,
    writer: usize,
    reader: usize,
    data: Seq<u8>,
    room: nat,
    flags: u32,
)
    requires
        s.wf(),
        s.is_client(writer),
        s.client(writer).remote == Connection::Open(reader),
        s.client(reader).buffer.len() == 0,
        data.len() <= usize::MAX,
    ensures
        s.write(writer, data, flags).reply == Ok::<Option<usize>, Error>(
            Some(data.len() as usize),
        ),
        s.write(writer, data, flags).next.readable(reader, room) == data.take(
            fit(room, data.len()) as int,
        ),
{
    assert(s.handle_wf(writer));
    assert(Seq::<u8>::empty() + data =~= data);
}

/// The end of a stream: closing a connected client leaves its peer with the
/// bytes it had, and with a peer that has closed.
pub proof fn lemma_close_ends_stream(s: ChanView, id: usize, peer: usize)
    requires
        s.wf(),
        s.is_client(id),
        s.client(id).remote == Connection::Open(peer),
    ensures
        s.close(id).reply == Ok::<Option<usize>, Error>(Some(0)),
        !s.close(id).next.handles.contains_key(id),
        s.close(id).next.is_client(peer),
        s.close(id).next.client(peer).remote is Closed,
        s.close(id).next.client(peer).buffer == s.client(peer).buffer,
{
    assert(s.handle_wf(id));
}

/// After the peer has closed, a read takes what fits from the front of the
/// buffer and leaves the rest; once the buffer is empty, every read
/// answers 0 and changes nothing. The peer stays closed.
pub proof fn lemma_read_after_close(s: ChanView, id: usize, room: nat, flags: u32)
    requires
        s.is_client(id),
        s.client(id).remote is Closed,
        s.client(id).buffer.len() <= usize::MAX,
    ensures
        ({
            let buffer = s.client(id).buffer;
            let n = fit(room, buffer.len());
            let step = s.read(id, room, flags);
            &&& step.reply == Ok::<Option<usize>, Error>(Some(n as usize))
            &&& s.readable(id, room) == buffer.take(n as int)
            &&& step.next.is_client(id)
            &&& step.next.client(id).remote is Closed
            &&& step.next.client(id).buffer == buffer.skip(n as int)
            &&& buffer.len() == 0 ==> step.next == s
        }),
{
    let buffer = s.client(id).buffer;
    if buffer.len() == 0 {
        assert(buffer.skip(0) =~= buffer);
    }
}

/// After the peer has closed, every write fails with a broken pipe and
/// changes nothing.
pub proof fn lemma_write_after_close(s: ChanView, id: usize, data: Seq<u8>, flags: u32)
    requires
        s.is_client(id),
        s.client(id).remote is Closed,
    ensures
        s.write(id, data, flags) == s.fail(Error::BrokenPipe),
{
}

/// A request that would block changes nothing, except that an accept drops
/// the ids of clients that have gone from the queue. Asked again at once, it
/// would block again.
pub proof fn lemma_would_block_is_pure(s: ChanView, call: Call)
    requires
        s.wf(),
        s.next_id < usize::MAX,
        s.step(call).reply == Ok::<Option<usize>, Error>(None),
    ensures
        s.step(call).next.events == s.events,
        s.step(call).next.listeners == s.listeners,
        s.step(call).next.next_id == s.next_id,
        !(call matches Call::Dup { id, sub } && sub == listen_bytes()) ==> s.step(call).next
            == s,
        s.step(call).next.step(call) == s.step(call).next.stay(Ok(None)),
{
    match call {
        Call::Dup { id, sub } => {
            if sub == listen_bytes() {
                let t = s.step(call).next;
                let empty = Seq::<usize>::empty();
                assert(stale_prefix(t.handles.dom(), empty) == 0);
                assert(t.handles.insert(id, t.handles[id].with_awaiting(empty)) =~= t.handles);
            } else if sub == connect_bytes() {
            } else {
            }
        },
        _ => {},
    }
}

/// Setting `O_NONBLOCK` on a handle turns "would block" into "again" for
/// reads, writes and accepts; clearing it turns "again" back into "would
/// block".
pub proof fn lemma_nonblock_flips(s: ChanView, id: usize, call: Call, set: usize, clear: usize)
    requires
        s.wf(),
        s.next_id < usize::MAX,
        is_set(set, O_NONBLOCK),
        !is_set(clear, O_NONBLOCK),
        match call {
            Call::Read { id: target, room, flags } => target == id && !is_set(
                flags as usize,
                O_NONBLOCK,
            ),
            Call::Write { id: target, data, flags } => target == id && !is_set(
                flags as usize,
                O_NONBLOCK,
            ),
            Call::Dup { id: target, sub } => target == id && sub == listen_bytes(),
            _ => false,
        },
        s.step(call).reply == Ok::<Option<usize>, Error>(None) || s.step(call).reply == Err::<
            Option<usize>,
            Error,
        >(Error::Again),
    ensures
        s.fcntl(id, F_SETFL, set).reply == Ok::<Option<usize>, Error>(Some(0)),
        s.fcntl(id, F_SETFL, set).next.step(call).reply == Err::<Option<usize>, Error>(
            Error::Again,
        ),
        s.fcntl(id, F_SETFL, clear).reply == Ok::<Option<usize>, Error>(Some(0)),
        s.fcntl(id, F_SETFL, clear).next.step(call).reply == Ok::<Option<usize>, Error>(None),
{
    let a = s.fcntl(id, F_SETFL, set).next;
    let b = s.fcntl(id, F_SETFL, clear).next;
    match call {
        Call::Dup { id: target, sub } => {
            let queue = s.listener(id).awaiting;
            assert(a.handles.dom() =~= s.handles.dom());
            assert(b.handles.dom() =~= s.handles.dom());
            lemma_stale_prefix(s.handles.dom(), queue);
        },
        _ => {},
    }
}

/// A buffer belongs to one client and its peer: a request leaves the bytes
/// of a client as they are, unless it is a write of the peer, which puts its
/// data at the end, or a read of the client itself, which takes what it
/// delivers from the front.
pub proof fn lemma_buffer_is_private(s: ChanView, call: Call, id: usize)
    requires
        s.wf(),
        s.next_id < usize::MAX,
        s.is_client(id),
        s.step(call).next.handles.contains_key(id),
    ensures
        s.step(call).next.is_client(id),
        ({
            let before = s.client(id).buffer;
            let after = s.step(call).next.client(id).buffer;
            ||| after == before
            ||| call matches Call::Write { id: writer, data, flags } && s.is_client(writer)
                && s.client(writer).remote == Connection::Open(id) && after == before + data
            ||| call matches Call::Read { id: reader, room, flags } && reader == id && after
                == before.skip(fit(room, before.len()) as int)
        }),
{
    assert(s.handle_wf(id));
    match call {
        Call::Dup { id: listener, sub } => {
            if sub == listen_bytes() && s.is_listener(listener) {
                let queue = s.listener(listener).awaiting;
                lemma_stale_prefix(s.handles.dom(), queue);
                assert(s.handle_wf(listener));
            }
        },
        Call::Write { id: writer, data, flags } => {
            if s.is_client(writer) {
                assert(s.handle_wf(writer));
            }
        },
        Call::Close { id: closed } => {
            if s.is_client(closed) {
                assert(s.handle_wf(closed));
            }
        },
        _ => {},
    }
}

/// An id is used once: a handle that a request makes gets the next free id,
/// which no handle before it had and which is never free again.
pub proof fn lemma_new_handles_get_new_ids(s: ChanView, call: Call, id: usize)
    requires
        s.wf(),
        s.next_id < usize::MAX,
        s.step(call).next.handles.contains_key(id),
        !s.handles.contains_key(id),
    ensures
        id == s.next_id,
        s.step(call).next.next_id == s.next_id + 1,
{
    match call {
        Call::Dup { id: listener, sub } => {
            if sub == listen_bytes() && s.is_listener(listener) {
                let queue = s.listener(listener).awaiting;
                lemma_stale_prefix(s.handles.dom(), queue);
            }
        },
        Call::Write { id: writer, data, flags } => {
            if s.is_client(writer) {
                assert(s.handle_wf(writer));
            }
        },
        Call::Close { id: closed } => {
            if s.is_client(closed) {
                assert(s.handle_wf(closed));
            }
        },
        _ => {},
    }
}

/// What the scheme owes and was paid, after a sequence of requests from the
/// state `s`: an id that was never given out has sent and received nothing;
/// neither has a client without a peer, whose buffer is empty; and what a
/// connected client has sent is what its peer has read followed by what
/// stands in the buffer of the peer.
pub open spec fn balanced(s: ChanView, calls: Seq<Call>) -> bool {
    let t = s.run(calls);
    &&& forall|id: usize|
        #![trigger s.sent(calls, id)]
        #![trigger s.received(calls, id)]
        id >= t.next_id ==> s.sent(calls, id) == Seq::<u8>::empty() && s.received(calls, id)
            == Seq::<u8>::empty()
    &&& forall|id: usize|
        #![trigger t.client(id)]
        t.is_client(id) && t.client(id).remote is Waiting ==> {
            &&& t.client(id).buffer == Seq::<u8>::empty()
            &&& s.sent(calls, id) == Seq::<u8>::empty()
            &&& s.received(calls, id) == Seq::<u8>::empty()
        }
    &&& forall|a: usize, b: usize|
        #![trigger s.sent(calls, a), s.received(calls, b)]
        t.is_client(a) && t.client(a).remote == Connection::Open(b) ==> s.sent(calls, a)
            == s.received(calls, b) + t.client(b).buffer
}

/// One more request keeps the books balanced.
pub proof fn lemma_balanced_step(s: ChanView, calls: Seq<Call>)
    requires
        calls.len() > 0,
        s.wf(),
        s.next_id + calls.len() <= usize::MAX,
        balanced(s, calls.drop_last()),
    ensures
        balanced(s, calls),
{
    let before = calls.drop_last();
    let call = calls.last();
    let m = s.run(before);
    let t = s.run(calls);
    let none = Seq::<u8>::empty();
    lemma_run_wf(s, before);
    lemma_step_wf(m, call);
    assert forall|id: usize| s.sent(calls, id) == s.sent(before, id) + sent_by(m, call, id)
        && s.received(calls, id) == s.received(before, id) + received_by(m, call, id) by {
        assert(s.sent(before, id) + none =~= s.sent(before, id));
        assert(s.received(before, id) + none =~= s.received(before, id));
    }
    // What the request itself has to say about queues.
    match call {
        Call::Dup { id: listener, sub } => {
            if sub == listen_bytes() && m.is_listener(listener) {
                let queue = m.listener(listener).awaiting;
                let k = stale_prefix(m.handles.dom(), queue) as int;
                lemma_stale_prefix(m.handles.dom(), queue);
                assert(m.handle_wf(listener));
                if k < queue.len() {
                    assert(m.waits(queue[k]));
                }
            }
        },
        _ => {},
    }
    assert forall|id: usize| id >= t.next_id implies s.sent(calls, id) == none && s.received(
        calls,
        id,
    ) == none by {
        assert(s.sent(before, id) == none && s.received(before, id) == none);
        if m.handles.contains_key(id) {
            assert(m.handle_wf(id));
        }
        assert(sent_by(m, call, id) =~= none);
        assert(received_by(m, call, id) =~= none);
        assert(none + none =~= none);
    }
    assert forall|id: usize| t.is_client(id) && t.client(id).remote is Waiting implies {
        &&& t.client(id).buffer == none
        &&& s.sent(calls, id) == none
        &&& s.received(calls, id) == none
    } by {
        if m.handles.contains_key(id) {
            assert(m.handle_wf(id));
            lemma_buffer_is_private(m, call, id);
            match call {
                Call::Write { id: writer, data, flags } => {
                    if m.is_client(writer) {
                        assert(m.handle_wf(writer));
                    }
                },
                Call::Close { id: closed } => {
                    if m.is_client(closed) {
                        assert(m.handle_wf(closed));
                    }
                },
                _ => {},
            }
            assert(m.is_client(id) && m.client(id).remote is Waiting);
            assert(m.client(id).buffer == none);
            assert(s.sent(before, id) == none && s.received(before, id) == none);
            assert(none.take(0) =~= none);
            assert(none.skip(0) =~= none);
            assert(sent_by(m, call, id) =~= none);
            assert(received_by(m, call, id) =~= none);
            assert(t.client(id).buffer =~= none);
        } else {
            lemma_new_handles_get_new_ids(m, call, id);
            assert(s.sent(before, id) == none && s.received(before, id) == none);
            assert(sent_by(m, call, id) =~= none);
            assert(received_by(m, call, id) =~= none);
            assert(t.client(id).buffer =~= none);
        }
        assert(none + none =~= none);
    }
    assert forall|a: usize, b: usize|
        t.is_client(a) && t.client(a).remote == Connection::Open(b) implies s.sent(calls, a)
        == s.received(calls, b) + t.client(b).buffer by {
        assert(t.handle_wf(a));
        if m.is_client(a) && m.client(a).remote == Connection::Open(b) {
            assert(m.handle_wf(a));
            assert(m.handle_wf(b));
            lemma_step_conserves_bytes(m, call, a, b);
            let b1 = m.client(b).buffer;
            let b2 = t.client(b).buffer;
            assert(s.sent(before, a) == s.received(before, b) + b1);
            assert((s.received(before, b) + b1) + sent_by(m, call, a) =~= s.received(before, b)
                + (b1 + sent_by(m, call, a)));
            assert(s.received(before, b) + (received_by(m, call, b) + b2) =~= (s.received(
                before,
                b,
            ) + received_by(m, call, b)) + b2);
        } else {
            // The pair is new: one end waited, the other is made by the
            // request, which is an accept.
            if m.handles.contains_key(a) {
                assert(m.handle_wf(a));
            }
            if m.handles.contains_key(b) {
                assert(m.handle_wf(b));
            }
            match call {
                Call::Write { id: writer, data, flags } => {
                    if m.is_client(writer) {
                        assert(m.handle_wf(writer));
                    }
                },
                Call::Close { id: closed } => {
                    if m.is_client(closed) {
                        assert(m.handle_wf(closed));
                    }
                },
                _ => {},
            }
            assert(call is Dup);
            assert(s.sent(before, a) == none && s.received(before, b) == none);
            assert(sent_by(m, call, a) =~= none);
            assert(received_by(m, call, b) =~= none);
            assert(t.client(b).buffer =~= none) by {
                if m.handles.contains_key(b) {
                    assert(m.client(b).buffer == none);
                }
            }
            assert(none + none =~= none);
        }
    }
}

/// The books are balanced after every sequence of requests.
pub proof fn lemma_balanced(s: ChanView, calls: Seq<Call>)
    requires
        s.wf(),
        s.next_id + calls.len() <= usize::MAX,
        balanced(s, Seq::<Call>::empty()),
    ensures
        balanced(s, calls),
    decreases calls.len(),
{
    if calls.len() == 0 {
        assert(calls =~= Seq::<Call>::empty());
    } else {
        lemma_balanced(s, calls.drop_last());
        lemma_balanced_step(s, calls);
    }
}

/// The bytes of every connected pair: after any sequence of requests from
/// the start of the scheme, the bytes that a connected client has written in
/// all its writes that were served are the bytes that its peer has read
/// followed by the bytes in the buffer of the peer.
pub proof fn lemma_bytes_invariant(calls: Seq<Call>, a: usize, b: usize)
    requires
        calls.len() <= usize::MAX,
        ChanView::empty().run(calls).is_client(a),
        ChanView::empty().run(calls).client(a).remote == Connection::Open(b),
    ensures
        ChanView::empty().sent(calls, a) == ChanView::empty().received(calls, b)
            + ChanView::empty().run(calls).client(b).buffer,
{
    lemma_empty_wf();
    lemma_balanced(ChanView::empty(), calls);
}

} // verus!
