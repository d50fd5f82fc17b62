use ipcd::chan::Fevent;
use ipcd::error::Error;
use ipcd::flags::{EVENT_READ, EVENT_WRITE, F_GETFL, F_SETFL, O_CREAT, O_EXCL, O_NONBLOCK};
use ipcd::scheme::IpcScheme;

fn slot_pair(ipc: &mut IpcScheme) -> (usize, usize, usize) {
    let server = ipc.open(b"hw", O_CREAT, 0, 0).unwrap().unwrap();
    let client = ipc.open(b"hw", 0, 0, 0).unwrap().unwrap();
    let accepted = ipc.dup(server, b"listen").unwrap().unwrap();
    (server, client, accepted)
}

#[test]
fn accept_after_peer_closed() {
    let mut ipc = IpcScheme::default();
    let server = ipc.open(b"hw", O_CREAT, 0, 0).unwrap().unwrap();
    let client = ipc.open(b"hw", 0, 0, 0).unwrap().unwrap();
    assert_eq!(ipc.close(client), Ok(Some(0)));
    assert_eq!(ipc.dup(server, b"listen"), Err(Error::ConnectionReset));
    // The listener is free again.
    assert_eq!(ipc.dup(server, b"listen"), Ok(None));
    let next = ipc.open(b"hw", 0, 0, 0).unwrap().unwrap();
    assert_eq!(ipc.dup(server, b"listen"), Ok(Some(next + 1)));
}

#[test]
fn slot_round_trip() {
    let mut ipc = IpcScheme::default();
    let (_server, client, a) = slot_pair(&mut ipc);
    assert_eq!(ipc.write(a, b"abc"), Ok(Some(3)));
    let mut buf = [0u8; 5];
    assert_eq!(ipc.read(client, &mut buf), Ok(Some(3)));
    assert_eq!(&buf[..3], b"abc");
    assert_eq!(ipc.write(client, b"de"), Ok(Some(2)));
    assert_eq!(ipc.read(a, &mut buf), Ok(Some(2)));
    assert_eq!(&buf[..2], b"de");
}

#[test]
fn slot_close_propagation() {
    let mut ipc = IpcScheme::default();
    let (_server, client, a) = slot_pair(&mut ipc);
    assert_eq!(ipc.close(client), Ok(Some(0)));
    assert_eq!(ipc.write(a, b"x"), Err(Error::BrokenPipe));
    let mut buf = [0u8; 5];
    assert_eq!(ipc.read(a, &mut buf), Ok(Some(0)));
}

#[test]
fn second_waiter_is_refused() {
    let mut ipc = IpcScheme::default();
    let server = ipc.open(b"hw", O_CREAT, 0, 0).unwrap().unwrap();
    let first = ipc.open(b"hw", 0, 0, 0).unwrap().unwrap();
    assert_eq!(ipc.open(b"hw", 0, 0, 0), Err(Error::ConnectionRefused));
    assert_eq!(ipc.dup(server, b"connect"), Err(Error::ConnectionRefused));
    // No id was spent on the refused clients.
    assert_eq!(ipc.next_id(), first + 1);
    let a = ipc.dup(server, b"listen").unwrap().unwrap();
    assert_eq!(a, first + 1);
    // After the accept the slot is free.
    assert_eq!(ipc.dup(server, b"connect"), Ok(Some(a + 1)));
}

#[test]
fn slot_open_errors() {
    let mut ipc = IpcScheme::default();
    assert_eq!(ipc.open(&[0xff, 0xfe], O_CREAT, 0, 0), Err(Error::Permission));
    assert_eq!(ipc.open(&[0xc3], 0, 0, 0), Err(Error::Permission));
    assert_eq!(ipc.open(b"hw", 0, 0, 0), Err(Error::NotFound));
    assert_eq!(ipc.open(b"hw", O_CREAT, 0, 0), Ok(Some(0)));
    assert_eq!(ipc.open(b"hw", O_CREAT | O_EXCL, 0, 0), Err(Error::AlreadyExists));
    // Without O_EXCL a taken name is connected to.
    assert_eq!(ipc.open(b"hw", O_CREAT, 0, 0), Ok(Some(1)));
    assert_eq!(ipc.open(b"hw", O_CREAT, 0, 0), Err(Error::ConnectionRefused));
    // Unnamed listeners are not bound.
    assert_eq!(ipc.open(b"", O_CREAT, 0, 0), Ok(Some(2)));
    assert_eq!(ipc.open(b"", O_CREAT | O_EXCL, 0, 0), Ok(Some(3)));
    assert_eq!(ipc.open(b"", 0, 0, 0), Err(Error::NotFound));
}

#[test]
fn slot_dup_errors() {
    let mut ipc = IpcScheme::default();
    let (server, client, _a) = slot_pair(&mut ipc);
    assert_eq!(ipc.dup(server, b"other"), Err(Error::BadFile));
    assert_eq!(ipc.dup(server, b""), Err(Error::BadFile));
    assert_eq!(ipc.dup(client, b"listen"), Err(Error::BadFile));
    assert_eq!(ipc.dup(client, b"connect"), Err(Error::BadFile));
    assert_eq!(ipc.dup(77, b"listen"), Err(Error::BadFile));
    assert_eq!(ipc.dup(77, b"connect"), Err(Error::BadFile));
}

#[test]
fn slot_nonblock() {
    let mut ipc = IpcScheme::default();
    let server = ipc.open(b"", O_CREAT, 0, 0).unwrap().unwrap();
    assert_eq!(ipc.dup(server, b"listen"), Ok(None));
    assert_eq!(ipc.fcntl(server, F_SETFL, O_NONBLOCK), Ok(Some(0)));
    assert_eq!(ipc.fcntl(server, F_GETFL, 0), Ok(Some(O_NONBLOCK)));
    assert_eq!(ipc.dup(server, b"listen"), Err(Error::Again));
    assert_eq!(ipc.fcntl(server, 9, 0), Err(Error::InvalidArgument));
    let client = ipc.dup(server, b"connect").unwrap().unwrap();
    let mut buf = [0u8; 2];
    assert_eq!(ipc.read(client, &mut buf), Ok(None));
    assert_eq!(ipc.write(client, b"x"), Ok(None));
    assert_eq!(ipc.fcntl(client, F_SETFL, O_NONBLOCK), Ok(Some(0)));
    assert_eq!(ipc.read(client, &mut buf), Err(Error::Again));
    assert_eq!(ipc.write(client, b"x"), Err(Error::Again));
}

#[test]
fn slot_role_errors() {
    let mut ipc = IpcScheme::default();
    let (server, _client, _a) = slot_pair(&mut ipc);
    let mut buf = [0u8; 2];
    assert_eq!(ipc.read(server, &mut buf), Err(Error::BadFile));
    assert_eq!(ipc.write(server, b"x"), Err(Error::BadFile));
    assert_eq!(ipc.read(50, &mut buf), Err(Error::BadFile));
    assert_eq!(ipc.write(50, b"x"), Err(Error::BadFile));
    assert_eq!(ipc.close(50), Err(Error::BadFile));
    assert_eq!(ipc.fcntl(50, F_GETFL, 0), Err(Error::BadFile));
    assert_eq!(ipc.fevent(50, 0), Err(Error::BadFile));
    assert_eq!(ipc.fsync(50), Err(Error::BadFile));
    assert_eq!(ipc.fsync(server), Ok(Some(server)));
}

#[test]
fn rounds_report_new_readiness_once() {
    let mut ipc = IpcScheme::default();
    let server = ipc.open(b"hw", O_CREAT, 0, 0).unwrap().unwrap();
    assert_eq!(ipc.post_fevents(), vec![]);
    let client = ipc.open(b"hw", 0, 0, 0).unwrap().unwrap();
    // A listener with a client in reach is writable.
    assert_eq!(ipc.post_fevents(), vec![Fevent { id: server, flags: EVENT_WRITE }]);
    assert_eq!(ipc.post_fevents(), vec![]);
    let a = ipc.dup(server, b"listen").unwrap().unwrap();
    assert_eq!(
        ipc.post_fevents(),
        vec![Fevent { id: client, flags: EVENT_WRITE }, Fevent { id: a, flags: EVENT_WRITE }]
    );
    assert_eq!(ipc.write(a, b"x"), Ok(Some(1)));
    assert_eq!(ipc.post_fevents(), vec![Fevent { id: client, flags: EVENT_READ }]);
    assert_eq!(ipc.post_fevents(), vec![]);
    let mut buf = [0u8; 4];
    assert_eq!(ipc.read(client, &mut buf), Ok(Some(1)));
    // The round notes that the client is no longer readable.
    assert_eq!(ipc.post_fevents(), vec![]);
    assert_eq!(ipc.write(a, b"y"), Ok(Some(1)));
    assert_eq!(ipc.post_fevents(), vec![Fevent { id: client, flags: EVENT_READ }]);
    // Another client makes the listener writable again.
    let second = ipc.open(b"hw", 0, 0, 0).unwrap().unwrap();
    assert_eq!(ipc.post_fevents(), vec![Fevent { id: server, flags: EVENT_WRITE }]);
    let _ = second;
}

#[test]
fn subscribing_reports_again() {
    let mut ipc = IpcScheme::default();
    let (_server, client, a) = slot_pair(&mut ipc);
    assert_eq!(ipc.write(a, b"x"), Ok(Some(1)));
    assert_eq!(
        ipc.post_fevents(),
        vec![
            Fevent { id: client, flags: EVENT_WRITE },
            Fevent { id: client, flags: EVENT_READ },
            Fevent { id: a, flags: EVENT_WRITE },
        ]
    );
    assert_eq!(ipc.post_fevents(), vec![]);
    assert_eq!(ipc.fevent(client, 0), Ok(Some(client)));
    assert_eq!(
        ipc.post_fevents(),
        vec![Fevent { id: client, flags: EVENT_WRITE }, Fevent { id: client, flags: EVENT_READ }]
    );
}

#[test]
fn rounds_go_by_rising_id_after_closes() {
    let mut ipc = IpcScheme::default();
    let s1 = ipc.open(b"a", O_CREAT, 0, 0).unwrap().unwrap();
    let s2 = ipc.open(b"b", O_CREAT, 0, 0).unwrap().unwrap();
    let s3 = ipc.open(b"c", O_CREAT, 0, 0).unwrap().unwrap();
    let c1 = ipc.open(b"a", 0, 0, 0).unwrap().unwrap();
    let c2 = ipc.open(b"b", 0, 0, 0).unwrap().unwrap();
    let c3 = ipc.open(b"c", 0, 0, 0).unwrap().unwrap();
    assert_eq!(ipc.close(s2), Ok(Some(0)));
    assert_eq!(
        ipc.post_fevents(),
        vec![Fevent { id: s1, flags: EVENT_WRITE }, Fevent { id: s3, flags: EVENT_WRITE }]
    );
    assert_eq!(ipc.close(c1), Ok(Some(0)));
    assert_eq!(ipc.close(s1), Ok(Some(0)));
    assert_eq!(ipc.close(c3), Ok(Some(0)));
    assert_eq!(ipc.fevent(s3, 0), Ok(Some(s3)));
    assert_eq!(ipc.post_fevents(), vec![Fevent { id: s3, flags: EVENT_WRITE }]);
    let _ = c2;
}

#[test]
fn end_of_stream_is_readable() {
    let mut ipc = IpcScheme::default();
    let (_server, client, a) = slot_pair(&mut ipc);
    ipc.post_fevents();
    assert_eq!(ipc.close(a), Ok(Some(0)));
    assert_eq!(ipc.post_fevents(), vec![Fevent { id: client, flags: EVENT_READ }]);
    let mut buf = [0u8; 1];
    assert_eq!(ipc.read(client, &mut buf), Ok(Some(0)));
}
