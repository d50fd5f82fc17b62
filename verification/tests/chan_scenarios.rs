use ipcd::chan::{ChanScheme, Fevent};
use ipcd::error::Error;
use ipcd::flags::{EVENT_READ, EVENT_WRITE, F_GETFL, F_SETFL, O_CREAT, O_EXCL, O_NONBLOCK};

fn pair(chan: &mut ChanScheme) -> (usize, usize, usize) {
    let server = chan.open("hw", O_CREAT, 0, 0).unwrap().unwrap();
    let client = chan.open("hw", 0, 0, 0).unwrap().unwrap();
    let accepted = chan.dup(server, b"listen").unwrap().unwrap();
    (server, client, accepted)
}

#[test]
fn basic_round_trip() {
    let mut chan = ChanScheme::new();
    let (_server, client, a) = pair(&mut chan);
    assert_eq!(chan.write(a, b"abc", 0, 0), Ok(Some(3)));
    let mut buf = [0u8; 5];
    assert_eq!(chan.read(client, &mut buf, 0, 0), Ok(Some(3)));
    assert_eq!(&buf[..3], b"abc");
    assert_eq!(&buf[3..], &[0u8, 0u8]);
}

#[test]
fn close_propagation() {
    let mut chan = ChanScheme::new();
    let (_server, client, a) = pair(&mut chan);
    assert_eq!(chan.close(client), Ok(Some(0)));
    assert_eq!(chan.write(a, b"x", 0, 0), Err(Error::BrokenPipe));
    let mut buf = [0u8; 5];
    assert_eq!(chan.read(a, &mut buf, 0, 0), Ok(Some(0)));
    assert_eq!(buf, [0u8; 5]);
}

#[test]
fn alternative_connect() {
    let mut chan = ChanScheme::new();
    let server = chan.open("hw", O_CREAT, 0, 0).unwrap().unwrap();
    let client = chan.dup(server, b"connect").unwrap().unwrap();
    let a = chan.dup(server, b"listen").unwrap().unwrap();
    assert_eq!(chan.write(a, b"abc", 0, 0), Ok(Some(3)));
    let mut buf = [0u8; 5];
    assert_eq!(chan.read(client, &mut buf, 0, 0), Ok(Some(3)));
    assert_eq!(&buf[..3], b"abc");
    assert_eq!(chan.write(client, b"de", 0, 0), Ok(Some(2)));
    assert_eq!(chan.read(a, &mut buf, 0, 0), Ok(Some(2)));
    assert_eq!(&buf[..2], b"de");
}

#[test]
fn non_blocking_accept() {
    let mut chan = ChanScheme::new();
    let server = chan.open("", O_CREAT, 0, 0).unwrap().unwrap();
    assert_eq!(chan.dup(server, b"listen"), Ok(None));
    assert_eq!(chan.fcntl(server, F_SETFL, O_NONBLOCK), Ok(Some(0)));
    assert_eq!(chan.dup(server, b"listen"), Err(Error::Again));
}

#[test]
fn event_driven_readable() {
    let mut chan = ChanScheme::new();
    let (server, client, a) = pair(&mut chan);
    assert_eq!(
        chan.take_events(),
        vec![
            Fevent { id: server, flags: EVENT_READ | EVENT_WRITE },
            Fevent { id: client, flags: EVENT_WRITE },
        ]
    );
    assert_eq!(chan.write(a, b"hello", 0, 0), Ok(Some(5)));
    assert_eq!(chan.take_events(), vec![Fevent { id: client, flags: EVENT_READ }]);
    // A second write while bytes are still buffered raises nothing.
    assert_eq!(chan.write(a, b"!", 0, 0), Ok(Some(1)));
    assert_eq!(chan.take_events(), vec![]);
    let mut buf = [0u8; 16];
    assert_eq!(chan.read(client, &mut buf, 0, 0), Ok(Some(6)));
    assert_eq!(&buf[..6], b"hello!");
    // The buffer is drained: the next write raises the event again.
    assert_eq!(chan.write(a, b"again", 0, 0), Ok(Some(5)));
    assert_eq!(chan.take_events(), vec![Fevent { id: client, flags: EVENT_READ }]);
}

#[test]
fn accept_skips_a_client_that_closed() {
    let mut chan = ChanScheme::new();
    let server = chan.open("hw", O_CREAT, 0, 0).unwrap().unwrap();
    let gone = chan.open("hw", 0, 0, 0).unwrap().unwrap();
    let alive = chan.open("hw", 0, 0, 0).unwrap().unwrap();
    assert_eq!(chan.close(gone), Ok(Some(0)));
    let a = chan.dup(server, b"listen").unwrap().unwrap();
    assert_eq!(chan.write(a, b"hi", 0, 0), Ok(Some(2)));
    let mut buf = [0u8; 2];
    assert_eq!(chan.read(alive, &mut buf, 0, 0), Ok(Some(2)));
    assert_eq!(&buf, b"hi");
    // Nobody is left to accept.
    assert_eq!(chan.dup(server, b"listen"), Ok(None));
}

#[test]
fn accept_with_only_closed_clients_would_block() {
    let mut chan = ChanScheme::new();
    let server = chan.open("hw", O_CREAT, 0, 0).unwrap().unwrap();
    let client = chan.open("hw", 0, 0, 0).unwrap().unwrap();
    assert_eq!(chan.close(client), Ok(Some(0)));
    assert_eq!(chan.dup(server, b"listen"), Ok(None));
    assert_eq!(chan.fevent(server, 0), Ok(Some(0)));
}

#[test]
fn open_errors() {
    let mut chan = ChanScheme::new();
    assert_eq!(chan.open("hw", 0, 0, 0), Err(Error::NotFound));
    assert_eq!(chan.open("", 0, 0, 0), Err(Error::NotFound));
    let server = chan.open("hw", O_CREAT, 0, 0).unwrap().unwrap();
    assert_eq!(server, 0);
    assert_eq!(chan.open("hw", O_CREAT | O_EXCL, 0, 0), Err(Error::AlreadyExists));
    // Without O_EXCL an existing name is connected to.
    assert_eq!(chan.open("hw", O_CREAT, 0, 0), Ok(Some(1)));
    assert_eq!(chan.next_id(), 2);
    // An unnamed listener is not in the registry.
    assert_eq!(chan.open("", O_CREAT, 0, 0), Ok(Some(2)));
    assert_eq!(chan.open("", 0, 0, 0), Err(Error::NotFound));
    assert_eq!(chan.open("", O_CREAT | O_EXCL, 0, 0), Ok(Some(3)));
}

#[test]
fn role_errors() {
    let mut chan = ChanScheme::new();
    let (server, client, _a) = pair(&mut chan);
    let mut buf = [0u8; 4];
    assert_eq!(chan.read(server, &mut buf, 0, 0), Err(Error::BadFile));
    assert_eq!(chan.write(server, b"x", 0, 0), Err(Error::BadFile));
    assert_eq!(chan.dup(client, b"listen"), Err(Error::BadFile));
    assert_eq!(chan.dup(client, b"connect"), Err(Error::BadFile));
    assert_eq!(chan.read(99, &mut buf, 0, 0), Err(Error::BadFile));
    assert_eq!(chan.write(99, b"x", 0, 0), Err(Error::BadFile));
    assert_eq!(chan.close(99), Err(Error::BadFile));
    assert_eq!(chan.dup(99, b"listen"), Err(Error::BadFile));
    assert_eq!(chan.dup(99, b"connect"), Err(Error::BadFile));
    assert_eq!(chan.dup(99, b"name"), Err(Error::BadFile));
    assert_eq!(chan.fcntl(99, F_GETFL, 0), Err(Error::BadFile));
    assert_eq!(chan.fevent(99, 0), Err(Error::BadFile));
    assert_eq!(chan.fsync(99), Err(Error::BadFile));
    assert_eq!(chan.fpath(99, &mut buf), Err(Error::BadFile));
    // The name of the scheme is written before the handle is looked at.
    assert_eq!(&buf, b"chan");
}

#[test]
fn fcntl_reads_and_replaces_flags() {
    let mut chan = ChanScheme::new();
    let server = chan.open("hw", O_CREAT, 0, 0).unwrap().unwrap();
    assert_eq!(chan.fcntl(server, F_GETFL, 0), Ok(Some(O_CREAT)));
    assert_eq!(chan.fcntl(server, F_SETFL, O_NONBLOCK), Ok(Some(0)));
    assert_eq!(chan.fcntl(server, F_GETFL, 0), Ok(Some(O_NONBLOCK)));
    assert_eq!(chan.fcntl(server, 7, 0), Err(Error::InvalidArgument));
}

#[test]
fn nonblock_flips_read_and_write() {
    let mut chan = ChanScheme::new();
    let server = chan.open("hw", O_CREAT, 0, 0).unwrap().unwrap();
    let client = chan.open("hw", 0, 0, 0).unwrap().unwrap();
    let mut buf = [0u8; 4];
    // Not accepted yet: both directions would block.
    assert_eq!(chan.read(client, &mut buf, 0, 0), Ok(None));
    assert_eq!(chan.write(client, b"x", 0, 0), Ok(None));
    assert_eq!(chan.fcntl(client, F_SETFL, O_NONBLOCK), Ok(Some(0)));
    assert_eq!(chan.read(client, &mut buf, 0, 0), Err(Error::Again));
    assert_eq!(chan.write(client, b"x", 0, 0), Err(Error::Again));
    assert_eq!(chan.fcntl(client, F_SETFL, 0), Ok(Some(0)));
    assert_eq!(chan.read(client, &mut buf, 0, 0), Ok(None));
    assert_eq!(chan.write(client, b"x", 0, 0), Ok(None));
    // The flags of the call count as well.
    assert_eq!(chan.read(client, &mut buf, 0, O_NONBLOCK as u32), Err(Error::Again));
    assert_eq!(chan.write(client, b"x", 0, O_NONBLOCK as u32), Err(Error::Again));
    let _ = server;
}

#[test]
fn read_takes_what_fits_and_keeps_the_rest() {
    let mut chan = ChanScheme::new();
    let (_server, client, a) = pair(&mut chan);
    assert_eq!(chan.write(a, b"abcdef", 0, 0), Ok(Some(6)));
    let mut buf = [b'.'; 4];
    assert_eq!(chan.read(client, &mut buf, 0, 0), Ok(Some(4)));
    assert_eq!(&buf, b"abcd");
    let mut buf = [b'.'; 4];
    assert_eq!(chan.read(client, &mut buf, 0, 0), Ok(Some(2)));
    assert_eq!(&buf, b"ef..");
    assert_eq!(chan.read(client, &mut buf, 0, 0), Ok(None));
}

#[test]
fn eof_after_buffered_bytes() {
    let mut chan = ChanScheme::new();
    let (_server, client, a) = pair(&mut chan);
    assert_eq!(chan.write(a, b"bye", 0, 0), Ok(Some(3)));
    assert_eq!(chan.close(a), Ok(Some(0)));
    let mut buf = [0u8; 2];
    assert_eq!(chan.read(client, &mut buf, 0, 0), Ok(Some(2)));
    assert_eq!(&buf, b"by");
    assert_eq!(chan.read(client, &mut buf, 0, 0), Ok(Some(1)));
    assert_eq!(buf[0], b'e');
    assert_eq!(chan.read(client, &mut buf, 0, 0), Ok(Some(0)));
    assert_eq!(chan.read(client, &mut buf, 0, 0), Ok(Some(0)));
    assert_eq!(chan.write(client, b"x", 0, 0), Err(Error::BrokenPipe));
}

#[test]
fn close_raises_readable_only_on_an_empty_buffer() {
    let mut chan = ChanScheme::new();
    let (_server, client, a) = pair(&mut chan);
    chan.take_events();
    assert_eq!(chan.write(a, b"x", 0, 0), Ok(Some(1)));
    chan.take_events();
    assert_eq!(chan.close(a), Ok(Some(0)));
    assert_eq!(chan.take_events(), vec![]);

    let mut chan = ChanScheme::new();
    let (_server, client2, a2) = pair(&mut chan);
    chan.take_events();
    assert_eq!(chan.close(a2), Ok(Some(0)));
    assert_eq!(chan.take_events(), vec![Fevent { id: client2, flags: EVENT_READ }]);
    let _ = client;
}

#[test]
fn fevent_masks() {
    let mut chan = ChanScheme::new();
    let server = chan.open("hw", O_CREAT, 0, 0).unwrap().unwrap();
    assert_eq!(chan.fevent(server, 0), Ok(Some(0)));
    let client = chan.open("hw", 0, 0, 0).unwrap().unwrap();
    assert_eq!(chan.fevent(server, 0), Ok(Some(EVENT_READ | EVENT_WRITE)));
    assert_eq!(chan.fevent(client, 0), Ok(Some(0)));
    let a = chan.dup(server, b"listen").unwrap().unwrap();
    assert_eq!(chan.fevent(server, 0), Ok(Some(0)));
    assert_eq!(chan.fevent(client, 0), Ok(Some(EVENT_WRITE)));
    assert_eq!(chan.fevent(a, 0), Ok(Some(EVENT_WRITE)));
    assert_eq!(chan.write(a, b"x", 0, 0), Ok(Some(1)));
    assert_eq!(chan.fevent(client, 0), Ok(Some(EVENT_READ | EVENT_WRITE)));
    assert_eq!(chan.close(a), Ok(Some(0)));
    assert_eq!(chan.fevent(client, 0), Ok(Some(EVENT_READ)));
}

#[test]
fn fpath_tells_the_listener_name() {
    let mut chan = ChanScheme::new();
    let (server, client, a) = pair(&mut chan);
    let mut buf = [b'.'; 10];
    assert_eq!(chan.fpath(a, &mut buf), Ok(Some(7)));
    assert_eq!(&buf, b"chan:hw...");
    let mut small = [b'.'; 6];
    assert_eq!(chan.fpath(a, &mut small), Ok(Some(6)));
    assert_eq!(&small, b"chan:h");
    let mut tiny = [b'.'; 3];
    assert_eq!(chan.fpath(a, &mut tiny), Ok(Some(3)));
    assert_eq!(&tiny, b"cha");
    let mut none: [u8; 0] = [];
    assert_eq!(chan.fpath(a, &mut none), Ok(Some(0)));
    // Only accepted clients of a named listener have a path.
    let mut buf = [b'.'; 10];
    assert_eq!(chan.fpath(server, &mut buf), Err(Error::BadFile));
    assert_eq!(&buf, b"chan:.....");
    let mut tiny = [b'.'; 3];
    assert_eq!(chan.fpath(client, &mut tiny), Err(Error::BadFile));
    assert_eq!(&tiny, b"cha");
}

#[test]
fn fpath_of_a_name_beyond_ascii() {
    let mut chan = ChanScheme::new();
    let server = chan.open("h\u{e9}", O_CREAT, 0, 0).unwrap().unwrap();
    let _client = chan.open("h\u{e9}", 0, 0, 0).unwrap().unwrap();
    let a = chan.dup(server, b"listen").unwrap().unwrap();
    let mut buf = [0u8; 16];
    assert_eq!(chan.fpath(a, &mut buf), Ok(Some(8)));
    assert_eq!(&buf[..8], "chan:h\u{e9}".as_bytes());
}

#[test]
fn fsync_answers_the_id() {
    let mut chan = ChanScheme::new();
    let (server, client, a) = pair(&mut chan);
    assert_eq!(chan.fsync(server), Ok(Some(server)));
    assert_eq!(chan.fsync(client), Ok(Some(client)));
    assert_eq!(chan.fsync(a), Ok(Some(a)));
}

#[test]
fn dup_with_a_name_opens_it_with_the_handle_flags() {
    let mut chan = ChanScheme::new();
    let unnamed = chan.open("", O_CREAT, 0, 0).unwrap().unwrap();
    // The unnamed listener carries O_CREAT, so the name is created.
    let named = chan.dup(unnamed, b"late").unwrap().unwrap();
    assert_eq!(chan.fcntl(named, F_GETFL, 0), Ok(Some(O_CREAT)));
    let client = chan.open("late", 0, 0, 0).unwrap().unwrap();
    assert_eq!(chan.fevent(named, 0), Ok(Some(EVENT_READ | EVENT_WRITE)));
    let a = chan.dup(named, b"listen").unwrap().unwrap();
    assert_eq!(chan.write(client, b"ok", 0, 0), Ok(Some(2)));
    let mut buf = [0u8; 2];
    assert_eq!(chan.read(a, &mut buf, 0, 0), Ok(Some(2)));
    // An accepted client descends from a named listener and cannot bind.
    assert_eq!(chan.dup(a, b"other"), Err(Error::BadFile));
    // Empty and ill-formed names are refused.
    assert_eq!(chan.dup(unnamed, b""), Err(Error::BadFile));
    assert_eq!(chan.dup(unnamed, &[0xff, 0xfe]), Err(Error::BadFile));
    // A client without flags looks the name up and finds none.
    assert_eq!(chan.dup(client, b"nowhere"), Err(Error::NotFound));
}

#[test]
fn closing_a_listener_frees_its_name() {
    let mut chan = ChanScheme::new();
    let server = chan.open("hw", O_CREAT, 0, 0).unwrap().unwrap();
    let waiting = chan.open("hw", 0, 0, 0).unwrap().unwrap();
    assert_eq!(chan.close(server), Ok(Some(0)));
    assert_eq!(chan.open("hw", 0, 0, 0), Err(Error::NotFound));
    // The client that waited is still there, without a peer.
    let mut buf = [0u8; 1];
    assert_eq!(chan.read(waiting, &mut buf, 0, 0), Ok(None));
    assert_eq!(chan.open("hw", O_CREAT | O_EXCL, 0, 0), Ok(Some(2)));
}

#[test]
fn accept_is_first_come_first_served() {
    let mut chan = ChanScheme::new();
    let server = chan.open("hw", O_CREAT, 0, 0).unwrap().unwrap();
    let first = chan.open("hw", 0, 0, 0).unwrap().unwrap();
    let second = chan.open("hw", 0, 0, 0).unwrap().unwrap();
    let a = chan.dup(server, b"listen").unwrap().unwrap();
    let b = chan.dup(server, b"listen").unwrap().unwrap();
    assert_eq!(chan.write(a, b"1", 0, 0), Ok(Some(1)));
    assert_eq!(chan.write(b, b"2", 0, 0), Ok(Some(1)));
    let mut buf = [0u8; 1];
    assert_eq!(chan.read(first, &mut buf, 0, 0), Ok(Some(1)));
    assert_eq!(buf[0], b'1');
    assert_eq!(chan.read(second, &mut buf, 0, 0), Ok(Some(1)));
    assert_eq!(buf[0], b'2');
}

#[test]
fn empty_write_to_an_empty_buffer_raises_readable() {
    let mut chan = ChanScheme::new();
    let (_server, client, a) = pair(&mut chan);
    chan.take_events();
    assert_eq!(chan.write(a, b"", 0, 0), Ok(Some(0)));
    assert_eq!(chan.take_events(), vec![Fevent { id: client, flags: EVENT_READ }]);
}
