use ipcd::chan::{ChanScheme, Client, Connection, Extra, Handle, Listener};
use ipcd::error::Error;
use ipcd::flags::O_CREAT;
use ipcd::scheme::IpcScheme;

#[test]
fn a_fresh_handle_is_a_client_without_a_peer() {
    let mut handle = Handle::default();
    assert!(handle.require_client().is_ok());
    assert_eq!(handle.require_listener().err(), Some(Error::BadFile));
    assert_eq!(handle.connect(3), Err(Error::BadFile));
    assert_eq!(Connection::default(), Connection::Waiting);
    assert!(matches!(Extra::default(), Extra::Client(_)));
    let _ = (Client::default(), Listener::default());
}

#[test]
fn an_accepted_handle_is_a_client() {
    let listener = Handle::default();
    let mut accepted = listener.accept(7);
    assert!(accepted.require_client().is_ok());
    assert!(accepted.require_listener().is_err());
}

#[test]
fn a_fresh_slot_handle_is_a_client_without_a_peer() {
    let mut handle = ipcd::scheme::Handle::default();
    assert_eq!(handle.require_client(), Ok(()));
    assert_eq!(handle.require_listener(), Err(Error::BadFile));
    let mut taken = handle.accept();
    assert_eq!(taken.require_client(), Ok(()));
    assert_eq!(taken.accept().require_listener(), Err(Error::BadFile));
    assert_eq!(ipcd::scheme::Connection::default(), ipcd::scheme::Connection::Waiting);
    assert!(matches!(ipcd::scheme::Extra::default(), ipcd::scheme::Extra::Client(_)));
}

#[test]
fn ids_are_given_out_in_order_and_never_again() {
    let mut chan = ChanScheme::new();
    assert_eq!(chan.next_id(), 0);
    let server = chan.open("hw", O_CREAT, 0, 0).unwrap().unwrap();
    let client = chan.open("hw", 0, 0, 0).unwrap().unwrap();
    assert_eq!((server, client), (0, 1));
    assert_eq!(chan.close(client), Ok(Some(0)));
    assert_eq!(chan.close(server), Ok(Some(0)));
    // Failed requests spend no id.
    assert_eq!(chan.open("hw", 0, 0, 0), Err(Error::NotFound));
    assert_eq!(chan.open("hw", O_CREAT, 0, 0), Ok(Some(2)));
    assert_eq!(chan.next_id(), 3);

    let mut ipc = IpcScheme::default();
    assert_eq!(ipc.next_id(), 0);
    assert_eq!(ipc.open(b"hw", O_CREAT, 0, 0), Ok(Some(0)));
    assert_eq!(ipc.close(0), Ok(Some(0)));
    assert_eq!(ipc.open(b"hw", O_CREAT, 0, 0), Ok(Some(1)));
}

#[test]
fn bytes_arrive_in_order_without_loss() {
    let mut chan = ChanScheme::new();
    let server = chan.open("hw", O_CREAT, 0, 0).unwrap().unwrap();
    let client = chan.open("hw", 0, 0, 0).unwrap().unwrap();
    let a = chan.dup(server, b"listen").unwrap().unwrap();
    let mut written: Vec<u8> = vec![];
    let mut read: Vec<u8> = vec![];
    let mut buf = [0u8; 3];
    for round in 0..20u8 {
        let chunk: Vec<u8> =
            (0..round % 5).map(|i| round.wrapping_mul(7).wrapping_add(i)).collect();
        assert_eq!(chan.write(a, &chunk, 0, 0), Ok(Some(chunk.len())));
        written.extend_from_slice(&chunk);
        // Other traffic in between changes nothing.
        assert_eq!(chan.write(client, b"noise", 0, 0), Ok(Some(5)));
        if round % 3 == 0 {
            match chan.read(client, &mut buf, 0, 0) {
                Ok(Some(n)) => read.extend_from_slice(&buf[..n]),
                Ok(None) => assert_eq!(written, read),
                other => panic!("unexpected answer {:?}", other),
            }
        }
        assert_eq!(&written[..read.len()], &read[..]);
    }
    loop {
        match chan.read(client, &mut buf, 0, 0) {
            Ok(Some(n)) => read.extend_from_slice(&buf[..n]),
            Ok(None) => break,
            other => panic!("unexpected answer {:?}", other),
        }
    }
    assert_eq!(written, read);
}

#[test]
fn a_connection_is_mutual() {
    let mut chan = ChanScheme::new();
    let server = chan.open("hw", O_CREAT, 0, 0).unwrap().unwrap();
    let c1 = chan.open("hw", 0, 0, 0).unwrap().unwrap();
    let c2 = chan.open("hw", 0, 0, 0).unwrap().unwrap();
    let a1 = chan.dup(server, b"listen").unwrap().unwrap();
    let a2 = chan.dup(server, b"listen").unwrap().unwrap();
    let mut buf = [0u8; 2];
    for (from, to, other) in [(c1, a1, a2), (a1, c1, c2), (c2, a2, a1), (a2, c2, c1)] {
        assert_eq!(chan.write(from, b"hi", 0, 0), Ok(Some(2)));
        assert_eq!(chan.read(other, &mut buf, 0, 0), Ok(None));
        assert_eq!(chan.read(to, &mut buf, 0, 0), Ok(Some(2)));
        assert_eq!(&buf, b"hi");
    }
}

#[test]
fn names_must_be_well_formed_utf8() {
    let ill_formed: [&[u8]; 5] = [
        &[0xc0, 0x80],             // overlong
        &[0xed, 0xa0, 0x80],       // surrogate
        &[0xf4, 0x90, 0x80, 0x80], // beyond the last code point
        &[0xe2, 0x82],             // cut short
        &[0x80],                   // continuation alone
    ];
    let well_formed: [&[u8]; 3] = [&[0x61], &[0xc3, 0xa9], &[0xf0, 0x9f, 0x98, 0x80]];
    let mut ipc = IpcScheme::default();
    let mut chan = ChanScheme::new();
    let unnamed = chan.open("", O_CREAT, 0, 0).unwrap().unwrap();
    for name in ill_formed {
        assert_eq!(ipc.open(name, O_CREAT, 0, 0), Err(Error::Permission));
        assert_eq!(chan.dup(unnamed, name), Err(Error::BadFile));
    }
    for name in well_formed {
        let listener = ipc.open(name, O_CREAT, 0, 0).unwrap().unwrap();
        assert_eq!(ipc.open(name, 0, 0, 0), Ok(Some(listener + 1)));
        let bound = chan.dup(unnamed, name).unwrap().unwrap();
        let text = std::str::from_utf8(name).unwrap();
        assert_eq!(chan.open(text, 0, 0, 0), Ok(Some(bound + 1)));
    }
}
