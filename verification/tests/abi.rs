use ipcd::deferred::would_block;
use ipcd::error::Error;
use ipcd::flags::{
    holds, EVENT_READ, EVENT_WRITE, F_GETFL, F_SETFL, O_CREAT, O_EXCL, O_NONBLOCK, PAGE_SIZE,
};

#[test]
fn flags_are_those_of_the_kernel() {
    assert_eq!(O_NONBLOCK, syscall::O_NONBLOCK);
    assert_eq!(O_CREAT, syscall::O_CREAT);
    assert_eq!(O_EXCL, syscall::O_EXCL);
    assert_eq!(F_GETFL, syscall::F_GETFL);
    assert_eq!(F_SETFL, syscall::F_SETFL);
    assert_eq!(EVENT_READ, syscall::EVENT_READ.bits());
    assert_eq!(EVENT_WRITE, syscall::EVENT_WRITE.bits());
    assert_eq!(EVENT_READ | EVENT_WRITE, (syscall::EVENT_READ | syscall::EVENT_WRITE).bits());
    assert_eq!(PAGE_SIZE, syscall::PAGE_SIZE);
}

#[test]
fn error_numbers_are_those_of_the_kernel() {
    assert_eq!(Error::Permission.errno(), syscall::EPERM);
    assert_eq!(Error::NotFound.errno(), syscall::ENOENT);
    assert_eq!(Error::AlreadyExists.errno(), syscall::EEXIST);
    assert_eq!(Error::BadFile.errno(), syscall::EBADF);
    assert_eq!(Error::InvalidArgument.errno(), syscall::EINVAL);
    assert_eq!(Error::ConnectionRefused.errno(), syscall::ECONNREFUSED);
    assert_eq!(Error::ConnectionReset.errno(), syscall::ECONNRESET);
    assert_eq!(Error::BrokenPipe.errno(), syscall::EPIPE);
    assert_eq!(Error::NotConnected.errno(), syscall::ENOTCONN);
    assert_eq!(Error::Again.errno(), syscall::EAGAIN);
    assert_eq!(Error::Interrupted.errno(), syscall::EINTR);
    assert_eq!(Error::NoDevice.errno(), syscall::ENODEV);
    assert_eq!(Error::OutOfRange.errno(), syscall::ERANGE);
}

#[test]
fn would_block_is_again_or_would_block() {
    assert!(would_block(syscall::EAGAIN));
    assert!(would_block(syscall::EWOULDBLOCK));
    assert!(!would_block(syscall::EINTR));
    assert!(!would_block(syscall::EBADF));
}

#[test]
fn holds_tests_all_bits() {
    assert!(holds(O_CREAT | O_EXCL, O_CREAT));
    assert!(holds(O_CREAT | O_EXCL, O_CREAT | O_EXCL));
    assert!(!holds(O_CREAT, O_CREAT | O_EXCL));
    assert!(!holds(0, O_NONBLOCK));
    assert!(holds(0, 0));
}
