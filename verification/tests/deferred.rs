use ipcd::deferred::{settle, unmount_error, would_block, Deferred, Outcome, Verdict};
use ipcd::error::Error;

fn requests(q: &Deferred<u32>) -> Vec<(u32, bool)> {
    let mut seen = vec![];
    let mut i = 0;
    while let Some(slot) = q.get(i) {
        seen.push((slot.req, slot.canceling));
        i += 1;
    }
    assert_eq!(i, q.len());
    seen
}

#[test]
fn newest_request_stands_in_front() {
    let mut q: Deferred<u32> = Deferred::new();
    assert!(q.is_empty());
    q.push(1);
    q.push(2);
    q.push(3);
    assert_eq!(q.len(), 3);
    assert_eq!(requests(&q), vec![(3, false), (2, false), (1, false)]);
}

#[test]
fn cancel_marks_the_first_match_only() {
    let mut q: Deferred<u32> = Deferred::new();
    q.push(7);
    q.push(5);
    q.push(7);
    assert_eq!(q.cancel(|r: &u32| *r == 7), Some(0));
    assert_eq!(requests(&q), vec![(7, true), (5, false), (7, false)]);
    assert_eq!(q.cancel(|r: &u32| *r == 5), Some(1));
    assert_eq!(q.cancel(|r: &u32| *r == 9), None);
    assert_eq!(requests(&q), vec![(7, true), (5, true), (7, false)]);
}

#[test]
fn verdicts() {
    assert_eq!(settle(true, false), Verdict::Answer);
    assert_eq!(settle(true, true), Verdict::Answer);
    assert_eq!(settle(false, true), Verdict::Fail(Error::Interrupted));
    assert_eq!(settle(false, false), Verdict::Park);
    assert_eq!(unmount_error(true), Error::Interrupted);
    assert_eq!(unmount_error(false), Error::NoDevice);
}

#[test]
fn sweep_keeps_what_still_blocks_in_order() {
    let mut q: Deferred<u32> = Deferred::new();
    for id in [1u32, 2, 3, 4, 5] {
        q.push(id);
    }
    assert_eq!(q.cancel(|r: &u32| *r == 4), Some(1));
    assert_eq!(q.cancel(|r: &u32| *r == 1), Some(4));
    // Requests 5 and 1 complete; 4 is cancelled and still blocks; 3 and 2
    // still block.
    let mut answered = vec![];
    let mut failed = vec![];
    for slot in q.take() {
        let completed = slot.req == 5 || slot.req == 1;
        match q.resolve(slot, completed) {
            Outcome::Answer(req) => answered.push(req),
            Outcome::Fail(req, e) => failed.push((req, e)),
            Outcome::Parked => {}
        }
    }
    assert_eq!(answered, vec![5, 1]);
    assert_eq!(failed, vec![(4, Error::Interrupted)]);
    assert_eq!(q.len(), 2);
    assert_eq!(requests(&q), vec![(3, false), (2, false)]);
}

#[test]
fn drain_ends_every_parked_request() {
    let mut q: Deferred<u32> = Deferred::new();
    q.push(1);
    q.push(2);
    q.push(3);
    assert_eq!(q.cancel(|r: &u32| *r == 2), Some(1));
    assert_eq!(
        q.drain(),
        vec![(3, Error::NoDevice), (2, Error::Interrupted), (1, Error::NoDevice)]
    );
    assert!(q.is_empty());
    assert_eq!(q.drain(), vec![]);
}

#[test]
fn only_two_error_numbers_mean_no_request_yet() {
    assert!(would_block(11));
    assert!(would_block(41));
    assert!(!would_block(4));
    assert!(!would_block(0));
    assert!(!would_block(-11));
}
