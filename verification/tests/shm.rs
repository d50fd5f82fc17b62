use ipcd::error::Error;
use ipcd::flags::PAGE_SIZE;
use ipcd::shm::{MapPlan, MmapGuard, ShmScheme};

#[test]
fn open_counts_and_close_releases() {
    let mut shm = ShmScheme::new();
    let a = shm.open("pool", 0, 0, 0).unwrap();
    let b = shm.open("pool", 0, 0, 0).unwrap();
    let c = shm.open("other", 0, 0, 0).unwrap();
    assert_eq!((a, b, c), (0, 1, 2));
    assert_eq!(shm.next_id(), 3);
    assert_eq!(shm.mmap_prep(a, 0, 10, 0), Ok(MapPlan::Allocate(PAGE_SIZE)));
    let guard = MmapGuard::new(0x10000, PAGE_SIZE).unwrap();
    assert_eq!(shm.mmap_done(a, 0, guard), Ok(0x10000));
    // The other handle on the name sees the same region.
    assert_eq!(shm.mmap_prep(b, 16, 100, 0), Ok(MapPlan::Mapped(0x10010)));
    // Closing one of two handles keeps the region.
    assert_eq!(shm.close(a), Ok(None));
    assert_eq!(shm.mmap_prep(b, 0, PAGE_SIZE, 0), Ok(MapPlan::Mapped(0x10000)));
    // Closing the last one hands it back.
    assert_eq!(shm.close(b), Ok(Some(guard)));
    assert_eq!(shm.close(b), Err(Error::BadFile));
    // A name without a region hands nothing back.
    assert_eq!(shm.close(c), Ok(None));
    // The name starts afresh.
    let d = shm.open("pool", 0, 0, 0).unwrap();
    assert_eq!(d, 3);
    assert_eq!(shm.mmap_prep(d, 0, 1, 0), Ok(MapPlan::Allocate(PAGE_SIZE)));
}

#[test]
fn mapping_is_checked_against_the_region() {
    let mut shm = ShmScheme::new();
    let a = shm.open("pool", 0, 0, 0).unwrap();
    assert_eq!(shm.mmap_prep(7, 0, 1, 0), Err(Error::BadFile));
    assert_eq!(shm.mmap_prep(a, 0, PAGE_SIZE + 1, 0), Ok(MapPlan::Allocate(2 * PAGE_SIZE)));
    assert_eq!(shm.mmap_prep(a, 0, 0, 0), Ok(MapPlan::Allocate(0)));
    assert_eq!(shm.mmap_prep(a, 0, 2 * PAGE_SIZE, 0), Ok(MapPlan::Allocate(2 * PAGE_SIZE)));
    assert_eq!(shm.mmap_prep(a, 0, usize::MAX, 0), Err(Error::OutOfRange));
    assert!(shm.lacks_region(a));
    let guard = MmapGuard::new(0x20000, 2 * PAGE_SIZE).unwrap();
    assert_eq!(shm.mmap_done(a, 8, guard), Ok(0x20008));
    assert!(!shm.lacks_region(a));
    assert!(!shm.lacks_region(99));
    assert_eq!(shm.mmap_prep(a, 0, 2 * PAGE_SIZE, 0), Ok(MapPlan::Mapped(0x20000)));
    assert_eq!(
        shm.mmap_prep(a, PAGE_SIZE as u64, PAGE_SIZE, 0),
        Ok(MapPlan::Mapped(0x20000 + PAGE_SIZE))
    );
    assert_eq!(shm.mmap_prep(a, 1, 2 * PAGE_SIZE, 0), Err(Error::OutOfRange));
    assert_eq!(shm.mmap_prep(a, 2 * PAGE_SIZE as u64 + 1, 0, 0), Err(Error::OutOfRange));
    assert_eq!(shm.mmap_prep(a, u64::MAX, 1, 0), Err(Error::OutOfRange));
    assert_eq!(shm.mmap_prep(a, 0, usize::MAX, 0), Err(Error::OutOfRange));
    assert_eq!(
        shm.mmap_prep(a, 2 * PAGE_SIZE as u64, 0, 0),
        Ok(MapPlan::Mapped(0x20000 + 2 * PAGE_SIZE))
    );
}

#[test]
fn first_mapping_answers_base_plus_offset() {
    let mut shm = ShmScheme::new();
    let a = shm.open("pool", 0, 0, 0).unwrap();
    let guard = MmapGuard::new(usize::MAX - PAGE_SIZE, PAGE_SIZE).unwrap();
    assert_eq!(shm.mmap_done(a, PAGE_SIZE as u64 + 1, guard), Err(Error::OutOfRange));
    assert!(!shm.lacks_region(a));
    assert_eq!(shm.close(a), Ok(Some(guard)));
}

#[test]
fn regions() {
    assert_eq!(MmapGuard::new(usize::MAX, 1), None);
    assert_eq!(MmapGuard::new(1, usize::MAX), None);
    let full = MmapGuard::new(0, usize::MAX).unwrap();
    assert_eq!(full.len(), usize::MAX);
    assert_eq!(full.as_ptr(), 0);
    let g = MmapGuard::new(4096, 8192).unwrap();
    assert_eq!(g.len(), 8192);
    assert_eq!(g.as_ptr(), 4096);
    assert_eq!(g.release(), Some((4096, 8192)));
    let empty = MmapGuard::new(4096, 0).unwrap();
    assert_eq!(empty.release(), None);
}

#[test]
fn shm_fpath() {
    let mut shm = ShmScheme::new();
    let a = shm.open("pool", 0, 0, 0).unwrap();
    let mut buf = [b'.'; 10];
    assert_eq!(shm.fpath(a, &mut buf), Ok(8));
    assert_eq!(&buf, b"shm:pool..");
    let mut small = [b'.'; 6];
    assert_eq!(shm.fpath(a, &mut small), Ok(6));
    assert_eq!(&small, b"shm:po");
    let mut tiny = [b'.'; 2];
    assert_eq!(shm.fpath(a, &mut tiny), Ok(2));
    assert_eq!(&tiny, b"sh");
    let mut buf = [b'.'; 10];
    assert_eq!(shm.fpath(9, &mut buf), Err(Error::BadFile));
    assert_eq!(&buf, b"shm:......");
    let mut tiny = [b'.'; 2];
    assert_eq!(shm.fpath(9, &mut tiny), Err(Error::BadFile));
    assert_eq!(&tiny, b"sh");
    let e = shm.open("", 0, 0, 0).unwrap();
    assert_eq!(shm.fpath(e, &mut buf), Ok(4));
}
