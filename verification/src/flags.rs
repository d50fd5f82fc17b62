use vstd::prelude::*;

verus! {

/// Open flag: do not block; answer "again" instead.
pub const O_NONBLOCK: usize = 0x0004_0000;

/// Open flag: create the listener if the name is free.
pub const O_CREAT: usize = 0x0200_0000;

/// Open flag: with `O_CREAT`, fail if the name is taken.
pub const O_EXCL: usize = 0x0800_0000;

/// Control command: read the handle's flags.
pub const F_GETFL: usize = 3;

/// Control command: replace the handle's flags.
pub const F_SETFL: usize = 4;

/// Readiness: a read or an accept would not block.
pub const EVENT_READ: usize = 1;

/// Readiness: a write would not block.
pub const EVENT_WRITE: usize = 2;

/// Size of a page of memory, in bytes.
pub const PAGE_SIZE: usize = 4096;

/// All bits of `mask` are set in `flags`.
pub open spec fn is_set(flags: usize, mask: usize) -> bool {
    flags & mask == mask
}

/// Tests whether all bits of `mask` are set in `flags`.
pub fn holds(flags: usize, mask: usize) -> (b: bool)
    ensures
        b == is_set(flags, mask),
{
    flags & mask == mask
}

/// A flag that has been set is there.
pub proof fn lemma_set(flags: usize, mask: usize)
    ensures
        is_set(flags | mask, mask),
{
    assert((flags | mask) & mask == mask) by (bit_vector);
}

/// A flag that has been cleared is gone, unless the flag is no bit at all.
pub proof fn lemma_clear(flags: usize, mask: usize)
    requires
        mask != 0,
    ensures
        !is_set(flags & !mask, mask),
{
    assert(mask != 0 ==> (flags & !mask) & mask != mask) by (bit_vector);
}

} // verus!
