//! Bytes: comparing them, copying them into a buffer that may be too small,
//! and reading them as a name.

use vstd::prelude::*;
use vstd::utf8::{encode_utf8, valid_utf8};

verus! {

/// How many bytes fit: the smaller of the room and the supply.
pub open spec fn fit(room: nat, supply: nat) -> nat {
    if room < supply {
        room
    } else {
        supply
    }
}

/// The first `n` bytes of `dst` replaced by the first `n` bytes of `src`.
pub open spec fn overlay(dst: Seq<u8>, src: Seq<u8>, n: nat) -> Seq<u8> {
    src.take(n as int) + dst.skip(n as int)
}

/// Whether two slices hold the same bytes.
pub fn same_bytes(a: &[u8], b: &[u8]) -> (r: bool)
    ensures
        r == (a@ == b@),
{
    if a.len() != b.len() {
        return false;
    }
    let mut i: usize = 0;
    while i < a.len()
        invariant
            i <= a@.len(),
            a@.len() == b@.len(),
            forall|j: int| 0 <= j < i ==> a@[j] == b@[j],
        decreases a@.len() - i,
    {
        if a[i] != b[i] {
            return false;
        }
        i += 1;
    }
    assert(a@ =~= b@);
    true
}

/// Copies as much of `src` as fits into `dst` from position `at` on, and
/// returns how much that was.
pub fn copy_into(dst: &mut [u8], at: usize, src: &[u8]) -> (n: usize)
    requires
        at <= old(dst)@.len(),
    ensures
        n == fit((old(dst)@.len() - at) as nat, src@.len()),
        final(dst)@ == old(dst)@.take(at as int) + src@.take(n as int) + old(dst)@.skip(at + n),
{
    let room: usize = dst.len() - at;
    let n: usize = if room < src.len() {
        room
    } else {
        src.len()
    };
    let mut i: usize = 0;
    while i < n
        invariant
            i <= n,
            at + n <= dst@.len() <= usize::MAX,
            n <= src@.len(),
            dst@.len() == old(dst)@.len(),
            dst@ == old(dst)@.take(at as int) + src@.take(i as int) + old(dst)@.skip(at + i),
        decreases n - i,
    {
        dst[at + i] = src[i];
        i += 1;
    }
    n
}

/// `core::str::from_utf8`: the string that the bytes encode, if they are
/// valid UTF-8. Trusted: that the call succeeds on exactly the valid byte
/// sequences, and that the string it gives has those bytes.
#[verifier::external_body]
pub(crate) fn str_from_utf8(bytes: &[u8]) -> (r: Option<&str>)
    ensures
        r is Some <==> valid_utf8(bytes@),
        r matches Some(s) ==> encode_utf8(s@) == bytes@,
{
    core::str::from_utf8(bytes).ok()
}

} // verus!
