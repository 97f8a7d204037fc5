//! The dictionary window: the bytes emitted so far, read back by distance.
use crate::lzma::LzmaError;
use vstd::prelude::*;

verus! {

/// `s` after `n` bytes were each copied from `dist` bytes behind the end, one
/// at a time, so that a copy may overlap what it writes.
pub open spec fn copied(s: Seq<u8>, dist: nat, n: nat) -> Seq<u8>
    decreases n,
{
    if n == 0 {
        s
    } else {
        let t = copied(s, dist, (n - 1) as nat);
        t.push(t[t.len() - dist])
    }
}

pub proof fn lemma_copied_len(s: Seq<u8>, dist: nat, n: nat)
    ensures
        copied(s, dist, n).len() == s.len() + n,
    decreases n,
{
    if n > 0 {
        lemma_copied_len(s, dist, (n - 1) as nat);
    }
}

/// Whether a match may reach `dist` bytes back: at least one byte back, and no
/// further than what was emitted or than the dictionary holds.
pub open spec fn reachable(emitted: nat, dist: nat, dict_size: nat) -> bool {
    1 <= dist && dist <= emitted && dist <= dict_size
}

/// The byte `dist` positions back from the end of `out`, or a corruption
/// error when it lies outside the window.
pub fn byte_back(out: &Vec<u8>, dist: u64, dict_size: u32) -> (r: Result<u8, LzmaError>)
    ensures
        r is Ok <==> reachable(out@.len(), dist as nat, dict_size as nat),
        r is Ok ==> r == Ok::<u8, LzmaError>(out@[out@.len() - dist]),
        r is Err ==> r == Err::<u8, LzmaError>(LzmaError::Corrupted),
{
    if dist == 0 || dist > out.len() as u64 || dist > dict_size as u64 {
        Err(LzmaError::Corrupted)
    } else {
        Ok(out[out.len() - dist as usize])
    }
}

/// The last byte emitted, 0 at the start.
pub fn last_byte(out: &Vec<u8>) -> (r: u8)
    ensures
        r == (if out@.len() == 0 {
            0u8
        } else {
            out@[out@.len() - 1]
        }),
{
    if out.len() == 0 {
        0
    } else {
        out[out.len() - 1]
    }
}

/// Appends `len` bytes, each read `dist` bytes back, one at a time. A
/// distance outside the window is refused as corruption and nothing is written.
pub fn copy_match(out: &mut Vec<u8>, dist: u64, len: usize, dict_size: u32) -> (r: Result<(), LzmaError>)
    requires
        old(out)@.len() + len <= usize::MAX,
    ensures
        r is Ok <==> reachable(old(out)@.len(), dist as nat, dict_size as nat),
        r is Ok ==> final(out)@ == copied(old(out)@, dist as nat, len as nat),
        r is Err ==> r == Err::<(), LzmaError>(LzmaError::Corrupted) && final(out)@ == old(out)@,
{
    if dist == 0 || dist > out.len() as u64 || dist > dict_size as u64 {
        return Err(LzmaError::Corrupted);
    }
    let d: usize = dist as usize;
    let mut i: usize = 0;
    while i < len
        invariant
            i <= len,
            1 <= d <= old(out)@.len(),
            old(out)@.len() + len <= usize::MAX,
            out@ == copied(old(out)@, d as nat, i as nat),
        decreases len - i,
    {
        proof {
            lemma_copied_len(old(out)@, d as nat, i as nat);
        }
        let b = out[out.len() - d];
        out.push(b);
        i = i + 1;
    }
    Ok(())
}

} // verus!
