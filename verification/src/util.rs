//! Small verified helpers over byte vectors shared by the codec and the
//! cache-key deriver.

use vstd::prelude::*;

verus! {

/// Appends every byte of `src` to `dst`.
pub(crate) fn extend(dst: &mut Vec<u8>, src: &Vec<u8>)
    ensures
        final(dst)@ == old(dst)@ + src@,
{
    let mut i: usize = 0;
    while i < src.len()
        invariant
            i <= src@.len(),
            dst@ == old(dst)@ + src@.take(i as int),
        decreases src@.len() - i,
    {
        dst.push(src[i]);
        proof {
            assert(src@.take(i as int).push(src@[i as int]) =~= src@.take(i + 1));
            assert(old(dst)@ + src@.take(i as int) + seq![src@[i as int]] =~= old(dst)@ + src@.take(
                i + 1,
            ));
        }
        i = i + 1;
    }
    assert(src@.take(src@.len() as int) =~= src@);
}

/// Copies `count` bytes of `bytes` starting at `start` into a fresh vector.
pub(crate) fn copy_range(bytes: &Vec<u8>, start: usize, count: usize) -> (r: Vec<u8>)
    requires
        start + count <= bytes@.len(),
    ensures
        r@ == bytes@.subrange(start as int, start as int + count as int),
{
    let blen: usize = bytes.len();
    let mut r: Vec<u8> = Vec::new();
    let mut j: usize = 0;
    while j < count
        invariant
            j <= count,
            start + count <= blen,
            blen == bytes@.len(),
            r@ == bytes@.subrange(start as int, start as int + j as int),
        decreases count - j,
    {
        r.push(bytes[start + j]);
        assert(r@ =~= bytes@.subrange(start as int, start as int + j as int + 1));
        j = j + 1;
    }
    r
}


} // verus!
