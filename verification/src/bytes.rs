//! Byte strings: comparison and copying of ranges.
use vstd::prelude::*;

verus! {

/// Appends `source[start..end]` to `out`.
pub fn append_range(out: &mut Vec<u8>, source: &[u8], start: usize, end: usize)
    requires
        start <= end <= source@.len(),
    ensures
        final(out)@ == old(out)@ + source@.subrange(start as int, end as int),
{
    let mut i: usize = start;
    assert(source@.subrange(start as int, start as int) =~= Seq::<u8>::empty());
    assert(out@ + source@.subrange(start as int, start as int) =~= out@);
    while i < end
        invariant
            start <= i <= end <= source@.len(),
            out@ == old(out)@ + source@.subrange(start as int, i as int),
        decreases end - i,
    {
        out.push(source[i]);
        assert(out@ =~= old(out)@ + source@.subrange(start as int, i + 1));
        i = i + 1;
    }
}

/// Whether two byte strings are equal.
pub fn bytes_eq(a: &[u8], b: &[u8]) -> (r: bool)
    ensures
        r == (a@ == b@),
{
    if a.len() != b.len() {
        return false;
    }
    let mut i: usize = 0;
    while i < a.len()
        invariant
            i <= a@.len() == b@.len(),
            forall|k: int| 0 <= k < i ==> a@[k] == b@[k],
        decreases a@.len() - i,
    {
        if a[i] != b[i] {
            return false;
        }
        i = i + 1;
    }
    assert(a@ =~= b@);
    true
}

/// The bytes from `start` to `end`.
pub fn byte_range(bytes: &[u8], start: usize, end: usize) -> (r: Vec<u8>)
    requires
        start <= end <= bytes@.len(),
    ensures
        r@ == bytes@.subrange(start as int, end as int),
{
    let mut r: Vec<u8> = Vec::new();
    append_range(&mut r, bytes, start, end);
    assert(r@ =~= bytes@.subrange(start as int, end as int));
    r
}

} // verus!
