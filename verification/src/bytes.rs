//! Small helpers on byte buffers.
use vstd::prelude::*;

verus! {

/// Appends `bytes` to `buffer`.
pub fn append_bytes(buffer: &mut Vec<u8>, bytes: &[u8])
    ensures
        final(buffer)@ == old(buffer)@ + bytes@,
{
    buffer.extend_from_slice(bytes);
    assert(buffer@ =~= old(buffer)@ + bytes@);
}

/// Tells whether two slices hold the same bytes.
pub fn same_bytes(first: &[u8], second: &[u8]) -> (r: bool)
    ensures
        r == (first@ == second@),
{
    if first.len() != second.len() {
        return false;
    }
    let mut i: usize = 0;
    while i < first.len()
        invariant
            i <= first.len(),
            first@.len() == second@.len(),
            forall|j: int| 0 <= j < i ==> first@[j] == second@[j],
        decreases first.len() - i,
    {
        if first[i] != second[i] {
            return false;
        }
        i += 1;
    }
    assert(first@ =~= second@);
    true
}

} // verus!
