use vstd::prelude::*;

verus! {

/// Tells whether two byte strings hold the same bytes.
pub fn bytes_equal(a: &[u8], b: &[u8]) -> (same: bool)
    ensures
        same == (a@ == b@),
{
    if a.len() != b.len() {
        return false;
    }
    let mut i: usize = 0;
    while i < a.len()
        invariant
            a.len() == b.len(),
            i <= a.len(),
            a@.subrange(0, i as int) == b@.subrange(0, i as int),
        decreases a.len() - i,
    {
        if a[i] != b[i] {
            proof {
                assert(a@[i as int] != b@[i as int]);
            }
            return false;
        }
        proof {
            assert(a@.subrange(0, i + 1) =~= a@.subrange(0, i as int).push(a@[i as int]));
            assert(b@.subrange(0, i + 1) =~= b@.subrange(0, i as int).push(b@[i as int]));
        }
        i += 1;
    }
    proof {
        assert(a@ =~= a@.subrange(0, i as int));
        assert(b@ =~= b@.subrange(0, i as int));
    }
    true
}

/// Copies the bytes of `source` from index `from` up to, not including, `to`.
pub fn copy_range(source: &[u8], from: usize, to: usize) -> (copy: Vec<u8>)
    requires
        from <= to <= source@.len(),
    ensures
        copy@ == source@.subrange(from as int, to as int),
{
    let mut copy: Vec<u8> = Vec::new();
    let mut i: usize = from;
    while i < to
        invariant
            from <= i <= to,
            to <= source@.len(),
            copy@ == source@.subrange(from as int, i as int),
        decreases to - i,
    {
        copy.push(source[i]);
        proof {
            assert(copy@ =~= source@.subrange(from as int, i + 1));
        }
        i += 1;
    }
    copy
}

/// Copies a whole byte string.
pub fn copy_bytes(source: &[u8]) -> (copy: Vec<u8>)
    ensures
        copy@ == source@,
{
    let copy = copy_range(source, 0, source.len());
    proof {
        assert(source@.subrange(0, source@.len() as int) =~= source@);
    }
    copy
}

} // verus!
