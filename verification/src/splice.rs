use vstd::prelude::*;

verus! {

/// Returns a copy of `src`.
pub fn copy_bytes(src: &Vec<u8>) -> (r: Vec<u8>)
    ensures
        r@ == src@,
{
    let mut out: Vec<u8> = Vec::new();
    let mut i: usize = 0;
    while i < src.len()
        invariant
            i <= src.len(),
            out@ == src@.take(i as int),
        decreases src.len() - i,
    {
        out.push(src[i]);
        assert(out@ =~= src@.take(i as int + 1));
        i = i + 1;
    }
    assert(out@ =~= src@);
    out
}

/// The result of inserting `insert` into `original` at position `at`:
/// everything before `at` unchanged, then `insert`, then the rest unchanged.
pub open spec fn spliced(original: Seq<u8>, at: int, insert: Seq<u8>) -> Seq<u8> {
    original.take(at) + insert + original.skip(at)
}

/// Pure byte concatenation `original[..at] ++ insert ++ original[at..]`.
/// Nothing outside the insertion window is read or changed.
pub fn splice(original: &Vec<u8>, at: usize, insert: &Vec<u8>) -> (r: Vec<u8>)
    requires
        at <= original.len(),
    ensures
        r@ == spliced(original@, at as int, insert@),
{
    let mut out: Vec<u8> = Vec::new();
    let mut i: usize = 0;
    while i < at
        invariant
            i <= at <= original.len(),
            out@ == original@.take(i as int),
        decreases at - i,
    {
        out.push(original[i]);
        assert(out@ =~= original@.take(i as int + 1));
        i = i + 1;
    }
    assert(original@.take(at as int) + insert@.take(0) =~= original@.take(at as int));
    let mut j: usize = 0;
    while j < insert.len()
        invariant
            at <= original.len(),
            j <= insert.len(),
            out@ == original@.take(at as int) + insert@.take(j as int),
        decreases insert.len() - j,
    {
        out.push(insert[j]);
        assert(out@ =~= original@.take(at as int) + insert@.take(j as int + 1));
        j = j + 1;
    }
    assert(insert@.take(insert@.len() as int) =~= insert@);
    assert(original@.subrange(at as int, at as int) =~= Seq::<u8>::empty());
    assert(out@ =~= original@.take(at as int) + insert@ + original@.subrange(at as int, at as int));
    let mut k: usize = at;
    while k < original.len()
        invariant
            at <= k <= original.len(),
            j == insert.len(),
            out@ == original@.take(at as int) + insert@ + original@.subrange(at as int, k as int),
        decreases original.len() - k,
    {
        out.push(original[k]);
        assert(out@ =~= original@.take(at as int) + insert@ + original@.subrange(
            at as int,
            k as int + 1,
        ));
        k = k + 1;
    }
    assert(insert@.take(insert@.len() as int) =~= insert@);
    assert(original@.subrange(at as int, original@.len() as int) =~= original@.skip(at as int));
    out
}

} // verus!
