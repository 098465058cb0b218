use vstd::prelude::*;

verus! {

/// Unsigned LEB128 encoding of `n`: seven data bits per byte, the high bit set
/// on every byte but the last; minimal length, no padding.
pub open spec fn leb_bytes(n: nat) -> Seq<u8>
    decreases n,
{
    if n < 128 {
        seq![n as u8]
    } else {
        seq![(n % 128 + 128) as u8] + leb_bytes(n / 128)
    }
}

/// Appends the unsigned LEB128 encoding of `n` to `out`.
pub fn leb_encode(n: u64, out: &mut Vec<u8>)
    ensures
        final(out)@ == old(out)@ + leb_bytes(n as nat),
{
    let mut v: u64 = n;
    while v >= 128
        invariant
            old(out)@ + leb_bytes(n as nat) == out@ + leb_bytes(v as nat),
        decreases v,
    {
        out.push((v % 128 + 128) as u8);
        v = v / 128;
    }
    out.push(v as u8);
    assert(leb_bytes(v as nat) == seq![v as u8]);
}

/// Length in bytes of the unsigned LEB128 encoding of `n`.
pub fn leb_len(n: u64) -> (r: usize)
    ensures
        r == leb_bytes(n as nat).len(),
{
    let mut tmp: Vec<u8> = Vec::new();
    leb_encode(n, &mut tmp);
    tmp.len()
}

} // verus!
