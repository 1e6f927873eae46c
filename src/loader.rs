//! Turning a program image into platters.
use vstd::prelude::*;

verus! {

/// The byte at position `i` of `b`, or zero past its end.
pub open spec fn byte_or_zero(b: Seq<u8>, i: int) -> int {
    if 0 <= i < b.len() {
        b[i] as int
    } else {
        0
    }
}

/// The `k`-th platter of the image `b`: four bytes, most significant first,
/// with a truncated last chunk read as if padded with zero bytes.
pub open spec fn platter_at(b: Seq<u8>, k: int) -> u32 {
    (byte_or_zero(b, 4 * k) * 0x100_0000 + byte_or_zero(b, 4 * k + 1) * 0x1_0000
        + byte_or_zero(b, 4 * k + 2) * 0x100 + byte_or_zero(b, 4 * k + 3)) as u32
}

/// The platters of the image `b`: one per started chunk of four bytes.
pub open spec fn platters_of(b: Seq<u8>) -> Seq<u32> {
    Seq::new(((b.len() + 3) / 4) as nat, |k: int| platter_at(b, k))
}

/// The byte at position `i + d` of `x`, or zero past its end.
fn byte_or_zero_at(x: &[u8], i: usize, d: usize) -> (r: u32)
    requires
        i <= x@.len(),
    ensures
        r as int == byte_or_zero(x@, i + d),
{
    if d < x.len() - i {
        x[i + d] as u32
    } else {
        0
    }
}

/// Reads a program image as big-endian platters. A trailing chunk of fewer
/// than four bytes is read as if padded with zero bytes.
pub fn read(x: &[u8]) -> (r: Vec<u32>)
    ensures
        r@ == platters_of(x@),
{
    let len: usize = x.len();
    let n: usize = len / 4 + if len % 4 == 0 { 0 } else { 1 };
    assert(n == (x@.len() + 3) / 4);
    let mut r: Vec<u32> = Vec::with_capacity(n);
    let mut k: usize = 0;
    while k < n
        invariant
            n == (x@.len() + 3) / 4,
            len == x@.len(),
            k <= n,
            r@.len() == k,
            forall|j: int| 0 <= j < k ==> r@[j] == platter_at(x@, j),
        decreases n - k,
    {
        assert(4 * k < x@.len());
        let i: usize = 4 * k;
        let b0 = byte_or_zero_at(x, i, 0);
        let b1 = byte_or_zero_at(x, i, 1);
        let b2 = byte_or_zero_at(x, i, 2);
        let b3 = byte_or_zero_at(x, i, 3);
        let w: u32 = b0 * 0x100_0000 + b1 * 0x1_0000 + b2 * 0x100 + b3;
        r.push(w);
        k = k + 1;
    }
    assert(r@ =~= platters_of(x@));
    r
}

} // verus!
