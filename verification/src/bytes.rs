//! Fixed-width byte strings: copying, comparing and reading integers.

use vstd::prelude::*;

verus! {

/// The array of `N` bytes whose contents are `s`.
pub open spec fn array_of<const N: usize>(s: Seq<u8>) -> [u8; N] {
    choose|a: [u8; N]| a@ == s
}

/// An array is determined by its contents.
pub proof fn lemma_array_of_view<const N: usize>(a: [u8; N])
    ensures
        array_of::<N>(a@) == a,
{
    let b = array_of::<N>(a@);
    assert(b@ == a@);
    assert(b =~= a);
}

/// Two arrays with the same contents are the same array.
pub proof fn lemma_same_view<const N: usize>(a: [u8; N], b: [u8; N])
    requires
        a@ == b@,
    ensures
        a == b,
{
    assert(a =~= b);
}

/// The array of `N` zero bytes.
pub open spec fn zero_array<const N: usize>() -> [u8; N] {
    array_of::<N>(Seq::new(N as nat, |i: int| 0u8))
}

/// Makes an array of `N` zero bytes.
pub fn zeroed<const N: usize>() -> (a: [u8; N])
    ensures
        a == zero_array::<N>(),
        a@ == Seq::new(N as nat, |i: int| 0u8),
{
    let a: [u8; N] = [0u8; N];
    assert(a@ =~= Seq::new(N as nat, |i: int| 0u8));
    proof {
        lemma_array_of_view(a);
    }
    a
}

/// Appends the bytes of `src` to `out`.
pub fn append_bytes(out: &mut Vec<u8>, src: &[u8])
    ensures
        final(out)@ == old(out)@ + src@,
{
    let mut i: usize = 0;
    while i < src.len()
        invariant
            i <= src.len(),
            out@ == old(out)@ + src@.subrange(0, i as int),
        decreases src.len() - i,
    {
        out.push(src[i]);
        i += 1;
        assert(out@ =~= old(out)@ + src@.subrange(0, i as int));
    }
    assert(src@.subrange(0, src@.len() as int) =~= src@);
}

/// Appends `count` zero bytes to `out`.
pub fn append_zeros(out: &mut Vec<u8>, count: usize)
    ensures
        final(out)@ == old(out)@ + Seq::new(count as nat, |i: int| 0u8),
{
    let mut i: usize = 0;
    while i < count
        invariant
            i <= count,
            out@ == old(out)@ + Seq::new(i as nat, |j: int| 0u8),
        decreases count - i,
    {
        out.push(0u8);
        i += 1;
        assert(out@ =~= old(out)@ + Seq::new(i as nat, |j: int| 0u8));
    }
}

/// Copies the `N` bytes of `bytes` that start at `start` into an array.
pub fn take_array<const N: usize>(bytes: &[u8], start: usize) -> (a: [u8; N])
    requires
        start + N <= bytes.len(),
    ensures
        a@ == bytes@.subrange(start as int, start + N),
        a == array_of::<N>(bytes@.subrange(start as int, start + N)),
{
    let mut a: [u8; N] = [0u8; N];
    let mut i: usize = 0;
    while i < N
        invariant
            i <= N,
            start + N <= bytes.len(),
            forall|j: int| 0 <= j < i ==> a@[j] == bytes@[start + j],
        decreases N - i,
    {
        a[i] = bytes[start + i];
        i += 1;
    }
    assert(a@ =~= bytes@.subrange(start as int, start + N));
    proof {
        lemma_array_of_view(a);
    }
    a
}

/// Whether two byte strings hold the same bytes.
pub fn bytes_equal(a: &[u8], b: &[u8]) -> (same: bool)
    ensures
        same == (a@ == b@),
{
    if a.len() != b.len() {
        return false;
    }
    let mut i: usize = 0;
    while i < a.len()
        invariant
            i <= a.len(),
            a.len() == b.len(),
            forall|j: int| 0 <= j < i ==> a@[j] == b@[j],
        decreases a.len() - i,
    {
        if a[i] != b[i] {
            return false;
        }
        i += 1;
    }
    assert(a@ =~= b@);
    true
}

/// Whether two arrays are equal.
pub fn array_equal<const N: usize>(a: &[u8; N], b: &[u8; N]) -> (same: bool)
    ensures
        same == (*a == *b),
{
    let mut i: usize = 0;
    while i < N
        invariant
            i <= N,
            forall|j: int| 0 <= j < i ==> a@[j] == b@[j],
        decreases N - i,
    {
        if a[i] != b[i] {
            return false;
        }
        i += 1;
    }
    assert(a@ =~= b@);
    proof {
        lemma_same_view(*a, *b);
    }
    true
}

} // verus!
