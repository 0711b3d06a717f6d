use vstd::prelude::*;

verus! {

/// The bytes of `a` followed by those of `b`.
pub fn concat(a: &[u8], b: &[u8]) -> (r: Vec<u8>)
    ensures
        r@ == a@ + b@,
{
    let mut r: Vec<u8> = Vec::new();
    append(&mut r, a);
    append(&mut r, b);
    r
}

/// Appends the bytes of `s` to `out`.
pub fn append(out: &mut Vec<u8>, s: &[u8])
    ensures
        final(out)@ == old(out)@ + s@,
{
    let mut i: usize = 0;
    while i < s.len()
        invariant
            i <= s@.len(),
            out@ == old(out)@ + s@.subrange(0, i as int),
        decreases s@.len() - i,
    {
        out.push(s[i]);
        i = i + 1;
        assert(s@.subrange(0, i as int) =~= s@.subrange(0, i - 1).push(s@[i - 1]));
    }
    assert(s@.subrange(0, i as int) =~= s@);
}

/// Whether `k` begins with the bytes of `p`.
pub fn starts_with(k: &[u8], p: &[u8]) -> (r: bool)
    ensures
        r == (p@.len() <= k@.len() && k@.subrange(0, p@.len() as int) == p@),
{
    if p.len() > k.len() {
        return false;
    }
    let mut i: usize = 0;
    while i < p.len()
        invariant
            p@.len() <= k@.len(),
            i <= p@.len(),
            forall|j: int| 0 <= j < i ==> k@[j] == p@[j],
        decreases p@.len() - i,
    {
        if k[i] != p[i] {
            assert(k@.subrange(0, p@.len() as int)[i as int] != p@[i as int]);
            return false;
        }
        i = i + 1;
    }
    assert(k@.subrange(0, p@.len() as int) =~= p@);
    true
}

/// The bytes of `k` from position `n` on.
pub fn suffix(k: &[u8], n: usize) -> (r: Vec<u8>)
    requires
        n <= k@.len(),
    ensures
        r@ == k@.subrange(n as int, k@.len() as int),
{
    let mut r: Vec<u8> = Vec::new();
    let mut i: usize = n;
    while i < k.len()
        invariant
            n <= i <= k@.len(),
            r@ == k@.subrange(n as int, i as int),
        decreases k@.len() - i,
    {
        r.push(k[i]);
        i = i + 1;
        assert(k@.subrange(n as int, i as int) =~= k@.subrange(n as int, i - 1).push(k@[i - 1]));
    }
    r
}

} // verus!
