use vstd::prelude::*;
use crate::bytes::append;

verus! {

/// The largest length a namespace component can have: its length is written
/// in two bytes.
pub const MAX_COMPONENT_LEN: usize = 0xFFFF;

/// The two-byte big-endian length of a component.
pub open spec fn encode_length(n: nat) -> Seq<u8> {
    seq![(n / 256) as u8, (n % 256) as u8]
}

/// A component preceded by its length.
pub open spec fn length_prefixed(c: Seq<u8>) -> Seq<u8> {
    encode_length(c.len()) + c
}

/// The key prefix of a nested namespace: each component length-prefixed, in order.
pub open spec fn nested_prefix(cs: Seq<Seq<u8>>) -> Seq<u8>
    decreases cs.len(),
{
    if cs.len() == 0 {
        Seq::empty()
    } else {
        nested_prefix(cs.drop_last()) + length_prefixed(cs.last())
    }
}

/// The key prefix of a single-level namespace.
pub fn to_length_prefixed(component: &[u8]) -> (r: Vec<u8>)
    requires
        component@.len() <= MAX_COMPONENT_LEN,
    ensures
        r@ == length_prefixed(component@),
{
    let mut r: Vec<u8> = Vec::new();
    push_length_prefixed(&mut r, component);
    assert(r@ =~= length_prefixed(component@));
    r
}

/// The key prefix of a nested namespace.
pub fn to_length_prefixed_nested(components: &[&[u8]]) -> (r: Vec<u8>)
    requires
        forall|i: int| 0 <= i < components@.len() ==> (#[trigger] components@[i])@.len() <= MAX_COMPONENT_LEN,
    ensures
        r@ == nested_prefix(components@.map_values(|c: &[u8]| c@)),
{
    let ghost cs = components@.map_values(|c: &[u8]| c@);
    let mut r: Vec<u8> = Vec::new();
    let mut i: usize = 0;
    while i < components.len()
        invariant
            i <= components@.len(),
            cs == components@.map_values(|c: &[u8]| c@),
            forall|j: int| 0 <= j < components@.len() ==> (#[trigger] components@[j])@.len() <= MAX_COMPONENT_LEN,
            r@ == nested_prefix(cs.subrange(0, i as int)),
        decreases components@.len() - i,
    {
        let c: &[u8] = components[i];
        push_length_prefixed(&mut r, c);
        i = i + 1;
        assert(cs.subrange(0, i as int).drop_last() =~= cs.subrange(0, i - 1));
    }
    assert(cs.subrange(0, i as int) =~= cs);
    r
}

fn push_length_prefixed(out: &mut Vec<u8>, c: &[u8])
    requires
        c@.len() <= MAX_COMPONENT_LEN,
    ensures
        final(out)@ == old(out)@ + length_prefixed(c@),
{
    let n: usize = c.len();
    out.push((n / 256) as u8);
    out.push((n % 256) as u8);
    append(out, c);
    assert(final(out)@ =~= old(out)@ + length_prefixed(c@));
}

} // verus!
