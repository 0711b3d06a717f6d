use vstd::prelude::*;

verus! {

/// Strict byte-lexicographic order: `a` sorts before `b` when at the first
/// differing position `a` holds the smaller byte, or when `a` is a proper
/// prefix of `b`. This is the order of `Vec<u8>` and of the store's keys.
pub open spec fn lex_lt(a: Seq<u8>, b: Seq<u8>) -> bool
    decreases a.len(),
{
    if b.len() == 0 {
        false
    } else if a.len() == 0 {
        true
    } else if a[0] != b[0] {
        a[0] < b[0]
    } else {
        lex_lt(a.drop_first(), b.drop_first())
    }
}

/// Non-strict byte-lexicographic order.
pub open spec fn lex_le(a: Seq<u8>, b: Seq<u8>) -> bool {
    a == b || lex_lt(a, b)
}

pub proof fn lemma_lex_irreflexive(a: Seq<u8>)
    ensures
        !lex_lt(a, a),
    decreases a.len(),
{
    if a.len() > 0 {
        lemma_lex_irreflexive(a.drop_first());
    }
}

pub proof fn lemma_lex_asymmetric(a: Seq<u8>, b: Seq<u8>)
    ensures
        !(lex_lt(a, b) && lex_lt(b, a)),
    decreases a.len(),
{
    if a.len() > 0 && b.len() > 0 && a[0] == b[0] {
        lemma_lex_asymmetric(a.drop_first(), b.drop_first());
    }
}

pub proof fn lemma_lex_total(a: Seq<u8>, b: Seq<u8>)
    ensures
        a == b || lex_lt(a, b) || lex_lt(b, a),
    decreases a.len(),
{
    if a.len() > 0 && b.len() > 0 && a[0] == b[0] {
        lemma_lex_total(a.drop_first(), b.drop_first());
        if a.drop_first() == b.drop_first() {
            assert(a =~= seq![a[0]] + a.drop_first());
            assert(b =~= seq![b[0]] + b.drop_first());
        }
    }
}

pub proof fn lemma_lex_transitive(a: Seq<u8>, b: Seq<u8>, c: Seq<u8>)
    requires
        lex_lt(a, b),
        lex_lt(b, c),
    ensures
        lex_lt(a, c),
    decreases a.len(),
{
    if a.len() > 0 && a[0] == b[0] && b[0] == c[0] {
        lemma_lex_transitive(a.drop_first(), b.drop_first(), c.drop_first());
    }
}

/// A common prefix can be taken off both sides of an equation.
pub proof fn lemma_prefix_cancel(p: Seq<u8>, a: Seq<u8>, b: Seq<u8>)
    requires
        p + a == p + b,
    ensures
        a == b,
{
    assert(a =~= (p + a).subrange(p.len() as int, (p + a).len() as int));
    assert(b =~= (p + b).subrange(p.len() as int, (p + b).len() as int));
}

/// A common prefix does not change the order of two keys.
pub proof fn lemma_lex_common_prefix(p: Seq<u8>, a: Seq<u8>, b: Seq<u8>)
    ensures
        lex_lt(p + a, p + b) == lex_lt(a, b),
    decreases p.len(),
{
    if p.len() > 0 {
        assert((p + a).drop_first() =~= p.drop_first() + a);
        assert((p + b).drop_first() =~= p.drop_first() + b);
        lemma_lex_common_prefix(p.drop_first(), a, b);
    } else {
        assert(p + a =~= a);
        assert(p + b =~= b);
    }
}

/// `a + [0]` is the least key that sorts after `a`.
pub proof fn lemma_lex_successor(a: Seq<u8>, b: Seq<u8>)
    ensures
        lex_lt(a, a.push(0)),
        lex_lt(a, b) == lex_le(a.push(0), b),
    decreases a.len(),
{
    let a0 = a.push(0);
    if a.len() == 0 {
        assert(a0.drop_first() =~= a);
        assert(a0[0] == 0);
        if b.len() == 1 && b[0] == 0 {
            assert(b =~= a0);
        }
        if b.len() > 1 {
            assert(lex_lt(a0.drop_first(), b.drop_first()));
        }
    } else {
        assert(a0[0] == a[0]);
        assert(a0.drop_first() =~= a.drop_first().push(0));
        lemma_lex_successor(a.drop_first(), a.drop_first());
        if b.len() > 0 && a[0] == b[0] {
            lemma_lex_successor(a.drop_first(), b.drop_first());
            if a.drop_first().push(0) == b.drop_first() {
                assert(b =~= seq![b[0]] + b.drop_first());
                assert(a0 =~= seq![a[0]] + a.drop_first().push(0));
            }
            if a0 == b {
                assert(a.drop_first().push(0) =~= b.drop_first());
            }
        } else {
            assert(a0 != b);
        }
    }
}

/// A key at or after `p + s` that does not start with `p` sorts after every
/// key that starts with `p`.
pub proof fn lemma_lex_past_prefix(p: Seq<u8>, s: Seq<u8>, k: Seq<u8>, id: Seq<u8>)
    requires
        lex_le(p + s, k),
        !(p.len() <= k.len() && k.subrange(0, p.len() as int) == p),
    ensures
        lex_lt(p + id, k),
    decreases p.len(),
{
    if p.len() == 0 {
        assert(k.subrange(0, 0) =~= p);
    } else if k.len() == 0 {
        assert(lex_lt(k, p + s) || k == p + s);
        assert((p + s).len() > 0);
    } else if k[0] != p[0] {
        assert((p + s)[0] == p[0]);
        assert((p + id)[0] == p[0]);
        assert(k != p + s);
    } else {
        assert((p + s).drop_first() =~= p.drop_first() + s);
        assert((p + id).drop_first() =~= p.drop_first() + id);
        let k1 = k.drop_first();
        if p.len() - 1 <= k1.len() && k1.subrange(0, p.len() - 1) == p.drop_first() {
            assert forall|i: int| 0 <= i < p.len() implies k[i] == p[i] by {
                if i > 0 {
                    assert(k1.subrange(0, p.len() - 1)[i - 1] == p.drop_first()[i - 1]);
                }
            }
            assert(k.subrange(0, p.len() as int) =~= p);
        }
        if k == p + s {
            assert(k1 == p.drop_first() + s);
        }
        lemma_lex_past_prefix(p.drop_first(), s, k1, id);
    }
}

} // verus!
