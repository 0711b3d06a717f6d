use vstd::prelude::*;
use crate::order::{
    lemma_lex_asymmetric, lemma_lex_irreflexive, lemma_lex_total, lemma_lex_transitive, lex_lt,
};

verus! {

/// Whether `k` lies strictly after the optional resume point `start`.
pub open spec fn after(start: Option<Seq<u8>>, k: Seq<u8>) -> bool {
    match start {
        None => true,
        Some(s) => lex_lt(s, k),
    }
}

/// `r` is the ascending run of the first `limit` members of `ids` that lie
/// after `start`: sorted without repeats, and nothing in `ids` past `start`
/// is skipped unless the run is full and that member sorts after all of it.
pub open spec fn is_page(
    r: Seq<Seq<u8>>,
    ids: Set<Seq<u8>>,
    start: Option<Seq<u8>>,
    limit: nat,
) -> bool {
    &&& r.len() <= limit
    &&& forall|i: int| 0 <= i < r.len() ==> ids.contains(#[trigger] r[i]) && after(start, r[i])
    &&& forall|i: int, j: int| 0 <= i < j < r.len() ==> lex_lt(#[trigger] r[i], #[trigger] r[j])
    &&& forall|k: Seq<u8>|
        #![trigger ids.contains(k), r.contains(k)]
        ids.contains(k) && after(start, k) && !r.contains(k) ==> r.len() == limit && forall|
            i: int,
        |
            0 <= i < r.len() ==> lex_lt(#[trigger] r[i], k)
}

/// The page of `ids` after `start` holding at most `limit` members.
pub open spec fn page(ids: Set<Seq<u8>>, start: Option<Seq<u8>>, limit: nat) -> Seq<Seq<u8>> {
    choose|r: Seq<Seq<u8>>| is_page(r, ids, start, limit)
}

/// Where a listing resumes after it returned `r` for the resume point `start`:
/// its last id, or `start` itself when it returned nothing.
pub open spec fn resume_after(start: Option<Seq<u8>>, r: Seq<Seq<u8>>) -> Option<Seq<u8>> {
    if r.len() == 0 {
        start
    } else {
        Some(r.last())
    }
}

proof fn lemma_page_first_difference_not_lower(
    a: Seq<Seq<u8>>,
    b: Seq<Seq<u8>>,
    ids: Set<Seq<u8>>,
    start: Option<Seq<u8>>,
    limit: nat,
    i: int,
)
    requires
        is_page(a, ids, start, limit),
        is_page(b, ids, start, limit),
        0 <= i < a.len(),
        i < b.len(),
        forall|j: int| 0 <= j < i ==> a[j] == b[j],
    ensures
        !lex_lt(a[i], b[i]),
{
    if lex_lt(a[i], b[i]) {
        let x = a[i];
        assert(ids.contains(x) && after(start, x));
        lemma_lex_irreflexive(x);
        lemma_lex_asymmetric(x, b[i]);
        if b.contains(x) {
            let j = choose|j: int| 0 <= j < b.len() && b[j] == x;
            if j < i {
                assert(a[j] == b[j]);
                assert(lex_lt(a[j], a[i]));
            } else if j > i {
                assert(lex_lt(b[i], b[j]));
            }
        } else {
            assert(lex_lt(b[i], x));
        }
    }
}

proof fn lemma_page_agrees_at(
    a: Seq<Seq<u8>>,
    b: Seq<Seq<u8>>,
    ids: Set<Seq<u8>>,
    start: Option<Seq<u8>>,
    limit: nat,
    i: int,
)
    requires
        is_page(a, ids, start, limit),
        is_page(b, ids, start, limit),
        0 <= i < a.len(),
        i < b.len(),
    ensures
        forall|j: int| 0 <= j <= i ==> a[j] == b[j],
    decreases i,
{
    if i > 0 {
        lemma_page_agrees_at(a, b, ids, start, limit, i - 1);
    }
    assert forall|j: int| 0 <= j <= i implies a[j] == b[j] by {
        if j == i {
            lemma_lex_total(a[i], b[i]);
            if lex_lt(a[i], b[i]) {
                lemma_page_first_difference_not_lower(a, b, ids, start, limit, i);
            } else if lex_lt(b[i], a[i]) {
                lemma_page_first_difference_not_lower(b, a, ids, start, limit, i);
            }
        }
    }
}

proof fn lemma_page_not_shorter(
    a: Seq<Seq<u8>>,
    b: Seq<Seq<u8>>,
    ids: Set<Seq<u8>>,
    start: Option<Seq<u8>>,
    limit: nat,
)
    requires
        is_page(a, ids, start, limit),
        is_page(b, ids, start, limit),
        forall|j: int| 0 <= j < a.len() && j < b.len() ==> a[j] == b[j],
    ensures
        a.len() >= b.len(),
{
    if a.len() < b.len() {
        let n = a.len() as int;
        let x = b[n];
        assert(ids.contains(x) && after(start, x));
        lemma_lex_irreflexive(x);
        if a.contains(x) {
            let j = choose|j: int| 0 <= j < a.len() && a[j] == x;
            assert(b[j] == x);
            assert(lex_lt(b[j], b[n]));
        }
    }
}

/// A page is determined by the ids, the resume point and the limit: the
/// listings of this crate are exact.
pub proof fn lemma_page_unique(
    a: Seq<Seq<u8>>,
    b: Seq<Seq<u8>>,
    ids: Set<Seq<u8>>,
    start: Option<Seq<u8>>,
    limit: nat,
)
    requires
        is_page(a, ids, start, limit),
        is_page(b, ids, start, limit),
    ensures
        a == b,
{
    if a.len() > 0 && b.len() > 0 {
        let m = if a.len() < b.len() {
            a.len() - 1
        } else {
            b.len() - 1
        };
        lemma_page_agrees_at(a, b, ids, start, limit, m as int);
    }
    lemma_page_not_shorter(a, b, ids, start, limit);
    lemma_page_not_shorter(b, a, ids, start, limit);
    assert(a =~= b);
}

/// Any page is the chosen `page` of its ids, resume point and limit.
pub proof fn lemma_page_is_page(
    r: Seq<Seq<u8>>,
    ids: Set<Seq<u8>>,
    start: Option<Seq<u8>>,
    limit: nat,
)
    requires
        is_page(r, ids, start, limit),
    ensures
        page(ids, start, limit) == r,
        is_page(page(ids, start, limit), ids, start, limit),
{
    lemma_page_unique(r, page(ids, start, limit), ids, start, limit);
}

/// Pagination composes: a page of `n` ids followed by the page of `m` ids
/// that resumes after it is exactly the page of `n + m` ids, with no id
/// repeated and none skipped, wherever the split falls.
pub proof fn lemma_pages_compose(
    ids: Set<Seq<u8>>,
    start: Option<Seq<u8>>,
    n: nat,
    m: nat,
    first: Seq<Seq<u8>>,
    rest: Seq<Seq<u8>>,
    whole: Seq<Seq<u8>>,
)
    requires
        is_page(first, ids, start, n),
        is_page(rest, ids, resume_after(start, first), m),
        is_page(whole, ids, start, n + m),
    ensures
        whole == first + rest,
{
    let c = first + rest;
    let f = first.len() as int;
    assert forall|i: int| 0 <= i < c.len() implies ids.contains(#[trigger] c[i]) && after(
        start,
        c[i],
    ) by {
        if i >= f {
            assert(c[i] == rest[i - f]);
            assert(after(resume_after(start, first), rest[i - f]));
            if f > 0 {
                assert(after(start, first[f - 1]));
                if let Some(s) = start {
                    lemma_lex_transitive(s, first[f - 1], c[i]);
                }
            }
        }
    }
    assert forall|i: int, j: int| 0 <= i < j < c.len() implies lex_lt(
        #[trigger] c[i],
        #[trigger] c[j],
    ) by {
        if j < f {
        } else if i >= f {
            assert(lex_lt(rest[i - f], rest[j - f]));
        } else {
            assert(lex_lt(first[f - 1], rest[j - f]));
            if i < f - 1 {
                lemma_lex_transitive(first[i], first[f - 1], rest[j - f]);
            }
        }
    }
    assert forall|k: Seq<u8>|
        #![trigger ids.contains(k), c.contains(k)]
        ids.contains(k) && after(start, k) && !c.contains(k) implies c.len() == n + m && forall|
            i: int,
        |
            0 <= i < c.len() ==> lex_lt(#[trigger] c[i], k) by {
        if first.contains(k) {
            let j = choose|j: int| 0 <= j < first.len() && first[j] == k;
            assert(c[j] == k);
        }
        if rest.contains(k) {
            let j = choose|j: int| 0 <= j < rest.len() && rest[j] == k;
            assert(c[f + j] == k);
        }
        assert(first.len() == n);
        if f > 0 {
            assert(lex_lt(first[f - 1], k));
        }
        assert(after(resume_after(start, first), k));
        assert(rest.len() == m);
        assert forall|i: int| 0 <= i < c.len() implies lex_lt(#[trigger] c[i], k) by {
            if i < f {
                assert(lex_lt(first[i], k));
            } else {
                assert(lex_lt(rest[i - f], k));
            }
        }
    }
    assert(is_page(c, ids, start, n + m));
    lemma_page_unique(whole, c, ids, start, n + m);
}

} // verus!
