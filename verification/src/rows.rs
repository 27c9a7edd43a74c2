//! First matches in tables of rows.

use vstd::prelude::*;

verus! {

/// The first position from `i` on whose row satisfies `p`.
pub open spec fn first_from<A>(s: Seq<A>, p: spec_fn(A) -> bool, i: int) -> Option<int>
    decreases s.len() - i,
{
    if i < 0 || i >= s.len() {
        None
    } else if p(s[i]) {
        Some(i)
    } else {
        first_from(s, p, i + 1)
    }
}

/// The first position whose row satisfies `p`.
pub open spec fn first_where<A>(s: Seq<A>, p: spec_fn(A) -> bool) -> Option<int> {
    first_from(s, p, 0)
}

proof fn lemma_first_from<A>(s: Seq<A>, p: spec_fn(A) -> bool, i: int)
    requires
        0 <= i,
    ensures
        match first_from(s, p, i) {
            Some(j) => i <= j < s.len() && p(s[j]) && forall|k: int| i <= k < j ==> !p(#[trigger] s[k]),
            None => forall|k: int| i <= k < s.len() ==> !p(#[trigger] s[k]),
        },
    decreases s.len() - i,
{
    if i < s.len() && !p(s[i]) {
        lemma_first_from(s, p, i + 1);
    }
}

/// The first match satisfies the predicate and no earlier row does; without a match
/// no row does.
pub proof fn lemma_first_where<A>(s: Seq<A>, p: spec_fn(A) -> bool)
    ensures
        match first_where(s, p) {
            Some(j) => 0 <= j < s.len() && p(s[j]) && forall|k: int| 0 <= k < j ==> !p(#[trigger] s[k]),
            None => forall|k: int| 0 <= k < s.len() ==> !p(#[trigger] s[k]),
        },
{
    lemma_first_from(s, p, 0);
}

/// A row that satisfies the predicate, with none before it, is the first match.
pub proof fn lemma_first_is<A>(s: Seq<A>, p: spec_fn(A) -> bool, i: int)
    requires
        0 <= i < s.len(),
        p(s[i]),
        forall|k: int| 0 <= k < i ==> !p(#[trigger] s[k]),
    ensures
        first_where(s, p) == Some(i),
{
    lemma_first_where(s, p);
}

/// Without a row that satisfies the predicate there is no first match.
pub proof fn lemma_first_none<A>(s: Seq<A>, p: spec_fn(A) -> bool)
    requires
        forall|k: int| 0 <= k < s.len() ==> !p(#[trigger] s[k]),
    ensures
        first_where(s, p) is None,
{
    lemma_first_where(s, p);
}

/// A filter keeps exactly the rows that satisfy the predicate.
pub proof fn lemma_filter_members<A>(rows: Seq<A>, p: spec_fn(A) -> bool)
    ensures
        forall|m: A| #[trigger] rows.filter(p).contains(m) <==> rows.contains(m) && p(m),
    decreases rows.len(),
{
    reveal(Seq::filter);
    if rows.len() > 0 {
        lemma_filter_members(rows.drop_last(), p);
        let init = rows.drop_last();
        let last = rows.last();
        assert forall|m: A| #[trigger] rows.filter(p).contains(m) <==> rows.contains(
            m,
        ) && p(m) by {
            assert(init.filter(p).contains(m) <==> init.contains(m) && p(m));
            if rows.filter(p).contains(m) {
                let k = choose|k: int|
                    0 <= k < rows.filter(p).len() && rows.filter(p)[k] == m;
                if k < init.filter(p).len() {
                    assert(init.filter(p)[k] == m);
                    assert(init.contains(m));
                    let q = choose|q: int| 0 <= q < init.len() && init[q] == m;
                    assert(rows[q] == m);
                } else {
                    assert(rows[rows.len() - 1] == m);
                }
            }
            if rows.contains(m) && p(m) {
                let q = choose|q: int| 0 <= q < rows.len() && rows[q] == m;
                if q < init.len() {
                    assert(init[q] == m);
                    assert(init.filter(p).contains(m));
                    let k = choose|k: int| 0 <= k < init.filter(p).len() && init.filter(p)[k] == m;
                    assert(rows.filter(p)[k] == m);
                } else {
                    assert(rows.filter(p)[init.filter(p).len() as int] == m);
                }
            }
        }
    }
}

/// The first row that satisfies the predicate.
pub open spec fn found<A>(rows: Seq<A>, p: spec_fn(A) -> bool) -> Option<A> {
    match first_where(rows, p) {
        Some(i) => Some(rows[i]),
        None => None,
    }
}

/// The table with `row` in the place of the first row that satisfies the predicate, or
/// at the end.
pub open spec fn put_row<A>(rows: Seq<A>, p: spec_fn(A) -> bool, row: A) -> Seq<A> {
    match first_where(rows, p) {
        Some(i) => rows.update(i, row),
        None => rows.push(row),
    }
}

/// A row that was put is found again.
pub proof fn lemma_put_found<A>(rows: Seq<A>, p: spec_fn(A) -> bool, row: A)
    requires
        p(row),
    ensures
        found(put_row(rows, p, row), p) == Some(row),
{
    let after = put_row(rows, p, row);
    lemma_first_where(rows, p);
    let i = match first_where(rows, p) {
        Some(i) => i,
        None => rows.len() as int,
    };
    assert forall|k: int| 0 <= k < i implies !p(#[trigger] after[k]) by {
        assert(!p(rows[k]));
    }
    lemma_first_is(after, p, i);
}

/// Putting a row does not change what is found for a predicate that excludes it.
pub proof fn lemma_put_other<A>(rows: Seq<A>, p: spec_fn(A) -> bool, row: A, q: spec_fn(A) -> bool)
    requires
        p(row),
        forall|x: A| #[trigger] p(x) ==> !q(x),
    ensures
        found(put_row(rows, p, row), q) == found(rows, q),
{
    let after = put_row(rows, p, row);
    lemma_first_where(rows, p);
    lemma_first_where(rows, q);
    assert(!q(row));
    match first_where(rows, p) {
        Some(i) => {
            assert(p(rows[i]));
        },
        None => {},
    }
    match first_where(rows, q) {
        Some(j) => {
            assert(after[j] == rows[j]);
            assert forall|k: int| 0 <= k < j implies !q(#[trigger] after[k]) by {
                assert(!q(rows[k]));
            }
            lemma_first_is(after, q, j);
        },
        None => {
            assert forall|k: int| 0 <= k < after.len() implies !q(#[trigger] after[k]) by {
                if k < rows.len() {
                    assert(!q(rows[k]));
                }
            }
            lemma_first_none(after, q);
        },
    }
}

/// The rows that do not satisfy the predicate.
pub open spec fn without<A>(rows: Seq<A>, p: spec_fn(A) -> bool) -> Seq<A> {
    rows.filter(|x: A| !p(x))
}

/// A row that was removed is not found again.
pub proof fn lemma_without_found<A>(rows: Seq<A>, p: spec_fn(A) -> bool)
    ensures
        found(without(rows, p), p) is None,
{
    let keep = |x: A| !p(x);
    let after = without(rows, p);
    lemma_filter_members(rows, keep);
    assert forall|k: int| 0 <= k < after.len() implies !p(#[trigger] after[k]) by {
        assert(after.contains(after[k]));
    }
    lemma_first_none(after, p);
}

/// Putting a row moves no other row, and adds one at most, behind the others.
pub proof fn lemma_put_keeps_places<A>(rows: Seq<A>, p: spec_fn(A) -> bool, row: A, i: int)
    requires
        0 <= i < rows.len(),
    ensures
        !p(rows[i]) ==> put_row(rows, p, row)[i] == rows[i],
        rows.len() <= put_row(rows, p, row).len() <= rows.len() + 1,
        put_row(rows, p, row).contains(row),
{
    lemma_first_where(rows, p);
    let r = put_row(rows, p, row);
    match first_where(rows, p) {
        Some(k) => {
            assert(r[k] == row);
        },
        None => {
            assert(r[r.len() - 1] == row);
        },
    }
}

} // verus!
